use shift_reduce::engine::{accept, applies, candidates, find_reduction, reduce, recognize, trace};
use shift_reduce::tree::copy_tail;
use shift_reduce::{
    Expression, Grammar, NonTerminal, ParseFailure, Parser, StackValue, Step, Terminal,
};

fn number() -> StackValue {
    StackValue::Tree {
        head: NonTerminal::Number,
        values: vec![StackValue::Terminal(Terminal::Zero)],
    }
}

fn tree(head: NonTerminal) -> StackValue {
    StackValue::Tree { head, values: vec![number()] }
}

fn print(value: &StackValue) -> String {
    format!("{:?}", value)
}

fn items() -> Vec<(NonTerminal, Vec<Expression>)> {
    vec![
        (
            NonTerminal::Sum,
            vec![
                Expression::NonTerminal(NonTerminal::Sum),
                Expression::Terminal(Terminal::Plus),
                Expression::NonTerminal(NonTerminal::Sub),
            ],
        ),
        (NonTerminal::Sum, vec![Expression::NonTerminal(NonTerminal::Sub)]),
        (NonTerminal::Number, vec![Expression::Terminal(Terminal::Zero)]),
    ]
}

#[test]
fn a_tree_fits_the_slot_of_its_head_only() {
    let value = tree(NonTerminal::Sub);
    assert!(value.fits(&Expression::NonTerminal(NonTerminal::Sub)));
    assert!(!value.fits(&Expression::NonTerminal(NonTerminal::Sum)));
    assert!(!value.fits(&Expression::Terminal(Terminal::Zero)));
}

#[test]
fn a_terminal_fits_the_slot_of_the_same_terminal_only() {
    let value = StackValue::Terminal(Terminal::Plus);
    assert!(value.fits(&Expression::Terminal(Terminal::Plus)));
    assert!(!value.fits(&Expression::Terminal(Terminal::Minus)));
    assert!(!value.fits(&Expression::NonTerminal(NonTerminal::Sum)));
}

#[test]
fn a_production_is_matched_against_the_tail() {
    let all = items();
    let stack = vec![
        StackValue::Terminal(Terminal::LeftParen),
        tree(NonTerminal::Sum),
        StackValue::Terminal(Terminal::Plus),
        tree(NonTerminal::Sub),
    ];
    assert!(applies(&all[0], &stack));
    assert!(applies(&all[1], &stack));
    assert!(!applies(&all[2], &stack));
    // The head of the stack matches, its tail does not.
    let stack = vec![
        tree(NonTerminal::Sum),
        StackValue::Terminal(Terminal::Plus),
        tree(NonTerminal::Sub),
        StackValue::Terminal(Terminal::Star),
    ];
    assert!(!applies(&all[0], &stack));
    assert!(!applies(&all[1], &stack));
}

#[test]
fn a_production_longer_than_the_stack_does_not_match() {
    let all = items();
    let stack = vec![StackValue::Terminal(Terminal::Plus), tree(NonTerminal::Sub)];
    assert!(!applies(&all[0], &stack));
    assert!(!applies(&all[0], &Vec::new()));
}

#[test]
fn an_empty_production_matches_any_stack() {
    let empty = (NonTerminal::Atom, Vec::new());
    assert!(applies(&empty, &Vec::new()));
    assert!(applies(&empty, &vec![number()]));
}

#[test]
fn candidates_come_in_the_order_of_the_rules() {
    let stack = vec![
        tree(NonTerminal::Sum),
        StackValue::Terminal(Terminal::Plus),
        tree(NonTerminal::Sub),
    ];
    assert_eq!(
        candidates(&items(), &stack),
        vec![(3, NonTerminal::Sum), (1, NonTerminal::Sum)]
    );
    assert_eq!(
        candidates(&items(), &vec![StackValue::Terminal(Terminal::Zero)]),
        vec![(1, NonTerminal::Number)]
    );
    assert_eq!(candidates(&items(), &vec![number()]), vec![]);
}

#[test]
fn find_reduction_tells_none_one_and_many_apart() {
    let all = items();
    assert!(matches!(find_reduction(&all, &Vec::new()), Ok(None)));
    assert!(matches!(
        find_reduction(&all, &vec![StackValue::Terminal(Terminal::Plus)]),
        Ok(None)
    ));
    assert!(matches!(
        find_reduction(&all, &vec![tree(NonTerminal::Sub)]),
        Ok(Some((1, NonTerminal::Sum)))
    ));
    let stack = vec![
        StackValue::Terminal(Terminal::Star),
        tree(NonTerminal::Sum),
        StackValue::Terminal(Terminal::Plus),
        tree(NonTerminal::Sub),
    ];
    match find_reduction(&all, &stack) {
        Err(ParseFailure::AmbiguousGrammar { candidates }) => {
            assert_eq!(candidates.len(), 2);
            assert_eq!(candidates[0].0, NonTerminal::Sum);
            assert_eq!(candidates[0].1.len(), 3);
            assert_eq!(print(&candidates[0].1[0]), print(&stack[1]));
            assert_eq!(print(&candidates[0].1[1]), print(&stack[2]));
            assert_eq!(print(&candidates[0].1[2]), print(&stack[3]));
            assert_eq!(candidates[1].0, NonTerminal::Sum);
            assert_eq!(candidates[1].1.len(), 1);
            assert_eq!(print(&candidates[1].1[0]), print(&stack[3]));
        }
        other => panic!("unexpected result: {:?}", other),
    }
}

#[test]
fn reduce_wraps_the_tail_and_keeps_the_rest() {
    let mut stack = vec![
        StackValue::Terminal(Terminal::LeftParen),
        tree(NonTerminal::Sum),
        StackValue::Terminal(Terminal::Plus),
        tree(NonTerminal::Sub),
    ];
    let expected = StackValue::Tree {
        head: NonTerminal::Sum,
        values: vec![
            tree(NonTerminal::Sum),
            StackValue::Terminal(Terminal::Plus),
            tree(NonTerminal::Sub),
        ],
    };
    reduce(&mut stack, 3, NonTerminal::Sum);
    assert_eq!(stack.len(), 2);
    assert_eq!(print(&stack[0]), "Terminal(LeftParen)");
    assert_eq!(print(&stack[1]), print(&expected));
}

#[test]
fn reduce_of_nothing_pushes_an_empty_tree() {
    let mut stack = vec![number()];
    reduce(&mut stack, 0, NonTerminal::Atom);
    assert_eq!(stack.len(), 2);
    assert_eq!(print(&stack[0]), print(&number()));
    assert_eq!(
        print(&stack[1]),
        print(&StackValue::Tree { head: NonTerminal::Atom, values: vec![] })
    );
}

#[test]
fn reduce_of_everything_leaves_one_tree() {
    let mut stack = vec![StackValue::Terminal(Terminal::Zero)];
    reduce(&mut stack, 1, NonTerminal::Number);
    assert_eq!(stack.len(), 1);
    assert_eq!(print(&stack[0]), print(&number()));
}

#[test]
fn accept_takes_one_tree_under_the_starting_symbol() {
    let value = accept(vec![tree(NonTerminal::Sum)], NonTerminal::Sum).unwrap();
    assert_eq!(print(&value), print(&tree(NonTerminal::Sum)));
}

#[test]
fn accept_takes_one_terminal() {
    let value = accept(vec![StackValue::Terminal(Terminal::Star)], NonTerminal::Sum).unwrap();
    assert_eq!(print(&value), "Terminal(Star)");
}

#[test]
fn accept_refuses_a_tree_under_another_head() {
    match accept(vec![tree(NonTerminal::Sub)], NonTerminal::Sum) {
        Err(ParseFailure::Rejected { stack }) => {
            assert_eq!(stack.len(), 1);
            assert_eq!(print(&stack[0]), print(&tree(NonTerminal::Sub)));
        }
        other => panic!("unexpected result: {:?}", other),
    }
}

#[test]
fn accept_refuses_none_and_many() {
    match accept(Vec::new(), NonTerminal::Sum) {
        Err(ParseFailure::Rejected { stack }) => assert!(stack.is_empty()),
        other => panic!("unexpected result: {:?}", other),
    }
    let two = vec![tree(NonTerminal::Sum), tree(NonTerminal::Sum)];
    match accept(two, NonTerminal::Sum) {
        Err(ParseFailure::Rejected { stack }) => assert_eq!(stack.len(), 2),
        other => panic!("unexpected result: {:?}", other),
    }
}

#[test]
fn a_copy_is_equal_and_apart() {
    let first = tree(NonTerminal::Mult);
    let mut copy = first.clone();
    assert_eq!(print(&copy), print(&first));
    if let StackValue::Tree { values, .. } = &mut copy {
        values.clear();
    }
    assert_eq!(print(&first), print(&tree(NonTerminal::Mult)));
    assert_eq!(
        print(&StackValue::Terminal(Terminal::Minus).clone()),
        "Terminal(Minus)"
    );
}

#[test]
fn copy_tail_copies_the_last_entries() {
    let stack = vec![
        StackValue::Terminal(Terminal::LeftParen),
        tree(NonTerminal::Sum),
        StackValue::Terminal(Terminal::RightParen),
    ];
    let tail = copy_tail(&stack, 2);
    assert_eq!(tail.len(), 2);
    assert_eq!(print(&tail[0]), print(&stack[1]));
    assert_eq!(print(&tail[1]), print(&stack[2]));
    assert!(copy_tail(&stack, 0).is_empty());
    assert_eq!(copy_tail(&stack, 3).len(), 3);
}

#[test]
fn recognize_reduces_as_long_as_one_production_matches() {
    // number -> '0', atom -> number, and nothing above: the stack comes to
    // rest on a single atom, which is no tree under the starting symbol.
    let grammar = Grammar {
        starting_symbol: NonTerminal::Sum,
        rules: vec![
            (NonTerminal::Number, vec![vec![Expression::Terminal(Terminal::Zero)]]),
            (NonTerminal::Atom, vec![vec![Expression::NonTerminal(NonTerminal::Number)]]),
        ],
    };
    match recognize(&grammar.flatten(), NonTerminal::Sum, &vec![Terminal::Zero]) {
        Err(ParseFailure::Rejected { stack }) => {
            assert_eq!(stack.len(), 1);
            assert_eq!(print(&stack[0]), print(&tree(NonTerminal::Atom)));
        }
        other => panic!("unexpected result: {:?}", other),
    }
    let value = recognize(&grammar.flatten(), NonTerminal::Atom, &vec![Terminal::Zero]).unwrap();
    assert_eq!(print(&value), print(&tree(NonTerminal::Atom)));
}

#[test]
fn recognize_reduces_once_more_after_the_last_token() {
    let grammar = Grammar {
        starting_symbol: NonTerminal::Sum,
        rules: vec![(
            NonTerminal::Sum,
            vec![vec![
                Expression::Terminal(Terminal::Zero),
                Expression::Terminal(Terminal::Plus),
                Expression::Terminal(Terminal::Zero),
            ]],
        )],
    };
    let tokens = vec![Terminal::Zero, Terminal::Plus, Terminal::Zero];
    let value = recognize(&grammar.flatten(), NonTerminal::Sum, &tokens).unwrap();
    let expected = StackValue::Tree {
        head: NonTerminal::Sum,
        values: vec![
            StackValue::Terminal(Terminal::Zero),
            StackValue::Terminal(Terminal::Plus),
            StackValue::Terminal(Terminal::Zero),
        ],
    };
    assert_eq!(print(&value), print(&expected));
}

fn sums() -> Grammar {
    Grammar {
        starting_symbol: NonTerminal::Sum,
        rules: vec![
            (
                NonTerminal::Sum,
                vec![
                    vec![
                        Expression::NonTerminal(NonTerminal::Sum),
                        Expression::Terminal(Terminal::Plus),
                        Expression::NonTerminal(NonTerminal::Number),
                    ],
                    vec![Expression::NonTerminal(NonTerminal::Sub)],
                ],
            ),
            (NonTerminal::Sub, vec![vec![Expression::NonTerminal(NonTerminal::Number)]]),
            (NonTerminal::Number, vec![vec![Expression::Terminal(Terminal::Zero)]]),
        ],
    }
}

#[test]
fn the_log_holds_every_shift_and_reduction_in_order() {
    // 0 + 0: the first zero climbs to a sum; the second is reduced to a
    // number, on which "sum + number" and "sub <- number" both match.
    let grammar = sums();
    let tokens = vec![Terminal::Zero, Terminal::Plus, Terminal::Zero];
    let (result, log) = trace(&grammar.flatten(), NonTerminal::Sum, &tokens);
    assert_eq!(
        log,
        vec![
            Step::Shift(Terminal::Zero),
            Step::Reduce { len: 1, head: NonTerminal::Number },
            Step::Reduce { len: 1, head: NonTerminal::Sub },
            Step::Reduce { len: 1, head: NonTerminal::Sum },
            Step::Shift(Terminal::Plus),
            Step::Shift(Terminal::Zero),
            Step::Reduce { len: 1, head: NonTerminal::Number },
        ]
    );
    match result {
        Err(ParseFailure::AmbiguousGrammar { candidates }) => {
            assert_eq!(candidates.len(), 2);
            assert_eq!(candidates[0].0, NonTerminal::Sum);
            assert_eq!(candidates[0].1.len(), 3);
            assert_eq!(candidates[1].0, NonTerminal::Sub);
            assert_eq!(candidates[1].1.len(), 1);
        }
        other => panic!("unexpected result: {:?}", other),
    }
}

#[test]
fn the_log_of_an_accepted_input_rebuilds_its_tree() {
    let grammar = sums();
    let tokens = vec![Terminal::Zero];
    let (result, log) = trace(&grammar.flatten(), NonTerminal::Sum, &tokens);
    let mut stack: Vec<StackValue> = Vec::new();
    for step in &log {
        match *step {
            Step::Shift(t) => stack.push(StackValue::Terminal(t)),
            Step::Reduce { len, head } => reduce(&mut stack, len, head),
        }
    }
    assert_eq!(log.len(), 4);
    assert_eq!(stack.len(), 1);
    assert_eq!(print(&stack[0]), print(&result.unwrap()));
}

#[test]
fn the_log_of_an_empty_input_is_empty() {
    let (result, log) = trace(&sums().flatten(), NonTerminal::Sum, &Vec::new());
    assert!(log.is_empty());
    assert!(matches!(result, Err(ParseFailure::Rejected { stack }) if stack.is_empty()));
}

#[test]
fn a_rejected_input_is_shifted_to_its_end() {
    let tokens = vec![Terminal::Plus, Terminal::Star];
    let (result, log) = trace(&sums().flatten(), NonTerminal::Sum, &tokens);
    assert_eq!(log, vec![Step::Shift(Terminal::Plus), Step::Shift(Terminal::Star)]);
    assert!(matches!(result, Err(ParseFailure::Rejected { stack }) if stack.len() == 2));
}

#[test]
fn a_parser_hands_out_its_grammar() {
    let parser = Parser::new(sums());
    assert_eq!(parser.grammar().starting_symbol, NonTerminal::Sum);
    assert_eq!(parser.grammar().flatten(), sums().flatten());
}
