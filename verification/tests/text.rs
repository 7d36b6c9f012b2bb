use shift_reduce::grammar::copy_body;
use shift_reduce::tokenizer::{classify, is_whitespace, tokenize};
use shift_reduce::{Expression, Grammar, NonTerminal, ParseFailure, Terminal};

fn nt(n: NonTerminal) -> Expression {
    Expression::NonTerminal(n)
}

fn tm(t: Terminal) -> Expression {
    Expression::Terminal(t)
}

#[test]
fn every_token_is_read() {
    assert_eq!(
        tokenize("+ - * ( ) 0").unwrap(),
        vec![
            Terminal::Plus,
            Terminal::Minus,
            Terminal::Star,
            Terminal::LeftParen,
            Terminal::RightParen,
            Terminal::Zero,
        ]
    );
}

#[test]
fn white_space_of_any_kind_and_length_separates() {
    assert_eq!(
        tokenize("  0\t+\n\r 0\u{a0}*\u{2003}(\u{3000}").unwrap(),
        vec![
            Terminal::Zero,
            Terminal::Plus,
            Terminal::Zero,
            Terminal::Star,
            Terminal::LeftParen,
        ]
    );
    assert_eq!(tokenize("").unwrap(), vec![]);
    assert_eq!(tokenize(" \u{2028} ").unwrap(), vec![]);
    assert_eq!(tokenize("0").unwrap(), vec![Terminal::Zero]);
}

#[test]
fn the_first_unknown_word_is_reported() {
    match tokenize("0 + one two") {
        Err(ParseFailure::LexError { token }) => assert_eq!(token, "one"),
        other => panic!("unexpected result: {:?}", other),
    }
    match tokenize("(0)") {
        Err(ParseFailure::LexError { token }) => assert_eq!(token, "(0)"),
        other => panic!("unexpected result: {:?}", other),
    }
    match tokenize("0 \u{e9}t\u{e9} 0") {
        Err(ParseFailure::LexError { token }) => assert_eq!(token, "\u{e9}t\u{e9}"),
        other => panic!("unexpected result: {:?}", other),
    }
    match tokenize("1") {
        Err(ParseFailure::LexError { token }) => assert_eq!(token, "1"),
        other => panic!("unexpected result: {:?}", other),
    }
}

#[test]
fn words_are_those_of_split_whitespace() {
    let texts = [
        "0 + 0 * 0",
        " ( 0 )\u{85}-\u{1680}0 ",
        "\u{200b}",
        "0\u{200a}0",
        "\u{feff}0",
        "0\u{202f}+\u{205f}0",
    ];
    for text in texts {
        let expected: Option<Vec<Terminal>> = text
            .split_whitespace()
            .map(|word| match word {
                "+" => Some(Terminal::Plus),
                "-" => Some(Terminal::Minus),
                "*" => Some(Terminal::Star),
                "(" => Some(Terminal::LeftParen),
                ")" => Some(Terminal::RightParen),
                "0" => Some(Terminal::Zero),
                _ => None,
            })
            .collect();
        assert_eq!(tokenize(text).ok(), expected, "text {:?}", text);
    }
}

#[test]
fn white_space_is_what_the_standard_library_calls_so() {
    let mut code: u32 = 0;
    while code <= 0x10FFFF {
        if let Some(c) = char::from_u32(code) {
            assert_eq!(is_whitespace(c), c.is_whitespace(), "U+{:04X}", code);
        }
        code += 1;
    }
}

#[test]
fn classify_knows_the_six_tokens() {
    assert_eq!(classify('+'), Some(Terminal::Plus));
    assert_eq!(classify('-'), Some(Terminal::Minus));
    assert_eq!(classify('*'), Some(Terminal::Star));
    assert_eq!(classify('('), Some(Terminal::LeftParen));
    assert_eq!(classify(')'), Some(Terminal::RightParen));
    assert_eq!(classify('0'), Some(Terminal::Zero));
    assert_eq!(classify('1'), None);
    assert_eq!(classify(' '), None);
    assert_eq!(classify('/'), None);
}

#[test]
fn names_of_the_symbols() {
    assert_eq!(NonTerminal::Sum.name(), "sum");
    assert_eq!(NonTerminal::Sub.name(), "sub");
    assert_eq!(NonTerminal::Mult.name(), "mult");
    assert_eq!(NonTerminal::Atom.name(), "atom");
    assert_eq!(NonTerminal::Number.name(), "number");
    assert_eq!(Terminal::Plus.name(), "+");
    assert_eq!(Terminal::Minus.name(), "-");
    assert_eq!(Terminal::Star.name(), "*");
    assert_eq!(Terminal::LeftParen.name(), "(");
    assert_eq!(Terminal::RightParen.name(), ")");
    assert_eq!(Terminal::Zero.name(), "0");
}

#[test]
fn places_of_the_non_terminals() {
    let all = [
        NonTerminal::Sum,
        NonTerminal::Sub,
        NonTerminal::Mult,
        NonTerminal::Atom,
        NonTerminal::Number,
    ];
    for (place, kind) in all.iter().enumerate() {
        assert_eq!(kind.index(), place);
        assert_eq!(NonTerminal::at(place), *kind);
    }
}

#[test]
fn a_token_reads_back_as_itself() {
    let all = [
        Terminal::Plus,
        Terminal::Minus,
        Terminal::Star,
        Terminal::LeftParen,
        Terminal::RightParen,
        Terminal::Zero,
    ];
    for token in all {
        assert_eq!(tokenize(token.name()).unwrap(), vec![token]);
    }
}

#[test]
fn flatten_lists_the_productions_entry_by_entry() {
    let grammar = Grammar {
        starting_symbol: NonTerminal::Atom,
        rules: vec![
            (
                NonTerminal::Atom,
                vec![
                    vec![tm(Terminal::LeftParen), nt(NonTerminal::Sum), tm(Terminal::RightParen)],
                    vec![nt(NonTerminal::Number)],
                ],
            ),
            (NonTerminal::Sum, vec![]),
            (NonTerminal::Number, vec![vec![tm(Terminal::Zero)]]),
            (NonTerminal::Atom, vec![vec![]]),
        ],
    };
    assert_eq!(
        grammar.flatten(),
        vec![
            (
                NonTerminal::Atom,
                vec![tm(Terminal::LeftParen), nt(NonTerminal::Sum), tm(Terminal::RightParen)]
            ),
            (NonTerminal::Atom, vec![nt(NonTerminal::Number)]),
            (NonTerminal::Number, vec![tm(Terminal::Zero)]),
            (NonTerminal::Atom, vec![]),
        ]
    );
    let none = Grammar { starting_symbol: NonTerminal::Sum, rules: vec![] };
    assert_eq!(none.flatten(), vec![]);
}

#[test]
fn copy_body_copies() {
    let body = vec![nt(NonTerminal::Sum), tm(Terminal::Plus)];
    assert_eq!(copy_body(&body), body);
    assert_eq!(copy_body(&vec![]), vec![]);
}

#[test]
fn a_grammar_is_written_one_production_per_line() {
    let grammar = Grammar {
        starting_symbol: NonTerminal::Sum,
        rules: vec![
            (
                NonTerminal::Sum,
                vec![
                    vec![nt(NonTerminal::Sum), tm(Terminal::Plus), nt(NonTerminal::Sub)],
                    vec![nt(NonTerminal::Sub)],
                ],
            ),
            (
                NonTerminal::Atom,
                vec![
                    vec![tm(Terminal::LeftParen), nt(NonTerminal::Sum), tm(Terminal::RightParen)],
                    vec![nt(NonTerminal::Number)],
                ],
            ),
            (NonTerminal::Number, vec![vec![tm(Terminal::Zero)]]),
            (NonTerminal::Mult, vec![vec![]]),
        ],
    };
    assert_eq!(
        grammar.render(),
        "sum -> sum '+' sub \n\
         sum -> sub \n\
         atom -> '(' sum ')' \n\
         atom -> number \n\
         number -> '0' \n\
         mult -> \n"
    );
    let none = Grammar { starting_symbol: NonTerminal::Sum, rules: vec![] };
    assert_eq!(none.render(), "");
}

#[test]
fn every_terminal_is_written_between_quotes() {
    let grammar = Grammar {
        starting_symbol: NonTerminal::Sub,
        rules: vec![(
            NonTerminal::Sub,
            vec![vec![tm(Terminal::Minus), tm(Terminal::Star), nt(NonTerminal::Mult)]],
        )],
    };
    assert_eq!(grammar.render(), "sub -> '-' '*' mult \n");
}

#[test]
fn the_arithmetic_grammar_is_well_founded() {
    let grammar = Grammar {
        starting_symbol: NonTerminal::Sum,
        rules: vec![
            (
                NonTerminal::Sum,
                vec![
                    vec![nt(NonTerminal::Sum), tm(Terminal::Plus), nt(NonTerminal::Sub)],
                    vec![nt(NonTerminal::Sub)],
                ],
            ),
            (NonTerminal::Sub, vec![vec![nt(NonTerminal::Mult)]]),
            (NonTerminal::Mult, vec![vec![nt(NonTerminal::Atom)]]),
            (NonTerminal::Atom, vec![vec![nt(NonTerminal::Number)]]),
            (NonTerminal::Number, vec![vec![tm(Terminal::Zero)]]),
        ],
    };
    assert!(grammar.is_well_founded());
    let none = Grammar { starting_symbol: NonTerminal::Sum, rules: vec![] };
    assert!(none.is_well_founded());
}

#[test]
fn an_empty_production_is_not_well_founded() {
    let grammar = Grammar {
        starting_symbol: NonTerminal::Sum,
        rules: vec![(NonTerminal::Sum, vec![vec![tm(Terminal::Zero)], vec![]])],
    };
    assert!(!grammar.is_well_founded());
}

#[test]
fn a_circle_of_single_slots_is_not_well_founded() {
    let own = Grammar {
        starting_symbol: NonTerminal::Sum,
        rules: vec![(NonTerminal::Sum, vec![vec![nt(NonTerminal::Sum)]])],
    };
    assert!(!own.is_well_founded());
    let three = Grammar {
        starting_symbol: NonTerminal::Sum,
        rules: vec![
            (NonTerminal::Number, vec![vec![tm(Terminal::Zero)]]),
            (NonTerminal::Sum, vec![vec![nt(NonTerminal::Atom)]]),
            (NonTerminal::Atom, vec![vec![nt(NonTerminal::Mult)]]),
            (NonTerminal::Mult, vec![vec![nt(NonTerminal::Sum)]]),
        ],
    };
    assert!(!three.is_well_founded());
}

#[test]
fn a_circle_through_longer_productions_is_well_founded() {
    let grammar = Grammar {
        starting_symbol: NonTerminal::Sum,
        rules: vec![
            (NonTerminal::Sum, vec![vec![nt(NonTerminal::Atom)]]),
            (
                NonTerminal::Atom,
                vec![vec![tm(Terminal::LeftParen), nt(NonTerminal::Sum), tm(Terminal::RightParen)]],
            ),
            (NonTerminal::Mult, vec![vec![nt(NonTerminal::Mult), nt(NonTerminal::Mult)]]),
        ],
    };
    assert!(grammar.is_well_founded());
}
