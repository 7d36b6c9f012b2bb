//! From text to tokens: the words of the input, each one a terminal.
use vstd::prelude::*;
use vstd::string::*;
use crate::error::{Failure, ParseFailure};
use crate::symbol::Terminal;

verus! {

/// Whether `c` separates words: a character with Unicode's White_Space
/// property.
pub open spec fn is_space(c: char) -> bool {
    let code = c as u32;
    ||| 0x09 <= code <= 0x0D
    ||| code == 0x20
    ||| code == 0x85
    ||| code == 0xA0
    ||| code == 0x1680
    ||| 0x2000 <= code <= 0x200A
    ||| code == 0x2028
    ||| code == 0x2029
    ||| code == 0x202F
    ||| code == 0x205F
    ||| code == 0x3000
}

/// How many characters stand before the first separator of `text`.
pub open spec fn word_len(text: Seq<char>) -> nat
    decreases text.len(),
{
    if text.len() == 0 || is_space(text[0]) {
        0
    } else {
        1 + word_len(text.drop_first())
    }
}

/// The words of `text`: its longest runs of characters that are no
/// separators, from left to right.
pub open spec fn words(text: Seq<char>) -> Seq<Seq<char>>
    decreases text.len(),
    via words_decreases
{
    if text.len() == 0 {
        Seq::empty()
    } else if is_space(text[0]) {
        words(text.drop_first())
    } else {
        seq![text.take(word_len(text) as int)] + words(text.skip(word_len(text) as int))
    }
}

#[via_fn]
proof fn words_decreases(text: Seq<char>) {
    lemma_word_len_bound(text);
}

/// A word is no longer than the text it starts.
pub proof fn lemma_word_len_bound(text: Seq<char>)
    ensures
        word_len(text) <= text.len(),
    decreases text.len(),
{
    if text.len() > 0 && !is_space(text[0]) {
        lemma_word_len_bound(text.drop_first());
    }
}

/// The terminal that `word` stands for, if it stands for one.
pub open spec fn token_of(word: Seq<char>) -> Option<Terminal> {
    if word == seq!['+'] {
        Some(Terminal::Plus)
    } else if word == seq!['-'] {
        Some(Terminal::Minus)
    } else if word == seq!['*'] {
        Some(Terminal::Star)
    } else if word == seq!['('] {
        Some(Terminal::LeftParen)
    } else if word == seq![')'] {
        Some(Terminal::RightParen)
    } else if word == seq!['0'] {
        Some(Terminal::Zero)
    } else {
        None
    }
}

/// Whether `at` is the place of the first of `words` that is no token.
pub open spec fn first_stranger(words: Seq<Seq<char>>, at: int) -> bool {
    &&& 0 <= at < words.len()
    &&& token_of(words[at]) is None
    &&& forall|k: int| 0 <= k < at ==> (#[trigger] token_of(words[k])) is Some
}

/// The tokens of `text`, or its first word that is no token.
pub open spec fn lexed(text: Seq<char>) -> Result<Seq<Terminal>, Seq<char>> {
    let all = words(text);
    if exists|at: int| first_stranger(all, at) {
        Err(all[choose|at: int| first_stranger(all, at)])
    } else {
        Ok(all.map_values(|word: Seq<char>| token_of(word)->0))
    }
}

/// Whether `c` separates words.
pub fn is_whitespace(c: char) -> (yes: bool)
    ensures
        yes == is_space(c),
{
    let code: u32 = c as u32;
    (0x09 <= code && code <= 0x0D) || code == 0x20 || code == 0x85 || code == 0xA0 || code
        == 0x1680 || (0x2000 <= code && code <= 0x200A) || code == 0x2028 || code == 0x2029 || code
        == 0x202F || code == 0x205F || code == 0x3000
}

/// The terminal that the one-character word `c` stands for.
pub fn classify(c: char) -> (token: Option<Terminal>)
    ensures
        token == token_of(seq![c]),
{
    let token = if c == '+' {
        Some(Terminal::Plus)
    } else if c == '-' {
        Some(Terminal::Minus)
    } else if c == '*' {
        Some(Terminal::Star)
    } else if c == '(' {
        Some(Terminal::LeftParen)
    } else if c == ')' {
        Some(Terminal::RightParen)
    } else if c == '0' {
        Some(Terminal::Zero)
    } else {
        None
    };
    proof {
        let word = seq![c];
        assert(word[0] == c);
        assert(seq!['+'][0] == '+');
        assert(seq!['-'][0] == '-');
        assert(seq!['*'][0] == '*');
        assert(seq!['('][0] == '(');
        assert(seq![')'][0] == ')');
        assert(seq!['0'][0] == '0');
        if c == '+' {
            assert(word =~= seq!['+']);
        } else if c == '-' {
            assert(word =~= seq!['-']);
        } else if c == '*' {
            assert(word =~= seq!['*']);
        } else if c == '(' {
            assert(word =~= seq!['(']);
        } else if c == ')' {
            assert(word =~= seq![')']);
        } else if c == '0' {
            assert(word =~= seq!['0']);
        }
    }
    token
}

/// The words of a text go on after its first word.
proof fn lemma_words_step(text: Seq<char>, at: int)
    requires
        0 <= at < text.len(),
    ensures
        is_space(text[at]) ==> words(text.skip(at)) == words(text.skip(at + 1)),
        !is_space(text[at]) ==> {
            let len = word_len(text.skip(at)) as int;
            &&& 1 <= len <= text.len() - at
            &&& words(text.skip(at)) == seq![text.subrange(at, at + len)] + words(
                text.skip(at + len),
            )
        },
{
    let tail = text.skip(at);
    assert(tail[0] == text[at]);
    assert(tail.drop_first() == text.skip(at + 1));
    lemma_word_len_bound(tail);
    if !is_space(text[at]) {
        let len = word_len(tail) as int;
        assert(tail.take(len) == text.subrange(at, at + len));
        assert(tail.skip(len) == text.skip(at + len));
    }
}

/// A word goes on for as long as no separator comes.
proof fn lemma_word_len_step(text: Seq<char>, at: int)
    requires
        0 <= at <= text.len(),
    ensures
        at < text.len() && !is_space(text[at]) ==> word_len(text.skip(at)) == 1 + word_len(
            text.skip(at + 1),
        ),
        at == text.len() || is_space(text[at]) ==> word_len(text.skip(at)) == 0,
{
    let tail = text.skip(at);
    if at < text.len() {
        assert(tail[0] == text[at]);
        assert(tail.drop_first() == text.skip(at + 1));
    }
}

/// Splits `input` at white space and reads each word as a token.
///
/// The result holds the tokens in the order of the words. A word that is no
/// token ends the reading: the error is the first such word.
pub fn tokenize(input: &str) -> (result: Result<Vec<Terminal>, ParseFailure>)
    ensures
        match result {
            Ok(tokens) => lexed(input@) == Ok::<Seq<Terminal>, Seq<char>>(tokens@),
            Err(failure) => lexed(input@) is Err && failure@ == Failure::Lex(lexed(input@)->Err_0),
        },
{
    let ghost text = input@;
    let ghost all = words(text);
    let total = input.unicode_len();
    let mut tokens: Vec<Terminal> = Vec::new();
    let mut i: usize = 0;
    assert(text.skip(0) == text);
    while i < total
        invariant
            text == input@,
            all == words(text),
            total == text.len(),
            i <= total,
            tokens@.len() <= all.len(),
            all == all.take(tokens@.len() as int) + words(text.skip(i as int)),
            forall|k: int|
                0 <= k < tokens@.len() ==> (#[trigger] token_of(all[k])) == Some(tokens@[k]),
        decreases total - i,
    {
        let c = input.get_char(i);
        proof {
            lemma_words_step(text, i as int);
        }
        if is_whitespace(c) {
            i += 1;
        } else {
            let start = i;
            let ghost len = word_len(text.skip(start as int)) as int;
            i += 1;
            proof {
                lemma_word_len_step(text, start as int);
            }
            while i < total && !is_whitespace(input.get_char(i))
                invariant
                    text == input@,
                    total == text.len(),
                    start < i <= total,
                    len == (i - start) + word_len(text.skip(i as int)),
                decreases total - i,
            {
                proof {
                    lemma_word_len_step(text, i as int);
                }
                i += 1;
            }
            proof {
                lemma_word_len_step(text, i as int);
            }
            let ghost word = text.subrange(start as int, i as int);
            let ghost seen = tokens@.len() as int;
            assert(all[seen] == word);
            assert(all.take(seen + 1) == all.take(seen) + seq![word]);
            let token = if i - start == 1 {
                assert(word =~= seq![c]);
                classify(c)
            } else {
                assert(token_of(word) is None) by {
                    assert(word.len() != 1);
                    assert(seq!['+'].len() == 1);
                }
                None
            };
            match token {
                Some(t) => {
                    tokens.push(t);
                },
                None => {
                    let stranger = input.substring_char(start, i);
                    assert(first_stranger(all, seen));
                    proof {
                        let chosen = choose|at: int| first_stranger(all, at);
                        assert(chosen == seen) by {
                            if chosen < seen {
                                assert(token_of(all[chosen]) is Some);
                            } else if chosen > seen {
                                assert(token_of(all[seen]) is Some);
                            }
                        }
                    }
                    return Err(ParseFailure::LexError { token: stranger.to_owned() });
                },
            }
        }
    }
    proof {
        assert(text.skip(total as int).len() == 0);
        let seen = all.take(tokens@.len() as int);
        let rest = words(text.skip(total as int));
        assert(rest.len() == 0);
        assert((seen + rest).len() == seen.len() + rest.len());
        assert(all.len() == tokens@.len());
        assert forall|at: int| !first_stranger(all, at) by {
            if 0 <= at < all.len() {
                assert(token_of(all[at]) == Some(tokens@[at]));
            }
        }
        assert(tokens@ =~= all.map_values(|word: Seq<char>| token_of(word)->0));
    }
    Ok(tokens)
}

} // verus!
