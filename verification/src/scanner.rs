//! Scanning: program text to a flat sequence of tokens.

use vstd::prelude::*;
use vstd::std_specs::iter::IteratorSpec;

verus! {

/// The meaning of one character of program text.
#[derive(Clone, Copy, Debug, PartialEq, Eq, Structural)]
pub enum Token {
    MoveRight,
    MoveLeft,
    Add,
    Sub,
    Input,
    Print,
    StartLoop,
    EndLoop,
    /// Any character without a meaning of its own.
    Noop,
}

/// The token that a character stands for.
pub open spec fn token_of(c: char) -> Token {
    if c == '>' {
        Token::MoveRight
    } else if c == '<' {
        Token::MoveLeft
    } else if c == '+' {
        Token::Add
    } else if c == '-' {
        Token::Sub
    } else if c == '.' {
        Token::Print
    } else if c == ',' {
        Token::Input
    } else if c == '[' {
        Token::StartLoop
    } else if c == ']' {
        Token::EndLoop
    } else {
        Token::Noop
    }
}

/// The number of characters before the first line feed of `text`, or the
/// length of `text` where it holds none.
pub open spec fn line_len(text: Seq<char>) -> nat
    decreases text.len(),
{
    if text.len() == 0 || text[0] == '\n' {
        0
    } else {
        1 + line_len(text.drop_first())
    }
}

/// The tokens of the first line of `text`: one per character, in order.
pub open spec fn scan(text: Seq<char>) -> Seq<Token> {
    text.take(line_len(text) as int).map_values(|c: char| token_of(c))
}

/// `n` is where the first line of `text` ends: no line feed stands before
/// `n`, and at `n` stands a line feed or the end of the text.
pub open spec fn is_line_end(text: Seq<char>, n: int) -> bool {
    &&& 0 <= n <= text.len()
    &&& forall|i: int| 0 <= i < n ==> text[i] != '\n'
    &&& n == text.len() || text[n] == '\n'
}

/// `line_len` is the one position at which the first line ends.
pub proof fn lemma_line_len_unique(text: Seq<char>, n: int)
    requires
        is_line_end(text, n),
    ensures
        line_len(text) == n,
    decreases text.len(),
{
    if n > 0 {
        let rest = text.drop_first();
        assert forall|i: int| 0 <= i < n - 1 implies rest[i] != '\n' by {}
        lemma_line_len_unique(rest, n - 1);
    }
}

/// The first line always ends somewhere: at `line_len`.
pub proof fn lemma_line_len_is_line_end(text: Seq<char>)
    ensures
        is_line_end(text, line_len(text) as int),
    decreases text.len(),
{
    if text.len() != 0 && text[0] != '\n' {
        let rest = text.drop_first();
        lemma_line_len_is_line_end(rest);
        let n = line_len(text) as int;
        assert forall|i: int| 0 <= i < n implies text[i] != '\n' by {
            if i > 0 {
                assert(text[i] == rest[i - 1]);
            }
        }
    }
}

/// Maps one character to its token.
pub fn token_for(c: char) -> (token: Token)
    ensures
        token == token_of(c),
{
    match c {
        '>' => Token::MoveRight,
        '<' => Token::MoveLeft,
        '+' => Token::Add,
        '-' => Token::Sub,
        '.' => Token::Print,
        ',' => Token::Input,
        '[' => Token::StartLoop,
        ']' => Token::EndLoop,
        _ => Token::Noop,
    }
}

/// Appends to `tokens` the tokens of the first line of `code`.
///
/// Every character before the first line feed gives exactly one token, a
/// character without a meaning gives `Token::Noop`, and nothing after the
/// line feed is read.
pub fn lexer(code: String, tokens: &mut Vec<Token>)
    ensures
        final(tokens)@ == old(tokens)@ + scan(code@),
{
    let text = code.as_str();
    let mut chars = text.chars();
    let ghost mut done: int = 0;
    loop
        invariant_except_break
            chars.remaining() == text@.skip(done),
        invariant
            0 <= done <= text@.len(),
            forall|i: int| 0 <= i < done ==> text@[i] != '\n',
            tokens@ == old(tokens)@ + text@.take(done).map_values(|c: char| token_of(c)),
        ensures
            is_line_end(text@, done),
            tokens@ == old(tokens)@ + text@.take(done).map_values(|c: char| token_of(c)),
        decreases text@.len() - done,
    {
        let next = chars.next();
        match next {
            None => {
                break ;
            },
            Some(c) => {
                if c == '\n' {
                    break ;
                }
                tokens.push(token_for(c));
                proof {
                    done = done + 1;
                }
            },
        }
    }
    proof {
        lemma_line_len_unique(text@, done);
    }
}

} // verus!
