//! Structuring: a flat token sequence to a tree of instructions.
//!
//! Every matched bracket pair becomes one `Instruction::Loop` that owns what
//! stood between the brackets. Brackets without a partner are rejected.

use crate::instruction::{lemma_ops_of_push, noop_free, ops_of, Instruction, Op};
use crate::scanner::Token;
use vstd::pervasive::unreached;
use vstd::prelude::*;

verus! {

/// Why a token sequence has no structure.
#[derive(Clone, Copy, Debug, PartialEq, Eq, Structural)]
pub enum ParseError {
    /// The `Token::EndLoop` at `index` closes a loop that was never opened.
    UnmatchedEndLoop { index: usize },
    /// The `Token::StartLoop` at `index` opens a loop that is never closed.
    UnmatchedStartLoop { index: usize },
}

/// What a token adds to the nesting depth.
pub open spec fn bracket_weight(token: Token) -> int {
    match token {
        Token::StartLoop => 1,
        Token::EndLoop => -1,
        _ => 0,
    }
}

/// Opening brackets minus closing brackets in `tokens`.
pub open spec fn nesting(tokens: Seq<Token>) -> int
    decreases tokens.len(),
{
    if tokens.len() == 0 {
        0
    } else {
        nesting(tokens.drop_last()) + bracket_weight(tokens.last())
    }
}

/// The nesting depth after the first `n` tokens.
pub open spec fn depth_at(tokens: Seq<Token>, n: int) -> int {
    nesting(tokens.take(n))
}

/// No prefix of `tokens` closes more loops than it opens.
pub open spec fn never_underflows(tokens: Seq<Token>) -> bool {
    forall|n: int| 0 <= n <= tokens.len() ==> depth_at(tokens, n) >= 0
}

/// Every bracket of `tokens` has its partner.
pub open spec fn well_bracketed(tokens: Seq<Token>) -> bool {
    never_underflows(tokens) && nesting(tokens) == 0
}

/// The token at `index` is the first that takes the depth below zero.
pub open spec fn first_underflow(tokens: Seq<Token>, index: int) -> bool {
    &&& 0 <= index < tokens.len()
    &&& depth_at(tokens, index + 1) < 0
    &&& forall|n: int| 0 <= n <= index ==> depth_at(tokens, n) >= 0
}

/// The depth is zero before the token at `index` and never again after it.
pub open spec fn left_open_from(tokens: Seq<Token>, index: int) -> bool {
    &&& 0 <= index < tokens.len()
    &&& depth_at(tokens, index) == 0
    &&& forall|n: int| index < n <= tokens.len() ==> depth_at(tokens, n) > 0
}

/// The first position from `from` on after which the depth is zero, or the
/// length of `tokens` where there is none.
pub open spec fn close_from(tokens: Seq<Token>, from: int) -> int
    decreases tokens.len() - from,
{
    if from >= tokens.len() {
        tokens.len() as int
    } else if depth_at(tokens, from + 1) == 0 {
        from
    } else {
        close_from(tokens, from + 1)
    }
}

/// The instruction of a token that is no bracket.
pub open spec fn atom_of(token: Token) -> Op {
    match token {
        Token::MoveRight => Op::MoveRight,
        Token::MoveLeft => Op::MoveLeft,
        Token::Add => Op::Add,
        Token::Sub => Op::Sub,
        Token::Input => Op::Input,
        Token::Print => Op::Print,
        _ => Op::Noop,
    }
}

/// The tree of a well-bracketed token sequence.
///
/// A token that is no bracket gives its instruction, `Token::Noop` gives
/// nothing, and an opening bracket gives one loop whose body is the tree of
/// the tokens up to its partner. On a sequence that is not well bracketed the
/// value has no meaning (a bracket without partner contributes nothing).
pub open spec fn structure(tokens: Seq<Token>) -> Seq<Op>
    decreases tokens.len(),
{
    if tokens.len() == 0 {
        Seq::empty()
    } else {
        match tokens[0] {
            Token::StartLoop => {
                let end = close_from(tokens, 0);
                if 1 <= end < tokens.len() {
                    seq![Op::Loop(structure(tokens.subrange(1, end)))] + structure(
                        tokens.skip(end + 1),
                    )
                } else {
                    Seq::empty()
                }
            },
            Token::EndLoop | Token::Noop => structure(tokens.drop_first()),
            token => seq![atom_of(token)] + structure(tokens.drop_first()),
        }
    }
}

/// One more token changes the depth by that token's weight.
pub proof fn lemma_depth_step(tokens: Seq<Token>, n: int)
    requires
        0 <= n < tokens.len(),
    ensures
        depth_at(tokens, n + 1) == depth_at(tokens, n) + bracket_weight(tokens[n]),
{
    assert(tokens.take(n + 1).drop_last() == tokens.take(n));
}

/// The depth inside a slice is the depth in the whole, counted from where
/// the slice begins.
pub proof fn lemma_depth_in_slice(tokens: Seq<Token>, from: int, to: int, n: int)
    requires
        0 <= from <= to <= tokens.len(),
        0 <= n <= to - from,
    ensures
        depth_at(tokens.subrange(from, to), n) == depth_at(tokens, from + n) - depth_at(
            tokens,
            from,
        ),
    decreases n,
{
    if n > 0 {
        lemma_depth_in_slice(tokens, from, to, n - 1);
        lemma_depth_step(tokens.subrange(from, to), n - 1);
        lemma_depth_step(tokens, from + n - 1);
    }
}

/// Where the depth first comes back to zero, there `close_from` is.
pub proof fn lemma_close_from(tokens: Seq<Token>, from: int, end: int)
    requires
        0 <= from <= end < tokens.len(),
        forall|n: int| from < n <= end ==> depth_at(tokens, n) != 0,
        depth_at(tokens, end + 1) == 0,
    ensures
        close_from(tokens, from) == end,
    decreases end - from,
{
    if from < end {
        lemma_close_from(tokens, from + 1, end);
    }
}

/// The structure of any token sequence holds no `Op::Noop`.
pub proof fn lemma_structure_noop_free(tokens: Seq<Token>)
    ensures
        noop_free(structure(tokens)),
    decreases tokens.len(),
{
    if tokens.len() > 0 {
        match tokens[0] {
            Token::StartLoop => {
                let end = close_from(tokens, 0);
                if 1 <= end < tokens.len() {
                    lemma_structure_noop_free(tokens.subrange(1, end));
                    lemma_structure_noop_free(tokens.skip(end + 1));
                }
            },
            _ => {
                lemma_structure_noop_free(tokens.drop_first());
            },
        }
    }
}

/// Copies the tokens at positions `from` up to, not including, `to`.
pub fn tokens_between(tokens: &Vec<Token>, from: usize, to: usize) -> (slice: Vec<Token>)
    requires
        from <= to <= tokens.len(),
    ensures
        slice@ == tokens@.subrange(from as int, to as int),
{
    let mut slice: Vec<Token> = Vec::new();
    let mut at: usize = from;
    while at < to
        invariant
            from <= at <= to <= tokens.len(),
            slice@ == tokens@.subrange(from as int, at as int),
        decreases to - at,
    {
        slice.push(tokens[at]);
        at += 1;
    }
    slice
}

/// The instruction for a token outside every loop; `Instruction::Noop` for a
/// token that gives none.
pub fn atom_for(token: Token) -> (instruction: Instruction)
    ensures
        instruction.op() == atom_of(token),
{
    match token {
        Token::MoveRight => Instruction::MoveRight,
        Token::MoveLeft => Instruction::MoveLeft,
        Token::Add => Instruction::Add,
        Token::Sub => Instruction::Sub,
        Token::Input => Instruction::Input,
        Token::Print => Instruction::Print,
        _ => Instruction::Noop,
    }
}

/// Structures `tokens` in one pass.
///
/// The pass keeps a single depth counter. Outside every loop a token gives
/// its instruction at once. An opening bracket at depth zero marks where a
/// loop starts; the bracket that brings the depth back to zero ends it, and
/// the tokens between the two are structured by a call of `parser` on
/// them. `Token::Noop` gives nothing.
///
/// The result is `Ok` exactly for a well-bracketed sequence. Otherwise the
/// error names the first closing bracket that has nothing to close or, where
/// there is none, the outermost opening bracket that is never closed.
pub fn parser(tokens: Vec<Token>) -> (result: Result<Vec<Instruction>, ParseError>)
    ensures
        result is Ok <==> well_bracketed(tokens@),
        match result {
            Ok(instructions) => ops_of(instructions@) == structure(tokens@) && noop_free(
                ops_of(instructions@),
            ),
            Err(ParseError::UnmatchedEndLoop { index }) => first_underflow(tokens@, index as int),
            Err(ParseError::UnmatchedStartLoop { index }) => never_underflows(tokens@)
                && left_open_from(tokens@, index as int),
        },
    decreases tokens.len(),
{
    let mut starting_loop_index: usize = 0;
    let mut sub_loops_counter: usize = 0;
    let mut instructions: Vec<Instruction> = Vec::new();
    let mut index: usize = 0;

    assert(tokens@.skip(0) == tokens@);
    while index < tokens.len()
        invariant
            index <= tokens.len(),
            sub_loops_counter <= index,
            forall|n: int| 0 <= n <= index ==> depth_at(tokens@, n) >= 0,
            sub_loops_counter == depth_at(tokens@, index as int),
            sub_loops_counter == 0 ==> ops_of(instructions@) + structure(
                tokens@.skip(index as int),
            ) == structure(tokens@),
            sub_loops_counter > 0 ==> {
                &&& starting_loop_index < index
                &&& tokens@[starting_loop_index as int] == Token::StartLoop
                &&& depth_at(tokens@, starting_loop_index as int) == 0
                &&& forall|n: int|
                    starting_loop_index < n <= index ==> depth_at(tokens@, n) > 0
                &&& ops_of(instructions@) + structure(tokens@.skip(starting_loop_index as int))
                    == structure(tokens@)
            },
        decreases tokens.len() - index,
    {
        let token = tokens[index];
        proof {
            lemma_depth_step(tokens@, index as int);
            assert(tokens@.skip(index as int).drop_first() == tokens@.skip(index + 1));
        }
        let instruction: Instruction = match token {
            Token::StartLoop => {
                if sub_loops_counter == 0 {
                    starting_loop_index = index;
                }
                // The depth stands in for a stack: only the outermost
                // bracket's position is remembered.
                sub_loops_counter += 1;
                Instruction::Noop
            },
            Token::EndLoop => {
                if sub_loops_counter == 0 {
                    return Err(ParseError::UnmatchedEndLoop { index });
                } else if sub_loops_counter == 1 {
                    let loop_tokens = tokens_between(&tokens, starting_loop_index + 1, index);
                    proof {
                        lemma_loop_body(tokens@, starting_loop_index as int, index as int);
                    }
                    let body = match parser(loop_tokens) {
                        Ok(body) => body,
                        Err(_) => unreached(),
                    };
                    sub_loops_counter = 0;
                    Instruction::Loop(body)
                } else {
                    sub_loops_counter -= 1;
                    Instruction::Noop
                }
            },
            other => {
                if sub_loops_counter == 0 {
                    atom_for(other)
                } else {
                    Instruction::Noop
                }
            },
        };
        match instruction {
            Instruction::Noop => {},
            kept => {
                proof {
                    lemma_ops_of_push(instructions@, kept);
                }
                instructions.push(kept);
            },
        }
        index += 1;
    }
    proof {
        lemma_structure_noop_free(tokens@);
    }
    if sub_loops_counter > 0 {
        Err(ParseError::UnmatchedStartLoop { index: starting_loop_index })
    } else {
        Ok(instructions)
    }
}

/// A loop that opens at `start` at depth zero and whose depth first comes
/// back to zero behind `end` has a well-bracketed body, and the structure
/// from `start` on is that loop followed by the structure of what follows.
pub proof fn lemma_loop_body(tokens: Seq<Token>, start: int, end: int)
    requires
        0 <= start < end < tokens.len(),
        tokens[start] == Token::StartLoop,
        depth_at(tokens, start) == 0,
        forall|n: int| start < n <= end ==> depth_at(tokens, n) > 0,
        depth_at(tokens, end + 1) == 0,
    ensures
        well_bracketed(tokens.subrange(start + 1, end)),
        structure(tokens.skip(start)) == seq![
            Op::Loop(structure(tokens.subrange(start + 1, end))),
        ] + structure(tokens.skip(end + 1)),
{
    let body = tokens.subrange(start + 1, end);
    lemma_depth_step(tokens, start);
    lemma_depth_step(tokens, end);
    assert forall|n: int| 0 <= n <= body.len() implies depth_at(body, n) >= 0 by {
        lemma_depth_in_slice(tokens, start + 1, end, n);
    }
    lemma_depth_in_slice(tokens, start + 1, end, end - start - 1);
    assert(body.take(body.len() as int) == body);

    let tail = tokens.skip(start);
    assert forall|n: int| 0 < n <= end - start implies depth_at(tail, n) != 0 by {
        lemma_depth_in_slice(tokens, start, tokens.len() as int, n);
    }
    lemma_depth_in_slice(tokens, start, tokens.len() as int, end - start + 1);
    lemma_close_from(tail, 0, end - start);
    assert(tail.subrange(1, end - start) == body);
    assert(tail.skip(end - start + 1) == tokens.skip(end + 1));
}

} // verus!
