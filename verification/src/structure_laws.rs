//! What holds of the structure of every well-bracketed token sequence.

use crate::instruction::Op;
use crate::scanner::Token;
use crate::structurer::{
    atom_of, close_from, depth_at, lemma_depth_in_slice, lemma_depth_step, lemma_loop_body,
    nesting, structure, well_bracketed,
};
use vstd::prelude::*;

verus! {

/// How often `token` stands in `tokens`.
pub open spec fn occurrences(tokens: Seq<Token>, token: Token) -> nat
    decreases tokens.len(),
{
    if tokens.len() == 0 {
        0
    } else {
        occurrences(tokens.drop_last(), token) + if tokens.last() == token {
            1nat
        } else {
            0nat
        }
    }
}

/// The number of loops in `ops`, those inside other loops included.
pub open spec fn loops_in(ops: Seq<Op>) -> nat
    decreases ops, 0nat,
{
    if ops.len() == 0 {
        0
    } else {
        loops_in_op(ops[0]) + loops_in(ops.drop_first())
    }
}

/// The number of loops in one instruction, itself included.
pub open spec fn loops_in_op(op: Op) -> nat
    decreases op, 0nat,
{
    match op {
        Op::Loop(body) => 1 + loops_in(body),
        _ => 0,
    }
}

/// The tokens that write `ops`: each loop as its body between a pair of
/// brackets.
pub open spec fn flatten(ops: Seq<Op>) -> Seq<Token>
    decreases ops, 0nat,
{
    if ops.len() == 0 {
        Seq::empty()
    } else {
        flatten_op(ops[0]) + flatten(ops.drop_first())
    }
}

/// The tokens that write one instruction.
pub open spec fn flatten_op(op: Op) -> Seq<Token>
    decreases op, 0nat,
{
    match op {
        Op::MoveRight => seq![Token::MoveRight],
        Op::MoveLeft => seq![Token::MoveLeft],
        Op::Add => seq![Token::Add],
        Op::Sub => seq![Token::Sub],
        Op::Input => seq![Token::Input],
        Op::Print => seq![Token::Print],
        Op::Loop(body) => seq![Token::StartLoop] + flatten(body) + seq![Token::EndLoop],
        Op::Noop => seq![Token::Noop],
    }
}

/// `tokens` without its `Token::Noop`s.
pub open spec fn significant(tokens: Seq<Token>) -> Seq<Token> {
    tokens.filter(|token: Token| token != Token::Noop)
}

/// Occurrences add up over a concatenation.
pub proof fn lemma_occurrences_concat(left: Seq<Token>, right: Seq<Token>, token: Token)
    ensures
        occurrences(left + right, token) == occurrences(left, token) + occurrences(right, token),
    decreases right.len(),
{
    if right.len() > 0 {
        lemma_occurrences_concat(left, right.drop_last(), token);
        assert((left + right).drop_last() == left + right.drop_last());
    }
}

/// The nesting of a sequence is its opening brackets minus its closing ones.
pub proof fn lemma_nesting_counts(tokens: Seq<Token>)
    ensures
        nesting(tokens) == occurrences(tokens, Token::StartLoop) - occurrences(
            tokens,
            Token::EndLoop,
        ),
    decreases tokens.len(),
{
    if tokens.len() > 0 {
        lemma_nesting_counts(tokens.drop_last());
    }
}

/// In a well-bracketed sequence that opens with a bracket, `close_from`
/// finds that bracket's partner: the depth is above zero up to it and zero
/// behind it.
pub proof fn lemma_partner_exists(tokens: Seq<Token>)
    requires
        well_bracketed(tokens),
        tokens.len() > 0,
        tokens[0] == Token::StartLoop,
    ensures
        1 <= close_from(tokens, 0) < tokens.len(),
        depth_at(tokens, close_from(tokens, 0) + 1) == 0,
        forall|n: int| 0 < n <= close_from(tokens, 0) ==> depth_at(tokens, n) > 0,
{
    assert(tokens.take(tokens.len() as int) == tokens);
    lemma_depth_step(tokens, 0);
    lemma_close_from_finds(tokens, 0);
}

/// Where the depth is zero behind some position from `from` on,
/// `close_from` is the first such position.
pub proof fn lemma_close_from_finds(tokens: Seq<Token>, from: int)
    requires
        0 <= from < tokens.len(),
        depth_at(tokens, tokens.len() as int) == 0,
    ensures
        from <= close_from(tokens, from) < tokens.len(),
        depth_at(tokens, close_from(tokens, from) + 1) == 0,
        forall|n: int| from < n <= close_from(tokens, from) ==> depth_at(tokens, n) != 0,
    decreases tokens.len() - from,
{
    if depth_at(tokens, from + 1) != 0 {
        lemma_close_from_finds(tokens, from + 1);
    }
}

/// What follows a well-bracketed start of a well-bracketed sequence is well
/// bracketed.
pub proof fn lemma_rest_well_bracketed(tokens: Seq<Token>, from: int)
    requires
        well_bracketed(tokens),
        0 <= from <= tokens.len(),
        depth_at(tokens, from) == 0,
    ensures
        well_bracketed(tokens.skip(from)),
{
    let rest = tokens.skip(from);
    assert forall|n: int| 0 <= n <= rest.len() implies depth_at(rest, n) >= 0 by {
        lemma_depth_in_slice(tokens, from, tokens.len() as int, n);
    }
    lemma_depth_in_slice(tokens, from, tokens.len() as int, tokens.len() - from);
    assert(rest.take(rest.len() as int) == rest);
    assert(tokens.take(tokens.len() as int) == tokens);
}

/// A well-bracketed sequence does not open with a closing bracket, and
/// behind a first token that is no bracket it is well bracketed still.
pub proof fn lemma_first_token(tokens: Seq<Token>)
    requires
        well_bracketed(tokens),
        tokens.len() > 0,
    ensures
        tokens[0] != Token::EndLoop,
        tokens[0] != Token::StartLoop ==> well_bracketed(tokens.drop_first()),
{
    lemma_depth_step(tokens, 0);
    if tokens[0] != Token::StartLoop {
        lemma_rest_well_bracketed(tokens, 1);
    }
}

/// A well-bracketed sequence that opens with a bracket is that bracket, the
/// body of its loop, the partner, and what follows; body and rest are well
/// bracketed, and the structure is the loop of the body's structure before
/// the structure of the rest.
pub proof fn lemma_first_loop(tokens: Seq<Token>)
    requires
        well_bracketed(tokens),
        tokens.len() > 0,
        tokens[0] == Token::StartLoop,
    ensures
        ({
            let end = close_from(tokens, 0);
            let body = tokens.subrange(1, end);
            let rest = tokens.skip(end + 1);
            &&& 1 <= end < tokens.len()
            &&& tokens[end] == Token::EndLoop
            &&& well_bracketed(body)
            &&& well_bracketed(rest)
            &&& tokens == seq![Token::StartLoop] + body + seq![Token::EndLoop] + rest
            &&& structure(tokens) == seq![Op::Loop(structure(body))] + structure(rest)
        }),
{
    let end = close_from(tokens, 0);
    lemma_partner_exists(tokens);
    lemma_loop_body(tokens, 0, end);
    lemma_rest_well_bracketed(tokens, end + 1);
    lemma_depth_step(tokens, end);
    let body = tokens.subrange(1, end);
    let rest = tokens.skip(end + 1);
}

/// In the structure of a well-bracketed sequence there are as many loops as
/// the sequence has opening brackets, and as many as it has closing
/// brackets: each pair of brackets has become one loop.
pub proof fn lemma_one_loop_per_bracket_pair(tokens: Seq<Token>)
    requires
        well_bracketed(tokens),
    ensures
        loops_in(structure(tokens)) == occurrences(tokens, Token::StartLoop),
        loops_in(structure(tokens)) == occurrences(tokens, Token::EndLoop),
    decreases tokens.len(),
{
    lemma_nesting_counts(tokens);
    if tokens.len() > 0 {
        let first = seq![tokens[0]];
        lemma_first_token(tokens);
        if tokens[0] == Token::StartLoop {
            lemma_first_loop(tokens);
            let end = close_from(tokens, 0);
            let body = tokens.subrange(1, end);
            let rest = tokens.skip(end + 1);
            let last = seq![Token::EndLoop];
            lemma_one_loop_per_bracket_pair(body);
            lemma_one_loop_per_bracket_pair(rest);
            lemma_occurrences_concat(first + body + last, rest, Token::StartLoop);
            lemma_occurrences_concat(first + body, last, Token::StartLoop);
            lemma_occurrences_concat(first, body, Token::StartLoop);
            lemma_occurrences_single(Token::StartLoop, Token::StartLoop);
            lemma_occurrences_single(Token::EndLoop, Token::StartLoop);
            let ops = seq![Op::Loop(structure(body))] + structure(rest);
            assert(ops.drop_first() == structure(rest));
            assert(loops_in(ops) == loops_in_op(ops[0]) + loops_in(structure(rest)));
        } else {
            let rest = tokens.drop_first();
            lemma_one_loop_per_bracket_pair(rest);
            assert(tokens == first + rest);
            lemma_occurrences_concat(first, rest, Token::StartLoop);
            lemma_occurrences_single(tokens[0], Token::StartLoop);
            if tokens[0] != Token::Noop {
                let ops = seq![atom_of(tokens[0])] + structure(rest);
                assert(ops.drop_first() == structure(rest));
                assert(loops_in(ops) == loops_in_op(ops[0]) + loops_in(structure(rest)));
            }
        }
    }
}

/// The loops of `ops` that stand in no other loop.
pub open spec fn outer_loops(ops: Seq<Op>) -> nat
    decreases ops.len(),
{
    if ops.len() == 0 {
        0
    } else {
        outer_loops(ops.drop_last()) + if ops.last() is Loop {
            1nat
        } else {
            0nat
        }
    }
}

/// How many of the first `n` tokens are closing brackets of one kind: with
/// `inner`, those that close a loop inside another loop, at a depth above
/// one; without, those that close a loop that stands in no other.
pub open spec fn closers(tokens: Seq<Token>, n: int, inner: bool) -> nat
    decreases n,
{
    if n <= 0 {
        0
    } else {
        closers(tokens, n - 1, inner) + if tokens[n - 1] == Token::EndLoop && (depth_at(
            tokens,
            n - 1,
        ) > 1) == inner {
            1nat
        } else {
            0nat
        }
    }
}

/// Every closing bracket is of one of the two kinds.
pub proof fn lemma_closers_split(tokens: Seq<Token>, n: int)
    requires
        0 <= n <= tokens.len(),
    ensures
        occurrences(tokens.take(n), Token::EndLoop) == closers(tokens, n, true) + closers(
            tokens,
            n,
            false,
        ),
    decreases n,
{
    if n > 0 {
        lemma_closers_split(tokens, n - 1);
        assert(tokens.take(n).drop_last() == tokens.take(n - 1));
    }
}

/// Closing brackets are counted alike in two sequences that hold the same
/// tokens at the same depths, the one from `shift` on, the other from its
/// start.
pub proof fn lemma_closers_shift(
    tokens: Seq<Token>,
    shift: int,
    part: Seq<Token>,
    n: int,
    inner: bool,
)
    requires
        0 <= shift,
        0 <= n <= part.len(),
        shift + part.len() <= tokens.len(),
        forall|k: int| 0 <= k < part.len() ==> tokens[shift + k] == part[k],
        forall|k: int| 0 <= k < part.len() ==> depth_at(tokens, shift + k) == depth_at(part, k),
    ensures
        closers(tokens, shift + n, inner) == closers(tokens, shift, inner) + closers(
            part,
            n,
            inner,
        ),
    decreases n,
{
    if n > 0 {
        lemma_closers_shift(tokens, shift, part, n - 1, inner);
    }
}

/// Where the depth stays above zero behind every token from the second to
/// the `n`th, none of the first `n` tokens closes a loop that stands in no
/// other.
pub proof fn lemma_no_outer_closer_inside(tokens: Seq<Token>, n: int)
    requires
        0 <= n <= tokens.len(),
        depth_at(tokens, 0) == 0,
        forall|k: int| 0 < k <= n ==> depth_at(tokens, k) > 0,
    ensures
        closers(tokens, n, false) == 0,
    decreases n,
{
    if n > 0 {
        lemma_no_outer_closer_inside(tokens, n - 1);
        lemma_depth_step(tokens, n - 1);
    }
}

/// The loops that stand in no other are as many as the closing brackets
/// that close such a loop.
pub proof fn lemma_outer_loops_are_outer_closers(tokens: Seq<Token>)
    requires
        well_bracketed(tokens),
    ensures
        outer_loops(structure(tokens)) == closers(tokens, tokens.len() as int, false),
    decreases tokens.len(),
{
    if tokens.len() > 0 {
        lemma_first_token(tokens);
        assert(tokens.take(0) == Seq::<Token>::empty());
        let from = if tokens[0] == Token::StartLoop {
            lemma_first_loop(tokens);
            lemma_partner_exists(tokens);
            close_from(tokens, 0) + 1
        } else {
            1
        };
        let rest = tokens.skip(from);
        lemma_depth_step(tokens, from - 1);
        lemma_no_outer_closer_inside(tokens, from - 1);
        assert(closers(tokens, from, false) == if tokens[0] == Token::StartLoop {
            1nat
        } else {
            0nat
        });
        assert forall|k: int| 0 <= k < rest.len() implies depth_at(tokens, from + k)
            == depth_at(rest, k) by {
            lemma_depth_in_slice(tokens, from, tokens.len() as int, k);
        }
        lemma_closers_shift(tokens, from, rest, rest.len() as int, false);
        lemma_outer_loops_are_outer_closers(rest);
        let ops = structure(tokens);
        lemma_outer_loops_cons(ops);
        if tokens[0] == Token::StartLoop {
            assert(ops.drop_first() == structure(rest));
        } else if tokens[0] != Token::Noop {
            assert(ops == seq![atom_of(tokens[0])] + structure(rest));
            assert(ops.drop_first() == structure(rest));
        }
    }
}

/// The loops that stand in no other, counted from the first instruction.
pub proof fn lemma_outer_loops_cons(ops: Seq<Op>)
    ensures
        ops.len() > 0 ==> outer_loops(ops) == outer_loops(ops.drop_first()) + if ops[0] is Loop {
            1nat
        } else {
            0nat
        },
    decreases ops.len(),
{
    if ops.len() > 1 {
        lemma_outer_loops_cons(ops.drop_last());
        assert(ops.drop_last().drop_first() == ops.drop_first().drop_last());
    } else if ops.len() == 1 {
        assert(outer_loops(ops.drop_last()) == 0);
        assert(outer_loops(ops.drop_first()) == 0);
    }
}

/// A well-bracketed sequence has as many opening brackets as its structure
/// has loops that stand in no other, plus as many as it has closing brackets
/// that close a loop inside another.
pub proof fn lemma_loops_and_inner_closers(tokens: Seq<Token>)
    requires
        well_bracketed(tokens),
    ensures
        occurrences(tokens, Token::StartLoop) == outer_loops(structure(tokens)) + closers(
            tokens,
            tokens.len() as int,
            true,
        ),
{
    lemma_nesting_counts(tokens);
    lemma_closers_split(tokens, tokens.len() as int);
    assert(tokens.take(tokens.len() as int) == tokens);
    lemma_outer_loops_are_outer_closers(tokens);
}


/// The occurrences of a token in a sequence of one token.
pub proof fn lemma_occurrences_single(only: Token, token: Token)
    ensures
        occurrences(seq![only], token) == if only == token {
            1nat
        } else {
            0nat
        },
{
    assert(seq![only].drop_last() == Seq::<Token>::empty());
    assert(occurrences(Seq::<Token>::empty(), token) == 0);
}

/// Writing the structure of a well-bracketed sequence out as tokens again
/// gives the sequence back, but for its `Token::Noop`s: every bracket
/// stands where it stood, at the depth at which it stood.
pub proof fn lemma_flatten_structure(tokens: Seq<Token>)
    requires
        well_bracketed(tokens),
    ensures
        flatten(structure(tokens)) == significant(tokens),
    decreases tokens.len(),
{
    if tokens.len() > 0 {
        let first = seq![tokens[0]];
        lemma_first_token(tokens);
        lemma_significant_single(tokens[0]);
        if tokens[0] == Token::StartLoop {
            lemma_first_loop(tokens);
            let end = close_from(tokens, 0);
            let body = tokens.subrange(1, end);
            let rest = tokens.skip(end + 1);
            let last = seq![Token::EndLoop];
            lemma_flatten_structure(body);
            lemma_flatten_structure(rest);
            lemma_significant_single(Token::EndLoop);
            lemma_significant_concat(first + body + last, rest);
            lemma_significant_concat(first + body, last);
            lemma_significant_concat(first, body);
            let ops = seq![Op::Loop(structure(body))] + structure(rest);
            assert(ops.drop_first() == structure(rest));
            assert(flatten(ops) == flatten_op(ops[0]) + flatten(structure(rest)));
        } else {
            let rest = tokens.drop_first();
            lemma_flatten_structure(rest);
            assert(tokens == first + rest);
            lemma_significant_concat(first, rest);
            if tokens[0] != Token::Noop {
                let ops = seq![atom_of(tokens[0])] + structure(rest);
                assert(ops.drop_first() == structure(rest));
                assert(flatten_op(ops[0]) == first);
            }
        }
    }
}

/// Dropping the `Token::Noop`s of a concatenation drops them of each part.
pub proof fn lemma_significant_concat(left: Seq<Token>, right: Seq<Token>)
    ensures
        significant(left + right) == significant(left) + significant(right),
{
    let keep = |token: Token| token != Token::Noop;
    Seq::<Token>::filter_distributes_over_add(left, right, keep);
}

/// Dropping the `Token::Noop`s of a sequence of one token.
pub proof fn lemma_significant_single(only: Token)
    ensures
        significant(seq![only]) == if only == Token::Noop {
            Seq::<Token>::empty()
        } else {
            seq![only]
        },
{
    let keep = |token: Token| token != Token::Noop;
    reveal(Seq::filter);
    assert(seq![only].drop_last() == Seq::<Token>::empty());
    assert(Seq::<Token>::empty().filter(keep) == Seq::<Token>::empty());
}

} // verus!
