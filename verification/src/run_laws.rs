//! What holds of every run.

use crate::executor::{exec_ops, iterate, step, Machine};
use crate::instruction::Op;
use crate::numeral::{numeral, trimmed};
use crate::tape::ExecError;
use vstd::prelude::*;

verus! {

/// `after` can come of `before` by running: the tape has kept its length, a
/// pointer that stood on the tape stands on it still, no budget was gained,
/// what was written is still there with at most more behind it, and the
/// pending input is what is left of the old.
pub open spec fn follows(before: Machine, after: Machine) -> bool {
    &&& after.tape.len() == before.tape.len()
    &&& before.valid() ==> after.valid()
    &&& after.budget <= before.budget
    &&& before.output.is_prefix_of(after.output)
    &&& after.pending.len() <= before.pending.len()
    &&& after.pending == before.pending.skip(before.pending.len() - after.pending.len())
}

/// `count` times the instruction `op`.
pub open spec fn repeated(op: Op, count: nat) -> Seq<Op> {
    Seq::new(count, |i: int| op)
}

/// The empty program changes nothing: no cell, no pointer, no input read,
/// nothing written.
pub proof fn lemma_empty_program(m: Machine)
    ensures
        exec_ops(Seq::empty(), m) == m,
{
}

/// A stopped machine stays as it is, whatever is run on it.
pub proof fn lemma_stopped_stays(ops: Seq<Op>, m: Machine)
    requires
        m.fault is Some,
    ensures
        exec_ops(ops, m) == m,
{
}

/// A program of one instruction does what that instruction does.
pub proof fn lemma_single(op: Op, m: Machine)
    ensures
        exec_ops(seq![op], m) == step(op, m),
{
    let ops = seq![op];
    if m.fault is None {
        assert(exec_ops(ops, m) == exec_ops(ops.drop_first(), step(ops[0], m)));
    }
}

/// Running two programs one after the other is running their concatenation.
pub proof fn lemma_concat(first: Seq<Op>, second: Seq<Op>, m: Machine)
    ensures
        exec_ops(first + second, m) == exec_ops(second, exec_ops(first, m)),
    decreases first.len(),
{
    if first.len() == 0 {
    } else if m.fault is None {
        let all = first + second;
        assert(all.drop_first() == first.drop_first() + second);
        lemma_concat(first.drop_first(), second, step(first[0], m));
    }
}

/// What comes of one instruction follows what was before.
pub proof fn lemma_step_follows(op: Op, m: Machine)
    requires
        m.valid(),
    ensures
        follows(m, step(op, m)),
    decreases op, 0nat,
{
    assert(m.pending.skip(0) == m.pending);
    if m.fault is None {
        match op {
            Op::Loop(body) => {
                lemma_iterate_follows(body, m, m.budget);
            },
            _ => {},
        }
    }
}

/// What comes of a loop follows what was before.
pub proof fn lemma_iterate_follows(body: Seq<Op>, m: Machine, rounds: nat)
    requires
        m.valid(),
    ensures
        follows(m, iterate(body, m, rounds)),
    decreases body, rounds + 1,
{
    assert(m.pending.skip(0) == m.pending);
    if m.fault is None && m.cell() != 0 && m.budget != 0 && rounds != 0 {
        let round = exec_ops(body, m.spent());
        lemma_exec_follows(body, m.spent());
        lemma_iterate_follows(body, round, (rounds - 1) as nat);
        lemma_follows_chain(m, round, iterate(body, round, (rounds - 1) as nat));
    }
}

/// What comes of a program follows what was before.
pub proof fn lemma_exec_follows(ops: Seq<Op>, m: Machine)
    requires
        m.valid(),
    ensures
        follows(m, exec_ops(ops, m)),
    decreases ops, 0nat,
{
    assert(m.pending.skip(0) == m.pending);
    if ops.len() != 0 && m.fault is None {
        let next = step(ops[0], m);
        lemma_step_follows(ops[0], m);
        lemma_exec_follows(ops.drop_first(), next);
        lemma_follows_chain(m, next, exec_ops(ops.drop_first(), next));
    }
}

/// `follows` goes through a machine in between, whether or not a round was
/// taken from the budget of the first to get the second.
pub proof fn lemma_follows_chain(first: Machine, second: Machine, third: Machine)
    requires
        follows(first, second) || (first.budget > 0 && follows(first.spent(), second)),
        follows(second, third),
    ensures
        follows(first, third),
{
    let dropped = first.pending.len() - second.pending.len();
    let more = second.pending.len() - third.pending.len();
    assert(first.pending.skip(dropped).skip(more) =~= first.pending.skip(dropped + more));
    assert forall|i: int| 0 <= i < first.output.len() implies first.output[i]
        == third.output[i] by {}
}

/// The bound on the rounds of a loop never cuts the loop short where it is
/// at least the budget: the budget runs out first.
pub proof fn lemma_rounds_do_not_bind(body: Seq<Op>, m: Machine, rounds: nat)
    requires
        m.valid(),
        rounds >= m.budget,
    ensures
        iterate(body, m, rounds) == iterate(body, m, m.budget),
    decreases rounds,
{
    if m.fault is None && m.cell() != 0 && m.budget != 0 {
        let round = exec_ops(body, m.spent());
        lemma_exec_follows(body, m.spent());
        lemma_rounds_do_not_bind(body, round, (rounds - 1) as nat);
        lemma_rounds_do_not_bind(body, round, (m.budget - 1) as nat);
    }
}

/// A loop is a while loop. On a zero cell it does nothing. On any other
/// cell it takes one round from the budget, runs its body once, and is then
/// the same loop again on what the body left; with no budget it stops the
/// machine.
pub proof fn lemma_loop_unfolds(body: Seq<Op>, m: Machine)
    requires
        m.valid(),
        m.fault is None,
    ensures
        step(Op::Loop(body), m) == if m.cell() == 0 {
            m
        } else if m.budget == 0 {
            m.stopped(ExecError::BudgetSpent)
        } else {
            step(Op::Loop(body), exec_ops(body, m.spent()))
        },
{
    if m.cell() != 0 && m.budget != 0 {
        let round = exec_ops(body, m.spent());
        lemma_exec_follows(body, m.spent());
        lemma_rounds_do_not_bind(body, round, (m.budget - 1) as nat);
    }
}

/// A loop that stands inside a program, be that program the body of
/// another loop, is run to its end where it stands: what stands before it
/// runs first, then the whole inner loop, and what stands behind it goes
/// on from what the inner loop left.
pub proof fn lemma_inner_loop_runs_in_place(
    before: Seq<Op>,
    inner: Seq<Op>,
    behind: Seq<Op>,
    m: Machine,
)
    ensures
        exec_ops(before + seq![Op::Loop(inner)] + behind, m) == exec_ops(
            behind,
            step(Op::Loop(inner), exec_ops(before, m)),
        ),
{
    lemma_concat(before + seq![Op::Loop(inner)], behind, m);
    lemma_concat(before, seq![Op::Loop(inner)], m);
    lemma_single(Op::Loop(inner), exec_ops(before, m));
}

/// One round of a loop whose body holds another loop: the round runs what
/// stands before the inner loop, then the inner loop to its end, then what
/// stands behind it, and only then is the outer loop's cell looked at
/// again.
pub proof fn lemma_nested_loop_round(
    before: Seq<Op>,
    inner: Seq<Op>,
    behind: Seq<Op>,
    m: Machine,
)
    requires
        m.valid(),
        m.fault is None,
        m.cell() != 0,
        m.budget > 0,
    ensures
        step(Op::Loop(before + seq![Op::Loop(inner)] + behind), m) == step(
            Op::Loop(before + seq![Op::Loop(inner)] + behind),
            exec_ops(behind, step(Op::Loop(inner), exec_ops(before, m.spent()))),
        ),
{
    lemma_loop_unfolds(before + seq![Op::Loop(inner)] + behind, m);
    lemma_inner_loop_runs_in_place(before, inner, behind, m.spent());
}

/// Reading a line that writes no number puts zero in the current cell,
/// takes the line, and does not stop the machine.
pub proof fn lemma_unreadable_input_is_zero(m: Machine)
    requires
        m.fault is None,
        m.pending.len() > 0,
        numeral(trimmed(m.pending[0])) is None,
    ensures
        step(Op::Input, m) == (Machine { pending: m.pending.drop_first(), ..m.with_cell(0) }),
        step(Op::Input, m).fault is None,
{
}

/// `count` moves to the right that all stay on the tape move the pointer by
/// `count` and change nothing else.
pub proof fn lemma_moves_right(m: Machine, count: nat)
    requires
        m.fault is None,
        m.pointer + count < m.tape.len(),
    ensures
        exec_ops(repeated(Op::MoveRight, count), m) == (Machine {
            pointer: m.pointer + count,
            ..m
        }),
    decreases count,
{
    let moves = repeated(Op::MoveRight, count);
    if count > 0 {
        let moved = Machine { pointer: m.pointer + 1, ..m };
        assert(moves.drop_first() == repeated(Op::MoveRight, (count - 1) as nat));
        assert(step(moves[0], m) == moved);
        lemma_moves_right(moved, (count - 1) as nat);
    }
}

/// `count` moves to the left that all stay on the tape move the pointer by
/// `count` and change nothing else.
pub proof fn lemma_moves_left(m: Machine, count: nat)
    requires
        m.fault is None,
        m.pointer >= count,
    ensures
        exec_ops(repeated(Op::MoveLeft, count), m) == (Machine {
            pointer: m.pointer - count,
            ..m
        }),
    decreases count,
{
    let moves = repeated(Op::MoveLeft, count);
    if count > 0 {
        let moved = Machine { pointer: m.pointer - 1, ..m };
        assert(moves.drop_first() == repeated(Op::MoveLeft, (count - 1) as nat));
        assert(step(moves[0], m) == moved);
        lemma_moves_left(moved, (count - 1) as nat);
    }
}

/// As many moves to the left as there were moves to the right before them
/// bring the pointer back to where it was, and leave every cell and all
/// else as it was, provided the moves to the right stay on the tape.
pub proof fn lemma_there_and_back(m: Machine, count: nat)
    requires
        m.valid(),
        m.fault is None,
        m.pointer + count < m.tape.len(),
    ensures
        exec_ops(repeated(Op::MoveRight, count) + repeated(Op::MoveLeft, count), m) == m,
{
    let away = Machine { pointer: m.pointer + count, ..m };
    lemma_concat(repeated(Op::MoveRight, count), repeated(Op::MoveLeft, count), m);
    lemma_moves_right(m, count);
    lemma_moves_left(away, count);
}

} // verus!
