//! Execution: walking an instruction tree against a tape.
//!
//! What a program does is defined on a mathematical machine, `Machine`, by
//! `exec_ops`. The executable `run` is proved to do exactly that.

use crate::instruction::{lemma_ops_of_index, ops_of, Instruction, Op};
use crate::numeral::{cell_of_line, parse_cell};
use crate::tape::{
    decremented, incremented, move_left, move_right, print_tape_cell, printed, ExecError,
};
use vstd::prelude::*;

verus! {

/// What a running program has of the world outside its tape: the lines it
/// may still read, the characters it has written, and the loop rounds it may
/// still take.
pub struct Host {
    /// The lines of input, first to last.
    pub input: Vec<String>,
    /// How many lines of `input` have been read.
    pub read: usize,
    /// The characters written so far.
    pub output: Vec<char>,
    /// How many loop rounds may still be started.
    pub budget: u64,
}

impl Host {
    /// The lines of input that have not been read yet.
    pub open spec fn pending(self) -> Seq<Seq<char>> {
        if self.read <= self.input@.len() {
            Seq::new(
                (self.input@.len() - self.read) as nat,
                |i: int| self.input@[self.read + i]@,
            )
        } else {
            Seq::empty()
        }
    }

    /// A host with `input` to be read, nothing written, and `budget` loop
    /// rounds to take.
    pub fn new(input: Vec<String>, budget: u64) -> (host: Host)
        ensures
            host.input == input,
            host.read == 0,
            host.output@ == Seq::<char>::empty(),
            host.budget == budget,
    {
        Host { input, read: 0, output: Vec::new(), budget }
    }
}

/// The whole state of a run, as a mathematical value.
pub struct Machine {
    /// The cells.
    pub tape: Seq<u8>,
    /// The position of the current cell.
    pub pointer: int,
    /// The lines of input not read yet.
    pub pending: Seq<Seq<char>>,
    /// The characters written so far.
    pub output: Seq<char>,
    /// The loop rounds that may still be started.
    pub budget: nat,
    /// Why the run has stopped, where it has.
    pub fault: Option<ExecError>,
}

impl Machine {
    /// The pointer stands on a cell of the tape.
    pub open spec fn valid(self) -> bool {
        0 <= self.pointer < self.tape.len()
    }

    /// The value of the current cell.
    pub open spec fn cell(self) -> u8 {
        self.tape[self.pointer]
    }

    /// This machine with `value` in the current cell.
    pub open spec fn with_cell(self, value: u8) -> Machine {
        Machine { tape: self.tape.update(self.pointer, value), ..self }
    }

    /// This machine with one round taken from its budget.
    pub open spec fn spent(self) -> Machine {
        Machine { budget: (self.budget - 1) as nat, ..self }
    }

    /// This machine, stopped for `error`.
    pub open spec fn stopped(self, error: ExecError) -> Machine {
        Machine { fault: Some(error), ..self }
    }
}

/// The machine that a tape, a pointer and a host make up.
pub open spec fn machine_of(
    tape: Seq<u8>,
    pointer: usize,
    host: Host,
    fault: Option<ExecError>,
) -> Machine {
    Machine {
        tape,
        pointer: pointer as int,
        pending: host.pending(),
        output: host.output@,
        budget: host.budget as nat,
        fault,
    }
}

/// The error of a result, if it is one.
pub open spec fn fault_of(result: Result<(), ExecError>) -> Option<ExecError> {
    match result {
        Ok(_) => None,
        Err(error) => Some(error),
    }
}

/// The machine after one instruction. A stopped machine stays as it is.
///
/// A move off the tape stops the machine where it stands. Reading takes the
/// next pending line, or gives zero where none is left. A loop runs its body
/// for as long as the current cell is not zero.
pub open spec fn step(op: Op, m: Machine) -> Machine
    decreases op, 0nat,
{
    if m.fault is Some {
        m
    } else {
        match op {
            Op::MoveRight => if m.pointer + 1 < m.tape.len() {
                Machine { pointer: m.pointer + 1, ..m }
            } else {
                m.stopped(ExecError::PointerPastTape)
            },
            Op::MoveLeft => if m.pointer > 0 {
                Machine { pointer: m.pointer - 1, ..m }
            } else {
                m.stopped(ExecError::PointerBeforeTape)
            },
            Op::Add => m.with_cell(incremented(m.cell())),
            Op::Sub => m.with_cell(decremented(m.cell())),
            Op::Print => Machine { output: m.output.push(printed(m.cell())), ..m },
            Op::Input => if m.pending.len() > 0 {
                Machine { pending: m.pending.drop_first(), ..m.with_cell(cell_of_line(m.pending[0])) }
            } else {
                m.with_cell(0)
            },
            Op::Loop(body) => iterate(body, m, m.budget),
            Op::Noop => m,
        }
    }
}

/// The machine after the loop with this body has run to its end, in at most
/// `rounds` rounds.
///
/// Before every round, the first too, the current cell is looked at: the
/// loop ends where it is zero. A round takes one from the budget and runs
/// the body once; with no budget left the machine stops instead. Since each
/// round costs budget, a loop that is entered with `rounds` equal to the
/// budget is never cut short by `rounds`.
pub open spec fn iterate(body: Seq<Op>, m: Machine, rounds: nat) -> Machine
    decreases body, rounds + 1,
{
    if m.fault is Some || m.cell() == 0 {
        m
    } else if m.budget == 0 || rounds == 0 {
        m.stopped(ExecError::BudgetSpent)
    } else {
        iterate(body, exec_ops(body, m.spent()), (rounds - 1) as nat)
    }
}

/// The machine after the instructions of `ops`, one after the other. Where
/// one of them stops the machine, those after it do nothing.
pub open spec fn exec_ops(ops: Seq<Op>, m: Machine) -> Machine
    decreases ops, 0nat,
{
    if ops.len() == 0 || m.fault is Some {
        m
    } else {
        exec_ops(ops.drop_first(), step(ops[0], m))
    }
}

/// Runs `instructions` on the tape, from the cell under `ip`.
///
/// The tape, the pointer and the host are left exactly as `exec_ops` says,
/// and the result is the error that stopped the run, if one did. The budget
/// of `host` bounds the loop rounds of the whole run, so every run ends.
pub fn run(
    instructions: &Vec<Instruction>,
    tape: &mut Vec<u8>,
    ip: &mut usize,
    host: &mut Host,
) -> (result: Result<(), ExecError>)
    requires
        *old(ip) < old(tape).len(),
    ensures
        machine_of(final(tape)@, *final(ip), *final(host), fault_of(result)) == exec_ops(
            ops_of(instructions@),
            machine_of(old(tape)@, *old(ip), *old(host), None),
        ),
        final(tape).len() == old(tape).len(),
        *final(ip) < final(tape).len(),
        final(host).budget <= old(host).budget,
    decreases old(host).budget,
{
    let ghost ops = ops_of(instructions@);
    let ghost begin = machine_of(tape@, *ip, *host, None);
    proof {
        lemma_ops_of_index(instructions@);
        assert(ops.skip(0) == ops);
    }
    let mut index: usize = 0;
    while index < instructions.len()
        invariant
            index <= instructions.len(),
            begin == machine_of(old(tape)@, *old(ip), *old(host), None),
            ops == ops_of(instructions@),
            ops.len() == instructions.len(),
            forall|i: int| 0 <= i < instructions.len() ==> #[trigger] ops[i] == instructions[i].op(),
            tape.len() == old(tape).len(),
            *ip < tape.len(),
            host.budget <= old(host).budget,
            exec_ops(ops, begin) == exec_ops(
                ops.skip(index as int),
                machine_of(tape@, *ip, *host, None),
            ),
        decreases instructions.len() - index,
    {
        let ghost before = machine_of(tape@, *ip, *host, None);
        let ghost op = instructions[index as int].op();
        let ghost rest = ops.skip(index + 1);
        assert(ops.skip(index as int).drop_first() == rest);
        match &instructions[index] {
            Instruction::MoveRight => {
                match move_right(ip, tape.len()) {
                    Ok(()) => {},
                    Err(error) => {
                        return Err(error);
                    },
                }
            },
            Instruction::MoveLeft => {
                match move_left(ip) {
                    Ok(()) => {},
                    Err(error) => {
                        return Err(error);
                    },
                }
            },
            Instruction::Add => {
                let mut cell = tape[*ip];
                crate::tape::add(&mut cell);
                tape.set(*ip, cell);
            },
            Instruction::Sub => {
                let mut cell = tape[*ip];
                crate::tape::sub(&mut cell);
                tape.set(*ip, cell);
            },
            Instruction::Print => {
                print_tape_cell(tape[*ip], &mut host.output);
            },
            Instruction::Input => {
                if host.read < host.input.len() {
                    let value = parse_cell(host.input[host.read].as_str());
                    tape.set(*ip, value);
                    host.read += 1;
                    assert(host.pending() =~= before.pending.drop_first());
                } else {
                    tape.set(*ip, 0);
                }
            },
            Instruction::Loop(body) => {
                let ghost body_ops = ops_of(body@);
                let ghost mut rounds: nat = host.budget as nat;
                while tape[*ip] != 0
                    invariant
                        tape.len() == old(tape).len(),
                        *ip < tape.len(),
                        host.budget <= old(host).budget,
                        host.budget <= rounds,
                        begin == machine_of(old(tape)@, *old(ip), *old(host), None),
                        ops == ops_of(instructions@),
                        body_ops == ops_of(body@),
                        step(op, before) == iterate(
                            body_ops,
                            machine_of(tape@, *ip, *host, None),
                            rounds,
                        ),
                        exec_ops(ops, begin) == exec_ops(rest, step(op, before)),
                    decreases host.budget,
                {
                    let ghost entry = machine_of(tape@, *ip, *host, None);
                    if host.budget == 0 {
                        return Err(ExecError::BudgetSpent);
                    }
                    host.budget -= 1;
                    let ghost spent = machine_of(tape@, *ip, *host, None);
                    assert(iterate(body_ops, entry, rounds) == iterate(
                        body_ops,
                        exec_ops(body_ops, spent),
                        (rounds - 1) as nat,
                    ));
                    match run(body, tape, ip, host) {
                        Ok(()) => {},
                        Err(error) => {
                            return Err(error);
                        },
                    }
                    proof {
                        rounds = (rounds - 1) as nat;
                    }
                }
            },
            Instruction::Noop => {},
        }
        index += 1;
    }
    Ok(())
}

} // verus!
