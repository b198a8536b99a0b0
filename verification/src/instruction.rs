//! The instruction tree, and the mathematical tree that contracts speak of.

use vstd::prelude::*;

verus! {

/// One node of a structured program.
#[derive(Debug, PartialEq, Eq)]
pub enum Instruction {
    MoveRight,
    MoveLeft,
    Add,
    Sub,
    Input,
    Print,
    /// A bracket pair with everything between its brackets.
    Loop(Vec<Instruction>),
    /// Nothing to do. Structuring never leaves one in its result.
    Noop,
}

/// An instruction as a mathematical value: the model of `Instruction`.
pub enum Op {
    MoveRight,
    MoveLeft,
    Add,
    Sub,
    Input,
    Print,
    Loop(Seq<Op>),
    Noop,
}

impl Instruction {
    /// The model of this instruction.
    pub open spec fn op(self) -> Op
        decreases self,
    {
        match self {
            Instruction::MoveRight => Op::MoveRight,
            Instruction::MoveLeft => Op::MoveLeft,
            Instruction::Add => Op::Add,
            Instruction::Sub => Op::Sub,
            Instruction::Input => Op::Input,
            Instruction::Print => Op::Print,
            Instruction::Loop(body) => Op::Loop(ops_of(body@)),
            Instruction::Noop => Op::Noop,
        }
    }
}

/// The model of a sequence of instructions: the model of each, in order.
pub open spec fn ops_of(instructions: Seq<Instruction>) -> Seq<Op>
    decreases instructions,
{
    if instructions.len() == 0 {
        Seq::empty()
    } else {
        ops_of(instructions.drop_last()).push(instructions.last().op())
    }
}

/// `ops_of` keeps the length and works position by position.
pub proof fn lemma_ops_of_index(instructions: Seq<Instruction>)
    ensures
        ops_of(instructions).len() == instructions.len(),
        forall|i: int|
            0 <= i < instructions.len() ==> #[trigger] ops_of(instructions)[i]
                == instructions[i].op(),
    decreases instructions.len(),
{
    if instructions.len() > 0 {
        lemma_ops_of_index(instructions.drop_last());
    }
}

/// The model of a sequence with one more instruction at its end.
pub proof fn lemma_ops_of_push(instructions: Seq<Instruction>, last: Instruction)
    ensures
        ops_of(instructions.push(last)) == ops_of(instructions).push(last.op()),
{
    assert(instructions.push(last).drop_last() == instructions);
}

/// No `Op::Noop` stands anywhere in `ops`, at any depth.
pub open spec fn noop_free(ops: Seq<Op>) -> bool
    decreases ops,
{
    forall|i: int|
        0 <= i < ops.len() ==> match #[trigger] ops[i] {
            Op::Noop => false,
            Op::Loop(body) => noop_free(body),
            _ => true,
        }
}

} // verus!
