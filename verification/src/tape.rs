//! The tape of byte cells, the pointer into it, and the four operations on
//! them. A cell wraps round on overflow; the pointer never leaves the tape.

use vstd::prelude::*;

verus! {

/// The number of cells of the customary tape.
pub const TAPE_LEN: usize = 256000;

/// Why a run stopped before the end of its program.
#[derive(Clone, Copy, Debug, PartialEq, Eq, Structural)]
pub enum ExecError {
    /// A move to the right from the last cell of the tape.
    PointerPastTape,
    /// A move to the left from the first cell of the tape.
    PointerBeforeTape,
    /// A loop was to start one more round with no round left in the budget.
    BudgetSpent,
}

/// The value of a cell after one increment: 255 wraps round to 0.
pub open spec fn incremented(value: u8) -> u8 {
    if value == 255 {
        0
    } else {
        (value + 1) as u8
    }
}

/// The value of a cell after one decrement: 0 wraps round to 255.
pub open spec fn decremented(value: u8) -> u8 {
    if value == 0 {
        255
    } else {
        (value - 1) as u8
    }
}

/// The character that a cell prints: the one whose code point is the cell's
/// value.
pub open spec fn printed(value: u8) -> char {
    value as char
}

/// A tape of `cells` cells, all zero.
pub fn blank_tape(cells: usize) -> (tape: Vec<u8>)
    ensures
        tape@ == Seq::new(cells as nat, |i: int| 0u8),
{
    let mut tape: Vec<u8> = Vec::new();
    let mut made: usize = 0;
    while made < cells
        invariant
            made <= cells,
            tape@ == Seq::new(made as nat, |i: int| 0u8),
        decreases cells - made,
    {
        tape.push(0);
        made += 1;
    }
    tape
}

/// Moves the pointer one cell to the right on a tape of `tape_len` cells.
/// From the last cell the pointer stays and the move is refused.
pub fn move_right(ip: &mut usize, tape_len: usize) -> (result: Result<(), ExecError>)
    ensures
        *old(ip) + 1 < tape_len ==> result is Ok && *final(ip) == *old(ip) + 1,
        *old(ip) + 1 >= tape_len ==> result == Err::<(), ExecError>(ExecError::PointerPastTape)
            && *final(ip) == *old(ip),
{
    if *ip < tape_len && *ip + 1 < tape_len {
        *ip += 1;
        Ok(())
    } else {
        Err(ExecError::PointerPastTape)
    }
}

/// Moves the pointer one cell to the left. From the first cell the pointer
/// stays and the move is refused.
pub fn move_left(ip: &mut usize) -> (result: Result<(), ExecError>)
    ensures
        *old(ip) > 0 ==> result is Ok && *final(ip) == *old(ip) - 1,
        *old(ip) == 0 ==> result == Err::<(), ExecError>(ExecError::PointerBeforeTape)
            && *final(ip) == 0,
{
    if *ip > 0 {
        *ip -= 1;
        Ok(())
    } else {
        Err(ExecError::PointerBeforeTape)
    }
}

/// Adds one to a cell, wrapping round.
pub fn add(cell_value: &mut u8)
    ensures
        *final(cell_value) == incremented(*old(cell_value)),
{
    *cell_value = cell_value.wrapping_add(1);
}

/// Takes one from a cell, wrapping round.
pub fn sub(cell_value: &mut u8)
    ensures
        *final(cell_value) == decremented(*old(cell_value)),
{
    *cell_value = cell_value.wrapping_sub(1);
}

/// Appends to `output` the character that the cell prints.
pub fn print_tape_cell(cell_value: u8, output: &mut Vec<char>)
    ensures
        final(output)@ == old(output)@.push(printed(cell_value)),
{
    output.push(cell_value as char);
}

} // verus!
