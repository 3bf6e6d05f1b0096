//! The instruction stream and the rules that a well-formed stream follows.
use vstd::prelude::*;

verus! {

/// The operator of one instruction.
#[derive(Debug, Clone, Copy, PartialEq, Eq, Structural)]
pub enum Op {
    /// Add the operand to the current cell, modulo 256 (`+` / `-`).
    Upd,
    /// Read one byte into the current cell (`,`).
    Acp,
    /// Write the current cell, operand times (`.`).
    Out,
    /// Move the tape pointer by the operand (`>` / `<`).
    Shf,
    /// Jump to the operand when the current cell is zero (`[`).
    Jpf,
    /// Jump to the operand when the current cell is non-zero (`]`).
    Jpb,
    /// Assign the operand, as a byte, to the current cell.
    Asg,
    /// Multiply the current cell by the operand, modulo 256.
    Mul,
    /// Add the current cell into the cell at the operand's offset.
    Add,
}

/// One instruction: an operator and a signed operand.
#[derive(Debug, Clone, Copy, PartialEq, Eq, Structural)]
pub struct Operation {
    pub operator: Op,
    pub operand: isize,
}

/// The ways in which parsing or running a program fails.
#[derive(Debug, Clone, Copy, PartialEq, Eq, Structural)]
pub enum BfError {
    /// A `[` without its `]`, or a `]` without its `[`.
    UnbalancedJump,
    /// The tape pointer was asked to move before the first cell.
    TapeUnderflow,
    /// The tape pointer would leave the range of addressable cells.
    TapeOverflow,
}

pub open spec fn is_jump(op: Op) -> bool {
    op == Op::Jpf || op == Op::Jpb
}

/// The jump at `i` (if any) and its partner point at each other: a `Jpf`
/// holds one past its `Jpb`, and the `Jpb` one past its `Jpf`.
pub open spec fn jump_ok(ops: Seq<Operation>, i: int) -> bool {
    let o = ops[i];
    match o.operator {
        Op::Jpf => {
            &&& i + 2 <= o.operand <= ops.len()
            &&& ops[o.operand - 1].operator == Op::Jpb
            &&& ops[o.operand - 1].operand == i + 1
        },
        Op::Jpb => {
            &&& 1 <= o.operand <= i
            &&& ops[o.operand - 1].operator == Op::Jpf
            &&& ops[o.operand - 1].operand == i + 1
        },
        _ => true,
    }
}

/// Every jump is resolved against its partner, and every operand fits.
pub open spec fn well_formed(ops: Seq<Operation>) -> bool {
    &&& ops.len() < isize::MAX
    &&& forall|i: int| 0 <= i < ops.len() ==> #[trigger] jump_ok(ops, i)
}

/// Loops nest: every jump strictly inside a loop has its partner inside too.
pub open spec fn nested(ops: Seq<Operation>) -> bool {
    forall|i: int, k: int|
        0 <= i < k < ops.len() && ops[i].operator == Op::Jpf && k < ops[i].operand - 1
            ==> #[trigger] inside(ops, i, k)
}

pub open spec fn inside(ops: Seq<Operation>, i: int, k: int) -> bool {
    &&& ops[k].operator == Op::Jpf ==> ops[k].operand - 1 < ops[i].operand - 1
    &&& ops[k].operator == Op::Jpb ==> ops[k].operand - 1 > i
}

/// A parsed Brainfuck program: its instruction stream.
#[derive(Debug)]
pub struct BfStr {
    pub ops: Vec<Operation>,
}

impl BfStr {
    pub open spec fn wf(&self) -> bool {
        well_formed(self.ops@)
    }
}

} // verus!
