//! The instructions that generated code is made of, as plain data.
//!
//! Generated code keeps the data pointer in an eight-byte slot that lies in
//! the code region itself, behind the last instruction. No register is
//! expected to survive from one instruction of the program to the next: each
//! one loads the pointer from the slot, and stores it back if it changed.
//! The byte of the tape that the pointer designates is called the cell.

use vstd::prelude::*;

verus! {

/// The 64-bit registers that generated code names.
#[derive(Debug, Clone, Copy, PartialEq, Eq, Structural)]
pub enum Register {
    Rax,
    Rdi,
    Rsi,
    Rdx,
}

/// One instruction of generated code. A label is written as its number.
#[derive(Debug, Clone, Copy, PartialEq, Eq, Structural)]
pub enum MachineOp {
    /// `mov to, qword ptr [slot]`
    LoadPointer { to: Register, slot: u64 },
    /// `mov qword ptr [slot], rax`
    StorePointer { slot: u64 },
    /// `inc rax`
    IncrementPointer,
    /// `dec rax`
    DecrementPointer,
    /// `mov bh, byte ptr [rdi]`
    LoadCell,
    /// `mov byte ptr [rdi], bh`
    StoreCell,
    /// `inc bh`
    IncrementCell,
    /// `dec bh`
    DecrementCell,
    /// `mov to, value`
    LoadImmediate { to: Register, value: u64 },
    /// `syscall`
    Syscall,
    /// `cmp bh, with`
    CompareCell { with: u32 },
    /// `je target`
    JumpIfEqual { target: u64 },
    /// `jne target`
    JumpIfNotEqual { target: u64 },
    /// `ret`
    Return,
    /// `dq value`: eight bytes of data
    Quad { value: u64 },
}

/// An instruction and the label that stands on it; zero stands for none.
#[derive(Debug, Clone, Copy, PartialEq, Eq, Structural)]
pub struct Line {
    pub label: u64,
    pub op: MachineOp,
}

/// `ops` as lines, the first of them under `label`.
pub open spec fn lines(label: u64, ops: Seq<MachineOp>) -> Seq<Line> {
    Seq::new(
        ops.len(),
        |i: int|
            Line {
                label: if i == 0 {
                    label
                } else {
                    0
                },
                op: ops[i],
            },
    )
}

} // verus!
