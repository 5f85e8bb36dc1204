//! What the compiler emits for an instruction list, as a listing.
//!
//! The listing is fixed by the instruction list alone, but for the address
//! of the tape: each instruction has its own short run of lines, and the
//! label of the instruction stands on the first of them. The assembler
//! numbers its labels from one in the order in which they are made. The
//! label of the slot is made first; the label `name` of the instruction list
//! is the one made in place `name` after it.

use vstd::prelude::*;
use crate::machine::{lines, Line, MachineOp, Register};
use crate::parser::{labels_well_formed, lemma_every_label_stands, Instruction};
use crate::tokenizer::{Branch, Op};

verus! {

/// The number of the label of the slot that holds the data pointer: it is
/// the first label made.
pub const SLOT: u64 = 1;

/// The number of the assembler label that stands for the label `name` of the
/// instruction list.
pub open spec fn label_number(name: u32) -> u64 {
    (name + 2) as u64
}

/// The machine instructions for one operation.
pub open spec fn op_listing(op: Op) -> Seq<MachineOp> {
    match op {
        Op::IncrementDataPointer => seq![
            MachineOp::LoadPointer { to: Register::Rax, slot: SLOT },
            MachineOp::IncrementPointer,
            MachineOp::StorePointer { slot: SLOT },
        ],
        Op::DecrementDataPointer => seq![
            MachineOp::LoadPointer { to: Register::Rax, slot: SLOT },
            MachineOp::DecrementPointer,
            MachineOp::StorePointer { slot: SLOT },
        ],
        Op::Increment => seq![
            MachineOp::LoadPointer { to: Register::Rdi, slot: SLOT },
            MachineOp::LoadCell,
            MachineOp::IncrementCell,
            MachineOp::StoreCell,
        ],
        Op::Decrement => seq![
            MachineOp::LoadPointer { to: Register::Rdi, slot: SLOT },
            MachineOp::LoadCell,
            MachineOp::DecrementCell,
            MachineOp::StoreCell,
        ],
        // write(1, pointer, 1)
        Op::Output => seq![
            MachineOp::LoadImmediate { to: Register::Rax, value: 1 },
            MachineOp::LoadImmediate { to: Register::Rdi, value: 1 },
            MachineOp::LoadPointer { to: Register::Rsi, slot: SLOT },
            MachineOp::LoadImmediate { to: Register::Rdx, value: 1 },
            MachineOp::Syscall,
        ],
        // read(0, pointer, 1)
        Op::Input => seq![
            MachineOp::LoadImmediate { to: Register::Rax, value: 0 },
            MachineOp::LoadImmediate { to: Register::Rdi, value: 0 },
            MachineOp::LoadPointer { to: Register::Rsi, slot: SLOT },
            MachineOp::LoadImmediate { to: Register::Rdx, value: 1 },
            MachineOp::Syscall,
        ],
    }
}

/// The machine instructions for a bracket that jumps to the label
/// `name_to_jump`: the cell is compared with zero, and the jump is taken if
/// it is zero for an opening bracket, if it is not for a closing one.
pub open spec fn branch_listing(branch: Branch, name_to_jump: u32) -> Seq<MachineOp> {
    seq![
        MachineOp::LoadPointer { to: Register::Rdi, slot: SLOT },
        MachineOp::LoadCell,
        MachineOp::CompareCell { with: 0 },
        match branch {
            Branch::JumpZero => MachineOp::JumpIfEqual { target: label_number(name_to_jump) },
            Branch::JumpNotZero => MachineOp::JumpIfNotEqual {
                target: label_number(name_to_jump),
            },
        },
    ]
}

/// The lines for the end of the program: the return under `label`, and
/// behind it the slot, which starts out with the address of the tape.
pub open spec fn end_listing(label: u64, tape_address: u64) -> Seq<Line> {
    seq![
        Line { label, op: MachineOp::Return },
        Line { label: SLOT, op: MachineOp::Quad { value: tape_address } },
    ]
}

/// The lines for one instruction: its label stands on the first of them.
pub open spec fn instruction_listing(instruction: Instruction, tape_address: u64) -> Seq<Line> {
    let label = match instruction.name() {
        Some(name) => label_number(name),
        None => 0,
    };
    match instruction {
        Instruction::Op { instruction, .. } => lines(label, op_listing(instruction)),
        Instruction::Branch { instruction, name_jump_to, .. } => lines(
            label,
            branch_listing(instruction, name_jump_to),
        ),
        Instruction::End { .. } => end_listing(label, tape_address),
    }
}

/// The lines for a whole instruction list.
pub open spec fn listing(instructions: Seq<Instruction>, tape_address: u64) -> Seq<Line>
    decreases instructions.len(),
{
    if instructions.len() == 0 {
        Seq::empty()
    } else {
        listing(instructions.drop_last(), tape_address) + instruction_listing(
            instructions.last(),
            tape_address,
        )
    }
}

/// The label that a jump goes to.
pub open spec fn jump_target(op: MachineOp) -> Option<u64> {
    match op {
        MachineOp::JumpIfEqual { target } => Some(target),
        MachineOp::JumpIfNotEqual { target } => Some(target),
        _ => None,
    }
}

/// The label of the eight bytes that an instruction loads or stores.
pub open spec fn slot_used(op: MachineOp) -> Option<u64> {
    match op {
        MachineOp::LoadPointer { slot, .. } => Some(slot),
        MachineOp::StorePointer { slot } => Some(slot),
        _ => None,
    }
}

/// Nothing in a listing is left unresolved: no label stands on two lines,
/// every jump goes to a label that stands on a line, and every load and
/// store of the pointer names the label of a line that holds eight bytes of
/// data.
pub open spec fn closed(listing: Seq<Line>) -> bool {
    &&& forall|a: int, b: int|
        0 <= a < b < listing.len() && listing[a].label != 0 ==> (#[trigger] listing[a]).label
            != (#[trigger] listing[b]).label
    &&& forall|a: int|
        0 <= a < listing.len() && jump_target((#[trigger] listing[a]).op) is Some ==> exists|
            b: int,
        |
            0 <= b < listing.len() && (#[trigger] listing[b]).label == jump_target(
                listing[a].op,
            )->0
    &&& forall|a: int|
        0 <= a < listing.len() && slot_used((#[trigger] listing[a]).op) is Some ==> exists|
            b: int,
        |
            0 <= b < listing.len() && (#[trigger] listing[b]).label == slot_used(listing[a].op)->0
                && listing[b].op is Quad
}

/// The number of the line on which instruction `j` begins.
pub open spec fn first_line(instructions: Seq<Instruction>, j: int) -> int {
    listing(instructions.take(j), 0).len() as int
}

/// The length of a listing does not depend on the address of the tape.
proof fn lemma_listing_len(instructions: Seq<Instruction>, tape_address: u64, other: u64)
    ensures
        listing(instructions, tape_address).len() == listing(instructions, other).len(),
    decreases instructions.len(),
{
    if instructions.len() > 0 {
        lemma_listing_len(instructions.drop_last(), tape_address, other);
    }
}

/// Line `k` of instruction `j` is line `first_line(j) + k` of the listing.
proof fn lemma_listing_line(instructions: Seq<Instruction>, tape_address: u64, j: int, k: int)
    requires
        0 <= j < instructions.len(),
        0 <= k < instruction_listing(instructions[j], tape_address).len(),
    ensures
        0 <= first_line(instructions, j) + k < listing(instructions, tape_address).len(),
        listing(instructions, tape_address)[first_line(instructions, j) + k]
            == instruction_listing(instructions[j], tape_address)[k],
    decreases instructions.len(),
{
    let front = instructions.drop_last();
    lemma_listing_len(instructions.take(j), tape_address, 0);
    if j == instructions.len() - 1 {
        assert(instructions.take(j) == front);
    } else {
        assert(front.take(j) == instructions.take(j));
        lemma_listing_line(front, tape_address, j, k);
    }
}

/// Every line of the listing is a line of one of the instructions.
proof fn lemma_listing_origin(instructions: Seq<Instruction>, tape_address: u64, a: int) -> (at: (
    int,
    int,
))
    requires
        0 <= a < listing(instructions, tape_address).len(),
    ensures
        0 <= at.0 < instructions.len(),
        0 <= at.1 < instruction_listing(instructions[at.0], tape_address).len(),
        a == first_line(instructions, at.0) + at.1,
        listing(instructions, tape_address)[a] == instruction_listing(
            instructions[at.0],
            tape_address,
        )[at.1],
    decreases instructions.len(),
{
    let front = instructions.drop_last();
    let before = listing(front, tape_address).len();
    if a >= before {
        let j = instructions.len() - 1;
        assert(instructions.take(j) == front);
        lemma_listing_len(front, tape_address, 0);
        (j, a - before)
    } else {
        let at = lemma_listing_origin(front, tape_address, a);
        assert(front.take(at.0) == instructions.take(at.0));
        at
    }
}

/// A later instruction begins behind the lines of an earlier one.
proof fn lemma_first_line_grows(instructions: Seq<Instruction>, i: int, j: int)
    requires
        0 <= i < j <= instructions.len(),
    ensures
        first_line(instructions, i) + instruction_listing(instructions[i], 0).len() <= first_line(
            instructions,
            j,
        ),
    decreases j - i,
{
    assert(instructions.take(j).drop_last() == instructions.take(j - 1));
    assert(instructions.take(j).last() == instructions[j - 1]);
    if i < j - 1 {
        lemma_first_line_grows(instructions, i, j - 1);
    }
}

/// The listing of an instruction list with well-formed labels and an end
/// marker is closed.
pub proof fn lemma_listing_closed(instructions: Seq<Instruction>, tape_address: u64, end: int)
    requires
        labels_well_formed(instructions),
        0 <= end < instructions.len(),
        instructions[end] is End,
    ensures
        closed(listing(instructions, tape_address)),
{
    let all = listing(instructions, tape_address);
    assert forall|a: int, b: int| 0 <= a < b < all.len() && all[a].label != 0 implies (
    #[trigger] all[a]).label != (#[trigger] all[b]).label by {
        let from = lemma_listing_origin(instructions, tape_address, a);
        let to = lemma_listing_origin(instructions, tape_address, b);
        if from.0 < to.0 {
            assert(instructions[from.0].name() is Some ==> instructions[from.0].name()
                != instructions[to.0].name());
        } else if to.0 < from.0 {
            lemma_first_line_grows(instructions, to.0, from.0);
            lemma_listing_len(instructions.take(to.0), tape_address, 0);
        }
    }
    assert forall|a: int|
        0 <= a < all.len() && jump_target((#[trigger] all[a]).op) is Some implies exists|b: int|
        0 <= b < all.len() && (#[trigger] all[b]).label == jump_target(all[a].op)->0 by {
        let from = lemma_listing_origin(instructions, tape_address, a);
        match instructions[from.0] {
            Instruction::Branch { name_jump_to, .. } => {
                let at = lemma_every_label_stands(instructions, name_jump_to);
                lemma_listing_line(instructions, tape_address, at, 0);
                let b = first_line(instructions, at);
                assert(all[b].label == label_number(name_jump_to));
            },
            _ => {},
        }
    }
    assert forall|a: int|
        0 <= a < all.len() && slot_used((#[trigger] all[a]).op) is Some implies exists|b: int|
        0 <= b < all.len() && (#[trigger] all[b]).label == slot_used(all[a].op)->0
            && all[b].op is Quad by {
        let from = lemma_listing_origin(instructions, tape_address, a);
        lemma_listing_line(instructions, tape_address, end, 1);
        let b = first_line(instructions, end) + 1;
        assert(all[b].label == SLOT && all[b].op is Quad);
    }
}

} // verus!
