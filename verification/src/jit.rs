//! From the instruction list to machine code.
//!
//! Every label of the instruction list is made in the assembler before the
//! first instruction is emitted, so that a bracket can jump forward to a
//! label whose instruction comes later. The list is then walked once: a
//! label is set where its instruction begins, and each instruction becomes a
//! short fixed run of machine instructions.

use vstd::prelude::*;
use iced_x86::code_asm::{CodeAssembler, CodeLabel};
use iced_x86::IcedError;
use crate::assembler::{
    assemble, assembles, compare_cell, create_label, decrement_cell, decrement_pointer, emitted,
    increment_cell, increment_pointer, jump_if_equal, jump_if_not_equal, label_bound, label_id,
    labels_made, load_cell, load_immediate, load_pointer, machine_code, new_assembler,
    pending_label, plain, quad, ret, set_label, store_cell, store_pointer, syscall,
};
use crate::error::Error;
use crate::listing::{
    branch_listing, closed, instruction_listing, lemma_listing_closed, listing, op_listing, SLOT,
};
use crate::machine::{lines, Line, MachineOp, Register};
use crate::parser::{
    labels_fit, labels_well_formed, lemma_too_many_labels, named_count, well_formed, Instruction,
};
use crate::tokenizer::{Branch, Op};

verus! {

/// The number of cells of the tape.
pub const TAPE_SIZE: usize = 1024;

/// The size in bytes of the region that the code is assembled for.
pub const MAX_CODE_SIZE: usize = 4096;

/// What a call of the assembler gave, in the library's own terms: its
/// result where it succeeded, and a failure of code generation where it did
/// not.
pub fn checked<T>(outcome: Result<T, IcedError>) -> (r: Result<T, Error>)
    ensures
        r == match outcome {
            Ok(value) => Ok::<T, Error>(value),
            Err(_) => Err::<T, Error>(Error::CodeGenerationFailure),
        },
{
    match outcome {
        Ok(value) => Ok(value),
        Err(_) => Err(Error::CodeGenerationFailure),
    }
}

/// The assembler can encode the listing of `instructions` for a tape at
/// `tape_address` and a region at `code_pointer`, and the code fits the
/// region.
pub open spec fn fits(instructions: Seq<Instruction>, tape_address: u64, code_pointer: u64) -> bool {
    &&& assembles(listing(instructions, tape_address), code_pointer)
    &&& machine_code(listing(instructions, tape_address), code_pointer)->0.len() <= MAX_CODE_SIZE
}

/// A compiled program: its machine code, the address the code was assembled
/// for, and the tape it works on.
pub struct JIT {
    code_assembler: CodeAssembler,
    data_label: CodeLabel,
    code: Vec<u8>,
    code_pointer: u64,
    // the tape; the slot in the code region starts out pointing at its first cell
    memory: Vec<u8>,
    tape_address: u64,
}

impl JIT {
    /// The assembler is ready for the next instruction and the slot has its
    /// label.
    spec fn emitting(&self) -> bool {
        &&& plain(self.code_assembler)
        &&& label_id(self.data_label) == SLOT
    }

    /// Everything but the assembler is as in `before`.
    spec fn rest_as_in(&self, before: &JIT) -> bool {
        &&& self.data_label == before.data_label
        &&& self.code == before.code
        &&& self.code_pointer == before.code_pointer
        &&& self.memory == before.memory
        &&& self.tape_address == before.tape_address
    }

    /// The machine code.
    pub closed spec fn code_view(&self) -> Seq<u8> {
        self.code@
    }

    /// The address that the code was assembled for.
    pub closed spec fn base(&self) -> u64 {
        self.code_pointer
    }

    /// The cells of the tape.
    pub closed spec fn tape(&self) -> Seq<u8> {
        self.memory@
    }

    /// The address that the slot starts out with: that of the first cell.
    pub closed spec fn tape_base(&self) -> u64 {
        self.tape_address
    }

    /// Compiles an instruction list to machine code that is to run at the
    /// address `code_pointer`, on a tape of its own that starts out as zeros.
    ///
    /// The list is compiled if it is well formed, the assembler can encode
    /// its listing, and the code fits the region. It is refused otherwise.
    /// The listing depends on the address of the tape, which is not known
    /// before the call.
    #[verifier::rlimit(50)]
    pub fn new(instructions: Vec<Instruction>, code_pointer: u64) -> (r: Result<JIT, Error>)
        ensures
            match r {
                Ok(jit) => {
                    &&& well_formed(instructions@)
                    &&& closed(listing(instructions@, jit.tape_base()))
                    &&& fits(instructions@, jit.tape_base(), code_pointer)
                    &&& machine_code(listing(instructions@, jit.tape_base()), code_pointer)
                        == Some(jit.code_view())
                    &&& jit.base() == code_pointer
                    &&& jit.tape() == Seq::new(TAPE_SIZE as nat, |i: int| 0u8)
                },
                Err(e) => {
                    &&& e == Error::CodeGenerationFailure
                    &&& {
                        ||| !well_formed(instructions@)
                        ||| exists|tape_address: u64| !#[trigger] fits(
                            instructions@,
                            tape_address,
                            code_pointer,
                        )
                    }
                },
            },
    {
        // the end marker is the last instruction
        if instructions.len() == 0 {
            assert(!well_formed(instructions@));
            return Err(Error::CodeGenerationFailure);
        }
        match instructions[instructions.len() - 1] {
            Instruction::End { .. } => {},
            _ => {
                assert(!well_formed(instructions@));
                return Err(Error::CodeGenerationFailure);
            },
        }
        let memory = vec![0u8; TAPE_SIZE];
        let tape_address = base_address(&memory);
        let mut code_assembler = checked(new_assembler(64))?;
        let data_label = create_label(&mut code_assembler);
        let mut jit = JIT {
            code_assembler,
            data_label,
            code: Vec::new(),
            code_pointer,
            memory,
            tape_address,
        };

        // every label is made before any code: a bracket may jump forward
        let mut labels: Vec<CodeLabel> = Vec::new();
        let mut index: usize = 0;
        while index < instructions.len()
            invariant
                index <= instructions@.len(),
                jit.emitting(),
                !label_bound(jit.data_label),
                jit.code_pointer == code_pointer,
                jit.tape_address == tape_address,
                jit.memory@ == Seq::new(TAPE_SIZE as nat, |i: int| 0u8),
                emitted(jit.code_assembler) == Seq::<Line>::empty(),
                pending_label(jit.code_assembler) == 0,
                labels_made(jit.code_assembler) == labels@.len() + 1,
                labels@.len() == named_count(instructions@.take(index as int)),
                label_table(labels@),
                forall|k: int| 0 <= k < labels@.len() ==> !label_bound(#[trigger] labels@[k]),
            decreases instructions@.len() - index,
        {
            proof {
                assert(instructions@.take(index + 1).drop_last() == instructions@.take(
                    index as int,
                ));
            }
            if instructions[index].get_name().is_some() {
                // labels are numbered by a u32: more of them cannot all differ
                if labels.len() > u32::MAX as usize {
                    proof {
                        lemma_too_many_labels(instructions@, index + 1);
                    }
                    return Err(Error::CodeGenerationFailure);
                }
                labels.push(create_label(&mut jit.code_assembler));
            }
            index += 1;
        }
        assert(instructions@.take(instructions@.len() as int) == instructions@);

        let mut index: usize = 0;
        while index < instructions.len()
            invariant
                index <= instructions@.len(),
                jit.emitting(),
                jit.code_pointer == code_pointer,
                jit.tape_address == tape_address,
                jit.memory@ == Seq::new(TAPE_SIZE as nat, |i: int| 0u8),
                pending_label(jit.code_assembler) == 0,
                emitted(jit.code_assembler) == listing(
                    instructions@.take(index as int),
                    tape_address,
                ),
                labels@.len() == named_count(instructions@),
                label_table(labels@),
                progress(instructions@, index as int, labels@, jit.data_label),
            decreases instructions@.len() - index,
        {
            proof {
                assert(instructions@.take(index + 1).drop_last() == instructions@.take(
                    index as int,
                ));
            }
            let ghost table = labels@;
            let ghost slot = jit.data_label;
            match jit.append_code(instructions[index], &mut labels) {
                Ok(_) => {
                    proof {
                        lemma_emitted(
                            instructions@,
                            index as int,
                            table,
                            labels@,
                            slot,
                            jit.data_label,
                        );
                    }
                },
                Err(e) => {
                    proof {
                        lemma_refused(instructions@, index as int, table, slot);
                    }
                    return Err(e);
                },
            }
            index += 1;
        }
        proof {
            assert(instructions@.take(instructions@.len() as int) == instructions@);
            assert(labels_well_formed(instructions@));
            assert(well_formed(instructions@));
            lemma_listing_closed(instructions@, tape_address, instructions@.len() - 1);
        }

        match assemble(&mut jit.code_assembler, jit.code_pointer) {
            Ok(code) => {
                jit.code = code;
            },
            Err(_) => {
                assert(!fits(instructions@, tape_address, code_pointer));
                return Err(Error::CodeGenerationFailure);
            },
        }
        if jit.code.len() > MAX_CODE_SIZE {
            assert(!fits(instructions@, tape_address, code_pointer));
            return Err(Error::CodeGenerationFailure);
        }
        assert(fits(instructions@, tape_address, code_pointer));
        Ok(jit)
    }

    /// The machine code, to be placed at `code_pointer`.
    pub fn code(&self) -> (r: &Vec<u8>)
        ensures
            r@ == self.code_view(),
    {
        &self.code
    }

    /// The address that the code was assembled for.
    pub fn code_pointer(&self) -> (r: u64)
        ensures
            r == self.base(),
    {
        self.code_pointer
    }

    /// The tape.
    pub fn memory(&self) -> (r: &Vec<u8>)
        ensures
            r@ == self.tape(),
    {
        &self.memory
    }

    /// Emits the code of one operation. Every operation starts from the
    /// slot: no register is taken to hold what an earlier one left in it.
    fn op_code(&mut self, op: Op) -> (r: Result<(), Error>)
        requires
            old(self).emitting(),
        ensures
            final(self).rest_as_in(old(self)),
            r is Ok,
            extended(old(self).code_assembler, final(self).code_assembler, op_listing(op)),
    {
        let ghost start = self.code_assembler;
        let ghost ops = op_listing(op);
        match op {
            Op::IncrementDataPointer => {
                checked(load_pointer(&mut self.code_assembler, Register::Rax, &self.data_label))?;
                checked(increment_pointer(&mut self.code_assembler))?;
                checked(store_pointer(&mut self.code_assembler, &self.data_label))?;
            },
            Op::DecrementDataPointer => {
                checked(load_pointer(&mut self.code_assembler, Register::Rax, &self.data_label))?;
                checked(decrement_pointer(&mut self.code_assembler))?;
                checked(store_pointer(&mut self.code_assembler, &self.data_label))?;
            },
            Op::Increment => {
                checked(load_pointer(&mut self.code_assembler, Register::Rdi, &self.data_label))?;
                checked(load_cell(&mut self.code_assembler))?;
                checked(increment_cell(&mut self.code_assembler))?;
                checked(store_cell(&mut self.code_assembler))?;
            },
            Op::Decrement => {
                checked(load_pointer(&mut self.code_assembler, Register::Rdi, &self.data_label))?;
                checked(load_cell(&mut self.code_assembler))?;
                checked(decrement_cell(&mut self.code_assembler))?;
                checked(store_cell(&mut self.code_assembler))?;
            },
            Op::Output => {
                checked(load_immediate(&mut self.code_assembler, Register::Rax, 1))?;
                checked(load_immediate(&mut self.code_assembler, Register::Rdi, 1))?;
                checked(load_pointer(&mut self.code_assembler, Register::Rsi, &self.data_label))?;
                checked(load_immediate(&mut self.code_assembler, Register::Rdx, 1))?;
                checked(syscall(&mut self.code_assembler))?;
            },
            Op::Input => {
                checked(load_immediate(&mut self.code_assembler, Register::Rax, 0))?;
                checked(load_immediate(&mut self.code_assembler, Register::Rdi, 0))?;
                checked(load_pointer(&mut self.code_assembler, Register::Rsi, &self.data_label))?;
                checked(load_immediate(&mut self.code_assembler, Register::Rdx, 1))?;
                checked(syscall(&mut self.code_assembler))?;
            },
        }
        assert(emitted(self.code_assembler) =~= emitted(start) + lines(pending_label(start), ops));
        Ok(())
    }

    /// Emits the code of a bracket: the cell is compared with zero and the
    /// jump goes to the label `name_to_jump` of the table, which may be
    /// set already or not yet.
    fn branch_code(&mut self, branch: Branch, name_to_jump: u32, labels: &Vec<CodeLabel>) -> (r:
        Result<(), Error>)
        requires
            old(self).emitting(),
            label_table(labels@),
        ensures
            final(self).rest_as_in(old(self)),
            r is Ok <==> name_to_jump < labels@.len(),
            r is Ok ==> extended(
                old(self).code_assembler,
                final(self).code_assembler,
                branch_listing(branch, name_to_jump),
            ),
            r is Err ==> r == Err::<(), Error>(Error::CodeGenerationFailure),
    {
        let ghost start = self.code_assembler;
        checked(load_pointer(&mut self.code_assembler, Register::Rdi, &self.data_label))?;
        checked(load_cell(&mut self.code_assembler))?;
        checked(compare_cell(&mut self.code_assembler, 0))?;
        if name_to_jump as usize >= labels.len() {
            return Err(Error::CodeGenerationFailure);
        }
        match branch {
            Branch::JumpZero => checked(
                jump_if_equal(&mut self.code_assembler, &labels[name_to_jump as usize]),
            )?,
            Branch::JumpNotZero => checked(
                jump_if_not_equal(&mut self.code_assembler, &labels[name_to_jump as usize]),
            )?,
        }
        assert(emitted(self.code_assembler) =~= emitted(start) + lines(
            pending_label(start),
            branch_listing(branch, name_to_jump),
        ));
        Ok(())
    }

    /// Emits one instruction: sets its label, if it has one, and emits its
    /// code. The end marker becomes the return and, behind it, the slot.
    fn append_code(&mut self, instruction: Instruction, labels: &mut Vec<CodeLabel>) -> (r: Result<
        (),
        Error,
    >)
        requires
            old(self).emitting(),
            pending_label(old(self).code_assembler) == 0,
            label_table(old(labels)@),
        ensures
            final(self).code == old(self).code,
            final(self).code_pointer == old(self).code_pointer,
            final(self).memory == old(self).memory,
            final(self).tape_address == old(self).tape_address,
            label_id(final(self).data_label) == SLOT,
            label_table(final(labels)@),
            final(labels)@.len() == old(labels)@.len(),
            r is Ok <==> accepted(instruction, old(labels)@, old(self).data_label),
            r is Ok ==> extended_by(
                old(self).code_assembler,
                final(self).code_assembler,
                instruction_listing(instruction, old(self).tape_address),
            ),
            r is Ok ==> labels_set(
                instruction,
                old(labels)@,
                final(labels)@,
                old(self).data_label,
                final(self).data_label,
            ),
            r is Err ==> r == Err::<(), Error>(Error::CodeGenerationFailure),
    {
        let ghost start = self.code_assembler;
        // the label stands where the code of the instruction begins
        if let Some(label_id) = instruction.get_name() {
            if label_id as usize >= labels.len() {
                return Err(Error::CodeGenerationFailure);
            }
            checked(set_label(&mut self.code_assembler, &mut labels[label_id as usize]))?;
        }
        match instruction {
            Instruction::Op { instruction, .. } => {
                self.op_code(instruction)?;
            },
            Instruction::Branch { instruction, name_jump_to, .. } => {
                self.branch_code(instruction, name_jump_to, labels)?;
            },
            Instruction::End { .. } => {
                checked(ret(&mut self.code_assembler))?;
                checked(set_label(&mut self.code_assembler, &mut self.data_label))?;
                checked(quad(&mut self.code_assembler, self.tape_address))?;
                assert(emitted(self.code_assembler) =~= emitted(start) + instruction_listing(
                    instruction,
                    self.tape_address,
                ));
            },
        }
        Ok(())
    }
}

/// The labels of the table are those made behind the slot label, in the
/// order in which they were made.
spec fn label_table(labels: Seq<CodeLabel>) -> bool {
    forall|k: int| 0 <= k < labels.len() ==> label_id(#[trigger] labels[k]) == k + 2
}

/// `after` is `before` with the lines `added` behind it, and no label waits.
spec fn extended_by(before: CodeAssembler, after: CodeAssembler, added: Seq<Line>) -> bool {
    &&& emitted(after) == emitted(before) + added
    &&& pending_label(after) == 0
    &&& labels_made(after) == labels_made(before)
    &&& plain(after)
}

/// `after` is `before` with the instructions `ops` added, the first of which
/// took the waiting label.
spec fn extended(before: CodeAssembler, after: CodeAssembler, ops: Seq<MachineOp>) -> bool {
    extended_by(before, after, lines(pending_label(before), ops))
}

/// `instruction` can be emitted: its label, if it has one, is in the table
/// and not set yet, the target of a bracket is in the table, and the slot
/// label is not set yet if this is the end marker.
spec fn accepted(instruction: Instruction, labels: Seq<CodeLabel>, slot: CodeLabel) -> bool {
    &&& instruction.name() matches Some(name) ==> name < labels.len() && !label_bound(
        labels[name as int],
    )
    &&& instruction matches Instruction::Branch { name_jump_to, .. } ==> name_jump_to
        < labels.len()
    &&& instruction is End ==> !label_bound(slot)
}

/// How far the labels are set when the first `index` instructions have been
/// emitted: the labels of these instructions fit the table and are set, no
/// other label of the table is set, and the slot label is set exactly if
/// the end marker was among them.
spec fn progress(
    instructions: Seq<Instruction>,
    index: int,
    labels: Seq<CodeLabel>,
    slot: CodeLabel,
) -> bool {
    &&& labels_fit(instructions, index, labels.len() as int)
    &&& forall|i: int|
        0 <= i < index ==> (#[trigger] instructions[i].name() matches Some(name) ==> label_bound(
            labels[name as int],
        ))
    &&& forall|i: int| 0 <= i < index && #[trigger] instructions[i] is End ==> label_bound(slot)
    &&& forall|k: int|
        0 <= k < labels.len() && label_bound(#[trigger] labels[k]) ==> exists|i: int|
            0 <= i < index && (#[trigger] instructions[i]).name() == Some(k as u32)
    &&& label_bound(slot) ==> exists|i: int| 0 <= i < index && #[trigger] instructions[i] is End
}

/// Emitting one more instruction keeps `progress`.
proof fn lemma_emitted(
    instructions: Seq<Instruction>,
    index: int,
    labels_before: Seq<CodeLabel>,
    labels_after: Seq<CodeLabel>,
    slot_before: CodeLabel,
    slot_after: CodeLabel,
)
    requires
        0 <= index < instructions.len(),
        labels_after.len() == labels_before.len(),
        progress(instructions, index, labels_before, slot_before),
        labels_set(instructions[index], labels_before, labels_after, slot_before, slot_after),
    ensures
        progress(instructions, index + 1, labels_after, slot_after),
{
    let current = instructions[index];
    assert forall|i: int| 0 <= i < index + 1 implies (#[trigger] instructions[i].name() matches Some(
        name,
    ) ==> label_bound(labels_after[name as int])) by {
        if i < index && instructions[i].name() is Some {
            let name = instructions[i].name()->0;
            assert(label_bound(labels_before[name as int]));
            if current.name() is Some {
                assert(labels_after[name as int] == labels_before[name as int]
                    || current.name()->0 == name);
            }
        }
    }
    assert forall|i: int, j: int|
        0 <= i < j < index + 1 && instructions[i].name() is Some implies #[trigger] instructions[i].name()
        != #[trigger] instructions[j].name() by {
        if j == index && current.name() is Some {
            let name = instructions[i].name()->0;
            assert(label_bound(labels_before[name as int]));
        }
    }
    assert forall|i: int, j: int| 0 <= i < j < index + 1 implies !(#[trigger] instructions[i] is End
        && #[trigger] instructions[j] is End) by {
        if j == index && instructions[i] is End {
            assert(label_bound(slot_before));
        }
    }
    assert forall|k: int|
        0 <= k < labels_after.len() && label_bound(#[trigger] labels_after[k]) implies exists|
        i: int,
    |
        0 <= i < index + 1 && (#[trigger] instructions[i]).name() == Some(k as u32) by {
        if current.name() == Some(k as u32) {
            assert(instructions[index].name() == Some(k as u32));
        } else {
            assert(labels_after[k] == labels_before[k]);
            let i = choose|i: int|
                0 <= i < index && (#[trigger] instructions[i]).name() == Some(k as u32);
            assert(0 <= i < index + 1);
        }
    }
    if label_bound(slot_after) {
        if current is End {
            assert(instructions[index] is End);
        } else {
            let i = choose|i: int| 0 <= i < index && #[trigger] instructions[i] is End;
            assert(0 <= i < index + 1);
        }
    }
}

/// An instruction that cannot be emitted shows that the labels of the list
/// are not well formed: a label or a target is beyond the table, or a label
/// or the end marker occurred before.
proof fn lemma_refused(
    instructions: Seq<Instruction>,
    index: int,
    labels: Seq<CodeLabel>,
    slot: CodeLabel,
)
    requires
        0 <= index < instructions.len(),
        labels.len() == named_count(instructions),
        !accepted(instructions[index], labels, slot),
        progress(instructions, index, labels, slot),
    ensures
        !labels_well_formed(instructions),
{
    let current = instructions[index];
    if labels_well_formed(instructions) {
        if current.name() is Some {
            let name = current.name()->0;
            if name < labels.len() && label_bound(labels[name as int]) {
                let i = choose|i: int|
                    0 <= i < index && (#[trigger] instructions[i]).name() == Some(name);
                assert(instructions[i].name() != instructions[index].name());
            }
        }
        if current is End && label_bound(slot) {
            let i = choose|i: int| 0 <= i < index && #[trigger] instructions[i] is End;
            assert(!(instructions[i] is End && instructions[index] is End));
        }
    }
}

/// What emitting `instruction` does to the labels: its own label, which was
/// not set, is set now; so is the slot label if this is the end marker; and
/// the target of a bracket is in the table.
spec fn labels_set(
    instruction: Instruction,
    labels_before: Seq<CodeLabel>,
    labels_after: Seq<CodeLabel>,
    slot_before: CodeLabel,
    slot_after: CodeLabel,
) -> bool {
    &&& match instruction.name() {
        Some(name) => {
            &&& name < labels_before.len()
            &&& !label_bound(labels_before[name as int])
            &&& label_bound(labels_after[name as int])
            &&& forall|k: int|
                0 <= k < labels_before.len() && k != name ==> #[trigger] labels_after[k]
                    == labels_before[k]
        },
        None => labels_after == labels_before,
    }
    &&& if instruction is End {
        !label_bound(slot_before) && label_bound(slot_after)
    } else {
        slot_after == slot_before
    }
    &&& instruction matches Instruction::Branch { name_jump_to, .. } ==> name_jump_to
        < labels_before.len()
}

/// `Vec::as_ptr`, as a number: the address of the first byte of a buffer.
/// Nothing is known of the number.
#[verifier::external_body]
fn base_address(memory: &Vec<u8>) -> u64 {
    memory.as_ptr() as u64
}

} // verus!
