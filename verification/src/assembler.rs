//! The assembler of `iced_x86`, as far as code generation uses it.
//!
//! Nothing in this file is proved. Each function makes one call into
//! `iced_x86` and states what that call does to the assembler, and when it
//! succeeds, going by the source of `iced_x86::code_asm`. The assembler
//! itself is opaque: what it holds is spoken of through the spec functions
//! declared here.

use vstd::prelude::*;
use iced_x86::code_asm::{bh, byte_ptr, qword_ptr, rax, rdi, rdx, rsi, CodeAssembler, CodeLabel};
use iced_x86::IcedError;
use crate::machine::{Line, MachineOp, Register};

verus! {

/// `iced_x86::code_asm::CodeAssembler`
#[verifier::external_type_specification]
#[verifier::external_body]
pub struct ExCodeAssembler(CodeAssembler);

/// `iced_x86::code_asm::CodeLabel`
#[verifier::external_type_specification]
#[verifier::external_body]
pub struct ExCodeLabel(CodeLabel);

/// `iced_x86::IcedError`
#[verifier::external_type_specification]
#[verifier::external_body]
pub struct ExIcedError(IcedError);

/// The instructions added to an assembler so far, in order, each with the
/// number of the label that was set on it.
pub uninterp spec fn emitted(assembler: CodeAssembler) -> Seq<Line>;

/// The number of the label that was set and waits for the next instruction;
/// zero if none waits.
pub uninterp spec fn pending_label(assembler: CodeAssembler) -> u64;

/// How many labels an assembler has made.
pub uninterp spec fn labels_made(assembler: CodeAssembler) -> u64;

/// The assembler is one for 64-bit code with the options it was made with,
/// and no prefix or anonymous label waits for the next instruction.
pub uninterp spec fn plain(assembler: CodeAssembler) -> bool;

/// The number of a label. Labels made by an assembler are numbered from one.
pub uninterp spec fn label_id(label: CodeLabel) -> u64;

/// The label has been set on an instruction.
pub uninterp spec fn label_bound(label: CodeLabel) -> bool;

/// The bytes that `lines` assemble to when the first of them is placed at
/// address `ip`, or `None` where the assembler cannot encode them.
pub uninterp spec fn machine_code(lines: Seq<Line>, ip: u64) -> Option<Seq<u8>>;

/// The assembler can encode `lines` for the address `ip`.
pub open spec fn assembles(lines: Seq<Line>, ip: u64) -> bool {
    machine_code(lines, ip) is Some
}

/// `after` is `before` with one more instruction, `op`, which took the
/// waiting label.
pub open spec fn appended(before: CodeAssembler, after: CodeAssembler, op: MachineOp) -> bool {
    &&& emitted(after) == emitted(before).push(Line { label: pending_label(before), op })
    &&& pending_label(after) == 0
    &&& labels_made(after) == labels_made(before)
    &&& plain(after)
}

/// `CodeAssembler::new`. The bitness 64 is accepted, and the assembler
/// starts out empty, with no label made or waiting.
#[verifier::external_body]
pub(crate) fn new_assembler(bitness: u32) -> (r: Result<CodeAssembler, IcedError>)
    requires
        bitness == 64,
    ensures
        r is Ok,
        r matches Ok(assembler) ==> emitted(assembler) == Seq::<Line>::empty() && pending_label(assembler) == 0
            && labels_made(assembler) == 0 && plain(assembler),
{
    CodeAssembler::new(bitness)
}

/// `CodeAssembler::create_label`. The new label has the next number and is
/// not set; the instructions stay as they are.
#[verifier::external_body]
pub(crate) fn create_label(assembler: &mut CodeAssembler) -> (label: CodeLabel)
    requires
        plain(*old(assembler)),
        labels_made(*old(assembler)) < u64::MAX,
    ensures
        label_id(label) == labels_made(*old(assembler)) + 1,
        !label_bound(label),
        labels_made(*final(assembler)) == labels_made(*old(assembler)) + 1,
        emitted(*final(assembler)) == emitted(*old(assembler)),
        pending_label(*final(assembler)) == pending_label(*old(assembler)),
        plain(*final(assembler)),
{
    assembler.create_label()
}

/// `CodeAssembler::set_label`. The call succeeds exactly if the label was
/// made by an assembler, was not set before, and no other label waits. The
/// label is then set and waits for the next instruction.
#[verifier::external_body]
pub(crate) fn set_label(assembler: &mut CodeAssembler, label: &mut CodeLabel) -> (r: Result<
    (),
    IcedError,
>)
    requires
        plain(*old(assembler)),
    ensures
        r is Ok <==> label_id(*old(label)) != 0 && !label_bound(*old(label)) && pending_label(
            *old(assembler),
        ) == 0,
        label_id(*final(label)) == label_id(*old(label)),
        r is Ok ==> label_bound(*final(label)) && pending_label(*final(assembler)) == label_id(
            *old(label),
        ) && emitted(*final(assembler)) == emitted(*old(assembler)) && labels_made(
            *final(assembler),
        ) == labels_made(*old(assembler)) && plain(*final(assembler)),
{
    assembler.set_label(label)
}


/// `CodeAssembler::mov` with a 64-bit register and the eight bytes at a
/// label: `mov to, qword ptr [slot]`.
#[verifier::external_body]
pub(crate) fn load_pointer(assembler: &mut CodeAssembler, to: Register, slot: &CodeLabel) -> (r:
    Result<(), IcedError>)
    requires
        plain(*old(assembler)),
    ensures
        r is Ok,
        appended(
            *old(assembler),
            *final(assembler),
            MachineOp::LoadPointer { to, slot: label_id(*slot) },
        ),
{
    let to = match to {
        Register::Rax => rax,
        Register::Rdi => rdi,
        Register::Rsi => rsi,
        Register::Rdx => rdx,
    };
    assembler.mov(to, qword_ptr(*slot))
}

/// `CodeAssembler::mov` with the eight bytes at a label and a 64-bit
/// register: `mov qword ptr [slot], rax`.
#[verifier::external_body]
pub(crate) fn store_pointer(assembler: &mut CodeAssembler, slot: &CodeLabel) -> (r: Result<
    (),
    IcedError,
>)
    requires
        plain(*old(assembler)),
    ensures
        r is Ok,
        appended(
            *old(assembler),
            *final(assembler),
            MachineOp::StorePointer { slot: label_id(*slot) },
        ),
{
    assembler.mov(qword_ptr(*slot), rax)
}

/// `CodeAssembler::inc` with a 64-bit register: `inc rax`.
#[verifier::external_body]
pub(crate) fn increment_pointer(assembler: &mut CodeAssembler) -> (r: Result<(), IcedError>)
    requires
        plain(*old(assembler)),
    ensures
        r is Ok,
        appended(*old(assembler), *final(assembler), MachineOp::IncrementPointer),
{
    assembler.inc(rax)
}

/// `CodeAssembler::dec` with a 64-bit register: `dec rax`.
#[verifier::external_body]
pub(crate) fn decrement_pointer(assembler: &mut CodeAssembler) -> (r: Result<(), IcedError>)
    requires
        plain(*old(assembler)),
    ensures
        r is Ok,
        appended(*old(assembler), *final(assembler), MachineOp::DecrementPointer),
{
    assembler.dec(rax)
}

/// `CodeAssembler::mov` with an 8-bit register and the byte at an address:
/// `mov bh, byte ptr [rdi]`.
#[verifier::external_body]
pub(crate) fn load_cell(assembler: &mut CodeAssembler) -> (r: Result<(), IcedError>)
    requires
        plain(*old(assembler)),
    ensures
        r is Ok,
        appended(*old(assembler), *final(assembler), MachineOp::LoadCell),
{
    assembler.mov(bh, byte_ptr(rdi))
}

/// `CodeAssembler::mov` with the byte at an address and an 8-bit register:
/// `mov byte ptr [rdi], bh`.
#[verifier::external_body]
pub(crate) fn store_cell(assembler: &mut CodeAssembler) -> (r: Result<(), IcedError>)
    requires
        plain(*old(assembler)),
    ensures
        r is Ok,
        appended(*old(assembler), *final(assembler), MachineOp::StoreCell),
{
    assembler.mov(byte_ptr(rdi), bh)
}

/// `CodeAssembler::inc` with an 8-bit register: `inc bh`.
#[verifier::external_body]
pub(crate) fn increment_cell(assembler: &mut CodeAssembler) -> (r: Result<(), IcedError>)
    requires
        plain(*old(assembler)),
    ensures
        r is Ok,
        appended(*old(assembler), *final(assembler), MachineOp::IncrementCell),
{
    assembler.inc(bh)
}

/// `CodeAssembler::dec` with an 8-bit register: `dec bh`.
#[verifier::external_body]
pub(crate) fn decrement_cell(assembler: &mut CodeAssembler) -> (r: Result<(), IcedError>)
    requires
        plain(*old(assembler)),
    ensures
        r is Ok,
        appended(*old(assembler), *final(assembler), MachineOp::DecrementCell),
{
    assembler.dec(bh)
}

/// `CodeAssembler::mov` with a 64-bit register and a 64-bit number:
/// `mov to, value`.
#[verifier::external_body]
pub(crate) fn load_immediate(assembler: &mut CodeAssembler, to: Register, value: u64) -> (r:
    Result<(), IcedError>)
    requires
        plain(*old(assembler)),
    ensures
        r is Ok,
        appended(
            *old(assembler),
            *final(assembler),
            MachineOp::LoadImmediate { to, value },
        ),
{
    let to = match to {
        Register::Rax => rax,
        Register::Rdi => rdi,
        Register::Rsi => rsi,
        Register::Rdx => rdx,
    };
    assembler.mov(to, value)
}

/// `CodeAssembler::syscall`.
#[verifier::external_body]
pub(crate) fn syscall(assembler: &mut CodeAssembler) -> (r: Result<(), IcedError>)
    requires
        plain(*old(assembler)),
    ensures
        r is Ok,
        appended(*old(assembler), *final(assembler), MachineOp::Syscall),
{
    assembler.syscall()
}

/// `CodeAssembler::cmp` with an 8-bit register and a number: `cmp bh, with`.
/// A number that fits a byte is accepted.
#[verifier::external_body]
pub(crate) fn compare_cell(assembler: &mut CodeAssembler, with: u32) -> (r: Result<(), IcedError>)
    requires
        plain(*old(assembler)),
    ensures
        with <= 255 ==> r is Ok,
        r is Ok ==> appended(*old(assembler), *final(assembler), MachineOp::CompareCell { with }),
{
    assembler.cmp(bh, with)
}

/// `CodeAssembler::je` with a label: `je target`.
#[verifier::external_body]
pub(crate) fn jump_if_equal(assembler: &mut CodeAssembler, target: &CodeLabel) -> (r: Result<
    (),
    IcedError,
>)
    requires
        plain(*old(assembler)),
    ensures
        r is Ok,
        appended(
            *old(assembler),
            *final(assembler),
            MachineOp::JumpIfEqual { target: label_id(*target) },
        ),
{
    assembler.je(*target)
}

/// `CodeAssembler::jne` with a label: `jne target`.
#[verifier::external_body]
pub(crate) fn jump_if_not_equal(assembler: &mut CodeAssembler, target: &CodeLabel) -> (r: Result<
    (),
    IcedError,
>)
    requires
        plain(*old(assembler)),
    ensures
        r is Ok,
        appended(
            *old(assembler),
            *final(assembler),
            MachineOp::JumpIfNotEqual { target: label_id(*target) },
        ),
{
    assembler.jne(*target)
}

/// `CodeAssembler::ret`.
#[verifier::external_body]
pub(crate) fn ret(assembler: &mut CodeAssembler) -> (r: Result<(), IcedError>)
    requires
        plain(*old(assembler)),
    ensures
        r is Ok,
        appended(*old(assembler), *final(assembler), MachineOp::Return),
{
    assembler.ret()
}

/// `CodeAssembler::dq` with one number: eight bytes of data, `dq value`.
#[verifier::external_body]
pub(crate) fn quad(assembler: &mut CodeAssembler, value: u64) -> (r: Result<(), IcedError>)
    requires
        plain(*old(assembler)),
    ensures
        r is Ok,
        appended(*old(assembler), *final(assembler), MachineOp::Quad { value }),
{
    assembler.dq(&[value])
}

/// `CodeAssembler::assemble`. Whether the instructions can be encoded, and
/// the bytes that come back, depend on the instructions and on the address
/// alone.
#[verifier::external_body]
pub(crate) fn assemble(assembler: &mut CodeAssembler, ip: u64) -> (r: Result<Vec<u8>, IcedError>)
    requires
        plain(*old(assembler)),
        pending_label(*old(assembler)) == 0,
    ensures
        match r {
            Ok(bytes) => machine_code(emitted(*old(assembler)), ip) == Some(bytes@),
            Err(_) => machine_code(emitted(*old(assembler)), ip) is None,
        },
{
    assembler.assemble(ip)
}

} // verus!
