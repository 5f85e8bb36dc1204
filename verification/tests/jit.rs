use bfjit::compile;
use bfjit::error::Error;
use bfjit::jit::{checked, JIT, MAX_CODE_SIZE, TAPE_SIZE};
use bfjit::parser::Instruction;
use bfjit::tokenizer::{Branch, Op};
use iced_x86::code_asm::CodeAssembler;

/// The code of `text`, and the bytes of the slot that follows it.
fn code_and_slot(text: &str) -> (Vec<u8>, Vec<u8>) {
    let jit = JIT::new(compile(text).unwrap(), 0x1000).unwrap();
    let slot = (jit.memory().as_ptr() as u64).to_le_bytes().to_vec();
    (jit.code().clone(), slot)
}

fn with_slot(mut code: Vec<u8>, slot: Vec<u8>) -> Vec<u8> {
    code.extend(slot);
    code
}

#[test]
fn the_empty_program_returns_at_once() {
    let (code, slot) = code_and_slot("");
    // ret, and the slot
    assert_eq!(code, with_slot(vec![0xc3], slot));
}

#[test]
fn the_slot_starts_out_with_the_address_of_the_tape() {
    let jit = JIT::new(compile("").unwrap(), 0x1000).unwrap();
    let code = jit.code();
    let mut slot = [0u8; 8];
    slot.copy_from_slice(&code[code.len() - 8..]);
    assert_eq!(u64::from_le_bytes(slot), jit.memory().as_ptr() as u64);
}

#[test]
fn the_tape_is_a_kilobyte_of_zeros() {
    let jit = JIT::new(compile("+").unwrap(), 0x1000).unwrap();
    assert_eq!(TAPE_SIZE, 1024);
    assert_eq!(jit.memory(), &vec![0u8; 1024]);
}

#[test]
fn the_address_of_the_code_is_kept() {
    let jit = JIT::new(compile("+").unwrap(), 0x7f00_dead_b000).unwrap();
    assert_eq!(jit.code_pointer(), 0x7f00_dead_b000);
    assert_eq!(MAX_CODE_SIZE, 4096);
}

#[test]
fn code_of_increment() {
    let (code, slot) = code_and_slot("+");
    let expected = vec![
        0x48, 0x8b, 0x3d, 0x07, 0x00, 0x00, 0x00, // mov rdi, [rip+7]
        0x8a, 0x3f, // mov bh, [rdi]
        0xfe, 0xc7, // inc bh
        0x88, 0x3f, // mov [rdi], bh
        0xc3, // ret
    ];
    assert_eq!(code, with_slot(expected, slot));
}

#[test]
fn code_of_decrement() {
    let (code, slot) = code_and_slot("-");
    let expected = vec![
        0x48, 0x8b, 0x3d, 0x07, 0x00, 0x00, 0x00, // mov rdi, [rip+7]
        0x8a, 0x3f, // mov bh, [rdi]
        0xfe, 0xcf, // dec bh
        0x88, 0x3f, // mov [rdi], bh
        0xc3, // ret
    ];
    assert_eq!(code, with_slot(expected, slot));
}

#[test]
fn code_of_move_right() {
    let (code, slot) = code_and_slot(">");
    let expected = vec![
        0x48, 0x8b, 0x05, 0x0b, 0x00, 0x00, 0x00, // mov rax, [rip+11]
        0x48, 0xff, 0xc0, // inc rax
        0x48, 0x89, 0x05, 0x01, 0x00, 0x00, 0x00, // mov [rip+1], rax
        0xc3, // ret
    ];
    assert_eq!(code, with_slot(expected, slot));
}

#[test]
fn code_of_move_left() {
    let (code, slot) = code_and_slot("<");
    let expected = vec![
        0x48, 0x8b, 0x05, 0x0b, 0x00, 0x00, 0x00, // mov rax, [rip+11]
        0x48, 0xff, 0xc8, // dec rax
        0x48, 0x89, 0x05, 0x01, 0x00, 0x00, 0x00, // mov [rip+1], rax
        0xc3, // ret
    ];
    assert_eq!(code, with_slot(expected, slot));
}

#[test]
fn code_of_output() {
    let (code, slot) = code_and_slot(".");
    let expected = vec![
        0x48, 0xb8, 1, 0, 0, 0, 0, 0, 0, 0, // mov rax, 1: write
        0x48, 0xbf, 1, 0, 0, 0, 0, 0, 0, 0, // mov rdi, 1: to the standard output
        0x48, 0x8b, 0x35, 0x0d, 0x00, 0x00, 0x00, // mov rsi, [rip+13]
        0x48, 0xba, 1, 0, 0, 0, 0, 0, 0, 0, // mov rdx, 1: one byte
        0x0f, 0x05, // syscall
        0xc3, // ret
    ];
    assert_eq!(code, with_slot(expected, slot));
}

#[test]
fn code_of_input() {
    let (code, slot) = code_and_slot(",");
    let expected = vec![
        0x48, 0xb8, 0, 0, 0, 0, 0, 0, 0, 0, // mov rax, 0: read
        0x48, 0xbf, 0, 0, 0, 0, 0, 0, 0, 0, // mov rdi, 0: from the standard input
        0x48, 0x8b, 0x35, 0x0d, 0x00, 0x00, 0x00, // mov rsi, [rip+13]
        0x48, 0xba, 1, 0, 0, 0, 0, 0, 0, 0, // mov rdx, 1: one byte
        0x0f, 0x05, // syscall
        0xc3, // ret
    ];
    assert_eq!(code, with_slot(expected, slot));
}

#[test]
fn code_of_a_loop() {
    let (code, slot) = code_and_slot("[-]");
    let expected = vec![
        // [
        0x48, 0x8b, 0x3d, 0x23, 0x00, 0x00, 0x00, // mov rdi, [rip+35]
        0x8a, 0x3f, // mov bh, [rdi]
        0x80, 0xff, 0x00, // cmp bh, 0
        0x74, 0x1b, // je +27: to the ret
        // -
        0x48, 0x8b, 0x3d, 0x15, 0x00, 0x00, 0x00, // mov rdi, [rip+21]
        0x8a, 0x3f, // mov bh, [rdi]
        0xfe, 0xcf, // dec bh
        0x88, 0x3f, // mov [rdi], bh
        // ]
        0x48, 0x8b, 0x3d, 0x08, 0x00, 0x00, 0x00, // mov rdi, [rip+8]
        0x8a, 0x3f, // mov bh, [rdi]
        0x80, 0xff, 0x00, // cmp bh, 0
        0x75, 0xe5, // jne -27: to the code of `-`
        0xc3, // ret
    ];
    assert_eq!(code, with_slot(expected, slot));
}

#[test]
fn a_label_that_stands_twice_is_refused() {
    let instructions = vec![
        Instruction::Op { name: Some(0), instruction: Op::Increment },
        Instruction::Op { name: Some(0), instruction: Op::Decrement },
        Instruction::End { name: None },
    ];
    assert_eq!(JIT::new(instructions, 0x1000).err(), Some(Error::CodeGenerationFailure));
}

#[test]
fn a_label_beyond_the_table_is_refused() {
    let instructions = vec![
        Instruction::Op { name: Some(5), instruction: Op::Increment },
        Instruction::End { name: None },
    ];
    assert_eq!(JIT::new(instructions, 0x1000).err(), Some(Error::CodeGenerationFailure));
}

#[test]
fn a_jump_to_a_label_beyond_the_table_is_refused() {
    let instructions = vec![
        Instruction::Branch { name: None, instruction: Branch::JumpZero, name_jump_to: 0 },
        Instruction::End { name: None },
    ];
    assert_eq!(JIT::new(instructions, 0x1000).err(), Some(Error::CodeGenerationFailure));

    let instructions = vec![
        Instruction::Branch { name: None, instruction: Branch::JumpNotZero, name_jump_to: 7 },
        Instruction::End { name: Some(0) },
    ];
    assert_eq!(JIT::new(instructions, 0x1000).err(), Some(Error::CodeGenerationFailure));
}

#[test]
fn a_second_end_marker_is_refused() {
    let instructions = vec![Instruction::End { name: None }, Instruction::End { name: None }];
    assert_eq!(JIT::new(instructions, 0x1000).err(), Some(Error::CodeGenerationFailure));
}

#[test]
fn a_list_without_end_marker_is_refused() {
    let instructions = vec![Instruction::Op { name: None, instruction: Op::Increment }];
    assert_eq!(JIT::new(instructions, 0x1000).err(), Some(Error::CodeGenerationFailure));
}

#[test]
fn an_empty_list_is_refused() {
    assert_eq!(JIT::new(vec![], 0x1000).err(), Some(Error::CodeGenerationFailure));
}

#[test]
fn an_end_marker_before_the_last_instruction_is_refused() {
    let instructions = vec![
        Instruction::End { name: None },
        Instruction::Op { name: None, instruction: Op::Increment },
    ];
    assert_eq!(JIT::new(instructions, 0x1000).err(), Some(Error::CodeGenerationFailure));

    let instructions = vec![
        Instruction::Op { name: None, instruction: Op::Output },
        Instruction::End { name: None },
        Instruction::Op { name: None, instruction: Op::Increment },
        Instruction::End { name: None },
    ];
    assert_eq!(JIT::new(instructions, 0x1000).err(), Some(Error::CodeGenerationFailure));
}

#[test]
fn every_parsed_program_that_fits_is_compiled() {
    for text in ["", "+", "[]", "[[]]", "+[>,.<-]", ",[.,]", "++++[>+++[>+++++<-]<-]>>+++++."] {
        assert!(JIT::new(compile(text).unwrap(), 0x7f00_0000_1000).is_ok());
    }
}

#[test]
fn labels_in_any_order_are_accepted() {
    // the labels 0 and 1, the higher one first
    let instructions = vec![
        Instruction::Branch { name: Some(1), instruction: Branch::JumpZero, name_jump_to: 0 },
        Instruction::End { name: Some(0) },
    ];
    let jit = JIT::new(instructions, 0x1000).unwrap();
    let expected = vec![
        0x48, 0x8b, 0x3d, 0x08, 0x00, 0x00, 0x00, // mov rdi, [rip+8]
        0x8a, 0x3f, // mov bh, [rdi]
        0x80, 0xff, 0x00, // cmp bh, 0
        0x74, 0x00, // je +0
        0xc3, // ret
    ];
    assert_eq!(jit.code()[..expected.len()], expected[..]);
}

#[test]
fn the_result_of_the_assembler_is_passed_on() {
    assert_eq!(checked(Ok(17u8)), Ok(17u8));
    assert_eq!(checked(Ok(vec![1u8, 2])), Ok(vec![1u8, 2]));
}

#[test]
fn a_failure_of_the_assembler_is_a_failure_of_code_generation() {
    let refused = CodeAssembler::new(3).map(|_| ());
    assert!(refused.is_err());
    assert_eq!(checked(refused), Err(Error::CodeGenerationFailure));
}

#[test]
fn code_that_fills_the_region_is_accepted() {
    // 314 increments of 13 bytes, the return and the slot: 4091 bytes
    let text = "+".repeat(314);
    let jit = JIT::new(compile(&text).unwrap(), 0x1000).unwrap();
    assert_eq!(jit.code().len(), 314 * 13 + 1 + 8);
    assert!(jit.code().len() <= MAX_CODE_SIZE);
}

#[test]
fn code_beyond_the_region_is_refused() {
    // 315 increments of 13 bytes, the return and the slot: 4104 bytes
    let text = "+".repeat(315);
    assert_eq!(
        JIT::new(compile(&text).unwrap(), 0x1000).err(),
        Some(Error::CodeGenerationFailure)
    );
}
