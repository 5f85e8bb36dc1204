//! Generated code, run on a small model of the processor: the handful of
//! instructions that the compiler emits, one tape, and two byte streams in
//! place of the standard input and output.

use bfjit::compile;
use bfjit::jit::JIT;
use iced_x86::{Code, Decoder, DecoderOptions, Register};

struct Machine {
    code: Vec<u8>,
    code_base: u64,
    tape: Vec<u8>,
    tape_base: u64,
    rax: u64,
    rdi: u64,
    rsi: u64,
    rdx: u64,
    bh: u8,
    zero: bool,
    input: Vec<u8>,
    consumed: usize,
    output: Vec<u8>,
}

impl Machine {
    fn new(jit: &JIT, input: &[u8]) -> Machine {
        Machine {
            code: jit.code().clone(),
            code_base: jit.code_pointer(),
            tape: jit.memory().clone(),
            tape_base: jit.memory().as_ptr() as u64,
            rax: 0,
            rdi: 0,
            rsi: 0,
            rdx: 0,
            bh: 0,
            zero: false,
            input: input.to_vec(),
            consumed: 0,
            output: vec![],
        }
    }

    fn byte(&mut self, address: u64) -> &mut u8 {
        if address >= self.tape_base && address - self.tape_base < self.tape.len() as u64 {
            &mut self.tape[(address - self.tape_base) as usize]
        } else if address >= self.code_base && address - self.code_base < self.code.len() as u64 {
            &mut self.code[(address - self.code_base) as usize]
        } else {
            panic!("access outside the tape and the code: {:#x}", address)
        }
    }

    fn load(&mut self, address: u64) -> u64 {
        let mut bytes = [0u8; 8];
        for i in 0..8 {
            bytes[i] = *self.byte(address + i as u64);
        }
        u64::from_le_bytes(bytes)
    }

    fn store(&mut self, address: u64, value: u64) {
        for (i, b) in value.to_le_bytes().iter().enumerate() {
            *self.byte(address + i as u64) = *b;
        }
    }

    fn register(&mut self, register: Register) -> &mut u64 {
        match register {
            Register::RAX => &mut self.rax,
            Register::RDI => &mut self.rdi,
            Register::RSI => &mut self.rsi,
            Register::RDX => &mut self.rdx,
            other => panic!("unexpected register {:?}", other),
        }
    }

    fn system_call(&mut self) {
        assert_eq!(self.rdx, 1);
        match self.rax {
            0 => {
                assert_eq!(self.rdi, 0);
                if self.consumed < self.input.len() {
                    let b = self.input[self.consumed];
                    self.consumed += 1;
                    *self.byte(self.rsi) = b;
                }
            }
            1 => {
                assert_eq!(self.rdi, 1);
                let b = *self.byte(self.rsi);
                self.output.push(b);
            }
            other => panic!("unexpected system call {}", other),
        }
    }

    /// Runs from the first byte of the code to the return.
    fn run(&mut self, limit: usize) {
        let mut ip = self.code_base;
        for _ in 0..limit {
            let at = (ip - self.code_base) as usize;
            let code = self.code.clone();
            let mut decoder = Decoder::with_ip(64, &code[at..], ip, DecoderOptions::NONE);
            let i = decoder.decode();
            ip = i.next_ip();
            match i.code() {
                Code::Mov_r64_rm64 => {
                    assert_eq!(i.memory_base(), Register::RIP);
                    let value = self.load(i.memory_displacement64());
                    *self.register(i.op0_register()) = value;
                }
                Code::Mov_rm64_r64 => {
                    assert_eq!(i.memory_base(), Register::RIP);
                    let value = *self.register(i.op1_register());
                    self.store(i.memory_displacement64(), value);
                }
                Code::Inc_rm64 => {
                    let r = self.register(i.op0_register());
                    *r = r.wrapping_add(1);
                }
                Code::Dec_rm64 => {
                    let r = self.register(i.op0_register());
                    *r = r.wrapping_sub(1);
                }
                Code::Mov_r8_rm8 => {
                    assert_eq!(i.op0_register(), Register::BH);
                    assert_eq!(i.memory_base(), Register::RDI);
                    self.bh = *self.byte(self.rdi);
                }
                Code::Mov_rm8_r8 => {
                    assert_eq!(i.op1_register(), Register::BH);
                    assert_eq!(i.memory_base(), Register::RDI);
                    *self.byte(self.rdi) = self.bh;
                }
                Code::Inc_rm8 => {
                    assert_eq!(i.op0_register(), Register::BH);
                    self.bh = self.bh.wrapping_add(1);
                }
                Code::Dec_rm8 => {
                    assert_eq!(i.op0_register(), Register::BH);
                    self.bh = self.bh.wrapping_sub(1);
                }
                Code::Mov_r64_imm64 => {
                    *self.register(i.op0_register()) = i.immediate64();
                }
                Code::Syscall => self.system_call(),
                Code::Cmp_rm8_imm8 => {
                    assert_eq!(i.op0_register(), Register::BH);
                    self.zero = self.bh == i.immediate8();
                }
                Code::Je_rel8_64 | Code::Je_rel32_64 => {
                    if self.zero {
                        ip = i.near_branch_target();
                    }
                }
                Code::Jne_rel8_64 | Code::Jne_rel32_64 => {
                    if !self.zero {
                        ip = i.near_branch_target();
                    }
                }
                Code::Retnq => return,
                other => panic!("unexpected instruction {:?}", other),
            }
        }
        panic!("no return within {} instructions", limit);
    }
}

/// What `text` writes when it reads `input`.
fn output_of(text: &str, input: &[u8]) -> Vec<u8> {
    let jit = JIT::new(compile(text).unwrap(), 0x40_0000).unwrap();
    let mut machine = Machine::new(&jit, input);
    machine.run(10_000_000);
    machine.output
}

/// The tape after `text` has run.
fn tape_after(text: &str, input: &[u8]) -> Vec<u8> {
    let jit = JIT::new(compile(text).unwrap(), 0x40_0000).unwrap();
    let mut machine = Machine::new(&jit, input);
    machine.run(10_000_000);
    machine.tape
}

#[test]
fn increments_are_counted() {
    assert_eq!(output_of("+++.", &[]), vec![3]);
    assert_eq!(output_of(".", &[]), vec![0]);
    for n in [1usize, 2, 10, 65, 200, 255] {
        let text = format!("{}.", "+".repeat(n));
        assert_eq!(output_of(&text, &[]), vec![n as u8]);
    }
}

#[test]
fn a_cell_wraps_around() {
    let text = format!("{}.", "+".repeat(256));
    assert_eq!(output_of(&text, &[]), vec![0]);
    let text = format!("{}.", "+".repeat(259));
    assert_eq!(output_of(&text, &[]), vec![3]);
    assert_eq!(output_of("-.", &[]), vec![255]);
}

#[test]
fn the_output_is_written_once() {
    assert_eq!(output_of("++++.", &[]).len(), 1);
    assert_eq!(output_of("++++", &[]).len(), 0);
}

#[test]
fn input_is_passed_through() {
    for b in [0u8, 1, 0x41, 0x7f, 0x80, 0xff] {
        assert_eq!(output_of(",.", &[b]), vec![b]);
    }
}

#[test]
fn input_is_read_in_order() {
    assert_eq!(output_of(",>,>,.<.<.", &[1, 2, 3]), vec![3, 2, 1]);
}

#[test]
fn the_pointer_moves_over_the_tape() {
    let tape = tape_after("+>++>+++<-", &[]);
    assert_eq!(tape[..4], [1, 1, 3, 0]);
    assert!(tape[4..].iter().all(|b| *b == 0));
}

#[test]
fn a_loop_is_skipped_on_zero() {
    assert_eq!(output_of("[+.]", &[]), vec![]);
    assert_eq!(output_of("[]+.", &[]), vec![1]);
}

#[test]
fn a_loop_runs_until_zero() {
    assert_eq!(output_of("+++[.-]", &[]), vec![3, 2, 1]);
    assert_eq!(tape_after("+++++[-]", &[])[0], 0);
}

#[test]
fn nested_loops_multiply() {
    // 4 * (3 * 5) + 5
    assert_eq!(output_of("++++[>+++[>+++++<-]<-]>>+++++.", &[]), vec![65]);
}

#[test]
fn a_program_that_ends_with_a_loop_returns() {
    assert_eq!(output_of("++[.-]", &[]), vec![2, 1]);
}

#[test]
fn loops_in_a_row_each_find_their_own_landing() {
    assert_eq!(output_of("+[-]++[-.]+++[-.]", &[]), vec![1, 0, 2, 1, 0]);
}

#[test]
fn input_drives_a_loop() {
    // echo until a zero byte is read
    assert_eq!(output_of(",[.,]", &[7, 8, 9, 0, 5]), vec![7, 8, 9]);
}

#[test]
fn a_long_jump_still_lands() {
    // a body of more than 127 bytes makes both jumps long
    let body = "+-".repeat(40);
    let text = format!("++[{}.-]", body);
    assert_eq!(output_of(&text, &[]), vec![2, 1]);
}
