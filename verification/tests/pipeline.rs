use bfjit::compile;
use bfjit::error::Error;
use bfjit::parser::{parse, Instruction};
use bfjit::tokenizer::{tokenize, Branch, Op};

#[test]
fn compile_is_tokenize_then_parse() {
    let text = "+[ > , . < - ]\n";
    assert_eq!(compile(text), parse(tokenize(text).unwrap()));
    assert_eq!(
        compile("[.]"),
        Ok(vec![
            Instruction::Branch { name: None, instruction: Branch::JumpZero, name_jump_to: 1 },
            Instruction::Op { name: Some(0), instruction: Op::Output },
            Instruction::Branch { name: None, instruction: Branch::JumpNotZero, name_jump_to: 0 },
            Instruction::End { name: Some(1) },
        ])
    );
}

#[test]
fn compiling_twice_gives_the_same_instructions() {
    let text = "[ + [ - ] [ , ] > ]";
    let first = compile(text).unwrap();
    let second = compile(text).unwrap();
    assert_eq!(first, second);
    assert_eq!(first.len(), 11);
}

#[test]
fn compiling_twice_gives_the_same_error() {
    assert_eq!(compile("[+"), compile("[+"));
    assert_eq!(compile("+?"), compile("+?"));
}

#[test]
fn compile_reports_a_character_outside_the_alphabet() {
    assert_eq!(compile("+ b"), Err(Error::InvalidCharacter('b')));
}

#[test]
fn compile_reports_an_unmatched_bracket() {
    assert_eq!(compile("+]"), Err(Error::UnmatchedBracket));
    assert_eq!(compile("[+"), Err(Error::UnmatchedBracket));
}

#[test]
fn the_tokenizer_speaks_before_the_parser() {
    assert_eq!(compile("]x"), Err(Error::InvalidCharacter('x')));
}
