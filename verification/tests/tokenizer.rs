use bfjit::error::Error;
use bfjit::tokenizer::{tokenize, Branch, Op, Token};

#[test]
fn every_symbol_has_its_token() {
    let tokens = tokenize("><+-.,[]").unwrap();
    assert_eq!(
        tokens,
        vec![
            Token::Op(Op::IncrementDataPointer),
            Token::Op(Op::DecrementDataPointer),
            Token::Op(Op::Increment),
            Token::Op(Op::Decrement),
            Token::Op(Op::Output),
            Token::Op(Op::Input),
            Token::Branch(Branch::JumpZero),
            Token::Branch(Branch::JumpNotZero),
        ]
    );
}

#[test]
fn token_new_reads_one_symbol() {
    assert_eq!(Token::new('>'), Ok(Token::Op(Op::IncrementDataPointer)));
    assert_eq!(Token::new('<'), Ok(Token::Op(Op::DecrementDataPointer)));
    assert_eq!(Token::new('+'), Ok(Token::Op(Op::Increment)));
    assert_eq!(Token::new('-'), Ok(Token::Op(Op::Decrement)));
    assert_eq!(Token::new('.'), Ok(Token::Op(Op::Output)));
    assert_eq!(Token::new(','), Ok(Token::Op(Op::Input)));
    assert_eq!(Token::new('['), Ok(Token::Branch(Branch::JumpZero)));
    assert_eq!(Token::new(']'), Ok(Token::Branch(Branch::JumpNotZero)));
}

#[test]
fn token_new_refuses_everything_else() {
    assert_eq!(Token::new('a'), Err(Error::InvalidCharacter('a')));
    assert_eq!(Token::new(' '), Err(Error::InvalidCharacter(' ')));
    assert_eq!(Token::new('\n'), Err(Error::InvalidCharacter('\n')));
    assert_eq!(Token::new('\u{e9}'), Err(Error::InvalidCharacter('\u{e9}')));
}

#[test]
fn empty_text_has_no_tokens() {
    assert_eq!(tokenize(""), Ok(vec![]));
}

#[test]
fn separators_alone_have_no_tokens() {
    assert_eq!(tokenize(" \n \n  "), Ok(vec![]));
}

#[test]
fn separators_are_skipped() {
    assert_eq!(
        tokenize(" + \n - \n"),
        Ok(vec![Token::Op(Op::Increment), Token::Op(Op::Decrement)])
    );
}

#[test]
fn one_token_for_each_character_that_is_no_separator() {
    let text = "+ +\n[ - > , ]\n\n. <";
    let symbols = text.chars().filter(|c| *c != ' ' && *c != '\n').count();
    assert_eq!(symbols, 9);
    assert_eq!(tokenize(text).unwrap().len(), symbols);
}

#[test]
fn a_letter_is_refused() {
    assert_eq!(tokenize("+a-"), Err(Error::InvalidCharacter('a')));
}

#[test]
fn the_first_offender_is_reported() {
    assert_eq!(tokenize("+ x - y"), Err(Error::InvalidCharacter('x')));
}

#[test]
fn an_offender_at_the_end_is_found() {
    assert_eq!(tokenize("+-[]#"), Err(Error::InvalidCharacter('#')));
}

#[test]
fn a_tab_is_no_separator() {
    assert_eq!(tokenize("+\t-"), Err(Error::InvalidCharacter('\t')));
}

#[test]
fn a_carriage_return_is_no_separator() {
    assert_eq!(tokenize("+\r\n-"), Err(Error::InvalidCharacter('\r')));
}

#[test]
fn a_character_beyond_ascii_is_refused() {
    assert_eq!(tokenize("+\u{2192}"), Err(Error::InvalidCharacter('\u{2192}')));
}
