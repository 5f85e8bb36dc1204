//! A just-in-time compiler for an eight-symbol tape language.
//!
//! Source text is turned into tokens, tokens into a flat list of
//! instructions whose loops are resolved to numbered labels, and that list
//! into x86-64 machine code addressed at a given region of memory.

use vstd::prelude::*;

pub mod error;
pub mod tokenizer;
pub mod parser;
pub mod machine;
pub mod listing;
pub mod assembler;
pub mod jit;

use crate::error::Error;
use crate::parser::{balanced, lemma_pair_count_bound, pair_count, parse, parsed, Instruction};
use crate::tokenizer::{all_in_alphabet, lemma_tokens_of_len, tokenize, tokenized, tokens_of};

verus! {

/// What compiling `text` gives: the error of the tokenizer, or else that of
/// the parser, or else the resolved program.
pub open spec fn compiled(text: Seq<char>) -> Result<Seq<Instruction>, Error> {
    match tokenized(text) {
        Ok(tokens) => parsed(tokens),
        Err(e) => Err(e),
    }
}

/// `outcome` is what compiling `text` gives.
pub open spec fn compiles_to(text: Seq<char>, outcome: Result<Vec<Instruction>, Error>) -> bool {
    match outcome {
        Ok(instructions) => compiled(text) == Ok::<Seq<Instruction>, Error>(instructions@),
        Err(e) => compiled(text) == Err::<Seq<Instruction>, Error>(e),
    }
}

/// The labels of `text` fit in 32 bits: if it is a program at all, it has
/// fewer than 2^31 pairs of brackets.
pub open spec fn labels_fit_u32(text: Seq<char>) -> bool {
    all_in_alphabet(text) && balanced(tokens_of(text)) ==> 2 * pair_count(tokens_of(text))
        <= u32::MAX
}

/// A text of at most `u32::MAX` characters has labels that fit.
pub proof fn lemma_short_text_fits(text: Seq<char>)
    requires
        text.len() <= u32::MAX,
    ensures
        labels_fit_u32(text),
{
    lemma_tokens_of_len(text);
    if balanced(tokens_of(text)) {
        lemma_pair_count_bound(tokens_of(text));
    }
}

/// Tokenizes and parses a program.
///
/// Labels are `u32`, so the labels of the program must fit. A text of at
/// most `u32::MAX` characters always meets this (`lemma_short_text_fits`).
pub fn compile(code: &str) -> (r: Result<Vec<Instruction>, Error>)
    requires
        labels_fit_u32(code@),
    ensures
        compiles_to(code@, r),
{
    let tokens = tokenize(code)?;
    parse(tokens)
}

/// Compiling is a function of the text: two runs on one text give the same
/// instructions with the same labels, or fail with the same error.
pub proof fn lemma_compile_twice(
    text: Seq<char>,
    first: Result<Vec<Instruction>, Error>,
    second: Result<Vec<Instruction>, Error>,
)
    requires
        compiles_to(text, first),
        compiles_to(text, second),
    ensures
        match (first, second) {
            (Ok(a), Ok(b)) => a@ == b@,
            (Err(a), Err(b)) => a == b,
            _ => false,
        },
{
}

} // verus!
