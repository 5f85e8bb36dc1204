//! From source text to tokens.
//!
//! The language has eight symbols:
//!
//! * `>` moves the data pointer one cell to the right,
//! * `<` moves it one cell to the left,
//! * `+` adds one to the cell under the pointer,
//! * `-` subtracts one from it,
//! * `.` writes the cell to the output,
//! * `,` reads one byte of input into the cell,
//! * `[` jumps past the matching `]` if the cell is zero,
//! * `]` jumps back behind the matching `[` if the cell is not zero.
//!
//! Spaces and newlines separate symbols and mean nothing. Any other
//! character is an error.

use vstd::prelude::*;
use vstd::std_specs::iter::IteratorSpec;
use crate::error::Error;

verus! {

/// The six symbols that act on the tape, the pointer or the streams.
#[derive(Debug, Clone, Copy, PartialEq, Eq, Structural)]
pub enum Op {
    IncrementDataPointer,
    DecrementDataPointer,
    Increment,
    Decrement,
    Output,
    Input,
}

/// The two brackets.
#[derive(Debug, Clone, Copy, PartialEq, Eq, Structural)]
pub enum Branch {
    JumpZero,
    JumpNotZero,
}

/// One symbol of the source text.
#[derive(Debug, Clone, Copy, PartialEq, Eq, Structural)]
pub enum Token {
    Op(Op),
    Branch(Branch),
}

/// Spaces and newlines are skipped.
pub open spec fn is_separator(c: char) -> bool {
    c == ' ' || c == '\n'
}

/// The token a character stands for, if it is one of the eight symbols.
pub open spec fn symbol(c: char) -> Option<Token> {
    if c == '>' {
        Some(Token::Op(Op::IncrementDataPointer))
    } else if c == '<' {
        Some(Token::Op(Op::DecrementDataPointer))
    } else if c == '+' {
        Some(Token::Op(Op::Increment))
    } else if c == '-' {
        Some(Token::Op(Op::Decrement))
    } else if c == '.' {
        Some(Token::Op(Op::Output))
    } else if c == ',' {
        Some(Token::Op(Op::Input))
    } else if c == '[' {
        Some(Token::Branch(Branch::JumpZero))
    } else if c == ']' {
        Some(Token::Branch(Branch::JumpNotZero))
    } else {
        None
    }
}

/// A character the tokenizer accepts: a symbol or a separator.
pub open spec fn in_alphabet(c: char) -> bool {
    is_separator(c) || symbol(c) is Some
}

/// Every character of `text` is in the alphabet.
pub open spec fn all_in_alphabet(text: Seq<char>) -> bool {
    forall|i: int| 0 <= i < text.len() ==> in_alphabet(#[trigger] text[i])
}

/// The first character of `text` that is outside the alphabet.
pub open spec fn offender(text: Seq<char>) -> Option<char>
    decreases text.len(),
{
    if text.len() == 0 {
        None
    } else if !in_alphabet(text.first()) {
        Some(text.first())
    } else {
        offender(text.drop_first())
    }
}

/// The tokens of `text`, in order: one for each symbol, none for anything
/// else.
pub open spec fn tokens_of(text: Seq<char>) -> Seq<Token>
    decreases text.len(),
{
    if text.len() == 0 {
        Seq::empty()
    } else {
        match symbol(text.last()) {
            Some(token) => tokens_of(text.drop_last()).push(token),
            None => tokens_of(text.drop_last()),
        }
    }
}

/// What tokenizing `text` gives: its tokens, or the first character that is
/// outside the alphabet.
pub open spec fn tokenized(text: Seq<char>) -> Result<Seq<Token>, Error> {
    match offender(text) {
        Some(c) => Err(Error::InvalidCharacter(c)),
        None => Ok(tokens_of(text)),
    }
}

/// A text has an offender exactly if some character of it is outside the
/// alphabet, and the offender is the first such character.
pub proof fn lemma_offender(text: Seq<char>)
    ensures
        offender(text) is None <==> all_in_alphabet(text),
        offender(text) is Some ==> exists|at: int|
            0 <= at < text.len() && offender(text) == Some(#[trigger] text[at]) && !in_alphabet(
                text[at],
            ) && all_in_alphabet(text.take(at)),
    decreases text.len(),
{
    if text.len() == 0 {
    } else if !in_alphabet(text.first()) {
        assert(text[0] == text.first());
        assert(all_in_alphabet(text.take(0)));
    } else {
        let rest = text.drop_first();
        lemma_offender(rest);
        if offender(rest) is None {
            assert forall|i: int| 0 <= i < text.len() implies in_alphabet(#[trigger] text[i]) by {
                if i > 0 {
                    assert(text[i] == rest[i - 1]);
                }
            }
        } else {
            let at = choose|at: int|
                0 <= at < rest.len() && offender(rest) == Some(#[trigger] rest[at]) && !in_alphabet(
                    rest[at],
                ) && all_in_alphabet(rest.take(at));
            assert(text[at + 1] == rest[at]);
            assert forall|i: int| 0 <= i < at + 1 implies in_alphabet(
                #[trigger] text.take(at + 1)[i],
            ) by {
                if i > 0 {
                    assert(text.take(at + 1)[i] == rest.take(at)[i - 1]);
                }
            }
        }
    }
}

/// If the characters before `at` are in the alphabet and the one at `at` is
/// not, that one is the offender.
proof fn lemma_offender_at(text: Seq<char>, at: int)
    requires
        0 <= at < text.len(),
        all_in_alphabet(text.take(at)),
        !in_alphabet(text[at]),
    ensures
        offender(text) == Some(text[at]),
    decreases at,
{
    if at > 0 {
        let rest = text.drop_first();
        assert(text.take(at)[0] == text[0]);
        assert forall|i: int| 0 <= i < at - 1 implies in_alphabet(
            #[trigger] rest.take(at - 1)[i],
        ) by {
            assert(rest.take(at - 1)[i] == text.take(at)[i + 1]);
        }
        lemma_offender_at(rest, at - 1);
    }
}

/// Tokenizing keeps one token for each character that is no separator, in
/// the order of the text.
pub proof fn lemma_one_token_per_symbol(text: Seq<char>)
    requires
        all_in_alphabet(text),
    ensures
        tokens_of(text) == text.filter(|c: char| !is_separator(c)).map_values(
            |c: char| symbol(c)->0,
        ),
        tokens_of(text).len() == text.filter(|c: char| !is_separator(c)).len(),
    decreases text.len(),
{
    let keep = |c: char| !is_separator(c);
    let read = |c: char| symbol(c)->0;
    reveal(Seq::filter);
    if text.len() > 0 {
        let front = text.drop_last();
        lemma_one_token_per_symbol(front);
        assert(in_alphabet(text[text.len() - 1]));
        if keep(text.last()) {
            assert(front.filter(keep).push(text.last()).map_values(read) =~= front.filter(
                keep,
            ).map_values(read).push(read(text.last())));
        }
    } else {
        assert(text.filter(keep).map_values(read) =~= Seq::<Token>::empty());
    }
}

/// A text has at least as many characters as tokens.
pub proof fn lemma_tokens_of_len(text: Seq<char>)
    ensures
        tokens_of(text).len() <= text.len(),
    decreases text.len(),
{
    if text.len() > 0 {
        lemma_tokens_of_len(text.drop_last());
    }
}

impl Token {
    /// Reads one symbol. Anything else, a separator too, is refused with the
    /// character itself.
    pub fn new(c: char) -> (r: Result<Token, Error>)
        ensures
            r == match symbol(c) {
                Some(token) => Ok::<Token, Error>(token),
                None => Err::<Token, Error>(Error::InvalidCharacter(c)),
            },
    {
        match c {
            '>' => Ok(Token::Op(Op::IncrementDataPointer)),
            '<' => Ok(Token::Op(Op::DecrementDataPointer)),
            '+' => Ok(Token::Op(Op::Increment)),
            '-' => Ok(Token::Op(Op::Decrement)),
            '.' => Ok(Token::Op(Op::Output)),
            ',' => Ok(Token::Op(Op::Input)),
            '[' => Ok(Token::Branch(Branch::JumpZero)),
            ']' => Ok(Token::Branch(Branch::JumpNotZero)),
            n => Err(Error::InvalidCharacter(n)),
        }
    }
}

/// Turns source text into tokens. Separators are skipped; the first
/// character outside the alphabet ends the run with an error that carries
/// it, and no tokens are returned then.
pub fn tokenize(code: &str) -> (r: Result<Vec<Token>, Error>)
    ensures
        r is Ok <==> all_in_alphabet(code@),
        match r {
            Ok(tokens) => tokenized(code@) == Ok::<Seq<Token>, Error>(tokens@),
            Err(e) => tokenized(code@) == Err::<Seq<Token>, Error>(e),
        },
{
    let mut tokens: Vec<Token> = Vec::new();
    for c in it: code.chars()
        invariant
            it.seq() == code@,
            all_in_alphabet(code@.take(it.index() as int)),
            tokens@ == tokens_of(code@.take(it.index() as int)),
    {
        let ghost at = it.index() as int;
        assert(code@.take(at + 1).drop_last() == code@.take(at));
        assert(code@.take(at + 1).last() == c);
        if c == ' ' || c == '\n' {
        } else {
            match Token::new(c) {
                Ok(token) => tokens.push(token),
                Err(e) => {
                    proof {
                        lemma_offender_at(code@, at);
                        lemma_offender(code@);
                    }
                    return Err(e);
                },
            }
        }
        assert forall|i: int| 0 <= i < at + 1 implies in_alphabet(
            #[trigger] code@.take(at + 1)[i],
        ) by {
            if i < at {
                assert(code@.take(at + 1)[i] == code@.take(at)[i]);
            }
        }
    }
    proof {
        assert(code@.take(code@.len() as int) == code@);
        lemma_offender(code@);
    }
    Ok(tokens)
}

} // verus!
