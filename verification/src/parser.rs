//! From tokens to a flat list of instructions with resolved loops.
//!
//! Every pair of brackets gets two labels. The first stands on the
//! instruction behind the opening bracket, and the closing bracket jumps to
//! it. The second stands on the instruction behind the closing bracket, and
//! the opening bracket jumps to it. Pairs are numbered in the order in which
//! their closing brackets appear, and the pair with number `k` owns the
//! labels `2k` and `2k + 1`.

use vstd::prelude::*;
use vstd::set_lib::{lemma_int_range, lemma_len_subset, lemma_subset_equality, set_int_range};
use crate::error::Error;
use crate::tokenizer::{Branch, Op, Token};

verus! {

/// A token together with the label that stands on it, if any, and, for a
/// bracket, the label it jumps to.
#[allow(inconsistent_fields)]
#[derive(Debug, Clone, Copy, PartialEq, Eq, Structural)]
pub enum Instruction {
    Op { name: Option<u32>, instruction: Op },
    Branch {
        name: Option<u32>,
        instruction: Branch,
        /// Zero until the partner of the bracket is known.
        name_jump_to: u32,
    },
    /// Marks the end of the program.
    End { name: Option<u32> },
}

impl Instruction {
    /// The label that stands on this instruction.
    pub open spec fn name(self) -> Option<u32> {
        match self {
            Instruction::Op { name, .. } => name,
            Instruction::Branch { name, .. } => name,
            Instruction::End { name } => name,
        }
    }

    /// The label that this instruction jumps to, if it is a bracket.
    pub open spec fn target(self) -> Option<u32> {
        match self {
            Instruction::Branch { name_jump_to, .. } => Some(name_jump_to),
            _ => None,
        }
    }

    /// This instruction with the label `name` on it.
    pub open spec fn with_name(self, name: Option<u32>) -> Instruction {
        match self {
            Instruction::Op { instruction, .. } => Instruction::Op { name, instruction },
            Instruction::Branch { instruction, name_jump_to, .. } => Instruction::Branch {
                name,
                instruction,
                name_jump_to,
            },
            Instruction::End { .. } => Instruction::End { name },
        }
    }

    /// This instruction with the jump target `target`, if it is a bracket.
    pub open spec fn with_target(self, target: u32) -> Instruction {
        match self {
            Instruction::Branch { name, instruction, .. } => Instruction::Branch {
                name,
                instruction,
                name_jump_to: target,
            },
            other => other,
        }
    }

    /// The instruction a token starts out as: no label, and for a bracket the
    /// target zero.
    pub open spec fn unresolved(token: Token) -> Instruction {
        match token {
            Token::Op(op) => Instruction::Op { name: None, instruction: op },
            Token::Branch(branch) => Instruction::Branch {
                name: None,
                instruction: branch,
                name_jump_to: 0,
            },
        }
    }

    pub fn from_token(token: Token) -> (r: Instruction)
        ensures
            r == Instruction::unresolved(token),
    {
        match token {
            Token::Op(op) => Instruction::Op { name: None, instruction: op },
            Token::Branch(branch) => Instruction::Branch {
                name: None,
                instruction: branch,
                name_jump_to: 0,
            },
        }
    }

    /// Puts the label `new_name` on this instruction, in place of any that
    /// stood there.
    pub fn set_name(&mut self, new_name: u32)
        ensures
            *final(self) == old(self).with_name(Some(new_name)),
    {
        match self {
            Instruction::Op { name, .. } => {
                *name = Some(new_name);
            },
            Instruction::Branch { name, .. } => {
                *name = Some(new_name);
            },
            Instruction::End { name } => {
                *name = Some(new_name);
            },
        }
    }

    pub fn get_name(&self) -> (r: Option<u32>)
        ensures
            r == self.name(),
    {
        match self {
            Instruction::Op { name, .. } => *name,
            Instruction::Branch { name, .. } => *name,
            Instruction::End { name } => *name,
        }
    }

    /// Sets the label a bracket jumps to. Only a bracket has one: any other
    /// instruction is left as it is and the call fails.
    pub fn set_jump_to_name(&mut self, name: u32) -> (r: Result<(), Error>)
        ensures
            *final(self) == old(self).with_target(name),
            r == if *old(self) is Branch {
                Ok::<(), Error>(())
            } else {
                Err::<(), Error>(Error::UnmatchedBracket)
            },
    {
        match self {
            Instruction::Branch { name_jump_to, .. } => {
                *name_jump_to = name;
                Ok(())
            },
            _ => Err(Error::UnmatchedBracket),
        }
    }
}


/// An opening bracket.
pub open spec fn is_open(token: Token) -> bool {
    token == Token::Branch(Branch::JumpZero)
}

/// A closing bracket.
pub open spec fn is_close(token: Token) -> bool {
    token == Token::Branch(Branch::JumpNotZero)
}

/// What a token adds to the number of open brackets.
pub open spec fn step(token: Token) -> int {
    if is_open(token) {
        1
    } else if is_close(token) {
        -1
    } else {
        0
    }
}

/// The number of opening brackets minus the number of closing brackets among
/// the first `i` tokens.
pub open spec fn depth(tokens: Seq<Token>, i: int) -> int
    decreases i,
{
    if i <= 0 {
        0
    } else {
        depth(tokens, i - 1) + step(tokens[i - 1])
    }
}

/// The number of closing brackets among the first `i` tokens.
pub open spec fn closes_before(tokens: Seq<Token>, i: int) -> int
    decreases i,
{
    if i <= 0 {
        0
    } else {
        closes_before(tokens, i - 1) + if is_close(tokens[i - 1]) {
            1int
        } else {
            0int
        }
    }
}

/// The number of bracket pairs of a balanced token sequence.
pub open spec fn pair_count(tokens: Seq<Token>) -> int {
    closes_before(tokens, tokens.len() as int)
}

/// No closing bracket comes without an opening one before it, and no opening
/// bracket stays open.
pub open spec fn balanced(tokens: Seq<Token>) -> bool {
    &&& forall|i: int| 0 <= i <= tokens.len() ==> #[trigger] depth(tokens, i) >= 0
    &&& depth(tokens, tokens.len() as int) == 0
}

/// The bracket at `open` and the bracket at `close` are partners: the depth
/// behind `close` is that before `open` for the first time since `open`.
pub open spec fn matched(tokens: Seq<Token>, open: int, close: int) -> bool {
    &&& 0 <= open < close < tokens.len()
    &&& is_open(tokens[open])
    &&& is_close(tokens[close])
    &&& depth(tokens, close + 1) == depth(tokens, open)
    &&& forall|k: int| open < k <= close ==> #[trigger] depth(tokens, k) > depth(tokens, open)
}

/// The first closing bracket at or behind `k` after which the depth is
/// `level`, or the length of `tokens` if there is none.
pub open spec fn close_from(tokens: Seq<Token>, level: int, k: int) -> int
    decreases tokens.len() - k,
{
    if k < 0 || k >= tokens.len() {
        tokens.len() as int
    } else if is_close(tokens[k]) && depth(tokens, k + 1) == level {
        k
    } else {
        close_from(tokens, level, k + 1)
    }
}

/// The partner of the opening bracket at `open`.
pub open spec fn close_of(tokens: Seq<Token>, open: int) -> int {
    close_from(tokens, depth(tokens, open), open + 1)
}

/// The last opening bracket at or before `k` before which the depth is
/// `level`, or -1 if there is none.
pub open spec fn open_from(tokens: Seq<Token>, level: int, k: int) -> int
    decreases k + 1,
{
    if k < 0 || k >= tokens.len() {
        -1
    } else if is_open(tokens[k]) && depth(tokens, k) == level {
        k
    } else {
        open_from(tokens, level, k - 1)
    }
}

/// The partner of the closing bracket at `close`.
pub open spec fn open_of(tokens: Seq<Token>, close: int) -> int {
    open_from(tokens, depth(tokens, close + 1), close - 1)
}

/// The number of the pair that the bracket at `i` belongs to: pairs are
/// counted from zero in the order of their closing brackets.
pub open spec fn pair_number(tokens: Seq<Token>, i: int) -> int {
    if is_close(tokens[i]) {
        closes_before(tokens, i)
    } else {
        closes_before(tokens, close_of(tokens, i))
    }
}

/// The label on instruction `i`: the first label of a pair stands behind its
/// opening bracket, the second behind its closing bracket.
pub open spec fn label_at(tokens: Seq<Token>, i: int) -> Option<u32> {
    if 0 < i <= tokens.len() && is_open(tokens[i - 1]) {
        Some((2 * pair_number(tokens, i - 1)) as u32)
    } else if 0 < i <= tokens.len() && is_close(tokens[i - 1]) {
        Some((2 * pair_number(tokens, i - 1) + 1) as u32)
    } else {
        None
    }
}

/// The label that the bracket at `i` jumps to: a closing bracket to the first
/// label of its pair, an opening bracket to the second.
pub open spec fn target_at(tokens: Seq<Token>, i: int) -> u32 {
    if is_close(tokens[i]) {
        (2 * pair_number(tokens, i)) as u32
    } else {
        (2 * pair_number(tokens, i) + 1) as u32
    }
}

/// Instruction `i` of the resolved program: token `i` with its label and
/// target, and behind the last token the end marker with its label.
pub open spec fn instruction_at(tokens: Seq<Token>, i: int) -> Instruction {
    if 0 <= i < tokens.len() {
        Instruction::unresolved(tokens[i]).with_name(label_at(tokens, i)).with_target(
            target_at(tokens, i),
        )
    } else {
        Instruction::End { name: label_at(tokens, i) }
    }
}

/// The resolved program of a balanced token sequence.
pub open spec fn resolved(tokens: Seq<Token>) -> Seq<Instruction> {
    Seq::new(tokens.len() + 1, |i: int| instruction_at(tokens, i))
}

/// What parsing `tokens` gives: the resolved program if the brackets are
/// balanced.
pub open spec fn parsed(tokens: Seq<Token>) -> Result<Seq<Instruction>, Error> {
    if balanced(tokens) {
        Ok(resolved(tokens))
    } else {
        Err(Error::UnmatchedBracket)
    }
}

/// How many instructions carry a label.
pub open spec fn named_count(instructions: Seq<Instruction>) -> nat
    decreases instructions.len(),
{
    if instructions.len() == 0 {
        0
    } else {
        named_count(instructions.drop_last()) + if instructions.last().name() is Some {
            1nat
        } else {
            0nat
        }
    }
}

/// The labels of the first `upto` instructions fit a table of `count`
/// labels: every label and every jump target is below `count`, no label
/// stands on two instructions, and there is at most one end marker.
pub open spec fn labels_fit(instructions: Seq<Instruction>, upto: int, count: int) -> bool {
    &&& forall|i: int|
        0 <= i < upto ==> (#[trigger] instructions[i].name() matches Some(name) ==> name < count)
    &&& forall|i: int, j: int|
        0 <= i < j < upto && instructions[i].name() is Some ==> #[trigger] instructions[i].name()
            != #[trigger] instructions[j].name()
    &&& forall|i: int|
        0 <= i < upto ==> (#[trigger] instructions[i] matches Instruction::Branch {
            name_jump_to,
            ..
        } ==> name_jump_to < count)
    &&& forall|i: int, j: int|
        0 <= i < j < upto ==> !(#[trigger] instructions[i] is End && #[trigger] instructions[j]
            is End)
}

/// The labels of an instruction list can be told apart and every jump has
/// somewhere to land: with as many labels as instructions that carry one,
/// the labels are the numbers below that count, each on one instruction,
/// every jump target is one of them, and the end marker occurs at most once.
pub open spec fn labels_well_formed(instructions: Seq<Instruction>) -> bool {
    labels_fit(instructions, instructions.len() as int, named_count(instructions) as int)
}

/// The label on instruction `i` once the pairs with a number below `limit`
/// have been labelled.
spec fn label_upto(tokens: Seq<Token>, i: int, limit: int) -> Option<u32> {
    if 0 < i <= tokens.len() && step(tokens[i - 1]) != 0 && pair_number(tokens, i - 1) < limit {
        label_at(tokens, i)
    } else {
        None
    }
}

/// The target of the bracket at `i` once the pairs with a number below
/// `limit` have been labelled.
spec fn target_upto(tokens: Seq<Token>, i: int, limit: int) -> u32 {
    if step(tokens[i]) != 0 && pair_number(tokens, i) < limit {
        target_at(tokens, i)
    } else {
        0
    }
}

/// Instruction `i` once the pairs with a number below `limit` have been
/// labelled.
spec fn instruction_upto(tokens: Seq<Token>, i: int, limit: int) -> Instruction {
    if 0 <= i < tokens.len() {
        Instruction::unresolved(tokens[i]).with_name(label_upto(tokens, i, limit)).with_target(
            target_upto(tokens, i, limit),
        )
    } else {
        Instruction::End { name: label_upto(tokens, i, limit) }
    }
}

/// The number of brackets among the first `i` tokens.
spec fn brackets_before(tokens: Seq<Token>, i: int) -> int
    decreases i,
{
    if i <= 0 {
        0
    } else {
        brackets_before(tokens, i - 1) + if step(tokens[i - 1]) != 0 {
            1int
        } else {
            0int
        }
    }
}

/// An opening bracket has at most one partner.
pub proof fn lemma_close_unique(tokens: Seq<Token>, open: int, first: int, second: int)
    requires
        matched(tokens, open, first),
        matched(tokens, open, second),
    ensures
        first == second,
{
    if first < second {
        assert(depth(tokens, first + 1) > depth(tokens, open));
    } else if second < first {
        assert(depth(tokens, second + 1) > depth(tokens, open));
    }
}

/// A closing bracket has at most one partner.
pub proof fn lemma_open_unique(tokens: Seq<Token>, first: int, second: int, close: int)
    requires
        matched(tokens, first, close),
        matched(tokens, second, close),
    ensures
        first == second,
{
    if first < second {
        assert(depth(tokens, second) > depth(tokens, first));
    } else if second < first {
        assert(depth(tokens, first) > depth(tokens, second));
    }
}

proof fn lemma_close_from(tokens: Seq<Token>, open: int, close: int, k: int)
    requires
        matched(tokens, open, close),
        open < k <= close,
    ensures
        close_from(tokens, depth(tokens, open), k) == close,
    decreases close - k,
{
    if k < close {
        assert(depth(tokens, k + 1) > depth(tokens, open));
        lemma_close_from(tokens, open, close, k + 1);
    }
}

/// The partner of an opening bracket is the one that `close_of` finds.
pub proof fn lemma_close_of(tokens: Seq<Token>, open: int, close: int)
    requires
        matched(tokens, open, close),
    ensures
        close_of(tokens, open) == close,
{
    lemma_close_from(tokens, open, close, open + 1);
}

proof fn lemma_scan_finds_partner(tokens: Seq<Token>, open: int, k: int)
    requires
        balanced(tokens),
        0 <= open < k <= tokens.len(),
        is_open(tokens[open]),
        forall|j: int| open < j <= k ==> #[trigger] depth(tokens, j) > depth(tokens, open),
    ensures
        matched(tokens, open, close_from(tokens, depth(tokens, open), k)),
    decreases tokens.len() - k,
{
    let level = depth(tokens, open);
    assert(level >= 0);
    if k >= tokens.len() {
        assert(depth(tokens, k) > level);
    } else if is_close(tokens[k]) && depth(tokens, k + 1) == level {
    } else {
        assert(depth(tokens, k + 1) == depth(tokens, k) + step(tokens[k]));
        assert(depth(tokens, k) > level);
        lemma_scan_finds_partner(tokens, open, k + 1);
    }
}

/// In a balanced sequence every opening bracket has a partner.
pub proof fn lemma_open_has_partner(tokens: Seq<Token>, open: int)
    requires
        balanced(tokens),
        0 <= open < tokens.len(),
        is_open(tokens[open]),
    ensures
        matched(tokens, open, close_of(tokens, open)),
{
    assert(depth(tokens, open + 1) == depth(tokens, open) + step(tokens[open]));
    lemma_scan_finds_partner(tokens, open, open + 1);
}

proof fn lemma_scan_back_finds_partner(tokens: Seq<Token>, close: int, k: int)
    requires
        balanced(tokens),
        -1 <= k < close < tokens.len(),
        is_close(tokens[close]),
        forall|j: int| k < j <= close ==> #[trigger] depth(tokens, j) > depth(tokens, close + 1),
    ensures
        matched(tokens, open_from(tokens, depth(tokens, close + 1), k), close),
    decreases k + 1,
{
    let level = depth(tokens, close + 1);
    assert(level >= 0);
    if k < 0 {
        assert(depth(tokens, 0) > level);
    } else if is_open(tokens[k]) && depth(tokens, k) == level {
    } else {
        assert(depth(tokens, k + 1) == depth(tokens, k) + step(tokens[k]));
        assert(depth(tokens, k + 1) > level);
        lemma_scan_back_finds_partner(tokens, close, k - 1);
    }
}

/// In a balanced sequence every closing bracket has a partner.
pub proof fn lemma_close_has_partner(tokens: Seq<Token>, close: int)
    requires
        balanced(tokens),
        0 <= close < tokens.len(),
        is_close(tokens[close]),
    ensures
        matched(tokens, open_of(tokens, close), close),
{
    assert(depth(tokens, close + 1) == depth(tokens, close) + step(tokens[close]));
    lemma_scan_back_finds_partner(tokens, close, close - 1);
}

proof fn lemma_closes_nonnegative(tokens: Seq<Token>, i: int)
    ensures
        closes_before(tokens, i) >= 0,
    decreases i,
{
    if i > 0 {
        lemma_closes_nonnegative(tokens, i - 1);
    }
}

proof fn lemma_pair_number_nonnegative(tokens: Seq<Token>, i: int)
    ensures
        pair_number(tokens, i) >= 0,
{
    lemma_closes_nonnegative(tokens, i);
    lemma_closes_nonnegative(tokens, close_of(tokens, i));
}

proof fn lemma_closes_monotone(tokens: Seq<Token>, i: int, j: int)
    requires
        i <= j,
    ensures
        0 <= closes_before(tokens, i) <= closes_before(tokens, j),
    decreases j - i, j,
{
    if i < j {
        lemma_closes_monotone(tokens, i, j - 1);
    } else if i > 0 {
        lemma_closes_monotone(tokens, i - 1, j - 1);
    }
}

/// Closing brackets are counted one by one: the count before a closing
/// bracket is below the count of all, and tells closing brackets apart.
proof fn lemma_close_rank(tokens: Seq<Token>, first: int, second: int)
    requires
        0 <= first < tokens.len(),
        0 <= second < tokens.len(),
        is_close(tokens[first]),
        is_close(tokens[second]),
    ensures
        0 <= closes_before(tokens, first) < pair_count(tokens),
        closes_before(tokens, first) == closes_before(tokens, second) ==> first == second,
{
    lemma_closes_monotone(tokens, 0, first);
    lemma_closes_monotone(tokens, first + 1, tokens.len() as int);
    if first < second {
        lemma_closes_monotone(tokens, first + 1, second);
    } else if second < first {
        lemma_closes_monotone(tokens, second + 1, first);
    }
}

/// In a balanced sequence every bracket belongs to a pair, and the number of
/// the pair is below the number of pairs.
pub proof fn lemma_pair_number_bound(tokens: Seq<Token>, i: int)
    requires
        balanced(tokens),
        0 <= i < tokens.len(),
        step(tokens[i]) != 0,
    ensures
        0 <= pair_number(tokens, i) < pair_count(tokens),
{
    if is_open(tokens[i]) {
        lemma_open_has_partner(tokens, i);
        let partner = close_of(tokens, i);
        lemma_close_rank(tokens, partner, partner);
    } else {
        lemma_close_rank(tokens, i, i);
    }
}

/// In a balanced sequence a pair has one opening and one closing bracket:
/// two brackets of one kind with the same pair number are the same bracket.
pub proof fn lemma_one_pair_one_bracket(tokens: Seq<Token>, first: int, second: int)
    requires
        balanced(tokens),
        0 <= first < tokens.len(),
        0 <= second < tokens.len(),
        step(tokens[first]) != 0,
        step(tokens[first]) == step(tokens[second]),
        pair_number(tokens, first) == pair_number(tokens, second),
    ensures
        first == second,
{
    if is_open(tokens[first]) {
        lemma_open_has_partner(tokens, first);
        lemma_open_has_partner(tokens, second);
        lemma_close_rank(tokens, close_of(tokens, first), close_of(tokens, second));
        lemma_open_unique(tokens, first, second, close_of(tokens, first));
    } else {
        lemma_close_rank(tokens, first, second);
    }
}

/// The brackets of a pair jump behind each other: the closing bracket to the
/// label on the instruction behind the opening bracket, the opening bracket
/// to the label on the instruction behind the closing bracket.
pub proof fn lemma_landing(tokens: Seq<Token>, open: int, close: int)
    requires
        matched(tokens, open, close),
    ensures
        label_at(tokens, open + 1) == Some(target_at(tokens, close)),
        label_at(tokens, close + 1) == Some(target_at(tokens, open)),
{
    lemma_close_of(tokens, open, close);
}

proof fn lemma_brackets_before(tokens: Seq<Token>, i: int)
    requires
        0 <= i <= tokens.len(),
    ensures
        brackets_before(tokens, i) == depth(tokens, i) + 2 * closes_before(tokens, i),
        0 <= brackets_before(tokens, i) <= i,
    decreases i,
{
    if i > 0 {
        lemma_brackets_before(tokens, i - 1);
    }
}

/// A balanced sequence has twice as many brackets as pairs, so at most half
/// as many pairs as tokens.
pub proof fn lemma_pair_count_bound(tokens: Seq<Token>)
    requires
        balanced(tokens),
    ensures
        0 <= 2 * pair_count(tokens) <= tokens.len(),
{
    lemma_brackets_before(tokens, tokens.len() as int);
}

proof fn lemma_named_count_resolved(tokens: Seq<Token>, k: int)
    requires
        0 <= k <= tokens.len() + 1,
    ensures
        named_count(resolved(tokens).take(k)) == brackets_before(tokens, k - 1),
    decreases k,
{
    if k > 0 {
        let list = resolved(tokens);
        lemma_named_count_resolved(tokens, k - 1);
        assert(list.take(k).drop_last() == list.take(k - 1));
        assert(list.take(k).last() == instruction_at(tokens, k - 1));
        assert(instruction_at(tokens, k - 1).name() == label_at(tokens, k - 1));
    }
}

/// An instruction list is well formed: its labels are, and the end marker is
/// its last instruction. It then occurs nowhere else.
pub open spec fn well_formed(instructions: Seq<Instruction>) -> bool {
    &&& labels_well_formed(instructions)
    &&& instructions.len() > 0
    &&& instructions.last() is End
}

/// The label `label` stands on an instruction of the list.
pub open spec fn stands(instructions: Seq<Instruction>, label: u32) -> bool {
    exists|i: int| 0 <= i < instructions.len() && #[trigger] instructions[i].name() == Some(label)
}

/// The label `label` is the target of a bracket of the list.
pub open spec fn targeted(instructions: Seq<Instruction>, label: u32) -> bool {
    exists|i: int|
        0 <= i < instructions.len() && #[trigger] instructions[i].target() == Some(label)
}

/// The labels of an instruction list are exactly the numbers below `count`:
/// each of them stands on one instruction and no other, and is the target
/// of one bracket and no other; no other number is a label or a target.
pub open spec fn labels_exact(instructions: Seq<Instruction>, count: int) -> bool {
    &&& forall|i: int|
        0 <= i < instructions.len() ==> (#[trigger] instructions[i].name() matches Some(name)
            ==> name < count)
    &&& forall|label: u32| label < count ==> #[trigger] stands(instructions, label)
    &&& forall|i: int, j: int|
        0 <= i < j < instructions.len() && instructions[i].name() is Some
            ==> #[trigger] instructions[i].name() != #[trigger] instructions[j].name()
    &&& forall|i: int|
        0 <= i < instructions.len() ==> (#[trigger] instructions[i].target() matches Some(target)
            ==> target < count)
    &&& forall|label: u32| label < count ==> #[trigger] targeted(instructions, label)
    &&& forall|i: int, j: int|
        0 <= i < j < instructions.len() && instructions[i].target() is Some
            ==> #[trigger] instructions[i].target() != #[trigger] instructions[j].target()
}

/// The resolved program of a balanced sequence has well-formed labels: two
/// for each pair, each on one instruction, and every bracket jumps to one of
/// them. The end marker is its last instruction and occurs nowhere else.
pub proof fn lemma_resolved_well_formed(tokens: Seq<Token>)
    requires
        balanced(tokens),
        2 * pair_count(tokens) <= u32::MAX,
    ensures
        named_count(resolved(tokens)) == 2 * pair_count(tokens),
        labels_well_formed(resolved(tokens)),
        well_formed(resolved(tokens)),
        resolved(tokens).last() is End,
        forall|i: int| 0 <= i < tokens.len() ==> !(#[trigger] resolved(tokens)[i] is End),
{
    let list = resolved(tokens);
    let pairs = pair_count(tokens);
    lemma_named_count_resolved(tokens, tokens.len() as int + 1);
    assert(list.take(tokens.len() as int + 1) == list);
    lemma_brackets_before(tokens, tokens.len() as int);
    assert forall|i: int| 0 <= i < list.len() implies (#[trigger] list[i].name() matches Some(
        name,
    ) ==> name < 2 * pairs) by {
        assert(list[i].name() == label_at(tokens, i));
        if 0 < i && step(tokens[i - 1]) != 0 {
            lemma_pair_number_bound(tokens, i - 1);
        }
    }
    assert forall|i: int, j: int|
        0 <= i < j < list.len() && list[i].name() is Some implies #[trigger] list[i].name()
        != #[trigger] list[j].name() by {
        assert(list[i].name() == label_at(tokens, i));
        assert(list[j].name() == label_at(tokens, j));
        lemma_pair_number_bound(tokens, i - 1);
        if step(tokens[j - 1]) != 0 {
            lemma_pair_number_bound(tokens, j - 1);
            if step(tokens[i - 1]) == step(tokens[j - 1]) && pair_number(tokens, i - 1)
                == pair_number(tokens, j - 1) {
                lemma_one_pair_one_bracket(tokens, i - 1, j - 1);
            }
        }
    }
    assert forall|i: int| 0 <= i < list.len() implies (#[trigger] list[i] matches Instruction::Branch {
        name_jump_to,
        ..
    } ==> name_jump_to < 2 * pairs) by {
        if i < tokens.len() && step(tokens[i]) != 0 {
            lemma_pair_number_bound(tokens, i);
        }
    }
}

/// Every bracket of a balanced sequence jumps to a label that stands on one
/// instruction and no other: the one behind its partner.
pub proof fn lemma_jump_lands_once(tokens: Seq<Token>, i: int) -> (landing: int)
    requires
        balanced(tokens),
        2 * pair_count(tokens) <= u32::MAX,
        0 <= i < tokens.len(),
        step(tokens[i]) != 0,
    ensures
        0 < landing <= tokens.len(),
        is_open(tokens[i]) ==> matched(tokens, i, landing - 1),
        is_close(tokens[i]) ==> matched(tokens, landing - 1, i),
        resolved(tokens)[landing].name() == Some(target_at(tokens, i)),
        forall|j: int|
            0 <= j <= tokens.len() && j != landing ==> #[trigger] resolved(tokens)[j].name()
                != Some(target_at(tokens, i)),
{
    let landing = if is_open(tokens[i]) {
        lemma_open_has_partner(tokens, i);
        lemma_landing(tokens, i, close_of(tokens, i));
        close_of(tokens, i) + 1
    } else {
        lemma_close_has_partner(tokens, i);
        lemma_landing(tokens, open_of(tokens, i), i);
        open_of(tokens, i) + 1
    };
    lemma_resolved_well_formed(tokens);
    let list = resolved(tokens);
    assert(list[landing].name() == label_at(tokens, landing));
    assert forall|j: int| 0 <= j <= tokens.len() && j != landing implies #[trigger] list[j].name()
        != Some(target_at(tokens, i)) by {
        if j < landing {
            assert(list[j].name() is Some ==> list[j].name() != list[landing].name());
        } else {
            assert(list[landing].name() != list[j].name());
        }
    }
    landing
}

/// No two brackets of a balanced sequence jump to the same label.
pub proof fn lemma_targets_differ(tokens: Seq<Token>, first: int, second: int)
    requires
        balanced(tokens),
        2 * pair_count(tokens) <= u32::MAX,
        0 <= first < tokens.len(),
        0 <= second < tokens.len(),
        first != second,
        step(tokens[first]) != 0,
        step(tokens[second]) != 0,
    ensures
        target_at(tokens, first) != target_at(tokens, second),
{
    lemma_pair_number_bound(tokens, first);
    lemma_pair_number_bound(tokens, second);
    if step(tokens[first]) == step(tokens[second]) && pair_number(tokens, first) == pair_number(
        tokens,
        second,
    ) {
        lemma_one_pair_one_bracket(tokens, first, second);
    }
}

/// The labels that stand on the first `upto` instructions.
spec fn names_upto(instructions: Seq<Instruction>, upto: int) -> Set<int> {
    Set::new(
        |n: int|
            exists|j: int|
                0 <= j < upto && (#[trigger] instructions[j]).name() is Some
                    && instructions[j].name()->0 == n,
    )
}

proof fn lemma_names_upto(instructions: Seq<Instruction>, upto: int, count: int)
    requires
        0 <= upto <= instructions.len(),
        labels_fit(instructions, upto, count),
    ensures
        names_upto(instructions, upto).finite(),
        names_upto(instructions, upto).len() == named_count(instructions.take(upto)),
        names_upto(instructions, upto).subset_of(set_int_range(0, count)),
    decreases upto,
{
    let names = names_upto(instructions, upto);
    if upto == 0 {
        assert(names =~= Set::<int>::empty());
    } else {
        let earlier = names_upto(instructions, upto - 1);
        lemma_names_upto(instructions, upto - 1, count);
        assert(instructions.take(upto).drop_last() == instructions.take(upto - 1));
        assert(instructions.take(upto).last() == instructions[upto - 1]);
        match instructions[upto - 1].name() {
            Some(name) => {
                assert forall|n: int| names.contains(n) <==> earlier.insert(name as int).contains(
                    n,
                ) by {
                    if earlier.contains(n) {
                        let j = choose|j: int|
                            0 <= j < upto - 1 && (#[trigger] instructions[j]).name() is Some
                                && instructions[j].name()->0 == n;
                        assert(0 <= j < upto);
                    }
                }
                assert(names =~= earlier.insert(name as int));
                assert(!earlier.contains(name as int)) by {
                    if earlier.contains(name as int) {
                        let j = choose|j: int|
                            0 <= j < upto - 1 && (#[trigger] instructions[j]).name() is Some
                                && instructions[j].name()->0 == name as int;
                        assert(instructions[j].name() != instructions[upto - 1].name());
                    }
                }
            },
            None => {
                assert forall|n: int| names.contains(n) <==> earlier.contains(n) by {
                    if earlier.contains(n) {
                        let j = choose|j: int|
                            0 <= j < upto - 1 && (#[trigger] instructions[j]).name() is Some
                                && instructions[j].name()->0 == n;
                        assert(0 <= j < upto);
                    }
                }
                assert(names =~= earlier);
            },
        }
    }
}

/// Labels are 32 bits wide: more than 2^32 of them cannot all differ.
pub proof fn lemma_too_many_labels(instructions: Seq<Instruction>, upto: int)
    requires
        0 <= upto <= instructions.len(),
        named_count(instructions.take(upto)) > 0x1_0000_0000,
    ensures
        !labels_well_formed(instructions),
{
    if labels_well_formed(instructions) {
        let limit = 0x1_0000_0000int;
        assert(labels_fit(instructions, upto, limit));
        lemma_names_upto(instructions, upto, limit);
        lemma_int_range(0, limit);
        lemma_len_subset(names_upto(instructions, upto), set_int_range(0, limit));
    }
}

/// With well-formed labels every number below the count of labels stands on
/// an instruction.
pub proof fn lemma_every_label_stands(instructions: Seq<Instruction>, name: u32) -> (at: int)
    requires
        labels_well_formed(instructions),
        name < named_count(instructions),
    ensures
        0 <= at < instructions.len(),
        instructions[at].name() == Some(name),
{
    let count = named_count(instructions) as int;
    let upto = instructions.len() as int;
    let names = names_upto(instructions, upto);
    lemma_names_upto(instructions, upto, count);
    assert(instructions.take(upto) == instructions);
    lemma_int_range(0, count);
    lemma_subset_equality(names, set_int_range(0, count));
    assert(set_int_range(0, count).contains(name as int));
    assert(names.contains(name as int));
    choose|j: int|
        0 <= j < upto && (#[trigger] instructions[j]).name() is Some && instructions[j].name()->0
            == name as int
}

/// Only an instruction behind a bracket carries a label.
pub proof fn lemma_labels_behind_brackets(tokens: Seq<Token>, i: int)
    requires
        0 <= i <= tokens.len(),
    ensures
        resolved(tokens)[i].name() is Some <==> 0 < i && step(tokens[i - 1]) != 0,
{
    assert(resolved(tokens)[i].name() == label_at(tokens, i));
}

/// The pair whose closing bracket is the `k`-th, counted from zero, owns the
/// labels `2k` and `2k + 1`: the first stands behind its opening bracket and
/// is the target of its closing bracket, the second stands behind its
/// closing bracket and is the target of its opening bracket.
pub proof fn lemma_pair_labels(tokens: Seq<Token>, open: int, close: int)
    requires
        balanced(tokens),
        2 * pair_count(tokens) <= u32::MAX,
        matched(tokens, open, close),
    ensures
        0 <= closes_before(tokens, close) < pair_count(tokens),
        resolved(tokens)[open + 1].name() == Some((2 * closes_before(tokens, close)) as u32),
        resolved(tokens)[close].target() == Some((2 * closes_before(tokens, close)) as u32),
        resolved(tokens)[close + 1].name() == Some((2 * closes_before(tokens, close) + 1) as u32),
        resolved(tokens)[open].target() == Some((2 * closes_before(tokens, close) + 1) as u32),
{
    lemma_close_of(tokens, open, close);
    lemma_close_rank(tokens, close, close);
    let list = resolved(tokens);
    assert(list[open + 1].name() == label_at(tokens, open + 1));
    assert(list[close + 1].name() == label_at(tokens, close + 1));
    assert(list[close].target() == Some(target_at(tokens, close)));
    assert(list[open].target() == Some(target_at(tokens, open)));
}

/// The labels of the resolved program of a balanced sequence are exactly the
/// numbers below twice the number of pairs: each stands on one instruction,
/// every bracket jumps to one of them, and each is the target of one
/// bracket.
pub proof fn lemma_labels_exact(tokens: Seq<Token>)
    requires
        balanced(tokens),
        2 * pair_count(tokens) <= u32::MAX,
    ensures
        labels_exact(resolved(tokens), 2 * pair_count(tokens)),
{
    let list = resolved(tokens);
    let count = 2 * pair_count(tokens);
    lemma_resolved_well_formed(tokens);
    assert forall|label: u32| label < count implies #[trigger] stands(list, label) by {
        let i = lemma_every_label_stands(list, label);
        assert(list[i].name() == Some(label));
    }
    assert forall|i: int| 0 <= i < list.len() implies (#[trigger] list[i].target() matches Some(
        target,
    ) ==> target < count) by {
        if list[i].target() is Some {
            assert(list[i] is Branch);
        }
    }
    assert forall|label: u32| label < count implies #[trigger] targeted(list, label) by {
        let at = lemma_every_label_stands(list, label);
        lemma_labels_behind_brackets(tokens, at);
        let bracket = at - 1;
        let partner = if is_open(tokens[bracket]) {
            lemma_open_has_partner(tokens, bracket);
            lemma_pair_labels(tokens, bracket, close_of(tokens, bracket));
            close_of(tokens, bracket)
        } else {
            lemma_close_has_partner(tokens, bracket);
            lemma_pair_labels(tokens, open_of(tokens, bracket), bracket);
            open_of(tokens, bracket)
        };
        assert(list[partner].target() == Some(label));
    }
    assert forall|i: int, j: int|
        0 <= i < j < list.len() && list[i].target() is Some implies #[trigger] list[i].target()
        != #[trigger] list[j].target() by {
        if list[j].target() is Some {
            assert(list[i].target() == Some(target_at(tokens, i)));
            assert(list[j].target() == Some(target_at(tokens, j)));
            lemma_targets_differ(tokens, i, j);
        }
    }
}

/// `couples` lists the pairs whose closing bracket is among the first `seen`
/// tokens, by number.
spec fn pairs_found(tokens: Seq<Token>, couples: Seq<(usize, usize)>, seen: int) -> bool {
    &&& couples.len() == closes_before(tokens, seen)
    &&& forall|m: int|
        0 <= m < couples.len() ==> {
            &&& matched(tokens, (#[trigger] couples[m]).0 as int, couples[m].1 as int)
            &&& closes_before(tokens, couples[m].1 as int) == m
        }
}

/// `waiting` holds the opening brackets among the first `seen` tokens that
/// have no partner yet, the innermost last.
spec fn pending_opens(tokens: Seq<Token>, waiting: Seq<usize>, seen: int) -> bool {
    &&& waiting.len() == depth(tokens, seen)
    &&& forall|j: int|
        0 <= j < waiting.len() ==> {
            &&& 0 <= #[trigger] waiting[j] < seen
            &&& is_open(tokens[waiting[j] as int])
            &&& depth(tokens, waiting[j] as int) == j
        }
    &&& forall|j: int, k: int|
        0 <= j < waiting.len() && waiting[j] < k <= seen ==> #[trigger] depth(tokens, k)
            > #[trigger] depth(tokens, waiting[j] as int)
}

/// The brackets `open` and `close` of a pair, and no others, have its number.
proof fn lemma_pair_members(tokens: Seq<Token>, open: int, close: int, i: int)
    requires
        balanced(tokens),
        matched(tokens, open, close),
        0 <= i < tokens.len(),
        step(tokens[i]) != 0,
    ensures
        pair_number(tokens, i) == closes_before(tokens, close) <==> (i == open || i == close),
{
    lemma_close_of(tokens, open, close);
    if pair_number(tokens, i) == closes_before(tokens, close) {
        if is_open(tokens[i]) {
            lemma_one_pair_one_bracket(tokens, i, open);
        } else {
            lemma_one_pair_one_bracket(tokens, i, close);
        }
    }
}

/// Resolves the loops of a program: gives every bracket pair its two labels
/// and every bracket its target, and appends the end marker. Fails if the
/// brackets are not balanced.
///
/// The pair whose closing bracket is the `k`-th owns the labels `2k` and
/// `2k + 1` (`lemma_pair_labels`).
///
/// Labels are `u32`, so the labels of a balanced program must fit: it may
/// have up to 2^31 - 1 pairs. A program of at most `u32::MAX` tokens always
/// meets this (`lemma_pair_count_bound`).
pub fn parse(tokens: Vec<Token>) -> (r: Result<Vec<Instruction>, Error>)
    requires
        balanced(tokens@) ==> 2 * pair_count(tokens@) <= u32::MAX,
    ensures
        r is Ok <==> balanced(tokens@),
        match r {
            Ok(instructions) => parsed(tokens@) == Ok::<Seq<Instruction>, Error>(instructions@),
            Err(e) => parsed(tokens@) == Err::<Seq<Instruction>, Error>(e),
        },
        r matches Ok(instructions) ==> well_formed(instructions@) && labels_exact(
            instructions@,
            2 * pair_count(tokens@),
        ),
{
    let ghost t = tokens@;
    // opening brackets that wait for their partner
    let mut waiting: Vec<usize> = Vec::new();
    let mut couples: Vec<(usize, usize)> = Vec::new();
    let mut instructions: Vec<Instruction> = Vec::new();

    let mut index: usize = 0;
    while index < tokens.len()
        invariant
            t == tokens@,
            index <= t.len(),
            instructions@.len() == index,
            forall|j: int| 0 <= j < index ==> instructions@[j] == Instruction::unresolved(t[j]),
            forall|k: int| 0 <= k <= index ==> #[trigger] depth(t, k) >= 0,
            pending_opens(t, waiting@, index as int),
            pairs_found(t, couples@, index as int),
        decreases t.len() - index,
    {
        let ins = Instruction::from_token(tokens[index]);
        let ghost before = waiting@;
        assert(depth(t, index + 1) == depth(t, index as int) + step(t[index as int]));
        assert(closes_before(t, index + 1) == closes_before(t, index as int) + if is_close(
            t[index as int],
        ) {
            1int
        } else {
            0int
        });
        match ins {
            Instruction::Branch { instruction: Branch::JumpZero, .. } => {
                waiting.push(index);
            },
            Instruction::Branch { instruction: Branch::JumpNotZero, .. } => {
                match waiting.pop() {
                    Some(open) => {
                        assert(open == before[before.len() - 1]);
                        assert(matched(t, open as int, index as int));
                        couples.push((open, index));
                    },
                    None => {
                        // a closing bracket with nothing open
                        assert(depth(t, index + 1) < 0);
                        return Err(Error::UnmatchedBracket);
                    },
                }
            },
            _ => {},
        }
        instructions.push(ins);
        index += 1;
    }

    instructions.push(Instruction::End { name: None });

    if waiting.len() != 0 {
        // an opening bracket that is never closed
        return Err(Error::UnmatchedBracket);
    }
    assert(balanced(t));
    assert forall|i: int| 0 <= i <= t.len() implies #[trigger] instructions@[i]
        == instruction_upto(t, i, 0) by {
        lemma_pair_number_nonnegative(t, i - 1);
        lemma_pair_number_nonnegative(t, i);
    }

    let mut label: u32 = 0;
    let mut number: usize = 0;
    while number < couples.len()
        invariant
            t == tokens@,
            balanced(t),
            2 * pair_count(t) <= u32::MAX,
            pairs_found(t, couples@, t.len() as int),
            number <= couples@.len(),
            label == 2 * number,
            instructions@.len() == t.len() + 1,
            forall|i: int|
                0 <= i <= t.len() ==> #[trigger] instructions@[i] == instruction_upto(
                    t,
                    i,
                    number as int,
                ),
        decreases couples@.len() - number,
    {
        let (open, close) = couples[number];
        let ghost before = instructions@;
        assert(matched(t, couples@[number as int].0 as int, couples@[number as int].1 as int));

        instructions[open + 1].set_name(label);
        instructions[close].set_jump_to_name(label)?;

        label += 1;

        instructions[close + 1].set_name(label);
        instructions[open].set_jump_to_name(label)?;

        label += 1;

        proof {
            assert forall|i: int| 0 <= i <= t.len() implies #[trigger] instructions@[i]
                == instruction_upto(t, i, number + 1) by {
                assert(before[i] == instruction_upto(t, i, number as int));
                if 0 < i && step(t[i - 1]) != 0 {
                    lemma_pair_members(t, open as int, close as int, i - 1);
                }
                if i < t.len() && step(t[i]) != 0 {
                    lemma_pair_members(t, open as int, close as int, i);
                }
            }
        }
        number += 1;
    }

    proof {
        assert forall|i: int| 0 <= i <= t.len() implies #[trigger] instructions@[i]
            == instruction_at(t, i) by {
            assert(instructions@[i] == instruction_upto(t, i, pair_count(t)));
            if 0 < i && step(t[i - 1]) != 0 {
                lemma_pair_number_bound(t, i - 1);
            }
            if i < t.len() && step(t[i]) != 0 {
                lemma_pair_number_bound(t, i);
            }
        }
        assert(instructions@ =~= resolved(t));
        lemma_resolved_well_formed(t);
        lemma_labels_exact(t);
    }
    Ok(instructions)
}

} // verus!
