//! Instructions and the per-instruction heart expression tree.
//!
//! An instruction carries an operation (one of six kinds, with a repeat
//! count), a magnitude derived from trailing dot glyphs, and a heart tree
//! that decides control flow after the operation runs.

use vstd::prelude::*;

verus! {

/// The six stack operations of the language.
#[derive(Debug, Copy, Clone, PartialEq, Eq)]
pub enum OperationType {
    Push,
    Add,
    Multiply,
    Negate,
    Reciprocate,
    Duplicate,
}

/// An operation kind together with its repeat count (number of Hangul
/// syllables scanned while recognising it, at least 1).
#[derive(Debug, Copy, Clone, PartialEq, Eq)]
pub struct Operation {
    pub op_type: OperationType,
    pub hangul_count: usize,
}

/// The binary branch expression built from heart glyphs.
///
/// Leaves are a recognised heart glyph (by its table index), the return
/// heart, or `Nil` (no glyph).  Inner nodes compare a popped value with
/// the instruction's parameter: `Equals` for equality, `LessThan` for
/// strict order.
#[derive(Debug, PartialEq, Eq)]
pub enum HeartTree {
    Heart(usize),
    Return,
    LessThan(Box<HeartTree>, Box<HeartTree>),
    Equals(Box<HeartTree>, Box<HeartTree>),
    Nil,
}

/// One parsed instruction: an operation, a dot-derived magnitude and a
/// heart tree.
#[derive(Debug, PartialEq, Eq)]
pub struct Instruction {
    pub op: Operation,
    pub dots: usize,
    pub hearts: HeartTree,
}

impl Instruction {
    pub fn new(op: Operation, dots: usize, hearts: HeartTree) -> (r: Self)
        ensures
            r == (Instruction { op, dots, hearts }),
    {
        Instruction { op, dots, hearts }
    }

    pub fn operation_type(&self) -> (r: OperationType)
        ensures
            r == self.op.op_type,
    {
        self.op.op_type
    }

    pub fn hangul_count(&self) -> (r: usize)
        ensures
            r == self.op.hangul_count,
    {
        self.op.hangul_count
    }

    pub fn dots(&self) -> (r: usize)
        ensures
            r == self.dots,
    {
        self.dots
    }

    /// The parameter that heart trees are evaluated against: repeat count
    /// times magnitude.
    pub fn hangul_times_dots(&self) -> (r: u64)
        requires
            self.op.hangul_count * self.dots <= u64::MAX,
        ensures
            r == self.op.hangul_count * self.dots,
    {
        (self.op.hangul_count as u64) * (self.dots as u64)
    }

    pub fn heart_tree(&self) -> (r: &HeartTree)
        ensures
            r == &self.hearts,
    {
        &self.hearts
    }
}

/// Size bounds that every parsed instruction satisfies: the repeat
/// count is at least one, and repeat count times magnitude fits
/// comfortably in a machine word.
pub open spec fn instr_sized(i: Instruction) -> bool {
    &&& 1 <= i.op.hangul_count <= 0x4000_0000
    &&& i.dots <= 0xc000_0000
    &&& i.op.hangul_count * i.dots <= 0x3000_0000_0000_0000
}

/// The operation denoted by a self-ending trigger syllable.
pub open spec fn op_for_single(c: char) -> OperationType {
    let u = c as u32;
    if u == 0xd615 {
        OperationType::Push
    } else if u == 0xd56d {
        OperationType::Add
    } else if u == 0xd56b {
        OperationType::Multiply
    } else if u == 0xd763 {
        OperationType::Negate
    } else if u == 0xd761 {
        OperationType::Reciprocate
    } else {
        OperationType::Duplicate
    }
}

/// Whether `c` is one of the six self-ending trigger syllables.
pub open spec fn is_single_syllable(c: char) -> bool {
    let u = c as u32;
    u == 0xd615 || u == 0xd56d || u == 0xd56b || u == 0xd763 || u == 0xd761 || u == 0xd751
}

/// The operation denoted by a closing syllable.
pub open spec fn op_for_closer(c: char) -> OperationType {
    let u = c as u32;
    if u == 0xc5c9 {
        OperationType::Push
    } else if u == 0xc559 {
        OperationType::Add
    } else if u == 0xc557 {
        OperationType::Multiply
    } else if u == 0xc74f {
        OperationType::Negate
    } else if u == 0xc74d {
        OperationType::Reciprocate
    } else {
        OperationType::Duplicate
    }
}

/// Whether open syllable `start` is closed by syllable `end`.
pub open spec fn valid_pair(start: char, end: char) -> bool {
    let s = start as u32;
    let e = end as u32;
    if s == 0xd600 {
        e == 0xc5c9
    } else if s == 0xd558 {
        e == 0xc559 || e == 0xc557
    } else if s == 0xd750 {
        e == 0xc74f || e == 0xc74d || e == 0xc73d
    } else {
        false
    }
}

impl Operation {
    /// Builds the operation for a trigger syllable: a self-ending
    /// syllable alone, or an open syllable together with the closing
    /// syllable that resolved it and the accumulated repeat count.
    pub fn from_chars(start: char, end: Option<char>, count: usize) -> (r: Self)
        requires
            match end {
                Some(c) => valid_pair(start, c),
                None => is_single_syllable(start),
            },
        ensures
            r == (match end {
                Some(c) => Operation { op_type: op_for_closer(c), hangul_count: count },
                None => Operation { op_type: op_for_single(start), hangul_count: 1 },
            }),
    {
        match end {
            Some(c) => {
                let u = c as u32;
                Operation {
                    op_type: if u == 0xc5c9 {
                        OperationType::Push
                    } else if u == 0xc559 {
                        OperationType::Add
                    } else if u == 0xc557 {
                        OperationType::Multiply
                    } else if u == 0xc74f {
                        OperationType::Negate
                    } else if u == 0xc74d {
                        OperationType::Reciprocate
                    } else {
                        OperationType::Duplicate
                    },
                    hangul_count: count,
                }
            },
            None => {
                let u = start as u32;
                Operation {
                    op_type: if u == 0xd615 {
                        OperationType::Push
                    } else if u == 0xd56d {
                        OperationType::Add
                    } else if u == 0xd56b {
                        OperationType::Multiply
                    } else if u == 0xd763 {
                        OperationType::Negate
                    } else if u == 0xd761 {
                        OperationType::Reciprocate
                    } else {
                        OperationType::Duplicate
                    },
                    hangul_count: 1,
                }
            },
        }
    }

    /// Builds an operation directly from a self-ending syllable and a
    /// repeat count.
    pub fn from_single_char(op: char, count: usize) -> (r: Self)
        requires
            is_single_syllable(op),
        ensures
            r == (Operation { op_type: op_for_single(op), hangul_count: count }),
    {
        let u = op as u32;
        Operation {
            op_type: if u == 0xd615 {
                OperationType::Push
            } else if u == 0xd56d {
                OperationType::Add
            } else if u == 0xd56b {
                OperationType::Multiply
            } else if u == 0xd763 {
                OperationType::Negate
            } else if u == 0xd761 {
                OperationType::Reciprocate
            } else {
                OperationType::Duplicate
            },
            hangul_count: count,
        }
    }
}

} // verus!
