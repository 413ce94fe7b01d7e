//! An interpreter for a Hangul-syllable-driven esoteric stack language.
//!
//! Source text is scanned for trigger syllables that denote stack
//! operations, trailing dot glyphs that supply a numeric magnitude, and
//! heart glyphs that build a per-instruction branch expression.  Execution
//! is a stack machine over exact rational numbers with an explicit
//! non-numeric poison state.

mod parser;
mod processor;
mod rational;
mod stack;
mod structure;
mod utf8;

pub use crate::parser::HangulStartType;
pub use crate::parser::Parser;
pub use crate::parser::Token;
pub use crate::processor::Processor;
pub use crate::rational::HyeongRational;
pub use crate::rational::RatValue;
pub use crate::stack::HeartResult;
pub use crate::stack::HyeongReadStack;
pub use crate::stack::HyeongWriteStack;
pub use crate::stack::StackManager;
pub use crate::structure::HeartTree;
pub use crate::structure::Instruction;
pub use crate::structure::Operation;
pub use crate::structure::OperationType;
pub use crate::utf8::read_codepoint;
