//! Evaluation of tabletop dice expressions: dice rolling with modifiers, a
//! value algebra that keeps a readable trace, named attributes and batches.

pub mod text;
pub mod num;
pub mod cons;
pub mod dice;
pub mod attrs;
pub mod token;
pub mod eval;
pub mod batch;
pub mod pratt;
