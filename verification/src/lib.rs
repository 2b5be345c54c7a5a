//! A verified compiler and interpreter for the classic eight-symbol tape
//! language: lowering from source bytes to an instruction IR, a bracket
//! linker, a pipeline of peephole optimisations run to a fixed point, a
//! big-endian bytecode codec, and an interpreter over a 65,536-byte ring
//! tape.

pub mod bytecode;
pub mod equiv;
pub mod error;
pub mod instruction;
pub mod interpret;
pub mod link;
pub mod lower;
pub mod optimise;
pub mod transformers;
