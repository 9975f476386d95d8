//! A two-pass textual assembler for a small register-based virtual machine.
//!
//! Source text is parsed line by line into a sequence of instruction
//! descriptors (`program::Instruction`); the encoder then resolves symbolic
//! labels to byte offsets and serializes the descriptors into a flat binary
//! instruction stream.

pub mod program;
pub mod encode;
pub mod parse;
pub mod text;
