//! An assembler for the Hack instruction set: it turns a sequence of source
//! lines into a sequence of 16-bit machine words, each emitted as a line of
//! sixteen binary digits.

pub mod code;
pub mod hack;
pub mod laws;
pub mod parse;
