//! A verified two-pass assembler for the CHIP-8 instruction set.
//!
//! The pipeline turns CHIP-8 assembly source text into a byte image
//! suitable for loading into a CHIP-8 interpreter at address 0x200:
//!
//! bytes -> lexer -> tokens -> parser -> expressions -> semantic
//! validation -> two-pass code generation -> bytes
//!
//! Every stage is specified against a mathematical model and verified.

pub mod assembler;
pub mod options;
