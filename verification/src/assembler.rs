//! The assembly pipeline: lexer, parser, semantic validation and
//! two-pass code generation.
//!
//! `assemble` is the single entry point: bytes of source text in, the
//! program image out, or the first error any stage reports.

pub mod codegenerator;
pub mod laws;
pub mod lexer;
pub mod parser;
pub mod semantics;

use vstd::prelude::*;

use crate::assembler::codegenerator::{spec_generate, CodeGenerator, CodegenError};
use crate::assembler::lexer::{spec_tokenize, tokenize, tokens_view, LexerError};
use crate::assembler::parser::{exprs_view, parse, spec_parse, ParserError};

verus! {

/// The first error the pipeline reports, by stage.
#[derive(Debug)]
pub enum AssemblerError {
    Lexer(LexerError),
    Parser(ParserError),
    Codegen(CodegenError),
}

/// The stage-level value of an `AssemblerError`.
pub enum AsmError {
    Lexing,
    Parsing,
    Generating(CodegenError),
}

/// The whole pipeline as one mathematical function: tokenize, parse,
/// then generate.
pub open spec fn spec_assemble(s: Seq<u8>) -> Result<Seq<u8>, AsmError> {
    match spec_tokenize(s) {
        None => Err(AsmError::Lexing),
        Some(ts) => match spec_parse(ts) {
            None => Err(AsmError::Parsing),
            Some(es) => match spec_generate(es) {
                Ok(bytes) => Ok(bytes),
                Err(e) => Err(AsmError::Generating(e)),
            },
        },
    }
}

/// Consume input data and assemble the code: the emitted bytes are
/// exactly what the pipeline model gives for this input, and an error
/// is returned exactly when the model rejects it, from the same
/// stage.
pub fn assemble(input_data: Vec<u8>) -> (r: Result<Vec<u8>, AssemblerError>)
    ensures
        (match r {
            Ok(out) => spec_assemble(input_data@) == Ok::<Seq<u8>, AsmError>(out@),
            Err(AssemblerError::Lexer(_)) => spec_assemble(input_data@) == Err::<
                Seq<u8>,
                AsmError,
            >(AsmError::Lexing),
            Err(AssemblerError::Parser(_)) => spec_assemble(input_data@) == Err::<
                Seq<u8>,
                AsmError,
            >(AsmError::Parsing),
            Err(AssemblerError::Codegen(e)) => spec_assemble(input_data@) == Err::<
                Seq<u8>,
                AsmError,
            >(AsmError::Generating(e)),
        }),
{
    // transform input data into tokens
    let tokens = match tokenize(input_data.as_slice()) {
        Ok(ts) => ts,
        Err(e) => {
            return Err(AssemblerError::Lexer(e));
        },
    };
    // transform tokens into expressions
    let exprs = match parse(tokens) {
        Ok(es) => es,
        Err(e) => {
            return Err(AssemblerError::Parser(e));
        },
    };
    // generate opcodes from the expressions
    let codegen = CodeGenerator::new();
    match codegen.generate(exprs) {
        Ok(opcodes) => Ok(opcodes),
        Err(e) => Err(AssemblerError::Codegen(e)),
    }
}

} // verus!
