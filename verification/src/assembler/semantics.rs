//! The semantic validator: enforces per-mnemonic operand arity and
//! kinds, and the argument shapes of the directives.  It is a pure
//! table lookup on the head of each expression.

use vstd::prelude::*;
use vstd::string::StringExecFns;

use crate::assembler::lexer::{
    classify_directive, classify_mnemonic, dir_of, mnem_of, tokens_view, DirKind, Mnemonic, Token,
    TokenV,
};
use crate::assembler::parser::Expression;

verus! {

/// Error returned for an expression with the wrong operand count or
/// operand kinds.
#[derive(Debug)]
pub struct SemanticsError {
    message: String,
}

impl SemanticsError {
    pub(crate) fn new(msg: &str) -> SemanticsError {
        SemanticsError { message: String::from_str(msg) }
    }
}

/// The argument shape of a directive: `org` takes exactly one numeric
/// literal, `db` one or more.
pub open spec fn valid_directive(d: DirKind, e: Seq<TokenV>) -> bool {
    match d {
        DirKind::Org => e.len() == 2 && e[1] is NumericLiteral,
        DirKind::Db => e.len() >= 2 && forall|k: int|
            1 <= k < e.len() ==> (#[trigger] e[k]) is NumericLiteral,
    }
}

/// The operand shape of an instruction, by mnemonic.  `R` is any
/// register token, `N` a numeric literal, `A` an address: a numeric
/// literal or a label operand.  `SYS` has no encoding and no operand
/// rule here; the code generator rejects it.
pub open spec fn valid_instruction(m: Mnemonic, e: Seq<TokenV>) -> bool {
    match m {
        Mnemonic::Cls => e.len() == 1,
        Mnemonic::Ret => e.len() == 1,
        Mnemonic::Jp => e.len() == 2 && (e[1] is NumericLiteral || e[1] is LabelOperand),
        Mnemonic::Jr => e.len() == 2 && (e[1] is NumericLiteral || e[1] is LabelOperand),
        Mnemonic::Call => e.len() == 2 && (e[1] is NumericLiteral || e[1] is LabelOperand),
        Mnemonic::Se => e.len() == 3 && e[1] is Register && (e[2] is NumericLiteral
            || e[2] is Register),
        Mnemonic::Sne => e.len() == 3 && e[1] is Register && (e[2] is NumericLiteral
            || e[2] is Register),
        Mnemonic::Ld => e.len() == 3 && e[1] is Register && (e[2] is NumericLiteral
            || e[2] is Register || e[2] is LabelOperand),
        Mnemonic::Or => e.len() == 3 && e[1] is Register && e[2] is Register,
        Mnemonic::And => e.len() == 3 && e[1] is Register && e[2] is Register,
        Mnemonic::Xor => e.len() == 3 && e[1] is Register && e[2] is Register,
        Mnemonic::Sub => e.len() == 3 && e[1] is Register && e[2] is Register,
        Mnemonic::Subn => e.len() == 3 && e[1] is Register && e[2] is Register,
        Mnemonic::Shl => e.len() == 3 && e[1] is Register && e[2] is Register,
        Mnemonic::Shr => e.len() == 3 && e[1] is Register && e[2] is Register,
        Mnemonic::Add => e.len() == 3 && e[1] is Register && (e[2] is Register
            || e[2] is NumericLiteral),
        Mnemonic::Rnd => e.len() == 3 && e[1] is Register && e[2] is NumericLiteral,
        Mnemonic::Drw => e.len() == 4 && e[1] is Register && e[2] is Register
            && e[3] is NumericLiteral,
        Mnemonic::Skp => e.len() == 2 && e[1] is Register,
        Mnemonic::Sknp => e.len() == 2 && e[1] is Register,
        Mnemonic::Sys => true,
    }
}

/// Whether an expression is semantically correct.  A label declaration
/// is always valid; a directive must be a known directive with the
/// right arguments; an instruction must obey its mnemonic's table row,
/// with mnemonics outside the table accepted here and rejected by the
/// code generator.
pub open spec fn valid_expr(e: Seq<TokenV>) -> bool {
    e.len() > 0 && match e[0] {
        TokenV::Label(_) => true,
        TokenV::Directive(name) => match dir_of(name) {
            Some(d) => valid_directive(d, e),
            None => false,
        },
        TokenV::Instruction(name) => match mnem_of(name) {
            Some(m) => valid_instruction(m, e),
            None => true,
        },
        _ => false,
    }
}

/// Check an expression and ensure it is semantically correct.
pub fn check(expr: &Expression) -> (r: Result<(), SemanticsError>)
    ensures
        r.is_ok() == valid_expr(tokens_view(expr@)),
{
    let ghost ev = tokens_view(expr@);
    if expr.len() == 0 {
        return Err(SemanticsError::new("Empty expression"));
    }
    match &expr[0] {
        Token::Label(_) => Ok(()),
        Token::Directive(name) => {
            match classify_directive(name.as_slice()) {
                Some(DirKind::Org) => {
                    if expr.len() != 2 {
                        return Err(
                            SemanticsError::new(
                                "Invalid number of tokens for directive expression",
                            ),
                        );
                    }
                    if expr[1].is_numeric_literal() {
                        Ok(())
                    } else {
                        Err(SemanticsError::new("Invalid token in directive expression"))
                    }
                },
                Some(DirKind::Db) => {
                    if expr.len() < 2 {
                        return Err(
                            SemanticsError::new(
                                "Invalid number of tokens for directive expression",
                            ),
                        );
                    }
                    let mut k: usize = 1;
                    while k < expr.len()
                        invariant
                            1 <= k <= expr.len(),
                            expr@.len() >= 2,
                            ev == tokens_view(expr@),
                            ev.len() == expr@.len(),
                            (match ev[0] {
                                TokenV::Directive(nm) => dir_of(nm) == Some(DirKind::Db),
                                _ => false,
                            }),
                            forall|j: int| 1 <= j < k ==> (#[trigger] ev[j]) is NumericLiteral,
                        decreases expr.len() - k,
                    {
                        if !expr[k].is_numeric_literal() {
                            proof {
                                assert(ev[k as int] == expr@[k as int]@);
                                assert(!(ev[k as int] is NumericLiteral));
                                assert(!valid_directive(DirKind::Db, ev));
                                assert(!valid_expr(ev));
                            }
                            return Err(
                                SemanticsError::new("Invalid token in directive expression"),
                            );
                        }
                        k = k + 1;
                    }
                    Ok(())
                },
                None => Err(SemanticsError::new("Unknown directive")),
            }
        },
        Token::Instruction(instr) => {
            // copy the name so the borrow on `expr` is free again for
            // the per-mnemonic check
            let name = crate::assembler::lexer::clone_bytes(instr);
            check_instruction_semantics(&name, expr)
        },
        _ => Err(SemanticsError::new("Invalid start of expression")),
    }
}

/// The per-mnemonic arity and operand-kind table.
fn check_instruction_semantics(instr: &Vec<u8>, expr: &Expression) -> (r: Result<
    (),
    SemanticsError,
>)
    requires
        expr@.len() > 0,
        tokens_view(expr@)[0] == TokenV::Instruction(instr@),
    ensures
        r.is_ok() == valid_expr(tokens_view(expr@)),
{
    let ghost ev = tokens_view(expr@);
    match classify_mnemonic(instr.as_slice()) {
        None => Ok(()),
        Some(m) => {
            match m {
                Mnemonic::Cls => {
                    if expr.len() == 1 {
                        Ok(())
                    } else {
                        Err(SemanticsError::new("CLS has no operands"))
                    }
                },
                Mnemonic::Ret => {
                    if expr.len() == 1 {
                        Ok(())
                    } else {
                        Err(SemanticsError::new("RET has no operands"))
                    }
                },
                Mnemonic::Jp => check_address_operand(expr),
                Mnemonic::Jr => check_address_operand(expr),
                Mnemonic::Call => check_address_operand(expr),
                Mnemonic::Se => check_reg_then_reg_or_num(expr),
                Mnemonic::Sne => check_reg_then_reg_or_num(expr),
                Mnemonic::Ld => {
                    if expr.len() == 3 {
                        if expr[1].is_register() && (expr[2].is_numeric_literal()
                            || expr[2].is_register() || expr[2].is_label_operand()) {
                            Ok(())
                        } else {
                            Err(SemanticsError::new("Invalid operands for LD instruction"))
                        }
                    } else {
                        Err(SemanticsError::new("Invalid number of operands for LD expression"))
                    }
                },
                Mnemonic::Or => check_two_registers(expr),
                Mnemonic::And => check_two_registers(expr),
                Mnemonic::Xor => check_two_registers(expr),
                Mnemonic::Sub => check_two_registers(expr),
                Mnemonic::Subn => check_two_registers(expr),
                Mnemonic::Shl => check_two_registers(expr),
                Mnemonic::Shr => check_two_registers(expr),
                Mnemonic::Add => {
                    if expr.len() == 3 {
                        if expr[1].is_register() && (expr[2].is_register()
                            || expr[2].is_numeric_literal()) {
                            Ok(())
                        } else {
                            Err(SemanticsError::new("Invalid operands for ADD instruction"))
                        }
                    } else {
                        Err(SemanticsError::new("Invalid number of operands for ADD expression"))
                    }
                },
                Mnemonic::Rnd => {
                    if expr.len() == 3 {
                        if expr[1].is_register() && expr[2].is_numeric_literal() {
                            Ok(())
                        } else {
                            Err(SemanticsError::new("Invalid operands for RND instruction"))
                        }
                    } else {
                        Err(SemanticsError::new("Invalid number of operands for RND expression"))
                    }
                },
                Mnemonic::Drw => {
                    if expr.len() == 4 {
                        if expr[1].is_register() && expr[2].is_register()
                            && expr[3].is_numeric_literal() {
                            Ok(())
                        } else {
                            Err(SemanticsError::new("Invalid operands for DRW instruction"))
                        }
                    } else {
                        Err(SemanticsError::new("Invalid number of operands for DRW expression"))
                    }
                },
                Mnemonic::Skp => {
                    if expr.len() == 2 {
                        if expr[1].is_register() {
                            Ok(())
                        } else {
                            Err(SemanticsError::new("Invalid operands for SKP instruction"))
                        }
                    } else {
                        Err(SemanticsError::new("Invalid number of operands for SKP expression"))
                    }
                },
                Mnemonic::Sknp => {
                    if expr.len() == 2 {
                        if expr[1].is_register() {
                            Ok(())
                        } else {
                            Err(SemanticsError::new("Invalid operands for SKNP instruction"))
                        }
                    } else {
                        Err(SemanticsError::new("Invalid number of operands for SKNP expression"))
                    }
                },
                Mnemonic::Sys => Ok(()),
            }
        },
    }
}

/// Arity 1 with an address operand: a numeric literal or a label
/// operand.
fn check_address_operand(expr: &Expression) -> (r: Result<(), SemanticsError>)
    requires
        expr@.len() > 0,
    ensures
        r.is_ok() == (expr@.len() == 2 && (tokens_view(expr@)[1] is NumericLiteral || tokens_view(
            expr@,
        )[1] is LabelOperand)),
{
    if expr.len() == 2 {
        if expr[1].is_numeric_literal() || expr[1].is_label_operand() {
            Ok(())
        } else {
            Err(SemanticsError::new("Invalid operand for instruction"))
        }
    } else {
        Err(SemanticsError::new("Invalid number of operands for expression"))
    }
}

/// Arity 2 with a register first and a register or numeric literal
/// second.
fn check_reg_then_reg_or_num(expr: &Expression) -> (r: Result<(), SemanticsError>)
    requires
        expr@.len() > 0,
    ensures
        r.is_ok() == (expr@.len() == 3 && tokens_view(expr@)[1] is Register && (tokens_view(
            expr@,
        )[2] is NumericLiteral || tokens_view(expr@)[2] is Register)),
{
    if expr.len() == 3 {
        if expr[1].is_register() && (expr[2].is_numeric_literal() || expr[2].is_register()) {
            Ok(())
        } else {
            Err(SemanticsError::new("Invalid operands for instruction"))
        }
    } else {
        Err(SemanticsError::new("Invalid number of operands for expression"))
    }
}

/// Arity 2 with two register operands.
fn check_two_registers(expr: &Expression) -> (r: Result<(), SemanticsError>)
    requires
        expr@.len() > 0,
    ensures
        r.is_ok() == (expr@.len() == 3 && tokens_view(expr@)[1] is Register && tokens_view(
            expr@,
        )[2] is Register),
{
    if expr.len() == 3 {
        if expr[1].is_register() && expr[2].is_register() {
            Ok(())
        } else {
            Err(SemanticsError::new("Invalid operands for instruction"))
        }
    } else {
        Err(SemanticsError::new("Invalid number of operands for expression"))
    }
}

} // verus!
