//! The parser: groups the flat token stream into expressions, one per
//! logical source line.  An expression is a label declaration alone, a
//! directive with its numeric arguments, or an instruction with its
//! operands.  Commas are purely syntactic and are dropped here.

use vstd::prelude::*;
use vstd::string::StringExecFns;

use crate::assembler::lexer::{tokens_view, Mnemonic, Token, TokenV};
use crate::assembler::lexer::{classify_mnemonic, mnem_of};

verus! {

/// An expression is a run of tokens standing for one source line.
pub type Expression = Vec<Token>;

/// Error returned when the token stream cannot be grouped into
/// expressions.
#[derive(Debug)]
pub struct ParserError {
    message: String,
}

impl ParserError {
    pub(crate) fn new() -> ParserError {
        ParserError { message: String::from_str("Error parsing tokens") }
    }
}

/// The views of a sequence of expressions.
pub open spec fn exprs_view(es: Seq<Expression>) -> Seq<Seq<TokenV>> {
    es.map_values(|e: Expression| tokens_view(e@))
}

/// Whether a token can stand in an operand position.
pub open spec fn is_operand_tok(t: TokenV) -> bool {
    t is Register || t is NumericLiteral || t is LabelOperand
}

/// The end of the run of numeric literal tokens starting at `i`.
pub open spec fn num_run_end(ts: Seq<TokenV>, i: int) -> int
    decreases ts.len() - i when 0 <= i <= ts.len()
{
    if i < ts.len() && ts[i] is NumericLiteral {
        num_run_end(ts, i + 1)
    } else {
        i
    }
}

pub proof fn lemma_num_run_end(ts: Seq<TokenV>, i: int)
    requires
        0 <= i <= ts.len(),
    ensures
        i <= num_run_end(ts, i) <= ts.len(),
        forall|k: int| i <= k < num_run_end(ts, i) ==> ts[k] is NumericLiteral,
        num_run_end(ts, i) < ts.len() ==> !(ts[num_run_end(ts, i)] is NumericLiteral),
    decreases ts.len() - i,
{
    if i < ts.len() && ts[i] is NumericLiteral {
        lemma_num_run_end(ts, i + 1);
    }
}

/// An optional operand slot in the token stream: the operand token, if
/// one stands at `p`.
pub open spec fn tok_op_slot(ts: Seq<TokenV>, p: int) -> (Seq<TokenV>, int) {
    if 0 <= p < ts.len() && is_operand_tok(ts[p]) {
        (seq![ts[p]], p + 1)
    } else {
        (seq![], p)
    }
}

/// An optional comma in the token stream; consumed and discarded.
pub open spec fn tok_comma_slot(ts: Seq<TokenV>, p: int) -> int {
    if 0 <= p < ts.len() && ts[p] is Comma {
        p + 1
    } else {
        p
    }
}

/// One expression starting at token `i`: a directive with one or more
/// numerics, a label alone, or an instruction with up to two operands
/// (three for `DRW`), separated by optional commas.
pub open spec fn parse_expr_at(ts: Seq<TokenV>, i: int) -> Option<(Seq<TokenV>, int)> {
    if 0 <= i < ts.len() {
        match ts[i] {
            TokenV::Directive(_) => {
                let e = num_run_end(ts, i + 1);
                if e > i + 1 {
                    Some((ts.subrange(i, e), e))
                } else {
                    None
                }
            },
            TokenV::Label(_) => Some((ts.subrange(i, i + 1), i + 1)),
            TokenV::Instruction(name) => {
                let (o1, p1) = tok_op_slot(ts, i + 1);
                let p2 = tok_comma_slot(ts, p1);
                let (o2, p3) = tok_op_slot(ts, p2);
                if mnem_of(name) == Some(Mnemonic::Drw) {
                    let p4 = tok_comma_slot(ts, p3);
                    let (o3, p5) = tok_op_slot(ts, p4);
                    Some((seq![ts[i]] + o1 + o2 + o3, p5))
                } else {
                    Some((seq![ts[i]] + o1 + o2, p3))
                }
            },
            _ => None,
        }
    } else {
        None
    }
}

/// The expressions of the whole token stream from `i` on; `None` when
/// some token cannot begin or complete an expression.
pub open spec fn parse_from(ts: Seq<TokenV>, i: int) -> Option<Seq<Seq<TokenV>>>
    decreases ts.len() - i when 0 <= i <= ts.len()
{
    if i == ts.len() {
        Some(seq![])
    } else {
        match parse_expr_at(ts, i) {
            Some((e, j)) => if i < j <= ts.len() {
                match parse_from(ts, j) {
                    Some(rest) => Some(seq![e] + rest),
                    None => None,
                }
            } else {
                None
            },
            None => None,
        }
    }
}

/// The expression grouping of a token sequence, when it parses.
pub open spec fn spec_parse(ts: Seq<TokenV>) -> Option<Seq<Seq<TokenV>>> {
    parse_from(ts, 0)
}

/// Parse one expression starting at token `i`.
fn parse_one(tokens: &Vec<Token>, i: usize) -> (r: Option<(Expression, usize)>)
    requires
        i < tokens.len(),
    ensures
        (match r {
            Some((e, j)) => parse_expr_at(tokens_view(tokens@), i as int) == Some(
                (tokens_view(e@), j as int),
            ) && i < j <= tokens.len(),
            None => parse_expr_at(tokens_view(tokens@), i as int) is None,
        }),
{
    let ghost tv = tokens_view(tokens@);
    match &tokens[i] {
        Token::Directive(_) => {
            let mut e: Expression = Vec::new();
            e.push(tokens[i].duplicate());
            let mut j: usize = i + 1;
            proof {
                lemma_num_run_end(tv, i + 1);
                assert(tokens_view(e@) =~= tv.subrange(i as int, j as int));
            }
            while j < tokens.len() && tokens[j].is_numeric_literal()
                invariant
                    i + 1 <= j <= tokens.len(),
                    tv == tokens_view(tokens@),
                    tokens_view(e@) =~= tv.subrange(i as int, j as int),
                    num_run_end(tv, i + 1) == num_run_end(tv, j as int),
                    i < tokens.len(),
                decreases tokens.len() - j,
            {
                e.push(tokens[j].duplicate());
                proof {
                    assert(tv.subrange(i as int, j + 1 as int) =~= tv.subrange(
                        i as int,
                        j as int,
                    ).push(tv[j as int]));
                }
                j = j + 1;
            }
            if j > i + 1 {
                Some((e, j))
            } else {
                None
            }
        },
        Token::Label(_) => {
            let mut e: Expression = Vec::new();
            e.push(tokens[i].duplicate());
            proof {
                assert(tokens_view(e@) =~= tv.subrange(i as int, i + 1 as int));
            }
            Some((e, i + 1))
        },
        Token::Instruction(name) => {
            let is_drw = match classify_mnemonic(name.as_slice()) {
                Some(Mnemonic::Drw) => true,
                _ => false,
            };
            let mut e: Expression = Vec::new();
            e.push(tokens[i].duplicate());
            let mut p: usize = i + 1;
            let ghost o1 = tok_op_slot(tv, i + 1 as int).0;
            if p < tokens.len() && is_operand_x(&tokens[p]) {
                e.push(tokens[p].duplicate());
                p = p + 1;
            }
            if p < tokens.len() && matches!(&tokens[p], Token::Comma) {
                p = p + 1;
            }
            let ghost o2 = tok_op_slot(tv, p as int).0;
            if p < tokens.len() && is_operand_x(&tokens[p]) {
                e.push(tokens[p].duplicate());
                p = p + 1;
            }
            if is_drw {
                if p < tokens.len() && matches!(&tokens[p], Token::Comma) {
                    p = p + 1;
                }
                let ghost o3 = tok_op_slot(tv, p as int).0;
                if p < tokens.len() && is_operand_x(&tokens[p]) {
                    e.push(tokens[p].duplicate());
                    p = p + 1;
                }
                proof {
                    assert(tokens_view(e@) =~= seq![tv[i as int]] + o1 + o2 + o3);
                }
                Some((e, p))
            } else {
                proof {
                    assert(tokens_view(e@) =~= seq![tv[i as int]] + o1 + o2);
                }
                Some((e, p))
            }
        },
        _ => None,
    }
}

/// Whether a token can stand in an operand position.
fn is_operand_x(t: &Token) -> (r: bool)
    ensures
        r == is_operand_tok(t@),
{
    match t {
        Token::Register(_) => true,
        Token::NumericLiteral(_) => true,
        Token::LabelOperand(_) => true,
        _ => false,
    }
}

/// Group the token stream into expressions; fails when some token
/// cannot begin or complete an expression.
pub fn parse(tokens: Vec<Token>) -> (r: Result<Vec<Expression>, ParserError>)
    ensures
        (match r {
            Ok(es) => spec_parse(tokens_view(tokens@)) == Some(exprs_view(es@)),
            Err(_) => spec_parse(tokens_view(tokens@)) is None,
        }),
{
    let ghost tv = tokens_view(tokens@);
    let mut es: Vec<Expression> = Vec::new();
    let mut i: usize = 0;
    proof {
        assert(exprs_view(es@) =~= Seq::<Seq<TokenV>>::empty());
    }
    while i < tokens.len()
        invariant
            i <= tokens.len(),
            tv == tokens_view(tokens@),
            (match parse_from(tv, i as int) {
                Some(rest) => parse_from(tv, 0) == Some(exprs_view(es@) + rest),
                None => parse_from(tv, 0) is None,
            }),
        decreases tokens.len() - i,
    {
        match parse_one(&tokens, i) {
            Some((e, j)) => {
                let ghost ev = tokens_view(e@);
                es.push(e);
                proof {
                    assert(exprs_view(es@) =~= exprs_view(es@.drop_last()) + seq![ev]);
                }
                i = j;
            },
            None => {
                return Err(ParserError::new());
            },
        }
    }
    Ok(es)
}

} // verus!
