//! The lexer: turns a byte slice of CHIP-8 assembly source into a flat
//! token sequence, line by line.
//!
//! The lexical grammar is stated as spec functions over the input byte
//! sequence; every executable lexing function is proved to agree with
//! them.  Whitespace separates columns, `;` starts a comment that runs
//! to the line ending, and a line is one of: blank or comment only, a
//! directive with numeric arguments, a label declaration, an
//! instruction with up to three operands, or a label followed by a
//! directive or an instruction.

use vstd::prelude::*;
use vstd::string::StringExecFns;

verus! {

// Byte values used by the grammar (ASCII).
pub const B_TAB: u8 = 9; // '\t'
pub const B_NL: u8 = 10; // '\n'
pub const B_CR: u8 = 13; // '\r'
pub const B_SPACE: u8 = 32; // ' '
pub const B_HASH: u8 = 35; // '#'
pub const B_DOLLAR: u8 = 36; // '$'
pub const B_COMMA: u8 = 44; // ','
pub const B_SEMI: u8 = 59; // ';'
pub const B_LBRACK: u8 = 91; // '['
pub const B_RBRACK: u8 = 93; // ']'
pub const B_UV: u8 = 86; // 'V'

/// Error returned when the input does not follow the lexical grammar.
#[derive(Debug)]
pub struct LexerError {
    message: String,
}

impl LexerError {
    pub(crate) fn new() -> LexerError {
        LexerError { message: String::from_str("Error in lexer") }
    }
}

/// The tokens that can occur in a CHIP-8 assembly file.  Names are kept
/// as the raw bytes that spelled them in the source.
#[derive(Debug, PartialEq, Clone)]
pub enum Token {
    Directive(Vec<u8>),
    Label(Vec<u8>),
    Instruction(Vec<u8>),
    Register(Vec<u8>),
    NumericLiteral(u32),
    LabelOperand(Vec<u8>),
    Comma,
}

/// The mathematical value of a token: the same shape with byte vectors
/// abstracted to sequences.
pub enum TokenV {
    Directive(Seq<u8>),
    Label(Seq<u8>),
    Instruction(Seq<u8>),
    Register(Seq<u8>),
    NumericLiteral(u32),
    LabelOperand(Seq<u8>),
    Comma,
}

impl View for Token {
    type V = TokenV;

    open spec fn view(&self) -> TokenV {
        match self {
            Token::Directive(n) => TokenV::Directive(n@),
            Token::Label(n) => TokenV::Label(n@),
            Token::Instruction(n) => TokenV::Instruction(n@),
            Token::Register(n) => TokenV::Register(n@),
            Token::NumericLiteral(v) => TokenV::NumericLiteral(*v),
            Token::LabelOperand(n) => TokenV::LabelOperand(n@),
            Token::Comma => TokenV::Comma,
        }
    }
}

/// The views of a sequence of tokens.
pub open spec fn tokens_view(ts: Seq<Token>) -> Seq<TokenV> {
    ts.map_values(|t: Token| t@)
}

impl Token {
    pub fn is_register(&self) -> (r: bool)
        ensures
            r == (self@ is Register),
    {
        match self {
            Token::Register(_) => true,
            _ => false,
        }
    }

    /// Whether this is a register token whose name mentions `V`: the
    /// general purpose registers are exactly the ones that do.
    pub fn is_general_purpose_register(&self) -> (r: bool)
        ensures
            r == (match self@ {
                TokenV::Register(name) => name.contains(B_UV),
                _ => false,
            }),
    {
        match self {
            Token::Register(reg) => {
                let mut i: usize = 0;
                while i < reg.len()
                    invariant
                        i <= reg.len(),
                        self@ == TokenV::Register(reg@),
                        forall|k: int| 0 <= k < i ==> reg@[k] != B_UV,
                    decreases reg.len() - i,
                {
                    if reg[i] == B_UV {
                        assert(reg@.contains(B_UV));
                        return true;
                    }
                    i = i + 1;
                }
                assert(!reg@.contains(B_UV));
                false
            },
            _ => false,
        }
    }

    pub fn is_numeric_literal(&self) -> (r: bool)
        ensures
            r == (self@ is NumericLiteral),
    {
        match self {
            Token::NumericLiteral(_) => true,
            _ => false,
        }
    }

    pub fn is_label_operand(&self) -> (r: bool)
        ensures
            r == (self@ is LabelOperand),
    {
        match self {
            Token::LabelOperand(_) => true,
            _ => false,
        }
    }

    /// A copy of this token with an equal view.
    pub fn duplicate(&self) -> (t: Token)
        ensures
            t@ == self@,
    {
        match self {
            Token::Directive(n) => Token::Directive(clone_bytes(n)),
            Token::Label(n) => Token::Label(clone_bytes(n)),
            Token::Instruction(n) => Token::Instruction(clone_bytes(n)),
            Token::Register(n) => Token::Register(clone_bytes(n)),
            Token::NumericLiteral(v) => Token::NumericLiteral(*v),
            Token::LabelOperand(n) => Token::LabelOperand(clone_bytes(n)),
            Token::Comma => Token::Comma,
        }
    }
}

/// A copy of a byte vector with an equal view.
pub fn clone_bytes(v: &Vec<u8>) -> (r: Vec<u8>)
    ensures
        r@ == v@,
{
    let mut r: Vec<u8> = Vec::new();
    let mut k: usize = 0;
    while k < v.len()
        invariant
            k <= v.len(),
            r@ == v@.subrange(0, k as int),
        decreases v.len() - k,
    {
        r.push(v[k]);
        proof {
            assert(v@.subrange(0, k + 1 as int) =~= v@.subrange(0, k as int).push(v@[k as int]));
        }
        k = k + 1;
    }
    proof {
        assert(v@.subrange(0, v@.len() as int) =~= v@);
    }
    r
}

/// The 21 instruction mnemonics.
#[derive(Debug, PartialEq, Eq, Clone, Copy, Structural)]
pub enum Mnemonic {
    Cls,
    Ret,
    Sys,
    Jp,
    Jr,
    Call,
    Se,
    Sne,
    Ld,
    Add,
    Subn,
    Sub,
    Or,
    And,
    Xor,
    Shr,
    Shl,
    Rnd,
    Drw,
    Skp,
    Sknp,
}

/// The register operands: the sixteen general purpose registers
/// `V0`..`VF` (carrying their index), and the special registers.
#[derive(Debug, PartialEq, Eq, Clone, Copy, Structural)]
pub enum RegClass {
    /// `Vx`; the payload is the hex digit after `V`, 0..=15.
    Gp(u8),
    /// The address register `I`.
    I,
    /// The delay timer `DT`.
    Dt,
    /// The sound timer `ST`.
    St,
    /// The font sprite selector `F`.
    F,
    /// The BCD selector `B`.
    B,
    /// The key wait selector `K`.
    K,
    /// The memory-indexed form `[I]`.
    MemI,
}

/// The assembler directives.
#[derive(Debug, PartialEq, Eq, Clone, Copy, Structural)]
pub enum DirKind {
    Org,
    Db,
}

// ---------------------------------------------------------------------
// Character classes.
// ---------------------------------------------------------------------

pub open spec fn is_space(b: u8) -> bool {
    b == B_SPACE || b == B_TAB
}

pub open spec fn is_digit(b: u8) -> bool {
    48 <= b <= 57 // '0'..'9'
}

pub open spec fn is_hexdig(b: u8) -> bool {
    is_digit(b) || (65 <= b <= 70) || (97 <= b <= 102) // 'A'..'F', 'a'..'f'
}

pub open spec fn is_alnum(b: u8) -> bool {
    is_digit(b) || (65 <= b <= 90) || (97 <= b <= 122) // 'A'..'Z', 'a'..'z'
}

/// Bytes a comment may contain: anything but a line ending.
pub open spec fn is_not_line_end(b: u8) -> bool {
    b != B_NL && b != B_CR
}

/// The numeric value of one hexadecimal digit.
pub open spec fn hexdig_val(b: u8) -> int {
    if is_digit(b) {
        b - 48
    } else if 65 <= b <= 70 {
        b - 55
    } else {
        b - 87
    }
}

// ---------------------------------------------------------------------
// Runs of bytes from one character class.
// ---------------------------------------------------------------------

/// The end of the run of bytes satisfying `p` that starts at `i`.
pub open spec fn run_end(s: Seq<u8>, p: spec_fn(u8) -> bool, i: int) -> int
    decreases s.len() - i when 0 <= i <= s.len()
{
    if i < s.len() && p(s[i]) {
        run_end(s, p, i + 1)
    } else {
        i
    }
}

pub proof fn lemma_run_end(s: Seq<u8>, p: spec_fn(u8) -> bool, i: int)
    requires
        0 <= i <= s.len(),
    ensures
        i <= run_end(s, p, i) <= s.len(),
        forall|k: int| i <= k < run_end(s, p, i) ==> p(s[k]),
        run_end(s, p, i) < s.len() ==> !p(s[run_end(s, p, i)]),
    decreases s.len() - i,
{
    if i < s.len() && p(s[i]) {
        lemma_run_end(s, p, i + 1);
    }
}

// ---------------------------------------------------------------------
// Numeric literal values.
// ---------------------------------------------------------------------

/// The value of a decimal digit string.
pub open spec fn dec_val(s: Seq<u8>) -> int
    decreases s.len(),
{
    if s.len() == 0 {
        0
    } else {
        dec_val(s.drop_last()) * 10 + (s.last() - 48)
    }
}

/// The value of a hexadecimal digit string.
pub open spec fn hex_val(s: Seq<u8>) -> int
    decreases s.len(),
{
    if s.len() == 0 {
        0
    } else {
        hex_val(s.drop_last()) * 16 + hexdig_val(s.last())
    }
}

pub proof fn lemma_dec_val_nonneg(s: Seq<u8>)
    requires
        forall|k: int| 0 <= k < s.len() ==> is_digit(#[trigger] s[k]),
    ensures
        dec_val(s) >= 0,
    decreases s.len(),
{
    if s.len() > 0 {
        lemma_dec_val_nonneg(s.drop_last());
    }
}

pub proof fn lemma_hex_val_nonneg(s: Seq<u8>)
    requires
        forall|k: int| 0 <= k < s.len() ==> is_hexdig(#[trigger] s[k]),
    ensures
        hex_val(s) >= 0,
    decreases s.len(),
{
    if s.len() > 0 {
        lemma_hex_val_nonneg(s.drop_last());
    }
}

/// Extending a digit string to the right cannot shrink its value.
pub proof fn lemma_dec_val_prefix(s: Seq<u8>, n: int)
    requires
        forall|k: int| 0 <= k < s.len() ==> is_digit(#[trigger] s[k]),
        0 <= n <= s.len(),
    ensures
        dec_val(s.take(n)) <= dec_val(s),
    decreases s.len() - n,
{
    if n < s.len() {
        lemma_dec_val_prefix(s, n + 1);
        let t = s.take(n + 1);
        assert(t.drop_last() =~= s.take(n));
        lemma_dec_val_nonneg(s.take(n));
        assert(dec_val(t) == dec_val(s.take(n)) * 10 + (s[n] - 48));
        assert(dec_val(s.take(n)) <= dec_val(s.take(n + 1)));
    } else {
        assert(s.take(n) =~= s);
    }
}

pub proof fn lemma_hex_val_prefix(s: Seq<u8>, n: int)
    requires
        forall|k: int| 0 <= k < s.len() ==> is_hexdig(#[trigger] s[k]),
        0 <= n <= s.len(),
    ensures
        hex_val(s.take(n)) <= hex_val(s),
    decreases s.len() - n,
{
    if n < s.len() {
        lemma_hex_val_prefix(s, n + 1);
        let t = s.take(n + 1);
        assert(t.drop_last() =~= s.take(n));
        lemma_hex_val_nonneg(s.take(n));
        assert(hex_val(t) == hex_val(s.take(n)) * 16 + hexdig_val(s[n]));
        assert(hex_val(s.take(n)) <= hex_val(s.take(n + 1)));
    } else {
        assert(s.take(n) =~= s);
    }
}

// ---------------------------------------------------------------------
// Keyword matching at a position.
// ---------------------------------------------------------------------

pub open spec fn kw1(s: Seq<u8>, i: int, a: u8) -> bool {
    0 <= i && i + 1 <= s.len() && s[i] == a
}

pub open spec fn kw2(s: Seq<u8>, i: int, a: u8, b: u8) -> bool {
    0 <= i && i + 2 <= s.len() && s[i] == a && s[i + 1] == b
}

pub open spec fn kw3(s: Seq<u8>, i: int, a: u8, b: u8, c: u8) -> bool {
    0 <= i && i + 3 <= s.len() && s[i] == a && s[i + 1] == b && s[i + 2] == c
}

pub open spec fn kw4(s: Seq<u8>, i: int, a: u8, b: u8, c: u8, d: u8) -> bool {
    0 <= i && i + 4 <= s.len() && s[i] == a && s[i + 1] == b && s[i + 2] == c && s[i + 3] == d
}

/// The mnemonic starting at position `i`, if any, with its end
/// position.  Longer keywords are tried before their prefixes
/// (`SUBN` before `SUB`, `SKNP` before `SKP`).
pub open spec fn mnem_at(s: Seq<u8>, i: int) -> Option<(Mnemonic, int)> {
    if kw3(s, i, 67, 76, 83) { // CLS
        Some((Mnemonic::Cls, i + 3))
    } else if kw3(s, i, 82, 69, 84) { // RET
        Some((Mnemonic::Ret, i + 3))
    } else if kw3(s, i, 83, 89, 83) { // SYS
        Some((Mnemonic::Sys, i + 3))
    } else if kw2(s, i, 74, 80) { // JP
        Some((Mnemonic::Jp, i + 2))
    } else if kw2(s, i, 74, 82) { // JR
        Some((Mnemonic::Jr, i + 2))
    } else if kw4(s, i, 67, 65, 76, 76) { // CALL
        Some((Mnemonic::Call, i + 4))
    } else if kw3(s, i, 83, 78, 69) { // SNE
        Some((Mnemonic::Sne, i + 3))
    } else if kw2(s, i, 83, 69) { // SE
        Some((Mnemonic::Se, i + 2))
    } else if kw2(s, i, 76, 68) { // LD
        Some((Mnemonic::Ld, i + 2))
    } else if kw3(s, i, 65, 68, 68) { // ADD
        Some((Mnemonic::Add, i + 3))
    } else if kw4(s, i, 83, 85, 66, 78) { // SUBN
        Some((Mnemonic::Subn, i + 4))
    } else if kw3(s, i, 83, 85, 66) { // SUB
        Some((Mnemonic::Sub, i + 3))
    } else if kw2(s, i, 79, 82) { // OR
        Some((Mnemonic::Or, i + 2))
    } else if kw3(s, i, 65, 78, 68) { // AND
        Some((Mnemonic::And, i + 3))
    } else if kw3(s, i, 88, 79, 82) { // XOR
        Some((Mnemonic::Xor, i + 3))
    } else if kw3(s, i, 83, 72, 82) { // SHR
        Some((Mnemonic::Shr, i + 3))
    } else if kw3(s, i, 83, 72, 76) { // SHL
        Some((Mnemonic::Shl, i + 3))
    } else if kw3(s, i, 82, 78, 68) { // RND
        Some((Mnemonic::Rnd, i + 3))
    } else if kw3(s, i, 68, 82, 87) { // DRW
        Some((Mnemonic::Drw, i + 3))
    } else if kw4(s, i, 83, 75, 78, 80) { // SKNP
        Some((Mnemonic::Sknp, i + 4))
    } else if kw3(s, i, 83, 75, 80) { // SKP
        Some((Mnemonic::Skp, i + 3))
    } else {
        None
    }
}

/// An uppercase hexadecimal digit, as used after `V` in a register
/// name.
pub open spec fn is_gp_digit(b: u8) -> bool {
    is_digit(b) || (65 <= b <= 70) // 'A'..'F'
}

/// The register starting at position `i`, if any, with its end
/// position.
pub open spec fn reg_at(s: Seq<u8>, i: int) -> Option<(RegClass, int)> {
    if 0 <= i && i + 2 <= s.len() && s[i] == B_UV && is_gp_digit(s[i + 1]) { // Vx
        Some((RegClass::Gp(hexdig_val(s[i + 1]) as u8), i + 2))
    } else if kw2(s, i, 68, 84) { // DT
        Some((RegClass::Dt, i + 2))
    } else if kw2(s, i, 83, 84) { // ST
        Some((RegClass::St, i + 2))
    } else if kw1(s, i, 70) { // F
        Some((RegClass::F, i + 1))
    } else if kw3(s, i, B_LBRACK, 73, B_RBRACK) { // [I]
        Some((RegClass::MemI, i + 3))
    } else if kw1(s, i, 73) { // I
        Some((RegClass::I, i + 1))
    } else if kw1(s, i, 66) { // B
        Some((RegClass::B, i + 1))
    } else if kw1(s, i, 75) { // K
        Some((RegClass::K, i + 1))
    } else {
        None
    }
}

/// The directive starting at position `i`, if any, with its end
/// position.
pub open spec fn dir_at(s: Seq<u8>, i: int) -> Option<(DirKind, int)> {
    if kw3(s, i, 111, 114, 103) { // org
        Some((DirKind::Org, i + 3))
    } else if kw2(s, i, 100, 98) { // db
        Some((DirKind::Db, i + 2))
    } else {
        None
    }
}

/// Classification of a complete name: the mnemonic it spells, if any.
pub open spec fn mnem_of(name: Seq<u8>) -> Option<Mnemonic> {
    match mnem_at(name, 0) {
        Some((m, e)) => if e == name.len() {
            Some(m)
        } else {
            None
        },
        None => None,
    }
}

/// Classification of a complete name: the register it spells, if any.
pub open spec fn reg_of(name: Seq<u8>) -> Option<RegClass> {
    match reg_at(name, 0) {
        Some((r, e)) => if e == name.len() {
            Some(r)
        } else {
            None
        },
        None => None,
    }
}

/// Classification of a complete name: the directive it spells, if any.
pub open spec fn dir_of(name: Seq<u8>) -> Option<DirKind> {
    match dir_at(name, 0) {
        Some((d, e)) => if e == name.len() {
            Some(d)
        } else {
            None
        },
        None => None,
    }
}

// ---------------------------------------------------------------------
// The line grammar.
// ---------------------------------------------------------------------

pub open spec fn space_p() -> spec_fn(u8) -> bool {
    |b: u8| is_space(b)
}

pub open spec fn digit_p() -> spec_fn(u8) -> bool {
    |b: u8| is_digit(b)
}

pub open spec fn hexdig_p() -> spec_fn(u8) -> bool {
    |b: u8| is_hexdig(b)
}

pub open spec fn alnum_p() -> spec_fn(u8) -> bool {
    |b: u8| is_alnum(b)
}

pub open spec fn comment_p() -> spec_fn(u8) -> bool {
    |b: u8| is_not_line_end(b)
}

/// The position after the (possibly empty) run of column separators at
/// `i`.
pub open spec fn sep_end(s: Seq<u8>, i: int) -> int {
    run_end(s, space_p(), i)
}

/// A decimal literal at `i`: a digit run whose value fits in 32 bits.
pub open spec fn dec_at(s: Seq<u8>, i: int) -> Option<(u32, int)> {
    if 0 <= i < s.len() && is_digit(s[i]) {
        let e = run_end(s, digit_p(), i);
        let v = dec_val(s.subrange(i, e));
        if v <= u32::MAX {
            Some((v as u32, e))
        } else {
            None
        }
    } else {
        None
    }
}

/// A hexadecimal literal at `i`: `$` then a hex digit run whose value
/// fits in 32 bits.
pub open spec fn hex_at(s: Seq<u8>, i: int) -> Option<(u32, int)> {
    if 0 <= i && i + 1 < s.len() && s[i] == B_DOLLAR && is_hexdig(s[i + 1]) {
        let e = run_end(s, hexdig_p(), i + 1);
        let v = hex_val(s.subrange(i + 1, e));
        if v <= u32::MAX {
            Some((v as u32, e))
        } else {
            None
        }
    } else {
        None
    }
}

/// A numeric literal: decimal first, then hexadecimal.
pub open spec fn num_at(s: Seq<u8>, i: int) -> Option<(u32, int)> {
    match dec_at(s, i) {
        Some(r) => Some(r),
        None => hex_at(s, i),
    }
}

/// An identifier at `i`: a nonempty alphanumeric run.
pub open spec fn ident_at(s: Seq<u8>, i: int) -> Option<(Seq<u8>, int)> {
    if 0 <= i < s.len() && is_alnum(s[i]) {
        let e = run_end(s, alnum_p(), i);
        Some((s.subrange(i, e), e))
    } else {
        None
    }
}

/// A label operand at `i`: `#` then an identifier.
pub open spec fn labelop_at(s: Seq<u8>, i: int) -> Option<(Seq<u8>, int)> {
    if kw1(s, i, B_HASH) {
        ident_at(s, i + 1)
    } else {
        None
    }
}

/// An instruction operand: a register, a numeric literal, or a label
/// operand, tried in that order.
pub open spec fn operand_at(s: Seq<u8>, i: int) -> Option<(TokenV, int)> {
    match reg_at(s, i) {
        Some((r, e)) => Some((TokenV::Register(s.subrange(i, e)), e)),
        None => match num_at(s, i) {
            Some((v, e)) => Some((TokenV::NumericLiteral(v), e)),
            None => match labelop_at(s, i) {
                Some((n, e)) => Some((TokenV::LabelOperand(n), e)),
                None => None,
            },
        },
    }
}

/// An optional operand slot: consumes nothing when no operand is
/// present.
pub open spec fn op_slot(s: Seq<u8>, p: int) -> (Seq<TokenV>, int) {
    match operand_at(s, p) {
        Some((t, e)) => (seq![t], e),
        None => (seq![], p),
    }
}

/// An optional comma slot.
pub open spec fn comma_slot(s: Seq<u8>, p: int) -> (Seq<TokenV>, int) {
    if kw1(s, p, B_COMMA) {
        (seq![TokenV::Comma], p + 1)
    } else {
        (seq![], p)
    }
}

/// A line ending: `\r\n` or `\n`.
pub open spec fn ending_at(s: Seq<u8>, i: int) -> Option<int> {
    if kw2(s, i, B_CR, B_NL) {
        Some(i + 2)
    } else if kw1(s, i, B_NL) {
        Some(i + 1)
    } else {
        None
    }
}

/// A comment at `i`: `;` then everything up to the line ending.
pub open spec fn comment_end(s: Seq<u8>, i: int) -> Option<int> {
    if kw1(s, i, B_SEMI) {
        Some(run_end(s, comment_p(), i + 1))
    } else {
        None
    }
}

/// Line termination: optional separators, an optional comment, then a
/// line ending or the end of the input.
pub open spec fn term_at(s: Seq<u8>, i: int) -> Option<int> {
    let j = sep_end(s, i);
    let k = match comment_end(s, j) {
        Some(e) => e,
        None => j,
    };
    if k == s.len() {
        Some(k)
    } else {
        ending_at(s, k)
    }
}

/// The token run of an instruction starting at its mnemonic: the
/// mnemonic, then up to three operand slots with optional separators
/// and commas between them.  Commas are emitted as tokens here and
/// discarded by the parser.
pub open spec fn instr_toks_at(s: Seq<u8>, i: int) -> Option<(Seq<TokenV>, int)> {
    match mnem_at(s, i) {
        None => None,
        Some((m, j)) => {
            let (ts1, q1) = op_slot(s, sep_end(s, j));
            let (ts2, q2) = comma_slot(s, sep_end(s, q1));
            let (ts3, q3) = op_slot(s, sep_end(s, q2));
            let (ts4, q4) = comma_slot(s, sep_end(s, q3));
            let (ts5, q5) = op_slot(s, sep_end(s, q4));
            Some((seq![TokenV::Instruction(s.subrange(i, j))] + ts1 + ts2 + ts3 + ts4 + ts5, q5))
        },
    }
}

/// The numeric arguments of a directive: one or more numerics, each
/// preceded by at least one separator, taken greedily.
pub open spec fn dir_nums_at(s: Seq<u8>, p: int) -> Option<(Seq<TokenV>, int)>
    decreases s.len() - p when 0 <= p <= s.len()
{
    let q = sep_end(s, p);
    if p < q <= s.len() {
        match num_at(s, q) {
            Some((v, e)) => if q < e <= s.len() {
                match dir_nums_at(s, e) {
                    Some((ts, e2)) => Some((seq![TokenV::NumericLiteral(v)] + ts, e2)),
                    None => Some((seq![TokenV::NumericLiteral(v)], e)),
                }
            } else {
                None
            },
            None => None,
        }
    } else {
        None
    }
}

/// One source line starting at `i`, with the tokens it yields and the
/// position after it.  The alternatives, in order: a label declaration
/// (an identifier at column zero), optionally followed by a directive
/// or an instruction; a blank or comment-only line; a directive line;
/// an instruction line.  Directive and instruction lines need a
/// leading separator, which is what distinguishes them from labels.
pub open spec fn line_at(s: Seq<u8>, i: int) -> Option<(Seq<TokenV>, int)> {
    match ident_at(s, i) {
        Some((name, j)) => match term_at(s, j) {
            Some(e) => Some((seq![TokenV::Label(name)], e)),
            None => {
                let j2 = sep_end(s, j);
                if j2 > j {
                    match dir_at(s, j2) {
                        Some((d, k)) => match dir_nums_at(s, k) {
                            Some((ts, e1)) => match term_at(s, e1) {
                                Some(e) => Some(
                                    (
                                        seq![TokenV::Label(name)] + seq![
                                            TokenV::Directive(s.subrange(j2, k)),
                                        ] + ts,
                                        e,
                                    ),
                                ),
                                None => None,
                            },
                            None => None,
                        },
                        None => match instr_toks_at(s, j2) {
                            Some((ts, k)) => match term_at(s, k) {
                                Some(e) => Some((seq![TokenV::Label(name)] + ts, e)),
                                None => None,
                            },
                            None => None,
                        },
                    }
                } else {
                    None
                }
            },
        },
        None => match term_at(s, i) {
            Some(e) => Some((seq![], e)),
            None => {
                let j = sep_end(s, i);
                if j > i {
                    match dir_at(s, j) {
                        Some((d, k)) => match dir_nums_at(s, k) {
                            Some((ts, e1)) => match term_at(s, e1) {
                                Some(e) => Some(
                                    (seq![TokenV::Directive(s.subrange(j, k))] + ts, e),
                                ),
                                None => None,
                            },
                            None => None,
                        },
                        None => match instr_toks_at(s, j) {
                            Some((ts, k)) => match term_at(s, k) {
                                Some(e) => Some((ts, e)),
                                None => None,
                            },
                            None => None,
                        },
                    }
                } else {
                    None
                }
            },
        },
    }
}

/// The tokens of the whole input from position `i` on; `None` when
/// some line fails to lex.
pub open spec fn lex_from(s: Seq<u8>, i: int) -> Option<Seq<TokenV>>
    decreases s.len() - i when 0 <= i <= s.len()
{
    if i == s.len() {
        Some(seq![])
    } else {
        match line_at(s, i) {
            Some((ts, j)) => if i < j <= s.len() {
                match lex_from(s, j) {
                    Some(rest) => Some(ts + rest),
                    None => None,
                }
            } else {
                None
            },
            None => None,
        }
    }
}

/// The token sequence of the whole input, when it lexes.
pub open spec fn spec_tokenize(s: Seq<u8>) -> Option<Seq<TokenV>> {
    lex_from(s, 0)
}

// ---------------------------------------------------------------------
// Executable character classes and scanners.
// ---------------------------------------------------------------------

#[inline]
fn is_space_x(b: u8) -> (r: bool)
    ensures
        r == is_space(b),
{
    b == B_SPACE || b == B_TAB
}

#[inline]
fn is_digit_x(b: u8) -> (r: bool)
    ensures
        r == is_digit(b),
{
    48 <= b && b <= 57
}

#[inline]
fn is_hexdig_x(b: u8) -> (r: bool)
    ensures
        r == is_hexdig(b),
{
    (48 <= b && b <= 57) || (65 <= b && b <= 70) || (97 <= b && b <= 102)
}

#[inline]
fn is_alnum_x(b: u8) -> (r: bool)
    ensures
        r == is_alnum(b),
{
    (48 <= b && b <= 57) || (65 <= b && b <= 90) || (97 <= b && b <= 122)
}

#[inline]
fn is_not_line_end_x(b: u8) -> (r: bool)
    ensures
        r == is_not_line_end(b),
{
    b != B_NL && b != B_CR
}

/// Skip the column separators (spaces and tabs) from `i` on.
pub fn lex_column_sep(s: &[u8], i: usize) -> (r: usize)
    requires
        i <= s.len(),
    ensures
        r == sep_end(s@, i as int),
        i <= r <= s.len(),
{
    proof {
        lemma_run_end(s@, space_p(), i as int);
    }
    let mut j: usize = i;
    while j < s.len() && is_space_x(s[j])
        invariant
            i <= j <= s.len(),
            run_end(s@, space_p(), i as int) == run_end(s@, space_p(), j as int),
        decreases s.len() - j,
    {
        j = j + 1;
    }
    j
}

/// The end of the digit run starting at `i`.
fn scan_digits(s: &[u8], i: usize) -> (r: usize)
    requires
        i <= s.len(),
    ensures
        r == run_end(s@, digit_p(), i as int),
        i <= r <= s.len(),
{
    proof {
        lemma_run_end(s@, digit_p(), i as int);
    }
    let mut j: usize = i;
    while j < s.len() && is_digit_x(s[j])
        invariant
            i <= j <= s.len(),
            run_end(s@, digit_p(), i as int) == run_end(s@, digit_p(), j as int),
        decreases s.len() - j,
    {
        j = j + 1;
    }
    j
}

/// The end of the hexadecimal digit run starting at `i`.
fn scan_hexdigits(s: &[u8], i: usize) -> (r: usize)
    requires
        i <= s.len(),
    ensures
        r == run_end(s@, hexdig_p(), i as int),
        i <= r <= s.len(),
{
    proof {
        lemma_run_end(s@, hexdig_p(), i as int);
    }
    let mut j: usize = i;
    while j < s.len() && is_hexdig_x(s[j])
        invariant
            i <= j <= s.len(),
            run_end(s@, hexdig_p(), i as int) == run_end(s@, hexdig_p(), j as int),
        decreases s.len() - j,
    {
        j = j + 1;
    }
    j
}

/// The end of the alphanumeric run starting at `i`.
fn scan_alnum(s: &[u8], i: usize) -> (r: usize)
    requires
        i <= s.len(),
    ensures
        r == run_end(s@, alnum_p(), i as int),
        i <= r <= s.len(),
{
    proof {
        lemma_run_end(s@, alnum_p(), i as int);
    }
    let mut j: usize = i;
    while j < s.len() && is_alnum_x(s[j])
        invariant
            i <= j <= s.len(),
            run_end(s@, alnum_p(), i as int) == run_end(s@, alnum_p(), j as int),
        decreases s.len() - j,
    {
        j = j + 1;
    }
    j
}

/// The end of the run of comment bytes starting at `i`.
fn scan_comment(s: &[u8], i: usize) -> (r: usize)
    requires
        i <= s.len(),
    ensures
        r == run_end(s@, comment_p(), i as int),
        i <= r <= s.len(),
{
    proof {
        lemma_run_end(s@, comment_p(), i as int);
    }
    let mut j: usize = i;
    while j < s.len() && is_not_line_end_x(s[j])
        invariant
            i <= j <= s.len(),
            run_end(s@, comment_p(), i as int) == run_end(s@, comment_p(), j as int),
        decreases s.len() - j,
    {
        j = j + 1;
    }
    j
}

/// Copy the bytes of `s` in `[i, j)` into a fresh vector.
fn copy_range(s: &[u8], i: usize, j: usize) -> (v: Vec<u8>)
    requires
        i <= j <= s.len(),
    ensures
        v@ == s@.subrange(i as int, j as int),
{
    let mut v: Vec<u8> = Vec::new();
    let mut k: usize = i;
    while k < j
        invariant
            i <= k <= j <= s.len(),
            v@ == s@.subrange(i as int, k as int),
        decreases j - k,
    {
        v.push(s[k]);
        proof {
            assert(s@.subrange(i as int, k + 1 as int) =~= s@.subrange(i as int, k as int).push(
                s@[k as int],
            ));
        }
        k = k + 1;
    }
    v
}

// ---------------------------------------------------------------------
// Executable token lexers.
// ---------------------------------------------------------------------

/// The view of a token lexer's result.
pub open spec fn tok_res(r: Option<(Token, usize)>) -> Option<(TokenV, int)> {
    match r {
        Some((t, j)) => Some((t@, j as int)),
        None => None,
    }
}

/// The numeric value of one hexadecimal digit byte.
#[inline]
fn hexdig_val_x(b: u8) -> (r: u8)
    requires
        is_hexdig(b),
    ensures
        r as int == hexdig_val(b),
        r <= 15,
{
    if b <= 57 {
        b - 48
    } else if b <= 70 {
        b - 55
    } else {
        b - 87
    }
}

/// Lex a decimal numeric literal at `i`.
pub fn lex_decimal_literal(s: &[u8], i: usize) -> (r: Option<(Token, usize)>)
    requires
        i <= s.len(),
    ensures
        tok_res(r) == (match dec_at(s@, i as int) {
            Some((v, e)) => Some((TokenV::NumericLiteral(v), e)),
            None => None::<(TokenV, int)>,
        }),
        r matches Some((t, j)) ==> i < j <= s.len(),
{
    if i < s.len() && is_digit_x(s[i]) {
        let e = scan_digits(s, i);
        proof {
            lemma_run_end(s@, digit_p(), i as int);
        }
        let ghost full = s@.subrange(i as int, e as int);
        assert(forall|k: int| 0 <= k < full.len() ==> is_digit(#[trigger] full[k]));
        let mut v: u64 = 0;
        let mut j: usize = i;
        while j < e
            invariant
                i <= j <= e <= s.len(),
                e == run_end(s@, digit_p(), i as int),
                forall|k: int| i <= k < e ==> is_digit(#[trigger] s@[k]),
                v as int == dec_val(s@.subrange(i as int, j as int)),
                v <= 0xFFFF_FFFF,
            decreases e - j,
        {
            assert(is_digit(s@[j as int]));
            let d = (s[j] - 48) as u64;
            let nv = v * 10 + d;
            proof {
                let pre = s@.subrange(i as int, j + 1 as int);
                assert(pre.drop_last() =~= s@.subrange(i as int, j as int));
                assert(pre.last() == s@[j as int]);
                assert(dec_val(pre) == nv as int);
            }
            if nv > 0xFFFF_FFFF {
                proof {
                    let whole = s@.subrange(i as int, e as int);
                    assert(forall|k: int| 0 <= k < whole.len() ==> is_digit(#[trigger] whole[k]));
                    lemma_dec_val_prefix(whole, j + 1 - i);
                    assert(whole.take(j + 1 - i) =~= s@.subrange(i as int, j + 1 as int));
                    assert(dec_val(whole) > u32::MAX);
                }
                return None;
            }
            v = nv;
            j = j + 1;
        }
        assert(s@.subrange(i as int, j as int) =~= full);
        Some((Token::NumericLiteral(v as u32), e))
    } else {
        None
    }
}

/// Lex a hexadecimal numeric literal (`$` prefixed) at `i`.
pub fn lex_hex_literal(s: &[u8], i: usize) -> (r: Option<(Token, usize)>)
    requires
        i <= s.len(),
    ensures
        tok_res(r) == (match hex_at(s@, i as int) {
            Some((v, e)) => Some((TokenV::NumericLiteral(v), e)),
            None => None::<(TokenV, int)>,
        }),
        r matches Some((t, j)) ==> i < j <= s.len(),
{
    if i < s.len() && s[i] == B_DOLLAR && i + 1 < s.len() && is_hexdig_x(s[i + 1]) {
        let e = scan_hexdigits(s, i + 1);
        proof {
            lemma_run_end(s@, hexdig_p(), i + 1 as int);
        }
        let ghost full = s@.subrange(i + 1 as int, e as int);
        assert(forall|k: int| 0 <= k < full.len() ==> is_hexdig(#[trigger] full[k]));
        let mut v: u64 = 0;
        let mut j: usize = i + 1;
        while j < e
            invariant
                i + 1 <= j <= e <= s.len(),
                e == run_end(s@, hexdig_p(), i + 1 as int),
                forall|k: int| i + 1 <= k < e ==> is_hexdig(#[trigger] s@[k]),
                v as int == hex_val(s@.subrange(i + 1 as int, j as int)),
                v <= 0xFFFF_FFFF,
            decreases e - j,
        {
            assert(is_hexdig(s@[j as int]));
            let d = hexdig_val_x(s[j]) as u64;
            let nv = v * 16 + d;
            proof {
                let pre = s@.subrange(i + 1 as int, j + 1 as int);
                assert(pre.drop_last() =~= s@.subrange(i + 1 as int, j as int));
                assert(pre.last() == s@[j as int]);
                assert(hex_val(pre) == nv as int);
            }
            if nv > 0xFFFF_FFFF {
                proof {
                    let whole = s@.subrange(i + 1 as int, e as int);
                    assert(forall|k: int| 0 <= k < whole.len() ==> is_hexdig(#[trigger] whole[k]));
                    lemma_hex_val_prefix(whole, j + 1 - (i + 1));
                    assert(whole.take(j + 1 - (i + 1)) =~= s@.subrange(i + 1 as int, j + 1 as int));
                    assert(hex_val(whole) > u32::MAX);
                }
                return None;
            }
            v = nv;
            j = j + 1;
        }
        assert(s@.subrange(i + 1 as int, j as int) =~= full);
        Some((Token::NumericLiteral(v as u32), e))
    } else {
        None
    }
}

/// Lex a numeric literal: decimal first, then hexadecimal.
pub fn lex_numeric_literal(s: &[u8], i: usize) -> (r: Option<(Token, usize)>)
    requires
        i <= s.len(),
    ensures
        tok_res(r) == (match num_at(s@, i as int) {
            Some((v, e)) => Some((TokenV::NumericLiteral(v), e)),
            None => None::<(TokenV, int)>,
        }),
        r matches Some((t, j)) ==> i < j <= s.len(),
{
    let d = lex_decimal_literal(s, i);
    match d {
        Some(r) => Some(r),
        None => lex_hex_literal(s, i),
    }
}

/// Lex a label declaration (a bare identifier) at `i`.
pub fn lex_label(s: &[u8], i: usize) -> (r: Option<(Token, usize)>)
    requires
        i <= s.len(),
    ensures
        tok_res(r) == (match ident_at(s@, i as int) {
            Some((n, e)) => Some((TokenV::Label(n), e)),
            None => None::<(TokenV, int)>,
        }),
        r matches Some((t, j)) ==> i < j <= s.len(),
{
    if i < s.len() && is_alnum_x(s[i]) {
        let e = scan_alnum(s, i);
        proof {
            lemma_run_end(s@, alnum_p(), i as int);
        }
        let name = copy_range(s, i, e);
        Some((Token::Label(name), e))
    } else {
        None
    }
}

/// Lex a label operand (`#` then an identifier) at `i`.
pub fn lex_label_operand(s: &[u8], i: usize) -> (r: Option<(Token, usize)>)
    requires
        i <= s.len(),
    ensures
        tok_res(r) == (match labelop_at(s@, i as int) {
            Some((n, e)) => Some((TokenV::LabelOperand(n), e)),
            None => None::<(TokenV, int)>,
        }),
        r matches Some((t, j)) ==> i < j <= s.len(),
{
    if i < s.len() && s[i] == B_HASH {
        if i + 1 < s.len() && is_alnum_x(s[i + 1]) {
            let e = scan_alnum(s, i + 1);
            proof {
                lemma_run_end(s@, alnum_p(), i + 1 as int);
            }
            let name = copy_range(s, i + 1, e);
            Some((Token::LabelOperand(name), e))
        } else {
            None
        }
    } else {
        None
    }
}

#[inline]
fn kw1e(s: &[u8], i: usize, a: u8) -> (r: bool)
    requires
        i <= s.len(),
    ensures
        r == kw1(s@, i as int, a),
{
    i < s.len() && s[i] == a
}

#[inline]
fn kw2e(s: &[u8], i: usize, a: u8, b: u8) -> (r: bool)
    requires
        i <= s.len(),
    ensures
        r == kw2(s@, i as int, a, b),
{
    i < s.len() && s[i] == a && i + 1 < s.len() && s[i + 1] == b
}

#[inline]
fn kw3e(s: &[u8], i: usize, a: u8, b: u8, c: u8) -> (r: bool)
    requires
        i <= s.len(),
    ensures
        r == kw3(s@, i as int, a, b, c),
{
    i < s.len() && s[i] == a && i + 1 < s.len() && s[i + 1] == b && i + 2 < s.len() && s[i + 2]
        == c
}

#[inline]
fn kw4e(s: &[u8], i: usize, a: u8, b: u8, c: u8, d: u8) -> (r: bool)
    requires
        i <= s.len(),
    ensures
        r == kw4(s@, i as int, a, b, c, d),
{
    i < s.len() && s[i] == a && i + 1 < s.len() && s[i + 1] == b && i + 2 < s.len() && s[i + 2]
        == c && i + 3 < s.len() && s[i + 3] == d
}

/// Match a mnemonic at `i`.
fn mnem_match(s: &[u8], i: usize) -> (r: Option<(Mnemonic, usize)>)
    requires
        i <= s.len(),
    ensures
        (match r {
            Some((m, j)) => mnem_at(s@, i as int) == Some((m, j as int)) && i < j <= s.len(),
            None => mnem_at(s@, i as int) is None,
        }),
{
    if kw3e(s, i, 67, 76, 83) { // CLS
        Some((Mnemonic::Cls, i + 3))
    } else if kw3e(s, i, 82, 69, 84) { // RET
        Some((Mnemonic::Ret, i + 3))
    } else if kw3e(s, i, 83, 89, 83) { // SYS
        Some((Mnemonic::Sys, i + 3))
    } else if kw2e(s, i, 74, 80) { // JP
        Some((Mnemonic::Jp, i + 2))
    } else if kw2e(s, i, 74, 82) { // JR
        Some((Mnemonic::Jr, i + 2))
    } else if kw4e(s, i, 67, 65, 76, 76) { // CALL
        Some((Mnemonic::Call, i + 4))
    } else if kw3e(s, i, 83, 78, 69) { // SNE
        Some((Mnemonic::Sne, i + 3))
    } else if kw2e(s, i, 83, 69) { // SE
        Some((Mnemonic::Se, i + 2))
    } else if kw2e(s, i, 76, 68) { // LD
        Some((Mnemonic::Ld, i + 2))
    } else if kw3e(s, i, 65, 68, 68) { // ADD
        Some((Mnemonic::Add, i + 3))
    } else if kw4e(s, i, 83, 85, 66, 78) { // SUBN
        Some((Mnemonic::Subn, i + 4))
    } else if kw3e(s, i, 83, 85, 66) { // SUB
        Some((Mnemonic::Sub, i + 3))
    } else if kw2e(s, i, 79, 82) { // OR
        Some((Mnemonic::Or, i + 2))
    } else if kw3e(s, i, 65, 78, 68) { // AND
        Some((Mnemonic::And, i + 3))
    } else if kw3e(s, i, 88, 79, 82) { // XOR
        Some((Mnemonic::Xor, i + 3))
    } else if kw3e(s, i, 83, 72, 82) { // SHR
        Some((Mnemonic::Shr, i + 3))
    } else if kw3e(s, i, 83, 72, 76) { // SHL
        Some((Mnemonic::Shl, i + 3))
    } else if kw3e(s, i, 82, 78, 68) { // RND
        Some((Mnemonic::Rnd, i + 3))
    } else if kw3e(s, i, 68, 82, 87) { // DRW
        Some((Mnemonic::Drw, i + 3))
    } else if kw4e(s, i, 83, 75, 78, 80) { // SKNP
        Some((Mnemonic::Sknp, i + 4))
    } else if kw3e(s, i, 83, 75, 80) { // SKP
        Some((Mnemonic::Skp, i + 3))
    } else {
        None
    }
}

/// Match a register at `i`.
fn reg_match(s: &[u8], i: usize) -> (r: Option<(RegClass, usize)>)
    requires
        i <= s.len(),
    ensures
        (match r {
            Some((c, j)) => reg_at(s@, i as int) == Some((c, j as int)) && i < j <= s.len(),
            None => reg_at(s@, i as int) is None,
        }),
{
    if i < s.len() && s[i] == B_UV && i + 1 < s.len() && (is_digit_x(s[i + 1]) || (65 <= s[i + 1]
        && s[i + 1] <= 70)) { // Vx
        let d = hexdig_val_x(s[i + 1]);
        Some((RegClass::Gp(d), i + 2))
    } else if kw2e(s, i, 68, 84) { // DT
        Some((RegClass::Dt, i + 2))
    } else if kw2e(s, i, 83, 84) { // ST
        Some((RegClass::St, i + 2))
    } else if kw1e(s, i, 70) { // F
        Some((RegClass::F, i + 1))
    } else if kw3e(s, i, B_LBRACK, 73, B_RBRACK) { // [I]
        Some((RegClass::MemI, i + 3))
    } else if kw1e(s, i, 73) { // I
        Some((RegClass::I, i + 1))
    } else if kw1e(s, i, 66) { // B
        Some((RegClass::B, i + 1))
    } else if kw1e(s, i, 75) { // K
        Some((RegClass::K, i + 1))
    } else {
        None
    }
}

/// Match a directive keyword at `i`.
fn dir_match(s: &[u8], i: usize) -> (r: Option<(DirKind, usize)>)
    requires
        i <= s.len(),
    ensures
        (match r {
            Some((d, j)) => dir_at(s@, i as int) == Some((d, j as int)) && i < j <= s.len(),
            None => dir_at(s@, i as int) is None,
        }),
{
    if kw3e(s, i, 111, 114, 103) { // org
        Some((DirKind::Org, i + 3))
    } else if kw2e(s, i, 100, 98) { // db
        Some((DirKind::Db, i + 2))
    } else {
        None
    }
}

/// Lex an instruction mnemonic at `i`.
pub fn lex_mnem(s: &[u8], i: usize) -> (r: Option<(Token, usize)>)
    requires
        i <= s.len(),
    ensures
        tok_res(r) == (match mnem_at(s@, i as int) {
            Some((m, e)) => Some((TokenV::Instruction(s@.subrange(i as int, e)), e)),
            None => None::<(TokenV, int)>,
        }),
        r matches Some((t, j)) ==> i < j <= s.len(),
{
    match mnem_match(s, i) {
        Some((m, e)) => {
            let name = copy_range(s, i, e);
            Some((Token::Instruction(name), e))
        },
        None => None,
    }
}

/// Lex a register name at `i`.
pub fn lex_registers(s: &[u8], i: usize) -> (r: Option<(Token, usize)>)
    requires
        i <= s.len(),
    ensures
        tok_res(r) == (match reg_at(s@, i as int) {
            Some((c, e)) => Some((TokenV::Register(s@.subrange(i as int, e)), e)),
            None => None::<(TokenV, int)>,
        }),
        r matches Some((t, j)) ==> i < j <= s.len(),
{
    match reg_match(s, i) {
        Some((c, e)) => {
            let name = copy_range(s, i, e);
            Some((Token::Register(name), e))
        },
        None => None,
    }
}

/// Lex a directive keyword at `i`.
pub fn lex_directives(s: &[u8], i: usize) -> (r: Option<(Token, usize)>)
    requires
        i <= s.len(),
    ensures
        tok_res(r) == (match dir_at(s@, i as int) {
            Some((d, e)) => Some((TokenV::Directive(s@.subrange(i as int, e)), e)),
            None => None::<(TokenV, int)>,
        }),
        r matches Some((t, j)) ==> i < j <= s.len(),
{
    match dir_match(s, i) {
        Some((d, e)) => {
            let name = copy_range(s, i, e);
            Some((Token::Directive(name), e))
        },
        None => None,
    }
}

/// Classify a complete name as a mnemonic.
pub fn classify_mnemonic(name: &[u8]) -> (r: Option<Mnemonic>)
    ensures
        r == mnem_of(name@),
{
    match mnem_match(name, 0) {
        Some((m, e)) => if e == name.len() {
            Some(m)
        } else {
            None
        },
        None => None,
    }
}

/// Classify a complete name as a register.
pub fn classify_register(name: &[u8]) -> (r: Option<RegClass>)
    ensures
        r == reg_of(name@),
{
    match reg_match(name, 0) {
        Some((c, e)) => if e == name.len() {
            Some(c)
        } else {
            None
        },
        None => None,
    }
}

/// Classify a complete name as a directive.
pub fn classify_directive(name: &[u8]) -> (r: Option<DirKind>)
    ensures
        r == dir_of(name@),
{
    match dir_match(name, 0) {
        Some((d, e)) => if e == name.len() {
            Some(d)
        } else {
            None
        },
        None => None,
    }
}

/// Lex a comma at `i`.
pub fn lex_comma(s: &[u8], i: usize) -> (r: Option<(Token, usize)>)
    requires
        i <= s.len(),
    ensures
        tok_res(r) == (if kw1(s@, i as int, B_COMMA) {
            Some((TokenV::Comma, i + 1 as int))
        } else {
            None::<(TokenV, int)>
        }),
        r matches Some((t, j)) ==> i < j <= s.len(),
{
    if i < s.len() && s[i] == B_COMMA {
        Some((Token::Comma, i + 1))
    } else {
        None
    }
}

/// Lex one instruction operand: register, numeric literal or label
/// operand, in that order.
fn lex_operand(s: &[u8], i: usize) -> (r: Option<(Token, usize)>)
    requires
        i <= s.len(),
    ensures
        tok_res(r) == operand_at(s@, i as int),
        r matches Some((t, j)) ==> i < j <= s.len(),
{
    let rr = lex_registers(s, i);
    match rr {
        Some(p) => Some(p),
        None => {
            let rn = lex_numeric_literal(s, i);
            match rn {
                Some(p) => Some(p),
                None => lex_label_operand(s, i),
            }
        },
    }
}

/// Lex a comment at `i`: returns the position after its body, just
/// before the line ending.
pub fn lex_comments(s: &[u8], i: usize) -> (r: Option<usize>)
    requires
        i <= s.len(),
    ensures
        (match r {
            Some(e) => comment_end(s@, i as int) == Some(e as int) && i < e <= s.len(),
            None => comment_end(s@, i as int) is None,
        }),
{
    if i < s.len() && s[i] == B_SEMI {
        Some(scan_comment(s, i + 1))
    } else {
        None
    }
}

/// Lex a line ending at `i`: `\r\n` or `\n`.
pub fn lex_line_ending(s: &[u8], i: usize) -> (r: Option<usize>)
    requires
        i <= s.len(),
    ensures
        (match r {
            Some(e) => ending_at(s@, i as int) == Some(e as int) && i < e <= s.len(),
            None => ending_at(s@, i as int) is None,
        }),
{
    if kw2e(s, i, B_CR, B_NL) {
        Some(i + 2)
    } else if kw1e(s, i, B_NL) {
        Some(i + 1)
    } else {
        None
    }
}

/// Lex a line termination at `i`: optional separators, an optional
/// comment, then a line ending or the end of the input.
pub fn lex_line_termination(s: &[u8], i: usize) -> (r: Option<usize>)
    requires
        i <= s.len(),
    ensures
        (match r {
            Some(e) => term_at(s@, i as int) == Some(e as int) && i <= e <= s.len() && (i < e || e
                == s.len()),
            None => term_at(s@, i as int) is None,
        }),
{
    let j = lex_column_sep(s, i);
    let k = match lex_comments(s, j) {
        Some(e) => e,
        None => j,
    };
    if k == s.len() {
        Some(k)
    } else {
        lex_line_ending(s, k)
    }
}

/// Lex an instruction and its operands starting at the mnemonic.
pub fn lex_instruction(s: &[u8], i: usize) -> (r: Option<(Vec<Token>, usize)>)
    requires
        i <= s.len(),
    ensures
        (match r {
            Some((ts, j)) => instr_toks_at(s@, i as int) == Some((tokens_view(ts@), j as int))
                && i < j <= s.len(),
            None => instr_toks_at(s@, i as int) is None,
        }),
{
    let m = lex_mnem(s, i);
    match m {
        None => None,
        Some((mt, j)) => {
            let mut ts: Vec<Token> = Vec::new();
            ts.push(mt);
            let mut p: usize = lex_column_sep(s, j);
            let ghost gts1: Seq<TokenV> = op_slot(s@, p as int).0;
            match lex_operand(s, p) {
                Some((t, e)) => {
                    ts.push(t);
                    p = e;
                },
                None => {},
            }
            p = lex_column_sep(s, p);
            let ghost gts2: Seq<TokenV> = comma_slot(s@, p as int).0;
            match lex_comma(s, p) {
                Some((t, e)) => {
                    ts.push(t);
                    p = e;
                },
                None => {},
            }
            p = lex_column_sep(s, p);
            let ghost gts3: Seq<TokenV> = op_slot(s@, p as int).0;
            match lex_operand(s, p) {
                Some((t, e)) => {
                    ts.push(t);
                    p = e;
                },
                None => {},
            }
            p = lex_column_sep(s, p);
            let ghost gts4: Seq<TokenV> = comma_slot(s@, p as int).0;
            match lex_comma(s, p) {
                Some((t, e)) => {
                    ts.push(t);
                    p = e;
                },
                None => {},
            }
            p = lex_column_sep(s, p);
            let ghost gts5: Seq<TokenV> = op_slot(s@, p as int).0;
            match lex_operand(s, p) {
                Some((t, e)) => {
                    ts.push(t);
                    p = e;
                },
                None => {},
            }
            proof {
                assert(tokens_view(ts@) =~= seq![
                    TokenV::Instruction(s@.subrange(i as int, j as int)),
                ] + gts1 + gts2 + gts3 + gts4 + gts5);
            }
            Some((ts, p))
        },
    }
}

/// Lex one source line at `i`, returning its tokens and the position
/// after it.
pub fn lex_line(s: &[u8], i: usize) -> (r: Option<(Vec<Token>, usize)>)
    requires
        i < s.len(),
    ensures
        (match r {
            Some((ts, j)) => line_at(s@, i as int) == Some((tokens_view(ts@), j as int)) && i < j
                <= s.len(),
            None => line_at(s@, i as int) is None,
        }),
{
    let lab = lex_label(s, i);
    match lab {
        Some((lt, j)) => {
            match lex_line_termination(s, j) {
                Some(e) => {
                    let mut ts: Vec<Token> = Vec::new();
                    ts.push(lt);
                    proof {
                        assert(tokens_view(ts@) =~= seq![lt@]);
                    }
                    Some((ts, e))
                },
                None => {
                    let j2 = lex_column_sep(s, j);
                    if j2 > j {
                        match lex_directives(s, j2) {
                            Some((dt, k)) => match lex_directive_numerics(s, k) {
                                Some((nts, e1)) => match lex_line_termination(s, e1) {
                                    Some(e) => {
                                        let mut ts: Vec<Token> = Vec::new();
                                        ts.push(lt);
                                        ts.push(dt);
                                        let mut rest = nts;
                                        let ghost restv = rest@;
                                        ts.append(&mut rest);
                                        proof {
                                            let ghost dv = ts@[1]@;
                                            assert(tokens_view(ts@) =~= seq![lt@] + seq![dv]
                                                + tokens_view(restv));
                                        }
                                        Some((ts, e))
                                    },
                                    None => None,
                                },
                                None => None,
                            },
                            None => match lex_instruction(s, j2) {
                                Some((its, k)) => match lex_line_termination(s, k) {
                                    Some(e) => {
                                        let mut ts: Vec<Token> = Vec::new();
                                        ts.push(lt);
                                        let mut rest = its;
                                        let ghost restv = rest@;
                                        ts.append(&mut rest);
                                        proof {
                                            assert(tokens_view(ts@) =~= seq![lt@] + tokens_view(
                                                restv,
                                            ));
                                        }
                                        Some((ts, e))
                                    },
                                    None => None,
                                },
                                None => None,
                            },
                        }
                    } else {
                        None
                    }
                },
            }
        },
        None => {
            match lex_line_termination(s, i) {
                Some(e) => {
                    let ts: Vec<Token> = Vec::new();
                    proof {
                        assert(tokens_view(ts@) =~= Seq::<TokenV>::empty());
                    }
                    Some((ts, e))
                },
                None => {
                    let j = lex_column_sep(s, i);
                    if j > i {
                        match lex_directives(s, j) {
                            Some((dt, k)) => {
                                match lex_directive_numerics(s, k) {
                                    Some((nts, e1)) => match lex_line_termination(s, e1) {
                                        Some(e) => {
                                            let mut ts: Vec<Token> = Vec::new();
                                            ts.push(dt);
                                            let mut rest = nts;
                                            let ghost restv = rest@;
                                            ts.append(&mut rest);
                                            proof {
                                                assert(tokens_view(ts@) =~= seq![dt@]
                                                    + tokens_view(restv));
                                            }
                                            Some((ts, e))
                                        },
                                        None => None,
                                    },
                                    None => None,
                                }
                            },
                            None => match lex_instruction(s, j) {
                                Some((its, k)) => match lex_line_termination(s, k) {
                                    Some(e) => Some((its, e)),
                                    None => None,
                                },
                                None => None,
                            },
                        }
                    } else {
                        None
                    }
                },
            }
        },
    }
}

/// Lex the numeric arguments of a directive, each preceded by at
/// least one separator.
fn lex_directive_numerics(s: &[u8], p: usize) -> (r: Option<(Vec<Token>, usize)>)
    requires
        p <= s.len(),
    ensures
        (match r {
            Some((ts, e)) => dir_nums_at(s@, p as int) == Some((tokens_view(ts@), e as int)) && p
                < e <= s.len(),
            None => dir_nums_at(s@, p as int) is None,
        }),
    decreases s.len() - p,
{
    let q = lex_column_sep(s, p);
    if q > p {
        match lex_numeric_literal(s, q) {
            Some((t, e)) => {
                match lex_directive_numerics(s, e) {
                    Some((more, e2)) => {
                        let mut ts: Vec<Token> = Vec::new();
                        ts.push(t);
                        let mut rest = more;
                        let ghost restv = rest@;
                        ts.append(&mut rest);
                        proof {
                            assert(tokens_view(ts@) =~= seq![t@] + tokens_view(restv));
                        }
                        Some((ts, e2))
                    },
                    None => {
                        let mut ts: Vec<Token> = Vec::new();
                        ts.push(t);
                        proof {
                            assert(tokens_view(ts@) =~= seq![t@]);
                        }
                        Some((ts, e))
                    },
                }
            },
            None => None,
        }
    } else {
        None
    }
}

/// Turn the input bytes into tokens; fails when some line does not
/// follow the lexical grammar.
pub fn tokenize(input: &[u8]) -> (r: Result<Vec<Token>, LexerError>)
    ensures
        (match r {
            Ok(ts) => spec_tokenize(input@) == Some(tokens_view(ts@)),
            Err(_) => spec_tokenize(input@) is None,
        }),
{
    let mut ts: Vec<Token> = Vec::new();
    let mut i: usize = 0;
    proof {
        assert(tokens_view(ts@) =~= Seq::<TokenV>::empty());
    }
    while i < input.len()
        invariant
            i <= input.len(),
            (match lex_from(input@, i as int) {
                Some(rest) => lex_from(input@, 0) == Some(tokens_view(ts@) + rest),
                None => lex_from(input@, 0) is None,
            }),
        decreases input.len() - i,
    {
        match lex_line(input, i) {
            Some((lts, j)) => {
                let ghost ltsv = lts@;
                let mut rest = lts;
                ts.append(&mut rest);
                proof {
                    assert(tokens_view(ts@) =~= tokens_view(ts@.subrange(
                        0,
                        ts@.len() - ltsv.len(),
                    )) + tokens_view(ltsv));
                }
                i = j;
            },
            None => {
                return Err(LexerError::new());
            },
        }
    }
    Ok(ts)
}

} // verus!
