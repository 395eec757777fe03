//! The code generator: translates validated expressions into the
//! CHIP-8 byte image in two passes over the expression list.
//!
//! Pass 1 walks the expressions in order, keeping an address counter,
//! a symbol table and a 4 KiB opcode buffer.  Labels are recorded at
//! the current counter; `org` resets the counter; `db` writes raw
//! bytes; instructions are encoded to one 16-bit big-endian opcode.
//! An instruction whose label operand is not yet defined is deferred:
//! its two-byte slot is reserved and it is revisited in pass 2, where
//! every label must resolve.  The image is then trimmed to the high
//! water mark, and its first 0x200 bytes are dropped when it reaches
//! that far (CHIP-8 programs load at 0x200).

use vstd::prelude::*;

use crate::assembler::lexer::{
    classify_register, mnem_of, reg_of, tokens_view, Mnemonic, RegClass, Token, TokenV,
};
use crate::assembler::parser::{exprs_view, Expression};
use crate::assembler::semantics::{check, valid_expr};

verus! {

/// The errors the code generator can report.  `AddressOutOfRange` is
/// returned when a write would land outside the 4 KiB address space.
#[derive(Debug, PartialEq, Eq, Structural, Clone, Copy)]
pub enum CodegenError {
    /// An expression failed semantic validation.
    Semantics,
    /// A label was declared twice.
    DuplicateLabel,
    /// A deferred instruction's label is still missing in pass 2.
    UndefinedLabel,
    /// An operand shape matching no row of the encoding table.
    InvalidEncoding,
    /// A write outside the 4 KiB address space.
    AddressOutOfRange,
}

/// What encoding an instruction gets under a given symbol table.
#[derive(Debug, PartialEq, Eq, Structural, Clone, Copy)]
pub enum EncOutcome {
    /// The two opcode bytes, most significant first.
    Bytes(u8, u8),
    /// A label operand is not in the symbol table yet.
    Defer,
    /// No row of the encoding table matches.
    Invalid,
}

/// The mathematical state of the generator.
#[verifier::ext_equal]
pub struct GenState {
    /// The next write position.
    pub counter: u32,
    /// The symbol table: label name to address.
    pub labels: Map<Seq<u8>, u32>,
    /// The 4 KiB opcode buffer.
    pub mem: Seq<u8>,
    /// The deferred instructions: reserved address and expression.
    pub queue: Seq<(u32, Seq<TokenV>)>,
    /// The high water mark: one past the largest address written or
    /// reserved.
    pub hwm: u32,
}

/// The buffer size: the CHIP-8 address space is 4 KiB.
pub const MEM_SIZE: u32 = 4096;

/// The load address of CHIP-8 programs.
pub const LOAD_ADDR: u32 = 0x200;

pub open spec fn init_state() -> GenState {
    GenState {
        counter: 0,
        labels: Map::empty(),
        mem: Seq::new(MEM_SIZE as nat, |i: int| 0u8),
        queue: Seq::empty(),
        hwm: 0,
    }
}

// ---------------------------------------------------------------------
// The encoding table (the 16-bit opcode of each operand shape).
// ---------------------------------------------------------------------

/// The register named by a token, if it is a register token.
pub open spec fn tok_reg(t: TokenV) -> Option<RegClass> {
    match t {
        TokenV::Register(n) => reg_of(n),
        _ => None,
    }
}

/// The general purpose register index of a token, if it names one.
pub open spec fn gp_idx(t: TokenV) -> Option<u8> {
    match tok_reg(t) {
        Some(RegClass::Gp(x)) => Some(x),
        _ => None,
    }
}

/// An address operand under a symbol table: a numeric literal is
/// known; a label operand is known when the table holds it.
pub enum AddrRes {
    Known(u32),
    Unknown,
    Bad,
}

pub open spec fn addr_operand(t: TokenV, labels: Map<Seq<u8>, u32>) -> AddrRes {
    match t {
        TokenV::NumericLiteral(v) => AddrRes::Known(v),
        TokenV::LabelOperand(n) => if labels.dom().contains(n) {
            AddrRes::Known(labels[n])
        } else {
            AddrRes::Unknown
        },
        _ => AddrRes::Bad,
    }
}

/// The two opcode bytes of a 12-bit address form: `first | high
/// nibble` then the low byte.  The address uses the low 12 bits of
/// the operand.
pub open spec fn addr_bytes(first: u8, v: u32) -> (u8, u8) {
    (first | (((v >> 8) & 0xF) as u8), (v & 0xFF) as u8)
}

/// `JP nnn` / `JR nnn` / `CALL nnn`, immediate or through a label.
pub open spec fn jump_enc(first: u8, t: TokenV, labels: Map<Seq<u8>, u32>) -> EncOutcome {
    match addr_operand(t, labels) {
        AddrRes::Known(v) => EncOutcome::Bytes(addr_bytes(first, v).0, addr_bytes(first, v).1),
        AddrRes::Unknown => EncOutcome::Defer,
        AddrRes::Bad => EncOutcome::Invalid,
    }
}

/// `SE` / `SNE`: `first xnn` with a numeric, `second xy0` with a
/// register.
pub open spec fn se_enc(first: u8, second: u8, e: Seq<TokenV>) -> EncOutcome {
    match gp_idx(e[1]) {
        Some(x) => match e[2] {
            TokenV::NumericLiteral(kk) => EncOutcome::Bytes(first | x, (kk & 0xFF) as u8),
            TokenV::Register(n2) => match reg_of(n2) {
                Some(RegClass::Gp(y)) => EncOutcome::Bytes(second | x, (y << 4) as u8),
                _ => EncOutcome::Invalid,
            },
            _ => EncOutcome::Invalid,
        },
        None => EncOutcome::Invalid,
    }
}

/// The `8xy?` family: `LD`, `OR`, `AND`, `XOR`, `ADD`, `SUB`, `SHR`,
/// `SUBN`, `SHL` on two general purpose registers, distinguished by
/// the low nibble.
pub open spec fn alu_enc(last: u8, e: Seq<TokenV>) -> EncOutcome {
    match (gp_idx(e[1]), gp_idx(e[2])) {
        (Some(x), Some(y)) => EncOutcome::Bytes(0x80 | x, ((y << 4) | last) as u8),
        _ => EncOutcome::Invalid,
    }
}

/// `ADD`: `7xnn`, `8xy4`, or `Fx1E` for `ADD I, Vx`.
pub open spec fn add_enc(e: Seq<TokenV>) -> EncOutcome {
    match tok_reg(e[1]) {
        Some(RegClass::Gp(x)) => match e[2] {
            TokenV::NumericLiteral(kk) => EncOutcome::Bytes(0x70 | x, (kk & 0xFF) as u8),
            TokenV::Register(n2) => match reg_of(n2) {
                Some(RegClass::Gp(y)) => EncOutcome::Bytes(0x80 | x, ((y << 4) | 0x04) as u8),
                _ => EncOutcome::Invalid,
            },
            _ => EncOutcome::Invalid,
        },
        Some(RegClass::I) => match e[2] {
            TokenV::Register(n2) => match reg_of(n2) {
                Some(RegClass::Gp(y)) => EncOutcome::Bytes(0xF0 | y, 0x1E),
                _ => EncOutcome::Invalid,
            },
            _ => EncOutcome::Invalid,
        },
        _ => EncOutcome::Invalid,
    }
}

/// `SKP Vx` / `SKNP Vx`: `Ex9E` / `ExA1`.
pub open spec fn skip_enc(last: u8, e: Seq<TokenV>) -> EncOutcome {
    match gp_idx(e[1]) {
        Some(x) => EncOutcome::Bytes(0xE0 | x, last),
        None => EncOutcome::Invalid,
    }
}

/// `RND Vx, nn`: `Cxnn`.
pub open spec fn rnd_enc(e: Seq<TokenV>) -> EncOutcome {
    match gp_idx(e[1]) {
        Some(x) => match e[2] {
            TokenV::NumericLiteral(kk) => EncOutcome::Bytes(0xC0 | x, (kk & 0xFF) as u8),
            _ => EncOutcome::Invalid,
        },
        None => EncOutcome::Invalid,
    }
}

/// `DRW Vx, Vy, n`: `Dxyn` with a 4-bit immediate.
pub open spec fn drw_enc(e: Seq<TokenV>) -> EncOutcome {
    match (gp_idx(e[1]), gp_idx(e[2])) {
        (Some(x), Some(y)) => match e[3] {
            TokenV::NumericLiteral(n) => EncOutcome::Bytes(
                0xD0 | x,
                ((y << 4) | ((n & 0xF) as u8)) as u8,
            ),
            _ => EncOutcome::Invalid,
        },
        _ => EncOutcome::Invalid,
    }
}

/// The eleven `LD` rows, selected by operand shape.
pub open spec fn ld_enc(e: Seq<TokenV>, labels: Map<Seq<u8>, u32>) -> EncOutcome {
    match tok_reg(e[1]) {
        Some(RegClass::Gp(x)) => match e[2] {
            TokenV::NumericLiteral(kk) => EncOutcome::Bytes(0x60 | x, (kk & 0xFF) as u8),
            TokenV::Register(n2) => match reg_of(n2) {
                Some(RegClass::Gp(y)) => EncOutcome::Bytes(0x80 | x, (y << 4) as u8),
                Some(RegClass::Dt) => EncOutcome::Bytes(0xF0 | x, 0x07),
                Some(RegClass::K) => EncOutcome::Bytes(0xF0 | x, 0x0A),
                Some(RegClass::MemI) => EncOutcome::Bytes(0xF0 | x, 0x65),
                _ => EncOutcome::Invalid,
            },
            _ => EncOutcome::Invalid,
        },
        Some(RegClass::I) => match addr_operand(e[2], labels) {
            AddrRes::Known(v) => EncOutcome::Bytes(addr_bytes(0xA0, v).0, addr_bytes(0xA0, v).1),
            AddrRes::Unknown => EncOutcome::Defer,
            AddrRes::Bad => EncOutcome::Invalid,
        },
        Some(RegClass::Dt) => match e[2] {
            TokenV::Register(n2) => match reg_of(n2) {
                Some(RegClass::Gp(y)) => EncOutcome::Bytes(0xF0 | y, 0x15),
                _ => EncOutcome::Invalid,
            },
            _ => EncOutcome::Invalid,
        },
        Some(RegClass::St) => match e[2] {
            TokenV::Register(n2) => match reg_of(n2) {
                Some(RegClass::Gp(y)) => EncOutcome::Bytes(0xF0 | y, 0x18),
                _ => EncOutcome::Invalid,
            },
            _ => EncOutcome::Invalid,
        },
        Some(RegClass::F) => match e[2] {
            TokenV::Register(n2) => match reg_of(n2) {
                Some(RegClass::Gp(y)) => EncOutcome::Bytes(0xF0 | y, 0x29),
                _ => EncOutcome::Invalid,
            },
            _ => EncOutcome::Invalid,
        },
        Some(RegClass::B) => match e[2] {
            TokenV::Register(n2) => match reg_of(n2) {
                Some(RegClass::Gp(y)) => EncOutcome::Bytes(0xF0 | y, 0x33),
                _ => EncOutcome::Invalid,
            },
            _ => EncOutcome::Invalid,
        },
        Some(RegClass::MemI) => match e[2] {
            TokenV::Register(n2) => match reg_of(n2) {
                Some(RegClass::Gp(y)) => EncOutcome::Bytes(0xF0 | y, 0x55),
                _ => EncOutcome::Invalid,
            },
            _ => EncOutcome::Invalid,
        },
        _ => EncOutcome::Invalid,
    }
}

/// The encoding of one instruction expression under a symbol table:
/// the opcode encoding table of the assembler, keyed by mnemonic and
/// operand shape.
pub open spec fn encode(e: Seq<TokenV>, labels: Map<Seq<u8>, u32>) -> EncOutcome {
    match e[0] {
        TokenV::Instruction(name) => match mnem_of(name) {
            Some(Mnemonic::Cls) => EncOutcome::Bytes(0x00, 0xE0),
            Some(Mnemonic::Ret) => EncOutcome::Bytes(0x00, 0xEE),
            Some(Mnemonic::Jp) => jump_enc(0x10, e[1], labels),
            Some(Mnemonic::Jr) => jump_enc(0xB0, e[1], labels),
            Some(Mnemonic::Call) => jump_enc(0x20, e[1], labels),
            Some(Mnemonic::Se) => se_enc(0x30, 0x50, e),
            Some(Mnemonic::Sne) => se_enc(0x40, 0x90, e),
            Some(Mnemonic::Ld) => ld_enc(e, labels),
            Some(Mnemonic::Add) => add_enc(e),
            Some(Mnemonic::Or) => alu_enc(0x01, e),
            Some(Mnemonic::And) => alu_enc(0x02, e),
            Some(Mnemonic::Xor) => alu_enc(0x03, e),
            Some(Mnemonic::Sub) => alu_enc(0x05, e),
            Some(Mnemonic::Shr) => alu_enc(0x06, e),
            Some(Mnemonic::Subn) => alu_enc(0x07, e),
            Some(Mnemonic::Shl) => alu_enc(0x0E, e),
            Some(Mnemonic::Rnd) => rnd_enc(e),
            Some(Mnemonic::Drw) => drw_enc(e),
            Some(Mnemonic::Skp) => skip_enc(0x9E, e),
            Some(Mnemonic::Sknp) => skip_enc(0xA1, e),
            Some(Mnemonic::Sys) => EncOutcome::Invalid,
            None => EncOutcome::Invalid,
        },
        _ => EncOutcome::Invalid,
    }
}

// ---------------------------------------------------------------------
// The two-pass state machine.
// ---------------------------------------------------------------------

/// Advance the counter by `by`, raising the high water mark.
pub open spec fn bump(st: GenState, by: u32) -> GenState
    recommends
        st.counter + by <= u32::MAX,
{
    let c = (st.counter + by) as u32;
    GenState {
        counter: c,
        hwm: if c > st.hwm {
            c
        } else {
            st.hwm
        },
        ..st
    }
}

/// Emit one opcode at the counter: two bytes, most significant first.
pub open spec fn emit_op(st: GenState, hi: u8, lo: u8) -> Result<GenState, CodegenError> {
    if st.counter + 1 < MEM_SIZE {
        Ok(
            bump(
                GenState {
                    mem: st.mem.update(st.counter as int, hi).update(st.counter + 1, lo),
                    ..st
                },
                2,
            ),
        )
    } else {
        Err(CodegenError::AddressOutOfRange)
    }
}

/// Emit one raw byte at the counter.
pub open spec fn emit_byte(st: GenState, b: u8) -> Result<GenState, CodegenError> {
    if st.counter < MEM_SIZE {
        Ok(bump(GenState { mem: st.mem.update(st.counter as int, b), ..st }, 1))
    } else {
        Err(CodegenError::AddressOutOfRange)
    }
}

/// Reserve the two-byte slot of a deferred instruction and queue it.
pub open spec fn reserve_op(st: GenState, e: Seq<TokenV>) -> Result<GenState, CodegenError> {
    if st.counter + 1 < MEM_SIZE {
        Ok(bump(GenState { queue: st.queue.push((st.counter, e)), ..st }, 2))
    } else {
        Err(CodegenError::AddressOutOfRange)
    }
}

/// Write the `db` byte values from token `k` on, each truncated to 8
/// bits, advancing the counter by one per byte.
pub open spec fn write_db(st: GenState, e: Seq<TokenV>, k: int) -> Result<GenState, CodegenError>
    decreases e.len() - k when 0 <= k <= e.len()
{
    if k >= e.len() {
        Ok(st)
    } else {
        match e[k] {
            TokenV::NumericLiteral(v) => match emit_byte(st, (v & 0xFF) as u8) {
                Ok(st2) => write_db(st2, e, k + 1),
                Err(er) => Err(er),
            },
            _ => write_db(st, e, k + 1),
        }
    }
}

/// One instruction: encode under the current symbol table, then emit,
/// defer, or fail.  In pass 2 an unresolved label is an error.
pub open spec fn instr_step(st: GenState, e: Seq<TokenV>, second_pass: bool) -> Result<
    GenState,
    CodegenError,
> {
    match encode(e, st.labels) {
        EncOutcome::Bytes(hi, lo) => emit_op(st, hi, lo),
        EncOutcome::Defer => if second_pass {
            Err(CodegenError::UndefinedLabel)
        } else {
            reserve_op(st, e)
        },
        EncOutcome::Invalid => Err(CodegenError::InvalidEncoding),
    }
}

/// A label declaration: record the current counter under the name,
/// unless the name is already taken.
pub open spec fn label_step(st: GenState, e: Seq<TokenV>) -> Result<GenState, CodegenError> {
    match e[0] {
        TokenV::Label(n) => if st.labels.dom().contains(n) {
            Err(CodegenError::DuplicateLabel)
        } else {
            Ok(GenState { labels: st.labels.insert(n, st.counter), ..st })
        },
        _ => Err(CodegenError::Semantics),
    }
}

/// A directive: `org` resets the counter, `db` writes its byte
/// values.
pub open spec fn dir_step(st: GenState, e: Seq<TokenV>) -> Result<GenState, CodegenError> {
    match e[0] {
        TokenV::Directive(name) => match crate::assembler::lexer::dir_of(name) {
            Some(crate::assembler::lexer::DirKind::Org) => match e[1] {
                TokenV::NumericLiteral(v) => Ok(GenState { counter: v, ..st }),
                _ => Err(CodegenError::Semantics),
            },
            Some(crate::assembler::lexer::DirKind::Db) => write_db(st, e, 1),
            None => Err(CodegenError::Semantics),
        },
        _ => Err(CodegenError::Semantics),
    }
}

/// Process one expression: validate it, then dispatch on its head.
pub open spec fn step(st: GenState, e: Seq<TokenV>, second_pass: bool) -> Result<
    GenState,
    CodegenError,
> {
    if !valid_expr(e) {
        Err(CodegenError::Semantics)
    } else {
        match e[0] {
            TokenV::Label(_) => label_step(st, e),
            TokenV::Directive(_) => dir_step(st, e),
            TokenV::Instruction(_) => instr_step(st, e, second_pass),
            _ => Err(CodegenError::Semantics),
        }
    }
}

/// Pass 1 over the expression list.
pub open spec fn pass1(st: GenState, es: Seq<Seq<TokenV>>) -> Result<GenState, CodegenError>
    decreases es.len(),
{
    if es.len() == 0 {
        Ok(st)
    } else {
        match step(st, es[0], false) {
            Ok(st2) => pass1(st2, es.drop_first()),
            Err(er) => Err(er),
        }
    }
}

/// One deferred instruction in pass 2: restore the counter to the
/// reserved address and re-emit under the full symbol table.
pub open spec fn step2(st: GenState, item: (u32, Seq<TokenV>)) -> Result<GenState, CodegenError> {
    step(GenState { counter: item.0, ..st }, item.1, true)
}

/// Pass 2 over the deferred instructions, in the order recorded.
pub open spec fn pass2(st: GenState, items: Seq<(u32, Seq<TokenV>)>) -> Result<
    GenState,
    CodegenError,
>
    decreases items.len(),
{
    if items.len() == 0 {
        Ok(st)
    } else {
        match step2(st, items[0]) {
            Ok(st2) => pass2(st2, items.drop_first()),
            Err(er) => Err(er),
        }
    }
}

/// Trim the image: keep the bytes below the high water mark, then
/// drop the first 0x200 bytes when the image reaches that far.
pub open spec fn trim(st: GenState) -> Seq<u8> {
    let reduced = st.mem.take(st.hwm as int);
    if reduced.len() < LOAD_ADDR {
        reduced
    } else {
        reduced.skip(LOAD_ADDR as int)
    }
}

/// The bytes generated from a validated expression list, or the first
/// error encountered.
pub open spec fn spec_generate(es: Seq<Seq<TokenV>>) -> Result<Seq<u8>, CodegenError> {
    match pass1(init_state(), es) {
        Err(er) => Err(er),
        Ok(st1) => match pass2(st1, st1.queue) {
            Err(er) => Err(er),
            Ok(st2) => Ok(trim(st2)),
        },
    }
}

// ---------------------------------------------------------------------
// The symbol table: an association list of unique label names.
// ---------------------------------------------------------------------

/// The map an association list stands for.
pub open spec fn map_of_entries(es: Seq<(Vec<u8>, u32)>) -> Map<Seq<u8>, u32>
    decreases es.len(),
{
    if es.len() == 0 {
        Map::empty()
    } else {
        map_of_entries(es.drop_last()).insert(es.last().0@, es.last().1)
    }
}

/// Whether the entries carry pairwise distinct names.
pub open spec fn entries_unique(es: Seq<(Vec<u8>, u32)>) -> bool {
    forall|i: int, j: int| 0 <= i < j < es.len() ==> (#[trigger] es[i]).0@ != (#[trigger] es[j]).0@
}

/// What the map of an association list holds: exactly the listed
/// names, and (for unique entries) the listed values.
pub proof fn lemma_map_of_entries(es: Seq<(Vec<u8>, u32)>)
    ensures
        forall|i: int|
            0 <= i < es.len() ==> map_of_entries(es).dom().contains((#[trigger] es[i]).0@),
        forall|k: Seq<u8>| #[trigger]
            map_of_entries(es).dom().contains(k) ==> exists|i: int|
                0 <= i < es.len() && (#[trigger] es[i]).0@ == k,
        entries_unique(es) ==> forall|i: int|
            0 <= i < es.len() ==> map_of_entries(es)[(#[trigger] es[i]).0@] == es[i].1,
    decreases es.len(),
{
    if es.len() > 0 {
        let pre = es.drop_last();
        lemma_map_of_entries(pre);
        assert forall|i: int| 0 <= i < es.len() implies map_of_entries(es).dom().contains((
        #[trigger] es[i]).0@) by {
            if i < es.len() - 1 {
                assert(pre[i] == es[i]);
                assert(map_of_entries(pre).dom().contains(pre[i].0@));
            }
        }
        assert forall|k: Seq<u8>| #[trigger]
            map_of_entries(es).dom().contains(k) implies exists|i: int|
            0 <= i < es.len() && (#[trigger] es[i]).0@ == k by {
            if k == es.last().0@ {
                assert(es[es.len() - 1].0@ == k);
            } else {
                assert(map_of_entries(pre).dom().contains(k));
                let i = choose|i: int| 0 <= i < pre.len() && (#[trigger] pre[i]).0@ == k;
                assert(es[i].0@ == k);
            }
        }
        if entries_unique(es) {
            assert(entries_unique(pre)) by {
                assert forall|i: int, j: int| 0 <= i < j < pre.len() implies (
                #[trigger] pre[i]).0@ != (#[trigger] pre[j]).0@ by {
                    assert(pre[i] == es[i]);
                    assert(pre[j] == es[j]);
                }
            }
            assert forall|i: int| 0 <= i < es.len() implies map_of_entries(es)[(
            #[trigger] es[i]).0@] == es[i].1 by {
                if i < es.len() - 1 {
                    assert(pre[i] == es[i]);
                    assert(es[i].0@ != es.last().0@);
                    assert(map_of_entries(pre)[pre[i].0@] == pre[i].1);
                }
            }
        }
    }
}

/// Whether two byte strings hold the same bytes.
pub fn bytes_equal(a: &[u8], b: &[u8]) -> (r: bool)
    ensures
        r == (a@ == b@),
{
    if a.len() != b.len() {
        assert(a@ != b@) by {
            assert(a@.len() != b@.len());
        }
        return false;
    }
    let mut i: usize = 0;
    while i < a.len()
        invariant
            i <= a.len(),
            a@.len() == b@.len(),
            forall|k: int| 0 <= k < i ==> a@[k] == b@[k],
        decreases a.len() - i,
    {
        if a[i] != b[i] {
            return false;
        }
        i = i + 1;
    }
    proof {
        assert(a@ =~= b@);
    }
    true
}

/// Whether the symbol table holds a name.
fn labels_contain(labels: &Vec<(Vec<u8>, u32)>, name: &Vec<u8>) -> (r: bool)
    ensures
        r == map_of_entries(labels@).dom().contains(name@),
{
    proof {
        lemma_map_of_entries(labels@);
    }
    let mut i: usize = 0;
    while i < labels.len()
        invariant
            i <= labels.len(),
            forall|k: int| 0 <= k < i ==> (#[trigger] labels@[k]).0@ != name@,
        decreases labels.len() - i,
    {
        if bytes_equal(labels[i].0.as_slice(), name.as_slice()) {
            assert(labels@[i as int].0@ == name@);
            proof {
                lemma_map_of_entries(labels@);
            }
            return true;
        }
        i = i + 1;
    }
    proof {
        assert(forall|j: int| 0 <= j < labels@.len() ==> (#[trigger] labels@[j]).0@ != name@);
    }
    false
}

/// Writing `db` bytes never touches the deferred queue.
pub proof fn lemma_write_db_preserves_queue(st: GenState, e: Seq<TokenV>, k: int)
    requires
        0 <= k <= e.len(),
    ensures
        write_db(st, e, k) matches Ok(st2) ==> st2.queue == st.queue,
    decreases e.len() - k,
{
    if k < e.len() {
        match e[k] {
            TokenV::NumericLiteral(v) => {
                match emit_byte(st, (v & 0xFF) as u8) {
                    Ok(st2) => {
                        lemma_write_db_preserves_queue(st2, e, k + 1);
                    },
                    Err(_) => {},
                }
            },
            _ => {
                lemma_write_db_preserves_queue(st, e, k + 1);
            },
        }
    }
}

/// In pass 2 a successful step never touches the deferred queue.
pub proof fn lemma_step2_preserves_queue(st: GenState, e: Seq<TokenV>)
    ensures
        step(st, e, true) matches Ok(st2) ==> st2.queue == st.queue,
{
    if valid_expr(e) {
        match e[0] {
            TokenV::Directive(_) => {
                if e.len() > 0 {
                    lemma_write_db_preserves_queue(st, e, 1);
                }
            },
            _ => {},
        }
    }
}

/// The address a name maps to, when the table holds it.
fn labels_get(labels: &Vec<(Vec<u8>, u32)>, name: &Vec<u8>) -> (r: Option<u32>)
    requires
        entries_unique(labels@),
    ensures
        (match r {
            Some(a) => map_of_entries(labels@).dom().contains(name@)
                && map_of_entries(labels@)[name@] == a,
            None => !map_of_entries(labels@).dom().contains(name@),
        }),
{
    proof {
        lemma_map_of_entries(labels@);
    }
    let mut i: usize = 0;
    while i < labels.len()
        invariant
            i <= labels.len(),
            entries_unique(labels@),
            forall|k: int| 0 <= k < i ==> (#[trigger] labels@[k]).0@ != name@,
        decreases labels.len() - i,
    {
        if bytes_equal(labels[i].0.as_slice(), name.as_slice()) {
            assert(labels@[i as int].0@ == name@);
            proof {
                lemma_map_of_entries(labels@);
            }
            return Some(labels[i].1);
        }
        i = i + 1;
    }
    proof {
        assert(forall|j: int| 0 <= j < labels@.len() ==> (#[trigger] labels@[j]).0@ != name@);
    }
    None
}

// ---------------------------------------------------------------------
// The executable encoder.
// ---------------------------------------------------------------------

/// The register a token names, if it is a register token.
fn reg_of_token(t: &Token) -> (r: Option<RegClass>)
    ensures
        r == tok_reg(t@),
{
    match t {
        Token::Register(n) => classify_register(n.as_slice()),
        _ => None,
    }
}

/// The general purpose register index a token names, if any.
fn gp_of_token(t: &Token) -> (r: Option<u8>)
    ensures
        r == gp_idx(t@),
{
    match reg_of_token(t) {
        Some(RegClass::Gp(x)) => Some(x),
        _ => None,
    }
}

/// Encode one instruction expression under the symbol table: the
/// executable form of the opcode encoding table.
fn encode_instruction(expr: &Expression, labels: &Vec<(Vec<u8>, u32)>) -> (r: EncOutcome)
    requires
        entries_unique(labels@),
        valid_expr(tokens_view(expr@)),
        tokens_view(expr@)[0] is Instruction,
    ensures
        r == encode(tokens_view(expr@), map_of_entries(labels@)),
{
    let ghost ev = tokens_view(expr@);
    let m = match &expr[0] {
        Token::Instruction(name) => crate::assembler::lexer::classify_mnemonic(name.as_slice()),
        _ => None,
    };
    match m {
        None => EncOutcome::Invalid,
        Some(Mnemonic::Cls) => EncOutcome::Bytes(0x00, 0xE0),
        Some(Mnemonic::Ret) => EncOutcome::Bytes(0x00, 0xEE),
        Some(Mnemonic::Sys) => EncOutcome::Invalid,
        Some(Mnemonic::Jp) => encode_jump(0x10, expr, labels),
        Some(Mnemonic::Jr) => encode_jump(0xB0, expr, labels),
        Some(Mnemonic::Call) => encode_jump(0x20, expr, labels),
        Some(Mnemonic::Se) => encode_skip_equal(0x30, 0x50, expr),
        Some(Mnemonic::Sne) => encode_skip_equal(0x40, 0x90, expr),
        Some(Mnemonic::Or) => encode_alu(0x01, expr),
        Some(Mnemonic::And) => encode_alu(0x02, expr),
        Some(Mnemonic::Xor) => encode_alu(0x03, expr),
        Some(Mnemonic::Sub) => encode_alu(0x05, expr),
        Some(Mnemonic::Shr) => encode_alu(0x06, expr),
        Some(Mnemonic::Subn) => encode_alu(0x07, expr),
        Some(Mnemonic::Shl) => encode_alu(0x0E, expr),
        Some(Mnemonic::Add) => {
            match reg_of_token(&expr[1]) {
                Some(RegClass::Gp(x)) => match &expr[2] {
                    Token::NumericLiteral(kk) => EncOutcome::Bytes(0x70 | x, (*kk & 0xFF) as u8),
                    Token::Register(_) => match gp_of_token(&expr[2]) {
                        Some(y) => EncOutcome::Bytes(0x80 | x, (y << 4) | 0x04),
                        None => EncOutcome::Invalid,
                    },
                    _ => EncOutcome::Invalid,
                },
                Some(RegClass::I) => match &expr[2] {
                    Token::Register(_) => match gp_of_token(&expr[2]) {
                        Some(y) => EncOutcome::Bytes(0xF0 | y, 0x1E),
                        None => EncOutcome::Invalid,
                    },
                    _ => EncOutcome::Invalid,
                },
                _ => EncOutcome::Invalid,
            }
        },
        Some(Mnemonic::Rnd) => {
            match gp_of_token(&expr[1]) {
                Some(x) => match &expr[2] {
                    Token::NumericLiteral(kk) => EncOutcome::Bytes(0xC0 | x, (*kk & 0xFF) as u8),
                    _ => EncOutcome::Invalid,
                },
                None => EncOutcome::Invalid,
            }
        },
        Some(Mnemonic::Drw) => {
            match (gp_of_token(&expr[1]), gp_of_token(&expr[2])) {
                (Some(x), Some(y)) => match &expr[3] {
                    Token::NumericLiteral(n) => EncOutcome::Bytes(
                        0xD0 | x,
                        (y << 4) | ((*n & 0xF) as u8),
                    ),
                    _ => EncOutcome::Invalid,
                },
                _ => EncOutcome::Invalid,
            }
        },
        Some(Mnemonic::Skp) => {
            match gp_of_token(&expr[1]) {
                Some(x) => EncOutcome::Bytes(0xE0 | x, 0x9E),
                None => EncOutcome::Invalid,
            }
        },
        Some(Mnemonic::Sknp) => {
            match gp_of_token(&expr[1]) {
                Some(x) => EncOutcome::Bytes(0xE0 | x, 0xA1),
                None => EncOutcome::Invalid,
            }
        },
        Some(Mnemonic::Ld) => encode_load(expr, labels),
    }
}

/// `JP` / `JR` / `CALL`: a 12-bit address, immediate or through a
/// label.
fn encode_jump(first: u8, expr: &Expression, labels: &Vec<(Vec<u8>, u32)>) -> (r: EncOutcome)
    requires
        entries_unique(labels@),
        tokens_view(expr@).len() >= 2,
    ensures
        r == jump_enc(first, tokens_view(expr@)[1], map_of_entries(labels@)),
{
    proof {
        assert(tokens_view(expr@)[1] == expr@[1]@);
    }
    match &expr[1] {
        Token::NumericLiteral(v) => EncOutcome::Bytes(
            first | (((*v >> 8) & 0xF) as u8),
            (*v & 0xFF) as u8,
        ),
        Token::LabelOperand(n) => {
            match labels_get(labels, n) {
                Some(a) => EncOutcome::Bytes(first | (((a >> 8) & 0xF) as u8), (a & 0xFF) as u8),
                None => EncOutcome::Defer,
            }
        },
        _ => EncOutcome::Invalid,
    }
}

/// `SE` / `SNE`: `first xnn` with a numeric, `second xy0` with a
/// register.
fn encode_skip_equal(first: u8, second: u8, expr: &Expression) -> (r: EncOutcome)
    requires
        tokens_view(expr@).len() >= 3,
    ensures
        r == se_enc(first, second, tokens_view(expr@)),
{
    match gp_of_token(&expr[1]) {
        Some(x) => match &expr[2] {
            Token::NumericLiteral(kk) => EncOutcome::Bytes(first | x, (*kk & 0xFF) as u8),
            Token::Register(_) => match gp_of_token(&expr[2]) {
                Some(y) => EncOutcome::Bytes(second | x, y << 4),
                None => EncOutcome::Invalid,
            },
            _ => EncOutcome::Invalid,
        },
        None => EncOutcome::Invalid,
    }
}

/// The `8xy?` family on two general purpose registers.
fn encode_alu(last: u8, expr: &Expression) -> (r: EncOutcome)
    requires
        tokens_view(expr@).len() >= 3,
    ensures
        r == alu_enc(last, tokens_view(expr@)),
{
    match (gp_of_token(&expr[1]), gp_of_token(&expr[2])) {
        (Some(x), Some(y)) => EncOutcome::Bytes(0x80 | x, (y << 4) | last),
        _ => EncOutcome::Invalid,
    }
}

/// The eleven `LD` rows, selected by operand shape.
fn encode_load(expr: &Expression, labels: &Vec<(Vec<u8>, u32)>) -> (r: EncOutcome)
    requires
        entries_unique(labels@),
        tokens_view(expr@).len() >= 3,
    ensures
        r == ld_enc(tokens_view(expr@), map_of_entries(labels@)),
{
    proof {
        assert(tokens_view(expr@)[1] == expr@[1]@);
        assert(tokens_view(expr@)[2] == expr@[2]@);
    }
    match reg_of_token(&expr[1]) {
        Some(RegClass::Gp(x)) => match &expr[2] {
            Token::NumericLiteral(kk) => EncOutcome::Bytes(0x60 | x, (*kk & 0xFF) as u8),
            Token::Register(_) => match reg_of_token(&expr[2]) {
                Some(RegClass::Gp(y)) => EncOutcome::Bytes(0x80 | x, y << 4),
                Some(RegClass::Dt) => EncOutcome::Bytes(0xF0 | x, 0x07),
                Some(RegClass::K) => EncOutcome::Bytes(0xF0 | x, 0x0A),
                Some(RegClass::MemI) => EncOutcome::Bytes(0xF0 | x, 0x65),
                _ => EncOutcome::Invalid,
            },
            _ => EncOutcome::Invalid,
        },
        Some(RegClass::I) => match &expr[2] {
            Token::NumericLiteral(v) => EncOutcome::Bytes(
                0xA0 | (((*v >> 8) & 0xF) as u8),
                (*v & 0xFF) as u8,
            ),
            Token::LabelOperand(n) => {
                match labels_get(labels, n) {
                    Some(a) => EncOutcome::Bytes(
                        0xA0 | (((a >> 8) & 0xF) as u8),
                        (a & 0xFF) as u8,
                    ),
                    None => EncOutcome::Defer,
                }
            },
            _ => EncOutcome::Invalid,
        },
        Some(RegClass::Dt) => encode_store_gp(0x15, expr),
        Some(RegClass::St) => encode_store_gp(0x18, expr),
        Some(RegClass::F) => encode_store_gp(0x29, expr),
        Some(RegClass::B) => encode_store_gp(0x33, expr),
        Some(RegClass::MemI) => encode_store_gp(0x55, expr),
        _ => EncOutcome::Invalid,
    }
}

/// The `Fx??` rows whose single variable is the general purpose
/// register in the second operand.
fn encode_store_gp(last: u8, expr: &Expression) -> (r: EncOutcome)
    requires
        tokens_view(expr@).len() >= 3,
    ensures
        r == (match tokens_view(expr@)[2] {
            TokenV::Register(n2) => match reg_of(n2) {
                Some(RegClass::Gp(y)) => EncOutcome::Bytes(0xF0 | y, last),
                _ => EncOutcome::Invalid,
            },
            _ => EncOutcome::Invalid,
        }),
{
    match &expr[2] {
        Token::Register(_) => match gp_of_token(&expr[2]) {
            Some(y) => EncOutcome::Bytes(0xF0 | y, last),
            None => EncOutcome::Invalid,
        },
        _ => EncOutcome::Invalid,
    }
}

// ---------------------------------------------------------------------
// The generator itself.
// ---------------------------------------------------------------------

/// An instruction deferred to pass 2: the address reserved for it and
/// its expression.
pub struct IncompleteInstruction {
    pub address: u32,
    pub expr: Expression,
}

impl IncompleteInstruction {
    pub fn new(address: u32, expr: Expression) -> (r: Self)
        ensures
            r.address == address,
            r.expr == expr,
    {
        IncompleteInstruction { address, expr }
    }
}

/// The deferred queue as the model sees it.
pub open spec fn queue_view(q: Seq<IncompleteInstruction>) -> Seq<(u32, Seq<TokenV>)> {
    q.map_values(|it: IncompleteInstruction| (it.address, tokens_view(it.expr@)))
}

/// A copy of an expression with the same token views.
fn duplicate_expression(e: &Expression) -> (r: Expression)
    ensures
        tokens_view(r@) == tokens_view(e@),
{
    let mut r: Expression = Vec::new();
    let mut k: usize = 0;
    while k < e.len()
        invariant
            k <= e.len(),
            tokens_view(r@) =~= tokens_view(e@).take(k as int),
        decreases e.len() - k,
    {
        let t = e[k].duplicate();
        let ghost rpre = r@;
        r.push(t);
        proof {
            assert(tokens_view(rpre.push(t)) =~= tokens_view(rpre).push(t@));
            assert(tokens_view(e@).take(k + 1 as int) =~= tokens_view(e@).take(k as int).push(
                tokens_view(e@)[k as int],
            ));
            assert(t@ == tokens_view(e@)[k as int]);
        }
        k = k + 1;
    }
    proof {
        assert(tokens_view(e@).take(e@.len() as int) =~= tokens_view(e@));
    }
    r
}

/// Contains the logic to transform valid expressions of tokens into
/// CHIP-8 opcodes.
pub struct CodeGenerator {
    address_counter: u32,
    labels: Vec<(Vec<u8>, u32)>,
    opcodes: Vec<u8>,
    incomplete_queue: Vec<IncompleteInstruction>,
    largest_address: u32,
}

impl View for CodeGenerator {
    type V = GenState;

    closed spec fn view(&self) -> GenState {
        GenState {
            counter: self.address_counter,
            labels: map_of_entries(self.labels@),
            mem: self.opcodes@,
            queue: queue_view(self.incomplete_queue@),
            hwm: self.largest_address,
        }
    }
}

impl CodeGenerator {
    /// The representation invariant: a full-size buffer, a high water
    /// mark inside it, and unique symbol names.
    pub closed spec fn wf(&self) -> bool {
        &&& self.opcodes@.len() == MEM_SIZE
        &&& self.largest_address <= MEM_SIZE
        &&& entries_unique(self.labels@)
    }

    /// A fresh generator: counter and high water mark at zero, no
    /// labels, no deferred instructions, a zeroed buffer.
    pub fn new() -> (r: Self)
        ensures
            r.wf(),
            r@ == init_state(),
    {
        let r = CodeGenerator {
            address_counter: 0,
            labels: Vec::new(),
            opcodes: vec![0u8; 4096],
            incomplete_queue: Vec::new(),
            largest_address: 0,
        };
        proof {
            assert(r@.mem =~= init_state().mem);
            assert(r@.labels =~= init_state().labels);
            assert(r@.queue =~= init_state().queue);
            assert(r@ =~= init_state());
        }
        r
    }

    /// Advance the address counter, raising the high water mark.
    fn increment_address_counter(&mut self, i: u32)
        requires
            old(self).wf(),
            old(self).address_counter + i <= MEM_SIZE,
        ensures
            final(self).wf(),
            final(self)@ == bump(old(self)@, i),
    {
        self.address_counter = self.address_counter + i;
        if self.address_counter > self.largest_address {
            self.largest_address = self.address_counter;
        }
        proof {
            assert(final(self)@ =~= bump(old(self)@, i));
        }
    }

    /// Write one opcode at the counter, most significant byte first,
    /// and advance by two.
    fn append_opcode(&mut self, msb: u8, lsb: u8) -> (r: Result<(), CodegenError>)
        requires
            old(self).wf(),
        ensures
            (match r {
                Ok(()) => final(self).wf() && emit_op(old(self)@, msb, lsb) == Ok::<
                    GenState,
                    CodegenError,
                >(final(self)@),
                Err(e) => emit_op(old(self)@, msb, lsb) == Err::<GenState, CodegenError>(e)
                    && *final(self) == *old(self),
            }),
    {
        if self.address_counter < 4095 {
            let a = self.address_counter as usize;
            self.opcodes[a] = msb;
            self.opcodes[a + 1] = lsb;
            self.increment_address_counter(2);
            proof {
                assert(emit_op(old(self)@, msb, lsb) == Ok::<GenState, CodegenError>(
                    final(self)@,
                )) by {
                    assert(final(self)@ =~= bump(
                        GenState {
                            mem: old(self)@.mem.update(old(self)@.counter as int, msb).update(
                                old(self)@.counter + 1,
                                lsb,
                            ),
                            ..old(self)@
                        },
                        2,
                    ));
                }
            }
            Ok(())
        } else {
            Err(CodegenError::AddressOutOfRange)
        }
    }

    /// Reserve the two-byte slot of an instruction whose label is not
    /// yet defined, and queue it for pass 2.
    fn queue_incomplete_instruction(&mut self, expr: &Expression) -> (r: Result<(), CodegenError>)
        requires
            old(self).wf(),
        ensures
            (match r {
                Ok(()) => final(self).wf() && reserve_op(old(self)@, tokens_view(expr@)) == Ok::<
                    GenState,
                    CodegenError,
                >(final(self)@),
                Err(e) => reserve_op(old(self)@, tokens_view(expr@)) == Err::<
                    GenState,
                    CodegenError,
                >(e) && *final(self) == *old(self),
            }),
    {
        if self.address_counter < 4095 {
            let incomplete = IncompleteInstruction::new(
                self.address_counter,
                duplicate_expression(expr),
            );
            let ghost qpre = self.incomplete_queue@;
            self.incomplete_queue.push(incomplete);
            self.increment_address_counter(2);
            proof {
                assert(queue_view(qpre.push(incomplete)) =~= queue_view(qpre).push(
                    (incomplete.address, tokens_view(incomplete.expr@)),
                ));
                assert(reserve_op(old(self)@, tokens_view(expr@)) == Ok::<
                    GenState,
                    CodegenError,
                >(final(self)@)) by {
                    assert(final(self)@ =~= bump(
                        GenState {
                            queue: old(self)@.queue.push(
                                (old(self)@.counter, tokens_view(expr@)),
                            ),
                            ..old(self)@
                        },
                        2,
                    ));
                }
            }
            Ok(())
        } else {
            Err(CodegenError::AddressOutOfRange)
        }
    }

    /// Record a label declaration at the current counter.
    fn process_label(&mut self, expr: &Expression) -> (r: Result<(), CodegenError>)
        requires
            old(self).wf(),
            tokens_view(expr@).len() > 0,
            tokens_view(expr@)[0] is Label,
        ensures
            (match r {
                Ok(()) => final(self).wf() && label_step(old(self)@, tokens_view(expr@)) == Ok::<
                    GenState,
                    CodegenError,
                >(final(self)@),
                Err(e) => label_step(old(self)@, tokens_view(expr@)) == Err::<
                    GenState,
                    CodegenError,
                >(e),
            }),
    {
        proof {
            assert(tokens_view(expr@)[0] == expr@[0]@);
        }
        match &expr[0] {
            Token::Label(name) => {
                if labels_contain(&self.labels, name) {
                    Err(CodegenError::DuplicateLabel)
                } else {
                    proof {
                        lemma_map_of_entries(self.labels@);
                    }
                    let entry = crate::assembler::lexer::clone_bytes(name);
                    let ghost lpre = self.labels@;
                    self.labels.push((entry, self.address_counter));
                    proof {
                        assert(self.labels@.drop_last() =~= lpre);
                        assert(forall|i: int|
                            0 <= i < lpre.len() ==> (#[trigger] lpre[i]).0@ != name@);
                        assert(entries_unique(self.labels@)) by {
                            assert(forall|i: int|
                                0 <= i < lpre.len() ==> (#[trigger] self.labels@[i]) == lpre[i]);
                        }
                        assert(final(self)@ =~= (GenState {
                            labels: old(self)@.labels.insert(name@, old(self)@.counter),
                            ..old(self)@
                        }));
                    }
                    Ok(())
                }
            },
            _ => {
                proof {
                    assert(false);
                }
                Err(CodegenError::Semantics)
            },
        }
    }

    /// Apply a directive: `org` resets the counter, `db` writes its
    /// byte values at successive addresses.
    fn process_directive(&mut self, expr: &Expression) -> (r: Result<(), CodegenError>)
        requires
            old(self).wf(),
            valid_expr(tokens_view(expr@)),
            tokens_view(expr@)[0] is Directive,
        ensures
            (match r {
                Ok(()) => final(self).wf() && dir_step(old(self)@, tokens_view(expr@)) == Ok::<
                    GenState,
                    CodegenError,
                >(final(self)@),
                Err(e) => dir_step(old(self)@, tokens_view(expr@)) == Err::<
                    GenState,
                    CodegenError,
                >(e),
            }),
    {
        let ghost ev = tokens_view(expr@);
        let ghost st0 = old(self)@;
        proof {
            assert(ev[0] == expr@[0]@);
        }
        match &expr[0] {
            Token::Directive(name) => {
                match crate::assembler::lexer::classify_directive(name.as_slice()) {
                    Some(crate::assembler::lexer::DirKind::Org) => {
                        proof {
                            assert(ev.len() == 2);
                            assert(ev[1] == expr@[1]@);
                        }
                        match &expr[1] {
                            Token::NumericLiteral(v) => {
                                self.address_counter = *v;
                                proof {
                                    assert(final(self)@ =~= (GenState {
                                        counter: *v,
                                        ..old(self)@
                                    }));
                                }
                                Ok(())
                            },
                            _ => {
                                proof {
                                    assert(false);
                                }
                                Err(CodegenError::Semantics)
                            },
                        }
                    },
                    Some(crate::assembler::lexer::DirKind::Db) => {
                        proof {
                            assert(dir_step(st0, ev) == write_db(st0, ev, 1));
                        }
                        let mut k: usize = 1;
                        while k < expr.len()
                            invariant
                                1 <= k <= expr@.len(),
                                self.wf(),
                                ev == tokens_view(expr@),
                                ev.len() == expr@.len(),
                                st0 == old(self)@,
                                dir_step(st0, ev) == write_db(st0, ev, 1),
                                write_db(st0, ev, 1) == write_db(self@, ev, k as int),
                            decreases expr@.len() - k,
                        {
                            proof {
                                assert(ev[k as int] == expr@[k as int]@);
                            }
                            match &expr[k] {
                                Token::NumericLiteral(v) => {
                                    if self.address_counter < 4096 {
                                        let ghost before = self@;
                                        let a = self.address_counter as usize;
                                        self.opcodes[a] = (*v & 0xFF) as u8;
                                        self.increment_address_counter(1);
                                        proof {
                                            assert(emit_byte(before, (*v & 0xFF) as u8) == Ok::<
                                                GenState,
                                                CodegenError,
                                            >(self@)) by {
                                                assert(self@ =~= bump(
                                                    GenState {
                                                        mem: before.mem.update(
                                                            before.counter as int,
                                                            (*v & 0xFF) as u8,
                                                        ),
                                                        ..before
                                                    },
                                                    1,
                                                ));
                                            }
                                        }
                                    } else {
                                        proof {
                                            assert(write_db(self@, ev, k as int) == Err::<
                                                GenState,
                                                CodegenError,
                                            >(CodegenError::AddressOutOfRange));
                                        }
                                        return Err(CodegenError::AddressOutOfRange);
                                    }
                                },
                                _ => {},
                            }
                            k = k + 1;
                        }
                        Ok(())
                    },
                    None => {
                        proof {
                            assert(false);
                        }
                        Err(CodegenError::Semantics)
                    },
                }
            },
            _ => {
                proof {
                    assert(false);
                }
                Err(CodegenError::Semantics)
            },
        }
    }

    /// Encode one instruction and emit it, defer it, or fail.
    fn process_instruction(&mut self, expr: &Expression, second_pass: bool) -> (r: Result<
        (),
        CodegenError,
    >)
        requires
            old(self).wf(),
            valid_expr(tokens_view(expr@)),
            tokens_view(expr@)[0] is Instruction,
        ensures
            (match r {
                Ok(()) => final(self).wf() && instr_step(
                    old(self)@,
                    tokens_view(expr@),
                    second_pass,
                ) == Ok::<GenState, CodegenError>(final(self)@),
                Err(e) => instr_step(old(self)@, tokens_view(expr@), second_pass) == Err::<
                    GenState,
                    CodegenError,
                >(e),
            }),
    {
        let out = encode_instruction(expr, &self.labels);
        match out {
            EncOutcome::Bytes(hi, lo) => self.append_opcode(hi, lo),
            EncOutcome::Defer => {
                if second_pass {
                    Err(CodegenError::UndefinedLabel)
                } else {
                    self.queue_incomplete_instruction(expr)
                }
            },
            EncOutcome::Invalid => Err(CodegenError::InvalidEncoding),
        }
    }

    /// Process one expression: validate it, then dispatch on its
    /// head.
    fn process_expression(&mut self, expr: &Expression, second_pass: bool) -> (r: Result<
        (),
        CodegenError,
    >)
        requires
            old(self).wf(),
        ensures
            (match r {
                Ok(()) => final(self).wf() && step(old(self)@, tokens_view(expr@), second_pass)
                    == Ok::<GenState, CodegenError>(final(self)@),
                Err(e) => step(old(self)@, tokens_view(expr@), second_pass) == Err::<
                    GenState,
                    CodegenError,
                >(e),
            }),
    {
        match check(expr) {
            Err(_) => Err(CodegenError::Semantics),
            Ok(()) => {
                proof {
                    assert(tokens_view(expr@).len() == expr@.len());
                    assert(tokens_view(expr@)[0] == expr@[0]@);
                }
                match &expr[0] {
                    Token::Label(_) => self.process_label(expr),
                    Token::Directive(_) => self.process_directive(expr),
                    Token::Instruction(_) => self.process_instruction(expr, second_pass),
                    _ => {
                        proof {
                            assert(false);
                        }
                        Err(CodegenError::Semantics)
                    },
                }
            },
        }
    }

    /// The image up to the high water mark.
    fn reduce_memory_size(&self) -> (r: Vec<u8>)
        requires
            self.wf(),
        ensures
            r@ == self@.mem.take(self@.hwm as int),
    {
        let mut r: Vec<u8> = Vec::new();
        let mut k: usize = 0;
        let n = self.largest_address as usize;
        while k < n
            invariant
                k <= n,
                self.wf(),
                n == self@.hwm,
                r@ =~= self@.mem.take(k as int),
            decreases n - k,
        {
            r.push(self.opcodes[k]);
            proof {
                assert(self@.mem.take(k + 1 as int) =~= self@.mem.take(k as int).push(
                    self@.mem[k as int],
                ));
            }
            k = k + 1;
        }
        r
    }

    /// Consume the generator and the expressions and return the
    /// generated byte image, or the first error encountered.
    pub fn generate(self, exprs: Vec<Expression>) -> (r: Result<Vec<u8>, CodegenError>)
        requires
            self.wf(),
            self@ == init_state(),
        ensures
            (match r {
                Ok(out) => spec_generate(exprs_view(exprs@)) == Ok::<Seq<u8>, CodegenError>(out@),
                Err(e) => spec_generate(exprs_view(exprs@)) == Err::<Seq<u8>, CodegenError>(e),
            }),
    {
        let mut gen = self;
        let ghost evs = exprs_view(exprs@);
        proof {
            assert(evs.skip(0) =~= evs);
        }
        // Pass 1: walk the expressions in order.
        let mut idx: usize = 0;
        while idx < exprs.len()
            invariant
                idx <= exprs.len(),
                gen.wf(),
                evs == exprs_view(exprs@),
                evs.len() == exprs@.len(),
                pass1(init_state(), evs) == pass1(gen@, evs.skip(idx as int)),
            decreases exprs.len() - idx,
        {
            let ghost pre = gen@;
            let res = gen.process_expression(&exprs[idx], false);
            proof {
                assert(evs[idx as int] == tokens_view(exprs@[idx as int]@));
                assert(evs.skip(idx as int)[0] == evs[idx as int]);
                assert(evs.skip(idx as int).drop_first() =~= evs.skip(idx + 1 as int));
            }
            match res {
                Ok(()) => {
                    idx = idx + 1;
                },
                Err(e) => {
                    return Err(e);
                },
            }
        }
        proof {
            assert(evs.skip(evs.len() as int) =~= Seq::<Seq<TokenV>>::empty());
        }
        let ghost st1 = gen@;
        let ghost q0 = st1.queue;
        proof {
            assert(q0.skip(0) =~= q0);
        }
        // Pass 2: revisit the deferred instructions in order, with the
        // counter restored to each reserved slot.
        let qlen = gen.incomplete_queue.len();
        let mut qi: usize = 0;
        while qi < qlen
            invariant
                qi <= qlen,
                gen.wf(),
                gen@.queue == q0,
                qlen == q0.len(),
                gen.incomplete_queue.len() == qlen,
                evs == exprs_view(exprs@),
                pass1(init_state(), evs) == Ok::<GenState, CodegenError>(st1),
                st1.queue == q0,
                pass2(st1, q0) == pass2(gen@, q0.skip(qi as int)),
            decreases qlen - qi,
        {
            let addr = gen.incomplete_queue[qi].address;
            let ex = duplicate_expression(&gen.incomplete_queue[qi].expr);
            proof {
                assert(q0[qi as int] == (addr, tokens_view(ex@)));
                assert(q0.skip(qi as int)[0] == q0[qi as int]);
                assert(q0.skip(qi as int).drop_first() =~= q0.skip(qi + 1 as int));
            }
            let ghost before_restore = gen@;
            gen.address_counter = addr;
            let ghost restored = gen@;
            proof {
                assert(restored =~= (GenState { counter: addr, ..before_restore }));
            }
            let res = gen.process_expression(&ex, true);
            match res {
                Ok(()) => {
                    proof {
                        lemma_step2_preserves_queue(restored, tokens_view(ex@));
                    }
                    qi = qi + 1;
                },
                Err(e) => {
                    return Err(e);
                },
            }
        }
        proof {
            assert(q0.skip(q0.len() as int) =~= Seq::<(u32, Seq<TokenV>)>::empty());
        }
        // Trim the image.
        let reduced = gen.reduce_memory_size();
        if reduced.len() < 0x200 {
            Ok(reduced)
        } else {
            let mut output: Vec<u8> = Vec::new();
            let mut k: usize = 0x200;
            while k < reduced.len()
                invariant
                    0x200 <= k <= reduced.len(),
                    output@ =~= reduced@.subrange(0x200, k as int),
                decreases reduced.len() - k,
            {
                output.push(reduced[k]);
                proof {
                    assert(reduced@.subrange(0x200, k + 1 as int) =~= reduced@.subrange(
                        0x200,
                        k as int,
                    ).push(reduced@[k as int]));
                }
                k = k + 1;
            }
            proof {
                assert(output@ =~= reduced@.skip(0x200));
            }
            Ok(output)
        }
    }
}

} // verus!
