//! Laws of the pipeline: determinism, insensitivity to blank lines,
//! forward-reference resolution, duplicate-label rejection, `org`
//! idempotence, address-counter arithmetic, and the totality of the
//! encoding table.

use vstd::prelude::*;

use crate::assembler::codegenerator::{
    dir_step, emit_byte, emit_op, encode, init_state, instr_step, label_step,
    lemma_write_db_preserves_queue, pass1, pass2, reserve_op, spec_generate, step, step2,
    write_db, CodegenError, EncOutcome, GenState, MEM_SIZE,
};
use crate::assembler::lexer::{
    dir_of, ident_at, lex_from, line_at, mnem_of, reg_of, spec_tokenize, term_at, DirKind,
    Mnemonic, RegClass, TokenV,
};
use crate::assembler::semantics::{valid_directive, valid_expr};
use crate::assembler::spec_assemble;

verus! {

// ---------------------------------------------------------------------
// Determinism and token-level invariance.
// ---------------------------------------------------------------------

/// The emitted image is a deterministic function of the input bytes:
/// equal inputs assemble to equal results, bytes and errors alike.
pub proof fn lemma_assemble_deterministic(a: Seq<u8>, b: Seq<u8>)
    requires
        a == b,
    ensures
        spec_assemble(a) == spec_assemble(b),
{
}

/// The output depends on the input only through its token sequence:
/// two sources that lex to the same tokens assemble to the same
/// result.  Whitespace layout, comments and line-ending style cannot
/// change the image.
pub proof fn lemma_tokens_determine_output(a: Seq<u8>, b: Seq<u8>)
    requires
        spec_tokenize(a) == spec_tokenize(b),
    ensures
        spec_assemble(a) == spec_assemble(b),
{
}

/// A blank or comment-only line yields no tokens: lexing from its
/// start gives exactly the tokens after it.  Moving a declaration
/// across such lines therefore leaves the token sequence, and with it
/// the emitted bytes, unchanged.
pub proof fn lemma_blank_line_no_tokens(s: Seq<u8>, i: int, e: int)
    requires
        0 <= i < s.len(),
        ident_at(s, i) is None,
        term_at(s, i) == Some(e),
        i < e <= s.len(),
    ensures
        lex_from(s, i) == lex_from(s, e),
{
    assert(line_at(s, i) == Some((Seq::<TokenV>::empty(), e)));
    match lex_from(s, e) {
        Some(rest) => {
            assert(Seq::<TokenV>::empty() + rest =~= rest);
        },
        None => {},
    }
}

// ---------------------------------------------------------------------
// Pass-1 structure: concatenation and monotonic growth.
// ---------------------------------------------------------------------

/// Pass 1 over a concatenation is pass 1 over the first part, then
/// over the second.
pub proof fn lemma_pass1_append(st: GenState, es1: Seq<Seq<TokenV>>, es2: Seq<Seq<TokenV>>)
    ensures
        pass1(st, es1 + es2) == (match pass1(st, es1) {
            Ok(m) => pass1(m, es2),
            Err(e) => Err(e),
        }),
    decreases es1.len(),
{
    if es1.len() == 0 {
        assert(es1 + es2 =~= es2);
    } else {
        assert((es1 + es2)[0] == es1[0]);
        match step(st, es1[0], false) {
            Ok(st2) => {
                lemma_pass1_append(st2, es1.drop_first(), es2);
                assert((es1 + es2).drop_first() =~= es1.drop_first() + es2);
            },
            Err(_) => {
                assert((es1 + es2).len() > 0);
            },
        }
    }
}

/// One symbol table extends another: same addresses, possibly more
/// names.
pub open spec fn table_extends(t1: Map<Seq<u8>, u32>, t2: Map<Seq<u8>, u32>) -> bool {
    forall|k: Seq<u8>| #[trigger]
        t1.dom().contains(k) ==> t2.dom().contains(k) && t2[k] == t1[k]
}

/// Writing `db` bytes leaves the symbol table alone.
pub proof fn lemma_write_db_labels(st: GenState, e: Seq<TokenV>, k: int)
    requires
        0 <= k <= e.len(),
    ensures
        write_db(st, e, k) matches Ok(st2) ==> st2.labels == st.labels,
    decreases e.len() - k,
{
    if k < e.len() {
        match e[k] {
            TokenV::NumericLiteral(v) => {
                match emit_byte(st, (v & 0xFF) as u8) {
                    Ok(st2) => {
                        lemma_write_db_labels(st2, e, k + 1);
                    },
                    Err(_) => {},
                }
            },
            _ => {
                lemma_write_db_labels(st, e, k + 1);
            },
        }
    }
}

/// A successful step only ever adds labels; it never moves or drops
/// one.  A label's address is fixed the moment it is declared.
pub proof fn lemma_step_extends_labels(st: GenState, e: Seq<TokenV>, second_pass: bool)
    ensures
        step(st, e, second_pass) matches Ok(st2) ==> table_extends(st.labels, st2.labels),
{
    if valid_expr(e) {
        match e[0] {
            TokenV::Directive(_) => {
                lemma_write_db_labels(st, e, 1);
            },
            _ => {},
        }
    }
}

/// Over a whole run of pass 1 the symbol table only grows.
pub proof fn lemma_pass1_extends_labels(st: GenState, es: Seq<Seq<TokenV>>)
    ensures
        pass1(st, es) matches Ok(st2) ==> table_extends(st.labels, st2.labels),
    decreases es.len(),
{
    if es.len() > 0 {
        match step(st, es[0], false) {
            Ok(st2) => {
                lemma_step_extends_labels(st, es[0], false);
                lemma_pass1_extends_labels(st2, es.drop_first());
            },
            Err(_) => {},
        }
    }
}

// ---------------------------------------------------------------------
// Forward-reference resolution.
// ---------------------------------------------------------------------

/// Encoding is stable under growth of the symbol table: once an
/// instruction encodes to definite bytes, adding further labels
/// cannot change those bytes.
pub proof fn lemma_encode_stable(
    e: Seq<TokenV>,
    t1: Map<Seq<u8>, u32>,
    t2: Map<Seq<u8>, u32>,
    hi: u8,
    lo: u8,
)
    requires
        table_extends(t1, t2),
        encode(e, t1) == EncOutcome::Bytes(hi, lo),
    ensures
        encode(e, t2) == EncOutcome::Bytes(hi, lo),
{
}

/// A deferred instruction, re-emitted in pass 2 with the counter
/// restored to its reserved slot, writes exactly the bytes that
/// immediate emission under the same symbol table would have written
/// there.  Together with the stability of encoding this is
/// forward-reference equivalence: whether a label is defined before
/// or after the instruction that uses it, the instruction's bytes are
/// those of the encoding table under the final table.
pub proof fn lemma_deferred_resolution(st: GenState, addr: u32, e: Seq<TokenV>, hi: u8, lo: u8)
    requires
        valid_expr(e),
        e[0] is Instruction,
        encode(e, st.labels) == EncOutcome::Bytes(hi, lo),
        addr + 1 < MEM_SIZE,
        st.mem.len() == MEM_SIZE,
    ensures
        step2(st, (addr, e)) == emit_op(GenState { counter: addr, ..st }, hi, lo),
        (match step2(st, (addr, e)) {
            Ok(st2) => st2.mem[addr as int] == hi && st2.mem[addr + 1] == lo,
            Err(_) => false,
        }),
{
    let restored = GenState { counter: addr, ..st };
    assert(step2(st, (addr, e)) == instr_step(restored, e, true));
}

/// What pass 1 queues: semantically valid instruction expressions.
pub open spec fn queued_instructions(items: Seq<(u32, Seq<TokenV>)>) -> bool {
    forall|i: int|
        0 <= i < items.len() ==> valid_expr((#[trigger] items[i]).1) && items[i].1[0] is Instruction
}

/// Whether the reserved two-byte slots are pairwise disjoint.
pub open spec fn slots_disjoint(items: Seq<(u32, Seq<TokenV>)>) -> bool {
    forall|i: int, j: int|
        0 <= i < j < items.len() ==> (#[trigger] items[i]).0 + 2 <= (#[trigger] items[j]).0
            || items[j].0 + 2 <= items[i].0
}

/// Whether an address lies in none of the reserved slots.
pub open spec fn outside_slots(items: Seq<(u32, Seq<TokenV>)>, a: int) -> bool {
    forall|i: int| 0 <= i < items.len() ==> a != (#[trigger] items[i]).0 && a != items[i].0 + 1
}

/// Writing `db` bytes keeps the buffer size.
pub proof fn lemma_write_db_memlen(st: GenState, e: Seq<TokenV>, k: int)
    requires
        0 <= k <= e.len(),
        st.mem.len() == MEM_SIZE,
    ensures
        write_db(st, e, k) matches Ok(st2) ==> st2.mem.len() == MEM_SIZE,
    decreases e.len() - k,
{
    if k < e.len() {
        match e[k] {
            TokenV::NumericLiteral(v) => {
                match emit_byte(st, (v & 0xFF) as u8) {
                    Ok(st2) => {
                        assert(st2.mem == st.mem.update(st.counter as int, (v & 0xFF) as u8));
                        assert(st2.mem.len() == st.mem.len());
                        lemma_write_db_memlen(st2, e, k + 1);
                    },
                    Err(_) => {},
                }
            },
            _ => {
                lemma_write_db_memlen(st, e, k + 1);
            },
        }
    }
}

/// A successful step keeps the buffer size and keeps the queue a
/// list of valid instruction expressions.
pub proof fn lemma_step_invariants(st: GenState, e: Seq<TokenV>, second_pass: bool)
    requires
        queued_instructions(st.queue),
        st.mem.len() == MEM_SIZE,
    ensures
        (match step(st, e, second_pass) {
            Ok(st2) => st2.mem.len() == MEM_SIZE && queued_instructions(st2.queue),
            Err(_) => true,
        }),
{
    if valid_expr(e) {
        match e[0] {
            TokenV::Directive(_) => {
                lemma_write_db_memlen(st, e, 1);
                lemma_write_db_preserves_queue(st, e, 1);
            },
            TokenV::Instruction(_) => {
                match encode(e, st.labels) {
                    EncOutcome::Bytes(hi, lo) => {
                        match emit_op(st, hi, lo) {
                            Ok(st2) => {
                                assert(st2.mem == st.mem.update(st.counter as int, hi).update(
                                    st.counter + 1,
                                    lo,
                                ));
                                assert(st2.mem.len() == st.mem.len());
                            },
                            Err(_) => {},
                        }
                    },
                    EncOutcome::Defer => {
                        if !second_pass {
                            match reserve_op(st, e) {
                                Ok(st2) => {
                                    assert(st2.queue == st.queue.push((st.counter, e)));
                                    assert forall|i: int| 0 <= i < st2.queue.len() implies
                                        valid_expr((#[trigger] st2.queue[i]).1)
                                            && st2.queue[i].1[0] is Instruction by {
                                        if i < st.queue.len() {
                                            assert(st2.queue[i] == st.queue[i]);
                                        } else {
                                            assert(st2.queue[i] == (st.counter, e));
                                        }
                                    }
                                },
                                Err(_) => {},
                            }
                        }
                    },
                    _ => {},
                }
            },
            _ => {},
        }
    }
}

/// Over a whole pass 1 run the buffer size is kept and the queue
/// holds only valid instruction expressions.
pub proof fn lemma_pass1_invariants(st: GenState, es: Seq<Seq<TokenV>>)
    requires
        queued_instructions(st.queue),
        st.mem.len() == MEM_SIZE,
    ensures
        (match pass1(st, es) {
            Ok(st1) => st1.mem.len() == MEM_SIZE && queued_instructions(st1.queue),
            Err(_) => true,
        }),
    decreases es.len(),
{
    if es.len() > 0 {
        match step(st, es[0], false) {
            Ok(st2) => {
                lemma_step_invariants(st, es[0], false);
                lemma_pass1_invariants(st2, es.drop_first());
            },
            Err(_) => {},
        }
    }
}

/// Pass 2 resolves every deferred instruction in place: when the
/// reserved slots are pairwise disjoint, the final buffer holds, at
/// each deferred instruction's address, exactly the bytes the
/// encoding table gives it under the symbol table that pass 1
/// finished with.  Outside the reserved slots pass 2 changes
/// nothing, and it never touches the symbol table.
pub proof fn lemma_pass2_resolves(st: GenState, items: Seq<(u32, Seq<TokenV>)>)
    requires
        pass2(st, items) is Ok,
        queued_instructions(items),
        st.mem.len() == MEM_SIZE,
    ensures
        (match pass2(st, items) {
            Ok(st2) => st2.labels == st.labels && st2.mem.len() == MEM_SIZE && (forall|a: int|
                0 <= a < MEM_SIZE && outside_slots(items, a) ==> st2.mem[a] == st.mem[a]) && (
            slots_disjoint(items) ==> forall|i: int|
                0 <= i < items.len() ==> encode((#[trigger] items[i]).1, st.labels)
                    == EncOutcome::Bytes(
                    st2.mem[items[i].0 as int],
                    st2.mem[items[i].0 + 1],
                )),
            Err(_) => false,
        }),
    decreases items.len(),
{
    if items.len() > 0 {
        let item = items[0];
        let a0 = item.0;
        let e = item.1;
        let restored = GenState { counter: a0, ..st };
        assert(valid_expr(e));
        assert(e[0] is Instruction);
        assert(step2(st, item) == instr_step(restored, e, true));
        match encode(e, st.labels) {
            EncOutcome::Bytes(hi, lo) => {
                match emit_op(restored, hi, lo) {
                    Ok(sta) => {
                        assert(sta.labels == st.labels);
                        assert(sta.mem.len() == MEM_SIZE);
                        assert(sta.mem[a0 as int] == hi);
                        assert(sta.mem[a0 + 1] == lo);
                        let rest = items.drop_first();
                        assert(queued_instructions(rest)) by {
                            assert(forall|i: int|
                                0 <= i < rest.len() ==> (#[trigger] rest[i]) == items[i + 1]);
                        }
                        lemma_pass2_resolves(sta, rest);
                        let st2 = match pass2(sta, rest) {
                            Ok(s) => s,
                            Err(_) => sta,
                        };
                        assert(pass2(st, items) == Ok::<GenState, CodegenError>(st2));
                        // frame: addresses outside every slot are untouched
                        assert forall|a: int|
                            0 <= a < MEM_SIZE && outside_slots(items, a) implies st2.mem[a]
                            == st.mem[a] by {
                            assert(a != a0 && a != a0 + 1);
                            assert(outside_slots(rest, a)) by {
                                assert(forall|i: int|
                                    0 <= i < rest.len() ==> (#[trigger] rest[i]) == items[i + 1]);
                            }
                            assert(sta.mem[a] == st.mem[a]);
                        }
                        if slots_disjoint(items) {
                            assert(slots_disjoint(rest)) by {
                                assert(forall|i: int|
                                    0 <= i < rest.len() ==> (#[trigger] rest[i]) == items[i + 1]);
                            }
                            assert forall|i: int| 0 <= i < items.len() implies encode(
                                (#[trigger] items[i]).1,
                                st.labels,
                            ) == EncOutcome::Bytes(
                                st2.mem[items[i].0 as int],
                                st2.mem[items[i].0 + 1],
                            ) by {
                                if i == 0 {
                                    // the first slot is disjoint from all later ones
                                    assert(outside_slots(rest, a0 as int)) by {
                                        assert forall|j: int| 0 <= j < rest.len() implies a0 as int
                                            != (#[trigger] rest[j]).0 && a0 as int != rest[j].0
                                            + 1 by {
                                            assert(rest[j] == items[j + 1]);
                                            assert(items[0].0 + 2 <= items[j + 1].0 || items[j
                                                + 1].0 + 2 <= items[0].0);
                                        }
                                    }
                                    assert(outside_slots(rest, a0 + 1)) by {
                                        assert forall|j: int| 0 <= j < rest.len() implies a0 + 1
                                            != (#[trigger] rest[j]).0 && a0 + 1 != rest[j].0
                                            + 1 by {
                                            assert(rest[j] == items[j + 1]);
                                            assert(items[0].0 + 2 <= items[j + 1].0 || items[j
                                                + 1].0 + 2 <= items[0].0);
                                        }
                                    }
                                    assert(a0 + 1 < MEM_SIZE);
                                    assert(st2.mem[a0 as int] == sta.mem[a0 as int]);
                                    assert(st2.mem[a0 + 1] == sta.mem[a0 + 1]);
                                } else {
                                    assert(rest[i - 1] == items[i]);
                                    assert(encode(rest[i - 1].1, sta.labels) == EncOutcome::Bytes(
                                        st2.mem[rest[i - 1].0 as int],
                                        st2.mem[rest[i - 1].0 + 1],
                                    ));
                                }
                            }
                        }
                    },
                    Err(_) => {},
                }
            },
            EncOutcome::Defer => {},
            EncOutcome::Invalid => {},
        }
    }
}

/// Forward-reference equivalence at the program level: in a
/// successful assembly whose deferred instructions hold pairwise
/// disjoint slots, every instruction that referenced a label before
/// its definition ends, at its reserved address, with exactly the
/// bytes of the encoding table under the final symbol table — the
/// bytes it would have received had the label already been defined
/// at the point of use.
pub proof fn lemma_forward_reference_equivalence(es: Seq<Seq<TokenV>>, st1: GenState)
    requires
        pass1(init_state(), es) == Ok::<GenState, CodegenError>(st1),
        pass2(st1, st1.queue) is Ok,
        slots_disjoint(st1.queue),
    ensures
        (match pass2(st1, st1.queue) {
            Ok(st2) => forall|i: int|
                0 <= i < st1.queue.len() ==> encode((#[trigger] st1.queue[i]).1, st1.labels)
                    == EncOutcome::Bytes(
                    st2.mem[st1.queue[i].0 as int],
                    st2.mem[st1.queue[i].0 + 1],
                ),
            Err(_) => false,
        }),
{
    assert(queued_instructions(init_state().queue));
    lemma_pass1_invariants(init_state(), es);
    assert(init_state().mem.len() == MEM_SIZE);
    lemma_pass2_resolves(st1, st1.queue);
}

// ---------------------------------------------------------------------
// Duplicate labels.
// ---------------------------------------------------------------------

/// After a successful pass 1 run the table holds every label the run
/// declared.
pub proof fn lemma_pass1_label_in_table(st: GenState, es: Seq<Seq<TokenV>>, i: int, n: Seq<u8>)
    requires
        pass1(st, es) is Ok,
        0 <= i < es.len(),
        es[i].len() > 0,
        es[i][0] == TokenV::Label(n),
    ensures
        (match pass1(st, es) {
            Ok(st2) => st2.labels.dom().contains(n),
            Err(_) => false,
        }),
    decreases es.len(),
{
    match step(st, es[0], false) {
        Ok(stx) => {
            if i == 0 {
                assert(label_step(st, es[0]) == Ok::<GenState, CodegenError>(stx));
                assert(stx.labels.dom().contains(n));
                lemma_pass1_extends_labels(stx, es.drop_first());
            } else {
                assert(es.drop_first()[i - 1] == es[i]);
                lemma_pass1_label_in_table(stx, es.drop_first(), i - 1, n);
            }
        },
        Err(_) => {},
    }
}

/// Duplicate-label detection: a program that declares the same
/// identifier twice is never assembled.  When everything before the
/// second declaration goes through, the error reported is precisely
/// `DuplicateLabel`.
pub proof fn lemma_duplicate_label_rejected(es: Seq<Seq<TokenV>>, i: int, j: int, n: Seq<u8>)
    requires
        0 <= i < j < es.len(),
        es[i].len() > 0,
        es[i][0] == TokenV::Label(n),
        es[j].len() > 0,
        es[j][0] == TokenV::Label(n),
    ensures
        spec_generate(es) is Err,
        pass1(init_state(), es.take(j)) is Ok ==> spec_generate(es) == Err::<
            Seq<u8>,
            CodegenError,
        >(CodegenError::DuplicateLabel),
{
    let pre = es.take(j);
    let post = es.skip(j);
    assert(es =~= pre + post);
    lemma_pass1_append(init_state(), pre, post);
    match pass1(init_state(), pre) {
        Ok(stj) => {
            assert(pre[i] == es[i]);
            lemma_pass1_label_in_table(init_state(), pre, i, n);
            assert(stj.labels.dom().contains(n));
            assert(post[0] == es[j]);
            assert(valid_expr(es[j]));
            assert(step(stj, post[0], false) == Err::<GenState, CodegenError>(
                CodegenError::DuplicateLabel,
            ));
            assert(pass1(init_state(), es) == Err::<GenState, CodegenError>(
                CodegenError::DuplicateLabel,
            ));
        },
        Err(_) => {
            assert(pass1(init_state(), es) is Err);
        },
    }
}

// ---------------------------------------------------------------------
// `org` idempotence.
// ---------------------------------------------------------------------

/// The byte spelling of the `org` directive keyword.
pub open spec fn org_name() -> Seq<u8> {
    seq![111u8, 114u8, 103u8]
}

/// The expression `org a`.
pub open spec fn org_expr(a: u32) -> Seq<TokenV> {
    seq![TokenV::Directive(org_name()), TokenV::NumericLiteral(a)]
}

/// Applying `org a` is setting the counter to `a`, whatever came
/// before.
pub proof fn lemma_org_step(st: GenState, a: u32)
    ensures
        step(st, org_expr(a), false) == Ok::<GenState, CodegenError>(
            GenState { counter: a, ..st },
        ),
{
    assert(dir_of(org_name()) == Some(DirKind::Org));
    assert(valid_expr(org_expr(a)));
    assert(dir_step(st, org_expr(a)) == Ok::<GenState, CodegenError>(
        GenState { counter: a, ..st },
    ));
}

/// Idempotence of `org`: `org a` followed by `org a` assembles to
/// the same image as a single `org a`, in any context.
pub proof fn lemma_org_idempotent(xs: Seq<Seq<TokenV>>, ys: Seq<Seq<TokenV>>, a: u32)
    ensures
        spec_generate(xs + seq![org_expr(a), org_expr(a)] + ys) == spec_generate(
            xs + seq![org_expr(a)] + ys,
        ),
{
    let two = seq![org_expr(a), org_expr(a)];
    let one = seq![org_expr(a)];
    lemma_pass1_append(init_state(), xs + two, ys);
    lemma_pass1_append(init_state(), xs + one, ys);
    lemma_pass1_append(init_state(), xs, two);
    lemma_pass1_append(init_state(), xs, one);
    assert((xs + two) + ys =~= xs + two + ys);
    assert((xs + one) + ys =~= xs + one + ys);
    match pass1(init_state(), xs) {
        Ok(m) => {
            lemma_org_step(m, a);
            let m2 = GenState { counter: a, ..m };
            lemma_org_step(m2, a);
            assert(two[0] == org_expr(a));
            assert(one[0] == org_expr(a));
            assert(one.drop_first() =~= Seq::<Seq<TokenV>>::empty());
            assert((GenState { counter: a, ..m2 }) =~= m2);
            assert(pass1(m2, Seq::<Seq<TokenV>>::empty()) == Ok::<GenState, CodegenError>(m2));
            assert(pass1(m2, one) == Ok::<GenState, CodegenError>(m2));
            assert(two.drop_first() =~= one);
            assert(pass1(m, two) == pass1(m2, two.drop_first()));
            assert(pass1(m, two) == Ok::<GenState, CodegenError>(m2));
            assert(pass1(m, one) == Ok::<GenState, CodegenError>(m2));
        },
        Err(_) => {},
    }
}

// ---------------------------------------------------------------------
// Address counter arithmetic between `org`s.
// ---------------------------------------------------------------------

/// Whether an expression is not an `org` directive (labels,
/// instructions and `db` qualify).
pub open spec fn org_free(e: Seq<TokenV>) -> bool {
    match e[0] {
        TokenV::Directive(name) => dir_of(name) == Some(DirKind::Db),
        _ => true,
    }
}

/// How far one expression advances the address counter: two bytes
/// per instruction, one per `db` value, nothing for a label.
pub open spec fn counter_growth(e: Seq<TokenV>) -> int {
    match e[0] {
        TokenV::Instruction(_) => 2,
        TokenV::Directive(_) => e.len() - 1,
        _ => 0,
    }
}

/// The counter advance of a whole expression list.
pub open spec fn total_growth(es: Seq<Seq<TokenV>>) -> int
    decreases es.len(),
{
    if es.len() == 0 {
        0
    } else {
        counter_growth(es[0]) + total_growth(es.drop_first())
    }
}

/// Writing `db` values advances the counter by one per value.
pub proof fn lemma_write_db_counter(st: GenState, e: Seq<TokenV>, k: int)
    requires
        0 <= k <= e.len(),
        forall|j: int| 1 <= j < e.len() ==> (#[trigger] e[j]) is NumericLiteral,
        k >= 1,
    ensures
        write_db(st, e, k) matches Ok(st2) ==> st2.counter == st.counter + (e.len() - k),
    decreases e.len() - k,
{
    if k < e.len() {
        match e[k] {
            TokenV::NumericLiteral(v) => {
                match emit_byte(st, (v & 0xFF) as u8) {
                    Ok(st2) => {
                        assert(st2.counter == st.counter + 1);
                        lemma_write_db_counter(st2, e, k + 1);
                    },
                    Err(_) => {},
                }
            },
            _ => {},
        }
    }
}

/// One `org`-free step advances the counter by exactly the
/// expression's growth.
pub proof fn lemma_step_counter(st: GenState, e: Seq<TokenV>)
    requires
        org_free(e),
    ensures
        step(st, e, false) matches Ok(st2) ==> st2.counter == st.counter + counter_growth(e),
{
    if valid_expr(e) {
        match e[0] {
            TokenV::Directive(name) => {
                assert(valid_directive(DirKind::Db, e));
                lemma_write_db_counter(st, e, 1);
            },
            _ => {},
        }
    }
}

/// Address counter monotonicity between `org`s: over a region with
/// no `org`, pass 1 advances the counter by exactly two bytes per
/// instruction and one byte per `db` value; labels add nothing.
pub proof fn lemma_counter_monotonic(st: GenState, es: Seq<Seq<TokenV>>)
    requires
        forall|k: int| 0 <= k < es.len() ==> org_free(#[trigger] es[k]),
    ensures
        pass1(st, es) matches Ok(st2) ==> st2.counter == st.counter + total_growth(es),
    decreases es.len(),
{
    if es.len() > 0 {
        match step(st, es[0], false) {
            Ok(st2) => {
                lemma_step_counter(st, es[0]);
                assert(forall|k: int|
                    0 <= k < es.drop_first().len() ==> org_free(#[trigger] es.drop_first()[k]));
                lemma_counter_monotonic(st2, es.drop_first());
            },
            Err(_) => {},
        }
    }
}

// ---------------------------------------------------------------------
// Totality of the encoding table.
// ---------------------------------------------------------------------

/// The byte spelling of each mnemonic.
pub open spec fn mnem_name(m: Mnemonic) -> Seq<u8> {
    match m {
        Mnemonic::Cls => seq![67u8, 76u8, 83u8],
        Mnemonic::Ret => seq![82u8, 69u8, 84u8],
        Mnemonic::Sys => seq![83u8, 89u8, 83u8],
        Mnemonic::Jp => seq![74u8, 80u8],
        Mnemonic::Jr => seq![74u8, 82u8],
        Mnemonic::Call => seq![67u8, 65u8, 76u8, 76u8],
        Mnemonic::Se => seq![83u8, 69u8],
        Mnemonic::Sne => seq![83u8, 78u8, 69u8],
        Mnemonic::Ld => seq![76u8, 68u8],
        Mnemonic::Add => seq![65u8, 68u8, 68u8],
        Mnemonic::Subn => seq![83u8, 85u8, 66u8, 78u8],
        Mnemonic::Sub => seq![83u8, 85u8, 66u8],
        Mnemonic::Or => seq![79u8, 82u8],
        Mnemonic::And => seq![65u8, 78u8, 68u8],
        Mnemonic::Xor => seq![88u8, 79u8, 82u8],
        Mnemonic::Shr => seq![83u8, 72u8, 82u8],
        Mnemonic::Shl => seq![83u8, 72u8, 76u8],
        Mnemonic::Rnd => seq![82u8, 78u8, 68u8],
        Mnemonic::Drw => seq![68u8, 82u8, 87u8],
        Mnemonic::Skp => seq![83u8, 75u8, 80u8],
        Mnemonic::Sknp => seq![83u8, 75u8, 78u8, 80u8],
    }
}

/// Each mnemonic's spelling classifies back to it.
pub proof fn lemma_mnem_name(m: Mnemonic)
    ensures
        mnem_of(mnem_name(m)) == Some(m),
{
}

/// The byte spelling of each register name (`Vx` with the uppercase
/// hex digit of `x`).
pub open spec fn reg_name(r: RegClass) -> Seq<u8> {
    match r {
        RegClass::Gp(x) => seq![
            86u8,
            if x < 10 {
                (48 + x) as u8
            } else {
                (55 + x) as u8
            },
        ],
        RegClass::I => seq![73u8],
        RegClass::Dt => seq![68u8, 84u8],
        RegClass::St => seq![83u8, 84u8],
        RegClass::F => seq![70u8],
        RegClass::B => seq![66u8],
        RegClass::K => seq![75u8],
        RegClass::MemI => seq![91u8, 73u8, 93u8],
    }
}

/// Each register's spelling classifies back to it.
pub proof fn lemma_reg_name(r: RegClass)
    requires
        (match r {
            RegClass::Gp(x) => x <= 15,
            _ => true,
        }),
    ensures
        reg_of(reg_name(r)) == Some(r),
{
}

/// An instruction token.
pub open spec fn instr_tok(m: Mnemonic) -> TokenV {
    TokenV::Instruction(mnem_name(m))
}

/// A register token.
pub open spec fn reg_tok(r: RegClass) -> TokenV {
    TokenV::Register(reg_name(r))
}

/// A numeric literal token.
pub open spec fn num_tok(v: u32) -> TokenV {
    TokenV::NumericLiteral(v)
}

/// Totality of the encoding table: for every operand shape the table
/// lists, the encoder produces exactly the bytes of that row, for
/// all register indices and immediates.  `x` and `y` are general
/// purpose register indices, `kk` and `nnn` immediates (truncated to
/// their field width), `lbl` a label name.  A label operand encodes
/// through the symbol table when it is defined and defers otherwise;
/// `SYS` has no row and never encodes.
#[verifier::rlimit(60)]
pub proof fn lemma_encoding_table_total(
    x: u8,
    y: u8,
    kk: u32,
    nnn: u32,
    n: u32,
    lbl: Seq<u8>,
    labels: Map<Seq<u8>, u32>,
)
    requires
        x <= 15,
        y <= 15,
    ensures
        encode(seq![instr_tok(Mnemonic::Cls)], labels) == EncOutcome::Bytes(0x00, 0xE0),
        encode(seq![instr_tok(Mnemonic::Ret)], labels) == EncOutcome::Bytes(0x00, 0xEE),
        encode(seq![instr_tok(Mnemonic::Jp), num_tok(nnn)], labels) == EncOutcome::Bytes(
            0x10 | (((nnn >> 8) & 0xF) as u8),
            (nnn & 0xFF) as u8,
        ),
        encode(seq![instr_tok(Mnemonic::Call), num_tok(nnn)], labels) == EncOutcome::Bytes(
            0x20 | (((nnn >> 8) & 0xF) as u8),
            (nnn & 0xFF) as u8,
        ),
        encode(
            seq![instr_tok(Mnemonic::Se), reg_tok(RegClass::Gp(x)), num_tok(kk)],
            labels,
        ) == EncOutcome::Bytes(0x30 | x, (kk & 0xFF) as u8),
        encode(
            seq![instr_tok(Mnemonic::Sne), reg_tok(RegClass::Gp(x)), num_tok(kk)],
            labels,
        ) == EncOutcome::Bytes(0x40 | x, (kk & 0xFF) as u8),
        encode(
            seq![instr_tok(Mnemonic::Se), reg_tok(RegClass::Gp(x)), reg_tok(RegClass::Gp(y))],
            labels,
        ) == EncOutcome::Bytes(0x50 | x, y << 4),
        encode(
            seq![instr_tok(Mnemonic::Ld), reg_tok(RegClass::Gp(x)), num_tok(kk)],
            labels,
        ) == EncOutcome::Bytes(0x60 | x, (kk & 0xFF) as u8),
        encode(
            seq![instr_tok(Mnemonic::Add), reg_tok(RegClass::Gp(x)), num_tok(kk)],
            labels,
        ) == EncOutcome::Bytes(0x70 | x, (kk & 0xFF) as u8),
        encode(
            seq![instr_tok(Mnemonic::Ld), reg_tok(RegClass::Gp(x)), reg_tok(RegClass::Gp(y))],
            labels,
        ) == EncOutcome::Bytes(0x80 | x, y << 4),
        encode(
            seq![instr_tok(Mnemonic::Or), reg_tok(RegClass::Gp(x)), reg_tok(RegClass::Gp(y))],
            labels,
        ) == EncOutcome::Bytes(0x80 | x, (y << 4) | 0x01),
        encode(
            seq![instr_tok(Mnemonic::And), reg_tok(RegClass::Gp(x)), reg_tok(RegClass::Gp(y))],
            labels,
        ) == EncOutcome::Bytes(0x80 | x, (y << 4) | 0x02),
        encode(
            seq![instr_tok(Mnemonic::Xor), reg_tok(RegClass::Gp(x)), reg_tok(RegClass::Gp(y))],
            labels,
        ) == EncOutcome::Bytes(0x80 | x, (y << 4) | 0x03),
        encode(
            seq![instr_tok(Mnemonic::Add), reg_tok(RegClass::Gp(x)), reg_tok(RegClass::Gp(y))],
            labels,
        ) == EncOutcome::Bytes(0x80 | x, (y << 4) | 0x04),
        encode(
            seq![instr_tok(Mnemonic::Sub), reg_tok(RegClass::Gp(x)), reg_tok(RegClass::Gp(y))],
            labels,
        ) == EncOutcome::Bytes(0x80 | x, (y << 4) | 0x05),
        encode(
            seq![instr_tok(Mnemonic::Shr), reg_tok(RegClass::Gp(x)), reg_tok(RegClass::Gp(y))],
            labels,
        ) == EncOutcome::Bytes(0x80 | x, (y << 4) | 0x06),
        encode(
            seq![instr_tok(Mnemonic::Subn), reg_tok(RegClass::Gp(x)), reg_tok(RegClass::Gp(y))],
            labels,
        ) == EncOutcome::Bytes(0x80 | x, (y << 4) | 0x07),
        encode(
            seq![instr_tok(Mnemonic::Shl), reg_tok(RegClass::Gp(x)), reg_tok(RegClass::Gp(y))],
            labels,
        ) == EncOutcome::Bytes(0x80 | x, (y << 4) | 0x0E),
        encode(
            seq![instr_tok(Mnemonic::Sne), reg_tok(RegClass::Gp(x)), reg_tok(RegClass::Gp(y))],
            labels,
        ) == EncOutcome::Bytes(0x90 | x, y << 4),
        encode(
            seq![instr_tok(Mnemonic::Ld), reg_tok(RegClass::I), num_tok(nnn)],
            labels,
        ) == EncOutcome::Bytes(0xA0 | (((nnn >> 8) & 0xF) as u8), (nnn & 0xFF) as u8),
        encode(seq![instr_tok(Mnemonic::Jr), num_tok(nnn)], labels) == EncOutcome::Bytes(
            0xB0 | (((nnn >> 8) & 0xF) as u8),
            (nnn & 0xFF) as u8,
        ),
        encode(
            seq![instr_tok(Mnemonic::Rnd), reg_tok(RegClass::Gp(x)), num_tok(kk)],
            labels,
        ) == EncOutcome::Bytes(0xC0 | x, (kk & 0xFF) as u8),
        encode(
            seq![
                instr_tok(Mnemonic::Drw),
                reg_tok(RegClass::Gp(x)),
                reg_tok(RegClass::Gp(y)),
                num_tok(n),
            ],
            labels,
        ) == EncOutcome::Bytes(0xD0 | x, (y << 4) | ((n & 0xF) as u8)),
        encode(seq![instr_tok(Mnemonic::Skp), reg_tok(RegClass::Gp(x))], labels)
            == EncOutcome::Bytes(0xE0 | x, 0x9E),
        encode(seq![instr_tok(Mnemonic::Sknp), reg_tok(RegClass::Gp(x))], labels)
            == EncOutcome::Bytes(0xE0 | x, 0xA1),
        encode(
            seq![instr_tok(Mnemonic::Ld), reg_tok(RegClass::Gp(x)), reg_tok(RegClass::Dt)],
            labels,
        ) == EncOutcome::Bytes(0xF0 | x, 0x07),
        encode(
            seq![instr_tok(Mnemonic::Ld), reg_tok(RegClass::Gp(x)), reg_tok(RegClass::K)],
            labels,
        ) == EncOutcome::Bytes(0xF0 | x, 0x0A),
        encode(
            seq![instr_tok(Mnemonic::Ld), reg_tok(RegClass::Dt), reg_tok(RegClass::Gp(x))],
            labels,
        ) == EncOutcome::Bytes(0xF0 | x, 0x15),
        encode(
            seq![instr_tok(Mnemonic::Ld), reg_tok(RegClass::St), reg_tok(RegClass::Gp(x))],
            labels,
        ) == EncOutcome::Bytes(0xF0 | x, 0x18),
        encode(
            seq![instr_tok(Mnemonic::Add), reg_tok(RegClass::I), reg_tok(RegClass::Gp(x))],
            labels,
        ) == EncOutcome::Bytes(0xF0 | x, 0x1E),
        encode(
            seq![instr_tok(Mnemonic::Ld), reg_tok(RegClass::F), reg_tok(RegClass::Gp(x))],
            labels,
        ) == EncOutcome::Bytes(0xF0 | x, 0x29),
        encode(
            seq![instr_tok(Mnemonic::Ld), reg_tok(RegClass::B), reg_tok(RegClass::Gp(x))],
            labels,
        ) == EncOutcome::Bytes(0xF0 | x, 0x33),
        encode(
            seq![instr_tok(Mnemonic::Ld), reg_tok(RegClass::MemI), reg_tok(RegClass::Gp(x))],
            labels,
        ) == EncOutcome::Bytes(0xF0 | x, 0x55),
        encode(
            seq![instr_tok(Mnemonic::Ld), reg_tok(RegClass::Gp(x)), reg_tok(RegClass::MemI)],
            labels,
        ) == EncOutcome::Bytes(0xF0 | x, 0x65),
        labels.dom().contains(lbl) ==> encode(
            seq![instr_tok(Mnemonic::Jp), TokenV::LabelOperand(lbl)],
            labels,
        ) == EncOutcome::Bytes(0x10 | (((labels[lbl] >> 8) & 0xF) as u8), (labels[lbl] & 0xFF) as u8),
        !labels.dom().contains(lbl) ==> encode(
            seq![instr_tok(Mnemonic::Jp), TokenV::LabelOperand(lbl)],
            labels,
        ) == EncOutcome::Defer,
        labels.dom().contains(lbl) ==> encode(
            seq![instr_tok(Mnemonic::Ld), reg_tok(RegClass::I), TokenV::LabelOperand(lbl)],
            labels,
        ) == EncOutcome::Bytes(0xA0 | (((labels[lbl] >> 8) & 0xF) as u8), (labels[lbl] & 0xFF) as u8),
        !labels.dom().contains(lbl) ==> encode(
            seq![instr_tok(Mnemonic::Ld), reg_tok(RegClass::I), TokenV::LabelOperand(lbl)],
            labels,
        ) == EncOutcome::Defer,
        encode(seq![instr_tok(Mnemonic::Sys), num_tok(nnn)], labels) == EncOutcome::Invalid,
{
    lemma_reg_name(RegClass::Gp(x));
    lemma_reg_name(RegClass::Gp(y));
    lemma_reg_name(RegClass::I);
    lemma_reg_name(RegClass::Dt);
    lemma_reg_name(RegClass::St);
    lemma_reg_name(RegClass::F);
    lemma_reg_name(RegClass::B);
    lemma_reg_name(RegClass::K);
    lemma_reg_name(RegClass::MemI);
    lemma_mnem_name(Mnemonic::Cls);
    lemma_mnem_name(Mnemonic::Ret);
    lemma_mnem_name(Mnemonic::Sys);
    lemma_mnem_name(Mnemonic::Jp);
    lemma_mnem_name(Mnemonic::Jr);
    lemma_mnem_name(Mnemonic::Call);
    lemma_mnem_name(Mnemonic::Se);
    lemma_mnem_name(Mnemonic::Sne);
    lemma_mnem_name(Mnemonic::Ld);
    lemma_mnem_name(Mnemonic::Add);
    lemma_mnem_name(Mnemonic::Subn);
    lemma_mnem_name(Mnemonic::Sub);
    lemma_mnem_name(Mnemonic::Or);
    lemma_mnem_name(Mnemonic::And);
    lemma_mnem_name(Mnemonic::Xor);
    lemma_mnem_name(Mnemonic::Shr);
    lemma_mnem_name(Mnemonic::Shl);
    lemma_mnem_name(Mnemonic::Rnd);
    lemma_mnem_name(Mnemonic::Drw);
    lemma_mnem_name(Mnemonic::Skp);
    lemma_mnem_name(Mnemonic::Sknp);
}

} // verus!
