//! The code generator: translates a resolved program into assembly text for
//! Darwin on ARM64 with the same runtime behaviour as the interpreter.
//!
//! String literals are interned: each distinct literal is stored once in the
//! static data region, addressed by the position of its first occurrence
//! among all `Push` operations in program order, and every push site of
//! equal text refers to that one stored copy.
//!
//! Values are unsigned 64-bit words, so the comparison blocks use the
//! unsigned condition codes and store their 0-or-1 result full width, and
//! the division block uses the unsigned divide, which yields zero for a
//! zero divisor, exactly as the interpreter's semantics prescribe.
//!
//! One reading difference is deliberate: the interpreter enters a block
//! exactly when the condition is 1, while the emitted `if` and `do` blocks
//! branch away exactly when it is 0. For the 0-or-1 values that the
//! comparison operations produce the two readings agree; a condition outside
//! those values is not meaningful in this language.

use vstd::prelude::*;
use vstd::string::StringExecFns;
use crate::numfmt::dec_rep;
use crate::ops::{Op, OpKind, OpValue, AbsOp, AbsVal};

verus! {

/// The payloads of the program's `Push` operations, in program order.
pub open spec fn pushes(p: Seq<AbsOp>) -> Seq<Option<AbsVal>>
    decreases p.len(),
{
    if p.len() == 0 {
        Seq::empty()
    } else {
        let rest = pushes(p.drop_last());
        if p.last().kind == OpKind::Push {
            rest.push(p.last().value)
        } else {
            rest
        }
    }
}

/// Whether some push in `ps` carries exactly this text.
pub open spec fn contains_text(ps: Seq<Option<AbsVal>>, s: Seq<char>) -> bool
    decreases ps.len(),
{
    if ps.len() == 0 {
        false
    } else {
        ps.last() == Option::Some(AbsVal::Text(s)) || contains_text(ps.drop_last(), s)
    }
}

/// The interning table of `ps`: one entry per distinct text, in order of
/// first occurrence, carrying that first occurrence's position among the
/// pushes.
pub open spec fn interned(ps: Seq<Option<AbsVal>>) -> Seq<(int, Seq<char>)>
    decreases ps.len(),
{
    if ps.len() == 0 {
        Seq::empty()
    } else {
        let rest = interned(ps.drop_last());
        match ps.last() {
            Option::Some(AbsVal::Text(s)) => if contains_text(ps.drop_last(), s) {
                rest
            } else {
                rest.push((ps.len() - 1, s))
            },
            _ => rest,
        }
    }
}

/// The position stored in the table for this text, or -1 when the table has
/// no entry for it.
pub open spec fn table_idx(tbl: Seq<(int, Seq<char>)>, s: Seq<char>) -> int
    decreases tbl.len(),
{
    if tbl.len() == 0 {
        -1
    } else if tbl.first().1 == s {
        tbl.first().0
    } else {
        table_idx(tbl.drop_first(), s)
    }
}

/// Whether the table holds an entry for this text.
pub open spec fn table_has(tbl: Seq<(int, Seq<char>)>, s: Seq<char>) -> bool
    decreases tbl.len(),
{
    tbl.len() > 0 && (tbl.first().1 == s || table_has(tbl.drop_first(), s))
}

/// Appending an entry: a lookup resolves as before, or to the new entry.
proof fn lemma_table_push(tbl: Seq<(int, Seq<char>)>, e: (int, Seq<char>), s: Seq<char>)
    ensures
        table_has(tbl.push(e), s) == (table_has(tbl, s) || e.1 == s),
        table_idx(tbl.push(e), s) == if table_has(tbl, s) {
            table_idx(tbl, s)
        } else if e.1 == s {
            e.0
        } else {
            -1
        },
    decreases tbl.len(),
{
    if tbl.len() == 0 {
        assert(tbl =~= Seq::<(int, Seq<char>)>::empty());
        assert(tbl.push(e).first() == e);
        assert(tbl.push(e).drop_first() =~= Seq::<(int, Seq<char>)>::empty());
        assert(!table_has(Seq::<(int, Seq<char>)>::empty(), s));
        assert(table_idx(Seq::<(int, Seq<char>)>::empty(), s) == -1);
        assert(table_has(tbl.push(e), s) == (e.1 == s));
    } else {
        assert(tbl.push(e).first() == tbl.first());
        assert(tbl.push(e).drop_first() =~= tbl.drop_first().push(e));
        lemma_table_push(tbl.drop_first(), e, s);
        assert(table_has(tbl.push(e), s) == (tbl.first().1 == s || table_has(
            tbl.drop_first().push(e),
            s,
        )));
        assert(table_idx(tbl.push(e), s) == (if tbl.first().1 == s {
            tbl.first().0
        } else {
            table_idx(tbl.drop_first().push(e), s)
        }));
    }
}

/// Without an entry a lookup reports -1; with one, and all stored positions
/// nonnegative, it reports a position.
proof fn lemma_table_idx_has(tbl: Seq<(int, Seq<char>)>, s: Seq<char>)
    ensures
        !table_has(tbl, s) ==> table_idx(tbl, s) == -1,
        (table_has(tbl, s) && (forall|k: int| 0 <= k < tbl.len() ==> (#[trigger] tbl[k]).0 >= 0))
            ==> table_idx(tbl, s) >= 0,
    decreases tbl.len(),
{
    if tbl.len() > 0 {
        lemma_table_idx_has(tbl.drop_first(), s);
        assert(forall|k: int| 0 <= k < tbl.len() - 1 ==> tbl.drop_first()[k] == tbl[k + 1]);
        assert(tbl.first() == tbl[0]);
    }
}

/// No position of `ps` holds the text when `contains_text` denies it.
proof fn lemma_not_contains(ps: Seq<Option<AbsVal>>, s: Seq<char>)
    requires
        !contains_text(ps, s),
    ensures
        forall|j: int| 0 <= j < ps.len() ==> ps[j] != Option::Some(AbsVal::Text(s)),
    decreases ps.len(),
{
    if ps.len() > 0 {
        lemma_not_contains(ps.drop_last(), s);
        assert(forall|j: int| 0 <= j < ps.len() - 1 ==> ps[j] == ps.drop_last()[j]);
        assert(ps[ps.len() - 1] == ps.last());
    }
}

/// The table has an entry exactly for the texts that occur among the pushes.
pub proof fn lemma_interned_has(ps: Seq<Option<AbsVal>>, s: Seq<char>)
    ensures
        table_has(interned(ps), s) == contains_text(ps, s),
    decreases ps.len(),
{
    if ps.len() > 0 {
        lemma_interned_has(ps.drop_last(), s);
        match ps.last() {
            Option::Some(AbsVal::Text(t)) => {
                if !contains_text(ps.drop_last(), t) {
                    lemma_table_push(interned(ps.drop_last()), (ps.len() - 1, t), s);
                }
            },
            _ => {},
        }
    }
}

/// Each table entry points at a push of its own text, at the text's first
/// occurrence among the pushes, and the stored positions are nonnegative.
pub proof fn lemma_interned_entries(ps: Seq<Option<AbsVal>>)
    ensures
        forall|k: int|
            0 <= k < interned(ps).len() ==> {
                let e = #[trigger] interned(ps)[k];
                &&& 0 <= e.0 < ps.len()
                &&& ps[e.0] == Option::Some(AbsVal::Text(e.1))
                &&& forall|j: int| 0 <= j < e.0 ==> ps[j] != Option::Some(AbsVal::Text(e.1))
            },
    decreases ps.len(),
{
    if ps.len() > 0 {
        lemma_interned_entries(ps.drop_last());
        assert(forall|j: int| 0 <= j < ps.len() - 1 ==> ps[j] == ps.drop_last()[j]);
        match ps.last() {
            Option::Some(AbsVal::Text(t)) => {
                if !contains_text(ps.drop_last(), t) {
                    lemma_not_contains(ps.drop_last(), t);
                    assert(ps[ps.len() - 1] == Option::Some(AbsVal::Text(t)));
                }
            },
            _ => {},
        }
    }
}

/// No two table entries share their text: each literal is stored once.
pub proof fn lemma_interned_distinct(ps: Seq<Option<AbsVal>>)
    ensures
        forall|k1: int, k2: int|
            0 <= k1 < k2 < interned(ps).len() ==> (#[trigger] interned(ps)[k1]).1 != (
            #[trigger] interned(ps)[k2]).1,
    decreases ps.len(),
{
    if ps.len() > 0 {
        let rest = interned(ps.drop_last());
        lemma_interned_distinct(ps.drop_last());
        assert(forall|k: int| 0 <= k < rest.len() ==> interned(ps)[k] == rest[k]);
        match ps.last() {
            Option::Some(AbsVal::Text(t)) => {
                if !contains_text(ps.drop_last(), t) {
                    lemma_interned_entries(ps.drop_last());
                    lemma_not_contains(ps.drop_last(), t);
                    assert(forall|k: int| 0 <= k < rest.len() ==> (#[trigger] rest[k]).1 != t) by {
                        assert(forall|k: int|
                            0 <= k < rest.len() ==> ps.drop_last()[(#[trigger] rest[k]).0]
                                == Option::Some(AbsVal::Text(rest[k].1)));
                    }
                }
            },
            _ => {},
        }
    }
}

/// A text that occurs among the pushes resolves to a stored position.
pub proof fn lemma_table_idx_found(ps: Seq<Option<AbsVal>>, s: Seq<char>)
    requires
        contains_text(ps, s),
    ensures
        table_idx(interned(ps), s) >= 0,
{
    lemma_interned_has(ps, s);
    lemma_interned_entries(ps);
    lemma_table_idx_has(interned(ps), s);
}

/// A text with no occurrence among the pushes does not resolve.
pub proof fn lemma_interned_no_entry(ps: Seq<Option<AbsVal>>, s: Seq<char>)
    requires
        !contains_text(ps, s),
    ensures
        table_idx(interned(ps), s) == -1,
{
    lemma_interned_has(ps, s);
    lemma_table_idx_has(interned(ps), s);
}

/// One row of the interning table: a stored string literal and its address,
/// the position of its first occurrence among the program's pushes.
#[derive(Debug)]
pub struct StrEntry {
    pub index: usize,
    pub text: String,
}

impl View for StrEntry {
    type V = (int, Seq<char>);

    open spec fn view(&self) -> (int, Seq<char>) {
        (self.index as int, self.text@)
    }
}

impl DeepView for StrEntry {
    type V = (int, Seq<char>);

    open spec fn deep_view(&self) -> (int, Seq<char>) {
        self.view()
    }
}

/// Finds the stored position for this text, scanning the table in order.
fn find_entry(tbl: &Vec<StrEntry>, s: &str) -> (r: Option<usize>)
    ensures
        match r {
            Option::Some(ix) => ix as int == table_idx(tbl.deep_view(), s@),
            Option::None => table_idx(tbl.deep_view(), s@) == -1,
        },
{
    let ghost full = tbl.deep_view();
    let mut j: usize = 0;
    proof {
        assert(full.skip(0) =~= full);
    }
    while j < tbl.len()
        invariant
            j <= tbl@.len(),
            full == tbl.deep_view(),
            table_idx(full, s@) == table_idx(full.skip(j as int), s@),
        decreases tbl@.len() - j,
    {
        proof {
            assert(full.skip(j as int).first() == full[j as int]);
            assert(full.skip(j as int).drop_first() =~= full.skip(j as int + 1));
        }
        if crate::ops::str_eq(tbl[j].text.as_str(), s) {
            return Option::Some(tbl[j].index);
        }
        j = j + 1;
    }
    proof {
        assert(full.skip(j as int) =~= Seq::<(int, Seq<char>)>::empty());
    }
    Option::None
}

/// Builds the interning table of the program: one entry per distinct string
/// literal among the pushes, in order of first occurrence, each carrying
/// that first occurrence's position.
pub fn intern_strings(program: &Vec<Op>) -> (tbl: Vec<StrEntry>)
    ensures
        tbl.deep_view() == interned(pushes(program.deep_view())),
{
    let ghost p = program.deep_view();
    let mut tbl: Vec<StrEntry> = Vec::new();
    let mut push_count: usize = 0;
    let mut i: usize = 0;
    proof {
        assert(p.take(0) =~= Seq::<AbsOp>::empty());
        assert(tbl.deep_view() =~= interned(pushes(p.take(0))));
    }
    while i < program.len()
        invariant
            i <= program@.len(),
            p == program.deep_view(),
            push_count as int == pushes(p.take(i as int)).len(),
            push_count <= i,
            tbl.deep_view() == interned(pushes(p.take(i as int))),
        decreases program@.len() - i,
    {
        let ghost ps_old = pushes(p.take(i as int));
        proof {
            assert(p.take(i as int + 1).drop_last() =~= p.take(i as int));
            assert(p.take(i as int + 1).last() == p[i as int]);
            assert(p[i as int] == program@[i as int].deep_view());
        }
        let op = &program[i];
        match (&op.kind, &op.value) {
            (OpKind::Push, Option::Some(OpValue::StringVal(s))) => {
                proof {
                    assert(pushes(p.take(i as int + 1)) == ps_old.push(
                        Option::Some(AbsVal::Text(s@)),
                    ));
                    assert(ps_old.push(Option::Some(AbsVal::Text(s@))).drop_last() =~= ps_old);
                }
                match find_entry(&tbl, s.as_str()) {
                    Option::Some(_) => {
                        proof {
                            lemma_interned_no_entry_contra(ps_old, s@);
                        }
                    },
                    Option::None => {
                        let ghost dprev = tbl.deep_view();
                        tbl.push(StrEntry { index: push_count, text: s.clone() });
                        proof {
                            lemma_interned_found_contra(ps_old, s@);
                            assert(tbl.deep_view() =~= dprev.push(
                                (push_count as int, s@),
                            ));
                        }
                    },
                }
                push_count = push_count + 1;
            },
            (OpKind::Push, Option::Some(OpValue::IntVal(_))) => {
                proof {
                    assert(pushes(p.take(i as int + 1)) == ps_old.push(p[i as int].value));
                    assert(ps_old.push(p[i as int].value).drop_last() =~= ps_old);
                }
                push_count = push_count + 1;
            },
            (OpKind::Push, Option::None) => {
                proof {
                    assert(pushes(p.take(i as int + 1)) == ps_old.push(p[i as int].value));
                    assert(ps_old.push(p[i as int].value).drop_last() =~= ps_old);
                }
                push_count = push_count + 1;
            },
            _ => {
                proof {
                    assert(pushes(p.take(i as int + 1)) == ps_old);
                }
            },
        }
        i = i + 1;
    }
    proof {
        assert(p.take(i as int) =~= p);
    }
    tbl
}

/// A resolvable lookup means the text occurs among the pushes.
proof fn lemma_interned_no_entry_contra(ps: Seq<Option<AbsVal>>, s: Seq<char>)
    requires
        table_idx(interned(ps), s) >= 0,
    ensures
        contains_text(ps, s),
{
    if !contains_text(ps, s) {
        lemma_interned_no_entry(ps, s);
    }
}

/// An unresolvable lookup means the text is absent from the pushes.
proof fn lemma_interned_found_contra(ps: Seq<Option<AbsVal>>, s: Seq<char>)
    requires
        table_idx(interned(ps), s) == -1,
    ensures
        !contains_text(ps, s),
{
    if contains_text(ps, s) {
        lemma_table_idx_found(ps, s);
    }
}

/// A string pushed anywhere in the program occurs among its pushes.
proof fn lemma_pushes_member(p: Seq<AbsOp>, i: int, s: Seq<char>)
    requires
        0 <= i < p.len(),
        p[i].kind == OpKind::Push,
        p[i].value == Option::Some(AbsVal::Text(s)),
    ensures
        contains_text(pushes(p), s),
    decreases p.len(),
{
    if i == p.len() - 1 {
        assert(p.last() == p[i]);
    } else {
        lemma_pushes_member(p.drop_last(), i, s);
        assert(p.drop_last()[i] == p[i]);
        if p.last().kind == OpKind::Push {
            assert(pushes(p.drop_last()).push(p.last().value).drop_last() =~= pushes(
                p.drop_last(),
            ));
        }
    }
}

/// The fixed text before the generated program: the assembler preamble and
/// the shared decimal-print routine with its 20-byte buffer protocol.
pub open spec fn header_text() -> Seq<char> {
    ".global _start\n.align 2\n\n.text\nprint:\n    adrp x0, num@PAGE\n    add x0, x0, num@PAGEOFF\n    ldr   x1, [sp], #16\n    mov x2, #10\n    mov x3, #19\nconvert_loop:\n    udiv x4, x1, x2\n    mul x5, x4, x2\n    sub x6, x1, x5 \n    and w6, w6, #0xFF\n    add x6, x6, #'0'\n    strb w6, [x0, x3]\n    sub x3, x3, #1\n    mov x1, x4\n    cmp x1, #0\n    bne convert_loop\n    adrp x4, num@PAGE\n    add x4, x4, num@PAGEOFF\n    mov x1, x4\n    mov x0, #1\n    mov x2, #20\n    mov x16, #4\n    svc #0x80\n    adrp x0, newline@PAGE\n    add x0, x0, newline@PAGEOFF\n    mov x1, x0\n    mov x0, #1\n    mov x2, #1\n    mov x16, #4 \n    svc #0x80\n\tmov x1, #20\nloop:\n\tstrb wzr, [x4], #1\n\tsubs x1, x1, #1\n\tbne loop\n\tret\n\n_start: \n"@
}

/// The fixed text after the generated program: the exit call and the heads
/// of the data region.
pub open spec fn footer_text() -> Seq<char> {
    "    // exit syscall\n    mov x0, #0\n    mov x16, #1\n    svc #0x80\n\n.data\n    num: .zero 20\n    newline: .asciz \"\\n\" \n"@
}

/// The text emitted for the operation at `ip`, a trailing blank line
/// included. Push sites of string literals address the stored copy through
/// the interning table of the whole program.
pub open spec fn op_text(p: Seq<AbsOp>, ip: int) -> Seq<char> {
    let op = p[ip];
    match op.kind {
        OpKind::Push => (match op.value {
            Option::Some(AbsVal::Int(v)) => "    // push \n"@ + "    ldr x0, ="@ + dec_rep(
                v as nat,
            ) + "\n"@ + "    str x0, [sp, #-16]!\n"@,
            Option::Some(AbsVal::Text(s)) => {
                let idx = table_idx(interned(pushes(p)), s);
                if idx >= 0 {
                    "    // push \n"@ + "    adrp x0, string"@ + dec_rep(idx as nat) + "@PAGE\n"@
                        + "    add x0, x0, string"@ + dec_rep(idx as nat) + "@PAGEOFF\n"@
                        + "    str x0, [sp, #-16]!\n"@
                } else {
                    Seq::empty()
                }
            },
            Option::None => Seq::empty(),
        }) + "\n"@,
        OpKind::Plus => "    // plus \n    ldr x0, [sp], #16\n    ldr x1, [sp], #16\n    add x3, x0, x1\n    str x3, [sp, #-16]!\n\n"@,
        OpKind::Minus => "    // minus \n    ldr x0, [sp], #16\n    ldr x1, [sp], #16\n    sub x3, x1, x0\n    str x3, [sp, #-16]!\n\n"@,
        OpKind::Mult => "    // mult \n    ldr x0, [sp], #16\n    ldr x1, [sp], #16\n    mul x3, x1, x0\n    str x3, [sp, #-16]!\n\n"@,
        OpKind::Div => "    // div \n    ldr x0, [sp], #16\n    ldr x1, [sp], #16\n    udiv x3, x1, x0\n    str x3, [sp, #-16]!\n\n"@,
        OpKind::Equals => "    // equals \n    ldr x0, [sp], #16\n    ldr x1, [sp], #16\n    cmp x0, x1\n    cset x0, EQ\n    str x0, [sp, #-16]!\n\n"@,
        OpKind::Dup => "    // dup \n    ldr x0, [sp], #16\n    str x0, [sp, #-16]!\n    str x0, [sp, #-16]!\n\n"@,
        OpKind::Swap => "    // swap \n    ldr x0, [sp], #16\n    ldr x1, [sp], #16\n    str x0, [sp, #-16]!\n    str x1, [sp, #-16]!\n\n"@,
        OpKind::Rot => "    // rot \n    ldr x1, [sp], #16\n    ldr x2, [sp], #16\n    ldr x3, [sp], #16\n    str x2, [sp, #-16]!\n    str x1, [sp, #-16]!\n    str x3, [sp, #-16]!\n\n"@,
        OpKind::Drop => "    // drop \n    ldr x0, [sp], #16\n\n"@,
        OpKind::Print => "    // print \n    bl print\n\n"@,
        OpKind::Write => "    // write \n    ldr\tX2, [sp], #16\n    ldr\tX0, [sp], #16\n    ldr\tX1, [sp], #16\n    mov\tX16, #4\n    svc\t#0x80\n\n"@,
        OpKind::Over => "    // over \n    ldr x0, [sp], #16\n    ldr x1, [sp], #16\n    str x1, [sp, #-16]!\n    str x0, [sp, #-16]!\n    str x1, [sp, #-16]!\n\n"@,
        OpKind::GT => "    // > \n    ldr x0, [sp], #16\n    ldr x1, [sp], #16\n    cmp x1, x0\n    cset x0, HI\n    str x0, [sp, #-16]!\n\n"@,
        OpKind::LT => "    // < \n    ldr x0, [sp], #16\n    ldr x1, [sp], #16\n    cmp x1, x0\n    cset x0, LO\n    str x0, [sp, #-16]!\n\n"@,
        OpKind::If => "    // if \n    ldr x0, [sp], #16\n    cmp x0, #0\n"@ + (match op.value {
            Option::Some(AbsVal::Int(t)) => "    beq addr_"@ + dec_rep(t as nat) + "\n"@,
            _ => Seq::empty(),
        }) + "\n"@,
        OpKind::Do => "    // do \n    ldr x0, [sp], #16\n    cmp x0, #0\n"@ + (match op.value {
            Option::Some(AbsVal::Int(t)) => "    beq addr_"@ + dec_rep(t as nat) + "\n"@,
            _ => Seq::empty(),
        }) + "\n"@,
        OpKind::While => "addr_"@ + dec_rep(ip as nat) + ":\n"@ + "\n"@,
        OpKind::End => (match op.value {
            Option::Some(AbsVal::Int(t)) => if t <= usize::MAX && t as int != ip {
                "    b addr_"@ + dec_rep(t as nat) + "\n"@
            } else {
                Seq::empty()
            },
            _ => Seq::empty(),
        }) + "addr_"@ + dec_rep((ip + 1) as nat) + ":\n"@ + "\n"@,
    }
}

/// The text of the program's first `i` operations, in order.
pub open spec fn body_text(p: Seq<AbsOp>, i: int) -> Seq<char>
    decreases i,
{
    if i <= 0 {
        Seq::empty()
    } else {
        body_text(p, i - 1) + op_text(p, i - 1)
    }
}

/// One stored string literal of the data region.
pub open spec fn entry_text(e: (int, Seq<char>)) -> Seq<char> {
    "    string"@ + dec_rep(e.0 as nat) + ": .asciz \""@ + e.1 + "\" \n"@
}

/// The data region's stored string literals, one per table entry, in table
/// order.
pub open spec fn data_text(tbl: Seq<(int, Seq<char>)>) -> Seq<char>
    decreases tbl.len(),
{
    if tbl.len() == 0 {
        Seq::empty()
    } else {
        data_text(tbl.drop_last()) + entry_text(tbl.last())
    }
}

/// The whole generated artifact for a resolved program.
pub open spec fn asm_text(p: Seq<AbsOp>) -> Seq<char> {
    header_text() + body_text(p, p.len() as int) + footer_text() + data_text(
        interned(pushes(p)),
    )
}

/// Appends the text of the operation at `i` to `out`, addressing string
/// pushes through the interning table of the whole program.
#[verifier::rlimit(100)]
fn emit_op(out: &mut String, program: &Vec<Op>, tbl: &Vec<StrEntry>, i: usize)
    requires
        i < program@.len(),
        tbl.deep_view() == interned(pushes(program.deep_view())),
    ensures
        final(out)@ == old(out)@ + op_text(program.deep_view(), i as int),
{
    let ghost p = program.deep_view();
    let ghost pre = out@;
    let n = program.len();
    let op = &program[i];
    proof {
        assert(p[i as int] == program@[i as int].deep_view());
    }
    match op.kind {
        OpKind::Push => {
            match &op.value {
                Option::Some(OpValue::IntVal(v)) => {
                    out.append("    // push \n");
                    out.append("    ldr x0, =");
                    let dv = crate::numfmt::u64_to_dec(*v);
                    out.append(dv.as_str());
                    out.append("\n");
                    out.append("    str x0, [sp, #-16]!\n");
                },
                Option::Some(OpValue::StringVal(sv)) => {
                    proof {
                        lemma_pushes_member(p, i as int, sv@);
                        lemma_table_idx_found(pushes(p), sv@);
                    }
                    let idx: usize = match find_entry(tbl, sv.as_str()) {
                        Option::Some(ix) => ix,
                        Option::None => 0,
                    };
                    proof {
                        assert(idx as int == table_idx(interned(pushes(p)), sv@));
                    }
                    let di = crate::numfmt::u64_to_dec(idx as u64);
                    out.append("    // push \n");
                    out.append("    adrp x0, string");
                    out.append(di.as_str());
                    out.append("@PAGE\n");
                    out.append("    add x0, x0, string");
                    out.append(di.as_str());
                    out.append("@PAGEOFF\n");
                    out.append("    str x0, [sp, #-16]!\n");
                },
                Option::None => {},
            }
            out.append("\n");
            proof {
                assert(out@ =~= pre + op_text(p, i as int));
            }
        },
        OpKind::Plus => {
            out.append(
                "    // plus \n    ldr x0, [sp], #16\n    ldr x1, [sp], #16\n    add x3, x0, x1\n    str x3, [sp, #-16]!\n\n",
            );
            proof {
                assert(out@ =~= pre + op_text(p, i as int));
            }
        },
        OpKind::Minus => {
            out.append(
                "    // minus \n    ldr x0, [sp], #16\n    ldr x1, [sp], #16\n    sub x3, x1, x0\n    str x3, [sp, #-16]!\n\n",
            );
            proof {
                assert(out@ =~= pre + op_text(p, i as int));
            }
        },
        OpKind::Mult => {
            out.append(
                "    // mult \n    ldr x0, [sp], #16\n    ldr x1, [sp], #16\n    mul x3, x1, x0\n    str x3, [sp, #-16]!\n\n",
            );
            proof {
                assert(out@ =~= pre + op_text(p, i as int));
            }
        },
        OpKind::Div => {
            out.append(
                "    // div \n    ldr x0, [sp], #16\n    ldr x1, [sp], #16\n    udiv x3, x1, x0\n    str x3, [sp, #-16]!\n\n",
            );
            proof {
                assert(out@ =~= pre + op_text(p, i as int));
            }
        },
        OpKind::Equals => {
            out.append(
                "    // equals \n    ldr x0, [sp], #16\n    ldr x1, [sp], #16\n    cmp x0, x1\n    cset x0, EQ\n    str x0, [sp, #-16]!\n\n",
            );
            proof {
                assert(out@ =~= pre + op_text(p, i as int));
            }
        },
        OpKind::Dup => {
            out.append(
                "    // dup \n    ldr x0, [sp], #16\n    str x0, [sp, #-16]!\n    str x0, [sp, #-16]!\n\n",
            );
            proof {
                assert(out@ =~= pre + op_text(p, i as int));
            }
        },
        OpKind::Swap => {
            out.append(
                "    // swap \n    ldr x0, [sp], #16\n    ldr x1, [sp], #16\n    str x0, [sp, #-16]!\n    str x1, [sp, #-16]!\n\n",
            );
            proof {
                assert(out@ =~= pre + op_text(p, i as int));
            }
        },
        OpKind::Rot => {
            out.append(
                "    // rot \n    ldr x1, [sp], #16\n    ldr x2, [sp], #16\n    ldr x3, [sp], #16\n    str x2, [sp, #-16]!\n    str x1, [sp, #-16]!\n    str x3, [sp, #-16]!\n\n",
            );
            proof {
                assert(out@ =~= pre + op_text(p, i as int));
            }
        },
        OpKind::Drop => {
            out.append("    // drop \n    ldr x0, [sp], #16\n\n");
            proof {
                assert(out@ =~= pre + op_text(p, i as int));
            }
        },
        OpKind::Print => {
            out.append("    // print \n    bl print\n\n");
            proof {
                assert(out@ =~= pre + op_text(p, i as int));
            }
        },
        OpKind::Write => {
            out.append(
                "    // write \n    ldr\tX2, [sp], #16\n    ldr\tX0, [sp], #16\n    ldr\tX1, [sp], #16\n    mov\tX16, #4\n    svc\t#0x80\n\n",
            );
            proof {
                assert(out@ =~= pre + op_text(p, i as int));
            }
        },
        OpKind::Over => {
            out.append(
                "    // over \n    ldr x0, [sp], #16\n    ldr x1, [sp], #16\n    str x1, [sp, #-16]!\n    str x0, [sp, #-16]!\n    str x1, [sp, #-16]!\n\n",
            );
            proof {
                assert(out@ =~= pre + op_text(p, i as int));
            }
        },
        OpKind::GT => {
            out.append(
                "    // > \n    ldr x0, [sp], #16\n    ldr x1, [sp], #16\n    cmp x1, x0\n    cset x0, HI\n    str x0, [sp, #-16]!\n\n",
            );
            proof {
                assert(out@ =~= pre + op_text(p, i as int));
            }
        },
        OpKind::LT => {
            out.append(
                "    // < \n    ldr x0, [sp], #16\n    ldr x1, [sp], #16\n    cmp x1, x0\n    cset x0, LO\n    str x0, [sp, #-16]!\n\n",
            );
            proof {
                assert(out@ =~= pre + op_text(p, i as int));
            }
        },
        OpKind::If => {
            out.append("    // if \n    ldr x0, [sp], #16\n    cmp x0, #0\n");
            match &op.value {
                Option::Some(OpValue::IntVal(t)) => {
                    out.append("    beq addr_");
                    let dt = crate::numfmt::u64_to_dec(*t);
                    out.append(dt.as_str());
                    out.append("\n");
                },
                _ => {},
            }
            out.append("\n");
            proof {
                assert(out@ =~= pre + op_text(p, i as int));
            }
        },
        OpKind::Do => {
            out.append("    // do \n    ldr x0, [sp], #16\n    cmp x0, #0\n");
            match &op.value {
                Option::Some(OpValue::IntVal(t)) => {
                    out.append("    beq addr_");
                    let dt = crate::numfmt::u64_to_dec(*t);
                    out.append(dt.as_str());
                    out.append("\n");
                },
                _ => {},
            }
            out.append("\n");
            proof {
                assert(out@ =~= pre + op_text(p, i as int));
            }
        },
        OpKind::While => {
            out.append("addr_");
            let di = crate::numfmt::u64_to_dec(i as u64);
            out.append(di.as_str());
            out.append(":\n");
            out.append("\n");
            proof {
                assert(out@ =~= pre + op_text(p, i as int));
            }
        },
        OpKind::End => {
            match &op.value {
                Option::Some(OpValue::IntVal(t)) => {
                    if *t <= usize::MAX as u64 && *t as usize != i {
                        out.append("    b addr_");
                        let dt = crate::numfmt::u64_to_dec(*t);
                        out.append(dt.as_str());
                        out.append("\n");
                    }
                },
                _ => {},
            }
            out.append("addr_");
            let di = crate::numfmt::u64_to_dec((i + 1) as u64);
            out.append(di.as_str());
            out.append(":\n");
            out.append("\n");
            proof {
                assert(out@ =~= pre + op_text(p, i as int));
            }
        },
    }
}

/// Translates a resolved program into the assembly text that `asm_text`
/// prescribes: the shared print routine, one block of instructions per
/// operation in program order, the exit call, and the data region with each
/// distinct string literal stored once.
pub fn compile_program_darwin_arm64(program: &Vec<Op>) -> (text: String)
    ensures
        text@ == asm_text(program.deep_view()),
{
    let ghost p = program.deep_view();
    let tbl = intern_strings(program);
    let mut out = String::from_str(
        ".global _start\n.align 2\n\n.text\nprint:\n    adrp x0, num@PAGE\n    add x0, x0, num@PAGEOFF\n    ldr   x1, [sp], #16\n    mov x2, #10\n    mov x3, #19\nconvert_loop:\n    udiv x4, x1, x2\n    mul x5, x4, x2\n    sub x6, x1, x5 \n    and w6, w6, #0xFF\n    add x6, x6, #'0'\n    strb w6, [x0, x3]\n    sub x3, x3, #1\n    mov x1, x4\n    cmp x1, #0\n    bne convert_loop\n    adrp x4, num@PAGE\n    add x4, x4, num@PAGEOFF\n    mov x1, x4\n    mov x0, #1\n    mov x2, #20\n    mov x16, #4\n    svc #0x80\n    adrp x0, newline@PAGE\n    add x0, x0, newline@PAGEOFF\n    mov x1, x0\n    mov x0, #1\n    mov x2, #1\n    mov x16, #4 \n    svc #0x80\n\tmov x1, #20\nloop:\n\tstrb wzr, [x4], #1\n\tsubs x1, x1, #1\n\tbne loop\n\tret\n\n_start: \n",
    );
    proof {
        assert(out@ =~= header_text() + body_text(p, 0));
    }
    let n = program.len();
    let mut i: usize = 0;
    while i < n
        invariant
            i <= n,
            n == program@.len(),
            p == program.deep_view(),
            tbl.deep_view() == interned(pushes(p)),
            out@ == header_text() + body_text(p, i as int),
        decreases n - i,
    {
        emit_op(&mut out, program, &tbl, i);
        proof {
            assert(out@ =~= header_text() + body_text(p, i as int + 1));
        }
        i = i + 1;
    }
    out.append(
        "    // exit syscall\n    mov x0, #0\n    mov x16, #1\n    svc #0x80\n\n.data\n    num: .zero 20\n    newline: .asciz \"\\n\" \n",
    );
    let ghost entries = interned(pushes(p));
    proof {
        assert(entries.take(0) =~= Seq::<(int, Seq<char>)>::empty());
        assert(out@ =~= header_text() + body_text(p, n as int) + footer_text() + data_text(
            entries.take(0),
        ));
    }
    let m = tbl.len();
    let mut k: usize = 0;
    while k < m
        invariant
            k <= m,
            m == tbl@.len(),
            tbl.deep_view() == entries,
            out@ == header_text() + body_text(p, n as int) + footer_text() + data_text(
                entries.take(k as int),
            ),
        decreases m - k,
    {
        proof {
            assert(tbl@[k as int].deep_view() == entries[k as int]);
        }
        out.append("    string");
        let di = crate::numfmt::u64_to_dec(tbl[k].index as u64);
        out.append(di.as_str());
        out.append(": .asciz \"");
        out.append(tbl[k].text.as_str());
        out.append("\" \n");
        proof {
            assert(entries.take(k as int + 1).drop_last() =~= entries.take(k as int));
            assert(entries.take(k as int + 1).last() == entries[k as int]);
            assert(out@ =~= header_text() + body_text(p, n as int) + footer_text() + data_text(
                entries.take(k as int + 1),
            ));
        }
        k = k + 1;
    }
    proof {
        assert(entries.take(m as int) =~= entries);
    }
    out
}

} // verus!
