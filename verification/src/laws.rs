//! Laws of the language, proved once and for all over the reference
//! semantics: how resolved `if` blocks and `while` loops steer the
//! instruction pointer, the algebra of the pure stack shufflers, and the
//! fixed width of `print`'s output field.

use vstd::prelude::*;
use crate::numfmt::{print_field, dec_rep, lemma_dec_rep_u64_len, lemma_nul_pad_len};
use crate::ops::{AbsOp, AbsVal, OpKind, is_control};
use crate::resolver::{resolve_spec, resolve_from, set_target, lemma_resolve_skip, AbsFrame};
use crate::semantics::{RunState, step, run_steps, lemma_run_add, lemma_run_one};

verus! {

/// An operation without a payload.
pub open spec fn plain_op(k: OpKind) -> AbsOp {
    AbsOp { kind: k, value: Option::None }
}

/// A push of the given value.
pub open spec fn push_of(v: AbsVal) -> AbsOp {
    AbsOp { kind: OpKind::Push, value: Option::Some(v) }
}

/// The flat program `if <body> end`.
pub open spec fn if_block_prog(body: Seq<AbsOp>) -> Seq<AbsOp> {
    seq![plain_op(OpKind::If)] + body + seq![plain_op(OpKind::End)]
}

/// `if <body> end` as resolution leaves it: the `if` points just past the
/// `end`, and the `end` points at itself.
pub open spec fn if_block_resolved(body: Seq<AbsOp>) -> Seq<AbsOp> {
    let p = if_block_prog(body);
    let n = p.len() as int;
    set_target(set_target(p, 0, n as u64), n - 1, (n - 1) as u64)
}

/// The flat program `while <cond> do <body> end`.
pub open spec fn while_loop_prog(cond: Seq<AbsOp>, body: Seq<AbsOp>) -> Seq<AbsOp> {
    seq![plain_op(OpKind::While)] + cond + seq![plain_op(OpKind::Do)] + body
        + seq![plain_op(OpKind::End)]
}

/// `while <cond> do <body> end` as resolution leaves it: the `while` is
/// marked with 0, the `do` points just past the `end`, and the `end` points
/// back at the `while`.
pub open spec fn while_loop_resolved(cond: Seq<AbsOp>, body: Seq<AbsOp>) -> Seq<AbsOp> {
    let p = while_loop_prog(cond, body);
    let d = 1 + cond.len() as int;
    let e = d + 1 + body.len() as int;
    let n = e + 1;
    set_target(set_target(set_target(p, e, 0), 0, 0), d, n as u64)
}

/// Block resolution correctness for an `if` block: for `if <body> end` with
/// a body free of control operations, resolution succeeds, the `if` points
/// just past the `end` and the `end` points at itself. Executing with a
/// falsy value on top of the stack takes one step to just past the `end`,
/// skipping the body entirely; with a truthy value, execution enters the
/// body, and the `end` falls through.
pub proof fn lemma_if_block(body: Seq<AbsOp>, st: Seq<AbsVal>, out: Seq<char>, v: u64)
    requires
        forall|m: int| 0 <= m < body.len() ==> !is_control(#[trigger] body[m].kind),
        body.len() + 2 <= usize::MAX,
    ensures
        ({
            let p = if_block_prog(body);
            let n = p.len() as int;
            let q = if_block_resolved(body);
            let s = RunState { ip: 0, stack: st.push(AbsVal::Int(v)), out: out };
            &&& resolve_spec(p) == Result::Ok::<Seq<AbsOp>, crate::resolver::ResolveError>(q)
            &&& v != 1 ==> step(q, s) == (RunState { ip: n, stack: st, out: out })
            &&& v == 1 ==> step(q, s) == (RunState { ip: 1, stack: st, out: out })
            &&& forall|r: RunState|
                r.ip == n - 1 ==> step(q, r) == (RunState {
                    ip: n,
                    stack: r.stack,
                    out: r.out,
                })
        }),
{
    let p = seq![plain_op(OpKind::If)] + body + seq![plain_op(OpKind::End)];
    let n = p.len() as int;
    let e = n - 1;
    let q = set_target(set_target(p, 0, n as u64), e, e as u64);

    // Resolution: the `if` opens a block, the body is passed over, the `end`
    // closes it.
    assert(p[0].kind == OpKind::If);
    assert(resolve_from(p, 0, Seq::empty()) == resolve_from(
        p,
        1,
        Seq::empty().push(AbsFrame::OpenIf(0)),
    ));
    assert(forall|m: int| 1 <= m < e ==> !is_control(#[trigger] p[m].kind)) by {
        assert(forall|m: int| 1 <= m < e ==> p[m] == body[m - 1]);
    }
    lemma_resolve_skip(p, 1, e, Seq::empty().push(AbsFrame::OpenIf(0)));
    assert(p[e].kind == OpKind::End);
    assert(Seq::empty().push(AbsFrame::OpenIf(0)).drop_last() =~= Seq::<AbsFrame>::empty());
    assert(resolve_from(p, e, Seq::empty().push(AbsFrame::OpenIf(0))) == resolve_from(
        q,
        n,
        Seq::empty(),
    ));
    assert(resolve_from(q, n, Seq::empty()) == Result::Ok::<
        Seq<AbsOp>,
        crate::resolver::ResolveError,
    >(q));

    // The resolved entries.
    assert(q[0] == AbsOp { kind: OpKind::If, value: Option::Some(AbsVal::Int(n as u64)) });
    assert(q[e] == AbsOp { kind: OpKind::End, value: Option::Some(AbsVal::Int(e as u64)) });

    // Stepping at the `if`.
    let s = RunState { ip: 0, stack: st.push(AbsVal::Int(v)), out: out };
    assert(st.push(AbsVal::Int(v)).take(st.len() as int) =~= st);
    if v != 1 {
        assert(step(q, s) == (RunState { ip: n, stack: st, out: out }));
    } else {
        assert(step(q, s) == (RunState { ip: 1, stack: st, out: out }));
    }

    // Stepping at the `end`: its target is its own index, so it falls
    // through.
    assert(forall|r: RunState|
        r.ip == e ==> step(q, r) == (RunState { ip: n, stack: r.stack, out: r.out }));
}

/// Loop steering for `while <cond> do <body> end` with control-free `cond`
/// and `body`: resolution succeeds; the `end` always jumps back to the
/// `while`, so the condition is re-evaluated before every iteration; the
/// `while` itself only falls through; and the `do` enters the body exactly
/// when the condition's value is truthy and otherwise leaves to just past
/// the `end`, so the body never runs again after a falsy condition.
pub proof fn lemma_while_loop(
    cond: Seq<AbsOp>,
    body: Seq<AbsOp>,
    st: Seq<AbsVal>,
    out: Seq<char>,
    v: u64,
)
    requires
        forall|m: int| 0 <= m < cond.len() ==> !is_control(#[trigger] cond[m].kind),
        forall|m: int| 0 <= m < body.len() ==> !is_control(#[trigger] body[m].kind),
        cond.len() + body.len() + 3 <= usize::MAX,
    ensures
        ({
            let p = while_loop_prog(cond, body);
            let d = 1 + cond.len() as int;
            let e = d + 1 + body.len() as int;
            let n = e + 1;
            let q = while_loop_resolved(cond, body);
            let s_do = RunState { ip: d, stack: st.push(AbsVal::Int(v)), out: out };
            &&& resolve_spec(p) == Result::Ok::<Seq<AbsOp>, crate::resolver::ResolveError>(q)
            &&& forall|r: RunState|
                r.ip == e ==> step(q, r) == (RunState { ip: 0, stack: r.stack, out: r.out })
            &&& forall|r: RunState|
                r.ip == 0 ==> step(q, r) == (RunState { ip: 1, stack: r.stack, out: r.out })
            &&& v == 1 ==> step(q, s_do) == (RunState { ip: d + 1, stack: st, out: out })
            &&& v != 1 ==> step(q, s_do) == (RunState { ip: n, stack: st, out: out })
        }),
{
    let p = seq![plain_op(OpKind::While)] + cond + seq![plain_op(OpKind::Do)] + body
        + seq![plain_op(OpKind::End)];
    let d = 1 + cond.len() as int;
    let e = d + 1 + body.len() as int;
    let n = e + 1;
    let q = set_target(set_target(set_target(p, e, 0), 0, 0), d, n as u64);

    // Resolution: `while` opens, the condition is passed over, `do` attaches
    // to the open `while`, the body is passed over, `end` closes the loop.
    assert(p.len() == n);
    assert(p[0].kind == OpKind::While);
    let pd1 = Seq::empty().push(AbsFrame::OpenWhile(0));
    assert(resolve_from(p, 0, Seq::empty()) == resolve_from(p, 1, pd1));
    assert(forall|m: int| 1 <= m < d ==> !is_control(#[trigger] p[m].kind)) by {
        assert(forall|m: int| 1 <= m < d ==> p[m] == cond[m - 1]);
    }
    lemma_resolve_skip(p, 1, d, pd1);
    assert(p[d].kind == OpKind::Do);
    let pd2 = Seq::empty().push(AbsFrame::OpenLoop(0, d));
    assert(pd1.drop_last() =~= Seq::<AbsFrame>::empty());
    assert(resolve_from(p, d, pd1) == resolve_from(p, d + 1, pd2));
    assert(forall|m: int| d + 1 <= m < e ==> !is_control(#[trigger] p[m].kind)) by {
        assert(forall|m: int| d + 1 <= m < e ==> p[m] == body[m - d - 1]);
    }
    lemma_resolve_skip(p, d + 1, e, pd2);
    assert(p[e].kind == OpKind::End);
    assert(pd2.drop_last() =~= Seq::<AbsFrame>::empty());
    assert(resolve_from(p, e, pd2) == resolve_from(q, n, Seq::empty()));
    assert(resolve_from(q, n, Seq::empty()) == Result::Ok::<
        Seq<AbsOp>,
        crate::resolver::ResolveError,
    >(q));

    // The resolved entries.
    assert(q[0] == AbsOp { kind: OpKind::While, value: Option::Some(AbsVal::Int(0)) });
    assert(q[d] == AbsOp { kind: OpKind::Do, value: Option::Some(AbsVal::Int(n as u64)) });
    assert(q[e] == AbsOp { kind: OpKind::End, value: Option::Some(AbsVal::Int(0)) });

    // The back edge: `end` returns to the `while`, whatever the state.
    assert(forall|r: RunState|
        r.ip == e ==> step(q, r) == (RunState { ip: 0, stack: r.stack, out: r.out }));

    // The loop head has no stack effect.
    assert(forall|r: RunState|
        r.ip == 0 ==> step(q, r) == (RunState { ip: 1, stack: r.stack, out: r.out }));

    // The `do` decides: truthy enters the body, falsy leaves the loop.
    let s_do = RunState { ip: d, stack: st.push(AbsVal::Int(v)), out: out };
    assert(st.push(AbsVal::Int(v)).take(st.len() as int) =~= st);
    if v == 1 {
        assert(step(q, s_do) == (RunState { ip: d + 1, stack: st, out: out }));
    } else {
        assert(step(q, s_do) == (RunState { ip: n, stack: st, out: out }));
    }
}

/// Block resolution correctness over a whole run: in the resolved
/// `if <body> end` with a truthy condition on top of the stack, the body
/// executes in full and the `end` then falls through to just past the
/// block, with exactly the stack and output the body produced.
pub proof fn lemma_if_block_truthy_run(
    body: Seq<AbsOp>,
    st: Seq<AbsVal>,
    out: Seq<char>,
    st2: Seq<AbsVal>,
    out2: Seq<char>,
    k: nat,
)
    requires
        forall|m: int| 0 <= m < body.len() ==> !is_control(#[trigger] body[m].kind),
        body.len() + 2 <= usize::MAX,
        run_steps(if_block_resolved(body), (RunState { ip: 1, stack: st, out: out }), k) == (
        RunState { ip: body.len() as int + 1, stack: st2, out: out2 }),
    ensures
        run_steps(
            if_block_resolved(body),
            (RunState { ip: 0, stack: st.push(AbsVal::Int(1)), out: out }),
            k + 2,
        ) == (RunState { ip: body.len() as int + 2, stack: st2, out: out2 }),
{
    lemma_if_block(body, st, out, 1);
    let q = if_block_resolved(body);
    let n = body.len() as int + 2;
    let e = n - 1;
    let s0 = RunState { ip: 0, stack: st.push(AbsVal::Int(1)), out: out };
    assert(q.len() == n);
    lemma_run_one(q, s0);
    assert(run_steps(q, s0, 1) == (RunState { ip: 1, stack: st, out: out }));
    lemma_run_add(q, s0, 1, k);
    assert(run_steps(q, s0, 1 + k) == (RunState { ip: e, stack: st2, out: out2 }));
    lemma_run_add(q, s0, 1 + k, 1);
    lemma_run_one(q, RunState { ip: e, stack: st2, out: out2 });
    assert(run_steps(q, (RunState { ip: e, stack: st2, out: out2 }), 1) == step(
        q,
        RunState { ip: e, stack: st2, out: out2 },
    ));
}

/// Loop correctness over a whole run: the condition is evaluated, the `do`
/// decides, and after a full body run the `end` returns to the loop head,
/// so the condition is re-evaluated before every iteration; a falsy
/// condition instead leaves to just past the `end`, and the body never runs
/// again. The hypotheses describe what one run of the condition and one run
/// of the body compute; the conclusion glues them into the loop's own
/// steps.
pub proof fn lemma_while_loop_runs(
    cond: Seq<AbsOp>,
    body: Seq<AbsOp>,
    st: Seq<AbsVal>,
    out: Seq<char>,
    st1: Seq<AbsVal>,
    out1: Seq<char>,
    v: u64,
    k: nat,
    st2: Seq<AbsVal>,
    out2: Seq<char>,
    k2: nat,
)
    requires
        forall|m: int| 0 <= m < cond.len() ==> !is_control(#[trigger] cond[m].kind),
        forall|m: int| 0 <= m < body.len() ==> !is_control(#[trigger] body[m].kind),
        cond.len() + body.len() + 3 <= usize::MAX,
        run_steps(while_loop_resolved(cond, body), (RunState { ip: 1, stack: st, out: out }), k)
            == (RunState {
            ip: 1 + cond.len() as int,
            stack: st1.push(AbsVal::Int(v)),
            out: out1,
        }),
        v == 1 ==> run_steps(
            while_loop_resolved(cond, body),
            (RunState { ip: 2 + cond.len() as int, stack: st1, out: out1 }),
            k2,
        ) == (RunState { ip: 2 + cond.len() as int + body.len() as int, stack: st2, out: out2 }),
    ensures
        v != 1 ==> run_steps(
            while_loop_resolved(cond, body),
            (RunState { ip: 0, stack: st, out: out }),
            k + 2,
        ) == (RunState {
            ip: 3 + cond.len() as int + body.len() as int,
            stack: st1,
            out: out1,
        }),
        v == 1 ==> run_steps(
            while_loop_resolved(cond, body),
            (RunState { ip: 0, stack: st, out: out }),
            k + k2 + 3,
        ) == (RunState { ip: 0, stack: st2, out: out2 }),
{
    lemma_while_loop(cond, body, st1, out1, v);
    let q = while_loop_resolved(cond, body);
    let d = 1 + cond.len() as int;
    let e = d + 1 + body.len() as int;
    let n = e + 1;
    let s0 = RunState { ip: 0, stack: st, out: out };
    assert(q.len() == n);
    lemma_run_one(q, s0);
    assert(run_steps(q, s0, 1) == (RunState { ip: 1, stack: st, out: out }));
    lemma_run_add(q, s0, 1, k);
    assert(run_steps(q, s0, 1 + k) == (RunState {
        ip: d,
        stack: st1.push(AbsVal::Int(v)),
        out: out1,
    }));
    lemma_run_add(q, s0, 1 + k, 1);
    lemma_run_one(q, RunState { ip: d, stack: st1.push(AbsVal::Int(v)), out: out1 });
    if v != 1 {
        assert(run_steps(q, s0, k + 2) == (RunState { ip: n, stack: st1, out: out1 }));
    } else {
        assert(run_steps(q, s0, k + 2) == (RunState { ip: d + 1, stack: st1, out: out1 }));
        lemma_run_add(q, s0, k + 2, k2);
        assert(run_steps(q, s0, k + 2 + k2) == (RunState { ip: e, stack: st2, out: out2 }));
        lemma_run_add(q, s0, k + 2 + k2, 1);
        lemma_run_one(q, RunState { ip: e, stack: st2, out: out2 });
        assert(run_steps(q, (RunState { ip: e, stack: st2, out: out2 }), 1) == step(
            q,
            RunState { ip: e, stack: st2, out: out2 },
        ));
    }
}

/// In a resolved program the instruction pointer stays within bounds: from
/// any reachable position one step lands inside the program or just past
/// its end, never anywhere else. Resolution bounds every jump target by the
/// program's length, and every other operation only advances by one.
pub proof fn lemma_step_stays_in_bounds(p: Seq<AbsOp>, q: Seq<AbsOp>, s: RunState)
    requires
        resolve_spec(p) == Result::Ok::<Seq<AbsOp>, crate::resolver::ResolveError>(q),
        p.len() <= usize::MAX,
        0 <= s.ip < q.len(),
    ensures
        0 <= step(q, s).ip <= q.len(),
{
    crate::resolver::lemma_resolution_sound(p, q);
}

/// The Dup/Drop stack law: wherever `push(v) dup drop` stands in a program
/// - whatever comes before or after it - running those three operations
/// leaves exactly the stack state that the push alone leaves: the same
/// stack with `v` on top, the same output, the instruction pointer just
/// past the three. With `lemma_run_add`, whatever follows runs from that
/// state.
pub proof fn lemma_dup_drop(p: Seq<AbsOp>, i: int, v: AbsVal, st: Seq<AbsVal>, out: Seq<char>)
    requires
        0 <= i,
        i + 3 <= p.len(),
        p[i] == push_of(v),
        p[i + 1] == plain_op(OpKind::Dup),
        p[i + 2] == plain_op(OpKind::Drop),
    ensures
        run_steps(p, (RunState { ip: i, stack: st, out: out }), 3) == (RunState {
            ip: i + 3,
            stack: st.push(v),
            out: out,
        }),
{
    let s0 = RunState { ip: i, stack: st, out: out };
    let s1 = step(p, s0);
    assert(s1 == (RunState { ip: i + 1, stack: st.push(v), out: out }));
    let s2 = step(p, s1);
    assert(s2 == (RunState { ip: i + 2, stack: st.push(v).push(v), out: out }));
    let s3 = step(p, s2);
    assert(st.push(v).push(v).take(st.len() as int + 1) =~= st.push(v));
    assert(s3 == (RunState { ip: i + 3, stack: st.push(v), out: out }));
    assert(run_steps(p, s0, 3) == run_steps(p, s1, 2));
    assert(run_steps(p, s1, 2) == run_steps(p, s2, 1));
    assert(run_steps(p, s2, 1) == run_steps(p, s3, 0));
}

/// The Swap involution: wherever two `swap`s stand in a row in a program -
/// whatever comes before or after them - they are a no-op on any stack that
/// holds at least two values: same stack, same output, the instruction
/// pointer just past the pair. With `lemma_run_add`, whatever follows runs
/// from that unchanged state.
pub proof fn lemma_swap_swap(p: Seq<AbsOp>, i: int, st: Seq<AbsVal>, out: Seq<char>)
    requires
        0 <= i,
        i + 2 <= p.len(),
        p[i] == plain_op(OpKind::Swap),
        p[i + 1] == plain_op(OpKind::Swap),
        st.len() >= 2,
    ensures
        run_steps(p, (RunState { ip: i, stack: st, out: out }), 2) == (RunState {
            ip: i + 2,
            stack: st,
            out: out,
        }),
{
    let l = st.len() as int;
    let s0 = RunState { ip: i, stack: st, out: out };
    let s1 = step(p, s0);
    let swapped = st.take(l - 2).push(st[l - 1]).push(st[l - 2]);
    assert(s1 == (RunState { ip: i + 1, stack: swapped, out: out }));
    let s2 = step(p, s1);
    assert(swapped.len() == l);
    assert(swapped.take(l - 2) =~= st.take(l - 2));
    assert(swapped[l - 1] == st[l - 2]);
    assert(swapped[l - 2] == st[l - 1]);
    assert(swapped.take(l - 2).push(swapped[l - 1]).push(swapped[l - 2]) =~= st);
    assert(s2 == (RunState { ip: i + 2, stack: st, out: out }));
    assert(run_steps(p, s0, 2) == run_steps(p, s1, 1));
    assert(run_steps(p, s1, 1) == run_steps(p, s2, 0));
}

/// Print's field never varies: whatever the value, one `print` writes
/// exactly 21 characters, the 20-character NUL-padded decimal field and a
/// closing newline, with the digits right-aligned at its end.
pub proof fn lemma_print_field_width(n: u64)
    ensures
        print_field(n).len() == 21,
        print_field(n).last() == '\n',
        print_field(n).subrange(20 - dec_rep(n as nat).len() as int, 20) == dec_rep(n as nat),
        forall|i: int|
            0 <= i < 20 - dec_rep(n as nat).len() ==> #[trigger] print_field(n)[i] == '\0',
{
    lemma_dec_rep_u64_len(n);
    let digits = dec_rep(n as nat);
    let pad = (20 - digits.len()) as nat;
    lemma_nul_pad_len(pad);
    crate::numfmt::lemma_nul_pad_chars(pad);
    assert(print_field(n).subrange(20 - digits.len() as int, 20) =~= digits);
    assert(forall|i: int|
        0 <= i < pad ==> #[trigger] print_field(n)[i] == crate::numfmt::nul_pad(pad)[i]);
}

} // verus!

