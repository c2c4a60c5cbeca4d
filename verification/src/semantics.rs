//! The reference semantics of a resolved program: a small-step machine over
//! an instruction pointer, a value stack and the text written to standard
//! output so far.
//!
//! The machine is total. An operation whose operands are missing from the
//! stack, or of the wrong type, is skipped: the stack is left unchanged and
//! the instruction pointer advances. `Plus`, `Minus` and `Mult` wrap modulo
//! 2^64, and division by zero yields zero, as the target's instructions do.
//! Both backends follow this one discipline, since diverging here would
//! break their output equivalence.

use vstd::prelude::*;
use crate::numfmt::print_field;
use crate::ops::{AbsOp, AbsVal, OpKind};

verus! {

/// The whole state of a run: the next instruction's index, the value stack
/// (last element is the top), and everything written to standard output.
pub struct RunState {
    pub ip: int,
    pub stack: Seq<AbsVal>,
    pub out: Seq<char>,
}

/// The state a run starts from: instruction pointer zero, an empty stack,
/// nothing written.
pub open spec fn init_state() -> RunState {
    RunState { ip: 0, stack: Seq::empty(), out: Seq::empty() }
}

/// A run ends when the instruction pointer leaves the program.
pub open spec fn halted(p: Seq<AbsOp>, s: RunState) -> bool {
    !(0 <= s.ip < p.len())
}

/// The top two stack entries are integers.
pub open spec fn top2_int(st: Seq<AbsVal>) -> bool {
    st.len() >= 2 && st[st.len() - 1] is Int && st[st.len() - 2] is Int
}

/// A jump target is taken only when it is an integer payload that fits an
/// instruction index; anything else falls through to the next instruction.
pub open spec fn jump_target(v: Option<AbsVal>, fallthrough: int) -> int {
    match v {
        Option::Some(AbsVal::Int(t)) => if t <= usize::MAX {
            t as int
        } else {
            fallthrough
        },
        _ => fallthrough,
    }
}

/// One step of the machine at `s.ip`; the per-opcode table of the language.
pub open spec fn step(p: Seq<AbsOp>, s: RunState) -> RunState
    recommends
        !halted(p, s),
{
    let op = p[s.ip];
    let st = s.stack;
    let l = st.len() as int;
    let next = s.ip + 1;
    match op.kind {
        OpKind::Push => match op.value {
            Option::Some(v) => RunState { ip: next, stack: st.push(v), out: s.out },
            Option::None => RunState { ip: next, stack: st, out: s.out },
        },
        OpKind::Plus => if top2_int(st) {
            let a = st[l - 1]->Int_0;
            let b = st[l - 2]->Int_0;
            RunState {
                ip: next,
                stack: st.take(l - 2).push(AbsVal::Int(vstd::wrapping::u64_specs::wrapping_add(b, a))),
                out: s.out,
            }
        } else {
            RunState { ip: next, stack: st, out: s.out }
        },
        OpKind::Minus => if top2_int(st) {
            let a = st[l - 1]->Int_0;
            let b = st[l - 2]->Int_0;
            RunState {
                ip: next,
                stack: st.take(l - 2).push(AbsVal::Int(vstd::wrapping::u64_specs::wrapping_sub(b, a))),
                out: s.out,
            }
        } else {
            RunState { ip: next, stack: st, out: s.out }
        },
        OpKind::Mult => if top2_int(st) {
            let a = st[l - 1]->Int_0;
            let b = st[l - 2]->Int_0;
            RunState {
                ip: next,
                stack: st.take(l - 2).push(AbsVal::Int(vstd::wrapping::u64_specs::wrapping_mul(b, a))),
                out: s.out,
            }
        } else {
            RunState { ip: next, stack: st, out: s.out }
        },
        OpKind::Div => if top2_int(st) {
            let a = st[l - 1]->Int_0;
            let b = st[l - 2]->Int_0;
            RunState {
                ip: next,
                stack: st.take(l - 2).push(AbsVal::Int(if a == 0 {
                    0
                } else {
                    b / a
                })),
                out: s.out,
            }
        } else {
            RunState { ip: next, stack: st, out: s.out }
        },
        OpKind::Equals => if l >= 2 {
            let r: u64 = if st[l - 2] == st[l - 1] {
                1
            } else {
                0
            };
            RunState { ip: next, stack: st.take(l - 2).push(AbsVal::Int(r)), out: s.out }
        } else {
            RunState { ip: next, stack: st, out: s.out }
        },
        OpKind::GT => if top2_int(st) {
            let r: u64 = if st[l - 2]->Int_0 > st[l - 1]->Int_0 {
                1
            } else {
                0
            };
            RunState { ip: next, stack: st.take(l - 2).push(AbsVal::Int(r)), out: s.out }
        } else {
            RunState { ip: next, stack: st, out: s.out }
        },
        OpKind::LT => if top2_int(st) {
            let r: u64 = if st[l - 2]->Int_0 < st[l - 1]->Int_0 {
                1
            } else {
                0
            };
            RunState { ip: next, stack: st.take(l - 2).push(AbsVal::Int(r)), out: s.out }
        } else {
            RunState { ip: next, stack: st, out: s.out }
        },
        OpKind::Print => if l >= 1 && st[l - 1] is Int {
            let a = st[l - 1]->Int_0;
            RunState { ip: next, stack: st.take(l - 1), out: s.out + print_field(a) }
        } else {
            RunState { ip: next, stack: st, out: s.out }
        },
        OpKind::Write => if l >= 3 && st[l - 2] is Int && st[l - 3] is Text {
            let fd = st[l - 2]->Int_0;
            let text = st[l - 3]->Text_0;
            RunState {
                ip: next,
                stack: st.take(l - 3),
                out: if fd == 1 {
                    s.out + text
                } else {
                    s.out
                },
            }
        } else {
            RunState { ip: next, stack: st, out: s.out }
        },
        OpKind::Dup => if l >= 1 {
            RunState { ip: next, stack: st.push(st[l - 1]), out: s.out }
        } else {
            RunState { ip: next, stack: st, out: s.out }
        },
        OpKind::Swap => if l >= 2 {
            let a = st[l - 1];
            let b = st[l - 2];
            RunState { ip: next, stack: st.take(l - 2).push(a).push(b), out: s.out }
        } else {
            RunState { ip: next, stack: st, out: s.out }
        },
        OpKind::Rot => if l >= 3 {
            let a = st[l - 1];
            let b = st[l - 2];
            let c = st[l - 3];
            RunState { ip: next, stack: st.take(l - 3).push(b).push(a).push(c), out: s.out }
        } else {
            RunState { ip: next, stack: st, out: s.out }
        },
        OpKind::Drop => if l >= 1 {
            RunState { ip: next, stack: st.take(l - 1), out: s.out }
        } else {
            RunState { ip: next, stack: st, out: s.out }
        },
        OpKind::Over => if l >= 2 {
            RunState { ip: next, stack: st.push(st[l - 2]), out: s.out }
        } else {
            RunState { ip: next, stack: st, out: s.out }
        },
        OpKind::If => if l >= 1 && st[l - 1] is Int {
            let c = st[l - 1]->Int_0;
            RunState {
                ip: if c == 1 {
                    next
                } else {
                    jump_target(op.value, next)
                },
                stack: st.take(l - 1),
                out: s.out,
            }
        } else {
            RunState { ip: next, stack: st, out: s.out }
        },
        OpKind::Do => if l >= 1 && st[l - 1] is Int {
            let c = st[l - 1]->Int_0;
            RunState {
                ip: if c == 1 {
                    next
                } else {
                    jump_target(op.value, next)
                },
                stack: st.take(l - 1),
                out: s.out,
            }
        } else {
            RunState { ip: next, stack: st, out: s.out }
        },
        OpKind::While => RunState { ip: next, stack: st, out: s.out },
        OpKind::End => match op.value {
            Option::Some(AbsVal::Int(t)) => if t <= usize::MAX && t != s.ip {
                RunState { ip: t as int, stack: st, out: s.out }
            } else {
                RunState { ip: next, stack: st, out: s.out }
            },
            _ => RunState { ip: next, stack: st, out: s.out },
        },
    }
}

/// The state after at most `k` steps: stepping stops early once the run has
/// halted.
pub open spec fn run_steps(p: Seq<AbsOp>, s: RunState, k: nat) -> RunState
    decreases k,
{
    if k == 0 || halted(p, s) {
        s
    } else {
        run_steps(p, step(p, s), (k - 1) as nat)
    }
}

/// A halted run stays put, however many more steps are allowed.
pub proof fn lemma_halted_stable(p: Seq<AbsOp>, s: RunState, k: nat)
    requires
        halted(p, s),
    ensures
        run_steps(p, s, k) == s,
{
}

/// Unrolls one step at the end of a run rather than at the front.
pub proof fn lemma_run_snoc(p: Seq<AbsOp>, s: RunState, k: nat)
    requires
        !halted(p, run_steps(p, s, k)),
    ensures
        run_steps(p, s, k + 1) == step(p, run_steps(p, s, k)),
    decreases k,
{
    if k == 0 {
        assert(run_steps(p, s, 1) == run_steps(p, step(p, s), 0));
    } else if halted(p, s) {
        lemma_halted_stable(p, s, k);
        assert(false);
    } else {
        assert(run_steps(p, s, k) == run_steps(p, step(p, s), (k - 1) as nat));
        lemma_run_snoc(p, step(p, s), (k - 1) as nat);
        assert(run_steps(p, s, k + 1) == run_steps(p, step(p, s), k));
        assert(((k - 1) as nat) + 1 == k);
    }
}

/// One allowed step from a live state is exactly one step.
pub proof fn lemma_run_one(p: Seq<AbsOp>, s: RunState)
    requires
        !halted(p, s),
    ensures
        run_steps(p, s, 1) == step(p, s),
{
    assert(run_steps(p, s, 1) == run_steps(p, step(p, s), 0));
}

/// Runs compose: stepping `a + b` times is stepping `a` times, then `b`
/// times from where that left off.
pub proof fn lemma_run_add(p: Seq<AbsOp>, s: RunState, a: nat, b: nat)
    ensures
        run_steps(p, s, a + b) == run_steps(p, run_steps(p, s, a), b),
    decreases a,
{
    if a == 0 {
    } else if halted(p, s) {
        lemma_halted_stable(p, s, a);
        lemma_halted_stable(p, s, a + b);
        lemma_halted_stable(p, s, b);
    } else {
        lemma_run_add(p, step(p, s), (a - 1) as nat, b);
        assert((a - 1) as nat + b == (a + b - 1) as nat);
    }
}

/// Once halted at some step count, later step counts give the same state.
pub proof fn lemma_run_stops(p: Seq<AbsOp>, s: RunState, k: nat, m: nat)
    requires
        halted(p, run_steps(p, s, k)),
        k <= m,
    ensures
        run_steps(p, s, m) == run_steps(p, s, k),
    decreases k,
{
    if k == 0 {
        lemma_halted_stable(p, s, m);
    } else if halted(p, s) {
    } else {
        lemma_run_stops(p, step(p, s), (k - 1) as nat, (m - 1) as nat);
    }
}

} // verus!
