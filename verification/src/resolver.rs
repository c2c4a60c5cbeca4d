//! Block resolution: one left-to-right scan that turns the flat token order
//! of `if`, `while`, `do` and `end` into explicit jump targets, supporting
//! arbitrary nesting through an explicit stack of pending open blocks.
//!
//! After a successful resolution:
//! - an `If` holds the index just past its matching `End` (the skip target
//!   when the condition is falsy), and that `End` holds its own index
//!   (meaning: fall through, no backward jump);
//! - a `While` holds 0 (marking it resolved; never used as a target), its
//!   `Do` holds the index just past the matching `End` (the exit target), and
//!   that `End` holds the `While`'s own index (the loop back edge).
//!
//! Resolution only fills `value` fields; it never reorders, adds or removes
//! operations, so instruction pointers are stable across the pass.

use vstd::prelude::*;
use vstd::pervasive::VecAdditionalExecFns;
use crate::ops::{Op, OpKind, OpValue, AbsOp, AbsVal, is_control};

verus! {

/// A block still open at the current point of the scan.
#[derive(Clone, Copy, Debug)]
pub enum Frame {
    /// An `if` at this index awaits its `end`.
    OpenIf(usize),
    /// A `while` at this index awaits its `do`.
    OpenWhile(usize),
    /// A `while` (first index) whose `do` (second index) awaits the `end`.
    OpenLoop(usize, usize),
}

/// The model of a pending block, over unbounded indices.
pub enum AbsFrame {
    OpenIf(int),
    OpenWhile(int),
    OpenLoop(int, int),
}

impl View for Frame {
    type V = AbsFrame;

    open spec fn view(&self) -> AbsFrame {
        match self {
            Frame::OpenIf(i) => AbsFrame::OpenIf(*i as int),
            Frame::OpenWhile(w) => AbsFrame::OpenWhile(*w as int),
            Frame::OpenLoop(w, d) => AbsFrame::OpenLoop(*w as int, *d as int),
        }
    }
}

impl DeepView for Frame {
    type V = AbsFrame;

    open spec fn deep_view(&self) -> AbsFrame {
        self.view()
    }
}

/// Why a program's blocks cannot be resolved. Each is fatal: a malformed
/// program is rejected before any execution.
#[derive(Clone, Copy, Debug, PartialEq, Eq, Structural)]
pub enum ResolveError {
    /// A `do` with no open `while` to attach to.
    UnexpectedDo,
    /// An `end` with no open block at all.
    UnexpectedEnd,
    /// An `end` closing a `while` that never had a `do`.
    MissingDo,
    /// The program ended with a block still open.
    UnclosedBlock,
}

/// The program with the operation at `i` given jump target `t`; its kind is
/// kept. An index outside the program leaves it unchanged.
pub open spec fn set_target(p: Seq<AbsOp>, i: int, t: u64) -> Seq<AbsOp> {
    if 0 <= i < p.len() {
        p.update(i, AbsOp { kind: p[i].kind, value: Option::Some(AbsVal::Int(t)) })
    } else {
        p
    }
}

/// `set_target` never changes the program's length.
pub broadcast proof fn lemma_set_target_len(p: Seq<AbsOp>, i: int, t: u64)
    ensures
        (#[trigger] set_target(p, i, t)).len() == p.len(),
{
}

/// The resolution scan from `ip` with the given stack of open blocks: the
/// defining description of the pass.
pub open spec fn resolve_from(p: Seq<AbsOp>, ip: int, pending: Seq<AbsFrame>) -> Result<
    Seq<AbsOp>,
    ResolveError,
>
    decreases p.len() - ip,
        via resolve_from_decreases
{
    if !(0 <= ip < p.len()) {
        if pending.len() == 0 {
            Result::Ok(p)
        } else {
            Result::Err(ResolveError::UnclosedBlock)
        }
    } else {
        let k = p[ip].kind;
        if k == OpKind::If {
            resolve_from(p, ip + 1, pending.push(AbsFrame::OpenIf(ip)))
        } else if k == OpKind::While {
            resolve_from(p, ip + 1, pending.push(AbsFrame::OpenWhile(ip)))
        } else if k == OpKind::Do {
            if pending.len() > 0 && pending.last() is OpenWhile {
                resolve_from(
                    p,
                    ip + 1,
                    pending.drop_last().push(AbsFrame::OpenLoop(pending.last()->OpenWhile_0, ip)),
                )
            } else {
                Result::Err(ResolveError::UnexpectedDo)
            }
        } else if k == OpKind::End {
            if pending.len() == 0 {
                Result::Err(ResolveError::UnexpectedEnd)
            } else {
                match pending.last() {
                    AbsFrame::OpenIf(i) => resolve_from(
                        set_target(set_target(p, i, (ip + 1) as u64), ip, ip as u64),
                        ip + 1,
                        pending.drop_last(),
                    ),
                    AbsFrame::OpenWhile(_) => Result::Err(ResolveError::MissingDo),
                    AbsFrame::OpenLoop(w, d) => resolve_from(
                        set_target(
                            set_target(set_target(p, ip, w as u64), w, 0),
                            d,
                            (ip + 1) as u64,
                        ),
                        ip + 1,
                        pending.drop_last(),
                    ),
                }
            }
        } else {
            resolve_from(p, ip + 1, pending)
        }
    }
}

#[via_fn]
proof fn resolve_from_decreases(p: Seq<AbsOp>, ip: int, pending: Seq<AbsFrame>) {
    broadcast use lemma_set_target_len;

}

/// Resolution of a whole program, from index 0 with no open block.
pub open spec fn resolve_spec(p: Seq<AbsOp>) -> Result<Seq<AbsOp>, ResolveError> {
    resolve_from(p, 0, Seq::empty())
}

/// A control operation with its jump target filled in and within bounds.
pub open spec fn resolved_op(op: AbsOp, n: int) -> bool {
    match op.value {
        Option::Some(AbsVal::Int(t)) => t <= n,
        _ => false,
    }
}

/// Whether the frame holds `j` as one of its open-block positions.
pub open spec fn frame_mentions(f: AbsFrame, j: int) -> bool {
    match f {
        AbsFrame::OpenIf(i) => i == j,
        AbsFrame::OpenWhile(w) => w == j,
        AbsFrame::OpenLoop(w, d) => w == j || d == j,
    }
}

/// Whether some open block of the stack sits at position `j`.
pub open spec fn frame_pos(pending: Seq<AbsFrame>, j: int) -> bool {
    exists|k: int| 0 <= k < pending.len() && frame_mentions(#[trigger] pending[k], j)
}

/// The open blocks lie below `ip` and sit on operations of their kind.
pub open spec fn frames_wf(p: Seq<AbsOp>, ip: int, pending: Seq<AbsFrame>) -> bool {
    forall|k: int|
        0 <= k < pending.len() ==> match #[trigger] pending[k] {
            AbsFrame::OpenIf(i) => 0 <= i < ip && p[i].kind == OpKind::If,
            AbsFrame::OpenWhile(w) => 0 <= w < ip && p[w].kind == OpKind::While,
            AbsFrame::OpenLoop(w, d) => 0 <= w < ip && p[w].kind == OpKind::While && 0 <= d < ip
                && p[d].kind == OpKind::Do,
        }
}

/// The heart of resolution soundness, by induction over the scan: whenever
/// the scan from `ip` succeeds, and every control operation already passed
/// is either resolved or still open, the result has the same length and
/// kinds as its input, leaves every operation that is no control operation
/// untouched, and resolves every control operation with a target bounded by
/// the program's length.
proof fn lemma_resolve_from_sound(p: Seq<AbsOp>, ip: int, pending: Seq<AbsFrame>, q: Seq<AbsOp>)
    requires
        resolve_from(p, ip, pending) == Result::Ok::<Seq<AbsOp>, ResolveError>(q),
        0 <= ip <= p.len(),
        p.len() <= usize::MAX,
        frames_wf(p, ip, pending),
        forall|j: int|
            0 <= j < ip && is_control(#[trigger] p[j].kind) && !frame_pos(pending, j)
                ==> resolved_op(p[j], p.len() as int),
    ensures
        q.len() == p.len(),
        forall|j: int| 0 <= j < p.len() ==> #[trigger] q[j].kind == p[j].kind,
        forall|j: int| 0 <= j < p.len() && !is_control(#[trigger] p[j].kind) ==> q[j] == p[j],
        forall|j: int|
            0 <= j < q.len() && is_control(#[trigger] q[j].kind) ==> resolved_op(
                q[j],
                q.len() as int,
            ),
    decreases p.len() - ip,
{
    broadcast use lemma_set_target_len;

    if ip >= p.len() {
        assert(q == p);
        assert(forall|j: int|
            0 <= j < p.len() && is_control(#[trigger] p[j].kind) ==> resolved_op(
                p[j],
                p.len() as int,
            )) by {
            assert(forall|j: int| !frame_pos(pending, j));
        }
    } else {
        let k = p[ip].kind;
        if k == OpKind::If {
            let pd2 = pending.push(AbsFrame::OpenIf(ip));
            assert(frames_wf(p, ip + 1, pd2));
            assert(forall|j: int|
                0 <= j < ip + 1 && is_control(#[trigger] p[j].kind) && !frame_pos(pd2, j)
                    ==> resolved_op(p[j], p.len() as int)) by {
                assert(frame_mentions(pd2[pd2.len() - 1], ip));
                assert(forall|j: int| frame_pos(pending, j) ==> frame_pos(pd2, j)) by {
                    assert(forall|m: int| 0 <= m < pending.len() ==> pd2[m] == pending[m]);
                }
            }
            lemma_resolve_from_sound(p, ip + 1, pd2, q);
        } else if k == OpKind::While {
            let pd2 = pending.push(AbsFrame::OpenWhile(ip));
            assert(frames_wf(p, ip + 1, pd2));
            assert(forall|j: int|
                0 <= j < ip + 1 && is_control(#[trigger] p[j].kind) && !frame_pos(pd2, j)
                    ==> resolved_op(p[j], p.len() as int)) by {
                assert(frame_mentions(pd2[pd2.len() - 1], ip));
                assert(forall|j: int| frame_pos(pending, j) ==> frame_pos(pd2, j)) by {
                    assert(forall|m: int| 0 <= m < pending.len() ==> pd2[m] == pending[m]);
                }
            }
            lemma_resolve_from_sound(p, ip + 1, pd2, q);
        } else if k == OpKind::Do {
            let w = pending.last()->OpenWhile_0;
            let pd2 = pending.drop_last().push(AbsFrame::OpenLoop(w, ip));
            assert(frames_wf(p, ip + 1, pd2));
            assert(forall|j: int|
                0 <= j < ip + 1 && is_control(#[trigger] p[j].kind) && !frame_pos(pd2, j)
                    ==> resolved_op(p[j], p.len() as int)) by {
                assert(frame_mentions(pd2[pd2.len() - 1], ip));
                assert(frame_mentions(pd2[pd2.len() - 1], w));
                assert(forall|j: int| frame_pos(pending, j) ==> frame_pos(pd2, j)) by {
                    assert(forall|m: int| 0 <= m < pending.len() - 1 ==> pd2[m] == pending[m]);
                    assert(frame_mentions(pending[pending.len() - 1], w) ==> frame_mentions(
                        pd2[pd2.len() - 1],
                        w,
                    ));
                }
            }
            lemma_resolve_from_sound(p, ip + 1, pd2, q);
        } else if k == OpKind::End {
            let pd2 = pending.drop_last();
            assert(forall|m: int| 0 <= m < pd2.len() ==> pd2[m] == pending[m]);
            match pending.last() {
                AbsFrame::OpenIf(i) => {
                    let p2 = set_target(set_target(p, i, (ip + 1) as u64), ip, ip as u64);
                    assert(p2.len() == p.len());
                    assert(forall|j: int|
                        0 <= j < p.len() && j != i && j != ip ==> p2[j] == p[j]);
                    assert(forall|j: int| 0 <= j < p.len() ==> #[trigger] p2[j].kind
                        == p[j].kind);
                    assert(resolved_op(p2[i], p.len() as int));
                    assert(resolved_op(p2[ip], p.len() as int));
                    assert(frames_wf(p2, ip + 1, pd2));
                    assert(forall|j: int|
                        0 <= j < ip + 1 && is_control(#[trigger] p2[j].kind) && !frame_pos(
                            pd2,
                            j,
                        ) ==> resolved_op(p2[j], p2.len() as int)) by {
                        assert(forall|j: int|
                            frame_pos(pending, j) && j != i ==> frame_pos(pd2, j)) by {
                            assert(forall|j: int, m: int|
                                0 <= m < pending.len() && #[trigger] frame_mentions(
                                    pending[m],
                                    j,
                                ) && j != i ==> m < pending.len() - 1);
                        }
                    }
                    lemma_resolve_from_sound(p2, ip + 1, pd2, q);
                },
                AbsFrame::OpenWhile(_) => {
                    assert(false);
                },
                AbsFrame::OpenLoop(w, d) => {
                    let p2 = set_target(
                        set_target(set_target(p, ip, w as u64), w, 0),
                        d,
                        (ip + 1) as u64,
                    );
                    assert(p2.len() == p.len());
                    assert(forall|j: int|
                        0 <= j < p.len() && j != w && j != d && j != ip ==> p2[j] == p[j]);
                    assert(forall|j: int| 0 <= j < p.len() ==> #[trigger] p2[j].kind
                        == p[j].kind);
                    assert(resolved_op(p2[w], p.len() as int));
                    assert(resolved_op(p2[d], p.len() as int));
                    assert(resolved_op(p2[ip], p.len() as int));
                    assert(frames_wf(p2, ip + 1, pd2));
                    assert(forall|j: int|
                        0 <= j < ip + 1 && is_control(#[trigger] p2[j].kind) && !frame_pos(
                            pd2,
                            j,
                        ) ==> resolved_op(p2[j], p2.len() as int)) by {
                        assert(forall|j: int|
                            frame_pos(pending, j) && j != w && j != d ==> frame_pos(pd2, j)) by {
                            assert(forall|j: int, m: int|
                                0 <= m < pending.len() && #[trigger] frame_mentions(
                                    pending[m],
                                    j,
                                ) && j != w && j != d ==> m < pending.len() - 1);
                        }
                    }
                    lemma_resolve_from_sound(p2, ip + 1, pd2, q);
                },
            }
        } else {
            assert(!is_control(k));
            lemma_resolve_from_sound(p, ip + 1, pending, q);
        }
    }
}

/// Resolution soundness: a successful resolution keeps the program's length
/// and every operation's kind, touches nothing but control operations, and
/// leaves no control operation unresolved - each holds an integer jump
/// target no larger than the program's length. Instruction pointers are
/// therefore stable across the pass, and an unresolved control operation
/// can only come from a rejected program.
pub proof fn lemma_resolution_sound(p: Seq<AbsOp>, q: Seq<AbsOp>)
    requires
        resolve_spec(p) == Result::Ok::<Seq<AbsOp>, ResolveError>(q),
        p.len() <= usize::MAX,
    ensures
        q.len() == p.len(),
        forall|j: int| 0 <= j < p.len() ==> #[trigger] q[j].kind == p[j].kind,
        forall|j: int| 0 <= j < p.len() && !is_control(#[trigger] p[j].kind) ==> q[j] == p[j],
        forall|j: int|
            0 <= j < q.len() && is_control(#[trigger] q[j].kind) ==> resolved_op(
                q[j],
                q.len() as int,
            ),
{
    lemma_resolve_from_sound(p, 0, Seq::empty(), q);
}

/// The scan passes over a stretch without control operations untouched.
pub proof fn lemma_resolve_skip(p: Seq<AbsOp>, i: int, e: int, pending: Seq<AbsFrame>)
    requires
        0 <= i <= e <= p.len(),
        forall|m: int| i <= m < e ==> !is_control(#[trigger] p[m].kind),
    ensures
        resolve_from(p, i, pending) == resolve_from(p, e, pending),
    decreases e - i,
{
    if i < e {
        assert(!is_control(p[i].kind));
        lemma_resolve_skip(p, i + 1, e, pending);
    }
}

/// All indices held by a frame lie below `bound`.
pub open spec fn frame_below(f: Frame, bound: int) -> bool {
    match f {
        Frame::OpenIf(i) => i < bound,
        Frame::OpenWhile(w) => w < bound,
        Frame::OpenLoop(w, d) => w < bound && d < bound,
    }
}

/// All indices held by a frame sit on control operations of the program.
pub open spec fn frame_on_control(f: Frame, p: Seq<AbsOp>) -> bool {
    match f {
        Frame::OpenIf(i) => is_control(p[i as int].kind),
        Frame::OpenWhile(w) => is_control(p[w as int].kind),
        Frame::OpenLoop(w, d) => is_control(p[w as int].kind) && is_control(p[d as int].kind),
    }
}

/// Gives the operation at `i` the jump target `t`, keeping its kind.
fn set_jump(program: &mut Vec<Op>, i: usize, t: u64)
    requires
        i < old(program)@.len(),
    ensures
        final(program).deep_view() == set_target(old(program).deep_view(), i as int, t),
        final(program)@.len() == old(program)@.len(),
        forall|j: int|
            0 <= j < old(program)@.len() ==> final(program)@[j].kind == old(program)@[j].kind,
{
    let k = program[i].kind;
    program.set(i, Op { kind: k, value: Option::Some(OpValue::IntVal(t)) });
    proof {
        assert(program.deep_view() =~= set_target(old(program).deep_view(), i as int, t));
    }
}

/// Resolves all blocks of `program` in place, or reports why it cannot be
/// done. On success the program is exactly the one the resolution scan
/// prescribes; on failure the error is exactly the scan's. On either path
/// the length and the kinds of the operations are untouched, and so is
/// every operation that is no control operation: the pass only fills the
/// `value` fields of control operations (on failure, only of those whose
/// blocks it had already closed).
pub fn cross_reference_blocks(program: &mut Vec<Op>) -> (r: Result<(), ResolveError>)
    ensures
        match r {
            Result::Ok(()) => resolve_spec(old(program).deep_view()) == Result::Ok::<
                Seq<AbsOp>,
                ResolveError,
            >(final(program).deep_view()),
            Result::Err(e) => resolve_spec(old(program).deep_view()) == Result::Err::<
                Seq<AbsOp>,
                ResolveError,
            >(e),
        },
        final(program)@.len() == old(program)@.len(),
        forall|j: int|
            0 <= j < old(program)@.len() ==> final(program)@[j].kind == old(program)@[j].kind,
        forall|j: int|
            0 <= j < old(program)@.len() && !is_control(old(program).deep_view()[j].kind)
                ==> final(program).deep_view()[j] == old(program).deep_view()[j],
{
    let ghost p0 = old(program).deep_view();
    let mut pending: Vec<Frame> = Vec::new();
    let mut ip: usize = 0;
    proof {
        assert(pending.deep_view() =~= Seq::<AbsFrame>::empty());
    }
    while ip < program.len()
        invariant
            ip <= program@.len(),
            program@.len() == old(program)@.len(),
            resolve_spec(p0) == resolve_from(program.deep_view(), ip as int, pending.deep_view()),
            p0 == old(program).deep_view(),
            forall|j: int| 0 <= j < program@.len() ==> program@[j].kind == old(program)@[j].kind,
            forall|j: int|
                0 <= j < program@.len() && !is_control(p0[j].kind) ==> program.deep_view()[j]
                    == p0[j],
            forall|j: int| 0 <= j < pending@.len() ==> frame_below(pending@[j], ip as int),
            forall|j: int| 0 <= j < pending@.len() ==> frame_on_control(#[trigger] pending@[j], p0),
        decreases program@.len() - ip,
    {
        let ghost p_cur = program.deep_view();
        let ghost pd_cur = pending.deep_view();
        let k = program[ip].kind;
        proof {
            assert(p_cur[ip as int].kind == k);
        }
        match k {
            OpKind::If => {
                pending.push(Frame::OpenIf(ip));
                proof {
                    assert(pending.deep_view() =~= pd_cur.push(AbsFrame::OpenIf(ip as int)));
                }
            },
            OpKind::While => {
                pending.push(Frame::OpenWhile(ip));
                proof {
                    assert(pending.deep_view() =~= pd_cur.push(AbsFrame::OpenWhile(ip as int)));
                }
            },
            OpKind::Do => {
                if pending.len() == 0 {
                    return Result::Err(ResolveError::UnexpectedDo);
                }
                let lf = pending[pending.len() - 1];
                proof {
                    assert(pd_cur.last() == lf@);
                }
                match lf {
                    Frame::OpenWhile(w) => {
                        pending.pop();
                        pending.push(Frame::OpenLoop(w, ip));
                        proof {
                            assert(pending.deep_view() =~= pd_cur.drop_last().push(
                                AbsFrame::OpenLoop(w as int, ip as int),
                            ));
                        }
                    },
                    Frame::OpenIf(_) => {
                        return Result::Err(ResolveError::UnexpectedDo);
                    },
                    Frame::OpenLoop(_, _) => {
                        return Result::Err(ResolveError::UnexpectedDo);
                    },
                }
            },
            OpKind::End => {
                if pending.len() == 0 {
                    return Result::Err(ResolveError::UnexpectedEnd);
                }
                let lf = pending[pending.len() - 1];
                proof {
                    assert(pd_cur.last() == lf@);
                }
                match lf {
                    Frame::OpenIf(i) => {
                        pending.pop();
                        set_jump(program, i, (ip + 1) as u64);
                        set_jump(program, ip, ip as u64);
                        proof {
                            assert(pending.deep_view() =~= pd_cur.drop_last());
                            assert(program.deep_view() == set_target(
                                set_target(p_cur, i as int, (ip + 1) as u64),
                                ip as int,
                                ip as u64,
                            ));
                        }
                    },
                    Frame::OpenWhile(_) => {
                        return Result::Err(ResolveError::MissingDo);
                    },
                    Frame::OpenLoop(w, d) => {
                        pending.pop();
                        set_jump(program, ip, w as u64);
                        set_jump(program, w, 0);
                        set_jump(program, d, (ip + 1) as u64);
                        proof {
                            assert(pending.deep_view() =~= pd_cur.drop_last());
                            assert(program.deep_view() == set_target(
                                set_target(set_target(p_cur, ip as int, w as u64), w as int, 0),
                                d as int,
                                (ip + 1) as u64,
                            ));
                        }
                    },
                }
            },
            OpKind::Push => {},
            OpKind::Plus => {},
            OpKind::Minus => {},
            OpKind::Mult => {},
            OpKind::Div => {},
            OpKind::Print => {},
            OpKind::Write => {},
            OpKind::Equals => {},
            OpKind::Dup => {},
            OpKind::Swap => {},
            OpKind::Rot => {},
            OpKind::Drop => {},
            OpKind::Over => {},
            OpKind::GT => {},
            OpKind::LT => {},
        }
        ip = ip + 1;
        proof {
            assert(resolve_from(p_cur, (ip - 1) as int, pd_cur) == resolve_from(
                program.deep_view(),
                ip as int,
                pending.deep_view(),
            ));
        }
    }
    proof {
        assert(pending.deep_view().len() == pending@.len());
    }
    if pending.len() == 0 {
        proof {
            assert(resolve_from(program.deep_view(), ip as int, pending.deep_view())
                == Result::Ok::<Seq<AbsOp>, ResolveError>(program.deep_view()));
        }
        Result::Ok(())
    } else {
        proof {
            assert(resolve_from(program.deep_view(), ip as int, pending.deep_view())
                == Result::Err::<Seq<AbsOp>, ResolveError>(ResolveError::UnclosedBlock));
        }
        Result::Err(ResolveError::UnclosedBlock)
    }
}

} // verus!
