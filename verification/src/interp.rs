//! The direct interpreter: executes a resolved program against a fresh value
//! stack, instruction-pointer driven, and collects everything the program
//! writes to standard output.

use vstd::prelude::*;
use crate::numfmt::format_print;
use crate::ops::{Op, OpKind, OpValue, AbsVal};
use crate::semantics::{RunState, init_state, halted, step, run_steps, lemma_run_snoc,
    lemma_run_stops};

verus! {

/// Runs `program` from instruction pointer 0 for at most `fuel` steps and
/// returns the text it writes to standard output, or `None` when the run has
/// not finished within `fuel` steps. The result is exactly what the
/// small-step machine of [`crate::semantics`] prescribes.
pub fn simulate_program(program: &Vec<Op>, fuel: u64) -> (r: Option<String>)
    ensures
        ({
            let fin = run_steps(program.deep_view(), init_state(), fuel as nat);
            &&& (r is Some <==> halted(program.deep_view(), fin))
            &&& (r matches Some(out) ==> out@ == fin.out)
        }),
{
    let ghost p = program.deep_view();
    let mut stack: Vec<OpValue> = Vec::new();
    let mut out = String::new();
    let mut ip: usize = 0;
    let mut used: u64 = 0;
    proof {
        assert(stack.deep_view() =~= init_state().stack);
        assert((RunState { ip: ip as int, stack: stack.deep_view(), out: out@ }) == run_steps(
            p,
            init_state(),
            used as nat,
        ));
    }
    while ip < program.len() && used < fuel
        invariant
            used <= fuel,
            p == program.deep_view(),
            (RunState { ip: ip as int, stack: stack.deep_view(), out: out@ }) == run_steps(
                p,
                init_state(),
                used as nat,
            ),
        decreases fuel - used,
    {
        let ghost s_old = run_steps(p, init_state(), used as nat);
        proof {
            lemma_run_snoc(p, init_state(), used as nat);
        }
        let op = &program[ip];
        proof {
            assert(p[ip as int] == program@[ip as int].deep_view());
        }
        let l = stack.len();
        let ghost d0 = stack.deep_view();
        match op.kind {
            OpKind::Push => {
                match &op.value {
                    Option::Some(v) => {
                        let dv = v.duplicate();
                        stack.push(dv);
                        proof {
                            assert(stack.deep_view() =~= d0.push(dv.deep_view()));
                        }
                    },
                    Option::None => {},
                }
                ip = ip + 1;
                proof {
                    assert((RunState { ip: ip as int, stack: stack.deep_view(), out: out@ })
                        == step(p, s_old));
                }
            },
            OpKind::Plus => {
                if l >= 2 {
                    match (&stack[l - 2], &stack[l - 1]) {
                        (OpValue::IntVal(b), OpValue::IntVal(a)) => {
                            let r = b.wrapping_add(*a);
                            stack.truncate(l - 2);
                            stack.push(OpValue::IntVal(r));
                            proof {
                                assert(stack.deep_view() =~= d0.take(l - 2).push(AbsVal::Int(r)));
                            }
                        },
                        _ => {},
                    }
                }
                ip = ip + 1;
                proof {
                    assert((RunState { ip: ip as int, stack: stack.deep_view(), out: out@ })
                        == step(p, s_old));
                }
            },
            OpKind::Minus => {
                if l >= 2 {
                    match (&stack[l - 2], &stack[l - 1]) {
                        (OpValue::IntVal(b), OpValue::IntVal(a)) => {
                            let r = b.wrapping_sub(*a);
                            stack.truncate(l - 2);
                            stack.push(OpValue::IntVal(r));
                            proof {
                                assert(stack.deep_view() =~= d0.take(l - 2).push(AbsVal::Int(r)));
                            }
                        },
                        _ => {},
                    }
                }
                ip = ip + 1;
                proof {
                    assert((RunState { ip: ip as int, stack: stack.deep_view(), out: out@ })
                        == step(p, s_old));
                }
            },
            OpKind::Mult => {
                if l >= 2 {
                    match (&stack[l - 2], &stack[l - 1]) {
                        (OpValue::IntVal(b), OpValue::IntVal(a)) => {
                            let r = b.wrapping_mul(*a);
                            stack.truncate(l - 2);
                            stack.push(OpValue::IntVal(r));
                            proof {
                                assert(stack.deep_view() =~= d0.take(l - 2).push(AbsVal::Int(r)));
                            }
                        },
                        _ => {},
                    }
                }
                ip = ip + 1;
                proof {
                    assert((RunState { ip: ip as int, stack: stack.deep_view(), out: out@ })
                        == step(p, s_old));
                }
            },
            OpKind::Div => {
                if l >= 2 {
                    match (&stack[l - 2], &stack[l - 1]) {
                        (OpValue::IntVal(b), OpValue::IntVal(a)) => {
                            let r = if *a == 0 {
                                0
                            } else {
                                *b / *a
                            };
                            stack.truncate(l - 2);
                            stack.push(OpValue::IntVal(r));
                            proof {
                                assert(stack.deep_view() =~= d0.take(l - 2).push(AbsVal::Int(r)));
                            }
                        },
                        _ => {},
                    }
                }
                ip = ip + 1;
                proof {
                    assert((RunState { ip: ip as int, stack: stack.deep_view(), out: out@ })
                        == step(p, s_old));
                }
            },
            OpKind::Equals => {
                if l >= 2 {
                    let r: u64 = if stack[l - 2].same_as(&stack[l - 1]) {
                        1
                    } else {
                        0
                    };
                    stack.truncate(l - 2);
                    stack.push(OpValue::IntVal(r));
                    proof {
                        assert(stack.deep_view() =~= d0.take(l - 2).push(AbsVal::Int(r)));
                    }
                }
                ip = ip + 1;
                proof {
                    assert((RunState { ip: ip as int, stack: stack.deep_view(), out: out@ })
                        == step(p, s_old));
                }
            },
            OpKind::GT => {
                if l >= 2 {
                    match (&stack[l - 2], &stack[l - 1]) {
                        (OpValue::IntVal(b), OpValue::IntVal(a)) => {
                            let r: u64 = if *b > *a {
                                1
                            } else {
                                0
                            };
                            stack.truncate(l - 2);
                            stack.push(OpValue::IntVal(r));
                            proof {
                                assert(stack.deep_view() =~= d0.take(l - 2).push(AbsVal::Int(r)));
                            }
                        },
                        _ => {},
                    }
                }
                ip = ip + 1;
                proof {
                    assert((RunState { ip: ip as int, stack: stack.deep_view(), out: out@ })
                        == step(p, s_old));
                }
            },
            OpKind::LT => {
                if l >= 2 {
                    match (&stack[l - 2], &stack[l - 1]) {
                        (OpValue::IntVal(b), OpValue::IntVal(a)) => {
                            let r: u64 = if *b < *a {
                                1
                            } else {
                                0
                            };
                            stack.truncate(l - 2);
                            stack.push(OpValue::IntVal(r));
                            proof {
                                assert(stack.deep_view() =~= d0.take(l - 2).push(AbsVal::Int(r)));
                            }
                        },
                        _ => {},
                    }
                }
                ip = ip + 1;
                proof {
                    assert((RunState { ip: ip as int, stack: stack.deep_view(), out: out@ })
                        == step(p, s_old));
                }
            },
            OpKind::Print => {
                if l >= 1 {
                    match &stack[l - 1] {
                        OpValue::IntVal(a) => {
                            let field = format_print(*a);
                            out.append(field.as_str());
                            stack.truncate(l - 1);
                            proof {
                                assert(stack.deep_view() =~= d0.take(l - 1));
                            }
                        },
                        _ => {},
                    }
                }
                ip = ip + 1;
                proof {
                    assert((RunState { ip: ip as int, stack: stack.deep_view(), out: out@ })
                        == step(p, s_old));
                }
            },
            OpKind::Write => {
                if l >= 3 {
                    match (&stack[l - 3], &stack[l - 2]) {
                        (OpValue::StringVal(s), OpValue::IntVal(fd)) => {
                            if *fd == 1 {
                                out.append(s.as_str());
                            }
                            stack.truncate(l - 3);
                            proof {
                                assert(stack.deep_view() =~= d0.take(l - 3));
                            }
                        },
                        _ => {},
                    }
                }
                ip = ip + 1;
                proof {
                    assert((RunState { ip: ip as int, stack: stack.deep_view(), out: out@ })
                        == step(p, s_old));
                }
            },
            OpKind::Dup => {
                if l >= 1 {
                    let dv = stack[l - 1].duplicate();
                    stack.push(dv);
                    proof {
                        assert(stack.deep_view() =~= d0.push(d0[l - 1]));
                    }
                }
                ip = ip + 1;
                proof {
                    assert((RunState { ip: ip as int, stack: stack.deep_view(), out: out@ })
                        == step(p, s_old));
                }
            },
            OpKind::Swap => {
                if l >= 2 {
                    let a = stack.remove(l - 1);
                    let b = stack.remove(l - 2);
                    stack.push(a);
                    stack.push(b);
                    proof {
                        assert(stack.deep_view() =~= d0.take(l - 2).push(d0[l - 1]).push(
                            d0[l - 2],
                        ));
                    }
                }
                ip = ip + 1;
                proof {
                    assert((RunState { ip: ip as int, stack: stack.deep_view(), out: out@ })
                        == step(p, s_old));
                }
            },
            OpKind::Rot => {
                if l >= 3 {
                    let a = stack.remove(l - 1);
                    let b = stack.remove(l - 2);
                    let c = stack.remove(l - 3);
                    stack.push(b);
                    stack.push(a);
                    stack.push(c);
                    proof {
                        assert(stack.deep_view() =~= d0.take(l - 3).push(d0[l - 2]).push(
                            d0[l - 1],
                        ).push(d0[l - 3]));
                    }
                }
                ip = ip + 1;
                proof {
                    assert((RunState { ip: ip as int, stack: stack.deep_view(), out: out@ })
                        == step(p, s_old));
                }
            },
            OpKind::Drop => {
                if l >= 1 {
                    stack.truncate(l - 1);
                    proof {
                        assert(stack.deep_view() =~= d0.take(l - 1));
                    }
                }
                ip = ip + 1;
                proof {
                    assert((RunState { ip: ip as int, stack: stack.deep_view(), out: out@ })
                        == step(p, s_old));
                }
            },
            OpKind::Over => {
                if l >= 2 {
                    let dv = stack[l - 2].duplicate();
                    stack.push(dv);
                    proof {
                        assert(stack.deep_view() =~= d0.push(d0[l - 2]));
                    }
                }
                ip = ip + 1;
                proof {
                    assert((RunState { ip: ip as int, stack: stack.deep_view(), out: out@ })
                        == step(p, s_old));
                }
            },
            OpKind::If => {
                let mut took_jump = false;
                let mut target: usize = 0;
                if l >= 1 {
                    match &stack[l - 1] {
                        OpValue::IntVal(c) => {
                            let cv = *c;
                            stack.truncate(l - 1);
                            proof {
                                assert(stack.deep_view() =~= d0.take(l - 1));
                            }
                            if cv != 1 {
                                match &op.value {
                                    Option::Some(OpValue::IntVal(t)) => {
                                        if *t <= usize::MAX as u64 {
                                            took_jump = true;
                                            target = *t as usize;
                                        }
                                    },
                                    _ => {},
                                }
                            }
                        },
                        _ => {},
                    }
                }
                if took_jump {
                    ip = target;
                } else {
                    ip = ip + 1;
                }
                proof {
                    assert((RunState { ip: ip as int, stack: stack.deep_view(), out: out@ })
                        == step(p, s_old));
                }
            },
            OpKind::Do => {
                let mut took_jump = false;
                let mut target: usize = 0;
                if l >= 1 {
                    match &stack[l - 1] {
                        OpValue::IntVal(c) => {
                            let cv = *c;
                            stack.truncate(l - 1);
                            proof {
                                assert(stack.deep_view() =~= d0.take(l - 1));
                            }
                            if cv != 1 {
                                match &op.value {
                                    Option::Some(OpValue::IntVal(t)) => {
                                        if *t <= usize::MAX as u64 {
                                            took_jump = true;
                                            target = *t as usize;
                                        }
                                    },
                                    _ => {},
                                }
                            }
                        },
                        _ => {},
                    }
                }
                if took_jump {
                    ip = target;
                } else {
                    ip = ip + 1;
                }
                proof {
                    assert((RunState { ip: ip as int, stack: stack.deep_view(), out: out@ })
                        == step(p, s_old));
                }
            },
            OpKind::While => {
                ip = ip + 1;
                proof {
                    assert((RunState { ip: ip as int, stack: stack.deep_view(), out: out@ })
                        == step(p, s_old));
                }
            },
            OpKind::End => {
                let mut took_jump = false;
                let mut target: usize = 0;
                match &op.value {
                    Option::Some(OpValue::IntVal(t)) => {
                        if *t <= usize::MAX as u64 && *t as usize != ip {
                            took_jump = true;
                            target = *t as usize;
                        }
                    },
                    _ => {},
                }
                if took_jump {
                    ip = target;
                } else {
                    ip = ip + 1;
                }
                proof {
                    assert((RunState { ip: ip as int, stack: stack.deep_view(), out: out@ })
                        == step(p, s_old));
                }
            },
        }
        proof {
            assert((RunState { ip: ip as int, stack: stack.deep_view(), out: out@ })
                == run_steps(p, init_state(), (used + 1) as nat));
        }
        used = used + 1;
    }
    if ip >= program.len() {
        proof {
            lemma_run_stops(p, init_state(), used as nat, fuel as nat);
        }
        Option::Some(out)
    } else {
        Option::None
    }
}

} // verus!
