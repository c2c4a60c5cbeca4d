//! The shared intermediate representation: a program is a flat, ordered
//! sequence of operations, and an operation is a kind together with an
//! optional payload.
//!
//! Only `Push` carries a payload at parse time; `If`, `While`, `Do` and `End`
//! acquire an integer payload (a resolved jump target) during block
//! resolution; all other kinds never carry one.

use vstd::prelude::*;

verus! {

/// The closed set of operation kinds. Every consumer (resolver, interpreter,
/// generator) matches on all variants exhaustively, so adding a kind forces a
/// compile-time change in each of them.
#[derive(Clone, Copy, Debug, PartialEq, Eq, Structural)]
pub enum OpKind {
    Push,
    If,
    While,
    Do,
    End,
    Plus,
    Minus,
    Mult,
    Div,
    Print,
    Write,
    Equals,
    Dup,
    Swap,
    Rot,
    Drop,
    Over,
    GT,
    LT,
}

/// A runtime or parse-time payload: an unsigned 64-bit integer or a text.
#[derive(Debug)]
pub enum OpValue {
    IntVal(u64),
    StringVal(String),
}

/// One operation of a program.
#[derive(Debug)]
pub struct Op {
    pub kind: OpKind,
    pub value: Option<OpValue>,
}

/// The mathematical model of a payload: text is a sequence of characters.
pub enum AbsVal {
    Int(u64),
    Text(Seq<char>),
}

/// The mathematical model of one operation.
pub struct AbsOp {
    pub kind: OpKind,
    pub value: Option<AbsVal>,
}

impl View for OpValue {
    type V = AbsVal;

    open spec fn view(&self) -> AbsVal {
        match self {
            OpValue::IntVal(n) => AbsVal::Int(*n),
            OpValue::StringVal(s) => AbsVal::Text(s@),
        }
    }
}

impl DeepView for OpValue {
    type V = AbsVal;

    open spec fn deep_view(&self) -> AbsVal {
        self.view()
    }
}

impl View for Op {
    type V = AbsOp;

    open spec fn view(&self) -> AbsOp {
        AbsOp {
            kind: self.kind,
            value: match self.value {
                Option::None => Option::None,
                Option::Some(v) => Option::Some(v@),
            },
        }
    }
}

impl DeepView for Op {
    type V = AbsOp;

    open spec fn deep_view(&self) -> AbsOp {
        self.view()
    }
}

impl OpValue {
    /// An exact copy; unlike a derived clone, its contract keeps the value.
    pub fn duplicate(&self) -> (r: OpValue)
        ensures
            r@ == self@,
    {
        match self {
            OpValue::IntVal(n) => OpValue::IntVal(*n),
            OpValue::StringVal(s) => OpValue::StringVal(s.clone()),
        }
    }

    /// Structural equality of two payloads: texts compare by their characters.
    pub fn same_as(&self, other: &OpValue) -> (r: bool)
        ensures
            r == (self@ == other@),
    {
        match (self, other) {
            (OpValue::IntVal(a), OpValue::IntVal(b)) => *a == *b,
            (OpValue::StringVal(a), OpValue::StringVal(b)) => a.eq(b),
            (OpValue::IntVal(_), OpValue::StringVal(_)) => false,
            (OpValue::StringVal(_), OpValue::IntVal(_)) => false,
        }
    }
}

impl Op {
    /// An exact copy; unlike a derived clone, its contract keeps the fields.
    pub fn duplicate(&self) -> (r: Op)
        ensures
            r@ == self@,
    {
        Op {
            kind: self.kind,
            value: match &self.value {
                Option::None => Option::None,
                Option::Some(v) => Option::Some(v.duplicate()),
            },
        }
    }
}

/// Whether a kind takes part in block resolution.
pub open spec fn is_control(k: OpKind) -> bool {
    k == OpKind::If || k == OpKind::While || k == OpKind::Do || k == OpKind::End
}

/// Character-by-character string comparison, specified over the views.
pub(crate) fn str_eq(a: &str, b: &str) -> (r: bool)
    ensures
        r == (a@ == b@),
{
    let n = a.unicode_len();
    let m = b.unicode_len();
    if n != m {
        return false;
    }
    let mut k: usize = 0;
    while k < n
        invariant
            k <= n,
            n == a@.len(),
            n == b@.len(),
            forall|i: int| 0 <= i < k ==> a@[i] == b@[i],
        decreases n - k,
    {
        if a.get_char(k) != b.get_char(k) {
            return false;
        }
        k = k + 1;
    }
    proof {
        assert(a@ =~= b@);
    }
    true
}

} // verus!
