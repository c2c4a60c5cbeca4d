//! The lexer and op builder: splits source lines into whitespace-separated
//! words, strips `//` line comments, reassembles double-quote-delimited
//! string literals (which may contain spaces), and maps every word to one
//! operation. A word that is neither an unsigned integer literal, a string
//! literal nor a keyword is an error naming the offending word; so is a
//! string literal left open at the end of its line.
//!
//! Word separators are exactly the ASCII whitespace characters; any other
//! whitespace character is part of its word, which then fails as an unknown
//! word. An unsigned integer literal is an optional leading `+` sign
//! followed by decimal digits, as Rust's unsigned parse accepts it; the bare
//! word `+` has no digits and stays the addition keyword.

use vstd::prelude::*;
use crate::ops::{Op, OpKind, OpValue, AbsOp, AbsVal};

verus! {

/// Word-separating whitespace inside one line: the ASCII whitespace
/// characters.
pub open spec fn is_space(c: char) -> bool {
    c == ' ' || c == '\t' || c == '\r' || c == '\n' || c == '\x0C'
}

/// The first index at or after `i` where a `//` comment begins, or the
/// line's length when there is none.
pub open spec fn comment_at(l: Seq<char>, i: int) -> int
    decreases l.len() - i,
{
    if !(0 <= i < l.len()) {
        l.len() as int
    } else if l[i] == '/' && i + 1 < l.len() && l[i + 1] == '/' {
        i
    } else {
        comment_at(l, i + 1)
    }
}

pub proof fn lemma_comment_at_bounds(l: Seq<char>, i: int)
    ensures
        comment_at(l, i) <= l.len(),
        0 <= i <= l.len() ==> i <= comment_at(l, i),
    decreases l.len() - i,
{
    if 0 <= i < l.len() {
        lemma_comment_at_bounds(l, i + 1);
    }
}

/// The first index at or after `i` that holds a closing double quote, or the
/// line's length when there is none.
pub open spec fn quote_end(l: Seq<char>, i: int) -> int
    decreases l.len() - i,
{
    if !(0 <= i < l.len()) {
        l.len() as int
    } else if l[i] == '"' {
        i
    } else {
        quote_end(l, i + 1)
    }
}

pub proof fn lemma_quote_end_bounds(l: Seq<char>, i: int)
    ensures
        quote_end(l, i) <= l.len(),
        0 <= i <= l.len() ==> i <= quote_end(l, i),
    decreases l.len() - i,
{
    if 0 <= i < l.len() {
        lemma_quote_end_bounds(l, i + 1);
    }
}

/// The first index at or after `i` that ends a word: whitespace or a double
/// quote, or the line's length.
pub open spec fn word_end(l: Seq<char>, i: int) -> int
    decreases l.len() - i,
{
    if !(0 <= i < l.len()) {
        l.len() as int
    } else if is_space(l[i]) || l[i] == '"' {
        i
    } else {
        word_end(l, i + 1)
    }
}

pub proof fn lemma_word_end_bounds(l: Seq<char>, i: int)
    ensures
        word_end(l, i) <= l.len(),
        0 <= i <= l.len() ==> i <= word_end(l, i),
    decreases l.len() - i,
{
    if 0 <= i < l.len() {
        lemma_word_end_bounds(l, i + 1);
    }
}

/// A word made of decimal digits only.
pub open spec fn is_digits(w: Seq<char>) -> bool {
    w.len() > 0 && forall|j: int| 0 <= j < w.len() ==> '0' <= #[trigger] w[j] <= '9'
}

/// The numeric value of a digit word, most significant digit first.
pub open spec fn digits_val(w: Seq<char>) -> nat
    recommends
        is_digits(w),
    decreases w.len(),
{
    if w.len() == 0 {
        0
    } else {
        (10 * digits_val(w.drop_last()) + (if '0' <= w.last() <= '9' {
            w.last() as int - 48
        } else {
            0
        })) as nat
    }
}

/// The keyword table: the fixed word for each operation kind that has one.
pub open spec fn keyword_kind(w: Seq<char>) -> Option<OpKind> {
    if w == "+"@ {
        Option::Some(OpKind::Plus)
    } else if w == "-"@ {
        Option::Some(OpKind::Minus)
    } else if w == "*"@ {
        Option::Some(OpKind::Mult)
    } else if w == "/"@ {
        Option::Some(OpKind::Div)
    } else if w == "="@ {
        Option::Some(OpKind::Equals)
    } else if w == ">"@ {
        Option::Some(OpKind::GT)
    } else if w == "<"@ {
        Option::Some(OpKind::LT)
    } else if w == "dup"@ {
        Option::Some(OpKind::Dup)
    } else if w == "swap"@ {
        Option::Some(OpKind::Swap)
    } else if w == "rot"@ {
        Option::Some(OpKind::Rot)
    } else if w == "drop"@ {
        Option::Some(OpKind::Drop)
    } else if w == "over"@ {
        Option::Some(OpKind::Over)
    } else if w == "print"@ {
        Option::Some(OpKind::Print)
    } else if w == "write"@ {
        Option::Some(OpKind::Write)
    } else if w == "if"@ {
        Option::Some(OpKind::If)
    } else if w == "while"@ {
        Option::Some(OpKind::While)
    } else if w == "do"@ {
        Option::Some(OpKind::Do)
    } else if w == "end"@ {
        Option::Some(OpKind::End)
    } else {
        Option::None
    }
}

/// The digits of a would-be integer literal: the word with an optional
/// leading `+` sign removed.
pub open spec fn int_body(w: Seq<char>) -> Seq<char> {
    if w.len() > 0 && w[0] == '+' {
        w.drop_first()
    } else {
        w
    }
}

/// What one word denotes: an integer push (an optional leading `+` sign
/// followed by decimal digits, when the value fits 64 bits), a keyword's
/// operation, or nothing. The bare word `+` has no digits, so it falls to
/// the keyword table.
pub open spec fn word_op(w: Seq<char>) -> Option<AbsOp> {
    if is_digits(int_body(w)) {
        if digits_val(int_body(w)) <= u64::MAX as nat {
            Option::Some(
                AbsOp {
                    kind: OpKind::Push,
                    value: Option::Some(AbsVal::Int(digits_val(int_body(w)) as u64)),
                },
            )
        } else {
            Option::None
        }
    } else {
        match keyword_kind(w) {
            Option::Some(k) => Option::Some(AbsOp { kind: k, value: Option::None }),
            Option::None => Option::None,
        }
    }
}

/// Why a source text cannot be turned into a program.
#[derive(Debug)]
pub enum ParseError {
    /// A word that is no integer literal, string literal or keyword.
    UnknownWord(String),
    /// A string literal still open at the end of its line.
    UnclosedString,
}

/// The model of a parse error.
pub enum AbsParseError {
    UnknownWord(Seq<char>),
    UnclosedString,
}

impl View for ParseError {
    type V = AbsParseError;

    open spec fn view(&self) -> AbsParseError {
        match self {
            ParseError::UnknownWord(w) => AbsParseError::UnknownWord(w@),
            ParseError::UnclosedString => AbsParseError::UnclosedString,
        }
    }
}

impl DeepView for ParseError {
    type V = AbsParseError;

    open spec fn deep_view(&self) -> AbsParseError {
        self.view()
    }
}

/// The operations denoted by one comment-stripped line from position `i` on:
/// the defining description of the scan. Whitespace is skipped; a `"` opens
/// a string literal that runs to the next `"`; any other character opens a
/// word that runs to the next whitespace or `"`.
pub open spec fn ops_from(l: Seq<char>, i: int) -> Result<Seq<AbsOp>, AbsParseError>
    decreases l.len() - i,
        via ops_from_decreases
{
    if !(0 <= i < l.len()) {
        Result::Ok(Seq::empty())
    } else if is_space(l[i]) {
        ops_from(l, i + 1)
    } else if l[i] == '"' {
        let e = quote_end(l, i + 1);
        if e >= l.len() {
            Result::Err(AbsParseError::UnclosedString)
        } else {
            match ops_from(l, e + 1) {
                Result::Ok(rest) => Result::Ok(
                    seq![
                        AbsOp {
                            kind: OpKind::Push,
                            value: Option::Some(AbsVal::Text(l.subrange(i + 1, e))),
                        },
                    ] + rest,
                ),
                Result::Err(e2) => Result::Err(e2),
            }
        }
    } else {
        let e = word_end(l, i + 1);
        match word_op(l.subrange(i, e)) {
            Option::Some(op) => match ops_from(l, e) {
                Result::Ok(rest) => Result::Ok(seq![op] + rest),
                Result::Err(e2) => Result::Err(e2),
            },
            Option::None => Result::Err(AbsParseError::UnknownWord(l.subrange(i, e))),
        }
    }
}

#[via_fn]
proof fn ops_from_decreases(l: Seq<char>, i: int) {
    lemma_quote_end_bounds(l, i + 1);
    lemma_word_end_bounds(l, i + 1);
}

/// The operations denoted by one raw line: everything from the first `//`
/// on is dropped, then the line is scanned.
pub open spec fn line_ops(l: Seq<char>) -> Result<Seq<AbsOp>, AbsParseError> {
    ops_from(l.take(comment_at(l, 0)), 0)
}

/// The operations denoted by a whole source text, line by line, in source
/// order; the first faulty line's error wins.
pub open spec fn lex_lines(ls: Seq<Seq<char>>) -> Result<Seq<AbsOp>, AbsParseError>
    decreases ls.len(),
{
    if ls.len() == 0 {
        Result::Ok(Seq::empty())
    } else {
        match line_ops(ls.first()) {
            Result::Err(e) => Result::Err(e),
            Result::Ok(first) => match lex_lines(ls.drop_first()) {
                Result::Err(e) => Result::Err(e),
                Result::Ok(rest) => Result::Ok(first + rest),
            },
        }
    }
}

/// Finds where the line's `//` comment starts, or its length.
fn find_comment(s: &str) -> (cut: usize)
    ensures
        cut as int == comment_at(s@, 0),
{
    let n = s.unicode_len();
    let mut j: usize = 0;
    while j < n
        invariant
            j <= n,
            n == s@.len(),
            comment_at(s@, 0) == comment_at(s@, j as int),
        decreases n - j,
    {
        if s.get_char(j) == '/' && j + 1 < n {
            if s.get_char(j + 1) == '/' {
                return j;
            }
        }
        j = j + 1;
    }
    n
}

/// Finds the closing quote at or after `from`, scanning below `cut`; when
/// none is there the result is `cut` itself.
fn find_quote(s: &str, from: usize, cut: usize) -> (e: usize)
    requires
        from <= cut <= s@.len(),
    ensures
        e as int == quote_end(s@.take(cut as int), from as int),
        from <= e <= cut,
{
    let ghost l = s@.take(cut as int);
    let mut j: usize = from;
    while j < cut
        invariant
            from <= j <= cut <= s@.len(),
            l == s@.take(cut as int),
            quote_end(l, from as int) == quote_end(l, j as int),
        decreases cut - j,
    {
        if s.get_char(j) == '"' {
            proof {
                assert(l[j as int] == s@[j as int]);
            }
            return j;
        }
        proof {
            assert(l[j as int] == s@[j as int]);
        }
        j = j + 1;
    }
    cut
}

/// Finds the first word-ending delimiter at or after `from`, scanning below
/// `cut`; when none is there the result is `cut` itself.
fn find_word_end(s: &str, from: usize, cut: usize) -> (e: usize)
    requires
        from <= cut <= s@.len(),
    ensures
        e as int == word_end(s@.take(cut as int), from as int),
        from <= e <= cut,
{
    let ghost l = s@.take(cut as int);
    let mut j: usize = from;
    while j < cut
        invariant
            from <= j <= cut <= s@.len(),
            l == s@.take(cut as int),
            word_end(l, from as int) == word_end(l, j as int),
        decreases cut - j,
    {
        let c = s.get_char(j);
        proof {
            assert(l[j as int] == s@[j as int]);
        }
        if c == ' ' || c == '\t' || c == '\r' || c == '\n' || c == '\x0C' || c == '"' {
            return j;
        }
        j = j + 1;
    }
    cut
}

/// Whether every character of the word is a decimal digit.
fn all_digits(w: &str) -> (r: bool)
    ensures
        r == is_digits(w@),
{
    let n = w.unicode_len();
    if n == 0 {
        return false;
    }
    let mut k: usize = 0;
    while k < n
        invariant
            k <= n,
            n == w@.len(),
            forall|i: int| 0 <= i < k ==> '0' <= #[trigger] w@[i] <= '9',
        decreases n - k,
    {
        let c = w.get_char(k);
        let code = c as u32;
        if code < 48 || code > 57 {
            return false;
        }
        k = k + 1;
    }
    true
}

/// Extending a digit word can only grow its value.
proof fn lemma_digits_val_prefix(w: Seq<char>, k: int)
    requires
        0 <= k <= w.len(),
    ensures
        digits_val(w.take(k)) <= digits_val(w),
    decreases w.len() - k,
{
    if k < w.len() {
        lemma_digits_val_prefix(w, k + 1);
        assert(w.take(k + 1).drop_last() =~= w.take(k));
        assert(w.take(k + 1).last() == w[k]);
        assert(digits_val(w.take(k)) <= digits_val(w.take(k + 1)));
    } else {
        assert(w.take(k) =~= w);
    }
}

/// Reads the value of a digit word, or reports that it exceeds 64 bits.
fn parse_u64(w: &str) -> (r: Option<u64>)
    requires
        is_digits(w@),
    ensures
        match r {
            Option::Some(v) => digits_val(w@) <= u64::MAX as nat && v as nat == digits_val(w@),
            Option::None => digits_val(w@) > u64::MAX as nat,
        },
{
    let n = w.unicode_len();
    let mut acc: u64 = 0;
    let mut m: usize = 0;
    proof {
        assert(w@.take(0) =~= Seq::<char>::empty());
    }
    while m < n
        invariant
            m <= n,
            n == w@.len(),
            is_digits(w@),
            acc as nat == digits_val(w@.take(m as int)),
        decreases n - m,
    {
        let c = w.get_char(m);
        let d: u64 = (c as u32 - 48) as u64;
        proof {
            assert('0' <= w@[m as int] <= '9');
            assert(w@.take(m + 1).drop_last() =~= w@.take(m as int));
            assert(w@.take(m + 1).last() == w@[m as int]);
            assert(digits_val(w@.take(m + 1)) == 10 * digits_val(w@.take(m as int)) + (
            w@[m as int] as int - 48));
        }
        let limit = (u64::MAX - d) / 10;
        if acc > limit {
            proof {
                let q = (u64::MAX - d) as int / 10;
                assert(10 * q <= u64::MAX - d) by {
                    assert((u64::MAX - d) as int == 10 * q + (u64::MAX - d) as int % 10);
                }
                assert(10 * acc >= 10 * (q + 1));
                assert(digits_val(w@.take(m + 1)) > u64::MAX as nat);
                lemma_digits_val_prefix(w@, m + 1);
            }
            return Option::None;
        }
        proof {
            let q = (u64::MAX - d) as int / 10;
            assert(10 * q <= u64::MAX - d) by {
                assert((u64::MAX - d) as int == 10 * q + (u64::MAX - d) as int % 10);
            }
            assert(10 * acc <= 10 * q);
        }
        acc = acc * 10 + d;
        m = m + 1;
    }
    proof {
        assert(w@.take(n as int) =~= w@);
    }
    Option::Some(acc)
}

/// Looks the word up in the keyword table.
fn keyword_op(word: &str) -> (r: Option<OpKind>)
    ensures
        r == keyword_kind(word@),
{
    proof {
        reveal_strlit("+");
        reveal_strlit("-");
        reveal_strlit("*");
        reveal_strlit("/");
        reveal_strlit("=");
        reveal_strlit(">");
        reveal_strlit("<");
        reveal_strlit("dup");
        reveal_strlit("swap");
        reveal_strlit("rot");
        reveal_strlit("drop");
        reveal_strlit("over");
        reveal_strlit("print");
        reveal_strlit("write");
        reveal_strlit("if");
        reveal_strlit("while");
        reveal_strlit("do");
        reveal_strlit("end");
    }
    if crate::ops::str_eq(word, "+") {
        Option::Some(OpKind::Plus)
    } else if crate::ops::str_eq(word, "-") {
        Option::Some(OpKind::Minus)
    } else if crate::ops::str_eq(word, "*") {
        Option::Some(OpKind::Mult)
    } else if crate::ops::str_eq(word, "/") {
        Option::Some(OpKind::Div)
    } else if crate::ops::str_eq(word, "=") {
        Option::Some(OpKind::Equals)
    } else if crate::ops::str_eq(word, ">") {
        Option::Some(OpKind::GT)
    } else if crate::ops::str_eq(word, "<") {
        Option::Some(OpKind::LT)
    } else if crate::ops::str_eq(word, "dup") {
        Option::Some(OpKind::Dup)
    } else if crate::ops::str_eq(word, "swap") {
        Option::Some(OpKind::Swap)
    } else if crate::ops::str_eq(word, "rot") {
        Option::Some(OpKind::Rot)
    } else if crate::ops::str_eq(word, "drop") {
        Option::Some(OpKind::Drop)
    } else if crate::ops::str_eq(word, "over") {
        Option::Some(OpKind::Over)
    } else if crate::ops::str_eq(word, "print") {
        Option::Some(OpKind::Print)
    } else if crate::ops::str_eq(word, "write") {
        Option::Some(OpKind::Write)
    } else if crate::ops::str_eq(word, "if") {
        Option::Some(OpKind::If)
    } else if crate::ops::str_eq(word, "while") {
        Option::Some(OpKind::While)
    } else if crate::ops::str_eq(word, "do") {
        Option::Some(OpKind::Do)
    } else if crate::ops::str_eq(word, "end") {
        Option::Some(OpKind::End)
    } else {
        Option::None
    }
}

/// Scans one raw line and appends its operations to `result`; an error names
/// the word or the open string literal at fault, exactly as the line scan
/// prescribes.
fn lex_line_into(s: &str, result: &mut Vec<Op>) -> (r: Result<(), ParseError>)
    ensures
        match r {
            Result::Ok(()) => line_ops(s@) is Ok && final(result).deep_view() == old(
                result,
            ).deep_view() + line_ops(s@)->Ok_0,
            Result::Err(e) => line_ops(s@) == Result::Err::<Seq<AbsOp>, AbsParseError>(e@),
        },
{
    let cut = find_comment(s);
    proof {
        lemma_comment_at_bounds(s@, 0);
    }
    let ghost l = s@.take(cut as int);
    let ghost r0 = old(result).deep_view();
    let ghost mut done: Seq<AbsOp> = Seq::empty();
    proof {
        assert(result.deep_view() =~= r0 + done);
        assert(l.len() == cut);
    }
    let mut j: usize = 0;
    while j < cut
        invariant
            j <= cut,
            cut as int == comment_at(s@, 0),
            cut <= s@.len(),
            l == s@.take(cut as int),
            result.deep_view() == r0 + done,
            match ops_from(l, j as int) {
                Result::Ok(rest) => ops_from(l, 0) == Result::Ok::<Seq<AbsOp>, AbsParseError>(
                    done + rest,
                ),
                Result::Err(e) => ops_from(l, 0) == Result::Err::<Seq<AbsOp>, AbsParseError>(e),
            },
        decreases cut - j,
    {
        let ghost j0 = j as int;
        let ghost done0 = done;
        let c = s.get_char(j);
        proof {
            assert(l[j0] == s@[j0]);
        }
        if c == ' ' || c == '\t' || c == '\r' || c == '\n' || c == '\x0C' {
            j = j + 1;
            proof {
                assert(ops_from(l, j0) == ops_from(l, j0 + 1));
            }
        } else if c == '"' {
            let e = find_quote(s, j + 1, cut);
            proof {
                assert(quote_end(l, j0 + 1) == e as int);
            }
            if e == cut {
                proof {
                    assert(ops_from(l, j0) == Result::Err::<Seq<AbsOp>, AbsParseError>(
                        AbsParseError::UnclosedString,
                    ));
                }
                return Result::Err(ParseError::UnclosedString);
            }
            let text = s.substring_char(j + 1, e);
            let sv = text.to_owned();
            let ghost aop = AbsOp {
                kind: OpKind::Push,
                value: Option::Some(AbsVal::Text(l.subrange(j0 + 1, e as int))),
            };
            proof {
                assert(text@ =~= l.subrange(j0 + 1, e as int));
            }
            let ghost dprev = result.deep_view();
            result.push(Op { kind: OpKind::Push, value: Option::Some(OpValue::StringVal(sv)) });
            proof {
                assert(result.deep_view() =~= dprev.push(aop));
                done = done + seq![aop];
                assert(result.deep_view() =~= r0 + done);
            }
            j = e + 1;
            proof {
                match ops_from(l, e + 1) {
                    Result::Ok(rest) => {
                        assert(ops_from(l, j0) == Result::Ok::<Seq<AbsOp>, AbsParseError>(
                            seq![aop] + rest,
                        ));
                        assert(ops_from(l, 0) == Result::Ok::<Seq<AbsOp>, AbsParseError>(
                            done0 + (seq![aop] + rest),
                        ));
                        assert((done0 + (seq![aop] + rest)) =~= (done + rest));
                    },
                    Result::Err(e2) => {
                        assert(ops_from(l, j0) == Result::Err::<Seq<AbsOp>, AbsParseError>(e2));
                    },
                }
            }
        } else {
            let e = find_word_end(s, j + 1, cut);
            proof {
                assert(word_end(l, j0 + 1) == e as int);
            }
            let word = s.substring_char(j, e);
            proof {
                assert(word@ =~= l.subrange(j0, e as int));
            }
            let wlen = word.unicode_len();
            let body: &str = if wlen > 0 && word.get_char(0) == '+' {
                word.substring_char(1, wlen)
            } else {
                word
            };
            proof {
                assert(body@ =~= int_body(word@));
            }
            let built: Op;
            let ghost aop: AbsOp;
            if all_digits(body) {
                match parse_u64(body) {
                    Option::Some(v) => {
                        built = Op { kind: OpKind::Push, value: Option::Some(OpValue::IntVal(v)) };
                        proof {
                            aop = AbsOp {
                                kind: OpKind::Push,
                                value: Option::Some(AbsVal::Int(v)),
                            };
                            assert(word_op(l.subrange(j0, e as int)) == Option::Some(aop));
                        }
                    },
                    Option::None => {
                        proof {
                            assert(word_op(l.subrange(j0, e as int)) is None);
                            assert(ops_from(l, j0) == Result::Err::<Seq<AbsOp>, AbsParseError>(
                                AbsParseError::UnknownWord(l.subrange(j0, e as int)),
                            ));
                        }
                        return Result::Err(ParseError::UnknownWord(word.to_owned()));
                    },
                }
            } else {
                match keyword_op(word) {
                    Option::Some(k) => {
                        built = Op { kind: k, value: Option::None };
                        proof {
                            aop = AbsOp { kind: k, value: Option::None };
                            assert(word_op(l.subrange(j0, e as int)) == Option::Some(aop));
                        }
                    },
                    Option::None => {
                        proof {
                            assert(word_op(l.subrange(j0, e as int)) is None);
                            assert(ops_from(l, j0) == Result::Err::<Seq<AbsOp>, AbsParseError>(
                                AbsParseError::UnknownWord(l.subrange(j0, e as int)),
                            ));
                        }
                        return Result::Err(ParseError::UnknownWord(word.to_owned()));
                    },
                }
            }
            let ghost dprev = result.deep_view();
            result.push(built);
            proof {
                assert(result.deep_view() =~= dprev.push(aop));
                done = done + seq![aop];
                assert(result.deep_view() =~= r0 + done);
            }
            j = e;
            proof {
                match ops_from(l, e as int) {
                    Result::Ok(rest) => {
                        assert(ops_from(l, j0) == Result::Ok::<Seq<AbsOp>, AbsParseError>(
                            seq![aop] + rest,
                        ));
                        assert(ops_from(l, 0) == Result::Ok::<Seq<AbsOp>, AbsParseError>(
                            done0 + (seq![aop] + rest),
                        ));
                        assert((done0 + (seq![aop] + rest)) =~= (done + rest));
                    },
                    Result::Err(e2) => {
                        assert(ops_from(l, j0) == Result::Err::<Seq<AbsOp>, AbsParseError>(e2));
                    },
                }
            }
        }
    }
    proof {
        assert(ops_from(l, j as int) == Result::Ok::<Seq<AbsOp>, AbsParseError>(Seq::empty()));
        assert(done + Seq::<AbsOp>::empty() =~= done);
        assert(line_ops(s@) == Result::Ok::<Seq<AbsOp>, AbsParseError>(done));
    }
    Result::Ok(())
}

/// Maps a source text, given as its lines, to the flat program it denotes:
/// every word in source order becomes exactly one operation. The result, or
/// the error, is exactly what the line-by-line scan prescribes.
pub fn parse_word_as_op(lines: &Vec<String>) -> (r: Result<Vec<Op>, ParseError>)
    ensures
        match r {
            Result::Ok(ops) => lex_lines(lines.deep_view()) == Result::Ok::<
                Seq<AbsOp>,
                AbsParseError,
            >(ops.deep_view()),
            Result::Err(e) => lex_lines(lines.deep_view()) == Result::Err::<
                Seq<AbsOp>,
                AbsParseError,
            >(e@),
        },
{
    let ghost ls = lines.deep_view();
    let mut result: Vec<Op> = Vec::new();
    let mut li: usize = 0;
    proof {
        assert(result.deep_view() =~= Seq::<AbsOp>::empty());
        assert(ls.skip(0) =~= ls);
    }
    while li < lines.len()
        invariant
            li <= lines@.len(),
            ls == lines.deep_view(),
            match lex_lines(ls.skip(li as int)) {
                Result::Ok(rest) => lex_lines(ls) == Result::Ok::<Seq<AbsOp>, AbsParseError>(
                    result.deep_view() + rest,
                ),
                Result::Err(e) => lex_lines(ls) == Result::Err::<Seq<AbsOp>, AbsParseError>(e),
            },
        decreases lines@.len() - li,
    {
        let ghost rd = result.deep_view();
        let line = &lines[li];
        proof {
            assert(ls[li as int] == line@);
            assert(ls.skip(li as int).first() == ls[li as int]);
            assert(ls.skip(li as int).drop_first() =~= ls.skip(li as int + 1));
        }
        match lex_line_into(line.as_str(), &mut result) {
            Result::Ok(()) => {
                proof {
                    let ops = line_ops(line@)->Ok_0;
                    match lex_lines(ls.skip(li as int + 1)) {
                        Result::Ok(rest) => {
                            assert(lex_lines(ls.skip(li as int)) == Result::Ok::<
                                Seq<AbsOp>,
                                AbsParseError,
                            >(ops + rest));
                            assert((rd + (ops + rest)) =~= (result.deep_view() + rest));
                        },
                        Result::Err(_) => {},
                    }
                }
                li = li + 1;
            },
            Result::Err(e) => {
                proof {
                    assert(lex_lines(ls.skip(li as int)) == Result::Err::<
                        Seq<AbsOp>,
                        AbsParseError,
                    >(e@));
                }
                return Result::Err(e);
            },
        }
    }
    proof {
        assert(ls.skip(li as int) =~= Seq::<Seq<char>>::empty());
        assert(result.deep_view() + Seq::<AbsOp>::empty() =~= result.deep_view());
    }
    Result::Ok(result)
}

} // verus!
