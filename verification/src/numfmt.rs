//! Decimal rendering of unsigned 64-bit values, and the fixed-width field
//! that `print` writes: the digits right-aligned in a 20-character field,
//! left-padded with NUL characters, followed by a newline.

use vstd::prelude::*;

verus! {

/// The character for one decimal digit.
pub open spec fn digit_char(d: nat) -> char
    recommends
        d < 10,
{
    ((48 + d) as u8) as char
}

/// The decimal representation of a natural number, most significant digit
/// first, with no sign and no leading zeros (zero itself is "0").
pub open spec fn dec_rep(n: nat) -> Seq<char>
    decreases n,
{
    if n < 10 {
        seq![digit_char(n)]
    } else {
        dec_rep(n / 10).push(digit_char(n % 10))
    }
}

pub open spec fn pow10(k: nat) -> nat
    decreases k,
{
    if k == 0 {
        1
    } else {
        10 * pow10((k - 1) as nat)
    }
}

pub proof fn lemma_dec_rep_len_le(n: nat, k: nat)
    requires
        1 <= k,
        n < pow10(k),
    ensures
        1 <= dec_rep(n).len() <= k,
    decreases k,
{
    if n < 10 {
    } else {
        assert(n / 10 < pow10((k - 1) as nat)) by {
            assert(pow10(k) == 10 * pow10((k - 1) as nat));
            assert(n == 10 * (n / 10) + n % 10);
        }
        lemma_dec_rep_len_le(n / 10, (k - 1) as nat);
    }
}

/// Every unsigned 64-bit value has at most 20 decimal digits.
pub proof fn lemma_dec_rep_u64_len(n: u64)
    ensures
        1 <= dec_rep(n as nat).len() <= 20,
{
    assert(pow10(20) == 100000000000000000000) by {
        reveal_with_fuel(pow10, 21);
    }
    lemma_dec_rep_len_le(n as nat, 20);
}

/// A run of NUL characters.
pub open spec fn nul_pad(k: nat) -> Seq<char>
    decreases k,
{
    if k == 0 {
        Seq::empty()
    } else {
        nul_pad((k - 1) as nat).push('\0')
    }
}

pub proof fn lemma_nul_pad_len(k: nat)
    ensures
        nul_pad(k).len() == k,
    decreases k,
{
    if k > 0 {
        lemma_nul_pad_len((k - 1) as nat);
    }
}

/// Every character of a NUL run is NUL.
pub proof fn lemma_nul_pad_chars(k: nat)
    ensures
        forall|i: int| 0 <= i < nul_pad(k).len() ==> #[trigger] nul_pad(k)[i] == '\0',
    decreases k,
{
    lemma_nul_pad_len(k);
    if k > 0 {
        lemma_nul_pad_chars((k - 1) as nat);
        lemma_nul_pad_len((k - 1) as nat);
        assert(forall|i: int|
            0 <= i < k - 1 ==> #[trigger] nul_pad(k)[i] == nul_pad((k - 1) as nat)[i]);
    }
}

/// What one `print` of `n` contributes to the output: the decimal digits
/// right-aligned in a 20-character NUL-padded field, then a newline.
pub open spec fn print_field(n: u64) -> Seq<char> {
    let digits = dec_rep(n as nat);
    let pad = if digits.len() <= 20 {
        (20 - digits.len()) as nat
    } else {
        0
    };
    nul_pad(pad) + digits + seq!['\n']
}

/// The one-character string for a decimal digit.
fn digit_str(d: u64) -> (r: &'static str)
    requires
        d < 10,
    ensures
        r@ =~= seq![digit_char(d as nat)],
{
    let lit = "0123456789";
    proof {
        reveal_strlit("0123456789");
        assert(lit@[d as int] == digit_char(d as nat));
    }
    lit.substring_ascii(d as usize, d as usize + 1)
}

/// Renders `n` in decimal, matching `dec_rep`.
pub fn u64_to_dec(n: u64) -> (s: String)
    ensures
        s@ == dec_rep(n as nat),
{
    let mut m: u64 = n;
    let mut s = String::new();
    proof {
        assert(dec_rep(n as nat) =~= dec_rep(n as nat) + s@);
    }
    while m >= 10
        invariant
            dec_rep(n as nat) == dec_rep(m as nat) + s@,
        decreases m,
    {
        let d = m % 10;
        let ghost m_old = m as nat;
        let mut t = digit_str(d).to_owned();
        t.append(s.as_str());
        proof {
            assert(dec_rep(m_old) == dec_rep(m_old / 10).push(digit_char(m_old % 10)));
            assert(dec_rep(m_old / 10) + t@ =~= dec_rep(m_old) + s@);
        }
        s = t;
        m = m / 10;
    }
    let mut t = digit_str(m).to_owned();
    t.append(s.as_str());
    proof {
        assert(dec_rep(m as nat) =~= seq![digit_char(m as nat)]);
        assert(t@ =~= dec_rep(m as nat) + s@);
    }
    t
}

/// Builds the exact text that one `print` of `n` writes.
pub fn format_print(n: u64) -> (s: String)
    ensures
        s@ == print_field(n),
{
    let dec = u64_to_dec(n);
    proof {
        lemma_dec_rep_u64_len(n);
    }
    let len = dec.as_str().unicode_len();
    let pad: usize = 20 - len;
    let mut s = String::new();
    let mut i: usize = 0;
    while i < pad
        invariant
            i <= pad,
            s@ == nul_pad(i as nat),
        decreases pad - i,
    {
        s.append("\u{0}");
        proof {
            reveal_strlit("\u{0}");
            assert(s@ =~= nul_pad((i + 1) as nat));
        }
        i = i + 1;
    }
    s.append(dec.as_str());
    s.append("\n");
    proof {
        reveal_strlit("\n");
        assert(s@ =~= print_field(n));
    }
    s
}

} // verus!
