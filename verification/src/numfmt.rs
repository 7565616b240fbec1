//! Decimal rendering of integers, as `format!("{}")` and `format!("{:0w}")` do it.

use vstd::prelude::*;

verus! {

/// The ASCII digit for `n < 10`.
pub open spec fn digit_char(n: int) -> char {
    ((n + 48) as u32) as char
}

/// Decimal digits of `n`, most significant first, no leading zeros.
pub open spec fn digits(n: nat) -> Seq<char>
    decreases n,
{
    if n < 10 {
        seq![digit_char(n as int)]
    } else {
        digits(n / 10).push(digit_char((n % 10) as int))
    }
}

/// `s` left-padded with `'0'` up to width `w`.
pub open spec fn zero_pad(s: Seq<char>, w: nat) -> Seq<char> {
    if s.len() >= w {
        s
    } else {
        Seq::new((w - s.len()) as nat, |i: int| '0') + s
    }
}

/// `format!("{:0w$}", v)`: the sign comes first and counts toward the width.
pub open spec fn fmt_int_padded(v: int, w: nat) -> Seq<char> {
    if v < 0 {
        seq!['-'] + zero_pad(digits((-v) as nat), if w > 0 { (w - 1) as nat } else { 0 })
    } else {
        zero_pad(digits(v as nat), w)
    }
}

/// The ASCII digit for `n`.
pub fn digit(n: u64) -> (c: char)
    requires
        n < 10,
    ensures
        c == digit_char(n as int),
{
    let b = (n as u8) + 48;
    b as char
}

/// Decimal digits of `n`.
pub fn decimal(n: u64) -> (v: Vec<char>)
    ensures
        v@ == digits(n as nat),
    decreases n,
{
    if n < 10 {
        let mut v = Vec::new();
        v.push(digit(n));
        v
    } else {
        let mut v = decimal(n / 10);
        v.push(digit(n % 10));
        v
    }
}

/// Appends `n` in decimal, zero-padded to width `w`.
pub fn push_padded(s: &mut String, n: u64, w: usize)
    ensures
        final(s)@ == old(s)@ + zero_pad(digits(n as nat), w as nat),
{
    let ghost s0 = s@;
    let d = decimal(n);
    let mut k = d.len();
    while k < w
        invariant
            d@ == digits(n as nat),
            s@ == s0 + Seq::new((k - d.len()) as nat, |i: int| '0'),
            d.len() <= k,
            k == d.len() || k <= w,
        decreases w - k,
    {
        s.push('0');
        k = k + 1;
        assert(s@ =~= s0 + Seq::new((k - d.len()) as nat, |i: int| '0'));
    }
    let ghost pad = s@;
    crate::text::push_chars(s, &d);
    assert(s@ =~= s0 + zero_pad(digits(n as nat), w as nat));
}

/// Appends `v` in decimal, zero-padded to width `w` (sign included in the width).
pub fn push_signed_padded(s: &mut String, v: i64, w: usize)
    requires
        v > i64::MIN,
    ensures
        final(s)@ == old(s)@ + fmt_int_padded(v as int, w as nat),
{
    if v < 0 {
        s.push('-');
        let ghost s1 = s@;
        let wm = if w > 0 {
            w - 1
        } else {
            0
        };
        push_padded(s, (-v) as u64, wm);
        assert(s@ =~= old(s)@ + fmt_int_padded(v as int, w as nat));
    } else {
        push_padded(s, v as u64, w);
    }
}

/// Appends `n` in decimal.
pub fn push_decimal(s: &mut String, n: u64)
    ensures
        final(s)@ == old(s)@ + digits(n as nat),
{
    push_padded(s, n, 0);
}

/// Decimal digits of a signed integer, with a leading `-` when negative.
pub open spec fn signed_digits(n: int) -> Seq<char> {
    if n < 0 {
        seq!['-'] + digits((-n) as nat)
    } else {
        digits(n as nat)
    }
}

/// Appends `n` in decimal, signed.
pub fn push_signed(s: &mut String, n: i64)
    ensures
        final(s)@ == old(s)@ + signed_digits(n as int),
{
    if n < 0 {
        s.push('-');
        let m: u64 = (-(n + 1)) as u64 + 1;
        let ghost s1 = s@;
        push_decimal(s, m);
        assert(s@ =~= old(s)@ + (seq!['-'] + digits((-n) as nat)));
    } else {
        push_decimal(s, n as u64);
    }
}

} // verus!
