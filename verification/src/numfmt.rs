//! Decimal formatting and parsing of integers, as `format!` and `str::parse`
//! do them for the widths this crate uses.
use vstd::prelude::*;

use crate::text::push_char;

verus! {

/// The ASCII digit for `k` (`k < 10`).
pub open spec fn digit(k: int) -> char {
    (k + 48) as char
}

/// The decimal digits of `n`, without leading zeros (`"0"` for zero).
pub open spec fn decimal(n: nat) -> Seq<char>
    decreases n,
{
    if n < 10 {
        seq![digit(n as int)]
    } else {
        decimal(n / 10).push(digit((n % 10) as int))
    }
}

/// `n` as `format!("{}", n)` writes it.
pub open spec fn signed_decimal(n: int) -> Seq<char> {
    if n >= 0 {
        decimal(n as nat)
    } else {
        seq!['-'] + decimal((-n) as nat)
    }
}

/// `n` as `format!("{:02}", n)` writes it: zero-padded to two characters,
/// the sign counted in the width.
pub open spec fn pad2(n: int) -> Seq<char> {
    if 0 <= n < 10 {
        seq!['0', digit(n)]
    } else {
        signed_decimal(n)
    }
}

/// `k` zero characters (none when `k <= 0`).
pub open spec fn zeros(k: int) -> Seq<char> {
    Seq::new(if k > 0 { k as nat } else { 0nat }, |i: int| '0')
}

/// `n` as `format!("{:04}", n)` writes it.
pub open spec fn pad4(n: int) -> Seq<char> {
    if n >= 0 {
        zeros(4 - decimal(n as nat).len()) + decimal(n as nat)
    } else {
        seq!['-'] + zeros(3 - decimal((-n) as nat).len()) + decimal((-n) as nat)
    }
}

/// Quotient of `a` by `b > 0`, rounded toward zero as Rust's `/` does.
pub open spec fn tdiv(a: int, b: int) -> int {
    if a >= 0 {
        a / b
    } else {
        -((-a) / b)
    }
}

/// Remainder of `a` by `b > 0` with the sign of `a`, as Rust's `%` does.
pub open spec fn trem(a: int, b: int) -> int {
    a - b * tdiv(a, b)
}

pub proof fn lemma_decimal_len(n: nat)
    ensures
        1 <= decimal(n).len(),
        n < 10 ==> decimal(n).len() == 1,
        10 <= n < 100 ==> decimal(n).len() == 2,
        100 <= n < 1000 ==> decimal(n).len() == 3,
        1000 <= n < 10000 ==> decimal(n).len() == 4,
        forall|i: int| 0 <= i < decimal(n).len() ==> is_digit_char(#[trigger] decimal(n)[i]),
    decreases n,
{
    if n >= 10 {
        lemma_decimal_len(n / 10);
    }
}

/// `c` is an ASCII digit.
pub open spec fn is_digit_char(c: char) -> bool {
    '0' <= c && c <= '9'
}

fn digit_char(k: u128) -> (c: char)
    requires
        k < 10,
    ensures
        c == digit(k as int),
{
    let b: u8 = (k as u8) + 48u8;
    b as char
}

/// Appends the decimal digits of `n`.
pub fn push_decimal(out: &mut String, n: u128)
    ensures
        final(out)@ == old(out)@ + decimal(n as nat),
    decreases n,
{
    if n < 10 {
        push_char(out, digit_char(n));
        proof {
            assert(decimal(n as nat) =~= seq![digit(n as int)]);
        }
    } else {
        push_decimal(out, n / 10);
        push_char(out, digit_char(n % 10));
        proof {
            assert(old(out)@ + decimal(n as nat) =~= old(out)@ + decimal((n / 10) as nat) + seq![
                digit((n % 10) as int),
            ]);
        }
    }
}

fn magnitude(n: i64) -> (m: u64)
    ensures
        m == if n >= 0 {
            n as int
        } else {
            -n
        },
{
    if n >= 0 {
        n as u64
    } else if n == i64::MIN {
        9_223_372_036_854_775_808u64
    } else {
        (-n) as u64
    }
}

/// Appends `n` as `format!("{}", n)` writes it.
pub fn push_signed(out: &mut String, n: i64)
    ensures
        final(out)@ == old(out)@ + signed_decimal(n as int),
{
    if n < 0 {
        push_char(out, '-');
    }
    let m = magnitude(n);
    push_decimal(out, m as u128);
    proof {
        if n < 0 {
            assert(old(out)@ + signed_decimal(n as int) =~= old(out)@.push('-') + decimal(
                m as nat,
            ));
        }
    }
}

/// Appends `n` as `format!("{:02}", n)` writes it.
pub fn push_pad2(out: &mut String, n: i64)
    ensures
        final(out)@ == old(out)@ + pad2(n as int),
{
    if 0 <= n && n < 10 {
        push_char(out, '0');
        push_char(out, digit_char(n as u128));
        proof {
            assert(old(out)@.push('0').push(digit(n as int)) =~= old(out)@ + pad2(n as int));
        }
    } else {
        push_signed(out, n);
    }
}

/// Appends `n` as `format!("{:04}", n)` writes it.
pub fn push_pad4(out: &mut String, n: i64)
    ensures
        final(out)@ == old(out)@ + pad4(n as int),
{
    let m = magnitude(n);
    let ghost start = out@;
    let width: u64 = if n < 0 {
        push_char(out, '-');
        3
    } else {
        4
    };
    let ghost after_sign = out@;
    proof {
        lemma_decimal_len(m as nat);
        if m >= 1000 {
            lemma_decimal_at_least(m as nat);
        }
    }
    let digits: u64 = if m < 10 {
        1
    } else if m < 100 {
        2
    } else if m < 1000 {
        3
    } else {
        4
    };
    let pad: u64 = if width > digits {
        width - digits
    } else {
        0
    };
    proof {
        assert(zeros(width - decimal(m as nat).len()) =~= Seq::new(pad as nat, |i: int| '0'));
    }
    let mut k: u64 = 0;
    while k < pad
        invariant
            k <= pad,
            out@ == after_sign + Seq::new(k as nat, |i: int| '0'),
        decreases pad - k,
    {
        push_char(out, '0');
        proof {
            assert(out@ =~= after_sign + Seq::new((k + 1) as nat, |i: int| '0'));
        }
        k = k + 1;
    }
    push_decimal(out, m as u128);
    proof {
        assert(out@ =~= after_sign + Seq::new(pad as nat, |i: int| '0') + decimal(m as nat));
        if n >= 0 {
            assert(out@ =~= start + pad4(n as int));
        } else {
            assert(out@ =~= start + pad4(n as int));
        }
    }
}

proof fn lemma_decimal_at_least(n: nat)
    requires
        n >= 1000,
    ensures
        decimal(n).len() >= 4,
    decreases n,
{
    lemma_decimal_len(n);
    if n >= 10000 {
        lemma_decimal_at_least(n / 10);
    }
}

/// Rounds `ms / 60000` to the nearest integer, halves away from zero.
pub open spec fn round_minutes(ms: int) -> int {
    let q = tdiv(ms, 60000);
    let r = trem(ms, 60000);
    if r >= 30000 {
        q + 1
    } else if r <= -30000 {
        q - 1
    } else {
        q
    }
}

/// `"HHhMM"`: a duration of `ms` milliseconds rounded to whole minutes.
pub open spec fn duration_text(ms: int) -> Seq<char> {
    let t = round_minutes(ms);
    pad2(tdiv(t, 60)) + seq!['h'] + pad2(trem(t, 60))
}

/// Quotient and remainder of `a` by `b > 0`, both rounded toward zero.
pub fn div_rem_toward_zero(a: i64, b: i64) -> (r: (i64, i64))
    requires
        b > 0,
    ensures
        r.0 == tdiv(a as int, b as int),
        r.1 == trem(a as int, b as int),
{
    let m = magnitude(a);
    let q = m / (b as u64);
    let rm = m % (b as u64);
    proof {
        assert(q <= m);
        assert(q * b + rm == m) by (nonlinear_arith)
            requires
                q == m / (b as u64),
                rm == m % (b as u64),
                b > 0,
        ;
    }
    proof {
        assert(b * q == q * b) by (nonlinear_arith);
    }
    if a >= 0 {
        proof {
            assert(tdiv(a as int, b as int) == q);
            assert(trem(a as int, b as int) == a - b * q);
        }
        (q as i64, rm as i64)
    } else {
        proof {
            assert(-(a as int) == m as int);
            assert((m as int) / (b as int) == q as int);
            assert(b * q == q * b) by (nonlinear_arith);
        }
        proof {
            assert(q <= 9_223_372_036_854_775_808u64);
            assert(rm < b);
        }
        if q == 9_223_372_036_854_775_808u64 {
            proof {
                assert(b == 1) by (nonlinear_arith)
                    requires
                        q * b + rm == m,
                        m <= 9_223_372_036_854_775_808u64,
                        q == 9_223_372_036_854_775_808u64,
                        b > 0,
                        rm >= 0,
                ;
            }
            assert(a == i64::MIN);
            assert(tdiv(a as int, b as int) == -q);
            assert(trem(a as int, b as int) == a + b * q);
            (i64::MIN, 0)
        } else {
            proof {
                assert(tdiv(a as int, b as int) == -q);
                assert((b as int) * (-(q as int)) == -((b as int) * (q as int))) by (nonlinear_arith);
                assert(trem(a as int, b as int) == a + b * q);
            }
            (-(q as i64), -(rm as i64))
        }
    }
}

/// Formats a duration as `"HHhMM"` (e.g. `"08h46"`), rounding to the
/// nearest minute, halves away from zero.
pub fn format_duration(ms: i64) -> (r: String)
    ensures
        r@ == duration_text(ms as int),
{
    let (q, rem) = div_rem_toward_zero(ms, 60000);
    proof {
        assert(-154_000_000_000_000 <= q <= 154_000_000_000_000);
    }
    let total: i64 = if rem >= 30000 {
        q + 1
    } else if rem <= -30000 {
        q - 1
    } else {
        q
    };
    let (hours, minutes) = div_rem_toward_zero(total, 60);
    let mut out = String::new();
    push_pad2(&mut out, hours);
    push_char(&mut out, 'h');
    push_pad2(&mut out, minutes);
    proof {
        assert(out@ =~= duration_text(ms as int));
    }
    out
}

} // verus!
