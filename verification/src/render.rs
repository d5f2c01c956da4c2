//! Text rendering helpers: decimal rendering of integers and rational
//! scalars, and fixed-width padding for the tabular system display.

use vstd::prelude::*;
use vstd::string::*;

use crate::rat::{Frac, Rat};

verus! {

/// Relies on std's `String::push`, which appends exactly the given character.
#[verifier::external_body]
pub fn push_char(s: &mut String, c: char)
    ensures
        final(s)@ == old(s)@.push(c),
{
    s.push(c)
}

pub open spec fn dec_digit_char(d: int) -> char {
    if d == 0 {
        '0'
    } else if d == 1 {
        '1'
    } else if d == 2 {
        '2'
    } else if d == 3 {
        '3'
    } else if d == 4 {
        '4'
    } else if d == 5 {
        '5'
    } else if d == 6 {
        '6'
    } else if d == 7 {
        '7'
    } else if d == 8 {
        '8'
    } else {
        '9'
    }
}

/// Decimal digits of a natural number, most significant first.
pub open spec fn dec_of_nat(n: nat) -> Seq<char>
    decreases n,
{
    if n < 10 {
        seq![dec_digit_char(n as int)]
    } else {
        dec_of_nat(n / 10) + seq![dec_digit_char((n % 10) as int)]
    }
}

/// Decimal rendering of an integer, with a leading minus when negative.
pub open spec fn dec_of_int(k: int) -> Seq<char> {
    if k < 0 {
        seq!['-'] + dec_of_nat((-k) as nat)
    } else {
        dec_of_nat(k as nat)
    }
}

fn digit_char(d: u64) -> (c: char)
    requires
        d < 10,
    ensures
        c == dec_digit_char(d as int),
{
    if d == 0 {
        '0'
    } else if d == 1 {
        '1'
    } else if d == 2 {
        '2'
    } else if d == 3 {
        '3'
    } else if d == 4 {
        '4'
    } else if d == 5 {
        '5'
    } else if d == 6 {
        '6'
    } else if d == 7 {
        '7'
    } else if d == 8 {
        '8'
    } else {
        '9'
    }
}

pub fn dec_u64(n: u64) -> (s: String)
    ensures
        s@ == dec_of_nat(n as nat),
    decreases n,
{
    if n < 10 {
        let mut s = String::new();
        push_char(&mut s, digit_char(n));
        proof {
            assert(s@ =~= dec_of_nat(n as nat));
        }
        s
    } else {
        let mut s = dec_u64(n / 10);
        push_char(&mut s, digit_char(n % 10));
        proof {
            assert(s@ =~= dec_of_nat(n as nat));
        }
        s
    }
}

pub fn dec_i64(n: i64) -> (s: String)
    ensures
        s@ == dec_of_int(n as int),
{
    if n >= 0 {
        dec_u64(n as u64)
    } else {
        let mut s = String::new();
        push_char(&mut s, '-');
        let mag: u64 = if n == i64::MIN {
            9223372036854775808
        } else {
            (-n) as u64
        };
        proof {
            assert(mag as nat == (-(n as int)) as nat);
        }
        let t = dec_u64(mag);
        s.append(t.as_str());
        proof {
            assert(s@ =~= dec_of_int(n as int));
        }
        s
    }
}

/// Text of a rational scalar: the numerator alone when the denominator is 1,
/// otherwise `numerator/denominator`.
pub open spec fn rat_text(r: Rat) -> Seq<char> {
    if r.den == 1 {
        dec_of_int(r.num as int)
    } else {
        dec_of_int(r.num as int) + seq!['/'] + dec_of_int(r.den as int)
    }
}

pub fn rat_to_string(r: &Rat) -> (s: String)
    ensures
        s@ == rat_text(*r),
{
    if r.den == 1 {
        dec_i64(r.num)
    } else {
        let mut s = dec_i64(r.num);
        push_char(&mut s, '/');
        let t = dec_i64(r.den);
        s.append(t.as_str());
        proof {
            assert(s@ =~= rat_text(*r));
        }
        s
    }
}

pub open spec fn spaces(k: int) -> Seq<char> {
    Seq::new(if k < 0 {
        0
    } else {
        k
    } as nat, |i: int| ' ')
}

/// A piece left-justified in a field of width 10, as `{:<10}` lays it out.
pub open spec fn pad_text(s: Seq<char>) -> Seq<char> {
    s + spaces(10 - s.len())
}

/// Appends `piece` to `out`, space-padded on the right to width 10.
pub fn pad_push(out: &mut String, piece: &str)
    ensures
        final(out)@ == old(out)@ + pad_text(piece@),
{
    let ghost base = out@;
    out.append(piece);
    let n = piece.unicode_len();
    let mut i = n;
    proof {
        assert(out@ =~= base + piece@ + spaces(i as int - n as int));
    }
    while i < 10
        invariant
            n <= i,
            n >= 10 ==> i == n,
            n < 10 ==> i <= 10,
            out@ == base + piece@ + spaces(i as int - n as int),
        decreases 10 - i,
    {
        push_char(out, ' ');
        i = i + 1;
        proof {
            assert(out@ =~= base + piece@ + spaces(i as int - n as int));
        }
    }
    proof {
        assert(out@ =~= base + pad_text(piece@));
    }
}

/// The integer nearest to `f * 1000`, halves rounded away from zero: the
/// 3-decimal display rounding of the tabular output.
pub open spec fn round_milli(f: Frac) -> int {
    if f.n >= 0 {
        (2000 * f.n + f.d) / (2 * f.d)
    } else {
        -((2000 * (-f.n) + f.d) / (2 * f.d))
    }
}

/// The decimal text of `m / 1000` for a rounded-to-milli integer `m`: the
/// whole part, then up to three fractional digits with trailing zeros
/// dropped, and no point at all for a whole value.
pub open spec fn milli_text(m: int) -> Seq<char> {
    let a = if m < 0 {
        -m
    } else {
        m
    };
    let sign = if m < 0 {
        seq!['-']
    } else {
        Seq::<char>::empty()
    };
    let whole = dec_of_nat((a / 1000) as nat);
    let fr = a % 1000;
    if fr == 0 {
        sign + whole
    } else if fr % 10 != 0 {
        sign + whole + seq!['.', dec_digit_char(fr / 100), dec_digit_char((fr / 10) % 10), dec_digit_char(fr % 10)]
    } else if fr % 100 != 0 {
        sign + whole + seq!['.', dec_digit_char(fr / 100), dec_digit_char((fr / 10) % 10)]
    } else {
        sign + whole + seq!['.', dec_digit_char(fr / 100)]
    }
}

/// The 3-decimal display text of a rational: `(x * 1000).round() / 1000`,
/// rendered as decimal text (display rounding only; values are exact).
pub open spec fn dec3_text(f: Frac) -> Seq<char> {
    milli_text(round_milli(f))
}

pub fn rat_round3_to_string(r: &Rat) -> (s: String)
    requires
        r.wf(),
    ensures
        s@ == dec3_text(r@),
{
    let neg = r.num < 0;
    let a: u128 = if r.num < 0 {
        (-(r.num as i128)) as u128
    } else {
        r.num as u128
    };
    let d: u128 = r.den as u128;
    let m: u128 = (2000 * a + d) / (2 * d);
    proof {
        assert(m as int == (2000 * (a as int) + d as int) / (2 * (d as int)));
        assert(m as int == (if r@.n >= 0 {
            round_milli(r@)
        } else {
            -round_milli(r@)
        }));
        vstd::arithmetic::div_mod::lemma_fundamental_div_mod(m as int, 1000int);
    }
    let whole: u64 = (m / 1000) as u64;
    let fr: u64 = (m % 1000) as u64;
    let mut s = String::new();
    if neg && m > 0 {
        push_char(&mut s, '-');
    }
    let w = dec_u64(whole);
    s.append(w.as_str());
    if fr != 0 {
        push_char(&mut s, '.');
        push_char(&mut s, digit_char(fr / 100));
        if fr % 10 != 0 {
            push_char(&mut s, digit_char((fr / 10) % 10));
            push_char(&mut s, digit_char(fr % 10));
        } else if fr % 100 != 0 {
            push_char(&mut s, digit_char((fr / 10) % 10));
        }
    }
    proof {
        assert(s@ =~= dec3_text(r@));
    }
    s
}

} // verus!