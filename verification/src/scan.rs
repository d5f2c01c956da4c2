//! Character-level scanning utilities for the equation normalizer: splitting
//! on sign characters or `=`, space removal, trimming, substring search, and
//! parsing of bare decimal literals into exact rationals.
//!
//! Each executable function mirrors a spec function over `Seq<char>`, so the
//! normalizer's contract can be stated purely over views of the input text.

use vstd::prelude::*;
use vstd::string::*;

use crate::rat::{Frac, Rat};
use crate::render::push_char;

verus! {

pub open spec fn is_sign_char(c: char) -> bool {
    c == '+' || c == '-'
}

pub open spec fn is_eq_char(c: char) -> bool {
    c == '='
}

pub open spec fn sign_pred() -> spec_fn(char) -> bool {
    |c: char| is_sign_char(c)
}

pub open spec fn eq_pred() -> spec_fn(char) -> bool {
    |c: char| is_eq_char(c)
}

pub open spec fn is_digit_char(c: char) -> bool {
    ||| c == '0'
    ||| c == '1'
    ||| c == '2'
    ||| c == '3'
    ||| c == '4'
    ||| c == '5'
    ||| c == '6'
    ||| c == '7'
    ||| c == '8'
    ||| c == '9'
}

pub open spec fn digit_val(c: char) -> int {
    if c == '0' {
        0
    } else if c == '1' {
        1
    } else if c == '2' {
        2
    } else if c == '3' {
        3
    } else if c == '4' {
        4
    } else if c == '5' {
        5
    } else if c == '6' {
        6
    } else if c == '7' {
        7
    } else if c == '8' {
        8
    } else {
        9
    }
}

pub open spec fn is_space_char(c: char) -> bool {
    c == ' ' || c == '\t' || c == '\n' || c == '\r'
}

/// Splitting a character sequence at every separator; separators are
/// consumed, and `n` separators always yield `n + 1` (possibly empty) parts.
pub open spec fn split_by(s: Seq<char>, f: spec_fn(char) -> bool) -> Seq<Seq<char>>
    decreases s.len(),
{
    if s.len() == 0 {
        seq![Seq::<char>::empty()]
    } else {
        let prev = split_by(s.drop_last(), f);
        if f(s.last()) {
            prev + seq![Seq::<char>::empty()]
        } else {
            prev.update(prev.len() - 1, prev.last().push(s.last()))
        }
    }
}

pub proof fn lemma_split_by_len(s: Seq<char>, f: spec_fn(char) -> bool)
    ensures
        split_by(s, f).len() >= 1,
    decreases s.len(),
{
    if s.len() > 0 {
        lemma_split_by_len(s.drop_last(), f);
    }
}

/// A sequence containing a separator splits into at least two parts.
pub proof fn lemma_split_by_sep(s: Seq<char>, f: spec_fn(char) -> bool)
    requires
        exists|i: int| 0 <= i < s.len() && f(s[i]),
    ensures
        split_by(s, f).len() >= 2,
    decreases s.len(),
{
    lemma_split_by_len(s.drop_last(), f);
    let i = choose|i: int| 0 <= i < s.len() && f(s[i]);
    if !f(s.last()) {
        assert(i < s.len() - 1);
        assert(s.drop_last()[i] == s[i]);
        lemma_split_by_sep(s.drop_last(), f);
    }
}

/// The expression with every space character removed, as `replace(" ", "")`
/// leaves it (other whitespace is kept, faithfully to the scanner).
pub open spec fn strip_spaces(s: Seq<char>) -> Seq<char>
    decreases s.len(),
{
    if s.len() == 0 {
        Seq::empty()
    } else if s.last() == ' ' {
        strip_spaces(s.drop_last())
    } else {
        strip_spaces(s.drop_last()).push(s.last())
    }
}

pub open spec fn trim_front(s: Seq<char>) -> Seq<char>
    decreases s.len(),
{
    if s.len() > 0 && is_space_char(s[0]) {
        trim_front(s.drop_first())
    } else {
        s
    }
}

pub open spec fn trim_back(s: Seq<char>) -> Seq<char>
    decreases s.len(),
{
    if s.len() > 0 && is_space_char(s.last()) {
        trim_back(s.drop_last())
    } else {
        s
    }
}

/// The sequence with leading and trailing whitespace removed.
pub open spec fn trim_text(s: Seq<char>) -> Seq<char> {
    trim_back(trim_front(s))
}

pub open spec fn contains_char(s: Seq<char>, c: char) -> bool {
    exists|i: int| 0 <= i < s.len() && s[i] == c
}

pub open spec fn contains_seq(hay: Seq<char>, needle: Seq<char>) -> bool {
    exists|i: int|
        0 <= i && i + needle.len() <= hay.len() && #[trigger] hay.subrange(i, i + needle.len())
            == needle
}

/// State of the bare-decimal scanner after reading a run of characters:
/// digit count, whether a decimal point was seen, the accumulated numerator
/// and denominator, and whether the run is still a valid literal.
pub ghost struct DecState {
    pub digits: nat,
    pub dot: bool,
    pub n: int,
    pub d: int,
    pub ok: bool,
}

pub open spec fn dec_scan(s: Seq<char>) -> DecState
    decreases s.len(),
{
    if s.len() == 0 {
        DecState { digits: 0, dot: false, n: 0, d: 1, ok: true }
    } else {
        let st = dec_scan(s.drop_last());
        let c = s.last();
        if is_digit_char(c) {
            DecState {
                digits: st.digits + 1,
                dot: st.dot,
                n: st.n * 10 + digit_val(c),
                d: if st.dot {
                    st.d * 10
                } else {
                    st.d
                },
                ok: st.ok,
            }
        } else if c == '.' {
            if st.dot {
                DecState { ok: false, ..st }
            } else {
                DecState { dot: true, ..st }
            }
        } else {
            DecState { ok: false, ..st }
        }
    }
}

pub open spec fn pow10(k: nat) -> int
    decreases k,
{
    if k == 0 {
        1
    } else {
        10 * pow10((k - 1) as nat)
    }
}

pub proof fn lemma_pow10_pos(k: nat)
    ensures
        pow10(k) >= 1,
    decreases k,
{
    if k > 0 {
        lemma_pow10_pos((k - 1) as nat);
    }
}

pub proof fn lemma_pow10_mono(a: nat, b: nat)
    requires
        a <= b,
    ensures
        pow10(a) <= pow10(b),
    decreases b,
{
    if a < b {
        lemma_pow10_mono(a, (b - 1) as nat);
        lemma_pow10_pos((b - 1) as nat);
    }
}

pub proof fn lemma_pow10_18()
    ensures
        pow10(18) == 1000000000000000000,
{
    assert(pow10(0) == 1);
    assert(pow10(1) == 10);
    assert(pow10(2) == 100);
    assert(pow10(3) == 1000);
    assert(pow10(4) == 10000);
    assert(pow10(5) == 100000);
    assert(pow10(6) == 1000000);
    assert(pow10(7) == 10000000);
    assert(pow10(8) == 100000000);
    assert(pow10(9) == 1000000000);
    assert(pow10(10) == 10000000000);
    assert(pow10(11) == 100000000000);
    assert(pow10(12) == 1000000000000);
    assert(pow10(13) == 10000000000000);
    assert(pow10(14) == 100000000000000);
    assert(pow10(15) == 1000000000000000);
    assert(pow10(16) == 10000000000000000);
    assert(pow10(17) == 100000000000000000);
    assert(pow10(18) == 1000000000000000000);
}

pub proof fn lemma_dec_scan_bounds(s: Seq<char>)
    ensures
        0 <= dec_scan(s).n < pow10(dec_scan(s).digits),
        1 <= dec_scan(s).d <= pow10(dec_scan(s).digits),
    decreases s.len(),
{
    if s.len() > 0 {
        lemma_dec_scan_bounds(s.drop_last());
        let st = dec_scan(s.drop_last());
        lemma_pow10_pos(st.digits);
        if is_digit_char(s.last()) {
            assert(pow10(st.digits + 1) == 10 * pow10(st.digits));
        }
    }
}

/// The digit count never shrinks, and a spoiled run stays spoiled, as the
/// scan reads further characters.
pub proof fn lemma_dec_scan_prefix(s: Seq<char>, t: Seq<char>)
    ensures
        dec_scan(s + t).digits >= dec_scan(s).digits,
        !dec_scan(s).ok ==> !dec_scan(s + t).ok,
    decreases t.len(),
{
    if t.len() == 0 {
        assert(s + t =~= s);
    } else {
        lemma_dec_scan_prefix(s, t.drop_last());
        assert((s + t).drop_last() =~= s + t.drop_last());
        assert((s + t).len() > 0);
    }
}

/// A bare decimal literal: an optional sign, then digits with at most one
/// decimal point, at least 1 and at most 18 digits in all. The value is the
/// exact rational the literal denotes.
pub open spec fn spec_parse_dec(s: Seq<char>) -> Option<Frac> {
    let neg = s.len() > 0 && s[0] == '-';
    let body = if s.len() > 0 && (s[0] == '-' || s[0] == '+') {
        s.drop_first()
    } else {
        s
    };
    let st = dec_scan(body);
    if st.ok && 1 <= st.digits <= 18 {
        Some(
            Frac {
                n: if neg {
                    -st.n
                } else {
                    st.n
                },
                d: st.d,
            },
        )
    } else {
        None
    }
}

/// A parsed literal always fits the bounded representation.
pub proof fn lemma_parse_dec_fits(s: Seq<char>)
    ensures
        match spec_parse_dec(s) {
            Some(f) => crate::rat::frac_fits(f),
            None => true,
        },
{
    let body = if s.len() > 0 && (s[0] == '-' || s[0] == '+') {
        s.drop_first()
    } else {
        s
    };
    let st = dec_scan(body);
    lemma_dec_scan_bounds(body);
    if st.ok && 1 <= st.digits <= 18 {
        lemma_pow10_mono(st.digits, 18);
        lemma_pow10_18();
    }
}

fn digit_value(c: char) -> (r: Option<u64>)
    ensures
        r is Some <==> is_digit_char(c),
        r matches Some(v) ==> v < 10 && v as int == digit_val(c),
{
    if c == '0' {
        Some(0)
    } else if c == '1' {
        Some(1)
    } else if c == '2' {
        Some(2)
    } else if c == '3' {
        Some(3)
    } else if c == '4' {
        Some(4)
    } else if c == '5' {
        Some(5)
    } else if c == '6' {
        Some(6)
    } else if c == '7' {
        Some(7)
    } else if c == '8' {
        Some(8)
    } else if c == '9' {
        Some(9)
    } else {
        None
    }
}

/// Parses a bare decimal literal to its exact rational value; `None` exactly
/// when the text is not such a literal. The 18-digit cap keeps every literal
/// representable exactly in the bounded rational form; longer literals (and
/// exponent forms) are not absorbed, where an f64 reading would round them.
#[verifier::loop_isolation(false)]
pub fn parse_decimal(s: &str) -> (r: Option<Rat>)
    ensures
        r is Some <==> spec_parse_dec(s@) is Some,
        r matches Some(v) ==> v.wf() && Some(v@) == spec_parse_dec(s@),
{
    let n0 = s.unicode_len();
    let mut start: usize = 0;
    let mut neg = false;
    if n0 > 0 {
        let c0 = s.get_char(0);
        if c0 == '-' {
            neg = true;
            start = 1;
        } else if c0 == '+' {
            start = 1;
        }
    }
    let ghost body = s@.subrange(start as int, n0 as int);
    proof {
        if start == 1 {
            assert(body =~= s@.drop_first());
        } else {
            assert(body =~= s@);
        }
    }
    let mut i = start;
    let mut digits: u64 = 0;
    let mut dot = false;
    let mut num: i64 = 0;
    let mut den: i64 = 1;
    while i < n0
        invariant
            start <= i <= n0,
            n0 == s@.len(),
            body == s@.subrange(start as int, n0 as int),
            dec_scan(s@.subrange(start as int, i as int)) == (DecState {
                digits: digits as nat,
                dot: dot,
                n: num as int,
                d: den as int,
                ok: true,
            }),
            digits <= 18,
        decreases n0 - i,
    {
        let ghost pre = s@.subrange(start as int, i as int);
        let ghost pre1 = s@.subrange(start as int, (i + 1) as int);
        proof {
            assert(pre1.drop_last() =~= pre);
            assert(pre1.last() == s@[i as int]);
            lemma_dec_scan_bounds(pre);
            lemma_pow10_mono(digits as nat, 18);
            lemma_pow10_18();
        }
        let c = s.get_char(i);
        match digit_value(c) {
            Some(v) => {
                if digits == 18 {
                    proof {
                        assert(dec_scan(pre1).digits == 19);
                        assert(body =~= pre1 + s@.subrange((i + 1) as int, n0 as int));
                        lemma_dec_scan_prefix(pre1, s@.subrange((i + 1) as int, n0 as int));
                        assert(dec_scan(body).digits >= 19);
                        assert(spec_parse_dec(s@) is None);
                    }
                    return None;
                }
                proof {
                    if digits < 18 {
                        lemma_pow10_mono(digits as nat, 17);
                    }
                }
                num = num * 10 + (v as i64);
                if dot {
                    den = den * 10;
                }
                digits = digits + 1;
            },
            None => {
                if c == '.' {
                    if dot {
                        proof {
                            assert(!dec_scan(pre1).ok);
                            assert(body =~= pre1 + s@.subrange((i + 1) as int, n0 as int));
                            lemma_dec_scan_prefix(pre1, s@.subrange((i + 1) as int, n0 as int));
                            assert(!dec_scan(body).ok);
                            assert(spec_parse_dec(s@) is None);
                        }
                        return None;
                    }
                    dot = true;
                } else {
                    proof {
                        assert(!dec_scan(pre1).ok);
                        assert(body =~= pre1 + s@.subrange((i + 1) as int, n0 as int));
                        lemma_dec_scan_prefix(pre1, s@.subrange((i + 1) as int, n0 as int));
                        assert(!dec_scan(body).ok);
                        assert(spec_parse_dec(s@) is None);
                    }
                    return None;
                }
            },
        }
        i = i + 1;
    }
    proof {
        assert(s@.subrange(start as int, i as int) =~= body);
    }
    if digits == 0 {
        return None;
    }
    proof {
        lemma_dec_scan_bounds(body);
        lemma_pow10_mono(digits as nat, 18);
        lemma_pow10_18();
        lemma_parse_dec_fits(s@);
    }
    let v = if neg {
        -num
    } else {
        num
    };
    Some(Rat { num: v, den: den })
}

/// Removes every space character, as the scanner's `replace(" ", "")` does.
pub fn strip_spaces_str(s: &str) -> (r: String)
    ensures
        r@ == strip_spaces(s@),
{
    let n = s.unicode_len();
    let mut r = String::new();
    let mut i: usize = 0;
    while i < n
        invariant
            i <= n,
            n == s@.len(),
            r@ == strip_spaces(s@.subrange(0, i as int)),
        decreases n - i,
    {
        let c = s.get_char(i);
        proof {
            assert(s@.subrange(0, (i + 1) as int).drop_last() =~= s@.subrange(0, i as int));
        }
        if c != ' ' {
            push_char(&mut r, c);
        }
        i = i + 1;
    }
    proof {
        assert(s@.subrange(0, n as int) =~= s@);
    }
    r
}

fn is_ws(c: char) -> (r: bool)
    ensures
        r == is_space_char(c),
{
    c == ' ' || c == '\t' || c == '\n' || c == '\r'
}

/// Removes leading and trailing whitespace.
pub fn trim_str(s: &str) -> (r: String)
    ensures
        r@ == trim_text(s@),
{
    let n = s.unicode_len();
    proof {
        assert(s@.subrange(0, n as int) =~= s@);
    }
    let mut lo: usize = 0;
    while lo < n && is_ws(s.get_char(lo))
        invariant
            lo <= n,
            n == s@.len(),
            trim_front(s@) == trim_front(s@.subrange(lo as int, n as int)),
        decreases n - lo,
    {
        proof {
            assert(s@.subrange(lo as int, n as int).drop_first() =~= s@.subrange(
                (lo + 1) as int,
                n as int,
            ));
        }
        lo = lo + 1;
    }
    proof {
        assert(trim_front(s@) == s@.subrange(lo as int, n as int));
    }
    let mut hi: usize = n;
    while hi > lo && is_ws(s.get_char(hi - 1))
        invariant
            lo <= hi <= n,
            n == s@.len(),
            trim_front(s@) == s@.subrange(lo as int, n as int),
            trim_back(s@.subrange(lo as int, n as int)) == trim_back(
                s@.subrange(lo as int, hi as int),
            ),
        decreases hi,
    {
        proof {
            assert(s@.subrange(lo as int, hi as int).drop_last() =~= s@.subrange(
                lo as int,
                (hi - 1) as int,
            ));
        }
        hi = hi - 1;
    }
    proof {
        assert(trim_text(s@) == s@.subrange(lo as int, hi as int));
    }
    let piece = s.substring_char(lo, hi);
    piece.to_owned()
}

pub fn contains_char_str(s: &str, c: char) -> (r: bool)
    ensures
        r == contains_char(s@, c),
{
    let n = s.unicode_len();
    let mut i: usize = 0;
    while i < n
        invariant
            i <= n,
            n == s@.len(),
            forall|j: int| 0 <= j < i ==> s@[j] != c,
        decreases n - i,
    {
        if s.get_char(i) == c {
            return true;
        }
        i = i + 1;
    }
    false
}

/// Substring search: whether `needle` occurs anywhere in `hay`.
pub fn contains_str(hay: &str, needle: &str) -> (r: bool)
    ensures
        r == contains_seq(hay@, needle@),
{
    let hn = hay.unicode_len();
    let nn = needle.unicode_len();
    if nn > hn {
        return false;
    }
    let mut i: usize = 0;
    while i <= hn - nn
        invariant
            nn <= hn,
            hn == hay@.len(),
            nn == needle@.len(),
            i <= hn - nn + 1,
            forall|j: int|
                0 <= j < i ==> #[trigger] hay@.subrange(j, j + needle@.len() as int) != needle@,
        decreases hn + 1 - nn - i,
    {
        let mut k: usize = 0;
        let mut ok = true;
        while k < nn && ok
            invariant
                k <= nn,
                i + nn <= hn,
                hn == hay@.len(),
                nn == needle@.len(),
                ok ==> forall|t: int| 0 <= t < k ==> hay@[i + t] == needle@[t],
                !ok ==> k > 0 && hay@[i + k - 1] != needle@[k - 1],
            decreases nn - k,
        {
            if hay.get_char(i + k) == needle.get_char(k) {
                k = k + 1;
            } else {
                ok = false;
                k = k + 1;
            }
        }
        if ok {
            proof {
                assert(hay@.subrange(i as int, i as int + needle@.len() as int) =~= needle@);
            }
            return true;
        }
        proof {
            assert(hay@.subrange(i as int, i as int + needle@.len() as int) != needle@) by {
                if hay@.subrange(i as int, i as int + needle@.len() as int) == needle@ {
                    assert(needle@[k - 1] == hay@.subrange(
                        i as int,
                        i as int + needle@.len() as int,
                    )[k - 1]);
                    assert(hay@.subrange(i as int, i as int + needle@.len() as int)[k - 1]
                        == hay@[i + k - 1]);
                }
            }
        }
        i = i + 1;
    }
    false
}

/// Splits on `+`/`-`; the sign characters are consumed.
pub fn split_signs(s: &str) -> (parts: Vec<String>)
    ensures
        parts@.map_values(|p: String| p@) == split_by(s@, sign_pred()),
        parts@.len() >= 1,
{
    let n = s.unicode_len();
    let mut parts: Vec<String> = Vec::new();
    let mut cur = String::new();
    let mut i: usize = 0;
    while i < n
        invariant
            i <= n,
            n == s@.len(),
            parts@.map_values(|p: String| p@).push(cur@) == split_by(
                s@.subrange(0, i as int),
                sign_pred(),
            ),
        decreases n - i,
    {
        let c = s.get_char(i);
        proof {
            assert(s@.subrange(0, (i + 1) as int).drop_last() =~= s@.subrange(0, i as int));
        }
        if c == '+' || c == '-' {
            let ghost old_parts = parts@;
            let ghost old_cur = cur@;
            parts.push(cur);
            cur = String::new();
            proof {
                assert(parts@.map_values(|p: String| p@).push(cur@) =~= old_parts.map_values(
                    |p: String| p@,
                ).push(old_cur) + seq![Seq::<char>::empty()]);
            }
        } else {
            let ghost prev = parts@.map_values(|p: String| p@).push(cur@);
            push_char(&mut cur, c);
            proof {
                assert(parts@.map_values(|p: String| p@).push(cur@) =~= prev.update(
                    prev.len() - 1,
                    prev.last().push(c),
                ));
            }
        }
        i = i + 1;
    }
    proof {
        assert(s@.subrange(0, n as int) =~= s@);
    }
    let ghost prev = parts@.map_values(|p: String| p@).push(cur@);
    parts.push(cur);
    proof {
        assert(parts@.map_values(|p: String| p@) =~= prev);
    }
    parts
}

/// Splits on `=`; the separators are consumed.
pub fn split_eq(s: &str) -> (parts: Vec<String>)
    ensures
        parts@.map_values(|p: String| p@) == split_by(s@, eq_pred()),
        parts@.len() >= 1,
{
    let n = s.unicode_len();
    let mut parts: Vec<String> = Vec::new();
    let mut cur = String::new();
    let mut i: usize = 0;
    while i < n
        invariant
            i <= n,
            n == s@.len(),
            parts@.map_values(|p: String| p@).push(cur@) == split_by(
                s@.subrange(0, i as int),
                eq_pred(),
            ),
        decreases n - i,
    {
        let c = s.get_char(i);
        proof {
            assert(s@.subrange(0, (i + 1) as int).drop_last() =~= s@.subrange(0, i as int));
        }
        if c == '=' {
            let ghost old_parts = parts@;
            let ghost old_cur = cur@;
            parts.push(cur);
            cur = String::new();
            proof {
                assert(parts@.map_values(|p: String| p@).push(cur@) =~= old_parts.map_values(
                    |p: String| p@,
                ).push(old_cur) + seq![Seq::<char>::empty()]);
            }
        } else {
            let ghost prev = parts@.map_values(|p: String| p@).push(cur@);
            push_char(&mut cur, c);
            proof {
                assert(parts@.map_values(|p: String| p@).push(cur@) =~= prev.update(
                    prev.len() - 1,
                    prev.last().push(c),
                ));
            }
        }
        i = i + 1;
    }
    proof {
        assert(s@.subrange(0, n as int) =~= s@);
    }
    let ghost prev = parts@.map_values(|p: String| p@).push(cur@);
    parts.push(cur);
    proof {
        assert(parts@.map_values(|p: String| p@) =~= prev);
    }
    parts
}

pub proof fn lemma_split_by_push_sep(s: Seq<char>, c: char, f: spec_fn(char) -> bool)
    requires
        f(c),
    ensures
        split_by(s.push(c), f) == split_by(s, f) + seq![Seq::<char>::empty()],
{
    assert(s.push(c).drop_last() =~= s);
    assert(s.push(c).last() == c);
}

pub proof fn lemma_split_by_append_nosep(s: Seq<char>, t: Seq<char>, f: spec_fn(char) -> bool)
    requires
        forall|i: int| 0 <= i < t.len() ==> !f(t[i]),
    ensures
        split_by(s + t, f) == split_by(s, f).update(
            split_by(s, f).len() - 1,
            split_by(s, f).last() + t,
        ),
    decreases t.len(),
{
    lemma_split_by_len(s, f);
    let base = split_by(s, f);
    if t.len() == 0 {
        assert(s + t =~= s);
        assert(base.last() + t =~= base.last());
        assert(base.update(base.len() - 1, base.last() + t) =~~= base);
    } else {
        assert(forall|i: int| 0 <= i < t.drop_last().len() ==> !f(t.drop_last()[i]));
        lemma_split_by_append_nosep(s, t.drop_last(), f);
        assert((s + t).drop_last() =~= s + t.drop_last());
        assert((s + t).last() == t.last());
        let prev = split_by(s + t.drop_last(), f);
        assert(prev.last() == base.last() + t.drop_last());
        assert(!f((s + t).last()));
        assert(split_by(s + t, f) == prev.update(prev.len() - 1, prev.last().push(t.last())));
        assert((base.last() + t.drop_last()).push(t.last()) =~= base.last() + t);
        assert(prev.update(prev.len() - 1, prev.last().push(t.last())) =~~= base.update(
            base.len() - 1,
            base.last() + t,
        ));
    }
}

pub proof fn lemma_split_by_nosep(s: Seq<char>, f: spec_fn(char) -> bool)
    requires
        forall|i: int| 0 <= i < s.len() ==> !f(s[i]),
    ensures
        split_by(s, f) == seq![s],
{
    assert(Seq::<char>::empty() + s =~= s);
    lemma_split_by_append_nosep(Seq::<char>::empty(), s, f);
    let base = split_by(Seq::<char>::empty(), f);
    assert(base =~~= seq![Seq::<char>::empty()]);
    assert(Seq::<char>::empty() + s =~= s);
    assert(base.update(0, base.last() + s) =~~= seq![s]);
}

} // verus!