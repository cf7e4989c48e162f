//! Numbers in text: node and element labels (`u32`), the float-literal
//! grammar that coordinates must follow, and decimal rendering.
use vstd::prelude::*;
use crate::text::{eq_ignore_ascii_case, eq_ignore_case, str_chars};

verus! {

pub open spec fn is_digit(c: char) -> bool {
    '0' <= c && c <= '9'
}

pub open spec fn all_digits(s: Seq<char>) -> bool {
    forall|i: int| 0 <= i < s.len() ==> is_digit(#[trigger] s[i])
}

pub open spec fn digit_value(c: char) -> nat {
    (c as int - '0' as int) as nat
}

/// The number that the decimal digits `s` spell.
pub open spec fn digits_value(s: Seq<char>) -> nat
    decreases s.len(),
{
    if s.len() == 0 {
        0
    } else {
        digits_value(s.drop_last()) * 10 + digit_value(s.last())
    }
}

/// `s` without one leading `+`.
pub open spec fn label_body(s: Seq<char>) -> Seq<char> {
    if s.len() > 0 && s[0] == '+' {
        s.drop_first()
    } else {
        s
    }
}

/// What `str::parse::<u32>` gives for `s`: an optional `+`, then one or
/// more decimal digits whose value fits in `u32`.
pub open spec fn parse_label(s: Seq<char>) -> Option<u32> {
    let d = label_body(s);
    if d.len() > 0 && all_digits(d) && digits_value(d) <= u32::MAX {
        Some(digits_value(d) as u32)
    } else {
        None
    }
}

/// `s` without one leading sign.
pub open spec fn unsigned_part(s: Seq<char>) -> Seq<char> {
    if s.len() > 0 && (s[0] == '+' || s[0] == '-') {
        s.drop_first()
    } else {
        s
    }
}

pub open spec fn is_exponent_mark(c: char) -> bool {
    c == 'e' || c == 'E'
}

/// `Digit+ | Digit+ '.' Digit* | Digit* '.' Digit+`
pub open spec fn valid_mantissa(m: Seq<char>) -> bool {
    ||| m.len() > 0 && all_digits(m)
    ||| exists|p: int|
        0 <= p < m.len() && m[p] == '.' && m.len() >= 2 && all_digits(#[trigger] m.take(p))
            && all_digits(m.skip(p + 1))
}

/// `Sign? Digit+`
pub open spec fn valid_exponent(x: Seq<char>) -> bool {
    unsigned_part(x).len() > 0 && all_digits(unsigned_part(x))
}

/// `Number ::= Mantissa Exp?` with `Exp ::= ('e' | 'E') Sign? Digit+`.
pub open spec fn is_decimal_number(b: Seq<char>) -> bool {
    ||| (forall|i: int| 0 <= i < b.len() ==> !is_exponent_mark(#[trigger] b[i])) && valid_mantissa(
        b,
    )
    ||| exists|e: int|
        0 <= e < b.len() && is_exponent_mark(#[trigger] b[e]) && valid_mantissa(b.take(e))
            && valid_exponent(b.skip(e + 1))
}

/// The grammar that `str::parse::<f64>` documents for the strings it accepts:
/// `Sign? ('inf' | 'infinity' | 'nan' | Number)`, letters in any case.
pub open spec fn is_float_literal(s: Seq<char>) -> bool {
    let b = unsigned_part(s);
    ||| eq_ignore_ascii_case(b, "inf"@)
    ||| eq_ignore_ascii_case(b, "infinity"@)
    ||| eq_ignore_ascii_case(b, "nan"@)
    ||| is_decimal_number(b)
}

pub open spec fn digit_char(d: nat) -> char {
    (d + '0' as nat) as char
}

/// The decimal digits of `n`, without leading zeros.
pub open spec fn decimal(n: nat) -> Seq<char>
    decreases n,
{
    if n < 10 {
        seq![digit_char(n)]
    } else {
        decimal(n / 10).push(digit_char(n % 10))
    }
}

proof fn lemma_digits_value_grows(s: Seq<char>, k: int)
    requires
        0 <= k <= s.len(),
        all_digits(s),
    ensures
        digits_value(s.take(k)) <= digits_value(s),
    decreases s.len(),
{
    if k < s.len() {
        assert(s.drop_last().take(k) =~= s.take(k));
        lemma_digits_value_grows(s.drop_last(), k);
    } else {
        assert(s.take(k) =~= s);
    }
}

fn is_digit_char(c: char) -> (r: bool)
    ensures
        r == is_digit(c),
{
    c >= '0' && c <= '9'
}

/// `str::parse::<u32>` on a slice of characters.
pub fn parse_label_slice(s: &[char]) -> (r: Option<u32>)
    ensures
        r == parse_label(s@),
{
    let len = s.len();
    let start: usize = if len > 0 && s[0] == '+' {
        1
    } else {
        0
    };
    let ghost d = label_body(s@);
    assert(d =~= s@.subrange(start as int, len as int));
    if start == len {
        return None;
    }
    let mut value: u64 = 0;
    let mut i: usize = start;
    while i < len
        invariant
            len == s@.len(),
            start <= i <= len,
            d == s@.subrange(start as int, len as int),
            d == label_body(s@),
            d.len() > 0,
            all_digits(d.take(i - start)),
            value == digits_value(d.take(i - start)),
            value <= u32::MAX,
        decreases len - i,
    {
        let c = s[i];
        if !is_digit_char(c) {
            assert(d[i - start] == c);
            assert(!is_digit(d[i - start]));
            return None;
        }
        assert(d.take(i - start + 1).drop_last() =~= d.take(i - start));
        let next = value * 10 + (c as u64 - '0' as u64);
        assert(d.take(i - start + 1).last() == c);
        assert(next == digits_value(d.take(i - start + 1)));
        if next > u32::MAX as u64 {
            proof {
                if all_digits(d) {
                    lemma_digits_value_grows(d, i - start + 1);
                }
            }
            return None;
        }
        value = next;
        i += 1;
        assert(all_digits(d.take(i - start))) by {
            assert forall|j: int| 0 <= j < i - start implies is_digit(#[trigger] d.take(i - start)[j]) by {
                if j < i - start - 1 {
                    assert(d.take(i - start)[j] == d.take(i - start - 1)[j]);
                }
            }
        }
    }
    assert(d.take(i - start) =~= d);
    Some(value as u32)
}

fn all_digits_slice(s: &[char], lo: usize, hi: usize) -> (r: bool)
    requires
        lo <= hi <= s@.len(),
    ensures
        r == all_digits(s@.subrange(lo as int, hi as int)),
{
    let mut i = lo;
    while i < hi
        invariant
            lo <= i <= hi <= s@.len(),
            forall|j: int| lo <= j < i ==> is_digit(#[trigger] s@[j]),
        decreases hi - i,
    {
        if !is_digit_char(s[i]) {
            assert(s@.subrange(lo as int, hi as int)[i - lo] == s@[i as int]);
            return false;
        }
        i += 1;
    }
    assert forall|j: int| 0 <= j < hi - lo implies is_digit(
        #[trigger] s@.subrange(lo as int, hi as int)[j],
    ) by {
        assert(s@.subrange(lo as int, hi as int)[j] == s@[lo + j]);
    }
    true
}

/// Whether `s[lo..hi]` is a valid mantissa.
fn mantissa_ok(s: &[char], lo: usize, hi: usize) -> (r: bool)
    requires
        lo <= hi <= s@.len(),
    ensures
        r == valid_mantissa(s@.subrange(lo as int, hi as int)),
{
    let ghost m = s@.subrange(lo as int, hi as int);
    let mut i = lo;
    while i < hi && s[i] != '.'
        invariant
            lo <= i <= hi <= s@.len(),
            forall|j: int| lo <= j < i ==> s@[j] != '.',
        decreases hi - i,
    {
        i += 1;
    }
    if i == hi {
        let r = hi > lo && all_digits_slice(s, lo, hi);
        proof {
            if !r {
                assert forall|p: int|
                    0 <= p < m.len() && m[p] == '.' && m.len() >= 2 && all_digits(
                        #[trigger] m.take(p),
                    ) implies !all_digits(m.skip(p + 1)) by {
                    assert(m[p] == s@[lo + p]);
                }
            }
        }
        r
    } else {
        let p = i - lo;
        assert(m[p as int] == '.');
        let before = all_digits_slice(s, lo, i);
        let after = all_digits_slice(s, i + 1, hi);
        assert(m.take(p as int) =~= s@.subrange(lo as int, i as int));
        assert(m.skip(p + 1) =~= s@.subrange(i + 1, hi as int));
        let r = hi - lo >= 2 && before && after;
        proof {
            assert(!all_digits(m)) by {
                assert(!is_digit(m[p as int]));
            }
            if !r {
                assert forall|q: int|
                    0 <= q < m.len() && m[q] == '.' && m.len() >= 2 && all_digits(
                        #[trigger] m.take(q),
                    ) implies !all_digits(m.skip(q + 1)) by {
                    if q < p {
                        assert(m.skip(q + 1)[p - q - 1] == m[p as int]);
                    } else if q > p {
                        assert(m.take(q)[p as int] == m[p as int]);
                    } else {
                    }
                }
            }
        }
        r
    }
}

fn is_exponent_mark_char(c: char) -> (r: bool)
    ensures
        r == is_exponent_mark(c),
{
    c == 'e' || c == 'E'
}

/// Whether `s[lo..hi]` is `Sign? Digit+`.
fn exponent_ok(s: &[char], lo: usize, hi: usize) -> (r: bool)
    requires
        lo <= hi <= s@.len(),
    ensures
        r == valid_exponent(s@.subrange(lo as int, hi as int)),
{
    let ghost x = s@.subrange(lo as int, hi as int);
    let start = if lo < hi && (s[lo] == '+' || s[lo] == '-') {
        lo + 1
    } else {
        lo
    };
    assert(unsigned_part(x) =~= s@.subrange(start as int, hi as int));
    start < hi && all_digits_slice(s, start, hi)
}

/// Whether `s[lo..hi]` follows the `Number` rule.
fn decimal_number_ok(s: &[char], lo: usize, hi: usize) -> (r: bool)
    requires
        lo <= hi <= s@.len(),
    ensures
        r == is_decimal_number(s@.subrange(lo as int, hi as int)),
{
    let ghost b = s@.subrange(lo as int, hi as int);
    let mut i = lo;
    while i < hi && !is_exponent_mark_char(s[i])
        invariant
            lo <= i <= hi <= s@.len(),
            forall|j: int| lo <= j < i ==> !is_exponent_mark(#[trigger] s@[j]),
        decreases hi - i,
    {
        i += 1;
    }
    if i == hi {
        proof {
            assert forall|j: int| 0 <= j < b.len() implies !is_exponent_mark(#[trigger] b[j]) by {
                assert(b[j] == s@[lo + j]);
            }
        }
        mantissa_ok(s, lo, hi)
    } else {
        let e = i - lo;
        assert(b[e as int] == s@[i as int]);
        let m = mantissa_ok(s, lo, i);
        let x = exponent_ok(s, i + 1, hi);
        assert(b.take(e as int) =~= s@.subrange(lo as int, i as int));
        assert(b.skip(e + 1) =~= s@.subrange(i + 1, hi as int));
        proof {
            assert(is_exponent_mark(b[e as int]));
            if !(m && x) {
                assert forall|f: int|
                    0 <= f < b.len() && is_exponent_mark(#[trigger] b[f]) && valid_mantissa(
                        b.take(f),
                    ) implies !valid_exponent(b.skip(f + 1)) by {
                    if f < e {
                        assert(b[f] == s@[lo + f]);
                    } else if f > e {
                        let mm = b.take(f);
                        assert(mm[e as int] == b[e as int]);
                        assert(!all_digits(mm)) by {
                            assert(!is_digit(mm[e as int]));
                        }
                        assert forall|p: int|
                            0 <= p < mm.len() && mm[p] == '.' && mm.len() >= 2 && all_digits(
                                #[trigger] mm.take(p),
                            ) implies !all_digits(mm.skip(p + 1)) by {
                            if p < e {
                                assert(mm.skip(p + 1)[e - p - 1] == mm[e as int]);
                                assert(!is_digit(mm.skip(p + 1)[e - p - 1]));
                            } else if p > e {
                                assert(mm.take(p)[e as int] == mm[e as int]);
                                assert(!is_digit(mm.take(p)[e as int]));
                            }
                        }
                    }
                }
            }
        }
        m && x
    }
}

/// Whether `s` is text that `str::parse::<f64>` accepts.
pub fn is_float_literal_slice(s: &[char]) -> (r: bool)
    ensures
        r == is_float_literal(s@),
{
    let len = s.len();
    let lo: usize = if len > 0 && (s[0] == '+' || s[0] == '-') {
        1
    } else {
        0
    };
    let ghost b = unsigned_part(s@);
    assert(b =~= s@.subrange(lo as int, len as int));
    let body = vstd::slice::slice_subrange(s, lo, len);
    let inf = str_chars("inf");
    let infinity = str_chars("infinity");
    let nan = str_chars("nan");
    if eq_ignore_case(body, inf.as_slice()) || eq_ignore_case(body, infinity.as_slice())
        || eq_ignore_case(body, nan.as_slice()) {
        return true;
    }
    decimal_number_ok(s, lo, len)
}

/// Appends the decimal digits of `n` to `s`.
pub fn push_decimal(s: &mut String, n: u64)
    ensures
        final(s)@ == old(s)@ + decimal(n as nat),
    decreases n,
{
    if n >= 10 {
        push_decimal(s, n / 10);
    }
    let d = (n % 10) as u8;
    let c = (d + 48) as char;
    assert(c == digit_char((n % 10) as nat));
    s.push(c);
    if n >= 10 {
        assert(s@ =~= old(s)@ + decimal(n as nat));
    } else {
        assert(s@ =~= old(s)@ + decimal(n as nat));
    }
}

} // verus!
