//! Laws that say what each step of reading is for, in terms of its inputs
//! and results.
use vstd::prelude::*;
use crate::data::data_step;
use crate::keyword::{keyword_step, param, KeywordOutcome, Target};
use crate::lexer::RecordModel;
use crate::mesh::MeshModel;
use crate::number::is_float_literal;
use crate::parser::{keyword_parts, run, Outcome};
use crate::text::{ascii_lower, eq_ignore_ascii_case, is_whitespace, split, trim};

verus! {

/// Reading stops at an `*INCLUDE` only on the include record itself, and
/// resumes at the record right after it: the record before the resume index
/// is a keyword record whose keyword is `INCLUDE` (in any case), on the
/// reported line, naming the reported file. Every record after the include
/// line is still read when reading resumes there.
pub proof fn law_include_resumes_right_after_it(
    recs: Seq<RecordModel>,
    i: int,
    t: Target,
    m: MeshModel,
    includes: bool,
)
    ensures
        run(recs, i, t, m, includes) matches Outcome::Include { input, line, next, .. } ==> {
            let r = recs[next - 1];
            &&& 0 <= i < next <= recs.len()
            &&& r.keyword
            &&& eq_ignore_ascii_case(keyword_parts(r.text).0, "INCLUDE"@)
            &&& param(keyword_parts(r.text).1, "INPUT"@) == Some(input)
            &&& r.line == line
            &&& includes
        },
    decreases recs.len() - i,
{
    reveal(keyword_step);
    if 0 <= i < recs.len() {
        let r = recs[i];
        if r.keyword {
            let (kw, params) = keyword_parts(r.text);
            if let KeywordOutcome::Next(m2, t2) = keyword_step(m, kw, params, r.line, includes) {
                law_include_resumes_right_after_it(recs, i + 1, t2, m2, includes);
            }
        } else {
            if let Ok(m2) = data_step(m, t, r.text, r.line) {
                law_include_resumes_right_after_it(recs, i + 1, t, m2, includes);
            }
        }
    }
}

/// Every element that an element line adds to a block with an `ELSET=` set
/// also joins that set, at its end, whatever the block already holds; a line
/// that adds no element changes nothing.
pub proof fn law_elements_join_the_block_set(
    m: MeshModel,
    block: usize,
    s: usize,
    text: Seq<char>,
    line: nat,
)
    requires
        block < m.element_blocks.len(),
        s < m.element_sets.len(),
    ensures
        data_step(m, Target::Element { block, elset: Some(s) }, text, line) matches Ok(m2) ==> {
            ||| m2 == m
            ||| {
                let x = m2.element_blocks[block as int].ids.last();
                &&& m2.element_blocks[block as int].ids == m.element_blocks[block as int].ids.push(x)
                &&& m2.element_sets[s as int].ids == m.element_sets[s as int].ids.push(x)
                &&& m2.element_sets[s as int].name == m.element_sets[s as int].name
            }
        },
{
    reveal(data_step);
}

proof fn lemma_lower_pair(x: char, y: char)
    ensures
        ascii_lower(x) == ascii_lower(y) <==> {
            ||| x as u32 == y as u32
            ||| ('A' <= x && x <= 'Z' && y as u32 == x as u32 + 32)
            ||| ('A' <= y && y <= 'Z' && x as u32 == y as u32 + 32)
        },
{
    let xu = x as u32 as int;
    let yu = y as u32 as int;
    assert(xu == x as int && yu == y as int);
    assert('A' <= x && x <= 'Z' <==> 65 <= xu <= 90);
    assert('A' <= y && y <= 'Z' <==> 65 <= yu <= 90);
    if 65 <= xu <= 90 {
        assert(ascii_lower(x) == xu + 32);
    } else {
        assert(ascii_lower(x) == xu);
    }
    if 65 <= yu <= 90 {
        assert(ascii_lower(y) == yu + 32);
    } else {
        assert(ascii_lower(y) == yu);
    }
}

/// Names match ignoring ASCII case exactly when they have the same length
/// and each pair of characters has the same code or is one letter `A`-`Z` in upper
/// and lower case; no other characters are folded together.
pub proof fn law_ignore_case_folds_only_letters(a: Seq<char>, b: Seq<char>)
    ensures
        eq_ignore_ascii_case(a, b) <==> {
            &&& a.len() == b.len()
            &&& forall|i: int|
                0 <= i < a.len() ==> {
                    ||| (#[trigger] a[i]) as u32 == b[i] as u32
                    ||| ('A' <= a[i] && a[i] <= 'Z' && b[i] as u32 == a[i] as u32 + 32)
                    ||| ('A' <= b[i] && b[i] <= 'Z' && a[i] as u32 == b[i] as u32 + 32)
                }
        },
{
    assert forall|x: char, y: char| #[trigger] ascii_lower(x) == #[trigger] ascii_lower(y) <==> {
        ||| x as u32 == y as u32
        ||| ('A' <= x && x <= 'Z' && y as u32 == x as u32 + 32)
        ||| ('A' <= y && y <= 'Z' && x as u32 == y as u32 + 32)
    } by {
        lemma_lower_pair(x, y);
    }
    if a.len() == b.len() {
        assert forall|i: int| 0 <= i < a.len() implies (ascii_lower(#[trigger] a[i]) == ascii_lower(b[i])
            <==> {
            ||| a[i] as u32 == b[i] as u32
            ||| ('A' <= a[i] && a[i] <= 'Z' && b[i] as u32 == a[i] as u32 + 32)
            ||| ('A' <= b[i] && b[i] <= 'Z' && a[i] as u32 == b[i] as u32 + 32)
        }) by {}
    }
}

/// Decimal digits `0`-`9` only.
pub open spec fn decimal_digits(s: Seq<char>) -> bool {
    forall|i: int| 0 <= i < s.len() ==> '0' <= #[trigger] s[i] && s[i] <= '9'
}

/// No sign, `+` or `-`.
pub open spec fn optional_sign(s: Seq<char>) -> bool {
    s.len() == 0 || s == seq!['+'] || s == seq!['-']
}

proof fn lemma_digits(s: Seq<char>)
    requires
        decimal_digits(s),
    ensures
        crate::number::all_digits(s),
        forall|i: int| 0 <= i < s.len() ==> !crate::number::is_exponent_mark(#[trigger] s[i]),
        forall|i: int| 0 <= i < s.len() ==> #[trigger] s[i] != '.' && s[i] != '+' && s[i] != '-',
{
}

/// Every decimal number in the shape that `str::parse::<f64>` accepts is a
/// float literal, so a node line keeps it as a coordinate: an optional sign,
/// digits with an optional fraction (`1`, `1.`, `1.5`, `.5`), and an
/// optional exponent `e` or `E` with an optional sign (`1.5E-03`, `2e+1`).
pub proof fn law_decimal_numbers_are_float_literals(
    sign: Seq<char>,
    int_part: Seq<char>,
    dot: bool,
    frac: Seq<char>,
    with_exp: bool,
    mark: char,
    exp_sign: Seq<char>,
    exp: Seq<char>,
)
    requires
        optional_sign(sign),
        optional_sign(exp_sign),
        decimal_digits(int_part),
        decimal_digits(frac),
        decimal_digits(exp),
        int_part.len() > 0 || (dot && frac.len() > 0),
        mark == 'e' || mark == 'E',
        with_exp ==> exp.len() > 0,
    ensures
        is_float_literal(
            sign + int_part + (if dot {
                seq!['.'] + frac
            } else {
                Seq::empty()
            }) + (if with_exp {
                seq![mark] + exp_sign + exp
            } else {
                Seq::empty()
            }),
        ),
{
    lemma_digits(int_part);
    lemma_digits(frac);
    lemma_digits(exp);
    let dot_part: Seq<char> = if dot {
        seq!['.'] + frac
    } else {
        Seq::empty()
    };
    let exp_part: Seq<char> = if with_exp {
        seq![mark] + exp_sign + exp
    } else {
        Seq::empty()
    };
    let mant = int_part + dot_part;
    let b = mant + exp_part;
    let s = sign + int_part + dot_part + exp_part;
    assert(s =~= sign + b);
    assert(b.len() > 0);
    if int_part.len() > 0 {
        assert(b[0] == int_part[0]);
    } else {
        assert(b[0] == '.');
    }
    assert(crate::number::unsigned_part(s) =~= b);
    assert forall|i: int| 0 <= i < mant.len() implies !crate::number::is_exponent_mark(#[trigger] mant[i]) by {
        if i < int_part.len() {
            assert(mant[i] == int_part[i]);
        } else if i > int_part.len() {
            assert(mant[i] == frac[i - int_part.len() - 1]);
        }
    }
    assert(crate::number::valid_mantissa(mant)) by {
        if dot {
            let p = int_part.len() as int;
            assert(mant[p] == '.');
            assert(mant.take(p) =~= int_part);
            assert(mant.skip(p + 1) =~= frac);
        } else {
            assert(mant =~= int_part);
        }
    }
    if with_exp {
        let e = mant.len() as int;
        assert(b[e] == mark);
        assert(b.take(e) =~= mant);
        assert(b.skip(e + 1) =~= exp_sign + exp);
        assert(crate::number::unsigned_part(exp_sign + exp) =~= exp) by {
            if exp_sign.len() == 0 {
                assert(exp_sign + exp =~= exp);
                assert(exp[0] != '+' && exp[0] != '-');
            }
        }
        assert(crate::number::valid_exponent(b.skip(e + 1)));
    } else {
        assert(b =~= mant);
    }
}

pub open spec fn all_whitespace(s: Seq<char>) -> bool {
    forall|i: int| 0 <= i < s.len() ==> is_whitespace(#[trigger] s[i])
}

pub open spec fn has_no(s: Seq<char>, c: char) -> bool {
    forall|i: int| 0 <= i < s.len() ==> #[trigger] s[i] != c
}

proof fn lemma_split_without_separator(s: Seq<char>, c: char)
    requires
        has_no(s, c),
    ensures
        split(s, c) == seq![s],
    decreases s.len(),
{
    if s.len() > 0 {
        lemma_split_without_separator(s.drop_last(), c);
        assert(s.drop_last().push(s.last()) =~= s);
    } else {
        assert(s =~= Seq::<char>::empty());
    }
}

proof fn lemma_trim_start_whitespace(a: Seq<char>, y: Seq<char>)
    requires
        all_whitespace(a),
    ensures
        crate::text::trim_start_by(a + y, false) == crate::text::trim_start_by(y, false),
    decreases a.len(),
{
    if a.len() > 0 {
        assert((a + y)[0] == a[0]);
        assert((a + y).drop_first() =~= a.drop_first() + y);
        lemma_trim_start_whitespace(a.drop_first(), y);
    } else {
        assert(a + y =~= y);
    }
}

proof fn lemma_trim_end_whitespace(y: Seq<char>, b: Seq<char>)
    requires
        all_whitespace(b),
    ensures
        crate::text::trim_end_by(y + b, false) == crate::text::trim_end_by(y, false),
    decreases b.len(),
{
    if b.len() > 0 {
        assert((y + b).last() == b.last());
        assert((y + b).drop_last() =~= y + b.drop_last());
        lemma_trim_end_whitespace(y, b.drop_last());
    } else {
        assert(y + b =~= y);
    }
}

proof fn lemma_trim_padded(a: Seq<char>, v: Seq<char>, b: Seq<char>)
    requires
        all_whitespace(a),
        all_whitespace(b),
        v.len() == 0 || (!is_whitespace(v[0]) && !is_whitespace(v.last())),
    ensures
        trim(a + v + b) == v,
{
    assert(a + v + b =~= a + (v + b));
    lemma_trim_start_whitespace(a, v + b);
    if v.len() > 0 {
        assert((v + b)[0] == v[0]);
        assert(crate::text::trim_start_by(v + b, false) == v + b);
        lemma_trim_end_whitespace(v, b);
        assert(crate::text::trim_end_by(v, false) == v);
    } else {
        assert(v + b =~= b);
        assert(b =~= Seq::<char>::empty() + b);
        lemma_trim_start_whitespace(b, Seq::<char>::empty());
        assert(crate::text::trim_start_by(Seq::<char>::empty(), false) =~= Seq::<char>::empty());
    }
}

proof fn lemma_single_param(key: Seq<char>, k: Seq<char>, x: Seq<char>)
    requires
        eq_ignore_ascii_case(trim(k), key),
        has_no(k, '='),
        has_no(k, ','),
        has_no(x, ','),
    ensures
        param(k + seq!['='] + x, key) == Some(crate::text::trim_quotes(trim(x))),
{
    let p = k + seq!['='] + x;
    assert(has_no(p, ',')) by {
        assert forall|i: int| 0 <= i < p.len() implies #[trigger] p[i] != ',' by {
            if i < k.len() {
                assert(p[i] == k[i]);
            } else if i > k.len() {
                assert(p[i] == x[i - k.len() - 1]);
            }
        }
    }
    lemma_split_without_separator(p, ',');
    let ps = split(p, ',');
    let q = k.len() as int;
    assert(p[q] == '=');
    assert forall|j: int| 0 <= j < q implies p[j] != '=' by {
        assert(p[j] == k[j]);
    }
    let f = choose|i: int| 0 <= i < p.len() && p[i] == '=' && forall|j: int| 0 <= j < i ==> p[j] != '=';
    assert(f == q) by {
        if f < q {
            assert(p[f] == k[f]);
        } else if f > q {
            assert(p[q] != '=');
        }
    }
    assert(p.take(q) =~= k);
    assert(p.skip(q + 1) =~= x);
    assert(crate::text::split_once(p, '=') == Some((k, x)));
    assert(crate::keyword::param_key(p) == k);
    assert(crate::keyword::param_matches(ps, 0, key));
    let c = choose|i: int|
        0 <= i < ps.len() && #[trigger] crate::keyword::param_matches(ps, i, key) && forall|j: int|
            0 <= j < i ==> !crate::keyword::param_matches(ps, j, key);
    assert(c == 0);
}

/// A parameter's value does not depend on the spaces around it: `key = v`
/// gives what `key=v` gives, `v` with surrounding double quotes removed
/// (for a `v` without commas and without surrounding whitespace).
pub proof fn law_param_value_ignores_surrounding_spaces(
    key: Seq<char>,
    k: Seq<char>,
    a: Seq<char>,
    v: Seq<char>,
    b: Seq<char>,
)
    requires
        eq_ignore_ascii_case(trim(k), key),
        has_no(k, '='),
        has_no(k, ','),
        has_no(v, ','),
        all_whitespace(a),
        all_whitespace(b),
        v.len() == 0 || (!is_whitespace(v[0]) && !is_whitespace(v.last())),
    ensures
        param(k + seq!['='] + a + v + b, key) == param(k + seq!['='] + v, key),
        param(k + seq!['='] + v, key) == Some(crate::text::trim_quotes(v)),
{
    let x = a + v + b;
    assert(has_no(x, ',')) by {
        assert forall|i: int| 0 <= i < x.len() implies #[trigger] x[i] != ',' by {
            if i < a.len() {
                assert(x[i] == a[i]);
                assert(is_whitespace(a[i]));
            } else if i < a.len() + v.len() {
                assert(x[i] == v[i - a.len()]);
            } else {
                assert(x[i] == b[i - a.len() - v.len()]);
                assert(is_whitespace(b[i - a.len() - v.len()]));
            }
        }
    }
    assert(k + seq!['='] + a + v + b =~= k + seq!['='] + x);
    lemma_single_param(key, k, x);
    lemma_single_param(key, k, v);
    lemma_trim_padded(a, v, b);
    assert(Seq::<char>::empty() + v + Seq::<char>::empty() =~= v);
    lemma_trim_padded(Seq::empty(), v, Seq::empty());
}

/// Every node that a node line adds also joins the node set that `NSET=`
/// named, at its end; a line that adds no node changes nothing.
pub proof fn law_nodes_join_the_node_set(m: MeshModel, s: usize, text: Seq<char>, line: nat)
    requires
        s < m.node_sets.len(),
    ensures
        data_step(m, Target::Node { nset: Some(s) }, text, line) matches Ok(m2) ==> {
            ||| m2 == m
            ||| {
                let x = m2.node_ids.last();
                &&& m2.node_ids == m.node_ids.push(x)
                &&& m2.node_coords.len() == m.node_coords.len() + 1
                &&& m2.node_sets[s as int].ids == m.node_sets[s as int].ids.push(x)
                &&& m2.node_sets[s as int].name == m.node_sets[s as int].name
            }
        },
{
    reveal(data_step);
}

/// `inf`, `infinity` and `nan`, in any case and with an optional sign, are
/// float literals, as `str::parse::<f64>` accepts them.
pub proof fn law_special_values_are_float_literals(sign: Seq<char>, w: Seq<char>)
    requires
        optional_sign(sign),
        eq_ignore_ascii_case(w, "inf"@) || eq_ignore_ascii_case(w, "infinity"@)
            || eq_ignore_ascii_case(w, "nan"@),
    ensures
        is_float_literal(sign + w),
{
    reveal_strlit("inf");
    reveal_strlit("infinity");
    reveal_strlit("nan");
    assert(w.len() >= 3);
    assert(ascii_lower(w[0]) == ascii_lower('i') || ascii_lower(w[0]) == ascii_lower('n'));
    assert(w[0] != '+' && w[0] != '-');
    assert(crate::number::unsigned_part(sign + w) =~= w);
}

/// The characters a float literal may use.
pub open spec fn number_char(c: char) -> bool {
    ('0' <= c && c <= '9') || c == '.' || c == '+' || c == '-' || c == 'e' || c == 'E'
}

/// A float literal is `inf`, `infinity` or `nan` (any case, optional sign),
/// or is made of digits, `.`, signs and `e`/`E` only, with at least one
/// digit: text such as `x`, `1,5` or `.` is refused as a coordinate.
pub proof fn law_float_literals_are_numbers(s: Seq<char>)
    requires
        is_float_literal(s),
    ensures
        ({
            let b = crate::number::unsigned_part(s);
            ||| eq_ignore_ascii_case(b, "inf"@)
            ||| eq_ignore_ascii_case(b, "infinity"@)
            ||| eq_ignore_ascii_case(b, "nan"@)
            ||| {
                &&& forall|i: int| 0 <= i < s.len() ==> number_char(#[trigger] s[i])
                &&& exists|i: int| 0 <= i < s.len() && '0' <= #[trigger] s[i] && s[i] <= '9'
            }
        }),
{
    let b = crate::number::unsigned_part(s);
    let off: int = if s.len() > 0 && (s[0] == '+' || s[0] == '-') {
        1
    } else {
        0
    };
    assert(b =~= s.skip(off));
    if !(eq_ignore_ascii_case(b, "inf"@) || eq_ignore_ascii_case(b, "infinity"@)
        || eq_ignore_ascii_case(b, "nan"@)) {
        assert(crate::number::is_decimal_number(b));
        let mant_ok = |m: Seq<char>|
            {
                &&& forall|i: int| 0 <= i < m.len() ==> number_char(#[trigger] m[i])
                &&& exists|i: int| 0 <= i < m.len() && '0' <= #[trigger] m[i] && m[i] <= '9'
            };
        assert forall|m: Seq<char>| crate::number::valid_mantissa(m) implies #[trigger] mant_ok(m) by {
            if m.len() > 0 && crate::number::all_digits(m) {
                assert('0' <= m[0] && m[0] <= '9');
            } else {
                let p = choose|p: int|
                    0 <= p < m.len() && m[p] == '.' && m.len() >= 2 && crate::number::all_digits(
                        #[trigger] m.take(p),
                    ) && crate::number::all_digits(m.skip(p + 1));
                assert forall|i: int| 0 <= i < m.len() implies number_char(#[trigger] m[i]) by {
                    if i < p {
                        assert(m.take(p)[i] == m[i]);
                    } else if i > p {
                        assert(m.skip(p + 1)[i - p - 1] == m[i]);
                    }
                }
                if p > 0 {
                    assert(m.take(p)[0] == m[0]);
                    assert('0' <= m[0] && m[0] <= '9');
                } else {
                    assert(m.skip(p + 1)[0] == m[p + 1]);
                    assert('0' <= m[p + 1] && m[p + 1] <= '9');
                }
            }
        }
        if forall|i: int| 0 <= i < b.len() ==> !crate::number::is_exponent_mark(#[trigger] b[i]) {
            assert(crate::number::valid_mantissa(b));
            assert(mant_ok(b));
        } else {
            let e = choose|e: int|
                0 <= e < b.len() && crate::number::is_exponent_mark(#[trigger] b[e])
                    && crate::number::valid_mantissa(b.take(e)) && crate::number::valid_exponent(
                    b.skip(e + 1),
                );
            let m = b.take(e);
            let x = b.skip(e + 1);
            assert(mant_ok(m));
            let xd = crate::number::unsigned_part(x);
            assert forall|i: int| 0 <= i < b.len() implies number_char(#[trigger] b[i]) by {
                if i < e {
                    assert(m[i] == b[i]);
                } else if i > e {
                    assert(x[i - e - 1] == b[i]);
                    if x.len() > 0 && (x[0] == '+' || x[0] == '-') {
                        if i > e + 1 {
                            assert(xd[i - e - 2] == x[i - e - 1]);
                        }
                    } else {
                        assert(xd[i - e - 1] == x[i - e - 1]);
                    }
                }
            }
            let k = choose|i: int| 0 <= i < m.len() && '0' <= #[trigger] m[i] && m[i] <= '9';
            assert(b[k] == m[k]);
        }
        assert(forall|i: int| 0 <= i < b.len() ==> number_char(#[trigger] b[i]));
        assert forall|i: int| 0 <= i < s.len() implies number_char(#[trigger] s[i]) by {
            if i >= off {
                assert(b[i - off] == s[i]);
            }
        }
        let k = choose|i: int| 0 <= i < b.len() && '0' <= #[trigger] b[i] && b[i] <= '9';
        assert(s[k + off] == b[k]);
    }
}

} // verus!
