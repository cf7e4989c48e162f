//! Character-level helpers: whitespace, trimming, splitting and
//! ASCII-case-insensitive comparison, over sequences of `char`.
use vstd::prelude::*;
use vstd::slice::slice_subrange;

verus! {

/// The Unicode `White_Space` property, which `char::is_whitespace` tests.
pub open spec fn is_whitespace(c: char) -> bool {
    ('\t' <= c && c <= '\r') || c == ' ' || c == '\u{85}' || c == '\u{a0}' || c == '\u{1680}'
        || ('\u{2000}' <= c && c <= '\u{200a}') || c == '\u{2028}' || c == '\u{2029}'
        || c == '\u{202f}' || c == '\u{205f}' || c == '\u{3000}'
}

/// The characters that a trim removes: whitespace, or double quotes when `quotes` is set.
pub open spec fn strippable(c: char, quotes: bool) -> bool {
    if quotes {
        c == '"'
    } else {
        is_whitespace(c)
    }
}

/// `s` without its leading strippable characters.
pub open spec fn trim_start_by(s: Seq<char>, quotes: bool) -> Seq<char>
    decreases s.len(),
{
    if s.len() > 0 && strippable(s[0], quotes) {
        trim_start_by(s.drop_first(), quotes)
    } else {
        s
    }
}

/// `s` without its trailing strippable characters.
pub open spec fn trim_end_by(s: Seq<char>, quotes: bool) -> Seq<char>
    decreases s.len(),
{
    if s.len() > 0 && strippable(s.last(), quotes) {
        trim_end_by(s.drop_last(), quotes)
    } else {
        s
    }
}

pub open spec fn trim_by(s: Seq<char>, quotes: bool) -> Seq<char> {
    trim_end_by(trim_start_by(s, quotes), quotes)
}

/// What `str::trim` leaves of `s`.
pub open spec fn trim(s: Seq<char>) -> Seq<char> {
    trim_by(s, false)
}

/// What `str::trim_matches('"')` leaves of `s`.
pub open spec fn trim_quotes(s: Seq<char>) -> Seq<char> {
    trim_by(s, true)
}

/// The pieces of `s` between occurrences of `sep`, as `str::split` yields them.
pub open spec fn split(s: Seq<char>, sep: char) -> Seq<Seq<char>>
    decreases s.len(),
{
    if s.len() == 0 {
        seq![Seq::empty()]
    } else {
        let p = split(s.drop_last(), sep);
        if s.last() == sep {
            p.push(Seq::empty())
        } else {
            p.update(p.len() - 1, p.last().push(s.last()))
        }
    }
}

/// Code of `c` after ASCII lower-casing.
pub open spec fn ascii_lower(c: char) -> u32 {
    if 'A' <= c && c <= 'Z' {
        (c as u32 + 32) as u32
    } else {
        c as u32
    }
}

/// `str::eq_ignore_ascii_case`.
pub open spec fn eq_ignore_ascii_case(a: Seq<char>, b: Seq<char>) -> bool {
    &&& a.len() == b.len()
    &&& forall|i: int| 0 <= i < a.len() ==> ascii_lower(#[trigger] a[i]) == ascii_lower(b[i])
}

/// Index of the first `c` in `s`, if any.
pub open spec fn first_index(s: Seq<char>, c: char) -> Option<int> {
    if exists|i: int| 0 <= i < s.len() && s[i] == c {
        Some(
            choose|i: int|
                0 <= i < s.len() && s[i] == c && forall|j: int| 0 <= j < i ==> s[j] != c,
        )
    } else {
        None
    }
}

/// `str::split_once(c)`: the text before the first `c` and the text after it.
pub open spec fn split_once(s: Seq<char>, c: char) -> Option<(Seq<char>, Seq<char>)> {
    match first_index(s, c) {
        Some(i) => Some((s.take(i), s.skip(i + 1))),
        None => None,
    }
}

pub open spec fn ends_with_char(s: Seq<char>, c: char) -> bool {
    s.len() > 0 && s.last() == c
}

pub proof fn lemma_eq_ignore_ascii_case_symmetric(a: Seq<char>, b: Seq<char>)
    ensures
        eq_ignore_ascii_case(a, b) == eq_ignore_ascii_case(b, a),
{
}

pub proof fn lemma_eq_ignore_ascii_case_transitive(a: Seq<char>, b: Seq<char>, c: Seq<char>)
    requires
        eq_ignore_ascii_case(a, b),
        eq_ignore_ascii_case(b, c),
    ensures
        eq_ignore_ascii_case(a, c),
{
    assert forall|i: int| 0 <= i < a.len() implies ascii_lower(#[trigger] a[i]) == ascii_lower(
        c[i],
    ) by {
        assert(ascii_lower(b[i]) == ascii_lower(c[i]));
    }
}

pub proof fn lemma_split_nonempty(s: Seq<char>, sep: char)
    ensures
        split(s, sep).len() >= 1,
    decreases s.len(),
{
    if s.len() > 0 {
        lemma_split_nonempty(s.drop_last(), sep);
    }
}

fn is_strippable(c: char, quotes: bool) -> (r: bool)
    ensures
        r == strippable(c, quotes),
{
    if quotes {
        c == '"'
    } else {
        (c >= '\t' && c <= '\r') || c == ' ' || c == '\u{85}' || c == '\u{a0}' || c == '\u{1680}'
            || (c >= '\u{2000}' && c <= '\u{200a}') || c == '\u{2028}' || c == '\u{2029}' || c
            == '\u{202f}' || c == '\u{205f}' || c == '\u{3000}'
    }
}

/// The part of `s` that remains after stripping the class chosen by `quotes` at both ends.
pub fn trim_slice_by<'a>(s: &'a [char], quotes: bool) -> (r: &'a [char])
    ensures
        r@ == trim_by(s@, quotes),
{
    let len = s.len();
    let mut lo: usize = 0;
    assert(s@.subrange(0, len as int) =~= s@);
    while lo < len && is_strippable(s[lo], quotes)
        invariant
            len == s@.len(),
            lo <= len,
            trim_start_by(s@, quotes) == trim_start_by(s@.subrange(lo as int, len as int), quotes),
        decreases len - lo,
    {
        assert(s@.subrange(lo as int, len as int).drop_first() =~= s@.subrange(
            lo + 1,
            len as int,
        ));
        lo += 1;
    }
    assert(trim_start_by(s@, quotes) == s@.subrange(lo as int, len as int));
    let mut hi: usize = len;
    while hi > lo && is_strippable(s[hi - 1], quotes)
        invariant
            len == s@.len(),
            lo <= hi <= len,
            trim_by(s@, quotes) == trim_end_by(s@.subrange(lo as int, hi as int), quotes),
        decreases hi,
    {
        assert(s@.subrange(lo as int, hi as int).drop_last() =~= s@.subrange(
            lo as int,
            hi - 1,
        ));
        hi -= 1;
    }
    slice_subrange(s, lo, hi)
}

/// `str::trim` on a slice of characters.
pub fn trim_slice<'a>(s: &'a [char]) -> (r: &'a [char])
    ensures
        r@ == trim(s@),
{
    trim_slice_by(s, false)
}

/// The pieces of `s` between occurrences of `sep`.
pub fn split_slice<'a>(s: &'a [char], sep: char) -> (r: Vec<&'a [char]>)
    ensures
        r@.map_values(|p: &[char]| p@) == split(s@, sep),
{
    let len = s.len();
    let mut pieces: Vec<&'a [char]> = Vec::new();
    let mut start: usize = 0;
    let mut i: usize = 0;
    assert(s@.take(0) =~= Seq::<char>::empty());
    assert(pieces@.map_values(|p: &[char]| p@) =~= Seq::<Seq<char>>::empty());
    assert(s@.subrange(0, 0) =~= Seq::<char>::empty());
    while i < len
        invariant
            len == s@.len(),
            start <= i <= len,
            split(s@.take(i as int), sep) == pieces@.map_values(|p: &[char]| p@).push(
                s@.subrange(start as int, i as int),
            ),
        decreases len - i,
    {
        let ghost before = pieces@.map_values(|p: &[char]| p@);
        assert(s@.take(i + 1).drop_last() =~= s@.take(i as int));
        if s[i] == sep {
            let piece = slice_subrange(s, start, i);
            pieces.push(piece);
            assert(pieces@.map_values(|p: &[char]| p@) =~= before.push(
                s@.subrange(start as int, i as int),
            ));
            start = i + 1;
            assert(s@.take(i + 1).last() == sep);
            assert(s@.subrange(start as int, i + 1) =~= Seq::<char>::empty());
            assert(split(s@.take(i + 1), sep) =~= pieces@.map_values(|p: &[char]| p@).push(
                s@.subrange(start as int, i + 1),
            ));
        } else {
            assert(s@.subrange(start as int, i as int).push(s@[i as int]) =~= s@.subrange(
                start as int,
                i + 1,
            ));
            assert(split(s@.take(i + 1), sep) =~= pieces@.map_values(|p: &[char]| p@).push(
                s@.subrange(start as int, i + 1),
            ));
        }
        i += 1;
    }
    assert(s@.take(len as int) =~= s@);
    let last = slice_subrange(s, start, len);
    let ghost before = pieces@.map_values(|p: &[char]| p@);
    pieces.push(last);
    assert(pieces@.map_values(|p: &[char]| p@) =~= before.push(last@));
    pieces
}

/// The code of `c` after ASCII lower-casing.
pub fn lower_code(c: char) -> (r: u32)
    ensures
        r == ascii_lower(c),
{
    if c >= 'A' && c <= 'Z' {
        c as u32 + 32
    } else {
        c as u32
    }
}

/// `eq_ignore_ascii_case` on slices of characters.
pub fn eq_ignore_case(a: &[char], b: &[char]) -> (r: bool)
    ensures
        r == eq_ignore_ascii_case(a@, b@),
{
    if a.len() != b.len() {
        return false;
    }
    let mut i: usize = 0;
    while i < a.len()
        invariant
            a@.len() == b@.len(),
            i <= a@.len(),
            forall|j: int| 0 <= j < i ==> ascii_lower(#[trigger] a@[j]) == ascii_lower(b@[j]),
        decreases a@.len() - i,
    {
        if lower_code(a[i]) != lower_code(b[i]) {
            return false;
        }
        i += 1;
    }
    true
}

/// `str::split_once(c)` on a slice of characters.
pub fn split_once_slice<'a>(s: &'a [char], c: char) -> (r: Option<(&'a [char], &'a [char])>)
    ensures
        match split_once(s@, c) {
            Some((a, b)) => r matches Some((x, y)) && x@ == a && y@ == b,
            None => r is None,
        },
{
    let len = s.len();
    let mut i: usize = 0;
    while i < len
        invariant
            len == s@.len(),
            i <= len,
            forall|j: int| 0 <= j < i ==> s@[j] != c,
        decreases len - i,
    {
        if s[i] == c {
            assert(0 <= i < s@.len() && s@[i as int] == c);
            proof {
                let k = choose|k: int|
                    0 <= k < s@.len() && s@[k] == c && forall|j: int| 0 <= j < k ==> s@[j] != c;
                assert(k == i) by {
                    if k > i {
                        assert(s@[i as int] != c);
                    }
                }
            }
            return Some((slice_subrange(s, 0, i), slice_subrange(s, i + 1, len)));
        }
        i += 1;
    }
    None
}

/// Whether `s` is non-empty and ends with `c`.
pub fn ends_with(s: &[char], c: char) -> (r: bool)
    ensures
        r == ends_with_char(s@, c),
{
    s.len() > 0 && s[s.len() - 1] == c
}

/// The characters of `s`.
pub fn str_chars(s: &str) -> (r: Vec<char>)
    ensures
        r@ == s@,
{
    let mut r: Vec<char> = Vec::new();
    for c in it: s.chars()
        invariant
            r@ == it.seq().take(it.index() as int),
            it.seq() == s@,
    {
        r.push(c);
    }
    r
}

/// A `String` holding the characters of `v`.
pub fn chars_string(v: &[char]) -> (r: String)
    ensures
        r@ == v@,
{
    let mut r = String::new();
    let mut i: usize = 0;
    while i < v.len()
        invariant
            i <= v@.len(),
            r@ == v@.take(i as int),
        decreases v@.len() - i,
    {
        r.push(v[i]);
        i += 1;
        assert(r@ =~= v@.take(i as int));
    }
    assert(v@.take(i as int) =~= v@);
    r
}

/// Appends the characters of `v` to `s`.
pub fn push_chars(s: &mut String, v: &[char])
    ensures
        final(s)@ == old(s)@ + v@,
{
    let mut i: usize = 0;
    while i < v.len()
        invariant
            i <= v@.len(),
            s@ == old(s)@ + v@.take(i as int),
        decreases v@.len() - i,
    {
        s.push(v[i]);
        i += 1;
        assert(s@ =~= old(s)@ + v@.take(i as int));
    }
    assert(v@.take(i as int) =~= v@);
}

} // verus!
