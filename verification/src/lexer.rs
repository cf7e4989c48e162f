//! Splitting input text into logical records.
//!
//! A line is trimmed; blank lines and `**` comments are skipped. A line that
//! starts with `*` opens a keyword record, any other line a data record. A
//! record whose text ends in `,` continues on the following data lines
//! (blank and comment lines in between are passed over); a keyword line
//! always ends the continuation.
use vstd::prelude::*;
use vstd::slice::slice_subrange;
use crate::text::{ends_with, ends_with_char, split, split_slice, str_chars, trim, trim_slice};

verus! {

/// The lines of `text`, split at `'\n'` (a `'\r'` before it is removed by trimming).
pub open spec fn lines_of(text: Seq<char>) -> Seq<Seq<char>> {
    split(text, '\n')
}

/// A trimmed line that carries nothing: empty, or a `**` comment.
pub open spec fn is_blank(t: Seq<char>) -> bool {
    t.len() == 0 || (t.len() >= 2 && t[0] == '*' && t[1] == '*')
}

/// A trimmed, non-blank line that starts a keyword.
pub open spec fn is_keyword_line(t: Seq<char>) -> bool {
    !is_blank(t) && t[0] == '*'
}

/// Joins the data lines from `j` onto `s`, which ends in `,`: returns the
/// joined text and the index of the first line not consumed.
pub open spec fn continue_join(lines: Seq<Seq<char>>, s: Seq<char>, j: int) -> (Seq<char>, int)
    decreases lines.len() - j,
{
    if j < 0 || j >= lines.len() {
        (s, j)
    } else {
        let t = trim(lines[j]);
        if is_blank(t) {
            continue_join(lines, s, j + 1)
        } else if t[0] == '*' {
            (s, j)
        } else if ends_with_char(s + t, ',') {
            continue_join(lines, s + t, j + 1)
        } else {
            (s + t, j + 1)
        }
    }
}

/// The logical text that starts with `first`, read on from line `j`.
pub open spec fn logical(lines: Seq<Seq<char>>, first: Seq<char>, j: int) -> (Seq<char>, int) {
    if ends_with_char(first, ',') {
        continue_join(lines, first, j)
    } else {
        (first, j)
    }
}

/// One logical record: its first line (1-based), whether it is a keyword
/// record (then `text` follows the `*`), and its joined text.
pub struct RecordModel {
    pub line: nat,
    pub keyword: bool,
    pub text: Seq<char>,
}

/// The records of `lines`, from line index `i` on.
pub open spec fn records_from(lines: Seq<Seq<char>>, i: int) -> Seq<RecordModel>
    decreases lines.len() - i,
{
    if i < 0 || i >= lines.len() {
        Seq::empty()
    } else {
        let t = trim(lines[i]);
        if is_blank(t) {
            records_from(lines, i + 1)
        } else {
            let keyword = t[0] == '*';
            let first = if keyword {
                t.drop_first()
            } else {
                t
            };
            let (text, j) = logical(lines, first, i + 1);
            if i < j && j <= lines.len() {
                seq![RecordModel { line: (i + 1) as nat, keyword, text }] + records_from(lines, j)
            } else {
                Seq::empty()
            }
        }
    }
}

/// The records of `text`.
pub open spec fn records_of(text: Seq<char>) -> Seq<RecordModel> {
    records_from(lines_of(text), 0)
}

pub proof fn lemma_continue_join_advances(lines: Seq<Seq<char>>, s: Seq<char>, j: int)
    requires
        0 <= j,
    ensures
        continue_join(lines, s, j).1 >= j,
        continue_join(lines, s, j).1 <= lines.len() || j > lines.len(),
    decreases lines.len() - j,
{
    if j < lines.len() {
        let t = trim(lines[j]);
        if is_blank(t) || (t[0] != '*' && ends_with_char(s + t, ',')) {
            lemma_continue_join_advances(lines, if is_blank(t) {
                s
            } else {
                s + t
            }, j + 1);
        }
    }
}

/// One record of the input.
pub struct Record {
    /// First line of the record, 1-based.
    pub line: usize,
    /// Whether it is a keyword record; its text then follows the `*`.
    pub keyword: bool,
    /// The joined text.
    pub text: Vec<char>,
}

impl View for Record {
    type V = RecordModel;

    open spec fn view(&self) -> RecordModel {
        RecordModel { line: self.line as nat, keyword: self.keyword, text: self.text@ }
    }
}

pub open spec fn records_view(rs: Seq<Record>) -> Seq<RecordModel> {
    rs.map_values(|r: Record| r@)
}

fn is_blank_slice(t: &[char]) -> (r: bool)
    ensures
        r == is_blank(t@),
{
    t.len() == 0 || (t.len() >= 2 && t[0] == '*' && t[1] == '*')
}

fn slice_to_vec_chars(s: &[char]) -> (r: Vec<char>)
    ensures
        r@ == s@,
{
    let mut r: Vec<char> = Vec::new();
    let mut i: usize = 0;
    while i < s.len()
        invariant
            i <= s@.len(),
            r@ == s@.take(i as int),
        decreases s@.len() - i,
    {
        r.push(s[i]);
        i += 1;
        assert(r@ =~= s@.take(i as int));
    }
    assert(s@.take(i as int) =~= s@);
    r
}

fn append_chars(v: &mut Vec<char>, s: &[char])
    ensures
        final(v)@ == old(v)@ + s@,
{
    let mut i: usize = 0;
    while i < s.len()
        invariant
            i <= s@.len(),
            v@ == old(v)@ + s@.take(i as int),
        decreases s@.len() - i,
    {
        v.push(s[i]);
        i += 1;
        assert(v@ =~= old(v)@ + s@.take(i as int));
    }
    assert(s@.take(i as int) =~= s@);
}

/// The logical text that starts with `first`, read on from line `j`, and
/// the index of the first line not consumed.
fn join_logical(lines: &Vec<&[char]>, first: &[char], j: usize) -> (r: (Vec<char>, usize))
    requires
        j <= lines@.len(),
    ensures
        r.0@ == logical(lines@.map_values(|p: &[char]| p@), first@, j as int).0,
        r.1 == logical(lines@.map_values(|p: &[char]| p@), first@, j as int).1,
{
    let ghost ls = lines@.map_values(|p: &[char]| p@);
    let mut s = slice_to_vec_chars(first);
    if !ends_with(first, ',') {
        return (s, j);
    }
    let mut k = j;
    while k < lines.len()
        invariant
            j <= k <= lines@.len(),
            ls == lines@.map_values(|p: &[char]| p@),
            ends_with_char(s@, ','),
            logical(ls, first@, j as int) == continue_join(ls, s@, k as int),
        decreases lines@.len() - k,
    {
        let t = trim_slice(lines[k]);
        assert(ls[k as int] == lines@[k as int]@);
        if is_blank_slice(t) {
            k += 1;
        } else if t[0] == '*' {
            return (s, k);
        } else {
            append_chars(&mut s, t);
            k += 1;
            if !ends_with(s.as_slice(), ',') {
                return (s, k);
            }
        }
    }
    (s, k)
}

/// The records of `text`.
pub fn records(text: &str) -> (r: Vec<Record>)
    ensures
        records_view(r@) == records_of(text@),
        forall|i: int| 0 <= i < r@.len() ==> 1 <= #[trigger] r@[i].line,
{
    let chars = str_chars(text);
    let lines = split_slice(chars.as_slice(), '\n');
    let ghost ls = lines@.map_values(|p: &[char]| p@);
    assert(ls == lines_of(text@));
    let mut out: Vec<Record> = Vec::new();
    let mut i: usize = 0;
    while i < lines.len()
        invariant
            i <= lines@.len(),
            ls == lines@.map_values(|p: &[char]| p@),
            records_from(ls, 0) == records_view(out@) + records_from(ls, i as int),
            forall|k: int| 0 <= k < out@.len() ==> 1 <= #[trigger] out@[k].line,
        decreases lines@.len() - i,
    {
        let t = trim_slice(lines[i]);
        assert(ls[i as int] == lines@[i as int]@);
        if is_blank_slice(t) {
            i += 1;
        } else {
            let keyword = t[0] == '*';
            let first = if keyword {
                slice_subrange(t, 1, t.len())
            } else {
                t
            };
            assert(keyword ==> first@ =~= t@.drop_first());
            let (text, j) = join_logical(&lines, first, i + 1);
            proof {
                if ends_with_char(first@, ',') {
                    lemma_continue_join_advances(ls, first@, i + 1);
                }
            }
            let rec = Record { line: i + 1, keyword, text };
            let ghost before = records_view(out@);
            out.push(rec);
            assert(records_view(out@) =~= before.push(rec@));
            assert(records_from(ls, i as int) == seq![rec@] + records_from(ls, j as int));
            assert(records_from(ls, 0) =~= records_view(out@) + records_from(ls, j as int));
            i = j;
        }
    }
    assert(records_from(ls, i as int) =~= Seq::<RecordModel>::empty());
    assert(records_view(out@) =~= records_view(out@) + Seq::<RecordModel>::empty());
    out
}

} // verus!
