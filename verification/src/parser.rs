//! Reading records into a mesh, and parsing text.
use vstd::prelude::*;
use crate::data::{apply_data, data_step, lemma_data_step_shape};
use crate::keyword::{apply_keyword, keyword_step, target_ok, KeywordEffect, KeywordOutcome, Target};
use crate::lexer::{records, records_of, records_view, Record, RecordModel};
use crate::mesh::{empty_mesh, Error, ErrorModel, Mesh, MeshModel};
use crate::text::{chars_string, split_once, split_once_slice, trim, trim_slice};

verus! {

/// How reading records ends.
pub enum Outcome {
    /// All records were read; the mesh they built.
    Done(MeshModel),
    /// Reading stopped at an `*INCLUDE` of `input` on line `line`: the mesh so
    /// far, and the index of the record to resume at.
    Include { mesh: MeshModel, input: Seq<char>, line: nat, next: nat },
    /// A record was wrong: the error, and the mesh as it stood before that
    /// record (a wrong record changes nothing).
    Failed { error: ErrorModel, mesh: MeshModel },
}

/// The keyword of a keyword record's text (trimmed) and its parameters.
pub open spec fn keyword_parts(text: Seq<char>) -> (Seq<char>, Seq<char>) {
    match split_once(text, ',') {
        Some((k, p)) => (trim(k), p),
        None => (trim(text), Seq::empty()),
    }
}

/// Reading `recs` from index `i` on, with data lines meaning `t`, into `m`.
/// A keyword record sets what the data records after it mean; an
/// `*INCLUDE` stops the reading when `includes` is set.
pub open spec fn run(recs: Seq<RecordModel>, i: int, t: Target, m: MeshModel, includes: bool) -> Outcome
    decreases recs.len() - i,
{
    if i < 0 || i >= recs.len() {
        Outcome::Done(m)
    } else {
        let r = recs[i];
        if r.keyword {
            let (kw, params) = keyword_parts(r.text);
            match keyword_step(m, kw, params, r.line, includes) {
                KeywordOutcome::Fail(e) => Outcome::Failed { error: e, mesh: m },
                KeywordOutcome::Include(input) => Outcome::Include {
                    mesh: m,
                    input,
                    line: r.line,
                    next: (i + 1) as nat,
                },
                KeywordOutcome::Next(m2, t2) => run(recs, i + 1, t2, m2, includes),
            }
        } else {
            match data_step(m, t, r.text, r.line) {
                Err(e) => Outcome::Failed { error: e, mesh: m },
                Ok(m2) => run(recs, i + 1, t, m2, includes),
            }
        }
    }
}

/// What parsing `text` on its own (no base directory) gives.
pub open spec fn parse_model(text: Seq<char>) -> Outcome {
    run(records_of(text), 0, Target::Skip, empty_mesh(), false)
}

/// An `*INCLUDE` met while reading: the `INPUT` file name and the line.
#[derive(Debug)]
pub struct Include {
    pub input: String,
    pub line: usize,
}

/// The records of one input text, and where reading resumes.
pub struct Source {
    pub records: Vec<Record>,
    pub next: usize,
}

impl Source {
    /// The records of `text`, to be read from the start.
    pub fn new(text: &str) -> (r: Source)
        ensures
            records_view(r.records@) == records_of(text@),
            r.next == 0,
    {
        Source { records: records(text), next: 0 }
    }

    /// Reads the records from `next` on into `mesh`, starting with data
    /// lines skipped, until the end or, when `includes` is set, an
    /// `*INCLUDE`; reading then resumes after it.
    pub fn advance(&mut self, mesh: &mut Mesh, includes: bool) -> (r: Result<Option<Include>, Error>)
        ensures
            final(self).records == old(self).records,
            match run(records_view(old(self).records@), old(self).next as int, Target::Skip, old(mesh)@, includes) {
                Outcome::Done(m) => r matches Ok(None) && final(mesh)@ == m
                    && final(self).next == final(self).records@.len(),
                Outcome::Include { mesh: m, input, line, next } => r matches Ok(Some(inc))
                    && inc.input@ == input && inc.line == line && final(mesh)@ == m
                    && final(self).next == next,
                Outcome::Failed { error, mesh: m } => r matches Err(x) && x@ == error
                    && final(mesh)@ == m,
            },
    {
        let ghost recs = records_view(self.records@);
        let ghost goal = run(recs, self.next as int, Target::Skip, mesh@, includes);
        let mut target = Target::Skip;
        let mut i = self.next;
        let len = self.records.len();
        while i < len
            invariant
                len == self.records@.len(),
                recs == records_view(self.records@),
                self.records == old(self).records,
                goal == run(recs, i as int, target, mesh@, includes),
                goal == run(records_view(old(self).records@), old(self).next as int, Target::Skip, old(mesh)@, includes),
                target_ok(target, mesh@),
            decreases len - i,
        {
            let rec = &self.records[i];
            assert(recs[i as int] == rec@);
            if rec.keyword {
                let text = rec.text.as_slice();
                let (kw, params): (&[char], &[char]) = match split_once_slice(text, ',') {
                    Some((k, p)) => (trim_slice(k), p),
                    None => (trim_slice(text), &[]),
                };
                assert(keyword_parts(rec@.text) == (kw@, params@));
                let line = rec.line;
                match apply_keyword(mesh, kw, params, line, includes) {
                    KeywordEffect::Fail(e) => return Err(e),
                    KeywordEffect::Include(input) => {
                        let input = chars_string(input.as_slice());
                        self.next = i + 1;
                        return Ok(Some(Include { input, line }));
                    },
                    KeywordEffect::Next(t) => {
                        target = t;
                    },
                }
            } else {
                match target {
                    Target::Skip => {
                        assert(data_step(mesh@, target, rec@.text, rec@.line) == Ok::<MeshModel, ErrorModel>(mesh@)) by {
                            reveal(data_step);
                        }
                    },
                    _ => {
                        proof {
                            lemma_data_step_shape(mesh@, target, rec@.text, rec@.line);
                        }
                        let r = apply_data(mesh, target, rec.text.as_slice(), rec.line);
                        if let Err(e) = r {
                            return Err(e);
                        }
                    },
                }
            }
            i += 1;
        }
        self.next = len;
        Ok(None)
    }
}

/// Without `includes`, reading never stops at an `*INCLUDE`.
pub proof fn lemma_run_without_includes(
    recs: Seq<RecordModel>,
    i: int,
    t: Target,
    m: MeshModel,
)
    ensures
        !(run(recs, i, t, m, false) is Include),
    decreases recs.len() - i,
{
    reveal(keyword_step);
    if 0 <= i < recs.len() {
        let r = recs[i];
        if r.keyword {
            let (kw, params) = keyword_parts(r.text);
            match keyword_step(m, kw, params, r.line, false) {
                KeywordOutcome::Next(m2, t2) => lemma_run_without_includes(recs, i + 1, t2, m2),
                _ => {},
            }
        } else {
            match data_step(m, t, r.text, r.line) {
                Ok(m2) => lemma_run_without_includes(recs, i + 1, t, m2),
                Err(_) => {},
            }
        }
    }
}

/// Parse from a string. `*INCLUDE` is an error here; files that include
/// others are read by following each `*INCLUDE` with [`Source::advance`].
pub fn parse_str(text: &str) -> (r: Result<Mesh, Error>)
    ensures
        match parse_model(text@) {
            Outcome::Done(m) => r matches Ok(x) && x@ == m,
            Outcome::Failed { error, .. } => r matches Err(x) && x@ == error,
            Outcome::Include { .. } => false,
        },
{
    let mut source = Source::new(text);
    let mut mesh = Mesh::new();
    proof {
        lemma_run_without_includes(records_view(source.records@), 0, Target::Skip, mesh@);
    }
    match source.advance(&mut mesh, false) {
        Ok(_) => Ok(mesh),
        Err(e) => Err(e),
    }
}

} // verus!
