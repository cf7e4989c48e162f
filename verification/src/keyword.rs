//! Keyword lines: their parameters, and what each mesh keyword does.
use vstd::prelude::*;
use crate::mesh::{
    find_set, lemma_set_position, set_position, sets_view, blocks_view, BlockModel,
    ElementBlock, Error, ErrorModel, Mesh, MeshModel, NamedSet, SetModel,
};
use crate::text::{
    chars_string, eq_ignore_ascii_case, eq_ignore_case, split, split_once, split_once_slice,
    split_slice, str_chars, trim, trim_quotes, trim_slice, trim_slice_by,
};

verus! {

/// What the data lines after a keyword mean.
#[derive(Clone, Copy)]
pub enum Target {
    /// Data lines are skipped.
    Skip,
    /// Node lines; each node also joins the node set at `nset`.
    Node { nset: Option<usize> },
    /// Element lines of the block at `block`; each element also joins the
    /// element set at `elset`.
    Element { block: usize, elset: Option<usize> },
    /// Members of the set at `index` (an element set if `elem`), listed or,
    /// with `generate`, given as ranges.
    Members { elem: bool, index: usize, generate: bool },
}

/// The sets of one kind: element sets if `elem`, else node sets.
pub open spec fn sets_of(m: MeshModel, elem: bool) -> Seq<SetModel> {
    if elem {
        m.element_sets
    } else {
        m.node_sets
    }
}

/// `m` with the sets of one kind replaced.
pub open spec fn with_sets(m: MeshModel, elem: bool, sets: Seq<SetModel>) -> MeshModel {
    if elem {
        MeshModel { element_sets: sets, ..m }
    } else {
        MeshModel { node_sets: sets, ..m }
    }
}

/// Whether the indices in `t` point into `m`.
pub open spec fn target_ok(t: Target, m: MeshModel) -> bool {
    match t {
        Target::Skip => true,
        Target::Node { nset } => nset matches Some(s) ==> s < m.node_sets.len(),
        Target::Element { block, elset } => block < m.element_blocks.len() && (elset matches Some(
            s,
        ) ==> s < m.element_sets.len()),
        Target::Members { elem, index, generate } => index < sets_of(m, elem).len(),
    }
}

/// The key of a `key=value` parameter (all of it when there is no `=`).
pub open spec fn param_key(p: Seq<char>) -> Seq<char> {
    match split_once(p, '=') {
        Some((k, _)) => k,
        None => p,
    }
}

/// The value of a `key=value` parameter, trimmed and without surrounding
/// double quotes; empty for a bare flag.
pub open spec fn param_value(p: Seq<char>) -> Seq<char> {
    match split_once(p, '=') {
        Some((_, v)) => trim_quotes(trim(v)),
        None => Seq::empty(),
    }
}

pub open spec fn param_matches(ps: Seq<Seq<char>>, i: int, key: Seq<char>) -> bool {
    eq_ignore_ascii_case(trim(param_key(ps[i])), key)
}

/// The value of the first comma-separated parameter in `params` whose key
/// is `key`, ignoring ASCII case. Bare flags yield the empty value.
pub open spec fn param(params: Seq<char>, key: Seq<char>) -> Option<Seq<char>> {
    let ps = split(params, ',');
    if exists|i: int| 0 <= i < ps.len() && #[trigger] param_matches(ps, i, key) {
        let i = choose|i: int|
            0 <= i < ps.len() && #[trigger] param_matches(ps, i, key) && forall|j: int|
                0 <= j < i ==> !param_matches(ps, j, key);
        Some(param_value(ps[i]))
    } else {
        None
    }
}

/// The sets after looking up `name`, creating an empty set if it is new,
/// and the index of the set.
pub open spec fn set_index_of(sets: Seq<SetModel>, name: Seq<char>) -> (Seq<SetModel>, int) {
    match set_position(sets, name) {
        Some(i) => (sets, i),
        None => (sets.push(SetModel { name, ids: Seq::empty() }), sets.len() as int),
    }
}

pub open spec fn msg_element_without_type() -> Seq<char> {
    "*ELEMENT without TYPE"@
}

pub open spec fn msg_nset_without_name() -> Seq<char> {
    "*NSET without NSET name"@
}

pub open spec fn msg_elset_without_name() -> Seq<char> {
    "*ELSET without ELSET name"@
}

pub open spec fn msg_include_without_input() -> Seq<char> {
    "*INCLUDE without INPUT"@
}

pub open spec fn msg_include_needs_directory() -> Seq<char> {
    "*INCLUDE needs parse_file (no base directory)"@
}

/// What a keyword line leads to.
pub enum KeywordOutcome {
    /// The mesh after the keyword, and what its data lines mean.
    Next(MeshModel, Target),
    /// An `*INCLUDE` of the file `INPUT` names.
    Include(Seq<char>),
    /// The keyword line is wrong.
    Fail(ErrorModel),
}

/// The set named by `key` in `params` (created if new) as the target of
/// `Members`, or the error `msg` when the parameter is missing.
pub open spec fn set_keyword(
    m: MeshModel,
    elem: bool,
    params: Seq<char>,
    key: Seq<char>,
    line: nat,
    msg: Seq<char>,
) -> KeywordOutcome {
    match param(params, key) {
        None => KeywordOutcome::Fail(ErrorModel { line, msg }),
        Some(name) => {
            let (sets, i) = set_index_of(sets_of(m, elem), name);
            KeywordOutcome::Next(
                with_sets(m, elem, sets),
                Target::Members {
                    elem,
                    index: i as usize,
                    generate: param(params, "GENERATE"@) is Some,
                },
            )
        },
    }
}

/// What the keyword `kw` with parameters `params`, on line `line`, does to
/// the mesh `m`. `includes` tells whether `*INCLUDE` can be followed.
#[verifier::opaque]
pub open spec fn keyword_step(
    m: MeshModel,
    kw: Seq<char>,
    params: Seq<char>,
    line: nat,
    includes: bool,
) -> KeywordOutcome {
    if eq_ignore_ascii_case(kw, "NODE"@) {
        match param(params, "NSET"@) {
            None => KeywordOutcome::Next(m, Target::Node { nset: None }),
            Some(name) => {
                let (sets, i) = set_index_of(m.node_sets, name);
                KeywordOutcome::Next(
                    MeshModel { node_sets: sets, ..m },
                    Target::Node { nset: Some(i as usize) },
                )
            },
        }
    } else if eq_ignore_ascii_case(kw, "ELEMENT"@) {
        match param(params, "TYPE"@) {
            None => KeywordOutcome::Fail(ErrorModel { line, msg: msg_element_without_type() }),
            Some(ty) => {
                let (m2, elset) = match param(params, "ELSET"@) {
                    None => (m, None::<usize>),
                    Some(name) => {
                        let (sets, i) = set_index_of(m.element_sets, name);
                        (MeshModel { element_sets: sets, ..m }, Some(i as usize))
                    },
                };
                let block = BlockModel {
                    element_type: ty,
                    ids: Seq::empty(),
                    connectivity: Seq::empty(),
                    nodes_per_element: 0,
                };
                KeywordOutcome::Next(
                    MeshModel { element_blocks: m2.element_blocks.push(block), ..m2 },
                    Target::Element { block: m2.element_blocks.len() as usize, elset },
                )
            },
        }
    } else if eq_ignore_ascii_case(kw, "NSET"@) {
        set_keyword(m, false, params, "NSET"@, line, msg_nset_without_name())
    } else if eq_ignore_ascii_case(kw, "ELSET"@) {
        set_keyword(m, true, params, "ELSET"@, line, msg_elset_without_name())
    } else if eq_ignore_ascii_case(kw, "INCLUDE"@) {
        match param(params, "INPUT"@) {
            None => KeywordOutcome::Fail(ErrorModel { line, msg: msg_include_without_input() }),
            Some(input) => if includes {
                KeywordOutcome::Include(input)
            } else {
                KeywordOutcome::Fail(ErrorModel { line, msg: msg_include_needs_directory() })
            },
        }
    } else {
        KeywordOutcome::Next(m, Target::Skip)
    }
}

/// The value of parameter `key` in `params`.
pub fn find_param<'a>(params: &'a [char], key: &[char]) -> (r: Option<&'a [char]>)
    ensures
        match param(params@, key@) {
            Some(v) => r matches Some(x) && x@ == v,
            None => r is None,
        },
{
    let ps = split_slice(params, ',');
    let ghost view = ps@.map_values(|p: &[char]| p@);
    assert(view == split(params@, ','));
    let mut i: usize = 0;
    while i < ps.len()
        invariant
            i <= ps@.len(),
            view == ps@.map_values(|p: &[char]| p@),
            view == split(params@, ','),
            forall|j: int| 0 <= j < i ==> !#[trigger] param_matches(view, j, key@),
        decreases ps@.len() - i,
    {
        let p = ps[i];
        assert(view[i as int] == p@);
        let (k, v): (&[char], &[char]) = match split_once_slice(p, '=') {
            Some((k, v)) => (k, v),
            None => (p, &[]),
        };
        assert(param_key(p@) == k@);
        if eq_ignore_case(trim_slice(k), key) {
            proof {
                assert(param_matches(view, i as int, key@));
                let c = choose|c: int|
                    0 <= c < view.len() && #[trigger] param_matches(view, c, key@) && forall|j: int|
                        0 <= j < c ==> !param_matches(view, j, key@);
                assert(c == i) by {
                    if c > i {
                        assert(!param_matches(view, i as int, key@));
                    }
                }
            }
            let value = trim_slice_by(trim_slice(v), true);
            proof {
                if split_once(p@, '=') is None {
                    assert(v@ =~= Seq::<char>::empty());
                    assert(trim(v@) =~= Seq::<char>::empty());
                    assert(trim_quotes(trim(v@)) =~= Seq::<char>::empty());
                }
            }
            return Some(value);
        }
        i += 1;
    }
    None
}

/// Index of the set named `name`, creating it if new. Case-insensitive, so
/// sets repeated across instances merge.
pub fn set_index(sets: &mut Vec<NamedSet>, name: &[char]) -> (r: usize)
    ensures
        sets_view(final(sets)@) == set_index_of(sets_view(old(sets)@), name@).0,
        r == set_index_of(sets_view(old(sets)@), name@).1,
        r < final(sets)@.len(),
{
    proof {
        lemma_set_position(sets_view(sets@), name@);
    }
    match find_set(sets, name) {
        Some(i) => i,
        None => {
            let ghost before = sets_view(sets@);
            let set = NamedSet { name: chars_string(name), ids: Vec::new() };
            sets.push(set);
            assert(set@.ids =~= Seq::<u32>::empty());
            assert(sets_view(sets@) =~= before.push(SetModel { name: name@, ids: Seq::empty() }));
            sets.len() - 1
        },
    }
}

/// What a keyword line did.
pub enum KeywordEffect {
    /// The data lines that follow mean `Target`.
    Next(Target),
    /// An `*INCLUDE` of the named file.
    Include(Vec<char>),
    /// The keyword line is wrong.
    Fail(Error),
}

fn error_at(line: usize, msg: &str) -> (r: Error)
    ensures
        r.line == line,
        r.msg@ == msg@,
{
    Error { line, msg: msg.to_owned() }
}

/// Handles the keyword `kw` with parameters `params` on line `line`.
pub fn apply_keyword(
    mesh: &mut Mesh,
    kw: &[char],
    params: &[char],
    line: usize,
    includes: bool,
) -> (r: KeywordEffect)
    ensures
        match keyword_step(old(mesh)@, kw@, params@, line as nat, includes) {
            KeywordOutcome::Next(m, t) => r == KeywordEffect::Next(t) && final(mesh)@ == m
                && target_ok(t, m),
            KeywordOutcome::Include(input) => r matches KeywordEffect::Include(v) && v@ == input
                && final(mesh)@ == old(mesh)@,
            KeywordOutcome::Fail(e) => r matches KeywordEffect::Fail(x) && x@ == e
                && final(mesh)@ == old(mesh)@,
        },
{
    reveal(keyword_step);
    let node = str_chars("NODE");
    let element = str_chars("ELEMENT");
    let nset = str_chars("NSET");
    let elset = str_chars("ELSET");
    let include_kw = str_chars("INCLUDE");
    let generate = str_chars("GENERATE");
    if eq_ignore_case(kw, node.as_slice()) {
        match find_param(params, nset.as_slice()) {
            None => KeywordEffect::Next(Target::Node { nset: None }),
            Some(name) => {
                let i = set_index(&mut mesh.node_sets, name);
                KeywordEffect::Next(Target::Node { nset: Some(i) })
            },
        }
    } else if eq_ignore_case(kw, element.as_slice()) {
        let ty_key = str_chars("TYPE");
        match find_param(params, ty_key.as_slice()) {
            None => KeywordEffect::Fail(error_at(line, "*ELEMENT without TYPE")),
            Some(ty) => {
                let set = match find_param(params, elset.as_slice()) {
                    None => None,
                    Some(name) => Some(set_index(&mut mesh.element_sets, name)),
                };
                let ghost before = blocks_view(mesh.element_blocks@);
                let block = ElementBlock {
                    element_type: chars_string(ty),
                    ids: Vec::new(),
                    connectivity: Vec::new(),
                    nodes_per_element: 0,
                };
                mesh.element_blocks.push(block);
                assert(block@.ids =~= Seq::<u32>::empty());
                assert(block@.connectivity =~= Seq::<u32>::empty());
                assert(blocks_view(mesh.element_blocks@) =~= before.push(block@));
                KeywordEffect::Next(
                    Target::Element { block: mesh.element_blocks.len() - 1, elset: set },
                )
            },
        }
    } else if eq_ignore_case(kw, nset.as_slice()) {
        match find_param(params, nset.as_slice()) {
            None => KeywordEffect::Fail(error_at(line, "*NSET without NSET name")),
            Some(name) => {
                let i = set_index(&mut mesh.node_sets, name);
                let generate = find_param(params, generate.as_slice()).is_some();
                KeywordEffect::Next(Target::Members { elem: false, index: i, generate })
            },
        }
    } else if eq_ignore_case(kw, elset.as_slice()) {
        match find_param(params, elset.as_slice()) {
            None => KeywordEffect::Fail(error_at(line, "*ELSET without ELSET name")),
            Some(name) => {
                let i = set_index(&mut mesh.element_sets, name);
                let generate = find_param(params, generate.as_slice()).is_some();
                KeywordEffect::Next(Target::Members { elem: true, index: i, generate })
            },
        }
    } else if eq_ignore_case(kw, include_kw.as_slice()) {
        let input_key = str_chars("INPUT");
        match find_param(params, input_key.as_slice()) {
            None => KeywordEffect::Fail(error_at(line, "*INCLUDE without INPUT")),
            Some(input) => if includes {
                let mut v: Vec<char> = Vec::new();
                let mut i: usize = 0;
                while i < input.len()
                    invariant
                        i <= input@.len(),
                        v@ == input@.take(i as int),
                    decreases input@.len() - i,
                {
                    v.push(input[i]);
                    i += 1;
                    assert(v@ =~= input@.take(i as int));
                }
                assert(input@.take(i as int) =~= input@);
                KeywordEffect::Include(v)
            } else {
                KeywordEffect::Fail(
                    error_at(line, "*INCLUDE needs parse_file (no base directory)"),
                )
            },
        }
    } else {
        KeywordEffect::Next(Target::Skip)
    }
}

} // verus!
