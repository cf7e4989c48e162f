//! Data lines: nodes, elements and set members.
use vstd::prelude::*;
use crate::keyword::{sets_of, target_ok, with_sets, Target};
use crate::mesh::{
    blocks_view, lemma_set_position, find_set, set_position, sets_view, BlockModel, Error, ErrorModel, Mesh, MeshModel, NamedSet, SetModel,
};
use crate::number::{
    decimal, is_float_literal, is_float_literal_slice, parse_label, parse_label_slice,
    push_decimal,
};
use crate::text::{push_chars, split, split_slice, trim, trim_slice};

verus! {

/// The comma-separated fields of `text`, each trimmed.
pub open spec fn fields(text: Seq<char>) -> Seq<Seq<char>> {
    split(text, ',').map_values(|f: Seq<char>| trim(f))
}

/// The non-empty entries of `fs`, in order.
pub open spec fn nonempty(fs: Seq<Seq<char>>) -> Seq<Seq<char>>
    decreases fs.len(),
{
    if fs.len() == 0 {
        Seq::empty()
    } else {
        let p = nonempty(fs.drop_last());
        if fs.last().len() > 0 {
            p.push(fs.last())
        } else {
            p
        }
    }
}

pub open spec fn msg_bad_label(f: Seq<char>) -> Seq<char> {
    "bad label `"@ + f + "`"@
}

pub open spec fn msg_bad_coordinate(f: Seq<char>) -> Seq<char> {
    "bad coordinate `"@ + f + "`"@
}

pub open spec fn msg_node_count(id: nat, count: nat, expected: nat) -> Seq<char> {
    "element "@ + decimal(id) + " has "@ + decimal(count) + " nodes, block expects "@ + decimal(
        expected,
    )
}

pub open spec fn msg_generate_fields() -> Seq<char> {
    "GENERATE needs `first, last[, step]`"@
}

pub open spec fn msg_generate_step() -> Seq<char> {
    "GENERATE step must be nonzero"@
}

pub open spec fn msg_unknown_member(f: Seq<char>) -> Seq<char> {
    "unknown set or bad label `"@ + f + "`"@
}

/// The field that gives coordinate `k` (0, 1 or 2) of a node line; empty if absent.
pub open spec fn coordinate_field(fs: Seq<Seq<char>>, k: int) -> Seq<char> {
    if k + 1 < fs.len() {
        fs[k + 1]
    } else {
        Seq::empty()
    }
}

pub open spec fn bad_coordinate(fs: Seq<Seq<char>>, k: int) -> bool {
    coordinate_field(fs, k).len() > 0 && !is_float_literal(coordinate_field(fs, k))
}

/// The first of the three coordinate fields that is present and no float literal.
pub open spec fn first_bad_coordinate(fs: Seq<Seq<char>>) -> Option<int> {
    if bad_coordinate(fs, 0) {
        Some(0)
    } else if bad_coordinate(fs, 1) {
        Some(1)
    } else if bad_coordinate(fs, 2) {
        Some(2)
    } else {
        None
    }
}

/// Coordinate `k` as stored: the field, or `0` when it is absent or empty.
pub open spec fn coordinate_text(fs: Seq<Seq<char>>, k: int) -> Seq<char> {
    if coordinate_field(fs, k).len() == 0 {
        "0"@
    } else {
        coordinate_field(fs, k)
    }
}

pub open spec fn node_coordinates(fs: Seq<Seq<char>>) -> Seq<Seq<char>> {
    seq![coordinate_text(fs, 0), coordinate_text(fs, 1), coordinate_text(fs, 2)]
}

/// `sets` with `id` appended to the set at `s`, if there is one.
pub open spec fn add_member(sets: Seq<SetModel>, s: Option<usize>, id: u32) -> Seq<SetModel> {
    match s {
        Some(i) => sets.update(i as int, SetModel { ids: sets[i as int].ids.push(id), ..sets[i as int] }),
        None => sets,
    }
}

/// `sets` with `ids` appended to the set at `i`.
pub open spec fn add_members(sets: Seq<SetModel>, i: int, ids: Seq<u32>) -> Seq<SetModel> {
    sets.update(i, SetModel { ids: sets[i].ids + ids, ..sets[i] })
}

/// A node line: `label[, x[, y[, z]]]`.
pub open spec fn node_step(m: MeshModel, nset: Option<usize>, text: Seq<char>, line: nat) -> Result<
    MeshModel,
    ErrorModel,
> {
    let fs = fields(text);
    let first = fs[0];
    if first.len() == 0 {
        Ok(m)
    } else {
        match parse_label(first) {
            None => Err(ErrorModel { line, msg: msg_bad_label(first) }),
            Some(id) => match first_bad_coordinate(fs) {
                Some(k) => Err(ErrorModel { line, msg: msg_bad_coordinate(coordinate_field(fs, k)) }),
                None => Ok(
                    MeshModel {
                        node_ids: m.node_ids.push(id),
                        node_coords: m.node_coords.push(node_coordinates(fs)),
                        node_sets: add_member(m.node_sets, nset, id),
                        ..m
                    },
                ),
            },
        }
    }
}

/// The labels that `fs` spell, or the first field that is no label.
pub open spec fn parse_labels(fs: Seq<Seq<char>>) -> Result<Seq<u32>, Seq<char>>
    decreases fs.len(),
{
    if fs.len() == 0 {
        Ok(Seq::empty())
    } else {
        match parse_labels(fs.drop_last()) {
            Err(f) => Err(f),
            Ok(r) => match parse_label(fs.last()) {
                Some(v) => Ok(r.push(v)),
                None => Err(fs.last()),
            },
        }
    }
}

/// An element line: `label, node, node, ...` (empty fields are ignored).
/// The block's first element fixes its node count, 0 included; every later
/// element must list that many node labels.
pub open spec fn element_step(
    m: MeshModel,
    block: usize,
    elset: Option<usize>,
    text: Seq<char>,
    line: nat,
) -> Result<MeshModel, ErrorModel> {
    let fs = nonempty(fields(text));
    if fs.len() == 0 {
        Ok(m)
    } else {
        match parse_label(fs[0]) {
            None => Err(ErrorModel { line, msg: msg_bad_label(fs[0]) }),
            Some(id) => match parse_labels(fs.drop_first()) {
                Err(f) => Err(ErrorModel { line, msg: msg_bad_label(f) }),
                Ok(nodes) => {
                    let b = m.element_blocks[block as int];
                    if b.ids.len() > 0 && nodes.len() != b.nodes_per_element {
                        Err(
                            ErrorModel {
                                line,
                                msg: msg_node_count(id as nat, nodes.len(), b.nodes_per_element),
                            },
                        )
                    } else {
                        let nb = BlockModel {
                            ids: b.ids.push(id),
                            connectivity: b.connectivity + nodes,
                            nodes_per_element: if b.ids.len() == 0 {
                                nodes.len()
                            } else {
                                b.nodes_per_element
                            },
                            ..b
                        };
                        Ok(
                            MeshModel {
                                element_blocks: m.element_blocks.update(block as int, nb),
                                element_sets: add_member(m.element_sets, elset, id),
                                ..m
                            },
                        )
                    }
                },
            },
        }
    }
}

/// `first, first + step, ...` up to `last` inclusive.
pub open spec fn generated(first: u32, last: u32, step: u32) -> Seq<u32> {
    let count: nat = if first <= last {
        ((last - first) / (step as int) + 1) as nat
    } else {
        0
    };
    Seq::new(count, |k: int| (first + k * step) as u32)
}

/// A `GENERATE` line, `first, last[, step]`, on the set at `index` of `sets`.
pub open spec fn generate_step(
    sets: Seq<SetModel>,
    index: usize,
    fs: Seq<Seq<char>>,
    line: nat,
) -> Result<Seq<SetModel>, ErrorModel> {
    if fs.len() == 0 {
        Ok(sets)
    } else {
        match parse_label(fs[0]) {
            None => Err(ErrorModel { line, msg: msg_bad_label(fs[0]) }),
            Some(first) => if fs.len() < 2 {
                Err(ErrorModel { line, msg: msg_generate_fields() })
            } else {
                match parse_label(fs[1]) {
                    None => Err(ErrorModel { line, msg: msg_bad_label(fs[1]) }),
                    Some(last) => {
                        let step = if fs.len() >= 3 {
                            parse_label(fs[2])
                        } else {
                            Some(1u32)
                        };
                        match step {
                            None => Err(ErrorModel { line, msg: msg_bad_label(fs[2]) }),
                            Some(st) => if st == 0 {
                                Err(ErrorModel { line, msg: msg_generate_step() })
                            } else {
                                Ok(add_members(sets, index as int, generated(first, last, st)))
                            },
                        }
                    },
                }
            },
        }
    }
}

/// One listed member: a label, or the name of a set of the same kind whose
/// members are copied; `None` when it is neither.
pub open spec fn member_field(sets: Seq<SetModel>, index: int, f: Seq<char>) -> Option<
    Seq<SetModel>,
> {
    match parse_label(f) {
        Some(id) => Some(add_members(sets, index, seq![id])),
        None => match set_position(sets, f) {
            Some(src) => Some(add_members(sets, index, sets[src].ids)),
            None => None,
        },
    }
}

/// The listed members `fs`, taken in order, or the first field that fails.
pub open spec fn member_fields(sets: Seq<SetModel>, index: int, fs: Seq<Seq<char>>) -> Result<
    Seq<SetModel>,
    Seq<char>,
>
    decreases fs.len(),
{
    if fs.len() == 0 {
        Ok(sets)
    } else {
        match member_fields(sets, index, fs.drop_last()) {
            Err(f) => Err(f),
            Ok(s) => match member_field(s, index, fs.last()) {
                Some(s2) => Ok(s2),
                None => Err(fs.last()),
            },
        }
    }
}

/// A line of set members, on the set at `index` of `sets`.
pub open spec fn members_step(
    sets: Seq<SetModel>,
    index: usize,
    generate: bool,
    text: Seq<char>,
    line: nat,
) -> Result<Seq<SetModel>, ErrorModel> {
    let fs = nonempty(fields(text));
    if generate {
        generate_step(sets, index, fs, line)
    } else {
        match member_fields(sets, index as int, fs) {
            Err(f) => Err(ErrorModel { line, msg: msg_unknown_member(f) }),
            Ok(s) => Ok(s),
        }
    }
}

/// What a data line with text `text`, on line `line`, does to `m` under `t`.
#[verifier::opaque]
pub open spec fn data_step(m: MeshModel, t: Target, text: Seq<char>, line: nat) -> Result<
    MeshModel,
    ErrorModel,
> {
    match t {
        Target::Skip => Ok(m),
        Target::Node { nset } => node_step(m, nset, text, line),
        Target::Element { block, elset } => element_step(m, block, elset, text, line),
        Target::Members { elem, index, generate } => match members_step(
            sets_of(m, elem),
            index,
            generate,
            text,
            line,
        ) {
            Ok(s) => Ok(with_sets(m, elem, s)),
            Err(e) => Err(e),
        },
    }
}

/// The comma-separated fields of `text`, each trimmed.
pub fn trimmed_fields<'a>(text: &'a [char]) -> (r: Vec<&'a [char]>)
    ensures
        r@.map_values(|f: &[char]| f@) == fields(text@),
{
    let pieces = split_slice(text, ',');
    let ghost pv = pieces@.map_values(|f: &[char]| f@);
    let mut r: Vec<&'a [char]> = Vec::new();
    let mut i: usize = 0;
    while i < pieces.len()
        invariant
            i <= pieces@.len(),
            pv == pieces@.map_values(|f: &[char]| f@),
            pv == split(text@, ','),
            r@.map_values(|f: &[char]| f@) == pv.take(i as int).map_values(|f: Seq<char>| trim(f)),
        decreases pieces@.len() - i,
    {
        let ghost before = r@.map_values(|f: &[char]| f@);
        let t = trim_slice(pieces[i]);
        r.push(t);
        assert(pv[i as int] == pieces@[i as int]@);
        assert(r@.map_values(|f: &[char]| f@) =~= before.push(t@));
        assert(pv.take(i + 1).map_values(|f: Seq<char>| trim(f)) =~= pv.take(i as int).map_values(
            |f: Seq<char>| trim(f),
        ).push(trim(pv[i as int])));
        i += 1;
    }
    assert(pv.take(i as int) =~= pv);
    r
}

/// The non-empty entries of `fs`, in order.
pub fn nonempty_fields<'a>(fs: &Vec<&'a [char]>) -> (r: Vec<&'a [char]>)
    ensures
        r@.map_values(|f: &[char]| f@) == nonempty(fs@.map_values(|f: &[char]| f@)),
{
    let ghost fv = fs@.map_values(|f: &[char]| f@);
    let mut r: Vec<&'a [char]> = Vec::new();
    let mut i: usize = 0;
    while i < fs.len()
        invariant
            i <= fs@.len(),
            fv == fs@.map_values(|f: &[char]| f@),
            r@.map_values(|f: &[char]| f@) == nonempty(fv.take(i as int)),
        decreases fs@.len() - i,
    {
        let ghost before = r@.map_values(|f: &[char]| f@);
        assert(fv.take(i + 1).drop_last() =~= fv.take(i as int));
        assert(fv[i as int] == fs@[i as int]@);
        if fs[i].len() > 0 {
            r.push(fs[i]);
            assert(r@.map_values(|f: &[char]| f@) =~= before.push(fs@[i as int]@));
        }
        i += 1;
    }
    assert(fv.take(i as int) =~= fv);
    r
}

/// An error on line `line` whose message is `prefix`, the field `f`, and a backtick.
fn field_error(line: usize, prefix: &str, f: &[char]) -> (r: Error)
    ensures
        r.line == line,
        r.msg@ == prefix@ + f@ + "`"@,
{
    let mut msg = prefix.to_owned();
    push_chars(&mut msg, f);
    msg.append("`");
    Error { line, msg }
}

fn plain_error(line: usize, msg: &str) -> (r: Error)
    ensures
        r.line == line,
        r.msg@ == msg@,
{
    Error { line, msg: msg.to_owned() }
}

/// The labels that `fs[from..]` spell, or the first of those fields that is no label.
fn labels_from<'a>(fs: &Vec<&'a [char]>, from: usize) -> (r: Result<Vec<u32>, &'a [char]>)
    requires
        from <= fs@.len(),
    ensures
        match parse_labels(fs@.map_values(|f: &[char]| f@).subrange(from as int, fs@.len() as int)) {
            Ok(v) => r matches Ok(x) && x@ == v,
            Err(f) => r matches Err(x) && x@ == f,
        },
{
    let ghost fv = fs@.map_values(|f: &[char]| f@);
    let mut out: Vec<u32> = Vec::new();
    let mut i: usize = from;
    assert(fv.subrange(from as int, from as int) =~= Seq::<Seq<char>>::empty());
    while i < fs.len()
        invariant
            from <= i <= fs@.len(),
            fv == fs@.map_values(|f: &[char]| f@),
            parse_labels(fv.subrange(from as int, i as int)) == Ok::<Seq<u32>, Seq<char>>(out@),
        decreases fs@.len() - i,
    {
        assert(fv.subrange(from as int, i + 1).drop_last() =~= fv.subrange(from as int, i as int));
        assert(fv[i as int] == fs@[i as int]@);
        match parse_label_slice(fs[i]) {
            Some(v) => {
                out.push(v);
            },
            None => {
                proof {
                    lemma_parse_labels_error_stays(fv.subrange(from as int, fs@.len() as int), i - from + 1);
                    assert(fv.subrange(from as int, fs@.len() as int).take(i - from + 1) =~= fv.subrange(from as int, i + 1));
                }
                return Err(fs[i]);
            },
        }
        i += 1;
    }
    assert(fv.subrange(from as int, i as int) =~= fv.subrange(from as int, fs@.len() as int));
    Ok(out)
}

proof fn lemma_parse_labels_error_stays(fs: Seq<Seq<char>>, k: int)
    requires
        0 <= k <= fs.len(),
        parse_labels(fs.take(k)) is Err,
    ensures
        parse_labels(fs) == parse_labels(fs.take(k)),
    decreases fs.len(),
{
    if k < fs.len() {
        assert(fs.drop_last().take(k) =~= fs.take(k));
        lemma_parse_labels_error_stays(fs.drop_last(), k);
    } else {
        assert(fs.take(k) =~= fs);
    }
}

fn coordinate_field_at<'a>(fs: &Vec<&'a [char]>, k: usize) -> (r: &'a [char])
    requires
        k < 3,
    ensures
        r@ == coordinate_field(fs@.map_values(|f: &[char]| f@), k as int),
{
    if k + 1 < fs.len() {
        fs[k + 1]
    } else {
        &[]
    }
}

fn coordinate_string(f: &[char]) -> (r: String)
    ensures
        r@ == (if f@.len() == 0 {
            "0"@
        } else {
            f@
        }),
{
    if f.len() == 0 {
        "0".to_owned()
    } else {
        crate::text::chars_string(f)
    }
}

/// Handles a node line.
fn apply_node(mesh: &mut Mesh, nset: Option<usize>, text: &[char], line: usize) -> (r: Result<
    (),
    Error,
>)
    requires
        nset matches Some(s) ==> s < old(mesh)@.node_sets.len(),
    ensures
        match node_step(old(mesh)@, nset, text@, line as nat) {
            Ok(m) => r is Ok && final(mesh)@ == m,
            Err(e) => r matches Err(x) && x@ == e && final(mesh)@ == old(mesh)@,
        },
{
    let fs = trimmed_fields(text);
    let ghost fv = fs@.map_values(|f: &[char]| f@);
    proof {
        crate::text::lemma_split_nonempty(text@, ',');
    }
    assert(fv[0] == fs@[0]@);
    let first = fs[0];
    if first.len() == 0 {
        return Ok(());
    }
    let id = match parse_label_slice(first) {
        Some(id) => id,
        None => return Err(field_error(line, "bad label `", first)),
    };
    let mut k: usize = 0;
    while k < 3
        invariant
            k <= 3,
            fv == fs@.map_values(|f: &[char]| f@),
            fv == fields(text@),
            fv.len() >= 1,
            fv[0] == first@,
            first@.len() > 0,
            parse_label(first@) == Some(id),
            forall|j: int| 0 <= j < k ==> !bad_coordinate(fv, j),
        decreases 3 - k,
    {
        let f = coordinate_field_at(&fs, k);
        if f.len() > 0 && !is_float_literal_slice(f) {
            assert(bad_coordinate(fv, k as int));
            assert(first_bad_coordinate(fv) == Some(k as int)) by {
                if k == 0 {
                } else if k == 1 {
                    assert(!bad_coordinate(fv, 0));
                } else {
                    assert(!bad_coordinate(fv, 0));
                    assert(!bad_coordinate(fv, 1));
                }
            }
            return Err(field_error(line, "bad coordinate `", f));
        }
        k += 1;
    }
    let x = coordinate_string(coordinate_field_at(&fs, 0));
    let y = coordinate_string(coordinate_field_at(&fs, 1));
    let z = coordinate_string(coordinate_field_at(&fs, 2));
    let coords = [x, y, z];
    let ghost old_mesh = mesh@;
    assert(crate::mesh::coords_view(coords) =~= node_coordinates(fv));
    mesh.node_ids.push(id);
    mesh.node_coords.push(coords);
    assert(mesh@.node_coords =~= old_mesh.node_coords.push(node_coordinates(fv)));
    match nset {
        Some(s) => {
            let ghost before = mesh.node_sets@;
            mesh.node_sets[s].ids.push(id);
            assert(sets_view(mesh.node_sets@) =~= add_member(sets_view(before), nset, id));
        },
        None => {},
    }
    Ok(())
}

fn append_ids(v: &mut Vec<u32>, ids: &Vec<u32>)
    ensures
        final(v)@ == old(v)@ + ids@,
{
    let mut i: usize = 0;
    while i < ids.len()
        invariant
            i <= ids@.len(),
            v@ == old(v)@ + ids@.take(i as int),
        decreases ids@.len() - i,
    {
        v.push(ids[i]);
        i += 1;
        assert(v@ =~= old(v)@ + ids@.take(i as int));
    }
    assert(ids@.take(i as int) =~= ids@);
}

fn node_count_error(line: usize, id: u32, count: usize, expected: usize) -> (r: Error)
    ensures
        r.line == line,
        r.msg@ == msg_node_count(id as nat, count as nat, expected as nat),
{
    let mut msg = "element ".to_owned();
    push_decimal(&mut msg, id as u64);
    msg.append(" has ");
    push_decimal(&mut msg, count as u64);
    msg.append(" nodes, block expects ");
    push_decimal(&mut msg, expected as u64);
    Error { line, msg }
}

/// Handles an element line.
fn apply_element(
    mesh: &mut Mesh,
    block: usize,
    elset: Option<usize>,
    text: &[char],
    line: usize,
) -> (r: Result<(), Error>)
    requires
        block < old(mesh)@.element_blocks.len(),
        elset matches Some(s) ==> s < old(mesh)@.element_sets.len(),
    ensures
        match element_step(old(mesh)@, block, elset, text@, line as nat) {
            Ok(m) => r is Ok && final(mesh)@ == m,
            Err(e) => r matches Err(x) && x@ == e && final(mesh)@ == old(mesh)@,
        },
{
    let all = trimmed_fields(text);
    let fs = nonempty_fields(&all);
    let ghost fv = fs@.map_values(|f: &[char]| f@);
    if fs.len() == 0 {
        return Ok(());
    }
    assert(fv[0] == fs@[0]@);
    let id = match parse_label_slice(fs[0]) {
        Some(id) => id,
        None => return Err(field_error(line, "bad label `", fs[0])),
    };
    assert(fv.subrange(1, fv.len() as int) =~= fv.drop_first());
    let nodes = match labels_from(&fs, 1) {
        Ok(nodes) => nodes,
        Err(f) => return Err(field_error(line, "bad label `", f)),
    };
    let count = nodes.len();
    let expected = mesh.element_blocks[block].nodes_per_element;
    let first = mesh.element_blocks[block].ids.len() == 0;
    if !first && count != expected {
        return Err(node_count_error(line, id, count, expected));
    }
    let ghost old_mesh = mesh@;
    let ghost old_blocks = mesh.element_blocks@;
    let ghost b = old_mesh.element_blocks[block as int];
    assert(b == old_blocks[block as int]@);
    mesh.element_blocks[block].ids.push(id);
    append_ids(&mut mesh.element_blocks[block].connectivity, &nodes);
    if first {
        mesh.element_blocks[block].nodes_per_element = count;
    }
    let ghost nb = BlockModel {
        ids: b.ids.push(id),
        connectivity: b.connectivity + nodes@,
        nodes_per_element: if b.ids.len() == 0 {
            nodes@.len()
        } else {
            b.nodes_per_element
        },
        ..b
    };
    assert(mesh.element_blocks@[block as int]@ == nb);
    assert(blocks_view(mesh.element_blocks@) =~= old_mesh.element_blocks.update(block as int, nb));
    match elset {
        Some(s) => {
            let ghost before = mesh.element_sets@;
            mesh.element_sets[s].ids.push(id);
            assert(sets_view(mesh.element_sets@) =~= add_member(sets_view(before), elset, id));
        },
        None => {},
    }
    Ok(())
}

pub proof fn lemma_range_bound(d: int, st: int, k: int)
    requires
        d >= 0,
        st >= 1,
        k >= 0,
    ensures
        (k * st <= d) == (k <= d / st),
{
    let q = d / st;
    let r = d % st;
    assert(d == q * st + r && 0 <= r < st) by (nonlinear_arith)
        requires
            st >= 1,
            q == d / st,
            r == d % st,
    ;
    if k <= q {
        assert(k * st <= q * st) by (nonlinear_arith)
            requires
                k <= q,
                st >= 1,
        ;
    } else {
        assert(k * st >= (q + 1) * st) by (nonlinear_arith)
            requires
                k >= q + 1,
                st >= 1,
        ;
        assert((q + 1) * st == q * st + st) by (nonlinear_arith);
    }
}

/// Appends `first, first + step, ...` up to `last` to `ids`.
fn push_range(ids: &mut Vec<u32>, first: u32, last: u32, step: u32)
    requires
        step > 0,
    ensures
        final(ids)@ == old(ids)@ + generated(first, last, step),
{
    let ghost g = generated(first, last, step);
    let mut cur: u64 = first as u64;
    let ghost mut k: int = 0;
    if first > last {
        assert(g =~= Seq::<u32>::empty());
        assert(ids@ =~= old(ids)@ + g);
        return;
    }
    assert(ids@ =~= old(ids)@ + g.take(0));
    while cur <= last as u64
        invariant
            first <= last,
            step > 0,
            g == generated(first, last, step),
            0 <= k <= g.len(),
            cur == first + k * step,
            cur <= last + step,
            ids@ == old(ids)@ + g.take(k),
        decreases last + step - cur,
    {
        proof {
            lemma_range_bound(last - first, step as int, k);
            assert(k * step <= last - first);
            assert(k < g.len());
            assert(g[k] == cur);
            assert(g.take(k + 1) =~= g.take(k).push(cur as u32));
        }
        ids.push(cur as u32);
        cur = cur + step as u64;
        proof {
            k = k + 1;
            assert((k - 1) * step + step == k * step) by (nonlinear_arith);
        }
    }
    proof {
        lemma_range_bound(last - first, step as int, k);
        assert(!(k * step <= last - first));
        assert(k >= g.len());
        assert(g.take(k) =~= g);
    }
}

/// Handles a `GENERATE` line on the set at `index` of `sets`.
fn apply_generate(sets: &mut Vec<NamedSet>, index: usize, fs: &Vec<&[char]>, line: usize) -> (r:
    Result<(), Error>)
    requires
        index < old(sets)@.len(),
    ensures
        match generate_step(
            sets_view(old(sets)@),
            index,
            fs@.map_values(|f: &[char]| f@),
            line as nat,
        ) {
            Ok(s) => r is Ok && sets_view(final(sets)@) == s,
            Err(e) => r matches Err(x) && x@ == e && final(sets)@ == old(sets)@,
        },
{
    let ghost fv = fs@.map_values(|f: &[char]| f@);
    if fs.len() == 0 {
        return Ok(());
    }
    assert(fv[0] == fs@[0]@);
    let first = match parse_label_slice(fs[0]) {
        Some(v) => v,
        None => return Err(field_error(line, "bad label `", fs[0])),
    };
    if fs.len() < 2 {
        return Err(plain_error(line, "GENERATE needs `first, last[, step]`"));
    }
    assert(fv[1] == fs@[1]@);
    let last = match parse_label_slice(fs[1]) {
        Some(v) => v,
        None => return Err(field_error(line, "bad label `", fs[1])),
    };
    let step = if fs.len() >= 3 {
        assert(fv[2] == fs@[2]@);
        match parse_label_slice(fs[2]) {
            Some(v) => v,
            None => return Err(field_error(line, "bad label `", fs[2])),
        }
    } else {
        1
    };
    if step == 0 {
        return Err(plain_error(line, "GENERATE step must be nonzero"));
    }
    let ghost before = sets_view(sets@);
    push_range(&mut sets[index].ids, first, last, step);
    assert(sets_view(sets@) =~= add_members(before, index as int, generated(first, last, step)));
    Ok(())
}

fn copy_ids(v: &Vec<u32>) -> (r: Vec<u32>)
    ensures
        r@ == v@,
{
    let mut r: Vec<u32> = Vec::new();
    append_ids(&mut r, v);
    assert(r@ =~= v@);
    r
}

/// `sets` with the members of the set at `index` replaced by `ids`.
pub open spec fn with_members(sets: Seq<SetModel>, index: int, ids: Seq<u32>) -> Seq<SetModel> {
    sets.update(index, SetModel { ids, ..sets[index] })
}

proof fn lemma_set_position_ignores_members(
    sets: Seq<SetModel>,
    index: int,
    ids: Seq<u32>,
    name: Seq<char>,
)
    requires
        0 <= index < sets.len(),
    ensures
        set_position(with_members(sets, index, ids), name) == set_position(sets, name),
{
    let s2 = with_members(sets, index, ids);
    assert forall|i: int| 0 <= i < sets.len() implies #[trigger] crate::mesh::set_named(s2, i, name)
        == crate::mesh::set_named(sets, i, name) by {
        assert(s2[i].name == sets[i].name);
    }
    lemma_set_position(sets, name);
    lemma_set_position(s2, name);
    match (set_position(sets, name), set_position(s2, name)) {
        (Some(a), Some(b)) => {
            if a < b {
                assert(crate::mesh::set_named(s2, a, name));
            } else if b < a {
                assert(crate::mesh::set_named(sets, b, name));
            }
        },
        (Some(a), None) => {
            assert(crate::mesh::set_named(s2, a, name));
        },
        (None, Some(b)) => {
            assert(crate::mesh::set_named(sets, b, name));
        },
        (None, None) => {},
    }
}

/// Adds one listed member (a label, or the members of a named set) to
/// `work`, the members of the set at `index` so far; false when `f` is
/// neither.
fn apply_member_field(sets: &Vec<NamedSet>, index: usize, work: &mut Vec<u32>, f: &[char]) -> (r:
    bool)
    requires
        index < sets@.len(),
    ensures
        match member_field(with_members(sets_view(sets@), index as int, old(work)@), index as int, f@) {
            Some(s) => r && s == with_members(sets_view(sets@), index as int, final(work)@),
            None => !r,
        },
{
    let ghost cur = with_members(sets_view(sets@), index as int, work@);
    match parse_label_slice(f) {
        Some(id) => {
            work.push(id);
            assert(old(work)@ + seq![id] =~= work@);
            assert(add_members(cur, index as int, seq![id]) =~= with_members(
                sets_view(sets@),
                index as int,
                work@,
            ));
            true
        },
        None => {
            proof {
                lemma_set_position_ignores_members(sets_view(sets@), index as int, work@, f@);
                lemma_set_position(cur, f@);
            }
            match find_set(sets, f) {
                Some(src) => {
                    let copy = if src == index {
                        copy_ids(work)
                    } else {
                        copy_ids(&sets[src].ids)
                    };
                    assert(copy@ == cur[src as int].ids);
                    append_ids(work, &copy);
                    assert(add_members(cur, index as int, cur[src as int].ids) =~= with_members(
                        sets_view(sets@),
                        index as int,
                        work@,
                    ));
                    true
                },
                None => false,
            }
        },
    }
}

/// Handles a line of listed members on the set at `index` of `sets`; on a
/// field that fails, `sets` is left as it was.
fn apply_member_fields<'a>(sets: &mut Vec<NamedSet>, index: usize, fs: &Vec<&'a [char]>) -> (r:
    Result<(), &'a [char]>)
    requires
        index < old(sets)@.len(),
    ensures
        match member_fields(sets_view(old(sets)@), index as int, fs@.map_values(|f: &[char]| f@)) {
            Ok(s) => r is Ok && sets_view(final(sets)@) == s,
            Err(f) => r matches Err(x) && x@ == f && final(sets)@ == old(sets)@,
        },
{
    let ghost fv = fs@.map_values(|f: &[char]| f@);
    let ghost start = sets_view(sets@);
    let mut work = copy_ids(&sets[index].ids);
    assert(with_members(start, index as int, work@) =~= start);
    let mut i: usize = 0;
    assert(fv.take(0) =~= Seq::<Seq<char>>::empty());
    while i < fs.len()
        invariant
            i <= fs@.len(),
            fv == fs@.map_values(|f: &[char]| f@),
            start == sets_view(old(sets)@),
            sets@ == old(sets)@,
            index < sets@.len(),
            member_fields(start, index as int, fv.take(i as int)) == Ok::<
                Seq<SetModel>,
                Seq<char>,
            >(with_members(start, index as int, work@)),
        decreases fs@.len() - i,
    {
        let f = fs[i];
        proof {
            assert(fv[i as int] == f@);
            assert(fv.take(i + 1).drop_last() =~= fv.take(i as int));
            assert(fv.take(i + 1).last() == f@);
        }
        if !apply_member_field(sets, index, &mut work, f) {
            proof {
                lemma_member_fields_error_stays(start, index as int, fv, i + 1);
            }
            return Err(f);
        }
        i += 1;
    }
    assert(fv.take(i as int) =~= fv);
    let ghost before = sets@;
    sets[index].ids = work;
    assert(sets_view(sets@) =~= with_members(start, index as int, work@));
    Ok(())
}

proof fn lemma_member_fields_error_stays(sets: Seq<SetModel>, index: int, fs: Seq<Seq<char>>, k: int)
    requires
        0 <= k <= fs.len(),
        member_fields(sets, index, fs.take(k)) is Err,
    ensures
        member_fields(sets, index, fs) == member_fields(sets, index, fs.take(k)),
    decreases fs.len(),
{
    if k < fs.len() {
        assert(fs.drop_last().take(k) =~= fs.take(k));
        lemma_member_fields_error_stays(sets, index, fs.drop_last(), k);
    } else {
        assert(fs.take(k) =~= fs);
    }
}

/// Handles a line of set members on the set at `index` of `sets`.
fn apply_members(
    sets: &mut Vec<NamedSet>,
    index: usize,
    generate: bool,
    text: &[char],
    line: usize,
) -> (r: Result<(), Error>)
    requires
        index < old(sets)@.len(),
    ensures
        match members_step(sets_view(old(sets)@), index, generate, text@, line as nat) {
            Ok(s) => r is Ok && sets_view(final(sets)@) == s,
            Err(e) => r matches Err(x) && x@ == e && final(sets)@ == old(sets)@,
        },
{
    let all = trimmed_fields(text);
    let fs = nonempty_fields(&all);
    if generate {
        apply_generate(sets, index, &fs, line)
    } else {
        match apply_member_fields(sets, index, &fs) {
            Ok(()) => Ok(()),
            Err(f) => Err(field_error(line, "unknown set or bad label `", f)),
        }
    }
}

/// Handles a data line with text `text` on line `line`, under `target`.
pub fn apply_data(mesh: &mut Mesh, target: Target, text: &[char], line: usize) -> (r: Result<
    (),
    Error,
>)
    requires
        target_ok(target, old(mesh)@),
    ensures
        match data_step(old(mesh)@, target, text@, line as nat) {
            Ok(m) => r is Ok && final(mesh)@ == m,
            Err(e) => r matches Err(x) && x@ == e && final(mesh)@ == old(mesh)@,
        },
{
    reveal(data_step);
    match target {
        Target::Skip => Ok(()),
        Target::Node { nset } => apply_node(mesh, nset, text, line),
        Target::Element { block, elset } => apply_element(mesh, block, elset, text, line),
        Target::Members { elem, index, generate } => {
            if elem {
                apply_members(&mut mesh.element_sets, index, generate, text, line)
            } else {
                apply_members(&mut mesh.node_sets, index, generate, text, line)
            }
        },
    }
}

pub proof fn lemma_member_fields_len(sets: Seq<SetModel>, index: int, fs: Seq<Seq<char>>)
    requires
        0 <= index < sets.len(),
    ensures
        member_fields(sets, index, fs) matches Ok(s) ==> s.len() == sets.len(),
    decreases fs.len(),
{
    if fs.len() > 0 {
        lemma_member_fields_len(sets, index, fs.drop_last());
    }
}

/// A data line keeps the number of node sets, element sets and blocks.
pub proof fn lemma_data_step_shape(m: MeshModel, t: Target, text: Seq<char>, line: nat)
    requires
        target_ok(t, m),
    ensures
        data_step(m, t, text, line) matches Ok(m2) ==> {
            &&& m2.node_sets.len() == m.node_sets.len()
            &&& m2.element_sets.len() == m.element_sets.len()
            &&& m2.element_blocks.len() == m.element_blocks.len()
        },
{
    reveal(data_step);
    match t {
        Target::Members { elem, index, generate } => {
            lemma_member_fields_len(
                sets_of(m, elem),
                index as int,
                nonempty(fields(text)),
            );
        },
        _ => {},
    }
}

} // verus!
