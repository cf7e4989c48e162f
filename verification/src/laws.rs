//! Properties of parsing that hold for every input.
use vstd::prelude::*;
use crate::data::{
    add_member, add_members, data_step, element_step, fields,
    first_bad_coordinate, generate_step, generated, member_fields, node_coordinates, node_step, nonempty, bad_coordinate,
};
use crate::keyword::{
    keyword_step, set_index_of, sets_of, target_ok, with_sets, KeywordOutcome,
    Target,
};
use crate::lexer::{
    continue_join, is_blank, is_keyword_line, lines_of, logical, records_from, records_of,
    RecordModel, lemma_continue_join_advances,
};
use crate::mesh::{
    empty_mesh, lemma_set_position, set_named, set_position, BlockModel, MeshModel, SetModel,
};
use crate::number::{
    all_digits, decimal, digits_value, is_decimal_number, is_float_literal, label_body,
    parse_label, unsigned_part, valid_mantissa, digit_char,
};
use crate::parser::{keyword_parts, parse_model, run, Outcome};
use crate::text::{eq_ignore_ascii_case, lemma_eq_ignore_ascii_case_symmetric, trim};

verus! {

/// No two sets are named alike, ignoring ASCII case.
pub open spec fn names_distinct(sets: Seq<SetModel>) -> bool {
    forall|i: int, j: int|
        0 <= i < sets.len() && 0 <= j < sets.len() && i != j ==> !eq_ignore_ascii_case(
            #[trigger] sets[i].name,
            #[trigger] sets[j].name,
        )
}

/// A block's connectivity holds exactly `nodes_per_element` node labels per element.
pub open spec fn block_full(b: BlockModel) -> bool {
    b.connectivity.len() == b.ids.len() * b.nodes_per_element
}

/// Every block is full.
pub open spec fn blocks_full(blocks: Seq<BlockModel>) -> bool {
    forall|i: int| 0 <= i < blocks.len() ==> block_full(#[trigger] blocks[i])
}

/// Three coordinates, each a float literal.
pub open spec fn coords_ok(c: Seq<Seq<char>>) -> bool {
    c.len() == 3 && forall|k: int| 0 <= k < 3 ==> is_float_literal(#[trigger] c[k])
}

/// What holds of every mesh that parsing builds.
pub open spec fn well_formed(m: MeshModel) -> bool {
    &&& names_distinct(m.node_sets)
    &&& names_distinct(m.element_sets)
    &&& m.node_coords.len() == m.node_ids.len()
    &&& forall|i: int| 0 <= i < m.node_coords.len() ==> coords_ok(#[trigger] m.node_coords[i])
    &&& blocks_full(m.element_blocks)
}

proof fn lemma_zero_is_float_literal()
    ensures
        is_float_literal("0"@),
{
    reveal_strlit("0");
    let b = unsigned_part("0"@);
    assert(b =~= "0"@);
    assert(all_digits(b));
    assert(valid_mantissa(b));
    assert(forall|i: int| 0 <= i < b.len() ==> !crate::number::is_exponent_mark(#[trigger] b[i]));
    assert(is_decimal_number(b));
}

proof fn lemma_set_index_distinct(sets: Seq<SetModel>, name: Seq<char>)
    requires
        names_distinct(sets),
    ensures
        names_distinct(set_index_of(sets, name).0),
        0 <= set_index_of(sets, name).1 < set_index_of(sets, name).0.len(),
        set_index_of(sets, name).0.len() >= sets.len(),
{
    lemma_set_position(sets, name);
    match set_position(sets, name) {
        Some(i) => {},
        None => {
            let s2 = set_index_of(sets, name).0;
            assert forall|i: int, j: int|
                0 <= i < s2.len() && 0 <= j < s2.len() && i != j implies !eq_ignore_ascii_case(
                #[trigger] s2[i].name,
                #[trigger] s2[j].name,
            ) by {
                if i == sets.len() {
                    assert(!set_named(sets, j, name));
                    lemma_eq_ignore_ascii_case_symmetric(s2[i].name, s2[j].name);
                } else if j == sets.len() {
                    assert(!set_named(sets, i, name));
                }
            }
        },
    }
}

proof fn lemma_add_members_distinct(sets: Seq<SetModel>, i: int, ids: Seq<u32>)
    requires
        names_distinct(sets),
        0 <= i < sets.len(),
    ensures
        names_distinct(add_members(sets, i, ids)),
        add_members(sets, i, ids).len() == sets.len(),
{
    let s2 = add_members(sets, i, ids);
    assert forall|a: int, b: int|
        0 <= a < s2.len() && 0 <= b < s2.len() && a != b implies !eq_ignore_ascii_case(
        #[trigger] s2[a].name,
        #[trigger] s2[b].name,
    ) by {
        assert(s2[a].name == sets[a].name);
        assert(s2[b].name == sets[b].name);
    }
}

proof fn lemma_add_member_distinct(sets: Seq<SetModel>, s: Option<usize>, id: u32)
    requires
        names_distinct(sets),
        s matches Some(i) ==> i < sets.len(),
    ensures
        names_distinct(add_member(sets, s, id)),
        add_member(sets, s, id).len() == sets.len(),
{
    if let Some(i) = s {
        assert(add_member(sets, s, id) == add_members(sets, i as int, seq![id])) by {
            assert(sets[i as int].ids.push(id) =~= sets[i as int].ids + seq![id]);
        }
        lemma_add_members_distinct(sets, i as int, seq![id]);
    }
}

proof fn lemma_member_fields_distinct(sets: Seq<SetModel>, index: int, fs: Seq<Seq<char>>)
    requires
        names_distinct(sets),
        0 <= index < sets.len(),
    ensures
        member_fields(sets, index, fs) matches Ok(s) ==> names_distinct(s) && s.len() == sets.len(),
    decreases fs.len(),
{
    if fs.len() > 0 {
        lemma_member_fields_distinct(sets, index, fs.drop_last());
        if let Ok(s) = member_fields(sets, index, fs.drop_last()) {
            let f = fs.last();
            match parse_label(f) {
                Some(id) => lemma_add_members_distinct(s, index, seq![id]),
                None => {
                    lemma_set_position(s, f);
                    if let Some(src) = set_position(s, f) {
                        lemma_add_members_distinct(s, index, s[src].ids);
                    }
                },
            }
        }
    }
}

proof fn lemma_node_step_well_formed(m: MeshModel, nset: Option<usize>, text: Seq<char>, line: nat)
    requires
        well_formed(m),
        nset matches Some(s) ==> s < m.node_sets.len(),
    ensures
        node_step(m, nset, text, line) matches Ok(m2) ==> well_formed(m2),
{
    let fs = fields(text);
    if let Ok(m2) = node_step(m, nset, text, line) {
        if fs[0].len() > 0 {
            lemma_add_member_distinct(m.node_sets, nset, parse_label(fs[0]).unwrap());
            lemma_zero_is_float_literal();
            let c = node_coordinates(fs);
            assert(first_bad_coordinate(fs) is None);
            assert forall|k: int| 0 <= k < 3 implies is_float_literal(#[trigger] c[k]) by {
                assert(!bad_coordinate(fs, k));
            }
            assert(coords_ok(c));
            assert forall|i: int| 0 <= i < m2.node_coords.len() implies coords_ok(
                #[trigger] m2.node_coords[i],
            ) by {
                if i < m.node_coords.len() {
                    assert(m2.node_coords[i] == m.node_coords[i]);
                }
            }
        }
    }
}

proof fn lemma_block_full_step(b: BlockModel, nb: BlockModel)
    requires
        block_full(b),
        nb.ids.len() == b.ids.len() + 1,
        b.ids.len() == 0 ==> nb.nodes_per_element == nb.connectivity.len() - b.connectivity.len(),
        b.ids.len() > 0 ==> nb.nodes_per_element == b.nodes_per_element
            && nb.connectivity.len() == b.connectivity.len() + b.nodes_per_element,
    ensures
        block_full(nb),
{
    assert(nb.connectivity.len() == nb.ids.len() * nb.nodes_per_element) by (nonlinear_arith)
        requires
            b.connectivity.len() == b.ids.len() * b.nodes_per_element,
            nb.ids.len() == b.ids.len() + 1,
            b.ids.len() == 0 ==> nb.nodes_per_element == nb.connectivity.len() - b.connectivity.len(),
            b.ids.len() > 0 ==> nb.nodes_per_element == b.nodes_per_element
                && nb.connectivity.len() == b.connectivity.len() + b.nodes_per_element,
    ;
}

proof fn lemma_element_step_well_formed(
    m: MeshModel,
    block: usize,
    elset: Option<usize>,
    text: Seq<char>,
    line: nat,
)
    requires
        well_formed(m),
        block < m.element_blocks.len(),
        elset matches Some(s) ==> s < m.element_sets.len(),
    ensures
        element_step(m, block, elset, text, line) matches Ok(m2) ==> well_formed(m2),
{
    let fs = nonempty(fields(text));
    if let Ok(m2) = element_step(m, block, elset, text, line) {
        if fs.len() > 0 {
            let id = parse_label(fs[0]).unwrap();
            lemma_add_member_distinct(m.element_sets, elset, id);
            let b = m.element_blocks[block as int];
            let nb = m2.element_blocks[block as int];
            lemma_block_full_step(b, nb);
            assert forall|i: int| 0 <= i < m2.element_blocks.len() implies block_full(
                #[trigger] m2.element_blocks[i],
            ) by {
                if i != block {
                    assert(m2.element_blocks[i] == m.element_blocks[i]);
                }
            }
        }
    }
}

/// A data line keeps a mesh well formed.
pub proof fn law_data_step_well_formed(m: MeshModel, t: Target, text: Seq<char>, line: nat)
    requires
        well_formed(m),
        target_ok(t, m),
    ensures
        data_step(m, t, text, line) matches Ok(m2) ==> well_formed(m2),
{
    reveal(data_step);
    match t {
        Target::Skip => {},
        Target::Node { nset } => lemma_node_step_well_formed(m, nset, text, line),
        Target::Element { block, elset } => lemma_element_step_well_formed(
            m,
            block,
            elset,
            text,
            line,
        ),
        Target::Members { elem, index, generate } => {
            let sets = sets_of(m, elem);
            let fs = nonempty(fields(text));
            if generate {
                if let Ok(s) = generate_step(sets, index, fs, line) {
                    if fs.len() > 0 {
                        let g = generated(
                            parse_label(fs[0]).unwrap(),
                            parse_label(fs[1]).unwrap(),
                            if fs.len() >= 3 {
                                parse_label(fs[2]).unwrap()
                            } else {
                                1u32
                            },
                        );
                        lemma_add_members_distinct(sets, index as int, g);
                    }
                }
            } else {
                lemma_member_fields_distinct(sets, index as int, fs);
            }
        },
    }
}

/// A keyword line keeps a mesh well formed, and its target points into it.
pub proof fn law_keyword_step_well_formed(
    m: MeshModel,
    kw: Seq<char>,
    params: Seq<char>,
    line: nat,
    includes: bool,
)
    requires
        well_formed(m),
    ensures
        keyword_step(m, kw, params, line, includes) matches KeywordOutcome::Next(m2, t) ==> {
            &&& well_formed(m2)
            &&& target_ok(t, m2)
        },
{
    reveal(keyword_step);
    lemma_set_index_distinct(m.node_sets, crate::keyword::param(params, "NSET"@).unwrap_or(Seq::empty()));
    lemma_set_index_distinct(m.element_sets, crate::keyword::param(params, "ELSET"@).unwrap_or(Seq::empty()));
    if let KeywordOutcome::Next(m2, t) = keyword_step(m, kw, params, line, includes) {
        if eq_ignore_ascii_case(kw, "ELEMENT"@) {
            assert forall|i: int| 0 <= i < m2.element_blocks.len() implies block_full(
                #[trigger] m2.element_blocks[i],
            ) by {
                if i < m.element_blocks.len() {
                    assert(m2.element_blocks[i] == m.element_blocks[i]);
                }
            }
        }
    }
}

/// Reading records keeps a mesh well formed: set names stay distinct
/// (repeated names merge), coordinates stay parallel to node labels and are
/// float literals, and every block holds exactly `nodes_per_element` node
/// labels per element.
pub proof fn law_run_well_formed(
    recs: Seq<RecordModel>,
    i: int,
    t: Target,
    m: MeshModel,
    includes: bool,
)
    requires
        well_formed(m),
        target_ok(t, m),
    ensures
        match run(recs, i, t, m, includes) {
            Outcome::Done(m2) => well_formed(m2),
            Outcome::Include { mesh, .. } => well_formed(mesh),
            Outcome::Failed { mesh, .. } => well_formed(mesh),
        },
    decreases recs.len() - i,
{
    if 0 <= i < recs.len() {
        let r = recs[i];
        if r.keyword {
            let (kw, params) = keyword_parts(r.text);
            law_keyword_step_well_formed(m, kw, params, r.line, includes);
            if let KeywordOutcome::Next(m2, t2) = keyword_step(m, kw, params, r.line, includes) {
                law_run_well_formed(recs, i + 1, t2, m2, includes);
            }
        } else {
            law_data_step_well_formed(m, t, r.text, r.line);
            crate::data::lemma_data_step_shape(m, t, r.text, r.line);
            if let Ok(m2) = data_step(m, t, r.text, r.line) {
                law_run_well_formed(recs, i + 1, t, m2, includes);
            }
        }
    }
}

/// Every mesh that `parse_str` returns is well formed.
pub proof fn law_parse_well_formed(text: Seq<char>)
    ensures
        parse_model(text) matches Outcome::Done(m) ==> well_formed(m),
{
    law_run_well_formed(records_of(text), 0, Target::Skip, empty_mesh(), false);
}

/// In a mesh whose set names are distinct, looking a name up finds the one
/// set of that name, whatever the case of its letters.
pub proof fn law_set_lookup_finds_the_named_set(sets: Seq<SetModel>, name: Seq<char>, j: int)
    requires
        names_distinct(sets),
        0 <= j < sets.len(),
        eq_ignore_ascii_case(sets[j].name, name),
    ensures
        set_position(sets, name) == Some(j),
{
    lemma_set_position(sets, name);
    assert(set_named(sets, j, name));
    let i = set_position(sets, name).unwrap();
    if i != j {
        lemma_eq_ignore_ascii_case_symmetric(sets[j].name, name);
        crate::text::lemma_eq_ignore_ascii_case_transitive(sets[i].name, name, sets[j].name);
        assert(!eq_ignore_ascii_case(sets[i].name, sets[j].name));
    }
}

/// Keywords other than `NODE`, `ELEMENT`, `NSET`, `ELSET` and `INCLUDE`
/// leave the mesh as it is, and the data lines after them are skipped.
pub proof fn law_other_keywords_are_skipped(
    m: MeshModel,
    kw: Seq<char>,
    params: Seq<char>,
    line: nat,
    includes: bool,
    text: Seq<char>,
)
    requires
        !eq_ignore_ascii_case(kw, "NODE"@),
        !eq_ignore_ascii_case(kw, "ELEMENT"@),
        !eq_ignore_ascii_case(kw, "NSET"@),
        !eq_ignore_ascii_case(kw, "ELSET"@),
        !eq_ignore_ascii_case(kw, "INCLUDE"@),
    ensures
        keyword_step(m, kw, params, line, includes) == KeywordOutcome::Next(m, Target::Skip),
        data_step(m, Target::Skip, text, line) == Ok::<MeshModel, crate::mesh::ErrorModel>(m),
{
    reveal(keyword_step);
    reveal(data_step);
}

/// Without a base directory, an `*INCLUDE` line is an error.
pub proof fn law_include_needs_a_directory(
    m: MeshModel,
    kw: Seq<char>,
    params: Seq<char>,
    line: nat,
)
    requires
        eq_ignore_ascii_case(kw, "INCLUDE"@),
    ensures
        keyword_step(m, kw, params, line, false) is Fail,
{
    reveal(keyword_step);
    reveal_strlit("INCLUDE");
    reveal_strlit("NODE");
    reveal_strlit("ELEMENT");
    reveal_strlit("NSET");
    reveal_strlit("ELSET");
    assert(!eq_ignore_ascii_case(kw, "NODE"@) && !eq_ignore_ascii_case(kw, "NSET"@)
        && !eq_ignore_ascii_case(kw, "ELSET"@));
    assert(!eq_ignore_ascii_case(kw, "ELEMENT"@)) by {
        assert(kw.len() == 7);
        assert(crate::text::ascii_lower(kw[0]) == crate::text::ascii_lower("INCLUDE"@[0]));
        assert(crate::text::ascii_lower("INCLUDE"@[0]) != crate::text::ascii_lower("ELEMENT"@[0]));
    }
}

/// `GENERATE` members are `first`, `first + step`, ... : each lies between
/// `first` and `last`, and every such value that `step` reaches from
/// `first` is there.
pub proof fn law_generated_range(first: u32, last: u32, step: u32)
    requires
        step > 0,
    ensures
        forall|k: int|
            0 <= k < generated(first, last, step).len() ==> {
                &&& #[trigger] generated(first, last, step)[k] == first + k * step
                &&& first <= generated(first, last, step)[k] <= last
            },
        forall|v: u32|
            first <= v <= last && (v - first) % (step as int) == 0 ==> #[trigger] generated(
                first,
                last,
                step,
            ).contains(v),
{
    let g = generated(first, last, step);
    assert forall|k: int| 0 <= k < g.len() implies {
        &&& #[trigger] g[k] == first + k * step
        &&& first <= g[k] <= last
    } by {
        crate::data::lemma_range_bound(last - first, step as int, k);
        assert(k * step >= 0) by (nonlinear_arith)
            requires
                k >= 0,
                step > 0,
        ;
    }
    assert forall|v: u32| first <= v <= last && (v - first) % (step as int) == 0 implies #[trigger] g.contains(
        v,
    ) by {
        let d = v - first;
        let k = d / (step as int);
        assert(d == k * step && k >= 0) by (nonlinear_arith)
            requires
                d >= 0,
                step > 0,
                d % (step as int) == 0,
                k == d / (step as int),
        ;
        crate::data::lemma_range_bound(last - first, step as int, k);
        assert(g[k] == v);
    }
}

proof fn lemma_digit_char(d: nat)
    requires
        d < 10,
    ensures
        crate::number::is_digit(digit_char(d)),
        crate::number::digit_value(digit_char(d)) == d,
{
}

proof fn lemma_decimal_digits(n: nat)
    ensures
        decimal(n).len() > 0,
        all_digits(decimal(n)),
        digits_value(decimal(n)) == n,
    decreases n,
{
    if n < 10 {
        lemma_digit_char(n);
        assert(decimal(n).drop_last() =~= Seq::<char>::empty());
        assert(digits_value(Seq::<char>::empty()) == 0);
        assert(decimal(n).last() == digit_char(n));
    } else {
        lemma_decimal_digits(n / 10);
        lemma_digit_char(n % 10);
        let s = decimal(n);
        assert(s.drop_last() =~= decimal(n / 10));
        assert(s.last() == digit_char(n % 10));
        assert(digits_value(s) == digits_value(decimal(n / 10)) * 10 + (n % 10));
        assert(n == (n / 10) * 10 + n % 10);
        assert forall|i: int| 0 <= i < s.len() implies crate::number::is_digit(#[trigger] s[i]) by {
            if i < s.len() - 1 {
                assert(s[i] == decimal(n / 10)[i]);
            }
        }
    }
}

/// Decimal rendering and label parsing undo each other: the digits that
/// messages show for a label parse back to that label.
pub proof fn law_decimal_parses_back(n: u32)
    ensures
        parse_label(decimal(n as nat)) == Some(n),
{
    lemma_decimal_digits(n as nat);
    let s = decimal(n as nat);
    assert(crate::number::is_digit(s[0]));
    assert(label_body(s) == s);
}

/// The node labels of `ps`, run after run.
pub open spec fn runs_concat(ps: Seq<(u32, Seq<u32>)>) -> Seq<u32>
    decreases ps.len(),
{
    if ps.len() == 0 {
        Seq::empty()
    } else {
        runs_concat(ps.drop_last()) + ps.last().1
    }
}

proof fn lemma_runs_prefix(b: BlockModel, k: int)
    requires
        b.connectivity.len() == b.ids.len() * b.nodes_per_element,
        0 <= k <= b.ids.len(),
    ensures
        runs_concat(crate::mesh::block_elements(b).take(k)) == b.connectivity.take(
            k * b.nodes_per_element,
        ),
    decreases k,
{
    let n = b.nodes_per_element as int;
    let c = b.connectivity.len() as int;
    let l = b.ids.len() as int;
    let es = crate::mesh::block_elements(b);
    if n > 0 {
        assert(c / n == l) by (nonlinear_arith)
            requires
                n > 0,
                c == l * n,
                l >= 0,
        ;
    }
    if k == 0 {
        assert(es.take(0) =~= Seq::<(u32, Seq<u32>)>::empty());
        assert(b.connectivity.take(0) =~= Seq::<u32>::empty());
    } else {
        let j = k - 1;
        lemma_runs_prefix(b, j);
        assert(j * n + n <= c && 0 <= j * n && k * n == j * n + n) by (nonlinear_arith)
            requires
                0 <= j < l,
                k == j + 1,
                n >= 0,
                c == l * n,
        ;
        assert(es.take(k).drop_last() =~= es.take(j));
        assert(es.take(k).last() == es[j]);
        assert(b.connectivity.take(j * n) + b.connectivity.subrange(j * n, k * n)
            =~= b.connectivity.take(k * n));
    }
}

/// Splitting a full block into elements loses and reorders nothing: a block
/// whose connectivity holds `nodes_per_element` labels per element yields
/// one pair per element, the labels in order, each with that many nodes,
/// and the runs put back together are the connectivity.
pub proof fn law_full_block_elements(b: BlockModel)
    requires
        b.connectivity.len() == b.ids.len() * b.nodes_per_element,
    ensures
        crate::mesh::block_elements(b).len() == b.ids.len(),
        forall|k: int|
            0 <= k < b.ids.len() ==> (#[trigger] crate::mesh::block_elements(b)[k]).0 == b.ids[k]
                && crate::mesh::block_elements(b)[k].1.len() == b.nodes_per_element,
        crate::mesh::block_elements(b).map_values(|p: (u32, Seq<u32>)| p.0) == b.ids,
        runs_concat(crate::mesh::block_elements(b)) == b.connectivity,
{
    let n = b.nodes_per_element as int;
    let c = b.connectivity.len() as int;
    let l = b.ids.len() as int;
    let es = crate::mesh::block_elements(b);
    if n > 0 {
        assert(c / n == l) by (nonlinear_arith)
            requires
                n > 0,
                c == l * n,
                l >= 0,
        ;
    }
    assert(es.len() == l);
    assert forall|k: int| 0 <= k < l implies (#[trigger] es[k]).1.len() == b.nodes_per_element by {
        assert(k * n + n <= c && 0 <= k * n && (k + 1) * n == k * n + n) by (nonlinear_arith)
            requires
                0 <= k < l,
                n >= 0,
                c == l * n,
        ;
    }
    assert(es.map_values(|p: (u32, Seq<u32>)| p.0) =~= b.ids);
    lemma_runs_prefix(b, l);
    assert(es.take(l) =~= es);
    assert(l * n == c);
    assert(b.connectivity.take(c) =~= b.connectivity);
}

proof fn lemma_join_stops_at_keyword(lines: Seq<Seq<char>>, s: Seq<char>, k: int, j: int)
    requires
        0 <= k <= j < lines.len(),
        is_keyword_line(trim(lines[j])),
    ensures
        continue_join(lines, s, k).1 <= j,
    decreases j - k,
{
    if k < j {
        let t = trim(lines[k]);
        if is_blank(t) {
            lemma_join_stops_at_keyword(lines, s, k + 1, j);
        } else if t[0] != '*' && crate::text::ends_with_char(s + t, ',') {
            lemma_join_stops_at_keyword(lines, s + t, k + 1, j);
        }
    }
}

proof fn lemma_keyword_line_record(lines: Seq<Seq<char>>, i: int, j: int)
    requires
        0 <= i <= j < lines.len(),
        is_keyword_line(trim(lines[j])),
    ensures
        exists|q: int|
            0 <= q < records_from(lines, i).len() && (#[trigger] records_from(lines, i)[q]).line
                == j + 1 && records_from(lines, i)[q].keyword,
    decreases j - i,
{
    let t = trim(lines[i]);
    if is_blank(t) {
        lemma_keyword_line_record(lines, i + 1, j);
        assert(records_from(lines, i) == records_from(lines, i + 1));
    } else {
        let keyword = t[0] == '*';
        let first = if keyword {
            t.drop_first()
        } else {
            t
        };
        let (text, k) = logical(lines, first, i + 1);
        if crate::text::ends_with_char(first, ',') {
            lemma_continue_join_advances(lines, first, i + 1);
        }
        let rs = records_from(lines, i);
        assert(rs == seq![RecordModel { line: (i + 1) as nat, keyword, text }] + records_from(lines, k));
        if i == j {
            assert(rs[0].line == j + 1 && rs[0].keyword);
        } else {
            if crate::text::ends_with_char(first, ',') {
                lemma_join_stops_at_keyword(lines, first, i + 1, j);
            }
            lemma_keyword_line_record(lines, k, j);
            let q = choose|q: int|
                0 <= q < records_from(lines, k).len() && (#[trigger] records_from(lines, k)[q]).line
                    == j + 1 && records_from(lines, k)[q].keyword;
            assert(rs[q + 1] == records_from(lines, k)[q]);
        }
    }
}

/// A keyword line always opens a record of its own: continuation never
/// swallows it, even after a data line that ends in a comma.
pub proof fn law_keyword_lines_start_records(text: Seq<char>, j: int)
    requires
        0 <= j < lines_of(text).len(),
        is_keyword_line(trim(lines_of(text)[j])),
    ensures
        exists|q: int|
            0 <= q < records_of(text).len() && (#[trigger] records_of(text)[q]).line == j + 1
                && records_of(text)[q].keyword,
{
    lemma_keyword_line_record(lines_of(text), 0, j);
    let q = choose|q: int|
        0 <= q < records_from(lines_of(text), 0).len() && (#[trigger] records_from(
            lines_of(text),
            0,
        )[q]).line == j + 1 && records_from(lines_of(text), 0)[q].keyword;
    assert(records_of(text)[q] == records_from(lines_of(text), 0)[q]);
}

proof fn lemma_record_lines(lines: Seq<Seq<char>>, i: int)
    requires
        0 <= i,
    ensures
        forall|q: int|
            0 <= q < records_from(lines, i).len() ==> 1 <= (#[trigger] records_from(lines, i)[q]).line
                <= lines.len(),
    decreases lines.len() - i,
{
    if i < lines.len() {
        let t = trim(lines[i]);
        if is_blank(t) {
            lemma_record_lines(lines, i + 1);
            assert(records_from(lines, i) == records_from(lines, i + 1));
        } else {
            let keyword = t[0] == '*';
            let first = if keyword {
                t.drop_first()
            } else {
                t
            };
            let (text, k) = logical(lines, first, i + 1);
            if crate::text::ends_with_char(first, ',') {
                lemma_continue_join_advances(lines, first, i + 1);
            }
            if i < k && k <= lines.len() {
                lemma_record_lines(lines, k);
                let rs = records_from(lines, i);
                assert forall|q: int| 0 <= q < rs.len() implies 1 <= (#[trigger] rs[q]).line
                    <= lines.len() by {
                    if q > 0 {
                        assert(rs[q] == records_from(lines, k)[q - 1]);
                    }
                }
            }
        }
    }
}

proof fn lemma_step_error_lines(m: MeshModel, t: Target, kw: Seq<char>, params: Seq<char>, text: Seq<char>, line: nat, includes: bool)
    ensures
        keyword_step(m, kw, params, line, includes) matches KeywordOutcome::Fail(e) ==> e.line == line,
        data_step(m, t, text, line) matches Err(e) ==> e.line == line,
{
    reveal(keyword_step);
    reveal(data_step);
}

proof fn lemma_run_error_line(
    recs: Seq<RecordModel>,
    i: int,
    t: Target,
    m: MeshModel,
    includes: bool,
    last: nat,
)
    requires
        forall|q: int| 0 <= q < recs.len() ==> 1 <= (#[trigger] recs[q]).line <= last,
    ensures
        run(recs, i, t, m, includes) matches Outcome::Failed { error: e, .. } ==> 1 <= e.line <= last,
    decreases recs.len() - i,
{
    if 0 <= i < recs.len() {
        let r = recs[i];
        let (kw, params) = keyword_parts(r.text);
        lemma_step_error_lines(m, t, kw, params, r.text, r.line, includes);
        if r.keyword {
            if let KeywordOutcome::Next(m2, t2) = keyword_step(m, kw, params, r.line, includes) {
                lemma_run_error_line(recs, i + 1, t2, m2, includes, last);
            }
        } else {
            if let Ok(m2) = data_step(m, t, r.text, r.line) {
                lemma_run_error_line(recs, i + 1, t, m2, includes, last);
            }
        }
    }
}

/// A parse error names a line of the input: between 1 and the number of lines.
pub proof fn law_error_line_in_input(text: Seq<char>)
    ensures
        parse_model(text) matches Outcome::Failed { error: e, .. } ==> 1 <= e.line <= lines_of(text).len(),
{
    lemma_record_lines(lines_of(text), 0);
    lemma_run_error_line(
        records_of(text),
        0,
        Target::Skip,
        empty_mesh(),
        false,
        lines_of(text).len(),
    );
}

/// Listed labels join a set in file order, duplicates kept: a line of
/// labels appends exactly those labels to the set.
pub proof fn law_listed_labels_append_in_order(
    sets: Seq<SetModel>,
    index: int,
    fs: Seq<Seq<char>>,
    ids: Seq<u32>,
)
    requires
        0 <= index < sets.len(),
        crate::data::parse_labels(fs) == Ok::<Seq<u32>, Seq<char>>(ids),
    ensures
        member_fields(sets, index, fs) == Ok::<Seq<SetModel>, Seq<char>>(
            add_members(sets, index, ids),
        ),
    decreases fs.len(),
{
    if fs.len() == 0 {
        assert(sets[index].ids + ids =~= sets[index].ids);
        assert(add_members(sets, index, ids) =~= sets);
    } else {
        let prefix = ids.drop_last();
        let r = crate::data::parse_labels(fs.drop_last())->Ok_0;
        assert(r.push(parse_label(fs.last())->Some_0) == ids);
        assert(prefix =~= r);
        law_listed_labels_append_in_order(sets, index, fs.drop_last(), prefix);
        let s = add_members(sets, index, prefix);
        let id = ids.last();
        assert(parse_label(fs.last()) == Some(id));
        assert(add_members(s, index, seq![id]) =~= add_members(sets, index, ids)) by {
            assert(prefix + seq![id] =~= ids);
            assert(sets[index].ids + prefix + seq![id] =~= sets[index].ids + ids);
        }
    }
}

/// `a` is an initial part of `b`.
pub open spec fn is_prefix<T>(a: Seq<T>, b: Seq<T>) -> bool {
    a.len() <= b.len() && b.take(a.len() as int) == a
}

/// `b` is `a` with members added at the end; the name stays.
pub open spec fn set_extends(a: SetModel, b: SetModel) -> bool {
    b.name == a.name && is_prefix(a.ids, b.ids)
}

/// `b` is `a` with elements added at the end; once the block holds an
/// element, its node count stays.
pub open spec fn block_extends(a: BlockModel, b: BlockModel) -> bool {
    &&& b.element_type == a.element_type
    &&& is_prefix(a.ids, b.ids)
    &&& is_prefix(a.connectivity, b.connectivity)
    &&& (a.ids.len() > 0 ==> b.nodes_per_element == a.nodes_per_element)
}

pub open spec fn sets_extend(a: Seq<SetModel>, b: Seq<SetModel>) -> bool {
    a.len() <= b.len() && forall|i: int| 0 <= i < a.len() ==> set_extends(a[i], #[trigger] b[i])
}

pub open spec fn blocks_extend(a: Seq<BlockModel>, b: Seq<BlockModel>) -> bool {
    a.len() <= b.len() && forall|i: int| 0 <= i < a.len() ==> block_extends(a[i], #[trigger] b[i])
}

/// `b` holds everything `a` holds, in the same places: earlier nodes,
/// blocks, elements and set members stay, in order, and only grow.
pub open spec fn extends(a: MeshModel, b: MeshModel) -> bool {
    &&& is_prefix(a.node_ids, b.node_ids)
    &&& is_prefix(a.node_coords, b.node_coords)
    &&& blocks_extend(a.element_blocks, b.element_blocks)
    &&& sets_extend(a.node_sets, b.node_sets)
    &&& sets_extend(a.element_sets, b.element_sets)
}

proof fn lemma_prefix_trans<T>(a: Seq<T>, b: Seq<T>, c: Seq<T>)
    requires
        is_prefix(a, b),
        is_prefix(b, c),
    ensures
        is_prefix(a, c),
{
    assert(c.take(a.len() as int) =~= c.take(b.len() as int).take(a.len() as int));
}

proof fn lemma_prefix_push<T>(a: Seq<T>, x: T)
    ensures
        is_prefix(a, a.push(x)),
{
    assert(a.push(x).take(a.len() as int) =~= a);
}

proof fn lemma_prefix_add<T>(a: Seq<T>, x: Seq<T>)
    ensures
        is_prefix(a, a + x),
{
    assert((a + x).take(a.len() as int) =~= a);
}

proof fn lemma_prefix_refl<T>(a: Seq<T>)
    ensures
        is_prefix(a, a),
{
    assert(a.take(a.len() as int) =~= a);
}

proof fn lemma_extends_refl(m: MeshModel)
    ensures
        extends(m, m),
{
    lemma_prefix_refl(m.node_ids);
    lemma_prefix_refl(m.node_coords);
    assert forall|i: int| 0 <= i < m.element_blocks.len() implies block_extends(
        m.element_blocks[i],
        #[trigger] m.element_blocks[i],
    ) by {
        lemma_prefix_refl(m.element_blocks[i].ids);
        lemma_prefix_refl(m.element_blocks[i].connectivity);
    }
    assert forall|i: int| 0 <= i < m.node_sets.len() implies set_extends(
        m.node_sets[i],
        #[trigger] m.node_sets[i],
    ) by {
        lemma_prefix_refl(m.node_sets[i].ids);
    }
    assert forall|i: int| 0 <= i < m.element_sets.len() implies set_extends(
        m.element_sets[i],
        #[trigger] m.element_sets[i],
    ) by {
        lemma_prefix_refl(m.element_sets[i].ids);
    }
}

proof fn lemma_sets_extend_trans(a: Seq<SetModel>, b: Seq<SetModel>, c: Seq<SetModel>)
    requires
        sets_extend(a, b),
        sets_extend(b, c),
    ensures
        sets_extend(a, c),
{
    assert forall|i: int| 0 <= i < a.len() implies set_extends(a[i], #[trigger] c[i]) by {
        assert(set_extends(a[i], b[i]));
        assert(set_extends(b[i], c[i]));
        lemma_prefix_trans(a[i].ids, b[i].ids, c[i].ids);
    }
}

proof fn lemma_extends_trans(a: MeshModel, b: MeshModel, c: MeshModel)
    requires
        extends(a, b),
        extends(b, c),
    ensures
        extends(a, c),
{
    lemma_prefix_trans(a.node_ids, b.node_ids, c.node_ids);
    lemma_prefix_trans(a.node_coords, b.node_coords, c.node_coords);
    lemma_sets_extend_trans(a.node_sets, b.node_sets, c.node_sets);
    lemma_sets_extend_trans(a.element_sets, b.element_sets, c.element_sets);
    assert forall|i: int| 0 <= i < a.element_blocks.len() implies block_extends(
        a.element_blocks[i],
        #[trigger] c.element_blocks[i],
    ) by {
        let (x, y, z) = (a.element_blocks[i], b.element_blocks[i], c.element_blocks[i]);
        assert(block_extends(x, y));
        assert(block_extends(y, z));
        lemma_prefix_trans(x.ids, y.ids, z.ids);
        lemma_prefix_trans(x.connectivity, y.connectivity, z.connectivity);
    }
}

proof fn lemma_sets_extend_refl(a: Seq<SetModel>)
    ensures
        sets_extend(a, a),
{
    assert forall|i: int| 0 <= i < a.len() implies set_extends(a[i], #[trigger] a[i]) by {
        lemma_prefix_refl(a[i].ids);
    }
}

proof fn lemma_add_members_extend(sets: Seq<SetModel>, i: int, ids: Seq<u32>)
    requires
        0 <= i < sets.len(),
    ensures
        sets_extend(sets, add_members(sets, i, ids)),
{
    let s2 = add_members(sets, i, ids);
    assert forall|j: int| 0 <= j < sets.len() implies set_extends(sets[j], #[trigger] s2[j]) by {
        if j == i {
            lemma_prefix_add(sets[i].ids, ids);
        } else {
            lemma_prefix_refl(sets[j].ids);
        }
    }
}

proof fn lemma_add_member_extends(sets: Seq<SetModel>, s: Option<usize>, id: u32)
    requires
        s matches Some(i) ==> i < sets.len(),
    ensures
        sets_extend(sets, add_member(sets, s, id)),
{
    match s {
        Some(i) => {
            assert(add_member(sets, s, id) == add_members(sets, i as int, seq![id])) by {
                assert(sets[i as int].ids.push(id) =~= sets[i as int].ids + seq![id]);
            }
            lemma_add_members_extend(sets, i as int, seq![id]);
        },
        None => lemma_sets_extend_refl(sets),
    }
}

proof fn lemma_set_index_extends(sets: Seq<SetModel>, name: Seq<char>)
    ensures
        sets_extend(sets, set_index_of(sets, name).0),
{
    let s2 = set_index_of(sets, name).0;
    assert forall|j: int| 0 <= j < sets.len() implies set_extends(sets[j], #[trigger] s2[j]) by {
        lemma_prefix_refl(sets[j].ids);
    }
}

proof fn lemma_member_fields_extend(sets: Seq<SetModel>, index: int, fs: Seq<Seq<char>>)
    requires
        0 <= index < sets.len(),
    ensures
        member_fields(sets, index, fs) matches Ok(s) ==> sets_extend(sets, s),
    decreases fs.len(),
{
    if fs.len() == 0 {
        lemma_sets_extend_refl(sets);
    } else {
        lemma_member_fields_extend(sets, index, fs.drop_last());
        crate::data::lemma_member_fields_len(sets, index, fs.drop_last());
        if let Ok(s) = member_fields(sets, index, fs.drop_last()) {
            let f = fs.last();
            match parse_label(f) {
                Some(id) => {
                    lemma_add_members_extend(s, index, seq![id]);
                    lemma_sets_extend_trans(sets, s, add_members(s, index, seq![id]));
                },
                None => {
                    lemma_set_position(s, f);
                    if let Some(src) = set_position(s, f) {
                        lemma_add_members_extend(s, index, s[src].ids);
                        lemma_sets_extend_trans(sets, s, add_members(s, index, s[src].ids));
                    }
                },
            }
        }
    }
}

proof fn lemma_with_sets_extends(m: MeshModel, elem: bool, s: Seq<SetModel>)
    requires
        sets_extend(sets_of(m, elem), s),
    ensures
        extends(m, with_sets(m, elem, s)),
{
    lemma_extends_refl(m);
}

/// A data line only adds to the mesh.
pub proof fn law_data_step_extends(m: MeshModel, t: Target, text: Seq<char>, line: nat)
    requires
        target_ok(t, m),
    ensures
        data_step(m, t, text, line) matches Ok(m2) ==> extends(m, m2),
{
    reveal(data_step);
    lemma_extends_refl(m);
    if let Ok(m2) = data_step(m, t, text, line) {
        match t {
            Target::Skip => {},
            Target::Node { nset } => {
                if fields(text)[0].len() > 0 {
                    lemma_prefix_push(m.node_ids, m2.node_ids.last());
                    lemma_prefix_push(m.node_coords, m2.node_coords.last());
                    lemma_add_member_extends(m.node_sets, nset, m2.node_ids.last());
                }
            },
            Target::Element { block, elset } => {
                let fs = nonempty(fields(text));
                if fs.len() > 0 {
                    let id = parse_label(fs[0]).unwrap();
                    let nodes = crate::data::parse_labels(fs.drop_first())->Ok_0;
                    let b = m.element_blocks[block as int];
                    lemma_prefix_push(b.ids, id);
                    lemma_prefix_add(b.connectivity, nodes);
                    lemma_add_member_extends(m.element_sets, elset, id);
                    assert forall|i: int| 0 <= i < m.element_blocks.len() implies block_extends(
                        m.element_blocks[i],
                        #[trigger] m2.element_blocks[i],
                    ) by {
                        if i != block {
                            assert(m2.element_blocks[i] == m.element_blocks[i]);
                            lemma_prefix_refl(m.element_blocks[i].ids);
                            lemma_prefix_refl(m.element_blocks[i].connectivity);
                        }
                    }
                }
            },
            Target::Members { elem, index, generate } => {
                let sets = sets_of(m, elem);
                let fs = nonempty(fields(text));
                if generate {
                    if fs.len() > 0 {
                        let g = generated(
                            parse_label(fs[0]).unwrap(),
                            parse_label(fs[1]).unwrap(),
                            if fs.len() >= 3 {
                                parse_label(fs[2]).unwrap()
                            } else {
                                1u32
                            },
                        );
                        lemma_add_members_extend(sets, index as int, g);
                        lemma_with_sets_extends(m, elem, add_members(sets, index as int, g));
                    }
                } else {
                    lemma_member_fields_extend(sets, index as int, fs);
                    lemma_with_sets_extends(m, elem, member_fields(sets, index as int, fs)->Ok_0);
                }
            },
        }
    }
}

/// A keyword line only adds to the mesh.
pub proof fn law_keyword_step_extends(
    m: MeshModel,
    kw: Seq<char>,
    params: Seq<char>,
    line: nat,
    includes: bool,
)
    ensures
        keyword_step(m, kw, params, line, includes) matches KeywordOutcome::Next(m2, t) ==> extends(
            m,
            m2,
        ),
{
    reveal(keyword_step);
    lemma_extends_refl(m);
    let nset = crate::keyword::param(params, "NSET"@).unwrap_or(Seq::empty());
    let elset = crate::keyword::param(params, "ELSET"@).unwrap_or(Seq::empty());
    lemma_set_index_extends(m.node_sets, nset);
    lemma_set_index_extends(m.element_sets, elset);
    if let KeywordOutcome::Next(m2, t) = keyword_step(m, kw, params, line, includes) {
        if eq_ignore_ascii_case(kw, "ELEMENT"@) && !eq_ignore_ascii_case(kw, "NODE"@) {
            assert forall|i: int| 0 <= i < m.element_blocks.len() implies block_extends(
                m.element_blocks[i],
                #[trigger] m2.element_blocks[i],
            ) by {
                assert(m2.element_blocks[i] == m.element_blocks[i]);
                lemma_prefix_refl(m.element_blocks[i].ids);
                lemma_prefix_refl(m.element_blocks[i].connectivity);
            }
        }
    }
}

/// Reading records only adds to the mesh: whether reading ends, stops at an
/// include or fails, earlier nodes, coordinates, blocks, elements and set
/// members stay where they were, in order.
pub proof fn law_run_extends(recs: Seq<RecordModel>, i: int, t: Target, m: MeshModel, includes: bool)
    requires
        target_ok(t, m),
    ensures
        match run(recs, i, t, m, includes) {
            Outcome::Done(m2) => extends(m, m2),
            Outcome::Include { mesh, .. } => extends(m, mesh),
            Outcome::Failed { mesh, .. } => extends(m, mesh),
        },
    decreases recs.len() - i,
{
    lemma_extends_refl(m);
    if 0 <= i < recs.len() {
        let r = recs[i];
        if r.keyword {
            let (kw, params) = keyword_parts(r.text);
            lemma_keyword_step_target_ok(m, kw, params, r.line, includes);
            law_keyword_step_extends(m, kw, params, r.line, includes);
            if let KeywordOutcome::Next(m2, t2) = keyword_step(m, kw, params, r.line, includes) {
                law_run_extends(recs, i + 1, t2, m2, includes);
                match run(recs, i + 1, t2, m2, includes) {
                    Outcome::Done(m3) => lemma_extends_trans(m, m2, m3),
                    Outcome::Include { mesh, .. } => lemma_extends_trans(m, m2, mesh),
                    Outcome::Failed { mesh, .. } => lemma_extends_trans(m, m2, mesh),
                }
            }
        } else {
            law_data_step_extends(m, t, r.text, r.line);
            crate::data::lemma_data_step_shape(m, t, r.text, r.line);
            if let Ok(m2) = data_step(m, t, r.text, r.line) {
                law_run_extends(recs, i + 1, t, m2, includes);
                match run(recs, i + 1, t, m2, includes) {
                    Outcome::Done(m3) => lemma_extends_trans(m, m2, m3),
                    Outcome::Include { mesh, .. } => lemma_extends_trans(m, m2, mesh),
                    Outcome::Failed { mesh, .. } => lemma_extends_trans(m, m2, mesh),
                }
            }
        }
    }
}

/// No keyword record from index `i` on is an `*INCLUDE`.
pub open spec fn no_include_from(recs: Seq<RecordModel>, i: int) -> bool {
    forall|q: int|
        i <= q < recs.len() && (#[trigger] recs[q]).keyword ==> !eq_ignore_ascii_case(
            keyword_parts(recs[q].text).0,
            "INCLUDE"@,
        )
}

/// Following includes changes nothing where there is no `*INCLUDE`:
/// reading with includes followed gives what reading without them gives.
pub proof fn law_includes_matter_only_at_include(
    recs: Seq<RecordModel>,
    i: int,
    t: Target,
    m: MeshModel,
)
    requires
        no_include_from(recs, i),
    ensures
        run(recs, i, t, m, true) == run(recs, i, t, m, false),
    decreases recs.len() - i,
{
    reveal(keyword_step);
    if 0 <= i < recs.len() {
        let r = recs[i];
        if r.keyword {
            let (kw, params) = keyword_parts(r.text);
            assert(!eq_ignore_ascii_case(kw, "INCLUDE"@));
            assert(keyword_step(m, kw, params, r.line, true) == keyword_step(
                m,
                kw,
                params,
                r.line,
                false,
            ));
            if let KeywordOutcome::Next(m2, t2) = keyword_step(m, kw, params, r.line, false) {
                law_includes_matter_only_at_include(recs, i + 1, t2, m2);
            }
        } else {
            if let Ok(m2) = data_step(m, t, r.text, r.line) {
                law_includes_matter_only_at_include(recs, i + 1, t, m2);
            }
        }
    }
}

/// Reading a text with includes followed (as reading a file does) agrees
/// with `parse_str` when the text has no `*INCLUDE`.
pub proof fn law_file_reading_agrees_without_include(text: Seq<char>)
    requires
        no_include_from(records_of(text), 0),
    ensures
        run(records_of(text), 0, Target::Skip, empty_mesh(), true) == parse_model(text),
{
    law_includes_matter_only_at_include(records_of(text), 0, Target::Skip, empty_mesh());
}

/// Two record lists that differ at most in line numbers.
pub open spec fn same_records(r1: Seq<RecordModel>, r2: Seq<RecordModel>) -> bool {
    &&& r1.len() == r2.len()
    &&& forall|q: int|
        0 <= q < r1.len() ==> (#[trigger] r1[q]).keyword == r2[q].keyword && r1[q].text
            == r2[q].text
}

/// Two outcomes that differ at most in the line numbers they report.
pub open spec fn same_outcome(o1: Outcome, o2: Outcome) -> bool {
    match (o1, o2) {
        (Outcome::Done(a), Outcome::Done(b)) => a == b,
        (
            Outcome::Include { mesh: m1, input: i1, next: n1, .. },
            Outcome::Include { mesh: m2, input: i2, next: n2, .. },
        ) => m1 == m2 && i1 == i2 && n1 == n2,
        (Outcome::Failed { error: e1, mesh: m1 }, Outcome::Failed { error: e2, mesh: m2 }) => e1.msg
            == e2.msg && m1 == m2,
        _ => false,
    }
}

/// Line `k2` of the lines with a blank line inserted at `p` starts what
/// line `k1` of the lines without it starts.
pub open spec fn shifted(p: int, k1: int, k2: int) -> bool {
    ||| k2 == (if k1 <= p {
        k1
    } else {
        k1 + 1
    })
    ||| (k1 == p && k2 == p + 1)
}

proof fn lemma_join_with_blank(
    lines: Seq<Seq<char>>,
    p: int,
    l: Seq<char>,
    s: Seq<char>,
    j1: int,
    j2: int,
)
    requires
        0 <= p <= lines.len(),
        is_blank(trim(l)),
        0 <= j1 <= lines.len(),
        shifted(p, j1, j2),
    ensures
        continue_join(lines, s, j1).0 == continue_join(lines.insert(p, l), s, j2).0,
        shifted(p, continue_join(lines, s, j1).1, continue_join(lines.insert(p, l), s, j2).1),
    decreases lines.len() - j1, lines.len() + 1 - j2,
{
    let l2 = lines.insert(p, l);
    if j1 == p && j2 == p {
        assert(l2[p] == l);
        lemma_join_with_blank(lines, p, l, s, j1, p + 1);
    } else if j1 == lines.len() {
    } else {
        assert(l2[j2] == lines[j1]);
        let t = trim(lines[j1]);
        if is_blank(t) {
            lemma_join_with_blank(lines, p, l, s, j1 + 1, j2 + 1);
        } else if t[0] == '*' {
        } else if crate::text::ends_with_char(s + t, ',') {
            lemma_join_with_blank(lines, p, l, s + t, j1 + 1, j2 + 1);
        }
    }
}

proof fn lemma_records_with_blank(lines: Seq<Seq<char>>, p: int, l: Seq<char>, i1: int, i2: int)
    requires
        0 <= p <= lines.len(),
        is_blank(trim(l)),
        0 <= i1 <= lines.len(),
        shifted(p, i1, i2),
    ensures
        same_records(records_from(lines, i1), records_from(lines.insert(p, l), i2)),
    decreases lines.len() - i1, lines.len() + 1 - i2,
{
    let l2 = lines.insert(p, l);
    if i1 == p && i2 == p {
        assert(l2[p] == l);
        lemma_records_with_blank(lines, p, l, i1, p + 1);
        assert(records_from(l2, p) == records_from(l2, p + 1));
    } else if i1 == lines.len() {
    } else {
        assert(l2[i2] == lines[i1]);
        let t = trim(lines[i1]);
        if is_blank(t) {
            lemma_records_with_blank(lines, p, l, i1 + 1, i2 + 1);
            assert(records_from(lines, i1) == records_from(lines, i1 + 1));
            assert(records_from(l2, i2) == records_from(l2, i2 + 1));
        } else {
            let keyword = t[0] == '*';
            let first = if keyword {
                t.drop_first()
            } else {
                t
            };
            let (text1, k1) = logical(lines, first, i1 + 1);
            let (text2, k2) = logical(l2, first, i2 + 1);
            if crate::text::ends_with_char(first, ',') {
                lemma_join_with_blank(lines, p, l, first, i1 + 1, i2 + 1);
                lemma_continue_join_advances(lines, first, i1 + 1);
                lemma_continue_join_advances(l2, first, i2 + 1);
            }
            assert(text1 == text2);
            lemma_records_with_blank(lines, p, l, k1, k2);
            let r1 = records_from(lines, i1);
            let r2 = records_from(l2, i2);
            let rec1 = RecordModel { line: (i1 + 1) as nat, keyword, text: text1 };
            let rec2 = RecordModel { line: (i2 + 1) as nat, keyword, text: text2 };
            assert(r1 == seq![rec1] + records_from(lines, k1));
            assert(r2 == seq![rec2] + records_from(l2, k2));
            assert forall|q: int| 0 <= q < r1.len() implies (#[trigger] r1[q]).keyword
                == r2[q].keyword && r1[q].text == r2[q].text by {
                if q > 0 {
                    assert(r1[q] == records_from(lines, k1)[q - 1]);
                    assert(r2[q] == records_from(l2, k2)[q - 1]);
                }
            }
        }
    }
}

proof fn lemma_keyword_step_ignores_line(
    m: MeshModel,
    kw: Seq<char>,
    params: Seq<char>,
    l1: nat,
    l2: nat,
    includes: bool,
)
    ensures
        match (keyword_step(m, kw, params, l1, includes), keyword_step(m, kw, params, l2, includes)) {
            (KeywordOutcome::Next(a, b), KeywordOutcome::Next(c, d)) => a == c && b == d,
            (KeywordOutcome::Include(a), KeywordOutcome::Include(b)) => a == b,
            (KeywordOutcome::Fail(a), KeywordOutcome::Fail(b)) => a.msg == b.msg,
            _ => false,
        },
{
    reveal(keyword_step);
}

proof fn lemma_data_step_ignores_line(m: MeshModel, t: Target, text: Seq<char>, l1: nat, l2: nat)
    ensures
        match (data_step(m, t, text, l1), data_step(m, t, text, l2)) {
            (Ok(a), Ok(b)) => a == b,
            (Err(a), Err(b)) => a.msg == b.msg,
            _ => false,
        },
{
    reveal(data_step);
    match t {
        Target::Skip => {},
        Target::Node { nset } => {
            assert(match (node_step(m, nset, text, l1), node_step(m, nset, text, l2)) {
                (Ok(a), Ok(b)) => a == b,
                (Err(a), Err(b)) => a.msg == b.msg,
                _ => false,
            });
        },
        Target::Element { block, elset } => {
            assert(match (
                element_step(m, block, elset, text, l1),
                element_step(m, block, elset, text, l2),
            ) {
                (Ok(a), Ok(b)) => a == b,
                (Err(a), Err(b)) => a.msg == b.msg,
                _ => false,
            });
        },
        Target::Members { elem, index, generate } => {
            let sets = sets_of(m, elem);
            let fs = nonempty(fields(text));
            if generate {
                assert(match (generate_step(sets, index, fs, l1), generate_step(sets, index, fs, l2)) {
                    (Ok(a), Ok(b)) => a == b,
                    (Err(a), Err(b)) => a.msg == b.msg,
                    _ => false,
                });
            }
        },
    }
}

proof fn lemma_run_same_records(
    r1: Seq<RecordModel>,
    r2: Seq<RecordModel>,
    i: int,
    t: Target,
    m: MeshModel,
    includes: bool,
)
    requires
        same_records(r1, r2),
    ensures
        same_outcome(run(r1, i, t, m, includes), run(r2, i, t, m, includes)),
    decreases r1.len() - i,
{
    if 0 <= i < r1.len() {
        let a = r1[i];
        let b = r2[i];
        let (kw, params) = keyword_parts(a.text);
        lemma_keyword_step_ignores_line(m, kw, params, a.line, b.line, includes);
        lemma_data_step_ignores_line(m, t, a.text, a.line, b.line);
        if a.keyword {
            if let KeywordOutcome::Next(m2, t2) = keyword_step(m, kw, params, a.line, includes) {
                lemma_run_same_records(r1, r2, i + 1, t2, m2, includes);
            }
        } else {
            if let Ok(m2) = data_step(m, t, a.text, a.line) {
                lemma_run_same_records(r1, r2, i + 1, t, m2, includes);
            }
        }
    }
}

/// Blank and comment lines never change what reading does: with such a
/// line inserted anywhere (inside a continuation too), reading the records
/// from any index, with any target, into any mesh, with includes followed or
/// not, ends alike, builds the same mesh, stops at the same include and
/// resumes at the same record; only the line numbers reported may move.
pub proof fn law_blank_lines_change_nothing_in_reading(
    text: Seq<char>,
    text2: Seq<char>,
    p: int,
    l: Seq<char>,
    i: int,
    t: Target,
    m: MeshModel,
    includes: bool,
)
    requires
        0 <= p <= lines_of(text).len(),
        is_blank(trim(l)),
        lines_of(text2) == lines_of(text).insert(p, l),
    ensures
        same_records(records_of(text), records_of(text2)),
        same_outcome(run(records_of(text), i, t, m, includes), run(records_of(text2), i, t, m, includes)),
{
    lemma_records_with_blank(lines_of(text), p, l, 0, 0);
    lemma_run_same_records(records_of(text), records_of(text2), i, t, m, includes);
}

/// Blank and comment lines never change the result of `parse_str`: with
/// such a line inserted anywhere, parsing succeeds or fails alike, builds
/// the same mesh, and only error line numbers may move.
pub proof fn law_blank_lines_change_nothing(
    text: Seq<char>,
    text2: Seq<char>,
    p: int,
    l: Seq<char>,
)
    requires
        0 <= p <= lines_of(text).len(),
        is_blank(trim(l)),
        lines_of(text2) == lines_of(text).insert(p, l),
    ensures
        same_outcome(parse_model(text), parse_model(text2)),
{
    law_blank_lines_change_nothing_in_reading(text, text2, p, l, 0, Target::Skip, empty_mesh(), false);
}

/// The target that a keyword line sets points into the mesh it leaves.
pub proof fn lemma_keyword_step_target_ok(
    m: MeshModel,
    kw: Seq<char>,
    params: Seq<char>,
    line: nat,
    includes: bool,
)
    ensures
        keyword_step(m, kw, params, line, includes) matches KeywordOutcome::Next(m2, t) ==> target_ok(
            t,
            m2,
        ),
{
    reveal(keyword_step);
    lemma_set_position(m.node_sets, crate::keyword::param(params, "NSET"@).unwrap_or(Seq::empty()));
    lemma_set_position(m.element_sets, crate::keyword::param(params, "ELSET"@).unwrap_or(Seq::empty()));
}

proof fn lemma_data_step_blocks_full(m: MeshModel, t: Target, text: Seq<char>, line: nat)
    requires
        target_ok(t, m),
        blocks_full(m.element_blocks),
    ensures
        data_step(m, t, text, line) matches Ok(m2) ==> blocks_full(m2.element_blocks),
{
    reveal(data_step);
    if let Ok(m2) = data_step(m, t, text, line) {
        match t {
            Target::Element { block, elset } => {
                if nonempty(fields(text)).len() > 0 {
                    lemma_block_full_step(m.element_blocks[block as int], m2.element_blocks[block as int]);
                    assert forall|i: int| 0 <= i < m2.element_blocks.len() implies block_full(
                        #[trigger] m2.element_blocks[i],
                    ) by {
                        if i != block {
                            assert(m2.element_blocks[i] == m.element_blocks[i]);
                        }
                    }
                }
            },
            _ => {
                assert(m2.element_blocks == m.element_blocks);
            },
        }
    }
}

proof fn lemma_keyword_step_blocks_full(
    m: MeshModel,
    kw: Seq<char>,
    params: Seq<char>,
    line: nat,
    includes: bool,
)
    requires
        blocks_full(m.element_blocks),
    ensures
        keyword_step(m, kw, params, line, includes) matches KeywordOutcome::Next(m2, t) ==> blocks_full(
            m2.element_blocks,
        ),
{
    reveal(keyword_step);
    if let KeywordOutcome::Next(m2, t) = keyword_step(m, kw, params, line, includes) {
        assert forall|i: int| 0 <= i < m2.element_blocks.len() implies block_full(
            #[trigger] m2.element_blocks[i],
        ) by {
            if i < m.element_blocks.len() {
                assert(m2.element_blocks[i] == m.element_blocks[i]);
            }
        }
    }
}

/// Reading keeps every block full: the first element of a block fixes its
/// node count, and every block holds exactly that many node labels per
/// element, whether reading ends, stops at an include or fails.
pub proof fn law_run_blocks_full(recs: Seq<RecordModel>, i: int, t: Target, m: MeshModel, includes: bool)
    requires
        target_ok(t, m),
        blocks_full(m.element_blocks),
    ensures
        match run(recs, i, t, m, includes) {
            Outcome::Done(m2) => blocks_full(m2.element_blocks),
            Outcome::Include { mesh, .. } => blocks_full(mesh.element_blocks),
            Outcome::Failed { mesh, .. } => blocks_full(mesh.element_blocks),
        },
    decreases recs.len() - i,
{
    if 0 <= i < recs.len() {
        let r = recs[i];
        if r.keyword {
            let (kw, params) = keyword_parts(r.text);
            lemma_keyword_step_target_ok(m, kw, params, r.line, includes);
            lemma_keyword_step_blocks_full(m, kw, params, r.line, includes);
            if let KeywordOutcome::Next(m2, t2) = keyword_step(m, kw, params, r.line, includes) {
                law_run_blocks_full(recs, i + 1, t2, m2, includes);
            }
        } else {
            crate::data::lemma_data_step_shape(m, t, r.text, r.line);
            lemma_data_step_blocks_full(m, t, r.text, r.line);
            if let Ok(m2) = data_step(m, t, r.text, r.line) {
                law_run_blocks_full(recs, i + 1, t, m2, includes);
            }
        }
    }
}

/// Every mesh that `parse_str` returns has full blocks.
pub proof fn law_parse_blocks_full(text: Seq<char>)
    ensures
        parse_model(text) matches Outcome::Done(m) ==> blocks_full(m.element_blocks),
{
    law_run_blocks_full(records_of(text), 0, Target::Skip, empty_mesh(), false);
}

/// Reading from a target outside the first `n` blocks leaves those blocks
/// unchanged: element lines only go to blocks that the reading opens.
pub proof fn law_run_keeps_earlier_blocks(
    recs: Seq<RecordModel>,
    i: int,
    t: Target,
    m: MeshModel,
    includes: bool,
    n: int,
)
    requires
        target_ok(t, m),
        0 <= n <= m.element_blocks.len(),
        t matches Target::Element { block, .. } ==> block >= n,
        0 <= i,
        m.element_blocks.len() + recs.len() - i <= usize::MAX,
    ensures
        match run(recs, i, t, m, includes) {
            Outcome::Done(m2) => m2.element_blocks.take(n) == m.element_blocks.take(n),
            Outcome::Include { mesh, .. } => mesh.element_blocks.take(n) == m.element_blocks.take(n),
            Outcome::Failed { mesh, .. } => mesh.element_blocks.take(n) == m.element_blocks.take(n),
        },
    decreases recs.len() - i,
{
    if 0 <= i < recs.len() {
        let r = recs[i];
        if r.keyword {
            let (kw, params) = keyword_parts(r.text);
            lemma_keyword_step_target_ok(m, kw, params, r.line, includes);
            reveal(keyword_step);
            if let KeywordOutcome::Next(m2, t2) = keyword_step(m, kw, params, r.line, includes) {
                assert(m2.element_blocks.take(n) =~= m.element_blocks.take(n));
                law_run_keeps_earlier_blocks(recs, i + 1, t2, m2, includes, n);
            }
        } else {
            crate::data::lemma_data_step_shape(m, t, r.text, r.line);
            reveal(data_step);
            if let Ok(m2) = data_step(m, t, r.text, r.line) {
                assert(m2.element_blocks.take(n) =~= m.element_blocks.take(n));
                law_run_keeps_earlier_blocks(recs, i + 1, t, m2, includes, n);
            }
        }
    }
}

/// `Source::advance` leaves the blocks that the mesh held before it
/// unchanged, whatever the mesh and however reading ends.
pub proof fn law_advance_keeps_blocks(recs: Seq<RecordModel>, i: int, m: MeshModel, includes: bool)
    requires
        0 <= i,
        m.element_blocks.len() + recs.len() <= usize::MAX,
    ensures
        match run(recs, i, Target::Skip, m, includes) {
            Outcome::Done(m2) => m2.element_blocks.take(m.element_blocks.len() as int)
                == m.element_blocks,
            Outcome::Include { mesh, .. } => mesh.element_blocks.take(
                m.element_blocks.len() as int,
            ) == m.element_blocks,
            Outcome::Failed { mesh, .. } => mesh.element_blocks.take(m.element_blocks.len() as int)
                == m.element_blocks,
        },
{
    let n = m.element_blocks.len() as int;
    law_run_keeps_earlier_blocks(recs, i, Target::Skip, m, includes, n);
    assert(m.element_blocks.take(n) =~= m.element_blocks);
}

} // verus!
