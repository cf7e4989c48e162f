//! The parsed mesh, its parts, and their mathematical models.
use vstd::prelude::*;
use vstd::slice::slice_subrange;
use crate::number::{decimal, push_decimal};
use crate::text::{eq_ignore_ascii_case, eq_ignore_case, str_chars};

verus! {

/// Node or element label. Abaqus caps labels at 999 999 999, so `u32` fits.
pub type Id = u32;

/// Parse error, with the 1-based line number where it occurred.
#[derive(Debug)]
pub struct Error {
    /// 1-based line number in the offending file (0 for I/O errors).
    pub line: usize,
    /// What went wrong.
    pub msg: String,
}

/// Model of an [`Error`].
pub struct ErrorModel {
    pub line: nat,
    pub msg: Seq<char>,
}

impl View for Error {
    type V = ErrorModel;

    open spec fn view(&self) -> ErrorModel {
        ErrorModel { line: self.line as nat, msg: self.msg@ }
    }
}

/// The text `line <line>: <msg>`.
pub open spec fn error_text(e: ErrorModel) -> Seq<char> {
    "line "@ + decimal(e.line) + ": "@ + e.msg
}

/// The message of an error met inside the file `path`.
pub open spec fn message_in_file(path: Seq<char>, msg: Seq<char>) -> Seq<char> {
    path + ": "@ + msg
}

impl Error {
    /// The error as text: `line <line>: <msg>`.
    pub fn to_string(&self) -> (r: String)
        ensures
            r@ == error_text(self@),
    {
        let mut r = "line ".to_owned();
        push_decimal(&mut r, self.line as u64);
        r.append(": ");
        r.append(self.msg.as_str());
        r
    }

    /// The same error, as met inside the file `path`: the line is kept and
    /// the message is prefixed with the path.
    pub fn in_file(self, path: &str) -> (r: Error)
        ensures
            r.line == self.line,
            r.msg@ == message_in_file(path@, self.msg@),
    {
        let mut msg = path.to_owned();
        msg.append(": ");
        msg.append(self.msg.as_str());
        Error { line: self.line, msg }
    }
}

/// A named node or element set.
#[derive(Debug, PartialEq, Eq)]
pub struct NamedSet {
    /// Set name as written in the file.
    pub name: String,
    /// Member labels, in file order; duplicates are kept.
    pub ids: Vec<Id>,
}

/// Model of a [`NamedSet`].
pub struct SetModel {
    pub name: Seq<char>,
    pub ids: Seq<u32>,
}

impl View for NamedSet {
    type V = SetModel;

    open spec fn view(&self) -> SetModel {
        SetModel { name: self.name@, ids: self.ids@ }
    }
}

/// One `*ELEMENT` block: elements of a single type.
#[derive(Debug, PartialEq)]
pub struct ElementBlock {
    /// Abaqus element type name, e.g. `C3D8`.
    pub element_type: String,
    /// Element labels.
    pub ids: Vec<Id>,
    /// Flat connectivity: `nodes_per_element` node labels per element.
    pub connectivity: Vec<Id>,
    /// Nodes per element, inferred from the block's first element.
    pub nodes_per_element: usize,
}

/// Model of an [`ElementBlock`].
pub struct BlockModel {
    pub element_type: Seq<char>,
    pub ids: Seq<u32>,
    pub connectivity: Seq<u32>,
    pub nodes_per_element: nat,
}

impl View for ElementBlock {
    type V = BlockModel;

    open spec fn view(&self) -> BlockModel {
        BlockModel {
            element_type: self.element_type@,
            ids: self.ids@,
            connectivity: self.connectivity@,
            nodes_per_element: self.nodes_per_element as nat,
        }
    }
}

/// How many `(label, node labels)` pairs a block yields: one per label, as
/// long as the connectivity holds a whole run of `nodes_per_element` labels
/// for it (always, when that count is 0).
pub open spec fn element_pairs(b: BlockModel) -> nat {
    if b.nodes_per_element == 0 || b.ids.len() <= b.connectivity.len() / b.nodes_per_element {
        b.ids.len()
    } else {
        b.connectivity.len() / b.nodes_per_element
    }
}

/// The `(label, node labels)` pairs of a block: the labels in order, each
/// with the next run of `nodes_per_element` connectivity labels.
pub open spec fn block_elements(b: BlockModel) -> Seq<(u32, Seq<u32>)> {
    Seq::new(
        element_pairs(b),
        |k: int|
            (
                b.ids[k],
                b.connectivity.subrange(
                    k * b.nodes_per_element,
                    (k + 1) * b.nodes_per_element,
                ),
            ),
    )
}

proof fn lemma_chunk_bounds(k: int, s: int, n: int, len: int)
    requires
        0 <= k < n,
        s >= 1,
        n <= len / s,
        len >= 0,
    ensures
        0 <= k * s,
        k * s + s <= len,
        (k + 1) * s == k * s + s,
{
    assert(k * s >= 0) by (nonlinear_arith)
        requires
            k >= 0,
            s >= 1,
    ;
    assert((k + 1) * s == k * s + s) by (nonlinear_arith);
    assert((k + 1) * s <= n * s) by (nonlinear_arith)
        requires
            k + 1 <= n,
            s >= 1,
    ;
    assert(n * s <= (len / s) * s) by (nonlinear_arith)
        requires
            n <= len / s,
            s >= 1,
    ;
    assert((len / s) * s <= len) by (nonlinear_arith)
        requires
            s >= 1,
            len >= 0,
    ;
}

impl ElementBlock {
    /// The `(element label, its node labels)` pairs, in order.
    pub fn elements(&self) -> (r: Vec<(Id, &[Id])>)
        ensures
            r@.len() == block_elements(self@).len(),
            forall|k: int|
                0 <= k < r@.len() ==> (#[trigger] r@[k]).0 == block_elements(self@)[k].0
                    && r@[k].1@ == block_elements(self@)[k].1,
    {
        let step = self.nodes_per_element;
        let n = if step == 0 || self.ids.len() <= self.connectivity.len() / step {
            self.ids.len()
        } else {
            self.connectivity.len() / step
        };
        let conn = self.connectivity.as_slice();
        let clen = self.connectivity.len();
        let mut r: Vec<(Id, &[Id])> = Vec::new();
        let mut k: usize = 0;
        while k < n
            invariant
                k <= n,
                n == block_elements(self@).len(),
                step == self@.nodes_per_element,
                n <= self@.ids.len(),
                step > 0 ==> n <= self@.connectivity.len() / (step as nat),
                conn@ == self@.connectivity,
                clen == conn@.len(),
                r@.len() == k,
                forall|j: int|
                    0 <= j < k ==> (#[trigger] r@[j]).0 == block_elements(self@)[j].0
                        && r@[j].1@ == block_elements(self@)[j].1,
            decreases n - k,
        {
            let chunk = if step == 0 {
                assert(k * step == 0 && (k + 1) * step == 0) by (nonlinear_arith)
                    requires
                        step == 0,
                ;
                slice_subrange(conn, 0, 0)
            } else {
                proof {
                    lemma_chunk_bounds(k as int, step as int, n as int, conn@.len() as int);
                }
                assert(k * step + step <= conn@.len());
                let lo = k * step;
                slice_subrange(conn, lo, lo + step)
            };
            r.push((self.ids[k], chunk));
            k += 1;
        }
        r
    }
}

/// Parsed mesh: flat node/element arrays plus named sets.
#[derive(Debug, PartialEq)]
pub struct Mesh {
    /// Node labels, in file order.
    pub node_ids: Vec<Id>,
    /// Coordinates, parallel to `node_ids`, as the float literals written in
    /// the file; a coordinate absent in the file is `0`.
    pub node_coords: Vec<[String; 3]>,
    /// One block per `*ELEMENT` keyword.
    pub element_blocks: Vec<ElementBlock>,
    /// `*NSET` sets, plus any `NSET=` parameter on `*NODE`.
    pub node_sets: Vec<NamedSet>,
    /// `*ELSET` sets, plus any `ELSET=` parameter on `*ELEMENT`.
    pub element_sets: Vec<NamedSet>,
}

/// Model of a [`Mesh`].
pub struct MeshModel {
    pub node_ids: Seq<u32>,
    pub node_coords: Seq<Seq<Seq<char>>>,
    pub element_blocks: Seq<BlockModel>,
    pub node_sets: Seq<SetModel>,
    pub element_sets: Seq<SetModel>,
}

pub open spec fn coords_view(c: [String; 3]) -> Seq<Seq<char>> {
    c@.map_values(|s: String| s@)
}

pub open spec fn sets_view(s: Seq<NamedSet>) -> Seq<SetModel> {
    s.map_values(|x: NamedSet| x@)
}

pub open spec fn blocks_view(s: Seq<ElementBlock>) -> Seq<BlockModel> {
    s.map_values(|x: ElementBlock| x@)
}

impl View for Mesh {
    type V = MeshModel;

    open spec fn view(&self) -> MeshModel {
        MeshModel {
            node_ids: self.node_ids@,
            node_coords: self.node_coords@.map_values(|c: [String; 3]| coords_view(c)),
            element_blocks: blocks_view(self.element_blocks@),
            node_sets: sets_view(self.node_sets@),
            element_sets: sets_view(self.element_sets@),
        }
    }
}

/// The mesh with nothing in it.
pub open spec fn empty_mesh() -> MeshModel {
    MeshModel {
        node_ids: Seq::empty(),
        node_coords: Seq::empty(),
        element_blocks: Seq::empty(),
        node_sets: Seq::empty(),
        element_sets: Seq::empty(),
    }
}

/// Whether the set at `i` is named `name`, ignoring ASCII case.
pub open spec fn set_named(sets: Seq<SetModel>, i: int, name: Seq<char>) -> bool {
    eq_ignore_ascii_case(sets[i].name, name)
}

/// Index of the first set named `name` (ignoring ASCII case), if any.
pub open spec fn set_position(sets: Seq<SetModel>, name: Seq<char>) -> Option<int> {
    if exists|i: int| 0 <= i < sets.len() && #[trigger] set_named(sets, i, name) {
        Some(
            choose|i: int|
                0 <= i < sets.len() && #[trigger] set_named(sets, i, name) && forall|j: int|
                    0 <= j < i ==> !set_named(sets, j, name),
        )
    } else {
        None
    }
}

pub proof fn lemma_set_position(sets: Seq<SetModel>, name: Seq<char>)
    ensures
        match set_position(sets, name) {
            Some(i) => 0 <= i < sets.len() && set_named(sets, i, name) && forall|j: int|
                0 <= j < i ==> !#[trigger] set_named(sets, j, name),
            None => forall|i: int| 0 <= i < sets.len() ==> !#[trigger] set_named(sets, i, name),
        },
{
    if exists|i: int| 0 <= i < sets.len() && #[trigger] set_named(sets, i, name) {
        let i = choose|i: int| 0 <= i < sets.len() && #[trigger] set_named(sets, i, name);
        lemma_least_named(sets, name, i);
    }
}

proof fn lemma_least_named(sets: Seq<SetModel>, name: Seq<char>, i: int)
    requires
        0 <= i < sets.len(),
        set_named(sets, i, name),
    ensures
        exists|k: int|
            0 <= k < sets.len() && #[trigger] set_named(sets, k, name) && forall|j: int|
                0 <= j < k ==> !set_named(sets, j, name),
    decreases i,
{
    if exists|j: int| 0 <= j < i && #[trigger] set_named(sets, j, name) {
        let j = choose|j: int| 0 <= j < i && #[trigger] set_named(sets, j, name);
        lemma_least_named(sets, name, j);
    } else {
        assert(forall|j: int| 0 <= j < i ==> !set_named(sets, j, name));
    }
}

/// Total element count across the blocks.
pub open spec fn total_elements(blocks: Seq<BlockModel>) -> nat
    decreases blocks.len(),
{
    if blocks.len() == 0 {
        0
    } else {
        total_elements(blocks.drop_last()) + blocks.last().ids.len()
    }
}

/// Finds the first set named `name`, ignoring ASCII case.
pub fn find_set(sets: &Vec<NamedSet>, name: &[char]) -> (r: Option<usize>)
    ensures
        match set_position(sets_view(sets@), name@) {
            Some(i) => r matches Some(j) && j == i,
            None => r is None,
        },
        r matches Some(i) ==> i < sets@.len(),
{
    let ghost view = sets_view(sets@);
    let mut i: usize = 0;
    while i < sets.len()
        invariant
            i <= sets@.len(),
            view == sets_view(sets@),
            forall|j: int| 0 <= j < i ==> !#[trigger] set_named(view, j, name@),
        decreases sets@.len() - i,
    {
        let set_name = str_chars(sets[i].name.as_str());
        assert(view[i as int] == sets@[i as int]@);
        if eq_ignore_case(set_name.as_slice(), name) {
            proof {
                assert(set_named(view, i as int, name@));
                let k = choose|k: int|
                    0 <= k < view.len() && #[trigger] set_named(view, k, name@) && forall|j: int|
                        0 <= j < k ==> !set_named(view, j, name@);
                assert(k == i) by {
                    if k > i {
                        assert(!set_named(view, i as int, name@));
                    }
                }
            }
            return Some(i);
        }
        i += 1;
    }
    None
}

impl Mesh {
    /// The empty mesh.
    pub fn new() -> (r: Mesh)
        ensures
            r@ == empty_mesh(),
    {
        let r = Mesh {
            node_ids: Vec::new(),
            node_coords: Vec::new(),
            element_blocks: Vec::new(),
            node_sets: Vec::new(),
            element_sets: Vec::new(),
        };
        assert(r@.node_coords =~= Seq::<Seq<Seq<char>>>::empty());
        assert(r@.element_blocks =~= Seq::<BlockModel>::empty());
        assert(r@.node_sets =~= Seq::<SetModel>::empty());
        assert(r@.element_sets =~= Seq::<SetModel>::empty());
        r
    }

    /// Look up a node set by name (Abaqus names are case-insensitive).
    pub fn node_set(&self, name: &str) -> (r: Option<&NamedSet>)
        ensures
            match set_position(self@.node_sets, name@) {
                Some(i) => r == Some(&self.node_sets@[i]),
                None => r is None,
            },
    {
        let name = str_chars(name);
        proof {
            lemma_set_position(self@.node_sets, name@);
        }
        let chars = name.as_slice();
        let found = find_set(&self.node_sets, chars);
        assert(chars@ == name@);
        match found {
            Some(i) => Some(&self.node_sets[i]),
            None => None,
        }
    }

    /// Look up an element set by name (case-insensitive).
    pub fn element_set(&self, name: &str) -> (r: Option<&NamedSet>)
        ensures
            match set_position(self@.element_sets, name@) {
                Some(i) => r == Some(&self.element_sets@[i]),
                None => r is None,
            },
    {
        let name = str_chars(name);
        proof {
            lemma_set_position(self@.element_sets, name@);
        }
        match find_set(&self.element_sets, name.as_slice()) {
            Some(i) => Some(&self.element_sets[i]),
            None => None,
        }
    }

    /// Total element count across all blocks.
    pub fn element_count(&self) -> (r: usize)
        requires
            total_elements(self@.element_blocks) <= usize::MAX,
        ensures
            r == total_elements(self@.element_blocks),
    {
        let ghost blocks = self@.element_blocks;
        let mut total: usize = 0;
        let mut i: usize = 0;
        while i < self.element_blocks.len()
            invariant
                i <= blocks.len(),
                blocks == self@.element_blocks,
                blocks.len() == self.element_blocks@.len(),
                total == total_elements(blocks.take(i as int)),
                total_elements(blocks) <= usize::MAX,
            decreases blocks.len() - i,
        {
            proof {
                assert(blocks.take(i + 1).drop_last() =~= blocks.take(i as int));
                lemma_total_elements_prefix(blocks, i + 1);
            }
            total = total + self.element_blocks[i].ids.len();
            i += 1;
        }
        assert(blocks.take(i as int) =~= blocks);
        total
    }
}

impl Default for Mesh {
    fn default() -> (r: Mesh)
        ensures
            r@ == empty_mesh(),
    {
        Mesh::new()
    }
}

proof fn lemma_total_elements_prefix(blocks: Seq<BlockModel>, k: int)
    requires
        0 <= k <= blocks.len(),
    ensures
        total_elements(blocks.take(k)) <= total_elements(blocks),
    decreases blocks.len(),
{
    if k < blocks.len() {
        assert(blocks.drop_last().take(k) =~= blocks.take(k));
        lemma_total_elements_prefix(blocks.drop_last(), k);
    } else {
        assert(blocks.take(k) =~= blocks);
    }
}

} // verus!
