//! The syntax layer (red layer): identity-bearing nodes over pure trees.
//!
//! A [`SyntaxForest`] owns every materialized syntax node of one tree and
//! of the subtrees detached from it.  Node records live in an arena; a
//! [`SyntaxTree`], [`SyntaxToken`] or [`SyntaxChild`] handle names a node
//! by its arena id, so two traversals that reach the same child observe
//! the same identity.  Each node carries its own copy of the pure subtree
//! under it, a parent back-reference, its child index in the parent, and
//! — on branches — the ordered roster of its currently materialized
//! children, kept strictly sorted by child index.
//!
//! Edits rebuild the pure spine from the edited node up to the root of
//! its tree and renumber the materialized siblings, so that every handle
//! stays valid across edits.

use vstd::prelude::*;

use crate::model::{
    insert_at, lemma_child_size_lt, node_len, node_size, remove_at, replace_at, wf_branch,
    wf_node, BranchV, NodeV,
};
use crate::pure::{
    dup_child, dup_payload, dup_tree, lemma_branch_arity_bounded, lemma_child_record_view,
    lemma_payload_len_bounded, lemma_payload_view, PureChild, PureChildKind, PureTree,
};

verus! {

/// One materialized syntax node: its pure subtree, its position, and the
/// roster of its materialized children.
struct RedData {
    pure: PureChildKind,
    parent: Option<usize>,
    index: usize,
    live: Vec<usize>,
}

/// Arena of materialized syntax nodes: the root of one tree, every node
/// materialized under it, and any subtrees detached from it.  A handle
/// is meaningful only together with the forest that produced it.
pub struct SyntaxForest {
    nodes: Vec<RedData>,
}

/// Handle to a materialized syntax branch.
#[derive(Clone, Copy, Debug, PartialEq, Eq, Structural)]
pub struct SyntaxTree {
    id: usize,
}

/// Handle to a materialized syntax leaf.
#[derive(Clone, Copy, Debug, PartialEq, Eq, Structural)]
pub struct SyntaxToken {
    id: usize,
}

/// Handle to a materialized syntax node of either variant.
#[derive(Clone, Copy, Debug, PartialEq, Eq, Structural)]
pub enum SyntaxChild {
    Tree(SyntaxTree),
    Token(SyntaxToken),
}

/// Model of one syntax node record.
pub struct RedV {
    pub pure: NodeV,
    pub parent: Option<int>,
    pub index: int,
    pub live: Seq<int>,
}

/// Model of one arena record.
spec fn spec_red_view(d: RedData) -> RedV {
    RedV {
        pure: d.pure@,
        parent: match d.parent {
            Some(p) => Some(p as int),
            None => None,
        },
        index: d.index as int,
        live: d.live@.map_values(|u: usize| u as int),
    }
}

impl View for SyntaxForest {
    type V = Seq<RedV>;

    closed spec fn view(&self) -> Seq<RedV> {
        self.nodes@.map_values(|d: RedData| spec_red_view(d))
    }
}

/// The branch under a branch node.
pub open spec fn branch_of(n: NodeV) -> BranchV {
    match n {
        NodeV::Branch(b) => b,
        NodeV::Leaf(l) => arbitrary(),
    }
}

/// Structural soundness of one record of the forest `f`: its pure
/// subtree is well formed; an attached node points to an existing branch
/// whose child record at the node's index carries exactly the node's
/// pure subtree, and stands in that parent's roster; a detached or root
/// node has index 0; a leaf has no roster.
pub open spec fn node_ok(f: Seq<RedV>, n: int) -> bool {
    &&& wf_node(f[n].pure)
    &&& match f[n].parent {
        Some(p) => {
            &&& 0 <= p < f.len()
            &&& p != n
            &&& f[p].pure is Branch
            &&& 0 <= f[n].index < branch_of(f[p].pure).children.len()
            &&& branch_of(f[p].pure).children[f[n].index].node == f[n].pure
            &&& f[p].live.contains(n)
        },
        None => f[n].index == 0,
    }
    &&& (f[n].pure is Leaf ==> f[n].live.len() == 0)
}

/// Soundness of one roster: it lists existing records whose parent is
/// `p`, strictly sorted by child index.
pub open spec fn roster_ok(f: Seq<RedV>, p: int) -> bool {
    &&& forall|j: int|
        0 <= j < f[p].live.len() ==> {
            &&& 0 <= #[trigger] f[p].live[j] < f.len()
            &&& f[f[p].live[j]].parent == Some(p)
        }
    &&& forall|j: int, k: int|
        0 <= j < k < f[p].live.len() ==> f[#[trigger] f[p].live[j]].index < f[
            #[trigger] f[p].live[k]
        ].index
}

/// The structural invariant of a forest, which every public operation
/// preserves.
pub open spec fn wf_forest(f: Seq<RedV>) -> bool {
    &&& forall|n: int| 0 <= n < f.len() ==> node_ok(f, n)
    &&& forall|p: int| 0 <= p < f.len() ==> roster_ok(f, p)
}

/// `c` is a materialized child of `p` at child index `i`.
pub open spec fn is_live_child(f: Seq<RedV>, p: int, i: int, c: int) -> bool {
    &&& 0 <= c < f.len()
    &&& f[c].parent == Some(p)
    &&& f[c].index == i
}

/// The materialized child of `p` at child index `i`, if one exists.
pub open spec fn live_child_at(f: Seq<RedV>, p: int, i: int) -> Option<int> {
    if exists|c: int| is_live_child(f, p, i, c) {
        Some(choose|c: int| is_live_child(f, p, i, c))
    } else {
        None
    }
}

/// Under the invariant, at most one materialized child stands at any
/// (parent, index) pair: whatever satisfies [`is_live_child`] is the
/// one that [`live_child_at`] names.
pub proof fn lemma_live_child_unique(f: Seq<RedV>, p: int, i: int, c: int)
    requires
        wf_forest(f),
        0 <= p < f.len(),
        is_live_child(f, p, i, c),
    ensures
        live_child_at(f, p, i) == Some(c),
{
    let w = choose|x: int| is_live_child(f, p, i, x);
    assert(is_live_child(f, p, i, w));
    if w != c {
        assert(node_ok(f, w));
        assert(node_ok(f, c));
        assert(roster_ok(f, p));
        let jw = choose|j: int| 0 <= j < f[p].live.len() && f[p].live[j] == w;
        let jc = choose|j: int| 0 <= j < f[p].live.len() && f[p].live[j] == c;
        assert(f[p].live[jw] == w && 0 <= jw < f[p].live.len());
        assert(f[p].live[jc] == c && 0 <= jc < f[p].live.len());
        if jw < jc {
            assert(f[f[p].live[jw]].index < f[f[p].live[jc]].index);
        } else {
            assert(jc < jw);
            assert(f[f[p].live[jc]].index < f[f[p].live[jw]].index);
        }
    }
}

/// Total size of the pure subtrees held by the records of `f`; the
/// measure that bounds every climb towards a root.
pub open spec fn total_size(f: Seq<RedV>) -> nat
    decreases f.len(),
{
    if f.len() == 0 {
        0
    } else {
        total_size(f.drop_last()) + node_size(f.last().pure)
    }
}

/// Each record's pure subtree counts into the total.
pub proof fn lemma_size_le_total(f: Seq<RedV>, n: int)
    requires
        0 <= n < f.len(),
    ensures
        node_size(f[n].pure) <= total_size(f),
    decreases f.len(),
{
    if n == f.len() - 1 {
    } else {
        lemma_size_le_total(f.drop_last(), n);
        assert(f.drop_last()[n] == f[n]);
    }
}

/// The parent of an attached node (meaningful only when one exists).
pub open spec fn parent_of(f: Seq<RedV>, n: int) -> int {
    match f[n].parent {
        Some(p) => p,
        None => -1,
    }
}

/// An attached node's pure subtree is strictly smaller than its
/// parent's: climbing strictly grows the pure subtree.
pub proof fn lemma_parent_size_gt(f: Seq<RedV>, n: int)
    requires
        wf_forest(f),
        0 <= n < f.len(),
        f[n].parent is Some,
    ensures
        node_size(f[n].pure) < node_size(f[parent_of(f, n)].pure),
{
    let p = parent_of(f, n);
    assert(node_ok(f, n));
    lemma_child_size_lt(branch_of(f[p].pure), f[n].index);
}

/// Absolute byte offset of a node's text from the start of the text of
/// the root of its tree: 0 at a root or detached node, and the parent's
/// offset plus the child record's offset below one.
pub open spec fn abs_offset(f: Seq<RedV>, n: int) -> nat
    decreases total_size(f) - node_size(f[n].pure),
        when wf_forest(f) && 0 <= n < f.len()
    via abs_offset_decreases
{
    match f[n].parent {
        Some(p) => abs_offset(f, p) + branch_of(f[p].pure).children[f[n].index].offset,
        None => 0,
    }
}

#[via_fn]
proof fn abs_offset_decreases(f: Seq<RedV>, n: int) {
    if f[n].parent is Some {
        assert(node_ok(f, n));
        lemma_parent_size_gt(f, n);
        lemma_size_le_total(f, parent_of(f, n));
    }
}

/// The root of the tree a node belongs to: the node itself if detached
/// or a root, else the root of its parent's tree.
pub open spec fn top_of(f: Seq<RedV>, n: int) -> int
    decreases total_size(f) - node_size(f[n].pure),
        when wf_forest(f) && 0 <= n < f.len()
    via top_of_decreases
{
    match f[n].parent {
        Some(p) => top_of(f, p),
        None => n,
    }
}

#[via_fn]
proof fn top_of_decreases(f: Seq<RedV>, n: int) {
    if f[n].parent is Some {
        assert(node_ok(f, n));
        lemma_parent_size_gt(f, n);
        lemma_size_le_total(f, parent_of(f, n));
    }
}

impl SyntaxTree {
    /// The arena id this handle names.
    pub closed spec fn spec_id(self) -> int {
        self.id as int
    }
}

impl SyntaxToken {
    /// The arena id this handle names.
    pub closed spec fn spec_id(self) -> int {
        self.id as int
    }
}

impl SyntaxChild {
    /// The arena id this handle names.
    pub open spec fn spec_id(self) -> int {
        match self {
            SyntaxChild::Tree(t) => t.spec_id(),
            SyntaxChild::Token(t) => t.spec_id(),
        }
    }
}

/// The handle names a branch record of `f`.
pub open spec fn tree_ok(f: Seq<RedV>, h: SyntaxTree) -> bool {
    &&& 0 <= h.spec_id() < f.len()
    &&& f[h.spec_id()].pure is Branch
}

/// The handle names a leaf record of `f`.
pub open spec fn token_ok(f: Seq<RedV>, h: SyntaxToken) -> bool {
    &&& 0 <= h.spec_id() < f.len()
    &&& f[h.spec_id()].pure is Leaf
}

/// The handle names a record of `f` of its variant.
pub open spec fn child_handle_ok(f: Seq<RedV>, h: SyntaxChild) -> bool {
    match h {
        SyntaxChild::Tree(t) => tree_ok(f, t),
        SyntaxChild::Token(t) => token_ok(f, t),
    }
}

/// A node's text spans bytes `abs_offset(n)` to `abs_offset(n) +
/// node_len(n)` of its tree's text, so both ends stay within it.
pub proof fn lemma_abs_offset_in_top(f: Seq<RedV>, n: int)
    requires
        wf_forest(f),
        0 <= n < f.len(),
    ensures
        0 <= top_of(f, n) < f.len(),
        abs_offset(f, n) + node_len(f[n].pure) <= node_len(f[top_of(f, n)].pure),
    decreases total_size(f) - node_size(f[n].pure),
{
    if f[n].parent is Some {
        let p = parent_of(f, n);
        assert(node_ok(f, n));
        lemma_parent_size_gt(f, n);
        lemma_size_le_total(f, p);
        lemma_abs_offset_in_top(f, p);
        assert(node_ok(f, p));
        assert(wf_node(f[p].pure));
        crate::model::lemma_child_span_in_parent(branch_of(f[p].pure), f[n].index);
    }
}

/// The arena ids of a roster as mathematical integers.
spec fn ids_view(v: Seq<usize>) -> Seq<int> {
    v.map_values(|u: usize| u as int)
}

/// The id sequence of a roster, id by id.
proof fn lemma_ids_view(v: Seq<usize>)
    ensures
        ids_view(v).len() == v.len(),
        forall|i: int| 0 <= i < v.len() ==> ids_view(v)[i] == #[trigger] v[i] as int,
{
}

/// The model of a forest, record by record.
proof fn lemma_forest_view(f: &SyntaxForest)
    ensures
        f@.len() == f.nodes@.len(),
        forall|i: int| 0 <= i < f@.len() ==> f@[i] == spec_red_view(#[trigger] f.nodes@[i]),
{
}

/// Position in the roster `live` of forest `f` where a child with index
/// `i` belongs: past the leading run of entries with smaller indices.
pub open spec fn insert_pos(f: Seq<RedV>, live: Seq<int>, i: int) -> int
    decreases live.len(),
{
    if live.len() == 0 {
        0
    } else if f[live[0]].index < i {
        1 + insert_pos(f, live.subrange(1, live.len() as int), i)
    } else {
        0
    }
}

/// What [`insert_pos`] returns: a position within the roster, below
/// which every entry's index is smaller than `i`, and at which (if
/// inside) the entry's index is not.
pub proof fn lemma_insert_pos_props(f: Seq<RedV>, live: Seq<int>, i: int)
    ensures
        0 <= insert_pos(f, live, i) <= live.len(),
        forall|k: int| 0 <= k < insert_pos(f, live, i) ==> f[#[trigger] live[k]].index < i,
        insert_pos(f, live, i) < live.len() ==> f[live[insert_pos(f, live, i)]].index >= i,
    decreases live.len(),
{
    if live.len() > 0 && f[live[0]].index < i {
        let tail = live.subrange(1, live.len() as int);
        lemma_insert_pos_props(f, tail, i);
        assert forall|k: int| 0 <= k < insert_pos(f, live, i) implies f[#[trigger] live[k]].index
            < i by {
            if k > 0 {
                assert(tail[k - 1] == live[k]);
            }
        }
        if insert_pos(f, live, i) < live.len() {
            assert(tail[insert_pos(f, tail, i)] == live[insert_pos(f, live, i)]);
        }
    }
}

/// Any position with the properties of [`lemma_insert_pos_props`] is
/// [`insert_pos`] itself.
pub proof fn lemma_insert_pos_eq(f: Seq<RedV>, live: Seq<int>, i: int, pos: int)
    requires
        0 <= pos <= live.len(),
        forall|k: int| 0 <= k < pos ==> f[#[trigger] live[k]].index < i,
        pos < live.len() ==> f[live[pos]].index >= i,
    ensures
        insert_pos(f, live, i) == pos,
{
    lemma_insert_pos_props(f, live, i);
    let ip = insert_pos(f, live, i);
    if ip < pos {
        assert(f[live[ip]].index < i);
    }
    if pos < ip {
        assert(f[live[pos]].index < i);
    }
}

/// The forest after materializing child `i` of branch `p`: a fresh
/// record carrying the child's pure subtree is appended to the arena,
/// and its id enters `p`'s roster at the sorted position.
pub open spec fn materialize(f: Seq<RedV>, p: int, i: int) -> Seq<RedV> {
    let b = branch_of(f[p].pure);
    let fresh = RedV {
        pure: b.children[i].node,
        parent: Some(p),
        index: i,
        live: Seq::empty(),
    };
    let pos = insert_pos(f, f[p].live, i);
    f.update(p, RedV { live: f[p].live.insert(pos, f.len() as int), ..f[p] }).push(fresh)
}

/// Materializing a child of a branch that has none at that index yet
/// preserves the forest invariant; the fresh record is that child.
pub proof fn lemma_materialize_wf(f: Seq<RedV>, p: int, i: int)
    requires
        wf_forest(f),
        0 <= p < f.len(),
        f[p].pure is Branch,
        0 <= i < branch_of(f[p].pure).children.len(),
        live_child_at(f, p, i) is None,
    ensures
        wf_forest(materialize(f, p, i)),
        materialize(f, p, i).len() == f.len() + 1,
        is_live_child(materialize(f, p, i), p, i, f.len() as int),
        materialize(f, p, i)[f.len() as int].pure == branch_of(f[p].pure).children[i].node,
        materialize(f, p, i)[f.len() as int].live.len() == 0,
        forall|n: int|
            0 <= n < f.len() && n != p ==> materialize(f, p, i)[n] == f[n],
        materialize(f, p, i)[p].pure == f[p].pure,
        materialize(f, p, i)[p].parent == f[p].parent,
        materialize(f, p, i)[p].index == f[p].index,
{
    let b = branch_of(f[p].pure);
    let live = f[p].live;
    let pos = insert_pos(f, live, i);
    let nid = f.len() as int;
    let f1 = materialize(f, p, i);
    lemma_insert_pos_props(f, live, i);
    live.insert_ensures(pos, nid);
    assert(roster_ok(f, p));
    assert(node_ok(f, p));
    // No roster entry of p has index i, and past `pos` they are larger.
    assert forall|k: int| pos <= k < live.len() implies f[#[trigger] live[k]].index > i by {
        if f[live[pos]].index == i {
            assert(is_live_child(f, p, i, live[pos]));
            lemma_live_child_unique(f, p, i, live[pos]);
        }
        if k > pos {
            assert(f[live[pos]].index < f[live[k]].index);
            if f[live[k]].index == i {
                assert(is_live_child(f, p, i, live[k]));
                lemma_live_child_unique(f, p, i, live[k]);
            }
        }
    }
    crate::model::lemma_wf_children_index(b.children);
    assert forall|n: int| 0 <= n < f1.len() implies node_ok(f1, n) by {
        if n == nid {
            assert(f1[p].live[pos] == nid);
            assert(f1[p].live.contains(nid));
        } else {
            assert(node_ok(f, n));
            match f[n].parent {
                Some(q) => {
                    if q == p {
                        let k0 = choose|k: int| 0 <= k < live.len() && live[k] == n;
                        if k0 < pos {
                            assert(f1[p].live[k0] == n);
                        } else {
                            assert(f1[p].live[k0 + 1] == n);
                        }
                        assert(f1[p].live.contains(n));
                    }
                },
                None => {},
            }
        }
    }
    assert forall|q: int| 0 <= q < f1.len() implies roster_ok(f1, q) by {
        if q == nid {
        } else if q == p {
            let nl = f1[p].live;
            assert forall|j: int| 0 <= j < nl.len() implies 0 <= #[trigger] nl[j] < f1.len() && f1[nl[j]].parent
                == Some(p) by {
                if j < pos {
                    assert(nl[j] == live[j]);
                    assert(node_ok(f, live[j]));
                } else if j == pos {
                    assert(nl[j] == nid);
                } else {
                    assert(nl[j] == live[j - 1]);
                    assert(node_ok(f, live[j - 1]));
                }
            }
            assert forall|j: int, k: int| 0 <= j < k < nl.len() implies f1[#[trigger] nl[j]].index
                < f1[#[trigger] nl[k]].index by {
                if j < pos {
                    assert(nl[j] == live[j] && f1[nl[j]].index == f[live[j]].index);
                    assert(f[live[j]].index < i);
                }
                if j == pos {
                    assert(f1[nl[j]].index == i);
                }
                if j > pos {
                    assert(nl[j] == live[j - 1] && f1[nl[j]].index == f[live[j - 1]].index);
                }
                if k < pos {
                    assert(nl[k] == live[k] && f1[nl[k]].index == f[live[k]].index);
                    assert(f[live[j]].index < f[live[k]].index);
                }
                if k == pos {
                    assert(f1[nl[k]].index == i);
                }
                if k > pos {
                    assert(nl[k] == live[k - 1] && f1[nl[k]].index == f[live[k - 1]].index);
                    assert(f[live[k - 1]].index > i);
                }
            }
        } else {
            assert(roster_ok(f, q));
            assert forall|j: int| 0 <= j < f1[q].live.len() implies 0 <= #[trigger] f1[q].live[j]
                < f1.len() && f1[f1[q].live[j]].parent == Some(q) by {
                assert(f1[q].live == f[q].live);
                assert(0 <= f[q].live[j] < f.len());
                assert(f[f[q].live[j]].parent == Some(q));
            }
        }
    }
    assert(f1[p].live[pos] == nid);
}

impl SyntaxForest {
    /// The forest's structural invariant.
    pub open spec fn wf(&self) -> bool {
        wf_forest(self@)
    }

    /// Wraps a pure branch as the root of a fresh forest: one record,
    /// parentless, at index 0, with nothing materialized under it.
    pub fn new(root: PureTree) -> (f: SyntaxForest)
        requires
            wf_branch(root@),
        ensures
            f.wf(),
            f@.len() == 1,
            f@[0].pure == NodeV::Branch(root@),
            f@[0].parent is None,
            f@[0].index == 0,
            f@[0].live.len() == 0,
    {
        let mut nodes: Vec<RedData> = Vec::new();
        proof {
            lemma_payload_view(PureChildKind::Tree(root));
        }
        nodes.push(
            RedData { pure: PureChildKind::Tree(root), parent: None, index: 0, live: Vec::new() },
        );
        let f = SyntaxForest { nodes };
        proof {
            assert(f@[0] == spec_red_view(f.nodes@[0]));
            assert(f@[0].live =~= Seq::<int>::empty());
        }
        f
    }

    /// The root handle of the forest: the record it was created around.
    pub fn root(&self) -> (r: SyntaxTree)
        requires
            self@.len() > 0,
            self@[0].pure is Branch,
        ensures
            r.spec_id() == 0,
            tree_ok(self@, r),
    {
        SyntaxTree { id: 0 }
    }
}

/// Navigation may materialize records but never disturbs existing ones:
/// every record of the old forest keeps its pure subtree, parent and
/// child index.
pub open spec fn preserves_records(f0: Seq<RedV>, f1: Seq<RedV>) -> bool {
    &&& f1.len() >= f0.len()
    &&& forall|n: int|
        0 <= n < f0.len() ==> {
            &&& (#[trigger] f1[n]).pure == f0[n].pure
            &&& f1[n].parent == f0[n].parent
            &&& f1[n].index == f0[n].index
        }
}

/// What a child lookup leaves behind: out of range returns nothing and
/// changes nothing; a child whose record is already materialized is
/// returned under its existing id and nothing changes; otherwise the
/// child is materialized as a fresh record.  The returned handle's
/// variant follows the child's pure payload.
pub open spec fn get_child_post(
    f0: Seq<RedV>,
    f1: Seq<RedV>,
    p: int,
    i: int,
    r: Option<SyntaxChild>,
) -> bool {
    let b = branch_of(f0[p].pure);
    if i >= b.children.len() {
        &&& r is None
        &&& f1 == f0
    } else {
        match r {
            None => false,
            Some(h) => {
                &&& child_handle_ok(f1, h)
                &&& (h is Tree <==> b.children[i].node is Branch)
                &&& is_live_child(f1, p, i, h.spec_id())
                &&& f1[h.spec_id()].pure == b.children[i].node
                &&& match live_child_at(f0, p, i) {
                    Some(c) => h.spec_id() == c && f1 == f0,
                    None => h.spec_id() == f0.len() && f1 == materialize(f0, p, i),
                }
            },
        }
    }
}

/// The handle, of the matching variant, for an existing record.
fn handle_for(f: &SyntaxForest, id: usize) -> (r: SyntaxChild)
    requires
        wf_forest(f@),
        0 <= id < f@.len(),
    ensures
        child_handle_ok(f@, r),
        r.spec_id() == id,
        (r is Tree <==> f@[id as int].pure is Branch),
{
    proof {
        lemma_forest_view(f);
        lemma_payload_view(f.nodes@[id as int].pure);
    }
    match &f.nodes[id].pure {
        PureChildKind::Tree(_) => SyntaxChild::Tree(SyntaxTree { id }),
        PureChildKind::Token(_) => SyntaxChild::Token(SyntaxToken { id }),
    }
}

impl SyntaxTree {
    /// Materializes and returns the `index`-th child of this branch, or
    /// returns the already-materialized record for it: two lookups of
    /// the same child observe the same identity.  Out-of-range lookups
    /// return nothing.
    #[verifier::loop_isolation(false)]
    pub fn get_child(&self, f: &mut SyntaxForest, index: usize) -> (r: Option<SyntaxChild>)
        requires
            wf_forest(old(f)@),
            tree_ok(old(f)@, *self),
        ensures
            wf_forest(final(f)@),
            get_child_post(old(f)@, final(f)@, self.spec_id(), index as int, r),
            preserves_records(old(f)@, final(f)@),
    {
        let p = self.id;
        let ghost f0 = f@;
        proof {
            lemma_forest_view(f);
            lemma_ids_view(f.nodes@[p as int].live@);
        }
        let c_rec = match read_child_record(f, p, index) {
            Some(c) => c,
            None => {
                return None;
            },
        };
        let payload = dup_payload(&c_rec.kind);
        proof {
            lemma_child_record_view(c_rec);
        }
        let live_len = f.nodes[p].live.len();
        proof {
            assert(roster_ok(f0, p as int));
            assert forall|k: int| 0 <= k < live_len implies (#[trigger] f.nodes@[
                p as int].live@[k]) < f.nodes@.len() by {
                assert(f0[p as int].live[k] == f.nodes@[p as int].live@[k] as int);
            }
        }
        let mut j: usize = 0;
        while j < live_len && f.nodes[f.nodes[p].live[j]].index < index
            invariant
                0 <= j <= live_len,
                forall|k: int| 0 <= k < j ==> f0[#[trigger] f0[p as int].live[k]].index < index,
            decreases live_len - j,
        {
            proof {
                let cid = f0[p as int].live[j as int];
                assert(cid == f.nodes@[p as int].live@[j as int] as int);
                assert(f0[cid] == spec_red_view(f.nodes@[cid]));
            }
            j += 1;
        }
        proof {
            if j < live_len {
                let cid = f0[p as int].live[j as int];
                assert(cid == f.nodes@[p as int].live@[j as int] as int);
                assert(f0[cid] == spec_red_view(f.nodes@[cid]));
                assert(f0[cid].index >= index);
            }
        }
        let mut res_id: Option<usize> = None;
        if j < live_len {
            let cid = f.nodes[p].live[j];
            if f.nodes[cid].index == index {
                res_id = Some(cid);
            }
        }
        match res_id {
            Some(cid) => {
                proof {
                    assert(cid as int == f0[p as int].live[j as int]);
                    assert(f0[cid as int] == spec_red_view(f.nodes@[cid as int]));
                    assert(is_live_child(f0, p as int, index as int, cid as int));
                    lemma_live_child_unique(f0, p as int, index as int, cid as int);
                    assert(node_ok(f0, cid as int));
                }
                Some(handle_for(f, cid))
            },
            None => {
                proof {
                    // Nothing is materialized at this index: below `j`
                    // the roster indices are smaller, from `j` on they
                    // are larger, so a materialized child at `index`
                    // would contradict the roster's sortedness.
                    if j < live_len {
                        assert(f0[f0[p as int].live[j as int]].index != index);
                    }
                    if live_child_at(f0, p as int, index as int) is Some {
                        let c = live_child_at(f0, p as int, index as int)->Some_0;
                        assert(is_live_child(f0, p as int, index as int, c));
                        assert(node_ok(f0, c));
                        let k0 = choose|k: int|
                            0 <= k < f0[p as int].live.len() && f0[p as int].live[k] == c;
                        assert(f0[p as int].live[k0] == c);
                        if k0 > j {
                            assert(f0[f0[p as int].live[j as int]].index < f0[f0[
                                p as int].live[k0]].index);
                        }
                    }
                    assert(live_child_at(f0, p as int, index as int) is None);
                    lemma_insert_pos_eq(f0, f0[p as int].live, index as int, j as int);
                    lemma_materialize_wf(f0, p as int, index as int);
                }
                let new_id = f.nodes.len();
                let is_tree = match &payload {
                    PureChildKind::Tree(_) => true,
                    PureChildKind::Token(_) => false,
                };
                proof {
                    lemma_payload_view(payload);
                }
                f.nodes.push(
                    RedData { pure: payload, parent: Some(p), index, live: Vec::new() },
                );
                let live_ref = &mut f.nodes[p].live;
                live_ref.insert(j, new_id);
                proof {
                    lemma_forest_view(f);
                    let f1 = materialize(f0, p as int, index as int);
                    f0[p as int].live.insert_ensures(j as int, new_id as int);
                    assert forall|n: int| 0 <= n < f@.len() implies f@[n] == f1[n] by {
                        assert(f@[n] == spec_red_view(f.nodes@[n]));
                        if n == p as int {
                            lemma_ids_view(f.nodes@[p as int].live@);
                            assert(f@[n].live =~= f1[n].live);
                            assert(f@[n] == f1[n]);
                        } else if n < f0.len() {
                            assert(f.nodes@[n] == old(f).nodes@[n]);
                        } else {
                            assert(f@[n].live =~= f1[n].live);
                            assert(f@[n] == f1[n]);
                        }
                    }
                    assert(f@ =~= f1);
                }
                if is_tree {
                    Some(SyntaxChild::Tree(SyntaxTree { id: new_id }))
                } else {
                    Some(SyntaxChild::Token(SyntaxToken { id: new_id }))
                }
            },
        }
    }
}

/// Reads the child record at index `i` of the branch node `id` of the
/// forest.
fn read_child_record(f: &SyntaxForest, id: usize, i: usize) -> (r: Option<PureChild>)
    requires
        wf_forest(f@),
        0 <= id < f@.len(),
        f@[id as int].pure is Branch,
    ensures
        match r {
            Some(c) => {
                &&& i < branch_of(f@[id as int].pure).children.len()
                &&& c@ == branch_of(f@[id as int].pure).children[i as int]
            },
            None => i >= branch_of(f@[id as int].pure).children.len(),
        },
{
    proof {
        assert(f@[id as int] == spec_red_view(f.nodes@[id as int]));
    }
    match &f.nodes[id].pure {
        PureChildKind::Tree(t) => {
            proof {
                lemma_payload_view(f.nodes@[id as int].pure);
            }
            match t.get_child(i) {
                Some(c) => Some(dup_child(c)),
                None => None,
            }
        },
        PureChildKind::Token(_) => {
            proof {
                lemma_payload_view(f.nodes@[id as int].pure);
            }
            unreached()
        },
    }
}

/// Absolute offset of node `id`: climbs the parent chain summing the
/// child-record offsets along it.
#[verifier::loop_isolation(false)]
fn offset_raw(f: &SyntaxForest, id: usize) -> (r: usize)
    requires
        wf_forest(f@),
        0 <= id < f@.len(),
    ensures
        r == abs_offset(f@, id as int),
{
    proof {
        lemma_abs_offset_in_top(f@, id as int);
        let t = top_of(f@, id as int);
        assert(f@[t] == spec_red_view(f.nodes@[t]));
        lemma_payload_len_bounded(f.nodes@[t].pure);
    }
    let mut cur = id;
    let mut off: usize = 0;
    while f.nodes[cur].parent.is_some()
        invariant
            0 <= cur < f@.len(),
            off + abs_offset(f@, cur as int) == abs_offset(f@, id as int),
        decreases total_size(f@) - node_size(f@[cur as int].pure),
    {
        proof {
            assert(f@[cur as int] == spec_red_view(f.nodes@[cur as int]));
            assert(node_ok(f@, cur as int));
            lemma_parent_size_gt(f@, cur as int);
            lemma_size_le_total(f@, parent_of(f@, cur as int));
        }
        let p = f.nodes[cur].parent.unwrap();
        let i = f.nodes[cur].index;
        let rec = read_child_record(f, p, i);
        let c = rec.unwrap();
        let c_off = c.offset;
        proof {
            lemma_child_record_view(c);
            assert(abs_offset(f@, cur as int) == abs_offset(f@, p as int) + branch_of(
                f@[p as int].pure,
            ).children[f@[cur as int].index].offset);
            assert(abs_offset(f@, cur as int) == abs_offset(f@, p as int) + c_off);
        }
        off = off + c_off;
        cur = p;
    }
    proof {
        assert(f@[cur as int] == spec_red_view(f.nodes@[cur as int]));
        assert(abs_offset(f@, cur as int) == 0);
    }
    off
}

/// The kind tag of node `id`.
fn kind_raw<'a>(f: &'a SyntaxForest, id: usize) -> (r: &'static str)
    requires
        wf_forest(f@),
        0 <= id < f@.len(),
    ensures
        r@ == crate::model::node_kind(f@[id as int].pure),
{
    proof {
        lemma_forest_view(f);
    }
    f.nodes[id].pure.kind()
}

/// The text length of node `id`.
fn text_len_raw(f: &SyntaxForest, id: usize) -> (r: usize)
    requires
        wf_forest(f@),
        0 <= id < f@.len(),
    ensures
        r == node_len(f@[id as int].pure),
{
    proof {
        lemma_forest_view(f);
    }
    f.nodes[id].pure.text_len()
}

/// The parent handle of node `id`, if it is attached.
fn parent_raw(f: &SyntaxForest, id: usize) -> (r: Option<SyntaxTree>)
    requires
        wf_forest(f@),
        0 <= id < f@.len(),
    ensures
        match r {
            Some(h) => f@[id as int].parent == Some(h.spec_id()) && tree_ok(f@, h),
            None => f@[id as int].parent is None,
        },
{
    proof {
        lemma_forest_view(f);
        assert(node_ok(f@, id as int));
    }
    match f.nodes[id].parent {
        Some(p) => Some(SyntaxTree { id: p }),
        None => None,
    }
}

/// The number of children of the branch node `id`.
fn arity_raw(f: &SyntaxForest, id: usize) -> (r: usize)
    requires
        wf_forest(f@),
        0 <= id < f@.len(),
        f@[id as int].pure is Branch,
    ensures
        r == branch_of(f@[id as int].pure).children.len(),
{
    proof {
        lemma_forest_view(f);
        lemma_payload_view(f.nodes@[id as int].pure);
    }
    match &f.nodes[id].pure {
        PureChildKind::Tree(t) => t.children_len(),
        PureChildKind::Token(_) => unreached(),
    }
}

/// The next materialized-or-materializable sibling of node `id`: the
/// parent's child one index later.
fn next_sibling_raw(f: &mut SyntaxForest, id: usize) -> (r: Option<SyntaxChild>)
    requires
        wf_forest(old(f)@),
        0 <= id < old(f)@.len(),
    ensures
        wf_forest(final(f)@),
        preserves_records(old(f)@, final(f)@),
        match old(f)@[id as int].parent {
            None => r is None && final(f)@ == old(f)@,
            Some(p) => get_child_post(old(f)@, final(f)@, p, old(f)@[id as int].index + 1, r),
        },
{
    proof {
        lemma_forest_view(f);
        assert(node_ok(f@, id as int));
        if f@[id as int].parent is Some {
            lemma_branch_arity_bounded(
                f.nodes@[parent_of(f@, id as int) as int].pure,
            );
            lemma_payload_view(f.nodes@[parent_of(f@, id as int) as int].pure);
        }
    }
    match f.nodes[id].parent {
        None => None,
        Some(p) => {
            let i = f.nodes[id].index;
            let h = SyntaxTree { id: p };
            h.get_child(f, i + 1)
        },
    }
}

/// The previous sibling of node `id`: the parent's child one index
/// earlier, or nothing at index 0.
fn prev_sibling_raw(f: &mut SyntaxForest, id: usize) -> (r: Option<SyntaxChild>)
    requires
        wf_forest(old(f)@),
        0 <= id < old(f)@.len(),
    ensures
        wf_forest(final(f)@),
        preserves_records(old(f)@, final(f)@),
        match old(f)@[id as int].parent {
            None => r is None && final(f)@ == old(f)@,
            Some(p) => {
                if old(f)@[id as int].index == 0 {
                    r is None && final(f)@ == old(f)@
                } else {
                    get_child_post(old(f)@, final(f)@, p, old(f)@[id as int].index - 1, r)
                }
            },
        },
{
    proof {
        lemma_forest_view(f);
        assert(node_ok(f@, id as int));
    }
    match f.nodes[id].parent {
        None => None,
        Some(p) => {
            let i = f.nodes[id].index;
            if i == 0 {
                None
            } else {
                let h = SyntaxTree { id: p };
                h.get_child(f, i - 1)
            }
        },
    }
}

/// The first child whose kind equals `kind`, searching from position
/// `k` on: the child the find operations return.
pub open spec fn first_match_from(b: BranchV, kind: Seq<char>, k: int) -> Option<int>
    decreases b.children.len() - k,
        when 0 <= k
    via first_match_from_decreases
{
    if k >= b.children.len() {
        None
    } else if crate::model::node_kind(b.children[k].node) == kind {
        Some(k)
    } else {
        first_match_from(b, kind, k + 1)
    }
}

#[via_fn]
proof fn first_match_from_decreases(b: BranchV, kind: Seq<char>, k: int) {
}

/// The first child of `b` whose kind equals `kind`.
pub open spec fn first_match(b: BranchV, kind: Seq<char>) -> Option<int> {
    first_match_from(b, kind, 0)
}

impl SyntaxTree {
    /// The branch's kind tag.
    pub fn kind(&self, f: &SyntaxForest) -> (r: &'static str)
        requires
            wf_forest(f@),
            tree_ok(f@, *self),
        ensures
            r@ == crate::model::node_kind(f@[self.spec_id()].pure),
    {
        kind_raw(f, self.id)
    }

    /// The absolute byte offset of the branch's text within its tree.
    pub fn offset(&self, f: &SyntaxForest) -> (r: usize)
        requires
            wf_forest(f@),
            tree_ok(f@, *self),
        ensures
            r == abs_offset(f@, self.spec_id()),
    {
        offset_raw(f, self.id)
    }

    /// The total byte length of the text under the branch.
    pub fn text_len(&self, f: &SyntaxForest) -> (r: usize)
        requires
            wf_forest(f@),
            tree_ok(f@, *self),
        ensures
            r == node_len(f@[self.spec_id()].pure),
    {
        text_len_raw(f, self.id)
    }

    /// The branch's parent, if it is attached.
    pub fn parent(&self, f: &SyntaxForest) -> (r: Option<SyntaxTree>)
        requires
            wf_forest(f@),
            tree_ok(f@, *self),
        ensures
            match r {
                Some(h) => f@[self.spec_id()].parent == Some(h.spec_id()) && tree_ok(f@, h),
                None => f@[self.spec_id()].parent is None,
            },
    {
        parent_raw(f, self.id)
    }

    /// The branch's first child: the child at index 0.
    pub fn first_child(&self, f: &mut SyntaxForest) -> (r: Option<SyntaxChild>)
        requires
            wf_forest(old(f)@),
            tree_ok(old(f)@, *self),
        ensures
            wf_forest(final(f)@),
            get_child_post(old(f)@, final(f)@, self.spec_id(), 0, r),
            preserves_records(old(f)@, final(f)@),
    {
        self.get_child(f, 0)
    }

    /// The branch's next sibling.
    pub fn next_sibling(&self, f: &mut SyntaxForest) -> (r: Option<SyntaxChild>)
        requires
            wf_forest(old(f)@),
            tree_ok(old(f)@, *self),
        ensures
            wf_forest(final(f)@),
            preserves_records(old(f)@, final(f)@),
            match old(f)@[self.spec_id()].parent {
                None => r is None && final(f)@ == old(f)@,
                Some(p) => get_child_post(
                    old(f)@,
                    final(f)@,
                    p,
                    old(f)@[self.spec_id()].index + 1,
                    r,
                ),
            },
    {
        next_sibling_raw(f, self.id)
    }

    /// The branch's previous sibling.
    pub fn prev_sibling(&self, f: &mut SyntaxForest) -> (r: Option<SyntaxChild>)
        requires
            wf_forest(old(f)@),
            tree_ok(old(f)@, *self),
        ensures
            wf_forest(final(f)@),
            preserves_records(old(f)@, final(f)@),
            match old(f)@[self.spec_id()].parent {
                None => r is None && final(f)@ == old(f)@,
                Some(p) => {
                    if old(f)@[self.spec_id()].index == 0 {
                        r is None && final(f)@ == old(f)@
                    } else {
                        get_child_post(
                            old(f)@,
                            final(f)@,
                            p,
                            old(f)@[self.spec_id()].index - 1,
                            r,
                        )
                    }
                },
            },
    {
        prev_sibling_raw(f, self.id)
    }

    /// Materializes and returns all the branch's children, in order.
    #[verifier::loop_isolation(false)]
    pub fn children(&self, f: &mut SyntaxForest) -> (r: Vec<SyntaxChild>)
        requires
            wf_forest(old(f)@),
            tree_ok(old(f)@, *self),
        ensures
            wf_forest(final(f)@),
            preserves_records(old(f)@, final(f)@),
            r@.len() == branch_of(old(f)@[self.spec_id()].pure).children.len(),
            forall|k: int|
                0 <= k < r@.len() ==> {
                    let b = branch_of(old(f)@[self.spec_id()].pure);
                    &&& child_handle_ok(final(f)@, #[trigger] r@[k])
                    &&& is_live_child(final(f)@, self.spec_id(), k, r@[k].spec_id())
                    &&& final(f)@[r@[k].spec_id()].pure == b.children[k].node
                    &&& (r@[k] is Tree <==> b.children[k].node is Branch)
                },
    {
        let p = self.id;
        let ghost f0 = f@;
        let ghost b = branch_of(f0[p as int].pure);
        let n = arity_raw(f, p);
        let mut out: Vec<SyntaxChild> = Vec::new();
        let mut k: usize = 0;
        while k < n
            invariant
                0 <= k <= n,
                out@.len() == k,
                wf_forest(f@),
                preserves_records(f0, f@),
                forall|m: int|
                    0 <= m < k ==> {
                        &&& child_handle_ok(f@, #[trigger] out@[m])
                        &&& is_live_child(f@, p as int, m, out@[m].spec_id())
                        &&& f@[out@[m].spec_id()].pure == b.children[m].node
                        &&& (out@[m] is Tree <==> b.children[m].node is Branch)
                    },
            decreases n - k,
        {
            let ghost f_before = f@;
            let c = match self.get_child(f, k) {
                Some(c) => c,
                None => unreached(),
            };
            out.push(c);
            k += 1;
        }
        out
    }

    /// The first child whose kind equals `kind` — a branch, which the
    /// caller asserts by using this operation rather than `find_token`.
    pub fn find_tree(&self, f: &mut SyntaxForest, kind: &str) -> (r: Option<SyntaxTree>)
        requires
            wf_forest(old(f)@),
            tree_ok(old(f)@, *self),
            match first_match(branch_of(old(f)@[self.spec_id()].pure), kind@) {
                Some(k) => branch_of(old(f)@[self.spec_id()].pure).children[k].node is Branch,
                None => true,
            },
        ensures
            wf_forest(final(f)@),
            preserves_records(old(f)@, final(f)@),
            match first_match(branch_of(old(f)@[self.spec_id()].pure), kind@) {
                None => r is None,
                Some(k) => {
                    &&& r matches Some(h)
                    &&& tree_ok(final(f)@, h)
                    &&& is_live_child(final(f)@, self.spec_id(), k, h.spec_id())
                    &&& final(f)@[h.spec_id()].pure == branch_of(
                        old(f)@[self.spec_id()].pure,
                    ).children[k].node
                },
            },
    {
        match self.find_child(f, kind) {
            Some(SyntaxChild::Tree(t)) => Some(t),
            Some(SyntaxChild::Token(_)) => unreached(),
            None => None,
        }
    }

    /// The first child whose kind equals `kind` — a leaf, which the
    /// caller asserts by using this operation rather than `find_tree`.
    pub fn find_token(&self, f: &mut SyntaxForest, kind: &str) -> (r: Option<SyntaxToken>)
        requires
            wf_forest(old(f)@),
            tree_ok(old(f)@, *self),
            match first_match(branch_of(old(f)@[self.spec_id()].pure), kind@) {
                Some(k) => branch_of(old(f)@[self.spec_id()].pure).children[k].node is Leaf,
                None => true,
            },
        ensures
            wf_forest(final(f)@),
            preserves_records(old(f)@, final(f)@),
            match first_match(branch_of(old(f)@[self.spec_id()].pure), kind@) {
                None => r is None,
                Some(k) => {
                    &&& r matches Some(h)
                    &&& token_ok(final(f)@, h)
                    &&& is_live_child(final(f)@, self.spec_id(), k, h.spec_id())
                    &&& final(f)@[h.spec_id()].pure == branch_of(
                        old(f)@[self.spec_id()].pure,
                    ).children[k].node
                },
            },
    {
        match self.find_child(f, kind) {
            Some(SyntaxChild::Token(t)) => Some(t),
            Some(SyntaxChild::Tree(_)) => unreached(),
            None => None,
        }
    }

    /// The first child of any variant whose kind equals `kind`.
    #[verifier::loop_isolation(false)]
    fn find_child(&self, f: &mut SyntaxForest, kind: &str) -> (r: Option<SyntaxChild>)
        requires
            wf_forest(old(f)@),
            tree_ok(old(f)@, *self),
        ensures
            wf_forest(final(f)@),
            preserves_records(old(f)@, final(f)@),
            match first_match(branch_of(old(f)@[self.spec_id()].pure), kind@) {
                None => r is None,
                Some(k) => {
                    &&& r matches Some(h)
                    &&& child_handle_ok(final(f)@, h)
                    &&& is_live_child(final(f)@, self.spec_id(), k, h.spec_id())
                    &&& final(f)@[h.spec_id()].pure == branch_of(
                        old(f)@[self.spec_id()].pure,
                    ).children[k].node
                    &&& (h is Tree <==> branch_of(old(f)@[self.spec_id()].pure).children[k].node
                        is Branch)
                },
            },
    {
        let p = self.id;
        let ghost f0 = f@;
        let ghost b = branch_of(f0[p as int].pure);
        let n = arity_raw(f, p);
        let mut k: usize = 0;
        while k < n
            invariant
                0 <= k <= n,
                wf_forest(f@),
                preserves_records(f0, f@),
                first_match(b, kind@) == first_match_from(b, kind@, k as int),
            decreases n - k,
        {
            let c = match self.get_child(f, k) {
                Some(c) => c,
                None => unreached(),
            };
            let ck = kind_raw(f, child_id_exec(&c));
            if crate::pure::str_eq(ck, kind) {
                proof {
                    assert(first_match_from(b, kind@, k as int) == Some(k as int));
                }
                return Some(c);
            }
            k += 1;
        }
        proof {
            assert(first_match_from(b, kind@, n as int) is None);
        }
        None
    }
}

/// The arena id a handle names, as an executable value.
fn child_id_exec(c: &SyntaxChild) -> (r: usize)
    ensures
        r as int == c.spec_id(),
{
    match c {
        SyntaxChild::Tree(t) => t.id,
        SyntaxChild::Token(t) => t.id,
    }
}


/// The spine of a node: the node itself, then its parents up to the
/// root of its tree.
pub open spec fn chain_of(f: Seq<RedV>, n: int) -> Seq<int>
    decreases total_size(f) - node_size(f[n].pure),
        when wf_forest(f) && 0 <= n < f.len()
    via chain_of_decreases
{
    match f[n].parent {
        Some(p) => seq![n] + chain_of(f, p),
        None => seq![n],
    }
}

#[via_fn]
proof fn chain_of_decreases(f: Seq<RedV>, n: int) {
    if f[n].parent is Some {
        assert(node_ok(f, n));
        lemma_parent_size_gt(f, n);
        lemma_size_le_total(f, parent_of(f, n));
    }
}

/// Writes `np` into the record `ch[0]` and climbs `ch`, rebuilding each
/// parent's pure branch with the rebuilt child in place: the spine
/// refresh that keeps every record's pure subtree current after an
/// edit.
pub open spec fn propagate_along(f: Seq<RedV>, ch: Seq<int>, np: NodeV) -> Seq<RedV>
    decreases ch.len(),
{
    if ch.len() == 0 {
        f
    } else {
        let f1 = f.update(ch[0], RedV { pure: np, ..f[ch[0]] });
        if ch.len() == 1 {
            f1
        } else {
            propagate_along(
                f1,
                ch.subrange(1, ch.len() as int),
                NodeV::Branch(replace_at(branch_of(f[ch[1]].pure), f[ch[0]].index, np)),
            )
        }
    }
}

/// Like [`node_ok`], but for a node attached to `except`, nothing is
/// asked of the parent's child records: the state of a forest in the
/// middle of an edit, after the children of `except` have been relinked
/// and before its pure branch has been rebuilt to match.
pub open spec fn node_ok_except(f: Seq<RedV>, n: int, except: int) -> bool {
    &&& wf_node(f[n].pure)
    &&& match f[n].parent {
        Some(p) => {
            &&& 0 <= p < f.len()
            &&& p != n
            &&& f[p].pure is Branch
            &&& 0 <= f[n].index
            &&& f[p].live.contains(n)
            &&& (p != except ==> {
                &&& f[n].index < branch_of(f[p].pure).children.len()
                &&& branch_of(f[p].pure).children[f[n].index].node == f[n].pure
            })
        },
        None => f[n].index == 0,
    }
    &&& (f[n].pure is Leaf ==> f[n].live.len() == 0)
}

/// The forest invariant with the child records of `except` exempted.
pub open spec fn wf_forest_except(f: Seq<RedV>, except: int) -> bool {
    &&& forall|n: int| 0 <= n < f.len() ==> node_ok_except(f, n, except)
    &&& forall|p: int| 0 <= p < f.len() ==> roster_ok(f, p)
}

/// The children of `except` match the branch `b`: each materialized
/// child's index names a child record of `b` carrying its pure subtree.
pub open spec fn children_match(f: Seq<RedV>, except: int, b: BranchV) -> bool {
    forall|c: int|
        0 <= c < f.len() && (#[trigger] f[c]).parent == Some(except) ==> {
            &&& 0 <= f[c].index < b.children.len()
            &&& b.children[f[c].index].node == f[c].pure
        }
}

/// `ch` is the climb from `ch[0]` to the root of its tree: parent links
/// connect consecutive entries, the last is parentless, every entry is a
/// branch record, pure sizes grow and text lengths never shrink along
/// it, and no entry repeats.
pub open spec fn chain_props(f: Seq<RedV>, ch: Seq<int>) -> bool {
    &&& ch.len() >= 1
    &&& forall|k: int| 0 <= k < ch.len() ==> 0 <= #[trigger] ch[k] < f.len()
    &&& forall|k: int|
        0 <= k < ch.len() - 1 ==> f[#[trigger] ch[k]].parent == Some(ch[k + 1])
    &&& f[ch[ch.len() - 1]].parent is None
    &&& forall|k: int| 0 <= k < ch.len() ==> f[#[trigger] ch[k]].pure is Branch
    &&& forall|j: int, k: int|
        0 <= j < k < ch.len() ==> node_size(f[#[trigger] ch[j]].pure) < node_size(
            f[#[trigger] ch[k]].pure,
        )
    &&& forall|k: int|
        0 <= k < ch.len() ==> node_len(f[#[trigger] ch[k]].pure) <= node_len(
            f[ch[ch.len() - 1]].pure,
        )
}

/// In a well-formed forest the climb from a branch has all the chain
/// properties.
pub proof fn lemma_chain_props(f: Seq<RedV>, n: int)
    requires
        wf_forest(f),
        0 <= n < f.len(),
        f[n].pure is Branch,
    ensures
        chain_props(f, chain_of(f, n)),
        chain_of(f, n)[0] == n,
        chain_of(f, n)[chain_of(f, n).len() - 1] == top_of(f, n),
    decreases total_size(f) - node_size(f[n].pure),
{
    assert(node_ok(f, n));
    match f[n].parent {
        None => {
            assert(chain_of(f, n) =~= seq![n]);
        },
        Some(p) => {
            lemma_parent_size_gt(f, n);
            lemma_size_le_total(f, p);
            lemma_chain_props(f, p);
            let ch = chain_of(f, n);
            let tail = chain_of(f, p);
            assert(ch =~= seq![n] + tail);
            assert(node_ok(f, p));
            crate::model::lemma_child_span_in_parent(branch_of(f[p].pure), f[n].index);
            assert forall|k: int| 0 <= k < ch.len() implies 0 <= #[trigger] ch[k] < f.len() by {
                if k > 0 {
                    assert(ch[k] == tail[k - 1]);
                }
            }
            assert forall|k: int| 0 <= k < ch.len() - 1 implies f[#[trigger] ch[k]].parent
                == Some(ch[k + 1]) by {
                if k > 0 {
                    assert(ch[k] == tail[k - 1] && ch[k + 1] == tail[k]);
                }
            }
            assert forall|k: int| 0 <= k < ch.len() implies f[#[trigger] ch[k]].pure
                is Branch by {
                if k > 0 {
                    assert(ch[k] == tail[k - 1]);
                }
            }
            assert forall|j: int, k: int| 0 <= j < k < ch.len() implies node_size(
                f[#[trigger] ch[j]].pure,
            ) < node_size(f[#[trigger] ch[k]].pure) by {
                assert(ch[k] == tail[k - 1]);
                if j > 0 {
                    assert(ch[j] == tail[j - 1]);
                } else {
                    assert(ch[0] == n);
                    if k == 1 {
                    } else {
                        assert(node_size(f[tail[0]].pure) < node_size(f[tail[k - 1]].pure));
                    }
                }
            }
            assert forall|k: int| 0 <= k < ch.len() implies node_len(f[#[trigger] ch[k]].pure)
                <= node_len(f[ch[ch.len() - 1]].pure) by {
                if k > 0 {
                    assert(ch[k] == tail[k - 1]);
                    assert(ch[ch.len() - 1] == tail[tail.len() - 1]);
                } else {
                    assert(node_len(f[n].pure) <= node_len(f[p].pure));
                    assert(ch[ch.len() - 1] == tail[tail.len() - 1]);
                    assert(node_len(f[p].pure) <= node_len(f[tail[tail.len() - 1]].pure));
                }
            }
        },
    }
}

/// The pure branch that propagation writes into the `k`-th entry of the
/// spine: the new subtree itself at the bottom, and above it each parent
/// rebuilt with the rebuilt child in place.
pub open spec fn spine_pure(f: Seq<RedV>, ch: Seq<int>, np: NodeV, k: int) -> NodeV
    decreases k,
{
    if k <= 0 {
        np
    } else {
        NodeV::Branch(
            replace_at(branch_of(f[ch[k]].pure), f[ch[k - 1]].index, spine_pure(f, ch, np, k - 1)),
        )
    }
}

/// What propagation does, record by record: entries of the spine take
/// their [`spine_pure`] value, everything else is untouched.
pub proof fn lemma_propagate_frame(f: Seq<RedV>, ch: Seq<int>, np: NodeV)
    requires
        1 <= ch.len(),
        forall|k: int| 0 <= k < ch.len() ==> 0 <= #[trigger] ch[k] < f.len(),
        forall|j: int, k: int| 0 <= j < k < ch.len() ==> ch[j] != ch[k],
        forall|k: int| 0 <= k < ch.len() - 1 ==> f[#[trigger] ch[k]].parent == Some(ch[k + 1]),
    ensures
        propagate_along(f, ch, np).len() == f.len(),
        forall|n: int|
            0 <= n < f.len() && !ch.contains(n) ==> propagate_along(f, ch, np)[n] == f[n],
        forall|k: int|
            0 <= k < ch.len() ==> propagate_along(f, ch, np)[#[trigger] ch[k]] == (RedV {
                pure: spine_pure(f, ch, np, k),
                ..f[ch[k]]
            }),
    decreases ch.len(),
{
    let f1 = f.update(ch[0], RedV { pure: np, ..f[ch[0]] });
    if ch.len() == 1 {
        assert forall|n: int|
            0 <= n < f.len() && !ch.contains(n) implies propagate_along(f, ch, np)[n] == f[n] by {
            assert(ch[0] != n);
        }
    } else {
        let tail = ch.subrange(1, ch.len() as int);
        let np1 = NodeV::Branch(replace_at(branch_of(f[ch[1]].pure), f[ch[0]].index, np));
        assert forall|k: int| 0 <= k < tail.len() implies 0 <= #[trigger] tail[k] < f1.len() by {
            assert(tail[k] == ch[k + 1]);
        }
        assert forall|j: int, k: int| 0 <= j < k < tail.len() implies tail[j] != tail[k] by {
            assert(tail[j] == ch[j + 1] && tail[k] == ch[k + 1]);
        }
        assert forall|k: int| 0 <= k < tail.len() - 1 implies f1[#[trigger] tail[k]].parent
            == Some(tail[k + 1]) by {
            assert(tail[k] == ch[k + 1] && tail[k + 1] == ch[k + 2]);
            assert(ch[k + 1] != ch[0]);
        }
        lemma_propagate_frame(f1, tail, np1);
        // The spine values over `f1` are the spine values over `f`,
        // shifted by one position.
        assert forall|k: int| 0 <= k < tail.len() implies spine_pure(f1, tail, np1, k)
            == spine_pure(f, ch, np, k + 1) by {
            lemma_spine_pure_shift(f, f1, ch, tail, np, np1, k);
        }
        assert forall|n: int|
            0 <= n < f.len() && !ch.contains(n) implies propagate_along(f, ch, np)[n] == f[n] by {
            assert(ch[0] != n);
            assert(propagate_along(f, ch, np) == propagate_along(f1, tail, np1));
            assert forall|k: int| 0 <= k < tail.len() implies tail[k] != n by {
                assert(tail[k] == ch[k + 1]);
            }
            assert(!tail.contains(n));
        }
        assert forall|k: int|
            0 <= k < ch.len() implies propagate_along(f, ch, np)[#[trigger] ch[k]] == (RedV {
                pure: spine_pure(f, ch, np, k),
                ..f[ch[k]]
            }) by {
            if k == 0 {
                assert forall|m: int| 0 <= m < tail.len() implies tail[m] != ch[0] by {
                    assert(tail[m] == ch[m + 1]);
                }
                assert(!tail.contains(ch[0]));
                assert(propagate_along(f1, tail, np1)[ch[0]] == f1[ch[0]]);
            } else {
                assert(ch[k] == tail[k - 1]);
                assert(propagate_along(f1, tail, np1)[tail[k - 1]] == (RedV {
                    pure: spine_pure(f1, tail, np1, k - 1),
                    ..f1[tail[k - 1]]
                }));
                assert(ch[k] != ch[0]);
            }
        }
    }
}

/// Re-indexing of [`spine_pure`] under one step of propagation.
proof fn lemma_spine_pure_shift(
    f: Seq<RedV>,
    f1: Seq<RedV>,
    ch: Seq<int>,
    tail: Seq<int>,
    np: NodeV,
    np1: NodeV,
    k: int,
)
    requires
        ch.len() >= 2,
        forall|j: int| 0 <= j < ch.len() ==> 0 <= #[trigger] ch[j] < f.len(),
        forall|j: int, m: int| 0 <= j < m < ch.len() ==> ch[j] != ch[m],
        tail == ch.subrange(1, ch.len() as int),
        f1 == f.update(ch[0], RedV { pure: np, ..f[ch[0]] }),
        np1 == NodeV::Branch(replace_at(branch_of(f[ch[1]].pure), f[ch[0]].index, np)),
        0 <= k < tail.len(),
    ensures
        spine_pure(f1, tail, np1, k) == spine_pure(f, ch, np, k + 1),
    decreases k,
{
    assert(tail[k] == ch[k + 1]);
    if k == 0 {
        assert(ch[1] != ch[0]);
        assert(f1[ch[1]] == f[ch[1]]);
    } else {
        lemma_spine_pure_shift(f, f1, ch, tail, np, np1, k - 1);
        assert(tail[k - 1] == ch[k]);
        assert(ch[k + 1] != ch[0] && ch[k] != ch[0]);
        assert(f1[ch[k + 1]] == f[ch[k + 1]]);
        assert(f1[ch[k]] == f[ch[k]]);
    }
}

/// Propagation restores the forest invariant: starting from a state
/// whose only flaw is that the children of `ch[0]` do not match its pure
/// branch, writing a branch they do match along the spine yields a
/// well-formed forest.
#[verifier::rlimit(60)]
pub proof fn lemma_propagate_wf(f: Seq<RedV>, ch: Seq<int>, np: NodeV)
    requires
        chain_props(f, ch),
        wf_forest_except(f, ch[0]),
        np is Branch,
        wf_node(np),
        children_match(f, ch[0], branch_of(np)),
    ensures
        wf_forest(propagate_along(f, ch, np)),
        propagate_along(f, ch, np).len() == f.len(),
        propagate_along(f, ch, np)[ch[0]] == (RedV { pure: np, ..f[ch[0]] }),
        forall|n: int|
            0 <= n < f.len() && !ch.contains(n) ==> propagate_along(f, ch, np)[n] == f[n],
        forall|n: int|
            0 <= n < f.len() ==> {
                &&& (#[trigger] propagate_along(f, ch, np)[n]).parent == f[n].parent
                &&& propagate_along(f, ch, np)[n].index == f[n].index
                &&& propagate_along(f, ch, np)[n].live == f[n].live
                &&& (propagate_along(f, ch, np)[n].pure is Branch <==> f[n].pure is Branch)
            },
    decreases ch.len(),
{
    assert forall|j: int, k: int| 0 <= j < k < ch.len() implies ch[j] != ch[k] by {}
    lemma_propagate_frame(f, ch, np);
    let r = propagate_along(f, ch, np);
    assert forall|k: int| 0 <= k < ch.len() implies {
        &&& wf_node(#[trigger] spine_pure(f, ch, np, k))
        &&& spine_pure(f, ch, np, k) is Branch
        &&& (k > 0 ==> branch_of(spine_pure(f, ch, np, k)).children.len() == branch_of(
            f[ch[k]].pure,
        ).children.len())
        &&& forall|c: int|
            0 <= c < f.len() && (#[trigger] f[c]).parent == Some(ch[k]) && (k > 0 ==> c != ch[k
                - 1]) ==> {
                &&& 0 <= f[c].index < branch_of(spine_pure(f, ch, np, k)).children.len()
                &&& branch_of(spine_pure(f, ch, np, k)).children[f[c].index].node == f[c].pure
            }
        &&& (k > 0 ==> branch_of(spine_pure(f, ch, np, k)).children[f[ch[k - 1]].index].node
            == spine_pure(f, ch, np, k - 1))
    } by {
        lemma_spine_pure_wf(f, ch, np, k);
    }
    assert forall|n: int| 0 <= n < r.len() implies node_ok(r, n) by {
        assert(node_ok_except(f, n, ch[0]));
        if ch.contains(n) {
            let k = choose|k: int| 0 <= k < ch.len() && ch[k] == n;
            assert(r[n] == (RedV { pure: spine_pure(f, ch, np, k), ..f[n] }));
            match f[n].parent {
                Some(q) => {
                    assert(k < ch.len() - 1);
                    assert(q == ch[k + 1]);
                    assert(r[q] == (RedV { pure: spine_pure(f, ch, np, k + 1), ..f[q] }));
                    assert(branch_of(spine_pure(f, ch, np, k + 1)).children[f[n].index].node
                        == spine_pure(f, ch, np, k));
                },
                None => {},
            }
        } else {
            assert(r[n] == f[n]);
            match f[n].parent {
                Some(q) => {
                    if ch.contains(q) {
                        let k = choose|k: int| 0 <= k < ch.len() && ch[k] == q;
                        assert(r[q] == (RedV { pure: spine_pure(f, ch, np, k), ..f[q] }));
                        if k > 0 {
                            assert(ch[k - 1] != n);
                        }
                    } else {
                        assert(r[q] == f[q]);
                        assert(q != ch[0]);
                    }
                },
                None => {},
            }
        }
    }
    assert forall|p: int| 0 <= p < r.len() implies roster_ok(r, p) by {
        assert(roster_ok(f, p));
        assert(r[p].live == f[p].live);
        assert forall|j: int| 0 <= j < r[p].live.len() implies 0 <= #[trigger] r[p].live[j]
            < r.len() && r[r[p].live[j]].parent == Some(p) by {
            assert(0 <= f[p].live[j] < f.len());
            assert(f[f[p].live[j]].parent == Some(p));
        }
        assert forall|j: int, k: int| 0 <= j < k < r[p].live.len() implies r[#[trigger] r[
            p].live[j]].index < r[#[trigger] r[p].live[k]].index by {
            assert(f[f[p].live[j]].index < f[f[p].live[k]].index);
        }
    }
}

/// Two distinct materialized children of one parent never share a child
/// index, because the parent's roster lists both and is strictly sorted.
proof fn lemma_no_shared_index(f: Seq<RedV>, p: int, c1: int, c2: int)
    requires
        0 <= p < f.len(),
        roster_ok(f, p),
        f[p].live.contains(c1),
        f[p].live.contains(c2),
        c1 != c2,
        0 <= c1 < f.len(),
        0 <= c2 < f.len(),
    ensures
        f[c1].index != f[c2].index,
{
    let j1 = choose|j: int| 0 <= j < f[p].live.len() && f[p].live[j] == c1;
    let j2 = choose|j: int| 0 <= j < f[p].live.len() && f[p].live[j] == c2;
    assert(f[p].live[j1] == c1 && 0 <= j1 < f[p].live.len());
    assert(f[p].live[j2] == c2 && 0 <= j2 < f[p].live.len());
    if j1 < j2 {
        assert(f[f[p].live[j1]].index < f[f[p].live[j2]].index);
    } else {
        assert(j2 < j1);
        assert(f[f[p].live[j2]].index < f[f[p].live[j1]].index);
    }
}

/// Along the spine, every rebuilt branch is well formed, keeps its
/// arity, carries the previous spine value at the spine child's index,
/// and is matched by every other materialized child of its entry.
proof fn lemma_spine_pure_wf(f: Seq<RedV>, ch: Seq<int>, np: NodeV, k: int)
    requires
        chain_props(f, ch),
        wf_forest_except(f, ch[0]),
        np is Branch,
        wf_node(np),
        children_match(f, ch[0], branch_of(np)),
        0 <= k < ch.len(),
    ensures
        wf_node(spine_pure(f, ch, np, k)),
        spine_pure(f, ch, np, k) is Branch,
        k > 0 ==> branch_of(spine_pure(f, ch, np, k)).children.len() == branch_of(
            f[ch[k]].pure,
        ).children.len(),
        forall|c: int|
            0 <= c < f.len() && (#[trigger] f[c]).parent == Some(ch[k]) && (k > 0 ==> c != ch[k
                - 1]) ==> {
                &&& 0 <= f[c].index < branch_of(spine_pure(f, ch, np, k)).children.len()
                &&& branch_of(spine_pure(f, ch, np, k)).children[f[c].index].node == f[c].pure
            },
        k > 0 ==> branch_of(spine_pure(f, ch, np, k)).children[f[ch[k - 1]].index].node
            == spine_pure(f, ch, np, k - 1),
    decreases k,
{
    if k == 0 {
    } else {
        lemma_spine_pure_wf(f, ch, np, k - 1);
        let b = branch_of(f[ch[k]].pure);
        let i = f[ch[k - 1]].index;
        assert(node_ok_except(f, ch[k - 1], ch[0]));
        // ch[k] is never the exempted bottom entry here, so the child
        // record of the spine child is intact in the old branch.
        assert(ch[k] != ch[0]);
        assert(0 <= i < b.children.len() && b.children[i].node == f[ch[k - 1]].pure);
        assert(node_ok_except(f, ch[k], ch[0]));
        assert(wf_node(f[ch[k]].pure));
        crate::model::lemma_replace_at_wf(b, i, spine_pure(f, ch, np, k - 1));
        let nb = replace_at(b, i, spine_pure(f, ch, np, k - 1));
        assert forall|c: int|
            0 <= c < f.len() && (#[trigger] f[c]).parent == Some(ch[k]) && c != ch[k
                - 1] implies {
            &&& 0 <= f[c].index < nb.children.len()
            &&& nb.children[f[c].index].node == f[c].pure
        } by {
            assert(node_ok_except(f, c, ch[0]));
            assert(0 <= f[c].index < b.children.len() && b.children[f[c].index].node
                == f[c].pure);
            assert(f[ch[k - 1]].parent == Some(ch[k]));
            lemma_no_shared_index(f, ch[k], c, ch[k - 1]);
            assert(nb.children[f[c].index].node == b.children[f[c].index].node);
        }
    }
}

/// Writes a new pure branch into one record, leaving all else alone.
fn store_pure(f: &mut SyntaxForest, id: usize, t: PureTree)
    requires
        id < old(f)@.len(),
    ensures
        final(f)@ == old(f)@.update(
            id as int,
            RedV { pure: NodeV::Branch(t@), ..old(f)@[id as int] },
        ),
{
    proof {
        lemma_forest_view(f);
        lemma_payload_view(PureChildKind::Tree(t));
    }
    let ghost before = f@;
    f.nodes[id].pure = PureChildKind::Tree(t);
    proof {
        lemma_forest_view(f);
        let target = before.update(id as int, RedV { pure: NodeV::Branch(t@), ..before[id as int] });
        assert forall|n: int| 0 <= n < f@.len() implies f@[n] == target[n] by {
            if n != id {
                assert(f.nodes@[n] == old(f).nodes@[n]);
            }
        }
        assert(f@ =~= target);
    }
}

/// Extends [`lemma_spine_pure_wf`] with the length balance along the
/// spine: every rebuilt branch differs in text length from the branch
/// it replaces by the same amount, the difference between the new and
/// old subtree at the bottom.
proof fn lemma_spine_len(f: Seq<RedV>, ch: Seq<int>, np: NodeV, k: int)
    requires
        chain_props(f, ch),
        wf_forest_except(f, ch[0]),
        np is Branch,
        wf_node(np),
        children_match(f, ch[0], branch_of(np)),
        0 <= k < ch.len(),
    ensures
        node_len(spine_pure(f, ch, np, k)) + node_len(f[ch[0]].pure) == node_len(f[ch[k]].pure)
            + node_len(np),
    decreases k,
{
    if k == 0 {
    } else {
        lemma_spine_len(f, ch, np, k - 1);
        lemma_spine_pure_wf(f, ch, np, k - 1);
        let b = branch_of(f[ch[k]].pure);
        let i = f[ch[k - 1]].index;
        assert(node_ok_except(f, ch[k - 1], ch[0]));
        assert(node_ok_except(f, ch[k], ch[0]));
        assert(0 <= i < b.children.len() && b.children[i].node == f[ch[k - 1]].pure);
        crate::model::lemma_child_span_in_parent(b, i);
    }
}

/// One step of the spine refresh, at the level of forest models:
/// writing the `k`-th spine value into the `k`-th entry keeps the
/// already-written prefix and everything off the spine untouched.
#[verifier::rlimit(60)]
proof fn lemma_replace_pure_step(
    f0: Seq<RedV>,
    fprev: Seq<RedV>,
    fnext: Seq<RedV>,
    ch: Seq<int>,
    np: NodeV,
    k: int,
)
    requires
        chain_props(f0, ch),
        1 <= k < ch.len(),
        fprev.len() == f0.len(),
        fnext == fprev.update(
            ch[k],
            RedV { pure: spine_pure(f0, ch, np, k), ..fprev[ch[k]] },
        ),
        forall|n: int|
            0 <= n < f0.len() && !ch.subrange(0, k).contains(n) ==> fprev[n] == f0[n],
        forall|j: int|
            0 <= j < k ==> fprev[#[trigger] ch[j]] == (RedV {
                pure: spine_pure(f0, ch, np, j),
                ..f0[ch[j]]
            }),
    ensures
        forall|n: int|
            0 <= n < f0.len() && !ch.subrange(0, k + 1).contains(n) ==> fnext[n] == f0[n],
        forall|j: int|
            0 <= j <= k ==> fnext[#[trigger] ch[j]] == (RedV {
                pure: spine_pure(f0, ch, np, j),
                ..f0[ch[j]]
            }),
{
    assert forall|j: int, m: int| 0 <= j < m < ch.len() implies ch[j] != ch[m] by {
        assert(node_size(f0[ch[j]].pure) < node_size(f0[ch[m]].pure));
    }
    assert forall|m: int| 0 <= m < k implies #[trigger] ch.subrange(0, k)[m] == ch[m] by {}
    assert(!ch.subrange(0, k).contains(ch[k]));
    assert(fprev[ch[k]] == f0[ch[k]]);
    assert forall|n: int|
        0 <= n < f0.len() && !ch.subrange(0, k + 1).contains(n) implies fnext[n] == f0[n] by {
        assert forall|m: int| 0 <= m < k + 1 implies #[trigger] ch.subrange(0, k + 1)[m]
            == ch[m] by {}
        assert(!ch.subrange(0, k).contains(n));
        if n == ch[k] {
            assert(ch.subrange(0, k + 1)[k] == n);
            assert(ch.subrange(0, k + 1).contains(n));
        }
        assert(n != ch[k]);
    }
    assert forall|j: int|
        0 <= j <= k implies fnext[#[trigger] ch[j]] == (RedV {
            pure: spine_pure(f0, ch, np, j),
            ..f0[ch[j]]
        }) by {
        if j < k {
            assert(ch[j] != ch[k]);
        }
    }
}

/// Rebuilds the pure spine: writes `new_pure` into `start`, then climbs
/// to the root of `start`'s tree replacing one child per ancestor, so
/// that every record on the spine again holds the pure subtree now
/// rooted at it.  `ch` is the spine, computed while the forest was
/// whole.
#[verifier::loop_isolation(false)]
#[verifier::rlimit(100)]
fn replace_pure(f: &mut SyntaxForest, start: usize, new_pure: PureTree, Ghost(ch): Ghost<Seq<int>>)
    requires
        chain_props(old(f)@, ch),
        ch[0] == start as int,
        0 <= start < old(f)@.len(),
        wf_forest_except(old(f)@, start as int),
        wf_branch(new_pure@),
        children_match(old(f)@, start as int, new_pure@),
        node_len(old(f)@[ch[ch.len() - 1]].pure) + new_pure@.text_len <= usize::MAX + node_len(
            old(f)@[start as int].pure,
        ),
    ensures
        final(f)@ == propagate_along(old(f)@, ch, NodeV::Branch(new_pure@)),
        wf_forest(final(f)@),
        final(f)@.len() == old(f)@.len(),
{
    let ghost f0 = f@;
    let ghost np = NodeV::Branch(new_pure@);
    let mut node = start;
    let mut pure = new_pure;
    let ghost mut k: int = 0;
    let stored = dup_tree(&pure);
    store_pure(f, node, stored);
    proof {
        assert(ch.subrange(0, 1)[0] == ch[0]);
        assert forall|n: int|
            0 <= n < f0.len() && !ch.subrange(0, 1).contains(n) implies f@[n] == f0[n] by {
            assert(n != ch[0]);
        }
    }
    while f.nodes[node].parent.is_some()
        invariant
            0 <= k < ch.len(),
            node as int == ch[k],
            node < f@.len(),
            f@.len() == f0.len(),
            NodeV::Branch(pure@) == spine_pure(f0, ch, np, k),
            forall|n: int|
                0 <= n < f0.len() && !ch.subrange(0, k + 1).contains(n) ==> f@[n] == f0[n],
            forall|j: int|
                0 <= j <= k ==> f@[#[trigger] ch[j]] == (RedV {
                    pure: spine_pure(f0, ch, np, j),
                    ..f0[ch[j]]
                }),
        decreases ch.len() - k,
    {
        proof {
            lemma_forest_view(f);
            assert(f@[ch[k]].parent == f0[ch[k]].parent);
            if k == ch.len() - 1 {
                assert(f0[ch[k]].parent is None);
            }
            assert(k < ch.len() - 1);
            assert(f0[ch[k]].parent == Some(ch[k + 1]));
            assert forall|m: int| 0 <= m <= k implies #[trigger] ch[m] != ch[k + 1] by {}
            assert forall|m: int| 0 <= m < k + 1 implies #[trigger] ch.subrange(0, k + 1)[m]
                == ch[m] by {}
            assert(!ch.subrange(0, k + 1).contains(ch[k + 1]));
            assert(f@[ch[k + 1]] == f0[ch[k + 1]]);
            lemma_spine_pure_wf(f0, ch, np, k);
            lemma_spine_len(f0, ch, np, k);
            assert(node_ok_except(f0, ch[k], ch[0] as int));
            assert(node_ok_except(f0, ch[k + 1], ch[0] as int));
            assert(0 <= f0[ch[k]].index < branch_of(f0[ch[k + 1]].pure).children.len());
            assert(branch_of(f0[ch[k + 1]].pure).children[f0[ch[k]].index].node == f0[
                ch[k]].pure);
            assert(node_len(f0[ch[k + 1]].pure) <= node_len(f0[ch[ch.len() - 1]].pure));
            lemma_payload_view(f.nodes@[ch[k + 1]].pure);
        }
        let p = f.nodes[node].parent.unwrap();
        let idx = f.nodes[node].index;
        let parent_tree = match &f.nodes[p].pure {
            PureChildKind::Tree(t) => dup_tree(t),
            PureChildKind::Token(_) => unreached(),
        };
        let child_payload = PureChildKind::Tree(pure);
        proof {
            lemma_payload_view(child_payload);
        }
        let next = parent_tree.replace_child(idx, child_payload);
        pure = next;
        node = p;
        proof {
            k = k + 1;
        }
        let ghost f_prev = f@;
        let stored_level = dup_tree(&pure);
        store_pure(f, node, stored_level);
        proof {
            assert(NodeV::Branch(pure@) == spine_pure(f0, ch, np, k));
            lemma_replace_pure_step(f0, f_prev, f@, ch, np, k);
        }
    }
    proof {
        assert(f@[ch[k]].parent == f0[ch[k]].parent);
        assert(k == ch.len() - 1);
        lemma_propagate_wf(f0, ch, np);
        lemma_propagate_frame(f0, ch, np);
        let r = propagate_along(f0, ch, np);
        assert forall|n: int| 0 <= n < f@.len() implies f@[n] == r[n] by {
            if ch.contains(n) {
                let j = choose|j: int| 0 <= j < ch.len() && ch[j] == n;
                assert(f@[ch[j]] == (RedV { pure: spine_pure(f0, ch, np, j), ..f0[ch[j]] }));
            } else {
                assert forall|m: int| 0 <= m < k + 1 implies #[trigger] ch.subrange(0, k + 1)[m]
                    == ch[m] by {}
                assert(!ch.subrange(0, k + 1).contains(n));
            }
        }
        assert(f@ =~= r);
    }
}

/// Shifts the child index of every materialized child of `p` whose
/// index is at least `from`: up by one when `up`, else down by one.
pub open spec fn spec_adjust(f: Seq<RedV>, p: int, from: int, up: bool) -> Seq<RedV> {
    Seq::new(
        f.len(),
        |n: int|
            if f[n].parent == Some(p) && f[n].index >= from {
                RedV { index: f[n].index + (if up { 1int } else { -1int }), ..f[n] }
            } else {
                f[n]
            },
    )
}

/// Walks the roster of `p` once and applies the index shift to every
/// entry whose index is at least `from`; the roster lists exactly the
/// materialized children of `p`, so this adjusts all of them.
#[verifier::loop_isolation(false)]
fn adjust_siblings(f: &mut SyntaxForest, p: usize, from: usize, up: bool)
    requires
        0 <= p < old(f)@.len(),
        forall|j: int|
            0 <= j < old(f)@[p as int].live.len() ==> {
                &&& 0 <= #[trigger] old(f)@[p as int].live[j] < old(f)@.len()
                &&& old(f)@[old(f)@[p as int].live[j]].parent == Some(p as int)
            },
        forall|j: int, k: int|
            0 <= j < k < old(f)@[p as int].live.len() ==> old(f)@[p as int].live[j] != old(
                f,
            )@[p as int].live[k],
        forall|n: int|
            0 <= n < old(f)@.len() && (#[trigger] old(f)@[n]).parent == Some(p as int) ==> old(
                f,
            )@[p as int].live.contains(n),
        up ==> forall|n: int|
            0 <= n < old(f)@.len() && (#[trigger] old(f)@[n]).parent == Some(p as int) && old(
                f,
            )@[n].index >= from ==> old(f)@[n].index + 1 <= usize::MAX,
        !up ==> from >= 1,
        forall|n: int|
            0 <= n < old(f)@.len() && (#[trigger] old(f)@[n]).parent == Some(p as int) ==> old(
                f,
            )@[n].index >= 0,
    ensures
        final(f)@ == spec_adjust(old(f)@, p as int, from as int, up),
{
    let ghost f0 = f@;
    let ghost target = spec_adjust(f0, p as int, from as int, up);
    let m = f.nodes[p].live.len();
    proof {
        lemma_forest_view(f);
        lemma_ids_view(f.nodes@[p as int].live@);
    }
    let mut j: usize = 0;
    while j < m
        invariant
            0 <= j <= m,
            f@.len() == f0.len(),
            m == f0[p as int].live.len(),
            f@[p as int].live == f0[p as int].live,
            forall|n: int|
                0 <= n < f0.len() && f0[p as int].live.subrange(0, j as int).contains(n) ==> f@[n]
                    == target[n],
            forall|n: int|
                0 <= n < f0.len() && !f0[p as int].live.subrange(0, j as int).contains(n) ==> f@[n]
                    == f0[n],
        decreases m - j,
    {
        proof {
            lemma_forest_view(f);
            lemma_ids_view(f.nodes@[p as int].live@);
            assert forall|k: int| 0 <= k < j implies #[trigger] f0[p as int].live.subrange(
                0,
                j as int,
            )[k] == f0[p as int].live[k] by {}
            assert(!f0[p as int].live.subrange(0, j as int).contains(f0[p as int].live[j as int]));
            assert(f@[f0[p as int].live[j as int]] == f0[f0[p as int].live[j as int]]);
        }
        let cid = f.nodes[p].live[j];
        let ci = f.nodes[cid].index;
        if ci >= from {
            if up {
                f.nodes[cid].index = ci + 1;
            } else {
                f.nodes[cid].index = ci - 1;
            }
        }
        proof {
            lemma_forest_view(f);
            let live0 = f0[p as int].live;
            assert forall|k: int| 0 <= k < j + 1 implies #[trigger] live0.subrange(
                0,
                j + 1,
            )[k] == live0[k] by {}
            assert forall|n: int|
                0 <= n < f0.len() && live0.subrange(0, j + 1).contains(n) implies f@[n]
                == target[n] by {
                if n == live0[j as int] {
                } else {
                    assert(live0.subrange(0, j as int).contains(n) ==> f@[n] == target[n]);
                    let w = choose|w: int| 0 <= w < j + 1 && #[trigger] live0.subrange(0, j + 1)[w] == n;
                    if w < j {
                        assert(live0.subrange(0, j as int)[w] == n);
                    }
                }
            }
            assert forall|n: int|
                0 <= n < f0.len() && !live0.subrange(0, j + 1).contains(n) implies f@[n]
                == f0[n] by {
                assert forall|w: int| 0 <= w < j implies #[trigger] live0.subrange(
                    0,
                    j as int,
                )[w] == live0.subrange(0, j + 1)[w] by {}
                if live0.subrange(0, j as int).contains(n) {
                    let w = choose|w: int| 0 <= w < j && #[trigger] live0.subrange(0, j as int)[w] == n;
                    assert(live0.subrange(0, j + 1)[w] == n);
                }
                if n == live0[j as int] {
                    assert(live0.subrange(0, j + 1)[j as int] == n);
                    assert(live0.subrange(0, j + 1).contains(n));
                }
                assert(n != live0[j as int]);
            }
        }
        j += 1;
    }
    proof {
        let live0 = f0[p as int].live;
        assert forall|k: int| 0 <= k < m implies #[trigger] live0.subrange(0, m as int)[k]
            == live0[k] by {}
        assert forall|n: int| 0 <= n < f@.len() implies f@[n] == target[n] by {
            if f0[n].parent == Some(p as int) {
                assert(live0.contains(n));
                let w = choose|w: int| 0 <= w < live0.len() && live0[w] == n;
                assert(live0.subrange(0, m as int)[w] == n);
                assert(live0.subrange(0, m as int).contains(n));
            } else {
                if live0.subrange(0, m as int).contains(n) {
                    let w = choose|w: int| 0 <= w < m && #[trigger] live0.subrange(0, m as int)[w] == n;
                    assert(live0[w] == n);
                }
                assert(!live0.subrange(0, m as int).contains(n));
            }
        }
        assert(f@ =~= target);
    }
}

/// Re-anchors one record: sets its parent and child index.
fn set_link(f: &mut SyntaxForest, id: usize, parent: Option<usize>, index: usize)
    requires
        id < old(f)@.len(),
    ensures
        final(f)@ == old(f)@.update(
            id as int,
            RedV {
                parent: match parent {
                    Some(p) => Some(p as int),
                    None => None,
                },
                index: index as int,
                ..old(f)@[id as int]
            },
        ),
{
    proof {
        lemma_forest_view(f);
    }
    let ghost before = f@;
    f.nodes[id].parent = parent;
    f.nodes[id].index = index;
    proof {
        lemma_forest_view(f);
        let target = before.update(
            id as int,
            RedV {
                parent: match parent {
                    Some(p) => Some(p as int),
                    None => None,
                },
                index: index as int,
                ..before[id as int]
            },
        );
        assert forall|n: int| 0 <= n < f@.len() implies f@[n] == target[n] by {
            if n != id {
                assert(f.nodes@[n] == old(f).nodes@[n]);
            }
        }
        assert(f@ =~= target);
    }
}

/// Inserts an id into a roster at a given position.
fn roster_insert_at(f: &mut SyntaxForest, p: usize, pos: usize, cid: usize)
    requires
        p < old(f)@.len(),
        pos as int <= old(f)@[p as int].live.len(),
    ensures
        final(f)@ == old(f)@.update(
            p as int,
            RedV {
                live: old(f)@[p as int].live.insert(pos as int, cid as int),
                ..old(f)@[p as int]
            },
        ),
{
    proof {
        lemma_forest_view(f);
        lemma_ids_view(f.nodes@[p as int].live@);
    }
    let ghost before = f@;
    let live_ref = &mut f.nodes[p].live;
    live_ref.insert(pos, cid);
    proof {
        lemma_forest_view(f);
        lemma_ids_view(f.nodes@[p as int].live@);
        before[p as int].live.insert_ensures(pos as int, cid as int);
        old(f).nodes@[p as int].live@.insert_ensures(pos as int, cid);
        let target = before.update(
            p as int,
            RedV { live: before[p as int].live.insert(pos as int, cid as int), ..before[p as int] },
        );
        assert forall|n: int| 0 <= n < f@.len() implies f@[n] == target[n] by {
            if n != p {
                assert(f.nodes@[n] == old(f).nodes@[n]);
            } else {
                assert(f@[n].live =~= target[n].live);
            }
        }
        assert(f@ =~= target);
    }
}

/// Removes the entry at a given position from a roster.
fn roster_remove_at(f: &mut SyntaxForest, p: usize, pos: usize)
    requires
        p < old(f)@.len(),
        (pos as int) < old(f)@[p as int].live.len(),
    ensures
        final(f)@ == old(f)@.update(
            p as int,
            RedV { live: old(f)@[p as int].live.remove(pos as int), ..old(f)@[p as int] },
        ),
{
    proof {
        lemma_forest_view(f);
        lemma_ids_view(f.nodes@[p as int].live@);
    }
    let ghost before = f@;
    let live_ref = &mut f.nodes[p].live;
    live_ref.remove(pos);
    proof {
        lemma_forest_view(f);
        lemma_ids_view(f.nodes@[p as int].live@);
        before[p as int].live.remove_ensures(pos as int);
        let target = before.update(
            p as int,
            RedV { live: before[p as int].live.remove(pos as int), ..before[p as int] },
        );
        assert forall|n: int| 0 <= n < f@.len() implies f@[n] == target[n] by {
            if n != p {
                assert(f.nodes@[n] == old(f).nodes@[n]);
            } else {
                assert(f@[n].live =~= target[n].live);
            }
        }
        assert(f@ =~= target);
    }
}

/// The record surgery of a detach, before the pure spine is rebuilt:
/// the node leaves its parent's roster, becomes parentless at index 0,
/// and the later materialized siblings shift down.
pub open spec fn detach_surgery(f: Seq<RedV>, id: int) -> Seq<RedV> {
    let p = parent_of(f, id);
    let i = f[id].index;
    let f1 = f.update(p, RedV { live: f[p].live.remove_value(id), ..f[p] });
    let f2 = f1.update(id, RedV { parent: None, index: 0, ..f1[id] });
    spec_adjust(f2, p, i + 1, false)
}

/// The forest after detaching node `id`: nothing changes for a
/// parentless node; otherwise the record surgery of [`detach_surgery`]
/// happens and the pure spine above the former parent is rebuilt around
/// the branch without the detached child.
pub open spec fn spec_detach(f: Seq<RedV>, id: int) -> Seq<RedV> {
    if f[id].parent is None {
        f
    } else {
        let p = parent_of(f, id);
        spec_detach_attached(f, id)
    }
}

/// The attached case of [`spec_detach`].
pub open spec fn spec_detach_attached(f: Seq<RedV>, id: int) -> Seq<RedV> {
    let p = parent_of(f, id);
    let np = remove_at(branch_of(f[p].pure), f[id].index);
    propagate_along(detach_surgery(f, id), chain_of(f, p), NodeV::Branch(np))
}

/// The detach surgery leaves a forest whose only flaw is at the former
/// parent, whose remaining children match its branch with the detached
/// child removed.
#[verifier::rlimit(100)]
pub proof fn lemma_detach_surgery(f: Seq<RedV>, id: int)
    requires
        wf_forest(f),
        0 <= id < f.len(),
        f[id].parent is Some,
    ensures
        detach_surgery(f, id).len() == f.len(),
        wf_forest_except(detach_surgery(f, id), parent_of(f, id)),
        children_match(
            detach_surgery(f, id),
            parent_of(f, id),
            remove_at(branch_of(f[parent_of(f, id)].pure), f[id].index),
        ),
        forall|n: int| 0 <= n < f.len() ==> (#[trigger] detach_surgery(f, id)[n]).pure == f[n].pure,
        forall|n: int|
            0 <= n < f.len() && n != id ==> (#[trigger] detach_surgery(f, id)[n]).parent == f[
                n].parent,
        detach_surgery(f, id)[id].parent is None,
        detach_surgery(f, id)[id].index == 0,
        forall|n: int|
            0 <= n < f.len() && n != parent_of(f, id) ==> (#[trigger] detach_surgery(f,
                id)[n]).live == f[n].live,
{
    let p = parent_of(f, id);
    let i = f[id].index;
    let fs = detach_surgery(f, id);
    let live0 = f[p].live;
    assert(node_ok(f, id));
    assert(roster_ok(f, p));
    live0.index_of_first_ensures(id);
    assert(live0.contains(id));
    let pos = live0.index_of_first(id)->Some_0;
    live0.remove_ensures(pos);
    let live1 = live0.remove_value(id);
    assert(live1 == live0.remove(pos));
    let f1 = f.update(p, RedV { live: live1, ..f[p] });
    let f2 = f1.update(id, RedV { parent: None, index: 0, ..f1[id] });
    assert(fs == spec_adjust(f2, p, i + 1, false));
    // Every remaining roster entry differs from the detached node, and no
    // remaining materialized child keeps index `i`.
    assert forall|j: int| 0 <= j < live1.len() implies {
        &&& 0 <= #[trigger] live1[j] < f.len()
        &&& live1[j] != id
        &&& f[live1[j]].parent == Some(p)
    } by {
        if j < pos {
            assert(live1[j] == live0[j]);
            if live0[j] == id {
                assert(f[live0[j]].index == f[live0[pos]].index);
                assert(false);
            }
        } else {
            assert(live1[j] == live0[j + 1]);
            if live0[j + 1] == id {
                assert(f[live0[pos]].index < f[live0[j + 1]].index);
            }
        }
    }
    assert forall|n: int|
        0 <= n < f.len() && n != id && (#[trigger] f[n]).parent == Some(p) implies f[n].index
        != i by {
        assert(node_ok(f, n));
        lemma_no_shared_index(f, p, n, id);
    }
    assert forall|n: int| 0 <= n < fs.len() implies node_ok_except(fs, n, p) by {
        assert(node_ok(f, n));
        if n == id {
        } else {
            match f[n].parent {
                Some(q) => {
                    if q == p {
                        let k0 = choose|k: int| 0 <= k < live0.len() && live0[k] == n;
                        if k0 < pos {
                            assert(live1[k0] == n);
                        } else {
                            assert(k0 != pos);
                            assert(live1[k0 - 1] == live0[k0]);
                        }
                        assert(live1.contains(n));
                        assert(fs[p].live == live1);
                    } else {
                        assert(fs[q].live == f[q].live);
                        assert(fs[q].pure == f[q].pure);
                    }
                },
                None => {},
            }
        }
    }
    assert forall|q: int| 0 <= q < fs.len() implies roster_ok(fs, q) by {
        assert(roster_ok(f, q));
        if q == p {
            assert forall|j: int| 0 <= j < fs[p].live.len() implies {
                &&& 0 <= #[trigger] fs[p].live[j] < fs.len()
                &&& fs[fs[p].live[j]].parent == Some(p)
            } by {
                assert(fs[p].live == live1);
                assert(live1[j] != id);
                assert(f[live1[j]].parent == Some(p));
            }
            assert forall|j: int, k: int| 0 <= j < k < fs[p].live.len() implies fs[#[trigger] fs[
                p].live[j]].index < fs[#[trigger] fs[p].live[k]].index by {
                assert(fs[p].live == live1);
                let a = live1[j];
                let b = live1[k];
                assert(f[a].index < f[b].index) by {
                    if j < pos {
                        assert(live1[j] == live0[j]);
                    } else {
                        assert(live1[j] == live0[j + 1]);
                    }
                    if k < pos {
                        assert(live1[k] == live0[k]);
                    } else {
                        assert(live1[k] == live0[k + 1]);
                    }
                }
                assert(f[a].index != i && f[b].index != i);
                assert(f[a].parent == Some(p) && f[b].parent == Some(p));
            }
        } else {
            assert forall|j: int| 0 <= j < fs[q].live.len() implies {
                &&& 0 <= #[trigger] fs[q].live[j] < fs.len()
                &&& fs[fs[q].live[j]].parent == Some(q)
            } by {
                assert(fs[q].live == f[q].live);
                assert(0 <= f[q].live[j] < f.len());
                assert(f[f[q].live[j]].parent == Some(q));
                if f[q].live[j] == id {
                    assert(q == p);
                }
            }
            assert forall|j: int, k: int| 0 <= j < k < fs[q].live.len() implies fs[#[trigger] fs[
                q].live[j]].index < fs[#[trigger] fs[q].live[k]].index by {
                assert(fs[q].live == f[q].live);
                assert(f[f[q].live[j]].index < f[f[q].live[k]].index);
                assert(f[f[q].live[j]].parent == Some(q) && f[f[q].live[k]].parent == Some(q));
            }
        }
    }
    let b = branch_of(f[p].pure);
    let nb = remove_at(b, i);
    assert forall|c: int|
        0 <= c < fs.len() && (#[trigger] fs[c]).parent == Some(p) implies {
        &&& 0 <= fs[c].index < nb.children.len()
        &&& nb.children[fs[c].index].node == fs[c].pure
    } by {
        assert(c != id);
        assert(f[c].parent == Some(p));
        assert(node_ok(f, c));
        assert(f[c].index != i);
        if f[c].index < i {
            assert(fs[c].index == f[c].index);
            assert(nb.children[f[c].index].node == b.children[f[c].index].node);
        } else {
            assert(f[c].index >= i + 1);
            assert(fs[c].index == f[c].index - 1);
            assert(nb.children[f[c].index - 1].node == b.children[f[c].index].node);
        }
    }
}

/// Detaches node `id` from its parent, if it has one: the pure spine
/// above the parent is rebuilt without the child, later materialized
/// siblings are renumbered, and the node becomes a parentless root that
/// keeps its own pure subtree and can be inserted elsewhere.
#[verifier::loop_isolation(false)]
#[verifier::rlimit(100)]
fn detach_raw(f: &mut SyntaxForest, id: usize)
    requires
        wf_forest(old(f)@),
        id < old(f)@.len(),
    ensures
        wf_forest(final(f)@),
        final(f)@ == spec_detach(old(f)@, id as int),
        final(f)@.len() == old(f)@.len(),
{
    let ghost f0 = f@;
    proof {
        lemma_forest_view(f);
        assert(node_ok(f0, id as int));
    }
    let p = match f.nodes[id].parent {
        Some(p) => p,
        None => {
            return ;
        },
    };
    let i = f.nodes[id].index;
    let ghost ch = chain_of(f0, p as int);
    proof {
        lemma_chain_props(f0, p as int);
        lemma_detach_surgery(f0, id as int);
        lemma_ids_view(f.nodes@[p as int].live@);
        assert(roster_ok(f0, p as int));
    }
    // Find the detached node in its parent's roster.
    let m = f.nodes[p].live.len();
    let mut j: usize = 0;
    while j < m && f.nodes[p].live[j] != id
        invariant
            0 <= j <= m,
            forall|k: int| 0 <= k < j ==> f0[p as int].live[k] != id,
        decreases m - j,
    {
        proof {
            assert(f0[p as int].live[j as int] == f.nodes@[p as int].live@[j as int] as int);
        }
        j += 1;
    }
    proof {
        if j == m {
            assert(f0[p as int].live.contains(id as int));
            let w = choose|w: int|
                0 <= w < f0[p as int].live.len() && f0[p as int].live[w] == id;
            assert(f0[p as int].live[w] != id);
        }
        assert(j < m);
        assert(f0[p as int].live[j as int] == f.nodes@[p as int].live@[j as int] as int);
        assert(f0[p as int].live[j as int] == id);
        // The scan found the first occurrence, which is the one that
        // `remove_value` removes.
        f0[p as int].live.index_of_first_ensures(id as int);
        let pos = f0[p as int].live.index_of_first(id as int)->Some_0;
        if pos < j {
            assert(f0[p as int].live[pos] != id);
        }
        if j < pos {
        }
        assert(pos == j);
    }
    roster_remove_at(f, p, j);
    set_link(f, id, None, 0);
    let ghost f2 = f@;
    proof {
        // The state now matches the surgery model up to the sibling
        // shift; establish what the shift walk needs.
        let live1 = f0[p as int].live.remove_value(id as int);
        assert(f@[p as int].live == live1);
        f0[p as int].live.remove_ensures(j as int);
        assert forall|k: int| 0 <= k < live1.len() implies {
            &&& 0 <= #[trigger] live1[k] < f@.len()
            &&& f@[live1[k]].parent == Some(p as int)
            &&& live1[k] != id
        } by {
            if k < j {
                assert(live1[k] == f0[p as int].live[k]);
            } else {
                assert(live1[k] == f0[p as int].live[k + 1]);
            }
            assert(f0[live1[k]].parent == Some(p as int));
            if live1[k] == id {
                assert(detach_surgery(f0, id as int)[id as int].parent is None);
                assert(f@[live1[k]].parent is None);
            }
            assert(f@[live1[k]] == f0[live1[k]] || live1[k] == id);
        }
        assert forall|k: int, l: int| 0 <= k < l < live1.len() implies live1[k] != live1[l] by {
            let a = if k < j { f0[p as int].live[k] } else { f0[p as int].live[k + 1] };
            let b = if l < j { f0[p as int].live[l] } else { f0[p as int].live[l + 1] };
            assert(live1[k] == a && live1[l] == b);
            assert(f0[a].index < f0[b].index);
        }
        assert forall|n: int|
            0 <= n < f@.len() && (#[trigger] f@[n]).parent == Some(p as int) implies f@[
            n].live == f0[n].live || n == p as int by {}
        assert forall|n: int|
            0 <= n < f@.len() && (#[trigger] f@[n]).parent == Some(p as int) implies live1.contains(
            n,
        ) by {
            assert(n != id);
            assert(f0[n].parent == Some(p as int));
            assert(node_ok(f0, n));
            let w = choose|w: int|
                0 <= w < f0[p as int].live.len() && f0[p as int].live[w] == n;
            if w < j {
                assert(live1[w] == n);
            } else {
                assert(w != j);
                assert(live1[w - 1] == f0[p as int].live[w]);
            }
        }
        assert forall|n: int|
            0 <= n < f@.len() && (#[trigger] f@[n]).parent == Some(p as int) implies f@[n].index
            >= 0 by {}
        lemma_branch_arity_bounded(old(f).nodes@[p as int].pure);
        assert(i < branch_of(f0[p as int].pure).children.len());
    }
    adjust_siblings(f, p, i + 1, false);
    proof {
        let fs = detach_surgery(f0, id as int);
        assert(f@ == spec_adjust(f2, p as int, i as int + 1, false));
        assert(f2 =~= f0.update(
            p as int,
            RedV {
                live: f0[p as int].live.remove_value(id as int),
                ..f0[p as int]
            },
        ).update(id as int, RedV { parent: None, index: 0, ..f0[id as int] }));
        assert(f@ =~= fs);
        assert(f@ == fs);
        // The climb recorded before the surgery still has its
        // properties: no spine entry was touched.
        assert forall|k: int| 0 <= k < ch.len() implies #[trigger] ch[k] != id by {
            lemma_parent_size_gt(f0, id as int);
            assert(node_size(f0[id as int].pure) < node_size(f0[p as int].pure));
            if k > 0 {
                assert(node_size(f0[ch[0]].pure) < node_size(f0[ch[k]].pure));
            }
        }
        assert forall|k: int| 0 <= k < ch.len() implies #[trigger] fs[ch[k]].parent == f0[
            ch[k]].parent && fs[ch[k]].pure == f0[ch[k]].pure && fs[ch[k]].index == f0[
            ch[k]].index by {
            if fs[ch[k]].index != f0[ch[k]].index {
                assert(f0[ch[k]].parent == Some(p as int));
                lemma_parent_size_gt(f0, ch[k]);
                assert(node_size(f0[ch[k]].pure) < node_size(f0[p as int].pure));
                if k > 0 {
                    assert(node_size(f0[ch[0]].pure) < node_size(f0[ch[k]].pure));
                }
                assert(false);
            }
        }
        assert(chain_props(f@, ch));
        assert(node_len(f@[ch[ch.len() - 1]].pure) == node_len(f0[ch[ch.len() - 1]].pure));
        lemma_forest_view(f);
        assert(f@[ch[ch.len() - 1]] == spec_red_view(f.nodes@[ch[ch.len() - 1]]));
        lemma_payload_len_bounded(f.nodes@[ch[ch.len() - 1]].pure);
        lemma_payload_view(f.nodes@[p as int].pure);
        assert(node_ok_except(f@, p as int, p as int));
        assert(wf_branch(branch_of(f@[p as int].pure)));
        crate::model::lemma_child_span_in_parent(branch_of(f0[p as int].pure), i as int);
    }
    let parent_tree = match &f.nodes[p].pure {
        PureChildKind::Tree(t) => dup_tree(t),
        PureChildKind::Token(_) => unreached(),
    };
    let np = parent_tree.remove_child(i);
    replace_pure(f, p, np, Ghost(ch));
    proof {
        assert(f@ == spec_detach_attached(f0, id as int));
    }
}

impl SyntaxTree {
    /// Detaches this branch from its parent: the former parent's pure
    /// tree shrinks by this subtree, later materialized siblings are
    /// renumbered, and this node becomes a parentless root keeping its
    /// own pure subtree.  Detaching a root changes nothing.
    pub fn detach(&self, f: &mut SyntaxForest)
        requires
            wf_forest(old(f)@),
            tree_ok(old(f)@, *self),
        ensures
            wf_forest(final(f)@),
            final(f)@ == spec_detach(old(f)@, self.spec_id()),
            final(f)@.len() == old(f)@.len(),
    {
        detach_raw(f, self.id)
    }
}

impl SyntaxToken {
    /// Detaches this leaf from its parent; see `SyntaxTree::detach`.
    pub fn detach(&self, f: &mut SyntaxForest)
        requires
            wf_forest(old(f)@),
            token_ok(old(f)@, *self),
        ensures
            wf_forest(final(f)@),
            final(f)@ == spec_detach(old(f)@, self.spec_id()),
            final(f)@.len() == old(f)@.len(),
    {
        detach_raw(f, self.id)
    }
}

/// The record surgery of an insertion, before the pure spine is
/// rebuilt: the materialized siblings at the insertion index and later
/// shift up, and the detached node is anchored at the index and enters
/// the parent's roster at its sorted position.
pub open spec fn insert_surgery(f: Seq<RedV>, p: int, i: int, c: int) -> Seq<RedV> {
    let f1 = spec_adjust(f, p, i, true);
    let f2 = f1.update(c, RedV { parent: Some(p), index: i, ..f1[c] });
    f2.update(
        p,
        RedV { live: f2[p].live.insert(insert_pos(f2, f2[p].live, i), c), ..f2[p] },
    )
}

/// The forest after inserting the detached node `c` as child `i` of
/// branch `p`: the record surgery of [`insert_surgery`] happens and the
/// pure spine above `p` is rebuilt around the grown branch.
pub open spec fn spec_insert_child(f: Seq<RedV>, p: int, i: int, c: int) -> Seq<RedV> {
    let np = insert_at(branch_of(f[p].pure), i, f[c].pure);
    propagate_along(insert_surgery(f, p, i, c), chain_of(f, p), NodeV::Branch(np))
}

/// The insertion surgery leaves a forest whose only flaw is at `p`,
/// whose materialized children match its branch with the new child
/// inserted.
#[verifier::rlimit(100)]
pub proof fn lemma_insert_surgery(f: Seq<RedV>, p: int, i: int, c: int)
    requires
        wf_forest(f),
        0 <= p < f.len(),
        0 <= c < f.len(),
        c != p,
        f[p].pure is Branch,
        f[c].parent is None,
        0 <= i <= branch_of(f[p].pure).children.len(),
    ensures
        insert_surgery(f, p, i, c).len() == f.len(),
        wf_forest_except(insert_surgery(f, p, i, c), p),
        children_match(
            insert_surgery(f, p, i, c),
            p,
            insert_at(branch_of(f[p].pure), i, f[c].pure),
        ),
        forall|n: int|
            0 <= n < f.len() ==> (#[trigger] insert_surgery(f, p, i, c)[n]).pure == f[n].pure,
        forall|n: int|
            0 <= n < f.len() && n != c ==> (#[trigger] insert_surgery(f, p, i, c)[n]).parent == f[
                n].parent,
        insert_surgery(f, p, i, c)[c].parent == Some(p),
        insert_surgery(f, p, i, c)[c].index == i,
        forall|n: int|
            0 <= n < f.len() && n != p ==> (#[trigger] insert_surgery(f, p, i, c)[n]).live == f[
                n].live,
        forall|n: int|
            0 <= n < f.len() && f[n].parent == Some(p) && f[n].index >= i ==> (
            #[trigger] insert_surgery(f, p, i, c)[n]).index == f[n].index + 1,
        forall|n: int|
            0 <= n < f.len() && n != c && !(f[n].parent == Some(p) && f[n].index >= i) ==> (
            #[trigger] insert_surgery(f, p, i, c)[n]).index == f[n].index,
{
    let f1 = spec_adjust(f, p, i, true);
    let f2 = f1.update(c, RedV { parent: Some(p), index: i, ..f1[c] });
    let live = f2[p].live;
    let pos = insert_pos(f2, live, i);
    let fs = insert_surgery(f, p, i, c);
    lemma_insert_pos_props(f2, live, i);
    live.insert_ensures(pos, c);
    assert(live == f[p].live);
    assert(roster_ok(f, p));
    assert(node_ok(f, p));
    assert(node_ok(f, c));
    // The roster does not hold `c`, and after the shift no entry keeps
    // an index below `i` past `pos` or at or above `i` before it.
    assert forall|k: int| 0 <= k < live.len() implies #[trigger] live[k] != c && 0 <= live[k]
        < f.len() && f[live[k]].parent == Some(p) && f2[live[k]].parent == Some(p) by {
        assert(f[live[k]].parent == Some(p));
        if live[k] == c {
            assert(f[c].parent is None);
        }
    }
    assert forall|k: int| 0 <= k < live.len() implies f2[#[trigger] live[k]].index != i by {
        if f[live[k]].index >= i {
            assert(f2[live[k]].index == f[live[k]].index + 1);
        } else {
            assert(f2[live[k]].index == f[live[k]].index);
        }
    }
    assert forall|k: int| pos <= k < live.len() implies f2[#[trigger] live[k]].index > i by {
        if k == pos {
        } else {
            assert(f[live[pos]].index < f[live[k]].index);
            if f[live[pos]].index >= i {
                assert(f[live[k]].index >= i);
            } else {
                assert(f2[live[pos]].index == f[live[pos]].index);
                assert(f2[live[pos]].index >= i);
                assert(false);
            }
        }
    }
    assert forall|n: int| 0 <= n < fs.len() implies node_ok_except(fs, n, p) by {
        assert(node_ok(f, n));
        if n == c {
            assert(fs[p].live[pos] == c);
            assert(fs[p].live.contains(c));
        } else {
            match f[n].parent {
                Some(q) => {
                    if q == p {
                        let k0 = choose|k: int| 0 <= k < live.len() && live[k] == n;
                        if k0 < pos {
                            assert(fs[p].live[k0] == n);
                        } else {
                            assert(fs[p].live[k0 + 1] == n);
                        }
                        assert(fs[p].live.contains(n));
                    } else {
                        assert(fs[q].live == f[q].live);
                        assert(fs[q].pure == f[q].pure);
                        assert(fs[n].index == f[n].index);
                    }
                },
                None => {},
            }
        }
    }
    assert forall|q: int| 0 <= q < fs.len() implies roster_ok(fs, q) by {
        assert(roster_ok(f, q));
        if q == p {
            let nl = fs[p].live;
            assert forall|j: int| 0 <= j < nl.len() implies 0 <= #[trigger] nl[j] < fs.len()
                && fs[nl[j]].parent == Some(p) by {
                if j < pos {
                    assert(nl[j] == live[j]);
                } else if j == pos {
                    assert(nl[j] == c);
                } else {
                    assert(nl[j] == live[j - 1]);
                }
            }
            assert forall|j: int, k: int| 0 <= j < k < nl.len() implies fs[#[trigger] nl[
                j]].index < fs[#[trigger] nl[k]].index by {
                if j < pos {
                    assert(nl[j] == live[j]);
                    assert(fs[nl[j]].index == f2[live[j]].index);
                    assert(f2[live[j]].index < i);
                }
                if j == pos {
                    assert(fs[nl[j]].index == i);
                }
                if j > pos {
                    assert(nl[j] == live[j - 1]);
                    assert(fs[nl[j]].index == f2[live[j - 1]].index);
                }
                if k < pos {
                    assert(nl[k] == live[k]);
                    assert(fs[nl[k]].index == f2[live[k]].index);
                    assert(f[live[j]].index < f[live[k]].index);
                }
                if k == pos {
                    assert(fs[nl[k]].index == i);
                }
                if k > pos {
                    assert(nl[k] == live[k - 1]);
                    assert(fs[nl[k]].index == f2[live[k - 1]].index);
                    assert(f2[live[k - 1]].index > i);
                    if j > pos {
                        assert(f[live[j - 1]].index < f[live[k - 1]].index);
                    }
                }
            }
        } else {
            assert forall|j: int| 0 <= j < fs[q].live.len() implies 0 <= #[trigger] fs[
                q].live[j] < fs.len() && fs[fs[q].live[j]].parent == Some(q) by {
                assert(fs[q].live == f[q].live);
                assert(0 <= f[q].live[j] < f.len());
                assert(f[f[q].live[j]].parent == Some(q));
                if f[q].live[j] == c {
                    assert(f[c].parent is None);
                }
            }
            assert forall|j: int, k: int| 0 <= j < k < fs[q].live.len() implies fs[#[trigger] fs[
                q].live[j]].index < fs[#[trigger] fs[q].live[k]].index by {
                assert(fs[q].live == f[q].live);
                let a = f[q].live[j];
                let b = f[q].live[k];
                assert(f[a].index < f[b].index);
                assert(f[a].parent == Some(q) && f[b].parent == Some(q));
                if q != p {
                    assert(fs[a].index == f[a].index && fs[b].index == f[b].index);
                }
            }
        }
    }
    let b = branch_of(f[p].pure);
    let nb = insert_at(b, i, f[c].pure);
    assert forall|n: int|
        0 <= n < fs.len() && (#[trigger] fs[n]).parent == Some(p) implies {
        &&& 0 <= fs[n].index < nb.children.len()
        &&& nb.children[fs[n].index].node == fs[n].pure
    } by {
        if n == c {
            assert(nb.children[i].node == f[c].pure);
        } else {
            assert(f[n].parent == Some(p));
            assert(node_ok(f, n));
            if f[n].index >= i {
                assert(fs[n].index == f[n].index + 1);
                assert(nb.children[f[n].index + 1].node == b.children[f[n].index].node);
            } else {
                assert(fs[n].index == f[n].index);
                assert(nb.children[f[n].index].node == b.children[f[n].index].node);
            }
        }
    }
}

impl SyntaxTree {
    /// Inserts the detached node `child` as child `index` of this
    /// branch: the pure tree grows by the child's subtree, later
    /// materialized siblings are renumbered, and the child's own pure
    /// subtree travels with it unchanged.  The child must be detached
    /// and not an ancestor of this branch.
    #[verifier::loop_isolation(false)]
    #[verifier::rlimit(100)]
    pub fn insert_child(&self, f: &mut SyntaxForest, index: usize, child: SyntaxChild)
        requires
            wf_forest(old(f)@),
            tree_ok(old(f)@, *self),
            child_handle_ok(old(f)@, child),
            old(f)@[child.spec_id()].parent is None,
            !chain_of(old(f)@, self.spec_id()).contains(child.spec_id()),
            index as int <= branch_of(old(f)@[self.spec_id()].pure).children.len(),
            node_len(old(f)@[top_of(old(f)@, self.spec_id())].pure) + node_len(
                old(f)@[child.spec_id()].pure,
            ) <= usize::MAX,
        ensures
            wf_forest(final(f)@),
            final(f)@ == spec_insert_child(
                old(f)@,
                self.spec_id(),
                index as int,
                child.spec_id(),
            ),
            final(f)@.len() == old(f)@.len(),
            is_live_child(final(f)@, self.spec_id(), index as int, child.spec_id()),
            final(f)@[child.spec_id()].pure == old(f)@[child.spec_id()].pure,
            final(f)@[self.spec_id()].pure == NodeV::Branch(
                insert_at(
                    branch_of(old(f)@[self.spec_id()].pure),
                    index as int,
                    old(f)@[child.spec_id()].pure,
                ),
            ),
    {
        let p = self.id;
        let cid = child_id_exec(&child);
        let ghost f0 = f@;
        let ghost ch = chain_of(f0, p as int);
        proof {
            lemma_forest_view(f);
            lemma_ids_view(f.nodes@[p as int].live@);
            lemma_chain_props(f0, p as int);
            assert(ch[0] == p as int);
            if cid as int == p as int {
                assert(ch.contains(cid as int));
            }
            lemma_insert_surgery(f0, p as int, index as int, cid as int);
            assert(roster_ok(f0, p as int));
            lemma_branch_arity_bounded(f.nodes@[p as int].pure);
            assert forall|q: int, k: int| 0 <= q < k < f0[p as int].live.len() implies f0[
                p as int].live[q] != f0[p as int].live[k] by {
                assert(f0[f0[p as int].live[q]].index < f0[f0[p as int].live[k]].index);
            }
            assert forall|n: int|
                0 <= n < f0.len() && (#[trigger] f0[n]).parent == Some(p as int) implies f0[
                p as int].live.contains(n) && f0[n].index + 1 <= usize::MAX && f0[n].index
                >= 0 by {
                assert(node_ok(f0, n));
            }
        }
        adjust_siblings(f, p, index, true);
        set_link(f, cid, Some(p), index);
        let ghost f2v = f@;
        proof {
            lemma_forest_view(f);
            lemma_ids_view(f.nodes@[p as int].live@);
            assert(f2v =~= spec_adjust(f0, p as int, index as int, true).update(
                cid as int,
                RedV {
                    parent: Some(p as int),
                    index: index as int,
                    ..spec_adjust(f0, p as int, index as int, true)[cid as int]
                },
            ));
            assert(f2v[p as int].live == f0[p as int].live);
            assert forall|k: int| 0 <= k < f2v[p as int].live.len() implies 0 <= #[trigger] f2v[
                p as int].live[k] < f2v.len() by {
                assert(0 <= f0[p as int].live[k] < f0.len());
            }
            assert forall|k: int| 0 <= k < f2v[p as int].live.len() implies (#[trigger] f.nodes@[
                p as int].live@[k]) < f.nodes@.len() by {
                assert(f2v[p as int].live[k] == f.nodes@[p as int].live@[k] as int);
            }
        }
        let m = f.nodes[p].live.len();
        let mut j: usize = 0;
        while j < m && f.nodes[f.nodes[p].live[j]].index < index
            invariant
                0 <= j <= m,
                m == f2v[p as int].live.len(),
                forall|k: int| 0 <= k < j ==> f2v[#[trigger] f2v[p as int].live[k]].index < index,
            decreases m - j,
        {
            proof {
                let e = f2v[p as int].live[j as int];
                assert(e == f.nodes@[p as int].live@[j as int] as int);
                assert(f2v[e] == spec_red_view(f.nodes@[e]));
            }
            j += 1;
        }
        proof {
            if j < m {
                let e = f2v[p as int].live[j as int];
                assert(e == f.nodes@[p as int].live@[j as int] as int);
                assert(f2v[e] == spec_red_view(f.nodes@[e]));
                assert(f2v[e].index >= index);
            }
            lemma_insert_pos_eq(f2v, f2v[p as int].live, index as int, j as int);
        }
        roster_insert_at(f, p, j, cid);
        proof {
            let fs = insert_surgery(f0, p as int, index as int, cid as int);
            assert(f@ =~= fs);
            assert(f@ == fs);
            // The climb recorded before the surgery is untouched by it.
            assert forall|k: int| 0 <= k < ch.len() implies #[trigger] fs[ch[k]].parent == f0[
                ch[k]].parent && fs[ch[k]].pure == f0[ch[k]].pure && fs[ch[k]].index == f0[
                ch[k]].index by {
                assert(ch[k] != cid as int);
                if fs[ch[k]].index != f0[ch[k]].index {
                    assert(f0[ch[k]].parent == Some(p as int));
                    lemma_parent_size_gt(f0, ch[k]);
                    if k > 0 {
                        assert(node_size(f0[ch[0]].pure) < node_size(f0[ch[k]].pure));
                    }
                    assert(false);
                }
            }
            assert(chain_props(f@, ch));
            assert(node_ok(f0, cid as int));
            lemma_forest_view(f);
            assert(f@[cid as int] == spec_red_view(f.nodes@[cid as int]));
            assert(f@[p as int] == spec_red_view(f.nodes@[p as int]));
            lemma_payload_view(f.nodes@[p as int].pure);
            assert(node_len(f@[ch[ch.len() - 1]].pure) == node_len(f0[top_of(
                f0,
                p as int,
            )].pure));
            assert(node_ok_except(f@, p as int, p as int));
            assert(wf_branch(branch_of(f@[p as int].pure)));
            assert(node_len(f0[ch[0]].pure) <= node_len(f0[ch[ch.len() - 1]].pure));
        }
        let child_payload = dup_payload_at(f, cid);
        let parent_tree = match &f.nodes[p].pure {
            PureChildKind::Tree(t) => dup_tree(t),
            PureChildKind::Token(_) => unreached(),
        };
        let np = parent_tree.insert_child(index, child_payload);
        replace_pure(f, p, np, Ghost(ch));
        proof {
            assert(f@ == spec_insert_child(f0, p as int, index as int, cid as int));
            lemma_propagate_wf(
                insert_surgery(f0, p as int, index as int, cid as int),
                ch,
                NodeV::Branch(
                    insert_at(branch_of(f0[p as int].pure), index as int, f0[cid as int].pure),
                ),
            );
            assert forall|k: int| 0 <= k < ch.len() implies #[trigger] ch[k] != cid as int by {}
        }
    }
}

/// Copies the pure payload held by record `id`.
fn dup_payload_at(f: &SyntaxForest, id: usize) -> (r: PureChildKind)
    requires
        id < f@.len(),
    ensures
        r@ == f@[id as int].pure,
{
    proof {
        lemma_forest_view(f);
    }
    dup_payload(&f.nodes[id].pure)
}

impl SyntaxToken {
    /// The leaf's kind tag.
    pub fn kind(&self, f: &SyntaxForest) -> (r: &'static str)
        requires
            wf_forest(f@),
            token_ok(f@, *self),
        ensures
            r@ == crate::model::node_kind(f@[self.spec_id()].pure),
    {
        kind_raw(f, self.id)
    }

    /// The leaf's text.
    pub fn text<'a>(&self, f: &'a SyntaxForest) -> (r: &'a str)
        requires
            wf_forest(f@),
            token_ok(f@, *self),
        ensures
            f@[self.spec_id()].pure matches NodeV::Leaf(l) && r@ == l.text,
    {
        proof {
            lemma_forest_view(f);
            lemma_payload_view(f.nodes@[self.id as int].pure);
        }
        match &f.nodes[self.id].pure {
            PureChildKind::Token(t) => t.text(),
            PureChildKind::Tree(_) => unreached(),
        }
    }

    /// The absolute byte offset of the leaf's text within its tree.
    pub fn offset(&self, f: &SyntaxForest) -> (r: usize)
        requires
            wf_forest(f@),
            token_ok(f@, *self),
        ensures
            r == abs_offset(f@, self.spec_id()),
    {
        offset_raw(f, self.id)
    }

    /// The byte length of the leaf's text.
    pub fn text_len(&self, f: &SyntaxForest) -> (r: usize)
        requires
            wf_forest(f@),
            token_ok(f@, *self),
        ensures
            r == node_len(f@[self.spec_id()].pure),
    {
        text_len_raw(f, self.id)
    }

    /// The leaf's parent, if it is attached.
    pub fn parent(&self, f: &SyntaxForest) -> (r: Option<SyntaxTree>)
        requires
            wf_forest(f@),
            token_ok(f@, *self),
        ensures
            match r {
                Some(h) => f@[self.spec_id()].parent == Some(h.spec_id()) && tree_ok(f@, h),
                None => f@[self.spec_id()].parent is None,
            },
    {
        parent_raw(f, self.id)
    }

    /// The leaf's next sibling.
    pub fn next_sibling(&self, f: &mut SyntaxForest) -> (r: Option<SyntaxChild>)
        requires
            wf_forest(old(f)@),
            token_ok(old(f)@, *self),
        ensures
            wf_forest(final(f)@),
            preserves_records(old(f)@, final(f)@),
            match old(f)@[self.spec_id()].parent {
                None => r is None && final(f)@ == old(f)@,
                Some(p) => get_child_post(
                    old(f)@,
                    final(f)@,
                    p,
                    old(f)@[self.spec_id()].index + 1,
                    r,
                ),
            },
    {
        next_sibling_raw(f, self.id)
    }

    /// The leaf's previous sibling.
    pub fn prev_sibling(&self, f: &mut SyntaxForest) -> (r: Option<SyntaxChild>)
        requires
            wf_forest(old(f)@),
            token_ok(old(f)@, *self),
        ensures
            wf_forest(final(f)@),
            preserves_records(old(f)@, final(f)@),
            match old(f)@[self.spec_id()].parent {
                None => r is None && final(f)@ == old(f)@,
                Some(p) => {
                    if old(f)@[self.spec_id()].index == 0 {
                        r is None && final(f)@ == old(f)@
                    } else {
                        get_child_post(
                            old(f)@,
                            final(f)@,
                            p,
                            old(f)@[self.spec_id()].index - 1,
                            r,
                        )
                    }
                },
            },
    {
        prev_sibling_raw(f, self.id)
    }
}

impl SyntaxChild {
    /// The node's kind tag.
    pub fn kind(&self, f: &SyntaxForest) -> (r: &'static str)
        requires
            wf_forest(f@),
            child_handle_ok(f@, *self),
        ensures
            r@ == crate::model::node_kind(f@[self.spec_id()].pure),
    {
        match self {
            SyntaxChild::Tree(t) => t.kind(f),
            SyntaxChild::Token(t) => t.kind(f),
        }
    }

    /// The absolute byte offset of the node's text within its tree.
    pub fn offset(&self, f: &SyntaxForest) -> (r: usize)
        requires
            wf_forest(f@),
            child_handle_ok(f@, *self),
        ensures
            r == abs_offset(f@, self.spec_id()),
    {
        match self {
            SyntaxChild::Tree(t) => t.offset(f),
            SyntaxChild::Token(t) => t.offset(f),
        }
    }

    /// The byte length of the node's text.
    pub fn text_len(&self, f: &SyntaxForest) -> (r: usize)
        requires
            wf_forest(f@),
            child_handle_ok(f@, *self),
        ensures
            r == node_len(f@[self.spec_id()].pure),
    {
        match self {
            SyntaxChild::Tree(t) => t.text_len(f),
            SyntaxChild::Token(t) => t.text_len(f),
        }
    }

    /// The node's parent, if it is attached.
    pub fn parent(&self, f: &SyntaxForest) -> (r: Option<SyntaxTree>)
        requires
            wf_forest(f@),
            child_handle_ok(f@, *self),
        ensures
            match r {
                Some(h) => f@[self.spec_id()].parent == Some(h.spec_id()) && tree_ok(f@, h),
                None => f@[self.spec_id()].parent is None,
            },
    {
        match self {
            SyntaxChild::Tree(t) => t.parent(f),
            SyntaxChild::Token(t) => t.parent(f),
        }
    }

    /// The node's next sibling.
    pub fn next_sibling(&self, f: &mut SyntaxForest) -> (r: Option<SyntaxChild>)
        requires
            wf_forest(old(f)@),
            child_handle_ok(old(f)@, *self),
        ensures
            wf_forest(final(f)@),
            preserves_records(old(f)@, final(f)@),
            match old(f)@[self.spec_id()].parent {
                None => r is None && final(f)@ == old(f)@,
                Some(p) => get_child_post(
                    old(f)@,
                    final(f)@,
                    p,
                    old(f)@[self.spec_id()].index + 1,
                    r,
                ),
            },
    {
        match self {
            SyntaxChild::Tree(t) => t.next_sibling(f),
            SyntaxChild::Token(t) => t.next_sibling(f),
        }
    }

    /// The node's previous sibling.
    pub fn prev_sibling(&self, f: &mut SyntaxForest) -> (r: Option<SyntaxChild>)
        requires
            wf_forest(old(f)@),
            child_handle_ok(old(f)@, *self),
        ensures
            wf_forest(final(f)@),
            preserves_records(old(f)@, final(f)@),
            match old(f)@[self.spec_id()].parent {
                None => r is None && final(f)@ == old(f)@,
                Some(p) => {
                    if old(f)@[self.spec_id()].index == 0 {
                        r is None && final(f)@ == old(f)@
                    } else {
                        get_child_post(
                            old(f)@,
                            final(f)@,
                            p,
                            old(f)@[self.spec_id()].index - 1,
                            r,
                        )
                    }
                },
            },
    {
        match self {
            SyntaxChild::Tree(t) => t.prev_sibling(f),
            SyntaxChild::Token(t) => t.prev_sibling(f),
        }
    }

    /// Detaches the node from its parent; see `SyntaxTree::detach`.
    pub fn detach(&self, f: &mut SyntaxForest)
        requires
            wf_forest(old(f)@),
            child_handle_ok(old(f)@, *self),
        ensures
            wf_forest(final(f)@),
            final(f)@ == spec_detach(old(f)@, self.spec_id()),
            final(f)@.len() == old(f)@.len(),
    {
        match self {
            SyntaxChild::Tree(t) => t.detach(f),
            SyntaxChild::Token(t) => t.detach(f),
        }
    }
}

impl From<SyntaxTree> for SyntaxChild {
    fn from(v: SyntaxTree) -> (r: SyntaxChild) {
        SyntaxChild::Tree(v)
    }
}

impl vstd::std_specs::convert::FromSpecImpl<SyntaxTree> for SyntaxChild {
    open spec fn obeys_from_spec() -> bool {
        true
    }

    open spec fn from_spec(v: SyntaxTree) -> SyntaxChild {
        SyntaxChild::Tree(v)
    }
}

impl From<SyntaxToken> for SyntaxChild {
    fn from(v: SyntaxToken) -> (r: SyntaxChild) {
        SyntaxChild::Token(v)
    }
}

impl vstd::std_specs::convert::FromSpecImpl<SyntaxToken> for SyntaxChild {
    open spec fn obeys_from_spec() -> bool {
        true
    }

    open spec fn from_spec(v: SyntaxToken) -> SyntaxChild {
        SyntaxChild::Token(v)
    }
}

/// Handles of the same variant that name the same record are the same
/// handle.
pub proof fn lemma_handles_equal(h1: SyntaxChild, h2: SyntaxChild)
    requires
        h1.spec_id() == h2.spec_id(),
        h1 is Tree <==> h2 is Tree,
    ensures
        h1 == h2,
{
}

/// The spine of a node is untouched by the record surgery of a detach
/// or an insertion at one of its entries' children: entries keep their
/// parent, pure subtree and index, so the climb keeps its properties.
pub proof fn lemma_chain_transfer(f: Seq<RedV>, fs: Seq<RedV>, p: int)
    requires
        wf_forest(f),
        0 <= p < f.len(),
        f[p].pure is Branch,
        fs.len() == f.len(),
        forall|n: int| 0 <= n < f.len() ==> (#[trigger] fs[n]).pure == f[n].pure,
        forall|n: int|
            0 <= n < f.len() && ((#[trigger] fs[n]).parent != f[n].parent || fs[n].index != f[
                n].index) ==> !chain_of(f, p).contains(n),
    ensures
        chain_props(fs, chain_of(f, p)),
        forall|k: int|
            0 <= k < chain_of(f, p).len() ==> (#[trigger] fs[chain_of(f, p)[k]]) == f[chain_of(
                f,
                p,
            )[k]] || fs[chain_of(f, p)[k]].pure == f[chain_of(f, p)[k]].pure && fs[chain_of(
                f,
                p,
            )[k]].parent == f[chain_of(f, p)[k]].parent && fs[chain_of(f, p)[k]].index
                == f[chain_of(f, p)[k]].index,
{
    lemma_chain_props(f, p);
    let ch = chain_of(f, p);
    assert forall|k: int| 0 <= k < ch.len() implies (#[trigger] fs[ch[k]]).parent == f[
        ch[k]].parent && fs[ch[k]].pure == f[ch[k]].pure && fs[ch[k]].index == f[
        ch[k]].index by {
        assert(ch.contains(ch[k]));
    }
}

/// What a detach does to the forest model: the node becomes a
/// parentless root keeping its pure subtree, the former parent's branch
/// loses the child record, later materialized siblings are renumbered
/// down, and the whole forest stays well formed.
#[verifier::rlimit(100)]
pub proof fn lemma_detach_state(f: Seq<RedV>, id: int)
    requires
        wf_forest(f),
        0 <= id < f.len(),
        f[id].parent is Some,
    ensures
        wf_forest(spec_detach(f, id)),
        spec_detach(f, id).len() == f.len(),
        spec_detach(f, id)[id].parent is None,
        spec_detach(f, id)[id].index == 0,
        spec_detach(f, id)[id].pure == f[id].pure,
        spec_detach(f, id)[parent_of(f, id)].pure == NodeV::Branch(
            remove_at(branch_of(f[parent_of(f, id)].pure), f[id].index),
        ),
        forall|n: int|
            0 <= n < f.len() && n != id && (#[trigger] f[n]).parent == Some(parent_of(f, id))
                ==> {
                &&& spec_detach(f, id)[n].parent == f[n].parent
                &&& spec_detach(f, id)[n].pure == f[n].pure
                &&& spec_detach(f, id)[n].index == (if f[n].index > f[id].index {
                    f[n].index - 1
                } else {
                    f[n].index
                })
            },
        forall|n: int|
            0 <= n < f.len() && !chain_of(f, parent_of(f, id)).contains(n) && n != id && f[
                n].parent != Some(parent_of(f, id)) ==> #[trigger] spec_detach(f, id)[n] == f[n],
{
    let p = parent_of(f, id);
    let i = f[id].index;
    assert(node_ok(f, id));
    lemma_detach_surgery(f, id);
    let fs = detach_surgery(f, id);
    let np = NodeV::Branch(remove_at(branch_of(f[p].pure), i));
    lemma_chain_props(f, p);
    let ch = chain_of(f, p);
    assert forall|n: int|
        0 <= n < f.len() && ((#[trigger] fs[n]).parent != f[n].parent || fs[n].index != f[
            n].index) implies !ch.contains(n) by {
        assert(f[n].parent == Some(p) || n == id);
        if ch.contains(n) {
            let k = choose|k: int| 0 <= k < ch.len() && ch[k] == n;
            lemma_parent_size_gt(f, n);
            if k > 0 {
                assert(node_size(f[ch[0]].pure) < node_size(f[ch[k]].pure));
            }
        }
    }
    lemma_chain_transfer(f, fs, p);
    assert(node_ok(f, p));
    crate::model::lemma_remove_at_wf(branch_of(f[p].pure), i);
    lemma_propagate_wf(fs, ch, np);
    lemma_propagate_frame(fs, ch, np);
    assert(spec_detach(f, id) == propagate_along(fs, ch, np));
    assert forall|k: int| 0 <= k < ch.len() implies #[trigger] ch[k] != id by {
        lemma_parent_size_gt(f, id);
        if k > 0 {
            assert(node_size(f[ch[0]].pure) < node_size(f[ch[k]].pure));
        }
    }
    assert(!ch.contains(id));
    assert forall|n: int|
        0 <= n < f.len() && n != id && (#[trigger] f[n]).parent == Some(p) implies !ch.contains(
        n,
    ) by {
        if ch.contains(n) {
            let k = choose|k: int| 0 <= k < ch.len() && ch[k] == n;
            lemma_parent_size_gt(f, n);
            if k > 0 {
                assert(node_size(f[ch[0]].pure) < node_size(f[ch[k]].pure));
            }
        }
    }
}

/// What an insertion does to the forest model: the detached node is
/// anchored under its new parent at the given index, the parent's
/// branch gains the child record there, later materialized siblings are
/// renumbered up, and the whole forest stays well formed.
#[verifier::rlimit(100)]
pub proof fn lemma_insert_state(f: Seq<RedV>, p: int, i: int, c: int)
    requires
        wf_forest(f),
        0 <= p < f.len(),
        0 <= c < f.len(),
        f[p].pure is Branch,
        f[c].parent is None,
        !chain_of(f, p).contains(c),
        0 <= i <= branch_of(f[p].pure).children.len(),
    ensures
        wf_forest(spec_insert_child(f, p, i, c)),
        spec_insert_child(f, p, i, c).len() == f.len(),
        is_live_child(spec_insert_child(f, p, i, c), p, i, c),
        spec_insert_child(f, p, i, c)[c].pure == f[c].pure,
        spec_insert_child(f, p, i, c)[p].pure == NodeV::Branch(
            insert_at(branch_of(f[p].pure), i, f[c].pure),
        ),
        forall|n: int|
            0 <= n < f.len() && n != c && (#[trigger] f[n]).parent == Some(p) ==> {
                &&& spec_insert_child(f, p, i, c)[n].parent == f[n].parent
                &&& spec_insert_child(f, p, i, c)[n].pure == f[n].pure
                &&& spec_insert_child(f, p, i, c)[n].index == (if f[n].index >= i {
                    f[n].index + 1
                } else {
                    f[n].index
                })
            },
        forall|n: int|
            0 <= n < f.len() && !chain_of(f, p).contains(n) && n != c && f[n].parent != Some(p)
                ==> #[trigger] spec_insert_child(f, p, i, c)[n] == f[n],
{
    lemma_chain_props(f, p);
    let ch = chain_of(f, p);
    assert(ch[0] == p);
    if c == p {
        assert(ch.contains(c));
    }
    assert(c != p);
    lemma_insert_surgery(f, p, i, c);
    let fs = insert_surgery(f, p, i, c);
    let np = NodeV::Branch(insert_at(branch_of(f[p].pure), i, f[c].pure));
    assert forall|n: int|
        0 <= n < f.len() && ((#[trigger] fs[n]).parent != f[n].parent || fs[n].index != f[
            n].index) implies !ch.contains(n) by {
        assert(f[n].parent == Some(p) || n == c);
        if n != c && ch.contains(n) {
            let k = choose|k: int| 0 <= k < ch.len() && ch[k] == n;
            lemma_parent_size_gt(f, n);
            if k > 0 {
                assert(node_size(f[ch[0]].pure) < node_size(f[ch[k]].pure));
            }
        }
    }
    lemma_chain_transfer(f, fs, p);
    assert(node_ok(f, p));
    assert(node_ok(f, c));
    crate::model::lemma_insert_at_wf(branch_of(f[p].pure), i, f[c].pure);
    lemma_propagate_wf(fs, ch, np);
    lemma_propagate_frame(fs, ch, np);
    assert(spec_insert_child(f, p, i, c) == propagate_along(fs, ch, np));
    assert(!ch.contains(c));
    assert forall|n: int|
        0 <= n < f.len() && n != c && (#[trigger] f[n]).parent == Some(p) implies !ch.contains(
        n,
    ) by {
        if ch.contains(n) {
            let k = choose|k: int| 0 <= k < ch.len() && ch[k] == n;
            lemma_parent_size_gt(f, n);
            if k > 0 {
                assert(node_size(f[ch[0]].pure) < node_size(f[ch[k]].pure));
            }
        }
    }
}

impl SyntaxTree {
    /// The compact rendering of the branch: its kind tag alone.
    pub fn render(&self, f: &SyntaxForest) -> (r: String)
        requires
            wf_forest(f@),
            tree_ok(f@, *self),
        ensures
            r@ == crate::model::node_kind(f@[self.spec_id()].pure),
    {
        proof {
            lemma_forest_view(f);
            lemma_payload_view(f.nodes@[self.id as int].pure);
        }
        match &f.nodes[self.id].pure {
            PureChildKind::Tree(t) => t.render(),
            PureChildKind::Token(_) => unreached(),
        }
    }

    /// The indented rendering of the whole pure subtree under this
    /// branch.
    pub fn render_indented(&self, f: &SyntaxForest) -> (r: String)
        requires
            wf_forest(f@),
            tree_ok(f@, *self),
            2 * node_size(f@[self.spec_id()].pure) <= usize::MAX,
        ensures
            r@ == crate::model::render_node_spec(f@[self.spec_id()].pure, 0),
    {
        proof {
            lemma_forest_view(f);
            lemma_payload_view(f.nodes@[self.id as int].pure);
        }
        match &f.nodes[self.id].pure {
            PureChildKind::Tree(t) => t.render_indented(),
            PureChildKind::Token(_) => unreached(),
        }
    }
}

impl SyntaxToken {
    /// The line the leaf renders to: its quoted text, then its kind.
    pub fn render(&self, f: &SyntaxForest) -> (r: String)
        requires
            wf_forest(f@),
            token_ok(f@, *self),
        ensures
            f@[self.spec_id()].pure matches NodeV::Leaf(l) && r@ == crate::model::leaf_line(l),
    {
        proof {
            lemma_forest_view(f);
            lemma_payload_view(f.nodes@[self.id as int].pure);
        }
        match &f.nodes[self.id].pure {
            PureChildKind::Token(t) => t.render(),
            PureChildKind::Tree(_) => unreached(),
        }
    }
}

} // verus!
