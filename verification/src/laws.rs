//! The laws of the library, stated and proved once over the models that
//! the executable functions' contracts speak of: the offset invariants of
//! the pure and syntax layers, identity caching, what edits do to the
//! neighbourhood of the edit site, the edit round trip, and the order of
//! the sibling rosters.

use vstd::prelude::*;

use crate::model::{
    insert_at, lemma_insert_remove_round_trip, prefix_len, remove_at, wf_branch, BranchV, NodeV,
};
use crate::syntax::{
    abs_offset, branch_of, chain_of, get_child_post, is_live_child, lemma_detach_state,
    lemma_handles_equal, lemma_insert_state, lemma_live_child_unique, live_child_at, node_ok,
    parent_of, spec_detach, spec_insert_child, wf_forest, RedV, SyntaxChild,
};

verus! {

/// In every well-formed pure branch, each child's offset is the sum of
/// the text lengths of the children before it, and the branch's total
/// text length is the sum over all children.
pub proof fn law_pure_offsets(b: BranchV, i: int)
    requires
        wf_branch(b),
        0 <= i < b.children.len(),
    ensures
        b.children[i].offset == prefix_len(b.children, i),
        b.text_len == prefix_len(b.children, b.children.len() as int),
{
}

/// In every well-formed forest, an attached node's absolute offset is
/// its parent's absolute offset plus the offset stored in the parent's
/// child record for it.
pub proof fn law_child_offset(f: Seq<RedV>, n: int)
    requires
        wf_forest(f),
        0 <= n < f.len(),
        f[n].parent is Some,
    ensures
        abs_offset(f, n) == abs_offset(f, parent_of(f, n)) + branch_of(
            f[parent_of(f, n)].pure,
        ).children[f[n].index].offset,
{
    assert(node_ok(f, n));
}

/// A root's — or any detached node's — absolute offset is 0.
pub proof fn law_root_offset(f: Seq<RedV>, n: int)
    requires
        wf_forest(f),
        0 <= n < f.len(),
        f[n].parent is None,
    ensures
        abs_offset(f, n) == 0,
{
}

/// Identity caching: two successive lookups of the first child of the
/// same branch return the same handle, and the second lookup changes
/// nothing.
pub proof fn law_identity_caching(
    f0: Seq<RedV>,
    f1: Seq<RedV>,
    f2: Seq<RedV>,
    p: int,
    r1: Option<SyntaxChild>,
    r2: Option<SyntaxChild>,
)
    requires
        wf_forest(f0),
        wf_forest(f1),
        0 <= p < f0.len(),
        f0[p].pure is Branch,
        get_child_post(f0, f1, p, 0, r1),
        get_child_post(f1, f2, p, 0, r2),
    ensures
        r1 == r2,
        f2 == f1,
{
    let b = branch_of(f0[p].pure);
    assert(f1[p].pure == f0[p].pure);
    if b.children.len() == 0 {
    } else {
        let h1 = r1->Some_0;
        let h2 = r2->Some_0;
        assert(is_live_child(f1, p, 0, h1.spec_id()));
        lemma_live_child_unique(f1, p, 0, h1.spec_id());
        assert(live_child_at(f1, p, 0) == Some(h1.spec_id()));
        assert(h2.spec_id() == h1.spec_id());
        lemma_handles_equal(h1, h2);
    }
}

/// After a detach, the detached node has no parent, the former parent
/// has one child fewer, and the whole forest — offsets and text lengths
/// of every remaining node included — is still well formed.
pub proof fn law_detach(f: Seq<RedV>, id: int)
    requires
        wf_forest(f),
        0 <= id < f.len(),
        f[id].parent is Some,
    ensures
        spec_detach(f, id)[id].parent is None,
        branch_of(spec_detach(f, id)[parent_of(f, id)].pure).children.len() + 1 == branch_of(
            f[parent_of(f, id)].pure,
        ).children.len(),
        wf_forest(spec_detach(f, id)),
{
    lemma_detach_state(f, id);
    assert(node_ok(f, id));
}

/// After inserting the detached node `c` as child `i` of `p`, the
/// materialized child of `p` at index `i` is `c` itself, and every
/// previously materialized sibling at an index `j >= i` stands at
/// `j + 1` with its pure subtree unchanged.
pub proof fn law_insert(f: Seq<RedV>, p: int, i: int, c: int, x: int, j: int)
    requires
        wf_forest(f),
        0 <= p < f.len(),
        0 <= c < f.len(),
        f[p].pure is Branch,
        f[c].parent is None,
        !chain_of(f, p).contains(c),
        0 <= i <= branch_of(f[p].pure).children.len(),
        is_live_child(f, p, j, x),
        j >= i,
    ensures
        live_child_at(spec_insert_child(f, p, i, c), p, i) == Some(c),
        is_live_child(spec_insert_child(f, p, i, c), p, j + 1, x),
        spec_insert_child(f, p, i, c)[x].pure == f[x].pure,
{
    lemma_insert_state(f, p, i, c);
    let f1 = spec_insert_child(f, p, i, c);
    lemma_live_child_unique(f1, p, i, c);
    assert(x != c);
}

/// Round trip: inserting a detached node and detaching it again
/// restores the parent's pure tree exactly, and the node's own pure
/// subtree rides along unchanged.
pub proof fn law_insert_detach_round_trip(f: Seq<RedV>, p: int, i: int, c: int)
    requires
        wf_forest(f),
        0 <= p < f.len(),
        0 <= c < f.len(),
        f[p].pure is Branch,
        f[c].parent is None,
        !chain_of(f, p).contains(c),
        0 <= i <= branch_of(f[p].pure).children.len(),
    ensures
        spec_detach(spec_insert_child(f, p, i, c), c)[p].pure == f[p].pure,
        spec_detach(spec_insert_child(f, p, i, c), c)[c].pure == f[c].pure,
        spec_detach(spec_insert_child(f, p, i, c), c)[c].parent is None,
        wf_forest(spec_detach(spec_insert_child(f, p, i, c), c)),
{
    lemma_insert_state(f, p, i, c);
    let f1 = spec_insert_child(f, p, i, c);
    lemma_detach_state(f1, c);
    assert(parent_of(f1, c) == p);
    assert(node_ok(f, p));
    let b = branch_of(f[p].pure);
    lemma_insert_remove_round_trip(b, i, f[c].pure);
    assert(branch_of(f1[p].pure) == insert_at(b, i, f[c].pure));
    assert(spec_detach(f1, c)[p].pure == NodeV::Branch(remove_at(insert_at(b, i, f[c].pure), i)));
    assert(f[p].pure == NodeV::Branch(b));
}

/// At every quiescent point the materialized children of any branch
/// form a roster strictly ordered by child index, and no two of them
/// share an index.
pub proof fn law_sibling_order(f: Seq<RedV>, p: int, j: int, k: int)
    requires
        wf_forest(f),
        0 <= p < f.len(),
        0 <= j < k < f[p].live.len(),
    ensures
        f[f[p].live[j]].index < f[f[p].live[k]].index,
        f[p].live[j] != f[p].live[k],
{
    assert(crate::syntax::roster_ok(f, p));
    assert(f[f[p].live[j]].index < f[f[p].live[k]].index);
}

} // verus!
