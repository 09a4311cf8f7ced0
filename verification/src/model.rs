//! Mathematical model of the pure layer.
//!
//! A pure tree is modelled by the recursive datatype [`NodeV`]: a branch
//! carries a kind, a cached total text length and a sequence of children,
//! each tagged with its byte offset from the start of the branch's text; a
//! leaf carries a kind and its text.  [`wf_node`] states the structural
//! invariant: every child's offset is the sum of the text lengths of the
//! children before it, and a branch's `text_len` is the sum over all its
//! children.  The three edits of the pure layer are modelled by
//! [`insert_at`], [`remove_at`] and [`replace_at`].

use vstd::prelude::*;
use vstd::utf8::encode_utf8;

verus! {

/// Model of a pure leaf: a kind tag and the leaf's text.
pub struct LeafV {
    pub kind: Seq<char>,
    pub text: Seq<char>,
}

/// Model of one child record of a branch: the child's byte offset within
/// the parent and the child itself.
pub struct ChildV {
    pub offset: nat,
    pub node: NodeV,
}

/// Model of a pure branch: a kind tag, the total byte length of the text
/// under it, and its ordered children.
pub struct BranchV {
    pub kind: Seq<char>,
    pub text_len: nat,
    pub children: Seq<ChildV>,
}

/// Model of a pure node: either a branch or a leaf.
pub enum NodeV {
    Branch(BranchV),
    Leaf(LeafV),
}

/// Byte length of a leaf's text: the length of its UTF-8 encoding,
/// clipped to the machine word exactly as vstd's model of `str::len`
/// clips it.
pub open spec fn leaf_len(l: LeafV) -> nat {
    (encode_utf8(l.text).len() as usize) as nat
}

/// Text length of a node: the stored total for a branch, the byte length
/// of the text for a leaf.
pub open spec fn node_len(n: NodeV) -> nat {
    match n {
        NodeV::Branch(b) => b.text_len,
        NodeV::Leaf(l) => leaf_len(l),
    }
}

/// Kind tag of a node.
pub open spec fn node_kind(n: NodeV) -> Seq<char> {
    match n {
        NodeV::Branch(b) => b.kind,
        NodeV::Leaf(l) => l.kind,
    }
}

/// Sum of the text lengths of the first `i` children.
pub open spec fn prefix_len(s: Seq<ChildV>, i: int) -> nat
    decreases i,
{
    if i <= 0 {
        0
    } else {
        prefix_len(s, i - 1) + node_len(s[i - 1].node)
    }
}

/// The offsets of `s` are the prefix sums of the children's text lengths.
pub open spec fn offsets_ok(s: Seq<ChildV>) -> bool {
    forall|i: int| 0 <= i < s.len() ==> s[i].offset == prefix_len(s, i)
}

/// Every child of `s` is itself well formed (stated by recursion over the
/// sequence so that termination is structural).
pub open spec fn wf_children(s: Seq<ChildV>) -> bool
    decreases s,
{
    if s.len() == 0 {
        true
    } else {
        wf_children(s.subrange(0, s.len() - 1)) && wf_node(s[s.len() - 1].node)
    }
}

/// Structural invariant of a branch: well-formed children, prefix-sum
/// offsets, and a total text length equal to the sum over the children.
pub open spec fn wf_branch(b: BranchV) -> bool
    decreases b,
{
    &&& wf_children(b.children)
    &&& offsets_ok(b.children)
    &&& b.text_len == prefix_len(b.children, b.children.len() as int)
}

/// Structural invariant of a node.
pub open spec fn wf_node(n: NodeV) -> bool
    decreases n,
{
    match n {
        NodeV::Branch(b) => wf_branch(b),
        NodeV::Leaf(l) => true,
    }
}

/// `wf_children` spelled out child by child.
pub proof fn lemma_wf_children_index(s: Seq<ChildV>)
    ensures
        wf_children(s) <==> forall|i: int| 0 <= i < s.len() ==> wf_node(#[trigger] s[i].node),
    decreases s.len(),
{
    if s.len() > 0 {
        lemma_wf_children_index(s.subrange(0, s.len() - 1));
        if wf_children(s) {
            assert forall|i: int| 0 <= i < s.len() implies wf_node(#[trigger] s[i].node) by {
                if i < s.len() - 1 {
                    assert(s.subrange(0, s.len() - 1)[i] == s[i]);
                }
            }
        }
        if forall|i: int| 0 <= i < s.len() ==> wf_node(#[trigger] s[i].node) {
            assert forall|i: int| 0 <= i < s.subrange(0, s.len() - 1).len()
                implies wf_node(#[trigger] s.subrange(0, s.len() - 1)[i].node) by {
                assert(s.subrange(0, s.len() - 1)[i] == s[i]);
            }
        }
    }
}

/// Prefix sums are monotone, and each stays within the total.
pub proof fn lemma_prefix_len_monotone(s: Seq<ChildV>, i: int, j: int)
    requires
        0 <= i <= j,
    ensures
        prefix_len(s, i) <= prefix_len(s, j),
    decreases j - i,
{
    if i < j {
        lemma_prefix_len_monotone(s, i, j - 1);
    }
}

/// A prefix sum only depends on the lengths of the children before `i`.
pub proof fn lemma_prefix_len_congruence(s: Seq<ChildV>, t: Seq<ChildV>, i: int)
    requires
        0 <= i <= s.len(),
        i <= t.len(),
        forall|j: int| 0 <= j < i ==> node_len(s[j].node) == node_len(#[trigger] t[j].node),
    ensures
        prefix_len(s, i) == prefix_len(t, i),
    decreases i,
{
    if i > 0 {
        lemma_prefix_len_congruence(s, t, i - 1);
    }
}

/// Result of inserting node `n` as child `i` of branch `b`: the new child
/// takes the offset that child `i` had (the prefix sum at `i`), later
/// children shift right by `n`'s length, and the total grows by it.
pub open spec fn insert_at(b: BranchV, i: int, n: NodeV) -> BranchV {
    BranchV {
        kind: b.kind,
        text_len: b.text_len + node_len(n),
        children: Seq::new(
            (b.children.len() + 1) as nat,
            |j: int|
                if j < i {
                    b.children[j]
                } else if j == i {
                    ChildV { offset: prefix_len(b.children, i), node: n }
                } else {
                    ChildV {
                        offset: b.children[j - 1].offset + node_len(n),
                        node: b.children[j - 1].node,
                    }
                },
        ),
    }
}

/// Result of removing child `i` of branch `b`: later children shift left
/// by the removed child's length, and the total shrinks by it.
pub open spec fn remove_at(b: BranchV, i: int) -> BranchV {
    BranchV {
        kind: b.kind,
        text_len: (b.text_len - node_len(b.children[i].node)) as nat,
        children: Seq::new(
            (b.children.len() - 1) as nat,
            |j: int|
                if j < i {
                    b.children[j]
                } else {
                    ChildV {
                        offset: (b.children[j + 1].offset - node_len(
                            b.children[i].node,
                        )) as nat,
                        node: b.children[j + 1].node,
                    }
                },
        ),
    }
}

/// Result of replacing the payload of child `i` of branch `b` by `n`:
/// later children shift by the length difference, and so does the total.
pub open spec fn replace_at(b: BranchV, i: int, n: NodeV) -> BranchV {
    BranchV {
        kind: b.kind,
        text_len: (b.text_len + node_len(n) - node_len(b.children[i].node)) as nat,
        children: Seq::new(
            b.children.len(),
            |j: int|
                if j < i {
                    b.children[j]
                } else if j == i {
                    ChildV { offset: b.children[i].offset, node: n }
                } else {
                    ChildV {
                        offset: (b.children[j].offset + node_len(n) - node_len(
                            b.children[i].node,
                        )) as nat,
                        node: b.children[j].node,
                    }
                },
        ),
    }
}

/// Prefix sums after an insertion at `i`: up to `i` they agree with the
/// old ones, after it they are the old ones shifted by the new length.
proof fn lemma_prefix_len_insert(b: BranchV, i: int, n: NodeV, j: int)
    requires
        0 <= i <= b.children.len(),
        i < j <= b.children.len() + 1,
    ensures
        prefix_len(insert_at(b, i, n).children, j) == prefix_len(b.children, j - 1)
            + node_len(n),
    decreases j,
{
    if j == i + 1 {
        lemma_prefix_len_congruence(insert_at(b, i, n).children, b.children, i);
    } else {
        lemma_prefix_len_insert(b, i, n, j - 1);
    }
}

/// Inserting a well-formed node keeps the branch well formed.
pub proof fn lemma_insert_at_wf(b: BranchV, i: int, n: NodeV)
    requires
        wf_branch(b),
        wf_node(n),
        0 <= i <= b.children.len(),
    ensures
        wf_branch(insert_at(b, i, n)),
{
    let t = insert_at(b, i, n).children;
    lemma_wf_children_index(b.children);
    lemma_wf_children_index(t);
    assert forall|j: int| 0 <= j < t.len() implies t[j].offset == prefix_len(t, j) by {
        if j < i {
            lemma_prefix_len_congruence(t, b.children, j);
        } else if j == i {
            lemma_prefix_len_congruence(t, b.children, i);
        } else {
            lemma_prefix_len_insert(b, i, n, j);
        }
    }
    lemma_prefix_len_insert(b, i, n, t.len() as int);
}

/// Prefix sums after a removal at `i`: up to `i` they agree with the old
/// ones, after it they are the old ones shifted by the removed length.
proof fn lemma_prefix_len_remove(b: BranchV, i: int, j: int)
    requires
        0 <= i < b.children.len(),
        i <= j <= b.children.len() - 1,
    ensures
        prefix_len(remove_at(b, i).children, j) + node_len(b.children[i].node)
            == prefix_len(b.children, j + 1),
    decreases j - i,
{
    if j == i {
        lemma_prefix_len_congruence(remove_at(b, i).children, b.children, i);
    } else {
        lemma_prefix_len_remove(b, i, j - 1);
    }
}

/// Removing a child keeps the branch well formed.
pub proof fn lemma_remove_at_wf(b: BranchV, i: int)
    requires
        wf_branch(b),
        0 <= i < b.children.len(),
    ensures
        wf_branch(remove_at(b, i)),
{
    let t = remove_at(b, i).children;
    lemma_wf_children_index(b.children);
    lemma_wf_children_index(t);
    assert forall|j: int| 0 <= j < t.len() implies t[j].offset == prefix_len(t, j) by {
        if j < i {
            lemma_prefix_len_congruence(t, b.children, j);
        } else {
            lemma_prefix_len_remove(b, i, j);
            lemma_prefix_len_monotone(b.children, j, j + 1);
        }
    }
    if t.len() == i {
        lemma_prefix_len_congruence(t, b.children, i);
    } else {
        lemma_prefix_len_remove(b, i, t.len() as int);
    }
}

/// Prefix sums after replacing child `i`: up to `i` they agree with the
/// old ones, after it they shift by the length difference.
proof fn lemma_prefix_len_replace(b: BranchV, i: int, n: NodeV, j: int)
    requires
        0 <= i < b.children.len(),
        i < j <= b.children.len(),
    ensures
        prefix_len(replace_at(b, i, n).children, j) + node_len(b.children[i].node)
            == prefix_len(b.children, j) + node_len(n),
    decreases j - i,
{
    if j == i + 1 {
        lemma_prefix_len_congruence(replace_at(b, i, n).children, b.children, i);
    } else {
        lemma_prefix_len_replace(b, i, n, j - 1);
    }
}

/// Replacing a child's payload by a well-formed node keeps the branch
/// well formed.
pub proof fn lemma_replace_at_wf(b: BranchV, i: int, n: NodeV)
    requires
        wf_branch(b),
        wf_node(n),
        0 <= i < b.children.len(),
    ensures
        wf_branch(replace_at(b, i, n)),
{
    let t = replace_at(b, i, n).children;
    lemma_wf_children_index(b.children);
    lemma_wf_children_index(t);
    assert forall|j: int| 0 <= j < t.len() implies t[j].offset == prefix_len(t, j) by {
        if j < i {
            lemma_prefix_len_congruence(t, b.children, j);
        } else if j == i {
            lemma_prefix_len_congruence(t, b.children, i);
        } else {
            lemma_prefix_len_replace(b, i, n, j);
            lemma_prefix_len_monotone(b.children, i + 1, j);
            lemma_prefix_len_monotone(b.children, 0, i);
        }
    }
    lemma_prefix_len_replace(b, i, n, t.len() as int);
    lemma_prefix_len_monotone(b.children, i + 1, t.len() as int);
}

/// Inserting a node at `i` and removing child `i` again restores the
/// branch exactly.
pub proof fn lemma_insert_remove_round_trip(b: BranchV, i: int, n: NodeV)
    requires
        wf_branch(b),
        0 <= i <= b.children.len(),
    ensures
        remove_at(insert_at(b, i, n), i) == b,
{
    let r = remove_at(insert_at(b, i, n), i);
    assert(r.children =~= b.children);
}

/// Size of a node: the number of nodes in the subtree under it.  Serves
/// as a termination measure for walks that climb from a node towards the
/// root of its tree.
pub open spec fn node_size(n: NodeV) -> nat
    decreases n,
{
    match n {
        NodeV::Branch(b) => 1 + children_size(b.children),
        NodeV::Leaf(l) => 1,
    }
}

/// Total size of a sequence of children.
pub open spec fn children_size(s: Seq<ChildV>) -> nat
    decreases s,
{
    if s.len() == 0 {
        0
    } else {
        children_size(s.subrange(0, s.len() - 1)) + node_size(s[s.len() - 1].node)
    }
}

/// A branch is strictly larger than each of its children.
pub proof fn lemma_child_size_lt(b: BranchV, i: int)
    requires
        0 <= i < b.children.len(),
    ensures
        node_size(b.children[i].node) < node_size(NodeV::Branch(b)),
{
    lemma_children_size_bound(b.children, i);
}

/// Each child's size is bounded by the size of the whole sequence.
proof fn lemma_children_size_bound(s: Seq<ChildV>, i: int)
    requires
        0 <= i < s.len(),
    ensures
        node_size(s[i].node) <= children_size(s),
    decreases s.len(),
{
    if i == s.len() - 1 {
    } else {
        lemma_children_size_bound(s.subrange(0, s.len() - 1), i);
        assert(s.subrange(0, s.len() - 1)[i] == s[i]);
    }
}

/// A run of `n` spaces.
pub open spec fn indent_spec(n: nat) -> Seq<char>
    decreases n,
{
    if n == 0 {
        Seq::empty()
    } else {
        indent_spec((n - 1) as nat).push(' ')
    }
}

/// The single line a leaf renders to: its text in quotes, a separator,
/// and its kind tag.
pub open spec fn leaf_line(l: LeafV) -> Seq<char> {
    seq!['"'] + l.text + seq!['"', ':', ' '] + l.kind
}

/// The indented rendering of a node: a branch prints its kind and then
/// its children two columns deeper; a leaf prints its line.
pub open spec fn render_node_spec(n: NodeV, ind: nat) -> Seq<char>
    decreases n,
{
    match n {
        NodeV::Leaf(l) => indent_spec(ind) + leaf_line(l) + seq!['\n'],
        NodeV::Branch(b) => indent_spec(ind) + b.kind + seq!['\n'] + render_children_spec(
            b.children,
            ind + 2,
        ),
    }
}

/// The renderings of a sequence of children, in order.
pub open spec fn render_children_spec(s: Seq<ChildV>, ind: nat) -> Seq<char>
    decreases s,
{
    if s.len() == 0 {
        Seq::empty()
    } else {
        render_children_spec(s.subrange(0, s.len() - 1), ind) + render_node_spec(
            s[s.len() - 1].node,
            ind,
        )
    }
}

/// Under the structural invariant each child starts and ends within the
/// parent's text: offset plus length never exceeds the total.
pub proof fn lemma_child_span_in_parent(b: BranchV, i: int)
    requires
        wf_branch(b),
        0 <= i < b.children.len(),
    ensures
        b.children[i].offset + node_len(b.children[i].node) <= b.text_len,
{
    assert(prefix_len(b.children, i + 1) == prefix_len(b.children, i) + node_len(
        b.children[i].node,
    ));
    lemma_prefix_len_monotone(b.children, i + 1, b.children.len() as int);
}

} // verus!
