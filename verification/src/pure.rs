//! The pure layer: immutable trees with structural sharing.
//!
//! A pure branch ([`PureTree`]) holds a kind tag, the total byte length of
//! the text under it and an ordered list of child records, each carrying
//! the child's byte offset within the branch.  A pure leaf ([`PureToken`])
//! holds a kind tag and its text.  Branches are built with the consuming
//! builder [`PureTreeData`] and edited copy-on-write: an edit returns a new
//! branch and shares the unmodified subtrees with the old one.
//!
//! Every tree built or edited here satisfies [`wf_branch`]: child offsets
//! are the prefix sums of the children's text lengths, and each branch's
//! `text_len` is their total.

use vstd::prelude::*;
use vstd::string::StringSliceAdditionalSpecFns;

use crate::delta::Delta;
use crate::model::{
    indent_spec, insert_at, leaf_len, leaf_line, lemma_child_size_lt, lemma_child_span_in_parent,
    lemma_insert_at_wf, lemma_prefix_len_monotone, lemma_remove_at_wf, lemma_replace_at_wf,
    lemma_wf_children_index, node_kind, node_len, node_size, prefix_len, remove_at,
    render_children_spec, render_node_spec, replace_at, wf_branch, wf_node, BranchV, ChildV,
    LeafV, NodeV,
};
use vstd::string::StringExecFns;

verus! {

/// A pure leaf node: a kind tag and its text.
#[derive(Clone)]
pub struct PureToken {
    kind: &'static str,
    text: String,
}

/// The payload of a pure child: a branch or a leaf.
#[derive(Clone)]
pub enum PureChildKind {
    Tree(PureTree),
    Token(PureToken),
}

/// One child record of a pure branch: the child's byte offset from the
/// start of the parent's text, and the child itself.
#[derive(Clone)]
pub struct PureChild {
    pub offset: usize,
    pub kind: PureChildKind,
}

/// The contents of a pure branch, and the consuming builder for one:
/// `PureTree::new` starts it, `push` appends children, `into_tree` (or
/// the `From` conversions) freezes it into an immutable branch.
#[derive(Clone)]
pub struct PureTreeData {
    kind: &'static str,
    text_len: usize,
    children: Vec<PureChild>,
}

/// An immutable, cheaply cloneable, structurally shared pure branch.
#[derive(Clone)]
pub struct PureTree {
    data: std::sync::Arc<PureTreeData>,
}

/// Model of a leaf.
pub closed spec fn spec_token_view(t: PureToken) -> LeafV {
    LeafV { kind: t.kind@, text: t.text@ }
}

/// Model of a child payload.
pub closed spec fn spec_node_view(k: PureChildKind) -> NodeV
    decreases k,
{
    match k {
        PureChildKind::Tree(t) => NodeV::Branch(spec_tree_view(t)),
        PureChildKind::Token(t) => NodeV::Leaf(spec_token_view(t)),
    }
}

/// Model of a child record.
pub closed spec fn spec_child_view(c: PureChild) -> ChildV
    decreases c,
{
    ChildV { offset: c.offset as nat, node: spec_node_view(c.kind) }
}

/// Model of a sequence of child records.
pub closed spec fn spec_children_view(s: Seq<PureChild>) -> Seq<ChildV>
    decreases s,
{
    if s.len() == 0 {
        Seq::empty()
    } else {
        spec_children_view(s.subrange(0, s.len() - 1)).push(spec_child_view(s[s.len() - 1]))
    }
}

/// Model of a branch.
pub closed spec fn spec_tree_view(t: PureTree) -> BranchV
    decreases t,
{
    BranchV {
        kind: t.data.kind@,
        text_len: t.data.text_len as nat,
        children: spec_children_view(t.data.children@),
    }
}

/// Model of the builder: the same shape as the branch it will freeze to.
pub closed spec fn spec_data_view(d: PureTreeData) -> BranchV
    decreases d,
{
    BranchV {
        kind: d.kind@,
        text_len: d.text_len as nat,
        children: spec_children_view(d.children@),
    }
}

impl View for PureToken {
    type V = LeafV;

    open spec fn view(&self) -> LeafV {
        spec_token_view(*self)
    }
}

impl View for PureChildKind {
    type V = NodeV;

    open spec fn view(&self) -> NodeV {
        spec_node_view(*self)
    }
}

impl View for PureChild {
    type V = ChildV;

    open spec fn view(&self) -> ChildV {
        spec_child_view(*self)
    }
}

impl View for PureTree {
    type V = BranchV;

    open spec fn view(&self) -> BranchV {
        spec_tree_view(*self)
    }
}

impl View for PureTreeData {
    type V = BranchV;

    open spec fn view(&self) -> BranchV {
        spec_data_view(*self)
    }
}

/// The model of a sequence of child records, child by child.
pub proof fn lemma_children_view_index(s: Seq<PureChild>)
    ensures
        spec_children_view(s).len() == s.len(),
        forall|i: int| 0 <= i < s.len() ==> spec_children_view(s)[i] == spec_child_view(#[trigger] s[i]),
    decreases s.len(),
{
    if s.len() > 0 {
        lemma_children_view_index(s.subrange(0, s.len() - 1));
        assert forall|i: int| 0 <= i < s.len() implies spec_children_view(s)[i] == spec_child_view(
            #[trigger] s[i],
        ) by {
            if i < s.len() - 1 {
                assert(s.subrange(0, s.len() - 1)[i] == s[i]);
            }
        }
    }
}

impl From<PureToken> for PureChildKind {
    fn from(v: PureToken) -> (r: PureChildKind) {
        PureChildKind::Token(v)
    }
}

impl vstd::std_specs::convert::FromSpecImpl<PureToken> for PureChildKind {
    open spec fn obeys_from_spec() -> bool {
        true
    }

    open spec fn from_spec(v: PureToken) -> PureChildKind {
        PureChildKind::Token(v)
    }
}

impl From<PureTree> for PureChildKind {
    fn from(v: PureTree) -> (r: PureChildKind) {
        PureChildKind::Tree(v)
    }
}

impl vstd::std_specs::convert::FromSpecImpl<PureTree> for PureChildKind {
    open spec fn obeys_from_spec() -> bool {
        true
    }

    open spec fn from_spec(v: PureTree) -> PureChildKind {
        PureChildKind::Tree(v)
    }
}

impl From<PureTreeData> for PureTree {
    fn from(v: PureTreeData) -> (r: PureTree) {
        v.into_tree()
    }
}

/// The conversion allocates, so its exact result is not a function of
/// the builder alone; callers that need a contract use `into_tree`,
/// whose result's model is pinned down.
impl vstd::std_specs::convert::FromSpecImpl<PureTreeData> for PureTree {
    open spec fn obeys_from_spec() -> bool {
        false
    }

    open spec fn from_spec(v: PureTreeData) -> PureTree {
        choose|t: PureTree| t@ == v@
    }
}

impl From<PureTreeData> for PureChildKind {
    fn from(v: PureTreeData) -> (r: PureChildKind) {
        PureChildKind::Tree(v.into_tree())
    }
}

/// As for the conversion to `PureTree`: the exact result is not a
/// function of the builder alone; `into_tree` carries the contract.
impl vstd::std_specs::convert::FromSpecImpl<PureTreeData> for PureChildKind {
    open spec fn obeys_from_spec() -> bool {
        false
    }

    open spec fn from_spec(v: PureTreeData) -> PureChildKind {
        choose|k: PureChildKind| k@ == NodeV::Branch(v@)
    }
}

impl PureToken {
    /// Makes a leaf with the given kind tag and text.
    pub fn new(kind: &'static str, text: &str) -> (r: PureToken)
        ensures
            r@ == (LeafV { kind: kind@, text: text@ }),
    {
        PureToken { kind, text: text.to_owned() }
    }

    /// The leaf's kind tag.
    pub fn kind(&self) -> (r: &'static str)
        ensures
            r@ == self@.kind,
    {
        self.kind
    }

    /// The leaf's text.
    pub fn text(&self) -> (r: &str)
        ensures
            r@ == self@.text,
    {
        self.text.as_str()
    }

    /// The byte length of the leaf's text.
    pub fn text_len(&self) -> (r: usize)
        ensures
            r == leaf_len(self@),
    {
        let s = self.text.as_str();
        proof {
            assert(s.spec_bytes() == vstd::utf8::encode_utf8(self.text@));
        }
        s.len()
    }
}

impl PureChildKind {
    /// The payload's text length.
    pub fn text_len(&self) -> (r: usize)
        ensures
            r == node_len(self@),
    {
        match self {
            PureChildKind::Tree(t) => t.text_len(),
            PureChildKind::Token(t) => t.text_len(),
        }
    }

    /// The payload's kind tag.
    pub fn kind(&self) -> (r: &'static str)
        ensures
            r@ == node_kind(self@),
    {
        match self {
            PureChildKind::Tree(t) => t.kind(),
            PureChildKind::Token(t) => t.kind(),
        }
    }
}

/// The model of a payload keeps its variant: a `Tree` models to a
/// branch, a `Token` to a leaf.
pub proof fn lemma_payload_view(k: PureChildKind)
    ensures
        match k {
            PureChildKind::Tree(t) => k@ == NodeV::Branch(t@),
            PureChildKind::Token(t) => k@ == NodeV::Leaf(t@),
        },
{
}

/// A payload's text length fits the machine word: a branch stores it as
/// one, and a leaf's is clipped to one.
pub proof fn lemma_payload_len_bounded(k: PureChildKind)
    ensures
        node_len(k@) <= usize::MAX,
{
}

/// A branch payload's child count fits the machine word: the children
/// stand in a vector.
pub proof fn lemma_branch_arity_bounded(k: PureChildKind)
    ensures
        k@ matches NodeV::Branch(b) ==> b.children.len() <= usize::MAX,
{
    broadcast use vstd::std_specs::vec::axiom_spec_len;

    match k {
        PureChildKind::Tree(t) => {
            lemma_children_view_index(t.data.children@);
            assert(vstd::std_specs::vec::spec_vec_len(&t.data.children) == t.data.children@.len());
        },
        PureChildKind::Token(_) => {},
    }
}

/// Relies on `str`'s `PartialEq`: equality of `&str` values compares
/// their text.
#[verifier::external_body]
pub(crate) fn str_eq(a: &str, b: &str) -> (r: bool)
    ensures
        r == (a@ == b@),
{
    a == b
}

/// The model of a child record carries the record's own offset field and
/// the model of its payload.
pub proof fn lemma_child_record_view(c: PureChild)
    ensures
        c@.offset == c.offset as nat,
        c@.node == c.kind@,
{
}

/// Copies a leaf; the copy has the same model.
fn dup_token(t: &PureToken) -> (r: PureToken)
    ensures
        r@ == t@,
{
    PureToken { kind: t.kind, text: t.text.clone() }
}

/// Shares a branch: the copy shares the original's contents.
pub(crate) fn dup_tree(t: &PureTree) -> (r: PureTree)
    ensures
        r@ == t@,
{
    PureTree { data: t.data.clone() }
}

/// Copies a child payload, sharing any branch.
pub(crate) fn dup_payload(k: &PureChildKind) -> (r: PureChildKind)
    ensures
        r@ == k@,
{
    match k {
        PureChildKind::Tree(t) => PureChildKind::Tree(dup_tree(t)),
        PureChildKind::Token(t) => PureChildKind::Token(dup_token(t)),
    }
}

/// Copies a child record, sharing any branch.
pub(crate) fn dup_child(c: &PureChild) -> (r: PureChild)
    ensures
        r@ == c@,
{
    PureChild { offset: c.offset, kind: dup_payload(&c.kind) }
}

impl PureTree {
    /// Starts a builder for a branch of the given kind with no children.
    pub fn new(kind: &'static str) -> (r: PureTreeData)
        ensures
            r@ == (BranchV { kind: kind@, text_len: 0nat, children: Seq::<ChildV>::empty() }),
            wf_branch(r@),
    {
        PureTreeData { kind, text_len: 0, children: Vec::new() }
    }

    /// The branch's kind tag.
    pub fn kind(&self) -> (r: &'static str)
        ensures
            r@ == self@.kind,
    {
        self.data.kind
    }

    /// The total byte length of the text under the branch.
    pub fn text_len(&self) -> (r: usize)
        ensures
            r == self@.text_len,
    {
        self.data.text_len
    }

    /// The branch's child records, in order.
    pub fn children(&self) -> (r: Vec<PureChild>)
        ensures
            r@.len() == self@.children.len(),
            forall|i: int| 0 <= i < r@.len() ==> (#[trigger] r@[i])@ == self@.children[i],
    {
        proof {
            lemma_children_view_index(self.data.children@);
        }
        let n = self.data.children.len();
        let mut out: Vec<PureChild> = Vec::new();
        let mut j: usize = 0;
        while j < n
            invariant
                j <= n,
                n == self.data.children@.len(),
                out@.len() == j,
                forall|i: int| 0 <= i < j ==> (#[trigger] out@[i])@ == self@.children[i],
                forall|i: int|
                    0 <= i < n ==> self@.children[i] == spec_child_view(
                        #[trigger] self.data.children@[i],
                    ),
            decreases n - j,
        {
            out.push(dup_child(&self.data.children[j]));
            j += 1;
        }
        out
    }

    /// Returns a new branch without child `index`: later children keep
    /// their order and shift left by the removed child's text length, and
    /// the total shrinks by it.  Unaffected subtrees are shared.
    #[verifier::loop_isolation(false)]
    pub fn remove_child(&self, index: usize) -> (r: PureTree)
        requires
            wf_branch(self@),
            index < self@.children.len(),
        ensures
            r@ == remove_at(self@, index as int),
            wf_branch(r@),
    {
        proof {
            lemma_remove_at_wf(self@, index as int);
            lemma_children_view_index(self.data.children@);
        }
        let ghost target = remove_at(self@, index as int);
        let n = self.data.children.len();
        let removed_len = self.data.children[index].kind.text_len();
        let d = Delta::Sub(removed_len);
        let mut out: Vec<PureChild> = Vec::new();
        let mut j: usize = 0;
        while j < index
            invariant
                j <= index,
                out@.len() == j,
                forall|k: int| 0 <= k < j ==> (#[trigger] out@[k])@ == target.children[k],
            decreases index - j,
        {
            out.push(dup_child(&self.data.children[j]));
            j += 1;
        }
        j = index + 1;
        while j < n
            invariant
                index + 1 <= j <= n,
                out@.len() == j - 1,
                forall|k: int| 0 <= k < j - 1 ==> (#[trigger] out@[k])@ == target.children[k],
            decreases n - j,
        {
            let c = &self.data.children[j];
            proof {
                assert(self@.children[j as int].offset == prefix_len(self@.children, j as int));
                assert(prefix_len(self@.children, index + 1) == prefix_len(self@.children, index as int)
                    + node_len(self@.children[index as int].node));
                lemma_prefix_len_monotone(self@.children, index + 1, j as int);
            }
            let off = d.apply(c.offset);
            out.push(PureChild { offset: off, kind: dup_payload(&c.kind) });
            j += 1;
        }
        proof {
            assert(prefix_len(self@.children, index + 1) == prefix_len(self@.children, index as int)
                + node_len(self@.children[index as int].node));
            lemma_prefix_len_monotone(self@.children, index + 1, n as int);
        }
        let text_len = d.apply(self.data.text_len);
        let r = PureTree {
            data: std::sync::Arc::new(
                PureTreeData { kind: self.data.kind, text_len, children: out },
            ),
        };
        proof {
            lemma_children_view_index(r.data.children@);
            assert forall|i: int| 0 <= i < target.children.len() implies spec_children_view(
                r.data.children@,
            )[i] == target.children[i] by {
                assert(r.data.children@[i] == out@[i]);
            }
            assert(spec_children_view(r.data.children@) =~= target.children);
        }
        r
    }

    /// Returns a new branch with `child` inserted as child `index`: the
    /// new child takes the offset that child `index` had (the total text
    /// length when inserting at the end), later children shift right by
    /// the new child's text length, and the total grows by it.
    #[verifier::loop_isolation(false)]
    pub fn insert_child(&self, index: usize, child: PureChildKind) -> (r: PureTree)
        requires
            wf_branch(self@),
            wf_node(child@),
            index <= self@.children.len(),
            self@.text_len + node_len(child@) <= usize::MAX,
        ensures
            r@ == insert_at(self@, index as int, child@),
            wf_branch(r@),
    {
        proof {
            lemma_insert_at_wf(self@, index as int, child@);
            lemma_children_view_index(self.data.children@);
        }
        let ghost target = insert_at(self@, index as int, child@);
        let n = self.data.children.len();
        let clen = child.text_len();
        let d = Delta::Add(clen);
        let mut out: Vec<PureChild> = Vec::new();
        let mut j: usize = 0;
        while j < index
            invariant
                j <= index,
                out@.len() == j,
                forall|k: int| 0 <= k < j ==> (#[trigger] out@[k])@ == target.children[k],
            decreases index - j,
        {
            out.push(dup_child(&self.data.children[j]));
            j += 1;
        }
        let offset = if index < n {
            self.data.children[index].offset
        } else {
            self.data.text_len
        };
        out.push(PureChild { offset, kind: child });
        while j < n
            invariant
                index <= j <= n,
                out@.len() == j + 1,
                forall|k: int| 0 <= k < j + 1 ==> (#[trigger] out@[k])@ == target.children[k],
            decreases n - j,
        {
            let c = &self.data.children[j];
            proof {
                lemma_child_span_in_parent(self@, j as int);
            }
            let off = d.apply(c.offset);
            out.push(PureChild { offset: off, kind: dup_payload(&c.kind) });
            j += 1;
        }
        let text_len = d.apply(self.data.text_len);
        let r = PureTree {
            data: std::sync::Arc::new(
                PureTreeData { kind: self.data.kind, text_len, children: out },
            ),
        };
        proof {
            lemma_children_view_index(r.data.children@);
            assert forall|i: int| 0 <= i < target.children.len() implies spec_children_view(
                r.data.children@,
            )[i] == target.children[i] by {
                assert(r.data.children@[i] == out@[i]);
            }
            assert(spec_children_view(r.data.children@) =~= target.children);
        }
        r
    }

    /// Returns a new branch in which the payload of child `index` is
    /// `child`: that child keeps its offset, later children shift by the
    /// difference of the old and new text lengths, and so does the total.
    #[verifier::loop_isolation(false)]
    pub fn replace_child(&self, index: usize, child: PureChildKind) -> (r: PureTree)
        requires
            wf_branch(self@),
            wf_node(child@),
            index < self@.children.len(),
            self@.text_len - node_len(self@.children[index as int].node) + node_len(child@)
                <= usize::MAX,
        ensures
            r@ == replace_at(self@, index as int, child@),
            wf_branch(r@),
    {
        proof {
            lemma_replace_at_wf(self@, index as int, child@);
            lemma_children_view_index(self.data.children@);
        }
        let ghost target = replace_at(self@, index as int, child@);
        let n = self.data.children.len();
        let old_len = self.data.children[index].kind.text_len();
        let new_len = child.text_len();
        let d = Delta::new(old_len, new_len);
        let mut out: Vec<PureChild> = Vec::new();
        let mut j: usize = 0;
        while j < index
            invariant
                j <= index,
                out@.len() == j,
                forall|k: int| 0 <= k < j ==> (#[trigger] out@[k])@ == target.children[k],
            decreases index - j,
        {
            out.push(dup_child(&self.data.children[j]));
            j += 1;
        }
        out.push(PureChild { offset: self.data.children[index].offset, kind: child });
        j = index + 1;
        while j < n
            invariant
                index + 1 <= j <= n,
                out@.len() == j,
                forall|k: int| 0 <= k < j ==> (#[trigger] out@[k])@ == target.children[k],
            decreases n - j,
        {
            let c = &self.data.children[j];
            proof {
                assert(self@.children[j as int].offset == prefix_len(self@.children, j as int));
                assert(prefix_len(self@.children, index + 1) == prefix_len(self@.children, index as int)
                    + node_len(self@.children[index as int].node));
                lemma_prefix_len_monotone(self@.children, index + 1, j as int);
                lemma_child_span_in_parent(self@, j as int);
            }
            let off = d.apply(c.offset);
            out.push(PureChild { offset: off, kind: dup_payload(&c.kind) });
            j += 1;
        }
        proof {
            assert(prefix_len(self@.children, index + 1) == prefix_len(self@.children, index as int)
                + node_len(self@.children[index as int].node));
            lemma_prefix_len_monotone(self@.children, index + 1, n as int);
        }
        let text_len = d.apply(self.data.text_len);
        let r = PureTree {
            data: std::sync::Arc::new(
                PureTreeData { kind: self.data.kind, text_len, children: out },
            ),
        };
        proof {
            lemma_children_view_index(r.data.children@);
            assert forall|i: int| 0 <= i < target.children.len() implies spec_children_view(
                r.data.children@,
            )[i] == target.children[i] by {
                assert(r.data.children@[i] == out@[i]);
            }
            assert(spec_children_view(r.data.children@) =~= target.children);
        }
        r
    }

    /// The number of children of the branch.
    pub fn children_len(&self) -> (r: usize)
        ensures
            r == self@.children.len(),
    {
        proof {
            lemma_children_view_index(self.data.children@);
        }
        self.data.children.len()
    }

    /// The `index`-th child record, if there is one.
    pub fn get_child(&self, index: usize) -> (r: Option<&PureChild>)
        ensures
            match r {
                Some(c) => index < self@.children.len() && c@ == self@.children[index as int],
                None => index >= self@.children.len(),
            },
    {
        proof {
            lemma_children_view_index(self.data.children@);
        }
        if index < self.data.children.len() {
            Some(&self.data.children[index])
        } else {
            None
        }
    }
}

impl PureTreeData {
    /// Appends a child to the builder: the child's offset is the text
    /// length gathered so far, which then grows by the child's length.
    pub fn push(self, child: PureChildKind) -> (r: PureTreeData)
        requires
            wf_branch(self@),
            wf_node(child@),
            self@.text_len + node_len(child@) <= usize::MAX,
        ensures
            r@ == insert_at(self@, self@.children.len() as int, child@),
            wf_branch(r@),
    {
        proof {
            lemma_insert_at_wf(self@, self@.children.len() as int, child@);
            lemma_children_view_index(self.children@);
        }
        let ghost target = insert_at(self@, self@.children.len() as int, child@);
        let ghost olds = self.children@;
        let mut data = self;
        let len = child.text_len();
        let offset = data.text_len;
        data.children.push(PureChild { offset, kind: child });
        data.text_len = offset + len;
        proof {
            lemma_children_view_index(data.children@);
            assert forall|i: int| 0 <= i < target.children.len() implies spec_children_view(
                data.children@,
            )[i] == target.children[i] by {
                if i < olds.len() {
                    assert(data.children@[i] == olds[i]);
                } else {
                    assert(data.children@[i].offset as nat == target.children[i].offset);
                }
            }
            assert(spec_children_view(data.children@) =~= target.children);
        }
        data
    }

    /// Freezes the builder into an immutable branch.
    pub fn into_tree(self) -> (r: PureTree)
        ensures
            r@ == self@,
    {
        PureTree { data: std::sync::Arc::new(self) }
    }
}

/// Appends `n` spaces.
#[verifier::loop_isolation(false)]
fn append_indent(out: &mut String, n: usize)
    ensures
        final(out)@ == old(out)@ + indent_spec(n as nat),
{
    let ghost base = out@;
    let mut j: usize = 0;
    while j < n
        invariant
            0 <= j <= n,
            out@ == base + indent_spec(j as nat),
        decreases n - j,
    {
        out.append(" ");
        proof {
            reveal_strlit(" ");
            assert(out@ =~= base + indent_spec((j + 1) as nat));
        }
        j += 1;
    }
    proof {
        if n == 0 {
            assert(out@ =~= base + indent_spec(0));
        }
    }
}

/// Renders the subtree under `t`, indented by `ind` columns, onto the
/// end of `out`.
#[verifier::loop_isolation(false)]
fn render_rec(t: &PureTree, ind: usize, out: &mut String)
    requires
        ind + 2 * node_size(NodeV::Branch(t@)) <= usize::MAX,
    ensures
        final(out)@ == old(out)@ + render_node_spec(NodeV::Branch(t@), ind as nat),
    decreases node_size(NodeV::Branch(t@)),
{
    let ghost base = out@;
    append_indent(out, ind);
    out.append(t.kind());
    out.append("\n");
    proof {
        reveal_strlit("\n");
        lemma_children_view_index(t.data.children@);
        assert(out@ =~= base + indent_spec(ind as nat) + t@.kind + seq!['\n']);
    }
    let ghost head = out@;
    let n = t.children_len();
    let mut j: usize = 0;
    while j < n
        invariant
            0 <= j <= n,
            n == t@.children.len(),
            out@ == head + render_children_spec(t@.children.subrange(0, j as int), (ind + 2) as nat),
        decreases n - j,
    {
        proof {
            lemma_child_size_lt(t@, j as int);
        }
        let ghost before = out@;
        let c = match t.get_child(j) {
            Some(c) => c,
            None => unreached(),
        };
        match &c.kind {
            PureChildKind::Tree(sub) => {
                proof {
                    lemma_payload_view(c.kind);
                    assert(NodeV::Branch(sub@) == t@.children[j as int].node);
                }
                render_rec(sub, ind + 2, out);
            },
            PureChildKind::Token(tok) => {
                proof {
                    lemma_payload_view(c.kind);
                }
                append_indent(out, ind + 2);
                let line = tok.render();
                out.append(line.as_str());
                out.append("\n");
                proof {
                    reveal_strlit("\n");
                    assert(out@ =~= before + render_node_spec(
                        t@.children[j as int].node,
                        (ind + 2) as nat,
                    ));
                }
            },
        }
        proof {
            let s = t@.children;
            assert(s.subrange(0, j + 1).subrange(0, j as int) =~= s.subrange(0, j as int));
            assert(s.subrange(0, j + 1)[j as int] == s[j as int]);
            assert(render_children_spec(s.subrange(0, j + 1), (ind + 2) as nat)
                == render_children_spec(s.subrange(0, j as int), (ind + 2) as nat)
                + render_node_spec(s[j as int].node, (ind + 2) as nat));
            assert(out@ =~= head + render_children_spec(s.subrange(0, j + 1), (ind + 2) as nat));
        }
        j += 1;
    }
    proof {
        assert(t@.children.subrange(0, n as int) =~= t@.children);
    }
}

impl PureToken {
    /// The single line the leaf renders to: its text in quotes, then
    /// its kind tag.
    pub fn render(&self) -> (r: String)
        ensures
            r@ == leaf_line(self@),
    {
        let mut out = String::new();
        out.append("\"");
        out.append(self.text.as_str());
        out.append("\": ");
        out.append(self.kind);
        proof {
            reveal_strlit("\"");
            reveal_strlit("\": ");
            assert(out@ =~= leaf_line(self@));
        }
        out
    }
}

impl PureTree {
    /// The compact rendering of the branch: its kind tag alone.
    pub fn render(&self) -> (r: String)
        ensures
            r@ == self@.kind,
    {
        String::from_str(self.data.kind)
    }

    /// The indented rendering of the whole subtree: each branch's kind
    /// on a line of its own, children two columns deeper, each leaf as
    /// its quoted text and kind.
    pub fn render_indented(&self) -> (r: String)
        requires
            2 * node_size(NodeV::Branch(self@)) <= usize::MAX,
        ensures
            r@ == render_node_spec(NodeV::Branch(self@), 0),
    {
        let mut out = String::new();
        render_rec(self, 0, &mut out);
        proof {
            assert(out@ =~= render_node_spec(NodeV::Branch(self@), 0));
        }
        out
    }
}

} // verus!
