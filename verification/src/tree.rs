//! The per-frame arena of UI nodes and the tree-builder API.
//!
//! Each frame the caller rebuilds a lightweight tree by calling
//! [`Context::make_node`] and friends in a single top-to-bottom, depth-first
//! sequence. Nodes live in a flat, index-addressed arena and encode their
//! parent/child/sibling relationships as intrusive links over arena indices.
//!
//! The well-formedness invariant [`wf_nodes`] pins the link discipline that
//! construction-only insertion guarantees: parent and previous-sibling links
//! point at strictly smaller indices, child and next-sibling links at strictly
//! larger ones, sibling links pair up, and every non-root node sits in its
//! parent's child chain. The strictly increasing child links are what make
//! every tree walk, the layout recursion included, structurally terminating:
//! no back-edge can ever be built.

use vstd::prelude::*;
use vstd::string::StringExecFns;
use crate::geometry::Axis;
use crate::geometry::SemanticSize;
use crate::geometry::Size;
use crate::geometry::is_default_size;
use crate::key::NodeKey;
use crate::key::child_key;
use crate::key::lemma_child_key_not_root;
use crate::key::root_key_view;
use crate::store::PersistentNodeData;
use crate::store::StoreEntry;
use crate::store::find_key;
use crate::store::lemma_find_key_from_hit;
use crate::store::lemma_find_key_from_none;
use crate::store::lemma_find_key_from_some;
use crate::store::wf_store;

verus! {

/// One arena-resident node of the current frame's tree.
#[derive(Debug)]
pub struct FrameNode {
    /// The node's own index in the arena.
    pub index: usize,
    /// The node's stable structural identity.
    pub key: NodeKey,
    /// The display label the node was declared with.
    pub label: String,
    /// Sizing policy and computed geometry.
    pub size: Size,
    /// First child, if any.
    pub first: Option<usize>,
    /// Last child, if any.
    pub last: Option<usize>,
    /// Next sibling, if any.
    pub next: Option<usize>,
    /// Previous sibling, if any.
    pub prev: Option<usize>,
    /// Parent node; `None` only for the root.
    pub parent: Option<usize>,
}

/// What the synthetic root node looks like before any layout has run.
pub open spec fn is_root_frame_node(n: FrameNode) -> bool {
    &&& n.index == 0
    &&& n.key@ == root_key_view()
    &&& n.label@ == root_key_view()
    &&& is_default_size(n.size)
    &&& n.first is None
    &&& n.last is None
    &&& n.next is None
    &&& n.prev is None
    &&& n.parent is None
}

impl FrameNode {
    /// The synthetic root node that every frame starts from.
    pub fn root() -> (n: FrameNode)
        ensures
            is_root_frame_node(n),
    {
        let key: NodeKey = NodeKey::root();
        let label: String = String::from_str("root");
        proof {
            reveal_strlit("root");
            assert(label@ =~= root_key_view());
        }
        FrameNode {
            index: 0,
            key,
            label,
            size: Size::default(),
            first: None,
            last: None,
            next: None,
            prev: None,
            parent: None,
        }
    }
}

/// Whether arena index `j` is reachable from index `c` by following
/// next-sibling links.
pub open spec fn in_chain_from(ns: Seq<FrameNode>, c: int, j: int) -> bool
    decreases ns.len() - c,
{
    0 <= c < ns.len() && (c == j || (ns[c].next matches Some(k) && c < k as int && (k as int) < ns.len()
        && in_chain_from(ns, k as int, j)))
}

/// Whether arena index `j` is one of the children of node `p`, that is,
/// reachable from `p`'s first child by next-sibling links.
pub open spec fn in_chain(ns: Seq<FrameNode>, p: int, j: int) -> bool {
    0 <= p < ns.len() && (ns[p].first matches Some(f) && p < f as int && (f as int) < ns.len()
        && in_chain_from(ns, f as int, j))
}

/// Whether node `j` lies in the subtree rooted at node `r`: following parent
/// links from `j` reaches `r`.
pub open spec fn in_subtree(ns: Seq<FrameNode>, j: int, r: int) -> bool
    decreases (if 0 <= j { j } else { 0 }),
{
    0 <= j < ns.len() && (j == r || (ns[j].parent matches Some(p) && 0 <= (p as int) < j
        && in_subtree(ns, p as int, r)))
}

/// The per-node part of the arena's well-formedness invariant.
pub open spec fn wf_node(ns: Seq<FrameNode>, j: int) -> bool {
    let n = ns[j];
    &&& n.index == j
    &&& (n.parent matches Some(p) ==> 0 <= (p as int) < j)
    &&& ((n.parent is None) <==> (j == 0))
    &&& (n.prev matches Some(q) ==> 0 <= (q as int) < j && ns[q as int].next == Some(
        j as usize,
    ) && ns[q as int].parent == n.parent)
    &&& (n.next matches Some(m) ==> j < (m as int) < ns.len() && ns[m as int].prev == Some(
        j as usize,
    ) && ns[m as int].parent == n.parent)
    &&& (n.first matches Some(f) ==> j < (f as int) < ns.len() && ns[f as int].parent == Some(
        j as usize,
    ) && ns[f as int].prev is None)
    &&& (n.last matches Some(l) ==> j < (l as int) < ns.len() && ns[l as int].parent == Some(
        j as usize,
    ) && ns[l as int].next is None)
    &&& ((n.first is None) <==> (n.last is None))
    &&& (n.parent matches Some(p) ==> in_chain(ns, p as int, j))
    &&& n.key@.len() >= 4
    &&& (j != 0 ==> n.key@ != root_key_view())
}

/// The arena's well-formedness invariant: a single rooted tree with
/// construction-ordered links, rooted at index 0.
pub open spec fn wf_nodes(ns: Seq<FrameNode>) -> bool {
    &&& 1 <= ns.len()
    &&& (forall|j: int| 0 <= j < ns.len() ==> #[trigger] wf_node(ns, j))
    &&& ns[0].prev is None
    &&& ns[0].next is None
    &&& ns[0].key@ == root_key_view()
    &&& !(ns[0].size.semantic_size@[0] is ChildrenSum)
    &&& !(ns[0].size.semantic_size@[1] is ChildrenSum)
}

/// Every frame-tree key has an entry in the persistent store.
pub open spec fn store_covers(ns: Seq<FrameNode>, entries: Seq<StoreEntry>) -> bool {
    forall|j: int| 0 <= j < ns.len() ==> #[trigger] find_key(entries, ns[j].key@) is Some
}

/// Chain reachability survives changes that only fill in next-links that were
/// previously `None`, or append new nodes.
pub proof fn lemma_chain_from_mono(ns1: Seq<FrameNode>, ns2: Seq<FrameNode>, c: int, j: int)
    requires
        ns1.len() <= ns2.len(),
        forall|m: int|
            0 <= m < ns1.len() ==> (#[trigger] ns2[m].next == ns1[m].next || ns1[m].next is None),
        in_chain_from(ns1, c, j),
    ensures
        in_chain_from(ns2, c, j),
    decreases ns1.len() - c,
{
    if c != j {
        let k = ns1[c].next->Some_0;
        lemma_chain_from_mono(ns1, ns2, k as int, j);
    }
}

/// Reaching `m` in a chain whose node `m` links on to `k` reaches `k` too.
pub proof fn lemma_chain_from_extend(ns: Seq<FrameNode>, c: int, m: int, k: int)
    requires
        in_chain_from(ns, c, m),
        ns[m].next matches Some(kk) && kk as int == k,
        m < k < ns.len(),
    ensures
        in_chain_from(ns, c, k),
    decreases ns.len() - c,
{
    assert(in_chain_from(ns, k, k));
    if c != m {
        lemma_chain_from_extend(ns, ns[c].next->Some_0 as int, m, k);
    } else {
        assert(in_chain_from(ns, c, k));
    }
}

/// Every member of a chain starting at a child of `p` has parent `p`.
pub proof fn lemma_chain_from_parent(ns: Seq<FrameNode>, c: int, j: int)
    requires
        forall|m: int| 0 <= m < ns.len() ==> #[trigger] wf_node(ns, m),
        in_chain_from(ns, c, j),
    ensures
        c <= j < ns.len(),
        ns[j].parent == ns[c].parent,
    decreases ns.len() - c,
{
    assert(wf_node(ns, c));
    if c != j {
        lemma_chain_from_parent(ns, ns[c].next->Some_0 as int, j);
    }
}

/// Every child-chain member of `p` has parent `p`.
pub proof fn lemma_chain_parent(ns: Seq<FrameNode>, p: int, j: int)
    requires
        forall|m: int| 0 <= m < ns.len() ==> #[trigger] wf_node(ns, m),
        in_chain(ns, p, j),
    ensures
        p < j < ns.len(),
        ns[j].parent == Some(p as usize),
    decreases ns.len() - p,
{
    let f = ns[p].first->Some_0 as int;
    assert(wf_node(ns, p));
    lemma_chain_from_parent(ns, f, j);
}

/// Subtree membership only reaches ancestors: `j` is at or below `r`.
pub proof fn lemma_subtree_bounds(ns: Seq<FrameNode>, j: int, r: int)
    requires
        in_subtree(ns, j, r),
    ensures
        0 <= r <= j < ns.len(),
    decreases j,
{
    if j != r {
        lemma_subtree_bounds(ns, ns[j].parent->Some_0 as int, r);
    }
}

/// Subtree membership is transitive.
pub proof fn lemma_subtree_trans(ns: Seq<FrameNode>, j: int, c: int, r: int)
    requires
        in_subtree(ns, j, c),
        in_subtree(ns, c, r),
    ensures
        in_subtree(ns, j, r),
    decreases (if 0 <= j { j } else { 0 }),
{
    if j != c {
        lemma_subtree_trans(ns, ns[j].parent->Some_0 as int, c, r);
    }
}

/// Two roots that both contain `j` lie on one ancestor chain.
pub proof fn lemma_subtree_linear(ns: Seq<FrameNode>, j: int, a: int, b: int)
    requires
        in_subtree(ns, j, a),
        in_subtree(ns, j, b),
    ensures
        in_subtree(ns, a, b) || in_subtree(ns, b, a),
    decreases (if 0 <= j { j } else { 0 }),
{
    if j == a || j == b {
    } else {
        lemma_subtree_linear(ns, ns[j].parent->Some_0 as int, a, b);
    }
}

/// Subtrees rooted at two distinct children of one parent are disjoint.
pub proof fn lemma_sibling_subtrees_disjoint(
    ns: Seq<FrameNode>,
    c1: int,
    c2: int,
    j: int,
)
    requires
        forall|m: int| 0 <= m < ns.len() ==> #[trigger] wf_node(ns, m),
        0 <= c1 < ns.len(),
        0 <= c2 < ns.len(),
        ns[c1].parent == ns[c2].parent,
        ns[c1].parent is Some,
        c1 != c2,
        in_subtree(ns, j, c1),
    ensures
        !in_subtree(ns, j, c2),
{
    if in_subtree(ns, j, c2) {
        lemma_subtree_linear(ns, j, c1, c2);
        assert(wf_node(ns, c1));
        assert(wf_node(ns, c2));
        if in_subtree(ns, c1, c2) {
            assert(c1 != c2);
            let p = ns[c1].parent->Some_0 as int;
            lemma_subtree_bounds(ns, p, c2);
        } else {
            let p = ns[c2].parent->Some_0 as int;
            lemma_subtree_bounds(ns, p, c1);
        }
    }
}

/// A strict member of `r`'s subtree lies in the subtree of one of `r`'s
/// chain children.
pub proof fn lemma_subtree_step(ns: Seq<FrameNode>, j: int, r: int) -> (c: int)
    requires
        forall|m: int| 0 <= m < ns.len() ==> #[trigger] wf_node(ns, m),
        in_subtree(ns, j, r),
        j != r,
    ensures
        in_chain(ns, r, c),
        in_subtree(ns, j, c),
        r < c < ns.len(),
    decreases (if 0 <= j { j } else { 0 }),
{
    assert(wf_node(ns, j));
    let p = ns[j].parent->Some_0 as int;
    if p == r {
        assert(wf_node(ns, r));
        lemma_chain_parent(ns, r, j);
        j
    } else {
        let c = lemma_subtree_step(ns, p, r);
        lemma_chain_parent(ns, r, c);
        c
    }
}

/// Fields of a node that the builder never rewrites once the node exists.
pub open spec fn same_node_core(o: FrameNode, n: FrameNode) -> bool {
    &&& n.index == o.index
    &&& n.key == o.key
    &&& n.label == o.label
    &&& n.size == o.size
    &&& n.prev == o.prev
    &&& n.parent == o.parent
}

/// The links-and-identity part of what [`Context::make_node`] guarantees:
/// a fresh node is appended as the last child of the parent at `cp`, the old
/// last sibling (if any) gains a next-link to it, and nothing else changes.
pub open spec fn make_node_post(
    ns1: Seq<FrameNode>,
    st1: Seq<StoreEntry>,
    cp: int,
    label: Seq<char>,
    ns2: Seq<FrameNode>,
    st2: Seq<StoreEntry>,
    idx: int,
) -> bool {
    let n = ns2[idx];
    &&& idx == ns1.len()
    &&& ns2.len() == ns1.len() + 1
    &&& n.index == idx
    &&& n.key@ == child_key(ns1[cp].key@, label)
    &&& n.label@ == label
    &&& (n.parent matches Some(p) && p as int == cp)
    &&& n.first is None
    &&& n.last is None
    &&& n.next is None
    &&& n.prev == ns1[cp].last
    &&& (forall|j: int| 0 <= j < ns1.len() ==> same_node_core(ns1[j], #[trigger] ns2[j]))
    &&& (forall|j: int|
        0 <= j < ns1.len() && j != cp ==> (#[trigger] ns2[j]).first == ns1[j].first && ns2[j].last
            == ns1[j].last)
    &&& ns2[cp].last == Some(idx as usize)
    &&& ns2[cp].first == (if ns1[cp].first is Some {
        ns1[cp].first
    } else {
        Some(idx as usize)
    })
    &&& (forall|j: int|
        0 <= j < ns1.len() && Some(j as usize) != ns1[cp].last ==> (#[trigger] ns2[j]).next
            == ns1[j].next)
    &&& (ns1[cp].last matches Some(l) ==> ns2[l as int].next == Some(idx as usize))
    &&& store_after_make(st1, n.key@, label, st2)
}

/// What [`Context::make_node`] does to the persistent store: nothing when the
/// key was already known, otherwise one appended entry carrying the label and
/// default data.
pub open spec fn store_after_make(
    st1: Seq<StoreEntry>,
    key: Seq<char>,
    label: Seq<char>,
    st2: Seq<StoreEntry>,
) -> bool {
    match find_key(st1, key) {
        Some(_) => st2 == st1,
        None => {
            &&& st2.len() == st1.len() + 1
            &&& (forall|i: int| 0 <= i < st1.len() ==> #[trigger] st2[i] == st1[i])
            &&& st2.last().key@ == key
            &&& st2.last().data.label@ == label
            &&& is_default_size(st2.last().data.size)
        },
    }
}

/// The geometry continuity rule (the size a fresh node starts from): the
/// store's cached size when the key was seen in an earlier frame, the default
/// otherwise.
pub open spec fn inherited_size(st1: Seq<StoreEntry>, key: Seq<char>, s: Size) -> bool {
    match find_key(st1, key) {
        Some(i) => s == st1[i].data.size,
        None => is_default_size(s),
    }
}

/// `s` is `base` with its sizing policy replaced by `sem`.
pub open spec fn size_with_semantic(base: Size, sem: [SemanticSize; 2], s: Size) -> bool {
    &&& s.axis == base.axis
    &&& s.computed_size == base.computed_size
    &&& s.computed_pos == base.computed_pos
    &&& s.semantic_size@[0] == sem@[0]
    &&& s.semantic_size@[1] == sem@[1]
}

/// The immediate-mode UI context: the per-frame arena, the cross-frame
/// persistent store, and the current-parent cursor the builder calls grow
/// the tree under.
pub struct Context {
    pub(crate) persistent: Vec<StoreEntry>,
    pub(crate) frame_nodes: Vec<FrameNode>,
    pub(crate) current_parent: usize,
    pub(crate) root_node: usize,
}

impl Context {
    /// The current frame tree, as a sequence of arena nodes.
    pub open(crate) spec fn nodes(&self) -> Seq<FrameNode> {
        self.frame_nodes@
    }

    /// The persistent store's entries.
    pub open(crate) spec fn store(&self) -> Seq<StoreEntry> {
        self.persistent@
    }

    /// The arena index children are currently being declared under.
    pub open(crate) spec fn cursor(&self) -> int {
        self.current_parent as int
    }

    /// The context's invariant: a well-formed arena, a duplicate-free store
    /// that covers every frame key, and an in-range cursor.
    pub open spec fn wf(&self) -> bool {
        &&& wf_nodes(self.nodes())
        &&& wf_store(self.store())
        &&& store_covers(self.nodes(), self.store())
        &&& 0 <= self.cursor() < self.nodes().len()
    }

    /// A fresh context holding only the synthetic root node, with a
    /// persistent entry for the root key.
    pub fn new() -> (cx: Context)
        ensures
            cx.wf(),
            cx.nodes().len() == 1,
            is_root_frame_node(cx.nodes()[0]),
            cx.cursor() == 0,
            cx.store().len() == 1,
            cx.store()[0].key@ == root_key_view(),
            cx.store()[0].data.label@.len() == 0,
            is_default_size(cx.store()[0].data.size),
    {
        let mut persistent: Vec<StoreEntry> = Vec::new();
        persistent.push(StoreEntry { key: NodeKey::root(), data: PersistentNodeData::default() });
        let mut frame_nodes: Vec<FrameNode> = Vec::new();
        frame_nodes.push(FrameNode::root());
        let cx = Context { persistent, frame_nodes, current_parent: 0, root_node: 0 };
        proof {
            assert(wf_node(cx.nodes(), 0));
            assert(root_key_view().len() == 4);
            assert(find_key(cx.store(), cx.nodes()[0].key@) is Some);
        }
        cx
    }

    /// The key of the node new children are currently declared under.
    pub fn current_parent_key(&self) -> (k: &NodeKey)
        requires
            0 <= self.cursor() < self.nodes().len(),
        ensures
            *k == self.nodes()[self.cursor()].key,
    {
        &self.frame_nodes[self.current_parent].key
    }

    /// The layout state of the node at `index`.
    pub fn node_size(&self, index: usize) -> (s: Size)
        requires
            index < self.nodes().len(),
        ensures
            s == self.nodes()[index as int].size,
    {
        self.frame_nodes[index].size
    }

    /// Declares the node at `key` as the parent for subsequent builder calls.
    pub fn push_parent(&mut self, key: usize)
        requires
            old(self).wf(),
            key < old(self).nodes().len(),
        ensures
            final(self).wf(),
            final(self).nodes() == old(self).nodes(),
            final(self).store() == old(self).store(),
            final(self).cursor() == key,
    {
        self.current_parent = key;
    }

    /// Returns the builder cursor to the grandparent of the most recently
    /// created node: the node whose children were being declared before the
    /// matching `push_parent`. Popping past the root clamps to the root.
    pub fn pop_parent(&mut self)
        requires
            old(self).wf(),
        ensures
            final(self).wf(),
            final(self).nodes() == old(self).nodes(),
            final(self).store() == old(self).store(),
            match old(self).nodes().last().parent {
                Some(p) => final(self).cursor() == match old(self).nodes()[p as int].parent {
                    Some(g) => g as int,
                    None => 0,
                },
                None => final(self).cursor() == old(self).cursor(),
            },
    {
        let n: usize = self.frame_nodes.len();
        let last_parent: Option<usize> = self.frame_nodes[n - 1].parent;
        match last_parent {
            None => {},
            Some(parent) => {
                proof {
                    assert(wf_node(self.nodes(), n - 1));
                    assert(wf_node(self.nodes(), parent as int));
                }
                self.current_parent = match self.frame_nodes[parent].parent {
                    Some(g) => g,
                    None => 0,
                };
            },
        }
    }

    /// Resets the frame tree to just the synthetic root, to be called once
    /// before each frame's builder calls. The persistent store is untouched,
    /// so geometry computed in earlier frames stays available to nodes that
    /// re-declare the same keys.
    pub fn prune(&mut self)
        requires
            old(self).wf(),
        ensures
            final(self).wf(),
            final(self).nodes().len() == 1,
            is_root_frame_node(final(self).nodes()[0]),
            final(self).cursor() == 0,
            final(self).store() == old(self).store(),
    {
        self.frame_nodes.clear();
        self.frame_nodes.push(FrameNode::root());
        self.current_parent = 0;
        self.root_node = 0;
        proof {
            assert(wf_node(self.nodes(), 0));
            assert(find_key(self.store(), self.nodes()[0].key@) is Some) by {
                assert(find_key(old(self).store(), old(self).nodes()[0].key@) is Some);
            }
        }
    }

    /// Appends a new node as the last child of the current parent and returns
    /// its arena index.
    ///
    /// On first sight of the derived key a persistent entry is created with
    /// the default policy and geometry; when the key already exists, the new
    /// node inherits the store's cached `Size`, so policy and geometry set in
    /// a prior frame persist unless overridden this frame.
    pub fn make_node(&mut self, label: &str) -> (idx: usize)
        requires
            old(self).wf(),
        ensures
            final(self).wf(),
            final(self).cursor() == old(self).cursor(),
            make_node_post(
                old(self).nodes(),
                old(self).store(),
                old(self).cursor(),
                label@,
                final(self).nodes(),
                final(self).store(),
                idx as int,
            ),
            inherited_size(
                old(self).store(),
                final(self).nodes()[idx as int].key@,
                final(self).nodes()[idx as int].size,
            ),
    {
        let key: NodeKey = NodeKey::new(self, label);
        let inherited: Size = match self.persistent_find(&key) {
            Some(i) => self.persistent[i].data.size,
            None => {
                let entry = StoreEntry {
                    key: key.duplicate(),
                    data: PersistentNodeData { label: label.to_owned(), size: Size::default() },
                };
                proof {
                    lemma_find_key_from_none(self.store(), key@, 0);
                }
                self.persistent.push(entry);
                Size::default()
            },
        };
        let this_index: usize = self.frame_nodes.len();
        let parent_last: Option<usize> = self.frame_nodes[self.current_parent].last;
        let node = FrameNode {
            index: this_index,
            key,
            label: label.to_owned(),
            size: inherited,
            first: None,
            last: None,
            next: None,
            prev: parent_last,
            parent: Some(self.current_parent),
        };
        self.frame_nodes.push(node);
        match parent_last {
            Some(l) => {
                proof {
                    assert(wf_node(old(self).nodes(), old(self).cursor()));
                }
                self.frame_nodes[l].next = Some(this_index);
            },
            None => {},
        }
        if self.frame_nodes[self.current_parent].first.is_none() {
            self.frame_nodes[self.current_parent].first = Some(this_index);
        }
        self.frame_nodes[self.current_parent].last = Some(this_index);
        proof {
            self.lemma_make_node_restores(*old(self), label@, this_index as int);
        }
        this_index
    }

    /// The heavy lifting behind [`Context::make_node`]'s postcondition: the
    /// arena invariant survives appending a child under the cursor.
    proof fn lemma_make_node_restores(&self, prev_cx: Context, label: Seq<char>, li: int)
        requires
            prev_cx.wf(),
            self.cursor() == prev_cx.cursor(),
            make_node_post(
                prev_cx.nodes(),
                prev_cx.store(),
                prev_cx.cursor(),
                label,
                self.nodes(),
                self.store(),
                li,
            ),
        ensures
            self.wf(),
    {
        let ns1 = prev_cx.nodes();
        let ns2 = self.nodes();
        let st1 = prev_cx.store();
        let st2 = self.store();
        let cp = prev_cx.cursor();
        assert(wf_node(ns1, cp));
        let old_last = ns1[cp].last;
        assert forall|m: int|
            0 <= m < ns1.len() implies (#[trigger] ns2[m].next == ns1[m].next
            || ns1[m].next is None) by {
            if Some(m as usize) == old_last {
                assert(wf_node(ns1, cp));
            }
        }
        // the new node's key is a proper child key
        lemma_child_key_not_root(ns1[cp].key@, label);
        // the arena invariant, node by node
        assert forall|j: int| 0 <= j < ns2.len() implies #[trigger] wf_node(ns2, j) by {
            if j < ns1.len() {
                assert(wf_node(ns1, j));
                if let Some(p) = ns1[j].parent {
                    assert(wf_node(ns1, p as int));
                    let f = ns1[p as int].first->Some_0;
                    lemma_chain_from_mono(ns1, ns2, f as int, j);
                    assert(in_chain(ns2, p as int, j));
                }
                if let Some(m) = ns1[j].next {
                    assert(ns2[m as int].prev == ns1[m as int].prev);
                }
                if let Some(q) = ns1[j].prev {
                    // q's next link was already filled, so it did not change
                    assert(ns1[q as int].next == Some(j as usize));
                    assert(ns2[q as int].next == Some(j as usize));
                }
                if j == cp {
                    // refreshed child links
                    assert(ns2[j].last == Some(li as usize));
                    assert(ns2[li].parent == Some(cp as usize));
                    if ns1[cp].first is None {
                        assert(ns2[j].first == Some(li as usize));
                        assert(ns2[li].prev == ns1[cp].last);
                    }
                } else {
                    if let Some(l) = ns1[j].last {
                        // only the parent's own last child could gain a next
                        // link, and that node's parent is the cursor
                        assert(wf_node(ns1, l as int));
                        assert(ns1[l as int].parent == Some(j as usize));
                        assert(Some(l) != ns1[cp].last || j == cp);
                        assert(ns2[l as int].next == ns1[l as int].next);
                    }
                }
            } else {
                // the new node
                assert(j == li);
                let n = ns2[li];
                assert(n.parent == Some(cp as usize));
                match old_last {
                    Some(q) => {
                        assert(wf_node(ns1, q as int));
                        assert(ns2[q as int].next == Some(li as usize));
                        assert(ns2[q as int].parent == Some(cp as usize));
                        // the new node extends the existing chain
                        assert(in_chain(ns1, cp, q as int));
                        let f = ns1[cp].first->Some_0;
                        lemma_chain_from_mono(ns1, ns2, f as int, q as int);
                        lemma_chain_from_extend(ns2, f as int, q as int, li);
                        assert(ns2[cp].first == Some(f));
                        assert(in_chain(ns2, cp, li));
                    },
                    None => {
                        assert(ns2[cp].first == Some(li as usize));
                        assert(in_chain_from(ns2, li, li));
                        assert(in_chain(ns2, cp, li));
                    },
                }
            }
        }
        assert(ns2[0].prev is None && ns2[0].next is None) by {
            assert(wf_node(ns1, 0));
            if let Some(l) = old_last {
                assert(wf_node(ns1, l as int));
            }
        }
        assert(ns2[0].size == ns1[0].size);
        assert(ns2[0].key == ns1[0].key);
        // the store stays duplicate-free and covers every frame key
        let key = ns2[li].key@;
        match find_key(st1, key) {
            Some(i) => {
                assert(st2 == st1);
                assert(store_covers(ns2, st2)) by {
                    assert forall|j: int|
                        0 <= j < ns2.len() implies #[trigger] find_key(st2, ns2[j].key@)
                        is Some by {
                        if j < ns1.len() {
                            assert(find_key(st1, ns1[j].key@) is Some);
                        }
                    }
                }
            },
            None => {
                lemma_find_key_from_none(st1, key, 0);
                assert(wf_store(st2)) by {
                    assert forall|i: int, j: int|
                        0 <= i < st2.len() && 0 <= j < st2.len() && i != j implies #[trigger] st2[i].key@
                        != #[trigger] st2[j].key@ by {
                        if i < st1.len() && j < st1.len() {
                            assert(st1[i].key@ != st1[j].key@);
                        }
                    }
                }
                assert(store_covers(ns2, st2)) by {
                    assert forall|j: int|
                        0 <= j < ns2.len() implies #[trigger] find_key(st2, ns2[j].key@)
                        is Some by {
                        if j < ns1.len() {
                            let r = find_key(st1, ns1[j].key@);
                            assert(r is Some);
                            lemma_find_key_from_some(st1, ns1[j].key@, 0, r->Some_0);
                            lemma_find_key_from_hit(st2, ns1[j].key@, 0, r->Some_0);
                        } else {
                            lemma_find_key_from_hit(st2, key, 0, st1.len() as int);
                        }
                    }
                }
            },
        }
    }

    /// [`Context::make_node`], additionally declaring the sizing policy of
    /// the new node.
    pub fn _make_node_with_semantic_size(
        &mut self,
        label: &str,
        semantic_size: [SemanticSize; 2],
    ) -> (idx: usize)
        requires
            old(self).wf(),
        ensures
            final(self).wf(),
            final(self).cursor() == old(self).cursor(),
            make_node_post(
                old(self).nodes(),
                old(self).store(),
                old(self).cursor(),
                label@,
                final(self).nodes(),
                final(self).store(),
                idx as int,
            ),
            ({
                let n = final(self).nodes()[idx as int];
                exists|base: Size|
                    #[trigger] inherited_size(old(self).store(), n.key@, base)
                        && size_with_semantic(base, semantic_size, n.size)
            }),
    {
        let ghost mid: Context;
        let index: usize = self.make_node(label);
        proof {
            mid = *self;
        }
        self.frame_nodes[index].size.semantic_size = semantic_size;
        proof {
            let ns1 = old(self).nodes();
            let ns2 = self.nodes();
            assert forall|j: int| 0 <= j < ns2.len() implies #[trigger] wf_node(ns2, j) by {
                assert(wf_node(mid.nodes(), j));
                if let Some(p) = mid.nodes()[j].parent {
                    assert(wf_node(mid.nodes(), p as int));
                    let f = mid.nodes()[p as int].first->Some_0;
                    lemma_chain_from_mono(mid.nodes(), ns2, f as int, j);
                }
            }
            assert(store_covers(ns2, self.store())) by {
                assert forall|j: int|
                    0 <= j < ns2.len() implies #[trigger] find_key(self.store(), ns2[j].key@)
                    is Some by {
                    assert(find_key(mid.store(), mid.nodes()[j].key@) is Some);
                }
            }
            // the link clauses are untouched by the policy update
            assert(forall|j: int| 0 <= j < ns1.len() ==> #[trigger] ns2[j] == mid.nodes()[j]);
            assert(forall|j: int|
                0 <= j < ns1.len() ==> same_node_core(ns1[j], #[trigger] ns2[j]));
            assert(wf_node(ns1, old(self).cursor()));
            if let Some(l) = ns1[old(self).cursor()].last {
                assert(0 <= l as int && (l as int) < ns1.len());
                assert(mid.nodes()[l as int].next == Some(index));
                assert(ns2[l as int] == mid.nodes()[l as int]);
            }
            assert(make_node_post(
                ns1,
                old(self).store(),
                old(self).cursor(),
                label@,
                ns2,
                self.store(),
                index as int,
            ));
            // the new node carries the inherited geometry under the new policy
            let base = mid.nodes()[index as int].size;
            assert(inherited_size(old(self).store(), ns2[index as int].key@, base));
            assert(size_with_semantic(base, semantic_size, ns2[index as int].size));
        }
        index
    }

    /// Declares the axis along which the node at `index` stacks its
    /// children.
    pub fn set_axis(&mut self, index: usize, axis: Axis)
        requires
            old(self).wf(),
            index < old(self).nodes().len(),
        ensures
            final(self).wf(),
            final(self).cursor() == old(self).cursor(),
            final(self).store() == old(self).store(),
            final(self).nodes().len() == old(self).nodes().len(),
            forall|j: int|
                0 <= j < old(self).nodes().len() && j != index ==> old(self).nodes()[j]
                    == #[trigger] final(self).nodes()[j],
            final(self).nodes()[index as int].size.axis == axis,
            final(self).nodes()[index as int].size.semantic_size == old(
                self,
            ).nodes()[index as int].size.semantic_size,
            final(self).nodes()[index as int].size.computed_size == old(
                self,
            ).nodes()[index as int].size.computed_size,
            final(self).nodes()[index as int].size.computed_pos == old(
                self,
            ).nodes()[index as int].size.computed_pos,
            final(self).nodes()[index as int].key == old(self).nodes()[index as int].key,
            final(self).nodes()[index as int].label == old(self).nodes()[index as int].label,
            final(self).nodes()[index as int].first == old(self).nodes()[index as int].first,
            final(self).nodes()[index as int].last == old(self).nodes()[index as int].last,
            final(self).nodes()[index as int].next == old(self).nodes()[index as int].next,
            final(self).nodes()[index as int].prev == old(self).nodes()[index as int].prev,
            final(self).nodes()[index as int].parent == old(self).nodes()[index as int].parent,
            final(self).nodes()[index as int].index == old(self).nodes()[index as int].index,
    {
        self.frame_nodes[index].size.axis = axis;
        proof {
            let ns1 = old(self).nodes();
            let ns2 = self.nodes();
            assert forall|j: int| 0 <= j < ns2.len() implies #[trigger] wf_node(ns2, j) by {
                assert(wf_node(ns1, j));
                if let Some(p) = ns1[j].parent {
                    assert(wf_node(ns1, p as int));
                    let f = ns1[p as int].first->Some_0;
                    lemma_chain_from_mono(ns1, ns2, f as int, j);
                }
            }
            assert(store_covers(ns2, self.store())) by {
                assert forall|j: int|
                    0 <= j < ns2.len() implies #[trigger] find_key(self.store(), ns2[j].key@)
                    is Some by {
                    assert(find_key(old(self).store(), ns1[j].key@) is Some);
                }
            }
        }
    }
}

} // verus!
