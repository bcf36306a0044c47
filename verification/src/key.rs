//! Stable structural identities for UI elements.
//!
//! A [`NodeKey`] is derived deterministically from the ancestor chain and a
//! caller-supplied label, by concatenating the parent's key, a separator, and
//! the label. Two nodes built through the same call path in successive frames
//! therefore produce identical keys, which is what keeps the persistent store
//! continuous across frames.

use vstd::prelude::*;
use vstd::string::StringExecFns;
use crate::tree::Context;

verus! {

/// The reserved key of the synthetic root node.
pub const ROOT_NODE: &'static str = "root";

/// A stable structural identity for a UI element.
#[derive(Clone, Debug)]
pub struct NodeKey(pub(crate) String);

impl View for NodeKey {
    type V = Seq<char>;

    closed spec fn view(&self) -> Seq<char> {
        self.0@
    }
}

/// The view of the root node's reserved key.
pub open spec fn root_key_view() -> Seq<char> {
    seq!['r', 'o', 'o', 't']
}

/// The key of a node with the given `label` under a parent whose key is
/// `parent`: the parent's key, a `':'` separator, then the label.
pub open spec fn child_key(parent: Seq<char>, label: Seq<char>) -> Seq<char> {
    parent + seq![':'] + label
}

/// A key derived from a parent key of at least the root key's length is never
/// the root key itself.
pub proof fn lemma_child_key_not_root(parent: Seq<char>, label: Seq<char>)
    requires
        parent.len() >= 4,
    ensures
        child_key(parent, label) != root_key_view(),
        child_key(parent, label).len() >= 5,
{
    assert(child_key(parent, label).len() == parent.len() + 1 + label.len());
}

impl NodeKey {
    /// The reserved key of the synthetic root node.
    pub fn root() -> (k: NodeKey)
        ensures
            k@ == root_key_view(),
    {
        let s: String = String::from_str(ROOT_NODE);
        proof {
            reveal_strlit("root");
            assert(s@ =~= root_key_view());
        }
        NodeKey(s)
    }

    /// Derives the key for a node labelled `label` created under the
    /// context's current parent.
    pub fn new(cx: &Context, label: &str) -> (k: NodeKey)
        requires
            cx.wf(),
        ensures
            k@ == child_key(cx.nodes()[cx.cursor()].key@, label@),
    {
        let parent_key: &NodeKey = cx.current_parent_key();
        let mut s: String = parent_key.0.clone();
        s.append(":");
        s.append(label);
        proof {
            reveal_strlit(":");
            assert(s@ =~= child_key(parent_key@, label@));
        }
        NodeKey(s)
    }

    /// An exact copy of the key.
    pub fn duplicate(&self) -> (k: NodeKey)
        ensures
            k == *self,
    {
        NodeKey(self.0.clone())
    }

    /// Whether two keys denote the same structural identity.
    pub fn key_eq(&self, other: &NodeKey) -> (r: bool)
        ensures
            r == (self@ == other@),
    {
        self.0 == other.0
    }

    /// The key as a borrowed string.
    pub fn as_str(&self) -> (s: &str)
        ensures
            s@ == self@,
    {
        self.0.as_str()
    }
}

} // verus!
