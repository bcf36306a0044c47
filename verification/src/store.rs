//! The persistent per-node store: a mapping from structural keys to
//! long-lived per-element data, surviving across frames.
//!
//! The store is held as a vector of entries with pairwise-distinct keys;
//! lookups scan for the first (hence only) entry with a matching key.

use vstd::prelude::*;
use crate::geometry::Size;
use crate::geometry::is_default_size;
use crate::key::NodeKey;
use crate::tree::Context;

verus! {

/// Long-lived data retained for one structural key: the element's display
/// label and its last computed geometry.
#[derive(Debug)]
pub struct PersistentNodeData {
    pub label: String,
    pub size: Size,
}

impl Default for PersistentNodeData {
    fn default() -> (r: Self)
        ensures
            r.label@.len() == 0,
            is_default_size(r.size),
    {
        PersistentNodeData { label: String::new(), size: Size::default() }
    }
}

/// One entry of the persistent store.
#[derive(Debug)]
pub struct StoreEntry {
    pub key: NodeKey,
    pub data: PersistentNodeData,
}

/// The index of the first entry at or after `i` whose key views as `k`.
pub open spec fn find_key_from(entries: Seq<StoreEntry>, k: Seq<char>, i: int) -> Option<int>
    decreases entries.len() - i,
{
    if i < 0 || i >= entries.len() {
        None
    } else if entries[i].key@ == k {
        Some(i)
    } else {
        find_key_from(entries, k, i + 1)
    }
}

/// The index of the first entry whose key views as `k`.
pub open spec fn find_key(entries: Seq<StoreEntry>, k: Seq<char>) -> Option<int> {
    find_key_from(entries, k, 0)
}

/// The keys of the store's entries are pairwise distinct.
pub open spec fn wf_store(entries: Seq<StoreEntry>) -> bool {
    forall|i: int, j: int|
        0 <= i < entries.len() && 0 <= j < entries.len() && i != j
            ==> #[trigger] entries[i].key@ != #[trigger] entries[j].key@
}

/// A successful lookup names an entry with the sought key, and no earlier
/// entry matches.
pub proof fn lemma_find_key_from_some(entries: Seq<StoreEntry>, k: Seq<char>, i: int, j: int)
    requires
        find_key_from(entries, k, i) == Some(j),
        0 <= i,
    ensures
        i <= j < entries.len(),
        entries[j].key@ == k,
        forall|m: int| i <= m < j ==> #[trigger] entries[m].key@ != k,
    decreases entries.len() - i,
{
    if i < entries.len() && entries[i].key@ != k {
        lemma_find_key_from_some(entries, k, i + 1, j);
    }
}

/// A failed lookup means no entry at or after `i` has the sought key.
pub proof fn lemma_find_key_from_none(entries: Seq<StoreEntry>, k: Seq<char>, i: int)
    requires
        find_key_from(entries, k, i) is None,
        0 <= i,
    ensures
        forall|m: int| i <= m < entries.len() ==> #[trigger] entries[m].key@ != k,
    decreases entries.len() - i,
{
    if i < entries.len() {
        lemma_find_key_from_none(entries, k, i + 1);
    }
}

/// If some entry at or after `i` holds the sought key, the lookup finds one.
pub proof fn lemma_find_key_from_hit(entries: Seq<StoreEntry>, k: Seq<char>, i: int, j: int)
    requires
        0 <= i <= j < entries.len(),
        entries[j].key@ == k,
    ensures
        find_key_from(entries, k, i) is Some,
    decreases entries.len() - i,
{
    if i < j && entries[i].key@ != k {
        lemma_find_key_from_hit(entries, k, i + 1, j);
    }
}

/// In a store with distinct keys, a lookup for the key of entry `j` finds
/// exactly `j`.
pub proof fn lemma_find_key_unique(entries: Seq<StoreEntry>, j: int)
    requires
        wf_store(entries),
        0 <= j < entries.len(),
    ensures
        find_key(entries, entries[j].key@) == Some(j),
{
    lemma_find_key_from_hit(entries, entries[j].key@, 0, j);
    let r = find_key(entries, entries[j].key@);
    lemma_find_key_from_some(entries, entries[j].key@, 0, r->Some_0);
}

impl Context {
    /// Looks up the store entry holding the given key, if any.
    pub(crate) fn persistent_find(&self, key: &NodeKey) -> (r: Option<usize>)
        ensures
            match r {
                Some(i) => find_key(self.store(), key@) == Some(i as int) && i
                    < self.store().len(),
                None => find_key(self.store(), key@) is None,
            },
    {
        let n: usize = self.persistent.len();
        let mut i: usize = 0;
        while i < n
            invariant
                i <= n,
                n == self.store().len(),
                find_key(self.store(), key@) == find_key_from(self.store(), key@, i as int),
            decreases n - i,
        {
            if self.persistent[i].key.key_eq(key) {
                return Some(i);
            }
            i = i + 1;
        }
        None
    }
}

} // verus!
