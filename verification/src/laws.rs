//! Tree-wide laws of the layout engine, proved from the contracts of the
//! builder and of `update_layout` alone.

use vstd::prelude::*;
use crate::key::root_key_view;
use crate::layout::axis_noncircular;
use crate::layout::fill_share;
use crate::layout::fills_assigned_under;
use crate::tree::in_chain;
use crate::layout::lemma_chain_from_shape;
use crate::layout::lemma_noncircular_shape;
use crate::layout::lemma_noncircular_sub;
use crate::layout::lemma_nonfill_value;
use crate::layout::lemma_structure_eq_sym;
use crate::layout::lemma_subtree_shape;
use crate::layout::lemma_sum_congruence_nonfill;
use crate::layout::lemma_wf_shape;
use crate::layout::lemma_fills_fold_structural;
use crate::layout::pos_at;
use crate::layout::pos_resolved;
use crate::layout::same_shape;
use crate::layout::sem_at;
use crate::layout::spec_ancestor_size;
use crate::layout::structure_eq;
use crate::layout::subtree_fills_resolved;
use crate::layout::subtree_pos_resolved;
use crate::layout::subtree_sizes_resolved;
use crate::layout::sz_at;
use crate::layout::own_resolved;
use crate::tree::FrameNode;
use crate::tree::in_subtree;
use crate::tree::lemma_chain_parent;
use crate::tree::lemma_subtree_bounds;
use crate::tree::lemma_subtree_step;
use crate::tree::lemma_subtree_trans;
use crate::tree::wf_node;
use crate::tree::wf_nodes;
use crate::store::StoreEntry;
use crate::store::find_key;
use crate::layout::sync_entry;
use crate::layout::sync_subtree_spec;
use crate::layout::sync_chain_spec;

verus! {

/// The skip rule of percentage sizing: a `PercentOfParent` policy resolves
/// against the parent when the parent's own policy on that axis is
/// authoritative, and skips to the next ancestor when the parent is itself
/// sized by its children.
pub proof fn lemma_percent_skips_derived(ns: Seq<FrameNode>, j: int, a: int)
    requires
        wf_nodes(ns),
        0 < j < ns.len(),
    ensures
        (ns[j].parent matches Some(p) && (sem_at(ns, p as int, a) is ChildrenSum
            ==> spec_ancestor_size(ns, j, a) == spec_ancestor_size(ns, p as int, a)) && (!(sem_at(
            ns,
            p as int,
            a,
        ) is ChildrenSum) ==> spec_ancestor_size(ns, j, a) == sz_at(ns, p as int, a))),
{
    assert(wf_node(ns, j));
}

/// Every node lies in the root's subtree: parent links always lead to the
/// arena's index 0.
pub proof fn lemma_all_in_root_subtree(ns: Seq<FrameNode>, d: int)
    requires
        wf_nodes(ns),
        0 <= d < ns.len(),
    ensures
        in_subtree(ns, d, 0),
    decreases d,
{
    assert(wf_node(ns, d));
    if d != 0 {
        lemma_all_in_root_subtree(ns, ns[d].parent->Some_0 as int);
    }
}

/// On a non-circular axis, the resolved-size and exact-fill claims pin every
/// size in the subtree: two laid-out states of the same tree that agree on
/// the subtree root's size and on its non-derived ancestors agree everywhere
/// below it.
pub proof fn lemma_axis_sizes_unique(
    ns1: Seq<FrameNode>,
    ns2: Seq<FrameNode>,
    cw: int,
    ch: int,
    j: int,
    a: int,
)
    requires
        wf_nodes(ns1),
        structure_eq(ns1, ns2),
        0 <= j < ns1.len(),
        0 <= a < 2,
        subtree_sizes_resolved(ns1, cw, ch, j),
        subtree_sizes_resolved(ns2, cw, ch, j),
        subtree_fills_resolved(ns1, j),
        subtree_fills_resolved(ns2, j),
        axis_noncircular(ns1, j, a),
        sz_at(ns2, j, a) == sz_at(ns1, j, a),
        forall|k: int|
            #[trigger] in_subtree(ns1, j, k) && k != j && !(sem_at(ns1, k, a) is ChildrenSum)
                ==> sz_at(ns2, k, a) == sz_at(ns1, k, a),
    ensures
        forall|d: int| #[trigger] in_subtree(ns1, d, j) ==> sz_at(ns2, d, a) == sz_at(ns1, d, a),
    decreases ns1.len() - j,
{
    lemma_structure_eq_sym(ns1, ns2);
    lemma_wf_shape(ns1, ns2);
    assert(in_subtree(ns1, j, j));
    // every child's size on this axis agrees
    assert forall|c: int| #[trigger] in_chain(ns1, j, c) implies sz_at(ns2, c, a) == sz_at(
        ns1,
        c,
        a,
    ) by {
        lemma_chain_parent(ns1, j, c);
        assert(wf_node(ns1, c));
        assert(in_subtree(ns1, c, j)) by {
            assert(in_subtree(ns1, j, j));
        }
        lemma_child_hyps(ns1, ns2, cw, ch, j, c, a);
        if sem_at(ns1, c, a) is Fill {
            // noncircularity bars a Fill child under a derived parent, so the
            // parent axis is authoritative and the share formula pins c
            assert(!(sem_at(ns1, j, a) is ChildrenSum));
            assert(fills_assigned_under(ns1, j, a));
            assert(fills_assigned_under(ns2, j, a)) by {
                lemma_noncircular_shape(ns1, ns2, j, a);
                assert(in_subtree(ns2, j, j));
            }
            assert(in_chain(ns2, j, c)) by {
                assert(same_shape(ns1[j], ns2[j]));
                lemma_chain_from_shape(ns1, ns2, ns1[j].first->Some_0 as int, c);
            }
            assert(same_shape(ns1[c], ns2[c]));
            assert(sz_at(ns1, c, a) == fill_share(ns1, j, a));
            assert(sz_at(ns2, c, a) == fill_share(ns2, j, a));
            // the share only reads the parent's size, the non-Fill siblings,
            // and the (structural) fill count
            assert(fill_share(ns2, j, a) == fill_share(ns1, j, a)) by {
                assert(same_shape(ns1[j], ns2[j]));
                match ns1[j].first {
                    Some(f) => {
                        assert forall|m: int|
                            in_chain_from_pub(ns1, f as int, m) && !(sem_at(ns1, m, a) is Fill)
                                implies sz_at(ns2, #[trigger] (m + 0), a) == sz_at(ns1, m, a) by {
                            crate::tree::lemma_chain_from_parent(ns1, f as int, m);
                            assert(in_chain(ns1, j, m));
                            lemma_chain_parent(ns1, j, m);
                            assert(in_subtree(ns1, m, j)) by {
                                assert(in_subtree(ns1, j, j));
                            }
                            lemma_child_hyps(ns1, ns2, cw, ch, j, m, a);
                            lemma_nonfill_value(ns1, ns2, cw, ch, m, a);
                        }
                        lemma_sum_congruence_nonfill(ns1, ns2, f as int, a, 0);
                        lemma_fills_fold_structural(ns1, ns2, f as int, -1, a, 0);
                    },
                    None => {},
                }
            }
        } else {
            lemma_nonfill_value(ns1, ns2, cw, ch, c, a);
        }
    }
    // and with the children pinned, each child subtree recurses
    assert forall|d: int| #[trigger] in_subtree(ns1, d, j) implies sz_at(ns2, d, a) == sz_at(
        ns1,
        d,
        a,
    ) by {
        if d != j {
            let c = lemma_subtree_step(ns1, d, j);
            lemma_chain_parent(ns1, j, c);
            assert(in_subtree(ns1, c, j)) by {
                assert(in_subtree(ns1, j, j));
            }
            lemma_restrict_claims(ns1, cw, ch, j, c);
            lemma_restrict_claims_other(ns1, ns2, cw, ch, j, c);
            lemma_noncircular_sub(ns1, j, c, a);
            assert(wf_node(ns1, c));
            assert forall|k: int|
                #[trigger] in_subtree(ns1, c, k) && k != c && !(sem_at(ns1, k, a) is ChildrenSum)
                    implies sz_at(ns2, k, a) == sz_at(ns1, k, a) by {
                assert(in_subtree(ns1, ns1[c].parent->Some_0 as int, k));
                if k != j {
                    assert(in_subtree(ns1, j, k) && k != j);
                }
            }
            lemma_axis_sizes_unique(ns1, ns2, cw, ch, c, a);
        }
    }
}

/// A wrapper naming [`crate::tree::in_chain_from`] for use in quantifiers.
pub open spec fn in_chain_from_pub(ns: Seq<FrameNode>, c: int, j: int) -> bool {
    crate::tree::in_chain_from(ns, c, j)
}

/// The ancestor hypotheses of [`lemma_nonfill_value`] hold for a child `c` of
/// `j` whenever they hold for `j` itself and `j`'s size agrees.
proof fn lemma_child_hyps(
    ns1: Seq<FrameNode>,
    ns2: Seq<FrameNode>,
    cw: int,
    ch: int,
    j: int,
    c: int,
    a: int,
)
    requires
        wf_nodes(ns1),
        structure_eq(ns1, ns2),
        0 <= j < ns1.len(),
        0 <= c < ns1.len(),
        0 <= a < 2,
        (ns1[c].parent matches Some(p) && p as int == j),
        in_subtree(ns1, c, j),
        subtree_sizes_resolved(ns1, cw, ch, j),
        subtree_sizes_resolved(ns2, cw, ch, j),
        subtree_fills_resolved(ns1, j),
        subtree_fills_resolved(ns2, j),
        axis_noncircular(ns1, j, a),
        sz_at(ns2, j, a) == sz_at(ns1, j, a),
        forall|k: int|
            #[trigger] in_subtree(ns1, j, k) && k != j && !(sem_at(ns1, k, a) is ChildrenSum)
                ==> sz_at(ns2, k, a) == sz_at(ns1, k, a),
    ensures
        subtree_sizes_resolved(ns1, cw, ch, c),
        subtree_sizes_resolved(ns2, cw, ch, c),
        axis_noncircular(ns1, c, a),
        forall|k: int|
            #[trigger] in_subtree(ns1, c, k) && k != c && !(sem_at(ns1, k, a) is ChildrenSum)
                ==> sz_at(ns2, k, a) == sz_at(ns1, k, a),
{
    lemma_structure_eq_sym(ns1, ns2);
    lemma_restrict_claims(ns1, cw, ch, j, c);
    lemma_restrict_claims_other(ns1, ns2, cw, ch, j, c);
    lemma_noncircular_sub(ns1, j, c, a);
    assert forall|k: int|
        #[trigger] in_subtree(ns1, c, k) && k != c && !(sem_at(ns1, k, a) is ChildrenSum) implies
        sz_at(ns2, k, a) == sz_at(ns1, k, a) by {
        assert(ns1[c].parent->Some_0 as int == j);
        assert(in_subtree(ns1, ns1[c].parent->Some_0 as int, k));
        if k != j {
            assert(in_subtree(ns1, j, k) && k != j);
            assert(sz_at(ns2, k, a) == sz_at(ns1, k, a));
        } else {
            assert(sz_at(ns2, k, a) == sz_at(ns1, k, a));
        }
    }
}

/// Size claims restrict from a subtree to any of its members' subtrees.
proof fn lemma_restrict_claims(ns1: Seq<FrameNode>, cw: int, ch: int, j: int, c: int)
    requires
        subtree_sizes_resolved(ns1, cw, ch, j),
        subtree_fills_resolved(ns1, j),
        in_subtree(ns1, c, j),
    ensures
        subtree_sizes_resolved(ns1, cw, ch, c),
        subtree_fills_resolved(ns1, c),
{
    assert forall|m: int| #[trigger] in_subtree(ns1, m, c) implies own_resolved(ns1, cw, ch, m, 0)
        && own_resolved(ns1, cw, ch, m, 1) by {
        lemma_subtree_trans(ns1, m, c, j);
    }
    assert forall|d: int, aa: int|
        #![trigger in_subtree(ns1, d, c), fills_assigned_under(ns1, d, aa)]
        in_subtree(ns1, d, c) && 0 <= aa < 2 && !(sem_at(ns1, d, aa) is ChildrenSum)
            && axis_noncircular(ns1, d, aa) implies fills_assigned_under(ns1, d, aa) by {
        lemma_subtree_trans(ns1, d, c, j);
    }
}

/// The same restriction in the second state, transported over the shared
/// structure.
proof fn lemma_restrict_claims_other(
    ns1: Seq<FrameNode>,
    ns2: Seq<FrameNode>,
    cw: int,
    ch: int,
    j: int,
    c: int,
)
    requires
        structure_eq(ns1, ns2),
        subtree_sizes_resolved(ns2, cw, ch, j),
        subtree_fills_resolved(ns2, j),
        in_subtree(ns1, c, j),
    ensures
        subtree_sizes_resolved(ns2, cw, ch, c),
        subtree_fills_resolved(ns2, c),
{
    lemma_subtree_shape(ns1, ns2, c, j);
    assert forall|m: int| #[trigger] in_subtree(ns2, m, c) implies own_resolved(ns2, cw, ch, m, 0)
        && own_resolved(ns2, cw, ch, m, 1) by {
        lemma_subtree_trans(ns2, m, c, j);
    }
    assert forall|d: int, aa: int|
        #![trigger in_subtree(ns2, d, c), fills_assigned_under(ns2, d, aa)]
        in_subtree(ns2, d, c) && 0 <= aa < 2 && !(sem_at(ns2, d, aa) is ChildrenSum)
            && axis_noncircular(ns2, d, aa) implies fills_assigned_under(ns2, d, aa) by {
        lemma_subtree_trans(ns2, d, c, j);
    }
}

/// With every size pinned, the packing rule pins every position: a node sits
/// at its parent's baseline, offset past its previous sibling along the
/// parent's stacking axis, so positions are determined top-down once the
/// root's position is fixed.
pub proof fn lemma_positions_unique(ns1: Seq<FrameNode>, ns2: Seq<FrameNode>, d: int, a: int)
    requires
        wf_nodes(ns1),
        structure_eq(ns1, ns2),
        0 <= d < ns1.len(),
        0 <= a < 2,
        subtree_pos_resolved(ns1, 0),
        subtree_pos_resolved(ns2, 0),
        forall|e: int|
            0 <= e < ns1.len() ==> sz_at(ns2, #[trigger] (e + 0), a) == sz_at(ns1, e, a),
        pos_at(ns2, 0, a) == pos_at(ns1, 0, a),
    ensures
        pos_at(ns2, d, a) == pos_at(ns1, d, a),
    decreases d,
{
    lemma_structure_eq_sym(ns1, ns2);
    if d != 0 {
        assert(wf_node(ns1, d));
        lemma_all_in_root_subtree(ns1, d);
        assert(in_subtree(ns2, d, 0)) by {
            lemma_subtree_shape(ns1, ns2, d, 0);
        }
        assert(pos_resolved(ns1, d, a));
        assert(pos_resolved(ns2, d, a));
        assert(same_shape(ns1[d], ns2[d]));
        let p = ns1[d].parent->Some_0 as int;
        assert(0 <= p < d);
        assert(same_shape(ns1[p], ns2[p]));
        lemma_positions_unique(ns1, ns2, p, a);
        match ns1[d].prev {
            Some(q) => {
                assert(0 <= q as int && (q as int) < d);
                lemma_positions_unique(ns1, ns2, q as int, a);
                assert(sz_at(ns2, q as int + 0, a) == sz_at(ns1, q as int, a));
            },
            None => {},
        }
    }
}

/// Determinism of the layout engine, and with it idempotence: two fully
/// laid-out states of one frame tree, produced from the same canvas, carry
/// bit-identical geometry on every axis free of the circular
/// derived-parent/filling-child combination, provided the root sits at the
/// same position. Re-running `update_layout` with identical inputs therefore
/// reproduces the first run's geometry exactly.
pub proof fn lemma_layout_deterministic(
    ns1: Seq<FrameNode>,
    ns2: Seq<FrameNode>,
    cw: int,
    ch: int,
)
    requires
        wf_nodes(ns1),
        structure_eq(ns1, ns2),
        subtree_sizes_resolved(ns1, cw, ch, 0),
        subtree_sizes_resolved(ns2, cw, ch, 0),
        subtree_fills_resolved(ns1, 0),
        subtree_fills_resolved(ns2, 0),
        subtree_pos_resolved(ns1, 0),
        subtree_pos_resolved(ns2, 0),
        axis_noncircular(ns1, 0, 0),
        axis_noncircular(ns1, 0, 1),
        pos_at(ns2, 0, 0) == pos_at(ns1, 0, 0),
        pos_at(ns2, 0, 1) == pos_at(ns1, 0, 1),
    ensures
        forall|d: int|
            0 <= d < ns1.len() ==> sz_at(ns2, #[trigger] (d + 0), 0) == sz_at(ns1, d, 0) && sz_at(
                ns2,
                d,
                1,
            ) == sz_at(ns1, d, 1) && pos_at(ns2, d, 0) == pos_at(ns1, d, 0) && pos_at(ns2, d, 1)
                == pos_at(ns1, d, 1),
{
    lemma_structure_eq_sym(ns1, ns2);
    // the root's size is the canvas in both states
    assert(in_subtree(ns1, 0, 0));
    assert(in_subtree(ns2, 0, 0));
    assert(ns1[0].key@ == root_key_view());
    assert(same_shape(ns1[0], ns2[0]));
    assert(own_resolved(ns1, cw, ch, 0, 0) && own_resolved(ns1, cw, ch, 0, 1));
    assert(own_resolved(ns2, cw, ch, 0, 0) && own_resolved(ns2, cw, ch, 0, 1));
    assert(sz_at(ns2, 0, 0) == sz_at(ns1, 0, 0));
    assert(sz_at(ns2, 0, 1) == sz_at(ns1, 0, 1));
    // ancestors of the root are vacuous, so every size is pinned
    assert forall|k: int|
        #[trigger] in_subtree(ns1, 0, k) && k != 0 && !(sem_at(ns1, k, 0) is ChildrenSum) implies
        sz_at(ns2, k, 0) == sz_at(ns1, k, 0) by {
        lemma_subtree_bounds(ns1, 0, k);
    }
    assert forall|k: int|
        #[trigger] in_subtree(ns1, 0, k) && k != 0 && !(sem_at(ns1, k, 1) is ChildrenSum) implies
        sz_at(ns2, k, 1) == sz_at(ns1, k, 1) by {
        lemma_subtree_bounds(ns1, 0, k);
    }
    lemma_axis_sizes_unique(ns1, ns2, cw, ch, 0, 0);
    lemma_axis_sizes_unique(ns1, ns2, cw, ch, 0, 1);
    assert forall|d: int|
        0 <= d < ns1.len() implies sz_at(ns2, #[trigger] (d + 0), 0) == sz_at(ns1, d, 0) && sz_at(
        ns2,
        d,
        1,
    ) == sz_at(ns1, d, 1) && pos_at(ns2, d, 0) == pos_at(ns1, d, 0) && pos_at(ns2, d, 1) == pos_at(
        ns1,
        d,
        1,
    ) by {
        lemma_all_in_root_subtree(ns1, d);
        assert(sz_at(ns2, d, 0) == sz_at(ns1, d, 0));
        assert(sz_at(ns2, d, 1) == sz_at(ns1, d, 1));
        assert forall|e: int|
            0 <= e < ns1.len() implies sz_at(ns2, #[trigger] (e + 0), 0) == sz_at(ns1, e, 0)
            && sz_at(ns2, e + 0, 1) == sz_at(ns1, e, 1) by {
            lemma_all_in_root_subtree(ns1, e);
        }
        lemma_positions_unique(ns1, ns2, d, 0);
        lemma_positions_unique(ns1, ns2, d, 1);
    }
}


/// One sync write never changes any entry's key.
proof fn lemma_sync_entry_keys(entries: Seq<StoreEntry>, key: Seq<char>, size: crate::geometry::Size)
    ensures
        sync_entry(entries, key, size).len() == entries.len(),
        forall|i: int|
            0 <= i < entries.len() ==> (#[trigger] sync_entry(entries, key, size)[i]).key
                == entries[i].key,
{
    match find_key(entries, key) {
        Some(i) => {
            crate::store::lemma_find_key_from_some(entries, key, 0, i);
        },
        None => {},
    }
}

/// Lookups only read keys, so two stores with the same keys resolve every
/// lookup at the same index.
proof fn lemma_find_key_congruent(e1: Seq<StoreEntry>, e2: Seq<StoreEntry>, k: Seq<char>, i: int)
    requires
        e1.len() == e2.len(),
        forall|m: int| 0 <= m < e1.len() ==> (#[trigger] e2[m]).key == e1[m].key,
        0 <= i,
    ensures
        crate::store::find_key_from(e2, k, i) == crate::store::find_key_from(e1, k, i),
    decreases e1.len() - i,
{
    if i < e1.len() {
        lemma_find_key_congruent(e1, e2, k, i + 1);
    }
}

/// The sync pass never changes any entry's key.
proof fn lemma_sync_subtree_keys(entries: Seq<StoreEntry>, ns: Seq<FrameNode>, j: int)
    ensures
        sync_subtree_spec(entries, ns, j).len() == entries.len(),
        forall|i: int|
            0 <= i < entries.len() ==> (#[trigger] sync_subtree_spec(entries, ns, j)[i]).key
                == entries[i].key,
    decreases ns.len() - j, 0int,
{
    if 0 <= j < ns.len() {
        lemma_sync_entry_keys(entries, ns[j].key@, ns[j].size);
        let e1 = sync_entry(entries, ns[j].key@, ns[j].size);
        match ns[j].first {
            Some(f) => {
                if j < f as int && (f as int) < ns.len() {
                    lemma_sync_chain_keys(e1, ns, f as int);
                }
            },
            None => {},
        }
    }
}

/// The sibling-run half of [`lemma_sync_subtree_keys`].
proof fn lemma_sync_chain_keys(entries: Seq<StoreEntry>, ns: Seq<FrameNode>, c: int)
    ensures
        sync_chain_spec(entries, ns, c).len() == entries.len(),
        forall|i: int|
            0 <= i < entries.len() ==> (#[trigger] sync_chain_spec(entries, ns, c)[i]).key
                == entries[i].key,
    decreases ns.len() - c, 1int,
{
    if 0 <= c < ns.len() {
        lemma_sync_subtree_keys(entries, ns, c);
        let e1 = sync_subtree_spec(entries, ns, c);
        match ns[c].next {
            Some(k) => {
                if c < k as int && (k as int) < ns.len() {
                    lemma_sync_chain_keys(e1, ns, k as int);
                }
            },
            None => {},
        }
    }
}

/// Syncing a subtree none of whose keys is `k` leaves the entry holding `k`
/// untouched.
proof fn lemma_sync_avoids(entries: Seq<StoreEntry>, ns: Seq<FrameNode>, r: int, k: Seq<char>, t: int)
    requires
        wf_nodes(ns),
        0 <= t < entries.len(),
        forall|d: int| #[trigger] in_subtree(ns, d, r) ==> ns[d].key@ != k,
        entries[t].key@ == k,
    ensures
        sync_subtree_spec(entries, ns, r).len() == entries.len(),
        sync_subtree_spec(entries, ns, r)[t] == entries[t],
    decreases ns.len() - r, 0int,
{
    lemma_sync_subtree_keys(entries, ns, r);
    if 0 <= r < ns.len() {
        assert(in_subtree(ns, r, r));
        assert(ns[r].key@ != k);
        let e1 = sync_entry(entries, ns[r].key@, ns[r].size);
        assert(e1[t] == entries[t]) by {
            match find_key(entries, ns[r].key@) {
                Some(i) => {
                    crate::store::lemma_find_key_from_some(entries, ns[r].key@, 0, i);
                    assert(i != t);
                },
                None => {},
            }
        }
        lemma_sync_entry_keys(entries, ns[r].key@, ns[r].size);
        match ns[r].first {
            Some(f) => {
                if r < f as int && (f as int) < ns.len() {
                    assert(wf_node(ns, r));
                    lemma_sync_chain_avoids(e1, ns, r, f as int, k, t);
                }
            },
            None => {},
        }
    }
}

/// The sibling-run half of [`lemma_sync_avoids`]: `c` is a member of `r`'s
/// child chain.
proof fn lemma_sync_chain_avoids(
    entries: Seq<StoreEntry>,
    ns: Seq<FrameNode>,
    r: int,
    c: int,
    k: Seq<char>,
    t: int,
)
    requires
        wf_nodes(ns),
        0 <= t < entries.len(),
        0 <= r < ns.len(),
        in_chain(ns, r, c),
        forall|d: int| #[trigger] in_subtree(ns, d, r) ==> ns[d].key@ != k,
        entries[t].key@ == k,
    ensures
        sync_chain_spec(entries, ns, c).len() == entries.len(),
        sync_chain_spec(entries, ns, c)[t] == entries[t],
    decreases ns.len() - c, 1int,
{
    lemma_sync_chain_keys(entries, ns, c);
    lemma_chain_parent(ns, r, c);
    assert(in_subtree(ns, c, r)) by {
        assert(in_subtree(ns, r, r));
    }
    assert forall|d: int| #[trigger] in_subtree(ns, d, c) implies ns[d].key@ != k by {
        lemma_subtree_trans(ns, d, c, r);
    }
    lemma_sync_avoids(entries, ns, c, k, t);
    let e1 = sync_subtree_spec(entries, ns, c);
    lemma_sync_subtree_keys(entries, ns, c);
    match ns[c].next {
        Some(kk) => {
            if c < kk as int && (kk as int) < ns.len() {
                assert(in_chain(ns, r, kk as int)) by {
                    assert(wf_node(ns, r));
                    lemma_chain_from_shape(ns, ns, ns[r].first->Some_0 as int, c);
                    crate::tree::lemma_chain_from_extend(
                        ns,
                        ns[r].first->Some_0 as int,
                        c,
                        kk as int,
                    );
                }
                lemma_sync_chain_avoids(e1, ns, r, kk as int, k, t);
            }
        },
        None => {},
    }
}

/// What the sync pass records: when node `j` is the only node of the synced
/// subtree carrying its key, the store ends up holding `j`'s final geometry
/// under that key, with the entry's label untouched. Together with the
/// builder's continuity rule this is the persistence story: cached geometry
/// is available to a rebuilt frame before layout runs, and overwritten by the
/// sync walk after it.
pub proof fn lemma_sync_records_geometry(
    entries: Seq<StoreEntry>,
    ns: Seq<FrameNode>,
    r: int,
    j: int,
    t: int,
)
    requires
        wf_nodes(ns),
        in_subtree(ns, j, r),
        forall|d: int| #[trigger] in_subtree(ns, d, r) && d != j ==> ns[d].key@ != ns[j].key@,
        0 <= t < entries.len(),
        find_key(entries, ns[j].key@) == Some(t),
    ensures
        sync_subtree_spec(entries, ns, r).len() == entries.len(),
        find_key(sync_subtree_spec(entries, ns, r), ns[j].key@) == Some(t),
        sync_subtree_spec(entries, ns, r)[t].key == entries[t].key,
        sync_subtree_spec(entries, ns, r)[t].data.label == entries[t].data.label,
        sync_subtree_spec(entries, ns, r)[t].data.size == ns[j].size,
    decreases ns.len() - r, 0int,
{
    lemma_subtree_bounds(ns, j, r);
    lemma_sync_subtree_keys(entries, ns, r);
    crate::store::lemma_find_key_from_some(entries, ns[j].key@, 0, t);
    assert(find_key(sync_subtree_spec(entries, ns, r), ns[j].key@) == Some(t)) by {
        lemma_find_key_congruent(entries, sync_subtree_spec(entries, ns, r), ns[j].key@, 0);
    }
    let e1 = sync_entry(entries, ns[r].key@, ns[r].size);
    lemma_sync_entry_keys(entries, ns[r].key@, ns[r].size);
    if j == r {
        // the root write itself records the geometry, and no later write in
        // the walk touches the key again
        assert(e1[t].data.size == ns[j].size && e1[t].data.label == entries[t].data.label
            && e1[t].key == entries[t].key);
        match ns[r].first {
            Some(f) => {
                if r < f as int && (f as int) < ns.len() {
                    assert(wf_node(ns, r));
                    assert(e1[t].key@ == ns[j].key@);
                    assert(in_chain(ns, r, f as int)) by {
                        assert(crate::tree::in_chain_from(ns, f as int, f as int));
                    }
                    assert forall|m: int|
                        #[trigger] crate::tree::in_chain_from(ns, f as int, m) implies
                        !in_subtree(ns, j, m) by {
                        if in_subtree(ns, j, m) {
                            crate::tree::lemma_chain_from_parent(ns, f as int, m);
                            lemma_subtree_bounds(ns, j, m);
                        }
                    }
                    lemma_sync_chain_avoids_unique(e1, ns, r, f as int, j, t);
                }
            },
            None => {},
        }
    } else {
        // the root's key differs, so its write leaves the entry alone; the
        // child chain containing j finishes the job
        assert(in_subtree(ns, r, r));
        assert(ns[r].key@ != ns[j].key@);
        assert(e1[t] == entries[t]) by {
            match find_key(entries, ns[r].key@) {
                Some(i) => {
                    crate::store::lemma_find_key_from_some(entries, ns[r].key@, 0, i);
                    assert(i != t);
                },
                None => {},
            }
        }
        assert(wf_node(ns, r));
        let c0 = lemma_subtree_step(ns, j, r);
        assert(in_chain(ns, r, ns[r].first->Some_0 as int)) by {
            assert(crate::tree::in_chain_from(
                ns,
                ns[r].first->Some_0 as int,
                ns[r].first->Some_0 as int,
            ));
        }
        assert(crate::tree::in_chain_from(ns, ns[r].first->Some_0 as int, c0));
        assert(find_key(e1, ns[j].key@) == Some(t)) by {
            lemma_find_key_congruent(entries, e1, ns[j].key@, 0);
        }
        lemma_sync_records_chain(e1, ns, r, c0, ns[r].first->Some_0 as int, j, t);
    }
}

/// Chain reachability is transitive.
proof fn lemma_chain_from_trans(ns: Seq<FrameNode>, f: int, c: int, m: int)
    requires
        crate::tree::in_chain_from(ns, f, c),
        crate::tree::in_chain_from(ns, c, m),
    ensures
        crate::tree::in_chain_from(ns, f, m),
    decreases ns.len() - f,
{
    if f != c {
        lemma_chain_from_trans(ns, ns[f].next->Some_0 as int, c, m);
    }
}

/// Once `j`'s geometry is recorded, the rest of the walk avoids its key: no
/// remaining sibling's subtree contains `j`, and every other node's key
/// differs.
proof fn lemma_sync_chain_avoids_unique(
    entries: Seq<StoreEntry>,
    ns: Seq<FrameNode>,
    r: int,
    c: int,
    j: int,
    t: int,
)
    requires
        wf_nodes(ns),
        0 <= t < entries.len(),
        0 <= r < ns.len(),
        0 <= j < ns.len(),
        in_chain(ns, r, c),
        forall|d: int| #[trigger] in_subtree(ns, d, r) && d != j ==> ns[d].key@ != ns[j].key@,
        entries[t].key@ == ns[j].key@,
        forall|m: int|
            #[trigger] crate::tree::in_chain_from(ns, c, m) ==> !in_subtree(ns, j, m),
    ensures
        sync_chain_spec(entries, ns, c).len() == entries.len(),
        sync_chain_spec(entries, ns, c)[t] == entries[t],
    decreases ns.len() - c, 1int,
{
    lemma_sync_chain_keys(entries, ns, c);
    lemma_chain_parent(ns, r, c);
    assert(in_subtree(ns, c, r)) by {
        assert(in_subtree(ns, r, r));
    }
    assert forall|d: int| #[trigger] in_subtree(ns, d, c) implies ns[d].key@ != ns[j].key@ by {
        lemma_subtree_trans(ns, d, c, r);
        if d == j {
            assert(crate::tree::in_chain_from(ns, c, c));
            assert(!in_subtree(ns, j, c));
        }
    }
    lemma_sync_avoids(entries, ns, c, ns[j].key@, t);
    let e1 = sync_subtree_spec(entries, ns, c);
    lemma_sync_subtree_keys(entries, ns, c);
    match ns[c].next {
        Some(kk) => {
            if c < kk as int && (kk as int) < ns.len() {
                assert(in_chain(ns, r, kk as int)) by {
                    assert(wf_node(ns, r));
                    crate::tree::lemma_chain_from_extend(
                        ns,
                        ns[r].first->Some_0 as int,
                        c,
                        kk as int,
                    );
                    assert(wf_node(ns, c));
                }
                assert forall|m: int|
                    #[trigger] crate::tree::in_chain_from(ns, kk as int, m) implies !in_subtree(
                    ns,
                    j,
                    m,
                ) by {
                    assert(crate::tree::in_chain_from(ns, c, c));
                    assert(crate::tree::in_chain_from(ns, c, m)) by {
                        assert(wf_node(ns, c));
                    }
                }
                lemma_sync_chain_avoids_unique(e1, ns, r, kk as int, j, t);
            }
        },
        None => {},
    }
}

/// The chain half of [`lemma_sync_records_geometry`]: walking the chain from
/// `c` records `j`, which lives in chain member `c0`'s subtree.
proof fn lemma_sync_records_chain(
    entries: Seq<StoreEntry>,
    ns: Seq<FrameNode>,
    r: int,
    c0: int,
    c: int,
    j: int,
    t: int,
)
    requires
        wf_nodes(ns),
        0 <= t < entries.len(),
        0 <= r < ns.len(),
        in_chain(ns, r, c0),
        in_chain(ns, r, c),
        crate::tree::in_chain_from(ns, c, c0),
        in_subtree(ns, j, c0),
        in_subtree(ns, j, r),
        j != r,
        forall|d: int| #[trigger] in_subtree(ns, d, r) && d != j ==> ns[d].key@ != ns[j].key@,
        entries[t].key@ == ns[j].key@,
        find_key(entries, ns[j].key@) == Some(t),
    ensures
        sync_chain_spec(entries, ns, c).len() == entries.len(),
        sync_chain_spec(entries, ns, c)[t].key == entries[t].key,
        sync_chain_spec(entries, ns, c)[t].data.label == entries[t].data.label,
        sync_chain_spec(entries, ns, c)[t].data.size == ns[j].size,
    decreases ns.len() - c, 1int,
{
    lemma_sync_chain_keys(entries, ns, c);
    crate::layout::lemma_chain_from_le(ns, c, c0);
    assert(0 <= c < ns.len()) by {
        lemma_chain_parent(ns, r, c0);
        crate::tree::lemma_chain_from_parent(ns, c, c0);
    }
    let e1 = sync_subtree_spec(entries, ns, c);
    lemma_sync_subtree_keys(entries, ns, c);
    if c == c0 {
        // j is inside this member's subtree: recurse, then the later members
        // leave the recorded entry alone
        assert forall|d: int| #[trigger] in_subtree(ns, d, c0) && d != j implies ns[d].key@
            != ns[j].key@ by {
            lemma_chain_parent(ns, r, c0);
            assert(in_subtree(ns, c0, r)) by {
                assert(in_subtree(ns, r, r));
            }
            lemma_subtree_trans(ns, d, c0, r);
        }
        lemma_sync_records_geometry(entries, ns, c0, j, t);
        match ns[c].next {
            Some(kk) => {
                if c < kk as int && (kk as int) < ns.len() {
                    assert(in_chain(ns, r, kk as int)) by {
                        assert(wf_node(ns, r));
                        crate::tree::lemma_chain_from_extend(
                            ns,
                            ns[r].first->Some_0 as int,
                            c0,
                            kk as int,
                        );
                    }
                    // every later member's subtree misses j: sibling subtrees
                    // are disjoint
                    assert forall|m: int|
                        #[trigger] crate::tree::in_chain_from(ns, kk as int, m) implies
                        !in_subtree(ns, j, m) by {
                        if in_subtree(ns, j, m) {
                            assert(wf_node(ns, r));
                            crate::tree::lemma_chain_from_extend(
                                ns,
                                ns[r].first->Some_0 as int,
                                c0,
                                kk as int,
                            );
                            lemma_chain_from_trans(
                                ns,
                                ns[r].first->Some_0 as int,
                                kk as int,
                                m,
                            );
                            assert(in_chain(ns, r, m));
                            lemma_chain_parent(ns, r, m);
                            lemma_chain_parent(ns, r, c0);
                            if m == c0 {
                                crate::layout::lemma_chain_from_le(ns, kk as int, m);
                            } else {
                                crate::tree::lemma_sibling_subtrees_disjoint(ns, c0, m, j);
                            }
                        }
                    }
                    assert(e1[t].key@ == ns[j].key@) by {
                        crate::store::lemma_find_key_from_some(entries, ns[j].key@, 0, t);
                    }
                    lemma_sync_chain_avoids_unique(e1, ns, r, kk as int, j, t);
                }
            },
            None => {},
        }
    } else {
        // j is further down the chain: this member's subtree misses it
        assert(crate::tree::in_chain_from(ns, ns[c].next->Some_0 as int, c0));
        assert forall|d: int| #[trigger] in_subtree(ns, d, c) implies ns[d].key@ != ns[j].key@ by {
            lemma_chain_parent(ns, r, c);
            assert(in_subtree(ns, c, r)) by {
                assert(in_subtree(ns, r, r));
            }
            lemma_subtree_trans(ns, d, c, r);
            if d == j {
                lemma_chain_parent(ns, r, c0);
                crate::tree::lemma_sibling_subtrees_disjoint(ns, c0, c, j);
            }
        }
        lemma_sync_avoids(entries, ns, c, ns[j].key@, t);
        assert(find_key(e1, ns[j].key@) == Some(t)) by {
            lemma_find_key_congruent(entries, e1, ns[j].key@, 0);
        }
        assert(in_chain(ns, r, ns[c].next->Some_0 as int)) by {
            assert(wf_node(ns, r));
            assert(wf_node(ns, c)) by {
                lemma_chain_parent(ns, r, c);
            }
            crate::tree::lemma_chain_from_extend(
                ns,
                ns[r].first->Some_0 as int,
                c,
                ns[c].next->Some_0 as int,
            );
        }
        lemma_sync_records_chain(e1, ns, r, c0, ns[c].next->Some_0 as int, j, t);
    }
}

} // verus!
