//! The two-phase layout engine.
//!
//! Layout is a recursive tree rewrite over the frame arena. For each node a
//! top-down pre-pass inherits the position baseline from the parent and the
//! previous sibling and resolves the directly computable sizing policies
//! (`FitText`, `Exact`, `PercentOfParent`); a children sub-pass first lays out
//! all children to gather sizing totals, then assigns every `Fill` child its
//! equal share of the leftover space and lays the children out once more so
//! the shares propagate downward; finally a bottom-up post-pass aggregates
//! `ChildrenSum` axes from the now-final children (summing along the node's
//! own axis, taking the maximum across it). After the recursion a sync walk
//! copies every node's final geometry into the persistent store.
//!
//! The contracts below pin the resolved geometry: what every policy computes
//! to, over the final state of the arena.

use vstd::prelude::*;
use vstd::string::StrSliceExecFns;
use crate::geometry::Axis;
use crate::geometry::SemanticSize;
use crate::geometry::Size;
use crate::geometry::FONT_HEIGHT;
use crate::geometry::FONT_WIDTH;
use crate::geometry::axis_index;
use crate::geometry::axis_ix;
use crate::geometry::div_towards_zero;
use crate::geometry::percent_of;
use crate::geometry::percent_value;
use crate::geometry::sat_add;
use crate::geometry::sat_add_i32;
use crate::geometry::sat_sub;
use crate::geometry::sat_sub_i32;
use crate::geometry::div_trunc;
use crate::geometry::max_i32;
use crate::geometry::text_extent;
use crate::geometry::text_extent_value;
use crate::key::NodeKey;
use crate::store::PersistentNodeData;
use crate::store::StoreEntry;
use crate::store::find_key;
use crate::key::root_key_view;
use crate::tree::Context;
use crate::tree::FrameNode;
use crate::tree::in_chain;
use crate::tree::in_chain_from;
use crate::tree::in_subtree;
use crate::tree::lemma_chain_from_extend;
use crate::tree::lemma_chain_from_parent;
use crate::tree::lemma_chain_parent;
use crate::tree::lemma_sibling_subtrees_disjoint;
use crate::tree::lemma_subtree_bounds;
use crate::tree::lemma_subtree_linear;
use crate::tree::lemma_subtree_step;
use crate::tree::lemma_subtree_trans;
use crate::tree::wf_node;
use crate::tree::wf_nodes;

verus! {

/// The sizing policy of node `j` on axis `a`.
pub open spec fn sem_at(ns: Seq<FrameNode>, j: int, a: int) -> SemanticSize {
    ns[j].size.semantic_size@[a]
}

/// The computed size of node `j` on axis `a`.
pub open spec fn sz_at(ns: Seq<FrameNode>, j: int, a: int) -> int {
    ns[j].size.computed_size@[a] as int
}

/// The computed position of node `j` on axis `a`.
pub open spec fn pos_at(ns: Seq<FrameNode>, j: int, a: int) -> int {
    ns[j].size.computed_pos@[a] as int
}

/// The axis node `j` stacks its children along, as an array index.
pub open spec fn main_axis(ns: Seq<FrameNode>, j: int) -> int {
    axis_ix(ns[j].size.axis)
}

/// The size that a `PercentOfParent` policy on node `j` resolves against: the
/// computed size of the nearest ancestor whose own policy on this axis is not
/// `ChildrenSum`. Ancestors sized by their children are skipped because their
/// size on this axis is derived, not authoritative.
pub open spec fn spec_ancestor_size(ns: Seq<FrameNode>, j: int, a: int) -> int
    decreases (if 0 <= j { j } else { 0 }),
{
    if 0 <= j < ns.len() {
        match ns[j].parent {
            Some(p) => if 0 <= p as int && (p as int) < j {
                if sem_at(ns, p as int, a) is ChildrenSum {
                    spec_ancestor_size(ns, p as int, a)
                } else {
                    sz_at(ns, p as int, a)
                }
            } else {
                0
            },
            None => 0,
        }
    } else {
        0
    }
}

/// Left fold of the measuring pass along a sibling chain starting at `c` and
/// stopping before `stop` (pass `-1` to fold the whole chain): the saturating
/// sum of the computed sizes of the non-`Fill` members on axis `a`.
pub open spec fn chain_sum_upto(ns: Seq<FrameNode>, c: int, stop: int, a: int, acc: int) -> int
    decreases ns.len() - c,
{
    if 0 <= c < ns.len() && c != stop {
        let acc2 = if sem_at(ns, c, a) is Fill {
            acc
        } else {
            sat_add_i32(acc, sz_at(ns, c, a))
        };
        match ns[c].next {
            Some(k) => if c < k as int && (k as int) < ns.len() {
                chain_sum_upto(ns, k as int, stop, a, acc2)
            } else {
                acc2
            },
            None => acc2,
        }
    } else {
        acc
    }
}

/// Left fold counting the `Fill` members of a sibling chain on axis `a`,
/// saturating like its executable counterpart.
pub open spec fn chain_fills_upto(ns: Seq<FrameNode>, c: int, stop: int, a: int, acc: int) -> int
    decreases ns.len() - c,
{
    if 0 <= c < ns.len() && c != stop {
        let acc2 = if sem_at(ns, c, a) is Fill {
            sat_add_i32(acc, 1)
        } else {
            acc
        };
        match ns[c].next {
            Some(k) => if c < k as int && (k as int) < ns.len() {
                chain_fills_upto(ns, k as int, stop, a, acc2)
            } else {
                acc2
            },
            None => acc2,
        }
    } else {
        acc
    }
}

/// Left fold of the `ChildrenSum` post-pass along a sibling chain: the
/// saturating sum of the members' sizes when `own` (the parent's own axis),
/// their maximum against the accumulator otherwise.
pub open spec fn chain_agg_upto(
    ns: Seq<FrameNode>,
    c: int,
    stop: int,
    a: int,
    own: bool,
    acc: int,
) -> int
    decreases ns.len() - c,
{
    if 0 <= c < ns.len() && c != stop {
        let acc2 = if own {
            sat_add_i32(acc, sz_at(ns, c, a))
        } else {
            if sz_at(ns, c, a) > acc {
                sz_at(ns, c, a)
            } else {
                acc
            }
        };
        match ns[c].next {
            Some(k) => if c < k as int && (k as int) < ns.len() {
                chain_agg_upto(ns, k as int, stop, a, own, acc2)
            } else {
                acc2
            },
            None => acc2,
        }
    } else {
        acc
    }
}

/// The summed size of node `r`'s non-`Fill` children on axis `a`.
pub open spec fn nonfill_sum(ns: Seq<FrameNode>, r: int, a: int) -> int {
    match ns[r].first {
        Some(f) => chain_sum_upto(ns, f as int, -1, a, 0),
        None => 0,
    }
}

/// How many of node `r`'s children have the `Fill` policy on axis `a`.
pub open spec fn fill_count(ns: Seq<FrameNode>, r: int, a: int) -> int {
    match ns[r].first {
        Some(f) => chain_fills_upto(ns, f as int, -1, a, 0),
        None => 0,
    }
}

/// What a `ChildrenSum` axis of node `r` aggregates to: the sum of the
/// children's sizes along `r`'s own stacking axis, their maximum (floored at
/// zero) across it.
pub open spec fn children_agg(ns: Seq<FrameNode>, r: int, a: int) -> int {
    match ns[r].first {
        Some(f) => chain_agg_upto(ns, f as int, -1, a, a == main_axis(ns, r), 0),
        None => 0,
    }
}

/// The size assigned to each `Fill` child of node `r` on axis `a`: on `r`'s
/// stacking axis an equal share of the leftover space after the non-`Fill`
/// siblings are sized; across it, the parent's full size.
pub open spec fn fill_share(ns: Seq<FrameNode>, r: int, a: int) -> int {
    if a == main_axis(ns, r) {
        div_towards_zero(sat_sub_i32(sz_at(ns, r, a), nonfill_sum(ns, r, a)), fill_count(ns, r, a))
    } else {
        sz_at(ns, r, a)
    }
}

/// Everything about a node except its computed geometry: identity, label,
/// links, stacking axis and sizing policy.
pub open spec fn same_shape(o: FrameNode, n: FrameNode) -> bool {
    &&& n.index == o.index
    &&& n.key == o.key
    &&& n.label == o.label
    &&& n.first == o.first
    &&& n.last == o.last
    &&& n.next == o.next
    &&& n.prev == o.prev
    &&& n.parent == o.parent
    &&& n.size.axis == o.size.axis
    &&& n.size.semantic_size@ == o.size.semantic_size@
}

/// Layout never rewrites the tree's structure: only computed geometry may
/// differ between the two states.
pub open spec fn structure_eq(ns1: Seq<FrameNode>, ns2: Seq<FrameNode>) -> bool {
    &&& ns1.len() == ns2.len()
    &&& forall|j: int| 0 <= j < ns1.len() ==> same_shape(ns1[j], #[trigger] ns2[j])
}

/// Nodes outside the subtree rooted at `r` are untouched.
pub open spec fn same_outside_subtree(ns1: Seq<FrameNode>, ns2: Seq<FrameNode>, r: int) -> bool {
    forall|j: int| 0 <= j < ns1.len() && !in_subtree(ns1, j, r) ==> ns1[j] == #[trigger] ns2[j]
}

/// What the pre-pass leaves on the node it visits: `Fill` axes of a non-root
/// node keep their incoming value, and a node without a parent keeps its
/// position.
pub open spec fn call_node_preserved(ns1: Seq<FrameNode>, ns2: Seq<FrameNode>, r: int) -> bool {
    &&& (ns1[r].key@ != root_key_view() && sem_at(ns1, r, 0) is Fill ==> sz_at(ns2, r, 0) == sz_at(
        ns1,
        r,
        0,
    ))
    &&& (ns1[r].key@ != root_key_view() && sem_at(ns1, r, 1) is Fill ==> sz_at(ns2, r, 1) == sz_at(
        ns1,
        r,
        1,
    ))
    &&& (ns1[r].parent is None ==> pos_at(ns2, r, 0) == pos_at(ns1, r, 0) && pos_at(ns2, r, 1)
        == pos_at(ns1, r, 1))
}

/// The resolved size of node `j` on axis `a`: the canvas for the root, and
/// otherwise exactly what the node's declared policy prescribes. A `Fill`
/// size is constrained separately, by [`fills_assigned_under`] on its parent.
pub open spec fn own_resolved(
    ns: Seq<FrameNode>,
    cw: int,
    ch: int,
    j: int,
    a: int,
) -> bool {
    let canvas = if a == 0 {
        cw
    } else {
        ch
    };
    if ns[j].key@ == root_key_view() {
        sz_at(ns, j, a) == canvas
    } else {
        match sem_at(ns, j, a) {
            SemanticSize::FitText => sz_at(ns, j, a) == (if a == 0 {
                text_extent(ns[j].label@.len() as int, FONT_WIDTH as int)
            } else {
                FONT_HEIGHT as int
            }),
            SemanticSize::Exact(n) => sz_at(ns, j, a) == n as int,
            SemanticSize::PercentOfParent(p) => sz_at(ns, j, a) == percent_of(
                spec_ancestor_size(ns, j, a),
                p as int,
            ),
            SemanticSize::ChildrenSum => sz_at(ns, j, a) == children_agg(ns, j, a),
            SemanticSize::Fill => true,
        }
    }
}

/// The resolved position of node `j` on axis `a`: the parent's position,
/// offset past the previous sibling along the parent's stacking axis. This is
/// what packs siblings sequentially along the parent's chosen axis while the
/// cross axis stays at the parent's baseline.
pub open spec fn pos_resolved(ns: Seq<FrameNode>, j: int, a: int) -> bool {
    match ns[j].parent {
        Some(p) => pos_at(ns, j, a) == (if a == main_axis(ns, p as int) && ns[j].prev is Some {
            let q = ns[j].prev->Some_0 as int;
            sat_add_i32(pos_at(ns, q, a), sz_at(ns, q, a))
        } else {
            pos_at(ns, p as int, a)
        }),
        None => true,
    }
}

/// Every node of the subtree rooted at `r` carries its resolved size on both
/// axes.
pub open spec fn subtree_sizes_resolved(
    ns: Seq<FrameNode>,
    cw: int,
    ch: int,
    r: int,
) -> bool {
    forall|j: int|
        #[trigger] in_subtree(ns, j, r) ==> own_resolved(ns, cw, ch, j, 0) && own_resolved(
            ns,
            cw,
            ch,
            j,
            1,
        )
}

/// Every node of the subtree rooted at `r` carries its resolved position on
/// both axes.
pub open spec fn subtree_pos_resolved(ns: Seq<FrameNode>, r: int) -> bool {
    forall|j: int|
        #[trigger] in_subtree(ns, j, r) ==> pos_resolved(ns, j, 0) && pos_resolved(ns, j, 1)
}

/// No node of `r`'s subtree both derives axis `a` from its children and has a
/// child filling leftover space on that same axis. On such a circular
/// combination the leftover space has no well-defined value, and the engine's
/// two passes read a stale size; everywhere else `Fill` is exact.
pub open spec fn axis_noncircular(ns: Seq<FrameNode>, r: int, a: int) -> bool {
    forall|j: int|
        #[trigger] in_subtree(ns, j, r) && j != r ==> !(sem_at(
            ns,
            ns[j].parent->Some_0 as int,
            a,
        ) is ChildrenSum && sem_at(ns, j, a) is Fill)
}

/// Every `Fill` child of node `d` holds its exact share on axis `a`.
pub open spec fn fills_assigned_under(ns: Seq<FrameNode>, d: int, a: int) -> bool {
    forall|c: int|
        #[trigger] in_chain(ns, d, c) && sem_at(ns, c, a) is Fill ==> sz_at(ns, c, a)
            == fill_share(ns, d, a)
}

/// Throughout the subtree rooted at `r`, `Fill` children hold their exact
/// share of the leftover space, on every axis where the share is
/// well-defined: the parent does not derive that axis from its children, and
/// the parent's subtree is free of the circular combination.
pub open spec fn subtree_fills_resolved(ns: Seq<FrameNode>, r: int) -> bool {
    forall|d: int, a: int|
        #![trigger in_subtree(ns, d, r), fills_assigned_under(ns, d, a)]
        in_subtree(ns, d, r) && 0 <= a < 2 && !(sem_at(ns, d, a) is ChildrenSum)
            && axis_noncircular(ns, d, a) ==> fills_assigned_under(ns, d, a)
}

/// Where the measuring loop moves next from chain member `c`: the next
/// sibling, or `-1` past the end of the chain.
pub open spec fn next_stop(ns: Seq<FrameNode>, c: int) -> int {
    match ns[c].next {
        Some(k) => if c < k as int && (k as int) < ns.len() {
            k as int
        } else {
            -1
        },
        None => -1,
    }
}

/// Members reached along next-links never have smaller indices.
pub proof fn lemma_chain_from_le(ns: Seq<FrameNode>, c: int, j: int)
    requires
        in_chain_from(ns, c, j),
    ensures
        c <= j,
    decreases ns.len() - c,
{
    if c != j {
        lemma_chain_from_le(ns, ns[c].next->Some_0 as int, j);
    }
}

/// Folding up to the stop one past `cur` equals folding up to `cur` and then
/// taking `cur`'s own step: how the measuring loop's accumulators advance.
pub proof fn lemma_sum_advance(ns: Seq<FrameNode>, c: int, cur: int, a: int, acc: int)
    requires
        in_chain_from(ns, c, cur),
    ensures
        chain_sum_upto(ns, c, next_stop(ns, cur), a, acc) == (if sem_at(ns, cur, a) is Fill {
            chain_sum_upto(ns, c, cur, a, acc)
        } else {
            sat_add_i32(chain_sum_upto(ns, c, cur, a, acc), sz_at(ns, cur, a))
        }),
    decreases ns.len() - c,
{
    if c == cur {
        assert(chain_sum_upto(ns, c, cur, a, acc) == acc);
        match ns[c].next {
            Some(k) => {
                if c < k as int && (k as int) < ns.len() {
                    assert(chain_sum_upto(ns, k as int, k as int, a, acc2_sum(ns, c, a, acc))
                        == acc2_sum(ns, c, a, acc));
                }
            },
            None => {},
        }
    } else {
        lemma_chain_from_le(ns, ns[c].next->Some_0 as int, cur);
        lemma_sum_advance(ns, ns[c].next->Some_0 as int, cur, a, acc2_sum(ns, c, a, acc));
    }
}

/// One step of the non-`Fill` summing fold.
pub open spec fn acc2_sum(ns: Seq<FrameNode>, c: int, a: int, acc: int) -> int {
    if sem_at(ns, c, a) is Fill {
        acc
    } else {
        sat_add_i32(acc, sz_at(ns, c, a))
    }
}

/// One step of the `Fill`-counting fold.
pub open spec fn acc2_fills(ns: Seq<FrameNode>, c: int, a: int, acc: int) -> int {
    if sem_at(ns, c, a) is Fill {
        sat_add_i32(acc, 1)
    } else {
        acc
    }
}

/// One step of the `ChildrenSum` aggregation fold.
pub open spec fn acc2_agg(ns: Seq<FrameNode>, c: int, a: int, own: bool, acc: int) -> int {
    if own {
        sat_add_i32(acc, sz_at(ns, c, a))
    } else {
        if sz_at(ns, c, a) > acc {
            sz_at(ns, c, a)
        } else {
            acc
        }
    }
}

/// [`lemma_sum_advance`] for the `Fill`-counting fold.
pub proof fn lemma_fills_advance(ns: Seq<FrameNode>, c: int, cur: int, a: int, acc: int)
    requires
        in_chain_from(ns, c, cur),
    ensures
        chain_fills_upto(ns, c, next_stop(ns, cur), a, acc) == acc2_fills(
            ns,
            cur,
            a,
            chain_fills_upto(ns, c, cur, a, acc),
        ),
    decreases ns.len() - c,
{
    if c == cur {
        assert(chain_fills_upto(ns, c, cur, a, acc) == acc);
        match ns[c].next {
            Some(k) => {
                if c < k as int && (k as int) < ns.len() {
                    assert(chain_fills_upto(ns, k as int, k as int, a, acc2_fills(ns, c, a, acc))
                        == acc2_fills(ns, c, a, acc));
                }
            },
            None => {},
        }
    } else {
        lemma_chain_from_le(ns, ns[c].next->Some_0 as int, cur);
        lemma_fills_advance(ns, ns[c].next->Some_0 as int, cur, a, acc2_fills(ns, c, a, acc));
    }
}

/// [`lemma_sum_advance`] for the aggregation fold.
pub proof fn lemma_agg_advance(ns: Seq<FrameNode>, c: int, cur: int, a: int, own: bool, acc: int)
    requires
        in_chain_from(ns, c, cur),
    ensures
        chain_agg_upto(ns, c, next_stop(ns, cur), a, own, acc) == acc2_agg(
            ns,
            cur,
            a,
            own,
            chain_agg_upto(ns, c, cur, a, own, acc),
        ),
    decreases ns.len() - c,
{
    if c == cur {
        assert(chain_agg_upto(ns, c, cur, a, own, acc) == acc);
        match ns[c].next {
            Some(k) => {
                if c < k as int && (k as int) < ns.len() {
                    assert(chain_agg_upto(ns, k as int, k as int, a, own, acc2_agg(ns, c, a, own, acc))
                        == acc2_agg(ns, c, a, own, acc));
                }
            },
            None => {},
        }
    } else {
        lemma_chain_from_le(ns, ns[c].next->Some_0 as int, cur);
        lemma_agg_advance(ns, ns[c].next->Some_0 as int, cur, a, own, acc2_agg(ns, c, a, own, acc));
    }
}

/// The chain folds read only the sizes of the members they visit: members
/// strictly before the stop. Two states agreeing there fold alike.
pub proof fn lemma_folds_congruence(
    ns1: Seq<FrameNode>,
    ns2: Seq<FrameNode>,
    c: int,
    stop: int,
    a: int,
    own: bool,
    acc: int,
)
    requires
        structure_eq(ns1, ns2),
        stop == -1 || (in_chain_from(ns1, c, stop) || c == stop),
        forall|m: int|
            in_chain_from(ns1, c, m) && (stop == -1 || m < stop) ==> sz_at(ns2, #[trigger] (m + 0), a)
                == sz_at(ns1, m, a),
    ensures
        chain_sum_upto(ns2, c, stop, a, acc) == chain_sum_upto(ns1, c, stop, a, acc),
        chain_fills_upto(ns2, c, stop, a, acc) == chain_fills_upto(ns1, c, stop, a, acc),
        chain_agg_upto(ns2, c, stop, a, own, acc) == chain_agg_upto(ns1, c, stop, a, own, acc),
    decreases ns1.len() - c,
{
    if 0 <= c < ns1.len() && c != stop {
        assert(same_shape(ns1[c], ns2[c]));
        assert(in_chain_from(ns1, c, c));
        if stop != -1 {
            lemma_chain_from_le(ns1, c, stop);
        }
        assert(sz_at(ns2, c + 0, a) == sz_at(ns1, c, a));
        match ns1[c].next {
            Some(k) => {
                if c < k as int && (k as int) < ns1.len() {
                    assert forall|m: int|
                        in_chain_from(ns1, k as int, m) && (stop == -1 || m < stop) implies sz_at(
                        ns2,
                        #[trigger] (m + 0),
                        a,
                    ) == sz_at(ns1, m, a) by {
                        assert(in_chain_from(ns1, c, m));
                    }
                    if stop != -1 && stop != k as int {
                        assert(in_chain_from(ns1, k as int, stop));
                    }
                    lemma_folds_congruence(ns1, ns2, k as int, stop, a, own, acc2_sum(ns1, c, a, acc));
                    lemma_folds_congruence(ns1, ns2, k as int, stop, a, own, acc2_fills(ns1, c, a, acc));
                    lemma_folds_congruence(ns1, ns2, k as int, stop, a, own, acc2_agg(ns1, c, a, own, acc));
                }
            },
            None => {},
        }
    }
}

/// A chain holding a `Fill` member on axis `a` counts at least one fill, so
/// the leftover-space division is never by zero.
pub proof fn lemma_fills_member_pos(ns: Seq<FrameNode>, c: int, member: int, a: int, acc: int)
    requires
        in_chain_from(ns, c, member),
        sem_at(ns, member, a) is Fill,
        0 <= acc <= i32::MAX as int,
    ensures
        chain_fills_upto(ns, c, -1, a, acc) >= 1,
        chain_fills_upto(ns, c, -1, a, acc) >= acc,
    decreases ns.len() - c,
{
    lemma_fills_nonneg(ns, c, a, acc);
    if c == member {
        lemma_fills_nonneg(ns, c, a, acc);
        match ns[c].next {
            Some(k) => {
                if c < k as int && (k as int) < ns.len() {
                    lemma_fills_nonneg(ns, k as int, a, acc2_fills(ns, c, a, acc));
                }
            },
            None => {},
        }
    } else {
        lemma_fills_member_pos(ns, ns[c].next->Some_0 as int, member, a, acc2_fills(ns, c, a, acc));
    }
}

/// The `Fill`-counting fold never shrinks a non-negative accumulator.
pub proof fn lemma_fills_nonneg(ns: Seq<FrameNode>, c: int, a: int, acc: int)
    requires
        0 <= acc <= i32::MAX as int,
    ensures
        chain_fills_upto(ns, c, -1, a, acc) >= acc,
        chain_fills_upto(ns, c, -1, a, acc) <= i32::MAX as int,
    decreases ns.len() - c,
{
    if 0 <= c < ns.len() {
        match ns[c].next {
            Some(k) => {
                if c < k as int && (k as int) < ns.len() {
                    lemma_fills_nonneg(ns, k as int, a, acc2_fills(ns, c, a, acc));
                }
            },
            None => {},
        }
    }
}

/// After the measuring pass, every child subtree of `r` carries resolved
/// sizes and exact fills.
pub open spec fn children_measured(ns: Seq<FrameNode>, cw: int, ch: int, r: int) -> bool {
    forall|c: int|
        #[trigger] in_chain(ns, r, c) ==> subtree_sizes_resolved(ns, cw, ch, c)
            && subtree_fills_resolved(ns, c)
}

/// After the fill pass, every child subtree of `r` is fully laid out:
/// resolved sizes, resolved positions, exact fills.
pub open spec fn children_laid(ns: Seq<FrameNode>, cw: int, ch: int, r: int) -> bool {
    forall|c: int|
        #[trigger] in_chain(ns, r, c) ==> subtree_sizes_resolved(ns, cw, ch, c)
            && subtree_pos_resolved(ns, c) && subtree_fills_resolved(ns, c)
}

/// Chain reachability is a purely structural notion.
pub proof fn lemma_chain_from_shape(ns1: Seq<FrameNode>, ns2: Seq<FrameNode>, c: int, j: int)
    requires
        structure_eq(ns1, ns2),
        in_chain_from(ns1, c, j),
    ensures
        in_chain_from(ns2, c, j),
    decreases ns1.len() - c,
{
    if c != j {
        lemma_chain_from_shape(ns1, ns2, ns1[c].next->Some_0 as int, j);
    }
}

/// Subtree membership is a purely structural notion.
pub proof fn lemma_subtree_shape(ns1: Seq<FrameNode>, ns2: Seq<FrameNode>, j: int, r: int)
    requires
        structure_eq(ns1, ns2),
        in_subtree(ns1, j, r),
    ensures
        in_subtree(ns2, j, r),
    decreases (if 0 <= j { j } else { 0 }),
{
    if j != r {
        lemma_subtree_shape(ns1, ns2, ns1[j].parent->Some_0 as int, r);
    }
}

/// The arena invariant is purely structural, so layout preserves it.
pub proof fn lemma_wf_shape(ns1: Seq<FrameNode>, ns2: Seq<FrameNode>)
    requires
        structure_eq(ns1, ns2),
        wf_nodes(ns1),
    ensures
        wf_nodes(ns2),
{
    assert forall|j: int| 0 <= j < ns2.len() implies #[trigger] wf_node(ns2, j) by {
        assert(wf_node(ns1, j));
        assert(same_shape(ns1[j], ns2[j]));
        if let Some(q) = ns1[j].prev {
            assert(same_shape(ns1[q as int], ns2[q as int]));
        }
        if let Some(m) = ns1[j].next {
            assert(same_shape(ns1[m as int], ns2[m as int]));
        }
        if let Some(f) = ns1[j].first {
            assert(same_shape(ns1[f as int], ns2[f as int]));
        }
        if let Some(l) = ns1[j].last {
            assert(same_shape(ns1[l as int], ns2[l as int]));
        }
        if let Some(p) = ns1[j].parent {
            assert(in_chain(ns1, p as int, j));
            assert(same_shape(ns1[p as int], ns2[p as int]));
            lemma_chain_from_shape(ns1, ns2, ns1[p as int].first->Some_0 as int, j);
        }
    }
    assert(same_shape(ns1[0], ns2[0]));
}

/// The ancestor-size walk from `j` only reads nodes strictly below `j`, so
/// it is insensitive to changes at or above `j`.
pub proof fn lemma_anc_size_congruence(ns1: Seq<FrameNode>, ns2: Seq<FrameNode>, j: int, a: int)
    requires
        ns1.len() == ns2.len(),
        forall|k: int| 0 <= k < j ==> ns1[k] == #[trigger] ns2[k],
        0 <= j < ns1.len() ==> ns1[j].parent == ns2[j].parent,
    ensures
        spec_ancestor_size(ns1, j, a) == spec_ancestor_size(ns2, j, a),
    decreases (if 0 <= j { j } else { 0 }),
{
    if 0 <= j < ns1.len() {
        match ns1[j].parent {
            Some(p) => {
                if 0 <= p as int && (p as int) < j {
                    lemma_anc_size_congruence(ns1, ns2, p as int, a);
                }
            },
            None => {},
        }
    }
}

/// Store coverage only reads keys, which layout never changes.
pub proof fn lemma_covers_shape(
    ns1: Seq<FrameNode>,
    ns2: Seq<FrameNode>,
    st: Seq<crate::store::StoreEntry>,
)
    requires
        structure_eq(ns1, ns2),
        crate::tree::store_covers(ns1, st),
    ensures
        crate::tree::store_covers(ns2, st),
{
    assert forall|j: int|
        0 <= j < ns2.len() implies #[trigger] crate::store::find_key(st, ns2[j].key@) is Some by {
        assert(same_shape(ns1[j], ns2[j]));
        assert(crate::store::find_key(st, ns1[j].key@) is Some);
    }
}

/// What the pre-pass makes of the visited node's size on axis `a`, relative
/// to its incoming value: the canvas for the root; the policy's direct value
/// for `FitText`, `Exact` and `PercentOfParent`; and the incoming value for
/// the deferred policies (`ChildrenSum`, resolved by the post-pass, and
/// `Fill`, resolved by the parent's fill distribution).
pub open spec fn pre_resolved(
    ns1: Seq<FrameNode>,
    ns2: Seq<FrameNode>,
    cw: int,
    ch: int,
    j: int,
    a: int,
) -> bool {
    let canvas = if a == 0 {
        cw
    } else {
        ch
    };
    if ns2[j].key@ == root_key_view() {
        sz_at(ns2, j, a) == canvas
    } else {
        match sem_at(ns2, j, a) {
            SemanticSize::FitText => sz_at(ns2, j, a) == (if a == 0 {
                text_extent(ns2[j].label@.len() as int, FONT_WIDTH as int)
            } else {
                FONT_HEIGHT as int
            }),
            SemanticSize::Exact(n) => sz_at(ns2, j, a) == n as int,
            SemanticSize::PercentOfParent(p) => sz_at(ns2, j, a) == percent_of(
                spec_ancestor_size(ns2, j, a),
                p as int,
            ),
            SemanticSize::ChildrenSum => sz_at(ns2, j, a) == sz_at(ns1, j, a),
            SemanticSize::Fill => sz_at(ns2, j, a) == sz_at(ns1, j, a),
        }
    }
}

/// Structural equality is symmetric.
pub proof fn lemma_structure_eq_sym(ns1: Seq<FrameNode>, ns2: Seq<FrameNode>)
    requires
        structure_eq(ns1, ns2),
    ensures
        structure_eq(ns2, ns1),
{
    assert forall|j: int| 0 <= j < ns2.len() implies same_shape(ns2[j], #[trigger] ns1[j]) by {
        assert(same_shape(ns1[j], ns2[j]));
    }
}

/// Whether an axis of the subtree is free of the circular combination is a
/// purely structural question.
pub proof fn lemma_noncircular_shape(ns1: Seq<FrameNode>, ns2: Seq<FrameNode>, r: int, a: int)
    requires
        structure_eq(ns1, ns2),
        axis_noncircular(ns1, r, a),
    ensures
        axis_noncircular(ns2, r, a),
{
    lemma_structure_eq_sym(ns1, ns2);
    assert forall|j: int|
        #[trigger] in_subtree(ns2, j, r) && j != r implies !(sem_at(
        ns2,
        ns2[j].parent->Some_0 as int,
        a,
    ) is ChildrenSum && sem_at(ns2, j, a) is Fill) by {
        lemma_subtree_shape(ns2, ns1, j, r);
        lemma_subtree_bounds(ns1, j, r);
        assert(same_shape(ns1[j], ns2[j]));
        let p = ns1[j].parent->Some_0 as int;
        assert(!(sem_at(ns1, p, a) is ChildrenSum && sem_at(ns1, j, a) is Fill));
        assert(0 <= p < j);
        assert(same_shape(ns1[p], ns2[p]));
    }
}

/// The ancestor-size walk is insensitive to changes that keep every
/// non-derived strict ancestor's size, because derived (`ChildrenSum`)
/// ancestors are skipped unread.
pub proof fn lemma_anc_size_agree(ns1: Seq<FrameNode>, ns2: Seq<FrameNode>, j: int, a: int)
    requires
        structure_eq(ns1, ns2),
        0 <= j < ns1.len(),
        forall|k: int|
            #[trigger] in_subtree(ns1, j, k) && k != j && !(sem_at(ns1, k, a) is ChildrenSum)
                ==> sz_at(ns2, k, a) == sz_at(ns1, k, a),
    ensures
        spec_ancestor_size(ns2, j, a) == spec_ancestor_size(ns1, j, a),
    decreases (if 0 <= j { j } else { 0 }),
{
    assert(same_shape(ns1[j], ns2[j]));
    match ns1[j].parent {
        Some(p) => {
            if 0 <= p as int && (p as int) < j {
                assert(in_subtree(ns1, j, p as int)) by {
                    assert(in_subtree(ns1, p as int, p as int));
                }
                assert(same_shape(ns1[p as int], ns2[p as int]));
                if sem_at(ns1, p as int, a) is ChildrenSum {
                    assert forall|k: int|
                        #[trigger] in_subtree(ns1, p as int, k) && k != p as int && !(sem_at(
                            ns1,
                            k,
                            a,
                        ) is ChildrenSum) implies sz_at(ns2, k, a) == sz_at(ns1, k, a) by {
                        lemma_subtree_trans(ns1, j, p as int, k);
                        lemma_subtree_bounds(ns1, p as int, k);
                    }
                    lemma_anc_size_agree(ns1, ns2, p as int, a);
                }
            }
        },
        None => {},
    }
}

/// A child of a subtree member is a subtree member.
pub proof fn lemma_chain_child_in_subtree(ns: Seq<FrameNode>, d: int, m: int, r: int)
    requires
        forall|k: int| 0 <= k < ns.len() ==> #[trigger] wf_node(ns, k),
        in_chain(ns, d, m),
        in_subtree(ns, d, r),
    ensures
        in_subtree(ns, m, r),
        0 <= m < ns.len(),
{
    lemma_chain_parent(ns, d, m);
    lemma_subtree_bounds(ns, d, r);
    assert(ns[m].parent == Some(d as usize));
    assert(in_subtree(ns, d, d));
    assert(in_subtree(ns, m, d));
    lemma_subtree_trans(ns, m, d, r);
}

/// The size claims of a laid-out subtree survive any change that keeps the
/// subtree itself and the sizes of its non-derived ancestors: everything the
/// claims read is within that footprint.
pub proof fn lemma_sizes_claims_stable(
    ns1: Seq<FrameNode>,
    ns2: Seq<FrameNode>,
    cw: int,
    ch: int,
    c: int,
)
    requires
        wf_nodes(ns1),
        structure_eq(ns1, ns2),
        0 <= c < ns1.len(),
        forall|m: int| #[trigger] in_subtree(ns1, m, c) ==> ns2[m] == ns1[m],
        forall|k: int|
            #[trigger] in_subtree(ns1, c, k) && k != c ==> (!(sem_at(ns1, k, 0) is ChildrenSum)
                ==> sz_at(ns2, k, 0) == sz_at(ns1, k, 0)) && (!(sem_at(ns1, k, 1) is ChildrenSum)
                ==> sz_at(ns2, k, 1) == sz_at(ns1, k, 1)),
        subtree_sizes_resolved(ns1, cw, ch, c),
        subtree_fills_resolved(ns1, c),
    ensures
        subtree_sizes_resolved(ns2, cw, ch, c),
        subtree_fills_resolved(ns2, c),
{
    lemma_structure_eq_sym(ns1, ns2);
    // every size claim of a subtree node transfers
    assert forall|j: int| #[trigger] in_subtree(ns2, j, c) implies own_resolved(ns2, cw, ch, j, 0)
        && own_resolved(ns2, cw, ch, j, 1) by {
        lemma_subtree_shape(ns2, ns1, j, c);
        assert(ns2[j] == ns1[j]);
        lemma_subtree_bounds(ns1, j, c);
        assert(own_resolved(ns1, cw, ch, j, 0) && own_resolved(ns1, cw, ch, j, 1));
        assert forall|a: int| 0 <= a < 2 implies own_resolved(ns2, cw, ch, j, a) by {
            lemma_own_resolved_transfer(ns1, ns2, cw, ch, c, j, a);
        }
    }
    // every fill claim transfers
    assert forall|d: int, a: int|
        #![trigger in_subtree(ns2, d, c), fills_assigned_under(ns2, d, a)]
        in_subtree(ns2, d, c) && 0 <= a < 2 && !(sem_at(ns2, d, a) is ChildrenSum)
            && axis_noncircular(ns2, d, a) implies fills_assigned_under(ns2, d, a) by {
        lemma_subtree_shape(ns2, ns1, d, c);
        lemma_subtree_bounds(ns1, d, c);
        assert(ns2[d] == ns1[d]);
        lemma_noncircular_shape(ns2, ns1, d, a);
        assert(fills_assigned_under(ns1, d, a));
        assert forall|m: int|
            #[trigger] in_chain(ns2, d, m) && sem_at(ns2, m, a) is Fill implies sz_at(ns2, m, a)
            == fill_share(ns2, d, a) by {
            lemma_wf_shape(ns1, ns2);
            lemma_chain_parent(ns2, d, m);
            lemma_chain_from_shape(ns2, ns1, ns2[d].first->Some_0 as int, m);
            assert(in_chain(ns1, d, m));
            lemma_chain_child_in_subtree(ns1, d, m, c);
            assert(ns2[m] == ns1[m]);
            assert(sz_at(ns1, m, a) == fill_share(ns1, d, a));
            lemma_fill_share_agree(ns1, ns2, c, d, a);
        }
    }
}

/// One node's resolved-size claim transfers between two states that agree on
/// the node's subtree container `c` and on the sizes of `c`'s non-derived
/// ancestors.
proof fn lemma_own_resolved_transfer(
    ns1: Seq<FrameNode>,
    ns2: Seq<FrameNode>,
    cw: int,
    ch: int,
    c: int,
    j: int,
    a: int,
)
    requires
        wf_nodes(ns1),
        structure_eq(ns1, ns2),
        0 <= c < ns1.len(),
        0 <= a < 2,
        forall|m: int| #[trigger] in_subtree(ns1, m, c) ==> ns2[m] == ns1[m],
        forall|k: int|
            #[trigger] in_subtree(ns1, c, k) && k != c ==> (!(sem_at(ns1, k, 0) is ChildrenSum)
                ==> sz_at(ns2, k, 0) == sz_at(ns1, k, 0)) && (!(sem_at(ns1, k, 1) is ChildrenSum)
                ==> sz_at(ns2, k, 1) == sz_at(ns1, k, 1)),
        in_subtree(ns1, j, c),
        own_resolved(ns1, cw, ch, j, a),
    ensures
        own_resolved(ns2, cw, ch, j, a),
{
    lemma_subtree_bounds(ns1, j, c);
    assert(ns2[j] == ns1[j]);
    assert(same_shape(ns1[j], ns2[j]));
    match sem_at(ns1, j, a) {
        SemanticSize::PercentOfParent(_p) => {
            // every non-derived ancestor's size agrees, inside the subtree or
            // above it
            assert forall|k: int|
                #[trigger] in_subtree(ns1, j, k) && k != j && !(sem_at(ns1, k, a) is ChildrenSum)
                    implies sz_at(ns2, k, a) == sz_at(ns1, k, a) by {
                lemma_subtree_linear(ns1, j, k, c);
                if in_subtree(ns1, k, c) {
                    assert(ns2[k] == ns1[k]);
                } else {
                    assert(in_subtree(ns1, c, k));
                    if k == c {
                        assert(ns2[k] == ns1[k]) by {
                            assert(in_subtree(ns1, c, c));
                        }
                    } else {
                        assert(in_subtree(ns1, c, k) && k != c);
                        assert(sz_at(ns2, k, a) == sz_at(ns1, k, a));
                    }
                }
            }
            lemma_anc_size_agree(ns1, ns2, j, a);
        },
        SemanticSize::ChildrenSum => {
            lemma_agg_chain_agree(ns1, ns2, c, j, a);
        },
        _ => {},
    }
}

/// The child-chain folds of a subtree member agree between two states that
/// agree on the containing subtree.
proof fn lemma_agg_chain_agree(
    ns1: Seq<FrameNode>,
    ns2: Seq<FrameNode>,
    c: int,
    d: int,
    a: int,
)
    requires
        wf_nodes(ns1),
        structure_eq(ns1, ns2),
        0 <= c < ns1.len(),
        0 <= a < 2,
        forall|m: int| #[trigger] in_subtree(ns1, m, c) ==> ns2[m] == ns1[m],
        in_subtree(ns1, d, c),
    ensures
        children_agg(ns2, d, a) == children_agg(ns1, d, a),
        nonfill_sum(ns2, d, a) == nonfill_sum(ns1, d, a),
        fill_count(ns2, d, a) == fill_count(ns1, d, a),
{
    lemma_subtree_bounds(ns1, d, c);
    assert(ns2[d] == ns1[d]);
    assert(same_shape(ns1[d], ns2[d]));
    match ns1[d].first {
        Some(f) => {
            assert(wf_node(ns1, d));
            assert forall|m: int|
                in_chain_from(ns1, f as int, m) implies sz_at(ns2, #[trigger] (m + 0), a)
                == sz_at(ns1, m, a) by {
                lemma_chain_from_parent(ns1, f as int, m);
                assert(in_chain(ns1, d, m));
                lemma_chain_child_in_subtree(ns1, d, m, c);
                assert(ns2[m] == ns1[m]);
            }
            lemma_folds_congruence(ns1, ns2, f as int, -1, a, a == main_axis(ns1, d), 0);
            lemma_folds_congruence(ns1, ns2, f as int, -1, a, a == main_axis(ns2, d), 0);
        },
        None => {},
    }
}

/// The fill share handed out by a subtree member agrees between two states
/// that agree on the containing subtree.
proof fn lemma_fill_share_agree(ns1: Seq<FrameNode>, ns2: Seq<FrameNode>, c: int, d: int, a: int)
    requires
        wf_nodes(ns1),
        structure_eq(ns1, ns2),
        0 <= c < ns1.len(),
        0 <= a < 2,
        forall|m: int| #[trigger] in_subtree(ns1, m, c) ==> ns2[m] == ns1[m],
        in_subtree(ns1, d, c),
    ensures
        fill_share(ns2, d, a) == fill_share(ns1, d, a),
{
    lemma_subtree_bounds(ns1, d, c);
    assert(ns2[d] == ns1[d]);
    assert(same_shape(ns1[d], ns2[d]));
    lemma_agg_chain_agree(ns1, ns2, c, d, a);
}

/// The `Fill`-counting fold reads only policies and links, so it is the same
/// in any two structurally equal states.
pub proof fn lemma_fills_fold_structural(
    ns1: Seq<FrameNode>,
    ns2: Seq<FrameNode>,
    c: int,
    stop: int,
    a: int,
    acc: int,
)
    requires
        structure_eq(ns1, ns2),
    ensures
        chain_fills_upto(ns2, c, stop, a, acc) == chain_fills_upto(ns1, c, stop, a, acc),
    decreases ns1.len() - c,
{
    if 0 <= c < ns1.len() && c != stop {
        assert(same_shape(ns1[c], ns2[c]));
        match ns1[c].next {
            Some(k) => {
                if c < k as int && (k as int) < ns1.len() {
                    lemma_fills_fold_structural(ns1, ns2, k as int, stop, a, acc2_fills(ns1, c, a, acc));
                }
            },
            None => {},
        }
    }
}

/// The non-`Fill` summing fold reads only the sizes of its non-`Fill`
/// members.
pub proof fn lemma_sum_congruence_nonfill(
    ns1: Seq<FrameNode>,
    ns2: Seq<FrameNode>,
    c: int,
    a: int,
    acc: int,
)
    requires
        structure_eq(ns1, ns2),
        forall|m: int|
            in_chain_from(ns1, c, m) && !(sem_at(ns1, m, a) is Fill) ==> sz_at(
                ns2,
                #[trigger] (m + 0),
                a,
            ) == sz_at(ns1, m, a),
    ensures
        chain_sum_upto(ns2, c, -1, a, acc) == chain_sum_upto(ns1, c, -1, a, acc),
    decreases ns1.len() - c,
{
    if 0 <= c < ns1.len() {
        assert(same_shape(ns1[c], ns2[c]));
        assert(in_chain_from(ns1, c, c));
        if !(sem_at(ns1, c, a) is Fill) {
            assert(sz_at(ns2, c + 0, a) == sz_at(ns1, c, a));
        }
        match ns1[c].next {
            Some(k) => {
                if c < k as int && (k as int) < ns1.len() {
                    assert forall|m: int|
                        in_chain_from(ns1, k as int, m) && !(sem_at(ns1, m, a) is Fill) implies
                        sz_at(ns2, #[trigger] (m + 0), a) == sz_at(ns1, m, a) by {
                        assert(in_chain_from(ns1, c, m));
                    }
                    lemma_sum_congruence_nonfill(ns1, ns2, k as int, a, acc2_sum(ns1, c, a, acc));
                }
            },
            None => {},
        }
    }
}

/// Freedom from the circular combination restricts to any subtree.
pub proof fn lemma_noncircular_sub(ns: Seq<FrameNode>, r: int, m: int, a: int)
    requires
        axis_noncircular(ns, r, a),
        in_subtree(ns, m, r),
    ensures
        axis_noncircular(ns, m, a),
{
    assert forall|j: int| #[trigger] in_subtree(ns, j, m) && j != m implies !(sem_at(
        ns,
        ns[j].parent->Some_0 as int,
        a,
    ) is ChildrenSum && sem_at(ns, j, a) is Fill) by {
        lemma_subtree_trans(ns, j, m, r);
        lemma_subtree_bounds(ns, j, m);
        lemma_subtree_bounds(ns, m, r);
        assert(j != r);
    }
}

/// While one sibling's subtree is being laid out, another sibling's subtree,
/// and everything at or above their shared parent, stays untouched.
pub proof fn lemma_sibling_untouched(
    ns1: Seq<FrameNode>,
    ns2: Seq<FrameNode>,
    index: int,
    c: int,
    i: int,
)
    requires
        forall|k: int| 0 <= k < ns1.len() ==> #[trigger] wf_node(ns1, k),
        in_chain(ns1, index, c),
        in_chain(ns1, index, i),
        c != i,
        same_outside_subtree(ns1, ns2, i),
        ns1.len() == ns2.len(),
        0 <= index < ns1.len(),
    ensures
        forall|m: int| #[trigger] in_subtree(ns1, m, c) ==> ns2[m] == ns1[m],
        forall|k: int| #[trigger] in_subtree(ns1, c, k) && k != c ==> ns2[k] == ns1[k],
{
    lemma_chain_parent(ns1, index, c);
    lemma_chain_parent(ns1, index, i);
    assert forall|m: int| #[trigger] in_subtree(ns1, m, c) implies ns2[m] == ns1[m] by {
        lemma_sibling_subtrees_disjoint(ns1, c, i, m);
        lemma_subtree_bounds(ns1, m, c);
    }
    assert forall|k: int| #[trigger] in_subtree(ns1, c, k) && k != c implies ns2[k] == ns1[k] by {
        assert(in_subtree(ns1, ns1[c].parent->Some_0 as int, k));
        lemma_subtree_bounds(ns1, ns1[c].parent->Some_0 as int, k);
        assert(0 <= k <= index);
        if in_subtree(ns1, k, i) {
            lemma_subtree_bounds(ns1, k, i);
            lemma_chain_from_le(ns1, ns1[index].first->Some_0 as int, i);
        }
        assert(!in_subtree(ns1, k, i));
    }
}

/// The value of a non-`Fill`, non-circular node on axis `a` is pinned by the
/// resolved-size claims: two resolved states agreeing on the node's
/// non-derived strict ancestors give it the same size. This is what makes
/// re-running layout deterministic, and what lets the engine's second pass
/// reuse the totals gathered by the first.
pub proof fn lemma_nonfill_value(
    ns1: Seq<FrameNode>,
    ns2: Seq<FrameNode>,
    cw: int,
    ch: int,
    m: int,
    a: int,
)
    requires
        wf_nodes(ns1),
        structure_eq(ns1, ns2),
        0 <= m < ns1.len(),
        0 <= a < 2,
        !(sem_at(ns1, m, a) is Fill) || ns1[m].key@ == root_key_view(),
        axis_noncircular(ns1, m, a),
        subtree_sizes_resolved(ns1, cw, ch, m),
        subtree_sizes_resolved(ns2, cw, ch, m),
        forall|k: int|
            #[trigger] in_subtree(ns1, m, k) && k != m && !(sem_at(ns1, k, a) is ChildrenSum)
                ==> sz_at(ns2, k, a) == sz_at(ns1, k, a),
    ensures
        sz_at(ns2, m, a) == sz_at(ns1, m, a),
    decreases ns1.len() - m,
{
    lemma_structure_eq_sym(ns1, ns2);
    assert(in_subtree(ns1, m, m));
    lemma_subtree_shape(ns1, ns2, m, m);
    assert(own_resolved(ns1, cw, ch, m, a));
    assert(own_resolved(ns2, cw, ch, m, a));
    assert(same_shape(ns1[m], ns2[m]));
    if ns1[m].key@ == root_key_view() {
        // both sides carry the canvas
    } else {
        match sem_at(ns1, m, a) {
            SemanticSize::FitText => {},
            SemanticSize::Exact(_n) => {},
            SemanticSize::PercentOfParent(_p) => {
                lemma_anc_size_agree(ns1, ns2, m, a);
            },
            SemanticSize::ChildrenSum => {
                match ns1[m].first {
                    Some(f) => {
                        assert(wf_node(ns1, m));
                        // every child is non-Fill on this axis, and its value
                        // is pinned recursively
                        assert forall|e: int|
                            in_chain_from(ns1, f as int, e) implies sz_at(
                            ns2,
                            #[trigger] (e + 0),
                            a,
                        ) == sz_at(ns1, e, a) && !(sem_at(ns1, e, a) is Fill) by {
                            lemma_chain_from_parent(ns1, f as int, e);
                            assert(in_chain(ns1, m, e));
                            lemma_chain_child_in_subtree(ns1, m, e, m);
                            assert(in_subtree(ns1, e, m) && e != m);
                            assert(!(sem_at(ns1, e, a) is Fill));
                            assert(ns1[e].key@ != root_key_view()) by {
                                assert(wf_node(ns1, e));
                                lemma_chain_parent(ns1, m, e);
                            }
                            lemma_noncircular_sub(ns1, m, e, a);
                            assert forall|k: int|
                                #[trigger] in_subtree(ns1, e, k) && k != e && !(sem_at(
                                    ns1,
                                    k,
                                    a,
                                ) is ChildrenSum) implies sz_at(ns2, k, a) == sz_at(ns1, k, a) by {
                                lemma_subtree_trans(ns1, e, m, k);
                                if k == m {
                                } else {
                                    assert(in_subtree(ns1, m, k) && k != m);
                                }
                            }
                            assert forall|j: int| #[trigger] in_subtree(ns1, j, e) implies
                                own_resolved(ns1, cw, ch, j, 0) && own_resolved(ns1, cw, ch, j, 1) by {
                                lemma_subtree_trans(ns1, j, e, m);
                            }
                            assert forall|j: int| #[trigger] in_subtree(ns2, j, e) implies
                                own_resolved(ns2, cw, ch, j, 0) && own_resolved(ns2, cw, ch, j, 1) by {
                                lemma_subtree_shape(ns2, ns1, j, e);
                                lemma_subtree_trans(ns1, j, e, m);
                                lemma_subtree_shape(ns1, ns2, j, m);
                            }
                            lemma_nonfill_value(ns1, ns2, cw, ch, e, a);
                        }
                        lemma_folds_congruence(ns1, ns2, f as int, -1, a, a == main_axis(ns1, m), 0);
                        assert(children_agg(ns2, m, a) == children_agg(ns1, m, a));
                    },
                    None => {
                        assert(children_agg(ns1, m, a) == 0);
                        assert(children_agg(ns2, m, a) == 0);
                    },
                }
            },
            SemanticSize::Fill => {},
        }
    }
}

/// The position claims of a laid-out subtree survive any change that keeps
/// the subtree, the previous sibling's geometry, and the parent's position
/// and stacking axis.
proof fn lemma_pos_claims_stable(ns1: Seq<FrameNode>, ns2: Seq<FrameNode>, c: int)
    requires
        wf_nodes(ns1),
        structure_eq(ns1, ns2),
        0 <= c < ns1.len(),
        forall|m: int| #[trigger] in_subtree(ns1, m, c) ==> ns2[m] == ns1[m],
        (ns1[c].prev matches Some(q) ==> ns2[q as int] == ns1[q as int]),
        (ns1[c].parent matches Some(p) ==> ns2[p as int].size.computed_pos == ns1[p as int].size.computed_pos
            && ns2[p as int].size.axis == ns1[p as int].size.axis),
        subtree_pos_resolved(ns1, c),
    ensures
        subtree_pos_resolved(ns2, c),
{
    lemma_structure_eq_sym(ns1, ns2);
    assert forall|j: int| #[trigger] in_subtree(ns2, j, c) implies pos_resolved(ns2, j, 0)
        && pos_resolved(ns2, j, 1) by {
        lemma_subtree_shape(ns2, ns1, j, c);
        lemma_subtree_bounds(ns1, j, c);
        assert(ns2[j] == ns1[j]);
        assert(pos_resolved(ns1, j, 0) && pos_resolved(ns1, j, 1));
        assert(wf_node(ns1, j));
        match ns1[j].parent {
            Some(p) => {
                assert(same_shape(ns1[p as int], ns2[p as int]));
                if j != c {
                    assert(in_subtree(ns1, p as int, c));
                    assert(ns2[p as int] == ns1[p as int]);
                }
                match ns1[j].prev {
                    Some(q) => {
                        if j != c {
                            assert(ns1[q as int].parent == ns1[j].parent);
                            assert(in_subtree(ns1, q as int, c)) by {
                                assert(in_subtree(ns1, p as int, c));
                                assert(0 <= p as int && (p as int) < q as int) by {
                                    assert(wf_node(ns1, q as int));
                                }
                            }
                            assert(ns2[q as int] == ns1[q as int]);
                        }
                    },
                    None => {},
                }
            },
            None => {},
        }
    }
}

/// A sibling chain is linear: of any two members, one reaches the other.
pub proof fn lemma_chain_linear(ns: Seq<FrameNode>, f: int, c: int, i: int)
    requires
        in_chain_from(ns, f, c),
        in_chain_from(ns, f, i),
    ensures
        in_chain_from(ns, c, i) || in_chain_from(ns, i, c),
    decreases ns.len() - f,
{
    if f != c && f != i {
        lemma_chain_linear(ns, ns[f].next->Some_0 as int, c, i);
    }
}

/// One step of a children loop: laying out the subtree of the sibling `i`
/// leaves the parent, the gathered totals, and every already-processed
/// sibling's claims intact.
proof fn lemma_children_step(
    ns_a: Seq<FrameNode>,
    ns_b: Seq<FrameNode>,
    cw: int,
    ch: int,
    index: int,
    first: int,
    i: int,
)
    requires
        wf_nodes(ns_a),
        structure_eq(ns_a, ns_b),
        same_outside_subtree(ns_a, ns_b, i),
        0 <= index < ns_a.len(),
        (ns_a[index].first matches Some(f) && f as int == first),
        in_chain_from(ns_a, first, i),
        forall|c: int|
            #[trigger] in_chain(ns_a, index, c) && !in_chain_from(ns_a, i, c)
                ==> subtree_sizes_resolved(ns_a, cw, ch, c) && subtree_fills_resolved(ns_a, c),
    ensures
        ns_b[index] == ns_a[index],
        in_chain_from(ns_b, first, i),
        in_chain(ns_b, index, i),
        forall|j: int|
            0 <= j < ns_a.len() && !in_subtree(ns_a, j, index) ==> ns_a[j] == #[trigger] ns_b[j],
        forall|c: int|
            #[trigger] in_chain(ns_b, index, c) && !in_chain_from(ns_b, i, c)
                ==> subtree_sizes_resolved(ns_b, cw, ch, c) && subtree_fills_resolved(ns_b, c),
        chain_sum_upto(ns_b, first, i, 0, 0) == chain_sum_upto(ns_a, first, i, 0, 0),
        chain_sum_upto(ns_b, first, i, 1, 0) == chain_sum_upto(ns_a, first, i, 1, 0),
        chain_fills_upto(ns_b, first, i, 0, 0) == chain_fills_upto(ns_a, first, i, 0, 0),
        chain_fills_upto(ns_b, first, i, 1, 0) == chain_fills_upto(ns_a, first, i, 1, 0),
        forall|c: int, q: int|
            #![trigger in_chain(ns_a, index, c), in_subtree(ns_a, q, c)]
            in_chain(ns_a, index, c) && c != i && in_subtree(ns_a, q, c) ==> ns_b[q] == ns_a[q],
        forall|c: int|
            #[trigger] in_chain(ns_a, index, c) && c != i ==> ns_b[c] == ns_a[c],
    decreases 0int,
{
    assert(wf_node(ns_a, index));
    lemma_chain_from_le(ns_a, first, i);
    assert(in_chain(ns_a, index, i));
    lemma_chain_parent(ns_a, index, i);
    // the parent sits outside the subtree being laid out
    assert(!in_subtree(ns_a, index, i)) by {
        if in_subtree(ns_a, index, i) {
            lemma_subtree_bounds(ns_a, index, i);
        }
    }
    assert(ns_b[index] == ns_a[index]);
    lemma_chain_from_shape(ns_a, ns_b, first, i);
    assert(in_chain(ns_b, index, i)) by {
        assert(same_shape(ns_a[index], ns_b[index]));
    }
    lemma_structure_eq_sym(ns_a, ns_b);
    // everything outside the parent's subtree is outside the sibling's too
    assert forall|j: int|
        0 <= j < ns_a.len() && !in_subtree(ns_a, j, index) implies ns_a[j] == #[trigger] ns_b[j] by {
        if in_subtree(ns_a, j, i) {
            assert(in_subtree(ns_a, i, index)) by {
                assert(in_subtree(ns_a, index, index));
            }
            lemma_subtree_trans(ns_a, j, i, index);
        }
    }
    // untouched siblings keep every node of their subtrees
    assert forall|c: int, q: int|
        #![trigger in_chain(ns_a, index, c), in_subtree(ns_a, q, c)]
        in_chain(ns_a, index, c) && c != i && in_subtree(ns_a, q, c) implies ns_b[q] == ns_a[q] by {
        lemma_sibling_untouched(ns_a, ns_b, index, c, i);
    }
    assert forall|c: int|
        #[trigger] in_chain(ns_a, index, c) && c != i implies ns_b[c] == ns_a[c] by {
        lemma_chain_parent(ns_a, index, c);
        assert(in_subtree(ns_a, c, c));
        lemma_sibling_untouched(ns_a, ns_b, index, c, i);
    }
    // processed claims carry over
    assert forall|c: int|
        #[trigger] in_chain(ns_b, index, c) && !in_chain_from(ns_b, i, c) implies
        subtree_sizes_resolved(ns_b, cw, ch, c) && subtree_fills_resolved(ns_b, c) by {
        assert(same_shape(ns_b[index], ns_a[index]));
        lemma_chain_from_shape(ns_b, ns_a, ns_b[index].first->Some_0 as int, c);
        assert(in_chain(ns_a, index, c));
        assert(!in_chain_from(ns_a, i, c)) by {
            if in_chain_from(ns_a, i, c) {
                lemma_chain_from_shape(ns_a, ns_b, i, c);
            }
        }
        assert(c != i);
        lemma_chain_parent(ns_a, index, c);
        lemma_sibling_untouched(ns_a, ns_b, index, c, i);
        lemma_sizes_claims_stable(ns_a, ns_b, cw, ch, c);
    }
    // gathered totals only read processed siblings, which are untouched
    assert forall|aa: int|
        0 <= aa < 2 implies chain_sum_upto(ns_b, first, i, aa, 0) == chain_sum_upto(
        ns_a,
        first,
        i,
        aa,
        0,
    ) && chain_fills_upto(ns_b, first, i, aa, 0) == chain_fills_upto(ns_a, first, i, aa, 0) by {
        assert forall|m: int|
            in_chain_from(ns_a, first, m) && m < i implies sz_at(ns_b, #[trigger] (m + 0), aa)
            == sz_at(ns_a, m, aa) by {
            if in_subtree(ns_a, m, i) {
                lemma_subtree_bounds(ns_a, m, i);
            }
            lemma_chain_from_parent(ns_a, first, m);
            assert(0 <= m < ns_a.len());
        }
        lemma_folds_congruence(ns_a, ns_b, first, i, aa, true, 0);
    }
    assert(chain_sum_upto(ns_b, first, i, 0, 0) == chain_sum_upto(ns_a, first, i, 0, 0));
    assert(chain_sum_upto(ns_b, first, i, 1, 0) == chain_sum_upto(ns_a, first, i, 1, 0));
    assert(chain_fills_upto(ns_b, first, i, 0, 0) == chain_fills_upto(ns_a, first, i, 0, 0));
    assert(chain_fills_upto(ns_b, first, i, 1, 0) == chain_fills_upto(ns_a, first, i, 1, 0));
}

/// The fill-pass additions to [`lemma_children_step`]: position claims and
/// the exact share formula of already-processed siblings also survive.
#[verifier::rlimit(100)]
proof fn lemma_children_step_fill(
    ns_a: Seq<FrameNode>,
    ns_b: Seq<FrameNode>,
    cw: int,
    ch: int,
    index: int,
    first: int,
    i: int,
    child_size: [i32; 2],
    fills: [i32; 2],
)
    requires
        wf_nodes(ns_a),
        structure_eq(ns_a, ns_b),
        same_outside_subtree(ns_a, ns_b, i),
        0 <= index < ns_a.len(),
        (ns_a[index].first matches Some(f) && f as int == first),
        in_chain_from(ns_a, first, i),
        ns_b[index] == ns_a[index],
        forall|c: int|
            #[trigger] in_chain(ns_a, index, c) && !in_chain_from(ns_a, i, c)
                ==> subtree_pos_resolved(ns_a, c),
        forall|c: int, a: int|
            #![trigger in_chain(ns_a, index, c), sem_at(ns_a, c, a)]
            in_chain(ns_a, index, c) && !in_chain_from(ns_a, i, c) && 0 <= a < 2 && sem_at(
                ns_a,
                c,
                a,
            ) is Fill ==> sz_at(ns_a, c, a) == div_towards_zero(
                sat_sub_i32(sz_at(ns_a, index, a), child_size@[a] as int),
                fills@[a] as int,
            ),
    ensures
        forall|c: int|
            #[trigger] in_chain(ns_b, index, c) && !in_chain_from(ns_b, i, c)
                ==> subtree_pos_resolved(ns_b, c),
        forall|c: int, a: int|
            #![trigger in_chain(ns_b, index, c), sem_at(ns_b, c, a)]
            in_chain(ns_b, index, c) && !in_chain_from(ns_b, i, c) && 0 <= a < 2 && sem_at(
                ns_b,
                c,
                a,
            ) is Fill ==> sz_at(ns_b, c, a) == div_towards_zero(
                sat_sub_i32(sz_at(ns_b, index, a), child_size@[a] as int),
                fills@[a] as int,
            ),
{
    assert(wf_node(ns_a, index));
    lemma_structure_eq_sym(ns_a, ns_b);
    lemma_chain_from_parent(ns_a, first, i);
    assert(0 <= i < ns_a.len());
    assert forall|c: int|
        #[trigger] in_chain(ns_b, index, c) && !in_chain_from(ns_b, i, c) implies
        subtree_pos_resolved(ns_b, c) by {
        assert(same_shape(ns_b[index], ns_a[index]));
        lemma_chain_from_shape(ns_b, ns_a, ns_b[index].first->Some_0 as int, c);
        assert(in_chain(ns_a, index, c));
        assert(!in_chain_from(ns_a, i, c)) by {
            if in_chain_from(ns_a, i, c) {
                lemma_chain_from_shape(ns_a, ns_b, i, c);
            }
        }
        assert(in_chain_from(ns_a, i, i));
        assert(c != i);
        lemma_chain_parent(ns_a, index, c);
        lemma_chain_linear(ns_a, first, c, i);
        lemma_chain_from_le(ns_a, c, i);
        assert(c < i);
        lemma_sibling_untouched(ns_a, ns_b, index, c, i);
        assert(wf_node(ns_a, c));
        match ns_a[c].prev {
            Some(q) => {
                assert(0 <= q as int && (q as int) < c);
                if in_subtree(ns_a, q as int, i) {
                    lemma_subtree_bounds(ns_a, q as int, i);
                }
                assert(ns_b[q as int] == ns_a[q as int]);
            },
            None => {},
        }
        assert(!in_subtree(ns_a, index, i)) by {
            if in_subtree(ns_a, index, i) {
                lemma_subtree_bounds(ns_a, index, i);
                lemma_chain_from_le(ns_a, first, i);
            }
        }
        lemma_pos_claims_stable(ns_a, ns_b, c);
    }
    assert forall|c: int, a: int|
        #![trigger in_chain(ns_b, index, c), sem_at(ns_b, c, a)]
        in_chain(ns_b, index, c) && !in_chain_from(ns_b, i, c) && 0 <= a < 2 && sem_at(
            ns_b,
            c,
            a,
        ) is Fill implies sz_at(ns_b, c, a) == div_towards_zero(
        sat_sub_i32(sz_at(ns_b, index, a), child_size@[a] as int),
        fills@[a] as int,
    ) by {
        assert(same_shape(ns_b[index], ns_a[index]));
        lemma_chain_from_shape(ns_b, ns_a, ns_b[index].first->Some_0 as int, c);
        assert(in_chain(ns_a, index, c));
        assert(!in_chain_from(ns_a, i, c)) by {
            if in_chain_from(ns_a, i, c) {
                lemma_chain_from_shape(ns_a, ns_b, i, c);
            }
        }
        assert(in_chain_from(ns_a, i, i));
        assert(c != i);
        lemma_chain_parent(ns_a, index, c);
        assert(same_shape(ns_a[c], ns_b[c]));
        assert(sem_at(ns_a, c, a) is Fill);
        assert(sz_at(ns_a, c, a) == div_towards_zero(
            sat_sub_i32(sz_at(ns_a, index, a), child_size@[a] as int),
            fills@[a] as int,
        ));
        lemma_sibling_untouched(ns_a, ns_b, index, c, i);
        assert(in_subtree(ns_a, c, c));
        assert(ns_b[c] == ns_a[c]);
        assert(ns_b[index] == ns_a[index]);
    }
}

/// After the post-pass rewrites only the parent's deferred axes, the
/// children's claims still stand: nothing they read has moved.
#[verifier::rlimit(100)]
proof fn lemma_assemble_children(
    ns_f: Seq<FrameNode>,
    ns_z: Seq<FrameNode>,
    cw: int,
    ch: int,
    index: int,
)
    requires
        wf_nodes(ns_f),
        structure_eq(ns_f, ns_z),
        0 <= index < ns_f.len(),
        forall|j: int| 0 <= j < ns_f.len() && j != index ==> ns_f[j] == #[trigger] ns_z[j],
        ns_z[index].size.computed_pos == ns_f[index].size.computed_pos,
        !(sem_at(ns_f, index, 0) is ChildrenSum) ==> sz_at(ns_z, index, 0) == sz_at(ns_f, index, 0),
        !(sem_at(ns_f, index, 1) is ChildrenSum) ==> sz_at(ns_z, index, 1) == sz_at(ns_f, index, 1),
        children_laid(ns_f, cw, ch, index),
    ensures
        children_laid(ns_z, cw, ch, index),
{
    lemma_structure_eq_sym(ns_f, ns_z);
    assert forall|c: int|
        #[trigger] in_chain(ns_z, index, c) implies subtree_sizes_resolved(ns_z, cw, ch, c)
        && subtree_pos_resolved(ns_z, c) && subtree_fills_resolved(ns_z, c) by {
        assert(same_shape(ns_f[index], ns_z[index]));
        lemma_chain_from_shape(ns_z, ns_f, ns_z[index].first->Some_0 as int, c);
        assert(in_chain(ns_f, index, c));
        lemma_chain_parent(ns_f, index, c);
        assert forall|m: int| #[trigger] in_subtree(ns_f, m, c) implies ns_z[m] == ns_f[m] by {
            lemma_subtree_bounds(ns_f, m, c);
            assert(m != index);
        }
        assert forall|k: int|
            #[trigger] in_subtree(ns_f, c, k) && k != c implies (!(sem_at(
            ns_f,
            k,
            0,
        ) is ChildrenSum) ==> sz_at(ns_z, k, 0) == sz_at(ns_f, k, 0)) && (!(sem_at(
            ns_f,
            k,
            1,
        ) is ChildrenSum) ==> sz_at(ns_z, k, 1) == sz_at(ns_f, k, 1)) by {
            lemma_subtree_bounds(ns_f, c, k);
            if k != index {
                assert(ns_z[k] == ns_f[k]);
            }
        }
        lemma_sizes_claims_stable(ns_f, ns_z, cw, ch, c);
        assert(wf_node(ns_f, c));
        match ns_f[c].prev {
            Some(q) => {
                assert(0 <= q as int && (q as int) < c);
                assert(ns_f[q as int].parent == ns_f[c].parent);
                assert(ns_f[c].parent == Some(index as usize));
                if (q as int) == index {
                    assert(wf_node(ns_f, index));
                    assert(false);
                }
                assert(ns_z[q as int] == ns_f[q as int]);
            },
            None => {},
        }
        lemma_pos_claims_stable(ns_f, ns_z, c);
    }
}

/// The leftover-space totals gathered by the measuring pass still describe
/// the final state: on a non-circular, non-derived axis, the non-`Fill`
/// children's sizes are pinned, so the share the fill pass handed out equals
/// the share computed from the final state.
#[verifier::rlimit(100)]
proof fn lemma_top_fills(
    ns_m: Seq<FrameNode>,
    ns_f: Seq<FrameNode>,
    ns_z: Seq<FrameNode>,
    cw: int,
    ch: int,
    index: int,
    first: int,
    child_size: [i32; 2],
    fills: [i32; 2],
    a: int,
)
    requires
        wf_nodes(ns_m),
        structure_eq(ns_m, ns_f),
        structure_eq(ns_f, ns_z),
        0 <= index < ns_m.len(),
        0 <= a < 2,
        (ns_m[index].first matches Some(f) && f as int == first),
        ns_f[index] == ns_m[index],
        forall|j: int| 0 <= j < ns_f.len() && j != index ==> ns_f[j] == #[trigger] ns_z[j],
        !(sem_at(ns_z, index, a) is ChildrenSum),
        sz_at(ns_z, index, a) == sz_at(ns_f, index, a),
        axis_noncircular(ns_z, index, a),
        same_outside_subtree(ns_m, ns_f, index),
        children_measured(ns_m, cw, ch, index),
        children_laid(ns_f, cw, ch, index),
        (child_size@[a] as int) == (if a == main_axis(ns_m, index) {
            nonfill_sum(ns_m, index, a)
        } else {
            0
        }),
        (fills@[a] as int) == (if a == main_axis(ns_m, index) {
            fill_count(ns_m, index, a)
        } else {
            1
        }),
        forall|c: int, aa: int|
            #![trigger in_chain(ns_f, index, c), sem_at(ns_f, c, aa)]
            in_chain(ns_f, index, c) && 0 <= aa < 2 && sem_at(ns_f, c, aa) is Fill ==> sz_at(
                ns_f,
                c,
                aa,
            ) == div_towards_zero(
                sat_sub_i32(sz_at(ns_f, index, aa), child_size@[aa] as int),
                fills@[aa] as int,
            ),
    ensures
        fills_assigned_under(ns_z, index, a),
{
    lemma_wf_shape(ns_m, ns_f);
    lemma_structure_eq_sym(ns_m, ns_f);
    lemma_structure_eq_sym(ns_f, ns_z);
    assert(same_shape(ns_m[index], ns_z[index]));
    assert(same_shape(ns_m[index], ns_f[index]));
    let ma = main_axis(ns_m, index);
    assert(main_axis(ns_z, index) == ma);
    assert(main_axis(ns_f, index) == ma);
    assert forall|c: int|
        #[trigger] in_chain(ns_z, index, c) && sem_at(ns_z, c, a) is Fill implies sz_at(
        ns_z,
        c,
        a,
    ) == fill_share(ns_z, index, a) by {
        lemma_chain_from_shape(ns_z, ns_f, ns_z[index].first->Some_0 as int, c);
        assert(in_chain(ns_f, index, c));
        lemma_wf_shape(ns_f, ns_z);
        lemma_chain_parent(ns_z, index, c);
        assert(c != index);
        assert(ns_z[c] == ns_f[c]);
        assert(same_shape(ns_f[c], ns_z[c]));
        assert(sem_at(ns_f, c, a) is Fill);
        assert(sz_at(ns_f, c, a) == div_towards_zero(
            sat_sub_i32(sz_at(ns_f, index, a), child_size@[a] as int),
            fills@[a] as int,
        ));
        if a == ma {
            // the fill count is structural
            assert(fill_count(ns_z, index, a) == fill_count(ns_m, index, a)) by {
                lemma_fills_fold_structural(ns_m, ns_f, first, -1, a, 0);
                lemma_fills_fold_structural(ns_f, ns_z, first, -1, a, 0);
            }
            // the non-Fill totals are pinned across the second pass
            assert(nonfill_sum(ns_f, index, a) == nonfill_sum(ns_m, index, a)) by {
                assert forall|m: int|
                    in_chain_from(ns_m, first, m) && !(sem_at(ns_m, m, a) is Fill) implies sz_at(
                    ns_f,
                    #[trigger] (m + 0),
                    a,
                ) == sz_at(ns_m, m, a) by {
                    lemma_chain_from_parent(ns_m, first, m);
                    assert(wf_node(ns_m, index));
                    assert(ns_m[first].parent == Some(index as usize));
                    assert(ns_m[m].parent == Some(index as usize));
                    assert(in_chain(ns_m, index, m));
                    lemma_chain_parent(ns_m, index, m);
                    assert(wf_node(ns_m, m));
                    assert(ns_m[m].key@ != root_key_view());
                    assert(in_subtree(ns_m, m, index)) by {
                        assert(in_subtree(ns_m, index, index));
                    }
                    lemma_noncircular_shape(ns_z, ns_f, index, a);
                    lemma_noncircular_shape(ns_f, ns_m, index, a);
                    lemma_noncircular_sub(ns_m, index, m, a);
                    assert(subtree_sizes_resolved(ns_m, cw, ch, m));
                    assert(in_chain(ns_f, index, m)) by {
                        lemma_chain_from_shape(ns_m, ns_f, first, m);
                    }
                    assert(subtree_sizes_resolved(ns_f, cw, ch, m));
                    assert forall|k: int|
                        #[trigger] in_subtree(ns_m, m, k) && k != m && !(sem_at(
                            ns_m,
                            k,
                            a,
                        ) is ChildrenSum) implies sz_at(ns_f, k, a) == sz_at(ns_m, k, a) by {
                        assert(in_subtree(ns_m, ns_m[m].parent->Some_0 as int, k));
                        lemma_subtree_bounds(ns_m, index, k);
                        if k == index {
                        } else {
                            assert(!in_subtree(ns_m, k, index)) by {
                                if in_subtree(ns_m, k, index) {
                                    lemma_subtree_bounds(ns_m, k, index);
                                }
                            }
                            assert(ns_f[k] == ns_m[k]);
                        }
                    }
                    lemma_nonfill_value(ns_m, ns_f, cw, ch, m, a);
                }
                lemma_sum_congruence_nonfill(ns_m, ns_f, first, a, 0);
            }
            // and across the post-pass, which touches only the parent
            assert(nonfill_sum(ns_z, index, a) == nonfill_sum(ns_f, index, a)) by {
                assert(wf_node(ns_f, index)) by {
                    lemma_wf_shape(ns_m, ns_f);
                }
                assert(ns_f[index].first == Some(first as usize));
                assert forall|m: int|
                    in_chain_from(ns_f, first, m) && !(sem_at(ns_f, m, a) is Fill) implies sz_at(
                    ns_z,
                    #[trigger] (m + 0),
                    a,
                ) == sz_at(ns_f, m, a) by {
                    lemma_chain_from_parent(ns_f, first, m);
                    assert(ns_f[first].parent == Some(index as usize));
                    assert(m != index);
                    assert(ns_z[m] == ns_f[m]);
                }
                lemma_sum_congruence_nonfill(ns_f, ns_z, first, a, 0);
            }
            assert(sz_at(ns_z, c, a) == fill_share(ns_z, index, a));
        } else {
            // across the parent's stacking axis the share is its full size
            assert(child_size@[a] as int == 0);
            assert(fills@[a] as int == 1);
            let x = sz_at(ns_f, index, a);
            assert(sat_sub_i32(x, 0) == x);
            assert(div_towards_zero(x, 1) == x) by {
                if x >= 0 {
                    assert(x / 1 == x);
                } else {
                    assert((-x) / 1 == -x);
                }
            }
            assert(fill_share(ns_z, index, a) == sz_at(ns_z, index, a));
        }
    }
}

/// One write of the sync pass: the entry holding `key`, if any, takes the
/// node's final layout state; its label is untouched.
pub open spec fn sync_entry(entries: Seq<StoreEntry>, key: Seq<char>, size: Size) -> Seq<
    StoreEntry,
> {
    match find_key(entries, key) {
        Some(i) => entries.update(
            i,
            StoreEntry {
                key: entries[i].key,
                data: PersistentNodeData { label: entries[i].data.label, size },
            },
        ),
        None => entries,
    }
}

/// The sync pass over the subtree rooted at `j`, in depth-first preorder:
/// write `j`'s geometry, then every child subtree left to right.
pub open spec fn sync_subtree_spec(entries: Seq<StoreEntry>, ns: Seq<FrameNode>, j: int) -> Seq<
    StoreEntry,
>
    decreases ns.len() - j, 0int,
{
    if 0 <= j < ns.len() {
        let e1 = sync_entry(entries, ns[j].key@, ns[j].size);
        match ns[j].first {
            Some(f) => if j < f as int && (f as int) < ns.len() {
                sync_chain_spec(e1, ns, f as int)
            } else {
                e1
            },
            None => e1,
        }
    } else {
        entries
    }
}

/// The sync pass over a sibling chain starting at `c`.
pub open spec fn sync_chain_spec(entries: Seq<StoreEntry>, ns: Seq<FrameNode>, c: int) -> Seq<
    StoreEntry,
>
    decreases ns.len() - c, 1int,
{
    if 0 <= c < ns.len() {
        let e1 = sync_subtree_spec(entries, ns, c);
        match ns[c].next {
            Some(k) => if c < k as int && (k as int) < ns.len() {
                sync_chain_spec(e1, ns, k as int)
            } else {
                e1
            },
            None => e1,
        }
    } else {
        entries
    }
}

/// The persistent data of the subtree rooted at `j`, in depth-first preorder;
/// nodes whose keys have no entry are skipped.
pub open spec fn iter_subtree_spec(
    ns: Seq<FrameNode>,
    entries: Seq<StoreEntry>,
    j: int,
) -> Seq<PersistentNodeData>
    decreases ns.len() - j, 0int,
{
    if 0 <= j < ns.len() {
        let own = match find_key(entries, ns[j].key@) {
            Some(i) => seq![entries[i].data],
            None => Seq::<PersistentNodeData>::empty(),
        };
        match ns[j].first {
            Some(f) => if j < f as int && (f as int) < ns.len() {
                own + iter_chain_spec(ns, entries, f as int)
            } else {
                own
            },
            None => own,
        }
    } else {
        Seq::<PersistentNodeData>::empty()
    }
}

/// The persistent data of a sibling run starting at `c`, each sibling's
/// subtree in depth-first preorder.
pub open spec fn iter_chain_spec(
    ns: Seq<FrameNode>,
    entries: Seq<StoreEntry>,
    c: int,
) -> Seq<PersistentNodeData>
    decreases ns.len() - c, 1int,
{
    if 0 <= c < ns.len() {
        let own = iter_subtree_spec(ns, entries, c);
        match ns[c].next {
            Some(k) => if c < k as int && (k as int) < ns.len() {
                own + iter_chain_spec(ns, entries, k as int)
            } else {
                own
            },
            None => own,
        }
    } else {
        Seq::<PersistentNodeData>::empty()
    }
}

impl Context {
    /// The size a `PercentOfParent` policy on the node at `index` resolves
    /// against: walks ancestors upward, skipping any whose policy on this
    /// axis is itself `ChildrenSum`, until an authoritative size is found.
    /// The root always resolves, because its policy is never `ChildrenSum`.
    fn ancestor_size(&self, index: usize, axis: Axis) -> (r: i32)
        requires
            wf_nodes(self.nodes()),
            0 < index < self.nodes().len(),
        ensures
            r as int == spec_ancestor_size(self.nodes(), index as int, axis_ix(axis)),
        decreases index,
    {
        proof {
            assert(wf_node(self.nodes(), index as int));
        }
        let a: usize = axis_index(axis);
        let p: usize = match self.frame_nodes[index].parent {
            Some(p) => p,
            None => 0,
        };
        proof {
            assert(wf_node(self.nodes(), p as int));
        }
        match self.frame_nodes[p].size.semantic_size[a] {
            SemanticSize::ChildrenSum => self.ancestor_size(p, axis),
            _ => self.frame_nodes[p].size.computed_size[a],
        }
    }

    /// The top-down pass over one node: inherit the position baseline from
    /// the parent, pack past the previous sibling along the parent's axis,
    /// then resolve the directly computable sizing policies. The root's size
    /// is forced to the canvas, bypassing its policy entirely.
    #[verifier::rlimit(100)]
    fn pre_pass(&mut self, canvas_size: [i32; 2], index: usize) -> (post: (bool, bool))
        requires
            old(self).wf(),
            index < old(self).nodes().len(),
        ensures
            post.0 == (final(self).nodes()[index as int].key@ != root_key_view() && sem_at(
                final(self).nodes(),
                index as int,
                0,
            ) is ChildrenSum),
            post.1 == (final(self).nodes()[index as int].key@ != root_key_view() && sem_at(
                final(self).nodes(),
                index as int,
                1,
            ) is ChildrenSum),
            final(self).wf(),
            final(self).cursor() == old(self).cursor(),
            final(self).store() == old(self).store(),
            structure_eq(old(self).nodes(), final(self).nodes()),
            forall|j: int|
                0 <= j < old(self).nodes().len() && j != index ==> old(self).nodes()[j]
                    == #[trigger] final(self).nodes()[j],
            pre_resolved(
                old(self).nodes(),
                final(self).nodes(),
                canvas_size@[0] as int,
                canvas_size@[1] as int,
                index as int,
                0,
            ),
            pre_resolved(
                old(self).nodes(),
                final(self).nodes(),
                canvas_size@[0] as int,
                canvas_size@[1] as int,
                index as int,
                1,
            ),
            pos_resolved(final(self).nodes(), index as int, 0),
            pos_resolved(final(self).nodes(), index as int, 1),
            old(self).nodes()[index as int].parent is None
                ==> final(self).nodes()[index as int].size.computed_pos
                == old(self).nodes()[index as int].size.computed_pos,
    {
        proof {
            assert(wf_node(self.nodes(), index as int));
        }
        let mut parent_axis: Axis = Axis::Horizontal;
        match self.frame_nodes[index].parent {
            Some(parent_index) => {
                let ppos: [i32; 2] = self.frame_nodes[parent_index].size.computed_pos;
                parent_axis = self.frame_nodes[parent_index].size.axis;
                self.frame_nodes[index].size.computed_pos = ppos;
            },
            None => {},
        }
        match self.frame_nodes[index].prev {
            Some(prev) => {
                proof {
                    assert(wf_node(old(self).nodes(), index as int));
                }
                let pa: usize = axis_index(parent_axis);
                let prev_pos: i32 = self.frame_nodes[prev].size.computed_pos[pa];
                let prev_size: i32 = self.frame_nodes[prev].size.computed_size[pa];
                self.frame_nodes[index].size.computed_pos[pa] = sat_add(prev_pos, prev_size);
            },
            None => {},
        }
        let mut post_h: bool = false;
        let mut post_v: bool = false;
        let root_key: NodeKey = NodeKey::root();
        if self.frame_nodes[index].key.key_eq(&root_key) {
            self.frame_nodes[index].size.computed_size = canvas_size;
        } else {
            proof {
                assert(wf_node(old(self).nodes(), index as int));
                if index == 0 {
                    assert(old(self).nodes()[0].key@ == root_key_view());
                }
            }
            match self.frame_nodes[index].size.semantic_size[0] {
                SemanticSize::FitText => {
                    let len: usize = self.frame_nodes[index].label.as_str().unicode_len();
                    let w: i32 = text_extent_value(len, FONT_WIDTH);
                    self.frame_nodes[index].size.computed_size[0] = w;
                },
                SemanticSize::ChildrenSum => {
                    post_h = true;
                },
                SemanticSize::Fill => {},
                SemanticSize::Exact(size) => {
                    self.frame_nodes[index].size.computed_size[0] = size;
                },
                SemanticSize::PercentOfParent(percent) => {
                    proof {
                        assert(structure_eq(old(self).nodes(), self.nodes()));
                        lemma_wf_shape(old(self).nodes(), self.nodes());
                    }
                    let base: i32 = self.ancestor_size(index, Axis::Horizontal);
                    let ghost mid = self.nodes();
                    self.frame_nodes[index].size.computed_size[0] = percent_value(base, percent);
                    proof {
                        lemma_anc_size_congruence(mid, self.nodes(), index as int, 0);
                    }
                },
            }
            let ghost before_v = self.nodes();
            match self.frame_nodes[index].size.semantic_size[1] {
                SemanticSize::FitText => {
                    self.frame_nodes[index].size.computed_size[1] = FONT_HEIGHT as i32;
                },
                SemanticSize::ChildrenSum => {
                    post_v = true;
                },
                SemanticSize::Fill => {},
                SemanticSize::Exact(size) => {
                    self.frame_nodes[index].size.computed_size[1] = size;
                },
                SemanticSize::PercentOfParent(percent) => {
                    proof {
                        assert(structure_eq(old(self).nodes(), self.nodes()));
                        lemma_wf_shape(old(self).nodes(), self.nodes());
                    }
                    let base: i32 = self.ancestor_size(index, Axis::Vertical);
                    let ghost mid = self.nodes();
                    self.frame_nodes[index].size.computed_size[1] = percent_value(base, percent);
                    proof {
                        lemma_anc_size_congruence(mid, self.nodes(), index as int, 1);
                    }
                },
            }
            proof {
                // the vertical step leaves the horizontal resolution intact
                lemma_anc_size_congruence(before_v, self.nodes(), index as int, 0);
            }
        }
        proof {
            lemma_wf_shape(old(self).nodes(), self.nodes());
            lemma_covers_shape(old(self).nodes(), self.nodes(), self.store());
        }
        (post_h, post_v)
    }

    /// The aggregation step of the post-pass for one deferred (`ChildrenSum`)
    /// axis: sums the children's final sizes along the node's own stacking
    /// axis, takes their maximum across it.
    fn post_compute(&mut self, index: usize, axis: usize)
        requires
            old(self).wf(),
            index < old(self).nodes().len(),
            axis < 2,
        ensures
            final(self).wf(),
            final(self).cursor() == old(self).cursor(),
            final(self).store() == old(self).store(),
            structure_eq(old(self).nodes(), final(self).nodes()),
            forall|j: int|
                0 <= j < old(self).nodes().len() && j != index ==> old(self).nodes()[j]
                    == #[trigger] final(self).nodes()[j],
            final(self).nodes()[index as int].size.computed_pos == old(
                self,
            ).nodes()[index as int].size.computed_pos,
            sz_at(final(self).nodes(), index as int, 1 - axis as int) == sz_at(
                old(self).nodes(),
                index as int,
                1 - axis as int,
            ),
            sz_at(final(self).nodes(), index as int, axis as int) == children_agg(
                final(self).nodes(),
                index as int,
                axis as int,
            ),
    {
        let ghost ns0 = old(self).nodes();
        proof {
            assert(wf_node(ns0, index as int));
        }
        let first_opt: Option<usize> = self.frame_nodes[index].first;
        let own: bool = axis_index(self.frame_nodes[index].size.axis) == axis;
        let mut node_size: i32 = 0;
        match first_opt {
            Some(first) => {
                let mut i: usize = first;
                proof {
                    assert(in_chain_from(ns0, first as int, first as int));
                }
                loop
                    invariant_except_break
                        self == old(self),
                        index < self.nodes().len(),
                        axis < 2,
                        (i as int) < self.nodes().len(),
                        in_chain_from(self.nodes(), first as int, i as int),
                        own == (axis as int == main_axis(self.nodes(), index as int)),
                        node_size as int == chain_agg_upto(
                            self.nodes(),
                            first as int,
                            i as int,
                            axis as int,
                            own,
                            0,
                        ),
                        wf_nodes(self.nodes()),
                    ensures
                        self == old(self),
                        node_size as int == chain_agg_upto(
                            self.nodes(),
                            first as int,
                            -1,
                            axis as int,
                            own,
                            0,
                        ),
                    decreases self.nodes().len() - i,
                {
                    proof {
                        assert(wf_node(self.nodes(), i as int));
                    }
                    let c_sz: i32 = self.frame_nodes[i].size.computed_size[axis];
                    if own {
                        node_size = sat_add(node_size, c_sz);
                    } else {
                        node_size = max_i32(node_size, c_sz);
                    }
                    proof {
                        lemma_agg_advance(
                            self.nodes(),
                            first as int,
                            i as int,
                            axis as int,
                            own,
                            0,
                        );
                    }
                    let nxt: Option<usize> = self.frame_nodes[i].next;
                    match nxt {
                        Some(nx) => {
                            proof {
                                lemma_chain_from_extend(
                                    self.nodes(),
                                    first as int,
                                    i as int,
                                    nx as int,
                                );
                            }
                            i = nx;
                        },
                        None => {
                            break;
                        },
                    }
                }
            },
            None => {},
        }
        let ghost mid = self.nodes();
        self.frame_nodes[index].size.computed_size[axis] = node_size;
        proof {
            assert(structure_eq(ns0, self.nodes()));
            lemma_wf_shape(ns0, self.nodes());
            lemma_covers_shape(ns0, self.nodes(), self.store());
            // the write at the parent does not disturb the children it reads
            match ns0[index as int].first {
                Some(f) => {
                    assert forall|m: int|
                        in_chain_from(mid, f as int, m) implies sz_at(
                        self.nodes(),
                        #[trigger] (m + 0),
                        axis as int,
                    ) == sz_at(mid, m, axis as int) by {
                        lemma_chain_from_parent(mid, f as int, m);
                        assert(wf_node(mid, index as int));
                        assert(m != index);
                    }
                    assert(structure_eq(mid, self.nodes()));
                    lemma_folds_congruence(
                        mid,
                        self.nodes(),
                        f as int,
                        -1,
                        axis as int,
                        axis as int == main_axis(mid, index as int),
                        0,
                    );
                },
                None => {},
            }
        }
    }

    /// The first children pass: lays out every child once and gathers, along
    /// the node's own stacking axis, the summed size of the non-`Fill`
    /// children and the count of the `Fill` children. Returns the per-axis
    /// totals, with the cross axis fixed at a zero sum and a single share.
    fn measure_children(&mut self, canvas_size: [i32; 2], index: usize, first: usize) -> (r: (
        [i32; 2],
        [i32; 2],
    ))
        requires
            old(self).wf(),
            index < old(self).nodes().len(),
            old(self).nodes()[index as int].first == Some(first),
        ensures
            final(self).wf(),
            final(self).cursor() == old(self).cursor(),
            final(self).store() == old(self).store(),
            structure_eq(old(self).nodes(), final(self).nodes()),
            same_outside_subtree(old(self).nodes(), final(self).nodes(), index as int),
            final(self).nodes()[index as int] == old(self).nodes()[index as int],
            children_measured(
                final(self).nodes(),
                canvas_size@[0] as int,
                canvas_size@[1] as int,
                index as int,
            ),
            (r.0@[0] as int) == (if 0 == main_axis(final(self).nodes(), index as int) {
                nonfill_sum(final(self).nodes(), index as int, 0)
            } else {
                0
            }),
            (r.0@[1] as int) == (if 1 == main_axis(final(self).nodes(), index as int) {
                nonfill_sum(final(self).nodes(), index as int, 1)
            } else {
                0
            }),
            (r.1@[0] as int) == (if 0 == main_axis(final(self).nodes(), index as int) {
                fill_count(final(self).nodes(), index as int, 0)
            } else {
                1
            }),
            (r.1@[1] as int) == (if 1 == main_axis(final(self).nodes(), index as int) {
                fill_count(final(self).nodes(), index as int, 1)
            } else {
                1
            }),
        decreases old(self).nodes().len() - index, 0int,
    {
        let ghost ns0 = old(self).nodes();
        let ghost cw = canvas_size@[0] as int;
        let ghost ch = canvas_size@[1] as int;
        proof {
            assert(wf_node(ns0, index as int));
            assert(in_chain_from(ns0, first as int, first as int));
            assert((index as int) < (first as int));
        }
        let mut child_size: [i32; 2] = [0, 0];
        let mut number_of_fills: [i32; 2] = [1, 1];
        let ma: usize = axis_index(self.frame_nodes[index].size.axis);
        number_of_fills[ma] = 0;
        let cross: usize = 1 - ma;
        let mut i: usize = first;
        loop
            invariant_except_break
                self.wf(),
                self.cursor() == old(self).cursor(),
                self.store() == old(self).store(),
                index < self.nodes().len(),
                structure_eq(ns0, self.nodes()),
                same_outside_subtree(ns0, self.nodes(), index as int),
                self.nodes()[index as int] == ns0[index as int],
                ns0 == old(self).nodes(),
                ns0[index as int].first == Some(first),
                ma < 2,
                cross == 1 - ma,
                ma as int == main_axis(self.nodes(), index as int),
                (index as int) < (i as int),
                (i as int) < self.nodes().len(),
                in_chain_from(self.nodes(), first as int, i as int),
                forall|c: int|
                    #[trigger] in_chain(self.nodes(), index as int, c) && !in_chain_from(
                        self.nodes(),
                        i as int,
                        c,
                    ) ==> subtree_sizes_resolved(self.nodes(), cw, ch, c)
                        && subtree_fills_resolved(self.nodes(), c),
                child_size@[ma as int] as int == chain_sum_upto(
                    self.nodes(),
                    first as int,
                    i as int,
                    ma as int,
                    0,
                ),
                child_size@[cross as int] == 0,
                number_of_fills@[ma as int] as int == chain_fills_upto(
                    self.nodes(),
                    first as int,
                    i as int,
                    ma as int,
                    0,
                ),
                number_of_fills@[cross as int] == 1,
                cw == canvas_size@[0] as int,
                ch == canvas_size@[1] as int,
            ensures
                self.wf(),
                self.cursor() == old(self).cursor(),
                self.store() == old(self).store(),
                index < self.nodes().len(),
                structure_eq(ns0, self.nodes()),
                same_outside_subtree(ns0, self.nodes(), index as int),
                self.nodes()[index as int] == ns0[index as int],
                ma < 2,
                cross == 1 - ma,
                ma as int == main_axis(self.nodes(), index as int),
                children_measured(self.nodes(), cw, ch, index as int),
                child_size@[ma as int] as int == nonfill_sum(self.nodes(), index as int, ma as int),
                child_size@[cross as int] == 0,
                number_of_fills@[ma as int] as int == fill_count(
                    self.nodes(),
                    index as int,
                    ma as int,
                ),
                number_of_fills@[cross as int] == 1,
            decreases self.nodes().len() - i,
        {
            let ghost ns_a = self.nodes();
            self.layout_subtree(canvas_size, i);
            proof {
                lemma_children_step(ns_a, self.nodes(), cw, ch, index as int, first as int, i as int);
                assert forall|j: int|
                    0 <= j < ns0.len() && !in_subtree(ns0, j, index as int) implies ns0[j]
                    == #[trigger] self.nodes()[j] by {
                    if in_subtree(ns_a, j, index as int) {
                        lemma_subtree_shape(ns_a, ns0, j, index as int);
                        assert(false);
                    }
                    assert(ns0[j] == ns_a[j]);
                }
                assert forall|j: int| 0 <= j < ns0.len() implies same_shape(
                    ns0[j],
                    #[trigger] self.nodes()[j],
                ) by {
                    assert(same_shape(ns0[j], ns_a[j]));
                    assert(same_shape(ns_a[j], self.nodes()[j]));
                }
            }
            proof {
                assert(wf_node(self.nodes(), i as int));
            }
            let is_fill: bool = matches!(
                self.frame_nodes[i].size.semantic_size[ma],
                SemanticSize::Fill
            );
            if is_fill {
                number_of_fills[ma] = sat_add(number_of_fills[ma], 1);
            } else {
                let csz: i32 = self.frame_nodes[i].size.computed_size[ma];
                child_size[ma] = sat_add(child_size[ma], csz);
            }
            proof {
                lemma_sum_advance(self.nodes(), first as int, i as int, ma as int, 0);
                lemma_fills_advance(self.nodes(), first as int, i as int, ma as int, 0);
            }
            let nxt: Option<usize> = self.frame_nodes[i].next;
            match nxt {
                Some(nx) => {
                    proof {
                        lemma_chain_from_extend(self.nodes(), first as int, i as int, nx as int);
                        assert(next_stop(self.nodes(), i as int) == nx as int);
                        assert forall|c: int|
                            #[trigger] in_chain(self.nodes(), index as int, c) && !in_chain_from(
                                self.nodes(),
                                nx as int,
                                c,
                            ) implies subtree_sizes_resolved(self.nodes(), cw, ch, c)
                            && subtree_fills_resolved(self.nodes(), c) by {
                            if c != i as int && in_chain_from(self.nodes(), i as int, c) {
                                assert(false);
                            }
                        }
                    }
                    i = nx;
                },
                None => {
                    proof {
                        assert(next_stop(self.nodes(), i as int) == -1);
                        assert forall|c: int|
                            #[trigger] in_chain(self.nodes(), index as int, c) implies
                            subtree_sizes_resolved(self.nodes(), cw, ch, c)
                            && subtree_fills_resolved(self.nodes(), c) by {
                            if c != i as int && in_chain_from(self.nodes(), i as int, c) {
                                assert(false);
                            }
                        }
                        assert(self.nodes()[index as int].first == Some(first));
                    }
                    break;
                },
            }
        }
        proof {
            assert(0 == ma as int || 0 == cross as int);
            assert(1 == ma as int || 1 == cross as int);
        }
        (child_size, number_of_fills)
    }

    /// The second children pass: assigns every `Fill` child its equal share
    /// of the leftover space gathered by the measuring pass, then lays each
    /// child out again so the share propagates to the child's own subtree.
    #[verifier::rlimit(100)]
    fn fill_children(
        &mut self,
        canvas_size: [i32; 2],
        index: usize,
        first: usize,
        child_size: [i32; 2],
        fills: [i32; 2],
    )
        requires
            old(self).wf(),
            index < old(self).nodes().len(),
            old(self).nodes()[index as int].first == Some(first),
            (fills@[0] as int) == (if 0 == main_axis(old(self).nodes(), index as int) {
                fill_count(old(self).nodes(), index as int, 0)
            } else {
                1
            }),
            (fills@[1] as int) == (if 1 == main_axis(old(self).nodes(), index as int) {
                fill_count(old(self).nodes(), index as int, 1)
            } else {
                1
            }),
        ensures
            final(self).wf(),
            final(self).cursor() == old(self).cursor(),
            final(self).store() == old(self).store(),
            structure_eq(old(self).nodes(), final(self).nodes()),
            same_outside_subtree(old(self).nodes(), final(self).nodes(), index as int),
            final(self).nodes()[index as int] == old(self).nodes()[index as int],
            children_laid(
                final(self).nodes(),
                canvas_size@[0] as int,
                canvas_size@[1] as int,
                index as int,
            ),
            forall|c: int, a: int|
                #![trigger in_chain(final(self).nodes(), index as int, c), sem_at(final(self).nodes(), c, a)]
                in_chain(final(self).nodes(), index as int, c) && 0 <= a < 2 && sem_at(
                    final(self).nodes(),
                    c,
                    a,
                ) is Fill ==> sz_at(final(self).nodes(), c, a) == div_towards_zero(
                    sat_sub_i32(sz_at(final(self).nodes(), index as int, a), child_size@[a] as int),
                    fills@[a] as int,
                ),
        decreases old(self).nodes().len() - index, 0int,
    {
        let ghost ns0 = old(self).nodes();
        let ghost cw = canvas_size@[0] as int;
        let ghost ch = canvas_size@[1] as int;
        proof {
            assert(wf_node(ns0, index as int));
            assert(in_chain_from(ns0, first as int, first as int));
            assert((index as int) < (first as int));
        }
        let ma: usize = axis_index(self.frame_nodes[index].size.axis);
        let mut i: usize = first;
        loop
            invariant_except_break
                self.wf(),
                self.cursor() == old(self).cursor(),
                self.store() == old(self).store(),
                index < self.nodes().len(),
                structure_eq(ns0, self.nodes()),
                same_outside_subtree(ns0, self.nodes(), index as int),
                self.nodes()[index as int] == ns0[index as int],
                ns0 == old(self).nodes(),
                ns0[index as int].first == Some(first),
                ma < 2,
                ma as int == main_axis(self.nodes(), index as int),
                (index as int) < (i as int),
                (i as int) < self.nodes().len(),
                in_chain_from(self.nodes(), first as int, i as int),
                (fills@[0] as int) == (if 0 == ma as int {
                    fill_count(self.nodes(), index as int, 0)
                } else {
                    1
                }),
                (fills@[1] as int) == (if 1 == ma as int {
                    fill_count(self.nodes(), index as int, 1)
                } else {
                    1
                }),
                forall|c: int|
                    #[trigger] in_chain(self.nodes(), index as int, c) && !in_chain_from(
                        self.nodes(),
                        i as int,
                        c,
                    ) ==> subtree_sizes_resolved(self.nodes(), cw, ch, c) && subtree_pos_resolved(
                        self.nodes(),
                        c,
                    ) && subtree_fills_resolved(self.nodes(), c),
                forall|c: int, a: int|
                    #![trigger in_chain(self.nodes(), index as int, c), sem_at(self.nodes(), c, a)]
                    in_chain(self.nodes(), index as int, c) && !in_chain_from(
                        self.nodes(),
                        i as int,
                        c,
                    ) && 0 <= a < 2 && sem_at(self.nodes(), c, a) is Fill ==> sz_at(
                        self.nodes(),
                        c,
                        a,
                    ) == div_towards_zero(
                        sat_sub_i32(sz_at(self.nodes(), index as int, a), child_size@[a] as int),
                        fills@[a] as int,
                    ),
                cw == canvas_size@[0] as int,
                ch == canvas_size@[1] as int,
            ensures
                self.wf(),
                self.cursor() == old(self).cursor(),
                self.store() == old(self).store(),
                structure_eq(ns0, self.nodes()),
                same_outside_subtree(ns0, self.nodes(), index as int),
                self.nodes()[index as int] == ns0[index as int],
                children_laid(self.nodes(), cw, ch, index as int),
                forall|c: int, a: int|
                    #![trigger in_chain(self.nodes(), index as int, c), sem_at(self.nodes(), c, a)]
                    in_chain(self.nodes(), index as int, c) && 0 <= a < 2 && sem_at(
                        self.nodes(),
                        c,
                        a,
                    ) is Fill ==> sz_at(self.nodes(), c, a) == div_towards_zero(
                        sat_sub_i32(sz_at(self.nodes(), index as int, a), child_size@[a] as int),
                        fills@[a] as int,
                    ),
            decreases self.nodes().len() - i,
        {
            proof {
                assert(wf_node(self.nodes(), i as int));
            }
            let node_size: [i32; 2] = self.frame_nodes[index].size.computed_size;
            let ghost ns_v = self.nodes();
            // hand each Fill axis its share of the leftover space
            if matches!(self.frame_nodes[i].size.semantic_size[0], SemanticSize::Fill) {
                proof {
                    if 0 == ma as int {
                        lemma_fills_member_pos(self.nodes(), first as int, i as int, 0, 0);
                    }
                }
                let share: i32 = div_trunc(sat_sub(node_size[0], child_size[0]), fills[0]);
                self.frame_nodes[i].size.computed_size[0] = share;
            }
            if matches!(self.frame_nodes[i].size.semantic_size[1], SemanticSize::Fill) {
                proof {
                    if 1 == ma as int {
                        assert(structure_eq(ns_v, self.nodes()));
                        lemma_fills_fold_structural(ns_v, self.nodes(), first as int, -1, 1, 0);
                        lemma_chain_from_shape(ns_v, self.nodes(), first as int, i as int);
                        lemma_fills_member_pos(self.nodes(), first as int, i as int, 1, 0);
                    }
                }
                let share: i32 = div_trunc(sat_sub(node_size[1], child_size[1]), fills[1]);
                self.frame_nodes[i].size.computed_size[1] = share;
            }
            let ghost ns_w = self.nodes();
            proof {
                assert(structure_eq(ns_v, ns_w));
                lemma_wf_shape(ns_v, ns_w);
                lemma_covers_shape(ns_v, ns_w, self.store());
                assert(same_outside_subtree(ns_v, ns_w, i as int)) by {
                    assert(in_subtree(ns_v, i as int, i as int));
                }
                lemma_children_step(ns_v, ns_w, cw, ch, index as int, first as int, i as int);
                lemma_children_step_fill(
                    ns_v,
                    ns_w,
                    cw,
                    ch,
                    index as int,
                    first as int,
                    i as int,
                    child_size,
                    fills,
                );
                lemma_fills_fold_structural(ns_v, ns_w, first as int, -1, 0, 0);
                lemma_fills_fold_structural(ns_v, ns_w, first as int, -1, 1, 0);
            }
            let ghost ns_x = self.nodes();
            self.layout_subtree(canvas_size, i);
            let ghost ns_y = self.nodes();
            proof {
                lemma_children_step(ns_x, ns_y, cw, ch, index as int, first as int, i as int);
                lemma_children_step_fill(
                    ns_x,
                    ns_y,
                    cw,
                    ch,
                    index as int,
                    first as int,
                    i as int,
                    child_size,
                    fills,
                );
                lemma_fills_fold_structural(ns_x, ns_y, first as int, -1, 0, 0);
                lemma_fills_fold_structural(ns_x, ns_y, first as int, -1, 1, 0);
                // frame and shape compose back to the loop entry state
                assert forall|j: int| 0 <= j < ns0.len() implies same_shape(
                    ns0[j],
                    #[trigger] ns_y[j],
                ) by {
                    assert(same_shape(ns0[j], ns_v[j]));
                    assert(same_shape(ns_v[j], ns_w[j]));
                    assert(same_shape(ns_w[j], ns_y[j]));
                }
                assert forall|j: int|
                    0 <= j < ns0.len() && !in_subtree(ns0, j, index as int) implies ns0[j]
                    == #[trigger] ns_y[j] by {
                    assert(in_chain(ns_v, index as int, i as int));
                    lemma_chain_parent(ns_v, index as int, i as int);
                    if in_subtree(ns_v, j, i as int) {
                        assert(in_subtree(ns_v, i as int, index as int)) by {
                            assert(in_subtree(ns_v, index as int, index as int));
                        }
                        lemma_subtree_trans(ns_v, j, i as int, index as int);
                        lemma_subtree_shape(ns_v, ns0, j, index as int);
                        assert(false);
                    }
                    if in_subtree(ns_w, j, i as int) {
                        lemma_subtree_shape(ns_w, ns_v, j, i as int);
                        assert(false);
                    }
                }
                // the child keeps the share it was just handed: its own pass
                // leaves Fill axes untouched
                assert(wf_node(ns_x, i as int));
                assert(ns_x[i as int].key@ != root_key_view());
                assert(call_node_preserved(ns_x, ns_y, i as int));
                assert forall|a: int|
                    0 <= a < 2 && #[trigger] sem_at(ns_y, i as int, a) is Fill implies sz_at(
                    ns_y,
                    i as int,
                    a,
                ) == div_towards_zero(
                    sat_sub_i32(sz_at(ns_y, index as int, a), child_size@[a] as int),
                    fills@[a] as int,
                ) by {
                    assert(same_shape(ns_w[i as int], ns_y[i as int]));
                    assert(sem_at(ns_w, i as int, a) is Fill);
                    assert(sz_at(ns_y, i as int, a) == sz_at(ns_w, i as int, a));
                    assert(sz_at(ns_w, i as int, a) == div_towards_zero(
                        sat_sub_i32(sz_at(ns_w, index as int, a), child_size@[a] as int),
                        fills@[a] as int,
                    ));
                }
            }
            let nxt: Option<usize> = self.frame_nodes[i].next;
            match nxt {
                Some(nx) => {
                    proof {
                        lemma_chain_from_extend(self.nodes(), first as int, i as int, nx as int);
                        assert forall|c: int|
                            #[trigger] in_chain(self.nodes(), index as int, c) && !in_chain_from(
                                self.nodes(),
                                nx as int,
                                c,
                            ) implies (subtree_sizes_resolved(self.nodes(), cw, ch, c)
                            && subtree_pos_resolved(self.nodes(), c) && subtree_fills_resolved(
                            self.nodes(),
                            c,
                        )) by {
                            if c != i as int && in_chain_from(self.nodes(), i as int, c) {
                                assert(false);
                            }
                        }
                    }
                    i = nx;
                },
                None => {
                    proof {
                        assert forall|c: int|
                            #[trigger] in_chain(self.nodes(), index as int, c) implies (
                        subtree_sizes_resolved(self.nodes(), cw, ch, c) && subtree_pos_resolved(
                            self.nodes(),
                            c,
                        ) && subtree_fills_resolved(self.nodes(), c)) by {
                            if c != i as int && in_chain_from(self.nodes(), i as int, c) {
                                assert(false);
                            }
                        }
                    }
                    break;
                },
            }
        }
    }

    /// Lays out the subtree rooted at `index`: the top-down pre-pass on the
    /// node itself, the two children passes (measure, then fill), and the
    /// bottom-up aggregation of any deferred (`ChildrenSum`) axes. On return,
    /// every node of the subtree carries the geometry its declared policy
    /// prescribes; nothing outside the subtree moves.
    ///
    /// Termination is structural: child links always point at strictly larger
    /// arena indices, so the recursion is well-founded however the tree was
    /// built.
    #[verifier::rlimit(100)]
    fn layout_subtree(&mut self, canvas_size: [i32; 2], index: usize)
        requires
            old(self).wf(),
            index < old(self).nodes().len(),
        ensures
            final(self).wf(),
            final(self).cursor() == old(self).cursor(),
            final(self).store() == old(self).store(),
            structure_eq(old(self).nodes(), final(self).nodes()),
            same_outside_subtree(old(self).nodes(), final(self).nodes(), index as int),
            call_node_preserved(old(self).nodes(), final(self).nodes(), index as int),
            subtree_sizes_resolved(
                final(self).nodes(),
                canvas_size@[0] as int,
                canvas_size@[1] as int,
                index as int,
            ),
            subtree_pos_resolved(final(self).nodes(), index as int),
            subtree_fills_resolved(final(self).nodes(), index as int),
        decreases old(self).nodes().len() - index, 1int,
    {
        let ghost ns0 = old(self).nodes();
        let ghost cw = canvas_size@[0] as int;
        let ghost ch = canvas_size@[1] as int;
        let (post_h, post_v) = self.pre_pass(canvas_size, index);
        let ghost ns_p = self.nodes();
        let first_opt: Option<usize> = self.frame_nodes[index].first;
        let ghost ns_m: Seq<FrameNode>;
        let ghost ns_f: Seq<FrameNode>;
        let ghost sums: ([i32; 2], [i32; 2]);
        match first_opt {
            Some(first) => {
                let (child_size, fills) = self.measure_children(canvas_size, index, first);
                proof {
                    ns_m = self.nodes();
                }
                self.fill_children(canvas_size, index, first, child_size, fills);
                proof {
                    ns_f = self.nodes();
                    sums = (child_size, fills);
                }
            },
            None => {
                proof {
                    ns_m = self.nodes();
                    ns_f = self.nodes();
                    sums = ([0, 0], [0, 0]);
                }
            },
        }
        if post_h {
            self.post_compute(index, 0);
        }
        let ghost ns_g = self.nodes();
        if post_v {
            self.post_compute(index, 1);
        }
        let ghost ns_z = self.nodes();
        proof {
            let idx = index as int;
            // the post-passes touch only the visited node, and only its
            // deferred axes
            assert(forall|j: int| 0 <= j < ns_f.len() && j != idx ==> ns_f[j] == #[trigger] ns_z[j]);
            assert(ns_z[idx].size.computed_pos == ns_f[idx].size.computed_pos);
            assert(structure_eq(ns_f, ns_z)) by {
                assert forall|j: int| 0 <= j < ns_f.len() implies same_shape(
                    ns_f[j],
                    #[trigger] ns_z[j],
                ) by {
                    assert(same_shape(ns_f[j], ns_g[j]));
                    assert(same_shape(ns_g[j], ns_z[j]));
                }
            }
            assert(same_shape(ns_p[idx], ns_f[idx]));
            assert(!(sem_at(ns_f, idx, 0) is ChildrenSum) ==> sz_at(ns_z, idx, 0) == sz_at(
                ns_f,
                idx,
                0,
            ));
            assert(!(sem_at(ns_f, idx, 1) is ChildrenSum) ==> sz_at(ns_z, idx, 1) == sz_at(
                ns_f,
                idx,
                1,
            ));
            // overall shape preservation
            assert(structure_eq(ns0, ns_z)) by {
                assert forall|j: int| 0 <= j < ns0.len() implies same_shape(
                    ns0[j],
                    #[trigger] ns_z[j],
                ) by {
                    assert(same_shape(ns0[j], ns_p[j]));
                    assert(same_shape(ns_p[j], ns_m[j]));
                    assert(same_shape(ns_m[j], ns_f[j]));
                    assert(same_shape(ns_f[j], ns_z[j]));
                }
            }
            // nothing outside the subtree moves
            assert(same_outside_subtree(ns0, ns_z, idx)) by {
                assert forall|j: int|
                    0 <= j < ns0.len() && !in_subtree(ns0, j, idx) implies ns0[j]
                    == #[trigger] ns_z[j] by {
                    assert(in_subtree(ns0, idx, idx));
                    assert(j != idx);
                    assert(ns_p[j] == ns0[j]);
                    if in_subtree(ns_p, j, idx) {
                        lemma_subtree_shape(ns_p, ns0, j, idx);
                    }
                    assert(ns_m[j] == ns_p[j]);
                    if in_subtree(ns_m, j, idx) {
                        lemma_subtree_shape(ns_m, ns_p, j, idx);
                        lemma_subtree_shape(ns_p, ns0, j, idx);
                    }
                    assert(ns_f[j] == ns_m[j]);
                    assert(ns_z[j] == ns_f[j]);
                }
            }
            // ancestors are untouched, so percentage bases agree with the
            // final state
            assert forall|k: int| 0 <= k < idx implies ns_z[k] == #[trigger] ns_p[k] by {
                if in_subtree(ns_p, k, idx) {
                    lemma_subtree_bounds(ns_p, k, idx);
                }
                if in_subtree(ns_m, k, idx) {
                    lemma_subtree_bounds(ns_m, k, idx);
                }
            }
            // the node the call was made on keeps what the pre-pass left
            assert(call_node_preserved(ns0, ns_z, idx)) by {
                assert(same_shape(ns0[idx], ns_p[idx]));
                assert(same_shape(ns_p[idx], ns_f[idx]));
                if ns0[idx].key@ != root_key_view() && sem_at(ns0, idx, 0) is Fill {
                    assert(sz_at(ns_p, idx, 0) == sz_at(ns0, idx, 0));
                    assert(sz_at(ns_f, idx, 0) == sz_at(ns_p, idx, 0));
                    assert(sz_at(ns_z, idx, 0) == sz_at(ns_f, idx, 0));
                }
                if ns0[idx].key@ != root_key_view() && sem_at(ns0, idx, 1) is Fill {
                    assert(sz_at(ns_p, idx, 1) == sz_at(ns0, idx, 1));
                    assert(sz_at(ns_f, idx, 1) == sz_at(ns_p, idx, 1));
                    assert(sz_at(ns_z, idx, 1) == sz_at(ns_f, idx, 1));
                }
            }
            // the children's claims stand in the final state
            assert(children_laid(ns_z, cw, ch, idx)) by {
                lemma_wf_shape(ns0, ns_f);
                match first_opt {
                    Some(first) => {
                        lemma_assemble_children(ns_f, ns_z, cw, ch, idx);
                    },
                    None => {
                        assert forall|c: int| #[trigger] in_chain(ns_z, idx, c) implies
                            subtree_sizes_resolved(ns_z, cw, ch, c) && subtree_pos_resolved(
                            ns_z,
                            c,
                        ) && subtree_fills_resolved(ns_z, c) by {
                            assert(same_shape(ns_p[idx], ns_z[idx]));
                            assert(ns_z[idx].first is None);
                            assert(false);
                        }
                    },
                }
            }
            lemma_wf_shape(ns0, ns_z);
            // sizes: the visited node itself
            assert(own_resolved(ns_z, cw, ch, idx, 0) && own_resolved(ns_z, cw, ch, idx, 1)) by {
                assert forall|a: int|
                    0 <= a < 2 implies #[trigger] own_resolved(ns_z, cw, ch, idx, a) by {
                    assert(same_shape(ns_p[idx], ns_z[idx]));
                    assert(pre_resolved(ns0, ns_p, cw, ch, idx, a));
                    if ns_z[idx].key@ == root_key_view() {
                        assert(sz_at(ns_p, idx, a) == (if a == 0 { cw } else { ch }));
                        assert(sz_at(ns_z, idx, a) == sz_at(ns_f, idx, a));
                        assert(sz_at(ns_f, idx, a) == sz_at(ns_p, idx, a));
                    } else {
                        match sem_at(ns_z, idx, a) {
                            SemanticSize::ChildrenSum => {
                                if a == 0 {
                                    assert(post_h);
                                    assert(sz_at(ns_g, idx, 0) == children_agg(ns_g, idx, 0));
                                    assert(sz_at(ns_z, idx, 0) == sz_at(ns_g, idx, 0));
                                    assert(children_agg(ns_z, idx, 0) == children_agg(
                                        ns_g,
                                        idx,
                                        0,
                                    )) by {
                                        assert(structure_eq(ns_g, ns_z)) by {
                                            assert forall|j: int|
                                                0 <= j < ns_g.len() implies same_shape(
                                                ns_g[j],
                                                #[trigger] ns_z[j],
                                            ) by {}
                                        }
                                        Self::lemma_agg_post_stable(ns_g, ns_z, idx, 0);
                                    }
                                } else {
                                    assert(post_v);
                                    assert(sz_at(ns_z, idx, 1) == children_agg(ns_z, idx, 1));
                                }
                            },
                            SemanticSize::PercentOfParent(_p) => {
                                assert(sz_at(ns_z, idx, a) == sz_at(ns_p, idx, a));
                                lemma_anc_size_congruence(ns_p, ns_z, idx, a);
                            },
                            _ => {
                                assert(sz_at(ns_z, idx, a) == sz_at(ns_p, idx, a));
                            },
                        }
                    }
                }
            }
            // position: the visited node itself
            assert(pos_resolved(ns_z, idx, 0) && pos_resolved(ns_z, idx, 1)) by {
                assert(wf_node(ns0, idx));
                assert forall|a: int| 0 <= a < 2 implies #[trigger] pos_resolved(ns_z, idx, a) by {
                    assert(pos_resolved(ns_p, idx, a));
                    match ns0[idx].parent {
                        Some(p) => {
                            assert(ns_z[p as int] == ns_p[p as int]);
                            assert(pos_at(ns_z, idx, a) == pos_at(ns_p, idx, a));
                            match ns0[idx].prev {
                                Some(q) => {
                                    assert(ns_z[q as int] == ns_p[q as int]);
                                },
                                None => {},
                            }
                            assert(same_shape(ns_p[idx], ns_z[idx]));
                        },
                        None => {},
                    }
                }
            }
            // fills handed out by the visited node match the final state
            assert forall|a: int|
                0 <= a < 2 && !(sem_at(ns_z, idx, a) is ChildrenSum) && axis_noncircular(
                    ns_z,
                    idx,
                    a,
                ) implies #[trigger] fills_assigned_under(ns_z, idx, a) by {
                match first_opt {
                    Some(first) => {
                        lemma_wf_shape(ns0, ns_m);
                        lemma_top_fills(
                            ns_m,
                            ns_f,
                            ns_z,
                            cw,
                            ch,
                            idx,
                            first as int,
                            sums.0,
                            sums.1,
                            a,
                        );
                    },
                    None => {
                        assert forall|c: int|
                            #[trigger] in_chain(ns_z, idx, c) && sem_at(ns_z, c, a) is Fill implies
                            sz_at(ns_z, c, a) == fill_share(ns_z, idx, a) by {
                            assert(same_shape(ns_p[idx], ns_z[idx]));
                            assert(ns_z[idx].first is None);
                            assert(false);
                        }
                    },
                }
            }
            // assemble the subtree-wide claims
            assert(subtree_sizes_resolved(ns_z, cw, ch, idx)) by {
                assert forall|j: int| #[trigger] in_subtree(ns_z, j, idx) implies own_resolved(
                    ns_z,
                    cw,
                    ch,
                    j,
                    0,
                ) && own_resolved(ns_z, cw, ch, j, 1) by {
                    if j != idx {
                        let c = lemma_subtree_step(ns_z, j, idx);
                        assert(subtree_sizes_resolved(ns_z, cw, ch, c));
                    }
                }
            }
            assert(subtree_pos_resolved(ns_z, idx)) by {
                assert forall|j: int| #[trigger] in_subtree(ns_z, j, idx) implies pos_resolved(
                    ns_z,
                    j,
                    0,
                ) && pos_resolved(ns_z, j, 1) by {
                    if j != idx {
                        let c = lemma_subtree_step(ns_z, j, idx);
                        assert(subtree_pos_resolved(ns_z, c));
                    }
                }
            }
            assert(subtree_fills_resolved(ns_z, idx)) by {
                assert forall|d: int, a: int|
                    #![trigger in_subtree(ns_z, d, idx), fills_assigned_under(ns_z, d, a)]
                    in_subtree(ns_z, d, idx) && 0 <= a < 2 && !(sem_at(ns_z, d, a) is ChildrenSum)
                        && axis_noncircular(ns_z, d, a) implies fills_assigned_under(
                        ns_z,
                        d,
                        a,
                    ) by {
                    if d != idx {
                        let c = lemma_subtree_step(ns_z, d, idx);
                        assert(subtree_fills_resolved(ns_z, c));
                    }
                }
            }
        }
    }

    /// The aggregation of one axis only reads the children, never the parent
    /// being written.
    proof fn lemma_agg_post_stable(ns_g: Seq<FrameNode>, ns_z: Seq<FrameNode>, idx: int, a: int)
        requires
            wf_nodes(ns_g),
            structure_eq(ns_g, ns_z),
            0 <= idx < ns_g.len(),
            forall|j: int| 0 <= j < ns_g.len() && j != idx ==> ns_g[j] == #[trigger] ns_z[j],
        ensures
            children_agg(ns_z, idx, a) == children_agg(ns_g, idx, a),
    {
        assert(same_shape(ns_g[idx], ns_z[idx]));
        match ns_g[idx].first {
            Some(f) => {
                assert(wf_node(ns_g, idx));
                assert forall|m: int|
                    in_chain_from(ns_g, f as int, m) implies sz_at(
                    ns_z,
                    #[trigger] (m + 0),
                    a,
                ) == sz_at(ns_g, m, a) by {
                    lemma_chain_from_parent(ns_g, f as int, m);
                    assert(m != idx);
                }
                lemma_folds_congruence(ns_g, ns_z, f as int, -1, a, a == main_axis(ns_g, idx), 0);
            },
            None => {},
        }
    }

    /// Copies one subtree's final geometry into the persistent store, in
    /// depth-first preorder. This is what makes computed layout available to
    /// the renderer and to the next frame's continuity logic.
    fn sync_subtree(&mut self, index: usize)
        requires
            old(self).wf(),
            index < old(self).nodes().len(),
        ensures
            final(self).wf(),
            final(self).cursor() == old(self).cursor(),
            final(self).nodes() == old(self).nodes(),
            final(self).store() == sync_subtree_spec(
                old(self).store(),
                old(self).nodes(),
                index as int,
            ),
        decreases old(self).nodes().len() - index, 0int,
    {
        let ghost ns = self.nodes();
        proof {
            assert(wf_node(ns, index as int));
        }
        let sz: Size = self.frame_nodes[index].size;
        let found: Option<usize> = self.persistent_find(&self.frame_nodes[index].key);
        match found {
            Some(p) => {
                self.persistent[p].data.size = sz;
                proof {
                    let st1 = old(self).store();
                    let st2 = self.store();
                    assert(st2 =~= sync_entry(st1, ns[index as int].key@, sz));
                    assert(crate::store::wf_store(st2)) by {
                        assert forall|x: int, y: int|
                            0 <= x < st2.len() && 0 <= y < st2.len() && x != y implies #[trigger] st2[x].key@
                            != #[trigger] st2[y].key@ by {
                            assert(st1[x].key@ != st1[y].key@);
                        }
                    }
                    assert(crate::tree::store_covers(self.nodes(), st2)) by {
                        assert forall|j: int|
                            0 <= j < self.nodes().len() implies #[trigger] find_key(
                            st2,
                            self.nodes()[j].key@,
                        ) is Some by {
                            let r = find_key(st1, ns[j].key@);
                            assert(r is Some);
                            crate::store::lemma_find_key_from_some(st1, ns[j].key@, 0, r->Some_0);
                            crate::store::lemma_find_key_from_hit(st2, ns[j].key@, 0, r->Some_0);
                        }
                    }
                }
            },
            None => {
                proof {
                    assert(self.store() =~= sync_entry(
                        old(self).store(),
                        ns[index as int].key@,
                        sz,
                    ));
                }
            },
        }
        let ghost st_e = self.store();
        let first_opt: Option<usize> = self.frame_nodes[index].first;
        match first_opt {
            Some(first) => {
                let mut i: usize = first;
                proof {
                    assert(in_chain_from(ns, first as int, first as int));
                }
                loop
                    invariant_except_break
                        self.wf(),
                        self.cursor() == old(self).cursor(),
                        self.nodes() == ns,
                        ns == old(self).nodes(),
                        index < ns.len(),
                        (index as int) < (i as int),
                        (i as int) < ns.len(),
                        in_chain_from(ns, first as int, i as int),
                        sync_chain_spec(st_e, ns, first as int) == sync_chain_spec(
                            self.store(),
                            ns,
                            i as int,
                        ),
                    ensures
                        self.wf(),
                        self.cursor() == old(self).cursor(),
                        self.nodes() == ns,
                        self.store() == sync_chain_spec(st_e, ns, first as int),
                    decreases ns.len() - i,
                {
                    proof {
                        assert(wf_node(ns, i as int));
                    }
                    let ghost st_b = self.store();
                    self.sync_subtree(i);
                    let nxt: Option<usize> = self.frame_nodes[i].next;
                    match nxt {
                        Some(nx) => {
                            proof {
                                lemma_chain_from_extend(ns, first as int, i as int, nx as int);
                                assert(sync_chain_spec(st_b, ns, i as int) == sync_chain_spec(
                                    self.store(),
                                    ns,
                                    nx as int,
                                ));
                            }
                            i = nx;
                        },
                        None => {
                            proof {
                                assert(sync_chain_spec(st_b, ns, i as int) == self.store());
                            }
                            break;
                        },
                    }
                }
            },
            None => {},
        }
    }

    /// Runs the two-phase layout over the subtree rooted at `index` with the
    /// externally supplied canvas size, then walks the whole frame tree and
    /// writes every node's final geometry into the persistent store.
    ///
    /// The root node's computed size always equals the canvas, regardless of
    /// its own policy; an `Exact(n)` axis computes to `n` for any canvas; a
    /// `PercentOfParent` axis resolves against the nearest ancestor not sized
    /// by its own children; a `ChildrenSum` axis aggregates the children
    /// (summing along the node's stacking axis, maximum across it); and every
    /// `Fill` child takes an equal share of its parent's leftover space
    /// wherever that share is well-defined.
    pub fn update_layout(&mut self, canvas_size: [i32; 2], index: usize)
        requires
            old(self).wf(),
            index < old(self).nodes().len(),
        ensures
            final(self).wf(),
            final(self).cursor() == old(self).cursor(),
            structure_eq(old(self).nodes(), final(self).nodes()),
            same_outside_subtree(old(self).nodes(), final(self).nodes(), index as int),
            call_node_preserved(old(self).nodes(), final(self).nodes(), index as int),
            subtree_sizes_resolved(
                final(self).nodes(),
                canvas_size@[0] as int,
                canvas_size@[1] as int,
                index as int,
            ),
            subtree_pos_resolved(final(self).nodes(), index as int),
            subtree_fills_resolved(final(self).nodes(), index as int),
            final(self).store() == sync_subtree_spec(
                old(self).store(),
                final(self).nodes(),
                0,
            ),
    {
        self.layout_subtree(canvas_size, index);
        self.sync_subtree(0);
    }

    /// The persistent data of every node declared this frame, in depth-first
    /// preorder: the sequence a renderer walks to draw the tree.
    pub fn node_iter(&self) -> (r: Vec<PersistentNodeData>)
        requires
            self.wf(),
        ensures
            r@ == iter_subtree_spec(self.nodes(), self.store(), 0),
    {
        let mut out: Vec<PersistentNodeData> = Vec::new();
        self.collect_persistent(0, &mut out);
        proof {
            assert(out@ =~= iter_subtree_spec(self.nodes(), self.store(), 0));
        }
        out
    }

    /// Appends the persistent data of the subtree rooted at `index` to `out`.
    fn collect_persistent(&self, index: usize, out: &mut Vec<PersistentNodeData>)
        requires
            self.wf(),
            index < self.nodes().len(),
        ensures
            final(out)@ == old(out)@ + iter_subtree_spec(
                self.nodes(),
                self.store(),
                index as int,
            ),
        decreases self.nodes().len() - index, 0int,
    {
        let ghost ns = self.nodes();
        let ghost st = self.store();
        proof {
            assert(wf_node(ns, index as int));
        }
        let found: Option<usize> = self.persistent_find(&self.frame_nodes[index].key);
        match found {
            Some(p) => {
                let data = PersistentNodeData {
                    label: self.persistent[p].data.label.clone(),
                    size: self.persistent[p].data.size,
                };
                proof {
                    assert(data == st[p as int].data);
                }
                out.push(data);
            },
            None => {},
        }
        let ghost out_e = out@;
        let first_opt: Option<usize> = self.frame_nodes[index].first;
        match first_opt {
            Some(first) => {
                let mut i: usize = first;
                proof {
                    assert(in_chain_from(ns, first as int, first as int));
                }
                loop
                    invariant_except_break
                        self.wf(),
                        ns == self.nodes(),
                        st == self.store(),
                        index < ns.len(),
                        (index as int) < (i as int),
                        (i as int) < ns.len(),
                        in_chain_from(ns, first as int, i as int),
                        out_e + iter_chain_spec(ns, st, first as int) == out@ + iter_chain_spec(
                            ns,
                            st,
                            i as int,
                        ),
                    ensures
                        out@ == out_e + iter_chain_spec(ns, st, first as int),
                    decreases ns.len() - i,
                {
                    proof {
                        assert(wf_node(ns, i as int));
                    }
                    let ghost out_b = out@;
                    self.collect_persistent(i, out);
                    let nxt: Option<usize> = self.frame_nodes[i].next;
                    match nxt {
                        Some(nx) => {
                            proof {
                                lemma_chain_from_extend(ns, first as int, i as int, nx as int);
                                assert(out_b + iter_chain_spec(ns, st, i as int) =~= out@
                                    + iter_chain_spec(ns, st, nx as int));
                                assert(out_e + iter_chain_spec(ns, st, first as int) =~= out@
                                    + iter_chain_spec(ns, st, nx as int));
                            }
                            i = nx;
                        },
                        None => {
                            proof {
                                assert(out_b + iter_chain_spec(ns, st, i as int) =~= out@);
                                assert(out_e + iter_chain_spec(ns, st, first as int) =~= out@);
                            }
                            break;
                        },
                    }
                }
            },
            None => {},
        }
        proof {
            assert(out@ =~= old(out)@ + iter_subtree_spec(ns, st, index as int));
        }
    }
}

} // verus!
