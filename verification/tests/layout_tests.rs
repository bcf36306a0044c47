use ui_core::Axis;
use ui_core::Context;
use ui_core::SemanticSize;

// The root's computed size always equals the externally supplied canvas
// size, regardless of its own policy.
#[test]
fn root_takes_canvas_size() {
    let mut cx = Context::new();
    cx.make_node("child");
    cx.update_layout([800, 600], 0);
    let root = cx.node_size(0);
    assert_eq!(root.computed_size, [800, 600]);

    cx.update_layout([123, 77], 0);
    let root = cx.node_size(0);
    assert_eq!(root.computed_size, [123, 77]);
}

// An `Exact(n)` axis computes to `n` for any canvas size.
#[test]
fn exact_axis_is_exact() {
    let mut cx = Context::new();
    let a = cx._make_node_with_semantic_size(
        "panel",
        [SemanticSize::Exact(50), SemanticSize::Exact(20)],
    );
    cx.update_layout([800, 600], 0);
    assert_eq!(cx.node_size(a).computed_size, [50, 20]);

    cx.update_layout([30, 10], 0);
    assert_eq!(cx.node_size(a).computed_size, [50, 20]);
}

// A row [Exact(50), Fill, Exact(30)] under a Horizontal parent of width 200
// leaves the Fill child exactly 200 - 50 - 30 == 120 wide.
#[test]
fn fill_takes_leftover_space() {
    let mut cx = Context::new();
    let left = cx._make_node_with_semantic_size(
        "left",
        [SemanticSize::Exact(50), SemanticSize::Exact(10)],
    );
    let mid = cx._make_node_with_semantic_size(
        "mid",
        [SemanticSize::Fill, SemanticSize::Exact(10)],
    );
    let right = cx._make_node_with_semantic_size(
        "right",
        [SemanticSize::Exact(30), SemanticSize::Exact(10)],
    );
    cx.update_layout([200, 100], 0);
    assert_eq!(cx.node_size(left).computed_size[0], 50);
    assert_eq!(cx.node_size(mid).computed_size[0], 120);
    assert_eq!(cx.node_size(right).computed_size[0], 30);
}

// Two Fill siblings split the leftover space evenly.
#[test]
fn two_fills_share_evenly() {
    let mut cx = Context::new();
    let a = cx._make_node_with_semantic_size(
        "a",
        [SemanticSize::Fill, SemanticSize::Exact(10)],
    );
    let b = cx._make_node_with_semantic_size(
        "b",
        [SemanticSize::Exact(100), SemanticSize::Exact(10)],
    );
    let c = cx._make_node_with_semantic_size(
        "c",
        [SemanticSize::Fill, SemanticSize::Exact(10)],
    );
    cx.update_layout([400, 100], 0);
    assert_eq!(cx.node_size(a).computed_size[0], 150);
    assert_eq!(cx.node_size(b).computed_size[0], 100);
    assert_eq!(cx.node_size(c).computed_size[0], 150);
}

// A Fill child spans the parent's full extent across the stacking axis.
#[test]
fn fill_spans_cross_axis() {
    let mut cx = Context::new();
    let a = cx._make_node_with_semantic_size("a", [SemanticSize::Exact(40), SemanticSize::Fill]);
    cx.update_layout([200, 160], 0);
    assert_eq!(cx.node_size(a).computed_size, [40, 160]);
}

// A `ChildrenSum` parent stacking two Exact(40)x10 and Exact(60)x20 children
// vertically computes to [max(40, 60), 10 + 20] == [60, 30].
#[test]
fn children_sum_aggregates() {
    let mut cx = Context::new();
    let parent = cx._make_node_with_semantic_size(
        "box",
        [SemanticSize::ChildrenSum, SemanticSize::ChildrenSum],
    );
    cx.set_axis(parent, Axis::Vertical);
    cx.push_parent(parent);
    cx._make_node_with_semantic_size("one", [SemanticSize::Exact(40), SemanticSize::Exact(10)]);
    cx._make_node_with_semantic_size("two", [SemanticSize::Exact(60), SemanticSize::Exact(20)]);
    cx.pop_parent();
    cx.update_layout([800, 600], 0);
    assert_eq!(cx.node_size(parent).computed_size, [60, 30]);
}

// A `ChildrenSum` node without children computes to zero, not an error.
#[test]
fn children_sum_without_children_is_zero() {
    let mut cx = Context::new();
    let a = cx._make_node_with_semantic_size(
        "empty",
        [SemanticSize::ChildrenSum, SemanticSize::ChildrenSum],
    );
    cx.update_layout([800, 600], 0);
    assert_eq!(cx.node_size(a).computed_size, [0, 0]);
}

// PercentOfParent(50) under a parent of resolved width 200 yields width 100.
#[test]
fn percent_of_resolved_parent() {
    let mut cx = Context::new();
    let parent = cx._make_node_with_semantic_size(
        "panel",
        [SemanticSize::Exact(200), SemanticSize::Exact(100)],
    );
    cx.push_parent(parent);
    let child = cx._make_node_with_semantic_size(
        "half",
        [SemanticSize::PercentOfParent(50), SemanticSize::Exact(10)],
    );
    cx.pop_parent();
    cx.update_layout([800, 600], 0);
    assert_eq!(cx.node_size(child).computed_size[0], 100);
}

// Nested under an intermediate `ChildrenSum` ancestor, a percentage skips it
// and resolves against the next authoritative ancestor: here the root.
#[test]
fn percent_skips_children_sum_ancestor() {
    let mut cx = Context::new();
    let wrap = cx._make_node_with_semantic_size(
        "wrap",
        [SemanticSize::ChildrenSum, SemanticSize::ChildrenSum],
    );
    cx.push_parent(wrap);
    let child = cx._make_node_with_semantic_size(
        "half",
        [SemanticSize::PercentOfParent(50), SemanticSize::Exact(10)],
    );
    cx.pop_parent();
    cx.update_layout([200, 600], 0);
    // half of the root's 200, not of the wrapper's derived size
    assert_eq!(cx.node_size(child).computed_size[0], 100);
}

// Percentages truncate to an integer.
#[test]
fn percent_truncates() {
    let mut cx = Context::new();
    let parent = cx._make_node_with_semantic_size(
        "panel",
        [SemanticSize::Exact(25), SemanticSize::Exact(25)],
    );
    cx.push_parent(parent);
    let child = cx._make_node_with_semantic_size(
        "third",
        [SemanticSize::PercentOfParent(30), SemanticSize::Exact(5)],
    );
    cx.pop_parent();
    cx.update_layout([800, 600], 0);
    // 25 * 30 / 100 == 7.5, truncated to 7
    assert_eq!(cx.node_size(child).computed_size[0], 7);
}

// FitText sizes to the label extent on the monospace grid: glyphs are
// 8 pixels wide and 16 tall.
#[test]
fn fit_text_uses_glyph_grid() {
    let mut cx = Context::new();
    let a = cx.make_node("abcdef");
    cx.update_layout([800, 600], 0);
    assert_eq!(cx.node_size(a).computed_size, [48, 16]);
}

// Siblings pack sequentially along the parent's stacking axis; the cross
// axis keeps the parent's baseline.
#[test]
fn siblings_pack_along_parent_axis() {
    let mut cx = Context::new();
    let a = cx._make_node_with_semantic_size("a", [SemanticSize::Exact(50), SemanticSize::Exact(10)]);
    let b = cx._make_node_with_semantic_size("b", [SemanticSize::Exact(30), SemanticSize::Exact(10)]);
    let c = cx._make_node_with_semantic_size("c", [SemanticSize::Exact(20), SemanticSize::Exact(10)]);
    cx.update_layout([200, 100], 0);
    assert_eq!(cx.node_size(a).computed_pos, [0, 0]);
    assert_eq!(cx.node_size(b).computed_pos, [50, 0]);
    assert_eq!(cx.node_size(c).computed_pos, [80, 0]);
}

// Re-running update_layout twice with identical inputs and no new builder
// calls produces bit-identical geometry.
#[test]
fn relayout_is_idempotent() {
    let mut cx = Context::new();
    let panel = cx._make_node_with_semantic_size(
        "panel",
        [SemanticSize::PercentOfParent(75), SemanticSize::Fill],
    );
    cx.push_parent(panel);
    cx._make_node_with_semantic_size("a", [SemanticSize::Exact(50), SemanticSize::Exact(10)]);
    cx._make_node_with_semantic_size("b", [SemanticSize::Fill, SemanticSize::FitText]);
    let wrap = cx._make_node_with_semantic_size(
        "wrap",
        [SemanticSize::ChildrenSum, SemanticSize::ChildrenSum],
    );
    cx.push_parent(wrap);
    cx.make_node("inner");
    cx.pop_parent();
    cx.pop_parent();

    cx.update_layout([640, 480], 0);
    let first: Vec<([i32; 2], [i32; 2])> = (0..6)
        .map(|i| {
            let s = cx.node_size(i);
            (s.computed_size, s.computed_pos)
        })
        .collect();

    cx.update_layout([640, 480], 0);
    let second: Vec<([i32; 2], [i32; 2])> = (0..6)
        .map(|i| {
            let s = cx.node_size(i);
            (s.computed_size, s.computed_pos)
        })
        .collect();

    assert_eq!(first, second);
}

// After prune() and a fresh builder sequence reusing the same labels and
// parentage, previously computed geometry is available before the new layout
// pass runs, and is overwritten after it runs.
#[test]
fn prune_keeps_continuity_then_layout_overwrites() {
    let mut cx = Context::new();
    let a = cx._make_node_with_semantic_size("a", [SemanticSize::Fill, SemanticSize::Exact(10)]);
    cx.update_layout([200, 100], 0);
    assert_eq!(cx.node_size(a).computed_size, [200, 10]);

    cx.prune();
    // the same call path derives the same key, so the fresh node inherits the
    // cached geometry (and policy) before any layout runs
    let a2 = cx.make_node("a");
    assert_eq!(cx.node_size(a2).computed_size, [200, 10]);

    // and the next layout pass overwrites it
    cx.update_layout([300, 100], 0);
    assert_eq!(cx.node_size(a2).computed_size, [300, 10]);
    let rows = cx.node_iter();
    let entry = rows.iter().find(|d| d.label == "a").expect("entry for a");
    assert_eq!(entry.size.computed_size, [300, 10]);
}

// A node created while a parent is pushed hangs under that parent, and
// pop_parent returns the cursor to the outer level.
#[test]
fn push_and_pop_parent_shape_the_tree() {
    let mut cx = Context::new();
    let a = cx.make_node("a");
    cx.push_parent(a);
    let b = cx.make_node("b");
    cx.pop_parent();
    let c = cx.make_node("c");
    cx.update_layout([100, 100], 0);

    assert_eq!(a, 1);
    assert_eq!(b, 2);
    assert_eq!(c, 3);
    // the iteration walks the root (whose persistent entry carries the
    // default empty label), then a, b, c depth-first
    let rows = cx.node_iter();
    let labels: Vec<&str> = rows.iter().map(|d| d.label.as_str()).collect();
    assert_eq!(labels, vec!["", "a", "b", "c"]);
}

// The persistent walk yields geometry a renderer can draw from.
#[test]
fn node_iter_reports_geometry() {
    let mut cx = Context::new();
    cx._make_node_with_semantic_size("bar", [SemanticSize::Exact(64), SemanticSize::Exact(32)]);
    cx.update_layout([640, 480], 0);
    let rows = cx.node_iter();
    assert_eq!(rows.len(), 2);
    assert_eq!(rows[0].label, "");
    assert_eq!(rows[0].size.computed_size, [640, 480]);
    assert_eq!(rows[1].label, "bar");
    assert_eq!(rows[1].size.computed_size, [64, 32]);
}
