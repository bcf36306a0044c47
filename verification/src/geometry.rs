//! Sizing policies, axes, per-node layout state, and the saturating pixel
//! arithmetic the layout engine computes with.

use vstd::prelude::*;

verus! {

/// Width in pixels of one glyph cell of the fixed-width UI font.
pub const FONT_WIDTH: usize = 8;

/// Height in pixels of one glyph cell of the fixed-width UI font.
pub const FONT_HEIGHT: usize = 16;

/// The axis along which a container stacks its children.
#[derive(Clone, Copy, Debug, PartialEq, Eq, Structural)]
pub enum Axis {
    Horizontal,
    Vertical,
}

/// A declared sizing policy for one spatial axis of a node, resolved to a
/// pixel value by the layout engine.
#[derive(Clone, Copy, Debug, PartialEq, Eq, Structural)]
pub enum SemanticSize {
    /// Size to the rendered extent of the node's label, on a monospace grid.
    FitText,
    /// Size to the sum (main axis) or maximum (cross axis) of the children.
    ChildrenSum,
    /// Consume leftover space, divided evenly among the `Fill` siblings.
    Fill,
    /// A fixed pixel size.
    Exact(i32),
    /// A percentage of the nearest ancestor whose size on this axis is not
    /// itself derived from its children.
    PercentOfParent(i32),
}

/// Per-node layout state: the stacking axis for the node's children, the
/// declared policy per spatial axis, and the computed pixel geometry.
#[derive(Clone, Copy, Debug)]
pub struct Size {
    pub axis: Axis,
    pub semantic_size: [SemanticSize; 2],
    pub computed_size: [i32; 2],
    pub computed_pos: [i32; 2],
}

/// The spec-level index of an axis into the per-axis arrays.
pub open spec fn axis_ix(a: Axis) -> int {
    match a {
        Axis::Horizontal => 0,
        Axis::Vertical => 1,
    }
}

/// Executable counterpart of [`axis_ix`].
pub fn axis_index(a: Axis) -> (i: usize)
    ensures
        i == axis_ix(a),
        i < 2,
{
    match a {
        Axis::Horizontal => 0,
        Axis::Vertical => 1,
    }
}

/// What a `Size` looks like before any policy is declared or any layout has
/// run: horizontal stacking, `FitText` on both axes, zero geometry.
pub open spec fn is_default_size(s: Size) -> bool {
    &&& s.axis == Axis::Horizontal
    &&& s.semantic_size@[0] == SemanticSize::FitText
    &&& s.semantic_size@[1] == SemanticSize::FitText
    &&& s.computed_size@[0] == 0
    &&& s.computed_size@[1] == 0
    &&& s.computed_pos@[0] == 0
    &&& s.computed_pos@[1] == 0
}

impl Default for Axis {
    fn default() -> (r: Self)
        ensures
            r == Axis::Horizontal,
    {
        Axis::Horizontal
    }
}

impl Default for SemanticSize {
    fn default() -> (r: Self)
        ensures
            r == SemanticSize::FitText,
    {
        SemanticSize::FitText
    }
}

impl Default for Size {
    fn default() -> (r: Self)
        ensures
            is_default_size(r),
    {
        Size {
            axis: Axis::Horizontal,
            semantic_size: [SemanticSize::FitText, SemanticSize::FitText],
            computed_size: [0, 0],
            computed_pos: [0, 0],
        }
    }
}

/// Clamps a mathematical integer into the `i32` range.
pub open spec fn clamp_i32(x: int) -> int {
    if x < i32::MIN as int {
        i32::MIN as int
    } else if x > i32::MAX as int {
        i32::MAX as int
    } else {
        x
    }
}

/// Saturating addition on pixel values.
pub open spec fn sat_add_i32(a: int, b: int) -> int {
    clamp_i32(a + b)
}

/// Saturating subtraction on pixel values.
pub open spec fn sat_sub_i32(a: int, b: int) -> int {
    clamp_i32(a - b)
}

/// Division truncating towards zero, as Rust's `/` does; meaningful for a
/// positive divisor.
pub open spec fn div_towards_zero(a: int, b: int) -> int
    recommends
        b > 0,
{
    if a >= 0 {
        a / b
    } else {
        -((-a) / b)
    }
}

/// `percent` percent of `base`, truncated to an integer and clamped to the
/// `i32` range.
pub open spec fn percent_of(base: int, percent: int) -> int {
    clamp_i32(div_towards_zero(base * percent, 100))
}

/// The monospace-grid extent of a label of `len` glyphs at `glyph` pixels
/// per glyph, clamped to the `i32` range.
pub open spec fn text_extent(len: int, glyph: int) -> int {
    clamp_i32(len * glyph)
}

/// Saturating `i32` addition.
pub fn sat_add(a: i32, b: i32) -> (r: i32)
    ensures
        r as int == sat_add_i32(a as int, b as int),
{
    match a.checked_add(b) {
        Some(v) => v,
        None => {
            if b >= 0 {
                i32::MAX
            } else {
                i32::MIN
            }
        },
    }
}

/// Saturating `i32` subtraction.
pub fn sat_sub(a: i32, b: i32) -> (r: i32)
    ensures
        r as int == sat_sub_i32(a as int, b as int),
{
    match a.checked_sub(b) {
        Some(v) => v,
        None => {
            if b >= 0 {
                i32::MIN
            } else {
                i32::MAX
            }
        },
    }
}

/// `i32` division truncating towards zero; the divisor must be positive, so
/// the result always fits.
pub fn div_trunc(a: i32, n: i32) -> (r: i32)
    requires
        n > 0,
    ensures
        r as int == div_towards_zero(a as int, n as int),
{
    if a >= 0 {
        ((a as u32) / (n as u32)) as i32
    } else {
        let m: u64 = (-(a as i64)) as u64;
        let q: u64 = m / (n as u64);
        proof {
            assert(q <= m);
        }
        (-(q as i64)) as i32
    }
}

/// The larger of two `i32` values.
pub fn max_i32(a: i32, b: i32) -> (r: i32)
    ensures
        r as int == if a as int > b as int {
            a as int
        } else {
            b as int
        },
{
    if a > b {
        a
    } else {
        b
    }
}

/// `percent` percent of `base`, truncated towards zero and clamped to the
/// `i32` range.
pub fn percent_value(base: i32, percent: i32) -> (r: i32)
    ensures
        r as int == percent_of(base as int, percent as int),
{
    proof {
        assert((base as int) * (percent as int) <= 0x8000_0000 * 0x8000_0000
            && (base as int) * (percent as int) >= -0x8000_0000 * 0x8000_0000)
            by (nonlinear_arith)
            requires
                -0x8000_0000 <= base as int <= 0x7fff_ffff,
                -0x8000_0000 <= percent as int <= 0x7fff_ffff,
        ;
    }
    let prod: i64 = (base as i64) * (percent as i64);
    let q: i64 = if prod >= 0 {
        ((prod as u64) / 100) as i64
    } else {
        let m: u64 = (-prod) as u64;
        proof {
            assert(m / 100 <= m);
        }
        -((m / 100) as i64)
    };
    if q > (i32::MAX as i64) {
        i32::MAX
    } else if q < (i32::MIN as i64) {
        i32::MIN
    } else {
        q as i32
    }
}

/// The `FitText` extent of a label of `len` glyphs at `glyph` pixels each.
pub fn text_extent_value(len: usize, glyph: usize) -> (r: i32)
    requires
        glyph <= 16,
    ensures
        r as int == text_extent(len as int, glyph as int),
{
    match len.checked_mul(glyph) {
        Some(v) => {
            if v > (i32::MAX as usize) {
                i32::MAX
            } else {
                v as i32
            }
        },
        None => i32::MAX,
    }
}

} // verus!
