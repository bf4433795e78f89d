//! Left-to-right placement of monitors.
use vstd::prelude::*;
use crate::model::Mode;

verus! {

/// What placement needs to know of one monitor.
pub struct LayoutInput {
    pub name: String,
    pub mode: Mode,
    /// Scale factor in millionths.
    pub scale: u32,
}

/// Width a monitor occupies in the layout: `round(width / scale)`, halves
/// rounded up (scale in millionths, non-zero).
pub open spec fn effective_width(width: u32, scale: u32) -> int {
    (2 * width * 1_000_000 + scale) / (2 * scale)
}

/// Sum of the effective widths of the first `k` inputs: the x position of
/// input `k`.
pub open spec fn layout_offset(inputs: Seq<LayoutInput>, k: int) -> int
    decreases k,
{
    if k <= 0 {
        0
    } else {
        layout_offset(inputs, k - 1) + effective_width(
            inputs[k - 1].mode.width,
            inputs[k - 1].scale,
        )
    }
}

/// Every scale is non-zero and the whole row fits in an `i32`.
pub open spec fn layout_fits(inputs: Seq<LayoutInput>) -> bool {
    &&& forall|i: int| 0 <= i < inputs.len() ==> #[trigger] inputs[i].scale > 0
    &&& layout_offset(inputs, inputs.len() as int) <= i32::MAX
}

/// Offsets grow along the row.
pub proof fn lemma_layout_offset_monotone(inputs: Seq<LayoutInput>, j: int, k: int)
    requires
        0 <= j <= k <= inputs.len(),
        forall|i: int| 0 <= i < inputs.len() ==> #[trigger] inputs[i].scale > 0,
    ensures
        0 <= layout_offset(inputs, j) <= layout_offset(inputs, k),
    decreases k,
{
    if k > 0 {
        if j < k {
            lemma_layout_offset_monotone(inputs, j, k - 1);
        }
        let s = inputs[k - 1].scale;
        let w = inputs[k - 1].mode.width;
        assert(effective_width(w, s) >= 0) by (nonlinear_arith)
            requires
                s > 0,
                w >= 0,
        ;
        if j == k {
            lemma_layout_offset_monotone(inputs, 0, k - 1);
        }
    }
}

/// `round(width / scale)` for a scale in millionths.
pub fn effective_width_of(width: u32, scale: u32) -> (w: u64)
    requires
        scale > 0,
    ensures
        w == effective_width(width, scale),
{
    let num: u64 = 2 * (width as u64) * 1_000_000 + scale as u64;
    num / (2 * scale as u64)
}

/// Given monitors in their desired order, return `(x, y)` for each: all at
/// `y = 0`, extending left-to-right, each starting where the previous one's
/// effective width (`round(mode.width / scale)`) ends.
pub fn arrange(inputs: &[LayoutInput]) -> (positions: Vec<(i32, i32)>)
    requires
        layout_fits(inputs@),
    ensures
        positions.len() == inputs.len(),
        forall|k: int|
            0 <= k < inputs.len() ==> #[trigger] positions[k] == (
                layout_offset(inputs@, k) as i32,
                0i32,
            ),
{
    let mut positions: Vec<(i32, i32)> = Vec::new();
    let mut x: i32 = 0;
    let mut i: usize = 0;
    while i < inputs.len()
        invariant
            i <= inputs.len(),
            layout_fits(inputs@),
            positions.len() == i,
            x == layout_offset(inputs@, i as int),
            forall|k: int|
                0 <= k < i ==> #[trigger] positions[k] == (
                    layout_offset(inputs@, k) as i32,
                    0i32,
                ),
        decreases inputs.len() - i,
    {
        positions.push((x, 0));
        assert(inputs@[i as int].scale > 0);
        let w = effective_width_of(inputs[i].mode.width, inputs[i].scale);
        proof {
            lemma_layout_offset_monotone(inputs@, i as int + 1, inputs.len() as int);
            lemma_layout_offset_monotone(inputs@, i as int, i as int + 1);
            assert(layout_offset(inputs@, i as int + 1) == x + w);
        }
        x = x + w as i32;
        i = i + 1;
    }
    positions
}

} // verus!
