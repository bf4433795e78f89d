//! The planning pipeline: mode, scale, order and position of every monitor.
pub mod layout;
pub mod mode;
pub mod order;
pub mod primary;
pub mod properties;
pub mod scale;

use vstd::prelude::*;
use crate::algo::layout::{arrange, effective_width, effective_width_of, layout_offset, LayoutInput};
use crate::algo::mode::{best_mode, pick_best_mode};
use crate::algo::order::{is_plan_order, plan_order, range_sum, seq_sum};
use crate::algo::scale::{monitor_scale, pick_scale};
use crate::model::{Mode, Monitor, MonitorConfig};

verus! {

/// The mode used when a monitor lists no modes: its current size at 60 Hz.
pub open spec fn fallback_mode(m: Monitor) -> Mode {
    Mode { width: m.width_px, height: m.height_px, refresh_millihz: 60_000 }
}

/// The mode planned for a monitor.
pub open spec fn planned_mode(m: Monitor) -> Mode {
    match best_mode(m.available_modes@, m.preferred_mode) {
        Some(md) => md,
        None => fallback_mode(m),
    }
}

/// The width a monitor takes in the planned row.
pub open spec fn planned_width(m: Monitor) -> int {
    effective_width(planned_mode(m).width, monitor_scale(m))
}

/// Width of the whole planned row.
pub open spec fn planned_row_width(ms: Seq<Monitor>) -> int {
    range_sum(|i: int| planned_width(ms[i]), ms.len() as int)
}

/// x position of entry `k` of a list of configurations laid out in a row:
/// the effective widths of the entries before it, summed.
pub open spec fn row_offset(cfgs: Seq<MonitorConfig>, k: int) -> int
    decreases k,
{
    if k <= 0 {
        0
    } else {
        row_offset(cfgs, k - 1) + effective_width(cfgs[k - 1].mode.width, cfgs[k - 1].scale)
    }
}

/// The configuration planned for monitor `m` placed at `x`.
pub open spec fn planned_config(m: Monitor, x: int) -> MonitorConfig {
    MonitorConfig {
        name: m.name,
        mode: planned_mode(m),
        position: (x as i32, 0i32),
        scale: monitor_scale(m),
        rotation: 0,
        disabled: false,
    }
}

/// `out` is the plan for `ms`: one entry per monitor, in layout order
/// (`is_plan_order`), each with its planned mode and scale, rotation 0,
/// enabled, at `y = 0` and at the x where the entries before it end.
pub open spec fn is_plan(ms: Seq<Monitor>, out: Seq<MonitorConfig>) -> bool {
    &&& out.len() == ms.len()
    &&& exists|perm: Seq<int>|
        is_plan_order(ms, perm) && forall|k: int|
            0 <= k < out.len() ==> #[trigger] out[k] == planned_config(
                ms[perm[k]],
                row_offset(out, k),
            )
}

proof fn lemma_scale_positive(m: Monitor)
    ensures
        monitor_scale(m) >= 1_000_000,
{
}

proof fn lemma_offsets_agree(cfgs: Seq<MonitorConfig>, li: Seq<LayoutInput>, k: int)
    requires
        0 <= k <= cfgs.len(),
        k <= li.len(),
        forall|j: int|
            0 <= j < k ==> (#[trigger] cfgs[j]).mode.width == li[j].mode.width && cfgs[j].scale
                == li[j].scale,
    ensures
        row_offset(cfgs, k) == layout_offset(li, k),
    decreases k,
{
    if k > 0 {
        lemma_offsets_agree(cfgs, li, k - 1);
    }
}

/// Plan configurations for the given monitors: the built-in panel first
/// (eDP/LVDS/DSI), then externals by connector name; each at its best mode
/// and DPI-derived scale, laid out left to right at `y = 0`.
pub fn plan(monitors: &[Monitor]) -> (out: Vec<MonitorConfig>)
    requires
        planned_row_width(monitors@) <= i32::MAX,
    ensures
        is_plan(monitors@, out@),
{
    let ghost f = |i: int| planned_width(monitors@[i]);
    let order = plan_order(monitors, Ghost(f));
    let ghost perm = order@.map_values(|i: usize| i as int);
    let mut prepared: Vec<MonitorConfig> = Vec::new();
    let mut inputs: Vec<LayoutInput> = Vec::new();
    let mut k: usize = 0;
    while k < order.len()
        invariant
            k <= order.len(),
            order.len() == monitors.len(),
            perm == order@.map_values(|i: usize| i as int),
            is_plan_order(monitors@, perm),
            prepared.len() == k,
            inputs.len() == k,
            forall|j: int|
                0 <= j < k ==> #[trigger] prepared[j] == planned_config(
                    monitors@[perm[j]],
                    0,
                ),
            forall|j: int|
                0 <= j < k ==> (#[trigger] inputs[j]).mode == prepared[j].mode && inputs[j].scale
                    == prepared[j].scale && inputs[j].scale > 0,
            layout_offset(inputs@, k as int) == seq_sum(f, perm.subrange(0, k as int)),
            f == (|i: int| planned_width(monitors@[i])),
        decreases order.len() - k,
    {
        let idx = order[k];
        assert(perm[k as int] == idx as int);
        let m = &monitors[idx];
        let chosen = pick_best_mode(m.available_modes.as_slice(), m.preferred_mode);
        let mode = match chosen {
            Some(md) => md,
            None => Mode { width: m.width_px, height: m.height_px, refresh_millihz: 60_000 },
        };
        let scale = pick_scale(m);
        proof {
            lemma_scale_positive(*m);
        }
        prepared.push(
            MonitorConfig {
                name: m.name.clone(),
                mode,
                position: (0, 0),
                scale,
                rotation: 0,
                disabled: false,
            },
        );
        let ghost old_inputs = inputs@;
        inputs.push(LayoutInput { name: m.name.clone(), mode, scale });
        proof {
            let sub = perm.subrange(0, k as int + 1);
            assert(sub.drop_last() =~= perm.subrange(0, k as int));
            assert(sub.last() == idx as int);
            assert(mode == planned_mode(monitors@[idx as int]));
            assert(f(idx as int) == effective_width(mode.width, scale));
            lemma_layout_prefix_gen(inputs@, old_inputs, k as int);
            assert(layout_offset(inputs@, k as int + 1) == layout_offset(inputs@, k as int)
                + effective_width(mode.width, scale));
        }
        k = k + 1;
    }
    proof {
        assert(perm.subrange(0, order.len() as int) =~= perm);
        assert forall|i: int| 0 <= i < inputs@.len() implies #[trigger] inputs@[i].scale > 0 by {
            assert(inputs[i].scale > 0);
        }
    }
    let positions = arrange(inputs.as_slice());
    let mut out: Vec<MonitorConfig> = Vec::new();
    let mut k: usize = 0;
    while k < prepared.len()
        invariant
            k <= prepared.len(),
            prepared.len() == inputs.len(),
            positions.len() == inputs.len(),
            out.len() == k,
            forall|j: int|
                0 <= j < prepared.len() ==> (#[trigger] inputs[j]).mode == prepared[j].mode
                    && inputs[j].scale == prepared[j].scale,
            forall|j: int|
                0 <= j < inputs.len() ==> #[trigger] positions[j] == (
                    layout_offset(inputs@, j) as i32,
                    0i32,
                ),
            forall|j: int|
                0 <= j < k ==> #[trigger] out[j] == (MonitorConfig {
                    position: positions[j],
                    ..prepared[j]
                }),
        decreases prepared.len() - k,
    {
        let p = &prepared[k];
        out.push(
            MonitorConfig {
                name: p.name.clone(),
                mode: p.mode,
                position: positions[k],
                scale: p.scale,
                rotation: p.rotation,
                disabled: p.disabled,
            },
        );
        k = k + 1;
    }
    proof {
        assert forall|k: int| 0 <= k < out.len() implies #[trigger] out@[k] == planned_config(
            monitors@[perm[k]],
            row_offset(out@, k),
        ) by {
            lemma_offsets_agree(out@, inputs@, k);
            assert(out[k] == (MonitorConfig { position: positions[k], ..prepared[k] }));
        }
    }
    out
}

proof fn lemma_layout_prefix_gen(a: Seq<LayoutInput>, b: Seq<LayoutInput>, k: int)
    requires
        0 <= k <= a.len(),
        k <= b.len(),
        forall|j: int| 0 <= j < k ==> a[j] == b[j],
    ensures
        layout_offset(a, k) == layout_offset(b, k),
    decreases k,
{
    if k > 0 {
        lemma_layout_prefix_gen(a, b, k - 1);
    }
}

/// The planned width of one monitor.
fn planned_width_of(m: &Monitor) -> (w: u64)
    ensures
        w == planned_width(*m),
        w <= u32::MAX,
{
    let mode = match pick_best_mode(m.available_modes.as_slice(), m.preferred_mode) {
        Some(md) => md,
        None => Mode { width: m.width_px, height: m.height_px, refresh_millihz: 60_000 },
    };
    let scale = pick_scale(m);
    proof {
        lemma_scale_positive(*m);
        assert(effective_width(mode.width, scale) <= mode.width) by (nonlinear_arith)
            requires
                scale >= 1_000_000,
        ;
    }
    effective_width_of(mode.width, scale)
}

proof fn lemma_range_sum_mono(f: spec_fn(int) -> int, n: int)
    requires
        n >= 0,
        forall|i: int| 0 <= i < n ==> #[trigger] f(i) >= 0,
    ensures
        forall|k: int| 0 <= k <= n ==> 0 <= #[trigger] range_sum(f, k) <= range_sum(f, n),
    decreases n,
{
    if n > 0 {
        lemma_range_sum_mono(f, n - 1);
        assert(f(n - 1) >= 0);
        assert(range_sum(f, n) == range_sum(f, n - 1) + f(n - 1));
    }
}

pub(crate) proof fn lemma_planned_width_nonneg(m: Monitor)
    ensures
        planned_width(m) >= 0,
{
    lemma_scale_positive(m);
    assert(planned_width(m) >= 0) by (nonlinear_arith)
        requires
            monitor_scale(m) >= 1_000_000,
            planned_width(m) == effective_width(planned_mode(m).width, monitor_scale(m)),
    ;
}

/// Whether `plan` can place these monitors: their row fits in `i32`
/// coordinates.
pub fn plan_fits(monitors: &[Monitor]) -> (b: bool)
    ensures
        b == (planned_row_width(monitors@) <= i32::MAX),
{
    let ghost f = |i: int| planned_width(monitors@[i]);
    proof {
        assert forall|i: int| 0 <= i < monitors@.len() implies #[trigger] f(i) >= 0 by {
            lemma_planned_width_nonneg(monitors@[i]);
        }
        lemma_range_sum_mono(f, monitors@.len() as int);
    }
    let mut total: u64 = 0;
    let mut i: usize = 0;
    while i < monitors.len()
        invariant
            i <= monitors.len(),
            f == (|i: int| planned_width(monitors@[i])),
            total == range_sum(f, i as int),
            total <= i32::MAX,
            forall|k: int| 0 <= k <= monitors.len() ==> 0 <= #[trigger] range_sum(f, k) <= range_sum(
                f,
                monitors.len() as int,
            ),
        decreases monitors.len() - i,
    {
        let w = planned_width_of(&monitors[i]);
        proof {
            assert(range_sum(f, i as int + 1) == range_sum(f, i as int) + f(i as int));
        }
        total = total + w;
        if total > i32::MAX as u64 {
            proof {
                assert(planned_row_width(monitors@) == range_sum(f, monitors@.len() as int));
            }
            return false;
        }
        i = i + 1;
    }
    proof {
        assert(planned_row_width(monitors@) == range_sum(f, monitors@.len() as int));
    }
    true
}

} // verus!
