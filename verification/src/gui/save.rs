//! Checking an edited layout before it is saved, and the command applying
//! it.
use vstd::prelude::*;
use crate::gui::app::{EditableMonitor, EditableView};
use crate::model::{batch_text, hz_text, keyword_batch, Mode, MonitorConfig};
use crate::text::{nat_digits, push_u64};

verus! {

/// The chosen mode is one of the monitor's available modes.
pub open spec fn mode_listed(e: EditableView) -> bool {
    e.available_modes.contains(e.chosen_mode)
}

pub open spec fn rotation_valid(r: u16) -> bool {
    r == 0 || r == 90 || r == 180 || r == 270
}

/// What is wrong with one monitor on its own, as the message shown.
pub open spec fn monitor_problem(e: EditableView) -> Option<Seq<char>> {
    if !mode_listed(e) {
        Some(
            e.connector_hint + ": mode "@ + nat_digits(e.chosen_mode.width as nat) + seq!['x']
                + nat_digits(e.chosen_mode.height as nat) + seq!['@'] + hz_text(
                e.chosen_mode.refresh_millihz,
            ) + " not in available modes"@,
        )
    } else if !rotation_valid(e.rotation) {
        Some(
            e.connector_hint + ": rotation must be 0/90/180/270 (got "@ + nat_digits(
                e.rotation as nat,
            ) + ")"@,
        )
    } else {
        None
    }
}

/// The first monitor problem, in editor order.
pub open spec fn first_problem(es: Seq<EditableView>) -> Option<Seq<char>>
    decreases es.len(),
{
    if es.len() == 0 {
        None
    } else {
        match first_problem(es.drop_last()) {
            Some(p) => Some(p),
            None => monitor_problem(es.last()),
        }
    }
}

/// A side of a monitor's rectangle: `len / scale` truncated, saturating at
/// `i32::MAX` (`0` for `0 / 0`).
pub open spec fn truncated_size(len: u32, scale: u32) -> int {
    if scale == 0 {
        if len == 0 {
            0
        } else {
            i32::MAX as int
        }
    } else {
        let v = (len * 1_000_000) / (scale as int);
        if v > i32::MAX {
            i32::MAX as int
        } else {
            v
        }
    }
}

/// The on-screen rectangle of an enabled monitor.
pub struct Rect {
    pub idx: usize,
    pub x0: i32,
    pub y0: i32,
    pub x1: i32,
    pub y1: i32,
}

/// Width and height on screen, swapped for a quarter turn.
pub open spec fn rect_size(e: EditableView) -> (int, int) {
    let w = truncated_size(e.chosen_mode.width, e.scale);
    let h = truncated_size(e.chosen_mode.height, e.scale);
    if e.rotation == 90 || e.rotation == 270 {
        (h, w)
    } else {
        (w, h)
    }
}

/// The rectangle of `es[i]` fits in `i32` coordinates.
pub open spec fn rect_fits(e: EditableView) -> bool {
    let (w, h) = rect_size(e);
    &&& e.position.0 + w <= i32::MAX
    &&& e.position.1 + h <= i32::MAX
}

/// Rectangles of the enabled monitors, in editor order.
pub open spec fn active_rects(es: Seq<EditableView>) -> Seq<(int, int, int, int, int)>
    decreases es.len(),
{
    if es.len() == 0 {
        Seq::empty()
    } else {
        let e = es.last();
        let (w, h) = rect_size(e);
        active_rects(es.drop_last()) + if e.disabled {
            Seq::empty()
        } else {
            seq![(es.len() - 1, e.position.0 as int, e.position.1 as int, e.position.0 + w, e.position.1 + h)]
        }
    }
}

/// A side computed from a mode length and a scale in millionths is that
/// length over the scale, truncated toward zero, capped at `i32::MAX`.
pub proof fn lemma_truncated_size_bounds(len: u32, scale: u32)
    requires
        scale > 0,
    ensures
        0 <= truncated_size(len, scale) <= i32::MAX,
        truncated_size(len, scale) < i32::MAX ==> truncated_size(len, scale) * scale <= len * 1_000_000
            < (truncated_size(len, scale) + 1) * scale,
        truncated_size(len, scale) == i32::MAX ==> i32::MAX * scale <= len * 1_000_000,
{
    let n = len * 1_000_000;
    let q = n / (scale as int);
    vstd::arithmetic::div_mod::lemma_fundamental_div_mod(n, scale as int);
    vstd::arithmetic::div_mod::lemma_mod_bound(n, scale as int);
    let r = n % (scale as int);
    assert(q >= 0) by {
        vstd::arithmetic::div_mod::lemma_div_pos_is_pos(n, scale as int);
    }
    assert(q * scale <= n < (q + 1) * scale) by (nonlinear_arith)
        requires
            n == scale * q + r,
            0 <= r < scale,
    ;
    if q > i32::MAX {
        assert(i32::MAX * scale <= n) by (nonlinear_arith)
            requires
                q * scale <= n,
                q > i32::MAX,
                scale > 0,
        ;
    }
}

/// What a quarter turn does to a monitor's rectangle: rotated 90 or 270
/// degrees it is as wide as it is tall unrotated and as tall as it is wide;
/// any other rotation leaves the rectangle as it is. Unrotated, the width
/// comes from the mode's width and the height from the mode's height, each
/// divided by the scale (truncated, capped at `i32::MAX`).
pub proof fn lemma_rect_size_quarter_turn(e: EditableView)
    ensures
        ({
            let flat = rect_size(EditableView { rotation: 0, ..e });
            &&& (e.rotation == 90 || e.rotation == 270) ==> rect_size(e) == (flat.1, flat.0)
            &&& !(e.rotation == 90 || e.rotation == 270) ==> rect_size(e) == flat
            &&& e.scale > 0 ==> {
                &&& 0 <= flat.0 <= i32::MAX
                &&& 0 <= flat.1 <= i32::MAX
                &&& flat.0 < i32::MAX ==> flat.0 * e.scale <= e.chosen_mode.width * 1_000_000 < (flat.0
                    + 1) * e.scale
                &&& flat.1 < i32::MAX ==> flat.1 * e.scale <= e.chosen_mode.height * 1_000_000 < (flat.1
                    + 1) * e.scale
                &&& flat.0 == i32::MAX ==> i32::MAX * e.scale <= e.chosen_mode.width * 1_000_000
                &&& flat.1 == i32::MAX ==> i32::MAX * e.scale <= e.chosen_mode.height * 1_000_000
            }
        }),
{
    if e.scale > 0 {
        lemma_truncated_size_bounds(e.chosen_mode.width, e.scale);
        lemma_truncated_size_bounds(e.chosen_mode.height, e.scale);
    }
}

/// Two rectangles `(idx, x0, y0, x1, y1)` share interior points.
pub open spec fn overlaps(a: (int, int, int, int, int), b: (int, int, int, int, int)) -> bool {
    a.1 < b.3 && b.1 < a.3 && a.2 < b.4 && b.2 < a.4
}

/// The first overlapping pair `(i, j)`, `i < j`, scanning from `(i, j)` in
/// order of `i` then `j`.
pub open spec fn first_overlap_from(act: Seq<(int, int, int, int, int)>, i: int, j: int) -> Option<(int, int)>
    decreases act.len() - i, act.len() + 1 - j,
{
    if i >= act.len() || i < 0 {
        None
    } else if j >= act.len() {
        first_overlap_from(act, i + 1, i + 2)
    } else if j <= i {
        None
    } else if overlaps(act[i], act[j]) {
        Some((i, j))
    } else {
        first_overlap_from(act, i, j + 1)
    }
}

/// The message `validate` gives for a layout, or `None` when it is valid:
/// the first monitor problem; else the first pair of enabled monitors whose
/// rectangles overlap.
pub open spec fn layout_problem(es: Seq<EditableView>) -> Option<Seq<char>> {
    match first_problem(es) {
        Some(p) => Some(p),
        None => {
            let act = active_rects(es);
            match first_overlap_from(act, 0, 1) {
                Some((i, j)) => Some(
                    es[act[i].0].connector_hint + " overlaps "@ + es[act[j].0].connector_hint,
                ),
                None => None,
            }
        },
    }
}

fn truncated_size_of(len: u32, scale: u32) -> (v: i32)
    ensures
        v == truncated_size(len, scale),
        v >= 0,
{
    if scale == 0 {
        if len == 0 {
            0
        } else {
            i32::MAX
        }
    } else {
        let v = (len as u64 * 1_000_000) / scale as u64;
        if v > i32::MAX as u64 {
            i32::MAX
        } else {
            v as i32
        }
    }
}

fn problem_of(e: &EditableMonitor) -> (r: Option<String>)
    ensures
        (match r {
            Some(s) => Some(s@),
            None => None,
        }) == monitor_problem(e@),
{
    let mut found = false;
    let mut k: usize = 0;
    while k < e.available_modes.len()
        invariant
            k <= e.available_modes.len(),
            found == e.available_modes@.subrange(0, k as int).contains(e.chosen_mode),
        decreases e.available_modes.len() - k,
    {
        let am = e.available_modes[k];
        proof {
            let t = e.available_modes@.subrange(0, k as int + 1);
            assert(t =~= e.available_modes@.subrange(0, k as int).push(am));
            if !found && am == e.chosen_mode {
                assert(t[k as int] == e.chosen_mode);
            }
            if found {
                let q = choose|q: int| 0 <= q < k && e.available_modes@.subrange(0, k as int)[q] == e.chosen_mode;
                assert(t[q] == e.chosen_mode);
            }
            if !found && am != e.chosen_mode {
                assert forall|q: int| 0 <= q < t.len() implies t[q] != e.chosen_mode by {
                    if q < k {
                        assert(t[q] == e.available_modes@.subrange(0, k as int)[q]);
                    }
                }
            }
        }
        if am.width == e.chosen_mode.width && am.height == e.chosen_mode.height
            && am.refresh_millihz == e.chosen_mode.refresh_millihz {
            found = true;
        }
        k = k + 1;
    }
    proof {
        assert(e.available_modes@.subrange(0, e.available_modes.len() as int) =~= e.available_modes@);
    }
    if !found {
        let mut s = String::new();
        s.append(e.connector_hint.as_str());
        s.append(": mode ");
        push_u64(&mut s, e.chosen_mode.width as u64);
        proof {
            reveal_strlit("x");
            reveal_strlit("@");
        }
        s.append("x");
        push_u64(&mut s, e.chosen_mode.height as u64);
        s.append("@");
        let hz = crate::model::format_hz(e.chosen_mode.refresh_millihz);
        s.append(hz.as_str());
        s.append(" not in available modes");
        return Some(s);
    }
    let r = e.rotation;
    if !(r == 0 || r == 90 || r == 180 || r == 270) {
        let mut s = String::new();
        s.append(e.connector_hint.as_str());
        s.append(": rotation must be 0/90/180/270 (got ");
        push_u64(&mut s, r as u64);
        s.append(")");
        return Some(s);
    }
    None
}

/// Check a layout before saving: every chosen mode must be one of the
/// monitor's available modes and every rotation a quarter turn (the first
/// offending monitor is reported); then no two enabled monitors may
/// overlap (the first overlapping pair is reported; disabled monitors are
/// ignored).
pub fn validate(monitors: &[EditableMonitor]) -> (r: Result<(), String>)
    requires
        first_problem(monitors@.map_values(|e: EditableMonitor| e@)) is None ==> forall|i: int|
            0 <= i < monitors@.len() && !monitors@[i].disabled ==> rect_fits(
                #[trigger] monitors@[i]@,
            ),
    ensures
        (match r {
            Ok(()) => None,
            Err(s) => Some(s@),
        }) == layout_problem(monitors@.map_values(|e: EditableMonitor| e@)),
{
    let ghost es = monitors@.map_values(|e: EditableMonitor| e@);
    let mut i: usize = 0;
    while i < monitors.len()
        invariant
            i <= monitors.len(),
            es == monitors@.map_values(|e: EditableMonitor| e@),
            first_problem(es.subrange(0, i as int)) is None,
        decreases monitors.len() - i,
    {
        let p = problem_of(&monitors[i]);
        proof {
            let t = es.subrange(0, i as int + 1);
            assert(t.drop_last() =~= es.subrange(0, i as int));
            assert(t.last() == monitors@[i as int]@);
        }
        match p {
            Some(msg) => {
                proof {
                    lemma_first_problem_extend(es, i as int + 1, es.len() as int);
                    assert(es.subrange(0, es.len() as int) =~= es);
                }
                return Err(msg);
            },
            None => {},
        }
        i = i + 1;
    }
    proof {
        assert(es.subrange(0, es.len() as int) =~= es);
    }
    let mut act: Vec<Rect> = Vec::new();
    let mut i: usize = 0;
    while i < monitors.len()
        invariant
            i <= monitors.len(),
            es == monitors@.map_values(|e: EditableMonitor| e@),
            first_problem(es) is None,
            forall|q: int|
                0 <= q < monitors@.len() && !monitors@[q].disabled ==> rect_fits(
                    #[trigger] monitors@[q]@,
                ),
            act@.map_values(|r: Rect| (r.idx as int, r.x0 as int, r.y0 as int, r.x1 as int, r.y1 as int))
                == active_rects(es.subrange(0, i as int)),
        decreases monitors.len() - i,
    {
        let m = &monitors[i];
        let ghost before = act@;
        proof {
            let t = es.subrange(0, i as int + 1);
            assert(t.drop_last() =~= es.subrange(0, i as int));
            assert(t.last() == m@);
        }
        if !m.disabled {
            let w = truncated_size_of(m.chosen_mode.width, m.scale);
            let h = truncated_size_of(m.chosen_mode.height, m.scale);
            let (ew, eh) = if m.rotation == 90 || m.rotation == 270 {
                (h, w)
            } else {
                (w, h)
            };
            proof {
                assert(rect_fits(monitors@[i as int]@));
            }
            act.push(
                Rect {
                    idx: i,
                    x0: m.position.0,
                    y0: m.position.1,
                    x1: m.position.0 + ew,
                    y1: m.position.1 + eh,
                },
            );
        }
        assert(act@.map_values(|r: Rect| (r.idx as int, r.x0 as int, r.y0 as int, r.x1 as int, r.y1 as int))
            =~= active_rects(es.subrange(0, i as int + 1)));
        i = i + 1;
    }
    proof {
        assert(es.subrange(0, es.len() as int) =~= es);
    }
    let ghost av = act@.map_values(|r: Rect| (r.idx as int, r.x0 as int, r.y0 as int, r.x1 as int, r.y1 as int));
    proof {
        lemma_active_idx(es);
    }
    let mut i: usize = 0;
    while i < act.len()
        invariant
            i <= act.len(),
            av == act@.map_values(|r: Rect| (r.idx as int, r.x0 as int, r.y0 as int, r.x1 as int, r.y1 as int)),
            av == active_rects(es),
            es.len() == monitors.len(),
            es == monitors@.map_values(|e: EditableMonitor| e@),
            first_problem(es) is None,
            forall|k: int| 0 <= k < av.len() ==> 0 <= #[trigger] av[k].0 < es.len(),
            first_overlap_from(av, 0, 1) == first_overlap_from(av, i as int, i + 1),
        decreases act.len() - i,
    {
        let mut j: usize = i + 1;
        while j < act.len()
            invariant
                i < act.len(),
                i + 1 <= j <= act.len(),
                es.len() == monitors.len(),
                es == monitors@.map_values(|e: EditableMonitor| e@),
                first_problem(es) is None,
                av == active_rects(es),
                forall|k: int| 0 <= k < av.len() ==> 0 <= #[trigger] av[k].0 < es.len(),
                av == act@.map_values(|r: Rect| (r.idx as int, r.x0 as int, r.y0 as int, r.x1 as int, r.y1 as int)),
                first_overlap_from(av, 0, 1) == first_overlap_from(av, i as int, j as int),
            decreases act.len() - j,
        {
            let a = &act[i];
            let b = &act[j];
            proof {
                assert(av[i as int] == (a.idx as int, a.x0 as int, a.y0 as int, a.x1 as int, a.y1 as int));
                assert(av[j as int] == (b.idx as int, b.x0 as int, b.y0 as int, b.x1 as int, b.y1 as int));
            }
            if a.x0 < b.x1 && b.x0 < a.x1 && a.y0 < b.y1 && b.y0 < a.y1 {
                proof {
                    assert(a.idx < monitors.len()) by {
                        assert(0 <= av[i as int].0 < es.len());
                    }
                    assert(b.idx < monitors.len()) by {
                        assert(0 <= av[j as int].0 < es.len());
                    }
                }
                let mut s = String::new();
                s.append(monitors[a.idx].connector_hint.as_str());
                s.append(" overlaps ");
                s.append(monitors[b.idx].connector_hint.as_str());
                return Err(s);
            }
            j = j + 1;
        }
        i = i + 1;
    }
    Ok(())
}

proof fn lemma_first_problem_extend(es: Seq<EditableView>, i: int, j: int)
    requires
        0 < i <= j <= es.len(),
        first_problem(es.subrange(0, i)) is Some,
    ensures
        first_problem(es.subrange(0, j)) == first_problem(es.subrange(0, i)),
    decreases j,
{
    if j > i {
        lemma_first_problem_extend(es, i, j - 1);
        assert(es.subrange(0, j).drop_last() =~= es.subrange(0, j - 1));
    }
}

proof fn lemma_active_idx(es: Seq<EditableView>)
    ensures
        forall|k: int|
            0 <= k < active_rects(es).len() ==> 0 <= #[trigger] active_rects(es)[k].0 < es.len(),
    decreases es.len(),
{
    if es.len() > 0 {
        let prev = active_rects(es.drop_last());
        lemma_active_idx(es.drop_last());
        assert forall|k: int| 0 <= k < active_rects(es).len() implies 0 <= #[trigger] active_rects(
            es,
        )[k].0 < es.len() by {
            if k < prev.len() {
                assert(active_rects(es)[k] == prev[k]);
            }
        }
    }
}

/// Whether every enabled monitor's rectangle fits in `i32` coordinates,
/// as `validate` needs.
pub fn rects_fit(monitors: &[EditableMonitor]) -> (b: bool)
    ensures
        b == forall|i: int|
            0 <= i < monitors@.len() && !monitors@[i].disabled ==> rect_fits(#[trigger] monitors@[i]@),
{
    let mut i: usize = 0;
    while i < monitors.len()
        invariant
            i <= monitors.len(),
            forall|k: int| 0 <= k < i && !monitors@[k].disabled ==> rect_fits(#[trigger] monitors@[k]@),
        decreases monitors.len() - i,
    {
        let m = &monitors[i];
        if !m.disabled {
            let w = truncated_size_of(m.chosen_mode.width, m.scale);
            let h = truncated_size_of(m.chosen_mode.height, m.scale);
            let (ew, eh) = if m.rotation == 90 || m.rotation == 270 {
                (h, w)
            } else {
                (w, h)
            };
            if m.position.0 as i64 + ew as i64 > i32::MAX as i64 || m.position.1 as i64 + eh as i64 > i32::MAX as i64 {
                assert(!rect_fits(monitors@[i as int]@));
                return false;
            }
        }
        i = i + 1;
    }
    true
}

/// The configuration a monitor of the editor is applied with.
pub open spec fn applied_config(e: EditableView, name: String) -> MonitorConfig {
    MonitorConfig {
        name,
        mode: e.chosen_mode,
        position: e.position,
        scale: e.scale,
        rotation: e.rotation,
        disabled: e.disabled,
    }
}

/// The `hyprctl --batch` argument applying every monitor of the editor,
/// disabled ones included (they render as `NAME,disable`).
pub fn batch_command(monitors: &[EditableMonitor]) -> (s: String)
    ensures
        exists|cfgs: Seq<MonitorConfig>|
            s@ == batch_text(cfgs) && cfgs.len() == monitors@.len() && forall|k: int|
                0 <= k < cfgs.len() ==> #[trigger] cfgs[k] == applied_config(
                    monitors@[k]@,
                    cfgs[k].name,
                ) && cfgs[k].name@ == monitors@[k].connector_hint@,
{
    let mut cfgs: Vec<MonitorConfig> = Vec::new();
    let mut i: usize = 0;
    while i < monitors.len()
        invariant
            i <= monitors.len(),
            cfgs.len() == i,
            forall|k: int|
                0 <= k < i ==> #[trigger] cfgs@[k] == applied_config(monitors@[k]@, cfgs@[k].name)
                    && cfgs@[k].name@ == monitors@[k].connector_hint@,
        decreases monitors.len() - i,
    {
        let m = &monitors[i];
        cfgs.push(
            MonitorConfig {
                name: m.connector_hint.clone(),
                mode: m.chosen_mode,
                position: m.position,
                scale: m.scale,
                rotation: m.rotation,
                disabled: m.disabled,
            },
        );
        i = i + 1;
    }
    keyword_batch(cfgs.as_slice())
}

/// The rectangle entry `active_rects` gives monitor `i` of `es`.
pub open spec fn rect_of(es: Seq<EditableView>, i: int) -> (int, int, int, int, int) {
    let e = es[i];
    let (w, h) = rect_size(e);
    (i, e.position.0 as int, e.position.1 as int, e.position.0 + w, e.position.1 + h)
}

proof fn lemma_active_rects_shape(es: Seq<EditableView>)
    ensures
        forall|p: int|
            #![trigger active_rects(es)[p]]
            0 <= p < active_rects(es).len() ==> {
                &&& 0 <= active_rects(es)[p].0 < es.len()
                &&& !es[active_rects(es)[p].0].disabled
                &&& active_rects(es)[p] == rect_of(es, active_rects(es)[p].0)
            },
        forall|p: int, q: int|
            0 <= p < q < active_rects(es).len() ==> #[trigger] active_rects(es)[p].0
                < #[trigger] active_rects(es)[q].0,
        forall|i: int|
            0 <= i < es.len() && !#[trigger] es[i].disabled ==> exists|p: int|
                0 <= p < active_rects(es).len() && #[trigger] active_rects(es)[p].0 == i,
    decreases es.len(),
{
    if es.len() > 0 {
        let init = es.drop_last();
        lemma_active_rects_shape(init);
        let prev = active_rects(init);
        let cur = active_rects(es);
        assert forall|i: int| 0 <= i < init.len() implies rect_of(init, i) == rect_of(es, i) by {
            assert(init[i] == es[i]);
        }
        assert forall|p: int| #![trigger cur[p]] 0 <= p < cur.len() implies {
            &&& 0 <= cur[p].0 < es.len()
            &&& !es[cur[p].0].disabled
            &&& cur[p] == rect_of(es, cur[p].0)
        } by {
            if p < prev.len() {
                assert(cur[p] == prev[p]);
                assert(init[prev[p].0] == es[prev[p].0]);
            } else {
                assert(cur[p] == rect_of(es, es.len() - 1));
            }
        }
        assert forall|p: int, q: int| 0 <= p < q < cur.len() implies #[trigger] cur[p].0 < #[trigger] cur[q].0 by {
            if q < prev.len() {
                assert(cur[p] == prev[p] && cur[q] == prev[q]);
            } else {
                assert(cur[p] == prev[p]);
            }
        }
        assert forall|i: int| 0 <= i < es.len() && !#[trigger] es[i].disabled implies exists|p: int|
            0 <= p < cur.len() && #[trigger] cur[p].0 == i by {
            if i < init.len() {
                assert(init[i] == es[i]);
                assert(!init[i].disabled);
                let p = choose|p: int| 0 <= p < prev.len() && #[trigger] prev[p].0 == i;
                assert(cur[p] == prev[p]);
            } else {
                assert(cur[prev.len() as int] == rect_of(es, es.len() - 1));
            }
        }
    }
}

proof fn lemma_no_overlap_from(act: Seq<(int, int, int, int, int)>, i: int, j: int)
    requires
        0 <= i < j,
        first_overlap_from(act, i, j) is None,
    ensures
        forall|p: int, q: int|
            (i < p < q < act.len() || (p == i && j <= q < act.len())) ==> !overlaps(#[trigger] act[p], #[trigger] act[q]),
    decreases act.len() - i, act.len() + 1 - j,
{
    if i < act.len() {
        if j >= act.len() {
            lemma_no_overlap_from(act, i + 1, i + 2);
        } else {
            lemma_no_overlap_from(act, i, j + 1);
        }
    }
}

proof fn lemma_overlap_found(act: Seq<(int, int, int, int, int)>, i: int, j: int)
    requires
        0 <= i < j,
    ensures
        first_overlap_from(act, i, j) matches Some((p, q)) ==> 0 <= p < q < act.len() && overlaps(act[p], act[q]),
    decreases act.len() - i, act.len() + 1 - j,
{
    if i < act.len() {
        if j >= act.len() {
            lemma_overlap_found(act, i + 1, i + 2);
        } else {
            lemma_overlap_found(act, i, j + 1);
        }
    }
}

proof fn lemma_first_problem_none(es: Seq<EditableView>)
    ensures
        first_problem(es) is None <==> forall|i: int| 0 <= i < es.len() ==> (#[trigger] monitor_problem(es[i])) is None,
    decreases es.len(),
{
    if es.len() > 0 {
        let init = es.drop_last();
        lemma_first_problem_none(init);
        assert forall|i: int| 0 <= i < init.len() implies init[i] == es[i] by {}
        if first_problem(es) is None {
            assert forall|i: int| 0 <= i < es.len() implies (#[trigger] monitor_problem(es[i])) is None by {
                if i < init.len() {
                    assert(monitor_problem(init[i]) is None);
                } else {
                    assert(es[i] == es.last());
                }
            }
        }
        if forall|i: int| 0 <= i < es.len() ==> (#[trigger] monitor_problem(es[i])) is None {
            assert forall|i: int| 0 <= i < init.len() implies (#[trigger] monitor_problem(init[i])) is None by {
                assert(monitor_problem(es[i]) is None);
            }
            assert(monitor_problem(es[es.len() - 1]) is None);
        }
    }
}

/// `es2` is `es` with some monitors removed and some others disabled,
/// nothing else changed: `f` maps each monitor of `es2` to where it stands
/// in `es`, in order.
pub open spec fn kept_or_disabled(es: Seq<EditableView>, es2: Seq<EditableView>, f: Seq<int>) -> bool {
    &&& f.len() == es2.len()
    &&& forall|k: int| 0 <= k < f.len() ==> 0 <= #[trigger] f[k] < es.len()
    &&& forall|a: int, b: int| 0 <= a < b < f.len() ==> #[trigger] f[a] < #[trigger] f[b]
    &&& forall|k: int|
        0 <= k < es2.len() ==> {
            &&& #[trigger] es2[k] == (EditableView { disabled: es2[k].disabled, ..es[f[k]] })
            &&& es[f[k]].disabled ==> es2[k].disabled
        }
}

/// Removing monitors from an accepted layout, or disabling some, never
/// makes `validate` reject it.
pub proof fn lemma_validate_survives_removing_or_disabling(
    es: Seq<EditableView>,
    es2: Seq<EditableView>,
    f: Seq<int>,
)
    requires
        layout_problem(es) is None,
        kept_or_disabled(es, es2, f),
    ensures
        layout_problem(es2) is None,
{
    lemma_first_problem_none(es);
    lemma_first_problem_none(es2);
    assert forall|k: int| 0 <= k < es2.len() implies (#[trigger] monitor_problem(es2[k])) is None by {
        assert(monitor_problem(es[f[k]]) is None);
        assert(es2[k] == (EditableView { disabled: es2[k].disabled, ..es[f[k]] }));
    }
    let act = active_rects(es);
    let act2 = active_rects(es2);
    lemma_active_rects_shape(es);
    lemma_active_rects_shape(es2);
    lemma_no_overlap_from(act, 0, 1);
    assert forall|p: int, q: int| 0 <= p < q < act2.len() implies !overlaps(#[trigger] act2[p], #[trigger] act2[q]) by {
        let k1 = act2[p].0;
        let k2 = act2[q].0;
        assert(k1 < k2);
        assert(es2[k1] == (EditableView { disabled: es2[k1].disabled, ..es[f[k1]] }));
        assert(es2[k2] == (EditableView { disabled: es2[k2].disabled, ..es[f[k2]] }));
        assert(!es[f[k1]].disabled && !es[f[k2]].disabled);
        let p2 = choose|p2: int| 0 <= p2 < act.len() && #[trigger] act[p2].0 == f[k1];
        let q2 = choose|q2: int| 0 <= q2 < act.len() && #[trigger] act[q2].0 == f[k2];
        assert(f[k1] < f[k2]);
        if q2 < p2 {
            assert(act[q2].0 < act[p2].0);
        }
        assert(p2 != q2);
        assert(p2 < q2);
        assert(!overlaps(act[p2], act[q2]));
        assert(act[p2] == rect_of(es, f[k1]));
        assert(act[q2] == rect_of(es, f[k2]));
        assert(act2[p] == rect_of(es2, k1));
        assert(act2[q] == rect_of(es2, k2));
    }
    lemma_overlap_found(act2, 0, 1);
}

} // verus!
