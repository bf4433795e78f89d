//! Geometry of the editor canvas: monitor footprints, the bounds of the
//! layout, and snapping monitors' edges to their neighbours.
//!
//! Sizes are exact fractions: a side of `len` pixels at scale `s`
//! (millionths) is `len * 1_000_000 / s` pixels.
use vstd::prelude::*;
use crate::algo::properties::{lemma_permutation_covers, lemma_sorted_same_elements_equal};
use crate::gui::app::{views, EditableMonitor, EditableView};

verus! {

/// Snap distance while dragging.
pub const SNAP_PX_DRAG: i32 = 20;

/// Snap distance when aligning the whole layout.
pub const SNAP_PX_ALIGN: i32 = 200;

/// Numerators of the on-screen width and height of a monitor, over the
/// denominator `e.scale`; swapped for a quarter turn.
pub open spec fn footprint_num(e: EditableView) -> (int, int) {
    let w = e.chosen_mode.width * 1_000_000;
    let h = e.chosen_mode.height * 1_000_000;
    if e.rotation == 90 || e.rotation == 270 {
        (h, w)
    } else {
        (w, h)
    }
}

/// Effective on-screen size of a monitor, accounting for rotation, as
/// numerators over the denominator `m.scale`.
pub fn footprint(m: &EditableMonitor) -> (r: (u64, u64))
    ensures
        r.0 == footprint_num(m@).0,
        r.1 == footprint_num(m@).1,
{
    let w = m.chosen_mode.width as u64 * 1_000_000;
    let h = m.chosen_mode.height as u64 * 1_000_000;
    if m.rotation == 90 || m.rotation == 270 {
        (h, w)
    } else {
        (w, h)
    }
}

/// `n / d` rounded to the nearest integer, halves away from zero (`d > 0`).
pub open spec fn round_div(n: int, d: int) -> int {
    if n >= 0 {
        (2 * n + d) / (2 * d)
    } else {
        -((-2 * n + d) / (2 * d))
    }
}

/// `n / d` truncated towards zero (`d > 0`).
pub open spec fn trunc_div(n: int, d: int) -> int {
    if n >= 0 {
        n / d
    } else {
        -((-n) / d)
    }
}

/// `v` clamped into the `i32` range (a saturating float-to-int cast).
pub open spec fn sat_i32(v: int) -> int {
    if v > i32::MAX {
        i32::MAX as int
    } else if v < i32::MIN {
        i32::MIN as int
    } else {
        v
    }
}

/// The float-to-int cast of a far edge of a zero-scale monitor: a side of
/// `len / 0` pixels is infinite (clamped to `i32::MAX`) for a non-zero
/// length and undefined (cast to 0) for a zero one.
pub open spec fn zero_scale_edge(side_num: int) -> int {
    if side_num > 0 {
        i32::MAX as int
    } else {
        0
    }
}

/// The right and bottom edges of a monitor, truncated and clamped.
pub open spec fn far_corner(e: EditableView) -> (int, int) {
    let s = e.scale as int;
    let (w, h) = footprint_num(e);
    if s == 0 {
        (zero_scale_edge(w), zero_scale_edge(h))
    } else {
        (sat_i32(trunc_div(e.position.0 * s + w, s)), sat_i32(trunc_div(e.position.1 * s + h, s)))
    }
}

/// `(min_x, min_y, max_x, max_y)` over the monitors, disabled ones
/// included (starting from the extreme values for none).
pub open spec fn bounds_of(es: Seq<EditableView>) -> (int, int, int, int)
    decreases es.len(),
{
    if es.len() == 0 {
        (i32::MAX as int, i32::MAX as int, i32::MIN as int, i32::MIN as int)
    } else {
        let b = bounds_of(es.drop_last());
        let e = es.last();
        let (x1, y1) = far_corner(e);
        (
            if e.position.0 < b.0 { e.position.0 as int } else { b.0 },
            if e.position.1 < b.1 { e.position.1 as int } else { b.1 },
            if x1 > b.2 { x1 } else { b.2 },
            if y1 > b.3 { y1 } else { b.3 },
        )
    }
}

/// The layout's bounds; `(0, 0, 1920, 1080)` for no monitors, and also when
/// the least x is `i32::MAX` (nothing to frame).
pub open spec fn world_bounds_spec(es: Seq<EditableView>) -> (int, int, int, int) {
    if es.len() == 0 || bounds_of(es).0 == i32::MAX {
        (0, 0, 1920, 1080)
    } else {
        bounds_of(es)
    }
}

fn trunc_div_exec(n: i128, d: i128) -> (q: i128)
    requires
        d > 0,
        -0x1000_0000_0000_0000_0000_0000_0000 <= n <= 0x1000_0000_0000_0000_0000_0000_0000,
    ensures
        q == trunc_div(n as int, d as int),
{
    if n >= 0 {
        n / d
    } else {
        -((-n) / d)
    }
}

fn sat_i32_exec(v: i128) -> (r: i32)
    ensures
        r == sat_i32(v as int),
{
    if v > i32::MAX as i128 {
        i32::MAX
    } else if v < i32::MIN as i128 {
        i32::MIN
    } else {
        v as i32
    }
}

fn far_corner_exec(m: &EditableMonitor) -> (r: (i32, i32))
    ensures
        r.0 == far_corner(m@).0,
        r.1 == far_corner(m@).1,
{
    let (w, h) = footprint(m);
    if m.scale == 0 {
        let x = if w > 0 { i32::MAX } else { 0 };
        let y = if h > 0 { i32::MAX } else { 0 };
        return (x, y);
    }
    let s = m.scale as i128;
    assert(-0x8000_0000 * s <= m.position.0 * s <= 0x7FFF_FFFF * s) by (nonlinear_arith)
        requires
            -0x8000_0000 <= m.position.0 <= 0x7FFF_FFFF,
            s > 0,
    ;
    assert(-0x8000_0000 * s <= m.position.1 * s <= 0x7FFF_FFFF * s) by (nonlinear_arith)
        requires
            -0x8000_0000 <= m.position.1 <= 0x7FFF_FFFF,
            s > 0,
    ;
    let x = trunc_div_exec(m.position.0 as i128 * s + w as i128, s);
    let y = trunc_div_exec(m.position.1 as i128 * s + h as i128, s);
    (sat_i32_exec(x), sat_i32_exec(y))
}

/// Bounding box `(min_x, min_y, max_x, max_y)` of all monitors in world
/// coordinates, disabled ones included so they stay visible and clickable.
pub fn world_bounds(monitors: &[EditableMonitor]) -> (r: (i32, i32, i32, i32))
    ensures
        (r.0 as int, r.1 as int, r.2 as int, r.3 as int) == world_bounds_spec(
            monitors@.map_values(|e: EditableMonitor| e@),
        ),
{
    let ghost es = monitors@.map_values(|e: EditableMonitor| e@);
    if monitors.len() == 0 {
        return (0, 0, 1920, 1080);
    }
    let mut min_x = i32::MAX;
    let mut min_y = i32::MAX;
    let mut max_x = i32::MIN;
    let mut max_y = i32::MIN;
    let mut i: usize = 0;
    while i < monitors.len()
        invariant
            i <= monitors.len(),
            es == monitors@.map_values(|e: EditableMonitor| e@),
            (min_x as int, min_y as int, max_x as int, max_y as int) == bounds_of(
                es.subrange(0, i as int),
            ),
        decreases monitors.len() - i,
    {
        let m = &monitors[i];
        proof {
            let t = es.subrange(0, i as int + 1);
            assert(t.drop_last() =~= es.subrange(0, i as int));
            assert(t.last() == m@);
        }
        let (x1, y1) = far_corner_exec(m);
        if m.position.0 < min_x {
            min_x = m.position.0;
        }
        if m.position.1 < min_y {
            min_y = m.position.1;
        }
        if x1 > max_x {
            max_x = x1;
        }
        if y1 > max_y {
            max_y = y1;
        }
        i = i + 1;
    }
    proof {
        assert(es.subrange(0, es.len() as int) =~= es);
    }
    if min_x == i32::MAX {
        return (0, 0, 1920, 1080);
    }
    (min_x, min_y, max_x, max_y)
}

/// One snap candidate: the distance `b - a` (two edges, numerators over
/// `d`), rounded and clamped like a float-to-int cast.
pub open spec fn candidate(a: int, b: int, d: int) -> int {
    sat_i32(round_div(b - a, d))
}

/// Keep the candidate `c` when it is within `snap` and strictly closer than
/// the best so far.
pub open spec fn consider(best: Option<int>, c: int, snap: int) -> Option<int> {
    let ac = if c < 0 { -c } else { c };
    if ac <= snap && match best {
        None => true,
        Some(b) => ac < (if b < 0 { -b } else { b }),
    } {
        Some(c)
    } else {
        best
    }
}

/// Horizontal candidates of `me` against `o`, in the order they are tried:
/// my right to its left, my left to its right, left to left, right to
/// right. The vertical ones likewise with top and bottom.
pub open spec fn edge_candidates(me: EditableView, o: EditableView, horizontal: bool) -> Seq<int> {
    let d = (me.scale as int) * (o.scale as int);
    let (mw, mh) = footprint_num(me);
    let (ow, oh) = footprint_num(o);
    let (mp, op, ms, os) = if horizontal {
        (me.position.0 as int, o.position.0 as int, mw, ow)
    } else {
        (me.position.1 as int, o.position.1 as int, mh, oh)
    };
    let me_lo = mp * d;
    let me_hi = mp * d + ms * (o.scale as int);
    let o_lo = op * d;
    let o_hi = op * d + os * (me.scale as int);
    seq![
        candidate(me_hi, o_lo, d),
        candidate(me_lo, o_hi, d),
        candidate(me_lo, o_lo, d),
        candidate(me_hi, o_hi, d),
    ]
}

/// The four candidates on one axis in every case, a zero scale included.
/// A zero-scale monitor's far edge is `len / 0` pixels away: infinite for a
/// non-zero length, undefined for a zero one. As with the float cast, a
/// distance of plus or minus infinity clamps to `i32::MAX` / `i32::MIN`,
/// and an undefined one (infinity minus infinity, or anything undefined)
/// casts to 0. The near edges stay exact.
pub open spec fn snap_candidates(me: EditableView, o: EditableView, horizontal: bool) -> Seq<int> {
    if me.scale > 0 && o.scale > 0 {
        edge_candidates(me, o, horizontal)
    } else {
        let (mw, mh) = footprint_num(me);
        let (ow, oh) = footprint_num(o);
        let (mp, op, msz, osz) = if horizontal {
            (me.position.0 as int, o.position.0 as int, mw, ow)
        } else {
            (me.position.1 as int, o.position.1 as int, mh, oh)
        };
        let near = sat_i32(op - mp);
        let ms = me.scale as int;
        let os = o.scale as int;
        let me_far_off = if msz > 0 { i32::MIN as int } else { 0 };
        let o_far_off = if osz > 0 { i32::MAX as int } else { 0 };
        if ms == 0 && os == 0 {
            seq![me_far_off, o_far_off, near, 0]
        } else if ms == 0 {
            seq![me_far_off, sat_i32(round_div(op * os + osz - mp * os, os)), near, me_far_off]
        } else {
            seq![sat_i32(round_div(op * ms - mp * ms - msz, ms)), o_far_off, near, o_far_off]
        }
    }
}

/// Consider every candidate of `cands` in order.
pub open spec fn consider_all(best: Option<int>, cands: Seq<int>, snap: int) -> Option<int>
    decreases cands.len(),
{
    if cands.len() == 0 {
        best
    } else {
        consider(consider_all(best, cands.drop_last(), snap), cands.last(), snap)
    }
}

/// Best snap of monitor `idx` along one axis against the enabled monitors
/// among the first `j`.
pub open spec fn best_snap(es: Seq<EditableView>, idx: int, snap: int, horizontal: bool, j: int) -> Option<int>
    decreases j,
{
    if j <= 0 {
        None
    } else {
        let prev = best_snap(es, idx, snap, horizontal, j - 1);
        if j - 1 == idx || es[j - 1].disabled {
            prev
        } else {
            consider_all(prev, snap_candidates(es[idx], es[j - 1], horizontal), snap)
        }
    }
}

/// Nothing in snapping monitor `idx` overflows: no candidate distance
/// clamps to `i32::MIN` (whose magnitude has no `i32`), and the snapped
/// position stays an `i32`.
pub open spec fn snap_safe(es: Seq<EditableView>, idx: int, snap: int) -> bool {
    &&& forall|j: int, k: int|
        0 <= j < es.len() && j != idx && !es[j].disabled && 0 <= k < 4 ==> {
            &&& #[trigger] snap_candidates(es[idx], es[j], true)[k] != i32::MIN
            &&& #[trigger] snap_candidates(es[idx], es[j], false)[k] != i32::MIN
        }
    &&& match best_snap(es, idx, snap, true, es.len() as int) {
        Some(dx) => i32::MIN <= es[idx].position.0 + dx <= i32::MAX,
        None => true,
    }
    &&& match best_snap(es, idx, snap, false, es.len() as int) {
        Some(dy) => i32::MIN <= es[idx].position.1 + dy <= i32::MAX,
        None => true,
    }
}

/// The monitors after snapping monitor `idx`: it moves by the best snap on
/// each axis, if any; nothing else changes.
pub open spec fn snapped(es: Seq<EditableView>, idx: int, snap: int) -> Seq<EditableView> {
    let e = es[idx];
    let x = match best_snap(es, idx, snap, true, es.len() as int) {
        Some(dx) => e.position.0 + dx,
        None => e.position.0 as int,
    };
    let y = match best_snap(es, idx, snap, false, es.len() as int) {
        Some(dy) => e.position.1 + dy,
        None => e.position.1 as int,
    };
    es.update(idx, EditableView { position: (x as i32, y as i32), ..e })
}

fn round_div_exec(n: i128, d: i128) -> (q: i128)
    requires
        d > 0,
        -0x1000_0000_0000_0000_0000_0000_0000 <= n <= 0x1000_0000_0000_0000_0000_0000_0000,
        d <= 0x1_0000_0000_0000_0000,
    ensures
        q == round_div(n as int, d as int),
{
    if n >= 0 {
        (2 * n + d) / (2 * d)
    } else {
        let m = -n;
        let q = (2 * m + d) / (2 * d);
        assert(q <= 2 * m + d) by (nonlinear_arith)
            requires
                q == (2 * m + d) / (2 * d),
                d > 0,
                m > 0,
        ;
        -q
    }
}

proof fn lemma_consider_four(b: Option<int>, s: Seq<int>, snap: int)
    requires
        s.len() == 4,
    ensures
        consider_all(b, s, snap) == consider(
            consider(consider(consider(b, s[0], snap), s[1], snap), s[2], snap),
            s[3],
            snap,
        ),
{
    let s3 = s.drop_last();
    let s2 = s3.drop_last();
    let s1 = s2.drop_last();
    let s0 = s1.drop_last();
    assert(s0.len() == 0);
    assert(consider_all(b, s0, snap) == b);
    assert(s1.last() == s[0]);
    assert(s2.last() == s[1]);
    assert(s3.last() == s[2]);
    assert(consider_all(b, s1, snap) == consider(b, s[0], snap));
    assert(consider_all(b, s2, snap) == consider(consider(b, s[0], snap), s[1], snap));
    assert(consider_all(b, s3, snap) == consider(consider(consider(b, s[0], snap), s[1], snap), s[2], snap));
    assert(s.last() == s[3]);
}

fn consider_exec(best: Option<i32>, c: i32, snap: i32) -> (r: Option<i32>)
    requires
        c != i32::MIN,
        best matches Some(b) ==> b != i32::MIN,
    ensures
        (match r {
            Some(v) => Some(v as int),
            None => None,
        }) == consider(
            match best {
                Some(b) => Some(b as int),
                None => None,
            },
            c as int,
            snap as int,
        ),
        r matches Some(v) ==> v != i32::MIN,
{
    let ac = if c < 0 { -c } else { c };
    let closer = match best {
        None => true,
        Some(b) => ac < (if b < 0 { -b } else { b }),
    };
    if ac <= snap && closer {
        Some(c)
    } else {
        best
    }
}

proof fn lemma_mul_pos_bound(p: int, d: int)
    requires
        -0x8000_0000 <= p <= 0x8000_0000,
        0 < d <= 0x1_0000_0000_0000_0000,
    ensures
        -0x8000_0000 * 0x1_0000_0000_0000_0000 <= p * d <= 0x8000_0000 * 0x1_0000_0000_0000_0000,
{
    assert(-0x8000_0000 * 0x1_0000_0000_0000_0000 <= p * d <= 0x8000_0000 * 0x1_0000_0000_0000_0000)
        by (nonlinear_arith)
        requires
            -0x8000_0000 <= p <= 0x8000_0000,
            0 < d <= 0x1_0000_0000_0000_0000,
    ;
}

proof fn lemma_mul_size_bound(f: int, s: int)
    requires
        0 <= f <= 0x1_0000_0000 * 1_000_000,
        0 <= s <= 0x1_0000_0000,
    ensures
        0 <= f * s <= 0x1_0000_0000 * 1_000_000 * 0x1_0000_0000,
{
    assert(0 <= f * s <= 0x1_0000_0000 * 1_000_000 * 0x1_0000_0000) by (nonlinear_arith)
        requires
            0 <= f <= 0x1_0000_0000 * 1_000_000,
            0 <= s <= 0x1_0000_0000,
    ;
}

proof fn lemma_bounds(m: EditableView, o: EditableView)
    requires
        m.scale > 0,
        o.scale > 0,
    ensures
        0 < (m.scale as int) * (o.scale as int) <= 0x1_0000_0000_0000_0000,
        -0x8000_0000 * 0x1_0000_0000_0000_0000 <= m.position.0 * ((m.scale as int) * (o.scale as int)) <= 0x8000_0000 * 0x1_0000_0000_0000_0000,
        -0x8000_0000 * 0x1_0000_0000_0000_0000 <= m.position.1 * ((m.scale as int) * (o.scale as int)) <= 0x8000_0000 * 0x1_0000_0000_0000_0000,
        -0x8000_0000 * 0x1_0000_0000_0000_0000 <= o.position.0 * ((m.scale as int) * (o.scale as int)) <= 0x8000_0000 * 0x1_0000_0000_0000_0000,
        -0x8000_0000 * 0x1_0000_0000_0000_0000 <= o.position.1 * ((m.scale as int) * (o.scale as int)) <= 0x8000_0000 * 0x1_0000_0000_0000_0000,
        0 <= footprint_num(m).0 * (o.scale as int) <= 0x1_0000_0000 * 1_000_000 * 0x1_0000_0000,
        0 <= footprint_num(m).1 * (o.scale as int) <= 0x1_0000_0000 * 1_000_000 * 0x1_0000_0000,
        0 <= footprint_num(o).0 * (m.scale as int) <= 0x1_0000_0000 * 1_000_000 * 0x1_0000_0000,
        0 <= footprint_num(o).1 * (m.scale as int) <= 0x1_0000_0000 * 1_000_000 * 0x1_0000_0000,
{
    let d = (m.scale as int) * (o.scale as int);
    assert(0 < d <= 0x1_0000_0000_0000_0000) by (nonlinear_arith)
        requires
            0 < m.scale <= 0xFFFF_FFFF,
            0 < o.scale <= 0xFFFF_FFFF,
            d == (m.scale as int) * (o.scale as int),
    ;
    lemma_mul_pos_bound(m.position.0 as int, d);
    lemma_mul_pos_bound(m.position.1 as int, d);
    lemma_mul_pos_bound(o.position.0 as int, d);
    lemma_mul_pos_bound(o.position.1 as int, d);
    lemma_mul_size_bound(footprint_num(m).0, o.scale as int);
    lemma_mul_size_bound(footprint_num(m).1, o.scale as int);
    lemma_mul_size_bound(footprint_num(o).0, m.scale as int);
    lemma_mul_size_bound(footprint_num(o).1, m.scale as int);
}

/// The four candidates of `me` against `o` on one axis.
fn edge_candidates_exec(me: &EditableMonitor, o: &EditableMonitor, horizontal: bool) -> (r: [i32; 4])
    requires
        me.scale > 0,
        o.scale > 0,
    ensures
        r@.map_values(|v: i32| v as int) == edge_candidates(me@, o@, horizontal),
{
    proof {
        lemma_bounds(me@, o@);
    }
    let d = me.scale as i128 * o.scale as i128;
    let (mw, mh) = footprint(me);
    let (ow, oh) = footprint(o);
    let (mp, op, msz, osz) = if horizontal {
        (me.position.0 as i128, o.position.0 as i128, mw as i128, ow as i128)
    } else {
        (me.position.1 as i128, o.position.1 as i128, mh as i128, oh as i128)
    };
    let me_lo = mp * d;
    let me_hi = mp * d + msz * o.scale as i128;
    let o_lo = op * d;
    let o_hi = op * d + osz * me.scale as i128;
    let c0 = sat_i32_exec(round_div_exec(o_lo - me_hi, d));
    let c1 = sat_i32_exec(round_div_exec(o_hi - me_lo, d));
    let c2 = sat_i32_exec(round_div_exec(o_lo - me_lo, d));
    let c3 = sat_i32_exec(round_div_exec(o_hi - me_hi, d));
    let r = [c0, c1, c2, c3];
    assert(r@.map_values(|v: i32| v as int) =~= edge_candidates(me@, o@, horizontal));
    r
}

/// The four candidates of `me` against `o` on one axis, zero scales
/// included.
fn snap_candidates_exec(me: &EditableMonitor, o: &EditableMonitor, horizontal: bool) -> (r: [i32; 4])
    ensures
        r@.map_values(|v: i32| v as int) == snap_candidates(me@, o@, horizontal),
{
    if me.scale > 0 && o.scale > 0 {
        return edge_candidates_exec(me, o, horizontal);
    }
    let (mw, mh) = footprint(me);
    let (ow, oh) = footprint(o);
    let (mp, op, msz, osz) = if horizontal {
        (me.position.0 as i128, o.position.0 as i128, mw as i128, ow as i128)
    } else {
        (me.position.1 as i128, o.position.1 as i128, mh as i128, oh as i128)
    };
    let near = sat_i32_exec(op - mp);
    let ms = me.scale as i128;
    let os = o.scale as i128;
    let me_far_off: i32 = if msz > 0 {
        i32::MIN
    } else {
        0
    };
    let o_far_off: i32 = if osz > 0 {
        i32::MAX
    } else {
        0
    };
    let r = if ms == 0 && os == 0 {
        [me_far_off, o_far_off, near, 0]
    } else if ms == 0 {
        proof {
            lemma_mul_pos_bound(op as int, os as int);
            lemma_mul_pos_bound(mp as int, os as int);
        }
        let c1 = sat_i32_exec(round_div_exec(op * os + osz - mp * os, os));
        [me_far_off, c1, near, me_far_off]
    } else {
        proof {
            lemma_mul_pos_bound(op as int, ms as int);
            lemma_mul_pos_bound(mp as int, ms as int);
        }
        let c0 = sat_i32_exec(round_div_exec(op * ms - mp * ms - msz, ms));
        [c0, o_far_off, near, o_far_off]
    };
    assert(r@.map_values(|v: i32| v as int) =~= snap_candidates(me@, o@, horizontal));
    r
}

/// Snap monitor `idx`'s edges to the nearest edges of the other enabled
/// monitors: on each axis independently it moves by the candidate distance
/// of smallest magnitude within `snap_px` (the first such found, trying the
/// monitors in order and, for each, far-to-near edge, near-to-far,
/// near-to-near, far-to-far), if any.
pub fn apply_snap_with(monitors: &mut Vec<EditableMonitor>, idx: usize, snap_px: i32)
    requires
        idx < old(monitors)@.len(),
        snap_safe(old(monitors)@.map_values(|e: EditableMonitor| e@), idx as int, snap_px as int),
    ensures
        final(monitors)@.map_values(|e: EditableMonitor| e@) == snapped(
            old(monitors)@.map_values(|e: EditableMonitor| e@),
            idx as int,
            snap_px as int,
        ),
{
    let ghost es = monitors@.map_values(|e: EditableMonitor| e@);
    let mut best_dx: Option<i32> = None;
    let mut best_dy: Option<i32> = None;
    let mut j: usize = 0;
    while j < monitors.len()
        invariant
            j <= monitors.len(),
            idx < monitors.len(),
            es == monitors@.map_values(|e: EditableMonitor| e@),
            snap_safe(es, idx as int, snap_px as int),
            (match best_dx {
                Some(v) => Some(v as int),
                None => None,
            }) == best_snap(es, idx as int, snap_px as int, true, j as int),
            (match best_dy {
                Some(v) => Some(v as int),
                None => None,
            }) == best_snap(es, idx as int, snap_px as int, false, j as int),
            best_dx matches Some(v) ==> v != i32::MIN,
            best_dy matches Some(v) ==> v != i32::MIN,
        decreases monitors.len() - j,
    {
        let other = &monitors[j];
        if j != idx && !other.disabled {
            let me = &monitors[idx];
            proof {
                assert(es[idx as int] == me@);
                assert(es[j as int] == other@);
            }
            let cx = snap_candidates_exec(me, other, true);
            let cy = snap_candidates_exec(me, other, false);
            proof {
                let ex = snap_candidates(es[idx as int], es[j as int], true);
                let ey = snap_candidates(es[idx as int], es[j as int], false);
                assert(ex[0] != i32::MIN && ex[1] != i32::MIN && ex[2] != i32::MIN && ex[3] != i32::MIN);
                assert(ey[0] != i32::MIN && ey[1] != i32::MIN && ey[2] != i32::MIN && ey[3] != i32::MIN);
                lemma_consider_four(best_snap(es, idx as int, snap_px as int, true, j as int), ex, snap_px as int);
                lemma_consider_four(best_snap(es, idx as int, snap_px as int, false, j as int), ey, snap_px as int);
                assert(cx[0] as int == ex[0]);
                assert(cx[1] as int == ex[1]);
                assert(cx[2] as int == ex[2]);
                assert(cx[3] as int == ex[3]);
                assert(cy[0] as int == ey[0]);
                assert(cy[1] as int == ey[1]);
                assert(cy[2] as int == ey[2]);
                assert(cy[3] as int == ey[3]);
            }
            best_dx = consider_exec(best_dx, cx[0], snap_px);
            best_dx = consider_exec(best_dx, cx[1], snap_px);
            best_dx = consider_exec(best_dx, cx[2], snap_px);
            best_dx = consider_exec(best_dx, cx[3], snap_px);
            best_dy = consider_exec(best_dy, cy[0], snap_px);
            best_dy = consider_exec(best_dy, cy[1], snap_px);
            best_dy = consider_exec(best_dy, cy[2], snap_px);
            best_dy = consider_exec(best_dy, cy[3], snap_px);
        }
        j = j + 1;
    }
    let mut m = monitors[idx].clone();
    proof {
        assert(es[idx as int] == m@);
    }
    if let Some(dx) = best_dx {
        m.position.0 = m.position.0 + dx;
    }
    if let Some(dy) = best_dy {
        m.position.1 = m.position.1 + dy;
    }
    monitors.set(idx, m);
    proof {
        assert(monitors@.map_values(|e: EditableMonitor| e@) =~= snapped(es, idx as int, snap_px as int));
    }
}

/// Snap while dragging: within `SNAP_PX_DRAG`.
pub fn apply_snap(monitors: &mut Vec<EditableMonitor>, idx: usize)
    requires
        idx < old(monitors)@.len(),
        snap_safe(old(monitors)@.map_values(|e: EditableMonitor| e@), idx as int, SNAP_PX_DRAG as int),
    ensures
        final(monitors)@.map_values(|e: EditableMonitor| e@) == snapped(
            old(monitors)@.map_values(|e: EditableMonitor| e@),
            idx as int,
            SNAP_PX_DRAG as int,
        ),
{
    apply_snap_with(monitors, idx, SNAP_PX_DRAG);
}

/// Whether snapping monitor `idx` within `snap_px` stays in range
/// (`snap_safe`).
fn snap_safe_exec(monitors: &Vec<EditableMonitor>, idx: usize, snap_px: i32) -> (b: bool)
    requires
        idx < monitors@.len(),
    ensures
        b == snap_safe(views(monitors@), idx as int, snap_px as int),
{
    let ghost es = views(monitors@);
    let mut best_dx: Option<i32> = None;
    let mut best_dy: Option<i32> = None;
    let mut j: usize = 0;
    while j < monitors.len()
        invariant
            j <= monitors.len(),
            idx < monitors.len(),
            es == views(monitors@),
            forall|q: int, k: int|
                0 <= q < j && q != idx && !es[q].disabled && 0 <= k < 4
                    ==> #[trigger] snap_candidates(es[idx as int], es[q], true)[k] != i32::MIN,
            forall|q: int, k: int|
                0 <= q < j && q != idx && !es[q].disabled && 0 <= k < 4
                    ==> #[trigger] snap_candidates(es[idx as int], es[q], false)[k] != i32::MIN,
            (match best_dx {
                Some(v) => Some(v as int),
                None => None,
            }) == best_snap(es, idx as int, snap_px as int, true, j as int),
            (match best_dy {
                Some(v) => Some(v as int),
                None => None,
            }) == best_snap(es, idx as int, snap_px as int, false, j as int),
            best_dx matches Some(v) ==> v != i32::MIN,
            best_dy matches Some(v) ==> v != i32::MIN,
        decreases monitors.len() - j,
    {
        let other = &monitors[j];
        if j != idx && !other.disabled {
            let me = &monitors[idx];
            proof {
                assert(es[idx as int] == me@);
                assert(es[j as int] == other@);
            }
            let cx = snap_candidates_exec(me, other, true);
            let cy = snap_candidates_exec(me, other, false);
            let ghost ex = snap_candidates(es[idx as int], es[j as int], true);
            let ghost ey = snap_candidates(es[idx as int], es[j as int], false);
            proof {
                assert(cx[0] as int == ex[0] && cx[1] as int == ex[1] && cx[2] as int == ex[2] && cx[3] as int == ex[3]);
                assert(cy[0] as int == ey[0] && cy[1] as int == ey[1] && cy[2] as int == ey[2] && cy[3] as int == ey[3]);
            }
            if cx[0] == i32::MIN || cx[1] == i32::MIN || cx[2] == i32::MIN || cx[3] == i32::MIN
                || cy[0] == i32::MIN || cy[1] == i32::MIN || cy[2] == i32::MIN || cy[3] == i32::MIN {
                proof {
                    let jj = j as int;
                    assert(0 <= jj < es.len() && jj != idx && !es[jj].disabled);
                    if cx[0] == i32::MIN || cy[0] == i32::MIN {
                        assert(snap_candidates(es[idx as int], es[jj], true)[0] == i32::MIN
                            || snap_candidates(es[idx as int], es[jj], false)[0] == i32::MIN);
                    } else if cx[1] == i32::MIN || cy[1] == i32::MIN {
                        assert(snap_candidates(es[idx as int], es[jj], true)[1] == i32::MIN
                            || snap_candidates(es[idx as int], es[jj], false)[1] == i32::MIN);
                    } else if cx[2] == i32::MIN || cy[2] == i32::MIN {
                        assert(snap_candidates(es[idx as int], es[jj], true)[2] == i32::MIN
                            || snap_candidates(es[idx as int], es[jj], false)[2] == i32::MIN);
                    } else {
                        assert(snap_candidates(es[idx as int], es[jj], true)[3] == i32::MIN
                            || snap_candidates(es[idx as int], es[jj], false)[3] == i32::MIN);
                    }
                }
                return false;
            }
            proof {
                assert forall|k: int| 0 <= k < 4 implies ex[k] != i32::MIN && ey[k] != i32::MIN by {
                    if k == 0 {} else if k == 1 {} else if k == 2 {} else {}
                }
                lemma_consider_four(best_snap(es, idx as int, snap_px as int, true, j as int), ex, snap_px as int);
                lemma_consider_four(best_snap(es, idx as int, snap_px as int, false, j as int), ey, snap_px as int);
            }
            best_dx = consider_exec(best_dx, cx[0], snap_px);
            best_dx = consider_exec(best_dx, cx[1], snap_px);
            best_dx = consider_exec(best_dx, cx[2], snap_px);
            best_dx = consider_exec(best_dx, cx[3], snap_px);
            best_dy = consider_exec(best_dy, cy[0], snap_px);
            best_dy = consider_exec(best_dy, cy[1], snap_px);
            best_dy = consider_exec(best_dy, cy[2], snap_px);
            best_dy = consider_exec(best_dy, cy[3], snap_px);
        }
        proof {
            assert forall|q: int, k: int|
                0 <= q < j + 1 && q != idx && !es[q].disabled && 0 <= k < 4 implies
                    #[trigger] snap_candidates(es[idx as int], es[q], true)[k] != i32::MIN
                    && snap_candidates(es[idx as int], es[q], false)[k] != i32::MIN by {
                if q < j {
                    assert(snap_candidates(es[idx as int], es[q], true)[k] != i32::MIN);
                    assert(snap_candidates(es[idx as int], es[q], false)[k] != i32::MIN);
                } else {
                    assert(es[j as int] == monitors@[j as int]@);
                    assert(j != idx);
                    assert(!monitors@[j as int].disabled);
                    assert(snap_candidates(es[idx as int], es[q], true)[k] != i32::MIN);
                    assert(snap_candidates(es[idx as int], es[q], false)[k] != i32::MIN);
                }
            }
        }
        j = j + 1;
    }
    let me = &monitors[idx];
    assert(es[idx as int] == me@);
    let x_ok = match best_dx {
        Some(dx) => {
            let x = me.position.0 as i64 + dx as i64;
            i32::MIN as i64 <= x && x <= i32::MAX as i64
        },
        None => true,
    };
    let y_ok = match best_dy {
        Some(dy) => {
            let y = me.position.1 as i64 + dy as i64;
            i32::MIN as i64 <= y && y <= i32::MAX as i64
        },
        None => true,
    };
    x_ok && y_ok
}

/// Snap monitor `idx` as `apply_snap_with` does, when that stays in range;
/// otherwise leave the monitors unchanged and return `false`.
pub fn try_apply_snap_with(monitors: &mut Vec<EditableMonitor>, idx: usize, snap_px: i32) -> (done: bool)
    requires
        idx < old(monitors)@.len(),
    ensures
        done == snap_safe(views(old(monitors)@), idx as int, snap_px as int),
        done ==> views(final(monitors)@) == snapped(views(old(monitors)@), idx as int, snap_px as int),
        !done ==> final(monitors)@ == old(monitors)@,
{
    if snap_safe_exec(monitors, idx, snap_px) {
        apply_snap_with(monitors, idx, snap_px);
        true
    } else {
        false
    }
}

/// `i` comes before `j` when aligning: smaller x first, ties in list order
/// (a stable sort by x).
pub open spec fn x_before(es: Seq<EditableView>, i: int, j: int) -> bool {
    es[i].position.0 < es[j].position.0 || (es[i].position.0 == es[j].position.0 && i < j)
}

/// `order` lists every index of `es` once, sorted by `x_before`.
pub open spec fn is_x_order(es: Seq<EditableView>, order: Seq<int>) -> bool {
    &&& order.len() == es.len()
    &&& forall|k: int| 0 <= k < order.len() ==> 0 <= #[trigger] order[k] < es.len()
    &&& forall|a: int, b: int|
        0 <= a < b < order.len() ==> x_before(es, #[trigger] order[a], #[trigger] order[b])
}

/// The monitors after snapping the first `k` of `order` in turn.
pub open spec fn aligned(es: Seq<EditableView>, order: Seq<int>, k: int) -> Seq<EditableView>
    decreases k,
{
    if k <= 0 {
        es
    } else {
        snapped(aligned(es, order, k - 1), order[k - 1], SNAP_PX_ALIGN as int)
    }
}

/// Aligning in `order` never overflows.
pub open spec fn align_safe(es: Seq<EditableView>, order: Seq<int>) -> bool {
    forall|k: int|
        0 <= k < order.len() ==> snap_safe(#[trigger] aligned(es, order, k), order[k], SNAP_PX_ALIGN as int)
}

proof fn lemma_aligned_len(es: Seq<EditableView>, order: Seq<int>, k: int)
    requires
        0 <= k <= order.len(),
        forall|q: int| 0 <= q < order.len() ==> 0 <= #[trigger] order[q] < es.len(),
    ensures
        aligned(es, order, k).len() == es.len(),
    decreases k,
{
    if k > 0 {
        lemma_aligned_len(es, order, k - 1);
    }
}

/// Indices of `monitors` sorted by x, ties in list order.
fn x_order(monitors: &Vec<EditableMonitor>) -> (order: Vec<usize>)
    ensures
        is_x_order(monitors@.map_values(|e: EditableMonitor| e@), order@.map_values(|i: usize| i as int)),
{
    let ghost es = monitors@.map_values(|e: EditableMonitor| e@);
    let n = monitors.len();
    let mut remaining: Vec<usize> = Vec::new();
    let mut i: usize = 0;
    while i < n
        invariant
            i <= n,
            n == monitors.len(),
            remaining.len() == i,
            forall|k: int| 0 <= k < i ==> #[trigger] remaining[k] == k,
        decreases n - i,
    {
        remaining.push(i);
        i = i + 1;
    }
    let mut order: Vec<usize> = Vec::new();
    while remaining.len() > 0
        invariant
            n == monitors.len(),
            es == monitors@.map_values(|e: EditableMonitor| e@),
            order.len() + remaining.len() == n,
            forall|k: int| 0 <= k < order.len() ==> #[trigger] order[k] < n,
            forall|k: int| 0 <= k < remaining.len() ==> #[trigger] remaining[k] < n,
            forall|a: int, b: int|
                0 <= a < b < order.len() ==> x_before(es, #[trigger] order[a] as int, #[trigger] order[b] as int),
            forall|a: int, b: int|
                0 <= a < order.len() && 0 <= b < remaining.len() ==> x_before(
                    es,
                    #[trigger] order[a] as int,
                    #[trigger] remaining[b] as int,
                ),
            forall|a: int, b: int|
                0 <= a < b < remaining.len() ==> #[trigger] remaining[a] != #[trigger] remaining[b],
        decreases remaining.len(),
    {
        let mut p: usize = 0;
        let mut j: usize = 1;
        while j < remaining.len()
            invariant
                n == monitors.len(),
                es == monitors@.map_values(|e: EditableMonitor| e@),
                forall|k: int| 0 <= k < remaining.len() ==> #[trigger] remaining[k] < n,
                forall|a: int, b: int|
                    0 <= a < b < remaining.len() ==> #[trigger] remaining[a] != #[trigger] remaining[b],
                1 <= j <= remaining.len(),
                p < j,
                forall|q: int|
                    0 <= q < j && q != p ==> x_before(es, remaining[p as int] as int, #[trigger] remaining[q] as int),
            decreases remaining.len() - j,
        {
            let a = remaining[j];
            let b = remaining[p];
            proof {
                assert(es[a as int] == monitors@[a as int]@);
                assert(es[b as int] == monitors@[b as int]@);
            }
            let xa = monitors[a].position.0;
            let xb = monitors[b].position.0;
            if xa < xb || (xa == xb && a < b) {
                p = j;
            }
            j = j + 1;
        }
        let ghost old_remaining = remaining@;
        let x = remaining.remove(p);
        order.push(x);
        proof {
            assert forall|a: int, b: int|
                0 <= a < order.len() && 0 <= b < remaining.len() implies x_before(
                es,
                #[trigger] order[a] as int,
                #[trigger] remaining[b] as int,
            ) by {
                if b < p {
                    assert(remaining[b] == old_remaining[b]);
                } else {
                    assert(remaining[b] == old_remaining[b + 1]);
                }
            }
            assert forall|a: int, b: int| 0 <= a < b < order.len() implies x_before(
                es,
                #[trigger] order[a] as int,
                #[trigger] order[b] as int,
            ) by {
                if b == order.len() - 1 {
                    assert(old_remaining[p as int] == x);
                }
            }
            assert forall|a: int, b: int| 0 <= a < b < remaining.len() implies #[trigger] remaining[a]
                != #[trigger] remaining[b] by {
                let a2 = if a < p { a } else { a + 1 };
                let b2 = if b < p { b } else { b + 1 };
                assert(remaining[a] == old_remaining[a2]);
                assert(remaining[b] == old_remaining[b2]);
            }
        }
    }
    proof {
        let mapped = order@.map_values(|i: usize| i as int);
        assert forall|a: int, b: int| 0 <= a < b < mapped.len() implies x_before(
            es,
            #[trigger] mapped[a],
            #[trigger] mapped[b],
        ) by {
            assert(x_before(es, order[a] as int, order[b] as int));
        }
    }
    order
}

/// Snap every monitor's edges to its neighbours within `SNAP_PX_ALIGN`,
/// left to right (by x at the start, ties in list order), so that later
/// monitors see the snapped earlier ones and a chain of small gaps closes
/// in one pass.
pub fn align_all(monitors: &mut Vec<EditableMonitor>)
    requires
        forall|order: Seq<int>|
            #[trigger] is_x_order(views(old(monitors)@), order) ==> align_safe(
                views(old(monitors)@),
                order,
            ),
    ensures
        exists|order: Seq<int>|
            #[trigger] is_x_order(views(old(monitors)@), order)
                && views(final(monitors)@) == aligned(
                views(old(monitors)@),
                order,
                order.len() as int,
            ),
{
    let ghost es = views(monitors@);
    let order = x_order(monitors);
    let ghost ord = order@.map_values(|i: usize| i as int);
    assert(is_x_order(views(monitors@), ord));
    assert(align_safe(es, ord));
    let mut k: usize = 0;
    while k < order.len()
        invariant
            k <= order.len(),
            is_x_order(es, ord),
            ord == order@.map_values(|i: usize| i as int),
            align_safe(es, ord),
            views(monitors@) == aligned(es, ord, k as int),
        decreases order.len() - k,
    {
        proof {
            lemma_aligned_len(es, ord, k as int);
            assert(snap_safe(aligned(es, ord, k as int), ord[k as int], SNAP_PX_ALIGN as int));
            assert(ord[k as int] == order[k as int] as int);
        }
        apply_snap_with(monitors, order[k], SNAP_PX_ALIGN);
        k = k + 1;
    }
    proof {
        order_witness(es, ord);
    }
}

/// Align as `align_all` does, when every snap of the pass stays in range;
/// otherwise leave the monitors unchanged and return `false`.
pub fn try_align_all(monitors: &mut Vec<EditableMonitor>) -> (done: bool)
    ensures
        done ==> exists|order: Seq<int>|
            #[trigger] is_x_order(views(old(monitors)@), order)
                && views(final(monitors)@) == aligned(views(old(monitors)@), order, order.len() as int),
        !done ==> final(monitors)@ == old(monitors)@,
        !done ==> exists|order: Seq<int>|
            #[trigger] is_x_order(views(old(monitors)@), order) && !align_safe(views(old(monitors)@), order),
{
    let ghost es = views(monitors@);
    let order = x_order(monitors);
    let ghost ord = order@.map_values(|i: usize| i as int);
    assert(is_x_order(views(monitors@), ord));
    let mut work: Vec<EditableMonitor> = Vec::new();
    let mut i: usize = 0;
    while i < monitors.len()
        invariant
            i <= monitors.len(),
            es == views(monitors@),
            work@.len() == i,
            forall|k: int| 0 <= k < i ==> #[trigger] work@[k]@ == es[k],
        decreases monitors.len() - i,
    {
        work.push(monitors[i].clone());
        i = i + 1;
    }
    assert(views(work@) =~= es);
    let mut k: usize = 0;
    while k < order.len()
        invariant
            k <= order.len(),
            es == views(monitors@),
            is_x_order(es, ord),
            ord == order@.map_values(|i: usize| i as int),
            views(work@) == aligned(es, ord, k as int),
            forall|q: int| 0 <= q < k ==> snap_safe(#[trigger] aligned(es, ord, q), ord[q], SNAP_PX_ALIGN as int),
        decreases order.len() - k,
    {
        proof {
            lemma_aligned_len(es, ord, k as int);
            assert(ord[k as int] == order[k as int] as int);
        }
        if !snap_safe_exec(&work, order[k], SNAP_PX_ALIGN) {
            proof {
                assert(!align_safe(es, ord));
            }
            return false;
        }
        apply_snap_with(&mut work, order[k], SNAP_PX_ALIGN);
        k = k + 1;
    }
    *monitors = work;
    proof {
        order_witness(es, ord);
    }
    true
}

proof fn order_witness(es: Seq<EditableView>, ord: Seq<int>)
    requires
        is_x_order(es, ord),
    ensures
        exists|order: Seq<int>| #[trigger] is_x_order(es, order) && aligned(es, ord, ord.len() as int) == aligned(
            es,
            order,
            order.len() as int,
        ),
{
}


proof fn lemma_consider_all_within(best: Option<int>, cands: Seq<int>, snap: int)
    requires
        best matches Some(b) ==> -snap <= b <= snap,
    ensures
        consider_all(best, cands, snap) matches Some(v) ==> -snap <= v <= snap,
    decreases cands.len(),
{
    if cands.len() > 0 {
        lemma_consider_all_within(best, cands.drop_last(), snap);
    }
}

proof fn lemma_best_snap_within(es: Seq<EditableView>, idx: int, snap: int, horizontal: bool, j: int)
    ensures
        best_snap(es, idx, snap, horizontal, j) matches Some(v) ==> -snap <= v <= snap,
    decreases j,
{
    if j > 0 {
        lemma_best_snap_within(es, idx, snap, horizontal, j - 1);
        if !(j - 1 == idx || es[j - 1].disabled) {
            lemma_consider_all_within(
                best_snap(es, idx, snap, horizontal, j - 1),
                snap_candidates(es[idx], es[j - 1], horizontal),
                snap,
            );
        }
    }
}

/// Snapping moves only the monitor snapped, and it by at most `snap`
/// pixels on each axis; its mode, scale, rotation and the rest stay.
pub proof fn lemma_snap_moves_at_most_snap(es: Seq<EditableView>, idx: int, snap: int)
    requires
        0 <= idx < es.len(),
        0 <= snap,
        snap_safe(es, idx, snap),
    ensures
        snapped(es, idx, snap).len() == es.len(),
        forall|j: int| 0 <= j < es.len() && j != idx ==> #[trigger] snapped(es, idx, snap)[j] == es[j],
        -snap <= snapped(es, idx, snap)[idx].position.0 - es[idx].position.0 <= snap,
        -snap <= snapped(es, idx, snap)[idx].position.1 - es[idx].position.1 <= snap,
        snapped(es, idx, snap)[idx] == (EditableView {
            position: snapped(es, idx, snap)[idx].position,
            ..es[idx]
        }),
{
    lemma_best_snap_within(es, idx, snap, true, es.len() as int);
    lemma_best_snap_within(es, idx, snap, false, es.len() as int);
}

/// There is one aligning order: the order `align_all` snaps in is a
/// function of the monitors.
pub proof fn lemma_x_order_unique(es: Seq<EditableView>, a: Seq<int>, b: Seq<int>)
    requires
        is_x_order(es, a),
        is_x_order(es, b),
    ensures
        a == b,
{
    let n = es.len() as int;
    assert forall|p: int, q: int| 0 <= p < a.len() && 0 <= q < a.len() && p != q implies #[trigger] a[p] != #[trigger] a[q] by {
        if p < q {
            assert(x_before(es, a[p], a[q]));
        } else {
            assert(x_before(es, a[q], a[p]));
        }
    }
    assert forall|p: int, q: int| 0 <= p < b.len() && 0 <= q < b.len() && p != q implies #[trigger] b[p] != #[trigger] b[q] by {
        if p < q {
            assert(x_before(es, b[p], b[q]));
        } else {
            assert(x_before(es, b[q], b[p]));
        }
    }
    lemma_permutation_covers(a, n);
    lemma_permutation_covers(b, n);
    assert forall|x: int| #![trigger a.contains(x)] #![trigger b.contains(x)] a.contains(x) <==> b.contains(x) by {
        if a.contains(x) {
            let k = choose|k: int| 0 <= k < a.len() && a[k] == x;
            assert(0 <= a[k] < n);
        }
        if b.contains(x) {
            let k = choose|k: int| 0 <= k < b.len() && b[k] == x;
            assert(0 <= b[k] < n);
        }
    }
    let lt = |x: int, y: int| x_before(es, x, y);
    assert forall|p: int, q: int| 0 <= p < q < a.len() implies #[trigger] lt(a[p], a[q]) by {}
    assert forall|p: int, q: int| 0 <= p < q < b.len() implies #[trigger] lt(b[p], b[q]) by {}
    lemma_sorted_same_elements_equal(lt, a, b);
}

/// `|x|`.
pub open spec fn magnitude(x: int) -> int {
    if x < 0 {
        -x
    } else {
        x
    }
}

proof fn lemma_consider_all_char(best: Option<int>, cands: Seq<int>, snap: int)
    requires
        best matches Some(b) ==> magnitude(b) <= snap,
    ensures
        consider_all(best, cands, snap) is None ==> best is None && forall|i: int|
            0 <= i < cands.len() ==> magnitude(#[trigger] cands[i]) > snap,
        consider_all(best, cands, snap) matches Some(v) ==> {
            &&& magnitude(v) <= snap
            &&& (consider_all(best, cands, snap) == best || exists|i: int| 0 <= i < cands.len() && #[trigger] cands[i] == v)
            &&& best matches Some(b) ==> magnitude(v) <= magnitude(b)
            &&& forall|i: int| 0 <= i < cands.len() && magnitude(#[trigger] cands[i]) <= snap ==> magnitude(v) <= magnitude(cands[i])
        },
    decreases cands.len(),
{
    if cands.len() > 0 {
        let init = cands.drop_last();
        lemma_consider_all_char(best, init, snap);
        assert forall|i: int| 0 <= i < init.len() implies init[i] == cands[i] by {}
        let prev = consider_all(best, init, snap);
        let c = cands.last();
        assert(cands[cands.len() - 1] == c);
        if let Some(v) = consider_all(best, cands, snap) {
            if prev != Some(v) {
                assert(v == c);
            } else if prev != best {
                let i = choose|i: int| 0 <= i < init.len() && #[trigger] init[i] == v;
                assert(cands[i] == v);
            }
        }
    }
}

/// The candidates of enabled monitor `j` (not `idx`) on one axis.
pub open spec fn counts_for_snap(es: Seq<EditableView>, idx: int, j: int) -> bool {
    0 <= j < es.len() && j != idx && !es[j].disabled
}

proof fn lemma_best_snap_char(es: Seq<EditableView>, idx: int, snap: int, horizontal: bool, n: int)
    requires
        n <= es.len(),
    ensures
        best_snap(es, idx, snap, horizontal, n) is None ==> forall|j: int, k: int|
            j < n && counts_for_snap(es, idx, j) && 0 <= k < 4 ==> magnitude(
                #[trigger] snap_candidates(es[idx], es[j], horizontal)[k],
            ) > snap,
        best_snap(es, idx, snap, horizontal, n) matches Some(v) ==> {
            &&& magnitude(v) <= snap
            &&& exists|j: int, k: int|
                j < n && counts_for_snap(es, idx, j) && 0 <= k < 4 && #[trigger] snap_candidates(
                    es[idx],
                    es[j],
                    horizontal,
                )[k] == v
            &&& forall|j: int, k: int|
                j < n && counts_for_snap(es, idx, j) && 0 <= k < 4 && magnitude(
                    #[trigger] snap_candidates(es[idx], es[j], horizontal)[k],
                ) <= snap ==> magnitude(v) <= magnitude(snap_candidates(es[idx], es[j], horizontal)[k])
        },
    decreases n,
{
    if n > 0 {
        lemma_best_snap_char(es, idx, snap, horizontal, n - 1);
        let prev = best_snap(es, idx, snap, horizontal, n - 1);
        if !(n - 1 == idx || es[n - 1].disabled) {
            let cands = snap_candidates(es[idx], es[n - 1], horizontal);
            lemma_consider_all_char(prev, cands, snap);
            assert(counts_for_snap(es, idx, n - 1));
            if let Some(v) = best_snap(es, idx, snap, horizontal, n) {
                if best_snap(es, idx, snap, horizontal, n) != prev {
                    let i = choose|i: int| 0 <= i < cands.len() && #[trigger] cands[i] == v;
                    assert(snap_candidates(es[idx], es[n - 1], horizontal)[i] == v);
                }
            }
        }
    }
}

/// Where a monitor stands on one axis.
pub open spec fn axis_pos(e: EditableView, horizontal: bool) -> int {
    if horizontal {
        e.position.0 as int
    } else {
        e.position.1 as int
    }
}

/// A monitor's side on one axis, in whole pixels (for `whole_pixels`).
pub open spec fn axis_len(e: EditableView, horizontal: bool) -> int {
    (if horizontal {
        footprint_num(e).0
    } else {
        footprint_num(e).1
    }) / (e.scale as int)
}

/// A monitor whose on-screen sides are whole pixels and whose position and
/// sides stay below `2^24` in magnitude.
pub open spec fn whole_pixels(e: EditableView) -> bool {
    &&& e.scale > 0
    &&& footprint_num(e).0 % (e.scale as int) == 0
    &&& footprint_num(e).1 % (e.scale as int) == 0
    &&& axis_len(e, true) < 0x100_0000
    &&& axis_len(e, false) < 0x100_0000
    &&& -0x100_0000 < e.position.0 < 0x100_0000
    &&& -0x100_0000 < e.position.1 < 0x100_0000
}

proof fn lemma_round_div_exact(k: int, d: int)
    requires
        d > 0,
    ensures
        round_div(k * d, d) == k,
{
    if k >= 0 {
        assert(k * d >= 0) by (nonlinear_arith)
            requires
                k >= 0,
                d > 0,
        ;
        assert(2 * (k * d) + d == k * (2 * d) + d) by (nonlinear_arith);
        vstd::arithmetic::div_mod::lemma_fundamental_div_mod_converse(2 * (k * d) + d, 2 * d, k, d);
    } else {
        assert(k * d < 0) by (nonlinear_arith)
            requires
                k < 0,
                d > 0,
        ;
        assert(-2 * (k * d) + d == (-k) * (2 * d) + d) by (nonlinear_arith);
        vstd::arithmetic::div_mod::lemma_fundamental_div_mod_converse(-2 * (k * d) + d, 2 * d, -k, d);
    }
}

proof fn lemma_whole_side(side: int, s: int)
    requires
        s > 0,
        side % s == 0,
    ensures
        side == (side / s) * s,
{
    vstd::arithmetic::div_mod::lemma_fundamental_div_mod(side, s);
    assert(s * (side / s) == (side / s) * s) by (nonlinear_arith);
}

/// With whole-pixel sides the candidates are exact pixel distances.
proof fn lemma_whole_pixel_candidates(me: EditableView, o: EditableView, horizontal: bool)
    requires
        me.scale > 0,
        o.scale > 0,
        footprint_num(me).0 % (me.scale as int) == 0,
        footprint_num(me).1 % (me.scale as int) == 0,
        footprint_num(o).0 % (o.scale as int) == 0,
        footprint_num(o).1 % (o.scale as int) == 0,
        -0x1000_0000 < axis_pos(me, horizontal) < 0x1000_0000,
        -0x1000_0000 < axis_pos(o, horizontal) < 0x1000_0000,
        axis_len(me, horizontal) < 0x1000_0000,
        axis_len(o, horizontal) < 0x1000_0000,
    ensures
        ({
            let (mp, op) = (axis_pos(me, horizontal), axis_pos(o, horizontal));
            let (mw, ow) = (axis_len(me, horizontal), axis_len(o, horizontal));
            snap_candidates(me, o, horizontal) == seq![op - mp - mw, op + ow - mp, op - mp, op + ow - mp - mw]
        }),
{
    let ms = me.scale as int;
    let os = o.scale as int;
    let d = ms * os;
    assert(d > 0) by (nonlinear_arith)
        requires
            ms > 0,
            os > 0,
            d == ms * os,
    ;
    let (mp, op) = (axis_pos(me, horizontal), axis_pos(o, horizontal));
    let (mw, ow) = (axis_len(me, horizontal), axis_len(o, horizontal));
    let msz = if horizontal { footprint_num(me).0 } else { footprint_num(me).1 };
    let osz = if horizontal { footprint_num(o).0 } else { footprint_num(o).1 };
    assert(msz >= 0 && osz >= 0);
    lemma_whole_side(msz, ms);
    lemma_whole_side(osz, os);
    assert(mw >= 0 && ow >= 0) by {
        vstd::arithmetic::div_mod::lemma_div_pos_is_pos(msz, ms);
        vstd::arithmetic::div_mod::lemma_div_pos_is_pos(osz, os);
    }
    let me_lo = mp * d;
    let me_hi = mp * d + msz * os;
    let o_lo = op * d;
    let o_hi = op * d + osz * ms;
    assert(me_hi == (mp + mw) * d) by (nonlinear_arith)
        requires
            msz == mw * ms,
            d == ms * os,
            me_hi == mp * d + msz * os,
    ;
    assert(o_hi == (op + ow) * d) by (nonlinear_arith)
        requires
            osz == ow * os,
            d == ms * os,
            o_hi == op * d + osz * ms,
    ;
    assert(o_lo - me_hi == (op - mp - mw) * d) by (nonlinear_arith)
        requires
            o_lo == op * d,
            me_hi == (mp + mw) * d,
    ;
    assert(o_hi - me_lo == (op + ow - mp) * d) by (nonlinear_arith)
        requires
            o_hi == (op + ow) * d,
            me_lo == mp * d,
    ;
    assert(o_lo - me_lo == (op - mp) * d) by (nonlinear_arith)
        requires
            o_lo == op * d,
            me_lo == mp * d,
    ;
    assert(o_hi - me_hi == (op + ow - mp - mw) * d) by (nonlinear_arith)
        requires
            o_hi == (op + ow) * d,
            me_hi == (mp + mw) * d,
    ;
    lemma_round_div_exact(op - mp - mw, d);
    lemma_round_div_exact(op + ow - mp, d);
    lemma_round_div_exact(op - mp, d);
    lemma_round_div_exact(op + ow - mp - mw, d);
    assert(snap_candidates(me, o, horizontal) =~= seq![op - mp - mw, op + ow - mp, op - mp, op + ow - mp - mw]);
}

/// The shift snapping gives monitor `idx` on one axis (0 when none).
pub open spec fn snap_shift(es: Seq<EditableView>, idx: int, snap: int, horizontal: bool) -> int {
    match best_snap(es, idx, snap, horizontal, es.len() as int) {
        Some(v) => v,
        None => 0,
    }
}

proof fn lemma_axis_settles(es: Seq<EditableView>, idx: int, snap: int, horizontal: bool)
    requires
        0 <= idx < es.len(),
        0 <= snap,
        snap_safe(es, idx, snap),
        whole_pixels(es[idx]),
        forall|j: int| #[trigger] counts_for_snap(es, idx, j) ==> whole_pixels(es[j]),
    ensures
        best_snap(snapped(es, idx, snap), idx, snap, horizontal, es.len() as int) == match best_snap(
            es,
            idx,
            snap,
            horizontal,
            es.len() as int,
        ) {
            Some(_) => Some(0int),
            None => None,
        },
        forall|j: int, k: int|
            counts_for_snap(snapped(es, idx, snap), idx, j) && 0 <= k < 4 ==> -0x2000_0000 < #[trigger] snap_candidates(
                snapped(es, idx, snap)[idx],
                snapped(es, idx, snap)[j],
                horizontal,
            )[k] < 0x2000_0000,
{
    let n = es.len() as int;
    let es1 = snapped(es, idx, snap);
    let shift = snap_shift(es, idx, snap, horizontal);
    let me = es[idx];
    let me1 = es1[idx];
    lemma_best_snap_char(es, idx, snap, horizontal, n);
    lemma_best_snap_char(es1, idx, snap, horizontal, n);
    assert(es1.len() == es.len());
    assert forall|j: int| 0 <= j < n && j != idx implies #[trigger] es1[j] == es[j] by {}
    assert forall|j: int| #[trigger] counts_for_snap(es1, idx, j) <==> counts_for_snap(es, idx, j) by {
        if 0 <= j < n && j != idx {
            assert(es1[j] == es[j]);
        }
    }
    let mp = axis_pos(me, horizontal);
    // The shift is one of the candidates, so it is small.
    if let Some(v) = best_snap(es, idx, snap, horizontal, n) {
        let (j0, k0) = choose|j: int, k: int|
            j < n && counts_for_snap(es, idx, j) && 0 <= k < 4 && #[trigger] snap_candidates(es[idx], es[j], horizontal)[k] == v;
        assert(whole_pixels(es[j0]));
        lemma_whole_pixel_candidates(me, es[j0], horizontal);
        assert(-0x400_0000 < v < 0x400_0000);
    }
    assert(-0x400_0000 < shift < 0x400_0000);
    assert(axis_pos(me1, horizontal) == mp + shift);
    assert(footprint_num(me1) == footprint_num(me));
    assert(me1.scale == me.scale);
    assert(axis_len(me1, horizontal) == axis_len(me, horizontal));
    assert forall|j: int, k: int| counts_for_snap(es, idx, j) && 0 <= k < 4 implies #[trigger] snap_candidates(
        me1,
        es[j],
        horizontal,
    )[k] == snap_candidates(me, es[j], horizontal)[k] - shift && -0x2000_0000 < snap_candidates(
        me1,
        es[j],
        horizontal,
    )[k] < 0x2000_0000 by {
        assert(whole_pixels(es[j]));
        lemma_whole_pixel_candidates(me, es[j], horizontal);
        lemma_whole_pixel_candidates(me1, es[j], horizontal);
    }
    assert forall|j: int, k: int|
        counts_for_snap(es1, idx, j) && 0 <= k < 4 implies -0x2000_0000 < #[trigger] snap_candidates(
        es1[idx],
        es1[j],
        horizontal,
    )[k] < 0x2000_0000 by {
        assert(es1[j] == es[j]);
        assert(snap_candidates(me1, es[j], horizontal)[k] == snap_candidates(me, es[j], horizontal)[k] - shift);
    }
    match best_snap(es, idx, snap, horizontal, n) {
        None => {
            if let Some(v1) = best_snap(es1, idx, snap, horizontal, n) {
                let (j1, k1) = choose|j: int, k: int|
                    j < n && counts_for_snap(es1, idx, j) && 0 <= k < 4 && #[trigger] snap_candidates(es1[idx], es1[j], horizontal)[k] == v1;
                assert(es1[j1] == es[j1]);
                assert(snap_candidates(me1, es[j1], horizontal)[k1] == snap_candidates(me, es[j1], horizontal)[k1] - shift);
                assert(magnitude(snap_candidates(me, es[j1], horizontal)[k1]) > snap);
                assert(false);
            }
        },
        Some(v) => {
            let (j0, k0) = choose|j: int, k: int|
                j < n && counts_for_snap(es, idx, j) && 0 <= k < 4 && #[trigger] snap_candidates(es[idx], es[j], horizontal)[k] == v;
            assert(es1[j0] == es[j0]);
            assert(snap_candidates(me1, es[j0], horizontal)[k0] == 0);
            assert(snap_candidates(es1[idx], es1[j0], horizontal)[k0] == 0);
            assert(counts_for_snap(es1, idx, j0));
            if best_snap(es1, idx, snap, horizontal, n) is None {
                assert(magnitude(snap_candidates(es1[idx], es1[j0], horizontal)[k0]) > snap);
            }
            let v1 = best_snap(es1, idx, snap, horizontal, n)->0;
            assert(magnitude(v1) <= magnitude(snap_candidates(es1[idx], es1[j0], horizontal)[k0]));
        },
    }
}

/// Snapping a monitor a second time right after the first changes nothing,
/// when the monitors it snaps against have whole-pixel sides and positions
/// and sides below `2^24` in magnitude: the edge snapped to is now at
/// distance 0, the least possible. The first snap leaves a layout the
/// second may be applied to.
pub proof fn lemma_snap_is_idempotent(es: Seq<EditableView>, idx: int, snap: int)
    requires
        0 <= idx < es.len(),
        0 <= snap,
        snap_safe(es, idx, snap),
        whole_pixels(es[idx]),
        forall|j: int| #[trigger] counts_for_snap(es, idx, j) ==> whole_pixels(es[j]),
    ensures
        snap_safe(snapped(es, idx, snap), idx, snap),
        snapped(snapped(es, idx, snap), idx, snap) == snapped(es, idx, snap),
{
    let es1 = snapped(es, idx, snap);
    lemma_axis_settles(es, idx, snap, true);
    lemma_axis_settles(es, idx, snap, false);
    assert forall|j: int, k: int|
        0 <= j < es1.len() && j != idx && !es1[j].disabled && 0 <= k < 4 implies {
            &&& #[trigger] snap_candidates(es1[idx], es1[j], true)[k] != i32::MIN
            &&& #[trigger] snap_candidates(es1[idx], es1[j], false)[k] != i32::MIN
        } by {
        assert(counts_for_snap(es1, idx, j));
        assert(-0x2000_0000 < snap_candidates(es1[idx], es1[j], true)[k] < 0x2000_0000);
        assert(-0x2000_0000 < snap_candidates(es1[idx], es1[j], false)[k] < 0x2000_0000);
    }
    assert(snapped(es1, idx, snap) =~= es1);
}

proof fn lemma_aligned_prefix(es: Seq<EditableView>, order: Seq<int>, k: int)
    requires
        is_x_order(es, order),
        align_safe(es, order),
        0 <= k <= order.len(),
    ensures
        aligned(es, order, k).len() == es.len(),
        forall|i: int|
            0 <= i < es.len() ==> {
                &&& #[trigger] aligned(es, order, k)[i] == (EditableView {
                    position: aligned(es, order, k)[i].position,
                    ..es[i]
                })
                &&& -(SNAP_PX_ALIGN as int) <= aligned(es, order, k)[i].position.0 - es[i].position.0
                    <= SNAP_PX_ALIGN as int
                &&& -(SNAP_PX_ALIGN as int) <= aligned(es, order, k)[i].position.1 - es[i].position.1
                    <= SNAP_PX_ALIGN as int
                &&& (forall|q: int| 0 <= q < k ==> order[q] != i) ==> aligned(es, order, k)[i] == es[i]
            },
    decreases k,
{
    if k > 0 {
        lemma_aligned_prefix(es, order, k - 1);
        let a = aligned(es, order, k - 1);
        let m = order[k - 1];
        assert(snap_safe(a, m, SNAP_PX_ALIGN as int));
        lemma_snap_moves_at_most_snap(a, m, SNAP_PX_ALIGN as int);
        assert forall|q: int| 0 <= q < k - 1 implies order[q] != m by {
            assert(x_before(es, order[q], order[k - 1]));
        }
        assert(a[m] == es[m]);
        assert forall|i: int| 0 <= i < es.len() implies {
            &&& #[trigger] aligned(es, order, k)[i] == (EditableView {
                position: aligned(es, order, k)[i].position,
                ..es[i]
            })
            &&& -(SNAP_PX_ALIGN as int) <= aligned(es, order, k)[i].position.0 - es[i].position.0
                <= SNAP_PX_ALIGN as int
            &&& -(SNAP_PX_ALIGN as int) <= aligned(es, order, k)[i].position.1 - es[i].position.1
                <= SNAP_PX_ALIGN as int
            &&& (forall|q: int| 0 <= q < k ==> order[q] != i) ==> aligned(es, order, k)[i] == es[i]
        } by {
            if i != m {
                assert(aligned(es, order, k)[i] == a[i]);
                if forall|q: int| 0 <= q < k ==> order[q] != i {
                    assert forall|q: int| 0 <= q < k - 1 implies order[q] != i by {}
                }
            } else {
                assert(order[k - 1] == i);
            }
        }
    }
}

/// Aligning moves every monitor at most `SNAP_PX_ALIGN` pixels on each
/// axis, once each (in x order), and changes nothing but positions.
pub proof fn lemma_align_moves_each_monitor_once(es: Seq<EditableView>, order: Seq<int>)
    requires
        is_x_order(es, order),
        align_safe(es, order),
    ensures
        aligned(es, order, order.len() as int).len() == es.len(),
        forall|i: int|
            0 <= i < es.len() ==> {
                &&& #[trigger] aligned(es, order, order.len() as int)[i] == (EditableView {
                    position: aligned(es, order, order.len() as int)[i].position,
                    ..es[i]
                })
                &&& -(SNAP_PX_ALIGN as int) <= aligned(es, order, order.len() as int)[i].position.0
                    - es[i].position.0 <= SNAP_PX_ALIGN as int
                &&& -(SNAP_PX_ALIGN as int) <= aligned(es, order, order.len() as int)[i].position.1
                    - es[i].position.1 <= SNAP_PX_ALIGN as int
            },
{
    lemma_aligned_prefix(es, order, order.len() as int);
}

} // verus!
