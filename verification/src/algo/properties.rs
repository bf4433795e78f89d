//! What every plan guarantees: each monitor placed once, built-in panels
//! first, names in order, and the row laid out without gaps or overlaps.
use vstd::prelude::*;
use vstd::set_lib::{lemma_int_range, lemma_subset_equality, set_int_range};
use crate::algo::{is_plan, lemma_planned_width_nonneg, planned_config, planned_row_width, planned_width, row_offset};
use crate::algo::layout::effective_width;
use crate::algo::order::{
    is_plan_order,
    lemma_plan_before_strict_total,
    lemma_seq_sum_remove,
    plan_before,
    range_sum,
    seq_sum,
};
use crate::algo::primary::is_internal_name;
use crate::model::{Monitor, MonitorConfig};
use crate::names::{
    lemma_text_lt_irreflexive,
    lemma_text_lt_lexicographic,
    lemma_text_lt_total,
    lemma_text_lt_transitive,
    text_lt,
};

verus! {

/// `s` lists `n` distinct indices below `n`.
pub open spec fn is_index_permutation(s: Seq<int>, n: int) -> bool {
    &&& s.len() == n
    &&& forall|k: int| 0 <= k < s.len() ==> 0 <= #[trigger] s[k] < n
    &&& forall|a: int, b: int| 0 <= a < s.len() && 0 <= b < s.len() && a != b ==> #[trigger] s[a] != #[trigger] s[b]
}

/// `n` distinct indices below `n` include every index below `n`.
pub proof fn lemma_permutation_covers(s: Seq<int>, n: int)
    requires
        is_index_permutation(s, n),
    ensures
        forall|i: int| 0 <= i < n ==> #[trigger] s.contains(i),
{
    let set = s.to_set();
    assert(s.no_duplicates());
    s.unique_seq_to_set();
    lemma_int_range(0, n);
    assert forall|x: int| set.contains(x) implies set_int_range(0, n).contains(x) by {
        let k = choose|k: int| 0 <= k < s.len() && s[k] == x;
    }
    lemma_subset_equality(set, set_int_range(0, n));
    assert forall|i: int| 0 <= i < n implies #[trigger] s.contains(i) by {
        assert(set_int_range(0, n).contains(i));
        assert(set.contains(i));
    }
}

/// Summing over a permutation of the indices below `n` gives the sum over
/// all of them.
pub proof fn lemma_seq_sum_permutation(f: spec_fn(int) -> int, s: Seq<int>, n: int)
    requires
        is_index_permutation(s, n),
    ensures
        seq_sum(f, s) == range_sum(f, n),
    decreases n,
{
    if n > 0 {
        lemma_permutation_covers(s, n);
        assert(s.contains(n - 1));
        let k = choose|k: int| 0 <= k < s.len() && s[k] == n - 1;
        let r = s.remove(k);
        assert forall|j: int| 0 <= j < r.len() implies 0 <= #[trigger] r[j] < n - 1 by {
            if j < k {
                assert(r[j] == s[j]);
            } else {
                assert(r[j] == s[j + 1]);
            }
        }
        assert forall|a: int, b: int| 0 <= a < r.len() && 0 <= b < r.len() && a != b implies #[trigger] r[a]
            != #[trigger] r[b] by {
            let sa = if a < k { a } else { a + 1 };
            let sb = if b < k { b } else { b + 1 };
            assert(r[a] == s[sa]);
            assert(r[b] == s[sb]);
        }
        lemma_seq_sum_permutation(f, r, n - 1);
        lemma_seq_sum_remove(f, s, k);
    } else {
        assert(s.len() == 0);
    }
}

/// A layout order lists every monitor exactly once.
pub proof fn lemma_plan_order_lists_every_monitor(ms: Seq<Monitor>, perm: Seq<int>)
    requires
        is_plan_order(ms, perm),
    ensures
        forall|i: int| 0 <= i < ms.len() ==> #[trigger] perm.contains(i),
        is_index_permutation(perm, ms.len() as int),
{
    assert forall|a: int, b: int| 0 <= a < perm.len() && 0 <= b < perm.len() && a != b implies #[trigger] perm[a]
        != #[trigger] perm[b] by {
        if a < b {
            assert(perm[a] != perm[b]);
        } else {
            assert(perm[b] != perm[a]);
        }
    }
    lemma_permutation_covers(perm, ms.len() as int);
}

/// Monitor `m` has an entry in `out`: its planned configuration at the x
/// where the entries before it end.
pub open spec fn has_planned_entry(out: Seq<MonitorConfig>, m: Monitor) -> bool {
    exists|k: int| 0 <= k < out.len() && out[k] == planned_config(m, row_offset(out, k))
}

/// Every monitor is in the plan, with its planned mode and scale (and the
/// plan has exactly one entry per monitor).
pub proof fn lemma_plan_covers_every_monitor(ms: Seq<Monitor>, out: Seq<MonitorConfig>)
    requires
        is_plan(ms, out),
    ensures
        out.len() == ms.len(),
        forall|i: int| 0 <= i < ms.len() ==> #[trigger] has_planned_entry(out, ms[i]),
{
    let perm = choose|perm: Seq<int>|
        is_plan_order(ms, perm) && forall|k: int|
            0 <= k < out.len() ==> #[trigger] out[k] == planned_config(ms[perm[k]], row_offset(out, k));
    lemma_plan_order_lists_every_monitor(ms, perm);
    assert forall|i: int| 0 <= i < ms.len() implies #[trigger] has_planned_entry(out, ms[i]) by {
        assert(perm.contains(i));
        let k = choose|k: int| 0 <= k < perm.len() && perm[k] == i;
        assert(out[k] == planned_config(ms[perm[k]], row_offset(out, k)));
    }
}

/// In a plan, built-in panels come before every external monitor.
pub proof fn lemma_plan_internal_first(ms: Seq<Monitor>, out: Seq<MonitorConfig>, a: int, b: int)
    requires
        is_plan(ms, out),
        0 <= a < b < out.len(),
        is_internal_name(out[b].name@),
    ensures
        is_internal_name(out[a].name@),
{
    let perm = choose|perm: Seq<int>|
        is_plan_order(ms, perm) && forall|k: int|
            0 <= k < out.len() ==> #[trigger] out[k] == planned_config(ms[perm[k]], row_offset(out, k));
    assert(out[a] == planned_config(ms[perm[a]], row_offset(out, a)));
    assert(out[b] == planned_config(ms[perm[b]], row_offset(out, b)));
    assert(plan_before(ms, perm[a], perm[b]));
}

/// In a plan, among built-in panels and among externals, connector names
/// never decrease.
pub proof fn lemma_plan_names_in_order(ms: Seq<Monitor>, out: Seq<MonitorConfig>, a: int, b: int)
    requires
        is_plan(ms, out),
        0 <= a < b < out.len(),
        is_internal_name(out[a].name@) == is_internal_name(out[b].name@),
    ensures
        !text_lt(out[b].name@, out[a].name@),
{
    let perm = choose|perm: Seq<int>|
        is_plan_order(ms, perm) && forall|k: int|
            0 <= k < out.len() ==> #[trigger] out[k] == planned_config(ms[perm[k]], row_offset(out, k));
    assert(out[a] == planned_config(ms[perm[a]], row_offset(out, a)));
    assert(out[b] == planned_config(ms[perm[b]], row_offset(out, b)));
    assert(plan_before(ms, perm[a], perm[b]));
    let (na, nb) = (out[a].name@, out[b].name@);
    lemma_text_lt_irreflexive(na);
    if text_lt(nb, na) && text_lt(na, nb) {
        lemma_text_lt_transitive(na, nb, na);
    }
}

/// In a plan, externals (and likewise built-in panels) come in
/// lexicographic connector-name order, as `str::cmp` sorts: of two entries
/// with different names, the earlier name is a proper prefix of the later
/// one or has the smaller character where they first differ, whatever
/// their lengths.
pub proof fn lemma_plan_names_lexicographic(ms: Seq<Monitor>, out: Seq<MonitorConfig>, a: int, b: int)
    requires
        is_plan(ms, out),
        0 <= a < b < out.len(),
        is_internal_name(out[a].name@) == is_internal_name(out[b].name@),
        out[a].name@ != out[b].name@,
    ensures
        ({
            let (x, y) = (out[a].name@, out[b].name@);
            (x.len() < y.len() && forall|k: int| 0 <= k < x.len() ==> x[k] == y[k]) || exists|i: int|
                0 <= i < x.len() && i < y.len() && (forall|k: int| 0 <= k < i ==> x[k] == y[k]) && (
                #[trigger] x[i] as u32) < (y[i] as u32)
        }),
{
    lemma_plan_names_in_order(ms, out, a, b);
    lemma_text_lt_total(out[a].name@, out[b].name@);
    lemma_text_lt_lexicographic(out[a].name@, out[b].name@);
}

proof fn lemma_row_offset_sum(
    ms: Seq<Monitor>,
    out: Seq<MonitorConfig>,
    perm: Seq<int>,
    f: spec_fn(int) -> int,
    k: int,
)
    requires
        0 <= k <= out.len(),
        out.len() == perm.len(),
        forall|j: int| 0 <= j < perm.len() ==> 0 <= #[trigger] perm[j] < ms.len(),
        forall|j: int|
            0 <= j < out.len() ==> #[trigger] out[j] == planned_config(ms[perm[j]], row_offset(out, j)),
        f == (|i: int| planned_width(ms[i])),
    ensures
        row_offset(out, k) == seq_sum(f, perm.subrange(0, k)),
    decreases k,
{
    if k > 0 {
        lemma_row_offset_sum(ms, out, perm, f, k - 1);
        assert(perm.subrange(0, k).drop_last() =~= perm.subrange(0, k - 1));
        assert(out[k - 1] == planned_config(ms[perm[k - 1]], row_offset(out, k - 1)));
    } else {
        assert(perm.subrange(0, 0) =~= Seq::<int>::empty());
    }
}

proof fn lemma_seq_sum_prefix_bounds(f: spec_fn(int) -> int, s: Seq<int>, k: int)
    requires
        0 <= k <= s.len(),
        forall|j: int| 0 <= j < s.len() ==> f(#[trigger] s[j]) >= 0,
    ensures
        0 <= seq_sum(f, s.subrange(0, k)) <= seq_sum(f, s),
    decreases s.len(),
{
    if s.len() > 0 {
        if k == s.len() {
            assert(s.subrange(0, k) =~= s);
            lemma_seq_sum_prefix_bounds(f, s.drop_last(), k - 1);
            assert(s.drop_last().subrange(0, k - 1) =~= s.drop_last());
            assert(f(s[s.len() - 1]) >= 0);
        } else {
            lemma_seq_sum_prefix_bounds(f, s.drop_last(), k);
            assert(s.drop_last().subrange(0, k) =~= s.subrange(0, k));
            assert(f(s[s.len() - 1]) >= 0);
        }
    } else {
        assert(s.subrange(0, k) =~= s);
    }
}

/// When the row fits in `i32` coordinates (as `plan` requires), the plan
/// is one row at `y = 0`: the first entry at the origin, each next entry
/// starting exactly where the one before it ends (its effective width
/// further on), and the row as wide as all the monitors together.
pub proof fn lemma_plan_row_is_contiguous(ms: Seq<Monitor>, out: Seq<MonitorConfig>)
    requires
        is_plan(ms, out),
        planned_row_width(ms) <= i32::MAX,
    ensures
        forall|k: int| 0 <= k < out.len() ==> (#[trigger] out[k]).position.1 == 0,
        forall|k: int| 0 <= k < out.len() ==> (#[trigger] out[k]).position.0 == row_offset(out, k),
        out.len() > 0 ==> out[0].position == (0i32, 0i32),
        forall|k: int|
            0 <= k < out.len() - 1 ==> #[trigger] out[k + 1].position.0 == out[k].position.0
                + effective_width(out[k].mode.width, out[k].scale),
        row_offset(out, out.len() as int) == planned_row_width(ms),
{
    let perm = choose|perm: Seq<int>|
        is_plan_order(ms, perm) && forall|k: int|
            0 <= k < out.len() ==> #[trigger] out[k] == planned_config(ms[perm[k]], row_offset(out, k));
    let f = |i: int| planned_width(ms[i]);
    lemma_plan_order_lists_every_monitor(ms, perm);
    lemma_seq_sum_permutation(f, perm, ms.len() as int);
    assert forall|j: int| 0 <= j < perm.len() implies f(#[trigger] perm[j]) >= 0 by {
        lemma_planned_width_nonneg(ms[perm[j]]);
    }
    assert(perm.subrange(0, perm.len() as int) =~= perm);
    lemma_row_offset_sum(ms, out, perm, f, out.len() as int);
    assert forall|k: int| 0 <= k <= out.len() implies 0 <= #[trigger] row_offset(out, k) <= planned_row_width(ms) by {
        lemma_row_offset_sum(ms, out, perm, f, k);
        lemma_seq_sum_prefix_bounds(f, perm, k);
    }
    assert forall|k: int| 0 <= k < out.len() implies (#[trigger] out[k]).position.0 == row_offset(out, k) by {
        assert(out[k] == planned_config(ms[perm[k]], row_offset(out, k)));
        assert(0 <= row_offset(out, k) <= planned_row_width(ms));
    }
    assert forall|k: int| 0 <= k < out.len() implies (#[trigger] out[k]).position.1 == 0 by {
        assert(out[k] == planned_config(ms[perm[k]], row_offset(out, k)));
    }
    assert forall|k: int| 0 <= k < out.len() - 1 implies #[trigger] out[k + 1].position.0 == out[k].position.0
        + effective_width(out[k].mode.width, out[k].scale) by {
        assert(out[k].position.0 == row_offset(out, k));
        assert(out[k + 1].position.0 == row_offset(out, k + 1));
    }
    if out.len() > 0 {
        assert(out[0].position.0 == row_offset(out, 0));
        assert(out[0].position.1 == 0);
    }
}


/// `s` is strictly increasing under `lt`.
pub open spec fn strictly_sorted(lt: spec_fn(int, int) -> bool, s: Seq<int>) -> bool {
    forall|a: int, b: int| 0 <= a < b < s.len() ==> #[trigger] lt(s[a], s[b])
}

/// Two sequences strictly sorted by the same strict order and holding the
/// same elements are equal.
pub proof fn lemma_sorted_same_elements_equal(lt: spec_fn(int, int) -> bool, a: Seq<int>, b: Seq<int>)
    requires
        forall|x: int, y: int| #[trigger] lt(x, y) ==> !lt(y, x),
        strictly_sorted(lt, a),
        strictly_sorted(lt, b),
        forall|x: int| #![trigger a.contains(x)] #![trigger b.contains(x)] a.contains(x) <==> b.contains(x),
    ensures
        a == b,
    decreases a.len(),
{
    if a.len() == 0 {
        if b.len() > 0 {
            assert(b.contains(b[0]));
        }
        assert(a =~= b);
    } else {
        assert(a.contains(a[0]));
        assert(b.len() > 0);
        assert(b.contains(b[0]));
        let j = choose|j: int| 0 <= j < b.len() && b[j] == a[0];
        let i = choose|i: int| 0 <= i < a.len() && a[i] == b[0];
        if a[0] != b[0] {
            assert(j > 0 && i > 0);
            assert(lt(b[0], b[j]));
            assert(lt(a[0], a[i]));
        }
        let a1 = a.drop_first();
        let b1 = b.drop_first();
        assert forall|x: int| #![trigger a1.contains(x)] #![trigger b1.contains(x)] a1.contains(x) implies b1.contains(x) by {
            let p = choose|p: int| 0 <= p < a1.len() && a1[p] == x;
            assert(a[p + 1] == x);
            assert(lt(a[0], a[p + 1]));
            assert(a.contains(x));
            let q = choose|q: int| 0 <= q < b.len() && b[q] == x;
            if q == 0 {
                assert(lt(x, x));
            }
            assert(b1[q - 1] == x);
        }
        assert forall|x: int| #![trigger a1.contains(x)] #![trigger b1.contains(x)] b1.contains(x) implies a1.contains(x) by {
            let p = choose|p: int| 0 <= p < b1.len() && b1[p] == x;
            assert(b[p + 1] == x);
            assert(lt(b[0], b[p + 1]));
            assert(b.contains(x));
            let q = choose|q: int| 0 <= q < a.len() && a[q] == x;
            if q == 0 {
                assert(lt(x, x));
            }
            assert(a1[q - 1] == x);
        }
        assert forall|p: int, q: int| 0 <= p < q < a1.len() implies #[trigger] lt(a1[p], a1[q]) by {
            assert(a1[p] == a[p + 1] && a1[q] == a[q + 1]);
        }
        assert forall|p: int, q: int| 0 <= p < q < b1.len() implies #[trigger] lt(b1[p], b1[q]) by {
            assert(b1[p] == b[p + 1] && b1[q] == b[q + 1]);
        }
        lemma_sorted_same_elements_equal(lt, a1, b1);
        assert(a =~= seq![a[0]] + a1);
        assert(b =~= seq![b[0]] + b1);
    }
}

/// There is one layout order for a list of monitors.
pub proof fn lemma_plan_order_unique(ms: Seq<Monitor>, a: Seq<int>, b: Seq<int>)
    requires
        is_plan_order(ms, a),
        is_plan_order(ms, b),
    ensures
        a == b,
{
    lemma_plan_order_lists_every_monitor(ms, a);
    lemma_plan_order_lists_every_monitor(ms, b);
    assert forall|x: int| #![trigger a.contains(x)] #![trigger b.contains(x)] a.contains(x) <==> b.contains(x) by {
        if a.contains(x) {
            let k = choose|k: int| 0 <= k < a.len() && a[k] == x;
            assert(0 <= a[k] < ms.len());
        }
        if b.contains(x) {
            let k = choose|k: int| 0 <= k < b.len() && b[k] == x;
            assert(0 <= b[k] < ms.len());
        }
    }
    let lt = |x: int, y: int| plan_before(ms, x, y);
    assert forall|x: int, y: int| #[trigger] lt(x, y) implies !lt(y, x) by {
        lemma_plan_before_strict_total(ms, x, y);
    }
    assert forall|p: int, q: int| 0 <= p < q < a.len() implies #[trigger] lt(a[p], a[q]) by {}
    assert forall|p: int, q: int| 0 <= p < q < b.len() implies #[trigger] lt(b[p], b[q]) by {}
    lemma_sorted_same_elements_equal(lt, a, b);
}

proof fn lemma_row_offset_prefix(a: Seq<MonitorConfig>, b: Seq<MonitorConfig>, k: int)
    requires
        0 <= k <= a.len(),
        k <= b.len(),
        forall|j: int| 0 <= j < k ==> #[trigger] a[j] == b[j],
    ensures
        row_offset(a, k) == row_offset(b, k),
    decreases k,
{
    if k > 0 {
        lemma_row_offset_prefix(a, b, k - 1);
        assert(a[k - 1] == b[k - 1]);
    }
}

/// The plan is a function of the monitors: two plans for the same
/// monitors are the same.
pub proof fn lemma_plan_unique(ms: Seq<Monitor>, a: Seq<MonitorConfig>, b: Seq<MonitorConfig>)
    requires
        is_plan(ms, a),
        is_plan(ms, b),
    ensures
        a == b,
{
    let pa = choose|perm: Seq<int>|
        is_plan_order(ms, perm) && forall|k: int|
            0 <= k < a.len() ==> #[trigger] a[k] == planned_config(ms[perm[k]], row_offset(a, k));
    let pb = choose|perm: Seq<int>|
        is_plan_order(ms, perm) && forall|k: int|
            0 <= k < b.len() ==> #[trigger] b[k] == planned_config(ms[perm[k]], row_offset(b, k));
    lemma_plan_order_unique(ms, pa, pb);
    lemma_plan_prefix_equal(ms, a, b, pa, a.len() as int);
    assert(a =~= b);
}

proof fn lemma_plan_prefix_equal(
    ms: Seq<Monitor>,
    a: Seq<MonitorConfig>,
    b: Seq<MonitorConfig>,
    perm: Seq<int>,
    n: int,
)
    requires
        a.len() == b.len(),
        0 <= n <= a.len(),
        forall|k: int| 0 <= k < a.len() ==> #[trigger] a[k] == planned_config(ms[perm[k]], row_offset(a, k)),
        forall|k: int| 0 <= k < b.len() ==> #[trigger] b[k] == planned_config(ms[perm[k]], row_offset(b, k)),
    ensures
        forall|j: int| 0 <= j < n ==> #[trigger] a[j] == b[j],
    decreases n,
{
    if n > 0 {
        lemma_plan_prefix_equal(ms, a, b, perm, n - 1);
        lemma_row_offset_prefix(a, b, n - 1);
        assert(a[n - 1] == planned_config(ms[perm[n - 1]], row_offset(a, n - 1)));
        assert(b[n - 1] == planned_config(ms[perm[n - 1]], row_offset(b, n - 1)));
    }
}

/// When a built-in panel is connected, it heads the plan, at the origin
/// (when the row fits in `i32` coordinates, as `plan` requires).
pub proof fn lemma_laptop_panel_at_origin(ms: Seq<Monitor>, out: Seq<MonitorConfig>, i: int)
    requires
        is_plan(ms, out),
        planned_row_width(ms) <= i32::MAX,
        0 <= i < ms.len(),
        is_internal_name(ms[i].name@),
    ensures
        is_internal_name(out[0].name@),
        out[0].position == (0i32, 0i32),
{
    lemma_plan_covers_every_monitor(ms, out);
    assert(has_planned_entry(out, ms[i]));
    let k = choose|k: int| 0 <= k < out.len() && out[k] == planned_config(ms[i], row_offset(out, k));
    if k > 0 {
        lemma_plan_internal_first(ms, out, 0, k);
    }
    lemma_plan_row_is_contiguous(ms, out);
}

} // verus!
