//! What the inspector offers for the selected monitor: its resolutions,
//! the refresh rates at a resolution, and the mode a resolution selects.
use vstd::prelude::*;
use crate::algo::mode::{any_mode, at_resolution, is_last_max_refresh, last_fastest_at_resolution};
use crate::model::Mode;

verus! {

/// Pixel count of a resolution.
pub open spec fn res_pixels(r: (u32, u32)) -> int {
    r.0 * r.1
}

/// Where `x` goes into `s` (sorted by descending pixel count) so that the
/// order stays stable: after every entry with at least as many pixels.
pub open spec fn insert_pos(s: Seq<(u32, u32)>, x: (u32, u32)) -> int
    decreases s.len(),
{
    if s.len() == 0 {
        0
    } else if res_pixels(s[0]) < res_pixels(x) {
        0
    } else {
        1 + insert_pos(s.drop_first(), x)
    }
}

/// The resolutions of `modes` sorted by descending pixel count, equal
/// counts kept in the order listed (a stable sort).
pub open spec fn sorted_resolutions(modes: Seq<Mode>) -> Seq<(u32, u32)>
    decreases modes.len(),
{
    if modes.len() == 0 {
        Seq::empty()
    } else {
        let s = sorted_resolutions(modes.drop_last());
        let x = (modes.last().width, modes.last().height);
        s.insert(insert_pos(s, x), x)
    }
}

/// `s` with every run of equal neighbours collapsed to one (`Vec::dedup`).
pub open spec fn dedup_runs(s: Seq<(u32, u32)>) -> Seq<(u32, u32)>
    decreases s.len(),
{
    if s.len() <= 1 {
        s
    } else {
        let d = dedup_runs(s.drop_last());
        if s.last() == s[s.len() - 2] {
            d
        } else {
            d.push(s.last())
        }
    }
}

proof fn lemma_insert_pos_len(s: Seq<(u32, u32)>, x: (u32, u32))
    ensures
        0 <= insert_pos(s, x) <= s.len(),
    decreases s.len(),
{
    if s.len() > 0 {
        lemma_insert_pos_len(s.drop_first(), x);
    }
}

proof fn lemma_insert_pos_skip(s: Seq<(u32, u32)>, x: (u32, u32), p: int)
    requires
        0 <= p <= s.len(),
        forall|j: int| 0 <= j < p ==> !(res_pixels(#[trigger] s[j]) < res_pixels(x)),
    ensures
        insert_pos(s, x) == p + insert_pos(s.skip(p), x),
    decreases p,
{
    if p > 0 {
        assert(s.drop_first().skip(p - 1) =~= s.skip(p));
        assert forall|j: int| 0 <= j < p - 1 implies !(res_pixels(#[trigger] s.drop_first()[j]) < res_pixels(x)) by {
            assert(s.drop_first()[j] == s[j + 1]);
        }
        lemma_insert_pos_skip(s.drop_first(), x, p - 1);
        assert(!(res_pixels(s[0]) < res_pixels(x)));
    } else {
        assert(s.skip(0) =~= s);
    }
}

fn res_pixels_exec(r: (u32, u32)) -> (p: u64)
    ensures
        p == res_pixels(r),
{
    proof {
        vstd::arithmetic::mul::lemma_mul_upper_bound(r.0 as int, u32::MAX as int, r.1 as int, u32::MAX as int);
    }
    (r.0 as u64) * (r.1 as u64)
}

/// The resolutions offered, most pixels first (equal pixel counts in the
/// order listed), with runs of the same resolution shown once.
pub fn resolutions(modes: &[Mode]) -> (r: Vec<(u32, u32)>)
    ensures
        r@ == dedup_runs(sorted_resolutions(modes@)),
{
    let mut sorted: Vec<(u32, u32)> = Vec::new();
    let mut i: usize = 0;
    while i < modes.len()
        invariant
            i <= modes.len(),
            sorted@ == sorted_resolutions(modes@.subrange(0, i as int)),
        decreases modes.len() - i,
    {
        let x = (modes[i].width, modes[i].height);
        let px = res_pixels_exec(x);
        let mut p: usize = 0;
        while p < sorted.len() && !(res_pixels_exec(sorted[p]) < px)
            invariant
                p <= sorted.len(),
                px == res_pixels(x),
                forall|j: int| 0 <= j < p ==> !(res_pixels(#[trigger] sorted@[j]) < res_pixels(x)),
            decreases sorted.len() - p,
        {
            p = p + 1;
        }
        proof {
            lemma_insert_pos_skip(sorted@, x, p as int);
            if p < sorted.len() {
                assert(sorted@.skip(p as int)[0] == sorted@[p as int]);
            } else {
                assert(sorted@.skip(p as int).len() == 0);
            }
            let t = modes@.subrange(0, i as int + 1);
            assert(t.drop_last() =~= modes@.subrange(0, i as int));
            assert(t.last() == modes@[i as int]);
        }
        sorted.insert(p, x);
        i = i + 1;
    }
    proof {
        assert(modes@.subrange(0, modes.len() as int) =~= modes@);
    }
    let mut out: Vec<(u32, u32)> = Vec::new();
    let mut k: usize = 0;
    while k < sorted.len()
        invariant
            k <= sorted.len(),
            out@ == dedup_runs(sorted@.subrange(0, k as int)),
        decreases sorted.len() - k,
    {
        let ghost t = sorted@.subrange(0, k as int + 1);
        proof {
            assert(t.drop_last() =~= sorted@.subrange(0, k as int));
            assert(t.last() == sorted@[k as int]);
        }
        if k == 0 {
            out.push(sorted[k]);
            assert(t =~= seq![sorted@[0]]);
        } else {
            let a = sorted[k];
            let b = sorted[k - 1];
            assert(t[t.len() - 2] == sorted@[k - 1]);
            if a.0 != b.0 || a.1 != b.1 {
                out.push(a);
            }
        }
        k = k + 1;
    }
    proof {
        assert(sorted@.subrange(0, sorted.len() as int) =~= sorted@);
    }
    out
}

/// `r` is the refresh rates offered at `w`x`h`: each once, fastest first.
pub open spec fn is_refresh_options(modes: Seq<Mode>, w: u32, h: u32, r: Seq<u32>) -> bool {
    &&& forall|a: int, b: int| 0 <= a < b < r.len() ==> #[trigger] r[a] > #[trigger] r[b]
    &&& forall|v: u32|
        #[trigger] r.contains(v) <==> exists|k: int|
            0 <= k < modes.len() && modes[k].width == w && modes[k].height == h
                && #[trigger] modes[k].refresh_millihz == v
}

/// The refresh rates (millihertz) offered at resolution `w`x`h`, fastest
/// first, each once.
pub fn refresh_options(modes: &[Mode], w: u32, h: u32) -> (r: Vec<u32>)
    ensures
        is_refresh_options(modes@, w, h, r@),
{
    let mut out: Vec<u32> = Vec::new();
    let mut i: usize = 0;
    while i < modes.len()
        invariant
            i <= modes.len(),
            is_refresh_options(modes@.subrange(0, i as int), w, h, out@),
        decreases modes.len() - i,
    {
        let m = modes[i];
        let ghost before = out@;
        let ghost pre = modes@.subrange(0, i as int);
        let ghost post = modes@.subrange(0, i as int + 1);
        proof {
            assert forall|k: int| 0 <= k < pre.len() implies post[k] == #[trigger] pre[k] by {}
            assert(post[i as int] == m);
        }
        if m.width == w && m.height == h {
            let v = m.refresh_millihz;
            let mut p: usize = 0;
            while p < out.len() && out[p] > v
                invariant
                    p <= out.len(),
                    forall|j: int| 0 <= j < p ==> #[trigger] out@[j] > v,
                decreases out.len() - p,
            {
                p = p + 1;
            }
            if p < out.len() && out[p] == v {
                proof {
                    assert forall|x: u32| #[trigger] out@.contains(x) <==> exists|k: int|
                        0 <= k < post.len() && post[k].width == w && post[k].height == h
                            && #[trigger] post[k].refresh_millihz == x by {
                        if x == v {
                            assert(out@[p as int] == v);
                            assert(post[i as int].refresh_millihz == v);
                        }
                        if exists|k: int|
                            0 <= k < post.len() && post[k].width == w && post[k].height == h
                                && #[trigger] post[k].refresh_millihz == x {
                            let k = choose|k: int|
                                0 <= k < post.len() && post[k].width == w && post[k].height == h
                                    && #[trigger] post[k].refresh_millihz == x;
                            if k < i {
                                assert(pre[k] == post[k]);
                                assert(pre[k].refresh_millihz == x);
                            }
                        }
                        if out@.contains(x) {
                            let k = choose|k: int|
                                0 <= k < pre.len() && pre[k].width == w && pre[k].height == h
                                    && #[trigger] pre[k].refresh_millihz == x;
                            assert(post[k] == pre[k]);
                        }
                    }
                }
            } else {
                proof {
                    if p < out.len() {
                        assert(out@[p as int] < v);
                    }
                }
                out.insert(p, v);
                proof {
                    assert forall|a: int, b: int| 0 <= a < b < out@.len() implies #[trigger] out@[a] > #[trigger] out@[b] by {
                        if b < p {
                            assert(out@[a] == before[a] && out@[b] == before[b]);
                        } else if b == p {
                            assert(out@[a] == before[a]);
                        } else if a < p {
                            assert(out@[a] == before[a] && out@[b] == before[b - 1]);
                            assert(before[a] > v);
                            if b - 1 > p {
                                assert(before[p as int] > before[b - 1]);
                            }
                        } else if a == p {
                            assert(out@[b] == before[b - 1]);
                            if b - 1 > p {
                                assert(before[p as int] > before[b - 1]);
                            }
                        } else {
                            assert(out@[a] == before[a - 1] && out@[b] == before[b - 1]);
                        }
                    }
                    assert forall|x: u32| #[trigger] out@.contains(x) <==> exists|k: int|
                        0 <= k < post.len() && post[k].width == w && post[k].height == h
                            && #[trigger] post[k].refresh_millihz == x by {
                        if x == v {
                            assert(out@[p as int] == v);
                            assert(post[i as int].refresh_millihz == v);
                        }
                        if out@.contains(x) && x != v {
                            let q = choose|q: int| 0 <= q < out@.len() && out@[q] == x;
                            if q < p {
                                assert(before[q] == x);
                            } else {
                                assert(q != p);
                                assert(before[q - 1] == x);
                            }
                            assert(before.contains(x));
                            let k = choose|k: int|
                                0 <= k < pre.len() && pre[k].width == w && pre[k].height == h
                                    && #[trigger] pre[k].refresh_millihz == x;
                            assert(post[k] == pre[k]);
                        }
                        if x != v && exists|k: int|
                            0 <= k < post.len() && post[k].width == w && post[k].height == h
                                && #[trigger] post[k].refresh_millihz == x {
                            let k = choose|k: int|
                                0 <= k < post.len() && post[k].width == w && post[k].height == h
                                    && #[trigger] post[k].refresh_millihz == x;
                            assert(k != i);
                            assert(pre[k] == post[k]);
                            assert(pre[k].refresh_millihz == x);
                            assert(before.contains(x));
                            let q = choose|q: int| 0 <= q < before.len() && before[q] == x;
                            if q < p {
                                assert(out@[q] == x);
                            } else {
                                assert(out@[q + 1] == x);
                            }
                        }
                    }
                }
            }
        } else {
            proof {
                assert forall|x: u32| #[trigger] out@.contains(x) <==> exists|k: int|
                    0 <= k < post.len() && post[k].width == w && post[k].height == h
                        && #[trigger] post[k].refresh_millihz == x by {
                    if exists|k: int|
                        0 <= k < post.len() && post[k].width == w && post[k].height == h
                            && #[trigger] post[k].refresh_millihz == x {
                        let k = choose|k: int|
                            0 <= k < post.len() && post[k].width == w && post[k].height == h
                                && #[trigger] post[k].refresh_millihz == x;
                        assert(k != i);
                        assert(pre[k] == post[k]);
                        assert(pre[k].refresh_millihz == x);
                    }
                    if out@.contains(x) {
                        let k = choose|k: int|
                            0 <= k < pre.len() && pre[k].width == w && pre[k].height == h
                                && #[trigger] pre[k].refresh_millihz == x;
                        assert(post[k] == pre[k]);
                    }
                }
            }
        }
        i = i + 1;
    }
    proof {
        assert(modes@.subrange(0, modes.len() as int) =~= modes@);
    }
    out
}

/// The mode selecting resolution `w`x`h` picks: the fastest at that
/// resolution (the last of equally fast ones listed), `None` when the
/// resolution is not offered.
pub fn fastest_at(modes: &[Mode], w: u32, h: u32) -> (r: Option<Mode>)
    ensures
        r is None <==> !any_mode(modes@, at_resolution(w, h)),
        r matches Some(m) ==> exists|i: int|
            is_last_max_refresh(modes@, i, at_resolution(w, h)) && m == #[trigger] modes@[i],
{
    match last_fastest_at_resolution(modes, w, h) {
        Some(i) => {
            assert(is_last_max_refresh(modes@, i as int, at_resolution(w, h)) && modes[i as int] == modes@[i as int]);
            Some(modes[i])
        },
        None => None,
    }
}

} // verus!
