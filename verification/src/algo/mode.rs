//! Choosing a monitor's mode.
use vstd::prelude::*;
use crate::model::Mode;

verus! {

/// `i` is the last index among the modes satisfying `keep` whose refresh
/// rate is the highest among them (the element `Iterator::max_by` yields).
pub open spec fn is_last_max_refresh(modes: Seq<Mode>, i: int, keep: spec_fn(Mode) -> bool) -> bool {
    &&& 0 <= i < modes.len()
    &&& keep(modes[i])
    &&& forall|j: int|
        0 <= j < modes.len() && #[trigger] keep(modes[j]) ==> modes[j].refresh_millihz
            <= modes[i].refresh_millihz
    &&& forall|j: int|
        i < j < modes.len() && #[trigger] keep(modes[j]) ==> modes[j].refresh_millihz
            < modes[i].refresh_millihz
}

/// Modes at resolution `w`x`h`.
pub open spec fn at_resolution(w: u32, h: u32) -> spec_fn(Mode) -> bool {
    |m: Mode| m.width == w && m.height == h
}

/// Modes with exactly `p` pixels.
pub open spec fn with_pixels(p: int) -> spec_fn(Mode) -> bool {
    |m: Mode| m.pixels() == p
}

/// The largest pixel count among `modes` (0 for none).
pub open spec fn max_pixels(modes: Seq<Mode>) -> int
    decreases modes.len(),
{
    if modes.len() == 0 {
        0
    } else {
        let rest = max_pixels(modes.drop_last());
        if modes.last().pixels() > rest {
            modes.last().pixels()
        } else {
            rest
        }
    }
}

/// Some mode satisfies `keep`.
pub open spec fn any_mode(modes: Seq<Mode>, keep: spec_fn(Mode) -> bool) -> bool {
    exists|j: int| 0 <= j < modes.len() && #[trigger] keep(modes[j])
}

/// The mode chosen for a monitor: when the EDID's preferred resolution is
/// known and offered, the fastest mode at that resolution; otherwise the
/// fastest mode among those with the most pixels; `None` for no modes.
/// Among equally fast candidates the last one listed wins.
pub open spec fn chosen_mode(modes: Seq<Mode>, preferred: Option<(u32, u32)>, r: Option<Mode>) -> bool {
    match preferred {
        Some((pw, ph)) if any_mode(modes, at_resolution(pw, ph)) => exists|i: int|
            is_last_max_refresh(modes, i, at_resolution(pw, ph)) && r == Some(modes[i]),
        _ => if modes.len() == 0 {
            r is None
        } else {
            exists|i: int|
                is_last_max_refresh(modes, i, with_pixels(max_pixels(modes))) && r == Some(
                    modes[i],
                )
        },
    }
}

/// The mode `pick_best_mode` chooses.
pub open spec fn best_mode(modes: Seq<Mode>, preferred: Option<(u32, u32)>) -> Option<Mode> {
    choose|r: Option<Mode>| chosen_mode(modes, preferred, r)
}

/// At most one result meets `chosen_mode`: it is `best_mode`.
pub proof fn lemma_chosen_mode_unique(modes: Seq<Mode>, preferred: Option<(u32, u32)>, r: Option<Mode>)
    requires
        chosen_mode(modes, preferred, r),
    ensures
        r == best_mode(modes, preferred),
{
    let b = best_mode(modes, preferred);
    assert(chosen_mode(modes, preferred, b));
    match preferred {
        Some((pw, ph)) if any_mode(modes, at_resolution(pw, ph)) => {
            let keep = at_resolution(pw, ph);
            let i = choose|i: int| is_last_max_refresh(modes, i, keep) && r == Some(modes[i]);
            let k = choose|k: int| is_last_max_refresh(modes, k, keep) && b == Some(modes[k]);
            lemma_last_max_unique(modes, i, k, keep);
        },
        _ => {
            if modes.len() > 0 {
                let keep = with_pixels(max_pixels(modes));
                let i = choose|i: int| is_last_max_refresh(modes, i, keep) && r == Some(modes[i]);
                let k = choose|k: int| is_last_max_refresh(modes, k, keep) && b == Some(modes[k]);
                lemma_last_max_unique(modes, i, k, keep);
            }
        },
    }
}

/// What the chosen mode is, in terms of the offered modes alone. When the
/// preferred resolution is offered, the choice is at that resolution and no
/// mode there is faster. Otherwise (and for at least one mode) it is an
/// offered mode whose pixel count `width * height` is at least that of
/// every offered mode, and no mode with as many pixels is faster.
pub proof fn lemma_chosen_mode_meaning(modes: Seq<Mode>, preferred: Option<(u32, u32)>, r: Option<Mode>)
    requires
        chosen_mode(modes, preferred, r),
    ensures
        match preferred {
            Some((pw, ph)) => (exists|j: int|
                0 <= j < modes.len() && #[trigger] modes[j].width == pw && modes[j].height == ph) ==> (
            r matches Some(b) && exists|i: int| 0 <= i < modes.len() && modes[i] == b && b.width == pw
                && b.height == ph && forall|j: int|
                0 <= j < modes.len() && #[trigger] modes[j].width == pw && modes[j].height == ph
                    ==> modes[j].refresh_millihz <= b.refresh_millihz),
            None => true,
        },
        (modes.len() > 0 && !(preferred matches Some((pw, ph)) && exists|j: int|
            0 <= j < modes.len() && #[trigger] modes[j].width == pw && modes[j].height == ph)) ==> (
        r matches Some(b) && exists|i: int| 0 <= i < modes.len() && modes[i] == b && forall|j: int|
            0 <= j < modes.len() ==> (#[trigger] modes[j]).width * modes[j].height <= b.width * b.height
                && (modes[j].width * modes[j].height == b.width * b.height ==> modes[j].refresh_millihz
                <= b.refresh_millihz)),
        modes.len() == 0 ==> r is None,
{
    let matched = preferred matches Some((pw, ph)) && exists|j: int|
        0 <= j < modes.len() && #[trigger] modes[j].width == pw && modes[j].height == ph;
    match preferred {
        Some((pw, ph)) => {
            if exists|j: int| 0 <= j < modes.len() && #[trigger] modes[j].width == pw && modes[j].height == ph {
                let j = choose|j: int| 0 <= j < modes.len() && #[trigger] modes[j].width == pw && modes[j].height == ph;
                assert(at_resolution(pw, ph)(modes[j]));
                assert(any_mode(modes, at_resolution(pw, ph)));
                let i = choose|i: int| is_last_max_refresh(modes, i, at_resolution(pw, ph)) && r == Some(modes[i]);
                assert forall|j: int|
                    0 <= j < modes.len() && #[trigger] modes[j].width == modes[i].width && modes[j].height
                        == modes[i].height implies modes[j].refresh_millihz <= modes[i].refresh_millihz by {
                    assert(at_resolution(pw, ph)(modes[j]));
                }
            } else {
                assert(!any_mode(modes, at_resolution(pw, ph))) by {
                    if any_mode(modes, at_resolution(pw, ph)) {
                        let j = choose|j: int| 0 <= j < modes.len() && #[trigger] at_resolution(pw, ph)(modes[j]);
                        assert(modes[j].width == pw && modes[j].height == ph);
                    }
                }
            }
        },
        None => {},
    }
    if !matched && modes.len() > 0 {
        let keep = with_pixels(max_pixels(modes));
        let i = choose|i: int| is_last_max_refresh(modes, i, keep) && r == Some(modes[i]);
        lemma_max_pixels_props(modes);
        assert forall|j: int| 0 <= j < modes.len() implies (#[trigger] modes[j]).width * modes[j].height
            <= modes[i].width * modes[i].height && (modes[j].width * modes[j].height == modes[i].width
            * modes[i].height ==> modes[j].refresh_millihz <= modes[i].refresh_millihz) by {
            assert(modes[j].pixels() <= max_pixels(modes));
            if modes[j].width * modes[j].height == modes[i].width * modes[i].height {
                assert(keep(modes[j]));
            }
        }
    }
}

/// Two indices satisfying `is_last_max_refresh` for the same filter are the
/// same index, so the choice above is a function of the modes.
pub proof fn lemma_last_max_unique(modes: Seq<Mode>, i: int, k: int, keep: spec_fn(Mode) -> bool)
    requires
        is_last_max_refresh(modes, i, keep),
        is_last_max_refresh(modes, k, keep),
    ensures
        i == k,
{
    if i < k {
        assert(keep(modes[k]));
    } else if k < i {
        assert(keep(modes[i]));
    }
}

fn pixels_of(m: &Mode) -> (p: u64)
    ensures
        p == m.pixels(),
{
    proof {
        vstd::arithmetic::mul::lemma_mul_upper_bound(
            m.width as int,
            u32::MAX as int,
            m.height as int,
            u32::MAX as int,
        );
    }
    (m.width as u64) * (m.height as u64)
}

proof fn lemma_max_pixels_props(modes: Seq<Mode>)
    ensures
        forall|j: int| 0 <= j < modes.len() ==> #[trigger] modes[j].pixels() <= max_pixels(modes),
        modes.len() > 0 ==> exists|j: int|
            0 <= j < modes.len() && #[trigger] modes[j].pixels() == max_pixels(modes),
        max_pixels(modes) >= 0,
    decreases modes.len(),
{
    if modes.len() > 0 {
        let rest = modes.drop_last();
        lemma_max_pixels_props(rest);
        assert forall|j: int| 0 <= j < modes.len() implies #[trigger] modes[j].pixels()
            <= max_pixels(modes) by {
            if j < modes.len() - 1 {
                assert(modes[j] == rest[j]);
            }
        }
        if modes.last().pixels() > max_pixels(rest) {
            assert(modes[modes.len() - 1].pixels() == max_pixels(modes));
        } else if rest.len() > 0 {
            let j = choose|j: int| 0 <= j < rest.len() && #[trigger] rest[j].pixels() == max_pixels(rest);
            assert(modes[j] == rest[j]);
        } else {
            assert(max_pixels(rest) == 0);
            assert(modes[0].pixels() >= 0) by (nonlinear_arith)
                requires modes[0].width >= 0, modes[0].height >= 0, modes[0].pixels() == modes[0].width * modes[0].height;
            assert(modes[modes.len() - 1].pixels() == max_pixels(modes));
        }
    }
}

/// Largest pixel count among `modes`.
fn compute_max_pixels(modes: &[Mode]) -> (p: u64)
    ensures
        p == max_pixels(modes@),
{
    let mut best: u64 = 0;
    let mut i: usize = 0;
    while i < modes.len()
        invariant
            i <= modes.len(),
            best == max_pixels(modes@.subrange(0, i as int)),
        decreases modes.len() - i,
    {
        let p = pixels_of(&modes[i]);
        proof {
            let s = modes@.subrange(0, i as int + 1);
            assert(s.drop_last() == modes@.subrange(0, i as int));
            assert(s.last() == modes@[i as int]);
        }
        if p > best {
            best = p;
        }
        i = i + 1;
    }
    proof {
        assert(modes@.subrange(0, modes.len() as int) == modes@);
    }
    best
}

/// Index of the last fastest mode at resolution `w`x`h`, if any.
pub(crate) fn last_fastest_at_resolution(modes: &[Mode], w: u32, h: u32) -> (r: Option<usize>)
    ensures
        r is None <==> !any_mode(modes@, at_resolution(w, h)),
        r matches Some(i) ==> is_last_max_refresh(modes@, i as int, at_resolution(w, h)),
{
    let ghost keep = at_resolution(w, h);
    let mut best: Option<usize> = None;
    let mut i: usize = 0;
    while i < modes.len()
        invariant
            i <= modes.len(),
            keep == at_resolution(w, h),
            best is None ==> forall|j: int| 0 <= j < i ==> !#[trigger] keep(modes@[j]),
            best matches Some(b) ==> {
                &&& b < i
                &&& keep(modes@[b as int])
                &&& forall|j: int|
                    0 <= j < i && #[trigger] keep(modes@[j]) ==> modes@[j].refresh_millihz
                        <= modes@[b as int].refresh_millihz
                &&& forall|j: int|
                    b < j < i && #[trigger] keep(modes@[j]) ==> modes@[j].refresh_millihz
                        < modes@[b as int].refresh_millihz
            },
        decreases modes.len() - i,
    {
        let m = modes[i];
        if m.width == w && m.height == h {
            match best {
                None => {
                    best = Some(i);
                },
                Some(b) => {
                    if m.refresh_millihz >= modes[b].refresh_millihz {
                        best = Some(i);
                    }
                },
            }
        }
        i = i + 1;
    }
    best
}

/// Index of the last fastest mode with exactly `p` pixels, if any.
fn last_fastest_with_pixels(modes: &[Mode], p: u64) -> (r: Option<usize>)
    ensures
        r is None <==> !any_mode(modes@, with_pixels(p as int)),
        r matches Some(i) ==> is_last_max_refresh(modes@, i as int, with_pixels(p as int)),
{
    let ghost keep = with_pixels(p as int);
    let mut best: Option<usize> = None;
    let mut i: usize = 0;
    while i < modes.len()
        invariant
            i <= modes.len(),
            keep == with_pixels(p as int),
            best is None ==> forall|j: int| 0 <= j < i ==> !#[trigger] keep(modes@[j]),
            best matches Some(b) ==> {
                &&& b < i
                &&& keep(modes@[b as int])
                &&& forall|j: int|
                    0 <= j < i && #[trigger] keep(modes@[j]) ==> modes@[j].refresh_millihz
                        <= modes@[b as int].refresh_millihz
                &&& forall|j: int|
                    b < j < i && #[trigger] keep(modes@[j]) ==> modes@[j].refresh_millihz
                        < modes@[b as int].refresh_millihz
            },
        decreases modes.len() - i,
    {
        let m = modes[i];
        if pixels_of(&m) == p {
            match best {
                None => {
                    best = Some(i);
                },
                Some(b) => {
                    if m.refresh_millihz >= modes[b].refresh_millihz {
                        best = Some(i);
                    }
                },
            }
        }
        i = i + 1;
    }
    best
}

/// Pick the best mode for a monitor.
///
/// When `preferred` is `Some((w, h))` and at least one mode matches that
/// resolution, the chosen mode is the highest-refresh one at that
/// resolution: the EDID's preferred timing is authoritative about the native
/// panel size, which guards against monitors that advertise upscaled modes.
/// Otherwise the most pixels win, then the highest refresh rate.
pub fn pick_best_mode(modes: &[Mode], preferred: Option<(u32, u32)>) -> (r: Option<Mode>)
    ensures
        chosen_mode(modes@, preferred, r),
        r == best_mode(modes@, preferred),
        (modes@.len() > 0 && !(preferred matches Some((pw, ph)) && exists|j: int|
            0 <= j < modes@.len() && #[trigger] modes@[j].width == pw && modes@[j].height == ph)) ==> (
        r matches Some(b) && exists|i: int| 0 <= i < modes@.len() && modes@[i] == b && forall|j: int|
            0 <= j < modes@.len() ==> (#[trigger] modes@[j]).width * modes@[j].height <= b.width
                * b.height),
{
    let r = pick_best_mode_inner(modes, preferred);
    proof {
        lemma_chosen_mode_unique(modes@, preferred, r);
        lemma_chosen_mode_meaning(modes@, preferred, r);
    }
    r
}

fn pick_best_mode_inner(modes: &[Mode], preferred: Option<(u32, u32)>) -> (r: Option<Mode>)
    ensures
        chosen_mode(modes@, preferred, r),
{
    if let Some((pw, ph)) = preferred {
        if let Some(i) = last_fastest_at_resolution(modes, pw, ph) {
            return Some(modes[i]);
        }
    }
    if modes.len() == 0 {
        return None;
    }
    let p = compute_max_pixels(modes);
    proof {
        lemma_max_pixels_props(modes@);
        let j = choose|j: int| 0 <= j < modes@.len() && #[trigger] modes@[j].pixels() == max_pixels(modes@);
        assert(with_pixels(p as int)(modes@[j]));
    }
    match last_fastest_with_pixels(modes, p) {
        Some(i) => Some(modes[i]),
        None => None,
    }
}

} // verus!
