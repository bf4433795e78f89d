//! The decisions of the background daemon: debouncing hotplug events,
//! reconnecting to Hyprland with exponential backoff, and checking that an
//! applied plan took effect.
use vstd::prelude::*;
use crate::model::{format_hz, hz_text, Monitor, MonitorConfig};
use crate::names::str_eq;
use vstd::arithmetic::power2::{lemma_pow2_pos, lemma_pow2_unfold, pow2};
use crate::text::{nat_digits, push_u64};

verus! {

/// Quiet period after the last hotplug event before reconfiguring.
pub const DEBOUNCE_MS: u64 = 200;

/// Longest wait between reconnection attempts.
pub const MAX_BACKOFF_SECS: u64 = 30;

/// Whether the reactor is waiting for the end of a burst of events.
#[derive(Debug, Clone, Copy, PartialEq, Eq, Structural)]
pub enum Debounce {
    Idle,
    Settling,
}

/// What the reactor is told.
#[derive(Debug, Clone, Copy, PartialEq, Eq, Structural)]
pub enum DebounceEvent {
    /// A monitor was added or removed.
    Hotplug,
    /// `DEBOUNCE_MS` passed since the timer was (re)started.
    QuietPeriodElapsed,
}

/// What the reactor does.
#[derive(Debug, Clone, Copy, PartialEq, Eq, Structural)]
pub enum DebounceAction {
    /// (Re)start the `DEBOUNCE_MS` timer.
    StartTimer,
    /// Reconfigure the monitors now.
    Reconfigure,
    Nothing,
}

/// One step of the debouncer: every hotplug (re)starts the timer; the timer
/// running out after a burst triggers one reconfigure.
pub open spec fn debounce_spec(state: Debounce, event: DebounceEvent) -> (Debounce, DebounceAction) {
    match (state, event) {
        (_, DebounceEvent::Hotplug) => (Debounce::Settling, DebounceAction::StartTimer),
        (Debounce::Settling, DebounceEvent::QuietPeriodElapsed) => (
            Debounce::Idle,
            DebounceAction::Reconfigure,
        ),
        (Debounce::Idle, DebounceEvent::QuietPeriodElapsed) => (Debounce::Idle, DebounceAction::Nothing),
    }
}

/// The next debouncer state and what to do.
pub fn debounce_step(state: Debounce, event: DebounceEvent) -> (r: (Debounce, DebounceAction))
    ensures
        r == debounce_spec(state, event),
{
    match event {
        DebounceEvent::Hotplug => (Debounce::Settling, DebounceAction::StartTimer),
        DebounceEvent::QuietPeriodElapsed => match state {
            Debounce::Settling => (Debounce::Idle, DebounceAction::Reconfigure),
            Debounce::Idle => (Debounce::Idle, DebounceAction::Nothing),
        },
    }
}

/// Actions taken for a sequence of events, from `state`.
pub open spec fn debounce_run(state: Debounce, events: Seq<DebounceEvent>) -> Seq<DebounceAction>
    decreases events.len(),
{
    if events.len() == 0 {
        Seq::empty()
    } else {
        let (next, action) = debounce_spec(state, events[0]);
        seq![action] + debounce_run(next, events.drop_first())
    }
}

/// Number of reconfigures among `actions`.
pub open spec fn reconfigures(actions: Seq<DebounceAction>) -> nat
    decreases actions.len(),
{
    if actions.len() == 0 {
        0
    } else {
        reconfigures(actions.drop_first()) + if actions[0] == DebounceAction::Reconfigure {
            1nat
        } else {
            0nat
        }
    }
}

/// Number of hotplug events among `events`.
pub open spec fn hotplugs(events: Seq<DebounceEvent>) -> nat
    decreases events.len(),
{
    if events.len() == 0 {
        0
    } else {
        hotplugs(events.drop_first()) + if events[0] == DebounceEvent::Hotplug {
            1nat
        } else {
            0nat
        }
    }
}

/// `n` hotplug events, then the quiet period running out.
pub open spec fn burst(n: nat) -> Seq<DebounceEvent> {
    Seq::new(n, |i: int| DebounceEvent::Hotplug).push(DebounceEvent::QuietPeriodElapsed)
}

/// A burst of hotplug events followed by the quiet period restarts the
/// timer on each event and then reconfigures exactly once, whatever state
/// the burst started in.
pub proof fn lemma_burst_reconfigures_once(state: Debounce, n: nat)
    requires
        n >= 1,
    ensures
        debounce_run(state, burst(n)) == Seq::new(n, |i: int| DebounceAction::StartTimer).push(
            DebounceAction::Reconfigure,
        ),
        reconfigures(debounce_run(state, burst(n))) == 1,
    decreases n,
{
    let evs = burst(n);
    assert(evs[0] == DebounceEvent::Hotplug);
    if n == 1 {
        assert(evs.drop_first() =~= seq![DebounceEvent::QuietPeriodElapsed]);
        let tail = seq![DebounceEvent::QuietPeriodElapsed];
        assert(tail.drop_first() =~= Seq::<DebounceEvent>::empty());
        assert(debounce_run(Debounce::Idle, tail.drop_first()) =~= Seq::<DebounceAction>::empty());
        assert(debounce_run(Debounce::Settling, tail) =~= seq![DebounceAction::Reconfigure]);
        assert(debounce_run(state, evs) =~= seq![DebounceAction::StartTimer, DebounceAction::Reconfigure]);
        assert(Seq::new(1, |i: int| DebounceAction::StartTimer).push(DebounceAction::Reconfigure)
            =~= seq![DebounceAction::StartTimer, DebounceAction::Reconfigure]);
        let acts = seq![DebounceAction::StartTimer, DebounceAction::Reconfigure];
        assert(acts.drop_first() =~= seq![DebounceAction::Reconfigure]);
        assert(seq![DebounceAction::Reconfigure].drop_first() =~= Seq::<DebounceAction>::empty());
        assert(reconfigures(Seq::<DebounceAction>::empty()) == 0);
        assert(reconfigures(seq![DebounceAction::Reconfigure]) == 1);
        assert(reconfigures(acts) == 1);
    } else {
        assert(evs.drop_first() =~= burst((n - 1) as nat));
        lemma_burst_reconfigures_once(Debounce::Settling, (n - 1) as nat);
        let rest = Seq::new((n - 1) as nat, |i: int| DebounceAction::StartTimer).push(
            DebounceAction::Reconfigure,
        );
        let all = Seq::new(n, |i: int| DebounceAction::StartTimer).push(DebounceAction::Reconfigure);
        assert(all =~= seq![DebounceAction::StartTimer] + rest);
        assert(all.drop_first() =~= rest);
    }
}

/// However events arrive, the reactor reconfigures at most once per hotplug
/// event (plus once for a burst already under way): nothing is applied
/// without a monitor having changed.
pub proof fn lemma_reconfigures_at_most_hotplugs(state: Debounce, events: Seq<DebounceEvent>)
    ensures
        reconfigures(debounce_run(state, events)) <= hotplugs(events) + if state == Debounce::Settling {
            1nat
        } else {
            0nat
        },
    decreases events.len(),
{
    if events.len() > 0 {
        let (next, action) = debounce_spec(state, events[0]);
        lemma_reconfigures_at_most_hotplugs(next, events.drop_first());
        let acts = debounce_run(state, events);
        assert(acts =~= seq![action] + debounce_run(next, events.drop_first()));
        assert(acts.drop_first() =~= debounce_run(next, events.drop_first()));
    }
}

/// What to do after the event listener stopped.
#[derive(Debug, Clone, Copy, PartialEq, Eq, Structural)]
pub enum ListenerAction {
    /// It exited cleanly (Hyprland may have restarted): reconfigure, then
    /// reconnect at once.
    ReconfigureAndReconnect,
    /// It failed: wait this many seconds, then reconnect.
    RetryAfter(u64),
}

/// Backoff after a failure: doubled, at most `MAX_BACKOFF_SECS`.
pub open spec fn next_backoff_spec(secs: u64) -> u64 {
    if 2 * secs < MAX_BACKOFF_SECS {
        (2 * secs) as u64
    } else {
        MAX_BACKOFF_SECS
    }
}

/// The backoff after `k` failures in a row since the last clean exit (or
/// the start): the wait before the next reconnection attempt.
pub open spec fn backoff_after_failures(k: nat) -> u64
    decreases k,
{
    if k == 0 {
        1
    } else {
        next_backoff_spec(backoff_after_failures((k - 1) as nat))
    }
}

/// Over a run of failures the wait doubles from one second up to
/// `MAX_BACKOFF_SECS`: the `i`-th failure of a run (`on_listener_exit`
/// answers `RetryAfter` with the current backoff) waits
/// `min(2^(i-1), 30)` seconds, so a reconnection is always tried within
/// 30 s.
pub proof fn lemma_backoff_doubles_to_cap(k: nat)
    ensures
        backoff_after_failures(k) == (if pow2(k) < MAX_BACKOFF_SECS { pow2(k) } else { MAX_BACKOFF_SECS as nat }),
        1 <= backoff_after_failures(k) <= MAX_BACKOFF_SECS,
    decreases k,
{
    if k == 0 {
        vstd::arithmetic::power2::lemma2_to64();
    } else {
        lemma_backoff_doubles_to_cap((k - 1) as nat);
        lemma_pow2_unfold(k);
        lemma_pow2_pos((k - 1) as nat);
    }
}

/// The listener stopped, cleanly or not: the action, and the backoff for
/// the next failure (reset to one second after a clean exit).
pub fn on_listener_exit(backoff_secs: u64, clean: bool) -> (r: (ListenerAction, u64))
    requires
        backoff_secs <= MAX_BACKOFF_SECS,
    ensures
        clean ==> r == (ListenerAction::ReconfigureAndReconnect, 1u64),
        !clean ==> r == (ListenerAction::RetryAfter(backoff_secs), next_backoff_spec(backoff_secs)),
        r.1 <= MAX_BACKOFF_SECS,
        backoff_secs >= 1 ==> r.1 >= 1,
{
    if clean {
        (ListenerAction::ReconfigureAndReconnect, 1)
    } else {
        let doubled = backoff_secs * 2;
        let next = if doubled < MAX_BACKOFF_SECS {
            doubled
        } else {
            MAX_BACKOFF_SECS
        };
        (ListenerAction::RetryAfter(backoff_secs), next)
    }
}

/// The monitor reports the resolution that was requested (the refresh
/// rate is not reported back, so it is not compared).
pub open spec fn mode_matches_spec(actual: Monitor, cfg: MonitorConfig) -> bool {
    actual.width_px == cfg.mode.width && actual.height_px == cfg.mode.height
}

/// Whether the applied resolution is the requested one.
pub fn mode_matches(actual: &Monitor, cfg: &MonitorConfig) -> (b: bool)
    ensures
        b == mode_matches_spec(*actual, *cfg),
{
    actual.width_px == cfg.mode.width && actual.height_px == cfg.mode.height
}

/// Index of the first monitor named `name`.
pub open spec fn first_named(ms: Seq<Monitor>, name: Seq<char>) -> Option<int>
    decreases ms.len(),
{
    if ms.len() == 0 {
        None
    } else {
        match first_named(ms.drop_last(), name) {
            Some(i) => Some(i),
            None => if ms.last().name@ == name {
                Some(ms.len() - 1)
            } else {
                None
            },
        }
    }
}

/// The failure notice for one planned entry after re-querying, if any.
pub open spec fn verify_notice(cfg: MonitorConfig, after: Seq<Monitor>) -> Seq<Seq<char>> {
    match first_named(after, cfg.name@) {
        None => seq![cfg.name@ + " disappeared after apply"@],
        Some(i) => if mode_matches_spec(after[i], cfg) {
            Seq::empty()
        } else {
            seq![
                cfg.name@ + ": requested "@ + nat_digits(cfg.mode.width as nat) + seq!['x']
                    + nat_digits(cfg.mode.height as nat) + seq!['@'] + hz_text(
                    cfg.mode.refresh_millihz,
                ) + " but got "@ + nat_digits(after[i].width_px as nat) + seq!['x'] + nat_digits(
                    after[i].height_px as nat,
                ),
            ]
        },
    }
}

/// Failure notices for a plan, in plan order.
pub open spec fn verify_notices(plan: Seq<MonitorConfig>, after: Seq<Monitor>) -> Seq<Seq<char>>
    decreases plan.len(),
{
    if plan.len() == 0 {
        Seq::empty()
    } else {
        verify_notices(plan.drop_last(), after) + verify_notice(plan.last(), after)
    }
}

proof fn lemma_first_named_props(ms: Seq<Monitor>, name: Seq<char>)
    ensures
        first_named(ms, name) matches Some(i) ==> 0 <= i < ms.len() && ms[i].name@ == name,
    decreases ms.len(),
{
    if ms.len() > 0 {
        lemma_first_named_props(ms.drop_last(), name);
    }
}

proof fn lemma_first_named_extend(s: Seq<Monitor>, name: Seq<char>, i: int, j: int)
    requires
        0 <= i < j <= s.len(),
        first_named(s.subrange(0, i + 1), name) == Some(i),
    ensures
        first_named(s.subrange(0, j), name) == Some(i),
    decreases j,
{
    if j > i + 1 {
        lemma_first_named_extend(s, name, i, j - 1);
        assert(s.subrange(0, j).drop_last() =~= s.subrange(0, j - 1));
    }
}

fn find_named(ms: &[Monitor], name: &str) -> (r: Option<usize>)
    ensures
        r matches Some(i) ==> first_named(ms@, name@) == Some(i as int),
        r is None ==> first_named(ms@, name@) is None,
{
    let mut i: usize = 0;
    while i < ms.len()
        invariant
            i <= ms.len(),
            first_named(ms@.subrange(0, i as int), name@) is None,
        decreases ms.len() - i,
    {
        let hit = str_eq(ms[i].name.as_str(), name);
        proof {
            let t = ms@.subrange(0, i as int + 1);
            assert(t.drop_last() =~= ms@.subrange(0, i as int));
            assert(t.last() == ms@[i as int]);
        }
        if hit {
            proof {
                if i + 1 < ms.len() {
                    lemma_first_named_extend(ms@, name@, i as int, ms.len() as int);
                }
                assert(ms@.subrange(0, ms.len() as int) =~= ms@);
            }
            return Some(i);
        }
        i = i + 1;
    }
    proof {
        assert(ms@.subrange(0, ms.len() as int) =~= ms@);
    }
    None
}

/// After applying `plan` and re-querying the monitors (`after`), the
/// failures to report: a planned monitor that is gone, or one whose
/// resolution is not the requested one.
pub fn verification_failures(plan: &[MonitorConfig], after: &[Monitor]) -> (notices: Vec<String>)
    ensures
        notices@.map_values(|s: String| s@) == verify_notices(plan@, after@),
{
    let mut notices: Vec<String> = Vec::new();
    let mut k: usize = 0;
    while k < plan.len()
        invariant
            k <= plan.len(),
            notices@.map_values(|s: String| s@) == verify_notices(plan@.subrange(0, k as int), after@),
        decreases plan.len() - k,
    {
        let cfg = &plan[k];
        let ghost before = notices@;
        proof {
            let t = plan@.subrange(0, k as int + 1);
            assert(t.drop_last() =~= plan@.subrange(0, k as int));
            assert(t.last() == *cfg);
            lemma_first_named_props(after@, cfg.name@);
        }
        match find_named(after, cfg.name.as_str()) {
            None => {
                let mut s = String::new();
                s.append(cfg.name.as_str());
                s.append(" disappeared after apply");
                assert(s@ =~= verify_notice(*cfg, after@)[0]);
                notices.push(s);
            },
            Some(i) => {
                let actual = &after[i];
                assert(after@[i as int] == *actual);
                if !mode_matches(actual, cfg) {
                    proof {
                        reveal_strlit("x");
                        reveal_strlit("@");
                    }
                    let mut s = String::new();
                    s.append(cfg.name.as_str());
                    s.append(": requested ");
                    push_u64(&mut s, cfg.mode.width as u64);
                    s.append("x");
                    push_u64(&mut s, cfg.mode.height as u64);
                    s.append("@");
                    let hz = format_hz(cfg.mode.refresh_millihz);
                    s.append(hz.as_str());
                    s.append(" but got ");
                    push_u64(&mut s, actual.width_px as u64);
                    s.append("x");
                    push_u64(&mut s, actual.height_px as u64);
                    assert(s@ =~= verify_notice(*cfg, after@)[0]);
                    notices.push(s);
                    assert(notices@.map_values(|s: String| s@) =~= before.map_values(|s: String| s@).push(verify_notice(*cfg, after@)[0]));
                } else {
                    assert(notices@ == before);
                    assert(verify_notice(*cfg, after@) =~= Seq::<Seq<char>>::empty());
                }
            },
        }
        assert(notices@.map_values(|s: String| s@) =~= before.map_values(|s: String| s@)
            + verify_notice(*cfg, after@));
        k = k + 1;
    }
    proof {
        assert(plan@.subrange(0, plan.len() as int) =~= plan@);
    }
    notices
}

} // verus!
