//! The daemon's decisions: debouncing, reconnect backoff, post-apply checks.
use hyprmonitor::daemon::{
    debounce_step, mode_matches, on_listener_exit, verification_failures, Debounce, DebounceAction,
    DebounceEvent, ListenerAction, MAX_BACKOFF_SECS,
};
use hyprmonitor::model::{Mode, Monitor, MonitorConfig};

fn run(events: &[DebounceEvent]) -> Vec<DebounceAction> {
    let mut state = Debounce::Idle;
    let mut out = Vec::new();
    for e in events {
        let (next, action) = debounce_step(state, *e);
        state = next;
        out.push(action);
    }
    out
}

#[test]
fn burst_of_hotplugs_reconfigures_once() {
    let (h, q) = (DebounceEvent::Hotplug, DebounceEvent::QuietPeriodElapsed);
    let (start, reconf, nothing) = (DebounceAction::StartTimer, DebounceAction::Reconfigure, DebounceAction::Nothing);
    assert_eq!(run(&[h, h, h, q]), vec![start, start, start, reconf]);
    assert_eq!(run(&[q]), vec![nothing]);
    assert_eq!(run(&[h, q, q, h, q]), vec![start, reconf, nothing, start, reconf]);
}

#[test]
fn backoff_doubles_to_thirty_and_resets_after_clean_exit() {
    let mut backoff = 1;
    let mut waits = Vec::new();
    for _ in 0..7 {
        let (action, next) = on_listener_exit(backoff, false);
        match action {
            ListenerAction::RetryAfter(s) => waits.push(s),
            ListenerAction::ReconfigureAndReconnect => panic!("a failure must not reconnect at once"),
        }
        backoff = next;
    }
    assert_eq!(waits, vec![1, 2, 4, 8, 16, 30, 30]);
    assert_eq!(backoff, MAX_BACKOFF_SECS);
    assert_eq!(on_listener_exit(backoff, true), (ListenerAction::ReconfigureAndReconnect, 1));
}

fn mon(name: &str, w: u32, h: u32) -> Monitor {
    Monitor {
        name: name.to_string(),
        width_px: w,
        height_px: h,
        physical_mm: None,
        preferred_mode: None,
        edid_id: None,
        available_modes: vec![],
    }
}

fn cfg(name: &str, w: u32, h: u32, millihz: u32) -> MonitorConfig {
    MonitorConfig {
        name: name.to_string(),
        mode: Mode { width: w, height: h, refresh_millihz: millihz },
        position: (0, 0),
        scale: 1_000_000,
        rotation: 0,
        disabled: false,
    }
}

#[test]
fn verification_reports_missing_and_mismatched_monitors() {
    let plan = vec![cfg("eDP-1", 2560, 1600, 165_000), cfg("DP-1", 3840, 2160, 59_940), cfg("DP-2", 1920, 1080, 60_000)];
    let after = vec![mon("DP-2", 1920, 1080), mon("eDP-1", 1920, 1200)];
    assert!(mode_matches(&after[0], &plan[2]));
    assert!(!mode_matches(&after[1], &plan[0]));
    assert_eq!(
        verification_failures(&plan, &after),
        vec![
            "eDP-1: requested 2560x1600@165 but got 1920x1200".to_string(),
            "DP-1 disappeared after apply".to_string(),
        ]
    );
    assert!(verification_failures(&plan[2..], &after).is_empty());
}
