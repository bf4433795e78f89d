//! Canvas geometry, snapping, aligning, nudging and the apply command.
use hyprmonitor::gui::app::{App, EditableMonitor};
use hyprmonitor::gui::canvas::{align_all, apply_snap, apply_snap_with, footprint, world_bounds};
use hyprmonitor::gui::save::batch_command;
use hyprmonitor::model::Mode;

fn ed(name: &str, w: u32, h: u32, scale: u32, x: i32, y: i32) -> EditableMonitor {
    EditableMonitor {
        edid_id: None,
        connector_hint: name.to_string(),
        available_modes: vec![Mode { width: w, height: h, refresh_millihz: 60_000 }],
        physical_mm: None,
        chosen_mode: Mode { width: w, height: h, refresh_millihz: 60_000 },
        scale,
        position: (x, y),
        rotation: 0,
        disabled: false,
    }
}

#[test]
fn footprint_swaps_for_quarter_turns() {
    let mut m = ed("DP-1", 1920, 1080, 1_500_000, 0, 0);
    assert_eq!(footprint(&m), (1920 * 1_000_000, 1080 * 1_000_000));
    m.rotation = 90;
    assert_eq!(footprint(&m), (1080 * 1_000_000, 1920 * 1_000_000));
    m.rotation = 180;
    assert_eq!(footprint(&m), (1920 * 1_000_000, 1080 * 1_000_000));
}

#[test]
fn world_bounds_cover_all_monitors_and_default_when_empty() {
    assert_eq!(world_bounds(&[]), (0, 0, 1920, 1080));
    let ms = vec![ed("eDP-1", 2560, 1600, 1_500_000, 0, 0), ed("DP-1", 1920, 1080, 1_000_000, 1707, -100)];
    // 2560 / 1.5 = 1706.67 and 1600 / 1.5 = 1066.67, truncated.
    assert_eq!(world_bounds(&ms), (0, -100, 3627, 1066));
    let mut disabled = ms;
    disabled[1].disabled = true;
    assert_eq!(world_bounds(&disabled), (0, -100, 3627, 1066));
    // A scale of 0 makes the far edges infinite (clamped).
    let mut zero = disabled.clone();
    zero[0].scale = 0;
    assert_eq!(world_bounds(&zero), (0, -100, i32::MAX, i32::MAX));
    // Nothing to frame when the least x is i32::MAX.
    assert_eq!(world_bounds(&[ed("DP-1", 1920, 1080, 1_000_000, i32::MAX, 0)]), (0, 0, 1920, 1080));
}

#[test]
fn drag_snap_closes_a_small_gap_only() {
    let mut ms = vec![ed("DP-1", 1920, 1080, 1_000_000, 0, 0), ed("DP-2", 1920, 1080, 1_000_000, 1932, 15)];
    apply_snap(&mut ms, 1);
    assert_eq!(ms[1].position, (1920, 0));
    assert_eq!(ms[0].position, (0, 0));
    let mut far = vec![ed("DP-1", 1920, 1080, 1_000_000, 0, 0), ed("DP-2", 1920, 1080, 1_000_000, 1960, 0)];
    apply_snap(&mut far, 1);
    assert_eq!(far[1].position, (1960, 0));
    apply_snap_with(&mut far, 1, 50);
    assert_eq!(far[1].position, (1920, 0));
}

#[test]
fn align_all_snaps_in_x_order() {
    let mut ms = vec![
        ed("HDMI-A-1", 1920, 1080, 1_000_000, 3900, 30),
        ed("eDP-1", 1920, 1080, 1_000_000, 0, 0),
        ed("DP-1", 1920, 1080, 1_000_000, 1950, -20),
    ];
    align_all(&mut ms);
    // eDP-1 goes first and closes its 30 px gap to DP-1 (and its 20 px step);
    // DP-1 then already touches it; HDMI-A-1 closes its 30 px gap to DP-1.
    assert_eq!(ms[1].position, (30, -20));
    assert_eq!(ms[2].position, (1950, -20));
    assert_eq!(ms[0].position, (3870, -20));
}

#[test]
fn nudge_moves_only_the_selected_monitor() {
    let mut app = App::new();
    app.monitors = vec![ed("DP-1", 1920, 1080, 1_000_000, 0, 0), ed("DP-2", 1920, 1080, 1_000_000, 1920, 0)];
    app.nudge_selected(5, 0);
    assert!(!app.dirty);
    app.selected = Some(1);
    app.nudge_selected(-10, 3);
    assert_eq!(app.monitors[1].position, (1910, 3));
    assert_eq!(app.monitors[0].position, (0, 0));
    assert!(app.dirty);
}

#[test]
fn batch_command_applies_every_monitor_including_disabled() {
    let mut ms = vec![ed("eDP-1", 2560, 1600, 1_500_000, 0, 0), ed("DP-1", 1920, 1080, 1_000_000, 1707, 0)];
    ms[1].disabled = true;
    ms[0].rotation = 90;
    assert_eq!(
        batch_command(&ms),
        "keyword monitor eDP-1,2560x1600@60,0x0,1.5,transform,1 ; keyword monitor DP-1,disable"
    );
    assert_eq!(batch_command(&[]), "");
}

#[test]
fn snapping_twice_changes_nothing_more() {
    let mut ms = vec![ed("DP-1", 1920, 1080, 1_000_000, 0, 0), ed("DP-2", 1920, 1080, 1_000_000, 1932, 15)];
    apply_snap(&mut ms, 1);
    assert_eq!(ms[1].position, (1920, 0));
    apply_snap(&mut ms, 1);
    assert_eq!(ms[1].position, (1920, 0));
}
