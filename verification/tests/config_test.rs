//! Saved overrides laid over the automatic plan, and the version check.
use hyprmonitor::config::{config_or_default, find_override, merge_into_plan, Config, MonitorOverride, Position};
use hyprmonitor::model::{Mode, Monitor, MonitorConfig};

fn monitor(name: &str, edid: Option<&str>) -> Monitor {
    Monitor {
        name: name.to_string(),
        width_px: 1920,
        height_px: 1080,
        physical_mm: None,
        preferred_mode: None,
        edid_id: edid.map(|s| s.to_string()),
        available_modes: vec![Mode { width: 1920, height: 1080, refresh_millihz: 60_000 }],
    }
}

fn entry(name: &str, x: i32) -> MonitorConfig {
    MonitorConfig {
        name: name.to_string(),
        mode: Mode { width: 1920, height: 1080, refresh_millihz: 60_000 },
        position: (x, 0),
        scale: 1_000_000,
        rotation: 0,
        disabled: false,
    }
}

fn over(edid: Option<&str>, hint: &str, x: i32, mode: &str, scale: u32) -> MonitorOverride {
    MonitorOverride {
        edid_id: edid.map(|s| s.to_string()),
        connector_hint: hint.to_string(),
        position: Position { x, y: 7 },
        mode: mode.to_string(),
        scale,
        rotation: 180,
        disabled: false,
    }
}

#[test]
fn current_version_is_kept_and_others_give_the_default() {
    let cfg = Config { version: 1, monitors: vec![over(None, "DP-1", 5, "1920x1080@60", 1_000_000)] };
    let kept = config_or_default(Some(Config { version: 1, monitors: cfg.monitors.clone() }));
    assert_eq!(kept, cfg);
    assert_eq!(config_or_default(Some(Config { version: 999, monitors: vec![] })), Config::default());
    assert_eq!(config_or_default(None), Config::default());
    assert_eq!(Config::default().version, 0);
    assert!(Config::default().monitors.is_empty());
}

#[test]
fn merge_applies_override_by_edid() {
    let monitors = vec![monitor("DP-1", Some("AAA-0001-00000001"))];
    let mut plan = vec![entry("DP-1", 0)];
    let cfg = Config {
        version: 1,
        monitors: vec![over(Some("AAA-0001-00000001"), "HDMI-A-9", 300, "1280x720@59.94", 1_500_000)],
    };
    merge_into_plan(&mut plan, &monitors, &cfg);
    assert_eq!(plan[0].position, (300, 7));
    assert_eq!(plan[0].mode, Mode { width: 1280, height: 720, refresh_millihz: 59_940 });
    assert_eq!(plan[0].scale, 1_500_000);
    assert_eq!(plan[0].rotation, 180);
    assert_eq!(plan[0].name, "DP-1");
}

#[test]
fn merge_ignores_override_of_a_different_edid_on_the_same_connector() {
    let monitors = vec![monitor("DP-1", Some("AAA-0001-00000001"))];
    let mut plan = vec![entry("DP-1", 0)];
    let cfg = Config {
        version: 1,
        monitors: vec![over(Some("BBB-0002-00000002"), "DP-1", 300, "1280x720@60", 2_000_000)],
    };
    merge_into_plan(&mut plan, &monitors, &cfg);
    assert_eq!(plan, vec![entry("DP-1", 0)]);
}

#[test]
fn merge_falls_back_to_connector_without_edid_and_keeps_mode_when_unparseable() {
    let monitors = vec![monitor("DP-1", None), monitor("DP-2", None)];
    let mut plan = vec![entry("DP-1", 0), entry("DP-2", 1920)];
    let cfg = Config {
        version: 1,
        monitors: vec![over(Some("CCC-0003-00000003"), "DP-2", -1920, "not a mode", 1_250_000)],
    };
    merge_into_plan(&mut plan, &monitors, &cfg);
    assert_eq!(plan[0], entry("DP-1", 0));
    assert_eq!(plan[1].position, (-1920, 7));
    assert_eq!(plan[1].mode, Mode { width: 1920, height: 1080, refresh_millihz: 60_000 });
    assert_eq!(plan[1].scale, 1_250_000);
}

#[test]
fn first_matching_override_wins() {
    let ovs = vec![
        over(None, "DP-3", 0, "1920x1080@60", 1_000_000),
        over(Some("AAA-0001-00000001"), "DP-9", 1, "1920x1080@60", 1_000_000),
        over(None, "DP-1", 2, "1920x1080@60", 1_000_000),
    ];
    assert_eq!(find_override(&ovs, Some("AAA-0001-00000001"), "DP-1"), Some(1));
    assert_eq!(find_override(&ovs, None, "DP-1"), Some(2));
    assert_eq!(find_override(&ovs, Some("ZZZ-0000-00000000"), "DP-1"), Some(2));
    assert_eq!(find_override(&ovs, Some("ZZZ-0000-00000000"), "DP-7"), None);
}

#[test]
fn merge_with_no_overrides_keeps_the_plan() {
    let monitors = vec![monitor("DP-1", Some("AAA-0001-00000001")), monitor("DP-2", None)];
    let mut plan = vec![entry("DP-1", 0), entry("DP-2", 1920)];
    merge_into_plan(&mut plan, &monitors, &Config::default());
    assert_eq!(plan, vec![entry("DP-1", 0), entry("DP-2", 1920)]);
}
