//! The layout editor: loading, saving back to overrides, and validation.
use hyprmonitor::config::{Config, MonitorOverride, Position};
use hyprmonitor::gui::app::App;
use hyprmonitor::gui::save::validate;
use hyprmonitor::model::{Mode, Monitor};

fn fake_monitor(name: &str) -> Monitor {
    Monitor {
        name: name.to_string(),
        width_px: 1920,
        height_px: 1080,
        physical_mm: Some((530, 300)),
        preferred_mode: Some((1920, 1080)),
        edid_id: Some(format!("FAKE-0001-{}", name)),
        available_modes: vec![
            Mode { width: 1920, height: 1080, refresh_millihz: 60_000 },
            Mode { width: 1920, height: 1080, refresh_millihz: 144_000 },
            Mode { width: 1280, height: 720, refresh_millihz: 60_000 },
        ],
    }
}

fn over(edid: &str, hint: &str, x: i32, y: i32, mode: &str, scale: u32, rotation: u16, disabled: bool) -> MonitorOverride {
    MonitorOverride {
        edid_id: Some(edid.to_string()),
        connector_hint: hint.to_string(),
        position: Position { x, y },
        mode: mode.to_string(),
        scale,
        rotation,
        disabled,
    }
}

#[test]
fn load_builds_editable_monitors_from_auto_plan() {
    let mut app = App::new();
    app.load(&[fake_monitor("DP-1")], &Config::default());
    assert_eq!(app.monitors.len(), 1);
    assert_eq!(app.monitors[0].connector_hint, "DP-1");
    assert_eq!(app.monitors[0].chosen_mode.refresh_millihz, 144_000);
    assert!(!app.dirty);
}

#[test]
fn load_applies_config_override() {
    let cfg = Config {
        version: 1,
        monitors: vec![over("FAKE-0001-DP-1", "DP-1", 500, 0, "1280x720@60", 1_000_000, 90, false)],
    };
    let mut app = App::new();
    app.load(&[fake_monitor("DP-1")], &cfg);
    assert_eq!(app.monitors[0].chosen_mode.width, 1280);
    assert_eq!(app.monitors[0].position, (500, 0));
    assert_eq!(app.monitors[0].rotation, 90);
}

#[test]
fn to_config_round_trips_back_to_overrides() {
    let mut app = App::new();
    app.load(&[fake_monitor("DP-1"), fake_monitor("HDMI-A-1")], &Config::default());
    app.monitors[0].position = (100, 200);
    app.monitors[1].disabled = true;
    let cfg = app.to_config();
    assert_eq!(cfg.version, 1);
    assert_eq!(cfg.monitors.len(), 2);
    let dp1 = cfg.monitors.iter().find(|m| m.connector_hint == "DP-1").unwrap();
    assert_eq!(dp1.position, Position { x: 100, y: 200 });
    let hdmi = cfg.monitors.iter().find(|m| m.connector_hint == "HDMI-A-1").unwrap();
    assert!(hdmi.disabled);
}

#[test]
fn to_config_skips_monitors_matching_auto() {
    let mut app = App::new();
    app.load(&[fake_monitor("DP-1"), fake_monitor("HDMI-A-1")], &Config::default());
    let cfg = app.to_config();
    assert_eq!(cfg.monitors.len(), 0, "pure-auto should not emit any overrides");
}

#[test]
fn to_config_emits_only_changed_monitors() {
    let mut app = App::new();
    app.load(&[fake_monitor("DP-1"), fake_monitor("HDMI-A-1")], &Config::default());
    app.monitors[0].scale = 1_750_000; // only DP-1 deviates
    let cfg = app.to_config();
    assert_eq!(cfg.monitors.len(), 1);
    assert_eq!(cfg.monitors[0].connector_hint, "DP-1");
    assert_eq!(cfg.monitors[0].scale, 1_750_000);
}

#[test]
fn to_config_drops_override_after_user_reverts_to_auto_value() {
    let cfg = Config {
        version: 1,
        monitors: vec![over("FAKE-0001-DP-1", "DP-1", 0, 0, "1920x1080@144", 1_750_000, 0, false)],
    };
    let mut app = App::new();
    app.load(&[fake_monitor("DP-1")], &cfg);
    assert_eq!(app.monitors[0].scale, 1_750_000);
    app.monitors[0].scale = 1_000_000;
    let emitted = app.to_config();
    assert_eq!(
        emitted.monitors.len(),
        0,
        "matching auto means the override should be dropped, not preserved"
    );
}

#[test]
fn load_does_not_apply_edid_override_to_different_monitor_on_same_connector() {
    let cfg = Config {
        version: 1,
        monitors: vec![over("AAA-0001-00000001", "HDMI-A-1", 0, 0, "1920x1080@60", 1_000_000, 90, true)],
    };
    let mut app = App::new();
    app.load(&[fake_monitor("HDMI-A-1")], &cfg);
    assert_eq!(app.monitors.len(), 1);
    assert_eq!(
        app.monitors[0].rotation, 0,
        "rotation from a different monitor's EDID override must not apply"
    );
    assert!(
        !app.monitors[0].disabled,
        "disabled from a different monitor's EDID override must not apply"
    );
}

#[test]
fn to_config_preserves_overrides_for_disconnected_monitors() {
    let cfg = Config {
        version: 1,
        monitors: vec![
            over("FAKE-0001-DP-1", "DP-1", 0, 0, "1280x720@60", 1_000_000, 0, false),
            over("OFFICE-1234-00000001", "DP-9", 1920, 0, "3840x2160@60", 2_000_000, 0, false),
        ],
    };
    let mut app = App::new();
    app.load(&[fake_monitor("DP-1")], &cfg);
    app.monitors[0].position = (10, 20);
    let emitted = app.to_config();

    let office = emitted
        .monitors
        .iter()
        .find(|m| m.edid_id.as_deref() == Some("OFFICE-1234-00000001"))
        .expect("disconnected monitor's override must be preserved");
    assert_eq!(office.mode, "3840x2160@60");
    assert_eq!(office.position, Position { x: 1920, y: 0 });
    assert_eq!(office.scale, 2_000_000);

    let dp1 = emitted
        .monitors
        .iter()
        .find(|m| m.connector_hint == "DP-1")
        .expect("connected monitor's edited override must still be emitted");
    assert_eq!(dp1.position, Position { x: 10, y: 20 });
}

#[test]
fn to_config_does_not_preserve_stale_override_for_connected_monitor_reset_to_auto() {
    let cfg = Config {
        version: 1,
        monitors: vec![over("FAKE-0001-DP-1", "DP-1", 0, 0, "1920x1080@144", 1_750_000, 0, false)],
    };
    let mut app = App::new();
    app.load(&[fake_monitor("DP-1")], &cfg);
    app.monitors[0].scale = 1_000_000;
    let emitted = app.to_config();
    assert_eq!(
        emitted.monitors.len(),
        0,
        "a connected monitor reset to auto must not keep a stale override"
    );
}

#[test]
fn save_validate_rejects_overlapping_enabled_monitors() {
    let mut app = App::new();
    app.load(&[fake_monitor("DP-1"), fake_monitor("DP-2")], &Config::default());
    app.monitors[0].position = (0, 0);
    app.monitors[1].position = (100, 0);
    let err = validate(&app.monitors).expect_err("should detect overlap");
    assert!(err.to_string().contains("overlaps"), "got: {}", err);
}

#[test]
fn save_validate_allows_disabled_overlapping_monitors() {
    let mut app = App::new();
    app.load(&[fake_monitor("DP-1"), fake_monitor("DP-2")], &Config::default());
    app.monitors[0].position = (0, 0);
    app.monitors[1].position = (100, 0);
    app.monitors[1].disabled = true;
    validate(&app.monitors).expect("disabled overlaps allowed");
}

#[test]
fn save_validate_rejects_mode_not_in_available() {
    let mut app = App::new();
    app.load(&[fake_monitor("DP-1")], &Config::default());
    app.monitors[0].chosen_mode = Mode { width: 9999, height: 9999, refresh_millihz: 60_000 };
    let err = validate(&app.monitors).expect_err("should reject");
    assert!(err.to_string().contains("not in available modes"));
}

#[test]
fn validate_names_both_overlapping_monitors_and_bad_rotation() {
    let mut app = App::new();
    app.load(&[fake_monitor("DP-1"), fake_monitor("DP-2")], &Config::default());
    app.monitors[0].position = (0, 0);
    app.monitors[1].position = (100, 0);
    assert_eq!(validate(&app.monitors), Err("DP-1 overlaps DP-2".to_string()));
    app.monitors[1].position = (1920, 0);
    assert_eq!(validate(&app.monitors), Ok(()));
    app.monitors[0].rotation = 45;
    assert_eq!(
        validate(&app.monitors),
        Err("DP-1: rotation must be 0/90/180/270 (got 45)".to_string())
    );
}

#[test]
fn load_then_save_without_edits_keeps_only_disconnected_overrides() {
    let cfg = Config {
        version: 1,
        monitors: vec![over("OFFICE-1234-00000001", "DP-9", 1920, 0, "3840x2160@60", 2_000_000, 0, false)],
    };
    let mut app = App::new();
    app.load(&[fake_monitor("DP-1")], &cfg);
    let emitted = app.to_config();
    assert_eq!(emitted.monitors, cfg.monitors);
}

#[test]
fn save_then_reload_restores_every_edit() {
    let monitors = [fake_monitor("DP-1"), fake_monitor("HDMI-A-1")];
    let mut app = App::new();
    app.load(&monitors, &Config::default());
    app.monitors[0].chosen_mode = Mode { width: 1280, height: 720, refresh_millihz: 60_000 };
    app.monitors[0].scale = 1_250_000;
    app.monitors[0].position = (10, 20);
    app.monitors[0].rotation = 90;
    app.monitors[1].disabled = true;
    let saved = app.to_config();

    let mut reloaded = App::new();
    reloaded.load(&monitors, &saved);
    assert_eq!(reloaded.monitors.len(), 2);
    for (a, b) in app.monitors.iter().zip(reloaded.monitors.iter()) {
        assert_eq!(a.connector_hint, b.connector_hint);
        assert_eq!(a.chosen_mode, b.chosen_mode);
        assert_eq!(a.scale, b.scale);
        assert_eq!(a.position, b.position);
        assert_eq!(a.rotation, b.rotation);
        assert_eq!(a.disabled, b.disabled);
    }
}

#[test]
fn accepted_layout_stays_accepted_after_removing_or_disabling() {
    let mut app = App::new();
    app.load(&[fake_monitor("DP-1"), fake_monitor("DP-2"), fake_monitor("DP-3")], &Config::default());
    assert_eq!(validate(&app.monitors), Ok(()));
    app.monitors[1].disabled = true;
    assert_eq!(validate(&app.monitors), Ok(()));
    app.monitors.remove(0);
    assert_eq!(validate(&app.monitors), Ok(()));
}
