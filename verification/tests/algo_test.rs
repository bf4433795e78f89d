use hyprmonitor::algo::layout::{arrange, LayoutInput};
use hyprmonitor::algo::mode::pick_best_mode;
use hyprmonitor::algo::plan;
use hyprmonitor::algo::primary::is_internal;
use hyprmonitor::model::{Mode, Monitor, MonitorConfig};

fn hz(v: f64) -> u32 {
    (v * 1000.0).round() as u32
}

fn sc(v: f64) -> u32 {
    (v * 1_000_000.0).round() as u32
}

fn m(w: u32, h: u32, rate: f64) -> Mode {
    Mode { width: w, height: h, refresh_millihz: hz(rate) }
}

// ---- mode

#[test]
fn picks_highest_pixel_count_then_max_hz() {
    let modes = vec![
        m(1920, 1080, 144.0),
        m(2560, 1440, 60.0),
        m(2560, 1440, 165.0),
        m(2560, 1440, 144.0),
        m(1920, 1080, 240.0),
    ];
    assert_eq!(pick_best_mode(&modes, None), Some(m(2560, 1440, 165.0)));
}

#[test]
fn single_mode_picked() {
    let modes = vec![m(1920, 1080, 60.0)];
    assert_eq!(pick_best_mode(&modes, None), Some(m(1920, 1080, 60.0)));
}

#[test]
fn empty_returns_none() {
    assert_eq!(pick_best_mode(&[], None), None);
}

#[test]
fn fractional_hz_picks_highest() {
    let modes = vec![m(3840, 2160, 59.951), m(3840, 2160, 60.0), m(3840, 2160, 59.94)];
    assert_eq!(pick_best_mode(&modes, None), Some(m(3840, 2160, 60.0)));
}

#[test]
fn preferred_hint_overrides_max_pixels() {
    let modes = vec![m(3840, 2160, 30.0), m(1920, 1080, 60.0), m(1920, 1080, 75.0)];
    assert_eq!(pick_best_mode(&modes, Some((1920, 1080))), Some(m(1920, 1080, 75.0)));
}

#[test]
fn preferred_hint_picks_max_hz_at_native() {
    let modes = vec![m(2560, 1440, 60.0), m(2560, 1440, 144.0), m(2560, 1440, 165.0)];
    assert_eq!(pick_best_mode(&modes, Some((2560, 1440))), Some(m(2560, 1440, 165.0)));
}

#[test]
fn preferred_hint_with_no_match_falls_back() {
    let modes = vec![m(1920, 1080, 60.0), m(2560, 1440, 60.0)];
    assert_eq!(pick_best_mode(&modes, Some((1366, 768))), Some(m(2560, 1440, 60.0)));
}

#[test]
fn equal_pixel_counts_compete_on_refresh() {
    // 1920x1200 and 2400x960 have the same pixel count
    let modes = vec![m(1920, 1200, 60.0), m(2400, 960, 75.0), m(1024, 768, 120.0)];
    assert_eq!(pick_best_mode(&modes, None), Some(m(2400, 960, 75.0)));
}

// ---- primary

#[test]
fn edp_is_internal() {
    assert!(is_internal("eDP-1"));
    assert!(is_internal("eDP-2"));
}

#[test]
fn lvds_is_internal() {
    assert!(is_internal("LVDS-1"));
}

#[test]
fn dsi_is_internal() {
    assert!(is_internal("DSI-1"));
}

#[test]
fn case_insensitive() {
    assert!(is_internal("edp-1"));
    assert!(is_internal("EDP-1"));
}

#[test]
fn external_outputs_are_not_internal() {
    assert!(!is_internal("DP-1"));
    assert!(!is_internal("HDMI-A-1"));
    assert!(!is_internal("DVI-D-1"));
    assert!(!is_internal("VGA-1"));
}

#[test]
fn prefix_match_only() {
    assert!(!is_internal("HDMI-eDP-1"));
}

#[test]
fn internal_needs_a_number() {
    assert!(!is_internal("eDP-"));
    assert!(!is_internal("eDP-1a"));
}

// ---- layout

fn li(name: &str, w: u32, h: u32, scale: f64) -> LayoutInput {
    LayoutInput {
        name: name.to_string(),
        mode: Mode { width: w, height: h, refresh_millihz: 60_000 },
        scale: sc(scale),
    }
}

#[test]
fn single_monitor_at_origin() {
    let positions = arrange(&[li("DP-1", 1920, 1080, 1.0)]);
    assert_eq!(positions, vec![(0, 0)]);
}

#[test]
fn two_monitors_side_by_side() {
    let positions = arrange(&[li("eDP-1", 1920, 1080, 1.0), li("DP-1", 2560, 1440, 1.0)]);
    assert_eq!(positions, vec![(0, 0), (1920, 0)]);
}

#[test]
fn scale_reduces_effective_width() {
    let positions = arrange(&[li("eDP-1", 3840, 2160, 2.0), li("DP-1", 1920, 1080, 1.0)]);
    assert_eq!(positions, vec![(0, 0), (1920, 0)]);
}

#[test]
fn fractional_scale_rounds() {
    let positions = arrange(&[li("eDP-1", 2560, 1600, 1.25), li("DP-1", 1920, 1080, 1.0)]);
    assert_eq!(positions, vec![(0, 0), (2048, 0)]);
}

#[test]
fn empty_input_yields_empty() {
    let positions = arrange(&[]);
    assert_eq!(positions, Vec::<(i32, i32)>::new());
}

#[test]
fn three_monitors_chain() {
    let positions = arrange(&[
        li("eDP-1", 1920, 1080, 1.0),
        li("DP-1", 2560, 1440, 1.0),
        li("HDMI-A-1", 1920, 1080, 1.0),
    ]);
    assert_eq!(positions, vec![(0, 0), (1920, 0), (4480, 0)]);
}

#[test]
fn half_pixel_widths_round_up() {
    // 2561 / 2.0 = 1280.5 -> 1281; 2560 / 1.75 = 1462.86 -> 1463
    let positions = arrange(&[
        li("A", 2561, 1440, 2.0),
        li("B", 2560, 1440, 1.75),
        li("C", 100, 100, 1.0),
    ]);
    assert_eq!(positions, vec![(0, 0), (1281, 0), (2744, 0)]);
}

// ---- plan

fn mon(name: &str, w: u32, h: u32, mm: Option<(u32, u32)>, modes: Vec<Mode>) -> Monitor {
    Monitor {
        name: name.to_string(),
        width_px: w,
        height_px: h,
        physical_mm: mm,
        preferred_mode: None,
        edid_id: None,
        available_modes: modes,
    }
}

#[test]
fn empty_yields_empty_plan() {
    assert_eq!(plan(&[]), Vec::<MonitorConfig>::new());
}

#[test]
fn single_external_monitor() {
    let monitors = vec![mon(
        "DP-1",
        2560,
        1440,
        Some((600, 340)),
        vec![m(2560, 1440, 60.0), m(2560, 1440, 165.0)],
    )];
    let result = plan(&monitors);
    assert_eq!(result.len(), 1);
    assert_eq!(result[0].name, "DP-1");
    assert_eq!(result[0].mode, m(2560, 1440, 165.0));
    assert_eq!(result[0].position, (0, 0));
    assert_eq!(result[0].scale, sc(1.0));
}

#[test]
fn internal_placed_before_external() {
    let monitors = vec![
        mon("DP-1", 2560, 1440, Some((600, 340)), vec![m(2560, 1440, 60.0)]),
        mon("eDP-1", 1920, 1080, None, vec![m(1920, 1080, 60.0)]),
    ];
    let result = plan(&monitors);
    assert_eq!(result[0].name, "eDP-1");
    assert_eq!(result[1].name, "DP-1");
    assert_eq!(result[0].position, (0, 0));
    assert_eq!(result[1].position, (1920, 0));
}

#[test]
fn externals_sorted_by_name() {
    let monitors = vec![
        mon("HDMI-A-1", 1920, 1080, Some((530, 300)), vec![m(1920, 1080, 60.0)]),
        mon("DP-2", 2560, 1440, Some((600, 340)), vec![m(2560, 1440, 60.0)]),
        mon("DP-1", 1920, 1080, Some((530, 300)), vec![m(1920, 1080, 60.0)]),
    ];
    let result = plan(&monitors);
    assert_eq!(result[0].name, "DP-1");
    assert_eq!(result[1].name, "DP-2");
    assert_eq!(result[2].name, "HDMI-A-1");
}

#[test]
fn monitor_with_no_modes_falls_back_to_current() {
    let monitors = vec![mon("DP-1", 1920, 1080, None, vec![])];
    let result = plan(&monitors);
    assert_eq!(result.len(), 1);
    assert_eq!(result[0].mode.width, 1920);
    assert_eq!(result[0].mode.height, 1080);
    assert_eq!(result[0].mode.refresh_millihz, 60_000);
}

#[test]
fn hidpi_laptop_scales_and_shifts_external() {
    // 3840x2400 on 286x179 mm -> ~339 DPI -> scale 2, effective width 1920
    let monitors = vec![
        mon("DP-1", 2560, 1440, Some((600, 340)), vec![m(2560, 1440, 144.0)]),
        mon("eDP-1", 3840, 2400, Some((286, 179)), vec![m(3840, 2400, 60.0)]),
    ];
    let result = plan(&monitors);
    assert_eq!(result[0].name, "eDP-1");
    assert_eq!(result[0].scale, sc(2.0));
    assert_eq!(result[1].position, (1920, 0));
    assert_eq!(result[0].rotation, 0);
    assert!(!result[1].disabled);
}
