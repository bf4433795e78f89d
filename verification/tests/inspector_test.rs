//! The inspector's choices, and reading processes and DRM entries.
use hyprmonitor::gui::app::EditableMonitor;
use hyprmonitor::gui::canvas::{try_align_all, try_apply_snap_with};
use hyprmonitor::gui::inspector::{fastest_at, refresh_options, resolutions};
use hyprmonitor::gui::save::rects_fit;
use hyprmonitor::model::Mode;
use hyprmonitor::parse::{drm_entry_is_connector, parse_i32, trimmed};
use hyprmonitor::refresh::{cmdline_args, process_entry};

fn md(w: u32, h: u32, millihz: u32) -> Mode {
    Mode { width: w, height: h, refresh_millihz: millihz }
}

#[test]
fn resolutions_most_pixels_first_each_run_once() {
    let modes = vec![
        md(1920, 1080, 60_000),
        md(2560, 1440, 60_000),
        md(1920, 1080, 144_000),
        md(2560, 1440, 165_000),
        md(1280, 720, 60_000),
    ];
    assert_eq!(resolutions(&modes), vec![(2560, 1440), (1920, 1080), (1280, 720)]);
    assert!(resolutions(&[]).is_empty());
}

#[test]
fn resolutions_with_equal_pixel_counts_keep_listed_order() {
    let modes = vec![md(1920, 1080, 60_000), md(1080, 1920, 60_000), md(1920, 1080, 30_000)];
    // A stable sort keeps 1920x1080, 1080x1920, 1920x1080; only neighbours collapse.
    assert_eq!(resolutions(&modes), vec![(1920, 1080), (1080, 1920), (1920, 1080)]);
}

#[test]
fn refresh_options_fastest_first_without_repeats() {
    let modes = vec![
        md(1920, 1080, 60_000),
        md(1920, 1080, 144_000),
        md(2560, 1440, 165_000),
        md(1920, 1080, 59_940),
        md(1920, 1080, 144_000),
    ];
    assert_eq!(refresh_options(&modes, 1920, 1080), vec![144_000, 60_000, 59_940]);
    assert!(refresh_options(&modes, 800, 600).is_empty());
}

#[test]
fn selecting_a_resolution_picks_its_fastest_mode() {
    let modes = vec![md(1920, 1080, 60_000), md(1920, 1080, 144_000), md(2560, 1440, 165_000)];
    assert_eq!(fastest_at(&modes, 1920, 1080), Some(md(1920, 1080, 144_000)));
    assert_eq!(fastest_at(&modes, 800, 600), None);
}

#[test]
fn pids_parse_like_i32_from_str() {
    assert_eq!(parse_i32("1234"), Some(1234));
    assert_eq!(parse_i32("+7"), Some(7));
    assert_eq!(parse_i32("-2147483648"), Some(i32::MIN));
    assert_eq!(parse_i32("2147483647"), Some(i32::MAX));
    assert_eq!(parse_i32("2147483648"), None);
    assert_eq!(parse_i32("self"), None);
    assert_eq!(parse_i32(""), None);
    assert_eq!(parse_i32("-"), None);
}

#[test]
fn trimmed_drops_surrounding_whitespace() {
    assert_eq!(trimmed("  waybar\n"), "waybar");
    assert_eq!(trimmed("\t \n"), "");
}

#[test]
fn drm_entries_match_on_text_after_the_first_dash() {
    assert!(drm_entry_is_connector("card1-DP-1", "DP-1"));
    assert!(drm_entry_is_connector("card0-eDP-1", "eDP-1"));
    assert!(!drm_entry_is_connector("card1-DP-1", "DP-2"));
    assert!(!drm_entry_is_connector("card1", "card1"));
    assert!(!drm_entry_is_connector("version", "DP-1"));
}

#[test]
fn cmdline_splits_on_nul_and_drops_empty_fields() {
    assert_eq!(
        cmdline_args(b"/usr/bin/swaybg\0-i\0/home/u/bg.png\0"),
        vec!["/usr/bin/swaybg".to_string(), "-i".to_string(), "/home/u/bg.png".to_string()]
    );
    assert_eq!(cmdline_args(b"\0\0a\0\0b"), vec!["a".to_string(), "b".to_string()]);
    assert!(cmdline_args(b"").is_empty());
    assert_eq!(cmdline_args(b"x\xffy"), vec!["x\u{fffd}y".to_string()]);
}

#[test]
fn process_entries_skip_empty_processes() {
    let p = process_entry(42, "waybar\n", b"waybar\0").unwrap();
    assert_eq!(p.pid, 42);
    assert_eq!(p.comm, "waybar");
    assert_eq!(p.argv, vec!["waybar".to_string()]);
    assert!(process_entry(2, " \n", b"").is_none());
    assert!(process_entry(3, "kthreadd\n", b"").is_some());
}

fn ed(name: &str, x: i32, y: i32) -> EditableMonitor {
    EditableMonitor {
        edid_id: None,
        connector_hint: name.to_string(),
        available_modes: vec![md(1920, 1080, 60_000)],
        physical_mm: None,
        chosen_mode: md(1920, 1080, 60_000),
        scale: 1_000_000,
        position: (x, y),
        rotation: 0,
        disabled: false,
    }
}

#[test]
fn checked_snapping_refuses_out_of_range_layouts() {
    let mut ms = vec![ed("DP-1", 0, 0), ed("DP-2", 1930, 0)];
    assert!(try_apply_snap_with(&mut ms, 1, 20));
    assert_eq!(ms[1].position, (1920, 0));
    // An enabled neighbour of scale 0 reaches infinitely far: nothing to
    // snap to on x, and the shared top edge keeps y.
    let mut zero = vec![ed("DP-1", 0, 0), ed("DP-2", 1930, 0)];
    zero[0].scale = 0;
    assert!(try_apply_snap_with(&mut zero, 1, 20));
    assert_eq!(zero[1].position, (1930, 0));
    // Moving a scale-0 monitor towards an enabled one would overflow.
    assert!(!try_apply_snap_with(&mut zero, 0, 20));
    assert_eq!(zero[0].position, (0, 0));
    let mut aligned = vec![ed("DP-2", 1930, 0), ed("DP-1", 0, 0)];
    assert!(try_align_all(&mut aligned));
    // DP-1 (leftmost) goes first and closes the 10 px gap itself.
    assert_eq!(aligned[1].position, (10, 0));
    assert_eq!(aligned[0].position, (1930, 0));
    assert!(!try_align_all(&mut zero));
}

#[test]
fn rects_fit_checks_enabled_monitors_only() {
    let mut ms = vec![ed("DP-1", 0, 0), ed("DP-2", i32::MAX - 100, 0)];
    assert!(!rects_fit(&ms));
    ms[1].disabled = true;
    assert!(rects_fit(&ms));
}

#[test]
fn disabled_scale_zero_monitor_does_not_block_snapping() {
    let mut hdmi = ed("HDMI-A-1", 5000, 0);
    hdmi.scale = 0;
    hdmi.disabled = true;
    let mut ms = vec![ed("DP-1", 0, 0), ed("DP-2", 1930, 5), hdmi];
    assert!(try_apply_snap_with(&mut ms, 1, 20));
    assert_eq!(ms[1].position, (1920, 0));
    // A lone scale-0 monitor snaps to nothing and stays.
    let mut lone = ms.clone();
    lone[0].disabled = true;
    lone[1].scale = 0;
    assert!(try_apply_snap_with(&mut lone, 1, 20));
    assert_eq!(lone[1].position, (1920, 0));
}
