use hyprmonitor::model::{format_hz, format_scale, keyword_batch, mode_string, Mode, MonitorConfig};
use hyprmonitor::parse::{parse_available_modes, parse_mode_string};

/// Refresh rate (Hz, float) in millihertz.
fn hz(v: f64) -> u32 {
    (v * 1000.0).round() as u32
}

/// Scale (float) in millionths.
fn sc(v: f64) -> u32 {
    (v * 1_000_000.0).round() as u32
}

#[test]
fn monitor_config_formats_as_hyprland_keyword() {
    let cfg = MonitorConfig {
        name: "DP-1".to_string(),
        mode: Mode { width: 2560, height: 1440, refresh_millihz: hz(165.0) },
        position: (0, 0),
        scale: sc(1.0),
        rotation: 0,
        disabled: false,
    };
    assert_eq!(cfg.to_string(), "DP-1,2560x1440@165,0x0,1");
}

#[test]
fn monitor_config_keeps_fractional_refresh() {
    let cfg = MonitorConfig {
        name: "eDP-1".to_string(),
        mode: Mode { width: 1920, height: 1080, refresh_millihz: hz(59.951) },
        position: (2560, 0),
        scale: sc(1.25),
        rotation: 0,
        disabled: false,
    };
    assert_eq!(cfg.to_string(), "eDP-1,1920x1080@59.951,2560x0,1.25");
}

#[test]
fn monitor_config_emits_transform_when_rotated() {
    let cfg = MonitorConfig {
        name: "DP-2".to_string(),
        mode: Mode { width: 1920, height: 1080, refresh_millihz: hz(60.0) },
        position: (1920, 0),
        scale: sc(1.0),
        rotation: 90,
        disabled: false,
    };
    assert_eq!(cfg.to_string(), "DP-2,1920x1080@60,1920x0,1,transform,1");
}

#[test]
fn monitor_config_disabled_emits_disable_keyword() {
    let cfg = MonitorConfig {
        name: "HDMI-A-1".to_string(),
        mode: Mode { width: 1920, height: 1080, refresh_millihz: hz(60.0) },
        position: (1000, 200),
        scale: sc(1.5),
        rotation: 90,
        disabled: true,
    };
    assert_eq!(cfg.to_string(), "HDMI-A-1,disable");
}

#[test]
fn keyword_negative_position_and_odd_scale() {
    let cfg = MonitorConfig {
        name: "DP-3".to_string(),
        mode: Mode { width: 1280, height: 1024, refresh_millihz: 75_025 },
        position: (-1280, -24),
        scale: 1_333_333,
        rotation: 270,
        disabled: false,
    };
    assert_eq!(cfg.to_string(), "DP-3,1280x1024@75.025,-1280x-24,1.333333,transform,3");
}

#[test]
fn format_hz_and_scale_trim_zeros() {
    assert_eq!(format_hz(60_000), "60");
    assert_eq!(format_hz(59_950), "59.95");
    assert_eq!(format_hz(143_998), "143.998");
    assert_eq!(format_hz(5), "0.005");
    assert_eq!(format_scale(2_000_000), "2");
    assert_eq!(format_scale(1_500_000), "1.5");
    assert_eq!(format_scale(1_750_000), "1.75");
}

#[test]
fn batch_joins_keyword_commands() {
    let a = MonitorConfig {
        name: "eDP-1".to_string(),
        mode: Mode { width: 1920, height: 1080, refresh_millihz: 60_000 },
        position: (0, 0),
        scale: 1_000_000,
        rotation: 0,
        disabled: false,
    };
    let b = MonitorConfig { name: "DP-1".to_string(), disabled: true, ..a.clone() };
    assert_eq!(keyword_batch(&[]), "");
    assert_eq!(keyword_batch(&[a.clone()]), "keyword monitor eDP-1,1920x1080@60,0x0,1");
    assert_eq!(
        keyword_batch(&[a, b]),
        "keyword monitor eDP-1,1920x1080@60,0x0,1 ; keyword monitor DP-1,disable"
    );
}

#[test]
fn parses_mode_with_decimal_hz() {
    assert_eq!(
        parse_mode_string("1920x1080@59.951Hz"),
        Some(Mode { width: 1920, height: 1080, refresh_millihz: hz(59.951) })
    );
}

#[test]
fn parses_mode_with_integer_hz() {
    assert_eq!(
        parse_mode_string("2560x1440@165Hz"),
        Some(Mode { width: 2560, height: 1440, refresh_millihz: hz(165.0) })
    );
}

#[test]
fn parses_mode_without_hz_suffix() {
    assert_eq!(
        parse_mode_string("2560x1440@165"),
        Some(Mode { width: 2560, height: 1440, refresh_millihz: hz(165.0) })
    );
}

#[test]
fn rejects_garbage() {
    assert_eq!(parse_mode_string("garbage"), None);
    assert_eq!(parse_mode_string(""), None);
    assert_eq!(parse_mode_string("1920x@60Hz"), None);
}

#[test]
fn parse_mode_accepts_whitespace_plus_and_rounds() {
    assert_eq!(
        parse_mode_string(" 1920 x +1080 @ 60.0004Hz"),
        Some(Mode { width: 1920, height: 1080, refresh_millihz: 60_000 })
    );
    // "Hz" is removed before whitespace is trimmed, so a trailing space keeps it
    assert_eq!(parse_mode_string("1920x1080@60Hz "), None);
    assert_eq!(
        parse_mode_string(" 1920 x +1080 @ 59.9995Hz"),
        Some(Mode { width: 1920, height: 1080, refresh_millihz: 60_000 })
    );
    assert_eq!(
        parse_mode_string("800x600@.5"),
        Some(Mode { width: 800, height: 600, refresh_millihz: 500 })
    );
    assert_eq!(parse_mode_string("800x600@."), None);
    assert_eq!(parse_mode_string("800x600@60HzHz"), Some(Mode { width: 800, height: 600, refresh_millihz: 60_000 }));
    assert_eq!(parse_mode_string("4294967296x600@60"), None);
}

#[test]
fn parse_mode_accepts_exponent_notation() {
    let m = |hz: u32| Some(Mode { width: 1920, height: 1080, refresh_millihz: hz });
    assert_eq!(parse_mode_string("1920x1080@6e1"), m(60_000));
    assert_eq!(parse_mode_string("1920x1080@1.44E2Hz"), m(144_000));
    assert_eq!(parse_mode_string("1920x1080@6000e-2"), m(60_000));
    assert_eq!(parse_mode_string("1920x1080@+5.9951e+1"), m(59_951));
    assert_eq!(parse_mode_string("1920x1080@1.e2"), m(100_000));
    // half a millihertz rounds up, just under it rounds down
    assert_eq!(parse_mode_string("1920x1080@5e-4"), m(1));
    assert_eq!(parse_mode_string("1920x1080@4.9e-4"), m(0));
    assert_eq!(parse_mode_string("1920x1080@1e-400"), m(0));
    assert_eq!(parse_mode_string("1920x1080@0e400"), m(0));
    assert_eq!(parse_mode_string("1920x1080@4.294967295e6"), m(4_294_967_295));
    // refused: too large for millihertz, malformed exponents, signs and words
    assert_eq!(parse_mode_string("1920x1080@4.294967296e6"), None);
    assert_eq!(parse_mode_string("1920x1080@1e10"), None);
    assert_eq!(parse_mode_string("1920x1080@1e"), None);
    assert_eq!(parse_mode_string("1920x1080@e5"), None);
    assert_eq!(parse_mode_string("1920x1080@1e2e3"), None);
    assert_eq!(parse_mode_string("1920x1080@-60"), None);
    assert_eq!(parse_mode_string("1920x1080@inf"), None);
    assert_eq!(parse_mode_string("1920x1080@NaN"), None);
}

#[test]
fn mode_string_round_trips_through_parser() {
    for m in [
        Mode { width: 1920, height: 1080, refresh_millihz: 59_951 },
        Mode { width: 3840, height: 2160, refresh_millihz: 60_000 },
        Mode { width: 1, height: 2, refresh_millihz: 100 },
    ] {
        assert_eq!(parse_mode_string(&mode_string(m)), Some(m));
    }
    assert_eq!(mode_string(Mode { width: 1920, height: 1080, refresh_millihz: 143_980 }), "1920x1080@143.98");
}

#[test]
fn available_modes_skip_unparseable() {
    let raw = vec!["1920x1080@60.000Hz".to_string(), "junk".to_string(), "1280x720@59.94Hz".to_string()];
    assert_eq!(
        parse_available_modes(&raw),
        vec![
            Mode { width: 1920, height: 1080, refresh_millihz: 60_000 },
            Mode { width: 1280, height: 720, refresh_millihz: 59_940 },
        ]
    );
}
