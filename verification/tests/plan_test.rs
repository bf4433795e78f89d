//! The planner on the two captured `hyprctl monitors -j` setups.
use hyprmonitor::algo::plan;
use hyprmonitor::model::Monitor;
use hyprmonitor::parse::parse_available_modes;

fn fixture_monitor(name: &str, width: u32, height: u32, modes: &[&str]) -> Monitor {
    let raw: Vec<String> = modes.iter().map(|s| s.to_string()).collect();
    Monitor {
        name: name.to_string(),
        width_px: width,
        height_px: height,
        physical_mm: None, // fixtures don't carry EDID
        preferred_mode: None,
        edid_id: None,
        available_modes: parse_available_modes(&raw),
    }
}

#[test]
fn single_4k_laptop_picks_native_at_max_hz() {
    let monitors = vec![fixture_monitor(
        "eDP-1",
        3840,
        2400,
        &["3840x2400@60.000Hz", "1920x1200@60.000Hz"],
    )];
    let plan = plan(&monitors);
    assert_eq!(plan.len(), 1);
    assert_eq!(plan[0].name, "eDP-1");
    assert_eq!(plan[0].mode.width, 3840);
    assert_eq!(plan[0].mode.height, 2400);
    assert_eq!(plan[0].position, (0, 0));
    // No EDID in fixture -> scale falls back to 1.0
    assert_eq!(plan[0].scale, 1_000_000);
}

#[test]
fn laptop_plus_external_orders_internal_first() {
    let monitors = vec![
        fixture_monitor("eDP-1", 1920, 1080, &["1920x1080@60.000Hz"]),
        fixture_monitor("DP-1", 2560, 1440, &["2560x1440@60.000Hz", "2560x1440@165.000Hz"]),
    ];
    let plan = plan(&monitors);
    assert_eq!(plan.len(), 2);
    assert_eq!(plan[0].name, "eDP-1");
    assert_eq!(plan[1].name, "DP-1");
    assert_eq!(plan[0].position, (0, 0));
    assert_eq!(plan[1].position, (1920, 0));
    assert_eq!(plan[1].mode.refresh_millihz, 165_000);
}
