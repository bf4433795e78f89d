use hyprmonitor::algo::scale::{
    compute_dpi, derive_edid_id, parse_edid_dimensions, parse_edid_preferred_mode, pick_scale,
    pick_scale_from_dpi,
};
use hyprmonitor::model::{Mode, Monitor};

fn edid_with_dims(w_cm: u8, h_cm: u8) -> Vec<u8> {
    let mut bytes = vec![0u8; 128];
    bytes[0..8].copy_from_slice(&[0x00, 0xFF, 0xFF, 0xFF, 0xFF, 0xFF, 0xFF, 0x00]);
    bytes[0x15] = w_cm;
    bytes[0x16] = h_cm;
    bytes
}

/// DPI (float) in the library's unit, thousandths.
fn dpi(v: f64) -> u64 {
    (v * 1000.0).round() as u64
}

/// Scale (millionths) as a float.
fn scale_f(s: u32) -> f64 {
    s as f64 / 1_000_000.0
}

#[test]
fn parses_known_dimensions() {
    let edid = edid_with_dims(60, 34);
    assert_eq!(parse_edid_dimensions(&edid), Some((600, 340)));
}

#[test]
fn zero_width_returns_none() {
    let edid = edid_with_dims(0, 34);
    assert_eq!(parse_edid_dimensions(&edid), None);
}

#[test]
fn zero_height_returns_none() {
    let edid = edid_with_dims(60, 0);
    assert_eq!(parse_edid_dimensions(&edid), None);
}

#[test]
fn invalid_header_returns_none() {
    let mut edid = vec![0u8; 128];
    edid[0x15] = 60;
    edid[0x16] = 34;
    assert_eq!(parse_edid_dimensions(&edid), None);
}

#[test]
fn short_buffer_returns_none() {
    let edid = vec![0u8; 10];
    assert_eq!(parse_edid_dimensions(&edid), None);
}

#[test]
fn dpi_zero_mm_returns_none() {
    assert_eq!(compute_dpi(1920, 1080, 0, 340), None);
    assert_eq!(compute_dpi(1920, 1080, 600, 0), None);
}

#[test]
fn dpi_known_monitor() {
    // 24" 1920x1080 -> ~92 DPI
    let dpi = compute_dpi(1920, 1080, 530, 300).unwrap() as f64 / 1000.0;
    assert!((dpi - 92.6).abs() < 1.0, "dpi was {}", dpi);
}

#[test]
fn dpi_hidpi_laptop() {
    // 13.3" 2560x1600 -> ~226 DPI
    let dpi = compute_dpi(2560, 1600, 286, 179).unwrap() as f64 / 1000.0;
    assert!((dpi - 226.0).abs() < 2.0, "dpi was {}", dpi);
}

#[test]
fn scale_table_low_dpi() {
    assert_eq!(scale_f(pick_scale_from_dpi(dpi(80.0))), 1.0);
    assert_eq!(scale_f(pick_scale_from_dpi(dpi(109.999))), 1.0);
}

#[test]
fn scale_table_mid_dpi() {
    assert_eq!(scale_f(pick_scale_from_dpi(dpi(110.0))), 1.25);
    assert_eq!(scale_f(pick_scale_from_dpi(dpi(139.9))), 1.25);
    assert_eq!(scale_f(pick_scale_from_dpi(dpi(140.0))), 1.5);
    assert_eq!(scale_f(pick_scale_from_dpi(dpi(169.9))), 1.5);
}

#[test]
fn scale_table_hidpi() {
    assert_eq!(scale_f(pick_scale_from_dpi(dpi(170.0))), 1.75);
    assert_eq!(scale_f(pick_scale_from_dpi(dpi(219.9))), 1.75);
    assert_eq!(scale_f(pick_scale_from_dpi(dpi(220.0))), 2.0);
    assert_eq!(scale_f(pick_scale_from_dpi(dpi(300.0))), 2.0);
}

#[test]
fn dpi_exact_floor_in_thousandths() {
    // 3000x4000 px over 30x40 mm: diagonal 5000 px over 50 mm = 2540 DPI.
    assert_eq!(compute_dpi(3000, 4000, 30, 40), Some(2_540_000));
}

fn mon(w_px: u32, h_px: u32, mm: Option<(u32, u32)>) -> Monitor {
    Monitor {
        name: "DP-1".to_string(),
        width_px: w_px,
        height_px: h_px,
        physical_mm: mm,
        preferred_mode: None,
        edid_id: None,
        available_modes: vec![Mode { width: w_px, height: h_px, refresh_millihz: 60_000 }],
    }
}

#[test]
fn scale_no_edid_falls_back_to_1() {
    assert_eq!(pick_scale(&mon(1920, 1080, None)), 1_000_000);
}

#[test]
fn scale_zero_size_falls_back_to_1() {
    assert_eq!(pick_scale(&mon(1920, 1080, Some((0, 300)))), 1_000_000);
}

#[test]
fn scale_24_inch_1080p_is_1() {
    assert_eq!(pick_scale(&mon(1920, 1080, Some((530, 300)))), 1_000_000);
}

#[test]
fn scale_13_inch_4k_is_2() {
    assert_eq!(pick_scale(&mon(3840, 2400, Some((286, 179)))), 2_000_000);
}

fn edid_with_ids(serial: u32) -> Vec<u8> {
    let mut e = edid_with_dims(60, 34);
    // "LEN": L=12, E=5, N=14 -> 0b0_01100_00101_01110 = 0x30AE
    e[8] = 0x30;
    e[9] = 0xAE;
    e[10] = 0x32; // product 0x4032, little-endian
    e[11] = 0x40;
    e[12..16].copy_from_slice(&serial.to_le_bytes());
    e[16] = 12; // week
    e[17] = 30; // 1990 + 30 = 2020
    e
}

#[test]
fn edid_id_with_serial() {
    assert_eq!(derive_edid_id(&edid_with_ids(0x12345)), Some("LEN-4032-00012345".to_string()));
}

#[test]
fn edid_id_without_serial_uses_week_and_year() {
    assert_eq!(derive_edid_id(&edid_with_ids(0)), Some("LEN-4032-W12Y2020".to_string()));
}

#[test]
fn edid_id_needs_valid_header() {
    let mut e = edid_with_ids(1);
    e[0] = 0x01;
    assert_eq!(derive_edid_id(&e), None);
    assert_eq!(derive_edid_id(&e[0..17]), None);
}

#[test]
fn preferred_mode_from_first_timing_descriptor() {
    let mut e = edid_with_dims(60, 34);
    // 148.5 MHz pixel clock, 1920x1080 active
    e[0x36] = 0x02;
    e[0x37] = 0x3A;
    e[0x38] = 0x80; // 1920 = 0x780: low byte 0x80
    e[0x3A] = 0x70; // high nibble 7
    e[0x3B] = 0x38; // 1080 = 0x438: low byte 0x38
    e[0x3D] = 0x40; // high nibble 4
    assert_eq!(parse_edid_preferred_mode(&e), Some((1920, 1080)));
    e[0x36] = 0;
    e[0x37] = 0;
    assert_eq!(parse_edid_preferred_mode(&e), None);
}
