//! Physical size from the EDID, DPI, and the scale factor picked from it.
use vstd::prelude::*;
use crate::model::{Monitor, SCALE_ONE};
use crate::text::{hex_padded, nat_digits, push_char, push_hex_padded, push_u64};

verus! {

/// The fixed 8-byte EDID header.
pub open spec fn edid_header_ok(edid: Seq<u8>) -> bool {
    &&& edid.len() >= 8
    &&& edid[0] == 0x00u8
    &&& edid[1] == 0xFFu8
    &&& edid[2] == 0xFFu8
    &&& edid[3] == 0xFFu8
    &&& edid[4] == 0xFFu8
    &&& edid[5] == 0xFFu8
    &&& edid[6] == 0xFFu8
    &&& edid[7] == 0x00u8
}

/// Physical size in millimetres that an EDID block reports: bytes 0x15 and
/// 0x16 hold the maximum image size in centimetres.
pub open spec fn edid_dimensions(edid: Seq<u8>) -> Option<(u32, u32)> {
    if edid.len() < 0x17 || !edid_header_ok(edid) || edid[0x15] == 0 || edid[0x16] == 0 {
        None
    } else {
        Some(((edid[0x15] * 10) as u32, (edid[0x16] * 10) as u32))
    }
}

fn header_ok(edid: &[u8]) -> (b: bool)
    requires
        edid@.len() >= 8,
    ensures
        b == edid_header_ok(edid@),
{
    edid[0] == 0x00 && edid[1] == 0xFF && edid[2] == 0xFF && edid[3] == 0xFF && edid[4] == 0xFF
        && edid[5] == 0xFF && edid[6] == 0xFF && edid[7] == 0x00
}

/// Parse the maximum image size from an EDID block, returning
/// `(width_mm, height_mm)`. `None` when the block is shorter than 0x17
/// bytes, the header is invalid, or either dimension is zero.
pub fn parse_edid_dimensions(edid: &[u8]) -> (r: Option<(u32, u32)>)
    ensures
        r == edid_dimensions(edid@),
{
    if edid.len() < 0x17 {
        return None;
    }
    if !header_ok(edid) {
        return None;
    }
    let w_cm = edid[0x15];
    let h_cm = edid[0x16];
    if w_cm == 0 || h_cm == 0 {
        return None;
    }
    Some((w_cm as u32 * 10, h_cm as u32 * 10))
}

/// The preferred (native) resolution of an EDID block: the horizontal and
/// vertical active pixels of the first detailed timing descriptor (bytes
/// 0x36..0x47). `None` when the block is too short, the header is invalid,
/// the descriptor is not a timing (zero pixel clock), or a size is zero.
pub open spec fn edid_preferred_mode(edid: Seq<u8>) -> Option<(u32, u32)> {
    if edid.len() < 0x3E || !edid_header_ok(edid) || (edid[0x36] == 0 && edid[0x37] == 0) {
        None
    } else {
        let w = edid[0x38] + 256 * (edid[0x3A] / 16);
        let h = edid[0x3B] + 256 * (edid[0x3D] / 16);
        if w == 0 || h == 0 {
            None
        } else {
            Some((w as u32, h as u32))
        }
    }
}

/// Parse the preferred resolution from an EDID block.
pub fn parse_edid_preferred_mode(edid: &[u8]) -> (r: Option<(u32, u32)>)
    ensures
        r == edid_preferred_mode(edid@),
{
    if edid.len() < 0x3E {
        return None;
    }
    if !header_ok(edid) {
        return None;
    }
    if edid[0x36] == 0 && edid[0x37] == 0 {
        return None;
    }
    let w = edid[0x38] as u32 + 256 * (edid[0x3A] as u32 / 16);
    let h = edid[0x3B] as u32 + 256 * (edid[0x3D] as u32 / 16);
    if w == 0 || h == 0 {
        return None;
    }
    Some((w, h))
}

/// One manufacturer letter: a 5-bit code, `1` is `'A'`.
pub open spec fn mfg_letter(code: int) -> char {
    ((code + 64) as u8) as char
}

/// The 16-bit big-endian manufacturer word of an EDID block (bytes 8-9).
pub open spec fn mfg_word(edid: Seq<u8>) -> int {
    edid[8] * 256 + edid[9]
}

/// The little-endian product code (bytes 10-11).
pub open spec fn product_code(edid: Seq<u8>) -> int {
    edid[10] + 256 * edid[11]
}

/// The little-endian serial number (bytes 12-15).
pub open spec fn serial_number(edid: Seq<u8>) -> int {
    edid[12] + 256 * edid[13] + 65536 * edid[14] + 16777216 * edid[15]
}

/// Stable identifier of a physical panel from its EDID:
/// `MFG-PRODUCT-SERIAL` (product as 4 hex digits, serial as 8), or
/// `MFG-PRODUCT-W<week>Y<year>` when the serial is zero (year is byte 17
/// plus 1990). `None` when the block is shorter than 18 bytes or the header
/// is invalid.
pub open spec fn edid_id_text(edid: Seq<u8>) -> Option<Seq<char>> {
    if edid.len() < 18 || !edid_header_ok(edid) {
        None
    } else {
        let v = mfg_word(edid);
        let mfg = seq![
            mfg_letter((v / 1024) % 32),
            mfg_letter((v / 32) % 32),
            mfg_letter(v % 32),
        ];
        let tail = if serial_number(edid) != 0 {
            hex_padded(serial_number(edid) as nat, 8)
        } else {
            seq!['W'] + nat_digits(edid[16] as nat) + seq!['Y'] + nat_digits(
                (edid[17] + 1990) as nat,
            )
        };
        Some(mfg + seq!['-'] + hex_padded(product_code(edid) as nat, 4) + seq!['-'] + tail)
    }
}

/// Derive the stable panel identifier from an EDID block.
pub fn derive_edid_id(edid: &[u8]) -> (r: Option<String>)
    ensures
        r matches Some(s) ==> edid_id_text(edid@) == Some(s@),
        r is None ==> edid_id_text(edid@) is None,
{
    if edid.len() < 18 {
        return None;
    }
    if !header_ok(edid) {
        return None;
    }
    let v = edid[8] as u32 * 256 + edid[9] as u32;
    let mut s = String::new();
    push_char(&mut s, ((v / 1024) % 32 + 64) as u8 as char);
    push_char(&mut s, ((v / 32) % 32 + 64) as u8 as char);
    push_char(&mut s, (v % 32 + 64) as u8 as char);
    push_char(&mut s, '-');
    let product = edid[10] as u64 + 256 * edid[11] as u64;
    push_hex_padded(&mut s, product, 4);
    push_char(&mut s, '-');
    let serial = edid[12] as u64 + 256 * edid[13] as u64 + 65536 * edid[14] as u64 + 16777216
        * edid[15] as u64;
    if serial != 0 {
        push_hex_padded(&mut s, serial, 8);
    } else {
        push_char(&mut s, 'W');
        push_u64(&mut s, edid[16] as u64);
        push_char(&mut s, 'Y');
        push_u64(&mut s, edid[17] as u64 + 1990);
    }
    Some(s)
}

/// Square of the diagonal DPI, in (thousandths of a dot per inch)^2, as the
/// exact fraction `numerator / denominator`:
/// `dpi = diag_px / (diag_mm / 25.4)`.
pub open spec fn dpi_sq_numerator(width_px: u32, height_px: u32) -> int {
    25400 * 25400 * (width_px * width_px + height_px * height_px)
}

pub open spec fn dpi_sq_denominator(width_mm: u32, height_mm: u32) -> int {
    width_mm * width_mm + height_mm * height_mm
}

/// `r` is the diagonal DPI in thousandths, rounded down.
pub open spec fn is_dpi_thousandths(
    r: int,
    width_px: u32,
    height_px: u32,
    width_mm: u32,
    height_mm: u32,
) -> bool {
    let n = dpi_sq_numerator(width_px, height_px);
    let d = dpi_sq_denominator(width_mm, height_mm);
    &&& r >= 0
    &&& r * r * d <= n
    &&& n < (r + 1) * (r + 1) * d
}

/// The diagonal DPI in thousandths, rounded down (for non-zero sizes).
pub open spec fn dpi_thousandths(width_px: u32, height_px: u32, width_mm: u32, height_mm: u32) -> int {
    choose|r: int| is_dpi_thousandths(r, width_px, height_px, width_mm, height_mm)
}

proof fn lemma_floor_sqrt_unique(r: int, s: int, n: int, d: int)
    requires
        d > 0,
        r >= 0,
        s >= 0,
        r * r * d <= n,
        n < (r + 1) * (r + 1) * d,
        s * s * d <= n,
        n < (s + 1) * (s + 1) * d,
    ensures
        r == s,
{
    if r < s {
        assert((r + 1) * (r + 1) * d <= s * s * d) by (nonlinear_arith)
            requires
                r + 1 <= s,
                r >= 0,
                d > 0,
        ;
    } else if s < r {
        assert((s + 1) * (s + 1) * d <= r * r * d) by (nonlinear_arith)
            requires
                s + 1 <= r,
                s >= 0,
                d > 0,
        ;
    }
}

/// Any value meeting the floor-square-root condition is `dpi_thousandths`.
pub proof fn lemma_dpi_thousandths_unique(
    r: int,
    width_px: u32,
    height_px: u32,
    width_mm: u32,
    height_mm: u32,
)
    requires
        width_mm != 0 || height_mm != 0,
        is_dpi_thousandths(r, width_px, height_px, width_mm, height_mm),
    ensures
        dpi_thousandths(width_px, height_px, width_mm, height_mm) == r,
{
    let d = dpi_sq_denominator(width_mm, height_mm);
    assert(d > 0) by (nonlinear_arith)
        requires
            d == width_mm * width_mm + height_mm * height_mm,
            width_mm != 0 || height_mm != 0,
    ;
    let s = dpi_thousandths(width_px, height_px, width_mm, height_mm);
    assert(is_dpi_thousandths(s, width_px, height_px, width_mm, height_mm));
    lemma_floor_sqrt_unique(r, s, dpi_sq_numerator(width_px, height_px), d);
}

/// Floor square root of `q` (`q < 2^96`).
fn isqrt(q: u128) -> (r: u64)
    requires
        q < 0x1_0000_0000_0000_0000_0000_0000u128,
    ensures
        (r as int) * (r as int) <= q,
        q < (r as int + 1) * (r as int + 1),
{
    let mut lo: u64 = 0;
    let mut hi: u64 = 0x1_0000_0000_0000u64;
    assert(0x1_0000_0000_0000int * 0x1_0000_0000_0000int == 0x1_0000_0000_0000_0000_0000_0000int)
        by (nonlinear_arith);
    while hi - lo > 1
        invariant
            lo < hi,
            hi <= 0x1_0000_0000_0000u64,
            (lo as int) * (lo as int) <= q,
            q < (hi as int) * (hi as int),
        decreases hi - lo,
    {
        let mid = lo + (hi - lo) / 2;
        assert((mid as int) * (mid as int) <= 0x1_0000_0000_0000int * 0x1_0000_0000_0000int)
            by (nonlinear_arith)
            requires
                0 <= mid <= 0x1_0000_0000_0000int,
        ;
        let sq = (mid as u128) * (mid as u128);
        if sq <= q {
            lo = mid;
        } else {
            hi = mid;
        }
    }
    lo
}

/// Compute the diagonal DPI from pixel and millimetre sizes, in thousandths
/// of a dot per inch, rounded down. `None` when either millimetre dimension
/// is zero.
pub fn compute_dpi(width_px: u32, height_px: u32, width_mm: u32, height_mm: u32) -> (r: Option<u64>)
    ensures
        r is None <==> (width_mm == 0 || height_mm == 0),
        r matches Some(v) ==> v == dpi_thousandths(width_px, height_px, width_mm, height_mm),
{
    if width_mm == 0 || height_mm == 0 {
        return None;
    }
    let w = width_px as u128;
    let h = height_px as u128;
    let wm = width_mm as u128;
    let hm = height_mm as u128;
    assert(w * w <= 0xFFFF_FFFFint * 0xFFFF_FFFFint) by (nonlinear_arith)
        requires
            0 <= w <= 0xFFFF_FFFFint,
    ;
    assert(h * h <= 0xFFFF_FFFFint * 0xFFFF_FFFFint) by (nonlinear_arith)
        requires
            0 <= h <= 0xFFFF_FFFFint,
    ;
    assert(wm * wm <= 0xFFFF_FFFFint * 0xFFFF_FFFFint) by (nonlinear_arith)
        requires
            0 <= wm <= 0xFFFF_FFFFint,
    ;
    assert(hm * hm <= 0xFFFF_FFFFint * 0xFFFF_FFFFint) by (nonlinear_arith)
        requires
            0 <= hm <= 0xFFFF_FFFFint,
    ;
    let px2 = w * w + h * h;
    let n = 645160000u128 * px2;
    let d = wm * wm + hm * hm;
    assert(d > 0) by (nonlinear_arith)
        requires
            d == wm * wm + hm * hm,
            wm > 0,
    ;
    let q = n / d;
    assert(q <= n) by (nonlinear_arith)
        requires
            d > 0,
            n >= 0,
            q == n / d,
    ;
    let r = isqrt(q);
    proof {
        let ri = r as int;
        assert(n == dpi_sq_numerator(width_px, height_px));
        assert(d == dpi_sq_denominator(width_mm, height_mm));
        assert(ri * ri * d <= n) by (nonlinear_arith)
            requires
                ri * ri <= q,
                q == n / d,
                d > 0,
                n >= 0,
        ;
        assert(n < (ri + 1) * (ri + 1) * d) by (nonlinear_arith)
            requires
                q < (ri + 1) * (ri + 1),
                q == n / d,
                d > 0,
                n >= 0,
        ;
        lemma_dpi_thousandths_unique(ri, width_px, height_px, width_mm, height_mm);
    }
    Some(r)
}

/// The scale table: below 110 DPI 1.0, below 140 1.25, below 170 1.5, below
/// 220 1.75, otherwise 2.0 (DPI in thousandths, scale in millionths).
pub open spec fn scale_for_dpi(dpi_thousandths: int) -> u32 {
    if dpi_thousandths < 110_000 {
        1_000_000
    } else if dpi_thousandths < 140_000 {
        1_250_000
    } else if dpi_thousandths < 170_000 {
        1_500_000
    } else if dpi_thousandths < 220_000 {
        1_750_000
    } else {
        2_000_000
    }
}

/// Map a DPI (in thousandths) to a Hyprland scale factor (in millionths).
pub fn pick_scale_from_dpi(dpi: u64) -> (s: u32)
    ensures
        s == scale_for_dpi(dpi as int),
{
    if dpi < 110_000 {
        1_000_000
    } else if dpi < 140_000 {
        1_250_000
    } else if dpi < 170_000 {
        1_500_000
    } else if dpi < 220_000 {
        1_750_000
    } else {
        2_000_000
    }
}

/// The scale picked for a monitor: from its EDID size and current pixel
/// size through the DPI table, or 1.0 when the physical size is unknown or
/// zero.
pub open spec fn monitor_scale(m: Monitor) -> u32 {
    match m.physical_mm {
        Some((wm, hm)) => if wm == 0 || hm == 0 {
            SCALE_ONE
        } else {
            scale_for_dpi(dpi_thousandths(m.width_px, m.height_px, wm, hm))
        },
        None => SCALE_ONE,
    }
}

/// Decide the scale for a monitor.
pub fn pick_scale(monitor: &Monitor) -> (s: u32)
    ensures
        s == monitor_scale(*monitor),
{
    let Some((w_mm, h_mm)) = monitor.physical_mm else {
        return SCALE_ONE;
    };
    let Some(dpi) = compute_dpi(monitor.width_px, monitor.height_px, w_mm, h_mm) else {
        return SCALE_ONE;
    };
    pick_scale_from_dpi(dpi)
}

/// A higher DPI never gives a smaller scale.
pub proof fn lemma_scale_monotone_in_dpi(low: int, high: int)
    requires
        low <= high,
    ensures
        scale_for_dpi(low) <= scale_for_dpi(high),
{
}

/// Every monitor's scale is one of 1, 1.25, 1.5, 1.75 and 2.
pub proof fn lemma_monitor_scale_in_table(m: Monitor)
    ensures
        monitor_scale(m) == 1_000_000 || monitor_scale(m) == 1_250_000 || monitor_scale(m)
            == 1_500_000 || monitor_scale(m) == 1_750_000 || monitor_scale(m) == 2_000_000,
{
}

} // verus!
