//! The data the planner works on: display modes, detected monitors, and the
//! per-monitor configuration that is handed to Hyprland.
//!
//! Refresh rates are held in millihertz and scale factors in millionths, so
//! that every decision about them is exact.
use vstd::prelude::*;
use crate::text::{fixed_point_text, int_digits, nat_digits, pow10, push_fixed_point, push_i64, push_u64};

verus! {

/// Millihertz per hertz.
pub const MILLIHZ_PER_HZ: u32 = 1000;

/// The scale factor `1.0`, in millionths.
pub const SCALE_ONE: u32 = 1_000_000;

/// One display mode: resolution and refresh rate (in millihertz).
#[derive(Debug, Clone, Copy, PartialEq, Eq, Structural)]
pub struct Mode {
    pub width: u32,
    pub height: u32,
    pub refresh_millihz: u32,
}

/// A connected monitor as detected from Hyprland and its EDID.
#[derive(Debug, PartialEq, Eq)]
pub struct Monitor {
    pub name: String,
    pub width_px: u32,
    pub height_px: u32,
    /// Physical size in millimetres, from the EDID.
    pub physical_mm: Option<(u32, u32)>,
    /// The EDID's preferred (native) resolution.
    pub preferred_mode: Option<(u32, u32)>,
    /// Stable identifier derived from the EDID.
    pub edid_id: Option<String>,
    pub available_modes: Vec<Mode>,
}

/// The configuration applied to one monitor.
#[derive(Debug, PartialEq, Eq)]
pub struct MonitorConfig {
    pub name: String,
    pub mode: Mode,
    pub position: (i32, i32),
    /// Scale factor in millionths (`1_000_000` is `1.0`).
    pub scale: u32,
    /// Clockwise rotation in degrees.
    pub rotation: u16,
    pub disabled: bool,
}

/// Refresh rate as Hyprland expects it: whole hertz when integral, otherwise
/// up to three decimals with trailing zeros removed.
pub open spec fn hz_text(millihz: u32) -> Seq<char> {
    fixed_point_text(millihz as nat, 3)
}

/// Scale factor as Hyprland expects it: an integer when integral, otherwise
/// up to six decimals with trailing zeros removed.
pub open spec fn scale_text(scale: u32) -> Seq<char> {
    fixed_point_text(scale as nat, 6)
}

/// The `transform` value Hyprland uses for a rotation in degrees.
pub open spec fn transform_of(rotation: u16) -> nat {
    ((rotation as nat) / 90) % 4
}

/// The argument of `hyprctl keyword monitor` for a configuration.
pub open spec fn keyword_text(cfg: MonitorConfig) -> Seq<char> {
    if cfg.disabled {
        cfg.name@ + ",disable"@
    } else {
        let base = cfg.name@ + seq![','] + nat_digits(cfg.mode.width as nat) + seq!['x']
            + nat_digits(cfg.mode.height as nat) + seq!['@'] + hz_text(cfg.mode.refresh_millihz)
            + seq![','] + int_digits(cfg.position.0 as int) + seq!['x'] + int_digits(
            cfg.position.1 as int,
        ) + seq![','] + scale_text(cfg.scale);
        if cfg.rotation != 0 {
            base + ",transform,"@ + nat_digits(transform_of(cfg.rotation))
        } else {
            base
        }
    }
}

/// How rotation shows in the `keyword monitor` argument: a disabled
/// monitor's argument ignores it; for an enabled one, any rotation other
/// than 0 appends `,transform,` and the number of quarter turns modulo 4 to
/// the argument the same configuration has unrotated, and rotation 0 adds
/// nothing.
pub proof fn lemma_keyword_transform(cfg: MonitorConfig)
    ensures
        cfg.disabled ==> keyword_text(cfg) == keyword_text(MonitorConfig { rotation: 0, ..cfg }),
        !cfg.disabled && cfg.rotation != 0 ==> keyword_text(cfg) == keyword_text(
            MonitorConfig { rotation: 0, ..cfg },
        ) + ",transform,"@ + nat_digits(((cfg.rotation as nat) / 90) % 4),
        keyword_text(MonitorConfig { rotation: 0, ..cfg }).len() < keyword_text(cfg).len() <==> (
        !cfg.disabled && cfg.rotation != 0),
{
    let flat = MonitorConfig { rotation: 0, ..cfg };
    assert(flat.name@ == cfg.name@);
    if !cfg.disabled && cfg.rotation != 0 {
        let t = ((cfg.rotation as nat) / 90) % 4;
        assert(nat_digits(t).len() >= 1) by {
            reveal_with_fuel(nat_digits, 2);
        }
    }
}

proof fn lemma_pow10_values()
    ensures
        pow10(3) == 1000,
        pow10(6) == 1000000,
{
    assert(pow10(0) == 1);
    assert(pow10(1) == 10);
    assert(pow10(2) == 100);
    assert(pow10(3) == 1000);
    assert(pow10(4) == 10000);
    assert(pow10(5) == 100000);
    assert(pow10(6) == 1000000);
}

/// A mode as Hyprland and the saved configuration write it: `WxH@Hz`.
pub open spec fn mode_text(m: Mode) -> Seq<char> {
    nat_digits(m.width as nat) + seq!['x'] + nat_digits(m.height as nat) + seq!['@'] + hz_text(
        m.refresh_millihz,
    )
}

/// Renders a mode as `WxH@Hz`.
pub fn mode_string(m: Mode) -> (s: String)
    ensures
        s@ == mode_text(m),
{
    let mut s = String::new();
    push_u64(&mut s, m.width as u64);
    proof {
        reveal_strlit("x");
        reveal_strlit("@");
    }
    s.append("x");
    push_u64(&mut s, m.height as u64);
    s.append("@");
    let hz = format_hz(m.refresh_millihz);
    s.append(hz.as_str());
    s
}

/// Renders a refresh rate (millihertz) the way Hyprland reads it.
pub fn format_hz(millihz: u32) -> (s: String)
    ensures
        s@ == hz_text(millihz),
{
    let mut s = String::new();
    proof {
        lemma_pow10_values();
    }
    push_fixed_point(&mut s, millihz as u64, 3, 1000);
    s
}

/// Renders a scale factor (millionths) the way Hyprland reads it.
pub fn format_scale(scale: u32) -> (s: String)
    ensures
        s@ == scale_text(scale),
{
    let mut s = String::new();
    proof {
        lemma_pow10_values();
    }
    push_fixed_point(&mut s, scale as u64, 6, 1000000);
    s
}

/// One command of a `hyprctl --batch` line.
pub open spec fn keyword_command(cfg: MonitorConfig) -> Seq<char> {
    "keyword monitor "@ + keyword_text(cfg)
}

/// The `hyprctl --batch` argument applying every configuration in one
/// transaction: the commands joined by `" ; "`.
pub open spec fn batch_text(cfgs: Seq<MonitorConfig>) -> Seq<char>
    decreases cfgs.len(),
{
    if cfgs.len() == 0 {
        Seq::empty()
    } else if cfgs.len() == 1 {
        keyword_command(cfgs[0])
    } else {
        batch_text(cfgs.drop_last()) + " ; "@ + keyword_command(cfgs.last())
    }
}

/// Builds the `hyprctl --batch` argument for the configurations.
pub fn keyword_batch(cfgs: &[MonitorConfig]) -> (s: String)
    ensures
        s@ == batch_text(cfgs@),
{
    let mut s = String::new();
    let mut i: usize = 0;
    while i < cfgs.len()
        invariant
            i <= cfgs.len(),
            s@ == batch_text(cfgs@.subrange(0, i as int)),
        decreases cfgs.len() - i,
    {
        proof {
            let t = cfgs@.subrange(0, i as int + 1);
            assert(t.drop_last() =~= cfgs@.subrange(0, i as int));
            assert(t.last() == cfgs@[i as int]);
        }
        if i > 0 {
            s.append(" ; ");
        } else {
            proof {
                assert(cfgs@.subrange(0, 1)[0] == cfgs@[0]);
            }
        }
        s.append("keyword monitor ");
        let k = cfgs[i].to_string();
        s.append(k.as_str());
        i = i + 1;
    }
    proof {
        assert(cfgs@.subrange(0, cfgs.len() as int) =~= cfgs@);
    }
    s
}

impl Mode {
    /// Number of pixels of the mode.
    pub open spec fn pixels(self) -> int {
        self.width * self.height
    }
}

impl Clone for Monitor {
    fn clone(&self) -> (c: Monitor)
        ensures
            c.name == self.name,
            c.width_px == self.width_px,
            c.height_px == self.height_px,
            c.physical_mm == self.physical_mm,
            c.preferred_mode == self.preferred_mode,
            c.edid_id == self.edid_id,
            c.available_modes@ == self.available_modes@,
    {
        let edid_id = match &self.edid_id {
            Some(id) => Some(id.clone()),
            None => None,
        };
        Monitor {
            name: self.name.clone(),
            width_px: self.width_px,
            height_px: self.height_px,
            physical_mm: self.physical_mm,
            preferred_mode: self.preferred_mode,
            edid_id,
            available_modes: self.available_modes.clone(),
        }
    }
}

impl Clone for MonitorConfig {
    fn clone(&self) -> (c: MonitorConfig)
        ensures
            c == *self,
    {
        MonitorConfig {
            name: self.name.clone(),
            mode: self.mode,
            position: self.position,
            scale: self.scale,
            rotation: self.rotation,
            disabled: self.disabled,
        }
    }
}

impl MonitorConfig {
    /// The `hyprctl keyword monitor` argument for this configuration, e.g.
    /// `DP-1,2560x1440@165,0x0,1`, `DP-2,1920x1080@60,1920x0,1,transform,1`
    /// or `HDMI-A-1,disable`.
    pub fn to_string(&self) -> (s: String)
        ensures
            s@ == keyword_text(*self),
    {
        let mut s = String::new();
        s.append(self.name.as_str());
        if self.disabled {
            s.append(",disable");
            return s;
        }
        proof {
            reveal_strlit(",");
            reveal_strlit("x");
            reveal_strlit("@");
        }
        s.append(",");
        push_u64(&mut s, self.mode.width as u64);
        s.append("x");
        push_u64(&mut s, self.mode.height as u64);
        s.append("@");
        let hz = format_hz(self.mode.refresh_millihz);
        s.append(hz.as_str());
        s.append(",");
        push_i64(&mut s, self.position.0 as i64);
        s.append("x");
        push_i64(&mut s, self.position.1 as i64);
        s.append(",");
        let sc = format_scale(self.scale);
        s.append(sc.as_str());
        if self.rotation != 0 {
            s.append(",transform,");
            push_u64(&mut s, ((self.rotation / 90) % 4) as u64);
        }
        s
    }
}

} // verus!
