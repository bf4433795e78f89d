//! Saved per-monitor overrides and how they are laid over the automatic
//! plan.
use vstd::prelude::*;
use crate::model::{Mode, Monitor, MonitorConfig};
use crate::names::str_eq;
use crate::parse::{mode_text_parse, parse_mode_string};

verus! {

/// The format version this library reads and writes.
pub const CURRENT_VERSION: u32 = 1;

/// A saved position.
#[derive(Debug, Clone, Copy, PartialEq, Eq, Structural)]
pub struct Position {
    pub x: i32,
    pub y: i32,
}

/// A saved setting for one physical monitor.
#[derive(Debug, PartialEq, Eq)]
pub struct MonitorOverride {
    /// Identifier derived from the EDID, when it was readable.
    pub edid_id: Option<String>,
    /// The connector the monitor was on; the match key when either side has
    /// no `edid_id`.
    pub connector_hint: String,
    pub position: Position,
    /// `WxH@Hz`, as Hyprland writes modes.
    pub mode: String,
    /// Scale factor in millionths.
    pub scale: u32,
    pub rotation: u16,
    pub disabled: bool,
}

/// The saved configuration file.
#[derive(Debug, PartialEq, Eq)]
pub struct Config {
    pub version: u32,
    pub monitors: Vec<MonitorOverride>,
}

impl Default for Config {
    fn default() -> (c: Config)
        ensures
            c.version == 0,
            c.monitors@.len() == 0,
    {
        Config { version: 0, monitors: Vec::new() }
    }
}

/// The identifier of an optional EDID id, as plain characters.
pub open spec fn opt_text(o: Option<String>) -> Option<Seq<char>> {
    match o {
        Some(s) => Some(s@),
        None => None,
    }
}

impl Clone for MonitorOverride {
    fn clone(&self) -> (c: MonitorOverride)
        ensures
            c == *self,
    {
        MonitorOverride {
            edid_id: match &self.edid_id {
                Some(s) => Some(s.clone()),
                None => None,
            },
            connector_hint: self.connector_hint.clone(),
            position: self.position,
            mode: self.mode.clone(),
            scale: self.scale,
            rotation: self.rotation,
            disabled: self.disabled,
        }
    }
}

/// Whether saved override `o` belongs to the monitor with EDID id `edid` on
/// connector `name`: by EDID id when both have one (a different panel on
/// the same connector does not match), otherwise by connector.
pub open spec fn override_matches(o: MonitorOverride, edid: Option<Seq<char>>, name: Seq<char>) -> bool {
    match (edid, o.edid_id) {
        (Some(a), Some(b)) => a == b@,
        _ => o.connector_hint@ == name,
    }
}

/// Index of the first override matching; the first match wins.
pub open spec fn first_override(
    overrides: Seq<MonitorOverride>,
    edid: Option<Seq<char>>,
    name: Seq<char>,
) -> Option<int>
    decreases overrides.len(),
{
    if overrides.len() == 0 {
        None
    } else {
        match first_override(overrides.drop_last(), edid, name) {
            Some(i) => Some(i),
            None => if override_matches(overrides.last(), edid, name) {
                Some(overrides.len() - 1)
            } else {
                None
            },
        }
    }
}

/// The EDID id of the first monitor named `name`, if any has one.
pub open spec fn edid_of(monitors: Seq<Monitor>, name: Seq<char>) -> Option<Seq<char>> {
    match first_monitor_named(monitors, name) {
        Some(i) => opt_text(monitors[i].edid_id),
        None => None,
    }
}

/// Index of the first monitor named `name`.
pub open spec fn first_monitor_named(monitors: Seq<Monitor>, name: Seq<char>) -> Option<int>
    decreases monitors.len(),
{
    if monitors.len() == 0 {
        None
    } else {
        match first_monitor_named(monitors.drop_last(), name) {
            Some(i) => Some(i),
            None => if monitors.last().name@ == name {
                Some(monitors.len() - 1)
            } else {
                None
            },
        }
    }
}

/// A plan entry with a saved override laid over it: mode (when the saved
/// mode string parses), scale, position, rotation and disabled come from
/// the override.
pub open spec fn apply_override(e: MonitorConfig, o: MonitorOverride) -> MonitorConfig {
    MonitorConfig {
        name: e.name,
        mode: match mode_text_parse(o.mode@) {
            Some(m) => m,
            None => e.mode,
        },
        position: (o.position.x, o.position.y),
        scale: o.scale,
        rotation: o.rotation,
        disabled: o.disabled,
    }
}

/// The entry after merging: overridden when a saved override matches the
/// monitor (its EDID id looked up by name among `monitors`), unchanged
/// otherwise.
pub open spec fn merged_entry(e: MonitorConfig, monitors: Seq<Monitor>, overrides: Seq<MonitorOverride>) -> MonitorConfig {
    match first_override(overrides, edid_of(monitors, e.name@), e.name@) {
        Some(i) => apply_override(e, overrides[i]),
        None => e,
    }
}

pub(crate) proof fn lemma_first_override_props(overrides: Seq<MonitorOverride>, edid: Option<Seq<char>>, name: Seq<char>)
    ensures
        first_override(overrides, edid, name) matches Some(i) ==> 0 <= i < overrides.len()
            && override_matches(overrides[i], edid, name),
    decreases overrides.len(),
{
    if overrides.len() > 0 {
        lemma_first_override_props(overrides.drop_last(), edid, name);
    }
}

fn override_matches_exec(o: &MonitorOverride, edid: Option<&str>, name: &str) -> (b: bool)
    ensures
        b == override_matches(*o, match edid {
            Some(s) => Some(s@),
            None => None,
        }, name@),
{
    match (edid, &o.edid_id) {
        (Some(a), Some(b)) => str_eq(a, b.as_str()),
        _ => str_eq(o.connector_hint.as_str(), name),
    }
}

/// Index of the first saved override for the monitor.
pub fn find_override(overrides: &[MonitorOverride], edid: Option<&str>, name: &str) -> (r: Option<usize>)
    ensures
        r matches Some(i) ==> first_override(overrides@, match edid {
            Some(s) => Some(s@),
            None => None,
        }, name@) == Some(i as int),
        r is None ==> first_override(overrides@, match edid {
            Some(s) => Some(s@),
            None => None,
        }, name@) is None,
{
    let ghost e = match edid {
        Some(s) => Some(s@),
        None => None,
    };
    let mut i: usize = 0;
    while i < overrides.len()
        invariant
            i <= overrides.len(),
            e == (match edid {
                Some(s) => Some(s@),
                None => None,
            }),
            first_override(overrides@.subrange(0, i as int), e, name@) is None,
        decreases overrides.len() - i,
    {
        let hit = override_matches_exec(&overrides[i], edid, name);
        proof {
            let t = overrides@.subrange(0, i as int + 1);
            assert(t.drop_last() =~= overrides@.subrange(0, i as int));
            assert(t.last() == overrides@[i as int]);
        }
        if hit {
            proof {
                lemma_first_override_extend(overrides@, e, name@, i as int, overrides.len() as int);
                assert(overrides@.subrange(0, overrides.len() as int) =~= overrides@);
            }
            return Some(i);
        }
        i = i + 1;
    }
    proof {
        assert(overrides@.subrange(0, overrides.len() as int) =~= overrides@);
    }
    None
}

proof fn lemma_first_override_extend(
    s: Seq<MonitorOverride>,
    edid: Option<Seq<char>>,
    name: Seq<char>,
    i: int,
    j: int,
)
    requires
        0 <= i < j <= s.len(),
        first_override(s.subrange(0, i + 1), edid, name) == Some(i),
    ensures
        first_override(s.subrange(0, j), edid, name) == Some(i),
    decreases j,
{
    if j > i + 1 {
        lemma_first_override_extend(s, edid, name, i, j - 1);
        assert(s.subrange(0, j).drop_last() =~= s.subrange(0, j - 1));
    }
}

proof fn lemma_first_monitor_extend(s: Seq<Monitor>, name: Seq<char>, i: int, j: int)
    requires
        0 <= i < j <= s.len(),
        first_monitor_named(s.subrange(0, i + 1), name) == Some(i),
    ensures
        first_monitor_named(s.subrange(0, j), name) == Some(i),
    decreases j,
{
    if j > i + 1 {
        lemma_first_monitor_extend(s, name, i, j - 1);
        assert(s.subrange(0, j).drop_last() =~= s.subrange(0, j - 1));
    }
}

/// Index of the first monitor named `name`.
pub fn find_monitor(monitors: &[Monitor], name: &str) -> (r: Option<usize>)
    ensures
        r matches Some(i) ==> first_monitor_named(monitors@, name@) == Some(i as int),
        r is None ==> first_monitor_named(monitors@, name@) is None,
{
    let mut i: usize = 0;
    while i < monitors.len()
        invariant
            i <= monitors.len(),
            first_monitor_named(monitors@.subrange(0, i as int), name@) is None,
        decreases monitors.len() - i,
    {
        let hit = str_eq(monitors[i].name.as_str(), name);
        proof {
            let t = monitors@.subrange(0, i as int + 1);
            assert(t.drop_last() =~= monitors@.subrange(0, i as int));
            assert(t.last() == monitors@[i as int]);
        }
        if hit {
            proof {
                if i + 1 < monitors.len() {
                    lemma_first_monitor_extend(monitors@, name@, i as int, monitors.len() as int);
                }
                assert(monitors@.subrange(0, monitors.len() as int) =~= monitors@);
            }
            return Some(i);
        }
        i = i + 1;
    }
    proof {
        assert(monitors@.subrange(0, monitors.len() as int) =~= monitors@);
    }
    None
}

proof fn lemma_first_monitor_props(monitors: Seq<Monitor>, name: Seq<char>)
    ensures
        first_monitor_named(monitors, name) matches Some(i) ==> 0 <= i < monitors.len(),
    decreases monitors.len(),
{
    if monitors.len() > 0 {
        lemma_first_monitor_props(monitors.drop_last(), name);
    }
}

/// The EDID id of the first monitor named `name`.
pub fn edid_for_name<'a>(monitors: &'a [Monitor], name: &str) -> (r: Option<&'a str>)
    ensures
        (match r {
            Some(s) => Some(s@),
            None => None,
        }) == edid_of(monitors@, name@),
{
    proof {
        lemma_first_monitor_props(monitors@, name@);
    }
    match find_monitor(monitors, name) {
        Some(i) => match &monitors[i].edid_id {
            Some(id) => Some(id.as_str()),
            None => None,
        },
        None => None,
    }
}

/// Lay the saved overrides over a plan: each entry whose monitor has a
/// matching override (by EDID id when both sides have one, otherwise by
/// connector; the first match wins) takes the override's mode, scale,
/// position, rotation and disabled flag. Entries without a match keep their
/// automatic settings; overrides that match no entry are ignored.
pub fn merge_into_plan(plan: &mut Vec<MonitorConfig>, monitors: &[Monitor], cfg: &Config)
    ensures
        final(plan)@.len() == old(plan)@.len(),
        forall|k: int|
            0 <= k < old(plan)@.len() ==> #[trigger] final(plan)@[k] == merged_entry(
                old(plan)@[k],
                monitors@,
                cfg.monitors@,
            ),
{
    let ghost orig = plan@;
    let mut k: usize = 0;
    while k < plan.len()
        invariant
            k <= plan.len(),
            plan@.len() == orig.len(),
            forall|j: int| 0 <= j < k ==> #[trigger] plan@[j] == merged_entry(orig[j], monitors@, cfg.monitors@),
            forall|j: int| k <= j < plan@.len() ==> #[trigger] plan@[j] == orig[j],
        decreases plan.len() - k,
    {
        let edid = edid_for_name(monitors, plan[k].name.as_str());
        let found = find_override(cfg.monitors.as_slice(), edid, plan[k].name.as_str());
        proof {
            lemma_first_override_props(cfg.monitors@, edid_of(monitors@, plan@[k as int].name@), plan@[k as int].name@);
        }
        match found {
            Some(i) => {
                let o = &cfg.monitors[i];
                let mode = match parse_mode_string(o.mode.as_str()) {
                    Some(m) => m,
                    None => plan[k].mode,
                };
                let entry = MonitorConfig {
                    name: plan[k].name.clone(),
                    mode,
                    position: (o.position.x, o.position.y),
                    scale: o.scale,
                    rotation: o.rotation,
                    disabled: o.disabled,
                };
                plan.set(k, entry);
            },
            None => {},
        }
        k = k + 1;
    }
}

/// The configuration to use given what was read and parsed: nothing read
/// or parsed gives the empty default, and so does an unknown version.
pub fn config_or_default(parsed: Option<Config>) -> (c: Config)
    ensures
        (match parsed {
            Some(p) => if p.version == CURRENT_VERSION {
                c == p
            } else {
                c.version == 0 && c.monitors@.len() == 0
            },
            None => c.version == 0 && c.monitors@.len() == 0,
        }),
{
    match parsed {
        Some(cfg) => if cfg.version == CURRENT_VERSION {
            cfg
        } else {
            Config::default()
        },
        None => Config::default(),
    }
}

/// A saved override never applies to a different panel: when the monitor
/// and the override both have an EDID id and the ids differ, the entry
/// keeps its automatic settings, whatever connector the override names.
pub proof fn lemma_other_panel_override_ignored(e: MonitorConfig, monitors: Seq<Monitor>, o: MonitorOverride)
    requires
        edid_of(monitors, e.name@) is Some,
        o.edid_id is Some,
        edid_of(monitors, e.name@) != opt_text(o.edid_id),
    ensures
        merged_entry(e, monitors, seq![o]) == e,
{
    let ov = seq![o];
    assert(ov.drop_last() =~= Seq::<MonitorOverride>::empty());
    assert(ov.last() == o);
    assert(!override_matches(o, edid_of(monitors, e.name@), e.name@));
    assert(first_override(ov.drop_last(), edid_of(monitors, e.name@), e.name@) is None);
    assert(first_override(ov, edid_of(monitors, e.name@), e.name@) is None);
}

/// With no saved overrides, merging leaves every plan entry as planned.
pub proof fn lemma_merge_without_overrides(e: MonitorConfig, monitors: Seq<Monitor>)
    ensures
        merged_entry(e, monitors, Seq::empty()) == e,
{
    assert(first_override(Seq::<MonitorOverride>::empty(), edid_of(monitors, e.name@), e.name@) is None);
}

} // verus!
