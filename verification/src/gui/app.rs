//! The layout editor's state: the monitors as the user edits them, and the
//! configuration saved back from them.
use vstd::prelude::*;
use crate::algo::{is_plan, plan, planned_row_width};
use crate::config::{
    find_override,
    merge_into_plan,
    merged_entry,
    opt_text,
    override_matches,
    Config,
    MonitorOverride,
    Position,
    CURRENT_VERSION,
};
use crate::model::{mode_string, mode_text, Mode, Monitor, MonitorConfig};
use crate::names::str_eq;

verus! {

/// One monitor in the editor.
#[derive(Debug)]
pub struct EditableMonitor {
    pub edid_id: Option<String>,
    pub connector_hint: String,
    /// From the query; never edited.
    pub available_modes: Vec<Mode>,
    pub physical_mm: Option<(u32, u32)>,
    pub chosen_mode: Mode,
    /// Scale factor in millionths.
    pub scale: u32,
    pub position: (i32, i32),
    pub rotation: u16,
    pub disabled: bool,
}

/// An editable monitor as plain values.
pub struct EditableView {
    pub edid_id: Option<Seq<char>>,
    pub connector_hint: Seq<char>,
    pub available_modes: Seq<Mode>,
    pub physical_mm: Option<(u32, u32)>,
    pub chosen_mode: Mode,
    pub scale: u32,
    pub position: (i32, i32),
    pub rotation: u16,
    pub disabled: bool,
}

impl View for EditableMonitor {
    type V = EditableView;

    open spec fn view(&self) -> EditableView {
        EditableView {
            edid_id: opt_text(self.edid_id),
            connector_hint: self.connector_hint@,
            available_modes: self.available_modes@,
            physical_mm: self.physical_mm,
            chosen_mode: self.chosen_mode,
            scale: self.scale,
            position: self.position,
            rotation: self.rotation,
            disabled: self.disabled,
        }
    }
}

impl Clone for EditableMonitor {
    fn clone(&self) -> (c: EditableMonitor)
        ensures
            c@ == self@,
    {
        EditableMonitor {
            edid_id: match &self.edid_id {
                Some(s) => Some(s.clone()),
                None => None,
            },
            connector_hint: self.connector_hint.clone(),
            available_modes: self.available_modes.clone(),
            physical_mm: self.physical_mm,
            chosen_mode: self.chosen_mode,
            scale: self.scale,
            position: self.position,
            rotation: self.rotation,
            disabled: self.disabled,
        }
    }
}

/// The views of a list of editor entries.
pub open spec fn views(ms: Seq<EditableMonitor>) -> Seq<EditableView> {
    ms.map_values(|e: EditableMonitor| e@)
}

/// A saved override as plain values.
pub struct OverrideView {
    pub edid_id: Option<Seq<char>>,
    pub connector_hint: Seq<char>,
    pub position: Position,
    pub mode: Seq<char>,
    pub scale: u32,
    pub rotation: u16,
    pub disabled: bool,
}

impl View for MonitorOverride {
    type V = OverrideView;

    open spec fn view(&self) -> OverrideView {
        OverrideView {
            edid_id: opt_text(self.edid_id),
            connector_hint: self.connector_hint@,
            position: self.position,
            mode: self.mode@,
            scale: self.scale,
            rotation: self.rotation,
            disabled: self.disabled,
        }
    }
}

/// The editor state (everything but what only drawing needs).
pub struct App {
    pub monitors: Vec<EditableMonitor>,
    pub selected: Option<usize>,
    pub dirty: bool,
    pub last_error: Option<String>,
    /// The automatic plan for the monitors, as loaded; what an unedited
    /// monitor looks like.
    pub auto: Vec<MonitorConfig>,
    /// The overrides of the configuration loaded, kept so that those of
    /// monitors not connected now survive a save.
    pub saved: Vec<MonitorOverride>,
}

/// Index of the first configuration named `name`.
pub open spec fn first_config_named(cfgs: Seq<MonitorConfig>, name: Seq<char>) -> Option<int>
    decreases cfgs.len(),
{
    if cfgs.len() == 0 {
        None
    } else {
        match first_config_named(cfgs.drop_last(), name) {
            Some(i) => Some(i),
            None => if cfgs.last().name@ == name {
                Some(cfgs.len() - 1)
            } else {
                None
            },
        }
    }
}

/// The plan with saved overrides laid over every entry.
pub open spec fn merged_plan(
    auto: Seq<MonitorConfig>,
    monitors: Seq<Monitor>,
    overrides: Seq<MonitorOverride>,
) -> Seq<MonitorConfig> {
    Seq::new(auto.len(), |k: int| merged_entry(auto[k], monitors, overrides))
}

/// The editor entry for monitor `m` given its (merged) plan entry `e`.
pub open spec fn editable_for(m: Monitor, e: MonitorConfig) -> EditableView {
    EditableView {
        edid_id: opt_text(m.edid_id),
        connector_hint: m.name@,
        available_modes: m.available_modes@,
        physical_mm: m.physical_mm,
        chosen_mode: e.mode,
        scale: e.scale,
        position: e.position,
        rotation: e.rotation,
        disabled: e.disabled,
    }
}

/// The editor entries, in query order, for the monitors that have an entry
/// in the merged plan.
pub open spec fn editables(ms: Seq<Monitor>, merged: Seq<MonitorConfig>) -> Seq<EditableView>
    decreases ms.len(),
{
    if ms.len() == 0 {
        Seq::empty()
    } else {
        editables(ms.drop_last(), merged) + match first_config_named(merged, ms.last().name@) {
            Some(j) => seq![editable_for(ms.last(), merged[j])],
            None => Seq::empty(),
        }
    }
}

/// An editor entry still has its automatic settings.
pub open spec fn is_auto(e: EditableView, auto: Seq<MonitorConfig>) -> bool {
    match first_config_named(auto, e.connector_hint) {
        Some(j) => {
            &&& e.chosen_mode == auto[j].mode
            &&& e.scale == auto[j].scale
            &&& e.position == auto[j].position
            &&& e.rotation == auto[j].rotation
            &&& e.disabled == auto[j].disabled
        },
        None => false,
    }
}

/// The override saved for an edited monitor.
pub open spec fn override_for(e: EditableView) -> OverrideView {
    OverrideView {
        edid_id: e.edid_id,
        connector_hint: e.connector_hint,
        position: Position { x: e.position.0, y: e.position.1 },
        mode: mode_text(e.chosen_mode),
        scale: e.scale,
        rotation: e.rotation,
        disabled: e.disabled,
    }
}

/// Overrides for the monitors the user changed from their automatic
/// settings, in editor order.
pub open spec fn edited_overrides(es: Seq<EditableView>, auto: Seq<MonitorConfig>) -> Seq<OverrideView>
    decreases es.len(),
{
    if es.len() == 0 {
        Seq::empty()
    } else {
        edited_overrides(es.drop_last(), auto) + if is_auto(es.last(), auto) {
            Seq::empty()
        } else {
            seq![override_for(es.last())]
        }
    }
}

/// A saved override belongs to one of the monitors in the editor.
pub open spec fn matches_connected(o: MonitorOverride, es: Seq<EditableView>) -> bool {
    exists|i: int| 0 <= i < es.len() && override_matches(o, es[i].edid_id, #[trigger] es[i].connector_hint)
}

/// Saved overrides of monitors not connected now, in saved order.
pub open spec fn preserved_overrides(saved: Seq<MonitorOverride>, es: Seq<EditableView>) -> Seq<OverrideView>
    decreases saved.len(),
{
    if saved.len() == 0 {
        Seq::empty()
    } else {
        preserved_overrides(saved.drop_last(), es) + if matches_connected(saved.last(), es) {
            Seq::empty()
        } else {
            seq![saved.last()@]
        }
    }
}

/// Override `o` records monitor `e`: its EDID id and connector, position,
/// mode (as text), scale, rotation and whether it is disabled.
pub open spec fn records(o: OverrideView, e: EditableView) -> bool {
    &&& o.edid_id == e.edid_id
    &&& o.connector_hint == e.connector_hint
    &&& o.position.x == e.position.0
    &&& o.position.y == e.position.1
    &&& o.mode == mode_text(e.chosen_mode)
    &&& o.scale == e.scale
    &&& o.rotation == e.rotation
    &&& o.disabled == e.disabled
}

/// The overrides `to_config` writes for the edited monitors (the part of
/// its result before the preserved ones) are exactly the monitors that
/// differ from their automatic settings: every such override records one of
/// them, with that monitor's own EDID id, and every such monitor is recorded
/// by one. So an override saved for a panel never carries another panel's
/// identity, or none where the panel has one.
pub proof fn lemma_edited_overrides_identity(es: Seq<EditableView>, auto: Seq<MonitorConfig>)
    ensures
        forall|k: int|
            0 <= k < edited_overrides(es, auto).len() ==> exists|i: int|
                0 <= i < es.len() && !is_auto(es[i], auto) && records(
                    #[trigger] edited_overrides(es, auto)[k],
                    #[trigger] es[i],
                ),
        forall|i: int|
            0 <= i < es.len() && !is_auto(#[trigger] es[i], auto) ==> exists|k: int|
                0 <= k < edited_overrides(es, auto).len() && records(
                    #[trigger] edited_overrides(es, auto)[k],
                    es[i],
                ),
    decreases es.len(),
{
    if es.len() > 0 {
        let init = es.drop_last();
        lemma_edited_overrides_identity(init, auto);
        let prev = edited_overrides(init, auto);
        let all = edited_overrides(es, auto);
        let n = es.len() - 1;
        assert(es.last() == es[n]);
        assert forall|k: int| 0 <= k < all.len() implies exists|i: int|
            0 <= i < es.len() && !is_auto(es[i], auto) && records(
                #[trigger] edited_overrides(es, auto)[k],
                #[trigger] es[i],
            ) by {
            if k < prev.len() {
                assert(all[k] == prev[k]);
                let i = choose|i: int|
                    0 <= i < init.len() && !is_auto(init[i], auto) && records(
                        #[trigger] edited_overrides(init, auto)[k],
                        #[trigger] init[i],
                    );
                assert(init[i] == es[i]);
            } else {
                assert(all[k] == override_for(es.last()));
                assert(records(all[k], es[n]));
            }
        }
        assert forall|i: int| 0 <= i < es.len() && !is_auto(#[trigger] es[i], auto) implies exists|k: int|
            0 <= k < edited_overrides(es, auto).len() && records(
                #[trigger] edited_overrides(es, auto)[k],
                es[i],
            ) by {
            if i < n {
                assert(init[i] == es[i]);
                let k = choose|k: int|
                    0 <= k < edited_overrides(init, auto).len() && records(
                        #[trigger] edited_overrides(init, auto)[k],
                        init[i],
                    );
                assert(all[k] == prev[k]);
            } else {
                assert(all[prev.len() as int] == override_for(es.last()));
                assert(records(all[prev.len() as int], es[i]));
            }
        }
    }
}

pub(crate) proof fn lemma_first_config_props(cfgs: Seq<MonitorConfig>, name: Seq<char>)
    ensures
        first_config_named(cfgs, name) matches Some(i) ==> 0 <= i < cfgs.len() && cfgs[i].name@
            == name,
    decreases cfgs.len(),
{
    if cfgs.len() > 0 {
        lemma_first_config_props(cfgs.drop_last(), name);
    }
}

proof fn lemma_first_config_extend(s: Seq<MonitorConfig>, name: Seq<char>, i: int, j: int)
    requires
        0 <= i < j <= s.len(),
        first_config_named(s.subrange(0, i + 1), name) == Some(i),
    ensures
        first_config_named(s.subrange(0, j), name) == Some(i),
    decreases j,
{
    if j > i + 1 {
        lemma_first_config_extend(s, name, i, j - 1);
        assert(s.subrange(0, j).drop_last() =~= s.subrange(0, j - 1));
    }
}

/// Index of the first configuration named `name`.
pub fn find_config(cfgs: &[MonitorConfig], name: &str) -> (r: Option<usize>)
    ensures
        r matches Some(i) ==> first_config_named(cfgs@, name@) == Some(i as int),
        r is None ==> first_config_named(cfgs@, name@) is None,
{
    let mut i: usize = 0;
    while i < cfgs.len()
        invariant
            i <= cfgs.len(),
            first_config_named(cfgs@.subrange(0, i as int), name@) is None,
        decreases cfgs.len() - i,
    {
        let hit = str_eq(cfgs[i].name.as_str(), name);
        proof {
            let t = cfgs@.subrange(0, i as int + 1);
            assert(t.drop_last() =~= cfgs@.subrange(0, i as int));
            assert(t.last() == cfgs@[i as int]);
        }
        if hit {
            proof {
                if i + 1 < cfgs.len() {
                    lemma_first_config_extend(cfgs@, name@, i as int, cfgs.len() as int);
                }
                assert(cfgs@.subrange(0, cfgs.len() as int) =~= cfgs@);
            }
            return Some(i);
        }
        i = i + 1;
    }
    proof {
        assert(cfgs@.subrange(0, cfgs.len() as int) =~= cfgs@);
    }
    None
}

fn clone_opt_string(o: &Option<String>) -> (c: Option<String>)
    ensures
        c == *o,
{
    match o {
        Some(s) => Some(s.clone()),
        None => None,
    }
}

impl App {
    /// An empty editor.
    pub fn new() -> (app: App)
        ensures
            app.monitors@.len() == 0,
            app.selected is None,
            !app.dirty,
            app.last_error is None,
            app.auto@.len() == 0,
            app.saved@.len() == 0,
    {
        App {
            monitors: Vec::new(),
            selected: None,
            dirty: false,
            last_error: None,
            auto: Vec::new(),
            saved: Vec::new(),
        }
    }

    /// Build the editor entries from a live query: the automatic plan for
    /// the monitors with the saved overrides laid over it, one entry per
    /// monitor in query order.
    pub fn load(&mut self, monitors: &[Monitor], cfg: &Config)
        requires
            planned_row_width(monitors@) <= i32::MAX,
        ensures
            is_plan(monitors@, final(self).auto@),
            final(self).monitors@.map_values(|e: EditableMonitor| e@) == editables(
                monitors@,
                merged_plan(final(self).auto@, monitors@, cfg.monitors@),
            ),
            final(self).saved@ == cfg.monitors@,
            final(self).selected is None,
            !final(self).dirty,
            final(self).last_error is None,
    {
        let auto = plan(monitors);
        let mut merged: Vec<MonitorConfig> = Vec::new();
        let mut k: usize = 0;
        while k < auto.len()
            invariant
                k <= auto.len(),
                merged@ =~= auto@.subrange(0, k as int),
            decreases auto.len() - k,
        {
            merged.push(auto[k].clone());
            k = k + 1;
        }
        merge_into_plan(&mut merged, monitors, cfg);
        let ghost mp = merged_plan(auto@, monitors@, cfg.monitors@);
        assert(merged@ =~= mp);
        let mut list: Vec<EditableMonitor> = Vec::new();
        let mut i: usize = 0;
        while i < monitors.len()
            invariant
                i <= monitors.len(),
                merged@ == mp,
                list@.map_values(|e: EditableMonitor| e@) == editables(
                    monitors@.subrange(0, i as int),
                    mp,
                ),
            decreases monitors.len() - i,
        {
            let m = &monitors[i];
            let ghost before = list@;
            proof {
                let t = monitors@.subrange(0, i as int + 1);
                assert(t.drop_last() =~= monitors@.subrange(0, i as int));
                assert(t.last() == monitors@[i as int]);
                lemma_first_config_props(mp, m.name@);
            }
            match find_config(merged.as_slice(), m.name.as_str()) {
                Some(j) => {
                    let e = &merged[j];
                    list.push(
                        EditableMonitor {
                            edid_id: clone_opt_string(&m.edid_id),
                            connector_hint: m.name.clone(),
                            available_modes: m.available_modes.clone(),
                            physical_mm: m.physical_mm,
                            chosen_mode: e.mode,
                            scale: e.scale,
                            position: e.position,
                            rotation: e.rotation,
                            disabled: e.disabled,
                        },
                    );
                    assert(list@.map_values(|e: EditableMonitor| e@) =~= before.map_values(
                        |e: EditableMonitor| e@,
                    ).push(editable_for(*m, mp[j as int])));
                },
                None => {},
            }
            i = i + 1;
        }
        proof {
            assert(monitors@.subrange(0, monitors.len() as int) =~= monitors@);
        }
        let mut saved: Vec<MonitorOverride> = Vec::new();
        let mut k: usize = 0;
        while k < cfg.monitors.len()
            invariant
                k <= cfg.monitors.len(),
                saved@ =~= cfg.monitors@.subrange(0, k as int),
            decreases cfg.monitors.len() - k,
        {
            saved.push(cfg.monitors[k].clone());
            k = k + 1;
        }
        self.monitors = list;
        self.auto = auto;
        self.saved = saved;
        self.selected = None;
        self.dirty = false;
        self.last_error = None;
    }

    /// The configuration to save: the current format version; an override
    /// for every monitor whose settings differ from its automatic ones (in
    /// editor order); then, unchanged, every loaded override that belongs
    /// to no monitor connected now. A monitor back at its automatic
    /// settings gets no override, so later automatic changes still apply.
    pub fn to_config(&self) -> (c: Config)
        ensures
            c.version == CURRENT_VERSION,
            c.monitors@.map_values(|o: MonitorOverride| o@) == edited_overrides(
                self.monitors@.map_values(|e: EditableMonitor| e@),
                self.auto@,
            ) + preserved_overrides(
                self.saved@,
                self.monitors@.map_values(|e: EditableMonitor| e@),
            ),
    {
        let ghost es = self.monitors@.map_values(|e: EditableMonitor| e@);
        let mut out: Vec<MonitorOverride> = Vec::new();
        let mut i: usize = 0;
        while i < self.monitors.len()
            invariant
                i <= self.monitors.len(),
                es == self.monitors@.map_values(|e: EditableMonitor| e@),
                out@.map_values(|o: MonitorOverride| o@) == edited_overrides(
                    es.subrange(0, i as int),
                    self.auto@,
                ),
            decreases self.monitors.len() - i,
        {
            let e = &self.monitors[i];
            let ghost before = out@;
            proof {
                let t = es.subrange(0, i as int + 1);
                assert(t.drop_last() =~= es.subrange(0, i as int));
                assert(t.last() == e@);
                lemma_first_config_props(self.auto@, e@.connector_hint);
            }
            let same = match find_config(self.auto.as_slice(), e.connector_hint.as_str()) {
                Some(j) => {
                    let a = &self.auto[j];
                    e.chosen_mode == a.mode && e.scale == a.scale && e.position.0 == a.position.0
                        && e.position.1 == a.position.1
                        && e.rotation == a.rotation && e.disabled == a.disabled
                },
                None => false,
            };
            if !same {
                out.push(
                    MonitorOverride {
                        edid_id: clone_opt_string(&e.edid_id),
                        connector_hint: e.connector_hint.clone(),
                        position: Position { x: e.position.0, y: e.position.1 },
                        mode: mode_string(e.chosen_mode),
                        scale: e.scale,
                        rotation: e.rotation,
                        disabled: e.disabled,
                    },
                );
            }
            assert(out@.map_values(|o: MonitorOverride| o@) =~= before.map_values(
                |o: MonitorOverride| o@,
            ) + edited_overrides(es.subrange(0, i as int + 1), self.auto@).subrange(
                before.len() as int,
                out@.len() as int,
            ));
            i = i + 1;
        }
        proof {
            assert(es.subrange(0, self.monitors.len() as int) =~= es);
        }
        let ghost edited = out@.map_values(|o: MonitorOverride| o@);
        let mut k: usize = 0;
        while k < self.saved.len()
            invariant
                k <= self.saved.len(),
                es == self.monitors@.map_values(|e: EditableMonitor| e@),
                out@.map_values(|o: MonitorOverride| o@) == edited + preserved_overrides(
                    self.saved@.subrange(0, k as int),
                    es,
                ),
            decreases self.saved.len() - k,
        {
            let o = &self.saved[k];
            let ghost before = out@;
            proof {
                let t = self.saved@.subrange(0, k as int + 1);
                assert(t.drop_last() =~= self.saved@.subrange(0, k as int));
                assert(t.last() == *o);
            }
            let mut connected = false;
            let mut j: usize = 0;
            while j < self.monitors.len()
                invariant
                    j <= self.monitors.len(),
                    es == self.monitors@.map_values(|e: EditableMonitor| e@),
                    connected ==> matches_connected(*o, es),
                    !connected ==> forall|q: int|
                        0 <= q < j ==> !override_matches(*o, es[q].edid_id, #[trigger] es[q].connector_hint),
                decreases self.monitors.len() - j,
            {
                let e = &self.monitors[j];
                let edid: Option<&str> = match &e.edid_id {
                    Some(s) => Some(s.as_str()),
                    None => None,
                };
                let hit = match (edid, &o.edid_id) {
                    (Some(a), Some(b)) => str_eq(a, b.as_str()),
                    _ => str_eq(o.connector_hint.as_str(), e.connector_hint.as_str()),
                };
                proof {
                    assert(es[j as int] == e@);
                    assert(hit == override_matches(*o, es[j as int].edid_id, es[j as int].connector_hint));
                }
                if hit {
                    connected = true;
                }
                j = j + 1;
            }
            if !connected {
                out.push(o.clone());
            }
            proof {
                let t = self.saved@.subrange(0, k as int + 1);
                let prev = preserved_overrides(self.saved@.subrange(0, k as int), es);
                if !connected {
                    assert(!matches_connected(*o, es));
                    assert(preserved_overrides(t, es) == prev + seq![o@]);
                    assert(out@.map_values(|o: MonitorOverride| o@) =~= before.map_values(
                        |o: MonitorOverride| o@,
                    ).push(o@));
                } else {
                    assert(preserved_overrides(t, es) == prev + Seq::<OverrideView>::empty());
                    assert(out@ == before);
                }
            }
            assert(out@.map_values(|o: MonitorOverride| o@) =~= edited + preserved_overrides(
                self.saved@.subrange(0, k as int + 1),
                es,
            ));
            k = k + 1;
        }
        proof {
            assert(self.saved@.subrange(0, self.saved.len() as int) =~= self.saved@);
        }
        Config { version: CURRENT_VERSION, monitors: out }
    }

    /// Move the selected monitor by `(dx, dy)` (arrow-key nudging) and mark
    /// the layout changed; nothing happens without a valid selection or
    /// with a zero move.
    pub fn nudge_selected(&mut self, dx: i32, dy: i32)
        requires
            (match old(self).selected {
                Some(i) => i < old(self).monitors@.len() ==> {
                    &&& i32::MIN <= old(self).monitors@[i as int].position.0 + dx <= i32::MAX
                    &&& i32::MIN <= old(self).monitors@[i as int].position.1 + dy <= i32::MAX
                },
                None => true,
            }),
        ensures
            (match old(self).selected {
                Some(i) => if i < old(self).monitors@.len() && (dx != 0 || dy != 0) {
                    &&& final(self).monitors@.len() == old(self).monitors@.len()
                    &&& forall|k: int|
                        0 <= k < old(self).monitors@.len() && k != i
                            ==> #[trigger] final(self).monitors@[k]@ == old(self).monitors@[k]@
                    &&& final(self).monitors@[i as int]@ == (EditableView {
                        position: (
                            (old(self).monitors@[i as int].position.0 + dx) as i32,
                            (old(self).monitors@[i as int].position.1 + dy) as i32,
                        ),
                        ..old(self).monitors@[i as int]@
                    })
                    &&& final(self).dirty
                } else {
                    final(self).monitors@ == old(self).monitors@
                        && final(self).dirty == old(self).dirty
                },
                None => final(self).monitors@ == old(self).monitors@
                    && final(self).dirty == old(self).dirty,
            }),
            final(self).selected == old(self).selected,
            final(self).auto@ == old(self).auto@,
            final(self).saved@ == old(self).saved@,
    {
        if let Some(idx) = self.selected {
            if (dx != 0 || dy != 0) && idx < self.monitors.len() {
                let mut m = self.monitors[idx].clone();
                m.position = (m.position.0 + dx, m.position.1 + dy);
                self.monitors.set(idx, m);
                self.dirty = true;
            }
        }
    }
}

} // verus!
