//! What saving the editor and loading the result gives back.
use vstd::prelude::*;
use crate::config::{
    edid_of,
    first_monitor_named,
    first_override,
    lemma_first_override_props,
    lemma_merge_without_overrides,
    merged_entry,
    opt_text,
    override_matches,
    MonitorOverride,
};
use crate::gui::app::{
    editable_for,
    editables,
    edited_overrides,
    first_config_named,
    is_auto,
    lemma_first_config_props,
    matches_connected,
    merged_plan,
    override_for,
    preserved_overrides,
    EditableView,
    OverrideView,
};
use crate::algo::{is_plan, planned_config, row_offset};
use crate::algo::order::is_plan_order;
use crate::algo::properties::{has_planned_entry, lemma_plan_covers_every_monitor, lemma_plan_unique};
use crate::model::{Monitor, MonitorConfig};
use crate::parse::lemma_mode_text_round_trip;

verus! {

/// No two monitors share a connector name.
pub open spec fn names_distinct(ms: Seq<Monitor>) -> bool {
    forall|a: int, b: int|
        0 <= a < ms.len() && 0 <= b < ms.len() && a != b ==> #[trigger] ms[a].name@ != #[trigger] ms[b].name@
}

/// No two monitors that have an EDID id share it.
pub open spec fn edids_distinct(ms: Seq<Monitor>) -> bool {
    forall|a: int, b: int|
        0 <= a < ms.len() && 0 <= b < ms.len() && a != b && (#[trigger] ms[a]).edid_id is Some && (
        #[trigger] ms[b]).edid_id is Some ==> opt_text(ms[a].edid_id) != opt_text(ms[b].edid_id)
}

/// `es` holds one editor entry per monitor of `ms`, in order, with the
/// monitor's identity and offered modes.
pub open spec fn describes(es: Seq<EditableView>, ms: Seq<Monitor>) -> bool {
    &&& es.len() == ms.len()
    &&& forall|k: int|
        0 <= k < es.len() ==> {
            &&& (#[trigger] es[k]).edid_id == opt_text(ms[k].edid_id)
            &&& es[k].connector_hint == ms[k].name@
            &&& es[k].available_modes == ms[k].available_modes@
            &&& es[k].physical_mm == ms[k].physical_mm
        }
}

/// Every monitor has an entry in the automatic plan.
pub open spec fn plans_every(auto: Seq<MonitorConfig>, ms: Seq<Monitor>) -> bool {
    forall|k: int| 0 <= k < ms.len() ==> (#[trigger] first_config_named(auto, ms[k].name@)) is Some
}

/// `override_matches`, on an override's plain values.
pub open spec fn view_matches(o: OverrideView, edid: Option<Seq<char>>, name: Seq<char>) -> bool {
    match (edid, o.edid_id) {
        (Some(a), Some(b)) => a == b,
        _ => o.connector_hint == name,
    }
}

proof fn lemma_matches_by_view(o: MonitorOverride, edid: Option<Seq<char>>, name: Seq<char>)
    ensures
        override_matches(o, edid, name) == view_matches(o@, edid, name),
{
}

proof fn lemma_first_override_none(ov: Seq<MonitorOverride>, edid: Option<Seq<char>>, name: Seq<char>)
    requires
        forall|i: int| 0 <= i < ov.len() ==> !override_matches(#[trigger] ov[i], edid, name),
    ensures
        first_override(ov, edid, name) is None,
    decreases ov.len(),
{
    if ov.len() > 0 {
        assert forall|i: int| 0 <= i < ov.drop_last().len() implies !override_matches(
            #[trigger] ov.drop_last()[i],
            edid,
            name,
        ) by {
            assert(ov.drop_last()[i] == ov[i]);
        }
        lemma_first_override_none(ov.drop_last(), edid, name);
    }
}

proof fn lemma_first_override_some(ov: Seq<MonitorOverride>, edid: Option<Seq<char>>, name: Seq<char>, i: int)
    requires
        0 <= i < ov.len(),
        override_matches(ov[i], edid, name),
    ensures
        first_override(ov, edid, name) is Some,
    decreases ov.len(),
{
    if i < ov.len() - 1 {
        assert(ov.drop_last()[i] == ov[i]);
        lemma_first_override_some(ov.drop_last(), edid, name, i);
    }
}

/// What `edited_overrides` holds: exactly the overrides of the entries not
/// at their automatic settings.
proof fn lemma_edited_contents(es: Seq<EditableView>, auto: Seq<MonitorConfig>)
    ensures
        forall|p: int|
            #![trigger edited_overrides(es, auto)[p]]
            0 <= p < edited_overrides(es, auto).len() ==> exists|q: int|
                0 <= q < es.len() && !is_auto(#[trigger] es[q], auto) && edited_overrides(es, auto)[p]
                    == override_for(es[q]),
        forall|q: int|
            0 <= q < es.len() && !is_auto(#[trigger] es[q], auto) ==> edited_overrides(es, auto).contains(
                override_for(es[q]),
            ),
    decreases es.len(),
{
    if es.len() > 0 {
        let init = es.drop_last();
        lemma_edited_contents(init, auto);
        let prev = edited_overrides(init, auto);
        let cur = edited_overrides(es, auto);
        assert forall|p: int| #![trigger cur[p]] 0 <= p < cur.len() implies exists|q: int|
            0 <= q < es.len() && !is_auto(#[trigger] es[q], auto) && cur[p] == override_for(es[q]) by {
            if p < prev.len() {
                assert(cur[p] == prev[p]);
                let q = choose|q: int| 0 <= q < init.len() && !is_auto(#[trigger] init[q], auto) && prev[p] == override_for(init[q]);
                assert(init[q] == es[q]);
            } else {
                assert(cur[p] == override_for(es.last()));
                assert(es[es.len() - 1] == es.last());
            }
        }
        assert forall|q: int| 0 <= q < es.len() && !is_auto(#[trigger] es[q], auto) implies cur.contains(
            override_for(es[q]),
        ) by {
            if q < init.len() {
                assert(init[q] == es[q]);
                assert(prev.contains(override_for(init[q])));
                let p = choose|p: int| 0 <= p < prev.len() && prev[p] == override_for(init[q]);
                assert(cur[p] == prev[p]);
            } else {
                assert(cur[prev.len() as int] == override_for(es.last()));
            }
        }
    }
}

/// Every override of `preserved_overrides` is a saved one that matches no
/// connected monitor.
proof fn lemma_preserved_from_disconnected(saved: Seq<MonitorOverride>, es: Seq<EditableView>)
    ensures
        forall|p: int|
            #![trigger preserved_overrides(saved, es)[p]]
            0 <= p < preserved_overrides(saved, es).len() ==> exists|i: int|
                0 <= i < saved.len() && !matches_connected(#[trigger] saved[i], es)
                    && preserved_overrides(saved, es)[p] == saved[i]@,
    decreases saved.len(),
{
    if saved.len() > 0 {
        let init = saved.drop_last();
        lemma_preserved_from_disconnected(init, es);
        let prev = preserved_overrides(init, es);
        let cur = preserved_overrides(saved, es);
        assert forall|p: int| #![trigger cur[p]] 0 <= p < cur.len() implies exists|i: int|
            0 <= i < saved.len() && !matches_connected(#[trigger] saved[i], es) && cur[p] == saved[i]@ by {
            if p < prev.len() {
                assert(cur[p] == prev[p]);
                let i = choose|i: int| 0 <= i < init.len() && !matches_connected(#[trigger] init[i], es) && prev[p] == init[i]@;
                assert(init[i] == saved[i]);
            } else {
                assert(saved[saved.len() - 1] == saved.last());
            }
        }
    }
}

/// Saving keeps, unchanged, every loaded override that belongs to no
/// monitor connected now.
pub proof fn lemma_disconnected_overrides_survive(saved: Seq<MonitorOverride>, es: Seq<EditableView>)
    ensures
        forall|i: int|
            0 <= i < saved.len() && !matches_connected(#[trigger] saved[i], es) ==> preserved_overrides(
                saved,
                es,
            ).contains(saved[i]@),
    decreases saved.len(),
{
    if saved.len() > 0 {
        let init = saved.drop_last();
        lemma_disconnected_overrides_survive(init, es);
        let prev = preserved_overrides(init, es);
        let cur = preserved_overrides(saved, es);
        assert forall|i: int| 0 <= i < saved.len() && !matches_connected(#[trigger] saved[i], es) implies cur.contains(
            saved[i]@,
        ) by {
            if i < init.len() {
                assert(init[i] == saved[i]);
                let p = choose|p: int| 0 <= p < prev.len() && prev[p] == init[i]@;
                assert(cur[p] == prev[p]);
            } else {
                assert(saved[i] == saved.last());
                assert(cur[prev.len() as int] == saved.last()@);
            }
        }
    }
}

proof fn lemma_same_names_same_first(a: Seq<MonitorConfig>, b: Seq<MonitorConfig>, n: Seq<char>)
    requires
        a.len() == b.len(),
        forall|k: int| 0 <= k < a.len() ==> (#[trigger] a[k]).name == b[k].name,
    ensures
        first_config_named(a, n) == first_config_named(b, n),
    decreases a.len(),
{
    if a.len() > 0 {
        assert forall|k: int| 0 <= k < a.drop_last().len() implies (#[trigger] a.drop_last()[k]).name
            == b.drop_last()[k].name by {
            assert(a.drop_last()[k] == a[k]);
            assert(b.drop_last()[k] == b[k]);
        }
        lemma_same_names_same_first(a.drop_last(), b.drop_last(), n);
        assert(a.last().name == b.last().name);
    }
}

proof fn lemma_editables_each(ms: Seq<Monitor>, merged: Seq<MonitorConfig>)
    requires
        plans_every(merged, ms),
    ensures
        editables(ms, merged).len() == ms.len(),
        forall|k: int|
            0 <= k < ms.len() ==> #[trigger] editables(ms, merged)[k] == editable_for(
                ms[k],
                merged[first_config_named(merged, ms[k].name@)->0],
            ),
    decreases ms.len(),
{
    if ms.len() > 0 {
        let init = ms.drop_last();
        assert forall|k: int| 0 <= k < init.len() implies (#[trigger] first_config_named(
            merged,
            init[k].name@,
        )) is Some by {
            assert(init[k] == ms[k]);
        }
        lemma_editables_each(init, merged);
        assert(first_config_named(merged, ms[ms.len() - 1].name@) is Some);
        assert forall|k: int| 0 <= k < ms.len() implies #[trigger] editables(ms, merged)[k] == editable_for(
            ms[k],
            merged[first_config_named(merged, ms[k].name@)->0],
        ) by {
            if k < init.len() {
                assert(init[k] == ms[k]);
                assert(editables(ms, merged)[k] == editables(init, merged)[k]);
            }
        }
    }
}

proof fn lemma_first_monitor_named_props(ms: Seq<Monitor>, n: Seq<char>)
    ensures
        first_monitor_named(ms, n) matches Some(i) ==> 0 <= i < ms.len() && ms[i].name@ == n,
        (exists|i: int| 0 <= i < ms.len() && #[trigger] ms[i].name@ == n) ==> first_monitor_named(ms, n) is Some,
    decreases ms.len(),
{
    if ms.len() > 0 {
        lemma_first_monitor_named_props(ms.drop_last(), n);
        if exists|i: int| 0 <= i < ms.len() && #[trigger] ms[i].name@ == n {
            let i = choose|i: int| 0 <= i < ms.len() && #[trigger] ms[i].name@ == n;
            if i < ms.len() - 1 {
                assert(ms.drop_last()[i] == ms[i]);
            }
        }
    }
}

proof fn lemma_restore_over_plan(
    ms: Seq<Monitor>,
    auto: Seq<MonitorConfig>,
    es: Seq<EditableView>,
    saved: Seq<MonitorOverride>,
    written: Seq<MonitorOverride>,
)
    requires
        names_distinct(ms),
        edids_distinct(ms),
        describes(es, ms),
        plans_every(auto, ms),
        written.map_values(|o: MonitorOverride| o@) == edited_overrides(es, auto) + preserved_overrides(saved, es),
    ensures
        editables(ms, merged_plan(auto, ms, written)) == es,
{
    let merged = merged_plan(auto, ms, written);
    let views = written.map_values(|o: MonitorOverride| o@);
    let eo = edited_overrides(es, auto);
    let po = preserved_overrides(saved, es);
    lemma_edited_contents(es, auto);
    lemma_preserved_from_disconnected(saved, es);
    assert(views.len() == written.len());
    assert(views.len() == eo.len() + po.len());
    assert forall|k: int| 0 <= k < merged.len() implies (#[trigger] merged[k]).name == auto[k].name by {
        let e = auto[k];
        match first_override(written, edid_of(ms, e.name@), e.name@) {
            Some(i) => {},
            None => {},
        }
    }
    assert forall|k: int| 0 <= k < ms.len() implies (#[trigger] first_config_named(merged, ms[k].name@))
        is Some by {
        lemma_same_names_same_first(merged, auto, ms[k].name@);
    }
    lemma_editables_each(ms, merged);
    let got = editables(ms, merged);
    assert forall|k: int| 0 <= k < ms.len() implies #[trigger] got[k] == es[k] by {
        let name = ms[k].name@;
        lemma_same_names_same_first(merged, auto, name);
        lemma_first_config_props(auto, name);
        let j = first_config_named(auto, name)->0;
        assert(auto[j].name@ == name);
        lemma_first_monitor_named_props(ms, name);
        assert(first_monitor_named(ms, name) == Some(k));
        let edid = opt_text(ms[k].edid_id);
        assert(edid_of(ms, name) == edid);
        assert(es[k].edid_id == edid && es[k].connector_hint == name);
        // Which written overrides match monitor `k`.
        assert forall|i: int| 0 <= i < written.len() && #[trigger] override_matches(written[i], edid, name)
            implies written[i]@ == override_for(es[k]) by {
            lemma_matches_by_view(written[i], edid, name);
            assert(views[i] == written[i]@);
            if i < eo.len() {
                assert(views[i] == eo[i]);
                let q = choose|q: int| 0 <= q < es.len() && !is_auto(#[trigger] es[q], auto) && eo[i] == override_for(es[q]);
                if q != k {
                    assert(ms[q].name@ != ms[k].name@);
                    if ms[q].edid_id is Some && ms[k].edid_id is Some {
                        assert(opt_text(ms[q].edid_id) != opt_text(ms[k].edid_id));
                    }
                    assert(false);
                }
            } else {
                assert(views[i] == po[i - eo.len()]);
                let s = choose|s: int| 0 <= s < saved.len() && !matches_connected(#[trigger] saved[s], es) && po[i - eo.len()] == saved[s]@;
                lemma_matches_by_view(saved[s], es[k].edid_id, es[k].connector_hint);
                assert(!matches_connected(saved[s], es));
                assert(!(0 <= k < es.len() && override_matches(saved[s], es[k].edid_id, es[k].connector_hint)));
                assert(false);
            }
        }
        lemma_first_override_props(written, edid, name);
        if is_auto(es[k], auto) {
            assert forall|i: int| 0 <= i < written.len() implies !override_matches(#[trigger] written[i], edid, name) by {
                if override_matches(written[i], edid, name) {
                    assert(written[i]@ == override_for(es[k]));
                    let i2 = i;
                    assert(views[i2] == written[i2]@);
                    if i2 < eo.len() {
                        let q = choose|q: int| 0 <= q < es.len() && !is_auto(#[trigger] es[q], auto) && eo[i2] == override_for(es[q]);
                        assert(override_for(es[q]).connector_hint == override_for(es[k]).connector_hint);
                        assert(es[q].connector_hint == es[k].connector_hint);
                        if q != k {
                            assert(ms[q].name@ != ms[k].name@);
                        }
                    } else {
                        let s = choose|s: int| 0 <= s < saved.len() && !matches_connected(#[trigger] saved[s], es) && po[i2 - eo.len()] == saved[s]@;
                        lemma_matches_by_view(saved[s], es[k].edid_id, es[k].connector_hint);
                        lemma_matches_by_view(written[i2], edid, name);
                        assert(!matches_connected(saved[s], es));
                        assert(!override_matches(saved[s], es[k].edid_id, es[k].connector_hint));
                    }
                }
            }
            lemma_first_override_none(written, edid, name);
            assert(merged[j] == auto[j]);
        } else {
            assert(eo.contains(override_for(es[k])));
            let p = choose|p: int| 0 <= p < eo.len() && eo[p] == override_for(es[k]);
            assert(views[p] == eo[p]);
            assert(written[p]@ == override_for(es[k]));
            lemma_matches_by_view(written[p], edid, name);
            lemma_first_override_some(written, edid, name, p);
            let i = first_override(written, edid, name)->0;
            assert(written[i]@ == override_for(es[k]));
            lemma_mode_text_round_trip(es[k].chosen_mode);
            assert(written[i].mode@ == written[i]@.mode);
            assert(merged[j] == merged_entry(auto[j], ms, written));
        }
    }
    assert(got =~= es);
}

/// Loading monitors with no saved overrides and saving without editing
/// saves no override, so later automatic changes still apply.
pub proof fn lemma_unedited_auto_saves_nothing(ms: Seq<Monitor>, auto: Seq<MonitorConfig>)
    ensures
        edited_overrides(editables(ms, merged_plan(auto, ms, Seq::empty())), auto).len() == 0,
{
    let merged = merged_plan(auto, ms, Seq::empty());
    assert forall|k: int| 0 <= k < merged.len() implies #[trigger] merged[k] == auto[k] by {
        lemma_merge_without_overrides(auto[k], ms);
    }
    assert(merged =~= auto);
    lemma_editables_auto(ms, auto);
    lemma_all_auto_edits_nothing(editables(ms, auto), auto);
}

proof fn lemma_editables_auto(ms: Seq<Monitor>, auto: Seq<MonitorConfig>)
    ensures
        forall|q: int| 0 <= q < editables(ms, auto).len() ==> is_auto(#[trigger] editables(ms, auto)[q], auto),
    decreases ms.len(),
{
    if ms.len() > 0 {
        lemma_editables_auto(ms.drop_last(), auto);
        let prev = editables(ms.drop_last(), auto);
        let cur = editables(ms, auto);
        assert forall|q: int| 0 <= q < cur.len() implies is_auto(#[trigger] cur[q], auto) by {
            if q < prev.len() {
                assert(cur[q] == prev[q]);
            } else {
                let m = ms.last();
                lemma_first_config_props(auto, m.name@);
                let j = first_config_named(auto, m.name@)->0;
                assert(cur[q] == editable_for(m, auto[j]));
            }
        }
    }
}

proof fn lemma_all_auto_edits_nothing(es: Seq<EditableView>, auto: Seq<MonitorConfig>)
    requires
        forall|q: int| 0 <= q < es.len() ==> is_auto(#[trigger] es[q], auto),
    ensures
        edited_overrides(es, auto).len() == 0,
    decreases es.len(),
{
    if es.len() > 0 {
        assert forall|q: int| 0 <= q < es.drop_last().len() implies is_auto(#[trigger] es.drop_last()[q], auto) by {
            assert(es.drop_last()[q] == es[q]);
        }
        lemma_all_auto_edits_nothing(es.drop_last(), auto);
        assert(is_auto(es[es.len() - 1], auto));
    }
}


proof fn lemma_first_config_found(cfgs: Seq<MonitorConfig>, name: Seq<char>, i: int)
    requires
        0 <= i < cfgs.len(),
        cfgs[i].name@ == name,
    ensures
        first_config_named(cfgs, name) is Some,
    decreases cfgs.len(),
{
    if i < cfgs.len() - 1 {
        assert(cfgs.drop_last()[i] == cfgs[i]);
        lemma_first_config_found(cfgs.drop_last(), name, i);
    }
}

/// Saving the editor and loading the same monitors again (planning them
/// afresh and laying the saved overrides over the plan) gives back every
/// monitor's mode, scale, position, rotation and enabled state as edited,
/// when connector names are unique and no two monitors share an EDID id.
pub proof fn lemma_save_then_load_restores_editor(
    ms: Seq<Monitor>,
    auto: Seq<MonitorConfig>,
    replanned: Seq<MonitorConfig>,
    es: Seq<EditableView>,
    saved: Seq<MonitorOverride>,
    written: Seq<MonitorOverride>,
)
    requires
        is_plan(ms, auto),
        is_plan(ms, replanned),
        names_distinct(ms),
        edids_distinct(ms),
        describes(es, ms),
        written.map_values(|o: MonitorOverride| o@) == edited_overrides(es, auto) + preserved_overrides(saved, es),
    ensures
        editables(ms, merged_plan(replanned, ms, written)) == es,
{
    lemma_plan_unique(ms, auto, replanned);
    lemma_plan_covers_every_monitor(ms, auto);
    assert forall|k: int| 0 <= k < ms.len() implies (#[trigger] first_config_named(auto, ms[k].name@)) is Some by {
        assert(has_planned_entry(auto, ms[k]));
        let j = choose|j: int| 0 <= j < auto.len() && auto[j] == planned_config(ms[k], row_offset(auto, j));
        lemma_first_config_found(auto, ms[k].name@, j);
    }
    lemma_restore_over_plan(ms, auto, es, saved, written);
}

/// Loading with no saved overrides (as "Reset to auto" does) gives one
/// editor entry per monitor, in query order: its identity and offered
/// modes, and the settings of its entry in the automatic plan (planned
/// mode and scale, its place in the row, rotation 0, enabled), when
/// connector names are unique.
pub proof fn lemma_load_with_default_config(ms: Seq<Monitor>, auto: Seq<MonitorConfig>)
    requires
        is_plan(ms, auto),
        names_distinct(ms),
    ensures
        editables(ms, merged_plan(auto, ms, Seq::empty())).len() == ms.len(),
        forall|k: int|
            0 <= k < ms.len() ==> exists|j: int|
                0 <= j < auto.len() && auto[j] == planned_config(ms[k], row_offset(auto, j))
                    && #[trigger] editables(ms, merged_plan(auto, ms, Seq::empty()))[k] == editable_for(
                    ms[k],
                    auto[j],
                ),
{
    let merged = merged_plan(auto, ms, Seq::empty());
    assert forall|k: int| 0 <= k < merged.len() implies #[trigger] merged[k] == auto[k] by {
        lemma_merge_without_overrides(auto[k], ms);
    }
    assert(merged =~= auto);
    let perm = choose|perm: Seq<int>|
        is_plan_order(ms, perm) && forall|k: int|
            0 <= k < auto.len() ==> #[trigger] auto[k] == planned_config(ms[perm[k]], row_offset(auto, k));
    lemma_plan_covers_every_monitor(ms, auto);
    assert forall|k: int| 0 <= k < ms.len() implies (#[trigger] first_config_named(auto, ms[k].name@)) is Some by {
        assert(has_planned_entry(auto, ms[k]));
        let j = choose|j: int| 0 <= j < auto.len() && auto[j] == planned_config(ms[k], row_offset(auto, j));
        lemma_first_config_found(auto, ms[k].name@, j);
    }
    lemma_editables_each(ms, auto);
    assert forall|k: int| 0 <= k < ms.len() implies exists|j: int|
        0 <= j < auto.len() && auto[j] == planned_config(ms[k], row_offset(auto, j))
            && #[trigger] editables(ms, merged)[k] == editable_for(ms[k], auto[j]) by {
        lemma_first_config_props(auto, ms[k].name@);
        let j = first_config_named(auto, ms[k].name@)->0;
        assert(auto[j] == planned_config(ms[perm[j]], row_offset(auto, j)));
        assert(ms[perm[j]].name@ == ms[k].name@);
        assert(perm[j] == k);
    }
}

} // verus!
