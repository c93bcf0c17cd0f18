//! Exclusive activation: reading bomber-plan templates for the linker.
//!
//! Trigger checkzones (`Zone IN`, `MISSION START`) close the other plans;
//! an end timer (`END`, `MISSION END`, or a timer that pulses `MCU_Delete` /
//! `MCU_Deactivate` on the template's units) reopens them. This module finds
//! those MCUs in a template and checks that they are wired to the units.

pub mod exclusive;
pub mod link;

use std::collections::HashMap;
use vstd::prelude::*;
use crate::ast::{EntityModel, Il2Entity, count_type, lemma_count_nonneg, name_of, nodes, prop_get};
use crate::parser::{int_array, parse_integer_array};
use crate::text::{
    dec_text, eq_ignore_case, eq_ignore_case_str, owned, parse_i32, parse_i32_spec, push_char, push_dec,
    push_str, starts_with_ignore_case, starts_with_ignore_case_str, str_eq, trim, trimmed,
};

pub use exclusive::{extract_exclusive_plans, looks_like_exclusive_pack};
pub use link::link_bomber_plans;

verus! {

broadcast use vstd::std_specs::hash::group_hash_axioms;

/// An MCU offered in the linker's pickers.
#[derive(Debug, Clone)]
pub struct McuChoice {
    pub index: i32,
    pub name: String,
}

/// What the linker shows for one plan template.
#[derive(Debug, Clone)]
pub struct BomberPlanInfo {
    pub name: String,
    pub plane_count: usize,
    pub unit_count: usize,
    pub checkzones: Vec<McuChoice>,
    pub timers: Vec<McuChoice>,
    pub suggested_triggers: Vec<i32>,
    pub suggested_completion: Option<i32>,
    /// End-timer Index → warning when a linked Deactivate/Delete misses units.
    pub cleanup_warnings: HashMap<i32, String>,
    /// Checkzone Index → warning when Closer, coalitions, or the unit-activate path is wrong.
    pub trigger_warnings: HashMap<i32, String>,
}

/// One plan handed to the linker.
#[derive(Debug, Clone)]
pub struct BomberInput {
    pub label: String,
    pub source_key: String,
    pub root: Il2Entity,
    /// Source-file Indexes of checkzones that open/close this plan.
    pub trigger_zone_ids: Vec<i32>,
    /// Source-file Index of the timer that fires when the bombers are gone.
    pub completion_timer_id: i32,
}

// ---------------------------------------------------------------------------
// Node lists
// ---------------------------------------------------------------------------

/// `Name` of a block, or `default`.
pub open spec fn name_or(e: EntityModel, default: Seq<char>) -> Seq<char> {
    match name_of(e) {
        Some(n) => n,
        None => default,
    }
}

/// Every node of `root`, pre-order.
pub(crate) fn all_nodes<'a>(root: &'a Il2Entity) -> (r: Vec<&'a Il2Entity>)
    ensures
        r@.len() == nodes(root@).len(),
        forall|j: int| 0 <= j < r@.len() ==> #[trigger] r@[j]@ == nodes(root@)[j],
{
    let mut out: Vec<&'a Il2Entity> = Vec::new();
    root.collect_nodes(&mut out);
    assert forall|j: int| 0 <= j < out@.len() implies #[trigger] out@[j]@ == nodes(root@)[j] by {
        assert(out@[0 + j] == out@[j]);
    }
    out
}

fn name_or_str<'a>(e: &'a Il2Entity, default: &'a str) -> (r: &'a str)
    ensures
        r@ == name_or(e@, default@),
{
    match e.name() {
        Some(n) => n,
        None => default,
    }
}

/// First node with `Index` `id`, position in the list.
pub open spec fn index_pos(ns: Seq<EntityModel>, id: i32) -> int
    decreases ns.len(),
{
    if ns.len() == 0 {
        0
    } else if ns[0].index == Some(id) {
        0
    } else {
        1 + index_pos(ns.drop_first(), id)
    }
}

/// First node of `root` (pre-order) whose `Index` is `id`.
pub open spec fn find_idx(root: EntityModel, id: i32) -> Option<EntityModel> {
    let ns = nodes(root);
    let p = index_pos(ns, id);
    if p < ns.len() {
        Some(ns[p])
    } else {
        None
    }
}

proof fn lemma_index_pos(ns: Seq<EntityModel>, id: i32, p: int)
    requires
        0 <= p <= ns.len(),
        p < ns.len() ==> ns[p].index == Some(id),
        forall|j: int| 0 <= j < p ==> (#[trigger] ns[j]).index != Some(id),
    ensures
        index_pos(ns, id) == p,
    decreases ns.len(),
{
    if ns.len() > 0 && ns[0].index != Some(id) {
        let t = ns.drop_first();
        assert forall|j: int| 0 <= j < p - 1 implies (#[trigger] t[j]).index != Some(id) by {
            assert(t[j] == ns[j + 1]);
        }
        if p - 1 < t.len() {
            assert(t[p - 1] == ns[p]);
        }
        lemma_index_pos(t, id, p - 1);
    }
}

/// Node of the list with `Index` `id` (the first one).
pub(crate) fn find_in_nodes<'a>(ns: &Vec<&'a Il2Entity>, id: i32) -> (r: Option<&'a Il2Entity>)
    ensures
        ({
            let m = ns@.map_values(|e: &Il2Entity| e@);
            let p = index_pos(m, id);
            &&& r is Some <==> p < m.len()
            &&& r matches Some(x) ==> x@ == m[p]
        }),
{
    let ghost m = ns@.map_values(|e: &Il2Entity| e@);
    let mut i: usize = 0;
    while i < ns.len()
        invariant
            i <= ns@.len(),
            m == ns@.map_values(|e: &Il2Entity| e@),
            forall|j: int| 0 <= j < i ==> (#[trigger] m[j]).index != Some(id),
        decreases ns@.len() - i,
    {
        assert(m[i as int] == ns@[i as int]@);
        if ns[i].index == Some(id) {
            proof {
                lemma_index_pos(m, id, i as int);
            }
            return Some(ns[i]);
        }
        i = i + 1;
    }
    proof {
        lemma_index_pos(m, id, i as int);
    }
    None
}

// ---------------------------------------------------------------------------
// Choices and suggestions
// ---------------------------------------------------------------------------

/// `(Index, name)` of every block of type `t` that has an `Index`.
pub open spec fn choices_in(ns: Seq<EntityModel>, t: Seq<char>) -> Seq<(i32, Seq<char>)>
    decreases ns.len(),
{
    if ns.len() == 0 {
        seq![]
    } else {
        let e = ns.last();
        let rest = choices_in(ns.drop_last(), t);
        if e.block_type == t && e.index is Some {
            rest.push((e.index->0, name_or(e, "(unnamed)"@)))
        } else {
            rest
        }
    }
}

pub open spec fn choice_view(c: McuChoice) -> (i32, Seq<char>) {
    (c.index, c.name@)
}

fn collect_choices(ns: &Vec<&Il2Entity>, block_type: &str) -> (r: Vec<McuChoice>)
    ensures
        r@.map_values(|c: McuChoice| choice_view(c)) == choices_in(ns@.map_values(|e: &Il2Entity| e@), block_type@),
{
    let ghost m = ns@.map_values(|e: &Il2Entity| e@);
    let mut out: Vec<McuChoice> = Vec::new();
    let mut i: usize = 0;
    while i < ns.len()
        invariant
            i <= ns@.len(),
            m == ns@.map_values(|e: &Il2Entity| e@),
            out@.map_values(|c: McuChoice| choice_view(c)) == choices_in(m.take(i as int), block_type@),
        decreases ns@.len() - i,
    {
        let e = ns[i];
        proof {
            assert(m.take(i + 1).drop_last() =~= m.take(i as int));
            assert(m.take(i + 1).last() == e@);
        }
        let ghost before = out@;
        if str_eq(e.block_type.as_str(), block_type) {
            match e.index {
                Some(index) => {
                    let name = owned(name_or_str(e, "(unnamed)"));
                    out.push(McuChoice { index, name });
                    proof {
                        assert(out@.map_values(|c: McuChoice| choice_view(c)) =~= before.map_values(|c: McuChoice| choice_view(c)).push(choice_view(out@.last())));
                    }
                },
                None => {},
            }
        }
        i = i + 1;
    }
    proof {
        assert(m.take(i as int) =~= m);
    }
    out
}

/// Names the linker picks as plan triggers.
pub open spec fn is_start_zone_name(name: Seq<char>) -> bool {
    eq_ignore_case(name, "zone in"@) || eq_ignore_case(name, "mission start"@)
}

/// Checkzones named `Zone IN` or `MISSION START` (any case).
pub open spec fn start_zone_ids(ns: Seq<EntityModel>) -> Seq<i32>
    decreases ns.len(),
{
    if ns.len() == 0 {
        seq![]
    } else {
        let e = ns.last();
        let rest = start_zone_ids(ns.drop_last());
        if e.block_type == "MCU_CheckZone"@ && is_start_zone_name(name_or(e, ""@)) && e.index is Some {
            rest.push(e.index->0)
        } else {
            rest
        }
    }
}

fn suggested_trigger_ids(ns: &Vec<&Il2Entity>) -> (r: Vec<i32>)
    ensures
        r@ == start_zone_ids(ns@.map_values(|e: &Il2Entity| e@)),
{
    let ghost m = ns@.map_values(|e: &Il2Entity| e@);
    let mut out: Vec<i32> = Vec::new();
    let mut i: usize = 0;
    while i < ns.len()
        invariant
            i <= ns@.len(),
            m == ns@.map_values(|e: &Il2Entity| e@),
            out@ == start_zone_ids(m.take(i as int)),
        decreases ns@.len() - i,
    {
        let e = ns[i];
        proof {
            assert(m.take(i + 1).drop_last() =~= m.take(i as int));
            assert(m.take(i + 1).last() == e@);
        }
        if str_eq(e.block_type.as_str(), "MCU_CheckZone") {
            let name = name_or_str(e, "");
            if eq_ignore_case_str(name, "zone in") || eq_ignore_case_str(name, "mission start") {
                match e.index {
                    Some(id) => out.push(id),
                    None => {},
                }
            }
        }
        i = i + 1;
    }
    proof {
        assert(m.take(i as int) =~= m);
    }
    out
}

// ---------------------------------------------------------------------------
// World units
// ---------------------------------------------------------------------------

/// A unit of the template: its name, `Index` and linked entity id.
pub struct WorldUnit {
    pub name: String,
    pub index: i32,
    pub link_tr: Option<i32>,
}

pub open spec fn unit_view(u: WorldUnit) -> (Seq<char>, i32, Option<i32>) {
    (u.name@, u.index, u.link_tr)
}

pub open spec fn is_unit_type(t: Seq<char>) -> bool {
    t == "Vehicle"@ || t == "Ship"@ || t == "Plane"@ || t == "Train"@
}

/// `LinkTrId` of a block read as an integer, if it is one.
pub open spec fn link_tr_of(e: EntityModel) -> Option<i32> {
    match prop_get(e.properties, "LinkTrId"@) {
        Some(v) => parse_i32_spec(v),
        None => None,
    }
}

/// Vehicles, ships, planes and trains that have an `Index`.
pub open spec fn world_units(ns: Seq<EntityModel>) -> Seq<(Seq<char>, i32, Option<i32>)>
    decreases ns.len(),
{
    if ns.len() == 0 {
        seq![]
    } else {
        let e = ns.last();
        let rest = world_units(ns.drop_last());
        if is_unit_type(e.block_type) && e.index is Some {
            rest.push((name_or(e, "(unnamed)"@), e.index->0, link_tr_of(e)))
        } else {
            rest
        }
    }
}

fn collect_world_units(ns: &Vec<&Il2Entity>) -> (r: Vec<WorldUnit>)
    ensures
        r@.map_values(|u: WorldUnit| unit_view(u)) == world_units(ns@.map_values(|e: &Il2Entity| e@)),
{
    let ghost m = ns@.map_values(|e: &Il2Entity| e@);
    let mut out: Vec<WorldUnit> = Vec::new();
    let mut i: usize = 0;
    while i < ns.len()
        invariant
            i <= ns@.len(),
            m == ns@.map_values(|e: &Il2Entity| e@),
            out@.map_values(|u: WorldUnit| unit_view(u)) == world_units(m.take(i as int)),
        decreases ns@.len() - i,
    {
        let e = ns[i];
        proof {
            assert(m.take(i + 1).drop_last() =~= m.take(i as int));
            assert(m.take(i + 1).last() == e@);
        }
        let t = e.block_type.as_str();
        if str_eq(t, "Vehicle") || str_eq(t, "Ship") || str_eq(t, "Plane") || str_eq(t, "Train") {
            match e.index {
                Some(index) => {
                    let link_tr = match e.property("LinkTrId") {
                        Some(v) => parse_i32(v),
                        None => None,
                    };
                    let ghost before = out@;
                    let name = owned(name_or_str(e, "(unnamed)"));
                    out.push(WorldUnit { name, index, link_tr });
                    proof {
                        assert(out@.map_values(|u: WorldUnit| unit_view(u)) =~= before.map_values(|u: WorldUnit| unit_view(u)).push(unit_view(out@.last())));
                    }
                },
                None => {},
            }
        }
        i = i + 1;
    }
    proof {
        assert(m.take(i as int) =~= m);
    }
    out
}

/// Whether `objects` lists the unit, by `Index` or by its linked entity.
pub open spec fn covers(objects: Seq<i32>, u: (Seq<char>, i32, Option<i32>)) -> bool {
    objects.contains(u.1) || (u.2 matches Some(id) && objects.contains(id))
}

fn ids_contain(ids: &Vec<i32>, id: i32) -> (r: bool)
    ensures
        r == ids@.contains(id),
{
    let mut i: usize = 0;
    while i < ids.len()
        invariant
            i <= ids@.len(),
            forall|j: int| 0 <= j < i ==> #[trigger] ids@[j] != id,
        decreases ids@.len() - i,
    {
        if ids[i] == id {
            return true;
        }
        i = i + 1;
    }
    false
}

fn unit_is_covered(u: &WorldUnit, objects: &Vec<i32>) -> (r: bool)
    ensures
        r == covers(objects@, unit_view(*u)),
{
    if ids_contain(objects, u.index) {
        return true;
    }
    match u.link_tr {
        Some(id) => ids_contain(objects, id),
        None => false,
    }
}

/// Whether some unit is covered by `objects`.
pub open spec fn any_covered(units: Seq<(Seq<char>, i32, Option<i32>)>, objects: Seq<i32>) -> bool {
    exists|k: int| 0 <= k < units.len() && covers(objects, #[trigger] units[k])
}

fn any_unit_covered(units: &Vec<WorldUnit>, objects: &Vec<i32>) -> (r: bool)
    ensures
        r == any_covered(units@.map_values(|u: WorldUnit| unit_view(u)), objects@),
{
    let ghost uv = units@.map_values(|u: WorldUnit| unit_view(u));
    let mut i: usize = 0;
    while i < units.len()
        invariant
            i <= units@.len(),
            uv == units@.map_values(|u: WorldUnit| unit_view(u)),
            forall|k: int| 0 <= k < i ==> !covers(objects@, #[trigger] uv[k]),
        decreases units@.len() - i,
    {
        assert(uv[i as int] == unit_view(units@[i as int]));
        if unit_is_covered(&units[i], objects) {
            return true;
        }
        i = i + 1;
    }
    false
}

// ---------------------------------------------------------------------------
// End timer suggestion
// ---------------------------------------------------------------------------

/// Ids a cleanup MCU may list: every unit's `Index` and linked entity.
pub open spec fn unit_ids_contain(units: Seq<(Seq<char>, i32, Option<i32>)>, id: i32) -> bool {
    exists|k: int| 0 <= k < units.len() && #[trigger] unit_has_id(units[k], id)
}

/// Whether `id` is the unit's `Index` or its linked entity.
pub open spec fn unit_has_id(u: (Seq<char>, i32, Option<i32>), id: i32) -> bool {
    u.1 == id || u.2 == Some(id)
}

pub open spec fn is_cleanup_name(name: Seq<char>) -> bool {
    name == "Deactive ALL"@ || name == "Deactivate ALL"@ || name == "Trigger Delete"@
}

/// Whether a block is a cleanup MCU: a Delete, or a Deactivate that is
/// named as one or lists a unit.
pub open spec fn is_cleanup(e: EntityModel, units: Seq<(Seq<char>, i32, Option<i32>)>) -> bool {
    e.block_type == "MCU_Delete"@ || (e.block_type == "MCU_Deactivate"@ && (is_cleanup_name(name_or(e, ""@))
        || exists|k: int| 0 <= k < e.objects.len() && unit_ids_contain(units, #[trigger] e.objects[k])))
}

/// Indexes of the cleanup MCUs.
pub open spec fn cleanup_ids(ns: Seq<EntityModel>, units: Seq<(Seq<char>, i32, Option<i32>)>) -> Seq<i32>
    decreases ns.len(),
{
    if ns.len() == 0 {
        seq![]
    } else {
        let e = ns.last();
        let rest = cleanup_ids(ns.drop_last(), units);
        if is_cleanup(e, units) && e.index is Some {
            rest.push(e.index->0)
        } else {
            rest
        }
    }
}

fn unit_id_listed(units: &Vec<WorldUnit>, id: i32) -> (r: bool)
    ensures
        r == unit_ids_contain(units@.map_values(|u: WorldUnit| unit_view(u)), id),
{
    let ghost uv = units@.map_values(|u: WorldUnit| unit_view(u));
    let mut i: usize = 0;
    while i < units.len()
        invariant
            i <= units@.len(),
            uv == units@.map_values(|u: WorldUnit| unit_view(u)),
            forall|k: int| 0 <= k < i ==> !#[trigger] unit_has_id(uv[k], id),
        decreases units@.len() - i,
    {
        assert(uv[i as int] == unit_view(units@[i as int]));
        assert(uv[i as int].1 == units@[i as int].index && uv[i as int].2 == units@[i as int].link_tr);
        let linked = match units[i].link_tr {
            Some(l) => l == id,
            None => false,
        };
        if units[i].index == id || linked {
            assert(unit_has_id(uv[i as int], id));
            return true;
        }
        assert(!unit_has_id(uv[i as int], id));
        i = i + 1;
    }
    false
}

fn cleanup_mcu_indexes(ns: &Vec<&Il2Entity>, units: &Vec<WorldUnit>) -> (r: Vec<i32>)
    ensures
        r@ == cleanup_ids(ns@.map_values(|e: &Il2Entity| e@), units@.map_values(|u: WorldUnit| unit_view(u))),
{
    let ghost m = ns@.map_values(|e: &Il2Entity| e@);
    let ghost uv = units@.map_values(|u: WorldUnit| unit_view(u));
    let mut out: Vec<i32> = Vec::new();
    let mut i: usize = 0;
    while i < ns.len()
        invariant
            i <= ns@.len(),
            m == ns@.map_values(|e: &Il2Entity| e@),
            uv == units@.map_values(|u: WorldUnit| unit_view(u)),
            out@ == cleanup_ids(m.take(i as int), uv),
        decreases ns@.len() - i,
    {
        let e = ns[i];
        proof {
            assert(m.take(i + 1).drop_last() =~= m.take(i as int));
            assert(m.take(i + 1).last() == e@);
        }
        let name = name_or_str(e, "");
        let named = str_eq(name, "Deactive ALL") || str_eq(name, "Deactivate ALL") || str_eq(name, "Trigger Delete");
        let mut points = false;
        let mut k: usize = 0;
        while k < e.objects.len()
            invariant
                k <= e.objects@.len(),
                uv == units@.map_values(|u: WorldUnit| unit_view(u)),
                points == exists|q: int| 0 <= q < k && unit_ids_contain(uv, #[trigger] e.objects@[q]),
            decreases e.objects@.len() - k,
        {
            if unit_id_listed(units, e.objects[k]) {
                points = true;
            }
            k = k + 1;
        }
        proof {
            assert(e@.objects == e.objects@);
            assert(points == exists|q: int| 0 <= q < e@.objects.len() && unit_ids_contain(uv, #[trigger] e@.objects[q]));
            assert(named == is_cleanup_name(name_or(e@, ""@)));
        }
        let is_cleanup = str_eq(e.block_type.as_str(), "MCU_Delete")
            || (str_eq(e.block_type.as_str(), "MCU_Deactivate") && (named || points));
        assert(is_cleanup == crate::bombers::is_cleanup(e@, uv));
        if is_cleanup {
            match e.index {
                Some(id) => out.push(id),
                None => {},
            }
        }
        i = i + 1;
    }
    proof {
        assert(m.take(i as int) =~= m);
    }
    out
}

/// `END` or `MISSION END` (trimmed, any case).
pub open spec fn is_preferred_end_name(name: Seq<char>) -> bool {
    let n = trim(name);
    eq_ignore_case(n, "END"@) || eq_ignore_case(n, "MISSION END"@)
}

/// Older end-timer names: `Delay Delete`, `MISSION CLEAN UP…`.
pub open spec fn is_legacy_end_name(name: Seq<char>) -> bool {
    let n = trim(name);
    eq_ignore_case(n, "Delay Delete"@) || eq_ignore_case(n, "MISSION CLEAN UP"@) || starts_with_ignore_case(n, "MISSION CLEAN UP"@)
}

/// Which end-timer rule a block satisfies: 0 preferred name, 1 legacy name,
/// 2 targets a cleanup MCU, 3 none (or not an indexed timer).
pub open spec fn end_rank(e: EntityModel, cleanup: Seq<i32>) -> int {
    if e.block_type != "MCU_Timer"@ || e.index is None {
        3
    } else if is_preferred_end_name(name_or(e, ""@)) {
        0
    } else if is_legacy_end_name(name_or(e, ""@)) {
        1
    } else if exists|k: int| 0 <= k < e.targets.len() && cleanup.contains(#[trigger] e.targets[k]) {
        2
    } else {
        3
    }
}

/// `Index` of the first node whose rank is `r`.
pub open spec fn first_with_rank(ns: Seq<EntityModel>, cleanup: Seq<i32>, r: int) -> Option<i32>
    decreases ns.len(),
{
    if ns.len() == 0 {
        None
    } else if end_rank(ns[0], cleanup) == r {
        ns[0].index
    } else {
        first_with_rank(ns.drop_first(), cleanup, r)
    }
}

/// Suggested end timer: the first with a preferred name, else the first
/// with a legacy name, else the first that targets a cleanup MCU.
pub open spec fn end_suggestion(ns: Seq<EntityModel>, cleanup: Seq<i32>) -> Option<i32> {
    match first_with_rank(ns, cleanup, 0) {
        Some(id) => Some(id),
        None => match first_with_rank(ns, cleanup, 1) {
            Some(id) => Some(id),
            None => first_with_rank(ns, cleanup, 2),
        },
    }
}

fn end_rank_of(e: &Il2Entity, cleanup: &Vec<i32>) -> (r: u8)
    ensures
        r as int == end_rank(e@, cleanup@),
{
    if !str_eq(e.block_type.as_str(), "MCU_Timer") || e.index.is_none() {
        return 3;
    }
    let name = name_or_str(e, "");
    let n = trimmed(name);
    if eq_ignore_case_str(n.as_str(), "END") || eq_ignore_case_str(n.as_str(), "MISSION END") {
        return 0;
    }
    if eq_ignore_case_str(n.as_str(), "Delay Delete") || eq_ignore_case_str(n.as_str(), "MISSION CLEAN UP")
        || starts_with_ignore_case_str(n.as_str(), "MISSION CLEAN UP") {
        return 1;
    }
    assert(!is_preferred_end_name(name_or(e@, ""@)));
    assert(!is_legacy_end_name(name_or(e@, ""@)));
    assert(e@.block_type == "MCU_Timer"@ && e@.index is Some);
    let mut k: usize = 0;
    while k < e.targets.len()
        invariant
            k <= e.targets@.len(),
            !is_preferred_end_name(name_or(e@, ""@)),
            !is_legacy_end_name(name_or(e@, ""@)),
            e@.block_type == "MCU_Timer"@ && e@.index is Some,
            forall|q: int| 0 <= q < k ==> !cleanup@.contains(#[trigger] e.targets@[q]),
        decreases e.targets@.len() - k,
    {
        if ids_contain(cleanup, e.targets[k]) {
            assert(cleanup@.contains(e@.targets[k as int]));
            return 2;
        }
        k = k + 1;
    }
    3
}

fn first_rank(ns: &Vec<&Il2Entity>, cleanup: &Vec<i32>, rank: u8) -> (r: Option<i32>)
    ensures
        r == first_with_rank(ns@.map_values(|e: &Il2Entity| e@), cleanup@, rank as int),
{
    let ghost m = ns@.map_values(|e: &Il2Entity| e@);
    let mut i: usize = 0;
    proof {
        assert(m.skip(0) =~= m);
    }
    while i < ns.len()
        invariant
            i <= ns@.len(),
            m == ns@.map_values(|e: &Il2Entity| e@),
            first_with_rank(m, cleanup@, rank as int) == first_with_rank(m.skip(i as int), cleanup@, rank as int),
        decreases ns@.len() - i,
    {
        proof {
            assert(m.skip(i as int)[0] == ns@[i as int]@);
            assert(m.skip(i as int).drop_first() =~= m.skip(i + 1));
        }
        if end_rank_of(ns[i], cleanup) == rank {
            return ns[i].index;
        }
        i = i + 1;
    }
    None
}

fn suggested_completion_id(ns: &Vec<&Il2Entity>, cleanup: &Vec<i32>) -> (r: Option<i32>)
    ensures
        r == end_suggestion(ns@.map_values(|e: &Il2Entity| e@), cleanup@),
{
    match first_rank(ns, cleanup, 0) {
        Some(id) => Some(id),
        None => match first_rank(ns, cleanup, 1) {
            Some(id) => Some(id),
            None => first_rank(ns, cleanup, 2),
        },
    }
}

// ---------------------------------------------------------------------------
// Following MCU links
// ---------------------------------------------------------------------------

/// The node of the list with `Index` `id` (the first one).
pub open spec fn node_with(ns: Seq<EntityModel>, id: i32) -> Option<EntityModel> {
    let p = index_pos(ns, id);
    if p < ns.len() {
        Some(ns[p])
    } else {
        None
    }
}

/// Whether following `Targets` links from the ids on `stack` (last first,
/// each id once, at most 256 MCUs) reaches an Activate or Spawner that lists
/// one of `units`.
pub open spec fn activation_reached(
    ns: Seq<EntityModel>,
    stack: Seq<i32>,
    seen: Seq<i32>,
    steps: int,
    units: Seq<(Seq<char>, i32, Option<i32>)>,
) -> bool
    decreases 257 - steps, stack.len(),
{
    if stack.len() == 0 || steps > 256 || steps < 0 {
        false
    } else {
        let id = stack.last();
        let rest = stack.drop_last();
        if seen.contains(id) {
            activation_reached(ns, rest, seen, steps, units)
        } else if steps + 1 > 256 {
            false
        } else {
            match node_with(ns, id) {
                None => activation_reached(ns, rest, seen.push(id), steps + 1, units),
                Some(node) => if (node.block_type == "MCU_Activate"@ || node.block_type == "MCU_Spawner"@)
                    && any_covered(units, node.objects) {
                    true
                } else {
                    activation_reached(ns, rest + node.targets, seen.push(id), steps + 1, units)
                },
            }
        }
    }
}

fn reaches_unit_activation(ns: &Vec<&Il2Entity>, start: &Il2Entity, units: &Vec<WorldUnit>) -> (r: bool)
    ensures
        r == activation_reached(
            ns@.map_values(|e: &Il2Entity| e@),
            start@.targets,
            seq![],
            0,
            units@.map_values(|u: WorldUnit| unit_view(u)),
        ),
{
    let ghost m = ns@.map_values(|e: &Il2Entity| e@);
    let ghost uv = units@.map_values(|u: WorldUnit| unit_view(u));
    let mut stack: Vec<i32> = start.targets.clone();
    let mut seen: Vec<i32> = Vec::new();
    let mut steps: usize = 0;
    loop
        invariant
            m == ns@.map_values(|e: &Il2Entity| e@),
            uv == units@.map_values(|u: WorldUnit| unit_view(u)),
            steps <= 256,
            activation_reached(m, start@.targets, seq![], 0, uv) == activation_reached(m, stack@, seen@, steps as int, uv),
        decreases 257 - steps, stack@.len(),
    {
        if stack.len() == 0 {
            return false;
        }
        let id = stack[stack.len() - 1];
        let ghost before_stack = stack@;
        stack.pop();
        proof {
            assert(stack@ =~= before_stack.drop_last());
        }
        if ids_contain(&seen, id) {
            continue;
        }
        if steps + 1 > 256 {
            return false;
        }
        seen.push(id);
        steps = steps + 1;
        match find_in_nodes(ns, id) {
            None => {},
            Some(node) => {
                let t = node.block_type.as_str();
                if (str_eq(t, "MCU_Activate") || str_eq(t, "MCU_Spawner")) && any_unit_covered(units, &node.objects) {
                    return true;
                }
                let mut q: usize = 0;
                let ghost base = stack@;
                while q < node.targets.len()
                    invariant
                        q <= node.targets@.len(),
                        stack@ == base + node.targets@.take(q as int),
                    decreases node.targets@.len() - q,
                {
                    stack.push(node.targets[q]);
                    proof {
                        assert(node.targets@.take(q + 1) =~= node.targets@.take(q as int).push(node.targets@[q as int]));
                    }
                    q = q + 1;
                }
                proof {
                    assert(node.targets@.take(q as int) =~= node.targets@);
                }
            },
        }
    }
}

/// The Deactivate and Delete MCUs a timer reaches: `Targets` followed
/// through timers only (last first, each id once, at most 64 MCUs).
pub open spec fn cleanup_walk(ns: Seq<EntityModel>, stack: Seq<i32>, seen: Seq<i32>, steps: int) -> Seq<EntityModel>
    decreases 65 - steps, stack.len(),
{
    if stack.len() == 0 || steps > 64 || steps < 0 {
        seq![]
    } else {
        let id = stack.last();
        let rest = stack.drop_last();
        if seen.contains(id) {
            cleanup_walk(ns, rest, seen, steps)
        } else if steps + 1 > 64 {
            seq![]
        } else {
            match node_with(ns, id) {
                None => cleanup_walk(ns, rest, seen.push(id), steps + 1),
                Some(node) => if node.block_type == "MCU_Deactivate"@ || node.block_type == "MCU_Delete"@ {
                    seq![node] + cleanup_walk(ns, rest, seen.push(id), steps + 1)
                } else if node.block_type == "MCU_Timer"@ {
                    cleanup_walk(ns, rest + node.targets, seen.push(id), steps + 1)
                } else {
                    cleanup_walk(ns, rest, seen.push(id), steps + 1)
                },
            }
        }
    }
}

fn collect_cleanup_from_timer<'a>(ns: &Vec<&'a Il2Entity>, timer: &Il2Entity) -> (r: Vec<&'a Il2Entity>)
    ensures
        r@.map_values(|e: &Il2Entity| e@) == cleanup_walk(ns@.map_values(|e: &Il2Entity| e@), timer@.targets, seq![], 0),
{
    let ghost m = ns@.map_values(|e: &Il2Entity| e@);
    let mut out: Vec<&'a Il2Entity> = Vec::new();
    let mut stack: Vec<i32> = timer.targets.clone();
    let mut seen: Vec<i32> = Vec::new();
    let mut steps: usize = 0;
    loop
        invariant
            m == ns@.map_values(|e: &Il2Entity| e@),
            steps <= 64,
            cleanup_walk(m, timer@.targets, seq![], 0)
                == out@.map_values(|e: &Il2Entity| e@) + cleanup_walk(m, stack@, seen@, steps as int),
        decreases 65 - steps, stack@.len(),
    {
        if stack.len() == 0 {
            proof {
                assert(out@.map_values(|e: &Il2Entity| e@) + Seq::<EntityModel>::empty() =~= out@.map_values(|e: &Il2Entity| e@));
            }
            return out;
        }
        let id = stack[stack.len() - 1];
        let ghost before_stack = stack@;
        stack.pop();
        proof {
            assert(stack@ =~= before_stack.drop_last());
        }
        if ids_contain(&seen, id) {
            continue;
        }
        if steps + 1 > 64 {
            proof {
                assert(out@.map_values(|e: &Il2Entity| e@) + Seq::<EntityModel>::empty() =~= out@.map_values(|e: &Il2Entity| e@));
            }
            return out;
        }
        seen.push(id);
        steps = steps + 1;
        match find_in_nodes(ns, id) {
            None => {},
            Some(node) => {
                let t = node.block_type.as_str();
                if str_eq(t, "MCU_Deactivate") || str_eq(t, "MCU_Delete") {
                    let ghost before = out@.map_values(|e: &Il2Entity| e@);
                    out.push(node);
                    proof {
                        assert(out@.map_values(|e: &Il2Entity| e@) =~= before.push(node@));
                        assert(before + (seq![node@] + cleanup_walk(m, stack@, seen@, steps as int))
                            =~= out@.map_values(|e: &Il2Entity| e@) + cleanup_walk(m, stack@, seen@, steps as int));
                    }
                } else if str_eq(t, "MCU_Timer") {
                    let mut q: usize = 0;
                    let ghost base = stack@;
                    while q < node.targets.len()
                        invariant
                            q <= node.targets@.len(),
                            stack@ == base + node.targets@.take(q as int),
                        decreases node.targets@.len() - q,
                    {
                        stack.push(node.targets[q]);
                        proof {
                            assert(node.targets@.take(q + 1) =~= node.targets@.take(q as int).push(node.targets@[q as int]));
                        }
                        q = q + 1;
                    }
                    proof {
                        assert(node.targets@.take(q as int) =~= node.targets@);
                    }
                }
            },
        }
    }
}

// ---------------------------------------------------------------------------
// Warnings
// ---------------------------------------------------------------------------

/// `parts` joined with `sep`.
pub open spec fn joined(parts: Seq<Seq<char>>, sep: Seq<char>) -> Seq<char>
    decreases parts.len(),
{
    if parts.len() == 0 {
        seq![]
    } else if parts.len() == 1 {
        parts[0]
    } else {
        joined(parts.drop_last(), sep) + sep + parts.last()
    }
}

pub(crate) fn join_strings(parts: &Vec<String>, sep: &str, n: usize) -> (r: String)
    requires
        n <= parts@.len(),
    ensures
        r@ == joined(parts@.take(n as int).map_values(|p: String| p@), sep@),
{
    let ghost pv = parts@.map_values(|p: String| p@);
    let mut out = String::new();
    let mut i: usize = 0;
    proof {
        assert(parts@.take(0).map_values(|p: String| p@) =~= Seq::<Seq<char>>::empty());
    }
    while i < n
        invariant
            i <= n <= parts@.len(),
            pv == parts@.map_values(|p: String| p@),
            out@ == joined(parts@.take(i as int).map_values(|p: String| p@), sep@),
        decreases n - i,
    {
        let ghost prev = parts@.take(i as int).map_values(|p: String| p@);
        let ghost next = parts@.take(i + 1).map_values(|p: String| p@);
        proof {
            assert(next.drop_last() =~= prev);
            assert(next.last() == parts@[i as int]@);
        }
        if i > 0 {
            push_str(&mut out, sep);
        }
        push_str(&mut out, parts[i].as_str());
        proof {
            if i == 0 {
                assert(prev.len() == 0);
                assert(out@ =~= next[0]);
            } else {
                assert(out@ =~= joined(prev, sep@) + sep@ + next.last());
            }
        }
        i = i + 1;
    }
    out
}

/// `1 unit`, `3 units`.
pub open spec fn count_label(n: nat, noun: Seq<char>) -> Seq<char> {
    if n == 1 {
        "1 "@ + noun
    } else {
        dec_text(n) + " "@ + noun + "s"@
    }
}

/// Names joined with `, `; past six, the rest summed up as `and N more`.
pub open spec fn name_list(names: Seq<Seq<char>>) -> Seq<char> {
    if names.len() <= 6 {
        joined(names, ", "@)
    } else {
        joined(names.take(6), ", "@) + ", and "@ + dec_text((names.len() - 6) as nat) + " more"@
    }
}

/// Names of the units `objects` does not cover.
pub open spec fn missing_units(units: Seq<(Seq<char>, i32, Option<i32>)>, objects: Seq<i32>) -> Seq<Seq<char>>
    decreases units.len(),
{
    if units.len() == 0 {
        seq![]
    } else {
        let rest = missing_units(units.drop_last(), objects);
        if covers(objects, units.last()) {
            rest
        } else {
            rest.push(units.last().0)
        }
    }
}

/// The warning line for one cleanup MCU, if it lists units but misses some.
pub open spec fn cleanup_line(mcu: EntityModel, units: Seq<(Seq<char>, i32, Option<i32>)>) -> Option<Seq<char>> {
    let missing = missing_units(units, mcu.objects);
    if mcu.objects.len() == 0 || missing.len() == 0 {
        None
    } else {
        let kind = if mcu.block_type == "MCU_Delete"@ { "Delete"@ } else { "Deactivate"@ };
        Some(kind + " \""@ + name_or(mcu, kind) + "\" does not cover "@ + count_label(missing.len(), "unit"@) + ": "@
            + name_list(missing) + "."@)
    }
}

/// Warning lines of the cleanup MCUs, in order.
pub open spec fn cleanup_lines(mcus: Seq<EntityModel>, units: Seq<(Seq<char>, i32, Option<i32>)>) -> Seq<Seq<char>>
    decreases mcus.len(),
{
    if mcus.len() == 0 {
        seq![]
    } else {
        let rest = cleanup_lines(mcus.drop_last(), units);
        match cleanup_line(mcus.last(), units) {
            Some(l) => rest.push(l),
            None => rest,
        }
    }
}

/// The warning for an end timer: `None` when it is not a timer, there are
/// no units, or every cleanup MCU it reaches that lists units lists all of
/// them.
pub open spec fn cleanup_warning(ns: Seq<EntityModel>, timer_id: i32) -> Option<Seq<char>> {
    match node_with(ns, timer_id) {
        None => None,
        Some(timer) => {
            let units = world_units(ns);
            if timer.block_type != "MCU_Timer"@ || units.len() == 0 {
                None
            } else {
                let mcus = cleanup_walk(ns, timer.targets, seq![], 0);
                if mcus.len() == 0 {
                    Some("This timer does not target a Deactivate or Delete MCU that lists the group's units."@)
                } else {
                    let lines = cleanup_lines(mcus, units);
                    if lines.len() == 0 {
                        None
                    } else {
                        Some(joined(lines, " "@))
                    }
                }
            }
        },
    }
}

fn missing_unit_names(units: &Vec<WorldUnit>, objects: &Vec<i32>) -> (r: Vec<String>)
    ensures
        r@.map_values(|p: String| p@) == missing_units(units@.map_values(|u: WorldUnit| unit_view(u)), objects@),
{
    let ghost uv = units@.map_values(|u: WorldUnit| unit_view(u));
    let mut out: Vec<String> = Vec::new();
    let mut i: usize = 0;
    while i < units.len()
        invariant
            i <= units@.len(),
            uv == units@.map_values(|u: WorldUnit| unit_view(u)),
            out@.map_values(|p: String| p@) == missing_units(uv.take(i as int), objects@),
        decreases units@.len() - i,
    {
        proof {
            assert(uv.take(i + 1).drop_last() =~= uv.take(i as int));
            assert(uv.take(i + 1).last() == unit_view(units@[i as int]));
        }
        if !unit_is_covered(&units[i], objects) {
            let ghost before = out@.map_values(|p: String| p@);
            out.push(units[i].name.clone());
            proof {
                assert(out@.map_values(|p: String| p@) =~= before.push(units@[i as int].name@));
            }
        }
        i = i + 1;
    }
    proof {
        assert(uv.take(i as int) =~= uv);
    }
    out
}

fn names_text(names: &Vec<String>) -> (r: String)
    ensures
        r@ == name_list(names@.map_values(|p: String| p@)),
{
    let ghost nv = names@.map_values(|p: String| p@);
    if names.len() <= 6 {
        let r = join_strings(names, ", ", names.len());
        proof {
            assert(names@.take(names@.len() as int) =~= names@);
        }
        r
    } else {
        let mut r = join_strings(names, ", ", 6);
        proof {
            assert(names@.take(6).map_values(|p: String| p@) =~= nv.take(6));
        }
        push_str(&mut r, ", and ");
        push_dec(&mut r, (names.len() - 6) as u64);
        push_str(&mut r, " more");
        r
    }
}

fn cleanup_line_for(mcu: &Il2Entity, units: &Vec<WorldUnit>) -> (r: Option<String>)
    ensures
        match cleanup_line(mcu@, units@.map_values(|u: WorldUnit| unit_view(u))) {
            Some(l) => r matches Some(x) && x@ == l,
            None => r is None,
        },
{
    if mcu.objects.len() == 0 {
        return None;
    }
    let missing = missing_unit_names(units, &mcu.objects);
    if missing.len() == 0 {
        return None;
    }
    let kind = if str_eq(mcu.block_type.as_str(), "MCU_Delete") { "Delete" } else { "Deactivate" };
    let mcu_name = name_or_str(mcu, kind);
    let mut line = String::new();
    push_str(&mut line, kind);
    push_str(&mut line, " \"");
    push_str(&mut line, mcu_name);
    push_str(&mut line, "\" does not cover ");
    if missing.len() == 1 {
        push_str(&mut line, "1 unit");
    } else {
        push_dec(&mut line, missing.len() as u64);
        push_str(&mut line, " units");
    }
    push_str(&mut line, ": ");
    let names = names_text(&missing);
    push_str(&mut line, names.as_str());
    push_str(&mut line, ".");
    proof {
        reveal_strlit("1 unit");
        reveal_strlit("1 ");
        reveal_strlit("unit");
        reveal_strlit(" units");
        reveal_strlit(" ");
        reveal_strlit("s");
        let l = cleanup_line(mcu@, units@.map_values(|u: WorldUnit| unit_view(u)));
        assert(line@ =~= l->0);
    }
    Some(line)
}

/// Warn when a timer's linked Deactivate/Delete MCUs do not list every
/// Plane / Vehicle / Train / Ship (by Index or LinkTrId).
pub fn cleanup_coverage_warning(root: &Il2Entity, timer_id: i32) -> (r: Option<String>)
    ensures
        match cleanup_warning(nodes(root@), timer_id) {
            Some(w) => r matches Some(x) && x@ == w,
            None => r is None,
        },
{
    let ns = all_nodes(root);
    proof {
        assert(ns@.map_values(|e: &Il2Entity| e@) =~= nodes(root@));
    }
    let timer = match find_in_nodes(&ns, timer_id) {
        Some(t) => t,
        None => return None,
    };
    if !str_eq(timer.block_type.as_str(), "MCU_Timer") {
        return None;
    }
    let units = collect_world_units(&ns);
    if units.len() == 0 {
        return None;
    }
    let mcus = collect_cleanup_from_timer(&ns, timer);
    if mcus.len() == 0 {
        return Some(owned("This timer does not target a Deactivate or Delete MCU that lists the group's units."));
    }
    let ghost uv = units@.map_values(|u: WorldUnit| unit_view(u));
    let ghost mv = mcus@.map_values(|e: &Il2Entity| e@);
    let mut lines: Vec<String> = Vec::new();
    let mut i: usize = 0;
    while i < mcus.len()
        invariant
            i <= mcus@.len(),
            uv == units@.map_values(|u: WorldUnit| unit_view(u)),
            mv == mcus@.map_values(|e: &Il2Entity| e@),
            lines@.map_values(|p: String| p@) == cleanup_lines(mv.take(i as int), uv),
        decreases mcus@.len() - i,
    {
        proof {
            assert(mv.take(i + 1).drop_last() =~= mv.take(i as int));
            assert(mv.take(i + 1).last() == mcus@[i as int]@);
        }
        match cleanup_line_for(mcus[i], &units) {
            Some(l) => {
                let ghost before = lines@.map_values(|p: String| p@);
                let ghost lv = l@;
                lines.push(l);
                proof {
                    assert(lines@.map_values(|p: String| p@) =~= before.push(lv));
                }
            },
            None => {},
        }
        i = i + 1;
    }
    proof {
        assert(mv.take(i as int) =~= mv);
    }
    if lines.len() == 0 {
        return None;
    }
    let r = join_strings(&lines, " ", lines.len());
    proof {
        assert(lines@.take(lines@.len() as int) =~= lines@);
    }
    Some(r)
}

/// Coalitions a checkzone reacts to: the first non-empty id list among
/// `PlaneCoalitions`, `VehicleCoalitions`, `ShipCoalitions` and
/// `CountryCoalitions` (a value that does not start with an id list counts
/// as none).
pub open spec fn coalitions_of(e: EntityModel) -> Seq<i32> {
    let a = listed_ids(e, "PlaneCoalitions"@);
    let b = listed_ids(e, "VehicleCoalitions"@);
    let c = listed_ids(e, "ShipCoalitions"@);
    let d = listed_ids(e, "CountryCoalitions"@);
    if a.len() > 0 {
        a
    } else if b.len() > 0 {
        b
    } else if c.len() > 0 {
        c
    } else {
        d
    }
}

/// The id list at the start of property `key`, empty when there is none.
pub open spec fn listed_ids(e: EntityModel, key: Seq<char>) -> Seq<i32> {
    match prop_get(e.properties, key) {
        Some(raw) => match int_array(raw, 0) {
            Some(r) => r.1,
            None => seq![],
        },
        None => seq![],
    }
}

fn listed_ids_of(e: &Il2Entity, key: &str) -> (r: Vec<i32>)
    ensures
        r@ == listed_ids(e@, key@),
{
    match e.property(key) {
        Some(raw) => match parse_integer_array(raw) {
            Ok((_, ids)) => ids,
            Err(_) => Vec::new(),
        },
        None => Vec::new(),
    }
}

fn coalition_ids(e: &Il2Entity) -> (r: Vec<i32>)
    ensures
        r@ == coalitions_of(e@),
{
    let a = listed_ids_of(e, "PlaneCoalitions");
    if a.len() > 0 {
        return a;
    }
    let b = listed_ids_of(e, "VehicleCoalitions");
    if b.len() > 0 {
        return b;
    }
    let c = listed_ids_of(e, "ShipCoalitions");
    if c.len() > 0 {
        return c;
    }
    listed_ids_of(e, "CountryCoalitions")
}

/// Problems of a trigger checkzone: Distance Type not Closer, no
/// coalitions, or (when the template has units) no `Targets` path to an
/// Activate or Spawner that lists one of them.
pub open spec fn trigger_parts(ns: Seq<EntityModel>, zone: EntityModel) -> Seq<Seq<char>> {
    let closer = match prop_get(zone.properties, "Closer"@) {
        Some(v) => v,
        None => ""@,
    };
    let p1: Seq<Seq<char>> = if closer != "1"@ {
        seq!["Distance Type is not Closer (Closer = "@ + (if closer.len() == 0 { "unset"@ } else { closer }) + ")."@]
    } else {
        seq![]
    };
    let p2: Seq<Seq<char>> = if coalitions_of(zone).len() == 0 {
        p1.push("no coalitions are listed."@)
    } else {
        p1
    };
    let units = world_units(ns);
    if units.len() > 0 && !activation_reached(ns, zone.targets, seq![], 0, units) {
        p2.push("does not reach an Activate or Spawner that lists units in this group."@)
    } else {
        p2
    }
}

/// The warning for a trigger checkzone, if it has problems.
pub open spec fn trigger_warning(ns: Seq<EntityModel>, zone_id: i32) -> Option<Seq<char>> {
    match node_with(ns, zone_id) {
        None => None,
        Some(zone) => if zone.block_type != "MCU_CheckZone"@ {
            None
        } else {
            let parts = trigger_parts(ns, zone);
            if parts.len() == 0 {
                None
            } else {
                Some("\""@ + name_or(zone, "CheckZone"@) + "\": "@ + joined(parts, " "@))
            }
        },
    }
}

/// Check a trigger checkzone: Distance Type Closer (`Closer = 1`), at least
/// one coalition, and a `Targets` chain that reaches an MCU_Activate /
/// MCU_Spawner listing at least one Plane / Vehicle / Ship.
pub fn trigger_zone_warning(root: &Il2Entity, zone_id: i32) -> (r: Option<String>)
    ensures
        match trigger_warning(nodes(root@), zone_id) {
            Some(w) => r matches Some(x) && x@ == w,
            None => r is None,
        },
{
    let ns = all_nodes(root);
    let ghost m = ns@.map_values(|e: &Il2Entity| e@);
    proof {
        assert(m =~= nodes(root@));
    }
    let zone = match find_in_nodes(&ns, zone_id) {
        Some(z) => z,
        None => return None,
    };
    if !str_eq(zone.block_type.as_str(), "MCU_CheckZone") {
        return None;
    }
    let label = name_or_str(zone, "CheckZone");
    let mut parts: Vec<String> = Vec::new();
    let closer = match zone.property("Closer") {
        Some(v) => v,
        None => "",
    };
    if !str_eq(closer, "1") {
        let mut p = String::new();
        push_str(&mut p, "Distance Type is not Closer (Closer = ");
        if closer.unicode_len() == 0 {
            push_str(&mut p, "unset");
        } else {
            push_str(&mut p, closer);
        }
        push_str(&mut p, ").");
        parts.push(p);
    }
    if coalition_ids(zone).len() == 0 {
        parts.push(owned("no coalitions are listed."));
    }
    let units = collect_world_units(&ns);
    if units.len() > 0 && !reaches_unit_activation(&ns, zone, &units) {
        parts.push(owned("does not reach an Activate or Spawner that lists units in this group."));
    }
    proof {
        let sp = trigger_parts(m, zone@);
        assert(parts@.map_values(|p: String| p@) =~= sp);
    }
    if parts.len() == 0 {
        return None;
    }
    let mut out = String::new();
    push_char(&mut out, '"');
    push_str(&mut out, label);
    push_str(&mut out, "\": ");
    let body = join_strings(&parts, " ", parts.len());
    proof {
        assert(parts@.take(parts@.len() as int) =~= parts@);
    }
    push_str(&mut out, body.as_str());
    proof {
        reveal_strlit("\"");
        assert(out@ =~= trigger_warning(m, zone_id)->0);
    }
    Some(out)
}

// ---------------------------------------------------------------------------
// Inspecting a plan
// ---------------------------------------------------------------------------

/// End-timer warnings by timer `Index` (a later timer with the same Index
/// replaces an earlier one).
pub open spec fn cleanup_warning_map(ns: Seq<EntityModel>, timers: Seq<(i32, Seq<char>)>) -> Map<i32, Seq<char>>
    decreases timers.len(),
{
    if timers.len() == 0 {
        Map::empty()
    } else {
        let m = cleanup_warning_map(ns, timers.drop_last());
        match cleanup_warning(ns, timers.last().0) {
            Some(w) => m.insert(timers.last().0, w),
            None => m,
        }
    }
}

/// Trigger warnings by checkzone `Index`.
pub open spec fn trigger_warning_map(ns: Seq<EntityModel>, zones: Seq<(i32, Seq<char>)>) -> Map<i32, Seq<char>>
    decreases zones.len(),
{
    if zones.len() == 0 {
        Map::empty()
    } else {
        let m = trigger_warning_map(ns, zones.drop_last());
        match trigger_warning(ns, zones.last().0) {
            Some(w) => m.insert(zones.last().0, w),
            None => m,
        }
    }
}

/// A `HashMap` of texts that holds exactly `m`.
pub open spec fn holds_texts(h: HashMap<i32, String>, m: Map<i32, Seq<char>>) -> bool {
    &&& h@.dom() == m.dom()
    &&& forall|k: i32| #[trigger] m.contains_key(k) ==> h@[k]@ == m[k]
}

fn warnings_for(root: &Il2Entity, choices: &Vec<McuChoice>, timers: bool) -> (r: HashMap<i32, String>)
    ensures
        timers ==> holds_texts(r, cleanup_warning_map(nodes(root@), choices@.map_values(|c: McuChoice| choice_view(c)))),
        !timers ==> holds_texts(r, trigger_warning_map(nodes(root@), choices@.map_values(|c: McuChoice| choice_view(c)))),
{
    let ghost cv = choices@.map_values(|c: McuChoice| choice_view(c));
    let ghost ns = nodes(root@);
    let mut out: HashMap<i32, String> = HashMap::new();
    let mut i: usize = 0;
    proof {
        assert(cv.take(0) =~= Seq::<(i32, Seq<char>)>::empty());
        assert(out@.dom() =~= Map::<i32, Seq<char>>::empty().dom());
    }
    while i < choices.len()
        invariant
            i <= choices@.len(),
            cv == choices@.map_values(|c: McuChoice| choice_view(c)),
            ns == nodes(root@),
            timers ==> holds_texts(out, cleanup_warning_map(ns, cv.take(i as int))),
            !timers ==> holds_texts(out, trigger_warning_map(ns, cv.take(i as int))),
        decreases choices@.len() - i,
    {
        let id = choices[i].index;
        proof {
            assert(cv.take(i + 1).drop_last() =~= cv.take(i as int));
            assert(cv.take(i + 1).last().0 == id);
        }
        let w = if timers { cleanup_coverage_warning(root, id) } else { trigger_zone_warning(root, id) };
        match w {
            Some(msg) => {
                let ghost before = out@;
                let ghost mv = msg@;
                out.insert(id, msg);
                proof {
                    if timers {
                        let sm = cleanup_warning_map(ns, cv.take(i + 1));
                        assert(out@.dom() =~= sm.dom());
                        assert forall|k: i32| #[trigger] sm.contains_key(k) implies out@[k]@ == sm[k] by {
                            if k != id {
                                assert(out@[k] == before[k]);
                            }
                        }
                    } else {
                        let sm = trigger_warning_map(ns, cv.take(i + 1));
                        assert(out@.dom() =~= sm.dom());
                        assert forall|k: i32| #[trigger] sm.contains_key(k) implies out@[k]@ == sm[k] by {
                            if k != id {
                                assert(out@[k] == before[k]);
                            }
                        }
                    }
                }
            },
            None => {},
        }
        i = i + 1;
    }
    proof {
        assert(cv.take(i as int) =~= cv);
    }
    out
}

/// What `inspect_plan` reports, given the template's node list.
pub open spec fn unit_total(root: EntityModel) -> int {
    count_type(root, "Plane"@) + count_type(root, "Vehicle"@) + count_type(root, "Train"@) + count_type(root, "Ship"@)
}

/// List a plan's checkzones and timers, with name-based suggestions for
/// the linker and the wiring warnings. Fails when the template has no
/// checkzone or no timer.
pub fn inspect_plan(root: &Il2Entity) -> (r: Result<BomberPlanInfo, String>)
    requires
        unit_total(root@) <= usize::MAX,
    ensures
        ({
            let ns = nodes(root@);
            let zones = choices_in(ns, "MCU_CheckZone"@);
            let timers = choices_in(ns, "MCU_Timer"@);
            if zones.len() == 0 {
                r matches Err(e) && e@ == "template has no MCU_CheckZone"@
            } else if timers.len() == 0 {
                r matches Err(e) && e@ == "template has no MCU_Timer (need one as the end trigger)"@
            } else {
                r matches Ok(info) && {
                    &&& info.name@ == name_or(root@, "Plan"@)
                    &&& info.plane_count as int == count_type(root@, "Plane"@)
                    &&& info.unit_count as int == unit_total(root@)
                    &&& info.checkzones@.map_values(|c: McuChoice| choice_view(c)) == zones
                    &&& info.timers@.map_values(|c: McuChoice| choice_view(c)) == timers
                    &&& info.suggested_triggers@ == start_zone_ids(ns)
                    &&& info.suggested_completion == end_suggestion(ns, cleanup_ids(ns, world_units(ns)))
                    &&& holds_texts(info.cleanup_warnings, cleanup_warning_map(ns, timers))
                    &&& holds_texts(info.trigger_warnings, trigger_warning_map(ns, zones))
                }
            }
        }),
{
    let ns = all_nodes(root);
    proof {
        assert(ns@.map_values(|e: &Il2Entity| e@) =~= nodes(root@));
    }
    let checkzones = collect_choices(&ns, "MCU_CheckZone");
    if checkzones.len() == 0 {
        return Err(owned("template has no MCU_CheckZone"));
    }
    let timers = collect_choices(&ns, "MCU_Timer");
    if timers.len() == 0 {
        return Err(owned("template has no MCU_Timer (need one as the end trigger)"));
    }
    proof {
        lemma_count_nonneg(root@, "Plane"@);
        lemma_count_nonneg(root@, "Vehicle"@);
        lemma_count_nonneg(root@, "Train"@);
        lemma_count_nonneg(root@, "Ship"@);
    }
    let planes = root.count_block_type("Plane");
    let vehicles = root.count_block_type("Vehicle");
    let trains = root.count_block_type("Train");
    let ships = root.count_block_type("Ship");
    let units = collect_world_units(&ns);
    let cleanup = cleanup_mcu_indexes(&ns, &units);
    let name = owned(name_or_str(root, "Plan"));
    let suggested_triggers = suggested_trigger_ids(&ns);
    let suggested_completion = suggested_completion_id(&ns, &cleanup);
    let cleanup_warnings = warnings_for(root, &timers, true);
    let trigger_warnings = warnings_for(root, &checkzones, false);
    Ok(BomberPlanInfo {
        name,
        plane_count: planes,
        unit_count: planes + vehicles + trains + ships,
        checkzones,
        timers,
        suggested_triggers,
        suggested_completion,
        cleanup_warnings,
        trigger_warnings,
    })
}

// ---------------------------------------------------------------------------
// The suggested end timer
// ---------------------------------------------------------------------------

proof fn lemma_first_rank_none(ns: Seq<EntityModel>, cleanup: Seq<i32>, r: int)
    requires
        forall|q: int| 0 <= q < ns.len() ==> end_rank(#[trigger] ns[q], cleanup) != r,
    ensures
        first_with_rank(ns, cleanup, r) is None,
    decreases ns.len(),
{
    if ns.len() > 0 {
        let t = ns.drop_first();
        assert forall|q: int| 0 <= q < t.len() implies end_rank(#[trigger] t[q], cleanup) != r by {
            assert(t[q] == ns[q + 1]);
        }
        lemma_first_rank_none(t, cleanup, r);
    }
}

proof fn lemma_first_rank_at(ns: Seq<EntityModel>, cleanup: Seq<i32>, r: int, p: int)
    requires
        0 <= p < ns.len(),
        end_rank(ns[p], cleanup) == r,
        forall|q: int| 0 <= q < p ==> end_rank(#[trigger] ns[q], cleanup) != r,
    ensures
        first_with_rank(ns, cleanup, r) == ns[p].index,
    decreases p,
{
    if p > 0 {
        let t = ns.drop_first();
        assert forall|q: int| 0 <= q < p - 1 implies end_rank(#[trigger] t[q], cleanup) != r by {
            assert(t[q] == ns[q + 1]);
        }
        assert(t[p - 1] == ns[p]);
        assert(end_rank(ns[0], cleanup) != r);
        lemma_first_rank_at(t, cleanup, r, p - 1);
    }
}

/// With no `END` / `MISSION END` timer, the first indexed `MCU_Timer` whose
/// trimmed name begins `MISSION CLEAN UP` (any case) is the suggested end
/// timer, when no indexed timer before it is named `Delay Delete` or
/// `MISSION CLEAN UP…`.
pub proof fn law_clean_up_prefix_suggested(ns: Seq<EntityModel>, cleanup: Seq<i32>, p: int)
    requires
        0 <= p < ns.len(),
        ns[p].block_type == "MCU_Timer"@,
        ns[p].index is Some,
        starts_with_ignore_case(trim(name_or(ns[p], ""@)), "MISSION CLEAN UP"@),
        forall|q: int|
            0 <= q < ns.len() && (#[trigger] ns[q]).block_type == "MCU_Timer"@ && ns[q].index is Some ==> {
                &&& !eq_ignore_case(trim(name_or(ns[q], ""@)), "END"@)
                &&& !eq_ignore_case(trim(name_or(ns[q], ""@)), "MISSION END"@)
            },
        forall|q: int|
            0 <= q < p && (#[trigger] ns[q]).block_type == "MCU_Timer"@ && ns[q].index is Some ==> {
                &&& !eq_ignore_case(trim(name_or(ns[q], ""@)), "Delay Delete"@)
                &&& !eq_ignore_case(trim(name_or(ns[q], ""@)), "MISSION CLEAN UP"@)
                &&& !starts_with_ignore_case(trim(name_or(ns[q], ""@)), "MISSION CLEAN UP"@)
            },
    ensures
        end_suggestion(ns, cleanup) == ns[p].index,
{
    assert forall|q: int| 0 <= q < ns.len() implies end_rank(#[trigger] ns[q], cleanup) != 0 by {
        if ns[q].block_type == "MCU_Timer"@ && ns[q].index is Some {
            assert(!is_preferred_end_name(name_or(ns[q], ""@)));
        }
    }
    lemma_first_rank_none(ns, cleanup, 0);
    assert forall|q: int| 0 <= q < p implies end_rank(#[trigger] ns[q], cleanup) != 1 by {
        if ns[q].block_type == "MCU_Timer"@ && ns[q].index is Some {
            assert(!is_legacy_end_name(name_or(ns[q], ""@)));
        }
    }
    assert(is_legacy_end_name(name_or(ns[p], ""@)));
    assert(end_rank(ns[p], cleanup) == 1);
    lemma_first_rank_at(ns, cleanup, 1, p);
}

} // verus!
