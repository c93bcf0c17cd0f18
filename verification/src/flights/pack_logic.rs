//! Wiring a fighter pack: Group 1's spawners, DeathCounts, randomizer and
//! plane ends, built from the prototypes the template carries.

use vstd::prelude::*;
use crate::ast::{EntityModel, Il2Entity, find_named, lemma_children_model};
use crate::bombers::link::{find_block, first_of_type, named, with_objects, with_prop, with_targets, wrapper};
use crate::duplicate::{duplicated, first_free, index_count};
use crate::recon::generate::views;
use crate::text::{dec_text, owned, push_dec};
use super::edits::{
    BuiltFlight, EditOp, EditSpec, PatchSpec, UnitPatch, covered, edit_first, edit_named, flight_slice,
    rename_covers, seats_before, split_error, split_flights, unit_entity_ids, unit_ids,
};
use super::ends::{EndKit, clone_next, end_kit, ends_fit, ends_next, install_plane_ends, plane_ends};
use super::randomizer::{FighterRand, fighter_rand_ok, fighter_randomizer, lemma_base_mono, lemma_counts};

verus! {

// ---------------------------------------------------------------------------
// Renaming
// ---------------------------------------------------------------------------

/// Group 1 with `Zone Out` renamed, the delayed end orders renamed and
/// retimed to `dt`, and the cooldown retimed to `ct`.
pub open spec fn retimed(g: EntityModel, ct: Seq<char>, dt: Seq<char>) -> EntityModel {
    let a = edit_named(g, "Zone Out"@, EditSpec::Name("Zone OUT"@));
    let b = edit_named(a, "DELAYED END ORDERS"@, EditSpec::NameProp("Delay Delete"@, "Time"@, dt));
    edit_named(b, "COOLDOWN"@, EditSpec::Prop("Time"@, ct))
}

/// The retimed group with its Cover commands numbered from 1.
pub open spec fn renamed_group(g: EntityModel, ct: Seq<char>, dt: Seq<char>) -> EntityModel {
    covered(retimed(g, ct, dt), 0).0
}

fn retime(group: &mut Il2Entity, ct: &str, dt: &str)
    requires
        covered(retimed(old(group)@, ct@, dt@), 0).1 <= usize::MAX,
    ensures
        final(group)@ == renamed_group(old(group)@, ct@, dt@),
{
    edit_first(group, "Zone Out", EditOp::Name(owned("Zone OUT")));
    edit_first(group, "DELAYED END ORDERS", EditOp::NameProp(owned("Delay Delete"), owned("Time"), owned(dt)));
    edit_first(group, "COOLDOWN", EditOp::Prop(owned("Time"), owned(ct)));
    let mut n: usize = 0;
    rename_covers(group, &mut n);
}

// ---------------------------------------------------------------------------
// The prototypes
// ---------------------------------------------------------------------------

/// What the wiring is built from, read off the renamed group.
pub struct PackProtos {
    pub timer: EntityModel,
    pub deact: EntityModel,
    pub act: EntityModel,
    pub spawn: EntityModel,
    pub death: EntityModel,
    pub force: EntityModel,
    pub deact_units: EntityModel,
    pub mission_end: i32,
    pub zone_in: i32,
    pub cool: Option<i32>,
    pub eids: Seq<i32>,
}

/// Index of the first block named `name`, if it has one.
pub open spec fn idx_of(g: EntityModel, name: Seq<char>) -> Option<i32> {
    match find_named(g, name) {
        Some(e) => e.index,
        None => None,
    }
}

pub open spec fn protos_of(g1: EntityModel) -> PackProtos {
    PackProtos {
        timer: find_named(g1, "ENABLE / PULSE IN"@)->0,
        deact: first_of_type(g1, "MCU_Deactivate"@)->0,
        act: first_of_type(g1, "MCU_Activate"@)->0,
        spawn: find_named(g1, "Trigger Spawner"@)->0,
        death: find_named(g1, "DeathCount"@)->0,
        force: find_named(g1, "Force Complete - High"@)->0,
        deact_units: match find_named(g1, "Deactivate Units"@) {
            Some(e) => e,
            None => first_of_type(g1, "MCU_Deactivate"@)->0,
        },
        mission_end: idx_of(g1, "MISSION END"@)->0,
        zone_in: idx_of(g1, "Zone IN"@)->0,
        cool: idx_of(g1, "COOLDOWN"@),
        eids: unit_ids(g1),
    }
}

/// Why the renamed group cannot be wired for flights of `sizes`, if it
/// cannot: the first missing prototype or Index, or a count of planes that
/// does not match.
pub open spec fn proto_error(g1: EntityModel, sizes: Seq<usize>) -> Option<Seq<char>> {
    if find_named(g1, "ENABLE / PULSE IN"@) is None {
        Some("missing `ENABLE / PULSE IN` prototype"@)
    } else if first_of_type(g1, "MCU_Deactivate"@) is None {
        Some("missing deactivate prototype"@)
    } else if first_of_type(g1, "MCU_Activate"@) is None {
        Some("missing activate prototype"@)
    } else if find_named(g1, "Trigger Spawner"@) is None {
        Some("missing `Trigger Spawner` prototype"@)
    } else if find_named(g1, "DeathCount"@) is None {
        Some("missing `DeathCount` prototype"@)
    } else if find_named(g1, "Force Complete - High"@) is None {
        Some("missing `Force Complete - High` prototype"@)
    } else if find_named(g1, "Trigger Spawner"@)->0.index is None {
        Some("Trigger Spawner missing Index"@)
    } else if find_named(g1, "DeathCount"@)->0.index is None {
        Some("DeathCount missing Index"@)
    } else if idx_of(g1, "MISSION END"@) is None {
        Some("missing MISSION END"@)
    } else if idx_of(g1, "Zone IN"@) is None {
        Some("missing Zone IN"@)
    } else {
        split_error(unit_ids(g1), sizes)
    }
}

/// The prototypes as read, with the planes split into flights.
pub struct Protos {
    pub timer: Il2Entity,
    pub deact: Il2Entity,
    pub act: Il2Entity,
    pub spawn: Il2Entity,
    pub death: Il2Entity,
    pub force: Il2Entity,
    pub deact_units: Il2Entity,
    pub spawn_id: i32,
    pub death_id: i32,
    pub mission_end: i32,
    pub zone_in: i32,
    pub cool: Option<i32>,
    pub eids: Vec<i32>,
    pub flights: Vec<BuiltFlight>,
}

pub open spec fn protos_view(p: Protos) -> PackProtos {
    PackProtos {
        timer: p.timer@,
        deact: p.deact@,
        act: p.act@,
        spawn: p.spawn@,
        death: p.death@,
        force: p.force@,
        deact_units: p.deact_units@,
        mission_end: p.mission_end,
        zone_in: p.zone_in,
        cool: p.cool,
        eids: p.eids@,
    }
}

fn index_named(g: &Il2Entity, name: &str) -> (r: Option<i32>)
    ensures
        r == idx_of(g@, name@),
{
    match g.find_by_name(name) {
        Some(e) => e.index,
        None => None,
    }
}

fn named_copy(g: &Il2Entity, name: &str) -> (r: Option<Il2Entity>)
    ensures
        match find_named(g@, name@) {
            Some(e) => r matches Some(c) && c@ == e,
            None => r is None,
        },
{
    match g.find_by_name(name) {
        Some(e) => Some(e.clone()),
        None => None,
    }
}

/// Read the prototypes off the renamed group `g1` and split its planes into
/// flights of `sizes`.
fn read_protos(g1: &Il2Entity, sizes: &[usize]) -> (r: Result<Protos, String>)
    requires
        seats_before(sizes@, sizes@.len() as int) <= usize::MAX,
    ensures
        match proto_error(g1@, sizes@) {
            Some(m) => r matches Err(x) && x@ == m,
            None => r matches Ok(p) && {
                &&& protos_view(p) == protos_of(g1@)
                &&& Some(p.spawn_id) == p.spawn@.index
                &&& Some(p.death_id) == p.death@.index
                &&& p.flights@.len() == sizes@.len()
                &&& forall|f: int|
                    0 <= f < sizes@.len() ==> (#[trigger] p.flights@[f]).entity_ids@ == flight_slice(
                        unit_ids(g1@),
                        sizes@,
                        f,
                    )
            },
        },
{
    let timer = match named_copy(g1, "ENABLE / PULSE IN") {
        Some(c) => c,
        None => return Err(owned("missing `ENABLE / PULSE IN` prototype")),
    };
    let deact = match find_block(g1, "MCU_Deactivate") {
        Some(d) => d.clone(),
        None => return Err(owned("missing deactivate prototype")),
    };
    let act = match find_block(g1, "MCU_Activate") {
        Some(a) => a.clone(),
        None => return Err(owned("missing activate prototype")),
    };
    let spawn = match named_copy(g1, "Trigger Spawner") {
        Some(c) => c,
        None => return Err(owned("missing `Trigger Spawner` prototype")),
    };
    let death = match named_copy(g1, "DeathCount") {
        Some(c) => c,
        None => return Err(owned("missing `DeathCount` prototype")),
    };
    let force = match named_copy(g1, "Force Complete - High") {
        Some(c) => c,
        None => return Err(owned("missing `Force Complete - High` prototype")),
    };
    let deact_units = match g1.find_by_name("Deactivate Units") {
        Some(d) => d.clone(),
        None => deact.clone(),
    };
    let spawn_id = match spawn.index {
        Some(i) => i,
        None => return Err(owned("Trigger Spawner missing Index")),
    };
    let death_id = match death.index {
        Some(i) => i,
        None => return Err(owned("DeathCount missing Index")),
    };
    let mission_end = match index_named(g1, "MISSION END") {
        Some(i) => i,
        None => return Err(owned("missing MISSION END")),
    };
    let zone_in = match index_named(g1, "Zone IN") {
        Some(i) => i,
        None => return Err(owned("missing Zone IN")),
    };
    let cool = index_named(g1, "COOLDOWN");
    let eids = unit_entity_ids(g1);
    let flights = match split_flights(eids.as_slice(), sizes) {
        Ok(fs) => fs,
        Err(m) => return Err(m),
    };
    Ok(Protos {
        timer,
        deact,
        act,
        spawn,
        death,
        force,
        deact_units,
        spawn_id,
        death_id,
        mission_end,
        zone_in,
        cool,
        eids,
        flights,
    })
}

// ---------------------------------------------------------------------------
// Spawners and DeathCounts
// ---------------------------------------------------------------------------

/// Index of flight `f`'s spawner: each flight takes a spawner, then its
/// DeathCount, from `start` on.
pub open spec fn spawner_at(p: PackProtos, start: int, f: int) -> int
    decreases f,
{
    if f <= 0 {
        start
    } else {
        spawner_at(p, start, f - 1) + index_count(p.spawn) + index_count(p.death)
    }
}

/// Flight `f`'s spawner: it spawns the flight's planes.
pub open spec fn spawner_of(p: PackProtos, sizes: Seq<usize>, start: int, f: int) -> EntityModel {
    with_objects(
        named(duplicated(p.spawn, spawner_at(p, start, f)), "Spawn "@ + dec_text((f + 1) as nat)),
        flight_slice(p.eids, sizes, f),
    )
}

/// Flight `f`'s DeathCount: it counts the flight's planes down and fires the
/// cooldown, when there is one with an Index.
pub open spec fn death_of(p: PackProtos, sizes: Seq<usize>, start: int, f: int) -> EntityModel {
    let d = with_prop(
        with_prop(
            named(duplicated(p.death, spawner_at(p, start, f) + index_count(p.spawn)), "DeathCount"@),
            "Counter"@,
            dec_text(sizes[f] as nat),
        ),
        "Dropcount"@,
        "1"@,
    );
    match p.cool {
        Some(c) => with_targets(d, seq![c]),
        None => d,
    }
}

pub open spec fn spawn_ids(p: PackProtos, sizes: Seq<usize>, start: int) -> Seq<i32> {
    Seq::new(sizes.len(), |f: int| spawner_at(p, start, f) as i32)
}

pub open spec fn death_ids(p: PackProtos, sizes: Seq<usize>, start: int) -> Seq<i32> {
    Seq::new(sizes.len(), |f: int| (spawner_at(p, start, f) + index_count(p.spawn)) as i32)
}

pub open spec fn flight_ids(p: PackProtos, sizes: Seq<usize>) -> Seq<Seq<i32>> {
    Seq::new(sizes.len(), |f: int| flight_slice(p.eids, sizes, f))
}

proof fn lemma_spawner_mono(p: PackProtos, start: int, a: int, b: int)
    requires
        0 <= a <= b,
    ensures
        start <= spawner_at(p, start, a) <= spawner_at(p, start, b),
        a < b ==> spawner_at(p, start, a) + index_count(p.spawn) + index_count(p.death) <= spawner_at(p, start, b),
    decreases b,
{
    if b > a {
        lemma_spawner_mono(p, start, a, b - 1);
    } else if a > 0 {
        lemma_spawner_mono(p, start, 0, a - 1);
    }
}

/// The spawners and DeathCounts of all flights, from `*next_id` on.
fn build_counters(p: &Protos, sizes: &[usize], next_id: &mut i32) -> (r: (
    Vec<Il2Entity>,
    Vec<Il2Entity>,
    Vec<i32>,
    Vec<i32>,
    Vec<Vec<i32>>,
))
    requires
        p.flights@.len() == sizes@.len(),
        forall|f: int|
            0 <= f < sizes@.len() ==> (#[trigger] p.flights@[f]).entity_ids@ == flight_slice(p.eids@, sizes@, f),
        p.spawn@.index is Some,
        p.death@.index is Some,
        spawner_at(protos_view(*p), *old(next_id) as int, sizes@.len() as int) <= i32::MAX,
    ensures
        views(r.0@) == Seq::new(sizes@.len(), |f: int| spawner_of(protos_view(*p), sizes@, *old(next_id) as int, f)),
        views(r.1@) == Seq::new(sizes@.len(), |f: int| death_of(protos_view(*p), sizes@, *old(next_id) as int, f)),
        r.2@ == spawn_ids(protos_view(*p), sizes@, *old(next_id) as int),
        r.3@ == death_ids(protos_view(*p), sizes@, *old(next_id) as int),
        r.4@.map_values(|v: Vec<i32>| v@) == flight_ids(protos_view(*p), sizes@),
        *final(next_id) as int == spawner_at(protos_view(*p), *old(next_id) as int, sizes@.len() as int),
{
    let ghost pv = protos_view(*p);
    let ghost start = *next_id as int;
    let ghost n = sizes@.len();
    let mut spawners: Vec<Il2Entity> = Vec::new();
    let mut deaths: Vec<Il2Entity> = Vec::new();
    let mut sids: Vec<i32> = Vec::new();
    let mut dids: Vec<i32> = Vec::new();
    let mut fls: Vec<Vec<i32>> = Vec::new();
    let mut f: usize = 0;
    while f < sizes.len()
        invariant
            f <= n,
            n == sizes@.len(),
            pv == protos_view(*p),
            p.flights@.len() == n,
            forall|q: int| 0 <= q < n ==> (#[trigger] p.flights@[q]).entity_ids@ == flight_slice(p.eids@, sizes@, q),
            spawner_at(pv, start, n as int) <= i32::MAX,
            *next_id as int == spawner_at(pv, start, f as int),
            views(spawners@) == Seq::new(f as nat, |q: int| spawner_of(pv, sizes@, start, q)),
            views(deaths@) == Seq::new(f as nat, |q: int| death_of(pv, sizes@, start, q)),
            sids@ == Seq::new(f as nat, |q: int| spawner_at(pv, start, q) as i32),
            dids@ == Seq::new(f as nat, |q: int| (spawner_at(pv, start, q) + index_count(pv.spawn)) as i32),
            fls@.map_values(|v: Vec<i32>| v@) == Seq::new(f as nat, |q: int| flight_slice(pv.eids, sizes@, q)),
        decreases n - f,
    {
        proof {
            lemma_spawner_mono(pv, start, f as int, n as int);
            lemma_spawner_mono(pv, start, 0, f as int);
            if f + 1 < n {
                lemma_spawner_mono(pv, start, f + 1, n as int);
            }
        }
        let at = *next_id;
        let name = super::ends::label_text("Spawn ", f);
        let mut s = clone_next(&p.spawn, next_id, name.as_str());
        let objs = crate::ast::copy_ids(&p.flights[f].entity_ids);
        s.set_objects(objs);
        let dat = *next_id;
        let mut d = clone_next(&p.death, next_id, "DeathCount");
        let mut cnt = String::new();
        push_dec(&mut cnt, sizes[f] as u64);
        proof {
            assert(cnt@ =~= dec_text(sizes@[f as int] as nat));
        }
        d.set_property("Counter", cnt.as_str());
        d.set_property("Dropcount", "1");
        match p.cool {
            Some(c) => {
                let ts = vec![c];
                proof {
                    assert(ts@ =~= seq![c]);
                }
                d.set_targets(ts);
            },
            None => {},
        }
        assert(d@ == death_of(pv, sizes@, start, f as int));
        let ghost sb = views(spawners@);
        let ghost db = views(deaths@);
        let ghost fb = fls@.map_values(|v: Vec<i32>| v@);
        spawners.push(s);
        deaths.push(d);
        sids.push(at);
        dids.push(dat);
        let fl = crate::ast::copy_ids(&p.flights[f].entity_ids);
        fls.push(fl);
        proof {
            assert(views(spawners@) =~= sb.push(spawner_of(pv, sizes@, start, f as int)));
            assert(views(deaths@) =~= db.push(death_of(pv, sizes@, start, f as int)));
            assert(views(spawners@) =~= Seq::new((f + 1) as nat, |q: int| spawner_of(pv, sizes@, start, q)));
            assert(views(deaths@) =~= Seq::new((f + 1) as nat, |q: int| death_of(pv, sizes@, start, q)));
            assert(sids@ =~= Seq::new((f + 1) as nat, |q: int| spawner_at(pv, start, q) as i32));
            assert(dids@ =~= Seq::new((f + 1) as nat, |q: int| (spawner_at(pv, start, q) + index_count(pv.spawn)) as i32));
            assert(fls@.map_values(|v: Vec<i32>| v@) =~= fb.push(flight_slice(pv.eids, sizes@, f as int)));
            assert(fls@.map_values(|v: Vec<i32>| v@) =~= Seq::new((f + 1) as nat, |q: int| flight_slice(pv.eids, sizes@, q)));
        }
        f = f + 1;
    }
    (spawners, deaths, sids, dids, fls)
}

// ---------------------------------------------------------------------------
// The wired group
// ---------------------------------------------------------------------------

/// The randomizer over the flights' spawners, numbered after them.
pub open spec fn rand_of(p: PackProtos, sizes: Seq<usize>, start: int) -> FighterRand {
    FighterRand {
        timer: p.timer,
        deact: p.deact,
        act: p.act,
        spawners: Seq::new(sizes.len(), |f: int| spawner_of(p, sizes, start, f)),
        start: spawner_at(p, start, sizes.len() as int),
    }
}

/// Each flight's planes report to its spawner and die into its DeathCount,
/// in place of the prototypes'.
pub open spec fn unit_patch(p: PackProtos, sizes: Seq<usize>, start: int) -> PatchSpec {
    PatchSpec {
        flights: flight_ids(p, sizes),
        deaths: death_ids(p, sizes, start),
        spawns: spawn_ids(p, sizes, start),
        old_death: p.death.index->0,
        old_spawn: p.spawn.index->0,
    }
}

/// What the plane ends are built from; they are numbered after the
/// randomizer.
pub open spec fn kit_of(p: PackProtos, sizes: Seq<usize>, dt: Seq<char>, rtb: EntityModel, start: int) -> EndKit {
    end_kit(
        p.eids,
        sizes,
        death_ids(p, sizes, start),
        p.force,
        p.timer,
        p.deact_units,
        rtb,
        p.mission_end,
        dt,
        rand_of(p, sizes, start).end(),
    )
}

pub open spec fn patched_group(g1: EntityModel, p: PackProtos, sizes: Seq<usize>, start: int) -> EntityModel {
    edit_named(g1, "Units"@, EditSpec::Patch(unit_patch(p, sizes, start)))
}

/// A copy of `proto` at `at`, renamed, aimed at the zone `zone`, with no
/// objects.
pub open spec fn switch_of(proto: EntityModel, at: int, name: Seq<char>, zone: i32) -> EntityModel {
    with_objects(with_targets(named(duplicated(proto, at), name), seq![zone]), seq![])
}

/// The timer that ends the mission's orders shortly after it fires.
pub open spec fn delete_orders_of(timer: EntityModel, at: int, mission_end: i32) -> EntityModel {
    with_targets(
        with_prop(with_prop(named(duplicated(timer, at), "Delete Orders"@), "Time"@, "0.02"@), "Random"@, "100"@),
        seq![mission_end],
    )
}

/// The blocks added to `Logic`: the DeathCounts, the spawner switches and
/// the order deletion, numbered from `nx`.
pub open spec fn logic_extra(p: PackProtos, sizes: Seq<usize>, start: int, nx: int) -> Seq<EntityModel> {
    let ia = nx + index_count(p.act);
    let ib = ia + index_count(p.deact);
    Seq::new(sizes.len(), |f: int| death_of(p, sizes, start, f)) + seq![
        switch_of(p.act, nx, "Enable Spawner"@, p.zone_in),
        switch_of(p.deact, ia, "Disable Spawner"@, p.zone_in),
        delete_orders_of(p.timer, ib, p.mission_end),
    ]
}

/// The spawn trigger and the cooldown fire the randomizer's input; the
/// DeathCount switches and the modifier act on the new DeathCounts.
pub open spec fn wired(g: EntityModel, input: i32, dids: Seq<i32>) -> EntityModel {
    let a = edit_named(g, "SPAWN UNITS"@, EditSpec::Targets(seq![input]));
    let b = edit_named(a, "COOLDOWN"@, EditSpec::Targets(seq![input]));
    let c = edit_named(b, "DeathCount ReActivate"@, EditSpec::Targets(dids));
    let d = edit_named(c, "DeathCount Deactivate"@, EditSpec::Targets(dids));
    edit_named(d, "Modifier Set Value"@, EditSpec::Targets(dids))
}

/// The last steps of the wiring on `g`, the group with its plane ends:
/// the triggers rewired, `Logic` pruned and extended, and the randomizer
/// `nodes` hung under a group of its own.
pub open spec fn pack_tail(
    g: EntityModel,
    p: PackProtos,
    sizes: Seq<usize>,
    start: int,
    nx: int,
    nodes: Seq<EntityModel>,
    input: i32,
) -> EntityModel {
    let rid = nx + index_count(p.act) + index_count(p.deact) + index_count(p.timer);
    let g3 = wired(g, input, death_ids(p, sizes, start));
    let g4 = edit_named(g3, "Logic"@, EditSpec::PruneExtend(logic_extra(p, sizes, start, nx)));
    EntityModel { children: g4.children.push(wrapper("Randomizer"@, rid, nodes)), ..g4 }
}

/// The renamed group `g1` wired for flights of `sizes`.
pub open spec fn wired_pack(g1: EntityModel, sizes: Seq<usize>, dt: Seq<char>, rtb: EntityModel) -> EntityModel {
    let p = protos_of(g1);
    let start = first_free(g1);
    let fr = rand_of(p, sizes, start);
    let g2 = patched_group(g1, p, sizes, start);
    let k = kit_of(p, sizes, dt, rtb, start);
    pack_tail(plane_ends(g2, k), p, sizes, start, ends_next(g2, k), fr.nodes(), fr.start as i32)
}

/// Group 1 wired as a fighter pack for flights of `sizes`.
pub open spec fn pack_logic(g: EntityModel, sizes: Seq<usize>, ct: Seq<char>, dt: Seq<char>, rtb: EntityModel) -> EntityModel {
    wired_pack(renamed_group(g, ct, dt), sizes, dt, rtb)
}

/// Why Group 1 cannot be wired, if it cannot: a prototype, an Index or a
/// plane count found wrong, or a prototype of the plane ends without an
/// Index.
pub open spec fn pack_logic_error(
    g: EntityModel,
    sizes: Seq<usize>,
    ct: Seq<char>,
    dt: Seq<char>,
    rtb: EntityModel,
) -> Option<Seq<char>> {
    let g1 = renamed_group(g, ct, dt);
    match proto_error(g1, sizes) {
        Some(m) => Some(m),
        None => kit_of(protos_of(g1), sizes, dt, rtb, first_free(g1)).error(),
    }
}

/// Group 1 as a failed wiring leaves it: renamed, and its planes relinked
/// when only the plane ends failed.
pub open spec fn pack_logic_failed(g: EntityModel, sizes: Seq<usize>, ct: Seq<char>, dt: Seq<char>) -> EntityModel {
    let g1 = renamed_group(g, ct, dt);
    if proto_error(g1, sizes) is Some {
        g1
    } else {
        patched_group(g1, protos_of(g1), sizes, first_free(g1))
    }
}

/// Every count and Index the wiring hands out fits, and the prototypes the
/// randomizer numbers from carry an Index.
pub open spec fn pack_logic_fits(
    g: EntityModel,
    sizes: Seq<usize>,
    ct: Seq<char>,
    dt: Seq<char>,
    rtb: EntityModel,
) -> bool {
    &&& covered(retimed(g, ct, dt), 0).1 <= usize::MAX
    &&& seats_before(sizes, sizes.len() as int) <= usize::MAX
    &&& proto_error(renamed_group(g, ct, dt), sizes) is None ==> wiring_fits(
        renamed_group(g, ct, dt),
        sizes,
        dt,
        rtb,
    )
}

/// The Indexes handed out when wiring the renamed group `g1` fit, and the
/// randomizer's prototypes carry an Index.
pub open spec fn wiring_fits(g1: EntityModel, sizes: Seq<usize>, dt: Seq<char>, rtb: EntityModel) -> bool {
    let p = protos_of(g1);
    let start = first_free(g1);
    let k = kit_of(p, sizes, dt, rtb, start);
    &&& fighter_rand_ok(rand_of(p, sizes, start))
    &&& ends_fit(k)
    &&& ends_next(patched_group(g1, p, sizes, start), k) + index_count(p.act) + index_count(p.deact)
        + index_count(p.timer) < i32::MAX
}

fn switch_mcu(proto: &Il2Entity, next_id: &mut i32, name: &str, zone: i32) -> (r: Il2Entity)
    requires
        *old(next_id) + index_count(proto@) <= i32::MAX,
    ensures
        r@ == switch_of(proto@, *old(next_id) as int, name@, zone),
        *final(next_id) == *old(next_id) + index_count(proto@),
{
    let mut c = clone_next(proto, next_id, name);
    let ts = vec![zone];
    proof {
        assert(ts@ =~= seq![zone]);
    }
    c.set_targets(ts);
    let os: Vec<i32> = Vec::new();
    proof {
        assert(os@ =~= seq![]);
    }
    c.set_objects(os);
    c
}

fn delete_orders_mcu(timer: &Il2Entity, next_id: &mut i32, mission_end: i32) -> (r: Il2Entity)
    requires
        *old(next_id) + index_count(timer@) <= i32::MAX,
    ensures
        r@ == delete_orders_of(timer@, *old(next_id) as int, mission_end),
        *final(next_id) == *old(next_id) + index_count(timer@),
{
    let mut c = clone_next(timer, next_id, "Delete Orders");
    c.set_property("Time", "0.02");
    c.set_property("Random", "100");
    let ts = vec![mission_end];
    proof {
        assert(ts@ =~= seq![mission_end]);
    }
    c.set_targets(ts);
    c
}

fn group_named(name: &str, id: i32, children: Vec<Il2Entity>) -> (r: Il2Entity)
    ensures
        r@ == wrapper(name@, id as int, views(children@)),
{
    let mut w = Il2Entity::new("Group");
    w.index = Some(id);
    let t_id = crate::text::int_to_string(id as i64);
    w.set_property("Index", t_id.as_str());
    w.set_name(name);
    w.set_property("Desc", "\"\"");
    let ghost wv = views(children@);
    w.children = children;
    proof {
        lemma_children_model(w);
        assert(w@.children =~= wv);
    }
    w
}

fn target_one(id: i32) -> (r: EditOp)
    ensures
        r matches EditOp::Targets(v) && v@ == seq![id],
{
    let v = vec![id];
    proof {
        assert(v@ =~= seq![id]);
    }
    EditOp::Targets(v)
}

/// Rename the group and read its prototypes; the first free Index too.
fn prepare(group: &mut Il2Entity, sizes: &[usize], ct: &str, dt: &str) -> (r: Result<(Protos, i32), String>)
    requires
        covered(retimed(old(group)@, ct@, dt@), 0).1 <= usize::MAX,
        seats_before(sizes@, sizes@.len() as int) <= usize::MAX,
    ensures
        final(group)@ == renamed_group(old(group)@, ct@, dt@),
        match proto_error(final(group)@, sizes@) {
            Some(m) => r matches Err(x) && x@ == m,
            None => r matches Ok(ps) && {
                let p = ps.0;
                &&& protos_view(p) == protos_of(final(group)@)
                &&& ps.1 as int == first_free(final(group)@)
                &&& Some(p.spawn_id) == p.spawn@.index
                &&& Some(p.death_id) == p.death@.index
                &&& p.flights@.len() == sizes@.len()
                &&& forall|f: int|
                    0 <= f < sizes@.len() ==> (#[trigger] p.flights@[f]).entity_ids@ == flight_slice(
                        p.eids@,
                        sizes@,
                        f,
                    )
            },
        },
{
    retime(group, ct, dt);
    let p = match read_protos(group, sizes) {
        Ok(p) => p,
        Err(m) => return Err(m),
    };
    let m = group.max_index();
    let start: i32 = if m == i32::MAX { m } else { m + 1 };
    Ok((p, start))
}

/// What the building stage hands on.
pub struct Built {
    pub nodes: Vec<Il2Entity>,
    pub deaths: Vec<Il2Entity>,
    pub dids: Vec<i32>,
    pub input: i32,
    pub next_id: i32,
}

/// Build the spawners, DeathCounts and randomizer, relink the planes and
/// add their ends.
fn build_stage(
    group: &mut Il2Entity,
    p: &Protos,
    sizes: &[usize],
    start: i32,
    dt: &str,
    rtb: &Il2Entity,
) -> (r: Result<Built, String>)
    requires
        Some(p.spawn_id) == p.spawn@.index,
        Some(p.death_id) == p.death@.index,
        p.flights@.len() == sizes@.len(),
        forall|f: int| 0 <= f < sizes@.len() ==> (#[trigger] p.flights@[f]).entity_ids@ == flight_slice(p.eids@, sizes@, f),
        fighter_rand_ok(rand_of(protos_view(*p), sizes@, start as int)),
        ends_fit(kit_of(protos_view(*p), sizes@, dt@, rtb@, start as int)),
    ensures
        ({
            let pv = protos_view(*p);
            let fr = rand_of(pv, sizes@, start as int);
            let g2 = patched_group(old(group)@, pv, sizes@, start as int);
            let k = kit_of(pv, sizes@, dt@, rtb@, start as int);
            match k.error() {
                Some(m) => r matches Err(x) && x@ == m && final(group)@ == g2,
                None => r matches Ok(b) && {
                    &&& final(group)@ == plane_ends(g2, k)
                    &&& views(b.nodes@) == fr.nodes()
                    &&& views(b.deaths@) == Seq::new(sizes@.len(), |f: int| death_of(pv, sizes@, start as int, f))
                    &&& b.dids@ == death_ids(pv, sizes@, start as int)
                    &&& b.input as int == fr.start
                    &&& b.next_id as int == ends_next(g2, k)
                },
            }
        }),
{
    let ghost pv = protos_view(*p);
    let ghost fr = rand_of(pv, sizes@, start as int);
    proof {
        lemma_counts(fr);
        lemma_base_mono(fr, 0, fr.n());
    }
    let mut next_id = start;
    let (spawners, deaths, sids, dids, fls) = build_counters(p, sizes, &mut next_id);
    let input = next_id;
    let nodes = fighter_randomizer(&p.timer, &p.deact, &p.act, &spawners, &mut next_id, Ghost(fr));
    let patch = UnitPatch {
        flights: fls,
        deaths: crate::ast::copy_ids(&dids),
        spawns: sids,
        old_death: p.death_id,
        old_spawn: p.spawn_id,
    };
    proof {
        assert(super::edits::patch_view(patch) == unit_patch(pv, sizes@, start as int));
    }
    edit_first(group, "Units", EditOp::Patch(patch));
    match install_plane_ends(
        group,
        p.eids.as_slice(),
        sizes,
        dids.as_slice(),
        &p.force,
        &p.timer,
        &p.deact_units,
        rtb,
        p.mission_end,
        dt,
        &mut next_id,
    ) {
        Ok(()) => {},
        Err(m) => return Err(m),
    }
    Ok(Built { nodes, deaths, dids, input, next_id })
}

/// Rewire the triggers, prune and extend `Logic`, and hang the randomizer
/// under the group.
fn finish_stage(group: &mut Il2Entity, p: &Protos, b: Built, Ghost(sizes): Ghost<Seq<usize>>, Ghost(start): Ghost<int>)
    requires
        b.next_id + index_count(p.act@) + index_count(p.deact@) + index_count(p.timer@) < i32::MAX,
        views(b.deaths@) == Seq::new(sizes.len(), |f: int| death_of(protos_view(*p), sizes, start, f)),
        b.dids@ == death_ids(protos_view(*p), sizes, start),
    ensures
        final(group)@ == pack_tail(
            old(group)@,
            protos_view(*p),
            sizes,
            start,
            b.next_id as int,
            views(b.nodes@),
            b.input,
        ),
{
    let ghost pv = protos_view(*p);
    let ghost nx = b.next_id as int;
    let ghost nv = views(b.nodes@);
    let Built { nodes, deaths, dids, input, next_id } = b;
    let mut next_id = next_id;
    let enable = switch_mcu(&p.act, &mut next_id, "Enable Spawner", p.zone_in);
    let disable = switch_mcu(&p.deact, &mut next_id, "Disable Spawner", p.zone_in);
    let del = delete_orders_mcu(&p.timer, &mut next_id, p.mission_end);
    edit_first(group, "SPAWN UNITS", target_one(input));
    edit_first(group, "COOLDOWN", target_one(input));
    edit_first(group, "DeathCount ReActivate", EditOp::Targets(crate::ast::copy_ids(&dids)));
    edit_first(group, "DeathCount Deactivate", EditOp::Targets(crate::ast::copy_ids(&dids)));
    edit_first(group, "Modifier Set Value", EditOp::Targets(dids));
    let mut extra = deaths;
    extra.push(enable);
    extra.push(disable);
    extra.push(del);
    proof {
        assert(views(extra@) =~= logic_extra(pv, sizes, start, nx));
    }
    edit_first(group, "Logic", EditOp::PruneExtend(extra));
    let ghost g4 = group@;
    let w = group_named("Randomizer", next_id, nodes);
    let ghost gb = *group;
    group.children.push(w);
    proof {
        lemma_children_model(gb);
        lemma_children_model(*group);
        assert(group@.children =~= g4.children.push(w@));
    }
}

/// Wire Group 1 as a fighter pack for flights of `sizes`: rename and retime
/// its zone and order blocks, give each flight a spawner and a DeathCount,
/// build the randomizer over the spawners, relink the planes, add their
/// ends, and hang the randomizer under the group.
pub fn install_pack_logic(
    group: &mut Il2Entity,
    sizes: &[usize],
    cooldown_time: &str,
    delete_orders_time: &str,
    rtb_proto: &Il2Entity,
) -> (r: Result<(), String>)
    requires
        pack_logic_fits(old(group)@, sizes@, cooldown_time@, delete_orders_time@, rtb_proto@),
    ensures
        match pack_logic_error(old(group)@, sizes@, cooldown_time@, delete_orders_time@, rtb_proto@) {
            Some(e) => r matches Err(m) && m@ == e && final(group)@ == pack_logic_failed(
                old(group)@,
                sizes@,
                cooldown_time@,
                delete_orders_time@,
            ),
            None => r is Ok && final(group)@ == pack_logic(
                old(group)@,
                sizes@,
                cooldown_time@,
                delete_orders_time@,
                rtb_proto@,
            ),
        },
{
    let (p, start) = match prepare(group, sizes, cooldown_time, delete_orders_time) {
        Ok(ps) => ps,
        Err(m) => return Err(m),
    };
    let b = match build_stage(group, &p, sizes, start, delete_orders_time, rtb_proto) {
        Ok(b) => b,
        Err(m) => return Err(m),
    };
    finish_stage(group, &p, b, Ghost(sizes@), Ghost(start as int));
    Ok(())
}

} // verus!
