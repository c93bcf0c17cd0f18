//! Placing random ground units: every unit template is copied as often as
//! asked, each copy's own Mission Begin is silenced, and a Recon Randomizer
//! picks which copies come alive. Its waterfall fires, per group of copies,
//! one Random timer after another; the first that wins fires that copy's
//! start through an Out timer, closes the rest of its group, and keeps the
//! copy from being deleted. Copies that never win are deleted.


use vstd::prelude::*;
use crate::ast::{EntityModel, Il2Entity, find_named, lemma_children_model, max_index_of, name_of, nodes};
use crate::bombers::link::{find_block, first_of_type};
use crate::bombers::all_nodes;
use crate::bombers::link::{
    find_index, lemma_found_is_mapped, missing_id, named, plan_label, plan_label_text, synthesized, with_objects, with_prop,
    with_targets, wrapper,
};
use crate::duplicate::{duplicate_template, duplicated, id_map, index_count};
use crate::text::{dec_text, int_text, owned, push_dec, push_int, push_str, str_eq};
use crate::recon::{part_size, winners};

verus! {

broadcast use vstd::std_specs::hash::group_hash_axioms;

// ---------------------------------------------------------------------------
// The unit templates
// ---------------------------------------------------------------------------

/// A unit template and how many copies of it to place.
pub struct ReconInput {
    pub label: String,
    pub root: Il2Entity,
    /// The template's Zone IN checkzones.
    pub trigger_zone_ids: Vec<i32>,
    pub copies: usize,
}

/// `(label, template, Zone IN Indexes, copies)` of a unit template.
pub type UnitView = (Seq<char>, EntityModel, Seq<i32>, int);

pub open spec fn unit_view(p: ReconInput) -> UnitView {
    (p.label@, p.root@, p.trigger_zone_ids@, p.copies as int)
}

pub open spec fn units_view(ps: Seq<ReconInput>) -> Seq<UnitView> {
    ps.map_values(|p: ReconInput| unit_view(p))
}

/// Copies asked of the first `i` templates.
pub open spec fn copy_total(us: Seq<UnitView>, i: int) -> int
    decreases i,
{
    if i <= 0 || i > us.len() {
        0
    } else {
        copy_total(us, i - 1) + us[i - 1].3
    }
}

/// Why template number `i` (from 0) cannot be placed, if it cannot. A
/// template asked for no copies is never checked.
pub open spec fn unit_error(u: UnitView, i: int) -> Option<Seq<char>> {
    if u.3 == 0 {
        None
    } else if u.2.len() == 0 {
        Some(plan_label(i) + " needs a Zone IN selected"@)
    } else {
        match missing_id(u.1, u.2) {
            Some(id) => Some(plan_label(i) + " checkzone "@ + int_text(id as int) + " was not found"@),
            None => None,
        }
    }
}

/// The first template error from template `i` on.
pub open spec fn first_unit_error(us: Seq<UnitView>, i: int) -> Option<Seq<char>>
    decreases us.len() - i,
{
    if i < 0 || i >= us.len() {
        None
    } else {
        match unit_error(us[i], i) {
            Some(m) => Some(m),
            None => first_unit_error(us, i + 1),
        }
    }
}

proof fn lemma_copy_total_mono(us: Seq<UnitView>, i: int, j: int)
    requires
        0 <= i <= j <= us.len(),
        forall|k: int| 0 <= k < us.len() ==> (#[trigger] us[k]).3 >= 0,
    ensures
        0 <= copy_total(us, i) <= copy_total(us, j),
    decreases j,
{
    if j > i {
        lemma_copy_total_mono(us, i, j - 1);
    } else if i > 0 {
        lemma_copy_total_mono(us, 0, i - 1);
    }
}

fn total_copies(plans: &[ReconInput]) -> (r: usize)
    requires
        copy_total(units_view(plans@), plans@.len() as int) <= usize::MAX,
    ensures
        r as int == copy_total(units_view(plans@), plans@.len() as int),
{
    let ghost us = units_view(plans@);
    let mut n: usize = 0;
    let mut i: usize = 0;
    while i < plans.len()
        invariant
            i <= plans@.len(),
            us == units_view(plans@),
            us.len() == plans@.len(),
            n as int == copy_total(us, i as int),
            copy_total(us, plans@.len() as int) <= usize::MAX,
        decreases plans@.len() - i,
    {
        proof {
            assert(us[i as int].3 == plans@[i as int].copies);
            assert forall|k: int| 0 <= k < us.len() implies (#[trigger] us[k]).3 >= 0 by {
                assert(us[k].3 == plans@[k].copies);
            }
            lemma_copy_total_mono(us, i + 1, plans@.len() as int);
        }
        n = n + plans[i].copies;
        i = i + 1;
    }
    n
}

fn check_unit(p: &ReconInput, i: usize) -> (r: Option<String>)
    requires
        i < usize::MAX,
    ensures
        match unit_error(unit_view(*p), i as int) {
            Some(m) => r matches Some(x) && x@ == m,
            None => r is None,
        },
{
    if p.copies == 0 {
        return None;
    }
    if p.trigger_zone_ids.len() == 0 {
        let mut s = plan_label_text(i);
        push_str(&mut s, " needs a Zone IN selected");
        return Some(s);
    }
    let ghost ids = p.trigger_zone_ids@;
    let mut k: usize = 0;
    proof {
        assert(ids.skip(0) =~= ids);
    }
    while k < p.trigger_zone_ids.len()
        invariant
            k <= ids.len(),
            ids == p.trigger_zone_ids@,
            missing_id(p.root@, ids) == missing_id(p.root@, ids.skip(k as int)),
            i < usize::MAX,
            ids.len() > 0,
            p.copies > 0,
        decreases ids.len() - k,
    {
        let id = p.trigger_zone_ids[k];
        let ghost rest = ids.skip(k as int);
        assert(rest[0] == id);
        if find_index(&p.root, id).is_none() {
            let mut s = plan_label_text(i);
            push_str(&mut s, " checkzone ");
            push_int(&mut s, id as i64);
            push_str(&mut s, " was not found");
            return Some(s);
        }
        proof {
            assert(rest.drop_first() =~= ids.skip(k + 1));
        }
        k = k + 1;
    }
    proof {
        assert(ids.skip(k as int) =~= Seq::<i32>::empty());
    }
    None
}

fn check_units(plans: &[ReconInput]) -> (r: Option<String>)
    ensures
        match first_unit_error(units_view(plans@), 0) {
            Some(m) => r matches Some(x) && x@ == m,
            None => r is None,
        },
{
    let ghost us = units_view(plans@);
    let mut i: usize = 0;
    while i < plans.len()
        invariant
            i <= plans@.len(),
            us == units_view(plans@),
            first_unit_error(us, 0) == first_unit_error(us, i as int),
        decreases plans@.len() - i,
    {
        assert(us[i as int] == unit_view(plans@[i as int]));
        match check_unit(&plans[i], i) {
            Some(m) => return Some(m),
            None => {},
        }
        i = i + 1;
    }
    None
}

/// Highest `Index` among the templates from `i` on (0 when none).
pub open spec fn max_unit_root(us: Seq<UnitView>, i: int) -> int
    decreases us.len() - i,
{
    if i < 0 || i >= us.len() {
        0
    } else {
        let a = max_index_of(us[i].1);
        let b = max_unit_root(us, i + 1);
        if a >= b {
            a
        } else {
            b
        }
    }
}

/// First index handed out: one past every template's highest (saturating).
pub open spec fn first_unit_id(us: Seq<UnitView>) -> int {
    if max_unit_root(us, 0) >= i32::MAX {
        i32::MAX as int
    } else {
        max_unit_root(us, 0) + 1
    }
}

fn first_free_unit_id(plans: &[ReconInput]) -> (r: i32)
    ensures
        r as int == first_unit_id(units_view(plans@)),
{
    let ghost us = units_view(plans@);
    let mut acc: i32 = 0;
    let mut i: usize = plans.len();
    while i > 0
        invariant
            i <= plans@.len(),
            us == units_view(plans@),
            acc as int == max_unit_root(us, i as int),
        decreases i,
    {
        i = i - 1;
        assert(us[i as int].1 == plans@[i as int].root@);
        let m = plans[i].root.max_index();
        if m >= acc {
            acc = m;
        }
    }
    if acc == i32::MAX {
        acc
    } else {
        acc + 1
    }
}

// ---------------------------------------------------------------------------
// The copies
// ---------------------------------------------------------------------------

/// `(template, copy number within it)` of every copy of the first `i`
/// templates, in order.
pub open spec fn slots(us: Seq<UnitView>, i: int) -> Seq<(int, int)>
    decreases i,
{
    if i <= 0 || i > us.len() {
        seq![]
    } else {
        slots(us, i - 1) + Seq::new(us[i - 1].3 as nat, |k: int| (i - 1, k))
    }
}

pub open spec fn all_slots(us: Seq<UnitView>) -> Seq<(int, int)> {
    slots(us, us.len() as int)
}

/// Indexes taken by the first `s` copies.
pub open spec fn ids_before(us: Seq<UnitView>, sl: Seq<(int, int)>, s: int) -> int
    decreases s,
{
    if s <= 0 || s > sl.len() {
        0
    } else {
        ids_before(us, sl, s - 1) + index_count(us[sl[s - 1].0].1)
    }
}

/// First Index of copy `s`.
pub open spec fn slot_at(us: Seq<UnitView>, s: int) -> int {
    first_unit_id(us) + ids_before(us, all_slots(us), s)
}

/// Name of copy `s` of template `u`: the template's name (or its label)
/// and ` [s + 1]`.
pub open spec fn copy_label(u: UnitView, s: int) -> Seq<char> {
    (match name_of(u.1) {
        Some(n) => n,
        None => u.0,
    }) + " ["@ + dec_text((s + 1) as nat) + "]"@
}

/// `e` with every Mission Begin disabled and firing nothing.
pub open spec fn silenced(e: EntityModel) -> EntityModel
    decreases e,
{
    let here = if e.block_type == "MCU_TR_MissionBegin"@ {
        with_targets(with_prop(e, "Enabled"@, "0"@), seq![])
    } else {
        e
    };
    EntityModel {
        children: Seq::new(
            e.children.len(),
            |i: int|
                if 0 <= i < e.children.len() {
                    silenced(e.children[i])
                } else {
                    arbitrary()
                },
        ),
        ..here
    }
}

/// `acc` with those of `ts` it lacks appended, in order.
pub open spec fn add_new(acc: Seq<i32>, ts: Seq<i32>) -> Seq<i32>
    decreases ts.len(),
{
    if ts.len() == 0 {
        acc
    } else {
        let a = add_new(acc, ts.drop_last());
        if a.contains(ts.last()) {
            a
        } else {
            a.push(ts.last())
        }
    }
}

/// The targets of the Mission Begins among `ns`, each once.
pub open spec fn begin_targets(ns: Seq<EntityModel>) -> Seq<i32>
    decreases ns.len(),
{
    if ns.len() == 0 {
        seq![]
    } else {
        let a = begin_targets(ns.drop_last());
        if ns.last().block_type == "MCU_TR_MissionBegin"@ {
            add_new(a, ns.last().targets)
        } else {
            a
        }
    }
}

/// What a won copy fires: its Mission Begin targets; else its `ENABLE /
/// PULSE IN` block; else its Zone IN checkzones (through `m`).
pub open spec fn wins_of(d: EntityModel, trig: Seq<i32>, m: Map<i32, i32>) -> Seq<i32> {
    let b = begin_targets(nodes(d));
    let zones = trig.map_values(|id: i32| m[id]);
    if b.len() > 0 {
        b
    } else {
        match find_named(d, "ENABLE / PULSE IN"@) {
            Some(x) => match x.index {
                Some(i) => seq![i],
                None => zones,
            },
            None => zones,
        }
    }
}

/// Blocks that stand in the world and are deleted with a copy.
pub open spec fn world_type(t: Seq<char>) -> bool {
    t == "Vehicle"@ || t == "Ship"@ || t == "Plane"@ || t == "Block"@ || t == "MCU_TR_Entity"@
}

/// Indexes of the world blocks among `ns`, in order.
pub open spec fn world_ids(ns: Seq<EntityModel>) -> Seq<i32>
    decreases ns.len(),
{
    if ns.len() == 0 {
        seq![]
    } else {
        let a = world_ids(ns.drop_last());
        if world_type(ns.last().block_type) && ns.last().index is Some {
            a.push(ns.last().index->0)
        } else {
            a
        }
    }
}

/// Copy `s` of template `u`, indexed from `at`: silenced and renamed.
pub open spec fn unit_copy(u: UnitView, at: int, s: int) -> EntityModel {
    named(silenced(duplicated(u.1, at)), copy_label(u, s))
}

/// What copy of template `u` indexed from `at` fires on a win.
pub open spec fn unit_wins(u: UnitView, at: int) -> Seq<i32> {
    wins_of(duplicated(u.1, at), u.2, id_map(u.1, at))
}

/// Copy `s` of the placed pack.
pub open spec fn placed_unit(us: Seq<UnitView>, s: int) -> EntityModel {
    unit_copy(us[all_slots(us)[s].0], slot_at(us, s), s)
}

pub open spec fn slot_wins(us: Seq<UnitView>, s: int) -> Seq<i32> {
    unit_wins(us[all_slots(us)[s].0], slot_at(us, s))
}

pub open spec fn slot_worlds(us: Seq<UnitView>, s: int) -> Seq<i32> {
    world_ids(nodes(placed_unit(us, s)))
}

fn begin_targets_vec(e: &Il2Entity) -> (r: Vec<i32>)
    ensures
        r@ == begin_targets(nodes(e@)),
{
    let ns = all_nodes(e);
    let ghost m = nodes(e@);
    let mut out: Vec<i32> = Vec::new();
    let mut i: usize = 0;
    while i < ns.len()
        invariant
            i <= ns@.len(),
            m == nodes(e@),
            ns@.len() == m.len(),
            forall|p: int| 0 <= p < ns@.len() ==> #[trigger] ns@[p]@ == m[p],
            out@ == begin_targets(m.take(i as int)),
        decreases ns@.len() - i,
    {
        let x = ns[i];
        proof {
            assert(m.take(i + 1).drop_last() =~= m.take(i as int));
            assert(m.take(i + 1).last() == x@);
        }
        if str_eq(x.block_type.as_str(), "MCU_TR_MissionBegin") {
            let ghost acc = out@;
            let mut k: usize = 0;
            while k < x.targets.len()
                invariant
                    k <= x.targets@.len(),
                    out@ == add_new(acc, x.targets@.take(k as int)),
                decreases x.targets@.len() - k,
            {
                let t = x.targets[k];
                proof {
                    assert(x.targets@.take(k + 1).drop_last() =~= x.targets@.take(k as int));
                    assert(x.targets@.take(k + 1).last() == t);
                }
                let mut seen = false;
                let mut j: usize = 0;
                while j < out.len()
                    invariant
                        j <= out@.len(),
                        seen <==> exists|q: int| 0 <= q < j && out@[q] == t,
                    decreases out@.len() - j,
                {
                    if out[j] == t {
                        seen = true;
                    }
                    j = j + 1;
                }
                if !seen {
                    out.push(t);
                }
                k = k + 1;
            }
            proof {
                assert(x.targets@.take(k as int) =~= x@.targets);
            }
        }
        i = i + 1;
    }
    proof {
        assert(m.take(i as int) =~= m);
    }
    out
}

fn pulse_index(e: &Il2Entity) -> (r: Option<i32>)
    ensures
        r == (match find_named(e@, "ENABLE / PULSE IN"@) {
            Some(x) => x.index,
            None => None,
        }),
{
    match e.find_by_name("ENABLE / PULSE IN") {
        Some(x) => x.index,
        None => None,
    }
}

fn silence(e: &Il2Entity) -> (r: Il2Entity)
    ensures
        r@ == silenced(e@),
    decreases e,
{
    let mut n = e.deep_copy();
    let mut kids: Vec<Il2Entity> = Vec::new();
    proof {
        lemma_children_model(*e);
    }
    let mut i: usize = 0;
    while i < e.children.len()
        invariant
            i <= e.children@.len(),
            kids@.len() == i,
            forall|j: int| 0 <= j < i ==> #[trigger] kids@[j]@ == silenced(e.children@[j]@),
        decreases e.children@.len() - i,
    {
        proof {
            assert(decreases_to!(*e => e.children));
            assert(decreases_to!(e.children => e.children@));
            assert(decreases_to!(e.children@ => e.children@[i as int]));
        }
        kids.push(silence(&e.children[i]));
        i = i + 1;
    }
    if str_eq(e.block_type.as_str(), "MCU_TR_MissionBegin") {
        n.set_property("Enabled", "0");
        let none: Vec<i32> = Vec::new();
        proof {
            assert(none@ =~= Seq::<i32>::empty());
        }
        n.set_targets(none);
    }
    n.children = kids;
    proof {
        lemma_children_model(n);
        assert(n@.children =~= silenced(e@).children);
    }
    n
}

fn world_type_str(t: &str) -> (r: bool)
    ensures
        r == world_type(t@),
{
    str_eq(t, "Vehicle") || str_eq(t, "Ship") || str_eq(t, "Plane") || str_eq(t, "Block") || str_eq(t, "MCU_TR_Entity")
}

fn world_ids_vec(e: &Il2Entity) -> (r: Vec<i32>)
    ensures
        r@ == world_ids(nodes(e@)),
{
    let ns = all_nodes(e);
    let ghost m = nodes(e@);
    let mut out: Vec<i32> = Vec::new();
    let mut i: usize = 0;
    while i < ns.len()
        invariant
            i <= ns@.len(),
            m == nodes(e@),
            ns@.len() == m.len(),
            forall|p: int| 0 <= p < ns@.len() ==> #[trigger] ns@[p]@ == m[p],
            out@ == world_ids(m.take(i as int)),
        decreases ns@.len() - i,
    {
        let x = ns[i];
        proof {
            assert(m.take(i + 1).drop_last() =~= m.take(i as int));
            assert(m.take(i + 1).last() == x@);
        }
        if world_type_str(x.block_type.as_str()) {
            match x.index {
                Some(id) => out.push(id),
                None => {},
            }
        }
        i = i + 1;
    }
    proof {
        assert(m.take(i as int) =~= m);
    }
    out
}

fn copy_label_text(p: &ReconInput, s: usize) -> (r: String)
    requires
        s < usize::MAX,
    ensures
        r@ == copy_label(unit_view(*p), s as int),
{
    let mut t = match p.root.name() {
        Some(n) => owned(n),
        None => p.label.clone(),
    };
    push_str(&mut t, " [");
    push_dec(&mut t, (s + 1) as u64);
    push_str(&mut t, "]");
    t
}

/// Copy `s` of template `p`, indexed from `*next_id`: the copy, what it fires
/// on a win, and its world blocks.
fn place_copy(p: &ReconInput, s: usize, next_id: &mut i32) -> (r: (Il2Entity, Vec<i32>, Vec<i32>))
    requires
        s < usize::MAX,
        p.trigger_zone_ids@.len() > 0,
        missing_id(p.root@, p.trigger_zone_ids@) is None,
        *old(next_id) + index_count(p.root@) <= i32::MAX,
    ensures
        r.0@ == unit_copy(unit_view(*p), *old(next_id) as int, s as int),
        r.1@ == unit_wins(unit_view(*p), *old(next_id) as int),
        r.1@.len() > 0,
        r.2@ == world_ids(nodes(r.0@)),
        *final(next_id) == *old(next_id) + index_count(p.root@),
{
    let ghost start = *next_id as int;
    let (clone, map) = duplicate_template(&p.root, next_id);
    let ghost d = clone@;
    let ghost m = id_map(p.root@, start);
    let mut wins = begin_targets_vec(&clone);
    if wins.len() == 0 {
        match pulse_index(&clone) {
            Some(id) => wins.push(id),
            None => {},
        }
    }
    if wins.len() == 0 {
        let ghost ids = p.trigger_zone_ids@;
        let mut k: usize = 0;
        while k < p.trigger_zone_ids.len()
            invariant
                k <= ids.len(),
                ids == p.trigger_zone_ids@,
                map@ == m,
                m == id_map(p.root@, start),
                missing_id(p.root@, ids) is None,
                wins@ == ids.take(k as int).map_values(|id: i32| m[id]),
            decreases ids.len() - k,
        {
            let id = p.trigger_zone_ids[k];
            proof {
                lemma_missing_none_found(p.root@, ids, k as int);
                lemma_found_is_mapped(p.root@, id, start);
            }
            match map.get(&id) {
                Some(v) => {
                    wins.push(*v);
                },
                None => {},
            }
            proof {
                assert(ids.take(k + 1) =~= ids.take(k as int).push(id));
                assert(wins@ =~= ids.take(k + 1).map_values(|id: i32| m[id]));
            }
            k = k + 1;
        }
        proof {
            assert(ids.take(k as int) =~= ids);
        }
    }
    let mut placed = silence(&clone);
    let name = copy_label_text(p, s);
    placed.set_name(name.as_str());
    let worlds = world_ids_vec(&placed);
    (placed, wins, worlds)
}

proof fn lemma_missing_none_found(root: EntityModel, ids: Seq<i32>, k: int)
    requires
        missing_id(root, ids) is None,
        0 <= k < ids.len(),
    ensures
        crate::bombers::find_idx(root, ids[k]) is Some,
    decreases ids.len(),
{
    if k > 0 {
        lemma_missing_none_found(root, ids.drop_first(), k - 1);
        assert(ids.drop_first()[k - 1] == ids[k]);
    }
}

pub open spec fn counts_nonneg(us: Seq<UnitView>) -> bool {
    forall|k: int| 0 <= k < us.len() ==> (#[trigger] us[k]).3 >= 0
}

proof fn lemma_slots_len(us: Seq<UnitView>, i: int)
    requires
        counts_nonneg(us),
        0 <= i <= us.len(),
    ensures
        slots(us, i).len() == copy_total(us, i),
    decreases i,
{
    if i > 0 {
        lemma_slots_len(us, i - 1);
        assert(us[i - 1].3 >= 0);
    }
}

proof fn lemma_slots_prefix(us: Seq<UnitView>, i: int, j: int, q: int)
    requires
        counts_nonneg(us),
        0 <= i <= j <= us.len(),
        0 <= q < slots(us, i).len(),
    ensures
        slots(us, j)[q] == slots(us, i)[q],
    decreases j,
{
    if j > i {
        lemma_slots_prefix(us, i, j - 1, q);
        lemma_slots_len(us, i);
        lemma_slots_len(us, j - 1);
        lemma_copy_total_mono(us, i, j - 1);
    }
}

/// Copy `k` of template `u` is copy number `copy_total(us, u) + k`.
proof fn lemma_slot_entry(us: Seq<UnitView>, u: int, k: int)
    requires
        counts_nonneg(us),
        0 <= u < us.len(),
        0 <= k < us[u].3,
    ensures
        all_slots(us).len() == copy_total(us, us.len() as int),
        all_slots(us)[copy_total(us, u) + k] == (u, k),
{
    lemma_slots_len(us, u);
    lemma_slots_len(us, u + 1);
    lemma_slots_len(us, us.len() as int);
    lemma_slots_prefix(us, u + 1, us.len() as int, copy_total(us, u) + k);
}

proof fn lemma_ids_before_mono(us: Seq<UnitView>, sl: Seq<(int, int)>, s: int, t: int)
    requires
        0 <= s <= t <= sl.len(),
    ensures
        ids_before(us, sl, s) <= ids_before(us, sl, t),
    decreases t,
{
    if t > s {
        lemma_ids_before_mono(us, sl, s, t - 1);
        assert(index_count(us[sl[t - 1].0].1) >= 0);
    }
}

/// Every copy of every template, in order, indexed from `*next_id`.
fn place_copies(plans: &[ReconInput], next_id: &mut i32) -> (r: (Vec<Il2Entity>, Vec<Vec<i32>>, Vec<Vec<i32>>))
    requires
        first_unit_error(units_view(plans@), 0) is None,
        *old(next_id) == first_unit_id(units_view(plans@)),
        copy_total(units_view(plans@), plans@.len() as int) < usize::MAX,
        slot_at(units_view(plans@), copy_total(units_view(plans@), plans@.len() as int)) <= i32::MAX,
    ensures
        ({
            let us = units_view(plans@);
            let n = copy_total(us, us.len() as int);
            &&& r.0@.len() == n
            &&& r.1@.len() == n
            &&& r.2@.len() == n
            &&& forall|s: int| 0 <= s < n ==> #[trigger] r.0@[s]@ == placed_unit(us, s)
            &&& forall|s: int| 0 <= s < n ==> #[trigger] r.1@[s]@ == slot_wins(us, s) && r.1@[s]@.len() > 0
            &&& forall|s: int| 0 <= s < n ==> #[trigger] r.2@[s]@ == slot_worlds(us, s)
            &&& *final(next_id) == slot_at(us, n)
        }),
{
    let ghost us = units_view(plans@);
    let ghost total = copy_total(us, us.len() as int);
    proof {
        assert forall|k: int| 0 <= k < us.len() implies (#[trigger] us[k]).3 >= 0 by {
            assert(us[k].3 == plans@[k].copies);
        }
        lemma_slots_len(us, us.len() as int);
    }
    let mut copies: Vec<Il2Entity> = Vec::new();
    let mut wins: Vec<Vec<i32>> = Vec::new();
    let mut worlds: Vec<Vec<i32>> = Vec::new();
    let mut s: usize = 0;
    let mut u: usize = 0;
    while u < plans.len()
        invariant
            u <= plans@.len(),
            us == units_view(plans@),
            us.len() == plans@.len(),
            counts_nonneg(us),
            total == copy_total(us, us.len() as int),
            total < usize::MAX,
            all_slots(us).len() == total,
            slot_at(us, total) <= i32::MAX,
            first_unit_error(us, 0) is None,
            first_unit_error(us, u as int) is None,
            s as int == copy_total(us, u as int),
            *next_id == slot_at(us, s as int),
            copies@.len() == s,
            wins@.len() == s,
            worlds@.len() == s,
            forall|q: int| 0 <= q < s ==> #[trigger] copies@[q]@ == placed_unit(us, q),
            forall|q: int| 0 <= q < s ==> #[trigger] wins@[q]@ == slot_wins(us, q) && wins@[q]@.len() > 0,
            forall|q: int| 0 <= q < s ==> #[trigger] worlds@[q]@ == slot_worlds(us, q),
        decreases plans@.len() - u,
    {
        let p = &plans[u];
        proof {
            assert(us[u as int] == unit_view(plans@[u as int]));
            lemma_copy_total_mono(us, u + 1, us.len() as int);
        }
        let mut k: usize = 0;
        while k < p.copies
            invariant
                k <= p.copies,
                *p == plans@[u as int],
                u < plans@.len(),
                us == units_view(plans@),
                us.len() == plans@.len(),
                us[u as int] == unit_view(*p),
                counts_nonneg(us),
                total == copy_total(us, us.len() as int),
                total < usize::MAX,
                all_slots(us).len() == total,
                slot_at(us, total) <= i32::MAX,
                first_unit_error(us, u as int) is None,
                copy_total(us, u as int + 1) <= total,
                s as int == copy_total(us, u as int) + k,
                *next_id == slot_at(us, s as int),
                copies@.len() == s,
                wins@.len() == s,
                worlds@.len() == s,
                forall|q: int| 0 <= q < s ==> #[trigger] copies@[q]@ == placed_unit(us, q),
                forall|q: int| 0 <= q < s ==> #[trigger] wins@[q]@ == slot_wins(us, q) && wins@[q]@.len() > 0,
                forall|q: int| 0 <= q < s ==> #[trigger] worlds@[q]@ == slot_worlds(us, q),
            decreases p.copies - k,
        {
            proof {
                lemma_slot_entry(us, u as int, k as int);
                assert(all_slots(us)[s as int] == (u as int, k as int));
                assert(ids_before(us, all_slots(us), s + 1) == ids_before(us, all_slots(us), s as int) + index_count(p.root@));
                lemma_ids_before_mono(us, all_slots(us), s + 1, total);
                assert(unit_error(us[u as int], u as int) is None);
            }
            let (c, w, o) = place_copy(p, s, next_id);
            copies.push(c);
            wins.push(w);
            worlds.push(o);
            s = s + 1;
            k = k + 1;
        }
        u = u + 1;
    }
    (copies, wins, worlds)
}

// ---------------------------------------------------------------------------
// Waterfall groups
// ---------------------------------------------------------------------------

/// `(position in group, group size)` of the copies in the first `g` groups
/// when `n` copies are split into `min(k, n)` groups.
pub open spec fn group_layout(n: int, k: int, g: int) -> Seq<(int, int)>
    decreases g,
{
    if g <= 0 {
        seq![]
    } else {
        group_layout(n, k, g - 1) + Seq::new(part_size(n, k, g - 1) as nat, |l: int| (l, part_size(n, k, g - 1)))
    }
}

/// Groups of the `n` copies of one template: as many as must win.
pub open spec fn unit_layout(n: int, pct: int) -> Seq<(int, int)> {
    let k = winners(n, pct);
    group_layout(n, k, if k < n { k } else { n })
}

/// Templates with copies among the first `i`.
pub open spec fn chain_count(us: Seq<UnitView>, i: int) -> int
    decreases i,
{
    if i <= 0 || i > us.len() {
        0
    } else {
        chain_count(us, i - 1) + if us[i - 1].3 > 0 { 1int } else { 0int }
    }
}

/// `(chain, position in group, group size)` of every copy of the first `i`
/// templates; each template with copies is a chain of its own.
pub open spec fn layout(us: Seq<UnitView>, pct: int, i: int) -> Seq<(int, int, int)>
    decreases i,
{
    if i <= 0 || i > us.len() {
        seq![]
    } else {
        let g = unit_layout(us[i - 1].3, pct);
        let t = chain_count(us, i - 1);
        layout(us, pct, i - 1) + Seq::new(g.len(), |j: int| (t, g[j].0, g[j].1))
    }
}

pub open spec fn lay_view(v: Seq<(usize, usize, usize)>) -> Seq<(int, int, int)> {
    Seq::new(v.len(), |i: int| (v[i].0 as int, v[i].1 as int, v[i].2 as int))
}

/// Every copy sits in a group whose later members follow it.
pub open spec fn groups_fit(lay: Seq<(int, int, int)>) -> bool {
    forall|i: int|
        0 <= i < lay.len() ==> 0 <= (#[trigger] lay[i]).1 < lay[i].2 && i + (lay[i].2 - lay[i].1) <= lay.len()
}

proof fn lemma_group_layout(n: int, k: int, g: int)
    requires
        n >= 1,
        k >= 1,
        0 <= g <= (if k < n { k } else { n }),
    ensures
        ({
            let kk = if k < n { k } else { n };
            group_layout(n, k, g).len() == g * (n / kk) + (if g < n % kk { g } else { n % kk })
        }),
        forall|p: int|
            0 <= p < group_layout(n, k, g).len() ==> 0 <= (#[trigger] group_layout(n, k, g)[p]).0 < group_layout(
                n,
                k,
                g,
            )[p].1 && p + (group_layout(n, k, g)[p].1 - group_layout(n, k, g)[p].0) <= group_layout(n, k, g).len(),
    decreases g,
{
    let kk = if k < n { k } else { n };
    if g > 0 {
        lemma_group_layout(n, k, g - 1);
        let prev = group_layout(n, k, g - 1);
        let sz = part_size(n, k, g - 1);
        assert(n / kk >= 1) by (nonlinear_arith)
            requires
                1 <= kk <= n,
        ;
        assert(sz >= 1);
        let cur = group_layout(n, k, g);
        assert forall|p: int| 0 <= p < cur.len() implies 0 <= (#[trigger] cur[p]).0 < cur[p].1 && p + (cur[p].1
            - cur[p].0) <= cur.len() by {
            if p < prev.len() {
                assert(cur[p] == prev[p]);
            } else {
                assert(cur[p] == (p - prev.len(), sz));
            }
        }
        assert((g - 1) * (n / kk) + n / kk == g * (n / kk)) by (nonlinear_arith);
    }
}

proof fn lemma_unit_layout(n: int, pct: int)
    requires
        n >= 0,
        1 <= pct <= 100,
    ensures
        unit_layout(n, pct).len() == n,
        groups_fit(Seq::new(unit_layout(n, pct).len(), |j: int| (0int, unit_layout(n, pct)[j].0, unit_layout(n, pct)[j].1))),
{
    let k = winners(n, pct);
    let ul = unit_layout(n, pct);
    let sq = Seq::new(ul.len(), |j: int| (0int, ul[j].0, ul[j].1));
    if n == 0 {
        assert(ul.len() == 0);
    } else {
        let kk = if k < n { k } else { n };
        lemma_group_layout(n, k, kk);
        assert(kk * (n / kk) + n % kk == n) by (nonlinear_arith)
            requires
                kk >= 1,
        ;
        assert(n % kk < kk) by (nonlinear_arith)
            requires
                kk >= 1,
        ;
        assert forall|i: int| 0 <= i < sq.len() implies 0 <= (#[trigger] sq[i]).1 < sq[i].2 && i + (sq[i].2
            - sq[i].1) <= sq.len() by {
            assert(sq[i].1 == ul[i].0 && sq[i].2 == ul[i].1);
        }
    }
}

proof fn lemma_layout(us: Seq<UnitView>, pct: int, i: int)
    requires
        counts_nonneg(us),
        1 <= pct <= 100,
        0 <= i <= us.len(),
    ensures
        layout(us, pct, i).len() == copy_total(us, i),
        groups_fit(layout(us, pct, i)),
        forall|j: int| 0 <= j < layout(us, pct, i).len() ==> 0 <= (#[trigger] layout(us, pct, i)[j]).0 < chain_count(us, i),
        chain_count(us, i) <= i,
        chain_count(us, i) >= 0,
    decreases i,
{
    if i > 0 {
        lemma_layout(us, pct, i - 1);
        assert(us[i - 1].3 >= 0);
        lemma_unit_layout(us[i - 1].3, pct);
        let prev = layout(us, pct, i - 1);
        let ul = unit_layout(us[i - 1].3, pct);
        let t = chain_count(us, i - 1);
        let cur = layout(us, pct, i);
        let sq = Seq::new(ul.len(), |j: int| (0int, ul[j].0, ul[j].1));
        assert forall|j: int| 0 <= j < cur.len() implies 0 <= (#[trigger] cur[j]).1 < cur[j].2 && j + (cur[j].2
            - cur[j].1) <= cur.len() by {
            if j < prev.len() {
                assert(cur[j] == prev[j]);
            } else {
                assert(cur[j] == (t, ul[j - prev.len()].0, ul[j - prev.len()].1));
                assert(sq[j - prev.len()].1 == ul[j - prev.len()].0);
            }
        }
        assert forall|j: int| 0 <= j < cur.len() implies 0 <= (#[trigger] cur[j]).0 < chain_count(us, i) by {
            if j < prev.len() {
                assert(cur[j] == prev[j]);
            } else {
                assert(cur[j].0 == t);
                assert(ul.len() > 0);
            }
        }
    }
}

/// The waterfall layout of the copies, and the number of chains.
fn copy_layout(plans: &[ReconInput], pct: u32) -> (r: (Vec<(usize, usize, usize)>, usize))
    requires
        1 <= pct <= 100,
        copy_total(units_view(plans@), plans@.len() as int) * 100 + 50 <= usize::MAX,
    ensures
        lay_view(r.0@) == layout(units_view(plans@), pct as int, plans@.len() as int),
        r.1 as int == chain_count(units_view(plans@), plans@.len() as int),
{
    let ghost us = units_view(plans@);
    proof {
        assert forall|k: int| 0 <= k < us.len() implies (#[trigger] us[k]).3 >= 0 by {
            assert(us[k].3 == plans@[k].copies);
        }
    }
    let mut out: Vec<(usize, usize, usize)> = Vec::new();
    let mut t: usize = 0;
    let mut u: usize = 0;
    while u < plans.len()
        invariant
            u <= plans@.len(),
            us == units_view(plans@),
            us.len() == plans@.len(),
            counts_nonneg(us),
            1 <= pct <= 100,
            copy_total(us, us.len() as int) * 100 + 50 <= usize::MAX,
            lay_view(out@) == layout(us, pct as int, u as int),
            t as int == chain_count(us, u as int),
            t <= u,
        decreases plans@.len() - u,
    {
        let n = plans[u].copies;
        proof {
            assert(us[u as int].3 == n);
            lemma_copy_total_mono(us, u + 1, us.len() as int);
            lemma_copy_total_mono(us, u as int, u + 1);
            lemma_layout(us, pct as int, u as int);
            lemma_unit_layout(n as int, pct as int);
        }
        let ghost base = out@;
        let ghost ul = unit_layout(n as int, pct as int);
        if n > 0 {
            proof {
                assert(n <= copy_total(us, us.len() as int));
                assert(n * pct <= copy_total(us, us.len() as int) * 100) by (nonlinear_arith)
                    requires
                        n <= copy_total(us, us.len() as int),
                        pct <= 100,
                ;
            }
            let k = crate::recon::wanted_winners(n, pct);
            let sizes = crate::recon::partition_sizes(n, k);
            let ghost kk = if k < n { k } else { n };
            proof {
                assert(k >= 1);
                assert(sizes@.len() == kk);
                assert(group_layout(n as int, k as int, 0) =~= Seq::<(int, int)>::empty());
                assert(lay_view(out@) =~= lay_view(base) + Seq::new(group_layout(n as int, k as int, 0).len(), |j: int| (t as int, group_layout(n as int, k as int, 0)[j].0, group_layout(n as int, k as int, 0)[j].1)));
            }
            let mut g: usize = 0;
            while g < sizes.len()
                invariant
                    g <= sizes@.len(),
                    sizes@.len() == kk,
                    kk == (if k < n { k } else { n }),
                    k >= 1,
                    n >= 1,
                    forall|q: int| 0 <= q < sizes@.len() ==> #[trigger] sizes@[q] as int == part_size(n as int, k as int, q),
                    lay_view(out@) == lay_view(base) + Seq::new(group_layout(n as int, k as int, g as int).len(), |j: int| (t as int, group_layout(n as int, k as int, g as int)[j].0, group_layout(n as int, k as int, g as int)[j].1)),
                decreases sizes@.len() - g,
            {
                let sz = sizes[g];
                let ghost before = out@;
                let mut l: usize = 0;
                while l < sz
                    invariant
                        l <= sz,
                        lay_view(out@) == lay_view(before) + Seq::new(l as nat, |j: int| (t as int, j, sz as int)),
                    decreases sz - l,
                {
                    let ghost o = out@;
                    out.push((t, l, sz));
                    proof {
                        assert(lay_view(out@) =~= lay_view(o).push((t as int, l as int, sz as int)));
                        assert(lay_view(out@) =~= lay_view(before) + Seq::new((l + 1) as nat, |j: int| (t as int, j, sz as int)));
                    }
                    l = l + 1;
                }
                proof {
                    let gl0 = group_layout(n as int, k as int, g as int);
                    let gl1 = group_layout(n as int, k as int, g + 1);
                    assert(gl1 == gl0 + Seq::new(sz as nat, |j: int| (j, sz as int)));
                    assert(lay_view(out@) =~= lay_view(base) + Seq::new(gl1.len(), |j: int| (t as int, gl1[j].0, gl1[j].1)));
                }
                g = g + 1;
            }
            t = t + 1;
        } else {
            proof {
                assert(ul =~= Seq::<(int, int)>::empty());
            }
        }
        proof {
            assert(lay_view(out@) =~= layout(us, pct as int, u + 1));
        }
        u = u + 1;
    }
    (out, t)
}

// ---------------------------------------------------------------------------
// The Recon Randomizer
// ---------------------------------------------------------------------------

/// A time in seconds as the editor writes it, from whole milliseconds that
/// are a multiple of 100: `2`, `0.5`, `1.5`.
pub open spec fn time_text(ms: int) -> Seq<char> {
    if ms % 1000 == 0 {
        dec_text((ms / 1000) as nat)
    } else {
        dec_text((ms / 1000) as nat) + "."@ + dec_text(((ms % 1000) / 100) as nat)
    }
}

/// A timer cloned from `p` with Index `at`, renamed, with `Time` and
/// `Random` set and no objects.
pub open spec fn timer_mcu(p: EntityModel, at: int, name: Seq<char>, time: Seq<char>, random: Seq<char>) -> EntityModel {
    with_objects(with_prop(with_prop(named(duplicated(p, at), name), "Time"@, time), "Random"@, random), seq![])
}

/// A block cloned from `p` (or a fresh one of type `t` when there is no
/// prototype) with Index `at`, renamed, with no objects.
pub open spec fn cloned_mcu(p: Option<EntityModel>, t: Seq<char>, at: int, name: Seq<char>) -> EntityModel {
    match p {
        Some(q) => named(duplicated(q, at), name),
        None => synthesized(t, at, name),
    }
}

/// Copies of chain `t` among the first `i` copies, in order.
pub open spec fn members(lay: Seq<(int, int, int)>, t: int, i: int) -> Seq<int>
    decreases i,
{
    if i <= 0 || i > lay.len() {
        seq![]
    } else if lay[i - 1].0 == t {
        members(lay, t, i - 1).push(i - 1)
    } else {
        members(lay, t, i - 1)
    }
}

/// The largest group among the first `i` copies.
pub open spec fn max_group(lay: Seq<(int, int, int)>, i: int) -> int
    decreases i,
{
    if i <= 0 || i > lay.len() {
        0
    } else if lay[i - 1].2 > max_group(lay, i - 1) {
        lay[i - 1].2
    } else {
        max_group(lay, i - 1)
    }
}

/// Everything the Recon Randomizer is built from.
pub struct RandPlan {
    pub timer: EntityModel,
    pub deact: Option<EntityModel>,
    pub begin: Option<EntityModel>,
    pub delete: Option<EntityModel>,
    /// `(chain, position in group, group size)` of each copy.
    pub lay: Seq<(int, int, int)>,
    pub chains: int,
    /// What each copy fires on a win.
    pub wins: Seq<Seq<i32>>,
    /// The world blocks of each copy.
    pub worlds: Seq<Seq<i32>>,
    /// First free Index.
    pub start: int,
}

impl RandPlan {
    pub open spec fn n(self) -> int {
        self.lay.len() as int
    }

    pub open spec fn ut(self) -> int {
        index_count(self.timer)
    }

    pub open spec fn ud(self) -> int {
        match self.deact {
            Some(p) => index_count(p),
            None => 1,
        }
    }

    pub open spec fn ux(self) -> int {
        match self.delete {
            Some(p) => index_count(p),
            None => 1,
        }
    }

    pub open spec fn ub(self) -> int {
        match self.begin {
            Some(p) => index_count(p),
            None => 1,
        }
    }

    /// Copy `i` is the last of its group.
    pub open spec fn is_last(self, i: int) -> bool {
        self.lay[i].1 + 1 == self.lay[i].2
    }

    /// First Index of chain `t`'s input timer (and delay timer).
    pub open spec fn chain_base(self, t: int) -> int
        decreases t,
    {
        if t <= 0 {
            self.start + self.ub()
        } else {
            self.chain_base(t - 1) + self.ut() + if t - 1 >= 1 { self.ut() } else { 0 }
        }
    }

    pub open spec fn input_id(self, t: int) -> int {
        self.chain_base(t)
    }

    pub open spec fn delay_id(self, t: int) -> int {
        self.chain_base(t) + self.ut()
    }

    /// Indexes taken by copy `i`'s timers and switches.
    pub open spec fn copy_step(self, i: int) -> int {
        3 * self.ut() + self.ud() + self.ux() + if self.is_last(i) { 0 } else { self.ud() }
    }

    /// First Index of copy `i`'s timers and switches.
    pub open spec fn copy_base(self, i: int) -> int
        decreases i,
    {
        if i <= 0 {
            self.chain_base(self.chains)
        } else {
            self.copy_base(i - 1) + self.copy_step(i - 1)
        }
    }

    pub open spec fn rnd_id(self, i: int) -> int {
        self.copy_base(i)
    }

    pub open spec fn out_id(self, i: int) -> int {
        self.copy_base(i) + self.ut()
    }

    pub open spec fn closer_id(self, i: int) -> int {
        self.copy_base(i) + 2 * self.ut()
    }

    pub open spec fn del_id(self, i: int) -> int {
        self.copy_base(i) + 2 * self.ut() + if self.is_last(i) { 0 } else { self.ud() }
    }

    pub open spec fn keep_id(self, i: int) -> int {
        self.del_id(i) + self.ut()
    }

    pub open spec fn dump_id(self, i: int) -> int {
        self.keep_id(i) + self.ud()
    }

    /// Index of the Recon Randomizer group.
    pub open spec fn group_id(self) -> int {
        self.copy_base(self.n())
    }

    pub open spec fn input_name(self, t: int) -> Seq<char> {
        if self.chains > 1 {
            "Randomizer:INPUT "@ + dec_text((t + 1) as nat)
        } else {
            "Randomizer:INPUT"@
        }
    }

    /// Chain `t`'s input: fires the Random and Delete timers of its copies.
    pub open spec fn input(self, t: int) -> EntityModel {
        let ms = members(self.lay, t, self.n());
        with_targets(
            timer_mcu(self.timer, self.input_id(t), self.input_name(t), "0"@, "100"@),
            ms.map_values(|m: int| self.rnd_id(m) as i32) + ms.map_values(|m: int| self.del_id(m) as i32),
        )
    }

    /// Chain `t`'s delay (chains after the first wait 0.5 s each).
    pub open spec fn delay(self, t: int) -> EntityModel {
        with_targets(
            timer_mcu(
                self.timer,
                self.delay_id(t),
                "Randomizer:DELAY "@ + dec_text((t + 1) as nat),
                time_text(500 * t),
                "100"@,
            ),
            seq![self.input_id(t) as i32],
        )
    }

    /// The enabled Mission Begin that starts every chain.
    pub open spec fn begin_mcu(self) -> EntityModel {
        let b = match self.begin {
            Some(p) => named(duplicated(p, self.start), "Recon: Mission Begin"@),
            None => with_prop(
                synthesized("MCU_TR_MissionBegin"@, self.start, "Recon: Mission Begin"@),
                "Enabled"@,
                "1"@,
            ),
        };
        with_targets(
            with_objects(with_prop(b, "Enabled"@, "1"@), seq![]),
            Seq::new(
                self.chains as nat,
                |t: int|
                    (if t == 0 {
                        self.input_id(0)
                    } else {
                        self.delay_id(t)
                    }) as i32,
            ),
        )
    }

    /// Copy `i`'s Random timer: its odds in the group's waterfall.
    pub open spec fn rnd(self, i: int) -> EntityModel {
        let l = self.lay[i].1;
        let pct = crate::flights::random_pct_spec(l, self.lay[i].2);
        let ms = 500 * (l + 1);
        with_targets(
            timer_mcu(
                self.timer,
                self.rnd_id(i),
                "Random "@ + dec_text((i + 1) as nat) + ":"@ + int_text(pct) + "% "@ + dec_text(ms as nat) + "ms"@,
                time_text(ms),
                int_text(pct),
            ),
            if self.is_last(i) {
                seq![self.out_id(i) as i32]
            } else {
                seq![self.out_id(i) as i32, self.closer_id(i) as i32]
            },
        )
    }

    /// Copy `i`'s Out timer: fires the copy's start and keeps it.
    pub open spec fn out(self, i: int) -> EntityModel {
        with_targets(
            timer_mcu(self.timer, self.out_id(i), "Out "@ + dec_text((i + 1) as nat), "0"@, "100"@),
            self.wins[i].push(self.keep_id(i) as i32),
        )
    }

    /// Copy `i`'s closer: switches off the Out timers of the rest of its group.
    pub open spec fn closer(self, i: int) -> EntityModel {
        with_targets(
            with_objects(
                cloned_mcu(self.deact, "MCU_Deactivate"@, self.closer_id(i), "Close_Remaining_Output(s)"@),
                seq![],
            ),
            Seq::new((self.lay[i].2 - self.lay[i].1 - 1) as nat, |q: int| self.out_id(i + 1 + q) as i32),
        )
    }

    /// The closers of the first `i` copies (the last of a group has none).
    pub open spec fn closers(self, i: int) -> Seq<EntityModel>
        decreases i,
    {
        if i <= 0 {
            seq![]
        } else if self.is_last(i - 1) {
            self.closers(i - 1)
        } else {
            self.closers(i - 1).push(self.closer(i - 1))
        }
    }

    /// Copy `i`'s Delete timer: fires its dump once the waterfall is over.
    pub open spec fn del(self, i: int) -> EntityModel {
        with_targets(
            timer_mcu(
                self.timer,
                self.del_id(i),
                "Delete unused "@ + dec_text((i + 1) as nat),
                time_text(500 * (max_group(self.lay, self.n()) + 1)),
                "100"@,
            ),
            seq![self.dump_id(i) as i32],
        )
    }

    /// Copy `i`'s Keep: switches off its Delete timer.
    pub open spec fn keep(self, i: int) -> EntityModel {
        with_targets(
            with_objects(cloned_mcu(self.deact, "MCU_Deactivate"@, self.keep_id(i), "Keep "@ + dec_text((i + 1) as nat)), seq![]),
            seq![self.del_id(i) as i32],
        )
    }

    /// Copy `i`'s dump: deletes its world blocks.
    pub open spec fn dump(self, i: int) -> EntityModel {
        with_objects(
            with_targets(cloned_mcu(self.delete, "MCU_Delete"@, self.dump_id(i), "Dump unused "@ + dec_text((i + 1) as nat)), seq![]),
            self.worlds[i],
        )
    }

    /// The Recon Randomizer group.
    pub open spec fn group(self) -> EntityModel {
        let n = self.n();
        wrapper(
            "Recon Randomizer"@,
            self.group_id(),
            seq![self.begin_mcu()] + Seq::new((self.chains - 1) as nat, |q: int| self.delay(q + 1)) + Seq::new(
                self.chains as nat,
                |t: int| self.input(t),
            ) + Seq::new(n as nat, |i: int| self.rnd(i)) + Seq::new(n as nat, |i: int| self.out(i)) + self.closers(n)
                + Seq::new(n as nat, |i: int| self.del(i)) + Seq::new(n as nat, |i: int| self.keep(i)) + Seq::new(
                n as nat,
                |i: int| self.dump(i),
            ),
        )
    }
}

/// What building the Recon Randomizer needs: prototypes with an Index, a
/// copy in every group, chains numbered from 0, and every Index and time in
/// range.
pub open spec fn rand_ok(rp: RandPlan) -> bool {
    &&& rp.timer.index is Some
    &&& (rp.deact matches Some(p) ==> p.index is Some)
    &&& (rp.delete matches Some(p) ==> p.index is Some)
    &&& rp.n() >= 1
    &&& rp.n() < usize::MAX
    &&& rp.wins.len() == rp.n()
    &&& rp.worlds.len() == rp.n()
    &&& rp.chains >= 1
    &&& groups_fit(rp.lay)
    &&& (forall|i: int| 0 <= i < rp.n() ==> 0 <= (#[trigger] rp.lay[i]).0 < rp.chains)
    &&& 0 <= rp.start
    &&& rp.group_id() < i32::MAX
    &&& 500 * (max_group(rp.lay, rp.n()) + 1) <= i32::MAX
    &&& 500 * rp.chains <= i32::MAX
}

proof fn lemma_index_count_own(e: EntityModel)
    requires
        e.index is Some,
    ensures
        index_count(e) >= 1,
{
    assert(crate::ast::indexes_of(e) == seq![e.index->0] + crate::ast::indexes_in(e.children));
}

proof fn lemma_counts(rp: RandPlan)
    requires
        rand_ok(rp),
    ensures
        rp.ut() >= 1,
        rp.ud() >= 1,
        rp.ux() >= 1,
        rp.ub() >= 0,
{
    lemma_index_count_own(rp.timer);
    match rp.deact {
        Some(p) => lemma_index_count_own(p),
        None => {},
    }
    match rp.delete {
        Some(p) => lemma_index_count_own(p),
        None => {},
    }
}

proof fn lemma_chain_base_mono(rp: RandPlan, a: int, b: int)
    requires
        rand_ok(rp),
        0 <= a <= b,
    ensures
        rp.start + rp.ub() <= rp.chain_base(a) <= rp.chain_base(b),
        a < b ==> rp.chain_base(a) + rp.ut() <= rp.chain_base(b),
    decreases b,
{
    lemma_counts(rp);
    if b > a {
        lemma_chain_base_mono(rp, a, b - 1);
    } else if a > 0 {
        lemma_chain_base_mono(rp, 0, a - 1);
    }
}

proof fn lemma_copy_base_mono(rp: RandPlan, a: int, b: int)
    requires
        rand_ok(rp),
        0 <= a <= b,
    ensures
        rp.chain_base(rp.chains) <= rp.copy_base(a) <= rp.copy_base(b),
        a < b ==> rp.copy_base(a) + rp.copy_step(a) <= rp.copy_base(b),
    decreases b,
{
    lemma_counts(rp);
    if b > a {
        lemma_copy_base_mono(rp, a, b - 1);
    } else if a > 0 {
        lemma_copy_base_mono(rp, 0, a - 1);
    }
}

proof fn lemma_max_group(lay: Seq<(int, int, int)>, i: int, j: int)
    requires
        0 <= j < i <= lay.len(),
    ensures
        lay[j].2 <= max_group(lay, i),
    decreases i,
{
    if j < i - 1 {
        lemma_max_group(lay, i - 1, j);
    }
}

fn count_of(p: Option<&Il2Entity>) -> (r: usize)
    ensures
        r == (match crate::bombers::link::opt_view(p) {
            Some(q) => index_count(q),
            None => 1,
        }),
{
    match p {
        Some(q) => crate::pack::generate::count_indexes(q),
        None => 1,
    }
}

/// `ms` milliseconds (a multiple of 100) written as seconds.
pub(crate) fn time_string(ms: u32) -> (r: String)
    ensures
        r@ == time_text(ms as int),
{
    let mut t = String::new();
    push_dec(&mut t, (ms / 1000) as u64);
    if ms % 1000 != 0 {
        push_str(&mut t, ".");
        push_dec(&mut t, ((ms % 1000) / 100) as u64);
    }
    t
}

fn timer_at(p: &Il2Entity, at: i32, name: &str, time: &str, random: &str) -> (r: Il2Entity)
    requires
        at + index_count(p@) <= i32::MAX,
    ensures
        r@ == timer_mcu(p@, at as int, name@, time@, random@),
{
    let mut next = at;
    let (mut c, _) = duplicate_template(p, &mut next);
    c.set_name(name);
    c.set_property("Time", time);
    c.set_property("Random", random);
    let none: Vec<i32> = Vec::new();
    proof {
        assert(none@ =~= Seq::<i32>::empty());
    }
    c.set_objects(none);
    c
}

fn cloned_at(p: Option<&Il2Entity>, t: &str, at: i32, name: &str) -> (r: Il2Entity)
    requires
        (match crate::bombers::link::opt_view(p) {
            Some(q) => at + index_count(q) <= i32::MAX,
            None => at < i32::MAX,
        }),
    ensures
        r@ == cloned_mcu(crate::bombers::link::opt_view(p), t@, at as int, name@),
{
    let mut next = at;
    match p {
        Some(q) => {
            let (mut c, _) = duplicate_template(q, &mut next);
            c.set_name(name);
            c
        },
        None => crate::bombers::link::synthesize_mcu(t, &mut next, name),
    }
}

/// The executable inputs of the Recon Randomizer agree with `rp`.
pub open spec fn rand_args(
    rp: RandPlan,
    pt: &Il2Entity,
    pd: Option<&Il2Entity>,
    pb: Option<&Il2Entity>,
    px: Option<&Il2Entity>,
    lay: Seq<(usize, usize, usize)>,
    nch: usize,
    wins: Seq<Vec<i32>>,
    worlds: Seq<Vec<i32>>,
    start: i32,
) -> bool {
    &&& rp.timer == pt@
    &&& rp.deact == crate::bombers::link::opt_view(pd)
    &&& rp.begin == crate::bombers::link::opt_view(pb)
    &&& rp.delete == crate::bombers::link::opt_view(px)
    &&& rp.lay == lay_view(lay)
    &&& rp.chains == nch as int
    &&& rp.start == start as int
    &&& wins.len() == rp.n()
    &&& worlds.len() == rp.n()
    &&& (forall|i: int| 0 <= i < rp.n() ==> #[trigger] wins[i]@ == rp.wins[i])
    &&& (forall|i: int| 0 <= i < rp.n() ==> #[trigger] worlds[i]@ == rp.worlds[i])
}

/// First Indexes of every chain (and one past the last), then of every
/// copy's timers (and one past the last: the group's own Index).
fn id_bases(lay: &Vec<(usize, usize, usize)>, nch: usize, start: i32, cnt: (usize, usize, usize, usize), Ghost(rp): Ghost<RandPlan>) -> (r: (
    Vec<i32>,
    Vec<i32>,
))
    requires
        rand_ok(rp),
        rp.lay == lay_view(lay@),
        rp.chains == nch as int,
        rp.start == start as int,
        cnt.0 as int == rp.ut(),
        cnt.1 as int == rp.ud(),
        cnt.2 as int == rp.ux(),
        cnt.3 as int == rp.ub(),
    ensures
        r.0@.len() == nch + 1,
        forall|t: int| 0 <= t <= nch ==> #[trigger] r.0@[t] as int == rp.chain_base(t),
        r.1@.len() == lay@.len() + 1,
        forall|i: int| 0 <= i <= lay@.len() ==> #[trigger] r.1@[i] as int == rp.copy_base(i),
{
    let (ut, ud, ux, ub) = cnt;
    proof {
        lemma_counts(rp);
        lemma_chain_base_mono(rp, 0, nch as int);
        lemma_copy_base_mono(rp, 0, lay@.len() as int);
    }
    let mut chains: Vec<i32> = Vec::new();
    let mut cur: i64 = start as i64 + ub as i64;
    chains.push(cur as i32);
    let mut t: usize = 0;
    while t < nch
        invariant
            rand_ok(rp),
            rp.chains == nch as int,
            rp.lay == lay_view(lay@),
            ut as int == rp.ut(),
            t <= nch,
            cur as int == rp.chain_base(t as int),
            chains@.len() == t + 1,
            forall|q: int| 0 <= q <= t ==> #[trigger] chains@[q] as int == rp.chain_base(q),
        decreases nch - t,
    {
        proof {
            lemma_chain_base_mono(rp, t + 1, nch as int);
            lemma_copy_base_mono(rp, 0, lay@.len() as int);
        }
        let step: i64 = if t >= 1 {
            2 * ut as i64
        } else {
            ut as i64
        };
        cur = cur + step;
        chains.push(cur as i32);
        t = t + 1;
    }
    let mut copies: Vec<i32> = Vec::new();
    copies.push(cur as i32);
    let mut i: usize = 0;
    while i < lay.len()
        invariant
            rand_ok(rp),
            rp.chains == nch as int,
            rp.lay == lay_view(lay@),
            ut as int == rp.ut(),
            ud as int == rp.ud(),
            ux as int == rp.ux(),
            i <= lay@.len(),
            cur as int == rp.copy_base(i as int),
            copies@.len() == i + 1,
            forall|q: int| 0 <= q <= i ==> #[trigger] copies@[q] as int == rp.copy_base(q),
        decreases lay@.len() - i,
    {
        proof {
            lemma_copy_base_mono(rp, i + 1, lay@.len() as int);
            lemma_copy_base_mono(rp, i as int, i + 1);
            lemma_chain_base_mono(rp, 0, nch as int);
            lemma_counts(rp);
            assert(rp.copy_step(i as int) <= i32::MAX);
            assert(rp.lay[i as int] == (lay@[i as int].0 as int, lay@[i as int].1 as int, lay@[i as int].2 as int));
        }
        let (_, l, g) = lay[i];
        let step: i64 = 3 * ut as i64 + ud as i64 + ux as i64 + if l + 1 == g {
            0
        } else {
            ud as i64
        };
        cur = cur + step;
        copies.push(cur as i32);
        i = i + 1;
    }
    (chains, copies)
}

/// Copy `i`'s Random, Out, closer (none for the last of a group), Delete,
/// Keep and dump blocks.
fn copy_timers(
    pt: &Il2Entity,
    pd: Option<&Il2Entity>,
    px: Option<&Il2Entity>,
    lay: &Vec<(usize, usize, usize)>,
    wins: &Vec<Vec<i32>>,
    worlds: &Vec<Vec<i32>>,
    copies: &Vec<i32>,
    cnt: (usize, usize),
    del_time: &str,
    i: usize,
    Ghost(rp): Ghost<RandPlan>,
) -> (r: (Il2Entity, Il2Entity, Option<Il2Entity>, Il2Entity, Il2Entity, Il2Entity))
    requires
        rand_ok(rp),
        rp.timer == pt@,
        rp.deact == crate::bombers::link::opt_view(pd),
        rp.delete == crate::bombers::link::opt_view(px),
        rp.lay == lay_view(lay@),
        wins@.len() == rp.n(),
        worlds@.len() == rp.n(),
        forall|j: int| 0 <= j < rp.n() ==> #[trigger] wins@[j]@ == rp.wins[j],
        forall|j: int| 0 <= j < rp.n() ==> #[trigger] worlds@[j]@ == rp.worlds[j],
        copies@.len() == rp.n() + 1,
        forall|j: int| 0 <= j <= rp.n() ==> #[trigger] copies@[j] as int == rp.copy_base(j),
        cnt.0 as int == rp.ut(),
        cnt.1 as int == rp.ud(),
        del_time@ == time_text(500 * (max_group(rp.lay, rp.n()) + 1)),
        i < rp.n(),
    ensures
        r.0@ == rp.rnd(i as int),
        r.1@ == rp.out(i as int),
        rp.is_last(i as int) ==> r.2 is None,
        !rp.is_last(i as int) ==> (r.2 matches Some(c) && c@ == rp.closer(i as int)),
        r.3@ == rp.del(i as int),
        r.4@ == rp.keep(i as int),
        r.5@ == rp.dump(i as int),
{
    let (ut, ud) = cnt;
    let (_, l, g) = lay[i];
    let ghost n = rp.n();
    proof {
        assert(rp.lay[i as int] == (lay@[i as int].0 as int, l as int, g as int));
        lemma_counts(rp);
        lemma_copy_base_mono(rp, i as int, i + 1);
        lemma_copy_base_mono(rp, i + 1, n);
        lemma_chain_base_mono(rp, 0, rp.chains);
        lemma_max_group(rp.lay, n, i as int);
        assert(rp.copy_step(i as int) <= i32::MAX);
    }
    let base: i64 = copies[i] as i64;
    let n1: u64 = (i + 1) as u64;
    let last = l + 1 == g;
    let out_id: i32 = (base + ut as i64) as i32;
    let closer_id: i32 = (base + 2 * ut as i64) as i32;
    let del_id: i32 = (base + 2 * ut as i64 + if last {
        0
    } else {
        ud as i64
    }) as i32;
    let keep_id: i32 = (del_id as i64 + ut as i64) as i32;
    let dump_id: i32 = (keep_id as i64 + ud as i64) as i32;
    // Random
    let pct = crate::flights::random_pct(l, g);
    let ms: u32 = 500 * (l as u32 + 1);
    let mut name = owned("Random ");
    push_dec(&mut name, n1);
    push_str(&mut name, ":");
    push_int(&mut name, pct as i64);
    push_str(&mut name, "% ");
    push_dec(&mut name, ms as u64);
    push_str(&mut name, "ms");
    let tt = time_string(ms);
    let pct_text = crate::text::int_to_string(pct as i64);
    let mut rnd = timer_at(pt, copies[i], name.as_str(), tt.as_str(), pct_text.as_str());
    if last {
        let ts = vec![out_id];
        proof {
            assert(ts@ =~= seq![rp.out_id(i as int) as i32]);
        }
        rnd.set_targets(ts);
    } else {
        let ts = vec![out_id, closer_id];
        proof {
            assert(ts@ =~= seq![rp.out_id(i as int) as i32, rp.closer_id(i as int) as i32]);
        }
        rnd.set_targets(ts);
    }
    // Out
    let mut oname = owned("Out ");
    push_dec(&mut oname, n1);
    let mut out = timer_at(pt, out_id, oname.as_str(), "0", "100");
    let mut ots = wins[i].clone();
    proof {
        assert(ots@ =~= rp.wins[i as int]);
    }
    ots.push(keep_id);
    out.set_targets(ots);
    // closer
    let closer = if last {
        None
    } else {
        let mut c = cloned_at(pd, "MCU_Deactivate", closer_id, "Close_Remaining_Output(s)");
        let none: Vec<i32> = Vec::new();
        proof {
            assert(none@ =~= Seq::<i32>::empty());
        }
        c.set_objects(none);
        let rest = g - l - 1;
        let mut ts: Vec<i32> = Vec::new();
        let mut q: usize = 0;
        while q < rest
            invariant
                rand_ok(rp),
                n == rp.n(),
                rp.lay[i as int] == (rp.lay[i as int].0, l as int, g as int),
                i < n,
                l < g,
                rest == g - l - 1,
                q <= rest,
                copies@.len() == n + 1,
                forall|j: int| 0 <= j <= n ==> #[trigger] copies@[j] as int == rp.copy_base(j),
                ut as int == rp.ut(),
                ts@ == Seq::new(q as nat, |z: int| rp.out_id(i + 1 + z) as i32),
            decreases rest - q,
        {
            proof {
                assert(groups_fit(rp.lay));
                assert(i + (rp.lay[i as int].2 - rp.lay[i as int].1) <= n);
                lemma_copy_base_mono(rp, i + 1 + q, i + 2 + q);
                lemma_copy_base_mono(rp, i + 2 + q, n);
                lemma_counts(rp);
            }
            let v: i32 = (copies[i + 1 + q] as i64 + ut as i64) as i32;
            ts.push(v);
            proof {
                assert(ts@ =~= Seq::new((q + 1) as nat, |z: int| rp.out_id(i + 1 + z) as i32));
            }
            q = q + 1;
        }
        c.set_targets(ts);
        Some(c)
    };
    // Delete
    let mut dname = owned("Delete unused ");
    push_dec(&mut dname, n1);
    let mut del = timer_at(pt, del_id, dname.as_str(), del_time, "100");
    let dts = vec![dump_id];
    proof {
        assert(dts@ =~= seq![rp.dump_id(i as int) as i32]);
    }
    del.set_targets(dts);
    // Keep
    let mut kname = owned("Keep ");
    push_dec(&mut kname, n1);
    let mut keep = cloned_at(pd, "MCU_Deactivate", keep_id, kname.as_str());
    let none: Vec<i32> = Vec::new();
    proof {
        assert(none@ =~= Seq::<i32>::empty());
    }
    keep.set_objects(none);
    let kts = vec![del_id];
    proof {
        assert(kts@ =~= seq![rp.del_id(i as int) as i32]);
    }
    keep.set_targets(kts);
    // dump
    let mut xname = owned("Dump unused ");
    push_dec(&mut xname, n1);
    let mut dump = cloned_at(px, "MCU_Delete", dump_id, xname.as_str());
    let none2: Vec<i32> = Vec::new();
    proof {
        assert(none2@ =~= Seq::<i32>::empty());
    }
    dump.set_targets(none2);
    let objs = worlds[i].clone();
    proof {
        assert(objs@ =~= rp.worlds[i as int]);
    }
    dump.set_objects(objs);
    (rnd, out, closer, del, keep, dump)
}

pub open spec fn views(v: Seq<Il2Entity>) -> Seq<EntityModel> {
    v.map_values(|e: Il2Entity| e@)
}

fn largest_group(lay: &Vec<(usize, usize, usize)>) -> (r: usize)
    ensures
        r as int == max_group(lay_view(lay@), lay@.len() as int),
{
    let ghost lv = lay_view(lay@);
    let mut m: usize = 0;
    let mut i: usize = 0;
    while i < lay.len()
        invariant
            i <= lay@.len(),
            lv == lay_view(lay@),
            m as int == max_group(lv, i as int),
        decreases lay@.len() - i,
    {
        assert(lv[i as int].2 == lay@[i as int].2);
        if lay[i].2 > m {
            m = lay[i].2;
        }
        i = i + 1;
    }
    m
}

/// Chain `t`'s input timer.
fn input_timer(
    pt: &Il2Entity,
    lay: &Vec<(usize, usize, usize)>,
    chains: &Vec<i32>,
    copies: &Vec<i32>,
    nch: usize,
    cnt: (usize, usize),
    t: usize,
    Ghost(rp): Ghost<RandPlan>,
) -> (r: Il2Entity)
    requires
        rand_ok(rp),
        rp.timer == pt@,
        rp.lay == lay_view(lay@),
        rp.chains == nch as int,
        chains@.len() == nch + 1,
        forall|q: int| 0 <= q <= nch ==> #[trigger] chains@[q] as int == rp.chain_base(q),
        copies@.len() == rp.n() + 1,
        forall|j: int| 0 <= j <= rp.n() ==> #[trigger] copies@[j] as int == rp.copy_base(j),
        cnt.0 as int == rp.ut(),
        cnt.1 as int == rp.ud(),
        t < nch,
    ensures
        r@ == rp.input(t as int),
{
    let (ut, ud) = cnt;
    let ghost n = rp.n();
    proof {
        lemma_counts(rp);
        lemma_chain_base_mono(rp, t as int, t + 1);
        lemma_chain_base_mono(rp, t + 1, nch as int);
        lemma_copy_base_mono(rp, 0, n);
    }
    let name = if nch > 1 {
        let mut s = owned("Randomizer:INPUT ");
        push_dec(&mut s, (t + 1) as u64);
        s
    } else {
        owned("Randomizer:INPUT")
    };
    let mut input = timer_at(pt, chains[t], name.as_str(), "0", "100");
    let mut rnds: Vec<i32> = Vec::new();
    let mut dels: Vec<i32> = Vec::new();
    let mut i: usize = 0;
    while i < lay.len()
        invariant
            rand_ok(rp),
            n == rp.n(),
            n == lay@.len(),
            rp.lay == lay_view(lay@),
            i <= n,
            copies@.len() == n + 1,
            forall|j: int| 0 <= j <= n ==> #[trigger] copies@[j] as int == rp.copy_base(j),
            ut as int == rp.ut(),
            ud as int == rp.ud(),
            rnds@ == members(rp.lay, t as int, i as int).map_values(|m: int| rp.rnd_id(m) as i32),
            dels@ == members(rp.lay, t as int, i as int).map_values(|m: int| rp.del_id(m) as i32),
        decreases n - i,
    {
        proof {
            assert(rp.lay[i as int] == (lay@[i as int].0 as int, lay@[i as int].1 as int, lay@[i as int].2 as int));
            lemma_copy_base_mono(rp, i as int, i + 1);
            lemma_copy_base_mono(rp, i + 1, n);
            lemma_counts(rp);
        }
        let (c, l, g) = lay[i];
        if c == t {
            let base: i64 = copies[i] as i64;
            let d: i32 = (base + 2 * ut as i64 + if l + 1 == g {
                0
            } else {
                ud as i64
            }) as i32;
            rnds.push(copies[i]);
            dels.push(d);
        }
        proof {
            assert(rnds@ =~= members(rp.lay, t as int, i + 1).map_values(|m: int| rp.rnd_id(m) as i32));
            assert(dels@ =~= members(rp.lay, t as int, i + 1).map_values(|m: int| rp.del_id(m) as i32));
        }
        i = i + 1;
    }
    rnds.append(&mut dels);
    input.set_targets(rnds);
    input
}

/// Chain `t`'s delay timer (`t >= 1`).
fn delay_timer(pt: &Il2Entity, chains: &Vec<i32>, nch: usize, ut: usize, t: usize, Ghost(rp): Ghost<RandPlan>) -> (r: Il2Entity)
    requires
        rand_ok(rp),
        rp.timer == pt@,
        rp.chains == nch as int,
        chains@.len() == nch + 1,
        forall|q: int| 0 <= q <= nch ==> #[trigger] chains@[q] as int == rp.chain_base(q),
        ut as int == rp.ut(),
        1 <= t < nch,
    ensures
        r@ == rp.delay(t as int),
{
    proof {
        lemma_counts(rp);
        lemma_chain_base_mono(rp, t + 1, nch as int);
        lemma_copy_base_mono(rp, 0, rp.n());
        assert(rp.chain_base(t + 1) == rp.chain_base(t as int) + 2 * rp.ut());
    }
    let mut name = owned("Randomizer:DELAY ");
    push_dec(&mut name, (t + 1) as u64);
    let tt = time_string(500 * t as u32);
    let at: i32 = (chains[t] as i64 + ut as i64) as i32;
    let mut d = timer_at(pt, at, name.as_str(), tt.as_str(), "100");
    let ts = vec![chains[t]];
    proof {
        assert(ts@ =~= seq![rp.input_id(t as int) as i32]);
    }
    d.set_targets(ts);
    d
}

/// The Recon Randomizer's Mission Begin.
fn begin_timer(pb: Option<&Il2Entity>, chains: &Vec<i32>, nch: usize, ut: usize, start: i32, Ghost(rp): Ghost<RandPlan>) -> (r: Il2Entity)
    requires
        rand_ok(rp),
        rp.begin == crate::bombers::link::opt_view(pb),
        rp.chains == nch as int,
        rp.start == start as int,
        chains@.len() == nch + 1,
        forall|q: int| 0 <= q <= nch ==> #[trigger] chains@[q] as int == rp.chain_base(q),
        ut as int == rp.ut(),
    ensures
        r@ == rp.begin_mcu(),
{
    proof {
        lemma_counts(rp);
        lemma_chain_base_mono(rp, 0, nch as int);
        lemma_copy_base_mono(rp, 0, rp.n());
    }
    let mut b = match pb {
        Some(q) => {
            let mut nx = start;
            let (mut c, _) = duplicate_template(q, &mut nx);
            c.set_name("Recon: Mission Begin");
            c
        },
        None => {
            let mut nx = start;
            let mut c = crate::bombers::link::synthesize_mcu("MCU_TR_MissionBegin", &mut nx, "Recon: Mission Begin");
            c.set_property("Enabled", "1");
            c
        },
    };
    b.set_property("Enabled", "1");
    let none: Vec<i32> = Vec::new();
    proof {
        assert(none@ =~= Seq::<i32>::empty());
    }
    b.set_objects(none);
    let mut ts: Vec<i32> = Vec::new();
    let mut t: usize = 0;
    while t < nch
        invariant
            rand_ok(rp),
            rp.chains == nch as int,
            t <= nch,
            chains@.len() == nch + 1,
            forall|q: int| 0 <= q <= nch ==> #[trigger] chains@[q] as int == rp.chain_base(q),
            ut as int == rp.ut(),
            ts@ == Seq::new(
                t as nat,
                |z: int|
                    (if z == 0 {
                        rp.input_id(0)
                    } else {
                        rp.delay_id(z)
                    }) as i32,
            ),
        decreases nch - t,
    {
        proof {
            lemma_counts(rp);
            lemma_chain_base_mono(rp, t + 1, nch as int);
            lemma_chain_base_mono(rp, t as int, t + 1);
            lemma_copy_base_mono(rp, 0, rp.n());
        }
        if t == 0 {
            ts.push(chains[0]);
        } else {
            ts.push((chains[t] as i64 + ut as i64) as i32);
        }
        proof {
            assert(ts@ =~= Seq::new(
                (t + 1) as nat,
                |z: int|
                    (if z == 0 {
                        rp.input_id(0)
                    } else {
                        rp.delay_id(z)
                    }) as i32,
            ));
        }
        t = t + 1;
    }
    b.set_targets(ts);
    b
}

fn delay_list(pt: &Il2Entity, chains: &Vec<i32>, nch: usize, ut: usize, Ghost(rp): Ghost<RandPlan>) -> (r: Vec<Il2Entity>)
    requires
        rand_ok(rp),
        rp.timer == pt@,
        rp.chains == nch as int,
        chains@.len() == nch + 1,
        forall|q: int| 0 <= q <= nch ==> #[trigger] chains@[q] as int == rp.chain_base(q),
        ut as int == rp.ut(),
    ensures
        views(r@) == Seq::new((rp.chains - 1) as nat, |q: int| rp.delay(q + 1)),
{
    let mut delays: Vec<Il2Entity> = Vec::new();
    let mut t: usize = 1;
    while t < nch
        invariant
            rand_ok(rp),
            rp.timer == pt@,
            rp.chains == nch as int,
            1 <= t <= nch,
            chains@.len() == nch + 1,
            forall|q: int| 0 <= q <= nch ==> #[trigger] chains@[q] as int == rp.chain_base(q),
            ut as int == rp.ut(),
            views(delays@) == Seq::new((t - 1) as nat, |q: int| rp.delay(q + 1)),
        decreases nch - t,
    {
        let d = delay_timer(pt, chains, nch, ut, t, Ghost(rp));
        let ghost o = delays@;
        delays.push(d);
        proof {
            assert(views(delays@) =~= views(o).push(d@));
            assert(views(delays@) =~= Seq::new(t as nat, |q: int| rp.delay(q + 1)));
        }
        t = t + 1;
    }
    delays
}

fn input_list(
    pt: &Il2Entity,
    lay: &Vec<(usize, usize, usize)>,
    chains: &Vec<i32>,
    copies: &Vec<i32>,
    nch: usize,
    cnt: (usize, usize),
    Ghost(rp): Ghost<RandPlan>,
) -> (r: Vec<Il2Entity>)
    requires
        rand_ok(rp),
        rp.timer == pt@,
        rp.lay == lay_view(lay@),
        rp.chains == nch as int,
        chains@.len() == nch + 1,
        forall|q: int| 0 <= q <= nch ==> #[trigger] chains@[q] as int == rp.chain_base(q),
        copies@.len() == rp.n() + 1,
        forall|j: int| 0 <= j <= rp.n() ==> #[trigger] copies@[j] as int == rp.copy_base(j),
        cnt.0 as int == rp.ut(),
        cnt.1 as int == rp.ud(),
    ensures
        views(r@) == Seq::new(rp.chains as nat, |q: int| rp.input(q)),
{
    let mut inputs: Vec<Il2Entity> = Vec::new();
    let mut t: usize = 0;
    while t < nch
        invariant
            rand_ok(rp),
            rp.timer == pt@,
            rp.lay == lay_view(lay@),
            rp.chains == nch as int,
            t <= nch,
            chains@.len() == nch + 1,
            forall|q: int| 0 <= q <= nch ==> #[trigger] chains@[q] as int == rp.chain_base(q),
            copies@.len() == rp.n() + 1,
            forall|j: int| 0 <= j <= rp.n() ==> #[trigger] copies@[j] as int == rp.copy_base(j),
            cnt.0 as int == rp.ut(),
            cnt.1 as int == rp.ud(),
            views(inputs@) == Seq::new(t as nat, |q: int| rp.input(q)),
        decreases nch - t,
    {
        let x = input_timer(pt, lay, chains, copies, nch, cnt, t, Ghost(rp));
        let ghost o = inputs@;
        inputs.push(x);
        proof {
            assert(views(inputs@) =~= views(o).push(x@));
            assert(views(inputs@) =~= Seq::new((t + 1) as nat, |q: int| rp.input(q)));
        }
        t = t + 1;
    }
    inputs
}

/// The six lists of per-copy blocks.
struct CopyBlocks {
    rnds: Vec<Il2Entity>,
    outs: Vec<Il2Entity>,
    closers: Vec<Il2Entity>,
    dels: Vec<Il2Entity>,
    keeps: Vec<Il2Entity>,
    dumps: Vec<Il2Entity>,
}

spec fn blocks_done(b: CopyBlocks, rp: RandPlan, i: int) -> bool {
    &&& views(b.rnds@) == Seq::new(i as nat, |j: int| rp.rnd(j))
    &&& views(b.outs@) == Seq::new(i as nat, |j: int| rp.out(j))
    &&& views(b.closers@) == rp.closers(i)
    &&& views(b.dels@) == Seq::new(i as nat, |j: int| rp.del(j))
    &&& views(b.keeps@) == Seq::new(i as nat, |j: int| rp.keep(j))
    &&& views(b.dumps@) == Seq::new(i as nat, |j: int| rp.dump(j))
}

fn add_copy_blocks(
    b: &mut CopyBlocks,
    x: (Il2Entity, Il2Entity, Option<Il2Entity>, Il2Entity, Il2Entity, Il2Entity),
    i: usize,
    Ghost(rp): Ghost<RandPlan>,
)
    requires
        blocks_done(*old(b), rp, i as int),
        0 <= i < rp.n(),
        x.0@ == rp.rnd(i as int),
        x.1@ == rp.out(i as int),
        rp.is_last(i as int) ==> x.2 is None,
        !rp.is_last(i as int) ==> (x.2 matches Some(c) && c@ == rp.closer(i as int)),
        x.3@ == rp.del(i as int),
        x.4@ == rp.keep(i as int),
        x.5@ == rp.dump(i as int),
    ensures
        blocks_done(*final(b), rp, i + 1),
{
    let ghost o = *b;
    let (r0, r1, r2, r3, r4, r5) = x;
    b.rnds.push(r0);
    b.outs.push(r1);
    match r2 {
        Some(c) => b.closers.push(c),
        None => {},
    }
    b.dels.push(r3);
    b.keeps.push(r4);
    b.dumps.push(r5);
    proof {
        assert(views(b.rnds@) =~= views(o.rnds@).push(x.0@));
        assert(views(b.rnds@) =~= Seq::new((i + 1) as nat, |j: int| rp.rnd(j)));
        assert(views(b.outs@) =~= views(o.outs@).push(x.1@));
        assert(views(b.outs@) =~= Seq::new((i + 1) as nat, |j: int| rp.out(j)));
        if rp.is_last(i as int) {
            assert(views(b.closers@) =~= views(o.closers@));
        } else {
            assert(views(b.closers@) =~= views(o.closers@).push(rp.closer(i as int)));
        }
        assert(views(b.closers@) =~= rp.closers(i + 1));
        assert(views(b.dels@) =~= views(o.dels@).push(x.3@));
        assert(views(b.dels@) =~= Seq::new((i + 1) as nat, |j: int| rp.del(j)));
        assert(views(b.keeps@) =~= views(o.keeps@).push(x.4@));
        assert(views(b.keeps@) =~= Seq::new((i + 1) as nat, |j: int| rp.keep(j)));
        assert(views(b.dumps@) =~= views(o.dumps@).push(x.5@));
        assert(views(b.dumps@) =~= Seq::new((i + 1) as nat, |j: int| rp.dump(j)));
    }
}

fn copy_block_lists(
    pt: &Il2Entity,
    pd: Option<&Il2Entity>,
    px: Option<&Il2Entity>,
    lay: &Vec<(usize, usize, usize)>,
    wins: &Vec<Vec<i32>>,
    worlds: &Vec<Vec<i32>>,
    copies: &Vec<i32>,
    cnt: (usize, usize),
    Ghost(rp): Ghost<RandPlan>,
) -> (r: CopyBlocks)
    requires
        rand_ok(rp),
        rp.timer == pt@,
        rp.deact == crate::bombers::link::opt_view(pd),
        rp.delete == crate::bombers::link::opt_view(px),
        rp.lay == lay_view(lay@),
        wins@.len() == rp.n(),
        worlds@.len() == rp.n(),
        forall|j: int| 0 <= j < rp.n() ==> #[trigger] wins@[j]@ == rp.wins[j],
        forall|j: int| 0 <= j < rp.n() ==> #[trigger] worlds@[j]@ == rp.worlds[j],
        copies@.len() == rp.n() + 1,
        forall|j: int| 0 <= j <= rp.n() ==> #[trigger] copies@[j] as int == rp.copy_base(j),
        cnt.0 as int == rp.ut(),
        cnt.1 as int == rp.ud(),
    ensures
        blocks_done(r, rp, rp.n()),
{
    let mg = largest_group(lay);
    proof {
        assert(500 * (mg + 1) <= i32::MAX);
    }
    let del_time = time_string((500 * (mg + 1)) as u32);
    let mut b = CopyBlocks {
        rnds: Vec::new(),
        outs: Vec::new(),
        closers: Vec::new(),
        dels: Vec::new(),
        keeps: Vec::new(),
        dumps: Vec::new(),
    };
    proof {
        assert(views(b.rnds@) =~= Seq::new(0, |j: int| rp.rnd(j)));
        assert(views(b.outs@) =~= Seq::new(0, |j: int| rp.out(j)));
        assert(views(b.closers@) =~= rp.closers(0));
        assert(views(b.dels@) =~= Seq::new(0, |j: int| rp.del(j)));
        assert(views(b.keeps@) =~= Seq::new(0, |j: int| rp.keep(j)));
        assert(views(b.dumps@) =~= Seq::new(0, |j: int| rp.dump(j)));
    }
    let mut i: usize = 0;
    while i < lay.len()
        invariant
            rand_ok(rp),
            rp.timer == pt@,
            rp.deact == crate::bombers::link::opt_view(pd),
            rp.delete == crate::bombers::link::opt_view(px),
            rp.lay == lay_view(lay@),
            wins@.len() == rp.n(),
            worlds@.len() == rp.n(),
            forall|j: int| 0 <= j < rp.n() ==> #[trigger] wins@[j]@ == rp.wins[j],
            forall|j: int| 0 <= j < rp.n() ==> #[trigger] worlds@[j]@ == rp.worlds[j],
            copies@.len() == rp.n() + 1,
            forall|j: int| 0 <= j <= rp.n() ==> #[trigger] copies@[j] as int == rp.copy_base(j),
            cnt.0 as int == rp.ut(),
            cnt.1 as int == rp.ud(),
            del_time@ == time_text(500 * (max_group(rp.lay, rp.n()) + 1)),
            i <= rp.n(),
            blocks_done(b, rp, i as int),
        decreases rp.n() - i,
    {
        let x = copy_timers(pt, pd, px, lay, wins, worlds, copies, cnt, del_time.as_str(), i, Ghost(rp));
        add_copy_blocks(&mut b, x, i, Ghost(rp));
        i = i + 1;
    }
    b
}

/// Build the Recon Randomizer group.
fn build_randomizer(
    pt: &Il2Entity,
    pd: Option<&Il2Entity>,
    pb: Option<&Il2Entity>,
    px: Option<&Il2Entity>,
    lay: &Vec<(usize, usize, usize)>,
    nch: usize,
    wins: &Vec<Vec<i32>>,
    worlds: &Vec<Vec<i32>>,
    start: i32,
    Ghost(rp): Ghost<RandPlan>,
) -> (r: (Il2Entity, i32))
    requires
        rand_ok(rp),
        rand_args(rp, pt, pd, pb, px, lay@, nch, wins@, worlds@, start),
    ensures
        r.0@ == rp.group(),
        r.1 as int == rp.group_id(),
{
    let ghost n = rp.n();
    let ut = crate::pack::generate::count_indexes(pt);
    let ud = count_of(pd);
    let ux = count_of(px);
    let ub = count_of(pb);
    let (chains, copies) = id_bases(lay, nch, start, (ut, ud, ux, ub), Ghost(rp));
    let begin = begin_timer(pb, &chains, nch, ut, start, Ghost(rp));
    let mut delays = delay_list(pt, &chains, nch, ut, Ghost(rp));
    let mut inputs = input_list(pt, lay, &chains, &copies, nch, (ut, ud), Ghost(rp));
    let mut b = copy_block_lists(pt, pd, px, lay, wins, worlds, &copies, (ut, ud), Ghost(rp));
    let gid = copies[lay.len()];
    let mut kids: Vec<Il2Entity> = Vec::new();
    kids.push(begin);
    let ghost k0 = kids@;
    let ghost d0 = delays@;
    let ghost i0 = inputs@;
    let ghost b0 = b;
    kids.append(&mut delays);
    kids.append(&mut inputs);
    kids.append(&mut b.rnds);
    kids.append(&mut b.outs);
    kids.append(&mut b.closers);
    kids.append(&mut b.dels);
    kids.append(&mut b.keeps);
    kids.append(&mut b.dumps);
    let mut g = Il2Entity::new("Group");
    g.index = Some(gid);
    let t_gid = crate::text::int_to_string(gid as i64);
    g.set_property("Index", t_gid.as_str());
    g.set_name("Recon Randomizer");
    g.set_property("Desc", "\"\"");
    g.children = kids;
    proof {
        lemma_children_model(g);
        assert(kids@ == k0 + d0 + i0 + b0.rnds@ + b0.outs@ + b0.closers@ + b0.dels@ + b0.keeps@ + b0.dumps@);
        assert(views(k0) =~= seq![rp.begin_mcu()]);
        let want = seq![rp.begin_mcu()] + Seq::new((rp.chains - 1) as nat, |q: int| rp.delay(q + 1)) + Seq::new(
            rp.chains as nat,
            |t: int| rp.input(t),
        ) + Seq::new(n as nat, |i: int| rp.rnd(i)) + Seq::new(n as nat, |i: int| rp.out(i)) + rp.closers(n)
            + Seq::new(n as nat, |i: int| rp.del(i)) + Seq::new(n as nat, |i: int| rp.keep(i)) + Seq::new(
            n as nat,
            |i: int| rp.dump(i),
        );
        assert(views(k0 + d0 + i0 + b0.rnds@ + b0.outs@ + b0.closers@ + b0.dels@ + b0.keeps@ + b0.dumps@) =~= want);
        assert(g@.children =~= want);
        assert(g@ =~= rp.group());
    }
    (g, gid)
}

// ---------------------------------------------------------------------------
// The placed pack
// ---------------------------------------------------------------------------

/// First block of type `t` in the first template, from template `i` on,
/// that has one.
pub open spec fn first_of_type_in(us: Seq<UnitView>, t: Seq<char>, i: int) -> Option<EntityModel>
    decreases us.len() - i,
{
    if i < 0 || i >= us.len() {
        None
    } else {
        match first_of_type(us[i].1, t) {
            Some(x) => Some(x),
            None => first_of_type_in(us, t, i + 1),
        }
    }
}

fn find_block_in<'a>(plans: &'a [ReconInput], t: &str) -> (r: Option<&'a Il2Entity>)
    ensures
        crate::bombers::link::opt_view(r) == first_of_type_in(units_view(plans@), t@, 0),
{
    let ghost us = units_view(plans@);
    let mut i: usize = 0;
    while i < plans.len()
        invariant
            i <= plans@.len(),
            us == units_view(plans@),
            first_of_type_in(us, t@, 0) == first_of_type_in(us, t@, i as int),
        decreases plans@.len() - i,
    {
        assert(us[i as int].1 == plans@[i as int].root@);
        match find_block(&plans[i].root, t) {
            Some(b) => return Some(b),
            None => {},
        }
        i = i + 1;
    }
    None
}

/// `p` brought into 1..=100.
pub open spec fn clamp_pct(p: int) -> int {
    if p < 1 {
        1
    } else if p > 100 {
        100
    } else {
        p
    }
}

/// What the Recon Randomizer of the templates `us` is built from.
pub open spec fn rand_plan_of(us: Seq<UnitView>, pct: int) -> RandPlan {
    let n = copy_total(us, us.len() as int);
    RandPlan {
        timer: first_of_type(us[0].1, "MCU_Timer"@)->0,
        deact: first_of_type_in(us, "MCU_Deactivate"@, 0),
        begin: first_of_type_in(us, "MCU_TR_MissionBegin"@, 0),
        delete: first_of_type_in(us, "MCU_Delete"@, 0),
        lay: layout(us, pct, us.len() as int),
        chains: chain_count(us, us.len() as int),
        wins: Seq::new(n as nat, |s: int| slot_wins(us, s)),
        worlds: Seq::new(n as nat, |s: int| slot_worlds(us, s)),
        start: slot_at(us, n),
    }
}

/// The placed pack: every copy, then the Recon Randomizer, in a group
/// named `Random Ground Units N`.
pub open spec fn recon_pack(us: Seq<UnitView>, pct: int) -> EntityModel {
    let n = copy_total(us, us.len() as int);
    let rp = rand_plan_of(us, pct);
    wrapper(
        "Random Ground Units "@ + dec_text(n as nat),
        rp.group_id() + 1,
        Seq::new(n as nat, |s: int| placed_unit(us, s)).push(rp.group()),
    )
}

/// The templates pass every check of `generate_recon`.
pub open spec fn recon_checked(us: Seq<UnitView>) -> bool {
    &&& us.len() > 0
    &&& copy_total(us, us.len() as int) > 0
    &&& first_unit_error(us, 0) is None
}

/// Placing the copies of `us` at `pct` percent stays within the machine's
/// integers: the copy count, every Index handed out, and every time in
/// milliseconds; and each prototype cloned for the randomizer has an Index.
pub open spec fn recon_fits(us: Seq<UnitView>, pct: int) -> bool {
    let n = copy_total(us, us.len() as int);
    let rp = rand_plan_of(us, clamp_pct(pct));
    &&& n * 100 + 50 <= usize::MAX
    &&& recon_checked(us) ==> slot_at(us, n) <= i32::MAX
    &&& (recon_checked(us) && first_of_type(us[0].1, "MCU_Timer"@) is Some) ==> {
        &&& rp.timer.index is Some
        &&& (rp.deact matches Some(p) ==> p.index is Some)
        &&& (rp.delete matches Some(p) ==> p.index is Some)
        &&& rp.group_id() < i32::MAX
        &&& 500 * (max_group(rp.lay, n) + 1) <= i32::MAX
        &&& 500 * rp.chains <= i32::MAX
    }
}

proof fn lemma_rand_ok(us: Seq<UnitView>, pct: int)
    requires
        counts_nonneg(us),
        1 <= pct <= 100,
        recon_checked(us),
        first_of_type(us[0].1, "MCU_Timer"@) is Some,
        recon_fits(us, pct),
        clamp_pct(pct) == pct,
    ensures
        rand_ok(rand_plan_of(us, pct)),
{
    let rp = rand_plan_of(us, pct);
    let n = copy_total(us, us.len() as int);
    lemma_layout(us, pct, us.len() as int);
    assert(rp.lay[0].0 < rp.chains);
    crate::duplicate::lemma_max_nonneg(us[0].1);
    lemma_max_unit_root_nonneg(us, 0);
    lemma_ids_before_nonneg(us, all_slots(us), n);
}

proof fn lemma_max_unit_root_nonneg(us: Seq<UnitView>, i: int)
    ensures
        max_unit_root(us, i) >= 0,
    decreases us.len() - i,
{
    if 0 <= i < us.len() {
        lemma_max_unit_root_nonneg(us, i + 1);
    }
}

proof fn lemma_ids_before_nonneg(us: Seq<UnitView>, sl: Seq<(int, int)>, s: int)
    ensures
        ids_before(us, sl, s) >= 0,
    decreases s,
{
    if 0 < s <= sl.len() {
        lemma_ids_before_nonneg(us, sl, s - 1);
    }
}

/// The `Random Ground Units N` group around the copies and the randomizer.
fn pack_group(copies: Vec<Il2Entity>, rz: Il2Entity, rid: i32, total: usize, Ghost(us): Ghost<Seq<UnitView>>, Ghost(rp): Ghost<RandPlan>) -> (r: Il2Entity)
    requires
        total as int == copy_total(us, us.len() as int),
        copies@.len() == total,
        forall|s: int| 0 <= s < total ==> #[trigger] copies@[s]@ == placed_unit(us, s),
        rz@ == rp.group(),
        rid as int == rp.group_id(),
        rp.group_id() < i32::MAX,
    ensures
        r@ == wrapper(
            "Random Ground Units "@ + dec_text(total as nat),
            rp.group_id() + 1,
            Seq::new(total as nat, |s: int| placed_unit(us, s)).push(rp.group()),
        ),
{
    let gid: i32 = rid + 1;
    let mut out = Il2Entity::new("Group");
    out.index = Some(gid);
    let t_gid = crate::text::int_to_string(gid as i64);
    out.set_property("Index", t_gid.as_str());
    let mut title = owned("Random Ground Units ");
    push_dec(&mut title, total as u64);
    out.set_name(title.as_str());
    out.set_property("Desc", "\"\"");
    out.children = copies;
    out.children.push(rz);
    proof {
        lemma_children_model(out);
        assert(out@.children =~= Seq::new(total as nat, |s: int| placed_unit(us, s)).push(rp.group()));
    }
    out
}

/// Place `copies` of each template behind a Recon Randomizer: about
/// `activate_percent` of each template's copies come alive, picked by an
/// equal-odds waterfall; the rest are deleted. Every copy keeps its
/// template's positions.
pub fn generate_recon(plans: &[ReconInput], activate_percent: u32) -> (r: Result<Il2Entity, String>)
    requires
        recon_fits(units_view(plans@), activate_percent as int),
    ensures
        ({
            let us = units_view(plans@);
            if us.len() == 0 {
                r matches Err(e) && e@ == "add at least one ground-unit template"@
            } else if copy_total(us, us.len() as int) == 0 {
                r matches Err(e) && e@ == "set influence so at least one copy is created"@
            } else if first_unit_error(us, 0) is Some {
                r matches Err(e) && e@ == first_unit_error(us, 0)->0
            } else if first_of_type(us[0].1, "MCU_Timer"@) is None {
                r matches Err(e) && e@ == "template has no MCU_Timer"@
            } else {
                r matches Ok(g) && g@ == recon_pack(us, clamp_pct(activate_percent as int))
            }
        }),
{
    let ghost us = units_view(plans@);
    if plans.len() == 0 {
        return Err(owned("add at least one ground-unit template"));
    }
    let pct: u32 = if activate_percent < 1 {
        1
    } else if activate_percent > 100 {
        100
    } else {
        activate_percent
    };
    let total = total_copies(plans);
    if total == 0 {
        return Err(owned("set influence so at least one copy is created"));
    }
    match check_units(plans) {
        Some(m) => return Err(m),
        None => {},
    }
    let mut next_id = first_free_unit_id(plans);
    let (copies, wins, worlds) = place_copies(plans, &mut next_id);
    assert(us[0].1 == plans@[0].root@);
    let pt = match find_block(&plans[0].root, "MCU_Timer") {
        Some(t) => t,
        None => return Err(owned("template has no MCU_Timer")),
    };
    let pd = find_block_in(plans, "MCU_Deactivate");
    let pb = find_block_in(plans, "MCU_TR_MissionBegin");
    let px = find_block_in(plans, "MCU_Delete");
    let (lay, nch) = copy_layout(plans, pct);
    let ghost rp = rand_plan_of(us, pct as int);
    proof {
        assert forall|k: int| 0 <= k < us.len() implies (#[trigger] us[k]).3 >= 0 by {
            assert(us[k].3 == plans@[k].copies);
        }
        lemma_rand_ok(us, pct as int);
        assert(rp.timer == pt@);
        assert(rand_args(rp, pt, pd, pb, px, lay@, nch, wins@, worlds@, next_id));
    }
    let (rz, rid) = build_randomizer(pt, pd, pb, px, &lay, nch, &wins, &worlds, next_id, Ghost(rp));
    let out = pack_group(copies, rz, rid, total, Ghost(us), Ghost(rp));
    Ok(out)
}

} // verus!
