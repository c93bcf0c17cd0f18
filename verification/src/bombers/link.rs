//! Linking bomber plans into one Exclusive Activation file.
//!
//! Each plan template is cloned with fresh indexes and renamed `name [n]`.
//! A NodeGates group gets one gate cell per plan: IN/OUT enable and disable
//! timers, two fan-out timers that reach every other plan's cell, and an
//! Open Zones / Close Zones pair that switches the plan's trigger
//! checkzones. A plan's trigger zones close the other plans; its end timer
//! opens them again. Only one plan is live at a time.


use vstd::prelude::*;
use crate::ast::{EntityModel, Il2Entity, indexes_in, indexes_of, int_array_text, name_of, nodes, nodes_in, prop_set};
use crate::bombers::{BomberInput, all_nodes, find_idx, find_in_nodes, index_pos};
use crate::duplicate::{duplicate_template, duplicated, extend_map, id_map, index_count, law_duplicate_indexes_sequential};
use crate::recon::placed::lemma_indexes_in_push;
use crate::text::{dec_text, int_text, owned, push_dec, push_int, push_str, str_eq};

verus! {

broadcast use vstd::std_specs::hash::group_hash_axioms;

// ---------------------------------------------------------------------------
// Checking the plans
// ---------------------------------------------------------------------------

/// `(label, template, trigger checkzone Indexes, end timer Index)` of a plan.
pub type PlanView = (Seq<char>, EntityModel, Seq<i32>, i32);

pub open spec fn plan_view(p: BomberInput) -> PlanView {
    (p.label@, p.root@, p.trigger_zone_ids@, p.completion_timer_id)
}

pub open spec fn plans_view(ps: Seq<BomberInput>) -> Seq<PlanView> {
    ps.map_values(|p: BomberInput| plan_view(p))
}

/// First of `ids` that no block of `root` carries.
pub open spec fn missing_id(root: EntityModel, ids: Seq<i32>) -> Option<i32>
    decreases ids.len(),
{
    if ids.len() == 0 {
        None
    } else if find_idx(root, ids[0]) is None {
        Some(ids[0])
    } else {
        missing_id(root, ids.drop_first())
    }
}

pub open spec fn plan_label(i: int) -> Seq<char> {
    "plan "@ + dec_text((i + 1) as nat)
}

/// Why plan number `i` (from 0) cannot be linked, if it cannot.
pub open spec fn plan_error(pv: PlanView, i: int) -> Option<Seq<char>> {
    if pv.2.len() == 0 {
        Some(plan_label(i) + " needs at least one trigger checkzone"@)
    } else if find_idx(pv.1, pv.3) is None {
        Some(plan_label(i) + " end trigger timer was not found in the template"@)
    } else {
        match missing_id(pv.1, pv.2) {
            Some(id) => Some(plan_label(i) + " checkzone "@ + int_text(id as int) + " was not found in the template"@),
            None => None,
        }
    }
}

/// The first plan error from plan `i` on.
pub open spec fn first_error(pvs: Seq<PlanView>, i: int) -> Option<Seq<char>>
    decreases pvs.len() - i,
{
    if i < 0 || i >= pvs.len() {
        None
    } else {
        match plan_error(pvs[i], i) {
            Some(m) => Some(m),
            None => first_error(pvs, i + 1),
        }
    }
}

/// First block of `root` (pre-order) whose `Index` is `id`.
pub(crate) fn find_index(root: &Il2Entity, id: i32) -> (r: Option<&Il2Entity>)
    ensures
        match find_idx(root@, id) {
            Some(x) => r matches Some(y) && y@ == x,
            None => r is None,
        },
{
    let ns = all_nodes(root);
    proof {
        assert(ns@.map_values(|e: &Il2Entity| e@) =~= nodes(root@));
    }
    find_in_nodes(&ns, id)
}

pub(crate) fn plan_label_text(i: usize) -> (r: String)
    requires
        i < usize::MAX,
    ensures
        r@ == plan_label(i as int),
{
    let mut s = owned("plan ");
    push_dec(&mut s, (i + 1) as u64);
    s
}

fn check_plan(p: &BomberInput, i: usize) -> (r: Option<String>)
    requires
        i < usize::MAX,
    ensures
        match plan_error(plan_view(*p), i as int) {
            Some(m) => r matches Some(x) && x@ == m,
            None => r is None,
        },
{
    if p.trigger_zone_ids.len() == 0 {
        let mut s = plan_label_text(i);
        push_str(&mut s, " needs at least one trigger checkzone");
        return Some(s);
    }
    if find_index(&p.root, p.completion_timer_id).is_none() {
        let mut s = plan_label_text(i);
        push_str(&mut s, " end trigger timer was not found in the template");
        return Some(s);
    }
    let ghost ids = p.trigger_zone_ids@;
    let mut k: usize = 0;
    proof {
        assert(ids.skip(0) =~= ids);
    }
    while k < p.trigger_zone_ids.len()
        invariant
            k <= ids.len(),
            ids == p.trigger_zone_ids@,
            missing_id(p.root@, ids) == missing_id(p.root@, ids.skip(k as int)),
            i < usize::MAX,
            ids.len() > 0,
            find_idx(p.root@, p.completion_timer_id) is Some,
        decreases ids.len() - k,
    {
        let id = p.trigger_zone_ids[k];
        let ghost rest = ids.skip(k as int);
        assert(rest[0] == id);
        if find_index(&p.root, id).is_none() {
            let mut s = plan_label_text(i);
            push_str(&mut s, " checkzone ");
            push_int(&mut s, id as i64);
            push_str(&mut s, " was not found in the template");
            return Some(s);
        }
        proof {
            assert(rest.drop_first() =~= ids.skip(k + 1));
        }
        k = k + 1;
    }
    proof {
        assert(ids.skip(k as int) =~= Seq::<i32>::empty());
    }
    None
}

fn check_plans(plans: &[BomberInput]) -> (r: Option<String>)
    ensures
        match first_error(plans_view(plans@), 0) {
            Some(m) => r matches Some(x) && x@ == m,
            None => r is None,
        },
{
    let ghost pvs = plans_view(plans@);
    let mut i: usize = 0;
    while i < plans.len()
        invariant
            i <= plans@.len(),
            pvs == plans_view(plans@),
            first_error(pvs, 0) == first_error(pvs, i as int),
        decreases plans@.len() - i,
    {
        assert(pvs[i as int] == plan_view(plans@[i as int]));
        match check_plan(&plans[i], i) {
            Some(m) => return Some(m),
            None => {},
        }
        i = i + 1;
    }
    None
}

// ---------------------------------------------------------------------------
// Prototypes and the first free index
// ---------------------------------------------------------------------------

/// Position of the first block of type `t` in `ns` (the length when none).
pub open spec fn type_pos(ns: Seq<EntityModel>, t: Seq<char>) -> int
    decreases ns.len(),
{
    if ns.len() == 0 {
        0
    } else if ns[0].block_type == t {
        0
    } else {
        1 + type_pos(ns.drop_first(), t)
    }
}

/// First block of type `t` in `root`, pre-order.
pub open spec fn first_of_type(root: EntityModel, t: Seq<char>) -> Option<EntityModel> {
    let ns = nodes(root);
    let k = type_pos(ns, t);
    if k < ns.len() {
        Some(ns[k])
    } else {
        None
    }
}

/// First block of type `t` in the first plan, from plan `i` on, that has one.
pub open spec fn first_of_type_any(pvs: Seq<PlanView>, t: Seq<char>, i: int) -> Option<EntityModel>
    decreases pvs.len() - i,
{
    if i < 0 || i >= pvs.len() {
        None
    } else {
        match first_of_type(pvs[i].1, t) {
            Some(x) => Some(x),
            None => first_of_type_any(pvs, t, i + 1),
        }
    }
}

proof fn lemma_type_pos(ns: Seq<EntityModel>, t: Seq<char>, p: int)
    requires
        0 <= p <= ns.len(),
        p < ns.len() ==> ns[p].block_type == t,
        forall|j: int| 0 <= j < p ==> (#[trigger] ns[j]).block_type != t,
    ensures
        type_pos(ns, t) == p,
    decreases ns.len(),
{
    if ns.len() > 0 && ns[0].block_type != t {
        let r = ns.drop_first();
        assert forall|j: int| 0 <= j < p - 1 implies (#[trigger] r[j]).block_type != t by {
            assert(r[j] == ns[j + 1]);
        }
        if p - 1 < r.len() {
            assert(r[p - 1] == ns[p]);
        }
        lemma_type_pos(r, t, p - 1);
    }
}

pub(crate) fn find_block<'a>(root: &'a Il2Entity, t: &str) -> (r: Option<&'a Il2Entity>)
    ensures
        match first_of_type(root@, t@) {
            Some(x) => r matches Some(y) && y@ == x,
            None => r is None,
        },
{
    let ns = all_nodes(root);
    let ghost m = nodes(root@);
    let mut i: usize = 0;
    while i < ns.len()
        invariant
            i <= ns@.len(),
            m == nodes(root@),
            ns@.len() == m.len(),
            forall|j: int| 0 <= j < ns@.len() ==> #[trigger] ns@[j]@ == m[j],
            forall|j: int| 0 <= j < i ==> (#[trigger] m[j]).block_type != t@,
        decreases ns@.len() - i,
    {
        assert(m[i as int] == ns@[i as int]@);
        let b = ns[i];
        if str_eq(b.block_type.as_str(), t) {
            proof {
                assert(b@.block_type == b.block_type@);
                assert(m[i as int].block_type == t@);
                lemma_type_pos(m, t@, i as int);

            }
            return Some(b);
        }
        i = i + 1;
    }
    proof {
        lemma_type_pos(m, t@, i as int);
    }
    None
}

fn find_block_any<'a>(plans: &'a [BomberInput], t: &str) -> (r: Option<&'a Il2Entity>)
    ensures
        match first_of_type_any(plans_view(plans@), t@, 0) {
            Some(x) => r matches Some(y) && y@ == x,
            None => r is None,
        },
{
    let ghost pvs = plans_view(plans@);
    let mut i: usize = 0;
    while i < plans.len()
        invariant
            i <= plans@.len(),
            pvs == plans_view(plans@),
            first_of_type_any(pvs, t@, 0) == first_of_type_any(pvs, t@, i as int),
        decreases plans@.len() - i,
    {
        assert(pvs[i as int].1 == plans@[i as int].root@);
        match find_block(&plans[i].root, t) {
            Some(b) => return Some(b),
            None => {},
        }
        i = i + 1;
    }
    None
}

/// Highest `Index` among the templates of plans `i..` (0 when none).
pub open spec fn max_root(pvs: Seq<PlanView>, i: int) -> int
    decreases pvs.len() - i,
{
    if i < 0 || i >= pvs.len() {
        0
    } else {
        let a = crate::ast::max_index_of(pvs[i].1);
        let b = max_root(pvs, i + 1);
        if a >= b {
            a
        } else {
            b
        }
    }
}

/// First index handed out: one past every template's highest (saturating).
pub open spec fn first_id(pvs: Seq<PlanView>) -> int {
    if max_root(pvs, 0) >= i32::MAX {
        i32::MAX as int
    } else {
        max_root(pvs, 0) + 1
    }
}

fn first_free_id(plans: &[BomberInput]) -> (r: i32)
    ensures
        r as int == first_id(plans_view(plans@)),
{
    let ghost pvs = plans_view(plans@);
    let mut acc: i32 = 0;
    let mut i: usize = plans.len();
    while i > 0
        invariant
            i <= plans@.len(),
            pvs == plans_view(plans@),
            acc as int == max_root(pvs, i as int),
        decreases i,
    {
        i = i - 1;
        assert(pvs[i as int].1 == plans@[i as int].root@);
        let m = plans[i].root.max_index();
        if m >= acc {
            acc = m;
        }
    }
    if acc == i32::MAX {
        acc
    } else {
        acc + 1
    }
}

// ---------------------------------------------------------------------------
// Plan copies
// ---------------------------------------------------------------------------

/// Number of indexed blocks in the templates of the first `i` plans.
pub open spec fn roots_total(pvs: Seq<PlanView>, i: int) -> int
    decreases i,
{
    if i <= 0 || i > pvs.len() {
        0
    } else {
        roots_total(pvs, i - 1) + index_count(pvs[i - 1].1)
    }
}

/// `e` renamed `n`.
pub open spec fn named(e: EntityModel, n: Seq<char>) -> EntityModel {
    EntityModel { properties: prop_set(e.properties, "Name"@, seq!['"'] + n + seq!['"']), ..e }
}

/// Name of the copy of plan `i`: the template's name (or the plan's
/// label) and ` [i + 1]`.
pub open spec fn copy_name(pv: PlanView, i: int) -> Seq<char> {
    (match name_of(pv.1) {
        Some(n) => n,
        None => pv.0,
    }) + " ["@ + dec_text((i + 1) as nat) + "]"@
}

/// First index of the copy of plan `i`.
pub open spec fn copy_at(pvs: Seq<PlanView>, i: int) -> int {
    first_id(pvs) + roots_total(pvs, i)
}

/// The copy of plan `i`, before it is linked.
pub open spec fn plan_copy(pvs: Seq<PlanView>, i: int) -> EntityModel {
    named(duplicated(pvs[i].1, copy_at(pvs, i)), copy_name(pvs[i], i))
}

pub open spec fn map_at(pvs: Seq<PlanView>, i: int) -> Map<i32, i32> {
    id_map(pvs[i].1, copy_at(pvs, i))
}

/// The copy's Indexes of plan `i`'s trigger checkzones.
pub open spec fn mapped_triggers(pvs: Seq<PlanView>, i: int) -> Seq<i32> {
    pvs[i].2.map_values(|id: i32| map_at(pvs, i)[id])
}

/// The copy's Index of plan `i`'s end timer.
pub open spec fn mapped_completion(pvs: Seq<PlanView>, i: int) -> i32 {
    map_at(pvs, i)[pvs[i].3]
}

proof fn lemma_index_in_indexes(e: EntityModel, k: int, id: i32)
    requires
        0 <= k < nodes(e).len(),
        nodes(e)[k].index == Some(id),
    ensures
        indexes_of(e).contains(id),
    decreases e, 1int,
{
    let own: Seq<i32> = match e.index {
        Some(i) => seq![i],
        None => seq![],
    };
    assert(indexes_of(e) == own + indexes_in(e.children));
    if k == 0 {
        assert(nodes(e)[0] == e);
        assert(own[0] == id);
        assert((own + indexes_in(e.children))[0] == id);
    } else {
        assert(nodes(e)[k] == nodes_in(e.children)[k - 1]);
        lemma_index_in_indexes_list(e.children, k - 1, id);
        let j = choose|j: int| 0 <= j < indexes_in(e.children).len() && indexes_in(e.children)[j] == id;
        assert((own + indexes_in(e.children))[own.len() + j] == id);
    }
}

proof fn lemma_index_in_indexes_list(cs: Seq<EntityModel>, k: int, id: i32)
    requires
        0 <= k < nodes_in(cs).len(),
        nodes_in(cs)[k].index == Some(id),
    ensures
        indexes_in(cs).contains(id),
    decreases cs, 0int,
{
    if cs.len() > 0 {
        let a = nodes(cs[0]);
        let rest = cs.drop_first();
        assert(nodes_in(cs) == a + nodes_in(rest));
        assert(indexes_in(cs) == indexes_of(cs[0]) + indexes_in(rest));
        if k < a.len() {
            assert(nodes_in(cs)[k] == a[k]);
            lemma_index_in_indexes(cs[0], k, id);
            let j = choose|j: int| 0 <= j < indexes_of(cs[0]).len() && indexes_of(cs[0])[j] == id;
            assert((indexes_of(cs[0]) + indexes_in(rest))[j] == id);
        } else {
            assert(nodes_in(cs)[k] == nodes_in(rest)[k - a.len()]);
            lemma_index_in_indexes_list(rest, k - a.len(), id);
            let j = choose|j: int| 0 <= j < indexes_in(rest).len() && indexes_in(rest)[j] == id;
            assert((indexes_of(cs[0]) + indexes_in(rest))[indexes_of(cs[0]).len() + j] == id);
        }
    }
}

proof fn lemma_index_pos_bounds(ns: Seq<EntityModel>, id: i32)
    ensures
        0 <= index_pos(ns, id) <= ns.len(),
        index_pos(ns, id) < ns.len() ==> ns[index_pos(ns, id)].index == Some(id),
    decreases ns.len(),
{
    if ns.len() > 0 && ns[0].index != Some(id) {
        lemma_index_pos_bounds(ns.drop_first(), id);
        if index_pos(ns, id) < ns.len() {
            assert(ns[index_pos(ns, id)] == ns.drop_first()[index_pos(ns, id) - 1]);
        }
    }
}

proof fn lemma_extend_map_has(m: Map<i32, i32>, olds: Seq<i32>, next: int, x: i32)
    requires
        olds.contains(x),
    ensures
        extend_map(m, olds, next).contains_key(x),
    decreases olds.len(),
{
    if olds.last() != x {
        let j = choose|j: int| 0 <= j < olds.len() && olds[j] == x;
        assert(olds.drop_last()[j] == x);
        lemma_extend_map_has(m, olds.drop_last(), next, x);
    }
}

/// A block found in a template keeps an entry in the copy's id map.
pub(crate) proof fn lemma_found_is_mapped(root: EntityModel, id: i32, next: int)
    requires
        find_idx(root, id) is Some,
    ensures
        id_map(root, next).contains_key(id),
{
    let ns = nodes(root);
    lemma_index_pos_bounds(ns, id);
    lemma_index_in_indexes(root, index_pos(ns, id), id);
    lemma_extend_map_has(Map::empty(), indexes_of(root), next, id);
}

fn copy_name_text(p: &BomberInput, i: usize) -> (r: String)
    requires
        i < usize::MAX,
    ensures
        r@ == copy_name(plan_view(*p), i as int),
{
    let mut s = match p.root.name() {
        Some(n) => owned(n),
        None => p.label.clone(),
    };
    push_str(&mut s, " [");
    push_dec(&mut s, (i + 1) as u64);
    push_str(&mut s, "]");
    s
}

/// Copy of plan `i` with its mapped trigger and end Indexes.
fn copy_plan(p: &BomberInput, i: usize, next_id: &mut i32) -> (r: (Il2Entity, Vec<i32>, i32))
    requires
        i < usize::MAX,
        plan_error(plan_view(*p), i as int) is None,
        *old(next_id) + index_count(p.root@) <= i32::MAX,
    ensures
        ({
            let m = id_map(p.root@, *old(next_id) as int);
            &&& r.0@ == named(duplicated(p.root@, *old(next_id) as int), copy_name(plan_view(*p), i as int))
            &&& r.1@ == p.trigger_zone_ids@.map_values(|id: i32| m[id])
            &&& r.2 == m[p.completion_timer_id]
            &&& *final(next_id) == *old(next_id) + index_count(p.root@)
        }),
{
    let ghost start = *next_id as int;
    let (mut clone, map) = duplicate_template(&p.root, next_id);
    let name = copy_name_text(p, i);
    clone.set_name(name.as_str());
    let ghost m = id_map(p.root@, start);
    let ghost ids = p.trigger_zone_ids@;
    proof {
        assert(missing_id(p.root@, ids) is None);
    }
    let mut triggers: Vec<i32> = Vec::new();
    let mut k: usize = 0;
    proof {
        assert(ids.skip(0) =~= ids);
    }
    while k < p.trigger_zone_ids.len()
        invariant
            k <= ids.len(),
            ids == p.trigger_zone_ids@,
            map@ == m,
            m == id_map(p.root@, start),
            missing_id(p.root@, ids.skip(k as int)) is None,
            triggers@ == ids.take(k as int).map_values(|id: i32| m[id]),
        decreases ids.len() - k,
    {
        let id = p.trigger_zone_ids[k];
        let ghost rest = ids.skip(k as int);
        assert(rest[0] == id);
        proof {
            lemma_found_is_mapped(p.root@, id, start);
            assert(rest.drop_first() =~= ids.skip(k + 1));
        }
        match map.get(&id) {
            Some(v) => {
                triggers.push(*v);
            },
            None => {},
        }
        proof {
            assert(ids.take(k + 1) =~= ids.take(k as int).push(id));
            assert(triggers@ =~= ids.take(k + 1).map_values(|id: i32| m[id]));
        }
        k = k + 1;
    }
    proof {
        assert(ids.take(k as int) =~= ids);
        lemma_found_is_mapped(p.root@, p.completion_timer_id, start);
    }
    let completion = match map.get(&p.completion_timer_id) {
        Some(v) => *v,
        None => vstd::pervasive::unreached(),
    };
    (clone, triggers, completion)
}

// ---------------------------------------------------------------------------
// Gate cells
// ---------------------------------------------------------------------------

/// `e` with `Targets` set to `ids`.
pub open spec fn with_targets(e: EntityModel, ids: Seq<i32>) -> EntityModel {
    EntityModel { targets: ids, properties: prop_set(e.properties, "Targets"@, int_array_text(ids)), ..e }
}

/// `e` with `Objects` set to `ids`.
pub open spec fn with_objects(e: EntityModel, ids: Seq<i32>) -> EntityModel {
    EntityModel { objects: ids, properties: prop_set(e.properties, "Objects"@, int_array_text(ids)), ..e }
}

pub open spec fn with_prop(e: EntityModel, k: Seq<char>, v: Seq<char>) -> EntityModel {
    EntityModel { properties: prop_set(e.properties, k, v), ..e }
}

/// A gate timer: the prototype timer copied from index `at`, renamed,
/// firing at once (`Time = 0`, `Random = 100`), with no links yet.
#[verifier::opaque]
pub open spec fn gate_timer(proto: EntityModel, at: int, name: Seq<char>) -> EntityModel {
    with_objects(
        with_targets(with_prop(with_prop(named(duplicated(proto, at), name), "Time"@, "0"@), "Random"@, "100"@), seq![]),
        seq![],
    )
}

/// A fresh MCU of type `t` with Index `at`, at the origin, with no links.
pub open spec fn synthesized(t: Seq<char>, at: int, name: Seq<char>) -> EntityModel {
    let e0 = EntityModel {
        block_type: t,
        index: Some(at as i32),
        targets: seq![],
        objects: seq![],
        properties: seq![],
        children: seq![],
    };
    let e1 = named(with_prop(e0, "Index"@, int_text(at)), name);
    let e2 = with_objects(with_targets(with_prop(e1, "Desc"@, "\"\""@), seq![]), seq![]);
    with_prop(
        with_prop(
            with_prop(with_prop(with_prop(with_prop(e2, "XPos"@, "0"@), "YPos"@, "0"@), "ZPos"@, "0"@), "XOri"@, "0"@),
            "YOri"@,
            "0"@,
        ),
        "ZOri"@,
        "0"@,
    )
}

/// The Open Zones / Close Zones MCU of a cell: the prototype copied (or a
/// fresh MCU of type `t`), listing the plan's trigger checkzones.
pub open spec fn zone_mcu(proto: Option<EntityModel>, t: Seq<char>, at: int, name: Seq<char>, trig: Seq<i32>) -> EntityModel {
    let base = match proto {
        Some(p) => named(duplicated(p, at), name),
        None => synthesized(t, at, name),
    };
    with_objects(with_targets(base, trig), seq![])
}

/// Indexes a zone MCU takes.
pub open spec fn zone_size(proto: Option<EntityModel>) -> int {
    match proto {
        Some(p) => index_count(p),
        None => 1,
    }
}

fn set_no_links(e: &mut Il2Entity)
    ensures
        final(e)@ == with_objects(with_targets(old(e)@, seq![]), seq![]),
{
    e.set_targets(Vec::new());
    e.set_objects(Vec::new());
}

fn gate_timer_x(proto: &Il2Entity, next_id: &mut i32, name: &str) -> (r: Il2Entity)
    requires
        *old(next_id) + index_count(proto@) <= i32::MAX,
        proto@.index is Some,
    ensures
        r@ == gate_timer(proto@, *old(next_id) as int, name@),
        r@.index == Some(*old(next_id)),
        *final(next_id) == *old(next_id) + index_count(proto@),
{
    let (mut t, _) = duplicate_template(proto, next_id);
    t.set_name(name);
    t.set_property("Time", "0");
    t.set_property("Random", "100");
    set_no_links(&mut t);
    proof {
        reveal(gate_timer);
    }
    t
}

pub(crate) fn synthesize_mcu(t: &str, next_id: &mut i32, name: &str) -> (r: Il2Entity)
    requires
        *old(next_id) < i32::MAX,
    ensures
        r@ == synthesized(t@, *old(next_id) as int, name@),
        *final(next_id) == *old(next_id) + 1,
{
    let mut e = Il2Entity::new(t);
    e.index = Some(*next_id);
    let idx = crate::text::int_to_string(*next_id as i64);
    e.set_property("Index", idx.as_str());
    *next_id = *next_id + 1;
    e.set_name(name);
    e.set_property("Desc", "\"\"");
    set_no_links(&mut e);
    e.set_property("XPos", "0");
    e.set_property("YPos", "0");
    e.set_property("ZPos", "0");
    e.set_property("XOri", "0");
    e.set_property("YOri", "0");
    e.set_property("ZOri", "0");
    e
}

fn zone_mcu_x(proto: Option<&Il2Entity>, t: &str, next_id: &mut i32, name: &str, trig: &Vec<i32>) -> (r: Il2Entity)
    requires
        *old(next_id) + zone_size(match proto { Some(p) => Some(p@), None => None }) <= i32::MAX,
        proto matches Some(p) ==> p@.index is Some,
    ensures
        r@.index == Some(*old(next_id)),
        r@ == zone_mcu(match proto { Some(p) => Some(p@), None => None }, t@, *old(next_id) as int, name@, trig@),
        *final(next_id) == *old(next_id) + zone_size(match proto { Some(p) => Some(p@), None => None }),
{
    let mut z = match proto {
        Some(p) => {
            let (mut c, _) = duplicate_template(p, next_id);
            c.set_name(name);
            c
        },
        None => synthesize_mcu(t, next_id, name),
    };
    z.set_targets(crate::ast::copy_ids(trig));
    z.set_objects(Vec::new());
    proof {
        reveal(zone_mcu);
    }
    z
}

// ---------------------------------------------------------------------------
// Hooking a copy to its gate cell
// ---------------------------------------------------------------------------

/// `e` with `id` added to its `Targets` unless it is there already.
pub open spec fn append_model(e: EntityModel, id: i32) -> EntityModel {
    if e.targets.contains(id) {
        e
    } else {
        with_targets(e, e.targets.push(id))
    }
}

/// One block of a copy hooked to its cell: a trigger checkzone also fires
/// the cell's OUT - DISABLE timer, the end timer its OUT - ENABLE timer.
pub open spec fn hook_node(e: EntityModel, trig: Seq<i32>, comp: i32, od: i32, oe: i32) -> EntityModel {
    let e1 = match e.index {
        Some(x) => if trig.contains(x) {
            append_model(e, od)
        } else {
            e
        },
        None => e,
    };
    if e.index == Some(comp) {
        append_model(e1, oe)
    } else {
        e1
    }
}

/// A whole copy hooked to its cell.
pub open spec fn hooked(e: EntityModel, trig: Seq<i32>, comp: i32, od: i32, oe: i32) -> EntityModel
    decreases e,
{
    EntityModel {
        children: Seq::new(
            e.children.len(),
            |i: int|
                if 0 <= i < e.children.len() {
                    hooked(e.children[i], trig, comp, od, oe)
                } else {
                    arbitrary()
                },
        ),
        ..hook_node(e, trig, comp, od, oe)
    }
}

fn hook_links(e: &mut Il2Entity, trig: &Vec<i32>, comp: i32, od: i32, oe: i32)
    ensures
        final(e)@ == hooked(old(e)@, trig@, comp, od, oe),
    decreases *old(e),
{
    let ghost orig = *e;
    proof {
        crate::ast::lemma_children_model(orig);
    }
    let mut i: usize = 0;
    while i < e.children.len()
        invariant
            i <= e.children@.len(),
            e.children@.len() == orig.children@.len(),
            forall|j: int| 0 <= j < i ==> #[trigger] e.children@[j]@ == hooked(orig.children@[j]@, trig@, comp, od, oe),
            forall|j: int| i <= j < e.children@.len() ==> #[trigger] e.children@[j] == orig.children@[j],
            e.properties == orig.properties,
            e.targets == orig.targets,
            e.block_type == orig.block_type,
            e.index == orig.index,
            e.objects == orig.objects,
            orig == *old(e),
        decreases e.children@.len() - i,
    {
        proof {
            assert(decreases_to!(orig => orig.children));
            assert(decreases_to!(orig.children => orig.children@));
            assert(decreases_to!(orig.children@ => orig.children@[i as int]));
        }
        hook_links(&mut e.children[i], trig, comp, od, oe);
        i = i + 1;
    }
    proof {
        crate::ast::lemma_children_model(*e);
    }
    let ghost kids = e@.children;
    match e.index {
        Some(x) => {
            if crate::ast::contains_id(trig, x) {
                e.append_target(od);
            }
        },
        None => {},
    }
    if e.index == Some(comp) {
        e.append_target(oe);
    }
    proof {
        let h = hooked(orig@, trig@, comp, od, oe);
        assert(e@.children == kids);
        assert(kids =~= h.children);
    }
}

// ---------------------------------------------------------------------------
// The linked file
// ---------------------------------------------------------------------------

pub open spec fn timer_proto(pvs: Seq<PlanView>) -> EntityModel {
    first_of_type(pvs[0].1, "MCU_Timer"@)->0
}

pub open spec fn act_proto(pvs: Seq<PlanView>) -> Option<EntityModel> {
    first_of_type_any(pvs, "MCU_Activate"@, 0)
}

pub open spec fn deact_proto(pvs: Seq<PlanView>) -> Option<EntityModel> {
    first_of_type_any(pvs, "MCU_Deactivate"@, 0)
}

pub open spec fn tsize(pvs: Seq<PlanView>) -> int {
    index_count(timer_proto(pvs))
}

/// Indexes one gate cell takes.
pub open spec fn cell_size(pvs: Seq<PlanView>) -> int {
    6 * tsize(pvs) + zone_size(act_proto(pvs)) + zone_size(deact_proto(pvs))
}

/// First index of gate cell `i`; cells follow the copies.
pub open spec fn cell_at(pvs: Seq<PlanView>, i: int) -> int {
    copy_at(pvs, pvs.len() as int) + i * cell_size(pvs)
}

/// One past the last index the cells take.
pub open spec fn link_end(pvs: Seq<PlanView>) -> int {
    cell_at(pvs, pvs.len() as int)
}

pub open spec fn cell_name(i: int, suffix: Seq<char>) -> Seq<char> {
    dec_text((i + 1) as nat) + suffix
}

pub open spec fn in_enable_id(pvs: Seq<PlanView>, i: int) -> i32 {
    cell_at(pvs, i) as i32
}

pub open spec fn in_disable_id(pvs: Seq<PlanView>, i: int) -> i32 {
    (cell_at(pvs, i) + tsize(pvs)) as i32
}

pub open spec fn out_enable_id(pvs: Seq<PlanView>, i: int) -> i32 {
    (cell_at(pvs, i) + 2 * tsize(pvs)) as i32
}

pub open spec fn out_disable_id(pvs: Seq<PlanView>, i: int) -> i32 {
    (cell_at(pvs, i) + 3 * tsize(pvs)) as i32
}

pub open spec fn fanout_enable_id(pvs: Seq<PlanView>, i: int) -> i32 {
    (cell_at(pvs, i) + 4 * tsize(pvs)) as i32
}

pub open spec fn fanout_disable_id(pvs: Seq<PlanView>, i: int) -> i32 {
    (cell_at(pvs, i) + 5 * tsize(pvs)) as i32
}

pub open spec fn open_id(pvs: Seq<PlanView>, i: int) -> i32 {
    (cell_at(pvs, i) + 6 * tsize(pvs)) as i32
}

pub open spec fn close_id(pvs: Seq<PlanView>, i: int) -> i32 {
    (cell_at(pvs, i) + 6 * tsize(pvs) + zone_size(act_proto(pvs))) as i32
}

/// `ids` without position `i`.
pub open spec fn others(ids: Seq<i32>, i: int) -> Seq<i32> {
    ids.take(i) + ids.skip(i + 1)
}

pub open spec fn enable_ids(pvs: Seq<PlanView>) -> Seq<i32> {
    Seq::new(pvs.len(), |j: int| in_enable_id(pvs, j))
}

pub open spec fn disable_ids(pvs: Seq<PlanView>) -> Seq<i32> {
    Seq::new(pvs.len(), |j: int| in_disable_id(pvs, j))
}

/// Gate cell `i` in file order: IN - DISABLE, OUT - DISABLE, IN - ENABLE,
/// OUT - ENABLE, the two fan-out timers, Open Zones, Close Zones.
pub open spec fn gate_cell(pvs: Seq<PlanView>, i: int) -> Seq<EntityModel> {
    let pt = timer_proto(pvs);
    let c = cell_at(pvs, i);
    let ts = tsize(pvs);
    seq![
        with_targets(gate_timer(pt, c + ts, cell_name(i, "IN - DISABLE"@)), seq![close_id(pvs, i)]),
        with_targets(gate_timer(pt, c + 3 * ts, cell_name(i, "OUT - DISABLE"@)), seq![fanout_disable_id(pvs, i)]),
        with_targets(gate_timer(pt, c, cell_name(i, "IN - ENABLE"@)), seq![open_id(pvs, i)]),
        with_targets(gate_timer(pt, c + 2 * ts, cell_name(i, "OUT - ENABLE"@)), seq![fanout_enable_id(pvs, i)]),
        with_targets(gate_timer(pt, c + 4 * ts, cell_name(i, seq![])), others(enable_ids(pvs), i)),
        with_targets(gate_timer(pt, c + 5 * ts, cell_name(i, seq![])), others(disable_ids(pvs), i)),
        zone_mcu(act_proto(pvs), "MCU_Activate"@, c + 6 * ts, cell_name(i, " Open Zones"@), mapped_triggers(pvs, i)),
        zone_mcu(
            deact_proto(pvs),
            "MCU_Deactivate"@,
            c + 6 * ts + zone_size(act_proto(pvs)),
            cell_name(i, " Close Zones"@),
            mapped_triggers(pvs, i),
        ),
    ]
}

/// The cells of the first `k` plans, in order.
pub open spec fn gates_flat(pvs: Seq<PlanView>, k: int) -> Seq<EntityModel>
    decreases k,
{
    if k <= 0 {
        seq![]
    } else {
        gates_flat(pvs, k - 1) + gate_cell(pvs, k - 1)
    }
}

/// The copy of plan `i`, hooked to its cell.
pub open spec fn linked_copy(pvs: Seq<PlanView>, i: int) -> EntityModel {
    hooked(plan_copy(pvs, i), mapped_triggers(pvs, i), mapped_completion(pvs, i), out_disable_id(pvs, i), out_enable_id(pvs, i))
}

/// A `Group` named `name` with Index `at`, an empty `Desc`, and `children`.
pub open spec fn wrapper(name: Seq<char>, at: int, children: Seq<EntityModel>) -> EntityModel {
    EntityModel {
        block_type: "Group"@,
        index: Some(at as i32),
        targets: seq![],
        objects: seq![],
        properties: prop_set(
            prop_set(prop_set(seq![], "Index"@, int_text(at)), "Name"@, seq!['"'] + name + seq!['"']),
            "Desc"@,
            "\"\""@,
        ),
        children,
    }
}

/// The linked file: the hooked copies, then the NodeGates group.
pub open spec fn linked_plans(pvs: Seq<PlanView>) -> EntityModel {
    let end = link_end(pvs);
    wrapper(
        "Exclusive Activation"@,
        end,
        Seq::new(pvs.len(), |i: int| linked_copy(pvs, i)).push(wrapper("NodeGates"@, end + 1, gates_flat(pvs, pvs.len() as int))),
    )
}

/// What linking needs of its inputs beyond the checks it makes: the
/// prototype MCUs carry an Index, and every index handed out fits `i32`.
pub open spec fn linkable(pvs: Seq<PlanView>) -> bool {
    pvs.len() > 0 && first_error(pvs, 0) is None && first_of_type(pvs[0].1, "MCU_Timer"@) is Some ==> {
        &&& timer_proto(pvs).index is Some
        &&& (act_proto(pvs) matches Some(a) ==> a.index is Some)
        &&& (deact_proto(pvs) matches Some(a) ==> a.index is Some)
        &&& link_end(pvs) + 1 <= i32::MAX
    }
}

proof fn lemma_roots_total_mono(pvs: Seq<PlanView>, i: int, j: int)
    requires
        0 <= i <= j <= pvs.len(),
    ensures
        0 <= roots_total(pvs, i) <= roots_total(pvs, j),
    decreases j,
{
    if j > i {
        lemma_roots_total_mono(pvs, i, j - 1);
    } else if i > 0 {
        lemma_roots_total_mono(pvs, 0, i - 1);
    }
}

proof fn lemma_cell_arith(pvs: Seq<PlanView>, i: int)
    requires
        0 <= i < pvs.len(),
        tsize(pvs) >= 0,
        zone_size(act_proto(pvs)) >= 0,
        zone_size(deact_proto(pvs)) >= 0,
    ensures
        cell_at(pvs, i + 1) == cell_at(pvs, i) + cell_size(pvs),
        cell_at(pvs, i + 1) <= link_end(pvs),
        cell_at(pvs, i) >= copy_at(pvs, pvs.len() as int),
{
    let cs = cell_size(pvs);
    let n = pvs.len() as int;
    assert((i + 1) * cs == i * cs + cs) by (nonlinear_arith);
    assert((i + 1) * cs <= n * cs) by (nonlinear_arith)
        requires
            i + 1 <= n,
            cs >= 0,
    ;
    assert(i * cs >= 0) by (nonlinear_arith)
        requires
            i >= 0,
            cs >= 0,
    ;
}

// ---------------------------------------------------------------------------
// Building the file
// ---------------------------------------------------------------------------

pub open spec fn opt_view(p: Option<&Il2Entity>) -> Option<EntityModel> {
    match p {
        Some(x) => Some(x@),
        None => None,
    }
}

struct GateCell {
    in_enable: Il2Entity,
    in_disable: Il2Entity,
    out_enable: Il2Entity,
    out_disable: Il2Entity,
    fanout_enable: Il2Entity,
    fanout_disable: Il2Entity,
    open_zones: Il2Entity,
    close_zones: Il2Entity,
}

fn cell_text(i: usize, suffix: &str) -> (r: String)
    requires
        i < usize::MAX,
    ensures
        r@ == cell_name(i as int, suffix@),
{
    let mut s = String::new();
    push_dec(&mut s, (i + 1) as u64);
    push_str(&mut s, suffix);
    proof {
        assert(s@ =~= cell_name(i as int, suffix@));
    }
    s
}


/// Cell `j` as built, before its fan-out timers are wired.
spec fn cell_done(c: GateCell, pvs: Seq<PlanView>, j: int) -> bool {
    let g = gate_cell(pvs, j);
    &&& c.in_disable@ == g[0]
    &&& c.out_disable@ == g[1]
    &&& c.in_enable@ == g[2]
    &&& c.out_enable@ == g[3]
    &&& g[4] == with_targets(c.fanout_enable@, others(enable_ids(pvs), j))
    &&& g[5] == with_targets(c.fanout_disable@, others(disable_ids(pvs), j))
    &&& c.open_zones@ == g[6]
    &&& c.close_zones@ == g[7]
    &&& c.in_enable@.index == Some(in_enable_id(pvs, j))
    &&& c.in_disable@.index == Some(in_disable_id(pvs, j))
    &&& c.out_enable@.index == Some(out_enable_id(pvs, j))
    &&& c.out_disable@.index == Some(out_disable_id(pvs, j))
}

proof fn lemma_cell_nonneg(pvs: Seq<PlanView>)
    ensures
        tsize(pvs) >= 0,
        zone_size(act_proto(pvs)) >= 0,
        zone_size(deact_proto(pvs)) >= 0,
        cell_size(pvs) >= 0,
{
}

proof fn lemma_cell_arith_end(pvs: Seq<PlanView>)
    requires
        tsize(pvs) >= 0,
        zone_size(act_proto(pvs)) >= 0,
        zone_size(deact_proto(pvs)) >= 0,
    ensures
        copy_at(pvs, pvs.len() as int) <= link_end(pvs),
{
    let cs = cell_size(pvs);
    let n = pvs.len() as int;
    assert(n * cs >= 0) by (nonlinear_arith)
        requires
            n >= 0,
            cs >= 0,
    ;
}

/// Gate cell `i` before its fan-out timers are wired.
fn build_cell(
    pt: &Il2Entity,
    pa: Option<&Il2Entity>,
    pd: Option<&Il2Entity>,
    i: usize,
    trig: &Vec<i32>,
    next_id: &mut i32,
) -> (r: GateCell)
    requires
        i < usize::MAX,
        pt@.index is Some,
        pa matches Some(a) ==> a@.index is Some,
        pd matches Some(a) ==> a@.index is Some,
        *old(next_id) + 6 * index_count(pt@) + zone_size(opt_view(pa)) + zone_size(opt_view(pd)) <= i32::MAX,
    ensures
        ({
            let c = *old(next_id) as int;
            let ts = index_count(pt@);
            let za = zone_size(opt_view(pa));
            &&& r.in_enable@ == with_targets(gate_timer(pt@, c, cell_name(i as int, "IN - ENABLE"@)), seq![(c + 6 * ts) as i32])
            &&& r.in_disable@ == with_targets(gate_timer(pt@, c + ts, cell_name(i as int, "IN - DISABLE"@)), seq![(c + 6 * ts + za) as i32])
            &&& r.out_enable@ == with_targets(gate_timer(pt@, c + 2 * ts, cell_name(i as int, "OUT - ENABLE"@)), seq![(c + 4 * ts) as i32])
            &&& r.out_disable@ == with_targets(gate_timer(pt@, c + 3 * ts, cell_name(i as int, "OUT - DISABLE"@)), seq![(c + 5 * ts) as i32])
            &&& r.fanout_enable@ == gate_timer(pt@, c + 4 * ts, cell_name(i as int, seq![]))
            &&& r.fanout_disable@ == gate_timer(pt@, c + 5 * ts, cell_name(i as int, seq![]))
            &&& r.open_zones@ == zone_mcu(opt_view(pa), "MCU_Activate"@, c + 6 * ts, cell_name(i as int, " Open Zones"@), trig@)
            &&& r.close_zones@ == zone_mcu(opt_view(pd), "MCU_Deactivate"@, c + 6 * ts + za, cell_name(i as int, " Close Zones"@), trig@)
            &&& r.in_enable@.index == Some(c as i32)
            &&& r.in_disable@.index == Some((c + ts) as i32)
            &&& r.out_enable@.index == Some((c + 2 * ts) as i32)
            &&& r.out_disable@.index == Some((c + 3 * ts) as i32)
            &&& *final(next_id) == c + 6 * ts + za + zone_size(opt_view(pd))
        }),
{
    let ghost c = *next_id as int;
    let ghost ts = index_count(pt@);
    let n_ie = cell_text(i, "IN - ENABLE");
    let n_id = cell_text(i, "IN - DISABLE");
    let n_oe = cell_text(i, "OUT - ENABLE");
    let n_od = cell_text(i, "OUT - DISABLE");
    let n_f = cell_text(i, "");
    proof {
        reveal_strlit("");
        assert(cell_name(i as int, ""@) =~= cell_name(i as int, seq![]));
    }
    let mut in_enable = gate_timer_x(pt, next_id, n_ie.as_str());
    let mut in_disable = gate_timer_x(pt, next_id, n_id.as_str());
    let mut out_enable = gate_timer_x(pt, next_id, n_oe.as_str());
    let mut out_disable = gate_timer_x(pt, next_id, n_od.as_str());
    let fanout_enable = gate_timer_x(pt, next_id, n_f.as_str());
    let fanout_disable = gate_timer_x(pt, next_id, n_f.as_str());
    let n_open = cell_text(i, " Open Zones");
    let n_close = cell_text(i, " Close Zones");
    let open_zones = zone_mcu_x(pa, "MCU_Activate", next_id, n_open.as_str(), trig);
    let close_zones = zone_mcu_x(pd, "MCU_Deactivate", next_id, n_close.as_str(), trig);
    let open_id = match open_zones.index {
        Some(x) => x,
        None => vstd::pervasive::unreached(),
    };
    let close_id = match close_zones.index {
        Some(x) => x,
        None => vstd::pervasive::unreached(),
    };
    let fe_id = match fanout_enable.index {
        Some(x) => x,
        None => vstd::pervasive::unreached(),
    };
    let fd_id = match fanout_disable.index {
        Some(x) => x,
        None => vstd::pervasive::unreached(),
    };
    let t_open = vec![open_id];
    let t_close = vec![close_id];
    let t_fe = vec![fe_id];
    let t_fd = vec![fd_id];
    proof {
        assert(t_open@ =~= seq![open_id]);
        assert(t_close@ =~= seq![close_id]);
        assert(t_fe@ =~= seq![fe_id]);
        assert(t_fd@ =~= seq![fd_id]);
    }
    in_enable.set_targets(t_open);
    in_disable.set_targets(t_close);
    out_enable.set_targets(t_fe);
    out_disable.set_targets(t_fd);
    GateCell { in_enable, in_disable, out_enable, out_disable, fanout_enable, fanout_disable, open_zones, close_zones }
}

fn others_of(ids: &Vec<i32>, i: usize) -> (r: Vec<i32>)
    requires
        i < ids@.len(),
    ensures
        r@ == others(ids@, i as int),
{
    let mut out: Vec<i32> = Vec::new();
    let mut j: usize = 0;
    while j < ids.len()
        invariant
            j <= ids@.len(),
            i < ids@.len(),
            j <= i ==> out@ == ids@.take(j as int),
            j > i ==> out@ == ids@.take(i as int) + ids@.subrange(i + 1, j as int),
        decreases ids@.len() - j,
    {
        if j != i {
            out.push(ids[j]);
        }
        proof {
            if j < i {
                assert(ids@.take(j + 1) =~= ids@.take(j as int).push(ids@[j as int]));
            } else if j == i {
                assert(ids@.take(i as int) + ids@.subrange(i + 1, j + 1) =~= ids@.take(i as int));
            } else {
                assert(ids@.take(i as int) + ids@.subrange(i + 1, j + 1) =~= (ids@.take(i as int) + ids@.subrange(i + 1, j as int)).push(ids@[j as int]));
            }
        }
        j = j + 1;
    }
    proof {
        assert(ids@.subrange(i + 1, ids@.len() as int) =~= ids@.skip(i + 1));
    }
    out
}

/// Clone `plans` into one file with a NodeGates mutex: one plan live at a
/// time. Each copy keeps its template's positions, and each gate cell its
/// prototype's.
pub fn link_bomber_plans(plans: &[BomberInput]) -> (r: Result<Il2Entity, String>)
    requires
        linkable(plans_view(plans@)),
    ensures
        ({
            let pvs = plans_view(plans@);
            if pvs.len() == 0 {
                r matches Err(e) && e@ == "add at least one template"@
            } else if first_error(pvs, 0) is Some {
                r matches Err(e) && e@ == first_error(pvs, 0)->0
            } else if first_of_type(pvs[0].1, "MCU_Timer"@) is None {
                r matches Err(e) && e@ == "template has no MCU_Timer to clone for NodeGates"@
            } else {
                r matches Ok(g) && g@ == linked_plans(pvs)
            }
        }),
{
    let ghost pvs = plans_view(plans@);
    if plans.len() == 0 {
        return Err(owned("add at least one template"));
    }
    match check_plans(plans) {
        Some(m) => return Err(m),
        None => {},
    }
    let mut next_id = first_free_id(plans);
    assert(pvs[0].1 == plans@[0].root@);
    let pt = match find_block(&plans[0].root, "MCU_Timer") {
        Some(t) => t,
        None => return Err(owned("template has no MCU_Timer to clone for NodeGates")),
    };
    let pa = find_block_any(plans, "MCU_Activate");
    let pd = find_block_any(plans, "MCU_Deactivate");
    let n = plans.len();
    proof {
        assert(pt@ == timer_proto(pvs));
        assert(opt_view(pa) == act_proto(pvs));
        assert(opt_view(pd) == deact_proto(pvs));
        lemma_roots_total_mono(pvs, 0, n as int);
    }
    // copies of the plans
    let mut copies: Vec<Il2Entity> = Vec::new();
    let mut triggers: Vec<Vec<i32>> = Vec::new();
    let mut completions: Vec<i32> = Vec::new();
    let mut i: usize = 0;
    while i < n
        invariant
            i <= n,
            n == plans@.len(),
            pvs == plans_view(plans@),
            linkable(pvs),
            first_error(pvs, 0) is None,
            first_error(pvs, 0) == first_error(pvs, i as int),
            first_of_type(pvs[0].1, "MCU_Timer"@) is Some,
            next_id as int == copy_at(pvs, i as int),
            copies@.len() == i,
            triggers@.len() == i,
            completions@.len() == i,
            forall|j: int| 0 <= j < i ==> #[trigger] copies@[j]@ == plan_copy(pvs, j),
            forall|j: int| 0 <= j < i ==> #[trigger] triggers@[j]@ == mapped_triggers(pvs, j),
            forall|j: int| 0 <= j < i ==> #[trigger] completions@[j] == mapped_completion(pvs, j),
        decreases n - i,
    {
        proof {
            assert(pvs[i as int] == plan_view(plans@[i as int]));
            lemma_roots_total_mono(pvs, i + 1, n as int);
            lemma_cell_nonneg(pvs);
            lemma_cell_arith_end(pvs);
        }
        let (c, t, comp) = copy_plan(&plans[i], i, &mut next_id);
        copies.push(c);
        triggers.push(t);
        completions.push(comp);
        i = i + 1;
    }
    // gate cells
    let mut cells: Vec<GateCell> = Vec::new();
    let mut k: usize = 0;
    while k < n
        invariant
            k <= n,
            n == plans@.len(),
            pvs == plans_view(plans@),
            linkable(pvs),
            first_error(pvs, 0) is None,
            first_of_type(pvs[0].1, "MCU_Timer"@) is Some,
            pt@ == timer_proto(pvs),
            opt_view(pa) == act_proto(pvs),
            opt_view(pd) == deact_proto(pvs),
            next_id as int == cell_at(pvs, k as int),
            triggers@.len() == n,
            forall|j: int| 0 <= j < n ==> #[trigger] triggers@[j]@ == mapped_triggers(pvs, j),
            cells@.len() == k,
            forall|j: int| 0 <= j < k ==> cell_done(#[trigger] cells@[j], pvs, j),
        decreases n - k,
    {
        proof {
            lemma_cell_nonneg(pvs);
            lemma_cell_arith(pvs, k as int);
        }
        let cell = build_cell(pt, pa, pd, k, &triggers[k], &mut next_id);
        cells.push(cell);
        k = k + 1;
    }
    // hook each copy to its cell
    let mut h: usize = 0;
    while h < n
        invariant
            h <= n,
            n == plans@.len(),
            pvs == plans_view(plans@),
            copies@.len() == n,
            triggers@.len() == n,
            completions@.len() == n,
            cells@.len() == n,
            forall|j: int| 0 <= j < n ==> #[trigger] triggers@[j]@ == mapped_triggers(pvs, j),
            forall|j: int| 0 <= j < n ==> #[trigger] completions@[j] == mapped_completion(pvs, j),
            forall|j: int| 0 <= j < n ==> cell_done(#[trigger] cells@[j], pvs, j),
            forall|j: int| 0 <= j < h ==> #[trigger] copies@[j]@ == linked_copy(pvs, j),
            forall|j: int| h <= j < n ==> #[trigger] copies@[j]@ == plan_copy(pvs, j),
        decreases n - h,
    {
        let od = match cells[h].out_disable.index {
            Some(x) => x,
            None => vstd::pervasive::unreached(),
        };
        let oe = match cells[h].out_enable.index {
            Some(x) => x,
            None => vstd::pervasive::unreached(),
        };
        assert(cell_done(cells@[h as int], pvs, h as int));
        hook_links(&mut copies[h], &triggers[h], completions[h], od, oe);
        h = h + 1;
    }
    // fan-outs and the NodeGates children
    let mut enable: Vec<i32> = Vec::new();
    let mut disable: Vec<i32> = Vec::new();
    let mut e: usize = 0;
    while e < n
        invariant
            e <= n,
            cells@.len() == n,
            n == pvs.len(),
            forall|j: int| 0 <= j < n ==> cell_done(#[trigger] cells@[j], pvs, j),
            enable@ == enable_ids(pvs).take(e as int),
            disable@ == disable_ids(pvs).take(e as int),
        decreases n - e,
    {
        assert(cell_done(cells@[e as int], pvs, e as int));
        let a = match cells[e].in_enable.index {
            Some(x) => x,
            None => vstd::pervasive::unreached(),
        };
        let b = match cells[e].in_disable.index {
            Some(x) => x,
            None => vstd::pervasive::unreached(),
        };
        enable.push(a);
        disable.push(b);
        proof {
            assert(enable_ids(pvs).take(e + 1) =~= enable_ids(pvs).take(e as int).push(a));
            assert(disable_ids(pvs).take(e + 1) =~= disable_ids(pvs).take(e as int).push(b));
        }
        e = e + 1;
    }
    proof {
        assert(enable_ids(pvs).take(n as int) =~= enable_ids(pvs));
        assert(disable_ids(pvs).take(n as int) =~= disable_ids(pvs));
    }
    let mut flat: Vec<Il2Entity> = Vec::new();
    let mut g: usize = 0;
    while g < n
        invariant
            g <= n,
            cells@.len() == n,
            n == pvs.len(),
            forall|j: int| 0 <= j < n ==> cell_done(#[trigger] cells@[j], pvs, j),
            enable@ == enable_ids(pvs),
            disable@ == disable_ids(pvs),
            flat@.map_values(|x: Il2Entity| x@) == gates_flat(pvs, g as int),
        decreases n - g,
    {
        assert(cell_done(cells@[g as int], pvs, g as int));
        let ghost before = flat@.map_values(|x: Il2Entity| x@);
        flat.push(cells[g].in_disable.clone());
        flat.push(cells[g].out_disable.clone());
        flat.push(cells[g].in_enable.clone());
        flat.push(cells[g].out_enable.clone());
        let mut fe = cells[g].fanout_enable.clone();
        fe.set_targets(others_of(&enable, g));
        flat.push(fe);
        let mut fd = cells[g].fanout_disable.clone();
        fd.set_targets(others_of(&disable, g));
        flat.push(fd);
        flat.push(cells[g].open_zones.clone());
        flat.push(cells[g].close_zones.clone());
        proof {
            assert(flat@.map_values(|x: Il2Entity| x@) =~= before + gate_cell(pvs, g as int));
        }
        g = g + 1;
    }
    let end = next_id;
    proof {
        assert(end as int == link_end(pvs));
    }
    let mut out = Il2Entity::new("Group");
    out.index = Some(end);
    let t_end = crate::text::int_to_string(end as i64);
    out.set_property("Index", t_end.as_str());
    out.set_name("Exclusive Activation");
    out.set_property("Desc", "\"\"");
    let mut gates = Il2Entity::new("Group");
    let gid = end + 1;
    gates.index = Some(gid);
    let t_gid = crate::text::int_to_string(gid as i64);
    gates.set_property("Index", t_gid.as_str());
    gates.set_name("NodeGates");
    gates.set_property("Desc", "\"\"");
    gates.children = flat;
    let ghost gates_v = gates@;
    proof {
        crate::ast::lemma_children_model(gates);
        assert(gates_v.children =~= gates_flat(pvs, n as int));
        assert(gates_v == wrapper("NodeGates"@, end + 1, gates_flat(pvs, n as int)));
    }
    copies.push(gates);
    out.children = copies;
    proof {
        crate::ast::lemma_children_model(out);
        assert(out@.children =~= Seq::new(pvs.len(), |i: int| linked_copy(pvs, i)).push(gates_v));
    }
    Ok(out)
}

// ---------------------------------------------------------------------------
// Every index of the linked file is unique
// ---------------------------------------------------------------------------

pub open spec fn rng(lo: int, hi: int) -> Set<int> {
    Set::new(|x: int| lo <= x < hi)
}

/// No index repeats in `s`, and all lie in `r`.
pub open spec fn unique_in(s: Seq<i32>, r: Set<int>) -> bool {
    &&& s.no_duplicates()
    &&& forall|k: int| 0 <= k < s.len() ==> r.contains(#[trigger] s[k] as int)
}

pub(crate) proof fn lemma_unique_concat(a: Seq<i32>, b: Seq<i32>, ra: Set<int>, rb: Set<int>)
    requires
        unique_in(a, ra),
        unique_in(b, rb),
        ra.disjoint(rb),
    ensures
        unique_in(a + b, ra.union(rb)),
{
    let c = a + b;
    assert forall|i: int, j: int| 0 <= i < c.len() && 0 <= j < c.len() && i != j implies c[i] != c[j] by {
        if i < a.len() && j < a.len() {
            assert(c[i] == a[i] && c[j] == a[j]);
        } else if i >= a.len() && j >= a.len() {
            assert(c[i] == b[i - a.len()] && c[j] == b[j - a.len()]);
        } else if i < a.len() {
            assert(c[i] == a[i] && c[j] == b[j - a.len()]);
            assert(ra.contains(a[i] as int));
            assert(rb.contains(b[j - a.len()] as int));
        } else {
            assert(c[j] == a[j] && c[i] == b[i - a.len()]);
            assert(ra.contains(a[j] as int));
            assert(rb.contains(b[i - a.len()] as int));
        }
    }
    assert forall|k: int| 0 <= k < c.len() implies ra.union(rb).contains(#[trigger] c[k] as int) by {
        if k < a.len() {
            assert(c[k] == a[k]);
        } else {
            assert(c[k] == b[k - a.len()]);
        }
    }
}

pub(crate) proof fn lemma_unique_widen(s: Seq<i32>, r: Set<int>, w: Set<int>)
    requires
        unique_in(s, r),
        r.subset_of(w),
    ensures
        unique_in(s, w),
{
}

/// A run of consecutive indexes from `lo` is unique in `[lo, lo + len)`.
proof fn lemma_run_unique(s: Seq<i32>, lo: int)
    requires
        forall|k: int| 0 <= k < s.len() ==> #[trigger] s[k] == lo + k,
    ensures
        unique_in(s, rng(lo, lo + s.len())),
{
}

pub(crate) proof fn lemma_same_indexes_list(cs: Seq<EntityModel>, ds: Seq<EntityModel>)
    requires
        cs.len() == ds.len(),
        forall|i: int| 0 <= i < cs.len() ==> indexes_of(#[trigger] ds[i]) == indexes_of(cs[i]),
    ensures
        indexes_in(ds) == indexes_in(cs),
    decreases cs.len(),
{
    if cs.len() > 0 {
        assert(indexes_of(ds[0]) == indexes_of(cs[0]));
        let (c2, d2) = (cs.drop_first(), ds.drop_first());
        assert forall|i: int| 0 <= i < c2.len() implies indexes_of(#[trigger] d2[i]) == indexes_of(c2[i]) by {
            assert(d2[i] == ds[i + 1]);
            assert(c2[i] == cs[i + 1]);
        }
        lemma_same_indexes_list(c2, d2);
    }
}

proof fn lemma_hooked_indexes(e: EntityModel, trig: Seq<i32>, comp: i32, od: i32, oe: i32)
    ensures
        indexes_of(hooked(e, trig, comp, od, oe)) == indexes_of(e),
    decreases e,
{
    let h = hooked(e, trig, comp, od, oe);
    assert forall|i: int| 0 <= i < e.children.len() implies indexes_of(#[trigger] h.children[i]) == indexes_of(e.children[i]) by {
        lemma_hooked_indexes(e.children[i], trig, comp, od, oe);
    }
    lemma_same_indexes_list(e.children, h.children);
}

pub(crate) proof fn lemma_dup_run(t: EntityModel, at: int)
    requires
        i32::MIN <= at,
        at + index_count(t) <= i32::MAX + 1,
    ensures
        unique_in(indexes_of(duplicated(t, at)), rng(at, at + index_count(t))),
{
    law_duplicate_indexes_sequential(t, at);
    lemma_run_unique(indexes_of(duplicated(t, at)), at);
}

proof fn lemma_gate_timer_run(t: EntityModel, at: int, name: Seq<char>, ids: Seq<i32>)
    requires
        i32::MIN <= at,
        at + index_count(t) <= i32::MAX + 1,
    ensures
        unique_in(indexes_of(with_targets(gate_timer(t, at, name), ids)), rng(at, at + index_count(t))),
{
    reveal(gate_timer);
    lemma_dup_run(t, at);
    let d = duplicated(t, at);
    assert(indexes_of(with_targets(gate_timer(t, at, name), ids)) == indexes_of(d));
}

proof fn lemma_zone_run(p: Option<EntityModel>, ty: Seq<char>, at: int, name: Seq<char>, trig: Seq<i32>)
    requires
        i32::MIN <= at,
        at + zone_size(p) <= i32::MAX + 1,
    ensures
        unique_in(indexes_of(zone_mcu(p, ty, at, name, trig)), rng(at, at + zone_size(p))),
{
    reveal(zone_mcu);
    match p {
        Some(t) => {
            lemma_dup_run(t, at);
            assert(indexes_of(zone_mcu(p, ty, at, name, trig)) == indexes_of(duplicated(t, at)));
        },
        None => {
            let z = zone_mcu(p, ty, at, name, trig);
            assert(z.children =~= Seq::<EntityModel>::empty());
            assert(indexes_in(z.children) =~= Seq::<i32>::empty());
            assert(indexes_of(z) =~= seq![at as i32]);
        },
    }
}

pub(crate) proof fn lemma_indexes_in_concat(a: Seq<EntityModel>, b: Seq<EntityModel>)
    ensures
        indexes_in(a + b) == indexes_in(a) + indexes_in(b),
    decreases b.len(),
{
    if b.len() == 0 {
        assert(a + b =~= a);
        assert(indexes_in(b) =~= Seq::<i32>::empty());
        assert(indexes_in(a) + indexes_in(b) =~= indexes_in(a));
    } else {
        let bl = b.drop_last();
        lemma_indexes_in_concat(a, bl);
        assert(a + b =~= (a + bl).push(b.last()));
        assert(b =~= bl.push(b.last()));
        lemma_indexes_in_push(a + bl, b.last());
        lemma_indexes_in_push(bl, b.last());
        assert(indexes_in(a + b) =~= indexes_in(a) + indexes_in(b));
    }
}

proof fn lemma_cell_pieces(g: Seq<EntityModel>)
    requires
        g.len() == 8,
    ensures
        indexes_in(g) == indexes_of(g[0]) + indexes_of(g[1]) + indexes_of(g[2]) + indexes_of(g[3]) + indexes_of(g[4])
            + indexes_of(g[5]) + indexes_of(g[6]) + indexes_of(g[7]),
{
    let e = Seq::<EntityModel>::empty();
    assert(g =~= e.push(g[0]).push(g[1]).push(g[2]).push(g[3]).push(g[4]).push(g[5]).push(g[6]).push(g[7]));
    lemma_indexes_in_push(e, g[0]);
    lemma_indexes_in_push(e.push(g[0]), g[1]);
    lemma_indexes_in_push(e.push(g[0]).push(g[1]), g[2]);
    lemma_indexes_in_push(e.push(g[0]).push(g[1]).push(g[2]), g[3]);
    lemma_indexes_in_push(e.push(g[0]).push(g[1]).push(g[2]).push(g[3]), g[4]);
    lemma_indexes_in_push(e.push(g[0]).push(g[1]).push(g[2]).push(g[3]).push(g[4]), g[5]);
    lemma_indexes_in_push(e.push(g[0]).push(g[1]).push(g[2]).push(g[3]).push(g[4]).push(g[5]), g[6]);
    lemma_indexes_in_push(e.push(g[0]).push(g[1]).push(g[2]).push(g[3]).push(g[4]).push(g[5]).push(g[6]), g[7]);
    assert(indexes_in(e) =~= Seq::<i32>::empty());
    assert(indexes_in(g) =~= indexes_of(g[0]) + indexes_of(g[1]) + indexes_of(g[2]) + indexes_of(g[3]) + indexes_of(g[4])
        + indexes_of(g[5]) + indexes_of(g[6]) + indexes_of(g[7]));
}

proof fn lemma_eight_runs(
    s0: Seq<i32>,
    s1: Seq<i32>,
    s2: Seq<i32>,
    s3: Seq<i32>,
    s4: Seq<i32>,
    s5: Seq<i32>,
    s6: Seq<i32>,
    s7: Seq<i32>,
    c: int,
    ts: int,
    za: int,
    zd: int,
)
    requires
        ts >= 0,
        za >= 0,
        zd >= 0,
        unique_in(s0, rng(c + ts, c + 2 * ts)),
        unique_in(s1, rng(c + 3 * ts, c + 4 * ts)),
        unique_in(s2, rng(c, c + ts)),
        unique_in(s3, rng(c + 2 * ts, c + 3 * ts)),
        unique_in(s4, rng(c + 4 * ts, c + 5 * ts)),
        unique_in(s5, rng(c + 5 * ts, c + 6 * ts)),
        unique_in(s6, rng(c + 6 * ts, c + 6 * ts + za)),
        unique_in(s7, rng(c + 6 * ts + za, c + 6 * ts + za + zd)),
    ensures
        unique_in(s0 + s1 + s2 + s3 + s4 + s5 + s6 + s7, rng(c, c + 6 * ts + za + zd)),
{
    let r0 = rng(c + ts, c + 2 * ts);
    let r1 = rng(c + 3 * ts, c + 4 * ts);
    let r2 = rng(c, c + ts);
    let r3 = rng(c + 2 * ts, c + 3 * ts);
    let r4 = rng(c + 4 * ts, c + 5 * ts);
    let r5 = rng(c + 5 * ts, c + 6 * ts);
    let r6 = rng(c + 6 * ts, c + 6 * ts + za);
    let r7 = rng(c + 6 * ts + za, c + 6 * ts + za + zd);
    lemma_unique_concat(s0, s1, r0, r1);
    let u1 = r0.union(r1);
    assert(u1.disjoint(r2));
    lemma_unique_concat(s0 + s1, s2, u1, r2);
    let u2 = u1.union(r2);
    assert(u2.disjoint(r3));
    lemma_unique_concat(s0 + s1 + s2, s3, u2, r3);
    let u3 = u2.union(r3);
    assert(u3.disjoint(r4));
    lemma_unique_concat(s0 + s1 + s2 + s3, s4, u3, r4);
    let u4 = u3.union(r4);
    assert(u4.disjoint(r5));
    lemma_unique_concat(s0 + s1 + s2 + s3 + s4, s5, u4, r5);
    let u5 = u4.union(r5);
    assert(u5.disjoint(r6));
    lemma_unique_concat(s0 + s1 + s2 + s3 + s4 + s5, s6, u5, r6);
    let u6 = u5.union(r6);
    assert(u6.disjoint(r7));
    lemma_unique_concat(s0 + s1 + s2 + s3 + s4 + s5 + s6, s7, u6, r7);
    let u7 = u6.union(r7);
    assert(u7.subset_of(rng(c, c + 6 * ts + za + zd)));
    lemma_unique_widen(s0 + s1 + s2 + s3 + s4 + s5 + s6 + s7, u7, rng(c, c + 6 * ts + za + zd));
}

proof fn lemma_cell_unique(pvs: Seq<PlanView>, i: int)
    requires
        0 <= i < pvs.len(),
        copy_at(pvs, pvs.len() as int) >= 1,
        link_end(pvs) <= i32::MAX,
    ensures
        unique_in(indexes_in(gate_cell(pvs, i)), rng(cell_at(pvs, i), cell_at(pvs, i + 1))),
{
    lemma_cell_nonneg(pvs);
    lemma_cell_arith(pvs, i);
    let g = gate_cell(pvs, i);
    let c = cell_at(pvs, i);
    let ts = tsize(pvs);
    let za = zone_size(act_proto(pvs));
    let zd = zone_size(deact_proto(pvs));
    let pt = timer_proto(pvs);
    lemma_gate_timer_run(pt, c + ts, cell_name(i, "IN - DISABLE"@), seq![close_id(pvs, i)]);
    lemma_gate_timer_run(pt, c + 3 * ts, cell_name(i, "OUT - DISABLE"@), seq![fanout_disable_id(pvs, i)]);
    lemma_gate_timer_run(pt, c, cell_name(i, "IN - ENABLE"@), seq![open_id(pvs, i)]);
    lemma_gate_timer_run(pt, c + 2 * ts, cell_name(i, "OUT - ENABLE"@), seq![fanout_enable_id(pvs, i)]);
    lemma_gate_timer_run(pt, c + 4 * ts, cell_name(i, seq![]), others(enable_ids(pvs), i));
    lemma_gate_timer_run(pt, c + 5 * ts, cell_name(i, seq![]), others(disable_ids(pvs), i));
    lemma_zone_run(act_proto(pvs), "MCU_Activate"@, c + 6 * ts, cell_name(i, " Open Zones"@), mapped_triggers(pvs, i));
    lemma_zone_run(deact_proto(pvs), "MCU_Deactivate"@, c + 6 * ts + za, cell_name(i, " Close Zones"@), mapped_triggers(pvs, i));
    lemma_cell_pieces(g);
    lemma_eight_runs(
        indexes_of(g[0]),
        indexes_of(g[1]),
        indexes_of(g[2]),
        indexes_of(g[3]),
        indexes_of(g[4]),
        indexes_of(g[5]),
        indexes_of(g[6]),
        indexes_of(g[7]),
        c,
        ts,
        za,
        zd,
    );
}

proof fn lemma_gates_unique(pvs: Seq<PlanView>, k: int)
    requires
        0 <= k <= pvs.len(),
        copy_at(pvs, pvs.len() as int) >= 1,
        link_end(pvs) <= i32::MAX,
    ensures
        unique_in(indexes_in(gates_flat(pvs, k)), rng(cell_at(pvs, 0), cell_at(pvs, k))),
    decreases k,
{
    lemma_cell_nonneg(pvs);
    if k == 0 {
        assert(indexes_in(gates_flat(pvs, 0)) =~= Seq::<i32>::empty());
    } else {
        lemma_gates_unique(pvs, k - 1);
        lemma_cell_unique(pvs, k - 1);
        lemma_cell_arith(pvs, k - 1);
        lemma_indexes_in_concat(gates_flat(pvs, k - 1), gate_cell(pvs, k - 1));
        let ra = rng(cell_at(pvs, 0), cell_at(pvs, k - 1));
        let rb = rng(cell_at(pvs, k - 1), cell_at(pvs, k));
        lemma_unique_concat(indexes_in(gates_flat(pvs, k - 1)), indexes_in(gate_cell(pvs, k - 1)), ra, rb);
        lemma_unique_widen(
            indexes_in(gates_flat(pvs, k - 1)) + indexes_in(gate_cell(pvs, k - 1)),
            ra.union(rb),
            rng(cell_at(pvs, 0), cell_at(pvs, k)),
        );
    }
}

proof fn lemma_copies_unique(pvs: Seq<PlanView>, k: int)
    requires
        0 <= k <= pvs.len(),
        first_id(pvs) >= 1,
        copy_at(pvs, pvs.len() as int) <= i32::MAX,
    ensures
        unique_in(
            indexes_in(Seq::new(k as nat, |i: int| linked_copy(pvs, i))),
            rng(copy_at(pvs, 0), copy_at(pvs, k)),
        ),
    decreases k,
{
    let f = |i: int| linked_copy(pvs, i);
    if k == 0 {
        assert(indexes_in(Seq::new(0, f)) =~= Seq::<i32>::empty());
    } else {
        lemma_copies_unique(pvs, k - 1);
        lemma_roots_total_mono(pvs, k, pvs.len() as int);
        lemma_roots_total_mono(pvs, 0, k - 1);
        let i = k - 1;
        assert(Seq::new(k as nat, f) =~= Seq::new((k - 1) as nat, f).push(linked_copy(pvs, i)));
        lemma_indexes_in_push(Seq::new((k - 1) as nat, f), linked_copy(pvs, i));
        lemma_hooked_indexes(plan_copy(pvs, i), mapped_triggers(pvs, i), mapped_completion(pvs, i), out_disable_id(pvs, i), out_enable_id(pvs, i));
        let d = duplicated(pvs[i].1, copy_at(pvs, i));
        assert(indexes_of(plan_copy(pvs, i)) == indexes_of(d));
        lemma_dup_run(pvs[i].1, copy_at(pvs, i));
        assert(copy_at(pvs, k) == copy_at(pvs, i) + index_count(pvs[i].1));
        let ra = rng(copy_at(pvs, 0), copy_at(pvs, i));
        let rb = rng(copy_at(pvs, i), copy_at(pvs, k));
        lemma_unique_concat(indexes_in(Seq::new((k - 1) as nat, f)), indexes_of(linked_copy(pvs, i)), ra, rb);
        lemma_unique_widen(
            indexes_in(Seq::new((k - 1) as nat, f)) + indexes_of(linked_copy(pvs, i)),
            ra.union(rb),
            rng(copy_at(pvs, 0), copy_at(pvs, k)),
        );
    }
}

/// No two blocks of a linked file share an Index. Plan blocks are numbered
/// above every Index the plans already use; cell blocks follow them, and
/// the two groups come last.
pub proof fn law_linked_indexes_unique(pvs: Seq<PlanView>)
    requires
        pvs.len() > 0,
        first_error(pvs, 0) is None,
        first_of_type(pvs[0].1, "MCU_Timer"@) is Some,
        linkable(pvs),
    ensures
        indexes_of(linked_plans(pvs)).no_duplicates(),
{
    let n = pvs.len() as int;
    lemma_cell_nonneg(pvs);
    lemma_cell_arith_end(pvs);
    lemma_roots_total_mono(pvs, 0, n);
    lemma_max_root_nonneg(pvs, 0);
    assert(first_id(pvs) >= 1);
    lemma_copies_unique(pvs, n);
    lemma_gates_unique(pvs, n);
    let end = link_end(pvs);
    let copies = Seq::new(n as nat, |i: int| linked_copy(pvs, i));
    let gates = wrapper("NodeGates"@, end + 1, gates_flat(pvs, n));
    let out = linked_plans(pvs);
    assert(out.children == copies.push(gates));
    lemma_indexes_in_push(copies, gates);
    let ci = indexes_in(copies);
    let gi = indexes_in(gates_flat(pvs, n));
    assert(indexes_of(gates) == seq![(end + 1) as i32] + gi);
    assert(indexes_of(out) == seq![end as i32] + (ci + (seq![(end + 1) as i32] + gi)));
    let r_end = rng(end, end + 1);
    let r_copies = rng(copy_at(pvs, 0), copy_at(pvs, n));
    let r_gate_group = rng(end + 1, end + 2);
    let r_cells = rng(cell_at(pvs, 0), cell_at(pvs, n));
    assert(unique_in(seq![(end + 1) as i32], r_gate_group));
    lemma_unique_concat(seq![(end + 1) as i32], gi, r_gate_group, r_cells);
    lemma_unique_concat(ci, seq![(end + 1) as i32] + gi, r_copies, r_gate_group.union(r_cells));
    assert(unique_in(seq![end as i32], r_end));
    lemma_unique_concat(seq![end as i32], ci + (seq![(end + 1) as i32] + gi), r_end, r_copies.union(r_gate_group.union(r_cells)));
}

proof fn lemma_max_root_nonneg(pvs: Seq<PlanView>, i: int)
    ensures
        max_root(pvs, i) >= 0,
    decreases pvs.len() - i,
{
    if 0 <= i < pvs.len() {
        lemma_max_root_nonneg(pvs, i + 1);
    }
}

proof fn lemma_roots_total_nonneg(pvs: Seq<PlanView>, i: int)
    ensures
        roots_total(pvs, i) >= 0,
    decreases i,
{
    if 0 < i <= pvs.len() {
        lemma_roots_total_nonneg(pvs, i - 1);
    }
}

/// Whether [`link_bomber_plans`] may be called on `plans`: the prototype
/// MCUs it clones carry an Index and every Index it hands out fits `i32`
/// (always so for plans it refuses).
pub fn link_fits_check(plans: &[BomberInput]) -> (r: bool)
    ensures
        r == linkable(plans_view(plans@)),
{
    let ghost pvs = plans_view(plans@);
    if plans.len() == 0 {
        return true;
    }
    if check_plans(plans).is_some() {
        return true;
    }
    assert(pvs[0].1 == plans@[0].root@);
    let pt = match find_block(&plans[0].root, "MCU_Timer") {
        Some(t) => t,
        None => return true,
    };
    let pa = find_block_any(plans, "MCU_Activate");
    let pd = find_block_any(plans, "MCU_Deactivate");
    proof {
        assert(pt@ == timer_proto(pvs));
        assert(opt_view(pa) == act_proto(pvs));
        assert(opt_view(pd) == deact_proto(pvs));
        lemma_cell_nonneg(pvs);
        lemma_max_root_nonneg(pvs, 0);
        lemma_roots_total_nonneg(pvs, plans@.len() as int);
    }
    if pt.index.is_none() {
        return false;
    }
    let za: u128 = match pa {
        Some(a) => {
            if a.index.is_none() {
                return false;
            }
            crate::pack::generate::count_indexes(a) as u128
        },
        None => 1,
    };
    let zd: u128 = match pd {
        Some(d) => {
            if d.index.is_none() {
                return false;
            }
            crate::pack::generate::count_indexes(d) as u128
        },
        None => 1,
    };
    let cell: u128 = 6 * (crate::pack::generate::count_indexes(pt) as u128) + za + zd;
    assert(cell as int == cell_size(pvs));
    let ff: u128 = first_free_id(plans) as u128;
    let n = plans.len();
    let mut tot: u128 = 0;
    let mut i: usize = 0;
    while i < n
        invariant
            i <= n,
            n == plans@.len(),
            pvs == plans_view(plans@),
            tot as int == roots_total(pvs, i as int),
            tot <= i32::MAX,
            first_id(pvs) >= 1,
            n > 0,
            first_error(pvs, 0) is None,
            first_of_type(pvs[0].1, "MCU_Timer"@) is Some,
            cell_size(pvs) >= 0,
            link_end(pvs) == copy_at(pvs, n as int) + n * cell_size(pvs),
        decreases n - i,
    {
        assert(pvs[i as int] == plan_view(plans@[i as int]));
        tot = tot + crate::pack::generate::count_indexes(&plans[i].root) as u128;
        if tot > i32::MAX as u128 {
            proof {
                lemma_roots_total_mono(pvs, i + 1, n as int);
                assert(link_end(pvs) >= copy_at(pvs, n as int)) by (nonlinear_arith)
                    requires
                        cell_size(pvs) >= 0,
                        n >= 0,
                        link_end(pvs) == copy_at(pvs, n as int) + n * cell_size(pvs),
                ;
            }
            return false;
        }
        i = i + 1;
    }
    if cell > i32::MAX as u128 {
        proof {
            assert(link_end(pvs) >= copy_at(pvs, n as int) + cell_size(pvs)) by (nonlinear_arith)
                requires
                    cell_size(pvs) >= 0,
                    n >= 1,
                    link_end(pvs) == copy_at(pvs, n as int) + n * cell_size(pvs),
            ;
        }
        return false;
    }
    assert((n as u128) * cell <= 0x1_0000_0000_0000_0000_0000_0000) by (nonlinear_arith)
        requires
            n <= usize::MAX,
            usize::MAX < 0x1_0000_0000_0000_0000,
            cell <= i32::MAX,
    ;
    let total: u128 = ff + tot + (n as u128) * cell;
    assert(total as int == link_end(pvs)) by (nonlinear_arith)
        requires
            total == ff + tot + (n as u128) * cell,
            ff + tot + (n as u128) * cell <= u128::MAX,
            ff as int == first_id(pvs),
            tot as int == roots_total(pvs, n as int),
            cell as int == cell_size(pvs),
            link_end(pvs) == first_id(pvs) + roots_total(pvs, n as int) + n * cell_size(pvs),
    ;
    total + 1 <= i32::MAX as u128
}

// ---------------------------------------------------------------------------
// The mutex: every plan closes every other
// ---------------------------------------------------------------------------

proof fn lemma_gate_cell_len(pvs: Seq<PlanView>, i: int)
    ensures
        gate_cell(pvs, i).len() == 8,
{
}

proof fn lemma_gates_flat_at(pvs: Seq<PlanView>, k: int, i: int, r: int)
    requires
        0 <= i < k,
        0 <= r < 8,
    ensures
        gates_flat(pvs, k).len() == 8 * k,
        gates_flat(pvs, k)[8 * i + r] == gate_cell(pvs, i)[r],
    decreases k,
{
    lemma_gates_flat_len(pvs, k - 1);
    lemma_gate_cell_len(pvs, k - 1);
    let a = gates_flat(pvs, k - 1);
    let b = gate_cell(pvs, k - 1);
    assert(gates_flat(pvs, k) == a + b);
    if i < k - 1 {
        lemma_gates_flat_at(pvs, k - 1, i, r);
        assert((a + b)[8 * i + r] == a[8 * i + r]);
    } else {
        assert((a + b)[8 * i + r] == b[r]);
    }
}

proof fn lemma_gates_flat_len(pvs: Seq<PlanView>, k: int)
    requires
        k >= 0,
    ensures
        gates_flat(pvs, k).len() == 8 * k,
    decreases k,
{
    if k > 0 {
        lemma_gates_flat_len(pvs, k - 1);
        lemma_gate_cell_len(pvs, k - 1);
    }
}

proof fn lemma_gate_timer_index(t: EntityModel, at: int, name: Seq<char>, ids: Seq<i32>)
    requires
        t.index is Some,
    ensures
        with_targets(gate_timer(t, at, name), ids).index == Some(at as i32),
{
    reveal(gate_timer);
}

/// In a linked file of `n` plans, the NodeGates group holds eight blocks
/// per plan, and plan `i`'s two fan-out timers fire exactly the `n - 1`
/// other plans' gates, in plan order: the first every other `IN - ENABLE`
/// gate, the second every other `IN - DISABLE` gate. So when one plan goes
/// live, all the others are closed.
pub proof fn law_fanouts_reach_every_other_plan(pvs: Seq<PlanView>, i: int)
    requires
        0 <= i < pvs.len(),
    ensures
        ({
            let n = pvs.len() as int;
            let g = linked_plans(pvs).children[n].children;
            &&& g.len() == 8 * n
            &&& g[8 * i + 4].targets.len() == n - 1
            &&& g[8 * i + 5].targets.len() == n - 1
            &&& forall|k: int|
                0 <= k < n - 1 ==> #[trigger] g[8 * i + 4].targets[k] == in_enable_id(
                    pvs,
                    if k < i { k } else { k + 1 },
                )
            &&& forall|k: int|
                0 <= k < n - 1 ==> #[trigger] g[8 * i + 5].targets[k] == in_disable_id(
                    pvs,
                    if k < i { k } else { k + 1 },
                )
        }),
{
    let n = pvs.len() as int;
    let out = linked_plans(pvs);
    assert(out.children[n] == wrapper("NodeGates"@, link_end(pvs) + 1, gates_flat(pvs, n)));
    lemma_gates_flat_at(pvs, n, i, 4);
    lemma_gates_flat_at(pvs, n, i, 5);
    let g = gates_flat(pvs, n);
    assert(g[8 * i + 4].targets == others(enable_ids(pvs), i));
    assert(g[8 * i + 5].targets == others(disable_ids(pvs), i));
}

/// The gates a fan-out timer fires are the `IN - ENABLE` / `IN - DISABLE`
/// timers of the other cells: cell `j`'s come third and first in its eight
/// blocks and carry exactly those Indexes.
pub proof fn law_in_gates_carry_their_ids(pvs: Seq<PlanView>, j: int)
    requires
        0 <= j < pvs.len(),
        timer_proto(pvs).index is Some,
    ensures
        ({
            let n = pvs.len() as int;
            let g = linked_plans(pvs).children[n].children;
            &&& g[8 * j + 2].index == Some(in_enable_id(pvs, j))
            &&& g[8 * j].index == Some(in_disable_id(pvs, j))
        }),
{
    let n = pvs.len() as int;
    let out = linked_plans(pvs);
    assert(out.children[n] == wrapper("NodeGates"@, link_end(pvs) + 1, gates_flat(pvs, n)));
    lemma_gates_flat_at(pvs, n, j, 2);
    lemma_gates_flat_at(pvs, n, j, 0);
    let c = cell_at(pvs, j);
    let ts = tsize(pvs);
    let pt = timer_proto(pvs);
    lemma_gate_timer_index(pt, c, cell_name(j, "IN - ENABLE"@), seq![open_id(pvs, j)]);
    lemma_gate_timer_index(pt, c + ts, cell_name(j, "IN - DISABLE"@), seq![close_id(pvs, j)]);
    assert(gate_cell(pvs, j)[2] == with_targets(gate_timer(pt, c, cell_name(j, "IN - ENABLE"@)), seq![open_id(pvs, j)]));
    assert(gate_cell(pvs, j)[0] == with_targets(gate_timer(pt, c + ts, cell_name(j, "IN - DISABLE"@)), seq![close_id(pvs, j)]));
}

} // verus!
