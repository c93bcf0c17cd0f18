//! Strip Freeflight / Task Editor player logic from an airfield group so it
//! can be used in multiplayer.
//!
//! IL-2 object-links a player plane into nearby MCU_CheckZone `Objects` lists
//! (proximity). Those zones stay; the player id is removed and
//! `PlaneCoalitions` is set to the friendly coalition (Western `[2]` for USA).
//! The player aircraft, its entity, and the single-player graph hanging off
//! them (takeoff, music, objectives, tiny CZ_PLAYER_OUT bubbles) are deleted.
//!
//! Two facts about each block are distances on the map, measured by the
//! caller: whether a checkzone is a small bubble (under 200 m) and whether a
//! block sits within 2.5 km of a player plane. They come in as [`Nearby`],
//! one per block in pre-order.

pub mod cleaned;

use std::collections::{HashMap, HashSet};
use vstd::prelude::*;
use crate::ast::{EntityModel, Il2Entity, int_array_text, lemma_children_model, nodes, prop_get, prop_set};
use crate::bombers::link::{with_objects, with_targets};
use crate::text::parse_i32;
use crate::text::parse_i32_spec;

verus! {

broadcast use vstd::std_specs::hash::group_hash_axioms;

/// Western / UN / USA friendly planes. Matches Seoul AFB FRND checkzones.
pub const WESTERN_PLANE_COALITIONS: &'static str = "[2]";
/// Eastern / USSR / DPRK friendly planes.
pub const EASTERN_PLANE_COALITIONS: &'static str = "[1]";

/// What the map says about one block: a checkzone under 200 m across, and a
/// block within 2.5 km of a player plane.
#[derive(Clone, Copy, Debug, PartialEq, Eq, Structural)]
pub struct Nearby {
    pub small_zone: bool,
    pub near_player: bool,
}

// ---------------------------------------------------------------------------
// The player's ids
// ---------------------------------------------------------------------------

/// A plane flown by the player (`AILevel = 0`).
pub open spec fn is_player_plane(e: EntityModel) -> bool {
    e.block_type == "Plane"@ && prop_get(e.properties, "AILevel"@) == Some("0"@)
}

/// The positive id written in property `key`.
pub open spec fn pointer(e: EntityModel, key: Seq<char>) -> Option<i32> {
    match prop_get(e.properties, key) {
        Some(v) => match parse_i32_spec(v) {
            Some(i) => if i > 0 {
                Some(i)
            } else {
                None
            },
            None => None,
        },
        None => None,
    }
}

/// Ids of the player planes and their entities, as the planes name them.
pub open spec fn plane_ids(ns: Seq<EntityModel>) -> Set<i32> {
    Set::new(
        |x: i32|
            exists|p: int|
                0 <= p < ns.len() && is_player_plane(#[trigger] ns[p]) && (ns[p].index == Some(x) || pointer(
                    ns[p],
                    "LinkTrId"@,
                ) == Some(x)),
    )
}

/// An entity of a player plane, and what it names.
pub open spec fn entity_link(e: EntityModel, planes: Set<i32>, x: i32) -> bool {
    &&& e.block_type == "MCU_TR_Entity"@
    &&& e.index is Some
    &&& planes.contains(e.index->0)
    &&& (e.index == Some(x) || pointer(e, "MisObjID"@) == Some(x))
}

/// Every id that belongs to the player: the planes, their entities, and
/// the objects those entities name.
pub open spec fn player_ids(ns: Seq<EntityModel>) -> Set<i32> {
    plane_ids(ns).union(Set::new(|x: i32| exists|p: int| 0 <= p < ns.len() && entity_link(#[trigger] ns[p], plane_ids(ns), x)))
}

fn has_prop(e: &Il2Entity, key: &str, value: &str) -> (r: bool)
    ensures
        r == (prop_get(e@.properties, key@) == Some(value@)),
{
    match e.property(key) {
        Some(v) => crate::text::str_eq(v, value),
        None => false,
    }
}

/// Whether `e` is a plane flown by the player.
pub fn player_plane(e: &Il2Entity) -> (r: bool)
    ensures
        r == is_player_plane(e@),
{
    crate::text::str_eq(e.block_type.as_str(), "Plane") && has_prop(e, "AILevel", "0")
}

fn pointer_of(e: &Il2Entity, key: &str) -> (r: Option<i32>)
    ensures
        r == pointer(e@, key@),
{
    match e.property(key) {
        Some(v) => match parse_i32(v) {
            Some(i) => if i > 0 {
                Some(i)
            } else {
                None
            },
            None => None,
        },
        None => None,
    }
}

/// The blocks of `root` in pre-order.
fn all_nodes(root: &Il2Entity) -> (r: Vec<&Il2Entity>)
    ensures
        r@.len() == nodes(root@).len(),
        forall|p: int| 0 <= p < r@.len() ==> #[trigger] r@[p]@ == nodes(root@)[p],
{
    let mut v: Vec<&Il2Entity> = Vec::new();
    root.collect_nodes(&mut v);
    proof {
        assert forall|p: int| 0 <= p < v@.len() implies #[trigger] v@[p]@ == nodes(root@)[p] by {
            assert(v@[0 + p]@ == nodes(root@)[p]);
        }
    }
    v
}

pub open spec fn node_models(v: Seq<&Il2Entity>) -> Seq<EntityModel> {
    Seq::new(v.len(), |p: int| v[p]@)
}

fn collect_player_ids(ns: &Vec<&Il2Entity>) -> (r: HashSet<i32>)
    ensures
        r@ == player_ids(node_models(ns@)),
{
    let ghost m = node_models(ns@);
    let mut ids: HashSet<i32> = HashSet::new();
    let mut snapshot: HashSet<i32> = HashSet::new();
    let mut p: usize = 0;
    while p < ns.len()
        invariant
            p <= ns@.len(),
            m == node_models(ns@),
            snapshot@ == ids@,
            ids@ == Set::new(
                |x: i32|
                    exists|q: int|
                        0 <= q < p && is_player_plane(#[trigger] m[q]) && (m[q].index == Some(x) || pointer(
                            m[q],
                            "LinkTrId"@,
                        ) == Some(x)),
            ),
        decreases ns@.len() - p,
    {
        let e = ns[p];
        let ghost before = ids@;
        assert(m[p as int] == e@);
        if player_plane(e) {
            match e.index {
                Some(id) => {
                    ids.insert(id);
                    snapshot.insert(id);
                },
                None => {},
            }
            match pointer_of(e, "LinkTrId") {
                Some(link) => {
                    ids.insert(link);
                    snapshot.insert(link);
                },
                None => {},
            }
        }
        proof {
            let nxt = Set::new(
                |x: i32|
                    exists|q: int|
                        0 <= q < p + 1 && is_player_plane(#[trigger] m[q]) && (m[q].index == Some(x) || pointer(
                            m[q],
                            "LinkTrId"@,
                        ) == Some(x)),
            );
            assert forall|x: i32| ids@.contains(x) <==> nxt.contains(x) by {
                if nxt.contains(x) {
                    let q = choose|q: int|
                        0 <= q < p + 1 && is_player_plane(#[trigger] m[q]) && (m[q].index == Some(x) || pointer(
                            m[q],
                            "LinkTrId"@,
                        ) == Some(x));
                    if q < p {
                        assert(before.contains(x));
                    }
                }
                if before.contains(x) {
                    let q = choose|q: int|
                        0 <= q < p && is_player_plane(#[trigger] m[q]) && (m[q].index == Some(x) || pointer(
                            m[q],
                            "LinkTrId"@,
                        ) == Some(x));
                    assert(nxt.contains(x));
                }
            }
            assert(ids@ =~= nxt);
        }
        p = p + 1;
    }
    proof {
        assert(ids@ =~= plane_ids(m));
    }
    let ghost planes = ids@;
    let mut q: usize = 0;
    while q < ns.len()
        invariant
            q <= ns@.len(),
            m == node_models(ns@),
            planes == plane_ids(m),
            snapshot@ == planes,
            ids@ == planes.union(Set::new(|x: i32| exists|r: int| 0 <= r < q && entity_link(#[trigger] m[r], planes, x))),
        decreases ns@.len() - q,
    {
        let e = ns[q];
        let ghost before = ids@;
        assert(m[q as int] == e@);
        if crate::text::str_eq(e.block_type.as_str(), "MCU_TR_Entity") {
            match e.index {
                Some(id) => {
                    if snapshot.contains(&id) {
                        match pointer_of(e, "MisObjID") {
                            Some(mis) => {
                                ids.insert(mis);
                            },
                            None => {},
                        }
                        ids.insert(id);
                    }
                },
                None => {},
            }
        }
        proof {
            let nxt = planes.union(Set::new(|x: i32| exists|r: int| 0 <= r < q + 1 && entity_link(#[trigger] m[r], planes, x)));
            assert forall|x: i32| ids@.contains(x) <==> nxt.contains(x) by {
                if nxt.contains(x) && !planes.contains(x) {
                    let r = choose|r: int| 0 <= r < q + 1 && entity_link(#[trigger] m[r], planes, x);
                    if r < q {
                        assert(before.contains(x));
                    }
                }
                if before.contains(x) && !planes.contains(x) {
                    let r = choose|r: int| 0 <= r < q && entity_link(#[trigger] m[r], planes, x);
                    assert(nxt.contains(x));
                }
            }
            assert(ids@ =~= nxt);
        }
        q = q + 1;
    }
    proof {
        assert(ids@ =~= player_ids(m));
    }
    ids
}

// ---------------------------------------------------------------------------
// Blocks by Index
// ---------------------------------------------------------------------------

/// Pre-order position of the last block with Index `id` (-1 when none): the
/// block an Index stands for when several share it.
pub open spec fn last_at(ns: Seq<EntityModel>, id: i32) -> int
    decreases ns.len(),
{
    if ns.len() == 0 {
        -1
    } else if ns.last().index == Some(id) {
        ns.len() - 1
    } else {
        last_at(ns.drop_last(), id)
    }
}

proof fn lemma_last_at(ns: Seq<EntityModel>, id: i32)
    ensures
        -1 <= last_at(ns, id) < ns.len(),
        last_at(ns, id) >= 0 ==> ns[last_at(ns, id)].index == Some(id),
        forall|q: int| last_at(ns, id) < q < ns.len() ==> (#[trigger] ns[q]).index != Some(id),
    decreases ns.len(),
{
    if ns.len() > 0 && ns.last().index != Some(id) {
        lemma_last_at(ns.drop_last(), id);
        assert forall|q: int| last_at(ns, id) < q < ns.len() implies (#[trigger] ns[q]).index != Some(id) by {
            if q < ns.len() - 1 {
                assert(ns[q] == ns.drop_last()[q]);
            }
        }
    }
}

/// Last pre-order position of each Index.
fn last_positions(ns: &Vec<&Il2Entity>) -> (r: HashMap<i32, usize>)
    ensures
        forall|id: i32| #[trigger] r@.contains_key(id) <==> last_at(node_models(ns@), id) >= 0,
        forall|id: i32| #[trigger] r@.contains_key(id) ==> r@[id] == last_at(node_models(ns@), id),
{
    let ghost m = node_models(ns@);
    let mut map: HashMap<i32, usize> = HashMap::new();
    let mut p: usize = 0;
    while p < ns.len()
        invariant
            p <= ns@.len(),
            m == node_models(ns@),
            forall|id: i32| #[trigger] map@.contains_key(id) <==> last_at(m.take(p as int), id) >= 0,
            forall|id: i32| #[trigger] map@.contains_key(id) ==> map@[id] == last_at(m.take(p as int), id),
        decreases ns@.len() - p,
    {
        proof {
            assert(m.take(p + 1).drop_last() =~= m.take(p as int));
            assert(m.take(p + 1).last() == m[p as int]);
        }
        match ns[p].index {
            Some(id) => {
                map.insert(id, p);
            },
            None => {},
        }
        p = p + 1;
    }
    proof {
        assert(m.take(p as int) =~= m);
    }
    map
}

// ---------------------------------------------------------------------------
// Links
// ---------------------------------------------------------------------------

pub open spec fn is_event_block(t: Seq<char>) -> bool {
    t == "OnEvents"@ || t == "OnReports"@ || t == "OnEvent"@ || t == "OnReport"@
}

pub open spec fn opt_seq(o: Option<i32>) -> Seq<i32> {
    match o {
        Some(x) => seq![x],
        None => seq![],
    }
}

/// Every id a block links to: its `Targets` and `Objects`, its positive
/// pointer properties, and the links of its event blocks.
pub open spec fn link_ids(e: EntityModel) -> Seq<i32>
    decreases e,
{
    e.targets + e.objects + opt_seq(pointer(e, "LinkTrId"@)) + opt_seq(pointer(e, "MisObjID"@)) + opt_seq(
        pointer(e, "TarId"@),
    ) + opt_seq(pointer(e, "CmdId"@)) + event_links(e.children)
}

pub open spec fn event_links(cs: Seq<EntityModel>) -> Seq<i32>
    decreases cs,
{
    if cs.len() == 0 {
        seq![]
    } else {
        (if is_event_block(cs[0].block_type) {
            link_ids(cs[0])
        } else {
            seq![]
        }) + event_links(cs.drop_first())
    }
}

fn push_opt(v: &mut Vec<i32>, o: Option<i32>)
    ensures
        final(v)@ == old(v)@ + opt_seq(o),
{
    match o {
        Some(x) => {
            v.push(x);
        },
        None => {},
    }
    proof {
        assert(v@ =~= old(v)@ + opt_seq(o));
    }
}

fn append_ids(v: &mut Vec<i32>, w: &Vec<i32>)
    ensures
        final(v)@ == old(v)@ + w@,
{
    let mut i: usize = 0;
    while i < w.len()
        invariant
            i <= w@.len(),
            v@ == old(v)@ + w@.take(i as int),
        decreases w@.len() - i,
    {
        v.push(w[i]);
        proof {
            assert(w@.take(i + 1) =~= w@.take(i as int).push(w@[i as int]));
        }
        i = i + 1;
    }
    proof {
        assert(w@.take(i as int) =~= w@);
    }
}

fn event_block(t: &str) -> (r: bool)
    ensures
        r == is_event_block(t@),
{
    crate::text::str_eq(t, "OnEvents") || crate::text::str_eq(t, "OnReports") || crate::text::str_eq(t, "OnEvent")
        || crate::text::str_eq(t, "OnReport")
}

fn node_link_ids(e: &Il2Entity) -> (r: Vec<i32>)
    ensures
        r@ == link_ids(e@),
    decreases e,
{
    let mut v: Vec<i32> = Vec::new();
    append_ids(&mut v, &e.targets);
    append_ids(&mut v, &e.objects);
    push_opt(&mut v, pointer_of(e, "LinkTrId"));
    push_opt(&mut v, pointer_of(e, "MisObjID"));
    push_opt(&mut v, pointer_of(e, "TarId"));
    push_opt(&mut v, pointer_of(e, "CmdId"));
    proof {
        lemma_children_model(*e);
        assert(e@.children.skip(0) =~= e@.children);
    }
    let ghost cs = e@.children;
    let ghost base = v@;
    let mut i: usize = 0;
    while i < e.children.len()
        invariant
            i <= e.children@.len(),
            cs == e@.children,
            cs.len() == e.children@.len(),
            forall|j: int| 0 <= j < cs.len() ==> #[trigger] cs[j] == e.children@[j]@,
            base + event_links(cs) == v@ + event_links(cs.skip(i as int)),
        decreases e.children@.len() - i,
    {
        let c = &e.children[i];
        proof {
            assert(cs.skip(i as int)[0] == c@);
            assert(cs.skip(i as int).drop_first() =~= cs.skip(i + 1));
            assert(decreases_to!(*e => e.children));
            assert(decreases_to!(e.children => e.children@));
            assert(decreases_to!(e.children@ => e.children@[i as int]));
        }
        if event_block(c.block_type.as_str()) {
            let w = node_link_ids(c);
            append_ids(&mut v, &w);
        }
        proof {
            assert(v@ + event_links(cs.skip(i + 1)) =~= base + event_links(cs));
        }
        i = i + 1;
    }
    proof {
        assert(cs.skip(i as int) =~= Seq::<EntityModel>::empty());
        assert(v@ =~= base + event_links(cs));
    }
    v
}

// ---------------------------------------------------------------------------
// What is stripped to begin with
// ---------------------------------------------------------------------------

/// Indexes under the first block named `AutoRemove`.
pub open spec fn auto_ids(root: EntityModel) -> Set<i32> {
    match crate::ast::find_named(root, "AutoRemove"@) {
        Some(a) => crate::ast::indexes_of(a).to_set(),
        None => Set::empty(),
    }
}

fn collect_auto_ids(root: &Il2Entity, strip: &mut HashSet<i32>)
    ensures
        final(strip)@ == old(strip)@.union(auto_ids(root@)),
{
    match root.find_by_name("AutoRemove") {
        Some(a) => {
            let mut ids: Vec<i32> = Vec::new();
            a.collect_indexes(&mut ids);
            let ghost all = crate::ast::indexes_of(a@);
            assert(ids@ =~= all);
            let mut i: usize = 0;
            while i < ids.len()
                invariant
                    i <= ids@.len(),
                    ids@ == all,
                    strip@ == old(strip)@.union(all.take(i as int).to_set()),
                decreases ids@.len() - i,
            {
                strip.insert(ids[i]);
                proof {
                    let t1 = all.take(i + 1);
                    let t0 = all.take(i as int);
                    assert forall|x: i32| t1.to_set().contains(x) <==> t0.to_set().insert(all[i as int]).contains(x) by {
                        if t1.contains(x) {
                            let k = choose|k: int| 0 <= k < t1.len() && t1[k] == x;
                            if k < i {
                                assert(t0[k] == x);
                            }
                        }
                        if t0.contains(x) {
                            let k = choose|k: int| 0 <= k < t0.len() && t0[k] == x;
                            assert(t1[k] == x);
                        }
                        if x == all[i as int] {
                            assert(t1[i as int] == x);
                        }
                    }
                    assert(t1.to_set() =~= t0.to_set().insert(all[i as int]));
                    assert(strip@ =~= old(strip)@.union(t1.to_set()));
                }
                i = i + 1;
            }
            proof {
                assert(all.take(i as int) =~= all);
            }
        },
        None => {
            assert(strip@ =~= old(strip)@.union(Set::<i32>::empty()));
        },
    }
}

pub open spec fn small_at(facts: Seq<Nearby>, p: int) -> bool {
    0 <= p < facts.len() && facts[p].small_zone
}

pub open spec fn near_at(facts: Seq<Nearby>, p: int) -> bool {
    0 <= p < facts.len() && facts[p].near_player
}

/// The block object-links something of the player's.
pub open spec fn hits_player(e: EntityModel, players: Set<i32>) -> bool {
    exists|k: int| 0 <= k < e.objects.len() && players.contains(#[trigger] e.objects[k])
}

/// The block at position `p` is player logic by itself: it object-links the
/// player (a checkzone only when it is a small bubble), or it is an
/// objective, icon or subtitle next to a player plane.
pub open spec fn seeds_at(ns: Seq<EntityModel>, facts: Seq<Nearby>, players: Set<i32>, p: int) -> bool {
    let e = ns[p];
    ||| hits_player(e, players) && (e.block_type != "MCU_CheckZone"@ || small_at(facts, p))
    ||| (e.block_type == "MCU_TR_MissionObjective"@ || e.block_type == "MCU_Icon"@ || e.block_type == "MCU_TR_Subtitle"@)
        && near_at(facts, p)
}

/// What is stripped before links are followed: the player's ids, whatever
/// sits under `AutoRemove`, and the blocks that are player logic by
/// themselves.
pub open spec fn first_strip(root: EntityModel, facts: Seq<Nearby>) -> Set<i32> {
    let ns = nodes(root);
    let pl = player_ids(ns);
    pl.union(auto_ids(root)).union(
        Set::new(|id: i32| last_at(ns, id) >= 0 && seeds_at(ns, facts, pl, last_at(ns, id))),
    )
}

fn hits(e: &Il2Entity, players: &HashSet<i32>) -> (r: bool)
    ensures
        r == hits_player(e@, players@),
{
    let mut k: usize = 0;
    while k < e.objects.len()
        invariant
            k <= e.objects@.len(),
            forall|j: int| 0 <= j < k ==> !players@.contains(#[trigger] e.objects@[j]),
        decreases e.objects@.len() - k,
    {
        if players.contains(&e.objects[k]) {
            assert(e@.objects[k as int] == e.objects@[k as int]);
            assert(players@.contains(e@.objects[k as int]));
            return true;
        }
        k = k + 1;
    }
    false
}

fn is_type(e: &Il2Entity, t: &str) -> (r: bool)
    ensures
        r == (e@.block_type == t@),
{
    crate::text::str_eq(e.block_type.as_str(), t)
}

fn seeds_here(e: &Il2Entity, fact: Nearby, players: &HashSet<i32>) -> (r: bool)
    ensures
        r == ({
            ||| hits_player(e@, players@) && (e@.block_type != "MCU_CheckZone"@ || fact.small_zone)
            ||| (e@.block_type == "MCU_TR_MissionObjective"@ || e@.block_type == "MCU_Icon"@ || e@.block_type
                == "MCU_TR_Subtitle"@) && fact.near_player
        }),
{
    (hits(e, players) && (!is_type(e, "MCU_CheckZone") || fact.small_zone)) || ((is_type(e, "MCU_TR_MissionObjective")
        || is_type(e, "MCU_Icon") || is_type(e, "MCU_TR_Subtitle")) && fact.near_player)
}

fn fact_at(facts: &[Nearby], p: usize) -> (r: Nearby)
    ensures
        r.small_zone == small_at(facts@, p as int),
        r.near_player == near_at(facts@, p as int),
{
    if p < facts.len() {
        facts[p]
    } else {
        Nearby { small_zone: false, near_player: false }
    }
}

/// Add `x` to the stripped set, recording it in `order` when it is new.
fn add_strip(strip: &mut HashSet<i32>, order: &mut Vec<i32>, x: i32)
    requires
        old(strip)@ == old(order)@.to_set(),
        old(order)@.no_duplicates(),
    ensures
        final(strip)@ == old(strip)@.insert(x),
        final(strip)@ == final(order)@.to_set(),
        final(order)@.no_duplicates(),
        old(strip)@.contains(x) ==> final(order)@ == old(order)@,
        !old(strip)@.contains(x) ==> final(order)@ == old(order)@.push(x),
{
    if !strip.contains(&x) {
        strip.insert(x);
        order.push(x);
        proof {
            assert(order@.to_set() =~= old(order)@.to_set().insert(x)) by {
                assert forall|y: i32| order@.to_set().contains(y) <==> old(order)@.to_set().insert(x).contains(y) by {
                    if order@.contains(y) {
                        let k = choose|k: int| 0 <= k < order@.len() && order@[k] == y;
                        if k < old(order)@.len() {
                            assert(old(order)@[k] == y);
                        }
                    }
                    if old(order)@.contains(y) {
                        let k = choose|k: int| 0 <= k < old(order)@.len() && old(order)@[k] == y;
                        assert(order@[k] == y);
                    }
                    if y == x {
                        assert(order@[old(order)@.len() as int] == x);
                    }
                }
            }
            assert forall|i: int, j: int| 0 <= i < order@.len() && 0 <= j < order@.len() && i != j implies order@[i]
                != order@[j] by {
                if i == old(order)@.len() {
                    assert(old(order)@.contains(order@[j]));
                } else if j == old(order)@.len() {
                    assert(old(order)@.contains(order@[i]));
                }
            }
        }
    } else {
        assert(strip@ =~= old(strip)@.insert(x));
    }
}

/// The ids stripped before links are followed, in the order they were found.
fn seed_strip(
    root: &Il2Entity,
    ns: &Vec<&Il2Entity>,
    last: &HashMap<i32, usize>,
    players: &HashSet<i32>,
    facts: &[Nearby],
) -> (r: (HashSet<i32>, Vec<i32>))
    requires
        ns@.len() == nodes(root@).len(),
        forall|p: int| 0 <= p < ns@.len() ==> #[trigger] ns@[p]@ == nodes(root@)[p],
        forall|id: i32| #[trigger] last@.contains_key(id) <==> last_at(nodes(root@), id) >= 0,
        forall|id: i32| #[trigger] last@.contains_key(id) ==> last@[id] == last_at(nodes(root@), id),
        players@ == player_ids(nodes(root@)),
    ensures
        r.0@ == first_strip(root@, facts@),
        r.0@ == r.1@.to_set(),
        r.1@.no_duplicates(),
{
    let ghost m = nodes(root@);
    let ghost pl = players@;
    let mut strip: HashSet<i32> = HashSet::new();
    let mut order: Vec<i32> = Vec::new();
    proof {
        assert(strip@ =~= order@.to_set());
    }
    // the player's ids, found again in pre-order
    let mut p: usize = 0;
    while p < ns.len()
        invariant
            p <= ns@.len(),
            ns@.len() == m.len(),
            forall|q: int| 0 <= q < ns@.len() ==> #[trigger] ns@[q]@ == m[q],
            pl == players@,
            strip@ == order@.to_set(),
            order@.no_duplicates(),
            strip@.subset_of(pl),
            forall|q: int|
                0 <= q < p && (#[trigger] ns@[q]@).index is Some && pl.contains(ns@[q]@.index->0) ==> strip@.contains(
                    ns@[q]@.index->0,
                ),
            forall|q: int|
                0 <= q < p && pointer(#[trigger] ns@[q]@, "LinkTrId"@) is Some && pl.contains(
                    pointer(ns@[q]@, "LinkTrId"@)->0,
                ) ==> strip@.contains(pointer(ns@[q]@, "LinkTrId"@)->0),
            forall|q: int|
                0 <= q < p && pointer(#[trigger] ns@[q]@, "MisObjID"@) is Some && pl.contains(
                    pointer(ns@[q]@, "MisObjID"@)->0,
                ) ==> strip@.contains(pointer(ns@[q]@, "MisObjID"@)->0),
        decreases ns@.len() - p,
    {
        let e = ns[p];
        match e.index {
            Some(x) => if players.contains(&x) {
                add_strip(&mut strip, &mut order, x);
            },
            None => {},
        }
        match pointer_of(e, "LinkTrId") {
            Some(x) => if players.contains(&x) {
                add_strip(&mut strip, &mut order, x);
            },
            None => {},
        }
        match pointer_of(e, "MisObjID") {
            Some(x) => if players.contains(&x) {
                add_strip(&mut strip, &mut order, x);
            },
            None => {},
        }
        p = p + 1;
    }
    proof {
        assert forall|x: i32| pl.contains(x) implies strip@.contains(x) by {
            if plane_ids(m).contains(x) {
                let q = choose|q: int|
                    0 <= q < m.len() && is_player_plane(#[trigger] m[q]) && (m[q].index == Some(x) || pointer(
                        m[q],
                        "LinkTrId"@,
                    ) == Some(x));
                assert(ns@[q]@ == m[q]);
            } else {
                let q = choose|q: int| 0 <= q < m.len() && entity_link(#[trigger] m[q], plane_ids(m), x);
                assert(ns@[q]@ == m[q]);
            }
        }
        assert(strip@ =~= pl);
    }
    // whatever sits under AutoRemove
    match root.find_by_name("AutoRemove") {
        Some(a) => {
            let mut ids: Vec<i32> = Vec::new();
            a.collect_indexes(&mut ids);
            let mut i: usize = 0;
            while i < ids.len()
                invariant
                    i <= ids@.len(),
                    ids@ == crate::ast::indexes_of(a@),
                    strip@ == order@.to_set(),
                    order@.no_duplicates(),
                    strip@ == pl.union(ids@.take(i as int).to_set()),
                decreases ids@.len() - i,
            {
                let ghost before = strip@;
                add_strip(&mut strip, &mut order, ids[i]);
                proof {
                    let t1 = ids@.take(i + 1);
                    let t0 = ids@.take(i as int);
                    assert forall|x: i32| t1.to_set().contains(x) <==> t0.to_set().insert(ids@[i as int]).contains(x) by {
                        if t1.contains(x) {
                            let k = choose|k: int| 0 <= k < t1.len() && t1[k] == x;
                            if k < i {
                                assert(t0[k] == x);
                            }
                        }
                        if t0.contains(x) {
                            let k = choose|k: int| 0 <= k < t0.len() && t0[k] == x;
                            assert(t1[k] == x);
                        }
                        if x == ids@[i as int] {
                            assert(t1[i as int] == x);
                        }
                    }
                    assert(strip@ =~= pl.union(t1.to_set()));
                }
                i = i + 1;
            }
            proof {
                assert(ids@.take(i as int) =~= ids@);
            }
        },
        None => {},
    }
    let ghost base = strip@;
    assert(base == pl.union(auto_ids(root@)));
    // blocks that are player logic by themselves
    let mut q: usize = 0;
    while q < ns.len()
        invariant
            q <= ns@.len(),
            ns@.len() == m.len(),
            forall|r: int| 0 <= r < ns@.len() ==> #[trigger] ns@[r]@ == m[r],
            forall|id: i32| #[trigger] last@.contains_key(id) <==> last_at(m, id) >= 0,
            forall|id: i32| #[trigger] last@.contains_key(id) ==> last@[id] == last_at(m, id),
            pl == players@,
            strip@ == order@.to_set(),
            order@.no_duplicates(),
            strip@ == base.union(
                Set::new(|id: i32| 0 <= last_at(m, id) < q && seeds_at(m, facts@, pl, last_at(m, id))),
            ),
        decreases ns@.len() - q,
    {
        let e = ns[q];
        let ghost before = strip@;
        proof {
            lemma_last_at(m, 0);
        }
        match e.index {
            Some(x) => {
                match last.get(&x) {
                    Some(at) => {
                        if *at == q {
                            let fact = fact_at(facts, q);
                            if seeds_here(e, fact, players) {
                                add_strip(&mut strip, &mut order, x);
                            }
                        }
                    },
                    None => {},
                }
            },
            None => {},
        }
        proof {
            let nxt = base.union(Set::new(|id: i32| 0 <= last_at(m, id) < q + 1 && seeds_at(m, facts@, pl, last_at(m, id))));
            assert forall|id: i32| strip@.contains(id) <==> nxt.contains(id) by {
                lemma_last_at(m, id);
                if last_at(m, id) == q {
                    assert(m[q as int].index == Some(id));
                    assert(last@.contains_key(id));
                }
            }
            assert(strip@ =~= nxt);
        }
        q = q + 1;
    }
    proof {
        assert forall|id: i32| strip@.contains(id) <==> first_strip(root@, facts@).contains(id) by {
            lemma_last_at(m, id);
        }
        assert(strip@ =~= first_strip(root@, facts@));
    }
    (strip, order)
}

// ---------------------------------------------------------------------------
// Following links
// ---------------------------------------------------------------------------

/// Object types that stand in the world rather than in mission logic.
pub open spec fn is_world(t: Seq<char>) -> bool {
    t == "Vehicle"@ || t == "Ship"@ || t == "Plane"@ || t == "Block"@ || t == "Ground"@ || t == "MCU_TR_Entity"@
}

/// Stripping `x` strips `y` too: the block for `x` links to `y`, and the
/// block for `y` is neither a checkzone nor a world object (entities
/// aside).
pub open spec fn spreads(ns: Seq<EntityModel>, x: i32, y: i32) -> bool {
    let px = last_at(ns, x);
    let py = last_at(ns, y);
    &&& px >= 0
    &&& py >= 0
    &&& link_ids(ns[px]).contains(y)
    &&& ns[py].block_type != "MCU_CheckZone"@
    &&& !(is_world(ns[py].block_type) && ns[py].block_type != "MCU_TR_Entity"@)
}

pub open spec fn spread_closed(ns: Seq<EntityModel>, s: Set<i32>) -> bool {
    forall|x: i32, y: i32| #![trigger s.contains(x), spreads(ns, x, y)] s.contains(x) && spreads(ns, x, y) ==> s.contains(y)
}

/// The least set holding [`first_strip`] that is closed under [`spreads`].
pub open spec fn spread_strip(root: EntityModel, facts: Seq<Nearby>) -> Set<i32> {
    let ns = nodes(root);
    let s0 = first_strip(root, facts);
    Set::new(|x: i32| forall|t: Set<i32>| #![trigger t.contains(x)] s0.subset_of(t) && spread_closed(ns, t) ==> t.contains(x))
}

/// Positions not yet marked.
pub open spec fn unmarked(s: Seq<bool>) -> nat
    decreases s.len(),
{
    if s.len() == 0 {
        0
    } else {
        unmarked(s.drop_last()) + if s.last() {
            0nat
        } else {
            1nat
        }
    }
}

proof fn lemma_unmarked_set(s: Seq<bool>, i: int)
    requires
        0 <= i < s.len(),
        !s[i],
    ensures
        unmarked(s.update(i, true)) + 1 == unmarked(s),
    decreases s.len(),
{
    let u = s.update(i, true);
    if i < s.len() - 1 {
        assert(u.drop_last() =~= s.drop_last().update(i, true));
        lemma_unmarked_set(s.drop_last(), i);
    } else {
        assert(u.drop_last() =~= s.drop_last());
    }
}

fn world_block(e: &Il2Entity) -> (r: bool)
    ensures
        r == is_world(e@.block_type),
{
    is_type(e, "Vehicle") || is_type(e, "Ship") || is_type(e, "Plane") || is_type(e, "Block") || is_type(e, "Ground")
        || is_type(e, "MCU_TR_Entity")
}

fn all_false(n: usize) -> (r: Vec<bool>)
    ensures
        r@.len() == n,
        forall|p: int| 0 <= p < n ==> !(#[trigger] r@[p]),
{
    let mut v: Vec<bool> = Vec::new();
    let mut i: usize = 0;
    while i < n
        invariant
            i <= n,
            v@.len() == i,
            forall|p: int| 0 <= p < i ==> !(#[trigger] v@[p]),
        decreases n - i,
    {
        v.push(false);
        i = i + 1;
    }
    v
}

/// Follow links from every stripped block until nothing more is reached.
fn spread_strip_exec(
    ns: &Vec<&Il2Entity>,
    last: &HashMap<i32, usize>,
    strip: &mut HashSet<i32>,
    order: &mut Vec<i32>,
    Ghost(root): Ghost<EntityModel>,
    Ghost(facts): Ghost<Seq<Nearby>>,
)
    requires
        ns@.len() == nodes(root).len(),
        forall|p: int| 0 <= p < ns@.len() ==> #[trigger] ns@[p]@ == nodes(root)[p],
        forall|id: i32| #[trigger] last@.contains_key(id) <==> last_at(nodes(root), id) >= 0,
        forall|id: i32| #[trigger] last@.contains_key(id) ==> last@[id] == last_at(nodes(root), id),
        old(strip)@ == first_strip(root, facts),
        old(strip)@ == old(order)@.to_set(),
        old(order)@.no_duplicates(),
    ensures
        final(strip)@ == spread_strip(root, facts),
        final(strip)@ == final(order)@.to_set(),
        final(order)@.no_duplicates(),
{
    let ghost m = nodes(root);
    let ghost s0 = first_strip(root, facts);
    let n = ns.len();
    let mut marked = all_false(n);
    let mut k: usize = 0;
    while k < order.len()
        invariant
            k <= order@.len(),
            n == ns@.len(),
            ns@.len() == m.len(),
            forall|p: int| 0 <= p < ns@.len() ==> #[trigger] ns@[p]@ == m[p],
            forall|id: i32| #[trigger] last@.contains_key(id) <==> last_at(m, id) >= 0,
            forall|id: i32| #[trigger] last@.contains_key(id) ==> last@[id] == last_at(m, id),
            strip@ == order@.to_set(),
            order@.no_duplicates(),
            s0.subset_of(strip@),
            forall|t: Set<i32>| s0.subset_of(t) && spread_closed(m, t) ==> #[trigger] strip@.subset_of(t),
            forall|j: int, y: i32| 0 <= j < k && #[trigger] spreads(m, order@[j], y) ==> strip@.contains(y),
            marked@.len() == n,
            forall|p: int| 0 <= p < n && #[trigger] marked@[p] ==> m[p].index is Some && strip@.contains(m[p].index->0),
        decreases unmarked(marked@), order@.len() - k,
    {
        let x = order[k];
        let ghost o0 = order@;
        let ghost u0 = unmarked(marked@);
        proof {
            assert(o0.contains(x) || o0[k as int] == x);
            assert(strip@.contains(x));
            lemma_last_at(m, x);
        }
        match last.get(&x) {
            Some(px) => {
                let px = *px;
                let links = node_link_ids(ns[px]);
                proof {
                    assert(links@ == link_ids(m[px as int]));
                }
                let mut j: usize = 0;
                while j < links.len()
                    invariant
                        j <= links@.len(),
                        k < o0.len(),
                        x == o0[k as int],
                        px as int == last_at(m, x),
                        0 <= px < m.len(),
                        links@ == link_ids(m[px as int]),
                        n == ns@.len(),
                        ns@.len() == m.len(),
                        forall|p: int| 0 <= p < ns@.len() ==> #[trigger] ns@[p]@ == m[p],
                        forall|id: i32| #[trigger] last@.contains_key(id) <==> last_at(m, id) >= 0,
                        forall|id: i32| #[trigger] last@.contains_key(id) ==> last@[id] == last_at(m, id),
                        strip@ == order@.to_set(),
                        order@.no_duplicates(),
                        o0 == order@.take(o0.len() as int),
                        o0.len() <= order@.len(),
                        s0.subset_of(strip@),
                        strip@.contains(x),
                        forall|t: Set<i32>| s0.subset_of(t) && spread_closed(m, t) ==> #[trigger] strip@.subset_of(t),
                        forall|jj: int, y: i32| 0 <= jj < k && #[trigger] spreads(m, o0[jj], y) ==> strip@.contains(y),
                        forall|jj: int| 0 <= jj < j && #[trigger] spreads(m, x, links@[jj]) ==> strip@.contains(links@[jj]),
                        marked@.len() == n,
                        forall|p: int| 0 <= p < n && #[trigger] marked@[p] ==> m[p].index is Some && strip@.contains(m[p].index->0),
                        unmarked(marked@) + order@.len() == u0 + o0.len(),
                    decreases links@.len() - j,
                {
                    let y = links[j];
                    proof {
                        lemma_last_at(m, y);
                    }
                    match last.get(&y) {
                        Some(py) => {
                            let py = *py;
                            let b = ns[py];
                            if !is_type(b, "MCU_CheckZone") && !(world_block(b) && !is_type(b, "MCU_TR_Entity"))
                                && !strip.contains(&y) {
                                proof {
                                    assert(link_ids(m[px as int]).contains(y)) by {
                                        assert(links@[j as int] == y);
                                    }
                                    assert(spreads(m, x, y));
                                    assert(!marked@[py as int]);
                                    lemma_unmarked_set(marked@, py as int);
                                }
                                let ghost st0 = strip@;
                                add_strip(strip, order, y);
                                marked.set(py, true);
                                proof {
                                    assert forall|t: Set<i32>| s0.subset_of(t) && spread_closed(m, t) implies #[trigger] strip@.subset_of(
                                        t,
                                    ) by {
                                        assert(st0.subset_of(t));
                                        assert(t.contains(x));
                                        assert(t.contains(y));
                                    }
                                    assert(order@.take(o0.len() as int) =~= o0);
                                }
                            }
                        },
                        None => {},
                    }
                    j = j + 1;
                }
                proof {
                    assert forall|y: i32| #[trigger] spreads(m, x, y) implies strip@.contains(y) by {
                        let jj = choose|jj: int| 0 <= jj < links@.len() && links@[jj] == y;
                        assert(spreads(m, x, links@[jj]));
                    }
                }
            },
            None => {},
        }
        proof {
            assert forall|j: int, y: i32| 0 <= j < k + 1 && #[trigger] spreads(m, order@[j], y) implies strip@.contains(y) by {
                assert(order@[j] == o0[j]);
            }
        }
        k = k + 1;
    }
    proof {
        assert(spread_closed(m, strip@)) by {
            assert forall|x: i32, y: i32| strip@.contains(x) && spreads(m, x, y) implies strip@.contains(y) by {
                let j = choose|j: int| 0 <= j < order@.len() && order@[j] == x;
                assert(spreads(m, order@[j], y));
            }
        }
        assert forall|x: i32| strip@.contains(x) <==> spread_strip(root, facts).contains(x) by {
            if spread_strip(root, facts).contains(x) {
                assert(strip@.contains(x));
            }
            if strip@.contains(x) {
                assert forall|t: Set<i32>| s0.subset_of(t) && spread_closed(m, t) implies #[trigger] t.contains(x) by {
                    assert(strip@.subset_of(t));
                }
            }
        }
        assert(strip@ =~= spread_strip(root, facts));
    }
}

// ---------------------------------------------------------------------------
// Logic left with nothing to do
// ---------------------------------------------------------------------------

/// Mission logic that can go once everything it links to is gone: not a
/// group, a checkzone or a world object.
pub open spec fn droppable(t: Seq<char>) -> bool {
    t != "Group"@ && t != "MCU_CheckZone"@ && !is_world(t)
}

/// The block for `x` is droppable logic that links to at least one block,
/// and every block it links to is in `s`.
pub open spec fn orphaned(ns: Seq<EntityModel>, s: Set<i32>, x: i32) -> bool {
    let px = last_at(ns, x);
    let l = link_ids(ns[px]);
    &&& px >= 0
    &&& droppable(ns[px].block_type)
    &&& exists|k: int| 0 <= k < l.len() && last_at(ns, #[trigger] l[k]) >= 0
    &&& forall|k: int| 0 <= k < l.len() && last_at(ns, #[trigger] l[k]) >= 0 ==> s.contains(l[k])
}

pub open spec fn orphan_closed(ns: Seq<EntityModel>, s: Set<i32>) -> bool {
    forall|x: i32| #[trigger] orphaned(ns, s, x) ==> s.contains(x)
}

/// Everything stripped: the least set holding [`spread_strip`] that takes
/// in every orphaned block.
pub open spec fn final_strip(root: EntityModel, facts: Seq<Nearby>) -> Set<i32> {
    let ns = nodes(root);
    let s1 = spread_strip(root, facts);
    Set::new(|x: i32| forall|t: Set<i32>| #![trigger t.contains(x)] s1.subset_of(t) && orphan_closed(ns, t) ==> t.contains(x))
}

/// Whether some link of `links` has a block, and whether every such link is
/// stripped.
fn orphan_check(links: &Vec<i32>, last: &HashMap<i32, usize>, strip: &HashSet<i32>, Ghost(m): Ghost<Seq<EntityModel>>) -> (r: (
    bool,
    bool,
))
    requires
        forall|id: i32| #[trigger] last@.contains_key(id) <==> last_at(m, id) >= 0,
    ensures
        r.0 == exists|k: int| 0 <= k < links@.len() && last_at(m, #[trigger] links@[k]) >= 0,
        r.1 == forall|k: int| 0 <= k < links@.len() && last_at(m, #[trigger] links@[k]) >= 0 ==> strip@.contains(links@[k]),
{
    let mut any = false;
    let mut all = true;
    let mut k: usize = 0;
    while k < links.len()
        invariant
            k <= links@.len(),
            forall|id: i32| #[trigger] last@.contains_key(id) <==> last_at(m, id) >= 0,
            any == exists|j: int| 0 <= j < k && last_at(m, #[trigger] links@[j]) >= 0,
            all == forall|j: int| 0 <= j < k && last_at(m, #[trigger] links@[j]) >= 0 ==> strip@.contains(links@[j]),
        decreases links@.len() - k,
    {
        let y = links[k];
        if last.contains_key(&y) {
            any = true;
            if !strip.contains(&y) {
                all = false;
            }
        }
        proof {
            if last_at(m, y) >= 0 {
                assert(links@[k as int] == y);
            }
        }
        k = k + 1;
    }
    (any, all)
}

proof fn lemma_orphaned_grows(ns: Seq<EntityModel>, s: Set<i32>, t: Set<i32>, x: i32)
    requires
        orphaned(ns, s, x),
        s.subset_of(t),
    ensures
        orphaned(ns, t, x),
{
}

/// Take in orphaned blocks until none is left.
fn orphan_strip_exec(
    ns: &Vec<&Il2Entity>,
    last: &HashMap<i32, usize>,
    strip: &mut HashSet<i32>,
    order: &mut Vec<i32>,
    Ghost(root): Ghost<EntityModel>,
    Ghost(facts): Ghost<Seq<Nearby>>,
)
    requires
        ns@.len() == nodes(root).len(),
        forall|p: int| 0 <= p < ns@.len() ==> #[trigger] ns@[p]@ == nodes(root)[p],
        forall|id: i32| #[trigger] last@.contains_key(id) <==> last_at(nodes(root), id) >= 0,
        forall|id: i32| #[trigger] last@.contains_key(id) ==> last@[id] == last_at(nodes(root), id),
        old(strip)@ == spread_strip(root, facts),
        old(strip)@ == old(order)@.to_set(),
        old(order)@.no_duplicates(),
    ensures
        final(strip)@ == final_strip(root, facts),
        final(strip)@ == final(order)@.to_set(),
        final(order)@.no_duplicates(),
{
    let ghost m = nodes(root);
    let ghost s1 = spread_strip(root, facts);
    let n = ns.len();
    let mut marked = all_false(n);
    let mut changed = true;
    while changed
        invariant
            n == ns@.len(),
            ns@.len() == m.len(),
            forall|p: int| 0 <= p < ns@.len() ==> #[trigger] ns@[p]@ == m[p],
            forall|id: i32| #[trigger] last@.contains_key(id) <==> last_at(m, id) >= 0,
            forall|id: i32| #[trigger] last@.contains_key(id) ==> last@[id] == last_at(m, id),
            strip@ == order@.to_set(),
            order@.no_duplicates(),
            s1.subset_of(strip@),
            forall|t: Set<i32>| s1.subset_of(t) && orphan_closed(m, t) ==> #[trigger] strip@.subset_of(t),
            !changed ==> orphan_closed(m, strip@),
            marked@.len() == n,
            forall|p: int| 0 <= p < n && #[trigger] marked@[p] ==> m[p].index is Some && strip@.contains(m[p].index->0),
        decreases 2 * unmarked(marked@) + if changed {
            1int
        } else {
            0int
        },
    {
        changed = false;
        let ghost u0 = unmarked(marked@);
        let ghost st = strip@;
        let mut p: usize = 0;
        while p < n
            invariant
                p <= n,
                n == ns@.len(),
                ns@.len() == m.len(),
                forall|q: int| 0 <= q < ns@.len() ==> #[trigger] ns@[q]@ == m[q],
                forall|id: i32| #[trigger] last@.contains_key(id) <==> last_at(m, id) >= 0,
                forall|id: i32| #[trigger] last@.contains_key(id) ==> last@[id] == last_at(m, id),
                strip@ == order@.to_set(),
                order@.no_duplicates(),
                s1.subset_of(strip@),
                forall|t: Set<i32>| s1.subset_of(t) && orphan_closed(m, t) ==> #[trigger] strip@.subset_of(t),
                marked@.len() == n,
                forall|q: int| 0 <= q < n && #[trigger] marked@[q] ==> m[q].index is Some && strip@.contains(m[q].index->0),
                changed ==> unmarked(marked@) < u0,
                !changed ==> unmarked(marked@) == u0 && strip@ == st,
                !changed ==> forall|q: int|
                    0 <= q < p && (#[trigger] m[q]).index is Some && last_at(m, m[q].index->0) == q && orphaned(m, st, m[q].index->0)
                        ==> st.contains(m[q].index->0),
            decreases n - p,
        {
            let e = ns[p];
            proof {
                lemma_last_at(m, 0);
            }
            match e.index {
                Some(x) => {
                    proof {
                        lemma_last_at(m, x);
                    }
                    match last.get(&x) {
                        Some(at) => {
                            if *at == p && !strip.contains(&x) && !is_type(e, "Group") && !is_type(e, "MCU_CheckZone")
                                && !world_block(e) {
                                let links = node_link_ids(e);
                                let (any, all) = orphan_check(&links, last, strip, Ghost(m));
                                if any && all {
                                    proof {
                                        assert(orphaned(m, strip@, x));
                                        assert(!marked@[p as int]);
                                        lemma_unmarked_set(marked@, p as int);
                                    }
                                    let ghost st0 = strip@;
                                    add_strip(strip, order, x);
                                    marked.set(p, true);
                                    changed = true;
                                    proof {
                                        assert forall|t: Set<i32>| s1.subset_of(t) && orphan_closed(m, t) implies #[trigger] strip@.subset_of(
                                            t,
                                        ) by {
                                            assert(st0.subset_of(t));
                                            lemma_orphaned_grows(m, st0, t, x);
                                        }
                                    }
                                }
                            }
                        },
                        None => {},
                    }
                },
                None => {},
            }
            p = p + 1;
        }
        proof {
            if !changed {
                assert forall|x: i32| #[trigger] orphaned(m, strip@, x) implies strip@.contains(x) by {
                    lemma_last_at(m, x);
                    let q = last_at(m, x);
                    assert(m[q].index == Some(x));
                    assert(m[q].index->0 == x);
                }
            }
        }
    }
    proof {
        assert forall|x: i32| strip@.contains(x) <==> final_strip(root, facts).contains(x) by {
            if final_strip(root, facts).contains(x) {
                assert(strip@.contains(x));
            }
            if strip@.contains(x) {
                assert forall|t: Set<i32>| s1.subset_of(t) && orphan_closed(m, t) implies #[trigger] t.contains(x) by {
                    assert(strip@.subset_of(t));
                }
            }
        }
        assert(strip@ =~= final_strip(root, facts));
    }
}

// ---------------------------------------------------------------------------
// Checkzones kept but unlinked from the player
// ---------------------------------------------------------------------------

/// Indexes of the checkzones that stay but object-link the player.
pub open spec fn unlink_ids(root: EntityModel, facts: Seq<Nearby>) -> Set<i32> {
    let ns = nodes(root);
    let s = final_strip(root, facts);
    let pl = player_ids(ns);
    Set::new(
        |id: i32|
            exists|p: int|
                0 <= p < ns.len() && (#[trigger] ns[p]).block_type == "MCU_CheckZone"@ && ns[p].index == Some(id)
                    && !s.contains(id) && hits_player(ns[p], pl),
    )
}

fn collect_unlink(
    ns: &Vec<&Il2Entity>,
    strip: &HashSet<i32>,
    players: &HashSet<i32>,
    Ghost(root): Ghost<EntityModel>,
    Ghost(facts): Ghost<Seq<Nearby>>,
) -> (r: HashSet<i32>)
    requires
        ns@.len() == nodes(root).len(),
        forall|p: int| 0 <= p < ns@.len() ==> #[trigger] ns@[p]@ == nodes(root)[p],
        strip@ == final_strip(root, facts),
        players@ == player_ids(nodes(root)),
    ensures
        r@ == unlink_ids(root, facts),
{
    let ghost m = nodes(root);
    let ghost s = strip@;
    let ghost pl = players@;
    let mut u: HashSet<i32> = HashSet::new();
    let mut p: usize = 0;
    while p < ns.len()
        invariant
            p <= ns@.len(),
            ns@.len() == m.len(),
            forall|q: int| 0 <= q < ns@.len() ==> #[trigger] ns@[q]@ == m[q],
            s == strip@,
            pl == players@,
            u@ == Set::new(
                |id: i32|
                    exists|q: int|
                        0 <= q < p && (#[trigger] m[q]).block_type == "MCU_CheckZone"@ && m[q].index == Some(id)
                            && !s.contains(id) && hits_player(m[q], pl),
            ),
        decreases ns@.len() - p,
    {
        let e = ns[p];
        let ghost before = u@;
        if is_type(e, "MCU_CheckZone") {
            match e.index {
                Some(id) => {
                    if !strip.contains(&id) && hits(e, players) {
                        u.insert(id);
                    }
                },
                None => {},
            }
        }
        proof {
            let nxt = Set::new(
                |id: i32|
                    exists|q: int|
                        0 <= q < p + 1 && (#[trigger] m[q]).block_type == "MCU_CheckZone"@ && m[q].index == Some(id)
                            && !s.contains(id) && hits_player(m[q], pl),
            );
            assert forall|id: i32| u@.contains(id) <==> nxt.contains(id) by {
                if nxt.contains(id) {
                    let q = choose|q: int|
                        0 <= q < p + 1 && (#[trigger] m[q]).block_type == "MCU_CheckZone"@ && m[q].index == Some(id)
                            && !s.contains(id) && hits_player(m[q], pl);
                    if q < p {
                        assert(before.contains(id));
                    }
                }
                if before.contains(id) {
                    let q = choose|q: int|
                        0 <= q < p && (#[trigger] m[q]).block_type == "MCU_CheckZone"@ && m[q].index == Some(id)
                            && !s.contains(id) && hits_player(m[q], pl);
                    assert(nxt.contains(id));
                }
            }
            assert(u@ =~= nxt);
        }
        p = p + 1;
    }
    proof {
        assert(u@ =~= unlink_ids(root, facts));
    }
    u
}

// ---------------------------------------------------------------------------
// Rewriting the tree
// ---------------------------------------------------------------------------

/// `ids` without the members of `s`, in order.
pub open spec fn without(ids: Seq<i32>, s: Set<i32>) -> Seq<i32>
    decreases ids.len(),
{
    if ids.len() == 0 {
        seq![]
    } else {
        let w = without(ids.drop_last(), s);
        if s.contains(ids.last()) {
            w
        } else {
            w.push(ids.last())
        }
    }
}

fn without_exec(ids: &Vec<i32>, s: &HashSet<i32>) -> (r: Vec<i32>)
    ensures
        r@ == without(ids@, s@),
{
    let mut r: Vec<i32> = Vec::new();
    let mut i: usize = 0;
    while i < ids.len()
        invariant
            i <= ids@.len(),
            r@ == without(ids@.take(i as int), s@),
        decreases ids@.len() - i,
    {
        proof {
            assert(ids@.take(i + 1).drop_last() =~= ids@.take(i as int));
            assert(ids@.take(i + 1).last() == ids@[i as int]);
        }
        if !s.contains(&ids[i]) {
            r.push(ids[i]);
        }
        i = i + 1;
    }
    proof {
        assert(ids@.take(i as int) =~= ids@);
    }
    r
}

/// A copy of `e` without its children.
fn shell(e: &Il2Entity) -> (r: Il2Entity)
    ensures
        r@ == (EntityModel { children: seq![], ..e@ }),
        r.children@.len() == 0,
{
    let r = Il2Entity {
        block_type: e.block_type.clone(),
        index: e.index,
        targets: crate::ast::copy_ids(&e.targets),
        objects: crate::ast::copy_ids(&e.objects),
        properties: crate::ast::copy_props(&e.properties),
        children: Vec::new(),
    };
    proof {
        lemma_children_model(r);
        assert(r@.children =~= Seq::<EntityModel>::empty());
    }
    r
}

/// A kept checkzone with the stripped ids taken out of its `Objects` and
/// `PlaneCoalitions` set to `pc`.
pub open spec fn unlinked_zone(e: EntityModel, s: Set<i32>, pc: Seq<char>) -> EntityModel {
    let o = without(e.objects, s);
    EntityModel {
        objects: o,
        properties: prop_set(prop_set(e.properties, "Objects"@, int_array_text(o)), "PlaneCoalitions"@, pc),
        ..e
    }
}

/// Unlink, in pre-order, the first block with each Index in `todo`; returns
/// the tree and the ids not met.
pub open spec fn unlink_node(e: EntityModel, todo: Set<i32>, s: Set<i32>, pc: Seq<char>) -> (EntityModel, Set<i32>)
    decreases e,
{
    let hit = e.index is Some && todo.contains(e.index->0);
    let e1 = if hit {
        unlinked_zone(e, s, pc)
    } else {
        e
    };
    let t1 = if hit {
        todo.remove(e.index->0)
    } else {
        todo
    };
    let r = unlink_list(e.children, t1, s, pc);
    (EntityModel { children: r.0, ..e1 }, r.1)
}

pub open spec fn unlink_list(cs: Seq<EntityModel>, todo: Set<i32>, s: Set<i32>, pc: Seq<char>) -> (Seq<EntityModel>, Set<i32>)
    decreases cs,
{
    if cs.len() == 0 {
        (seq![], todo)
    } else {
        let a = unlink_node(cs[0], todo, s, pc);
        let rest = unlink_list(cs.drop_first(), a.1, s, pc);
        (seq![a.0] + rest.0, rest.1)
    }
}

fn unlink_tree(e: &Il2Entity, todo: &mut HashSet<i32>, strip: &HashSet<i32>, pc: &str) -> (r: Il2Entity)
    ensures
        (r@, final(todo)@) == unlink_node(e@, old(todo)@, strip@, pc@),
    decreases e,
{
    let mut n = shell(e);
    match e.index {
        Some(id) => {
            if todo.contains(&id) {
                n.set_objects(without_exec(&e.objects, strip));
                n.set_property("PlaneCoalitions", pc);
                todo.remove(&id);
            }
        },
        None => {},
    }
    let ghost t1 = todo@;
    let ghost n1 = n@;
    proof {
        lemma_children_model(*e);
        assert(e@.children.skip(0) =~= e@.children);
    }
    let ghost cs = e@.children;
    let mut kids: Vec<Il2Entity> = Vec::new();
    let mut i: usize = 0;
    while i < e.children.len()
        invariant
            i <= e.children@.len(),
            cs == e@.children,
            cs.len() == e.children@.len(),
            forall|j: int| 0 <= j < cs.len() ==> #[trigger] cs[j] == e.children@[j]@,
            unlink_list(cs, t1, strip@, pc@) == (
                crate::ast::children_model(kids@) + unlink_list(cs.skip(i as int), todo@, strip@, pc@).0,
                unlink_list(cs.skip(i as int), todo@, strip@, pc@).1,
            ),
        decreases e.children@.len() - i,
    {
        let ghost tb = todo@;
        let ghost kb = crate::ast::children_model(kids@);
        proof {
            assert(decreases_to!(*e => e.children));
            assert(decreases_to!(e.children => e.children@));
            assert(decreases_to!(e.children@ => e.children@[i as int]));
        }
        let c = unlink_tree(&e.children[i], todo, strip, pc);
        kids.push(c);
        proof {
            let sk = cs.skip(i as int);
            assert(sk[0] == cs[i as int]);
            assert(sk.drop_first() =~= cs.skip(i + 1));
            assert(crate::ast::children_model(kids@) =~= kb + seq![c@]);
        }
        i = i + 1;
    }
    proof {
        assert(cs.skip(i as int) =~= Seq::<EntityModel>::empty());
        assert(crate::ast::children_model(kids@) =~= unlink_list(cs, t1, strip@, pc@).0);
    }
    n.children = kids;
    proof {
        lemma_children_model(n);
    }
    n
}

/// A child that stays: not named `AutoRemove` and not stripped.
pub open spec fn kept(c: EntityModel, s: Set<i32>) -> bool {
    crate::ast::name_of(c) != Some("AutoRemove"@) && !(c.index is Some && s.contains(c.index->0))
}

/// The tree with every child that does not stay removed, at every depth.
pub open spec fn pruned(e: EntityModel, s: Set<i32>) -> EntityModel
    decreases e,
{
    EntityModel { children: pruned_list(e.children, s), ..e }
}

pub open spec fn pruned_list(cs: Seq<EntityModel>, s: Set<i32>) -> Seq<EntityModel>
    decreases cs,
{
    if cs.len() == 0 {
        seq![]
    } else {
        (if kept(cs[0], s) {
            seq![pruned(cs[0], s)]
        } else {
            seq![]
        }) + pruned_list(cs.drop_first(), s)
    }
}

fn keep_child(c: &Il2Entity, strip: &HashSet<i32>) -> (r: bool)
    ensures
        r == kept(c@, strip@),
{
    let named_auto = match c.name() {
        Some(n) => crate::text::str_eq(n, "AutoRemove"),
        None => false,
    };
    let gone = match c.index {
        Some(id) => strip.contains(&id),
        None => false,
    };
    !named_auto && !gone
}

fn prune_tree(e: &Il2Entity, strip: &HashSet<i32>) -> (r: Il2Entity)
    ensures
        r@ == pruned(e@, strip@),
    decreases e,
{
    let mut n = shell(e);
    proof {
        lemma_children_model(*e);
        assert(e@.children.skip(0) =~= e@.children);
    }
    let ghost cs = e@.children;
    let mut kids: Vec<Il2Entity> = Vec::new();
    let mut i: usize = 0;
    while i < e.children.len()
        invariant
            i <= e.children@.len(),
            cs == e@.children,
            cs.len() == e.children@.len(),
            forall|j: int| 0 <= j < cs.len() ==> #[trigger] cs[j] == e.children@[j]@,
            pruned_list(cs, strip@) == crate::ast::children_model(kids@) + pruned_list(cs.skip(i as int), strip@),
        decreases e.children@.len() - i,
    {
        let ghost kb = crate::ast::children_model(kids@);
        proof {
            assert(decreases_to!(*e => e.children));
            assert(decreases_to!(e.children => e.children@));
            assert(decreases_to!(e.children@ => e.children@[i as int]));
            let sk = cs.skip(i as int);
            assert(sk[0] == cs[i as int]);
            assert(sk.drop_first() =~= cs.skip(i + 1));
        }
        let c = &e.children[i];
        if keep_child(c, strip) {
            let p = prune_tree(c, strip);
            kids.push(p);
            proof {
                assert(crate::ast::children_model(kids@) =~= kb + seq![p@]);
            }
        } else {
            proof {
                assert(kb + (Seq::<EntityModel>::empty() + pruned_list(cs.skip(i + 1), strip@)) =~= kb + pruned_list(
                    cs.skip(i + 1),
                    strip@,
                ));
            }
        }
        i = i + 1;
    }
    proof {
        assert(cs.skip(i as int) =~= Seq::<EntityModel>::empty());
        assert(crate::ast::children_model(kids@) =~= pruned_list(cs, strip@));
    }
    n.children = kids;
    proof {
        lemma_children_model(n);
    }
    n
}

/// One block with the stripped ids taken out of its `Targets` and
/// `Objects`; a list that loses nothing is left as it was written.
pub open spec fn scrub_node(e: EntityModel, s: Set<i32>) -> EntityModel {
    let t = without(e.targets, s);
    let e1 = if t.len() != e.targets.len() {
        with_targets(e, t)
    } else {
        e
    };
    let o = without(e1.objects, s);
    if o.len() != e1.objects.len() {
        with_objects(e1, o)
    } else {
        e1
    }
}

/// [`scrub_node`] on every block.
pub open spec fn scrubbed(e: EntityModel, s: Set<i32>) -> EntityModel
    decreases e,
{
    EntityModel {
        children: Seq::new(
            e.children.len(),
            |i: int|
                if 0 <= i < e.children.len() {
                    scrubbed(e.children[i], s)
                } else {
                    arbitrary()
                },
        ),
        ..scrub_node(e, s)
    }
}

fn scrub_tree(e: &Il2Entity, strip: &HashSet<i32>) -> (r: Il2Entity)
    ensures
        r@ == scrubbed(e@, strip@),
    decreases e,
{
    let mut n = shell(e);
    let t = without_exec(&e.targets, strip);
    if t.len() != e.targets.len() {
        n.set_targets(t);
    }
    let o = without_exec(&n.objects, strip);
    if o.len() != n.objects.len() {
        n.set_objects(o);
    }
    assert(n@ == (EntityModel { children: seq![], ..scrub_node(e@, strip@) }));
    proof {
        lemma_children_model(*e);
    }
    let mut kids: Vec<Il2Entity> = Vec::new();
    let mut i: usize = 0;
    while i < e.children.len()
        invariant
            i <= e.children@.len(),
            kids@.len() == i,
            forall|j: int| 0 <= j < i ==> #[trigger] kids@[j]@ == scrubbed(e.children@[j]@, strip@),
        decreases e.children@.len() - i,
    {
        proof {
            assert(decreases_to!(*e => e.children));
            assert(decreases_to!(e.children => e.children@));
            assert(decreases_to!(e.children@ => e.children@[i as int]));
        }
        kids.push(scrub_tree(&e.children[i], strip));
        i = i + 1;
    }
    n.children = kids;
    proof {
        lemma_children_model(n);
        assert(n@.children =~= scrubbed(e@, strip@).children);
    }
    n
}

/// The id written in property `key`, as std parses it.
pub open spec fn ref_id(c: EntityModel, key: Seq<char>) -> Option<i32> {
    match prop_get(c.properties, key) {
        Some(v) => parse_i32_spec(v),
        None => None,
    }
}

/// An event or report entry that fires nothing stripped.
pub open spec fn event_kept(c: EntityModel, s: Set<i32>) -> bool {
    &&& !(ref_id(c, "TarId"@) is Some && s.contains(ref_id(c, "TarId"@)->0))
    &&& !(ref_id(c, "CmdId"@) is Some && s.contains(ref_id(c, "CmdId"@)->0))
}

/// Entries of `OnEvents` / `OnReports` blocks that fire something stripped
/// removed, at every depth.
pub open spec fn events_scrubbed(e: EntityModel, s: Set<i32>) -> EntityModel
    decreases e,
{
    EntityModel {
        children: events_list(e.children, s, e.block_type == "OnEvents"@ || e.block_type == "OnReports"@),
        ..e
    }
}

pub open spec fn events_list(cs: Seq<EntityModel>, s: Set<i32>, filter: bool) -> Seq<EntityModel>
    decreases cs,
{
    if cs.len() == 0 {
        seq![]
    } else {
        (if !filter || event_kept(cs[0], s) {
            seq![events_scrubbed(cs[0], s)]
        } else {
            seq![]
        }) + events_list(cs.drop_first(), s, filter)
    }
}

fn ref_id_of(c: &Il2Entity, key: &str) -> (r: Option<i32>)
    ensures
        r == ref_id(c@, key@),
{
    match c.property(key) {
        Some(v) => parse_i32(v),
        None => None,
    }
}

fn keep_event(c: &Il2Entity, strip: &HashSet<i32>) -> (r: bool)
    ensures
        r == event_kept(c@, strip@),
{
    let tar = match ref_id_of(c, "TarId") {
        Some(i) => strip.contains(&i),
        None => false,
    };
    let cmd = match ref_id_of(c, "CmdId") {
        Some(i) => strip.contains(&i),
        None => false,
    };
    !tar && !cmd
}

fn events_tree(e: &Il2Entity, strip: &HashSet<i32>) -> (r: Il2Entity)
    ensures
        r@ == events_scrubbed(e@, strip@),
    decreases e,
{
    let mut n = shell(e);
    let filter = is_type(e, "OnEvents") || is_type(e, "OnReports");
    proof {
        lemma_children_model(*e);
        assert(e@.children.skip(0) =~= e@.children);
    }
    let ghost cs = e@.children;
    let mut kids: Vec<Il2Entity> = Vec::new();
    let mut i: usize = 0;
    while i < e.children.len()
        invariant
            i <= e.children@.len(),
            cs == e@.children,
            cs.len() == e.children@.len(),
            forall|j: int| 0 <= j < cs.len() ==> #[trigger] cs[j] == e.children@[j]@,
            events_list(cs, strip@, filter) == crate::ast::children_model(kids@) + events_list(
                cs.skip(i as int),
                strip@,
                filter,
            ),
        decreases e.children@.len() - i,
    {
        let ghost kb = crate::ast::children_model(kids@);
        proof {
            assert(decreases_to!(*e => e.children));
            assert(decreases_to!(e.children => e.children@));
            assert(decreases_to!(e.children@ => e.children@[i as int]));
            let sk = cs.skip(i as int);
            assert(sk[0] == cs[i as int]);
            assert(sk.drop_first() =~= cs.skip(i + 1));
        }
        let c = &e.children[i];
        if !filter || keep_event(c, strip) {
            let p = events_tree(c, strip);
            kids.push(p);
            proof {
                assert(crate::ast::children_model(kids@) =~= kb + seq![p@]);
            }
        } else {
            proof {
                assert(kb + (Seq::<EntityModel>::empty() + events_list(cs.skip(i + 1), strip@, filter)) =~= kb
                    + events_list(cs.skip(i + 1), strip@, filter));
            }
        }
        i = i + 1;
    }
    proof {
        assert(cs.skip(i as int) =~= Seq::<EntityModel>::empty());
        assert(crate::ast::children_model(kids@) =~= events_list(cs, strip@, filter));
    }
    n.children = kids;
    proof {
        lemma_children_model(n);
    }
    n
}

// ---------------------------------------------------------------------------
// Cleaning
// ---------------------------------------------------------------------------

/// What cleaning takes out: the ids stripped, and the checkzones that stay
/// but lose their link to the player.
pub struct CleanPlan {
    pub strip: HashSet<i32>,
    pub unlink: HashSet<i32>,
}

/// Work out what cleaning `root` removes, with `nearby` the map facts for
/// its blocks in pre-order.
pub fn plan_clean(root: &Il2Entity, nearby: &[Nearby]) -> (r: CleanPlan)
    ensures
        r.strip@ == final_strip(root@, nearby@),
        r.unlink@ == unlink_ids(root@, nearby@),
{
    let ns = all_nodes(root);
    let last = last_positions(&ns);
    let players = collect_player_ids(&ns);
    proof {
        assert(node_models(ns@) =~= nodes(root@));
    }
    let (mut strip, mut order) = seed_strip(root, &ns, &last, &players, nearby);
    spread_strip_exec(&ns, &last, &mut strip, &mut order, Ghost(root@), Ghost(nearby@));
    orphan_strip_exec(&ns, &last, &mut strip, &mut order, Ghost(root@), Ghost(nearby@));
    let unlink = collect_unlink(&ns, &strip, &players, Ghost(root@), Ghost(nearby@));
    CleanPlan { strip, unlink }
}

/// Counts reported by [`clean_airfield`].
#[derive(Debug, Clone)]
pub struct CleanReport {
    pub stripped: usize,
    pub unlinked_checkzones: usize,
    pub plane_coalitions: String,
}

/// The airfield after cleaning: the unchanged tree when there is nothing to
/// strip or unlink; otherwise the kept checkzones unlinked, the stripped
/// blocks and `AutoRemove` removed, and links to stripped ids scrubbed.
pub open spec fn cleaned(root: EntityModel, facts: Seq<Nearby>, pc: Seq<char>) -> EntityModel {
    let s = final_strip(root, facts);
    let u = unlink_ids(root, facts);
    if s =~= Set::<i32>::empty() && u =~= Set::<i32>::empty() {
        root
    } else {
        events_scrubbed(scrubbed(pruned(unlink_node(root, u, s, pc).0, s), s), s)
    }
}

/// Remove the player and SP logic; retarget proximity checkzones to
/// `plane_coalitions`. `nearby` holds the map facts for the blocks of
/// `root` in pre-order.
pub fn clean_airfield(root: &mut Il2Entity, plane_coalitions: &str, nearby: &[Nearby]) -> (r: Result<
    CleanReport,
    String,
>)
    ensures
        r is Ok,
        r matches Ok(rep) && rep.stripped == final_strip(old(root)@, nearby@).len() && rep.unlinked_checkzones
            == unlink_ids(old(root)@, nearby@).len() && rep.plane_coalitions@ == plane_coalitions@,
        final(root)@ == cleaned(old(root)@, nearby@, plane_coalitions@),
{
    let plan = plan_clean(root, nearby);
    if plan.strip.is_empty() && plan.unlink.is_empty() {
        return Ok(
            CleanReport { stripped: 0, unlinked_checkzones: 0, plane_coalitions: crate::text::owned(plane_coalitions) },
        );
    }
    let stripped = plan.strip.len();
    let unlinked = plan.unlink.len();
    let strip = plan.strip;
    let mut todo = plan.unlink;
    let t1 = unlink_tree(root, &mut todo, &strip, plane_coalitions);
    let t2 = prune_tree(&t1, &strip);
    let t3 = scrub_tree(&t2, &strip);
    let t4 = events_tree(&t3, &strip);
    *root = t4;
    Ok(CleanReport { stripped, unlinked_checkzones: unlinked, plane_coalitions: crate::text::owned(plane_coalitions) })
}

// ---------------------------------------------------------------------------
// The player's planes
// ---------------------------------------------------------------------------

/// A player plane: its aircraft and country.
#[derive(Debug, Clone)]
pub struct PlayerPlaneInfo {
    pub name: String,
    pub country: i32,
}

/// The script file's name without `.txt`.
pub open spec fn script_label(s: Seq<char>) -> Seq<char> {
    crate::text::trim_end_all(s.subrange(crate::duplicate::segment_start(s) as int, s.len() as int), ".txt"@)
}

/// How a player plane is named: its script's file name, else its `Name`,
/// else `Player plane`.
pub open spec fn plane_label(e: EntityModel) -> Seq<char> {
    let script = prop_get(e.properties, "Script"@);
    if script is Some && script_label(script->0).len() > 0 {
        script_label(script->0)
    } else {
        match crate::ast::name_of(e) {
            Some(n) => n,
            None => "Player plane"@,
        }
    }
}

/// `Country` as a number (0 when it is not one).
pub open spec fn country_of(e: EntityModel) -> i32 {
    match ref_id(e, "Country"@) {
        Some(c) => c,
        None => 0,
    }
}

/// The player planes of a pre-order block list, as (label, country).
pub open spec fn player_planes(ns: Seq<EntityModel>) -> Seq<(Seq<char>, i32)>
    decreases ns.len(),
{
    if ns.len() == 0 {
        seq![]
    } else {
        let r = player_planes(ns.drop_last());
        if is_player_plane(ns.last()) {
            r.push((plane_label(ns.last()), country_of(ns.last())))
        } else {
            r
        }
    }
}

pub open spec fn plane_infos(v: Seq<PlayerPlaneInfo>) -> Seq<(Seq<char>, i32)> {
    Seq::new(v.len(), |i: int| (v[i].name@, v[i].country))
}

fn plane_label_of(e: &Il2Entity) -> (r: String)
    ensures
        r@ == plane_label(e@),
{
    match e.property("Script") {
        Some(sc) => {
            let cs = crate::text::chars_of(sc);
            let len = cs.len();
            let mut st = len;
            proof {
                assert(sc@.subrange(0, len as int) =~= sc@);
            }
            while st > 0 && cs[st - 1] != '\\' && cs[st - 1] != '/'
                invariant
                    st <= len == cs@.len(),
                    cs@ == sc@,
                    crate::duplicate::segment_start(sc@) == crate::duplicate::segment_start(sc@.subrange(0, st as int)),
                decreases st,
            {
                proof {
                    assert(sc@.subrange(0, st as int).drop_last() =~= sc@.subrange(0, st - 1));
                }
                st = st - 1;
            }
            proof {
                if st == len {
                    assert(sc@.subrange(0, st as int) =~= sc@);
                }
                assert(crate::duplicate::segment_start(sc@) == st);
            }
            let end = crate::text::trim_end_all_range(&cs, st, len, ".txt");
            if end > st {
                return crate::text::string_from_range(&cs, st, end);
            }
        },
        None => {},
    }
    match e.name() {
        Some(n) => crate::text::owned(n),
        None => crate::text::owned("Player plane"),
    }
}

/// The player planes of `root`, in pre-order.
pub fn collect_player_planes(root: &Il2Entity) -> (r: Vec<PlayerPlaneInfo>)
    ensures
        plane_infos(r@) == player_planes(nodes(root@)),
{
    let ns = all_nodes(root);
    let ghost m = nodes(root@);
    let mut out: Vec<PlayerPlaneInfo> = Vec::new();
    let mut p: usize = 0;
    while p < ns.len()
        invariant
            p <= ns@.len(),
            ns@.len() == m.len(),
            forall|q: int| 0 <= q < ns@.len() ==> #[trigger] ns@[q]@ == m[q],
            plane_infos(out@) == player_planes(m.take(p as int)),
        decreases ns@.len() - p,
    {
        let e = ns[p];
        proof {
            assert(m.take(p + 1).drop_last() =~= m.take(p as int));
            assert(m.take(p + 1).last() == e@);
        }
        let ghost before = plane_infos(out@);
        if player_plane(e) {
            let country = match ref_id_of(e, "Country") {
                Some(c) => c,
                None => 0,
            };
            let name = plane_label_of(e);
            out.push(PlayerPlaneInfo { name, country });
            proof {
                assert(plane_infos(out@) =~= before.push((plane_label(e@), country_of(e@))));
            }
        }
        p = p + 1;
    }
    proof {
        assert(m.take(p as int) =~= m);
    }
    out
}

// ---------------------------------------------------------------------------
// What a report link strips
// ---------------------------------------------------------------------------

proof fn lemma_spread_closed(root: EntityModel, facts: Seq<Nearby>)
    ensures
        spread_closed(nodes(root), spread_strip(root, facts)),
{
    let ns = nodes(root);
    let s1 = spread_strip(root, facts);
    let s0 = first_strip(root, facts);
    assert forall|x: i32, y: i32| #![trigger s1.contains(x), spreads(ns, x, y)] s1.contains(x) && spreads(ns, x, y) implies s1.contains(y) by {
        assert forall|t: Set<i32>| #![trigger t.contains(y)] s0.subset_of(t) && spread_closed(ns, t) implies t.contains(y) by {
            assert(t.contains(x));
        }
    }
}

/// The final strip set is closed under spreading: what a stripped block
/// spreads to is stripped too.
proof fn lemma_final_closed(root: EntityModel, facts: Seq<Nearby>, x: i32, y: i32)
    requires
        final_strip(root, facts).contains(x),
        spreads(nodes(root), x, y),
    ensures
        final_strip(root, facts).contains(y),
{
    let ns = nodes(root);
    let s1 = spread_strip(root, facts);
    lemma_spread_closed(root, facts);
    assert forall|t: Set<i32>| #![trigger t.contains(y)] s1.subset_of(t) && orphan_closed(ns, t) implies t.contains(y) by {
        if !t.contains(y) {
            let t2 = t.filter(|z: i32| !(last_at(ns, z) >= 0 && link_ids(ns[last_at(ns, z)]).contains(y)));
            assert forall|z: i32| s1.contains(z) implies t2.contains(z) by {
                if last_at(ns, z) >= 0 && link_ids(ns[last_at(ns, z)]).contains(y) {
                    assert(spreads(ns, z, y));
                    assert(s1.contains(y));
                }
            }
            assert(s1.subset_of(t2));
            assert forall|z: i32| #[trigger] orphaned(ns, t2, z) implies t2.contains(z) by {
                lemma_orphaned_grows(ns, t2, t, z);
                if last_at(ns, z) >= 0 && link_ids(ns[last_at(ns, z)]).contains(y) {
                    let l = link_ids(ns[last_at(ns, z)]);
                    let k = choose|k: int| 0 <= k < l.len() && l[k] == y;
                    assert(last_at(ns, l[k]) >= 0);
                    assert(t2.contains(l[k]));
                }
            }
            assert(orphan_closed(ns, t2));
            assert(t2.contains(x));
        }
    }
}

proof fn lemma_event_links_has(cs: Seq<EntityModel>, j: int, y: i32)
    requires
        0 <= j < cs.len(),
        is_event_block(cs[j].block_type),
        link_ids(cs[j]).contains(y),
    ensures
        event_links(cs).contains(y),
    decreases j,
{
    let head = if is_event_block(cs[0].block_type) { link_ids(cs[0]) } else { seq![] };
    assert(event_links(cs) == head + event_links(cs.drop_first()));
    if j == 0 {
        let k = choose|k: int| 0 <= k < head.len() && head[k] == y;
        assert((head + event_links(cs.drop_first()))[k] == y);
    } else {
        assert(cs.drop_first()[j - 1] == cs[j]);
        lemma_event_links_has(cs.drop_first(), j - 1, y);
        let rest = event_links(cs.drop_first());
        let k = choose|k: int| 0 <= k < rest.len() && rest[k] == y;
        assert((head + rest)[head.len() + k] == y);
    }
}

proof fn lemma_links_of_events(e: EntityModel, y: i32)
    requires
        event_links(e.children).contains(y),
    ensures
        link_ids(e).contains(y),
{
    let a = e.targets + e.objects + opt_seq(pointer(e, "LinkTrId"@)) + opt_seq(pointer(e, "MisObjID"@)) + opt_seq(
        pointer(e, "TarId"@),
    ) + opt_seq(pointer(e, "CmdId"@));
    let b = event_links(e.children);
    assert(link_ids(e) == a + b);
    let k = choose|k: int| 0 <= k < b.len() && b[k] == y;
    assert((a + b)[a.len() + k] == y);
}

/// Cleaning strips what a stripped block's reports and events fire: when a
/// block in the final strip set has an `OnReports` (or `OnEvents`) child
/// whose `OnReport` (or `OnEvent`) names, by a positive `TarId`, a block that
/// is neither a checkzone nor a world object, that block is in the final
/// strip set as well.
pub proof fn law_report_targets_stripped(
    root: EntityModel,
    facts: Seq<Nearby>,
    x: i32,
    a: int,
    b: int,
    v: Seq<char>,
    y: i32,
)
    requires
        final_strip(root, facts).contains(x),
        last_at(nodes(root), x) >= 0,
        0 <= a < nodes(root)[last_at(nodes(root), x)].children.len(),
        nodes(root)[last_at(nodes(root), x)].children[a].block_type == "OnReports"@
            || nodes(root)[last_at(nodes(root), x)].children[a].block_type == "OnEvents"@,
        0 <= b < nodes(root)[last_at(nodes(root), x)].children[a].children.len(),
        nodes(root)[last_at(nodes(root), x)].children[a].children[b].block_type == "OnReport"@
            || nodes(root)[last_at(nodes(root), x)].children[a].children[b].block_type == "OnEvent"@,
        prop_get(nodes(root)[last_at(nodes(root), x)].children[a].children[b].properties, "TarId"@) == Some(v),
        parse_i32_spec(v) == Some(y),
        y > 0,
        last_at(nodes(root), y) >= 0,
        ({
            let t = nodes(root)[last_at(nodes(root), y)].block_type;
            t != "MCU_CheckZone"@ && t != "Vehicle"@ && t != "Ship"@ && t != "Plane"@ && t != "Block"@ && t != "Ground"@
        }),
    ensures
        final_strip(root, facts).contains(y),
{
    let ns = nodes(root);
    let e = ns[last_at(ns, x)];
    let c = e.children[a];
    let d = c.children[b];
    assert(pointer(d, "TarId"@) == Some(y));
    let ld = d.targets + d.objects + opt_seq(pointer(d, "LinkTrId"@)) + opt_seq(pointer(d, "MisObjID"@)) + opt_seq(
        pointer(d, "TarId"@),
    ) + opt_seq(pointer(d, "CmdId"@));
    assert(link_ids(d) == ld + event_links(d.children));
    assert(opt_seq(pointer(d, "TarId"@)) == seq![y]);
    let pre = d.targets + d.objects + opt_seq(pointer(d, "LinkTrId"@)) + opt_seq(pointer(d, "MisObjID"@));
    assert((pre + seq![y])[pre.len() as int] == y);
    assert(ld == (pre + seq![y]) + opt_seq(pointer(d, "CmdId"@)));
    assert(ld[pre.len() as int] == y);
    assert((ld + event_links(d.children))[pre.len() as int] == y);
    assert(link_ids(d).contains(y));
    lemma_event_links_has(c.children, b, y);
    lemma_links_of_events(c, y);
    lemma_event_links_has(e.children, a, y);
    lemma_links_of_events(e, y);
    assert(spreads(ns, x, y));
    lemma_final_closed(root, facts, x, y);
}

} // verus!
