//! Edits of a fighter group: changing its first block of a given name,
//! numbering its Cover commands, and reading and splitting its planes.

use vstd::prelude::*;
use crate::ast::{EntityModel, Il2Entity, find_named, lemma_children_model, name_of, prop_get};
use crate::bombers::link::{named, with_prop, with_targets};
use crate::recon::generate::views;
use crate::text::{dec_text, int_text, owned, parse_i32_spec, push_dec, push_str, str_eq};
use super::ends::seats_from;

verus! {

// ---------------------------------------------------------------------------
// Patching plane links
// ---------------------------------------------------------------------------

/// The units of each flight, what their DeathCount and spawner are, and the
/// prototype Indexes those replace.
pub struct UnitPatch {
    pub flights: Vec<Vec<i32>>,
    pub deaths: Vec<i32>,
    pub spawns: Vec<i32>,
    pub old_death: i32,
    pub old_spawn: i32,
}

/// In every block of type `t` below `e` (itself included) whose `key` holds
/// the integer `old`, `key` set to `new`.
pub open spec fn nested(e: EntityModel, t: Seq<char>, key: Seq<char>, old: i32, new: i32) -> EntityModel
    decreases e,
{
    let hit = e.block_type == t && match prop_get(e.properties, key) {
        Some(v) => parse_i32_spec(v) == Some(old),
        None => false,
    };
    let here = if hit {
        with_prop(e, key, int_text(new as int))
    } else {
        e
    };
    EntityModel {
        children: Seq::new(
            e.children.len(),
            |i: int|
                if 0 <= i < e.children.len() {
                    nested(e.children[i], t, key, old, new)
                } else {
                    arbitrary()
                },
        ),
        ..here
    }
}

/// What a `UnitPatch` holds.
pub struct PatchSpec {
    pub flights: Seq<Seq<i32>>,
    pub deaths: Seq<i32>,
    pub spawns: Seq<i32>,
    pub old_death: i32,
    pub old_spawn: i32,
}

pub open spec fn patch_view(p: UnitPatch) -> PatchSpec {
    PatchSpec {
        flights: p.flights@.map_values(|f: Vec<i32>| f@),
        deaths: p.deaths@,
        spawns: p.spawns@,
        old_death: p.old_death,
        old_spawn: p.old_spawn,
    }
}

/// A unit entity of the flight `ids`: its death events fire the flight's
/// DeathCount `d`, its report fires the flight's spawner `s`.
pub open spec fn patch_one(c: EntityModel, ids: Seq<i32>, d: i32, s: i32, od: i32, os: i32) -> EntityModel {
    if c.block_type == "MCU_TR_Entity"@ && c.index is Some && ids.contains(c.index->0) {
        nested(nested(c, "OnEvent"@, "TarId"@, od, d), "OnReport"@, "CmdId"@, os, s)
    } else {
        c
    }
}

/// `cs` patched for flights `..f`, one flight after another.
pub open spec fn patch_all(cs: Seq<EntityModel>, p: PatchSpec, f: int) -> Seq<EntityModel>
    decreases f,
{
    if f <= 0 {
        cs
    } else {
        let prev = patch_all(cs, p, f - 1);
        Seq::new(
            prev.len(),
            |j: int| patch_one(prev[j], p.flights[f - 1], p.deaths[f - 1], p.spawns[f - 1], p.old_death, p.old_spawn),
        )
    }
}

// ---------------------------------------------------------------------------
// Edits of one block
// ---------------------------------------------------------------------------

/// An edit of one block.
pub enum EditOp {
    Name(String),
    Prop(String, String),
    NameProp(String, String, String),
    Targets(Vec<i32>),
    /// Drop the children named `Trigger Spawner`, `SpawnCount` or
    /// `DeathCount`, then append these.
    PruneExtend(Vec<Il2Entity>),
    /// Patch the unit entities among the children.
    Patch(UnitPatch),
}

/// What an `EditOp` does, in terms of models.
pub enum EditSpec {
    Name(Seq<char>),
    Prop(Seq<char>, Seq<char>),
    NameProp(Seq<char>, Seq<char>, Seq<char>),
    Targets(Seq<i32>),
    PruneExtend(Seq<EntityModel>),
    Patch(PatchSpec),
}

pub open spec fn op_view(op: EditOp) -> EditSpec {
    match op {
        EditOp::Name(n) => EditSpec::Name(n@),
        EditOp::Prop(k, v) => EditSpec::Prop(k@, v@),
        EditOp::NameProp(n, k, v) => EditSpec::NameProp(n@, k@, v@),
        EditOp::Targets(ids) => EditSpec::Targets(ids@),
        EditOp::PruneExtend(xs) => EditSpec::PruneExtend(views(xs@)),
        EditOp::Patch(p) => EditSpec::Patch(patch_view(p)),
    }
}

/// Children that stay in `Logic`: all but the prototype spawner and counters.
pub open spec fn pruned(cs: Seq<EntityModel>) -> Seq<EntityModel>
    decreases cs.len(),
{
    if cs.len() == 0 {
        seq![]
    } else {
        let n = name_of(cs.last());
        if n == Some("Trigger Spawner"@) || n == Some("SpawnCount"@) || n == Some("DeathCount"@) {
            pruned(cs.drop_last())
        } else {
            pruned(cs.drop_last()).push(cs.last())
        }
    }
}

pub open spec fn applied(e: EntityModel, op: EditSpec) -> EntityModel {
    match op {
        EditSpec::Name(n) => named(e, n),
        EditSpec::Prop(k, v) => with_prop(e, k, v),
        EditSpec::NameProp(n, k, v) => with_prop(named(e, n), k, v),
        EditSpec::Targets(ids) => with_targets(e, ids),
        EditSpec::PruneExtend(xs) => EntityModel { children: pruned(e.children) + xs, ..e },
        EditSpec::Patch(p) => EntityModel { children: patch_all(e.children, p, p.flights.len() as int), ..e },
    }
}

/// `e` with its first block (pre-order) named `name` edited by `op`.
pub open spec fn edit_named(e: EntityModel, name: Seq<char>, op: EditSpec) -> EntityModel
    decreases e,
{
    if name_of(e) == Some(name) {
        applied(e, op)
    } else {
        EntityModel { children: edit_in(e.children, name, op), ..e }
    }
}

pub open spec fn edit_in(cs: Seq<EntityModel>, name: Seq<char>, op: EditSpec) -> Seq<EntityModel>
    decreases cs,
{
    if cs.len() == 0 {
        cs
    } else if find_named(cs[0], name) is Some {
        seq![edit_named(cs[0], name, op)] + cs.drop_first()
    } else {
        seq![cs[0]] + edit_in(cs.drop_first(), name, op)
    }
}

fn replace_nested(e: &mut Il2Entity, t: &str, key: &str, old_id: i32, new_id: i32)
    ensures
        final(e)@ == nested(old(e)@, t@, key@, old_id, new_id),
    decreases *old(e),
{
    let ghost orig = *e;
    let hit = str_eq(e.block_type.as_str(), t) && match e.property(key) {
        Some(v) => crate::text::parse_i32(v) == Some(old_id),
        None => false,
    };
    if hit {
        let txt = crate::text::int_to_string(new_id as i64);
        e.set_property(key, txt.as_str());
    }
    let ghost own = e@;
    proof {
        lemma_children_model(orig);
    }
    let mut i: usize = 0;
    while i < e.children.len()
        invariant
            orig == *old(e),
            e.children@.len() == orig.children@.len(),
            i <= e.children@.len(),
            forall|j: int| i <= j < e.children@.len() ==> #[trigger] e.children@[j] == orig.children@[j],
            forall|j: int| 0 <= j < i ==> #[trigger] e.children@[j]@ == nested(orig.children@[j]@, t@, key@, old_id, new_id),
            e.block_type@ == own.block_type,
            e.index == own.index,
            e.targets@ == own.targets,
            e.objects@ == own.objects,
            e@.properties == own.properties,
        decreases e.children@.len() - i,
    {
        proof {
            assert(decreases_to!(orig => orig.children));
            assert(decreases_to!(orig.children => orig.children@));
            assert(decreases_to!(orig.children@ => orig.children@[i as int]));
        }
        replace_nested(&mut e.children[i], t, key, old_id, new_id);
        i = i + 1;
    }
    proof {
        lemma_children_model(*e);
        assert(e@.children =~= nested(orig@, t@, key@, old_id, new_id).children);
        assert(e@ =~= nested(orig@, t@, key@, old_id, new_id));
    }
}

fn vec_has(v: &Vec<i32>, x: i32) -> (r: bool)
    ensures
        r == v@.contains(x),
{
    let mut i: usize = 0;
    while i < v.len()
        invariant
            i <= v@.len(),
            forall|j: int| 0 <= j < i ==> v@[j] != x,
        decreases v@.len() - i,
    {
        if v[i] == x {
            assert(v@[i as int] == x);
            return true;
        }
        i = i + 1;
    }
    false
}

fn patch_children(cs: &mut Vec<Il2Entity>, p: &UnitPatch)
    requires
        p.deaths@.len() == p.flights@.len(),
        p.spawns@.len() == p.flights@.len(),
    ensures
        views(final(cs)@) == patch_all(views(old(cs)@), patch_view(*p), p.flights@.len() as int),
{
    let mut f: usize = 0;
    while f < p.flights.len()
        invariant
            f <= p.flights@.len(),
            p.deaths@.len() == p.flights@.len(),
            p.spawns@.len() == p.flights@.len(),
            views(cs@) == patch_all(views(old(cs)@), patch_view(*p), f as int),
        decreases p.flights@.len() - f,
    {
        let ghost prev = views(cs@);
        let mut j: usize = 0;
        while j < cs.len()
            invariant
                f < p.flights@.len(),
                p.deaths@.len() == p.flights@.len(),
                p.spawns@.len() == p.flights@.len(),
                j <= cs@.len(),
                cs@.len() == prev.len(),
                forall|q: int| j <= q < cs@.len() ==> #[trigger] cs@[q]@ == prev[q],
                forall|q: int|
                    0 <= q < j ==> #[trigger] cs@[q]@ == patch_one(
                        prev[q],
                        p.flights@[f as int]@,
                        p.deaths@[f as int],
                        p.spawns@[f as int],
                        p.old_death,
                        p.old_spawn,
                    ),
            decreases cs@.len() - j,
        {
            let ghost before = cs@;
            let hit = str_eq(cs[j].block_type.as_str(), "MCU_TR_Entity") && match cs[j].index {
                Some(id) => vec_has(&p.flights[f], id),
                None => false,
            };
            if hit {
                replace_nested(&mut cs[j], "OnEvent", "TarId", p.old_death, p.deaths[f]);
                replace_nested(&mut cs[j], "OnReport", "CmdId", p.old_spawn, p.spawns[f]);
            }
            proof {
                assert forall|q: int| j < q < cs@.len() implies #[trigger] cs@[q]@ == prev[q] by {
                    assert(cs@[q] == before[q]);
                }
                assert forall|q: int| 0 <= q < j implies #[trigger] cs@[q]@ == patch_one(
                    prev[q],
                    p.flights@[f as int]@,
                    p.deaths@[f as int],
                    p.spawns@[f as int],
                    p.old_death,
                    p.old_spawn,
                ) by {
                    assert(cs@[q] == before[q]);
                }
            }
            j = j + 1;
        }
        proof {
            assert(patch_view(*p).flights[f as int] == p.flights@[f as int]@);
            assert(views(cs@) =~= patch_all(views(old(cs)@), patch_view(*p), f + 1));
        }
        f = f + 1;
    }
}

fn is_pruned_name(e: &Il2Entity) -> (r: bool)
    ensures
        r == (name_of(e@) == Some("Trigger Spawner"@) || name_of(e@) == Some("SpawnCount"@) || name_of(e@) == Some(
            "DeathCount"@,
        )),
{
    match e.name() {
        Some(n) => str_eq(n, "Trigger Spawner") || str_eq(n, "SpawnCount") || str_eq(n, "DeathCount"),
        None => false,
    }
}

/// Apply `op` to `e` itself.
fn apply_op(e: &mut Il2Entity, op: EditOp)
    requires
        op matches EditOp::Patch(p) ==> p.deaths@.len() == p.flights@.len() && p.spawns@.len() == p.flights@.len(),
    ensures
        final(e)@ == applied(old(e)@, op_view(op)),
{
    let ghost o = op;
    match op {
        EditOp::Name(n) => e.set_name(n.as_str()),
        EditOp::Prop(k, v) => e.set_property(k.as_str(), v.as_str()),
        EditOp::NameProp(n, k, v) => {
            e.set_name(n.as_str());
            e.set_property(k.as_str(), v.as_str());
        },
        EditOp::Targets(ids) => e.set_targets(ids),
        EditOp::PruneExtend(xs) => {
            let ghost orig = *e;
            proof {
                lemma_children_model(orig);
            }
            let mut kept: Vec<Il2Entity> = Vec::new();
            let mut rest: Vec<Il2Entity> = Vec::new();
            std::mem::swap(&mut rest, &mut e.children);
            let ghost ok = views(rest@);
            let n0 = rest.len();
            proof {
                assert(ok =~= orig@.children);
                assert(ok.take(0) =~= Seq::<EntityModel>::empty());
                assert(ok.skip(0) =~= ok);
                assert(ok.len() == rest@.len());
            }
            let mut i: usize = 0;
            while rest.len() > 0
                invariant
                    i + rest@.len() == ok.len(),
                    ok.len() <= usize::MAX,
                    views(rest@) == ok.skip(i as int),
                    views(kept@) == pruned(ok.take(i as int)),
                decreases rest@.len(),
            {
                let ghost rb = rest@;
                let c = rest.remove(0);
                proof {
                    assert(ok.take(i + 1).drop_last() =~= ok.take(i as int));
                    assert(views(rb)[0] == c@);
                    assert(ok.take(i + 1).last() == c@);
                    assert(views(rest@) =~= views(rb).drop_first());
                    assert(ok.skip(i as int).drop_first() =~= ok.skip(i + 1));
                }
                let ghost kb = kept@;
                if !is_pruned_name(&c) {
                    kept.push(c);
                    proof {
                        assert(views(kept@) =~= views(kb).push(c@));
                    }
                }
                i = i + 1;
            }
            proof {
                assert(ok.take(i as int) =~= ok);
            }
            let ghost kv = views(kept@);
            let mut xs = xs;
            let ghost xv = views(xs@);
            kept.append(&mut xs);
            e.children = kept;
            proof {
                lemma_children_model(*e);
                assert(e@.children =~= kv + xv);
            }
        },
        EditOp::Patch(p) => {
            let ghost orig = *e;
            proof {
                lemma_children_model(orig);
            }
            patch_children(&mut e.children, &p);
            proof {
                lemma_children_model(*e);
                assert(views(orig.children@) =~= orig@.children);
                assert(e@.children =~= views(e.children@));
            }
        },
    }
}

proof fn lemma_edit_in_skip(cs: Seq<EntityModel>, name: Seq<char>, op: EditSpec, i: int)
    requires
        0 <= i <= cs.len(),
        forall|j: int| 0 <= j < i ==> find_named(#[trigger] cs[j], name) is None,
    ensures
        edit_in(cs, name, op) == cs.take(i) + edit_in(cs.skip(i), name, op),
    decreases i,
{
    if i == 0 {
        assert(cs.skip(0) =~= cs);
        assert(cs.take(0) + edit_in(cs, name, op) =~= edit_in(cs, name, op));
    } else {
        let r = cs.drop_first();
        assert forall|j: int| 0 <= j < i - 1 implies find_named(#[trigger] r[j], name) is None by {
            assert(r[j] == cs[j + 1]);
        }
        lemma_edit_in_skip(r, name, op, i - 1);
        assert(r.skip(i - 1) =~= cs.skip(i));
        assert(cs.take(i) =~= seq![cs[0]] + r.take(i - 1));
    }
}

pub open spec fn op_ok(op: EditOp) -> bool {
    op matches EditOp::Patch(p) ==> p.deaths@.len() == p.flights@.len() && p.spawns@.len() == p.flights@.len()
}

/// Edit the first block (pre-order) of `e` named `name`; nothing when there
/// is none.
pub fn edit_first(e: &mut Il2Entity, name: &str, op: EditOp)
    requires
        op_ok(op),
    ensures
        final(e)@ == edit_named(old(e)@, name@, op_view(op)),
    decreases *old(e),
{
    let ghost orig = *e;
    let ghost o = op;
    proof {
        lemma_children_model(orig);
    }
    if e.has_name(name) {
        apply_op(e, op);
        return;
    }
    let mut i: usize = 0;
    while i < e.children.len()
        invariant
            *e == orig,
            orig == *old(e),
            o == op,
            op_ok(op),
            i <= e.children@.len(),
            name_of(orig@) != Some(name@),
            forall|j: int| 0 <= j < i ==> find_named(#[trigger] orig@.children[j], name@) is None,
        decreases e.children@.len() - i,
    {
        assert(orig@.children[i as int] == e.children@[i as int]@);
        if e.children[i].find_by_name(name).is_some() {
            proof {
                assert(decreases_to!(orig => orig.children));
                assert(decreases_to!(orig.children => orig.children@));
                assert(decreases_to!(orig.children@ => orig.children@[i as int]));
                lemma_edit_in_skip(orig@.children, name@, op_view(op), i as int);
                let sk = orig@.children.skip(i as int);
                assert(sk[0] == orig@.children[i as int]);
                assert(sk.drop_first() =~= orig@.children.skip(i + 1));
            }
            let ghost before = e.children@;
            let ghost ci = e.children@[i as int]@;
            edit_first(&mut e.children[i], name, op);
            proof {
                lemma_children_model(*e);
                assert(e.children@ == before.update(i as int, e.children@[i as int]));
                assert(e.children@[i as int]@ == edit_named(ci, name@, op_view(o)));
                assert forall|j: int| 0 <= j < before.len() && j != i implies #[trigger] e.children@[j]@ == orig@.children[j] by {
                    assert(e.children@[j] == before[j]);
                }
                assert(e@.children =~= orig@.children.update(i as int, edit_named(orig@.children[i as int], name@, op_view(o))));
                assert(e@.children =~= edit_in(orig@.children, name@, op_view(o)));
            }
            return;
        }
        i = i + 1;
    }
    proof {
        lemma_edit_in_skip(orig@.children, name@, op_view(op), i as int);
        assert(orig@.children.skip(i as int) =~= Seq::<EntityModel>::empty());
        assert(orig@.children.take(i as int) =~= orig@.children);
        assert(e@ =~= edit_named(orig@, name@, op_view(op)));
    }
}

// ---------------------------------------------------------------------------
// Cover commands
// ---------------------------------------------------------------------------

/// `e` with its Cover commands, pre-order, named `Cover Wing k+1`,
/// `Cover Wing k+2`, …; and the last number given.
pub open spec fn covered(e: EntityModel, k: int) -> (EntityModel, int)
    decreases e,
{
    let is_cover = e.block_type == "MCU_CMD_Cover"@;
    let here = if is_cover {
        named(e, "Cover Wing "@ + dec_text((k + 1) as nat))
    } else {
        e
    };
    let k1 = if is_cover { k + 1 } else { k };
    let r = covered_list(e.children, k1);
    (EntityModel { children: r.0, ..here }, r.1)
}

pub open spec fn covered_list(cs: Seq<EntityModel>, k: int) -> (Seq<EntityModel>, int)
    decreases cs,
{
    if cs.len() == 0 {
        (seq![], k)
    } else {
        let a = covered(cs[0], k);
        let b = covered_list(cs.drop_first(), a.1);
        (seq![a.0] + b.0, b.1)
    }
}

proof fn lemma_covered_grows(e: EntityModel, k: int)
    ensures
        covered(e, k).1 >= k,
    decreases e,
{
    lemma_covered_list_grows(e.children, if e.block_type == "MCU_CMD_Cover"@ { k + 1 } else { k });
}

proof fn lemma_covered_list_grows(cs: Seq<EntityModel>, k: int)
    ensures
        covered_list(cs, k).1 >= k,
    decreases cs,
{
    if cs.len() > 0 {
        lemma_covered_grows(cs[0], k);
        lemma_covered_list_grows(cs.drop_first(), covered(cs[0], k).1);
    }
}

proof fn lemma_covered_list_skip(cs: Seq<EntityModel>, k: int, i: int)
    requires
        0 <= i < cs.len(),
    ensures
        covered_list(cs.skip(i), k) == ({
            let a = covered(cs[i], k);
            let b = covered_list(cs.skip(i + 1), a.1);
            (seq![a.0] + b.0, b.1)
        }),
{
    assert(cs.skip(i)[0] == cs[i]);
    assert(cs.skip(i).drop_first() =~= cs.skip(i + 1));
}

/// Number the Cover commands of `e` from `*n + 1` on.
pub(crate) fn rename_covers(e: &mut Il2Entity, n: &mut usize)
    requires
        covered(old(e)@, *old(n) as int).1 <= usize::MAX,
    ensures
        final(e)@ == covered(old(e)@, *old(n) as int).0,
        *final(n) as int == covered(old(e)@, *old(n) as int).1,
    decreases *old(e),
{
    let ghost orig = *e;
    let ghost k0 = *n as int;
    proof {
        lemma_children_model(orig);
        lemma_covered_list_grows(orig@.children, if orig@.block_type == "MCU_CMD_Cover"@ { k0 + 1 } else { k0 });
    }
    if str_eq(e.block_type.as_str(), "MCU_CMD_Cover") {
        *n = *n + 1;
        let mut t = owned("Cover Wing ");
        push_dec(&mut t, *n as u64);
        e.set_name(t.as_str());
    }
    let ghost own = e@;
    let ghost k1 = *n as int;
    let ghost cs = orig@.children;
    let ghost fin = covered_list(cs, k1);
    proof {
        assert(cs.skip(0) =~= cs);
        assert(covered_list(cs, k1).0 =~= Seq::<EntityModel>::empty() + covered_list(cs.skip(0), k1).0);
    }
    let ghost mut done: Seq<EntityModel> = Seq::empty();
    let mut i: usize = 0;
    while i < e.children.len()
        invariant
            orig == *old(e),
            cs == orig@.children,
            e.children@.len() == cs.len(),
            i <= cs.len(),
            forall|j: int| i <= j < e.children@.len() ==> #[trigger] e.children@[j] == orig.children@[j],
            forall|j: int| 0 <= j < i ==> #[trigger] e.children@[j]@ == done[j],
            done.len() == i,
            fin == covered_list(cs, k1),
            fin.0 == done + covered_list(cs.skip(i as int), *n as int).0,
            fin.1 == covered_list(cs.skip(i as int), *n as int).1,
            fin.1 <= usize::MAX,
            e.block_type@ == own.block_type,
            e.index == own.index,
            e.targets@ == own.targets,
            e.objects@ == own.objects,
            e@.properties == own.properties,
        decreases e.children@.len() - i,
    {
        proof {
            assert(decreases_to!(orig => orig.children));
            assert(decreases_to!(orig.children => orig.children@));
            assert(decreases_to!(orig.children@ => orig.children@[i as int]));
            lemma_covered_list_skip(cs, *n as int, i as int);
            assert(cs[i as int] == orig.children@[i as int]@);
            lemma_covered_list_grows(cs.skip(i + 1), covered(cs[i as int], *n as int).1);
        }
        let ghost a = covered(cs[i as int], *n as int);
        rename_covers(&mut e.children[i], n);
        proof {
            assert(fin.0 == (done + seq![a.0]) + covered_list(cs.skip(i + 1), *n as int).0);
            done = done.push(a.0);
        }
        i = i + 1;
    }
    proof {
        assert(cs.skip(i as int) =~= Seq::<EntityModel>::empty());
        lemma_children_model(*e);
        assert(e@.children =~= done);
        assert(fin.0 =~= done);
        assert(e@ =~= covered(orig@, k0).0);
    }
}

// ---------------------------------------------------------------------------
// The planes and their flights
// ---------------------------------------------------------------------------

/// Indexes of the `MCU_TR_Entity` blocks among `cs`.
pub open spec fn entity_ids_in(cs: Seq<EntityModel>) -> Seq<i32>
    decreases cs.len(),
{
    if cs.len() == 0 {
        seq![]
    } else {
        let a = entity_ids_in(cs.drop_last());
        if cs.last().block_type == "MCU_TR_Entity"@ && cs.last().index is Some {
            a.push(cs.last().index->0)
        } else {
            a
        }
    }
}

/// The plane entities of Group 1: the `MCU_TR_Entity` children of its
/// `Units` block.
pub open spec fn unit_ids(g: EntityModel) -> Seq<i32> {
    match find_named(g, "Units"@) {
        Some(u) => entity_ids_in(u.children),
        None => seq![],
    }
}

pub fn unit_entity_ids(group: &Il2Entity) -> (r: Vec<i32>)
    ensures
        r@ == unit_ids(group@),
{
    let mut out: Vec<i32> = Vec::new();
    match group.find_by_name("Units") {
        None => {},
        Some(u) => {
            proof {
                lemma_children_model(*u);
            }
            let mut i: usize = 0;
            while i < u.children.len()
                invariant
                    i <= u.children@.len(),
                    u@.children.len() == u.children@.len(),
                    forall|j: int| 0 <= j < u.children@.len() ==> #[trigger] u@.children[j] == u.children@[j]@,
                    out@ == entity_ids_in(u@.children.take(i as int)),
                decreases u.children@.len() - i,
            {
                proof {
                    assert(u@.children.take(i + 1).drop_last() =~= u@.children.take(i as int));
                    assert(u@.children.take(i + 1).last() == u.children@[i as int]@);
                }
                if str_eq(u.children[i].block_type.as_str(), "MCU_TR_Entity") {
                    match u.children[i].index {
                        Some(id) => out.push(id),
                        None => {},
                    }
                }
                i = i + 1;
            }
            proof {
                assert(u@.children.take(i as int) =~= u@.children);
            }
        },
    }
    out
}

/// Seats in flights before `f`.
pub open spec fn seats_before(sizes: Seq<usize>, f: int) -> int
    decreases f,
{
    if f <= 0 || f > sizes.len() {
        0
    } else {
        seats_before(sizes, f - 1) + sizes[f - 1]
    }
}

/// A flight's entities, its lead planes (even seats) and wingmen (odd).
pub struct BuiltFlight {
    pub entity_ids: Vec<i32>,
    pub leads: Vec<i32>,
    pub wings: Vec<i32>,
}

pub open spec fn flight_slice(eids: Seq<i32>, sizes: Seq<usize>, f: int) -> Seq<i32> {
    eids.subrange(seats_before(sizes, f), seats_before(sizes, f) + sizes[f])
}

pub open spec fn evens(s: Seq<i32>) -> Seq<i32> {
    Seq::new(((s.len() + 1) / 2) as nat, |i: int| s[2 * i])
}

pub open spec fn odds(s: Seq<i32>) -> Seq<i32> {
    Seq::new((s.len() / 2) as nat, |i: int| s[2 * i + 1])
}

/// Why the planes cannot be split into flights of `sizes`, if they cannot.
pub open spec fn split_error(eids: Seq<i32>, sizes: Seq<usize>) -> Option<Seq<char>> {
    if eids.len() != seats_before(sizes, sizes.len() as int) {
        Some("template placed "@ + dec_text(eids.len()) + " units, expected "@ + dec_text(
            seats_before(sizes, sizes.len() as int) as nat,
        ))
    } else {
        None
    }
}

proof fn lemma_seats_before_mono(sizes: Seq<usize>, a: int, b: int)
    requires
        0 <= a <= b <= sizes.len(),
    ensures
        0 <= seats_before(sizes, a) <= seats_before(sizes, b),
    decreases b,
{
    if b > a {
        lemma_seats_before_mono(sizes, a, b - 1);
    } else if a > 0 {
        lemma_seats_before_mono(sizes, 0, a - 1);
    }
}

/// Split the planes `entity_ids` into flights of `sizes` seats, in order.
pub fn split_flights(entity_ids: &[i32], sizes: &[usize]) -> (r: Result<Vec<BuiltFlight>, String>)
    requires
        seats_before(sizes@, sizes@.len() as int) <= usize::MAX,
    ensures
        match split_error(entity_ids@, sizes@) {
            Some(m) => r matches Err(x) && x@ == m,
            None => r matches Ok(fs) && fs@.len() == sizes@.len() && forall|f: int|
                0 <= f < sizes@.len() ==> {
                    &&& (#[trigger] fs@[f]).entity_ids@ == flight_slice(entity_ids@, sizes@, f)
                    &&& fs@[f].leads@ == evens(flight_slice(entity_ids@, sizes@, f))
                    &&& fs@[f].wings@ == odds(flight_slice(entity_ids@, sizes@, f))
                },
        },
{
    let mut need: usize = 0;
    let mut f: usize = 0;
    while f < sizes.len()
        invariant
            f <= sizes@.len(),
            need as int == seats_before(sizes@, f as int),
            seats_before(sizes@, sizes@.len() as int) <= usize::MAX,
        decreases sizes@.len() - f,
    {
        proof {
            lemma_seats_before_mono(sizes@, f + 1, sizes@.len() as int);
        }
        need = need + sizes[f];
        f = f + 1;
    }
    if entity_ids.len() != need {
        let mut m = owned("template placed ");
        push_dec(&mut m, entity_ids.len() as u64);
        push_str(&mut m, " units, expected ");
        push_dec(&mut m, need as u64);
        return Err(m);
    }
    let mut out: Vec<BuiltFlight> = Vec::new();
    let total = entity_ids.len();
    let mut i: usize = 0;
    let mut g: usize = 0;
    while g < sizes.len()
        invariant
            g <= sizes@.len(),
            i as int == seats_before(sizes@, g as int),
            entity_ids@.len() == seats_before(sizes@, sizes@.len() as int),
            entity_ids@.len() == total,
            out@.len() == g,
            forall|q: int|
                0 <= q < g ==> {
                    &&& (#[trigger] out@[q]).entity_ids@ == flight_slice(entity_ids@, sizes@, q)
                    &&& out@[q].leads@ == evens(flight_slice(entity_ids@, sizes@, q))
                    &&& out@[q].wings@ == odds(flight_slice(entity_ids@, sizes@, q))
                },
        decreases sizes@.len() - g,
    {
        proof {
            lemma_seats_before_mono(sizes@, g + 1, sizes@.len() as int);
        }
        let size = sizes[g];
        assert(seats_before(sizes@, g + 1) == seats_before(sizes@, g as int) + sizes@[g as int]);
        assert(i + size <= entity_ids@.len());
        let ghost sl = flight_slice(entity_ids@, sizes@, g as int);
        let mut ids: Vec<i32> = Vec::new();
        let mut leads: Vec<i32> = Vec::new();
        let mut wings: Vec<i32> = Vec::new();
        let mut seat: usize = 0;
        while seat < size
            invariant
                seat <= size,
                size == sizes@[g as int],
                g < sizes@.len(),
                i as int == seats_before(sizes@, g as int),
                i + size <= total,
                entity_ids@.len() == total,
                sl == flight_slice(entity_ids@, sizes@, g as int),
                ids@ == sl.take(seat as int),
                leads@ == evens(sl.take(seat as int)),
                wings@ == odds(sl.take(seat as int)),
            decreases size - seat,
        {
            let id = entity_ids[i + seat];
            proof {
                assert(sl[seat as int] == id);
                assert(sl.take(seat + 1) =~= sl.take(seat as int).push(id));
            }
            ids.push(id);
            if seat % 2 == 0 {
                leads.push(id);
                proof {
                    assert(leads@ =~= evens(sl.take(seat + 1)));
                    assert(wings@ =~= odds(sl.take(seat + 1)));
                }
            } else {
                wings.push(id);
                proof {
                    assert(leads@ =~= evens(sl.take(seat + 1)));
                    assert(wings@ =~= odds(sl.take(seat + 1)));
                }
            }
            seat = seat + 1;
        }
        proof {
            assert(sl.take(size as int) =~= sl);
        }
        out.push(BuiltFlight { entity_ids: ids, leads, wings });
        i = i + size;
        g = g + 1;
    }
    Ok(out)
}

} // verus!
