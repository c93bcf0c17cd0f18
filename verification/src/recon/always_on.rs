//! Turning a placed Random Ground Units pack back into always-on units: the
//! randomizer goes, and each copy's Mission Begin fires the start MCU chosen
//! for its unit type.

use vstd::prelude::*;
use crate::ast::{EntityModel, Il2Entity, lemma_children_model, max_index_of, name_of, nodes};
use crate::bombers::link::{named, synthesized, with_prop, with_targets};
use crate::bombers::{joined, name_or};

use crate::recon::placed::{
    copy_type, group_count, is_placed_copy, last_group, looks_like_pack_here, looks_placed, placed_copy, placed_root_of, removed_count, strip_randomizer, type_of_copy, without_randomizers,
};
use crate::text::{dec_text, owned, push_dec, push_str, str_eq};
use crate::bombers::join_strings;

verus! {

// ---------------------------------------------------------------------------
// One copy
// ---------------------------------------------------------------------------

/// The start MCU chosen for unit type `ty`: the first pair that names it.
pub open spec fn start_for(starts: Seq<(Seq<char>, Seq<char>)>, ty: Seq<char>) -> Option<Seq<char>>
    decreases starts.len(),
{
    if starts.len() == 0 {
        None
    } else if starts[0].0 == ty {
        Some(starts[0].1)
    } else {
        start_for(starts.drop_first(), ty)
    }
}

/// Index of the first block of `ns` named `name` that has one.
pub open spec fn start_index(ns: Seq<EntityModel>, name: Seq<char>) -> Option<i32>
    decreases ns.len(),
{
    if ns.len() == 0 {
        None
    } else if name_of(ns[0]) == Some(name) && ns[0].index is Some {
        ns[0].index
    } else {
        start_index(ns.drop_first(), name)
    }
}

/// Number of Mission Begin blocks in `ns`.
pub open spec fn begin_count(ns: Seq<EntityModel>) -> int
    decreases ns.len(),
{
    if ns.len() == 0 {
        0
    } else {
        begin_count(ns.drop_last()) + if ns.last().block_type == "MCU_TR_MissionBegin"@ {
            1int
        } else {
            0int
        }
    }
}

/// Every Mission Begin of `e` enabled and firing `id` alone.
pub open spec fn aimed_begins(e: EntityModel, id: i32) -> EntityModel
    decreases e,
{
    let here = if e.block_type == "MCU_TR_MissionBegin"@ {
        with_targets(with_prop(e, "Enabled"@, "1"@), seq![id])
    } else {
        e
    };
    EntityModel {
        children: Seq::new(
            e.children.len(),
            |i: int|
                if 0 <= i < e.children.len() {
                    aimed_begins(e.children[i], id)
                } else {
                    arbitrary()
                },
        ),
        ..here
    }
}

/// A fresh enabled Mission Begin with Index `at` firing `id`.
pub open spec fn new_begin(at: int, id: i32) -> EntityModel {
    with_targets(with_prop(synthesized("MCU_TR_MissionBegin"@, at, "Translator Mission Begin"@), "Enabled"@, "1"@), seq![id])
}

/// A copy whose start MCU is `id`: its Mission Begins aimed at it, or a new
/// Mission Begin (Index `next`) added when it has none. Returns the copy and
/// the next free Index.
pub open spec fn started(c: EntityModel, id: i32, next: int) -> (EntityModel, int) {
    if begin_count(nodes(c)) > 0 {
        (aimed_begins(c, id), next)
    } else {
        (EntityModel { children: c.children.push(new_begin(next, id)), ..c }, next + 1)
    }
}

pub open spec fn quoted_name(n: Seq<char>) -> Seq<char> {
    seq!['"'] + n + seq!['"']
}

/// Restoring one copy from `next`: the copy, the next free Index, and why it
/// failed, if it did.
pub open spec fn restore_copy(c: EntityModel, starts: Seq<(Seq<char>, Seq<char>)>, next: int) -> (EntityModel, int, Option<Seq<char>>) {
    let ty = type_of_copy(c);
    match start_for(starts, ty) {
        None => (c, next, Some(ty + " has no start MCU selected"@)),
        Some(sn) => match start_index(nodes(c), sn) {
            None => (c, next, Some(name_or(c, "copy"@) + " has no MCU named "@ + quoted_name(sn))),
            Some(id) => (started(c, id, next).0, started(c, id, next).1, None),
        },
    }
}

pub open spec fn starts_view(s: Seq<(String, String)>) -> Seq<(Seq<char>, Seq<char>)> {
    Seq::new(s.len(), |i: int| (s[i].0@, s[i].1@))
}

fn find_start<'a>(starts: &'a [(String, String)], ty: &str) -> (r: Option<&'a str>)
    ensures
        match start_for(starts_view(starts@), ty@) {
            Some(s) => r matches Some(x) && x@ == s,
            None => r is None,
        },
{
    let ghost sv = starts_view(starts@);
    let mut i: usize = 0;
    proof {
        assert(sv.skip(0) =~= sv);
    }
    while i < starts.len()
        invariant
            i <= starts@.len(),
            sv == starts_view(starts@),
            start_for(sv, ty@) == start_for(sv.skip(i as int), ty@),
        decreases starts@.len() - i,
    {
        proof {
            assert(sv.skip(i as int)[0] == sv[i as int]);
            assert(sv.skip(i as int).drop_first() =~= sv.skip(i + 1));
        }
        if str_eq(starts[i].0.as_str(), ty) {
            return Some(starts[i].1.as_str());
        }
        i = i + 1;
    }
    proof {
        assert(sv.skip(i as int) =~= Seq::<(Seq<char>, Seq<char>)>::empty());
    }
    None
}

fn find_start_index(ns: &Vec<&Il2Entity>, name: &str, Ghost(m): Ghost<Seq<EntityModel>>) -> (r: Option<i32>)
    requires
        ns@.len() == m.len(),
        forall|p: int| 0 <= p < ns@.len() ==> #[trigger] ns@[p]@ == m[p],
    ensures
        r == start_index(m, name@),
{
    let mut i: usize = 0;
    proof {
        assert(m.skip(0) =~= m);
    }
    while i < ns.len()
        invariant
            i <= ns@.len(),
            ns@.len() == m.len(),
            forall|p: int| 0 <= p < ns@.len() ==> #[trigger] ns@[p]@ == m[p],
            start_index(m, name@) == start_index(m.skip(i as int), name@),
        decreases ns@.len() - i,
    {
        let e = ns[i];
        proof {
            assert(m.skip(i as int)[0] == e@);
            assert(m.skip(i as int).drop_first() =~= m.skip(i + 1));
        }
        let hit = match e.name() {
            Some(n) => str_eq(n, name),
            None => false,
        };
        if hit && e.index.is_some() {
            return e.index;
        }
        i = i + 1;
    }
    proof {
        assert(m.skip(i as int) =~= Seq::<EntityModel>::empty());
    }
    None
}

fn count_begins(ns: &Vec<&Il2Entity>, Ghost(m): Ghost<Seq<EntityModel>>) -> (r: usize)
    requires
        ns@.len() == m.len(),
        forall|p: int| 0 <= p < ns@.len() ==> #[trigger] ns@[p]@ == m[p],
    ensures
        r as int == begin_count(m),
{
    let mut n: usize = 0;
    let mut i: usize = 0;
    while i < ns.len()
        invariant
            i <= ns@.len(),
            ns@.len() == m.len(),
            forall|p: int| 0 <= p < ns@.len() ==> #[trigger] ns@[p]@ == m[p],
            n as int == begin_count(m.take(i as int)),
            n <= i,
        decreases ns@.len() - i,
    {
        proof {
            assert(m.take(i + 1).drop_last() =~= m.take(i as int));
            assert(m.take(i + 1).last() == ns@[i as int]@);
        }
        if str_eq(ns[i].block_type.as_str(), "MCU_TR_MissionBegin") {
            n = n + 1;
        }
        i = i + 1;
    }
    proof {
        assert(m.take(i as int) =~= m);
    }
    n
}

fn aim_begins(e: &Il2Entity, id: i32) -> (r: Il2Entity)
    ensures
        r@ == aimed_begins(e@, id),
    decreases e,
{
    let mut n = e.deep_copy();
    let mut kids: Vec<Il2Entity> = Vec::new();
    proof {
        lemma_children_model(*e);
    }
    let mut i: usize = 0;
    while i < e.children.len()
        invariant
            i <= e.children@.len(),
            kids@.len() == i,
            forall|j: int| 0 <= j < i ==> #[trigger] kids@[j]@ == aimed_begins(e.children@[j]@, id),
        decreases e.children@.len() - i,
    {
        proof {
            assert(decreases_to!(*e => e.children));
            assert(decreases_to!(e.children => e.children@));
            assert(decreases_to!(e.children@ => e.children@[i as int]));
        }
        kids.push(aim_begins(&e.children[i], id));
        i = i + 1;
    }
    if str_eq(e.block_type.as_str(), "MCU_TR_MissionBegin") {
        n.set_property("Enabled", "1");
        let ids = vec![id];
        proof {
            assert(ids@ =~= seq![id]);
        }
        n.set_targets(ids);
    }
    n.children = kids;
    proof {
        lemma_children_model(n);
        assert(n@.children =~= aimed_begins(e@, id).children);
    }
    n
}

/// Point the copy's Mission Begins at the block named `start_name`, adding
/// one (Index `*next_id`) when the copy has none.
fn restore_copy_start(copy: &mut Il2Entity, start_name: &str, next_id: &mut i32) -> (r: Result<(), String>)
    requires
        start_index(nodes(old(copy)@), start_name@) is Some && begin_count(nodes(old(copy)@)) == 0 ==> *old(next_id) < i32::MAX,
    ensures
        match start_index(nodes(old(copy)@), start_name@) {
            None => r matches Err(e) && e@ == name_or(old(copy)@, "copy"@) + " has no MCU named "@ + quoted_name(start_name@)
                && *final(copy) == *old(copy) && *final(next_id) == *old(next_id),
            Some(id) => r is Ok && final(copy)@ == started(old(copy)@, id, *old(next_id) as int).0 && *final(next_id)
                == started(old(copy)@, id, *old(next_id) as int).1,
        },
{
    let ghost c0 = copy@;
    let ghost orig = *copy;
    let (found, begins) = {
        let ns = crate::bombers::all_nodes(copy);
        (find_start_index(&ns, start_name, Ghost(nodes(c0))), count_begins(&ns, Ghost(nodes(c0))))
    };
    match found {
        None => {
            let mut m = match copy.name() {
                Some(n) => owned(n),
                None => owned("copy"),
            };
            push_str(&mut m, " has no MCU named \"");
            push_str(&mut m, start_name);
            push_str(&mut m, "\"");
            proof {
                reveal_strlit(" has no MCU named \"");
                reveal_strlit(" has no MCU named ");
                reveal_strlit("\"");
                reveal_strlit("copy");
                assert(m@ =~= name_or(c0, "copy"@) + " has no MCU named "@ + quoted_name(start_name@));
            }
            Err(m)
        },
        Some(id) => {
            if begins > 0 {
                let aimed = aim_begins(copy, id);
                *copy = aimed;
            } else {
                let mut begin = crate::bombers::link::synthesize_mcu("MCU_TR_MissionBegin", next_id, "Translator Mission Begin");
                begin.set_property("Enabled", "1");
                let ids = vec![id];
                proof {
                    assert(ids@ =~= seq![id]);
                }
                begin.set_targets(ids);
                let ghost b = begin@;
                copy.children.push(begin);
                proof {
                    lemma_children_model(*copy);
                    lemma_children_model(orig);
                    assert(copy@.children =~= c0.children.push(b));
                    reveal_strlit("MCU_TR_MissionBegin");
                }
            }
            Ok(())
        },
    }
}

// ---------------------------------------------------------------------------
// The whole pack
// ---------------------------------------------------------------------------

/// Restoring the children `cs` in order from Index `next`: the new children,
/// the next free Index, how many copies were restored, and the failures.
pub open spec fn restore_list(cs: Seq<EntityModel>, starts: Seq<(Seq<char>, Seq<char>)>, next: int) -> (
    Seq<EntityModel>,
    int,
    int,
    Seq<Seq<char>>,
)
    decreases cs.len(),
{
    if cs.len() == 0 {
        (seq![], next, 0, seq![])
    } else {
        let r = restore_list(cs.drop_last(), starts, next);
        let c = cs.last();
        if is_placed_copy(c) {
            let one = restore_copy(c, starts, r.1);
            match one.2 {
                None => (r.0.push(one.0), one.1, r.2 + 1, r.3),
                Some(m) => (r.0.push(one.0), one.1, r.2, r.3.push(m)),
            }
        } else {
            (r.0.push(c), r.1, r.2, r.3)
        }
    }
}

/// The first Index free in `p`: one above its highest (saturating).
pub open spec fn next_free(p: EntityModel) -> int {
    if max_index_of(p) < i32::MAX {
        max_index_of(p) + 1
    } else {
        i32::MAX as int
    }
}

/// The pack `p` with its copies restored, renamed `Ground Units N` when
/// any was.
pub open spec fn restored_pack(p: EntityModel, starts: Seq<(Seq<char>, Seq<char>)>) -> EntityModel {
    let r = restore_list(p.children, starts, next_free(p));
    let q = EntityModel { children: r.0, ..p };
    if r.2 > 0 {
        named(q, "Ground Units "@ + dec_text(r.2 as nat))
    } else {
        q
    }
}

/// What restoring the pack `p` answers.
pub open spec fn restore_outcome(p: EntityModel, starts: Seq<(Seq<char>, Seq<char>)>) -> Result<int, Seq<char>> {
    let r = restore_list(p.children, starts, next_free(p));
    if r.2 == 0 {
        Err(
            if r.3.len() == 0 {
                "no unit groups to restore"@
            } else {
                joined(r.3, "; "@)
            },
        )
    } else if r.3.len() > 0 {
        Err("restored "@ + dec_text(r.2 as nat) + " copies, but some failed: "@ + joined(r.3, "; "@))
    } else {
        Ok(r.2)
    }
}

/// Restoring never runs past the largest Index.
pub open spec fn restore_fits(p: EntityModel, starts: Seq<(Seq<char>, Seq<char>)>) -> bool {
    restore_list(p.children, starts, next_free(p)).1 <= i32::MAX
}

/// `e` with the pack inside it (see `placed_root_of`) restored.
pub open spec fn restored_in(e: EntityModel, starts: Seq<(Seq<char>, Seq<char>)>) -> EntityModel
    decreases e,
{
    if looks_placed(e) {
        restored_pack(e, starts)
    } else if group_count(e.children) == 1 && 0 <= last_group(e.children) < e.children.len() {
        let k = last_group(e.children);
        EntityModel { children: e.children.update(k, restored_in(e.children[k], starts)), ..e }
    } else {
        restored_pack(e, starts)
    }
}

proof fn lemma_restore_next_grows(cs: Seq<EntityModel>, starts: Seq<(Seq<char>, Seq<char>)>, next: int, k: int)
    requires
        0 <= k <= cs.len(),
    ensures
        restore_list(cs.take(k), starts, next).1 <= restore_list(cs, starts, next).1,
        restore_list(cs, starts, next).0.len() == cs.len(),
        0 <= restore_list(cs, starts, next).2 <= cs.len(),
        next <= restore_list(cs, starts, next).1,
    decreases cs.len(),
{
    if cs.len() > 0 {
        lemma_restore_next_grows(cs.drop_last(), starts, next, if k == cs.len() { 0 } else { k });
        if k == cs.len() {
            assert(cs.take(k) =~= cs);
        } else {
            assert(cs.drop_last().take(k) =~= cs.take(k));
        }
    } else {
        assert(cs.take(k) =~= cs);
    }
}

fn restore_pack(pack: &mut Il2Entity, starts: &[(String, String)]) -> (r: Result<usize, String>)
    requires
        restore_fits(old(pack)@, starts_view(starts@)),
    ensures
        final(pack)@ == restored_pack(old(pack)@, starts_view(starts@)),
        match r {
            Ok(n) => restore_outcome(old(pack)@, starts_view(starts@)) == Ok::<int, Seq<char>>(n as int),
            Err(m) => restore_outcome(old(pack)@, starts_view(starts@)) == Err::<int, Seq<char>>(m@),
        },
{
    let ghost sv = starts_view(starts@);
    let ghost orig = *pack;
    let ghost om = orig@.children;
    let ghost next0 = next_free(orig@);
    proof {
        lemma_children_model(orig);
        lemma_restore_next_grows(om, sv, next0, 0);
        assert(om.take(0) =~= Seq::<EntityModel>::empty());
        assert(Seq::<String>::empty().map_values(|m: String| m@) =~= Seq::<Seq<char>>::empty());
    }
    let top = pack.max_index();
    let mut next_id: i32 = if top < i32::MAX {
        top + 1
    } else {
        i32::MAX
    };
    let mut n: usize = 0;
    let mut missing: Vec<String> = Vec::new();
    let mut i: usize = 0;
    while i < pack.children.len()
        invariant
            i <= om.len(),
            sv == starts_view(starts@),
            om == orig@.children,
            next0 == next_free(orig@),
            pack.children@.len() == om.len(),
            orig.children@.len() == om.len(),
            forall|k: int| 0 <= k < om.len() ==> #[trigger] om[k] == orig.children@[k]@,
            forall|k: int| i <= k < om.len() ==> #[trigger] pack.children@[k] == orig.children@[k],
            restore_list(om.take(i as int), sv, next0).0.len() == i,
            forall|k: int| 0 <= k < i ==> #[trigger] pack.children@[k]@ == restore_list(om.take(i as int), sv, next0).0[k],
            next_id as int == restore_list(om.take(i as int), sv, next0).1,
            n as int == restore_list(om.take(i as int), sv, next0).2,
            n <= i,
            missing@.map_values(|m: String| m@) == restore_list(om.take(i as int), sv, next0).3,
            restore_list(om, sv, next0).1 <= i32::MAX,
            pack.block_type == orig.block_type,
            pack.index == orig.index,
            pack.targets == orig.targets,
            pack.objects == orig.objects,
            pack.properties == orig.properties,
        decreases om.len() - i,
    {
        let ghost pre = restore_list(om.take(i as int), sv, next0);
        let ghost missing0 = missing@;
        proof {
            assert(om.take(i + 1).drop_last() =~= om.take(i as int));
            assert(om.take(i + 1).last() == om[i as int]);
            lemma_restore_next_grows(om, sv, next0, i + 1);
            lemma_restore_next_grows(om.take(i as int), sv, next0, 0);
        }
        let ghost c = om[i as int];
        assert(pack.children@[i as int]@ == c);
        if placed_copy(&pack.children[i]) {
            let ty = copy_type(&pack.children[i]);
            match find_start(starts, ty.as_str()) {
                None => {
                    let mut m = ty;
                    push_str(&mut m, " has no start MCU selected");
                    missing.push(m);
                    proof {
                        assert(missing@.map_values(|m: String| m@) =~= missing0.map_values(|m: String| m@).push(
                            type_of_copy(c) + " has no start MCU selected"@,
                        ));
                    }
                },
                Some(sn) => {
                    let ghost before = pack.children@;
                    let res = restore_copy_start(&mut pack.children[i], sn, &mut next_id);
                    match res {
                        Ok(()) => {
                            n = n + 1;
                        },
                        Err(m) => {
                            missing.push(m);
                            proof {
                                assert(missing@.map_values(|m: String| m@) =~= missing0.map_values(|m: String| m@).push(
                                    m@,
                                ));
                            }
                        },
                    }
                },
            }
        }
        proof {
            assert(restore_list(om.take(i + 1), sv, next0).0 =~= pre.0.push(pack.children@[i as int]@));
        }
        i = i + 1;
    }
    proof {
        assert(om.take(i as int) =~= om);
        lemma_children_model(*pack);
        assert(pack@.children =~= restore_list(om, sv, next0).0);
        assert(missing@.take(missing@.len() as int) =~= missing@);
    }
    if n == 0 {
        let msg = if missing.len() == 0 {
            owned("no unit groups to restore")
        } else {
            join_strings(&missing, "; ", missing.len())
        };
        return Err(msg);
    }
    let mut title = owned("Ground Units ");
    push_dec(&mut title, n as u64);
    pack.set_name(title.as_str());
    if missing.len() > 0 {
        let mut msg = owned("restored ");
        push_dec(&mut msg, n as u64);
        push_str(&mut msg, " copies, but some failed: ");
        let all = join_strings(&missing, "; ", missing.len());
        push_str(&mut msg, all.as_str());
        return Err(msg);
    }
    Ok(n)
}

/// Restore the pack inside `root` (see `placed_root_of`).
fn restore_at_pack(root: &mut Il2Entity, starts: &[(String, String)]) -> (r: Result<usize, String>)
    requires
        restore_fits(placed_root_of(old(root)@), starts_view(starts@)),
    ensures
        final(root)@ == restored_in(old(root)@, starts_view(starts@)),
        match r {
            Ok(n) => restore_outcome(placed_root_of(old(root)@), starts_view(starts@)) == Ok::<int, Seq<char>>(n as int),
            Err(m) => restore_outcome(placed_root_of(old(root)@), starts_view(starts@)) == Err::<int, Seq<char>>(m@),
        },
    decreases *old(root),
{
    if looks_like_pack_here(root) {
        return restore_pack(root, starts);
    }
    let ghost orig = *root;
    proof {
        lemma_children_model(orig);
    }
    let ghost cs = orig@.children;
    let mut groups: usize = 0;
    let mut last: usize = 0;
    let mut i: usize = 0;
    while i < root.children.len()
        invariant
            i <= root.children@.len(),
            *root == orig,
            cs == orig@.children,
            cs.len() == root.children@.len(),
            forall|j: int| 0 <= j < cs.len() ==> #[trigger] cs[j] == root.children@[j]@,
            groups as int == group_count(cs.take(i as int)),
            groups <= i,
            groups > 0 ==> last < i && last as int == last_group(cs.take(i as int)),
            groups == 0 ==> last_group(cs.take(i as int)) == -1,
            !looks_placed(orig@),
        decreases root.children@.len() - i,
    {
        proof {
            assert(cs.take(i + 1).drop_last() =~= cs.take(i as int));
            assert(cs.take(i + 1).last() == cs[i as int]);
        }
        if str_eq(root.children[i].block_type.as_str(), "Group") {
            groups = groups + 1;
            last = i;
        }
        i = i + 1;
    }
    proof {
        assert(cs.take(i as int) =~= cs);
    }
    if groups == 1 {
        proof {
            assert(decreases_to!(orig => orig.children));
            assert(decreases_to!(orig.children => orig.children@));
            assert(decreases_to!(orig.children@ => orig.children@[last as int]));
        }
        let r = restore_at_pack(&mut root.children[last], starts);
        proof {
            lemma_children_model(*root);
            assert(root@.children =~= cs.update(last as int, root.children@[last as int]@));
        }
        return r;
    }
    restore_pack(root, starts)
}

/// Turn a placed Random Ground Units pack back into always-on units. The
/// Recon Randomizer goes; in each copy, every Mission Begin is enabled and
/// fires the start MCU chosen for the copy's type (a new Mission Begin is
/// added where the copy has none). Returns how many copies were restored;
/// an error lists each copy that could not be.
pub fn restore_always_on(root: &mut Il2Entity, type_starts: &[(String, String)]) -> (r: Result<usize, String>)
    requires
        removed_count(old(root)@) <= usize::MAX,
        restore_fits(placed_root_of(without_randomizers(old(root)@)), starts_view(type_starts@)),
    ensures
        final(root)@ == restored_in(without_randomizers(old(root)@), starts_view(type_starts@)),
        match r {
            Ok(n) => restore_outcome(placed_root_of(without_randomizers(old(root)@)), starts_view(type_starts@))
                == Ok::<int, Seq<char>>(n as int),
            Err(m) => restore_outcome(placed_root_of(without_randomizers(old(root)@)), starts_view(type_starts@))
                == Err::<int, Seq<char>>(m@),
        },
{
    strip_randomizer(root);
    restore_at_pack(root, type_starts)
}

} // verus!
