//! Template duplication: unique `Index` reallocation and MCU pointer
//! reconnection.

use std::collections::HashMap;
use vstd::prelude::*;
use crate::ast::{
    EntityModel, Il2Entity, Props, format_int_array, indexes_of, indexes_in, int_array_text,
    lemma_children_model, max_in, max_index_of, prop_set, prop_set_existing, props_model,
};
use crate::text::{
    ascii_lower, chars_of, ends_with, int_text, int_to_string, lower_seq, matches_at, parse_i32,
    parse_i32_spec, push_char, push_range, push_str, str_eq, string_from_chars, trim, trim_end_all,
    trim_end_all_range, trimmed,
};

verus! {

broadcast use vstd::std_specs::hash::group_hash_axioms;

// ---------------------------------------------------------------------------
// Reallocation
// ---------------------------------------------------------------------------

/// Number of blocks carrying an `Index` in a subtree.
pub open spec fn index_count(e: EntityModel) -> int {
    indexes_of(e).len() as int
}

/// The subtree with its indexed blocks renumbered in pre-order from `next`:
/// each such block gets `Index = next + k` (its `Index` property rewritten
/// too), where `k` counts the indexed blocks before it.
pub open spec fn renumbered(e: EntityModel, next: int) -> EntityModel
    decreases e,
{
    let own: int = if e.index is Some { 1 } else { 0 };
    EntityModel {
        index: match e.index {
            Some(_) => Some(next as i32),
            None => None,
        },
        properties: if e.index is Some {
            prop_set(e.properties, "Index"@, int_text(next))
        } else {
            e.properties
        },
        children: renumbered_list(e.children, next + own),
        ..e
    }
}

pub open spec fn renumbered_list(cs: Seq<EntityModel>, next: int) -> Seq<EntityModel>
    decreases cs,
{
    if cs.len() == 0 {
        seq![]
    } else {
        seq![renumbered(cs[0], next)] + renumbered_list(cs.drop_first(), next + indexes_of(cs[0]).len())
    }
}

/// `m` with `olds[k] -> next + k` recorded in order (a later entry for the
/// same old id wins).
pub open spec fn extend_map(m: Map<i32, i32>, olds: Seq<i32>, next: int) -> Map<i32, i32>
    decreases olds.len(),
{
    if olds.len() == 0 {
        m
    } else {
        extend_map(m, olds.drop_last(), next).insert(olds.last(), (next + olds.len() - 1) as i32)
    }
}

/// Old `Index` to new `Index` for a subtree renumbered from `next`.
pub open spec fn id_map(e: EntityModel, next: int) -> Map<i32, i32> {
    extend_map(Map::empty(), indexes_of(e), next)
}

pub proof fn lemma_extend_map_append(m: Map<i32, i32>, a: Seq<i32>, b: Seq<i32>, next: int)
    ensures
        extend_map(m, a + b, next) == extend_map(extend_map(m, a, next), b, next + a.len()),
    decreases b.len(),
{
    if b.len() == 0 {
        assert(a + b =~= a);
    } else {
        assert((a + b).drop_last() =~= a + b.drop_last());
        lemma_extend_map_append(m, a, b.drop_last(), next);
    }
}

/// The pre-order `Index` list of a renumbered subtree counts up from `next`.
pub proof fn lemma_renumbered_indexes(e: EntityModel, next: int)
    requires
        i32::MIN <= next,
        next + indexes_of(e).len() <= i32::MAX + 1,
    ensures
        indexes_of(renumbered(e, next)).len() == indexes_of(e).len(),
        forall|k: int| 0 <= k < indexes_of(e).len() ==> #[trigger] indexes_of(renumbered(e, next))[k] == next + k,
    decreases e,
{
    let own: int = if e.index is Some { 1 } else { 0 };
    let o: Seq<i32> = match e.index {
        Some(i) => seq![i],
        None => seq![],
    };
    assert(indexes_of(e) == o + indexes_in(e.children));
    lemma_renumbered_list_indexes(e.children, next + own);
    let r = renumbered(e, next);
    assert(r.children == renumbered_list(e.children, next + own));
    let ro: Seq<i32> = match r.index {
        Some(i) => seq![i],
        None => seq![],
    };
    assert(indexes_of(r) == ro + indexes_in(r.children));
    assert forall|k: int| 0 <= k < indexes_of(e).len() implies #[trigger] indexes_of(renumbered(e, next))[k] == next + k by {
        if k >= own {
            assert(indexes_of(r)[k] == indexes_in(r.children)[k - own]);
        }
    }
}

pub proof fn lemma_renumbered_list_indexes(cs: Seq<EntityModel>, next: int)
    requires
        i32::MIN <= next,
        next + indexes_in(cs).len() <= i32::MAX + 1,
    ensures
        indexes_in(renumbered_list(cs, next)).len() == indexes_in(cs).len(),
        forall|k: int| 0 <= k < indexes_in(cs).len() ==> #[trigger] indexes_in(renumbered_list(cs, next))[k] == next + k,
    decreases cs,
{
    if cs.len() > 0 {
        let h = cs[0];
        let n0 = indexes_of(h).len() as int;
        assert(indexes_in(cs) == indexes_of(h) + indexes_in(cs.drop_first()));
        lemma_renumbered_indexes(h, next);
        lemma_renumbered_list_indexes(cs.drop_first(), next + n0);
        let r = renumbered_list(cs, next);
        assert(r[0] == renumbered(h, next));
        assert(r.drop_first() =~= renumbered_list(cs.drop_first(), next + n0));
        assert(indexes_in(r) == indexes_of(r[0]) + indexes_in(r.drop_first()));
        assert forall|k: int| 0 <= k < indexes_in(cs).len() implies #[trigger] indexes_in(renumbered_list(cs, next))[k] == next + k by {
            if k >= n0 {
                assert(indexes_in(r)[k] == indexes_in(r.drop_first())[k - n0]);
            } else {
                assert(indexes_in(r)[k] == indexes_of(r[0])[k]);
            }
        }
    }
}

fn reallocate_recursive(entity: &mut Il2Entity, next_id: &mut i32, map: &mut HashMap<i32, i32>)
    requires
        *old(next_id) + index_count(old(entity)@) <= i32::MAX,
    ensures
        final(entity)@ == renumbered(old(entity)@, *old(next_id) as int),
        *final(next_id) == *old(next_id) + index_count(old(entity)@),
        final(map)@ == extend_map(old(map)@, indexes_of(old(entity)@), *old(next_id) as int),
    decreases *old(entity),
{
    let ghost orig = *entity;
    let ghost e0 = orig@;
    let ghost start = *next_id;
    let ghost m0 = map@;
    proof {
        lemma_children_model(orig);
    }
    let ghost own_ids: Seq<i32> = match orig.index {
        Some(i) => seq![i],
        None => seq![],
    };
    proof {
        assert(indexes_of(e0) == own_ids + indexes_in(e0.children));
        lemma_extend_map_append(m0, own_ids, indexes_in(e0.children), start as int);
    }
    match entity.index {
        Some(old) => {
            let new = *next_id;
            *next_id = *next_id + 1;
            map.insert(old, new);
            entity.index = Some(new);
            let text = int_to_string(new as i64);
            entity.set_property("Index", text.as_str());
            proof {
                assert(own_ids == seq![old]);
                assert(own_ids.drop_last() =~= Seq::<i32>::empty());
                assert(extend_map(m0, own_ids.drop_last(), start as int) == m0);
                assert(extend_map(m0, own_ids, start as int) == m0.insert(old, new));
            }
        },
        None => {},
    }
    let ghost base = *next_id;
    let ghost m1 = map@;
    let ghost cs = e0.children;
    let ghost mut done: Seq<EntityModel> = seq![];
    proof {
        assert(cs.skip(0) =~= cs);
    }
    let mut i: usize = 0;
    while i < entity.children.len()
        invariant
            i <= entity.children@.len(),
            entity.children@.len() == orig.children@.len(),
            cs == e0.children,
            cs.len() == orig.children@.len(),
            forall|j: int| 0 <= j < cs.len() ==> #[trigger] cs[j] == orig.children@[j]@,
            done.len() == i,
            forall|j: int| 0 <= j < i ==> #[trigger] entity.children@[j]@ == done[j],
            forall|j: int| i <= j < entity.children@.len() ==> #[trigger] entity.children@[j] == orig.children@[j],
            renumbered_list(cs, base as int) == done + renumbered_list(cs.skip(i as int), *next_id as int),
            *next_id + indexes_in(cs.skip(i as int)).len() == base + indexes_in(cs).len(),
            base + indexes_in(cs).len() <= i32::MAX,
            extend_map(m1, indexes_in(cs), base as int) == extend_map(map@, indexes_in(cs.skip(i as int)), *next_id as int),
            orig == *old(entity),
            entity.block_type == orig.block_type,
            entity.targets == orig.targets,
            entity.objects == orig.objects,
            entity.index == (match orig.index { Some(_) => Some(start), None => None::<i32> }),
            entity@.properties == (if orig.index is Some { prop_set(e0.properties, "Index"@, int_text(start as int)) } else { e0.properties }),
        decreases entity.children@.len() - i,
    {
        let ghost c = cs[i as int];
        let ghost nx = *next_id;
        let ghost mp = map@;
        proof {
            let s = cs.skip(i as int);
            assert(s[0] == c);
            assert(s.drop_first() =~= cs.skip(i + 1));
            assert(indexes_in(s) == indexes_of(c) + indexes_in(cs.skip(i + 1)));
            lemma_extend_map_append(mp, indexes_of(c), indexes_in(cs.skip(i + 1)), nx as int);
            assert(decreases_to!(orig => orig.children));
            assert(decreases_to!(orig.children => orig.children@));
            assert(decreases_to!(orig.children@ => orig.children@[i as int]));
        }
        reallocate_recursive(&mut entity.children[i], next_id, map);
        proof {
            done = done.push(renumbered(c, nx as int));
            assert(renumbered_list(cs.skip(i as int), nx as int)
                == seq![renumbered(c, nx as int)] + renumbered_list(cs.skip(i + 1), *next_id as int));
            assert(done.drop_last() + seq![renumbered(c, nx as int)] =~= done);
        }
        i = i + 1;
    }
    proof {
        assert(cs.skip(i as int) =~= Seq::<EntityModel>::empty());
        assert(done =~= renumbered_list(cs, base as int));
        lemma_children_model(*entity);
        assert(entity@.children =~= done);
        let own: int = if e0.index is Some { 1 } else { 0 };
        assert(base == start + own);
    }
}

/// Clone `template`, giving its indexed blocks the indexes `*next_id`,
/// `*next_id + 1`, … in pre-order. Returns the clone and old → new indexes.
pub fn reallocate_ids(template: &Il2Entity, next_id: &mut i32) -> (r: (Il2Entity, HashMap<i32, i32>))
    requires
        *old(next_id) + index_count(template@) <= i32::MAX,
    ensures
        r.0@ == renumbered(template@, *old(next_id) as int),
        r.1@ == id_map(template@, *old(next_id) as int),
        *final(next_id) == *old(next_id) + index_count(template@),
{
    let mut map: HashMap<i32, i32> = HashMap::new();
    let mut clone = template.clone();
    reallocate_recursive(&mut clone, next_id, &mut map);
    (clone, map)
}

// ---------------------------------------------------------------------------
// Pointer reconnection
// ---------------------------------------------------------------------------

/// `x` through `m`, unchanged when `m` does not know it.
pub open spec fn relink_id(m: Map<i32, i32>, x: i32) -> i32 {
    if m.contains_key(x) {
        m[x]
    } else {
        x
    }
}

pub open spec fn relink_ids(ids: Seq<i32>, m: Map<i32, i32>) -> Seq<i32> {
    ids.map_values(|x: i32| relink_id(m, x))
}

/// Keys whose value is a single entity `Index` (MCU logic links).
pub open spec fn is_pointer_key(k: Seq<char>) -> bool {
    k == "LinkTrId"@ || k == "MisObjID"@ || k == "TarId"@ || k == "CmdId"@
}

/// A property value after reconnection: a pointer key whose value parses as
/// an `i32` known to `m` is rewritten; anything else stays.
pub open spec fn relink_value(k: Seq<char>, v: Seq<char>, m: Map<i32, i32>) -> Seq<char> {
    if is_pointer_key(k) {
        match parse_i32_spec(v) {
            Some(old) => if m.contains_key(old) {
                int_text(m[old] as int)
            } else {
                v
            },
            None => v,
        }
    } else {
        v
    }
}

pub open spec fn relink_props(ps: Props, m: Map<i32, i32>) -> Props {
    ps.map_values(|kv: (Seq<char>, Seq<char>)| (kv.0, relink_value(kv.0, kv.1, m)))
}

/// `reconnect_pointers` on a whole subtree: link arrays and pointer keys
/// rewritten through `m`; the `Targets` / `Objects` texts re-rendered where
/// the block has them.
pub open spec fn relinked(e: EntityModel, m: Map<i32, i32>) -> EntityModel
    decreases e,
{
    let t = relink_ids(e.targets, m);
    let o = relink_ids(e.objects, m);
    EntityModel {
        targets: t,
        objects: o,
        properties: relink_props(
            prop_set_existing(prop_set_existing(e.properties, "Targets"@, int_array_text(t)), "Objects"@, int_array_text(o)),
            m,
        ),
        children: Seq::new(
            e.children.len(),
            |i: int|
                if 0 <= i < e.children.len() {
                    relinked(e.children[i], m)
                } else {
                    arbitrary()
                },
        ),
        ..e
    }
}

fn is_pointer_key_str(k: &str) -> (r: bool)
    ensures
        r == is_pointer_key(k@),
{
    str_eq(k, "LinkTrId") || str_eq(k, "MisObjID") || str_eq(k, "TarId") || str_eq(k, "CmdId")
}

fn relink_vec(ids: &mut Vec<i32>, map: &HashMap<i32, i32>)
    ensures
        final(ids)@ == relink_ids(old(ids)@, map@),
{
    let ghost orig = ids@;
    let mut k: usize = 0;
    while k < ids.len()
        invariant
            k <= ids@.len(),
            ids@.len() == orig.len(),
            forall|j: int| 0 <= j < k ==> #[trigger] ids@[j] == relink_id(map@, orig[j]),
            forall|j: int| k <= j < ids@.len() ==> #[trigger] ids@[j] == orig[j],
        decreases ids@.len() - k,
    {
        let x = ids[k];
        match map.get(&x) {
            Some(new) => {
                ids.set(k, *new);
            },
            None => {},
        }
        k = k + 1;
    }
    proof {
        assert(ids@ =~= relink_ids(orig, map@));
    }
}

/// Rewrite `targets`, `objects` and the single-id pointer properties of the
/// subtree through `map`. Ids the map does not know are left as they are,
/// so links to blocks outside the template stay intact.
pub fn reconnect_pointers(entity: &mut Il2Entity, map: &HashMap<i32, i32>)
    ensures
        final(entity)@ == relinked(old(entity)@, map@),
    decreases *old(entity),
{
    let ghost orig = *entity;
    proof {
        lemma_children_model(orig);
    }
    relink_vec(&mut entity.targets, map);
    relink_vec(&mut entity.objects, map);
    let t = format_int_array(entity.targets.as_slice());
    entity.set_existing_property("Targets", t.as_str());
    let o = format_int_array(entity.objects.as_slice());
    entity.set_existing_property("Objects", o.as_str());
    let ghost ps = entity@.properties;
    let mut k: usize = 0;
    while k < entity.properties.len()
        invariant
            k <= entity.properties@.len(),
            entity.properties@.len() == ps.len(),
            forall|j: int| 0 <= j < k ==> #[trigger] props_model(entity.properties@)[j] == (ps[j].0, relink_value(ps[j].0, ps[j].1, map@)),
            forall|j: int| k <= j < entity.properties@.len() ==> #[trigger] props_model(entity.properties@)[j] == ps[j],
            entity.children == orig.children,
            entity.block_type == orig.block_type,
            entity.index == orig.index,
            entity.targets@ == relink_ids(orig.targets@, map@),
            entity.objects@ == relink_ids(orig.objects@, map@),
        decreases entity.properties@.len() - k,
    {
        let ghost before = props_model(entity.properties@);
        assert(before[k as int] == ps[k as int]);
        if is_pointer_key_str(entity.properties[k].0.as_str()) {
            match parse_i32(entity.properties[k].1.as_str()) {
                Some(old) => {
                    match map.get(&old) {
                        Some(new) => {
                            let text = int_to_string(*new as i64);
                            entity.properties[k].1 = text;
                            proof {
                                assert(props_model(entity.properties@) =~= before.update(k as int, (ps[k as int].0, int_text(*new as int))));
                            }
                        },
                        None => {},
                    }
                },
                None => {},
            }
        }
        k = k + 1;
    }
    proof {
        assert(props_model(entity.properties@) =~= relink_props(ps, map@));
    }
    let mut i: usize = 0;
    while i < entity.children.len()
        invariant
            i <= entity.children@.len(),
            entity.children@.len() == orig.children@.len(),
            forall|j: int| 0 <= j < i ==> #[trigger] entity.children@[j]@ == relinked(orig.children@[j]@, map@),
            forall|j: int| i <= j < entity.children@.len() ==> #[trigger] entity.children@[j] == orig.children@[j],
            orig == *old(entity),
            entity.block_type == orig.block_type,
            entity.index == orig.index,
            entity.targets@ == relink_ids(orig.targets@, map@),
            entity.objects@ == relink_ids(orig.objects@, map@),
            props_model(entity.properties@) == relink_props(ps, map@),
        decreases entity.children@.len() - i,
    {
        proof {
            assert(decreases_to!(orig => orig.children));
            assert(decreases_to!(orig.children => orig.children@));
            assert(decreases_to!(orig.children@ => orig.children@[i as int]));
        }
        reconnect_pointers(&mut entity.children[i], map);
        i = i + 1;
    }
    proof {
        lemma_children_model(*entity);
        let r = relinked(orig@, map@);
        assert(entity@.children =~= r.children);
        assert(entity@.properties =~= r.properties);
        assert(entity@.targets =~= r.targets);
        assert(entity@.objects =~= r.objects);
    }
}

/// Clone `template`, reallocate its indexes from `*next_id`, then reconnect
/// the internal MCU pointers through the old → new map.
pub fn duplicate_template(template: &Il2Entity, next_id: &mut i32) -> (r: (Il2Entity, HashMap<i32, i32>))
    requires
        *old(next_id) + index_count(template@) <= i32::MAX,
    ensures
        r.0@ == relinked(renumbered(template@, *old(next_id) as int), id_map(template@, *old(next_id) as int)),
        r.1@ == id_map(template@, *old(next_id) as int),
        *final(next_id) == *old(next_id) + index_count(template@),
{
    let (mut clone, map) = reallocate_ids(template, next_id);
    reconnect_pointers(&mut clone, &map);
    (clone, map)
}

// ---------------------------------------------------------------------------
// Generating copies
// ---------------------------------------------------------------------------

/// A copy of `t` whose indexes start at `next`, with internal links
/// reconnected.
pub open spec fn duplicated(t: EntityModel, next: int) -> EntityModel {
    relinked(renumbered(t, next), id_map(t, next))
}

/// First index handed out for extra copies: one past the template's highest
/// (saturating at `i32::MAX`).
pub open spec fn first_free(t: EntityModel) -> int {
    if max_index_of(t) >= i32::MAX {
        i32::MAX as int
    } else {
        max_index_of(t) + 1
    }
}

/// Copy number `k` of `generate_groups`: the template itself first, then
/// copies reallocated back to back from [`first_free`].
pub open spec fn group_copy(t: EntityModel, k: int) -> EntityModel {
    if k == 0 {
        t
    } else {
        duplicated(t, first_free(t) + (k - 1) * index_count(t))
    }
}

/// `Index` of the wrapping group for `count` copies.
pub open spec fn wrapper_index(t: EntityModel, count: int) -> int {
    first_free(t) + (count - 1) * index_count(t)
}

/// What `generate_groups(t, count)` produces: the template alone for a count
/// of 0 or 1, else a `Group` named "Generated Groups" holding the copies.
pub open spec fn generated(t: EntityModel, count: int) -> EntityModel {
    if count <= 1 {
        t
    } else {
        let w = wrapper_index(t, count);
        EntityModel {
            block_type: "Group"@,
            index: Some(w as i32),
            targets: seq![],
            objects: seq![],
            properties: seq![
                ("Name"@, "\"Generated Groups\""@),
                ("Index"@, int_text(w)),
                ("Desc"@, "\"\""@),
            ],
            children: Seq::new(count as nat, |k: int| group_copy(t, k)),
        }
    }
}

proof fn lemma_copy_step(f: int, k: int, n: int, count: int)
    by (nonlinear_arith)
    requires
        1 <= k < count,
        0 <= n,
    ensures
        f + (k - 1) * n + n == f + k * n,
        f + k * n <= f + (count - 1) * n,
{
}

/// `count` copies of `template` (at least one) with unique indexes and intact
/// MCU links. The first copy keeps the template's indexes; the others are
/// reallocated from one past the template's highest index. Several copies
/// are wrapped in a parent `Group`.
pub fn generate_groups(template: &Il2Entity, count: usize) -> (r: Il2Entity)
    requires
        count <= 1 || wrapper_index(template@, count as int) <= i32::MAX,
    ensures
        r@ == generated(template@, count as int),
{
    let ghost t = template@;
    let count = if count < 1 { 1 } else { count };
    let m = template.max_index();
    let mut next_id: i32 = if m == i32::MAX { m } else { m + 1 };
    let mut copies: Vec<Il2Entity> = Vec::new();
    copies.push(template.clone());
    let mut k: usize = 1;
    while k < count
        invariant
            1 <= k <= count,
            t == template@,
            count > 1 ==> wrapper_index(t, count as int) <= i32::MAX,
            copies@.len() == k,
            forall|j: int| 0 <= j < k ==> #[trigger] copies@[j]@ == group_copy(t, j),
            next_id == first_free(t) + (k - 1) * index_count(t),
        decreases count - k,
    {
        proof {
            lemma_copy_step(first_free(t), k as int, index_count(t), count as int);
        }
        let (clone, _) = duplicate_template(template, &mut next_id);
        copies.push(clone);
        k = k + 1;
    }
    if count == 1 {
        let only = copies.pop().unwrap();
        return only;
    }
    let wrapper_id = next_id;
    let mut wrapper = Il2Entity::new("Group");
    wrapper.index = Some(wrapper_id);
    proof {
        reveal_strlit("Name");
        reveal_strlit("Index");
        reveal_strlit("Desc");
        reveal_with_fuel(crate::ast::key_pos, 3);
        assert("Name"@.len() == 4 && "Index"@.len() == 5 && "Desc"@.len() == 4);
        assert("Name"@[0] == 'N' && "Desc"@[0] == 'D');
        assert("Name"@ != "Index"@ && "Name"@ != "Desc"@ && "Index"@ != "Desc"@);
    }
    wrapper.set_property("Name", "\"Generated Groups\"");
    assert(wrapper@.properties =~= seq![("Name"@, "\"Generated Groups\""@)]);
    let id_text = int_to_string(wrapper_id as i64);
    wrapper.set_property("Index", id_text.as_str());
    assert(wrapper@.properties =~= seq![("Name"@, "\"Generated Groups\""@), ("Index"@, id_text@)]);
    wrapper.set_property("Desc", "\"\"");
    assert(wrapper@.properties =~= seq![("Name"@, "\"Generated Groups\""@), ("Index"@, id_text@), ("Desc"@, "\"\""@)]);
    wrapper.children = copies;
    proof {
        lemma_children_model(wrapper);
        let g = generated(t, count as int);
        assert(wrapper@.children =~= g.children);
        assert(wrapper@.properties =~= g.properties);
    }
    wrapper
}

// ---------------------------------------------------------------------------
// GUI overrides
// ---------------------------------------------------------------------------

/// `s` with every `/` turned into `\`.
pub open spec fn backslashed(s: Seq<char>) -> Seq<char> {
    s.map_values(|c: char| if c == '/' { '\\' } else { c })
}

/// Where the last path segment of `s` begins.
pub open spec fn segment_start(s: Seq<char>) -> nat
    decreases s.len(),
{
    if s.len() == 0 {
        0
    } else if s.last() == '\\' || s.last() == '/' {
        s.len()
    } else {
        segment_start(s.drop_last())
    }
}

/// The aircraft name in a path: its last segment without `.txt` / `.mgm`
/// extensions (either case).
pub open spec fn plane_name(p: Seq<char>) -> Seq<char> {
    trim_end_all(
        trim_end_all(
            trim_end_all(trim_end_all(p.subrange(segment_start(p) as int, p.len() as int), ".txt"@), ".mgm"@),
            ".MGM"@,
        ),
        ".TXT"@,
    )
}

/// Script and model paths for an aircraft asset path (a bare name such as
/// `mig15bis`, or a script path). `None` when no name is left.
pub open spec fn script_and_model(path: Seq<char>) -> Option<(Seq<char>, Seq<char>)> {
    let p = backslashed(trim(path));
    let name = plane_name(p);
    if p.len() == 0 || name.len() == 0 {
        None
    } else {
        let script = if ends_with(lower_seq(p), ".txt"@) && p.contains('\\') {
            p
        } else {
            "LuaScripts\\WorldObjects\\Planes\\"@ + name + ".txt"@
        };
        Some((script, "graphics\\planes\\"@ + name + seq!['\\'] + name + ".mgm"@))
    }
}

pub open spec fn quoted(s: Seq<char>) -> Seq<char> {
    seq!['"'] + s + seq!['"']
}

/// `apply_overrides` on a subtree: `Country` set on planes, vehicles and
/// ships; `Script` and `Model` set on planes when the path names an aircraft.
pub open spec fn overridden(e: EntityModel, path: Seq<char>, coalition: i32) -> EntityModel
    decreases e,
{
    let p1 = if e.block_type == "Plane"@ || e.block_type == "Vehicle"@ || e.block_type == "Ship"@ {
        prop_set(e.properties, "Country"@, int_text(coalition as int))
    } else {
        e.properties
    };
    let p2 = if e.block_type == "Plane"@ {
        match script_and_model(path) {
            Some(sm) => prop_set(prop_set(p1, "Script"@, quoted(sm.0)), "Model"@, quoted(sm.1)),
            None => p1,
        }
    } else {
        p1
    };
    EntityModel {
        properties: p2,
        children: Seq::new(
            e.children.len(),
            |i: int|
                if 0 <= i < e.children.len() {
                    overridden(e.children[i], path, coalition)
                } else {
                    arbitrary()
                },
        ),
        ..e
    }
}

fn has_backslash(cs: &Vec<char>) -> (r: bool)
    ensures
        r == cs@.contains('\\'),
{
    let mut i: usize = 0;
    while i < cs.len()
        invariant
            i <= cs@.len(),
            forall|j: int| 0 <= j < i ==> #[trigger] cs@[j] != '\\',
        decreases cs@.len() - i,
    {
        if cs[i] == '\\' {
            proof {
                assert(cs@[i as int] == '\\');
            }
            return true;
        }
        i = i + 1;
    }
    false
}

fn aircraft_script_and_model(path: &str) -> (r: Option<(String, String)>)
    ensures
        match r {
            Some(sm) => script_and_model(path@) == Some((sm.0@, sm.1@)),
            None => script_and_model(path@) is None,
        },
{
    let t = trimmed(path);
    let tc = chars_of(t.as_str());
    let mut pv: Vec<char> = Vec::new();
    let mut i: usize = 0;
    while i < tc.len()
        invariant
            i <= tc@.len(),
            tc@ == trim(path@),
            pv@ == backslashed(tc@).take(i as int),
        decreases tc@.len() - i,
    {
        let c = tc[i];
        pv.push(if c == '/' { '\\' } else { c });
        proof {
            assert(backslashed(tc@).take(i + 1) =~= backslashed(tc@).take(i as int).push(if c == '/' { '\\' } else { c }));
        }
        i = i + 1;
    }
    let ghost p = backslashed(trim(path@));
    proof {
        assert(backslashed(tc@).take(i as int) =~= p);
    }
    if pv.len() == 0 {
        return None;
    }
    let len = pv.len();
    let mut st = len;
    while st > 0 && pv[st - 1] != '\\' && pv[st - 1] != '/'
        invariant
            st <= len == pv@.len(),
            pv@ == p,
            segment_start(p) == segment_start(p.subrange(0, st as int)),
        decreases st,
    {
        proof {
            assert(p.subrange(0, st as int).drop_last() =~= p.subrange(0, st - 1));
        }
        st = st - 1;
    }
    proof {
        if st == len {
            assert(p.subrange(0, st as int) =~= p);
        }
        assert(segment_start(p) == st);
    }
    let e1 = trim_end_all_range(&pv, st, len, ".txt");
    let e2 = trim_end_all_range(&pv, st, e1, ".mgm");
    let e3 = trim_end_all_range(&pv, st, e2, ".MGM");
    let e4 = trim_end_all_range(&pv, st, e3, ".TXT");
    let ghost name = plane_name(p);
    proof {
        assert(pv@.subrange(st as int, e4 as int) == name);
    }
    if e4 == st {
        return None;
    }
    let ps = string_from_chars(&pv);
    let lower = ascii_lower(ps.as_str());
    let lc = chars_of(lower.as_str());
    let ext = chars_of(".txt");
    proof {
        reveal_strlit(".txt");
    }
    let is_txt = lc.len() >= ext.len() && matches_at(&lc, lc.len() - ext.len(), &ext);
    let script = if is_txt && has_backslash(&pv) {
        ps
    } else {
        let mut s = String::new();
        push_str(&mut s, "LuaScripts\\WorldObjects\\Planes\\");
        push_range(&mut s, &pv, st, e4);
        push_str(&mut s, ".txt");
        s
    };
    let mut model = String::new();
    push_str(&mut model, "graphics\\planes\\");
    push_range(&mut model, &pv, st, e4);
    push_char(&mut model, '\\');
    push_range(&mut model, &pv, st, e4);
    push_str(&mut model, ".mgm");
    proof {
        let sm = script_and_model(path@);
        assert(sm is Some);
        assert(is_txt == ends_with(lower_seq(p), ".txt"@));
        assert(model@ =~= sm.unwrap().1);
        assert(script@ =~= sm.unwrap().0);
    }
    Some((script, model))
}

fn quote(s: &str) -> (r: String)
    ensures
        r@ == quoted(s@),
{
    let mut r = String::new();
    push_char(&mut r, '"');
    push_str(&mut r, s);
    push_char(&mut r, '"');
    proof {
        assert(r@ =~= quoted(s@));
    }
    r
}

/// Apply the GUI overrides to a subtree: `Country` on every `Plane`,
/// `Vehicle` and `Ship`; `Script` and `Model` on every `Plane` when
/// `aircraft_asset_path` names an aircraft.
pub fn apply_overrides(entity: &mut Il2Entity, aircraft_asset_path: &str, coalition: i32)
    ensures
        final(entity)@ == overridden(old(entity)@, aircraft_asset_path@, coalition),
    decreases *old(entity),
{
    let ghost orig = *entity;
    proof {
        lemma_children_model(orig);
    }
    let is_plane = str_eq(entity.block_type.as_str(), "Plane");
    if is_plane || str_eq(entity.block_type.as_str(), "Vehicle") || str_eq(entity.block_type.as_str(), "Ship") {
        let c = int_to_string(coalition as i64);
        entity.set_property("Country", c.as_str());
    }
    if is_plane {
        match aircraft_script_and_model(aircraft_asset_path) {
            Some((script, model)) => {
                let qs = quote(script.as_str());
                entity.set_property("Script", qs.as_str());
                let qm = quote(model.as_str());
                entity.set_property("Model", qm.as_str());
            },
            None => {},
        }
    }
    let ghost props = entity@.properties;
    proof {
        assert(props == overridden(orig@, aircraft_asset_path@, coalition).properties);
    }
    let mut i: usize = 0;
    while i < entity.children.len()
        invariant
            i <= entity.children@.len(),
            entity.children@.len() == orig.children@.len(),
            forall|j: int| 0 <= j < i ==> #[trigger] entity.children@[j]@ == overridden(orig.children@[j]@, aircraft_asset_path@, coalition),
            forall|j: int| i <= j < entity.children@.len() ==> #[trigger] entity.children@[j] == orig.children@[j],
            orig == *old(entity),
            entity.block_type == orig.block_type,
            entity.index == orig.index,
            entity.targets == orig.targets,
            entity.objects == orig.objects,
            entity@.properties == props,
        decreases entity.children@.len() - i,
    {
        proof {
            assert(decreases_to!(orig => orig.children));
            assert(decreases_to!(orig.children => orig.children@));
            assert(decreases_to!(orig.children@ => orig.children@[i as int]));
        }
        apply_overrides(&mut entity.children[i], aircraft_asset_path, coalition);
        i = i + 1;
    }
    proof {
        lemma_children_model(*entity);
        let r = overridden(orig@, aircraft_asset_path@, coalition);
        assert(entity@.children =~= r.children);
    }
}

// ---------------------------------------------------------------------------
// Laws
// ---------------------------------------------------------------------------

pub open spec fn relink_list(cs: Seq<EntityModel>, m: Map<i32, i32>) -> Seq<EntityModel> {
    Seq::new(cs.len(), |i: int| relinked(cs[i], m))
}

proof fn lemma_relinked_indexes(e: EntityModel, m: Map<i32, i32>)
    ensures
        indexes_of(relinked(e, m)) == indexes_of(e),
    decreases e,
{
    lemma_relinked_list_indexes(e.children, m);
    assert(relinked(e, m).children =~= relink_list(e.children, m));
}

proof fn lemma_relinked_list_indexes(cs: Seq<EntityModel>, m: Map<i32, i32>)
    ensures
        indexes_in(relink_list(cs, m)) == indexes_in(cs),
    decreases cs,
{
    if cs.len() > 0 {
        lemma_relinked_indexes(cs[0], m);
        lemma_relinked_list_indexes(cs.drop_first(), m);
        assert(relink_list(cs, m).drop_first() =~= relink_list(cs.drop_first(), m));
    }
}

/// Reconnecting pointers never changes which blocks carry which `Index`.
pub proof fn law_relink_keeps_indexes(e: EntityModel, m: Map<i32, i32>)
    ensures
        indexes_of(relinked(e, m)) == indexes_of(e),
{
    lemma_relinked_indexes(e, m);
}

/// A duplicated template's indexes are `next, next + 1, …` in pre-order,
/// one per indexed block of the template.
pub proof fn law_duplicate_indexes_sequential(t: EntityModel, next: int)
    requires
        i32::MIN <= next,
        next + index_count(t) <= i32::MAX + 1,
    ensures
        indexes_of(duplicated(t, next)).len() == indexes_of(t).len(),
        forall|k: int| 0 <= k < indexes_of(t).len() ==> #[trigger] indexes_of(duplicated(t, next))[k] == next + k,
{
    lemma_renumbered_indexes(t, next);
    lemma_relinked_indexes(renumbered(t, next), id_map(t, next));
}

proof fn lemma_extend_map_facts(m: Map<i32, i32>, olds: Seq<i32>, next: int)
    requires
        olds.no_duplicates(),
    ensures
        forall|k: int| 0 <= k < olds.len() ==> #[trigger] extend_map(m, olds, next)[olds[k]] == (next + k) as i32,
        forall|x: i32| #[trigger] extend_map(m, olds, next).contains_key(x) <==> (m.contains_key(x) || olds.contains(x)),
        forall|x: i32| !olds.contains(x) && m.contains_key(x) ==> #[trigger] extend_map(m, olds, next)[x] == m[x],
    decreases olds.len(),
{
    if olds.len() > 0 {
        let init = olds.drop_last();
        assert(init.no_duplicates());
        lemma_extend_map_facts(m, init, next);
        assert forall|k: int| 0 <= k < olds.len() implies #[trigger] extend_map(m, olds, next)[olds[k]] == (next + k) as i32 by {
            if k < olds.len() - 1 {
                assert(olds[k] == init[k]);
                assert(olds[k] != olds[olds.len() - 1]);
                assert(extend_map(m, init, next)[init[k]] == (next + k) as i32);
            }
        }
        assert forall|x: i32| #[trigger] extend_map(m, olds, next).contains_key(x) <==> (m.contains_key(x) || olds.contains(x)) by {
            let e0 = extend_map(m, init, next);
            assert(e0.contains_key(x) <==> (m.contains_key(x) || init.contains(x)));
            if init.contains(x) {
                let j = choose|j: int| 0 <= j < init.len() && init[j] == x;
                assert(olds[j] == x);
                assert(olds.contains(x));
            }
            if x == olds.last() {
                assert(olds[olds.len() - 1] == x);
                assert(olds.contains(x));
            }
            if olds.contains(x) && x != olds.last() {
                let j = choose|j: int| 0 <= j < olds.len() && olds[j] == x;
                assert(j != olds.len() - 1);
                assert(init[j] == x);
                assert(init.contains(x));
            }
        }
        assert forall|x: i32| !olds.contains(x) && m.contains_key(x) implies #[trigger] extend_map(m, olds, next)[x] == m[x] by {
            if init.contains(x) {
                let j = choose|j: int| 0 <= j < init.len() && init[j] == x;
                assert(olds[j] == x);
                assert(olds.contains(x));
            }
            assert(olds[olds.len() - 1] == olds.last());
            assert(olds.contains(olds.last()));
            assert(x != olds.last());
            assert(extend_map(m, init, next)[x] == m[x]);
        }
    }
}

/// The map `reallocate_ids` returns sends the `k`-th index of a template
/// whose indexes are distinct to `next + k`, and knows no other ids.
pub proof fn law_id_map_exact(t: EntityModel, next: int)
    requires
        indexes_of(t).no_duplicates(),
        i32::MIN <= next,
        next + index_count(t) <= i32::MAX + 1,
    ensures
        forall|k: int| 0 <= k < indexes_of(t).len() ==> #[trigger] id_map(t, next)[indexes_of(t)[k]] == next + k,
        forall|x: i32| #[trigger] id_map(t, next).contains_key(x) <==> indexes_of(t).contains(x),
        id_map(t, next).len() == indexes_of(t).len(),
{
    lemma_extend_map_facts(Map::empty(), indexes_of(t), next);
    assert forall|k: int| 0 <= k < indexes_of(t).len() implies #[trigger] id_map(t, next)[indexes_of(t)[k]] == next + k by {
        assert(id_map(t, next)[indexes_of(t)[k]] == (next + k) as i32);
    }
    let d = id_map(t, next).dom();
    assert(d =~= indexes_of(t).to_set());
    indexes_of(t).unique_seq_to_set();
}

proof fn lemma_max_in_ge(cs: Seq<EntityModel>, acc: int)
    ensures
        max_in(cs, acc) >= acc,
        forall|j: int| 0 <= j < cs.len() ==> max_in(cs, acc) >= #[trigger] max_index_of(cs[j]),
    decreases cs,
{
    if cs.len() > 0 {
        let m = max_index_of(cs[0]);
        let a2 = if m > acc { m } else { acc };
        lemma_max_in_ge(cs.drop_first(), a2);
        assert forall|j: int| 0 <= j < cs.len() implies max_in(cs, acc) >= #[trigger] max_index_of(cs[j]) by {
            if j > 0 {
                assert(cs[j] == cs.drop_first()[j - 1]);
            }
        }
    }
}

pub(crate) proof fn lemma_indexes_below_max(e: EntityModel)
    ensures
        forall|k: int| 0 <= k < indexes_of(e).len() ==> #[trigger] indexes_of(e)[k] <= max_index_of(e),
    decreases e,
{
    let own: int = match e.index {
        Some(i) => i as int,
        None => 0,
    };
    lemma_max_in_ge(e.children, own);
    lemma_indexes_in_below(e.children, max_index_of(e));
    let o: Seq<i32> = match e.index {
        Some(i) => seq![i],
        None => seq![],
    };
    assert(indexes_of(e) == o + indexes_in(e.children));
    assert forall|k: int| 0 <= k < indexes_of(e).len() implies #[trigger] indexes_of(e)[k] <= max_index_of(e) by {
        if k >= o.len() {
            assert(indexes_of(e)[k] == indexes_in(e.children)[k - o.len()]);
        }
    }
}

proof fn lemma_indexes_in_below(cs: Seq<EntityModel>, bound: int)
    requires
        forall|j: int| 0 <= j < cs.len() ==> #[trigger] max_index_of(cs[j]) <= bound,
    ensures
        forall|k: int| 0 <= k < indexes_in(cs).len() ==> #[trigger] indexes_in(cs)[k] <= bound,
    decreases cs,
{
    if cs.len() > 0 {
        lemma_indexes_below_max(cs[0]);
        assert forall|j: int| 0 <= j < cs.drop_first().len() implies #[trigger] max_index_of(cs.drop_first()[j]) <= bound by {
            assert(cs.drop_first()[j] == cs[j + 1]);
        }
        lemma_indexes_in_below(cs.drop_first(), bound);
        let a = indexes_of(cs[0]);
        assert forall|k: int| 0 <= k < indexes_in(cs).len() implies #[trigger] indexes_in(cs)[k] <= bound by {
            if k < a.len() {
                assert(indexes_in(cs)[k] == a[k]);
            } else {
                assert(indexes_in(cs)[k] == indexes_in(cs.drop_first())[k - a.len()]);
            }
        }
    }
}

/// The indexes of a list of blocks are distinct when each block's are and no
/// two blocks share one.
pub(crate) proof fn lemma_indexes_in_unique(cs: Seq<EntityModel>)
    requires
        forall|j: int| 0 <= j < cs.len() ==> (#[trigger] indexes_of(cs[j])).no_duplicates(),
        forall|i: int, j: int, x: i32|
            0 <= i < j < cs.len() && #[trigger] indexes_of(cs[i]).contains(x) ==> !(#[trigger] indexes_of(cs[j]).contains(x)),
    ensures
        indexes_in(cs).no_duplicates(),
        forall|x: i32| #[trigger] indexes_in(cs).contains(x) ==> exists|j: int| 0 <= j < cs.len() && #[trigger] indexes_of(cs[j]).contains(x),
    decreases cs,
{
    if cs.len() > 0 {
        let t = cs.drop_first();
        assert forall|j: int| 0 <= j < t.len() implies (#[trigger] indexes_of(t[j])).no_duplicates() by {
            assert(t[j] == cs[j + 1]);
        }
        assert forall|i: int, j: int, x: i32|
            0 <= i < j < t.len() && #[trigger] indexes_of(t[i]).contains(x) implies !(#[trigger] indexes_of(t[j]).contains(x)) by {
            assert(t[i] == cs[i + 1]);
            assert(t[j] == cs[j + 1]);
        }
        lemma_indexes_in_unique(t);
        let a = indexes_of(cs[0]);
        let b = indexes_in(t);
        assert(indexes_in(cs) == a + b);
        assert forall|x: i32| b.contains(x) implies !a.contains(x) by {
            let j = choose|j: int| 0 <= j < t.len() && #[trigger] indexes_of(t[j]).contains(x);
            assert(t[j] == cs[j + 1]);
            assert(indexes_of(cs[j + 1]).contains(x));
        }
        assert forall|p: int, q: int| 0 <= p < q < (a + b).len() implies (a + b)[p] != (a + b)[q] by {
            if p < a.len() && q >= a.len() {
                assert((a + b)[q] == b[q - a.len()]);
                assert(b.contains(b[q - a.len()]));
                assert(a.contains(a[p]));
            } else if p >= a.len() {
                assert((a + b)[p] == b[p - a.len()]);
                assert((a + b)[q] == b[q - a.len()]);
            }
        }
        assert forall|x: i32| #[trigger] indexes_in(cs).contains(x) implies exists|j: int| 0 <= j < cs.len() && #[trigger] indexes_of(cs[j]).contains(x) by {
            let p = choose|p: int| 0 <= p < (a + b).len() && (a + b)[p] == x;
            if p < a.len() {
                assert(a[p] == x);
                assert(indexes_of(cs[0]).contains(x));
            } else {
                assert(b[p - a.len()] == x);
                assert(b.contains(x));
                let j = choose|j: int| 0 <= j < t.len() && #[trigger] indexes_of(t[j]).contains(x);
                assert(t[j] == cs[j + 1]);
                assert(indexes_of(cs[j + 1]).contains(x));
            }
        }
    }
}

pub proof fn lemma_max_nonneg(e: EntityModel)
    ensures
        max_index_of(e) >= 0,
    decreases e,
{
    if e.children.len() > 0 {
        let own: int = match e.index {
            Some(i) => i as int,
            None => 0,
        };
        lemma_max_in_ge(e.children, own);
        lemma_max_nonneg(e.children[0]);
    }
}

proof fn lemma_copy_range(t: EntityModel, k: int, x: i32)
    requires
        k >= 1,
        first_free(t) + k * index_count(t) <= i32::MAX + 1,
    ensures
        indexes_of(group_copy(t, k)).no_duplicates(),
        indexes_of(group_copy(t, k)).contains(x) ==> first_free(t) + (k - 1) * index_count(t) <= x < first_free(t) + k * index_count(t),
{
    let n = index_count(t);
    let f = first_free(t);
    let b = f + (k - 1) * n;
    assert(b + n == f + k * n) by (nonlinear_arith)
        requires
            b == f + (k - 1) * n,
    ;
    lemma_max_nonneg(t);
    assert(b >= 1) by (nonlinear_arith)
        requires
            b == f + (k - 1) * n,
            f >= 1,
            k >= 1,
            n >= 0,
    ;
    law_duplicate_indexes_sequential(t, b);
    let s = indexes_of(group_copy(t, k));
    assert forall|p: int, q: int| 0 <= p < q < s.len() implies s[p] != s[q] by {
        assert(s[p] == b + p);
        assert(s[q] == b + q);
    }
    if s.contains(x) {
        let p = choose|p: int| 0 <= p < s.len() && s[p] == x;
        assert(s[p] == b + p);
    }
}

/// Every block of `generate_groups`' output has its own `Index` when the
/// template's indexes are distinct: copies get fresh ranges above the
/// template's highest index, and the wrapper comes after them all.
pub proof fn law_generated_indexes_unique(t: EntityModel, count: int)
    requires
        indexes_of(t).no_duplicates(),
        count <= 1 || wrapper_index(t, count) <= i32::MAX,
    ensures
        indexes_of(generated(t, count)).no_duplicates(),
{
    if count > 1 {
        let n = index_count(t);
        let f = first_free(t);
        let w = wrapper_index(t, count);
        let g = generated(t, count);
        let cs = g.children;
        lemma_indexes_below_max(t);
        assert(n >= 0);
        assert((count - 1) * n >= 0) by (nonlinear_arith)
            requires
                count > 1,
                n >= 0,
        ;
        if n > 0 {
            assert((count - 1) * n >= 1) by (nonlinear_arith)
                requires
                    count > 1,
                    n > 0,
            ;
            assert(f == max_index_of(t) + 1);
        }
        assert forall|j: int| 0 <= j < cs.len() implies (#[trigger] indexes_of(cs[j])).no_duplicates() by {
            if j > 0 {
                assert(f + j * n <= f + (count - 1) * n + n) by (nonlinear_arith)
                    requires
                        j < count,
                        n >= 0,
                ;
                assert(f + (count - 1) * n + n <= i32::MAX + n);
                assert(f + j * n <= i32::MAX + 1) by (nonlinear_arith)
                    requires
                        j <= count - 1,
                        n >= 0,
                        f + (count - 1) * n <= i32::MAX,
                ;
                lemma_copy_range(t, j, 0);
            }
        }
        assert forall|i: int, j: int, x: i32|
            0 <= i < j < cs.len() && #[trigger] indexes_of(cs[i]).contains(x) implies !(#[trigger] indexes_of(cs[j]).contains(x)) by {
            assert(f + j * n <= i32::MAX + 1) by (nonlinear_arith)
                requires
                    j <= count - 1,
                    n >= 0,
                    f + (count - 1) * n <= i32::MAX,
            ;
            if indexes_of(cs[j]).contains(x) {
                lemma_copy_range(t, j, x);
                assert(f + (j - 1) * n <= x);
                if i == 0 {
                    let p = choose|p: int| 0 <= p < indexes_of(t).len() && indexes_of(t)[p] == x;
                    assert(x <= max_index_of(t));
                    assert(n > 0);
                } else {
                    assert(f + i * n <= i32::MAX + 1) by (nonlinear_arith)
                        requires
                            i <= count - 1,
                            n >= 0,
                            f + (count - 1) * n <= i32::MAX,
                    ;
                    lemma_copy_range(t, i, x);
                    assert(f + i * n <= f + (j - 1) * n) by (nonlinear_arith)
                        requires
                            i <= j - 1,
                            n >= 0,
                    ;
                }
            }
        }
        lemma_indexes_in_unique(cs);
        let rest = indexes_in(cs);
        assert(!rest.contains(w as i32)) by {
            if rest.contains(w as i32) {
                let j = choose|j: int| 0 <= j < cs.len() && #[trigger] indexes_of(cs[j]).contains(w as i32);
                if j == 0 {
                    let p = choose|p: int| 0 <= p < indexes_of(t).len() && indexes_of(t)[p] == w as i32;
                    assert(n > 0);
                } else {
                    assert(f + j * n <= i32::MAX + 1) by (nonlinear_arith)
                        requires
                            j <= count - 1,
                            n >= 0,
                            f + (count - 1) * n <= i32::MAX,
                    ;
                    lemma_copy_range(t, j, w as i32);
                    assert(f + j * n <= f + (count - 1) * n) by (nonlinear_arith)
                        requires
                            j <= count - 1,
                            n >= 0,
                    ;
                }
            }
        }
        let all = indexes_of(g);
        assert(all == seq![w as i32] + rest);
        assert forall|p: int, q: int| 0 <= p < q < all.len() implies all[p] != all[q] by {
            if p == 0 {
                assert(all[q] == rest[q - 1]);
                assert(rest.contains(rest[q - 1]));
            } else {
                assert(all[p] == rest[p - 1]);
                assert(all[q] == rest[q - 1]);
            }
        }
    }
}

// ---------------------------------------------------------------------------
// Laws of reconnection and overrides
// ---------------------------------------------------------------------------

/// Reconnecting rewrites every MCU link property of a block: a `LinkTrId`,
/// `MisObjID`, `TarId` or `CmdId` whose value is the decimal text of an id
/// `x` the map knows comes out, in the same place, as the decimal text of
/// the id `x` maps to.
pub proof fn law_relinked_pointer_props(e: EntityModel, m: Map<i32, i32>, k: int)
    requires
        0 <= k < e.properties.len(),
        e.properties[k].0 == "LinkTrId"@ || e.properties[k].0 == "MisObjID"@ || e.properties[k].0 == "TarId"@
            || e.properties[k].0 == "CmdId"@,
        parse_i32_spec(e.properties[k].1) is Some,
        m.contains_key(parse_i32_spec(e.properties[k].1)->0),
    ensures
        relinked(e, m).properties.len() == e.properties.len(),
        relinked(e, m).properties[k] == (
            e.properties[k].0,
            int_text(m[parse_i32_spec(e.properties[k].1)->0] as int),
        ),
{
    reveal_strlit("LinkTrId");
    reveal_strlit("MisObjID");
    reveal_strlit("TarId");
    reveal_strlit("CmdId");
    reveal_strlit("Targets");
    reveal_strlit("Objects");
    let key = e.properties[k].0;
    assert(key != "Targets"@ && key != "Objects"@) by {
        assert("Targets"@.len() == 7 && "Objects"@.len() == 7);
        assert("LinkTrId"@.len() == 8 && "MisObjID"@.len() == 8 && "TarId"@.len() == 5 && "CmdId"@.len() == 5);
    }
    let t = relink_ids(e.targets, m);
    let o = relink_ids(e.objects, m);
    let p1 = prop_set_existing(e.properties, "Targets"@, int_array_text(t));
    let p2 = prop_set_existing(p1, "Objects"@, int_array_text(o));
    crate::ast::lemma_key_pos(e.properties, "Targets"@);
    crate::ast::lemma_key_pos(p1, "Objects"@);
    assert(p1[k] == e.properties[k]);
    assert(p2[k] == e.properties[k]);
    assert(relinked(e, m).properties == relink_props(p2, m));
}

/// Reconnecting keeps every other property of a block as it was (the
/// `Targets` / `Objects` texts aside), and reconnects every child block in
/// place.
pub proof fn law_relinked_keeps_the_rest(e: EntityModel, m: Map<i32, i32>, k: int)
    requires
        0 <= k < e.properties.len(),
        e.properties[k].0 != "LinkTrId"@,
        e.properties[k].0 != "MisObjID"@,
        e.properties[k].0 != "TarId"@,
        e.properties[k].0 != "CmdId"@,
        e.properties[k].0 != "Targets"@,
        e.properties[k].0 != "Objects"@,
    ensures
        relinked(e, m).properties[k] == e.properties[k],
        relinked(e, m).block_type == e.block_type,
        relinked(e, m).index == e.index,
        relinked(e, m).children.len() == e.children.len(),
        forall|c: int| 0 <= c < e.children.len() ==> #[trigger] relinked(e, m).children[c] == relinked(e.children[c], m),
{
    let t = relink_ids(e.targets, m);
    let o = relink_ids(e.objects, m);
    let p1 = prop_set_existing(e.properties, "Targets"@, int_array_text(t));
    let p2 = prop_set_existing(p1, "Objects"@, int_array_text(o));
    crate::ast::lemma_key_pos(e.properties, "Targets"@);
    crate::ast::lemma_key_pos(p1, "Objects"@);
    assert(p1[k] == e.properties[k]);
    assert(p2[k] == e.properties[k]);
    assert(relinked(e, m).properties == relink_props(p2, m));
}

/// Overriding the coalition sets `Country` on a `Plane`, a `Vehicle` or a
/// `Ship` to the coalition's decimal text, whatever the aircraft path.
pub proof fn law_overrides_set_country(e: EntityModel, path: Seq<char>, coalition: i32)
    requires
        e.block_type == "Plane"@ || e.block_type == "Vehicle"@ || e.block_type == "Ship"@,
    ensures
        crate::ast::prop_get(overridden(e, path, coalition).properties, "Country"@) == Some(
            int_text(coalition as int),
        ),
        overridden(e, path, coalition).children.len() == e.children.len(),
        forall|c: int|
            0 <= c < e.children.len() ==> #[trigger] overridden(e, path, coalition).children[c] == overridden(
                e.children[c],
                path,
                coalition,
            ),
{
    reveal_strlit("Country");
    reveal_strlit("Script");
    reveal_strlit("Model");
    let p1 = prop_set(e.properties, "Country"@, int_text(coalition as int));
    crate::bombers::exclusive::lemma_prop_get_same(e.properties, "Country"@, int_text(coalition as int));
    if e.block_type == "Plane"@ {
        match script_and_model(path) {
            Some(sm) => {
                assert("Script"@ != "Country"@) by {
                    assert("Script"@.len() != "Country"@.len());
                }
                assert("Model"@ != "Country"@) by {
                    assert("Model"@.len() != "Country"@.len());
                }
                let p2 = prop_set(p1, "Script"@, quoted(sm.0));
                crate::airfield::cleaned::lemma_prop_get_other(p1, "Script"@, quoted(sm.0), "Country"@);
                crate::airfield::cleaned::lemma_prop_get_other(p2, "Model"@, quoted(sm.1), "Country"@);
            },
            None => {},
        }
    }
}

/// Overriding leaves every block other than a `Plane`, a `Vehicle` or a
/// `Ship` with the properties it had, and overrides its children in place.
pub proof fn law_overrides_leave_others(e: EntityModel, path: Seq<char>, coalition: i32)
    requires
        e.block_type != "Plane"@,
        e.block_type != "Vehicle"@,
        e.block_type != "Ship"@,
    ensures
        overridden(e, path, coalition).properties == e.properties,
        overridden(e, path, coalition).children.len() == e.children.len(),
        forall|c: int|
            0 <= c < e.children.len() ==> #[trigger] overridden(e, path, coalition).children[c] == overridden(
                e.children[c],
                path,
                coalition,
            ),
{
}

} // verus!
