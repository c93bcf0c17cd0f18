//! Placed Random Ground Units packs: recognising one, counting its copies,
//! and merging the copies of several packs into a fresh one.

use vstd::prelude::*;
use crate::ast::{EntityModel, Il2Entity, indexes_in, indexes_of, lemma_children_model, name_of, prop_set};
use crate::duplicate::{duplicate_template, duplicated, index_count, law_duplicate_indexes_sequential};
use crate::bombers::name_or;

use crate::recon::{bracket_end, copy_type_name, copy_type_of, star_end, strip_bracket, strip_star};
use crate::text::{chars_of, dec_text, int_text, int_to_string, owned, push_dec, starts_with, str_eq};

verus! {

// ---------------------------------------------------------------------------
// Recognising a pack
// ---------------------------------------------------------------------------

/// A placed copy: a `Group` other than the Recon Randomizer.
pub open spec fn is_placed_copy(e: EntityModel) -> bool {
    e.block_type == "Group"@ && name_of(e) != Some("Recon Randomizer"@)
}

/// The placed copies among `cs`, in order.
pub open spec fn copies_of(cs: Seq<EntityModel>) -> Seq<EntityModel>
    decreases cs.len(),
{
    if cs.len() == 0 {
        seq![]
    } else {
        let rest = copies_of(cs.drop_last());
        if is_placed_copy(cs.last()) {
            rest.push(cs.last())
        } else {
            rest
        }
    }
}

/// A copy whose raw name ends in an editor `*N*` or a generator `[N]`.
pub open spec fn is_numbered(e: EntityModel) -> bool {
    match name_of(e) {
        Some(n) => strip_star(n) is Some || strip_bracket(n) is Some,
        None => false,
    }
}

pub open spec fn count_numbered(cs: Seq<EntityModel>) -> int
    decreases cs.len(),
{
    if cs.len() == 0 {
        0
    } else {
        count_numbered(cs.drop_last()) + if is_numbered(cs.last()) { 1int } else { 0int }
    }
}

/// Template name of a copy (`Unit` when it has no name).
pub open spec fn type_of_copy(e: EntityModel) -> Seq<char> {
    copy_type_of(name_or(e, "Unit"@))
}

/// Two copies of `cs` share a template name.
pub open spec fn repeated_type(cs: Seq<EntityModel>) -> bool {
    exists|i: int, j: int| 0 <= i < j < cs.len() && #[trigger] type_of_copy(cs[i]) == #[trigger] type_of_copy(cs[j])
}

/// `e` itself is a pack: named `Random Ground Units…`, holding a Recon
/// Randomizer, holding two numbered copies, or two copies of one template.
pub open spec fn looks_placed(e: EntityModel) -> bool {
    let copies = copies_of(e.children);
    ||| (name_of(e) matches Some(n) && starts_with(n, "Random Ground Units"@))
    ||| (exists|i: int| 0 <= i < e.children.len() && name_of(#[trigger] e.children[i]) == Some("Recon Randomizer"@))
    ||| count_numbered(copies) >= 2
    ||| repeated_type(copies)
}

pub open spec fn group_count(cs: Seq<EntityModel>) -> int
    decreases cs.len(),
{
    if cs.len() == 0 {
        0
    } else {
        group_count(cs.drop_last()) + if cs.last().block_type == "Group"@ { 1int } else { 0int }
    }
}

/// Position of the last `Group` child (-1 when there is none).
pub open spec fn last_group(cs: Seq<EntityModel>) -> int
    decreases cs.len(),
{
    if cs.len() == 0 {
        -1
    } else if cs.last().block_type == "Group"@ {
        cs.len() - 1
    } else {
        last_group(cs.drop_last())
    }
}

/// The pack inside `e`: `e` itself, else (through editor wrappers) the pack
/// inside its only child group.
pub open spec fn placed_root_of(e: EntityModel) -> EntityModel
    decreases e,
{
    if looks_placed(e) {
        e
    } else if group_count(e.children) == 1 && 0 <= last_group(e.children) < e.children.len() {
        placed_root_of(e.children[last_group(e.children)])
    } else {
        e
    }
}

pub(crate) fn placed_copy(e: &Il2Entity) -> (r: bool)
    ensures
        r == is_placed_copy(e@),
{
    if !str_eq(e.block_type.as_str(), "Group") {
        return false;
    }
    match e.name() {
        Some(n) => !str_eq(n, "Recon Randomizer"),
        None => true,
    }
}

/// The placed copies among the children of `root`.
fn top_level_copies<'a>(root: &'a Il2Entity) -> (r: Vec<&'a Il2Entity>)
    ensures
        r@.map_values(|c: &Il2Entity| c@) == copies_of(root@.children),
{
    proof {
        lemma_children_model(*root);
    }
    let ghost cs = root@.children;
    let mut out: Vec<&'a Il2Entity> = Vec::new();
    let mut i: usize = 0;
    while i < root.children.len()
        invariant
            i <= root.children@.len(),
            cs == root@.children,
            cs.len() == root.children@.len(),
            forall|j: int| 0 <= j < cs.len() ==> #[trigger] cs[j] == root.children@[j]@,
            out@.map_values(|c: &Il2Entity| c@) == copies_of(cs.take(i as int)),
        decreases root.children@.len() - i,
    {
        let c = &root.children[i];
        proof {
            assert(cs.take(i + 1).drop_last() =~= cs.take(i as int));
            assert(cs.take(i + 1).last() == c@);
        }
        let ghost before = out@;
        if placed_copy(c) {
            out.push(c);
            proof {
                assert(out@.map_values(|c: &Il2Entity| c@) =~= before.map_values(|c: &Il2Entity| c@).push(c@));
            }
        }
        i = i + 1;
    }
    proof {
        assert(cs.take(i as int) =~= cs);
    }
    out
}

fn numbered(e: &Il2Entity) -> (r: bool)
    ensures
        r == is_numbered(e@),
{
    match e.name() {
        Some(n) => {
            let cs = chars_of(n);
            let len = cs.len();
            proof {
                assert(cs@.subrange(0, len as int) =~= n@);
            }
            star_end(&cs, 0, len).is_some() || bracket_end(&cs, 0, len).is_some()
        },
        None => false,
    }
}

pub(crate) fn copy_type(e: &Il2Entity) -> (r: String)
    ensures
        r@ == type_of_copy(e@),
{
    let n = match e.name() {
        Some(n) => n,
        None => "Unit",
    };
    copy_type_name(n)
}

/// Whether two of `types` are equal.
fn has_repeat(types: &Vec<String>) -> (r: bool)
    ensures
        r == exists|i: int, j: int| 0 <= i < j < types@.len() && #[trigger] types@[i]@ == #[trigger] types@[j]@,
{
    let mut i: usize = 0;
    while i < types.len()
        invariant
            i <= types@.len(),
            forall|a: int, b: int| 0 <= a < b < types@.len() && a < i ==> #[trigger] types@[a]@ != #[trigger] types@[b]@,
        decreases types@.len() - i,
    {
        let mut j: usize = i + 1;
        while j < types.len()
            invariant
                i < types@.len(),
                i + 1 <= j <= types@.len(),
                forall|a: int, b: int| 0 <= a < b < types@.len() && a < i ==> #[trigger] types@[a]@ != #[trigger] types@[b]@,
                forall|b: int| i < b < j ==> types@[i as int]@ != #[trigger] types@[b]@,
            decreases types@.len() - j,
        {
            if str_eq(types[i].as_str(), types[j].as_str()) {
                return true;
            }
            j = j + 1;
        }
        i = i + 1;
    }
    false
}

pub(crate) fn looks_like_pack_here(root: &Il2Entity) -> (r: bool)
    ensures
        r == looks_placed(root@),
{
    let named = match root.name() {
        Some(n) => {
            let cs = chars_of(n);
            let pre = chars_of("Random Ground Units");
            cs.len() >= pre.len() && crate::text::matches_at(&cs, 0, &pre)
        },
        None => false,
    };
    if named {
        return true;
    }
    proof {
        lemma_children_model(*root);
    }
    let ghost cs = root@.children;
    let mut k: usize = 0;
    while k < root.children.len()
        invariant
            k <= root.children@.len(),
            cs == root@.children,
            cs.len() == root.children@.len(),
            forall|j: int| 0 <= j < cs.len() ==> #[trigger] cs[j] == root.children@[j]@,
            forall|j: int| 0 <= j < k ==> name_of(#[trigger] cs[j]) != Some("Recon Randomizer"@),
        decreases root.children@.len() - k,
    {
        assert(cs[k as int] == root.children@[k as int]@);
        let hit = match root.children[k].name() {
            Some(n) => str_eq(n, "Recon Randomizer"),
            None => false,
        };
        if hit {
            return true;
        }
        k = k + 1;
    }
    let copies = top_level_copies(root);
    let ghost cv = copies@.map_values(|c: &Il2Entity| c@);
    let mut count: usize = 0;
    let mut types: Vec<String> = Vec::new();
    let mut i: usize = 0;
    while i < copies.len()
        invariant
            i <= copies@.len(),
            cv == copies@.map_values(|c: &Il2Entity| c@),
            count as int == count_numbered(cv.take(i as int)),
            count <= i,
            types@.len() == i,
            forall|j: int| 0 <= j < i ==> #[trigger] types@[j]@ == type_of_copy(cv[j]),
        decreases copies@.len() - i,
    {
        let c = copies[i];
        proof {
            assert(cv.take(i + 1).drop_last() =~= cv.take(i as int));
            assert(cv.take(i + 1).last() == c@);
        }
        if numbered(c) {
            count = count + 1;
        }
        types.push(copy_type(c));
        i = i + 1;
    }
    proof {
        assert(cv.take(i as int) =~= cv);
    }
    if count >= 2 {
        return true;
    }
    let rep = has_repeat(&types);
    proof {
        if rep {
            let (a, b) = choose|a: int, b: int| 0 <= a < b < types@.len() && #[trigger] types@[a]@ == #[trigger] types@[b]@;
            assert(type_of_copy(cv[a]) == type_of_copy(cv[b]));
        } else {
            assert forall|a: int, b: int| 0 <= a < b < cv.len() implies #[trigger] type_of_copy(cv[a]) != #[trigger] type_of_copy(cv[b]) by {
                assert(types@[a]@ == type_of_copy(cv[a]));
                assert(types@[b]@ == type_of_copy(cv[b]));
            }
        }
    }
    rep
}

/// The pack inside `root` (see [`placed_root_of`]).
fn pack_root(root: &Il2Entity) -> (r: &Il2Entity)
    ensures
        r@ == placed_root_of(root@),
    decreases root,
{
    if looks_like_pack_here(root) {
        return root;
    }
    proof {
        lemma_children_model(*root);
    }
    let ghost cs = root@.children;
    let mut groups: usize = 0;
    let mut last: usize = 0;
    let mut i: usize = 0;
    while i < root.children.len()
        invariant
            i <= root.children@.len(),
            cs == root@.children,
            cs.len() == root.children@.len(),
            forall|j: int| 0 <= j < cs.len() ==> #[trigger] cs[j] == root.children@[j]@,
            groups as int == group_count(cs.take(i as int)),
            groups <= i,
            groups > 0 ==> last < i && last as int == last_group(cs.take(i as int)),
            groups == 0 ==> last_group(cs.take(i as int)) == -1,
            !looks_placed(root@),
        decreases root.children@.len() - i,
    {
        proof {
            assert(cs.take(i + 1).drop_last() =~= cs.take(i as int));
            assert(cs.take(i + 1).last() == cs[i as int]);
        }
        if str_eq(root.children[i].block_type.as_str(), "Group") {
            groups = groups + 1;
            last = i;
        }
        i = i + 1;
    }
    proof {
        assert(cs.take(i as int) =~= cs);
    }
    if groups == 1 {
        assert(cs[last as int] == root.children@[last as int]@);
        return pack_root(&root.children[last]);
    }
    root
}

/// True for a Random Ground Units pack, including editor-exported `*N*`
/// names.
pub fn looks_like_placed_pack(root: &Il2Entity) -> (r: bool)
    ensures
        r == looks_placed(placed_root_of(root@)),
{
    looks_like_pack_here(pack_root(root))
}

/// Top-level copies in a Random Ground Units pack.
pub fn placed_copy_count(root: &Il2Entity) -> (r: usize)
    ensures
        r as int == copies_of(placed_root_of(root@).children).len(),
{
    let copies = top_level_copies(pack_root(root));
    copies.len()
}

// ---------------------------------------------------------------------------
// Combining packs
// ---------------------------------------------------------------------------

/// The copies of `cs` whose template name is listed in `keep`.
pub open spec fn kept_in(cs: Seq<EntityModel>, keep: Seq<Seq<char>>) -> Seq<EntityModel>
    decreases cs.len(),
{
    if cs.len() == 0 {
        seq![]
    } else {
        let rest = kept_in(cs.drop_last(), keep);
        if keep.contains(type_of_copy(cs.last())) {
            rest.push(cs.last())
        } else {
            rest
        }
    }
}

/// The kept copies of every pack, pack after pack.
pub open spec fn kept_copies(roots: Seq<EntityModel>, keep: Seq<Seq<char>>) -> Seq<EntityModel>
    decreases roots.len(),
{
    if roots.len() == 0 {
        seq![]
    } else {
        kept_copies(roots.drop_last(), keep) + kept_in(copies_of(placed_root_of(roots.last()).children), keep)
    }
}

/// Number of indexed blocks in all of `cs`.
pub open spec fn index_total(cs: Seq<EntityModel>) -> int
    decreases cs.len(),
{
    if cs.len() == 0 {
        0
    } else {
        index_total(cs.drop_last()) + index_count(cs.last())
    }
}

/// Each of `cs` duplicated with indexes handed out back to back from `next`.
pub open spec fn dup_chain(cs: Seq<EntityModel>, next: int) -> Seq<EntityModel>
    decreases cs.len(),
{
    if cs.len() == 0 {
        seq![]
    } else {
        dup_chain(cs.drop_last(), next).push(duplicated(cs.last(), next + index_total(cs.drop_last())))
    }
}

/// The group that holds the combined copies: `Index` one past the copies'
/// indexes, named `Random Ground Units N`, empty `Desc`.
pub open spec fn combined_pack(kept: Seq<EntityModel>) -> EntityModel {
    let next = 1 + index_total(kept);
    EntityModel {
        block_type: "Group"@,
        index: Some(next as i32),
        targets: seq![],
        objects: seq![],
        properties: prop_set(
            prop_set(
                prop_set(seq![], "Index"@, int_text(next)),
                "Name"@,
                seq!['"'] + "Random Ground Units "@ + dec_text(kept.len()) + seq!['"'],
            ),
            "Desc"@,
            "\"\""@,
        ),
        children: dup_chain(kept, 1),
    }
}

proof fn lemma_index_total_prefix(s: Seq<EntityModel>, k: int)
    requires
        0 <= k <= s.len(),
    ensures
        0 <= index_total(s.take(k)) <= index_total(s),
    decreases s.len(),
{
    if k == s.len() {
        assert(s.take(k) =~= s);
        if s.len() > 0 {
            lemma_index_total_prefix(s.drop_last(), k - 1);
            assert(s.drop_last().take(k - 1) =~= s.drop_last());
        }
    } else {
        lemma_index_total_prefix(s.drop_last(), k);
        assert(s.drop_last().take(k) =~= s.take(k));
    }
}

fn keeps(keep_types: &[String], ty: &String) -> (r: bool)
    ensures
        r == keep_types@.map_values(|s: String| s@).contains(ty@),
{
    let ghost keep = keep_types@.map_values(|s: String| s@);
    let mut i: usize = 0;
    while i < keep_types.len()
        invariant
            i <= keep_types@.len(),
            keep == keep_types@.map_values(|s: String| s@),
            forall|j: int| 0 <= j < i ==> #[trigger] keep[j] != ty@,
        decreases keep_types@.len() - i,
    {
        if str_eq(keep_types[i].as_str(), ty.as_str()) {
            assert(keep[i as int] == ty@);
            return true;
        }
        i = i + 1;
    }
    false
}

/// Merge placed copies from several packs into one group. Indexes are
/// unique. Copies whose template is not in `keep_types` are dropped.
/// Existing randomizers are not copied.
pub fn combine_placed_packs(roots: &[Il2Entity], keep_types: &[String]) -> (r: Result<Il2Entity, String>)
    requires
        1 + index_total(
            kept_copies(roots@.map_values(|e: Il2Entity| e@), keep_types@.map_values(|s: String| s@)),
        ) <= i32::MAX,
    ensures
        ({
            let kept = kept_copies(roots@.map_values(|e: Il2Entity| e@), keep_types@.map_values(|s: String| s@));
            if roots@.len() == 0 {
                r matches Err(e) && e@ == "load at least one placed pack"@
            } else if kept.len() == 0 {
                r matches Err(e) && e@ == "no unit groups to keep from the loaded packs"@
            } else {
                r matches Ok(g) && g@ == combined_pack(kept)
            }
        }),
{
    if roots.len() == 0 {
        return Err(owned("load at least one placed pack"));
    }
    let ghost rs = roots@.map_values(|e: Il2Entity| e@);
    let ghost keep = keep_types@.map_values(|s: String| s@);
    let mut picked: Vec<&Il2Entity> = Vec::new();
    let mut i: usize = 0;
    while i < roots.len()
        invariant
            i <= roots@.len(),
            rs == roots@.map_values(|e: Il2Entity| e@),
            keep == keep_types@.map_values(|s: String| s@),
            picked@.map_values(|c: &Il2Entity| c@) == kept_copies(rs.take(i as int), keep),
        decreases roots@.len() - i,
    {
        let copies = top_level_copies(pack_root(&roots[i]));
        let ghost cv = copies@.map_values(|c: &Il2Entity| c@);
        let ghost before = picked@.map_values(|c: &Il2Entity| c@);
        proof {
            assert(before + kept_in(cv.take(0), keep) =~= before);
        }
        let mut j: usize = 0;
        while j < copies.len()
            invariant
                j <= copies@.len(),
                cv == copies@.map_values(|c: &Il2Entity| c@),
                keep == keep_types@.map_values(|s: String| s@),
                picked@.map_values(|c: &Il2Entity| c@) == before + kept_in(cv.take(j as int), keep),
            decreases copies@.len() - j,
        {
            let c = copies[j];
            proof {
                assert(cv.take(j + 1).drop_last() =~= cv.take(j as int));
                assert(cv.take(j + 1).last() == c@);
            }
            let ty = copy_type(c);
            let ghost pv = picked@;
            if keeps(keep_types, &ty) {
                picked.push(c);
                proof {
                    assert(picked@.map_values(|c: &Il2Entity| c@) =~= pv.map_values(|c: &Il2Entity| c@).push(c@));
                    assert(before + kept_in(cv.take(j as int), keep).push(c@) =~= (before + kept_in(cv.take(j as int), keep)).push(c@));
                }
            }
            j = j + 1;
        }
        proof {
            assert(cv.take(j as int) =~= cv);
            assert(rs.take(i + 1).drop_last() =~= rs.take(i as int));
            assert(rs.take(i + 1).last() == roots@[i as int]@);
        }
        i = i + 1;
    }
    proof {
        assert(rs.take(i as int) =~= rs);
    }
    if picked.len() == 0 {
        return Err(owned("no unit groups to keep from the loaded packs"));
    }
    let ghost kept = picked@.map_values(|c: &Il2Entity| c@);
    let mut next_id: i32 = 1;
    let mut children: Vec<Il2Entity> = Vec::new();
    let mut k: usize = 0;
    proof {
        assert(kept.take(0) =~= Seq::<EntityModel>::empty());
        assert(children@.map_values(|c: Il2Entity| c@) =~= dup_chain(kept.take(0), 1));
    }
    while k < picked.len()
        invariant
            k <= picked@.len(),
            kept == picked@.map_values(|c: &Il2Entity| c@),
            kept.len() == picked@.len(),
            1 + index_total(kept) <= i32::MAX,
            next_id as int == 1 + index_total(kept.take(k as int)),
            children@.map_values(|c: Il2Entity| c@) == dup_chain(kept.take(k as int), 1),
        decreases picked@.len() - k,
    {
        proof {
            lemma_index_total_prefix(kept, k + 1);
            assert(kept.take(k + 1).drop_last() =~= kept.take(k as int));
            assert(kept.take(k + 1).last() == picked@[k as int]@);
        }
        let ghost cv = children@;
        let (cloned, _) = duplicate_template(picked[k], &mut next_id);
        children.push(cloned);
        proof {
            assert(children@.map_values(|c: Il2Entity| c@) =~= cv.map_values(|c: Il2Entity| c@).push(cloned@));
        }
        k = k + 1;
    }
    proof {
        assert(kept.take(k as int) =~= kept);
    }
    let n = picked.len();
    let mut out = Il2Entity::new("Group");
    out.index = Some(next_id);
    let idx_text = int_to_string(next_id as i64);
    out.set_property("Index", idx_text.as_str());
    let mut name = owned("Random Ground Units ");
    push_dec(&mut name, n as u64);
    out.set_name(name.as_str());
    out.set_property("Desc", "\"\"");
    out.children = children;
    proof {
        lemma_children_model(out);
        let want = combined_pack(kept);
        assert(out@.children =~= want.children);
        assert(out@.index == want.index);
        assert(out@.block_type == want.block_type);
        assert(out@.targets == want.targets);
        assert(out@.objects == want.objects);
        assert(name@ == "Random Ground Units "@ + dec_text(kept.len()));
        assert(seq!['"'] + name@ + seq!['"'] =~= seq!['"'] + "Random Ground Units "@ + dec_text(kept.len()) + seq!['"']);
        assert(idx_text@ == int_text(1 + index_total(kept)));
        assert(out@.properties == want.properties);
        assert(kept == kept_copies(roots@.map_values(|e: Il2Entity| e@), keep_types@.map_values(|s: String| s@)));
    }
    Ok(out)
}

// ---------------------------------------------------------------------------
// Indexes of a combined pack
// ---------------------------------------------------------------------------

pub proof fn lemma_indexes_in_push(s: Seq<EntityModel>, x: EntityModel)
    ensures
        indexes_in(s.push(x)) == indexes_in(s) + indexes_of(x),
    decreases s.len(),
{
    if s.len() == 0 {
        let t = s.push(x);
        assert(t.drop_first() =~= Seq::<EntityModel>::empty());
        assert(indexes_in(t.drop_first()) =~= Seq::<i32>::empty());
        assert(t[0] == x);
        assert(indexes_in(t) =~= indexes_of(x));
        assert(indexes_in(s) =~= Seq::<i32>::empty());
    } else {
        assert(s.push(x).drop_first() =~= s.drop_first().push(x));
        lemma_indexes_in_push(s.drop_first(), x);
        assert(indexes_in(s.push(x)) =~= indexes_in(s) + indexes_of(x));
    }
}

proof fn lemma_dup_chain_indexes(cs: Seq<EntityModel>, next: int)
    requires
        i32::MIN <= next,
        next + index_total(cs) <= i32::MAX + 1,
    ensures
        indexes_in(dup_chain(cs, next)).len() == index_total(cs),
        forall|k: int| 0 <= k < index_total(cs) ==> #[trigger] indexes_in(dup_chain(cs, next))[k] == next + k,
    decreases cs.len(),
{
    if cs.len() == 0 {
        assert(indexes_in(dup_chain(cs, next)) =~= Seq::<i32>::empty());
    } else {
        let dl = cs.drop_last();
        lemma_index_total_prefix(cs, cs.len() - 1);
        assert(cs.take(cs.len() - 1) =~= dl);
        lemma_dup_chain_indexes(dl, next);
        let at = next + index_total(dl);
        law_duplicate_indexes_sequential(cs.last(), at);
        lemma_indexes_in_push(dup_chain(dl, next), duplicated(cs.last(), at));
        let all = indexes_in(dup_chain(cs, next));
        assert forall|k: int| 0 <= k < index_total(cs) implies #[trigger] all[k] == next + k by {
            if k >= index_total(dl) {
                assert(all[k] == indexes_of(duplicated(cs.last(), at))[k - index_total(dl)]);
            }
        }
    }
}

/// Every block of a combined pack has an `Index` of its own: the copies
/// count up from 1 and the holding group takes the next one.
pub proof fn law_combined_indexes_unique(kept: Seq<EntityModel>)
    requires
        1 + index_total(kept) <= i32::MAX,
    ensures
        indexes_of(combined_pack(kept)).no_duplicates(),
{
    lemma_index_total_prefix(kept, kept.len() as int);
    assert(kept.take(kept.len() as int) =~= kept);
    lemma_dup_chain_indexes(kept, 1);
    let g = combined_pack(kept);
    let all = indexes_of(g);
    let inner = indexes_in(dup_chain(kept, 1));
    assert(all == seq![(1 + index_total(kept)) as i32] + inner);
    assert forall|a: int, b: int| 0 <= a < all.len() && 0 <= b < all.len() && a != b implies all[a] != all[b] by {
        if a > 0 {
            assert(all[a] == inner[a - 1]);
        }
        if b > 0 {
            assert(all[b] == inner[b - 1]);
        }
    }
}

// ---------------------------------------------------------------------------
// Removing the randomizer
// ---------------------------------------------------------------------------

pub open spec fn is_randomizer(e: EntityModel) -> bool {
    name_of(e) == Some("Recon Randomizer"@)
}

/// `e` with every Recon Randomizer group removed, at any depth.
pub open spec fn without_randomizers(e: EntityModel) -> EntityModel
    decreases e,
{
    EntityModel { children: strip_list(e.children), ..e }
}

/// The children that are not randomizers, each stripped in turn.
pub open spec fn strip_list(cs: Seq<EntityModel>) -> Seq<EntityModel>
    decreases cs,
{
    if cs.len() == 0 {
        seq![]
    } else {
        let rest = strip_list(cs.drop_last());
        if is_randomizer(cs.last()) {
            rest
        } else {
            rest.push(without_randomizers(cs.last()))
        }
    }
}

/// How many randomizer groups `without_randomizers` removes.
pub open spec fn removed_count(e: EntityModel) -> int
    decreases e,
{
    removed_in(e.children)
}

pub open spec fn removed_in(cs: Seq<EntityModel>) -> int
    decreases cs,
{
    if cs.len() == 0 {
        0
    } else {
        removed_in(cs.drop_last()) + if is_randomizer(cs.last()) { 1 } else { removed_count(cs.last()) }
    }
}

proof fn lemma_removed_nonneg(e: EntityModel)
    ensures
        removed_count(e) >= 0,
    decreases e,
{
    lemma_removed_in_nonneg(e.children);
}

proof fn lemma_removed_in_nonneg(cs: Seq<EntityModel>)
    ensures
        removed_in(cs) >= 0,
    decreases cs,
{
    if cs.len() > 0 {
        lemma_removed_in_nonneg(cs.drop_last());
        lemma_removed_nonneg(cs.last());
    }
}

proof fn lemma_removed_in_prefix(cs: Seq<EntityModel>, k: int)
    requires
        0 <= k <= cs.len(),
    ensures
        removed_in(cs.take(k)) <= removed_in(cs),
    decreases cs.len(),
{
    if k == cs.len() {
        assert(cs.take(k) =~= cs);
    } else {
        lemma_removed_in_prefix(cs.drop_last(), k);
        assert(cs.drop_last().take(k) =~= cs.take(k));
        lemma_removed_nonneg(cs.last());
    }
}

fn randomizer(e: &Il2Entity) -> (r: bool)
    ensures
        r == is_randomizer(e@),
{
    match e.name() {
        Some(n) => str_eq(n, "Recon Randomizer"),
        None => false,
    }
}

/// Remove every `Recon Randomizer` group. Placed unit copies stay where
/// they are. Returns how many groups were removed.
pub fn strip_randomizer(root: &mut Il2Entity) -> (r: usize)
    requires
        removed_count(old(root)@) <= usize::MAX,
    ensures
        final(root)@ == without_randomizers(old(root)@),
        r as int == removed_count(old(root)@),
    decreases *old(root),
{
    let ghost orig = *root;
    let ghost oc = orig.children@;
    let ghost om = orig@.children;
    proof {
        lemma_children_model(orig);
        lemma_removed_in_nonneg(om);
    }
    let mut n: usize = 0;
    let mut i: usize = 0;
    let ghost mut j: int = 0;
    while i < root.children.len()
        invariant
            0 <= i <= j <= oc.len(),
            oc == orig.children@,
            om == orig@.children,
            om.len() == oc.len(),
            forall|k: int| 0 <= k < oc.len() ==> #[trigger] om[k] == oc[k]@,
            root.children@.len() == i + (oc.len() - j),
            strip_list(om.take(j)).len() == i,
            forall|k: int| 0 <= k < i ==> #[trigger] root.children@[k]@ == strip_list(om.take(j))[k],
            forall|k: int| i <= k < root.children@.len() ==> #[trigger] root.children@[k] == oc[j + (k - i)],
            n as int == removed_in(om.take(j)),
            removed_in(om) <= usize::MAX,
            root.properties == orig.properties,
            root.targets == orig.targets,
            root.block_type == orig.block_type,
            root.index == orig.index,
            root.objects == orig.objects,
            orig == *old(root),
        decreases root.children@.len() - i,
    {
        proof {
            assert(om.take(j + 1).drop_last() =~= om.take(j));
            assert(om.take(j + 1).last() == om[j]);
            assert(root.children@[i as int] == oc[j]);
            lemma_removed_in_prefix(om, j + 1);
            lemma_removed_in_nonneg(om.take(j));
            lemma_removed_nonneg(om[j]);
        }
        if randomizer(&root.children[i]) {
            let ghost before = root.children@;
            root.children.remove(i);
            proof {
                assert forall|k: int| i <= k < root.children@.len() implies #[trigger] root.children@[k] == oc[(j + 1) + (k - i)] by {
                    assert(root.children@[k] == before[k + 1]);
                }
                assert forall|k: int| 0 <= k < i implies #[trigger] root.children@[k]@ == strip_list(om.take(j + 1))[k] by {
                    assert(root.children@[k] == before[k]);
                }
                j = j + 1;
            }
            n = n + 1;
        } else {
            proof {
                assert(decreases_to!(orig => orig.children));
                assert(decreases_to!(orig.children => orig.children@));
                assert(decreases_to!(orig.children@ => orig.children@[j]));
            }
            let ghost before = root.children@;
            let m = strip_randomizer(&mut root.children[i]);
            proof {
                assert forall|k: int| 0 <= k < i implies #[trigger] root.children@[k]@ == strip_list(om.take(j + 1))[k] by {
                    assert(root.children@[k] == before[k]);
                }
                assert forall|k: int| i + 1 <= k < root.children@.len() implies #[trigger] root.children@[k] == oc[(j + 1) + (k - (i + 1))] by {
                    assert(root.children@[k] == before[k]);
                }
                j = j + 1;
            }
            n = n + m;
            i = i + 1;
        }
    }
    proof {
        assert(j == oc.len());
        assert(om.take(j) =~= om);
        lemma_children_model(*root);
        assert(root@.children =~= strip_list(om));
    }
    n
}

proof fn lemma_strip_twice(e: EntityModel)
    ensures
        without_randomizers(without_randomizers(e)) == without_randomizers(e),
        removed_count(without_randomizers(e)) == 0,
    decreases e,
{
    lemma_strip_list_twice(e.children);
}

proof fn lemma_strip_list_twice(cs: Seq<EntityModel>)
    ensures
        strip_list(strip_list(cs)) == strip_list(cs),
        removed_in(strip_list(cs)) == 0,
    decreases cs,
{
    if cs.len() > 0 {
        lemma_strip_list_twice(cs.drop_last());
        let rest = strip_list(cs.drop_last());
        if !is_randomizer(cs.last()) {
            let x = without_randomizers(cs.last());
            lemma_strip_twice(cs.last());
            assert(rest.push(x).drop_last() =~= rest);
            assert(rest.push(x).last() == x);
            assert(name_of(x) == name_of(cs.last()));
        }
    }
}

/// Stripping twice is stripping once: a second `strip_randomizer` finds no
/// Recon Randomizer left and changes nothing.
pub proof fn law_second_strip_changes_nothing(e: EntityModel)
    ensures
        without_randomizers(without_randomizers(e)) == without_randomizers(e),
        removed_count(without_randomizers(e)) == 0,
{
    lemma_strip_twice(e);
}

proof fn lemma_dup_chain_len(cs: Seq<EntityModel>, next: int)
    ensures
        dup_chain(cs, next).len() == cs.len(),
    decreases cs.len(),
{
    if cs.len() > 0 {
        lemma_dup_chain_len(cs.drop_last(), next);
    }
}

/// A combined pack holds one copy for each kept copy of the loaded packs,
/// in order, each a duplicate of the kept copy, and is named after their
/// number.
pub proof fn law_combined_pack_holds_kept(kept: Seq<EntityModel>)
    ensures
        combined_pack(kept).children.len() == kept.len(),
        forall|i: int|
            0 <= i < kept.len() ==> #[trigger] combined_pack(kept).children[i] == duplicated(
                kept[i],
                1 + index_total(kept.take(i)),
            ),
    decreases kept.len(),
{
    lemma_dup_chain_len(kept, 1);
    if kept.len() > 0 {
        let init = kept.drop_last();
        law_combined_pack_holds_kept(init);
        assert forall|i: int| 0 <= i < kept.len() implies #[trigger] combined_pack(kept).children[i] == duplicated(
            kept[i],
            1 + index_total(kept.take(i)),
        ) by {
            if i < kept.len() - 1 {
                assert(combined_pack(kept).children[i] == dup_chain(init, 1)[i]);
                assert(combined_pack(init).children[i] == dup_chain(init, 1)[i]);
                assert(init[i] == kept[i]);
                assert(init.take(i) =~= kept.take(i));
            } else {
                assert(kept.take(i) =~= init);
            }
        }
    }
}

/// The combined pack is named after the number of copies it holds, and
/// holds exactly those copies.
pub proof fn law_combined_pack_name(kept: Seq<EntityModel>)
    ensures
        crate::ast::name_of(combined_pack(kept)) == Some("Random Ground Units "@ + dec_text(kept.len())),
        combined_pack(kept).children.len() == kept.len(),
{
    let n = "Random Ground Units "@ + dec_text(kept.len());
    reveal_strlit("Random Ground Units ");
    crate::text::lemma_dec_text(kept.len());
    let d = dec_text(kept.len());
    assert(n.last() == d[d.len() - 1]);
    assert(crate::text::is_ascii_digit(d[d.len() - 1]));
    let w = crate::bombers::link::wrapper(n, 1 + index_total(kept), dup_chain(kept, 1));
    assert(seq!['"'] + "Random Ground Units "@ + dec_text(kept.len()) + seq!['"'] =~= seq!['"'] + n + seq!['"']);
    assert(combined_pack(kept) =~= w);
    crate::bombers::exclusive::lemma_wrapper_name(n, 1 + index_total(kept), dup_chain(kept, 1));
    law_combined_pack_holds_kept(kept);
}

proof fn lemma_same_keys_get(a: crate::ast::Props, b: crate::ast::Props, k: Seq<char>)
    requires
        a.len() == b.len(),
        forall|j: int| 0 <= j < a.len() ==> (#[trigger] b[j]).0 == a[j].0,
        forall|j: int| 0 <= j < a.len() && a[j].0 == k ==> (#[trigger] b[j]).1 == a[j].1,
    ensures
        crate::ast::prop_get(a, k) == crate::ast::prop_get(b, k),
{
    crate::ast::lemma_key_pos(a, k);
    let p = crate::ast::key_pos(a, k);
    assert forall|j: int| 0 <= j < p implies #[trigger] b[j].0 != k by {
        assert(a[j].0 != k);
    }
    if p < a.len() {
        assert(b[p].0 == k);
    }
    crate::ast::lemma_key_pos_exact(b, k, p);
}

/// A duplicated block keeps its name.
proof fn lemma_duplicated_name(e: EntityModel, at: int)
    ensures
        name_of(duplicated(e, at)) == name_of(e),
{
    reveal_strlit("Index");
    reveal_strlit("Name");
    reveal_strlit("Targets");
    reveal_strlit("Objects");
    reveal_strlit("LinkTrId");
    reveal_strlit("MisObjID");
    reveal_strlit("TarId");
    reveal_strlit("CmdId");
    assert("Index"@ != "Name"@) by {
        assert("Index"@[0] != "Name"@[0]);
    }
    assert("Targets"@ != "Name"@) by {
        assert("Targets"@[0] != "Name"@[0]);
    }
    assert("Objects"@ != "Name"@) by {
        assert("Objects"@[0] != "Name"@[0]);
    }
    assert(!crate::duplicate::is_pointer_key("Name"@)) by {
        assert("LinkTrId"@[0] != "Name"@[0]);
        assert("MisObjID"@[0] != "Name"@[0]);
        assert("TarId"@[0] != "Name"@[0]);
        assert("CmdId"@[0] != "Name"@[0]);
    }
    let r = crate::duplicate::renumbered(e, at);
    if e.index is Some {
        crate::airfield::cleaned::lemma_prop_get_other(e.properties, "Index"@, int_text(at), "Name"@);
    }
    let m = crate::duplicate::id_map(e, at);
    let t = crate::duplicate::relink_ids(r.targets, m);
    let o = crate::duplicate::relink_ids(r.objects, m);
    let p1 = r.properties;
    let p2 = crate::ast::prop_set_existing(p1, "Targets"@, crate::ast::int_array_text(t));
    let p3 = crate::ast::prop_set_existing(p2, "Objects"@, crate::ast::int_array_text(o));
    let p4 = crate::duplicate::relink_props(p3, m);
    crate::ast::lemma_key_pos(p1, "Targets"@);
    crate::ast::lemma_key_pos(p2, "Objects"@);
    assert forall|j: int| 0 <= j < p1.len() implies (#[trigger] p4[j]).0 == p1[j].0 by {
        assert(p4[j] == (p3[j].0, crate::duplicate::relink_value(p3[j].0, p3[j].1, m)));
    }
    assert forall|j: int| 0 <= j < p1.len() && p1[j].0 == "Name"@ implies (#[trigger] p4[j]).1 == p1[j].1 by {
        assert(p4[j] == (p3[j].0, crate::duplicate::relink_value(p3[j].0, p3[j].1, m)));
        assert(p2[j] == p1[j]);
        assert(p3[j] == p2[j]);
    }
    lemma_same_keys_get(p1, p4, "Name"@);
    assert(duplicated(e, at).properties == p4);
}

proof fn lemma_copies_placed(cs: Seq<EntityModel>)
    ensures
        forall|i: int| 0 <= i < copies_of(cs).len() ==> is_placed_copy(#[trigger] copies_of(cs)[i]),
    decreases cs.len(),
{
    if cs.len() > 0 {
        let rest = copies_of(cs.drop_last());
        lemma_copies_placed(cs.drop_last());
        assert forall|i: int| 0 <= i < copies_of(cs).len() implies is_placed_copy(#[trigger] copies_of(cs)[i]) by {
            if i < rest.len() {
                assert(copies_of(cs)[i] == rest[i]);
            }
        }
    }
}

proof fn lemma_kept_in_placed(cs: Seq<EntityModel>, keep: Seq<Seq<char>>)
    requires
        forall|i: int| 0 <= i < cs.len() ==> is_placed_copy(#[trigger] cs[i]),
    ensures
        forall|i: int| 0 <= i < kept_in(cs, keep).len() ==> is_placed_copy(#[trigger] kept_in(cs, keep)[i]),
    decreases cs.len(),
{
    if cs.len() > 0 {
        let init = cs.drop_last();
        assert forall|i: int| 0 <= i < init.len() implies is_placed_copy(#[trigger] init[i]) by {
            assert(init[i] == cs[i]);
        }
        lemma_kept_in_placed(init, keep);
        assert(is_placed_copy(cs[cs.len() - 1]));
        let rest = kept_in(init, keep);
        assert forall|i: int| 0 <= i < kept_in(cs, keep).len() implies is_placed_copy(#[trigger] kept_in(cs, keep)[i]) by {
            if i < rest.len() {
                assert(kept_in(cs, keep)[i] == rest[i]);
            }
        }
    }
}

proof fn lemma_kept_placed(roots: Seq<EntityModel>, keep: Seq<Seq<char>>)
    ensures
        forall|i: int|
            0 <= i < kept_copies(roots, keep).len() ==> is_placed_copy(#[trigger] kept_copies(roots, keep)[i]),
    decreases roots.len(),
{
    if roots.len() > 0 {
        lemma_kept_placed(roots.drop_last(), keep);
        let cs = copies_of(placed_root_of(roots.last()).children);
        lemma_copies_placed(placed_root_of(roots.last()).children);
        lemma_kept_in_placed(cs, keep);
        let a = kept_copies(roots.drop_last(), keep);
        let b = kept_in(cs, keep);
        assert forall|i: int| 0 <= i < (a + b).len() implies is_placed_copy(#[trigger] (a + b)[i]) by {
            if i >= a.len() {
                assert((a + b)[i] == b[i - a.len()]);
            }
        }
    }
}

/// No copy in a combined pack is a Recon Randomizer: each is a `Group`
/// copied from a kept placed copy, under that copy's name.
pub proof fn law_combined_pack_no_randomizer(roots: Seq<EntityModel>, keep: Seq<Seq<char>>)
    ensures
        ({
            let out = combined_pack(kept_copies(roots, keep));
            forall|i: int|
                0 <= i < out.children.len() ==> name_of(#[trigger] out.children[i]) != Some("Recon Randomizer"@)
                    && out.children[i].block_type == "Group"@
        }),
{
    let kept = kept_copies(roots, keep);
    lemma_kept_placed(roots, keep);
    law_combined_pack_holds_kept(kept);
    let out = combined_pack(kept);
    assert forall|i: int| 0 <= i < out.children.len() implies name_of(#[trigger] out.children[i]) != Some(
        "Recon Randomizer"@,
    ) && out.children[i].block_type == "Group"@ by {
        assert(is_placed_copy(kept[i]));
        lemma_duplicated_name(kept[i], 1 + index_total(kept.take(i)));
    }
}

proof fn lemma_copies_all(cs: Seq<EntityModel>)
    requires
        forall|i: int| 0 <= i < cs.len() ==> is_placed_copy(#[trigger] cs[i]),
    ensures
        copies_of(cs) == cs,
    decreases cs.len(),
{
    if cs.len() > 0 {
        let init = cs.drop_last();
        assert forall|i: int| 0 <= i < init.len() implies is_placed_copy(#[trigger] init[i]) by {
            assert(init[i] == cs[i]);
        }
        lemma_copies_all(init);
        assert(is_placed_copy(cs[cs.len() - 1]));
        assert(init.push(cs.last()) =~= cs);
    }
}

/// A combined pack reads back as a placed pack holding exactly the copies
/// that were kept.
pub proof fn law_combined_pack_placed_count(roots: Seq<EntityModel>, keep: Seq<Seq<char>>)
    ensures
        copies_of(placed_root_of(combined_pack(kept_copies(roots, keep))).children).len() == kept_copies(
            roots,
            keep,
        ).len(),
{
    let kept = kept_copies(roots, keep);
    let out = combined_pack(kept);
    law_combined_pack_name(kept);
    law_combined_pack_no_randomizer(roots, keep);
    let n = "Random Ground Units "@ + dec_text(kept.len());
    reveal_strlit("Random Ground Units ");
    reveal_strlit("Random Ground Units");
    assert(n.subrange(0, "Random Ground Units"@.len() as int) =~= "Random Ground Units"@);
    assert(starts_with(n, "Random Ground Units"@));
    assert(looks_placed(out));
    assert(placed_root_of(out) == out);
    assert forall|i: int| 0 <= i < out.children.len() implies is_placed_copy(#[trigger] out.children[i]) by {
        assert(name_of(out.children[i]) != Some("Recon Randomizer"@) && out.children[i].block_type == "Group"@);
    }
    lemma_copies_all(out.children);
}

} // verus!
