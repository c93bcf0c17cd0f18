//! Reading a generated Exclusive Activation pack back into its plans.
//!
//! A pack is a `Group` holding one `NodeGates` group (the mutex MCUs) and
//! one `Group` per plan. Extraction clones the plan groups, drops every link
//! into the NodeGates group, and removes the ` [n]` / `*n*` copy suffix the
//! generator or the editor added to each plan's name.

use vstd::prelude::*;
use crate::ast::{
    EntityModel, Il2Entity, contains_id, indexes_of, int_array_text, lemma_children_model, name_of,
    nodes, nodes_in, prop_set,
};
use crate::recon::{bracket_end, star_end, strip_bracket, strip_star};
use crate::text::{
    chars_of, dec_text, lemma_rfind_bounds, owned, rfind_char, str_eq, string_from_range, trim_end,
    trim_end_range,
};

verus! {

// ---------------------------------------------------------------------------
// Recognising a pack
// ---------------------------------------------------------------------------

/// The mutex group of a pack.
pub open spec fn is_node_gates(e: EntityModel) -> bool {
    e.block_type == "Group"@ && name_of(e) == Some("NodeGates"@)
}

/// A plan group of a pack: any `Group` but the NodeGates one.
pub open spec fn is_plan_group(e: EntityModel) -> bool {
    e.block_type == "Group"@ && !is_node_gates(e)
}

/// `e` itself is a pack: named `Exclusive Activation`, or holding a
/// NodeGates group beside at least one plan group.
pub open spec fn looks_exclusive(e: EntityModel) -> bool {
    ||| name_of(e) == Some("Exclusive Activation"@)
    ||| (exists|i: int| 0 <= i < e.children.len() && is_node_gates(#[trigger] e.children[i]))
        && (exists|i: int| 0 <= i < e.children.len() && is_plan_group(#[trigger] e.children[i]))
}

/// Position of the first child that is a pack (the length when none is).
pub open spec fn first_exclusive(cs: Seq<EntityModel>) -> int
    decreases cs.len(),
{
    if cs.len() == 0 {
        0
    } else if looks_exclusive(cs[0]) {
        0
    } else {
        1 + first_exclusive(cs.drop_first())
    }
}

/// Position of the first NodeGates child (the length when there is none).
pub open spec fn first_gates(cs: Seq<EntityModel>) -> int
    decreases cs.len(),
{
    if cs.len() == 0 {
        0
    } else if is_node_gates(cs[0]) {
        0
    } else {
        1 + first_gates(cs.drop_first())
    }
}

/// The pack inside `e`: `e` itself, else its first child that is a pack,
/// else (through editor wrappers) the pack inside a lone child group.
pub open spec fn exclusive_root_of(e: EntityModel) -> EntityModel
    decreases e,
{
    if looks_exclusive(e) {
        e
    } else if first_exclusive(e.children) < e.children.len() {
        e.children[first_exclusive(e.children)]
    } else if e.block_type == "Group"@ && e.children.len() == 1 {
        exclusive_root_of(e.children[0])
    } else {
        e
    }
}

proof fn lemma_first_exclusive(cs: Seq<EntityModel>, p: int)
    requires
        0 <= p <= cs.len(),
        p < cs.len() ==> looks_exclusive(cs[p]),
        forall|j: int| 0 <= j < p ==> !looks_exclusive(#[trigger] cs[j]),
    ensures
        first_exclusive(cs) == p,
    decreases cs.len(),
{
    if cs.len() > 0 && !looks_exclusive(cs[0]) {
        let t = cs.drop_first();
        assert forall|j: int| 0 <= j < p - 1 implies !looks_exclusive(#[trigger] t[j]) by {
            assert(t[j] == cs[j + 1]);
        }
        if p - 1 < t.len() {
            assert(t[p - 1] == cs[p]);
        }
        lemma_first_exclusive(t, p - 1);
    }
}

proof fn lemma_first_gates(cs: Seq<EntityModel>, p: int)
    requires
        0 <= p <= cs.len(),
        p < cs.len() ==> is_node_gates(cs[p]),
        forall|j: int| 0 <= j < p ==> !is_node_gates(#[trigger] cs[j]),
    ensures
        first_gates(cs) == p,
    decreases cs.len(),
{
    if cs.len() > 0 && !is_node_gates(cs[0]) {
        let t = cs.drop_first();
        assert forall|j: int| 0 <= j < p - 1 implies !is_node_gates(#[trigger] t[j]) by {
            assert(t[j] == cs[j + 1]);
        }
        if p - 1 < t.len() {
            assert(t[p - 1] == cs[p]);
        }
        lemma_first_gates(t, p - 1);
    }
}

fn node_gates(e: &Il2Entity) -> (r: bool)
    ensures
        r == is_node_gates(e@),
{
    if !str_eq(e.block_type.as_str(), "Group") {
        return false;
    }
    match e.name() {
        Some(n) => str_eq(n, "NodeGates"),
        None => false,
    }
}

fn looks_exclusive_here(e: &Il2Entity) -> (r: bool)
    ensures
        r == looks_exclusive(e@),
{
    let named = match e.name() {
        Some(n) => str_eq(n, "Exclusive Activation"),
        None => false,
    };
    if named {
        return true;
    }
    proof {
        lemma_children_model(*e);
    }
    let ghost cs = e@.children;
    let mut gates = false;
    let mut plans = false;
    let mut i: usize = 0;
    while i < e.children.len()
        invariant
            i <= e.children@.len(),
            cs == e@.children,
            cs.len() == e.children@.len(),
            forall|j: int| 0 <= j < cs.len() ==> #[trigger] cs[j] == e.children@[j]@,
            gates == (exists|j: int| 0 <= j < i && is_node_gates(#[trigger] cs[j])),
            plans == (exists|j: int| 0 <= j < i && is_plan_group(#[trigger] cs[j])),
        decreases e.children@.len() - i,
    {
        let c = &e.children[i];
        assert(cs[i as int] == c@);
        if node_gates(c) {
            gates = true;
        } else if str_eq(c.block_type.as_str(), "Group") {
            plans = true;
        }
        i = i + 1;
    }
    gates && plans
}

/// The pack inside `root` (see [`exclusive_root_of`]).
fn exclusive_root(root: &Il2Entity) -> (r: &Il2Entity)
    ensures
        r@ == exclusive_root_of(root@),
    decreases root,
{
    if looks_exclusive_here(root) {
        return root;
    }
    proof {
        lemma_children_model(*root);
    }
    let ghost cs = root@.children;
    let mut i: usize = 0;
    while i < root.children.len()
        invariant
            i <= root.children@.len(),
            cs == root@.children,
            cs.len() == root.children@.len(),
            forall|j: int| 0 <= j < cs.len() ==> #[trigger] cs[j] == root.children@[j]@,
            forall|j: int| 0 <= j < i ==> !looks_exclusive(#[trigger] cs[j]),
            !looks_exclusive(root@),
        decreases root.children@.len() - i,
    {
        assert(cs[i as int] == root.children@[i as int]@);
        if looks_exclusive_here(&root.children[i]) {
            proof {
                lemma_first_exclusive(cs, i as int);
            }
            return &root.children[i];
        }
        i = i + 1;
    }
    proof {
        lemma_first_exclusive(cs, i as int);
    }
    if str_eq(root.block_type.as_str(), "Group") && root.children.len() == 1 {
        assert(cs[0] == root.children@[0]@);
        return exclusive_root(&root.children[0]);
    }
    root
}

/// True for a generated Exclusive Activation pack (including an editor
/// Group wrapper).
pub fn looks_like_exclusive_pack(root: &Il2Entity) -> (r: bool)
    ensures
        r == looks_exclusive(exclusive_root_of(root@)),
{
    looks_exclusive_here(exclusive_root(root))
}

// ---------------------------------------------------------------------------
// Dropping the NodeGates links
// ---------------------------------------------------------------------------

/// `ids` without the ones listed in `gone`, order kept.
pub open spec fn without_ids(ids: Seq<i32>, gone: Seq<i32>) -> Seq<i32>
    decreases ids.len(),
{
    if ids.len() == 0 {
        seq![]
    } else {
        let rest = without_ids(ids.drop_last(), gone);
        if gone.contains(ids.last()) {
            rest
        } else {
            rest.push(ids.last())
        }
    }
}

/// Whether some id of `ids` is listed in `gone`.
pub open spec fn any_in(ids: Seq<i32>, gone: Seq<i32>) -> bool {
    exists|k: int| 0 <= k < ids.len() && gone.contains(#[trigger] ids[k])
}

/// One block with its links into `gone` removed; the `Targets` / `Objects`
/// text is re-rendered only where a link was dropped.
pub open spec fn unlink_node(e: EntityModel, gone: Seq<i32>) -> EntityModel {
    let t_hit = any_in(e.targets, gone);
    let o_hit = any_in(e.objects, gone);
    let targets = if t_hit { without_ids(e.targets, gone) } else { e.targets };
    let objects = if o_hit { without_ids(e.objects, gone) } else { e.objects };
    let p1 = if t_hit { prop_set(e.properties, "Targets"@, int_array_text(targets)) } else { e.properties };
    let p2 = if o_hit { prop_set(p1, "Objects"@, int_array_text(objects)) } else { p1 };
    EntityModel { targets, objects, properties: p2, ..e }
}

/// The subtree with every link into `gone` removed.
pub open spec fn unlink(e: EntityModel, gone: Seq<i32>) -> EntityModel
    decreases e,
{
    EntityModel {
        children: Seq::new(
            e.children.len(),
            |i: int|
                if 0 <= i < e.children.len() {
                    unlink(e.children[i], gone)
                } else {
                    arbitrary()
                },
        ),
        ..unlink_node(e, gone)
    }
}

fn drop_ids(ids: &Vec<i32>, gone: &Vec<i32>) -> (r: (Vec<i32>, bool))
    ensures
        r.0@ == without_ids(ids@, gone@),
        r.1 == any_in(ids@, gone@),
{
    let mut keep: Vec<i32> = Vec::new();
    let mut hit = false;
    let mut i: usize = 0;
    while i < ids.len()
        invariant
            i <= ids@.len(),
            keep@ == without_ids(ids@.take(i as int), gone@),
            hit == (exists|k: int| 0 <= k < i && gone@.contains(#[trigger] ids@[k])),
        decreases ids@.len() - i,
    {
        let id = ids[i];
        proof {
            assert(ids@.take(i + 1).drop_last() =~= ids@.take(i as int));
            assert(ids@.take(i + 1).last() == id);
        }
        if contains_id(gone, id) {
            hit = true;
        } else {
            keep.push(id);
        }
        i = i + 1;
    }
    proof {
        assert(ids@.take(i as int) =~= ids@);
    }
    (keep, hit)
}

/// Remove every link into `gone` from the subtree.
fn strip_gate_links(e: &mut Il2Entity, gone: &Vec<i32>)
    ensures
        final(e)@ == unlink(old(e)@, gone@),
    decreases *old(e),
{
    let ghost orig = *e;
    proof {
        lemma_children_model(orig);
    }
    let mut i: usize = 0;
    while i < e.children.len()
        invariant
            i <= e.children@.len(),
            e.children@.len() == orig.children@.len(),
            forall|j: int| 0 <= j < i ==> #[trigger] e.children@[j]@ == unlink(orig.children@[j]@, gone@),
            forall|j: int| i <= j < e.children@.len() ==> #[trigger] e.children@[j] == orig.children@[j],
            e.properties == orig.properties,
            e.targets == orig.targets,
            e.block_type == orig.block_type,
            e.index == orig.index,
            e.objects == orig.objects,
            orig == *old(e),
        decreases e.children@.len() - i,
    {
        proof {
            assert(decreases_to!(orig => orig.children));
            assert(decreases_to!(orig.children => orig.children@));
            assert(decreases_to!(orig.children@ => orig.children@[i as int]));
        }
        strip_gate_links(&mut e.children[i], gone);
        i = i + 1;
    }
    proof {
        lemma_children_model(*e);
    }
    let ghost kids = e@.children;
    let (t, t_hit) = drop_ids(&e.targets, gone);
    if t_hit {
        e.set_targets(t);
    }
    let (o, o_hit) = drop_ids(&e.objects, gone);
    if o_hit {
        e.set_objects(o);
    }
    proof {
        let u = unlink(orig@, gone@);
        assert(e@.children == kids);
        assert(kids =~= u.children);
        assert(e@.targets == u.targets);
        assert(e@.objects == u.objects);
        assert(e@.properties == u.properties);
    }
}

// ---------------------------------------------------------------------------
// Copy suffixes
// ---------------------------------------------------------------------------

/// A plan name with trailing space and an editor `*N*` or generator ` [N]`
/// suffix removed. A `[N]` suffix counts only after the first character.
pub open spec fn copy_suffix_stripped(name: Seq<char>) -> Seq<char> {
    let t = trim_end(name);
    match strip_star(t) {
        Some(x) => trim_end(x),
        None => match strip_bracket(t) {
            Some(x) => if rfind_char(t, '[') > 0 { trim_end(x) } else { t },
            None => t,
        },
    }
}

fn strip_copy_suffix(name: &str) -> (r: String)
    ensures
        r@ == copy_suffix_stripped(name@),
{
    let cs = chars_of(name);
    let len = cs.len();
    let b = trim_end_range(&cs, 0, len);
    let ghost t = cs@.subrange(0, b as int);
    proof {
        assert(cs@.subrange(0, len as int) =~= name@);
        assert(trim_end(name@) =~= t);
        lemma_rfind_bounds(t, '[');
    }
    match star_end(&cs, 0, b) {
        Some(e) => {
            let e2 = trim_end_range(&cs, 0, e);
            return string_from_range(&cs, 0, e2);
        },
        None => {},
    }
    match bracket_end(&cs, 0, b) {
        Some(e) => {
            proof {
                assert(cs@.subrange(0, e as int).len() == e);
            }
            if e > 0 {
                let e2 = trim_end_range(&cs, 0, e);
                return string_from_range(&cs, 0, e2);
            }
        },
        None => {},
    }
    string_from_range(&cs, 0, b)
}

/// A plan with its name's copy suffix removed (names left alone otherwise).
pub open spec fn renamed(e: EntityModel) -> EntityModel {
    match name_of(e) {
        Some(n) => if copy_suffix_stripped(n) == n {
            e
        } else {
            EntityModel {
                properties: prop_set(e.properties, "Name"@, seq!['"'] + copy_suffix_stripped(n) + seq!['"']),
                ..e
            }
        },
        None => e,
    }
}

fn rename_copy(plan: &mut Il2Entity)
    ensures
        final(plan)@ == renamed(old(plan)@),
{
    let cleaned = match plan.name() {
        Some(n) => {
            let c = strip_copy_suffix(n);
            if str_eq(n, c.as_str()) {
                None
            } else {
                Some(c)
            }
        },
        None => None,
    };
    match cleaned {
        Some(c) => plan.set_name(c.as_str()),
        None => {},
    }
}

// ---------------------------------------------------------------------------
// Extraction
// ---------------------------------------------------------------------------

/// Every `Index` of the pack's NodeGates group (empty when there is none).
pub open spec fn gate_ids(pack: EntityModel) -> Seq<i32> {
    let k = first_gates(pack.children);
    if k < pack.children.len() {
        indexes_of(pack.children[k])
    } else {
        seq![]
    }
}

/// The plan groups among `cs`, in order.
pub open spec fn plan_groups(cs: Seq<EntityModel>) -> Seq<EntityModel>
    decreases cs.len(),
{
    if cs.len() == 0 {
        seq![]
    } else {
        let rest = plan_groups(cs.drop_last());
        if is_plan_group(cs.last()) {
            rest.push(cs.last())
        } else {
            rest
        }
    }
}

/// What extraction returns for `root`: each plan group of its pack, with the
/// NodeGates links dropped and the copy suffix removed from its name.
pub open spec fn extracted_plans(root: EntityModel) -> Seq<EntityModel> {
    let pack = exclusive_root_of(root);
    plan_groups(pack.children).map_values(|c: EntityModel| renamed(unlink(c, gate_ids(pack))))
}

/// Plan groups from a generated pack, with NodeGates links stripped so they
/// can be re-linked. Trailing ` [n]` / `*n*` copy suffixes are removed from
/// names.
pub fn extract_exclusive_plans(root: &Il2Entity) -> (r: Result<Vec<Il2Entity>, String>)
    ensures
        ({
            let pack = exclusive_root_of(root@);
            if !looks_exclusive(pack) {
                r matches Err(e) && e@ == "not an Exclusive Activation pack — export the generated group from the editor"@
            } else if plan_groups(pack.children).len() == 0 {
                r matches Err(e) && e@ == "that Exclusive Activation file has no plan groups"@
            } else {
                r matches Ok(v) && v@.map_values(|p: Il2Entity| p@) == extracted_plans(root@)
            }
        }),
{
    let pack = exclusive_root(root);
    if !looks_exclusive_here(pack) {
        return Err(owned("not an Exclusive Activation pack — export the generated group from the editor"));
    }
    proof {
        lemma_children_model(*pack);
    }
    let ghost cs = pack@.children;
    let mut gates: Vec<i32> = Vec::new();
    let mut g: usize = 0;
    while g < pack.children.len()
        invariant
            g <= pack.children@.len(),
            cs == pack@.children,
            cs.len() == pack.children@.len(),
            forall|j: int| 0 <= j < cs.len() ==> #[trigger] cs[j] == pack.children@[j]@,
            forall|j: int| 0 <= j < g ==> !is_node_gates(#[trigger] cs[j]),
            gates@.len() == 0,
        ensures
            g <= cs.len(),
            g < cs.len() ==> is_node_gates(cs[g as int]),
            forall|j: int| 0 <= j < g ==> !is_node_gates(#[trigger] cs[j]),
            gates@.len() == 0,
        decreases pack.children@.len() - g,
    {
        assert(cs[g as int] == pack.children@[g as int]@);
        if node_gates(&pack.children[g]) {
            break;
        }
        g = g + 1;
    }
    proof {
        if g < cs.len() {
            assert(cs[g as int] == pack.children@[g as int]@);
        }
        lemma_first_gates(cs, g as int);
    }
    if g < pack.children.len() {
        pack.children[g].collect_indexes(&mut gates);
    }
    proof {
        assert(gates@ =~= gate_ids(pack@));
    }
    let ghost gone = gates@;
    let mut plans: Vec<Il2Entity> = Vec::new();
    let mut i: usize = 0;
    while i < pack.children.len()
        invariant
            i <= pack.children@.len(),
            cs == pack@.children,
            cs.len() == pack.children@.len(),
            forall|j: int| 0 <= j < cs.len() ==> #[trigger] cs[j] == pack.children@[j]@,
            gone == gates@,
            plans@.len() == plan_groups(cs.take(i as int)).len(),
            forall|j: int| 0 <= j < plans@.len() ==> #[trigger] plans@[j]@ == renamed(unlink(plan_groups(cs.take(i as int))[j], gone)),
        decreases pack.children@.len() - i,
    {
        let c = &pack.children[i];
        proof {
            assert(cs.take(i + 1).drop_last() =~= cs.take(i as int));
            assert(cs.take(i + 1).last() == c@);
        }
        let is_gates = node_gates(c);
        if !is_gates && str_eq(c.block_type.as_str(), "Group") {
            let mut plan = c.deep_copy();
            strip_gate_links(&mut plan, &gates);
            rename_copy(&mut plan);
            plans.push(plan);
        }
        i = i + 1;
    }
    proof {
        assert(cs.take(i as int) =~= cs);
    }
    if plans.len() == 0 {
        return Err(owned("that Exclusive Activation file has no plan groups"));
    }
    proof {
        assert(plans@.map_values(|p: Il2Entity| p@) =~= extracted_plans(root@));
    }
    Ok(plans)
}

// ---------------------------------------------------------------------------
// No link survives into the NodeGates group
// ---------------------------------------------------------------------------

/// No block of `ns` links (through `Targets` or `Objects`) to an id of `gone`.
pub open spec fn free_of(ns: Seq<EntityModel>, gone: Seq<i32>) -> bool {
    forall|k: int| 0 <= k < ns.len() ==> !any_in(#[trigger] ns[k].targets, gone) && !any_in(ns[k].objects, gone)
}

proof fn lemma_without_ids_clean(ids: Seq<i32>, gone: Seq<i32>)
    ensures
        !any_in(without_ids(ids, gone), gone),
    decreases ids.len(),
{
    if ids.len() > 0 {
        let rest = without_ids(ids.drop_last(), gone);
        lemma_without_ids_clean(ids.drop_last(), gone);
        if !gone.contains(ids.last()) {
            let w = rest.push(ids.last());
            assert forall|k: int| 0 <= k < w.len() implies !gone.contains(#[trigger] w[k]) by {
                if k < rest.len() {
                    assert(w[k] == rest[k]);
                }
            }
        }
    }
}

proof fn lemma_unlink_node_clean(e: EntityModel, gone: Seq<i32>)
    ensures
        !any_in(unlink_node(e, gone).targets, gone),
        !any_in(unlink_node(e, gone).objects, gone),
{
    lemma_without_ids_clean(e.targets, gone);
    lemma_without_ids_clean(e.objects, gone);
}

proof fn lemma_free_concat(a: Seq<EntityModel>, b: Seq<EntityModel>, gone: Seq<i32>)
    requires
        free_of(a, gone),
        free_of(b, gone),
    ensures
        free_of(a + b, gone),
{
    let c = a + b;
    assert forall|k: int| 0 <= k < c.len() implies !any_in(#[trigger] c[k].targets, gone) && !any_in(c[k].objects, gone) by {
        if k < a.len() {
            assert(c[k] == a[k]);
            assert(!any_in(a[k].targets, gone) && !any_in(a[k].objects, gone));
        } else {
            assert(c[k] == b[k - a.len()]);
            assert(!any_in(b[k - a.len()].targets, gone) && !any_in(b[k - a.len()].objects, gone));
        }
    }
}

proof fn lemma_nodes_in_free(cs: Seq<EntityModel>, gone: Seq<i32>)
    requires
        forall|i: int| 0 <= i < cs.len() ==> free_of(nodes(#[trigger] cs[i]), gone),
    ensures
        free_of(nodes_in(cs), gone),
    decreases cs.len(),
{
    if cs.len() > 0 {
        let t = cs.drop_first();
        assert forall|i: int| 0 <= i < t.len() implies free_of(nodes(#[trigger] t[i]), gone) by {
            assert(t[i] == cs[i + 1]);
        }
        lemma_nodes_in_free(t, gone);
        assert(free_of(nodes(cs[0]), gone));
        lemma_free_concat(nodes(cs[0]), nodes_in(t), gone);
    }
}

proof fn lemma_unlink_free(e: EntityModel, gone: Seq<i32>)
    ensures
        free_of(nodes(unlink(e, gone)), gone),
    decreases e,
{
    let u = unlink(e, gone);
    assert forall|i: int| 0 <= i < u.children.len() implies free_of(nodes(#[trigger] u.children[i]), gone) by {
        assert(u.children[i] == unlink(e.children[i], gone));
        lemma_unlink_free(e.children[i], gone);
    }
    lemma_nodes_in_free(u.children, gone);
    lemma_unlink_node_clean(e, gone);
    let head = seq![u];
    assert(free_of(head, gone));
    lemma_free_concat(head, nodes_in(u.children), gone);
    assert(nodes(u) == head + nodes_in(u.children));
}

proof fn lemma_renamed_free(e: EntityModel, gone: Seq<i32>)
    requires
        free_of(nodes(e), gone),
    ensures
        free_of(nodes(renamed(e)), gone),
{
    let r = renamed(e);
    assert(r.children == e.children);
    assert(nodes(e)[0] == e);
    let head = seq![r];
    assert(free_of(head, gone));
    let rest = nodes_in(e.children);
    assert forall|k: int| 0 <= k < rest.len() implies !any_in(#[trigger] rest[k].targets, gone) && !any_in(rest[k].objects, gone) by {
        assert(nodes(e)[k + 1] == rest[k]);
    }
    lemma_free_concat(head, rest, gone);
    assert(nodes(r) == head + rest);
}

/// Extraction leaves no block of any plan linked, through `Targets` or
/// `Objects`, to a block of the pack's NodeGates group.
pub proof fn law_extracted_plans_unlinked_from_gates(root: EntityModel)
    ensures
        forall|p: int| 0 <= p < extracted_plans(root).len()
            ==> free_of(nodes(#[trigger] extracted_plans(root)[p]), gate_ids(exclusive_root_of(root))),
{
    let pack = exclusive_root_of(root);
    let gone = gate_ids(pack);
    let groups = plan_groups(pack.children);
    assert forall|p: int| 0 <= p < extracted_plans(root).len()
        implies free_of(nodes(#[trigger] extracted_plans(root)[p]), gone) by {
        lemma_unlink_free(groups[p], gone);
        lemma_renamed_free(unlink(groups[p], gone), gone);
    }
}

// ---------------------------------------------------------------------------
// Linked files are packs
// ---------------------------------------------------------------------------

/// A `Group` built by `wrapper` carries the name it was given, when that
/// name neither starts nor ends with a quote.
pub proof fn lemma_wrapper_name(n: Seq<char>, at: int, cs: Seq<EntityModel>)
    requires
        n.len() > 0,
        n[0] != '"',
        n.last() != '"',
    ensures
        name_of(crate::bombers::link::wrapper(n, at, cs)) == Some(n),
{
    reveal_strlit("Index");
    reveal_strlit("Name");
    reveal_strlit("Desc");
    let it = crate::text::int_text(at);
    let q = seq!['"'] + n + seq!['"'];
    let p0: crate::ast::Props = seq![];
    crate::ast::lemma_key_pos_exact(p0, "Index"@, 0);
    let p1 = prop_set(p0, "Index"@, it);
    assert(p1 =~= seq![("Index"@, it)]);
    assert("Index"@ != "Name"@) by {
        assert("Index"@[0] != "Name"@[0]);
    }
    assert("Desc"@ != "Name"@) by {
        assert("Desc"@[0] != "Name"@[0]);
    }
    assert("Desc"@ != "Index"@) by {
        assert("Desc"@[0] != "Index"@[0]);
    }
    crate::ast::lemma_key_pos_exact(p1, "Name"@, 1);
    let p2 = prop_set(p1, "Name"@, q);
    assert(p2 =~= seq![("Index"@, it), ("Name"@, q)]);
    crate::ast::lemma_key_pos_exact(p2, "Desc"@, 2);
    let p3 = prop_set(p2, "Desc"@, "\"\""@);
    assert(p3 =~= seq![("Index"@, it), ("Name"@, q), ("Desc"@, "\"\""@)]);
    crate::ast::lemma_key_pos_exact(p3, "Name"@, 1);
    assert(crate::ast::prop_get(p3, "Name"@) == Some(q));
    assert(q[1] == n[0]);
    crate::ast::lemma_lead_quotes_exact(q, 1);
    let t = q.subrange(1, q.len() as int);
    assert(t =~= n + seq!['"']);
    assert(t[t.len() - 2] == n.last());
    crate::ast::lemma_trail_quotes_exact(t, 1);
    assert(t.subrange(0, t.len() - 1) =~= n);
}

/// A file that bomber linking produced is recognised as an Exclusive
/// Activation pack, and so is any group holding it as its only child.
pub proof fn law_linked_pack_recognised(pvs: Seq<crate::bombers::link::PlanView>, w: EntityModel)
    requires
        w.children == seq![crate::bombers::link::linked_plans(pvs)],
    ensures
        looks_exclusive(crate::bombers::link::linked_plans(pvs)),
        looks_exclusive(exclusive_root_of(crate::bombers::link::linked_plans(pvs))),
        looks_exclusive(exclusive_root_of(w)),
{
    let out = crate::bombers::link::linked_plans(pvs);
    reveal_strlit("Exclusive Activation");
    lemma_wrapper_name(
        "Exclusive Activation"@,
        crate::bombers::link::link_end(pvs),
        Seq::new(pvs.len(), |i: int| crate::bombers::link::linked_copy(pvs, i)).push(
            crate::bombers::link::wrapper("NodeGates"@, crate::bombers::link::link_end(pvs) + 1, crate::bombers::link::gates_flat(pvs, pvs.len() as int)),
        ),
    );
    assert(looks_exclusive(out));
    assert(w.children[0] == out);
    assert(first_exclusive(w.children) == 0);
}

pub(crate) proof fn lemma_prop_get_same(p: crate::ast::Props, k: Seq<char>, v: Seq<char>)
    ensures
        crate::ast::prop_get(prop_set(p, k, v), k) == Some(v),
{
    crate::ast::lemma_key_pos(p, k);
    let q = crate::ast::key_pos(p, k);
    let p2 = prop_set(p, k, v);
    if q < p.len() {
        assert forall|j: int| 0 <= j < q implies #[trigger] p2[j].0 != k by {}
        crate::ast::lemma_key_pos_exact(p2, k, q);
    } else {
        assert forall|j: int| 0 <= j < p.len() implies #[trigger] p2[j].0 != k by {}
        crate::ast::lemma_key_pos_exact(p2, k, p.len() as int);
    }
}

proof fn lemma_lead_quotes_le(s: Seq<char>, j: int)
    requires
        0 <= j < s.len(),
        s[j] != '"',
    ensures
        crate::ast::lead_quotes(s) <= j,
    decreases j,
{
    if j > 0 && s[0] == '"' {
        assert(s.drop_first()[j - 1] == s[j]);
        lemma_lead_quotes_le(s.drop_first(), j - 1);
    }
}

/// A name written as `"` + `n` + `"`, where `n` ends in `]`, reads back as
/// a name ending in `]`.
proof fn lemma_bracket_name(n: Seq<char>)
    requires
        n.len() > 0,
        n.last() == ']',
    ensures
        crate::ast::strip_quotes(seq!['"'] + n + seq!['"']).len() > 0,
        crate::ast::strip_quotes(seq!['"'] + n + seq!['"']).last() == ']',
{
    let q = seq!['"'] + n + seq!['"'];
    let l = q.len() as int;
    assert(q[l - 2] == ']');
    lemma_lead_quotes_le(q, l - 2);
    let lq = crate::ast::lead_quotes(q) as int;
    let t = q.subrange(lq, l);
    assert(t[t.len() - 1] == '"');
    assert(t[t.len() - 2] == ']');
    crate::ast::lemma_trail_quotes_exact(t, 1);
}

proof fn lemma_hooked_keeps(e: EntityModel, trig: Seq<i32>, comp: i32, od: i32, oe: i32)
    ensures
        crate::bombers::link::hooked(e, trig, comp, od, oe).block_type == e.block_type,
        name_of(crate::bombers::link::hooked(e, trig, comp, od, oe)) == name_of(e),
{
    reveal_strlit("Targets");
    reveal_strlit("Name");
    assert("Targets"@ != "Name"@) by {
        assert("Targets"@[0] != "Name"@[0]);
    }
    let e1 = match e.index {
        Some(x) => if trig.contains(x) {
            crate::bombers::link::append_model(e, od)
        } else {
            e
        },
        None => e,
    };
    if !e.targets.contains(od) {
        crate::airfield::cleaned::lemma_prop_get_other(e.properties, "Targets"@, crate::ast::int_array_text(e.targets.push(od)), "Name"@);
    }
    if !e1.targets.contains(oe) {
        crate::airfield::cleaned::lemma_prop_get_other(e1.properties, "Targets"@, crate::ast::int_array_text(e1.targets.push(oe)), "Name"@);
    }
}

proof fn lemma_plan_groups_all(cs: Seq<EntityModel>)
    requires
        forall|i: int| 0 <= i < cs.len() ==> is_plan_group(#[trigger] cs[i]),
    ensures
        plan_groups(cs) == cs,
    decreases cs.len(),
{
    if cs.len() > 0 {
        let init = cs.drop_last();
        assert forall|i: int| 0 <= i < init.len() implies is_plan_group(#[trigger] init[i]) by {
            assert(init[i] == cs[i]);
        }
        lemma_plan_groups_all(init);
        assert(cs.len() > 0 && is_plan_group(cs[cs.len() - 1]));
        assert(init.push(cs.last()) =~= cs);
    }
}

#[verifier::rlimit(30)]
proof fn lemma_copy_is_plan_group(pvs: Seq<crate::bombers::link::PlanView>, i: int)
    requires
        0 <= i < pvs.len(),
        pvs[i].1.block_type == "Group"@,
    ensures
        is_plan_group(crate::bombers::link::linked_copy(pvs, i)),
{
    let pv = pvs[i];
    let pc = crate::bombers::link::plan_copy(pvs, i);
    let cn = crate::bombers::link::copy_name(pv, i);
    reveal_strlit("]");
    assert(cn.last() == ']');
    let d = crate::duplicate::duplicated(pv.1, crate::bombers::link::copy_at(pvs, i));
    assert(d.block_type == pv.1.block_type);
    lemma_prop_get_same(d.properties, "Name"@, seq!['"'] + cn + seq!['"']);
    lemma_bracket_name(cn);
    lemma_hooked_keeps(
        pc,
        crate::bombers::link::mapped_triggers(pvs, i),
        crate::bombers::link::mapped_completion(pvs, i),
        crate::bombers::link::out_disable_id(pvs, i),
        crate::bombers::link::out_enable_id(pvs, i),
    );
    let c = crate::bombers::link::linked_copy(pvs, i);
    let nm = name_of(c)->0;
    assert(nm.last() == ']');
    reveal_strlit("NodeGates");
    assert("NodeGates"@.last() == 's');
    assert(name_of(c) != Some("NodeGates"@));
}

/// Extracting a file that bomber linking produced gives back one plan per
/// plan that went in, when every plan's template is a `Group`.
pub proof fn law_linked_plans_extract_count(pvs: Seq<crate::bombers::link::PlanView>)
    requires
        forall|i: int| 0 <= i < pvs.len() ==> (#[trigger] pvs[i]).1.block_type == "Group"@,
    ensures
        extracted_plans(crate::bombers::link::linked_plans(pvs)).len() == pvs.len(),
{
    lemma_linked_plan_groups(pvs);
}

proof fn lemma_linked_plan_groups(pvs: Seq<crate::bombers::link::PlanView>)
    requires
        forall|i: int| 0 <= i < pvs.len() ==> (#[trigger] pvs[i]).1.block_type == "Group"@,
    ensures
        exclusive_root_of(crate::bombers::link::linked_plans(pvs)) == crate::bombers::link::linked_plans(pvs),
        plan_groups(crate::bombers::link::linked_plans(pvs).children) == Seq::new(
            pvs.len(),
            |i: int| crate::bombers::link::linked_copy(pvs, i),
        ),
{
    let out = crate::bombers::link::linked_plans(pvs);
    law_linked_pack_recognised(pvs, EntityModel { children: seq![out], ..out });
    assert(exclusive_root_of(out) == out);
    let end = crate::bombers::link::link_end(pvs);
    let copies = Seq::new(pvs.len(), |i: int| crate::bombers::link::linked_copy(pvs, i));
    let gates = crate::bombers::link::wrapper("NodeGates"@, end + 1, crate::bombers::link::gates_flat(pvs, pvs.len() as int));
    reveal_strlit("NodeGates");
    reveal_strlit("Group");
    lemma_wrapper_name("NodeGates"@, end + 1, crate::bombers::link::gates_flat(pvs, pvs.len() as int));
    assert(is_node_gates(gates));
    assert(out.children == copies.push(gates));
    assert forall|i: int| 0 <= i < copies.len() implies is_plan_group(#[trigger] copies[i]) by {
        lemma_copy_is_plan_group(pvs, i);
    }
    lemma_plan_groups_all(copies);
    assert(copies.push(gates).drop_last() =~= copies);
    assert(plan_groups(out.children) == copies);
}

proof fn lemma_suffix_stripped(nm: Seq<char>, k: nat)
    requires
        nm.len() == 0 || !crate::text::is_ws(nm.last()),
    ensures
        copy_suffix_stripped(nm + " ["@ + dec_text(k) + "]"@) == nm,
{
    reveal_strlit(" [");
    reveal_strlit("]");
    let d = dec_text(k);
    crate::text::lemma_dec_text(k);
    let t0 = nm + " ["@ + d + "]"@;
    let l = t0.len() as int;
    assert(t0[l - 1] == ']');
    crate::text::lemma_trail_ws_exact(t0, 0);
    assert(crate::text::trim_end(t0) =~= t0);
    let open = nm.len() as int + 1;
    assert(t0[open] == '[');
    crate::text::lemma_rfind_bounds(t0, '[');
    crate::text::lemma_rfind_bounds(t0, ']');
    assert forall|j: int| open < j < l implies t0[j] != '[' by {
        if j < l - 1 {
            assert(t0[j] == d[j - open - 1]);
            assert(crate::text::is_ascii_digit(d[j - open - 1]));
        }
    }
    assert(rfind_char(t0, '[') == open);
    assert(rfind_char(t0, ']') == l - 1);
    assert(t0.subrange(open + 1, l - 1) =~= d);
    assert(crate::recon::strip_star(t0) is None);
    assert(crate::recon::strip_bracket(t0) == Some(t0.subrange(0, open)));
    let x = t0.subrange(0, open);
    assert(x =~= nm.push(' '));
    crate::text::lemma_trail_ws_exact(x, 1);
    assert(crate::text::trim_end(x) =~= nm);
}

proof fn lemma_lead_quotes_stop(s: Seq<char>)
    ensures
        crate::ast::lead_quotes(s) <= s.len(),
        crate::ast::lead_quotes(s) < s.len() ==> s[crate::ast::lead_quotes(s) as int] != '"',
    decreases s.len(),
{
    if s.len() > 0 && s[0] == '"' {
        lemma_lead_quotes_stop(s.drop_first());
        let k = crate::ast::lead_quotes(s.drop_first());
        if k < s.len() - 1 {
            assert(s.drop_first()[k as int] == s[(k + 1) as int]);
        }
    }
}

proof fn lemma_trail_quotes_stop(s: Seq<char>)
    ensures
        crate::ast::trail_quotes(s) <= s.len(),
        crate::ast::trail_quotes(s) < s.len() ==> s[s.len() - crate::ast::trail_quotes(s) - 1] != '"',
    decreases s.len(),
{
    if s.len() > 0 && s.last() == '"' {
        lemma_trail_quotes_stop(s.drop_last());
        let k = crate::ast::trail_quotes(s.drop_last());
        if k < s.len() - 1 {
            assert(s.drop_last()[s.len() - 1 - k - 1] == s[s.len() - 1 - k - 1]);
        }
    }
}

/// A name as read (quotes stripped) neither starts nor ends with a quote.
proof fn lemma_stripped_ends(v: Seq<char>)
    ensures
        crate::ast::strip_quotes(v).len() > 0 ==> crate::ast::strip_quotes(v)[0] != '"'
            && crate::ast::strip_quotes(v).last() != '"',
{
    lemma_lead_quotes_stop(v);
    let lq = crate::ast::lead_quotes(v) as int;
    let t = v.subrange(lq, v.len() as int);
    lemma_trail_quotes_stop(t);
    let tq = crate::ast::trail_quotes(t) as int;
    let r = t.subrange(0, t.len() - tq);
    if r.len() > 0 {
        assert(r[0] == v[lq]);
        assert(r.last() == t[t.len() - tq - 1]);
    }
}

/// `"n"` reads back as `n` when `n` neither starts nor ends with a quote.
proof fn lemma_quoted_name(n: Seq<char>)
    requires
        n.len() > 0,
        n[0] != '"',
        n.last() != '"',
    ensures
        crate::ast::strip_quotes(seq!['"'] + n + seq!['"']) == n,
{
    let q = seq!['"'] + n + seq!['"'];
    assert(q[1] == n[0]);
    crate::ast::lemma_lead_quotes_exact(q, 1);
    let t = q.subrange(1, q.len() as int);
    assert(t =~= n + seq!['"']);
    assert(t[t.len() - 2] == n.last());
    crate::ast::lemma_trail_quotes_exact(t, 1);
    assert(t.subrange(0, t.len() - 1) =~= n);
}

#[verifier::rlimit(40)]
proof fn lemma_copy_name_read(pvs: Seq<crate::bombers::link::PlanView>, i: int, nm: Seq<char>)
    requires
        0 <= i < pvs.len(),
        name_of(pvs[i].1) == Some(nm),
        nm.len() > 0,
    ensures
        name_of(crate::bombers::link::linked_copy(pvs, i)) == Some(nm + " ["@ + dec_text((i + 1) as nat) + "]"@),
{
    let pv = pvs[i];
    let cn = crate::bombers::link::copy_name(pv, i);
    assert(cn == nm + " ["@ + dec_text((i + 1) as nat) + "]"@);
    lemma_stripped_ends(crate::ast::prop_get(pv.1.properties, "Name"@)->0);
    reveal_strlit("]");
    assert(cn[0] == nm[0]);
    assert(cn.last() == ']');
    let d = crate::duplicate::duplicated(pv.1, crate::bombers::link::copy_at(pvs, i));
    lemma_prop_get_same(d.properties, "Name"@, seq!['"'] + cn + seq!['"']);
    lemma_quoted_name(cn);
    let pc = crate::bombers::link::plan_copy(pvs, i);
    assert(name_of(pc) == Some(cn));
    lemma_hooked_keeps(
        pc,
        crate::bombers::link::mapped_triggers(pvs, i),
        crate::bombers::link::mapped_completion(pvs, i),
        crate::bombers::link::out_disable_id(pvs, i),
        crate::bombers::link::out_enable_id(pvs, i),
    );
}

proof fn lemma_unlink_keeps_name(e: EntityModel, gone: Seq<i32>)
    ensures
        name_of(unlink(e, gone)) == name_of(e),
{
    reveal_strlit("Targets");
    reveal_strlit("Objects");
    reveal_strlit("Name");
    assert("Targets"@ != "Name"@) by {
        assert("Targets"@[0] != "Name"@[0]);
    }
    assert("Objects"@ != "Name"@) by {
        assert("Objects"@[0] != "Name"@[0]);
    }
    let t_hit = any_in(e.targets, gone);
    let o_hit = any_in(e.objects, gone);
    let targets = if t_hit { without_ids(e.targets, gone) } else { e.targets };
    let objects = if o_hit { without_ids(e.objects, gone) } else { e.objects };
    let p1 = if t_hit { prop_set(e.properties, "Targets"@, int_array_text(targets)) } else { e.properties };
    if t_hit {
        crate::airfield::cleaned::lemma_prop_get_other(e.properties, "Targets"@, int_array_text(targets), "Name"@);
    }
    if o_hit {
        crate::airfield::cleaned::lemma_prop_get_other(p1, "Objects"@, int_array_text(objects), "Name"@);
    }
}

/// Extracting a file that bomber linking produced gives each plan back
/// under the name its template had, when every plan's template is a
/// `Group` and this one's name is not empty and does not end in white
/// space.
pub proof fn law_linked_plans_extract_names(pvs: Seq<crate::bombers::link::PlanView>, i: int, nm: Seq<char>)
    requires
        forall|j: int| 0 <= j < pvs.len() ==> (#[trigger] pvs[j]).1.block_type == "Group"@,
        0 <= i < pvs.len(),
        name_of(pvs[i].1) == Some(nm),
        nm.len() > 0,
        !crate::text::is_ws(nm.last()),
    ensures
        name_of(extracted_plans(crate::bombers::link::linked_plans(pvs))[i]) == Some(nm),
{
    lemma_linked_plan_groups(pvs);
    let out = crate::bombers::link::linked_plans(pvs);
    let c = crate::bombers::link::linked_copy(pvs, i);
    let u = unlink(c, gate_ids(out));
    assert(extracted_plans(out)[i] == renamed(u));
    lemma_copy_name_read(pvs, i, nm);
    lemma_unlink_keeps_name(c, gate_ids(out));
    let cn = nm + " ["@ + dec_text((i + 1) as nat) + "]"@;
    assert(name_of(u) == Some(cn));
    lemma_suffix_stripped(nm, (i + 1) as nat);
    assert(copy_suffix_stripped(cn) == nm);
    assert(nm.len() < cn.len());
    lemma_stripped_ends(crate::ast::prop_get(pvs[i].1.properties, "Name"@)->0);
    lemma_prop_get_same(u.properties, "Name"@, seq!['"'] + nm + seq!['"']);
    lemma_quoted_name(nm);
}

/// No block of `e` is named `Exclusive Activation`, and no `Group` of it is
/// named `NodeGates`.
pub open spec fn no_pack_marks(e: EntityModel) -> bool
    decreases e,
{
    &&& name_of(e) != Some("Exclusive Activation"@)
    &&& !is_node_gates(e)
    &&& forall|i: int| 0 <= i < e.children.len() ==> no_pack_marks(#[trigger] e.children[i])
}

/// A tree without the marks of a pack is not recognised as one (so
/// extraction refuses it).
pub proof fn law_unmarked_not_pack(e: EntityModel)
    requires
        no_pack_marks(e),
    ensures
        !looks_exclusive(exclusive_root_of(e)),
    decreases e,
{
    assert forall|i: int| 0 <= i < e.children.len() implies !looks_exclusive(#[trigger] e.children[i]) by {
        let c = e.children[i];
        assert(no_pack_marks(c));
        assert forall|j: int| 0 <= j < c.children.len() implies !is_node_gates(#[trigger] c.children[j]) by {
            assert(no_pack_marks(c.children[j]));
        }
    }
    assert forall|i: int| 0 <= i < e.children.len() implies !is_node_gates(#[trigger] e.children[i]) by {
        assert(no_pack_marks(e.children[i]));
    }
    assert(!looks_exclusive(e));
    lemma_first_exclusive(e.children, e.children.len() as int);
    if e.block_type == "Group"@ && e.children.len() == 1 {
        assert(decreases_to!(e => e.children[0]));
        law_unmarked_not_pack(e.children[0]);
    }
}

} // verus!
