//! What a cleaned airfield no longer holds.

use vstd::prelude::*;
use crate::ast::{EntityModel, key_pos, lemma_key_pos, lemma_key_pos_exact, name_of, prop_get, prop_set, Props};
use crate::bombers::link::with_targets;
use super::{
    cleaned, events_list, events_scrubbed, final_strip, kept, Nearby, pruned, pruned_list, scrub_node, scrubbed, unlink_ids,
    without,
};

verus! {

/// No block of `e` links to an id of `s` through `Targets` or `Objects`.
pub open spec fn links_free(e: EntityModel, s: Set<i32>) -> bool
    decreases e,
{
    &&& forall|k: int| 0 <= k < e.targets.len() ==> !s.contains(#[trigger] e.targets[k])
    &&& forall|k: int| 0 <= k < e.objects.len() ==> !s.contains(#[trigger] e.objects[k])
    &&& forall|i: int| 0 <= i < e.children.len() ==> links_free(#[trigger] e.children[i], s)
}

/// No block below `e` carries an Index of `s`.
pub open spec fn none_below(e: EntityModel, s: Set<i32>) -> bool
    decreases e,
{
    forall|i: int|
        0 <= i < e.children.len() ==> !((#[trigger] e.children[i]).index is Some && s.contains(e.children[i].index->0))
            && none_below(e.children[i], s)
}

/// No block below `e` is named `AutoRemove`.
pub open spec fn no_auto_below(e: EntityModel) -> bool
    decreases e,
{
    forall|i: int| 0 <= i < e.children.len() ==> name_of(#[trigger] e.children[i]) != Some("AutoRemove"@) && no_auto_below(e.children[i])
}

pub(crate) proof fn lemma_prop_get_other(p: Props, k1: Seq<char>, v: Seq<char>, k2: Seq<char>)
    requires
        k1 != k2,
    ensures
        prop_get(prop_set(p, k1, v), k2) == prop_get(p, k2),
{
    let q = key_pos(p, k1);
    let r = key_pos(p, k2);
    lemma_key_pos(p, k1);
    lemma_key_pos(p, k2);
    let p2 = prop_set(p, k1, v);
    if q < p.len() {
        assert forall|j: int| 0 <= j < r implies #[trigger] p2[j].0 != k2 by {}
        if r < p.len() {
            assert(r != q);
        }
        lemma_key_pos_exact(p2, k2, r);
    } else {
        if r < p.len() {
            assert forall|j: int| 0 <= j < r implies #[trigger] p2[j].0 != k2 by {}
            lemma_key_pos_exact(p2, k2, r);
        } else {
            assert forall|j: int| 0 <= j < p.len() + 1 implies #[trigger] p2[j].0 != k2 by {}
            lemma_key_pos_exact(p2, k2, p.len() + 1int);
        }
    }
}

proof fn lemma_without(ids: Seq<i32>, s: Set<i32>)
    ensures
        forall|k: int| 0 <= k < without(ids, s).len() ==> !s.contains(#[trigger] without(ids, s)[k]),
        without(ids, s).len() <= ids.len(),
        without(ids, s).len() == ids.len() ==> forall|k: int| 0 <= k < ids.len() ==> !s.contains(#[trigger] ids[k]),
    decreases ids.len(),
{
    if ids.len() > 0 {
        let init = ids.drop_last();
        lemma_without(init, s);
        let w = without(init, s);
        if !s.contains(ids.last()) {
            assert forall|k: int| 0 <= k < without(ids, s).len() implies !s.contains(#[trigger] without(ids, s)[k]) by {
                if k < w.len() {
                    assert(without(ids, s)[k] == w[k]);
                }
            }
            if without(ids, s).len() == ids.len() {
                assert forall|k: int| 0 <= k < ids.len() implies !s.contains(#[trigger] ids[k]) by {
                    if k < ids.len() - 1 {
                        assert(ids[k] == init[k]);
                    }
                }
            }
        }
    }
}

/// One scrubbed block keeps its Index and name and links to nothing in `s`.
proof fn lemma_scrub_node(e: EntityModel, s: Set<i32>)
    ensures
        scrub_node(e, s).index == e.index,
        scrub_node(e, s).children == e.children,
        name_of(scrub_node(e, s)) == name_of(e),
        forall|k: int| 0 <= k < scrub_node(e, s).targets.len() ==> !s.contains(#[trigger] scrub_node(e, s).targets[k]),
        forall|k: int| 0 <= k < scrub_node(e, s).objects.len() ==> !s.contains(#[trigger] scrub_node(e, s).objects[k]),
{
    let t = without(e.targets, s);
    lemma_without(e.targets, s);
    let e1 = if t.len() != e.targets.len() {
        with_targets(e, t)
    } else {
        e
    };
    reveal_strlit("Targets");
    reveal_strlit("Objects");
    reveal_strlit("Name");
    assert("Targets"@.len() != "Name"@.len());
    assert("Objects"@.len() != "Name"@.len());
    if t.len() != e.targets.len() {
        lemma_prop_get_other(e.properties, "Targets"@, crate::ast::int_array_text(t), "Name"@);
    }
    let o = without(e1.objects, s);
    lemma_without(e1.objects, s);
    if o.len() != e1.objects.len() {
        lemma_prop_get_other(e1.properties, "Objects"@, crate::ast::int_array_text(o), "Name"@);
    }
}

proof fn lemma_scrubbed(e: EntityModel, s: Set<i32>)
    ensures
        links_free(scrubbed(e, s), s),
        none_below(e, s) ==> none_below(scrubbed(e, s), s),
        no_auto_below(e) ==> no_auto_below(scrubbed(e, s)),
        scrubbed(e, s).index == e.index,
        name_of(scrubbed(e, s)) == name_of(e),
    decreases e,
{
    lemma_scrub_node(e, s);
    let r = scrubbed(e, s);
    assert forall|i: int| 0 <= i < e.children.len() implies links_free(#[trigger] r.children[i], s) && (none_below(
        e.children[i],
        s,
    ) ==> none_below(r.children[i], s)) && (no_auto_below(e.children[i]) ==> no_auto_below(r.children[i]))
        && r.children[i].index == e.children[i].index && name_of(r.children[i]) == name_of(e.children[i]) by {
        lemma_scrubbed(e.children[i], s);
    }
    assert(name_of(r) == name_of(scrub_node(e, s))) by {
        assert(r.properties == scrub_node(e, s).properties);
    }
}

proof fn lemma_pruned(e: EntityModel, s: Set<i32>)
    ensures
        none_below(pruned(e, s), s),
        no_auto_below(pruned(e, s)),
    decreases e,
{
    lemma_pruned_list(e.children, s);
    let r = pruned(e, s);
    let l = pruned_list(e.children, s);
    assert(r.children == l);
    assert forall|i: int| 0 <= i < r.children.len() implies !((#[trigger] r.children[i]).index is Some && s.contains(
        r.children[i].index->0,
    )) && none_below(r.children[i], s) by {
        assert(kept(l[i], s));
    }
    assert forall|i: int| 0 <= i < r.children.len() implies name_of(#[trigger] r.children[i]) != Some("AutoRemove"@)
        && no_auto_below(r.children[i]) by {
        assert(kept(l[i], s));
    }
}

proof fn lemma_pruned_list(cs: Seq<EntityModel>, s: Set<i32>)
    ensures
        forall|i: int|
            0 <= i < pruned_list(cs, s).len() ==> kept(#[trigger] pruned_list(cs, s)[i], s) && none_below(pruned_list(cs, s)[i], s)
                && no_auto_below(pruned_list(cs, s)[i]),
    decreases cs,
{
    if cs.len() > 0 {
        lemma_pruned_list(cs.drop_first(), s);
        lemma_pruned(cs[0], s);
        let head: Seq<EntityModel> = if kept(cs[0], s) {
            seq![pruned(cs[0], s)]
        } else {
            seq![]
        };
        let rest = pruned_list(cs.drop_first(), s);
        assert forall|i: int| 0 <= i < pruned_list(cs, s).len() implies kept(#[trigger] pruned_list(cs, s)[i], s) && none_below(
            pruned_list(cs, s)[i],
            s,
        ) && no_auto_below(pruned_list(cs, s)[i]) by {
            if i < head.len() {
                assert(pruned_list(cs, s)[i] == pruned(cs[0], s));
                assert(pruned(cs[0], s).index == cs[0].index);
                assert(pruned(cs[0], s).properties == cs[0].properties);
            } else {
                assert(pruned_list(cs, s)[i] == rest[i - head.len()]);
            }
        }
    }
}

proof fn lemma_events(e: EntityModel, s: Set<i32>)
    ensures
        links_free(e, s) ==> links_free(events_scrubbed(e, s), s),
        none_below(e, s) ==> none_below(events_scrubbed(e, s), s),
        no_auto_below(e) ==> no_auto_below(events_scrubbed(e, s)),
        events_scrubbed(e, s).index == e.index,
        events_scrubbed(e, s).properties == e.properties,
        events_scrubbed(e, s).targets == e.targets,
        events_scrubbed(e, s).objects == e.objects,
    decreases e,
{
    let f = e.block_type == "OnEvents"@ || e.block_type == "OnReports"@;
    lemma_events_list(e.children, s, f);
    let r = events_scrubbed(e, s);
    let l = events_list(e.children, s, f);
    let cs = e.children;
    assert(r.children == l);
    if links_free(e, s) {
        assert forall|i: int| 0 <= i < r.children.len() implies links_free(#[trigger] r.children[i], s) by {
            let j = choose|j: int|
                0 <= j < cs.len() && #[trigger] l[i] == events_scrubbed(cs[j], s) && (links_free(cs[j], s) ==> links_free(
                    l[i],
                    s,
                )) && (none_below(cs[j], s) ==> none_below(l[i], s)) && (no_auto_below(cs[j]) ==> no_auto_below(l[i]))
                    && l[i].index == cs[j].index && l[i].properties == cs[j].properties;
            assert(links_free(cs[j], s));
        }
    }
    if none_below(e, s) {
        assert forall|i: int| 0 <= i < r.children.len() implies !((#[trigger] r.children[i]).index is Some && s.contains(
            r.children[i].index->0,
        )) && none_below(r.children[i], s) by {
            let j = choose|j: int|
                0 <= j < cs.len() && #[trigger] l[i] == events_scrubbed(cs[j], s) && (links_free(cs[j], s) ==> links_free(
                    l[i],
                    s,
                )) && (none_below(cs[j], s) ==> none_below(l[i], s)) && (no_auto_below(cs[j]) ==> no_auto_below(l[i]))
                    && l[i].index == cs[j].index && l[i].properties == cs[j].properties;
            assert(!(cs[j].index is Some && s.contains(cs[j].index->0)) && none_below(cs[j], s));
        }
    }
    if no_auto_below(e) {
        assert forall|i: int| 0 <= i < r.children.len() implies name_of(#[trigger] r.children[i]) != Some("AutoRemove"@)
            && no_auto_below(r.children[i]) by {
            let j = choose|j: int|
                0 <= j < cs.len() && #[trigger] l[i] == events_scrubbed(cs[j], s) && (links_free(cs[j], s) ==> links_free(
                    l[i],
                    s,
                )) && (none_below(cs[j], s) ==> none_below(l[i], s)) && (no_auto_below(cs[j]) ==> no_auto_below(l[i]))
                    && l[i].index == cs[j].index && l[i].properties == cs[j].properties;
            assert(name_of(cs[j]) != Some("AutoRemove"@) && no_auto_below(cs[j]));
            assert(name_of(l[i]) == name_of(cs[j]));
        }
    }
}

proof fn lemma_events_list(cs: Seq<EntityModel>, s: Set<i32>, filter: bool)
    ensures
        forall|i: int|
            0 <= i < events_list(cs, s, filter).len() ==> exists|j: int|
                0 <= j < cs.len() && #[trigger] events_list(cs, s, filter)[i] == events_scrubbed(cs[j], s) && (links_free(
                    cs[j],
                    s,
                ) ==> links_free(events_list(cs, s, filter)[i], s)) && (none_below(cs[j], s) ==> none_below(
                    events_list(cs, s, filter)[i],
                    s,
                )) && (no_auto_below(cs[j]) ==> no_auto_below(events_list(cs, s, filter)[i])) && events_list(cs, s, filter)[i].index
                    == cs[j].index && events_list(cs, s, filter)[i].properties == cs[j].properties,
    decreases cs,
{
    if cs.len() > 0 {
        let t = cs.drop_first();
        lemma_events_list(t, s, filter);
        lemma_events(cs[0], s);
        let head: Seq<EntityModel> = if !filter || super::event_kept(cs[0], s) {
            seq![events_scrubbed(cs[0], s)]
        } else {
            seq![]
        };
        let rest = events_list(t, s, filter);
        let l = events_list(cs, s, filter);
        assert forall|i: int| 0 <= i < l.len() implies exists|j: int|
            0 <= j < cs.len() && #[trigger] l[i] == events_scrubbed(cs[j], s) && (links_free(cs[j], s) ==> links_free(l[i], s))
                && (none_below(cs[j], s) ==> none_below(l[i], s)) && (no_auto_below(cs[j]) ==> no_auto_below(l[i]))
                && l[i].index == cs[j].index && l[i].properties == cs[j].properties by {
            if i < head.len() {
                assert(l[i] == events_scrubbed(cs[0], s));
            } else {
                assert(l[i] == rest[i - head.len()]);
                let j = choose|j: int|
                    0 <= j < t.len() && #[trigger] rest[i - head.len()] == events_scrubbed(t[j], s) && (links_free(t[j], s)
                        ==> links_free(rest[i - head.len()], s)) && (none_below(t[j], s) ==> none_below(
                        rest[i - head.len()],
                        s,
                    )) && (no_auto_below(t[j]) ==> no_auto_below(rest[i - head.len()])) && rest[i - head.len()].index
                        == t[j].index && rest[i - head.len()].properties == t[j].properties;
                assert(t[j] == cs[j + 1]);
            }
        }
    }
}

/// A cleaned airfield holds no stripped block below its root and no link to
/// a stripped id; and once anything was cleaned, no `AutoRemove` block is
/// left below the root.
pub proof fn law_cleaned_holds_nothing_stripped(root: EntityModel, facts: Seq<Nearby>, pc: Seq<char>)
    ensures
        none_below(cleaned(root, facts, pc), final_strip(root, facts)),
        links_free(cleaned(root, facts, pc), final_strip(root, facts)),
        !(final_strip(root, facts) =~= Set::<i32>::empty() && unlink_ids(root, facts) =~= Set::<i32>::empty())
            ==> no_auto_below(cleaned(root, facts, pc)),
{
    let s = final_strip(root, facts);
    let u = unlink_ids(root, facts);
    if s =~= Set::<i32>::empty() && u =~= Set::<i32>::empty() {
        lemma_none_below_empty(root, s);
        lemma_links_free_empty(root, s);
    } else {
        let t0 = super::unlink_node(root, u, s, pc).0;
        lemma_pruned(t0, s);
        let t1 = pruned(t0, s);
        lemma_scrubbed(t1, s);
        let t2 = scrubbed(t1, s);
        lemma_events(t2, s);
    }
}

proof fn lemma_none_below_empty(e: EntityModel, s: Set<i32>)
    requires
        s =~= Set::<i32>::empty(),
    ensures
        none_below(e, s),
    decreases e,
{
    assert forall|i: int| 0 <= i < e.children.len() implies !((#[trigger] e.children[i]).index is Some && s.contains(
        e.children[i].index->0,
    )) && none_below(e.children[i], s) by {
        lemma_none_below_empty(e.children[i], s);
    }
}

proof fn lemma_links_free_empty(e: EntityModel, s: Set<i32>)
    requires
        s =~= Set::<i32>::empty(),
    ensures
        links_free(e, s),
    decreases e,
{
    assert forall|i: int| 0 <= i < e.children.len() implies links_free(#[trigger] e.children[i], s) by {
        lemma_links_free_empty(e.children[i], s);
    }
}

} // verus!
