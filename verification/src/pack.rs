//! Fighter packs: reading a linked template (Group 1 plus NodeGates).

pub mod generate;
pub mod unique;
pub mod mutex;

use vstd::prelude::*;
use crate::ast::{
    EntityModel, Il2Entity, count_type, count_type_in, lemma_children_model, lemma_count_nonneg,
    lemma_count_nonneg_in, name_of, nodes,
};
use crate::text::{all_digits, chars_of, digits_value, owned, starts_with, str_eq};

verus! {

/// Summary of a loaded fighter-pack template.
#[derive(Debug, Clone, Copy, PartialEq, Eq)]
pub struct PackInfo {
    pub existing_groups: usize,
    pub plane_count: usize,
    pub spawn_choices: usize,
    pub has_node_gates: bool,
}

/// `s.parse::<usize>().is_ok()`: an optional `+`, then one or more ASCII
/// digits, in range of `usize`.
pub open spec fn parses_as_usize(s: Seq<char>) -> bool {
    let body = if s.len() > 0 && s[0] == '+' { s.drop_first() } else { s };
    body.len() > 0 && all_digits(body) && digits_value(body) <= usize::MAX
}

/// A `Group N` block (N a number).
pub open spec fn is_numbered_group(e: EntityModel) -> bool {
    e.block_type == "Group"@ && match name_of(e) {
        Some(n) => starts_with(n, "Group "@) && parses_as_usize(n.subrange(6, n.len() as int)),
        None => false,
    }
}

/// Number of `Group N` children.
pub open spec fn numbered_groups(cs: Seq<EntityModel>) -> int
    decreases cs.len(),
{
    if cs.len() == 0 {
        0
    } else {
        numbered_groups(cs.drop_last()) + if is_numbered_group(cs.last()) { 1int } else { 0int }
    }
}

/// A spawner offered as a choice: an `MCU_Spawner` named `Spawn …`.
pub open spec fn is_spawn_choice(e: EntityModel) -> bool {
    e.block_type == "MCU_Spawner"@ && match name_of(e) {
        Some(n) => starts_with(n, "Spawn "@),
        None => false,
    }
}

pub open spec fn spawn_choices_in(ns: Seq<EntityModel>) -> int
    decreases ns.len(),
{
    if ns.len() == 0 {
        0
    } else {
        spawn_choices_in(ns.drop_last()) + if is_spawn_choice(ns.last()) { 1int } else { 0int }
    }
}

/// Position of the first child that is a `Group` named `Group 1`.
pub open spec fn group1_pos(cs: Seq<EntityModel>) -> int
    decreases cs.len(),
{
    if cs.len() == 0 {
        0
    } else if cs[0].block_type == "Group"@ && name_of(cs[0]) == Some("Group 1"@) {
        0
    } else {
        1 + group1_pos(cs.drop_first())
    }
}

/// Whether some child is named `NodeGates`.
pub open spec fn has_gates(cs: Seq<EntityModel>) -> bool {
    exists|k: int| 0 <= k < cs.len() && name_of(#[trigger] cs[k]) == Some("NodeGates"@)
}

fn has_prefix_text(s: &str, prefix: &str) -> (r: bool)
    ensures
        r == starts_with(s@, prefix@),
{
    let sc = chars_of(s);
    let pc = chars_of(prefix);
    if pc.len() > sc.len() {
        return false;
    }
    let mut i: usize = 0;
    while i < pc.len()
        invariant
            i <= pc@.len() <= sc@.len(),
            sc@ == s@,
            pc@ == prefix@,
            forall|j: int| 0 <= j < i ==> #[trigger] sc@[j] == pc@[j],
        decreases pc@.len() - i,
    {
        if sc[i] != pc[i] {
            proof {
                assert(sc@.subrange(0, pc@.len() as int)[i as int] != pc@[i as int]);
            }
            return false;
        }
        i = i + 1;
    }
    proof {
        assert(sc@.subrange(0, pc@.len() as int) =~= pc@);
    }
    true
}

fn usize_parses(cs: &Vec<char>, lo: usize) -> (r: bool)
    requires
        lo <= cs@.len(),
    ensures
        r == parses_as_usize(cs@.subrange(lo as int, cs@.len() as int)),
{
    let len = cs.len();
    let ghost s = cs@.subrange(lo as int, len as int);
    let start = if lo < len && cs[lo] == '+' { lo + 1 } else { lo };
    let ghost body = cs@.subrange(start as int, len as int);
    proof {
        if lo < len && cs@[lo as int] == '+' {
            assert(body =~= s.drop_first());
        } else {
            assert(body =~= s);
        }
    }
    if start == len {
        return false;
    }
    let cap: u128 = usize::MAX as u128 + 1;
    let mut acc: u128 = 0;
    let mut i = start;
    while i < len
        invariant
            start <= i <= len == cs@.len(),
            start < len,
            body == cs@.subrange(start as int, len as int),
            s == cs@.subrange(lo as int, len as int),
            lo <= start,
            (lo < len && cs@[lo as int] == '+') ==> body == s.drop_first(),
            !(lo < len && cs@[lo as int] == '+') ==> body == s,
            cap == usize::MAX + 1,
            all_digits(cs@.subrange(start as int, i as int)),
            acc == (if digits_value(cs@.subrange(start as int, i as int)) < cap {
                digits_value(cs@.subrange(start as int, i as int))
            } else {
                cap as int
            }),
        decreases len - i,
    {
        let c = cs[i];
        if !('0' <= c && c <= '9') {
            proof {
                assert(body[i - start] == c);
            }
            return false;
        }
        let ghost pre = cs@.subrange(start as int, i as int);
        let ghost nxt = cs@.subrange(start as int, i + 1);
        proof {
            assert(nxt.drop_last() =~= pre);
            assert(nxt.last() == c);
            assert(all_digits(nxt)) by {
                assert forall|k: int| 0 <= k < nxt.len() implies crate::text::is_ascii_digit(#[trigger] nxt[k]) by {
                    if k < pre.len() {
                        assert(nxt[k] == pre[k]);
                    }
                }
            }
            crate::text::lemma_digits_value_nonneg(pre);
        }
        let d = (c as u32 - 48) as u128;
        if acc < cap {
            let v = acc * 10 + d;
            acc = if v < cap { v } else { cap };
        } else {
            proof {
                assert(digits_value(nxt) >= cap as int);
            }
        }
        i = i + 1;
    }
    proof {
        assert(cs@.subrange(start as int, i as int) =~= body);
    }
    acc < cap
}

proof fn lemma_child_count(cs: Seq<EntityModel>, k: int, t: Seq<char>)
    requires
        0 <= k < cs.len(),
    ensures
        count_type(cs[k], t) <= count_type_in(cs, t),
    decreases cs.len(),
{
    lemma_count_nonneg(cs[0], t);
    lemma_count_nonneg_in(cs.drop_first(), t);
    if k > 0 {
        lemma_child_count(cs.drop_first(), k - 1, t);
        assert(cs.drop_first()[k - 1] == cs[k]);
    }
}

fn find_group1(root: &Il2Entity) -> (r: Option<&Il2Entity>)
    ensures
        ({
            let cs = root@.children;
            let p = group1_pos(cs);
            &&& r is Some <==> p < cs.len()
            &&& r matches Some(g) ==> 0 <= p < cs.len() && g@ == cs[p]
        }),
{
    proof {
        lemma_children_model(*root);
    }
    let ghost cs = root@.children;
    let mut i: usize = 0;
    proof {
        assert(cs.skip(0) =~= cs);
    }
    while i < root.children.len()
        invariant
            i <= root.children@.len(),
            cs == root@.children,
            cs.len() == root.children@.len(),
            forall|j: int| 0 <= j < cs.len() ==> #[trigger] cs[j] == root.children@[j]@,
            group1_pos(cs) == i + group1_pos(cs.skip(i as int)),
        decreases root.children@.len() - i,
    {
        let c = &root.children[i];
        proof {
            assert(cs.skip(i as int)[0] == c@);
            assert(cs.skip(i as int).drop_first() =~= cs.skip(i + 1));
        }
        if str_eq(c.block_type.as_str(), "Group") {
            match c.name() {
                Some(n) => {
                    if str_eq(n, "Group 1") {
                        return Some(c);
                    }
                },
                None => {},
            }
        }
        i = i + 1;
    }
    proof {
        assert(cs.skip(i as int).len() == 0);
    }
    None
}

fn count_named_groups(root: &Il2Entity) -> (r: usize)
    ensures
        r as int == numbered_groups(root@.children),
{
    proof {
        lemma_children_model(*root);
    }
    let ghost cs = root@.children;
    let mut n: usize = 0;
    let mut i: usize = 0;
    while i < root.children.len()
        invariant
            i <= root.children@.len(),
            cs == root@.children,
            cs.len() == root.children@.len(),
            forall|j: int| 0 <= j < cs.len() ==> #[trigger] cs[j] == root.children@[j]@,
            n as int == numbered_groups(cs.take(i as int)),
            n <= i,
        decreases root.children@.len() - i,
    {
        let c = &root.children[i];
        proof {
            assert(cs.take(i + 1).drop_last() =~= cs.take(i as int));
            assert(cs.take(i + 1).last() == c@);
        }
        let mut hit = false;
        if str_eq(c.block_type.as_str(), "Group") {
            match c.name() {
                Some(nm) => {
                    if has_prefix_text(nm, "Group ") {
                        let nc = chars_of(nm);
                        proof {
                            reveal_strlit("Group ");
                        }
                        hit = usize_parses(&nc, 6);
                    }
                },
                None => {},
            }
        }
        if hit {
            n = n + 1;
        }
        i = i + 1;
    }
    proof {
        assert(cs.take(i as int) =~= cs);
    }
    n
}

fn count_spawn_choices(group: &Il2Entity) -> (r: usize)
    ensures
        r as int == spawn_choices_in(nodes(group@)),
{
    let mut ns: Vec<&Il2Entity> = Vec::new();
    group.collect_nodes(&mut ns);
    let ghost m = nodes(group@);
    let mut n: usize = 0;
    let mut i: usize = 0;
    while i < ns.len()
        invariant
            i <= ns@.len(),
            ns@.len() == m.len(),
            forall|j: int| 0 <= j < ns@.len() ==> #[trigger] ns@[0 + j]@ == m[j],
            n as int == spawn_choices_in(m.take(i as int)),
            n <= i,
        decreases ns@.len() - i,
    {
        let e = ns[i];
        proof {
            assert(ns@[0 + i]@ == m[i as int]);
            assert(m.take(i + 1).drop_last() =~= m.take(i as int));
            assert(m.take(i + 1).last() == e@);
        }
        let mut hit = false;
        if str_eq(e.block_type.as_str(), "MCU_Spawner") {
            match e.name() {
                Some(nm) => {
                    hit = has_prefix_text(nm, "Spawn ");
                },
                None => {},
            }
        }
        if hit {
            n = n + 1;
        }
        i = i + 1;
    }
    proof {
        assert(m.take(i as int) =~= m);
    }
    n
}

/// Summarize a loaded fighter-pack template: its numbered groups, the
/// planes and spawn choices of Group 1, and whether NodeGates is there.
/// Fails when there is no `Group 1`.
pub fn inspect_pack(root: &Il2Entity) -> (r: Result<PackInfo, String>)
    requires
        count_type(root@, "Plane"@) <= usize::MAX,
    ensures
        ({
            let cs = root@.children;
            let p = group1_pos(cs);
            if p >= cs.len() {
                r matches Err(e) && e@ == "template has no Group 1"@
            } else {
                r matches Ok(info) && {
                    &&& info.existing_groups as int == numbered_groups(cs)
                    &&& info.plane_count as int == count_type(cs[p], "Plane"@)
                    &&& info.spawn_choices as int == spawn_choices_in(nodes(cs[p]))
                    &&& info.has_node_gates == has_gates(cs)
                }
            }
        }),
{
    let group1 = match find_group1(root) {
        Some(g) => g,
        None => return Err(owned("template has no Group 1")),
    };
    proof {
        lemma_children_model(*root);
        let cs = root@.children;
        let p = group1_pos(cs);
        lemma_child_count(cs, p, "Plane"@);
        assert(count_type(root@, "Plane"@) == (if root@.block_type == "Plane"@ { 1int } else { 0int }) + count_type_in(cs, "Plane"@));
    }
    let ghost cs = root@.children;
    let mut gates = false;
    let mut i: usize = 0;
    while i < root.children.len()
        invariant
            i <= root.children@.len(),
            cs == root@.children,
            cs.len() == root.children@.len(),
            forall|j: int| 0 <= j < cs.len() ==> #[trigger] cs[j] == root.children@[j]@,
            gates == exists|k: int| 0 <= k < i && name_of(#[trigger] cs[k]) == Some("NodeGates"@),
        decreases root.children@.len() - i,
    {
        let c = &root.children[i];
        assert(cs[i as int] == c@);
        match c.name() {
            Some(nm) => {
                if str_eq(nm, "NodeGates") {
                    gates = true;
                }
            },
            None => {},
        }
        i = i + 1;
    }
    Ok(PackInfo {
        existing_groups: count_named_groups(root),
        plane_count: group1.count_block_type("Plane"),
        spawn_choices: count_spawn_choices(group1),
        has_node_gates: gates,
    })
}

} // verus!
