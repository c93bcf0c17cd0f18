//! No two blocks of a generated pack share an Index, when no two blocks of
//! the template do and its gate cell 1 is six different blocks.

use vstd::prelude::*;
use crate::ast::{EntityModel, indexes_in, indexes_of, max_index_of, retarget};
use crate::bombers::link::{lemma_dup_run, lemma_indexes_in_concat, lemma_same_indexes_list, lemma_unique_concat, lemma_unique_widen, named, rng, unique_in};
use crate::duplicate::{duplicated, first_free, lemma_indexes_below_max};
use crate::recon::placed::lemma_indexes_in_push;
use super::generate::{cell1, gate_size, gate_timer, gates_at, gates_of, group1, id_pos, is_named, moved, named_pos, node_gates, pack_cell, pack_error, pack_fits, pack_group, pack_waypoint, packed, renamed_cell, rtb1, unit_at, unit_of, unit_size, units_flat, cells_flat, wired_cell, wired_group, headed};

verus! {

/// The block's own Index, as a list of zero or one.
pub open spec fn own_index(e: EntityModel) -> Seq<i32> {
    match e.index {
        Some(i) => seq![i],
        None => seq![],
    }
}

/// The values of `s`, as integers.
pub open spec fn ival(s: Seq<i32>) -> Set<int> {
    Set::new(|x: int| exists|k: int| 0 <= k < s.len() && s[k] as int == x)
}

/// Position in NodeGates of block `i` of gate cell 1 (in the order of
/// [`cell1`]).
pub open spec fn cell_pos(ng: EntityModel, i: int) -> int {
    let oe = gate_timer(ng, "1OUT - ENABLE"@)->0;
    let od = gate_timer(ng, "1OUT - DISABLE"@)->0;
    if i == 0 {
        named_pos(ng.children, None, "1IN - DISABLE"@)
    } else if i == 1 {
        named_pos(ng.children, None, "1OUT - DISABLE"@)
    } else if i == 2 {
        named_pos(ng.children, None, "1IN - ENABLE"@)
    } else if i == 3 {
        named_pos(ng.children, None, "1OUT - ENABLE"@)
    } else if i == 4 {
        id_pos(ng.children, oe.targets[0])
    } else {
        id_pos(ng.children, od.targets[0])
    }
}

/// The two fan-out timers that the OUT timers of cell 1 fire are two
/// different blocks, and neither is one of the four named timers.
pub open spec fn fanouts_apart(ng: EntityModel) -> bool {
    &&& cell_pos(ng, 4) != cell_pos(ng, 5)
    &&& forall|i: int| 0 <= i < 4 ==> #[trigger] cell_pos(ng, i) != cell_pos(ng, 4) && cell_pos(ng, i) != cell_pos(ng, 5)
}

// ---------------------------------------------------------------------------
// Lists of indexes
// ---------------------------------------------------------------------------

proof fn lemma_ival_unique(s: Seq<i32>)
    requires
        s.no_duplicates(),
    ensures
        unique_in(s, ival(s)),
{
    assert forall|k: int| 0 <= k < s.len() implies ival(s).contains(#[trigger] s[k] as int) by {}
}

proof fn lemma_ival_concat(a: Seq<i32>, b: Seq<i32>)
    ensures
        ival(a + b) == ival(a).union(ival(b)),
{
    let c = a + b;
    assert forall|x: int| ival(c).contains(x) <==> ival(a).union(ival(b)).contains(x) by {
        if ival(c).contains(x) {
            let k = choose|k: int| 0 <= k < c.len() && c[k] as int == x;
            if k < a.len() {
                assert(a[k] == c[k]);
            } else {
                assert(b[k - a.len()] == c[k]);
            }
        }
        if ival(a).contains(x) {
            let k = choose|k: int| 0 <= k < a.len() && a[k] as int == x;
            assert(c[k] == a[k]);
        }
        if ival(b).contains(x) {
            let k = choose|k: int| 0 <= k < b.len() && b[k] as int == x;
            assert(c[k + a.len()] == b[k]);
        }
    }
    assert(ival(c) =~= ival(a).union(ival(b)));
}

proof fn lemma_split_nodup(a: Seq<i32>, b: Seq<i32>)
    requires
        (a + b).no_duplicates(),
    ensures
        a.no_duplicates(),
        b.no_duplicates(),
        ival(a).disjoint(ival(b)),
{
    let c = a + b;
    assert forall|i: int, j: int| 0 <= i < a.len() && 0 <= j < a.len() && i != j implies a[i] != a[j] by {
        assert(c[i] == a[i] && c[j] == a[j]);
    }
    assert forall|i: int, j: int| 0 <= i < b.len() && 0 <= j < b.len() && i != j implies b[i] != b[j] by {
        assert(c[i + a.len()] == b[i] && c[j + a.len()] == b[j]);
    }
    assert forall|x: int| !(ival(a).contains(x) && ival(b).contains(x)) by {
        if ival(a).contains(x) && ival(b).contains(x) {
            let i = choose|i: int| 0 <= i < a.len() && a[i] as int == x;
            let j = choose|j: int| 0 <= j < b.len() && b[j] as int == x;
            assert(c[i] == a[i]);
            assert(c[j + a.len()] == b[j]);
        }
    }
}

/// The values of a list of indexes lie at or below the tree's highest Index.
pub(crate) proof fn lemma_ival_below(e: EntityModel)
    ensures
        forall|x: int| #[trigger] ival(indexes_of(e)).contains(x) ==> x <= max_index_of(e),
{
    lemma_indexes_below_max(e);
    assert forall|x: int| #[trigger] ival(indexes_of(e)).contains(x) implies x <= max_index_of(e) by {
        let k = choose|k: int| 0 <= k < indexes_of(e).len() && indexes_of(e)[k] as int == x;
    }
}

// ---------------------------------------------------------------------------
// Blocks of one tree
// ---------------------------------------------------------------------------

proof fn lemma_child_part(cs: Seq<EntityModel>, p: int)
    requires
        0 <= p < cs.len(),
    ensures
        indexes_in(cs) == indexes_in(cs.take(p)) + indexes_of(cs[p]) + indexes_in(cs.skip(p + 1)),
{
    let e = Seq::<EntityModel>::empty();
    assert(cs =~= cs.take(p) + e.push(cs[p]) + cs.skip(p + 1));
    lemma_indexes_in_concat(cs.take(p) + e.push(cs[p]), cs.skip(p + 1));
    lemma_indexes_in_concat(cs.take(p), e.push(cs[p]));
    lemma_indexes_in_push(e, cs[p]);
    assert(indexes_in(e) =~= Seq::<i32>::empty());
    assert(indexes_in(e.push(cs[p])) =~= indexes_of(cs[p]));
}

/// A child's indexes are distinct and among its siblings' when those are.
pub(crate) proof fn lemma_child_facts(cs: Seq<EntityModel>, p: int)
    requires
        0 <= p < cs.len(),
        indexes_in(cs).no_duplicates(),
    ensures
        indexes_of(cs[p]).no_duplicates(),
        ival(indexes_of(cs[p])).subset_of(ival(indexes_in(cs))),
{
    let a = indexes_in(cs.take(p));
    let x = indexes_of(cs[p]);
    let b = indexes_in(cs.skip(p + 1));
    lemma_child_part(cs, p);
    lemma_split_nodup(a + x, b);
    lemma_split_nodup(a, x);
    lemma_ival_concat(a + x, b);
    lemma_ival_concat(a, x);
}

proof fn lemma_apart_ordered(cs: Seq<EntityModel>, p: int, q: int)
    requires
        0 <= p < q < cs.len(),
        indexes_in(cs).no_duplicates(),
    ensures
        ival(indexes_of(cs[p])).disjoint(ival(indexes_of(cs[q]))),
{
    let a = indexes_in(cs.take(p));
    let x = indexes_of(cs[p]);
    let rest = cs.skip(p + 1);
    let b = indexes_in(rest);
    lemma_child_part(cs, p);
    lemma_split_nodup(a + x, b);
    lemma_ival_concat(a, x);
    assert(rest[q - p - 1] == cs[q]);
    lemma_child_part(rest, q - p - 1);
    let a2 = indexes_in(rest.take(q - p - 1));
    let y = indexes_of(cs[q]);
    let b2 = indexes_in(rest.skip(q - p));
    lemma_ival_concat(a2 + y, b2);
    lemma_ival_concat(a2, y);
    assert(b == a2 + y + b2);
    assert forall|z: int| !(ival(x).contains(z) && ival(y).contains(z)) by {
        if ival(x).contains(z) && ival(y).contains(z) {
            assert(ival(a + x).contains(z));
            assert(ival(b).contains(z));
        }
    }
}

/// Two different children of one block share no Index when the block's
/// indexes are distinct.
proof fn lemma_children_apart(cs: Seq<EntityModel>, p: int, q: int)
    requires
        0 <= p < cs.len(),
        0 <= q < cs.len(),
        p != q,
        indexes_in(cs).no_duplicates(),
    ensures
        ival(indexes_of(cs[p])).disjoint(ival(indexes_of(cs[q]))),
{
    if p < q {
        lemma_apart_ordered(cs, p, q);
    } else {
        lemma_apart_ordered(cs, q, p);
    }
}

/// A block's own Index is none of its descendants'.
pub(crate) proof fn lemma_own_apart(e: EntityModel)
    requires
        indexes_of(e).no_duplicates(),
    ensures
        indexes_of(e) == own_index(e) + indexes_in(e.children),
        own_index(e).no_duplicates(),
        indexes_in(e.children).no_duplicates(),
        ival(own_index(e)).disjoint(ival(indexes_in(e.children))),
        ival(indexes_of(e)) == ival(own_index(e)).union(ival(indexes_in(e.children))),
{
    assert(indexes_of(e) == own_index(e) + indexes_in(e.children));
    lemma_split_nodup(own_index(e), indexes_in(e.children));
    lemma_ival_concat(own_index(e), indexes_in(e.children));
}

// ---------------------------------------------------------------------------
// What keeps indexes
// ---------------------------------------------------------------------------

proof fn lemma_retarget_indexes(e: EntityModel, a: i32, b: i32)
    ensures
        indexes_of(retarget(e, a, b)) == indexes_of(e),
    decreases e,
{
    let r = retarget(e, a, b);
    assert forall|i: int| 0 <= i < e.children.len() implies indexes_of(#[trigger] r.children[i]) == indexes_of(e.children[i]) by {
        lemma_retarget_indexes(e.children[i], a, b);
    }
    lemma_same_indexes_list(e.children, r.children);
}

proof fn lemma_moved_indexes(e: EntityModel, a: Option<i32>, b: Option<i32>)
    ensures
        indexes_of(moved(e, a, b)) == indexes_of(e),
{
    match (a, b) {
        (Some(x), Some(y)) => {
            if x != y {
                lemma_retarget_indexes(e, x, y);
            }
        },
        _ => {},
    }
}

proof fn lemma_two(s: Seq<EntityModel>)
    requires
        s.len() == 2,
    ensures
        indexes_in(s) == indexes_of(s[0]) + indexes_of(s[1]),
{
    let e = Seq::<EntityModel>::empty();
    assert(s =~= e.push(s[0]).push(s[1]));
    lemma_indexes_in_push(e, s[0]);
    lemma_indexes_in_push(e.push(s[0]), s[1]);
    assert(indexes_in(e) =~= Seq::<i32>::empty());
    assert(indexes_in(s) =~= indexes_of(s[0]) + indexes_of(s[1]));
}

pub(crate) proof fn lemma_six(s: Seq<EntityModel>)
    requires
        s.len() == 6,
    ensures
        indexes_in(s) == indexes_of(s[0]) + indexes_of(s[1]) + indexes_of(s[2]) + indexes_of(s[3]) + indexes_of(s[4])
            + indexes_of(s[5]),
{
    let e = Seq::<EntityModel>::empty();
    assert(s =~= e.push(s[0]).push(s[1]).push(s[2]).push(s[3]).push(s[4]).push(s[5]));
    lemma_indexes_in_push(e, s[0]);
    lemma_indexes_in_push(e.push(s[0]), s[1]);
    lemma_indexes_in_push(e.push(s[0]).push(s[1]), s[2]);
    lemma_indexes_in_push(e.push(s[0]).push(s[1]).push(s[2]), s[3]);
    lemma_indexes_in_push(e.push(s[0]).push(s[1]).push(s[2]).push(s[3]), s[4]);
    lemma_indexes_in_push(e.push(s[0]).push(s[1]).push(s[2]).push(s[3]).push(s[4]), s[5]);
    assert(indexes_in(e) =~= Seq::<i32>::empty());
    assert(indexes_in(s) =~= indexes_of(s[0]) + indexes_of(s[1]) + indexes_of(s[2]) + indexes_of(s[3]) + indexes_of(s[4])
        + indexes_of(s[5]));
}

// ---------------------------------------------------------------------------
// The parts of the template
// ---------------------------------------------------------------------------

proof fn lemma_named_found(cs: Seq<EntityModel>, bt: Option<Seq<char>>, name: Seq<char>)
    ensures
        0 <= named_pos(cs, bt, name) <= cs.len(),
        named_pos(cs, bt, name) < cs.len() ==> is_named(cs[named_pos(cs, bt, name)], bt, name),
    decreases cs.len(),
{
    if cs.len() > 0 && !is_named(cs[0], bt, name) {
        lemma_named_found(cs.drop_first(), bt, name);
        let p = named_pos(cs.drop_first(), bt, name);
        if p < cs.drop_first().len() {
            assert(cs.drop_first()[p] == cs[p + 1]);
        }
    }
}

proof fn lemma_id_found(cs: Seq<EntityModel>, id: i32)
    ensures
        0 <= id_pos(cs, id) <= cs.len(),
    decreases cs.len(),
{
    if cs.len() > 0 && cs[0].index != Some(id) {
        lemma_id_found(cs.drop_first(), id);
    }
}

/// Where the three parts a pack is built from sit among the template's
/// children: `RTB - 1`, Group 1 and NodeGates, at three different places.
pub(crate) proof fn lemma_root_parts(root: EntityModel)
    requires
        pack_error(root) is None,
    ensures
        ({
            let cs = root.children;
            let pw = named_pos(cs, Some("MCU_Waypoint"@), "RTB - 1"@);
            let pg = named_pos(cs, Some("Group"@), "Group 1"@);
            let pn = named_pos(cs, None, "NodeGates"@);
            &&& 0 <= pw < cs.len() && 0 <= pg < cs.len() && 0 <= pn < cs.len()
            &&& pw != pg && pw != pn && pg != pn
            &&& rtb1(root)->0 == cs[pw]
            &&& group1(root)->0 == cs[pg]
            &&& node_gates(root)->0 == cs[pn]
        }),
{
    let cs = root.children;
    lemma_named_found(cs, Some("MCU_Waypoint"@), "RTB - 1"@);
    lemma_named_found(cs, Some("Group"@), "Group 1"@);
    lemma_named_found(cs, None, "NodeGates"@);
    reveal_strlit("MCU_Waypoint");
    reveal_strlit("Group");
    reveal_strlit("RTB - 1");
    reveal_strlit("Group 1");
    reveal_strlit("NodeGates");
    assert("MCU_Waypoint"@.len() != "Group"@.len());
    assert("RTB - 1"@.len() != "NodeGates"@.len());
    assert("Group 1"@.len() != "NodeGates"@.len());
}

/// Where the six blocks of gate cell 1 sit among NodeGates' children; the
/// four named timers are four different blocks.
pub(crate) proof fn lemma_cell_parts(ng: EntityModel)
    requires
        crate::pack::generate::cell_error(ng) is None,
    ensures
        forall|i: int| 0 <= i < 6 ==> 0 <= #[trigger] cell_pos(ng, i) < ng.children.len(),
        forall|i: int| 0 <= i < 6 ==> #[trigger] cell1(ng)[i] == ng.children[cell_pos(ng, i)],
        forall|i: int, j: int| 0 <= i < 4 && 0 <= j < 4 && i != j ==> #[trigger] cell_pos(ng, i) != #[trigger] cell_pos(ng, j),
{
    let cs = ng.children;
    let oe = gate_timer(ng, "1OUT - ENABLE"@)->0;
    let od = gate_timer(ng, "1OUT - DISABLE"@)->0;
    lemma_named_found(cs, None, "1IN - DISABLE"@);
    lemma_named_found(cs, None, "1OUT - DISABLE"@);
    lemma_named_found(cs, None, "1IN - ENABLE"@);
    lemma_named_found(cs, None, "1OUT - ENABLE"@);
    lemma_id_found(cs, oe.targets[0]);
    lemma_id_found(cs, od.targets[0]);
    reveal_strlit("1IN - DISABLE");
    reveal_strlit("1OUT - DISABLE");
    reveal_strlit("1IN - ENABLE");
    reveal_strlit("1OUT - ENABLE");
    assert("1IN - DISABLE"@[2] != "1OUT - ENABLE"@[2]);
    assert("1IN - DISABLE"@.len() != "1OUT - DISABLE"@.len());
    assert("1IN - DISABLE"@.len() != "1IN - ENABLE"@.len());
    assert("1OUT - DISABLE"@.len() != "1IN - ENABLE"@.len());
    assert("1OUT - DISABLE"@.len() != "1OUT - ENABLE"@.len());
    assert("1IN - ENABLE"@.len() != "1OUT - ENABLE"@.len());
    assert forall|i: int, j: int| 0 <= i < 4 && 0 <= j < 4 && i != j implies #[trigger] cell_pos(ng, i) != #[trigger] cell_pos(
        ng,
        j,
    ) by {
        if cell_pos(ng, i) == cell_pos(ng, j) {
            assert(cell1(ng)[i] == cs[cell_pos(ng, i)]);
        }
    }
}

// ---------------------------------------------------------------------------
// The copies
// ---------------------------------------------------------------------------

/// Every Index handed out to a copy lies above every Index of the template.
pub(crate) proof fn lemma_fresh_above(root: EntityModel, n: int, x: int)
    requires
        n >= 1,
        pack_fits(root, n),
        first_free(root) <= x < first_free(root) + (n - 1) * (unit_size(root) + gate_size(root)),
    ensures
        x > max_index_of(root),
{
    let w = unit_size(root) + gate_size(root);
    if n == 1 {
        assert((n - 1) * w == 0) by (nonlinear_arith)
            requires
                n == 1,
        ;
    }
}

proof fn lemma_unit_copy(root: EntityModel, n: int, k: int)
    requires
        pack_error(root) is None,
        1 <= k < n,
        pack_fits(root, n),
    ensures
        unique_in(
            indexes_of(pack_waypoint(root, k)) + indexes_of(wired_group(root, n, k)),
            rng(unit_at(root, k), unit_at(root, k + 1)),
        ),
{
    let u = unit_of(root);
    let us = unit_size(root);
    let at = unit_at(root, k);
    let d = duplicated(u, at);
    crate::pack::generate::lemma_copy_len(seq![rtb1(root)->0, group1(root)->0], at);
    crate::pack::generate::lemma_step(k, n, us);
    crate::pack::generate::lemma_split(n, us, gate_size(root));
    crate::duplicate::lemma_max_nonneg(root);
    let c1 = cell1(node_gates(root)->0);
    let ck = pack_cell(root, n, k);
    let g0 = pack_group(root, k);
    lemma_moved_indexes(g0, c1[3].index, ck[3].index);
    lemma_moved_indexes(moved(g0, c1[3].index, ck[3].index), c1[1].index, ck[1].index);
    assert(indexes_of(pack_waypoint(root, k)) == indexes_of(d.children[0]));
    assert(indexes_of(g0) == indexes_of(d.children[1]));
    lemma_two(d.children);
    assert(indexes_of(d) == indexes_in(d.children));
    lemma_dup_run(u, at);
}

/// Cell 0 keeps the indexes of gate cell 1.
proof fn lemma_first_cell(root: EntityModel, n: int)
    ensures
        indexes_in(wired_cell(root, n, 0)) == indexes_in(cell1(node_gates(root)->0)),
{
    let w = wired_cell(root, n, 0);
    let c = cell1(node_gates(root)->0);
    lemma_six(w);
    lemma_six(c);
    assert(indexes_of(w[0]) == indexes_of(c[0]));
    assert(indexes_of(w[1]) == indexes_of(c[1]));
    assert(indexes_of(w[2]) == indexes_of(c[2]));
    assert(indexes_of(w[3]) == indexes_of(c[3]));
}

pub(crate) proof fn lemma_cell_copy(root: EntityModel, n: int, k: int)
    requires
        pack_error(root) is None,
        1 <= k < n,
        pack_fits(root, n),
    ensures
        unique_in(indexes_in(wired_cell(root, n, k)), rng(gates_at(root, n, k), gates_at(root, n, k + 1))),
{
    let g = gates_of(root);
    let us = unit_size(root);
    let gs = gate_size(root);
    let at = gates_at(root, n, k);
    let d = duplicated(g, at);
    crate::pack::generate::lemma_copy_len(cell1(node_gates(root)->0), at);
    crate::pack::generate::lemma_step(k, n, gs);
    crate::pack::generate::lemma_split(n, us, gs);
    crate::duplicate::lemma_max_nonneg(root);
    let c = pack_cell(root, n, k);
    let w = wired_cell(root, n, k);
    assert(c == renamed_cell(d.children, k + 1));
    lemma_six(w);
    lemma_six(c);
    lemma_six(d.children);
    assert(indexes_of(w[0]) == indexes_of(d.children[0]));
    assert(indexes_of(w[1]) == indexes_of(d.children[1]));
    assert(indexes_of(w[2]) == indexes_of(d.children[2]));
    assert(indexes_of(w[3]) == indexes_of(d.children[3]));
    assert(indexes_of(w[4]) == indexes_of(d.children[4]));
    assert(indexes_of(w[5]) == indexes_of(d.children[5]));
    assert(indexes_of(d) == indexes_in(d.children));
    lemma_dup_run(g, at);
}

/// The units of a pack hold the indexes of `RTB - 1` and Group 1 (whose set
/// is `t`) and a run of fresh ones.
proof fn lemma_units_unique(root: EntityModel, n: int, k: int, t: Set<int>)
    requires
        pack_error(root) is None,
        1 <= k <= n,
        pack_fits(root, n),
        unique_in(indexes_of(rtb1(root)->0) + indexes_of(group1(root)->0), t),
        forall|x: int| #[trigger] t.contains(x) ==> x <= max_index_of(root),
    ensures
        unique_in(indexes_in(units_flat(root, n, k)), t.union(rng(first_free(root), unit_at(root, k)))),
    decreases k,
{
    let ff = first_free(root);
    let us = unit_size(root);
    let gs = gate_size(root);
    crate::pack::generate::lemma_split(n, us, gs);
    if k == 1 {
        let s = units_flat(root, n, 1);
        assert(units_flat(root, n, 0) == Seq::<EntityModel>::empty());
        assert(s =~= seq![pack_waypoint(root, 0), wired_group(root, n, 0)]);
        lemma_two(s);
        let c1 = cell1(node_gates(root)->0);
        let g0 = pack_group(root, 0);
        lemma_moved_indexes(g0, c1[3].index, c1[3].index);
        lemma_moved_indexes(moved(g0, c1[3].index, c1[3].index), c1[1].index, c1[1].index);
        assert(unit_at(root, 1) == ff) by {
            assert((1 - 1) * us == 0) by (nonlinear_arith);
        }
        lemma_unique_widen(indexes_in(s), t, t.union(rng(ff, unit_at(root, 1))));
    } else {
        lemma_units_unique(root, n, k - 1, t);
        crate::pack::generate::lemma_step(k - 1, n, us);
        let prev = units_flat(root, n, k - 1);
        let pair = seq![pack_waypoint(root, k - 1), wired_group(root, n, k - 1)];
        assert(units_flat(root, n, k) == prev + pair);
        lemma_indexes_in_concat(prev, pair);
        lemma_two(pair);
        lemma_unit_copy(root, n, k - 1);
        let ra = t.union(rng(ff, unit_at(root, k - 1)));
        let rb = rng(unit_at(root, k - 1), unit_at(root, k));
        assert forall|x: int| !(ra.contains(x) && rb.contains(x)) by {
            if rb.contains(x) {
                lemma_fresh_above(root, n, x);
            }
        }
        lemma_unique_concat(indexes_in(prev), indexes_in(pair), ra, rb);
        lemma_unique_widen(indexes_in(prev) + indexes_in(pair), ra.union(rb), t.union(rng(ff, unit_at(root, k))));
    }
}

/// The cells of a pack hold the indexes of gate cell 1 (whose set is `c`)
/// and a run of fresh ones after those of the units.
proof fn lemma_cells_unique(root: EntityModel, n: int, k: int, c: Set<int>)
    requires
        pack_error(root) is None,
        1 <= k <= n,
        pack_fits(root, n),
        unique_in(indexes_in(cell1(node_gates(root)->0)), c),
        forall|x: int| #[trigger] c.contains(x) ==> x <= max_index_of(root),
    ensures
        unique_in(indexes_in(cells_flat(root, n, k)), c.union(rng(gates_at(root, n, 1), gates_at(root, n, k)))),
    decreases k,
{
    let ff = first_free(root);
    let us = unit_size(root);
    let gs = gate_size(root);
    crate::pack::generate::lemma_split(n, us, gs);
    if k == 1 {
        let s = cells_flat(root, n, 1);
        assert(cells_flat(root, n, 0) == Seq::<EntityModel>::empty());
        assert(s =~= wired_cell(root, n, 0));
        lemma_first_cell(root, n);
        lemma_unique_widen(indexes_in(s), c, c.union(rng(gates_at(root, n, 1), gates_at(root, n, 1))));
    } else {
        lemma_cells_unique(root, n, k - 1, c);
        crate::pack::generate::lemma_step(k - 1, n, gs);
        let prev = cells_flat(root, n, k - 1);
        let cell = wired_cell(root, n, k - 1);
        assert(cells_flat(root, n, k) == prev + cell);
        lemma_indexes_in_concat(prev, cell);
        lemma_cell_copy(root, n, k - 1);
        let ra = c.union(rng(gates_at(root, n, 1), gates_at(root, n, k - 1)));
        let rb = rng(gates_at(root, n, k - 1), gates_at(root, n, k));
        assert forall|x: int| !(ra.contains(x) && rb.contains(x)) by {
            if rb.contains(x) {
                lemma_fresh_above(root, n, x);
            }
        }
        lemma_unique_concat(indexes_in(prev), indexes_in(cell), ra, rb);
        lemma_unique_widen(
            indexes_in(prev) + indexes_in(cell),
            ra.union(rb),
            c.union(rng(gates_at(root, n, 1), gates_at(root, n, k))),
        );
    }
}

// ---------------------------------------------------------------------------
// The law
// ---------------------------------------------------------------------------

/// The indexes of gate cell 1 are distinct and lie among NodeGates'
/// children's.
proof fn lemma_cell_set(ng: EntityModel)
    requires
        crate::pack::generate::cell_error(ng) is None,
        indexes_in(ng.children).no_duplicates(),
        fanouts_apart(ng),
    ensures
        ({
            let c = cell1(ng);
            let set = ival(indexes_of(c[0])).union(ival(indexes_of(c[1]))).union(ival(indexes_of(c[2]))).union(
                ival(indexes_of(c[3])),
            ).union(ival(indexes_of(c[4]))).union(ival(indexes_of(c[5])));
            &&& unique_in(indexes_in(c), set)
            &&& set.subset_of(ival(indexes_in(ng.children)))
        }),
{
    let c = cell1(ng);
    let cs = ng.children;
    lemma_cell_parts(ng);
    assert forall|i: int, j: int| 0 <= i < 6 && 0 <= j < 6 && i != j implies ival(indexes_of(#[trigger] c[i])).disjoint(
        ival(indexes_of(#[trigger] c[j])),
    ) by {
        assert(cell_pos(ng, i) != cell_pos(ng, j)) by {
            if i < 4 && j < 4 {
            } else if i < 4 {
                assert(cell_pos(ng, i) != cell_pos(ng, 4) && cell_pos(ng, i) != cell_pos(ng, 5));
            } else if j < 4 {
                assert(cell_pos(ng, j) != cell_pos(ng, 4) && cell_pos(ng, j) != cell_pos(ng, 5));
            }
        }
        lemma_children_apart(cs, cell_pos(ng, i), cell_pos(ng, j));
    }
    assert forall|i: int| 0 <= i < 6 implies indexes_of(#[trigger] c[i]).no_duplicates() && ival(indexes_of(c[i])).subset_of(
        ival(indexes_in(cs)),
    ) by {
        lemma_child_facts(cs, cell_pos(ng, i));
    }
    let x0 = indexes_of(c[0]);
    let x1 = indexes_of(c[1]);
    let x2 = indexes_of(c[2]);
    let x3 = indexes_of(c[3]);
    let x4 = indexes_of(c[4]);
    let x5 = indexes_of(c[5]);
    assert(x0.no_duplicates() && x1.no_duplicates() && x2.no_duplicates());
    assert(x3.no_duplicates() && x4.no_duplicates() && x5.no_duplicates());
    lemma_ival_unique(x0);
    lemma_ival_unique(x1);
    lemma_ival_unique(x2);
    lemma_ival_unique(x3);
    lemma_ival_unique(x4);
    lemma_ival_unique(x5);
    let s0 = ival(x0);
    let s1 = ival(x1);
    let s2 = ival(x2);
    let s3 = ival(x3);
    let s4 = ival(x4);
    let s5 = ival(x5);
    assert(s0.disjoint(s1) && s0.disjoint(s2) && s0.disjoint(s3) && s0.disjoint(s4) && s0.disjoint(s5));
    assert(s1.disjoint(s2) && s1.disjoint(s3) && s1.disjoint(s4) && s1.disjoint(s5));
    assert(s2.disjoint(s3) && s2.disjoint(s4) && s2.disjoint(s5));
    assert(s3.disjoint(s4) && s3.disjoint(s5) && s4.disjoint(s5));
    lemma_unique_concat(x0, x1, s0, s1);
    lemma_unique_concat(x0 + x1, x2, s0.union(s1), s2);
    lemma_unique_concat(x0 + x1 + x2, x3, s0.union(s1).union(s2), s3);
    lemma_unique_concat(x0 + x1 + x2 + x3, x4, s0.union(s1).union(s2).union(s3), s4);
    lemma_unique_concat(x0 + x1 + x2 + x3 + x4, x5, s0.union(s1).union(s2).union(s3).union(s4), s5);
    lemma_six(c);
}

/// No two blocks of a generated pack share an Index when no two blocks of
/// the template do and the fan-out timers of gate cell 1 are blocks of
/// their own. Group 1, `RTB - 1`, gate cell 1 and the two enclosing groups
/// keep the template's indexes; the copies are numbered above them, units
/// first, then cells.
pub proof fn law_pack_indexes_unique(root: EntityModel, n: int, name: Seq<char>)
    requires
        pack_error(root) is None,
        n >= 1,
        pack_fits(root, n),
        indexes_of(root).no_duplicates(),
        fanouts_apart(node_gates(root)->0),
    ensures
        indexes_of(packed(root, n, name)).no_duplicates(),
{
    let cs = root.children;
    let pw = named_pos(cs, Some("MCU_Waypoint"@), "RTB - 1"@);
    let pg = named_pos(cs, Some("Group"@), "Group 1"@);
    let pn = named_pos(cs, None, "NodeGates"@);
    lemma_root_parts(root);
    let w1 = cs[pw];
    let g1 = cs[pg];
    let ng = cs[pn];
    let max = max_index_of(root);
    let ff = first_free(root);
    let us = unit_size(root);
    let gs = gate_size(root);
    crate::pack::generate::lemma_split(n, us, gs);
    // what the template gives
    lemma_own_apart(root);
    let kids = ival(indexes_in(cs));
    lemma_children_apart(cs, pw, pg);
    lemma_children_apart(cs, pw, pn);
    lemma_children_apart(cs, pg, pn);
    lemma_child_facts(cs, pw);
    lemma_child_facts(cs, pg);
    lemma_child_facts(cs, pn);
    lemma_ival_below(root);
    let sw = ival(indexes_of(w1));
    let sg = ival(indexes_of(g1));
    let sn = ival(indexes_of(ng));
    lemma_ival_unique(indexes_of(w1));
    lemma_ival_unique(indexes_of(g1));
    lemma_unique_concat(indexes_of(w1), indexes_of(g1), sw, sg);
    let t = sw.union(sg);
    lemma_own_apart(ng);
    lemma_cell_set(ng);
    let c = cell1(ng);
    let cset = ival(indexes_of(c[0])).union(ival(indexes_of(c[1]))).union(ival(indexes_of(c[2]))).union(
        ival(indexes_of(c[3])),
    ).union(ival(indexes_of(c[4]))).union(ival(indexes_of(c[5])));
    let sno = ival(own_index(ng));
    let sro = ival(own_index(root));
    assert forall|x: int| #[trigger] t.contains(x) implies x <= max by {
        assert(kids.contains(x));
        assert(ival(indexes_of(root)).contains(x));
    }
    assert forall|x: int| #[trigger] cset.contains(x) implies x <= max by {
        assert(sn.contains(x));
        assert(kids.contains(x));
        assert(ival(indexes_of(root)).contains(x));
    }
    assert forall|x: int| ff <= x < gates_at(root, n, n) implies #[trigger] rng(ff, gates_at(root, n, n)).contains(x)
        && x > max by {
        lemma_fresh_above(root, n, x);
    }
    // the copies
    lemma_units_unique(root, n, n, t);
    lemma_cells_unique(root, n, n, cset);
    let u = units_flat(root, n, n);
    let cl = cells_flat(root, n, n);
    let hg = headed(ng, "NodeGates"@, cl);
    let out = packed(root, n, name);
    assert(out.children == u.push(hg));
    lemma_indexes_in_push(u, hg);
    assert(indexes_of(hg) == own_index(ng) + indexes_in(cl));
    assert(indexes_of(out) == own_index(root) + (indexes_in(u) + (own_index(ng) + indexes_in(cl))));
    let fu = rng(ff, unit_at(root, n));
    let fc = rng(gates_at(root, n, 1), gates_at(root, n, n));
    let r2 = t.union(fu);
    let r4 = cset.union(fc);
    lemma_ival_unique(own_index(ng));
    lemma_ival_unique(own_index(root));
    let ngk = ival(indexes_in(ng.children));
    let all = ival(indexes_of(root));
    assert forall|x: int| #[trigger] fu.contains(x) || #[trigger] fc.contains(x) implies x > max by {
        lemma_fresh_above(root, n, x);
    }
    assert forall|x: int| #[trigger] sn.contains(x) implies all.contains(x) && x <= max by {
        assert(kids.contains(x));
    }
    assert forall|x: int| !(sno.contains(x) && r4.contains(x)) by {
        if sno.contains(x) && r4.contains(x) {
            assert(sn.contains(x));
            if cset.contains(x) {
                assert(ngk.contains(x));
            } else {
                assert(fc.contains(x));
            }
        }
    }
    lemma_unique_concat(own_index(ng), indexes_in(cl), sno, r4);
    assert forall|x: int| !(r2.contains(x) && sno.union(r4).contains(x)) by {
        if r2.contains(x) && sno.union(r4).contains(x) {
            if fc.contains(x) {
                assert(x > max);
                if t.contains(x) {
                } else {
                    assert(fu.contains(x));
                }
            } else {
                assert(sno.contains(x) || cset.contains(x));
                if sno.contains(x) {
                    assert(sn.contains(x));
                } else {
                    assert(ngk.contains(x));
                    assert(sn.contains(x));
                }
                if t.contains(x) {
                    assert(sw.contains(x) || sg.contains(x));
                } else {
                    assert(fu.contains(x));
                }
            }
        }
    }
    lemma_unique_concat(indexes_in(u), own_index(ng) + indexes_in(cl), r2, sno.union(r4));
    assert forall|x: int| !(sro.contains(x) && r2.union(sno.union(r4)).contains(x)) by {
        if sro.contains(x) && r2.union(sno.union(r4)).contains(x) {
            assert(all.contains(x));
            if fu.contains(x) || fc.contains(x) {
            } else if t.contains(x) {
                assert(kids.contains(x));
            } else if sno.contains(x) {
                assert(sn.contains(x));
                assert(kids.contains(x));
            } else {
                assert(cset.contains(x));
                assert(ngk.contains(x));
                assert(sn.contains(x));
                assert(kids.contains(x));
            }
        }
    }
    lemma_unique_concat(own_index(root), indexes_in(u) + (own_index(ng) + indexes_in(cl)), sro, r2.union(sno.union(r4)));
}

} // verus!
