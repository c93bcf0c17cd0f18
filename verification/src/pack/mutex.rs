//! Gate cells of a generated pack exclude one another: the fan-out
//! timers of each cell fire the IN timers of every other cell, never those
//! of their own.

use vstd::prelude::*;
use crate::ast::{EntityModel, indexes_in, indexes_of, max_index_of};
use crate::bombers::link::rng;
use crate::duplicate::{duplicated, renumbered_list};
use super::generate::{
    all_but, cell1, gate_size, gates_at, gates_of, lemma_copy_len, lemma_renumbered_list_len, lemma_split,
    node_gates, pack_cell, pack_error, pack_fits, somes, unit_size, wired_cell,
};
use super::unique::{cell_pos, ival, lemma_cell_copy, lemma_cell_parts, lemma_child_facts, lemma_fresh_above, lemma_ival_below, lemma_own_apart, lemma_root_parts, lemma_six};

verus! {

/// The Index at `slot` of gate cell `i` of a pack of `n`.
#[verifier::opaque]
pub open spec fn slot_index(root: EntityModel, n: int, i: int, slot: int) -> Option<i32> {
    pack_cell(root, n, i)[slot].index
}

proof fn lemma_renumbered_list_at(cs: Seq<EntityModel>, next: int, i: int)
    requires
        0 <= i < cs.len(),
    ensures
        renumbered_list(cs, next).len() == cs.len(),
        (renumbered_list(cs, next)[i].index is Some) == (cs[i].index is Some),
    decreases cs.len(),
{
    lemma_renumbered_list_len(cs, next);
    lemma_renumbered_list_len(cs.drop_first(), next + indexes_of(cs[0]).len());
    let tail = renumbered_list(cs.drop_first(), next + indexes_of(cs[0]).len());
    assert(renumbered_list(cs, next) == seq![crate::duplicate::renumbered(cs[0], next)] + tail);
    if i > 0 {
        assert(renumbered_list(cs, next)[i] == tail[i - 1]);
        lemma_renumbered_list_at(cs.drop_first(), next + indexes_of(cs[0]).len(), i - 1);
        assert(cs.drop_first()[i - 1] == cs[i]);
    }
}

/// Slot `slot` of every cell has an Index exactly when gate cell 1's has.
proof fn lemma_slot_some(root: EntityModel, n: int, j: int, slot: int)
    requires
        pack_error(root) is None,
        0 <= j < n,
        slot == 0 || slot == 2,
    ensures
        (slot_index(root, n, j, slot) is Some) == (cell1(node_gates(root)->0)[slot].index is Some),
        wired_cell(root, n, j)[slot].index == slot_index(root, n, j, slot),
{
    reveal(slot_index);
    let c1 = cell1(node_gates(root)->0);
    if j >= 1 {
        let at = gates_at(root, n, j);
        lemma_copy_len(c1, at);
        lemma_renumbered_list_at(c1, at, slot);
        let r = crate::duplicate::renumbered(gates_of(root), at);
        let m = crate::duplicate::id_map(gates_of(root), at);
        assert(r.children == renumbered_list(c1, at));
        let d = duplicated(gates_of(root), at);
        assert(d == crate::duplicate::relinked(r, m));
        assert(d.children[slot] == crate::duplicate::relinked(r.children[slot], m));
        assert(d.children[slot].index == renumbered_list(c1, at)[slot].index);
    }
}

/// Where the Index at `slot` of cell `j` lies: at or below the template's
/// highest for cell 0, in the run of cell `j` for a copy.
proof fn lemma_slot_place(root: EntityModel, n: int, j: int, slot: int, x: i32)
    requires
        pack_error(root) is None,
        n >= 1,
        pack_fits(root, n),
        0 <= j < n,
        slot == 0 || slot == 2,
        indexes_of(root).no_duplicates(),
        slot_index(root, n, j, slot) == Some(x),
    ensures
        j == 0 ==> x <= max_index_of(root),
        j >= 1 ==> gates_at(root, n, j) <= x < gates_at(root, n, j + 1),
{
    lemma_slot_some(root, n, j, slot);
    let w = wired_cell(root, n, j);
    lemma_six(w);
    let pos: int = if slot == 2 {
        (indexes_of(w[0]).len() + indexes_of(w[1]).len()) as int
    } else {
        0
    };
    assert(indexes_of(w[slot])[0] == x);
    assert(indexes_in(w)[pos] == x);
    if j >= 1 {
        lemma_cell_copy(root, n, j);
        assert(rng(gates_at(root, n, j), gates_at(root, n, j + 1)).contains(indexes_in(w)[pos] as int));
    } else {
        let cs = root.children;
        let pn = crate::pack::generate::named_pos(cs, None, "NodeGates"@);
        lemma_root_parts(root);
        let ng = cs[pn];
        lemma_own_apart(root);
        lemma_child_facts(cs, pn);
        lemma_own_apart(ng);
        lemma_cell_parts(ng);
        let c = cell1(ng);
        let q = cell_pos(ng, slot);
        lemma_child_facts(ng.children, q);
        assert(c[slot] == ng.children[q]);
        assert(indexes_of(c[slot])[0] == x);
        assert(ival(indexes_of(c[slot])).contains(x as int));
        assert(ival(indexes_in(ng.children)).contains(x as int));
        assert(ival(indexes_of(ng)).contains(x as int));
        assert(ival(indexes_in(cs)).contains(x as int));
        assert(ival(indexes_of(root)).contains(x as int));
        lemma_ival_below(root);
    }
}

proof fn lemma_mono(i: int, j: int, c: int)
    by (nonlinear_arith)
    requires
        0 <= i <= j,
        0 <= c,
    ensures
        i * c <= j * c,
{
}

/// Two different cells never share the Index at `slot`.
proof fn lemma_slot_distinct(root: EntityModel, n: int, i: int, j: int, slot: int, x: i32, y: i32)
    requires
        pack_error(root) is None,
        n >= 1,
        pack_fits(root, n),
        0 <= i < j < n,
        slot == 0 || slot == 2,
        indexes_of(root).no_duplicates(),
        slot_index(root, n, i, slot) == Some(x),
        slot_index(root, n, j, slot) == Some(y),
    ensures
        x != y,
{
    let us = unit_size(root);
    let gs = gate_size(root);
    lemma_split(n, us, gs);
    lemma_slot_place(root, n, i, slot, x);
    lemma_slot_place(root, n, j, slot, y);
    lemma_mono(0, j - 1, gs);
    lemma_mono(j, n - 1, gs);
    if i == 0 {
        lemma_fresh_above(root, n, y as int);
    } else {
        lemma_mono(i, j - 1, gs);
    }
}

proof fn lemma_somes_all(s: Seq<Option<i32>>)
    requires
        forall|i: int| 0 <= i < s.len() ==> (#[trigger] s[i]) is Some,
    ensures
        somes(s) == Seq::new(s.len(), |i: int| s[i]->0),
    decreases s.len(),
{
    if s.len() > 0 {
        let init = s.drop_last();
        assert forall|i: int| 0 <= i < init.len() implies (#[trigger] init[i]) is Some by {
            assert(init[i] == s[i]);
        }
        lemma_somes_all(init);
        assert(s.last() == s[s.len() - 1]);
        assert(Seq::new(s.len(), |i: int| s[i]->0) =~= Seq::new(init.len(), |i: int| init[i]->0).push(s.last()->0));
    }
}

/// The ids that the fan-out timer for `slot` of cell `k` fires.
pub open spec fn fanout_ids(root: EntityModel, n: int, k: int, slot: int) -> Seq<i32> {
    all_but(somes(Seq::new(n as nat, |i: int| slot_index(root, n, i, slot))), k)
}

proof fn lemma_fanout(root: EntityModel, n: int, k: int, slot: int)
    requires
        pack_error(root) is None,
        n >= 1,
        pack_fits(root, n),
        0 <= k < n,
        slot == 0 || slot == 2,
        indexes_of(root).no_duplicates(),
    ensures
        forall|j: int|
            0 <= j < n && (#[trigger] slot_index(root, n, j, slot)) is Some ==> (fanout_ids(root, n, k, slot).contains(
                slot_index(root, n, j, slot)->0,
            ) <==> j != k),
{
    let s = Seq::new(n as nat, |i: int| slot_index(root, n, i, slot));
    let c1 = cell1(node_gates(root)->0);
    assert forall|i: int| 0 <= i < n implies ((#[trigger] s[i]) is Some) == (c1[slot].index is Some) by {
        lemma_slot_some(root, n, i, slot);
    }
    if c1[slot].index is Some {
        lemma_somes_all(s);
        let v = Seq::new(n as nat, |i: int| s[i]->0);
        assert forall|i: int, j: int| 0 <= i < n && 0 <= j < n && i != j implies #[trigger] v[i] != #[trigger] v[j] by {
            if i < j {
                lemma_slot_distinct(root, n, i, j, slot, v[i], v[j]);
            } else {
                lemma_slot_distinct(root, n, j, i, slot, v[j], v[i]);
            }
        }
        let f = fanout_ids(root, n, k, slot);
        assert(f == v.take(k) + v.skip(k + 1));
        assert forall|j: int| 0 <= j < n && (#[trigger] slot_index(root, n, j, slot)) is Some implies (f.contains(
            slot_index(root, n, j, slot)->0,
        ) <==> j != k) by {
            let x = slot_index(root, n, j, slot)->0;
            assert(s[j] == Some(x));
            assert(v[j] == x);
            if j < k {
                assert(f[j] == v[j]);
            } else if j > k {
                assert(f[j - 1] == v[j]);
            } else {
                if f.contains(x) {
                    let p = choose|p: int| 0 <= p < f.len() && f[p] == x;
                    if p < k {
                        assert(f[p] == v[p]);
                    } else {
                        assert(f[p] == v[p + 1]);
                    }
                }
            }
        }
    } else {
        assert forall|j: int| 0 <= j < n implies !((#[trigger] slot_index(root, n, j, slot)) is Some) by {
            assert(s[j] == slot_index(root, n, j, slot));
        }
    }
}

/// Gate cells exclude one another: the fan-out enable timer of cell `k`
/// fires the `IN - ENABLE` timer of every other cell and not that of cell
/// `k`, and its fan-out disable timer does the same with `IN - DISABLE`.
pub proof fn law_fanouts_skip_own_cell(root: EntityModel, n: int, k: int)
    requires
        pack_error(root) is None,
        n >= 1,
        pack_fits(root, n),
        0 <= k < n,
        indexes_of(root).no_duplicates(),
    ensures
        forall|j: int|
            0 <= j < n && (#[trigger] wired_cell(root, n, j))[2].index is Some ==> (wired_cell(root, n, k)[4].targets.contains(
                wired_cell(root, n, j)[2].index->0,
            ) <==> j != k),
        forall|j: int|
            0 <= j < n && (#[trigger] wired_cell(root, n, j))[0].index is Some ==> (wired_cell(root, n, k)[5].targets.contains(
                wired_cell(root, n, j)[0].index->0,
            ) <==> j != k),
{
    lemma_fanout(root, n, k, 2);
    lemma_fanout(root, n, k, 0);
    assert forall|j: int| 0 <= j < n implies (#[trigger] wired_cell(root, n, j))[2].index == slot_index(root, n, j, 2)
        && wired_cell(root, n, j)[0].index == slot_index(root, n, j, 0) by {
        lemma_slot_some(root, n, j, 2);
        lemma_slot_some(root, n, j, 0);
    }
    assert(wired_cell(root, n, k)[4].targets == fanout_ids(root, n, k, 2)) by {
        reveal(slot_index);
        assert(Seq::new(n as nat, |i: int| slot_index(root, n, i, 2)) =~= Seq::new(
            n as nat,
            |i: int| pack_cell(root, n, i)[2].index,
        ));
    }
    assert(wired_cell(root, n, k)[5].targets == fanout_ids(root, n, k, 0)) by {
        reveal(slot_index);
        assert(Seq::new(n as nat, |i: int| slot_index(root, n, i, 0)) =~= Seq::new(
            n as nat,
            |i: int| pack_cell(root, n, i)[0].index,
        ));
    }
}

} // verus!
