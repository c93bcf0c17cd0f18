//! Building an N-pack from Group 1 of a linked fighter-pack template.
//!
//! Group 1 and its `RTB - 1` waypoint are cloned N - 1 times with fresh
//! indexes; gate cell 1 of NodeGates (IN/OUT enable and disable timers and
//! two fan-out timers) is cloned the same way. Each group's links to the
//! OUT timers of cell 1 are moved to its own cell, each cell's IN timers
//! are pointed at its group's spawner MCUs, and every fan-out timer reaches
//! the IN timers of all the other cells.

use vstd::prelude::*;
use crate::ast::{
    EntityModel, Il2Entity, children_model, find_named, indexes_of, lemma_children_model, name_of, prop_set,
    retarget,
};
use crate::bombers::link::{named, with_targets};
use crate::duplicate::{duplicate_template, duplicated, first_free, index_count, renumbered_list};
use crate::text::{dec_text, int_text, int_to_string, owned, push_dec, push_int, push_str, str_eq};

verus! {

// ---------------------------------------------------------------------------
// Finding the parts of the template
// ---------------------------------------------------------------------------

/// `e` is a block named `name` (and, when given, of type `bt`).
pub open spec fn is_named(e: EntityModel, bt: Option<Seq<char>>, name: Seq<char>) -> bool {
    (match bt {
        Some(t) => e.block_type == t,
        None => true,
    }) && name_of(e) == Some(name)
}

/// Position of the first of `cs` named `name` (the length when none is).
pub open spec fn named_pos(cs: Seq<EntityModel>, bt: Option<Seq<char>>, name: Seq<char>) -> int
    decreases cs.len(),
{
    if cs.len() == 0 {
        0
    } else if is_named(cs[0], bt, name) {
        0
    } else {
        1 + named_pos(cs.drop_first(), bt, name)
    }
}

pub open spec fn child_named(cs: Seq<EntityModel>, bt: Option<Seq<char>>, name: Seq<char>) -> Option<EntityModel> {
    let k = named_pos(cs, bt, name);
    if k < cs.len() {
        Some(cs[k])
    } else {
        None
    }
}

/// Position of the first of `cs` with Index `id` (the length when none).
pub open spec fn id_pos(cs: Seq<EntityModel>, id: i32) -> int
    decreases cs.len(),
{
    if cs.len() == 0 {
        0
    } else if cs[0].index == Some(id) {
        0
    } else {
        1 + id_pos(cs.drop_first(), id)
    }
}

pub open spec fn child_with_id(cs: Seq<EntityModel>, id: i32) -> Option<EntityModel> {
    let k = id_pos(cs, id);
    if k < cs.len() {
        Some(cs[k])
    } else {
        None
    }
}

proof fn lemma_named_pos(cs: Seq<EntityModel>, bt: Option<Seq<char>>, name: Seq<char>, p: int)
    requires
        0 <= p <= cs.len(),
        p < cs.len() ==> is_named(cs[p], bt, name),
        forall|j: int| 0 <= j < p ==> !is_named(#[trigger] cs[j], bt, name),
    ensures
        named_pos(cs, bt, name) == p,
    decreases cs.len(),
{
    if cs.len() > 0 && !is_named(cs[0], bt, name) {
        let t = cs.drop_first();
        assert forall|j: int| 0 <= j < p - 1 implies !is_named(#[trigger] t[j], bt, name) by {
            assert(t[j] == cs[j + 1]);
        }
        if p - 1 < t.len() {
            assert(t[p - 1] == cs[p]);
        }
        lemma_named_pos(t, bt, name, p - 1);
    }
}

proof fn lemma_id_pos(cs: Seq<EntityModel>, id: i32, p: int)
    requires
        0 <= p <= cs.len(),
        p < cs.len() ==> cs[p].index == Some(id),
        forall|j: int| 0 <= j < p ==> (#[trigger] cs[j]).index != Some(id),
    ensures
        id_pos(cs, id) == p,
    decreases cs.len(),
{
    if cs.len() > 0 && cs[0].index != Some(id) {
        let t = cs.drop_first();
        assert forall|j: int| 0 <= j < p - 1 implies (#[trigger] t[j]).index != Some(id) by {
            assert(t[j] == cs[j + 1]);
        }
        if p - 1 < t.len() {
            assert(t[p - 1] == cs[p]);
        }
        lemma_id_pos(t, id, p - 1);
    }
}

pub open spec fn opt_str(bt: Option<&str>) -> Option<Seq<char>> {
    match bt {
        Some(t) => Some(t@),
        None => None,
    }
}

fn find_child<'a>(e: &'a Il2Entity, bt: Option<&str>, name: &str) -> (r: Option<&'a Il2Entity>)
    ensures
        match child_named(e@.children, opt_str(bt), name@) {
            Some(x) => r matches Some(y) && y@ == x,
            None => r is None,
        },
{
    proof {
        lemma_children_model(*e);
    }
    let ghost cs = e@.children;
    let mut i: usize = 0;
    while i < e.children.len()
        invariant
            i <= e.children@.len(),
            cs == e@.children,
            cs.len() == e.children@.len(),
            forall|j: int| 0 <= j < cs.len() ==> #[trigger] cs[j] == e.children@[j]@,
            forall|j: int| 0 <= j < i ==> !is_named(#[trigger] cs[j], opt_str(bt), name@),
        decreases e.children@.len() - i,
    {
        let c = &e.children[i];
        assert(cs[i as int] == c@);
        let type_ok = match bt {
            Some(t) => str_eq(c.block_type.as_str(), t),
            None => true,
        };
        let name_ok = match c.name() {
            Some(n) => str_eq(n, name),
            None => false,
        };
        if type_ok && name_ok {
            proof {
                lemma_named_pos(cs, opt_str(bt), name@, i as int);
            }
            return Some(c);
        }
        i = i + 1;
    }
    proof {
        lemma_named_pos(cs, opt_str(bt), name@, i as int);
    }
    None
}

fn find_child_id(e: &Il2Entity, id: i32) -> (r: Option<&Il2Entity>)
    ensures
        match child_with_id(e@.children, id) {
            Some(x) => r matches Some(y) && y@ == x,
            None => r is None,
        },
{
    proof {
        lemma_children_model(*e);
    }
    let ghost cs = e@.children;
    let mut i: usize = 0;
    while i < e.children.len()
        invariant
            i <= e.children@.len(),
            cs == e@.children,
            cs.len() == e.children@.len(),
            forall|j: int| 0 <= j < cs.len() ==> #[trigger] cs[j] == e.children@[j]@,
            forall|j: int| 0 <= j < i ==> (#[trigger] cs[j]).index != Some(id),
        decreases e.children@.len() - i,
    {
        let c = &e.children[i];
        assert(cs[i as int] == c@);
        if c.index == Some(id) {
            proof {
                lemma_id_pos(cs, id, i as int);
            }
            return Some(c);
        }
        i = i + 1;
    }
    proof {
        lemma_id_pos(cs, id, i as int);
    }
    None
}

// ---------------------------------------------------------------------------
// What the template must hold
// ---------------------------------------------------------------------------

pub open spec fn group1(root: EntityModel) -> Option<EntityModel> {
    child_named(root.children, Some("Group"@), "Group 1"@)
}

pub open spec fn rtb1(root: EntityModel) -> Option<EntityModel> {
    child_named(root.children, Some("MCU_Waypoint"@), "RTB - 1"@)
}

pub open spec fn node_gates(root: EntityModel) -> Option<EntityModel> {
    child_named(root.children, None, "NodeGates"@)
}

pub open spec fn gate_timer(ng: EntityModel, name: Seq<char>) -> Option<EntityModel> {
    child_named(ng.children, None, name)
}

/// Why gate cell 1 cannot be read from NodeGates, if it cannot.
pub open spec fn cell_error(ng: EntityModel) -> Option<Seq<char>> {
    if gate_timer(ng, "1IN - DISABLE"@) is None {
        Some("NodeGates is missing `1IN - DISABLE`"@)
    } else if gate_timer(ng, "1OUT - DISABLE"@) is None {
        Some("NodeGates is missing `1OUT - DISABLE`"@)
    } else if gate_timer(ng, "1IN - ENABLE"@) is None {
        Some("NodeGates is missing `1IN - ENABLE`"@)
    } else if gate_timer(ng, "1OUT - ENABLE"@) is None {
        Some("NodeGates is missing `1OUT - ENABLE`"@)
    } else {
        let oe = gate_timer(ng, "1OUT - ENABLE"@)->0;
        let od = gate_timer(ng, "1OUT - DISABLE"@)->0;
        if oe.targets.len() == 0 {
            Some("1OUT - ENABLE has no fanout target"@)
        } else if od.targets.len() == 0 {
            Some("1OUT - DISABLE has no fanout target"@)
        } else if child_with_id(ng.children, oe.targets[0]) is None {
            Some("missing fanout-enable timer "@ + int_text(oe.targets[0] as int))
        } else if child_with_id(ng.children, od.targets[0]) is None {
            Some("missing fanout-disable timer "@ + int_text(od.targets[0] as int))
        } else {
            None
        }
    }
}

/// Why no pack can be built from `root`, if none can.
pub open spec fn pack_error(root: EntityModel) -> Option<Seq<char>> {
    if group1(root) is None {
        Some("template has no Group 1"@)
    } else if rtb1(root) is None {
        Some("template has no RTB - 1 waypoint"@)
    } else if node_gates(root) is None {
        Some("template has no NodeGates group — load a linked fighter pack"@)
    } else {
        cell_error(node_gates(root)->0)
    }
}

/// Gate cell 1 in file order: IN - DISABLE, OUT - DISABLE, IN - ENABLE,
/// OUT - ENABLE, and the fan-out timers that the OUT timers fire.
pub open spec fn cell1(ng: EntityModel) -> Seq<EntityModel> {
    let oe = gate_timer(ng, "1OUT - ENABLE"@)->0;
    let od = gate_timer(ng, "1OUT - DISABLE"@)->0;
    seq![
        gate_timer(ng, "1IN - DISABLE"@)->0,
        od,
        gate_timer(ng, "1IN - ENABLE"@)->0,
        oe,
        child_with_id(ng.children, oe.targets[0])->0,
        child_with_id(ng.children, od.targets[0])->0,
    ]
}

fn gate_part(ng: &Il2Entity, name: &str) -> (r: Result<Il2Entity, String>)
    ensures
        match gate_timer(ng@, name@) {
            Some(x) => r matches Ok(y) && y@ == x,
            None => r matches Err(e) && e@ == "NodeGates is missing `"@ + name@ + "`"@,
        },
{
    match find_child(ng, None, name) {
        Some(t) => Ok(t.clone()),
        None => {
            let mut m = owned("NodeGates is missing `");
            push_str(&mut m, name);
            push_str(&mut m, "`");
            Err(m)
        },
    }
}

fn read_cell1(ng: &Il2Entity) -> (r: Result<Vec<Il2Entity>, String>)
    ensures
        match cell_error(ng@) {
            Some(m) => r matches Err(e) && e@ == m,
            None => r matches Ok(v) && children_model(v@) == cell1(ng@),
        },
{
    proof {
        reveal_strlit("1IN - DISABLE");
        reveal_strlit("1OUT - DISABLE");
        reveal_strlit("1IN - ENABLE");
        reveal_strlit("1OUT - ENABLE");
        reveal_strlit("NodeGates is missing `");
        reveal_strlit("`");
        reveal_strlit("NodeGates is missing `1IN - DISABLE`");
        reveal_strlit("NodeGates is missing `1OUT - DISABLE`");
        reveal_strlit("NodeGates is missing `1IN - ENABLE`");
        reveal_strlit("NodeGates is missing `1OUT - ENABLE`");
    }
    let in_disable = match gate_part(ng, "1IN - DISABLE") {
        Ok(t) => t,
        Err(e) => {
            assert(e@ =~= "NodeGates is missing `1IN - DISABLE`"@);
            return Err(e);
        },
    };
    let out_disable = match gate_part(ng, "1OUT - DISABLE") {
        Ok(t) => t,
        Err(e) => {
            assert(e@ =~= "NodeGates is missing `1OUT - DISABLE`"@);
            return Err(e);
        },
    };
    let in_enable = match gate_part(ng, "1IN - ENABLE") {
        Ok(t) => t,
        Err(e) => {
            assert(e@ =~= "NodeGates is missing `1IN - ENABLE`"@);
            return Err(e);
        },
    };
    let out_enable = match gate_part(ng, "1OUT - ENABLE") {
        Ok(t) => t,
        Err(e) => {
            assert(e@ =~= "NodeGates is missing `1OUT - ENABLE`"@);
            return Err(e);
        },
    };
    if out_enable.targets.len() == 0 {
        return Err(owned("1OUT - ENABLE has no fanout target"));
    }
    if out_disable.targets.len() == 0 {
        return Err(owned("1OUT - DISABLE has no fanout target"));
    }
    let fe_id = out_enable.targets[0];
    let fd_id = out_disable.targets[0];
    let fanout_enable = match find_child_id(ng, fe_id) {
        Some(t) => t.clone(),
        None => {
            let mut m = owned("missing fanout-enable timer ");
            push_int(&mut m, fe_id as i64);
            return Err(m);
        },
    };
    let fanout_disable = match find_child_id(ng, fd_id) {
        Some(t) => t.clone(),
        None => {
            let mut m = owned("missing fanout-disable timer ");
            push_int(&mut m, fd_id as i64);
            return Err(m);
        },
    };
    let v = vec![in_disable, out_disable, in_enable, out_enable, fanout_enable, fanout_disable];
    proof {
        assert(children_model(v@) =~= cell1(ng@));
    }
    Ok(v)
}

// ---------------------------------------------------------------------------
// The pack that is built
// ---------------------------------------------------------------------------

/// A `Group` with no Index, links or properties holding `children`: the
/// scratch wrapper through which several blocks are copied as one.
pub open spec fn bare_group(children: Seq<EntityModel>) -> EntityModel {
    EntityModel {
        block_type: "Group"@,
        index: None,
        targets: seq![],
        objects: seq![],
        properties: seq![],
        children,
    }
}

/// `RTB - 1` and Group 1, copied together.
pub open spec fn unit_of(root: EntityModel) -> EntityModel {
    bare_group(seq![rtb1(root)->0, group1(root)->0])
}

/// Gate cell 1, copied together.
pub open spec fn gates_of(root: EntityModel) -> EntityModel {
    bare_group(cell1(node_gates(root)->0))
}

pub open spec fn unit_size(root: EntityModel) -> int {
    index_count(unit_of(root))
}

pub open spec fn gate_size(root: EntityModel) -> int {
    index_count(gates_of(root))
}

/// First index of copy `k` (k >= 1) of the flight unit.
pub open spec fn unit_at(root: EntityModel, k: int) -> int {
    first_free(root) + (k - 1) * unit_size(root)
}

/// First index of copy `k` (k >= 1) of gate cell 1, in a pack of `n`: the
/// cells are copied after all the flight units.
pub open spec fn gates_at(root: EntityModel, n: int, k: int) -> int {
    first_free(root) + (n - 1) * unit_size(root) + (k - 1) * gate_size(root)
}

/// Every index a pack of `n` hands out fits `i32`.
pub open spec fn pack_fits(root: EntityModel, n: int) -> bool {
    n >= 2 ==> first_free(root) + (n - 1) * (unit_size(root) + gate_size(root)) <= i32::MAX
}

/// Waypoint `k` of the pack: `RTB - 1` itself, or its copy named `RTB - {k+1}`.
pub open spec fn pack_waypoint(root: EntityModel, k: int) -> EntityModel {
    if k == 0 {
        rtb1(root)->0
    } else {
        named(duplicated(unit_of(root), unit_at(root, k)).children[0], "RTB - "@ + dec_text((k + 1) as nat))
    }
}

/// Group `k` of the pack before it is wired: Group 1 itself, or its copy
/// named `Group {k+1}`.
pub open spec fn pack_group(root: EntityModel, k: int) -> EntityModel {
    if k == 0 {
        group1(root)->0
    } else {
        named(duplicated(unit_of(root), unit_at(root, k)).children[1], "Group "@ + dec_text((k + 1) as nat))
    }
}

pub open spec fn numbered(n: int, suffix: Seq<char>) -> Seq<char> {
    dec_text(n as nat) + suffix
}

/// A copied gate cell renamed for group number `n`.
pub open spec fn renamed_cell(c: Seq<EntityModel>, n: int) -> Seq<EntityModel> {
    seq![
        named(c[0], numbered(n, "IN - DISABLE"@)),
        named(c[1], numbered(n, "OUT - DISABLE"@)),
        named(c[2], numbered(n, "IN - ENABLE"@)),
        named(c[3], numbered(n, "OUT - ENABLE"@)),
        named(c[4], numbered(n, seq![])),
        named(c[5], numbered(n, seq![])),
    ]
}

/// Gate cell `k` of a pack of `n` before it is wired.
pub open spec fn pack_cell(root: EntityModel, n: int, k: int) -> Seq<EntityModel> {
    if k == 0 {
        cell1(node_gates(root)->0)
    } else {
        renamed_cell(duplicated(gates_of(root), gates_at(root, n, k)).children, k + 1)
    }
}

/// `replace_target_id(old, new)` where both ids are known.
pub open spec fn moved(e: EntityModel, old_id: Option<i32>, new_id: Option<i32>) -> EntityModel {
    match (old_id, new_id) {
        (Some(a), Some(b)) => if a == b {
            e
        } else {
            retarget(e, a, b)
        },
        _ => e,
    }
}

/// Group `k` with its links to the OUT timers of cell 1 moved to cell `k`.
pub open spec fn wired_group(root: EntityModel, n: int, k: int) -> EntityModel {
    let c1 = cell1(node_gates(root)->0);
    let ck = pack_cell(root, n, k);
    moved(moved(pack_group(root, k), c1[3].index, ck[3].index), c1[1].index, ck[1].index)
}

/// Index of the first block of `g` named `name`.
pub open spec fn index_named(g: EntityModel, name: Seq<char>) -> Option<i32> {
    match find_named(g, name) {
        Some(x) => x.index,
        None => None,
    }
}

pub open spec fn both_ids(a: Option<i32>, b: Option<i32>) -> Option<Seq<i32>> {
    match (a, b) {
        (Some(x), Some(y)) => Some(seq![x, y]),
        _ => None,
    }
}

pub open spec fn one_id(a: Option<i32>) -> Option<Seq<i32>> {
    match a {
        Some(x) => Some(seq![x]),
        None => None,
    }
}

/// `e` with `Targets` set to `ids` when there are any to set.
pub open spec fn aimed(e: EntityModel, ids: Option<Seq<i32>>) -> EntityModel {
    match ids {
        Some(v) => with_targets(e, v),
        None => e,
    }
}

/// The ids that are present, in order.
pub open spec fn somes(s: Seq<Option<i32>>) -> Seq<i32>
    decreases s.len(),
{
    if s.len() == 0 {
        seq![]
    } else {
        let init = somes(s.drop_last());
        match s.last() {
            Some(x) => init.push(x),
            None => init,
        }
    }
}

/// `ids` without position `i` (all of them when there is no such position).
pub open spec fn all_but(ids: Seq<i32>, i: int) -> Seq<i32> {
    if 0 <= i < ids.len() {
        ids.take(i) + ids.skip(i + 1)
    } else {
        ids
    }
}

/// Indexes of the `IN - ENABLE` timers of all cells.
pub open spec fn in_enable_ids(root: EntityModel, n: int) -> Seq<i32> {
    somes(Seq::new(n as nat, |k: int| pack_cell(root, n, k)[2].index))
}

/// Indexes of the `IN - DISABLE` timers of all cells.
pub open spec fn in_disable_ids(root: EntityModel, n: int) -> Seq<i32> {
    somes(Seq::new(n as nat, |k: int| pack_cell(root, n, k)[0].index))
}

/// Gate cell `k` wired: its IN timers fire group `k`'s spawner MCUs, its
/// OUT timers fire its own fan-out timers, and those fire the IN timers of
/// every other cell.
pub open spec fn wired_cell(root: EntityModel, n: int, k: int) -> Seq<EntityModel> {
    let c = pack_cell(root, n, k);
    let g = wired_group(root, n, k);
    seq![
        aimed(c[0], both_ids(index_named(g, "Delete Orders"@), index_named(g, "Disable Spawner"@))),
        aimed(c[1], one_id(c[5].index)),
        aimed(c[2], both_ids(index_named(g, "Enable Spawner"@), index_named(g, "ENABLE / PULSE IN"@))),
        aimed(c[3], one_id(c[4].index)),
        with_targets(c[4], all_but(in_enable_ids(root, n), k)),
        with_targets(c[5], all_but(in_disable_ids(root, n), k)),
    ]
}

/// Waypoint and wired group of the first `k` units, interleaved.
pub open spec fn units_flat(root: EntityModel, n: int, k: int) -> Seq<EntityModel>
    decreases k,
{
    if k <= 0 {
        seq![]
    } else {
        units_flat(root, n, k - 1) + seq![pack_waypoint(root, k - 1), wired_group(root, n, k - 1)]
    }
}

/// The wired cells of the first `k` units, one after another.
pub open spec fn cells_flat(root: EntityModel, n: int, k: int) -> Seq<EntityModel>
    decreases k,
{
    if k <= 0 {
        seq![]
    } else {
        cells_flat(root, n, k - 1) + wired_cell(root, n, k - 1)
    }
}

/// A `Group` with the Index and properties of `src`, renamed `name` (its
/// `Index` property rewritten when it has an Index), holding `children`.
pub open spec fn headed(src: EntityModel, name: Seq<char>, children: Seq<EntityModel>) -> EntityModel {
    let p = prop_set(src.properties, "Name"@, seq!['"'] + name + seq!['"']);
    EntityModel {
        block_type: "Group"@,
        index: src.index,
        targets: seq![],
        objects: seq![],
        properties: match src.index {
            Some(i) => prop_set(p, "Index"@, int_text(i as int)),
            None => p,
        },
        children,
    }
}

/// The pack of `n` groups built from `root`, named `name`: the units, then
/// NodeGates with one wired cell per group.
pub open spec fn packed(root: EntityModel, n: int, name: Seq<char>) -> EntityModel {
    headed(root, name, units_flat(root, n, n).push(headed(node_gates(root)->0, "NodeGates"@, cells_flat(root, n, n))))
}

/// The side a country code stands for in a pack's name: `USSR`, `DPRK`,
/// `PRC` or `USA`, and `Eastern` for any other.
pub open spec fn country_side(c: Option<Seq<char>>) -> Seq<char> {
    if c == Some("501"@) {
        "USSR"@
    } else if c == Some("502"@) {
        "DPRK"@
    } else if c == Some("503"@) {
        "PRC"@
    } else if c == Some("601"@) {
        "USA"@
    } else {
        "Eastern"@
    }
}

/// The `Country` of the first plane of Group 1, if there is one.
pub open spec fn group_one_country(root: EntityModel) -> Option<Seq<char>> {
    match crate::ast::find_named(root, "Group 1"@) {
        Some(g) => match crate::bombers::link::first_of_type(g, "Plane"@) {
            Some(p) => crate::ast::prop_get(p.properties, "Country"@),
            None => None,
        },
        None => None,
    }
}

/// The name `generate_pack` gives a pack of `n` built from `root`: the side
/// of the country Group 1 flies for (`Eastern` when it is none of the four
/// countries), then `Fighters {n}pack - Linked`.
pub open spec fn pack_name(root: EntityModel, n: int) -> Seq<char> {
    country_side(group_one_country(root)) + " Fighters "@ + dec_text(n as nat) + "pack - Linked"@
}

// ---------------------------------------------------------------------------
// Building it
// ---------------------------------------------------------------------------

pub(crate) proof fn lemma_renumbered_list_len(cs: Seq<EntityModel>, next: int)
    ensures
        renumbered_list(cs, next).len() == cs.len(),
    decreases cs.len(),
{
    if cs.len() > 0 {
        lemma_renumbered_list_len(cs.drop_first(), next + indexes_of(cs[0]).len());
    }
}

/// A copy of a bare group has as many children as the group.
pub(crate) proof fn lemma_copy_len(cs: Seq<EntityModel>, at: int)
    ensures
        duplicated(bare_group(cs), at).children.len() == cs.len(),
{
    lemma_renumbered_list_len(cs, at);
}

pub(crate) proof fn lemma_step(k: int, n: int, u: int)
    by (nonlinear_arith)
    requires
        1 <= k < n,
        0 <= u,
    ensures
        0 <= (k - 1) * u,
        (k - 1) * u + u == k * u,
        k * u <= (n - 1) * u,
{
}

pub(crate) proof fn lemma_split(n: int, u: int, c: int)
    by (nonlinear_arith)
    requires
        1 <= n,
        0 <= u,
        0 <= c,
    ensures
        (n - 1) * (u + c) == (n - 1) * u + (n - 1) * c,
        0 <= (n - 1) * u,
        0 <= (n - 1) * c,
{
}

/// `"{prefix}{n}"`.
fn number_name(prefix: &str, n: usize) -> (r: String)
    ensures
        r@ == prefix@ + dec_text(n as nat),
{
    let mut s = owned(prefix);
    push_dec(&mut s, n as u64);
    s
}

/// `"{n}{suffix}"`.
fn name_number(n: usize, suffix: &str) -> (r: String)
    ensures
        r@ == numbered(n as int, suffix@),
{
    let mut s = String::new();
    push_dec(&mut s, n as u64);
    push_str(&mut s, suffix);
    proof {
        assert(s@ =~= numbered(n as int, suffix@));
    }
    s
}

/// `RTB - 1` and Group 1 in a scratch wrapper.
fn unit_wrapper(wp: &Il2Entity, g: &Il2Entity) -> (r: Il2Entity)
    ensures
        r@ == bare_group(seq![wp@, g@]),
{
    let mut w = Il2Entity::new("Group");
    proof {
        lemma_children_model(w);
        assert(w.children@.len() == 0);
    }
    w.children.push(wp.deep_copy());
    w.children.push(g.deep_copy());
    proof {
        lemma_children_model(w);
        assert(w@.children =~= seq![wp@, g@]);
    }
    w
}

/// A gate cell in a scratch wrapper.
fn cell_wrapper(cell: &Vec<Il2Entity>) -> (r: Il2Entity)
    ensures
        r@ == bare_group(children_model(cell@)),
{
    let mut w = Il2Entity::new("Group");
    proof {
        lemma_children_model(w);
        assert(w.children@.len() == 0);
        assert(w@.properties == crate::ast::props_model(w.properties@));
        assert(w.properties@.len() == 0);
        assert(w.properties@ =~= Seq::<(String, String)>::empty());
    }
    let mut i: usize = 0;
    while i < cell.len()
        invariant
            i <= cell@.len(),
            w.children@.len() == i,
            w.block_type@ == "Group"@,
            w.index is None,
            w.targets@ == Seq::<i32>::empty(),
            w.objects@ == Seq::<i32>::empty(),
            w.properties@ == Seq::<(String, String)>::empty(),
            forall|j: int| 0 <= j < i ==> #[trigger] w.children@[j]@ == cell@[j]@,
        decreases cell@.len() - i,
    {
        w.children.push(cell[i].deep_copy());
        i = i + 1;
    }
    proof {
        lemma_children_model(w);
        assert(w@.children =~= children_model(cell@));
        assert(w@.properties =~= Seq::<(Seq<char>, Seq<char>)>::empty());
    }
    w
}

/// Copy `RTB - 1` and Group 1 together from `*next_id`, renamed for group
/// number `number`.
fn copy_unit(wp: &Il2Entity, g: &Il2Entity, number: usize, next_id: &mut i32) -> (r: (Il2Entity, Il2Entity))
    requires
        *old(next_id) + index_count(bare_group(seq![wp@, g@])) <= i32::MAX,
    ensures
        r.0@ == named(
            duplicated(bare_group(seq![wp@, g@]), *old(next_id) as int).children[0],
            "RTB - "@ + dec_text(number as nat),
        ),
        r.1@ == named(
            duplicated(bare_group(seq![wp@, g@]), *old(next_id) as int).children[1],
            "Group "@ + dec_text(number as nat),
        ),
        *final(next_id) == *old(next_id) + index_count(bare_group(seq![wp@, g@])),
{
    let w = unit_wrapper(wp, g);
    let ghost at = *next_id as int;
    let (copy, _) = duplicate_template(&w, next_id);
    proof {
        lemma_copy_len(seq![wp@, g@], at);
        lemma_children_model(copy);
    }
    let mut a = copy.children[0].deep_copy();
    let mut b = copy.children[1].deep_copy();
    let na = number_name("RTB - ", number);
    let nb = number_name("Group ", number);
    a.set_name(na.as_str());
    b.set_name(nb.as_str());
    (a, b)
}

/// Copy gate cell `cell` from `*next_id`, renamed for group number `number`.
fn copy_cell(cell: &Vec<Il2Entity>, number: usize, next_id: &mut i32) -> (r: Vec<Il2Entity>)
    requires
        cell@.len() == 6,
        *old(next_id) + index_count(bare_group(children_model(cell@))) <= i32::MAX,
    ensures
        children_model(r@) == renamed_cell(
            duplicated(bare_group(children_model(cell@)), *old(next_id) as int).children,
            number as int,
        ),
        *final(next_id) == *old(next_id) + index_count(bare_group(children_model(cell@))),
{
    let w = cell_wrapper(cell);
    let ghost at = *next_id as int;
    let (copy, _) = duplicate_template(&w, next_id);
    proof {
        lemma_copy_len(children_model(cell@), at);
        lemma_children_model(copy);
    }
    let mut t0 = copy.children[0].deep_copy();
    let mut t1 = copy.children[1].deep_copy();
    let mut t2 = copy.children[2].deep_copy();
    let mut t3 = copy.children[3].deep_copy();
    let mut t4 = copy.children[4].deep_copy();
    let mut t5 = copy.children[5].deep_copy();
    let n0 = name_number(number, "IN - DISABLE");
    let n1 = name_number(number, "OUT - DISABLE");
    let n2 = name_number(number, "IN - ENABLE");
    let n3 = name_number(number, "OUT - ENABLE");
    let n4 = name_number(number, "");
    proof {
        reveal_strlit("");
        assert(""@ =~= Seq::<char>::empty());
    }
    t0.set_name(n0.as_str());
    t1.set_name(n1.as_str());
    t2.set_name(n2.as_str());
    t3.set_name(n3.as_str());
    t4.set_name(n4.as_str());
    t5.set_name(n4.as_str());
    let r = vec![t0, t1, t2, t3, t4, t5];
    proof {
        assert(children_model(r@) =~= renamed_cell(copy@.children, number as int));
    }
    r
}

/// The waypoints and groups of a pack of `n`: the originals, then `n - 1`
/// copies made back to back from `*next_id`.
fn copy_units(wp: &Il2Entity, g: &Il2Entity, n: usize, next_id: &mut i32) -> (r: (Vec<Il2Entity>, Vec<Il2Entity>))
    requires
        n >= 1,
        *old(next_id) + (n - 1) * index_count(bare_group(seq![wp@, g@])) <= i32::MAX,
    ensures
        r.0@.len() == n,
        r.1@.len() == n,
        r.0@[0]@ == wp@,
        r.1@[0]@ == g@,
        forall|k: int| 1 <= k < n ==> #[trigger] r.0@[k]@ == named(
            duplicated(bare_group(seq![wp@, g@]), *old(next_id) + (k - 1) * index_count(bare_group(seq![wp@, g@]))).children[0],
            "RTB - "@ + dec_text((k + 1) as nat),
        ),
        forall|k: int| 1 <= k < n ==> #[trigger] r.1@[k]@ == named(
            duplicated(bare_group(seq![wp@, g@]), *old(next_id) + (k - 1) * index_count(bare_group(seq![wp@, g@]))).children[1],
            "Group "@ + dec_text((k + 1) as nat),
        ),
        *final(next_id) == *old(next_id) + (n - 1) * index_count(bare_group(seq![wp@, g@])),
{
    let ghost u = bare_group(seq![wp@, g@]);
    let ghost us = index_count(u);
    let ghost start = *next_id as int;
    let mut wps: Vec<Il2Entity> = Vec::new();
    let mut gs: Vec<Il2Entity> = Vec::new();
    wps.push(wp.deep_copy());
    gs.push(g.deep_copy());
    let mut k: usize = 1;
    while k < n
        invariant
            1 <= k <= n,
            wps@.len() == k,
            gs@.len() == k,
            wps@[0]@ == wp@,
            gs@[0]@ == g@,
            u == bare_group(seq![wp@, g@]),
            us == index_count(u),
            start + (n - 1) * us <= i32::MAX,
            *next_id == start + (k - 1) * us,
            forall|j: int| 1 <= j < k ==> #[trigger] wps@[j]@ == named(
                duplicated(u, start + (j - 1) * us).children[0],
                "RTB - "@ + dec_text((j + 1) as nat),
            ),
            forall|j: int| 1 <= j < k ==> #[trigger] gs@[j]@ == named(
                duplicated(u, start + (j - 1) * us).children[1],
                "Group "@ + dec_text((j + 1) as nat),
            ),
        decreases n - k,
    {
        proof {
            lemma_step(k as int, n as int, us);
        }
        let (a, b) = copy_unit(wp, g, k + 1, next_id);
        wps.push(a);
        gs.push(b);
        k = k + 1;
    }
    (wps, gs)
}

/// Gate cells for a pack of `n`: cell 1, then `n - 1` copies made back
/// to back from `*next_id`.
fn copy_cells(cell: &Vec<Il2Entity>, n: usize, next_id: &mut i32) -> (r: Vec<Vec<Il2Entity>>)
    requires
        n >= 1,
        cell@.len() == 6,
        *old(next_id) + (n - 1) * index_count(bare_group(children_model(cell@))) <= i32::MAX,
    ensures
        r@.len() == n,
        children_model(r@[0]@) == children_model(cell@),
        forall|k: int| 0 <= k < n ==> (#[trigger] r@[k])@.len() == 6,
        forall|k: int| 1 <= k < n ==> children_model(#[trigger] r@[k]@) == renamed_cell(
            duplicated(
                bare_group(children_model(cell@)),
                *old(next_id) + (k - 1) * index_count(bare_group(children_model(cell@))),
            ).children,
            k + 1,
        ),
        *final(next_id) == *old(next_id) + (n - 1) * index_count(bare_group(children_model(cell@))),
{
    let ghost c = bare_group(children_model(cell@));
    let ghost cs = index_count(c);
    let ghost start = *next_id as int;
    let mut first: Vec<Il2Entity> = Vec::new();
    let mut i: usize = 0;
    while i < cell.len()
        invariant
            i <= cell@.len(),
            first@.len() == i,
            forall|j: int| 0 <= j < i ==> #[trigger] first@[j]@ == cell@[j]@,
        decreases cell@.len() - i,
    {
        first.push(cell[i].deep_copy());
        i = i + 1;
    }
    proof {
        assert forall|j: int| 0 <= j < first@.len() implies #[trigger] children_model(first@)[j] == children_model(cell@)[j] by {
            assert(first@[j]@ == cell@[j]@);
        }
        assert(children_model(first@) =~= children_model(cell@));
    }
    let mut cells: Vec<Vec<Il2Entity>> = Vec::new();
    cells.push(first);
    let mut k: usize = 1;
    while k < n
        invariant
            1 <= k <= n,
            cell@.len() == 6,
            cells@.len() == k,
            children_model(cells@[0]@) == children_model(cell@),
            cells@[0]@.len() == 6,
            c == bare_group(children_model(cell@)),
            cs == index_count(c),
            start + (n - 1) * cs <= i32::MAX,
            *next_id == start + (k - 1) * cs,
            forall|j: int| 0 <= j < k ==> (#[trigger] cells@[j])@.len() == 6,
            forall|j: int| 1 <= j < k ==> children_model(#[trigger] cells@[j]@) == renamed_cell(
                duplicated(c, start + (j - 1) * cs).children,
                j + 1,
            ),
        decreases n - k,
    {
        proof {
            lemma_step(k as int, n as int, cs);
        }
        let copy = copy_cell(cell, k + 1, next_id);
        proof {
            assert(children_model(copy@).len() == 6);
        }
        cells.push(copy);
        k = k + 1;
    }
    cells
}

/// The Indexes present at `slot` of each cell, in order.
fn present_ids(cells: &Vec<Vec<Il2Entity>>, slot: usize) -> (r: Vec<i32>)
    requires
        slot < 6,
        forall|k: int| 0 <= k < cells@.len() ==> (#[trigger] cells@[k])@.len() == 6,
    ensures
        r@ == somes(Seq::new(cells@.len(), |k: int| cells@[k]@[slot as int]@.index)),
{
    let ghost all = Seq::new(cells@.len(), |k: int| cells@[k]@[slot as int]@.index);
    let mut r: Vec<i32> = Vec::new();
    let mut k: usize = 0;
    while k < cells.len()
        invariant
            k <= cells@.len(),
            slot < 6,
            all == Seq::new(cells@.len(), |k: int| cells@[k]@[slot as int]@.index),
            forall|j: int| 0 <= j < cells@.len() ==> (#[trigger] cells@[j])@.len() == 6,
            r@ == somes(all.take(k as int)),
        decreases cells@.len() - k,
    {
        proof {
            assert(all.take(k + 1).drop_last() =~= all.take(k as int));
            assert(all.take(k + 1).last() == cells@[k as int]@[slot as int]@.index);
        }
        match cells[k][slot].index {
            Some(x) => r.push(x),
            None => {},
        }
        k = k + 1;
    }
    proof {
        assert(all.take(k as int) =~= all);
    }
    r
}

/// `ids` without position `i`.
fn all_but_at(ids: &Vec<i32>, i: usize) -> (r: Vec<i32>)
    ensures
        r@ == all_but(ids@, i as int),
{
    let mut r: Vec<i32> = Vec::new();
    let mut j: usize = 0;
    while j < ids.len()
        invariant
            j <= ids@.len(),
            r@ == (if j <= i { ids@.take(j as int) } else { ids@.take(i as int) + ids@.subrange(i + 1, j as int) }),
        decreases ids@.len() - j,
    {
        if j != i {
            r.push(ids[j]);
        }
        proof {
            if j < i {
                assert(ids@.take(j + 1) =~= ids@.take(j as int).push(ids@[j as int]));
            } else if j == i {
                assert(ids@.subrange(i + 1, j + 1) =~= Seq::<i32>::empty());
                assert(ids@.take(i as int) + ids@.subrange(i + 1, j + 1) =~= ids@.take(j as int));
            } else {
                assert(ids@.subrange(i + 1, j + 1) =~= ids@.subrange(i + 1, j as int).push(ids@[j as int]));
            }
        }
        j = j + 1;
    }
    proof {
        if j <= i {
            assert(ids@.take(j as int) =~= ids@);
        } else {
            assert(ids@.subrange(i + 1, j as int) =~= ids@.skip(i + 1));
        }
    }
    r
}

/// Index of the first block of `g` named `name`.
fn index_named_in(g: &Il2Entity, name: &str) -> (r: Option<i32>)
    ensures
        r == index_named(g@, name@),
{
    match g.find_by_name(name) {
        Some(x) => x.index,
        None => None,
    }
}

/// `replace_target_id(old, new)` when both ids are known.
fn move_links(g: &mut Il2Entity, old_id: Option<i32>, new_id: Option<i32>)
    ensures
        final(g)@ == moved(old(g)@, old_id, new_id),
{
    match (old_id, new_id) {
        (Some(a), Some(b)) => g.replace_target_id(a, b),
        _ => {},
    }
}

/// A copy of `t` aimed at `ids`, when there are any.
fn aimed_copy(t: &Il2Entity, ids: Option<Vec<i32>>) -> (r: Il2Entity)
    ensures
        r@ == aimed(t@, match ids {
            Some(v) => Some(v@),
            None => None,
        }),
{
    let mut c = t.deep_copy();
    match ids {
        Some(v) => c.set_targets(v),
        None => {},
    }
    c
}

fn both_vec(a: Option<i32>, b: Option<i32>) -> (r: Option<Vec<i32>>)
    ensures
        (match r {
            Some(v) => Some(v@),
            None => None,
        }) == both_ids(a, b),
{
    match (a, b) {
        (Some(x), Some(y)) => Some(vec![x, y]),
        _ => None,
    }
}

fn one_vec(a: Option<i32>) -> (r: Option<Vec<i32>>)
    ensures
        (match r {
            Some(v) => Some(v@),
            None => None,
        }) == one_id(a),
{
    match a {
        Some(x) => Some(vec![x]),
        None => None,
    }
}

/// Wire each group to its gate cell and the cells to one another. Returns
/// each unit's waypoint and group, interleaved, and the six timers of each
/// cell, one cell after another.
#[verifier::rlimit(40)]
fn wire_pack(
    wps: &Vec<Il2Entity>,
    gs: &Vec<Il2Entity>,
    cells: &Vec<Vec<Il2Entity>>,
    Ghost(root): Ghost<EntityModel>,
) -> (r: (Vec<Il2Entity>, Vec<Il2Entity>))
    requires
        wps@.len() >= 1,
        gs@.len() == wps@.len(),
        cells@.len() == wps@.len(),
        pack_error(root) is None,
        forall|k: int| 0 <= k < wps@.len() ==> #[trigger] wps@[k]@ == pack_waypoint(root, k),
        forall|k: int| 0 <= k < wps@.len() ==> #[trigger] gs@[k]@ == pack_group(root, k),
        forall|k: int| 0 <= k < wps@.len() ==> (#[trigger] cells@[k])@.len() == 6,
        forall|k: int| 0 <= k < wps@.len() ==> children_model(#[trigger] cells@[k]@) == pack_cell(root, wps@.len() as int, k),
    ensures
        children_model(r.0@) == units_flat(root, wps@.len() as int, wps@.len() as int),
        children_model(r.1@) == cells_flat(root, wps@.len() as int, wps@.len() as int),
{
    let n = wps.len();
    let ghost nn = n as int;
    let enable = present_ids(cells, 2);
    let disable = present_ids(cells, 0);
    proof {
        assert forall|k: int| 0 <= k < n implies #[trigger] cells@[k]@[2]@ == pack_cell(root, nn, k)[2]
            && cells@[k]@[0]@ == pack_cell(root, nn, k)[0] by {
            assert(children_model(cells@[k]@)[2] == cells@[k]@[2]@);
            assert(children_model(cells@[k]@)[0] == cells@[k]@[0]@);
        }
        assert(Seq::new(cells@.len(), |k: int| cells@[k]@[2]@.index)
            =~= Seq::new(nn as nat, |k: int| pack_cell(root, nn, k)[2].index));
        assert(Seq::new(cells@.len(), |k: int| cells@[k]@[0]@.index)
            =~= Seq::new(nn as nat, |k: int| pack_cell(root, nn, k)[0].index));
    }
    let mut units: Vec<Il2Entity> = Vec::new();
    let mut gates: Vec<Il2Entity> = Vec::new();
    let mut k: usize = 0;
    while k < n
        invariant
            k <= n,
            n == wps@.len(),
            nn == n,
            gs@.len() == n,
            cells@.len() == n,
            pack_error(root) is None,
            forall|j: int| 0 <= j < n ==> #[trigger] wps@[j]@ == pack_waypoint(root, j),
            forall|j: int| 0 <= j < n ==> #[trigger] gs@[j]@ == pack_group(root, j),
            forall|j: int| 0 <= j < n ==> (#[trigger] cells@[j])@.len() == 6,
            forall|j: int| 0 <= j < n ==> children_model(#[trigger] cells@[j]@) == pack_cell(root, nn, j),
            enable@ == in_enable_ids(root, nn),
            disable@ == in_disable_ids(root, nn),
            children_model(units@) == units_flat(root, nn, k as int),
            children_model(gates@) == cells_flat(root, nn, k as int),
        decreases n - k,
    {
        let ghost c = pack_cell(root, nn, k as int);
        let ghost c1 = pack_cell(root, nn, 0);
        proof {
            assert(children_model(cells@[k as int]@) == c);
            assert(children_model(cells@[0]@) == c1);
            assert forall|j: int| 0 <= j < 6 implies #[trigger] cells@[k as int]@[j]@ == c[j] by {
                assert(children_model(cells@[k as int]@)[j] == cells@[k as int]@[j]@);
            }
            assert(cells@[0]@[3]@ == c1[3]) by {
                assert(children_model(cells@[0]@)[3] == cells@[0]@[3]@);
            }
            assert(cells@[0]@[1]@ == c1[1]) by {
                assert(children_model(cells@[0]@)[1] == cells@[0]@[1]@);
            }
        }
        let mut g = gs[k].deep_copy();
        move_links(&mut g, cells[0][3].index, cells[k][3].index);
        move_links(&mut g, cells[0][1].index, cells[k][1].index);
        let ghost wg = g@;
        assert(wg == wired_group(root, nn, k as int));
        let orders = index_named_in(&g, "Delete Orders");
        let stop = index_named_in(&g, "Disable Spawner");
        let start = index_named_in(&g, "Enable Spawner");
        let pulse = index_named_in(&g, "ENABLE / PULSE IN");
        let t0 = aimed_copy(&cells[k][0], both_vec(orders, stop));
        let t1 = aimed_copy(&cells[k][1], one_vec(cells[k][5].index));
        let t2 = aimed_copy(&cells[k][2], both_vec(start, pulse));
        let t3 = aimed_copy(&cells[k][3], one_vec(cells[k][4].index));
        let mut t4 = cells[k][4].deep_copy();
        t4.set_targets(all_but_at(&enable, k));
        let mut t5 = cells[k][5].deep_copy();
        t5.set_targets(all_but_at(&disable, k));
        let ghost units_before = children_model(units@);
        let ghost gates_before = children_model(gates@);
        units.push(wps[k].deep_copy());
        units.push(g);
        gates.push(t0);
        gates.push(t1);
        gates.push(t2);
        gates.push(t3);
        gates.push(t4);
        gates.push(t5);
        proof {
            assert(children_model(units@) =~= units_before + seq![pack_waypoint(root, k as int), wg]);
            assert(children_model(gates@) =~= gates_before + wired_cell(root, nn, k as int));
        }
        k = k + 1;
    }
    (units, gates)
}

/// Bound on the group count: at least one group.
pub open spec fn at_least_one(n: usize) -> int {
    if n < 1 {
        1
    } else {
        n as int
    }
}

/// A `Group` with the Index and properties of `src`, renamed `name`,
/// holding `children`.
fn headed_group(src: &Il2Entity, name: &str, children: Vec<Il2Entity>) -> (r: Il2Entity)
    ensures
        r@ == headed(src@, name@, children_model(children@)),
{
    let mut out = Il2Entity::new("Group");
    out.index = src.index;
    out.properties = crate::ast::copy_props(&src.properties);
    out.set_name(name);
    match out.index {
        Some(id) => {
            let t = int_to_string(id as i64);
            out.set_property("Index", t.as_str());
        },
        None => {},
    }
    out.children = children;
    proof {
        lemma_children_model(out);
    }
    out
}

/// Build a pack of `group_count` groups (at least one) named `name` from
/// Group 1 of a linked fighter-pack template: Group 1 and `RTB - 1` are kept,
/// copies `2..=N` get fresh indexes from one past the template's highest,
/// and NodeGates holds one wired gate cell per group. Each copy keeps the
/// positions of what it was copied from.
pub fn generate_pack_named(root: &Il2Entity, group_count: usize, name: &str) -> (r: Result<Il2Entity, String>)
    requires
        pack_error(root@) is None ==> pack_fits(root@, at_least_one(group_count)),
    ensures
        match pack_error(root@) {
            Some(m) => r matches Err(e) && e@ == m,
            None => r matches Ok(p) && p@ == packed(root@, at_least_one(group_count), name@),
        },
{
    let n: usize = if group_count < 1 { 1 } else { group_count };
    let g1 = match find_child(root, Some("Group"), "Group 1") {
        Some(g) => g,
        None => return Err(owned("template has no Group 1")),
    };
    let w1 = match find_child(root, Some("MCU_Waypoint"), "RTB - 1") {
        Some(w) => w,
        None => return Err(owned("template has no RTB - 1 waypoint")),
    };
    let ng = match find_child(root, None, "NodeGates") {
        Some(x) => x,
        None => return Err(owned("template has no NodeGates group — load a linked fighter pack")),
    };
    let c1 = match read_cell1(ng) {
        Ok(c) => c,
        Err(e) => return Err(e),
    };
    let ghost rv = root@;
    let ghost us = unit_size(rv);
    let ghost cs = gate_size(rv);
    let m = root.max_index();
    let mut next_id: i32 = if m == i32::MAX { m } else { m + 1 };
    proof {
        assert(next_id as int == first_free(rv));
        assert(bare_group(seq![w1@, g1@]) == unit_of(rv));
        assert(bare_group(children_model(c1@)) == gates_of(rv));
        lemma_split(n as int, us, cs);
    }
    let (wps, gs) = copy_units(w1, g1, n, &mut next_id);
    let cells = copy_cells(&c1, n, &mut next_id);
    proof {
        assert forall|k: int| 0 <= k < n implies #[trigger] wps@[k]@ == pack_waypoint(rv, k) && gs@[k]@ == pack_group(rv, k) by {}
        assert forall|k: int| 0 <= k < n implies children_model(#[trigger] cells@[k]@) == pack_cell(rv, n as int, k) by {}
    }
    let (units, gates) = wire_pack(&wps, &gs, &cells, Ghost(rv));
    let node = headed_group(ng, "NodeGates", gates);
    let ghost node_v = node@;
    let mut kids = units;
    kids.push(node);
    proof {
        assert(children_model(kids@) =~= units_flat(rv, n as int, n as int).push(node_v));
    }
    Ok(headed_group(root, name, kids))
}

/// Side of the country Group 1 of `root` flies for.
fn pack_side(root: &Il2Entity) -> (r: &'static str)
    ensures
        r@ == country_side(group_one_country(root@)),
{
    let c = match root.find_by_name("Group 1") {
        Some(g) => match crate::bombers::link::find_block(g, "Plane") {
            Some(p) => p.property("Country"),
            None => None,
        },
        None => None,
    };
    match c {
        Some(v) => {
            if str_eq(v, "501") {
                "USSR"
            } else if str_eq(v, "502") {
                "DPRK"
            } else if str_eq(v, "503") {
                "PRC"
            } else if str_eq(v, "601") {
                "USA"
            } else {
                "Eastern"
            }
        },
        None => "Eastern",
    }
}

/// Build a pack of `group_count` groups (at least one) from Group 1 of a
/// linked fighter-pack template, named after the side Group 1's planes fly
/// for: `USA Fighters {N}pack - Linked`, and `Eastern Fighters …` for a
/// template whose planes carry none of the four countries.
pub fn generate_pack(root: &Il2Entity, group_count: usize) -> (r: Result<Il2Entity, String>)
    requires
        pack_error(root@) is None ==> pack_fits(root@, at_least_one(group_count)),
    ensures
        match pack_error(root@) {
            Some(m) => r matches Err(e) && e@ == m,
            None => r matches Ok(p) && p@ == packed(root@, at_least_one(group_count), pack_name(root@, at_least_one(group_count))),
        },
{
    let n: usize = if group_count < 1 { 1 } else { group_count };
    let mut name = owned(pack_side(root));
    push_str(&mut name, " Fighters ");
    push_dec(&mut name, n as u64);
    push_str(&mut name, "pack - Linked");
    proof {
        assert(name@ =~= pack_name(root@, n as int));
    }
    generate_pack_named(root, n, name.as_str())
}

/// Number of Indexes in a subtree.
pub(crate) fn count_indexes(e: &Il2Entity) -> (r: usize)
    ensures
        r == index_count(e@),
{
    let mut v: Vec<i32> = Vec::new();
    e.collect_indexes(&mut v);
    proof {
        assert(v@ =~= indexes_of(e@));
    }
    v.len()
}

/// Whether [`generate_pack`] may be called on `root` for `group_count`
/// groups: every Index it would hand out fits `i32` (always so for a
/// template it refuses).
pub fn pack_fits_check(root: &Il2Entity, group_count: usize) -> (r: bool)
    ensures
        r == (pack_error(root@) is None ==> pack_fits(root@, at_least_one(group_count))),
{
    let n: usize = if group_count < 1 { 1 } else { group_count };
    if n < 2 {
        return true;
    }
    let g1 = match find_child(root, Some("Group"), "Group 1") {
        Some(g) => g,
        None => return true,
    };
    let w1 = match find_child(root, Some("MCU_Waypoint"), "RTB - 1") {
        Some(w) => w,
        None => return true,
    };
    let ng = match find_child(root, None, "NodeGates") {
        Some(x) => x,
        None => return true,
    };
    let c1 = match read_cell1(ng) {
        Ok(c) => c,
        Err(_) => return true,
    };
    let us = count_indexes(&unit_wrapper(w1, g1));
    let cs = count_indexes(&cell_wrapper(&c1));
    let m = root.max_index();
    proof {
        crate::duplicate::lemma_max_nonneg(root@);
    }
    let ff: u128 = if m == i32::MAX { m as u128 } else { (m + 1) as u128 };
    let w: u128 = us as u128 + cs as u128;
    let ghost rv = root@;
    proof {
        assert(ff as int == first_free(rv));
        assert(us as int == unit_size(rv));
        assert(cs as int == gate_size(rv));
    }
    match ((n - 1) as u128).checked_mul(w) {
        Some(p) => p <= (i32::MAX as u128) - ff,
        None => false,
    }
}

} // verus!
