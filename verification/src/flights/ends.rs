//! The end of a fighter's sortie: for each plane of Group 1 a CLEANUP timer
//! that forces its task complete, sends it home and, after a delay,
//! deactivates it and counts it out of its flight; each plane's Mission
//! Complete fires its own CLEANUP instead of MISSION END.

use vstd::prelude::*;
use crate::ast::{EntityModel, Il2Entity, find_named, int_array_text, lemma_children_model, name_of, prop_set, replace_in};
use crate::bombers::link::{named, with_objects, with_prop, with_targets, wrapper};
use crate::duplicate::{duplicate_template, duplicated, index_count};
use crate::text::{all_digits, dec_text, digits_value, owned, push_dec, push_str, str_eq};

verus! {

// ---------------------------------------------------------------------------
// Flights and seats
// ---------------------------------------------------------------------------

/// The flight of seat `si`, looking from flight `f` whose first seat is `acc`.
pub open spec fn flight_from(sizes: Seq<usize>, si: int, f: int, acc: int) -> Option<int>
    decreases sizes.len() - f,
{
    if f < 0 || f >= sizes.len() {
        None
    } else if si < acc + sizes[f] {
        Some(f)
    } else {
        flight_from(sizes, si, f + 1, acc + sizes[f])
    }
}

/// Seats in flights `f..`.
pub open spec fn seats_from(sizes: Seq<usize>, f: int) -> int
    decreases sizes.len() - f,
{
    if f < 0 || f >= sizes.len() {
        0
    } else {
        sizes[f] + seats_from(sizes, f + 1)
    }
}

proof fn lemma_seats_nonneg(sizes: Seq<usize>, f: int)
    ensures
        seats_from(sizes, f) >= 0,
    decreases sizes.len() - f,
{
    if 0 <= f < sizes.len() {
        lemma_seats_nonneg(sizes, f + 1);
    }
}

/// The flight seat `si` belongs to, when flights have `sizes` seats in turn.
pub fn flight_of_seat(sizes: &[usize], si: usize) -> (r: Option<usize>)
    requires
        seats_from(sizes@, 0) <= usize::MAX,
    ensures
        match r {
            Some(x) => flight_from(sizes@, si as int, 0, 0) == Some(x as int),
            None => flight_from(sizes@, si as int, 0, 0) is None,
        },
{
    let mut n: usize = 0;
    let mut f: usize = 0;
    while f < sizes.len()
        invariant
            f <= sizes@.len(),
            n + seats_from(sizes@, f as int) == seats_from(sizes@, 0),
            seats_from(sizes@, 0) <= usize::MAX,
            flight_from(sizes@, si as int, 0, 0) == flight_from(sizes@, si as int, f as int, n as int),
        decreases sizes@.len() - f,
    {
        let sz = sizes[f];
        proof {
            lemma_seats_nonneg(sizes@, f + 1);
        }
        if si < n + sz {
            return Some(f);
        }
        n = n + sz;
        f = f + 1;
    }
    None
}

// ---------------------------------------------------------------------------
// The blocks of each plane
// ---------------------------------------------------------------------------

/// Everything the plane ends are built from.
pub struct EndKit {
    pub force: EntityModel,
    pub rtb: EntityModel,
    pub timer: EntityModel,
    pub deact: EntityModel,
    /// The planes' entity Indexes, one per seat.
    pub eids: Seq<i32>,
    pub sizes: Seq<usize>,
    /// The DeathCount of each flight.
    pub deaths: Seq<i32>,
    pub mission_end: i32,
    pub delete_time: Seq<char>,
    /// First free Index.
    pub start: int,
}

impl EndKit {
    pub open spec fn n(self) -> int {
        self.eids.len() as int
    }

    /// Indexes taken by one plane's blocks.
    pub open spec fn step(self) -> int {
        index_count(self.force) + index_count(self.rtb) + 3 * index_count(self.timer) + index_count(self.deact)
    }

    /// First Index of seat `si`'s blocks.
    pub open spec fn base(self, si: int) -> int
        decreases si,
    {
        if si <= 0 {
            self.start
        } else {
            self.base(si - 1) + self.step()
        }
    }

    pub open spec fn force_id(self, si: int) -> int {
        self.base(si)
    }

    pub open spec fn rtb_id(self, si: int) -> int {
        self.base(si) + index_count(self.force)
    }

    pub open spec fn rtb_delay_id(self, si: int) -> int {
        self.rtb_id(si) + index_count(self.rtb)
    }

    pub open spec fn deact_id(self, si: int) -> int {
        self.rtb_delay_id(si) + index_count(self.timer)
    }

    pub open spec fn delay_deact_id(self, si: int) -> int {
        self.deact_id(si) + index_count(self.deact)
    }

    pub open spec fn end_id(self, si: int) -> int {
        self.delay_deact_id(si) + index_count(self.timer)
    }

    /// The DeathCount of seat `si`'s flight, if there is one.
    pub open spec fn seat_death(self, si: int) -> Option<i32> {
        match flight_from(self.sizes, si, 0, 0) {
            Some(f) => if f < self.deaths.len() {
                Some(self.deaths[f])
            } else {
                None
            },
            None => None,
        }
    }

    pub open spec fn label(self, t: Seq<char>, si: int) -> Seq<char> {
        t + dec_text((si + 1) as nat)
    }

    pub open spec fn force_mcu(self, si: int) -> EntityModel {
        with_objects(named(duplicated(self.force, self.force_id(si)), self.label("Force Complete "@, si)), seq![self.eids[si]])
    }

    pub open spec fn rtb_mcu(self, si: int) -> EntityModel {
        with_targets(
            with_objects(named(duplicated(self.rtb, self.rtb_id(si)), self.label("RTB Plane "@, si)), seq![self.eids[si]]),
            seq![],
        )
    }

    pub open spec fn rtb_delay_mcu(self, si: int) -> EntityModel {
        with_targets(
            with_prop(
                with_prop(named(duplicated(self.timer, self.rtb_delay_id(si)), self.label("RTB DELAY "@, si)), "Time"@, "0.5"@),
                "Random"@,
                "100"@,
            ),
            seq![self.rtb_id(si) as i32],
        )
    }

    pub open spec fn deact_mcu(self, si: int) -> EntityModel {
        with_targets(
            with_objects(named(duplicated(self.deact, self.deact_id(si)), self.label("Deactivate "@, si)), seq![self.eids[si]]),
            seq![],
        )
    }

    pub open spec fn delay_deact_mcu(self, si: int) -> EntityModel {
        with_targets(
            with_prop(
                with_prop(
                    named(duplicated(self.timer, self.delay_deact_id(si)), self.label("Delay Delete "@, si)),
                    "Time"@,
                    self.delete_time,
                ),
                "Random"@,
                "100"@,
            ),
            match self.seat_death(si) {
                Some(d) => seq![self.deact_id(si) as i32, d],
                None => seq![self.deact_id(si) as i32],
            },
        )
    }

    pub open spec fn end_mcu(self, si: int) -> EntityModel {
        with_targets(
            with_prop(
                with_prop(named(duplicated(self.timer, self.end_id(si)), self.label("CLEANUP "@, si)), "Time"@, "0.1"@),
                "Random"@,
                "100"@,
            ),
            seq![self.force_id(si) as i32, self.rtb_delay_id(si) as i32, self.delay_deact_id(si) as i32],
        )
    }

    /// The logic blocks of seats `..k`: CLEANUP, Force Complete, RTB DELAY,
    /// Delay Delete and Deactivate of each.
    pub open spec fn logic_nodes(self, k: int) -> Seq<EntityModel>
        decreases k,
    {
        if k <= 0 {
            seq![]
        } else {
            self.logic_nodes(k - 1) + seq![
                self.end_mcu(k - 1),
                self.force_mcu(k - 1),
                self.rtb_delay_mcu(k - 1),
                self.delay_deact_mcu(k - 1),
                self.deact_mcu(k - 1),
            ]
        }
    }

    pub open spec fn end_ids(self) -> Seq<i32> {
        Seq::new(self.n() as nat, |si: int| self.end_id(si) as i32)
    }

    /// Why the plane ends cannot be built, if they cannot.
    pub open spec fn error(self) -> Option<Seq<char>> {
        if self.n() == 0 {
            None
        } else if self.force.index is None {
            Some("plane Force Complete missing Index"@)
        } else if self.rtb.index is None {
            Some("RTB Plane missing Index"@)
        } else if self.timer.index is None {
            Some("RTB DELAY missing Index"@)
        } else if self.deact.index is None {
            Some("Deactivate missing Index"@)
        } else {
            None
        }
    }

    /// The next free Index after a failed attempt: the blocks cloned for the
    /// first plane up to the one found without an Index.
    pub open spec fn error_next(self) -> int {
        let a = self.start + index_count(self.force);
        let b = a + index_count(self.rtb);
        let c = b + index_count(self.timer);
        if self.force.index is None {
            a
        } else if self.rtb.index is None {
            b
        } else if self.timer.index is None {
            c
        } else {
            c + index_count(self.deact)
        }
    }
}

// ---------------------------------------------------------------------------
// Mission Complete
// ---------------------------------------------------------------------------

/// The seat a block named `Mission Complete N` stands for (`N - 1`, and 0
/// for `N = 0`).
pub open spec fn complete_seat(name: Option<Seq<char>>) -> Option<int> {
    let p = "Mission Complete "@;
    match name {
        Some(t) => if t.len() >= p.len() && t.take(p.len() as int) == p {
            let rest = t.skip(p.len() as int);
            let body = if rest.len() > 0 && rest[0] == '+' {
                rest.drop_first()
            } else {
                rest
            };
            if body.len() > 0 && all_digits(body) {
                Some(if digits_value(body) > 0 {
                    digits_value(body) - 1
                } else {
                    0
                })
            } else {
                None
            }
        } else {
            None
        },
        None => None,
    }
}

/// `e` with `old_id` replaced by `new_id` among its own targets.
pub open spec fn own_retarget(e: EntityModel, old_id: i32, new_id: i32) -> EntityModel {
    let targets = replace_in(e.targets, old_id, new_id);
    EntityModel {
        targets,
        properties: if e.targets.contains(old_id) {
            prop_set(e.properties, "Targets"@, int_array_text(targets))
        } else {
            e.properties
        },
        ..e
    }
}

/// Every block of `e` fires, in place of MISSION END (`mid`), the CLEANUP of
/// the outermost `Mission Complete N` block around it (itself included)
/// whose seat has one; `cur` is the one chosen above `e`.
pub open spec fn completed(e: EntityModel, mid: i32, ends: Seq<i32>, cur: Option<i32>) -> EntityModel
    decreases e,
{
    let here = match cur {
        Some(c) => Some(c),
        None => match complete_seat(name_of(e)) {
            Some(si) => if si < ends.len() && ends[si] != mid {
                Some(ends[si])
            } else {
                None
            },
            None => None,
        },
    };
    let own = match here {
        Some(c) => own_retarget(e, mid, c),
        None => e,
    };
    EntityModel {
        children: Seq::new(
            e.children.len(),
            |i: int|
                if 0 <= i < e.children.len() {
                    completed(e.children[i], mid, ends, here)
                } else {
                    arbitrary()
                },
        ),
        ..own
    }
}

/// `e` with `extra` appended to the children of its first block (pre-order)
/// named `name`.
pub open spec fn extend_named(e: EntityModel, name: Seq<char>, extra: Seq<EntityModel>) -> EntityModel
    decreases e,
{
    if name_of(e) == Some(name) {
        EntityModel { children: e.children + extra, ..e }
    } else {
        EntityModel { children: extend_in(e.children, name, extra), ..e }
    }
}

pub open spec fn extend_in(cs: Seq<EntityModel>, name: Seq<char>, extra: Seq<EntityModel>) -> Seq<EntityModel>
    decreases cs,
{
    if cs.len() == 0 {
        cs
    } else if find_named(cs[0], name) is Some {
        seq![extend_named(cs[0], name, extra)] + cs.drop_first()
    } else {
        seq![cs[0]] + extend_in(cs.drop_first(), name, extra)
    }
}

/// Group 1 with each Mission Complete retargeted and the plane logic added
/// to its `Logic` group.
pub open spec fn logic_done(g: EntityModel, k: EndKit) -> EntityModel {
    extend_named(completed(g, k.mission_end, k.end_ids(), None), "Logic"@, k.logic_nodes(k.n()))
}

/// Group 1 after its plane ends are installed: each plane's RTB waypoint
/// joins the `Waypoints` group, or a new `Waypoints` group (Index after
/// the blocks) when there is none.
pub open spec fn plane_ends(g: EntityModel, k: EndKit) -> EntityModel {
    let g2 = logic_done(g, k);
    let wps = Seq::new(k.n() as nat, |si: int| k.rtb_mcu(si));
    if find_named(g2, "Waypoints"@) is Some {
        extend_named(g2, "Waypoints"@, wps)
    } else {
        EntityModel { children: g2.children.push(wrapper("Waypoints"@, k.base(k.n()), wps)), ..g2 }
    }
}

// ---------------------------------------------------------------------------
// Building them
// ---------------------------------------------------------------------------

/// The seat of a block named `name` that is one of `len` seats.
fn seat_index(name: &str, len: usize) -> (r: Option<usize>)
    ensures
        r == (match complete_seat(Some(name@)) {
            Some(si) => if si < len {
                Some(si as usize)
            } else {
                None
            },
            None => None,
        }),
{
    let cs = crate::text::chars_of(name);
    let p = crate::text::chars_of("Mission Complete ");
    proof {
        reveal_strlit("Mission Complete ");
    }
    if cs.len() < p.len() {
        return None;
    }
    if !crate::text::matches_at(&cs, 0, &p) {
        proof {
            assert(cs@.subrange(0, p@.len() as int) =~= cs@.take(p@.len() as int));
        }
        return None;
    }
    proof {
        assert(cs@.subrange(0, p@.len() as int) =~= cs@.take(p@.len() as int));
    }
    let ghost rest = cs@.skip(p@.len() as int);
    let mut b = p.len();
    if b < cs.len() && cs[b] == '+' {
        b = b + 1;
    }
    let ghost body = cs@.subrange(b as int, cs@.len() as int);
    proof {
        if rest.len() > 0 && rest[0] == '+' {
            assert(body =~= rest.drop_first());
        } else {
            assert(body =~= rest);
        }
    }
    if b == cs.len() || !crate::text::all_digits_in(&cs, b, cs.len()) {
        return None;
    }
    let cap: u128 = len as u128 + 1;
    let mut v: u128 = 0;
    let mut k = b;
    proof {
        assert(cs@.subrange(b as int, b as int) =~= Seq::<char>::empty());
    }
    while k < cs.len()
        invariant
            b <= k <= cs@.len(),
            body == cs@.subrange(b as int, cs@.len() as int),
            all_digits(body),
            cap == len + 1,
            v as int == (if digits_value(cs@.subrange(b as int, k as int)) < cap {
                digits_value(cs@.subrange(b as int, k as int))
            } else {
                cap as int
            }),
        decreases cs@.len() - k,
    {
        let ghost pre = cs@.subrange(b as int, k as int);
        let ghost nxt = cs@.subrange(b as int, k + 1);
        proof {
            assert(nxt.drop_last() =~= pre);
            assert(nxt.last() == body[k - b]);
            assert(crate::text::is_ascii_digit(body[k - b]));
            assert(all_digits(pre)) by {
                assert forall|q: int| 0 <= q < pre.len() implies crate::text::is_ascii_digit(#[trigger] pre[q]) by {
                    assert(pre[q] == body[q]);
                }
            }
            crate::text::lemma_digits_value_nonneg(pre);
        }
        let d: u128 = (cs[k] as u32 - 48) as u128;
        if v < cap {
            let w = v * 10 + d;
            v = if w > cap {
                cap
            } else {
                w
            };
        }
        k = k + 1;
    }
    proof {
        assert(cs@.subrange(b as int, k as int) =~= body);
    }
    let si: u128 = if v > 0 {
        v - 1
    } else {
        0
    };
    if si < len as u128 {
        Some(si as usize)
    } else {
        None
    }
}

fn retarget_own(e: &mut Il2Entity, old_id: i32, new_id: i32)
    ensures
        final(e)@ == own_retarget(old(e)@, old_id, new_id),
        final(e).children == old(e).children,
{
    let mut ts: Vec<i32> = Vec::new();
    let mut changed = false;
    let mut i: usize = 0;
    while i < e.targets.len()
        invariant
            i <= e.targets@.len(),
            ts@ == replace_in(e.targets@.take(i as int), old_id, new_id),
            changed <==> e.targets@.take(i as int).contains(old_id),
        decreases e.targets@.len() - i,
    {
        let x = e.targets[i];
        proof {
            assert(e.targets@.take(i + 1) =~= e.targets@.take(i as int).push(x));
        }
        if x == old_id {
            ts.push(new_id);
            changed = true;
        } else {
            ts.push(x);
        }
        proof {
            assert(ts@ =~= replace_in(e.targets@.take(i + 1), old_id, new_id));
            if e.targets@.take(i + 1).contains(old_id) && x != old_id {
                let j = choose|j: int| 0 <= j < i + 1 && #[trigger] e.targets@.take(i + 1)[j] == old_id;
                assert(e.targets@.take(i as int)[j] == old_id);
            }
            if x == old_id {
                assert(e.targets@.take(i + 1)[i as int] == old_id);
            }
        }
        i = i + 1;
    }
    proof {
        assert(e.targets@.take(i as int) =~= e.targets@);
    }
    if changed {
        e.set_targets(ts);
    } else {
        proof {
            assert(replace_in(e.targets@, old_id, new_id) =~= e.targets@);
            assert(e@ =~= own_retarget(e@, old_id, new_id));
        }
    }
}

fn complete_walk(e: &mut Il2Entity, mid: i32, ends: &Vec<i32>, cur: Option<i32>)
    ensures
        final(e)@ == completed(old(e)@, mid, ends@, cur),
    decreases *old(e),
{
    let ghost orig = *e;
    let here: Option<i32> = match cur {
        Some(c) => Some(c),
        None => match e.name() {
            Some(nm) => match seat_index(nm, ends.len()) {
                Some(si) => if ends[si] != mid {
                    Some(ends[si])
                } else {
                    None
                },
                None => None,
            },
            None => None,
        },
    };
    match here {
        Some(c) => retarget_own(e, mid, c),
        None => {},
    }
    let ghost own = e@;
    proof {
        lemma_children_model(orig);
        lemma_children_model(*e);
    }
    let mut i: usize = 0;
    while i < e.children.len()
        invariant
            orig == *old(e),
            e.children@.len() == orig.children@.len(),
            i <= e.children@.len(),
            forall|j: int| i <= j < e.children@.len() ==> #[trigger] e.children@[j] == orig.children@[j],
            forall|j: int|
                0 <= j < i ==> #[trigger] e.children@[j]@ == completed(orig.children@[j]@, mid, ends@, here),
            e.block_type@ == own.block_type,
            e.index == own.index,
            e.targets@ == own.targets,
            e.objects@ == own.objects,
            e@.properties == own.properties,
        decreases e.children@.len() - i,
    {
        proof {
            assert(decreases_to!(orig => orig.children));
            assert(decreases_to!(orig.children => orig.children@));
            assert(decreases_to!(orig.children@ => orig.children@[i as int]));
        }
        complete_walk(&mut e.children[i], mid, ends, here);
        i = i + 1;
    }
    proof {
        lemma_children_model(*e);
        assert(e@.children =~= completed(orig@, mid, ends@, cur).children);
        assert(e@ =~= completed(orig@, mid, ends@, cur));
    }
}

proof fn lemma_extend_in_skip(cs: Seq<EntityModel>, name: Seq<char>, extra: Seq<EntityModel>, i: int)
    requires
        0 <= i <= cs.len(),
        forall|j: int| 0 <= j < i ==> find_named(#[trigger] cs[j], name) is None,
    ensures
        extend_in(cs, name, extra) == cs.take(i) + extend_in(cs.skip(i), name, extra),
    decreases i,
{
    if i == 0 {
        assert(cs.take(0) + extend_in(cs.skip(0), name, extra) =~= extend_in(cs, name, extra)) by {
            assert(cs.skip(0) =~= cs);
        }
    } else {
        let r = cs.drop_first();
        assert forall|j: int| 0 <= j < i - 1 implies find_named(#[trigger] r[j], name) is None by {
            assert(r[j] == cs[j + 1]);
        }
        lemma_extend_in_skip(r, name, extra, i - 1);
        assert(r.skip(i - 1) =~= cs.skip(i));
        assert(cs.take(i) =~= seq![cs[0]] + r.take(i - 1));
    }
}

pub(crate) fn extend_first(e: &mut Il2Entity, name: &str, extra: Vec<Il2Entity>)
    ensures
        final(e)@ == extend_named(old(e)@, name@, crate::recon::generate::views(extra@)),
    decreases *old(e),
{
    let ghost orig = *e;
    let ghost xs = crate::recon::generate::views(extra@);
    proof {
        lemma_children_model(orig);
    }
    if e.has_name(name) {
        let mut extra = extra;
        e.children.append(&mut extra);
        proof {
            lemma_children_model(*e);
            assert(e@.children =~= orig@.children + xs);
        }
        return;
    }
    let mut i: usize = 0;
    while i < e.children.len()
        invariant
            *e == orig,
            orig == *old(e),
            i <= e.children@.len(),
            name_of(orig@) != Some(name@),
            xs == crate::recon::generate::views(extra@),
            forall|j: int| 0 <= j < i ==> find_named(#[trigger] orig@.children[j], name@) is None,
        decreases e.children@.len() - i,
    {
        assert(orig@.children[i as int] == e.children@[i as int]@);
        if e.children[i].find_by_name(name).is_some() {
            proof {
                assert(decreases_to!(orig => orig.children));
                assert(decreases_to!(orig.children => orig.children@));
                assert(decreases_to!(orig.children@ => orig.children@[i as int]));
                lemma_extend_in_skip(orig@.children, name@, xs, i as int);
                let sk = orig@.children.skip(i as int);
                assert(sk[0] == orig@.children[i as int]);
                assert(sk.drop_first() =~= orig@.children.skip(i + 1));
            }
            let ghost before = e.children@;
            let ghost ci = e.children@[i as int]@;
            assert(ci == orig@.children[i as int]);
            assert(xs == crate::recon::generate::views(extra@));
            extend_first(&mut e.children[i], name, extra);
            proof {
                lemma_children_model(*e);
                assert(e.children@ == before.update(i as int, e.children@[i as int]));
                assert(e.children@[i as int]@ == extend_named(ci, name@, xs));
                assert forall|j: int| 0 <= j < before.len() && j != i implies #[trigger] e.children@[j]@ == orig@.children[j] by {
                    assert(e.children@[j] == before[j]);
                }
                assert(e@.children =~= orig@.children.update(i as int, extend_named(orig@.children[i as int], name@, xs)));
                assert(e@.children =~= extend_in(orig@.children, name@, xs));
            }
            return;
        }
        i = i + 1;
    }
    proof {
        lemma_extend_in_skip(orig@.children, name@, xs, i as int);
        assert(orig@.children.skip(i as int) =~= Seq::<EntityModel>::empty());
        assert(orig@.children.take(i as int) =~= orig@.children);
        assert(e@ =~= extend_named(orig@, name@, xs));
    }
}

/// The next free Index after the plane ends are installed.
pub open spec fn ends_next(g: EntityModel, k: EndKit) -> int {
    if find_named(logic_done(g, k), "Waypoints"@) is Some {
        k.base(k.n())
    } else {
        k.base(k.n()) + 1
    }
}

pub open spec fn end_kit(
    eids: Seq<i32>,
    sizes: Seq<usize>,
    deaths: Seq<i32>,
    force: EntityModel,
    timer: EntityModel,
    deact: EntityModel,
    rtb: EntityModel,
    mission_end: i32,
    delete_time: Seq<char>,
    start: int,
) -> EndKit {
    EndKit { force, rtb, timer, deact, eids, sizes, deaths, mission_end, delete_time, start }
}

/// Every Index the plane ends hand out, and every seat count, fits.
pub open spec fn ends_fit(k: EndKit) -> bool {
    &&& seats_from(k.sizes, 0) <= usize::MAX
    &&& k.n() < usize::MAX
    &&& k.base(k.n()) < i32::MAX
}

proof fn lemma_base_mono(k: EndKit, a: int, b: int)
    requires
        0 <= a <= b,
    ensures
        k.start <= k.base(a) <= k.base(b),
        a < b ==> k.base(a) + k.step() <= k.base(b),
    decreases b,
{
    assert(k.step() >= 0);
    if b > a {
        lemma_base_mono(k, a, b - 1);
    } else if a > 0 {
        lemma_base_mono(k, 0, a - 1);
    }
}

pub(crate) fn clone_next(p: &Il2Entity, next_id: &mut i32, name: &str) -> (r: Il2Entity)
    requires
        *old(next_id) + index_count(p@) <= i32::MAX,
    ensures
        r@ == named(duplicated(p@, *old(next_id) as int), name@),
        *final(next_id) == *old(next_id) + index_count(p@),
{
    let (mut c, _) = duplicate_template(p, next_id);
    c.set_name(name);
    c
}

pub(crate) fn label_text(t: &str, si: usize) -> (r: String)
    requires
        si < usize::MAX,
    ensures
        r@ == t@ + dec_text((si + 1) as nat),
{
    let mut s = owned(t);
    push_dec(&mut s, (si + 1) as u64);
    s
}

/// Seat `si`'s CLEANUP, Force Complete, RTB DELAY, Delay Delete,
/// Deactivate and RTB waypoint.
fn seat_blocks(
    si: usize,
    eid: i32,
    death: Option<i32>,
    protos: (&Il2Entity, &Il2Entity, &Il2Entity, &Il2Entity),
    delete_time: &str,
    next_id: &mut i32,
    Ghost(k): Ghost<EndKit>,
) -> (r: Result<((Il2Entity, Il2Entity, Il2Entity, Il2Entity, Il2Entity, Il2Entity), i32), String>)
    requires
        si < k.n(),
        k.n() < usize::MAX,
        k.eids[si as int] == eid,
        death == k.seat_death(si as int),
        k.force == protos.0@,
        k.timer == protos.1@,
        k.deact == protos.2@,
        k.rtb == protos.3@,
        k.delete_time == delete_time@,
        *old(next_id) == k.base(si as int),
        k.base(si + 1) <= i32::MAX,
    ensures
        match r {
            Err(m) => k.error() == Some(m@) && *final(next_id) == k.error_next() + (k.base(si as int) - k.start),
            Ok((b, x)) => k.error() is None && b.0@ == k.end_mcu(si as int) && b.1@ == k.force_mcu(si as int) && b.2@
                == k.rtb_delay_mcu(si as int) && b.3@ == k.delay_deact_mcu(si as int) && b.4@ == k.deact_mcu(
                si as int,
            ) && b.5@ == k.rtb_mcu(si as int) && *final(next_id) == k.base(si + 1) && x == k.end_id(si as int) as i32,
        },
{
    let (pf, pt, pd, pr) = protos;
    proof {
        assert(k.base(si + 1) == k.base(si as int) + k.step());
    }
    let force_name = label_text("Force Complete ", si);
    let mut force = clone_next(pf, next_id, force_name.as_str());
    let objs = vec![eid];
    proof {
        assert(objs@ =~= seq![eid]);
    }
    force.set_objects(objs);
    let force_id = match force.index {
        Some(x) => x,
        None => return Err(owned("plane Force Complete missing Index")),
    };
    let rtb_name = label_text("RTB Plane ", si);
    let mut rtb = clone_next(pr, next_id, rtb_name.as_str());
    let objs = vec![eid];
    proof {
        assert(objs@ =~= seq![eid]);
    }
    rtb.set_objects(objs);
    let none: Vec<i32> = Vec::new();
    proof {
        assert(none@ =~= Seq::<i32>::empty());
    }
    rtb.set_targets(none);
    let rtb_id = match rtb.index {
        Some(x) => x,
        None => return Err(owned("RTB Plane missing Index")),
    };
    let rtb_delay_name = label_text("RTB DELAY ", si);
    let mut rtb_delay = clone_next(pt, next_id, rtb_delay_name.as_str());
    rtb_delay.set_property("Time", "0.5");
    rtb_delay.set_property("Random", "100");
    let ts = vec![rtb_id];
    proof {
        assert(ts@ =~= seq![k.rtb_id(si as int) as i32]);
    }
    rtb_delay.set_targets(ts);
    let rtb_delay_id = match rtb_delay.index {
        Some(x) => x,
        None => return Err(owned("RTB DELAY missing Index")),
    };
    let deact_name = label_text("Deactivate ", si);
    let mut deact = clone_next(pd, next_id, deact_name.as_str());
    let objs = vec![eid];
    proof {
        assert(objs@ =~= seq![eid]);
    }
    deact.set_objects(objs);
    let none: Vec<i32> = Vec::new();
    proof {
        assert(none@ =~= Seq::<i32>::empty());
    }
    deact.set_targets(none);
    let deact_id = match deact.index {
        Some(x) => x,
        None => return Err(owned("Deactivate missing Index")),
    };
    let delay_deact_name = label_text("Delay Delete ", si);
    let mut delay_deact = clone_next(pt, next_id, delay_deact_name.as_str());
    delay_deact.set_property("Time", delete_time);
    delay_deact.set_property("Random", "100");
    let mut dts = vec![deact_id];
    match death {
        Some(d) => dts.push(d),
        None => {},
    }
    proof {
        match death {
            Some(d) => assert(dts@ =~= seq![k.deact_id(si as int) as i32, d]),
            None => assert(dts@ =~= seq![k.deact_id(si as int) as i32]),
        }
    }
    delay_deact.set_targets(dts);
    let delay_deact_id = match delay_deact.index {
        Some(x) => x,
        None => return Err(owned("Delay Delete missing Index")),
    };
    let end_name = label_text("CLEANUP ", si);
    let mut end = clone_next(pt, next_id, end_name.as_str());
    end.set_property("Time", "0.1");
    end.set_property("Random", "100");
    let ets = vec![force_id, rtb_delay_id, delay_deact_id];
    proof {
        assert(ets@ =~= seq![k.force_id(si as int) as i32, k.rtb_delay_id(si as int) as i32, k.delay_deact_id(si as int) as i32]);
    }
    end.set_targets(ets);
    let end_id = match end.index {
        Some(x) => x,
        None => return Err(owned("CLEANUP missing Index")),
    };
    Ok(((end, force, rtb_delay, delay_deact, deact, rtb), end_id))
}

fn death_of_seat(sizes: &[usize], death_ids: &[i32], si: usize, Ghost(k): Ghost<EndKit>) -> (r: Option<i32>)
    requires
        k.sizes == sizes@,
        k.deaths == death_ids@,
        seats_from(sizes@, 0) <= usize::MAX,
    ensures
        r == k.seat_death(si as int),
{
    match flight_of_seat(sizes, si) {
        Some(f) => if f < death_ids.len() {
            Some(death_ids[f])
        } else {
            None
        },
        None => None,
    }
}

#[verifier::rlimit(40)]
fn add_seat(
    logic: &mut Vec<Il2Entity>,
    wps: &mut Vec<Il2Entity>,
    ends: &mut Vec<i32>,
    b: (Il2Entity, Il2Entity, Il2Entity, Il2Entity, Il2Entity, Il2Entity),
    end_id: i32,
    si: usize,
    Ghost(k): Ghost<EndKit>,
)
    requires
        k.error() is None,
        si < k.n(),
        crate::recon::generate::views(old(logic)@) == k.logic_nodes(si as int),
        crate::recon::generate::views(old(wps)@) == Seq::new(si as nat, |j: int| k.rtb_mcu(j)),
        old(ends)@ == Seq::new(si as nat, |j: int| k.end_id(j) as i32),
        b.0@ == k.end_mcu(si as int),
        b.1@ == k.force_mcu(si as int),
        b.2@ == k.rtb_delay_mcu(si as int),
        b.3@ == k.delay_deact_mcu(si as int),
        b.4@ == k.deact_mcu(si as int),
        b.5@ == k.rtb_mcu(si as int),
        end_id == k.end_id(si as int) as i32,
    ensures
        crate::recon::generate::views(final(logic)@) == k.logic_nodes(si + 1),
        crate::recon::generate::views(final(wps)@) == Seq::new((si + 1) as nat, |j: int| k.rtb_mcu(j)),
        final(ends)@ == Seq::new((si + 1) as nat, |j: int| k.end_id(j) as i32),
{
    let (e0, e1, e2, e3, e4, e5) = b;
    let ghost lo = logic@;
    let ghost wo = wps@;
    logic.push(e0);
    logic.push(e1);
    logic.push(e2);
    logic.push(e3);
    logic.push(e4);
    wps.push(e5);
    ends.push(end_id);
    proof {
        assert(crate::recon::generate::views(logic@) =~= crate::recon::generate::views(lo) + seq![
            k.end_mcu(si as int),
            k.force_mcu(si as int),
            k.rtb_delay_mcu(si as int),
            k.delay_deact_mcu(si as int),
            k.deact_mcu(si as int),
        ]);
        assert(crate::recon::generate::views(wps@) =~= crate::recon::generate::views(wo).push(k.rtb_mcu(si as int)));
        assert(ends@ =~= Seq::new((si + 1) as nat, |j: int| k.end_id(j) as i32));
    }
}

fn one_seat(
    sizes: &[usize],
    death_ids: &[i32],
    eid: i32,
    protos: (&Il2Entity, &Il2Entity, &Il2Entity, &Il2Entity),
    delete_time: &str,
    next_id: &mut i32,
    logic: &mut Vec<Il2Entity>,
    wps: &mut Vec<Il2Entity>,
    ends: &mut Vec<i32>,
    si: usize,
    Ghost(k): Ghost<EndKit>,
) -> (r: Result<(), String>)
    requires
        si < k.n(),
        k.eids[si as int] == eid,
        k.sizes == sizes@,
        k.deaths == death_ids@,
        k.force == protos.0@,
        k.timer == protos.1@,
        k.deact == protos.2@,
        k.rtb == protos.3@,
        k.delete_time == delete_time@,
        ends_fit(k),
        *old(next_id) == k.base(si as int),
        si > 0 ==> k.error() is None,
        crate::recon::generate::views(old(logic)@) == k.logic_nodes(si as int),
        crate::recon::generate::views(old(wps)@) == Seq::new(si as nat, |j: int| k.rtb_mcu(j)),
        old(ends)@ == Seq::new(si as nat, |j: int| k.end_id(j) as i32),
    ensures
        match r {
            Err(m) => si == 0 && k.error() == Some(m@) && *final(next_id) == k.error_next() + (k.base(si as int)
                - k.start),
            Ok(()) => k.error() is None && *final(next_id) == k.base(si + 1) && crate::recon::generate::views(
                final(logic)@,
            ) == k.logic_nodes(si + 1) && crate::recon::generate::views(final(wps)@) == Seq::new(
                (si + 1) as nat,
                |j: int| k.rtb_mcu(j),
            ) && final(ends)@ == Seq::new((si + 1) as nat, |j: int| k.end_id(j) as i32),
        },
{
    proof {
        lemma_base_mono(k, si + 1, k.n());
    }
    let death = death_of_seat(sizes, death_ids, si, Ghost(k));
    match seat_blocks(si, eid, death, protos, delete_time, next_id, Ghost(k)) {
        Err(m) => Err(m),
        Ok((b, end_id)) => {
            add_seat(logic, wps, ends, b, end_id, si, Ghost(k));
            Ok(())
        },
    }
}

/// Give every plane of Group 1 its end-of-sortie blocks: a CLEANUP timer
/// (fired by that plane's Mission Complete in place of MISSION END) that
/// forces its task complete, sends it to its own RTB waypoint after 0.5 s,
/// and after `delete_time` seconds deactivates it and counts it out of its
/// flight's DeathCount. New blocks take Indexes from `*next_id` on.
#[verifier::rlimit(40)]
pub fn install_plane_ends(
    group: &mut Il2Entity,
    entity_ids: &[i32],
    sizes: &[usize],
    death_ids: &[i32],
    proto_force: &Il2Entity,
    proto_timer: &Il2Entity,
    proto_deact: &Il2Entity,
    rtb_proto: &Il2Entity,
    mission_end_id: i32,
    delete_time: &str,
    next_id: &mut i32,
) -> (r: Result<(), String>)
    requires
        ends_fit(
            end_kit(
                entity_ids@,
                sizes@,
                death_ids@,
                proto_force@,
                proto_timer@,
                proto_deact@,
                rtb_proto@,
                mission_end_id,
                delete_time@,
                *old(next_id) as int,
            ),
        ),
    ensures
        ({
            let k = end_kit(
                entity_ids@,
                sizes@,
                death_ids@,
                proto_force@,
                proto_timer@,
                proto_deact@,
                rtb_proto@,
                mission_end_id,
                delete_time@,
                *old(next_id) as int,
            );
            match k.error() {
                Some(m) => r matches Err(e) && e@ == m && *final(group) == *old(group) && *final(next_id) == k.error_next(),
                None => r is Ok && final(group)@ == plane_ends(old(group)@, k) && *final(next_id) == ends_next(old(group)@, k),
            }
        }),
{
    let ghost k = end_kit(
        entity_ids@,
        sizes@,
        death_ids@,
        proto_force@,
        proto_timer@,
        proto_deact@,
        rtb_proto@,
        mission_end_id,
        delete_time@,
        *next_id as int,
    );
    let ghost g0 = group@;
    let ghost gorig = *group;
    let mut logic: Vec<Il2Entity> = Vec::new();
    let mut wps: Vec<Il2Entity> = Vec::new();
    let mut ends: Vec<i32> = Vec::new();
    let mut si: usize = 0;
    proof {
        assert(crate::recon::generate::views(logic@) =~= k.logic_nodes(0));
        assert(crate::recon::generate::views(wps@) =~= Seq::new(0, |j: int| k.rtb_mcu(j)));
    }
    while si < entity_ids.len()
        invariant
            si <= k.n(),
            k.n() == entity_ids@.len(),
            k.eids == entity_ids@,
            k.sizes == sizes@,
            k.deaths == death_ids@,
            k.force == proto_force@,
            k.timer == proto_timer@,
            k.deact == proto_deact@,
            k.rtb == rtb_proto@,
            k.delete_time == delete_time@,
            k.mission_end == mission_end_id,
            k.start == *old(next_id) as int,
            gorig == *old(group),
            ends_fit(k),
            *next_id == k.base(si as int),
            si > 0 ==> k.error() is None,
            *group == gorig,
            crate::recon::generate::views(logic@) == k.logic_nodes(si as int),
            crate::recon::generate::views(wps@) == Seq::new(si as nat, |j: int| k.rtb_mcu(j)),
            ends@ == Seq::new(si as nat, |j: int| k.end_id(j) as i32),
        decreases entity_ids@.len() - si,
    {
        proof {
            lemma_base_mono(k, si + 1, k.n());
            lemma_base_mono(k, 0, si as int);
        }
        match one_seat(sizes, death_ids, entity_ids[si], (proto_force, proto_timer, proto_deact, rtb_proto), delete_time, next_id, &mut logic, &mut wps, &mut ends, si, Ghost(k)) {
            Err(m) => {
                proof {
                    assert(si == 0);
                    assert(k.base(0) == k.start);
                }
                return Err(m);
            },
            Ok(()) => {},
        }
        si = si + 1;
    }
    proof {
        assert(ends@ =~= k.end_ids());
    }
    complete_walk(group, mission_end_id, &ends, None);
    extend_first(group, "Logic", logic);
    let ghost g2 = group@;
    proof {
        reveal_strlit("Logic");
        assert(g2 == logic_done(g0, k));
    }
    if group.find_by_name("Waypoints").is_some() {
        extend_first(group, "Waypoints", wps);
    } else {
        let id = *next_id;
        let mut w = Il2Entity::new("Group");
        w.index = Some(id);
        let t_id = crate::text::int_to_string(id as i64);
        w.set_property("Index", t_id.as_str());
        w.set_name("Waypoints");
        w.set_property("Desc", "\"\"");
        let ghost wv = crate::recon::generate::views(wps@);
        w.children = wps;
        proof {
            lemma_children_model(w);
            assert(w@.children =~= wv);
        }
        *next_id = id + 1;
        let ghost gb = *group;
        group.children.push(w);
        proof {
            lemma_children_model(gb);
            lemma_children_model(*group);
            assert(group@.children =~= g2.children.push(w@));
        }
    }
    Ok(())
}

} // verus!
