//! The fighter randomizer: an equal-odds waterfall that picks one flight's
//! spawner each time its input fires, then waits and reopens.

use vstd::prelude::*;
use crate::ast::{EntityModel, Il2Entity, lemma_children_model};
use crate::bombers::link::{named, with_prop, with_targets};
use crate::duplicate::{duplicated, index_count};
use crate::flights::random_pct_spec;
use crate::recon::generate::{time_text, views};
use crate::text::{dec_text, int_text, owned, push_dec, push_int, push_str};
use super::ends::clone_next;

verus! {

/// A timer cloned from `p` at `at`, renamed, with `Time` and `Random` set.
pub open spec fn timed(p: EntityModel, at: int, name: Seq<char>, time: Seq<char>, random: Seq<char>) -> EntityModel {
    with_prop(with_prop(named(duplicated(p, at), name), "Time"@, time), "Random"@, random)
}

/// Everything the fighter randomizer is built from.
pub struct FighterRand {
    pub timer: EntityModel,
    pub deact: EntityModel,
    pub act: EntityModel,
    pub spawners: Seq<EntityModel>,
    /// First free Index.
    pub start: int,
}

impl FighterRand {
    pub open spec fn n(self) -> int {
        self.spawners.len() as int
    }

    pub open spec fn ut(self) -> int {
        index_count(self.timer)
    }

    pub open spec fn wait_id(self) -> int {
        self.start + self.ut()
    }

    pub open spec fn reopen_id(self) -> int {
        self.wait_id() + self.ut()
    }

    pub open spec fn close_id(self) -> int {
        self.reopen_id() + index_count(self.act)
    }

    /// First Index of flight `i`'s Random timer.
    pub open spec fn base(self, i: int) -> int
        decreases i,
    {
        if i <= 0 {
            self.close_id() + index_count(self.deact)
        } else {
            self.base(i - 1) + 2 * self.ut() + if i < self.n() { index_count(self.deact) } else { 0 }
        }
    }

    pub open spec fn out_id(self, i: int) -> int {
        self.base(i) + self.ut()
    }

    pub open spec fn closer_id(self, i: int) -> int {
        self.base(i) + 2 * self.ut()
    }

    pub open spec fn out_ids(self) -> Seq<i32> {
        Seq::new(self.n() as nat, |i: int| self.out_id(i) as i32)
    }

    pub open spec fn input(self) -> EntityModel {
        with_targets(
            timed(self.timer, self.start, "Randomizer:INPUT"@, "0"@, "100"@),
            seq![self.close_id() as i32, self.wait_id() as i32] + Seq::new(self.n() as nat, |i: int| self.base(i) as i32),
        )
    }

    pub open spec fn wait(self) -> EntityModel {
        let ms = 500 * (self.n() + 1);
        with_targets(
            timed(self.timer, self.wait_id(), "Wait for Output "@ + dec_text(ms as nat) + "ms"@, time_text(ms), "100"@),
            seq![self.reopen_id() as i32],
        )
    }

    pub open spec fn reopen(self) -> EntityModel {
        with_targets(named(duplicated(self.act, self.reopen_id()), "ReOpen Outputs"@), self.out_ids().push(self.start as i32))
    }

    pub open spec fn close(self) -> EntityModel {
        with_targets(named(duplicated(self.deact, self.close_id()), "CloseInput"@), seq![self.start as i32])
    }

    #[verifier::opaque]
    pub open spec fn rnd(self, i: int) -> EntityModel {
        let pct = random_pct_spec(i, self.n());
        let ms = 500 * (i + 1);
        with_targets(
            timed(
                self.timer,
                self.base(i),
                "Random "@ + dec_text((i + 1) as nat) + ":"@ + int_text(pct) + "% "@ + dec_text(ms as nat) + "ms"@,
                time_text(ms),
                int_text(pct),
            ),
            if i + 1 == self.n() {
                seq![self.out_id(i) as i32]
            } else {
                seq![self.out_id(i) as i32, self.closer_id(i) as i32]
            },
        )
    }

    #[verifier::opaque]
    pub open spec fn out(self, i: int) -> EntityModel {
        with_targets(
            timed(self.timer, self.out_id(i), "Out "@ + dec_text((i + 1) as nat), "0"@, "100"@),
            seq![self.spawners[i].index->0],
        )
    }

    #[verifier::opaque]
    pub open spec fn closer(self, i: int) -> EntityModel {
        with_targets(
            named(duplicated(self.deact, self.closer_id(i)), "Close_Remaining_Output(s)"@),
            self.out_ids().skip(i + 1),
        )
    }

    #[verifier::opaque]
    pub open spec fn raw_rnd(self, j: int) -> EntityModel {
        timed(
            self.timer,
            self.base(j),
            "Random "@ + dec_text((j + 1) as nat) + ":"@ + int_text(random_pct_spec(j, self.n())) + "% "@ + dec_text(
                (500 * (j + 1)) as nat,
            ) + "ms"@,
            time_text(500 * (j + 1)),
            int_text(random_pct_spec(j, self.n())),
        )
    }

    #[verifier::opaque]
    pub open spec fn raw_out(self, j: int) -> EntityModel {
        timed(self.timer, self.out_id(j), "Out "@ + dec_text((j + 1) as nat), "0"@, "100"@)
    }

    #[verifier::opaque]
    pub open spec fn raw_closer(self, j: int) -> EntityModel {
        named(duplicated(self.deact, self.closer_id(j)), "Close_Remaining_Output(s)"@)
    }

    /// The randomizer's blocks: input, wait, reopen, close, the Random and
    /// Out timers, the closers, then the spawners.
    pub open spec fn nodes(self) -> Seq<EntityModel> {
        let n = self.n();
        seq![self.input(), self.wait(), self.reopen(), self.close()] + Seq::new(n as nat, |i: int| self.rnd(i))
            + Seq::new(n as nat, |i: int| self.out(i)) + Seq::new(
            (if n > 0 { n - 1 } else { 0 }) as nat,
            |i: int| self.closer(i),
        ) + self.spawners
    }

    /// First Index after the randomizer's blocks.
    pub open spec fn end(self) -> int {
        self.base(self.n())
    }
}

/// What building the randomizer needs: prototypes and spawners with an
/// Index, and every Index and time in range.
pub open spec fn fighter_rand_ok(r: FighterRand) -> bool {
    &&& r.timer.index is Some
    &&& r.act.index is Some
    &&& r.deact.index is Some
    &&& (forall|i: int| 0 <= i < r.n() ==> (#[trigger] r.spawners[i]).index is Some)
    &&& r.start >= i32::MIN
    &&& r.end() <= i32::MAX
    &&& 500 * (r.n() + 1) <= i32::MAX
}

pub(crate) proof fn lemma_base_mono(r: FighterRand, a: int, b: int)
    requires
        0 <= a <= b,
    ensures
        r.close_id() + index_count(r.deact) <= r.base(a) <= r.base(b),
        a < b ==> r.base(a) + 2 * r.ut() <= r.base(b),
    decreases b,
{
    assert(r.ut() >= 0 && index_count(r.deact) >= 0);
    if b > a {
        lemma_base_mono(r, a, b - 1);
    } else if a > 0 {
        lemma_base_mono(r, 0, a - 1);
    }
}

pub(crate) proof fn lemma_counts(r: FighterRand)
    ensures
        r.ut() >= 0,
        index_count(r.act) >= 0,
        index_count(r.deact) >= 0,
        r.start <= r.wait_id() <= r.reopen_id() <= r.close_id() <= r.base(0),
{
}

fn timer_named(p: &Il2Entity, next_id: &mut i32, name: &str, time: &str, random: &str) -> (r: Il2Entity)
    requires
        *old(next_id) + index_count(p@) <= i32::MAX,
    ensures
        r@ == timed(p@, *old(next_id) as int, name@, time@, random@),
        *final(next_id) == *old(next_id) + index_count(p@),
{
    let mut c = clone_next(p, next_id, name);
    c.set_property("Time", time);
    c.set_property("Random", random);
    c
}

/// The Random, Out and closer timers of every flight, before wiring, and
/// the Indexes of the Random and Out timers.
fn make_timers(proto_timer: &Il2Entity, proto_deact: &Il2Entity, n: usize, next_id: &mut i32, Ghost(r): Ghost<FighterRand>) -> (res: (
    Vec<Il2Entity>,
    Vec<Il2Entity>,
    Vec<Il2Entity>,
    Vec<i32>,
    Vec<i32>,
))
    requires
        n == r.n(),
        fighter_rand_ok(r),
        r.timer == proto_timer@,
        r.deact == proto_deact@,
        *old(next_id) as int == r.base(0),
    ensures
        *final(next_id) as int == r.base(n as int),
        views(res.0@) == Seq::new(n as nat, |j: int| r.raw_rnd(j)),
        views(res.1@) == Seq::new(n as nat, |j: int| r.raw_out(j)),
        views(res.2@) == Seq::new((if n > 0 { n - 1 } else { 0 }) as nat, |j: int| r.raw_closer(j)),
        res.3@ == r.out_ids(),
        res.4@ == Seq::new(n as nat, |i: int| r.base(i) as i32),
{
    let mut randoms: Vec<Il2Entity> = Vec::new();
    let mut outs: Vec<Il2Entity> = Vec::new();
    let mut closers: Vec<Il2Entity> = Vec::new();
    let mut oids: Vec<i32> = Vec::new();
    let mut rids: Vec<i32> = Vec::new();
    let mut i: usize = 0;
    while i < n
        invariant
            n == r.n(),
            rids@ == Seq::new(i as nat, |j: int| r.base(j) as i32),
            fighter_rand_ok(r),
            r.timer == proto_timer@,
            r.deact == proto_deact@,
            i <= n,
            *next_id as int == r.base(i as int),
            oids@ == Seq::new(i as nat, |j: int| r.out_id(j) as i32),
            views(randoms@) == Seq::new(i as nat, |j: int| r.raw_rnd(j)),
            views(outs@) == Seq::new(i as nat, |j: int| r.raw_out(j)),
            views(closers@) == Seq::new((if i == n && n > 0 { n as int - 1 } else { i as int }) as nat, |j: int| r.raw_closer(j)),
        decreases n - i,
    {
        proof {
            lemma_base_mono(r, i as int, i + 1);
            lemma_base_mono(r, i + 1, n as int);
            reveal(FighterRand::raw_rnd);
            reveal(FighterRand::raw_out);
            reveal(FighterRand::raw_closer);
        }
        let pct = crate::flights::random_pct(i, n);
        let t_ms: u32 = 500 * (i as u32 + 1);
        let mut name = owned("Random ");
        push_dec(&mut name, (i + 1) as u64);
        push_str(&mut name, ":");
        push_int(&mut name, pct as i64);
        push_str(&mut name, "% ");
        push_dec(&mut name, t_ms as u64);
        push_str(&mut name, "ms");
        let tt = crate::recon::generate::time_string(t_ms);
        let pt = crate::text::int_to_string(pct as i64);
        let ghost rb = randoms@;
        rids.push(*next_id);
        let rnd = timer_named(proto_timer, next_id, name.as_str(), tt.as_str(), pt.as_str());
        randoms.push(rnd);
        let mut oname = owned("Out ");
        push_dec(&mut oname, (i + 1) as u64);
        oids.push(*next_id);
        let ghost ob = outs@;
        let o = timer_named(proto_timer, next_id, oname.as_str(), "0", "100");
        outs.push(o);
        let ghost cb = closers@;
        if i + 1 < n {
            let c = clone_next(proto_deact, next_id, "Close_Remaining_Output(s)");
            closers.push(c);
        }
        proof {
            assert(views(randoms@) =~= views(rb).push(randoms@[i as int]@));
            assert(views(outs@) =~= views(ob).push(outs@[i as int]@));
            if i + 1 < n {
                assert(views(closers@) =~= views(cb).push(closers@[i as int]@));
            }
            assert(oids@ =~= Seq::new((i + 1) as nat, |j: int| r.out_id(j) as i32));
            assert(rids@ =~= Seq::new((i + 1) as nat, |j: int| r.base(j) as i32));
        }
        i = i + 1;
    }
    (randoms, outs, closers, oids, rids)
}

fn wire_one(
    randoms: &mut Vec<Il2Entity>,
    outs: &mut Vec<Il2Entity>,
    closers: &mut Vec<Il2Entity>,
    oids: &Vec<i32>,
    spawners: &Vec<Il2Entity>,
    ut: usize,
    k: usize,
    Ghost(r): Ghost<FighterRand>,
)
    requires
        k < r.n(),
        r.n() == spawners@.len(),
        fighter_rand_ok(r),
        r.spawners == views(spawners@),
        ut as int == r.ut(),
        oids@ == r.out_ids(),
        old(randoms)@.len() == r.n(),
        old(outs)@.len() == r.n(),
        old(closers)@.len() == r.n() - 1,
        old(randoms)@[k as int]@ == r.raw_rnd(k as int),
        old(outs)@[k as int]@ == r.raw_out(k as int),
        k + 1 < r.n() ==> old(closers)@[k as int]@ == r.raw_closer(k as int),
    ensures
        final(randoms)@ == old(randoms)@.update(k as int, final(randoms)@[k as int]),
        final(outs)@ == old(outs)@.update(k as int, final(outs)@[k as int]),
        k + 1 < r.n() ==> final(closers)@ == old(closers)@.update(k as int, final(closers)@[k as int]),
        k + 1 >= r.n() ==> final(closers)@ == old(closers)@,
        final(randoms)@[k as int]@ == r.rnd(k as int),
        final(outs)@[k as int]@ == r.out(k as int),
        k + 1 < r.n() ==> final(closers)@[k as int]@ == r.closer(k as int),
{
    let n = spawners.len();
    proof {
        reveal(FighterRand::raw_rnd);
        reveal(FighterRand::raw_out);
        reveal(FighterRand::raw_closer);
        reveal(FighterRand::rnd);
        reveal(FighterRand::out);
        reveal(FighterRand::closer);
    }
    assert(spawners@[k as int]@ == r.spawners[k as int]);
    let sid = match spawners[k].index {
        Some(x) => x,
        None => 0,
    };
    let ots = vec![sid];
    proof {
        assert(ots@ =~= seq![r.spawners[k as int].index->0]);
    }
    outs[k].set_targets(ots);
    if k + 1 == n {
        let ts = vec![oids[k]];
        proof {
            assert(ts@ =~= seq![r.out_id(k as int) as i32]);
        }
        randoms[k].set_targets(ts);
    } else {
        proof {
            lemma_base_mono(r, k as int, k + 1);
            lemma_base_mono(r, k + 1, n as int);
        }
        let cid: i32 = oids[k] + ut as i32;
        let ts = vec![oids[k], cid];
        proof {
            assert(ts@ =~= seq![r.out_id(k as int) as i32, r.closer_id(k as int) as i32]);
        }
        randoms[k].set_targets(ts);
        let mut rest: Vec<i32> = Vec::new();
        let mut q = k + 1;
        while q < n
            invariant
                k + 1 <= q <= n,
                oids@ == r.out_ids(),
                n == r.n(),
                rest@ == r.out_ids().subrange(k + 1, q as int),
            decreases n - q,
        {
            rest.push(oids[q]);
            proof {
                assert(rest@ =~= r.out_ids().subrange(k + 1, q + 1));
            }
            q = q + 1;
        }
        proof {
            assert(rest@ =~= r.out_ids().skip(k + 1));
        }
        closers[k].set_targets(rest);
    }
}

/// Build the fighter randomizer over `spawners` from `*next_id` on.
pub fn fighter_randomizer(
    proto_timer: &Il2Entity,
    proto_deact: &Il2Entity,
    proto_act: &Il2Entity,
    spawners: &Vec<Il2Entity>,
    next_id: &mut i32,
    Ghost(r): Ghost<FighterRand>,
) -> (out: Vec<Il2Entity>)
    requires
        r.timer == proto_timer@,
        r.deact == proto_deact@,
        r.act == proto_act@,
        r.spawners == views(spawners@),
        r.start == *old(next_id) as int,
        fighter_rand_ok(r),
    ensures
        views(out@) == r.nodes(),
        *final(next_id) as int == r.end(),
{
    let n = spawners.len();
    let ut = crate::pack::generate::count_indexes(proto_timer);
    proof {
        lemma_counts(r);
        lemma_base_mono(r, 0, n as int);
    }
    let input_id = *next_id;
    let mut input = timer_named(proto_timer, next_id, "Randomizer:INPUT", "0", "100");
    let wait_id = *next_id;
    let ms: u32 = 500 * (n as u32 + 1);
    let mut wname = owned("Wait for Output ");
    push_dec(&mut wname, ms as u64);
    push_str(&mut wname, "ms");
    let wt = crate::recon::generate::time_string(ms);
    let mut wait = timer_named(proto_timer, next_id, wname.as_str(), wt.as_str(), "100");
    let reopen_id = *next_id;
    let mut reopen = clone_next(proto_act, next_id, "ReOpen Outputs");
    let close_id = *next_id;
    let mut close_input = clone_next(proto_deact, next_id, "CloseInput");
    let (mut randoms, mut outs, mut closers, oids, rids) = make_timers(proto_timer, proto_deact, n, next_id, Ghost(r));
    let mut it: Vec<i32> = vec![close_id, wait_id];
    let mut rc = rids.clone();
    it.append(&mut rc);
    proof {
        assert(it@ =~= seq![r.close_id() as i32, r.wait_id() as i32] + Seq::new(r.n() as nat, |i: int| r.base(i) as i32));
    }
    input.set_targets(it);
    let wts = vec![reopen_id];
    proof {
        assert(wts@ =~= seq![r.reopen_id() as i32]);
    }
    wait.set_targets(wts);
    let cts = vec![input_id];
    proof {
        assert(cts@ =~= seq![r.start as i32]);
    }
    close_input.set_targets(cts);
    let mut rts = oids.clone();
    rts.push(input_id);
    proof {
        assert(rts@ =~= r.out_ids().push(r.start as i32));
    }
    reopen.set_targets(rts);
    wire_all(&mut randoms, &mut outs, &mut closers, &oids, spawners, ut, Ghost(r));
    assemble(input, wait, reopen, close_input, randoms, outs, closers, spawners, Ghost(r))
}

#[verifier::rlimit(60)]
fn wire_all(
    randoms: &mut Vec<Il2Entity>,
    outs: &mut Vec<Il2Entity>,
    closers: &mut Vec<Il2Entity>,
    oids: &Vec<i32>,
    spawners: &Vec<Il2Entity>,
    ut: usize,
    Ghost(r): Ghost<FighterRand>,
)
    requires
        r.n() == spawners@.len(),
        fighter_rand_ok(r),
        r.spawners == views(spawners@),
        ut as int == r.ut(),
        oids@ == r.out_ids(),
        views(old(randoms)@) == Seq::new(r.n() as nat, |j: int| r.raw_rnd(j)),
        views(old(outs)@) == Seq::new(r.n() as nat, |j: int| r.raw_out(j)),
        views(old(closers)@) == Seq::new((if r.n() > 0 { r.n() - 1 } else { 0 }) as nat, |j: int| r.raw_closer(j)),
    ensures
        views(final(randoms)@) == Seq::new(r.n() as nat, |j: int| r.rnd(j)),
        views(final(outs)@) == Seq::new(r.n() as nat, |j: int| r.out(j)),
        views(final(closers)@) == Seq::new((if r.n() > 0 { r.n() - 1 } else { 0 }) as nat, |j: int| r.closer(j)),
{
    let n = spawners.len();
    let ghost r0 = randoms@;
    let ghost o0 = outs@;
    let ghost c0 = closers@;
    proof {
        assert(views(r0).len() == r0.len());
        assert(views(o0).len() == o0.len());
        assert(views(c0).len() == c0.len());
        assert(r0.len() == n);
        assert(o0.len() == n);
        assert forall|j: int| 0 <= j < n implies #[trigger] r0[j]@ == r.raw_rnd(j) by {
            assert(views(r0)[j] == r0[j]@);
        }
        assert forall|j: int| 0 <= j < n implies #[trigger] o0[j]@ == r.raw_out(j) by {
            assert(views(o0)[j] == o0[j]@);
        }
        assert forall|j: int| 0 <= j < c0.len() implies #[trigger] c0[j]@ == r.raw_closer(j) by {
            assert(views(c0)[j] == c0[j]@);
        }
    }
    let mut k: usize = 0;
    while k < n
        invariant
            n == r.n(),
            n == spawners@.len(),
            fighter_rand_ok(r),
            r.spawners == views(spawners@),
            ut as int == r.ut(),
            k <= n,
            oids@ == r.out_ids(),
            r0.len() == n,
            o0.len() == n,
            c0.len() == (if n > 0 { n - 1 } else { 0 }),
            forall|j: int| 0 <= j < n ==> #[trigger] r0[j]@ == r.raw_rnd(j),
            forall|j: int| 0 <= j < n ==> #[trigger] o0[j]@ == r.raw_out(j),
            forall|j: int| 0 <= j < c0.len() ==> #[trigger] c0[j]@ == r.raw_closer(j),
            randoms@.len() == n,
            outs@.len() == n,
            closers@.len() == c0.len(),
            forall|j: int| 0 <= j < k ==> #[trigger] randoms@[j]@ == r.rnd(j),
            forall|j: int| k <= j < n ==> #[trigger] randoms@[j] == r0[j],
            forall|j: int| 0 <= j < k ==> #[trigger] outs@[j]@ == r.out(j),
            forall|j: int| k <= j < n ==> #[trigger] outs@[j] == o0[j],
            forall|j: int| 0 <= j < k && j < c0.len() ==> #[trigger] closers@[j]@ == r.closer(j),
            forall|j: int| k <= j < c0.len() ==> #[trigger] closers@[j] == c0[j],
        decreases n - k,
    {
        let ghost rb = randoms@;
        let ghost ob = outs@;
        let ghost cb = closers@;
        proof {
            assert(randoms@[k as int] == r0[k as int]);
            assert(outs@[k as int] == o0[k as int]);
            if k + 1 < n {
                assert(closers@[k as int] == c0[k as int]);
            }
        }
        wire_one(randoms, outs, closers, oids, spawners, ut, k, Ghost(r));
        proof {
            assert forall|j: int| 0 <= j < n && j != k implies #[trigger] randoms@[j] == rb[j] by {}
            assert forall|j: int| 0 <= j < n && j != k implies #[trigger] outs@[j] == ob[j] by {}
            assert forall|j: int| 0 <= j < c0.len() && j != k implies #[trigger] closers@[j] == cb[j] by {}
        }
        k = k + 1;
    }
    proof {
        assert(views(randoms@) =~= Seq::new(r.n() as nat, |j: int| r.rnd(j)));
        assert(views(outs@) =~= Seq::new(r.n() as nat, |j: int| r.out(j)));
        assert(views(closers@) =~= Seq::new((if r.n() > 0 { r.n() - 1 } else { 0 }) as nat, |j: int| r.closer(j)));
    }
}

fn assemble(
    input: Il2Entity,
    wait: Il2Entity,
    reopen: Il2Entity,
    close_input: Il2Entity,
    randoms: Vec<Il2Entity>,
    outs: Vec<Il2Entity>,
    closers: Vec<Il2Entity>,
    spawners: &Vec<Il2Entity>,
    Ghost(r): Ghost<FighterRand>,
) -> (nodes: Vec<Il2Entity>)
    requires
        input@ == r.input(),
        wait@ == r.wait(),
        reopen@ == r.reopen(),
        close_input@ == r.close(),
        views(randoms@) == Seq::new(r.n() as nat, |j: int| r.rnd(j)),
        views(outs@) == Seq::new(r.n() as nat, |j: int| r.out(j)),
        views(closers@) == Seq::new((if r.n() > 0 { r.n() - 1 } else { 0 }) as nat, |j: int| r.closer(j)),
        r.spawners == views(spawners@),
    ensures
        views(nodes@) == r.nodes(),
{
    let n = spawners.len();
    let mut randoms = randoms;
    let mut outs = outs;
    let mut closers = closers;
    let mut nodes: Vec<Il2Entity> = vec![input, wait, reopen, close_input];
    let ghost n0 = views(nodes@);
    let ghost rv = views(randoms@);
    let ghost ov = views(outs@);
    let ghost cv = views(closers@);
    nodes.append(&mut randoms);
    nodes.append(&mut outs);
    nodes.append(&mut closers);
    let mut sp: Vec<Il2Entity> = Vec::new();
    let mut s: usize = 0;
    while s < n
        invariant
            s <= n,
            n == spawners@.len(),
            views(sp@) == views(spawners@).take(s as int),
        decreases n - s,
    {
        let c = spawners[s].deep_copy();
        let ghost sb = sp@;
        sp.push(c);
        proof {
            assert(views(sp@) =~= views(sb).push(spawners@[s as int]@));
            assert(views(spawners@).take(s + 1) =~= views(spawners@).take(s as int).push(spawners@[s as int]@));
        }
        s = s + 1;
    }
    proof {
        assert(views(spawners@).take(s as int) =~= views(spawners@));
    }
    let ghost sv = views(sp@);
    nodes.append(&mut sp);
    proof {
        assert(n0 =~= seq![r.input(), r.wait(), r.reopen(), r.close()]);
        assert(views(nodes@) =~= n0 + rv + ov + cv + sv);
    }
    nodes
}

} // verus!
