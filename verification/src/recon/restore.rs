//! Start MCUs a placed pack can fall back to once its randomizer is gone.
//!
//! Every named timer and checkzone of a template is a candidate for Mission
//! Begin to fire. Timers that target a Closer checkzone, and the usual
//! `ENABLE / PULSE IN` timer, are recommended; the list is ordered with the
//! recommended ones first, timers before checkzones, then by name.

use vstd::prelude::*;
use crate::ast::{EntityModel, Il2Entity, copy_ids, nodes, prop_get};
use crate::bombers::{all_nodes, name_or};
use crate::text::{
    eq_ignore_case, eq_ignore_case_str, lemma_text_lt_order, owned, parse_i32, parse_i32_spec, push_str,
    str_eq, text_less, text_lt, trim, trimmed,
};

verus! {

#[derive(Clone, Copy, Debug, PartialEq, Eq, Structural)]
pub enum RestoreKind {
    Timer,
    CheckZone,
}

/// A start MCU offered for a restored pack.
#[derive(Clone, Debug)]
pub struct RestoreChoice {
    pub name: String,
    pub kind: RestoreKind,
    pub recommended: bool,
    pub hint: String,
}

/// `(name, kind, recommended, hint)` of a choice.
pub type ChoiceView = (Seq<char>, RestoreKind, bool, Seq<char>);

pub open spec fn choice_view(c: RestoreChoice) -> ChoiceView {
    (c.name@, c.kind, c.recommended, c.hint@)
}

/// A candidate MCU: `(Index, is timer, trimmed name, Targets, Closer)`.
pub type Entry = (i32, bool, Seq<char>, Seq<i32>, Option<i32>);

/// The candidate read from one block: an indexed timer or checkzone with a
/// non-blank name.
pub open spec fn start_entry(e: EntityModel) -> Option<Entry> {
    let name = trim(name_or(e, ""@));
    match e.index {
        None => None,
        Some(id) => if (e.block_type != "MCU_Timer"@ && e.block_type != "MCU_CheckZone"@) || name.len() == 0 {
            None
        } else {
            Some(
                (
                    id,
                    e.block_type == "MCU_Timer"@,
                    name,
                    e.targets,
                    match prop_get(e.properties, "Closer"@) {
                        Some(v) => parse_i32_spec(v),
                        None => None,
                    },
                ),
            )
        },
    }
}

/// The candidates of a node list, in order.
pub open spec fn start_entries(ns: Seq<EntityModel>) -> Seq<Entry>
    decreases ns.len(),
{
    if ns.len() == 0 {
        seq![]
    } else {
        let rest = start_entries(ns.drop_last());
        match start_entry(ns.last()) {
            Some(en) => rest.push(en),
            None => rest,
        }
    }
}

/// Exec form of an entry.
pub struct StartEntry {
    pub id: i32,
    pub timer: bool,
    pub name: String,
    pub targets: Vec<i32>,
    pub closer: Option<i32>,
}

pub open spec fn entry_view(e: StartEntry) -> Entry {
    (e.id, e.timer, e.name@, e.targets@, e.closer)
}

fn read_entry(e: &Il2Entity) -> (r: Option<StartEntry>)
    ensures
        match start_entry(e@) {
            Some(en) => r matches Some(x) && entry_view(x) == en,
            None => r is None,
        },
{
    let id = match e.index {
        Some(id) => id,
        None => return None,
    };
    let is_timer = str_eq(e.block_type.as_str(), "MCU_Timer");
    if !is_timer && !str_eq(e.block_type.as_str(), "MCU_CheckZone") {
        return None;
    }
    let raw = match e.name() {
        Some(n) => n,
        None => "",
    };
    proof {
        reveal_strlit("");
        assert(raw@ == name_or(e@, ""@));
    }
    let name = trimmed(raw);
    if str_eq(name.as_str(), "") {
        return None;
    }
    proof {
        if name@.len() == 0 {
            assert(name@ =~= ""@);
        }
    }
    let closer = match e.property("Closer") {
        Some(v) => parse_i32(v),
        None => None,
    };
    Some(StartEntry { id, timer: is_timer, name, targets: copy_ids(&e.targets), closer })
}

fn collect_entries(root: &Il2Entity) -> (r: Vec<StartEntry>)
    ensures
        r@.map_values(|x: StartEntry| entry_view(x)) == start_entries(nodes(root@)),
{
    let ns = all_nodes(root);
    let ghost m = nodes(root@);
    let mut out: Vec<StartEntry> = Vec::new();
    let mut i: usize = 0;
    while i < ns.len()
        invariant
            i <= ns@.len(),
            ns@.len() == m.len(),
            forall|j: int| 0 <= j < ns@.len() ==> #[trigger] ns@[j]@ == m[j],
            out@.map_values(|x: StartEntry| entry_view(x)) == start_entries(m.take(i as int)),
        decreases ns@.len() - i,
    {
        proof {
            assert(m.take(i + 1).drop_last() =~= m.take(i as int));
            assert(m.take(i + 1).last() == ns@[i as int]@);
        }
        let ghost before = out@;
        match read_entry(ns[i]) {
            Some(en) => {
                out.push(en);
                proof {
                    assert(out@.map_values(|x: StartEntry| entry_view(x)) =~= before.map_values(|x: StartEntry| entry_view(x)).push(entry_view(out@.last())));
                }
            },
            None => {},
        }
        i = i + 1;
    }
    proof {
        assert(m.take(i as int) =~= m);
    }
    out
}

// ---------------------------------------------------------------------------
// One choice per name
// ---------------------------------------------------------------------------

/// Some candidate checkzone with Index `id` has `Closer = 1`.
pub open spec fn is_closer_id(es: Seq<Entry>, id: i32) -> bool {
    exists|k: int| 0 <= k < es.len() && !(#[trigger] es[k]).1 && es[k].0 == id && es[k].4 == Some(1i32)
}

/// Name of the first candidate checkzone of `zs` that is Closer (among
/// `es`) and listed in `targets`.
pub open spec fn first_link(zs: Seq<Entry>, es: Seq<Entry>, targets: Seq<i32>) -> Option<Seq<char>>
    decreases zs.len(),
{
    if zs.len() == 0 {
        None
    } else if !zs[0].1 && is_closer_id(es, zs[0].0) && targets.contains(zs[0].0) {
        Some(zs[0].2)
    } else {
        first_link(zs.drop_first(), es, targets)
    }
}

/// The choice offered for candidate `en` of the candidate list `es`.
pub open spec fn choice_for(en: Entry, es: Seq<Entry>) -> ChoiceView {
    if en.1 {
        let pulse = eq_ignore_case(en.2, "enable / pulse in"@);
        let link = first_link(es, es, en.3);
        let hint = match link {
            Some(z) => if pulse {
                "usual start — timer targets Closer checkzone \""@ + z + "\""@
            } else {
                "timer targets Closer checkzone \""@ + z + "\""@
            },
            None => if pulse {
                "usual start timer (ENABLE / PULSE IN)"@
            } else {
                "timer"@
            },
        };
        (en.2, RestoreKind::Timer, pulse || link is Some, hint)
    } else {
        (
            en.2,
            RestoreKind::CheckZone,
            false,
            if en.4 == Some(1i32) {
                "Closer checkzone — prefer a timer that targets this zone"@
            } else {
                "checkzone (not Closer)"@
            },
        )
    }
}

pub open spec fn name_seen(es: Seq<Entry>, name: Seq<char>) -> bool {
    exists|k: int| 0 <= k < es.len() && (#[trigger] es[k]).2 == name
}

/// The first candidate of each name, in order.
pub open spec fn first_per_name(es: Seq<Entry>) -> Seq<Entry>
    decreases es.len(),
{
    if es.len() == 0 {
        seq![]
    } else {
        let rest = first_per_name(es.drop_last());
        if name_seen(es.drop_last(), es.last().2) {
            rest
        } else {
            rest.push(es.last())
        }
    }
}

/// The choices before ordering.
pub open spec fn unsorted_choices(ns: Seq<EntityModel>) -> Seq<ChoiceView> {
    let es = start_entries(ns);
    first_per_name(es).map_values(|en: Entry| choice_for(en, es))
}

fn closer_id(es: &Vec<StartEntry>, id: i32) -> (r: bool)
    ensures
        r == is_closer_id(es@.map_values(|x: StartEntry| entry_view(x)), id),
{
    let ghost ev = es@.map_values(|x: StartEntry| entry_view(x));
    let mut k: usize = 0;
    while k < es.len()
        invariant
            k <= es@.len(),
            ev == es@.map_values(|x: StartEntry| entry_view(x)),
            forall|j: int| 0 <= j < k ==> !(!(#[trigger] ev[j]).1 && ev[j].0 == id && ev[j].4 == Some(1i32)),
        decreases es@.len() - k,
    {
        assert(ev[k as int] == entry_view(es@[k as int]));
        if !es[k].timer && es[k].id == id && es[k].closer == Some(1i32) {
            return true;
        }
        k = k + 1;
    }
    false
}

fn first_link_at(es: &Vec<StartEntry>, targets: &Vec<i32>) -> (r: Option<usize>)
    ensures
        ({
            let ev = es@.map_values(|x: StartEntry| entry_view(x));
            match first_link(ev, ev, targets@) {
                Some(z) => r matches Some(k) && k < ev.len() && ev[k as int].2 == z,
                None => r is None,
            }
        }),
{
    let ghost ev = es@.map_values(|x: StartEntry| entry_view(x));
    let mut k: usize = 0;
    proof {
        assert(ev.skip(0) =~= ev);
    }
    while k < es.len()
        invariant
            k <= es@.len(),
            ev == es@.map_values(|x: StartEntry| entry_view(x)),
            first_link(ev, ev, targets@) == first_link(ev.skip(k as int), ev, targets@),
        decreases es@.len() - k,
    {
        let ghost rest = ev.skip(k as int);
        assert(rest[0] == ev[k as int]);
        assert(ev[k as int] == entry_view(es@[k as int]));
        if !es[k].timer && closer_id(es, es[k].id) && crate::ast::contains_id(targets, es[k].id) {
            return Some(k);
        }
        proof {
            assert(rest.drop_first() =~= ev.skip(k + 1));
        }
        k = k + 1;
    }
    proof {
        assert(ev.skip(k as int).len() == 0);
    }
    None
}

fn make_choice(en: &StartEntry, es: &Vec<StartEntry>) -> (r: RestoreChoice)
    ensures
        choice_view(r) == choice_for(entry_view(*en), es@.map_values(|x: StartEntry| entry_view(x))),
{
    let ghost ev = es@.map_values(|x: StartEntry| entry_view(x));
    if en.timer {
        let pulse = eq_ignore_case_str(en.name.as_str(), "enable / pulse in");
        let link = first_link_at(es, &en.targets);
        let hint = match link {
            Some(k) => {
                let mut h = if pulse {
                    owned("usual start — timer targets Closer checkzone \"")
                } else {
                    owned("timer targets Closer checkzone \"")
                };
                assert(ev[k as int] == entry_view(es@[k as int]));
                push_str(&mut h, es[k].name.as_str());
                push_str(&mut h, "\"");
                h
            },
            None => if pulse {
                owned("usual start timer (ENABLE / PULSE IN)")
            } else {
                owned("timer")
            },
        };
        RestoreChoice {
            name: en.name.clone(),
            kind: RestoreKind::Timer,
            recommended: pulse || link.is_some(),
            hint,
        }
    } else {
        let hint = if en.closer == Some(1i32) {
            owned("Closer checkzone — prefer a timer that targets this zone")
        } else {
            owned("checkzone (not Closer)")
        };
        RestoreChoice { name: en.name.clone(), kind: RestoreKind::CheckZone, recommended: false, hint }
    }
}

// ---------------------------------------------------------------------------
// Ordering
// ---------------------------------------------------------------------------

/// `a` is listed before `b`: recommended first, then timers before
/// checkzones, then by name.
pub open spec fn choice_before(a: ChoiceView, b: ChoiceView) -> bool {
    ||| a.2 && !b.2
    ||| a.2 == b.2 && a.1 == RestoreKind::Timer && b.1 == RestoreKind::CheckZone
    ||| a.2 == b.2 && a.1 == b.1 && text_lt(a.0, b.0)
}

proof fn lemma_before_order(a: ChoiceView, b: ChoiceView, c: ChoiceView)
    ensures
        !choice_before(a, a),
        a.0 != b.0 ==> choice_before(a, b) || choice_before(b, a),
        choice_before(a, b) ==> !choice_before(b, a),
        choice_before(a, b) && choice_before(b, c) ==> choice_before(a, c),
{
    lemma_text_lt_order(a.0, b.0, c.0);
    lemma_text_lt_order(b.0, a.0, c.0);
}

fn choice_first(a: &RestoreChoice, b: &RestoreChoice) -> (r: bool)
    ensures
        r == choice_before(choice_view(*a), choice_view(*b)),
{
    if a.recommended != b.recommended {
        return a.recommended;
    }
    if a.kind != b.kind {
        return a.kind == RestoreKind::Timer;
    }
    text_less(a.name.as_str(), b.name.as_str())
}

/// MCU names Mission Begin can fire after the randomizer is stripped: the
/// first timer or checkzone of each name. Timers that target a Closer
/// checkzone (and `ENABLE / PULSE IN`) are recommended and listed first.
pub fn restore_start_choices(root: &Il2Entity) -> (r: Vec<RestoreChoice>)
    ensures
        ({
            let want = unsorted_choices(nodes(root@));
            let got = r@.map_values(|c: RestoreChoice| choice_view(c));
            &&& got.len() == want.len()
            &&& forall|x: ChoiceView| got.contains(x) <==> want.contains(x)
            &&& forall|i: int, j: int| 0 <= i < j < got.len() ==> choice_before(got[i], got[j])
        }),
{
    let es = collect_entries(root);
    let ghost ev = es@.map_values(|x: StartEntry| entry_view(x));
    let mut out: Vec<RestoreChoice> = Vec::new();
    let mut i: usize = 0;
    while i < es.len()
        invariant
            i <= es@.len(),
            ev == es@.map_values(|x: StartEntry| entry_view(x)),
            ev == start_entries(nodes(root@)),
            ({
                let got = out@.map_values(|c: RestoreChoice| choice_view(c));
                let want = first_per_name(ev.take(i as int)).map_values(|en: Entry| choice_for(en, ev));
                &&& got.len() == want.len()
                &&& forall|x: ChoiceView| got.contains(x) <==> want.contains(x)
                &&& forall|a: int, b: int| 0 <= a < b < got.len() ==> choice_before(got[a], got[b])
                &&& forall|k: int| 0 <= k < got.len() ==> name_seen(ev.take(i as int), #[trigger] got[k].0)
            }),
        decreases es@.len() - i,
    {
        let ghost pre = ev.take(i as int);
        proof {
            assert(ev.take(i + 1).drop_last() =~= pre);
            assert(ev.take(i + 1).last() == ev[i as int]);
            assert(ev[i as int] == entry_view(es@[i as int]));
        }
        let mut k: usize = 0;
        let mut seen = false;
        while k < i
            invariant
                k <= i < es@.len(),
                ev == es@.map_values(|x: StartEntry| entry_view(x)),
                pre == ev.take(i as int),
                seen == (exists|j: int| 0 <= j < k && (#[trigger] pre[j]).2 == ev[i as int].2),
            decreases i - k,
        {
            assert(pre[k as int] == entry_view(es@[k as int]));
            if str_eq(es[k].name.as_str(), es[i].name.as_str()) {
                seen = true;
            }
            k = k + 1;
        }
        let ghost got0 = out@.map_values(|c: RestoreChoice| choice_view(c));
        if !seen {
            let c = make_choice(&es[i], &es);
            let ghost cv = choice_view(c);
            let mut p: usize = 0;
            while p < out.len() && !choice_first(&c, &out[p])
                invariant
                    p <= out@.len(),
                    got0 == out@.map_values(|c: RestoreChoice| choice_view(c)),
                    cv == choice_view(c),
                    forall|q: int| 0 <= q < p ==> !choice_before(cv, #[trigger] got0[q]),
                decreases out@.len() - p,
            {
                assert(got0[p as int] == choice_view(out@[p as int]));
                p = p + 1;
            }
            proof {
                if p < out@.len() {
                    assert(got0[p as int] == choice_view(out@[p as int]));
                }
            }
            out.insert(p, c);
            proof {
                let got = out@.map_values(|c: RestoreChoice| choice_view(c));
                let want0 = first_per_name(pre).map_values(|en: Entry| choice_for(en, ev));
                let want = first_per_name(ev.take(i + 1)).map_values(|en: Entry| choice_for(en, ev));
                assert(!name_seen(pre, ev[i as int].2));
                assert(want =~= want0.push(cv));
                assert(got =~= got0.insert(p as int, cv));
                assert forall|x: ChoiceView| got.contains(x) <==> want.contains(x) by {
                    if got.contains(x) {
                        let q = choose|q: int| 0 <= q < got.len() && got[q] == x;
                        if q < p {
                            assert(got0[q] == x);
                            assert(got0.contains(x));
                        } else if q > p {
                            assert(got0[q - 1] == x);
                            assert(got0.contains(x));
                        }
                        if x != cv {
                            assert(want0.contains(x));
                            let w = choose|w: int| 0 <= w < want0.len() && want0[w] == x;
                            assert(want[w] == x);
                        } else {
                            assert(want[want.len() - 1] == x);
                        }
                    }
                    if want.contains(x) {
                        let w = choose|w: int| 0 <= w < want.len() && want[w] == x;
                        if w < want0.len() {
                            assert(want0[w] == x);
                            assert(want0.contains(x));
                            assert(got0.contains(x));
                            let q = choose|q: int| 0 <= q < got0.len() && got0[q] == x;
                            if q < p {
                                assert(got[q] == x);
                            } else {
                                assert(got[q + 1] == x);
                            }
                        } else {
                            assert(got[p as int] == x);
                        }
                    }
                }
                assert forall|q: int| 0 <= q < got0.len() implies (#[trigger] got0[q]).0 != cv.0 by {
                    assert(name_seen(pre, got0[q].0));
                    let j = choose|j: int| 0 <= j < pre.len() && (#[trigger] pre[j]).2 == got0[q].0;
                    if got0[q].0 == cv.0 {
                        assert(pre[j].2 == ev[i as int].2);
                    }
                }
                assert forall|a: int, b: int| 0 <= a < b < got.len() implies choice_before(got[a], got[b]) by {
                    if a < p && b == p {
                        lemma_before_order(got0[a], cv, cv);
                    } else if a == p && b > p {
                        if b - 1 > p {
                            lemma_before_order(cv, got0[p as int], got0[b - 1]);
                        }
                    } else if a < p && b > p {
                        assert(got[a] == got0[a]);
                        assert(got[b] == got0[b - 1]);
                    } else if b < p {
                        assert(got[a] == got0[a]);
                        assert(got[b] == got0[b]);
                    } else {
                        assert(got[a] == got0[a - 1]);
                        assert(got[b] == got0[b - 1]);
                    }
                }
                assert forall|k: int| 0 <= k < got.len() implies name_seen(ev.take(i + 1), #[trigger] got[k].0) by {
                    let t = ev.take(i + 1);
                    if k == p {
                        assert(t[i as int].2 == got[k].0);
                    } else {
                        let g = if k < p { got0[k] } else { got0[k - 1] };
                        assert(got[k] == g);
                        assert(name_seen(pre, g.0));
                        let j = choose|j: int| 0 <= j < pre.len() && (#[trigger] pre[j]).2 == g.0;
                        assert(t[j] == pre[j]);
                    }
                }
            }
        } else {
            proof {
                let j = choose|j: int| 0 <= j < k && (#[trigger] pre[j]).2 == ev[i as int].2;
                assert(name_seen(pre, ev[i as int].2));
                let got = out@.map_values(|c: RestoreChoice| choice_view(c));
                assert forall|k: int| 0 <= k < got.len() implies name_seen(ev.take(i + 1), #[trigger] got[k].0) by {
                    assert(name_seen(pre, got[k].0));
                    let j = choose|j: int| 0 <= j < pre.len() && (#[trigger] pre[j]).2 == got[k].0;
                    assert(ev.take(i + 1)[j] == pre[j]);
                }
            }
        }
        i = i + 1;
    }
    proof {
        assert(ev.take(i as int) =~= ev);
    }
    out
}

} // verus!
