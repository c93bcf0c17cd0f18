//! Korean War period data for the map generator: seasons, the per-period
//! snapshot titles, the aircraft of each period, and the map pack types.

pub mod timeline;

use vstd::prelude::*;
use std::path::PathBuf;
use crate::aircraft::{AircraftType, aircraft_by_id, aircraft_pos, aircraft_table};
use crate::ast::Il2Entity;
use crate::locale::LocaleTable;

verus! {

/// Paths of user-picked reference groups (std's `PathBuf`, carried through).
#[verifier::external_type_specification]
#[verifier::external_body]
pub struct ExPathBuf(PathBuf);

/// Season of a campaign year.
#[derive(Clone, Copy, PartialEq, Eq, Structural, Debug)]
pub enum Season {
    EarlySpring,
    LateSpring,
    Summer,
    Fall,
    Winter,
}

pub open spec fn season_label(s: Season) -> Seq<char> {
    match s {
        Season::EarlySpring => "Early spring"@,
        Season::LateSpring => "Late spring"@,
        Season::Summer => "Summer"@,
        Season::Fall => "Fall"@,
        Season::Winter => "Winter"@,
    }
}

impl Season {
    /// Display label.
    pub fn label(self) -> (r: &'static str)
        ensures
            r@ == season_label(self),
    {
        match self {
            Season::EarlySpring => "Early spring",
            Season::LateSpring => "Late spring",
            Season::Summer => "Summer",
            Season::Fall => "Fall",
            Season::Winter => "Winter",
        }
    }
}

/// A user-picked `.Group` stamped onto the map at its saved position.
#[derive(Debug)]
pub struct MapRefGroup {
    pub path: PathBuf,
    pub entity: Il2Entity,
}

/// One fighter pack parked on the map.
#[derive(Debug)]
pub struct MapFighterPack {
    pub root: Il2Entity,
}

/// One randomizer ship pack parked on the map.
#[derive(Debug)]
pub struct MapShipPack {
    pub root: Il2Entity,
}

/// One randomizer ground pack parked on the map.
#[derive(Debug)]
pub struct MapGroundPack {
    pub root: Il2Entity,
}

/// A generated base map: the group tree, its language table, the period it
/// shows and what went into it.
pub struct FrontPack {
    pub root: Il2Entity,
    pub locale: LocaleTable,
    pub period_label: &'static str,
    pub period_note: &'static str,
    pub aircraft: Vec<AircraftType>,
    pub icon_count: usize,
    pub notes: Vec<String>,
    pub clip_preview: String,
}

/// Kind of a dot in the map preview.
#[derive(Clone, Copy, Debug, PartialEq, Eq, Structural)]
pub enum PreviewKind {
    Airfield,
    LinkedEntity,
    Block,
}

/// Period snapshots: year, season, title, note.
pub open spec fn snapshot_table() -> Seq<(u16, Season, Seq<char>, Seq<char>)> {
    seq![
        (1950u16, Season::EarlySpring, "Spring 1950 — uneasy 38th Parallel"@, "Pre-invasion. ROK on the parallel; NKPA assembling north of it."@),
        (1950u16, Season::LateSpring, "June 1950 — invasion of the South"@, "NKPA crosses the 38th. Seoul falls on 28 June."@),
        (1950u16, Season::Summer, "Summer 1950 — NKPA holds the peninsula"@, "UN is pinned on the Pusan Perimeter, south of this map."@),
        (1950u16, Season::Fall, "Fall 1950 — Inchon to the Yalu"@, "Inchon (15 Sep), Seoul retaken, Pyongyang (19 Oct), then the UN race north."@),
        (1950u16, Season::Winter, "Winter 1950–51 — Chosin and the long retreat"@, "Chosin breakout, Hungnam evacuation, Chinese recapture of Seoul (4 Jan)."@),
        (1951u16, Season::EarlySpring, "Early spring 1951 — back through Seoul"@, "Operations Thunderbolt, Killer, and Ripper. Seoul retaken 14 March."@),
        (1951u16, Season::LateSpring, "Late spring 1951 — Chinese offensive, then the MLR"@, "Imjin and Kapyong in April. Front settles near the 38th by June."@),
        (1951u16, Season::Summer, "Summer 1951 — Kansas Line and Bloody Ridge"@, "Static war begins. Hill battles on the eastern MLR."@),
        (1951u16, Season::Fall, "Fall 1951 — Heartbreak Ridge and the Punchbowl"@, "UN attacks on the eastern mountains while talks go on at Kaesong/Panmunjom."@),
        (1951u16, Season::Winter, "Winter 1951–52 — stalemate"@, "Main line of resistance frozen near the 38th. Air war over MiG Alley."@),
        (1952u16, Season::EarlySpring, "1952 — stalemate (early spring)"@, "MLR unchanged. UN air pressure on Communist rail and airfields."@),
        (1952u16, Season::LateSpring, "1952 — stalemate (late spring)"@, "Same Kansas Line. Wonsan still under naval siege."@),
        (1952u16, Season::Summer, "1952 — stalemate (summer)"@, "Outpost war along the MLR."@),
        (1952u16, Season::Fall, "Fall 1952 — Triangle Hill"@, "Shangganling / Triangle Hill, October–November 1952."@),
        (1952u16, Season::Winter, "Winter 1952–53 — stalemate"@, "Talks continue. MLR holds."@),
        (1953u16, Season::EarlySpring, "Early spring 1953 — outpost war"@, "Old Baldy and the approaches to Pork Chop Hill."@),
        (1953u16, Season::LateSpring, "Late spring 1953 — Pork Chop Hill"@, "Heavy outpost fights while the armistice is drafted."@),
        (1953u16, Season::Summer, "Summer 1953 — armistice"@, "Ceasefire 27 July 1953. Line of contact becomes the DMZ."@),
        (1953u16, Season::Fall, "Fall 1953 — DMZ"@, "Post-armistice. Same line of contact."@),
        (1953u16, Season::Winter, "Winter 1953 — DMZ"@, "Post-armistice. Same line of contact."@),
    ]
}

fn snapshot_rows() -> (r: Vec<(u16, Season, &'static str, &'static str)>)
    ensures
        r@.len() == snapshot_table().len(),
        forall|k: int| 0 <= k < r@.len() ==> (#[trigger] r@[k].0, r@[k].1, r@[k].2@, r@[k].3@) == snapshot_table()[k],
{
    vec![
        (1950u16, Season::EarlySpring, "Spring 1950 — uneasy 38th Parallel", "Pre-invasion. ROK on the parallel; NKPA assembling north of it."),
        (1950u16, Season::LateSpring, "June 1950 — invasion of the South", "NKPA crosses the 38th. Seoul falls on 28 June."),
        (1950u16, Season::Summer, "Summer 1950 — NKPA holds the peninsula", "UN is pinned on the Pusan Perimeter, south of this map."),
        (1950u16, Season::Fall, "Fall 1950 — Inchon to the Yalu", "Inchon (15 Sep), Seoul retaken, Pyongyang (19 Oct), then the UN race north."),
        (1950u16, Season::Winter, "Winter 1950–51 — Chosin and the long retreat", "Chosin breakout, Hungnam evacuation, Chinese recapture of Seoul (4 Jan)."),
        (1951u16, Season::EarlySpring, "Early spring 1951 — back through Seoul", "Operations Thunderbolt, Killer, and Ripper. Seoul retaken 14 March."),
        (1951u16, Season::LateSpring, "Late spring 1951 — Chinese offensive, then the MLR", "Imjin and Kapyong in April. Front settles near the 38th by June."),
        (1951u16, Season::Summer, "Summer 1951 — Kansas Line and Bloody Ridge", "Static war begins. Hill battles on the eastern MLR."),
        (1951u16, Season::Fall, "Fall 1951 — Heartbreak Ridge and the Punchbowl", "UN attacks on the eastern mountains while talks go on at Kaesong/Panmunjom."),
        (1951u16, Season::Winter, "Winter 1951–52 — stalemate", "Main line of resistance frozen near the 38th. Air war over MiG Alley."),
        (1952u16, Season::EarlySpring, "1952 — stalemate (early spring)", "MLR unchanged. UN air pressure on Communist rail and airfields."),
        (1952u16, Season::LateSpring, "1952 — stalemate (late spring)", "Same Kansas Line. Wonsan still under naval siege."),
        (1952u16, Season::Summer, "1952 — stalemate (summer)", "Outpost war along the MLR."),
        (1952u16, Season::Fall, "Fall 1952 — Triangle Hill", "Shangganling / Triangle Hill, October–November 1952."),
        (1952u16, Season::Winter, "Winter 1952–53 — stalemate", "Talks continue. MLR holds."),
        (1953u16, Season::EarlySpring, "Early spring 1953 — outpost war", "Old Baldy and the approaches to Pork Chop Hill."),
        (1953u16, Season::LateSpring, "Late spring 1953 — Pork Chop Hill", "Heavy outpost fights while the armistice is drafted."),
        (1953u16, Season::Summer, "Summer 1953 — armistice", "Ceasefire 27 July 1953. Line of contact becomes the DMZ."),
        (1953u16, Season::Fall, "Fall 1953 — DMZ", "Post-armistice. Same line of contact."),
        (1953u16, Season::Winter, "Winter 1953 — DMZ", "Post-armistice. Same line of contact."),
    ]
}

/// Position of the snapshot for a period (first match), or the table's
/// length when there is none.
pub open spec fn snapshot_pos(t: Seq<(u16, Season, Seq<char>, Seq<char>)>, year: u16, season: Season) -> int
    decreases t.len(),
{
    if t.len() == 0 {
        0
    } else if t[0].0 == year && t[0].1 == season {
        0
    } else {
        1 + snapshot_pos(t.drop_first(), year, season)
    }
}

/// The snapshot of a period; the first snapshot when the period has none.
pub open spec fn snapshot_of(year: u16, season: Season) -> (u16, Season, Seq<char>, Seq<char>) {
    let p = snapshot_pos(snapshot_table(), year, season);
    if p < snapshot_table().len() {
        snapshot_table()[p]
    } else {
        snapshot_table()[0]
    }
}

proof fn lemma_snapshot_pos(t: Seq<(u16, Season, Seq<char>, Seq<char>)>, year: u16, season: Season, p: int)
    requires
        0 <= p <= t.len(),
        p < t.len() ==> t[p].0 == year && t[p].1 == season,
        forall|j: int| 0 <= j < p ==> !(#[trigger] t[j].0 == year && t[j].1 == season),
    ensures
        snapshot_pos(t, year, season) == p,
    decreases t.len(),
{
    if t.len() > 0 && !(t[0].0 == year && t[0].1 == season) {
        let tl = t.drop_first();
        assert forall|j: int| 0 <= j < p - 1 implies !(#[trigger] tl[j].0 == year && tl[j].1 == season) by {
            assert(tl[j] == t[j + 1]);
        }
        if p - 1 < tl.len() {
            assert(tl[p - 1] == t[p]);
        }
        lemma_snapshot_pos(tl, year, season, p - 1);
    }
}

fn find_snapshot(year: u16, season: Season) -> (r: (u16, Season, &'static str, &'static str))
    ensures
        (r.0, r.1, r.2@, r.3@) == snapshot_of(year, season),
{
    let rows = snapshot_rows();
    let mut i: usize = 0;
    while i < rows.len()
        invariant
            i <= rows@.len(),
            rows@.len() == snapshot_table().len(),
            forall|k: int| 0 <= k < rows@.len() ==> (#[trigger] rows@[k].0, rows@[k].1, rows@[k].2@, rows@[k].3@) == snapshot_table()[k],
            forall|j: int| 0 <= j < i ==> !(#[trigger] snapshot_table()[j].0 == year && snapshot_table()[j].1 == season),
        decreases rows@.len() - i,
    {
        assert((rows@[i as int].0, rows@[i as int].1, rows@[i as int].2@, rows@[i as int].3@) == snapshot_table()[i as int]);
        if rows[i].0 == year && rows[i].1 == season {
            proof {
                lemma_snapshot_pos(snapshot_table(), year, season, i as int);
            }
            return rows[i];
        }
        i = i + 1;
    }
    proof {
        lemma_snapshot_pos(snapshot_table(), year, season, i as int);
        assert((rows@[0].0, rows@[0].1, rows@[0].2@, rows@[0].3@) == snapshot_table()[0]);
    }
    rows[0]
}

/// Title of the period snapshot (the first snapshot's for an unknown period).
pub fn snapshot_label(year: u16, season: Season) -> (r: &'static str)
    ensures
        r@ == snapshot_of(year, season).2,
{
    find_snapshot(year, season).2
}

/// Note of the period snapshot (the first snapshot's for an unknown period).
pub fn snapshot_note(year: u16, season: Season) -> (r: &'static str)
    ensures
        r@ == snapshot_of(year, season).3,
{
    find_snapshot(year, season).3
}

/// Aircraft ids flown in a period.
pub open spec fn period_aircraft_ids(year: u16, season: Season) -> Seq<Seq<char>> {
    if year == 1950 && (season == Season::EarlySpring || season == Season::LateSpring || season == Season::Summer) {
        seq!["f80c10"@, "f51d"@, "yak9p"@, "la11"@]
    } else if year == 1950 && season == Season::Fall {
        seq!["f80c10"@, "f51d"@, "f84e"@, "yak9p"@, "la11"@, "mig15bis"@]
    } else if year == 1950 && season == Season::Winter {
        seq!["f80c10"@, "f51d"@, "f84e"@, "f86a5"@, "yak9p"@, "la11"@, "mig15bis"@]
    } else {
        seq!["f86a5"@, "f84e"@, "f80c10"@, "f51d"@, "mig15bis"@, "la11"@, "yak9p"@]
    }
}

fn aircraft_ids(year: u16, season: Season) -> (r: Vec<&'static str>)
    ensures
        r@.map_values(|s: &str| s@) == period_aircraft_ids(year, season),
{
    let r = if year == 1950 && (season == Season::EarlySpring || season == Season::LateSpring || season == Season::Summer) {
        vec!["f80c10", "f51d", "yak9p", "la11"]
    } else if year == 1950 && season == Season::Fall {
        vec!["f80c10", "f51d", "f84e", "yak9p", "la11", "mig15bis"]
    } else if year == 1950 && season == Season::Winter {
        vec!["f80c10", "f51d", "f84e", "f86a5", "yak9p", "la11", "mig15bis"]
    } else {
        vec!["f86a5", "f84e", "f80c10", "f51d", "mig15bis", "la11", "yak9p"]
    };
    proof {
        assert(r@.map_values(|s: &str| s@) =~= period_aircraft_ids(year, season));
    }
    r
}

/// The aircraft table entry with id `id`, if any.
pub open spec fn aircraft_for(id: Seq<char>) -> Option<AircraftType> {
    let p = aircraft_pos(aircraft_table(), id);
    if p < aircraft_table().len() {
        Some(aircraft_table()[p])
    } else {
        None
    }
}

/// The known aircraft among `ids`, in order.
pub open spec fn known_aircraft(ids: Seq<Seq<char>>) -> Seq<AircraftType>
    decreases ids.len(),
{
    if ids.len() == 0 {
        seq![]
    } else {
        let head: Seq<AircraftType> = match aircraft_for(ids[0]) {
            Some(a) => seq![a],
            None => seq![],
        };
        head + known_aircraft(ids.drop_first())
    }
}

/// Aircraft flown in a period, in the period's listing order.
pub fn suggested_aircraft(year: u16, season: Season) -> (r: Vec<AircraftType>)
    ensures
        r@ == known_aircraft(period_aircraft_ids(year, season)),
{
    let ids = aircraft_ids(year, season);
    let ghost all = period_aircraft_ids(year, season);
    let mut out: Vec<AircraftType> = Vec::new();
    let mut i: usize = 0;
    proof {
        assert(all.skip(0) =~= all);
        assert(out@ =~= Seq::<AircraftType>::empty());
    }
    while i < ids.len()
        invariant
            i <= ids@.len(),
            ids@.map_values(|s: &str| s@) == all,
            all == period_aircraft_ids(year, season),
            known_aircraft(all) == out@ + known_aircraft(all.skip(i as int)),
        decreases ids@.len() - i,
    {
        let ghost before = out@;
        proof {
            assert(all.skip(i as int)[0] == ids@[i as int]@);
            assert(all.skip(i as int).drop_first() =~= all.skip(i + 1));
        }
        match aircraft_by_id(ids[i]) {
            Some(a) => {
                out.push(a);
                proof {
                    assert(before + known_aircraft(all.skip(i as int)) =~= out@ + known_aircraft(all.skip(i + 1)));
                }
            },
            None => {
                proof {
                    assert(before + known_aircraft(all.skip(i as int)) =~= out@ + known_aircraft(all.skip(i + 1)));
                }
            },
        }
        i = i + 1;
    }
    proof {
        assert(all.skip(i as int).len() == 0);
        assert(out@ + known_aircraft(all.skip(i as int)) =~= out@);
    }
    out
}

} // verus!
