//! Dated front marks for the map slider: weekly while the line raced in
//! 1950, monthly through mid-1951, seasonal once the line froze.

use vstd::prelude::*;
use super::Season;
use crate::text::str_eq;

verus! {

/// Dates of the timeline marks: year, month, day and landscape season.
pub open spec fn timeline_table() -> Seq<(u16, u8, u8, Season)> {
    seq![
        (1950u16, 6u8, 1u8, Season::LateSpring),
        (1950u16, 6u8, 25u8, Season::Summer),
        (1950u16, 6u8, 28u8, Season::Summer),
        (1950u16, 7u8, 8u8, Season::Summer),
        (1950u16, 7u8, 20u8, Season::Summer),
        (1950u16, 8u8, 4u8, Season::Summer),
        (1950u16, 8u8, 20u8, Season::Summer),
        (1950u16, 9u8, 15u8, Season::Fall),
        (1950u16, 9u8, 22u8, Season::Fall),
        (1950u16, 9u8, 28u8, Season::Fall),
        (1950u16, 10u8, 10u8, Season::Fall),
        (1950u16, 10u8, 19u8, Season::Fall),
        (1950u16, 10u8, 26u8, Season::Fall),
        (1950u16, 11u8, 1u8, Season::Fall),
        (1950u16, 11u8, 15u8, Season::Fall),
        (1950u16, 11u8, 27u8, Season::Winter),
        (1950u16, 12u8, 5u8, Season::Winter),
        (1950u16, 12u8, 11u8, Season::Winter),
        (1950u16, 12u8, 24u8, Season::Winter),
        (1951u16, 1u8, 4u8, Season::Winter),
        (1951u16, 1u8, 25u8, Season::Winter),
        (1951u16, 2u8, 20u8, Season::Winter),
        (1951u16, 3u8, 14u8, Season::EarlySpring),
        (1951u16, 4u8, 22u8, Season::LateSpring),
        (1951u16, 6u8, 15u8, Season::LateSpring),
        (1951u16, 9u8, 1u8, Season::Fall),
        (1951u16, 10u8, 15u8, Season::Fall),
        (1951u16, 12u8, 1u8, Season::Winter),
        (1952u16, 4u8, 1u8, Season::LateSpring),
        (1952u16, 7u8, 1u8, Season::Summer),
        (1952u16, 10u8, 14u8, Season::Fall),
        (1953u16, 1u8, 1u8, Season::Winter),
        (1953u16, 4u8, 16u8, Season::LateSpring),
        (1953u16, 7u8, 27u8, Season::Summer),
    ]
}

/// Date and season of every timeline mark, in order.
pub fn timeline_dates() -> (r: Vec<(u16, u8, u8, Season)>)
    ensures
        r@ == timeline_table(),
{
    let r = vec![
        (1950u16, 6u8, 1u8, Season::LateSpring),
        (1950u16, 6u8, 25u8, Season::Summer),
        (1950u16, 6u8, 28u8, Season::Summer),
        (1950u16, 7u8, 8u8, Season::Summer),
        (1950u16, 7u8, 20u8, Season::Summer),
        (1950u16, 8u8, 4u8, Season::Summer),
        (1950u16, 8u8, 20u8, Season::Summer),
        (1950u16, 9u8, 15u8, Season::Fall),
        (1950u16, 9u8, 22u8, Season::Fall),
        (1950u16, 9u8, 28u8, Season::Fall),
        (1950u16, 10u8, 10u8, Season::Fall),
        (1950u16, 10u8, 19u8, Season::Fall),
        (1950u16, 10u8, 26u8, Season::Fall),
        (1950u16, 11u8, 1u8, Season::Fall),
        (1950u16, 11u8, 15u8, Season::Fall),
        (1950u16, 11u8, 27u8, Season::Winter),
        (1950u16, 12u8, 5u8, Season::Winter),
        (1950u16, 12u8, 11u8, Season::Winter),
        (1950u16, 12u8, 24u8, Season::Winter),
        (1951u16, 1u8, 4u8, Season::Winter),
        (1951u16, 1u8, 25u8, Season::Winter),
        (1951u16, 2u8, 20u8, Season::Winter),
        (1951u16, 3u8, 14u8, Season::EarlySpring),
        (1951u16, 4u8, 22u8, Season::LateSpring),
        (1951u16, 6u8, 15u8, Season::LateSpring),
        (1951u16, 9u8, 1u8, Season::Fall),
        (1951u16, 10u8, 15u8, Season::Fall),
        (1951u16, 12u8, 1u8, Season::Winter),
        (1952u16, 4u8, 1u8, Season::LateSpring),
        (1952u16, 7u8, 1u8, Season::Summer),
        (1952u16, 10u8, 14u8, Season::Fall),
        (1953u16, 1u8, 1u8, Season::Winter),
        (1953u16, 4u8, 16u8, Season::LateSpring),
        (1953u16, 7u8, 27u8, Season::Summer),
    ];
    proof {
        assert(r@ =~= timeline_table());
    }
    r
}

/// First mark of the table that satisfies `p`, as a position.
pub open spec fn first_mark(t: Seq<(u16, u8, u8, Season)>, p: spec_fn((u16, u8, u8, Season)) -> bool) -> Option<int>
    decreases t.len(),
{
    if t.len() == 0 {
        None
    } else if p(t[0]) {
        Some(0)
    } else {
        match first_mark(t.drop_first(), p) {
            Some(k) => Some(k + 1),
            None => None,
        }
    }
}

proof fn lemma_first_mark(t: Seq<(u16, u8, u8, Season)>, p: spec_fn((u16, u8, u8, Season)) -> bool, i: int)
    requires
        0 <= i <= t.len(),
        forall|j: int| 0 <= j < i ==> !p(#[trigger] t[j]),
    ensures
        i < t.len() && p(t[i]) ==> first_mark(t, p) == Some(i),
        i == t.len() ==> first_mark(t, p) is None,
    decreases t.len(),
{
    if t.len() > 0 && !p(t[0]) && i > 0 {
        let tl = t.drop_first();
        assert forall|j: int| 0 <= j < i - 1 implies !p(#[trigger] tl[j]) by {
            assert(tl[j] == t[j + 1]);
        }
        if i - 1 < tl.len() {
            assert(tl[i - 1] == t[i]);
        }
        lemma_first_mark(tl, p, i - 1);
    }
}

fn find_mark(year: u16, month: u8, day: u8, season: Season, by: u8) -> (r: Option<usize>)
    ensures
        r matches Some(k) ==> first_mark(timeline_table(), mark_test(year, month, day, season, by)) == Some(k as int),
        r is None ==> first_mark(timeline_table(), mark_test(year, month, day, season, by)) is None,
{
    let rows = timeline_dates();
    let ghost p = mark_test(year, month, day, season, by);
    let mut i: usize = 0;
    while i < rows.len()
        invariant
            i <= rows@.len(),
            rows@ == timeline_table(),
            p == mark_test(year, month, day, season, by),
            forall|j: int| 0 <= j < i ==> !p(#[trigger] timeline_table()[j]),
        decreases rows@.len() - i,
    {
        let m = rows[i];
        let hit = if by == 0 {
            m.0 == year && m.3 == season
        } else if by == 1 {
            m.0 == year && m.1 == month && m.2 == day
        } else {
            m.0 == year && m.1 == month
        };
        if hit {
            proof {
                lemma_first_mark(timeline_table(), p, i as int);
            }
            return Some(i);
        }
        i = i + 1;
    }
    proof {
        lemma_first_mark(timeline_table(), p, i as int);
    }
    None
}

/// What a mark is matched on: year and season (`by == 0`), the full date
/// (`by == 1`), or year and month (otherwise).
pub open spec fn mark_test(year: u16, month: u8, day: u8, season: Season, by: u8) -> spec_fn((u16, u8, u8, Season)) -> bool {
    |m: (u16, u8, u8, Season)|
        if by == 0 {
            m.0 == year && m.3 == season
        } else if by == 1 {
            m.0 == year && m.1 == month && m.2 == day
        } else {
            m.0 == year && m.1 == month
        }
}

/// First mark of a year and season (0 when there is none).
pub fn timeline_index(year: u16, season: Season) -> (r: usize)
    ensures
        r as int == (match first_mark(timeline_table(), mark_test(year, 0, 0, season, 0)) {
            Some(k) => k,
            None => 0,
        }),
{
    match find_mark(year, 0, 0, season, 0) {
        Some(k) => k,
        None => 0,
    }
}

/// Date of a battle's mark, by battle id (mid-June 1951 for unknown ids).
pub open spec fn battle_date(id: Seq<char>) -> (u16, u8, u8) {
    if id == "seoul1"@ {
        (1950, 6, 28)
    } else if id == "inchon"@ {
        (1950, 9, 15)
    } else if id == "seoul2"@ {
        (1950, 9, 28)
    } else if id == "pyongyang"@ {
        (1950, 10, 19)
    } else if id == "chosin"@ {
        (1950, 11, 27)
    } else if id == "hungnam"@ {
        (1950, 12, 11)
    } else if id == "seoul3"@ {
        (1951, 1, 4)
    } else if id == "ripper"@ {
        (1951, 3, 14)
    } else if id == "imjin"@ {
        (1951, 4, 22)
    } else if id == "bloody"@ {
        (1951, 9, 1)
    } else if id == "heartbreak"@ || id == "punchbowl"@ {
        (1951, 10, 15)
    } else if id == "triangle"@ {
        (1952, 10, 14)
    } else if id == "porkchop"@ {
        (1953, 4, 16)
    } else {
        (1951, 6, 15)
    }
}

fn battle_date_of(id: &str) -> (r: (u16, u8, u8))
    ensures
        r == battle_date(id@),
{
    if str_eq(id, "seoul1") {
        (1950, 6, 28)
    } else if str_eq(id, "inchon") {
        (1950, 9, 15)
    } else if str_eq(id, "seoul2") {
        (1950, 9, 28)
    } else if str_eq(id, "pyongyang") {
        (1950, 10, 19)
    } else if str_eq(id, "chosin") {
        (1950, 11, 27)
    } else if str_eq(id, "hungnam") {
        (1950, 12, 11)
    } else if str_eq(id, "seoul3") {
        (1951, 1, 4)
    } else if str_eq(id, "ripper") {
        (1951, 3, 14)
    } else if str_eq(id, "imjin") {
        (1951, 4, 22)
    } else if str_eq(id, "bloody") {
        (1951, 9, 1)
    } else if str_eq(id, "heartbreak") || str_eq(id, "punchbowl") {
        (1951, 10, 15)
    } else if str_eq(id, "triangle") {
        (1952, 10, 14)
    } else if str_eq(id, "porkchop") {
        (1953, 4, 16)
    } else {
        (1951, 6, 15)
    }
}

/// Mark for a battle: the one on the battle's date, else the first of its
/// month, else the first mark.
pub fn mark_for_battle(id: &str) -> (r: usize)
    ensures
        ({
            let (y, mo, d) = battle_date(id@);
            r as int == (match first_mark(timeline_table(), mark_test(y, mo, d, Season::Winter, 1)) {
                Some(k) => k,
                None => match first_mark(timeline_table(), mark_test(y, mo, d, Season::Winter, 2)) {
                    Some(k) => k,
                    None => 0,
                },
            })
        }),
{
    let (y, mo, d) = battle_date_of(id);
    match find_mark(y, mo, d, Season::Winter, 1) {
        Some(k) => k,
        None => match find_mark(y, mo, d, Season::Winter, 2) {
            Some(k) => k,
            None => 0,
        },
    }
}

} // verus!
