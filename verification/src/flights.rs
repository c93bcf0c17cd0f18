//! Fighter packs: flight sizing, the equal-odds waterfall of the fighter
//! randomizer, and (in the submodules) the wiring of Group 1: its spawners,
//! DeathCounts, randomizer, plane links and plane ends.

pub mod ends;
pub mod edits;
pub mod randomizer;
pub mod pack_logic;

use vstd::prelude::*;

verus! {

/// Size of flight `i` when flights cycle `max, max - 1, …, 1` (a `max` of 0
/// counts as 1).
pub open spec fn flight_size(i: int, max: int) -> int {
    let m = if max < 1 { 1 } else { max };
    m - i % m
}

/// Sizes of `count` flights cycling down from `max`: a setting of 4 gives
/// 4-, 3-, 2- and 1-ship elements rather than four 4-ships.
pub fn flight_sizes(count: usize, max: usize) -> (r: Vec<usize>)
    ensures
        r@.len() == count,
        forall|i: int| 0 <= i < count ==> #[trigger] r@[i] as int == flight_size(i, max as int),
{
    let m = if max < 1 { 1 } else { max };
    let mut out: Vec<usize> = Vec::new();
    let mut i: usize = 0;
    while i < count
        invariant
            i <= count,
            m >= 1,
            m == (if max < 1 { 1 } else { max }),
            out@.len() == i,
            forall|k: int| 0 <= k < i ==> #[trigger] out@[k] as int == flight_size(k, max as int),
        decreases count - i,
    {
        out.push(m - i % m);
        i = i + 1;
    }
    out
}

/// Percent chance for choice `index` of `n` so that an equal-odds waterfall
/// results: 4 choices give 25 / 33 / 50 / 100.
pub open spec fn random_pct_spec(index: int, n: int) -> int {
    let rem = if n - index < 1 { 1 } else { n - index };
    let v = (100 + rem / 2) / rem;
    if v < 1 {
        1
    } else if v > 100 {
        100
    } else {
        v
    }
}

/// Percent chance for choice `index` of `n` in an equal-odds waterfall.
pub fn random_pct(index: usize, n: usize) -> (r: i32)
    ensures
        r as int == random_pct_spec(index as int, n as int),
{
    let remaining = if n > index { n - index } else { 0 };
    let remaining = if remaining < 1 { 1 } else { remaining };
    let v = (100 + remaining / 2) / remaining;
    let c = if v < 1 {
        1
    } else if v > 100 {
        100
    } else {
        v
    };
    c as i32
}

} // verus!
