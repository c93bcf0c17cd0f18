//! Random ground units: how copies are split between templates, how many of
//! them win, and how placed copies are grouped by template name.

pub mod placed;
pub mod restore;
pub mod always_on;
pub mod generate;
pub mod winners;

use vstd::prelude::*;
use crate::text::{all_digits, all_digits_in, chars_of, lemma_rfind_bounds, rfind_char, rfind_in, skip_ws_range, string_from_range, trim, trim_end, trim_end_range};

pub use crate::flights::random_pct;
pub use placed::{combine_placed_packs, looks_like_placed_pack, placed_copy_count, strip_randomizer};
pub use restore::{RestoreChoice, RestoreKind, restore_start_choices};
pub use always_on::restore_always_on;
pub use generate::{ReconInput, generate_recon};

verus! {

// ---------------------------------------------------------------------------
// Splitting copies
// ---------------------------------------------------------------------------

pub open spec fn weight_sum(w: Seq<u32>) -> int
    decreases w.len(),
{
    if w.len() == 0 {
        0
    } else {
        weight_sum(w.drop_last()) + w.last()
    }
}

/// Whole part of template `i`'s share of `total` copies.
pub open spec fn share_floor(w: Seq<u32>, total: int, i: int) -> int {
    (total * w[i]) / weight_sum(w)
}

/// Left-over part of template `i`'s share (scaled by the weight sum).
pub open spec fn share_rem(w: Seq<u32>, total: int, i: int) -> int {
    (total * w[i]) % weight_sum(w)
}

/// Whether template `j` comes before template `i` when ordered by left-over
/// part, largest first, ties in input order.
pub open spec fn ranks_before(w: Seq<u32>, total: int, j: int, i: int) -> bool {
    share_rem(w, total, j) > share_rem(w, total, i) || (share_rem(w, total, j) == share_rem(w, total, i) && j < i)
}

/// Number of templates among the first `k` that come before `i`.
pub open spec fn rank_upto(w: Seq<u32>, total: int, i: int, k: int) -> int
    decreases k,
{
    if k <= 0 {
        0
    } else {
        rank_upto(w, total, i, k - 1) + if ranks_before(w, total, k - 1, i) { 1int } else { 0int }
    }
}

/// Position of template `i` in the left-over order.
pub open spec fn rem_rank(w: Seq<u32>, total: int, i: int) -> int {
    rank_upto(w, total, i, w.len() as int)
}

/// Sum of the whole parts of the first `k` templates.
pub open spec fn floors_upto(w: Seq<u32>, total: int, k: int) -> int
    decreases k,
{
    if k <= 0 {
        0
    } else {
        floors_upto(w, total, k - 1) + share_floor(w, total, k - 1)
    }
}

/// Copies not handed out by the whole parts.
pub open spec fn left_over(w: Seq<u32>, total: int) -> int {
    total - floors_upto(w, total, w.len() as int)
}

/// Largest-remainder split: each template gets the whole part of its share,
/// and the copies left over go one each to the templates with the largest
/// left-over parts (ties to the earlier template). All zero when there are
/// no copies or no weight.
pub open spec fn allocation(w: Seq<u32>, total: int, i: int) -> int {
    if total == 0 || weight_sum(w) == 0 {
        0
    } else {
        share_floor(w, total, i) + if rem_rank(w, total, i) < left_over(w, total) { 1int } else { 0int }
    }
}

proof fn lemma_weight_sum_nonneg(w: Seq<u32>)
    ensures
        weight_sum(w) >= 0,
    decreases w.len(),
{
    if w.len() > 0 {
        lemma_weight_sum_nonneg(w.drop_last());
    }
}

/// Spread `total` copies across templates by relative weights (largest
/// remainder; ties go to the earlier template).
pub fn allocate_copies(weights: &[u32], total: usize) -> (r: Vec<usize>)
    requires
        weight_sum(weights@) <= u32::MAX,
    ensures
        r@.len() == weights@.len(),
        forall|i: int| 0 <= i < weights@.len() ==> #[trigger] r@[i] as int == allocation(weights@, total as int, i),
        forall|i: int| 0 <= i < weights@.len() ==> #[trigger] r@[i] <= total,
{
    let n = weights.len();
    let ghost w = weights@;
    let mut sum: u64 = 0;
    let mut k: usize = 0;
    proof {
        assert(w.take(0) =~= Seq::<u32>::empty());
    }
    while k < n
        invariant
            k <= n == w.len(),
            w == weights@,
            sum as int == weight_sum(w.take(k as int)),
            weight_sum(w) <= u32::MAX,
        decreases n - k,
    {
        proof {
            assert(w.take(k + 1).drop_last() =~= w.take(k as int));
            lemma_weight_sum_prefix(w, k as int + 1);
        }
        sum = sum + weights[k] as u64;
        k = k + 1;
    }
    proof {
        assert(w.take(k as int) =~= w);
    }
    let mut out: Vec<usize> = Vec::new();
    if n == 0 || total == 0 || sum == 0 {
        let mut i: usize = 0;
        while i < n
            invariant
                i <= n == w.len(),
                out@.len() == i,
                total == 0 || weight_sum(w) == 0,
                forall|j: int| 0 <= j < i ==> #[trigger] out@[j] as int == allocation(w, total as int, j),
                forall|j: int| 0 <= j < i ==> #[trigger] out@[j] <= total,
            decreases n - i,
        {
            out.push(0);
            i = i + 1;
        }
        return out;
    }
    // whole parts and left-over parts
    let mut floors: Vec<u128> = Vec::new();
    let mut rems: Vec<u128> = Vec::new();
    let mut i: usize = 0;
    while i < n
        invariant
            i <= n == w.len(),
            w == weights@,
            sum as int == weight_sum(w),
            sum > 0,
            sum <= u32::MAX,
            floors@.len() == i,
            rems@.len() == i,
            forall|j: int| 0 <= j < i ==> #[trigger] floors@[j] as int == share_floor(w, total as int, j),
            forall|j: int| 0 <= j < i ==> #[trigger] rems@[j] as int == share_rem(w, total as int, j),
            forall|j: int| 0 <= j < i ==> #[trigger] floors@[j] <= total,
        decreases n - i,
    {
        let wi = weights[i] as u128;
        let t = total as u128;
        assert(t * wi <= 0xFFFF_FFFF_FFFF_FFFF * 0xFFFF_FFFF) by (nonlinear_arith)
            requires
                t <= 0xFFFF_FFFF_FFFF_FFFF,
                wi <= 0xFFFF_FFFF,
        ;
        let p = t * wi;
        proof {
            lemma_weight_le_sum(w, i as int);
            assert(p / (sum as u128) <= t) by (nonlinear_arith)
                requires
                    p == t * wi,
                    wi <= sum,
                    sum > 0,
            ;
        }
        floors.push(p / (sum as u128));
        rems.push(p % (sum as u128));
        i = i + 1;
    }
    // how many copies the whole parts leave over
    let mut given: u128 = 0;
    let mut j: usize = 0;
    while j < n
        invariant
            j <= n == w.len(),
            floors@.len() == n,
            forall|q: int| 0 <= q < n ==> #[trigger] floors@[q] as int == share_floor(w, total as int, q),
            forall|q: int| 0 <= q < n ==> #[trigger] floors@[q] <= total,
            given as int == floors_upto(w, total as int, j as int),
            forall|q: int| 0 <= q < j ==> #[trigger] floors@[q] <= given,
            given * (sum as int) <= (total as int) * weight_sum(w.take(j as int)),
            weight_sum(w.take(j as int)) <= weight_sum(w),
            sum as int == weight_sum(w),
            sum > 0,
            total <= 0xFFFF_FFFF_FFFF_FFFF,
        decreases n - j,
    {
        proof {
            let ws = weight_sum(w.take(j as int));
            assert(w.take(j + 1).drop_last() =~= w.take(j as int));
            assert(w.take(j + 1).last() == w[j as int]);
            lemma_weight_sum_prefix(w, j + 1);
            let fj = floors@[j as int] as int;
            assert(fj == ((total as int) * w[j as int]) / (sum as int));
            assert(fj * (sum as int) <= (total as int) * w[j as int]) by (nonlinear_arith)
                requires
                    fj == ((total as int) * w[j as int]) / (sum as int),
                    sum > 0,
            ;
            assert((given + fj) * (sum as int) <= (total as int) * (ws + w[j as int])) by (nonlinear_arith)
                requires
                    given * (sum as int) <= (total as int) * ws,
                    fj * (sum as int) <= (total as int) * w[j as int],
            ;
            assert(given + fj <= total) by (nonlinear_arith)
                requires
                    (given + fj) * (sum as int) <= (total as int) * (ws + w[j as int]),
                    ws + w[j as int] <= sum,
                    sum > 0,
                    total >= 0,
            ;
        }
        given = given + floors[j];
        j = j + 1;
    }
    proof {
        assert(w.take(j as int) =~= w);
        assert(given <= total) by (nonlinear_arith)
            requires
                given * (sum as int) <= (total as int) * (sum as int),
                sum > 0,
        ;
    }
    let rem_total: u128 = (total as u128) - given;
    // hand out the left-over copies by rank
    let mut a: usize = 0;
    while a < n
        invariant
            a <= n == w.len(),
            floors@.len() == n,
            rems@.len() == n,
            total > 0,
            weight_sum(w) > 0,
            forall|q: int| 0 <= q < n ==> #[trigger] floors@[q] as int == share_floor(w, total as int, q),
            forall|q: int| 0 <= q < n ==> #[trigger] rems@[q] as int == share_rem(w, total as int, q),
            forall|q: int| 0 <= q < n ==> #[trigger] floors@[q] <= total,
            rem_total as int == left_over(w, total as int),
            given <= total,
            forall|q: int| 0 <= q < n ==> #[trigger] floors@[q] <= given,
            given as int == floors_upto(w, total as int, n as int),
            rem_total as int == total - given,
            out@.len() == a,
            forall|q: int| 0 <= q < a ==> #[trigger] out@[q] <= total,
            forall|q: int| 0 <= q < a ==> #[trigger] out@[q] as int == allocation(w, total as int, q),
        decreases n - a,
    {
        let ra = rems[a];
        let mut rank: usize = 0;
        let mut b: usize = 0;
        while b < n
            invariant
                b <= n == w.len(),
                rems@.len() == n,
                ra as int == share_rem(w, total as int, a as int),
                a < n,
                forall|q: int| 0 <= q < n ==> #[trigger] rems@[q] as int == share_rem(w, total as int, q),
                rank as int == rank_upto(w, total as int, a as int, b as int),
                rank <= b,
            decreases n - b,
        {
            if rems[b] > ra || (rems[b] == ra && b < a) {
                rank = rank + 1;
            }
            b = b + 1;
        }
        let extra: usize = if (rank as u128) < rem_total { 1 } else { 0 };
        assert(floors@[a as int] + extra <= total);
        out.push((floors[a] as usize) + extra);
        a = a + 1;
    }
    out
}

proof fn lemma_weight_sum_prefix(w: Seq<u32>, k: int)
    requires
        0 <= k <= w.len(),
    ensures
        weight_sum(w.take(k)) <= weight_sum(w),
    decreases w.len() - k,
{
    if k < w.len() {
        lemma_weight_sum_prefix(w, k + 1);
        assert(w.take(k + 1).drop_last() =~= w.take(k));
    } else {
        assert(w.take(k) =~= w);
    }
}

proof fn lemma_weight_le_sum(w: Seq<u32>, i: int)
    requires
        0 <= i < w.len(),
    ensures
        w[i] <= weight_sum(w),
    decreases w.len(),
{
    lemma_weight_sum_nonneg(w.drop_last());
    if i < w.len() - 1 {
        lemma_weight_le_sum(w.drop_last(), i);
    }
}

/// Copies that must win: `percent` of `total`, rounded half up, at least one
/// and at most all (none of none). 2 at 50% → 1; 100 at 20% → 20.
pub open spec fn winners(total: int, percent: int) -> int {
    if total == 0 {
        0
    } else {
        let v = (total * percent + 50) / 100;
        if v < 1 {
            1
        } else if v > total {
            total
        } else {
            v
        }
    }
}

/// How many copies must win.
pub fn wanted_winners(total: usize, percent: u32) -> (r: usize)
    requires
        total * percent + 50 <= usize::MAX,
    ensures
        r as int == winners(total as int, percent as int),
{
    if total == 0 {
        return 0;
    }
    let v = (total * (percent as usize) + 50) / 100;
    if v < 1 {
        1
    } else if v > total {
        total
    } else {
        v
    }
}

/// Copies created for a type, and how many of them win its waterfall.
#[derive(Clone, Copy, Debug, PartialEq, Eq, Structural)]
pub struct TypeMix {
    pub copies: usize,
    pub activate: usize,
}

impl TypeMix {
    /// `copies` copies, `activate_percent` of which win.
    pub fn from_copies(copies: usize, activate_percent: u32) -> (r: TypeMix)
        requires
            copies * activate_percent + 50 <= usize::MAX,
        ensures
            r.copies == copies,
            r.activate as int == winners(copies as int, activate_percent as int),
    {
        TypeMix { copies, activate: wanted_winners(copies, activate_percent) }
    }
}

/// Split `total` copies by weight, then apply the activate percentage to
/// each type's share.
pub fn allocate_mix(weights: &[u32], total: usize, activate_percent: u32) -> (r: Vec<TypeMix>)
    requires
        weight_sum(weights@) <= u32::MAX,
        total * activate_percent + 50 <= usize::MAX,
    ensures
        r@.len() == weights@.len(),
        forall|i: int| 0 <= i < weights@.len() ==> {
            &&& (#[trigger] r@[i]).copies as int == allocation(weights@, total as int, i)
            &&& r@[i].activate as int == winners(allocation(weights@, total as int, i), activate_percent as int)
        },
{
    let counts = allocate_copies(weights, total);
    let mut out: Vec<TypeMix> = Vec::new();
    let mut i: usize = 0;
    while i < counts.len()
        invariant
            i <= counts@.len(),
            counts@.len() == weights@.len(),
            forall|q: int| 0 <= q < weights@.len() ==> #[trigger] counts@[q] as int == allocation(weights@, total as int, q),
            forall|q: int| 0 <= q < weights@.len() ==> #[trigger] counts@[q] <= total,
            total * activate_percent + 50 <= usize::MAX,
            out@.len() == i,
            forall|q: int| 0 <= q < i ==> {
                &&& (#[trigger] out@[q]).copies as int == allocation(weights@, total as int, q)
                &&& out@[q].activate as int == winners(allocation(weights@, total as int, q), activate_percent as int)
            },
        decreases counts@.len() - i,
    {
        proof {
            assert(counts@[i as int] * activate_percent <= total * activate_percent) by (nonlinear_arith)
                requires
                    counts@[i as int] <= total,
            ;
        }
        out.push(TypeMix::from_copies(counts[i], activate_percent));
        i = i + 1;
    }
    out
}

/// `n` split into `min(k, n)` nearly equal parts, larger parts first; none
/// for `n == 0` or `k == 0`.
pub open spec fn part_size(n: int, k: int, i: int) -> int {
    let kk = if k < n { k } else { n };
    if i < n % kk { n / kk + 1 } else { n / kk }
}

/// `n` split into `min(k, n)` nearly equal parts, larger parts first.
pub fn partition_sizes(n: usize, k: usize) -> (r: Vec<usize>)
    ensures
        (n == 0 || k == 0) ==> r@.len() == 0,
        !(n == 0 || k == 0) ==> r@.len() == (if k < n { k } else { n }),
        !(n == 0 || k == 0) ==> forall|i: int| 0 <= i < r@.len() ==> #[trigger] r@[i] as int == part_size(n as int, k as int, i),
{
    let mut out: Vec<usize> = Vec::new();
    if n == 0 || k == 0 {
        return out;
    }
    let kk = if k < n { k } else { n };
    let base = n / kk;
    let extra = n % kk;
    let mut i: usize = 0;
    while i < kk
        invariant
            i <= kk,
            kk == (if k < n { k } else { n }),
            kk >= 1,
            base == n / kk,
            extra == n % kk,
            base <= n,
            out@.len() == i,
            forall|q: int| 0 <= q < i ==> #[trigger] out@[q] as int == part_size(n as int, k as int, q),
        decreases kk - i,
    {
        if i < extra {
            assert(base + 1 <= n) by (nonlinear_arith)
                requires
                    base == n / kk,
                    extra == n % kk,
                    i < extra,
                    kk >= 1,
            ;
            out.push(base + 1);
        } else {
            out.push(base);
        }
        i = i + 1;
    }
    out
}

// ---------------------------------------------------------------------------
// Copy names
// ---------------------------------------------------------------------------

/// `name` without an editor `*N*` suffix, if it has one.
pub open spec fn strip_star(t: Seq<char>) -> Option<Seq<char>> {
    if t.len() == 0 || t.last() != '*' {
        None
    } else {
        let inner = t.subrange(0, t.len() - 1);
        let st = rfind_char(inner, '*');
        if st < 0 {
            None
        } else {
            let digits = inner.subrange(st + 1, inner.len() as int);
            if digits.len() == 0 || !all_digits(digits) {
                None
            } else {
                Some(inner.subrange(0, st))
            }
        }
    }
}

/// `name` without a generator `[N]` suffix, if it has one.
pub open spec fn strip_bracket(t: Seq<char>) -> Option<Seq<char>> {
    let open = rfind_char(t, '[');
    let close = rfind_char(t, ']');
    if open < 0 || close < 0 || close != t.len() - 1 || close <= open + 1 {
        None
    } else if !all_digits(t.subrange(open + 1, close)) {
        None
    } else {
        Some(t.subrange(0, open))
    }
}

/// Template name of a copy: trimmed, with an editor `*N*` or a generator
/// `[N]` suffix removed, trailing spaces dropped.
pub open spec fn copy_type_of(name: Seq<char>) -> Seq<char> {
    let t = trim(name);
    let stripped = match strip_star(t) {
        Some(x) => x,
        None => match strip_bracket(t) {
            Some(x) => x,
            None => t,
        },
    };
    trim_end(stripped)
}

pub(crate) fn star_end(cs: &Vec<char>, a: usize, b: usize) -> (r: Option<usize>)
    requires
        a <= b <= cs@.len(),
    ensures
        r matches Some(e) ==> a <= e <= b && strip_star(cs@.subrange(a as int, b as int)) == Some(cs@.subrange(a as int, e as int)),
        r is None ==> strip_star(cs@.subrange(a as int, b as int)) is None,
{
    let ghost t = cs@.subrange(a as int, b as int);
    if b > a && cs[b - 1] == '*' {
        let ghost inner = cs@.subrange(a as int, b - 1);
        proof {
            assert(t.last() == cs@[b - 1]);
            assert(t.subrange(0, t.len() - 1) =~= inner);
            lemma_rfind_bounds(inner, '*');
        }
        match rfind_in(&cs, a, b - 1, '*') {
            Some(st) => {
                let sp = a + st;
                proof {
                    assert(inner.subrange(st + 1, inner.len() as int) =~= cs@.subrange(sp + 1, b - 1));
                }
                if sp + 1 < b - 1 && all_digits_in(&cs, sp + 1, b - 1) {
                    proof {
                        assert(inner.subrange(0, st as int) =~= cs@.subrange(a as int, sp as int));
                    }
                    return Some(sp);
                }
                None
            },
            None => None,
        }
    } else {
        None
    }
}

pub(crate) fn bracket_end(cs: &Vec<char>, a: usize, b: usize) -> (r: Option<usize>)
    requires
        a <= b <= cs@.len(),
    ensures
        r matches Some(e) ==> a <= e <= b && strip_bracket(cs@.subrange(a as int, b as int)) == Some(cs@.subrange(a as int, e as int)),
        r is None ==> strip_bracket(cs@.subrange(a as int, b as int)) is None,
{
    let ghost t = cs@.subrange(a as int, b as int);
    proof {
        lemma_rfind_bounds(t, '[');
        lemma_rfind_bounds(t, ']');
    }
    match (rfind_in(&cs, a, b, '['), rfind_in(&cs, a, b, ']')) {
        (Some(open), Some(close)) => {
            if close + 1 == b - a && close > open + 1 {
                let op = a + open;
                proof {
                    assert(t.subrange(open + 1, close as int) =~= cs@.subrange(op + 1, b - 1));
                }
                if all_digits_in(&cs, op + 1, b - 1) {
                    proof {
                        assert(t.subrange(0, open as int) =~= cs@.subrange(a as int, op as int));
                    }
                    return Some(op);
                }
            }
            None
        },
        _ => None,
    }
}

/// Name shared by all copies of one template: generator `[3]` and editor
/// `*3*` suffixes removed.
pub fn copy_type_name(name: &str) -> (r: String)
    ensures
        r@ == copy_type_of(name@),
{
    let cs = chars_of(name);
    let len = cs.len();
    let a = skip_ws_range(&cs, 0, len);
    let b = trim_end_range(&cs, a, len);
    let ghost t = cs@.subrange(a as int, b as int);
    proof {
        assert(cs@.subrange(0, len as int) =~= name@);
        assert(crate::text::trim_start(name@) =~= cs@.subrange(a as int, len as int));
        assert(trim(name@) =~= t);
    }
    let end = match star_end(&cs, a, b) {
        Some(e) => e,
        None => match bracket_end(&cs, a, b) {
            Some(e) => e,
            None => b,
        },
    };
    let e = trim_end_range(&cs, a, end);
    string_from_range(&cs, a, e)
}

} // verus!
