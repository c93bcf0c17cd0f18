//! Integer side of the placement grid and the seeded hashing that spreads
//! copies over candidate spots.

use vstd::prelude::*;

verus! {

/// Side of the smallest square grid holding `count` copies (at least one):
/// the least `s` with `s * s >= max(count, 1)`.
pub open spec fn is_grid_side(count: int, s: int) -> bool {
    let n = if count < 1 { 1 } else { count };
    s >= 1 && s * s >= n && (s - 1) * (s - 1) < n
}

/// Side length of the square that holds `count` copies: 2 → 2, 4 → 2,
/// 9 → 3, 93 → 10.
pub fn grid_side(count: usize) -> (r: usize)
    ensures
        is_grid_side(count as int, r as int),
{
    let n: u128 = if count < 1 { 1 } else { count as u128 };
    // least s in [1, 2^32] with s * s >= n
    let mut lo: u128 = 1;
    let mut hi: u128 = 0x1_0000_0000;
    assert(hi * hi >= n) by (nonlinear_arith)
        requires
            hi == 0x1_0000_0000,
            n <= 0xFFFF_FFFF_FFFF_FFFF,
    ;
    while lo < hi
        invariant
            1 <= lo <= hi <= 0x1_0000_0000,
            1 <= n <= 0xFFFF_FFFF_FFFF_FFFF,
            hi * hi >= n,
            (lo - 1) * (lo - 1) < n,
        decreases hi - lo,
    {
        let mid = lo + (hi - lo) / 2;
        assert(mid * mid <= 0x1_0000_0000 * 0x1_0000_0000) by (nonlinear_arith)
            requires
                mid <= 0x1_0000_0000,
        ;
        if mid * mid >= n {
            hi = mid;
        } else {
            lo = mid + 1;
        }
    }
    assert(lo * lo <= 0x1_0000_0000 * 0x1_0000_0000) by (nonlinear_arith)
        requires
            lo <= 0x1_0000_0000,
    ;
    assert(lo <= count || lo == 1) by (nonlinear_arith)
        requires
            (lo - 1) * (lo - 1) < n,
            lo >= 1,
            n == (if count < 1 { 1 } else { count as int }),
    ;
    lo as usize
}

/// `x` rotated left by 17 bits.
pub open spec fn rotl17(x: u64) -> u64 {
    (x << 17u64) | (x >> 47u64)
}

pub open spec fn wmul(a: u64, b: u64) -> u64 {
    ((a as int * b as int) % 0x1_0000_0000_0000_0000) as u64
}

/// The 64-bit mix of a seed and an index (a SplitMix-style finalizer).
pub open spec fn mix_spec(seed: u64, index: u64) -> u64 {
    let n0 = seed ^ wmul(index, 0x9E37_79B9_7F4A_7C15) ^ rotl17(index);
    let n1 = n0 ^ (n0 >> 30u64);
    let n2 = wmul(n1, 0xBF58_476D_1CE4_E5B9);
    let n3 = n2 ^ (n2 >> 27u64);
    let n4 = wmul(n3, 0x94D0_49BB_1331_11EB);
    n4 ^ (n4 >> 31u64)
}

fn wrapping_mul64(a: u64, b: u64) -> (r: u64)
    ensures
        r == wmul(a, b),
{
    let x = a as u128;
    let y = b as u128;
    assert(x * y <= 0xFFFF_FFFF_FFFF_FFFF * 0xFFFF_FFFF_FFFF_FFFF) by (nonlinear_arith)
        requires
            x <= 0xFFFF_FFFF_FFFF_FFFF,
            y <= 0xFFFF_FFFF_FFFF_FFFF,
    ;
    let p: u128 = x * y;
    assert(p == a as int * b as int);
    (p % 0x1_0000_0000_0000_0000u128) as u64
}

/// Mix `seed` and `index` into a 64-bit value.
pub fn mix_index(seed: u64, index: u64) -> (r: u64)
    ensures
        r == mix_spec(seed, index),
{
    let rot = (index << 17u64) | (index >> 47u64);
    let mut n = seed ^ wrapping_mul64(index, 0x9E37_79B9_7F4A_7C15) ^ rot;
    n = n ^ (n >> 30u64);
    n = wrapping_mul64(n, 0xBF58_476D_1CE4_E5B9);
    n = n ^ (n >> 27u64);
    n = wrapping_mul64(n, 0x94D0_49BB_1331_11EB);
    n = n ^ (n >> 31u64);
    n
}

/// `items[mix_index(seed, index) % len]`, or `None` for no items.
pub fn hashed_pick<'a, T>(items: &'a [T], seed: u64, index: u64) -> (r: Option<&'a T>)
    ensures
        items@.len() == 0 ==> r is None,
        items@.len() > 0 ==> r == Some(&items@[(mix_spec(seed, index) as int % items@.len() as int)]),
{
    if items.len() == 0 {
        return None;
    }
    let h = mix_index(seed, index);
    let i = (h % (items.len() as u64)) as usize;
    Some(&items[i])
}

} // verus!
