//! How many copies of a template can win the waterfall.

use vstd::prelude::*;
use crate::flights::random_pct_spec;
use crate::recon::generate::{group_layout, unit_layout};
use crate::recon::{part_size, winners};

verus! {

/// Copies that close their group: the last of each group.
pub open spec fn group_ends(s: Seq<(int, int)>) -> int
    decreases s.len(),
{
    if s.len() == 0 {
        0
    } else {
        group_ends(s.drop_last()) + if s.last().0 + 1 == s.last().1 { 1int } else { 0int }
    }
}

proof fn lemma_group_ends_concat(a: Seq<(int, int)>, b: Seq<(int, int)>)
    ensures
        group_ends(a + b) == group_ends(a) + group_ends(b),
    decreases b.len(),
{
    if b.len() > 0 {
        lemma_group_ends_concat(a, b.drop_last());
        assert((a + b).drop_last() =~= a + b.drop_last());
        assert((a + b).last() == b.last());
    } else {
        assert(a + b =~= a);
    }
}

proof fn lemma_one_group(sz: int, m: int)
    requires
        0 <= m <= sz,
    ensures
        group_ends(Seq::new(m as nat, |l: int| (l, sz))) == if m == sz && sz > 0 { 1int } else { 0int },
    decreases m,
{
    if m > 0 {
        lemma_one_group(sz, m - 1);
        assert(Seq::new(m as nat, |l: int| (l, sz)).drop_last() =~= Seq::new((m - 1) as nat, |l: int| (l, sz)));
    }
}

proof fn lemma_group_layout_ends(n: int, k: int, g: int)
    requires
        n >= 1,
        k >= 1,
        0 <= g <= (if k < n { k } else { n }),
    ensures
        group_ends(group_layout(n, k, g)) == g,
    decreases g,
{
    if g > 0 {
        lemma_group_layout_ends(n, k, g - 1);
        let kk = if k < n { k } else { n };
        let sz = part_size(n, k, g - 1);
        assert(n / kk >= 1) by (nonlinear_arith)
            requires
                1 <= kk <= n,
        ;
        lemma_group_ends_concat(group_layout(n, k, g - 1), Seq::new(sz as nat, |l: int| (l, sz)));
        lemma_one_group(sz, sz);
    }
}

/// Of the `n` copies of a template placed at `pct` percent, exactly
/// `winners(n, pct)` end a waterfall group, and the Random timer that ends a
/// group always fires (100%): so exactly that many copies win, one per
/// group, and the others are deleted.
pub proof fn law_winners_per_template(n: int, pct: int)
    requires
        n >= 0,
        1 <= pct <= 100,
    ensures
        group_ends(unit_layout(n, pct)) == winners(n, pct),
        forall|j: int|
            0 <= j < unit_layout(n, pct).len() && #[trigger] unit_layout(n, pct)[j].0 + 1 == unit_layout(n, pct)[j].1
                ==> random_pct_spec(unit_layout(n, pct)[j].0, unit_layout(n, pct)[j].1) == 100,
{
    let k = winners(n, pct);
    if n > 0 {
        assert(1 <= k <= n);
        lemma_group_layout_ends(n, k, k);
    }
    let ul = unit_layout(n, pct);
    assert forall|j: int| 0 <= j < ul.len() && #[trigger] ul[j].0 + 1 == ul[j].1 implies random_pct_spec(ul[j].0, ul[j].1)
        == 100 by {
        assert(ul[j].1 - ul[j].0 == 1);
        assert((100 + 1int / 2) / 1int == 100);
    }
}

} // verus!
