//! Country choice for fighter packs placed on the base map.

use vstd::prelude::*;

verus! {

/// Country of a pack: for the eastern side the selected country when it is
/// an eastern one (5xx), else North Korea (501); 601 for the UN side.
pub open spec fn coalition_country(eastern: bool, selected: i32) -> i32 {
    if eastern {
        if 500 <= selected <= 599 {
            selected
        } else {
            501
        }
    } else {
        601
    }
}

/// Country to stamp on a pack placed for one coalition.
pub fn country_for_coalition(eastern: bool, selected: i32) -> (r: i32)
    ensures
        r == coalition_country(eastern, selected),
{
    if eastern {
        if selected / 100 == 5 {
            selected
        } else {
            501
        }
    } else {
        601
    }
}

} // verus!
