//! Link arrays read back as written.

use vstd::prelude::*;
use crate::ast::int_array_text;
use crate::parser::int_array;

verus! {

/// What `format_int_array` writes, `parse_integer_array` reads back: the
/// same ids, with nothing left over.
pub proof fn law_int_array_reads_back(ids: Seq<i32>)
    ensures
        int_array(int_array_text(ids), 0) == Some((int_array_text(ids).len() as int, ids)),
{
    let v = int_array_text(ids);
    assert(v.subrange(0, v.len() as int) =~= v);
    crate::serialize::round_trip::lemma_array_at(v, 0, ids);
}

} // verus!
