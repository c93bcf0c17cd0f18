//! IL-2 group language sidecars (`.eng`, `.chs`, …).
//!
//! MCU_Icon / MCU_TR_Subtitle store numeric LC indexes; the strings live in
//! a sidecar next to the `.Group`, one `id:text` line per entry. Sidecars
//! are UTF-16 LE with a BOM.

use vstd::prelude::*;
use vstd::utf8::{decode_utf8, valid_utf8};
use crate::text::{
    chars_of, int_text, is_ascii_digit, lemma_int_text_parses, owned, parse_i32_range, parse_i32_spec, push_char, push_int, push_str,
    str_eq, string_from_range, trim_end_all, trim_end_all_range,
};

verus! {

/// Entries of a table, by increasing id.
pub type Listing = Seq<(i32, Seq<char>)>;

/// Ids strictly increase along the listing (so each id occurs once).
pub open spec fn sorted_ids(s: Listing) -> bool {
    forall|i: int, j: int| 0 <= i < j < s.len() ==> s[i].0 < s[j].0
}

/// Text stored under `id`.
pub open spec fn lookup(s: Listing, id: i32) -> Option<Seq<char>>
    decreases s.len(),
{
    if s.len() == 0 {
        None
    } else if s[0].0 == id {
        Some(s[0].1)
    } else {
        lookup(s.drop_first(), id)
    }
}

/// `s` with `id` set to `t`: replaced in place, or inserted where the id
/// order puts it.
pub open spec fn ins(s: Listing, id: i32, t: Seq<char>) -> Listing
    decreases s.len(),
{
    if s.len() == 0 {
        seq![(id, t)]
    } else if s[0].0 == id {
        seq![(id, t)] + s.drop_first()
    } else if s[0].0 > id {
        seq![(id, t)] + s
    } else {
        seq![s[0]] + ins(s.drop_first(), id, t)
    }
}

/// `s` after `merge(o)`: each entry of `o`, in order, is added only when its
/// id is still missing.
pub open spec fn merged(s: Listing, o: Listing) -> Listing
    decreases o.len(),
{
    if o.len() == 0 {
        s
    } else {
        let m = merged(s, o.drop_last());
        if lookup(m, o.last().0) is Some {
            m
        } else {
            ins(m, o.last().0, o.last().1)
        }
    }
}

/// `s` after `overlay(o)`: each entry of `o`, in order, replaces or adds.
pub open spec fn overlaid(s: Listing, o: Listing) -> Listing
    decreases o.len(),
{
    if o.len() == 0 {
        s
    } else {
        let m = overlaid(s, o.drop_last());
        ins(m, o.last().0, o.last().1)
    }
}

pub proof fn lemma_lookup_found(s: Listing, k: int)
    requires
        sorted_ids(s),
        0 <= k < s.len(),
    ensures
        lookup(s, s[k].0) == Some(s[k].1),
    decreases s.len(),
{
    if k > 0 {
        lemma_sorted_tail(s);
        lemma_lookup_found(s.drop_first(), k - 1);
    }
}

pub proof fn lemma_lookup_some(s: Listing, id: i32)
    ensures
        lookup(s, id) is Some <==> exists|k: int| 0 <= k < s.len() && s[k].0 == id,
        lookup(s, id) is Some ==> exists|k: int| 0 <= k < s.len() && s[k].0 == id && lookup(s, id) == Some(s[k].1),
    decreases s.len(),
{
    if s.len() > 0 {
        lemma_lookup_some(s.drop_first(), id);
        if s[0].0 != id {
            if exists|k: int| 0 <= k < s.len() && s[k].0 == id {
                let k = choose|k: int| 0 <= k < s.len() && s[k].0 == id;
                assert(s.drop_first()[k - 1].0 == id);
            }
            if lookup(s, id) is Some {
                let k = choose|k: int| 0 <= k < s.drop_first().len() && s.drop_first()[k].0 == id && lookup(s.drop_first(), id) == Some(s.drop_first()[k].1);
                assert(s[k + 1] == s.drop_first()[k]);
            }
        }
    }
}

pub proof fn lemma_sorted_tail(s: Listing)
    requires
        sorted_ids(s),
        s.len() > 0,
    ensures
        sorted_ids(s.drop_first()),
        sorted_ids(s.drop_last()),
{
    assert forall|i: int, j: int| 0 <= i < j < s.drop_first().len() implies s.drop_first()[i].0 < s.drop_first()[j].0 by {
        assert(s.drop_first()[i] == s[i + 1]);
        assert(s.drop_first()[j] == s[j + 1]);
    }
    assert forall|i: int, j: int| 0 <= i < j < s.drop_last().len() implies s.drop_last()[i].0 < s.drop_last()[j].0 by {
        assert(s.drop_last()[i] == s[i]);
        assert(s.drop_last()[j] == s[j]);
    }
}

/// What `ins` does to the listing: it stays sorted, and only `id` changes.
pub proof fn lemma_ins(s: Listing, id: i32, t: Seq<char>)
    requires
        sorted_ids(s),
    ensures
        sorted_ids(ins(s, id, t)),
        forall|k: i32| #[trigger] lookup(ins(s, id, t), k) == (if k == id { Some(t) } else { lookup(s, k) }),
        forall|k: int| 0 <= k < ins(s, id, t).len() ==> (ins(s, id, t)[k].0 == id || exists|j: int| 0 <= j < s.len() && #[trigger] s[j].0 == ins(s, id, t)[k].0),
    decreases s.len(),
{
    let r = ins(s, id, t);
    if s.len() == 0 {
        assert forall|k: i32| #[trigger] lookup(r, k) == (if k == id { Some(t) } else { lookup(s, k) }) by {
            assert(r.drop_first().len() == 0);
            assert(lookup(r.drop_first(), k) is None);
        }
    } else if s[0].0 == id {
        lemma_sorted_tail(s);
        assert(r.drop_first() =~= s.drop_first());
        assert forall|k: i32| #[trigger] lookup(r, k) == (if k == id { Some(t) } else { lookup(s, k) }) by {
            if k != id {
                assert(lookup(r, k) == lookup(r.drop_first(), k));
                assert(lookup(s, k) == lookup(s.drop_first(), k));
            }
        }
        assert forall|i: int, j: int| 0 <= i < j < r.len() implies r[i].0 < r[j].0 by {
            if i > 0 {
                assert(r[i] == s[i]);
            }
            assert(r[j] == s[j]);
        }
        assert forall|k: int| 0 <= k < r.len() implies (r[k].0 == id || exists|j: int| 0 <= j < s.len() && #[trigger] s[j].0 == r[k].0) by {
            if k > 0 {
                assert(r[k] == s[k]);
            }
        }
    } else if s[0].0 > id {
        assert(r.drop_first() =~= s);
        assert forall|i: int, j: int| 0 <= i < j < r.len() implies r[i].0 < r[j].0 by {
            if i > 0 {
                assert(r[i] == s[i - 1]);
            }
            assert(r[j] == s[j - 1]);
        }
        assert forall|k: i32| #[trigger] lookup(r, k) == (if k == id { Some(t) } else { lookup(s, k) }) by {
            if k != id {
                assert(lookup(r, k) == lookup(s, k));
            }
        }
        assert forall|k: int| 0 <= k < r.len() implies (r[k].0 == id || exists|j: int| 0 <= j < s.len() && #[trigger] s[j].0 == r[k].0) by {
            if k > 0 {
                assert(r[k] == s[k - 1]);
            }
        }
    } else {
        let tl = s.drop_first();
        lemma_sorted_tail(s);
        lemma_ins(tl, id, t);
        let rt = ins(tl, id, t);
        assert(r.drop_first() =~= rt);
        assert forall|i: int, j: int| 0 <= i < j < r.len() implies r[i].0 < r[j].0 by {
            if i == 0 {
                assert(r[j] == rt[j - 1]);
                if rt[j - 1].0 != id {
                    let q = choose|q: int| 0 <= q < tl.len() && #[trigger] tl[q].0 == rt[j - 1].0;
                    assert(tl[q] == s[q + 1]);
                }
            } else {
                assert(r[i] == rt[i - 1]);
                assert(r[j] == rt[j - 1]);
            }
        }
        assert forall|k: i32| #[trigger] lookup(r, k) == (if k == id { Some(t) } else { lookup(s, k) }) by {
            assert(lookup(r, k) == (if s[0].0 == k { Some(s[0].1) } else { lookup(rt, k) }));
        }
        assert forall|k: int| 0 <= k < r.len() implies (r[k].0 == id || exists|j: int| 0 <= j < s.len() && #[trigger] s[j].0 == r[k].0) by {
            if k > 0 {
                assert(r[k] == rt[k - 1]);
                if rt[k - 1].0 != id {
                    let q = choose|q: int| 0 <= q < tl.len() && #[trigger] tl[q].0 == rt[k - 1].0;
                    assert(tl[q] == s[q + 1]);
                }
            } else {
                assert(s[0].0 == r[0].0);
            }
        }
    }
}

proof fn lemma_lookup_drop_last(o: Listing, k: i32)
    requires
        sorted_ids(o),
        o.len() > 0,
    ensures
        lookup(o, k) == (if k == o.last().0 { Some(o.last().1) } else { lookup(o.drop_last(), k) }),
        lookup(o.drop_last(), o.last().0) is None,
    decreases o.len(),
{
    lemma_lookup_some(o.drop_last(), o.last().0);
    if lookup(o.drop_last(), o.last().0) is Some {
        let j = choose|j: int| 0 <= j < o.drop_last().len() && o.drop_last()[j].0 == o.last().0;
        assert(o.drop_last()[j] == o[j]);
        assert(o[j].0 < o[o.len() - 1].0);
    }
    if o.len() == 1 {
        assert(o.drop_last().len() == 0);
        assert(o.drop_first().len() == 0);
        assert(o.last() == o[0]);
        assert(lookup(o.drop_first(), k) is None);
        assert(lookup(o.drop_last(), k) is None);
    } else if o[0].0 == k {
        assert(o.drop_last()[0] == o[0]);
        assert(o[0].0 < o[o.len() - 1].0);
    } else {
        lemma_sorted_tail(o);
        lemma_lookup_drop_last(o.drop_first(), k);
        assert(o.drop_first().drop_last() =~= o.drop_last().drop_first());
        assert(o.drop_first().last() == o.last());
        assert(o.drop_last()[0] == o[0]);
    }
}

proof fn lemma_merged_sorted(s: Listing, o: Listing)
    requires
        sorted_ids(s),
    ensures
        sorted_ids(merged(s, o)),
    decreases o.len(),
{
    if o.len() > 0 {
        lemma_merged_sorted(s, o.drop_last());
        lemma_ins(merged(s, o.drop_last()), o.last().0, o.last().1);
    }
}

proof fn lemma_overlaid_sorted(s: Listing, o: Listing)
    requires
        sorted_ids(s),
    ensures
        sorted_ids(overlaid(s, o)),
    decreases o.len(),
{
    if o.len() > 0 {
        lemma_overlaid_sorted(s, o.drop_last());
        lemma_ins(overlaid(s, o.drop_last()), o.last().0, o.last().1);
    }
}

/// Merging keeps the first value when both tables have an id: every id of
/// the result reads as in `s` when `s` has it, else as in `o`.
pub proof fn law_merge_first_wins(s: Listing, o: Listing, k: i32)
    requires
        sorted_ids(s),
        sorted_ids(o),
    ensures
        lookup(merged(s, o), k) == (if lookup(s, k) is Some { lookup(s, k) } else { lookup(o, k) }),
    decreases o.len(),
{
    if o.len() > 0 {
        lemma_sorted_tail(o);
        law_merge_first_wins(s, o.drop_last(), k);
        law_merge_first_wins(s, o.drop_last(), o.last().0);
        lemma_merged_sorted(s, o.drop_last());
        lemma_ins(merged(s, o.drop_last()), o.last().0, o.last().1);
        lemma_lookup_drop_last(o, k);
    }
}

/// Overlaying lets the second table win: every id reads as in `o` when `o`
/// has it, else as in `s`.
pub proof fn law_overlay_last_wins(s: Listing, o: Listing, k: i32)
    requires
        sorted_ids(s),
        sorted_ids(o),
    ensures
        lookup(overlaid(s, o), k) == (if lookup(o, k) is Some { lookup(o, k) } else { lookup(s, k) }),
    decreases o.len(),
{
    if o.len() > 0 {
        lemma_sorted_tail(o);
        law_overlay_last_wins(s, o.drop_last(), k);
        lemma_overlaid_sorted(s, o.drop_last());
        lemma_ins(overlaid(s, o.drop_last()), o.last().0, o.last().1);
        lemma_lookup_drop_last(o, k);
    }
}

/// A language table: LC index → text, kept ordered by index.
#[derive(Debug, PartialEq, Eq)]
pub struct LocaleTable {
    entries: Vec<(i32, String)>,
}

impl View for LocaleTable {
    type V = Listing;

    closed spec fn view(&self) -> Listing {
        self.entries@.map_values(|e: (i32, String)| (e.0, e.1@))
    }
}

impl LocaleTable {
    #[verifier::type_invariant]
    spec fn well_formed(self) -> bool {
        sorted_ids(self@)
    }

    /// Every table is ordered by LC index, each index at most once; calling
    /// this hands that fact to the caller's proof (the laws on merging and
    /// overlaying ask for it).
    pub fn ordered(&self)
        ensures
            sorted_ids(self@),
    {
        proof {
            use_type_invariant(self);
        }
    }

    /// An empty table.
    pub fn new() -> (r: LocaleTable)
        ensures
            r@ == Seq::<(i32, Seq<char>)>::empty(),
    {
        let r = LocaleTable { entries: Vec::new() };
        proof {
            assert(r@ =~= Seq::<(i32, Seq<char>)>::empty());
        }
        r
    }

    /// First position whose id is not below `id`.
    fn position(&self, id: i32) -> (r: usize)
        ensures
            r <= self@.len(),
            forall|j: int| 0 <= j < r ==> #[trigger] self@[j].0 < id,
            r < self@.len() ==> self@[r as int].0 >= id,
    {
        proof {
            use_type_invariant(self);
        }
        let mut i: usize = 0;
        while i < self.entries.len()
            invariant
                i <= self@.len(),
                self@.len() == self.entries@.len(),
                forall|j: int| 0 <= j < i ==> #[trigger] self@[j].0 < id,
            decreases self.entries@.len() - i,
        {
            assert(self@[i as int].0 == self.entries@[i as int].0);
            if self.entries[i].0 >= id {
                return i;
            }
            i = i + 1;
        }
        i
    }

    /// Text stored under `id`.
    pub fn get(&self, id: i32) -> (r: Option<&str>)
        ensures
            r is Some <==> lookup(self@, id) is Some,
            r matches Some(v) ==> lookup(self@, id) == Some(v@),
    {
        proof {
            use_type_invariant(self);
            lemma_lookup_some(self@, id);
        }
        let p = self.position(id);
        if p < self.entries.len() && self.entries[p].0 == id {
            proof {
                lemma_lookup_found(self@, p as int);
            }
            Some(self.entries[p].1.as_str())
        } else {
            proof {
                if lookup(self@, id) is Some {
                    let k = choose|k: int| 0 <= k < self@.len() && self@[k].0 == id;
                    if k < p {
                    } else if k > p as int {
                        assert(self@[p as int].0 < self@[k].0);
                    }
                }
            }
            None
        }
    }

    pub fn is_empty(&self) -> (r: bool)
        ensures
            r == (self@.len() == 0),
    {
        self.entries.len() == 0
    }

    /// Highest id, if any.
    pub fn max_id(&self) -> (r: Option<i32>)
        ensures
            self@.len() == 0 ==> r is None,
            self@.len() > 0 ==> r == Some(self@.last().0),
            r matches Some(m) ==> forall|j: int| 0 <= j < self@.len() ==> #[trigger] self@[j].0 <= m,
    {
        proof {
            use_type_invariant(self);
        }
        let n = self.entries.len();
        if n == 0 {
            None
        } else {
            Some(self.entries[n - 1].0)
        }
    }

    /// Set `id` to `text`, replacing what was there.
    pub fn insert(&mut self, id: i32, text: &str)
        ensures
            final(self)@ == ins(old(self)@, id, text@),
            sorted_ids(final(self)@),
    {
        proof {
            use_type_invariant(&*self);
        }
        let p = self.position(id);
        let ghost s = self@;
        proof {
            lemma_ins(s, id, text@);
            lemma_ins_at(s, id, text@, p as int);
        }
        if p < self.entries.len() && self.entries[p].0 == id {
            let mut entries: Vec<(i32, String)> = Vec::new();
            std::mem::swap(&mut entries, &mut self.entries);
            entries.set(p, (id, owned(text)));
            proof {
                assert(entries@.map_values(|e: (i32, String)| (e.0, e.1@)) =~= ins(s, id, text@));
            }
            self.entries = entries;
        } else {
            let mut entries: Vec<(i32, String)> = Vec::new();
            std::mem::swap(&mut entries, &mut self.entries);
            entries.insert(p, (id, owned(text)));
            proof {
                assert(entries@.map_values(|e: (i32, String)| (e.0, e.1@)) =~= ins(s, id, text@));
            }
            self.entries = entries;
        }
    }

    /// Add every entry of `other` whose id is missing here: the first value
    /// wins when two templates share an LC index.
    pub fn merge(&mut self, other: LocaleTable)
        ensures
            final(self)@ == merged(old(self)@, other@),
            sorted_ids(final(self)@),
    {
        proof {
            use_type_invariant(&*self);
        }
        let ghost s = self@;
        let ghost o = other@;
        let mut i: usize = 0;
        proof {
            assert(o.take(0) =~= Seq::<(i32, Seq<char>)>::empty());
        }
        while i < other.entries.len()
            invariant
                i <= other.entries@.len(),
                o == other@,
                o.len() == other.entries@.len(),
                self@ == merged(s, o.take(i as int)),
                sorted_ids(self@),
            decreases other.entries@.len() - i,
        {
            let id = other.entries[i].0;
            proof {
                assert(o.take(i + 1).drop_last() =~= o.take(i as int));
                assert(o.take(i + 1).last() == (id, other.entries@[i as int].1@));
            }
            if self.get(id).is_none() {
                self.insert(id, other.entries[i].1.as_str());
            }
            i = i + 1;
        }
        proof {
            assert(o.take(i as int) =~= o);
        }
    }

    /// Set every entry of `other` here, replacing existing texts.
    pub fn overlay(&mut self, other: LocaleTable)
        ensures
            final(self)@ == overlaid(old(self)@, other@),
            sorted_ids(final(self)@),
    {
        proof {
            use_type_invariant(&*self);
        }
        let ghost s = self@;
        let ghost o = other@;
        let mut i: usize = 0;
        proof {
            assert(o.take(0) =~= Seq::<(i32, Seq<char>)>::empty());
        }
        while i < other.entries.len()
            invariant
                i <= other.entries@.len(),
                o == other@,
                o.len() == other.entries@.len(),
                self@ == overlaid(s, o.take(i as int)),
                sorted_ids(self@),
            decreases other.entries@.len() - i,
        {
            let id = other.entries[i].0;
            proof {
                assert(o.take(i + 1).drop_last() =~= o.take(i as int));
                assert(o.take(i + 1).last() == (id, other.entries@[i as int].1@));
            }
            self.insert(id, other.entries[i].1.as_str());
            i = i + 1;
        }
        proof {
            assert(o.take(i as int) =~= o);
        }
    }

    /// Whether some entry's text is exactly `text`.
    pub fn contains_text(&self, text: &str) -> (r: bool)
        ensures
            r == exists|j: int| 0 <= j < self@.len() && #[trigger] self@[j].1 == text@,
    {
        let mut i: usize = 0;
        while i < self.entries.len()
            invariant
                i <= self.entries@.len(),
                self@.len() == self.entries@.len(),
                forall|j: int| 0 <= j < i ==> #[trigger] self@[j].1 != text@,
            decreases self.entries@.len() - i,
        {
            assert(self@[i as int].1 == self.entries@[i as int].1@);
            if str_eq(self.entries[i].1.as_str(), text) {
                return true;
            }
            i = i + 1;
        }
        false
    }
}

impl Clone for LocaleTable {
    fn clone(&self) -> (r: Self)
        ensures
            r@ == self@,
    {
        proof {
            use_type_invariant(self);
        }
        let mut entries: Vec<(i32, String)> = Vec::new();
        let mut i: usize = 0;
        while i < self.entries.len()
            invariant
                i <= self.entries@.len(),
                self@.len() == self.entries@.len(),
                entries@.map_values(|e: (i32, String)| (e.0, e.1@)) == self@.take(i as int),
            decreases self.entries@.len() - i,
        {
            let ghost before = entries@.map_values(|e: (i32, String)| (e.0, e.1@));
            entries.push((self.entries[i].0, self.entries[i].1.clone()));
            proof {
                assert(entries@.map_values(|e: (i32, String)| (e.0, e.1@)) =~= before.push(self@[i as int]));
                assert(self@.take(i + 1) =~= self@.take(i as int).push(self@[i as int]));
            }
            i = i + 1;
        }
        proof {
            assert(self@.take(i as int) =~= self@);
        }
        LocaleTable { entries }
    }
}

impl Default for LocaleTable {
    fn default() -> (r: LocaleTable)
        ensures
            r@ == Seq::<(i32, Seq<char>)>::empty(),
    {
        LocaleTable::new()
    }
}

/// `ins` seen at the position where the id belongs.
proof fn lemma_ins_at(s: Listing, id: i32, t: Seq<char>, p: int)
    requires
        sorted_ids(s),
        0 <= p <= s.len(),
        forall|j: int| 0 <= j < p ==> #[trigger] s[j].0 < id,
        p < s.len() ==> s[p].0 >= id,
    ensures
        p < s.len() && s[p].0 == id ==> ins(s, id, t) == s.update(p, (id, t)),
        !(p < s.len() && s[p].0 == id) ==> ins(s, id, t) == s.insert(p, (id, t)),
    decreases s.len(),
{
    if p == 0 {
        if s.len() > 0 && s[0].0 == id {
            assert(seq![(id, t)] + s.drop_first() =~= s.update(0, (id, t)));
        } else {
            assert(seq![(id, t)] + s =~= s.insert(0, (id, t)));
        }
    } else {
        let tl = s.drop_first();
        lemma_sorted_tail(s);
        assert forall|j: int| 0 <= j < p - 1 implies #[trigger] tl[j].0 < id by {
            assert(tl[j] == s[j + 1]);
        }
        if p - 1 < tl.len() {
            assert(tl[p - 1] == s[p]);
        }
        lemma_ins_at(tl, id, t, p - 1);
        assert(s[0].0 < id);
        if p < s.len() && s[p].0 == id {
            assert(seq![s[0]] + tl.update(p - 1, (id, t)) =~= s.update(p, (id, t)));
        } else {
            assert(seq![s[0]] + tl.insert(p - 1, (id, t)) =~= s.insert(p, (id, t)));
        }
    }
}

// ---------------------------------------------------------------------------
// Sidecar text
// ---------------------------------------------------------------------------

/// Position of the first `c` in `s`, or its length when there is none.
pub open spec fn find_char(s: Seq<char>, c: char) -> int
    decreases s.len(),
{
    if s.len() == 0 {
        0
    } else if s[0] == c {
        0
    } else {
        1 + find_char(s.drop_first(), c)
    }
}

pub proof fn lemma_find_char_bounds(s: Seq<char>, c: char)
    ensures
        0 <= find_char(s, c) <= s.len(),
        find_char(s, c) < s.len() ==> s[find_char(s, c)] == c,
        forall|j: int| 0 <= j < find_char(s, c) ==> #[trigger] s[j] != c,
    decreases s.len(),
{
    if s.len() > 0 && s[0] != c {
        lemma_find_char_bounds(s.drop_first(), c);
        assert forall|j: int| 0 <= j < find_char(s, c) implies #[trigger] s[j] != c by {
            if j > 0 {
                assert(s[j] == s.drop_first()[j - 1]);
            }
        }
    }
}

proof fn lemma_find_char_exact(s: Seq<char>, c: char, p: int)
    requires
        0 <= p <= s.len(),
        p < s.len() ==> s[p] == c,
        forall|j: int| 0 <= j < p ==> #[trigger] s[j] != c,
    ensures
        find_char(s, c) == p,
    decreases s.len(),
{
    if s.len() > 0 && s[0] != c {
        let t = s.drop_first();
        assert forall|j: int| 0 <= j < p - 1 implies #[trigger] t[j] != c by {
            assert(t[j] == s[j + 1]);
        }
        if p - 1 < t.len() {
            assert(t[p - 1] == s[p]);
        }
        lemma_find_char_exact(t, c, p - 1);
    }
}

/// One sidecar line applied to a table: trailing `\r`s dropped, blank lines
/// and lines without `id:` skipped, else `id` set to the text after the
/// first `:`.
pub open spec fn parse_line(t: Listing, raw: Seq<char>) -> Listing {
    let l = trim_end_all(raw, seq!['\r']);
    let c = find_char(l, ':');
    if l.len() == 0 || c >= l.len() {
        t
    } else {
        match parse_i32_spec(l.subrange(0, c)) {
            Some(id) => ins(t, id, l.subrange(c + 1, l.len() as int)),
            None => t,
        }
    }
}

/// All lines of `s` (split at `\n`) applied in order.
pub open spec fn parse_text(t: Listing, s: Seq<char>) -> Listing
    decreases s.len(),
{
    let n = find_char(s, '\n');
    proof {
        lemma_find_char_bounds(s, '\n');
    }
    if n >= s.len() {
        parse_line(t, s)
    } else {
        parse_text(parse_line(t, s.subrange(0, n)), s.subrange(n + 1, s.len() as int))
    }
}

/// One `id:text` line with a CRLF end.
pub open spec fn entry_line(e: (i32, Seq<char>)) -> Seq<char> {
    int_text(e.0 as int) + seq![':'] + e.1 + seq!['\r', '\n']
}

/// Sidecar text of a listing: its lines in order.
pub open spec fn locale_text(s: Listing) -> Seq<char>
    decreases s.len(),
{
    if s.len() == 0 {
        seq![]
    } else {
        locale_text(s.drop_last()) + entry_line(s.last())
    }
}

/// First `c` in `cs[lo..hi]`, or `hi`.
fn find_in_range(cs: &Vec<char>, lo: usize, hi: usize, c: char) -> (r: usize)
    requires
        lo <= hi <= cs@.len(),
    ensures
        lo <= r <= hi,
        r - lo == find_char(cs@.subrange(lo as int, hi as int), c),
{
    let ghost s = cs@.subrange(lo as int, hi as int);
    let mut i = lo;
    while i < hi
        invariant
            lo <= i <= hi <= cs@.len(),
            s == cs@.subrange(lo as int, hi as int),
            forall|j: int| 0 <= j < i - lo ==> #[trigger] s[j] != c,
        decreases hi - i,
    {
        if cs[i] == c {
            proof {
                lemma_find_char_exact(s, c, i - lo);
            }
            return i;
        }
        i = i + 1;
    }
    proof {
        lemma_find_char_exact(s, c, i - lo);
    }
    i
}

/// Read sidecar text: one `id:text` entry per line; blank lines and lines
/// that do not start with an integer id and `:` are skipped. A later line
/// for the same id wins.
pub fn parse_locale(text: &str) -> (r: LocaleTable)
    ensures
        r@ == parse_text(seq![], text@),
        sorted_ids(r@),
{
    let cs = chars_of(text);
    let len = cs.len();
    let mut table = LocaleTable::new();
    let mut pos: usize = 0;
    proof {
        assert(cs@.subrange(0, len as int) =~= text@);
    }
    loop
        invariant
            pos <= len == cs@.len(),
            cs@ == text@,
            parse_text(seq![], text@) == parse_text(table@, cs@.subrange(pos as int, len as int)),
        decreases len - pos,
    {
        proof {
            use_type_invariant(&table);
        }
        let ghost rest = cs@.subrange(pos as int, len as int);
        let n = find_in_range(&cs, pos, len, '\n');
        let ghost line = cs@.subrange(pos as int, n as int);
        proof {
            if n < len {
                assert(rest.subrange(0, n - pos) =~= line);
                assert(rest.subrange(n - pos + 1, rest.len() as int) =~= cs@.subrange(n + 1, len as int));
            } else {
                assert(rest =~= line);
            }
        }
        let e = trim_end_all_range(&cs, pos, n, "\r");
        proof {
            assert(seq!['\r'] =~= "\r"@) by {
                reveal_strlit("\r");
            }
        }
        let ghost l = cs@.subrange(pos as int, e as int);
        if e > pos {
            let c = find_in_range(&cs, pos, e, ':');
            if c < e {
                proof {
                    assert(l.subrange(0, c - pos) =~= cs@.subrange(pos as int, c as int));
                    assert(l.subrange(c - pos + 1, l.len() as int) =~= cs@.subrange(c + 1, e as int));
                }
                match parse_i32_range(&cs, pos, c) {
                    Some(id) => {
                        let t = string_from_range(&cs, c + 1, e);
                        table.insert(id, t.as_str());
                    },
                    None => {},
                }
            }
        }
        if n == len {
            proof {
                use_type_invariant(&table);
            }
            return table;
        }
        pos = n + 1;
    }
}

/// Sidecar text of `table`: `id:text` lines by increasing id, CRLF ends.
pub fn serialize_locale(table: &LocaleTable) -> (r: String)
    ensures
        r@ == locale_text(table@),
{
    let mut out = String::new();
    let mut i: usize = 0;
    while i < table.entries.len()
        invariant
            i <= table.entries@.len(),
            table@.len() == table.entries@.len(),
            out@ == locale_text(table@.take(i as int)),
        decreases table.entries@.len() - i,
    {
        let ghost before = out@;
        push_int(&mut out, table.entries[i].0 as i64);
        push_char(&mut out, ':');
        push_str(&mut out, table.entries[i].1.as_str());
        push_char(&mut out, '\r');
        push_char(&mut out, '\n');
        proof {
            let t = table@.take(i + 1);
            assert(t.drop_last() =~= table@.take(i as int));
            assert(t.last() == table@[i as int]);
            assert(table@[i as int] == (table.entries@[i as int].0, table.entries@[i as int].1@));
            assert(out@ =~= before + entry_line(table@[i as int]));
        }
        i = i + 1;
    }
    proof {
        assert(table@.take(i as int) =~= table@);
    }
    out
}

// ---------------------------------------------------------------------------
// Sidecar bytes
// ---------------------------------------------------------------------------

pub open spec fn is_high_surrogate(u: u16) -> bool {
    0xD800 <= u <= 0xDBFF
}

pub open spec fn is_low_surrogate(u: u16) -> bool {
    0xDC00 <= u <= 0xDFFF
}

/// UTF-16 decoding: `None` when a surrogate is unpaired.
pub open spec fn decode_utf16(u: Seq<u16>) -> Option<Seq<char>>
    decreases u.len(),
{
    if u.len() == 0 {
        Some(seq![])
    } else if !is_high_surrogate(u[0]) && !is_low_surrogate(u[0]) {
        match decode_utf16(u.drop_first()) {
            Some(r) => Some(seq![(u[0] as u32) as char] + r),
            None => None,
        }
    } else if is_high_surrogate(u[0]) && u.len() >= 2 && is_low_surrogate(u[1]) {
        match decode_utf16(u.subrange(2, u.len() as int)) {
            Some(r) => Some(seq![((0x10000 + (u[0] - 0xD800) * 0x400 + (u[1] - 0xDC00)) as u32) as char] + r),
            None => None,
        }
    } else {
        None
    }
}

/// UTF-16 code units of one character.
pub open spec fn char_units(c: char) -> Seq<u16> {
    let v = c as u32;
    if v < 0x10000 {
        seq![v as u16]
    } else {
        seq![(0xD800 + (v - 0x10000) / 0x400) as u16, (0xDC00 + (v - 0x10000) % 0x400) as u16]
    }
}

/// UTF-16 encoding of a text.
pub open spec fn utf16_of(s: Seq<char>) -> Seq<u16>
    decreases s.len(),
{
    if s.len() == 0 {
        seq![]
    } else {
        char_units(s[0]) + utf16_of(s.drop_first())
    }
}

/// Code units read from byte pairs (a trailing odd byte is ignored).
pub open spec fn units_of(b: Seq<u8>, big_endian: bool) -> Seq<u16> {
    Seq::new(
        b.len() / 2,
        |k: int|
            if big_endian {
                (b[2 * k] * 256 + b[2 * k + 1]) as u16
            } else {
                (b[2 * k] + b[2 * k + 1] * 256) as u16
            },
    )
}

/// Little-endian bytes of code units.
pub open spec fn le_bytes(u: Seq<u16>) -> Seq<u8> {
    Seq::new(2 * u.len(), |i: int| if i % 2 == 0 { (u[i / 2] % 256) as u8 } else { (u[i / 2] / 256) as u8 })
}

pub open spec fn starts_with_bytes(b: Seq<u8>, p: Seq<u8>) -> bool {
    p.len() <= b.len() && b.subrange(0, p.len() as int) == p
}

/// Text of sidecar bytes: UTF-16 LE or BE after its byte-order mark, else
/// UTF-8 (after an optional BOM). `None` when the bytes are not valid text
/// in that encoding.
pub open spec fn decoded_locale(b: Seq<u8>) -> Option<Seq<char>> {
    if starts_with_bytes(b, seq![0xFFu8, 0xFEu8]) {
        decode_utf16(units_of(b.skip(2), false))
    } else if starts_with_bytes(b, seq![0xFEu8, 0xFFu8]) {
        decode_utf16(units_of(b.skip(2), true))
    } else {
        let body = if starts_with_bytes(b, seq![0xEFu8, 0xBBu8, 0xBFu8]) { b.skip(3) } else { b };
        if valid_utf8(body) {
            Some(decode_utf8(body))
        } else {
            None
        }
    }
}

/// Decodes UTF-16 code units (std's `String::from_utf16`). Claimed: `Ok`
/// exactly when no surrogate is unpaired, with the decoded text. The error
/// text is std's message and is not stated.
#[verifier::external_body]
fn string_from_utf16(units: &[u16]) -> (r: Result<String, String>)
    ensures
        r is Ok <==> decode_utf16(units@) is Some,
        r matches Ok(s) ==> decode_utf16(units@) == Some(s@),
{
    match String::from_utf16(units) {
        Ok(s) => Ok(s),
        Err(e) => Err(e.to_string()),
    }
}

/// Decodes UTF-8 bytes (std's `String::from_utf8`). Claimed: `Ok` exactly
/// when the bytes are valid UTF-8, with the decoded text. The error text is
/// std's message and is not stated.
#[verifier::external_body]
fn string_from_utf8(bytes: Vec<u8>) -> (r: Result<String, String>)
    ensures
        r is Ok <==> valid_utf8(bytes@),
        r matches Ok(s) ==> s@ == decode_utf8(bytes@),
{
    match String::from_utf8(bytes) {
        Ok(s) => Ok(s),
        Err(e) => Err(e.to_string()),
    }
}

fn bytes_from(b: &[u8], start: usize) -> (r: Vec<u8>)
    requires
        start <= b@.len(),
    ensures
        r@ == b@.skip(start as int),
{
    let mut r: Vec<u8> = Vec::new();
    let mut i = start;
    while i < b.len()
        invariant
            start <= i <= b@.len(),
            r@ == b@.subrange(start as int, i as int),
        decreases b@.len() - i,
    {
        r.push(b[i]);
        proof {
            assert(b@.subrange(start as int, i + 1) =~= b@.subrange(start as int, i as int).push(b@[i as int]));
        }
        i = i + 1;
    }
    proof {
        assert(b@.subrange(start as int, i as int) =~= b@.skip(start as int));
    }
    r
}

fn utf16_to_string(b: &[u8], start: usize, big_endian: bool) -> (r: Result<String, String>)
    requires
        start <= b@.len(),
    ensures
        r is Ok <==> decode_utf16(units_of(b@.skip(start as int), big_endian)) is Some,
        r matches Ok(s) ==> decode_utf16(units_of(b@.skip(start as int), big_endian)) == Some(s@),
{
    let ghost body = b@.skip(start as int);
    let total = b.len();
    let n = (total - start) / 2;
    let mut units: Vec<u16> = Vec::new();
    let mut k: usize = 0;
    while k < n
        invariant
            k <= n,
            total == b@.len(),
            body.len() == total - start,
            n == body.len() / 2,
            body == b@.skip(start as int),
            start <= b@.len(),
            units@ == units_of(body, big_endian).take(k as int),
        decreases n - k,
    {
        assert(start + 2 * k + 1 < total);
        let x = b[start + 2 * k];
        let y = b[start + 2 * k + 1];
        let v: u16 = if big_endian {
            (x as u16) * 256 + (y as u16)
        } else {
            (x as u16) + (y as u16) * 256
        };
        proof {
            assert(body[2 * k as int] == x);
            assert(body[2 * k + 1] == y);
            assert(units_of(body, big_endian)[k as int] == v);
            assert(units_of(body, big_endian).take(k + 1) =~= units_of(body, big_endian).take(k as int).push(v));
        }
        units.push(v);
        k = k + 1;
    }
    proof {
        assert(units_of(body, big_endian).take(k as int) =~= units_of(body, big_endian));
    }
    string_from_utf16(units.as_slice())
}

fn has_prefix(b: &[u8], p: &[u8]) -> (r: bool)
    ensures
        r == starts_with_bytes(b@, p@),
{
    if p.len() > b.len() {
        return false;
    }
    let mut i: usize = 0;
    while i < p.len()
        invariant
            i <= p@.len() <= b@.len(),
            forall|j: int| 0 <= j < i ==> #[trigger] b@[j] == p@[j],
        decreases p@.len() - i,
    {
        if b[i] != p[i] {
            proof {
                assert(b@.subrange(0, p@.len() as int)[i as int] != p@[i as int]);
            }
            return false;
        }
        i = i + 1;
    }
    proof {
        assert(b@.subrange(0, p@.len() as int) =~= p@);
    }
    true
}

/// Decode sidecar bytes: UTF-16 LE or BE when a byte-order mark says so,
/// else UTF-8 with or without its BOM. `Err` holds the decoder's message.
pub fn decode_locale_bytes(bytes: &[u8]) -> (r: Result<String, String>)
    ensures
        r is Ok <==> decoded_locale(bytes@) is Some,
        r matches Ok(s) ==> decoded_locale(bytes@) == Some(s@),
{
    let le: [u8; 2] = [0xFF, 0xFE];
    let be: [u8; 2] = [0xFE, 0xFF];
    let u8bom: [u8; 3] = [0xEF, 0xBB, 0xBF];
    proof {
        assert(le@ =~= seq![0xFFu8, 0xFEu8]);
        assert(be@ =~= seq![0xFEu8, 0xFFu8]);
        assert(u8bom@ =~= seq![0xEFu8, 0xBBu8, 0xBFu8]);
    }
    if has_prefix(bytes, le.as_slice()) {
        utf16_to_string(bytes, 2, false)
    } else if has_prefix(bytes, be.as_slice()) {
        utf16_to_string(bytes, 2, true)
    } else if has_prefix(bytes, u8bom.as_slice()) {
        string_from_utf8(bytes_from(bytes, 3))
    } else {
        proof {
            assert(bytes@.skip(0) =~= bytes@);
        }
        string_from_utf8(bytes_from(bytes, 0))
    }
}

/// `text` as sidecar bytes: the UTF-16 LE byte-order mark, then each UTF-16
/// code unit little-endian.
pub fn encode_locale_utf16le(text: &str) -> (r: Vec<u8>)
    ensures
        r@ == seq![0xFFu8, 0xFEu8] + le_bytes(utf16_of(text@)),
{
    let cs = chars_of(text);
    let mut out: Vec<u8> = Vec::new();
    out.push(0xFF);
    out.push(0xFE);
    let ghost mut units: Seq<u16> = seq![];
    let mut i: usize = 0;
    proof {
        assert(cs@.skip(0) =~= cs@);
        assert(out@ =~= seq![0xFFu8, 0xFEu8] + le_bytes(units));
    }
    while i < cs.len()
        invariant
            i <= cs@.len(),
            cs@ == text@,
            utf16_of(text@) == units + utf16_of(cs@.skip(i as int)),
            out@ == seq![0xFFu8, 0xFEu8] + le_bytes(units),
        decreases cs@.len() - i,
    {
        let c = cs[i];
        let v = c as u32;
        proof {
            assert(cs@.skip(i as int)[0] == c);
            assert(cs@.skip(i as int).drop_first() =~= cs@.skip(i + 1));
        }
        let ghost cu = char_units(c);
        if v < 0x10000 {
            let u = v as u16;
            out.push((u % 256) as u8);
            out.push((u / 256) as u8);
            proof {
                assert(cu == seq![u]);
                assert(le_bytes(units + cu) =~= le_bytes(units) + seq![(u % 256) as u8, (u / 256) as u8]);
            }
        } else {
            let w = v - 0x10000;
            let hi = (0xD800 + w / 0x400) as u16;
            let lo = (0xDC00 + w % 0x400) as u16;
            out.push((hi % 256) as u8);
            out.push((hi / 256) as u8);
            out.push((lo % 256) as u8);
            out.push((lo / 256) as u8);
            proof {
                assert(cu == seq![hi, lo]);
                assert(le_bytes(units + cu) =~= le_bytes(units) + seq![(hi % 256) as u8, (hi / 256) as u8, (lo % 256) as u8, (lo / 256) as u8]);
            }
        }
        proof {
            assert(units + cu + utf16_of(cs@.skip(i + 1)) =~= units + utf16_of(cs@.skip(i as int)));
            units = units + cu;
        }
        i = i + 1;
    }
    proof {
        assert(cs@.skip(i as int) =~= Seq::<char>::empty());
        assert(units =~= utf16_of(text@));
    }
    out
}

// ---------------------------------------------------------------------------
// Merging the sidecars of several templates
// ---------------------------------------------------------------------------

/// Position of `ext` among the tables, or their count.
pub open spec fn ext_pos(acc: Seq<(Seq<char>, Listing)>, ext: Seq<char>) -> int
    decreases acc.len(),
{
    if acc.len() == 0 {
        0
    } else if acc[0].0 == ext {
        0
    } else {
        1 + ext_pos(acc.drop_first(), ext)
    }
}

/// One sidecar text merged into the table of its language.
pub open spec fn add_sidecar(acc: Seq<(Seq<char>, Listing)>, input: (Seq<char>, Seq<char>)) -> Seq<(Seq<char>, Listing)> {
    let p = ext_pos(acc, input.0);
    let parsed = parse_text(seq![], input.1);
    if p < acc.len() {
        acc.update(p, (input.0, merged(acc[p].1, parsed)))
    } else {
        acc.push((input.0, merged(seq![], parsed)))
    }
}

/// Tables per language for sidecar texts taken in order.
pub open spec fn sidecar_tables(inputs: Seq<(Seq<char>, Seq<char>)>) -> Seq<(Seq<char>, Listing)>
    decreases inputs.len(),
{
    if inputs.len() == 0 {
        seq![]
    } else {
        add_sidecar(sidecar_tables(inputs.drop_last()), inputs.last())
    }
}

proof fn lemma_ext_pos(acc: Seq<(Seq<char>, Listing)>, ext: Seq<char>)
    ensures
        0 <= ext_pos(acc, ext) <= acc.len(),
        ext_pos(acc, ext) < acc.len() ==> acc[ext_pos(acc, ext)].0 == ext,
        forall|j: int| 0 <= j < ext_pos(acc, ext) ==> #[trigger] acc[j].0 != ext,
    decreases acc.len(),
{
    if acc.len() > 0 && acc[0].0 != ext {
        lemma_ext_pos(acc.drop_first(), ext);
        assert forall|j: int| 0 <= j < ext_pos(acc, ext) implies #[trigger] acc[j].0 != ext by {
            if j > 0 {
                assert(acc[j] == acc.drop_first()[j - 1]);
            }
        }
    }
}

proof fn lemma_ext_pos_exact(acc: Seq<(Seq<char>, Listing)>, ext: Seq<char>, p: int)
    requires
        0 <= p <= acc.len(),
        p < acc.len() ==> acc[p].0 == ext,
        forall|j: int| 0 <= j < p ==> #[trigger] acc[j].0 != ext,
    ensures
        ext_pos(acc, ext) == p,
    decreases acc.len(),
{
    if acc.len() > 0 && acc[0].0 != ext {
        let t = acc.drop_first();
        assert forall|j: int| 0 <= j < p - 1 implies #[trigger] t[j].0 != ext by {
            assert(t[j] == acc[j + 1]);
        }
        if p - 1 < t.len() {
            assert(t[p - 1] == acc[p]);
        }
        lemma_ext_pos_exact(t, ext, p - 1);
    }
}

fn find_ext(out: &Vec<(String, LocaleTable)>, ext: &str) -> (p: usize)
    ensures
        p <= out@.len(),
        p < out@.len() ==> out@[p as int].0@ == ext@,
        forall|j: int| 0 <= j < p ==> #[trigger] out@[j].0@ != ext@,
{
    let mut p: usize = 0;
    while p < out.len()
        invariant
            p <= out@.len(),
            forall|j: int| 0 <= j < p ==> #[trigger] out@[j].0@ != ext@,
        decreases out@.len() - p,
    {
        if str_eq(out[p].0.as_str(), ext) {
            return p;
        }
        p = p + 1;
    }
    p
}

/// Merge the sidecar texts of several templates, given as (extension, text)
/// in reading order, into one table per extension. Tables come in the order
/// their extension first appears; within a table the first value of an LC
/// index wins.
pub fn merge_template_sidecars(sidecars: &Vec<(String, String)>) -> (r: Vec<(String, LocaleTable)>)
    ensures
        r@.len() == sidecar_tables(sidecars@.map_values(|x: (String, String)| (x.0@, x.1@))).len(),
        forall|k: int| 0 <= k < r@.len() ==> (#[trigger] r@[k].0@, r@[k].1@) == sidecar_tables(sidecars@.map_values(|x: (String, String)| (x.0@, x.1@)))[k],
{
    let ghost ins_seq = sidecars@.map_values(|x: (String, String)| (x.0@, x.1@));
    let mut out: Vec<(String, LocaleTable)> = Vec::new();
    let mut i: usize = 0;
    proof {
        assert(ins_seq.take(0) =~= Seq::<(Seq<char>, Seq<char>)>::empty());
    }
    while i < sidecars.len()
        invariant
            i <= sidecars@.len(),
            ins_seq == sidecars@.map_values(|x: (String, String)| (x.0@, x.1@)),
            out@.len() == sidecar_tables(ins_seq.take(i as int)).len(),
            forall|k: int| 0 <= k < out@.len() ==> (#[trigger] out@[k].0@, out@[k].1@) == sidecar_tables(ins_seq.take(i as int))[k],
        decreases sidecars@.len() - i,
    {
        let ghost acc = sidecar_tables(ins_seq.take(i as int));
        let ext = sidecars[i].0.as_str();
        let parsed = parse_locale(sidecars[i].1.as_str());
        proof {
            assert(ins_seq.take(i + 1).drop_last() =~= ins_seq.take(i as int));
            assert(ins_seq.take(i + 1).last() == (ext@, sidecars@[i as int].1@));
            lemma_ext_pos(acc, ext@);
        }
        let p = find_ext(&out, ext);
        proof {
            if p < out@.len() {
                assert((out@[p as int].0@, out@[p as int].1@) == acc[p as int]);
            }
            assert forall|j: int| 0 <= j < p implies #[trigger] acc[j].0 != ext@ by {
                assert((out@[j].0@, out@[j].1@) == acc[j]);
            }
            lemma_ext_pos_exact(acc, ext@, p as int);
        }
        let ghost next = sidecar_tables(ins_seq.take(i + 1));
        if p < out.len() {
            let ghost before = out@;
            let mut entry = out.remove(p);
            entry.1.merge(parsed);
            out.insert(p, entry);
            proof {
                assert(out@ =~= before.update(p as int, entry));
                assert forall|k: int| 0 <= k < out@.len() implies (#[trigger] out@[k].0@, out@[k].1@) == next[k] by {
                    if k != p {
                        assert(out@[k] == before[k]);
                    }
                }
            }
        } else {
            let mut t = LocaleTable::new();
            t.merge(parsed);
            out.push((owned(ext), t));
        }
        i = i + 1;
    }
    proof {
        assert(ins_seq.take(i as int) =~= ins_seq);
    }
    out
}

// ---------------------------------------------------------------------------
// Round trips
// ---------------------------------------------------------------------------

proof fn lemma_find_char_append(x: Seq<char>, z: Seq<char>, c: char)
    ensures
        find_char(x + z, c) == (if find_char(x, c) < x.len() { find_char(x, c) } else { x.len() + find_char(z, c) }),
{
    lemma_find_char_bounds(x, c);
    lemma_find_char_bounds(z, c);
    let w = x + z;
    if find_char(x, c) < x.len() {
        let p = find_char(x, c);
        assert forall|j: int| 0 <= j < p implies #[trigger] w[j] != c by {
            assert(w[j] == x[j]);
        }
        lemma_find_char_exact(w, c, p);
    } else {
        let p = x.len() + find_char(z, c);
        assert forall|j: int| 0 <= j < p implies #[trigger] w[j] != c by {
            if j < x.len() {
                assert(w[j] == x[j]);
            } else {
                assert(w[j] == z[j - x.len()]);
            }
        }
        if p < w.len() {
            assert(w[p] == z[find_char(z, c)]);
        }
        lemma_find_char_exact(w, c, p);
    }
}

proof fn lemma_no_char(x: Seq<char>, c: char)
    requires
        forall|j: int| 0 <= j < x.len() ==> #[trigger] x[j] != c,
    ensures
        find_char(x, c) == x.len(),
{
    lemma_find_char_exact(x, c, x.len() as int);
}

/// Parsing text with a line break in it parses the part before the break,
/// then the part after it.
proof fn lemma_parse_text_split(t: Listing, x: Seq<char>, y: Seq<char>)
    ensures
        parse_text(t, x + seq!['\n'] + y) == parse_text(parse_text(t, x), y),
    decreases x.len(),
{
    let w = x + seq!['\n'] + y;
    assert(w =~= x + (seq!['\n'] + y));
    lemma_find_char_append(x, seq!['\n'] + y, '\n');
    lemma_find_char_bounds(x, '\n');
    let n = find_char(x, '\n');
    if n >= x.len() {
        assert(find_char(seq!['\n'] + y, '\n') == 0);
        assert(w.subrange(0, x.len() as int) =~= x);
        assert(w.subrange(x.len() as int + 1, w.len() as int) =~= y);
    } else {
        let x2 = x.subrange(n + 1, x.len() as int);
        assert(w.subrange(0, n) =~= x.subrange(0, n));
        assert(w.subrange(n + 1, w.len() as int) =~= x2 + seq!['\n'] + y);
        lemma_parse_text_split(parse_line(t, x.subrange(0, n)), x2, y);
    }
}

/// The body of an entry line: `id:text`.
pub open spec fn entry_body(e: (i32, Seq<char>)) -> Seq<char> {
    int_text(e.0 as int) + seq![':'] + e.1
}

/// A text that survives a sidecar line: no line break, no trailing `\r`.
pub open spec fn line_safe(t: Seq<char>) -> bool {
    (forall|j: int| 0 <= j < t.len() ==> #[trigger] t[j] != '\n') && !(t.len() > 0 && t.last() == '\r')
}

proof fn lemma_entry_body(e: (i32, Seq<char>))
    requires
        line_safe(e.1),
    ensures
        find_char(entry_body(e) + seq!['\r'], '\n') == entry_body(e).len() + 1,
        find_char(entry_body(e), ':') == int_text(e.0 as int).len(),
        !(entry_body(e).len() > 0 && entry_body(e).last() == '\r'),
        entry_body(e).len() > 0,
{
    let it = int_text(e.0 as int);
    lemma_int_text_parses(e.0);
    let b = entry_body(e);
    let b2 = b + seq!['\r'];
    assert forall|j: int| 0 <= j < b2.len() implies #[trigger] b2[j] != '\n' by {
        if j < it.len() {
            assert(b2[j] == it[j]);
            assert(it[j] == '-' || is_ascii_digit(it[j]));
        } else if j > it.len() && j < b.len() {
            assert(b2[j] == e.1[j - it.len() - 1]);
        }
    }
    lemma_no_char(b2, '\n');
    assert forall|j: int| 0 <= j < it.len() implies #[trigger] it[j] != ':' by {
        assert(it[j] == '-' || is_ascii_digit(it[j]));
    }
    lemma_no_char(it, ':');
    assert(b =~= it + (seq![':'] + e.1));
    lemma_find_char_append(it, seq![':'] + e.1, ':');
    if e.1.len() > 0 {
        assert(b.last() == e.1.last());
    }
}

proof fn lemma_parse_entry_line(t: Listing, e: (i32, Seq<char>))
    requires
        line_safe(e.1),
    ensures
        parse_line(t, entry_body(e) + seq!['\r']) == ins(t, e.0, e.1),
{
    lemma_entry_body(e);
    let b = entry_body(e);
    let b2 = b + seq!['\r'];
    assert(b2.subrange(b2.len() - 1, b2.len() as int) =~= seq!['\r']);
    assert(ends_with_r(b2));
    assert(b2.subrange(0, b2.len() - 1) =~= b);
    assert(trim_end_all(b2, seq!['\r']) == trim_end_all(b, seq!['\r']));
    assert(!crate::text::ends_with(b, seq!['\r'])) by {
        if crate::text::ends_with(b, seq!['\r']) {
            assert(b.subrange(b.len() - 1, b.len() as int)[0] == b.last());
        }
    }
    assert(trim_end_all(b, seq!['\r']) == b);
    let it = int_text(e.0 as int);
    lemma_int_text_parses(e.0);
    assert(b.subrange(0, it.len() as int) =~= it);
    assert(b.subrange(it.len() as int + 1, b.len() as int) =~= e.1);
}

spec fn ends_with_r(s: Seq<char>) -> bool {
    crate::text::ends_with(s, seq!['\r'])
}

proof fn lemma_ins_append(s: Listing, id: i32, t: Seq<char>)
    requires
        forall|j: int| 0 <= j < s.len() ==> #[trigger] s[j].0 < id,
    ensures
        ins(s, id, t) == s.push((id, t)),
    decreases s.len(),
{
    if s.len() > 0 {
        let tl = s.drop_first();
        assert forall|j: int| 0 <= j < tl.len() implies #[trigger] tl[j].0 < id by {
            assert(tl[j] == s[j + 1]);
        }
        lemma_ins_append(tl, id, t);
        assert(seq![s[0]] + tl.push((id, t)) =~= s.push((id, t)));
    }
}

/// Parsing the text of a listing adds its entries in order.
proof fn lemma_parse_locale_text(t: Listing, s: Listing)
    requires
        forall|j: int| 0 <= j < s.len() ==> line_safe(#[trigger] s[j].1),
    ensures
        s.len() > 0 ==> parse_text(t, locale_text(s)) == parse_line(parse_text(t, locale_text(s.drop_last())), entry_body(s.last()) + seq!['\r']),
        s.len() == 0 ==> parse_text(t, locale_text(s)) == t,
        s.len() > 0 ==> exists|x: Seq<char>| locale_text(s) == x + seq!['\n'],
    decreases s.len(),
{
    if s.len() == 0 {
        assert(find_char(Seq::<char>::empty(), '\n') == 0);
        assert(trim_end_all(Seq::<char>::empty(), seq!['\r']) =~= Seq::<char>::empty());
    } else {
        let s2 = s.drop_last();
        let l2 = locale_text(s2);
        let e = s.last();
        let b = entry_body(e) + seq!['\r'];
        assert(line_safe(e.1)) by {
            assert(s[s.len() - 1] == e);
        }
        lemma_entry_body(e);
        assert(locale_text(s) =~= (l2 + b) + seq!['\n'] + Seq::<char>::empty());
        lemma_parse_text_split(t, l2 + b, Seq::<char>::empty());
        let pe = parse_text(t, l2 + b);
        assert(find_char(Seq::<char>::empty(), '\n') == 0);
        assert(trim_end_all(Seq::<char>::empty(), seq!['\r']) =~= Seq::<char>::empty());
        assert(parse_text(pe, Seq::<char>::empty()) == pe);
        assert forall|j: int| 0 <= j < s2.len() implies line_safe(#[trigger] s2[j].1) by {
            assert(s2[j] == s[j]);
        }
        lemma_parse_locale_text(t, s2);
        if s2.len() == 0 {
            assert(l2 + b =~= b);
        } else {
            let x = choose|x: Seq<char>| l2 == x + seq!['\n'];
            assert(l2 + b =~= x + seq!['\n'] + b);
            lemma_parse_text_split(t, x, b);
            lemma_parse_text_split(t, x, Seq::<char>::empty());
            assert(x + seq!['\n'] + Seq::<char>::empty() =~= l2);
            assert(parse_text(parse_text(t, x), Seq::<char>::empty()) == parse_text(t, x));
        }
        assert(locale_text(s) == (l2 + entry_body(e) + seq!['\r']) + seq!['\n']);
    }
}

/// Sidecar text read back gives the table that was written, for tables
/// whose texts hold no line break and do not end in `\r`.
pub proof fn law_sidecar_round_trip(s: Listing)
    requires
        sorted_ids(s),
        forall|j: int| 0 <= j < s.len() ==> line_safe(#[trigger] s[j].1),
    ensures
        parse_text(seq![], locale_text(s)) == s,
    decreases s.len(),
{
    lemma_parse_locale_text(seq![], s);
    if s.len() > 0 {
        let s2 = s.drop_last();
        lemma_sorted_tail(s);
        assert forall|j: int| 0 <= j < s2.len() implies line_safe(#[trigger] s2[j].1) by {
            assert(s2[j] == s[j]);
        }
        law_sidecar_round_trip(s2);
        let e = s.last();
        assert(line_safe(e.1)) by {
            assert(s[s.len() - 1] == e);
        }
        lemma_parse_entry_line(s2, e);
        assert forall|j: int| 0 <= j < s2.len() implies #[trigger] s2[j].0 < e.0 by {
            assert(s2[j] == s[j]);
            assert(s[j].0 < s[s.len() - 1].0);
        }
        lemma_ins_append(s2, e.0, e.1);
        assert(s2.push(e) =~= s);
    }
}

proof fn lemma_utf16_decodes(s: Seq<char>)
    ensures
        decode_utf16(utf16_of(s)) == Some(s),
    decreases s.len(),
{
    if s.len() > 0 {
        let c = s[0];
        let rest = s.drop_first();
        lemma_utf16_decodes(rest);
        let u = utf16_of(s);
        let v = c as u32;
        vstd::utf8::char_is_scalar(c);
        vstd::utf8::char_u32_cast(c, v);
        assert(u == char_units(c) + utf16_of(rest));
        if v < 0x10000 {
            assert(u[0] == v as u16);
            assert(u[0] as u32 == v);
            assert(u.drop_first() =~= utf16_of(rest));
            assert(((u[0] as u32) as char) == c);
            assert(seq![c] + rest =~= s);
        } else {
            let w = v - 0x10000;
            assert(w < 0x100000);
            assert(w / 0x400 < 0x400);
            let hi = (0xD800 + w / 0x400) as u16;
            let lo = (0xDC00 + w % 0x400) as u16;
            assert(u[0] == hi);
            assert(u[1] == lo);
            assert(u.subrange(2, u.len() as int) =~= utf16_of(rest));
            assert(0x10000 + (hi - 0xD800) * 0x400 + (lo - 0xDC00) == v) by (nonlinear_arith)
                requires
                    hi == 0xD800 + w / 0x400,
                    lo == 0xDC00 + w % 0x400,
                    w == v - 0x10000,
            ;
            assert((0x10000 + (hi - 0xD800) * 0x400 + (lo - 0xDC00)) as u32 == v);
            assert(seq![c] + rest =~= s);
        }
    }
}

/// Encoding a text for a sidecar and decoding the bytes gives the text back.
pub proof fn law_utf16_round_trip(s: Seq<char>)
    ensures
        decoded_locale(seq![0xFFu8, 0xFEu8] + le_bytes(utf16_of(s))) == Some(s),
{
    let u = utf16_of(s);
    let b = seq![0xFFu8, 0xFEu8] + le_bytes(u);
    assert(b.subrange(0, 2) =~= seq![0xFFu8, 0xFEu8]);
    assert(b.skip(2) =~= le_bytes(u));
    let back = units_of(le_bytes(u), false);
    assert forall|k: int| 0 <= k < u.len() implies back[k] == u[k] by {
        let x = le_bytes(u)[2 * k];
        let y = le_bytes(u)[2 * k + 1];
        assert(x == (u[k] % 256) as u8);
        assert(y == (u[k] / 256) as u8);
        assert(u[k] % 256 + (u[k] / 256) * 256 == u[k]) by (nonlinear_arith);
    }
    assert(back =~= u);
    lemma_utf16_decodes(s);
}

} // verus!
