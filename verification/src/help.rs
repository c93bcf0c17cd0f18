//! User manual topics and the lookup of a topic's section in the manual's
//! Markdown text.

use vstd::prelude::*;
use crate::text::{chars_of, matches_at, skip_ws_range, string_from_range, trim, trim_end_range};

verus! {

/// A section of the user manual.
#[derive(Clone, Copy, Debug, PartialEq, Eq, Structural)]
pub enum HelpTopic {
    Overview,
    Template,
    Fighter,
    Exclusive,
    Recon,
    Airfield,
    Front,
    Language,
    Import,
    Troubleshooting,
}

/// Heading of a topic's section.
pub open spec fn topic_title(t: HelpTopic) -> Seq<char> {
    match t {
        HelpTopic::Overview => "Overview"@,
        HelpTopic::Template => "Template Builder"@,
        HelpTopic::Fighter => "Fighter Pack"@,
        HelpTopic::Exclusive => "Exclusive Activation"@,
        HelpTopic::Recon => "Army Generator"@,
        HelpTopic::Airfield => "Airfield"@,
        HelpTopic::Front => "Map"@,
        HelpTopic::Language => "Language files"@,
        HelpTopic::Import => "Importing into the mission editor"@,
        HelpTopic::Troubleshooting => "Troubleshooting"@,
    }
}

impl HelpTopic {
    /// Heading of the topic's section.
    pub fn title(self) -> (r: &'static str)
        ensures
            r@ == topic_title(self),
    {
        match self {
            HelpTopic::Overview => "Overview",
            HelpTopic::Template => "Template Builder",
            HelpTopic::Fighter => "Fighter Pack",
            HelpTopic::Exclusive => "Exclusive Activation",
            HelpTopic::Recon => "Army Generator",
            HelpTopic::Airfield => "Airfield",
            HelpTopic::Front => "Map",
            HelpTopic::Language => "Language files",
            HelpTopic::Import => "Importing into the mission editor",
            HelpTopic::Troubleshooting => "Troubleshooting",
        }
    }
}

/// First position at or after `i` where `pat` occurs in `s`.
pub open spec fn find_from(s: Seq<char>, pat: Seq<char>, i: int) -> Option<int>
    decreases s.len() + 1 - i,
{
    if i < 0 || i + pat.len() > s.len() {
        None
    } else if s.subrange(i, i + pat.len()) == pat {
        Some(i)
    } else {
        find_from(s, pat, i + 1)
    }
}

/// The section of `md` headed `## heading`: from that heading up to the
/// next `## ` heading (or the end), trimmed. All of `md` when the heading
/// is missing.
pub open spec fn section_of(md: Seq<char>, heading: Seq<char>) -> Seq<char> {
    let needle = "## "@ + heading;
    match find_from(md, needle, 0) {
        None => md,
        Some(start) => {
            let after = start + needle.len();
            let end = match find_from(md, "\n## "@, after) {
                Some(i) => i,
                None => md.len() as int,
            };
            trim(md.subrange(start, end))
        },
    }
}

proof fn lemma_find_from_bounds(s: Seq<char>, pat: Seq<char>, i: int)
    ensures
        find_from(s, pat, i) matches Some(k) ==> i <= k && k + pat.len() <= s.len() && s.subrange(k, k + pat.len()) == pat,
    decreases s.len() + 1 - i,
{
    if !(i < 0 || i + pat.len() > s.len()) && s.subrange(i, i + pat.len()) != pat {
        lemma_find_from_bounds(s, pat, i + 1);
    }
}

fn find_pat(cs: &Vec<char>, pat: &Vec<char>, from: usize) -> (r: Option<usize>)
    requires
        from <= cs@.len(),
    ensures
        r matches Some(k) ==> find_from(cs@, pat@, from as int) == Some(k as int),
        r is None ==> find_from(cs@, pat@, from as int) is None,
{
    let n = pat.len();
    let len = cs.len();
    let mut i = from;
    loop
        invariant
            from <= i,
            len == cs@.len(),
            n == pat@.len(),
            find_from(cs@, pat@, from as int) == find_from(cs@, pat@, i as int),
        decreases len + 1 - i,
    {
        if i > len || len - i < n {
            return None;
        }
        if matches_at(cs, i, pat) {
            return Some(i);
        }
        proof {
            if n == 0 {
                assert(cs@.subrange(i as int, i as int) =~= pat@);
            }
        }
        i = i + 1;
    }
}

/// The section of `md` headed `## heading`, up to the next `## ` heading,
/// trimmed; all of `md` when the heading is missing.
pub fn extract_section(md: &str, heading: &str) -> (r: String)
    ensures
        r@ == section_of(md@, heading@),
{
    let cs = chars_of(md);
    let mut needle = chars_of("## ");
    let hv = chars_of(heading);
    let mut k: usize = 0;
    let ghost prefix = needle@;
    while k < hv.len()
        invariant
            k <= hv@.len(),
            needle@ == prefix + hv@.take(k as int),
        decreases hv@.len() - k,
    {
        needle.push(hv[k]);
        proof {
            assert(hv@.take(k + 1) =~= hv@.take(k as int).push(hv@[k as int]));
            assert(prefix + hv@.take(k + 1) =~= (prefix + hv@.take(k as int)).push(hv@[k as int]));
        }
        k = k + 1;
    }
    proof {
        assert(hv@.take(k as int) =~= heading@);
        assert(needle@ =~= "## "@ + heading@);
    }
    let len = cs.len();
    proof {
        assert(cs@.subrange(0, len as int) =~= md@);
    }
    match find_pat(&cs, &needle, 0) {
        None => string_from_range(&cs, 0, len),
        Some(start) => {
            proof {
                lemma_find_from_bounds(cs@, needle@, 0);
            }
            let after = start + needle.len();
            let stop = chars_of("\n## ");
            let end = match find_pat(&cs, &stop, after) {
                Some(i) => {
                    proof {
                        lemma_find_from_bounds(cs@, stop@, after as int);
                    }
                    i
                },
                None => len,
            };
            let a = skip_ws_range(&cs, start, end);
            let b = trim_end_range(&cs, a, end);
            proof {
                let sub = cs@.subrange(start as int, end as int);
                assert(crate::text::trim_start(sub) =~= cs@.subrange(a as int, end as int));
                assert(trim(sub) =~= cs@.subrange(a as int, b as int));
            }
            string_from_range(&cs, a, b)
        },
    }
}

/// The manual section of `topic` in the manual text `manual`.
pub fn section_for(manual: &str, topic: HelpTopic) -> (r: String)
    ensures
        r@ == section_of(manual@, topic_title(topic)),
{
    extract_section(manual, topic.title())
}

} // verus!
