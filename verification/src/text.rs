//! Character-level helpers shared by the parser, the serializer and the
//! string-matching rules of the mission tools.

use vstd::prelude::*;
use vstd::string::*;

verus! {

/// Appends one character to a `String` (std's `String::push`).
/// Claimed: the new text is the old text followed by `c`.
#[verifier::external_body]
pub(crate) fn push_char(s: &mut String, c: char)
    ensures
        final(s)@ == old(s)@.push(c),
{
    s.push(c);
}

/// The characters of `s`, in order.
pub fn chars_of(s: &str) -> (v: Vec<char>)
    ensures
        v@ == s@,
{
    let mut v: Vec<char> = Vec::new();
    for c in it: s.chars()
        invariant
            it.seq() == s@,
            v@ == s@.take(it.index() as int),
        ensures
            v@ == s@,
    {
        v.push(c);
        proof {
            assert(s@.take(it.index() as int + 1) =~= s@.take(it.index() as int).push(c));
        }
    }
    v
}

/// A `String` holding `cs[lo..hi]`.
pub fn string_from_range(cs: &Vec<char>, lo: usize, hi: usize) -> (s: String)
    requires
        lo <= hi <= cs@.len(),
    ensures
        s@ == cs@.subrange(lo as int, hi as int),
{
    let mut s = String::new();
    let mut i = lo;
    while i < hi
        invariant
            lo <= i <= hi <= cs@.len(),
            s@ == cs@.subrange(lo as int, i as int),
        decreases hi - i,
    {
        push_char(&mut s, cs[i]);
        proof {
            assert(cs@.subrange(lo as int, i + 1) =~= cs@.subrange(lo as int, i as int).push(cs@[i as int]));
        }
        i = i + 1;
    }
    s
}

/// A `String` holding all of `cs`.
pub fn string_from_chars(cs: &Vec<char>) -> (s: String)
    ensures
        s@ == cs@,
{
    let s = string_from_range(cs, 0, cs.len());
    proof {
        assert(cs@.subrange(0, cs@.len() as int) =~= cs@);
    }
    s
}

/// A `String` copy of `s`.
pub fn owned(s: &str) -> (r: String)
    ensures
        r@ == s@,
{
    s.to_owned()
}

/// Text equality of two string slices.
pub fn str_eq(a: &str, b: &str) -> (r: bool)
    ensures
        r == (a@ == b@),
{
    let x = a.to_owned();
    let y = b.to_owned();
    x == y
}

/// Appends all of `t` to `s`.
pub fn push_str(s: &mut String, t: &str)
    ensures
        final(s)@ == old(s)@ + t@,
{
    s.append(t);
}

/// Appends `cs[lo..hi]` to `s`.
pub fn push_range(s: &mut String, cs: &Vec<char>, lo: usize, hi: usize)
    requires
        lo <= hi <= cs@.len(),
    ensures
        final(s)@ == old(s)@ + cs@.subrange(lo as int, hi as int),
{
    let ghost start = s@;
    let mut i = lo;
    while i < hi
        invariant
            lo <= i <= hi <= cs@.len(),
            s@ == start + cs@.subrange(lo as int, i as int),
        decreases hi - i,
    {
        push_char(s, cs[i]);
        proof {
            assert(cs@.subrange(lo as int, i + 1) =~= cs@.subrange(lo as int, i as int).push(cs@[i as int]));
            assert(start + cs@.subrange(lo as int, i + 1) =~= (start + cs@.subrange(lo as int, i as int)).push(cs@[i as int]));
        }
        i = i + 1;
    }
}

// ---------------------------------------------------------------------------
// Character classes
// ---------------------------------------------------------------------------

pub open spec fn is_ascii_digit(c: char) -> bool {
    '0' <= c && c <= '9'
}

pub open spec fn is_ascii_alpha(c: char) -> bool {
    ('a' <= c && c <= 'z') || ('A' <= c && c <= 'Z')
}

pub open spec fn is_ascii_upper(c: char) -> bool {
    'A' <= c && c <= 'Z'
}

/// Unicode `White_Space`, the set that `str::trim` removes.
pub open spec fn is_ws(c: char) -> bool {
    let u = c as u32;
    (0x9 <= u && u <= 0xD) || u == 0x20 || u == 0x85 || u == 0xA0 || u == 0x1680
        || (0x2000 <= u && u <= 0x200A) || u == 0x2028 || u == 0x2029 || u == 0x202F
        || u == 0x205F || u == 0x3000
}

pub fn digit(c: char) -> (r: bool)
    ensures
        r == is_ascii_digit(c),
{
    '0' <= c && c <= '9'
}

pub fn alpha(c: char) -> (r: bool)
    ensures
        r == is_ascii_alpha(c),
{
    ('a' <= c && c <= 'z') || ('A' <= c && c <= 'Z')
}

pub fn white(c: char) -> (r: bool)
    ensures
        r == is_ws(c),
{
    let u = c as u32;
    (0x9 <= u && u <= 0xD) || u == 0x20 || u == 0x85 || u == 0xA0 || u == 0x1680
        || (0x2000 <= u && u <= 0x200A) || u == 0x2028 || u == 0x2029 || u == 0x202F
        || u == 0x205F || u == 0x3000
}

/// ASCII lower-casing of one character; other characters are kept.
pub open spec fn lower_char(c: char) -> char {
    if is_ascii_upper(c) {
        ((c as u32) + 32) as char
    } else {
        c
    }
}

pub open spec fn lower_seq(s: Seq<char>) -> Seq<char> {
    s.map_values(|c: char| lower_char(c))
}

pub fn to_lower_char(c: char) -> (r: char)
    ensures
        r == lower_char(c),
{
    if 'A' <= c && c <= 'Z' {
        let u: u8 = (c as u32 + 32) as u8;
        let r = u as char;
        proof {
            assert(r == ((c as u32) + 32) as char);
        }
        r
    } else {
        c
    }
}

/// ASCII lower-case copy of `s` (std's `str::to_ascii_lowercase`).
pub fn ascii_lower(s: &str) -> (r: String)
    ensures
        r@ == lower_seq(s@),
{
    let cs = chars_of(s);
    let mut out = String::new();
    let mut i: usize = 0;
    while i < cs.len()
        invariant
            i <= cs@.len(),
            cs@ == s@,
            out@ == lower_seq(s@).take(i as int),
        decreases cs@.len() - i,
    {
        let c = to_lower_char(cs[i]);
        push_char(&mut out, c);
        proof {
            assert(lower_seq(s@).take(i + 1) =~= lower_seq(s@).take(i as int).push(c));
        }
        i = i + 1;
    }
    proof {
        assert(lower_seq(s@).take(i as int) =~= lower_seq(s@));
    }
    out
}

// ---------------------------------------------------------------------------
// Trimming
// ---------------------------------------------------------------------------

/// Number of leading white-space characters of `s`.
pub open spec fn lead_ws(s: Seq<char>) -> nat
    decreases s.len(),
{
    if s.len() > 0 && is_ws(s[0]) {
        1 + lead_ws(s.drop_first())
    } else {
        0
    }
}

/// Number of trailing white-space characters of `s`.
pub open spec fn trail_ws(s: Seq<char>) -> nat
    decreases s.len(),
{
    if s.len() > 0 && is_ws(s.last()) {
        1 + trail_ws(s.drop_last())
    } else {
        0
    }
}

pub open spec fn trim_start(s: Seq<char>) -> Seq<char> {
    s.subrange(lead_ws(s) as int, s.len() as int)
}

pub open spec fn trim_end(s: Seq<char>) -> Seq<char> {
    s.subrange(0, s.len() - trail_ws(s))
}

pub open spec fn trim(s: Seq<char>) -> Seq<char> {
    trim_end(trim_start(s))
}

pub proof fn lemma_lead_ws_bound(s: Seq<char>)
    ensures
        lead_ws(s) <= s.len(),
        forall|i: int| 0 <= i < lead_ws(s) ==> is_ws(#[trigger] s[i]),
        lead_ws(s) < s.len() ==> !is_ws(s[lead_ws(s) as int]),
    decreases s.len(),
{
    if s.len() > 0 && is_ws(s[0]) {
        lemma_lead_ws_bound(s.drop_first());
        assert forall|i: int| 0 <= i < lead_ws(s) implies is_ws(#[trigger] s[i]) by {
            if i > 0 {
                assert(s[i] == s.drop_first()[i - 1]);
            }
        }
    }
}

pub proof fn lemma_trail_ws_bound(s: Seq<char>)
    ensures
        trail_ws(s) <= s.len(),
        forall|i: int| s.len() - trail_ws(s) <= i < s.len() ==> is_ws(#[trigger] s[i]),
        trail_ws(s) < s.len() ==> !is_ws(s[s.len() - trail_ws(s) - 1]),
    decreases s.len(),
{
    if s.len() > 0 && is_ws(s.last()) {
        lemma_trail_ws_bound(s.drop_last());
        assert forall|i: int| s.len() - trail_ws(s) <= i < s.len() implies is_ws(#[trigger] s[i]) by {
            if i < s.len() - 1 {
                assert(s[i] == s.drop_last()[i]);
            }
        }
    }
}

/// Leading white space of `cs[lo..hi]`: returns the first non-space index.
pub fn skip_ws_range(cs: &Vec<char>, lo: usize, hi: usize) -> (r: usize)
    requires
        lo <= hi <= cs@.len(),
    ensures
        r == lo + lead_ws(cs@.subrange(lo as int, hi as int)),
        lo <= r <= hi,
{
    let mut i = lo;
    while i < hi && white(cs[i])
        invariant
            lo <= i <= hi <= cs@.len(),
            forall|j: int| lo <= j < i ==> is_ws(#[trigger] cs@[j]),
        decreases hi - i,
    {
        i = i + 1;
    }
    proof {
        lemma_lead_ws_exact(cs@.subrange(lo as int, hi as int), (i - lo) as nat);
    }
    i
}

/// Trailing white space of `cs[lo..hi]`: returns the end of the kept part.
pub fn trim_end_range(cs: &Vec<char>, lo: usize, hi: usize) -> (r: usize)
    requires
        lo <= hi <= cs@.len(),
    ensures
        r == hi - trail_ws(cs@.subrange(lo as int, hi as int)),
        lo <= r <= hi,
{
    let mut j = hi;
    while j > lo && white(cs[j - 1])
        invariant
            lo <= j <= hi <= cs@.len(),
            forall|k: int| j <= k < hi ==> is_ws(#[trigger] cs@[k]),
        decreases j - lo,
    {
        j = j - 1;
    }
    proof {
        lemma_trail_ws_exact(cs@.subrange(lo as int, hi as int), (hi - j) as nat);
    }
    j
}

/// `lead_ws` is the length of the white-space prefix that ends at a non-space.
pub proof fn lemma_lead_ws_exact(s: Seq<char>, n: nat)
    requires
        n <= s.len(),
        forall|i: int| 0 <= i < n ==> is_ws(#[trigger] s[i]),
        n == s.len() || !is_ws(s[n as int]),
    ensures
        lead_ws(s) == n,
    decreases n,
{
    if n > 0 {
        assert(is_ws(s[0]));
        let t = s.drop_first();
        assert forall|i: int| 0 <= i < n - 1 implies is_ws(#[trigger] t[i]) by {
            assert(t[i] == s[i + 1]);
        }
        if n < s.len() {
            assert(t[n - 1] == s[n as int]);
        }
        lemma_lead_ws_exact(t, (n - 1) as nat);
    } else if s.len() > 0 {
        assert(!is_ws(s[0]));
    }
}

pub proof fn lemma_trail_ws_exact(s: Seq<char>, n: nat)
    requires
        n <= s.len(),
        forall|i: int| s.len() - n <= i < s.len() ==> is_ws(#[trigger] s[i]),
        n == s.len() || !is_ws(s[s.len() - n - 1]),
    ensures
        trail_ws(s) == n,
    decreases n,
{
    if n > 0 {
        assert(is_ws(s[s.len() - 1]));
        let t = s.drop_last();
        assert forall|i: int| t.len() - (n - 1) <= i < t.len() implies is_ws(#[trigger] t[i]) by {
            assert(t[i] == s[i]);
        }
        if n < s.len() {
            assert(t[t.len() - (n - 1) - 1] == s[s.len() - n - 1]);
        }
        lemma_trail_ws_exact(t, (n - 1) as nat);
    } else if s.len() > 0 {
        assert(!is_ws(s.last()));
    }
}

/// `str::trim` on a string slice, as an owned `String`.
pub fn trimmed(s: &str) -> (r: String)
    ensures
        r@ == trim(s@),
{
    let cs = chars_of(s);
    let a = skip_ws_range(&cs, 0, cs.len());
    let b = trim_end_range(&cs, a, cs.len());
    proof {
        assert(cs@.subrange(0, cs@.len() as int) =~= cs@);
        assert(trim_start(s@) =~= cs@.subrange(a as int, cs@.len() as int));
        assert(trim(s@) =~= cs@.subrange(a as int, b as int));
    }
    string_from_range(&cs, a, b)
}

// ---------------------------------------------------------------------------
// Integers as text
// ---------------------------------------------------------------------------

pub open spec fn digit_char(d: nat) -> char {
    ((48 + d) as u32) as char
}

/// Decimal digits of `n`, most significant first, no leading zeros.
pub open spec fn dec_text(n: nat) -> Seq<char>
    decreases n,
{
    if n < 10 {
        seq![digit_char(n)]
    } else {
        dec_text(n / 10).push(digit_char(n % 10))
    }
}

/// `i.to_string()` for an integer.
pub open spec fn int_text(i: int) -> Seq<char> {
    if i < 0 {
        seq!['-'] + dec_text((-i) as nat)
    } else {
        dec_text(i as nat)
    }
}

fn digit_to_char(d: u64) -> (c: char)
    requires
        d < 10,
    ensures
        c == digit_char(d as nat),
{
    let c = match d {
        0 => '0',
        1 => '1',
        2 => '2',
        3 => '3',
        4 => '4',
        5 => '5',
        6 => '6',
        7 => '7',
        8 => '8',
        _ => '9',
    };
    c
}

/// Appends the decimal digits of `n`.
pub fn push_dec(s: &mut String, n: u64)
    ensures
        final(s)@ == old(s)@ + dec_text(n as nat),
    decreases n,
{
    if n >= 10 {
        push_dec(s, n / 10);
    }
    let c = digit_to_char(n % 10);
    push_char(s, c);
    proof {
        if n >= 10 {
            assert(old(s)@ + dec_text(n as nat) =~= old(s)@ + dec_text((n / 10) as nat) + seq![c]);
        } else {
            assert(old(s)@ + dec_text(n as nat) =~= old(s)@.push(c));
        }
    }
}

/// Appends `n` in decimal, with a leading `-` when negative.
pub fn push_int(s: &mut String, n: i64)
    ensures
        final(s)@ == old(s)@ + int_text(n as int),
{
    if n < 0 {
        push_char(s, '-');
        let m: u64 = if n == i64::MIN { 9223372036854775808u64 } else { (-n) as u64 };
        push_dec(s, m);
        proof {
            assert(old(s)@ + int_text(n as int) =~= old(s)@.push('-') + dec_text(m as nat));
        }
    } else {
        push_dec(s, n as u64);
    }
}

/// `n.to_string()`.
pub fn int_to_string(n: i64) -> (r: String)
    ensures
        r@ == int_text(n as int),
{
    let mut s = String::new();
    push_int(&mut s, n);
    proof {
        assert(s@ =~= int_text(n as int));
    }
    s
}

/// Value of a run of ASCII digits.
pub open spec fn digits_value(s: Seq<char>) -> int
    decreases s.len(),
{
    if s.len() == 0 {
        0
    } else {
        digits_value(s.drop_last()) * 10 + ((s.last() as u32) as int - 48)
    }
}

pub open spec fn all_digits(s: Seq<char>) -> bool {
    forall|i: int| 0 <= i < s.len() ==> is_ascii_digit(#[trigger] s[i])
}

/// The integer written in `s` (std's `str::parse::<i32>`): an optional `+`
/// or `-`, then one or more ASCII digits, in range of `i32`.
pub open spec fn parse_i32_spec(s: Seq<char>) -> Option<i32> {
    let neg = s.len() > 0 && s[0] == '-';
    let body = if s.len() > 0 && (s[0] == '-' || s[0] == '+') {
        s.drop_first()
    } else {
        s
    };
    let v = if neg {
        -digits_value(body)
    } else {
        digits_value(body)
    };
    if body.len() == 0 || !all_digits(body) || v < i32::MIN || v > i32::MAX {
        None
    } else {
        Some(v as i32)
    }
}

pub proof fn lemma_digits_value_nonneg(s: Seq<char>)
    requires
        all_digits(s),
    ensures
        digits_value(s) >= 0,
    decreases s.len(),
{
    if s.len() > 0 {
        assert(all_digits(s.drop_last())) by {
            assert forall|i: int| 0 <= i < s.drop_last().len() implies is_ascii_digit(
                #[trigger] s.drop_last()[i],
            ) by {
                assert(s.drop_last()[i] == s[i]);
            }
        }
        lemma_digits_value_nonneg(s.drop_last());
        assert(is_ascii_digit(s[s.len() - 1]));
    }
}

/// Parse the integer written in `cs[lo..hi]`.
pub fn parse_i32_range(cs: &Vec<char>, lo: usize, hi: usize) -> (r: Option<i32>)
    requires
        lo <= hi <= cs@.len(),
    ensures
        r == parse_i32_spec(cs@.subrange(lo as int, hi as int)),
{
    let ghost s = cs@.subrange(lo as int, hi as int);
    if lo == hi {
        return None;
    }
    let neg = cs[lo] == '-';
    let start = if cs[lo] == '-' || cs[lo] == '+' { lo + 1 } else { lo };
    let ghost body = cs@.subrange(start as int, hi as int);
    proof {
        if cs[lo as int] == '-' || cs[lo as int] == '+' {
            assert(body =~= s.drop_first());
        } else {
            assert(body =~= s);
        }
    }
    if start == hi {
        return None;
    }
    let cap: i64 = 2147483649;
    let mut acc: i64 = 0;
    let mut i = start;
    while i < hi
        invariant
            lo <= start <= i <= hi <= cs@.len(),
            body == cs@.subrange(start as int, hi as int),
            s == cs@.subrange(lo as int, hi as int),
            lo < hi,
            (cs@[lo as int] == '-' || cs@[lo as int] == '+') ==> body == s.drop_first(),
            !(cs@[lo as int] == '-' || cs@[lo as int] == '+') ==> body == s,
            all_digits(cs@.subrange(start as int, i as int)),
            acc == if digits_value(cs@.subrange(start as int, i as int)) < cap {
                digits_value(cs@.subrange(start as int, i as int))
            } else {
                cap as int
            },
            cap == 2147483649,
        decreases hi - i,
    {
        let c = cs[i];
        if !digit(c) {
            proof {
                assert(body[i - start] == c);
            }
            return None;
        }
        let ghost pre = cs@.subrange(start as int, i as int);
        let ghost nxt = cs@.subrange(start as int, i + 1);
        proof {
            assert(nxt.drop_last() =~= pre);
            assert(nxt.last() == c);
            assert(all_digits(nxt)) by {
                assert forall|k: int| 0 <= k < nxt.len() implies is_ascii_digit(#[trigger] nxt[k]) by {
                    if k < pre.len() {
                        assert(nxt[k] == pre[k]);
                    }
                }
            }
            lemma_digits_value_nonneg(pre);
        }
        let d = (c as u32 - 48) as i64;
        if acc < cap {
            let v = acc * 10 + d;
            acc = if v < cap { v } else { cap };
        } else {
            proof {
                assert(digits_value(nxt) >= cap as int);
            }
        }
        i = i + 1;
    }
    proof {
        assert(cs@.subrange(start as int, i as int) =~= body);
        lemma_digits_value_nonneg(body);
    }
    if neg {
        if acc > 2147483648 {
            None
        } else {
            Some((-acc) as i32)
        }
    } else {
        if acc > 2147483647 {
            None
        } else {
            Some(acc as i32)
        }
    }
}

/// `s.parse::<i32>().ok()`.
pub fn parse_i32(s: &str) -> (r: Option<i32>)
    ensures
        r == parse_i32_spec(s@),
{
    let cs = chars_of(s);
    proof {
        assert(cs@.subrange(0, cs@.len() as int) =~= s@);
    }
    parse_i32_range(&cs, 0, cs.len())
}

// ---------------------------------------------------------------------------
// Suffixes
// ---------------------------------------------------------------------------

pub open spec fn ends_with(s: Seq<char>, suf: Seq<char>) -> bool {
    suf.len() <= s.len() && s.subrange(s.len() - suf.len(), s.len() as int) == suf
}

/// `str::trim_end_matches` with a text pattern: every trailing repetition
/// of `suf` removed.
pub open spec fn trim_end_all(s: Seq<char>, suf: Seq<char>) -> Seq<char>
    decreases s.len(),
{
    if suf.len() > 0 && ends_with(s, suf) {
        trim_end_all(s.subrange(0, s.len() - suf.len()), suf)
    } else {
        s
    }
}

/// Whether `cs[at..at + suf.len()]` is `suf`.
pub fn matches_at(cs: &Vec<char>, at: usize, suf: &Vec<char>) -> (r: bool)
    requires
        at + suf@.len() <= cs@.len(),
    ensures
        r == (cs@.subrange(at as int, at + suf@.len()) == suf@),
{
    let total = cs.len();
    let mut i: usize = 0;
    while i < suf.len()
        invariant
            i <= suf@.len(),
            total == cs@.len(),
            at + suf@.len() <= cs@.len(),
            forall|j: int| 0 <= j < i ==> #[trigger] suf@[j] == cs@[at + j],
        decreases suf@.len() - i,
    {
        if cs[at + i] != suf[i] {
            proof {
                assert(cs@.subrange(at as int, at + suf@.len())[i as int] != suf@[i as int]);
            }
            return false;
        }
        i = i + 1;
    }
    proof {
        assert(cs@.subrange(at as int, at + suf@.len()) =~= suf@);
    }
    true
}

/// End of `trim_end_all(cs[lo..hi], suf)` inside `cs`.
pub fn trim_end_all_range(cs: &Vec<char>, lo: usize, hi: usize, suf: &str) -> (r: usize)
    requires
        lo <= hi <= cs@.len(),
    ensures
        lo <= r <= hi,
        cs@.subrange(lo as int, r as int) == trim_end_all(cs@.subrange(lo as int, hi as int), suf@),
{
    let sv = chars_of(suf);
    let n = sv.len();
    let mut h = hi;
    loop
        invariant
            lo <= h <= hi <= cs@.len(),
            sv@ == suf@,
            n == sv@.len(),
            trim_end_all(cs@.subrange(lo as int, hi as int), suf@) == trim_end_all(cs@.subrange(lo as int, h as int), suf@),
        decreases h,
    {
        let ghost cur = cs@.subrange(lo as int, h as int);
        if n > 0 && h - lo >= n && matches_at(cs, h - n, &sv) {
            proof {
                assert(cur.subrange(cur.len() - n, cur.len() as int) =~= cs@.subrange(h - n, h as int));
                assert(cur.subrange(0, cur.len() - n) =~= cs@.subrange(lo as int, h - n));
            }
            h = h - n;
        } else {
            proof {
                if n > 0 && h - lo >= n {
                    assert(cur.subrange(cur.len() - n, cur.len() as int) =~= cs@.subrange(h - n, h as int));
                }
            }
            return h;
        }
    }
}

pub open spec fn starts_with(s: Seq<char>, pre: Seq<char>) -> bool {
    pre.len() <= s.len() && s.subrange(0, pre.len() as int) == pre
}

/// `str::trim_start_matches` with a text pattern: every leading repetition
/// of `pre` removed.
pub open spec fn trim_start_all(s: Seq<char>, pre: Seq<char>) -> Seq<char>
    decreases s.len(),
{
    if pre.len() > 0 && starts_with(s, pre) {
        trim_start_all(s.subrange(pre.len() as int, s.len() as int), pre)
    } else {
        s
    }
}

/// Start of `trim_start_all(cs[lo..hi], pre)` inside `cs`.
pub fn trim_start_all_range(cs: &Vec<char>, lo: usize, hi: usize, pre: &str) -> (r: usize)
    requires
        lo <= hi <= cs@.len(),
    ensures
        lo <= r <= hi,
        cs@.subrange(r as int, hi as int) == trim_start_all(cs@.subrange(lo as int, hi as int), pre@),
{
    let pv = chars_of(pre);
    let n = pv.len();
    let mut l = lo;
    loop
        invariant
            lo <= l <= hi <= cs@.len(),
            pv@ == pre@,
            n == pv@.len(),
            trim_start_all(cs@.subrange(lo as int, hi as int), pre@) == trim_start_all(cs@.subrange(l as int, hi as int), pre@),
        decreases hi - l,
    {
        let ghost cur = cs@.subrange(l as int, hi as int);
        if n > 0 && hi - l >= n && matches_at(cs, l, &pv) {
            proof {
                assert(cur.subrange(0, n as int) =~= cs@.subrange(l as int, l + n));
                assert(cur.subrange(n as int, cur.len() as int) =~= cs@.subrange(l + n, hi as int));
            }
            l = l + n;
        } else {
            proof {
                if n > 0 && hi - l >= n {
                    assert(cur.subrange(0, n as int) =~= cs@.subrange(l as int, l + n));
                }
            }
            return l;
        }
    }
}

/// `str::eq_ignore_ascii_case`.
pub open spec fn eq_ignore_case(a: Seq<char>, b: Seq<char>) -> bool {
    lower_seq(a) == lower_seq(b)
}

/// `a` starts with `prefix`, ASCII case ignored.
pub open spec fn starts_with_ignore_case(a: Seq<char>, prefix: Seq<char>) -> bool {
    prefix.len() <= a.len() && lower_seq(a.subrange(0, prefix.len() as int)) == lower_seq(prefix)
}

/// `a.eq_ignore_ascii_case(b)`.
pub fn eq_ignore_case_str(a: &str, b: &str) -> (r: bool)
    ensures
        r == eq_ignore_case(a@, b@),
{
    let la = ascii_lower(a);
    let lb = ascii_lower(b);
    str_eq(la.as_str(), lb.as_str())
}

/// Whether `a` starts with `prefix`, ASCII case ignored.
pub fn starts_with_ignore_case_str(a: &str, prefix: &str) -> (r: bool)
    ensures
        r == starts_with_ignore_case(a@, prefix@),
{
    let ac = chars_of(a);
    let pc = chars_of(prefix);
    if pc.len() > ac.len() {
        return false;
    }
    let mut i: usize = 0;
    while i < pc.len()
        invariant
            i <= pc@.len() <= ac@.len(),
            ac@ == a@,
            pc@ == prefix@,
            forall|j: int| 0 <= j < i ==> lower_char(#[trigger] ac@[j]) == lower_char(pc@[j]),
        decreases pc@.len() - i,
    {
        if to_lower_char(ac[i]) != to_lower_char(pc[i]) {
            proof {
                let l1 = lower_seq(ac@.subrange(0, pc@.len() as int));
                let l2 = lower_seq(pc@);
                assert(l1[i as int] != l2[i as int]);
                assert(l1 != l2);
            }
            return false;
        }
        i = i + 1;
    }
    proof {
        assert(lower_seq(ac@.subrange(0, pc@.len() as int)) =~= lower_seq(pc@));
    }
    true
}

/// Last position of `c` in `s`, or -1.
pub open spec fn rfind_char(s: Seq<char>, c: char) -> int
    decreases s.len(),
{
    if s.len() == 0 {
        -1
    } else if s.last() == c {
        s.len() - 1
    } else {
        rfind_char(s.drop_last(), c)
    }
}

pub proof fn lemma_rfind_bounds(s: Seq<char>, c: char)
    ensures
        -1 <= rfind_char(s, c) < s.len(),
        rfind_char(s, c) >= 0 ==> s[rfind_char(s, c)] == c,
        forall|j: int| rfind_char(s, c) < j < s.len() ==> #[trigger] s[j] != c,
    decreases s.len(),
{
    if s.len() > 0 && s.last() != c {
        lemma_rfind_bounds(s.drop_last(), c);
        assert forall|j: int| rfind_char(s, c) < j < s.len() implies #[trigger] s[j] != c by {
            if j < s.len() - 1 {
                assert(s[j] == s.drop_last()[j]);
            }
        }
    }
}

/// Last `c` in `cs[lo..hi]`, as a position inside that range.
pub fn rfind_in(cs: &Vec<char>, lo: usize, hi: usize, c: char) -> (r: Option<usize>)
    requires
        lo <= hi <= cs@.len(),
    ensures
        r matches Some(p) ==> p as int == rfind_char(cs@.subrange(lo as int, hi as int), c),
        r is None ==> rfind_char(cs@.subrange(lo as int, hi as int), c) == -1,
{
    let mut k = hi;
    while k > lo
        invariant
            lo <= k <= hi <= cs@.len(),
            rfind_char(cs@.subrange(lo as int, hi as int), c) == rfind_char(cs@.subrange(lo as int, k as int), c),
        decreases k,
    {
        let ghost cur = cs@.subrange(lo as int, k as int);
        if cs[k - 1] == c {
            proof {
                assert(cur.last() == c);
            }
            return Some(k - 1 - lo);
        }
        proof {
            assert(cur.drop_last() =~= cs@.subrange(lo as int, k - 1));
        }
        k = k - 1;
    }
    None
}

/// Whether `cs[lo..hi]` is all ASCII digits.
pub fn all_digits_in(cs: &Vec<char>, lo: usize, hi: usize) -> (r: bool)
    requires
        lo <= hi <= cs@.len(),
    ensures
        r == all_digits(cs@.subrange(lo as int, hi as int)),
{
    let mut k = lo;
    while k < hi
        invariant
            lo <= k <= hi <= cs@.len(),
            forall|j: int| lo <= j < k ==> is_ascii_digit(#[trigger] cs@[j]),
        decreases hi - k,
    {
        if !('0' <= cs[k] && cs[k] <= '9') {
            proof {
                assert(cs@.subrange(lo as int, hi as int)[k - lo] == cs@[k as int]);
            }
            return false;
        }
        k = k + 1;
    }
    proof {
        assert forall|j: int| 0 <= j < hi - lo implies is_ascii_digit(#[trigger] cs@.subrange(lo as int, hi as int)[j]) by {
            assert(cs@.subrange(lo as int, hi as int)[j] == cs@[lo + j]);
        }
    }
    true
}

// ---------------------------------------------------------------------------
// Integer text round trip
// ---------------------------------------------------------------------------

pub proof fn lemma_dec_text(n: nat)
    ensures
        dec_text(n).len() >= 1,
        all_digits(dec_text(n)),
        digits_value(dec_text(n)) == n,
    decreases n,
{
    let c = digit_char(n % 10);
    assert((c as u32) as int - 48 == n % 10);
    if n >= 10 {
        lemma_dec_text(n / 10);
        let s = dec_text(n);
        assert(s.drop_last() =~= dec_text(n / 10));
        assert(s.last() == c);
        assert((n / 10) * 10 + n % 10 == n) by (nonlinear_arith);
        assert(digits_value(s) == digits_value(dec_text(n / 10)) * 10 + n % 10);
        assert forall|i: int| 0 <= i < s.len() implies is_ascii_digit(#[trigger] s[i]) by {
            if i < s.len() - 1 {
                assert(s[i] == dec_text(n / 10)[i]);
            }
        }
    } else {
        assert(dec_text(n).drop_last().len() == 0);
        assert(digits_value(dec_text(n).drop_last()) == 0);
        assert(n % 10 == n);
    }
}

/// `to_string` of an integer reads back through `parse::<i32>`.
pub proof fn lemma_int_text_parses(i: i32)
    ensures
        parse_i32_spec(int_text(i as int)) == Some(i),
        forall|j: int| 0 <= j < int_text(i as int).len() ==> #[trigger] int_text(i as int)[j] == '-' || is_ascii_digit(int_text(i as int)[j]),
{
    let s = int_text(i as int);
    if i < 0 {
        let m: nat = (-(i as int)) as nat;
        lemma_dec_text(m);
        assert(s.drop_first() =~= dec_text(m));
        assert forall|j: int| 0 <= j < s.len() implies #[trigger] s[j] == '-' || is_ascii_digit(s[j]) by {
            if j > 0 {
                assert(s[j] == dec_text(m)[j - 1]);
            }
        }
    } else {
        lemma_dec_text(i as nat);
        assert(is_ascii_digit(s[0]));
    }
}


// ---------------------------------------------------------------------------
// Ordering
// ---------------------------------------------------------------------------

/// `a < b` as `str` orders text: character by character by code point, a
/// proper prefix first.
pub open spec fn text_lt(a: Seq<char>, b: Seq<char>) -> bool
    decreases a.len(),
{
    if a.len() == 0 {
        b.len() > 0
    } else if b.len() == 0 {
        false
    } else if a[0] != b[0] {
        a[0] < b[0]
    } else {
        text_lt(a.drop_first(), b.drop_first())
    }
}

proof fn lemma_text_lt_irrefl(a: Seq<char>)
    ensures
        !text_lt(a, a),
    decreases a.len(),
{
    if a.len() > 0 {
        lemma_text_lt_irrefl(a.drop_first());
    }
}

proof fn lemma_text_lt_total(a: Seq<char>, b: Seq<char>)
    requires
        a != b,
    ensures
        text_lt(a, b) || text_lt(b, a),
    decreases a.len(),
{
    if a.len() == 0 && b.len() == 0 {
        assert(a =~= b);
    } else if a.len() > 0 && b.len() > 0 && a[0] == b[0] {
        assert(a.drop_first() != b.drop_first()) by {
            if a.drop_first() == b.drop_first() {
                assert(a =~= seq![a[0]] + a.drop_first());
                assert(b =~= seq![b[0]] + b.drop_first());
            }
        }
        lemma_text_lt_total(a.drop_first(), b.drop_first());
    }
}

proof fn lemma_text_lt_asym(a: Seq<char>, b: Seq<char>)
    ensures
        text_lt(a, b) ==> !text_lt(b, a),
    decreases a.len(),
{
    if a.len() > 0 && b.len() > 0 && a[0] == b[0] {
        lemma_text_lt_asym(a.drop_first(), b.drop_first());
    }
}

proof fn lemma_text_lt_trans(a: Seq<char>, b: Seq<char>, c: Seq<char>)
    ensures
        text_lt(a, b) && text_lt(b, c) ==> text_lt(a, c),
    decreases a.len(),
{
    if a.len() > 0 && b.len() > 0 && c.len() > 0 {
        lemma_text_lt_trans(a.drop_first(), b.drop_first(), c.drop_first());
    }
}

/// `text_lt` is a strict total order.
pub proof fn lemma_text_lt_order(a: Seq<char>, b: Seq<char>, c: Seq<char>)
    ensures
        !text_lt(a, a),
        a != b ==> text_lt(a, b) || text_lt(b, a),
        text_lt(a, b) ==> !text_lt(b, a),
        text_lt(a, b) && text_lt(b, c) ==> text_lt(a, c),
{
    lemma_text_lt_irrefl(a);
    if a != b {
        lemma_text_lt_total(a, b);
    }
    lemma_text_lt_asym(a, b);
    lemma_text_lt_trans(a, b, c);
}

/// `a < b` for text.
pub fn text_less(a: &str, b: &str) -> (r: bool)
    ensures
        r == text_lt(a@, b@),
{
    let x = chars_of(a);
    let y = chars_of(b);
    let mut i: usize = 0;
    proof {
        assert(x@.skip(0) =~= x@);
        assert(y@.skip(0) =~= y@);
    }
    while i < x.len() && i < y.len()
        invariant
            i <= x@.len(),
            i <= y@.len(),
            x@ == a@,
            y@ == b@,
            text_lt(a@, b@) == text_lt(x@.skip(i as int), y@.skip(i as int)),
        decreases x@.len() - i,
    {
        let ghost xs = x@.skip(i as int);
        let ghost ys = y@.skip(i as int);
        assert(xs[0] == x@[i as int]);
        assert(ys[0] == y@[i as int]);
        if x[i] != y[i] {
            return x[i] < y[i];
        }
        proof {
            assert(xs.drop_first() =~= x@.skip(i + 1));
            assert(ys.drop_first() =~= y@.skip(i + 1));
        }
        i = i + 1;
    }
    proof {
        assert(x@.skip(i as int).len() == x@.len() - i);
        assert(y@.skip(i as int).len() == y@.len() - i);
    }
    i == x.len() && i < y.len()
}

} // verus!
