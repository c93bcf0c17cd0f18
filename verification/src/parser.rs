//! Parser for IL-2 `.Group` nested-bracket files.
//!
//! The grammar is schema-agnostic: unrecognized keys are kept as string
//! properties, and no schema is required. Every parse function here is stated
//! against a specification of the grammar over the text's characters.

use vstd::prelude::*;
use vstd::string::*;
use crate::ast::{EntityModel, Il2Entity, lemma_children_model};
use crate::text::{chars_of, int_text, is_ascii_alpha, is_ascii_digit, parse_i32_range, parse_i32_spec, push_char, push_int, push_range, push_str, string_from_range, trim, lead_ws, skip_ws_range, trim_end_range, digit, alpha};

verus! {

/// Returned when the text does not match the grammar.
#[derive(Debug, Clone, Copy, PartialEq, Eq)]
pub struct SyntaxError;

// ---------------------------------------------------------------------------
// Grammar, as specification over characters
// ---------------------------------------------------------------------------

/// The separators skipped between tokens: space, tab, CR, LF.
pub open spec fn is_mspace(c: char) -> bool {
    c == ' ' || c == '\t' || c == '\r' || c == '\n'
}

pub open spec fn is_word(c: char) -> bool {
    is_ascii_alpha(c) || is_ascii_digit(c) || c == '_'
}

/// First position at or after `i` that is not a separator.
pub open spec fn ws(s: Seq<char>, i: int) -> int
    decreases s.len() - i,
{
    if 0 <= i < s.len() && is_mspace(s[i]) {
        ws(s, i + 1)
    } else {
        i
    }
}

/// First position at or after `i` that is not a word character.
pub open spec fn word_end(s: Seq<char>, i: int) -> int
    decreases s.len() - i,
{
    if 0 <= i < s.len() && is_word(s[i]) {
        word_end(s, i + 1)
    } else {
        i
    }
}

/// First position at or after `i` that is not an ASCII digit.
pub open spec fn digits_end(s: Seq<char>, i: int) -> int
    decreases s.len() - i,
{
    if 0 <= i < s.len() && is_ascii_digit(s[i]) {
        digits_end(s, i + 1)
    } else {
        i
    }
}

/// First `"` at or after `i` (or the end).
pub open spec fn quote_end(s: Seq<char>, i: int) -> int
    decreases s.len() - i,
{
    if 0 <= i < s.len() && s[i] != '"' {
        quote_end(s, i + 1)
    } else {
        i
    }
}

/// First `;` at or after `i` (or the end).
pub open spec fn semi_end(s: Seq<char>, i: int) -> int
    decreases s.len() - i,
{
    if 0 <= i < s.len() && s[i] != ';' {
        semi_end(s, i + 1)
    } else {
        i
    }
}

pub open spec fn at(s: Seq<char>, i: int, c: char) -> bool {
    0 <= i < s.len() && s[i] == c
}

/// Identifier: a letter or `_`, then letters, digits and `_`. Returns its end.
pub open spec fn ident(s: Seq<char>, i: int) -> Option<int> {
    if 0 <= i < s.len() && (is_ascii_alpha(s[i]) || s[i] == '_') {
        Some(word_end(s, i + 1))
    } else {
        None
    }
}

/// Signed integer: optional `-`, digits, in range of `i32`. Returns (end, value).
pub open spec fn integer(s: Seq<char>, i: int) -> Option<(int, i32)> {
    let j = if at(s, i, '-') { i + 1 } else { i };
    let k = digits_end(s, j);
    if 0 <= i <= s.len() && k > j {
        match parse_i32_spec(s.subrange(i, k)) {
            Some(v) => Some((k, v)),
            None => None,
        }
    } else {
        None
    }
}

/// Numeric literal kept as text: optional `-`, digits, optional `.digits`.
pub open spec fn float_end(s: Seq<char>, i: int) -> Option<int> {
    let j = if at(s, i, '-') { i + 1 } else { i };
    let k = digits_end(s, j);
    if 0 <= i <= s.len() && k > j {
        if at(s, k, '.') && digits_end(s, k + 1) > k + 1 {
            Some(digits_end(s, k + 1))
        } else {
            Some(k)
        }
    } else {
        None
    }
}

/// `, id` repetitions after the first id of a link array.
pub open spec fn more_ids(s: Seq<char>, k: int) -> (int, Seq<i32>)
    decreases s.len() - k,
{
    let a = ws(s, k);
    if 0 <= k <= s.len() && at(s, a, ',') {
        let b = ws(s, a + 1);
        match integer(s, b) {
            Some((c, v)) => if k < c <= s.len() {
                let r = more_ids(s, c);
                (r.0, seq![v] + r.1)
            } else {
                (k, seq![])
            },
            None => (k, seq![]),
        }
    } else {
        (k, seq![])
    }
}

/// Comma-separated ids (possibly none).
pub open spec fn id_list(s: Seq<char>, j: int) -> (int, Seq<i32>) {
    match integer(s, j) {
        Some((k, v)) => {
            let r = more_ids(s, k);
            (r.0, seq![v] + r.1)
        },
        None => (j, seq![]),
    }
}

/// Link array `[a, b, ...]`. Returns (end, ids).
pub open spec fn int_array(s: Seq<char>, i: int) -> Option<(int, Seq<i32>)> {
    if at(s, i, '[') {
        let j = ws(s, i + 1);
        let r = id_list(s, j);
        let m = ws(s, r.0);
        if at(s, m, ']') {
            Some((m + 1, r.1))
        } else {
            None
        }
    } else {
        None
    }
}

/// The ids of a link-array property text; empty when it is not one.
pub open spec fn array_ids(v: Seq<char>) -> Seq<i32> {
    match int_array(v, 0) {
        Some((_, ids)) => ids,
        None => seq![],
    }
}

/// Quoted text `"..."`. Returns (end, text with its quotes).
pub open spec fn quoted(s: Seq<char>, i: int) -> Option<(int, Seq<char>)> {
    if at(s, i, '"') {
        let c = quote_end(s, i + 1);
        if c < s.len() {
            Some((c + 1, s.subrange(i, c + 1)))
        } else {
            None
        }
    } else {
        None
    }
}

/// One item of a block body.
pub enum ItemModel {
    Prop(Seq<char>, Seq<char>),
    Child(EntityModel),
    List(Seq<char>),
}

/// Quoted list item `"...";`.
pub open spec fn quoted_item(s: Seq<char>, i: int) -> Option<(int, Seq<char>)> {
    match quoted(s, i) {
        Some((e, t)) => {
            let m = ws(s, e);
            if at(s, m, ';') {
                Some((m + 1, t))
            } else {
                None
            }
        },
        None => None,
    }
}

/// Unquoted vertex `a, b;`, kept as `a, b`.
pub open spec fn coord_item(s: Seq<char>, i: int) -> Option<(int, Seq<char>)> {
    match float_end(s, i) {
        Some(a) => {
            let p = ws(s, a);
            if at(s, p, ',') {
                let q = ws(s, p + 1);
                match float_end(s, q) {
                    Some(b) => {
                        let m = ws(s, b);
                        if at(s, m, ';') {
                            Some((m + 1, s.subrange(i, a) + seq![',', ' '] + s.subrange(q, b)))
                        } else {
                            None
                        }
                    },
                    None => None,
                }
            } else {
                None
            }
        },
        None => None,
    }
}

/// Property key: an identifier, or an integer (kept in canonical decimal).
pub open spec fn prop_key(s: Seq<char>, i: int) -> Option<(int, Seq<char>)> {
    match ident(s, i) {
        Some(e) => Some((e, s.subrange(i, e))),
        None => match integer(s, i) {
            Some((e, v)) => Some((e, int_text(v as int))),
            None => None,
        },
    }
}

/// Property value: quoted text, a link array, or everything up to `;` trimmed.
pub open spec fn prop_value(s: Seq<char>, i: int) -> (int, Seq<char>) {
    match quoted(s, i) {
        Some((e, t)) => (e, t),
        None => match int_array(s, i) {
            Some((e, _)) => (e, s.subrange(i, e)),
            None => {
                let e = semi_end(s, i);
                (e, trim(s.subrange(i, e)))
            },
        },
    }
}

/// `key = value;`
pub open spec fn property(s: Seq<char>, i: int) -> Option<(int, Seq<char>, Seq<char>)> {
    match prop_key(s, i) {
        Some((k, key)) => {
            let a = ws(s, k);
            if at(s, a, '=') {
                let b = ws(s, a + 1);
                let v = prop_value(s, b);
                if 0 <= b <= s.len() && at(s, v.0, ';') {
                    Some((v.0 + 1, key, v.1))
                } else {
                    None
                }
            } else {
                None
            }
        },
        None => None,
    }
}

pub open spec fn empty_model(block_type: Seq<char>) -> EntityModel {
    EntityModel {
        block_type,
        index: None,
        targets: seq![],
        objects: seq![],
        properties: seq![],
        children: seq![],
    }
}

/// How one parsed body item changes the block being built.
pub open spec fn apply_item(e: EntityModel, it: ItemModel) -> EntityModel {
    match it {
        ItemModel::Prop(k, v) => {
            let e2 = if k == "Index"@ {
                EntityModel { index: parse_i32_spec(v), ..e }
            } else if k == "Targets"@ {
                EntityModel { targets: array_ids(v), ..e }
            } else if k == "Objects"@ {
                EntityModel { objects: array_ids(v), ..e }
            } else {
                e
            };
            EntityModel { properties: e2.properties.push((k, v)), ..e2 }
        },
        ItemModel::Child(c) => EntityModel { children: e.children.push(c), ..e },
        ItemModel::List(t) => EntityModel { properties: e.properties.push((seq![], t)), ..e },
    }
}

/// One body item at `i`, after separators; `None` at `}` or end of text.
pub open spec fn body_item(s: Seq<char>, i: int) -> Option<(int, ItemModel)>
    decreases s.len() - i, 1int,
{
    let a = ws(s, i);
    if !(0 <= i <= a < s.len()) || s[a] == '}' {
        None
    } else {
        match quoted_item(s, a) {
            Some((e, t)) => Some((e, ItemModel::List(t))),
            None => match coord_item(s, a) {
                Some((e, t)) => Some((e, ItemModel::List(t))),
                None => match nested(s, a) {
                    Some((e, c)) => Some((e, ItemModel::Child(c))),
                    None => match property(s, a) {
                        Some((e, k, v)) => Some((e, ItemModel::Prop(k, v))),
                        None => None,
                    },
                },
            },
        }
    }
}

/// Body items from `i` on, applied to `e` in order; stops before the first
/// position where no item parses.
pub open spec fn body(s: Seq<char>, i: int, e: EntityModel) -> Option<(int, EntityModel)>
    decreases s.len() - i, 2int,
{
    if !(0 <= i <= s.len()) {
        None
    } else {
        match body_item(s, i) {
            None => Some((i, e)),
            Some((j, it)) => if i < j <= s.len() {
                body(s, j, apply_item(e, it))
            } else {
                None
            },
        }
    }
}

/// `{ items }` after a block's type word. Returns (end, block).
pub open spec fn block_rest(s: Seq<char>, k: int, bt: Seq<char>) -> Option<(int, EntityModel)>
    decreases s.len() - k, 3int,
{
    let a = ws(s, k);
    if 0 <= k <= a && at(s, a, '{') {
        match body(s, a + 1, empty_model(bt)) {
            Some((m, e)) => {
                let z = ws(s, m);
                if at(s, z, '}') {
                    Some((z + 1, e))
                } else {
                    None
                }
            },
            None => None,
        }
    } else {
        None
    }
}

/// Nested block `Type { ... }` starting exactly at `i`.
pub open spec fn nested(s: Seq<char>, i: int) -> Option<(int, EntityModel)>
    decreases s.len() - i, 0int,
{
    match ident(s, i) {
        Some(k) => if 0 <= i < k <= s.len() {
            block_rest(s, k, s.subrange(i, k))
        } else {
            None
        },
        None => None,
    }
}

/// A top-level block, after optional separators.
pub open spec fn entity(s: Seq<char>, i: int) -> Option<(int, EntityModel)> {
    let a = ws(s, i);
    if 0 <= i <= a {
        nested(s, a)
    } else {
        None
    }
}


// ---------------------------------------------------------------------------
// Executable grammar
// ---------------------------------------------------------------------------

fn mspace(c: char) -> (r: bool)
    ensures
        r == is_mspace(c),
{
    c == ' ' || c == '\t' || c == '\r' || c == '\n'
}

fn word(c: char) -> (r: bool)
    ensures
        r == is_word(c),
{
    alpha(c) || digit(c) || c == '_'
}

fn skip_ms(cs: &Vec<char>, i: usize) -> (r: usize)
    requires
        i <= cs@.len(),
    ensures
        r as int == ws(cs@, i as int),
        i <= r <= cs@.len(),
{
    let mut p = i;
    while p < cs.len() && mspace(cs[p])
        invariant
            i <= p <= cs@.len(),
            ws(cs@, i as int) == ws(cs@, p as int),
        decreases cs@.len() - p,
    {
        p = p + 1;
    }
    p
}

fn word_end_x(cs: &Vec<char>, i: usize) -> (r: usize)
    requires
        i <= cs@.len(),
    ensures
        r as int == word_end(cs@, i as int),
        i <= r <= cs@.len(),
{
    let mut p = i;
    while p < cs.len() && word(cs[p])
        invariant
            i <= p <= cs@.len(),
            word_end(cs@, i as int) == word_end(cs@, p as int),
        decreases cs@.len() - p,
    {
        p = p + 1;
    }
    p
}

fn digits_end_x(cs: &Vec<char>, i: usize) -> (r: usize)
    requires
        i <= cs@.len(),
    ensures
        r as int == digits_end(cs@, i as int),
        i <= r <= cs@.len(),
{
    let mut p = i;
    while p < cs.len() && digit(cs[p])
        invariant
            i <= p <= cs@.len(),
            digits_end(cs@, i as int) == digits_end(cs@, p as int),
        decreases cs@.len() - p,
    {
        p = p + 1;
    }
    p
}

fn quote_end_x(cs: &Vec<char>, i: usize) -> (r: usize)
    requires
        i <= cs@.len(),
    ensures
        r as int == quote_end(cs@, i as int),
        i <= r <= cs@.len(),
{
    let mut p = i;
    while p < cs.len() && cs[p] != '"'
        invariant
            i <= p <= cs@.len(),
            quote_end(cs@, i as int) == quote_end(cs@, p as int),
        decreases cs@.len() - p,
    {
        p = p + 1;
    }
    p
}

fn semi_end_x(cs: &Vec<char>, i: usize) -> (r: usize)
    requires
        i <= cs@.len(),
    ensures
        r as int == semi_end(cs@, i as int),
        i <= r <= cs@.len(),
{
    let mut p = i;
    while p < cs.len() && cs[p] != ';'
        invariant
            i <= p <= cs@.len(),
            semi_end(cs@, i as int) == semi_end(cs@, p as int),
        decreases cs@.len() - p,
    {
        p = p + 1;
    }
    p
}

fn at_x(cs: &Vec<char>, i: usize, c: char) -> (r: bool)
    ensures
        r == at(cs@, i as int, c),
        r ==> i < cs@.len() <= usize::MAX,
{
    let n = cs.len();
    i < n && cs[i] == c
}

fn ident_x(cs: &Vec<char>, i: usize) -> (r: Option<usize>)
    requires
        i <= cs@.len(),
    ensures
        r matches Some(e) ==> ident(cs@, i as int) == Some(e as int) && i < e <= cs@.len(),
        r is None ==> ident(cs@, i as int) is None,
{
    if i < cs.len() && (alpha(cs[i]) || cs[i] == '_') {
        Some(word_end_x(cs, i + 1))
    } else {
        None
    }
}

fn integer_x(cs: &Vec<char>, i: usize) -> (r: Option<(usize, i32)>)
    requires
        i <= cs@.len(),
    ensures
        r matches Some((e, v)) ==> integer(cs@, i as int) == Some((e as int, v)) && i < e <= cs@.len(),
        r is None ==> integer(cs@, i as int) is None,
{
    let j = if at_x(cs, i, '-') { i + 1 } else { i };
    let k = digits_end_x(cs, j);
    if k > j {
        match parse_i32_range(cs, i, k) {
            Some(v) => Some((k, v)),
            None => None,
        }
    } else {
        None
    }
}

fn float_end_x(cs: &Vec<char>, i: usize) -> (r: Option<usize>)
    requires
        i <= cs@.len(),
    ensures
        r matches Some(e) ==> float_end(cs@, i as int) == Some(e as int) && i < e <= cs@.len(),
        r is None ==> float_end(cs@, i as int) is None,
{
    let j = if at_x(cs, i, '-') { i + 1 } else { i };
    let k = digits_end_x(cs, j);
    if k > j {
        if at_x(cs, k, '.') {
            let d = digits_end_x(cs, k + 1);
            if d > k + 1 {
                return Some(d);
            }
        }
        Some(k)
    } else {
        None
    }
}

fn int_array_x(cs: &Vec<char>, i: usize) -> (r: Option<(usize, Vec<i32>)>)
    requires
        i <= cs@.len(),
    ensures
        r matches Some((e, ids)) ==> int_array(cs@, i as int) == Some((e as int, ids@)) && i < e <= cs@.len(),
        r is None ==> int_array(cs@, i as int) is None,
{
    if !at_x(cs, i, '[') {
        return None;
    }
    let j = skip_ms(cs, i + 1);
    let mut ids: Vec<i32> = Vec::new();
    let mut k = j;
    match integer_x(cs, j) {
        None => {},
        Some((e, v)) => {
            ids.push(v);
            k = e;
            let ghost first = seq![v];
            proof {
                assert(id_list(cs@, j as int) == (more_ids(cs@, e as int).0, first + more_ids(cs@, e as int).1));
            }
            loop
                invariant
                    j < k <= cs@.len(),
                    id_list(cs@, j as int) == (more_ids(cs@, k as int).0, ids@ + more_ids(cs@, k as int).1),
                ensures
                    j < k <= cs@.len(),
                    id_list(cs@, j as int) == (more_ids(cs@, k as int).0, ids@ + more_ids(cs@, k as int).1),
                    more_ids(cs@, k as int) == (k as int, Seq::<i32>::empty()),
                decreases cs@.len() - k,
            {
                let a = skip_ms(cs, k);
                if !at_x(cs, a, ',') {
                    break;
                }
                let b = skip_ms(cs, a + 1);
                match integer_x(cs, b) {
                    Some((c, v2)) => {
                        proof {
                            let r = more_ids(cs@, c as int);
                            assert(more_ids(cs@, k as int) == (r.0, seq![v2] + r.1));
                            assert(ids@ + (seq![v2] + r.1) =~= ids@.push(v2) + r.1);
                        }
                        ids.push(v2);
                        k = c;
                    },
                    None => {
                        break;
                    },
                }
            }
        },
    }
    proof {
        assert(id_list(cs@, j as int) == (k as int, ids@)) by {
            if integer(cs@, j as int) is Some {
                assert(more_ids(cs@, k as int) == (k as int, Seq::<i32>::empty()));
                assert(ids@ + Seq::<i32>::empty() =~= ids@);
            }
        }
    }
    let m = skip_ms(cs, k);
    if at_x(cs, m, ']') {
        Some((m + 1, ids))
    } else {
        None
    }
}

/// `parse_integer_array` on a property text; empty when it is not an array.
fn array_ids_x(v: &str) -> (r: Vec<i32>)
    ensures
        r@ == array_ids(v@),
{
    let cs = chars_of(v);
    match int_array_x(&cs, 0) {
        Some((_, ids)) => ids,
        None => Vec::new(),
    }
}

fn quoted_x(cs: &Vec<char>, i: usize) -> (r: Option<usize>)
    requires
        i <= cs@.len(),
    ensures
        r matches Some(e) ==> quoted(cs@, i as int) == Some((e as int, cs@.subrange(i as int, e as int))) && i < e <= cs@.len(),
        r is None ==> quoted(cs@, i as int) is None,
{
    if at_x(cs, i, '"') {
        let c = quote_end_x(cs, i + 1);
        if c < cs.len() {
            Some(c + 1)
        } else {
            None
        }
    } else {
        None
    }
}

fn quoted_item_x(cs: &Vec<char>, i: usize) -> (r: Option<(usize, String)>)
    requires
        i <= cs@.len(),
    ensures
        r matches Some((e, t)) ==> quoted_item(cs@, i as int) == Some((e as int, t@)) && i < e <= cs@.len(),
        r is None ==> quoted_item(cs@, i as int) is None,
{
    match quoted_x(cs, i) {
        Some(e) => {
            let m = skip_ms(cs, e);
            if at_x(cs, m, ';') {
                Some((m + 1, string_from_range(cs, i, e)))
            } else {
                None
            }
        },
        None => None,
    }
}

fn coord_item_x(cs: &Vec<char>, i: usize) -> (r: Option<(usize, String)>)
    requires
        i <= cs@.len(),
    ensures
        r matches Some((e, t)) ==> coord_item(cs@, i as int) == Some((e as int, t@)) && i < e <= cs@.len(),
        r is None ==> coord_item(cs@, i as int) is None,
{
    let a = match float_end_x(cs, i) {
        Some(a) => a,
        None => return None,
    };
    let p = skip_ms(cs, a);
    if !at_x(cs, p, ',') {
        return None;
    }
    let q = skip_ms(cs, p + 1);
    let b = match float_end_x(cs, q) {
        Some(b) => b,
        None => return None,
    };
    let m = skip_ms(cs, b);
    if !at_x(cs, m, ';') {
        return None;
    }
    let mut t = String::new();
    push_range(&mut t, cs, i, a);
    push_char(&mut t, ',');
    push_char(&mut t, ' ');
    push_range(&mut t, cs, q, b);
    proof {
        assert(t@ =~= cs@.subrange(i as int, a as int) + seq![',', ' '] + cs@.subrange(q as int, b as int));
    }
    Some((m + 1, t))
}

fn prop_key_x(cs: &Vec<char>, i: usize) -> (r: Option<(usize, String)>)
    requires
        i <= cs@.len(),
    ensures
        r matches Some((e, k)) ==> prop_key(cs@, i as int) == Some((e as int, k@)) && i < e <= cs@.len(),
        r is None ==> prop_key(cs@, i as int) is None,
{
    match ident_x(cs, i) {
        Some(e) => Some((e, string_from_range(cs, i, e))),
        None => match integer_x(cs, i) {
            Some((e, v)) => {
                let mut k = String::new();
                push_int(&mut k, v as i64);
                proof {
                    assert(k@ =~= int_text(v as int));
                }
                Some((e, k))
            },
            None => None,
        },
    }
}

fn prop_value_x(cs: &Vec<char>, i: usize) -> (r: (usize, String))
    requires
        i <= cs@.len(),
    ensures
        prop_value(cs@, i as int) == (r.0 as int, r.1@),
        i <= r.0 <= cs@.len(),
{
    match quoted_x(cs, i) {
        Some(e) => (e, string_from_range(cs, i, e)),
        None => match int_array_x(cs, i) {
            Some((e, _)) => (e, string_from_range(cs, i, e)),
            None => {
                let e = semi_end_x(cs, i);
                let a = skip_ws_range(cs, i, e);
                let b = trim_end_range(cs, a, e);
                proof {
                    let t = cs@.subrange(i as int, e as int);
                    assert(t.subrange(lead_ws(t) as int, t.len() as int) =~= cs@.subrange(a as int, e as int));
                    assert(trim(t) =~= cs@.subrange(a as int, b as int));
                }
                (e, string_from_range(cs, a, b))
            },
        },
    }
}

fn property_x(cs: &Vec<char>, i: usize) -> (r: Option<(usize, String, String)>)
    requires
        i <= cs@.len(),
    ensures
        r matches Some((e, k, v)) ==> property(cs@, i as int) == Some((e as int, k@, v@)) && i < e <= cs@.len(),
        r is None ==> property(cs@, i as int) is None,
{
    let (k, key) = match prop_key_x(cs, i) {
        Some(x) => x,
        None => return None,
    };
    let a = skip_ms(cs, k);
    if !at_x(cs, a, '=') {
        return None;
    }
    let b = skip_ms(cs, a + 1);
    let (e, value) = prop_value_x(cs, b);
    if at_x(cs, e, ';') {
        Some((e + 1, key, value))
    } else {
        None
    }
}

/// One parsed body item.
enum Item {
    Prop(String, String),
    Child(Il2Entity),
    List(String),
}

spec fn item_model(it: Item) -> ItemModel {
    match it {
        Item::Prop(k, v) => ItemModel::Prop(k@, v@),
        Item::Child(c) => ItemModel::Child(c@),
        Item::List(t) => ItemModel::List(t@),
    }
}

fn apply_item_x(e: &mut Il2Entity, it: Item)
    ensures
        final(e)@ == apply_item(old(e)@, item_model(it)),
{
    proof {
        lemma_children_model(*e);
    }
    match it {
        Item::Prop(k, v) => {
            if crate::text::str_eq(k.as_str(), "Index") {
                e.index = crate::text::parse_i32(v.as_str());
            } else if crate::text::str_eq(k.as_str(), "Targets") {
                e.targets = array_ids_x(v.as_str());
            } else if crate::text::str_eq(k.as_str(), "Objects") {
                e.objects = array_ids_x(v.as_str());
            }
            let ghost mid = *e;
            e.properties.push((k, v));
            proof {
                lemma_children_model(*e);
                assert(e@.properties =~= mid@.properties.push((k@, v@)));
                assert(e@.children =~= old(e)@.children);
            }
        },
        Item::Child(c) => {
            e.children.push(c);
            proof {
                lemma_children_model(*e);
                assert(e@.children =~= old(e)@.children.push(c@));
            }
        },
        Item::List(t) => {
            e.properties.push((String::new(), t));
            proof {
                lemma_children_model(*e);
                assert(e@.properties =~= old(e)@.properties.push((Seq::<char>::empty(), t@)));
                assert(e@.children =~= old(e)@.children);
            }
        },
    }
}

fn body_item_x(cs: &Vec<char>, i: usize) -> (r: Option<(usize, Item)>)
    requires
        i <= cs@.len(),
    ensures
        r matches Some((e, it)) ==> body_item(cs@, i as int) == Some((e as int, item_model(it))) && e <= cs@.len(),
        r is None ==> body_item(cs@, i as int) is None,
    decreases cs@.len() - i, 1int,
{
    let a = skip_ms(cs, i);
    let n = cs.len();
    if a >= n || cs[a] == '}' {
        return None;
    }
    if let Some((e, t)) = quoted_item_x(cs, a) {
        return Some((e, Item::List(t)));
    }
    if let Some((e, t)) = coord_item_x(cs, a) {
        return Some((e, Item::List(t)));
    }
    if let Some((e, c)) = nested_x(cs, a) {
        return Some((e, Item::Child(c)));
    }
    if let Some((e, k, v)) = property_x(cs, a) {
        return Some((e, Item::Prop(k, v)));
    }
    None
}

fn body_x(cs: &Vec<char>, i: usize, e: Il2Entity) -> (r: Option<(usize, Il2Entity)>)
    requires
        i <= cs@.len(),
    ensures
        r matches Some((j, x)) ==> body(cs@, i as int, e@) == Some((j as int, x@)) && i <= j <= cs@.len(),
        r is None ==> body(cs@, i as int, e@) is None,
    decreases cs@.len() - i, 2int,
{
    let mut cur = e;
    let mut p = i;
    loop
        invariant
            i <= p <= cs@.len(),
            body(cs@, i as int, e@) == body(cs@, p as int, cur@),
        decreases cs@.len() - p,
    {
        match body_item_x(cs, p) {
            None => {
                return Some((p, cur));
            },
            Some((j, it)) => {
                if p < j && j <= cs.len() {
                    apply_item_x(&mut cur, it);
                    p = j;
                } else {
                    return None;
                }
            },
        }
    }
}

fn block_rest_x(cs: &Vec<char>, k: usize, bt: String) -> (r: Option<(usize, Il2Entity)>)
    requires
        k <= cs@.len(),
    ensures
        r matches Some((e, x)) ==> block_rest(cs@, k as int, bt@) == Some((e as int, x@)) && k < e <= cs@.len(),
        r is None ==> block_rest(cs@, k as int, bt@) is None,
    decreases cs@.len() - k, 3int,
{
    let a = skip_ms(cs, k);
    if !at_x(cs, a, '{') {
        return None;
    }
    let empty = Il2Entity {
        block_type: bt,
        index: None,
        targets: Vec::new(),
        objects: Vec::new(),
        properties: Vec::new(),
        children: Vec::new(),
    };
    proof {
        lemma_children_model(empty);
        assert(empty@.children =~= Seq::<EntityModel>::empty());
        assert(empty@.properties =~= Seq::<(Seq<char>, Seq<char>)>::empty());
        assert(empty@ == empty_model(bt@));
    }
    match body_x(cs, a + 1, empty) {
        Some((m, x)) => {
            let z = skip_ms(cs, m);
            if at_x(cs, z, '}') {
                Some((z + 1, x))
            } else {
                None
            }
        },
        None => None,
    }
}

fn nested_x(cs: &Vec<char>, i: usize) -> (r: Option<(usize, Il2Entity)>)
    requires
        i <= cs@.len(),
    ensures
        r matches Some((e, x)) ==> nested(cs@, i as int) == Some((e as int, x@)) && i < e <= cs@.len(),
        r is None ==> nested(cs@, i as int) is None,
    decreases cs@.len() - i, 0int,
{
    match ident_x(cs, i) {
        Some(k) => {
            let bt = string_from_range(cs, i, k);
            block_rest_x(cs, k, bt)
        },
        None => None,
    }
}

/// A top-level block of `cs` starting at `i` (after separators).
pub fn entity_at(cs: &Vec<char>, i: usize) -> (r: Option<(usize, Il2Entity)>)
    requires
        i <= cs@.len(),
    ensures
        r matches Some((e, x)) ==> entity(cs@, i as int) == Some((e as int, x@)) && i < e <= cs@.len(),
        r is None ==> entity(cs@, i as int) is None,
{
    let a = skip_ms(cs, i);
    nested_x(cs, a)
}


// ---------------------------------------------------------------------------
// Public entry points
// ---------------------------------------------------------------------------

/// Identifier: `Group`, `MCU_TR_Entity`, `XPos`, ... Returns (rest, identifier).
pub fn parse_identifier(input: &str) -> (r: Result<(&str, &str), SyntaxError>)
    ensures
        match ident(input@, 0) {
            Some(e) => r matches Ok((rest, id)) && id@ == input@.subrange(0, e) && rest@ == input@.subrange(e, input@.len() as int),
            None => r is Err,
        },
{
    let cs = chars_of(input);
    match ident_x(&cs, 0) {
        Some(e) => Ok((input.substring_char(e, cs.len()), input.substring_char(0, e))),
        None => Err(SyntaxError),
    }
}

/// Signed integer used by `Index` and MCU link arrays. Returns (rest, value).
pub fn parse_integer(input: &str) -> (r: Result<(&str, i32), SyntaxError>)
    ensures
        match integer(input@, 0) {
            Some((e, v)) => r matches Ok((rest, x)) && x == v && rest@ == input@.subrange(e, input@.len() as int),
            None => r is Err,
        },
{
    let cs = chars_of(input);
    match integer_x(&cs, 0) {
        Some((e, v)) => Ok((input.substring_char(e, cs.len()), v)),
        None => Err(SyntaxError),
    }
}

/// Numeric literal kept as text (`-1`, `1000.000`, `358.7`). Returns (rest, text).
pub fn parse_float(input: &str) -> (r: Result<(&str, &str), SyntaxError>)
    ensures
        match float_end(input@, 0) {
            Some(e) => r matches Ok((rest, t)) && t@ == input@.subrange(0, e) && rest@ == input@.subrange(e, input@.len() as int),
            None => r is Err,
        },
{
    let cs = chars_of(input);
    match float_end_x(&cs, 0) {
        Some(e) => Ok((input.substring_char(e, cs.len()), input.substring_char(0, e))),
        None => Err(SyntaxError),
    }
}

/// Integer array: `[]`, `[43311]`, `[43590,43591]`, `[1, 2]`. Returns (rest, ids).
pub fn parse_integer_array(input: &str) -> (r: Result<(&str, Vec<i32>), SyntaxError>)
    ensures
        match int_array(input@, 0) {
            Some((e, ids)) => r matches Ok((rest, x)) && x@ == ids && rest@ == input@.subrange(e, input@.len() as int),
            None => r is Err,
        },
{
    let cs = chars_of(input);
    match int_array_x(&cs, 0) {
        Some((e, ids)) => Ok((input.substring_char(e, cs.len()), ids)),
        None => Err(SyntaxError),
    }
}

/// One top-level block (`Group { ... }`), after optional separators. Returns (rest, block).
pub fn parse_entity(input: &str) -> (r: Result<(&str, Il2Entity), SyntaxError>)
    ensures
        match entity(input@, 0) {
            Some((e, x)) => r matches Ok((rest, y)) && y@ == x && rest@ == input@.subrange(e, input@.len() as int),
            None => r is Err,
        },
{
    let cs = chars_of(input);
    match entity_at(&cs, 0) {
        Some((e, x)) => Ok((input.substring_char(e, cs.len()), x)),
        None => Err(SyntaxError),
    }
}

/// Characters skipped before the first block: a leading byte-order mark.
pub open spec fn bom_len(s: Seq<char>) -> int {
    if s.len() > 0 && s[0] == '\u{feff}' {
        1
    } else {
        0
    }
}

/// Message for text left over after the block: its UTF-8 size and first 80 characters.
pub open spec fn trailing_message(rest: Seq<char>) -> Seq<char> {
    "trailing unparsed input ("@ + int_text(vstd::utf8::encode_utf8(rest).len() as int) + " bytes): "@
        + rest.take(if rest.len() < 80 { rest.len() as int } else { 80 })
}

pub open spec fn parse_error_message() -> Seq<char> {
    "parse error: invalid .Group syntax"@
}

/// Parse a complete `.Group` file: one block, optionally after a byte-order
/// mark, with nothing but white space after it.
pub fn parse_group_file(input: &str) -> (r: Result<Il2Entity, String>)
    ensures
        match entity(input@, bom_len(input@)) {
            None => r matches Err(msg) && msg@ == parse_error_message(),
            Some((e, x)) => {
                let rest = trim(input@.subrange(e, input@.len() as int));
                if rest.len() == 0 {
                    r matches Ok(y) && y@ == x
                } else {
                    r matches Err(msg) && msg@ == trailing_message(rest)
                }
            },
        },
{
    let cs = chars_of(input);
    let start: usize = if cs.len() > 0 && cs[0] == '\u{feff}' { 1 } else { 0 };
    match entity_at(&cs, start) {
        None => Err("parse error: invalid .Group syntax".to_owned()),
        Some((e, x)) => {
            let a = skip_ws_range(&cs, e, cs.len());
            let b = trim_end_range(&cs, a, cs.len());
            proof {
                let t = cs@.subrange(e as int, cs@.len() as int);
                assert(t.subrange(lead_ws(t) as int, t.len() as int) =~= cs@.subrange(a as int, cs@.len() as int));
                assert(trim(t) =~= cs@.subrange(a as int, b as int));
            }
            if a == b {
                Ok(x)
            } else {
                let rest = input.substring_char(a, b);
                let take: usize = if b - a < 80 { b - a } else { 80 };
                let mut msg = "trailing unparsed input (".to_owned();
                let nbytes = rest.as_bytes().len();
                crate::text::push_dec(&mut msg, nbytes as u64);
                push_str(&mut msg, " bytes): ");
                push_range(&mut msg, &cs, a, a + take);
                proof {
                    let t = cs@.subrange(a as int, b as int);
                    assert(cs@.subrange(a as int, a + take) =~= t.take(take as int));
                    assert(msg@ =~= trailing_message(t));
                }
                Err(msg)
            }
        },
    }
}

/// The blocks of a document from `i` on: white space, then blocks until the end.
pub open spec fn doc_blocks(s: Seq<char>, i: int) -> Option<Seq<EntityModel>>
    decreases s.len() - i,
{
    if !(0 <= i <= s.len()) {
        None
    } else {
        let a = i + lead_ws(s.subrange(i, s.len() as int));
        if a >= s.len() {
            Some(seq![])
        } else {
            match entity(s, a) {
                None => None,
                Some((e, x)) => if i < e <= s.len() {
                    match doc_blocks(s, e) {
                        Some(rest) => Some(seq![x] + rest),
                        None => None,
                    }
                } else {
                    None
                },
            }
        }
    }
}

/// The synthetic `Airfield` group that wraps several top-level blocks.
pub open spec fn airfield_wrapper(blocks: Seq<EntityModel>) -> EntityModel {
    EntityModel {
        block_type: "Group"@,
        index: None,
        targets: seq![],
        objects: seq![],
        properties: seq![("Name"@, "\"Airfield\""@), ("Desc"@, "\"\""@)],
        children: blocks,
    }
}

/// Parse a `.Group` or editor export that may hold one block or several;
/// several top-level blocks are wrapped in a synthetic `Airfield` group.
pub fn parse_il2_document(input: &str) -> (r: Result<Il2Entity, String>)
    ensures
        match doc_blocks(input@, bom_len(input@)) {
            None => r matches Err(msg) && msg@ == parse_error_message(),
            Some(blocks) => if blocks.len() == 0 {
                r matches Err(msg) && msg@ == "file is empty"@
            } else if blocks.len() == 1 {
                r matches Ok(y) && y@ == blocks[0]
            } else {
                r matches Ok(y) && y@ == airfield_wrapper(blocks)
            },
        },
{
    let cs = chars_of(input);
    let start: usize = if cs.len() > 0 && cs[0] == '\u{feff}' { 1 } else { 0 };
    let mut blocks: Vec<Il2Entity> = Vec::new();
    let mut p = start;
    loop
        invariant
            start <= p <= cs@.len(),
            cs@ == input@,
            start as int == bom_len(input@),
            doc_blocks(input@, start as int) == match doc_blocks(input@, p as int) {
                Some(rest) => Some(children_models(blocks@) + rest),
                None => None,
            },
        ensures
            doc_blocks(input@, start as int) == Some(children_models(blocks@)),
        decreases cs@.len() - p,
    {
        let a = skip_ws_range(&cs, p, cs.len());
        if a >= cs.len() {
            proof {
                assert(children_models(blocks@) + Seq::<EntityModel>::empty() =~= children_models(blocks@));
            }
            break;
        }
        match entity_at(&cs, a) {
            None => {
                return Err("parse error: invalid .Group syntax".to_owned());
            },
            Some((e, x)) => {
                proof {
                    assert(children_models(blocks@.push(x)) =~= children_models(blocks@) + seq![x@]);
                    match doc_blocks(input@, e as int) {
                        Some(rest) => {
                            assert(children_models(blocks@) + (seq![x@] + rest) =~= children_models(blocks@.push(x)) + rest);
                        },
                        None => {},
                    }
                }
                blocks.push(x);
                p = e;
            },
        }
    }
    if blocks.len() == 0 {
        return Err("file is empty".to_owned());
    }
    if blocks.len() == 1 {
        let ghost b0 = blocks@[0];
        let x = blocks.pop().unwrap();
        proof {
            assert(children_models(seq![b0])[0] == b0@);
        }
        return Ok(x);
    }
    let mut root = Il2Entity::new("Group");
    root.set_name("Airfield");
    proof {
        reveal_strlit("\"Airfield\"");
        reveal_strlit("Airfield");
        reveal_strlit("Name");
        reveal_strlit("Desc");
        assert(seq!['"'] + "Airfield"@ + seq!['"'] =~= "\"Airfield\""@);
        assert(root@.properties =~= seq![("Name"@, "\"Airfield\""@)]);
        assert("Name"@ != "Desc"@) by {
            assert("Name"@[0] != "Desc"@[0]);
        }
        assert(root@.properties.drop_first() =~= Seq::<(Seq<char>, Seq<char>)>::empty());
        assert(crate::ast::key_pos(root@.properties.drop_first(), "Desc"@) == 0);
        assert(crate::ast::key_pos(root@.properties, "Desc"@) == 1);
    }
    root.set_property("Desc", "\"\"");
    root.children = blocks;
    proof {
        lemma_children_model(root);
        assert(root@.children =~= children_models(root.children@));
        reveal_strlit("\"Airfield\"");
        reveal_strlit("\"\"");
        reveal_strlit("Airfield");
        reveal_strlit("Name");
        reveal_strlit("Desc");
        assert(seq!['"'] + "Airfield"@ + seq!['"'] =~= "\"Airfield\""@);
        assert(root@.properties =~= seq![("Name"@, "\"Airfield\""@), ("Desc"@, "\"\""@)]);
    }
    Ok(root)
}

pub open spec fn children_models(c: Seq<Il2Entity>) -> Seq<EntityModel> {
    Seq::new(c.len(), |i: int| c[i]@)
}

} // verus!
