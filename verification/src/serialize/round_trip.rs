//! Reading written text back: the parser returns the very block the
//! serializer wrote, for every block whose text is in written form.

use vstd::prelude::*;
use crate::ast::{EntityModel, int_array_text, join_ints};
use crate::parser::{ItemModel, apply_item, array_ids, at, body, body_item, block_rest, bom_len, coord_item, digits_end, empty_model, entity, float_end, ident, int_array, integer, is_mspace, is_word, more_ids, nested, prop_key, prop_value, property, quote_end, quoted, quoted_item, semi_end, word_end, ws};
use crate::serialize::{block_text, children_text, crlf, pad, prop_line, prop_lines, rendered};
use crate::text::{
    all_digits, int_text, is_ascii_alpha, is_ascii_digit, is_ws, lemma_int_text_parses, lemma_lead_ws_exact,
    lemma_trail_ws_exact, parse_i32_spec, trim,
};

verus! {

// ---------------------------------------------------------------------------
// Text at a position
// ---------------------------------------------------------------------------

/// `t` stands in `s` from position `p` on.
pub open spec fn text_at(s: Seq<char>, p: int, t: Seq<char>) -> bool {
    0 <= p && p + t.len() <= s.len() && s.subrange(p, p + t.len()) == t
}

proof fn lemma_text_at_split(s: Seq<char>, p: int, a: Seq<char>, b: Seq<char>)
    requires
        text_at(s, p, a + b),
    ensures
        text_at(s, p, a),
        text_at(s, p + a.len(), b),
{
    let w = s.subrange(p, p + (a + b).len());
    assert(w == a + b);
    assert(s.subrange(p, p + a.len()) =~= w.subrange(0, a.len() as int));
    assert(w.subrange(0, a.len() as int) =~= a);
    assert(s.subrange(p + a.len(), p + a.len() + b.len()) =~= w.subrange(a.len() as int, w.len() as int));
    assert(w.subrange(a.len() as int, w.len() as int) =~= b);
}

proof fn lemma_text_at_char(s: Seq<char>, p: int, t: Seq<char>, j: int)
    requires
        text_at(s, p, t),
        0 <= j < t.len(),
    ensures
        s[p + j] == t[j],
{
    assert(s.subrange(p, p + t.len())[j] == s[p + j]);
}

// ---------------------------------------------------------------------------
// Scans
// ---------------------------------------------------------------------------

proof fn lemma_ws_run(s: Seq<char>, i: int, n: int)
    requires
        0 <= i,
        0 <= n,
        i + n <= s.len(),
        forall|j: int| i <= j < i + n ==> is_mspace(#[trigger] s[j]),
        i + n == s.len() || !is_mspace(s[i + n]),
    ensures
        ws(s, i) == i + n,
    decreases n,
{
    if n > 0 {
        lemma_ws_run(s, i + 1, n - 1);
    }
}

proof fn lemma_word_run(s: Seq<char>, i: int, n: int)
    requires
        0 <= i,
        0 <= n,
        i + n <= s.len(),
        forall|j: int| i <= j < i + n ==> is_word(#[trigger] s[j]),
        i + n == s.len() || !is_word(s[i + n]),
    ensures
        word_end(s, i) == i + n,
    decreases n,
{
    if n > 0 {
        lemma_word_run(s, i + 1, n - 1);
    }
}

proof fn lemma_digits_run(s: Seq<char>, i: int, n: int)
    requires
        0 <= i,
        0 <= n,
        i + n <= s.len(),
        forall|j: int| i <= j < i + n ==> is_ascii_digit(#[trigger] s[j]),
        i + n == s.len() || !is_ascii_digit(s[i + n]),
    ensures
        digits_end(s, i) == i + n,
    decreases n,
{
    if n > 0 {
        lemma_digits_run(s, i + 1, n - 1);
    }
}

proof fn lemma_quote_run(s: Seq<char>, i: int, n: int)
    requires
        0 <= i,
        0 <= n,
        i + n <= s.len(),
        forall|j: int| i <= j < i + n ==> #[trigger] s[j] != '"',
        i + n == s.len() || s[i + n] == '"',
    ensures
        quote_end(s, i) == i + n,
    decreases n,
{
    if n > 0 {
        lemma_quote_run(s, i + 1, n - 1);
    }
}

proof fn lemma_semi_run(s: Seq<char>, i: int, n: int)
    requires
        0 <= i,
        0 <= n,
        i + n <= s.len(),
        forall|j: int| i <= j < i + n ==> #[trigger] s[j] != ';',
        i + n == s.len() || s[i + n] == ';',
    ensures
        semi_end(s, i) == i + n,
    decreases n,
{
    if n > 0 {
        lemma_semi_run(s, i + 1, n - 1);
    }
}

/// A run of separators in front of a non-separator is skipped whole.
proof fn lemma_ws_over(s: Seq<char>, p: int, w: Seq<char>)
    requires
        text_at(s, p, w),
        forall|j: int| 0 <= j < w.len() ==> is_mspace(#[trigger] w[j]),
        p + w.len() == s.len() || !is_mspace(s[p + w.len()]),
    ensures
        ws(s, p) == p + w.len(),
{
    assert forall|j: int| p <= j < p + w.len() implies is_mspace(#[trigger] s[j]) by {
        lemma_text_at_char(s, p, w, j - p);
    }
    lemma_ws_run(s, p, w.len() as int);
}

// ---------------------------------------------------------------------------
// Token shapes
// ---------------------------------------------------------------------------

/// An identifier: a letter or `_`, then letters, digits and `_`.
pub open spec fn ident_text(w: Seq<char>) -> bool {
    &&& w.len() > 0
    &&& is_ascii_alpha(w[0]) || w[0] == '_'
    &&& forall|j: int| 0 <= j < w.len() ==> is_word(#[trigger] w[j])
}

/// A property key as written: an identifier, or an integer in its
/// canonical decimal form.
pub open spec fn key_text(k: Seq<char>) -> bool {
    ||| ident_text(k)
    ||| parse_i32_spec(k) matches Some(x) && k == int_text(x as int)
}

/// Quoted text without inner quotes.
pub open spec fn quoted_text(v: Seq<char>) -> bool {
    &&& v.len() >= 2
    &&& v[0] == '"'
    &&& v[v.len() - 1] == '"'
    &&& forall|j: int| 1 <= j < v.len() - 1 ==> #[trigger] v[j] != '"'
}

/// A link array in canonical form `[a,b,...]`.
pub open spec fn array_text(v: Seq<char>) -> bool {
    v == int_array_text(array_ids(v))
}

/// Plain text: no `;`, no surrounding white space, not opening like a
/// quoted text or a link array.
pub open spec fn plain_text(v: Seq<char>) -> bool {
    &&& forall|j: int| 0 <= j < v.len() ==> #[trigger] v[j] != ';'
    &&& v.len() > 0 ==> v[0] != '"' && v[0] != '[' && !is_ws(v[0]) && !is_ws(v[v.len() - 1])
}

/// A property value as written.
pub open spec fn value_text(v: Seq<char>) -> bool {
    quoted_text(v) || array_text(v) || plain_text(v)
}

proof fn lemma_ident_at(s: Seq<char>, p: int, w: Seq<char>)
    requires
        text_at(s, p, w),
        ident_text(w),
        p + w.len() == s.len() || !is_word(s[p + w.len()]),
    ensures
        ident(s, p) == Some(p + w.len()),
{
    lemma_text_at_char(s, p, w, 0);
    assert forall|j: int| p + 1 <= j < p + 1 + (w.len() - 1) implies is_word(#[trigger] s[j]) by {
        lemma_text_at_char(s, p, w, j - p);
    }
    lemma_word_run(s, p + 1, w.len() - 1);
}

proof fn lemma_int_text_shape(x: i32)
    ensures
        int_text(x as int).len() >= 1,
        x < 0 ==> int_text(x as int)[0] == '-' && int_text(x as int).len() >= 2,
        forall|j: int| (if x < 0 { 1int } else { 0int }) <= j < int_text(x as int).len() ==> is_ascii_digit(#[trigger] int_text(x as int)[j]),
        parse_i32_spec(int_text(x as int)) == Some(x),
{
    lemma_int_text_parses(x);
    let t = int_text(x as int);
    if x < 0 {
        let m: nat = (-(x as int)) as nat;
        crate::text::lemma_dec_text(m);
        assert forall|j: int| 1 <= j < t.len() implies is_ascii_digit(#[trigger] t[j]) by {
            assert(t[j] == dec_text_of(m)[j - 1]);
            assert(all_digits(dec_text_of(m)));
        }
    } else {
        crate::text::lemma_dec_text(x as nat);
        assert forall|j: int| 0 <= j < t.len() implies is_ascii_digit(#[trigger] t[j]) by {
            assert(all_digits(dec_text_of(x as nat)));
        }
    }
}

spec fn dec_text_of(n: nat) -> Seq<char> {
    crate::text::dec_text(n)
}

proof fn lemma_integer_at(s: Seq<char>, p: int, x: i32)
    requires
        text_at(s, p, int_text(x as int)),
        p + int_text(x as int).len() == s.len() || !is_ascii_digit(s[p + int_text(x as int).len()]),
    ensures
        integer(s, p) == Some((p + int_text(x as int).len(), x)),
{
    let t = int_text(x as int);
    lemma_int_text_shape(x);
    let j: int = if x < 0 { 1 } else { 0 };
    lemma_text_at_char(s, p, t, 0);
    assert forall|q: int| p + j <= q < p + t.len() implies is_ascii_digit(#[trigger] s[q]) by {
        lemma_text_at_char(s, p, t, q - p);
    }
    if x >= 0 {
        assert(is_ascii_digit(t[0]));
    }
    lemma_digits_run(s, p + j, t.len() - j);
    assert(s.subrange(p, p + t.len()) == t);
}

proof fn lemma_key_at(s: Seq<char>, a: int, k: Seq<char>)
    requires
        text_at(s, a, k + seq![' ']),
        key_text(k),
    ensures
        prop_key(s, a) == Some((a + k.len(), k)),
{
    lemma_text_at_split(s, a, k, seq![' ']);
    lemma_text_at_char(s, a + k.len(), seq![' '], 0);
    if ident_text(k) {
        lemma_ident_at(s, a, k);
    } else {
        let x = parse_i32_spec(k)->0;
        lemma_int_text_shape(x);
        lemma_text_at_char(s, a, k, 0);
        if x >= 0 {
            assert(is_ascii_digit(k[0]));
        }
        lemma_integer_at(s, a, x);
    }
}

proof fn lemma_quoted_at(s: Seq<char>, p: int, v: Seq<char>)
    requires
        text_at(s, p, v),
        quoted_text(v),
    ensures
        quoted(s, p) == Some((p + v.len(), v)),
{
    lemma_text_at_char(s, p, v, 0);
    lemma_text_at_char(s, p, v, v.len() - 1);
    assert forall|q: int| p + 1 <= q < p + 1 + (v.len() - 2) implies #[trigger] s[q] != '"' by {
        lemma_text_at_char(s, p, v, q - p);
    }
    lemma_quote_run(s, p + 1, v.len() - 2);
}

// ---------------------------------------------------------------------------
// Link arrays
// ---------------------------------------------------------------------------

/// `,id` for every id from position `k` on.
pub open spec fn tail_text(ids: Seq<i32>, k: int) -> Seq<char>
    decreases ids.len() - k,
{
    if k < 0 || k >= ids.len() {
        seq![]
    } else {
        seq![','] + int_text(ids[k] as int) + tail_text(ids, k + 1)
    }
}

proof fn lemma_tail_text_push(ids: Seq<i32>, k: int)
    requires
        0 <= k < ids.len(),
    ensures
        tail_text(ids, k) == tail_text(ids.drop_last(), k) + seq![','] + int_text(ids.last() as int),
    decreases ids.len() - k,
{
    let dl = ids.drop_last();
    if k == ids.len() - 1 {
        assert(tail_text(ids, k + 1) =~= Seq::<char>::empty());
        assert(tail_text(dl, k) =~= Seq::<char>::empty());
        assert(tail_text(ids, k) =~= tail_text(dl, k) + seq![','] + int_text(ids.last() as int));
    } else {
        lemma_tail_text_push(ids, k + 1);
        assert(dl[k] == ids[k]);
        assert(tail_text(ids, k) =~= tail_text(dl, k) + seq![','] + int_text(ids.last() as int));
    }
}

proof fn lemma_join_split(ids: Seq<i32>)
    requires
        ids.len() >= 1,
    ensures
        join_ints(ids) == int_text(ids[0] as int) + tail_text(ids, 1),
    decreases ids.len(),
{
    if ids.len() == 1 {
        assert(tail_text(ids, 1) =~= Seq::<char>::empty());
        assert(join_ints(ids) =~= int_text(ids[0] as int) + tail_text(ids, 1));
    } else {
        let dl = ids.drop_last();
        lemma_join_split(dl);
        lemma_tail_text_push(ids, 1);
        assert(dl[0] == ids[0]);
        assert(join_ints(ids) =~= int_text(ids[0] as int) + tail_text(ids, 1));
    }
}

proof fn lemma_more_ids_at(s: Seq<char>, q: int, ids: Seq<i32>, k: int)
    requires
        0 <= k <= ids.len(),
        text_at(s, q, tail_text(ids, k) + seq![']']),
    ensures
        more_ids(s, q) == (q + tail_text(ids, k).len(), ids.subrange(k, ids.len() as int)),
    decreases ids.len() - k,
{
    let t = tail_text(ids, k);
    lemma_text_at_split(s, q, t, seq![']']);
    lemma_text_at_char(s, q + t.len(), seq![']'], 0);
    if k == ids.len() {
        assert(t =~= Seq::<char>::empty());
        lemma_ws_run(s, q, 0);
        assert(ids.subrange(k, ids.len() as int) =~= Seq::<i32>::empty());
    } else {
        let x = ids[k];
        let n = int_text(x as int);
        let rest = tail_text(ids, k + 1);
        assert(t == seq![','] + n + rest);
        assert(seq![','] + n + rest + seq![']'] =~= seq![','] + (n + (rest + seq![']'])));
        lemma_text_at_split(s, q, seq![','], n + (rest + seq![']']));
        lemma_text_at_char(s, q, seq![','], 0);
        lemma_ws_run(s, q, 0);
        lemma_text_at_split(s, q + 1, n, rest + seq![']']);
        lemma_int_text_shape(x);
        lemma_text_at_char(s, q + 1, n, 0);
        if x >= 0 {
            assert(is_ascii_digit(n[0]));
        }
        lemma_ws_run(s, q + 1, 0);
        let c = q + 1 + n.len();
        if rest.len() > 0 {
            assert(rest[0] == ',');
            lemma_text_at_char(s, c, rest + seq![']'], 0);
        } else {
            lemma_text_at_char(s, c, rest + seq![']'], 0);
        }
        lemma_integer_at(s, q + 1, x);
        lemma_more_ids_at(s, c, ids, k + 1);
        assert(ids.subrange(k, ids.len() as int) =~= seq![x] + ids.subrange(k + 1, ids.len() as int));
    }
}

pub(crate) proof fn lemma_array_at(s: Seq<char>, p: int, ids: Seq<i32>)
    requires
        text_at(s, p, int_array_text(ids)),
    ensures
        int_array(s, p) == Some((p + int_array_text(ids).len(), ids)),
{
    let body = join_ints(ids);
    assert(int_array_text(ids) == seq!['['] + body + seq![']']);
    assert(seq!['['] + body + seq![']'] =~= seq!['['] + (body + seq![']']));
    lemma_text_at_split(s, p, seq!['['], body + seq![']']);
    lemma_text_at_char(s, p, seq!['['], 0);
    if ids.len() == 0 {
        assert(body =~= Seq::<char>::empty());
        lemma_text_at_char(s, p + 1, body + seq![']'], 0);
        lemma_ws_run(s, p + 1, 0);
        assert(integer(s, p + 1) is None) by {
            lemma_digits_run(s, p + 1, 0);
        }
        assert(ids =~= Seq::<i32>::empty());
    } else {
        lemma_join_split(ids);
        let n = int_text(ids[0] as int);
        let t = tail_text(ids, 1);
        assert(body + seq![']'] =~= n + (t + seq![']']));
        lemma_text_at_split(s, p + 1, n, t + seq![']']);
        lemma_int_text_shape(ids[0]);
        lemma_text_at_char(s, p + 1, n, 0);
        if ids[0] >= 0 {
            assert(is_ascii_digit(n[0]));
        }
        lemma_ws_run(s, p + 1, 0);
        let c = p + 1 + n.len();
        lemma_text_at_char(s, c, t + seq![']'], 0);
        if t.len() > 0 {
            assert(t[0] == ',');
        }
        lemma_integer_at(s, p + 1, ids[0]);
        lemma_more_ids_at(s, c, ids, 1);
        let end = c + t.len();
        lemma_text_at_split(s, c, t, seq![']']);
        lemma_text_at_char(s, end, seq![']'], 0);
        lemma_ws_run(s, end, 0);
        assert(seq![ids[0]] + ids.subrange(1, ids.len() as int) =~= ids);
    }
}

/// A canonical link array reads back as its ids.
proof fn lemma_array_ids_of_text(ids: Seq<i32>)
    ensures
        array_ids(int_array_text(ids)) == ids,
        array_text(int_array_text(ids)),
{
    let v = int_array_text(ids);
    assert(v.subrange(0, v.len() as int) =~= v);
    lemma_array_at(v, 0, ids);
}

// ---------------------------------------------------------------------------
// Properties
// ---------------------------------------------------------------------------

proof fn lemma_plain_trim(v: Seq<char>)
    requires
        plain_text(v),
    ensures
        trim(v) == v,
{
    lemma_lead_ws_exact(v, 0);
    assert(crate::text::trim_start(v) =~= v);
    lemma_trail_ws_exact(v, 0);
    assert(crate::text::trim_end(v) =~= v);
}

proof fn lemma_value_at(s: Seq<char>, b: int, v: Seq<char>)
    requires
        text_at(s, b, v + seq![';']),
        value_text(v),
    ensures
        prop_value(s, b) == (b + v.len(), v),
{
    lemma_text_at_split(s, b, v, seq![';']);
    lemma_text_at_char(s, b + v.len(), seq![';'], 0);
    if v.len() > 0 {
        lemma_text_at_char(s, b, v, 0);
    }
    if quoted_text(v) {
        lemma_quoted_at(s, b, v);
    } else if array_text(v) {
        let ids = array_ids(v);
        assert(v == int_array_text(ids));
        assert(v[0] == '[');
        lemma_array_at(s, b, ids);
    } else {
        assert forall|q: int| b <= q < b + v.len() implies #[trigger] s[q] != ';' by {
            lemma_text_at_char(s, b, v, q - b);
        }
        lemma_semi_run(s, b, v.len() as int);
        lemma_plain_trim(v);
    }
}

proof fn lemma_property_at(s: Seq<char>, a: int, k: Seq<char>, v: Seq<char>)
    requires
        text_at(s, a, k + seq![' ', '=', ' '] + v + seq![';']),
        key_text(k),
        value_text(v),
    ensures
        property(s, a) == Some((a + k.len() + 3 + v.len() + 1, k, v)),
{
    let eq = seq![' ', '=', ' '];
    assert(k + eq + v + seq![';'] =~= k + (seq![' '] + (seq!['=', ' '] + (v + seq![';']))));
    lemma_text_at_split(s, a, k, seq![' '] + (seq!['=', ' '] + (v + seq![';'])));
    let k1 = a + k.len();
    lemma_text_at_split(s, k1, seq![' '], seq!['=', ' '] + (v + seq![';']));
    lemma_text_at_split(s, k1 + 1, seq!['=', ' '], v + seq![';']);
    assert(k + eq + v + seq![';'] =~= (k + seq![' ']) + (seq!['=', ' '] + (v + seq![';'])));
    lemma_text_at_split(s, a, k + seq![' '], seq!['=', ' '] + (v + seq![';']));
    lemma_key_at(s, a, k);
    lemma_text_at_char(s, k1, seq![' '], 0);
    lemma_text_at_char(s, k1 + 1, seq!['=', ' '], 0);
    lemma_text_at_char(s, k1 + 1, seq!['=', ' '], 1);
    assert(s[k1] == ' ');
    assert(is_mspace(s[k1]));
    lemma_ws_run(s, k1, 1);
    let b = k1 + 3;
    lemma_text_at_split(s, b, v, seq![';']);
    if v.len() > 0 {
        lemma_text_at_char(s, b, v, 0);
        if plain_text(v) && !quoted_text(v) && !array_text(v) {
            assert(!is_ws(v[0]));
        }
        if array_text(v) {
            assert(v == int_array_text(array_ids(v)));
        }
        assert(!is_mspace(s[b]));
    } else {
        lemma_text_at_char(s, b, seq![';'], 0);
    }
    lemma_ws_run(s, k1 + 2, 1);
    lemma_value_at(s, b, v);
    lemma_text_at_char(s, b + v.len(), seq![';'], 0);
}

// ---------------------------------------------------------------------------
// Body items
// ---------------------------------------------------------------------------

pub open spec fn all_mspace(w: Seq<char>) -> bool {
    forall|j: int| 0 <= j < w.len() ==> is_mspace(#[trigger] w[j])
}

proof fn lemma_key_first(k: Seq<char>)
    requires
        key_text(k),
    ensures
        k.len() > 0,
        !is_mspace(k[0]),
        k[0] != '"',
        k[0] != '}',
        ident_text(k) ==> !is_ascii_digit(k[0]) && k[0] != '-',
        !ident_text(k) ==> !is_ascii_alpha(k[0]) && k[0] != '_',
{
    if !ident_text(k) {
        let x = parse_i32_spec(k)->0;
        lemma_int_text_shape(x);
        if x >= 0 {
            assert(is_ascii_digit(k[0]));
        }
    }
}

proof fn lemma_prop_item(s: Seq<char>, p: int, w: Seq<char>, k: Seq<char>, v: Seq<char>)
    requires
        text_at(s, p, w + (k + seq![' ', '=', ' '] + v + seq![';'])),
        all_mspace(w),
        key_text(k),
        value_text(v),
    ensures
        body_item(s, p) == Some((p + w.len() + k.len() + 3 + v.len() + 1, ItemModel::Prop(k, v))),
{
    let line = k + seq![' ', '=', ' '] + v + seq![';'];
    lemma_text_at_split(s, p, w, line);
    let a = p + w.len();
    lemma_key_first(k);
    lemma_text_at_char(s, a, line, 0);
    lemma_ws_over(s, p, w);
    assert(line =~= k + (seq![' ', '=', ' '] + v + seq![';']));
    lemma_text_at_split(s, a, k, seq![' ', '=', ' '] + v + seq![';']);
    let k1 = a + k.len();
    lemma_text_at_char(s, k1, seq![' ', '=', ' '] + v + seq![';'], 0);
    lemma_text_at_char(s, k1, seq![' ', '=', ' '] + v + seq![';'], 1);
    // not a quoted list item
    assert(quoted(s, a) is None);
    assert(quoted_item(s, a) is None);
    // not a vertex
    if ident_text(k) {
        lemma_digits_run(s, a, 0);
        assert(float_end(s, a) is None);
    } else {
        let x = parse_i32_spec(k)->0;
        lemma_int_text_shape(x);
        let j: int = if x < 0 { 1 } else { 0 };
        assert forall|q: int| a + j <= q < a + k.len() implies is_ascii_digit(#[trigger] s[q]) by {
            lemma_text_at_char(s, a, k, q - a);
        }
        lemma_digits_run(s, a + j, k.len() - j);
        assert(float_end(s, a) == Some(k1));
        lemma_ws_run(s, k1, 1);
    }
    assert(coord_item(s, a) is None);
    // not a nested block
    if ident_text(k) {
        lemma_ident_at(s, a, k);
        lemma_ws_run(s, k1, 1);
        assert(block_rest(s, k1, s.subrange(a, k1)) is None);
    }
    assert(nested(s, a) is None);
    assert(text_at(s, a, k + seq![' ', '=', ' '] + v + seq![';']));
    lemma_property_at(s, a, k, v);
}

proof fn lemma_list_item(s: Seq<char>, p: int, w: Seq<char>, v: Seq<char>)
    requires
        text_at(s, p, w + (v + seq![';'])),
        all_mspace(w),
        quoted_text(v),
    ensures
        body_item(s, p) == Some((p + w.len() + v.len() + 1, ItemModel::List(v))),
{
    lemma_text_at_split(s, p, w, v + seq![';']);
    let a = p + w.len();
    lemma_text_at_split(s, a, v, seq![';']);
    lemma_text_at_char(s, a, v, 0);
    lemma_ws_over(s, p, w);
    lemma_quoted_at(s, a, v);
    lemma_text_at_char(s, a + v.len(), seq![';'], 0);
    lemma_ws_run(s, a + v.len(), 0);
}

proof fn lemma_end_item(s: Seq<char>, p: int, w: Seq<char>, acc: EntityModel)
    requires
        text_at(s, p, w + seq!['}']),
        all_mspace(w),
    ensures
        body_item(s, p) is None,
        body(s, p, acc) == Some((p, acc)),
        ws(s, p) == p + w.len(),
        at(s, p + w.len(), '}'),
{
    lemma_text_at_split(s, p, w, seq!['}']);
    lemma_text_at_char(s, p + w.len(), seq!['}'], 0);
    lemma_ws_over(s, p, w);
}

// ---------------------------------------------------------------------------
// Vertices
// ---------------------------------------------------------------------------

/// A numeric literal as the parser keeps it: optional `-`, digits, and an
/// optional `.digits` part.
pub open spec fn float_text(x: Seq<char>) -> bool {
    let j: int = if x.len() > 0 && x[0] == '-' { 1 } else { 0 };
    let k = digits_end(x, j);
    &&& k > j
    &&& (k == x.len() || (x[k] == '.' && x.len() > k + 1 && digits_end(x, k + 1) == x.len()))
}

/// An unquoted vertex `a, b` of two numeric literals.
pub open spec fn coord_text(v: Seq<char>) -> bool {
    exists|n: int|
        0 < n && n + 2 < v.len() && #[trigger] float_text(v.subrange(0, n)) && v[n] == ',' && v[n + 1] == ' '
            && float_text(v.subrange(n + 2, v.len() as int))
}

proof fn lemma_digits_end_facts(x: Seq<char>, j: int)
    requires
        0 <= j <= x.len(),
    ensures
        j <= digits_end(x, j) <= x.len(),
        forall|q: int| j <= q < digits_end(x, j) ==> is_ascii_digit(#[trigger] x[q]),
        digits_end(x, j) == x.len() || !is_ascii_digit(x[digits_end(x, j)]),
    decreases x.len() - j,
{
    if j < x.len() && is_ascii_digit(x[j]) {
        lemma_digits_end_facts(x, j + 1);
    }
}

proof fn lemma_digits_transfer(s: Seq<char>, p: int, x: Seq<char>, j: int, k: int)
    requires
        text_at(s, p, x),
        0 <= j <= k <= x.len(),
        forall|q: int| j <= q < k ==> is_ascii_digit(#[trigger] x[q]),
        k < x.len() ==> !is_ascii_digit(x[k]),
        k == x.len() ==> (p + k == s.len() || !is_ascii_digit(s[p + k])),
    ensures
        digits_end(s, p + j) == p + k,
{
    assert forall|q: int| p + j <= q < p + k implies is_ascii_digit(#[trigger] s[q]) by {
        lemma_text_at_char(s, p, x, q - p);
    }
    if k < x.len() {
        lemma_text_at_char(s, p, x, k);
    }
    lemma_digits_run(s, p + j, k - j);
}

proof fn lemma_float_at(s: Seq<char>, p: int, x: Seq<char>)
    requires
        text_at(s, p, x),
        float_text(x),
        p + x.len() < s.len(),
        !is_ascii_digit(s[p + x.len()]),
        s[p + x.len()] != '.',
    ensures
        float_end(s, p) == Some(p + x.len()),
{
    let j: int = if x.len() > 0 && x[0] == '-' { 1 } else { 0 };
    lemma_digits_end_facts(x, j);
    let k = digits_end(x, j);
    lemma_text_at_char(s, p, x, 0);
    if k == x.len() {
        lemma_digits_transfer(s, p, x, j, k);
    } else {
        lemma_digits_transfer(s, p, x, j, k);
        lemma_text_at_char(s, p, x, k);
        lemma_digits_end_facts(x, k + 1);
        lemma_text_at_char(s, p, x, k + 1);
        lemma_digits_transfer(s, p, x, k + 1, x.len() as int);
    }
}

proof fn lemma_float_first(x: Seq<char>)
    requires
        float_text(x),
    ensures
        x.len() > 0,
        x[0] == '-' || is_ascii_digit(x[0]),
{
    let j: int = if x.len() > 0 && x[0] == '-' { 1 } else { 0 };
    if x.len() == 0 {
        assert(digits_end(x, 0) == 0);
    } else if x[0] != '-' {
        lemma_digits_end_facts(x, 0);
    }
}

proof fn lemma_coord_item(s: Seq<char>, p: int, w: Seq<char>, v: Seq<char>)
    requires
        text_at(s, p, w + (v + seq![';'])),
        all_mspace(w),
        coord_text(v),
    ensures
        body_item(s, p) == Some((p + w.len() + v.len() + 1, ItemModel::List(v))),
{
    let n = choose|n: int|
        0 < n && n + 2 < v.len() && #[trigger] float_text(v.subrange(0, n)) && v[n] == ',' && v[n + 1] == ' '
            && float_text(v.subrange(n + 2, v.len() as int));
    let x = v.subrange(0, n);
    let y = v.subrange(n + 2, v.len() as int);
    lemma_text_at_split(s, p, w, v + seq![';']);
    let a = p + w.len();
    lemma_text_at_split(s, a, v, seq![';']);
    lemma_text_at_char(s, a + v.len(), seq![';'], 0);
    lemma_float_first(x);
    lemma_float_first(y);
    lemma_text_at_char(s, a, v, 0);
    assert(v[0] == x[0]);
    lemma_ws_over(s, p, w);
    // the two numbers
    lemma_text_at_sub(s, a, v, 0, n);
    lemma_text_at_char(s, a, v, n);
    lemma_text_at_char(s, a, v, n + 1);
    lemma_text_at_sub(s, a, v, n + 2, v.len() as int);
    lemma_text_at_char(s, a, v, n + 2);
    assert(v[n + 2] == y[0]);
    lemma_float_at(s, a, x);
    lemma_float_at(s, a + n + 2, y);
    lemma_ws_run(s, a + n, 0);
    lemma_ws_run(s, a + n + 1, 1);
    lemma_ws_run(s, a + v.len(), 0);
    assert(quoted(s, a) is None);
    assert(s.subrange(a, a + n) + seq![',', ' '] + s.subrange(a + n + 2, a + v.len()) =~= v);
}

// ---------------------------------------------------------------------------
// Written form
// ---------------------------------------------------------------------------

/// The body item a property line reads back as.
pub open spec fn item_of(kv: (Seq<char>, Seq<char>)) -> ItemModel {
    if kv.0.len() == 0 {
        ItemModel::List(kv.1)
    } else {
        ItemModel::Prop(kv.0, kv.1)
    }
}

/// The block obtained by reading the property lines `ps` in order.
pub open spec fn built(bt: Seq<char>, ps: Seq<(Seq<char>, Seq<char>)>) -> EntityModel
    decreases ps.len(),
{
    if ps.len() == 0 {
        empty_model(bt)
    } else {
        apply_item(built(bt, ps.drop_last()), item_of(ps.last()))
    }
}

/// A property line of `e` in written form: a quoted or vertex list item, or a key and
/// value that read back as themselves, with the value written as stored.
pub open spec fn line_ok(e: EntityModel, kv: (Seq<char>, Seq<char>)) -> bool {
    if kv.0.len() == 0 {
        quoted_text(kv.1) || coord_text(kv.1)
    } else {
        key_text(kv.0) && value_text(kv.1) && rendered(e, kv.0, kv.1) == kv.1
    }
}

/// A block in written form: an identifier for its type, property lines in
/// written form whose `Index` / `Targets` / `Objects` agree with the lifted
/// fields, and children in written form.
pub open spec fn written_form(e: EntityModel) -> bool
    decreases e, 1int,
{
    &&& ident_text(e.block_type)
    &&& forall|k: int| 0 <= k < e.properties.len() ==> line_ok(e, #[trigger] e.properties[k])
    &&& built(e.block_type, e.properties) == (EntityModel { children: seq![], ..e })
    &&& written_list(e.children)
}

pub open spec fn written_list(cs: Seq<EntityModel>) -> bool
    decreases cs, 0int,
{
    if cs.len() == 0 {
        true
    } else {
        written_list(cs.drop_last()) && written_form(cs.last())
    }
}

proof fn lemma_written_list(cs: Seq<EntityModel>, j: int)
    requires
        written_list(cs),
        0 <= j < cs.len(),
    ensures
        written_form(cs[j]),
    decreases cs.len(),
{
    if j < cs.len() - 1 {
        assert(cs.drop_last()[j] == cs[j]);
        lemma_written_list(cs.drop_last(), j);
    }
}

// ---------------------------------------------------------------------------
// Windows
// ---------------------------------------------------------------------------

proof fn lemma_text_at_join(s: Seq<char>, p: int, a: Seq<char>, b: Seq<char>)
    requires
        text_at(s, p, a),
        text_at(s, p + a.len(), b),
    ensures
        text_at(s, p, a + b),
{
    assert(s.subrange(p, p + (a + b).len()) =~= s.subrange(p, p + a.len()) + s.subrange(p + a.len(), p + a.len() + b.len()));
}

proof fn lemma_text_at_sub(s: Seq<char>, p: int, t: Seq<char>, i: int, j: int)
    requires
        text_at(s, p, t),
        0 <= i <= j <= t.len(),
    ensures
        text_at(s, p + i, t.subrange(i, j)),
{
    assert(s.subrange(p + i, p + j) =~= s.subrange(p, p + t.len()).subrange(i, j));
}

proof fn lemma_pad_mspace(n: nat)
    ensures
        all_mspace(pad(n)),
        all_mspace(crlf()),
        pad(n).len() == 2 * n,
{
}

proof fn lemma_mspace_join(a: Seq<char>, b: Seq<char>)
    requires
        all_mspace(a),
        all_mspace(b),
    ensures
        all_mspace(a + b),
{
    assert forall|j: int| 0 <= j < (a + b).len() implies is_mspace(#[trigger] (a + b)[j]) by {
        if j < a.len() {
            assert((a + b)[j] == a[j]);
        } else {
            assert((a + b)[j] == b[j - a.len()]);
        }
    }
}

// ---------------------------------------------------------------------------
// Reading the property lines back
// ---------------------------------------------------------------------------

/// A property line without its line end.
pub open spec fn line_body(e: EntityModel, kv: (Seq<char>, Seq<char>), inner: Seq<char>) -> Seq<char> {
    if kv.0.len() == 0 {
        inner + kv.1 + seq![';']
    } else {
        inner + kv.0 + " = "@ + rendered(e, kv.0, kv.1) + seq![';']
    }
}

/// The property lines, each after the line end that precedes it.
pub open spec fn lead_lines(e: EntityModel, ps: Seq<(Seq<char>, Seq<char>)>, inner: Seq<char>) -> Seq<char>
    decreases ps.len(),
{
    if ps.len() == 0 {
        seq![]
    } else {
        lead_lines(e, ps.drop_last(), inner) + crlf() + line_body(e, ps.last(), inner)
    }
}

proof fn lemma_lead_crlf(e: EntityModel, ps: Seq<(Seq<char>, Seq<char>)>, inner: Seq<char>)
    ensures
        crlf() + prop_lines(e, ps, inner) == lead_lines(e, ps, inner) + crlf(),
    decreases ps.len(),
{
    if ps.len() == 0 {
        assert(crlf() + prop_lines(e, ps, inner) =~= lead_lines(e, ps, inner) + crlf());
    } else {
        lemma_lead_crlf(e, ps.drop_last(), inner);
        let kv = ps.last();
        assert(prop_line(e, kv, inner) =~= line_body(e, kv, inner) + crlf());
        assert(crlf() + prop_lines(e, ps, inner) =~= (crlf() + prop_lines(e, ps.drop_last(), inner)) + prop_line(e, kv, inner));
        assert(crlf() + prop_lines(e, ps, inner) =~= lead_lines(e, ps, inner) + crlf());
    }
}

proof fn lemma_lead_prefix(e: EntityModel, ps: Seq<(Seq<char>, Seq<char>)>, inner: Seq<char>, k: int)
    requires
        0 <= k <= ps.len(),
    ensures
        lead_lines(e, ps.take(k), inner).len() <= lead_lines(e, ps, inner).len(),
        lead_lines(e, ps.take(k), inner) == lead_lines(e, ps, inner).subrange(0, lead_lines(e, ps.take(k), inner).len() as int),
    decreases ps.len(),
{
    if k == ps.len() {
        assert(ps.take(k) =~= ps);
        assert(lead_lines(e, ps, inner).subrange(0, lead_lines(e, ps, inner).len() as int) =~= lead_lines(e, ps, inner));
    } else {
        let dl = ps.drop_last();
        lemma_lead_prefix(e, dl, inner, k);
        assert(dl.take(k) =~= ps.take(k));
        let a = lead_lines(e, ps.take(k), inner);
        assert(lead_lines(e, ps, inner).subrange(0, a.len() as int) =~= lead_lines(e, dl, inner).subrange(0, a.len() as int));
    }
}

proof fn lemma_props_phase(s: Seq<char>, e: EntityModel, inner: Seq<char>, base: int, k: int)
    requires
        0 <= k <= e.properties.len(),
        text_at(s, base, lead_lines(e, e.properties, inner)),
        all_mspace(inner),
        forall|i: int| 0 <= i < e.properties.len() ==> line_ok(e, #[trigger] e.properties[i]),
    ensures
        body(s, base + lead_lines(e, e.properties.take(k), inner).len(), built(e.block_type, e.properties.take(k)))
            == body(s, base + lead_lines(e, e.properties, inner).len(), built(e.block_type, e.properties)),
    decreases e.properties.len() - k,
{
    let ps = e.properties;
    if k == ps.len() {
        assert(ps.take(k) =~= ps);
    } else {
        let pre = lead_lines(e, ps.take(k), inner);
        let nxt = lead_lines(e, ps.take(k + 1), inner);
        let kv = ps[k];
        assert(ps.take(k + 1).drop_last() =~= ps.take(k));
        assert(ps.take(k + 1).last() == kv);
        assert(nxt == pre + crlf() + line_body(e, kv, inner));
        lemma_lead_prefix(e, ps, inner, k + 1);
        lemma_text_at_sub(s, base, lead_lines(e, ps, inner), 0, nxt.len() as int);
        assert(lead_lines(e, ps, inner).subrange(0, nxt.len() as int) == nxt);
        assert(nxt =~= pre + (crlf() + line_body(e, kv, inner)));
        lemma_text_at_split(s, base, pre, crlf() + line_body(e, kv, inner));
        let p = base + pre.len();
        lemma_pad_mspace(0);
        assert(line_ok(e, kv));
        if kv.0.len() == 0 {
            assert(crlf() + line_body(e, kv, inner) =~= (crlf() + inner) + (kv.1 + seq![';']));
            lemma_mspace_join(crlf(), inner);
            if quoted_text(kv.1) {
                lemma_list_item(s, p, crlf() + inner, kv.1);
            } else {
                lemma_coord_item(s, p, crlf() + inner, kv.1);
            }
        } else {
            reveal_strlit(" = ");
            assert(crlf() + line_body(e, kv, inner) =~= (crlf() + inner) + (kv.0 + seq![' ', '=', ' '] + kv.1 + seq![';']));
            lemma_mspace_join(crlf(), inner);
            lemma_prop_item(s, p, crlf() + inner, kv.0, kv.1);
        }
        assert(apply_item(built(e.block_type, ps.take(k)), item_of(kv)) == built(e.block_type, ps.take(k + 1)));
        lemma_props_phase(s, e, inner, base, k + 1);
    }
}

// ---------------------------------------------------------------------------
// Reading the blocks back
// ---------------------------------------------------------------------------

proof fn lemma_kids_prefix(cs: Seq<EntityModel>, d: nat, j: int)
    requires
        0 <= j <= cs.len(),
    ensures
        children_text(cs.take(j), d).len() <= children_text(cs, d).len(),
        children_text(cs.take(j), d) == children_text(cs, d).subrange(0, children_text(cs.take(j), d).len() as int),
    decreases cs.len(),
{
    if j == cs.len() {
        assert(cs.take(j) =~= cs);
        assert(children_text(cs, d).subrange(0, children_text(cs, d).len() as int) =~= children_text(cs, d));
    } else {
        let dl = cs.drop_last();
        lemma_kids_prefix(dl, d, j);
        assert(dl.take(j) =~= cs.take(j));
        let a = children_text(cs.take(j), d);
        assert(children_text(cs, d).subrange(0, a.len() as int) =~= children_text(dl, d).subrange(0, a.len() as int));
    }
}

proof fn lemma_block_text_shape(e: EntityModel, d: nat)
    ensures
        block_text(e, d) == pad(d) + (e.block_type + (crlf() + pad(d) + seq!['{'] + crlf() + prop_lines(e, e.properties, pad(d + 1))
            + children_text(e.children, d) + pad(d) + seq!['}'] + crlf())),
        block_text(e, d).len() >= 2 * d + e.block_type.len() + 5 + 2 * d,
        block_text(e, d).subrange(block_text(e, d).len() - 2, block_text(e, d).len() as int) == crlf(),
{
    let t = block_text(e, d);
    assert(t == pad(d) + e.block_type + crlf() + pad(d) + seq!['{'] + crlf()
        + prop_lines(e, e.properties, pad(d + 1))
        + children_text(e.children, d)
        + pad(d) + seq!['}'] + crlf());
    assert(t =~= pad(d) + (e.block_type + (crlf() + pad(d) + seq!['{'] + crlf() + prop_lines(e, e.properties, pad(d + 1))
        + children_text(e.children, d) + pad(d) + seq!['}'] + crlf())));
    assert(t.subrange(t.len() - 2, t.len() as int) =~= crlf());
}

pub open spec fn kid_start(q: int, cs: Seq<EntityModel>, d: nat, j: int) -> int {
    q + 2 + children_text(cs.take(j), d).len()
}

pub open spec fn kid_item_pos(q: int, cs: Seq<EntityModel>, d: nat, j: int) -> int {
    if j <= 0 {
        q
    } else {
        kid_start(q, cs, d, j - 1) + block_text(cs[j - 1], d + 1).len() - 2
    }
}

proof fn lemma_child_item(s: Seq<char>, p: int, w: Seq<char>, c: EntityModel, d: nat, end: int)
    requires
        text_at(s, p, w + block_text(c, d)),
        all_mspace(w),
        ident_text(c.block_type),
        nested(s, p + w.len() + 2 * d) == Some((end, c)),
        p + w.len() < end <= s.len(),
    ensures
        body_item(s, p) == Some((end, ItemModel::Child(c))),
{
    lemma_block_text_shape(c, d);
    let bt = c.block_type;
    let rest = crlf() + pad(d) + seq!['{'] + crlf() + prop_lines(c, c.properties, pad(d + 1)) + children_text(c.children, d)
        + pad(d) + seq!['}'] + crlf();
    assert(w + block_text(c, d) =~= (w + pad(d)) + (bt + rest));
    lemma_text_at_split(s, p, w + pad(d), bt + rest);
    lemma_pad_mspace(d);
    lemma_mspace_join(w, pad(d));
    let a = p + w.len() + 2 * d;
    lemma_text_at_char(s, a, bt + rest, 0);
    lemma_ws_over(s, p, w + pad(d));
    lemma_digits_run(s, a, 0);
}

/// Separators after the last child block, up to the closing brace.
pub open spec fn end_gap(m: int, d: nat) -> Seq<char> {
    if m == 0 {
        crlf() + pad(d)
    } else {
        crlf() + crlf() + pad(d + 1) + crlf() + pad(d)
    }
}

/// Separators before child `j`.
pub open spec fn kid_gap(j: int, d: nat) -> Seq<char> {
    if j == 0 {
        crlf()
    } else {
        crlf() + crlf() + pad(d + 1) + crlf()
    }
}

proof fn lemma_gaps_mspace(d: nat)
    ensures
        all_mspace(end_gap(0, d)),
        forall|m: int| m != 0 ==> all_mspace(#[trigger] end_gap(m, d)),
        all_mspace(kid_gap(0, d)),
        forall|j: int| j != 0 ==> all_mspace(#[trigger] kid_gap(j, d)),
{
    lemma_pad_mspace(d + 1);
    lemma_pad_mspace(d);
    lemma_mspace_join(crlf(), pad(d));
    lemma_mspace_join(crlf(), crlf());
    lemma_mspace_join(crlf() + crlf(), pad(d + 1));
    lemma_mspace_join(crlf() + crlf() + pad(d + 1), crlf());
    lemma_mspace_join(crlf() + crlf() + pad(d + 1) + crlf(), pad(d));
}

/// The end of a child's block text is its line end.
proof fn lemma_kid_tail(s: Seq<char>, q: int, cs: Seq<EntityModel>, d: nat, j: int)
    requires
        1 <= j <= cs.len(),
        text_at(s, q + 2, children_text(cs, d)),
    ensures
        text_at(s, kid_item_pos(q, cs, d, j), crlf() + crlf() + pad(d + 1) + crlf()),
        kid_item_pos(q, cs, d, j) + 6 + 2 * (d + 1) == q + 2 + children_text(cs.take(j), d).len(),
{
    let ct = children_text(cs, d);
    let prev = cs[j - 1];
    let bp = block_text(prev, d + 1);
    let pre = children_text(cs.take(j), d);
    let pre2 = children_text(cs.take(j - 1), d);
    assert(cs.take(j).drop_last() =~= cs.take(j - 1));
    assert(cs.take(j).last() == prev);
    assert(pre == pre2 + bp + crlf() + pad(d + 1) + crlf());
    lemma_kids_prefix(cs, d, j);
    lemma_text_at_sub(s, q + 2, ct, 0, pre.len() as int);
    assert(pre =~= pre2 + (bp + (crlf() + pad(d + 1) + crlf())));
    lemma_text_at_split(s, q + 2, pre2, bp + (crlf() + pad(d + 1) + crlf()));
    lemma_text_at_split(s, q + 2 + pre2.len(), bp, crlf() + pad(d + 1) + crlf());
    lemma_block_text_shape(prev, d + 1);
    lemma_text_at_sub(s, q + 2 + pre2.len(), bp, bp.len() - 2, bp.len() as int);
    let p = kid_item_pos(q, cs, d, j);
    lemma_text_at_join(s, p, crlf(), crlf() + pad(d + 1) + crlf());
    assert(crlf() + (crlf() + pad(d + 1) + crlf()) =~= crlf() + crlf() + pad(d + 1) + crlf());
}

proof fn lemma_kids_end(s: Seq<char>, e: EntityModel, d: nat, q: int)
    requires
        text_at(s, q, crlf() + children_text(e.children, d) + pad(d) + seq!['}']),
    ensures
        body(s, kid_item_pos(q, e.children, d, e.children.len() as int), e)
            == Some((kid_item_pos(q, e.children, d, e.children.len() as int), e)),
        ws(s, kid_item_pos(q, e.children, d, e.children.len() as int)) == q + 2 + children_text(e.children, d).len() + 2 * d,
        at(s, q + 2 + children_text(e.children, d).len() + 2 * d, '}'),
{
    let cs = e.children;
    let m = cs.len() as int;
    let ct = children_text(cs, d);
    assert(crlf() + ct + pad(d) + seq!['}'] =~= crlf() + (ct + (pad(d) + seq!['}'])));
    lemma_text_at_split(s, q, crlf(), ct + (pad(d) + seq!['}']));
    lemma_text_at_split(s, q + 2, ct, pad(d) + seq!['}']);
    lemma_gaps_mspace(d);
    let r = kid_item_pos(q, cs, d, m);
    let w = end_gap(m, d);
    if m == 0 {
        assert(ct =~= Seq::<char>::empty());
        lemma_text_at_join(s, q, crlf(), pad(d) + seq!['}']);
        assert(crlf() + (pad(d) + seq!['}']) =~= w + seq!['}']);
    } else {
        lemma_kid_tail(s, q, cs, d, m);
        assert(cs.take(m) =~= cs);
        lemma_text_at_join(s, r, crlf() + crlf() + pad(d + 1) + crlf(), pad(d) + seq!['}']);
        assert((crlf() + crlf() + pad(d + 1) + crlf()) + (pad(d) + seq!['}']) =~= w + seq!['}']);
    }
    lemma_end_item(s, r, w, e);
}

proof fn lemma_kid_window(s: Seq<char>, q: int, cs: Seq<EntityModel>, d: nat, j: int)
    requires
        0 <= j < cs.len(),
        text_at(s, q, crlf() + children_text(cs, d) + pad(d) + seq!['}']),
    ensures
        text_at(s, kid_item_pos(q, cs, d, j), kid_gap(j, d) + block_text(cs[j], d + 1)),
        kid_item_pos(q, cs, d, j) + kid_gap(j, d).len() == kid_start(q, cs, d, j),
        text_at(s, kid_start(q, cs, d, j), block_text(cs[j], d + 1)),
{
    let ct = children_text(cs, d);
    assert(crlf() + ct + pad(d) + seq!['}'] =~= crlf() + (ct + (pad(d) + seq!['}'])));
    lemma_text_at_split(s, q, crlf(), ct + (pad(d) + seq!['}']));
    lemma_text_at_split(s, q + 2, ct, pad(d) + seq!['}']);
    let c = cs[j];
    let bc = block_text(c, d + 1);
    let x = kid_start(q, cs, d, j);
    let pre = children_text(cs.take(j), d);
    let nxt = children_text(cs.take(j + 1), d);
    assert(cs.take(j + 1).drop_last() =~= cs.take(j));
    assert(cs.take(j + 1).last() == c);
    assert(nxt == pre + bc + crlf() + pad(d + 1) + crlf());
    lemma_kids_prefix(cs, d, j + 1);
    lemma_text_at_sub(s, q + 2, ct, 0, nxt.len() as int);
    assert(nxt =~= pre + (bc + (crlf() + pad(d + 1) + crlf())));
    lemma_text_at_split(s, q + 2, pre, bc + (crlf() + pad(d + 1) + crlf()));
    lemma_text_at_split(s, x, bc, crlf() + pad(d + 1) + crlf());
    let p = kid_item_pos(q, cs, d, j);
    if j == 0 {
        assert(cs.take(0) =~= Seq::<EntityModel>::empty());
        assert(pre =~= Seq::<char>::empty());
        lemma_text_at_join(s, q, crlf(), bc);
    } else {
        lemma_kid_tail(s, q, cs, d, j);
        lemma_text_at_join(s, p, kid_gap(j, d), bc);
    }
}

proof fn lemma_kids_phase(s: Seq<char>, e: EntityModel, d: nat, q: int, j: int)
    requires
        0 <= j <= e.children.len(),
        text_at(s, q, crlf() + children_text(e.children, d) + pad(d) + seq!['}']),
        written_list(e.children),
    ensures
        body(s, kid_item_pos(q, e.children, d, j), EntityModel { children: e.children.take(j), ..e })
            == Some((kid_item_pos(q, e.children, d, e.children.len() as int), e)),
    decreases e, 0int, e.children.len() - j,
{
    let cs = e.children;
    let m = cs.len() as int;
    if j == m {
        lemma_kids_end(s, e, d, q);
        assert(cs.take(j) =~= cs);
        assert((EntityModel { children: cs, ..e }) == e);
    } else {
        let c = cs[j];
        let bc = block_text(c, d + 1);
        let x = kid_start(q, cs, d, j);
        let p = kid_item_pos(q, cs, d, j);
        lemma_kid_window(s, q, cs, d, j);
        lemma_written_list(cs, j);
        lemma_block(s, x, c, d + 1);
        lemma_block_text_shape(c, d + 1);
        lemma_gaps_mspace(d);
        let end = x + bc.len() - 2;
        lemma_child_item(s, p, kid_gap(j, d), c, d + 1, end);
        assert(kid_item_pos(q, cs, d, j + 1) == end);
        assert(cs.take(j).push(c) =~= cs.take(j + 1));
        assert(apply_item(EntityModel { children: cs.take(j), ..e }, ItemModel::Child(c)) == (EntityModel { children: cs.take(j + 1), ..e }));
        lemma_kids_phase(s, e, d, q, j + 1);
    }
}

#[verifier::rlimit(40)]
proof fn lemma_block_windows(s: Seq<char>, p: int, e: EntityModel, d: nat)
    requires
        text_at(s, p, block_text(e, d)),
        ident_text(e.block_type),
    ensures
        ident(s, p + 2 * d) == Some(p + 2 * d + e.block_type.len()),
        s.subrange(p + 2 * d, p + 2 * d + e.block_type.len()) == e.block_type,
        ws(s, p + 2 * d + e.block_type.len()) == p + 4 * d + e.block_type.len() + 2,
        at(s, p + 4 * d + e.block_type.len() + 2, '{'),
        text_at(s, p + 4 * d + e.block_type.len() + 3, lead_lines(e, e.properties, pad(d + 1))),
        text_at(
            s,
            p + 4 * d + e.block_type.len() + 3 + lead_lines(e, e.properties, pad(d + 1)).len(),
            crlf() + children_text(e.children, d) + pad(d) + seq!['}'],
        ),
        p + 4 * d + e.block_type.len() + 3 + lead_lines(e, e.properties, pad(d + 1)).len() + 2
            + children_text(e.children, d).len() + 2 * d + 3 == p + block_text(e, d).len(),
{
    let bt = e.block_type;
    let inner = pad(d + 1);
    let pl = prop_lines(e, e.properties, inner);
    let ll = lead_lines(e, e.properties, inner);
    let ct = children_text(e.children, d);
    lemma_block_text_shape(e, d);
    lemma_lead_crlf(e, e.properties, inner);
    let t = block_text(e, d);
    let q = p + 2 * d;
    let k = q + bt.len();
    let a = k + 2 + 2 * d;
    let base = a + 1;
    let qq = base + ll.len();
    let after = crlf() + ct + pad(d) + seq!['}'];
    assert(crlf() + pl == ll + crlf());
    let tailx = ct + pad(d) + seq!['}'] + crlf();
    assert(t == pad(d) + (bt + (crlf() + pad(d) + seq!['{'] + crlf() + pl + ct + pad(d) + seq!['}'] + crlf())));
    assert(crlf() + pad(d) + seq!['{'] + crlf() + pl + ct + pad(d) + seq!['}'] + crlf()
        =~= (crlf() + pad(d)) + (seq!['{'] + ((crlf() + pl) + tailx)));
    assert((ll + crlf()) + tailx =~= ll + (after + crlf()));
    assert(t =~= pad(d) + (bt + ((crlf() + pad(d)) + (seq!['{'] + (ll + (after + crlf()))))));
    lemma_text_at_split(s, p, pad(d), bt + ((crlf() + pad(d)) + (seq!['{'] + (ll + (after + crlf())))));
    lemma_text_at_split(s, q, bt, (crlf() + pad(d)) + (seq!['{'] + (ll + (after + crlf()))));
    lemma_text_at_split(s, k, crlf() + pad(d), seq!['{'] + (ll + (after + crlf())));
    lemma_text_at_split(s, a, seq!['{'], ll + (after + crlf()));
    lemma_text_at_split(s, base, ll, after + crlf());
    lemma_text_at_split(s, qq, after, crlf());
    lemma_text_at_char(s, k, (crlf() + pad(d)) + (seq!['{'] + (ll + (after + crlf()))), 0);
    lemma_ident_at(s, q, bt);
    lemma_pad_mspace(d);
    lemma_mspace_join(crlf(), pad(d));
    lemma_text_at_char(s, a, seq!['{'] + (ll + (after + crlf())), 0);
    lemma_ws_over(s, k, crlf() + pad(d));
}

proof fn lemma_block(s: Seq<char>, p: int, e: EntityModel, d: nat)
    requires
        text_at(s, p, block_text(e, d)),
        written_form(e),
    ensures
        nested(s, p + 2 * d) == Some((p + block_text(e, d).len() - 2, e)),
    decreases e, 1int, 0int,
{
    let bt = e.block_type;
    let inner = pad(d + 1);
    let ll = lead_lines(e, e.properties, inner);
    let ct = children_text(e.children, d);
    lemma_block_windows(s, p, e, d);
    let base = p + 4 * d + bt.len() + 3;
    let qq = base + ll.len();
    // property lines
    lemma_pad_mspace(d + 1);
    lemma_props_phase(s, e, inner, base, 0);
    assert(e.properties.take(0) =~= Seq::<(Seq<char>, Seq<char>)>::empty());
    assert(lead_lines(e, e.properties.take(0), inner) =~= Seq::<char>::empty());
    assert(built(bt, e.properties.take(0)) == empty_model(bt));
    assert(e.properties.take(e.properties.len() as int) =~= e.properties);
    // children
    assert(e.children.take(0) =~= Seq::<EntityModel>::empty());
    assert(built(bt, e.properties) == (EntityModel { children: e.children.take(0), ..e }));
    lemma_kids_phase(s, e, d, qq, 0);
    lemma_kids_end(s, e, d, qq);
    assert(body(s, base, empty_model(bt)) == Some((kid_item_pos(qq, e.children, d, e.children.len() as int), e)));
}

// ---------------------------------------------------------------------------
// The law
// ---------------------------------------------------------------------------

proof fn lemma_trim_crlf(t: Seq<char>)
    requires
        t == crlf(),
    ensures
        trim(t).len() == 0,
{
    lemma_lead_ws_exact(t, 2);
    assert(crate::text::trim_start(t) =~= Seq::<char>::empty());
}

/// Reading back what was written gives the block that was written: for a
/// block in written form, the parser reads `block_text(e, 0)` (what
/// `serialize_group` writes) as `e`, with nothing but a line end after it,
/// so `parse_group_file` returns `e`.
pub proof fn law_read_back_written_block(e: EntityModel)
    requires
        written_form(e),
    ensures
        ({
            let t = block_text(e, 0);
            &&& bom_len(t) == 0
            &&& entity(t, 0) == Some((t.len() - 2, e))
            &&& trim(t.subrange(t.len() - 2, t.len() as int)).len() == 0
        }),
{
    let t = block_text(e, 0);
    assert(t.subrange(0, t.len() as int) =~= t);
    lemma_block_windows(t, 0, e, 0);
    assert(is_ascii_alpha(t[0]) || t[0] == '_');
    lemma_ws_run(t, 0, 0);
    lemma_block(t, 0, e, 0);
    lemma_block_text_shape(e, 0);
    lemma_trim_crlf(t.subrange(t.len() - 2, t.len() as int));
}

} // verus!
