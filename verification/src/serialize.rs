//! Serialize an [`Il2Entity`] back to IL-2 `.Group` text (CRLF, two-space indent).

pub mod round_trip;
pub mod arrays;

use vstd::prelude::*;
use crate::ast::{EntityModel, Il2Entity, format_int_array, int_array_text, lemma_children_model};
use crate::text::{int_text, push_char, push_int, push_str, str_eq};

verus! {

/// `2 * n` spaces.
pub open spec fn pad(n: nat) -> Seq<char> {
    Seq::new(2 * n, |i: int| ' ')
}

pub open spec fn crlf() -> Seq<char> {
    seq!['\r', '\n']
}

/// Text written for one property value: `Index`, `Targets` and `Objects`
/// come from the lifted fields, everything else is written as stored.
pub open spec fn rendered(e: EntityModel, key: Seq<char>, value: Seq<char>) -> Seq<char> {
    if key == "Index"@ {
        match e.index {
            Some(i) => int_text(i as int),
            None => value,
        }
    } else if key == "Targets"@ {
        int_array_text(e.targets)
    } else if key == "Objects"@ {
        int_array_text(e.objects)
    } else {
        value
    }
}

/// One property line.
pub open spec fn prop_line(e: EntityModel, kv: (Seq<char>, Seq<char>), inner: Seq<char>) -> Seq<char> {
    if kv.0.len() == 0 {
        inner + kv.1 + seq![';'] + crlf()
    } else {
        inner + kv.0 + " = "@ + rendered(e, kv.0, kv.1) + seq![';'] + crlf()
    }
}

pub open spec fn prop_lines(e: EntityModel, ps: Seq<(Seq<char>, Seq<char>)>, inner: Seq<char>) -> Seq<char>
    decreases ps.len(),
{
    if ps.len() == 0 {
        seq![]
    } else {
        prop_lines(e, ps.drop_last(), inner) + prop_line(e, ps.last(), inner)
    }
}

/// Text of a block at nesting depth `indent`.
pub open spec fn block_text(e: EntityModel, indent: nat) -> Seq<char>
    decreases e, 1int,
{
    pad(indent) + e.block_type + crlf() + pad(indent) + seq!['{'] + crlf()
        + prop_lines(e, e.properties, pad(indent + 1))
        + children_text(e.children, indent)
        + pad(indent) + seq!['}'] + crlf()
}

/// Text of the child blocks of a block at depth `indent`, each followed by a
/// blank line indented one level.
pub open spec fn children_text(cs: Seq<EntityModel>, indent: nat) -> Seq<char>
    decreases cs, 0int,
{
    if cs.len() == 0 {
        seq![]
    } else {
        children_text(cs.drop_last(), indent) + block_text(cs.last(), indent + 1) + crlf()
            + pad(indent + 1) + crlf()
    }
}

/// Nesting depth of a block: 1 for a block without children.
pub open spec fn depth(e: EntityModel) -> nat
    decreases e, 1int,
{
    1 + depth_list(e.children)
}

/// Greatest depth among `cs` (0 for none).
pub open spec fn depth_list(cs: Seq<EntityModel>) -> nat
    decreases cs, 0int,
{
    if cs.len() == 0 {
        0
    } else {
        let a = depth_list(cs.drop_last());
        let b = depth(cs.last());
        if a < b { b } else { a }
    }
}

proof fn lemma_depth_list(cs: Seq<EntityModel>, k: int)
    requires
        0 <= k < cs.len(),
    ensures
        depth(cs[k]) <= depth_list(cs),
    decreases cs.len(),
{
    if k < cs.len() - 1 {
        lemma_depth_list(cs.drop_last(), k);
    }
}

fn push_pad(out: &mut String, n: usize)
    ensures
        final(out)@ == old(out)@ + pad(n as nat),
{
    let ghost start = out@;
    let mut i: usize = 0;
    while i < n
        invariant
            i <= n,
            out@ == start + pad(i as nat),
        decreases n - i,
    {
        push_char(out, ' ');
        push_char(out, ' ');
        proof {
            assert(out@ =~= start + pad((i + 1) as nat));
        }
        i = i + 1;
    }
}

fn push_crlf(out: &mut String)
    ensures
        final(out)@ == old(out)@ + crlf(),
{
    push_char(out, '\r');
    push_char(out, '\n');
    proof {
        assert(final(out)@ =~= old(out)@ + crlf());
    }
}

fn write_entity(out: &mut String, entity: &Il2Entity, indent: usize)
    requires
        indent + depth(entity@) <= usize::MAX,
    ensures
        final(out)@ == old(out)@ + block_text(entity@, indent as nat),
    decreases entity,
{
    let ghost start = out@;
    let ghost e = entity@;
    push_pad(out, indent);
    push_str(out, entity.block_type.as_str());
    push_crlf(out);
    push_pad(out, indent);
    push_char(out, '{');
    push_crlf(out);
    let ghost head = out@;
    proof {
        assert(head =~= start + pad(indent as nat) + e.block_type + crlf() + pad(indent as nat) + seq!['{'] + crlf());
    }
    let mut i: usize = 0;
    while i < entity.properties.len()
        invariant
            i <= entity.properties@.len(),
            e == entity@,
            indent + depth(e) <= usize::MAX,
            out@ == head + prop_lines(e, e.properties.take(i as int), pad(indent as nat + 1)),
        decreases entity.properties@.len() - i,
    {
        let ghost before = out@;
        let key = &entity.properties[i].0;
        let value = &entity.properties[i].1;
        let ghost kv = e.properties[i as int];
        proof {
            assert(kv == (key@, value@));
            assert(e.properties.take(i + 1).drop_last() =~= e.properties.take(i as int));
        }
        push_pad(out, indent + 1);
        if key.unicode_len() == 0 {
            push_str(out, value.as_str());
            push_char(out, ';');
            push_crlf(out);
            proof {
                assert(out@ =~= before + prop_line(e, kv, pad(indent as nat + 1)));
            }
        } else {
            push_str(out, key.as_str());
            push_str(out, " = ");
            let ghost mid = out@;
            if str_eq(key.as_str(), "Index") {
                match entity.index {
                    Some(id) => push_int(out, id as i64),
                    None => push_str(out, value.as_str()),
                }
            } else if str_eq(key.as_str(), "Targets") {
                let t = format_int_array(entity.targets.as_slice());
                push_str(out, t.as_str());
            } else if str_eq(key.as_str(), "Objects") {
                let t = format_int_array(entity.objects.as_slice());
                push_str(out, t.as_str());
            } else {
                push_str(out, value.as_str());
            }
            proof {
                assert(out@ =~= mid + rendered(e, kv.0, kv.1));
            }
            push_char(out, ';');
            push_crlf(out);
            proof {
                assert(out@ =~= before + prop_line(e, kv, pad(indent as nat + 1)));
            }
        }
        i = i + 1;
    }
    proof {
        assert(e.properties.take(i as int) =~= e.properties);
        lemma_children_model(*entity);
    }
    let ghost after_props = out@;
    let mut j: usize = 0;
    while j < entity.children.len()
        invariant
            j <= entity.children@.len(),
            e == entity@,
            e.children.len() == entity.children@.len(),
            forall|k: int| 0 <= k < e.children.len() ==> #[trigger] e.children[k] == entity.children@[k]@,
            indent + depth(e) <= usize::MAX,
            out@ == after_props + children_text(e.children.take(j as int), indent as nat),
        decreases entity.children@.len() - j,
    {
        let ghost before = out@;
        proof {
            assert(e.children.take(j + 1).drop_last() =~= e.children.take(j as int));
            assert(e.children.take(j + 1).last() == e.children[j as int]);
        }
        proof {
            lemma_depth_list(e.children, j as int);
        }
        write_entity(out, &entity.children[j], indent + 1);
        push_crlf(out);
        push_pad(out, indent + 1);
        push_crlf(out);
        proof {
            assert(out@ =~= after_props + children_text(e.children.take(j + 1), indent as nat));
        }
        j = j + 1;
    }
    proof {
        assert(e.children.take(j as int) =~= e.children);
    }
    push_pad(out, indent);
    push_char(out, '}');
    push_crlf(out);
    proof {
        assert(out@ =~= start + block_text(e, indent as nat));
    }
}

/// Write `entity` as `.Group` text: CRLF line ends, two-space indent.
pub fn serialize_group(entity: &Il2Entity) -> (r: String)
    requires
        depth(entity@) <= usize::MAX,
    ensures
        r@ == block_text(entity@, 0),
{
    let mut out = String::new();
    write_entity(&mut out, entity, 0);
    proof {
        assert(out@ =~= block_text(entity@, 0));
    }
    out
}

} // verus!
