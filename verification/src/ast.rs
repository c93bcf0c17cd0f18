//! Schema-agnostic IL-2 `.Group` syntax tree.
//!
//! Unrecognized keys are stored as string properties. MCU link arrays
//! (`Targets`, `Objects`) and `Index` are lifted into dedicated fields so the
//! duplication engine can reallocate and reconnect them.

use vstd::prelude::*;
use vstd::string::*;
use crate::text::{int_text, push_char, push_int, str_eq};

verus! {

/// One block of a `.Group` file: its type word, lifted link fields, ordered
/// `key = value;` properties (list items have an empty key) and nested blocks.
#[derive(Debug, PartialEq, Eq)]
pub struct Il2Entity {
    pub block_type: String,
    pub index: Option<i32>,
    pub targets: Vec<i32>,
    pub objects: Vec<i32>,
    pub properties: Vec<(String, String)>,
    pub children: Vec<Il2Entity>,
}

/// Mathematical model of an [`Il2Entity`].
pub struct EntityModel {
    pub block_type: Seq<char>,
    pub index: Option<i32>,
    pub targets: Seq<i32>,
    pub objects: Seq<i32>,
    pub properties: Seq<(Seq<char>, Seq<char>)>,
    pub children: Seq<EntityModel>,
}

pub type Props = Seq<(Seq<char>, Seq<char>)>;

pub open spec fn props_model(p: Seq<(String, String)>) -> Props {
    Seq::new(p.len(), |i: int| (p[i].0@, p[i].1@))
}

pub open spec fn model_of(e: Il2Entity) -> EntityModel
    decreases e,
{
    EntityModel {
        block_type: e.block_type@,
        index: e.index,
        targets: e.targets@,
        objects: e.objects@,
        properties: props_model(e.properties@),
        children: Seq::new(
            e.children@.len(),
            |i: int|
                if 0 <= i < e.children@.len() {
                    model_of(e.children@[i])
                } else {
                    arbitrary()
                },
        ),
    }
}

impl View for Il2Entity {
    type V = EntityModel;

    open spec fn view(&self) -> EntityModel {
        model_of(*self)
    }
}

pub open spec fn children_model(c: Seq<Il2Entity>) -> Seq<EntityModel> {
    Seq::new(c.len(), |i: int| model_of(c[i]))
}

pub proof fn lemma_children_model(e: Il2Entity)
    ensures
        e@.children == children_model(e.children@),
        e@.children.len() == e.children@.len(),
        forall|i: int| 0 <= i < e.children@.len() ==> #[trigger] e@.children[i] == e.children@[i]@,
{
    assert(e@.children =~= children_model(e.children@));
}

/// Element-wise copy of a property list.
pub(crate) fn copy_props(p: &Vec<(String, String)>) -> (r: Vec<(String, String)>)
    ensures
        props_model(r@) == props_model(p@),
{
    let mut r: Vec<(String, String)> = Vec::new();
    let mut i: usize = 0;
    while i < p.len()
        invariant
            i <= p@.len(),
            r@.len() == i,
            forall|j: int| 0 <= j < i ==> #[trigger] r@[j].0@ == p@[j].0@ && r@[j].1@ == p@[j].1@,
        decreases p@.len() - i,
    {
        r.push((p[i].0.clone(), p[i].1.clone()));
        i = i + 1;
    }
    proof {
        assert(props_model(r@) =~= props_model(p@));
    }
    r
}

pub(crate) fn copy_ids(v: &Vec<i32>) -> (r: Vec<i32>)
    ensures
        r@ == v@,
{
    let mut r: Vec<i32> = Vec::new();
    let mut i: usize = 0;
    while i < v.len()
        invariant
            i <= v@.len(),
            r@ == v@.take(i as int),
        decreases v@.len() - i,
    {
        r.push(v[i]);
        proof {
            assert(v@.take(i + 1) =~= v@.take(i as int).push(v@[i as int]));
        }
        i = i + 1;
    }
    proof {
        assert(v@.take(i as int) =~= v@);
    }
    r
}

impl Il2Entity {
    /// A deep copy with the same model.
    pub fn deep_copy(&self) -> (r: Il2Entity)
        ensures
            r@ == self@,
        decreases self,
    {
        let mut children: Vec<Il2Entity> = Vec::new();
        let mut i: usize = 0;
        while i < self.children.len()
            invariant
                i <= self.children@.len(),
                children@.len() == i,
                forall|j: int| 0 <= j < i ==> #[trigger] children@[j]@ == self.children@[j]@,
            decreases self.children@.len() - i,
        {
            children.push(self.children[i].deep_copy());
            i = i + 1;
        }
        let r = Il2Entity {
            block_type: self.block_type.clone(),
            index: self.index,
            targets: copy_ids(&self.targets),
            objects: copy_ids(&self.objects),
            properties: copy_props(&self.properties),
            children,
        };
        proof {
            lemma_children_model(r);
            lemma_children_model(*self);
            assert(r@.children =~= self@.children);
        }
        r
    }
}

impl Clone for Il2Entity {
    fn clone(&self) -> (r: Self)
        ensures
            r@ == self@,
    {
        self.deep_copy()
    }
}

// ---------------------------------------------------------------------------
// Properties
// ---------------------------------------------------------------------------

/// Position of the first property with key `key` (or the length when none).
pub open spec fn key_pos(props: Props, key: Seq<char>) -> int
    decreases props.len(),
{
    if props.len() == 0 {
        0
    } else if props[0].0 == key {
        0
    } else {
        1 + key_pos(props.drop_first(), key)
    }
}

pub proof fn lemma_key_pos(props: Props, key: Seq<char>)
    ensures
        0 <= key_pos(props, key) <= props.len(),
        key_pos(props, key) < props.len() ==> props[key_pos(props, key)].0 == key,
        forall|j: int| 0 <= j < key_pos(props, key) ==> #[trigger] props[j].0 != key,
    decreases props.len(),
{
    if props.len() > 0 && props[0].0 != key {
        lemma_key_pos(props.drop_first(), key);
        assert forall|j: int| 0 <= j < key_pos(props, key) implies #[trigger] props[j].0 != key by {
            if j > 0 {
                assert(props[j] == props.drop_first()[j - 1]);
            }
        }
    }
}

pub proof fn lemma_key_pos_exact(props: Props, key: Seq<char>, p: int)
    requires
        0 <= p <= props.len(),
        p < props.len() ==> props[p].0 == key,
        forall|j: int| 0 <= j < p ==> #[trigger] props[j].0 != key,
    ensures
        key_pos(props, key) == p,
    decreases props.len(),
{
    if props.len() > 0 && props[0].0 != key {
        let t = props.drop_first();
        assert forall|j: int| 0 <= j < p - 1 implies #[trigger] t[j].0 != key by {
            assert(t[j] == props[j + 1]);
        }
        if p - 1 < t.len() {
            assert(t[p - 1] == props[p]);
        }
        lemma_key_pos_exact(t, key, p - 1);
    }
}

/// Value of the first property named `key`.
pub open spec fn prop_get(props: Props, key: Seq<char>) -> Option<Seq<char>> {
    let p = key_pos(props, key);
    if p < props.len() {
        Some(props[p].1)
    } else {
        None
    }
}

/// Replace the first `key` value, or append `key = value` when missing.
pub open spec fn prop_set(props: Props, key: Seq<char>, value: Seq<char>) -> Props {
    let p = key_pos(props, key);
    if p < props.len() {
        props.update(p, (key, value))
    } else {
        props.push((key, value))
    }
}

/// Replace the first `key` value; no change when the key is missing.
pub open spec fn prop_set_existing(props: Props, key: Seq<char>, value: Seq<char>) -> Props {
    let p = key_pos(props, key);
    if p < props.len() {
        props.update(p, (key, value))
    } else {
        props
    }
}

/// Index of the first property named `key` in an exec property list.
fn find_key(props: &Vec<(String, String)>, key: &str) -> (r: usize)
    ensures
        r as int == key_pos(props_model(props@), key@),
{
    let ghost pm = props_model(props@);
    let mut i: usize = 0;
    while i < props.len()
        invariant
            i <= props@.len(),
            pm == props_model(props@),
            forall|j: int| 0 <= j < i ==> #[trigger] pm[j].0 != key@,
        decreases props@.len() - i,
    {
        if str_eq(props[i].0.as_str(), key) {
            proof {
                lemma_key_pos_exact(pm, key@, i as int);
            }
            return i;
        }
        i = i + 1;
    }
    proof {
        lemma_key_pos_exact(pm, key@, i as int);
    }
    i
}

/// Number of leading `"` characters.
pub open spec fn lead_quotes(s: Seq<char>) -> nat
    decreases s.len(),
{
    if s.len() > 0 && s[0] == '"' {
        1 + lead_quotes(s.drop_first())
    } else {
        0
    }
}

/// Number of trailing `"` characters.
pub open spec fn trail_quotes(s: Seq<char>) -> nat
    decreases s.len(),
{
    if s.len() > 0 && s.last() == '"' {
        1 + trail_quotes(s.drop_last())
    } else {
        0
    }
}

/// `s.trim_matches('"')`.
pub open spec fn strip_quotes(s: Seq<char>) -> Seq<char> {
    let t = s.subrange(lead_quotes(s) as int, s.len() as int);
    t.subrange(0, t.len() - trail_quotes(t))
}

pub proof fn lemma_lead_quotes_exact(s: Seq<char>, n: nat)
    requires
        n <= s.len(),
        forall|i: int| 0 <= i < n ==> #[trigger] s[i] == '"',
        n == s.len() || s[n as int] != '"',
    ensures
        lead_quotes(s) == n,
    decreases n,
{
    if n > 0 {
        let t = s.drop_first();
        assert forall|i: int| 0 <= i < n - 1 implies #[trigger] t[i] == '"' by {
            assert(t[i] == s[i + 1]);
        }
        if n < s.len() {
            assert(t[n - 1] == s[n as int]);
        }
        lemma_lead_quotes_exact(t, (n - 1) as nat);
    }
}

pub proof fn lemma_trail_quotes_exact(s: Seq<char>, n: nat)
    requires
        n <= s.len(),
        forall|i: int| s.len() - n <= i < s.len() ==> #[trigger] s[i] == '"',
        n == s.len() || s[s.len() - n - 1] != '"',
    ensures
        trail_quotes(s) == n,
    decreases n,
{
    if n > 0 {
        let t = s.drop_last();
        assert(s[s.len() - 1] == '"');
        assert forall|i: int| t.len() - (n - 1) <= i < t.len() implies #[trigger] t[i] == '"' by {
            assert(t[i] == s[i]);
        }
        if n < s.len() {
            assert(t[t.len() - (n - 1) - 1] == s[s.len() - n - 1]);
        }
        lemma_trail_quotes_exact(t, (n - 1) as nat);
    }
}

/// `s.trim_matches('"')` on a string slice.
pub fn trim_quotes(s: &str) -> (r: &str)
    ensures
        r@ == strip_quotes(s@),
{
    let n = s.unicode_len();
    let mut a: usize = 0;
    while a < n && s.get_char(a) == '"'
        invariant
            a <= n,
            n == s@.len(),
            forall|i: int| 0 <= i < a ==> #[trigger] s@[i] == '"',
        decreases n - a,
    {
        a = a + 1;
    }
    let mut b: usize = n;
    while b > a && s.get_char(b - 1) == '"'
        invariant
            a <= b <= n,
            n == s@.len(),
            forall|i: int| b <= i < n ==> #[trigger] s@[i] == '"',
        decreases b - a,
    {
        b = b - 1;
    }
    proof {
        lemma_lead_quotes_exact(s@, a as nat);
        let t = s@.subrange(a as int, s@.len() as int);
        assert forall|i: int| t.len() - (n - b) <= i < t.len() implies #[trigger] t[i] == '"' by {
            assert(t[i] == s@[i + a]);
        }
        if b > a {
            assert(t[t.len() - (n - b) - 1] == s@[b - 1]);
        }
        lemma_trail_quotes_exact(t, (n - b) as nat);
        assert(strip_quotes(s@) =~= s@.subrange(a as int, b as int));
    }
    s.substring_char(a, b)
}

// ---------------------------------------------------------------------------
// Integer arrays
// ---------------------------------------------------------------------------

/// Comma-joined decimal ids.
pub open spec fn join_ints(ids: Seq<i32>) -> Seq<char>
    decreases ids.len(),
{
    if ids.len() == 0 {
        seq![]
    } else if ids.len() == 1 {
        int_text(ids[0] as int)
    } else {
        join_ints(ids.drop_last()) + seq![','] + int_text(ids.last() as int)
    }
}

/// `[id,id,...]` text of a link array.
pub open spec fn int_array_text(ids: Seq<i32>) -> Seq<char> {
    seq!['['] + join_ints(ids) + seq![']']
}

/// Render ids as an IL-2 link array: `[]`, `[5]`, `[1,2]`.
pub fn format_int_array(ids: &[i32]) -> (r: String)
    ensures
        r@ == int_array_text(ids@),
{
    let mut out = String::new();
    push_char(&mut out, '[');
    let mut i: usize = 0;
    while i < ids.len()
        invariant
            i <= ids@.len(),
            out@ == seq!['['] + join_ints(ids@.take(i as int)),
        decreases ids@.len() - i,
    {
        let ghost before = out@;
        if i > 0 {
            push_char(&mut out, ',');
        }
        push_int(&mut out, ids[i] as i64);
        proof {
            let t = ids@.take(i + 1);
            assert(t.drop_last() =~= ids@.take(i as int));
            if i == 0 {
                assert(join_ints(ids@.take(0)) =~= Seq::<char>::empty());
                assert(out@ =~= seq!['['] + join_ints(t));
            } else {
                assert(out@ =~= seq!['['] + join_ints(t));
            }
        }
        i = i + 1;
    }
    push_char(&mut out, ']');
    proof {
        assert(ids@.take(ids@.len() as int) =~= ids@);
        assert(out@ =~= int_array_text(ids@));
    }
    out
}

// ---------------------------------------------------------------------------
// Tree queries
// ---------------------------------------------------------------------------

/// Highest `Index` in a subtree (a node without one counts as 0; a leaf
/// never reports below 0).
pub open spec fn max_index_of(e: EntityModel) -> int
    decreases e,
{
    let own: int = match e.index {
        Some(i) => i as int,
        None => 0,
    };
    if e.children.len() == 0 {
        if own > 0 {
            own
        } else {
            0
        }
    } else {
        max_in(e.children, own)
    }
}

pub open spec fn max_in(cs: Seq<EntityModel>, acc: int) -> int
    decreases cs,
{
    if cs.len() == 0 {
        acc
    } else {
        let m = max_index_of(cs[0]);
        max_in(cs.drop_first(), if m > acc { m } else { acc })
    }
}

/// `Name` with the surrounding quotes stripped.
pub open spec fn name_of(e: EntityModel) -> Option<Seq<char>> {
    match prop_get(e.properties, "Name"@) {
        Some(v) => Some(strip_quotes(v)),
        None => None,
    }
}

/// First node of the subtree (pre-order) whose name is `name`.
pub open spec fn find_named(e: EntityModel, name: Seq<char>) -> Option<EntityModel>
    decreases e,
{
    if name_of(e) == Some(name) {
        Some(e)
    } else {
        find_in(e.children, name)
    }
}

pub open spec fn find_in(cs: Seq<EntityModel>, name: Seq<char>) -> Option<EntityModel>
    decreases cs,
{
    if cs.len() == 0 {
        None
    } else {
        match find_named(cs[0], name) {
            Some(x) => Some(x),
            None => find_in(cs.drop_first(), name),
        }
    }
}

/// All nodes of the subtree (pre-order) whose name is `name`.
pub open spec fn all_named(e: EntityModel, name: Seq<char>) -> Seq<EntityModel>
    decreases e,
{
    let own: Seq<EntityModel> = if name_of(e) == Some(name) {
        seq![e]
    } else {
        seq![]
    };
    own + all_named_in(e.children, name)
}

pub open spec fn all_named_in(cs: Seq<EntityModel>, name: Seq<char>) -> Seq<EntityModel>
    decreases cs,
{
    if cs.len() == 0 {
        seq![]
    } else {
        all_named(cs[0], name) + all_named_in(cs.drop_first(), name)
    }
}

/// Number of nodes of the subtree whose block type is `t`.
pub open spec fn count_type(e: EntityModel, t: Seq<char>) -> int
    decreases e,
{
    (if e.block_type == t {
        1int
    } else {
        0int
    }) + count_type_in(e.children, t)
}

pub open spec fn count_type_in(cs: Seq<EntityModel>, t: Seq<char>) -> int
    decreases cs,
{
    if cs.len() == 0 {
        0
    } else {
        count_type(cs[0], t) + count_type_in(cs.drop_first(), t)
    }
}

/// Every `Index` of the subtree, pre-order.
pub open spec fn indexes_of(e: EntityModel) -> Seq<i32>
    decreases e,
{
    let own: Seq<i32> = match e.index {
        Some(i) => seq![i],
        None => seq![],
    };
    own + indexes_in(e.children)
}

pub open spec fn indexes_in(cs: Seq<EntityModel>) -> Seq<i32>
    decreases cs,
{
    if cs.len() == 0 {
        seq![]
    } else {
        indexes_of(cs[0]) + indexes_in(cs.drop_first())
    }
}

/// Every node of the subtree, pre-order.
pub open spec fn nodes(e: EntityModel) -> Seq<EntityModel>
    decreases e,
{
    seq![e] + nodes_in(e.children)
}

pub open spec fn nodes_in(cs: Seq<EntityModel>) -> Seq<EntityModel>
    decreases cs,
{
    if cs.len() == 0 {
        seq![]
    } else {
        nodes(cs[0]) + nodes_in(cs.drop_first())
    }
}

/// Every occurrence of `old_id` in `ids` replaced by `new_id`.
pub open spec fn replace_in(ids: Seq<i32>, old_id: i32, new_id: i32) -> Seq<i32> {
    ids.map_values(|x: i32| if x == old_id { new_id } else { x })
}

/// `replace_target_id` on the whole subtree: targets rewritten, and the
/// `Targets` text re-rendered on each node where something changed.
pub open spec fn retarget(e: EntityModel, old_id: i32, new_id: i32) -> EntityModel
    decreases e,
{
    let changed = e.targets.contains(old_id);
    let targets = replace_in(e.targets, old_id, new_id);
    EntityModel {
        targets,
        properties: if changed {
            prop_set(e.properties, "Targets"@, int_array_text(targets))
        } else {
            e.properties
        },
        children: Seq::new(
            e.children.len(),
            |i: int|
                if 0 <= i < e.children.len() {
                    retarget(e.children[i], old_id, new_id)
                } else {
                    arbitrary()
                },
        ),
        ..e
    }
}

pub open spec fn ids_contain(ids: Seq<i32>, id: i32) -> bool {
    ids.contains(id)
}

/// Whether `ids` holds `id`.
pub fn contains_id(ids: &Vec<i32>, id: i32) -> (r: bool)
    ensures
        r == ids@.contains(id),
{
    let mut i: usize = 0;
    while i < ids.len()
        invariant
            i <= ids@.len(),
            forall|j: int| 0 <= j < i ==> #[trigger] ids@[j] != id,
        decreases ids@.len() - i,
    {
        if ids[i] == id {
            return true;
        }
        i = i + 1;
    }
    false
}

pub proof fn lemma_max_in_bounded(cs: Seq<EntityModel>, acc: int)
    requires
        i32::MIN <= acc <= i32::MAX,
        forall|j: int| 0 <= j < cs.len() ==> i32::MIN <= #[trigger] max_index_of(cs[j]) <= i32::MAX,
    ensures
        i32::MIN <= max_in(cs, acc) <= i32::MAX,
    decreases cs,
{
    if cs.len() > 0 {
        let t = cs.drop_first();
        assert forall|j: int| 0 <= j < t.len() implies i32::MIN <= #[trigger] max_index_of(t[j]) <= i32::MAX by {
            assert(t[j] == cs[j + 1]);
        }
        assert(i32::MIN <= max_index_of(cs[0]) <= i32::MAX);
        let m = max_index_of(cs[0]);
        lemma_max_in_bounded(t, if m > acc { m } else { acc });
    }
}

impl Il2Entity {
    /// An empty block of type `block_type`.
    pub fn new(block_type: &str) -> (r: Il2Entity)
        ensures
            r@ == (EntityModel {
                block_type: block_type@,
                index: None,
                targets: seq![],
                objects: seq![],
                properties: seq![],
                children: seq![],
            }),
    {
        let r = Il2Entity {
            block_type: block_type.to_owned(),
            index: None,
            targets: Vec::new(),
            objects: Vec::new(),
            properties: Vec::new(),
            children: Vec::new(),
        };
        proof {
            assert(r@.children =~= Seq::<EntityModel>::empty());
            assert(r@.properties =~= Seq::<(Seq<char>, Seq<char>)>::empty());
        }
        r
    }

    /// Value of the first property named `key`.
    pub fn property(&self, key: &str) -> (r: Option<&str>)
        ensures
            r is Some <==> prop_get(self@.properties, key@) is Some,
            r matches Some(v) ==> prop_get(self@.properties, key@) == Some(v@),
    {
        let p = find_key(&self.properties, key);
        if p < self.properties.len() {
            Some(self.properties[p].1.as_str())
        } else {
            None
        }
    }

    /// Set `key` to `value`, appending the property when it is missing.
    pub fn set_property(&mut self, key: &str, value: &str)
        ensures
            final(self)@ == (EntityModel { properties: prop_set(old(self)@.properties, key@, value@), ..old(self)@ }),
            final(self).children == old(self).children,
            final(self).block_type == old(self).block_type,
            final(self).index == old(self).index,
            final(self).targets == old(self).targets,
            final(self).objects == old(self).objects,
    {
        let p = find_key(&self.properties, key);
        let ghost before = self.properties@;
        proof {
            lemma_key_pos(props_model(before), key@);
        }
        if p < self.properties.len() {
            self.properties[p].1 = value.to_owned();
            proof {
                assert(props_model(self.properties@) =~= props_model(before).update(p as int, (key@, value@)));
            }
        } else {
            self.properties.push((key.to_owned(), value.to_owned()));
            proof {
                assert(props_model(self.properties@) =~= props_model(before).push((key@, value@)));
            }
        }
        proof {
            assert(final(self)@.children =~= old(self)@.children);
        }
    }

    /// Update `key` only when the block already has it. Ground vehicles
    /// must not gain plane-only keys.
    pub fn set_existing_property(&mut self, key: &str, value: &str)
        ensures
            final(self)@ == (EntityModel { properties: prop_set_existing(old(self)@.properties, key@, value@), ..old(self)@ }),
            final(self).children == old(self).children,
            final(self).block_type == old(self).block_type,
            final(self).index == old(self).index,
            final(self).targets == old(self).targets,
            final(self).objects == old(self).objects,
    {
        let p = find_key(&self.properties, key);
        let ghost before = self.properties@;
        proof {
            lemma_key_pos(props_model(before), key@);
        }
        if p < self.properties.len() {
            self.properties[p].1 = value.to_owned();
            proof {
                assert(props_model(self.properties@) =~= props_model(before).update(p as int, (key@, value@)));
            }
        }
        proof {
            assert(final(self)@.children =~= old(self)@.children);
            assert(final(self)@.properties =~= prop_set_existing(old(self)@.properties, key@, value@));
        }
    }

    /// Highest `Index` in this subtree (0 if none).
    pub fn max_index(&self) -> (r: i32)
        ensures
            r as int == max_index_of(self@),
        decreases self,
    {
        let own: i32 = match self.index {
            Some(i) => i,
            None => 0,
        };
        proof {
            lemma_children_model(*self);
        }
        if self.children.len() == 0 {
            return if own > 0 { own } else { 0 };
        }
        let ghost cs = self@.children;
        let mut acc = own;
        let mut i: usize = 0;
        proof {
            assert(cs.skip(0) =~= cs);
        }
        while i < self.children.len()
            invariant
                i <= self.children@.len(),
                cs == self@.children,
                cs.len() == self.children@.len(),
                forall|j: int| 0 <= j < cs.len() ==> #[trigger] cs[j] == self.children@[j]@,
                max_in(cs, own as int) == max_in(cs.skip(i as int), acc as int),
            decreases self.children@.len() - i,
        {
            let m = self.children[i].max_index();
            proof {
                assert(cs.skip(i as int).drop_first() =~= cs.skip(i + 1));
                assert(cs.skip(i as int)[0] == cs[i as int]);
            }
            if m > acc {
                acc = m;
            }
            i = i + 1;
        }
        proof {
            assert(cs.skip(i as int) =~= Seq::<EntityModel>::empty());
        }
        acc
    }

    /// `Name` property with surrounding quotes stripped.
    pub fn name(&self) -> (r: Option<&str>)
        ensures
            r is Some <==> name_of(self@) is Some,
            r matches Some(v) ==> name_of(self@) == Some(v@),
    {
        match self.property("Name") {
            Some(v) => Some(trim_quotes(v)),
            None => None,
        }
    }

    /// Set `Name` to `"name"`.
    pub fn set_name(&mut self, name: &str)
        ensures
            final(self)@ == (EntityModel {
                properties: prop_set(old(self)@.properties, "Name"@, seq!['"'] + name@ + seq!['"']),
                ..old(self)@
            }),
            final(self).children == old(self).children,
    {
        let mut v = String::new();
        push_char(&mut v, '"');
        v.append(name);
        push_char(&mut v, '"');
        proof {
            assert(v@ =~= seq!['"'] + name@ + seq!['"']);
        }
        self.set_property("Name", v.as_str());
    }

    /// Whether this node's name is `name`.
    pub(crate) fn has_name(&self, name: &str) -> (r: bool)
        ensures
            r == (name_of(self@) == Some(name@)),
    {
        match self.name() {
            Some(n) => str_eq(n, name),
            None => false,
        }
    }

    /// First node of this subtree (pre-order) named `name`.
    pub fn find_by_name(&self, name: &str) -> (r: Option<&Il2Entity>)
        ensures
            r is Some <==> find_named(self@, name@) is Some,
            r matches Some(x) ==> find_named(self@, name@) == Some(x@),
        decreases self,
    {
        if self.has_name(name) {
            return Some(self);
        }
        proof {
            lemma_children_model(*self);
        }
        let ghost cs = self@.children;
        let mut i: usize = 0;
        proof {
            assert(cs.skip(0) =~= cs);
        }
        while i < self.children.len()
            invariant
                i <= self.children@.len(),
                cs == self@.children,
                cs.len() == self.children@.len(),
                forall|j: int| 0 <= j < cs.len() ==> #[trigger] cs[j] == self.children@[j]@,
                name_of(self@) != Some(name@),
                find_in(cs, name@) == find_in(cs.skip(i as int), name@),
            decreases self.children@.len() - i,
        {
            proof {
                assert(cs.skip(i as int).drop_first() =~= cs.skip(i + 1));
                assert(cs.skip(i as int)[0] == cs[i as int]);
            }
            let found = self.children[i].find_by_name(name);
            if found.is_some() {
                proof {
                    assert(find_in(cs.skip(i as int), name@) == find_named(cs[i as int], name@));
                }
                return found;
            }
            i = i + 1;
        }
        proof {
            assert(cs.skip(i as int) =~= Seq::<EntityModel>::empty());
        }
        None
    }

    /// Append every node of this subtree named `name` (pre-order) to `out`.
    pub fn find_all_by_name<'a>(&'a self, name: &str, out: &mut Vec<&'a Il2Entity>)
        ensures
            final(out)@.len() == old(out)@.len() + all_named(self@, name@).len(),
            forall|j: int| 0 <= j < old(out)@.len() ==> #[trigger] final(out)@[j] == old(out)@[j],
            forall|j: int|
                0 <= j < all_named(self@, name@).len() ==> #[trigger] final(out)@[old(out)@.len() + j]@
                    == all_named(self@, name@)[j],
        decreases self,
    {
        let ghost start = out@;
        if self.has_name(name) {
            out.push(self);
        }
        let ghost own: Seq<EntityModel> = if name_of(self@) == Some(name@) { seq![self@] } else { seq![] };
        proof {
            lemma_children_model(*self);
        }
        let ghost cs = self@.children;
        let mut i: usize = 0;
        proof {
            assert(cs.skip(0) =~= cs);
            let all = all_named(self@, name@);
            assert(all == own + all_named_in(cs, name@));
            assert(all.take(own.len() as int) =~= own);
            if own.len() == 1 {
                assert(out@[start.len() as int]@ == self@);
            }
        }
        while i < self.children.len()
            invariant
                i <= self.children@.len(),
                cs == self@.children,
                cs.len() == self.children@.len(),
                forall|j: int| 0 <= j < cs.len() ==> #[trigger] cs[j] == self.children@[j]@,
                own == (if name_of(self@) == Some(name@) { seq![self@] } else { Seq::<EntityModel>::empty() }),
                all_named(self@, name@) == own + all_named_in(cs, name@),
                ({
                    let done = all_named(self@, name@).len() - all_named_in(cs.skip(i as int), name@).len();
                    &&& out@.len() == start.len() + done
                    &&& forall|j: int| 0 <= j < start.len() ==> #[trigger] out@[j] == start[j]
                    &&& forall|j: int| 0 <= j < done ==> #[trigger] out@[start.len() + j]@ == all_named(self@, name@)[j]
                    &&& all_named(self@, name@) == all_named(self@, name@).take(done) + all_named_in(cs.skip(i as int), name@)
                }),
            decreases self.children@.len() - i,
        {
            proof {
                assert(cs.skip(i as int).drop_first() =~= cs.skip(i + 1));
                assert(cs.skip(i as int)[0] == cs[i as int]);
            }
            let ghost before = out@;
            let ghost total = all_named(self@, name@);
            let ghost done = total.len() - all_named_in(cs.skip(i as int), name@).len();
            self.children[i].find_all_by_name(name, out);
            proof {
                let part = all_named(cs[i as int], name@);
                let rest = all_named_in(cs.skip(i + 1), name@);
                assert(all_named_in(cs.skip(i as int), name@) == part + rest);
                assert(total == total.take(done) + (part + rest));
                assert(total.take(done).len() == done);
                assert forall|j: int| 0 <= j < done + part.len() implies #[trigger] out@[start.len() + j]@ == total[j] by {
                    if j < done {
                        assert(out@[start.len() + j] == before[start.len() + j]);
                    } else {
                        assert(total[j] == (total.take(done) + (part + rest))[j]);
                        assert((part + rest)[j - done] == part[j - done]);
                        assert(out@[before.len() + (j - done)]@ == part[j - done]);
                    }
                }
                assert(total =~= total.take(done + part.len()) + rest);
            }
            i = i + 1;
        }
        proof {
            assert(cs.skip(i as int) =~= Seq::<EntityModel>::empty());
            assert(all_named(self@, name@).take(all_named(self@, name@).len() as int) =~= all_named(self@, name@));
        }
    }

    /// Number of nodes in this subtree whose block type is `block_type`.
    pub fn count_block_type(&self, block_type: &str) -> (r: usize)
        requires
            count_type(self@, block_type@) <= usize::MAX,
        ensures
            r as int == count_type(self@, block_type@),
        decreases self,
    {
        let mut n: usize = if str_eq(self.block_type.as_str(), block_type) { 1 } else { 0 };
        proof {
            lemma_children_model(*self);
        }
        let ghost cs = self@.children;
        let mut i: usize = 0;
        proof {
            assert(cs.skip(0) =~= cs);
        }
        while i < self.children.len()
            invariant
                i <= self.children@.len(),
                cs == self@.children,
                cs.len() == self.children@.len(),
                forall|j: int| 0 <= j < cs.len() ==> #[trigger] cs[j] == self.children@[j]@,
                count_type(self@, block_type@) == n + count_type_in(cs.skip(i as int), block_type@),
                count_type(self@, block_type@) <= usize::MAX,
            decreases self.children@.len() - i,
        {
            proof {
                assert(cs.skip(i as int).drop_first() =~= cs.skip(i + 1));
                assert(cs.skip(i as int)[0] == cs[i as int]);
                lemma_count_nonneg_in(cs.skip(i + 1), block_type@);
                lemma_count_nonneg(cs[i as int], block_type@);
            }
            let c = self.children[i].count_block_type(block_type);
            n = n + c;
            i = i + 1;
        }
        proof {
            assert(cs.skip(i as int) =~= Seq::<EntityModel>::empty());
        }
        n
    }

    /// Append every `Index` of this subtree (pre-order) to `out`.
    pub fn collect_indexes(&self, out: &mut Vec<i32>)
        ensures
            final(out)@ == old(out)@ + indexes_of(self@),
        decreases self,
    {
        let ghost start = out@;
        if let Some(id) = self.index {
            out.push(id);
        }
        proof {
            lemma_children_model(*self);
        }
        let ghost own: Seq<i32> = match self.index { Some(i) => seq![i], None => seq![] };
        let ghost cs = self@.children;
        let mut i: usize = 0;
        proof {
            assert(cs.skip(0) =~= cs);
            assert(start + indexes_of(self@) =~= out@ + indexes_in(cs));
        }
        while i < self.children.len()
            invariant
                i <= self.children@.len(),
                cs == self@.children,
                cs.len() == self.children@.len(),
                forall|j: int| 0 <= j < cs.len() ==> #[trigger] cs[j] == self.children@[j]@,
                start + indexes_of(self@) == out@ + indexes_in(cs.skip(i as int)),
            decreases self.children@.len() - i,
        {
            proof {
                assert(cs.skip(i as int).drop_first() =~= cs.skip(i + 1));
                assert(cs.skip(i as int)[0] == cs[i as int]);
            }
            let ghost before = out@;
            self.children[i].collect_indexes(out);
            proof {
                assert(before + indexes_in(cs.skip(i as int)) =~= out@ + indexes_in(cs.skip(i + 1)));
            }
            i = i + 1;
        }
        proof {
            assert(cs.skip(i as int) =~= Seq::<EntityModel>::empty());
            assert(out@ + indexes_in(cs.skip(i as int)) =~= out@);
        }
    }

    /// Append every node of this subtree (pre-order) to `out`.
    pub fn collect_nodes<'a>(&'a self, out: &mut Vec<&'a Il2Entity>)
        ensures
            final(out)@.len() == old(out)@.len() + nodes(self@).len(),
            forall|j: int| 0 <= j < old(out)@.len() ==> #[trigger] final(out)@[j] == old(out)@[j],
            forall|j: int| 0 <= j < nodes(self@).len() ==> #[trigger] final(out)@[old(out)@.len() + j]@ == nodes(self@)[j],
        decreases self,
    {
        let ghost start = out@;
        out.push(self);
        proof {
            lemma_children_model(*self);
        }
        let ghost cs = self@.children;
        let ghost all = nodes(self@);
        let mut i: usize = 0;
        proof {
            assert(cs.skip(0) =~= cs);
            assert(all == seq![self@] + nodes_in(cs));
        }
        while i < self.children.len()
            invariant
                i <= self.children@.len(),
                cs == self@.children,
                cs.len() == self.children@.len(),
                forall|j: int| 0 <= j < cs.len() ==> #[trigger] cs[j] == self.children@[j]@,
                all == nodes(self@),
                ({
                    let done = all.len() - nodes_in(cs.skip(i as int)).len();
                    &&& out@.len() == start.len() + done
                    &&& forall|j: int| 0 <= j < start.len() ==> #[trigger] out@[j] == start[j]
                    &&& forall|j: int| 0 <= j < done ==> #[trigger] out@[start.len() + j]@ == all[j]
                    &&& all == all.take(done) + nodes_in(cs.skip(i as int))
                }),
            decreases self.children@.len() - i,
        {
            proof {
                assert(cs.skip(i as int).drop_first() =~= cs.skip(i + 1));
                assert(cs.skip(i as int)[0] == cs[i as int]);
            }
            let ghost before = out@;
            let ghost done = all.len() - nodes_in(cs.skip(i as int)).len();
            self.children[i].collect_nodes(out);
            proof {
                let part = nodes(cs[i as int]);
                let rest = nodes_in(cs.skip(i + 1));
                assert(nodes_in(cs.skip(i as int)) == part + rest);
                assert(all == all.take(done) + (part + rest));
                assert(all.take(done).len() == done);
                assert forall|j: int| 0 <= j < done + part.len() implies #[trigger] out@[start.len() + j]@ == all[j] by {
                    if j < done {
                        assert(out@[start.len() + j] == before[start.len() + j]);
                    } else {
                        assert(all[j] == (all.take(done) + (part + rest))[j]);
                        assert((part + rest)[j - done] == part[j - done]);
                        assert(out@[before.len() + (j - done)]@ == part[j - done]);
                    }
                }
                assert(all =~= all.take(done + part.len()) + rest);
            }
            i = i + 1;
        }
        proof {
            assert(cs.skip(i as int) =~= Seq::<EntityModel>::empty());
            assert(all.take(all.len() as int) =~= all);
        }
    }

    /// Replace the `Targets` link array and re-render its property text.
    pub fn set_targets(&mut self, ids: Vec<i32>)
        ensures
            final(self)@ == (EntityModel {
                targets: ids@,
                properties: prop_set(old(self)@.properties, "Targets"@, int_array_text(ids@)),
                ..old(self)@
            }),
            final(self).children == old(self).children,
    {
        let text = format_int_array(ids.as_slice());
        self.targets = ids;
        proof {
            assert(self@.children =~= old(self)@.children);
        }
        self.set_property("Targets", text.as_str());
    }

    /// Replace the `Objects` link array and re-render its property text.
    pub fn set_objects(&mut self, ids: Vec<i32>)
        ensures
            final(self)@ == (EntityModel {
                objects: ids@,
                properties: prop_set(old(self)@.properties, "Objects"@, int_array_text(ids@)),
                ..old(self)@
            }),
    {
        let text = format_int_array(ids.as_slice());
        self.objects = ids;
        proof {
            assert(self@.children =~= old(self)@.children);
        }
        self.set_property("Objects", text.as_str());
    }

    /// Add `id` to `Targets` unless it is already there.
    pub fn append_target(&mut self, id: i32)
        ensures
            old(self)@.targets.contains(id) ==> final(self)@ == old(self)@,
            !old(self)@.targets.contains(id) ==> final(self)@ == (EntityModel {
                targets: old(self)@.targets.push(id),
                properties: prop_set(
                    old(self)@.properties,
                    "Targets"@,
                    int_array_text(old(self)@.targets.push(id)),
                ),
                ..old(self)@
            }),
    {
        if contains_id(&self.targets, id) {
            return;
        }
        let mut ids = copy_ids(&self.targets);
        ids.push(id);
        self.set_targets(ids);
    }

    /// Rewrite every `old_id` target in this subtree to `new_id`.
    pub fn replace_target_id(&mut self, old_id: i32, new_id: i32)
        ensures
            old_id == new_id ==> final(self)@ == old(self)@,
            old_id != new_id ==> final(self)@ == retarget(old(self)@, old_id, new_id),
        decreases *old(self),
    {
        if old_id == new_id {
            return;
        }
        let ghost orig = *self;
        proof {
            lemma_children_model(orig);
        }
        let mut i: usize = 0;
        while i < self.children.len()
            invariant
                i <= self.children@.len(),
                self.children@.len() == orig.children@.len(),
                forall|j: int| 0 <= j < i ==> #[trigger] self.children@[j]@ == retarget(orig.children@[j]@, old_id, new_id),
                forall|j: int| i <= j < self.children@.len() ==> #[trigger] self.children@[j] == orig.children@[j],
                self.properties == orig.properties,
                self.targets == orig.targets,
                self.block_type == orig.block_type,
                self.index == orig.index,
                self.objects == orig.objects,
                old_id != new_id,
                orig == *old(self),
            decreases self.children@.len() - i,
        {
            proof {
                assert(decreases_to!(orig => orig.children));
                assert(decreases_to!(orig.children => orig.children@));
                assert(decreases_to!(orig.children@ => orig.children@[i as int]));
            }
            self.children[i].replace_target_id(old_id, new_id);
            i = i + 1;
        }
        let ghost kids = self.children;
        let mut changed = false;
        let mut k: usize = 0;
        while k < self.targets.len()
            invariant
                k <= self.targets@.len(),
                self.targets@.len() == orig.targets@.len(),
                forall|j: int| 0 <= j < k ==> #[trigger] self.targets@[j] == (if orig.targets@[j] == old_id { new_id } else { orig.targets@[j] }),
                forall|j: int| k <= j < self.targets@.len() ==> #[trigger] self.targets@[j] == orig.targets@[j],
                changed == (exists|j: int| 0 <= j < k && #[trigger] orig.targets@[j] == old_id),
                self.children == kids,
                self.properties == orig.properties,
                self.block_type == orig.block_type,
                self.index == orig.index,
                self.objects == orig.objects,
            decreases self.targets@.len() - k,
        {
            if self.targets[k] == old_id {
                self.targets[k] = new_id;
                changed = true;
            }
            k = k + 1;
        }
        proof {
            assert(self.targets@ =~= replace_in(orig.targets@, old_id, new_id));
            if changed {
                let j = choose|j: int| 0 <= j < k && #[trigger] orig.targets@[j] == old_id;
                assert(orig.targets@.contains(old_id));
            } else {
                assert(!orig.targets@.contains(old_id));
            }
        }
        if changed {
            let text = format_int_array(self.targets.as_slice());
            self.set_property("Targets", text.as_str());
        }
        proof {
            lemma_children_model(*self);
            let r = retarget(orig@, old_id, new_id);
            assert(self@.children =~= r.children);
            assert(self@.targets =~= r.targets);
        }
    }
}

pub proof fn lemma_count_nonneg(e: EntityModel, t: Seq<char>)
    ensures
        count_type(e, t) >= 0,
    decreases e,
{
    lemma_count_nonneg_in(e.children, t);
}

pub proof fn lemma_count_nonneg_in(cs: Seq<EntityModel>, t: Seq<char>)
    ensures
        count_type_in(cs, t) >= 0,
    decreases cs,
{
    if cs.len() > 0 {
        lemma_count_nonneg(cs[0], t);
        lemma_count_nonneg_in(cs.drop_first(), t);
    }
}

// ---------------------------------------------------------------------------
// Editing a named node in place
// ---------------------------------------------------------------------------

/// `e` with its first node (pre-order) named `name` replaced by `v`.
pub open spec fn put_named(e: EntityModel, name: Seq<char>, v: EntityModel) -> EntityModel
    decreases e,
{
    if name_of(e) == Some(name) {
        v
    } else {
        EntityModel { children: put_in(e.children, name, v), ..e }
    }
}

pub open spec fn put_in(cs: Seq<EntityModel>, name: Seq<char>, v: EntityModel) -> Seq<EntityModel>
    decreases cs,
{
    if cs.len() == 0 {
        cs
    } else if find_named(cs[0], name) is Some {
        seq![put_named(cs[0], name, v)] + cs.drop_first()
    } else {
        seq![cs[0]] + put_in(cs.drop_first(), name, v)
    }
}

proof fn lemma_put_in_skip(cs: Seq<EntityModel>, name: Seq<char>, v: EntityModel, i: int)
    requires
        0 <= i <= cs.len(),
        forall|j: int| 0 <= j < i ==> find_named(#[trigger] cs[j], name) is None,
    ensures
        put_in(cs, name, v) == cs.take(i) + put_in(cs.skip(i), name, v),
        find_in(cs, name) == find_in(cs.skip(i), name),
    decreases i,
{
    if i == 0 {
        assert(cs.skip(0) =~= cs);
        assert(cs.take(0) + put_in(cs, name, v) =~= put_in(cs, name, v));
    } else {
        let r = cs.drop_first();
        assert forall|j: int| 0 <= j < i - 1 implies find_named(#[trigger] r[j], name) is None by {
            assert(r[j] == cs[j + 1]);
        }
        lemma_put_in_skip(r, name, v, i - 1);
        assert(r.skip(i - 1) =~= cs.skip(i));
        assert(cs.take(i) =~= seq![cs[0]] + r.take(i - 1));
    }
}

/// `e` is `orig` but for its child `i`.
pub open spec fn same_but_child(e: Il2Entity, orig: Il2Entity, i: int) -> bool {
    &&& e.block_type == orig.block_type
    &&& e.index == orig.index
    &&& e.targets == orig.targets
    &&& e.objects == orig.objects
    &&& e.properties == orig.properties
    &&& e.children@.len() == orig.children@.len()
    &&& forall|j: int| 0 <= j < e.children@.len() && j != i ==> #[trigger] e.children@[j] == orig.children@[j]
}

proof fn lemma_put_child(orig: Il2Entity, name: Seq<char>, i: int)
    requires
        0 <= i < orig.children@.len(),
        name_of(orig@) != Some(name),
        forall|j: int| 0 <= j < i ==> find_named(#[trigger] orig@.children[j], name) is None,
        find_named(orig@.children[i], name) is Some,
    ensures
        forall|e: Il2Entity, fm: EntityModel|
            #![trigger e@, put_named(orig@.children[i], name, fm)]
            same_but_child(e, orig, i) && e.children@[i]@ == put_named(orig@.children[i], name, fm) ==> e@ == put_named(
                orig@,
                name,
                fm,
            ),
{
    lemma_children_model(orig);
    let cs = orig@.children;
    lemma_put_in_skip(cs, name, orig@, i);
    let sk = cs.skip(i);
    assert(sk[0] == cs[i]);
    assert(sk.drop_first() =~= cs.skip(i + 1));
    assert forall|e: Il2Entity, fm: EntityModel|
        #![trigger e@, put_named(orig@.children[i], name, fm)]
        same_but_child(e, orig, i) && e.children@[i]@ == put_named(orig@.children[i], name, fm) implies e@ == put_named(
            orig@,
            name,
            fm,
        ) by {
        lemma_children_model(e);
        lemma_put_in_skip(cs, name, fm, i);
        assert forall|j: int| 0 <= j < cs.len() && j != i implies #[trigger] e@.children[j] == cs[j] by {
            assert(e.children@[j] == orig.children@[j]);
        }
        assert(put_in(cs, name, fm) =~= cs.take(i) + (seq![put_named(cs[i], name, fm)] + cs.skip(i + 1)));
        assert(e@.children =~= put_in(cs, name, fm));
    }
}

impl Il2Entity {
    /// Position of the first child whose subtree has a node named `name`
    /// (the number of children when none has).
    fn named_child_pos(&self, name: &str) -> (i: usize)
        ensures
            i <= self@.children.len(),
            forall|j: int| 0 <= j < i ==> find_named(#[trigger] self@.children[j], name@) is None,
            i < self@.children.len() ==> find_named(self@.children[i as int], name@) is Some,
    {
        proof {
            lemma_children_model(*self);
        }
        let ghost cs = self@.children;
        let n = self.children.len();
        let mut i: usize = 0;
        while i < n && self.children[i].find_by_name(name).is_none()
            invariant
                cs == self@.children,
                n == cs.len(),
                cs.len() == self.children@.len(),
                forall|j: int| 0 <= j < cs.len() ==> #[trigger] cs[j] == self.children@[j]@,
                i <= cs.len(),
                forall|j: int| 0 <= j < i ==> find_named(#[trigger] cs[j], name@) is None,
            decreases cs.len() - i,
        {
            i = i + 1;
        }
        i
    }

    /// First node of this subtree (pre-order) named `name`, to edit in
    /// place.
    #[verifier::rlimit(30)]
    pub fn find_by_name_mut<'a>(&'a mut self, name: &str) -> (r: Option<&'a mut Il2Entity>)
        ensures
            match find_named(old(self)@, name@) {
                None => r is None && final(self)@ == old(self)@,
                Some(x) => match r {
                    Some(m) => (*m)@ == x && final(self)@ == put_named(old(self)@, name@, (*final(m))@),
                    None => false,
                },
            },
        decreases *old(self),
    {
        if self.has_name(name) {
            return Some(self);
        }
        proof {
            lemma_children_model(*self);
        }
        let ghost orig = *self;
        let ghost cs = self@.children;
        let i = self.named_child_pos(name);
        if i == self.children.len() {
            proof {
                lemma_put_in_skip(cs, name@, orig@, i as int);
                assert(cs.skip(i as int) =~= Seq::<EntityModel>::empty());
            }
            return None;
        }
        proof {
            assert(decreases_to!(orig => orig.children));
            assert(decreases_to!(orig.children => orig.children@));
            assert(decreases_to!(orig.children@ => orig.children@[i as int]));
        }
        let ghost ci = cs[i as int];
        proof {
            let sk = cs.skip(i as int);
            assert(sk[0] == cs[i as int]);
            assert(sk.drop_first() =~= cs.skip(i + 1));
            lemma_put_in_skip(cs, name@, orig@, i as int);
            assert(find_in(sk, name@) == find_named(ci, name@));
            assert(find_named(orig@, name@) == find_named(ci, name@));
            lemma_put_child(orig, name@, i as int);
        }
        let child = &mut self.children[i];
        let r = child.find_by_name_mut(name);
        r
    }
}

} // verus!
