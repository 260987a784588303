//! Game inventories: discovery of containers, the item rules that each applies, and atomic
//! item edits. Item definitions come from a catalog supplied once per document.
use crate::drops::Shown;
use crate::history::{lemma_unset_set, unset};
use crate::service::{
    float_of, utf8_len, view, value_text, fixed_text, integer_format, replacement_spec, lemma_decimal_reads_back, Refusal,
};
use crate::strings::display_spec;
use crate::text::{chars_of, code_of, decimal, owned, parse_integer, parse_integer_spec, same_text};
use crate::wire::{base_tag, failure, spec_base_tag, Document, Error, Payload, PayloadModel, RecordModel, TypeInfo, TypeModel};
use crate::workspace::{
    attach, field, field_spec, find_type, journaled, lemma_field_in_range, lemma_resolve_range, max_type, move_node,
    next_object, node_tag, remove_node, resolve, resolve_spec, scalar, set_node, text, tracks, Journal, set_spec, edit_result,
    payload_only, lemma_field_payload, remove_spec,
};
use crate::service::FloatBits;
use crate::wire::Record;
use std::collections::HashMap;
use vstd::std_specs::hash::{axiom_spec_hash_map_iter, spec_hash_map_iter};
use vstd::std_specs::iter::IteratorSpec;
use crate::wire::WireString;
use vstd::prelude::*;

verus! {

broadcast use vstd::string::group_string_axioms;

/// What the catalog says of one item.
pub struct Definition {
    /// Items of one family with the same capacity and durability replace each other in place.
    pub family: Option<String>,
    pub stack: i32,
    /// `Small` or `Big`; any other size cannot be stored.
    pub size: String,
    pub groups: Vec<String>,
    pub is_bag: bool,
    pub capacity: i32,
    pub durability: bool,
    /// For a bag: the item IDs that it accepts.
    pub allowed: Option<Vec<String>>,
}

/// Item definitions keyed by item ID, in ascending ID order.
pub struct Catalog {
    pub items: Vec<(String, Definition)>,
}

/// Whether text `a` sorts strictly before `b`, character by character.
pub open spec fn text_before(a: Seq<char>, b: Seq<char>) -> bool
    decreases a.len(),
{
    if b.len() == 0 {
        false
    } else if a.len() == 0 {
        true
    } else if a[0] != b[0] {
        (a[0] as int) < (b[0] as int)
    } else {
        text_before(a.drop_first(), b.drop_first())
    }
}

/// What makes a catalog acceptable.
pub open spec fn catalog_ok(items: Seq<(String, Definition)>) -> bool {
    &&& items.len() <= 100_000
    &&& forall|k: int|
        0 <= k < items.len() ==> {
            &&& utf8_len((#[trigger] items[k]).0@) <= 1024
            &&& items[k].1.stack >= 1
            &&& items[k].1.capacity >= 0
        }
    &&& forall|k: int| 0 < k < items.len() ==> text_before((#[trigger] items[k - 1]).0@, items[k].0@)
}

pub fn text_less(a: &str, b: &str) -> (r: bool)
    ensures
        r == text_before(a@, b@),
{
    let x = chars_of(a);
    let y = chars_of(b);
    let mut k: usize = 0;
    assert(a@.skip(0) =~= a@);
    assert(b@.skip(0) =~= b@);
    while k < x.len() && k < y.len()
        invariant
            x@ == a@,
            y@ == b@,
            k <= x@.len(),
            k <= y@.len(),
            text_before(a@, b@) == text_before(a@.skip(k as int), b@.skip(k as int)),
        decreases x@.len() - k,
    {
        let cx = code_of(x[k]);
        let cy = code_of(y[k]);
        assert(a@.skip(k as int).drop_first() =~= a@.skip(k + 1));
        assert(b@.skip(k as int).drop_first() =~= b@.skip(k + 1));
        if cx != cy {
            assert(x@[k as int] != y@[k as int]);
            return cx < cy;
        }
        assert(x@[k as int] == y@[k as int]) by {
            assert(x@[k as int] as int == cx as int);
            assert(y@[k as int] as int == cy as int);
        }
        k = k + 1;
    }
    k < y.len()
}

/// Byte length of a text's UTF-8 encoding.
fn text_bytes(s: &String) -> (n: usize)
    ensures
        n == utf8_len(s@),
{
    s.as_str().len()
}

impl Catalog {
    /// Accepts at most 100,000 items, each with an ID of at most 1,024 bytes, a stack of at
    /// least one and a capacity that is not negative, listed in ascending ID order.
    pub fn validate(&self) -> (r: Result<(), Error>)
        ensures
            r is Ok <==> catalog_ok(self.items@),
            r matches Err(e) ==> e.0@ == "Invalid inventory catalog"@,
    {
        if self.items.len() > 100_000 {
            return Err(failure("Invalid inventory catalog"));
        }
        let mut k: usize = 0;
        while k < self.items.len()
            invariant
                self.items@.len() <= 100_000,
                k <= self.items@.len(),
                forall|m: int|
                    0 <= m < k ==> {
                        &&& utf8_len((#[trigger] self.items@[m]).0@) <= 1024
                        &&& self.items@[m].1.stack >= 1
                        &&& self.items@[m].1.capacity >= 0
                    },
                forall|m: int| 0 < m < k ==> text_before((#[trigger] self.items@[m - 1]).0@, self.items@[m].0@),
            decreases self.items@.len() - k,
        {
            let (id, d) = &self.items[k];
            if text_bytes(id) > 1024 || d.stack < 1 || d.capacity < 0 {
                return Err(failure("Invalid inventory catalog"));
            }
            if k > 0 && !text_less(self.items[k - 1].0.as_str(), id.as_str()) {
                return Err(failure("Invalid inventory catalog"));
            }
            k = k + 1;
        }
        Ok(())
    }

    /// Position of the definition of item `id`.
    pub fn lookup(&self, id: &str) -> (r: Option<usize>)
        ensures
            r matches Some(k) ==> k < self.items@.len() && self.items@[k as int].0@ == id@ && forall|m: int|
                0 <= m < k ==> (#[trigger] self.items@[m]).0@ != id@,
            r is None ==> forall|k: int| 0 <= k < self.items@.len() ==> (#[trigger] self.items@[k]).0@ != id@,
    {
        let mut k: usize = 0;
        while k < self.items.len()
            invariant
                k <= self.items@.len(),
                forall|m: int| 0 <= m < k ==> (#[trigger] self.items@[m]).0@ != id@,
            decreases self.items@.len() - k,
        {
            if same_text(self.items[k].0.as_str(), id) {
                return Some(k);
            }
            k = k + 1;
        }
        None
    }
}

/// An inventory edit.
pub enum Edit {
    /// Sets the number of slots.
    Capacity { value: String },
    /// Takes out the item in slot node `node`.
    Remove { node: usize },
    /// Replaces the item at `node`, or adds one where `node` is absent.
    Put { node: Option<usize>, item: String, count: String, guid: String },
}

/// Position of the first comma, or the length where there is none.
pub open spec fn comma_at(s: Seq<char>) -> int
    decreases s.len(),
{
    if s.len() == 0 || s[0] == ',' {
        0
    } else {
        1 + comma_at(s.drop_first())
    }
}

proof fn lemma_comma_at(s: Seq<char>, k: int)
    requires
        0 <= k <= s.len(),
        forall|i: int| 0 <= i < k ==> s[i] != ',',
        k == s.len() || s[k] == ',',
    ensures
        comma_at(s) == k,
    decreases k,
{
    if k > 0 {
        lemma_comma_at(s.drop_first(), k - 1);
    }
}

/// The declared type name of a node, as far as it names one.
pub open spec fn declared_type_of(d: Document, r: RecordModel) -> Seq<char> {
    match r.payload {
        PayloadModel::Node { ty: TypeModel::Definition(_, name), .. } => display_spec(name),
        PayloadModel::Node { ty: TypeModel::Reference(t), .. } => if d.types@.contains_key(t) {
            display_spec(d.types@[t]@)
        } else {
            Seq::empty()
        },
        _ => Seq::empty(),
    }
}

/// The type name without its assembly: the text before the first comma.
pub open spec fn short_type_spec(d: Document, id: usize) -> Seq<char> {
    let t = declared_type_of(d, d.rs()[id as int]);
    t.take(comma_at(t))
}

pub fn before_comma(s: &str) -> (r: String)
    ensures
        r@ == s@.take(comma_at(s@)),
{
    let cs = chars_of(s);
    let mut out = String::new();
    let mut k: usize = 0;
    while k < cs.len() && cs[k] != ','
        invariant
            cs@ == s@,
            k <= cs@.len(),
            out@ == s@.take(k as int),
            forall|i: int| 0 <= i < k ==> s@[i] != ',',
        decreases cs@.len() - k,
    {
        crate::text::push_char(&mut out, cs[k]);
        assert(out@ =~= s@.take(k + 1));
        k = k + 1;
    }
    proof {
        lemma_comma_at(s@, k as int);
    }
    out
}

/// The short type name of node `id`.
pub fn short_type(doc: &Document, id: usize) -> (r: String)
    requires
        id < doc.records@.len(),
    ensures
        r@ == short_type_spec(*doc, id),
{
    assert(doc.rs()[id as int] == doc.records@[id as int]@);
    let name = match &doc.records[id].payload {
        Payload::Node { ty: TypeInfo::Definition(_, n), .. } => n.display(),
        Payload::Node { ty: TypeInfo::Reference(t), .. } => match doc.types.get(t) {
            Some(w) => w.display(),
            None => String::new(),
        },
        _ => String::new(),
    };
    before_comma(name.as_str())
}

/// Whether `s` ends with `suffix`.
pub fn ends_with(s: &str, suffix: &str) -> (r: bool)
    ensures
        r == (suffix@.len() <= s@.len() && s@.skip(s@.len() - suffix@.len()) == suffix@),
{
    let x = chars_of(s);
    let y = chars_of(suffix);
    if y.len() > x.len() {
        return false;
    }
    let n = x.len();
    let off = n - y.len();
    let mut k: usize = 0;
    while k < y.len()
        invariant
            n == x@.len(),
            x@ == s@,
            y@ == suffix@,
            off + y@.len() == x@.len(),
            k <= y@.len(),
            forall|i: int| 0 <= i < k ==> x@[off + i] == y@[i],
        decreases y@.len() - k,
    {
        assert(off + k < n);
        if code_of(x[off + k]) != code_of(y[k]) {
            assert(s@.skip(off as int)[k as int] != suffix@[k as int]);
            return false;
        }
        k = k + 1;
    }
    assert(s@.skip(off as int) =~= suffix@);
    true
}

/// The text that field `name` of `parent` shows.
pub open spec fn value_spec(d: Document, parent: usize, name: Seq<char>) -> Result<Seq<char>, Seq<char>> {
    match field_spec(d, parent, name) {
        Err(m) => Err(m),
        Ok(n) => match value_text(d.rs()[n as int]) {
            Some(t) => Ok(t),
            None => Err("Missing scalar value"@),
        },
    }
}

/// The text that field `name` of `parent` shows; floating-point fields show none here.
pub fn value(doc: &Document, parent: usize, name: &str) -> (r: Result<String, Error>)
    requires
        doc.wf(),
    ensures
        match value_spec(*doc, parent, name@) {
            Ok(t) => r matches Ok(s) && s@ == t,
            Err(m) => r matches Err(e) && e.0@ == m,
        },
{
    let node = match field(doc, parent, name) {
        Ok(n) => n,
        Err(e) => return Err(e),
    };
    proof {
        lemma_field_in_range(*doc, parent, name@);
    }
    match view(doc, node).value {
        Some(t) => Ok(t),
        None => Err(failure("Missing scalar value")),
    }
}

/// What field `name` of `parent` shows: text, or the bits of a floating-point number.
pub fn shown(doc: &Document, parent: usize, name: &str) -> (r: Result<Shown, Error>)
    requires
        doc.wf(),
    ensures
        match field_spec(*doc, parent, name@) {
            Err(m) => r matches Err(e) && e.0@ == m,
            Ok(n) => match value_text(doc.rs()[n as int]) {
                Some(t) => r matches Ok(Shown::Text(s)) && s@ == t,
                None => match float_of(doc.rs()[n as int]) {
                    Some(f) => r matches Ok(Shown::Number(g)) && g == f,
                    None => r matches Err(e) && e.0@ == "Missing scalar value"@,
                },
            },
        },
{
    let node = match field(doc, parent, name) {
        Ok(n) => n,
        Err(e) => return Err(e),
    };
    proof {
        lemma_field_in_range(*doc, parent, name@);
    }
    let v = view(doc, node);
    match v.value {
        Some(t) => Ok(Shown::Text(t)),
        None => match v.float {
            Some(f) => Ok(Shown::Number(f)),
            None => Err(failure("Missing scalar value")),
        },
    }
}

/// The int32 held by field `name` of `parent`, or why it cannot be read.
pub open spec fn number_spec(d: Document, parent: usize, name: Seq<char>) -> Result<int, Seq<char>> {
    match field_spec(d, parent, name) {
        Err(m) => Err(m),
        Ok(n) => if spec_base_tag(d.rs()[n as int].tag) != 24 {
            Err("Expected int32 inventory field"@)
        } else {
            match value_spec(d, parent, name) {
                Err(m) => Err(m),
                Ok(t) => match parse_integer_spec(t, -2147483648, 2147483647) {
                    Some(v) => Ok(v),
                    None => Err("Invalid inventory number"@),
                },
            }
        },
    }
}

pub fn number(doc: &Document, parent: usize, name: &str) -> (r: Result<i32, Error>)
    requires
        doc.wf(),
    ensures
        match number_spec(*doc, parent, name@) {
            Ok(v) => r == Ok::<i32, Error>(v as i32),
            Err(m) => r matches Err(e) && e.0@ == m,
        },
{
    let node = match field(doc, parent, name) {
        Ok(n) => n,
        Err(e) => return Err(e),
    };
    proof {
        lemma_field_in_range(*doc, parent, name@);
    }
    assert(doc.rs()[node as int] == doc.records@[node as int]@);
    if base_tag(doc.records[node].tag) != 24 {
        return Err(failure("Expected int32 inventory field"));
    }
    let t = match value(doc, parent, name) {
        Ok(t) => t,
        Err(e) => return Err(e),
    };
    match parse_integer(t.as_str(), -2147483648, 2147483647) {
        Some(v) => Ok(v as i32),
        None => Err(failure("Invalid inventory number")),
    }
}

/// The arrays among `ids`, in order.
pub open spec fn arrays_among(rs: Seq<RecordModel>, ids: Seq<usize>) -> Seq<usize>
    decreases ids.len(),
{
    if ids.len() == 0 {
        Seq::empty()
    } else {
        let rest = arrays_among(rs, ids.drop_last());
        if rs[ids.last() as int].tag == 6 {
            rest.push(ids.last())
        } else {
            rest
        }
    }
}

/// The single array among the children of the node that `list` leads to, or why there is
/// none.
pub open spec fn array_spec(d: Document, list: usize) -> Result<usize, Seq<char>> {
    match resolve_spec(d, list) {
        Err(m) => Err(m),
        Ok(t) => {
            let found = arrays_among(d.rs(), d.rs()[t as int].children);
            if found.len() == 1 {
                Ok(found[0])
            } else {
                Err("Unsupported inventory collection"@)
            }
        },
    }
}

/// The array of items that inventory item `item` holds, or why there is none.
pub open spec fn contents_spec(d: Document, item: usize) -> Result<usize, Seq<char>> {
    match field_spec(d, item, "inventory"@) {
        Err(m) => Err(m),
        Ok(f) => array_spec(d, f),
    }
}

/// The single array among the children of the node that `list` leads to.
pub fn array(doc: &Document, list: usize) -> (r: Result<usize, Error>)
    requires
        doc.wf(),
    ensures
        match array_spec(*doc, list) {
            Ok(a) => r == Ok::<usize, Error>(a),
            Err(m) => r matches Err(e) && e.0@ == m,
        },
        r matches Ok(a) ==> a < doc.records@.len() && doc.rs()[a as int].tag == 6
            && doc.rs()[resolve_spec(*doc, list)->Ok_0 as int].children.contains(a),
{
    let target = match resolve(doc, list) {
        Ok(l) => l,
        Err(e) => return Err(e),
    };
    proof {
        lemma_resolve_range(*doc, list);
    }
    assert(doc.rs()[target as int] == doc.records@[target as int]@);
    let children = &doc.records[target].children;
    let mut found: Vec<usize> = Vec::new();
    let mut k: usize = 0;
    while k < children.len()
        invariant
            doc.wf(),
            target < doc.records@.len(),
            children@ == doc.rs()[target as int].children,
            k <= children@.len(),
            found@ == arrays_among(doc.rs(), children@.take(k as int)),
            forall|m: int| 0 <= m < found@.len() ==> {
                &&& #[trigger] found@[m] < doc.records@.len()
                &&& doc.rs()[found@[m] as int].tag == 6
                &&& children@.contains(found@[m])
            },
        decreases children@.len() - k,
    {
        assert(doc.rs()[target as int].children[k as int] < doc.rs().len());
        assert(children@.take(k + 1).drop_last() =~= children@.take(k as int));
        let c = children[k];
        assert(doc.rs()[c as int] == doc.records@[c as int]@);
        if doc.records[c].tag == 6 {
            found.push(c);
            assert(children@[k as int] == c);
        }
        k = k + 1;
    }
    assert(children@.take(k as int) =~= children@);
    if found.len() != 1 {
        return Err(failure("Unsupported inventory collection"));
    }
    Ok(found[0])
}

/// The array of items held by inventory item `item`.
pub fn contents(doc: &Document, item: usize) -> (r: Result<usize, Error>)
    requires
        doc.wf(),
    ensures
        match contents_spec(*doc, item) {
            Ok(a) => r == Ok::<usize, Error>(a),
            Err(m) => r matches Err(e) && e.0@ == m,
        },
        r matches Ok(a) ==> a < doc.records@.len() && doc.rs()[a as int].tag == 6,
{
    match field(doc, item, "inventory") {
        Ok(f) => array(doc, f),
        Err(e) => Err(e),
    }
}

/// Whether the short type name of node `id` marks a serialized item property.
pub open spec fn is_property(d: Document, id: usize) -> bool {
    let t = short_type_spec(d, id);
    let suffix = "SerializedItemProperty"@;
    suffix.len() <= t.len() && t.skip(t.len() - suffix.len()) == suffix
}

/// The walk for item properties from the nodes still `pending` (the last taken first), with
/// `seen` marking the nodes already visited and `found` the properties found so far: each
/// pending node is resolved, a node seen before is passed over, a property is kept, and any
/// other node has its children queued in order. The first node that cannot be resolved ends
/// the walk with its reason.
pub open spec fn property_walk(d: Document, pending: Seq<usize>, seen: Seq<bool>, found: Seq<usize>) -> Result<
    Seq<usize>,
    Seq<char>,
>
    decreases unset(seen), pending.len(),
{
    if pending.len() == 0 {
        Ok(found)
    } else {
        let rest = pending.drop_last();
        match resolve_spec(d, pending.last()) {
            Err(m) => Err(m),
            Ok(id) => if id >= seen.len() {
                Err("Unknown node"@)
            } else if seen[id as int] {
                property_walk(d, rest, seen, found)
            } else {
                proof {
                    lemma_unset_set(seen, id as int);
                }
                if is_property(d, id) {
                    property_walk(d, rest, seen.update(id as int, true), found.push(id))
                } else {
                    property_walk(d, rest + d.rs()[id as int].children, seen.update(id as int, true), found)
                }
            },
        }
    }
}

/// The item properties of `item`, or why they cannot be listed.
pub open spec fn properties_spec(d: Document, item: usize) -> Result<Seq<usize>, Seq<char>> {
    match field_spec(d, item, "properties"@) {
        Err(m) => Err(m),
        Ok(root) => property_walk(d, seq![root], Seq::new(d.records@.len(), |i: int| false), Seq::empty()),
    }
}

/// The item properties below field `properties` of `item`: the nodes reached through it,
/// references followed, whose type is a serialized item property. The walk does not go
/// below a property, and visits every node once.
pub fn properties(doc: &Document, item: usize) -> (r: Result<Vec<usize>, Error>)
    requires
        doc.wf(),
    ensures
        field_spec(*doc, item, "properties"@) matches Err(m) ==> (r matches Err(e) && e.0@ == m),
        match properties_spec(*doc, item) {
            Ok(ps) => r matches Ok(v) && v@ == ps,
            Err(m) => r matches Err(e) && e.0@ == m,
        },
        r matches Ok(v) ==> forall|k: int| 0 <= k < v@.len() ==> {
            &&& #[trigger] v@[k] < doc.records@.len()
            &&& is_property(*doc, v@[k])
        },
{
    let root = match field(doc, item, "properties") {
        Ok(f) => f,
        Err(e) => return Err(e),
    };
    proof {
        lemma_field_in_range(*doc, item, "properties"@);
    }
    proof {
        reveal_strlit("SerializedItemProperty");
    }
    let n = doc.records.len();
    let mut seen: Vec<bool> = Vec::new();
    let mut i: usize = 0;
    while i < n
        invariant
            i <= n,
            seen@.len() == i,
            forall|k: int| 0 <= k < i ==> !seen@[k],
        decreases n - i,
    {
        seen.push(false);
        i = i + 1;
    }
    assert(seen@ =~= Seq::new(doc.records@.len(), |i: int| false));
    let mut result: Vec<usize> = Vec::new();
    let mut pending: Vec<usize> = Vec::new();
    pending.push(root);
    assert(pending@ =~= seq![root]);
    assert(result@ =~= Seq::<usize>::empty());
    while pending.len() > 0
        invariant
            properties_spec(*doc, item) == property_walk(*doc, pending@, seen@, result@),
            doc.wf(),
            n == doc.records@.len(),
            seen@.len() == n,
            field_spec(*doc, item, "properties"@) is Ok,
            forall|k: int| 0 <= k < pending@.len() ==> #[trigger] pending@[k] < n,
            forall|k: int| 0 <= k < result@.len() ==> {
                &&& #[trigger] result@[k] < n
                &&& is_property(*doc, result@[k])
            },
        decreases unset(seen@), pending@.len(),
    {
        let ghost before = pending@;
        let next = pending.pop().unwrap();
        assert(before.last() == next && before.drop_last() =~= pending@);
        let id = match resolve(doc, next) {
            Ok(t) => t,
            Err(e) => return Err(e),
        };
        proof {
            lemma_resolve_range(*doc, next);
        }
        if seen[id] {
            continue;
        }
        proof {
            lemma_unset_set(seen@, id as int);
        }
        seen.set(id, true);
        let t = short_type(doc, id);
        let ghost rest = pending@;
        if ends_with(t.as_str(), "SerializedItemProperty") {
            assert(is_property(*doc, id));
            result.push(id);
        } else {
            assert(!is_property(*doc, id));
            assert(doc.rs()[id as int] == doc.records@[id as int]@);
            let children = &doc.records[id].children;
            let mut c: usize = 0;
            while c < children.len()
                invariant
                    doc.wf(),
                    n == doc.records@.len(),
                    id < n,
                    children@ == doc.rs()[id as int].children,
                    c <= children@.len(),
                    forall|k: int| 0 <= k < pending@.len() ==> #[trigger] pending@[k] < n,
                    pending@ == rest + children@.take(c as int),
                decreases children@.len() - c,
            {
                assert(doc.rs()[id as int].children[c as int] < doc.rs().len());
                pending.push(children[c]);
                assert(children@.take(c + 1) =~= children@.take(c as int).push(children@[c as int]));
                c = c + 1;
            }
            assert(children@.take(children@.len() as int) =~= children@);
        }
    }
    Ok(result)
}

/// Whether field `name` of `parent` is an array that holds texts alone.
pub open spec fn strings_ok(d: Document, parent: usize, name: Seq<char>) -> bool {
    field_spec(d, parent, name) matches Ok(f) && array_spec(d, f) matches Ok(a) && forall|k: int|
        0 <= k < d.rs()[a as int].children.len() ==> (#[trigger] d.rs()[d.rs()[a as int].children[k] as int]).payload is Text
}

/// Whether `v` is the texts, in order, of the array of field `name` of `parent`.
pub open spec fn strings_are(d: Document, parent: usize, name: Seq<char>, v: Seq<String>) -> bool {
    field_spec(d, parent, name) matches Ok(f) && array_spec(d, f) matches Ok(a) && {
        let ids = d.rs()[a as int].children;
        &&& v.len() == ids.len()
        &&& forall|k: int| 0 <= k < ids.len() ==> ((#[trigger] d.rs()[ids[k] as int]).payload matches PayloadModel::Text(t)
            && v[k]@ == display_spec(t))
    }
}

/// The texts listed in the array of field `name` of `parent`.
pub fn strings(doc: &Document, parent: usize, name: &str) -> (r: Result<Vec<String>, Error>)
    requires
        doc.wf(),
    ensures
        field_spec(*doc, parent, name@) matches Err(m) ==> (r matches Err(e) && e.0@ == m),
        field_spec(*doc, parent, name@) matches Ok(f) ==> (array_spec(*doc, f) matches Err(m) ==> (r matches Err(e)
            && e.0@ == m)),
        r matches Ok(v) ==> strings_are(*doc, parent, name@, v@),
        r is Ok <==> strings_ok(*doc, parent, name@),
        r matches Err(e) ==> field_spec(*doc, parent, name@) is Ok && array_spec(
            *doc,
            field_spec(*doc, parent, name@)->Ok_0,
        ) is Ok ==> e.0@ == "Unsupported inventory filter"@,
{
    let f = match field(doc, parent, name) {
        Ok(f) => f,
        Err(e) => return Err(e),
    };
    let a = match array(doc, f) {
        Ok(a) => a,
        Err(e) => return Err(e),
    };
    assert(doc.rs()[a as int] == doc.records@[a as int]@);
    let children = &doc.records[a].children;
    let mut out: Vec<String> = Vec::new();
    let mut k: usize = 0;
    while k < children.len()
        invariant
            doc.wf(),
            a < doc.records@.len(),
            field_spec(*doc, parent, name@) == Ok::<usize, Seq<char>>(f),
            array_spec(*doc, f) == Ok::<usize, Seq<char>>(a),
            children@ == doc.rs()[a as int].children,
            k <= children@.len(),
            out@.len() == k,
            forall|m: int| 0 <= m < k ==> ((#[trigger] doc.rs()[children@[m] as int]).payload matches PayloadModel::Text(t)
                && out@[m]@ == display_spec(t)),
        decreases children@.len() - k,
    {
        assert(doc.rs()[a as int].children[k as int] < doc.rs().len());
        let c = children[k];
        assert(doc.rs()[c as int] == doc.records@[c as int]@);
        match &doc.records[c].payload {
            Payload::Text(v) => out.push(v.display()),
            _ => return Err(failure("Unsupported inventory filter")),
        }
        k = k + 1;
    }
    Ok(out)
}

/// Whether a text list holds `x`.
pub fn listed(v: &Vec<String>, x: &str) -> (r: bool)
    ensures
        r == exists|k: int| 0 <= k < v@.len() && (#[trigger] v@[k])@ == x@,
{
    let mut k: usize = 0;
    while k < v.len()
        invariant
            k <= v@.len(),
            forall|m: int| 0 <= m < k ==> (#[trigger] v@[m])@ != x@,
        decreases v@.len() - k,
    {
        if same_text(v[k].as_str(), x) {
            return true;
        }
        k = k + 1;
    }
    false
}

/// Whether `cursor` or one of its ancestors, within `fuel` links, is named `name`.
pub open spec fn ancestor_named(rs: Seq<RecordModel>, cursor: Option<usize>, name: Seq<char>, fuel: nat) -> bool
    decreases fuel,
{
    match cursor {
        None => false,
        Some(c) => if fuel == 0 || c >= rs.len() {
            false
        } else if rs[c as int].name matches Some(n) && display_spec(n) == name {
            true
        } else {
            ancestor_named(rs, rs[c as int].parent, name, (fuel - 1) as nat)
        },
    }
}

/// Whether `start` or one of its ancestors is named `name`. A chain of parents longer than
/// the document has records is not followed further.
pub fn under_named(doc: &Document, start: usize, name: &str) -> (r: bool)
    requires
        doc.wf(),
    ensures
        r == ancestor_named(doc.rs(), Some(start), name@, doc.records@.len() as nat),
{
    let mut cursor: Option<usize> = Some(start);
    let mut fuel: usize = doc.records.len();
    while fuel > 0
        invariant
            doc.wf(),
            fuel <= doc.records@.len(),
            ancestor_named(doc.rs(), Some(start), name@, doc.records@.len() as nat)
                == ancestor_named(doc.rs(), cursor, name@, fuel as nat),
        decreases fuel,
    {
        let c = match cursor {
            Some(c) => c,
            None => return false,
        };
        if c >= doc.records.len() {
            return false;
        }
        assert(doc.rs()[c as int] == doc.records@[c as int]@);
        let hit = match &doc.records[c].name {
            Some(n) => same_text(n.display().as_str(), name),
            None => false,
        };
        if hit {
            return true;
        }
        cursor = doc.records[c].parent;
        fuel = fuel - 1;
    }
    false
}

/// Whether a definition's groups share one with a list of group IDs.
fn shares_group(d: &Definition, groups: &Vec<String>) -> (r: bool)
    ensures
        r == exists|k: int, m: int| 0 <= k < groups@.len() && 0 <= m < d.groups@.len() && (#[trigger] groups@[k])@ == (
        #[trigger] d.groups@[m])@,
{
    let mut k: usize = 0;
    while k < groups.len()
        invariant
            k <= groups@.len(),
            forall|i: int, m: int| 0 <= i < k && 0 <= m < d.groups@.len() ==> (#[trigger] groups@[i])@ != (
            #[trigger] d.groups@[m])@,
        decreases groups@.len() - k,
    {
        if listed(&d.groups, groups[k].as_str()) {
            return true;
        }
        k = k + 1;
    }
    false
}

/// Whether `k` is the catalog's first definition of item `id`.
pub open spec fn first_at(items: Seq<(String, Definition)>, id: Seq<char>, k: int) -> bool {
    0 <= k < items.len() && items[k].0@ == id && forall|m: int| 0 <= m < k ==> (#[trigger] items[m]).0@ != id
}

/// The catalog's first definition of item `id`, if any.
pub open spec fn first_def(items: Seq<(String, Definition)>, id: Seq<char>) -> Option<int> {
    if exists|k: int| #[trigger] first_at(items, id, k) {
        Some(choose|k: int| #[trigger] first_at(items, id, k))
    } else {
        None
    }
}

proof fn lemma_first_def(items: Seq<(String, Definition)>, id: Seq<char>, k: int)
    requires
        first_at(items, id, k),
    ensures
        first_def(items, id) == Some(k),
{
    let c = choose|c: int| #[trigger] first_at(items, id, c);
    assert(first_at(items, id, c));
    if c < k {
        assert(items[c].0@ != id);
    } else if k < c {
        assert(items[k].0@ != id);
    }
}

/// The texts of the array at field `name` of `parent`, or why they cannot be read.
pub open spec fn strings_spec(d: Document, parent: usize, name: Seq<char>) -> Result<Seq<Seq<char>>, Seq<char>> {
    match field_spec(d, parent, name) {
        Err(m) => Err(m),
        Ok(f) => match array_spec(d, f) {
            Err(m) => Err(m),
            Ok(a) => {
                let ids = d.rs()[a as int].children;
                if forall|k: int| 0 <= k < ids.len() ==> (#[trigger] d.rs()[ids[k] as int]).payload is Text {
                    Ok(Seq::new(ids.len(), |k: int| display_spec(d.rs()[ids[k] as int].payload->Text_0)))
                } else {
                    Err("Unsupported inventory filter"@)
                }
            },
        },
    }
}

/// What a white list (`white`) or black list with item IDs `ids` and group IDs `groups`
/// says of item `id` with definition `def`: `Some(false)` where it turns the item away.
pub open spec fn list_verdict(white: bool, ids: Seq<Seq<char>>, groups: Seq<Seq<char>>, def: Definition, id: Seq<char>) -> Option<bool> {
    let id_match = ids.contains(id);
    let group_match = exists|k: int, m: int|
        0 <= k < groups.len() && 0 <= m < def.groups@.len() && #[trigger] groups[k] == (#[trigger] def.groups@[m])@;
    if white && ((ids.len() > 0 && !id_match) || (groups.len() > 0 && !group_match)) {
        Some(false)
    } else if !white && (id_match || group_match) {
        Some(false)
    } else {
        None
    }
}

/// What item property `p` says of item `id` with definition `def`: a white or black list
/// that turns the item away gives `Some(false)`; a list that lets it pass, or an
/// auto-expansion, fuel or durability property, gives `None`; any other property, or a list
/// that cannot be read, gives the reason.
pub open spec fn property_verdict(d: Document, def: Definition, id: Seq<char>, p: usize) -> Result<Option<bool>, Seq<char>> {
    let t = short_type_spec(d, p);
    let white = t == "WhiteListFilterSerializedItemProperty"@;
    if white || t == "BlackListFilterSerializedItemProperty"@ {
        match field_spec(d, p, if white { "whiteList"@ } else { "blackList"@ }) {
            Err(m) => Err(m),
            Ok(f) => match strings_spec(d, f, "itemsIds"@) {
                Err(m) => Err(m),
                Ok(ids) => match strings_spec(d, f, "groupsIds"@) {
                    Err(m) => Err(m),
                    Ok(groups) => Ok(list_verdict(white, ids, groups, def, id)),
                },
            },
        }
    } else if t == "AutoExpandSerializedItemProperty"@ || t == "FuelContainerSerializedItemProperty"@ || t
        == "DurabilitySerializedItemProperty"@ {
        Ok(None)
    } else {
        Err("This container has unsupported item rules; use the Inspector"@)
    }
}

/// The properties' verdicts in order: the first that turns the item away or cannot be read
/// decides, and the item is admitted where none does.
pub open spec fn verdicts(d: Document, def: Definition, id: Seq<char>, ps: Seq<usize>) -> Result<bool, Seq<char>>
    decreases ps.len(),
{
    if ps.len() == 0 {
        Ok(true)
    } else {
        match property_verdict(d, def, id, ps[0]) {
            Err(m) => Err(m),
            Ok(Some(b)) => Ok(b),
            Ok(None) => verdicts(d, def, id, ps.drop_first()),
        }
    }
}

/// Whether item `id` may go into inventory `container`, or why that cannot be told, as
/// [`allowed`] decides it.
pub open spec fn allowed_spec(d: Document, items: Seq<(String, Definition)>, container: usize, id: Seq<char>) -> Result<
    bool,
    Seq<char>,
> {
    if id.len() == 0 || id == "empty"@ {
        Ok(false)
    } else {
        match first_def(items, id) {
            None => Err("Item definition unavailable"@),
            Some(k) => {
                let def = items[k].1;
                if !(def.size@ == "Small"@ || def.size@ == "Big"@) {
                    Ok(false)
                } else if def.size@ == "Big"@ && ancestor_named(d.rs(), Some(container), "playerData"@, d.records@.len() as nat) {
                    Ok(false)
                } else {
                    match value_spec(d, container, "id"@) {
                        Err(m) => Err(m),
                        Ok(cid) => {
                            let bag: Result<bool, Seq<char>> = match first_def(items, cid) {
                                Some(b) => if items[b].1.is_bag {
                                    match items[b].1.allowed {
                                        Some(list) => Ok(exists|q: int| 0 <= q < list@.len() && (#[trigger] list@[q])@ == id),
                                        None => Err("Bag insertion rules are incomplete"@),
                                    }
                                } else {
                                    Ok(true)
                                },
                                None => Ok(true),
                            };
                            match bag {
                                Err(m) => Err(m),
                                Ok(false) => Ok(false),
                                Ok(true) => match properties_spec(d, container) {
                                    Err(m) => Err(m),
                                    Ok(ps) => verdicts(d, def, id, ps),
                                },
                            }
                        },
                    }
                }
            },
        }
    }
}

/// Whether item property `p` turns away item `id` of definition `def`: a black list whose
/// item IDs name the item or whose group IDs name one of its groups, or a white list whose
/// item IDs are not empty and miss the item, or whose group IDs are not empty and miss all
/// of its groups.
pub open spec fn turns_away(d: Document, p: usize, def: Definition, id: Seq<char>) -> bool {
    let t = short_type_spec(d, p);
    let white = t == "WhiteListFilterSerializedItemProperty"@;
    &&& white || t == "BlackListFilterSerializedItemProperty"@
    &&& field_spec(d, p, if white { "whiteList"@ } else { "blackList"@ }) matches Ok(f)
    &&& strings_spec(d, f, "itemsIds"@) matches Ok(ids)
    &&& strings_spec(d, f, "groupsIds"@) matches Ok(groups)
    &&& if white {
        (ids.len() > 0 && !lists_id(ids, id)) || (groups.len() > 0 && !lists_group(groups, def))
    } else {
        lists_id(ids, id) || lists_group(groups, def)
    }
}

/// Whether the IDs `ids` name item `id`.
pub open spec fn lists_id(ids: Seq<Seq<char>>, id: Seq<char>) -> bool {
    exists|k: int| 0 <= k < ids.len() && ids[k] == id
}

/// Whether the group IDs `groups` name one of the groups of definition `def`.
pub open spec fn lists_group(groups: Seq<Seq<char>>, def: Definition) -> bool {
    exists|k: int, m: int| 0 <= k < groups.len() && 0 <= m < def.groups@.len() && #[trigger] groups[k] == (#[trigger] def.groups@[m])@
}

proof fn lemma_verdicts_true(d: Document, def: Definition, id: Seq<char>, ps: Seq<usize>, i: int)
    requires
        verdicts(d, def, id, ps) == Ok::<bool, Seq<char>>(true),
        0 <= i < ps.len(),
    ensures
        property_verdict(d, def, id, ps[i]) == Ok::<Option<bool>, Seq<char>>(None),
    decreases ps.len(),
{
    match property_verdict(d, def, id, ps[0]) {
        Ok(None) => {
            if i > 0 {
                lemma_verdicts_true(d, def, id, ps.drop_first(), i - 1);
                assert(ps.drop_first()[i - 1] == ps[i]);
            }
        },
        Ok(Some(b)) => {
            assert(list_verdict(
                short_type_spec(d, ps[0]) == "WhiteListFilterSerializedItemProperty"@,
                strings_spec(
                    d,
                    field_spec(
                        d,
                        ps[0],
                        if short_type_spec(d, ps[0]) == "WhiteListFilterSerializedItemProperty"@ {
                            "whiteList"@
                        } else {
                            "blackList"@
                        },
                    )->Ok_0,
                    "itemsIds"@,
                )->Ok_0,
                strings_spec(
                    d,
                    field_spec(
                        d,
                        ps[0],
                        if short_type_spec(d, ps[0]) == "WhiteListFilterSerializedItemProperty"@ {
                            "whiteList"@
                        } else {
                            "blackList"@
                        },
                    )->Ok_0,
                    "groupsIds"@,
                )->Ok_0,
                def,
                id,
            ) is Some);
        },
        Err(_) => {},
    }
}

proof fn lemma_turns_away_verdict(d: Document, p: usize, def: Definition, id: Seq<char>)
    requires
        turns_away(d, p, def, id),
    ensures
        property_verdict(d, def, id, p) == Ok::<Option<bool>, Seq<char>>(Some(false)),
{
    let t = short_type_spec(d, p);
    let white = t == "WhiteListFilterSerializedItemProperty"@;
    let f = field_spec(d, p, if white { "whiteList"@ } else { "blackList"@ })->Ok_0;
    let ids = strings_spec(d, f, "itemsIds"@)->Ok_0;
    let groups = strings_spec(d, f, "groupsIds"@)->Ok_0;
    assert(ids.contains(id) == lists_id(ids, id));
    assert(list_verdict(white, ids, groups, def, id) == Some(false));
}

proof fn lemma_allowed_true(d: Document, items: Seq<(String, Definition)>, container: usize, id: Seq<char>)
    requires
        allowed_spec(d, items, container, id) == Ok::<bool, Seq<char>>(true),
    ensures
        first_def(items, id) matches Some(k) && (properties_spec(d, container) matches Ok(ps) && verdicts(
            d,
            items[k].1,
            id,
            ps,
        ) == Ok::<bool, Seq<char>>(true)),
{
}

/// An item that some property of an inventory's rules turns away (`turns_away`) is never
/// admitted there: `allowed` answers `false` or cannot tell.
pub proof fn law_turned_away_not_admitted(d: Document, items: Seq<(String, Definition)>, container: usize, id: Seq<char>, p: usize)
    requires
        first_def(items, id) matches Some(k) && turns_away(d, p, items[k].1, id),
        properties_spec(d, container) matches Ok(ps) && ps.contains(p),
    ensures
        allowed_spec(d, items, container, id) != Ok::<bool, Seq<char>>(true),
{
    let k = first_def(items, id)->Some_0;
    let def = items[k].1;
    let ps = properties_spec(d, container)->Ok_0;
    if allowed_spec(d, items, container, id) == Ok::<bool, Seq<char>>(true) {
        lemma_allowed_true(d, items, container, id);
        let i = choose|i: int| 0 <= i < ps.len() && ps[i] == p;
        lemma_verdicts_true(d, def, id, ps, i);
        lemma_turns_away_verdict(d, p, def, id);
    }
}

/// Whether item property `p` lets item `id` of definition `def` pass: an auto-expansion,
/// fuel or durability property, or a readable white or black list that does not turn the
/// item away.
pub open spec fn lets_pass(d: Document, p: usize, def: Definition, id: Seq<char>) -> bool {
    let t = short_type_spec(d, p);
    let white = t == "WhiteListFilterSerializedItemProperty"@;
    ||| ((white || t == "BlackListFilterSerializedItemProperty"@) && (field_spec(
        d,
        p,
        if white {
            "whiteList"@
        } else {
            "blackList"@
        },
    ) matches Ok(f) && (strings_spec(d, f, "itemsIds"@) matches Ok(ids) && (strings_spec(d, f, "groupsIds"@) matches Ok(
        groups,
    ) && if white {
        (ids.len() == 0 || lists_id(ids, id)) && (groups.len() == 0 || lists_group(groups, def))
    } else {
        !lists_id(ids, id) && !lists_group(groups, def)
    }))))
    ||| (!(white || t == "BlackListFilterSerializedItemProperty"@) && (t == "AutoExpandSerializedItemProperty"@ || t
        == "FuelContainerSerializedItemProperty"@ || t == "DurabilitySerializedItemProperty"@))
}

proof fn lemma_lets_pass_verdict(d: Document, p: usize, def: Definition, id: Seq<char>)
    requires
        lets_pass(d, p, def, id),
    ensures
        property_verdict(d, def, id, p) == Ok::<Option<bool>, Seq<char>>(None),
{
    let t = short_type_spec(d, p);
    let white = t == "WhiteListFilterSerializedItemProperty"@;
    if white || t == "BlackListFilterSerializedItemProperty"@ {
        let f = field_spec(d, p, if white { "whiteList"@ } else { "blackList"@ })->Ok_0;
        let ids = strings_spec(d, f, "itemsIds"@)->Ok_0;
        let groups = strings_spec(d, f, "groupsIds"@)->Ok_0;
        assert(ids.contains(id) == lists_id(ids, id));
        assert(list_verdict(white, ids, groups, def, id) is None);
    }
}

proof fn lemma_verdicts_pass(d: Document, def: Definition, id: Seq<char>, ps: Seq<usize>)
    requires
        forall|i: int| 0 <= i < ps.len() ==> lets_pass(d, #[trigger] ps[i], def, id),
    ensures
        verdicts(d, def, id, ps) == Ok::<bool, Seq<char>>(true),
    decreases ps.len(),
{
    if ps.len() > 0 {
        lemma_lets_pass_verdict(d, ps[0], def, id);
        assert forall|i: int| 0 <= i < ps.drop_first().len() implies lets_pass(d, #[trigger] ps.drop_first()[i], def, id) by {
            assert(ps.drop_first()[i] == ps[i + 1]);
        }
        lemma_verdicts_pass(d, def, id, ps.drop_first());
    }
}

/// An item is admitted where every rule lets it in: it is a `Small` item, or a `Big` one
/// outside the player's data, the inventory's own item ID can be read and, where the
/// catalog defines that ID as a bag, the bag's list names the item, and every item property
/// of the inventory lets it pass (`lets_pass`).
#[verifier::rlimit(50)]
#[verifier::spinoff_prover]
pub proof fn law_admitted(d: Document, items: Seq<(String, Definition)>, container: usize, id: Seq<char>)
    requires
        !(id.len() == 0 || id == "empty"@),
        first_def(items, id) matches Some(k) && (items[k].1.size@ == "Small"@ || (items[k].1.size@ == "Big"@ && !ancestor_named(
            d.rs(),
            Some(container),
            "playerData"@,
            d.records@.len() as nat,
        ))),
        value_spec(d, container, "id"@) matches Ok(cid) && (first_def(items, cid) matches Some(b) ==> (items[b].1.is_bag ==> (
        items[b].1.allowed matches Some(list) && exists|q: int| 0 <= q < list@.len() && (#[trigger] list@[q])@ == id))),
        properties_spec(d, container) matches Ok(ps) && forall|i: int|
            0 <= i < ps.len() ==> lets_pass(d, #[trigger] ps[i], items[first_def(items, id)->Some_0].1, id),
    ensures
        allowed_spec(d, items, container, id) == Ok::<bool, Seq<char>>(true),
{
    let k = first_def(items, id)->Some_0;
    let ps = properties_spec(d, container)->Ok_0;
    let cid = value_spec(d, container, "id"@)->Ok_0;
    lemma_verdicts_pass(d, items[k].1, id, ps);
    let bag: Result<bool, Seq<char>> = match first_def(items, cid) {
        Some(b) => if items[b].1.is_bag {
            match items[b].1.allowed {
                Some(list) => Ok(exists|q: int| 0 <= q < list@.len() && (#[trigger] list@[q])@ == id),
                None => Err("Bag insertion rules are incomplete"@),
            }
        } else {
            Ok(true)
        },
        None => Ok(true),
    };
    assert(bag == Ok::<bool, Seq<char>>(true));
    reveal_strlit("Small");
    reveal_strlit("Big");
    assert("Small"@.len() != "Big"@.len());
}

/// Whether the catalog's first definition of container item `cid`, where it is a bag, lists
/// item `id` among those it admits.
pub open spec fn bag_admits(items: Seq<(String, Definition)>, cid: Seq<char>, id: Seq<char>) -> bool {
    forall|b: int|
        0 <= b < items.len() && (#[trigger] items[b]).0@ == cid && items[b].1.is_bag && (forall|m: int|
            0 <= m < b ==> (#[trigger] items[m]).0@ != cid) ==> (items[b].1.allowed matches Some(list) && exists|q: int|
            0 <= q < list@.len() && (#[trigger] list@[q])@ == id)
}

/// Whether item `id` may go into inventory `container`, or why that cannot be told.
///
/// An empty ID or `empty` never may; an ID without a definition cannot be told; only
/// `Small` and `Big` items fit, and `Big` ones never below the player's data. A bag takes
/// the items that its definition allows, and a container's white and black lists filter by
/// ID and by group. Any item property other than those lists, auto-expansion, fuel and
/// durability is a rule that cannot be checked here.
#[verifier::rlimit(60)]
#[verifier::spinoff_prover]
pub fn allowed(doc: &Document, catalog: &Catalog, container: usize, id: &str) -> (r: Result<bool, Error>)
    requires
        doc.wf(),
    ensures
        match allowed_spec(*doc, catalog.items@, container, id@) {
            Ok(b) => r == Ok::<bool, Error>(b),
            Err(m) => r matches Err(e) && e.0@ == m,
        },
        (id@.len() == 0 || id@ == "empty"@) ==> r == Ok::<bool, Error>(false),
        !(id@.len() == 0 || id@ == "empty"@) && (forall|k: int|
            0 <= k < catalog.items@.len() ==> (#[trigger] catalog.items@[k]).0@ != id@) ==> (r matches Err(e)
            && e.0@ == "Item definition unavailable"@),
        r == Ok::<bool, Error>(true) ==> exists|k: int|
            0 <= k < catalog.items@.len() && (#[trigger] catalog.items@[k]).0@ == id@ && (
            catalog.items@[k].1.size@ == "Small"@ || (catalog.items@[k].1.size@ == "Big"@ && !ancestor_named(
                doc.rs(),
                Some(container),
                "playerData"@,
                doc.records@.len() as nat,
            ))),
        r == Ok::<bool, Error>(true) ==> (value_spec(*doc, container, "id"@) matches Ok(cid) && bag_admits(
            catalog.items@,
            cid,
            id@,
        )),
{
    proof {
        reveal_strlit("empty");
        reveal_strlit("Small");
        reveal_strlit("Big");
    }
    if id.unicode_len() == 0 || same_text(id, "empty") {
        return Ok(false);
    }
    let k = match catalog.lookup(id) {
        Some(k) => k,
        None => {
            assert(first_def(catalog.items@, id@) is None);
            return Err(failure("Item definition unavailable"));
        },
    };
    proof {
        lemma_first_def(catalog.items@, id@, k as int);
    }
    let d = &catalog.items[k].1;
    let small = same_text(d.size.as_str(), "Small");
    let big = same_text(d.size.as_str(), "Big");
    if !small && !big {
        return Ok(false);
    }
    if big && under_named(doc, container, "playerData") {
        return Ok(false);
    }
    let container_id = match value(doc, container, "id") {
        Ok(v) => v,
        Err(e) => return Err(e),
    };
    match catalog.lookup(container_id.as_str()) {
        Some(b) => {
            proof {
                lemma_first_def(catalog.items@, container_id@, b as int);
            }
            if catalog.items[b].1.is_bag {
                match &catalog.items[b].1.allowed {
                    Some(list) => {
                        if !listed(list, id) {
                            return Ok(false);
                        }
                    },
                    None => return Err(failure("Bag insertion rules are incomplete")),
                }
            }
        },
        None => {
            assert(first_def(catalog.items@, container_id@) is None);
        },
    }
    let props = match properties(doc, container) {
        Ok(p) => p,
        Err(e) => return Err(e),
    };
    filters_admit(doc, d, id, &props)
}

/// What item property `p` says of item `id` with definition `d`.
#[verifier::rlimit(60)]
#[verifier::spinoff_prover]
fn property_check(doc: &Document, d: &Definition, id: &str, p: usize) -> (r: Result<Option<bool>, Error>)
    requires
        doc.wf(),
        p < doc.records@.len(),
    ensures
        match property_verdict(*doc, *d, id@, p) {
            Ok(v) => r == Ok::<Option<bool>, Error>(v),
            Err(m) => r matches Err(e) && e.0@ == m,
        },
{
    let t = short_type(doc, p);
    let white = same_text(t.as_str(), "WhiteListFilterSerializedItemProperty");
    if white || same_text(t.as_str(), "BlackListFilterSerializedItemProperty") {
        let filter = match field(doc, p, if white { "whiteList" } else { "blackList" }) {
            Ok(f) => f,
            Err(e) => return Err(e),
        };
        let ids = match strings(doc, filter, "itemsIds") {
            Ok(v) => v,
            Err(e) => return Err(e),
        };
        let groups = match strings(doc, filter, "groupsIds") {
            Ok(v) => v,
            Err(e) => return Err(e),
        };
        let ghost tids = strings_spec(*doc, filter, "itemsIds"@)->Ok_0;
        let ghost tgroups = strings_spec(*doc, filter, "groupsIds"@)->Ok_0;
        proof {
            assert(tids.len() == ids@.len());
            assert forall|q: int| 0 <= q < ids@.len() implies tids[q] == (#[trigger] ids@[q])@ by {}
            assert(tgroups.len() == groups@.len());
            assert forall|q: int| 0 <= q < groups@.len() implies tgroups[q] == (#[trigger] groups@[q])@ by {}
        }
        let id_match = listed(&ids, id);
        let group_match = shares_group(d, &groups);
        proof {
            assert(id_match == tids.contains(id@)) by {
                if id_match {
                    let q = choose|q: int| 0 <= q < ids@.len() && (#[trigger] ids@[q])@ == id@;
                    assert(tids[q] == id@);
                }
                if tids.contains(id@) {
                    let q = choose|q: int| 0 <= q < tids.len() && tids[q] == id@;
                    assert(ids@[q]@ == id@);
                }
            }
            assert(group_match == exists|k: int, m: int|
                0 <= k < tgroups.len() && 0 <= m < d.groups@.len() && #[trigger] tgroups[k] == (#[trigger] d.groups@[m])@) by {
                if group_match {
                    let (k, m) = choose|k: int, m: int| 0 <= k < groups@.len() && 0 <= m < d.groups@.len() && (#[trigger] groups@[k])@ == (
                        #[trigger] d.groups@[m])@;
                    assert(tgroups[k] == d.groups@[m]@);
                }
                if exists|k: int, m: int|
                    0 <= k < tgroups.len() && 0 <= m < d.groups@.len() && #[trigger] tgroups[k] == (#[trigger] d.groups@[m])@ {
                    let (k, m) = choose|k: int, m: int|
                        0 <= k < tgroups.len() && 0 <= m < d.groups@.len() && #[trigger] tgroups[k] == (#[trigger] d.groups@[m])@;
                    assert(groups@[k]@ == d.groups@[m]@);
                }
            }
        }
        if white && ((ids.len() > 0 && !id_match) || (groups.len() > 0 && !group_match)) {
            return Ok(Some(false));
        }
        assert(field_spec(*doc, p, if white { "whiteList"@ } else { "blackList"@ }) == Ok::<usize, Seq<char>>(filter));
        assert(strings_spec(*doc, filter, "itemsIds"@) == Ok::<Seq<Seq<char>>, Seq<char>>(tids));
        assert(strings_spec(*doc, filter, "groupsIds"@) == Ok::<Seq<Seq<char>>, Seq<char>>(tgroups));
        let ghost sw = short_type_spec(*doc, p) == "WhiteListFilterSerializedItemProperty"@;
        let ghost sb = short_type_spec(*doc, p) == "BlackListFilterSerializedItemProperty"@;
        assert(sw == white);
        assert(sw || sb);
        let ghost gm = exists|k: int, m: int|
            0 <= k < tgroups.len() && 0 <= m < d.groups@.len() && #[trigger] tgroups[k] == (#[trigger] d.groups@[m])@;
        assert(gm == group_match);
        if !white && (id_match || group_match) {
            assert(!sw && (tids.contains(id@) || gm));
            assert(list_verdict(white, tids, tgroups, *d, id@) == Some(false));
            assert(property_verdict(*doc, *d, id@, p) == Ok::<Option<bool>, Seq<char>>(Some(false)));
            return Ok(Some(false));
        }
        assert(!(sw && ((tids.len() > 0 && !tids.contains(id@)) || (tgroups.len() > 0 && !gm))));
        assert(!(!sw && (tids.contains(id@) || gm)));
        assert(list_verdict(white, tids, tgroups, *d, id@) is None);
        assert(property_verdict(*doc, *d, id@, p) == Ok::<Option<bool>, Seq<char>>(None));
        Ok(None)
    } else if !(same_text(t.as_str(), "AutoExpandSerializedItemProperty") || same_text(
        t.as_str(),
        "FuelContainerSerializedItemProperty",
    ) || same_text(t.as_str(), "DurabilitySerializedItemProperty")) {
        Err(failure("This container has unsupported item rules; use the Inspector"))
    } else {
        Ok(None)
    }
}

/// Whether the properties `props` admit item `id` with definition `d`.
fn filters_admit(doc: &Document, d: &Definition, id: &str, props: &Vec<usize>) -> (r: Result<bool, Error>)
    requires
        doc.wf(),
        forall|m: int| 0 <= m < props@.len() ==> #[trigger] props@[m] < doc.records@.len(),
    ensures
        match verdicts(*doc, *d, id@, props@) {
            Ok(b) => r == Ok::<bool, Error>(b),
            Err(m) => r matches Err(e) && e.0@ == m,
        },
{
    let mut i: usize = 0;
    assert(props@.skip(0) =~= props@);
    while i < props.len()
        invariant
            doc.wf(),
            i <= props@.len(),
            forall|m: int| 0 <= m < props@.len() ==> #[trigger] props@[m] < doc.records@.len(),
            verdicts(*doc, *d, id@, props@) == verdicts(*doc, *d, id@, props@.skip(i as int)),
        decreases props@.len() - i,
    {
        assert(props@.skip(i as int)[0] == props@[i as int]);
        assert(props@.skip(i as int).drop_first() =~= props@.skip(i + 1));
        match property_check(doc, d, id, props[i]) {
            Ok(Some(b)) => return Ok(b),
            Ok(None) => {},
            Err(e) => return Err(e),
        }
        i = i + 1;
    }
    assert(props@.skip(i as int) =~= Seq::<usize>::empty());
    Ok(true)
}

/// The code of a character with ASCII capitals lowered.
pub open spec fn lower_code(c: char) -> int {
    if 'A' <= c && c <= 'Z' {
        c as int + 32
    } else {
        c as int
    }
}

/// Whether `word` (lower-case) stands in `s` at position `i`, in any ASCII letter case.
pub open spec fn word_at(s: Seq<char>, word: Seq<char>, i: int) -> bool {
    &&& 0 <= i
    &&& i + word.len() <= s.len()
    &&& forall|q: int| 0 <= q < word.len() ==> lower_code(#[trigger] s[i + q]) == word[q] as int
}

/// Whether `s` contains `word` (lower-case) in any ASCII letter case.
pub open spec fn mentions(s: Seq<char>, word: Seq<char>) -> bool {
    exists|i: int| #[trigger] word_at(s, word, i)
}

pub(crate) fn lower(c: char) -> (r: u32)
    ensures
        r as int == lower_code(c),
{
    let code = code_of(c);
    if 65 <= code && code <= 90 {
        code + 32
    } else {
        code
    }
}

/// Whether a title names a chest. Lower-casing in full would give the same answer: only
/// ASCII capitals lower-case to the letters of `chest`.
fn names_chest(title: &str) -> (r: bool)
    ensures
        r == mentions(title@, "chest"@),
{
    proof {
        reveal_strlit("chest");
    }
    let word = chars_of("chest");
    let cs = chars_of(title);
    let n = cs.len();
    let mut i: usize = 0;
    while n >= 5 && i <= n - 5
        invariant
            n == cs@.len(),
            cs@ == title@,
            word@ == "chest"@,
            word@.len() == 5,
            forall|m: int| 0 <= m < i ==> !#[trigger] word_at(title@, "chest"@, m),
        decreases cs@.len() + 1 - i,
    {
        let mut j: usize = 0;
        let mut same = true;
        while j < 5
            invariant
                n == cs@.len(),
                cs@ == title@,
                word@ == "chest"@,
                word@.len() == 5,
                i + 5 <= n,
                j <= 5,
                same == forall|q: int| 0 <= q < j ==> lower_code(#[trigger] title@[i + q]) == word@[q] as int,
            decreases 5 - j,
        {
            if lower(cs[i + j]) != code_of(word[j]) {
                same = false;
            }
            j = j + 1;
        }
        if same {
            assert(word_at(title@, "chest"@, i as int));
            return true;
        }
        i = i + 1;
    }
    assert forall|m: int| !#[trigger] word_at(title@, "chest"@, m) by {
        if 0 <= m < i {
        }
    }
    false
}

/// Order of container kinds: the player first, then bags, chests and other world objects.
pub open spec fn rank(kind: Seq<char>) -> int {
    if kind == "Player"@ {
        0
    } else if kind == "Bag"@ {
        1
    } else if kind == "Chest"@ {
        2
    } else {
        3
    }
}

fn kind_rank(kind: &str) -> (r: u8)
    ensures
        r as int == rank(kind@),
{
    if same_text(kind, "Player") {
        0
    } else if same_text(kind, "Bag") {
        1
    } else if same_text(kind, "Chest") {
        2
    } else {
        3
    }
}

/// One supported inventory: the item whose contents it shows, its kind and its title.
pub struct Found {
    pub node: usize,
    pub kind: String,
    pub title: String,
}

/// How many entries of `v` have a kind of rank below `p`.
pub open spec fn count_below(v: Seq<Found>, p: int) -> nat
    decreases v.len(),
{
    if v.len() == 0 {
        0
    } else {
        count_below(v.drop_last(), p) + if rank(v.last().kind@) < p {
            1nat
        } else {
            0nat
        }
    }
}

/// How many entries of `v` have a kind of rank `p`.
pub open spec fn count_at(v: Seq<Found>, p: int) -> nat
    decreases v.len(),
{
    if v.len() == 0 {
        0
    } else {
        count_at(v.drop_last(), p) + if rank(v.last().kind@) == p {
            1nat
        } else {
            0nat
        }
    }
}

proof fn lemma_count_step(v: Seq<Found>, p: int)
    ensures
        count_below(v, p + 1) == count_below(v, p) + count_at(v, p),
    decreases v.len(),
{
    if v.len() > 0 {
        lemma_count_step(v.drop_last(), p);
    }
}

proof fn lemma_count_none(v: Seq<Found>)
    ensures
        count_below(v, 0) == 0,
    decreases v.len(),
{
    if v.len() > 0 {
        lemma_count_none(v.drop_last());
    }
}

proof fn lemma_count_all(v: Seq<Found>)
    ensures
        count_below(v, 4) == v.len(),
    decreases v.len(),
{
    if v.len() > 0 {
        lemma_count_all(v.drop_last());
    }
}

/// The entries of `v` in order of kind rank, keeping the order of equal ranks.
fn by_rank(v: Vec<Found>) -> (r: Vec<Found>)
    ensures
        r@.len() == v@.len(),
        forall|a: int, b: int| 0 <= a < b < r@.len() ==> rank(r@[a].kind@) <= rank(r@[b].kind@),
        forall|a: int| 0 <= a < r@.len() ==> exists|b: int| 0 <= b < v@.len() && (#[trigger] r@[a]).node == v@[b].node,
        forall|a: int| 0 <= a < r@.len() ==> exists|b: int|
            0 <= b < v@.len() && (#[trigger] r@[a]).node == v@[b].node && r@[a].kind@ == v@[b].kind@ && r@[a].title@ == v@[b].title@,
        (forall|a: int, b: int| 0 <= a < b < v@.len() ==> v@[a].node != v@[b].node) ==> forall|a: int, b: int|
            0 <= a < b < r@.len() ==> r@[a].node != r@[b].node,
        v@.len() > 0 && rank(v@[0].kind@) == 0 ==> r@.len() > 0 && r@[0].node == v@[0].node && r@[0].kind@ == v@[0].kind@
            && r@[0].title@ == v@[0].title@,
{
    let mut out: Vec<Found> = Vec::new();
    let ghost mut src: Seq<int> = Seq::empty();
    let mut pass: u8 = 0;
    proof {
        lemma_count_none(v@);
    }
    while pass < 4
        invariant
            pass <= 4,
            forall|a: int, b: int| 0 <= a < b < out@.len() ==> rank(out@[a].kind@) <= rank(out@[b].kind@),
            forall|a: int| 0 <= a < out@.len() ==> rank(#[trigger] out@[a].kind@) < pass,
            forall|a: int| 0 <= a < out@.len() ==> exists|b: int| 0 <= b < v@.len() && (#[trigger] out@[a]).node == v@[b].node,
            out@.len() == count_below(v@, pass as int),
            src.len() == out@.len(),
            forall|a: int| 0 <= a < out@.len() ==> 0 <= #[trigger] src[a] < v@.len() && out@[a].node == v@[src[a]].node
                && rank(out@[a].kind@) == rank(v@[src[a]].kind@) && out@[a].kind@ == v@[src[a]].kind@ && out@[a].title@
                == v@[src[a]].title@,
            forall|a: int, b: int| 0 <= a < b < out@.len() && rank(out@[a].kind@) == rank(out@[b].kind@) ==> src[a] < src[b],
            pass > 0 && v@.len() > 0 && rank(v@[0].kind@) == 0 ==> out@.len() > 0 && src[0] == 0,
        decreases 4 - pass,
    {
        let mut k: usize = 0;
        while k < v.len()
            invariant
                pass < 4,
                k <= v@.len(),
                forall|a: int, b: int| 0 <= a < b < out@.len() ==> rank(out@[a].kind@) <= rank(out@[b].kind@),
                forall|a: int| 0 <= a < out@.len() ==> rank(#[trigger] out@[a].kind@) <= pass,
                forall|a: int| 0 <= a < out@.len() ==> exists|b: int| 0 <= b < v@.len() && (#[trigger] out@[a]).node == v@[b].node,
                out@.len() == count_below(v@, pass as int) + count_at(v@.take(k as int), pass as int),
                src.len() == out@.len(),
                forall|a: int| 0 <= a < out@.len() ==> 0 <= #[trigger] src[a] < v@.len() && out@[a].node == v@[src[a]].node
                    && rank(out@[a].kind@) == rank(v@[src[a]].kind@) && out@[a].kind@ == v@[src[a]].kind@ && out@[a].title@
                    == v@[src[a]].title@,
                forall|a: int, b: int| 0 <= a < b < out@.len() && rank(out@[a].kind@) == rank(out@[b].kind@) ==> src[a] < src[b],
                forall|a: int| 0 <= a < out@.len() && rank(out@[a].kind@) == pass ==> #[trigger] src[a] < k,
                (pass > 0 || k > 0) && v@.len() > 0 && rank(v@[0].kind@) == 0 ==> out@.len() > 0 && src[0] == 0,
            decreases v@.len() - k,
        {
            let f = &v[k];
            assert(v@.take(k + 1).drop_last() =~= v@.take(k as int));
            if kind_rank(f.kind.as_str()) == pass {
                out.push(Found { node: f.node, kind: f.kind.clone(), title: f.title.clone() });
                proof {
                    src = src.push(k as int);
                }
                assert(out@.last().node == v@[k as int].node);
                assert(rank(out@.last().kind@) == pass);
                assert forall|a: int| 0 <= a < out@.len() implies rank(#[trigger] out@[a].kind@) <= pass by {
                    if a < out@.len() - 1 {
                        assert(out@[a] == out@.drop_last()[a]);
                    }
                }
            }
            k = k + 1;
        }
        assert(v@.take(v@.len() as int) =~= v@);
        proof {
            lemma_count_step(v@, pass as int);
        }
        pass = pass + 1;
    }
    proof {
        lemma_count_all(v@);
        if v@.len() > 0 && rank(v@[0].kind@) == 0 {
            assert(out@[0].node == v@[src[0]].node);
        }
        assert forall|a: int| 0 <= a < out@.len() implies exists|b: int|
            0 <= b < v@.len() && (#[trigger] out@[a]).node == v@[b].node && out@[a].kind@ == v@[b].kind@ && out@[a].title@
                == v@[b].title@ by {
            let b = src[a];
        }
        if forall|a: int, b: int| 0 <= a < b < v@.len() ==> v@[a].node != v@[b].node {
            assert forall|a: int, b: int| 0 <= a < b < out@.len() implies out@[a].node != out@[b].node by {
                let (x, y) = (src[a], src[b]);
                if rank(out@[a].kind@) == rank(out@[b].kind@) {
                    assert(x < y);
                } else {
                    assert(x != y);
                }
                if x < y {
                    assert(v@[x].node != v@[y].node);
                } else {
                    assert(v@[y].node != v@[x].node);
                }
            }
        }
    }
    out
}

/// Whether a catalog defines item `id` as a bag.
pub open spec fn is_bag_in(items: Seq<(String, Definition)>, id: Seq<char>) -> bool {
    exists|k: int| 0 <= k < items.len() && (#[trigger] items[k]).0@ == id && items[k].1.is_bag
}

fn bag_in(catalog: &Catalog, id: &str) -> (r: bool)
    ensures
        r ==> is_bag_in(catalog.items@, id@),
        r == exists|k: int| 0 <= k < catalog.items@.len() && (#[trigger] catalog.items@[k]).0@ == id@ && catalog.items@[k].1.is_bag
            && forall|m: int| 0 <= m < k ==> (#[trigger] catalog.items@[m]).0@ != id@,
{
    match catalog.lookup(id) {
        Some(k) => catalog.items[k].1.is_bag,
        None => false,
    }
}

fn mark(seen: &mut Vec<bool>, x: usize)
    requires
        x < old(seen)@.len(),
        !old(seen)@[x as int],
    ensures
        final(seen)@ == old(seen)@.update(x as int, true),
        unset(final(seen)@) + 1 == unset(old(seen)@),
{
    proof {
        lemma_unset_set(seen@, x as int);
    }
    seen.set(x, true);
}

/// The player's inventory item: field `inventoryItem` of the `inventory` of the root's
/// `playerData`.
pub open spec fn player_item(d: Document) -> Option<usize> {
    match field_spec(d, d.roots@[0], "playerData"@) {
        Err(_) => None,
        Ok(p) => match field_spec(d, p, "inventory"@) {
            Err(_) => None,
            Ok(q) => match field_spec(d, q, "inventoryItem"@) {
                Err(_) => None,
                Ok(item) => Some(item),
            },
        },
    }
}

/// Whether record `id` is a world object's inventory whose item is `f`, titled by the
/// owner's ID (or "World object" where it has none) and a chest where the title says so.
pub open spec fn world_inventory(d: Document, id: usize, f: Found) -> bool {
    &&& id < d.rs().len()
    &&& d.rs()[id as int].name matches Some(n) && display_spec(n) == "inventory"@
    &&& short_type_spec(d, id) == "Inventory"@
    &&& d.rs()[id as int].parent matches Some(owner) && ancestor_named(d.rs(), Some(owner), "wgoDataList"@, d.records@.len() as nat)
        && f.title@ == match value_spec(d, owner, "id"@) {
        Ok(t) => t,
        Err(_) => "World object"@,
    }
    &&& field_spec(d, id, "inventoryItem"@) == Ok::<usize, Seq<char>>(f.node)
    &&& f.kind@ == if mentions(f.title@, "chest"@) {
        "Chest"@
    } else {
        "World object"@
    }
}

/// Whether `f` is a supported inventory of `d`: the player's, a world object's, or a bag
/// (an item whose ID the catalog defines as a bag, titled by that ID).
pub open spec fn supported(d: Document, items: Seq<(String, Definition)>, f: Found) -> bool {
    ||| f.kind@ == "Player"@ && f.title@ == "Player inventory"@ && player_item(d) == Some(f.node)
    ||| exists|id: usize| #[trigger] world_inventory(d, id, f)
    ||| f.kind@ == "Bag"@ && value_spec(d, f.node, "id"@) == Ok::<Seq<char>, Seq<char>>(f.title@) && is_bag_in(items, f.title@)
}

/// The supported inventories: the player's, those of world objects listed below the world's
/// object list (skipping empty ones without slots), and every bag found inside one of them;
/// ordered player first, then bags, chests and other world objects.
pub fn containers(doc: &Document, catalog: &Catalog) -> (r: Result<Vec<Found>, Error>)
    requires
        doc.wf(),
    ensures
        doc.roots@.len() == 0 ==> (r matches Err(e) && e.0@ == "Missing save root"@),
        r matches Ok(v) ==> {
            &&& forall|a: int| 0 <= a < v@.len() ==> supported(*doc, catalog.items@, #[trigger] v@[a])
            &&& player_item(*doc) matches Some(x) ==> v@.len() > 0 && v@[0].node == x && v@[0].kind@ == "Player"@ && v@[0].title@
                == "Player inventory"@
            &&& forall|a: int| 0 <= a < v@.len() ==> (#[trigger] v@[a]).node < doc.records@.len()
            &&& forall|a: int, b: int| 0 <= a < b < v@.len() ==> rank(v@[a].kind@) <= rank(v@[b].kind@)
            &&& forall|a: int, b: int| 0 <= a < b < v@.len() ==> v@[a].node != v@[b].node
        },
{
    if doc.roots.len() == 0 {
        return Err(failure("Missing save root"));
    }
    let root = doc.roots[0];
    let n = doc.records.len();
    let mut seen: Vec<bool> = Vec::new();
    let mut i: usize = 0;
    while i < n
        invariant
            i <= n,
            seen@.len() == i,
            forall|m: int| 0 <= m < i ==> !seen@[m],
        decreases n - i,
    {
        seen.push(false);
        i = i + 1;
    }
    let mut result: Vec<Found> = Vec::new();
    let player = match field(doc, root, "playerData") {
        Ok(p) => match field(doc, p, "inventory") {
            Ok(q) => match field(doc, q, "inventoryItem") {
                Ok(item) => {
                    proof {
                        lemma_field_in_range(*doc, q, "inventoryItem"@);
                    }
                    Some(item)
                },
                Err(_) => None,
            },
            Err(_) => None,
        },
        Err(_) => None,
    };
    if let Some(item) = player {
        result.push(Found { node: item, kind: owned("Player"), title: owned("Player inventory") });
        assert(supported(*doc, catalog.items@, result@[0]));
        mark(&mut seen, item);
    }
    let ids = match crate::history::reachable(doc) {
        Ok(v) => v,
        Err(e) => return Err(e),
    };
    let mut k: usize = 0;
    while k < ids.len()
        invariant
            doc.wf(),
            doc.roots@.len() > 0,
            n == doc.records@.len(),
            seen@.len() == n,
            forall|m: int| 0 <= m < ids@.len() ==> #[trigger] ids@[m] < n,
            forall|a: int| 0 <= a < result@.len() ==> (#[trigger] result@[a]).node < n,
            forall|a: int| 0 <= a < result@.len() ==> supported(*doc, catalog.items@, #[trigger] result@[a]),
            player_item(*doc) matches Some(x) ==> result@.len() > 0 && result@[0].node == x && result@[0].kind@ == "Player"@
                && result@[0].title@ == "Player inventory"@,
            forall|a: int| 0 <= a < result@.len() ==> seen@[(#[trigger] result@[a]).node as int],
            forall|a: int, b: int| 0 <= a < b < result@.len() ==> result@[a].node != result@[b].node,
        decreases ids@.len() - k,
    {
        let id = ids[k];
        k = k + 1;
        assert(doc.rs()[id as int] == doc.records@[id as int]@);
        let is_inventory = match &doc.records[id].name {
            Some(nm) => same_text(nm.display().as_str(), "inventory"),
            None => false,
        };
        if !is_inventory || !same_text(short_type(doc, id).as_str(), "Inventory") {
            continue;
        }
        let owner = match doc.records[id].parent {
            Some(o) => o,
            None => continue,
        };
        if !under_named(doc, owner, "wgoDataList") {
            continue;
        }
        let item = match field(doc, id, "inventoryItem") {
            Ok(f) => f,
            Err(e) => return Err(e),
        };
        proof {
            lemma_field_in_range(*doc, id, "inventoryItem"@);
        }
        if seen[item] {
            continue;
        }
        mark(&mut seen, item);
        let size = match number(doc, item, "inventorySize") {
            Ok(v) => v,
            Err(e) => return Err(e),
        };
        if size == 0 {
            let c = match contents(doc, item) {
                Ok(c) => c,
                Err(e) => return Err(e),
            };
            if doc.records[c].children.len() == 0 {
                continue;
            }
        }
        let title = match value(doc, owner, "id") {
            Ok(t) => t,
            Err(_) => owned("World object"),
        };
        let kind = if names_chest(title.as_str()) {
            owned("Chest")
        } else {
            owned("World object")
        };
        let ghost f = Found { node: item, kind, title };
        assert(world_inventory(*doc, id, f));
        result.push(Found { node: item, kind, title });
        assert(result@.last() == f);
    }
    let mut index: usize = 0;
    while index < result.len()
        invariant
            doc.wf(),
            doc.roots@.len() > 0,
            n == doc.records@.len(),
            seen@.len() == n,
            index <= result@.len(),
            forall|a: int| 0 <= a < result@.len() ==> (#[trigger] result@[a]).node < n,
            forall|a: int| 0 <= a < result@.len() ==> supported(*doc, catalog.items@, #[trigger] result@[a]),
            player_item(*doc) matches Some(x) ==> result@.len() > 0 && result@[0].node == x && result@[0].kind@ == "Player"@
                && result@[0].title@ == "Player inventory"@,
            forall|a: int| 0 <= a < result@.len() ==> seen@[(#[trigger] result@[a]).node as int],
            forall|a: int, b: int| 0 <= a < b < result@.len() ==> result@[a].node != result@[b].node,
        decreases unset(seen@), result@.len() - index,
    {
        let item = result[index].node;
        index = index + 1;
        let c = match contents(doc, item) {
            Ok(c) => c,
            Err(e) => return Err(e),
        };
        assert(doc.rs()[c as int] == doc.records@[c as int]@);
        let children = &doc.records[c].children;
        let ghost u0 = unset(seen@);
        let ghost l0 = result@.len();
        let mut m: usize = 0;
        while m < children.len()
            invariant
                doc.wf(),
                doc.roots@.len() > 0,
                n == doc.records@.len(),
                seen@.len() == n,
                c < n,
                children@ == doc.rs()[c as int].children,
                m <= children@.len(),
                index <= l0 <= result@.len(),
                unset(seen@) + (result@.len() - l0) == u0,
                forall|a: int| 0 <= a < result@.len() ==> (#[trigger] result@[a]).node < n,
                forall|a: int| 0 <= a < result@.len() ==> supported(*doc, catalog.items@, #[trigger] result@[a]),
                player_item(*doc) matches Some(x) ==> result@.len() > 0 && result@[0].node == x && result@[0].kind@ == "Player"@
                    && result@[0].title@ == "Player inventory"@,
            player_item(*doc) matches Some(x) ==> result@.len() > 0 && result@[0].node == x && result@[0].kind@ == "Player"@
                && result@[0].title@ == "Player inventory"@,
                forall|a: int| 0 <= a < result@.len() ==> seen@[(#[trigger] result@[a]).node as int],
                forall|a: int, b: int| 0 <= a < b < result@.len() ==> result@[a].node != result@[b].node,
            decreases children@.len() - m,
        {
            assert(doc.rs()[c as int].children[m as int] < n);
            let entry = match resolve(doc, children[m]) {
                Ok(e) => e,
                Err(e) => return Err(e),
            };
            proof {
                lemma_resolve_range(*doc, children@[m as int]);
            }
            let id = match value(doc, entry, "id") {
                Ok(v) => v,
                Err(e) => return Err(e),
            };
            if bag_in(catalog, id.as_str()) && !seen[entry] {
                mark(&mut seen, entry);
                result.push(Found { node: entry, kind: owned("Bag"), title: id });
                assert(supported(*doc, catalog.items@, result@.last()));
            }
            m = m + 1;
        }
    }
    let ghost before = result@;
    let sorted = by_rank(result);
    proof {
        assert forall|a: int| 0 <= a < sorted@.len() implies supported(*doc, catalog.items@, #[trigger] sorted@[a]) by {
            let b = choose|b: int|
                0 <= b < before.len() && sorted@[a].node == before[b].node && sorted@[a].kind@ == before[b].kind@ && sorted@[a].title@
                    == before[b].title@;
            assert(supported(*doc, catalog.items@, before[b]));
            if exists|id: usize| #[trigger] world_inventory(*doc, id, before[b]) {
                let id = choose|id: usize| #[trigger] world_inventory(*doc, id, before[b]);
                assert(world_inventory(*doc, id, sorted@[a]));
            }
        }
    }
    Ok(sorted)
}

/// What an inventory write keeps: soundness, the journal, the roots, the object index and
/// the size accounting; records are only added.
pub open spec fn write_frame(d: Document, d2: Document, j: &Journal, j2: &Journal) -> bool {
    &&& d2.wf()
    &&& tracks(j2, d2.rs())
    &&& j2.start == j.start
    &&& j2.origin == j.origin
    &&& forall|i: int| journaled(j, i) ==> journaled(j2, i)
    &&& d2.roots@ == d.roots@
    &&& d2.objects@ == d.objects@
    &&& d2.max_bytes == d.max_bytes
    &&& d2.encoded_size == d.encoded_size
    &&& d2.original_size == d.original_size
    &&& d2.records@.len() >= d.records@.len()
}

/// Sets field `name` of `parent` to `value`.
fn set(doc: &mut Document, j: &mut Journal, parent: usize, name: &str, value: &str) -> (r: Result<(), Error>)
    requires
        old(doc).wf(),
        tracks(old(j), old(doc).rs()),
    ensures
        write_frame(*old(doc), *final(doc), old(j), final(j)),
        match field_spec(*old(doc), parent, name@) {
            Err(m) => r matches Err(e) && e.0@ == m && *final(doc) == *old(doc),
            Ok(f) => edit_result(set_spec(*old(doc), f, old(doc).rs()[f as int].tag, value@, None), *old(doc), *final(doc), r),
        },
{
    let node = match field(doc, parent, name) {
        Ok(n) => n,
        Err(e) => return Err(e),
    };
    proof {
        lemma_field_in_range(*doc, parent, name@);
    }
    assert(doc.rs()[node as int] == doc.records@[node as int]@);
    let tag = doc.records[node].tag;
    set_node(doc, j, node, tag, value, None)
}

/// `b` is `a` with one record appended below `p`: no other record changed, and `p` only in
/// its children.
pub open spec fn grew_under(a: Seq<RecordModel>, b: Seq<RecordModel>, p: usize) -> bool {
    &&& b.len() == a.len() + 1
    &&& p < a.len()
    &&& forall|i: int| 0 <= i < a.len() && i != p ==> #[trigger] b[i] == a[i]
    &&& b[p as int] == (RecordModel { children: b[p as int].children, ..a[p as int] })
}

/// `b` keeps the records of `a` below `n0`, and the parent link of `item`.
spec fn kept(a: Seq<RecordModel>, b: Seq<RecordModel>, n0: nat, item: int) -> bool {
    &&& b.len() >= a.len()
    &&& n0 <= a.len()
    &&& 0 <= item < a.len()
    &&& forall|i: int| 0 <= i < n0 ==> #[trigger] b[i] == a[i]
    &&& b[item].parent == a[item].parent
}

proof fn lemma_kept_grew(a: Seq<RecordModel>, b: Seq<RecordModel>, c: Seq<RecordModel>, p: usize, n0: nat, item: int)
    requires
        kept(a, b, n0, item),
        grew_under(b, c, p),
        p >= n0,
    ensures
        kept(a, c, n0, item),
{
    assert forall|i: int| 0 <= i < n0 implies #[trigger] c[i] == a[i] by {
        assert(c[i] == b[i]);
    }
    if item != p {
        assert(c[item] == b[item]);
    }
}

/// Whether a new node can be appended under `parent`: a new declared type still gets an ID,
/// a reference node an object ID, and `parent` takes children.
pub open spec fn node_room(d: Document, parent: usize, ty: Option<Seq<char>>, reference: bool, named: bool) -> bool {
    &&& match ty {
        None => true,
        Some(t) => (exists|k: i32| #[trigger] d.types@.contains_key(k) && display_spec(d.types@[k]@) == t)
            || !d.types@.contains_key(i32::MAX),
    }
    &&& reference ==> crate::workspace::next_object_spec(d) is Ok
    &&& parent < d.records@.len()
    &&& crate::workspace::attach_check(d.rs(), d.roots@, parent, d.rs()[parent as int].children.len() as usize, named) is Ok
}

/// Appends a new node under `parent`: named or not, of the type named `ty` (declared on
/// first use) or untyped, declaring a new object where `reference` is set.
pub fn node(doc: &mut Document, j: &mut Journal, parent: usize, name: Option<&str>, ty: Option<&str>, reference: bool) -> (r:
    Result<usize, Error>)
    requires
        old(doc).wf(),
        tracks(old(j), old(doc).rs()),
    ensures
        write_frame(*old(doc), *final(doc), old(j), final(j)),
        r matches Ok(n) ==> {
            let made = final(doc).rs()[n as int];
            &&& n == old(doc).records@.len()
            &&& n < final(doc).records@.len()
            &&& parent < old(doc).records@.len()
            &&& made.tag == node_tag(reference, name is Some)
            &&& made.parent == Some(parent)
            &&& made.name == crate::workspace::opt_text_spec(opt_str(name))
            &&& made.children.len() == 0
            &&& made.payload matches PayloadModel::Node { ty: declared, object } && (object is Some <==> reference) && (
            declared is Absent <==> ty is None)
            &&& final(doc).rs()[parent as int].children == old(doc).rs()[parent as int].children.push(n)
            &&& grew_under(old(doc).rs(), final(doc).rs(), parent)
        },
        r is Ok <==> node_room(*old(doc), parent, opt_str(ty), reference, name is Some),
{
    let info = match ty {
        Some(t) => match find_type(&doc.types, t) {
            Some(id) => TypeInfo::Reference(id),
            None => {
                let id = match max_type(&doc.types) {
                    Some(m) => {
                        if m == i32::MAX {
                            return Err(failure("Type ID limit exceeded"));
                        }
                        m + 1
                    },
                    None => 0,
                };
                doc.types.insert(id, text(t));
                TypeInfo::Definition(id, text(t))
            },
        },
        None => TypeInfo::Absent,
    };
    let object = if reference {
        match next_object(doc) {
            Ok(o) => Some(o),
            Err(e) => return Err(e),
        }
    } else {
        None
    };
    let tag: u8 = match (reference, name.is_some()) {
        (true, true) => 1,
        (true, false) => 2,
        (false, true) => 3,
        (false, false) => 4,
    };
    let record = Record {
        tag,
        name: match name {
            Some(n) => Some(text(n)),
            None => None,
        },
        payload: Payload::Node { ty: info, object },
        parent: None,
        children: Vec::new(),
        offset: 0,
    };
    assert(record@.children =~= Seq::<usize>::empty());
    if parent >= doc.records.len() {
        return Err(failure("Unknown node"));
    }
    let index = doc.records[parent].children.len();
    let ghost rs0 = doc.rs();
    let ghost rec = record@;
    let r = attach(doc, j, parent, index, record);
    proof {
        if r is Ok {
            assert(doc.rs() == crate::workspace::attached(rs0, parent, index, rec));
        }
    }
    r
}

pub open spec fn opt_str(name: Option<&str>) -> Option<Seq<char>> {
    match name {
        Some(n) => Some(n@),
        None => None,
    }
}

/// Appends a new scalar of `kind` holding `value` under `parent`.
pub fn append(doc: &mut Document, j: &mut Journal, parent: usize, name: Option<&str>, kind: &str, value: &str, float: Option<FloatBits>) -> (r:
    Result<usize, Error>)
    requires
        old(doc).wf(),
        tracks(old(j), old(doc).rs()),
    ensures
        write_frame(*old(doc), *final(doc), old(j), final(j)),
        r matches Ok(n) ==> n < final(doc).records@.len(),
        match crate::workspace::scalar_spec(kind@, opt_str(name), value@, float) {
            Err(m) => r matches Err(e) && e.0@ == m && *final(doc) == *old(doc),
            Ok(rm) => {
                let index = if parent < old(doc).records@.len() { old(doc).rs()[parent as int].children.len() } else { 0 };
                match crate::workspace::attach_check(old(doc).rs(), old(doc).roots@, parent, index as usize, rm.name is Some) {
                    Err(m) => r matches Err(e) && e.0@ == m && *final(doc) == *old(doc),
                    Ok(()) => r == Ok::<usize, Error>(old(doc).records@.len() as usize) && final(doc).rs()
                        == crate::workspace::attached(old(doc).rs(), parent, index as usize, rm) && grew_under(
                        old(doc).rs(),
                        final(doc).rs(),
                        parent,
                    ),
                }
            },
        },
{
    let record = match scalar(kind, match name {
        Some(n) => Some(owned(n)),
        None => None,
    }, value, float) {
        Ok(r) => r,
        Err(e) => return Err(e),
    };
    if parent >= doc.records.len() {
        return Err(failure("Unknown node"));
    }
    let index = doc.records[parent].children.len();
    let ghost rs0 = doc.rs();
    let ghost rec = record@;
    let r = attach(doc, j, parent, index, record);
    proof {
        if r is Ok {
            assert(doc.rs() == crate::workspace::attached(rs0, parent, index, rec));
        }
    }
    r
}

/// Whether a text has the shape of a GUID: 36 characters, hyphens at positions 8, 13, 18 and
/// 23 and hexadecimal digits elsewhere.
pub open spec fn guid_shape(s: Seq<char>) -> bool {
    &&& s.len() == 36
    &&& forall|i: int|
        0 <= i < 36 ==> if i == 8 || i == 13 || i == 18 || i == 23 {
            #[trigger] s[i] == '-'
        } else {
            ('0' <= s[i] <= '9') || ('a' <= s[i] <= 'f') || ('A' <= s[i] <= 'F')
        }
}

fn is_guid(s: &str) -> (r: bool)
    ensures
        r == guid_shape(s@),
{
    let cs = chars_of(s);
    if cs.len() != 36 {
        return false;
    }
    let mut i: usize = 0;
    while i < 36
        invariant
            cs@ == s@,
            cs@.len() == 36,
            i <= 36,
            forall|m: int|
                0 <= m < i ==> if m == 8 || m == 13 || m == 18 || m == 23 {
                    #[trigger] s@[m] == '-'
                } else {
                    ('0' <= s@[m] <= '9') || ('a' <= s@[m] <= 'f') || ('A' <= s@[m] <= 'F')
                },
        decreases 36 - i,
    {
        let c = cs[i];
        let ok = if i == 8 || i == 13 || i == 18 || i == 23 {
            c == '-'
        } else {
            ('0' <= c && c <= '9') || ('a' <= c && c <= 'f') || ('A' <= c && c <= 'F')
        };
        if !ok {
            return false;
        }
        i = i + 1;
    }
    true
}

/// Whether two texts are equal when ASCII capitals are lowered.
pub open spec fn same_ignoring_case(a: Seq<char>, b: Seq<char>) -> bool {
    a.len() == b.len() && forall|i: int| 0 <= i < a.len() ==> lower_code(#[trigger] a[i]) == lower_code(b[i])
}

pub fn same_case_blind(a: &str, b: &str) -> (r: bool)
    ensures
        r == same_ignoring_case(a@, b@),
{
    let x = chars_of(a);
    let y = chars_of(b);
    if x.len() != y.len() {
        return false;
    }
    let mut i: usize = 0;
    while i < x.len()
        invariant
            x@ == a@,
            y@ == b@,
            x@.len() == y@.len(),
            i <= x@.len(),
            forall|m: int| 0 <= m < i ==> lower_code(#[trigger] a@[m]) == lower_code(b@[m]),
        decreases x@.len() - i,
    {
        if lower(x[i]) != lower(y[i]) {
            return false;
        }
        i = i + 1;
    }
    true
}

/// Whether a live item identity in the document already holds `guid`, in any letter case.
fn guid_taken(doc: &Document, guid: &str) -> (r: Result<bool, Error>)
    requires
        doc.wf(),
    ensures
        r == Ok::<bool, Error>(true) ==> exists|n: usize|
            n < doc.records@.len() && short_type_spec(*doc, n) == "SGuid"@ && (#[trigger] value_spec(*doc, n, "id"@) matches Ok(
                t,
            ) && same_ignoring_case(t, guid@)),
{
    let ids = match crate::history::reachable(doc) {
        Ok(v) => v,
        Err(e) => return Err(e),
    };
    let mut k: usize = 0;
    while k < ids.len()
        invariant
            doc.wf(),
            forall|m: int| 0 <= m < ids@.len() ==> #[trigger] ids@[m] < doc.records@.len(),
        decreases ids@.len() - k,
    {
        let n = ids[k];
        if same_text(short_type(doc, n).as_str(), "SGuid") {
            match value(doc, n, "id") {
                Ok(v) => {
                    if same_case_blind(v.as_str(), guid) {
                        assert(value_spec(*doc, n, "id"@) matches Ok(t) && same_ignoring_case(t, guid@)) by {}
                        return Ok(true);
                    }
                },
                Err(_) => {},
            }
        }
        k = k + 1;
    }
    Ok(false)
}

/// The name of the type that runtime type keys are declared with: the first declared type
/// (by ID) that names a runtime type, else the usual one.
fn runtime_type(types: &HashMap<i32, WireString>) -> (r: String)
    ensures
        (exists|k: i32|
            #[trigger] types@.contains_key(k) && names_runtime(display_spec(types@[k]@)) && r@ == display_spec(types@[k]@)
                && forall|m: i32| #[trigger] types@.contains_key(m) && names_runtime(display_spec(types@[m]@)) ==> k <= m)
            || ((forall|k: i32| #[trigger] types@.contains_key(k) ==> !names_runtime(display_spec(types@[k]@)))
            && r@ == "System.RuntimeType, mscorlib"@),
{
    let ghost all = spec_hash_map_iter(types).remaining();
    proof {
        axiom_spec_hash_map_iter(types);
    }
    let mut best: Option<(i32, String)> = None;
    for entry in it: types.iter()
        invariant
            all == spec_hash_map_iter(types).remaining(),
            it.seq() == all,
            forall|i: int| 0 <= i < all.len() ==> types@.contains_key(*(#[trigger] all[i]).0) && types@[*all[i].0]
                == *all[i].1,
            best matches Some(b) ==> types@.contains_key(b.0) && names_runtime(display_spec(types@[b.0]@))
                && b.1@ == display_spec(types@[b.0]@),
            forall|i: int| 0 <= i < it.index() && names_runtime(display_spec((*(#[trigger] all[i]).1)@)) ==> (best matches Some(b)
                && b.0 <= *all[i].0),
    {
        let (k, v) = entry;
        proof {
            axiom_spec_hash_map_iter(types);
        }
        let name = v.display();
        if starts_with(name.as_str(), "System.RuntimeType,") || starts_with(name.as_str(), "System.MonoType,") {
            let better = match &best {
                Some((b, _)) => *k < *b,
                None => true,
            };
            if better {
                best = Some((*k, name));
            }
        }
    }
    proof {
        axiom_spec_hash_map_iter(types);
    }
    assert forall|m: i32| #[trigger] types@.contains_key(m) && names_runtime(display_spec(types@[m]@)) implies (best matches Some(b)
        && b.0 <= m) by {
        assert(all.contains((&m, &types@[m])));
        let i = choose|i: int| 0 <= i < all.len() && all[i] == (&m, &types@[m]);
        assert(names_runtime(display_spec((*all[i].1)@)));
    }
    match best {
        Some((_, name)) => name,
        None => owned("System.RuntimeType, mscorlib"),
    }
}

/// Whether a type name names the runtime type: it starts with `System.RuntimeType,` or with
/// `System.MonoType,`.
pub open spec fn names_runtime(t: Seq<char>) -> bool {
    ||| ("System.RuntimeType,"@.len() <= t.len() && t.take("System.RuntimeType,"@.len() as int) == "System.RuntimeType,"@)
    ||| ("System.MonoType,"@.len() <= t.len() && t.take("System.MonoType,"@.len() as int) == "System.MonoType,"@)
}

/// Whether `s` starts with `prefix`.
pub fn starts_with(s: &str, prefix: &str) -> (r: bool)
    ensures
        r == (prefix@.len() <= s@.len() && s@.take(prefix@.len() as int) == prefix@),
{
    let x = chars_of(s);
    let y = chars_of(prefix);
    if y.len() > x.len() {
        return false;
    }
    let mut k: usize = 0;
    while k < y.len()
        invariant
            x@ == s@,
            y@ == prefix@,
            y@.len() <= x@.len(),
            k <= y@.len(),
            forall|i: int| 0 <= i < k ==> x@[i] == y@[i],
        decreases y@.len() - k,
    {
        if code_of(x[k]) != code_of(y[k]) {
            assert(s@.take(prefix@.len() as int)[k as int] != prefix@[k as int]);
            return false;
        }
        k = k + 1;
    }
    assert(s@.take(prefix@.len() as int) =~= prefix@);
    true
}

/// Builds a new item `id` of `count` with identity `guid` at the end of `parent`, in the
/// layout the game writes: its ID, count, unique ID, an empty inventory of the definition's
/// capacity, and its properties, with full durability where the definition has durability.
/// Where `guid_checked` is not set, a GUID that a live item identity already holds is refused.
pub fn new_item(
    doc: &mut Document,
    j: &mut Journal,
    parent: usize,
    id: &str,
    count: i32,
    guid: &str,
    d: &Definition,
    guid_checked: bool,
) -> (r: Result<usize, Error>)
    requires
        old(doc).wf(),
        tracks(old(j), old(doc).rs()),
    ensures
        write_frame(*old(doc), *final(doc), old(j), final(j)),
        !guid_shape(guid@) ==> (r matches Err(e) && e.0@ == "Invalid item GUID"@ && *final(doc) == *old(doc)),
        r matches Ok(n) ==> {
            &&& n == old(doc).records@.len()
            &&& n < final(doc).records@.len()
            &&& final(doc).rs()[n as int].parent == Some(parent)
            &&& final(doc).rs()[parent as int] == (RecordModel {
                children: old(doc).rs()[parent as int].children.push(n),
                ..old(doc).rs()[parent as int]
            })
            &&& forall|i: int| 0 <= i < old(doc).records@.len() && i != parent ==> #[trigger] final(doc).rs()[i] == old(
                doc,
            ).rs()[i]
        },
{
    if !is_guid(guid) {
        return Err(failure("Invalid item GUID"));
    }
    if !guid_checked {
        match guid_taken(doc, guid) {
            Ok(true) => return Err(failure("Duplicate item GUID")),
            Ok(false) => {},
            Err(e) => return Err(e),
        }
    }
    let ghost d0 = doc.rs();
    let item = match node(doc, j, parent, None, Some("Item, Assembly-CSharp"), true) {
        Ok(n) => n,
        Err(e) => return Err(e),
    };
    let ghost d1 = doc.rs();
    let ghost n0 = d0.len();
    assert(kept(d1, d1, n0, item as int));
    let ghost b = doc.rs();
    if let Err(e) = append(doc, j, item, Some("id"), "string", id, None) {
        return Err(e);
    }
    proof {
        lemma_kept_grew(d1, b, doc.rs(), item, n0, item as int);
    }
    let count_text = crate::text::signed_text(count as i64);
    let ghost b = doc.rs();
    if let Err(e) = append(doc, j, item, Some("count"), "i32", count_text.as_str(), None) {
        return Err(e);
    }
    proof {
        lemma_kept_grew(d1, b, doc.rs(), item, n0, item as int);
    }
    let ghost b = doc.rs();
    let unique = match node(doc, j, item, Some("uniqueId"), Some("SGuid, Assembly-CSharp"), true) {
        Ok(n) => n,
        Err(e) => return Err(e),
    };
    proof {
        lemma_kept_grew(d1, b, doc.rs(), item, n0, item as int);
    }
    let ghost b = doc.rs();
    if let Err(e) = append(doc, j, unique, Some("id"), "string", guid, None) {
        return Err(e);
    }
    proof {
        lemma_kept_grew(d1, b, doc.rs(), unique, n0, item as int);
    }
    let ghost b = doc.rs();
    let inv = match node(
        doc,
        j,
        item,
        Some("inventory"),
        Some("System.Collections.Generic.List`1[[Item, Assembly-CSharp]], mscorlib"),
        true,
    ) {
        Ok(n) => n,
        Err(e) => return Err(e),
    };
    proof {
        lemma_kept_grew(d1, b, doc.rs(), item, n0, item as int);
    }
    let ghost b = doc.rs();
    if let Err(e) = append(doc, j, inv, None, "array", "", None) {
        return Err(e);
    }
    proof {
        lemma_kept_grew(d1, b, doc.rs(), inv, n0, item as int);
    }
    let capacity_text = crate::text::signed_text(d.capacity as i64);
    let ghost b = doc.rs();
    if let Err(e) = append(doc, j, item, Some("inventorySize"), "i32", capacity_text.as_str(), None) {
        return Err(e);
    }
    proof {
        lemma_kept_grew(d1, b, doc.rs(), item, n0, item as int);
    }
    let ghost b = doc.rs();
    if let Err(e) = append(doc, j, item, Some("inventoryFillSize"), "i32", "-1", None) {
        return Err(e);
    }
    proof {
        lemma_kept_grew(d1, b, doc.rs(), item, n0, item as int);
    }
    let ghost b = doc.rs();
    let props = match node(
        doc,
        j,
        item,
        Some("properties"),
        Some(
            "System.Collections.Generic.Dictionary`2[[System.Type, mscorlib],[SerializedItemProperty, Assembly-CSharp]], mscorlib",
        ),
        true,
    ) {
        Ok(n) => n,
        Err(e) => return Err(e),
    };
    proof {
        lemma_kept_grew(d1, b, doc.rs(), item, n0, item as int);
    }
    let ghost b = doc.rs();
    if let Err(e) = append(doc, j, props, Some("comparer"), "null", "", None) {
        return Err(e);
    }
    proof {
        lemma_kept_grew(d1, b, doc.rs(), props, n0, item as int);
    }
    let ghost b = doc.rs();
    let entries = match append(doc, j, props, None, "array", "", None) {
        Ok(n) => n,
        Err(e) => return Err(e),
    };
    proof {
        lemma_kept_grew(d1, b, doc.rs(), props, n0, item as int);
    }
    if d.durability {
        let ghost b = doc.rs();
        let pair = match node(doc, j, entries, None, None, false) {
            Ok(n) => n,
            Err(e) => return Err(e),
        };
        proof {
            lemma_kept_grew(d1, b, doc.rs(), entries, n0, item as int);
        }
        // The type formatter writes the type name inside a reference node for the runtime type.
        let key_type = runtime_type(&doc.types);
        let ghost b = doc.rs();
        let key = match node(doc, j, pair, Some("$k"), Some(key_type.as_str()), true) {
            Ok(n) => n,
            Err(e) => return Err(e),
        };
        proof {
            lemma_kept_grew(d1, b, doc.rs(), pair, n0, item as int);
        }
        let ghost b = doc.rs();
        if let Err(e) = append(doc, j, key, None, "string", "DurabilitySerializedItemProperty, Assembly-CSharp", None) {
            return Err(e);
        }
        proof {
            lemma_kept_grew(d1, b, doc.rs(), key, n0, item as int);
        }
        let ghost b = doc.rs();
        let p = match node(doc, j, pair, Some("$v"), Some("DurabilitySerializedItemProperty, Assembly-CSharp"), true) {
            Ok(n) => n,
            Err(e) => return Err(e),
        };
        proof {
            lemma_kept_grew(d1, b, doc.rs(), pair, n0, item as int);
        }
        let ghost b = doc.rs();
        if let Err(e) = append(doc, j, p, Some("durability"), "f32", "1", Some(FloatBits::Single(0x3f80_0000))) {
            return Err(e);
        }
        proof {
            lemma_kept_grew(d1, b, doc.rs(), p, n0, item as int);
        }
    }
    proof {
        assert forall|i: int| 0 <= i < d0.len() && i != parent implies #[trigger] doc.rs()[i] == d0[i] by {
            assert(doc.rs()[i] == d1[i]);
            assert(d1[i] == d0[i]);
        }
        assert(doc.rs()[parent as int] == d1[parent as int]);
    }
    Ok(item)
}

/// The int32 that a text holds, if it holds one.
pub open spec fn int32_of(s: Seq<char>) -> Option<int> {
    parse_integer_spec(s, -2147483648, 2147483647)
}

fn parse_int32(s: &str) -> (r: Option<i32>)
    ensures
        match int32_of(s@) {
            Some(v) => r == Some(v as i32),
            None => r is None,
        },
{
    match parse_integer(s, -2147483648, 2147483647) {
        Some(v) => Some(v as i32),
        None => None,
    }
}

/// Position of the first occurrence of `x`.
fn index_of(v: &Vec<usize>, x: usize) -> (r: Option<usize>)
    ensures
        r matches Some(k) ==> k < v@.len() && v@[k as int] == x,
        r is None ==> !v@.contains(x),
{
    let mut k: usize = 0;
    while k < v.len()
        invariant
            k <= v@.len(),
            forall|m: int| 0 <= m < k ==> v@[m] != x,
        decreases v@.len() - k,
    {
        if v[k] == x {
            return Some(k);
        }
        k = k + 1;
    }
    None
}

/// Whether items of the definitions at `a` (the old item) and `b` (the new one) replace
/// each other in place: one family, with the same capacity and durability.
fn same_family(catalog: &Catalog, a: usize, b: usize) -> (r: bool)
    requires
        a < catalog.items@.len(),
        b < catalog.items@.len(),
    ensures
        r == ({
            let (x, y) = (catalog.items@[a as int].1, catalog.items@[b as int].1);
            &&& x.family matches Some(f) && y.family matches Some(g) && f@ == g@
            &&& x.capacity == y.capacity
            &&& x.durability == y.durability
        }),
{
    let old = &catalog.items[a].1;
    let new = &catalog.items[b].1;
    let family = match (&old.family, &new.family) {
        (Some(x), Some(y)) => same_text(x.as_str(), y.as_str()),
        _ => false,
    };
    family && old.capacity == new.capacity && old.durability == new.durability
}

/// What a successful inventory edit implies of its input.
pub open spec fn edit_accepted(catalog: &Catalog, edit: Edit, out_of_bounds: bool) -> bool {
    match edit {
        Edit::Capacity { value } => out_of_bounds && (int32_of(value@) matches Some(v) && v >= 0),
        Edit::Remove { .. } => true,
        Edit::Put { item, count, .. } => (int32_of(count@) matches Some(c) && c >= 1 && exists|k: int|
            0 <= k < catalog.items@.len() && (#[trigger] catalog.items@[k]).0@ == item@ && (out_of_bounds || c
                <= catalog.items@[k].1.stack)),
    }
}

/// What a successful inventory edit implies of the document it was made on: the inventory's
/// item array and capacity could be read, a capacity is not below the contents, a removed
/// or replaced slot was in the inventory, and a new slot was free.
pub open spec fn slots_accepted(d: Document, container: usize, edit: Edit) -> bool {
    &&& contents_spec(d, container) is Ok
    &&& number_spec(d, container, "inventorySize"@) is Ok
    &&& {
        let slots = d.rs()[contents_spec(d, container)->Ok_0 as int].children;
        match edit {
            Edit::Capacity { value } => int32_of(value@) matches Some(v) && v >= slots.len(),
            Edit::Remove { node } => slots.contains(node),
            Edit::Put { node: Some(n), .. } => slots.contains(n),
            Edit::Put { node: None, .. } => slots.len() < number_spec(d, container, "inventorySize"@)->Ok_0,
        }
    }
}

/// What bringing the fill size of `container` up to date does to `d`, whose slots are the
/// children of `array`: the records after, or why it cannot be done.
pub open spec fn fill_refresh(d: Document, container: usize, array: usize) -> Result<Seq<RecordModel>, Seq<char>> {
    match field_spec(d, container, "inventoryFillSize"@) {
        Err(m) => Err(m),
        Ok(f) => set_spec(d, f, d.rs()[f as int].tag, decimal(d.rs()[array as int].children.len()), None),
    }
}

/// The record change that a capacity or removal edit makes before the fill size is brought
/// up to date: the capacity field set to the new value, or the slot detached.
pub open spec fn slot_step(d: Document, container: usize, edit: Edit) -> Option<Result<Seq<RecordModel>, Seq<char>>> {
    match edit {
        Edit::Capacity { value } => Some(
            match field_spec(d, container, "inventorySize"@) {
                Err(m) => Err(m),
                Ok(c) => set_spec(d, c, d.rs()[c as int].tag, value@, None),
            },
        ),
        Edit::Remove { node } => Some(remove_spec(d, node)),
        Edit::Put { .. } => None,
    }
}

/// Whether `d1` has the same roots, object index and size limit as `d`.
pub open spec fn same_shape(d: Document, d1: Document) -> bool {
    d1.roots@ == d.roots@ && d1.objects@ == d.objects@ && d1.max_bytes == d.max_bytes
}

/// Whether record `r` holds the count `n`: its value is what writing the decimal text of
/// `n` over an earlier value gives, and an integer field shows that text.
pub open spec fn holds_count(r: RecordModel, n: nat) -> bool {
    &&& exists|prev: PayloadModel| replacement_spec(r.tag, prev, decimal(n), None) == Ok::<PayloadModel, Refusal>(r.payload)
    &&& integer_format(spec_base_tag(r.tag)) is Some ==> value_text(r) == Some(decimal(n))
}

/// Writes the number of elements of `array` into field `inventoryFillSize` of `container`.
fn refresh_fill(doc: &mut Document, j: &mut Journal, container: usize, array: usize) -> (r: Result<(), Error>)
    requires
        old(doc).wf(),
        tracks(old(j), old(doc).rs()),
        array < old(doc).records@.len(),
    ensures
        write_frame(*old(doc), *final(doc), old(j), final(j)),
        r is Ok ==> (field_spec(*final(doc), container, "inventoryFillSize"@) matches Ok(f) && holds_count(
            final(doc).rs()[f as int],
            final(doc).rs()[array as int].children.len(),
        )),
        match field_spec(*old(doc), container, "inventoryFillSize"@) {
            Err(m) => r matches Err(e) && e.0@ == m && *final(doc) == *old(doc),
            Ok(f) => edit_result(
                set_spec(*old(doc), f, old(doc).rs()[f as int].tag, decimal(old(doc).rs()[array as int].children.len()), None),
                *old(doc),
                *final(doc),
                r,
            ),
        },
{
    assert(old(doc).rs()[array as int] == old(doc).records@[array as int]@);
    let count = doc.records[array].children.len();
    let filled = crate::text::unsigned_text(count as u64);
    let ghost before = *doc;
    let r = set(doc, j, container, "inventoryFillSize", filled.as_str());
    proof {
        if r is Ok {
            let f = field_spec(before, container, "inventoryFillSize"@)->Ok_0;
            let old_record = before.rs()[f as int];
            let p = replacement_spec(old_record.tag, old_record.payload, filled@, None)->Ok_0;
            assert(doc.rs() == before.rs().update(f as int, RecordModel { payload: p, ..old_record }));
            assert(payload_only(before.rs(), doc.rs(), f as int));
            lemma_field_payload(before, *doc, f as int, container, "inventoryFillSize"@);
            assert(before.rs()[array as int] == before.records@[array as int]@);
            assert(doc.rs()[array as int].children == before.rs()[array as int].children);
            assert(filled@ == decimal(count as nat));
            if integer_format(spec_base_tag(old_record.tag)) is Some {
                lemma_decimal_reads_back(old_record.tag, old_record.payload, count as nat);
            }
            assert(holds_count(doc.rs()[f as int], doc.rs()[array as int].children.len()));
        }
    }
    r
}

/// Applies an inventory edit to the inventory whose item is `container`, then brings its
/// count of occupied slots up to date.
///
/// A capacity below the contents, or any capacity change, needs `out_of_bounds`. A put
/// needs an amount of at least one, and within the item's stack unless `out_of_bounds`;
/// the item must be allowed in the container. A put on an existing slot changes the item in
/// place where the new item is the same or of the same family, and otherwise replaces it
/// by a new item in the same slot, once its own inventory is empty. A put without a slot
/// needs a free one. Unless `checked`, the container must be one that [`containers`]
/// lists, and a new item's GUID must be free.
#[verifier::rlimit(60)]
#[verifier::spinoff_prover]
pub fn write_inner(
    doc: &mut Document,
    j: &mut Journal,
    catalog: &Catalog,
    container: usize,
    edit: Edit,
    out_of_bounds: bool,
    checked: bool,
) -> (r: Result<(), Error>)
    requires
        old(doc).wf(),
        tracks(old(j), old(doc).rs()),
    ensures
        write_frame(*old(doc), *final(doc), old(j), final(j)),
        r is Ok ==> edit_accepted(catalog, edit, out_of_bounds) && slots_accepted(*old(doc), container, edit),
        checked ==> (contents_spec(*old(doc), container) matches Err(m) ==> (r matches Err(e) && e.0@ == m
            && *final(doc) == *old(doc))),
        r is Ok ==> (contents_spec(*old(doc), container) matches Ok(a) && field_spec(*final(doc), container,
            "inventoryFillSize"@) matches Ok(f) && holds_count(final(doc).rs()[f as int], final(doc).rs()[a as int].children.len())),
        checked && slot_step(*old(doc), container, edit) is Some ==> (r is Ok <==> {
            &&& edit_accepted(catalog, edit, out_of_bounds)
            &&& slots_accepted(*old(doc), container, edit)
            &&& slot_step(*old(doc), container, edit)->Some_0 is Ok
            &&& forall|d1: Document|
                d1.rs() == slot_step(*old(doc), container, edit)->Some_0->Ok_0 && same_shape(*old(doc), d1) ==> #[trigger] fill_refresh(
                    d1,
                    container,
                    contents_spec(*old(doc), container)->Ok_0,
                ) is Ok
        }),
        checked && slot_step(*old(doc), container, edit) is Some && r is Ok ==> exists|d1: Document|
            d1.rs() == slot_step(*old(doc), container, edit)->Some_0->Ok_0 && same_shape(*old(doc), d1) && #[trigger] fill_refresh(
                d1,
                container,
                contents_spec(*old(doc), container)->Ok_0,
            ) == Ok::<Seq<RecordModel>, Seq<char>>(final(doc).rs()),
{
    if !checked {
        let listed = match containers(doc, catalog) {
            Ok(v) => v,
            Err(e) => return Err(e),
        };
        let mut found = false;
        let mut k: usize = 0;
        while k < listed.len()
            invariant
                k <= listed@.len(),
            decreases listed@.len() - k,
        {
            if listed[k].node == container {
                found = true;
            }
            k = k + 1;
        }
        if !found {
            return Err(failure("Unsupported inventory"));
        }
    }
    let ghost d0 = *doc;
    let array = match contents(doc, container) {
        Ok(a) => a,
        Err(e) => return Err(e),
    };
    let capacity = match number(doc, container, "inventorySize") {
        Ok(c) => c,
        Err(e) => return Err(e),
    };
    match edit {
        Edit::Capacity { value } => {
            let n = match parse_int32(value.as_str()) {
                Some(n) => n,
                None => return Err(failure("Capacity must be an integer")),
            };
            if !out_of_bounds || n < 0 || (n as usize) < doc.records[array].children.len() {
                return Err(failure("Enable out of bounds edits; capacity cannot be smaller than its contents"));
            }
            if let Err(e) = set(doc, j, container, "inventorySize", value.as_str()) {
                return Err(e);
            }
        },
        Edit::Remove { node } => {
            if !crate::workspace::contains(&doc.records[array].children, node) {
                return Err(failure("Item is not in this inventory"));
            }
            if let Err(e) = remove_node(doc, j, node) {
                return Err(e);
            }
        },
        Edit::Put { node: existing, item, count, guid } => {
            let count = match parse_int32(count.as_str()) {
                Some(c) => c,
                None => return Err(failure("Amount must be an integer")),
            };
            let k = match catalog.lookup(item.as_str()) {
                Some(k) => k,
                None => return Err(failure("Item definition unavailable")),
            };
            let d = &catalog.items[k].1;
            if count < 1 || (!out_of_bounds && count > d.stack) {
                return Err(failure("Amount exceeds the item stack size"));
            }
            match allowed(doc, catalog, container, item.as_str()) {
                Ok(true) => {},
                Ok(false) => return Err(failure("Item is not allowed in this inventory")),
                Err(e) => return Err(e),
            }
            match existing {
                Some(existing) => {
                    let index = match index_of(&doc.records[array].children, existing) {
                        Some(i) => i,
                        None => return Err(failure("Item is not in this inventory")),
                    };
                    let target = match resolve(doc, existing) {
                        Ok(t) => t,
                        Err(e) => return Err(e),
                    };
                    let old_id = match value(doc, target, "id") {
                        Ok(v) => v,
                        Err(e) => return Err(e),
                    };
                    let same_item = same_text(old_id.as_str(), item.as_str());
                    let kin = match catalog.lookup(old_id.as_str()) {
                        Some(o) => same_family(catalog, o, k),
                        None => false,
                    };
                    if same_item || kin {
                        if !same_item {
                            if let Err(e) = set(doc, j, target, "id", item.as_str()) {
                                return Err(e);
                            }
                        }
                        let text = crate::text::signed_text(count as i64);
                        if let Err(e) = set(doc, j, target, "count", text.as_str()) {
                            return Err(e);
                        }
                    } else {
                        let inner = match contents(doc, target) {
                            Ok(c) => c,
                            Err(e) => return Err(e),
                        };
                        if doc.records[inner].children.len() > 0 {
                            return Err(failure("Empty this item's inventory before replacing it"));
                        }
                        let new = match new_item(doc, j, array, item.as_str(), count, guid.as_str(), d, checked) {
                            Ok(n) => n,
                            Err(e) => return Err(e),
                        };
                        if let Err(e) = remove_node(doc, j, existing) {
                            return Err(e);
                        }
                        if let Err(e) = move_node(doc, j, new, index) {
                            return Err(e);
                        }
                    }
                },
                None => {
                    let free = if capacity < 0 {
                        0
                    } else {
                        capacity as usize
                    };
                    if doc.records[array].children.len() >= free {
                        return Err(failure("Inventory is full"));
                    }
                    if let Err(e) = new_item(doc, j, array, item.as_str(), count, guid.as_str(), d, checked) {
                        return Err(e);
                    }
                },
            }
        },
    }
    // The game caches the number of occupied slots on the container; it must not go stale.
    if array >= doc.records.len() {
        return Err(failure("Unknown node"));
    }
    let ghost mid = *doc;
    proof {
        assert(same_shape(d0, mid));
        assert forall|d1: Document| d1.rs() == mid.rs() && same_shape(d0, d1) implies #[trigger] fill_refresh(d1, container, array)
            == fill_refresh(mid, container, array) by {
            lemma_fill_refresh_shape(d1, mid, container, array);
        }
    }
    refresh_fill(doc, j, container, array)
}

/// Bringing the fill size up to date depends on the records, roots, object index and size
/// limit alone.
proof fn lemma_fill_refresh_shape(a: Document, b: Document, container: usize, array: usize)
    requires
        a.rs() == b.rs(),
        same_shape(b, a),
    ensures
        fill_refresh(a, container, array) == fill_refresh(b, container, array),
{
    assert(field_spec(a, container, "inventoryFillSize"@) == field_spec(b, container, "inventoryFillSize"@));
}

/// Where an inventory stands: the scene, the world and the position of the nearest world
/// object or player data around it. Each is absent where no enclosing node gives it, and
/// `None` inside where the node gives no readable value.
#[derive(Clone, Debug)]
pub struct Location {
    pub scene: Option<Option<Shown>>,
    pub world: Option<Option<Shown>>,
    pub position: Option<Vec<Shown>>,
}

/// What a container's item rules are made of, beside the player and bag conditions.
pub enum Filter {
    /// A property without an item list.
    Plain,
    /// A list property that cannot be read.
    Invalid,
    /// The item IDs and group IDs of a white or black list.
    Lists(Vec<String>, Vec<String>),
}

/// Containers with equal keys admit the same items.
pub struct RuleKey {
    pub player: bool,
    /// The container's item ID where it is a bag, else empty.
    pub bag: String,
    /// Each item property's short type and what it filters.
    pub filters: Vec<(String, Filter)>,
}

/// The items a container admits: the catalog IDs allowed, in catalog order, up to the first
/// ID that could not be decided, whose reason `error` gives.
#[derive(Clone, Debug)]
pub struct Rule {
    pub allowed: Vec<String>,
    pub error: Option<String>,
}

/// A discovered inventory, as the cache keeps it.
pub struct Registered {
    pub node: usize,
    pub kind: String,
    pub title: String,
    pub location: Location,
    pub rule: usize,
}

/// One occupied slot: its node, the item's ID and count, and its durability where the item
/// has a durability property.
#[derive(Debug)]
pub struct Slot {
    pub node: usize,
    pub id: String,
    pub count: i32,
    pub durability: Option<Shown>,
}

/// An inventory with its current contents.
#[derive(Debug)]
pub struct InventoryView {
    pub node: usize,
    pub kind: String,
    pub title: String,
    pub location: Location,
    pub rule: usize,
    pub capacity: i32,
    pub items: Vec<Slot>,
}

/// All inventories, player first, then bags, chests and other world objects; and every rule,
/// by number.
#[derive(Debug)]
pub struct Snapshot {
    pub inventories: Vec<InventoryView>,
    pub rules: Vec<Rule>,
}

/// What an edit changed: the inventories to show anew, those that are gone, and the rules
/// first needed now, with their numbers.
#[derive(Debug)]
pub struct Updates {
    pub upsert: Vec<InventoryView>,
    pub removed: Vec<usize>,
    pub rules: Vec<(usize, Rule)>,
}

/// Discovered inventories and the rules they share, kept up to date edit by edit.
pub struct Cache {
    /// In ascending node order.
    pub entries: Vec<Registered>,
    pub rules: Vec<Rule>,
    /// The key of each rule, by rule number.
    pub keys: Vec<RuleKey>,
}

/// Whether two text lists hold the same texts in the same order.
pub open spec fn texts_same(a: Seq<String>, b: Seq<String>) -> bool {
    a.len() == b.len() && forall|k: int| 0 <= k < a.len() ==> (#[trigger] a[k])@ == b[k]@
}

/// Whether two filters are the same.
pub open spec fn filter_same(a: Filter, b: Filter) -> bool {
    match (a, b) {
        (Filter::Plain, Filter::Plain) => true,
        (Filter::Invalid, Filter::Invalid) => true,
        (Filter::Lists(x, y), Filter::Lists(u, v)) => texts_same(x@, u@) && texts_same(y@, v@),
        _ => false,
    }
}

/// Whether two rule keys are the same.
pub open spec fn key_same(a: RuleKey, b: RuleKey) -> bool {
    &&& a.player == b.player
    &&& a.bag@ == b.bag@
    &&& a.filters@.len() == b.filters@.len()
    &&& forall|k: int| 0 <= k < a.filters@.len() ==> (#[trigger] a.filters@[k]).0@ == b.filters@[k].0@ && filter_same(
        a.filters@[k].1,
        b.filters@[k].1,
    )
}

fn same_texts(a: &Vec<String>, b: &Vec<String>) -> (r: bool)
    ensures
        r == texts_same(a@, b@),
{
    if a.len() != b.len() {
        return false;
    }
    let mut k: usize = 0;
    while k < a.len()
        invariant
            a@.len() == b@.len(),
            k <= a@.len(),
            forall|m: int| 0 <= m < k ==> (#[trigger] a@[m])@ == b@[m]@,
        decreases a@.len() - k,
    {
        if !same_text(a[k].as_str(), b[k].as_str()) {
            return false;
        }
        k = k + 1;
    }
    true
}

fn same_filter(a: &Filter, b: &Filter) -> (r: bool)
    ensures
        r == filter_same(*a, *b),
{
    match (a, b) {
        (Filter::Plain, Filter::Plain) => true,
        (Filter::Invalid, Filter::Invalid) => true,
        (Filter::Lists(x, y), Filter::Lists(u, v)) => same_texts(x, u) && same_texts(y, v),
        _ => false,
    }
}

fn same_key(a: &RuleKey, b: &RuleKey) -> (r: bool)
    ensures
        r == key_same(*a, *b),
{
    if a.player != b.player || !same_text(a.bag.as_str(), b.bag.as_str()) || a.filters.len() != b.filters.len() {
        return false;
    }
    let mut k: usize = 0;
    while k < a.filters.len()
        invariant
            a.filters@.len() == b.filters@.len(),
            k <= a.filters@.len(),
            forall|m: int| 0 <= m < k ==> (#[trigger] a.filters@[m]).0@ == b.filters@[m].0@ && filter_same(
                a.filters@[m].1,
                b.filters@[m].1,
            ),
        decreases a.filters@.len() - k,
    {
        if !same_text(a.filters[k].0.as_str(), b.filters[k].0.as_str()) || !same_filter(&a.filters[k].1, &b.filters[k].1) {
            return false;
        }
        k = k + 1;
    }
    true
}

/// The scalars under field `position` of `id`, where there are exactly three.
/// The nodes among `ids` that show a value, in order.
pub open spec fn showing(d: Document, ids: Seq<usize>) -> Seq<usize>
    decreases ids.len(),
{
    if ids.len() == 0 {
        Seq::empty()
    } else {
        let rest = showing(d, ids.drop_last());
        if crate::drops::has_shown(d, ids.last()) {
            rest.push(ids.last())
        } else {
            rest
        }
    }
}

/// Whether `r` is the position that node `id` shows: the three values shown under its field
/// `position`, or `None` where it has no such field or it shows another number of values.
pub open spec fn position_is(d: Document, id: usize, r: Option<Vec<Shown>>) -> bool {
    match field_spec(d, id, "position"@) {
        Err(_) => r is None,
        Ok(p) => {
            let ns = showing(d, d.rs()[p as int].children);
            if ns.len() == 3 {
                r matches Some(v) && v@.len() == 3 && forall|k: int|
                    0 <= k < 3 ==> crate::drops::shown_is(d, ns[k], #[trigger] v@[k])
            } else {
                r is None
            }
        },
    }
}

fn position_of(doc: &Document, id: usize) -> (r: Option<Vec<Shown>>)
    requires
        doc.wf(),
    ensures
        position_is(*doc, id, r),
{
    let pos = match field(doc, id, "position") {
        Ok(p) => p,
        Err(_) => return None,
    };
    proof {
        lemma_field_in_range(*doc, id, "position"@);
    }
    assert(doc.rs()[pos as int] == doc.records@[pos as int]@);
    let children = &doc.records[pos].children;
    let mut values: Vec<Shown> = Vec::new();
    let mut k: usize = 0;
    while k < children.len()
        invariant
            doc.wf(),
            pos < doc.records@.len(),
            children@ == doc.rs()[pos as int].children,
            k <= children@.len(),
            values@.len() == showing(*doc, children@.take(k as int)).len(),
            forall|m: int| 0 <= m < values@.len() ==> crate::drops::shown_is(
                *doc,
                showing(*doc, children@.take(k as int))[m],
                #[trigger] values@[m],
            ),
        decreases children@.len() - k,
    {
        assert(doc.rs()[pos as int].children[k as int] < doc.rs().len());
        assert(children@.take(k + 1).drop_last() =~= children@.take(k as int));
        let v = view(doc, children[k]);
        match v.value {
            Some(t) => values.push(Shown::Text(t)),
            None => match v.float {
                Some(f) => values.push(Shown::Number(f)),
                None => {},
            },
        }
        k = k + 1;
    }
    assert(children@.take(k as int) =~= children@);
    if values.len() == 3 {
        Some(values)
    } else {
        None
    }
}

/// The nodes that enclose the node whose parent link is `cursor`, nearest first, following
/// at most `fuel` links.
pub open spec fn ancestors(d: Document, cursor: Option<usize>, fuel: nat) -> Seq<usize>
    decreases fuel,
{
    if fuel == 0 {
        Seq::empty()
    } else {
        match cursor {
            None => Seq::empty(),
            Some(c) => if c < d.rs().len() {
                seq![c] + ancestors(d, d.rs()[c as int].parent, (fuel - 1) as nat)
            } else {
                Seq::empty()
            },
        }
    }
}

/// Whether `v` is what field `name` of `parent` shows, `None` where it shows nothing.
pub open spec fn field_shows(d: Document, parent: usize, name: Seq<char>, v: Option<Shown>) -> bool {
    match field_spec(d, parent, name) {
        Err(_) => v is None,
        Ok(n) => if crate::drops::has_shown(d, n) {
            v matches Some(s) && crate::drops::shown_is(d, n, s)
        } else {
            v is None
        },
    }
}

/// Whether node `id` is a scene.
pub open spec fn is_scene(d: Document, id: usize) -> bool {
    short_type_spec(d, id) == "GameSceneData"@
}

/// Whether node `id` is the player's data.
pub open spec fn is_player_data(d: Document, id: usize) -> bool {
    d.rs()[id as int].name matches Some(n) && display_spec(n) == "playerData"@
}

/// Whether node `id` holds a world position: a world object, or the player's data.
pub open spec fn is_holder(d: Document, id: usize) -> bool {
    let t = short_type_spec(d, id);
    ("WgoData"@.len() <= t.len() && t.skip(t.len() - "WgoData"@.len()) == "WgoData"@) || is_player_data(d, id)
}

/// Whether `l` and `player` describe where a node with enclosing nodes `anc` (nearest first)
/// stands: the scene of the outermost enclosing scene, the world of the nearest holder, the
/// first position that a holder shows, and whether the player's data encloses it.
pub open spec fn located(d: Document, anc: Seq<usize>, l: Location, player: bool) -> bool {
    &&& player == exists|i: int| 0 <= i < anc.len() && #[trigger] is_player_data(d, anc[i])
    &&& match l.scene {
        None => forall|i: int| 0 <= i < anc.len() ==> !#[trigger] is_scene(d, anc[i]),
        Some(v) => exists|i: int|
            0 <= i < anc.len() && #[trigger] is_scene(d, anc[i]) && field_shows(d, anc[i], "id"@, v) && forall|j: int|
                i < j < anc.len() ==> !#[trigger] is_scene(d, anc[j]),
    }
    &&& match l.world {
        None => forall|i: int| 0 <= i < anc.len() ==> !#[trigger] is_holder(d, anc[i]),
        Some(v) => exists|i: int|
            0 <= i < anc.len() && #[trigger] is_holder(d, anc[i]) && field_shows(d, anc[i], "worldId"@, v) && forall|j: int|
                0 <= j < i ==> !#[trigger] is_holder(d, anc[j]),
    }
    &&& match l.position {
        None => forall|i: int| 0 <= i < anc.len() && #[trigger] is_holder(d, anc[i]) ==> position_is(d, anc[i], None),
        Some(p) => exists|i: int|
            0 <= i < anc.len() && #[trigger] is_holder(d, anc[i]) && position_is(d, anc[i], Some(p)) && forall|j: int|
                0 <= j < i && #[trigger] is_holder(d, anc[j]) ==> position_is(d, anc[j], None),
    }
}

/// Where inventory `node` stands, from the nodes that enclose it.
fn locate(doc: &Document, node: usize) -> (r: (Location, bool))
    requires
        doc.wf(),
        node < doc.records@.len(),
    ensures
        located(*doc, ancestors(*doc, doc.rs()[node as int].parent, doc.records@.len() as nat), r.0, r.1),
{
    let ghost all = ancestors(*doc, doc.rs()[node as int].parent, doc.records@.len() as nat);
    let ghost done: Seq<usize> = Seq::empty();
    let mut location = Location { scene: None, world: None, position: None };
    let mut player = false;
    assert(doc.rs()[node as int] == doc.records@[node as int]@);
    let mut cursor = doc.records[node].parent;
    let mut fuel: usize = doc.records.len();
    assert(all =~= done + ancestors(*doc, cursor, fuel as nat));
    while fuel > 0
        invariant
            doc.wf(),
            all == done + ancestors(*doc, cursor, fuel as nat),
            forall|i: int| 0 <= i < done.len() ==> #[trigger] done[i] < doc.records@.len(),
            located(*doc, done, location, player),
        ensures
            all == done,
            located(*doc, done, location, player),
        decreases fuel,
    {
        let ghost f0 = fuel as nat;
        fuel = fuel - 1;
        let id = match cursor {
            Some(c) => c,
            None => {
                assert(all =~= done);
                break;
            },
        };
        if id >= doc.records.len() {
            assert(all =~= done);
            break;
        }
        assert(doc.rs()[id as int] == doc.records@[id as int]@);
        let ghost nd = done.push(id);
        assert(all =~= nd + ancestors(*doc, doc.rs()[id as int].parent, fuel as nat));
        assert(nd[done.len() as int] == id);
        assert forall|i: int| 0 <= i < done.len() implies nd[i] == done[i] by {}
        let t = short_type(doc, id);
        if same_text(t.as_str(), "GameSceneData") {
            let v = match shown(doc, id, "id") {
                Ok(v) => Some(v),
                Err(_) => None,
            };
            location.scene = Some(v);
            assert(is_scene(*doc, nd[done.len() as int]));
        }
        let is_player = match &doc.records[id].name {
            Some(n) => same_text(n.display().as_str(), "playerData"),
            None => false,
        };
        assert(is_player == is_player_data(*doc, id));
        if ends_with(t.as_str(), "WgoData") || is_player {
            player = player || is_player;
            if location.world.is_none() {
                let v = match shown(doc, id, "worldId") {
                    Ok(v) => Some(v),
                    Err(_) => None,
                };
                location.world = Some(v);
            }
            if location.position.is_none() {
                location.position = position_of(doc, id);
            }
            assert(is_holder(*doc, nd[done.len() as int]));
        } else {
            assert(!is_holder(*doc, nd[done.len() as int]));
        }
        proof {
            done = nd;
        }
        cursor = doc.records[id].parent;
    }
    (location, player)
}

/// Whether `f` is what item property `p` filters: for a white or black list property, the
/// item IDs and group IDs of its list where both read as texts, else `Invalid`; `Plain` for
/// any other property.
pub open spec fn filter_is(d: Document, p: usize, f: Filter) -> bool {
    let t = short_type_spec(d, p);
    if t == "WhiteListFilterSerializedItemProperty"@ || t == "BlackListFilterSerializedItemProperty"@ {
        let list = if t == "WhiteListFilterSerializedItemProperty"@ {
            "whiteList"@
        } else {
            "blackList"@
        };
        match field_spec(d, p, list) {
            Err(_) => f is Invalid,
            Ok(l) => if strings_ok(d, l, "itemsIds"@) && strings_ok(d, l, "groupsIds"@) {
                f matches Filter::Lists(ids, groups) && strings_are(d, l, "itemsIds"@, ids@) && strings_are(
                    d,
                    l,
                    "groupsIds"@,
                    groups@,
                )
            } else {
                f is Invalid
            },
        }
    } else {
        f is Plain
    }
}

/// Whether `e` is the short type and the filter of some item property of the document.
pub open spec fn property_filter(d: Document, e: (String, Filter)) -> bool {
    exists|p: usize| p < d.records@.len() && is_property(d, p) && e.0@ == short_type_spec(d, p) && filter_is(d, p, e.1)
}

/// The rule key of inventory `node`, whose item ID is `container_id`.
fn rule_key(doc: &Document, node: usize, player: bool, bag: bool, container_id: &String) -> (r: Result<RuleKey, Error>)
    requires
        doc.wf(),
    ensures
        field_spec(*doc, node, "properties"@) matches Err(m) ==> (r matches Err(e) && e.0@ == m),
        properties_spec(*doc, node) matches Err(m) ==> (r matches Err(e) && e.0@ == m),
        r matches Ok(k) ==> {
            &&& k.player == player
            &&& k.bag@ == (if bag {
                container_id@
            } else {
                Seq::<char>::empty()
            })
            &&& forall|i: int| 0 <= i < k.filters@.len() ==> property_filter(*doc, #[trigger] k.filters@[i])
        },
{
    let props = match properties(doc, node) {
        Ok(p) => p,
        Err(e) => return Err(e),
    };
    let mut filters: Vec<(String, Filter)> = Vec::new();
    let mut k: usize = 0;
    while k < props.len()
        invariant
            doc.wf(),
            forall|m: int| 0 <= m < props@.len() ==> #[trigger] props@[m] < doc.records@.len() && is_property(*doc, props@[m]),
            forall|m: int| 0 <= m < filters@.len() ==> property_filter(*doc, #[trigger] filters@[m]),
        decreases props@.len() - k,
    {
        let p = props[k];
        let t = short_type(doc, p);
        let white = same_text(t.as_str(), "WhiteListFilterSerializedItemProperty");
        let data = if white || same_text(t.as_str(), "BlackListFilterSerializedItemProperty") {
            proof {
                reveal_strlit("White");
                reveal_strlit("WhiteListFilterSerializedItemProperty");
                reveal_strlit("BlackListFilterSerializedItemProperty");
                if white {
                    assert(t@.take(5) =~= "White"@);
                } else {
                    assert(t@[0] != "White"@[0]);
                    assert(t@.take(5)[0] != "White"@[0]);
                }
            }
            let list = if starts_with(t.as_str(), "White") {
                "whiteList"
            } else {
                "blackList"
            };
            assert(list@ == (if t@ == "WhiteListFilterSerializedItemProperty"@ {
                "whiteList"@
            } else {
                "blackList"@
            }));
            match field(doc, p, list) {
                Ok(f) => match strings(doc, f, "itemsIds") {
                    Ok(ids) => match strings(doc, f, "groupsIds") {
                        Ok(groups) => Filter::Lists(ids, groups),
                        Err(_) => Filter::Invalid,
                    },
                    Err(_) => Filter::Invalid,
                },
                Err(_) => Filter::Invalid,
            }
        } else {
            Filter::Plain
        };
        assert(filter_is(*doc, p, data));
        let ghost f0 = filters@;
        filters.push((t, data));
        assert forall|m: int| 0 <= m < filters@.len() implies property_filter(*doc, #[trigger] filters@[m]) by {
            if m < f0.len() {
                assert(filters@[m] == f0[m]);
            } else {
                assert(filters@[m].0@ == short_type_spec(*doc, p));
            }
        }
        k = k + 1;
    }
    let bag_id = if bag {
        container_id.clone()
    } else {
        String::new()
    };
    assert(bag_id@ == (if bag {
        container_id@
    } else {
        Seq::<char>::empty()
    }));
    Ok(RuleKey { player, bag: bag_id, filters })
}

/// The first `k` catalog IDs that inventory `node` admits, in catalog order, and the reason
/// why the first ID among them that cannot be decided is not (the IDs after it are not
/// looked at).
pub open spec fn admitted(d: Document, items: Seq<(String, Definition)>, node: usize, k: nat) -> (Seq<Seq<char>>, Option<
    Seq<char>,
>)
    decreases k,
{
    if k == 0 || k > items.len() {
        (Seq::empty(), None)
    } else {
        let (a, e) = admitted(d, items, node, (k - 1) as nat);
        if e is Some {
            (a, e)
        } else {
            match allowed_spec(d, items, node, items[k - 1].0@) {
                Ok(true) => (a.push(items[k - 1].0@), None),
                Ok(false) => (a, None),
                Err(m) => (a, Some(m)),
            }
        }
    }
}

/// A rule as plain values: its admitted IDs and its error.
pub open spec fn rule_view(r: Rule) -> (Seq<Seq<char>>, Option<Seq<char>>) {
    (r.allowed@.map_values(|s: String| s@), match r.error {
        Some(m) => Some(m@),
        None => None,
    })
}

proof fn lemma_admitted_stays(d: Document, items: Seq<(String, Definition)>, node: usize, k: nat, n: nat)
    requires
        1 <= k <= n <= items.len(),
        admitted(d, items, node, k).1 is Some,
    ensures
        admitted(d, items, node, n) == admitted(d, items, node, k),
    decreases n - k,
{
    if n > k {
        lemma_admitted_stays(d, items, node, k, (n - 1) as nat);
    }
}

/// The rule of inventory `node`: every catalog ID it admits, up to the first that cannot be
/// decided.
fn rule_of(doc: &Document, catalog: &Catalog, node: usize) -> (r: Rule)
    requires
        doc.wf(),
    ensures
        rule_view(r) == admitted(*doc, catalog.items@, node, catalog.items@.len()),
{
    let mut allowed_ids: Vec<String> = Vec::new();
    let mut k: usize = 0;
    while k < catalog.items.len()
        invariant
            doc.wf(),
            k <= catalog.items@.len(),
            rule_view(Rule { allowed: allowed_ids, error: None }) == admitted(*doc, catalog.items@, node, k as nat),
        decreases catalog.items@.len() - k,
    {
        let ghost before = allowed_ids@;
        match allowed(doc, catalog, node, catalog.items[k].0.as_str()) {
            Ok(true) => {
                allowed_ids.push(catalog.items[k].0.clone());
                assert(allowed_ids@.map_values(|s: String| s@) =~= before.map_values(|s: String| s@).push(
                    catalog.items@[k as int].0@,
                ));
            },
            Ok(false) => {},
            Err(e) => {
                let r = Rule { allowed: allowed_ids, error: Some(e.0) };
                proof {
                    lemma_admitted_stays(*doc, catalog.items@, node, (k + 1) as nat, catalog.items@.len());
                }
                return r;
            },
        }
        k = k + 1;
    }
    Rule { allowed: allowed_ids, error: None }
}

/// Whether the entries are in strictly ascending node order, each node within `n`.
pub open spec fn ordered(entries: Seq<Registered>, n: nat) -> bool {
    &&& forall|a: int, b: int| 0 <= a < b < entries.len() ==> entries[a].node < entries[b].node
    &&& forall|a: int| 0 <= a < entries.len() ==> (#[trigger] entries[a]).node < n
}

proof fn lemma_ordered_len(entries: Seq<Registered>, n: nat)
    requires
        ordered(entries, n),
    ensures
        entries.len() <= n,
    decreases entries.len(),
{
    if entries.len() > 0 {
        let e = entries.drop_last();
        assert(ordered(e, n));
        lemma_ordered_len(e, n);
        lemma_ordered_floor(entries, entries.len() - 1);
    }
}

proof fn lemma_ordered_floor(entries: Seq<Registered>, k: int)
    requires
        forall|a: int, b: int| 0 <= a < b < entries.len() ==> entries[a].node < entries[b].node,
        0 <= k < entries.len(),
    ensures
        entries[k].node >= k,
    decreases k,
{
    if k > 0 {
        lemma_ordered_floor(entries, k - 1);
    }
}

/// The nodes of the registered inventories that are no longer live, in order.
pub open spec fn gone(d: Document, es: Seq<Registered>) -> Seq<usize>
    decreases es.len(),
{
    if es.len() == 0 {
        Seq::empty()
    } else {
        let rest = gone(d, es.drop_last());
        if crate::workspace::active_spec(d.rs(), d.roots@, es.last().node) is Err {
            rest.push(es.last().node)
        } else {
            rest
        }
    }
}

impl Cache {
    pub open spec fn wf(&self, n: nat) -> bool {
        &&& ordered(self.entries@, n)
        &&& forall|a: int| 0 <= a < self.entries@.len() ==> (#[trigger] self.entries@[a]).rule < self.rules@.len()
        &&& self.keys@.len() == self.rules@.len()
        &&& forall|a: int, b: int| 0 <= a < b < self.keys@.len() ==> !key_same(self.keys@[a], self.keys@[b])
    }

    /// Position of the entry for `node`, or where it would go.
    fn find(&self, node: usize) -> (r: (bool, usize))
        requires
            ordered(self.entries@, usize::MAX as nat + 1),
        ensures
            r.1 <= self.entries@.len(),
            forall|a: int| 0 <= a < r.1 ==> self.entries@[a].node < node,
            r.0 ==> r.1 < self.entries@.len() && self.entries@[r.1 as int].node == node,
            !r.0 ==> forall|a: int| r.1 <= a < self.entries@.len() ==> self.entries@[a].node > node,
    {
        let mut k: usize = 0;
        while k < self.entries.len()
            invariant
                ordered(self.entries@, usize::MAX as nat + 1),
                k <= self.entries@.len(),
                forall|a: int| 0 <= a < k ==> self.entries@[a].node < node,
            decreases self.entries@.len() - k,
        {
            if self.entries[k].node == node {
                return (true, k);
            }
            if self.entries[k].node > node {
                return (false, k);
            }
            k = k + 1;
        }
        (false, k)
    }

    /// Whether an inventory is registered for `node`.
    pub fn has(&self, node: usize) -> (r: bool)
        requires
            ordered(self.entries@, usize::MAX as nat + 1),
        ensures
            r == exists|a: int| 0 <= a < self.entries@.len() && (#[trigger] self.entries@[a]).node == node,
    {
        let (hit, k) = self.find(node);
        if !hit {
            assert forall|a: int| 0 <= a < self.entries@.len() implies (#[trigger] self.entries@[a]).node != node by {
                if a >= k {
                } 
            }
        }
        hit
    }

    /// Registers inventory `node`, sharing the rule of any inventory with the same key.
    fn register(&mut self, doc: &Document, catalog: &Catalog, node: usize, kind: String, title: String) -> (r: Result<(), Error>)
        requires
            doc.wf(),
            old(self).wf(doc.records@.len() as nat),
            node < doc.records@.len(),
        ensures
            final(self).wf(doc.records@.len() as nat),
            final(self).rules@.len() >= old(self).rules@.len(),
            final(self).rules@.len() <= old(self).rules@.len() + 1,
            final(self).rules@.take(old(self).rules@.len() as int) == old(self).rules@,
            r is Ok ==> exists|a: int| 0 <= a < final(self).entries@.len() && (#[trigger] final(self).entries@[a]).node == node,
            r is Ok && !(exists|a: int| 0 <= a < old(self).entries@.len() && (#[trigger] old(self).entries@[a]).node == node)
                ==> final(self).entries@.len() == old(self).entries@.len() + 1,
            r is Err ==> final(self).entries@ == old(self).entries@,
            r is Err ==> *final(self) == *old(self),
            value_spec(*doc, node, "id"@) matches Err(m) ==> (r matches Err(e) && e.0@ == m),
            value_spec(*doc, node, "id"@) is Ok ==> (properties_spec(*doc, node) matches Err(m) ==> (r matches Err(e) && e.0@ == m)),
            r is Ok ==> exists|a: int|
                0 <= a < final(self).entries@.len() && (#[trigger] final(self).entries@[a]).node == node && registered_as(
                    *doc,
                    catalog.items@,
                    old(self).rules@.len(),
                    final(self).rules@,
                    final(self).entries@[a],
                    kind,
                    title,
                ),
            forall|a: int| 0 <= a < old(self).entries@.len() ==> exists|b: int| 0 <= b < final(self).entries@.len() && (#[trigger] final(self).entries@[b]).node == (#[trigger] old(self).entries@[a]).node,
    {
        let (location, player) = locate(doc, node);
        let container_id = match value(doc, node, "id") {
            Ok(v) => v,
            Err(e) => return Err(e),
        };
        let bag = bag_in(catalog, container_id.as_str());
        assert(value_spec(*doc, node, "id"@) is Ok);
        let key = match rule_key(doc, node, player, bag, &container_id) {
            Ok(k) => k,
            Err(e) => return Err(e),
        };
        let mut rule = self.keys.len();
        let mut k: usize = 0;
        while k < self.keys.len() && rule == self.keys.len()
            invariant
                k <= self.keys@.len(),
                rule <= self.keys@.len(),
                rule < self.keys@.len() ==> key_same(self.keys@[rule as int], key),
                rule == self.keys@.len() ==> forall|m: int| 0 <= m < k ==> !key_same(#[trigger] self.keys@[m], key),
            decreases self.keys@.len() - k,
        {
            if same_key(&self.keys[k], &key) {
                rule = k;
            }
            k = k + 1;
        }
        if rule == self.keys.len() {
            let made = rule_of(doc, catalog, node);
            self.rules.push(made);
            self.keys.push(key);
        }
        assert(self.rules@.take(old(self).rules@.len() as int) =~= old(self).rules@);
        let entry = Registered { node, kind, title, location, rule };
        let ghost n = doc.records@.len() as nat;
        let ghost before = self.entries@;
        proof {
            lemma_ordered_len(self.entries@, n);
        }
        let (hit, k) = self.find(node);
        if hit {
            assert(exists|a: int| 0 <= a < before.len() && (#[trigger] before[a]).node == node);
            self.entries.set(k, entry);
            assert forall|a: int| 0 <= a < before.len() implies exists|b: int| 0 <= b < self.entries@.len() && (#[trigger] self.entries@[b]).node == (#[trigger] before[a]).node by {
                assert(self.entries@[a].node == before[a].node);
            }
        } else {
            self.entries.insert(k, entry);
            assert forall|a: int| 0 <= a < before.len() implies exists|b: int| 0 <= b < self.entries@.len() && (#[trigger] self.entries@[b]).node == (#[trigger] before[a]).node by {
                if a < k {
                    assert(self.entries@[a].node == before[a].node);
                } else {
                    assert(self.entries@[a + 1].node == before[a].node);
                }
            }
        }
        assert(self.entries@[k as int].node == node);
        assert(self.entries@[k as int] == entry);
        assert(registered_as(*doc, catalog.items@, old(self).rules@.len(), self.rules@, entry, entry.kind, entry.title));
        Ok(())
    }
}

/// Whether entry `e` registers its inventory with `kind` and `title`, at the place its
/// ancestors show, under one of `rules`: where the registration added a rule (beyond the
/// first `n`), the new one, which holds what `admitted` gives for the whole catalog.
pub open spec fn registered_as(
    d: Document,
    items: Seq<(String, Definition)>,
    n: nat,
    rules: Seq<Rule>,
    e: Registered,
    kind: String,
    title: String,
) -> bool {
    &&& e.kind == kind
    &&& e.title == title
    &&& exists|p: bool| located(d, ancestors(d, d.rs()[e.node as int].parent, d.records@.len() as nat), e.location, p)
    &&& e.rule < rules.len()
    &&& rules.len() > n ==> e.rule == n && rule_view(rules[n as int]) == admitted(d, items, e.node, items.len())
}

/// How many registered inventories in `v` have a kind of rank below `p`.
pub open spec fn rank_below(v: Seq<Registered>, p: int) -> nat
    decreases v.len(),
{
    if v.len() == 0 {
        0
    } else {
        rank_below(v.drop_last(), p) + if rank(v.last().kind@) < p {
            1nat
        } else {
            0nat
        }
    }
}

/// How many registered inventories in `v` have a kind of rank `p`.
pub open spec fn rank_at(v: Seq<Registered>, p: int) -> nat
    decreases v.len(),
{
    if v.len() == 0 {
        0
    } else {
        rank_at(v.drop_last(), p) + if rank(v.last().kind@) == p {
            1nat
        } else {
            0nat
        }
    }
}

proof fn lemma_rank_count_step(v: Seq<Registered>, p: int)
    ensures
        rank_below(v, p + 1) == rank_below(v, p) + rank_at(v, p),
    decreases v.len(),
{
    if v.len() > 0 {
        lemma_rank_count_step(v.drop_last(), p);
    }
}

proof fn lemma_rank_count_none(v: Seq<Registered>)
    ensures
        rank_below(v, 0) == 0,
    decreases v.len(),
{
    if v.len() > 0 {
        lemma_rank_count_none(v.drop_last());
    }
}

proof fn lemma_rank_count_all(v: Seq<Registered>)
    ensures
        rank_below(v, 4) == v.len(),
    decreases v.len(),
{
    if v.len() > 0 {
        lemma_rank_count_all(v.drop_last());
    }
}

/// Whether `v` is the durability that some durability property of the document shows.
pub open spec fn durability_shown(d: Document, v: Shown) -> bool {
    exists|p: usize|
        p < d.records@.len() && is_property(d, p) && short_type_spec(d, p) == "DurabilitySerializedItemProperty"@
            && #[trigger] field_shows(d, p, "durability"@, Some(v))
}

/// Whether `s` describes the item in slot node `slot`: the node that the slot resolves to,
/// with its ID and count, and a durability that a durability property shows.
pub open spec fn slot_is(d: Document, slot: usize, s: Slot) -> bool {
    &&& s.node == slot
    &&& resolve_spec(d, slot) matches Ok(i) && {
        &&& value_spec(d, i, "id"@) matches Ok(t) && s.id@ == t
        &&& number_spec(d, i, "count"@) matches Ok(c) && s.count == c as i32
    }
    &&& s.durability matches Some(v) ==> durability_shown(d, v)
}

/// The durability that item `item` shows, where it has a durability property.
fn durability_of(doc: &Document, item: usize) -> (r: Result<Option<Shown>, Error>)
    requires
        doc.wf(),
    ensures
        field_spec(*doc, item, "properties"@) matches Err(m) ==> (r matches Err(e) && e.0@ == m),
        r matches Ok(Some(v)) ==> durability_shown(*doc, v),
{
    let props = match properties(doc, item) {
        Ok(p) => p,
        Err(e) => return Err(e),
    };
    let mut k: usize = 0;
    while k < props.len()
        invariant
            doc.wf(),
            field_spec(*doc, item, "properties"@) is Ok,
            forall|m: int| 0 <= m < props@.len() ==> #[trigger] props@[m] < doc.records@.len() && is_property(*doc, props@[m]),
        decreases props@.len() - k,
    {
        if same_text(short_type(doc, props[k]).as_str(), "DurabilitySerializedItemProperty") {
            let v = match shown(doc, props[k], "durability") {
                Ok(v) => Some(v),
                Err(_) => None,
            };
            assert(field_shows(*doc, props@[k as int], "durability"@, v));
            return Ok(v);
        }
        k = k + 1;
    }
    Ok(None)
}

/// Inventory `e` with its current capacity and slots.
fn inventory_view(doc: &Document, e: &Registered) -> (r: Result<InventoryView, Error>)
    requires
        doc.wf(),
    ensures
        contents_spec(*doc, e.node) matches Err(m) ==> (r matches Err(x) && x.0@ == m),
        r matches Ok(v) ==> {
            &&& v.node == e.node && v.rule == e.rule && v.kind@ == e.kind@ && v.title@ == e.title@
            &&& number_spec(*doc, e.node, "inventorySize"@) matches Ok(c) && v.capacity == c as i32
            &&& contents_spec(*doc, e.node) matches Ok(a) && {
                let slots = doc.rs()[a as int].children;
                &&& v.items@.len() == slots.len()
                &&& forall|k: int| 0 <= k < slots.len() ==> slot_is(*doc, slots[k], #[trigger] v.items@[k])
            }
        },
{
    let array = match contents(doc, e.node) {
        Ok(a) => a,
        Err(err) => return Err(err),
    };
    assert(doc.rs()[array as int] == doc.records@[array as int]@);
    let children = &doc.records[array].children;
    let mut items: Vec<Slot> = Vec::new();
    let mut k: usize = 0;
    while k < children.len()
        invariant
            doc.wf(),
            array < doc.records@.len(),
            children@ == doc.rs()[array as int].children,
            contents_spec(*doc, e.node) == Ok::<usize, Seq<char>>(array),
            k <= children@.len(),
            items@.len() == k,
            forall|m: int| 0 <= m < k ==> slot_is(*doc, children@[m], #[trigger] items@[m]),
        decreases children@.len() - k,
    {
        let slot = children[k];
        let item = match resolve(doc, slot) {
            Ok(i) => i,
            Err(err) => return Err(err),
        };
        let durability = match durability_of(doc, item) {
            Ok(d) => d,
            Err(err) => return Err(err),
        };
        let id = match value(doc, item, "id") {
            Ok(v) => v,
            Err(err) => return Err(err),
        };
        let count = match number(doc, item, "count") {
            Ok(c) => c,
            Err(err) => return Err(err),
        };
        let s = Slot { node: slot, id, count, durability };
        assert(slot_is(*doc, slot, s));
        items.push(s);
        k = k + 1;
    }
    let capacity = match number(doc, e.node, "inventorySize") {
        Ok(c) => c,
        Err(err) => return Err(err),
    };
    Ok(
        InventoryView {
            node: e.node,
            kind: owned(e.kind.as_str()),
            title: owned(e.title.as_str()),
            location: e.location.clone(),
            rule: e.rule,
            capacity,
            items,
        },
    )
}

impl Cache {
    /// Discovers every supported inventory and the rules they follow.
    pub fn build(doc: &Document, catalog: &Catalog) -> (r: Result<Cache, Error>)
        requires
            doc.wf(),
        ensures
            r matches Ok(c) ==> c.wf(doc.records@.len() as nat),
    {
        let found = match containers(doc, catalog) {
            Ok(v) => v,
            Err(e) => return Err(e),
        };
        let mut cache = Cache { entries: Vec::new(), rules: Vec::new(), keys: Vec::new() };
        let mut k: usize = 0;
        while k < found.len()
            invariant
                doc.wf(),
                cache.wf(doc.records@.len() as nat),
                forall|a: int| 0 <= a < found@.len() ==> (#[trigger] found@[a]).node < doc.records@.len(),
            decreases found@.len() - k,
        {
            let f = &found[k];
            if let Err(e) = cache.register(doc, catalog, f.node, f.kind.clone(), f.title.clone()) {
                return Err(e);
            }
            k = k + 1;
        }
        Ok(cache)
    }

    /// Every inventory with its contents, player first, then bags, chests and other world
    /// objects (in node order within a kind); and every rule.
    pub fn snapshot(&self, doc: &Document) -> (r: Result<Snapshot, Error>)
        requires
            doc.wf(),
        ensures
            r matches Ok(s) ==> s.inventories@.len() == self.entries@.len() && s.rules@.len() == self.rules@.len()
                && forall|a: int, b: int| 0 <= a < b < s.inventories@.len() ==> rank(s.inventories@[a].kind@)
                <= rank(s.inventories@[b].kind@),
    {
        let mut inventories: Vec<InventoryView> = Vec::new();
        let mut pass: u8 = 0;
        let ghost all = self.entries@;
        proof {
            lemma_rank_count_none(all);
        }
        while pass < 4
            invariant
                doc.wf(),
                all == self.entries@,
                pass <= 4,
                inventories@.len() == rank_below(all, pass as int),
                forall|a: int, b: int| 0 <= a < b < inventories@.len() ==> rank(inventories@[a].kind@) <= rank(
                    inventories@[b].kind@,
                ),
                forall|a: int| 0 <= a < inventories@.len() ==> rank(#[trigger] inventories@[a].kind@) < pass,
            decreases 4 - pass,
        {
            let mut k: usize = 0;
            while k < self.entries.len()
                invariant
                    doc.wf(),
                    all == self.entries@,
                    pass < 4,
                    k <= all.len(),
                    inventories@.len() == rank_below(all, pass as int) + rank_at(all.take(k as int), pass as int),
                    forall|a: int, b: int| 0 <= a < b < inventories@.len() ==> rank(inventories@[a].kind@) <= rank(
                        inventories@[b].kind@,
                    ),
                    forall|a: int| 0 <= a < inventories@.len() ==> rank(#[trigger] inventories@[a].kind@) <= pass,
                decreases all.len() - k,
            {
                assert(all.take(k + 1).drop_last() =~= all.take(k as int));
                let e = &self.entries[k];
                if kind_rank(e.kind.as_str()) == pass {
                    let v = match inventory_view(doc, e) {
                        Ok(v) => v,
                        Err(err) => return Err(err),
                    };
                    assert(v.kind@ == e.kind@);
                    inventories.push(v);
                }
                k = k + 1;
            }
            assert(all.take(all.len() as int) =~= all);
            proof {
                lemma_rank_count_step(all, pass as int);
            }
            pass = pass + 1;
        }
        proof {
            lemma_rank_count_all(all);
        }
        let mut rules: Vec<Rule> = Vec::new();
        let mut k: usize = 0;
        while k < self.rules.len()
            invariant
                k <= self.rules@.len(),
                rules@.len() == k,
            decreases self.rules@.len() - k,
        {
            rules.push(self.rules[k].clone());
            k = k + 1;
        }
        Ok(Snapshot { inventories, rules })
    }

    /// Refuses an inventory that was not discovered, or whose node is no longer live.
    pub fn check_container(&self, doc: &Document, container: usize) -> (r: Result<(), Error>)
        requires
            self.wf(doc.records@.len() as nat),
        ensures
            r is Ok ==> exists|a: int| 0 <= a < self.entries@.len() && (#[trigger] self.entries@[a]).node == container,
            !(exists|a: int| 0 <= a < self.entries@.len() && (#[trigger] self.entries@[a]).node == container) ==> (r matches Err(e)
                && e.0@ == "Unsupported inventory"@),
            (exists|a: int| 0 <= a < self.entries@.len() && (#[trigger] self.entries@[a]).node == container) ==> match crate::workspace::active_spec(
                doc.rs(),
                doc.roots@,
                container,
            ) {
                Ok(()) => r is Ok,
                Err(m) => r matches Err(e) && e.0@ == m,
            },
    {
        if !self.has(container) {
            return Err(failure("Unsupported inventory"));
        }
        crate::workspace::active(doc, container)
    }

    /// Brings the cache up to date after an edit of the inventories `touched`: forgets those
    /// no longer live, registers bags newly put into touched ones, and shows the touched and
    /// new inventories anew, with the rules first needed now.
    pub fn updates(&mut self, doc: &Document, catalog: &Catalog, touched: &Vec<usize>) -> (r: Result<Updates, Error>)
        requires
            doc.wf(),
            old(self).wf(doc.records@.len() as nat),
        ensures
            final(self).wf(doc.records@.len() as nat),
            r matches Ok(u) ==> u.removed@ == gone(*doc, old(self).entries@),
            final(self).rules@.len() >= old(self).rules@.len(),
            final(self).rules@.take(old(self).rules@.len() as int) == old(self).rules@,
    {
        let first_rule = self.rules.len();
        let ghost r0 = self.rules@;
        assert(r0.take(r0.len() as int) =~= r0);
        let mut removed: Vec<usize> = Vec::new();
        let mut kept: Vec<Registered> = Vec::new();
        let ghost n = doc.records@.len() as nat;
        let mut entries: Vec<Registered> = Vec::new();
        std::mem::swap(&mut entries, &mut self.entries);
        let ghost es = entries@;
        let mut k: usize = 0;
        while k < entries.len()
            invariant
                doc.wf(),
                n == doc.records@.len(),
                es == entries@,
                ordered(es, n),
                forall|a: int| 0 <= a < es.len() ==> (#[trigger] es[a]).rule < self.rules@.len(),
                k <= es.len(),
                ordered(kept@, n),
                forall|a: int| 0 <= a < kept@.len() ==> (#[trigger] kept@[a]).rule < self.rules@.len(),
                forall|a: int| 0 <= a < kept@.len() ==> exists|b: int| 0 <= b < k && (#[trigger] kept@[a]).node == es[b].node,
                removed@ == gone(*doc, es.take(k as int)),
            decreases es.len() - k,
        {
            assert(es.take(k + 1).drop_last() =~= es.take(k as int));
            let node = entries[k].node;
            if crate::workspace::active(doc, node).is_err() {
                removed.push(node);
            } else {
                let e = &entries[k];
                kept.push(Registered {
                    node: e.node,
                    kind: e.kind.clone(),
                    title: e.title.clone(),
                    location: e.location.clone(),
                    rule: e.rule,
                });
                assert forall|a: int, b: int| 0 <= a < b < kept@.len() implies kept@[a].node < kept@[b].node by {
                    if b == kept@.len() - 1 {
                        let c = choose|c: int| 0 <= c < k && kept@[a].node == es[c].node;
                    }
                }
            }
            k = k + 1;
        }
        assert(es.take(es.len() as int) =~= es);
        self.entries = kept;
        let mut updated: Vec<usize> = Vec::new();
        let mut pending: Vec<usize> = Vec::new();
        let mut k: usize = 0;
        while k < touched.len()
            invariant
                ordered(self.entries@, n),
            decreases touched@.len() - k,
        {
            let c = touched[k];
            if !crate::workspace::contains(&updated, c) {
                updated.push(c);
            }
            if self.has(c) {
                pending.push(c);
            }
            k = k + 1;
        }
        proof {
            lemma_ordered_len(self.entries@, n);
        }
        while pending.len() > 0
            invariant
                doc.wf(),
                n == doc.records@.len(),
                self.wf(n),
                self.rules@.len() >= first_rule,
                first_rule == r0.len(),
                r0 == old(self).rules@,
                self.rules@.take(r0.len() as int) == r0,
            decreases n - self.entries@.len(), pending@.len(),
        {
            proof {
                lemma_ordered_len(self.entries@, n);
            }
            let container = pending.pop().unwrap();
            let ghost p0 = pending@.len();
            let array = match contents(doc, container) {
                Ok(a) => a,
                Err(e) => return Err(e),
            };
            assert(doc.rs()[array as int] == doc.records@[array as int]@);
            let children = &doc.records[array].children;
            let ghost len0 = self.entries@.len();
            let mut m: usize = 0;
            while m < children.len()
                invariant
                    doc.wf(),
                    n == doc.records@.len(),
                    self.wf(n),
                    self.rules@.len() >= first_rule,
                    first_rule == r0.len(),
                    r0 == old(self).rules@,
                    self.rules@.take(r0.len() as int) == r0,
                    array < n,
                    children@ == doc.rs()[array as int].children,
                    m <= children@.len(),
                    self.entries@.len() >= len0,
                    pending@.len() >= p0,
                    self.entries@.len() - len0 == pending@.len() - p0,
                decreases children@.len() - m,
            {
                let item = match resolve(doc, children[m]) {
                    Ok(i) => i,
                    Err(e) => return Err(e),
                };
                proof {
                    lemma_resolve_range(*doc, children@[m as int]);
                }
                let id = match value(doc, item, "id") {
                    Ok(v) => v,
                    Err(e) => return Err(e),
                };
                if bag_in(catalog, id.as_str()) && !self.has(item) {
                    let ghost before = self.rules@;
                    let res = self.register(doc, catalog, item, owned("Bag"), id);
                    proof {
                        assert(self.rules@.take(r0.len() as int) =~= before.take(r0.len() as int));
                    }
                    if let Err(e) = res {
                        return Err(e);
                    }
                    updated.push(item);
                    pending.push(item);
                }
                m = m + 1;
            }
            proof {
                lemma_ordered_len(self.entries@, n);
            }
        }
        let mut upsert: Vec<InventoryView> = Vec::new();
        let mut k: usize = 0;
        while k < updated.len()
            invariant
                doc.wf(),
                n == doc.records@.len(),
                self.wf(n),
                self.rules@.len() >= r0.len(),
                r0 == old(self).rules@,
                self.rules@.take(r0.len() as int) == r0,
            decreases updated@.len() - k,
        {
            let (hit, at) = self.find(updated[k]);
            if hit {
                match inventory_view(doc, &self.entries[at]) {
                    Ok(v) => upsert.push(v),
                    Err(e) => return Err(e),
                }
            }
            k = k + 1;
        }
        let mut rules: Vec<(usize, Rule)> = Vec::new();
        let mut k: usize = first_rule;
        while k < self.rules.len()
            invariant
                first_rule <= k <= self.rules@.len(),
            decreases self.rules@.len() - k,
        {
            rules.push((k, self.rules[k].clone()));
            k = k + 1;
        }
        Ok(Updates { upsert, removed, rules })
    }
}

/// The identity that an edit would create: the GUID of a put, unless the put changes an
/// existing item in place (the same item, or one of its family).
pub fn new_guid(doc: &Document, catalog: &Catalog, edit: &Edit) -> (r: Result<Option<String>, Error>)
    requires
        doc.wf(),
    ensures
        match edit {
            Edit::Put { node: None, guid, .. } => r matches Ok(Some(g)) && g@ == guid@,
            Edit::Put { node: Some(_), guid, .. } => r matches Ok(Some(g)) ==> g@ == guid@,
            _ => r == Ok::<Option<String>, Error>(None),
        },
{
    match edit {
        Edit::Put { node, item, guid, .. } => {
            if let Some(node) = node {
                let target = match resolve(doc, *node) {
                    Ok(t) => t,
                    Err(e) => return Err(e),
                };
                let old_id = match value(doc, target, "id") {
                    Ok(v) => v,
                    Err(e) => return Err(e),
                };
                let kin = match (catalog.lookup(old_id.as_str()), catalog.lookup(item.as_str())) {
                    (Some(a), Some(b)) => same_family(catalog, a, b),
                    _ => false,
                };
                if same_text(old_id.as_str(), item.as_str()) || kin {
                    return Ok(None);
                }
            }
            Ok(Some(owned(guid.as_str())))
        },
        _ => Ok(None),
    }
}

/// A cache sound for a document stays sound while records are only added.
pub proof fn lemma_cache_grow(c: &Cache, n: nat, m: nat)
    requires
        c.wf(n),
        n <= m,
    ensures
        c.wf(m),
{
}

/// A text with ASCII capitals lowered.
pub fn ascii_lowered(s: &str) -> (r: String)
    ensures
        r@.len() == s@.len(),
        forall|i: int| 0 <= i < s@.len() ==> r@[i] as int == lower_code(#[trigger] s@[i]),
{
    let cs = chars_of(s);
    let mut out = String::new();
    let mut k: usize = 0;
    while k < cs.len()
        invariant
            cs@ == s@,
            k <= cs@.len(),
            out@.len() == k,
            forall|i: int| 0 <= i < k ==> out@[i] as int == lower_code(#[trigger] s@[i]),
        decreases cs@.len() - k,
    {
        let c = cs[k];
        let l = if 'A' <= c && c <= 'Z' {
            crate::strings::scalar_char(code_of(c) + 32)
        } else {
            c
        };
        crate::text::push_char(&mut out, l);
        k = k + 1;
    }
    out
}

} // verus!
