//! Structural edits on an open document: node liveness, scalar construction and the
//! operations that a transaction applies in order.
use crate::text::decimal;
use crate::service::{replacement, replacement_spec, refusal_text, utf8_len, FloatBits};
use crate::strings::{display_spec, replace_spec, units_bytes, utf16_encode};
use crate::wire::{
    indices_ok, base_tag, failure, models, spec_base_tag, Document, Error, Payload, PayloadModel, Record,
    RecordModel, StringModel, TypeInfo, WireString,
};
use crate::encode::spec_encode;
use crate::endian::{i32_le, le_value, lemma_le_value_bound, lemma_pow_values, push_i32, read_unsigned, signed};
use std::collections::HashMap;
use vstd::std_specs::hash::{axiom_spec_hash_map_iter, spec_hash_map_iter};
use vstd::std_specs::iter::IteratorSpec;
use vstd::prelude::*;

verus! {

broadcast use {vstd::std_specs::hash::group_hash_axioms, vstd::string::group_string_axioms};

/// Tags that open a container: reference nodes, structs and arrays.
pub open spec fn opens(tag: u8) -> bool {
    (1 <= tag <= 4) || tag == 6
}

/// The deepest ancestor chain a live node may have.
pub open spec fn depth_limit() -> nat {
    256
}

/// Walks from `cursor` towards the root: every step must be listed by its parent, the chain
/// must end at a root, and it may be at most `depth_limit()` steps long (one less for a
/// container whose tag is `tag`).
pub open spec fn climb(rs: Seq<RecordModel>, roots: Seq<usize>, tag: u8, cursor: usize, depth: nat) -> Result<
    (),
    Seq<char>,
>
    decreases 257 - depth,
{
    if cursor >= rs.len() {
        Err("Invalid parent"@)
    } else {
        match rs[cursor as int].parent {
            Some(p) => if p >= rs.len() {
                Err("Invalid parent"@)
            } else if !rs[p as int].children.contains(cursor) {
                Err("Node was removed"@)
            } else if depth + 1 > depth_limit() || (depth + 1 == depth_limit() && opens(tag)) {
                Err("Hierarchy depth exceeded"@)
            } else {
                climb(rs, roots, tag, p, depth + 1)
            },
            None => if roots.contains(cursor) {
                Ok(())
            } else {
                Err("Node was removed"@)
            },
        }
    }
}

/// Whether node `id` is attached to the live tree, or why not.
pub open spec fn active_spec(rs: Seq<RecordModel>, roots: Seq<usize>, id: usize) -> Result<(), Seq<char>> {
    if id >= rs.len() {
        Err("Unknown node"@)
    } else {
        climb(rs, roots, rs[id as int].tag, id, 0)
    }
}

pub fn contains(v: &Vec<usize>, x: usize) -> (b: bool)
    ensures
        b == v@.contains(x),
{
    let mut i: usize = 0;
    while i < v.len()
        invariant
            i <= v@.len(),
            forall|k: int| 0 <= k < i ==> v@[k] != x,
        decreases v@.len() - i,
    {
        if v[i] == x {
            assert(v@[i as int] == x);
            return true;
        }
        i = i + 1;
    }
    false
}

fn opens_tag(tag: u8) -> (b: bool)
    ensures
        b == opens(tag),
{
    (1 <= tag && tag <= 4) || tag == 6
}

/// Checks that node `id` is live: listed by each ancestor up to a root, within the depth limit.
pub fn active(doc: &Document, id: usize) -> (r: Result<(), Error>)
    ensures
        match active_spec(doc.rs(), doc.roots@, id) {
            Ok(()) => r is Ok,
            Err(m) => r matches Err(e) && e.0@ == m,
        },
{
    if id >= doc.records.len() {
        return Err(failure("Unknown node"));
    }
    let tag = doc.records[id].tag;
    assert(doc.rs()[id as int].tag == tag);
    let mut cursor = id;
    let mut depth: usize = 0;
    loop
        invariant
            cursor < doc.records@.len(),
            depth <= 256,
            active_spec(doc.rs(), doc.roots@, id) == climb(doc.rs(), doc.roots@, tag, cursor, depth as nat),
        decreases 257 - depth,
    {
        let r = &doc.records[cursor];
        assert(doc.rs()[cursor as int] == r@);
        match r.parent {
            Some(p) => {
                if p >= doc.records.len() {
                    return Err(failure("Invalid parent"));
                }
                assert(doc.rs()[p as int].children == doc.records@[p as int].children@);
                if !contains(&doc.records[p].children, cursor) {
                    return Err(failure("Node was removed"));
                }
                depth = depth + 1;
                if depth > 256 || (depth == 256 && opens_tag(tag)) {
                    return Err(failure("Hierarchy depth exceeded"));
                }
                cursor = p;
            },
            None => {
                if !contains(&doc.roots, cursor) {
                    return Err(failure("Node was removed"));
                }
                return Ok(());
            },
        }
    }
}

/// The object an internal reference points at, read from its four payload bytes.
pub open spec fn reference_spec(r: RecordModel) -> Option<i32> {
    match r.payload {
        PayloadModel::Fixed(b) => if spec_base_tag(r.tag) == 10 && b.len() == 4 {
            Some(signed(le_value(b), 32) as i32)
        } else {
            None
        },
        _ => None,
    }
}

/// The object a node declares.
pub open spec fn object_spec(r: RecordModel) -> Option<i32> {
    match r.payload {
        PayloadModel::Node { object, .. } => object,
        _ => None,
    }
}

pub fn reference(r: &Record) -> (o: Option<i32>)
    ensures
        o == reference_spec(r@),
{
    match &r.payload {
        Payload::Fixed(b) => {
            if base_tag(r.tag) == 10 && b.len() == 4 {
                let u = read_unsigned(b.as_slice(), 0, 4);
                proof {
                    lemma_pow_values();
                    assert(b@.subrange(0, 4) =~= b@);
                    lemma_le_value_bound(b@);
                }
                let v: i32 = if u >= 2147483648 {
                    ((u as i64) - 4294967296) as i32
                } else {
                    u as i32
                };
                Some(v)
            } else {
                None
            }
        },
        _ => None,
    }
}

pub fn object(r: &Record) -> (o: Option<i32>)
    ensures
        o == object_spec(r@),
{
    match &r.payload {
        Payload::Node { object, .. } => *object,
        _ => None,
    }
}

/// Where node `id` leads: the node an internal reference points at, or `id` itself.
pub open spec fn resolve_spec(d: Document, id: usize) -> Result<usize, Seq<char>> {
    match active_spec(d.rs(), d.roots@, id) {
        Err(m) => Err(m),
        Ok(()) => {
            let r = d.rs()[id as int];
            if spec_base_tag(r.tag) == 10 && r.payload is Fixed {
                match reference_spec(r) {
                    Some(o) => if d.objects@.contains_key(o) {
                        Ok(d.objects@[o])
                    } else {
                        Err("Unresolved reference"@)
                    },
                    None => Err("Unresolved reference"@),
                }
            } else {
                Ok(id)
            }
        },
    }
}

/// Follows an internal reference to the node that declares its object.
pub fn resolve(doc: &Document, id: usize) -> (r: Result<usize, Error>)
    ensures
        match resolve_spec(*doc, id) {
            Ok(n) => r == Ok::<usize, Error>(n),
            Err(m) => r matches Err(e) && e.0@ == m,
        },
{
    match active(doc, id) {
        Ok(()) => {},
        Err(e) => return Err(e),
    }
    let r = &doc.records[id];
    assert(doc.rs()[id as int] == r@);
    if base_tag(r.tag) == 10 {
        if let Payload::Fixed(_) = &r.payload {
            return match reference(r) {
                Some(o) => match doc.objects.get(&o) {
                    Some(n) => Ok(*n),
                    None => Err(failure("Unresolved reference")),
                },
                None => Err(failure("Unresolved reference")),
            };
        }
    }
    Ok(id)
}

/// The wide (UTF-16) wire string holding `value`.
pub open spec fn text_spec(value: Seq<char>) -> StringModel {
    StringModel { wide: true, bytes: units_bytes(utf16_encode(value)) }
}

pub fn text(value: &str) -> (w: WireString)
    ensures
        w@ == text_spec(value@),
{
    let empty = WireString { wide: true, bytes: Vec::new() };
    let w = empty.replace(value);
    assert(w@ == replace_spec(empty@, value@));
    w
}

/// Base tag of an insertable scalar kind.
pub open spec fn kind_base(kind: Seq<char>) -> Option<u8> {
    if kind == "i8"@ {
        Some(16)
    } else if kind == "u8"@ {
        Some(18)
    } else if kind == "i16"@ {
        Some(20)
    } else if kind == "u16"@ {
        Some(22)
    } else if kind == "i32"@ {
        Some(24)
    } else if kind == "u32"@ {
        Some(26)
    } else if kind == "i64"@ {
        Some(28)
    } else if kind == "u64"@ {
        Some(30)
    } else if kind == "f32"@ {
        Some(32)
    } else if kind == "f64"@ {
        Some(34)
    } else if kind == "string"@ {
        Some(40)
    } else if kind == "bool"@ {
        Some(44)
    } else if kind == "null"@ {
        Some(46)
    } else if kind == "array"@ {
        Some(6)
    } else {
        None
    }
}

/// The kind `string` is the text token.
pub proof fn lemma_string_kind()
    ensures
        kind_base("string"@) == Some(40u8),
{
    reveal_strlit("string");
    reveal_strlit("i8");
    reveal_strlit("u8");
    reveal_strlit("i16");
    reveal_strlit("u16");
    reveal_strlit("i32");
    reveal_strlit("u32");
    reveal_strlit("i64");
    reveal_strlit("u64");
    reveal_strlit("f32");
    reveal_strlit("f64");
    assert("string"@[0] == 's');
    assert("i8"@[0] == 'i' && "i16"@[0] == 'i' && "i32"@[0] == 'i' && "i64"@[0] == 'i');
    assert("u8"@[0] == 'u' && "u16"@[0] == 'u' && "u32"@[0] == 'u' && "u64"@[0] == 'u');
    assert("f32"@[0] == 'f' && "f64"@[0] == 'f');
}

fn kind_base_of(kind: &str) -> (b: Option<u8>)
    ensures
        b == kind_base(kind@),
{
    if crate::text::same_text(kind, "i8") {
        Some(16)
    } else if crate::text::same_text(kind, "u8") {
        Some(18)
    } else if crate::text::same_text(kind, "i16") {
        Some(20)
    } else if crate::text::same_text(kind, "u16") {
        Some(22)
    } else if crate::text::same_text(kind, "i32") {
        Some(24)
    } else if crate::text::same_text(kind, "u32") {
        Some(26)
    } else if crate::text::same_text(kind, "i64") {
        Some(28)
    } else if crate::text::same_text(kind, "u64") {
        Some(30)
    } else if crate::text::same_text(kind, "f32") {
        Some(32)
    } else if crate::text::same_text(kind, "f64") {
        Some(34)
    } else if crate::text::same_text(kind, "string") {
        Some(40)
    } else if crate::text::same_text(kind, "bool") {
        Some(44)
    } else if crate::text::same_text(kind, "null") {
        Some(46)
    } else if crate::text::same_text(kind, "array") {
        Some(6)
    } else {
        None
    }
}

pub open spec fn opt_text_spec(n: Option<Seq<char>>) -> Option<StringModel> {
    match n {
        Some(s) => Some(text_spec(s)),
        None => None,
    }
}

pub open spec fn opt_chars(n: Option<String>) -> Option<Seq<char>> {
    match n {
        Some(s) => Some(s@),
        None => None,
    }
}

/// A new detached scalar record of `kind`, named or not, holding `value`; or why not.
pub open spec fn scalar_spec(kind: Seq<char>, name: Option<Seq<char>>, value: Seq<char>, float: Option<FloatBits>) -> Result<
    RecordModel,
    Seq<char>,
> {
    match kind_base(kind) {
        None => Err("Unsupported scalar type"@),
        Some(base) => {
            let tag = if name is Some && base != 6 {
                (base - 1) as u8
            } else {
                base
            };
            if base == 6 && name is Some {
                Err("Odin arrays cannot be named; use the containing list node"@)
            } else {
                let payload: Result<PayloadModel, Seq<char>> = if base == 46 {
                    Ok(PayloadModel::Empty)
                } else if base == 6 {
                    Ok(PayloadModel::Array(0))
                } else if base == 40 {
                    Ok(PayloadModel::Text(text_spec(value)))
                } else {
                    match replacement_spec(tag, PayloadModel::Empty, value, float) {
                        Ok(p) => Ok(p),
                        Err(k) => Err(refusal_text(k)),
                    }
                };
                match payload {
                    Ok(p) => Ok(
                        RecordModel {
                            tag,
                            name: opt_text_spec(name),
                            payload: p,
                            parent: None,
                            children: Seq::empty(),
                            offset: 0,
                        },
                    ),
                    Err(m) => Err(m),
                }
            }
        },
    }
}

pub fn scalar(kind: &str, name: Option<String>, value: &str, float: Option<FloatBits>) -> (r: Result<
    Record,
    Error,
>)
    ensures
        match scalar_spec(kind@, opt_chars(name), value@, float) {
            Ok(m) => r matches Ok(rec) && rec@ == m,
            Err(m) => r matches Err(e) && e.0@ == m,
        },
{
    let base = match kind_base_of(kind) {
        Some(b) => b,
        None => return Err(failure("Unsupported scalar type")),
    };
    let tag = if name.is_some() && base != 6 {
        base - 1
    } else {
        base
    };
    if base == 6 && name.is_some() {
        return Err(failure("Odin arrays cannot be named; use the containing list node"));
    }
    let payload = if base == 46 {
        Payload::Empty
    } else if base == 6 {
        Payload::Array(0)
    } else if base == 40 {
        Payload::Text(text(value))
    } else {
        match replacement(tag, &Payload::Empty, value, float) {
            Ok(p) => p,
            Err(e) => return Err(e),
        }
    };
    let name = match name {
        Some(n) => Some(text(n.as_str())),
        None => None,
    };
    let rec = Record { tag, name, payload, parent: None, children: Vec::new(), offset: 0 };
    assert(rec@.children =~= Seq::<usize>::empty());
    Ok(rec)
}

/// The first version of each record that a transaction modifies, so that a failed
/// transaction can be undone.
pub struct Journal {
    /// Number of records when the transaction began.
    pub start: usize,
    pub before: Vec<(usize, Record)>,
    /// The records when the transaction began.
    pub origin: Ghost<Seq<RecordModel>>,
}

impl Journal {
    /// A journal for edits that begin on `doc`.
    pub fn begin(doc: &Document) -> (j: Journal)
        ensures
            tracks(&j, doc.rs()),
            j.start == doc.records@.len(),
            j.origin@ == doc.rs(),
            j.before@.len() == 0,
    {
        Journal { start: doc.records.len(), before: Vec::new(), origin: Ghost(doc.rs()) }
    }
}

pub open spec fn journaled(j: &Journal, i: int) -> bool {
    exists|k: int| 0 <= k < j.before@.len() && #[trigger] j.before@[k].0 == i
}

/// The journal holds the first version of every modified record that existed at the start.
pub open spec fn tracks(j: &Journal, rs: Seq<RecordModel>) -> bool {
    &&& j.start == j.origin@.len() <= rs.len()
    &&& forall|k: int|
        0 <= k < j.before@.len() ==> (#[trigger] j.before@[k]).0 < j.start && j.before@[k].1@
            == j.origin@[j.before@[k].0 as int]
    &&& forall|i: int| 0 <= i < j.start && rs[i] != j.origin@[i] ==> journaled(j, i)
}

pub proof fn lemma_tracks_update(j: &Journal, rs: Seq<RecordModel>, rs2: Seq<RecordModel>, id: int)
    requires
        tracks(j, rs),
        rs2.len() == rs.len(),
        0 <= id < rs.len(),
        forall|i: int| 0 <= i < rs.len() && i != id ==> rs2[i] == rs[i],
        id < j.start ==> journaled(j, id),
    ensures
        tracks(j, rs2),
{
    assert forall|i: int| 0 <= i < j.start && rs2[i] != j.origin@[i] implies journaled(j, i) by {
        if i != id {
            assert(rs2[i] == rs[i]);
        }
    }
}

pub proof fn lemma_tracks_push(j: &Journal, rs: Seq<RecordModel>, r: RecordModel)
    requires
        tracks(j, rs),
    ensures
        tracks(j, rs.push(r)),
{
    assert forall|i: int| 0 <= i < j.start && rs.push(r)[i] != j.origin@[i] implies journaled(j, i) by {
        assert(rs.push(r)[i] == rs[i]);
    }
}

/// Records the current version of `id` before it is modified, once per transaction.
pub fn touch(records: &Vec<Record>, j: &mut Journal, id: usize)
    requires
        tracks(old(j), models(records@)),
        id < records@.len(),
    ensures
        tracks(final(j), models(records@)),
        final(j).start == old(j).start,
        final(j).origin == old(j).origin,
        id < final(j).start ==> journaled(final(j), id as int),
        forall|i: int| journaled(old(j), i) ==> journaled(final(j), i),
{
    if id >= j.start {
        return;
    }
    let mut k: usize = 0;
    while k < j.before.len()
        invariant
            k <= j.before@.len(),
            forall|m: int| 0 <= m < k ==> j.before@[m].0 != id,
            tracks(j, models(records@)),
            *j == *old(j),
        decreases j.before@.len() - k,
    {
        if j.before[k].0 == id {
            assert(journaled(j, id as int)) by {
                assert(j.before@[k as int].0 == id);
            }
            return;
        }
        k = k + 1;
    }
    let ghost old_j = *j;
    assert(models(records@)[id as int] == records@[id as int]@);
    assert(models(records@)[id as int] == j.origin@[id as int]) by {
        if models(records@)[id as int] != j.origin@[id as int] {
            assert(journaled(j, id as int));
            let k2 = choose|k2: int| 0 <= k2 < j.before@.len() && #[trigger] j.before@[k2].0 == id;
            assert(j.before@[k2].0 != id);
        }
    }
    j.before.push((id, records[id].duplicate()));
    assert(journaled(j, id as int)) by {
        assert(j.before@[j.before@.len() - 1].0 == id);
    }
    assert forall|i: int| journaled(&old_j, i) implies journaled(j, i) by {
        let k2 = choose|k2: int| 0 <= k2 < old_j.before@.len() && #[trigger] old_j.before@[k2].0 == i;
        assert(j.before@[k2].0 == i);
    }
    assert forall|i: int| 0 <= i < j.start && models(records@)[i] != j.origin@[i] implies journaled(j, i) by {
        assert(journaled(&old_j, i));
    }
}

/// The document fields that structural edits leave alone.
pub open spec fn same_frame(d: Document, d2: Document) -> bool {
    &&& d2.roots@ == d.roots@
    &&& d2.types@ == d.types@
    &&& d2.objects@ == d.objects@
    &&& d2.next_object_id == d.next_object_id
    &&& d2.original_size == d.original_size
    &&& d2.encoded_size == d.encoded_size
    &&& d2.max_bytes == d.max_bytes
}

/// Why a record cannot be inserted under `parent` at `index`.
pub open spec fn attach_check(rs: Seq<RecordModel>, roots: Seq<usize>, parent: usize, index: usize, named: bool) -> Result<
    (),
    Seq<char>,
> {
    match active_spec(rs, roots, parent) {
        Err(m) => Err(m),
        Ok(()) => {
            let p = rs[parent as int];
            if !opens(p.tag) || index > p.children.len() {
                Err("Choose a container and valid insertion index"@)
            } else if p.tag == 6 && named {
                Err("Array elements must be unnamed"@)
            } else {
                Ok(())
            }
        },
    }
}

/// The records after `r` is appended as child number `index` of `parent`.
pub open spec fn attached(rs: Seq<RecordModel>, parent: usize, index: usize, r: RecordModel) -> Seq<RecordModel> {
    let id = rs.len() as usize;
    rs.update(
        parent as int,
        RecordModel { children: rs[parent as int].children.insert(index as int, id), ..rs[parent as int] },
    ).push(RecordModel { parent: Some(parent), ..r })
}

/// Inserts a detached record as child number `index` of a live container.
pub fn attach(doc: &mut Document, j: &mut Journal, parent: usize, index: usize, r: Record) -> (res: Result<
    usize,
    Error,
>)
    requires
        old(doc).wf(),
        tracks(old(j), old(doc).rs()),
        r@.children.len() == 0,
    ensures
        final(doc).wf(),
        tracks(final(j), final(doc).rs()),
        final(j).start == old(j).start,
        final(j).origin == old(j).origin,
        forall|i: int| journaled(old(j), i) ==> journaled(final(j), i),
        same_frame(*old(doc), *final(doc)),
        match attach_check(old(doc).rs(), old(doc).roots@, parent, index, r@.name is Some) {
            Ok(()) => res == Ok::<usize, Error>(old(doc).records@.len() as usize) && final(doc).rs() == attached(
                old(doc).rs(),
                parent,
                index,
                r@,
            ),
            Err(m) => res matches Err(e) && e.0@ == m && *final(doc) == *old(doc) && *final(j) == *old(j),
        },
{
    match active(doc, parent) {
        Ok(()) => {},
        Err(e) => return Err(e),
    }
    let ptag = doc.records[parent].tag;
    let plen = doc.records[parent].children.len();
    assert(doc.rs()[parent as int] == doc.records@[parent as int]@);
    if !opens_tag(ptag) || index > plen {
        return Err(failure("Choose a container and valid insertion index"));
    }
    if ptag == 6 && r.name.is_some() {
        return Err(failure("Array elements must be unnamed"));
    }
    let ghost rs0 = doc.rs();
    let id = doc.records.len();
    let mut r = r;
    let ghost rm = r@;
    r.parent = Some(parent);
    doc.records.push(r);
    proof {
        assert(doc.rs() =~= rs0.push(RecordModel { parent: Some(parent), ..rm }));
        lemma_tracks_push(j, rs0, RecordModel { parent: Some(parent), ..rm });
    }
    let ghost rs1 = doc.rs();
    touch(&doc.records, j, parent);
    doc.records[parent].children.insert(index, id);
    proof {
        let expect = attached(rs0, parent, index, rm);
        assert(doc.rs() =~= expect);
        lemma_tracks_update(j, rs1, doc.rs(), parent as int);
        let rs = doc.rs();
        assert forall|i: int, k: int| 0 <= i < rs.len() && 0 <= k < rs[i].children.len() implies #[trigger] rs[i].children[k]
            < rs.len() by {
            if i == parent {
                let ch = rs0[parent as int].children;
                if k < index {
                    assert(rs[i].children[k] == ch[k]);
                } else if k > index {
                    assert(rs[i].children[k] == ch[k - 1]);
                }
            } else if i < rs0.len() {
                assert(rs[i].children == rs0[i].children);
            }
        }
        assert forall|i: int| 0 <= i < rs.len() implies (#[trigger] rs[i].parent matches Some(p) ==> p < rs.len()) by {
            if i < rs0.len() {
                assert(rs[i].parent == rs0[i].parent);
            }
        }
    }
    Ok(id)
}

/// The largest object ID that any record declares, or -1.
pub open spec fn max_object(rs: Seq<RecordModel>) -> int
    decreases rs.len(),
{
    if rs.len() == 0 {
        -1
    } else {
        let m = max_object(rs.drop_last());
        match object_spec(rs.last()) {
            Some(o) => if o > m {
                o as int
            } else {
                m
            },
            None => m,
        }
    }
}

/// The object ID that the next new object takes, and the ID after it.
pub open spec fn next_object_spec(d: Document) -> Result<i32, Seq<char>> {
    let id: int = match d.next_object_id {
        Some(n) => n as int,
        None => max_object(d.rs()) + 1,
    };
    if id > i32::MAX || id + 1 > i32::MAX {
        Err("Object ID limit exceeded"@)
    } else {
        Ok(id as i32)
    }
}

proof fn lemma_max_object_bound(rs: Seq<RecordModel>)
    ensures
        i32::MIN <= max_object(rs) <= i32::MAX || max_object(rs) == -1,
        -1 <= max_object(rs) <= i32::MAX,
    decreases rs.len(),
{
    if rs.len() > 0 {
        lemma_max_object_bound(rs.drop_last());
    }
}

/// Takes the next unused object ID.
pub fn next_object(doc: &mut Document) -> (r: Result<i32, Error>)
    ensures
        match next_object_spec(*old(doc)) {
            Ok(id) => r == Ok::<i32, Error>(id) && *final(doc) == (Document {
                next_object_id: Some((id + 1) as i32),
                ..*old(doc)
            }),
            Err(m) => r matches Err(e) && e.0@ == m && *final(doc) == *old(doc),
        },
{
    let id: i64 = match doc.next_object_id {
        Some(n) => n as i64,
        None => {
            let mut m: i64 = -1;
            let mut i: usize = 0;
            while i < doc.records.len()
                invariant
                    i <= doc.records@.len(),
                    m == max_object(doc.rs().take(i as int)),
                decreases doc.records@.len() - i,
            {
                proof {
                    assert(doc.rs().take(i + 1).drop_last() =~= doc.rs().take(i as int));
                    assert(doc.rs().take(i + 1).last() == doc.records@[i as int]@);
                    lemma_max_object_bound(doc.rs().take(i as int));
                }
                match object(&doc.records[i]) {
                    Some(o) => {
                        if o as i64 > m {
                            m = o as i64;
                        }
                    },
                    None => {},
                }
                i = i + 1;
            }
            assert(doc.rs().take(i as int) =~= doc.rs());
            proof {
                lemma_max_object_bound(doc.rs());
            }
            m + 1
        },
    };
    if id > i32::MAX as i64 || id + 1 > i32::MAX as i64 {
        return Err(failure("Object ID limit exceeded"));
    }
    doc.next_object_id = Some((id + 1) as i32);
    Ok(id as i32)
}

/// Child list without any occurrence of `x`.
pub open spec fn without(s: Seq<usize>, x: usize) -> Seq<usize>
    decreases s.len(),
{
    if s.len() == 0 {
        s
    } else if s.last() == x {
        without(s.drop_last(), x)
    } else {
        without(s.drop_last(), x).push(s.last())
    }
}

proof fn lemma_without_members(s: Seq<usize>, x: usize)
    ensures
        forall|k: int| 0 <= k < without(s, x).len() ==> s.contains(#[trigger] without(s, x)[k]),
        without(s, x).len() <= s.len(),
    decreases s.len(),
{
    if s.len() > 0 {
        lemma_without_members(s.drop_last(), x);
        let w = without(s.drop_last(), x);
        assert forall|k: int| 0 <= k < without(s, x).len() implies s.contains(#[trigger] without(s, x)[k]) by {
            if k < w.len() {
                assert(s.drop_last().contains(w[k]));
                let t = choose|t: int| 0 <= t < s.drop_last().len() && s.drop_last()[t] == w[k];
                assert(s[t] == w[k]);
            } else {
                assert(without(s, x)[k] == s.last());
                assert(s[s.len() - 1] == s.last());
            }
        }
    }
}

fn filter_out(v: &Vec<usize>, x: usize) -> (r: Vec<usize>)
    ensures
        r@ == without(v@, x),
{
    let mut r: Vec<usize> = Vec::new();
    let mut i: usize = 0;
    while i < v.len()
        invariant
            i <= v@.len(),
            r@ == without(v@.take(i as int), x),
        decreases v@.len() - i,
    {
        proof {
            assert(v@.take(i + 1).drop_last() =~= v@.take(i as int));
            assert(v@.take(i + 1).last() == v@[i as int]);
        }
        if v[i] != x {
            r.push(v[i]);
        }
        i = i + 1;
    }
    assert(v@.take(i as int) =~= v@);
    r
}

/// The parent of a live non-root node, or why the node has none.
pub open spec fn parent_of(d: Document, node: usize, root_message: Seq<char>) -> Result<usize, Seq<char>> {
    match active_spec(d.rs(), d.roots@, node) {
        Err(m) => Err(m),
        Ok(()) => match d.rs()[node as int].parent {
            Some(p) => Ok(p),
            None => Err(root_message),
        },
    }
}

proof fn lemma_parent_in_range(d: Document, node: usize, m: Seq<char>)
    requires
        parent_of(d, node, m) is Ok,
    ensures
        parent_of(d, node, m)->Ok_0 < d.rs().len(),
        node < d.rs().len(),
{
    reveal_with_fuel(climb, 1);
}

fn parent_or(doc: &Document, node: usize, root_message: &str) -> (r: Result<usize, Error>)
    ensures
        match parent_of(*doc, node, root_message@) {
            Ok(p) => r == Ok::<usize, Error>(p),
            Err(m) => r matches Err(e) && e.0@ == m,
        },
{
    match active(doc, node) {
        Ok(()) => {},
        Err(e) => return Err(e),
    }
    assert(doc.rs()[node as int] == doc.records@[node as int]@);
    match doc.records[node].parent {
        Some(p) => Ok(p),
        None => Err(failure(root_message)),
    }
}

/// Replaces the child list of `parent`, recording its first version.
fn set_children(doc: &mut Document, j: &mut Journal, parent: usize, children: Vec<usize>)
    requires
        old(doc).wf(),
        tracks(old(j), old(doc).rs()),
        parent < old(doc).records@.len(),
        forall|k: int| 0 <= k < children@.len() ==> #[trigger] children@[k] < old(doc).records@.len(),
    ensures
        final(doc).wf(),
        tracks(final(j), final(doc).rs()),
        final(j).start == old(j).start,
        final(j).origin == old(j).origin,
        forall|i: int| journaled(old(j), i) ==> journaled(final(j), i),
        same_frame(*old(doc), *final(doc)),
        final(doc).rs() == old(doc).rs().update(
            parent as int,
            RecordModel { children: children@, ..old(doc).rs()[parent as int] },
        ),
{
    let ghost rs0 = doc.rs();
    touch(&doc.records, j, parent);
    doc.records[parent].children = children;
    proof {
        assert(doc.rs() =~= rs0.update(parent as int, RecordModel { children: children@, ..rs0[parent as int] }));
        lemma_tracks_update(j, rs0, doc.rs(), parent as int);
        let rs = doc.rs();
        assert forall|i: int, k: int| 0 <= i < rs.len() && 0 <= k < rs[i].children.len() implies #[trigger] rs[i].children[k]
            < rs.len() by {
            if i != parent {
                assert(rs[i].children == rs0[i].children);
            }
        }
        assert forall|i: int| 0 <= i < rs.len() implies (#[trigger] rs[i].parent matches Some(p) ==> p < rs.len()) by {
            assert(rs[i].parent == rs0[i].parent);
        }
    }
}

/// Replaces the payload of `node`, recording its first version.
pub fn set_payload(doc: &mut Document, j: &mut Journal, node: usize, p: Payload)
    requires
        old(doc).wf(),
        tracks(old(j), old(doc).rs()),
        node < old(doc).records@.len(),
    ensures
        final(doc).wf(),
        tracks(final(j), final(doc).rs()),
        final(j).start == old(j).start,
        final(j).origin == old(j).origin,
        forall|i: int| journaled(old(j), i) ==> journaled(final(j), i),
        same_frame(*old(doc), *final(doc)),
        final(doc).rs() == old(doc).rs().update(
            node as int,
            RecordModel { payload: p@, ..old(doc).rs()[node as int] },
        ),
{
    let ghost rs0 = doc.rs();
    let ghost pm = p@;
    touch(&doc.records, j, node);
    doc.records[node].payload = p;
    proof {
        assert(doc.rs() =~= rs0.update(node as int, RecordModel { payload: pm, ..rs0[node as int] }));
        lemma_tracks_update(j, rs0, doc.rs(), node as int);
        let rs = doc.rs();
        assert forall|i: int, k: int| 0 <= i < rs.len() && 0 <= k < rs[i].children.len() implies #[trigger] rs[i].children[k]
            < rs.len() by {
            assert(rs[i].children == rs0[i].children);
        }
        assert forall|i: int| 0 <= i < rs.len() implies (#[trigger] rs[i].parent matches Some(p) ==> p < rs.len()) by {
            assert(rs[i].parent == rs0[i].parent);
        }
    }
}

/// What storing `value` in `node` does to the records, or why it is refused.
pub open spec fn set_spec(d: Document, node: usize, tag: u8, value: Seq<char>, float: Option<FloatBits>) -> Result<
    Seq<RecordModel>,
    Seq<char>,
> {
    if utf8_len(value) > d.max_bytes / 2 {
        Err("Value exceeds size limit"@)
    } else {
        match active_spec(d.rs(), d.roots@, node) {
            Err(m) => Err(m),
            Ok(()) => {
                let r = d.rs()[node as int];
                if r.tag != tag {
                    Err("Field type changed"@)
                } else {
                    match replacement_spec(tag, r.payload, value, float) {
                        Err(k) => Err(refusal_text(k)),
                        Ok(p) => Ok(d.rs().update(node as int, RecordModel { payload: p, ..r })),
                    }
                }
            },
        }
    }
}

/// What detaching `node` from its parent does to the records.
pub open spec fn remove_spec(d: Document, node: usize) -> Result<Seq<RecordModel>, Seq<char>> {
    match parent_of(d, node, "Cannot remove the root"@) {
        Err(m) => Err(m),
        Ok(p) => Ok(
            d.rs().update(
                p as int,
                RecordModel { children: without(d.rs()[p as int].children, node), ..d.rs()[p as int] },
            ),
        ),
    }
}

/// What moving `node` to position `index` among its siblings does to the records.
pub open spec fn move_spec(d: Document, node: usize, index: usize) -> Result<Seq<RecordModel>, Seq<char>> {
    match parent_of(d, node, "Cannot move the root"@) {
        Err(m) => Err(m),
        Ok(p) => {
            let ch = d.rs()[p as int].children;
            if index >= ch.len() || index > without(ch, node).len() {
                Err("Invalid sibling position"@)
            } else {
                Ok(
                    d.rs().update(
                        p as int,
                        RecordModel {
                            children: without(ch, node).insert(index as int, node),
                            ..d.rs()[p as int]
                        },
                    ),
                )
            }
        },
    }
}

/// What pointing the internal reference `node` at the object of `target` does to the records.
pub open spec fn retarget_spec(d: Document, node: usize, target: usize) -> Result<Seq<RecordModel>, Seq<char>> {
    match active_spec(d.rs(), d.roots@, node) {
        Err(m) => Err(m),
        Ok(()) => if spec_base_tag(d.rs()[node as int].tag) != 10 {
            Err("Select an internal reference"@)
        } else {
            match active_spec(d.rs(), d.roots@, target) {
                Err(m) => Err(m),
                Ok(()) => match object_spec(d.rs()[target as int]) {
                    Some(o) => if d.rs()[target as int].payload is Node {
                        Ok(
                            d.rs().update(
                                node as int,
                                RecordModel {
                                    payload: PayloadModel::Fixed(i32_le(o as int)),
                                    ..d.rs()[node as int]
                                },
                            ),
                        )
                    } else {
                        Err("Target must declare an object"@)
                    },
                    None => Err("Target must declare an object"@),
                },
            }
        },
    }
}

/// The common frame of a single edit: soundness, the journal and the untouched fields.
pub open spec fn edit_frame(d: Document, d2: Document, j: &Journal, j2: &Journal) -> bool {
    &&& d2.wf()
    &&& d2.records@.len() >= d.records@.len()
    &&& tracks(j2, d2.rs())
    &&& j2.start == j.start
    &&& j2.origin == j.origin
    &&& forall|i: int| journaled(j, i) ==> journaled(j2, i)
    &&& same_frame(d, d2)
}

pub open spec fn edit_result(spec: Result<Seq<RecordModel>, Seq<char>>, d: Document, d2: Document, r: Result<(), Error>) -> bool {
    match spec {
        Ok(rs) => r is Ok && d2.rs() == rs,
        Err(m) => r matches Err(e) && e.0@ == m && d2.rs() == d.rs(),
    }
}

pub fn set_node(doc: &mut Document, j: &mut Journal, node: usize, tag: u8, value: &str, float: Option<FloatBits>) -> (r:
    Result<(), Error>)
    requires
        old(doc).wf(),
        tracks(old(j), old(doc).rs()),
    ensures
        edit_frame(*old(doc), *final(doc), old(j), final(j)),
        edit_result(set_spec(*old(doc), node, tag, value@, float), *old(doc), *final(doc), r),
{
    if value.len() > doc.max_bytes / 2 {
        return Err(failure("Value exceeds size limit"));
    }
    match active(doc, node) {
        Ok(()) => {},
        Err(e) => return Err(e),
    }
    assert(doc.rs()[node as int] == doc.records@[node as int]@);
    if doc.records[node].tag != tag {
        return Err(failure("Field type changed"));
    }
    let p = match replacement(tag, &doc.records[node].payload, value, float) {
        Ok(p) => p,
        Err(e) => return Err(e),
    };
    set_payload(doc, j, node, p);
    Ok(())
}

pub fn remove_node(doc: &mut Document, j: &mut Journal, node: usize) -> (r: Result<(), Error>)
    requires
        old(doc).wf(),
        tracks(old(j), old(doc).rs()),
    ensures
        edit_frame(*old(doc), *final(doc), old(j), final(j)),
        edit_result(remove_spec(*old(doc), node), *old(doc), *final(doc), r),
{
    let parent = match parent_or(doc, node, "Cannot remove the root") {
        Ok(p) => p,
        Err(e) => return Err(e),
    };
    proof {
        lemma_parent_in_range(*doc, node, "Cannot remove the root"@);
    }
    assert(doc.rs()[parent as int].children == doc.records@[parent as int].children@);
    let children = filter_out(&doc.records[parent].children, node);
    proof {
        lemma_without_members(doc.rs()[parent as int].children, node);
        assert forall|k: int| 0 <= k < children@.len() implies #[trigger] children@[k] < doc.records@.len() by {
            let ch = doc.rs()[parent as int].children;
            assert(ch.contains(children@[k]));
            let t = choose|t: int| 0 <= t < ch.len() && ch[t] == children@[k];
            assert(ch[t] < doc.rs().len());
        }
    }
    set_children(doc, j, parent, children);
    Ok(())
}

pub fn move_node(doc: &mut Document, j: &mut Journal, node: usize, index: usize) -> (r: Result<(), Error>)
    requires
        old(doc).wf(),
        tracks(old(j), old(doc).rs()),
    ensures
        edit_frame(*old(doc), *final(doc), old(j), final(j)),
        edit_result(move_spec(*old(doc), node, index), *old(doc), *final(doc), r),
{
    let parent = match parent_or(doc, node, "Cannot move the root") {
        Ok(p) => p,
        Err(e) => return Err(e),
    };
    proof {
        lemma_parent_in_range(*doc, node, "Cannot move the root"@);
    }
    assert(doc.rs()[parent as int].children == doc.records@[parent as int].children@);
    if index >= doc.records[parent].children.len() {
        return Err(failure("Invalid sibling position"));
    }
    let mut children = filter_out(&doc.records[parent].children, node);
    if index > children.len() {
        return Err(failure("Invalid sibling position"));
    }
    children.insert(index, node);
    proof {
        let ch = doc.rs()[parent as int].children;
        lemma_without_members(ch, node);
        assert forall|k: int| 0 <= k < children@.len() implies #[trigger] children@[k] < doc.records@.len() by {
            let w = without(ch, node);
            if k != index {
                let kk = if k < index { k } else { k - 1 };
                assert(children@[k] == w[kk]);
                assert(ch.contains(w[kk]));
                let t = choose|t: int| 0 <= t < ch.len() && ch[t] == w[kk];
                assert(ch[t] < doc.rs().len());
            }
        }
    }
    set_children(doc, j, parent, children);
    Ok(())
}

pub fn retarget_node(doc: &mut Document, j: &mut Journal, node: usize, target: usize) -> (r: Result<(), Error>)
    requires
        old(doc).wf(),
        tracks(old(j), old(doc).rs()),
    ensures
        edit_frame(*old(doc), *final(doc), old(j), final(j)),
        edit_result(retarget_spec(*old(doc), node, target), *old(doc), *final(doc), r),
{
    match active(doc, node) {
        Ok(()) => {},
        Err(e) => return Err(e),
    }
    assert(doc.rs()[node as int] == doc.records@[node as int]@);
    if base_tag(doc.records[node].tag) != 10 {
        return Err(failure("Select an internal reference"));
    }
    match active(doc, target) {
        Ok(()) => {},
        Err(e) => return Err(e),
    }
    assert(doc.rs()[target as int] == doc.records@[target as int]@);
    let o = match &doc.records[target].payload {
        Payload::Node { object: Some(o), .. } => *o,
        _ => return Err(failure("Target must declare an object")),
    };
    let mut bytes: Vec<u8> = Vec::new();
    push_i32(&mut bytes, o);
    assert(bytes@ =~= i32_le(o as int));
    set_payload(doc, j, node, Payload::Fixed(bytes));
    Ok(())
}

/// The smallest type ID whose declared name is `name`, if any.
pub fn find_type(types: &HashMap<i32, WireString>, name: &str) -> (r: Option<i32>)
    ensures
        r matches Some(k) ==> types@.contains_key(k) && display_spec(types@[k]@) == name@ && forall|m: i32|
            #[trigger] types@.contains_key(m) && display_spec(types@[m]@) == name@ ==> k <= m,
        r is None ==> forall|k: i32| #[trigger] types@.contains_key(k) ==> display_spec(types@[k]@) != name@,
{
    let ghost all = spec_hash_map_iter(types).remaining();
    proof {
        axiom_spec_hash_map_iter(types);
    }
    let mut best: Option<i32> = None;
    for entry in it: types.iter()
        invariant
            all == spec_hash_map_iter(types).remaining(),
            it.seq() == all,
            forall|i: int| 0 <= i < all.len() ==> types@.contains_key(*(#[trigger] all[i]).0) && types@[*all[i].0]
                == *all[i].1,
            best matches Some(b) ==> types@.contains_key(b) && display_spec(types@[b]@) == name@,
            forall|i: int| 0 <= i < it.index() && display_spec((*(#[trigger] all[i]).1)@) == name@ ==> (best matches Some(b)
                && b <= *all[i].0),
    {
        let (k, v) = entry;
        proof {
            axiom_spec_hash_map_iter(types);
        }
        if crate::text::same_text(v.display().as_str(), name) {
            let better = match best {
                Some(b) => *k < b,
                None => true,
            };
            if better {
                best = Some(*k);
            }
        }
    }
    proof {
        axiom_spec_hash_map_iter(types);
    }
    assert forall|m: i32| #[trigger] types@.contains_key(m) && display_spec(types@[m]@) == name@ implies (best matches Some(b)
        && b <= m) by {
        assert(all.contains((&m, &types@[m])));
        let i = choose|i: int| 0 <= i < all.len() && all[i] == (&m, &types@[m]);
        assert(display_spec((*all[i].1)@) == name@);
    }
    best
}

/// The largest type ID in use, if any.
pub fn max_type(types: &HashMap<i32, WireString>) -> (r: Option<i32>)
    ensures
        r matches Some(m) ==> types@.contains_key(m) && forall|k: i32| #[trigger] types@.contains_key(k) ==> k <= m,
        r is None ==> types@.dom().is_empty(),
{
    let ghost all = spec_hash_map_iter(types).remaining();
    proof {
        axiom_spec_hash_map_iter(types);
    }
    let mut best: Option<i32> = None;
    for entry in it: types.iter()
        invariant
            all == spec_hash_map_iter(types).remaining(),
            it.seq() == all,
            forall|i: int| 0 <= i < all.len() ==> types@.contains_key(*(#[trigger] all[i]).0),
            best is None ==> it.index() == 0,
            best matches Some(m) ==> types@.contains_key(m) && forall|i: int| 0 <= i < it.index() ==> *(
            #[trigger] all[i]).0 <= m,
    {
        let (k, _) = entry;
        match best {
            Some(m) => {
                if *k > m {
                    best = Some(*k);
                }
            },
            None => {
                best = Some(*k);
            },
        }
    }
    proof {
        axiom_spec_hash_map_iter(types);
    }
    match best {
        Some(m) => {
            assert forall|k: i32| #[trigger] types@.contains_key(k) implies k <= m by {
                assert(all.contains((&k, &types@[k])));
                let i = choose|i: int| 0 <= i < all.len() && all[i] == (&k, &types@[k]);
                assert(*all[i].0 <= m);
            }
        },
        None => {
            assert(all.len() == 0);
            assert forall|k: i32| !types@.dom().contains(k) by {
                if types@.contains_key(k) {
                    assert(all.contains((&k, &types@[k])));
                }
            }
            assert(types@.dom() =~= Set::empty());
        },
    }
    best
}

/// One scalar field of a template.
pub struct TemplateField {
    pub name: Option<String>,
    pub kind: String,
    /// Default value text.
    pub value: String,
    /// Bits of the default value, for floating-point kinds.
    pub float: Option<FloatBits>,
}

/// A node shape that users can insert: a typed node, optionally declaring an object, with
/// scalar fields.
pub struct Template {
    pub id: String,
    pub declared_type: String,
    pub reference: bool,
    pub fields: Vec<TemplateField>,
}

/// A value that overrides a template field's default, by field name or position.
pub struct TemplateValue {
    pub key: String,
    pub value: String,
    pub float: Option<FloatBits>,
}

/// The position of the first override with key `key`.
pub open spec fn value_index(values: Seq<TemplateValue>, key: Seq<char>) -> Option<int>
    decreases values.len(),
{
    if values.len() == 0 {
        None
    } else if values[0].key@ == key {
        Some(0)
    } else {
        match value_index(values.subrange(1, values.len() as int), key) {
            Some(k) => Some(k + 1),
            None => None,
        }
    }
}

proof fn lemma_value_index(values: Seq<TemplateValue>, key: Seq<char>)
    ensures
        value_index(values, key) matches Some(k) ==> 0 <= k < values.len() && values[k].key@ == key,
    decreases values.len(),
{
    if values.len() > 0 {
        let rest = values.subrange(1, values.len() as int);
        lemma_value_index(rest, key);
        if let Some(k) = value_index(rest, key) {
            assert(rest[k] == values[k + 1]);
        }
    }
}

/// The key that overrides field `i` of a template: its name, else its position.
pub open spec fn field_key(f: TemplateField, i: int) -> Seq<char> {
    match f.name {
        Some(n) => n@,
        None => decimal(i as nat),
    }
}

/// The value text and bits that field `i` of template `t` is built with.
pub open spec fn field_input(t: Template, values: Seq<TemplateValue>, i: int) -> (Seq<char>, Option<FloatBits>) {
    let f = t.fields@[i];
    match value_index(values, field_key(f, i)) {
        Some(k) => (values[k].value@, values[k].float),
        None => (f.value@, f.float),
    }
}

/// Whether template `t` can be built as child `index` of `parent`: a new declared type still
/// gets an ID, a reference node an object ID, `parent` takes the child, every field value
/// is valid for its kind, and the new node is not too deep to take fields.
pub open spec fn template_room(d: Document, parent: usize, index: usize, named: bool, t: Template, values: Seq<TemplateValue>) -> bool {
    &&& (exists|k: i32| #[trigger] d.types@.contains_key(k) && display_spec(d.types@[k]@) == t.declared_type@)
        || !d.types@.contains_key(i32::MAX)
    &&& t.reference ==> next_object_spec(d) is Ok
    &&& attach_check(d.rs(), d.roots@, parent, index, named) is Ok
    &&& forall|i: int|
        0 <= i < t.fields@.len() ==> scalar_spec(
            (#[trigger] t.fields@[i]).kind@,
            opt_chars(t.fields@[i].name),
            field_input(t, values, i).0,
            field_input(t, values, i).1,
        ) is Ok
    &&& t.fields@.len() > 0 ==> climb(d.rs(), d.roots@, node_tag(t.reference, named), parent, 1) is Ok
}

fn lookup_value(values: &Vec<TemplateValue>, key: &str) -> (r: Option<usize>)
    ensures
        r matches Some(i) ==> i < values@.len() && values@[i as int].key@ == key@,
        r is None ==> forall|i: int| 0 <= i < values@.len() ==> (#[trigger] values@[i]).key@ != key@,
        match value_index(values@, key@) {
            Some(k) => r matches Some(x) && x as int == k,
            None => r is None,
        },
{
    let ghost vs = values@;
    assert(vs.subrange(0, vs.len() as int) =~= vs);
    let mut i: usize = 0;
    while i < values.len()
        invariant
            i <= values@.len(),
            vs == values@,
            forall|k: int| 0 <= k < i ==> (#[trigger] values@[k]).key@ != key@,
            value_index(vs, key@) == match value_index(vs.subrange(i as int, vs.len() as int), key@) {
                Some(k) => Some(k + i),
                None => None,
            },
        decreases values@.len() - i,
    {
        let ghost rest = vs.subrange(i as int, vs.len() as int);
        assert(rest[0] == vs[i as int]);
        assert(rest.subrange(1, rest.len() as int) =~= vs.subrange(i + 1, vs.len() as int));
        if crate::text::same_text(values[i].key.as_str(), key) {
            return Some(i);
        }
        i = i + 1;
    }
    None
}

pub open spec fn node_tag(object: bool, named: bool) -> u8 {
    if object && named {
        1
    } else if object {
        2
    } else if named {
        3
    } else {
        4
    }
}

/// Inserts a new typed node built from a template, then its fields in order.
pub fn create_template(
    doc: &mut Document,
    j: &mut Journal,
    parent: usize,
    index: usize,
    name: Option<String>,
    t: &Template,
    values: &Vec<TemplateValue>,
) -> (r: Result<usize, Error>)
    requires
        old(doc).wf(),
        tracks(old(j), old(doc).rs()),
    ensures
        final(doc).wf(),
        tracks(final(j), final(doc).rs()),
        final(j).start == old(j).start,
        final(j).origin == old(j).origin,
        forall|i: int| journaled(old(j), i) ==> journaled(final(j), i),
        final(doc).roots@ == old(doc).roots@,
        final(doc).objects@ == old(doc).objects@,
        final(doc).max_bytes == old(doc).max_bytes,
        final(doc).encoded_size == old(doc).encoded_size,
        final(doc).original_size == old(doc).original_size,
        final(doc).records@.len() >= old(doc).records@.len(),
        r matches Ok(node) ==> node == old(doc).records@.len() && node < final(doc).records@.len()
            && final(doc).rs()[node as int].parent == Some(parent)
            && final(doc).rs()[node as int].tag == node_tag(t.reference, name is Some),
        r is Ok <==> template_room(*old(doc), parent, index, name is Some, *t, values@),
        r matches Ok(node) ==> final(doc).rs()[node as int].children.len() == t.fields@.len() && final(doc).rs().take(
            old(doc).records@.len() as int,
        ) == old(doc).rs().update(
            parent as int,
            RecordModel { children: old(doc).rs()[parent as int].children.insert(index as int, node), ..old(doc).rs()[parent as int] },
        ),
{
    let (type_id, new_type) = match find_type(&doc.types, t.declared_type.as_str()) {
        Some(id) => (id, false),
        None => {
            let id = match max_type(&doc.types) {
                Some(m) => {
                    if m == i32::MAX {
                        return Err(failure("Type ID limit exceeded"));
                    }
                    m + 1
                },
                None => 0,
            };
            doc.types.insert(id, text(t.declared_type.as_str()));
            (id, true)
        },
    };
    let object = if t.reference {
        match next_object(doc) {
            Ok(o) => Some(o),
            Err(e) => return Err(e),
        }
    } else {
        None
    };
    let tag: u8 = match (object.is_some(), name.is_some()) {
        (true, true) => 1,
        (true, false) => 2,
        (false, true) => 3,
        (false, false) => 4,
    };
    let ty = if new_type {
        TypeInfo::Definition(type_id, text(t.declared_type.as_str()))
    } else {
        TypeInfo::Reference(type_id)
    };
    let record_name = match &name {
        Some(n) => Some(text(n.as_str())),
        None => None,
    };
    let record = Record {
        tag,
        name: record_name,
        payload: Payload::Node { ty, object },
        parent: None,
        children: Vec::new(),
        offset: 0,
    };
    assert(record@.children =~= Seq::<usize>::empty());
    let ghost rs_pre = doc.rs();
    let ghost rec_m = record@;
    let n_pre = doc.records.len();
    let node = match attach(doc, j, parent, index, record) {
        Ok(n) => n,
        Err(e) => return Err(e),
    };
    assert(attach_check(rs_pre, doc.roots@, parent, index, rec_m.name is Some) is Ok);
    assert(node == n_pre);
    assert(doc.rs() == attached(rs_pre, parent, index, rec_m));
    assert(doc.rs()[node as int].parent == Some(parent));
    proof {
        assert(doc.records@.len() == n_pre + 1);
        lemma_attached_kept(rs_pre, parent, index, rec_m);
        assert(doc.rs()[parent as int].children[index as int] == node);
        assert forall|i: int| 0 <= i < rs_pre.len() implies (#[trigger] rs_pre[i].parent matches Some(p) ==> p < rs_pre.len()) by {
            assert(old(doc).rs()[i].parent matches Some(p) ==> p < old(doc).rs().len());
        }
    }
    let ghost fixed = doc.rs()[node as int];
    let ghost n0 = doc.records@.len();
    let ghost kept = doc.rs().take(n_pre as int);
    assert(kept =~= rs_pre.update(
        parent as int,
        RecordModel { children: rs_pre[parent as int].children.insert(index as int, node), ..rs_pre[parent as int] },
    ));
    let mut i: usize = 0;
    while i < t.fields.len()
        invariant
            doc.wf(),
            tracks(j, doc.rs()),
            j.start == old(j).start,
            j.origin == old(j).origin,
            forall|k: int| journaled(old(j), k) ==> journaled(j, k),
            doc.roots@ == old(doc).roots@,
            doc.objects@ == old(doc).objects@,
            doc.max_bytes == old(doc).max_bytes,
            doc.encoded_size == old(doc).encoded_size,
            doc.original_size == old(doc).original_size,
            node == old(doc).records@.len(),
            node < doc.records@.len(),
            doc.rs()[node as int].parent == fixed.parent,
            doc.rs()[node as int].tag == fixed.tag,
            fixed.parent == Some(parent),
            fixed.tag == node_tag(t.reference, name is Some),
            i <= t.fields@.len(),
            doc.rs()[node as int].children.len() == i,
            n_pre == node,
            doc.rs().take(n_pre as int) == kept,
            rs_pre == old(doc).rs(),
            links_kept(rs_pre, doc.rs()),
            forall|i: int| 0 <= i < rs_pre.len() ==> (#[trigger] rs_pre[i].parent matches Some(p) ==> p < rs_pre.len()),
            parent < node,
            doc.rs()[parent as int].children.contains(node),
            forall|m: int| 0 <= m < i ==> scalar_spec(
                (#[trigger] t.fields@[m]).kind@,
                opt_chars(t.fields@[m].name),
                field_input(*t, values@, m).0,
                field_input(*t, values@, m).1,
            ) is Ok,
            i > 0 ==> climb(rs_pre, doc.roots@, fixed.tag, parent, 1) is Ok,
        decreases t.fields@.len() - i,
    {
        proof {
            lemma_climb_kept(rs_pre, doc.rs(), doc.roots@, fixed.tag, parent, 1);
        }
        let f = &t.fields[i];
        let key = match &f.name {
            Some(n) => n.clone(),
            None => crate::text::unsigned_text(i as u64),
        };
        let found = lookup_value(values, key.as_str());
        let value: &str = match found {
            Some(k) => values[k].value.as_str(),
            None => f.value.as_str(),
        };
        let float = match found {
            Some(k) => values[k].float,
            None => f.float,
        };
        proof {
            assert(key@ == field_key(t.fields@[i as int], i as int));
            lemma_value_index(values@, key@);
            match value_index(values@, key@) {
                Some(k) => {
                    assert(found matches Some(x) && x as int == k);
                },
                None => {
                    assert(found is None);
                },
            }
        }
        let field_name = match &f.name {
            Some(n) => Some(n.clone()),
            None => None,
        };
        assert(*f == t.fields@[i as int]);
        assert(key@ == field_key(*f, i as int));
        assert(value@ == field_input(*t, values@, i as int).0 && float == field_input(*t, values@, i as int).1);
        assert(opt_chars(field_name) == opt_chars(f.name));
        let r = match scalar(f.kind.as_str(), field_name, value, float) {
            Ok(r) => r,
            Err(e) => return Err(e),
        };
        let cur_len = doc.records.len();
        let ghost before = doc.rs();
        let ghost rm = r@;
        assert(before[node as int].children.len() == i);
        match attach(doc, j, node, i, r) {
            Ok(_) => {},
            Err(e) => return Err(e),
        }
        proof {
            assert(doc.records@.len() == before.len() + 1);
            lemma_attached_kept(before, node, i, rm);
            lemma_kept_trans(rs_pre, before, doc.rs());
            assert(doc.rs()[parent as int] == before[parent as int]);
        }
        assert(doc.rs()[node as int].parent == before[node as int].parent);
        assert(doc.rs().take(n_pre as int) =~= before.take(n_pre as int));
        i = i + 1;
    }
    Ok(node)
}

/// Position of the first occurrence of `x`.
pub open spec fn first_pos(s: Seq<usize>, x: usize) -> int
    decreases s.len(),
{
    if s.len() == 0 {
        0
    } else if s[0] == x {
        0
    } else {
        1 + first_pos(s.drop_first(), x)
    }
}

proof fn lemma_first_pos(s: Seq<usize>, x: usize)
    requires
        s.contains(x),
    ensures
        0 <= first_pos(s, x) < s.len(),
        s[first_pos(s, x)] == x,
        forall|k: int| 0 <= k < first_pos(s, x) ==> s[k] != x,
    decreases s.len(),
{
    if s[0] != x {
        let t = choose|t: int| 0 <= t < s.len() && s[t] == x;
        assert(s.drop_first()[t - 1] == x);
        lemma_first_pos(s.drop_first(), x);
        assert forall|k: int| 0 <= k < first_pos(s, x) implies s[k] != x by {
            if k > 0 {
                assert(s[k] == s.drop_first()[k - 1]);
            }
        }
    }
}

fn position(v: &Vec<usize>, x: usize) -> (r: usize)
    requires
        v@.contains(x),
    ensures
        r == first_pos(v@, x),
        r < v@.len(),
{
    proof {
        lemma_first_pos(v@, x);
    }
    let mut i: usize = 0;
    while i < v.len()
        invariant
            i <= first_pos(v@, x),
            0 <= first_pos(v@, x) < v@.len(),
            v@[first_pos(v@, x)] == x,
            forall|k: int| 0 <= k < first_pos(v@, x) ==> v@[k] != x,
        decreases v@.len() - i,
    {
        if v[i] == x {
            return i;
        }
        i = i + 1;
    }
    i
}

/// What a successful duplication leaves: the records that existed are unchanged except
/// that the copy of `node` follows it among its parent's children, and the copies are
/// appended after them.
pub open spec fn duplicated(rs: Seq<RecordModel>, rs2: Seq<RecordModel>, node: usize, parent: usize) -> bool {
    let start = rs.len();
    let ch = rs[parent as int].children;
    &&& rs2.len() > start
    &&& rs2.take(start as int) == rs.update(
        parent as int,
        RecordModel { children: ch.insert(first_pos(ch, node) + 1, start as usize), ..rs[parent as int] },
    )
    &&& rs2[start as int].parent == Some(parent)
}

/// Copies the subtree under `node` next to it, giving every declared object a new ID and
/// pointing references inside the copy at the copied objects.
#[verifier::loop_isolation(false)]
pub fn duplicate_node(doc: &mut Document, j: &mut Journal, node: usize) -> (r: Result<(), Error>)
    requires
        old(doc).wf(),
        tracks(old(j), old(doc).rs()),
    ensures
        final(doc).wf(),
        tracks(final(j), final(doc).rs()),
        final(j).start == old(j).start,
        final(j).origin == old(j).origin,
        forall|i: int| journaled(old(j), i) ==> journaled(final(j), i),
        final(doc).roots@ == old(doc).roots@,
        final(doc).types@ == old(doc).types@,
        final(doc).objects@ == old(doc).objects@,
        final(doc).max_bytes == old(doc).max_bytes,
        final(doc).encoded_size == old(doc).encoded_size,
        final(doc).original_size == old(doc).original_size,
        final(doc).records@.len() >= old(doc).records@.len(),
        match parent_of(*old(doc), node, "Cannot duplicate the root"@) {
            Err(m) => r matches Err(e) && e.0@ == m && final(doc).rs() == old(doc).rs(),
            Ok(p) => r is Ok ==> duplicated(old(doc).rs(), final(doc).rs(), node, p),
        },
{
    let parent = match parent_or(doc, node, "Cannot duplicate the root") {
        Ok(p) => p,
        Err(e) => return Err(e),
    };
    proof {
        lemma_parent_in_range(*doc, node, "Cannot duplicate the root"@);
        reveal_with_fuel(climb, 1);
    }
    assert(doc.rs()[parent as int].children == doc.records@[parent as int].children@);
    assert(doc.records@[parent as int].children@.contains(node));
    let ch_len = doc.records[parent].children.len();
    let pos = position(&doc.records[parent].children, node);
    assert(pos < ch_len);
    let index = pos + 1;
    let start = doc.records.len();
    // The subtree, parents before children, siblings in order.
    let mut ids: Vec<usize> = Vec::new();
    let mut pending: Vec<usize> = Vec::new();
    pending.push(node);
    while pending.len() > 0
        invariant
            doc.wf(),
            start == doc.records@.len(),
            ids@.len() <= start,
            ids@.len() == 0 ==> pending@ == seq![node],
            ids@.len() > 0 ==> ids@[0] == node,
            forall|k: int| 0 <= k < pending@.len() ==> #[trigger] pending@[k] < start,
            forall|k: int| 0 <= k < ids@.len() ==> #[trigger] ids@[k] < start,
        decreases start - ids@.len(),
    {
        if ids.len() >= start {
            return Err(failure("Invalid/cyclic container hierarchy"));
        }
        let id = pending.pop().unwrap();
        ids.push(id);
        let ch = &doc.records[id].children;
        assert(doc.rs()[id as int].children == ch@);
        let mut k = ch.len();
        while k > 0
            invariant
                doc.wf(),
                start == doc.records@.len(),
                id < start,
                ch@ == doc.rs()[id as int].children,
                k <= ch@.len(),
                forall|m: int| 0 <= m < pending@.len() ==> #[trigger] pending@[m] < start,
            decreases k,
        {
            k = k - 1;
            assert(doc.rs()[id as int].children[k as int] < doc.rs().len());
            pending.push(ch[k]);
        }
    }
    if start > usize::MAX - ids.len() {
        return Err(failure("Record limit exceeded"));
    }
    let total = start + ids.len();
    let mut mapping: HashMap<usize, usize> = HashMap::new();
    let mut i: usize = 0;
    while i < ids.len()
        invariant
            i <= ids@.len(),
            total == start + ids@.len(),
            forall|k: usize| #[trigger] mapping@.contains_key(k) ==> mapping@[k] < total,
        decreases ids@.len() - i,
    {
        mapping.insert(ids[i], start + i);
        i = i + 1;
    }
    let mut next = match next_object(doc) {
        Ok(o) => o,
        Err(e) => return Err(e),
    };
    let mut objects: HashMap<i32, i32> = HashMap::new();
    let mut i: usize = 0;
    while i < ids.len()
        invariant
            doc.wf(),
            start == doc.records@.len(),
            i <= ids@.len(),
            forall|k: int| 0 <= k < ids@.len() ==> #[trigger] ids@[k] < start,
        decreases ids@.len() - i,
    {
        if let Some(o) = object(&doc.records[ids[i]]) {
            objects.insert(o, next);
            if next == i32::MAX {
                return Err(failure("Object ID limit exceeded"));
            }
            next = next + 1;
        }
        i = i + 1;
    }
    doc.next_object_id = Some(next);
    let ghost rs0 = doc.rs();
    let mut copies: Vec<Record> = Vec::new();
    let mut i: usize = 0;
    while i < ids.len()
        invariant
            doc.rs() == rs0,
            rs0.len() == start,
            i <= ids@.len(),
            copies@.len() == i,
            total == start + ids@.len(),
            i > 0 ==> copies@[0]@.parent == Some(parent),
            ids@.len() > 0 ==> ids@[0] == node,
            forall|k: int| 0 <= k < ids@.len() ==> #[trigger] ids@[k] < start,
            forall|k: usize| #[trigger] mapping@.contains_key(k) ==> mapping@[k] < total,
            forall|a: int, b: int|
                0 <= a < copies@.len() && 0 <= b < copies@[a]@.children.len() ==> #[trigger] copies@[a]@.children[b]
                    < total,
            forall|a: int| 0 <= a < copies@.len() ==> (#[trigger] copies@[a]@.parent matches Some(p) ==> p < total),
        decreases ids@.len() - i,
    {
        let id = ids[i];
        let mut r = doc.records[id].duplicate();
        r.parent = if id == node && i == 0 {
            Some(parent)
        } else {
            match r.parent {
                Some(p) => match mapping.get(&p) {
                    Some(n) => Some(*n),
                    None => return Err(failure("Invalid parent link")),
                },
                None => None,
            }
        };
        let mut children: Vec<usize> = Vec::new();
        let mut k: usize = 0;
        while k < r.children.len()
            invariant
                k <= r.children@.len(),
                forall|m: int| 0 <= m < children@.len() ==> #[trigger] children@[m] < total,
                forall|c: usize| #[trigger] mapping@.contains_key(c) ==> mapping@[c] < total,
            decreases r.children@.len() - k,
        {
            match mapping.get(&r.children[k]) {
                Some(n) => children.push(*n),
                None => return Err(failure("Invalid parent link")),
            }
            k = k + 1;
        }
        r.children = children;
        r.offset = 0;
        let renumbered = match &r.payload {
            Payload::Node { ty, object: Some(o) } => match objects.get(o) {
                Some(n) => Some(Payload::Node { ty: ty.duplicate(), object: Some(*n) }),
                None => None,
            },
            _ => match reference(&r) {
                Some(o) => match objects.get(&o) {
                    Some(n) => {
                        let mut bytes: Vec<u8> = Vec::new();
                        push_i32(&mut bytes, *n);
                        Some(Payload::Fixed(bytes))
                    },
                    None => None,
                },
                None => None,
            },
        };
        if let Some(p) = renumbered {
            r.payload = p;
        }
        copies.push(r);
        i = i + 1;
    }
    let mut copies = copies;
    let mut i: usize = 0;
    while i < copies.len()
        invariant
            tracks(j, doc.rs()),
            j.start == old(j).start,
            j.origin == old(j).origin,
            forall|k: int| journaled(old(j), k) ==> journaled(j, k),
            i <= copies@.len(),
            total == start + copies@.len(),
            doc.records@.len() == start + i,
            doc.rs().take(start as int) == rs0,
            rs0.len() == start,
            indices_ok(rs0, doc.roots@),
            doc.roots@ == old(doc).roots@,
            doc.types@ == old(doc).types@,
            doc.objects@ == old(doc).objects@,
            doc.max_bytes == old(doc).max_bytes,
            doc.encoded_size == old(doc).encoded_size,
            doc.original_size == old(doc).original_size,
            forall|k: i32| #[trigger] doc.objects@.contains_key(k) ==> doc.objects@[k] < start,
            copies@.len() > 0,
            copies@[0]@.parent == Some(parent),
            i > 0 ==> doc.rs()[start as int].parent == Some(parent),
            forall|a: int, b: int|
                0 <= a < doc.rs().len() && 0 <= b < doc.rs()[a].children.len() ==> #[trigger] doc.rs()[a].children[b]
                    < total,
            forall|a: int| 0 <= a < doc.rs().len() ==> (#[trigger] doc.rs()[a].parent matches Some(p) ==> p < total),
            forall|a: int, b: int|
                0 <= a < copies@.len() && 0 <= b < copies@[a]@.children.len() ==> #[trigger] copies@[a]@.children[b]
                    < total,
            forall|a: int| 0 <= a < copies@.len() ==> (#[trigger] copies@[a]@.parent matches Some(p) ==> p < total),
        decreases copies@.len() - i,
    {
        let r = copies[i].duplicate();
        let ghost before = doc.rs();
        let ghost rm = r@;
        doc.records.push(r);
        proof {
            assert(doc.rs() =~= before.push(rm));
            lemma_tracks_push(j, before, rm);
            assert(doc.rs().take(start as int) =~= before.take(start as int));
            let rs = doc.rs();
            assert forall|a: int, b: int| 0 <= a < rs.len() && 0 <= b < rs[a].children.len() implies #[trigger] rs[a].children[b]
                < total by {
                if a < before.len() {
                    assert(rs[a] == before[a]);
                } else {
                    assert(rm == copies@[i as int]@);
                }
            }
            assert forall|a: int| 0 <= a < rs.len() implies (#[trigger] rs[a].parent matches Some(p) ==> p < total) by {
                if a < before.len() {
                    assert(rs[a] == before[a]);
                }
            }
            if i == 0 {
                assert(rs[start as int] == rm);
            } else {
                assert(rs[start as int] == before[start as int]);
            }
        }
        i = i + 1;
    }
    let ghost before = doc.rs();
    assert(before[parent as int] == rs0[parent as int]) by {
        assert(before.take(start as int)[parent as int] == rs0[parent as int]);
    }
    proof {
        assert(indices_ok(before, doc.roots@)) by {
            assert forall|a: int| 0 <= a < before.len() implies (#[trigger] before[a].parent matches Some(p) ==> p
                < before.len()) by {}
        }
    }
    touch(&doc.records, j, parent);
    doc.records[parent].children.insert(index, start);
    proof {
        let ch = rs0[parent as int].children;
        assert(before[parent as int].children == ch);
        let upd = before.update(
            parent as int,
            RecordModel { children: ch.insert(index as int, start), ..before[parent as int] },
        );
        assert(doc.rs() =~= upd);
        lemma_tracks_update(j, before, doc.rs(), parent as int);
        let rs = doc.rs();
        assert(rs.take(start as int) =~= rs0.update(
            parent as int,
            RecordModel { children: ch.insert(first_pos(ch, node) + 1, start as usize), ..rs0[parent as int] },
        )) by {
            assert forall|a: int| 0 <= a < start implies #[trigger] rs.take(start as int)[a] == rs0.update(
                parent as int,
                RecordModel { children: ch.insert(first_pos(ch, node) + 1, start as usize), ..rs0[parent as int] },
            )[a] by {
                if a != parent {
                    assert(before.take(start as int)[a] == rs0[a]);
                }
            }
        }
        assert forall|a: int, b: int| 0 <= a < rs.len() && 0 <= b < rs[a].children.len() implies #[trigger] rs[a].children[b]
            < rs.len() by {
            if a == parent {
                if b < index {
                    assert(rs[a].children[b] == ch[b]);
                    assert(before[a].children[b] < before.len());
                } else if b > index {
                    assert(rs[a].children[b] == ch[b - 1]);
                    assert(before[a].children[b - 1] < before.len());
                }
            } else {
                assert(rs[a] == before[a]);
                assert(before[a].children[b] < before.len());
            }
        }
        assert forall|a: int| 0 <= a < rs.len() implies (#[trigger] rs[a].parent matches Some(p) ==> p < rs.len()) by {
            assert(rs[a].parent == before[a].parent);
            assert(before[a].parent matches Some(p) ==> p < before.len());
        }
    }
    Ok(())
}

/// One edit inside a transaction.
pub enum Operation {
    Assign { node: usize, tag: u8, value: String, float: Option<FloatBits> },
    Insert {
        parent: usize,
        index: usize,
        name: Option<String>,
        kind: String,
        value: String,
        float: Option<FloatBits>,
    },
    Template {
        parent: usize,
        index: usize,
        name: Option<String>,
        template: String,
        values: Vec<TemplateValue>,
    },
    Duplicate { node: usize },
    Remove { node: usize },
    Move { node: usize, index: usize },
    Retarget { node: usize, target: usize },
    /// An edit of the inventory whose item is `container`; capacity changes and amounts
    /// beyond an item's stack need `out_of_bounds`.
    Inventory { container: usize, action: crate::inventory::Edit, out_of_bounds: bool },
    Drops { action: crate::drops::Edit },
    General { values: Vec<crate::general::GeneralValue> },
    Progression { action: crate::progression::Edit },
}

/// What inserting a new scalar does to the records, or why it is refused.
pub open spec fn insert_spec(
    d: Document,
    parent: usize,
    index: usize,
    name: Option<Seq<char>>,
    kind: Seq<char>,
    value: Seq<char>,
    float: Option<FloatBits>,
) -> Result<Seq<RecordModel>, Seq<char>> {
    match scalar_spec(kind, name, value, float) {
        Err(m) => Err(m),
        Ok(rm) => match attach_check(d.rs(), d.roots@, parent, index, rm.name is Some) {
            Err(m) => Err(m),
            Ok(()) => Ok(attached(d.rs(), parent, index, rm)),
        },
    }
}

/// What an operation does to the records, for the operations whose outcome depends on
/// the document alone.
pub open spec fn operation_spec(d: Document, op: Operation) -> Option<Result<Seq<RecordModel>, Seq<char>>> {
    match op {
        Operation::Assign { node, tag, value, float } => Some(set_spec(d, node, tag, value@, float)),
        Operation::Insert { parent, index, name, kind, value, float } => Some(
            insert_spec(d, parent, index, opt_chars(name), kind@, value@, float),
        ),
        Operation::Remove { node } => Some(remove_spec(d, node)),
        Operation::Move { node, index } => Some(move_spec(d, node, index)),
        Operation::Retarget { node, target } => Some(retarget_spec(d, node, target)),
        _ => None,
    }
}

/// Whether `k` is the first template named `id`.
pub open spec fn first_template(templates: Seq<Template>, id: Seq<char>, k: int) -> bool {
    0 <= k < templates.len() && templates[k].id@ == id && forall|m: int| 0 <= m < k ==> (#[trigger] templates[m]).id@ != id
}

/// What building template `t` as child `index` of `parent` leaves, beside the new records:
/// the records before keep their content, except that the parent lists the new node, which
/// has one child per field.
pub open spec fn templated(rs: Seq<RecordModel>, rs2: Seq<RecordModel>, parent: usize, index: usize, t: Template) -> bool {
    let node = rs.len() as usize;
    &&& rs2.len() > rs.len()
    &&& rs2[node as int].parent == Some(parent)
    &&& rs2[node as int].children.len() == t.fields@.len()
    &&& rs2.take(rs.len() as int) == rs.update(
        parent as int,
        RecordModel { children: rs[parent as int].children.insert(index as int, node), ..rs[parent as int] },
    )
}

/// What an accepted operation did, taking `d` to `d2`: the exact records for the operations
/// that `operation_spec` describes; for a template, the first template of that name built
/// where it fits; for a duplicate, the copy placed after the node; for drops, general
/// values and progression edits, what their own write functions state of an accepted edit;
/// for a capacity change or a slot removal, that step followed by the fill size brought up
/// to date. What putting an item in a slot does is not described here.
pub open spec fn applied(d: Document, d2: Document, op: Operation, templates: Seq<Template>) -> bool {
    match operation_spec(d, op) {
        Some(spec) => spec == Ok::<Seq<RecordModel>, Seq<char>>(d2.rs()),
        None => match op {
            Operation::Template { parent, index, name, template, values } => exists|k: int|
                #[trigger] first_template(templates, template@, k) && template_room(d, parent, index, name is Some, templates[k], values@)
                    && templated(d.rs(), d2.rs(), parent, index, templates[k]),
            Operation::Duplicate { node } => parent_of(d, node, "Cannot duplicate the root"@) matches Ok(p) && duplicated(
                d.rs(),
                d2.rs(),
                node,
                p,
            ),
            Operation::Drops { action } => crate::drops::write_result(d, d2, action, Ok(())),
            Operation::General { values } => crate::general::writes_in_turn(d, d2, values@, Ok(())),
            Operation::Progression { action } => crate::progression::write_result(d, d2, action, Ok(())),
            Operation::Inventory { container, action, .. } => crate::inventory::slot_step(d, container, action) is Some
                ==> exists|d1: Document|
                d1.rs() == crate::inventory::slot_step(d, container, action)->Some_0->Ok_0 && crate::inventory::same_shape(d, d1)
                    && #[trigger] crate::inventory::fill_refresh(d1, container, crate::inventory::contents_spec(d, container)->Ok_0)
                    == Ok::<Seq<RecordModel>, Seq<char>>(d2.rs()),
            _ => true,
        },
    }
}

fn find_template(templates: &Vec<Template>, id: &str) -> (r: Option<usize>)
    ensures
        r matches Some(k) ==> k < templates@.len() && templates@[k as int].id@ == id@ && forall|m: int|
            0 <= m < k ==> (#[trigger] templates@[m]).id@ != id@,
        r is None ==> forall|k: int| 0 <= k < templates@.len() ==> (#[trigger] templates@[k]).id@ != id@,
{
    let mut k: usize = 0;
    while k < templates.len()
        invariant
            k <= templates@.len(),
            forall|m: int| 0 <= m < k ==> (#[trigger] templates@[m]).id@ != id@,
        decreases templates@.len() - k,
    {
        if crate::text::same_text(templates[k].id.as_str(), id) {
            return Some(k);
        }
        k = k + 1;
    }
    None
}

/// Applies one operation, recording the first version of every record it modifies.
pub fn apply(doc: &mut Document, j: &mut Journal, op: Operation, templates: &Vec<Template>) -> (r: Result<(), Error>)
    requires
        old(doc).wf(),
        tracks(old(j), old(doc).rs()),
    ensures
        final(doc).wf(),
        tracks(final(j), final(doc).rs()),
        final(j).start == old(j).start,
        final(j).origin == old(j).origin,
        forall|i: int| journaled(old(j), i) ==> journaled(final(j), i),
        final(doc).roots@ == old(doc).roots@,
        final(doc).objects@ == old(doc).objects@,
        final(doc).max_bytes == old(doc).max_bytes,
        final(doc).encoded_size == old(doc).encoded_size,
        final(doc).original_size == old(doc).original_size,
        final(doc).records@.len() >= old(doc).records@.len(),
        operation_spec(*old(doc), op) matches Some(spec) ==> edit_result(spec, *old(doc), *final(doc), r),
        op matches Operation::Template { parent, index, name, template, values } ==> {
            &&& (forall|k: int| 0 <= k < templates@.len() ==> (#[trigger] templates@[k]).id@ != template@) ==> (r matches Err(
                e,
            ) && e.0@ == "Unknown template"@ && *final(doc) == *old(doc))
            &&& forall|k: int|
                0 <= k < templates@.len() && (#[trigger] templates@[k]).id@ == template@ && (forall|m: int|
                    0 <= m < k ==> (#[trigger] templates@[m]).id@ != template@) ==> (r is Ok <==> template_room(
                    *old(doc),
                    parent,
                    index,
                    name is Some,
                    templates@[k],
                    values@,
                ))
        },
        op matches Operation::Duplicate { node } ==> match parent_of(*old(doc), node, "Cannot duplicate the root"@) {
            Err(m) => r matches Err(e) && e.0@ == m && final(doc).rs() == old(doc).rs(),
            Ok(p) => r is Ok ==> duplicated(old(doc).rs(), final(doc).rs(), node, p),
        },
        op matches Operation::Drops { action } ==> crate::drops::write_result(*old(doc), *final(doc), action, r),
        op matches Operation::General { values } ==> crate::general::writes_in_turn(*old(doc), *final(doc), values@, r),
        op matches Operation::Progression { action } ==> crate::progression::write_result(*old(doc), *final(doc), action, r),
        r is Ok ==> applied(*old(doc), *final(doc), op, templates@),
{
    match op {
        Operation::Assign { node, tag, value, float } => set_node(doc, j, node, tag, value.as_str(), float),
        Operation::Insert { parent, index, name, kind, value, float } => {
            let ghost nm = opt_chars(name);
            let rec = match scalar(kind.as_str(), name, value.as_str(), float) {
                Ok(r) => r,
                Err(e) => return Err(e),
            };
            let ghost rm = rec@;
            let ghost rs0 = doc.rs();
            match attach(doc, j, parent, index, rec) {
                Ok(_) => Ok(()),
                Err(e) => Err(e),
            }
        },
        Operation::Template { parent, index, name, template, values } => {
            let k = match find_template(templates, template.as_str()) {
                Some(k) => k,
                None => return Err(failure("Unknown template")),
            };
            match create_template(doc, j, parent, index, name, &templates[k], &values) {
                Ok(_) => {
                    assert(first_template(templates@, template@, k as int));
                    Ok(())
                },
                Err(e) => Err(e),
            }
        },
        Operation::Duplicate { node } => duplicate_node(doc, j, node),
        Operation::Remove { node } => remove_node(doc, j, node),
        Operation::Move { node, index } => move_node(doc, j, node, index),
        Operation::Retarget { node, target } => retarget_node(doc, j, node, target),
        Operation::Drops { action } => crate::drops::write(doc, j, action),
        Operation::General { values } => crate::general::write(doc, j, values, templates),
        Operation::Inventory { .. } => Err(failure("Inventory edits require a catalog")),
        Operation::Progression { action } => crate::progression::write(doc, j, action, templates),
    }
}

/// The children of a record whose name reads `name`, in order.
pub open spec fn named(rs: Seq<RecordModel>, ids: Seq<usize>, name: Seq<char>) -> Seq<usize>
    decreases ids.len(),
{
    if ids.len() == 0 {
        Seq::empty()
    } else {
        let rest = named(rs, ids.drop_last(), name);
        let id = ids.last();
        if id < rs.len() && (rs[id as int].name matches Some(n) && display_spec(n) == name) {
            rest.push(id)
        } else {
            rest
        }
    }
}

/// The node that field `name` of `parent` leads to, or why there is none.
pub open spec fn field_spec(d: Document, parent: usize, name: Seq<char>) -> Result<usize, Seq<char>> {
    match resolve_spec(d, parent) {
        Err(m) => Err(m),
        Ok(p) => match active_spec(d.rs(), d.roots@, p) {
            Err(m) => Err(m),
            Ok(()) => {
                let ms = named(d.rs(), d.rs()[p as int].children, name);
                if ms.len() != 1 {
                    Err("Missing or ambiguous field: "@ + name)
                } else {
                    resolve_spec(d, ms[0])
                }
            },
        },
    }
}

/// Follows the uniquely named field `name` of `parent`, and any reference it holds.
pub fn field(doc: &Document, parent: usize, name: &str) -> (r: Result<usize, Error>)
    requires
        doc.wf(),
    ensures
        match field_spec(*doc, parent, name@) {
            Ok(n) => r == Ok::<usize, Error>(n),
            Err(m) => r matches Err(e) && e.0@ == m,
        },
{
    let p = match resolve(doc, parent) {
        Ok(p) => p,
        Err(e) => return Err(e),
    };
    match active(doc, p) {
        Ok(()) => {},
        Err(e) => return Err(e),
    }
    assert(doc.rs()[p as int] == doc.records@[p as int]@);
    let children = &doc.records[p].children;
    let mut matches: Vec<usize> = Vec::new();
    let mut k: usize = 0;
    while k < children.len()
        invariant
            doc.wf(),
            p < doc.records@.len(),
            children@ == doc.rs()[p as int].children,
            k <= children@.len(),
            matches@ == named(doc.rs(), children@.take(k as int), name@),
        decreases children@.len() - k,
    {
        let id = children[k];
        assert(children@.take(k + 1).drop_last() =~= children@.take(k as int));
        assert(doc.rs()[p as int].children[k as int] < doc.rs().len());
        assert(doc.rs()[id as int] == doc.records@[id as int]@);
        let hit = match &doc.records[id].name {
            Some(n) => crate::text::same_text(n.display().as_str(), name),
            None => false,
        };
        if hit {
            matches.push(id);
        }
        k = k + 1;
    }
    assert(children@.take(k as int) =~= children@);
    if matches.len() != 1 {
        let mut m = crate::text::owned("Missing or ambiguous field: ");
        crate::text::push_text(&mut m, name);
        proof {
            reveal_strlit("Missing or ambiguous field: ");
        }
        return Err(Error(m));
    }
    resolve(doc, matches[0])
}

pub proof fn lemma_field_in_range(d: Document, parent: usize, name: Seq<char>)
    requires
        d.wf(),
        field_spec(d, parent, name) is Ok,
    ensures
        field_spec(d, parent, name)->Ok_0 < d.records@.len(),
{
    let p = resolve_spec(d, parent)->Ok_0;
    let ms = named(d.rs(), d.rs()[p as int].children, name);
    lemma_resolve_range(d, ms[0]);
}

/// Whether `n` is what a child of `parent` (after references) that is named `name` leads to.
pub open spec fn named_child(d: Document, parent: usize, name: Seq<char>, n: usize) -> bool {
    resolve_spec(d, parent) matches Ok(q) && exists|m: usize|
        #[trigger] resolve_spec(d, m) == Ok::<usize, Seq<char>>(n) && d.rs()[q as int].children.contains(m) && (d.rs()[m as int].name matches Some(
            nm,
        ) && display_spec(nm) == name)
}

proof fn lemma_named_members(rs: Seq<RecordModel>, ids: Seq<usize>, name: Seq<char>, i: int)
    requires
        0 <= i < named(rs, ids, name).len(),
    ensures
        ids.contains(named(rs, ids, name)[i]),
        rs[named(rs, ids, name)[i] as int].name matches Some(nm) && display_spec(nm) == name,
    decreases ids.len(),
{
    let rest = named(rs, ids.drop_last(), name);
    if i < rest.len() {
        lemma_named_members(rs, ids.drop_last(), name, i);
        let k = choose|k: int| 0 <= k < ids.drop_last().len() && ids.drop_last()[k] == rest[i];
        assert(ids[k] == rest[i]);
    } else {
        assert(ids[ids.len() - 1] == ids.last());
    }
}

/// A field that `field_spec` finds is what a child of the parent with that name leads to.
pub proof fn lemma_field_named(d: Document, parent: usize, name: Seq<char>)
    requires
        field_spec(d, parent, name) is Ok,
    ensures
        named_child(d, parent, name, field_spec(d, parent, name)->Ok_0),
{
    let q = resolve_spec(d, parent)->Ok_0;
    let ms = named(d.rs(), d.rs()[q as int].children, name);
    lemma_named_members(d.rs(), d.rs()[q as int].children, name, 0);
    let m = ms[0];
    assert(resolve_spec(d, m) == Ok::<usize, Seq<char>>(field_spec(d, parent, name)->Ok_0));
}

pub proof fn lemma_resolve_range(d: Document, id: usize)
    requires
        d.wf(),
        resolve_spec(d, id) is Ok,
    ensures
        resolve_spec(d, id)->Ok_0 < d.records@.len(),
{
}

/// Records that differ only in the payload of record `f`, which is no reference.
pub open spec fn payload_only(rs: Seq<RecordModel>, rs2: Seq<RecordModel>, f: int) -> bool {
    &&& rs2.len() == rs.len()
    &&& 0 <= f < rs.len()
    &&& spec_base_tag(rs[f].tag) != 10
    &&& forall|i: int| 0 <= i < rs.len() && i != f ==> rs2[i] == rs[i]
    &&& rs2[f] == (RecordModel { payload: rs2[f].payload, ..rs[f] })
}

proof fn lemma_climb_payload(rs: Seq<RecordModel>, rs2: Seq<RecordModel>, f: int, roots: Seq<usize>, tag: u8, cursor: usize, depth: nat)
    requires
        payload_only(rs, rs2, f),
    ensures
        climb(rs2, roots, tag, cursor, depth) == climb(rs, roots, tag, cursor, depth),
    decreases 257 - depth,
{
    if cursor < rs.len() {
        assert(rs2[cursor as int].parent == rs[cursor as int].parent);
        if let Some(p) = rs[cursor as int].parent {
            if p < rs.len() {
                assert(rs2[p as int].children == rs[p as int].children);
                if depth + 1 <= depth_limit() {
                    lemma_climb_payload(rs, rs2, f, roots, tag, p, depth + 1);
                }
            }
        }
    }
}

proof fn lemma_named_payload(rs: Seq<RecordModel>, rs2: Seq<RecordModel>, f: int, ids: Seq<usize>, name: Seq<char>)
    requires
        payload_only(rs, rs2, f),
    ensures
        named(rs2, ids, name) == named(rs, ids, name),
    decreases ids.len(),
{
    if ids.len() > 0 {
        lemma_named_payload(rs, rs2, f, ids.drop_last(), name);
        let id = ids.last();
        if id < rs.len() {
            assert(rs2[id as int].name == rs[id as int].name);
        }
    }
}

proof fn lemma_resolve_payload(d: Document, d2: Document, f: int, id: usize)
    requires
        payload_only(d.rs(), d2.rs(), f),
        d2.roots@ == d.roots@,
        d2.objects@ == d.objects@,
    ensures
        resolve_spec(d2, id) == resolve_spec(d, id),
        active_spec(d2.rs(), d2.roots@, id) == active_spec(d.rs(), d.roots@, id),
{
    if id < d.rs().len() {
        assert(d2.rs()[id as int].tag == d.rs()[id as int].tag);
        lemma_climb_payload(d.rs(), d2.rs(), f, d.roots@, d.rs()[id as int].tag, id, 0);
        if id as int != f {
            assert(d2.rs()[id as int] == d.rs()[id as int]);
        }
    }
}

/// Changing the payload of a record that is no reference leaves every field lookup as it
/// was.
pub proof fn lemma_field_payload(d: Document, d2: Document, f: int, parent: usize, name: Seq<char>)
    requires
        payload_only(d.rs(), d2.rs(), f),
        d2.roots@ == d.roots@,
        d2.objects@ == d.objects@,
    ensures
        field_spec(d2, parent, name) == field_spec(d, parent, name),
{
    lemma_resolve_payload(d, d2, f, parent);
    if let Ok(p) = resolve_spec(d, parent) {
        lemma_resolve_payload(d, d2, f, p);
        if active_spec(d.rs(), d.roots@, p) is Ok {
            assert(d2.rs()[p as int].children == d.rs()[p as int].children);
            lemma_named_payload(d.rs(), d2.rs(), f, d.rs()[p as int].children, name);
            let ms = named(d.rs(), d.rs()[p as int].children, name);
            if ms.len() == 1 {
                lemma_resolve_payload(d, d2, f, ms[0]);
            }
        }
    }
}

/// `rs2` keeps every record of `rs` in the tree as it was: the same tag and parent, and
/// among its children the same records of `rs`.
pub open spec fn links_kept(rs: Seq<RecordModel>, rs2: Seq<RecordModel>) -> bool {
    &&& rs2.len() >= rs.len()
    &&& forall|i: int| 0 <= i < rs.len() ==> (#[trigger] rs2[i]).parent == rs[i].parent && rs2[i].tag == rs[i].tag
    &&& forall|i: int, c: usize|
        0 <= i < rs.len() && c < rs.len() ==> (#[trigger] rs2[i].children.contains(c)) == rs[i].children.contains(c)
}

pub proof fn lemma_climb_kept(rs: Seq<RecordModel>, rs2: Seq<RecordModel>, roots: Seq<usize>, tag: u8, cursor: usize, depth: nat)
    requires
        links_kept(rs, rs2),
        cursor < rs.len(),
        forall|i: int| 0 <= i < rs.len() ==> (#[trigger] rs[i].parent matches Some(p) ==> p < rs.len()),
    ensures
        climb(rs2, roots, tag, cursor, depth) == climb(rs, roots, tag, cursor, depth),
    decreases 257 - depth,
{
    assert(rs2[cursor as int].parent == rs[cursor as int].parent);
    assert(rs[cursor as int].parent matches Some(p) ==> p < rs.len());
    if let Some(p) = rs[cursor as int].parent {
        assert(rs2[p as int].children.contains(cursor) == rs[p as int].children.contains(cursor));
        if depth + 1 <= depth_limit() {
            lemma_climb_kept(rs, rs2, roots, tag, p, depth + 1);
        }
    }
}

/// Appending a record below `parent` keeps every earlier record's links.
pub proof fn lemma_attached_kept(rs: Seq<RecordModel>, parent: usize, index: usize, r: RecordModel)
    requires
        parent < rs.len(),
        rs.len() <= usize::MAX,
        index <= rs[parent as int].children.len(),
    ensures
        links_kept(rs, attached(rs, parent, index, r)),
{
    let rs2 = attached(rs, parent, index, r);
    let ch = rs[parent as int].children;
    assert forall|i: int| 0 <= i < rs.len() implies (#[trigger] rs2[i]).parent == rs[i].parent && rs2[i].tag == rs[i].tag by {
        assert(rs2[i] == (if i == parent { RecordModel { children: ch.insert(index as int, rs.len() as usize), ..rs[i] } } else { rs[i] }));
    }
    assert forall|i: int, c: usize| 0 <= i < rs.len() && c < rs.len() implies (#[trigger] rs2[i].children.contains(c))
        == rs[i].children.contains(c) by {
        if i != parent {
            assert(rs2[i] == rs[i]);
        } else {
            let ch2 = ch.insert(index as int, rs.len() as usize);
            assert(rs2[i].children == ch2);
            if ch.contains(c) {
                let k = choose|k: int| 0 <= k < ch.len() && ch[k] == c;
                if k < index {
                    assert(ch2[k] == c);
                } else {
                    assert(ch2[k + 1] == c);
                }
            }
            if ch2.contains(c) {
                let k = choose|k: int| 0 <= k < ch2.len() && ch2[k] == c;
                if k < index {
                    assert(ch[k] == c);
                } else if k > index {
                    assert(ch[k - 1] == c);
                }
            }
        }
    }
}

pub proof fn lemma_kept_trans(a: Seq<RecordModel>, b: Seq<RecordModel>, c: Seq<RecordModel>)
    requires
        links_kept(a, b),
        links_kept(b, c),
    ensures
        links_kept(a, c),
{
    assert forall|i: int, x: usize| 0 <= i < a.len() && x < a.len() implies (#[trigger] c[i].children.contains(x)) == a[i].children.contains(x) by {
        assert(c[i].children.contains(x) == b[i].children.contains(x));
    }
    assert forall|i: int| 0 <= i < a.len() implies (#[trigger] c[i]).parent == a[i].parent && c[i].tag == a[i].tag by {
        assert(c[i].parent == b[i].parent);
    }
}

} // verus!
