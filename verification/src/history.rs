//! Open documents with atomic transactions, undo and redo, and a content hash that tells
//! whether a document differs from its last saved state.
use crate::wire::{
    base_tag, indices_ok, concat, failure, models, record_wire, spec_terminal, terminal, Document, Error, Payload, PayloadModel,
    Record, RecordModel, StringModel, TypeInfo, TypeModel, WireString, opt_string_view,
};
use crate::service::{page, page_matches, view, view_matches, NodeView, Page};
use crate::workspace::{active, active_spec, applied, object, object_spec, reference, reference_spec, apply, journaled, operation_spec, same_frame, set_payload, tracks, Journal, Operation, Template};
use crate::wire::default_limits;
use crate::inventory::{comma_at, lemma_cache_grow, new_guid, same_ignoring_case, write_inner, write_frame, Cache, Catalog, Snapshot, Updates};
use crate::encode::{add_type, definitions, emit, has_terminator, list_events, spec_encode, tree_events, type_id};
use crate::strings::display_spec;
use std::collections::HashMap;
use vstd::std_specs::hash::{axiom_spec_hash_map_iter, spec_hash_map_iter};
use vstd::std_specs::iter::IteratorSpec;
use sha2::Digest;
use vstd::prelude::*;

verus! {

broadcast use {vstd::std_specs::hash::group_hash_axioms, vstd::string::group_string_axioms};

/// The SHA-256 digest of a byte sequence.
pub uninterp spec fn sha256_digest(data: Seq<u8>) -> Seq<u8>;

/// Calls `sha2::Sha256::digest`. Claimed: the result is the SHA-256 digest of `data`, a
/// function of the bytes alone, 32 bytes long.
#[verifier::external_body]
pub(crate) fn sha256(data: &Vec<u8>) -> (h: Vec<u8>)
    ensures
        h@ == sha256_digest(data@),
        h@.len() == 32,
{
    sha2::Sha256::digest(data.as_slice()).to_vec()
}

/// How deep the content hash descends; deeper than any tree a workspace admits.
pub open spec fn hash_fuel() -> nat {
    260
}

/// Hash of the subtree at `id`: the digest of the record header followed by its children's hashes.
pub open spec fn node_hash(rs: Seq<RecordModel>, id: usize, fuel: nat) -> Seq<u8>
    decreases fuel, 0nat,
{
    if fuel == 0 || id >= rs.len() {
        Seq::empty()
    } else {
        sha256_digest(record_wire(rs[id as int]) + children_hash(rs, rs[id as int].children, (fuel - 1) as nat))
    }
}

/// The hashes of the subtrees at `ids`, concatenated.
pub open spec fn children_hash(rs: Seq<RecordModel>, ids: Seq<usize>, fuel: nat) -> Seq<u8>
    decreases fuel, 1nat, ids.len(),
{
    if ids.len() == 0 {
        Seq::empty()
    } else {
        children_hash(rs, ids.drop_last(), fuel) + node_hash(rs, ids.last(), fuel)
    }
}

/// Hash of the whole live tree: the digest of the root hashes.
pub open spec fn content_hash(rs: Seq<RecordModel>, roots: Seq<usize>) -> Seq<u8> {
    sha256_digest(children_hash(rs, roots, hash_fuel()))
}

fn hash_node(doc: &Document, id: usize, fuel: usize) -> (h: Vec<u8>)
    requires
        doc.wf(),
    ensures
        h@ == node_hash(doc.rs(), id, fuel as nat),
    decreases fuel, 0nat,
{
    if fuel == 0 || id >= doc.records.len() {
        return Vec::new();
    }
    let mut data: Vec<u8> = Vec::new();
    doc.records[id].write(&mut data);
    assert(doc.rs()[id as int] == doc.records@[id as int]@);
    let tail = hash_children(doc, &doc.records[id].children, fuel - 1);
    let mut k: usize = 0;
    let ghost head = data@;
    while k < tail.len()
        invariant
            k <= tail@.len(),
            data@ == head + tail@.take(k as int),
        decreases tail@.len() - k,
    {
        data.push(tail[k]);
        assert(tail@.take(k + 1) =~= tail@.take(k as int).push(tail@[k as int]));
        k = k + 1;
    }
    assert(tail@.take(k as int) =~= tail@);
    sha256(&data)
}

fn hash_children(doc: &Document, ids: &Vec<usize>, fuel: usize) -> (h: Vec<u8>)
    requires
        doc.wf(),
    ensures
        h@ == children_hash(doc.rs(), ids@, fuel as nat),
    decreases fuel, 1nat, ids@.len(),
{
    let mut out: Vec<u8> = Vec::new();
    let mut i: usize = 0;
    while i < ids.len()
        invariant
            doc.wf(),
            i <= ids@.len(),
            out@ == children_hash(doc.rs(), ids@.take(i as int), fuel as nat),
        decreases ids@.len() - i,
    {
        proof {
            assert(ids@.take(i + 1).drop_last() =~= ids@.take(i as int));
        }
        let h = hash_node(doc, ids[i], fuel);
        let mut k: usize = 0;
        let ghost head = out@;
        while k < h.len()
            invariant
                k <= h@.len(),
                out@ == head + h@.take(k as int),
            decreases h@.len() - k,
        {
            out.push(h[k]);
            assert(h@.take(k + 1) =~= h@.take(k as int).push(h@[k as int]));
            k = k + 1;
        }
        assert(h@.take(k as int) =~= h@);
        i = i + 1;
    }
    assert(ids@.take(i as int) =~= ids@);
    out
}

/// The content hash of a document's live tree.
pub fn root_hash(doc: &Document) -> (h: Vec<u8>)
    requires
        doc.wf(),
    ensures
        h@ == content_hash(doc.rs(), doc.roots@),
{
    let all = hash_children(doc, &doc.roots, 260);
    sha256(&all)
}

fn same_bytes(a: &Vec<u8>, b: &Vec<u8>) -> (r: bool)
    ensures
        r == (a@ == b@),
{
    if a.len() != b.len() {
        return false;
    }
    let mut i: usize = 0;
    while i < a.len()
        invariant
            a@.len() == b@.len(),
            i <= a@.len(),
            forall|k: int| 0 <= k < i ==> a@[k] == b@[k],
        decreases a@.len() - i,
    {
        if a[i] != b[i] {
            return false;
        }
        i = i + 1;
    }
    assert(a@ =~= b@);
    true
}

fn same_ids(a: &Vec<usize>, b: &Vec<usize>) -> (r: bool)
    ensures
        r == (a@ == b@),
{
    if a.len() != b.len() {
        return false;
    }
    let mut i: usize = 0;
    while i < a.len()
        invariant
            a@.len() == b@.len(),
            i <= a@.len(),
            forall|k: int| 0 <= k < i ==> a@[k] == b@[k],
        decreases a@.len() - i,
    {
        if a[i] != b[i] {
            return false;
        }
        i = i + 1;
    }
    assert(a@ =~= b@);
    true
}

fn same_string(a: &WireString, b: &WireString) -> (r: bool)
    ensures
        r == (a@ == b@),
{
    a.wide == b.wide && same_bytes(&a.bytes, &b.bytes)
}

fn same_payload(a: &Payload, b: &Payload) -> (r: bool)
    ensures
        r == (a@ == b@),
{
    match (a, b) {
        (Payload::Empty, Payload::Empty) => true,
        (Payload::Node { ty: t1, object: o1 }, Payload::Node { ty: t2, object: o2 }) => {
            let same_type = match (t1, t2) {
                (TypeInfo::Absent, TypeInfo::Absent) => true,
                (TypeInfo::Definition(i1, s1), TypeInfo::Definition(i2, s2)) => *i1 == *i2 && same_string(s1, s2),
                (TypeInfo::Reference(i1), TypeInfo::Reference(i2)) => *i1 == *i2,
                _ => false,
            };
            same_type && *o1 == *o2
        },
        (Payload::Array(c1), Payload::Array(c2)) => *c1 == *c2,
        (
            Payload::Packed { count: c1, width: w1, bytes: b1 },
            Payload::Packed { count: c2, width: w2, bytes: b2 },
        ) => *c1 == *c2 && *w1 == *w2 && same_bytes(b1, b2),
        (Payload::Fixed(b1), Payload::Fixed(b2)) => same_bytes(b1, b2),
        (Payload::Text(s1), Payload::Text(s2)) => same_string(s1, s2),
        _ => false,
    }
}

/// Whether two records have the same content and position in the tree.
pub fn same_record(a: &Record, b: &Record) -> (r: bool)
    ensures
        r == (a@ == b@),
{
    let same_name = match (&a.name, &b.name) {
        (Some(x), Some(y)) => same_string(x, y),
        (None, None) => true,
        _ => false,
    };
    a.tag == b.tag && same_name && same_payload(&a.payload, &b.payload) && a.parent == b.parent
        && same_ids(&a.children, &b.children) && a.offset == b.offset
}

/// The live records in depth-first order, parents before children; or why the hierarchy is
/// unsound (a node reached twice or deeper than the limit, an unknown or end-token node).
pub fn reachable(doc: &Document) -> (r: Result<Vec<usize>, Error>)
    ensures
        r matches Ok(ids) ==> forall|k: int| 0 <= k < ids@.len() ==> #[trigger] ids@[k] < doc.records@.len(),
{
    let n = doc.records.len();
    let mut seen: Vec<bool> = Vec::new();
    let mut i: usize = 0;
    while i < n
        invariant
            i <= n,
            seen@.len() == i,
        decreases n - i,
    {
        seen.push(false);
        i = i + 1;
    }
    let mut out: Vec<usize> = Vec::new();
    let mut stack: Vec<(usize, usize)> = Vec::new();
    let mut k: usize = 0;
    while k < doc.roots.len()
        invariant
            k <= doc.roots@.len(),
        decreases doc.roots@.len() - k,
    {
        stack.push((doc.roots[k], 0));
        k = k + 1;
    }
    while stack.len() > 0
        invariant
            n == doc.records@.len(),
            seen@.len() == n,
            forall|m: int| 0 <= m < out@.len() ==> #[trigger] out@[m] < n,
        decreases n - out@.len(),
    {
        if out.len() >= n {
            return Err(failure("Invalid/cyclic container hierarchy"));
        }
        let (id, depth) = stack.pop().unwrap();
        if depth > 256 || (id < n && seen[id]) {
            return Err(failure("Invalid/cyclic container hierarchy"));
        }
        if id >= n {
            return Err(failure("Unknown node"));
        }
        seen.set(id, true);
        let record = &doc.records[id];
        if record.tag == 0 || terminal(record.tag) {
            return Err(failure("Deleted node"));
        }
        out.push(id);
        let mut c = record.children.len();
        while c > 0
            invariant
                c <= record.children@.len(),
                depth <= 256,
            decreases c,
        {
            c = c - 1;
            stack.push((record.children[c], depth + 1));
        }
    }
    Ok(out)
}

impl Document {
    /// Rebuilds the object index from the live tree and checks the tree: no object declared
    /// twice, every reference resolved, every child pointing back at its parent. Brings array
    /// element counts up to date and recomputes the encoded size, which must fit the size limit.
    pub fn rebuild(&mut self) -> (r: Result<(), Error>)
        requires
            old(self).wf(),
        ensures
            final(self).wf(),
            final(self).roots@ == old(self).roots@,
            final(self).records@.len() == old(self).records@.len(),
            r is Ok ==> final(self).encoded_size == spec_encode(final(self).rs(), final(self).roots@).len()
                && final(self).encoded_size <= final(self).max_bytes,
    {
        let ids = match reachable(self) {
            Ok(v) => v,
            Err(e) => return Err(e),
        };
        if self.records.len() > 1_000_000 {
            return Err(failure("Record limit exceeded"));
        }
        let n = self.records.len();
        let mut objects: HashMap<i32, usize> = HashMap::new();
        let mut k: usize = 0;
        while k < ids.len()
            invariant
                self.wf(),
                n == self.records@.len(),
                forall|m: int| 0 <= m < ids@.len() ==> #[trigger] ids@[m] < n,
                forall|o: i32| #[trigger] objects@.contains_key(o) ==> objects@[o] < n && object_spec(self.rs()[objects@[o] as int]) == Some(o),
            decreases ids@.len() - k,
        {
            let id = ids[k];
            assert(self.rs()[id as int] == self.records@[id as int]@);
            if let Some(o) = object(&self.records[id]) {
                if objects.contains_key(&o) {
                    return Err(failure("Duplicate object ID"));
                }
                objects.insert(o, id);
            }
            k = k + 1;
        }
        self.objects = objects;
        let mut k: usize = 0;
        while k < ids.len()
            invariant
                self.wf(),
                n == self.records@.len(),
                n == old(self).records@.len(),
                self.roots@ == old(self).roots@,
                forall|m: int| 0 <= m < ids@.len() ==> #[trigger] ids@[m] < n,
            decreases ids@.len() - k,
        {
            let id = ids[k];
            assert(self.rs()[id as int] == self.records@[id as int]@);
            let r = &self.records[id];
            if base_tag(r.tag) == 10 {
                if let Payload::Fixed(b) = &r.payload {
                    if b.len() != 4 {
                        return Err(failure("Invalid reference"));
                    }
                    match reference(r) {
                        Some(o) => {
                            if !self.objects.contains_key(&o) {
                                return Err(
                                    failure("Removal would leave a dangling reference; retarget it in the same transaction"),
                                );
                            }
                        },
                        None => return Err(failure("Invalid reference")),
                    }
                }
            }
            let mut c: usize = 0;
            while c < r.children.len()
                invariant
                    self.wf(),
                    n == self.records@.len(),
                    n == old(self).records@.len(),
                    self.roots@ == old(self).roots@,
                    id < n,
                    r@ == self.rs()[id as int],
                    c <= r.children@.len(),
                decreases r.children@.len() - c,
            {
                assert(self.rs()[id as int].children[c as int] < n);
                let child = r.children[c];
                if self.records[child].parent != Some(id) {
                    return Err(failure("Invalid parent link"));
                }
                c = c + 1;
            }
            k = k + 1;
        }
        let mut journal = Journal::begin(self);
        let mut k: usize = 0;
        while k < ids.len()
            invariant
                self.wf(),
                tracks(&journal, self.rs()),
                n == self.records@.len(),
                n == old(self).records@.len(),
                self.roots@ == old(self).roots@,
                forall|m: int| 0 <= m < ids@.len() ==> #[trigger] ids@[m] < n,
            decreases ids@.len() - k,
        {
            normalize_array(self, &mut journal, ids[k]);
            k = k + 1;
        }
        let bytes = self.encode();
        self.encoded_size = bytes.len();
        if bytes.len() > self.max_bytes {
            return Err(failure("Document exceeds size limit"));
        }
        Ok(())
    }
}

/// One record's versions on either side of a transaction.
pub struct Change {
    pub id: usize,
    /// `None` for a record the transaction created.
    pub before: Option<Record>,
    pub after: Record,
    pub before_live: bool,
    pub after_live: bool,
}

pub struct ChangeModel {
    pub id: usize,
    pub before: Option<RecordModel>,
    pub after: RecordModel,
    pub before_live: bool,
    pub after_live: bool,
}

pub open spec fn opt_record_view(r: Option<Record>) -> Option<RecordModel> {
    match r {
        Some(r) => Some(r@),
        None => None,
    }
}

impl View for Change {
    type V = ChangeModel;

    open spec fn view(&self) -> ChangeModel {
        ChangeModel {
            id: self.id,
            before: opt_record_view(self.before),
            after: self.after@,
            before_live: self.before_live,
            after_live: self.after_live,
        }
    }
}

pub open spec fn change_models(cs: Seq<Change>) -> Seq<ChangeModel> {
    cs.map_values(|c: Change| c@)
}

/// What one transaction changed, so that it can be undone and redone.
pub struct Patch {
    pub changes: Vec<Change>,
    /// Whether the transaction could have changed the general fields.
    pub general: bool,
    /// The inventories that inventory edits touched.
    pub containers: Vec<usize>,
    /// Whether other edits may have changed what the inventory cache holds.
    pub invalidated: bool,
    /// Approximate memory held by the patch.
    pub bytes: u64,
    pub types_before: HashMap<i32, WireString>,
    pub types_after: HashMap<i32, WireString>,
}

/// The records with the earlier version of every changed record written back.
pub open spec fn undo_image(rs: Seq<RecordModel>, cs: Seq<ChangeModel>) -> Seq<RecordModel>
    decreases cs.len(),
{
    if cs.len() == 0 {
        rs
    } else {
        let prev = undo_image(rs, cs.drop_last());
        match cs.last().before {
            Some(b) => prev.update(cs.last().id as int, b),
            None => prev,
        }
    }
}

/// The records with the later version of every changed record written back.
pub open spec fn redo_image(rs: Seq<RecordModel>, cs: Seq<ChangeModel>) -> Seq<RecordModel>
    decreases cs.len(),
{
    if cs.len() == 0 {
        rs
    } else {
        redo_image(rs, cs.drop_last()).update(cs.last().id as int, cs.last().after)
    }
}

/// `cs` records exactly how `before` became `after`: each changed record once, with both
/// versions, and every other record that existed unchanged.
#[verifier::opaque]
pub open spec fn restores(before: Seq<RecordModel>, after: Seq<RecordModel>, cs: Seq<ChangeModel>) -> bool {
    &&& after.len() >= before.len()
    &&& forall|k: int| 0 <= k < cs.len() ==> (#[trigger] cs[k]).id < after.len()
    &&& forall|k1: int, k2: int| 0 <= k1 < cs.len() && 0 <= k2 < cs.len() && k1 != k2 ==> cs[k1].id != cs[k2].id
    &&& forall|k: int| 0 <= k < cs.len() ==> ((#[trigger] cs[k]).before is Some <==> cs[k].id < before.len())
    &&& forall|k: int| 0 <= k < cs.len() ==> ((#[trigger] cs[k]).before matches Some(b) ==> b == before[cs[k].id as int])
    &&& forall|k: int| 0 <= k < cs.len() ==> after[(#[trigger] cs[k]).id as int] == cs[k].after
    &&& forall|i: int| 0 <= i < before.len() && (forall|k: int| 0 <= k < cs.len() ==> (#[trigger] cs[k]).id != i) ==> after[i] == before[i]
    &&& forall|i: int| before.len() <= i < after.len() ==> #[trigger] listed(cs, i)
}

/// Whether some change is about record `i`.
pub open spec fn listed(cs: Seq<ChangeModel>, i: int) -> bool {
    exists|k: int| 0 <= k < cs.len() && (#[trigger] cs[k]).id == i
}

/// Record indices that stay valid in a document of `n` records.
pub open spec fn model_ok(r: RecordModel, n: nat) -> bool {
    &&& forall|k: int| 0 <= k < r.children.len() ==> #[trigger] r.children[k] < n
    &&& r.parent matches Some(p) ==> p < n
}

pub open spec fn changes_ok(cs: Seq<Change>, n: nat) -> bool {
    forall|k: int| 0 <= k < cs.len() ==> {
        let c = #[trigger] cs[k];
        &&& c.id < n
        &&& model_ok(c.after@, n)
        &&& c.before matches Some(b) ==> model_ok(b@, n)
    }
}

pub open spec fn patch_ok(p: Patch, n: nat) -> bool {
    changes_ok(p.changes@, n)
}

/// One open document with its history.
pub struct Session {
    pub doc: Document,
    pub revision: u32,
    /// Content hash when the document was opened or last saved.
    pub saved: Vec<u8>,
    /// Content hash now.
    pub current: Vec<u8>,
    pub undo: Vec<Patch>,
    pub redo: Vec<Patch>,
    /// Which records are part of the live tree.
    pub live: Vec<bool>,
    pub live_count: usize,
    /// Encoded size, when known since the last edit.
    pub encoded_bytes: Option<usize>,
    /// The item definitions that inventory edits go by.
    pub catalog: Catalog,
    /// Discovered inventories, when known since the catalog or an unrelated edit changed.
    pub inventory: Option<Cache>,
}

impl Session {
    pub open spec fn inv(&self) -> bool {
        &&& self.doc.wf()
        &&& self.inventory matches Some(c) ==> c.wf(self.doc.records@.len() as nat)
        &&& self.undo@.len() + self.redo@.len() <= 100
        &&& self.live@.len() == self.doc.records@.len()
        &&& forall|k: int| 0 <= k < self.undo@.len() ==> patch_ok(#[trigger] self.undo@[k], self.doc.records@.len() as nat)
        &&& forall|k: int| 0 <= k < self.redo@.len() ==> patch_ok(#[trigger] self.redo@[k], self.doc.records@.len() as nat)
        &&& self.current@ == content_hash(self.doc.rs(), self.doc.roots@)
    }
}

/// Summary of one open document.
pub struct DocumentSummary {
    pub document_id: u32,
    pub revision: u32,
    pub original_bytes: usize,
    pub encoded_bytes: Option<usize>,
    pub records: usize,
    pub types: usize,
    pub objects: usize,
    pub dirty: bool,
    pub can_undo: bool,
    pub can_redo: bool,
}

pub open spec fn summary_of(id: u32, s: Session) -> DocumentSummary {
    DocumentSummary {
        document_id: id,
        revision: s.revision,
        original_bytes: s.doc.original_size,
        encoded_bytes: s.encoded_bytes,
        records: s.live_count,
        types: s.doc.types@.len() as usize,
        objects: s.doc.objects@.len() as usize,
        dirty: s.saved@ != s.current@,
        can_undo: s.undo@.len() > 0,
        can_redo: s.redo@.len() > 0,
    }
}

/// Several open documents, each with independent atomic history.
pub struct Workspace {
    pub sessions: HashMap<u32, Session>,
    /// The most recently assigned document ID.
    pub next: u32,
    /// Node shapes that `Template` operations insert.
    pub templates: Vec<Template>,
}

impl Default for Workspace {
    fn default() -> (w: Self)
        ensures
            w.sessions@ == Map::<u32, Session>::empty(),
            w.next == 0,
            w.templates@.len() == 0,
    {
        Workspace { sessions: HashMap::new(), next: 0, templates: Vec::new() }
    }
}

pub open spec fn closed_text() -> Seq<char> {
    "Document is closed"@
}

pub open spec fn stale_text() -> Seq<char> {
    "Stale revision. Refresh before applying this edit."@
}

/// Whether a request at `revision` may change document `id`, or why not.
pub open spec fn revision_check(w: Workspace, id: u32, revision: u32) -> Result<(), Seq<char>> {
    if !w.sessions@.contains_key(id) {
        Err(closed_text())
    } else if w.sessions@[id].revision != revision {
        Err(stale_text())
    } else {
        Ok(())
    }
}

/// The largest object ID in an object index, or -1.
fn max_object_key(objects: &HashMap<i32, usize>) -> (r: i64)
    ensures
        i32::MIN <= r <= i32::MAX,
        objects@.dom().is_empty() ==> r == -1,
        forall|k: i32| #[trigger] objects@.contains_key(k) ==> k <= r,
        !objects@.dom().is_empty() ==> objects@.contains_key(r as i32),
{
    let ghost all = spec_hash_map_iter(objects).remaining();
    proof {
        axiom_spec_hash_map_iter(objects);
    }
    let mut best: i64 = -1;
    let mut any = false;
    for entry in it: objects.iter()
        invariant
            all == spec_hash_map_iter(objects).remaining(),
            it.seq() == all,
            forall|i: int| 0 <= i < all.len() ==> objects@.contains_key(*(#[trigger] all[i]).0),
            i32::MIN <= best <= i32::MAX,
            !any ==> best == -1 && it.index() == 0,
            any ==> objects@.contains_key(best as i32),
            forall|i: int| 0 <= i < it.index() ==> *(#[trigger] all[i]).0 <= best,
    {
        let (k, _) = entry;
        if !any || *k as i64 > best {
            best = *k as i64;
            any = true;
        }
    }
    proof {
        axiom_spec_hash_map_iter(objects);
    }
    assert forall|k: i32| #[trigger] objects@.contains_key(k) implies k <= best by {
        assert(all.contains((&k, &objects@[k])));
        let i = choose|i: int| 0 <= i < all.len() && all[i] == (&k, &objects@[k]);
        assert(*all[i].0 <= best);
    }
    if any {
        assert(!objects@.dom().is_empty()) by {
            assert(objects@.dom().contains(best as i32));
        }
    } else {
        assert(all.len() == 0);
        assert forall|k: i32| !objects@.dom().contains(k) by {
            if objects@.contains_key(k) {
                assert(all.contains((&k, &objects@[k])));
            }
        }
        assert(objects@.dom() =~= Set::empty());
    }
    best
}

impl Workspace {
    /// Every open session is sound.
    pub open spec fn inv(&self) -> bool {
        forall|id: u32| #[trigger] self.sessions@.contains_key(id) ==> self.sessions@[id].inv()
    }

    fn check_revision(&self, id: u32, revision: u32) -> (r: Result<(), Error>)
        ensures
            match revision_check(*self, id, revision) {
                Ok(()) => r is Ok,
                Err(m) => r matches Err(e) && e.0@ == m,
            },
    {
        match self.sessions.get(&id) {
            Some(s) => {
                if s.revision != revision {
                    return Err(failure("Stale revision. Refresh before applying this edit."));
                }
                Ok(())
            },
            None => Err(failure("Document is closed")),
        }
    }

    /// The summary of document `id`.
    pub fn summary(&self, id: u32) -> (r: Result<DocumentSummary, Error>)
        ensures
            self.sessions@.contains_key(id) ==> r == Ok::<DocumentSummary, Error>(summary_of(id, self.sessions@[id])),
            !self.sessions@.contains_key(id) ==> (r matches Err(e) && e.0@ == closed_text()),
    {
        match self.sessions.get(&id) {
            Some(s) => Ok(
                DocumentSummary {
                    document_id: id,
                    revision: s.revision,
                    original_bytes: s.doc.original_size,
                    encoded_bytes: s.encoded_bytes,
                    records: s.live_count,
                    types: s.doc.types.len(),
                    objects: s.doc.objects.len(),
                    dirty: !same_bytes(&s.saved, &s.current),
                    can_undo: s.undo.len() > 0,
                    can_redo: s.redo.len() > 0,
                },
            ),
            None => Err(failure("Document is closed")),
        }
    }

    /// Opens a document and gives it the next document ID.
    pub fn open(&mut self, bytes: &[u8]) -> (r: Result<DocumentSummary, Error>)
        requires
            old(self).inv(),
        ensures
            final(self).inv(),
            final(self).templates == old(self).templates,
            r is Err ==> final(self).sessions@ == old(self).sessions@,
            r matches Ok(sum) ==> {
                let id = final(self).next;
                let s = final(self).sessions@[id];
                &&& id == old(self).next + 1
                &&& final(self).sessions@ == old(self).sessions@.insert(id, s)
                &&& (Document { next_object_id: None, ..s.doc }).decoded_from(bytes@, default_limits())
                &&& s.doc.next_object_id matches Some(n) && (forall|k: i32| #[trigger] s.doc.objects@.contains_key(k) ==> k < n)
                    && (if s.doc.objects@.dom().is_empty() { n == 0 } else { s.doc.objects@.contains_key((n - 1) as i32) })
                &&& s.revision == 1
                &&& s.undo@.len() == 0
                &&& s.redo@.len() == 0
                &&& s.saved@ == s.current@
                &&& s.encoded_bytes == Some(bytes@.len() as usize)
                &&& sum == summary_of(id, s)
            },
            bytes@.len() > default_limits().max_bytes ==> r is Err,
    {
        let mut doc = match Document::decode(bytes) {
            Ok(d) => d,
            Err(e) => return Err(e),
        };
        let ghost decoded = doc;
        let m = max_object_key(&doc.objects);
        if m + 1 > i32::MAX as i64 {
            return Err(failure("Object ID limit exceeded"));
        }
        doc.next_object_id = Some((m + 1) as i32);
        assert(Document { next_object_id: None, ..doc } == decoded);
        if self.next == u32::MAX {
            return Err(failure("Document ID limit exceeded"));
        }
        self.next = self.next + 1;
        let ids = match reachable(&doc) {
            Ok(ids) => ids,
            Err(e) => return Err(e),
        };
        let n = doc.records.len();
        let mut live: Vec<bool> = Vec::new();
        let mut i: usize = 0;
        while i < n
            invariant
                i <= n,
                live@.len() == i,
            decreases n - i,
        {
            live.push(false);
            i = i + 1;
        }
        let mut i: usize = 0;
        while i < ids.len()
            invariant
                live@.len() == n,
                n == doc.records@.len(),
                forall|k: int| 0 <= k < ids@.len() ==> #[trigger] ids@[k] < n,
            decreases ids@.len() - i,
        {
            live.set(ids[i], true);
            i = i + 1;
        }
        let hash = root_hash(&doc);
        let saved = hash.clone();
        assert(saved@ == hash@);
        let s = Session {
            doc,
            revision: 1,
            saved,
            current: hash,
            undo: Vec::new(),
            redo: Vec::new(),
            live,
            live_count: ids.len(),
            encoded_bytes: Some(bytes.len()),
            catalog: Catalog { items: Vec::new() },
            inventory: None,
        };
        let id = self.next;
        self.sessions.insert(id, s);
        proof {
            assert forall|k: u32| #[trigger] self.sessions@.contains_key(k) implies self.sessions@[k].inv() by {
                if k != id {
                    assert(old(self).sessions@.contains_key(k));
                }
            }
        }
        self.summary(id)
    }
}

/// Number of unset flags.
pub open spec fn unset(flags: Seq<bool>) -> nat
    decreases flags.len(),
{
    if flags.len() == 0 {
        0
    } else {
        unset(flags.drop_last()) + if flags.last() {
            0nat
        } else {
            1nat
        }
    }
}

pub proof fn lemma_unset_set(flags: Seq<bool>, i: int)
    requires
        0 <= i < flags.len(),
        !flags[i],
    ensures
        unset(flags.update(i, true)) + 1 == unset(flags),
    decreases flags.len(),
{
    let f2 = flags.update(i, true);
    if i == flags.len() - 1 {
        assert(f2.drop_last() =~= flags.drop_last());
    } else {
        assert(f2.drop_last() =~= flags.drop_last().update(i, true));
        lemma_unset_set(flags.drop_last(), i);
    }
}

/// The version of record `id` when the transaction began.
#[verifier::loop_isolation(false)]
fn original<'a>(records: &'a Vec<Record>, j: &'a Journal, id: usize) -> (r: &'a Record)
    requires
        tracks(j, models(records@)),
        id < j.start,
    ensures
        r@ == j.origin@[id as int],
{
    let mut k: usize = 0;
    while k < j.before.len()
        invariant
            k <= j.before@.len(),
            forall|m: int| 0 <= m < k ==> j.before@[m].0 != id,
        decreases j.before@.len() - k,
    {
        if j.before[k].0 == id {
            return &j.before[k].1;
        }
        k = k + 1;
    }
    assert(!journaled(j, id as int)) by {
        if journaled(j, id as int) {
            let k2 = choose|k2: int| 0 <= k2 < j.before@.len() && #[trigger] j.before@[k2].0 == id;
            assert(j.before@[k2].0 != id);
        }
    }
    assert(models(records@)[id as int] == records@[id as int]@);
    &records[id]
}

/// A set of record IDs kept both as flags and as a list in insertion order.
pub struct IdSet {
    pub flags: Vec<bool>,
    pub list: Vec<usize>,
}

pub open spec fn id_set_ok(s: &IdSet, n: nat) -> bool {
    &&& s.flags@.len() == n
    &&& forall|k: int| 0 <= k < s.list@.len() ==> #[trigger] s.list@[k] < n
    &&& forall|k: int| 0 <= k < s.list@.len() ==> s.flags@[#[trigger] s.list@[k] as int]
    &&& forall|i: int| 0 <= i < n && s.flags@[i] ==> s.list@.contains(i as usize)
    &&& forall|a: int, b: int| 0 <= a < s.list@.len() && 0 <= b < s.list@.len() && a != b ==> s.list@[a] != s.list@[b]
}

fn new_id_set(n: usize) -> (s: IdSet)
    ensures
        id_set_ok(&s, n as nat),
        s.list@.len() == 0,
{
    let mut flags: Vec<bool> = Vec::new();
    let mut i: usize = 0;
    while i < n
        invariant
            i <= n,
            flags@.len() == i,
            forall|k: int| 0 <= k < i ==> !flags@[k],
        decreases n - i,
    {
        flags.push(false);
        i = i + 1;
    }
    IdSet { flags, list: Vec::new() }
}

fn add_id(s: &mut IdSet, x: usize)
    requires
        id_set_ok(old(s), old(s).flags@.len()),
        x < old(s).flags@.len(),
    ensures
        id_set_ok(final(s), old(s).flags@.len()),
        final(s).flags@[x as int],
        forall|i: int| 0 <= i < old(s).flags@.len() && old(s).flags@[i] ==> final(s).flags@[i],
{
    if s.flags[x] {
        return;
    }
    let ghost n = s.flags@.len();
    let ghost old_list = s.list@;
    s.flags.set(x, true);
    s.list.push(x);
    proof {
        assert forall|i: int| 0 <= i < n && s.flags@[i] implies s.list@.contains(i as usize) by {
            if i == x {
                assert(s.list@[s.list@.len() - 1] == x);
            } else {
                assert(old_list.contains(i as usize));
                let k = choose|k: int| 0 <= k < old_list.len() && old_list[k] == i as usize;
                assert(s.list@[k] == i as usize);
            }
        }
        assert forall|a: int, b: int| 0 <= a < s.list@.len() && 0 <= b < s.list@.len() && a != b implies s.list@[a] != s.list@[b] by {
            if a == s.list@.len() - 1 && b < old_list.len() {
                assert(s.flags@[old_list[b] as int]);
            } else if b == s.list@.len() - 1 && a < old_list.len() {
                assert(s.flags@[old_list[a] as int]);
            }
        }
        assert forall|k: int| 0 <= k < s.list@.len() implies s.flags@[#[trigger] s.list@[k] as int] by {
            if k < old_list.len() {
                assert(s.list@[k] == old_list[k]);
            }
        }
    }
}

/// Whether a record created by the transaction hangs deeper than the depth limit allows.
#[verifier::loop_isolation(false)]
fn too_deep(doc: &Document, x: usize) -> (r: bool)
    requires
        doc.wf(),
        x < doc.records@.len(),
    ensures
        r == (active_spec(doc.rs(), doc.roots@, x) == Err::<(), Seq<char>>("Hierarchy depth exceeded"@)),
{
    proof {
        reveal_strlit("Hierarchy depth exceeded");
        reveal_strlit("Node was removed");
        reveal_strlit("Invalid parent");
        assert("Node was removed"@[0] != "Hierarchy depth exceeded"@[0]);
    }
    assert(doc.rs()[x as int] == doc.records@[x as int]@);
    let tag = doc.records[x].tag;
    let mut cursor = x;
    let mut depth: usize = 0;
    loop
        invariant
            doc.wf(),
            cursor < doc.records@.len(),
            depth <= 256,
            tag == doc.rs()[x as int].tag,
            active_spec(doc.rs(), doc.roots@, x) == crate::workspace::climb(doc.rs(), doc.roots@, tag, cursor, depth as nat),
        decreases 257 - depth,
    {
        assert(doc.rs()[cursor as int] == doc.records@[cursor as int]@);
        assert(doc.rs()[cursor as int].parent matches Some(p) ==> p < doc.rs().len());
        match doc.records[cursor].parent {
            Some(p) => {
                assert(doc.rs()[p as int] == doc.records@[p as int]@);
                if !crate::workspace::contains(&doc.records[p].children, cursor) {
                    assert("Node was removed"@ != "Hierarchy depth exceeded"@);
                    return false;
                }
                depth = depth + 1;
                if depth > 256 || (depth == 256 && ((1 <= tag && tag <= 4) || tag == 6)) {
                    return true;
                }
                cursor = p;
            },
            None => {
                assert("Node was removed"@ != "Hierarchy depth exceeded"@);
                return false;
            },
        }
    }
}

/// The records a transaction changed, with both versions and their liveness; new records
/// must respect the depth limit.
#[verifier::loop_isolation(false)]
#[verifier::spinoff_prover]
#[verifier::rlimit(40)]
fn collect_changes(s: &Session, j: &Journal) -> (r: Result<Vec<Change>, Error>)
    requires
        s.doc.wf(),
        tracks(j, s.doc.rs()),
        indices_ok(j.origin@, s.doc.roots@),
    ensures
        r matches Ok(cs) ==> restores(j.origin@, s.doc.rs(), change_models(cs@)) && changes_ok(
            cs@,
            s.doc.records@.len() as nat,
        ),
        r is Err <==> exists|x: int|
            j.start <= x < s.doc.records@.len() && #[trigger] active_spec(s.doc.rs(), s.doc.roots@, x as usize) == Err::<
                (),
                Seq<char>,
            >("Hierarchy depth exceeded"@),
        r matches Err(e) ==> e.0@ == "Hierarchy depth exceeded"@,
{
    let doc = &s.doc;
    let n = doc.records.len();
    let start = j.start;
    let ghost rs = doc.rs();
    let ghost origin = j.origin@;
    let mut affected = new_id_set(n);
    // Every record the operations modified, and every record they created.
    let mut k: usize = 0;
    while k < j.before.len()
        invariant
            id_set_ok(&affected, n as nat),
            n == doc.records@.len(),
            tracks(j, doc.rs()),
            k <= j.before@.len(),
            forall|m: int| 0 <= m < k ==> affected.flags@[#[trigger] j.before@[m].0 as int],
        decreases j.before@.len() - k,
    {
        assert(j.before@[k as int].0 < j.start);
        add_id(&mut affected, j.before[k].0);
        k = k + 1;
    }
    let mut x = start;
    while x < n
        invariant
            id_set_ok(&affected, n as nat),
            n == doc.records@.len(),
            tracks(j, doc.rs()),
            start == j.start,
            start <= x <= n,
            forall|m: int| 0 <= m < j.before@.len() ==> affected.flags@[#[trigger] j.before@[m].0 as int],
            forall|i: int| start <= i < x ==> affected.flags@[i],
        decreases n - x,
    {
        add_id(&mut affected, x);
        x = x + 1;
    }
    // Every record in a subtree that a modified record no longer lists.
    let mut seen: Vec<bool> = Vec::new();
    let mut i: usize = 0;
    while i < n
        invariant
            i <= n,
            seen@.len() == i,
        decreases n - i,
    {
        seen.push(false);
        i = i + 1;
    }
    let mut k: usize = 0;
    while k < j.before.len()
        invariant
            doc.wf(),
            id_set_ok(&affected, n as nat),
            n == doc.records@.len(),
            tracks(j, doc.rs()),
            indices_ok(j.origin@, doc.roots@),
            start == j.start,
            seen@.len() == n,
            k <= j.before@.len(),
            forall|m: int| 0 <= m < j.before@.len() ==> affected.flags@[#[trigger] j.before@[m].0 as int],
            forall|i: int| start <= i < n ==> affected.flags@[i],
        decreases j.before@.len() - k,
    {
        let id = j.before[k].0;
        let old_children = &j.before[k].1.children;
        assert(j.before@[k as int].1@ == j.origin@[id as int]);
        assert(doc.rs()[id as int] == doc.records@[id as int]@);
        let mut pending: Vec<usize> = Vec::new();
        let mut c: usize = 0;
        while c < old_children.len()
            invariant
                c <= old_children@.len(),
                old_children@ == j.origin@[id as int].children,
                id < j.start,
                indices_ok(j.origin@, doc.roots@),
                j.start <= n,
                forall|m: int| 0 <= m < pending@.len() ==> #[trigger] pending@[m] < n,
            decreases old_children@.len() - c,
        {
            assert(j.origin@[id as int].children[c as int] < j.origin@.len());
            if !crate::workspace::contains(&doc.records[id].children, old_children[c]) {
                pending.push(old_children[c]);
            }
            c = c + 1;
        }
        while pending.len() > 0
            invariant
                doc.wf(),
                id_set_ok(&affected, n as nat),
                n == doc.records@.len(),
                tracks(j, doc.rs()),
                indices_ok(j.origin@, doc.roots@),
                start == j.start,
                seen@.len() == n,
                forall|m: int| 0 <= m < pending@.len() ==> #[trigger] pending@[m] < n,
                forall|m: int| 0 <= m < j.before@.len() ==> affected.flags@[#[trigger] j.before@[m].0 as int],
                forall|i: int| start <= i < n ==> affected.flags@[i],
            decreases unset(seen@), pending@.len(),
        {
            let m = pending.pop().unwrap();
            if seen[m] {
                continue;
            }
            proof {
                lemma_unset_set(seen@, m as int);
            }
            seen.set(m, true);
            add_id(&mut affected, m);
            let children = if m < start {
                &original(&doc.records, j, m).children
            } else {
                &doc.records[m].children
            };
            proof {
                if m < start {
                    assert(children@ == j.origin@[m as int].children);
                } else {
                    assert(children@ == doc.rs()[m as int].children);
                }
            }
            let mut c: usize = 0;
            while c < children.len()
                invariant
                    c <= children@.len(),
                    m < n,
                    doc.wf(),
                    n == doc.records@.len(),
                    indices_ok(j.origin@, doc.roots@),
                    j.start <= n,
                    m < start ==> children@ == j.origin@[m as int].children,
                    m >= start ==> children@ == doc.rs()[m as int].children,
                    forall|q: int| 0 <= q < pending@.len() ==> #[trigger] pending@[q] < n,
                decreases children@.len() - c,
            {
                proof {
                    if m < start {
                        assert(j.origin@[m as int].children[c as int] < j.origin@.len());
                    } else {
                        assert(doc.rs()[m as int].children[c as int] < doc.rs().len());
                    }
                }
                pending.push(children[c]);
                c = c + 1;
            }
        }
        k = k + 1;
    }
    // One change for each affected record whose content or liveness differs.
    let mut changes: Vec<Change> = Vec::new();
    let ghost mut pos: Seq<int> = Seq::empty();
    let ghost list = affected.list@;
    let mut t: usize = 0;
    while t < affected.list.len()
        invariant
            doc.wf(),
            id_set_ok(&affected, n as nat),
            list == affected.list@,
            n == doc.records@.len(),
            tracks(j, doc.rs()),
            start == j.start,
            start <= n,
            forall|m: int| 0 <= m < j.before@.len() ==> affected.flags@[#[trigger] j.before@[m].0 as int],
            forall|i: int| start <= i < n ==> affected.flags@[i],
            t <= list.len(),
            changes_ok(changes@, n as nat),
            pos.len() == changes@.len(),
            forall|q: int| 0 <= q < changes@.len() ==> 0 <= #[trigger] pos[q] < t && changes@[q].id == list[pos[q]],
            forall|q1: int, q2: int| 0 <= q1 < q2 < changes@.len() ==> #[trigger] pos[q1] < #[trigger] pos[q2],
            forall|q: int| 0 <= q < changes@.len() ==> ((#[trigger] changes@[q]).before is Some <==> changes@[q].id < start),
            forall|q: int| 0 <= q < changes@.len() ==> ((#[trigger] changes@[q]).before matches Some(b) ==> b@ == j.origin@[changes@[q].id as int]),
            forall|q: int| 0 <= q < changes@.len() ==> doc.rs()[(#[trigger] changes@[q]).id as int] == changes@[q].after@,
            forall|u: int| 0 <= u < t && ((#[trigger] list[u]) >= start || doc.rs()[list[u] as int] != j.origin@[list[u] as int]) ==> exists|q: int| 0 <= q < pos.len() && pos[q] == u,
            forall|u: int| 0 <= u < t && (#[trigger] list[u]) >= start ==> active_spec(doc.rs(), doc.roots@, list[u]) != Err::<
                (),
                Seq<char>,
            >("Hierarchy depth exceeded"@),
        decreases list.len() - t,
    {
        let x = affected.list[t];
        assert(doc.rs()[x as int] == doc.records@[x as int]@);
        let before = if x < start {
            Some(original(&doc.records, j, x).duplicate())
        } else {
            None
        };
        let after_live = crate::workspace::active(doc, x).is_ok();
        if x >= start && !after_live && too_deep(doc, x) {
            return Err(failure("Hierarchy depth exceeded"));
        }
        let before_live = if x < s.live.len() {
            s.live[x]
        } else {
            false
        };
        let differs = match &before {
            Some(b) => !same_record(b, &doc.records[x]),
            None => true,
        };
        let ghost old_pos = pos;
        let ghost old_changes = changes@;
        if differs || before_live != after_live {
            let after = doc.records[x].duplicate();
            proof {
                let rm = doc.records@[x as int]@;
                assert(model_ok(rm, n as nat)) by {
                    assert forall|k2: int| 0 <= k2 < rm.children.len() implies #[trigger] rm.children[k2] < n by {
                        assert(doc.rs()[x as int].children[k2] < doc.rs().len());
                    }
                }
                if x < start {
                    let om = j.origin@[x as int];
                    assert(indices_ok(j.origin@, doc.roots@));
                    assert(model_ok(om, n as nat)) by {
                        assert forall|k2: int| 0 <= k2 < om.children.len() implies #[trigger] om.children[k2] < n by {
                            assert(j.origin@[x as int].children[k2] < j.origin@.len());
                        }
                    }
                }
            }
            changes.push(Change { id: x, before, after, before_live, after_live });
            proof {
                pos = old_pos.push(t as int);
                assert forall|q: int| 0 <= q < changes@.len() implies 0 <= #[trigger] pos[q] < t + 1 && changes@[q].id == list[pos[q]] by {
                    if q < old_changes.len() {
                        assert(changes@[q] == old_changes[q]);
                    }
                }
                assert forall|q: int| 0 <= q < changes@.len() implies ((#[trigger] changes@[q]).before is Some <==> changes@[q].id < start) by {
                    if q < old_changes.len() {
                        assert(changes@[q] == old_changes[q]);
                    }
                }
                assert forall|q: int| 0 <= q < changes@.len() implies ((#[trigger] changes@[q]).before matches Some(b) ==> b@ == j.origin@[changes@[q].id as int]) by {
                    if q < old_changes.len() {
                        assert(changes@[q] == old_changes[q]);
                    }
                }
                assert forall|q: int| 0 <= q < changes@.len() implies doc.rs()[(#[trigger] changes@[q]).id as int] == changes@[q].after@ by {
                    if q < old_changes.len() {
                        assert(changes@[q] == old_changes[q]);
                    }
                }
                assert(changes_ok(changes@, n as nat)) by {
                    assert forall|q: int| 0 <= q < changes@.len() implies {
                        let c = #[trigger] changes@[q];
                        &&& c.id < n
                        &&& model_ok(c.after@, n as nat)
                        &&& c.before matches Some(b) ==> model_ok(b@, n as nat)
                    } by {
                        if q < old_changes.len() {
                            assert(changes@[q] == old_changes[q]);
                        }
                    }
                }
                assert forall|u: int| 0 <= u < t + 1 && ((#[trigger] list[u]) >= start || doc.rs()[list[u] as int] != j.origin@[list[u] as int]) implies exists|q: int| 0 <= q < pos.len() && pos[q] == u by {
                    if u < t {
                        let q = choose|q: int| 0 <= q < old_pos.len() && old_pos[q] == u;
                        assert(pos[q] == u);
                    } else {
                        assert(pos[pos.len() - 1] == u);
                    }
                }
            }
        } else {
            proof {
                if x < start {
                    assert(doc.rs()[x as int] == j.origin@[x as int]);
                }
            }
        }
        t = t + 1;
    }
    proof {
        reveal(restores);
        let cs = change_models(changes@);
        let after = doc.rs();
        let before = j.origin@;
        assert forall|k1: int, k2: int| 0 <= k1 < cs.len() && 0 <= k2 < cs.len() && k1 != k2 implies cs[k1].id != cs[k2].id by {
            if k1 < k2 {
                assert(pos[k1] < pos[k2]);
            } else {
                assert(pos[k2] < pos[k1]);
            }
        }
        assert forall|i: int| 0 <= i < before.len() && (forall|k: int| 0 <= k < cs.len() ==> (#[trigger] cs[k]).id != i) implies after[i] == before[i] by {
            if after[i] != before[i] {
                assert(journaled(j, i));
                let m = choose|m: int| 0 <= m < j.before@.len() && #[trigger] j.before@[m].0 == i;
                assert(affected.flags@[i]);
                assert(list.contains(i as usize));
                let u = choose|u: int| 0 <= u < list.len() && list[u] == i as usize;
                assert(list[u] == i);
                let q = choose|q: int| 0 <= q < pos.len() && pos[q] == u;
                assert(cs[q].id == i);
            }
        }
        assert forall|i: int| before.len() <= i < after.len() implies #[trigger] listed(cs, i) by {
            assert(affected.flags@[i]);
            assert(list.contains(i as usize));
            let u = choose|u: int| 0 <= u < list.len() && list[u] == i as usize;
            assert(list[u] >= start);
            let q = choose|q: int| 0 <= q < pos.len() && pos[q] == u;
            assert(cs[q].id == i);
        }
        assert forall|k: int| 0 <= k < cs.len() implies (#[trigger] cs[k]).id < after.len() by {
            assert(changes@[k].id < n);
        }
        assert forall|k: int| 0 <= k < cs.len() implies ((#[trigger] cs[k]).before is Some <==> cs[k].id < before.len()) by {
            assert(changes@[k].before is Some <==> changes@[k].id < start);
        }
        assert forall|k: int| 0 <= k < cs.len() implies ((#[trigger] cs[k]).before matches Some(b) ==> b == before[cs[k].id as int]) by {
            assert(changes@[k].before matches Some(b) ==> b@ == j.origin@[changes@[k].id as int]);
        }
        assert forall|k: int| 0 <= k < cs.len() implies after[(#[trigger] cs[k]).id as int] == cs[k].after by {
            assert(doc.rs()[changes@[k].id as int] == changes@[k].after@);
        }
        assert forall|x: int| j.start <= x < s.doc.records@.len() implies #[trigger] active_spec(s.doc.rs(), s.doc.roots@, x as usize)
            != Err::<(), Seq<char>>("Hierarchy depth exceeded"@) by {
            assert(affected.flags@[x]);
            assert(list.contains(x as usize));
            let u = choose|u: int| 0 <= u < list.len() && list[u] == x as usize;
            assert(list[u] >= start);
        }
    }
    Ok(changes)
}

/// Sets the element count of an array record to its number of children.
fn normalize_array(doc: &mut Document, j: &mut Journal, x: usize)
    requires
        old(doc).wf(),
        tracks(old(j), old(doc).rs()),
        x < old(doc).records@.len(),
    ensures
        final(doc).wf(),
        tracks(final(j), final(doc).rs()),
        final(j).start == old(j).start,
        final(j).origin == old(j).origin,
        forall|i: int| journaled(old(j), i) ==> journaled(final(j), i),
        same_frame(*old(doc), *final(doc)),
        final(doc).records@.len() == old(doc).records@.len(),
        final(doc).rs() == if old(doc).rs()[x as int].payload is Array {
            old(doc).rs().update(
                x as int,
                RecordModel {
                    payload: PayloadModel::Array(old(doc).rs()[x as int].children.len() as i64),
                    ..old(doc).rs()[x as int]
                },
            )
        } else {
            old(doc).rs()
        },
{
    assert(doc.rs()[x as int] == doc.records@[x as int]@);
    if let Payload::Array(_) = &doc.records[x].payload {
        let count = doc.records[x].children.len() as i64;
        set_payload(doc, j, x, Payload::Array(count));
    }
}

/// Whether `ds` are the documents that the operations `ops` lead through, one accepted
/// operation after the other.
pub open spec fn steps_applied(ds: Seq<Document>, ops: Seq<Operation>, templates: Seq<Template>) -> bool {
    &&& ds.len() == ops.len() + 1
    &&& forall|i: int| 0 <= i < ops.len() ==> #[trigger] applied(ds[i], ds[i + 1], ops[i], templates)
}

/// Whether `rs2` is `rs` with some arrays' element counts brought up to date.
pub open spec fn counts_refreshed(rs: Seq<RecordModel>, rs2: Seq<RecordModel>) -> bool {
    &&& rs2.len() == rs.len()
    &&& forall|i: int|
        0 <= i < rs.len() ==> #[trigger] rs2[i] == rs[i] || (rs[i].payload is Array && rs2[i] == RecordModel {
            payload: PayloadModel::Array(rs[i].children.len() as i64),
            ..rs[i]
        })
}

/// Whether records `rs2` come from applying `ops` to `d` in turn, each accepted, and then
/// bringing array counts up to date.
pub open spec fn ops_applied(d: Document, rs2: Seq<RecordModel>, ops: Seq<Operation>, templates: Seq<Template>) -> bool {
    exists|ds: Seq<Document>| #[trigger] steps_applied(ds, ops, templates) && ds[0] == d && counts_refreshed(ds.last().rs(), rs2)
}

/// Whether operation `k` of `ops` is refused whatever the operations before it left: in every
/// chain of accepted steps from `d` through the first `k` operations, `operation_spec`
/// refuses operation `k`.
pub open spec fn refused_at(d: Document, ops: Seq<Operation>, templates: Seq<Template>, k: int) -> bool {
    &&& 0 <= k < ops.len()
    &&& forall|ds: Seq<Document>| #[trigger] steps_applied(ds, ops.take(k), templates) && ds[0] == d ==> (operation_spec(
        ds.last(),
        ops[k],
    ) matches Some(Err(_)))
}

proof fn lemma_refresh_step(rs: Seq<RecordModel>, cur: Seq<RecordModel>, next: Seq<RecordModel>, x: int)
    requires
        counts_refreshed(rs, cur),
        0 <= x < cur.len(),
        next == if cur[x].payload is Array {
            cur.update(x, RecordModel { payload: PayloadModel::Array(cur[x].children.len() as i64), ..cur[x] })
        } else {
            cur
        },
    ensures
        counts_refreshed(rs, next),
{
    assert forall|i: int| 0 <= i < rs.len() implies #[trigger] next[i] == rs[i] || (rs[i].payload is Array && next[i]
        == RecordModel { payload: PayloadModel::Array(rs[i].children.len() as i64), ..rs[i] }) by {
        if i == x {
            assert(cur[i] == rs[i] || (rs[i].payload is Array && cur[i] == RecordModel {
                payload: PayloadModel::Array(rs[i].children.len() as i64),
                ..rs[i]
            }));
        }
    }
}

/// Applies the operations in order, then brings every modified or new array's element
/// count up to date. Inventory edits go by `catalog` and need `cache`; each identity that
/// they create is added to `guids`, lower-cased.
fn run_operations(
    doc: &mut Document,
    j: &mut Journal,
    operations: Vec<Operation>,
    templates: &Vec<Template>,
    catalog: &Catalog,
    cache: &Option<Cache>,
    guids: &mut Vec<String>,
) -> (r: Result<(), Error>)
    requires
        old(doc).wf(),
        tracks(old(j), old(doc).rs()),
        cache matches Some(c) ==> c.wf(old(doc).records@.len() as nat),
    ensures
        final(doc).wf(),
        tracks(final(j), final(doc).rs()),
        final(j).start == old(j).start,
        final(j).origin == old(j).origin,
        final(doc).roots@ == old(doc).roots@,
        final(doc).objects@ == old(doc).objects@,
        final(doc).max_bytes == old(doc).max_bytes,
        final(doc).encoded_size == old(doc).encoded_size,
        final(doc).original_size == old(doc).original_size,
        final(doc).records@.len() >= old(doc).records@.len(),
        operations@.len() > 0 ==> (operation_spec(*old(doc), operations@[0]) matches Some(Err(m)) ==> (r matches Err(e)
            && e.0@ == m)),
        r is Ok ==> final(doc).records@.len() <= 1_000_000,
        r is Ok ==> ops_applied(*old(doc), final(doc).rs(), operations@, templates@),
        (exists|k: int| refused_at(*old(doc), operations@, templates@, k)) ==> r is Err,
{
    let ghost ops = operations@;
    let ghost mut ds: Seq<Document> = seq![*doc];
    for op in it: operations
        invariant
            ops == it.seq(),
            steps_applied(ds, ops.take(it.index() as int), templates@),
            ds[0] == *old(doc),
            ds.last() == *doc,
            it.index() == 0 ==> *doc == *old(doc),
            ops.len() > 0 && (operation_spec(*old(doc), ops[0]) matches Some(Err(_))) ==> it.index() == 0,
            forall|m: int| 0 <= m < it.index() ==> !(operation_spec(#[trigger] ds[m], ops[m]) matches Some(Err(_))),
            doc.wf(),
            tracks(j, doc.rs()),
            j.start == old(j).start,
            j.origin == old(j).origin,
            doc.roots@ == old(doc).roots@,
            doc.objects@ == old(doc).objects@,
            doc.max_bytes == old(doc).max_bytes,
            doc.encoded_size == old(doc).encoded_size,
            doc.original_size == old(doc).original_size,
            doc.records@.len() >= old(doc).records@.len(),
            cache matches Some(c) ==> c.wf(old(doc).records@.len() as nat),
    {
        match op {
            Operation::Inventory { container, action, out_of_bounds } => {
                let c = match cache {
                    Some(c) => c,
                    None => return Err(failure("Unsupported inventory")),
                };
                proof {
                    lemma_cache_grow(c, old(doc).records@.len() as nat, doc.records@.len() as nat);
                }
                if let Err(e) = c.check_container(doc, container) {
                    return Err(e);
                }
                match new_guid(doc, catalog, &action) {
                    Ok(Some(g)) => guids.push(crate::inventory::ascii_lowered(g.as_str())),
                    Ok(None) => {},
                    Err(e) => return Err(e),
                }
                if let Err(e) = write_inner(doc, j, catalog, container, action, out_of_bounds, true) {
                    return Err(e);
                }
            },
            other => {
                if let Err(e) = apply(doc, j, other, templates) {
                    return Err(e);
                }
            },
        }
        proof {
            let k = it.index() as int;
            let ds2 = ds.push(*doc);
            assert(ops.take(k + 1) =~= ops.take(k).push(ops[k]));
            assert(!(operation_spec(ds[k], ops[k]) matches Some(Err(_))));
            assert forall|m: int| 0 <= m < k + 1 implies !(operation_spec(#[trigger] ds2[m], ops[m]) matches Some(Err(_))) by {
                assert(ds2[m] == ds[m]);
            }
            assert forall|i: int| 0 <= i < k + 1 implies #[trigger] applied(ds2[i], ds2[i + 1], ops.take(k + 1)[i], templates@) by {
                if i < k {
                    assert(ds2[i] == ds[i] && ds2[i + 1] == ds[i + 1]);
                    assert(ops.take(k + 1)[i] == ops.take(k)[i]);
                }
            }
            ds = ds2;
        }
    }
    let ghost rs_ops = doc.rs();
    proof {
        assert(ops.take(ops.len() as int) =~= ops);
    }
    if doc.records.len() > 1_000_000 {
        return Err(failure("Record limit exceeded"));
    }
    let mut touched: Vec<usize> = Vec::new();
    let mut k: usize = 0;
    while k < j.before.len()
        invariant
            tracks(j, doc.rs()),
            forall|m: int| 0 <= m < touched@.len() ==> #[trigger] touched@[m] < doc.records@.len(),
        decreases j.before@.len() - k,
    {
        assert(j.before@[k as int].0 < j.start);
        touched.push(j.before[k].0);
        k = k + 1;
    }
    let mut k: usize = 0;
    while k < touched.len()
        invariant
            forall|m: int| 0 <= m < touched@.len() ==> #[trigger] touched@[m] < doc.records@.len(),
            doc.wf(),
            tracks(j, doc.rs()),
            j.start == old(j).start,
            j.origin == old(j).origin,
            doc.roots@ == old(doc).roots@,
            doc.objects@ == old(doc).objects@,
            doc.max_bytes == old(doc).max_bytes,
            doc.encoded_size == old(doc).encoded_size,
            doc.original_size == old(doc).original_size,
            doc.records@.len() >= old(doc).records@.len(),
            doc.records@.len() <= 1_000_000,
            counts_refreshed(rs_ops, doc.rs()),
        decreases touched@.len() - k,
    {
        let ghost cur = doc.rs();
        normalize_array(doc, j, touched[k]);
        proof {
            lemma_refresh_step(rs_ops, cur, doc.rs(), touched@[k as int] as int);
        }
        k = k + 1;
    }
    let mut x = j.start;
    while x < doc.records.len()
        invariant
            doc.wf(),
            tracks(j, doc.rs()),
            j.start == old(j).start,
            j.origin == old(j).origin,
            doc.roots@ == old(doc).roots@,
            doc.objects@ == old(doc).objects@,
            doc.max_bytes == old(doc).max_bytes,
            doc.encoded_size == old(doc).encoded_size,
            doc.original_size == old(doc).original_size,
            doc.records@.len() >= old(doc).records@.len(),
            doc.records@.len() <= 1_000_000,
            counts_refreshed(rs_ops, doc.rs()),
        decreases doc.records@.len() - x,
    {
        let ghost cur = doc.rs();
        normalize_array(doc, j, x);
        proof {
            lemma_refresh_step(rs_ops, cur, doc.rs(), x as int);
        }
        x = x + 1;
    }
    assert(steps_applied(ds, ops, templates@));
    proof {
        if exists|k: int| refused_at(*old(doc), ops, templates@, k) {
            let k = choose|k: int| refused_at(*old(doc), ops, templates@, k);
            let w = ds.take(k + 1);
            assert forall|i: int| 0 <= i < ops.take(k).len() implies #[trigger] applied(w[i], w[i + 1], ops.take(k)[i], templates@) by {
                assert(applied(ds[i], ds[i + 1], ops[i], templates@));
            }
            assert(steps_applied(w, ops.take(k), templates@));
            assert(w.last() == ds[k]);
        }
    }
    Ok(())
}

/// Puts back the records, type table and object counter that a transaction started from.
fn rollback(doc: &mut Document, j: &Journal, types: HashMap<i32, WireString>, next_object: Option<i32>)
    requires
        tracks(j, old(doc).rs()),
        indices_ok(j.origin@, old(doc).roots@),
        forall|k: i32| #[trigger] old(doc).objects@.contains_key(k) ==> old(doc).objects@[k] < j.start,
    ensures
        final(doc).wf(),
        final(doc).rs() == j.origin@,
        final(doc).types@ == types@,
        final(doc).next_object_id == next_object,
        final(doc).roots == old(doc).roots,
        final(doc).objects == old(doc).objects,
        final(doc).max_bytes == old(doc).max_bytes,
        final(doc).encoded_size == old(doc).encoded_size,
        final(doc).original_size == old(doc).original_size,
{
    let ghost origin = j.origin@;
    let mut k: usize = 0;
    while k < j.before.len()
        invariant
            tracks(j, models(old(doc).records@)),
            origin == j.origin@,
            k <= j.before@.len(),
            doc.records@.len() == old(doc).records@.len(),
            doc.roots == old(doc).roots,
            doc.objects == old(doc).objects,
            doc.types == old(doc).types,
            doc.max_bytes == old(doc).max_bytes,
            doc.encoded_size == old(doc).encoded_size,
            doc.original_size == old(doc).original_size,
            forall|i: int| 0 <= i < j.start && doc.rs()[i] != origin[i] ==> exists|m: int| k <= m < j.before@.len() && #[trigger] j.before@[m].0 == i,
        decreases j.before@.len() - k,
    {
        let i = j.before[k].0;
        let ghost rs0 = doc.rs();
        assert(j.before@[k as int].0 < j.start);
        assert(j.before@[k as int].1@ == j.origin@[j.before@[k as int].0 as int]);
        assert(j.before@[k as int].0 == i);
        assert(j.before@[k as int].1@ == origin[i as int]);
        let r = j.before[k].1.duplicate();
        doc.records.set(i, r);
        proof {
            assert(doc.rs() =~= rs0.update(i as int, origin[i as int]));
            assert forall|x: int| 0 <= x < j.start && doc.rs()[x] != origin[x] implies exists|m: int| k + 1 <= m < j.before@.len() && #[trigger] j.before@[m].0 == x by {
                assert(rs0[x] != origin[x]);
                let m = choose|m: int| k <= m < j.before@.len() && #[trigger] j.before@[m].0 == x;
                assert(m != k);
            }
        }
        k = k + 1;
    }
    let ghost rs1 = doc.rs();
    doc.records.truncate(j.start);
    assert(doc.rs() =~= origin) by {
        assert forall|x: int| 0 <= x < origin.len() implies doc.rs()[x] == origin[x] by {
            assert(doc.rs()[x] == rs1[x]);
        }
    }
    doc.types = types;
    doc.next_object_id = next_object;
}

/// Whether object `o` exists once the changes are in place: a live changed record declares
/// it, or a record the changes do not touch still does.
pub open spec fn exists_after(objects: Map<i32, usize>, cs: Seq<ChangeModel>, o: i32) -> bool {
    ||| exists|k: int| 0 <= k < cs.len() && cs[k].after_live && object_spec(#[trigger] cs[k].after) == Some(o)
    ||| objects.contains_key(o) && !listed(cs, objects[o] as int)
}

fn flag_changes(cs: &Vec<Change>, n: usize) -> (flags: Vec<bool>)
    requires
        changes_ok(cs@, n as nat),
    ensures
        flags@.len() == n,
        forall|i: int| 0 <= i < n ==> (flags@[i] <==> listed(change_models(cs@), i)),
{
    let mut flags: Vec<bool> = Vec::new();
    let mut i: usize = 0;
    while i < n
        invariant
            i <= n,
            flags@.len() == i,
            forall|x: int| 0 <= x < i ==> !flags@[x],
        decreases n - i,
    {
        flags.push(false);
        i = i + 1;
    }
    let ghost models = change_models(cs@);
    let mut k: usize = 0;
    while k < cs.len()
        invariant
            changes_ok(cs@, n as nat),
            models == change_models(cs@),
            k <= cs@.len(),
            flags@.len() == n,
            forall|x: int| 0 <= x < n ==> (flags@[x] <==> exists|m: int| 0 <= m < k && (#[trigger] models[m]).id == x),
        decreases cs@.len() - k,
    {
        assert(cs@[k as int].id < n);
        let ghost f0 = flags@;
        flags.set(cs[k].id, true);
        proof {
            assert forall|x: int| 0 <= x < n implies (flags@[x] <==> exists|m: int| 0 <= m < k + 1 && (#[trigger] models[m]).id == x) by {
                if x == cs@[k as int].id {
                    assert(models[k as int].id == x);
                } else {
                    assert(flags@[x] == f0[x]);
                    if exists|m: int| 0 <= m < k + 1 && (#[trigger] models[m]).id == x {
                        let m = choose|m: int| 0 <= m < k + 1 && (#[trigger] models[m]).id == x;
                        assert(m != k);
                    }
                }
            }
        }
        k = k + 1;
    }
    flags
}

/// Whether change `k` leaves a live node that declares object `o`.
pub open spec fn declares_at(cs: Seq<ChangeModel>, k: int, o: i32) -> bool {
    cs[k].after_live && object_spec(cs[k].after) == Some(o)
}

/// Whether object `o` stays declared by a node that the changes leave alone.
pub open spec fn kept_object(objects: Map<i32, usize>, cs: Seq<ChangeModel>, o: i32) -> bool {
    objects.contains_key(o) && !listed(cs, objects[o] as int)
}

/// Whether change `k` replaces a node, live before it, that declared object `o`.
pub open spec fn declared_before(cs: Seq<ChangeModel>, k: int, o: i32) -> bool {
    cs[k].before_live && (cs[k].before matches Some(b) && object_spec(b) == Some(o))
}

/// Whether some object would be declared twice after the changes: by two changed nodes,
/// or by a changed node and one left alone.
pub open spec fn declared_twice(objects: Map<i32, usize>, cs: Seq<ChangeModel>) -> bool {
    exists|k: int, o: i32|
        0 <= k < cs.len() && #[trigger] declares_at(cs, k, o) && ((exists|j: int| 0 <= j < k && #[trigger] declares_at(cs, j, o))
            || kept_object(objects, cs, o))
}

/// Whether object `o` was declared by a node live before the changes, and nothing declares
/// it after them.
pub open spec fn removed_object(objects: Map<i32, usize>, cs: Seq<ChangeModel>, o: i32) -> bool {
    &&& exists|k: int| 0 <= k < cs.len() && #[trigger] declared_before(cs, k, o)
    &&& !exists_after(objects, cs, o)
}

/// Whether a live node that the changes leave alone refers to a removed object.
pub open spec fn leaves_dangling(s: Session, cs: Seq<ChangeModel>) -> bool {
    exists|x: int|
        0 <= x < s.live@.len() && s.live@[x] && !listed(cs, x) && (reference_spec(#[trigger] s.doc.records@[x]@) matches Some(
            t,
        ) && removed_object(s.doc.objects@, cs, t))
}

/// Whether a node live after the changes refers to an object that nothing declares then.
pub open spec fn refers_to_missing(objects: Map<i32, usize>, cs: Seq<ChangeModel>) -> bool {
    exists|k: int|
        0 <= k < cs.len() && (#[trigger] cs[k]).after_live && (reference_spec(cs[k].after) matches Some(t) && !exists_after(
            objects,
            cs,
            t,
        ))
}

/// Checks the changes against the document's object index: no object is declared twice,
/// and no live reference is left pointing at an object that no longer exists.
#[verifier::loop_isolation(false)]
fn validate_changes(s: &Session, cs: &Vec<Change>) -> (r: Result<(), Error>)
    requires
        s.doc.wf(),
        s.live@.len() <= s.doc.records@.len(),
        changes_ok(cs@, s.doc.records@.len() as nat),
    ensures
        r is Ok <==> !declared_twice(s.doc.objects@, change_models(cs@)) && !leaves_dangling(*s, change_models(cs@))
            && !refers_to_missing(s.doc.objects@, change_models(cs@)),
        r matches Err(e) ==> e.0@ == (if declared_twice(s.doc.objects@, change_models(cs@)) {
            "Duplicate object ID"@
        } else {
            "Removal would leave a dangling reference; retarget it in the same transaction"@
        }),
        r is Ok ==> forall|k: int|
            0 <= k < cs@.len() && cs@[k].after_live && reference_spec(#[trigger] cs@[k].after@) is Some ==> exists_after(
                s.doc.objects@,
                change_models(cs@),
                reference_spec(cs@[k].after@)->0,
            ),
{
    let n = s.doc.records.len();
    let ghost models = change_models(cs@);
    let ghost objects = s.doc.objects@;
    let in_changes = flag_changes(cs, n);
    let mut declared: HashMap<i32, usize> = HashMap::new();
    let mut k: usize = 0;
    while k < cs.len()
        invariant
            k <= cs@.len(),
            forall|o: i32| #[trigger] declared@.contains_key(o) <==> exists|m: int| 0 <= m < k && #[trigger] declares_at(models, m, o),
            forall|m: int, o: i32|
                0 <= m < k && #[trigger] declares_at(models, m, o) ==> !kept_object(objects, models, o) && forall|j: int|
                    0 <= j < m ==> !#[trigger] declares_at(models, j, o),
        decreases cs@.len() - k,
    {
        let c = &cs[k];
        assert(models[k as int] == c@);
        if c.after_live {
            if let Some(o) = object(&c.after) {
                assert(declares_at(models, k as int, o));
                if declared.contains_key(&o) {
                    assert(declared_twice(objects, models));
                    return Err(failure("Duplicate object ID"));
                }
                match s.doc.objects.get(&o) {
                    Some(m) => {
                        if !in_changes[*m] {
                            assert(kept_object(objects, models, o));
                            assert(declared_twice(objects, models));
                            return Err(failure("Duplicate object ID"));
                        }
                    },
                    None => {},
                }
                declared.insert(o, c.id);
            }
        }
        k = k + 1;
    }
    assert(!declared_twice(objects, models));
    let mut gone: Vec<i32> = Vec::new();
    let mut k: usize = 0;
    while k < cs.len()
        invariant
            k <= cs@.len(),
            forall|i: int| 0 <= i < gone@.len() ==> removed_object(objects, models, #[trigger] gone@[i]),
            forall|m: int, o: i32|
                0 <= m < k && #[trigger] declared_before(models, m, o) && !exists_after(objects, models, o) ==> gone@.contains(o),
        decreases cs@.len() - k,
    {
        let c = &cs[k];
        assert(models[k as int] == c@);
        if c.before_live {
            if let Some(b) = &c.before {
                if let Some(o) = object(b) {
                    let kept = match s.doc.objects.get(&o) {
                        Some(m) => !in_changes[*m],
                        None => false,
                    };
                    assert(declared_before(models, k as int, o));
                    if !declared.contains_key(&o) && !kept {
                        assert(!exists_after(objects, models, o)) by {
                            if exists|q: int| 0 <= q < models.len() && models[q].after_live && object_spec(#[trigger] models[q].after) == Some(o) {
                                let q = choose|q: int| 0 <= q < models.len() && models[q].after_live && object_spec(#[trigger] models[q].after) == Some(o);
                                assert(declares_at(models, q, o));
                            }
                        }
                        let ghost g0 = gone@;
                        gone.push(o);
                        assert(gone@[gone@.len() - 1] == o);
                        assert forall|x: i32| g0.contains(x) implies gone@.contains(x) by {
                            let i = choose|i: int| 0 <= i < g0.len() && g0[i] == x;
                            assert(gone@[i] == x);
                        }
                    } else {
                        assert(exists_after(objects, models, o));
                    }
                }
            }
        }
        k = k + 1;
    }
    if gone.len() > 0 {
        let mut x: usize = 0;
        while x < s.live.len()
            invariant
                x <= s.live@.len(),
                forall|y: int|
                    0 <= y < x && s.live@[y] && !listed(models, y) ==> !(reference_spec(#[trigger] s.doc.records@[y]@) matches Some(
                        t,
                    ) && removed_object(objects, models, t)),
            decreases s.live@.len() - x,
        {
            if s.live[x] && !in_changes[x] {
                if let Some(t) = reference(&s.doc.records[x]) {
                    let mut g: usize = 0;
                    while g < gone.len()
                        invariant
                            g <= gone@.len(),
                            forall|i: int| 0 <= i < g ==> gone@[i] != t,
                        decreases gone@.len() - g,
                    {
                        if gone[g] == t {
                            assert(leaves_dangling(*s, models));
                            return Err(failure("Removal would leave a dangling reference; retarget it in the same transaction"));
                        }
                        g = g + 1;
                    }
                    assert(!gone@.contains(t));
                    assert(!removed_object(objects, models, t));
                }
            }
            x = x + 1;
        }
    }
    assert(!leaves_dangling(*s, models)) by {
        if gone@.len() == 0 {
            assert forall|t: i32| !removed_object(objects, models, t) by {
                if removed_object(objects, models, t) {
                    let m = choose|m: int| 0 <= m < cs@.len() && #[trigger] declared_before(models, m, t);
                    assert(gone@.contains(t));
                }
            }
        }
    }
    let mut k: usize = 0;
    while k < cs.len()
        invariant
            k <= cs@.len(),
            forall|q: int|
                0 <= q < k && cs@[q].after_live && reference_spec(#[trigger] cs@[q].after@) is Some ==> exists_after(
                    s.doc.objects@,
                    models,
                    reference_spec(cs@[q].after@)->0,
                ),
        decreases cs@.len() - k,
    {
        let c = &cs[k];
        assert(models[k as int] == c@);
        if c.after_live {
            if let Some(t) = reference(&c.after) {
                let kept = match s.doc.objects.get(&t) {
                    Some(m) => !in_changes[*m],
                    None => false,
                };
                if !declared.contains_key(&t) && !kept {
                    assert(!exists_after(objects, models, t)) by {
                        if exists|q: int| 0 <= q < models.len() && models[q].after_live && object_spec(#[trigger] models[q].after) == Some(t) {
                            let q = choose|q: int| 0 <= q < models.len() && models[q].after_live && object_spec(#[trigger] models[q].after) == Some(t);
                            assert(declares_at(models, q, t));
                        }
                    }
                    assert(refers_to_missing(objects, models));
                    return Err(failure("Removal would leave a dangling reference; retarget it in the same transaction"));
                }
                assert(exists_after(objects, models, t));
            }
        }
        k = k + 1;
    }
    assert(!refers_to_missing(objects, models)) by {
        if refers_to_missing(objects, models) {
            let q = choose|q: int| 0 <= q < cs@.len() && (#[trigger] models[q]).after_live && (reference_spec(models[q].after) matches Some(t) && !exists_after(objects, models, t));
            assert(models[q] == cs@[q]@);
        }
    }
    Ok(())
}

/// Brings the object index and the liveness flags in line with one side of a patch:
/// the later side when `forward`, the earlier one otherwise.
fn update_indexes(s: &mut Session, cs: &Vec<Change>, forward: bool)
    requires
        old(s).doc.wf(),
        old(s).live@.len() == old(s).doc.records@.len(),
        changes_ok(cs@, old(s).doc.records@.len() as nat),
    ensures
        final(s).doc.wf(),
        final(s).live@.len() == final(s).doc.records@.len(),
        final(s).doc.records == old(s).doc.records,
        final(s).doc.roots == old(s).doc.roots,
        final(s).doc.types == old(s).doc.types,
        final(s).doc.next_object_id == old(s).doc.next_object_id,
        final(s).doc.max_bytes == old(s).doc.max_bytes,
        final(s).doc.original_size == old(s).doc.original_size,
        final(s).doc.encoded_size == old(s).doc.encoded_size,
        final(s).revision == old(s).revision,
        final(s).saved == old(s).saved,
        final(s).current == old(s).current,
        final(s).undo == old(s).undo,
        final(s).redo == old(s).redo,
        final(s).encoded_bytes is None,
        final(s).inventory == old(s).inventory,
        final(s).catalog == old(s).catalog,
{
    let n = s.doc.records.len();
    let mut k: usize = 0;
    while k < cs.len()
        invariant
            s.doc.wf(),
            s.doc.records == old(s).doc.records,
            s.doc.roots == old(s).doc.roots,
            s.doc.types == old(s).doc.types,
            s.doc.next_object_id == old(s).doc.next_object_id,
            s.doc.max_bytes == old(s).doc.max_bytes,
            s.doc.original_size == old(s).doc.original_size,
            s.doc.encoded_size == old(s).doc.encoded_size,
            s.revision == old(s).revision,
            s.saved == old(s).saved,
            s.current == old(s).current,
            s.undo == old(s).undo,
            s.redo == old(s).redo,
            s.live == old(s).live,
            s.inventory == old(s).inventory,
            s.catalog == old(s).catalog,
            k <= cs@.len(),
        decreases cs@.len() - k,
    {
        let c = &cs[k];
        let (was, live) = if forward {
            (c.before.as_ref(), c.before_live)
        } else {
            (Some(&c.after), c.after_live)
        };
        if live {
            if let Some(r) = was {
                if let Some(o) = object(r) {
                    s.doc.objects.remove(&o);
                }
            }
        }
        k = k + 1;
    }
    let mut k: usize = 0;
    while k < cs.len()
        invariant
            changes_ok(cs@, n as nat),
            n == s.doc.records@.len(),
            s.doc.wf(),
            s.live@.len() == n,
            s.doc.records == old(s).doc.records,
            s.doc.roots == old(s).doc.roots,
            s.doc.types == old(s).doc.types,
            s.doc.next_object_id == old(s).doc.next_object_id,
            s.doc.max_bytes == old(s).doc.max_bytes,
            s.doc.original_size == old(s).doc.original_size,
            s.doc.encoded_size == old(s).doc.encoded_size,
            s.revision == old(s).revision,
            s.saved == old(s).saved,
            s.current == old(s).current,
            s.undo == old(s).undo,
            s.redo == old(s).redo,
            s.inventory == old(s).inventory,
            s.catalog == old(s).catalog,
            k <= cs@.len(),
        decreases cs@.len() - k,
    {
        let c = &cs[k];
        assert(cs@[k as int].id < n);
        let (now, live) = if forward {
            (Some(&c.after), c.after_live)
        } else {
            (c.before.as_ref(), c.before_live)
        };
        s.live.set(c.id, live);
        if live {
            if let Some(r) = now {
                if let Some(o) = object(r) {
                    s.doc.objects.insert(o, c.id);
                }
            }
        }
        k = k + 1;
    }
    let mut count: usize = 0;
    let mut x: usize = 0;
    while x < s.live.len()
        invariant
            x <= s.live@.len(),
            count <= x,
        decreases s.live@.len() - x,
    {
        if s.live[x] {
            count = count + 1;
        }
        x = x + 1;
    }
    s.live_count = count;
    s.encoded_bytes = None;
}

/// Memory estimate of one record version: its header, its child list and a fixed overhead.
/// What a retained record is counted as: its header bytes, eight bytes per child and a fixed
/// 128, saturating at the largest `u64`.
pub open spec fn record_cost(r: RecordModel) -> int {
    let header = record_wire(r).len() as int;
    let list: int = if r.children.len() > (u64::MAX - 128) / 8 {
        u64::MAX - 128
    } else {
        (r.children.len() * 8) as int
    };
    if header > u64::MAX - 128 - list {
        u64::MAX as int
    } else {
        header + list + 128
    }
}

pub open spec fn saturating_sum(a: int, b: int) -> int {
    if a + b > u64::MAX {
        u64::MAX as int
    } else {
        a + b
    }
}

/// What a patch's retained records are counted as, saturating.
pub open spec fn patch_cost(cs: Seq<Change>) -> int
    decreases cs.len(),
{
    if cs.len() == 0 {
        0
    } else {
        let c = cs.last();
        let t = saturating_sum(patch_cost(cs.drop_last()), record_cost(c.after@));
        match c.before {
            Some(b) => saturating_sum(t, record_cost(b@)),
            None => t,
        }
    }
}

fn record_size(r: &Record) -> (n: u64)
    ensures
        n == record_cost(r@),
{
    let mut bytes: Vec<u8> = Vec::new();
    r.write(&mut bytes);
    assert(bytes@ =~= record_wire(r@));
    let header = bytes.len() as u64;
    let children = r.children.len() as u64;
    let list = if children > (u64::MAX - 128) / 8 {
        u64::MAX - 128
    } else {
        children * 8
    };
    if header > u64::MAX - 128 - list {
        u64::MAX
    } else {
        header + list + 128
    }
}

fn saturating(a: u64, b: u64) -> (r: u64)
    ensures
        r == if a + b > u64::MAX { u64::MAX as int } else { a + b },
{
    if a > u64::MAX - b {
        u64::MAX
    } else {
        a + b
    }
}

fn patch_bytes(cs: &Vec<Change>) -> (n: u64)
    ensures
        n == patch_cost(cs@),
{
    let mut total: u64 = 0;
    let mut k: usize = 0;
    while k < cs.len()
        invariant
            k <= cs@.len(),
            total == patch_cost(cs@.take(k as int)),
        decreases cs@.len() - k,
    {
        assert(cs@.take(k + 1).drop_last() =~= cs@.take(k as int));
        total = saturating(total, record_size(&cs[k].after));
        if let Some(b) = &cs[k].before {
            total = saturating(total, record_size(b));
        }
        k = k + 1;
    }
    assert(cs@.take(k as int) =~= cs@);
    total
}

/// Undo keeps at most 100 patches and 64 MiB; the oldest go first.
fn trim_undo(undo: &mut Vec<Patch>)
    ensures
        final(undo)@.len() <= old(undo)@.len(),
        final(undo)@.len() <= 100,
        final(undo)@ == old(undo)@.subrange(old(undo)@.len() - final(undo)@.len(), old(undo)@.len() as int),
        old(undo)@.len() > 0 && old(undo)@.last().bytes <= 64 * 1024 * 1024 ==> final(undo)@.len() > 0,
{
    loop
        invariant
            undo@.len() <= old(undo)@.len(),
            undo@ == old(undo)@.subrange(old(undo)@.len() - undo@.len(), old(undo)@.len() as int),
            old(undo)@.len() > 0 && old(undo)@.last().bytes <= 64 * 1024 * 1024 ==> undo@.len() > 0,
        decreases undo@.len(),
    {
        if undo.len() == 0 {
            return;
        }
        let mut total: u64 = 0;
        let mut k: usize = 0;
        while k < undo.len()
            invariant
                k <= undo@.len(),
                undo@.len() == 1 && k == 0 ==> total == 0,
                undo@.len() == 1 && k == 1 ==> total == undo@[0].bytes,
            decreases undo@.len() - k,
        {
            total = saturating(total, undo[k].bytes);
            k = k + 1;
        }
        if undo.len() <= 100 && total <= 64 * 1024 * 1024 {
            return;
        }
        let ghost u0 = undo@;
        proof {
            if old(undo)@.len() > 0 && old(undo)@.last().bytes <= 64 * 1024 * 1024 {
                assert(u0.len() >= 2) by {
                    if u0.len() == 1 {
                        assert(u0[0] == old(undo)@.last());
                    }
                }
            }
        }
        undo.remove(0);
        assert(undo@ =~= old(undo)@.subrange(old(undo)@.len() - undo@.len(), old(undo)@.len() as int));
    }
}

/// The result of a committed transaction.
pub struct TransactOutcome {
    pub summary: DocumentSummary,
    /// The general fields after the change, unless every operation was a drop removal.
    pub general: Option<Vec<crate::general::GeneralField>>,
    /// Records whose new version is live.
    pub changed: Vec<usize>,
    /// Records that were live and no longer are.
    pub deleted: Vec<usize>,
    /// What the inventory edits changed, where the inventory cache could follow them.
    pub inventory: Option<Updates>,
    /// Whether inventories must be discovered anew.
    pub inventory_invalidated: bool,
}

/// Records whose live side is `live` and whose other side is `was`.
/// The records of `cs` that are live after the change (before it, going back), in order.
pub open spec fn live_ids(cs: Seq<Change>, forward: bool) -> Seq<usize>
    decreases cs.len(),
{
    if cs.len() == 0 {
        Seq::empty()
    } else {
        let c = cs.last();
        let rest = live_ids(cs.drop_last(), forward);
        if (if forward { c.after_live } else { c.before_live }) {
            rest.push(c.id)
        } else {
            rest
        }
    }
}

/// The records of `cs` that the change takes out of the tree (puts back, going back), in
/// order.
pub open spec fn gone_ids(cs: Seq<Change>, forward: bool) -> Seq<usize>
    decreases cs.len(),
{
    if cs.len() == 0 {
        Seq::empty()
    } else {
        let c = cs.last();
        let rest = gone_ids(cs.drop_last(), forward);
        let (live, was) = if forward { (c.after_live, c.before_live) } else { (c.before_live, c.after_live) };
        if !live && was {
            rest.push(c.id)
        } else {
            rest
        }
    }
}

fn split_changes(cs: &Vec<Change>, forward: bool) -> (r: (Vec<usize>, Vec<usize>))
    ensures
        r.0@ == live_ids(cs@, forward),
        r.1@ == gone_ids(cs@, forward),
{
    let mut changed: Vec<usize> = Vec::new();
    let mut deleted: Vec<usize> = Vec::new();
    let mut k: usize = 0;
    while k < cs.len()
        invariant
            k <= cs@.len(),
            changed@ == live_ids(cs@.take(k as int), forward),
            deleted@ == gone_ids(cs@.take(k as int), forward),
        decreases cs@.len() - k,
    {
        assert(cs@.take(k + 1).drop_last() =~= cs@.take(k as int));
        let (live, was) = if forward {
            (cs[k].after_live, cs[k].before_live)
        } else {
            (cs[k].before_live, cs[k].after_live)
        };
        if live {
            changed.push(cs[k].id);
        } else if was {
            deleted.push(cs[k].id);
        }
        k = k + 1;
    }
    assert(cs@.take(k as int) =~= cs@);
    (changed, deleted)
}

proof fn lemma_model_ok_grow(r: RecordModel, n: nat, n2: nat)
    requires
        model_ok(r, n),
        n <= n2,
    ensures
        model_ok(r, n2),
{
}

proof fn lemma_changes_ok_grow(cs: Seq<Change>, n: nat, n2: nat)
    requires
        changes_ok(cs, n),
        n <= n2,
    ensures
        changes_ok(cs, n2),
{
    assert forall|k: int| 0 <= k < cs.len() implies {
        let c = #[trigger] cs[k];
        &&& c.id < n2
        &&& model_ok(c.after@, n2)
        &&& c.before matches Some(b) ==> model_ok(b@, n2)
    } by {
        let c = cs[k];
        lemma_model_ok_grow(c.after@, n, n2);
        if let Some(b) = c.before {
            lemma_model_ok_grow(b@, n, n2);
        }
    }
}

proof fn lemma_restores_empty(before: Seq<RecordModel>, after: Seq<RecordModel>)
    requires
        restores(before, after, Seq::empty()),
    ensures
        after == before,
{
    reveal(restores);
    if after.len() > before.len() {
        assert(listed(Seq::<ChangeModel>::empty(), before.len() as int));
    }
    assert(after =~= before);
}

/// The session after a failed transaction: the same as before, records included.
pub open spec fn rolled_back(s: Session, s2: Session) -> bool {
    &&& s2.doc.rs() == s.doc.rs()
    &&& s2.doc.roots@ == s.doc.roots@
    &&& s2.doc.types@ == s.doc.types@
    &&& s2.doc.objects@ == s.doc.objects@
    &&& s2.doc.next_object_id == s.doc.next_object_id
    &&& s2.doc.max_bytes == s.doc.max_bytes
    &&& s2.doc.original_size == s.doc.original_size
    &&& s2.doc.encoded_size == s.doc.encoded_size
    &&& s2.revision == s.revision
    &&& s2.saved == s.saved
    &&& s2.current == s.current
    &&& s2.undo == s.undo
    &&& s2.redo == s.redo
    &&& s2.live == s.live
    &&& s2.live_count == s.live_count
    &&& s2.encoded_bytes == s.encoded_bytes
}

/// The session after a successful transaction. A transaction that changed no record leaves
/// the revision and history alone; any other gets the next revision, drops the redo history,
/// and pushes a patch that records how the records changed.
pub open spec fn committed(s: Session, s2: Session) -> bool {
    &&& s2.doc.roots@ == s.doc.roots@
    &&& s2.saved == s.saved
    &&& s2.doc.max_bytes == s.doc.max_bytes
    &&& s2.doc.original_size == s.doc.original_size
    &&& s2.doc.encoded_size == s.doc.encoded_size
    &&& if s2.revision == s.revision {
        &&& s2.doc.rs() == s.doc.rs()
        &&& s2.undo == s.undo
        &&& s2.redo == s.redo
        &&& s2.current == s.current
        &&& s2.encoded_bytes == s.encoded_bytes
    } else {
        &&& s2.revision == s.revision + 1
        &&& s2.redo@.len() == 0
        &&& s2.encoded_bytes is None
        &&& s2.undo@.len() <= s.undo@.len() + 1
        &&& s2.undo@.len() > 0 ==> {
            let p = s2.undo@.last();
            &&& p.changes@.len() > 0
            &&& restores(s.doc.rs(), s2.doc.rs(), change_models(p.changes@))
            &&& p.types_before@ == s.doc.types@
            &&& p.types_after@ == s2.doc.types@
        }
    }
}


/// Pads the liveness flags with `false` up to `n` entries.
fn extend_live(live: &mut Vec<bool>, n: usize)
    requires
        old(live)@.len() <= n,
    ensures
        final(live)@.len() == n,
        forall|i: int| 0 <= i < old(live)@.len() ==> final(live)@[i] == old(live)@[i],
{
    while live.len() < n
        invariant
            old(live)@.len() <= live@.len() <= n,
            forall|i: int| 0 <= i < old(live)@.len() ==> live@[i] == old(live)@[i],
        decreases n - live@.len(),
    {
        live.push(false);
    }
}

/// Records a transaction's changes in the session: indexes, hash, revision and history.
#[verifier::spinoff_prover]
#[verifier::rlimit(40)]
fn commit(
    s: &mut Session,
    changes: Vec<Change>,
    general: bool,
    containers: Vec<usize>,
    invalidated: bool,
    types: HashMap<i32, WireString>,
    next_revision: u32,
    origin: Ghost<Seq<RecordModel>>,
)
    requires
        old(s).doc.wf(),
        old(s).inventory matches Some(c) ==> c.wf(old(s).doc.records@.len() as nat),
        old(s).undo@.len() + old(s).redo@.len() <= 100,
        old(s).live@.len() == old(s).doc.records@.len(),
        changes_ok(changes@, old(s).doc.records@.len() as nat),
        restores(origin@, old(s).doc.rs(), change_models(changes@)),
        forall|k: int| 0 <= k < old(s).undo@.len() ==> patch_ok(#[trigger] old(s).undo@[k], old(s).doc.records@.len() as nat),
        forall|k: int| 0 <= k < old(s).redo@.len() ==> patch_ok(#[trigger] old(s).redo@[k], old(s).doc.records@.len() as nat),
        changes@.len() == 0 ==> old(s).current@ == content_hash(origin@, old(s).doc.roots@),
    ensures
        final(s).inv(),
        final(s).doc.rs() == old(s).doc.rs(),
        final(s).doc.roots == old(s).doc.roots,
        final(s).doc.types == old(s).doc.types,
        final(s).doc.max_bytes == old(s).doc.max_bytes,
        final(s).doc.original_size == old(s).doc.original_size,
        final(s).doc.encoded_size == old(s).doc.encoded_size,
        final(s).saved == old(s).saved,
        final(s).inventory == old(s).inventory,
        final(s).catalog == old(s).catalog,
        changes@.len() == 0 ==> *final(s) == *old(s) && old(s).doc.rs() == origin@,
        changes@.len() > 0 ==> {
            &&& final(s).revision == next_revision
            &&& final(s).redo@.len() == 0
            &&& final(s).encoded_bytes is None
            &&& final(s).undo@.len() <= old(s).undo@.len() + 1
            &&& patch_cost(changes@) <= 64 * 1024 * 1024 ==> final(s).undo@.len() > 0
            &&& final(s).undo@.len() > 0 ==> final(s).undo@.last().changes@ == changes@
            &&& final(s).undo@.len() > 0 ==> {
                let p = final(s).undo@.last();
                &&& p.changes@.len() > 0
                &&& restores(origin@, final(s).doc.rs(), change_models(p.changes@))
                &&& p.types_before@ == types@
                &&& p.types_after@ == final(s).doc.types@
            }
        },
{
    let ghost n = s.doc.records@.len();
    if changes.len() > 0 {
        let ghost undo0 = s.undo@;
        update_indexes(s, &changes, true);
        let bytes = patch_bytes(&changes);
        let types_after = s.doc.types.clone();
        let patch = Patch { changes, general, containers, invalidated, bytes, types_before: types, types_after };
        s.current = root_hash(&s.doc);
        s.revision = next_revision;
        s.redo = Vec::new();
        s.undo.push(patch);
        trim_undo(&mut s.undo);
        proof {
            let u = s.undo@;
            let full = undo0.push(patch);
            assert forall|k: int| 0 <= k < u.len() implies patch_ok(#[trigger] u[k], n as nat) by {
                assert(u[k] == full[full.len() - u.len() + k]);
            }
            if u.len() > 0 {
                assert(u.last() == full.last());
            }
        }
    } else {
        proof {
            assert(change_models(changes@) =~= Seq::<ChangeModel>::empty());
            lemma_restores_empty(origin@, s.doc.rs());
        }
    }
}


fn copy_ids(v: &Vec<usize>) -> (r: Vec<usize>)
    ensures
        r@ == v@,
{
    let mut out: Vec<usize> = Vec::new();
    let mut k: usize = 0;
    while k < v.len()
        invariant
            k <= v@.len(),
            out@ == v@.take(k as int),
        decreases v@.len() - k,
    {
        out.push(v[k]);
        assert(out@ =~= v@.take(k + 1));
        k = k + 1;
    }
    assert(v@.take(k as int) =~= v@);
    out
}

/// Brings the inventory cache up to date after an edit of the inventories `containers`, and
/// forgets it where other edits may have changed what it holds. Tells whether inventories
/// must be discovered anew.
fn refresh(s: &mut Session, containers: &Vec<usize>, invalidated: bool) -> (r: (Option<Updates>, bool))
    requires
        old(s).inv(),
    ensures
        final(s).inv(),
        *final(s) == (Session { inventory: final(s).inventory, ..*old(s) }),
        r.1 == (invalidated || (containers@.len() > 0 && r.0 is None)),
        invalidated ==> final(s).inventory is None,
{
    if invalidated {
        s.inventory = None;
        return (None, true);
    }
    if containers.len() == 0 {
        return (None, false);
    }
    let mut slot: Option<Cache> = None;
    std::mem::swap(&mut slot, &mut s.inventory);
    match slot {
        Some(mut c) => match c.updates(&s.doc, &s.catalog, containers) {
            Ok(u) => {
                s.inventory = Some(c);
                (Some(u), false)
            },
            // A mixed edit can make a formerly supported inventory unreadable; discovery
            // starts anew on demand.
            Err(_) => (None, true),
        },
        None => (None, true),
    }
}

/// The GUID held by record `i`, where it is the `id` text of an `SGuid` node.
/// The GUID that record `i` holds: the text of a string field `id` of a node whose type's
/// short name is `SGuid`.
pub open spec fn guid_spec(d: Document, i: usize) -> Option<Seq<char>> {
    let r = d.rs()[i as int];
    if !(r.payload is Text) || !(r.name matches Some(n) && display_spec(n) == "id"@) {
        None
    } else {
        match r.parent {
            None => None,
            Some(p) => match type_id(d.rs()[p as int].payload) {
                None => None,
                Some(t) => if d.types@.contains_key(t) && ({
                    let name = display_spec(d.types@[t]@);
                    name.take(comma_at(name)) == "SGuid"@
                }) {
                    Some(display_spec(r.payload->Text_0))
                } else {
                    None
                },
            },
        }
    }
}

fn guid_of(doc: &Document, i: usize) -> (r: Option<String>)
    requires
        doc.wf(),
        i < doc.records@.len(),
    ensures
        match guid_spec(*doc, i) {
            Some(g) => r matches Some(v) && v@ == g,
            None => r is None,
        },
{
    assert(doc.rs()[i as int] == doc.records@[i as int]@);
    let r = &doc.records[i];
    let value = match &r.payload {
        Payload::Text(v) => v,
        _ => return None,
    };
    let named_id = match &r.name {
        Some(n) => crate::text::same_text(n.display().as_str(), "id"),
        None => false,
    };
    if !named_id {
        return None;
    }
    let parent = match r.parent {
        Some(p) => p,
        None => return None,
    };
    assert(doc.rs()[i as int].parent == Some(parent));
    let t = match &doc.records[parent].payload {
        Payload::Node { ty: TypeInfo::Definition(t, _), .. } => *t,
        Payload::Node { ty: TypeInfo::Reference(t), .. } => *t,
        _ => return None,
    };
    match doc.types.get(&t) {
        Some(name) => {
            let short = crate::inventory::before_comma(name.display().as_str());
            if crate::text::same_text(short.as_str(), "SGuid") {
                Some(value.display())
            } else {
                None
            }
        },
        None => None,
    }
}

/// Liveness of each of the `n` records after the changes `cs`, the last change of a record
/// deciding.
pub open spec fn live_after(live: Seq<bool>, cs: Seq<Change>, n: nat) -> Seq<bool>
    decreases cs.len(),
{
    if cs.len() == 0 {
        Seq::new(n, |i: int| i < live.len() && live[i])
    } else {
        live_after(live, cs.drop_last(), n).update(cs.last().id as int, cs.last().after_live)
    }
}

/// How many of the first `i` records are live and hold GUID `g`, in any letter case.
pub open spec fn guid_count(d: Document, live: Seq<bool>, g: Seq<char>, i: nat) -> nat
    decreases i,
{
    if i == 0 {
        0
    } else {
        let k = (i - 1) as nat;
        guid_count(d, live, g, k) + if live[k as int] && (guid_spec(d, k as usize) matches Some(v) && same_ignoring_case(v, g)) {
            1nat
        } else {
            0nat
        }
    }
}

/// Refuses a transaction after which a GUID that it created is held by more than one live
/// item identity, in any letter case.
#[verifier::loop_isolation(false)]
fn check_guids(s: &Session, cs: &Vec<Change>, guids: &Vec<String>) -> (r: Result<(), Error>)
    requires
        s.doc.wf(),
        s.live@.len() <= s.doc.records@.len(),
        changes_ok(cs@, s.doc.records@.len() as nat),
    ensures
        r is Err <==> exists|g: int|
            0 <= g < guids@.len() && guid_count(
                s.doc,
                live_after(s.live@, cs@, s.doc.records@.len() as nat),
                (#[trigger] guids@[g])@,
                s.doc.records@.len() as nat,
            ) > 1,
        r matches Err(e) ==> e.0@ == "Duplicate item GUID"@,
{
    if guids.len() == 0 {
        return Ok(());
    }
    let n = s.doc.records.len();
    let mut live: Vec<bool> = Vec::new();
    let mut i: usize = 0;
    while i < n
        invariant
            i <= n,
            live@.len() == i,
            forall|m: int| 0 <= m < i ==> live@[m] == (m < s.live@.len() && s.live@[m]),
        decreases n - i,
    {
        live.push(i < s.live.len() && s.live[i]);
        i = i + 1;
    }
    assert(live@ =~= live_after(s.live@, cs@.take(0), n as nat));
    let mut k: usize = 0;
    while k < cs.len()
        invariant
            live@.len() == n,
            k <= cs@.len(),
            live@ == live_after(s.live@, cs@.take(k as int), n as nat),
        decreases cs@.len() - k,
    {
        assert(cs@[k as int].id < n);
        assert(cs@.take(k + 1).drop_last() =~= cs@.take(k as int));
        live.set(cs[k].id, cs[k].after_live);
        k = k + 1;
    }
    assert(cs@.take(k as int) =~= cs@);
    let mut g: usize = 0;
    while g < guids.len()
        invariant
            live@.len() == n,
            n == s.doc.records@.len(),
            s.doc.wf(),
            g <= guids@.len(),
            live@ == live_after(s.live@, cs@, n as nat),
            forall|x: int| 0 <= x < g ==> guid_count(s.doc, live@, (#[trigger] guids@[x])@, n as nat) <= 1,
        decreases guids@.len() - g,
    {
        let mut count: usize = 0;
        let mut i: usize = 0;
        while i < n
            invariant
                live@.len() == n,
                n == s.doc.records@.len(),
                s.doc.wf(),
                i <= n,
                count <= i,
                count == guid_count(s.doc, live@, guids@[g as int]@, i as nat),
            decreases n - i,
        {
            if live[i] {
                if let Some(v) = guid_of(&s.doc, i) {
                    if crate::inventory::same_case_blind(v.as_str(), guids[g].as_str()) {
                        count = count + 1;
                    }
                }
            }
            i = i + 1;
        }
        if count > 1 {
            return Err(failure("Duplicate item GUID"));
        }
        g = g + 1;
    }
    Ok(())
}

/// Whether an operation is a raw edit, which may change what the inventory cache holds.
pub open spec fn raw_edit(op: Operation) -> bool {
    !(op is Inventory || op is General || op is Drops)
}

/// What a transaction request does to the workspace and answers.
pub open spec fn transact_spec(w: Workspace, w2: Workspace, id: u32, revision: u32, n: nat, r: Result<TransactOutcome, Error>) -> bool {
            match revision_check(w, id, revision) {
                Err(m) => r matches Err(e) && e.0@ == m && w2.sessions@ == w.sessions@,
                Ok(()) => if n == 0 || n > 1000 {
                    r matches Err(e) && e.0@ == "A transaction must contain 1..1000 operations"@ && w2.sessions@
                        == w.sessions@
                } else if revision == u32::MAX {
                    r matches Err(e) && e.0@ == "Revision limit exceeded"@ && w2.sessions@ == w.sessions@
                } else {
                    let s = w.sessions@[id];
                    let s2 = w2.sessions@[id];
                    &&& w2.sessions@ == w.sessions@.insert(id, s2)
                    &&& r is Err ==> rolled_back(s, s2)
                    &&& r matches Ok(out) ==> committed(s, s2) && out.summary == summary_of(id, s2)
                },
            }
}

impl Workspace {
    /// Applies a batch of operations as one step. A refused batch leaves the session exactly
    /// as it was (`rolled_back`); an accepted one is committed as `committed` describes: the
    /// next revision with the redo history dropped, or nothing at all where no record changed.
    /// The committed records are those of applying the operations in turn and bringing array
    /// counts up to date (`ops_applied`), and a batch with an operation that is refused
    /// whatever the operations before it did (`refused_at`) is refused.
    #[verifier::spinoff_prover]
    #[verifier::rlimit(60)]
    pub fn transact(&mut self, id: u32, revision: u32, operations: Vec<Operation>) -> (r: Result<TransactOutcome, Error>)
        requires
            old(self).inv(),
        ensures
            final(self).inv(),
            final(self).next == old(self).next,
            final(self).templates == old(self).templates,
            transact_spec(*old(self), *final(self), id, revision, operations@.len(), r),
            r matches Ok(out) ==> ((exists|k: int| 0 <= k < operations@.len() && raw_edit(#[trigger] operations@[k]))
                ==> out.inventory_invalidated && final(self).sessions@[id].inventory is None),
            r is Ok ==> final(self).sessions@[id].doc.records@.len() >= old(self).sessions@[id].doc.records@.len(),
            r matches Ok(out) ==> (out.general is Some <==> exists|k: int|
                0 <= k < operations@.len() && !(#[trigger] operations@[k] is Inventory || operations@[k] is Drops)),
            r matches Ok(out) ==> (final(self).sessions@[id].revision != old(self).sessions@[id].revision
                && final(self).sessions@[id].undo@.len() > 0 ==> {
                let cs = final(self).sessions@[id].undo@.last().changes@;
                &&& out.changed@ == live_ids(cs, true)
                &&& out.deleted@ == gone_ids(cs, true)
            }),
            r matches Ok(out) ==> (final(self).sessions@[id].revision == old(self).sessions@[id].revision ==> out.changed@.len()
                == 0 && out.deleted@.len() == 0),
            (operations@.len() > 0 && old(self).sessions@.contains_key(id) && operation_spec(
                old(self).sessions@[id].doc,
                operations@[0],
            ) is Some && operation_spec(old(self).sessions@[id].doc, operations@[0])->Some_0 is Err) ==> r is Err,
            r is Ok ==> ops_applied(
                old(self).sessions@[id].doc,
                final(self).sessions@[id].doc.rs(),
                operations@,
                old(self).templates@,
            ),
            old(self).sessions@.contains_key(id) && (exists|k: int|
                refused_at(old(self).sessions@[id].doc, operations@, old(self).templates@, k)) ==> r is Err,
            r is Ok && final(self).sessions@[id].revision != old(self).sessions@[id].revision ==> (final(self).sessions@[id].undo@.len()
                > 0 || exists|cs: Seq<Change>|
                patch_cost(cs) > 64 * 1024 * 1024 && #[trigger] restores(
                    old(self).sessions@[id].doc.rs(),
                    final(self).sessions@[id].doc.rs(),
                    change_models(cs),
                )),
    {
        match self.check_revision(id, revision) {
            Ok(()) => {},
            Err(e) => return Err(e),
        }
        if operations.len() == 0 || operations.len() > 1000 {
            return Err(failure("A transaction must contain 1..1000 operations"));
        }
        if revision == u32::MAX {
            return Err(failure("Revision limit exceeded"));
        }
        let next_revision = revision + 1;
        let ghost n_ops = operations@.len();
        let ghost sessions0 = self.sessions@;
        let mut s = self.sessions.remove(&id).unwrap();
        let ghost s0 = s;
        assert(sessions0.contains_key(id));
        assert(s0.inv());
        let mut general = false;
        let mut invalidated = false;
        let mut inventory_ops = false;
        let mut containers: Vec<usize> = Vec::new();
        let ghost ops = operations@;
        let mut k: usize = 0;
        while k < operations.len()
            invariant
                k <= operations@.len(),
                ops == operations@,
                invalidated == exists|m: int| 0 <= m < k && raw_edit(#[trigger] ops[m]),
                general == exists|m: int| 0 <= m < k && !(#[trigger] ops[m] is Inventory || ops[m] is Drops),
            decreases operations@.len() - k,
        {
            match &operations[k] {
                Operation::Inventory { container, .. } => {
                    inventory_ops = true;
                    containers.push(*container);
                },
                Operation::Drops { .. } => {},
                Operation::General { .. } => {
                    general = true;
                },
                _ => {
                    general = true;
                    invalidated = true;
                },
            }
            k = k + 1;
        }
        if inventory_ops && s.inventory.is_none() {
            match Cache::build(&s.doc, &s.catalog) {
                Ok(c) => {
                    s.inventory = Some(c);
                },
                Err(e) => {
                    self.sessions.insert(id, s);
                    proof {
                        assert(self.sessions@ == sessions0.insert(id, s));
                        assert forall|k: u32| #[trigger] self.sessions@.contains_key(k) implies self.sessions@[k].inv() by {
                            if k != id {
                                assert(sessions0.contains_key(k));
                            }
                        }
                    }
                    return Err(e);
                },
            }
        }
        assert(s.inv());
        let start = s.doc.records.len();
        let types = s.doc.types.clone();
        let next_object = s.doc.next_object_id;
        let mut j = Journal::begin(&s.doc);
        let mut guids: Vec<String> = Vec::new();
        let ghost ops0 = operations@;
        let ghost doc0 = s.doc;
        let result = run_operations(&mut s.doc, &mut j, operations, &self.templates, &s.catalog, &s.inventory, &mut guids);
        let ghost rs_run = s.doc.rs();
        let changes = match result {
            Ok(()) => match collect_changes(&s, &j) {
                Ok(cs) => match validate_changes(&s, &cs) {
                    Ok(()) => match check_guids(&s, &cs, &guids) {
                        Ok(()) => Ok(cs),
                        Err(e) => Err(e),
                    },
                    Err(e) => Err(e),
                },
                Err(e) => Err(e),
            },
            Err(e) => Err(e),
        };
        let changes = match changes {
            Ok(cs) => cs,
            Err(e) => {
                rollback(&mut s.doc, &j, types, next_object);
                self.sessions.insert(id, s);
                proof {
                    assert(self.sessions@ == sessions0.insert(id, s));
                    assert forall|k: u32| #[trigger] self.sessions@.contains_key(k) implies self.sessions@[k].inv() by {
                        if k != id {
                            assert(sessions0.contains_key(k));
                        } else {
                            assert(s.doc.rs() == s0.doc.rs());
                        }
                    }
                }
                return Err(e);
            },
        };
        let (changed, deleted) = split_changes(&changes, true);
        let ghost n = s.doc.records@.len();
        proof {
            assert forall|k: int| 0 <= k < s.undo@.len() implies patch_ok(#[trigger] s.undo@[k], n as nat) by {
                lemma_changes_ok_grow(s.undo@[k].changes@, start as nat, n as nat);
            }
            assert forall|k: int| 0 <= k < s.redo@.len() implies patch_ok(#[trigger] s.redo@[k], n as nat) by {
                lemma_changes_ok_grow(s.redo@[k].changes@, start as nat, n as nat);
            }
        }
        extend_live(&mut s.live, s.doc.records.len());
        proof {
            if s.inventory is Some {
                lemma_cache_grow(&s.inventory->0, start as nat, s.doc.records@.len() as nat);
            }
        }
        let touched = copy_ids(&containers);
        let ghost cs_made = changes@;
        commit(&mut s, changes, general, containers, invalidated, types, next_revision, Ghost(j.origin@));
        let ghost committed_s = s;
        proof {
            if cs_made.len() > 0 && s.undo@.len() == 0 {
                assert(patch_cost(cs_made) > 64 * 1024 * 1024);
                assert(restores(j.origin@, s.doc.rs(), change_models(cs_made)));
            }
        }
        let (inventory, inventory_invalidated) = refresh(&mut s, &touched, invalidated);
        assert(committed(s0, s));
        self.sessions.insert(id, s);
        proof {
            assert forall|k: u32| #[trigger] self.sessions@.contains_key(k) implies self.sessions@[k].inv() by {
                if k != id {
                    assert(sessions0.contains_key(k));
                }
            }
        }
        let summary = match self.summary(id) {
            Ok(sum) => sum,
            Err(e) => return Err(e),
        };
        let fields = if general {
            match self.sessions.get(&id) {
                Some(s) => Some(crate::general::read(&s.doc)),
                None => None,
            }
        } else {
            None
        };
        let out = TransactOutcome { summary, general: fields, changed, deleted, inventory, inventory_invalidated };
        assert(committed(s0, self.sessions@[id]));
        assert(self.sessions@ =~= old(self).sessions@.insert(id, self.sessions@[id]));
        assert(transact_spec(*old(self), *self, id, revision, n_ops, Ok::<TransactOutcome, Error>(out)));
        Ok(out)
    }
}

/// The session after undoing (`forward` false) or redoing (`forward` true) the last patch.
pub open spec fn replayed(s: Session, s2: Session, forward: bool) -> bool {
    let p = if forward { s.redo@.last() } else { s.undo@.last() };
    let cs = change_models(p.changes@);
    &&& s2.doc.rs() == if forward { redo_image(s.doc.rs(), cs) } else { undo_image(s.doc.rs(), cs) }
    &&& s2.doc.types@ == if forward { p.types_after@ } else { p.types_before@ }
    &&& s2.doc.roots@ == s.doc.roots@
    &&& s2.revision == s.revision + 1
    &&& s2.saved == s.saved
    &&& s2.encoded_bytes is None
    &&& if forward {
        &&& s2.redo@ == s.redo@.drop_last()
        &&& s2.undo@ == s.undo@.push(p)
    } else {
        &&& s2.undo@ == s.undo@.drop_last()
        &&& s2.redo@ == s.redo@.push(p)
    }
}


/// What an undo (`redo` false) or redo request does to the workspace and answers.
pub open spec fn history_spec(w: Workspace, w2: Workspace, id: u32, revision: u32, redo: bool, r: Result<TransactOutcome, Error>) -> bool {
            match revision_check(w, id, revision) {
                Err(m) => r matches Err(e) && e.0@ == m && w2.sessions@ == w.sessions@,
                Ok(()) => if revision == u32::MAX {
                    r matches Err(e) && e.0@ == "Revision limit exceeded"@ && w2.sessions@ == w.sessions@
                } else if (if redo { w.sessions@[id].redo@.len() == 0 } else { w.sessions@[id].undo@.len() == 0 }) {
                    r matches Err(e) && e.0@ == "No history available"@ && w2.sessions@ == w.sessions@
                } else {
                    let s2 = w2.sessions@[id];
                    &&& w2.sessions@ == w.sessions@.insert(id, s2)
                    &&& replayed(w.sessions@[id], s2, redo)
                    &&& r matches Ok(out) && out.summary == summary_of(id, s2)
                },
            }
}


/// What marking a document saved does to the workspace and answers.
pub open spec fn mark_saved_spec(w: Workspace, w2: Workspace, id: u32, revision: u32, r: Result<DocumentSummary, Error>) -> bool {
            match revision_check(w, id, revision) {
                Err(m) => r matches Err(e) && e.0@ == m && w2.sessions@ == w.sessions@,
                Ok(()) => {
                    let s = w.sessions@[id];
                    let s2 = w2.sessions@[id];
                    &&& w2.sessions@ == w.sessions@.insert(id, s2)
                    &&& s2 == (Session { saved: s2.saved, ..s })
                    &&& s2.saved@ == s.current@
                    &&& r == Ok::<DocumentSummary, Error>(summary_of(id, s2))
                },
            }
}

/// Writes one side of each change back into the records.
fn write_side(doc: &mut Document, cs: &Vec<Change>, forward: bool)
    requires
        old(doc).wf(),
        changes_ok(cs@, old(doc).records@.len() as nat),
    ensures
        final(doc).wf(),
        final(doc).rs() == if forward {
            redo_image(old(doc).rs(), change_models(cs@))
        } else {
            undo_image(old(doc).rs(), change_models(cs@))
        },
        final(doc).records@.len() == old(doc).records@.len(),
        final(doc).roots == old(doc).roots,
        final(doc).types == old(doc).types,
        final(doc).objects == old(doc).objects,
        final(doc).next_object_id == old(doc).next_object_id,
        final(doc).max_bytes == old(doc).max_bytes,
        final(doc).original_size == old(doc).original_size,
        final(doc).encoded_size == old(doc).encoded_size,
{
    let ghost rs0 = doc.rs();
    let ghost models = change_models(cs@);
    let mut k: usize = 0;
    while k < cs.len()
        invariant
            doc.wf(),
            changes_ok(cs@, rs0.len()),
            models == change_models(cs@),
            doc.records@.len() == rs0.len(),
            k <= cs@.len(),
            doc.rs() == if forward {
                redo_image(rs0, models.take(k as int))
            } else {
                undo_image(rs0, models.take(k as int))
            },
            doc.roots == old(doc).roots,
            doc.types == old(doc).types,
            doc.objects == old(doc).objects,
            doc.next_object_id == old(doc).next_object_id,
            doc.max_bytes == old(doc).max_bytes,
            doc.original_size == old(doc).original_size,
            doc.encoded_size == old(doc).encoded_size,
        decreases cs@.len() - k,
    {
        let c = &cs[k];
        assert(models.take(k + 1).drop_last() =~= models.take(k as int));
        assert(models.take(k + 1).last() == c@);
        assert(c.id < rs0.len());
        let ghost before = doc.rs();
        let written = if forward {
            Some(c.after.duplicate())
        } else {
            match &c.before {
                Some(b) => Some(b.duplicate()),
                None => None,
            }
        };
        if let Some(r) = written {
            let ghost rm = r@;
            assert(model_ok(rm, rs0.len()));
            doc.records.set(c.id, r);
            proof {
                assert(doc.rs() =~= before.update(c.id as int, rm));
                let rs = doc.rs();
                assert forall|a: int, b: int| 0 <= a < rs.len() && 0 <= b < rs[a].children.len() implies #[trigger] rs[a].children[b]
                    < rs.len() by {
                    if a != c.id {
                        assert(rs[a] == before[a]);
                    }
                }
                assert forall|a: int| 0 <= a < rs.len() implies (#[trigger] rs[a].parent matches Some(p) ==> p < rs.len()) by {
                    if a != c.id {
                        assert(rs[a] == before[a]);
                    }
                }
            }
        }
        k = k + 1;
    }
    assert(models.take(k as int) =~= models);
}

impl Workspace {
    /// Undoes (`redo` false) or redoes (`redo` true) the most recent transaction of document `id`.
    pub fn history(&mut self, id: u32, revision: u32, redo: bool) -> (r: Result<TransactOutcome, Error>)
        requires
            old(self).inv(),
        ensures
            final(self).inv(),
            final(self).next == old(self).next,
            final(self).templates == old(self).templates,
            history_spec(*old(self), *final(self), id, revision, redo, r),
            r matches Ok(out) ==> (out.general is Some <==> (if redo {
                old(self).sessions@[id].redo@.last()
            } else {
                old(self).sessions@[id].undo@.last()
            }).general),
    {
        match self.check_revision(id, revision) {
            Ok(()) => {},
            Err(e) => return Err(e),
        }
        if revision == u32::MAX {
            return Err(failure("Revision limit exceeded"));
        }
        let empty = match self.sessions.get(&id) {
            Some(s) => if redo {
                s.redo.len() == 0
            } else {
                s.undo.len() == 0
            },
            None => true,
        };
        if empty {
            return Err(failure("No history available"));
        }
        let ghost sessions0 = self.sessions@;
        let mut s = self.sessions.remove(&id).unwrap();
        let ghost s0 = s;
        assert(sessions0.contains_key(id));
        assert(s0.inv());
        let popped = if redo {
            s.redo.pop()
        } else {
            s.undo.pop()
        };
        let patch = popped.unwrap();
        proof {
            if redo {
                assert(s0.redo@.last() == patch);
                assert(patch_ok(s0.redo@[s0.redo@.len() - 1], s0.doc.records@.len() as nat));
            } else {
                assert(s0.undo@.last() == patch);
                assert(patch_ok(s0.undo@[s0.undo@.len() - 1], s0.doc.records@.len() as nat));
            }
        }
        update_indexes(&mut s, &patch.changes, redo);
        write_side(&mut s.doc, &patch.changes, redo);
        let (changed, deleted) = split_changes(&patch.changes, redo);
        let general = patch.general;
        let touched = copy_ids(&patch.containers);
        let invalidated = patch.invalidated;
        s.doc.types = if redo {
            patch.types_after.clone()
        } else {
            patch.types_before.clone()
        };
        s.current = root_hash(&s.doc);
        s.revision = revision + 1;
        if redo {
            s.undo.push(patch);
        } else {
            s.redo.push(patch);
        }
        proof {
            let n = s.doc.records@.len() as nat;
            assert(n == s0.doc.records@.len());
            assert(patch_ok(patch, n));
            assert forall|k: int| 0 <= k < s.undo@.len() implies patch_ok(#[trigger] s.undo@[k], n) by {
                if k < s0.undo@.len() {
                    assert(s.undo@[k] == s0.undo@[k]);
                } else {
                    assert(s.undo@[k] == patch);
                }
            }
            assert forall|k: int| 0 <= k < s.redo@.len() implies patch_ok(#[trigger] s.redo@[k], n) by {
                if k < s0.redo@.len() {
                    assert(s.redo@[k] == s0.redo@[k]);
                } else {
                    assert(s.redo@[k] == patch);
                }
            }
        }
        let ghost replayed_s = s;
        assert(replayed(s0, replayed_s, redo));
        let (inventory, inventory_invalidated) = refresh(&mut s, &touched, invalidated);
        assert(replayed(s0, s, redo));
        self.sessions.insert(id, s);
        proof {
            assert forall|k: u32| #[trigger] self.sessions@.contains_key(k) implies self.sessions@[k].inv() by {
                if k != id {
                    assert(sessions0.contains_key(k));
                }
            }
        }
        let summary = match self.summary(id) {
            Ok(sum) => sum,
            Err(e) => return Err(e),
        };
        let fields = if general {
            match self.sessions.get(&id) {
                Some(s) => Some(crate::general::read(&s.doc)),
                None => None,
            }
        } else {
            None
        };
        let out = TransactOutcome { summary, general: fields, changed, deleted, inventory, inventory_invalidated };
        assert(replayed(s0, self.sessions@[id], redo));
        assert(self.sessions@ =~= old(self).sessions@.insert(id, self.sessions@[id]));
        assert(history_spec(*old(self), *self, id, revision, redo, Ok::<TransactOutcome, Error>(out)));
        Ok(out)
    }

    /// Records the current content as saved.
    pub fn mark_saved(&mut self, id: u32, revision: u32) -> (r: Result<DocumentSummary, Error>)
        requires
            old(self).inv(),
        ensures
            final(self).inv(),
            final(self).next == old(self).next,
            final(self).templates == old(self).templates,
            mark_saved_spec(*old(self), *final(self), id, revision, r),
    {
        match self.check_revision(id, revision) {
            Ok(()) => {},
            Err(e) => return Err(e),
        }
        let ghost sessions0 = self.sessions@;
        let mut s = self.sessions.remove(&id).unwrap();
        assert(sessions0.contains_key(id));
        let saved = s.current.clone();
        assert(saved@ == s.current@);
        s.saved = saved;
        self.sessions.insert(id, s);
        proof {
            assert forall|k: u32| #[trigger] self.sessions@.contains_key(k) implies self.sessions@[k].inv() by {
                if k != id {
                    assert(sessions0.contains_key(k));
                }
            }
        }
        let r = self.summary(id);
        assert(self.sessions@ =~= old(self).sessions@.insert(id, self.sessions@[id]));
        assert(mark_saved_spec(*old(self), *self, id, revision, r));
        r
    }

    /// The encoded bytes of document `id`, checked by decoding them again.
    pub fn export(&mut self, id: u32) -> (r: Result<Vec<u8>, Error>)
        requires
            old(self).inv(),
        ensures
            final(self).inv(),
            final(self).next == old(self).next,
            final(self).templates == old(self).templates,
            !old(self).sessions@.contains_key(id) ==> (r matches Err(e) && e.0@ == closed_text() && final(self).sessions@
                == old(self).sessions@),
            old(self).sessions@.contains_key(id) ==> {
                let s = old(self).sessions@[id];
                let s2 = final(self).sessions@[id];
                &&& final(self).sessions@ == old(self).sessions@.insert(id, s2)
                &&& r is Err ==> s2 == s
                &&& r matches Ok(b) ==> b@ == spec_encode(s.doc.rs(), s.doc.roots@) && b@.len() <= s.doc.max_bytes
                    && s2 == (Session { encoded_bytes: Some(b@.len() as usize), ..s })
                &&& spec_encode(s.doc.rs(), s.doc.roots@).len() > s.doc.max_bytes ==> (r matches Err(e) && e.0@
                    == "Document exceeds size limit"@)
            },
    {
        let ghost sessions0 = self.sessions@;
        let mut s = match self.sessions.remove(&id) {
            Some(s) => s,
            None => return Err(failure("Document is closed")),
        };
        let ghost s0 = s;
        assert(sessions0.contains_key(id));
        let bytes = s.doc.encode();
        if bytes.len() > s.doc.max_bytes {
            self.sessions.insert(id, s);
            assert(self.sessions@ =~= sessions0);
            return Err(failure("Document exceeds size limit"));
        }
        match Document::decode(bytes.as_slice()) {
            Ok(_) => {},
            Err(e) => {
                self.sessions.insert(id, s);
                assert(self.sessions@ =~= sessions0);
                return Err(e);
            },
        }
        s.encoded_bytes = Some(bytes.len());
        self.sessions.insert(id, s);
        proof {
            assert forall|k: u32| #[trigger] self.sessions@.contains_key(k) implies self.sessions@[k].inv() by {
                if k != id {
                    assert(sessions0.contains_key(k));
                }
            }
        }
        Ok(bytes)
    }

    /// Closes document `id`.
    pub fn close(&mut self, id: u32) -> (r: Result<(), Error>)
        requires
            old(self).inv(),
        ensures
            final(self).inv(),
            final(self).next == old(self).next,
            final(self).templates == old(self).templates,
            final(self).sessions@ == old(self).sessions@.remove(id),
            r is Ok <==> old(self).sessions@.contains_key(id),
            r matches Err(e) ==> e.0@ == closed_text(),
    {
        match self.sessions.remove(&id) {
            Some(_) => Ok(()),
            None => Err(failure("Document is closed")),
        }
    }
}

/// Whether record `i` is written back by an undo of `cs`.
pub open spec fn undo_source(cs: Seq<ChangeModel>, i: int) -> Option<RecordModel>
    decreases cs.len(),
{
    if cs.len() == 0 {
        None
    } else if cs.last().id == i && cs.last().before is Some {
        cs.last().before
    } else {
        undo_source(cs.drop_last(), i)
    }
}

proof fn lemma_undo_image(rs: Seq<RecordModel>, cs: Seq<ChangeModel>, i: int)
    requires
        forall|k: int| 0 <= k < cs.len() ==> (#[trigger] cs[k]).id < rs.len(),
        0 <= i < rs.len(),
    ensures
        undo_image(rs, cs).len() == rs.len(),
        undo_image(rs, cs)[i] == match undo_source(cs, i) {
            Some(b) => b,
            None => rs[i],
        },
    decreases cs.len(),
{
    if cs.len() > 0 {
        assert forall|k: int| 0 <= k < cs.drop_last().len() implies (#[trigger] cs.drop_last()[k]).id < rs.len() by {
            assert(cs.drop_last()[k] == cs[k]);
        }
        lemma_undo_image(rs, cs.drop_last(), i);
        assert(cs.last() == cs[cs.len() - 1]);
    }
}

proof fn lemma_undo_source(cs: Seq<ChangeModel>, i: int)
    requires
        forall|k1: int, k2: int| 0 <= k1 < cs.len() && 0 <= k2 < cs.len() && k1 != k2 ==> cs[k1].id != cs[k2].id,
    ensures
        undo_source(cs, i) is None <==> forall|k: int| 0 <= k < cs.len() && (#[trigger] cs[k]).id == i ==> cs[k].before is None,
        forall|k: int| 0 <= k < cs.len() && (#[trigger] cs[k]).id == i && cs[k].before is Some ==> undo_source(cs, i) == cs[k].before,
    decreases cs.len(),
{
    if cs.len() > 0 {
        let d = cs.drop_last();
        assert forall|k1: int, k2: int| 0 <= k1 < d.len() && 0 <= k2 < d.len() && k1 != k2 implies d[k1].id != d[k2].id by {
            assert(d[k1] == cs[k1] && d[k2] == cs[k2]);
        }
        lemma_undo_source(d, i);
        assert(cs.last() == cs[cs.len() - 1]);
        assert forall|k: int| 0 <= k < cs.len() && (#[trigger] cs[k]).id == i && cs[k].before is Some implies undo_source(cs, i) == cs[k].before by {
            if k < cs.len() - 1 {
                assert(d[k] == cs[k]);
            }
        }
        if undo_source(cs, i) is None {
            assert forall|k: int| 0 <= k < cs.len() && (#[trigger] cs[k]).id == i implies cs[k].before is None by {
                if k < cs.len() - 1 {
                    assert(d[k] == cs[k]);
                }
            }
        }
        if forall|k: int| 0 <= k < cs.len() && (#[trigger] cs[k]).id == i ==> cs[k].before is None {
            assert forall|k: int| 0 <= k < d.len() && (#[trigger] d[k]).id == i implies d[k].before is None by {
                assert(d[k] == cs[k]);
            }
        }
    }
}

#[verifier::spinoff_prover]
proof fn lemma_undo_at(before: Seq<RecordModel>, after: Seq<RecordModel>, cs: Seq<ChangeModel>, i: int)
    requires
        restores(before, after, cs),
        0 <= i < before.len(),
    ensures
        undo_image(after, cs).len() == after.len(),
        undo_image(after, cs)[i] == before[i],
{
    reveal(restores);
    lemma_undo_image(after, cs, i);
    lemma_undo_source(cs, i);
    if exists|k: int| 0 <= k < cs.len() && (#[trigger] cs[k]).id == i {
        let k = choose|k: int| 0 <= k < cs.len() && (#[trigger] cs[k]).id == i;
        assert(cs[k].before is Some);
    } else {
        assert(after[i] == before[i]);
    }
}

/// Undoing a transaction writes back every record that existed before it.
pub proof fn law_undo_restores(before: Seq<RecordModel>, after: Seq<RecordModel>, cs: Seq<ChangeModel>)
    requires
        restores(before, after, cs),
    ensures
        undo_image(after, cs).len() == after.len(),
        after.len() >= before.len(),
        undo_image(after, cs).take(before.len() as int) == before,
{
    assert forall|i: int| 0 <= i < before.len() implies #[trigger] undo_image(after, cs)[i] == before[i] by {
        lemma_undo_at(before, after, cs, i);
    }
    lemma_undo_len(before, after, cs);
    assert(undo_image(after, cs).take(before.len() as int) =~= before);
}

proof fn lemma_undo_len(before: Seq<RecordModel>, after: Seq<RecordModel>, cs: Seq<ChangeModel>)
    requires
        restores(before, after, cs),
    ensures
        undo_image(after, cs).len() == after.len(),
        after.len() >= before.len(),
        forall|k: int| 0 <= k < cs.len() ==> (#[trigger] cs[k]).id < after.len(),
    decreases cs.len(),
{
    reveal(restores);
    if after.len() > 0 {
        lemma_undo_image(after, cs, 0);
    } else if cs.len() > 0 {
        assert(cs[0].id < after.len());
    }
}

/// Whether record `i` is written by a redo of `cs`.
pub open spec fn redo_source(cs: Seq<ChangeModel>, i: int) -> Option<RecordModel>
    decreases cs.len(),
{
    if cs.len() == 0 {
        None
    } else if cs.last().id == i {
        Some(cs.last().after)
    } else {
        redo_source(cs.drop_last(), i)
    }
}

proof fn lemma_redo_image(rs: Seq<RecordModel>, cs: Seq<ChangeModel>, i: int)
    requires
        forall|k: int| 0 <= k < cs.len() ==> (#[trigger] cs[k]).id < rs.len(),
        0 <= i < rs.len(),
    ensures
        redo_image(rs, cs).len() == rs.len(),
        redo_image(rs, cs)[i] == match redo_source(cs, i) {
            Some(b) => b,
            None => rs[i],
        },
        redo_source(cs, i) is Some ==> exists|k: int| 0 <= k < cs.len() && (#[trigger] cs[k]).id == i && redo_source(cs, i) == Some(cs[k].after),
        redo_source(cs, i) is None ==> forall|k: int| 0 <= k < cs.len() ==> (#[trigger] cs[k]).id != i,
    decreases cs.len(),
{
    if cs.len() > 0 {
        let d = cs.drop_last();
        assert forall|k: int| 0 <= k < d.len() implies (#[trigger] d[k]).id < rs.len() by {
            assert(d[k] == cs[k]);
        }
        lemma_redo_image(rs, d, i);
        assert(cs.last() == cs[cs.len() - 1]);
        if redo_source(cs, i) is Some && cs.last().id != i {
            let k = choose|k: int| 0 <= k < d.len() && (#[trigger] d[k]).id == i && redo_source(d, i) == Some(d[k].after);
            assert(cs[k] == d[k]);
        }
        if redo_source(cs, i) is None {
            assert forall|k: int| 0 <= k < cs.len() implies (#[trigger] cs[k]).id != i by {
                if k < d.len() {
                    assert(d[k] == cs[k]);
                }
            }
        }
    }
}

#[verifier::spinoff_prover]
proof fn lemma_redo_at(before: Seq<RecordModel>, after: Seq<RecordModel>, cs: Seq<ChangeModel>, i: int)
    requires
        restores(before, after, cs),
        0 <= i < after.len(),
    ensures
        redo_image(undo_image(after, cs), cs).len() == after.len(),
        redo_image(undo_image(after, cs), cs)[i] == after[i],
{
    reveal(restores);
    let u = undo_image(after, cs);
    lemma_undo_image(after, cs, i);
    lemma_redo_image(u, cs, i);
    if redo_source(cs, i) is Some {
        let k = choose|k: int| 0 <= k < cs.len() && (#[trigger] cs[k]).id == i && redo_source(cs, i) == Some(cs[k].after);
        assert(after[cs[k].id as int] == cs[k].after);
    } else {
        lemma_undo_source(cs, i);
        assert(undo_source(cs, i) is None);
    }
}

/// Redoing an undone transaction gives back exactly the records it produced.
pub proof fn law_redo_reapplies(before: Seq<RecordModel>, after: Seq<RecordModel>, cs: Seq<ChangeModel>)
    requires
        restores(before, after, cs),
    ensures
        redo_image(undo_image(after, cs), cs) == after,
{
    assert forall|i: int| 0 <= i < after.len() implies #[trigger] redo_image(undo_image(after, cs), cs)[i] == after[i] by {
        lemma_redo_at(before, after, cs, i);
    }
    if after.len() > 0 {
        lemma_redo_at(before, after, cs, 0);
    } else {
        lemma_undo_len(before, after, cs);
        assert(cs.len() == 0) by {
            if cs.len() > 0 {
                assert(cs[0].id < after.len());
            }
        }
    }
    assert(redo_image(undo_image(after, cs), cs) =~= after);
}

/// A transaction followed by its undo gives back every record, and the type table, that the
/// document had before the transaction; the revision moves on by two.
pub proof fn law_undo_after_transact(s0: Session, s1: Session, s2: Session)
    requires
        s0.inv(),
        s2.inv(),
        committed(s0, s1),
        s1.revision != s0.revision,
        s1.undo@.len() > 0,
        replayed(s1, s2, false),
    ensures
        s2.doc.rs().take(s0.doc.rs().len() as int) == s0.doc.rs(),
        s2.doc.types@ == s0.doc.types@,
        s2.revision == s0.revision + 2,
        s2.redo@.len() == 1,
        s2.current@ == s0.current@,
        s2.saved@ == s0.saved@,
{
    law_undo_restores(s0.doc.rs(), s1.doc.rs(), change_models(s1.undo@.last().changes@));
    law_hash_ignores_appended(s0.doc.rs(), s2.doc.rs(), s0.doc.roots@);
}

/// Redoing a transaction that was just undone gives back the records and type table that
/// the transaction produced.
pub proof fn law_redo_after_undo(before: Seq<RecordModel>, s1: Session, s2: Session, s3: Session)
    requires
        s1.undo@.len() > 0,
        restores(before, s1.doc.rs(), change_models(s1.undo@.last().changes@)),
        s1.undo@.last().types_after@ == s1.doc.types@,
        replayed(s1, s2, false),
        replayed(s2, s3, true),
    ensures
        s3.doc.rs() == s1.doc.rs(),
        s3.doc.types@ == s1.doc.types@,
        s3.undo@ == s1.undo@,
        s3.redo@ == s1.redo@,
        s1.inv() && s3.inv() ==> s3.current@ == s1.current@,
{
    let p = s1.undo@.last();
    assert(s2.redo@.last() == p);
    law_redo_reapplies(before, s1.doc.rs(), change_models(p.changes@));
    assert(s3.undo@ =~= s1.undo@);
    assert(s3.redo@ =~= s1.redo@);
}

/// A request about one open document.
pub enum Command {
    Summary,
    Children { parent: Option<usize>, offset: usize, limit: usize },
    Nodes { ids: Vec<usize> },
    Templates,
    Transact { revision: u32, operations: Vec<Operation> },
    Undo { revision: u32 },
    Redo { revision: u32 },
    MarkSaved { revision: u32 },
    Drops,
    General,
    /// Replaces the item definitions that inventory edits go by.
    InventoryCatalog { catalog: Catalog },
    Inventories,
    Progression,
    Close,
}

/// The answer to a command.
pub enum Reply {
    Closed(u32),
    Summary(DocumentSummary),
    Page(Page),
    Nodes(Vec<NodeView>),
    /// The workspace's templates, which its `templates` field holds.
    Templates,
    Transacted(TransactOutcome),
    Drops(Vec<crate::drops::DropEntry>),
    General(Vec<crate::general::GeneralField>),
    CatalogLoaded,
    Inventories(Snapshot),
    Progression(crate::progression::Progression),
}

/// The nodes a page request lists, or why it is refused.
pub open spec fn listing(d: Document, parent: Option<usize>, limit: usize) -> Result<Seq<usize>, Seq<char>> {
    if limit == 0 || limit > 200 {
        Err("Page size must be 1..200"@)
    } else {
        match parent {
            Some(p) => match active_spec(d.rs(), d.roots@, p) {
                Err(m) => Err(m),
                Ok(()) => Ok(d.rs()[p as int].children),
            },
            None => Ok(d.roots@),
        }
    }
}

/// The first node of `ids` that is not live, if any.
pub open spec fn first_inactive(d: Document, ids: Seq<usize>) -> Option<Seq<char>>
    decreases ids.len(),
{
    if ids.len() == 0 {
        None
    } else {
        match first_inactive(d, ids.drop_last()) {
            Some(m) => Some(m),
            None => match active_spec(d.rs(), d.roots@, ids.last()) {
                Err(m) => Some(m),
                Ok(()) => None,
            },
        }
    }
}

proof fn lemma_active_children(d: Document, p: usize)
    requires
        d.wf(),
        active_spec(d.rs(), d.roots@, p) is Ok,
    ensures
        p < d.records@.len(),
        forall|i: int| 0 <= i < d.rs()[p as int].children.len() ==> #[trigger] d.rs()[p as int].children[i] < d.records@.len(),
{
}

impl Workspace {
    /// Answers one command about document `id`.
    #[verifier::loop_isolation(false)]
    pub fn request(&mut self, id: u32, command: Command) -> (r: Result<Reply, Error>)
        requires
            old(self).inv(),
        ensures
            final(self).inv(),
            final(self).next == old(self).next,
            final(self).templates == old(self).templates,
            r is Err ==> !(command is Transact || command is Undo || command is Redo || command is MarkSaved) ==> final(self).sessions@ == old(self).sessions@,
            match command {
                Command::InventoryCatalog { catalog } => if !old(self).sessions@.contains_key(id) {
                    r matches Err(e) && e.0@ == closed_text() && final(self).sessions@ == old(self).sessions@
                } else if !crate::inventory::catalog_ok(catalog.items@) {
                    r matches Err(e) && e.0@ == "Invalid inventory catalog"@ && final(self).sessions@ == old(self).sessions@
                } else {
                    let s = old(self).sessions@[id];
                    &&& r matches Ok(Reply::CatalogLoaded)
                    &&& final(self).sessions@ == old(self).sessions@.insert(id, Session { catalog, inventory: None, ..s })
                },
                Command::Inventories => if !old(self).sessions@.contains_key(id) {
                    r matches Err(e) && e.0@ == closed_text() && final(self).sessions@ == old(self).sessions@
                } else {
                    let s = old(self).sessions@[id];
                    let s2 = final(self).sessions@[id];
                    &&& final(self).sessions@ == old(self).sessions@.insert(id, s2)
                    &&& s2 == (Session { inventory: s2.inventory, ..s })
                    &&& r is Ok ==> r matches Ok(Reply::Inventories(_))
                },
                Command::Close => final(self).sessions@ == old(self).sessions@.remove(id) && if old(self).sessions@.contains_key(id) {
                    r matches Ok(Reply::Closed(c)) && c == id
                } else {
                    r matches Err(e) && e.0@ == closed_text()
                },
                Command::Transact { revision, operations } => match r {
                    Ok(Reply::Transacted(o)) => transact_spec(*old(self), *final(self), id, revision, operations@.len(), Ok(o)),
                    Err(e) => transact_spec(*old(self), *final(self), id, revision, operations@.len(), Err(e)),
                    _ => false,
                },
                Command::Undo { revision } => match r {
                    Ok(Reply::Transacted(o)) => history_spec(*old(self), *final(self), id, revision, false, Ok(o)),
                    Err(e) => history_spec(*old(self), *final(self), id, revision, false, Err(e)),
                    _ => false,
                },
                Command::Redo { revision } => match r {
                    Ok(Reply::Transacted(o)) => history_spec(*old(self), *final(self), id, revision, true, Ok(o)),
                    Err(e) => history_spec(*old(self), *final(self), id, revision, true, Err(e)),
                    _ => false,
                },
                Command::MarkSaved { revision } => match r {
                    Ok(Reply::Summary(sum)) => mark_saved_spec(*old(self), *final(self), id, revision, Ok(sum)),
                    Err(e) => mark_saved_spec(*old(self), *final(self), id, revision, Err(e)),
                    _ => false,
                },
                _ => final(self).sessions@ == old(self).sessions@ && if !old(self).sessions@.contains_key(id) {
                    r matches Err(e) && e.0@ == closed_text()
                } else {
                    let d = old(self).sessions@[id].doc;
                    match command {
                        Command::Summary => r == Ok::<Reply, Error>(Reply::Summary(summary_of(id, old(self).sessions@[id]))),
                        Command::Children { parent, offset, limit } => match listing(d, parent, limit) {
                            Ok(ids) => r matches Ok(Reply::Page(p)) && page_matches(d, ids, offset, limit, p),
                            Err(m) => r matches Err(e) && e.0@ == m,
                        },
                        Command::Nodes { ids } => if ids@.len() > 200 {
                            r matches Err(e) && e.0@ == "Too many node queries"@
                        } else {
                            match first_inactive(d, ids@) {
                                Some(m) => r matches Err(e) && e.0@ == m,
                                None => r matches Ok(Reply::Nodes(vs)) && vs@.len() == ids@.len() && forall|k: int|
                                    0 <= k < ids@.len() ==> view_matches(&d, ids@[k], #[trigger] vs@[k]),
                            }
                        },
                        Command::Templates => r matches Ok(Reply::Templates),
                        Command::Drops => r is Ok ==> r matches Ok(Reply::Drops(_)),
                        Command::General => r matches Ok(Reply::General(fs)) && fs@.len() == 10,
                        _ => true,
                    }
                },
            },
    {
        match command {
            Command::Close => {
                match self.close(id) {
                    Ok(()) => Ok(Reply::Closed(id)),
                    Err(e) => Err(e),
                }
            },
            Command::Transact { revision, operations } => match self.transact(id, revision, operations) {
                Ok(o) => Ok(Reply::Transacted(o)),
                Err(e) => Err(e),
            },
            Command::Undo { revision } => match self.history(id, revision, false) {
                Ok(o) => Ok(Reply::Transacted(o)),
                Err(e) => Err(e),
            },
            Command::Redo { revision } => match self.history(id, revision, true) {
                Ok(o) => Ok(Reply::Transacted(o)),
                Err(e) => Err(e),
            },
            Command::MarkSaved { revision } => match self.mark_saved(id, revision) {
                Ok(sum) => Ok(Reply::Summary(sum)),
                Err(e) => Err(e),
            },
            Command::Summary => match self.summary(id) {
                Ok(sum) => Ok(Reply::Summary(sum)),
                Err(e) => Err(e),
            },
            Command::InventoryCatalog { catalog } => {
                if !self.sessions.contains_key(&id) {
                    return Err(failure("Document is closed"));
                }
                if let Err(e) = catalog.validate() {
                    return Err(e);
                }
                let ghost sessions0 = self.sessions@;
                let mut s = self.sessions.remove(&id).unwrap();
                assert(sessions0.contains_key(id));
                s.catalog = catalog;
                s.inventory = None;
                self.sessions.insert(id, s);
                proof {
                    assert forall|k: u32| #[trigger] self.sessions@.contains_key(k) implies self.sessions@[k].inv() by {
                        if k != id {
                            assert(sessions0.contains_key(k));
                        }
                    }
                }
                Ok(Reply::CatalogLoaded)
            },
            Command::Inventories => {
                if !self.sessions.contains_key(&id) {
                    return Err(failure("Document is closed"));
                }
                let ghost sessions0 = self.sessions@;
                let mut s = self.sessions.remove(&id).unwrap();
                let ghost s0 = s;
                assert(sessions0.contains_key(id));
                let mut slot: Option<Cache> = None;
                std::mem::swap(&mut slot, &mut s.inventory);
                let cached = slot.is_some();
                let cache = match slot {
                    Some(c) => c,
                    None => match Cache::build(&s.doc, &s.catalog) {
                        Ok(c) => c,
                        Err(e) => {
                            assert(s == s0);
                            self.sessions.insert(id, s);
                            assert(self.sessions@ =~= sessions0);
                            return Err(e);
                        },
                    },
                };
                let snapshot = match cache.snapshot(&s.doc) {
                    Ok(v) => v,
                    Err(e) => {
                        if cached {
                            s.inventory = Some(cache);
                        }
                        assert(s == s0);
                        self.sessions.insert(id, s);
                        assert(self.sessions@ =~= sessions0);
                        return Err(e);
                    },
                };
                s.inventory = Some(cache);
                self.sessions.insert(id, s);
                proof {
                    assert forall|k: u32| #[trigger] self.sessions@.contains_key(k) implies self.sessions@[k].inv() by {
                        if k != id {
                            assert(sessions0.contains_key(k));
                        }
                    }
                }
                Ok(Reply::Inventories(snapshot))
            },
            Command::Drops => {
                let s = match self.sessions.get(&id) {
                    Some(s) => s,
                    None => return Err(failure("Document is closed")),
                };
                assert(s.inv());
                match crate::drops::ordinary_drops(&s.doc) {
                    Ok(v) => Ok(Reply::Drops(v)),
                    Err(e) => Err(e),
                }
            },
            Command::General => {
                let s = match self.sessions.get(&id) {
                    Some(s) => s,
                    None => return Err(failure("Document is closed")),
                };
                assert(s.inv());
                Ok(Reply::General(crate::general::read(&s.doc)))
            },
            Command::Progression => {
                let s = match self.sessions.get(&id) {
                    Some(s) => s,
                    None => return Err(failure("Document is closed")),
                };
                assert(s.inv());
                match crate::progression::read(&s.doc) {
                    Ok(p) => Ok(Reply::Progression(p)),
                    Err(e) => Err(e),
                }
            },
            Command::Templates => {
                if !self.sessions.contains_key(&id) {
                    return Err(failure("Document is closed"));
                }
                Ok(Reply::Templates)
            },
            Command::Children { parent, offset, limit } => {
                let s = match self.sessions.get(&id) {
                    Some(s) => s,
                    None => return Err(failure("Document is closed")),
                };
                assert(s.inv());
                if limit == 0 || limit > 200 {
                    return Err(failure("Page size must be 1..200"));
                }
                let ids = match parent {
                    Some(node) => {
                        match active(&s.doc, node) {
                            Ok(()) => {},
                            Err(e) => return Err(e),
                        }
                        proof {
                            lemma_active_children(s.doc, node);
                        }
                        assert(s.doc.rs()[node as int].children == s.doc.records@[node as int].children@);
                        &s.doc.records[node].children
                    },
                    None => &s.doc.roots,
                };
                Ok(Reply::Page(page(&s.doc, ids, offset, limit)))
            },
            Command::Nodes { ids } => {
                let s = match self.sessions.get(&id) {
                    Some(s) => s,
                    None => return Err(failure("Document is closed")),
                };
                assert(s.inv());
                if ids.len() > 200 {
                    return Err(failure("Too many node queries"));
                }
                let mut views: Vec<NodeView> = Vec::new();
                let mut k: usize = 0;
                while k < ids.len()
                    invariant
                        s.doc.wf(),
                        k <= ids@.len(),
                        views@.len() == k,
                        first_inactive(s.doc, ids@.take(k as int)) is None,
                        forall|m: int| 0 <= m < k ==> view_matches(&s.doc, ids@[m], #[trigger] views@[m]),
                    decreases ids@.len() - k,
                {
                    assert(ids@.take(k + 1).drop_last() =~= ids@.take(k as int));
                    match active(&s.doc, ids[k]) {
                        Ok(()) => {},
                        Err(e) => {
                            proof {
                                lemma_first_inactive_prefix(s.doc, ids@, k as int);
                            }
                            return Err(e);
                        },
                    }
                    views.push(view(&s.doc, ids[k]));
                    k = k + 1;
                }
                assert(ids@.take(k as int) =~= ids@);
                Ok(Reply::Nodes(views))
            },
        }
    }
}

proof fn lemma_first_inactive_prefix(d: Document, ids: Seq<usize>, k: int)
    requires
        0 <= k < ids.len(),
        first_inactive(d, ids.take(k)) is None,
        active_spec(d.rs(), d.roots@, ids[k]) is Err,
    ensures
        first_inactive(d, ids) == Some(active_spec(d.rs(), d.roots@, ids[k])->Err_0),
    decreases ids.len(),
{
    if k == ids.len() - 1 {
        assert(ids.drop_last() =~= ids.take(k));
    } else {
        assert(ids.drop_last().take(k) =~= ids.take(k));
        lemma_first_inactive_prefix(d, ids.drop_last(), k);
    }
}

/// Every child and parent index of `rs` stays below `n`.
pub open spec fn closed_below(rs: Seq<RecordModel>, n: int) -> bool {
    forall|i: int, k: int| 0 <= i < n && 0 <= k < rs[i].children.len() ==> #[trigger] rs[i].children[k] < n
}

proof fn lemma_hash_prefix(rs: Seq<RecordModel>, rs2: Seq<RecordModel>, id: usize, fuel: nat)
    requires
        rs.len() <= rs2.len(),
        rs2.take(rs.len() as int) == rs,
        closed_below(rs, rs.len() as int),
        id < rs.len(),
    ensures
        node_hash(rs2, id, fuel) == node_hash(rs, id, fuel),
    decreases fuel, 0nat,
{
    if fuel > 0 {
        assert(rs2[id as int] == rs.take(rs.len() as int)[id as int]);
        assert(rs2[id as int] == rs[id as int]);
        assert forall|k: int| 0 <= k < rs[id as int].children.len() implies #[trigger] rs[id as int].children[k] < rs.len() by {}
        lemma_children_hash_prefix(rs, rs2, rs[id as int].children, (fuel - 1) as nat);
    }
}

proof fn lemma_children_hash_prefix(rs: Seq<RecordModel>, rs2: Seq<RecordModel>, ids: Seq<usize>, fuel: nat)
    requires
        rs.len() <= rs2.len(),
        rs2.take(rs.len() as int) == rs,
        closed_below(rs, rs.len() as int),
        forall|k: int| 0 <= k < ids.len() ==> #[trigger] ids[k] < rs.len(),
    ensures
        children_hash(rs2, ids, fuel) == children_hash(rs, ids, fuel),
    decreases fuel, 1nat, ids.len(),
{
    if ids.len() > 0 {
        assert forall|k: int| 0 <= k < ids.drop_last().len() implies #[trigger] ids.drop_last()[k] < rs.len() by {
            assert(ids.drop_last()[k] == ids[k]);
        }
        lemma_children_hash_prefix(rs, rs2, ids.drop_last(), fuel);
        assert(ids.last() == ids[ids.len() - 1]);
        lemma_hash_prefix(rs, rs2, ids.last(), fuel);
    }
}

/// Records appended after the live tree do not change its content hash.
pub proof fn law_hash_ignores_appended(rs: Seq<RecordModel>, rs2: Seq<RecordModel>, roots: Seq<usize>)
    requires
        rs.len() <= rs2.len(),
        rs2.take(rs.len() as int) == rs,
        indices_ok(rs, roots),
    ensures
        content_hash(rs2, roots) == content_hash(rs, roots),
{
    assert(closed_below(rs, rs.len() as int));
    lemma_children_hash_prefix(rs, rs2, roots, hash_fuel());
}

proof fn lemma_events_prefix(rs: Seq<RecordModel>, rs2: Seq<RecordModel>, id: usize, fuel: nat)
    requires
        rs.len() <= rs2.len(),
        rs2.take(rs.len() as int) == rs,
        closed_below(rs, rs.len() as int),
        id < rs.len(),
    ensures
        tree_events(rs2, id, fuel) == tree_events(rs, id, fuel),
        forall|k: int| 0 <= k < tree_events(rs, id, fuel).len() ==> (#[trigger] tree_events(rs, id, fuel)[k]).0 < rs.len(),
    decreases fuel, 0nat,
{
    if fuel > 0 {
        assert(rs2[id as int] == rs.take(rs.len() as int)[id as int]);
        assert(rs2[id as int] == rs[id as int]);
        assert forall|k: int| 0 <= k < rs[id as int].children.len() implies #[trigger] rs[id as int].children[k] < rs.len() by {}
        lemma_list_events_prefix(rs, rs2, rs[id as int].children, (fuel - 1) as nat);
    }
}

proof fn lemma_list_events_prefix(rs: Seq<RecordModel>, rs2: Seq<RecordModel>, ids: Seq<usize>, fuel: nat)
    requires
        rs.len() <= rs2.len(),
        rs2.take(rs.len() as int) == rs,
        closed_below(rs, rs.len() as int),
        forall|k: int| 0 <= k < ids.len() ==> #[trigger] ids[k] < rs.len(),
    ensures
        list_events(rs2, ids, fuel) == list_events(rs, ids, fuel),
        forall|k: int| 0 <= k < list_events(rs, ids, fuel).len() ==> (#[trigger] list_events(rs, ids, fuel)[k]).0 < rs.len(),
    decreases fuel, ids.len() + 1,
{
    if ids.len() > 0 {
        assert forall|k: int| 0 <= k < ids.drop_first().len() implies #[trigger] ids.drop_first()[k] < rs.len() by {
            assert(ids.drop_first()[k] == ids[k + 1]);
        }
        lemma_events_prefix(rs, rs2, ids[0], fuel);
        lemma_list_events_prefix(rs, rs2, ids.drop_first(), fuel);
        let a = tree_events(rs, ids[0], fuel);
        let b = list_events(rs, ids.drop_first(), fuel);
        assert forall|k: int| 0 <= k < (a + b).len() implies #[trigger] (a + b)[k].0 < rs.len() by {
            if k < a.len() {
                assert((a + b)[k] == a[k]);
            } else {
                assert((a + b)[k] == b[k - a.len()]);
            }
        }
    }
}

/// Whether record `r` declares a type.
pub open spec fn declares(r: RecordModel) -> bool {
    r.payload matches PayloadModel::Node { ty: TypeModel::Definition(_, _), .. }
}

proof fn lemma_definitions_prefix(rs: Seq<RecordModel>, rs2: Seq<RecordModel>)
    requires
        rs.len() <= rs2.len(),
        rs2.take(rs.len() as int) == rs,
        forall|i: int| rs.len() <= i < rs2.len() ==> !declares(#[trigger] rs2[i]),
    ensures
        definitions(rs2) == definitions(rs),
    decreases rs2.len(),
{
    if rs2.len() > rs.len() {
        let d = rs2.drop_last();
        assert(d.take(rs.len() as int) =~= rs2.take(rs.len() as int));
        assert forall|i: int| rs.len() <= i < d.len() implies !declares(#[trigger] d[i]) by {
            assert(d[i] == rs2[i]);
        }
        lemma_definitions_prefix(rs, d);
        assert(!declares(rs2[rs2.len() - 1]));
        assert(rs2.last() == rs2[rs2.len() - 1]);
    } else {
        assert(rs2 =~= rs);
    }
}

proof fn lemma_emit_prefix(
    rs: Seq<RecordModel>,
    rs2: Seq<RecordModel>,
    defs: Map<i32, StringModel>,
    evs: Seq<(usize, bool)>,
    emitted: Set<i32>,
)
    requires
        rs.len() <= rs2.len(),
        rs2.take(rs.len() as int) == rs,
        forall|k: int| 0 <= k < evs.len() ==> (#[trigger] evs[k]).0 < rs.len(),
    ensures
        emit(rs2, defs, evs, emitted) == emit(rs, defs, evs, emitted),
    decreases evs.len(),
{
    if evs.len() > 0 {
        let (id, end) = evs[0];
        assert(rs2[id as int] == rs.take(rs.len() as int)[id as int]);
        assert(rs2[id as int] == rs[id as int]);
        assert forall|k: int| 0 <= k < evs.drop_first().len() implies (#[trigger] evs.drop_first()[k]).0 < rs.len() by {
            assert(evs.drop_first()[k] == evs[k + 1]);
        }
        lemma_emit_prefix(rs, rs2, defs, evs.drop_first(), emitted);
        lemma_emit_prefix(rs, rs2, defs, evs.drop_first(), add_type(emitted, rs[id as int].payload));
    }
}

/// The containment walk from `roots` is finished within `fuel` levels: more fuel changes nothing.
pub open spec fn settled(rs: Seq<RecordModel>, roots: Seq<usize>, fuel: nat) -> bool {
    forall|more: nat| more >= fuel ==> #[trigger] list_events(rs, roots, more) == list_events(rs, roots, fuel)
}

/// Records appended after a document's tree, declaring no type and ending no stream, do not
/// change its encoding.
pub proof fn law_encode_ignores_appended(rs: Seq<RecordModel>, rs2: Seq<RecordModel>, roots: Seq<usize>)
    requires
        rs.len() <= rs2.len(),
        rs2.take(rs.len() as int) == rs,
        indices_ok(rs, roots),
        settled(rs, roots, rs.len()),
        forall|i: int| rs.len() <= i < rs2.len() ==> !declares(#[trigger] rs2[i]) && rs2[i].tag != 49,
    ensures
        spec_encode(rs2, roots) == spec_encode(rs, roots),
{
    assert(closed_below(rs, rs.len() as int));
    lemma_list_events_prefix(rs, rs2, roots, rs2.len());
    assert(list_events(rs, roots, rs2.len()) == list_events(rs, roots, rs.len()));
    lemma_definitions_prefix(rs, rs2);
    lemma_emit_prefix(rs, rs2, definitions(rs), list_events(rs, roots, rs.len()), Set::empty());
    assert(has_terminator(rs2) == has_terminator(rs)) by {
        if has_terminator(rs2) {
            let i = choose|i: int| 0 <= i < rs2.len() && (#[trigger] rs2[i]).tag == 49;
            assert(i < rs.len());
            assert(rs[i] == rs2.take(rs.len() as int)[i]);
        }
        if has_terminator(rs) {
            let i = choose|i: int| 0 <= i < rs.len() && (#[trigger] rs[i]).tag == 49;
            assert(rs2[i] == rs.take(rs.len() as int)[i]);
        }
    }
}

proof fn lemma_undo_keeps_new(before: Seq<RecordModel>, after: Seq<RecordModel>, cs: Seq<ChangeModel>, i: int)
    requires
        restores(before, after, cs),
        before.len() <= i < after.len(),
    ensures
        undo_image(after, cs)[i] == after[i],
{
    reveal(restores);
    lemma_undo_image(after, cs, i);
    lemma_undo_source(cs, i);
}

/// Undoing a transaction that created no type declaration and no stream terminator gives
/// back the document's exact encoding, provided its tree walk was settled.
pub proof fn law_undo_gives_back_export(s0: Session, s1: Session, s2: Session)
    requires
        s0.inv(),
        committed(s0, s1),
        s1.revision != s0.revision,
        s1.undo@.len() > 0,
        replayed(s1, s2, false),
        settled(s0.doc.rs(), s0.doc.roots@, s0.doc.rs().len()),
        forall|i: int| s0.doc.rs().len() <= i < s1.doc.rs().len() ==> !declares(#[trigger] s1.doc.rs()[i])
            && s1.doc.rs()[i].tag != 49,
    ensures
        s2.doc.roots@ == s0.doc.roots@,
        spec_encode(s2.doc.rs(), s2.doc.roots@) == spec_encode(s0.doc.rs(), s0.doc.roots@),
{
    let cs = change_models(s1.undo@.last().changes@);
    law_undo_restores(s0.doc.rs(), s1.doc.rs(), cs);
    assert forall|i: int| s0.doc.rs().len() <= i < s2.doc.rs().len() implies !declares(#[trigger] s2.doc.rs()[i])
        && s2.doc.rs()[i].tag != 49 by {
        lemma_undo_keeps_new(s0.doc.rs(), s1.doc.rs(), cs, i);
    }
    law_encode_ignores_appended(s0.doc.rs(), s2.doc.rs(), s0.doc.roots@);
}

} // verus!
