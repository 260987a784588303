//! Serialization of a document's containment tree.
use crate::endian::push_i32;
use crate::wire::{
    container, record_wire, payload_wire, Document, Payload, PayloadModel, Record, RecordModel,
    StringModel, TypeInfo, TypeModel,
};
use std::collections::{HashMap, HashSet};
use vstd::prelude::*;

verus! {

broadcast use vstd::std_specs::hash::group_hash_axioms;

/// Depth bound of the encoder's walk: a tree cannot be deeper than its number of records,
/// so only cyclic structure (which documents never have) is cut off.
pub open spec fn walk_fuel(rs: Seq<RecordModel>) -> nat {
    rs.len()
}

/// Pre-order walk of the containment tree below `id`: `(id, false)` opens a record,
/// `(id, true)` closes a container.
pub open spec fn tree_events(rs: Seq<RecordModel>, id: usize, fuel: nat) -> Seq<(usize, bool)>
    decreases fuel, 0nat,
{
    if fuel == 0 || id >= rs.len() {
        Seq::empty()
    } else if container(rs[id as int].tag) {
        seq![(id, false)] + list_events(rs, rs[id as int].children, (fuel - 1) as nat) + seq![
            (id, true),
        ]
    } else {
        seq![(id, false)]
    }
}

pub open spec fn list_events(rs: Seq<RecordModel>, ids: Seq<usize>, fuel: nat) -> Seq<
    (usize, bool),
>
    decreases fuel, ids.len() + 1,
{
    if ids.len() == 0 {
        Seq::empty()
    } else {
        tree_events(rs, ids[0], fuel) + list_events(rs, ids.drop_first(), fuel)
    }
}

pub open spec fn type_id(p: PayloadModel) -> Option<i32> {
    match p {
        PayloadModel::Node { ty: TypeModel::Definition(t, _), .. } => Some(t),
        PayloadModel::Node { ty: TypeModel::Reference(t), .. } => Some(t),
        _ => None,
    }
}

/// Type declarations by ID; a later declaration of the same ID replaces an earlier one.
pub open spec fn definitions(rs: Seq<RecordModel>) -> Map<i32, StringModel>
    decreases rs.len(),
{
    if rs.len() == 0 {
        Map::empty()
    } else {
        let m = definitions(rs.drop_last());
        match rs.last().payload {
            PayloadModel::Node { ty: TypeModel::Definition(t, n), .. } => m.insert(t, n),
            _ => m,
        }
    }
}

/// The header as emitted: the first use of a type ID carries its declaration,
/// every later use refers to it.
pub open spec fn relocate(r: RecordModel, emitted: Set<i32>, defs: Map<i32, StringModel>) -> RecordModel {
    match r.payload {
        PayloadModel::Node { ty, object } => match type_id(r.payload) {
            Some(t) => if !emitted.contains(t) {
                if defs.contains_key(t) {
                    RecordModel {
                        payload: PayloadModel::Node { ty: TypeModel::Definition(t, defs[t]), object },
                        ..r
                    }
                } else {
                    r
                }
            } else {
                RecordModel { payload: PayloadModel::Node { ty: TypeModel::Reference(t), object }, ..r }
            },
            None => r,
        },
        _ => r,
    }
}

pub open spec fn add_type(emitted: Set<i32>, p: PayloadModel) -> Set<i32> {
    match type_id(p) {
        Some(t) => emitted.insert(t),
        None => emitted,
    }
}

pub open spec fn end_byte(r: RecordModel) -> u8 {
    if r.tag == 6 {
        7
    } else {
        5
    }
}

/// Bytes emitted for a walk.
pub open spec fn emit(
    rs: Seq<RecordModel>,
    defs: Map<i32, StringModel>,
    evs: Seq<(usize, bool)>,
    emitted: Set<i32>,
) -> Seq<u8>
    decreases evs.len(),
{
    if evs.len() == 0 {
        Seq::empty()
    } else {
        let (id, end) = evs[0];
        if end {
            seq![end_byte(rs[id as int])] + emit(rs, defs, evs.drop_first(), emitted)
        } else {
            record_wire(relocate(rs[id as int], emitted, defs)) + emit(
                rs,
                defs,
                evs.drop_first(),
                add_type(emitted, rs[id as int].payload),
            )
        }
    }
}

pub open spec fn has_terminator(rs: Seq<RecordModel>) -> bool {
    exists|i: int| 0 <= i < rs.len() && (#[trigger] rs[i]).tag == 49
}

/// The serialized form of a document: the tree walked from its roots, then the stream
/// terminator if the document has one.
pub open spec fn spec_encode(rs: Seq<RecordModel>, roots: Seq<usize>) -> Seq<u8> {
    emit(rs, definitions(rs), list_events(rs, roots, walk_fuel(rs)), Set::empty()) + if has_terminator(
        rs,
    ) {
        seq![49u8]
    } else {
        Seq::empty()
    }
}

/// Pending work of the encoder, top of stack last.
pub open spec fn item_events(rs: Seq<RecordModel>, item: (usize, bool, usize)) -> Seq<(usize, bool)> {
    if item.1 {
        seq![(item.0, true)]
    } else {
        tree_events(rs, item.0, item.2 as nat)
    }
}

pub open spec fn pending_events(rs: Seq<RecordModel>, stack: Seq<(usize, bool, usize)>) -> Seq<
    (usize, bool),
>
    decreases stack.len(),
{
    if stack.len() == 0 {
        Seq::empty()
    } else {
        item_events(rs, stack.last()) + pending_events(rs, stack.drop_last())
    }
}

pub open spec fn reversed_items(ids: Seq<usize>, fuel: usize) -> Seq<(usize, bool, usize)> {
    Seq::new(ids.len(), |k: int| (ids[ids.len() - 1 - k], false, fuel))
}

pub proof fn lemma_pending_list(
    rs: Seq<RecordModel>,
    base: Seq<(usize, bool, usize)>,
    ids: Seq<usize>,
    fuel: usize,
)
    ensures
        pending_events(rs, base + reversed_items(ids, fuel)) == list_events(rs, ids, fuel as nat)
            + pending_events(rs, base),
    decreases ids.len(),
{
    if ids.len() == 0 {
        assert(base + reversed_items(ids, fuel) =~= base);
        assert(list_events(rs, ids, fuel as nat) =~= Seq::<(usize, bool)>::empty());
    } else {
        let rest = ids.drop_first();
        lemma_pending_list(rs, base, rest, fuel);
        let st = base + reversed_items(ids, fuel);
        assert(st.drop_last() =~= base + reversed_items(rest, fuel));
        assert(st.last() == (ids[0], false, fuel));
        assert(pending_events(rs, st) =~= list_events(rs, ids, fuel as nat) + pending_events(rs, base));
    }
}

pub proof fn lemma_emit_append(
    rs: Seq<RecordModel>,
    defs: Map<i32, StringModel>,
    a: Seq<(usize, bool)>,
    b: Seq<(usize, bool)>,
    emitted: Set<i32>,
) -> (after: Set<i32>)
    ensures
        emit(rs, defs, a + b, emitted) == emit(rs, defs, a, emitted) + emit(rs, defs, b, after),
    decreases a.len(),
{
    if a.len() == 0 {
        assert(a + b =~= b);
        emitted
    } else {
        let (id, end) = a[0];
        assert((a + b).drop_first() =~= a.drop_first() + b);
        let next = if end {
            emitted
        } else {
            add_type(emitted, rs[id as int].payload)
        };
        let after = lemma_emit_append(rs, defs, a.drop_first(), b, next);
        after
    }
}

/// Writes a node payload with its type information relocated to the first use.
fn write_relocated_payload(
    records: &Vec<Record>,
    r: &Record,
    defs: &HashMap<i32, usize>,
    emitted: &mut HashSet<i32>,
    out: &mut Vec<u8>,
    Ghost(defs_spec): Ghost<Map<i32, StringModel>>,
)
    requires
        forall|t: i32| #[trigger] defs@.contains_key(t) <==> defs_spec.contains_key(t),
        forall|t: i32| #[trigger]
            defs@.contains_key(t) ==> defs@[t] < records@.len() && (records@[defs@[t] as int]@.payload matches PayloadModel::Node {
                ty: TypeModel::Definition(t2, name),
                ..
            } && t2 == t && name == defs_spec[t]),
    ensures
        final(out)@ == old(out)@ + payload_wire(relocate(r@, old(emitted)@, defs_spec).payload),
        final(emitted)@ == add_type(old(emitted)@, r@.payload),
{
    let ghost start = out@;
    match &r.payload {
        Payload::Node { ty, object } => {
            let tid = match ty {
                TypeInfo::Definition(t, _) => Some(*t),
                TypeInfo::Reference(t) => Some(*t),
                TypeInfo::Absent => None,
            };
            match tid {
                Some(t) => {
                    if !emitted.contains(&t) {
                        emitted.insert(t);
                        match defs.get(&t) {
                            Some(d) => {
                                let rec = &records[*d];
                                assert(records@[*d as int]@ == rec@);
                                if let Payload::Node { ty: TypeInfo::Definition(_, name), .. } = &rec.payload {
                                    out.push(47);
                                    push_i32(out, t);
                                    name.write(out);
                                    if let Some(id) = object {
                                        push_i32(out, *id);
                                    }
                                    assert(out@ =~= start + payload_wire(relocate(r@, old(emitted)@, defs_spec).payload));
                                } else {
                                    r.payload.write(out);
                                }
                            },
                            None => {
                                r.payload.write(out);
                            },
                        }
                    } else {
                        out.push(48);
                        push_i32(out, t);
                        if let Some(id) = object {
                            push_i32(out, *id);
                        }
                        assert(out@ =~= start + payload_wire(relocate(r@, old(emitted)@, defs_spec).payload));
                    }
                },
                None => {
                    r.payload.write(out);
                },
            }
        },
        _ => {
            r.payload.write(out);
        },
    }
}

impl Document {
    /// Serializes the current containment tree.
    pub fn encode(&self) -> (out: Vec<u8>)
        requires
            self.wf(),
        ensures
            out@ == spec_encode(self.rs(), self.roots@),
    {
        let ghost rs = self.rs();
        let n = self.records.len();
        // Declarations by type ID, last one wins.
        let mut defs: HashMap<i32, usize> = HashMap::new();
        let mut terminator = false;
        let mut i: usize = 0;
        while i < n
            invariant
                n == self.records@.len(),
                rs == self.rs(),
                i <= n,
                forall|t: i32| #[trigger]
                    defs@.contains_key(t) <==> definitions(rs.take(i as int)).contains_key(t),
                forall|t: i32| #[trigger]
                    defs@.contains_key(t) ==> defs@[t] < i && (rs[defs@[t] as int].payload matches PayloadModel::Node {
                        ty: TypeModel::Definition(t2, name),
                        ..
                    } && t2 == t && name == definitions(rs.take(i as int))[t]),
                terminator == has_terminator(rs.take(i as int)),
            decreases n - i,
        {
            let r = &self.records[i];
            proof {
                assert(rs.take(i + 1).drop_last() =~= rs.take(i as int));
                assert(rs.take(i + 1).last() == rs[i as int]);
                assert(rs[i as int] == r@);
            }
            if let Payload::Node { ty: TypeInfo::Definition(t, _), .. } = &r.payload {
                defs.insert(*t, i);
            }
            if r.tag == 49 {
                terminator = true;
                assert(rs.take(i + 1)[i as int].tag == 49);
            }
            proof {
                if !terminator {
                    assert forall|k: int| 0 <= k < i + 1 implies (#[trigger] rs.take(i + 1)[k]).tag != 49 by {
                        if k < i {
                            assert(rs.take(i + 1)[k] == rs.take(i as int)[k]);
                        }
                    }
                } else if r.tag != 49 {
                    let k = choose|k: int| 0 <= k < i && (#[trigger] rs.take(i as int)[k]).tag == 49;
                    assert(rs.take(i + 1)[k] == rs.take(i as int)[k]);
                }
            }
            i = i + 1;
        }
        assert(rs.take(n as int) =~= rs);
        let ghost defs_spec = definitions(rs);
        let mut out: Vec<u8> = Vec::new();
        let mut emitted: HashSet<i32> = HashSet::new();
        let mut stack: Vec<(usize, bool, usize)> = Vec::new();
        let mut k = self.roots.len();
        while k > 0
            invariant
                k <= self.roots@.len(),
                stack@ == reversed_items(self.roots@.subrange(k as int, self.roots@.len() as int), n),
            decreases k,
        {
            k = k - 1;
            stack.push((self.roots[k], false, n));
            assert(stack@ =~= reversed_items(self.roots@.subrange(k as int, self.roots@.len() as int), n));
        }
        assert(self.roots@.subrange(0, self.roots@.len() as int) =~= self.roots@);
        proof {
            lemma_pending_list(rs, Seq::empty(), self.roots@, n);
            assert(Seq::<(usize, bool, usize)>::empty() + reversed_items(self.roots@, n) =~= stack@);
            assert(pending_events(rs, Seq::empty()) =~= Seq::<(usize, bool)>::empty());
            assert(list_events(rs, self.roots@, n as nat) + Seq::<(usize, bool)>::empty() =~= list_events(rs, self.roots@, n as nat));
        }
        let ghost total = emit(rs, defs_spec, list_events(rs, self.roots@, walk_fuel(rs)), Set::empty());
        assert(out@ + emit(rs, defs_spec, pending_events(rs, stack@), emitted@) =~= total);
        while stack.len() > 0
            invariant
                self.wf(),
                rs == self.rs(),
                n == self.records@.len(),
                defs_spec == definitions(rs),
                forall|t: i32| #[trigger]
                    defs@.contains_key(t) <==> defs_spec.contains_key(t),
                forall|t: i32| #[trigger]
                    defs@.contains_key(t) ==> defs@[t] < n && (rs[defs@[t] as int].payload matches PayloadModel::Node {
                        ty: TypeModel::Definition(t2, name),
                        ..
                    } && t2 == t && name == defs_spec[t]),
                forall|j: int| 0 <= j < stack@.len() ==> (#[trigger] stack@[j]).0 < n,
                out@ + emit(rs, defs_spec, pending_events(rs, stack@), emitted@) == total,
            decreases pending_events(rs, stack@).len(), stack@.len(),
        {
            let ghost before = stack@;
            let (id, end, fuel) = stack.pop().unwrap();
            assert(before.drop_last() =~= stack@);
            let ghost rest = pending_events(rs, stack@);
            let r = &self.records[id];
            assert(rs[id as int] == r@);
            if end {
                out.push(if r.tag == 6 { 7u8 } else { 5u8 });
                proof {
                    let evs = pending_events(rs, before);
                    assert(evs == seq![(id, true)] + rest);
                    assert(evs.drop_first() =~= rest);
                }
            } else if fuel > 0 {
                let ghost evs = pending_events(rs, before);
                let ghost old_out = out@;
                let ghost old_emitted = emitted@;
                out.push(r.tag);
                if let Some(name) = &r.name {
                    name.write(&mut out);
                }
                proof {
                    assert(tree_events(rs, id, fuel as nat)[0] == (id, false));
                    assert(evs[0] == (id, false));
                }
                write_relocated_payload(&self.records, r, &defs, &mut emitted, &mut out, Ghost(defs_spec));
                proof {
                    assert(out@ =~= old_out + record_wire(relocate(rs[id as int], old_emitted, defs_spec)));
                }
                if 1 <= r.tag && r.tag <= 4 || r.tag == 6 {
                    stack.push((id, true, fuel));
                    let ghost base = stack@;
                    let mut j = r.children.len();
                    while j > 0
                        invariant
                            j <= r.children@.len(),
                            fuel > 0,
                            self.wf(),
                            r@ == rs[id as int],
                            rs == self.rs(),
                            n == self.records@.len(),
                            id < n,
                            stack@ == base + reversed_items(
                                r.children@.subrange(j as int, r.children@.len() as int),
                                (fuel - 1) as usize,
                            ),
                            forall|q: int| 0 <= q < stack@.len() ==> (#[trigger] stack@[q]).0 < n,
                        decreases j,
                    {
                        j = j - 1;
                        assert(r.children@[j as int] == rs[id as int].children[j as int]);
                        stack.push((r.children[j], false, fuel - 1));
                        assert(stack@ =~= base + reversed_items(
                            r.children@.subrange(j as int, r.children@.len() as int),
                            (fuel - 1) as usize,
                        ));
                    }
                    proof {
                        assert(r.children@.subrange(0, r.children@.len() as int) =~= r.children@);
                        lemma_pending_list(rs, base, r.children@, (fuel - 1) as usize);
                        assert(base.drop_last() =~= before.drop_last());
                        let inner = list_events(rs, r.children@, (fuel - 1) as nat);
                        assert(pending_events(rs, base) == seq![(id, true)] + rest);
                        assert(evs == seq![(id, false)] + inner + seq![(id, true)] + rest);
                        assert(evs.drop_first() =~= pending_events(rs, stack@));
                    }
                } else {
                    proof {
                        assert(evs == seq![(id, false)] + rest);
                        assert(evs.drop_first() =~= rest);
                    }
                }
            } else {
                assert(pending_events(rs, before) =~= rest);
            }
        }
        if terminator {
            out.push(49);
        }
        assert(pending_events(rs, stack@) =~= Seq::<(usize, bool)>::empty());
        out
    }
}

/// `rs2` is `rs` with the bytes of fixed-width value `i` replaced by as many others.
pub open spec fn fixed_edit(rs: Seq<RecordModel>, rs2: Seq<RecordModel>, i: int) -> bool {
    &&& rs2.len() == rs.len()
    &&& 0 <= i < rs.len()
    &&& forall|k: int| 0 <= k < rs.len() && k != i ==> #[trigger] rs2[k] == rs[k]
    &&& rs[i].payload matches PayloadModel::Fixed(b)
    &&& rs2[i].payload matches PayloadModel::Fixed(b2)
    &&& rs[i].payload->Fixed_0.len() == rs2[i].payload->Fixed_0.len()
    &&& rs2[i] == (RecordModel { payload: rs2[i].payload, ..rs[i] })
}

/// Whether byte `k` of what `evs` emit lies inside a copy of record `i`.
pub open spec fn in_record(
    rs: Seq<RecordModel>,
    defs: Map<i32, StringModel>,
    evs: Seq<(usize, bool)>,
    emitted: Set<i32>,
    i: int,
    k: int,
) -> bool
    decreases evs.len(),
{
    if evs.len() == 0 {
        false
    } else {
        let (id, end) = evs[0];
        let w = if end {
            1
        } else {
            record_wire(relocate(rs[id as int], emitted, defs)).len() as int
        };
        if k < w {
            !end && id == i
        } else {
            in_record(
                rs,
                defs,
                evs.drop_first(),
                if end {
                    emitted
                } else {
                    add_type(emitted, rs[id as int].payload)
                },
                i,
                k - w,
            )
        }
    }
}

proof fn lemma_tree_events_fixed(rs: Seq<RecordModel>, rs2: Seq<RecordModel>, i: int, id: usize, fuel: nat)
    requires
        fixed_edit(rs, rs2, i),
    ensures
        tree_events(rs2, id, fuel) == tree_events(rs, id, fuel),
        forall|k: int| 0 <= k < tree_events(rs, id, fuel).len() ==> (#[trigger] tree_events(rs, id, fuel)[k]).0 < rs.len(),
    decreases fuel, 0nat,
{
    if fuel == 0 || id >= rs.len() {
    } else {
        assert(rs2[id as int].tag == rs[id as int].tag);
        assert(rs2[id as int].children == rs[id as int].children);
        if container(rs[id as int].tag) {
            lemma_list_events_fixed(rs, rs2, i, rs[id as int].children, (fuel - 1) as nat);
            let inner = list_events(rs, rs[id as int].children, (fuel - 1) as nat);
            let t = seq![(id, false)] + inner + seq![(id, true)];
            assert forall|k: int| 0 <= k < t.len() implies (#[trigger] t[k]).0 < rs.len() by {
                if 0 < k < t.len() - 1 {
                    assert(t[k] == inner[k - 1]);
                }
            }
        }
    }
}

proof fn lemma_list_events_fixed(rs: Seq<RecordModel>, rs2: Seq<RecordModel>, i: int, ids: Seq<usize>, fuel: nat)
    requires
        fixed_edit(rs, rs2, i),
    ensures
        list_events(rs2, ids, fuel) == list_events(rs, ids, fuel),
        forall|k: int| 0 <= k < list_events(rs, ids, fuel).len() ==> (#[trigger] list_events(rs, ids, fuel)[k]).0 < rs.len(),
    decreases fuel, ids.len() + 1,
{
    if ids.len() > 0 {
        lemma_tree_events_fixed(rs, rs2, i, ids[0], fuel);
        lemma_list_events_fixed(rs, rs2, i, ids.drop_first(), fuel);
        let a = tree_events(rs, ids[0], fuel);
        let b = list_events(rs, ids.drop_first(), fuel);
        assert forall|k: int| 0 <= k < (a + b).len() implies (#[trigger] (a + b)[k]).0 < rs.len() by {
            if k >= a.len() {
                assert((a + b)[k] == b[k - a.len()]);
            }
        }
    }
}

proof fn lemma_definitions_fixed(rs: Seq<RecordModel>, rs2: Seq<RecordModel>)
    requires
        rs2.len() == rs.len(),
        forall|k: int| 0 <= k < rs.len() ==> #[trigger] rs2[k] == rs[k] || (rs[k].payload is Fixed
            && rs2[k].payload is Fixed),
    ensures
        definitions(rs2) == definitions(rs),
    decreases rs.len(),
{
    if rs.len() > 0 {
        let (a, b) = (rs.drop_last(), rs2.drop_last());
        assert forall|k: int| 0 <= k < a.len() implies #[trigger] b[k] == a[k] || (a[k].payload is Fixed
            && b[k].payload is Fixed) by {
            assert(a[k] == rs[k] && b[k] == rs2[k]);
        }
        lemma_definitions_fixed(a, b);
        assert(rs2.last() == rs.last() || (rs.last().payload is Fixed && rs2.last().payload is Fixed));
    }
}

proof fn lemma_emit_fixed(
    rs: Seq<RecordModel>,
    rs2: Seq<RecordModel>,
    i: int,
    defs: Map<i32, StringModel>,
    evs: Seq<(usize, bool)>,
    emitted: Set<i32>,
)
    requires
        fixed_edit(rs, rs2, i),
        forall|k: int| 0 <= k < evs.len() ==> (#[trigger] evs[k]).0 < rs.len(),
    ensures
        emit(rs2, defs, evs, emitted).len() == emit(rs, defs, evs, emitted).len(),
        forall|k: int|
            0 <= k < emit(rs, defs, evs, emitted).len() && #[trigger] emit(rs2, defs, evs, emitted)[k] != emit(
                rs,
                defs,
                evs,
                emitted,
            )[k] ==> in_record(rs, defs, evs, emitted, i, k),
    decreases evs.len(),
{
    if evs.len() > 0 {
        let (id, end) = evs[0];
        let rest = evs.drop_first();
        assert forall|k: int| 0 <= k < rest.len() implies (#[trigger] rest[k]).0 < rs.len() by {
            assert(rest[k] == evs[k + 1]);
        }
        let next = if end {
            emitted
        } else {
            add_type(emitted, rs[id as int].payload)
        };
        if id as int != i {
            assert(rs2[id as int] == rs[id as int]);
        } else {
            assert(rs2[id as int].tag == rs[id as int].tag);
            assert(relocate(rs[id as int], emitted, defs) == rs[id as int]);
            assert(relocate(rs2[id as int], emitted, defs) == rs2[id as int]);
            assert(add_type(emitted, rs2[id as int].payload) == add_type(emitted, rs[id as int].payload));
        }
        lemma_emit_fixed(rs, rs2, i, defs, rest, next);
        let head = if end {
            seq![end_byte(rs[id as int])]
        } else {
            record_wire(relocate(rs[id as int], emitted, defs))
        };
        let head2 = if end {
            seq![end_byte(rs2[id as int])]
        } else {
            record_wire(relocate(rs2[id as int], emitted, defs))
        };
        assert(head2.len() == head.len());
        let e = emit(rs, defs, evs, emitted);
        let e2 = emit(rs2, defs, evs, emitted);
        assert(e == head + emit(rs, defs, rest, next));
        assert(e2 == head2 + emit(rs2, defs, rest, next));
        assert forall|k: int| 0 <= k < e.len() && #[trigger] e2[k] != e[k] implies in_record(rs, defs, evs, emitted, i, k) by {
            if k < head.len() {
                if end || id as int != i {
                    assert(head2 == head);
                }
            } else {
                assert(e[k] == emit(rs, defs, rest, next)[k - head.len()]);
                assert(e2[k] == emit(rs2, defs, rest, next)[k - head.len()]);
            }
        }
    }
}

/// Replacing the bytes of a fixed-width value by as many others changes the encoding only
/// where that value's record is written: the encoding keeps its length, and every byte that
/// differs lies inside a copy of the record.
pub proof fn law_fixed_edit_is_local(rs: Seq<RecordModel>, roots: Seq<usize>, i: int, b: Seq<u8>)
    requires
        0 <= i < rs.len(),
        rs[i].payload matches PayloadModel::Fixed(old_bytes) && old_bytes.len() == b.len(),
    ensures
        ({
            let rs2 = rs.update(i, RecordModel { payload: PayloadModel::Fixed(b), ..rs[i] });
            let e = spec_encode(rs, roots);
            let e2 = spec_encode(rs2, roots);
            &&& e2.len() == e.len()
            &&& forall|k: int| 0 <= k < e.len() && #[trigger] e2[k] != e[k] ==> in_record(
                rs,
                definitions(rs),
                list_events(rs, roots, walk_fuel(rs)),
                Set::empty(),
                i,
                k,
            )
        }),
{
    let rs2 = rs.update(i, RecordModel { payload: PayloadModel::Fixed(b), ..rs[i] });
    assert(fixed_edit(rs, rs2, i));
    lemma_list_events_fixed(rs, rs2, i, roots, walk_fuel(rs));
    lemma_definitions_fixed(rs, rs2);
    let evs = list_events(rs, roots, walk_fuel(rs));
    let defs = definitions(rs);
    lemma_emit_fixed(rs, rs2, i, defs, evs, Set::empty());
    assert(has_terminator(rs2) == has_terminator(rs)) by {
        if has_terminator(rs) {
            let w = choose|w: int| 0 <= w < rs.len() && (#[trigger] rs[w]).tag == 49;
            assert(rs2[w].tag == 49);
        }
        if has_terminator(rs2) {
            let w = choose|w: int| 0 <= w < rs2.len() && (#[trigger] rs2[w]).tag == 49;
            assert(rs[w].tag == 49);
        }
    }
    let m = emit(rs, defs, evs, Set::empty());
    let m2 = emit(rs2, defs, evs, Set::empty());
    let t: Seq<u8> = if has_terminator(rs) {
        seq![49u8]
    } else {
        Seq::empty()
    };
    assert(spec_encode(rs, roots) == m + t);
    assert(spec_encode(rs2, roots) == m2 + t);
    assert forall|k: int| 0 <= k < (m + t).len() && #[trigger] (m2 + t)[k] != (m + t)[k] implies in_record(rs, defs, evs, Set::empty(), i, k) by {
        if k >= m.len() {
            assert((m2 + t)[k] == t[k - m.len()]);
            assert((m + t)[k] == t[k - m.len()]);
        } else {
            assert((m2 + t)[k] == m2[k]);
            assert((m + t)[k] == m[k]);
        }
    }
}

} // verus!
