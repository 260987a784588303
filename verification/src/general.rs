//! Player health and resources, read and written by name.
use crate::drops::Shown;
use crate::service::{float_of, value_text, view, FloatBits};
use crate::strings::display_spec;
use crate::text::{owned, same_text};
use crate::wire::{base_tag, failure, spec_base_tag, Document, Error, Payload, RecordModel};
use crate::workspace::{
    attach_check, create_template, field, field_spec, lemma_field_named, named_child, resolve_spec, journaled, lemma_field_in_range, lemma_resolve_range, resolve,
    same_frame, scalar, set_node, set_spec, edit_result, tracks, attach, attached, Journal, Template, TemplateValue,
};
use vstd::prelude::*;

verus! {

/// The key of general field `k`: health, maximum health, then each resource.
pub open spec fn general_key(k: int) -> Seq<char> {
    if k == 0 {
        "hp"@
    } else if k == 1 {
        "max_hp"@
    } else if k == 2 {
        "energy"@
    } else if k == 3 {
        "stamina"@
    } else if k == 4 {
        "money"@
    } else if k == 5 {
        "insanity"@
    } else if k == 6 {
        "happiness"@
    } else if k == 7 {
        "tech_red"@
    } else if k == 8 {
        "tech_green"@
    } else {
        "tech_blue"@
    }
}

fn resource_name(k: usize) -> (s: &'static str)
    requires
        k < 8,
    ensures
        s@ == general_key(k + 2),
{
    if k == 0 {
        "energy"
    } else if k == 1 {
        "stamina"
    } else if k == 2 {
        "money"
    } else if k == 3 {
        "insanity"
    } else if k == 4 {
        "happiness"
    } else if k == 5 {
        "tech_red"
    } else if k == 6 {
        "tech_green"
    } else {
        "tech_blue"
    }
}

/// Whether `key` names a resource.
pub open spec fn resource_key(key: Seq<char>) -> bool {
    exists|k: int| 0 <= k < 8 && key == #[trigger] general_key(k + 2)
}

fn is_resource(key: &str) -> (b: bool)
    ensures
        b == resource_key(key@),
{
    let mut k: usize = 0;
    while k < 8
        invariant
            k <= 8,
            forall|m: int| 0 <= m < k ==> key@ != #[trigger] general_key(m + 2),
        decreases 8 - k,
    {
        if same_text(key, resource_name(k)) {
            return true;
        }
        k = k + 1;
    }
    false
}

/// The player data node, or why there is none.
pub open spec fn player_spec(d: Document) -> Result<usize, Seq<char>> {
    if d.roots@.len() == 0 {
        Err("Missing root"@)
    } else {
        field_spec(d, d.roots@[0], "playerData"@)
    }
}

/// The int32 node of the health (`hp`) or of the maximum health, or why there is none.
pub open spec fn health_spec(d: Document, hp: bool) -> Result<usize, Seq<char>> {
    match player_spec(d) {
        Err(m) => Err(m),
        Ok(p) => match field_spec(d, p, "hpComponent"@) {
            Err(m) => Err(m),
            Ok(c) => match field_spec(d, c, if hp { "hp"@ } else { "maxHpValue"@ }) {
                Err(m) => Err(m),
                Ok(id) => if spec_base_tag(d.rs()[id as int].tag) != 24 {
                    Err("Health field is not int32"@)
                } else {
                    Ok(id)
                },
            },
        },
    }
}

/// The health field that key `hp` (health) or `max_hp` (maximum health) reads and writes
/// is the int32 field of the player's `hpComponent` named `hp` for health and
/// `maxHpValue` for maximum health.
pub proof fn law_health_field(d: Document, hp: bool)
    requires
        health_spec(d, hp) is Ok,
    ensures
        player_spec(d) matches Ok(p) && (field_spec(d, p, "hpComponent"@) matches Ok(c) && named_child(
            d,
            c,
            if hp {
                "hp"@
            } else {
                "maxHpValue"@
            },
            health_spec(d, hp)->Ok_0,
        )),
        spec_base_tag(d.rs()[health_spec(d, hp)->Ok_0 as int].tag) == 24,
{
    let p = player_spec(d)->Ok_0;
    let c = field_spec(d, p, "hpComponent"@)->Ok_0;
    lemma_field_named(d, c, if hp { "hp"@ } else { "maxHpValue"@ });
}

/// Whether `s` is what a general field shows of node `n`: its text, else its float, else
/// zero.
pub open spec fn shows(d: Document, n: usize, s: Shown) -> bool {
    match value_text(d.rs()[n as int]) {
        Some(t) => s matches Shown::Text(x) && x@ == t,
        None => match float_of(d.rs()[n as int]) {
            Some(f) => s == Shown::Number(f),
            None => s matches Shown::Text(x) && x@ == "0"@,
        },
    }
}

fn player(doc: &Document) -> (r: Result<usize, Error>)
    requires
        doc.wf(),
    ensures
        r matches Ok(n) ==> n < doc.records@.len(),
        match player_spec(*doc) {
            Ok(n) => r == Ok::<usize, Error>(n),
            Err(m) => r matches Err(e) && e.0@ == m,
        },
{
    if doc.roots.len() == 0 {
        return Err(failure("Missing root"));
    }
    let r = field(doc, doc.roots[0], "playerData");
    proof {
        if r is Ok {
            lemma_field_in_range(*doc, doc.roots@[0], "playerData"@);
        }
    }
    r
}

fn checked_field(doc: &Document, parent: usize, name: &str) -> (r: Result<usize, Error>)
    requires
        doc.wf(),
    ensures
        r matches Ok(n) ==> n < doc.records@.len(),
        match field_spec(*doc, parent, name@) {
            Ok(n) => r == Ok::<usize, Error>(n),
            Err(m) => r matches Err(e) && e.0@ == m,
        },
{
    let r = field(doc, parent, name);
    proof {
        if r is Ok {
            lemma_field_in_range(*doc, parent, name@);
        }
    }
    r
}

/// The arrays among `ids`, in order.
pub open spec fn arrays_in(rs: Seq<RecordModel>, ids: Seq<usize>) -> Seq<usize>
    decreases ids.len(),
{
    if ids.len() == 0 {
        Seq::empty()
    } else {
        let rest = arrays_in(rs, ids.drop_last());
        if rs[ids.last() as int].tag == 6 {
            rest.push(ids.last())
        } else {
            rest
        }
    }
}

/// The single array child of the node that `list` leads to, or why there is none.
pub open spec fn resource_array(d: Document, list: usize) -> Result<usize, Seq<char>> {
    match resolve_spec(d, list) {
        Err(m) => Err(m),
        Ok(t) => {
            let found = arrays_in(d.rs(), d.rs()[t as int].children);
            if found.len() == 1 {
                Ok(found[0])
            } else {
                Err("Unsupported resource list layout"@)
            }
        },
    }
}

/// The single array child of the node that `list` leads to.
fn array(doc: &Document, list: usize) -> (r: Result<usize, Error>)
    requires
        doc.wf(),
    ensures
        r matches Ok(a) ==> a < doc.records@.len(),
        match resource_array(*doc, list) {
            Ok(a) => r == Ok::<usize, Error>(a),
            Err(m) => r matches Err(e) && e.0@ == m,
        },
{
    let target = match resolve(doc, list) {
        Ok(l) => l,
        Err(e) => return Err(e),
    };
    proof {
        lemma_resolve_range(*doc, list);
    }
    assert(doc.rs()[target as int] == doc.records@[target as int]@);
    let children = &doc.records[target].children;
    let mut found: Vec<usize> = Vec::new();
    let mut k: usize = 0;
    while k < children.len()
        invariant
            doc.wf(),
            target < doc.records@.len(),
            children@ == doc.rs()[target as int].children,
            k <= children@.len(),
            forall|m: int| 0 <= m < found@.len() ==> #[trigger] found@[m] < doc.records@.len(),
            found@ == arrays_in(doc.rs(), children@.take(k as int)),
        decreases children@.len() - k,
    {
        assert(doc.rs()[target as int].children[k as int] < doc.rs().len());
        assert(children@.take(k + 1).drop_last() =~= children@.take(k as int));
        assert(doc.rs()[children@[k as int] as int] == doc.records@[children@[k as int] as int]@);
        if doc.records[children[k]].tag == 6 {
            found.push(children[k]);
        }
        k = k + 1;
    }
    assert(children@.take(k as int) =~= children@);
    if found.len() != 1 {
        return Err(failure("Unsupported resource list layout"));
    }
    Ok(found[0])
}

/// The paired resource lists: the names array, the atoms array, and for each named resource
/// the float32 node that holds its value.
pub struct Resources {
    pub types: usize,
    pub atoms: usize,
    pub mapping: Vec<(String, usize)>,
}

/// The resource that name record `t` and atom `v` add to the earlier ones `prev`: the name
/// with the float32 node of the atom's value, or why they cannot be read.
pub open spec fn entry_step(d: Document, prev: Seq<(Seq<char>, usize)>, t: usize, v: usize) -> Result<
    (Seq<char>, usize),
    Seq<char>,
> {
    let r = d.rs()[t as int];
    if !(r.payload is Text) {
        Err("Resource name is not a string"@)
    } else {
        let name = display_spec(r.payload->Text_0);
        match field_spec(d, v, "type"@) {
            Err(m) => Err(m),
            Ok(at) => if value_text(d.rs()[at as int]) != Some(name) {
                Err("Resource lists disagree"@)
            } else {
                match field_spec(d, v, "value"@) {
                    Err(m) => Err(m),
                    Ok(val) => if spec_base_tag(d.rs()[val as int].tag) != 32 {
                        Err("Resource value is not float32"@)
                    } else if exists|q: int| 0 <= q < prev.len() && (#[trigger] prev[q]).0 == name {
                        Err("Duplicate resource names"@)
                    } else {
                        Ok((name, val))
                    },
                }
            },
        }
    }
}

/// The resources that paired name and atom lists declare, in order, or why the lists cannot
/// be read.
pub open spec fn resource_entries(d: Document, names: Seq<usize>, atoms: Seq<usize>) -> Result<
    Seq<(Seq<char>, usize)>,
    Seq<char>,
>
    decreases names.len(),
{
    if names.len() == 0 {
        Ok(Seq::empty())
    } else {
        match resource_entries(d, names.drop_last(), atoms.drop_last()) {
            Err(m) => Err(m),
            Ok(prev) => match entry_step(d, prev, names.last(), atoms.last()) {
                Err(m) => Err(m),
                Ok(e) => Ok(prev.push(e)),
            },
        }
    }
}

proof fn lemma_entries_err(d: Document, names: Seq<usize>, atoms: Seq<usize>, j: int)
    requires
        names.len() == atoms.len(),
        0 <= j <= names.len(),
        resource_entries(d, names.take(j), atoms.take(j)) is Err,
    ensures
        resource_entries(d, names, atoms) == resource_entries(d, names.take(j), atoms.take(j)),
    decreases names.len() - j,
{
    if j == names.len() {
        assert(names.take(j) =~= names);
        assert(atoms.take(j) =~= atoms);
    } else {
        assert(names.take(j + 1).drop_last() =~= names.take(j));
        assert(atoms.take(j + 1).drop_last() =~= atoms.take(j));
        lemma_entries_err(d, names, atoms, j + 1);
    }
}

/// The player's resources, or why they cannot be read.
pub open spec fn resources_spec(d: Document) -> Result<Seq<(Seq<char>, usize)>, Seq<char>> {
    match player_spec(d) {
        Err(m) => Err(m),
        Ok(p) => match field_spec(d, p, "res"@) {
            Err(m) => Err(m),
            Ok(res) => match field_spec(d, res, "resType"@) {
                Err(m) => Err(m),
                Ok(tl) => match resource_array(d, tl) {
                    Err(m) => Err(m),
                    Ok(types) => match field_spec(d, res, "resValues"@) {
                        Err(m) => Err(m),
                        Ok(vl) => match resource_array(d, vl) {
                            Err(m) => Err(m),
                            Ok(values) => {
                                let names = d.rs()[types as int].children;
                                let atoms = d.rs()[values as int].children;
                                if names.len() != atoms.len() {
                                    Err("Resource lists have different lengths"@)
                                } else {
                                    resource_entries(d, names, atoms)
                                }
                            },
                        },
                    },
                },
            },
        },
    }
}

pub open spec fn mapping_view(m: Seq<(String, usize)>) -> Seq<(Seq<char>, usize)> {
    m.map_values(|e: (String, usize)| (e.0@, e.1))
}

pub open spec fn resources_ok(r: Resources, n: nat) -> bool {
    &&& r.types < n
    &&& r.atoms < n
    &&& forall|k: int| 0 <= k < r.mapping@.len() ==> (#[trigger] r.mapping@[k]).1 < n
}

/// Reads the resource that name record `t` and atom `v` add to `mapping`.
#[verifier::loop_isolation(false)]
fn resource_entry(doc: &Document, t: usize, v: usize, mapping: &Vec<(String, usize)>) -> (r: Result<(String, usize), Error>)
    requires
        doc.wf(),
        t < doc.records@.len(),
    ensures
        match entry_step(*doc, mapping_view(mapping@), t, v) {
            Ok(e) => r matches Ok(x) && x.0@ == e.0 && x.1 == e.1 && x.1 < doc.records@.len(),
            Err(m) => r matches Err(e) && e.0@ == m,
        },
{
    assert(doc.rs()[t as int] == doc.records@[t as int]@);
    let name = match &doc.records[t].payload {
        Payload::Text(s) => s.display(),
        _ => return Err(failure("Resource name is not a string")),
    };
    let atom_type = match checked_field(doc, v, "type") {
        Ok(n) => n,
        Err(e) => return Err(e),
    };
    let agrees = match view(doc, atom_type).value {
        Some(x) => same_text(x.as_str(), name.as_str()),
        None => false,
    };
    if !agrees {
        return Err(failure("Resource lists disagree"));
    }
    let value = match checked_field(doc, v, "value") {
        Ok(n) => n,
        Err(e) => return Err(e),
    };
    assert(doc.rs()[value as int] == doc.records@[value as int]@);
    if base_tag(doc.records[value].tag) != 32 {
        return Err(failure("Resource value is not float32"));
    }
    let mut m: usize = 0;
    while m < mapping.len()
        invariant
            m <= mapping@.len(),
            forall|q: int| 0 <= q < m ==> (#[trigger] mapping@[q]).0@ != name@,
        decreases mapping@.len() - m,
    {
        if same_text(mapping[m].0.as_str(), name.as_str()) {
            assert(mapping_view(mapping@)[m as int].0 == name@);
            assert(exists|q: int| 0 <= q < mapping_view(mapping@).len() && (#[trigger] mapping_view(mapping@)[q]).0 == name@);
            return Err(failure("Duplicate resource names"));
        }
        m = m + 1;
    }
    proof {
        assert forall|q: int| 0 <= q < mapping@.len() implies (#[trigger] mapping_view(mapping@)[q]).0 != name@ by {
            assert(mapping_view(mapping@)[q].0 == mapping@[q].0@);
        }
    }
    Ok((name, value))
}

#[verifier::loop_isolation(false)]
fn resources(doc: &Document) -> (r: Result<Resources, Error>)
    requires
        doc.wf(),
    ensures
        r matches Ok(res) ==> resources_ok(res, doc.records@.len() as nat),
        r matches Ok(res) ==> resource_lists(*doc) == Some((res.types, res.atoms)),
        match resources_spec(*doc) {
            Ok(es) => r matches Ok(res) && mapping_view(res.mapping@) == es,
            Err(m) => r matches Err(e) && e.0@ == m,
        },
{
    let p = match player(doc) {
        Ok(p) => p,
        Err(e) => return Err(e),
    };
    let res = match checked_field(doc, p, "res") {
        Ok(r) => r,
        Err(e) => return Err(e),
    };
    let types = match checked_field(doc, res, "resType") {
        Ok(t) => match array(doc, t) {
            Ok(a) => a,
            Err(e) => return Err(e),
        },
        Err(e) => return Err(e),
    };
    let values = match checked_field(doc, res, "resValues") {
        Ok(v) => match array(doc, v) {
            Ok(a) => a,
            Err(e) => return Err(e),
        },
        Err(e) => return Err(e),
    };
    assert(doc.rs()[types as int] == doc.records@[types as int]@);
    assert(doc.rs()[values as int] == doc.records@[values as int]@);
    let names = &doc.records[types].children;
    let atoms = &doc.records[values].children;
    if names.len() != atoms.len() {
        return Err(failure("Resource lists have different lengths"));
    }
    let mut mapping: Vec<(String, usize)> = Vec::new();
    assert(names@.take(0) =~= Seq::<usize>::empty());
    assert(atoms@.take(0) =~= Seq::<usize>::empty());
    assert(mapping_view(mapping@) =~= Seq::<(Seq<char>, usize)>::empty());
    let mut k: usize = 0;
    while k < names.len()
        invariant
            doc.wf(),
            k <= names@.len(),
            names@.len() == atoms@.len(),
            names@ == doc.rs()[types as int].children,
            atoms@ == doc.rs()[values as int].children,
            forall|m: int| 0 <= m < mapping@.len() ==> (#[trigger] mapping@[m]).1 < doc.records@.len(),
            resource_entries(*doc, names@.take(k as int), atoms@.take(k as int)) == Ok::<
                Seq<(Seq<char>, usize)>,
                Seq<char>,
            >(mapping_view(mapping@)),
        decreases names@.len() - k,
    {
        assert(doc.rs()[types as int].children[k as int] < doc.rs().len());
        assert(names@.take(k + 1).drop_last() =~= names@.take(k as int));
        assert(atoms@.take(k + 1).drop_last() =~= atoms@.take(k as int));
        assert(doc.rs()[names@[k as int] as int] == doc.records@[names@[k as int] as int]@);
        let entry = match resource_entry(doc, names[k], atoms[k], &mapping) {
            Ok(e) => e,
            Err(e) => {
                proof {
                    lemma_entries_err(*doc, names@, atoms@, k + 1);
                }
                return Err(e);
            },
        };
        let (name, value) = entry;
        let ghost before = mapping_view(mapping@);
        mapping.push((name, value));
        assert(mapping_view(mapping@) =~= before.push((name@, value)));
        k = k + 1;
    }
    assert(names@.take(k as int) =~= names@);
    assert(atoms@.take(k as int) =~= atoms@);
    Ok(Resources { types, atoms: values, mapping })
}

/// The node of the first resource named `key`.
pub open spec fn resource_node(es: Seq<(Seq<char>, usize)>, key: Seq<char>) -> Option<usize>
    decreases es.len(),
{
    if es.len() == 0 {
        None
    } else if es[0].0 == key {
        Some(es[0].1)
    } else {
        resource_node(es.subrange(1, es.len() as int), key)
    }
}

fn lookup(mapping: &Vec<(String, usize)>, key: &str) -> (r: Option<usize>)
    ensures
        r matches Some(n) ==> exists|k: int| 0 <= k < mapping@.len() && (#[trigger] mapping@[k]).1 == n,
        r == resource_node(mapping_view(mapping@), key@),
{
    let ghost es = mapping_view(mapping@);
    assert(es.subrange(0, es.len() as int) =~= es);
    let mut k: usize = 0;
    while k < mapping.len()
        invariant
            k <= mapping@.len(),
            es == mapping_view(mapping@),
            resource_node(es, key@) == resource_node(es.subrange(k as int, es.len() as int), key@),
        decreases mapping@.len() - k,
    {
        let ghost rest = es.subrange(k as int, es.len() as int);
        assert(rest[0] == es[k as int]);
        assert(es[k as int] == (mapping@[k as int].0@, mapping@[k as int].1));
        assert(rest.subrange(1, rest.len() as int) =~= es.subrange(k + 1, es.len() as int));
        if same_text(mapping[k].0.as_str(), key) {
            assert(mapping@[k as int].1 == mapping[k as int].1);
            return Some(mapping[k].1);
        }
        k = k + 1;
    }
    None
}

/// The int32 node of `hp` or, for any other key, of the maximum health.
fn health(doc: &Document, hp: bool) -> (r: Result<usize, Error>)
    requires
        doc.wf(),
    ensures
        r matches Ok(n) ==> n < doc.records@.len(),
        match health_spec(*doc, hp) {
            Ok(n) => r == Ok::<usize, Error>(n),
            Err(m) => r matches Err(e) && e.0@ == m,
        },
{
    proof {
        reveal_strlit("hp");
        reveal_strlit("maxHpValue");
    }
    let p = match player(doc) {
        Ok(p) => p,
        Err(e) => return Err(e),
    };
    let component = match checked_field(doc, p, "hpComponent") {
        Ok(c) => c,
        Err(e) => return Err(e),
    };
    let id = match checked_field(doc, component, if hp { "hp" } else { "maxHpValue" }) {
        Ok(n) => n,
        Err(e) => return Err(e),
    };
    assert(doc.rs()[id as int] == doc.records@[id as int]@);
    if base_tag(doc.records[id].tag) != 24 {
        return Err(failure("Health field is not int32"));
    }
    Ok(id)
}

/// One general field: its node and shown value, or why it is unavailable.
pub struct GeneralField {
    pub key: String,
    pub node: Option<usize>,
    pub value: Option<Shown>,
    pub error: Option<String>,
}

/// Whether general field `f` is what the save holds of the health (`hp`) or the maximum
/// health: its node and shown value, or why it is unavailable.
pub open spec fn health_shown(d: Document, hp: bool, f: GeneralField) -> bool {
    match health_spec(d, hp) {
        Ok(n) => {
            &&& f.node == Some(n)
            &&& f.value matches Some(s) && shows(d, n, s)
        },
        Err(m) => {
            &&& f.node is None
            &&& f.error matches Some(e) && e@ == m
        },
    }
}

/// Health, maximum health and each resource, in that order.
pub fn read(doc: &Document) -> (fields: Vec<GeneralField>)
    requires
        doc.wf(),
    ensures
        fields@.len() == 10,
        forall|k: int| 0 <= k < 10 ==> (#[trigger] fields@[k]).key@ == general_key(k),
        forall|k: int| 0 <= k < 10 ==> ((#[trigger] fields@[k]).error is None <==> fields@[k].value is Some),
        forall|k: int| 0 <= k < 10 ==> ((#[trigger] fields@[k]).node matches Some(n) ==> n < doc.records@.len()),
        forall|k: int| 0 <= k < 2 ==> health_shown(*doc, k == 0, #[trigger] fields@[k]),
{
    let resources = resources(doc);
    let mut fields: Vec<GeneralField> = Vec::new();
    let mut k: usize = 0;
    while k < 10
        invariant
            doc.wf(),
            k <= 10,
            fields@.len() == k,
            resources matches Ok(res) ==> resources_ok(res, doc.records@.len() as nat),
            forall|m: int| 0 <= m < k ==> (#[trigger] fields@[m]).key@ == general_key(m),
            forall|m: int| 0 <= m < k ==> ((#[trigger] fields@[m]).error is None <==> fields@[m].value is Some),
            forall|m: int| 0 <= m < k ==> ((#[trigger] fields@[m]).node matches Some(n) ==> n < doc.records@.len()),
            forall|m: int| 0 <= m < k && m < 2 ==> health_shown(*doc, m == 0, #[trigger] fields@[m]),
        decreases 10 - k,
    {
        proof {
            reveal_strlit("hp");
            reveal_strlit("max_hp");
        }
        let key = if k == 0 {
            "hp"
        } else if k == 1 {
            "max_hp"
        } else {
            resource_name(k - 2)
        };
        assert(key@ == general_key(k as int));
        let result: Result<Option<usize>, String> = if k < 2 {
            match health(doc, k == 0) {
                Ok(n) => Ok(Some(n)),
                Err(e) => Err(e.0),
            }
        } else {
            match &resources {
                Ok(res) => Ok(lookup(&res.mapping, key)),
                Err(e) => Err(e.0.clone()),
            }
        };
        let field = match result {
            Ok(node) => {
                let shown = match node {
                    Some(n) => {
                        let v = view(doc, n);
                        match v.value {
                            Some(t) => Shown::Text(t),
                            None => match v.float {
                                Some(f) => Shown::Number(f),
                                None => Shown::Text(owned("0")),
                            },
                        }
                    },
                    None => Shown::Text(owned("0")),
                };
                GeneralField { key: owned(key), node, value: Some(shown), error: None }
            },
            Err(message) => GeneralField { key: owned(key), node: None, value: None, error: Some(message) },
        };
        fields.push(field);
        k = k + 1;
    }
    fields
}

/// A general value to write: its key, its text, the bits of the text read as a double (for
/// validation) and, for resources, read as a single-precision number.
pub struct GeneralValue {
    pub key: String,
    pub value: String,
    pub number: Option<u64>,
    pub single: Option<FloatBits>,
}

/// Finite and not below zero (negative zero counts as zero).
pub open spec fn nonnegative_finite(bits: u64) -> bool {
    &&& (bits / 0x10_0000_0000_0000) % 0x800 != 0x7ff
    &&& (bits / 0x8000_0000_0000_0000 == 0 || bits % 0x8000_0000_0000_0000 == 0)
}

/// Strictly positive and finite.
pub open spec fn positive_finite(bits: u64) -> bool {
    nonnegative_finite(bits) && bits / 0x8000_0000_0000_0000 == 0 && bits % 0x8000_0000_0000_0000 != 0
}

fn acceptable(bits: u64, strictly: bool) -> (b: bool)
    ensures
        b == if strictly { positive_finite(bits) } else { nonnegative_finite(bits) },
{
    let finite = (bits / 0x10_0000_0000_0000) % 0x800 != 0x7ff;
    let negative = bits / 0x8000_0000_0000_0000 == 1;
    let zero = bits % 0x8000_0000_0000_0000 == 0;
    if strictly {
        finite && !negative && !zero
    } else {
        finite && (!negative || zero)
    }
}

/// What writing the single general value `v` does to document `d`, giving `d2` and `r`:
/// invalid numbers, unknown keys and unreadable fields are refused with the document
/// unchanged; health and existing resources are set to `v`'s text. Where the resource is
/// missing, an accepted write adds an atom and a name at the end of the two lists.
pub open spec fn write_one(d: Document, d2: Document, v: GeneralValue, r: Result<(), Error>) -> bool {
    match v.number {
        None => r matches Err(e) && e.0@ == "Enter a finite nonnegative number"@ && d2 == d,
        Some(bits) => if !(if v.key@ == "max_hp"@ {
            positive_finite(bits)
        } else {
            nonnegative_finite(bits)
        }) {
            r matches Err(e) && e.0@ == "Enter a finite nonnegative value; maximum health must be positive"@ && d2 == d
        } else if v.key@ == "hp"@ || v.key@ == "max_hp"@ {
            match health_spec(d, v.key@ == "hp"@) {
                Err(m) => r matches Err(e) && e.0@ == m && d2 == d,
                Ok(n) => edit_result(set_spec(d, n, d.rs()[n as int].tag, v.value@, v.single), d, d2, r),
            }
        } else if !resource_key(v.key@) {
            r matches Err(e) && e.0@ == "Unknown General field"@ && d2 == d
        } else {
            match resources_spec(d) {
                Err(m) => r matches Err(e) && e.0@ == m && d2 == d,
                Ok(es) => match resource_node(es, v.key@) {
                    Some(n) => edit_result(set_spec(d, n, d.rs()[n as int].tag, v.value@, v.single), d, d2, r),
                    None => r is Ok ==> resource_added(d, d2) && resource_stored(d, d2, v),
                },
            }
        },
    }
}

/// Whether `d2` holds `v`'s value in the new atom's value field: some document `m` that adds
/// a resource to `d`'s lists (where they are separate arrays) has that field, and writing
/// `v`'s text there gives `d2`'s records.
pub open spec fn resource_stored(d: Document, d2: Document, v: GeneralValue) -> bool {
    resource_lists(d) matches Some((types, atoms)) && (types != atoms ==> exists|m: Document, n: usize|
        #![trigger lists_grown(d.rs(), m.rs(), types, atoms), m.rs()[n as int]]
        lists_grown(d.rs(), m.rs(), types, atoms) && atoms < m.rs().len() && n < m.rs().len() && field_spec(
            m,
            m.rs()[atoms as int].children.last(),
            "value"@,
        ) == Ok::<usize, Seq<char>>(n) && set_spec(m, n, m.rs()[n as int].tag, v.value@, v.single) == Ok::<
            Seq<RecordModel>,
            Seq<char>,
        >(d2.rs()))
}

/// The array of resource names and the array of resource atoms of the player's data.
pub open spec fn resource_lists(d: Document) -> Option<(usize, usize)> {
    match player_spec(d) {
        Err(_) => None,
        Ok(p) => match field_spec(d, p, "res"@) {
            Err(_) => None,
            Ok(res) => match field_spec(d, res, "resType"@) {
                Err(_) => None,
                Ok(tl) => match resource_array(d, tl) {
                    Err(_) => None,
                    Ok(types) => match field_spec(d, res, "resValues"@) {
                        Err(_) => None,
                        Ok(vl) => match resource_array(d, vl) {
                            Err(_) => None,
                            Ok(values) => Some((types, values)),
                        },
                    },
                },
            },
        },
    }
}

/// Whether `d2` adds a resource to `d`'s lists: a new atom at the end of the atom list and a
/// new name at the end of the name list (where the two lists are separate arrays).
#[verifier::opaque]
pub open spec fn resource_added(d: Document, d2: Document) -> bool {
    resource_lists(d) matches Some((types, atoms)) && lists_grown(d.rs(), d2.rs(), types, atoms)
}

/// The two resource lists after a template atom is inserted at the end of the atom list and
/// a name record attached at the same position of the name list.
proof fn lemma_added_lists(
    rs_a: Seq<RecordModel>,
    rs_b: Seq<RecordModel>,
    rs_c: Seq<RecordModel>,
    types: usize,
    atoms: usize,
    index: usize,
    atom: usize,
    t: usize,
    nm: RecordModel,
)
    requires
        types < rs_a.len(),
        atoms < rs_a.len(),
        index == rs_a[atoms as int].children.len(),
        index == rs_a[types as int].children.len(),
        atom == rs_a.len(),
        atom < rs_b.len(),
        rs_b[atom as int].parent == Some(atoms),
        rs_b.take(rs_a.len() as int) == rs_a.update(
            atoms as int,
            RecordModel { children: rs_a[atoms as int].children.insert(index as int, atom), ..rs_a[atoms as int] },
        ),
        t == rs_b.len(),
        rs_c == attached(rs_b, types, index, nm),
    ensures
        rs_a.len() <= atom && rs_a.len() <= t && atom != t,
        rs_c[atom as int].parent == Some(atoms),
        rs_c[t as int].parent == Some(types),
        types != atoms ==> rs_c[atoms as int].children == rs_a[atoms as int].children.push(atom),
        types != atoms ==> rs_c[types as int].children == rs_a[types as int].children.push(t),
{
    let n = rs_a.len() as int;
    assert(rs_b[atoms as int] == rs_b.take(n)[atoms as int]);
    assert(rs_a[atoms as int].children.insert(index as int, atom) =~= rs_a[atoms as int].children.push(atom));
    if types != atoms {
        assert(rs_b[types as int] == rs_b.take(n)[types as int]);
        assert(rs_b[types as int].children.insert(index as int, t) =~= rs_b[types as int].children.push(t));
    }
}

/// Whether `ds` are the documents met while writing `vs` into `d` one value after the
/// other, each write accepted as `write_one` describes.
pub open spec fn steps_ok(d: Document, ds: Seq<Document>, vs: Seq<GeneralValue>) -> bool {
    &&& 1 <= ds.len() <= vs.len() + 1
    &&& ds[0] == d
    &&& forall|i: int| 0 <= i < ds.len() - 1 ==> write_one(#[trigger] ds[i], ds[i + 1], vs[i], Ok(()))
}

/// What writing the values `vs` into `d` in turn does, giving `d2` and `r`: each value is
/// written as `write_one` describes into the document the earlier ones left, and the first
/// refusal ends the batch with that refusal.
pub open spec fn writes_in_turn(d: Document, d2: Document, vs: Seq<GeneralValue>, r: Result<(), Error>) -> bool {
    exists|ds: Seq<Document>|
        #[trigger] steps_ok(d, ds, vs) && match r {
            Ok(_) => ds.len() == vs.len() + 1 && ds.last() == d2,
            Err(_) => ds.len() <= vs.len() && write_one(ds.last(), d2, vs[ds.len() - 1], r),
        }
}

/// Whether `rs2` extends the lists `types` and `atoms` of `rs` by one new name and one new
/// atom (where the two lists are separate arrays).
pub open spec fn lists_grown(rs: Seq<RecordModel>, rs2: Seq<RecordModel>, types: usize, atoms: usize) -> bool {
    types != atoms ==> exists|a: usize, t: usize|
        #![trigger rs2[a as int], rs2[t as int]]
        rs.len() <= a < rs2.len() && rs.len() <= t < rs2.len() && a != t && rs2[atoms as int].children == rs[atoms as int].children.push(a)
            && rs2[types as int].children == rs[types as int].children.push(t) && rs2[a as int].parent == Some(atoms)
            && rs2[t as int].parent == Some(types)
}

proof fn lemma_lists_match(d: Document, types: usize, atoms: usize)
    requires
        resource_lists(d) == Some((types, atoms)),
        resources_spec(d) is Ok,
    ensures
        d.rs()[types as int].children.len() == d.rs()[atoms as int].children.len(),
{
}

proof fn lemma_set_keeps_lists(start: Document, rs_d: Seq<RecordModel>, d2: Document, node: usize)
    requires
        resource_lists(start) matches Some((types, atoms)) && lists_grown(start.rs(), rs_d, types, atoms)
            && types < start.rs().len() && atoms < start.rs().len(),
        start.rs().len() <= rs_d.len(),
        d2.rs().len() == rs_d.len(),
        forall|i: int| 0 <= i < rs_d.len() ==> (#[trigger] d2.rs()[i]).children == rs_d[i].children && d2.rs()[i].parent
            == rs_d[i].parent,
    ensures
        resource_added(start, d2),
{
    reveal(resource_added);
    let (types, atoms) = resource_lists(start)->Some_0;
    if types != atoms {
        let (a, t) = choose|a: usize, t: usize|
            #![trigger rs_d[a as int], rs_d[t as int]]
            start.rs().len() <= a < rs_d.len() && start.rs().len() <= t < rs_d.len() && a != t && rs_d[atoms as int].children == start.rs()[atoms as int].children.push(a)
                && rs_d[types as int].children == start.rs()[types as int].children.push(t) && rs_d[a as int].parent == Some(atoms)
                && rs_d[t as int].parent == Some(types);
        assert(d2.rs()[atoms as int].children == rs_d[atoms as int].children);
        assert(d2.rs()[types as int].children == rs_d[types as int].children);
        assert(d2.rs()[a as int].parent == rs_d[a as int].parent);
        assert(d2.rs()[t as int].parent == rs_d[t as int].parent);
    }
}

/// Adds the resource `key` that the lists lack: an atom from the `game-res-atom` template,
/// whose `type` is `key`, at the end of the atom list and the name `key` at the end of the
/// name list. Gives the atom's value node.
fn add_resource(doc: &mut Document, j: &mut Journal, res: &Resources, key: &str, templates: &Vec<Template>) -> (r: Result<usize, Error>)
    requires
        old(doc).wf(),
        tracks(old(j), old(doc).rs()),
        resources_ok(*res, old(doc).records@.len() as nat),
        resource_lists(*old(doc)) == Some((res.types, res.atoms)),
        old(doc).rs()[res.types as int].children.len() == old(doc).rs()[res.atoms as int].children.len(),
    ensures
        final(doc).wf(),
        tracks(final(j), final(doc).rs()),
        final(j).start == old(j).start,
        final(j).origin == old(j).origin,
        forall|i: int| journaled(old(j), i) ==> journaled(final(j), i),
        final(doc).roots@ == old(doc).roots@,
        final(doc).objects@ == old(doc).objects@,
        final(doc).max_bytes == old(doc).max_bytes,
        final(doc).encoded_size == old(doc).encoded_size,
        final(doc).original_size == old(doc).original_size,
        final(doc).records@.len() >= old(doc).records@.len(),
        r matches Ok(n) ==> n < final(doc).records@.len() && lists_grown(old(doc).rs(), final(doc).rs(), res.types, res.atoms),
        r matches Ok(n) ==> (res.types != res.atoms ==> field_spec(
            *final(doc),
            final(doc).rs()[res.atoms as int].children.last(),
            "value"@,
        ) == Ok::<usize, Seq<char>>(n)),
{
    assert(doc.rs()[res.atoms as int] == doc.records@[res.atoms as int]@);
    let index = doc.records[res.atoms].children.len();
    let ghost rs_a = doc.rs();
    let mut t: usize = 0;
    let mut found: Option<usize> = None;
    while t < templates.len()
        invariant
            t <= templates@.len(),
            found matches Some(i) ==> i < templates@.len(),
        decreases templates@.len() - t,
    {
        if found.is_none() && same_text(templates[t].id.as_str(), "game-res-atom") {
            found = Some(t);
        }
        t = t + 1;
    }
    let template = match found {
        Some(i) => &templates[i],
        None => return Err(failure("Unknown template")),
    };
    let overrides = vec![TemplateValue { key: owned("type"), value: owned(key), float: None }];
    let atom = match create_template(doc, j, res.atoms, index, None, template, &overrides) {
        Ok(a) => a,
        Err(e) => return Err(e),
    };
    let ghost rs_b = doc.rs();
    let name = match scalar("string", None, key, None) {
        Ok(r) => r,
        Err(e) => return Err(e),
    };
    let ghost nm = name@;
    let ghost roots_b = doc.roots@;
    let len_b: usize = doc.records.len();
    let name_node = match attach(doc, j, res.types, index, name) {
        Ok(t) => t,
        Err(e) => return Err(e),
    };
    let ghost rs_c = doc.rs();
    proof {
        assert(attach_check(rs_b, roots_b, res.types, index, false) is Ok);
        assert(len_b == rs_b.len());
        assert(name_node == len_b);
        lemma_added_lists(rs_a, rs_b, rs_c, res.types, res.atoms, index, atom, name_node, nm);
        if res.types != res.atoms {
            assert(rs_c[res.atoms as int].children.last() == atom);
            assert(lists_grown(rs_a, rs_c, res.types, res.atoms)) by {
                assert(rs_c[atom as int].parent == Some(res.atoms));
                assert(rs_c[name_node as int].parent == Some(res.types));
            }
        }
    }
    checked_field(doc, atom, "value")
}

/// Writes health and resources by key. A missing resource is added to both lists, the atom
/// built from the `game-res-atom` template.
#[verifier::loop_isolation(false)]
#[verifier::rlimit(60)]
pub fn write(doc: &mut Document, j: &mut Journal, values: Vec<GeneralValue>, templates: &Vec<Template>) -> (r: Result<(), Error>)
    requires
        old(doc).wf(),
        tracks(old(j), old(doc).rs()),
    ensures
        final(doc).wf(),
        tracks(final(j), final(doc).rs()),
        final(j).start == old(j).start,
        final(j).origin == old(j).origin,
        forall|i: int| journaled(old(j), i) ==> journaled(final(j), i),
        final(doc).roots@ == old(doc).roots@,
        final(doc).objects@ == old(doc).objects@,
        final(doc).max_bytes == old(doc).max_bytes,
        final(doc).encoded_size == old(doc).encoded_size,
        final(doc).original_size == old(doc).original_size,
        final(doc).records@.len() >= old(doc).records@.len(),
        values@.len() == 0 ==> r is Ok && *final(doc) == *old(doc),
        values@.len() == 1 ==> write_one(*old(doc), *final(doc), values@[0], r),
        writes_in_turn(*old(doc), *final(doc), values@, r),
{
    let ghost mut ds: Seq<Document> = seq![*doc];
    let mut k: usize = 0;
    while k < values.len()
        invariant
            doc.wf(),
            tracks(j, doc.rs()),
            j.start == old(j).start,
            j.origin == old(j).origin,
            forall|i: int| journaled(old(j), i) ==> journaled(j, i),
            doc.roots@ == old(doc).roots@,
            doc.objects@ == old(doc).objects@,
            doc.max_bytes == old(doc).max_bytes,
            doc.encoded_size == old(doc).encoded_size,
            doc.original_size == old(doc).original_size,
            doc.records@.len() >= old(doc).records@.len(),
            k <= values@.len(),
            k == 0 ==> *doc == *old(doc),
            values@.len() == 1 && k == 1 ==> write_one(*old(doc), *doc, values@[0], Ok(())),
            steps_ok(*old(doc), ds, values@),
            ds.len() == k + 1,
            ds.last() == *doc,
        decreases values@.len() - k,
    {
        let ghost start = *doc;
        let ghost mut added = false;
        let ghost mut gtypes: usize = 0;
        let ghost mut gatoms: usize = 0;
        let v = &values[k];
        let key = v.key.as_str();
        let bits = match v.number {
            Some(b) => b,
            None => return Err(failure("Enter a finite nonnegative number")),
        };
        let is_max = same_text(key, "max_hp");
        if !acceptable(bits, is_max) {
            return Err(failure("Enter a finite nonnegative value; maximum health must be positive"));
        }
        let is_hp = same_text(key, "hp");
        let node = if is_hp || is_max {
            match health(doc, is_hp) {
                Ok(n) => n,
                Err(e) => return Err(e),
            }
        } else {
            if !is_resource(key) {
                return Err(failure("Unknown General field"));
            }
            let res = match resources(doc) {
                Ok(r) => r,
                Err(e) => return Err(e),
            };
            match lookup(&res.mapping, key) {
                Some(n) => n,
                None => {
                    proof {
                        lemma_lists_match(*doc, res.types, res.atoms);
                    }
                    match add_resource(doc, j, &res, key, templates) {
                        Ok(n) => {
                            proof {
                                added = true;
                                gtypes = res.types;
                                gatoms = res.atoms;
                            }
                            n
                        },
                        Err(e) => return Err(e),
                    }
                },
            }
        };
        assert(node < doc.records@.len());
        assert(doc.rs()[node as int] == doc.records@[node as int]@);
        let tag = doc.records[node].tag;
        let ghost rs_d = doc.rs();
        let ghost md = *doc;
        match set_node(doc, j, node, tag, v.value.as_str(), v.single) {
            Ok(()) => {},
            Err(e) => return Err(e),
        }
        proof {
            if added {
                lemma_set_keeps_lists(start, rs_d, *doc, node);
                assert(resource_lists(start) == Some((gtypes, gatoms)));
                if gtypes != gatoms {
                    assert(lists_grown(start.rs(), md.rs(), gtypes, gatoms));
                    assert(md.rs()[node as int] == md.rs()[node as int]);
                }
                assert(resource_stored(start, *doc, values@[k as int]));
            }
            let ds2 = ds.push(*doc);
            assert(write_one(start, *doc, values@[k as int], Ok(())));
            assert forall|i: int| 0 <= i < ds2.len() - 1 implies write_one(#[trigger] ds2[i], ds2[i + 1], values@[i], Ok(())) by {
                if i < ds.len() - 1 {
                    assert(ds2[i] == ds[i] && ds2[i + 1] == ds[i + 1]);
                }
            }
            ds = ds2;
        }
        k = k + 1;
    }
    assert(steps_ok(*old(doc), ds, values@));
    Ok(())
}

} // verus!
