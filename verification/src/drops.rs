//! Discovery and atomic removal of item drops persisted in the world.
use crate::service::{float_of, integer_format, value_text, view, FloatBits};
use crate::general::arrays_in;
use crate::strings::display_spec;
use crate::text::{owned, parse_integer, parse_integer_spec, push_text, same_text};
use crate::wire::{base_tag, failure, spec_base_tag, Document, Error, Payload, RecordModel};
use crate::workspace::{
    active, active_spec, field, field_spec, lemma_field_in_range, lemma_resolve_range, remove_node, remove_spec,
    resolve, resolve_spec, same_frame, tracks, journaled, without, Journal,
};
use vstd::prelude::*;

verus! {

/// What a scalar field shows: text, or the bits of a floating-point number.
#[derive(Clone, Debug)]
pub enum Shown {
    Text(String),
    Number(FloatBits),
}

/// One ordinary drop found in a scene's drop lists.
pub struct DropEntry {
    pub node: usize,
    /// `Dropped` or `Queued`, after the list it was found in.
    pub source: String,
    /// `Item`, `World object` or `Unknown`, after its drop type.
    pub kind: String,
    pub id: Shown,
    pub count: i32,
    pub world: Shown,
    pub x: FloatBits,
    pub y: FloatBits,
    pub z: FloatBits,
}

/// A drop edit.
pub enum Edit {
    Remove { nodes: Vec<usize> },
}

fn labelled(prefix: &str, name: &str) -> (e: Error)
    ensures
        e.0@ == prefix@ + name@,
{
    let mut m = owned(prefix);
    push_text(&mut m, name);
    Error(m)
}

/// Whether node `n` shows anything: a text or a floating-point number.
pub open spec fn has_shown(d: Document, n: usize) -> bool {
    value_text(d.rs()[n as int]) is Some || float_of(d.rs()[n as int]) is Some
}

/// Whether `s` is what node `n` shows: its text, else its floating-point bits.
pub open spec fn shown_is(d: Document, n: usize, s: Shown) -> bool {
    match value_text(d.rs()[n as int]) {
        Some(t) => s matches Shown::Text(x) && x@ == t,
        None => float_of(d.rs()[n as int]) matches Some(f) && s == Shown::Number(f),
    }
}

/// The node of field `name` of `parent`, where it shows something, or why there is none.
pub open spec fn shown_field(d: Document, parent: usize, name: Seq<char>) -> Result<usize, Seq<char>> {
    match field_spec(d, parent, name) {
        Err(m) => Err(m),
        Ok(n) => if has_shown(d, n) {
            Ok(n)
        } else {
            Err("Missing drop field: "@ + name)
        },
    }
}

fn shown(doc: &Document, node: usize) -> (r: Option<Shown>)
    requires
        doc.wf(),
        node < doc.records@.len(),
    ensures
        r is Some <==> has_shown(*doc, node),
        r matches Some(s) ==> shown_is(*doc, node, s),
        r matches Some(Shown::Text(t)) ==> value_text(doc.rs()[node as int]) == Some(t@),
{
    let v = view(doc, node);
    match v.value {
        Some(t) => Some(Shown::Text(t)),
        None => match v.float {
            Some(f) => Some(Shown::Number(f)),
            None => None,
        },
    }
}

fn value(doc: &Document, parent: usize, name: &str) -> (r: Result<Shown, Error>)
    requires
        doc.wf(),
    ensures
        field_spec(*doc, parent, name@) matches Err(m) ==> (r matches Err(e) && e.0@ == m),
        match shown_field(*doc, parent, name@) {
            Ok(n) => r matches Ok(s) && shown_is(*doc, n, s),
            Err(m) => r matches Err(e) && e.0@ == m,
        },
        r matches Ok(Shown::Text(t)) ==> (field_spec(*doc, parent, name@) matches Ok(n) && value_text(doc.rs()[n as int])
            == Some(t@)),
{
    let node = match field(doc, parent, name) {
        Ok(n) => n,
        Err(e) => return Err(e),
    };
    proof {
        lemma_field_in_range(*doc, parent, name@);
    }
    match shown(doc, node) {
        Some(s) => Ok(s),
        None => Err(labelled("Missing drop field: ", name)),
    }
}

/// The value of integer field `name` of `parent`, as the save shows it.
pub open spec fn integer_read(d: Document, parent: usize, name: Seq<char>) -> Option<int> {
    match field_spec(d, parent, name) {
        Ok(n) => if integer_format(spec_base_tag(d.rs()[n as int].tag)) is Some {
            match value_text(d.rs()[n as int]) {
                Some(t) => parse_integer_spec(t, -2147483648, 2147483647),
                None => None,
            }
        } else {
            None
        },
        Err(_) => None,
    }
}

/// The kind of a drop of type `t`.
pub open spec fn drop_kind(t: int) -> Seq<char> {
    if t == 0 {
        "Item"@
    } else if t == 1 {
        "World object"@
    } else {
        "Unknown"@
    }
}

/// Whether drop entry `e` is what the save holds at its node: the count of its item and
/// the kind after its drop type.
pub open spec fn drop_read(d: Document, e: DropEntry) -> bool {
    &&& resolve_spec(d, e.node) matches Ok(dr)
    &&& field_spec(d, dr, "item"@) matches Ok(it)
    &&& integer_read(d, it, "count"@) == Some(e.count as int)
    &&& integer_read(d, dr, "dropType"@) matches Some(t) && e.kind@ == drop_kind(t)
    &&& position_spec(d, dr, "pos"@) == Ok::<(FloatBits, FloatBits, FloatBits), Seq<char>>((e.x, e.y, e.z))
    &&& shown_field(d, it, "id"@) matches Ok(n) && shown_is(d, n, e.id)
    &&& shown_field(d, dr, "worldId"@) matches Ok(w) ==> shown_is(d, w, e.world)
}

/// The float held by the node that child `c` leads to, where that node is named for axis
/// `k` (or unnamed).
pub open spec fn axis_value(d: Document, c: usize, k: int, v: FloatBits) -> bool {
    resolve_spec(d, c) matches Ok(n) && n < d.rs().len() && axis_named(d.rs()[n as int], k) && float_of(d.rs()[n as int])
        == Some(v)
}

/// A listed drop's coordinates are the three components of its `pos` field in order: `x`
/// is the value of the first component, named for the x axis, `y` that of the second,
/// named for the y axis, and `z` that of the third, named for the z axis.
pub proof fn law_drop_position(d: Document, e: DropEntry)
    requires
        d.wf(),
        drop_read(d, e),
    ensures
        exists|dr: usize, n: usize|
            #![trigger field_spec(d, dr, "pos"@), d.rs()[n as int]]
            resolve_spec(d, e.node) == Ok::<usize, Seq<char>>(dr) && (field_spec(d, dr, "pos"@) matches Ok(f)
                && resolve_spec(d, f) == Ok::<usize, Seq<char>>(n)) && d.rs()[n as int].children.len() == 3
                && axis_value(d, d.rs()[n as int].children[0], 0, e.x) && axis_value(
                d,
                d.rs()[n as int].children[1],
                1,
                e.y,
            ) && axis_value(d, d.rs()[n as int].children[2], 2, e.z),
{
    let dr = resolve_spec(d, e.node)->Ok_0;
    let f = field_spec(d, dr, "pos"@)->Ok_0;
    let n = resolve_spec(d, f)->Ok_0;
    let cs = d.rs()[n as int].children;
    lemma_resolve_range(d, f);
    lemma_resolve_range(d, cs[0]);
    lemma_resolve_range(d, cs[1]);
    lemma_resolve_range(d, cs[2]);
    assert(d.rs()[n as int] == d.rs()[n as int]);
}

fn integer(doc: &Document, parent: usize, name: &str) -> (r: Result<i32, Error>)
    requires
        doc.wf(),
    ensures
        r matches Ok(v) ==> integer_read(*doc, parent, name@) == Some(v as int),
        match integer_read(*doc, parent, name@) {
            Some(v) => r == Ok::<i32, Error>(v as i32),
            None => r is Err,
        },
{
    let node = match field(doc, parent, name) {
        Ok(n) => n,
        Err(e) => return Err(e),
    };
    proof {
        lemma_field_in_range(*doc, parent, name@);
    }
    assert(doc.rs()[node as int] == doc.records@[node as int]@);
    let base = base_tag(doc.records[node].tag);
    if !(base == 16 || base == 18 || base == 20 || base == 22 || base == 24 || base == 26 || base == 28
        || base == 30) {
        return Err(labelled("Drop field is not an integer: ", name));
    }
    let text = match value(doc, parent, name) {
        Ok(Shown::Text(t)) => t,
        Ok(Shown::Number(_)) => return Err(labelled("Invalid drop number: ", name)),
        Err(e) => return Err(e),
    };
    match parse_integer(text.as_str(), -2147483648, 2147483647) {
        Some(v) => Ok(v as i32),
        None => Err(labelled("Invalid drop number: ", name)),
    }
}

/// The single array child of the node that `list` leads to, or why there is none.
pub open spec fn drop_array(d: Document, list: usize) -> Result<usize, Seq<char>> {
    match resolve_spec(d, list) {
        Err(m) => Err(m),
        Ok(t) => {
            let found = arrays_in(d.rs(), d.rs()[t as int].children);
            if found.len() == 1 {
                Ok(found[0])
            } else {
                Err("Unsupported drop collection layout"@)
            }
        },
    }
}

/// The array of list field `name` of `parent`, or why there is none.
pub open spec fn drop_list(d: Document, parent: usize, name: Seq<char>) -> Result<usize, Seq<char>> {
    match field_spec(d, parent, name) {
        Err(m) => Err(m),
        Ok(f) => drop_array(d, f),
    }
}

/// The single array child of the node that `list` leads to.
fn array(doc: &Document, list: usize) -> (r: Result<usize, Error>)
    requires
        doc.wf(),
    ensures
        r matches Ok(a) ==> a < doc.records@.len(),
        match drop_array(*doc, list) {
            Ok(a) => r == Ok::<usize, Error>(a),
            Err(m) => r matches Err(e) && e.0@ == m,
        },
{
    let target = match resolve(doc, list) {
        Ok(l) => l,
        Err(e) => return Err(e),
    };
    proof {
        lemma_resolve_range(*doc, list);
    }
    let list = target;
    assert(doc.rs()[list as int] == doc.records@[list as int]@);
    let children = &doc.records[list].children;
    let mut found: Vec<usize> = Vec::new();
    let mut k: usize = 0;
    while k < children.len()
        invariant
            doc.wf(),
            list < doc.records@.len(),
            children@ == doc.rs()[list as int].children,
            k <= children@.len(),
            forall|m: int| 0 <= m < found@.len() ==> #[trigger] found@[m] < doc.records@.len(),
            found@ == arrays_in(doc.rs(), children@.take(k as int)),
        decreases children@.len() - k,
    {
        assert(doc.rs()[list as int].children[k as int] < doc.rs().len());
        assert(children@.take(k + 1).drop_last() =~= children@.take(k as int));
        assert(doc.rs()[children@[k as int] as int] == doc.records@[children@[k as int] as int]@);
        if doc.records[children[k]].tag == 6 {
            found.push(children[k]);
        }
        k = k + 1;
    }
    assert(children@.take(k as int) =~= children@);
    if found.len() != 1 {
        return Err(failure("Unsupported drop collection layout"));
    }
    Ok(found[0])
}

fn list(doc: &Document, parent: usize, name: &str) -> (r: Result<usize, Error>)
    requires
        doc.wf(),
    ensures
        r matches Ok(a) ==> a < doc.records@.len(),
        match drop_list(*doc, parent, name@) {
            Ok(a) => r == Ok::<usize, Error>(a),
            Err(m) => r matches Err(e) && e.0@ == m,
        },
{
    match field(doc, parent, name) {
        Ok(f) => array(doc, f),
        Err(e) => Err(e),
    }
}

/// The scene nodes that the entries `ids` lead to, each with a shown ID, or why the first
/// that cannot be read fails.
pub open spec fn scene_nodes(d: Document, ids: Seq<usize>) -> Result<Seq<usize>, Seq<char>>
    decreases ids.len(),
{
    if ids.len() == 0 {
        Ok(Seq::empty())
    } else {
        match resolve_spec(d, ids[0]) {
            Err(m) => Err(m),
            Ok(n) => match shown_field(d, n, "id"@) {
                Err(m) => Err(m),
                Ok(_) => match scene_nodes(d, ids.subrange(1, ids.len() as int)) {
                    Err(m) => Err(m),
                    Ok(rest) => Ok(seq![n] + rest),
                },
            },
        }
    }
}

/// `r` with `pre` put before what it lists.
pub open spec fn prefixed(r: Result<Seq<usize>, Seq<char>>, pre: Seq<usize>) -> Result<Seq<usize>, Seq<char>> {
    match r {
        Err(m) => Err(m),
        Ok(rest) => Ok(pre + rest),
    }
}

proof fn lemma_scene_step(d: Document, ids: Seq<usize>, k: int, nodes: Seq<usize>)
    requires
        0 <= k < ids.len(),
        scene_nodes(d, ids) == prefixed(scene_nodes(d, ids.subrange(k, ids.len() as int)), nodes),
    ensures
        scene_nodes(d, ids) == match resolve_spec(d, ids[k]) {
            Err(m) => Err(m),
            Ok(n) => match shown_field(d, n, "id"@) {
                Err(m) => Err(m),
                Ok(_) => prefixed(scene_nodes(d, ids.subrange(k + 1, ids.len() as int)), nodes.push(n)),
            },
        },
{
    let rest = ids.subrange(k, ids.len() as int);
    assert(rest[0] == ids[k]);
    assert(rest.subrange(1, rest.len() as int) =~= ids.subrange(k + 1, ids.len() as int));
    if let Ok(n) = resolve_spec(d, ids[k]) {
        if let Ok(t) = scene_nodes(d, ids.subrange(k + 1, ids.len() as int)) {
            assert(nodes + (seq![n] + t) =~= nodes.push(n) + t);
        }
    }
}

/// Whether `s` is what field `id` of node `n` shows.
pub open spec fn id_shown(d: Document, n: usize, s: Shown) -> bool {
    shown_field(d, n, "id"@) matches Ok(i) && shown_is(d, i, s)
}

/// The scenes of the world, in save order, or why they cannot be listed.
pub open spec fn scenes_spec(d: Document) -> Result<Seq<usize>, Seq<char>> {
    if d.roots@.len() == 0 {
        Err("Missing save root"@)
    } else {
        match field_spec(d, d.roots@[0], "worldData"@) {
            Err(m) => Err(m),
            Ok(w) => match drop_list(d, w, "gameSceneDataList"@) {
                Err(m) => Err(m),
                Ok(a) => scene_nodes(d, d.rs()[a as int].children),
            },
        }
    }
}

fn scenes(doc: &Document) -> (r: Result<Vec<(Shown, usize)>, Error>)
    requires
        doc.wf(),
    ensures
        r matches Ok(v) ==> forall|k: int| 0 <= k < v@.len() ==> (#[trigger] v@[k]).1 < doc.records@.len(),
        match scenes_spec(*doc) {
            Ok(ns) => r matches Ok(v) && v@.len() == ns.len() && forall|k: int|
                0 <= k < ns.len() ==> (#[trigger] v@[k]).1 == ns[k] && id_shown(*doc, ns[k], v@[k].0),
            Err(m) => r matches Err(e) && e.0@ == m,
        },
{
    if doc.roots.len() == 0 {
        return Err(failure("Missing save root"));
    }
    let world = match field(doc, doc.roots[0], "worldData") {
        Ok(w) => w,
        Err(e) => return Err(e),
    };
    let scenes = match list(doc, world, "gameSceneDataList") {
        Ok(l) => l,
        Err(e) => return Err(e),
    };
    assert(doc.rs()[scenes as int] == doc.records@[scenes as int]@);
    let entries = &doc.records[scenes].children;
    let ghost ids = entries@;
    let mut out: Vec<(Shown, usize)> = Vec::new();
    let ghost mut nodes: Seq<usize> = Seq::empty();
    assert(ids.subrange(0, ids.len() as int) =~= ids);
    proof {
        if let Ok(t) = scene_nodes(*doc, ids) {
            assert(nodes + t =~= t);
        }
    }
    let mut k: usize = 0;
    while k < entries.len()
        invariant
            doc.wf(),
            ids == entries@,
            ids == doc.rs()[scenes as int].children,
            k <= entries@.len(),
            out@.len() == k,
            nodes.len() == k,
            forall|m: int| 0 <= m < k ==> (#[trigger] out@[m]).1 == nodes[m],
            forall|m: int| 0 <= m < out@.len() ==> (#[trigger] out@[m]).1 < doc.records@.len(),
            scene_nodes(*doc, ids) == prefixed(scene_nodes(*doc, ids.subrange(k as int, ids.len() as int)), nodes),
            scenes_spec(*doc) == scene_nodes(*doc, ids),
            forall|m: int| 0 <= m < k ==> id_shown(*doc, (#[trigger] out@[m]).1, out@[m].0),
        decreases entries@.len() - k,
    {
        proof {
            lemma_scene_step(*doc, ids, k as int, nodes);
        }
        let node = match resolve(doc, entries[k]) {
            Ok(n) => n,
            Err(e) => return Err(e),
        };
        proof {
            lemma_resolve_range(*doc, entries[k as int]);
        }
        let id = match value(doc, node, "id") {
            Ok(v) => v,
            Err(e) => return Err(e),
        };
        out.push((id, node));
        proof {
            nodes = nodes.push(node);
        }
        k = k + 1;
    }
    proof {
        assert(ids.subrange(k as int, ids.len() as int) =~= Seq::<usize>::empty());
        assert(nodes + Seq::<usize>::empty() =~= nodes);
    }
    Ok(out)
}

/// The name of axis `k` of a Vector3.
pub open spec fn axis(k: int) -> Seq<char> {
    if k == 0 {
        "x"@
    } else if k == 1 {
        "y"@
    } else {
        "z"@
    }
}

/// Whether record `r` may hold axis `k`: unnamed, or named after the axis with or without
/// the `m_` prefix.
pub open spec fn axis_named(r: RecordModel, k: int) -> bool {
    match r.name {
        None => true,
        Some(n) => display_spec(n) == axis(k) || display_spec(n) == "m_"@ + axis(k),
    }
}

/// Component `k` of a Vector3, held by the node that child `c` leads to, or why it cannot
/// be read.
pub open spec fn component(d: Document, c: usize, k: int) -> Result<FloatBits, Seq<char>> {
    match resolve_spec(d, c) {
        Err(m) => Err(m),
        Ok(n) => if !axis_named(d.rs()[n as int], k) || spec_base_tag(d.rs()[n as int].tag) != 32 {
            Err("Drop position has an unsupported Vector3 layout"@)
        } else {
            match float_of(d.rs()[n as int]) {
                Some(f) => Ok(f),
                None => Err("Missing drop position component"@),
            }
        },
    }
}

/// The components of Vector3 field `name` of `parent`, or why they cannot be read.
pub open spec fn position_spec(d: Document, parent: usize, name: Seq<char>) -> Result<
    (FloatBits, FloatBits, FloatBits),
    Seq<char>,
> {
    match field_spec(d, parent, name) {
        Err(m) => Err(m),
        Ok(f) => match resolve_spec(d, f) {
            Err(m) => Err(m),
            Ok(n) => {
                let cs = d.rs()[n as int].children;
                if cs.len() != 3 {
                    Err("Drop position is not a Vector3"@)
                } else {
                    match component(d, cs[0], 0) {
                        Err(m) => Err(m),
                        Ok(x) => match component(d, cs[1], 1) {
                            Err(m) => Err(m),
                            Ok(y) => match component(d, cs[2], 2) {
                                Err(m) => Err(m),
                                Ok(z) => Ok((x, y, z)),
                            },
                        },
                    }
                }
            },
        },
    }
}

proof fn lemma_position_at(d: Document, parent: usize, name: Seq<char>, node: usize, k: int, vals: Seq<FloatBits>)
    requires
        field_spec(d, parent, name) matches Ok(f) && resolve_spec(d, f) == Ok::<usize, Seq<char>>(node),
        d.rs()[node as int].children.len() == 3,
        0 <= k < 3,
        vals.len() == k,
        forall|j: int| 0 <= j < k ==> component(d, d.rs()[node as int].children[j], j) == Ok::<FloatBits, Seq<char>>(#[trigger] vals[j]),
    ensures
        component(d, d.rs()[node as int].children[k], k) matches Err(m) ==> position_spec(d, parent, name) == Err::<
            (FloatBits, FloatBits, FloatBits),
            Seq<char>,
        >(m),
{
    let cs = d.rs()[node as int].children;
    if k >= 1 {
        assert(component(d, cs[0], 0) == Ok::<FloatBits, Seq<char>>(vals[0]));
    }
    if k >= 2 {
        assert(component(d, cs[1], 1) == Ok::<FloatBits, Seq<char>>(vals[1]));
    }
}

/// The three single-precision components of a Vector3 field.
fn position(doc: &Document, parent: usize, name: &str) -> (r: Result<(FloatBits, FloatBits, FloatBits), Error>)
    requires
        doc.wf(),
    ensures
        match position_spec(*doc, parent, name@) {
            Ok(p) => r == Ok::<(FloatBits, FloatBits, FloatBits), Error>(p),
            Err(m) => r matches Err(e) && e.0@ == m,
        },
{
    let f = match field(doc, parent, name) {
        Ok(f) => f,
        Err(e) => return Err(e),
    };
    let node = match resolve(doc, f) {
        Ok(n) => n,
        Err(e) => return Err(e),
    };
    proof {
        lemma_resolve_range(*doc, f);
    }
    assert(doc.rs()[node as int] == doc.records@[node as int]@);
    let children = &doc.records[node].children;
    if children.len() != 3 {
        return Err(failure("Drop position is not a Vector3"));
    }
    let mut values: Vec<FloatBits> = Vec::new();
    let mut k: usize = 0;
    while k < 3
        invariant
            doc.wf(),
            node < doc.records@.len(),
            children@ == doc.rs()[node as int].children,
            children@.len() == 3,
            k <= 3,
            values@.len() == k,
            field_spec(*doc, parent, name@) matches Ok(f) && resolve_spec(*doc, f) == Ok::<usize, Seq<char>>(node),
            forall|m: int| 0 <= m < k ==> component(*doc, children@[m], m) == Ok::<FloatBits, Seq<char>>(#[trigger] values@[m]),
        decreases 3 - k,
    {
        proof {
            lemma_position_at(*doc, parent, name@, node, k as int, values@);
        }
        let child = match resolve(doc, children[k]) {
            Ok(c) => c,
            Err(e) => return Err(e),
        };
        proof {
            lemma_resolve_range(*doc, children[k as int]);
        }
        let axis = if k == 0 {
            "x"
        } else if k == 1 {
            "y"
        } else {
            "z"
        };
        assert(doc.rs()[child as int] == doc.records@[child as int]@);
        let record = &doc.records[child];
        let valid_name = match &record.name {
            None => true,
            Some(n) => {
                let shown = n.display();
                let mut prefixed = owned("m_");
                push_text(&mut prefixed, axis);
                same_text(shown.as_str(), axis) || same_text(shown.as_str(), prefixed.as_str())
            },
        };
        if !valid_name || base_tag(record.tag) != 32 {
            return Err(failure("Drop position has an unsupported Vector3 layout"));
        }
        match view(doc, child).float {
            Some(bits) => values.push(bits),
            None => return Err(failure("Missing drop position component")),
        }
        k = k + 1;
    }
    Ok((values[0], values[1], values[2]))
}

fn copy_shown(s: &Shown) -> (r: Shown)
    ensures
        match *s {
            Shown::Text(t) => r matches Shown::Text(x) && x@ == t@,
            Shown::Number(f) => r == Shown::Number(f),
        },
{
    match s {
        Shown::Text(t) => Shown::Text(t.clone()),
        Shown::Number(f) => Shown::Number(*f),
    }
}

/// What every listed drop satisfies: a node of the document, a known list and a known kind,
/// and a count that is not negative.
pub open spec fn drop_ok(e: DropEntry, n: nat) -> bool {
    &&& e.node < n
    &&& e.count >= 0
    &&& (e.source@ == "Dropped"@ || e.source@ == "Queued"@)
    &&& (e.kind@ == "Item"@ || e.kind@ == "World object"@ || e.kind@ == "Unknown"@)
}

/// Whether drop entry `entry` can be listed: it leads to a drop whose item has a shown ID
/// and a count that is not negative, with an integer drop type and a readable position.
#[verifier::opaque]
pub open spec fn entry_ok(d: Document, entry: usize) -> bool {
    &&& resolve_spec(d, entry) matches Ok(dr)
    &&& field_spec(d, dr, "item"@) matches Ok(it)
    &&& shown_field(d, it, "id"@) is Ok
    &&& integer_read(d, it, "count"@) matches Some(c) && c >= 0
    &&& integer_read(d, dr, "dropType"@) is Some
    &&& position_spec(d, dr, "pos"@) is Ok
}

/// Whether list `name` of scene `scene` can be listed entry by entry.
pub open spec fn list_ok(d: Document, scene: usize, name: Seq<char>) -> bool {
    drop_list(d, scene, name) matches Ok(a) && forall|k: int|
        0 <= k < d.rs()[a as int].children.len() ==> entry_ok(d, #[trigger] d.rs()[a as int].children[k])
}

/// Whether every scene's drop lists can be listed.
pub open spec fn drops_ok(d: Document) -> bool {
    scenes_spec(d) matches Ok(ns) && forall|k: int|
        0 <= k < ns.len() ==> list_ok(d, #[trigger] ns[k], "droppedItems"@) && list_ok(d, ns[k], "queuedDrops"@)
}

/// The nodes that the entries of `v` stand for.
pub open spec fn entry_nodes(v: Seq<DropEntry>) -> Set<usize> {
    Set::new(|n: usize| exists|m: int| 0 <= m < v.len() && (#[trigger] v[m]).node == n)
}

/// The entries of list `name` of `scene`.
pub open spec fn list_nodes(d: Document, scene: usize, name: Seq<char>) -> Set<usize> {
    match drop_list(d, scene, name) {
        Ok(a) => d.rs()[a as int].children.to_set(),
        Err(_) => Set::empty(),
    }
}

/// The entries of both drop lists of each scene in `ns`.
pub open spec fn scene_drop_nodes(d: Document, ns: Seq<usize>) -> Set<usize>
    decreases ns.len(),
{
    if ns.len() == 0 {
        Set::empty()
    } else {
        scene_drop_nodes(d, ns.drop_last()).union(list_nodes(d, ns.last(), "droppedItems"@)).union(
            list_nodes(d, ns.last(), "queuedDrops"@),
        )
    }
}

/// The nodes of every ordinary drop of the document: the entries of each scene's dropped
/// items and queued drops.
pub open spec fn drop_nodes(d: Document) -> Set<usize> {
    match scenes_spec(d) {
        Ok(ns) => scene_drop_nodes(d, ns),
        Err(_) => Set::empty(),
    }
}

/// Reads drop entry `entry` of the list that `source` names; the world defaults to the
/// scene's `scene_id`.
fn read_entry(doc: &Document, entry: usize, source: &str, scene_id: &Shown) -> (r: Result<DropEntry, Error>)
    requires
        doc.wf(),
        entry < doc.records@.len(),
        source@ == "Dropped"@ || source@ == "Queued"@,
    ensures
        r is Ok <==> entry_ok(*doc, entry),
        r matches Ok(e) ==> drop_ok(e, doc.records@.len() as nat) && drop_read(*doc, e) && e.node == entry,
{
    proof {
        reveal(entry_ok);
        reveal_strlit("Item");
        reveal_strlit("World object");
        reveal_strlit("Unknown");
    }
    let drop = match resolve(doc, entry) {
        Ok(d) => d,
        Err(e) => return Err(e),
    };
    let item = match field(doc, drop, "item") {
        Ok(i) => i,
        Err(e) => return Err(e),
    };
    let id = match value(doc, item, "id") {
        Ok(v) => v,
        Err(e) => return Err(e),
    };
    let count = match integer(doc, item, "count") {
        Ok(c) => c,
        Err(e) => return Err(e),
    };
    if count < 0 {
        return Err(failure("Drop count is negative"));
    }
    let drop_type = match integer(doc, drop, "dropType") {
        Ok(t) => t,
        Err(e) => return Err(e),
    };
    let kind = if drop_type == 0 {
        owned("Item")
    } else if drop_type == 1 {
        owned("World object")
    } else {
        owned("Unknown")
    };
    let world = match value(doc, drop, "worldId") {
        Ok(w) => w,
        Err(_) => copy_shown(scene_id),
    };
    let (x, y, z) = match position(doc, drop, "pos") {
        Ok(p) => p,
        Err(e) => return Err(e),
    };
    Ok(DropEntry { node: entry, source: owned(source), kind, id, count, world, x, y, z })
}

proof fn lemma_entry_nodes_push(v: Seq<DropEntry>, e: DropEntry)
    ensures
        entry_nodes(v.push(e)) == entry_nodes(v).insert(e.node),
{
    let w = v.push(e);
    assert forall|n: usize| entry_nodes(w).contains(n) <==> entry_nodes(v).insert(e.node).contains(n) by {
        if entry_nodes(w).contains(n) {
            let m = choose|m: int| 0 <= m < w.len() && (#[trigger] w[m]).node == n;
            if m < v.len() {
                assert(v[m] == w[m]);
            }
        }
        if entry_nodes(v).contains(n) {
            let m = choose|m: int| 0 <= m < v.len() && (#[trigger] v[m]).node == n;
            assert(w[m] == v[m]);
        }
        if n == e.node {
            assert(w[v.len() as int] == e);
        }
    }
    assert(entry_nodes(w) =~= entry_nodes(v).insert(e.node));
}

proof fn lemma_take_push_set(s: Seq<usize>, k: int)
    requires
        0 <= k < s.len(),
    ensures
        s.take(k + 1).to_set() == s.take(k).to_set().insert(s[k]),
{
    assert(s.take(k + 1) =~= s.take(k).push(s[k]));
    s.take(k).lemma_push_to_set_commute(s[k]);
}

/// Every ordinary drop: for each scene, its dropped items, then its queued drops.
#[verifier::rlimit(50)]
pub fn ordinary_drops(doc: &Document) -> (r: Result<Vec<DropEntry>, Error>)
    requires
        doc.wf(),
    ensures
        r is Ok <==> drops_ok(*doc),
        r matches Ok(v) ==> forall|k: int| 0 <= k < v@.len() ==> drop_ok(#[trigger] v@[k], doc.records@.len() as nat),
        r matches Ok(v) ==> forall|k: int| 0 <= k < v@.len() ==> drop_read(*doc, #[trigger] v@[k]),
        r matches Ok(v) ==> entry_nodes(v@) == drop_nodes(*doc),
{
    proof {
        reveal_strlit("Dropped");
        reveal_strlit("Queued");
        reveal_strlit("Item");
        reveal_strlit("World object");
        reveal_strlit("Unknown");
    }
    let all = match scenes(doc) {
        Ok(s) => s,
        Err(e) => return Err(e),
    };
    let mut result: Vec<DropEntry> = Vec::new();
    proof {
        assert(entry_nodes(result@) =~= Set::<usize>::empty());
        assert(scenes_spec(*doc)->Ok_0.take(0) =~= Seq::<usize>::empty());
    }
    let mut s: usize = 0;
    while s < all.len()
        invariant
            doc.wf(),
            s <= all@.len(),
            forall|k: int| 0 <= k < all@.len() ==> (#[trigger] all@[k]).1 < doc.records@.len(),
            forall|k: int| 0 <= k < result@.len() ==> drop_ok(#[trigger] result@[k], doc.records@.len() as nat),
            forall|k: int| 0 <= k < result@.len() ==> drop_read(*doc, #[trigger] result@[k]),
            forall|k: int| 0 <= k < s ==> list_ok(*doc, #[trigger] all@[k].1, "droppedItems"@) && list_ok(
                *doc,
                all@[k].1,
                "queuedDrops"@,
            ),
            scenes_spec(*doc) matches Ok(ns) && ns.len() == all@.len() && forall|k: int|
                0 <= k < ns.len() ==> (#[trigger] all@[k]).1 == ns[k],
            entry_nodes(result@) == scene_drop_nodes(*doc, scenes_spec(*doc)->Ok_0.take(s as int)),
        decreases all@.len() - s,
    {
        let scene = all[s].1;
        let ghost before_scene = entry_nodes(result@);
        let mut pass: usize = 0;
        while pass < 2
            invariant
                doc.wf(),
                pass <= 2,
                scene < doc.records@.len(),
                scene == all@[s as int].1,
                forall|k: int| 0 <= k < result@.len() ==> drop_ok(#[trigger] result@[k], doc.records@.len() as nat),
                forall|k: int| 0 <= k < result@.len() ==> drop_read(*doc, #[trigger] result@[k]),
                pass >= 1 ==> list_ok(*doc, scene, "droppedItems"@),
                pass >= 2 ==> list_ok(*doc, scene, "queuedDrops"@),
                s < all@.len(),
                scenes_spec(*doc) matches Ok(ns) && ns.len() == all@.len() && ns[s as int] == scene,
                forall|m: int| 0 <= m < all@.len() ==> (#[trigger] all@[m]).1 < doc.records@.len(),
                entry_nodes(result@) == (if pass == 0 {
                    before_scene
                } else if pass == 1 {
                    before_scene.union(list_nodes(*doc, scene, "droppedItems"@))
                } else {
                    before_scene.union(list_nodes(*doc, scene, "droppedItems"@)).union(list_nodes(*doc, scene, "queuedDrops"@))
                }),
            decreases 2 - pass,
        {
            let ghost before_list = entry_nodes(result@);
            let (list_name, source) = if pass == 0 {
                ("droppedItems", "Dropped")
            } else {
                ("queuedDrops", "Queued")
            };
            proof {
                reveal_strlit("droppedItems");
                reveal_strlit("queuedDrops");
            }
            assert(list_name@ == "droppedItems"@ || list_name@ == "queuedDrops"@);
            let drops = match list(doc, scene, list_name) {
                Ok(l) => l,
                Err(e) => {
                    assert(!list_ok(*doc, scene, list_name@));
                    return Err(e);
                },
            };
            assert(doc.rs()[drops as int] == doc.records@[drops as int]@);
            let entries = &doc.records[drops].children;
            let mut k: usize = 0;
            while k < entries.len()
                invariant
                    doc.wf(),
                    k <= entries@.len(),
                    entries@ == doc.rs()[drops as int].children,
                    drops < doc.records@.len(),
                    source@ == "Dropped"@ || source@ == "Queued"@,
                    list_name@ == "droppedItems"@ || list_name@ == "queuedDrops"@,
                    pass < 2,
                    pass == 0 ==> list_name@ == "droppedItems"@,
                    pass == 1 ==> list_name@ == "queuedDrops"@,
                    pass >= 1 ==> list_ok(*doc, scene, "droppedItems"@),
                    s < all@.len(),
                    scene == all@[s as int].1,
                    scenes_spec(*doc) matches Ok(ns) && ns.len() == all@.len() && ns[s as int] == scene,
                    forall|m: int| 0 <= m < all@.len() ==> (#[trigger] all@[m]).1 < doc.records@.len(),
                    drop_list(*doc, scene, list_name@) == Ok::<usize, Seq<char>>(drops),
                    forall|m: int| 0 <= m < k ==> entry_ok(*doc, #[trigger] entries@[m]),
                    forall|m: int| 0 <= m < result@.len() ==> drop_ok(#[trigger] result@[m], doc.records@.len() as nat),
                    forall|m: int| 0 <= m < result@.len() ==> drop_read(*doc, #[trigger] result@[m]),
                    entry_nodes(result@) == before_list.union(entries@.take(k as int).to_set()),
                decreases entries@.len() - k,
            {
                assert(doc.rs()[drops as int].children[k as int] < doc.rs().len());
                let entry = entries[k];
                match read_entry(doc, entry, source, &all[s].0) {
                    Ok(e) => {
                        let ghost r0 = result@;
                        result.push(e);
                        proof {
                            lemma_entry_nodes_push(r0, e);
                            assert(entries@.take(k + 1) =~= entries@.take(k as int).push(entry));
                            lemma_take_push_set(entries@, k as int);
                            assert(entry_nodes(result@) =~= before_list.union(entries@.take(k + 1).to_set()));
                        }
                    },
                    Err(e) => {
                        proof {
                            assert(!list_ok(*doc, scene, list_name@));
                        }
                        return Err(e);
                    },
                }
                k = k + 1;
            }
            assert(list_ok(*doc, scene, list_name@));
            proof {
                assert(entries@.take(entries@.len() as int) =~= entries@);
                assert(list_nodes(*doc, scene, list_name@) == entries@.to_set());
            }
            pass = pass + 1;
        }
        proof {
            let ns = scenes_spec(*doc)->Ok_0;
            assert(ns.take(s + 1).drop_last() =~= ns.take(s as int));
            assert(ns.take(s + 1).last() == scene);
        }
        s = s + 1;
    }
    proof {
        let ns = scenes_spec(*doc)->Ok_0;
        assert forall|k: int| 0 <= k < ns.len() implies list_ok(*doc, #[trigger] ns[k], "droppedItems"@) && list_ok(
            *doc,
            ns[k],
            "queuedDrops"@,
        ) by {
            assert(all@[k].1 == ns[k]);
        }
        assert(ns.take(ns.len() as int) =~= ns);
    }
    Ok(result)
}

/// What detaching `node` from its parent does to records `rs` with roots `roots`: the node
/// must be live and not the root, and it leaves its parent's children.
pub open spec fn detach(rs: Seq<RecordModel>, roots: Seq<usize>, node: usize) -> Result<Seq<RecordModel>, Seq<char>> {
    match active_spec(rs, roots, node) {
        Err(m) => Err(m),
        Ok(()) => match rs[node as int].parent {
            Some(p) => Ok(rs.update(p as int, RecordModel { children: without(rs[p as int].children, node), ..rs[p as int] })),
            None => Err("Cannot remove the root"@),
        },
    }
}

/// Detaching `nodes` one after the other, or the first reason one cannot be detached.
pub open spec fn detach_all(rs: Seq<RecordModel>, roots: Seq<usize>, nodes: Seq<usize>) -> Result<Seq<RecordModel>, Seq<char>>
    decreases nodes.len(),
{
    if nodes.len() == 0 {
        Ok(rs)
    } else {
        match detach(rs, roots, nodes[0]) {
            Err(m) => Err(m),
            Ok(rs2) => detach_all(rs2, roots, nodes.drop_first()),
        }
    }
}

/// Whether no node occurs twice in `nodes`.
pub open spec fn distinct(nodes: Seq<usize>) -> bool {
    forall|a: int, b: int| 0 <= a < b < nodes.len() ==> nodes[a] != nodes[b]
}

/// Whether a removal of `nodes` from `d` goes through: between 1 and 100,000 distinct
/// drops, every drop list readable, each node a listed drop, and each one detachable after
/// the ones before it.
#[verifier::opaque]
pub open spec fn removal_ok(d: Document, nodes: Seq<usize>) -> bool {
    &&& 1 <= nodes.len() <= 100000
    &&& drops_ok(d)
    &&& distinct(nodes)
    &&& forall|i: int| 0 <= i < nodes.len() ==> drop_nodes(d).contains(#[trigger] nodes[i])
    &&& detach_all(d.rs(), d.roots@, nodes) is Ok
}

/// Whether `nodes[k]` occurs before position `k`.
fn seen_before(nodes: &Vec<usize>, k: usize) -> (r: bool)
    requires
        k < nodes@.len(),
    ensures
        r == exists|m: int| 0 <= m < k && nodes@[m] == nodes@[k as int],
{
    let mut m: usize = 0;
    while m < k
        invariant
            m <= k < nodes@.len(),
            forall|a: int| 0 <= a < m ==> nodes@[a] != nodes@[k as int],
        decreases k - m,
    {
        if nodes[m] == nodes[k] {
            return true;
        }
        m = m + 1;
    }
    false
}

/// Whether some entry of `available` stands for `node`.
fn listed_in(available: &Vec<DropEntry>, node: usize) -> (r: bool)
    ensures
        r == entry_nodes(available@).contains(node),
{
    let mut a: usize = 0;
    while a < available.len()
        invariant
            a <= available@.len(),
            forall|b: int| 0 <= b < a ==> (#[trigger] available@[b]).node != node,
        decreases available@.len() - a,
    {
        if available[a].node == node {
            return true;
        }
        a = a + 1;
    }
    false
}

/// What a drop edit does, giving `d2` and `r` from `d`: a removal of too few or too many
/// drops is refused with nothing changed; otherwise it goes through exactly when `removal_ok`
/// holds, leaving the records with the drops detached in turn.
pub open spec fn write_result(d: Document, d2: Document, edit: Edit, r: Result<(), Error>) -> bool {
    match edit {
        Edit::Remove { nodes } => {
            &&& (nodes@.len() == 0 || nodes@.len() > 100000) ==> (r matches Err(e) && e.0@
                == "Select between 1 and 100,000 drops"@ && d2 == d)
            &&& r is Ok <==> removal_ok(d, nodes@)
            &&& r is Ok ==> d2.rs() == detach_all(d.rs(), d.roots@, nodes@)->Ok_0
        },
    }
}

proof fn lemma_detach_is_remove(d: Document, node: usize)
    ensures
        remove_spec(d, node) == detach(d.rs(), d.roots@, node),
{
}

/// Removes the selected drops together; each must be a distinct, currently listed drop.
#[verifier::rlimit(60)]
pub fn write(doc: &mut Document, j: &mut Journal, edit: Edit) -> (r: Result<(), Error>)
    requires
        old(doc).wf(),
        tracks(old(j), old(doc).rs()),
    ensures
        final(doc).wf(),
        tracks(final(j), final(doc).rs()),
        final(j).start == old(j).start,
        final(j).origin == old(j).origin,
        forall|i: int| journaled(old(j), i) ==> journaled(final(j), i),
        same_frame(*old(doc), *final(doc)),
        final(doc).records@.len() == old(doc).records@.len(),
        write_result(*old(doc), *final(doc), edit, r),
{
    proof {
        reveal(removal_ok);
    }
    match &edit {
        Edit::Remove { nodes } => {
            if nodes.len() == 0 || nodes.len() > 100000 {
                return Err(failure("Select between 1 and 100,000 drops"));
            }
            let available = match ordinary_drops(doc) {
                Ok(v) => v,
                Err(e) => {
                    proof {
                        reveal(removal_ok);
                    }
                    return Err(e);
                },
            };
            let ghost rs0 = doc.rs();
            let ghost roots0 = doc.roots@;
            let ghost d0 = *doc;
            proof {
                assert(nodes@.skip(0) =~= nodes@);
            }
            let mut k: usize = 0;
            while k < nodes.len()
                invariant
                    doc.wf(),
                    tracks(j, doc.rs()),
                    j.start == old(j).start,
                    j.origin == old(j).origin,
                    forall|i: int| journaled(old(j), i) ==> journaled(j, i),
                    same_frame(*old(doc), *doc),
                    doc.records@.len() == old(doc).records@.len(),
                    k <= nodes@.len(),
                    1 <= nodes@.len() <= 100000,
                    edit->nodes@ == nodes@,
                    d0 == *old(doc),
                    rs0 == d0.rs(),
                    roots0 == d0.roots@,
                    doc.roots@ == roots0,
                    drops_ok(d0),
                    entry_nodes(available@) == drop_nodes(d0),
                    forall|a: int, b: int| 0 <= a < b < k ==> nodes@[a] != nodes@[b],
                    forall|i: int| 0 <= i < k ==> drop_nodes(d0).contains(#[trigger] nodes@[i]),
                    detach_all(rs0, roots0, nodes@) == detach_all(doc.rs(), roots0, nodes@.skip(k as int)),
                decreases nodes@.len() - k,
            {
                let node = nodes[k];
                if seen_before(nodes, k) {
                    proof {
                        let m = choose|m: int| 0 <= m < k && nodes@[m] == nodes@[k as int];
                        assert(!distinct(nodes@));
                        reveal(removal_ok);
                        assert(!removal_ok(*old(doc), nodes@));
                    }
                    return Err(failure("A drop was selected more than once"));
                }
                if !listed_in(&available, node) {
                    proof {
                        assert(!drop_nodes(d0).contains(nodes@[k as int]));
                        reveal(removal_ok);
                        assert(!removal_ok(*old(doc), nodes@));
                    }
                    return Err(failure("A selected drop is no longer available"));
                }
                let ghost rs_k = doc.rs();
                proof {
                    assert(nodes@.skip(k as int)[0] == node);
                    assert(nodes@.skip(k as int).drop_first() =~= nodes@.skip(k + 1));
                }
                let ghost dk = *doc;
                proof {
                    lemma_detach_is_remove(dk, node);
                }
                match remove_node(doc, j, node) {
                    Ok(()) => {},
                    Err(e) => {
                        proof {
                            assert(detach(rs_k, roots0, node) is Err);
                            assert(detach_all(rs0, roots0, nodes@) is Err);
                            reveal(removal_ok);
                        }
                        return Err(e);
                    },
                }
                assert(detach(rs_k, roots0, node) == Ok::<Seq<RecordModel>, Seq<char>>(doc.rs()));
                k = k + 1;
            }
            proof {
                assert(nodes@.skip(nodes@.len() as int) =~= Seq::<usize>::empty());
                assert(distinct(nodes@));
                reveal(removal_ok);
            }
            Ok(())
        },
    }
}

} // verus!
