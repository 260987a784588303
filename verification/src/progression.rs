//! Technology, inspiration and talent-tree state stored in the save.
use crate::service::{utf8_len, value_text, view, FloatBits};
use crate::text::{owned, same_text, signed_text};
use crate::wire::{base_tag, failure, spec_base_tag, Document, Error, Payload, PayloadModel, RecordModel, StringModel};
use crate::strings::display_spec;
use crate::workspace::{
    attach, create_template, field, field_spec, resolve_spec, journaled, lemma_field_in_range, lemma_resolve_range, resolve, scalar,
    set_node, set_spec, edit_result, template_room, tracks, Journal, Template, TemplateValue, links_kept, lemma_climb_kept,
    lemma_attached_kept, lemma_kept_trans, active_spec, lemma_string_kind, attached, text_spec, lemma_field_payload,
    payload_only,
};
use crate::endian::{le_bytes, lemma_le_bytes_value, lemma_pow_values, pow256, twos};
use crate::service::integer_value;
use crate::strings::{law_replace_reads_back, replace_spec};
use crate::inventory::{int32_of, write_frame};
use crate::text::parse_integer;
use vstd::prelude::*;

verus! {

broadcast use vstd::string::group_string_axioms;

/// What unlocking technologies also grants.
pub struct TechnologyRewards {
    pub crafts: Vec<String>,
    pub alchemy_formulas: Vec<String>,
    pub buildings: Vec<String>,
    pub town_buildings: Vec<String>,
    pub perks: Vec<PerkUnlock>,
}

/// A perk that a technology activates, for a duration.
pub struct PerkUnlock {
    pub id: String,
    pub duration: String,
    /// The duration's bits, where the perk template stores it as a floating-point number.
    pub duration_bits: Option<FloatBits>,
}

/// A talent level to study, and the talent value it adds.
pub struct TalentUnlock {
    pub id: String,
    pub talent_value: i32,
}

/// A progression edit.
pub enum Edit {
    /// Unlocks technologies with their rewards; IDs already present are kept once.
    UnlockTechnologies { ids: Vec<String>, rewards: TechnologyRewards },
    /// Studies talent levels of a branch, adding the talent value of each new one.
    UnlockTalentLevels { talent: String, levels: Vec<TalentUnlock> },
    /// Sets one counter of a talent branch.
    SetTalent { talent: String, field: String, value: String },
    /// Sets the progress of an inspiration of a branch, adding the inspiration if needed.
    SetInspiration { talent: String, id: String, current_value: String, completion_goal_value: String },
}

/// The progress of one inspiration.
pub struct Inspiration {
    pub id: String,
    pub current_value: String,
    pub completion_goal_value: String,
}

/// One talent branch: its counters, studied levels and inspirations.
pub struct TalentBranch {
    pub id: String,
    pub cur_exp: String,
    pub cur_talent_level: String,
    pub talent_exp_points: String,
    pub cur_talent_value: String,
    pub studied_level_ups: Vec<String>,
    pub inspirations: Vec<Inspiration>,
}

/// The unlocked technologies and every talent branch.
pub struct Progression {
    pub unlocked_technologies: Vec<String>,
    pub talents: Vec<TalentBranch>,
}

/// The arrays among `ids`, in order, whatever their naming.
pub open spec fn lists_among(rs: Seq<RecordModel>, ids: Seq<usize>) -> Seq<usize>
    decreases ids.len(),
{
    if ids.len() == 0 {
        Seq::empty()
    } else {
        let rest = lists_among(rs, ids.drop_last());
        if spec_base_tag(rs[ids.last() as int].tag) == 6 {
            rest.push(ids.last())
        } else {
            rest
        }
    }
}

/// The single array among the children of the node that `list` leads to, or why there is
/// none.
pub open spec fn list_spec(d: Document, list: usize) -> Result<usize, Seq<char>> {
    match resolve_spec(d, list) {
        Err(m) => Err(m),
        Ok(t) => {
            let found = lists_among(d.rs(), d.rs()[t as int].children);
            if found.len() == 1 {
                Ok(found[0])
            } else {
                Err("Unsupported list layout"@)
            }
        },
    }
}

/// The texts held by the strings of array `a`, where each of its elements is a string.
pub open spec fn texts_of(d: Document, a: usize) -> Option<Seq<Seq<char>>> {
    let ids = d.rs()[a as int].children;
    if forall|k: int| 0 <= k < ids.len() ==> (#[trigger] d.rs()[ids[k] as int]).payload is Text {
        Some(Seq::new(ids.len(), |k: int| display_spec(d.rs()[ids[k] as int].payload->Text_0)))
    } else {
        None
    }
}

pub open spec fn texts(v: Seq<String>) -> Seq<Seq<char>> {
    v.map_values(|t: String| t@)
}

/// The nodes that `ids` lead to, in order, or why the first that leads nowhere does.
pub open spec fn resolved_all(d: Document, ids: Seq<usize>) -> Result<Seq<usize>, Seq<char>>
    decreases ids.len(),
{
    if ids.len() == 0 {
        Ok(Seq::empty())
    } else {
        match resolve_spec(d, ids[0]) {
            Err(m) => Err(m),
            Ok(n) => match resolved_all(d, ids.subrange(1, ids.len() as int)) {
                Err(m) => Err(m),
                Ok(s) => Ok(seq![n] + s),
            },
        }
    }
}

/// Field `name` of the first root, or why there is none.
pub open spec fn root_field_spec(d: Document, name: Seq<char>) -> Result<usize, Seq<char>> {
    if d.roots@.len() == 0 {
        Err("Missing root"@)
    } else {
        field_spec(d, d.roots@[0], name)
    }
}

/// The talent branches, in save order, or why they cannot be listed.
pub open spec fn talents_spec(d: Document) -> Result<Seq<usize>, Seq<char>> {
    match root_field_spec(d, "talentSystemData"@) {
        Err(m) => Err(m),
        Ok(system) => match field_spec(d, system, "talentData"@) {
            Err(m) => Err(m),
            Ok(list) => match list_spec(d, list) {
                Err(m) => Err(m),
                Ok(a) => resolved_all(d, d.rs()[a as int].children),
            },
        },
    }
}

/// The text of string field `name` of `owner`, where it has one.
pub open spec fn id_spec(d: Document, owner: usize, name: Seq<char>) -> Option<Seq<char>> {
    match field_spec(d, owner, name) {
        Ok(f) => if d.rs()[f as int].payload is Text {
            Some(display_spec(d.rs()[f as int].payload->Text_0))
        } else {
            None
        },
        Err(_) => None,
    }
}

/// The position of the first of `nodes` whose ID is `id`.
pub open spec fn first_with_id(d: Document, nodes: Seq<usize>, id: Seq<char>) -> Option<int>
    decreases nodes.len(),
{
    if nodes.len() == 0 {
        None
    } else if id_spec(d, nodes[0], "id"@) == Some(id) {
        Some(0)
    } else {
        match first_with_id(d, nodes.subrange(1, nodes.len() as int), id) {
            Some(k) => Some(k + 1),
            None => None,
        }
    }
}

/// The first talent branch whose ID is `id`, or why there is none.
pub open spec fn talent_spec(d: Document, id: Seq<char>) -> Result<usize, Seq<char>> {
    match talents_spec(d) {
        Err(m) => Err(m),
        Ok(s) => match first_with_id(d, s, id) {
            Some(k) => Ok(s[k]),
            None => Err("Unknown talent branch"@),
        },
    }
}

/// The display text of field `name` of `owner`, empty where it shows none.
pub open spec fn shown_spec(d: Document, owner: usize, name: Seq<char>) -> Option<Seq<char>> {
    match field_spec(d, owner, name) {
        Ok(n) => Some(
            match value_text(d.rs()[n as int]) {
                Some(v) => v,
                None => Seq::empty(),
            },
        ),
        Err(_) => None,
    }
}

/// The array of list field `name` of `owner`.
pub open spec fn list_field_spec(d: Document, owner: usize, name: Seq<char>) -> Option<usize> {
    match field_spec(d, owner, name) {
        Ok(f) => match list_spec(d, f) {
            Ok(a) => Some(a),
            Err(_) => None,
        },
        Err(_) => None,
    }
}

/// Whether `i` is what the save shows of the inspiration that `child` leads to.
pub open spec fn inspiration_shown(d: Document, child: usize, i: Inspiration) -> bool {
    &&& resolve_spec(d, child) matches Ok(e)
    &&& id_spec(d, e, "id"@) == Some(i.id@)
    &&& shown_spec(d, e, "currentValue"@) == Some(i.current_value@)
    &&& shown_spec(d, e, "completionGoalValue"@) == Some(i.completion_goal_value@)
}

/// Whether `b` is what the save shows of talent branch `node`.
pub open spec fn branch_shown(d: Document, node: usize, b: TalentBranch) -> bool {
    &&& id_spec(d, node, "id"@) == Some(b.id@)
    &&& shown_spec(d, node, "curExp"@) == Some(b.cur_exp@)
    &&& shown_spec(d, node, "curTalentLevel"@) == Some(b.cur_talent_level@)
    &&& shown_spec(d, node, "talentExpPoints"@) == Some(b.talent_exp_points@)
    &&& shown_spec(d, node, "curTalentValue"@) == Some(b.cur_talent_value@)
    &&& list_field_spec(d, node, "studiedLevelUps"@) matches Some(a) && texts_of(d, a) == Some(texts(b.studied_level_ups@))
    &&& list_field_spec(d, node, "inspirationsProgression"@) matches Some(a) && {
        let cs = d.rs()[a as int].children;
        &&& b.inspirations@.len() == cs.len()
        &&& forall|m: int| 0 <= m < cs.len() ==> inspiration_shown(d, cs[m], #[trigger] b.inspirations@[m])
    }
}

/// What setting int32 field `name` of `owner` to `value` makes of the records, or why it is
/// refused.
pub open spec fn set_i32_spec(d: Document, owner: usize, name: Seq<char>, value: Seq<char>) -> Result<
    Seq<RecordModel>,
    Seq<char>,
> {
    match int32_of(value) {
        None => Err("Enter a 32-bit integer"@),
        Some(v) => if v < 0 {
            Err("Enter a nonnegative integer"@)
        } else {
            match field_spec(d, owner, name) {
                Err(m) => Err(m),
                Ok(n) => if spec_base_tag(d.rs()[n as int].tag) != 24 {
                    Err("Progression field is not int32"@)
                } else {
                    set_spec(d, n, d.rs()[n as int].tag, value, None)
                },
            }
        },
    }
}

fn root_field(doc: &Document, name: &str) -> (r: Result<usize, Error>)
    requires
        doc.wf(),
    ensures
        doc.roots@.len() == 0 ==> (r matches Err(e) && e.0@ == "Missing root"@),
        doc.roots@.len() > 0 ==> match field_spec(*doc, doc.roots@[0], name@) {
            Ok(n) => r == Ok::<usize, Error>(n),
            Err(m) => r matches Err(e) && e.0@ == m,
        },
        r matches Ok(n) ==> n < doc.records@.len(),
{
    if doc.roots.len() == 0 {
        return Err(failure("Missing root"));
    }
    let r = field(doc, doc.roots[0], name);
    proof {
        if r is Ok {
            lemma_field_in_range(*doc, doc.roots@[0], name@);
        }
    }
    r
}

/// The single array among the children of the node that `list` leads to.
fn array(doc: &Document, list: usize) -> (r: Result<usize, Error>)
    requires
        doc.wf(),
    ensures
        match list_spec(*doc, list) {
            Ok(a) => r == Ok::<usize, Error>(a),
            Err(m) => r matches Err(e) && e.0@ == m,
        },
        r matches Ok(a) ==> a < doc.records@.len() && spec_base_tag(doc.rs()[a as int].tag) == 6,
{
    let target = match resolve(doc, list) {
        Ok(l) => l,
        Err(e) => return Err(e),
    };
    proof {
        lemma_resolve_range(*doc, list);
    }
    assert(doc.rs()[target as int] == doc.records@[target as int]@);
    let children = &doc.records[target].children;
    let mut found: Vec<usize> = Vec::new();
    let mut k: usize = 0;
    while k < children.len()
        invariant
            doc.wf(),
            target < doc.records@.len(),
            children@ == doc.rs()[target as int].children,
            k <= children@.len(),
            found@ == lists_among(doc.rs(), children@.take(k as int)),
            forall|m: int| 0 <= m < found@.len() ==> {
                &&& #[trigger] found@[m] < doc.records@.len()
                &&& spec_base_tag(doc.rs()[found@[m] as int].tag) == 6
            },
        decreases children@.len() - k,
    {
        assert(doc.rs()[target as int].children[k as int] < doc.rs().len());
        assert(children@.take(k + 1).drop_last() =~= children@.take(k as int));
        let c = children[k];
        assert(doc.rs()[c as int] == doc.records@[c as int]@);
        if base_tag(doc.records[c].tag) == 6 {
            found.push(c);
        }
        k = k + 1;
    }
    assert(children@.take(k as int) =~= children@);
    if found.len() != 1 {
        return Err(failure("Unsupported list layout"));
    }
    Ok(found[0])
}

/// The text that string node `node` holds.
fn text_value(doc: &Document, node: usize) -> (r: Result<String, Error>)
    requires
        node < doc.records@.len(),
    ensures
        r is Ok <==> doc.rs()[node as int].payload is Text,
        r matches Ok(v) ==> v@ == display_spec(doc.rs()[node as int].payload->Text_0),
{
    assert(doc.rs()[node as int] == doc.records@[node as int]@);
    match &doc.records[node].payload {
        Payload::Text(v) => Ok(v.display()),
        _ => Err(failure("Expected a string")),
    }
}

/// The array of list field `name` of `owner`, and the texts it holds.
fn string_list(doc: &Document, owner: usize, name: &str) -> (r: Result<(usize, Vec<String>), Error>)
    requires
        doc.wf(),
    ensures
        r matches Ok((a, _)) ==> spec_base_tag(doc.rs()[a as int].tag) == 6,
        r matches Ok((a, v)) ==> (a < doc.records@.len() && (field_spec(*doc, owner, name@) matches Ok(f) && list_spec(
            *doc,
            f,
        ) == Ok::<usize, Seq<char>>(a)) && texts_of(*doc, a) == Some(texts(v@))),
        match field_spec(*doc, owner, name@) {
            Err(m) => r matches Err(e) && e.0@ == m,
            Ok(f) => match list_spec(*doc, f) {
                Err(m) => r matches Err(e) && e.0@ == m,
                Ok(a) => match texts_of(*doc, a) {
                    Some(_) => r is Ok,
                    None => r matches Err(e) && e.0@ == "Expected a string"@,
                },
            },
        },
{
    let f = match field(doc, owner, name) {
        Ok(f) => f,
        Err(e) => return Err(e),
    };
    let a = match array(doc, f) {
        Ok(a) => a,
        Err(e) => return Err(e),
    };
    assert(doc.rs()[a as int] == doc.records@[a as int]@);
    let children = &doc.records[a].children;
    let mut values: Vec<String> = Vec::new();
    let mut k: usize = 0;
    while k < children.len()
        invariant
            doc.wf(),
            a < doc.records@.len(),
            children@ == doc.rs()[a as int].children,
            k <= children@.len(),
            values@.len() == k,
            field_spec(*doc, owner, name@) == Ok::<usize, Seq<char>>(f),
            list_spec(*doc, f) == Ok::<usize, Seq<char>>(a),
            forall|m: int| 0 <= m < k ==> (#[trigger] doc.rs()[children@[m] as int]).payload is Text,
            forall|m: int| 0 <= m < k ==> (#[trigger] values@[m])@ == display_spec(doc.rs()[children@[m] as int].payload->Text_0),
        decreases children@.len() - k,
    {
        assert(doc.rs()[a as int].children[k as int] < doc.rs().len());
        let c = children[k];
        assert(doc.rs()[c as int] == doc.records@[c as int]@);
        match &doc.records[c].payload {
            Payload::Text(v) => values.push(v.display()),
            _ => {
                assert(!(doc.rs()[children@[k as int] as int].payload is Text));
                return Err(failure("Expected a string"));
            },
        }
        k = k + 1;
    }
    assert(texts(values@) =~= Seq::new(children@.len(), |m: int| display_spec(doc.rs()[children@[m] as int].payload->Text_0)));
    Ok((a, values))
}

fn listed(v: &Vec<String>, x: &str) -> (r: bool)
    ensures
        r == exists|k: int| 0 <= k < v@.len() && (#[trigger] v@[k])@ == x@,
{
    crate::inventory::listed(v, x)
}

/// Appends to list field `name` of `owner` each value it does not hold yet. A value must
/// have between 1 and 256 bytes.
fn append_strings(doc: &mut Document, j: &mut Journal, owner: usize, name: &str, values: Vec<String>) -> (r: Result<(), Error>)
    requires
        old(doc).wf(),
        tracks(old(j), old(doc).rs()),
    ensures
        write_frame(*old(doc), *final(doc), old(j), final(j)),
        r is Ok <==> append_ok(*old(doc), owner, name@, values@),
        r is Ok ==> (list_texts(*old(doc), owner, name@) matches Some((a, ex)) && texts_of(*final(doc), a) == Some(
            appended(ex, values@),
        ) && (appended(ex, values@) == ex ==> final(doc).rs() == old(doc).rs())),
{
    let (array, existing) = match string_list(doc, owner, name) {
        Ok(l) => l,
        Err(e) => return Err(e),
    };
    let ghost ex = texts(existing@);
    let ghost rs0 = doc.rs();
    proof {
        assert forall|i: int| 0 <= i < rs0.len() implies (#[trigger] rs0[i].parent matches Some(p) ==> p < rs0.len()) by {
            assert(doc.rs()[i].parent matches Some(p) ==> p < doc.rs().len());
        }
    }
    let mut seen = existing;
    proof {
        assert(values@.take(0) =~= Seq::<String>::empty());
    }
    let mut k: usize = 0;
    while k < values.len()
        invariant
            rs0 == old(doc).rs(),
            links_kept(rs0, doc.rs()),
            forall|i: int| 0 <= i < rs0.len() ==> (#[trigger] rs0[i].parent matches Some(p) ==> p < rs0.len()),
            array < rs0.len(),
            field_spec(*old(doc), owner, name@) matches Ok(f) && list_spec(*old(doc), f) == Ok::<usize, Seq<char>>(array),
            texts_of(*old(doc), array) == Some(ex),
            spec_base_tag(rs0[array as int].tag) == 6,
            k <= values@.len(),
            forall|m: int| 0 <= m < k ==> valid_id((#[trigger] values@[m])@),
            forall|x: Seq<char>| #[trigger] texts(seen@).contains(x) <==> (ex.contains(x) || exists|m: int|
                0 <= m < k && (#[trigger] values@[m])@ == x),
            (exists|m: int| 0 <= m < k && fresh_at(ex, values@, m)) ==> active_spec(rs0, doc.roots@, array) is Ok,
            texts(seen@) == appended(ex, values@.take(k as int)),
            texts_of(*doc, array) == Some(texts(seen@)),
            texts(seen@).len() == ex.len() ==> doc.rs() == rs0,
            texts(seen@).len() >= ex.len(),
            doc.wf(),
            tracks(j, doc.rs()),
            j.start == old(j).start,
            j.origin == old(j).origin,
            forall|i: int| journaled(old(j), i) ==> journaled(j, i),
            doc.roots@ == old(doc).roots@,
            doc.objects@ == old(doc).objects@,
            doc.max_bytes == old(doc).max_bytes,
            doc.encoded_size == old(doc).encoded_size,
            doc.original_size == old(doc).original_size,
            doc.records@.len() >= old(doc).records@.len(),
            array < doc.records@.len(),
        decreases values@.len() - k,
    {
        let value = values[k].as_str();
        if value.len() == 0 || value.len() > 256 {
            return Err(failure("Invalid progression ID"));
        }
        assert(texts(seen@).contains(value@) <==> exists|q: int| 0 <= q < seen@.len() && (#[trigger] seen@[q])@ == value@) by {
            if texts(seen@).contains(value@) {
                let q = choose|q: int| 0 <= q < texts(seen@).len() && texts(seen@)[q] == value@;
                assert(seen@[q]@ == value@);
            }
            if exists|q: int| 0 <= q < seen@.len() && (#[trigger] seen@[q])@ == value@ {
                let q = choose|q: int| 0 <= q < seen@.len() && (#[trigger] seen@[q])@ == value@;
                assert(texts(seen@)[q] == value@);
            }
        }
        if !listed(&seen, value) {
            let ghost before_seen = seen@;
            seen.push(owned(value));
            proof {
                assert(values@.take(k + 1).drop_last() =~= values@.take(k as int));
                assert(values@.take(k + 1).last() == values@[k as int]);
                assert(texts(seen@) =~= texts(before_seen).push(value@));
                assert(fresh_at(ex, values@, k as int));
                assert forall|x: Seq<char>| #[trigger] texts(seen@).contains(x) <==> (ex.contains(x) || exists|m: int|
                    0 <= m < k + 1 && (#[trigger] values@[m])@ == x) by {
                    assert(texts(seen@) =~= texts(before_seen).push(value@));
                    assert(texts(before_seen).contains(x) <==> (ex.contains(x) || exists|m: int|
                        0 <= m < k && (#[trigger] values@[m])@ == x));
                    if x == value@ {
                        assert(values@[k as int]@ == x);
                        assert(texts(seen@)[texts(seen@).len() - 1] == x);
                    } else {
                        if texts(before_seen).contains(x) {
                            let q = choose|q: int| 0 <= q < texts(before_seen).len() && texts(before_seen)[q] == x;
                            assert(texts(seen@)[q] == x);
                        }
                        if texts(seen@).contains(x) {
                            let q = choose|q: int| 0 <= q < texts(seen@).len() && texts(seen@)[q] == x;
                            assert(texts(before_seen)[q] == x);
                        }
                    }
                }
                lemma_string_kind();
            }
            let record = match scalar("string", None, value, None) {
                Ok(r) => r,
                Err(e) => return Err(e),
            };
            let index = doc.records[array].children.len();
            let cur_len = doc.records.len();
            let ghost before = doc.rs();
            let ghost rm = record@;
            proof {
                lemma_climb_kept(rs0, doc.rs(), doc.roots@, rs0[array as int].tag, array, 0);
            }
            assert(before[array as int].tag == rs0[array as int].tag);
            assert(before[array as int].tag == 6);
            if let Err(e) = attach(doc, j, array, index, record) {
                assert(active_spec(before, doc.roots@, array) is Err);
                assert(active_spec(rs0, old(doc).roots@, array) is Err);
                assert(fresh_at(ex, values@, k as int));
                assert(exists|m: int| 0 <= m < values@.len() && fresh_at(ex, values@, m));
                let ghost f = field_spec(*old(doc), owner, name@)->Ok_0;
                assert(list_spec(*old(doc), f) == Ok::<usize, Seq<char>>(array));
                assert(texts_of(*old(doc), array) == Some(ex));
                assert(active_spec(old(doc).rs(), old(doc).roots@, array) is Err);
                assert(field_spec(*old(doc), owner, name@) == Ok::<usize, Seq<char>>(f));
                assert(!((exists|m: int| 0 <= m < values@.len() && #[trigger] fresh_at(ex, values@, m)) ==> active_spec(
                    old(doc).rs(),
                    old(doc).roots@,
                    array,
                ) is Ok));
                assert(append_ok(*old(doc), owner, name@, values@) ==> active_spec(old(doc).rs(), old(doc).roots@, array) is Ok)
                    by {
                    if append_ok(*old(doc), owner, name@, values@) {
                        assert(list_spec(*old(doc), f) == Ok::<usize, Seq<char>>(array));
                        let ghost e2 = texts_of(*old(doc), array)->Some_0;
                        assert(e2 == ex);
                        assert(fresh_at(e2, values@, k as int));
                        assert(0 <= k < values@.len());
                    }
                }
                return Err(e);
            }
            let grown: usize = doc.records.len();
            proof {
                lemma_attached_kept(before, array, index, rm);
                lemma_kept_trans(rs0, before, doc.rs());
                assert(doc.rs().len() == before.len() + 1);
                assert(grown == doc.records@.len());
                lemma_appended_text(before, doc.rs(), array, index, rm, value@, texts(before_seen));
            }
        } else {
            proof {
                assert(values@.take(k + 1).drop_last() =~= values@.take(k as int));
                assert(values@.take(k + 1).last() == values@[k as int]);
                assert(!fresh_at(ex, values@, k as int));
                assert forall|x: Seq<char>| #[trigger] texts(seen@).contains(x) <==> (ex.contains(x) || exists|m: int|
                    0 <= m < k + 1 && (#[trigger] values@[m])@ == x) by {
                    if x == values@[k as int]@ {
                    }
                }
            }
        }
        k = k + 1;
    }
    assert(values@.take(values@.len() as int) =~= values@);
    Ok(())
}

/// After a string record `rm` holding `value` is attached as the last child of `array`, the
/// list's texts gain `value` at the end.
proof fn lemma_appended_text(
    before: Seq<RecordModel>,
    after: Seq<RecordModel>,
    array: usize,
    index: usize,
    rm: RecordModel,
    value: Seq<char>,
    prev: Seq<Seq<char>>,
)
    requires
        array < before.len(),
        before.len() < usize::MAX,
        index == before[array as int].children.len(),
        after == attached(before, array, index, rm),
        rm.payload == PayloadModel::Text(text_spec(value)),
        forall|k: int| 0 <= k < before[array as int].children.len() ==> #[trigger] before[array as int].children[k] < before.len(),
        prev.len() == before[array as int].children.len(),
        forall|k: int| 0 <= k < prev.len() ==> (#[trigger] before[before[array as int].children[k] as int]).payload is Text
            && prev[k] == display_spec(before[before[array as int].children[k] as int].payload->Text_0),
    ensures
        after[array as int].children == before[array as int].children.push(before.len() as usize),
        forall|k: int| 0 <= k < after[array as int].children.len() ==> (#[trigger] after[after[array as int].children[k] as int]).payload is Text,
        Seq::new(after[array as int].children.len(), |k: int| display_spec(after[after[array as int].children[k] as int].payload->Text_0))
            == prev.push(value),
{
    let ch = before[array as int].children;
    let id = before.len() as usize;
    assert(ch.insert(index as int, id) =~= ch.push(id));
    law_replace_reads_back(StringModel { wide: true, bytes: Seq::empty() }, value);
    assert(replace_spec(StringModel { wide: true, bytes: Seq::empty() }, value) == text_spec(value));
    let ach = after[array as int].children;
    assert forall|k: int| 0 <= k < ach.len() implies (#[trigger] after[ach[k] as int]).payload is Text && display_spec(
        after[ach[k] as int].payload->Text_0,
    ) == prev.push(value)[k] by {
        if k < ch.len() {
            assert(ach[k] == ch[k]);
            assert(after[ch[k] as int].payload == before[ch[k] as int].payload);
        } else {
            assert(ach[k] == id);
            let upd = before.update(array as int, RecordModel { children: ch.insert(index as int, id), ..before[array as int] });
            assert(upd.len() == before.len());
            assert(after == upd.push(RecordModel { parent: Some(array), ..rm }));
            assert(after[id as int] == RecordModel { parent: Some(array), ..rm });
            assert(after[id as int].payload == rm.payload);
        }
    }
    assert(Seq::new(ach.len(), |k: int| display_spec(after[ach[k] as int].payload->Text_0)) =~= prev.push(value));
}

/// The texts of a list after appending `vs` in turn, each value only where the list does
/// not hold it yet.
pub open spec fn appended(ex: Seq<Seq<char>>, vs: Seq<String>) -> Seq<Seq<char>>
    decreases vs.len(),
{
    if vs.len() == 0 {
        ex
    } else {
        let prev = appended(ex, vs.drop_last());
        if prev.contains(vs.last()@) {
            prev
        } else {
            prev.push(vs.last()@)
        }
    }
}

/// The string list at field `name` of `owner`: its array node and its texts.
pub open spec fn list_texts(d: Document, owner: usize, name: Seq<char>) -> Option<(usize, Seq<Seq<char>>)> {
    match field_spec(d, owner, name) {
        Err(_) => None,
        Ok(f) => match list_spec(d, f) {
            Err(_) => None,
            Ok(a) => match texts_of(d, a) {
                None => None,
                Some(t) => Some((a, t)),
            },
        },
    }
}

/// Whether `v` is a valid progression ID: 1 to 256 bytes.
pub open spec fn valid_id(v: Seq<char>) -> bool {
    utf8_len(v) > 0 && utf8_len(v) <= 256
}

/// Whether value `k` of `vs` is new: neither among `ex` nor equal to an earlier value.
pub open spec fn fresh_at(ex: Seq<Seq<char>>, vs: Seq<String>, k: int) -> bool {
    !ex.contains(vs[k]@) && forall|m: int| 0 <= m < k ==> (#[trigger] vs[m])@ != vs[k]@
}

/// Whether appending `values` to list field `name` of `owner` succeeds: the list holds
/// strings, every value is a valid ID, and where one is new the list is live.
pub open spec fn append_ok(d: Document, owner: usize, name: Seq<char>, values: Seq<String>) -> bool {
    match field_spec(d, owner, name) {
        Err(_) => false,
        Ok(f) => match list_spec(d, f) {
            Err(_) => false,
            Ok(a) => match texts_of(d, a) {
                None => false,
                Some(ex) => {
                    &&& forall|k: int| 0 <= k < values.len() ==> valid_id((#[trigger] values[k])@)
                    &&& (exists|k: int| 0 <= k < values.len() && #[trigger] fresh_at(ex, values, k)) ==> active_spec(
                        d.rs(),
                        d.roots@,
                        a,
                    ) is Ok
                },
            },
        },
    }
}

/// The talent branches, in save order.
fn talents(doc: &Document) -> (r: Result<Vec<usize>, Error>)
    requires
        doc.wf(),
    ensures
        match talents_spec(*doc) {
            Ok(s) => r matches Ok(v) && v@ == s,
            Err(m) => r matches Err(e) && e.0@ == m,
        },
        r matches Ok(v) ==> forall|k: int| 0 <= k < v@.len() ==> #[trigger] v@[k] < doc.records@.len(),
{
    let system = match root_field(doc, "talentSystemData") {
        Ok(s) => s,
        Err(e) => return Err(e),
    };
    let list = match field(doc, system, "talentData") {
        Ok(l) => l,
        Err(e) => return Err(e),
    };
    let items = match array(doc, list) {
        Ok(a) => a,
        Err(e) => return Err(e),
    };
    assert(doc.rs()[items as int] == doc.records@[items as int]@);
    let children = &doc.records[items].children;
    let ghost ids = children@;
    let mut out: Vec<usize> = Vec::new();
    proof {
        assert(ids.subrange(0, ids.len() as int) =~= ids);
        assert forall|t: Seq<usize>| #[trigger] (out@ + t) == t by {
            assert(out@ + t =~= t);
        }
    }
    let mut k: usize = 0;
    while k < children.len()
        invariant
            doc.wf(),
            items < doc.records@.len(),
            children@ == doc.rs()[items as int].children,
            ids == children@,
            talents_spec(*doc) == resolved_all(*doc, ids),
            k <= ids.len(),
            forall|m: int| 0 <= m < out@.len() ==> #[trigger] out@[m] < doc.records@.len(),
            resolved_all(*doc, ids) == match resolved_all(*doc, ids.subrange(k as int, ids.len() as int)) {
                Err(m) => Err(m),
                Ok(t) => Ok(out@ + t),
            },
        decreases ids.len() - k,
    {
        let ghost rest = ids.subrange(k as int, ids.len() as int);
        assert(rest[0] == ids[k as int]);
        assert(rest.subrange(1, rest.len() as int) =~= ids.subrange(k + 1, ids.len() as int));
        let n = match resolve(doc, children[k]) {
            Ok(n) => n,
            Err(e) => return Err(e),
        };
        proof {
            lemma_resolve_range(*doc, children@[k as int]);
        }
        let ghost before = out@;
        out.push(n);
        proof {
            assert forall|t: Seq<usize>| #[trigger] (before + (seq![n] + t)) == out@ + t by {
                assert(before + (seq![n] + t) =~= out@ + t);
            }
        }
        k = k + 1;
    }
    proof {
        assert(ids.subrange(k as int, ids.len() as int) =~= Seq::<usize>::empty());
        assert(out@ + Seq::<usize>::empty() =~= out@);
    }
    Ok(out)
}

/// The text of field `name` of `owner`, where it is a string.
fn id_of(doc: &Document, owner: usize, name: &str) -> (r: Option<String>)
    requires
        doc.wf(),
    ensures
        match id_spec(*doc, owner, name@) {
            Some(t) => r matches Some(v) && v@ == t,
            None => r is None,
        },
{
    match field(doc, owner, name) {
        Ok(n) => {
            proof {
                lemma_field_in_range(*doc, owner, name@);
            }
            assert(doc.rs()[n as int] == doc.records@[n as int]@);
            match &doc.records[n].payload {
                Payload::Text(v) => Some(v.display()),
                _ => None,
            }
        },
        Err(_) => None,
    }
}

/// The first talent branch whose ID is `id`.
fn talent(doc: &Document, id: &str) -> (r: Result<usize, Error>)
    requires
        doc.wf(),
    ensures
        match talent_spec(*doc, id@) {
            Ok(n) => r == Ok::<usize, Error>(n),
            Err(m) => r matches Err(e) && e.0@ == m,
        },
        r matches Ok(n) ==> n < doc.records@.len(),
{
    let all = match talents(doc) {
        Ok(v) => v,
        Err(e) => return Err(e),
    };
    let ghost s = all@;
    assert(s.subrange(0, s.len() as int) =~= s);
    let mut k: usize = 0;
    while k < all.len()
        invariant
            doc.wf(),
            s == all@,
            talents_spec(*doc) == Ok::<Seq<usize>, Seq<char>>(s),
            k <= s.len(),
            forall|m: int| 0 <= m < all@.len() ==> #[trigger] all@[m] < doc.records@.len(),
            first_with_id(*doc, s, id@) == match first_with_id(*doc, s.subrange(k as int, s.len() as int), id@) {
                Some(i) => Some(i + k),
                None => None,
            },
        decreases s.len() - k,
    {
        let ghost rest = s.subrange(k as int, s.len() as int);
        assert(rest[0] == s[k as int]);
        assert(rest.subrange(1, rest.len() as int) =~= s.subrange(k + 1, s.len() as int));
        match id_of(doc, all[k], "id") {
            Some(v) => {
                if same_text(v.as_str(), id) {
                    return Ok(all[k]);
                }
            },
            None => {},
        }
        k = k + 1;
    }
    assert(s.subrange(k as int, s.len() as int).len() == 0);
    Err(failure("Unknown talent branch"))
}

/// Sets int32 field `name` of `owner` to `value`, a nonnegative 32-bit integer.
fn set_i32(doc: &mut Document, j: &mut Journal, owner: usize, name: &str, value: &str) -> (r: Result<(), Error>)
    requires
        old(doc).wf(),
        tracks(old(j), old(doc).rs()),
    ensures
        write_frame(*old(doc), *final(doc), old(j), final(j)),
        edit_result(set_i32_spec(*old(doc), owner, name@, value@), *old(doc), *final(doc), r),
        int32_of(value@) is None ==> (r matches Err(e) && e.0@ == "Enter a 32-bit integer"@ && *final(doc) == *old(doc)),
        int32_of(value@) matches Some(v) && v < 0 ==> (r matches Err(e) && e.0@ == "Enter a nonnegative integer"@
            && *final(doc) == *old(doc)),
        r is Ok ==> (int32_of(value@) matches Some(v) && v >= 0),
{
    let parsed = match parse_integer(value, -2147483648, 2147483647) {
        Some(v) => v,
        None => return Err(failure("Enter a 32-bit integer")),
    };
    if parsed < 0 {
        return Err(failure("Enter a nonnegative integer"));
    }
    let node = match field(doc, owner, name) {
        Ok(n) => n,
        Err(e) => return Err(e),
    };
    proof {
        lemma_field_in_range(*doc, owner, name@);
    }
    assert(doc.rs()[node as int] == doc.records@[node as int]@);
    let tag = doc.records[node].tag;
    if base_tag(tag) != 24 {
        return Err(failure("Progression field is not int32"));
    }
    set_node(doc, j, node, tag, value, None)
}

/// The display text of field `name` of `owner`, empty where it shows none.
fn shown_text(doc: &Document, owner: usize, name: &str) -> (r: Result<String, Error>)
    requires
        doc.wf(),
    ensures
        field_spec(*doc, owner, name@) matches Err(m) ==> (r matches Err(e) && e.0@ == m),
        field_spec(*doc, owner, name@) matches Ok(n) ==> (r matches Ok(t) && t@ == match value_text(doc.rs()[n as int]) {
            Some(v) => v,
            None => Seq::empty(),
        }),
{
    let n = match field(doc, owner, name) {
        Ok(n) => n,
        Err(e) => return Err(e),
    };
    proof {
        lemma_field_in_range(*doc, owner, name@);
    }
    match view(doc, n).value {
        Some(t) => Ok(t),
        None => Ok(String::new()),
    }
}

/// The unlocked technologies and every talent branch with its counters, studied levels and
/// inspirations.
#[verifier::loop_isolation(false)]
pub fn read(doc: &Document) -> (r: Result<Progression, Error>)
    requires
        doc.wf(),
    ensures
        doc.roots@.len() == 0 ==> (r matches Err(e) && e.0@ == "Missing root"@),
        r matches Ok(p) ==> (doc.roots@.len() > 0 && (field_spec(*doc, doc.roots@[0], "knowledgeSystem"@) matches Ok(k)
            && field_spec(*doc, k, "unlockedTechs"@) matches Ok(f) && list_spec(*doc, f) matches Ok(a) && texts_of(*doc, a)
            == Some(texts(p.unlocked_technologies@)))),
        r matches Ok(p) ==> (talents_spec(*doc) matches Ok(s) && p.talents@.len() == s.len() && forall|k: int|
            0 <= k < s.len() ==> branch_shown(*doc, s[k], #[trigger] p.talents@[k])),
{
    let knowledge = match root_field(doc, "knowledgeSystem") {
        Ok(k) => k,
        Err(e) => return Err(e),
    };
    let (_, unlocked) = match string_list(doc, knowledge, "unlockedTechs") {
        Ok(l) => l,
        Err(e) => return Err(e),
    };
    let nodes = match talents(doc) {
        Ok(v) => v,
        Err(e) => return Err(e),
    };
    let mut branches: Vec<TalentBranch> = Vec::new();
    let mut k: usize = 0;
    while k < nodes.len()
        invariant
            doc.wf(),
            forall|m: int| 0 <= m < nodes@.len() ==> #[trigger] nodes@[m] < doc.records@.len(),
            talents_spec(*doc) == Ok::<Seq<usize>, Seq<char>>(nodes@),
            k <= nodes@.len(),
            branches@.len() == k,
            forall|i: int| 0 <= i < k ==> branch_shown(*doc, nodes@[i], #[trigger] branches@[i]),
        decreases nodes@.len() - k,
    {
        let node = nodes[k];
        let id_node = match field(doc, node, "id") {
            Ok(n) => n,
            Err(e) => return Err(e),
        };
        proof {
            lemma_field_in_range(*doc, node, "id"@);
        }
        let id = match text_value(doc, id_node) {
            Ok(v) => v,
            Err(e) => return Err(e),
        };
        let cur_exp = match shown_text(doc, node, "curExp") {
            Ok(v) => v,
            Err(e) => return Err(e),
        };
        let cur_talent_level = match shown_text(doc, node, "curTalentLevel") {
            Ok(v) => v,
            Err(e) => return Err(e),
        };
        let talent_exp_points = match shown_text(doc, node, "talentExpPoints") {
            Ok(v) => v,
            Err(e) => return Err(e),
        };
        let cur_talent_value = match shown_text(doc, node, "curTalentValue") {
            Ok(v) => v,
            Err(e) => return Err(e),
        };
        let (_, studied) = match string_list(doc, node, "studiedLevelUps") {
            Ok(l) => l,
            Err(e) => return Err(e),
        };
        let progress = match field(doc, node, "inspirationsProgression") {
            Ok(f) => f,
            Err(e) => return Err(e),
        };
        let list = match array(doc, progress) {
            Ok(a) => a,
            Err(e) => return Err(e),
        };
        assert(doc.rs()[list as int] == doc.records@[list as int]@);
        let entries = &doc.records[list].children;
        let mut inspirations: Vec<Inspiration> = Vec::new();
        let mut m: usize = 0;
        while m < entries.len()
            invariant
                doc.wf(),
                list < doc.records@.len(),
                entries@ == doc.rs()[list as int].children,
                m <= entries@.len(),
                inspirations@.len() == m,
                forall|i: int| 0 <= i < m ==> inspiration_shown(*doc, entries@[i], #[trigger] inspirations@[i]),
            decreases entries@.len() - m,
        {
            let entry = match resolve(doc, entries[m]) {
                Ok(e) => e,
                Err(e) => return Err(e),
            };
            proof {
                lemma_resolve_range(*doc, entries@[m as int]);
            }
            let id_node = match field(doc, entry, "id") {
                Ok(n) => n,
                Err(e) => return Err(e),
            };
            proof {
                lemma_field_in_range(*doc, entry, "id"@);
            }
            let inspiration_id = match text_value(doc, id_node) {
                Ok(v) => v,
                Err(e) => return Err(e),
            };
            let current_value = match shown_text(doc, entry, "currentValue") {
                Ok(v) => v,
                Err(e) => return Err(e),
            };
            let completion_goal_value = match shown_text(doc, entry, "completionGoalValue") {
                Ok(v) => v,
                Err(e) => return Err(e),
            };
            inspirations.push(Inspiration { id: inspiration_id, current_value, completion_goal_value });
            m = m + 1;
        }
        branches.push(
            TalentBranch {
                id,
                cur_exp,
                cur_talent_level,
                talent_exp_points,
                cur_talent_value,
                studied_level_ups: studied,
                inspirations,
            },
        );
        k = k + 1;
    }
    Ok(Progression { unlocked_technologies: unlocked, talents: branches })
}

fn find_template(templates: &Vec<Template>, id: &str) -> (r: Option<usize>)
    ensures
        r matches Some(k) ==> k < templates@.len() && templates@[k as int].id@ == id@ && forall|m: int|
            0 <= m < k ==> (#[trigger] templates@[m]).id@ != id@,
        r is None ==> forall|m: int| 0 <= m < templates@.len() ==> (#[trigger] templates@[m]).id@ != id@,
{
    let mut k: usize = 0;
    while k < templates.len()
        invariant
            k <= templates@.len(),
            forall|m: int| 0 <= m < k ==> (#[trigger] templates@[m]).id@ != id@,
        decreases templates@.len() - k,
    {
        if same_text(templates[k].id.as_str(), id) {
            return Some(k);
        }
        k = k + 1;
    }
    None
}

/// Appends a node built from template `id` at the end of `parent`.
fn from_template(doc: &mut Document, j: &mut Journal, parent: usize, id: &str, values: &Vec<TemplateValue>, templates: &Vec<Template>) -> (r: Result<usize, Error>)
    requires
        old(doc).wf(),
        tracks(old(j), old(doc).rs()),
    ensures
        write_frame(*old(doc), *final(doc), old(j), final(j)),
        r matches Ok(n) ==> n < final(doc).records@.len(),
        r matches Ok(n) ==> n == old(doc).records@.len() && final(doc).rs()[n as int].parent == Some(parent),
        r matches Ok(n) ==> final(doc).rs()[parent as int].children == old(doc).rs()[parent as int].children.push(n) && forall|i: int|
            0 <= i < old(doc).records@.len() && i != parent ==> #[trigger] final(doc).rs()[i] == old(doc).rs()[i],
        r is Ok <==> exists|k: int|
            0 <= k < templates@.len() && (#[trigger] templates@[k]).id@ == id@ && (forall|m: int|
                0 <= m < k ==> (#[trigger] templates@[m]).id@ != id@) && parent < old(doc).records@.len() && template_room(
                *old(doc),
                parent,
                old(doc).rs()[parent as int].children.len() as usize,
                false,
                templates@[k],
                values@,
            ),
{
    let t = match find_template(templates, id) {
        Some(t) => t,
        None => return Err(failure("Unknown template")),
    };
    if parent >= doc.records.len() {
        return Err(failure("Unknown node"));
    }
    assert(doc.rs()[parent as int] == doc.records@[parent as int]@);
    let index = doc.records[parent].children.len();
    let ghost before = doc.rs();
    let r = create_template(doc, j, parent, index, None, &templates[t], values);
    proof {
        if let Ok(n) = r {
            assert(doc.rs()[parent as int] == doc.rs().take(before.len() as int)[parent as int]);
            assert(before[parent as int].children.insert(index as int, n) =~= before[parent as int].children.push(n));
            assert forall|i: int| 0 <= i < before.len() && i != parent implies #[trigger] doc.rs()[i] == before[i] by {
                assert(doc.rs()[i] == doc.rs().take(before.len() as int)[i]);
            }
        }
    }
    r
}

/// Whether field `name` of `owner` is an int32 that holds the number that the text `value`
/// denotes.
pub open spec fn stores_i32(d: Document, owner: usize, name: Seq<char>, value: Seq<char>) -> bool {
    &&& field_spec(d, owner, name) matches Ok(n)
    &&& int32_of(value) matches Some(v)
    &&& spec_base_tag(d.rs()[n as int].tag) == 24
    &&& d.rs()[n as int].payload == PayloadModel::Fixed(le_bytes(twos(v, 32), 4))
}

/// Whether field `name` of `owner` is an int32 whose bytes read as the number `v`.
pub open spec fn reads_i32(d: Document, owner: usize, name: Seq<char>, v: int) -> bool {
    field_spec(d, owner, name) matches Ok(n) && (d.rs()[n as int].payload matches PayloadModel::Fixed(b) && integer_value(
        24,
        b,
    ) == Some(v))
}

/// A nonnegative int32 field that holds the number a text denotes reads back as that number.
proof fn lemma_stores_reads(d: Document, owner: usize, name: Seq<char>, value: Seq<char>)
    requires
        stores_i32(d, owner, name, value),
        int32_of(value) matches Some(v) && v >= 0,
    ensures
        reads_i32(d, owner, name, int32_of(value)->Some_0),
{
    let v = int32_of(value)->Some_0;
    lemma_pow_values();
    assert(0 <= v <= 2147483647);
    assert(twos(v, 32) == v);
    lemma_le_bytes_value(v as nat, 4);
    crate::endian::lemma_le_bytes_len(v as nat, 4);
    let b = le_bytes(v as nat, 4);
    assert(crate::service::integer_format(24) == Some((4nat, true)));
    assert(crate::endian::signed(crate::endian::le_value(b), 32) == v);
    assert(integer_value(24, b) == Some(v));
}

/// Whether `e` is an inspiration entry of list `list` with ID `id`: what one of the list's
/// children leads to, whose `id` text is `id`.
pub open spec fn inspiration_in(d: Document, list: usize, id: Seq<char>, e: usize) -> bool {
    exists|k: int|
        0 <= k < d.rs()[list as int].children.len() && #[trigger] resolve_spec(d, d.rs()[list as int].children[k])
            == Ok::<usize, Seq<char>>(e) && id_spec(d, e, "id"@) == Some(id)
}

/// Whether `d2` holds the inspiration progress `current_value` of `completion_goal_value`
/// for ID `id` in list `list` of `d`: in an entry of the list with that ID where there is
/// one, else in a new entry of the list, the goal field holds `completion_goal_value` and the current
/// field holds `current_value` (where the two fields are distinct records).
pub open spec fn inspiration_stored(
    d: Document,
    d2: Document,
    list: usize,
    id: Seq<char>,
    current_value: Seq<char>,
    completion_goal_value: Seq<char>,
) -> bool {
    exists|e: usize|
        #[trigger] stores_i32(d2, e, "completionGoalValue"@, completion_goal_value) && (if exists|e0: usize|
            inspiration_in(d, list, id, e0) {
            inspiration_in(d, list, id, e)
        } else {
            d.rs().len() <= e && d2.rs()[e as int].parent == Some(list)
        }) && (field_spec(d2, e, "currentValue"@) != field_spec(
            d2,
            e,
            "completionGoalValue"@,
        ) ==> stores_i32(d2, e, "currentValue"@, current_value))
}

/// An accepted inspiration edit leaves the inspiration of that ID in the talent branch's
/// progress list (an entry of the list that has the ID where there is one, else a new entry
/// of the list) with its completion goal field holding `completion_goal_value` and its
/// current value field holding `current_value`, each as an int32 whose bytes read back as
/// that number (where the two fields are distinct records).
pub proof fn law_inspiration_progress(d: Document, d2: Document, edit: Edit, r: Result<(), Error>)
    requires
        write_result(d, d2, edit, r),
        r is Ok,
        edit is SetInspiration,
    ensures
        edit matches Edit::SetInspiration { talent, id, current_value, completion_goal_value } && (talent_spec(d, talent@) matches Ok(b)
            && (field_spec(d, b, "inspirationsProgression"@) matches Ok(f) && (list_spec(d, f) matches Ok(list) && exists|e: usize|
            #[trigger] stores_i32(d2, e, "completionGoalValue"@, completion_goal_value@) && (if exists|e0: usize|
                inspiration_in(d, list, id@, e0) {
                inspiration_in(d, list, id@, e)
            } else {
                d.rs().len() <= e && d2.rs()[e as int].parent == Some(list)
            }) && reads_i32(d2, e, "completionGoalValue"@, int32_of(completion_goal_value@)->Some_0) && (field_spec(
                d2,
                e,
                "currentValue"@,
            ) != field_spec(d2, e, "completionGoalValue"@) ==> stores_i32(d2, e, "currentValue"@, current_value@) && reads_i32(
                d2,
                e,
                "currentValue"@,
                int32_of(current_value@)->Some_0,
            ))))),
{
    if let Edit::SetInspiration { talent, id, current_value, completion_goal_value } = edit {
        let b = talent_spec(d, talent@)->Ok_0;
        let f = field_spec(d, b, "inspirationsProgression"@)->Ok_0;
        let list = list_spec(d, f)->Ok_0;
        let e = choose|e: usize| #[trigger]
            stores_i32(d2, e, "completionGoalValue"@, completion_goal_value@) && (if exists|e0: usize|
                inspiration_in(d, list, id@, e0) {
                inspiration_in(d, list, id@, e)
            } else {
                d.rs().len() <= e && d2.rs()[e as int].parent == Some(list)
            }) && (field_spec(d2, e, "currentValue"@) != field_spec(
                d2,
                e,
                "completionGoalValue"@,
            ) ==> stores_i32(d2, e, "currentValue"@, current_value@));
        lemma_stores_reads(d2, e, "completionGoalValue"@, completion_goal_value@);
        if field_spec(d2, e, "currentValue"@) != field_spec(d2, e, "completionGoalValue"@) {
            lemma_stores_reads(d2, e, "currentValue"@, current_value@);
        }
    }
}

proof fn lemma_set_i32_stores(d: Document, d2: Document, owner: usize, name: Seq<char>, value: Seq<char>)
    requires
        set_i32_spec(d, owner, name, value) is Ok,
        d2.rs() == set_i32_spec(d, owner, name, value)->Ok_0,
        d2.roots@ == d.roots@,
        d2.objects@ == d.objects@,
    ensures
        stores_i32(d2, owner, name, value),
        payload_only(d.rs(), d2.rs(), field_spec(d, owner, name)->Ok_0 as int),
        field_spec(d2, owner, name) == field_spec(d, owner, name),
{
    let n = field_spec(d, owner, name)->Ok_0;
    let v = int32_of(value)->Some_0;
    lemma_pow_values();
    let r = d.rs()[n as int];
    assert(d2.rs()[n as int].payload == PayloadModel::Fixed(le_bytes(twos(v, 32), 4)));
    assert(payload_only(d.rs(), d2.rs(), n as int));
    lemma_field_payload(d, d2, n as int, owner, name);
}

/// The `id` texts of the entries that the list children `cs` lead to, in order, skipping
/// those without one.
pub open spec fn entry_ids(d: Document, cs: Seq<usize>) -> Seq<Seq<char>>
    decreases cs.len(),
{
    if cs.len() == 0 {
        Seq::empty()
    } else {
        entry_ids(d, cs.drop_last()) + match resolve_spec(d, cs.last()) {
            Ok(n) => match id_spec(d, n, "id"@) {
                Some(v) => seq![v],
                None => Seq::empty(),
            },
            Err(_) => Seq::empty(),
        }
    }
}

/// How many of `perks` have an ID that is not among `active`.
pub open spec fn new_perk_count(perks: Seq<PerkUnlock>, active: Seq<Seq<char>>) -> nat
    decreases perks.len(),
{
    if perks.len() == 0 {
        0
    } else {
        new_perk_count(perks.drop_last(), active) + if active.contains(perks.last().id@) {
            0nat
        } else {
            1nat
        }
    }
}

proof fn lemma_new_perk_count(perks: Seq<PerkUnlock>, active: Seq<Seq<char>>)
    ensures
        (forall|k: int| 0 <= k < perks.len() ==> active.contains(#[trigger] perks[k].id@)) ==> new_perk_count(perks, active) == 0,
        (forall|k: int| 0 <= k < perks.len() ==> !active.contains(#[trigger] perks[k].id@)) ==> new_perk_count(perks, active)
            == perks.len(),
    decreases perks.len(),
{
    if perks.len() > 0 {
        lemma_new_perk_count(perks.drop_last(), active);
        assert(perks.last() == perks[perks.len() - 1]);
        if forall|k: int| 0 <= k < perks.len() ==> active.contains(#[trigger] perks[k].id@) {
            assert forall|k: int| 0 <= k < perks.drop_last().len() implies active.contains(#[trigger] perks.drop_last()[k].id@) by {
                assert(perks.drop_last()[k] == perks[k]);
            }
        }
        if forall|k: int| 0 <= k < perks.len() ==> !active.contains(#[trigger] perks[k].id@) {
            assert forall|k: int| 0 <= k < perks.drop_last().len() implies !active.contains(#[trigger] perks.drop_last()[k].id@) by {
                assert(perks.drop_last()[k] == perks[k]);
            }
        }
    }
}

/// An accepted unlock with perk rewards appends to the active perk list of the perk system
/// (as the technology and reward lists left it) one new entry for each reward perk whose ID
/// no entry of the list has, after the entries it had: where every reward perk is already
/// active the list is unchanged, and where none is, one entry is appended per reward perk.
pub proof fn law_perk_rewards(d: Document, d2: Document, edit: Edit, r: Result<(), Error>)
    requires
        write_result(d, d2, edit, r),
        r is Ok,
        edit matches Edit::UnlockTechnologies { rewards, .. } && rewards.perks@.len() > 0,
    ensures
        edit matches Edit::UnlockTechnologies { ids, rewards } && exists|ds: Seq<Document>|
            #[trigger] unlock_steps(
                ds,
                root_field_spec(d, "knowledgeSystem"@)->Ok_0,
                ids@,
                rewards.crafts@,
                rewards.alchemy_formulas@,
                rewards.buildings@,
                rewards.town_buildings@,
            ) && ds[0] == d && (root_field_spec(ds[5], "perkSystemData"@) matches Ok(sys) && (field_spec(ds[5], sys, "activePerks"@) matches Ok(f)
                && (list_spec(ds[5], f) matches Ok(list) && {
                let cs = ds[5].rs()[list as int].children;
                let cs2 = d2.rs()[list as int].children;
                let active = entry_ids(ds[5], cs);
                &&& cs2.take(cs.len() as int) == cs
                &&& cs2.len() == cs.len() + new_perk_count(rewards.perks@, active)
                &&& forall|i: int| cs.len() <= i < cs2.len() ==> ds[5].rs().len() <= #[trigger] cs2[i] && d2.rs()[cs2[i] as int].parent == Some(list)
                &&& (forall|k: int| 0 <= k < rewards.perks@.len() ==> active.contains(#[trigger] rewards.perks@[k].id@)) ==> cs2 == cs
                &&& (forall|k: int| 0 <= k < rewards.perks@.len() ==> !active.contains(#[trigger] rewards.perks@[k].id@)) ==> cs2.len()
                    == cs.len() + rewards.perks@.len()
            }))),
{
    if let Edit::UnlockTechnologies { ids, rewards } = edit {
        let kn = root_field_spec(d, "knowledgeSystem"@)->Ok_0;
        let ds = choose|ds: Seq<Document>|
            #[trigger] unlock_steps(
                ds,
                kn,
                ids@,
                rewards.crafts@,
                rewards.alchemy_formulas@,
                rewards.buildings@,
                rewards.town_buildings@,
            ) && ds[0] == d && (rewards.perks@.len() == 0 ==> ds[5] == d2) && (rewards.perks@.len() > 0 ==> perks_added(
                ds[5],
                d2,
                rewards.perks@,
            ));
        let m = ds[5];
        let sys = root_field_spec(m, "perkSystemData"@)->Ok_0;
        let f = field_spec(m, sys, "activePerks"@)->Ok_0;
        let list = list_spec(m, f)->Ok_0;
        let cs = m.rs()[list as int].children;
        let cs2 = d2.rs()[list as int].children;
        lemma_new_perk_count(rewards.perks@, entry_ids(m, cs));
        if cs2.len() == cs.len() {
            assert(cs2 =~= cs2.take(cs.len() as int));
        }
    }
}

/// Whether `d2` has the active perk list of `d` with one new entry appended for each of
/// `perks` whose ID no entry of the list has, in order, and no other entry.
pub open spec fn perks_added(d: Document, d2: Document, perks: Seq<PerkUnlock>) -> bool {
    &&& root_field_spec(d, "perkSystemData"@) matches Ok(sys)
    &&& field_spec(d, sys, "activePerks"@) matches Ok(f)
    &&& list_spec(d, f) matches Ok(list)
    &&& {
        let cs = d.rs()[list as int].children;
        let cs2 = d2.rs()[list as int].children;
        &&& cs2.len() == cs.len() + new_perk_count(perks, entry_ids(d, cs))
        &&& cs2.take(cs.len() as int) == cs
        &&& forall|i: int| cs.len() <= i < cs2.len() ==> d.rs().len() <= #[trigger] cs2[i] && d2.rs()[cs2[i] as int].parent == Some(list)
    }
}

/// Whether a talent counter may be set directly.
pub open spec fn talent_field(name: Seq<char>) -> bool {
    name == "curExp"@ || name == "curTalentLevel"@ || name == "talentExpPoints"@ || name == "curTalentValue"@
}

/// Whether the string list `name` of `owner` in `d2` holds what it held in `d` with
/// `values` appended, each only where the list lacked it; where nothing is new, no record
/// changes.
pub open spec fn appended_to(d: Document, d2: Document, owner: usize, name: Seq<char>, values: Seq<String>) -> bool {
    list_texts(d, owner, name) matches Some((a, ex)) && texts_of(d2, a) == Some(appended(ex, values)) && (appended(ex, values)
        == ex ==> d2.rs() == d.rs())
}

/// Whether `ds` are the documents that unlocking `ids` with rewards `rw` passes through: the
/// technology list, then the craft, alchemy formula, building and town building lists of
/// knowledge system `kn`, each extended in turn.
pub open spec fn unlock_steps(
    ds: Seq<Document>,
    kn: usize,
    ids: Seq<String>,
    crafts: Seq<String>,
    alchemy_formulas: Seq<String>,
    buildings: Seq<String>,
    town_buildings: Seq<String>,
) -> bool {
    &&& ds.len() == 6
    &&& appended_to(ds[0], ds[1], kn, "unlockedTechs"@, ids)
    &&& appended_to(ds[1], ds[2], kn, "unlockedCrafts"@, crafts)
    &&& appended_to(ds[2], ds[3], kn, "unlockedAlchemyFormulas"@, alchemy_formulas)
    &&& appended_to(ds[3], ds[4], kn, "unlockedBuildings"@, buildings)
    &&& appended_to(ds[4], ds[5], kn, "unlockedTownBuildings"@, town_buildings)
}

/// Whether unlocking `ids` with the rewards `crafts`, `alchemy_formulas`, `buildings` and
/// `town_buildings` into knowledge system `kn` of `d` succeeds whatever the earlier appends
/// left: each list can take its values in the document that the lists before it leave.
pub open spec fn unlock_owed(
    d: Document,
    kn: usize,
    ids: Seq<String>,
    crafts: Seq<String>,
    alchemy_formulas: Seq<String>,
    buildings: Seq<String>,
    town_buildings: Seq<String>,
) -> bool {
    &&& append_ok(d, kn, "unlockedTechs"@, ids)
    &&& forall|d1: Document| #[trigger] appended_to(d, d1, kn, "unlockedTechs"@, ids) ==> {
        &&& append_ok(d1, kn, "unlockedCrafts"@, crafts)
        &&& forall|d2: Document| #[trigger] appended_to(d1, d2, kn, "unlockedCrafts"@, crafts) ==> {
            &&& append_ok(d2, kn, "unlockedAlchemyFormulas"@, alchemy_formulas)
            &&& forall|d3: Document| #[trigger] appended_to(d2, d3, kn, "unlockedAlchemyFormulas"@, alchemy_formulas) ==> {
                &&& append_ok(d3, kn, "unlockedBuildings"@, buildings)
                &&& forall|d4: Document| #[trigger] appended_to(d3, d4, kn, "unlockedBuildings"@, buildings) ==> append_ok(
                    d4,
                    kn,
                    "unlockedTownBuildings"@,
                    town_buildings,
                )
            }
        }
    }
}

/// Appends the unlocked technologies and their craft, alchemy formula, building and town
/// building rewards to the lists of knowledge system `kn`, in that order.
fn unlock_lists(
    doc: &mut Document,
    j: &mut Journal,
    kn: usize,
    ids: Vec<String>,
    crafts: Vec<String>,
    alchemy_formulas: Vec<String>,
    buildings: Vec<String>,
    town_buildings: Vec<String>,
) -> (r: Result<(), Error>)
    requires
        old(doc).wf(),
        tracks(old(j), old(doc).rs()),
    ensures
        write_frame(*old(doc), *final(doc), old(j), final(j)),
        r is Ok ==> append_ok(*old(doc), kn, "unlockedTechs"@, ids@),
        unlock_owed(*old(doc), kn, ids@, crafts@, alchemy_formulas@, buildings@, town_buildings@) ==> r is Ok,
        r is Ok ==> exists|ds: Seq<Document>|
            #[trigger] unlock_steps(ds, kn, ids@, crafts@, alchemy_formulas@, buildings@, town_buildings@) && ds[0] == *old(doc) && ds[5]
                == *final(doc),
{
    let ghost d0 = *doc;
    let ghost gi = ids@;
    let ghost gc = crafts@;
    let ghost ga = alchemy_formulas@;
    let ghost gb = buildings@;
    if let Err(e) = append_strings(doc, j, kn, "unlockedTechs", ids) {
        return Err(e);
    }
    let ghost d1 = *doc;
    assert(appended_to(d0, d1, kn, "unlockedTechs"@, gi));
    if let Err(e) = append_strings(doc, j, kn, "unlockedCrafts", crafts) {
        return Err(e);
    }
    let ghost d2 = *doc;
    assert(appended_to(d1, d2, kn, "unlockedCrafts"@, gc));
    if let Err(e) = append_strings(doc, j, kn, "unlockedAlchemyFormulas", alchemy_formulas) {
        return Err(e);
    }
    let ghost d3 = *doc;
    assert(appended_to(d2, d3, kn, "unlockedAlchemyFormulas"@, ga));
    if let Err(e) = append_strings(doc, j, kn, "unlockedBuildings", buildings) {
        return Err(e);
    }
    let ghost d4 = *doc;
    assert(appended_to(d3, d4, kn, "unlockedBuildings"@, gb));
    if let Err(e) = append_strings(doc, j, kn, "unlockedTownBuildings", town_buildings) {
        return Err(e);
    }
    let ghost chain = seq![d0, d1, d2, d3, d4, *doc];
    assert(unlock_steps(chain, kn, ids@, crafts@, alchemy_formulas@, buildings@, town_buildings@));
    Ok(())
}

/// Adds to the active perk list of the perk system an entry built from the `perk-data`
/// template for each of `perks` whose ID no entry of the list has yet.
#[verifier::loop_isolation(false)]
#[verifier::rlimit(60)]
#[verifier::spinoff_prover]
fn add_perks(doc: &mut Document, j: &mut Journal, perks: &Vec<PerkUnlock>, templates: &Vec<Template>) -> (r: Result<(), Error>)
    requires
        old(doc).wf(),
        tracks(old(j), old(doc).rs()),
    ensures
        write_frame(*old(doc), *final(doc), old(j), final(j)),
        r is Ok ==> perks_added(*old(doc), *final(doc), perks@),
{
    let system = match root_field(doc, "perkSystemData") {
        Ok(p) => p,
        Err(e) => return Err(e),
    };
    let active = match field(doc, system, "activePerks") {
        Ok(f) => f,
        Err(e) => return Err(e),
    };
    let list = match array(doc, active) {
        Ok(a) => a,
        Err(e) => return Err(e),
    };
    assert(doc.rs()[list as int] == doc.records@[list as int]@);
    let ghost ds5 = *doc;
    let ghost cs = ds5.rs()[list as int].children;
    let mut existing: Vec<String> = Vec::new();
    let mut k: usize = 0;
    proof {
        assert(cs.take(0) =~= Seq::<usize>::empty());
        assert(existing@.map_values(|s: String| s@) =~= entry_ids(ds5, cs.take(0)));
    }
    while k < doc.records[list].children.len()
        invariant
            doc.wf(),
            *doc == ds5,
            list < doc.records@.len(),
            cs == doc.rs()[list as int].children,
            k <= cs.len(),
            existing@.map_values(|s: String| s@) == entry_ids(ds5, cs.take(k as int)),
        decreases doc.records@[list as int].children@.len() - k,
    {
        assert(doc.rs()[list as int] == doc.records@[list as int]@);
        assert(doc.rs()[list as int].children[k as int] < doc.rs().len());
        let ghost before = existing@;
        proof {
            assert(cs.take(k + 1).drop_last() =~= cs.take(k as int));
            assert(cs.take(k + 1).last() == cs[k as int]);
        }
        match resolve(doc, doc.records[list].children[k]) {
            Ok(n) => match id_of(doc, n, "id") {
                Some(v) => {
                    existing.push(v);
                    proof {
                        assert(existing@.map_values(|s: String| s@) =~= before.map_values(|s: String| s@) + seq![
                            id_spec(ds5, n, "id"@)->Some_0,
                        ]);
                    }
                },
                None => {
                    assert(existing@.map_values(|s: String| s@) =~= before.map_values(|s: String| s@) + Seq::<
                        Seq<char>,
                    >::empty());
                },
            },
            Err(_) => {
                assert(existing@.map_values(|s: String| s@) =~= before.map_values(|s: String| s@) + Seq::<
                    Seq<char>,
                >::empty());
            },
        }
        k = k + 1;
    }
    let ghost ex = entry_ids(ds5, cs);
    let ghost mut added: Seq<usize> = Seq::empty();
    proof {
        assert(cs.take(cs.len() as int) =~= cs);
        assert(perks@.take(0) =~= Seq::<PerkUnlock>::empty());
        assert(doc.rs()[list as int].children =~= cs + added);
    }
    let mut p: usize = 0;
    while p < perks.len()
        invariant
            p <= perks@.len(),
            list < ds5.records@.len(),
            list < doc.records@.len(),
            existing@.map_values(|s: String| s@) == ex,
            doc.rs()[list as int].children == cs + added,
            added.len() == new_perk_count(perks@.take(p as int), ex),
            forall|i: int| 0 <= i < added.len() ==> ds5.rs().len() <= #[trigger] added[i] && added[i] < doc.rs().len()
                && doc.rs()[added[i] as int].parent == Some(list),
            doc.wf(),
            tracks(j, doc.rs()),
            j.start == old(j).start,
            j.origin == old(j).origin,
            forall|i: int| journaled(old(j), i) ==> journaled(j, i),
            doc.roots@ == old(doc).roots@,
            doc.objects@ == old(doc).objects@,
            doc.max_bytes == old(doc).max_bytes,
            doc.encoded_size == old(doc).encoded_size,
            doc.original_size == old(doc).original_size,
            doc.records@.len() >= old(doc).records@.len(),
        decreases perks@.len() - p,
    {
        let perk = &perks[p];
        proof {
            assert(perks@.take(p + 1).drop_last() =~= perks@.take(p as int));
            assert(perks@.take(p + 1).last() == perks@[p as int]);
        }
        proof {
            if exists|q: int| 0 <= q < existing@.len() && (#[trigger] existing@[q])@ == perk.id@ {
                let q = choose|q: int| 0 <= q < existing@.len() && (#[trigger] existing@[q])@ == perk.id@;
                assert(ex[q] == perk.id@);
            }
            if ex.contains(perk.id@) {
                let q = choose|q: int| 0 <= q < ex.len() && ex[q] == perk.id@;
                assert(existing@.map_values(|s: String| s@)[q] == existing@[q]@);
            }
        }
        let ghost before = *doc;
        if !listed(&existing, perk.id.as_str()) {
            let mut values: Vec<TemplateValue> = Vec::new();
            values.push(TemplateValue { key: owned("id"), value: owned(perk.id.as_str()), float: None });
            values.push(
                TemplateValue {
                    key: owned("currentDuration"),
                    value: owned(perk.duration.as_str()),
                    float: perk.duration_bits,
                },
            );
            let made = match from_template(doc, j, list, "perk-data", &values, templates) {
                Ok(n) => n,
                Err(e) => return Err(e),
            };
            proof {
                assert forall|i: int| 0 <= i < added.len() implies doc.rs()[added[i] as int].parent == Some(list) by {
                    assert(ds5.rs().len() <= added[i] && added[i] < before.rs().len());
                    assert(added[i] != list);
                    assert(doc.rs()[added[i] as int] == before.rs()[added[i] as int]);
                }
                let old_added = added;
                added = added.push(made);
                assert(cs + added =~= (cs + old_added).push(made));
            }
        }
        p = p + 1;
    }
    proof {
        assert(perks@.take(perks@.len() as int) =~= perks@);
        assert(doc.rs()[list as int].children == ds5.rs()[list as int].children + added && added.len() == new_perk_count(
            perks@,
            entry_ids(ds5, ds5.rs()[list as int].children),
        ));
        assert(root_field_spec(ds5, "perkSystemData"@) == Ok::<usize, Seq<char>>(system));
        assert(field_spec(ds5, system, "activePerks"@) == Ok::<usize, Seq<char>>(active));
        assert(list_spec(ds5, active) == Ok::<usize, Seq<char>>(list));
        let cs2 = doc.rs()[list as int].children;
        assert(cs2.take(cs.len() as int) =~= cs);
        assert forall|i: int| cs.len() <= i < cs2.len() implies ds5.rs().len() <= #[trigger] cs2[i] && doc.rs()[cs2[i] as int].parent == Some(list) by {
            assert(cs2[i] == added[i - cs.len()]);
        }
        assert(perks_added(ds5, *doc, perks@));
    }
    Ok(())
}

/// What a progression edit does, giving `d2` and `r` from `d`: the refusals checked before
/// anything is changed, the exact effect of a talent counter edit, and what an accepted
/// unlock owes.
pub open spec fn write_result(d: Document, d2: Document, edit: Edit, r: Result<(), Error>) -> bool {
    match edit {
        Edit::UnlockTechnologies { ids, rewards } => {
            &&& (ids@.len() == 0 || ids@.len() > 500) ==> (r matches Err(e) && e.0@ == "Select 1..500 technologies"@
                && d2 == d)
            &&& !(ids@.len() == 0 || ids@.len() > 500) ==> (root_field_spec(d, "knowledgeSystem"@) matches Err(m)
                ==> (r matches Err(e) && e.0@ == m && d2 == d))
            &&& (!(ids@.len() == 0 || ids@.len() > 500) && rewards.perks@.len() == 0 && (root_field_spec(d, "knowledgeSystem"@)
                matches Ok(kn) && unlock_owed(
                d,
                kn,
                ids@,
                rewards.crafts@,
                rewards.alchemy_formulas@,
                rewards.buildings@,
                rewards.town_buildings@,
            ))) ==> r is Ok
            &&& r is Ok ==> (root_field_spec(d, "knowledgeSystem"@) matches Ok(kn) && append_ok(
                d,
                kn,
                "unlockedTechs"@,
                ids@,
            ) && exists|ds: Seq<Document>|
                #[trigger] unlock_steps(
                    ds,
                    kn,
                    ids@,
                    rewards.crafts@,
                    rewards.alchemy_formulas@,
                    rewards.buildings@,
                    rewards.town_buildings@,
                ) && ds[0] == d && (rewards.perks@.len() == 0 ==> ds[5] == d2) && (rewards.perks@.len() > 0 ==> perks_added(
                    ds[5],
                    d2,
                    rewards.perks@,
                )))
        },
        Edit::UnlockTalentLevels { talent, levels } => {
            &&& (levels@.len() == 0 || levels@.len() > 500) ==> (r matches Err(e) && e.0@ == "Select 1..500 talent levels"@
                && d2 == d)
            &&& !(levels@.len() == 0 || levels@.len() > 500) ==> (talent_spec(d, talent@) matches Err(m) ==> (
            r matches Err(e) && e.0@ == m && d2 == d))
        },
        Edit::SetTalent { talent, field, value } => {
            &&& !talent_field(field@) ==> (r matches Err(e) && e.0@ == "Unknown talent field"@ && d2 == d)
            &&& talent_field(field@) ==> match talent_spec(d, talent@) {
                Err(m) => r matches Err(e) && e.0@ == m && d2 == d,
                Ok(b) => edit_result(set_i32_spec(d, b, field@, value@), d, d2, r),
            }
            &&& r is Ok ==> (int32_of(value@) matches Some(v) && v >= 0)
        },
        Edit::SetInspiration { talent, id, current_value, completion_goal_value } => {
            &&& (id@.len() == 0 || utf8_len(id@) > 256) ==> (r matches Err(e) && e.0@ == "Invalid inspiration ID"@
                && d2 == d)
            &&& !(id@.len() == 0 || utf8_len(id@) > 256) ==> match talent_spec(d, talent@) {
                Err(m) => r matches Err(e) && e.0@ == m && d2 == d,
                Ok(b) => match field_spec(d, b, "inspirationsProgression"@) {
                    Err(m) => r matches Err(e) && e.0@ == m && d2 == d,
                    Ok(f) => list_spec(d, f) matches Err(m) ==> (r matches Err(e) && e.0@ == m
                        && d2 == d),
                },
            }
            &&& r is Ok ==> (int32_of(current_value@) matches Some(v) && v >= 0) && (int32_of(
                completion_goal_value@,
            ) matches Some(v) && v >= 0)
            &&& r is Ok ==> (talent_spec(d, talent@) matches Ok(b) && (field_spec(d, b, "inspirationsProgression"@) matches Ok(
                f,
            ) && (list_spec(d, f) matches Ok(list) && inspiration_stored(
                d,
                d2,
                list,
                id@,
                current_value@,
                completion_goal_value@,
            ))))
        },
    }
}

/// Sets the progress of inspiration `id` of talent branch `talent_id`, adding the
/// inspiration from the `inspiration-progress` template where the branch has none yet.
#[verifier::loop_isolation(false)]
#[verifier::rlimit(60)]
#[verifier::spinoff_prover]
fn set_inspiration(
    doc: &mut Document,
    j: &mut Journal,
    talent_id: String,
    id: String,
    current_value: String,
    completion_goal_value: String,
    templates: &Vec<Template>,
) -> (r: Result<(), Error>)
    requires
        old(doc).wf(),
        tracks(old(j), old(doc).rs()),
    ensures
        write_frame(*old(doc), *final(doc), old(j), final(j)),
        write_result(
            *old(doc),
            *final(doc),
            (Edit::SetInspiration { talent: talent_id, id, current_value, completion_goal_value }),
            r,
        ),
{
    if id.unicode_len() == 0 || id.as_str().len() > 256 {
        return Err(failure("Invalid inspiration ID"));
    }
    let branch = match talent(doc, talent_id.as_str()) {
        Ok(b) => b,
        Err(e) => return Err(e),
    };
    let progress = match field(doc, branch, "inspirationsProgression") {
        Ok(f) => f,
        Err(e) => return Err(e),
    };
    let list = match array(doc, progress) {
        Ok(a) => a,
        Err(e) => return Err(e),
    };
    let mut found: Option<usize> = None;
    let mut k: usize = 0;
    let ghost d0 = *doc;
    while k < doc.records[list].children.len() && found.is_none()
        invariant
            doc.wf(),
            *doc == d0,
            list < doc.records@.len(),
            found matches Some(n) ==> n < doc.records@.len() && inspiration_in(d0, list, id@, n),
            found is None ==> k <= d0.rs()[list as int].children.len() && forall|m: int|
                0 <= m < k ==> !(#[trigger] resolve_spec(d0, d0.rs()[list as int].children[m]) matches Ok(n) && id_spec(
                    d0,
                    n,
                    "id"@,
                ) == Some(id@)),
        decreases doc.records@[list as int].children@.len() - k,
    {
        assert(doc.rs()[list as int] == doc.records@[list as int]@);
        assert(doc.rs()[list as int].children[k as int] < doc.rs().len());
        match resolve(doc, doc.records[list].children[k]) {
            Ok(n) => {
                proof {
                    lemma_resolve_range(*doc, doc.records@[list as int].children@[k as int]);
                }
                match id_of(doc, n, "id") {
                    Some(v) => {
                        if same_text(v.as_str(), id.as_str()) {
                            found = Some(n);
                            proof {
                                assert(doc.rs()[list as int] == doc.records@[list as int]@);
                                assert(resolve_spec(d0, d0.rs()[list as int].children[k as int]) == Ok::<usize, Seq<char>>(n));
                            }
                        }
                    },
                    None => {},
                }
            },
            Err(_) => {},
        }
        k = k + 1;
    }
    proof {
        if found is None {
            assert(doc.rs()[list as int] == doc.records@[list as int]@);
            assert forall|e0: usize| !inspiration_in(d0, list, id@, e0) by {
                if inspiration_in(d0, list, id@, e0) {
                    let m = choose|m: int|
                        0 <= m < d0.rs()[list as int].children.len() && #[trigger] resolve_spec(d0, d0.rs()[list as int].children[m])
                            == Ok::<usize, Seq<char>>(e0) && id_spec(d0, e0, "id"@) == Some(id@);
                    assert(!(resolve_spec(d0, d0.rs()[list as int].children[m]) matches Ok(n) && id_spec(d0, n, "id"@) == Some(id@)));
                }
            }
        }
    }
    let entry = match found {
        Some(n) => n,
        None => {
            let mut values: Vec<TemplateValue> = Vec::new();
            values.push(TemplateValue { key: owned("id"), value: owned(id.as_str()), float: None });
            match from_template(doc, j, list, "inspiration-progress", &values, templates) {
                Ok(n) => n,
                Err(e) => return Err(e),
            }
        },
    };
    let ghost dt = *doc;
    assert(if exists|e0: usize| inspiration_in(d0, list, id@, e0) {
        inspiration_in(d0, list, id@, entry)
    } else {
        d0.rs().len() <= entry && dt.rs()[entry as int].parent == Some(list)
    });
    if let Err(e) = set_i32(doc, j, entry, "currentValue", current_value.as_str()) {
        return Err(e);
    }
    let ghost d1 = *doc;
    let r = set_i32(doc, j, entry, "completionGoalValue", completion_goal_value.as_str());
    proof {
        if r is Ok {
            lemma_set_i32_stores(dt, d1, entry, "currentValue"@, current_value@);
            lemma_set_i32_stores(d1, *doc, entry, "completionGoalValue"@, completion_goal_value@);
            let n1 = field_spec(d1, entry, "currentValue"@)->Ok_0;
            let n2 = field_spec(d1, entry, "completionGoalValue"@)->Ok_0;
            lemma_field_payload(d1, *doc, n2 as int, entry, "currentValue"@);
            if n1 != n2 {
                assert(doc.rs()[n1 as int] == d1.rs()[n1 as int]);
            }
            if !inspiration_in(d0, list, id@, entry) {
                let f1 = field_spec(dt, entry, "currentValue"@)->Ok_0;
                assert(d1.rs()[entry as int].parent == dt.rs()[entry as int].parent);
                assert(doc.rs()[entry as int].parent == d1.rs()[entry as int].parent);
            }
            assert(inspiration_stored(d0, *doc, list, id@, current_value@, completion_goal_value@));
        }
    }
    r
}

/// Applies a progression edit. Lists of technologies and of talent levels hold 1 to 500
/// entries; an inspiration ID has 1 to 256 bytes; counters are nonnegative 32-bit integers.
/// New perks and inspirations are built from the `perk-data` and `inspiration-progress`
/// templates.
#[verifier::loop_isolation(false)]
pub fn write(doc: &mut Document, j: &mut Journal, edit: Edit, templates: &Vec<Template>) -> (r: Result<(), Error>)
    requires
        old(doc).wf(),
        tracks(old(j), old(doc).rs()),
    ensures
        write_frame(*old(doc), *final(doc), old(j), final(j)),
        write_result(*old(doc), *final(doc), edit, r),
{
    proof {
        reveal_strlit("curExp");
        reveal_strlit("curTalentLevel");
        reveal_strlit("talentExpPoints");
        reveal_strlit("curTalentValue");
    }
    match edit {
        Edit::UnlockTechnologies { ids, rewards } => {
            if ids.len() == 0 || ids.len() > 500 {
                return Err(failure("Select 1..500 technologies"));
            }
            let knowledge = match root_field(doc, "knowledgeSystem") {
                Ok(k) => k,
                Err(e) => return Err(e),
            };
            let TechnologyRewards { crafts, alchemy_formulas, buildings, town_buildings, perks } = rewards;
            if let Err(e) = unlock_lists(doc, j, knowledge, ids, crafts, alchemy_formulas, buildings, town_buildings) {
                return Err(e);
            }
            if perks.len() > 0 {
                let ghost d5 = *doc;
                let r = add_perks(doc, j, &perks, templates);
                proof {
                    if r is Ok {
                        assert(perks_added(d5, *doc, perks@));
                    }
                }
                return r;
            }
            Ok(())
        },
        Edit::UnlockTalentLevels { talent: talent_id, levels } => {
            if levels.len() == 0 || levels.len() > 500 {
                return Err(failure("Select 1..500 talent levels"));
            }
            let branch = match talent(doc, talent_id.as_str()) {
                Ok(b) => b,
                Err(e) => return Err(e),
            };
            let (_, existing) = match string_list(doc, branch, "studiedLevelUps") {
                Ok(l) => l,
                Err(e) => return Err(e),
            };
            let mut added: Vec<String> = Vec::new();
            let mut increase: i32 = 0;
            let mut k: usize = 0;
            while k < levels.len()
                invariant
                    k <= levels@.len(),
                decreases levels@.len() - k,
            {
                let level = &levels[k];
                if !listed(&existing, level.id.as_str()) {
                    increase = match increase.checked_add(level.talent_value) {
                        Some(v) => v,
                        None => return Err(failure("Talent value overflow")),
                    };
                    added.push(owned(level.id.as_str()));
                }
                k = k + 1;
            }
            if let Err(e) = append_strings(doc, j, branch, "studiedLevelUps", added) {
                return Err(e);
            }
            if increase > 0 {
                let current_text = match shown_text(doc, branch, "curTalentValue") {
                    Ok(t) => t,
                    Err(e) => return Err(e),
                };
                let current = match parse_integer(current_text.as_str(), -2147483648, 2147483647) {
                    Some(v) => v as i32,
                    None => return Err(failure("Invalid talent value")),
                };
                let total = match current.checked_add(increase) {
                    Some(v) => v,
                    None => return Err(failure("Talent value overflow")),
                };
                let text = signed_text(total as i64);
                if let Err(e) = set_i32(doc, j, branch, "curTalentValue", text.as_str()) {
                    return Err(e);
                }
            }
            Ok(())
        },
        Edit::SetTalent { talent: id, field: name, value } => {
            let n = name.as_str();
            if !(same_text(n, "curExp") || same_text(n, "curTalentLevel") || same_text(n, "talentExpPoints")
                || same_text(n, "curTalentValue")) {
                return Err(failure("Unknown talent field"));
            }
            let branch = match talent(doc, id.as_str()) {
                Ok(b) => b,
                Err(e) => return Err(e),
            };
            set_i32(doc, j, branch, n, value.as_str())
        },
        Edit::SetInspiration { talent: talent_id, id, current_value, completion_goal_value } => set_inspiration(
            doc,
            j,
            talent_id,
            id,
            current_value,
            completion_goal_value,
            templates,
        ),
    }
}

} // verus!
