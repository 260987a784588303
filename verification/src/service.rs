//! Read-only node views and single-value edits over one open document.
use crate::endian::{
    le_bytes, twos, le_value, lemma_le_bytes_len, lemma_le_bytes_value, lemma_le_roundtrip, lemma_le_value_bound, lemma_pow_values,
    pow2, pow256, read_unsigned, signed,
};
use crate::strings::display_spec;
use crate::text::{
    all_digits, digit_char, digits_value, sign_len, decimal, hex, hex_text, owned, parse_integer, parse_integer_spec, push_signed_text, push_text,
    same_text, signed_decimal, signed_text, unsigned_text,
};
use crate::encode::spec_encode;
use crate::wire::{
    default_limits, Limits, copy_bytes, failure, spec_base_tag, base_tag, Document, Error, Payload, PayloadModel, Record,
    RecordModel, StringModel, TypeModel, WireString, opt_string_view,
};
use crate::endian::push_unsigned;
use crate::strings::replace_spec;
use vstd::prelude::*;
use vstd::utf8::encode_utf8;

verus! {

broadcast use {vstd::std_specs::hash::group_hash_axioms, vstd::string::group_string_axioms};

/// The raw bits of a floating-point scalar; its decimal text is produced by the caller.
#[derive(Clone, Copy, PartialEq, Eq, Debug)]
pub enum FloatBits {
    Single(u32),
    Double(u64),
}

pub struct Summary {
    pub original_bytes: usize,
    pub encoded_bytes: usize,
    pub records: usize,
    pub types: usize,
    pub objects: usize,
    pub revision: u32,
}

/// A direct scalar child of a node, shown inline in the tree.
pub struct TreeField {
    pub id: usize,
    pub name: Option<String>,
    pub kind: String,
    pub tag: u8,
    /// Decimal or text value; empty for floating-point values, which `float` carries.
    pub value: String,
    pub float: Option<FloatBits>,
}

pub struct NodeView {
    pub id: usize,
    pub parent: Option<usize>,
    pub name: Option<String>,
    pub kind: String,
    pub tag: u8,
    pub declared_type: Option<String>,
    /// Display value; `None` for floating-point values, which `float` carries.
    pub value: Option<String>,
    pub reference_target: Option<usize>,
    pub child_count: usize,
    pub tree_fields: Vec<TreeField>,
    /// Input-file offset; does not change after variable-length edits.
    pub original_offset: usize,
    pub editable: bool,
    pub float: Option<FloatBits>,
}

pub struct Page {
    pub nodes: Vec<NodeView>,
    pub total: usize,
}

pub open spec fn opt_text(o: Option<String>) -> Option<Seq<char>> {
    match o {
        Some(s) => Some(s@),
        None => None,
    }
}

pub struct TreeFieldModel {
    pub id: usize,
    pub name: Option<Seq<char>>,
    pub kind: Seq<char>,
    pub tag: u8,
    pub value: Seq<char>,
    pub float: Option<FloatBits>,
}

impl View for TreeField {
    type V = TreeFieldModel;

    open spec fn view(&self) -> TreeFieldModel {
        TreeFieldModel {
            id: self.id,
            name: opt_text(self.name),
            kind: self.kind@,
            tag: self.tag,
            value: self.value@,
            float: self.float,
        }
    }
}

/// Kind name of a token, as the inspector shows it.
pub open spec fn kind_text(base: u8) -> Seq<char> {
    if base == 1 || base == 2 {
        "reference_node"@
    } else if base == 3 || base == 4 {
        "struct"@
    } else if base == 6 {
        "array"@
    } else if base == 8 {
        "primitive_array"@
    } else if base == 10 {
        "internal_reference"@
    } else if base == 12 || base == 14 || base == 50 || base == 51 {
        "external_reference"@
    } else if base == 36 {
        "decimal"@
    } else if base == 38 {
        "char"@
    } else if base == 42 {
        "guid"@
    } else if base == 46 {
        "null"@
    } else {
        match scalar_kind(base) {
            Some(k) => k,
            None => "end"@,
        }
    }
}

/// Kind name of an editable scalar token.
pub open spec fn scalar_kind(base: u8) -> Option<Seq<char>> {
    if base == 16 {
        Some("i8"@)
    } else if base == 18 {
        Some("u8"@)
    } else if base == 20 {
        Some("i16"@)
    } else if base == 22 {
        Some("u16"@)
    } else if base == 24 {
        Some("i32"@)
    } else if base == 26 {
        Some("u32"@)
    } else if base == 28 {
        Some("i64"@)
    } else if base == 30 {
        Some("u64"@)
    } else if base == 32 {
        Some("f32"@)
    } else if base == 34 {
        Some("f64"@)
    } else if base == 40 {
        Some("string"@)
    } else if base == 44 {
        Some("bool"@)
    } else {
        None
    }
}

/// Byte width and signedness of an integer token.
pub open spec fn integer_format(base: u8) -> Option<(nat, bool)> {
    if base == 16 {
        Some((1, true))
    } else if base == 18 {
        Some((1, false))
    } else if base == 20 {
        Some((2, true))
    } else if base == 22 {
        Some((2, false))
    } else if base == 24 {
        Some((4, true))
    } else if base == 26 {
        Some((4, false))
    } else if base == 28 {
        Some((8, true))
    } else if base == 30 {
        Some((8, false))
    } else {
        None
    }
}

/// Value of an integer token's little-endian bytes, when they have the token's width.
pub open spec fn integer_value(base: u8, b: Seq<u8>) -> Option<int> {
    match integer_format(base) {
        Some((w, s)) => if b.len() == w {
            Some(
                if s {
                    signed(le_value(b), 8 * w)
                } else {
                    le_value(b) as int
                },
            )
        } else {
            None
        },
        None => None,
    }
}

pub open spec fn float_value(base: u8, b: Seq<u8>) -> Option<FloatBits> {
    if base == 32 && b.len() == 4 {
        Some(FloatBits::Single(le_value(b) as u32))
    } else if base == 34 && b.len() == 8 {
        Some(FloatBits::Double(le_value(b) as u64))
    } else {
        None
    }
}

pub open spec fn bool_text(b: bool) -> Seq<char> {
    if b {
        "true"@
    } else {
        "false"@
    }
}

pub open spec fn object_text(id: int) -> Seq<char> {
    "object #"@ + signed_decimal(id)
}

/// Display value of a fixed-size payload (floating-point values have none).
pub open spec fn fixed_text(base: u8, b: Seq<u8>) -> Option<Seq<char>> {
    if base == 10 && b.len() == 4 {
        Some(object_text(signed(le_value(b), 32)))
    } else if integer_value(base, b) is Some {
        Some(signed_decimal(integer_value(base, b)->0))
    } else if float_value(base, b) is Some {
        None
    } else if base == 44 && b.len() >= 1 {
        Some(bool_text(b[0] == 1))
    } else {
        Some(hex(b))
    }
}

pub open spec fn value_text(r: RecordModel) -> Option<Seq<char>> {
    match r.payload {
        PayloadModel::Node { object, .. } => match object {
            Some(id) => Some(object_text(id as int)),
            None => None,
        },
        PayloadModel::Text(s) => Some(display_spec(s)),
        PayloadModel::Array(c) => Some(signed_decimal(c as int) + " elements"@),
        PayloadModel::Packed { count, width, .. } => Some(
            signed_decimal(count as int) + " × "@ + signed_decimal(width as int) + " bytes"@,
        ),
        PayloadModel::Empty => None,
        PayloadModel::Fixed(b) => fixed_text(spec_base_tag(r.tag), b),
    }
}

pub open spec fn float_of(r: RecordModel) -> Option<FloatBits> {
    match r.payload {
        PayloadModel::Fixed(b) => float_value(spec_base_tag(r.tag), b),
        _ => None,
    }
}

/// The object ID an internal reference points at.
pub open spec fn reference_id(r: RecordModel) -> Option<i32> {
    match r.payload {
        PayloadModel::Fixed(b) => if spec_base_tag(r.tag) == 10 && b.len() == 4 {
            Some(signed(le_value(b), 32) as i32)
        } else {
            None
        },
        _ => None,
    }
}

pub open spec fn type_ref(r: RecordModel) -> Option<i32> {
    match r.payload {
        PayloadModel::Node { ty: TypeModel::Definition(t, _), .. } => Some(t),
        PayloadModel::Node { ty: TypeModel::Reference(t), .. } => Some(t),
        _ => None,
    }
}

pub open spec fn name_text(r: RecordModel) -> Option<Seq<char>> {
    match r.name {
        Some(n) => Some(display_spec(n)),
        None => None,
    }
}

pub open spec fn editable_base(base: u8) -> bool {
    integer_format(base) is Some || base == 32 || base == 34 || base == 40 || base == 44
}

/// Inline value of a scalar child: kind, text and floating-point bits.
pub open spec fn scalar_field(r: RecordModel) -> Option<(Seq<char>, Seq<char>, Option<FloatBits>)> {
    let base = spec_base_tag(r.tag);
    match scalar_kind(base) {
        None => None,
        Some(kind) => match r.payload {
            PayloadModel::Text(t) => if base == 40 {
                Some((kind, display_spec(t), None))
            } else {
                None
            },
            PayloadModel::Fixed(b) => if integer_value(base, b) is Some {
                Some((kind, signed_decimal(integer_value(base, b)->0), None))
            } else if float_value(base, b) is Some {
                Some((kind, Seq::empty(), float_value(base, b)))
            } else if base == 44 && b.len() == 1 {
                Some((kind, bool_text(b[0] == 1), None))
            } else {
                None
            },
            _ => None,
        },
    }
}

/// Inline fields of the given children, in order, skipping non-scalars.
pub open spec fn tree_fields_spec(rs: Seq<RecordModel>, children: Seq<usize>) -> Seq<TreeFieldModel>
    decreases children.len(),
{
    if children.len() == 0 {
        Seq::empty()
    } else {
        let rest = tree_fields_spec(rs, children.drop_last());
        let id = children.last();
        let r = rs[id as int];
        match scalar_field(r) {
            Some((kind, value, float)) => rest.push(
                TreeFieldModel { id, name: name_text(r), kind, tag: r.tag, value, float },
            ),
            None => rest,
        }
    }
}

/// Everything a node view states about record `id`.
pub open spec fn view_matches(doc: &Document, id: usize, v: NodeView) -> bool {
    let r = doc.rs()[id as int];
    let base = spec_base_tag(r.tag);
    &&& v.id == id
    &&& v.parent == r.parent
    &&& opt_text(v.name) == name_text(r)
    &&& v.kind@ == kind_text(base)
    &&& v.tag == r.tag
    &&& opt_text(v.declared_type) == match type_ref(r) {
        Some(t) => if doc.types@.contains_key(t) {
            Some(display_spec(doc.types@[t]@))
        } else {
            None
        },
        None => None,
    }
    &&& opt_text(v.value) == value_text(r)
    &&& v.float == float_of(r)
    &&& v.reference_target == match reference_id(r) {
        Some(o) => if doc.objects@.contains_key(o) {
            Some(doc.objects@[o])
        } else {
            None
        },
        None => None,
    }
    &&& v.child_count == r.children.len()
    &&& v.tree_fields@.map_values(|f: TreeField| f@) == tree_fields_spec(doc.rs(), r.children)
    &&& v.original_offset == r.offset
    &&& v.editable == editable_base(base)
}

fn kind_name(base: u8) -> (s: String)
    ensures
        s@ == kind_text(base),
{
    match base {
        1 | 2 => owned("reference_node"),
        3 | 4 => owned("struct"),
        6 => owned("array"),
        8 => owned("primitive_array"),
        10 => owned("internal_reference"),
        12 | 14 | 50 | 51 => owned("external_reference"),
        36 => owned("decimal"),
        38 => owned("char"),
        42 => owned("guid"),
        46 => owned("null"),
        _ => match scalar_kind_name(base) {
            Some(k) => k,
            None => owned("end"),
        },
    }
}

fn scalar_kind_name(base: u8) -> (s: Option<String>)
    ensures
        opt_text(s) == scalar_kind(base),
{
    match base {
        16 => Some(owned("i8")),
        18 => Some(owned("u8")),
        20 => Some(owned("i16")),
        22 => Some(owned("u16")),
        24 => Some(owned("i32")),
        26 => Some(owned("u32")),
        28 => Some(owned("i64")),
        30 => Some(owned("u64")),
        32 => Some(owned("f32")),
        34 => Some(owned("f64")),
        40 => Some(owned("string")),
        44 => Some(owned("bool")),
        _ => None,
    }
}

fn integer_width(base: u8) -> (r: Option<(usize, bool)>)
    ensures
        r matches Some((w, s)) ==> integer_format(base) == Some((w as nat, s)),
        r is None ==> integer_format(base) is None,
{
    match base {
        16 => Some((1, true)),
        18 => Some((1, false)),
        20 => Some((2, true)),
        22 => Some((2, false)),
        24 => Some((4, true)),
        26 => Some((4, false)),
        28 => Some((8, true)),
        30 => Some((8, false)),
        _ => None,
    }
}

/// Decimal text of an integer token.
fn integer_text(base: u8, b: &Vec<u8>) -> (r: Option<String>)
    ensures
        r matches Some(s) ==> integer_value(base, b@) is Some && s@ == signed_decimal(
            integer_value(base, b@)->0,
        ),
        r is None ==> integer_value(base, b@) is None,
{
    match integer_width(base) {
        Some((w, is_signed)) => {
            if b.len() != w {
                return None;
            }
            let u = read_unsigned(b.as_slice(), 0, w);
            proof {
                lemma_pow_values();
                assert(b@.subrange(0, w as int) =~= b@);
                lemma_le_value_bound(b@);
            }
            if is_signed {
                let half: u64 = if w == 1 {
                    128
                } else if w == 2 {
                    32768
                } else if w == 4 {
                    2147483648
                } else {
                    9223372036854775808
                };
                assert(half as int == pow2((8 * w - 1) as nat));
                let v: i64 = if u >= half {
                    if w == 8 {
                        ((u - half) as i64) + i64::MIN
                    } else {
                        (u as i64) - 2 * (half as i64)
                    }
                } else {
                    u as i64
                };
                assert(v as int == signed(u as nat, 8 * w as nat)) by {
                    assert(pow2(8 * w as nat) == 2 * pow2((8 * w - 1) as nat));
                }
                Some(signed_text(v))
            } else {
                Some(unsigned_text(u))
            }
        },
        None => None,
    }
}

fn float_bits(base: u8, b: &Vec<u8>) -> (r: Option<FloatBits>)
    ensures
        r == float_value(base, b@),
{
    if base == 32 && b.len() == 4 {
        let u = read_unsigned(b.as_slice(), 0, 4);
        proof {
            lemma_pow_values();
            assert(b@.subrange(0, 4) =~= b@);
            lemma_le_value_bound(b@);
        }
        Some(FloatBits::Single(u as u32))
    } else if base == 34 && b.len() == 8 {
        let u = read_unsigned(b.as_slice(), 0, 8);
        assert(b@.subrange(0, 8) =~= b@);
        Some(FloatBits::Double(u))
    } else {
        None
    }
}

fn bool_name(b: bool) -> (s: String)
    ensures
        s@ == bool_text(b),
{
    if b {
        owned("true")
    } else {
        owned("false")
    }
}

fn object_name(id: i32) -> (s: String)
    ensures
        s@ == object_text(id as int),
{
    let mut s = owned("object #");
    push_signed_text(&mut s, id as i64);
    s
}

/// Reads the object ID of a 4-byte reference payload.
fn reference_value(b: &Vec<u8>) -> (v: i32)
    requires
        b@.len() == 4,
    ensures
        v as int == signed(le_value(b@), 32),
{
    let u = read_unsigned(b.as_slice(), 0, 4);
    proof {
        lemma_pow_values();
        assert(b@.subrange(0, 4) =~= b@);
        lemma_le_value_bound(b@);
    }
    if u >= 2147483648 {
        ((u as i64) - 4294967296) as i32
    } else {
        u as i32
    }
}

fn fixed_display(base: u8, b: &Vec<u8>) -> (r: Option<String>)
    ensures
        opt_text(r) == fixed_text(base, b@),
{
    if base == 10 && b.len() == 4 {
        return Some(object_name(reference_value(b)));
    }
    if let Some(t) = integer_text(base, b) {
        return Some(t);
    }
    if float_bits(base, b).is_some() {
        return None;
    }
    if base == 44 && b.len() >= 1 {
        return Some(bool_name(b[0] == 1));
    }
    Some(hex_text(b))
}

fn payload_value(r: &Record) -> (v: Option<String>)
    ensures
        opt_text(v) == value_text(r@),
{
    match &r.payload {
        Payload::Node { object, .. } => match object {
            Some(id) => Some(object_name(*id)),
            None => None,
        },
        Payload::Text(s) => Some(s.display()),
        Payload::Array(c) => {
            let mut s = signed_text(*c);
            push_text(&mut s, " elements");
            Some(s)
        },
        Payload::Packed { count, width, .. } => {
            let mut s = signed_text(*count as i64);
            push_text(&mut s, " × ");
            push_signed_text(&mut s, *width as i64);
            push_text(&mut s, " bytes");
            Some(s)
        },
        Payload::Empty => None,
        Payload::Fixed(b) => fixed_display(base_tag(r.tag), b),
    }
}

fn scalar_display(r: &Record) -> (v: Option<(String, String, Option<FloatBits>)>)
    ensures
        match v {
            Some((k, t, f)) => scalar_field(r@) == Some((k@, t@, f)),
            None => scalar_field(r@) is None,
        },
{
    let base = base_tag(r.tag);
    let kind = match scalar_kind_name(base) {
        Some(k) => k,
        None => return None,
    };
    match &r.payload {
        Payload::Text(t) => {
            if base == 40 {
                Some((kind, t.display(), None))
            } else {
                None
            }
        },
        Payload::Fixed(b) => {
            if let Some(t) = integer_text(base, b) {
                Some((kind, t, None))
            } else if let Some(f) = float_bits(base, b) {
                Some((kind, String::new(), Some(f)))
            } else if base == 44 && b.len() == 1 {
                Some((kind, bool_name(b[0] == 1), None))
            } else {
                None
            }
        },
        _ => None,
    }
}

fn name_display(n: &Option<WireString>) -> (r: Option<String>)
    ensures
        opt_text(r) == match opt_string_view(*n) {
            Some(s) => Some(display_spec(s)),
            None => None,
        },
{
    match n {
        Some(s) => Some(s.display()),
        None => None,
    }
}

/// The inspector's view of record `id`.
pub fn view(doc: &Document, id: usize) -> (v: NodeView)
    requires
        doc.wf(),
        id < doc.records@.len(),
    ensures
        view_matches(doc, id, v),
{
    let record = &doc.records[id];
    assert(doc.rs()[id as int] == record@);
    let base = base_tag(record.tag);
    let declared_type = match &record.payload {
        Payload::Node { ty, .. } => {
            let t = match ty {
                crate::wire::TypeInfo::Definition(t, _) => Some(*t),
                crate::wire::TypeInfo::Reference(t) => Some(*t),
                crate::wire::TypeInfo::Absent => None,
            };
            match t {
                Some(t) => match doc.types.get(&t) {
                    Some(w) => Some(w.display()),
                    None => None,
                },
                None => None,
            }
        },
        _ => None,
    };
    let reference_target = match &record.payload {
        Payload::Fixed(b) => {
            if base == 10 && b.len() == 4 {
                match doc.objects.get(&reference_value(b)) {
                    Some(n) => Some(*n),
                    None => None,
                }
            } else {
                None
            }
        },
        _ => None,
    };
    let mut tree_fields: Vec<TreeField> = Vec::new();
    let mut k: usize = 0;
    while k < record.children.len()
        invariant
            doc.wf(),
            id < doc.records@.len(),
            record@ == doc.rs()[id as int],
            k <= record.children@.len(),
            tree_fields@.map_values(|f: TreeField| f@) == tree_fields_spec(
                doc.rs(),
                record.children@.subrange(0, k as int),
            ),
        decreases record.children@.len() - k,
    {
        let child_id = record.children[k];
        assert(doc.rs()[id as int].children[k as int] == child_id);
        assert(child_id < doc.rs().len());
        let child = &doc.records[child_id];
        assert(doc.rs()[child_id as int] == child@);
        let ghost pre = record.children@.subrange(0, k + 1);
        assert(pre.drop_last() =~= record.children@.subrange(0, k as int));
        assert(pre.last() == child_id);
        if let Some((kind, value, float)) = scalar_display(child) {
            tree_fields.push(
                TreeField { id: child_id, name: name_display(&child.name), kind, tag: child.tag, value, float },
            );
        }
        assert(tree_fields@.map_values(|f: TreeField| f@) =~= tree_fields_spec(doc.rs(), pre));
        k = k + 1;
    }
    assert(record.children@.subrange(0, k as int) =~= record.children@);
    let float = match &record.payload {
        Payload::Fixed(b) => float_bits(base, b),
        _ => None,
    };
    NodeView {
        id,
        parent: record.parent,
        name: name_display(&record.name),
        kind: kind_name(base),
        tag: record.tag,
        declared_type,
        value: payload_value(record),
        reference_target,
        child_count: record.children.len(),
        tree_fields,
        original_offset: record.offset,
        editable: integer_width(base).is_some() || base == 32 || base == 34 || base == 40 || base == 44,
        float,
    }
}

/// Smallest and largest value of an integer token.
pub open spec fn integer_bounds(base: u8) -> Option<(int, int)> {
    match integer_format(base) {
        Some((w, s)) => if s {
            Some((-pow2((8 * w - 1) as nat), pow2((8 * w - 1) as nat) - 1))
        } else {
            Some((0, pow2(8 * w) - 1))
        },
        None => None,
    }
}

/// Whether raw floating-point bits denote a finite number (the exponent is not all ones).
pub open spec fn finite_bits(f: FloatBits) -> bool {
    match f {
        FloatBits::Single(b) => (b as nat / pow2(23)) % 256 != 255,
        FloatBits::Double(b) => (b as nat / pow2(52)) % 2048 != 2047,
    }
}

/// Little-endian wire bytes of floating-point bits.
pub open spec fn float_wire(f: FloatBits) -> Seq<u8> {
    match f {
        FloatBits::Single(b) => le_bytes(b as nat, 4),
        FloatBits::Double(b) => le_bytes(b as nat, 8),
    }
}

/// Why a new value is refused.
#[derive(Clone, Copy, PartialEq, Eq, Debug)]
pub enum Refusal {
    Invalid,
    ReadOnly,
}

pub open spec fn invalid_text() -> Seq<char> {
    "Invalid value or value outside the original wire type's range"@
}

pub open spec fn refusal_text(r: Refusal) -> Seq<char> {
    match r {
        Refusal::Invalid => invalid_text(),
        Refusal::ReadOnly => "This wire value is read-only"@,
    }
}

/// The payload that stores `value` in a token with `tag`, in the token's original wire type.
/// Floating-point tokens take the bits of the parsed number in `float`.
pub open spec fn replacement_spec(
    tag: u8,
    payload: PayloadModel,
    value: Seq<char>,
    float: Option<FloatBits>,
) -> Result<PayloadModel, Refusal> {
    let base = spec_base_tag(tag);
    if integer_format(base) is Some {
        let (w, _) = integer_format(base)->0;
        let (lo, hi) = integer_bounds(base)->0;
        match parse_integer_spec(value, lo, hi) {
            Some(v) => Ok(PayloadModel::Fixed(le_bytes(twos(v, 8 * w), w))),
            None => Err(Refusal::Invalid),
        }
    } else if base == 32 {
        match float {
            Some(FloatBits::Single(b)) => if finite_bits(FloatBits::Single(b)) {
                Ok(PayloadModel::Fixed(float_wire(FloatBits::Single(b))))
            } else {
                Err(Refusal::Invalid)
            },
            _ => Err(Refusal::Invalid),
        }
    } else if base == 34 {
        match float {
            Some(FloatBits::Double(b)) => if finite_bits(FloatBits::Double(b)) {
                Ok(PayloadModel::Fixed(float_wire(FloatBits::Double(b))))
            } else {
                Err(Refusal::Invalid)
            },
            _ => Err(Refusal::Invalid),
        }
    } else if base == 40 {
        match payload {
            PayloadModel::Text(t) => Ok(PayloadModel::Text(replace_spec(t, value))),
            _ => Err(Refusal::Invalid),
        }
    } else if base == 44 {
        if value == "true"@ {
            Ok(PayloadModel::Fixed(seq![1u8]))
        } else if value == "false"@ {
            Ok(PayloadModel::Fixed(seq![0u8]))
        } else {
            Err(Refusal::Invalid)
        }
    } else {
        Err(Refusal::ReadOnly)
    }
}

fn refuse(r: Refusal) -> (e: Error)
    ensures
        e.0@ == refusal_text(r),
{
    match r {
        Refusal::Invalid => failure("Invalid value or value outside the original wire type's range"),
        Refusal::ReadOnly => failure("This wire value is read-only"),
    }
}

fn float_finite(f: FloatBits) -> (b: bool)
    ensures
        b == finite_bits(f),
{
    proof {
        lemma_pow_values();
    }
    match f {
        FloatBits::Single(b) => {
            assert(pow2(23) == 8388608) by {
                reveal_with_fuel(pow2, 24);
            }
            (b / 8388608) % 256 != 255
        },
        FloatBits::Double(b) => {
            assert(pow2(52) == 4503599627370496) by {
                reveal_with_fuel(pow2, 53);
            }
            (b / 4503599627370496) % 2048 != 2047
        },
    }
}

/// The payload that stores `value` in a token with `tag`.
pub fn replacement(tag: u8, payload: &Payload, value: &str, float: Option<FloatBits>) -> (r: Result<
    Payload,
    Error,
>)
    ensures
        match r {
            Ok(p) => replacement_spec(tag, payload@, value@, float) == Ok::<PayloadModel, Refusal>(p@),
            Err(e) => replacement_spec(tag, payload@, value@, float) matches Err(k) && e.0@
                == refusal_text(k),
        },
{
    let base = base_tag(tag);
    proof {
        lemma_pow_values();
    }
    if let Some((w, is_signed)) = integer_width(base) {
        let (lo, hi): (i128, i128) = if w == 1 {
            if is_signed { (-128, 127) } else { (0, 255) }
        } else if w == 2 {
            if is_signed { (-32768, 32767) } else { (0, 65535) }
        } else if w == 4 {
            if is_signed { (-2147483648, 2147483647) } else { (0, 4294967295) }
        } else if is_signed {
            (-9223372036854775808, 9223372036854775807)
        } else {
            (0, 18446744073709551615)
        };
        assert(integer_bounds(base) == Some((lo as int, hi as int)));
        match parse_integer(value, lo, hi) {
            Some(v) => {
                let total: i128 = if w == 1 {
                    256
                } else if w == 2 {
                    65536
                } else if w == 4 {
                    4294967296
                } else {
                    18446744073709551616
                };
                assert(total as int == pow2(8 * w as nat));
                let u: u64 = if v < 0 {
                    (v + total) as u64
                } else {
                    v as u64
                };
                assert(u as nat == twos(v as int, 8 * w as nat));
                let mut out: Vec<u8> = Vec::new();
                push_unsigned(&mut out, u, w);
                assert(out@ =~= le_bytes(u as nat, w as nat));
                return Ok(Payload::Fixed(out));
            },
            None => return Err(refuse(Refusal::Invalid)),
        }
    }
    if base == 32 || base == 34 {
        let bits = match float {
            Some(f) => f,
            None => return Err(refuse(Refusal::Invalid)),
        };
        let mut out: Vec<u8> = Vec::new();
        match bits {
            FloatBits::Single(b) => {
                if base != 32 || !float_finite(bits) {
                    return Err(refuse(Refusal::Invalid));
                }
                push_unsigned(&mut out, b as u64, 4);
            },
            FloatBits::Double(b) => {
                if base != 34 || !float_finite(bits) {
                    return Err(refuse(Refusal::Invalid));
                }
                push_unsigned(&mut out, b, 8);
            },
        }
        assert(out@ =~= float_wire(bits));
        return Ok(Payload::Fixed(out));
    }
    if base == 40 {
        return match payload {
            Payload::Text(t) => Ok(Payload::Text(t.replace(value))),
            _ => Err(refuse(Refusal::Invalid)),
        };
    }
    if base == 44 {
        proof {
            reveal_strlit("true");
            reveal_strlit("false");
        }
        if same_text(value, "true") {
            let out: Vec<u8> = vec![1u8];
            assert(out@ =~= seq![1u8]);
            return Ok(Payload::Fixed(out));
        }
        if same_text(value, "false") {
            let out: Vec<u8> = vec![0u8];
            assert(out@ =~= seq![0u8]);
            return Ok(Payload::Fixed(out));
        }
        return Err(refuse(Refusal::Invalid));
    }
    Err(refuse(Refusal::ReadOnly))
}

/// Wire size of a payload whose size an edit can change.
pub open spec fn payload_size_spec(p: PayloadModel) -> nat {
    match p {
        PayloadModel::Text(s) => 5 + s.bytes.len(),
        PayloadModel::Fixed(b) => b.len(),
        _ => 0,
    }
}

fn payload_size(p: &Payload) -> (n: i128)
    ensures
        n == payload_size_spec(p@),
        0 <= n <= usize::MAX + 5,
{
    match p {
        Payload::Text(s) => 5 + s.bytes.len() as i128,
        Payload::Fixed(b) => b.len() as i128,
        _ => 0,
    }
}

/// A request to store a new value in one token.
pub struct EditRequest {
    pub node: usize,
    pub expected_tag: u8,
    pub revision: u32,
    pub value: String,
    /// Bits of `value` read as a finite number, for floating-point tokens.
    pub float: Option<FloatBits>,
}

pub enum Request {
    Children { parent: Option<usize>, offset: usize, limit: usize },
    SetValue { edit: EditRequest },
    Close,
}

pub enum Response {
    Children(Page),
    SetValue(Summary),
    Close,
}

/// One open document per service. Adapters only transport bytes and these values.
pub struct Service {
    pub document: Option<Document>,
    pub revision: u32,
}

impl Default for Service {
    fn default() -> (s: Self)
        ensures
            s.document is None,
            s.revision == 0,
    {
        Service { document: None, revision: 0 }
    }
}

/// The summary of an open document at a revision.
pub open spec fn summary_matches(doc: Document, revision: u32, s: Summary) -> bool {
    &&& s.original_bytes == doc.original_size
    &&& s.encoded_bytes == doc.encoded_size
    &&& s.records == doc.records@.len()
    &&& s.types == doc.types@.len()
    &&& s.objects == doc.objects@.len()
    &&& s.revision == revision
}

/// Views of `ids[offset..offset + limit]`, with the total count.
pub open spec fn page_matches(doc: Document, ids: Seq<usize>, offset: usize, limit: usize, p: Page) -> bool {
    let start = if offset < ids.len() { offset as int } else { ids.len() as int };
    let end = if start + limit < ids.len() { start + limit } else { ids.len() as int };
    &&& p.total == ids.len()
    &&& p.nodes@.len() == end - start
    &&& forall|i: int| 0 <= i < p.nodes@.len() ==> view_matches(&doc, ids[start + i], #[trigger] p.nodes@[i])
}

impl Service {
    /// Every open document is structurally sound.
    pub open spec fn inv(&self) -> bool {
        self.document matches Some(d) ==> d.wf()
    }

    pub fn open(&mut self, bytes: &[u8]) -> (r: Result<Summary, Error>)
        requires
            old(self).inv(),
        ensures
            final(self).inv(),
            r matches Ok(s) ==> (final(self).document matches Some(d) && d.decoded_from(
                bytes@,
                default_limits(),
            ) && final(self).revision == old(self).revision + 1 && summary_matches(
                d,
                final(self).revision,
                s,
            )),
            r is Err ==> *final(self) == *old(self),
            old(self).revision == u32::MAX ==> r is Err,
            bytes@.len() > default_limits().max_bytes ==> r is Err,
    {
        let document = Document::decode(bytes)?;
        proof {
            lemma_decoded_wf(&document, bytes@, default_limits());
        }
        self.bump()?;
        self.document = Some(document);
        self.summary()
    }

    fn bump(&mut self) -> (r: Result<(), Error>)
        ensures
            old(self).revision < u32::MAX ==> r is Ok && final(self).revision == old(self).revision + 1
                && final(self).document == old(self).document,
            old(self).revision == u32::MAX ==> (r matches Err(e) && e.0@ == "Session revision exhausted"@
                && *final(self) == *old(self)),
    {
        if self.revision == u32::MAX {
            return Err(failure("Session revision exhausted"));
        }
        self.revision = self.revision + 1;
        Ok(())
    }

    pub fn summary(&self) -> (r: Result<Summary, Error>)
        ensures
            match self.document {
                Some(d) => r matches Ok(s) && summary_matches(d, self.revision, s),
                None => r matches Err(e) && e.0@ == "No save is open"@,
            },
    {
        match &self.document {
            Some(doc) => Ok(
                Summary {
                    original_bytes: doc.original_size,
                    encoded_bytes: doc.encoded_size,
                    records: doc.record_count(),
                    types: doc.type_count(),
                    objects: doc.object_count(),
                    revision: self.revision,
                },
            ),
            None => Err(failure("No save is open")),
        }
    }

    fn doc(&self) -> (r: Result<&Document, Error>)
        ensures
            match self.document {
                Some(d) => r matches Ok(x) && *x == d,
                None => r matches Err(e) && e.0@ == "No save is open"@,
            },
    {
        match &self.document {
            Some(d) => Ok(d),
            None => Err(failure("No save is open")),
        }
    }

    /// The encoded bytes of the open document.
    pub fn export(&self) -> (r: Result<Vec<u8>, Error>)
        requires
            self.inv(),
        ensures
            match self.document {
                Some(d) => r matches Ok(b) && b@ == spec_encode(d.rs(), d.roots@),
                None => r matches Err(e) && e.0@ == "No save is open"@,
            },
    {
        Ok(self.doc()?.encode())
    }
}

proof fn lemma_decoded_wf(d: &Document, bytes: Seq<u8>, limits: Limits)
    requires
        d.decoded_from(bytes, limits),
    ensures
        d.wf(),
{
}

/// `d2` is `d` with the payload of `node` replaced and the encoded size set to `size`.
pub open spec fn payload_edit(d: Document, d2: Document, node: usize, p: PayloadModel, size: int) -> bool {
    &&& d2.rs() == d.rs().update(node as int, RecordModel { payload: p, ..d.rs()[node as int] })
    &&& d2.roots == d.roots
    &&& d2.types == d.types
    &&& d2.objects == d.objects
    &&& d2.next_object_id == d.next_object_id
    &&& d2.original_size == d.original_size
    &&& d2.encoded_size == size
    &&& d2.max_bytes == d.max_bytes
}

/// Length in bytes of the UTF-8 encoding of a text.
pub open spec fn utf8_len(s: Seq<char>) -> usize {
    encode_utf8(s).len() as usize
}

/// What a single-value edit does: the new payload and encoded size, or the refusal message.
/// Checks run in this order, and a refused edit changes nothing.
pub open spec fn set_value_result(s: Service, edit: EditRequest) -> Result<(PayloadModel, int), Seq<char>> {
    if edit.revision != s.revision {
        Err("Stale edit; reload the current document view"@)
    } else {
        match s.document {
            None => Err("No save is open"@),
            Some(d) => if edit.node >= d.records@.len() {
                Err("Unknown node"@)
            } else {
                let rec = d.rs()[edit.node as int];
                if rec.tag != edit.expected_tag {
                    Err("Field type changed"@)
                } else if utf8_len(edit.value@) > d.max_bytes / 2 {
                    Err("Value exceeds size limit"@)
                } else {
                    match replacement_spec(rec.tag, rec.payload, edit.value@, edit.float) {
                        Err(k) => Err(refusal_text(k)),
                        Ok(p) => {
                            let size = d.encoded_size - payload_size_spec(rec.payload)
                                + payload_size_spec(p);
                            if size < 0 || size > d.max_bytes {
                                Err("Edited document exceeds size limit"@)
                            } else if s.revision == u32::MAX {
                                Err("Session revision exhausted"@)
                            } else {
                                Ok((p, size))
                            }
                        },
                    }
                }
            },
        }
    }
}

/// What a page request answers, or its refusal message.
pub open spec fn children_result(s: Service, parent: Option<usize>, limit: usize) -> Result<Seq<usize>, Seq<char>> {
    if limit == 0 || limit > 200 {
        Err("Page size must be 1..200"@)
    } else {
        match s.document {
            None => Err("No save is open"@),
            Some(d) => match parent {
                Some(p) => if p < d.records@.len() {
                    Ok(d.rs()[p as int].children)
                } else {
                    Err("Unknown node"@)
                },
                None => Ok(d.roots@),
            },
        }
    }
}

/// Views of `ids[offset..offset + limit]`.
pub fn page(doc: &Document, ids: &Vec<usize>, offset: usize, limit: usize) -> (p: Page)
    requires
        doc.wf(),
        forall|i: int| 0 <= i < ids@.len() ==> #[trigger] ids@[i] < doc.records@.len(),
    ensures
        page_matches(*doc, ids@, offset, limit, p),
{
    let start = if offset < ids.len() { offset } else { ids.len() };
    let end = if limit < ids.len() - start { start + limit } else { ids.len() };
    let mut nodes: Vec<NodeView> = Vec::new();
    let mut i = start;
    while i < end
        invariant
            doc.wf(),
            forall|i: int| 0 <= i < ids@.len() ==> #[trigger] ids@[i] < doc.records@.len(),
            start <= i <= end <= ids@.len(),
            nodes@.len() == i - start,
            forall|k: int| 0 <= k < nodes@.len() ==> view_matches(doc, ids@[start + k], #[trigger] nodes@[k]),
        decreases end - i,
    {
        let v = view(doc, ids[i]);
        nodes.push(v);
        i = i + 1;
    }
    Page { nodes, total: ids.len() }
}

impl Service {
    /// Answers one adapter request.
    pub fn request(&mut self, request: Request) -> (r: Result<Response, Error>)
        requires
            old(self).inv(),
        ensures
            final(self).inv(),
            r is Err ==> *final(self) == *old(self),
            match request {
                Request::Children { parent, offset, limit } => *final(self) == *old(self) && match children_result(
                    *old(self),
                    parent,
                    limit,
                ) {
                    Ok(ids) => r matches Ok(Response::Children(p)) && page_matches(
                        old(self).document->0,
                        ids,
                        offset,
                        limit,
                        p,
                    ),
                    Err(m) => r matches Err(e) && e.0@ == m,
                },
                Request::SetValue { edit } => match set_value_result(*old(self), edit) {
                    Ok((p, size)) => {
                        &&& final(self).revision == old(self).revision + 1
                        &&& final(self).document matches Some(d2)
                        &&& payload_edit(old(self).document->0, d2, edit.node, p, size)
                        &&& r matches Ok(Response::SetValue(sum))
                        &&& summary_matches(d2, final(self).revision, sum)
                    },
                    Err(m) => r matches Err(e) && e.0@ == m,
                },
                Request::Close => if old(self).revision < u32::MAX {
                    &&& r matches Ok(Response::Close)
                    &&& final(self).document is None
                    &&& final(self).revision == old(self).revision + 1
                } else {
                    r matches Err(e) && e.0@ == "Session revision exhausted"@
                },
            },
    {
        match request {
            Request::Children { parent, offset, limit } => {
                if limit == 0 || limit > 200 {
                    return Err(failure("Page size must be 1..200"));
                }
                let doc = match self.doc() {
                    Ok(d) => d,
                    Err(e) => return Err(e),
                };
                let ids = match parent {
                    Some(id) => {
                        if id >= doc.records.len() {
                            return Err(failure("Unknown node"));
                        }
                        assert(doc.rs()[id as int] == doc.records@[id as int]@);
                        assert forall|i: int| 0 <= i < doc.records@[id as int].children@.len() implies
                            #[trigger] doc.records@[id as int].children@[i] < doc.records@.len() by {
                            assert(doc.rs()[id as int].children[i] == doc.records@[id as int].children@[i]);
                        }
                        &doc.records[id].children
                    },
                    None => &doc.roots,
                };
                let p = page(doc, ids, offset, limit);
                Ok(Response::Children(p))
            },
            Request::SetValue { edit } => {
                if edit.revision != self.revision {
                    return Err(failure("Stale edit; reload the current document view"));
                }
                let doc = match self.doc() {
                    Ok(d) => d,
                    Err(e) => return Err(e),
                };
                if edit.node >= doc.records.len() {
                    return Err(failure("Unknown node"));
                }
                let record = &doc.records[edit.node];
                assert(doc.rs()[edit.node as int] == record@);
                if record.tag != edit.expected_tag {
                    return Err(failure("Field type changed"));
                }
                if edit.value.as_str().len() > doc.max_bytes / 2 {
                    return Err(failure("Value exceeds size limit"));
                }
                let replacement = match replacement(record.tag, &record.payload, edit.value.as_str(), edit.float) {
                    Ok(p) => p,
                    Err(e) => {
                        return Err(e);
                    },
                };
                let old_size = payload_size(&record.payload);
                let new_size = payload_size(&replacement);
                let size: i128 = doc.encoded_size as i128 - old_size + new_size;
                if size < 0 || size > doc.max_bytes as i128 {
                    return Err(failure("Edited document exceeds size limit"));
                }
                let ghost before = *self;
                let ghost pm = replacement@;
                if let Err(e) = self.bump() {
                    return Err(e);
                }
                let mut d = self.document.take().unwrap();
                let ghost old_rs = d.rs();
                d.records[edit.node].payload = replacement;
                d.encoded_size = size as usize;
                assert(d.rs() =~= old_rs.update(
                    edit.node as int,
                    RecordModel { payload: pm, ..old_rs[edit.node as int] },
                ));
                assert(payload_edit(before.document->0, d, edit.node, pm, size as int));
                self.document = Some(d);
                match self.summary() {
                    Ok(sum) => Ok(Response::SetValue(sum)),
                    Err(e) => Err(e),
                }
            },
            Request::Close => {
                if let Err(e) = self.bump() {
                    return Err(e);
                }
                self.document = None;
                Ok(Response::Close)
            },
        }
    }
}

proof fn lemma_digit_char(d: nat)
    requires
        d < 10,
    ensures
        '0' <= digit_char(d) <= '9',
        digit_char(d) as int - '0' as int == d,
{
}

/// Decimal notation is a nonempty run of digits whose value is the number.
proof fn lemma_decimal(n: nat)
    ensures
        decimal(n).len() > 0,
        all_digits(decimal(n)),
        digits_value(decimal(n)) == n,
    decreases n,
{
    if n < 10 {
        lemma_digit_char(n);
        let s = decimal(n);
        assert(s.drop_last() =~= Seq::<char>::empty());
        assert(digits_value(Seq::<char>::empty()) == 0);
        assert(s.last() == digit_char(n));
        assert(digits_value(s) == digits_value(s.drop_last()) * 10 + (s.last() as int - '0' as int));
    } else {
        lemma_decimal(n / 10);
        lemma_digit_char(n % 10);
        let s = decimal(n);
        assert(s.drop_last() =~= decimal(n / 10));
        assert(s.last() == digit_char(n % 10));
        assert(digits_value(s) == digits_value(decimal(n / 10)) * 10 + (digit_char(n % 10) as int - '0' as int));
        assert((n / 10) * 10 + n % 10 == n) by (nonlinear_arith);
        assert forall|i: int| 0 <= i < s.len() implies '0' <= #[trigger] s[i] <= '9' by {
            if i < s.len() - 1 {
                assert(s[i] == decimal(n / 10)[i]);
            }
        }
    }
}

/// The decimal text of a value in range reads back as that value.
proof fn lemma_parse_decimal(v: int, lo: int, hi: int)
    requires
        lo <= v <= hi,
        lo < 0 || v >= 0,
    ensures
        parse_integer_spec(signed_decimal(v), lo, hi) == Some(v),
{
    if v >= 0 {
        lemma_decimal(v as nat);
        let s = decimal(v as nat);
        assert('0' <= s[0] <= '9');
        assert(sign_len(s, lo) == 0);
        assert(s.subrange(0, s.len() as int) =~= s);
    } else {
        lemma_decimal((-v) as nat);
        let d = decimal((-v) as nat);
        let s = seq!['-'] + d;
        assert(s[0] == '-');
        assert(sign_len(s, lo) == 1);
        assert(s.subrange(1, s.len() as int) =~= d);
    }
}

/// Storing the value that the inspector shows for an integer token leaves its bytes as they
/// were.
pub proof fn law_shown_integer_reads_back(tag: u8, b: Seq<u8>, float: Option<FloatBits>)
    requires
        integer_value(spec_base_tag(tag), b) is Some,
    ensures
        replacement_spec(tag, PayloadModel::Fixed(b), signed_decimal(integer_value(spec_base_tag(tag), b)->0), float)
            == Ok::<PayloadModel, Refusal>(PayloadModel::Fixed(b)),
{
    let base = spec_base_tag(tag);
    let (w, sg) = integer_format(base)->0;
    let u = le_value(b);
    let v = integer_value(base, b)->0;
    lemma_pow_values();
    lemma_le_value_bound(b);
    lemma_le_roundtrip(b);
    assert(pow256(w) == pow2(8 * w)) by {
        lemma_pow_values();
    }
    let (lo, hi) = integer_bounds(base)->0;
    assert(pow2(8 * w) == 2 * pow2((8 * w - 1) as nat)) by {
        lemma_pow_values();
    }
    assert(lo <= v <= hi);
    lemma_parse_decimal(v, lo, hi);
    assert(twos(v, 8 * w) == u);
}

/// Writing the decimal text of `n` into an integer token stores `n`, which the token then
/// shows as that text.
pub proof fn lemma_decimal_reads_back(tag: u8, prev: PayloadModel, n: nat)
    requires
        integer_format(spec_base_tag(tag)) is Some,
        replacement_spec(tag, prev, decimal(n), None) is Ok,
    ensures
        replacement_spec(tag, prev, decimal(n), None)->Ok_0 matches PayloadModel::Fixed(b) && fixed_text(
            spec_base_tag(tag),
            b,
        ) == Some(decimal(n)),
{
    let base = spec_base_tag(tag);
    let (w, sg) = integer_format(base)->0;
    let (lo, hi) = integer_bounds(base)->0;
    lemma_decimal(n);
    let s = decimal(n);
    assert('0' <= s[0] <= '9');
    assert(sign_len(s, lo) == 0);
    assert(s.subrange(0, s.len() as int) =~= s);
    assert(lo <= n <= hi);
    lemma_pow_values();
    assert(pow256(w) == pow2(8 * w)) by {
        lemma_pow_values();
    }
    assert(pow2(8 * w) == 2 * pow2((8 * w - 1) as nat)) by {
        lemma_pow_values();
    }
    assert(n < pow256(w));
    lemma_le_bytes_value(n, w);
    lemma_le_bytes_len(n, w);
    let b = le_bytes(n, w);
    assert(le_value(b) == n);
    assert(integer_value(base, b) == Some(n as int));
}

} // verus!
