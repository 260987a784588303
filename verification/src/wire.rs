//! The Odin binary token stream: records, their wire bytes, decoding and encoding.
use crate::endian::{i32_le, i64_le, le_bytes, push_i32, push_i64, push_unsigned};
use crate::endian::{read_i32, read_i64, twos, lemma_pow_values, le_value, signed};
use crate::text::{decimal, push_unsigned_text};
use std::collections::HashMap;
use vstd::string::StringExecFns;
use crate::bracket::{
    bracketed, is_end, linked, lemma_bracketed_close, lemma_bracketed_empty, lemma_bracketed_leaf, lemma_bracketed_open,
    lemma_bracketed_terminator, lemma_types_append, stack_top, types_known, types_ordered, types_step,
};
use vstd::prelude::*;

verus! {

broadcast use vstd::std_specs::hash::group_hash_axioms;

/// A failure, with a message for the user.
#[derive(Debug)]
pub struct Error(pub String);

/// Resource limits apply before allocation. The parser is iterative, not recursive.
#[derive(Clone, Copy)]
pub struct Limits {
    pub max_bytes: usize,
    pub max_records: usize,
    pub max_depth: usize,
}

pub open spec fn default_limits() -> Limits {
    Limits { max_bytes: 134217728, max_records: 1000000, max_depth: 256 }
}

impl Default for Limits {
    fn default() -> (l: Self)
        ensures
            l == default_limits(),
    {
        Limits { max_bytes: 128 * 1024 * 1024, max_records: 1_000_000, max_depth: 256 }
    }
}

/// A serialized string: a flag selecting 8-bit or UTF-16 code units, and the raw units.
#[derive(Clone)]
pub struct WireString {
    pub wide: bool,
    pub bytes: Vec<u8>,
}

pub struct StringModel {
    pub wide: bool,
    pub bytes: Seq<u8>,
}

impl View for WireString {
    type V = StringModel;

    open spec fn view(&self) -> StringModel {
        StringModel { wide: self.wide, bytes: self.bytes@ }
    }
}

pub open spec fn unit(wide: bool) -> nat {
    if wide {
        2
    } else {
        1
    }
}

/// Wire bytes of a string: encoding flag, 32-bit unit count, units.
pub open spec fn string_wire(s: StringModel) -> Seq<u8> {
    seq![if s.wide { 1u8 } else { 0u8 }] + le_bytes(s.bytes.len() / unit(s.wide), 4) + s.bytes
}

#[derive(Clone)]
pub enum TypeInfo {
    Absent,
    Definition(i32, WireString),
    Reference(i32),
}

pub enum TypeModel {
    Absent,
    Definition(i32, StringModel),
    Reference(i32),
}

impl View for TypeInfo {
    type V = TypeModel;

    open spec fn view(&self) -> TypeModel {
        match self {
            TypeInfo::Absent => TypeModel::Absent,
            TypeInfo::Definition(id, s) => TypeModel::Definition(*id, s@),
            TypeInfo::Reference(id) => TypeModel::Reference(*id),
        }
    }
}

#[derive(Clone)]
pub enum Payload {
    Empty,
    Node { ty: TypeInfo, object: Option<i32> },
    Array(i64),
    Packed { count: i32, width: i32, bytes: Vec<u8> },
    Fixed(Vec<u8>),
    Text(WireString),
}

pub enum PayloadModel {
    Empty,
    Node { ty: TypeModel, object: Option<i32> },
    Array(i64),
    Packed { count: i32, width: i32, bytes: Seq<u8> },
    Fixed(Seq<u8>),
    Text(StringModel),
}

impl View for Payload {
    type V = PayloadModel;

    open spec fn view(&self) -> PayloadModel {
        match self {
            Payload::Empty => PayloadModel::Empty,
            Payload::Node { ty, object } => PayloadModel::Node { ty: ty@, object: *object },
            Payload::Array(c) => PayloadModel::Array(*c),
            Payload::Packed { count, width, bytes } => PayloadModel::Packed {
                count: *count,
                width: *width,
                bytes: bytes@,
            },
            Payload::Fixed(b) => PayloadModel::Fixed(b@),
            Payload::Text(s) => PayloadModel::Text(s@),
        }
    }
}

/// One token of the stream, with its position in the containment tree.
#[derive(Clone)]
pub struct Record {
    pub tag: u8,
    pub name: Option<WireString>,
    pub payload: Payload,
    pub parent: Option<usize>,
    pub children: Vec<usize>,
    pub offset: usize,
}

pub struct RecordModel {
    pub tag: u8,
    pub name: Option<StringModel>,
    pub payload: PayloadModel,
    pub parent: Option<usize>,
    pub children: Seq<usize>,
    pub offset: usize,
}

pub open spec fn opt_string_view(s: Option<WireString>) -> Option<StringModel> {
    match s {
        Some(s) => Some(s@),
        None => None,
    }
}

impl View for Record {
    type V = RecordModel;

    open spec fn view(&self) -> RecordModel {
        RecordModel {
            tag: self.tag,
            name: opt_string_view(self.name),
            payload: self.payload@,
            parent: self.parent,
            children: self.children@,
            offset: self.offset,
        }
    }
}

pub open spec fn type_wire(t: TypeModel) -> Seq<u8> {
    match t {
        TypeModel::Absent => seq![46u8],
        TypeModel::Reference(id) => seq![48u8] + i32_le(id as int),
        TypeModel::Definition(id, name) => seq![47u8] + i32_le(id as int) + string_wire(name),
    }
}

pub open spec fn payload_wire(p: PayloadModel) -> Seq<u8> {
    match p {
        PayloadModel::Empty => Seq::empty(),
        PayloadModel::Node { ty, object } => type_wire(ty) + match object {
            Some(id) => i32_le(id as int),
            None => Seq::empty(),
        },
        PayloadModel::Array(c) => i64_le(c as int),
        PayloadModel::Packed { count, width, bytes } => i32_le(count as int) + i32_le(
            width as int,
        ) + bytes,
        PayloadModel::Fixed(b) => b,
        PayloadModel::Text(s) => string_wire(s),
    }
}

/// Wire bytes of a record header: tag, optional name, payload. Children are not part of it.
pub open spec fn record_wire(r: RecordModel) -> Seq<u8> {
    seq![r.tag] + match r.name {
        Some(n) => string_wire(n),
        None => Seq::empty(),
    } + payload_wire(r.payload)
}

pub open spec fn models(rs: Seq<Record>) -> Seq<RecordModel> {
    rs.map_values(|r: Record| r@)
}

/// Concatenation of byte sequences, in order.
pub open spec fn concat(parts: Seq<Seq<u8>>) -> Seq<u8>
    decreases parts.len(),
{
    if parts.len() == 0 {
        Seq::empty()
    } else {
        concat(parts.drop_last()) + parts.last()
    }
}

pub open spec fn headers(rs: Seq<RecordModel>) -> Seq<Seq<u8>> {
    rs.map_values(|r: RecordModel| record_wire(r))
}

/// Concatenated wire bytes of a sequence of records, in order.
pub open spec fn stream_wire(rs: Seq<RecordModel>) -> Seq<u8> {
    concat(headers(rs))
}

/// Tokens that carry a name string.
pub open spec fn spec_named(tag: u8) -> bool {
    tag == 1 || tag == 3 || tag == 50 || (9 <= tag <= 45 && tag % 2 == 1)
}

pub open spec fn spec_base_tag(tag: u8) -> u8 {
    if spec_named(tag) && 9 <= tag <= 45 {
        (tag + 1) as u8
    } else {
        tag
    }
}

/// Tokens that close a container or the stream; they are not tree nodes.
pub open spec fn spec_terminal(tag: u8) -> bool {
    tag == 5 || tag == 7 || tag == 49
}

/// Tokens that open a container.
pub open spec fn container(tag: u8) -> bool {
    1 <= tag <= 4 || tag == 6
}

#[verifier::when_used_as_spec(spec_named)]
pub fn named(tag: u8) -> (b: bool)
    ensures
        b == spec_named(tag),
{
    tag == 1 || tag == 3 || tag == 50 || (9 <= tag && tag <= 45 && tag % 2 == 1)
}

#[verifier::when_used_as_spec(spec_base_tag)]
pub fn base_tag(tag: u8) -> (b: u8)
    ensures
        b == spec_base_tag(tag),
{
    if named(tag) && 9 <= tag && tag <= 45 {
        tag + 1
    } else {
        tag
    }
}

#[verifier::when_used_as_spec(spec_terminal)]
pub fn terminal(tag: u8) -> (b: bool)
    ensures
        b == spec_terminal(tag),
{
    tag == 5 || tag == 7 || tag == 49
}

/// Copies a byte vector.
pub fn copy_bytes(b: &Vec<u8>) -> (r: Vec<u8>)
    ensures
        r@ == b@,
{
    let r = b.clone();
    assert(r@ =~= b@);
    r
}

impl WireString {
    pub fn duplicate(&self) -> (r: Self)
        ensures
            r@ == self@,
    {
        WireString { wide: self.wide, bytes: copy_bytes(&self.bytes) }
    }

    /// Appends the wire bytes of this string.
    pub fn write(&self, out: &mut Vec<u8>)
        ensures
            final(out)@ == old(out)@ + string_wire(self@),
    {
        out.push(if self.wide { 1u8 } else { 0u8 });
        let units = if self.wide { self.bytes.len() / 2 } else { self.bytes.len() };
        push_unsigned(out, units as u64, 4);
        let ghost mid = out@;
        let mut i: usize = 0;
        while i < self.bytes.len()
            invariant
                i <= self.bytes@.len(),
                out@ == mid + self.bytes@.subrange(0, i as int),
            decreases self.bytes@.len() - i,
        {
            out.push(self.bytes[i]);
            assert(self.bytes@.subrange(0, i + 1) =~= self.bytes@.subrange(0, i as int).push(
                self.bytes@[i as int],
            ));
            i = i + 1;
        }
        assert(self.bytes@.subrange(0, self.bytes@.len() as int) =~= self.bytes@);
        assert(out@ =~= old(out)@ + string_wire(self@));
    }
}

impl TypeInfo {
    pub fn duplicate(&self) -> (r: Self)
        ensures
            r@ == self@,
    {
        match self {
            TypeInfo::Absent => TypeInfo::Absent,
            TypeInfo::Definition(id, s) => TypeInfo::Definition(*id, s.duplicate()),
            TypeInfo::Reference(id) => TypeInfo::Reference(*id),
        }
    }
}

impl Payload {
    pub fn duplicate(&self) -> (r: Self)
        ensures
            r@ == self@,
    {
        match self {
            Payload::Empty => Payload::Empty,
            Payload::Node { ty, object } => Payload::Node { ty: ty.duplicate(), object: *object },
            Payload::Array(c) => Payload::Array(*c),
            Payload::Packed { count, width, bytes } => Payload::Packed {
                count: *count,
                width: *width,
                bytes: copy_bytes(bytes),
            },
            Payload::Fixed(b) => Payload::Fixed(copy_bytes(b)),
            Payload::Text(s) => Payload::Text(s.duplicate()),
        }
    }
}

/// Appends the bytes of a vector.
pub fn push_all(out: &mut Vec<u8>, b: &Vec<u8>)
    ensures
        final(out)@ == old(out)@ + b@,
{
    let mut i: usize = 0;
    while i < b.len()
        invariant
            i <= b@.len(),
            out@ == old(out)@ + b@.subrange(0, i as int),
        decreases b@.len() - i,
    {
        out.push(b[i]);
        assert(b@.subrange(0, i + 1) =~= b@.subrange(0, i as int).push(b@[i as int]));
        i = i + 1;
    }
    assert(b@.subrange(0, b@.len() as int) =~= b@);
}

impl Payload {
    /// Appends the wire bytes of this payload.
    pub fn write(&self, out: &mut Vec<u8>)
        ensures
            final(out)@ == old(out)@ + payload_wire(self@),
    {
        let ghost start = out@;
        match self {
            Payload::Empty => {},
            Payload::Node { ty, object } => {
                match ty {
                    TypeInfo::Absent => out.push(46),
                    TypeInfo::Reference(id) => {
                        out.push(48);
                        push_i32(out, *id);
                    },
                    TypeInfo::Definition(id, name) => {
                        out.push(47);
                        push_i32(out, *id);
                        name.write(out);
                    },
                }
                assert(out@ =~= start + type_wire(ty@));
                if let Some(id) = object {
                    push_i32(out, *id);
                }
            },
            Payload::Array(count) => push_i64(out, *count),
            Payload::Packed { count, width, bytes } => {
                push_i32(out, *count);
                push_i32(out, *width);
                push_all(out, bytes);
            },
            Payload::Fixed(bytes) => push_all(out, bytes),
            Payload::Text(value) => value.write(out),
        }
        assert(out@ =~= start + payload_wire(self@));
    }
}

impl Record {
    pub fn duplicate(&self) -> (r: Self)
        ensures
            r@ == self@,
    {
        let children = self.children.clone();
        assert(children@ =~= self.children@);
        Record {
            tag: self.tag,
            name: match &self.name {
                Some(n) => Some(n.duplicate()),
                None => None,
            },
            payload: self.payload.duplicate(),
            parent: self.parent,
            children,
            offset: self.offset,
        }
    }

    /// Appends the wire bytes of this record's header (tag, name, payload).
    pub fn write(&self, out: &mut Vec<u8>)
        ensures
            final(out)@ == old(out)@ + record_wire(self@),
    {
        let ghost start = out@;
        out.push(self.tag);
        if let Some(name) = &self.name {
            name.write(out);
        }
        let ghost mid = out@;
        self.payload.write(out);
        assert(out@ =~= mid + payload_wire(self@.payload));
        assert(out@ =~= start + record_wire(self@));
    }
}


/// An error located at an input position: "At byte N: message".
pub fn fail_at(pos: usize, message: &str) -> (e: Error)
    ensures
        e.0@ == "At byte "@ + decimal(pos as nat) + ": "@ + message@,
{
    proof {
        reveal_strlit("At byte ");
        reveal_strlit(": ");
    }
    let mut s = String::new();
    s.append("At byte ");
    push_unsigned_text(&mut s, pos as u64);
    s.append(": ");
    s.append(message);
    Error(s)
}

/// An error with a fixed message.
pub fn failure(message: &str) -> (e: Error)
    ensures
        e.0@ == message@,
{
    let mut s = String::new();
    s.append(message);
    Error(s)
}

/// Copies `bytes[from..to]`.
pub fn copy_range(bytes: &[u8], from: usize, to: usize) -> (r: Vec<u8>)
    requires
        from <= to <= bytes@.len(),
    ensures
        r@ == bytes@.subrange(from as int, to as int),
{
    let mut r: Vec<u8> = Vec::new();
    let mut i = from;
    while i < to
        invariant
            from <= i <= to <= bytes@.len(),
            r@ == bytes@.subrange(from as int, i as int),
        decreases to - i,
    {
        r.push(bytes[i]);
        assert(bytes@.subrange(from as int, i + 1) =~= bytes@.subrange(from as int, i as int).push(
            bytes@[i as int],
        ));
        i = i + 1;
    }
    r
}

/// Advances over `len` bytes, failing at the end of input.
fn take(bytes: &[u8], pos: usize, len: usize) -> (r: Result<usize, Error>)
    requires
        pos <= bytes@.len(),
    ensures
        r matches Ok(end) ==> end == pos + len && end <= bytes@.len(),
        r is Err <==> pos + len > bytes@.len(),
{
    let n = bytes.len();
    match pos.checked_add(len) {
        Some(end) => {
            if end > n {
                Err(fail_at(pos, "truncated payload"))
            } else {
                Ok(end)
            }
        },
        None => Err(fail_at(pos, "length overflow")),
    }
}

/// The signed 32-bit integer whose little-endian bytes start at `pos`.
pub open spec fn i32_at(b: Seq<u8>, pos: int) -> int {
    signed(le_value(b.subrange(pos, pos + 4)), 32)
}

/// Whether a whole string starts at `pos`: a known encoding flag, a count that is not
/// negative, and as many code units.
pub open spec fn string_fits(b: Seq<u8>, pos: int) -> bool {
    &&& pos + 5 <= b.len()
    &&& b[pos] <= 1
    &&& i32_at(b, pos + 1) >= 0
    &&& pos + 5 + i32_at(b, pos + 1) * unit(b[pos] == 1) <= b.len()
}

fn read_i32_at(bytes: &[u8], pos: usize) -> (r: Result<(i32, usize), Error>)
    requires
        pos <= bytes@.len(),
    ensures
        r is Ok <==> pos + 4 <= bytes@.len(),
        r matches Ok((v, _)) ==> v as int == i32_at(bytes@, pos as int),
        r matches Ok((v, end)) ==> end == pos + 4 && end <= bytes@.len() && bytes@.subrange(
            pos as int,
            end as int,
        ) == i32_le(v as int),
{
    let end = take(bytes, pos, 4)?;
    Ok((read_i32(bytes, pos), end))
}

/// Reads a string at `pos`: flag byte, unit count, units.
fn read_string(bytes: &[u8], pos: usize) -> (r: Result<(WireString, usize), Error>)
    requires
        pos <= bytes@.len(),
    ensures
        r is Ok <==> string_fits(bytes@, pos as int),
        r matches Ok((s, end)) ==> pos < end <= bytes@.len() && bytes@.subrange(
            pos as int,
            end as int,
        ) == string_wire(s@),
{
    let p = take(bytes, pos, 1)?;
    let flag = bytes[pos];
    if flag > 1 {
        return Err(fail_at(p, "unknown string encoding"));
    }
    let (count, p2) = read_i32_at(bytes, p)?;
    if count < 0 {
        return Err(fail_at(p2, "negative string length"));
    }
    let length = match (count as usize).checked_mul(if flag == 1 { 2 } else { 1 }) {
        Some(l) => l,
        None => return Err(fail_at(p2, "string length overflow")),
    };
    let end = take(bytes, p2, length)?;
    let s = WireString { wide: flag == 1, bytes: copy_range(bytes, p2, end) };
    proof {
        lemma_pow_values();
        assert(twos(count as int, 32) == count);
        assert(s@.bytes.len() / unit(s.wide) == count);
        assert(bytes@.subrange(pos as int, end as int) =~= bytes@.subrange(pos as int, p as int)
            + bytes@.subrange(p as int, p2 as int) + bytes@.subrange(p2 as int, end as int));
        assert(bytes@.subrange(pos as int, p as int) =~= seq![if s.wide { 1u8 } else { 0u8 }]);
    }
    Ok((s, end))
}

/// Width in bytes of a fixed-size scalar token, by base tag.
pub open spec fn fixed_width(base: u8) -> Option<nat> {
    if base == 16 || base == 18 || base == 44 {
        Some(1)
    } else if base == 20 || base == 22 || base == 38 {
        Some(2)
    } else if base == 10 || base == 12 || base == 24 || base == 26 || base == 32 {
        Some(4)
    } else if base == 28 || base == 30 || base == 34 {
        Some(8)
    } else if base == 14 || base == 36 || base == 42 {
        Some(16)
    } else {
        None
    }
}

fn width_of(base: u8) -> (w: Option<usize>)
    ensures
        w matches Some(n) ==> fixed_width(base) == Some(n as nat),
        w is None <==> fixed_width(base) is None,
{
    match base {
        16 | 18 | 44 => Some(1),
        20 | 22 | 38 => Some(2),
        10 | 12 | 24 | 26 | 32 => Some(4),
        28 | 30 | 34 => Some(8),
        14 | 36 | 42 => Some(16),
        _ => None,
    }
}

/// Reads the payload of a token that is neither a container end nor the stream terminator.
/// Declared type IDs and object IDs are registered as they are read.
fn read_payload(
    bytes: &[u8],
    pos: usize,
    tag: u8,
    types: &mut HashMap<i32, WireString>,
    objects: &mut HashMap<i32, usize>,
    next_id: usize,
    references: &mut Vec<i32>,
    max_records: usize,
) -> (r: Result<(Payload, usize), Error>)
    requires
        pos <= bytes@.len(),
        !spec_terminal(tag),
    ensures
        r matches Ok((p, end)) ==> {
            &&& pos <= end <= bytes@.len()
            &&& bytes@.subrange(pos as int, end as int) == payload_wire(p@)
            &&& (p@ matches PayloadModel::Node { object: Some(id), .. } ==> final(objects)@
                == old(objects)@.insert(id, next_id))
            &&& (!(p@ matches PayloadModel::Node { object: Some(_), .. }) ==> final(objects)@
                == old(objects)@)
            &&& types_step(p@, old(types)@.dom(), final(types)@.dom())
            &&& (p@ is Array ==> tag == 6)
            &&& (p@ matches PayloadModel::Array(c) ==> c >= 0)
            &&& (node_object(p@) matches Some(o) ==> o >= 0 && !old(objects)@.contains_key(o))
            &&& final(references)@ == match tag_reference(tag, p@) {
                Some(o) => old(references)@.push(o),
                None => old(references)@,
            }
        },
{
    if 1 <= tag && tag <= 4 {
        let p = take(bytes, pos, 1)?;
        let descriptor = bytes[pos];
        let (ty, p2) = if descriptor == 46 {
            (TypeInfo::Absent, p)
        } else if descriptor == 47 {
            let (id, p2) = read_i32_at(bytes, p)?;
            let (value, p3) = read_string(bytes, p2)?;
            if id < 0 || types.contains_key(&id) {
                return Err(fail_at(p3, "invalid/duplicate type ID"));
            }
            types.insert(id, value.duplicate());
            proof {
                assert(bytes@.subrange(pos as int, p3 as int) =~= seq![47u8] + bytes@.subrange(
                    p as int,
                    p2 as int,
                ) + bytes@.subrange(p2 as int, p3 as int));
            }
            (TypeInfo::Definition(id, value), p3)
        } else if descriptor == 48 {
            let (id, p2) = read_i32_at(bytes, p)?;
            if !types.contains_key(&id) {
                return Err(fail_at(p2, "undeclared type ID"));
            }
            proof {
                assert(bytes@.subrange(pos as int, p2 as int) =~= seq![48u8] + bytes@.subrange(
                    p as int,
                    p2 as int,
                ));
            }
            (TypeInfo::Reference(id), p2)
        } else {
            return Err(fail_at(p, "invalid type descriptor"));
        };
        assert(bytes@.subrange(pos as int, p2 as int) == type_wire(ty@)) by {
            if descriptor == 46 {
                assert(bytes@.subrange(pos as int, p2 as int) =~= seq![46u8]);
            }
        }
        if tag <= 2 {
            let (id, p3) = read_i32_at(bytes, p2)?;
            if id < 0 || objects.contains_key(&id) {
                return Err(fail_at(p3, "invalid/duplicate object ID"));
            }
            objects.insert(id, next_id);
            let payload = Payload::Node { ty, object: Some(id) };
            assert(bytes@.subrange(pos as int, p3 as int) =~= bytes@.subrange(pos as int, p2 as int)
                + bytes@.subrange(p2 as int, p3 as int));
            Ok((payload, p3))
        } else {
            let payload = Payload::Node { ty, object: None };
            assert(payload_wire(payload@) =~= type_wire(ty@));
            Ok((payload, p2))
        }
    } else if tag == 6 {
        let end = take(bytes, pos, 8)?;
        let count = read_i64(bytes, pos);
        if count < 0 || count as u64 > max_records as u64 {
            return Err(fail_at(end, "invalid array count"));
        }
        Ok((Payload::Array(count), end))
    } else if tag == 8 {
        let (count, p) = read_i32_at(bytes, pos)?;
        let (width, p2) = read_i32_at(bytes, p)?;
        if count < 0 || !(width == 1 || width == 2 || width == 4 || width == 8 || width == 16) {
            return Err(fail_at(p2, "invalid primitive array dimensions"));
        }
        let len = match (count as usize).checked_mul(width as usize) {
            Some(l) => l,
            None => return Err(fail_at(p2, "primitive array overflow")),
        };
        let end = take(bytes, p2, len)?;
        let data = copy_range(bytes, p2, end);
        let payload = Payload::Packed { count, width, bytes: data };
        assert(bytes@.subrange(pos as int, end as int) =~= bytes@.subrange(pos as int, p as int)
            + bytes@.subrange(p as int, p2 as int) + bytes@.subrange(p2 as int, end as int));
        Ok((payload, end))
    } else if tag == 39 || tag == 40 || tag == 50 || tag == 51 {
        let (s, end) = read_string(bytes, pos)?;
        Ok((Payload::Text(s), end))
    } else if tag == 45 || tag == 46 {
        assert(bytes@.subrange(pos as int, pos as int) =~= Seq::<u8>::empty());
        Ok((Payload::Empty, pos))
    } else {
        let base = base_tag(tag);
        let width = match width_of(base) {
            Some(w) => w,
            None => {
                let mut message = String::new();
                message.append("unsupported token ");
                push_unsigned_text(&mut message, tag as u64);
                return Err(fail_at(pos, message.as_str()));
            },
        };
        let end = take(bytes, pos, width)?;
        let data = copy_range(bytes, pos, end);
        if base == 10 {
            references.push(read_i32(bytes, pos));
        }
        assert(base == 10 ==> data@.len() == 4);
        if base == 44 && data[0] > 1 {
            return Err(fail_at(end, "invalid boolean"));
        }
        Ok((Payload::Fixed(data), end))
    }
}


/// Every index stored in the records points at an existing record.
pub open spec fn indices_ok(rs: Seq<RecordModel>, roots: Seq<usize>) -> bool {
    &&& forall|i: int, j: int|
        0 <= i < rs.len() && 0 <= j < rs[i].children.len() ==> #[trigger] rs[i].children[j]
            < rs.len()
    &&& forall|i: int| 0 <= i < rs.len() ==> (#[trigger] rs[i].parent matches Some(p) ==> p
        < rs.len())
    &&& forall|j: int| 0 <= j < roots.len() ==> #[trigger] roots[j] < rs.len()
}

/// Owns parsed records, not the original file. Encoding reconstructs every header and payload.
#[derive(Clone)]
pub struct Document {
    pub next_object_id: Option<i32>,
    pub records: Vec<Record>,
    pub roots: Vec<usize>,
    pub types: HashMap<i32, WireString>,
    pub objects: HashMap<i32, usize>,
    pub original_size: usize,
    pub encoded_size: usize,
    pub max_bytes: usize,
}

impl Document {
    pub open spec fn rs(&self) -> Seq<RecordModel> {
        models(self.records@)
    }

    /// Structural well-formedness: indices are in range and the object index points at records.
    pub open spec fn wf(&self) -> bool {
        &&& indices_ok(self.rs(), self.roots@)
        &&& forall|k: i32| #[trigger]
            self.objects@.contains_key(k) ==> self.objects@[k] < self.records@.len()
    }
}

pub proof fn lemma_concat_push(parts: Seq<Seq<u8>>, last: Seq<u8>)
    ensures
        concat(parts.push(last)) == concat(parts) + last,
{
    assert(parts.push(last).drop_last() =~= parts);
}

pub proof fn lemma_headers_push(rs: Seq<RecordModel>, r: RecordModel)
    ensures
        stream_wire(rs.push(r)) == stream_wire(rs) + record_wire(r),
{
    assert(headers(rs.push(r)) =~= headers(rs).push(record_wire(r)));
    lemma_concat_push(headers(rs), record_wire(r));
}

/// Wire bytes ignore the tree links of a record.
pub proof fn lemma_headers_same(a: Seq<RecordModel>, b: Seq<RecordModel>)
    requires
        a.len() == b.len(),
        forall|i: int| 0 <= i < a.len() ==> record_wire(#[trigger] a[i]) == record_wire(b[i]),
    ensures
        stream_wire(a) == stream_wire(b),
        forall|i: int| 0 <= i <= a.len() ==> #[trigger] stream_wire(a.take(i)) == stream_wire(b.take(i)),
{
    assert(headers(a) =~= headers(b));
    assert forall|i: int| 0 <= i <= a.len() implies #[trigger] stream_wire(a.take(i)) == stream_wire(
        b.take(i),
    ) by {
        assert(headers(a.take(i)) =~= headers(b.take(i)));
    }
}

pub proof fn lemma_models_push(rs: Seq<Record>, r: Record)
    ensures
        models(rs.push(r)) == models(rs).push(r@),
{
    assert(models(rs.push(r)) =~= models(rs).push(r@));
}

/// Appends a freshly read record and links it under its parent (or as a root).
fn append_record(records: &mut Vec<Record>, roots: &mut Vec<usize>, record: Record)
    requires
        indices_ok(models(old(records)@), old(roots)@),
        record.parent matches Some(p) ==> p < old(records)@.len(),
        record.children@.len() == 0,
        record.offset == stream_wire(models(old(records)@)).len(),
    ensures
        final(records)@.len() == old(records)@.len() + 1,
        indices_ok(models(final(records)@), final(roots)@),
        stream_wire(models(final(records)@)) == stream_wire(models(old(records)@)) + record_wire(
            record@,
        ),
        forall|i: int|
            0 <= i < old(records)@.len() ==> (#[trigger] models(final(records)@)[i]).offset
                == models(old(records)@)[i].offset,
        forall|i: int|
            0 <= i < final(records)@.len() ==> #[trigger] stream_wire(
                models(final(records)@).take(i),
            ) == stream_wire(models(old(records)@).take(i)),
        models(final(records)@)[old(records)@.len() as int].offset == record.offset,
        linked(models(old(records)@), old(roots)@, models(final(records)@), final(roots)@, record@),
{
    let ghost old_models = models(records@);
    let id = records.len();
    if !terminal(record.tag) {
        match record.parent {
            Some(p) => {
                records[p].children.push(id);
            },
            None => {
                roots.push(id);
            },
        }
    }
    let ghost linked = models(records@);
    let ghost before_push = records@;
    let ghost rec_model = record@;
    proof {
        assert forall|i: int| 0 <= i < linked.len() implies record_wire(#[trigger] linked[i])
            == record_wire(old_models[i]) by {}
        lemma_headers_same(linked, old_models);
    }
    records.push(record);
    proof {
        let ms = models(records@);
        lemma_models_push(before_push, record);
        assert(ms.take(id as int) =~= linked);
        lemma_headers_push(linked, record@);
        assert forall|i: int| 0 <= i < ms.len() implies #[trigger] stream_wire(ms.take(i))
            == stream_wire(old_models.take(i)) by {
            if i < id {
                assert(ms.take(i) =~= linked.take(i));
            } else {
                assert(ms.take(i) =~= linked);
                assert(old_models.take(i) =~= old_models);
            }
        }
        assert(ms.drop_last() =~= linked);
        assert(ms.take(old_models.len() as int) =~= linked);
        if !spec_terminal(rec_model.tag) {
            if let Some(p) = rec_model.parent {
                assert(linked =~= old_models.update(
                    p as int,
                    RecordModel { children: old_models[p as int].children.push(id), ..old_models[p as int] },
                ));
            } else {
                assert(linked =~= old_models);
            }
        } else {
            assert(linked =~= old_models);
        }
        assert forall|i: int, j: int|
            0 <= i < ms.len() && 0 <= j < ms[i].children.len() implies #[trigger] ms[i].children[j]
            < ms.len() by {
            if i < id {
                assert(ms[i] == linked[i]);
            }
        }
    }
}

/// How many containers enclose record `i`, following parent links that lead back to an
/// earlier record.
pub open spec fn nest_depth(rs: Seq<RecordModel>, i: int) -> nat
    decreases i,
{
    if 0 <= i < rs.len() {
        match rs[i].parent {
            Some(p) => if p < i {
                1 + nest_depth(rs, p as int)
            } else {
                0
            },
            None => 0,
        }
    } else {
        0
    }
}

/// Whether a token opens a container.
pub open spec fn opens_container(tag: u8) -> bool {
    (1 <= tag <= 4) || tag == 6
}

/// Whether every container opens fewer than `max_depth` containers deep.
pub open spec fn within_depth(rs: Seq<RecordModel>, max_depth: usize) -> bool {
    forall|i: int| 0 <= i < rs.len() && opens_container(rs[i].tag) ==> #[trigger] nest_depth(rs, i) < max_depth
}

/// The decoder's nesting bookkeeping: parents come before their children, the open
/// containers sit at depths 0, 1, 2 and so on, and no container is nested too deep.
#[verifier::opaque]
pub open spec fn depth_ok(rs: Seq<RecordModel>, stack: Seq<usize>, max_depth: usize) -> bool {
    &&& forall|i: int| 0 <= i < rs.len() ==> ((#[trigger] rs[i]).parent matches Some(p) ==> p < i)
    &&& forall|j: int| 0 <= j < stack.len() ==> nest_depth(rs, #[trigger] stack[j] as int) == j
    &&& within_depth(rs, max_depth)
}

proof fn lemma_depth_kept(rs: Seq<RecordModel>, ms: Seq<RecordModel>, i: int)
    requires
        rs.len() <= ms.len(),
        0 <= i < rs.len(),
        forall|k: int| 0 <= k < rs.len() ==> (#[trigger] ms[k]).parent == rs[k].parent,
    ensures
        nest_depth(ms, i) == nest_depth(rs, i),
    decreases i,
{
    match rs[i].parent {
        Some(p) => if p < i {
            lemma_depth_kept(rs, ms, p as int);
        },
        None => {},
    }
}

/// Appending a record whose parent is the top of the open-container stack.
proof fn lemma_depth_append(rs: Seq<RecordModel>, ms: Seq<RecordModel>, stack: Seq<usize>, rec: RecordModel)
    requires
        forall|i: int| 0 <= i < rs.len() ==> ((#[trigger] rs[i]).parent matches Some(p) ==> p < i),
        forall|j: int| 0 <= j < stack.len() ==> nest_depth(rs, #[trigger] stack[j] as int) == j,
        forall|j: int| 0 <= j < stack.len() ==> #[trigger] stack[j] < rs.len(),
        ms.len() == rs.len() + 1,
        ms[rs.len() as int] == rec,
        rec.parent == stack_top(stack),
        forall|k: int| 0 <= k < rs.len() ==> (#[trigger] ms[k]).parent == rs[k].parent,
    ensures
        forall|i: int| 0 <= i < ms.len() ==> ((#[trigger] ms[i]).parent matches Some(p) ==> p < i),
        forall|i: int| 0 <= i < rs.len() ==> #[trigger] nest_depth(ms, i) == nest_depth(rs, i),
        nest_depth(ms, rs.len() as int) == stack.len(),
        forall|j: int| 0 <= j < stack.len() ==> nest_depth(ms, #[trigger] stack[j] as int) == j,
{
    assert forall|i: int| 0 <= i < rs.len() implies #[trigger] nest_depth(ms, i) == nest_depth(rs, i) by {
        lemma_depth_kept(rs, ms, i);
    }
    if stack.len() > 0 {
        let t = stack.last();
        assert(stack[stack.len() - 1] == t);
        assert(nest_depth(ms, t as int) == nest_depth(rs, t as int));
    }
    assert forall|j: int| 0 <= j < stack.len() implies nest_depth(ms, #[trigger] stack[j] as int) == j by {
        assert(nest_depth(ms, stack[j] as int) == nest_depth(rs, stack[j] as int));
    }
}

/// The nesting bookkeeping after one token is appended below the current top of the stack.
proof fn lemma_depth_token(
    prior: Seq<RecordModel>,
    roots: Seq<usize>,
    ms: Seq<RecordModel>,
    roots2: Seq<usize>,
    rec: RecordModel,
    stack_before: Seq<usize>,
    stack: Seq<usize>,
    max_depth: usize,
)
    requires
        depth_ok(prior, stack_before, max_depth),
        forall|j: int| 0 <= j < stack_before.len() ==> #[trigger] stack_before[j] < prior.len(),
        stack.len() <= stack_before.len(),
        forall|j: int| 0 <= j < stack.len() ==> #[trigger] stack[j] == stack_before[j],
        linked(prior, roots, ms, roots2, rec),
        rec.parent == stack_top(stack),
        prior.len() < usize::MAX,
    ensures
        !opens_container(rec.tag) ==> depth_ok(ms, stack, max_depth),
        opens_container(rec.tag) && stack.len() < max_depth ==> depth_ok(ms, stack.push(prior.len() as usize), max_depth),
{
    reveal(depth_ok);
    let n = prior.len() as int;
    assert forall|k: int| 0 <= k < n implies (#[trigger] ms[k]).parent == prior[k].parent && ms[k].tag == prior[k].tag by {
        assert(ms[k] == ms.take(n)[k]);
    }
    assert forall|j: int| 0 <= j < stack.len() implies nest_depth(prior, #[trigger] stack[j] as int) == j by {
        assert(stack[j] == stack_before[j]);
    }
    assert forall|j: int| 0 <= j < stack.len() implies #[trigger] stack[j] < prior.len() by {
        assert(stack[j] == stack_before[j]);
    }
    lemma_depth_append(prior, ms, stack, rec);
    assert forall|i: int| 0 <= i < n && opens_container(ms[i].tag) implies #[trigger] nest_depth(ms, i) < max_depth by {
        assert(ms[i].tag == prior[i].tag);
        assert(nest_depth(ms, i) == nest_depth(prior, i));
    }
    if opens_container(rec.tag) && stack.len() < max_depth {
        let s2 = stack.push(n as usize);
        assert forall|j: int| 0 <= j < s2.len() implies nest_depth(ms, #[trigger] s2[j] as int) == j by {
            if j < stack.len() {
                assert(s2[j] == stack[j]);
            } else {
                assert(s2[j] == n as usize);
                assert(nest_depth(ms, n) == stack.len());
            }
        }
    }
}

/// Whether the object index lists exactly the declared object IDs, each at the one record
/// declaring it, and no declared ID is negative: declared IDs are pairwise distinct.
pub open spec fn objects_declared(rs: Seq<RecordModel>, objects: Map<i32, usize>) -> bool {
    &&& forall|i: int|
        0 <= i < rs.len() ==> (node_object((#[trigger] rs[i]).payload) matches Some(o) ==> o >= 0
            && objects.contains_key(o) && objects[o] == i)
    &&& forall|o: i32| #[trigger] objects.contains_key(o) ==> node_object(rs[objects[o] as int].payload) == Some(o)
}

/// Whether every internal reference names a declared object.
pub open spec fn references_resolve(rs: Seq<RecordModel>, objects: Map<i32, usize>) -> bool {
    forall|i: int|
        0 <= i < rs.len() ==> (tag_reference((#[trigger] rs[i]).tag, rs[i].payload) matches Some(o)
            ==> objects.contains_key(o))
}

/// Whether every array holds as many elements as its count.
pub open spec fn arrays_counted(rs: Seq<RecordModel>) -> bool {
    forall|i: int| 0 <= i < rs.len() ==> ((#[trigger] rs[i]).payload matches PayloadModel::Array(c) ==> c == rs[i].children.len())
}

/// The object that an internal reference token names.
pub open spec fn tag_reference(tag: u8, p: PayloadModel) -> Option<i32> {
    match p {
        PayloadModel::Fixed(b) => if spec_base_tag(tag) == 10 && b.len() == 4 {
            Some(signed(le_value(b), 32) as i32)
        } else {
            None
        },
        _ => None,
    }
}

/// The object ID that a node declares.
pub open spec fn node_object(p: PayloadModel) -> Option<i32> {
    match p {
        PayloadModel::Node { object, .. } => object,
        _ => None,
    }
}

/// What the decoder checks of the records read so far: each declared object ID is not
/// negative and the object index maps it to the one record declaring it, each internal
/// reference is listed in `refs` for the final check, and each array that is no longer open
/// holds as many elements as its count. The open containers are listed in reading order.
#[verifier::opaque]
pub open spec fn wire_checks(rs: Seq<RecordModel>, stack: Seq<usize>, objects: Map<i32, usize>, refs: Seq<i32>) -> bool {
    &&& forall|i: int|
        0 <= i < rs.len() ==> (node_object((#[trigger] rs[i]).payload) matches Some(o) ==> o >= 0
            && objects.contains_key(o) && objects[o] == i)
    &&& forall|o: i32| #[trigger] objects.contains_key(o) ==> objects[o] < rs.len() && node_object(rs[objects[o] as int].payload) == Some(o)
    &&& forall|i: int|
        0 <= i < rs.len() ==> (tag_reference((#[trigger] rs[i]).tag, rs[i].payload) matches Some(o) ==> refs.contains(o))
    &&& forall|i: int|
        0 <= i < rs.len() && !stack.contains(i as usize) ==> ((#[trigger] rs[i]).payload matches PayloadModel::Array(c)
            ==> c == rs[i].children.len())
    &&& forall|i: int| 0 <= i < rs.len() ==> ((#[trigger] rs[i]).payload matches PayloadModel::Array(c) ==> c >= 0)
    &&& forall|j: int, k: int| 0 <= j < k < stack.len() ==> stack[j] < stack[k]
}

/// The decoder's checks after one token is appended.
proof fn lemma_checks_token(
    prior: Seq<RecordModel>,
    roots: Seq<usize>,
    ms: Seq<RecordModel>,
    roots2: Seq<usize>,
    rec: RecordModel,
    stack_before: Seq<usize>,
    stack_mid: Seq<usize>,
    stack_after: Seq<usize>,
    obj_b: Map<i32, usize>,
    obj_a: Map<i32, usize>,
    refs_b: Seq<i32>,
    refs_a: Seq<i32>,
)
    requires
        wire_checks(prior, stack_before, obj_b, refs_b),
        forall|j: int| 0 <= j < stack_before.len() ==> #[trigger] stack_before[j] < prior.len(),
        prior.len() < usize::MAX,
        linked(prior, roots, ms, roots2, rec),
        stack_mid == stack_before || (stack_before.len() > 0 && stack_mid == stack_before.drop_last() && spec_terminal(rec.tag)
            && prior[stack_before.last() as int].children.len() <= usize::MAX
            && (prior[stack_before.last() as int].payload matches PayloadModel::Array(c) ==> c as u64
            == prior[stack_before.last() as int].children.len() as u64)),
        rec.parent == stack_top(stack_mid),
        stack_after == stack_mid || (opens_container(rec.tag) && stack_after == stack_mid.push(prior.len() as usize)),
        rec.payload is Array ==> opens_container(rec.tag) && stack_after == stack_mid.push(prior.len() as usize),
        rec.payload matches PayloadModel::Array(c) ==> c >= 0,
        match node_object(rec.payload) {
            Some(o) => o >= 0 && !obj_b.contains_key(o) && obj_a == obj_b.insert(o, prior.len() as usize),
            None => obj_a == obj_b,
        },
        refs_a == match tag_reference(rec.tag, rec.payload) {
            Some(o) => refs_b.push(o),
            None => refs_b,
        },
    ensures
        wire_checks(ms, stack_after, obj_a, refs_a),
{
    reveal(wire_checks);
    let n = prior.len() as int;
    assert forall|k: int| 0 <= k < n implies (#[trigger] ms[k]).payload == prior[k].payload && ms[k].tag == prior[k].tag
        && (ms[k].children == prior[k].children || (!spec_terminal(rec.tag) && rec.parent == Some(k as usize))) by {
        assert(ms[k] == ms.take(n)[k]);
    }
    assert(ms[n] == rec);
    assert forall|i: int| 0 <= i < ms.len() implies (node_object((#[trigger] ms[i]).payload) matches Some(o) ==> o >= 0
        && obj_a.contains_key(o) && obj_a[o] == i) by {
        if i < n {
            if let Some(o) = node_object(ms[i].payload) {
                assert(obj_b.contains_key(o) && obj_b[o] == i);
            }
        }
    }
    assert forall|o: i32| #[trigger] obj_a.contains_key(o) implies obj_a[o] < ms.len() && node_object(ms[obj_a[o] as int].payload)
        == Some(o) by {
        if obj_b.contains_key(o) && !(node_object(rec.payload) == Some(o)) {
            assert(obj_a[o] == obj_b[o]);
            assert(node_object(prior[obj_b[o] as int].payload) == Some(o));
        }
    }
    assert forall|i: int| 0 <= i < ms.len() implies (tag_reference((#[trigger] ms[i]).tag, ms[i].payload) matches Some(o)
        ==> refs_a.contains(o)) by {
        if i < n {
            if let Some(o) = tag_reference(ms[i].tag, ms[i].payload) {
                assert(refs_b.contains(o));
                let q = choose|q: int| 0 <= q < refs_b.len() && refs_b[q] == o;
                assert(refs_a[q] == o);
            }
        } else {
            if let Some(o) = tag_reference(rec.tag, rec.payload) {
                assert(refs_a[refs_b.len() as int] == o);
            }
        }
    }
    assert forall|i: int| 0 <= i < ms.len() && !stack_after.contains(i as usize) implies ((#[trigger] ms[i]).payload matches PayloadModel::Array(c)
        ==> c == ms[i].children.len()) by {
        if i < n {
            if let Some(p) = rec.parent {
                if !spec_terminal(rec.tag) && p == i as usize {
                    let j = stack_mid.len() - 1;
                    assert(stack_mid[j] == p);
                    assert(stack_after[j] == stack_mid[j]);
                }
            }
            if stack_before.contains(i as usize) {
                let j = choose|j: int| 0 <= j < stack_before.len() && stack_before[j] == i as usize;
                if j < stack_before.len() - 1 || stack_mid == stack_before {
                    assert(stack_mid[j] == stack_before[j]);
                    assert(stack_after[j] == stack_mid[j]);
                } else {
                    assert(i == stack_before.last() as int);
                    if let PayloadModel::Array(c) = prior[i].payload {
                        assert(c >= 0);
                        assert(prior[i].children.len() <= u64::MAX);
                        assert(c as u64 == prior[i].children.len() as u64);
                        assert(c == prior[i].children.len());
                    }
                }
            }
        } else {
            if rec.payload is Array {
                assert(stack_after[stack_mid.len() as int] == n as usize);
            }
        }
    }
    assert forall|i: int| 0 <= i < ms.len() implies ((#[trigger] ms[i]).payload matches PayloadModel::Array(c) ==> c >= 0) by {
        if i < n {
            assert(ms[i].payload == prior[i].payload);
        }
    }
    assert forall|j: int, k: int| 0 <= j < k < stack_after.len() implies stack_after[j] < stack_after[k] by {
        if k < stack_mid.len() {
            assert(stack_mid[j] == stack_before[j] && stack_mid[k] == stack_before[k]);
        } else if j < stack_mid.len() {
            assert(stack_mid[j] == stack_before[j]);
        }
    }
}

/// The decoder's invariant between tokens.
pub open spec fn decode_state(
    bytes: Seq<u8>,
    pos: usize,
    limits: Limits,
    rs: Seq<RecordModel>,
    roots: Seq<usize>,
    stack: Seq<usize>,
    types: Set<i32>,
    objects: Map<i32, usize>,
    close: Map<int, int>,
    term: bool,
) -> bool {
    &&& bytes.len() <= limits.max_bytes
    &&& pos <= bytes.len()
    &&& stream_wire(rs) == bytes.subrange(0, pos as int)
    &&& forall|i: int| 0 <= i < rs.len() ==> (#[trigger] rs[i]).offset == stream_wire(rs.take(i)).len()
    &&& rs.len() <= limits.max_records
    &&& indices_ok(rs, roots)
    &&& forall|j: int| 0 <= j < stack.len() ==> #[trigger] stack[j] < rs.len()
    &&& stack.len() <= limits.max_depth
    &&& forall|k: i32| #[trigger] objects.contains_key(k) ==> objects[k] < rs.len()
    &&& bracketed(rs, roots, stack, close, term)
    &&& types_ordered(rs)
    &&& types_known(rs, types)
    &&& term ==> pos == bytes.len()
}

/// Reads one token at `pos` and appends it as a record.
#[verifier::rlimit(100)]
#[verifier::spinoff_prover]
fn read_token(
    bytes: &[u8],
    pos: usize,
    limits: Limits,
    records: &mut Vec<Record>,
    roots: &mut Vec<usize>,
    types: &mut HashMap<i32, WireString>,
    objects: &mut HashMap<i32, usize>,
    stack: &mut Vec<usize>,
    references: &mut Vec<i32>,
    Ghost(close): Ghost<Map<int, int>>,
    Ghost(term): Ghost<bool>,
) -> (r: Result<(usize, Ghost<Map<int, int>>, Ghost<bool>), Error>)
    requires
        pos < bytes@.len(),
        decode_state(bytes@, pos, limits, models(old(records)@), old(roots)@, old(stack)@, old(types)@.dom(), old(objects)@, close, term),
        depth_ok(models(old(records)@), old(stack)@, limits.max_depth),
        wire_checks(models(old(records)@), old(stack)@, old(objects)@, old(references)@),
    ensures
        r matches Ok((p, c2, t2)) ==> pos < p && decode_state(bytes@, p, limits, models(final(records)@), final(roots)@, final(stack)@, final(types)@.dom(), final(objects)@, c2@, t2@),
        r is Ok ==> depth_ok(models(final(records)@), final(stack)@, limits.max_depth),
        r is Ok ==> wire_checks(models(final(records)@), final(stack)@, final(objects)@, final(references)@),
{
    let len = bytes.len();
    let mut pos = pos;
    let ghost mut close = close;
    let ghost mut term = term;
    proof {
        if term {
            assert(false);
        }
    }
    if records.len() >= limits.max_records {
        return Err(fail_at(pos, "record limit exceeded"));
    }
    let ghost stack_before = stack@;
    let ghost dom_before = types@.dom();
    let ghost roots_before = roots@;
    let offset = pos;
    let tag = bytes[pos];
    pos = pos + 1;
    let name = if named(tag) {
        let (n, p) = read_string(bytes, pos)?;
        pos = p;
        Some(n)
    } else {
        None
    };
    let ghost name_wire = bytes@.subrange(offset + 1, pos as int);
    let ghost objects_before = objects@;
    let ghost refs_before = references@;
    let payload = if tag == 5 || tag == 7 {
        let start = match stack.pop() {
            Some(s) => s,
            None => return Err(fail_at(pos, "unexpected container end")),
        };
        let opened = &records[start];
        if (tag == 7) != (opened.tag == 6) {
            return Err(fail_at(pos, "mismatched container end"));
        }
        let child_count = opened.children.len();
        if let Payload::Array(count) = &opened.payload {
            if *count as u64 != child_count as u64 {
                return Err(fail_at(pos, "array element count mismatch"));
            }
        }
        proof {
            assert(models(records@)[start as int] == records@[start as int]@);
            assert(child_count == models(records@)[start as int].children.len());
        }
        Payload::Empty
    } else if tag == 49 {
        if stack.len() != 0 || pos != len {
            return Err(fail_at(pos, "unexpected end of stream or trailing data"));
        }
        Payload::Empty
    } else {
        let (p, end) = read_payload(
            bytes,
            pos,
            tag,
            types,
            objects,
            records.len(),
            references,
            limits.max_records,
        )?;
        pos = end;
        p
    };
    let id = records.len();
    let parent = if stack.len() > 0 {
        Some(stack[stack.len() - 1])
    } else {
        None
    };
    let record = Record { tag, name, payload, parent, children: Vec::new(), offset };
    proof {
        assert(record_wire(record@) =~= bytes@.subrange(offset as int, pos as int)) by {
            assert(bytes@.subrange(offset as int, pos as int) =~= seq![tag]
                + bytes@.subrange(offset + 1, pos as int));
            if tag == 5 || tag == 7 || tag == 49 {
                assert(bytes@.subrange(offset + 1, pos as int) =~= Seq::<u8>::empty());
            }
        }
        assert(bytes@.subrange(0, pos as int) =~= bytes@.subrange(0, offset as int)
            + bytes@.subrange(offset as int, pos as int));
    }
    let ghost prior = models(records@);
    let ghost rec = record@;
    assert(stream_wire(prior).len() == offset);
    assert(rec.parent == stack_top(stack@));
    assert(stack@.len() <= stack_before.len() && forall|j: int| 0 <= j < stack@.len() ==> stack@[j] == stack_before[j]);
    append_record(records, roots, record);
    proof {
        lemma_depth_token(prior, roots_before, models(records@), roots@, rec, stack_before, stack@, limits.max_depth);
    }
    proof {
        let ms = models(records@);
        assert(forall|i: int| 0 <= i < prior.len() ==> (#[trigger] ms[i]).payload == prior[i].payload && ms[i].tag == prior[i].tag) by {
            assert forall|i: int| 0 <= i < prior.len() implies (#[trigger] ms[i]).payload == prior[i].payload && ms[i].tag == prior[i].tag by {
                assert(ms[i] == ms.take(prior.len() as int)[i]);
            }
        }
        lemma_types_append(prior, ms, rec, dom_before, types@.dom());
        if tag == 5 || tag == 7 {
            lemma_bracketed_close(prior, roots_before, stack_before, close, ms, roots@, rec);
            close = close.insert(stack_before.last() as int, prior.len() as int);
        } else if tag == 49 {
            lemma_bracketed_terminator(prior, roots_before, stack_before, close, ms, roots@, rec);
            term = true;
        } else if 1 <= tag && tag <= 4 || tag == 6 {
            lemma_bracketed_open(prior, roots_before, stack_before, close, ms, roots@, rec);
        } else {
            lemma_bracketed_leaf(prior, roots_before, stack_before, close, ms, roots@, rec);
            close = close.insert(prior.len() as int, prior.len() as int);
        }
        assert(prior.take(prior.len() as int) =~= prior);
        assert forall|i: int| 0 <= i < ms.len() implies (#[trigger] ms[i]).offset
            == stream_wire(ms.take(i)).len() by {
            if i < prior.len() {
                assert(prior[i].offset == stream_wire(prior.take(i)).len());
            }
        }
    }
    let ghost stack_mid = stack@;
    if 1 <= tag && tag <= 4 || tag == 6 {
        if stack.len() >= limits.max_depth {
            return Err(fail_at(pos, "nesting limit exceeded"));
        }
        stack.push(id);
    }
    assert(opens_container(tag) ==> stack@ == stack_mid.push(id));
    proof {
        lemma_checks_token(
            prior,
            roots_before,
            models(records@),
            roots@,
            rec,
            stack_before,
            stack_mid,
            stack@,
            objects_before,
            objects@,
            refs_before,
            references@,
        );
    }
    Ok((pos, Ghost(close), Ghost(term)))
}

impl Document {
    pub fn decode(bytes: &[u8]) -> (r: Result<Self, Error>)
        ensures
            r matches Ok(d) ==> d.decoded_from(bytes@, default_limits()),
            bytes@.len() > default_limits().max_bytes ==> r is Err,
    {
        Self::decode_with_limits(bytes, Limits::default())
    }

    /// What a successful decode establishes about the document and the input.
    pub open spec fn decoded_from(&self, bytes: Seq<u8>, limits: Limits) -> bool {
        &&& self.wf()
        &&& stream_wire(self.rs()) == bytes
        &&& self.roots@.len() == 1
        &&& self.records@.len() <= limits.max_records
        &&& self.original_size == bytes.len()
        &&& self.encoded_size == bytes.len()
        &&& self.max_bytes == limits.max_bytes
        &&& self.next_object_id is None
        &&& bytes.len() <= limits.max_bytes
        &&& forall|i: int| 0 <= i < self.rs().len() ==> (#[trigger] self.rs()[i]).offset
            == stream_wire(self.rs().take(i)).len()
        &&& exists|close: Map<int, int>, term: bool| #[trigger]
            bracketed(self.rs(), self.roots@, Seq::empty(), close, term)
        &&& types_ordered(self.rs())
        &&& within_depth(self.rs(), limits.max_depth)
        &&& objects_declared(self.rs(), self.objects@)
        &&& references_resolve(self.rs(), self.objects@)
        &&& arrays_counted(self.rs())
    }

    pub fn decode_with_limits(bytes: &[u8], limits: Limits) -> (r: Result<Self, Error>)
        ensures
            r matches Ok(d) ==> d.decoded_from(bytes@, limits),
            bytes@.len() > limits.max_bytes ==> r is Err,
    {
        let len = bytes.len();
        if len > limits.max_bytes {
            return Err(failure("File exceeds size limit"));
        }
        let mut records: Vec<Record> = Vec::new();
        let mut roots: Vec<usize> = Vec::new();
        let mut types: HashMap<i32, WireString> = HashMap::new();
        let mut objects: HashMap<i32, usize> = HashMap::new();
        let mut stack: Vec<usize> = Vec::new();
        let mut references: Vec<i32> = Vec::new();
        let mut pos: usize = 0;
        let ghost mut close: Map<int, int> = Map::empty();
        let ghost mut term = false;
        assert(stream_wire(models(records@)) =~= bytes@.subrange(0, 0));
        proof {
            assert(models(records@) =~= Seq::<RecordModel>::empty());
            lemma_bracketed_empty();
            reveal(depth_ok);
            reveal(wire_checks);
            reveal(types_ordered);
            reveal(types_known);
        }
        while pos < len
            invariant
                len == bytes@.len(),
                decode_state(bytes@, pos, limits, models(records@), roots@, stack@, types@.dom(), objects@, close, term),
                depth_ok(models(records@), stack@, limits.max_depth),
                wire_checks(models(records@), stack@, objects@, references@),
            decreases len - pos,
        {
            let (p, Ghost(c2), Ghost(t2)) = read_token(
                bytes,
                pos,
                limits,
                &mut records,
                &mut roots,
                &mut types,
                &mut objects,
                &mut stack,
                &mut references,
                Ghost(close),
                Ghost(term),
            )?;
            pos = p;
            proof {
                close = c2;
                term = t2;
            }
        }
        if stack.len() != 0 {
            return Err(fail_at(pos, "unclosed container"));
        }
        if roots.len() != 1 {
            return Err(fail_at(pos, "expected one root value"));
        }
        let mut i: usize = 0;
        while i < references.len()
            invariant
                i <= references@.len(),
                forall|m: int| 0 <= m < i ==> objects@.contains_key(#[trigger] references@[m]),
            decreases references@.len() - i,
        {
            if !objects.contains_key(&references[i]) {
                return Err(fail_at(pos, "dangling object reference"));
            }
            i = i + 1;
        }
        assert(bytes@.subrange(0, pos as int) =~= bytes@);
        assert(stack@ =~= Seq::<usize>::empty());
        assert(bracketed(models(records@), roots@, Seq::empty(), close, term));
        proof {
            reveal(depth_ok);
            reveal(wire_checks);
            let rs = models(records@);
            assert forall|k: int| 0 <= k < rs.len() implies (tag_reference((#[trigger] rs[k]).tag, rs[k].payload) matches Some(o)
                ==> objects@.contains_key(o)) by {
                if let Some(o) = tag_reference(rs[k].tag, rs[k].payload) {
                    let q = choose|q: int| 0 <= q < references@.len() && references@[q] == o;
                }
            }
            assert(references_resolve(rs, objects@));
            assert(objects_declared(rs, objects@));
            assert(arrays_counted(rs)) by {
                assert forall|k: int| 0 <= k < rs.len() implies ((#[trigger] rs[k]).payload matches PayloadModel::Array(c)
                    ==> c == rs[k].children.len()) by {
                    assert(!stack@.contains(k as usize));
                }
            }
        }
        assert(within_depth(models(records@), limits.max_depth));
        Ok(Document {
            next_object_id: None,
            records,
            roots,
            types,
            objects,
            original_size: len,
            encoded_size: len,
            max_bytes: limits.max_bytes,
        })
    }

    pub fn record_count(&self) -> (n: usize)
        ensures
            n == self.records@.len(),
    {
        self.records.len()
    }

    pub fn type_count(&self) -> (n: usize)
        ensures
            n == self.types@.len(),
    {
        self.types.len()
    }

    pub fn object_count(&self) -> (n: usize)
        ensures
            n == self.objects@.len(),
    {
        self.objects.len()
    }
}

} // verus!
