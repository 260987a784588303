//! Text of serialized strings: 8-bit (Latin-1) or UTF-16 code units.
use crate::text::push_char;
use crate::wire::{StringModel, WireString};
use vstd::prelude::*;

verus! {

broadcast use vstd::string::group_string_axioms;

/// Converts a Unicode scalar value to a `char` (`char::from_u32`).
#[verifier::external_body]
pub(crate) fn scalar_char(code: u32) -> (c: char)
    requires
        code < 0xD800 || (0xE000 <= code <= 0x10FFFF),
    ensures
        c as u32 == code,
{
    char::from_u32(code).unwrap()
}

/// UTF-16 code units of a little-endian byte sequence (a trailing odd byte is ignored).
pub open spec fn units_of(bytes: Seq<u8>) -> Seq<u16> {
    Seq::new(bytes.len() / 2, |k: int| (bytes[2 * k] + 256 * bytes[2 * k + 1]) as u16)
}

pub open spec fn is_high(u: u16) -> bool {
    0xD800 <= u <= 0xDBFF
}

pub open spec fn is_low(u: u16) -> bool {
    0xDC00 <= u <= 0xDFFF
}

/// Lossy UTF-16 decoding: surrogate pairs combine, an unpaired surrogate becomes U+FFFD.
pub open spec fn utf16_decode(units: Seq<u16>) -> Seq<char>
    decreases units.len(),
{
    if units.len() == 0 {
        Seq::empty()
    } else {
        let u = units[0];
        if !is_high(u) && !is_low(u) {
            seq![u as char] + utf16_decode(units.drop_first())
        } else if is_high(u) && units.len() >= 2 && is_low(units[1]) {
            seq![(0x10000 + (u - 0xD800) * 0x400 + (units[1] - 0xDC00)) as char] + utf16_decode(
                units.subrange(2, units.len() as int),
            )
        } else {
            seq!['\u{FFFD}'] + utf16_decode(units.drop_first())
        }
    }
}

/// Text of a serialized string: each 8-bit unit is the character with that code, wide
/// strings are decoded as UTF-16.
pub open spec fn display_spec(s: StringModel) -> Seq<char> {
    if s.wide {
        utf16_decode(units_of(s.bytes))
    } else {
        s.bytes.map_values(|b: u8| b as char)
    }
}

/// UTF-16 encoding of characters.
pub open spec fn utf16_encode(cs: Seq<char>) -> Seq<u16>
    decreases cs.len(),
{
    if cs.len() == 0 {
        Seq::empty()
    } else {
        utf16_encode(cs.drop_last()) + char_units(cs.last())
    }
}

pub open spec fn char_units(c: char) -> Seq<u16> {
    let v = (c as u32) as int;
    if v < 0x10000 {
        seq![v as u16]
    } else {
        seq![(0xD800 + (v - 0x10000) / 0x400) as u16, (0xDC00 + (v - 0x10000) % 0x400) as u16]
    }
}

/// Little-endian bytes of code units.
pub open spec fn units_bytes(units: Seq<u16>) -> Seq<u8>
    decreases units.len(),
{
    if units.len() == 0 {
        Seq::empty()
    } else {
        units_bytes(units.drop_last()) + seq![(units.last() % 256) as u8, (units.last() / 256) as u8]
    }
}

/// The string that replaces `old` by `value`: it stays 8-bit only if it was and every code
/// unit fits in a byte.
pub open spec fn replace_spec(old: StringModel, value: Seq<char>) -> StringModel {
    let units = utf16_encode(value);
    let wide = old.wide || exists|i: int| 0 <= i < units.len() && units[i] > 255;
    StringModel {
        wide,
        bytes: if wide {
            units_bytes(units)
        } else {
            units.map_values(|u: u16| u as u8)
        },
    }
}

fn decode_units(bytes: &Vec<u8>) -> (units: Vec<u16>)
    ensures
        units@ == units_of(bytes@),
{
    let mut units: Vec<u16> = Vec::new();
    let n = bytes.len() / 2;
    let mut k: usize = 0;
    while k < n
        invariant
            n == bytes@.len() / 2,
            bytes@.len() == bytes.len(),
            k <= n,
            units@ == units_of(bytes@).subrange(0, k as int),
        decreases n - k,
    {
        let u = bytes[2 * k] as u16 + 256 * (bytes[2 * k + 1] as u16);
        units.push(u);
        assert(units@ =~= units_of(bytes@).subrange(0, k + 1));
        k = k + 1;
    }
    assert(units_of(bytes@).subrange(0, n as int) =~= units_of(bytes@));
    units
}

impl WireString {
    /// The text of this string.
    pub fn display(&self) -> (s: String)
        ensures
            s@ == display_spec(self@),
    {
        let mut s = String::new();
        if self.wide {
            let units = decode_units(&self.bytes);
            let ghost all = units@;
            let mut k: usize = 0;
            assert(all.subrange(0, all.len() as int) =~= all);
            assert(s@ + utf16_decode(all) =~= utf16_decode(all));
            while k < units.len()
                invariant
                    all == units@,
                    k <= all.len(),
                    s@ + utf16_decode(all.subrange(k as int, all.len() as int)) == utf16_decode(all),
                decreases all.len() - k,
            {
                let u = units[k];
                let ghost rest = all.subrange(k as int, all.len() as int);
                assert(rest[0] == u);
                if u < 0xD800 || u > 0xDFFF {
                    push_char(&mut s, scalar_char(u as u32));
                    assert(rest.drop_first() =~= all.subrange(k + 1, all.len() as int));
                    k = k + 1;
                } else if u <= 0xDBFF && k + 1 < units.len() && 0xDC00 <= units[k + 1] && units[k + 1] <= 0xDFFF {
                    let code = 0x10000 + (u as u32 - 0xD800) * 0x400 + (units[k + 1] as u32 - 0xDC00);
                    push_char(&mut s, scalar_char(code));
                    assert(rest[1] == units[k + 1]);
                    assert(rest.subrange(2, rest.len() as int) =~= all.subrange(k + 2, all.len() as int));
                    k = k + 2;
                } else {
                    push_char(&mut s, '\u{FFFD}');
                    assert(rest.drop_first() =~= all.subrange(k + 1, all.len() as int));
                    k = k + 1;
                }
            }
            assert(all.subrange(k as int, all.len() as int) =~= Seq::<u16>::empty());
            assert(s@ =~= display_spec(self@));
        } else {
            let mut k: usize = 0;
            while k < self.bytes.len()
                invariant
                    k <= self.bytes@.len(),
                    s@ == self.bytes@.subrange(0, k as int).map_values(|b: u8| b as char),
                decreases self.bytes@.len() - k,
            {
                let ghost before = s@;
                push_char(&mut s, self.bytes[k] as char);
                assert(s@ =~= self.bytes@.subrange(0, k + 1).map_values(|b: u8| b as char));
                k = k + 1;
            }
            assert(self.bytes@.subrange(0, k as int) =~= self.bytes@);
        }
        s
    }

    /// This string with its text replaced by `value`.
    pub fn replace(&self, value: &str) -> (r: Self)
        ensures
            r@ == replace_spec(self@, value@),
    {
        let mut units: Vec<u16> = Vec::new();
        let mut big = false;
        let ghost chars = value@;
        for c in it: value.chars()
            invariant
                it.seq() == chars,
                units@ == utf16_encode(chars.subrange(0, it.index() as int)),
                big == exists|i: int| 0 <= i < units@.len() && units@[i] > 255,
        {
            let ghost before = units@;
            let ghost k = it.index();
            let v = c as u32;
            if v < 0x10000 {
                units.push(v as u16);
                if v > 255 {
                    big = true;
                }
            } else {
                let high = (0xD800 + (v - 0x10000) / 0x400) as u16;
                let low = (0xDC00 + (v - 0x10000) % 0x400) as u16;
                units.push(high);
                units.push(low);
                big = true;
                assert(units@[units@.len() - 1] > 255);
            }
            proof {
                let pre = chars.subrange(0, k + 1);
                assert(pre.drop_last() =~= chars.subrange(0, k as int));
                assert(pre.last() == c);
                assert(units@ =~= before + char_units(c));
                if big {
                    if exists|i: int| 0 <= i < before.len() && before[i] > 255 {
                        let i = choose|i: int| 0 <= i < before.len() && before[i] > 255;
                        assert(units@[i] == before[i]);
                    } else {
                        assert(units@[units@.len() - 1] > 255);
                    }
                } else {
                    assert forall|i: int| 0 <= i < units@.len() implies !(units@[i] > 255) by {
                        if i < before.len() {
                            assert(units@[i] == before[i]);
                        }
                    }
                }
            }
        }
        assert(chars.subrange(0, chars.len() as int) =~= chars);
        let wide = self.wide || big;
        let mut bytes: Vec<u8> = Vec::new();
        let mut k: usize = 0;
        while k < units.len()
            invariant
                k <= units@.len(),
                wide ==> bytes@ == units_bytes(units@.subrange(0, k as int)),
                !wide ==> bytes@ == units@.subrange(0, k as int).map_values(|u: u16| u as u8),
            decreases units@.len() - k,
        {
            let u = units[k];
            let ghost pre = units@.subrange(0, k + 1);
            assert(pre.drop_last() =~= units@.subrange(0, k as int));
            assert(pre.last() == u);
            if wide {
                bytes.push((u % 256) as u8);
                bytes.push((u / 256) as u8);
            } else {
                bytes.push(u as u8);
            }
            assert(wide ==> bytes@ =~= units_bytes(pre));
            assert(!wide ==> bytes@ =~= pre.map_values(|u: u16| u as u8));
            k = k + 1;
        }
        assert(units@.subrange(0, units@.len() as int) =~= units@);
        WireString { wide, bytes }
    }
}

proof fn lemma_encode_front(c: char, rest: Seq<char>)
    ensures
        utf16_encode(seq![c] + rest) == char_units(c) + utf16_encode(rest),
    decreases rest.len(),
{
    let s = seq![c] + rest;
    if rest.len() == 0 {
        assert(s.drop_last() =~= Seq::<char>::empty());
        assert(rest =~= Seq::<char>::empty());
        assert(utf16_encode(Seq::<char>::empty()) == Seq::<u16>::empty());
        assert(utf16_encode(s) == utf16_encode(s.drop_last()) + char_units(s.last()));
        assert(utf16_encode(s) =~= char_units(c) + utf16_encode(rest));
    } else {
        assert(s.drop_last() =~= seq![c] + rest.drop_last());
        assert(s.last() == rest.last());
        lemma_encode_front(c, rest.drop_last());
        assert(utf16_encode(s) =~= char_units(c) + utf16_encode(rest));
    }
}

proof fn lemma_decode_front(c: char, t: Seq<u16>)
    ensures
        utf16_decode(char_units(c) + t) == seq![c] + utf16_decode(t),
{
    let v = (c as u32) as int;
    let units = char_units(c) + t;
    if v < 0x10000 {
        let u = v as u16;
        assert(units[0] == u);
        assert(!is_high(u) && !is_low(u));
        assert(u as char == c);
        assert(units.drop_first() =~= t);
    } else {
        let q = (v - 0x10000) / 0x400;
        let r = (v - 0x10000) % 0x400;
        assert(0 <= q < 0x400);
        assert(0 <= r < 0x400);
        assert(q * 0x400 + r == v - 0x10000);
        let hi = (0xD800 + q) as u16;
        let lo = (0xDC00 + r) as u16;
        assert(units[0] == hi);
        assert(units[1] == lo);
        assert(is_high(hi) && is_low(lo));
        assert(0x10000 + (hi - 0xD800) * 0x400 + (lo - 0xDC00) == v);
        assert((0x10000 + (hi - 0xD800) * 0x400 + (lo - 0xDC00)) as char == c);
        assert(units.subrange(2, units.len() as int) =~= t);
    }
}

proof fn lemma_utf16_roundtrip(cs: Seq<char>)
    ensures
        utf16_decode(utf16_encode(cs)) == cs,
    decreases cs.len(),
{
    if cs.len() > 0 {
        let c = cs[0];
        let rest = cs.drop_first();
        assert(cs =~= seq![c] + rest);
        lemma_encode_front(c, rest);
        lemma_decode_front(c, utf16_encode(rest));
        lemma_utf16_roundtrip(rest);
    }
}

proof fn lemma_units_bytes(u: Seq<u16>)
    ensures
        units_bytes(u).len() == 2 * u.len(),
        forall|k: int| 0 <= k < u.len() ==> #[trigger] units_bytes(u)[2 * k] == (u[k] % 256) as u8 && units_bytes(u)[2 * k + 1]
            == (u[k] / 256) as u8,
    decreases u.len(),
{
    if u.len() > 0 {
        lemma_units_bytes(u.drop_last());
        let b = units_bytes(u);
        let p = units_bytes(u.drop_last());
        assert forall|k: int| 0 <= k < u.len() implies #[trigger] b[2 * k] == (u[k] % 256) as u8 && b[2 * k + 1] == (u[k]
            / 256) as u8 by {
            if k < u.len() - 1 {
                assert(b[2 * k] == p[2 * k]);
                assert(b[2 * k + 1] == p[2 * k + 1]);
                assert(u.drop_last()[k] == u[k]);
            }
        }
    }
}

proof fn lemma_units_roundtrip(u: Seq<u16>)
    ensures
        units_of(units_bytes(u)) == u,
{
    lemma_units_bytes(u);
    let b = units_bytes(u);
    assert forall|k: int| 0 <= k < u.len() implies #[trigger] units_of(b)[k] == u[k] by {
        assert(b[2 * k] == (u[k] % 256) as u8);
        assert(b[2 * k + 1] == (u[k] / 256) as u8);
        assert((u[k] % 256) + 256 * (u[k] / 256) == u[k]);
    }
    assert(units_of(b) =~= u);
}

proof fn lemma_char_facts(c: char, b: u8)
    ensures
        (c as u32) <= 0x10FFFF,
        b as int == (c as u32) as int ==> b as char == c,
{
}

proof fn lemma_narrow_units(cs: Seq<char>)
    requires
        forall|i: int| 0 <= i < utf16_encode(cs).len() ==> !(#[trigger] utf16_encode(cs)[i] > 255),
    ensures
        utf16_encode(cs).map_values(|u: u16| u as u8).map_values(|b: u8| b as char) == cs,
    decreases cs.len(),
{
    if cs.len() > 0 {
        let p = cs.drop_last();
        let c = cs.last();
        let e = utf16_encode(cs);
        assert(e == utf16_encode(p) + char_units(c));
        assert forall|i: int| 0 <= i < utf16_encode(p).len() implies !(#[trigger] utf16_encode(p)[i] > 255) by {
            assert(e[i] == utf16_encode(p)[i]);
        }
        lemma_narrow_units(p);
        let v = (c as u32) as int;
        let n = utf16_encode(p).len() as int;
        lemma_char_facts(c, (v % 256) as u8);
        if v >= 0x10000 {
            let q = (v - 0x10000) / 0x400;
            assert(0 <= q < 0x400);
            let hi = (0xD800 + q) as u16;
            assert(hi >= 0xD800);
            assert(e[n] == hi);
            assert(!(utf16_encode(cs)[n] > 255));
            assert(false);
        }
        let u = v as u16;
        assert(e[n] == u);
        assert(!(utf16_encode(cs)[n] > 255));
        assert(u <= 255);
        assert(u <= 255 ==> (u as u8) as u16 == u) by (bit_vector);
        let b = u as u8;
        assert(b as int == v);
        assert(b == (v % 256) as u8);
        assert(b as char == c);
        let m1 = e.map_values(|x: u16| x as u8).map_values(|y: u8| y as char);
        let m0 = utf16_encode(p).map_values(|x: u16| x as u8).map_values(|y: u8| y as char);
        assert(e.len() == n + 1);
        assert forall|i: int| 0 <= i < cs.len() implies m1[i] == cs[i] by {
            if i < n {
                assert(e[i] == utf16_encode(p)[i]);
                assert(m1[i] == m0[i]);
                assert(m0[i] == p[i]);
            } else {
                assert(i == n);
            }
        }
        assert(m1 =~= cs);
    }
}

/// Writing a text into a serialized string and reading the string back gives the text,
/// whether it stays 8-bit or becomes UTF-16.
pub proof fn law_replace_reads_back(old: StringModel, value: Seq<char>)
    ensures
        display_spec(replace_spec(old, value)) == value,
{
    let units = utf16_encode(value);
    let r = replace_spec(old, value);
    if r.wide {
        lemma_units_roundtrip(units);
        lemma_utf16_roundtrip(value);
    } else {
        lemma_narrow_units(value);
    }
}

} // verus!
