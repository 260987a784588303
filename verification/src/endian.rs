//! Little-endian integer encodings used by the wire format.
use vstd::prelude::*;

verus! {

/// `256^k`.
pub open spec fn pow256(k: nat) -> nat
    decreases k,
{
    if k == 0 {
        1
    } else {
        256 * pow256((k - 1) as nat)
    }
}

/// The unsigned value of a little-endian byte sequence.
pub open spec fn le_value(b: Seq<u8>) -> nat
    decreases b.len(),
{
    if b.len() == 0 {
        0
    } else {
        b[0] as nat + 256 * le_value(b.drop_first())
    }
}

/// The `k` low-order bytes of `n`, least significant first.
pub open spec fn le_bytes(n: nat, k: nat) -> Seq<u8>
    decreases k,
{
    if k == 0 {
        Seq::empty()
    } else {
        seq![(n % 256) as u8] + le_bytes(n / 256, (k - 1) as nat)
    }
}

/// Two's-complement image of a signed value in `bits` bits.
pub open spec fn twos(v: int, bits: nat) -> nat {
    if v < 0 {
        (v + pow2(bits)) as nat
    } else {
        v as nat
    }
}

/// Signed value of an unsigned `bits`-bit pattern.
pub open spec fn signed(u: nat, bits: nat) -> int {
    if u >= pow2((bits - 1) as nat) {
        u - pow2(bits)
    } else {
        u as int
    }
}

pub open spec fn pow2(bits: nat) -> nat
    decreases bits,
{
    if bits == 0 {
        1
    } else {
        2 * pow2((bits - 1) as nat)
    }
}

/// Wire bytes of a 32-bit signed integer.
pub open spec fn i32_le(v: int) -> Seq<u8> {
    le_bytes(twos(v, 32), 4)
}

/// Wire bytes of a 64-bit signed integer.
pub open spec fn i64_le(v: int) -> Seq<u8> {
    le_bytes(twos(v, 64), 8)
}

pub proof fn lemma_pow_values()
    ensures
        pow256(0) == 1,
        pow256(1) == 256,
        pow256(2) == 65536,
        pow256(3) == 16777216,
        pow256(4) == 4294967296,
        pow256(8) == 18446744073709551616,
        pow2(7) == 128,
        pow2(8) == 256,
        pow2(15) == 32768,
        pow2(16) == 65536,
        pow2(31) == 2147483648,
        pow2(32) == 4294967296,
        pow2(63) == 9223372036854775808,
        pow2(64) == 18446744073709551616,
{
    reveal_with_fuel(pow256, 9);
    reveal_with_fuel(pow2, 65);
}

pub proof fn lemma_le_bytes_len(n: nat, k: nat)
    ensures
        le_bytes(n, k).len() == k,
    decreases k,
{
    if k > 0 {
        lemma_le_bytes_len(n / 256, (k - 1) as nat);
    }
}

pub proof fn lemma_le_value_bound(b: Seq<u8>)
    ensures
        le_value(b) < pow256(b.len()),
    decreases b.len(),
{
    if b.len() > 0 {
        lemma_le_value_bound(b.drop_first());
        let r = le_value(b.drop_first());
        let p = pow256((b.len() - 1) as nat);
        assert(b[0] as nat + 256 * r < 256 * p) by (nonlinear_arith)
            requires
                r < p,
                b[0] < 256,
        ;
    }
}

/// Encoding the value of a byte sequence gives the sequence back.
pub proof fn lemma_le_roundtrip(b: Seq<u8>)
    ensures
        le_bytes(le_value(b), b.len()) == b,
    decreases b.len(),
{
    if b.len() > 0 {
        let r = le_value(b.drop_first());
        let n = le_value(b);
        let b0 = b[0] as nat;
        assert(n % 256 == b0 && n / 256 == r) by (nonlinear_arith)
            requires
                n == b0 + 256 * r,
                b0 < 256,
        ;
        lemma_le_roundtrip(b.drop_first());
        assert(le_bytes(n, b.len()) =~= b);
    }
}

/// Two numbers below `256^k` with the same `k` bytes are equal.
pub proof fn lemma_le_bytes_value(n: nat, k: nat)
    requires
        n < pow256(k),
    ensures
        le_value(le_bytes(n, k)) == n,
    decreases k,
{
    if k > 0 {
        let q = n / 256;
        let p = pow256((k - 1) as nat);
        assert(q < p && n == n % 256 + 256 * q) by (nonlinear_arith)
            requires
                n < 256 * p,
                q == n / 256,
        ;
        lemma_le_bytes_value(q, (k - 1) as nat);
        let s = le_bytes(n, k);
        assert(s.drop_first() =~= le_bytes(q, (k - 1) as nat));
    }
}

/// Appends the `k` low bytes of `v`.
fn push_le(out: &mut Vec<u8>, v: u64, k: usize)
    requires
        k <= 8,
    ensures
        final(out)@ == old(out)@ + le_bytes(v as nat, k as nat),
{
    let ghost start = old(out)@;
    let mut x = v;
    let mut i: usize = 0;
    while i < k
        invariant
            i <= k,
            out@ + le_bytes(x as nat, (k - i) as nat) == start + le_bytes(v as nat, k as nat),
        decreases k - i,
    {
        let ghost before = out@;
        out.push((x % 256) as u8);
        assert(le_bytes(x as nat, (k - i) as nat) == seq![(x % 256) as u8] + le_bytes(
            (x / 256) as nat,
            (k - i - 1) as nat,
        ));
        assert(out@ + le_bytes((x / 256) as nat, (k - i - 1) as nat) =~= before + le_bytes(
            x as nat,
            (k - i) as nat,
        ));
        x = x / 256;
        i = i + 1;
    }
    assert(le_bytes(x as nat, 0) =~= Seq::<u8>::empty());
    assert(out@ =~= start + le_bytes(v as nat, k as nat));
}

/// Reads the little-endian value of `b[at..at + k]`.
fn read_le(b: &[u8], at: usize, k: usize) -> (v: u64)
    requires
        k <= 8,
        at + k <= b@.len(),
    ensures
        v as nat == le_value(b@.subrange(at as int, at + k)),
{
    let mut v: u64 = 0;
    let mut i: usize = k;
    proof {
        lemma_pow_values();
    }
    while i > 0
        invariant
            i <= k <= 8,
            at + k <= b@.len(),
            at + k <= b.len(),
            v as nat == le_value(b@.subrange(at + i, at + k)),
            pow256(8) == 18446744073709551616,
        decreases i,
    {
        i = i - 1;
        let ghost s = b@.subrange(at + i, at + k);
        assert(s.drop_first() =~= b@.subrange(at + i + 1, at + k));
        proof {
            lemma_le_value_bound(s.drop_first());
            lemma_pow_monotone((k - i - 1) as nat, 7);
            let r = v as nat;
            let p = pow256((k - i - 1) as nat);
            assert(s[0] as nat + 256 * r < 18446744073709551616) by (nonlinear_arith)
                requires
                    r < p,
                    p <= pow256(7),
                    pow256(7) * 256 == pow256(8),
                    pow256(8) == 18446744073709551616,
                    s[0] < 256,
            ;
        }
        v = b[at + i] as u64 + 256 * v;
    }
    v
}

pub proof fn lemma_pow_monotone(a: nat, b: nat)
    requires
        a <= b,
    ensures
        pow256(a) <= pow256(b),
        pow256(b) * 256 == pow256(b + 1),
    decreases b,
{
    if a < b {
        lemma_pow_monotone(a, (b - 1) as nat);
    }
    assert(pow256(b + 1) == 256 * pow256(b));
}

/// Reads a little-endian `i32` at `at`.
pub fn read_i32(b: &[u8], at: usize) -> (v: i32)
    requires
        at + 4 <= b@.len(),
    ensures
        i32_le(v as int) == b@.subrange(at as int, at + 4),
        v as int == signed(le_value(b@.subrange(at as int, at + 4)), 32),
{
    let u = read_le(b, at, 4);
    proof {
        lemma_pow_values();
        lemma_le_value_bound(b@.subrange(at as int, at + 4));
        lemma_le_roundtrip(b@.subrange(at as int, at + 4));
    }
    if u >= 2147483648 {
        let v = (u - 4294967296u64 / 2) as i32;
        let r = v - 1073741824 - 1073741824;
        assert(twos(r as int, 32) == u);
        r
    } else {
        let r = u as i32;
        assert(twos(r as int, 32) == u);
        r
    }
}

/// Reads a little-endian `i64` at `at`.
pub fn read_i64(b: &[u8], at: usize) -> (v: i64)
    requires
        at + 8 <= b@.len(),
    ensures
        i64_le(v as int) == b@.subrange(at as int, at + 8),
{
    let u = read_le(b, at, 8);
    proof {
        lemma_pow_values();
        lemma_le_value_bound(b@.subrange(at as int, at + 8));
        lemma_le_roundtrip(b@.subrange(at as int, at + 8));
    }
    if u >= 9223372036854775808 {
        let v = (u - 9223372036854775808) as i64;
        let r = v + i64::MIN;
        assert(twos(r as int, 64) == u);
        r
    } else {
        let r = u as i64;
        assert(twos(r as int, 64) == u);
        r
    }
}

/// Appends the wire bytes of an `i32`.
pub fn push_i32(out: &mut Vec<u8>, v: i32)
    ensures
        final(out)@ == old(out)@ + i32_le(v as int),
{
    proof {
        lemma_pow_values();
    }
    let u: u64 = if v < 0 {
        (v as i64 + 4294967296) as u64
    } else {
        v as u64
    };
    push_le(out, u, 4);
}

/// Appends the wire bytes of an `i64`.
pub fn push_i64(out: &mut Vec<u8>, v: i64)
    ensures
        final(out)@ == old(out)@ + i64_le(v as int),
{
    proof {
        lemma_pow_values();
    }
    let u: u64 = if v < 0 {
        ((v - i64::MIN) as u64) + 9223372036854775808
    } else {
        v as u64
    };
    push_le(out, u, 8);
}

/// Appends the `k` low bytes of an unsigned value.
pub fn push_unsigned(out: &mut Vec<u8>, v: u64, k: usize)
    requires
        k <= 8,
    ensures
        final(out)@ == old(out)@ + le_bytes(v as nat, k as nat),
{
    push_le(out, v, k);
}

/// Reads the unsigned little-endian value of `b[at..at + k]`.
pub fn read_unsigned(b: &[u8], at: usize, k: usize) -> (v: u64)
    requires
        k <= 8,
        at + k <= b@.len(),
    ensures
        v as nat == le_value(b@.subrange(at as int, at + k)),
{
    read_le(b, at, k)
}

} // verus!
