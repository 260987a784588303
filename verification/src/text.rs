//! Decimal text for integers, as the transport protocol writes and reads them.
use vstd::prelude::*;
use vstd::string::StringExecFns;

verus! {

broadcast use vstd::string::group_string_axioms;

pub open spec fn digit_char(d: nat) -> char {
    if d == 0 {
        '0'
    } else if d == 1 {
        '1'
    } else if d == 2 {
        '2'
    } else if d == 3 {
        '3'
    } else if d == 4 {
        '4'
    } else if d == 5 {
        '5'
    } else if d == 6 {
        '6'
    } else if d == 7 {
        '7'
    } else if d == 8 {
        '8'
    } else {
        '9'
    }
}

/// Shortest decimal notation of a natural number.
pub open spec fn decimal(n: nat) -> Seq<char>
    decreases n,
{
    if n < 10 {
        seq![digit_char(n)]
    } else {
        decimal(n / 10).push(digit_char(n % 10))
    }
}

/// Decimal notation of an integer, with a leading minus sign when negative.
pub open spec fn signed_decimal(v: int) -> Seq<char> {
    if v < 0 {
        seq!['-'] + decimal((-v) as nat)
    } else {
        decimal(v as nat)
    }
}

/// Appends a character to a string (`String::push`).
#[verifier::external_body]
pub(crate) fn push_char(s: &mut String, c: char)
    ensures
        final(s)@ == old(s)@.push(c),
{
    s.push(c);
}

fn digit(d: u64) -> (c: char)
    requires
        d < 10,
    ensures
        c == digit_char(d as nat),
{
    match d {
        0 => '0',
        1 => '1',
        2 => '2',
        3 => '3',
        4 => '4',
        5 => '5',
        6 => '6',
        7 => '7',
        8 => '8',
        _ => '9',
    }
}

/// Appends the decimal notation of `n`.
pub fn push_unsigned_text(s: &mut String, n: u64)
    ensures
        final(s)@ == old(s)@ + decimal(n as nat),
{
    // Collect digits least-significant first, then emit them in reading order.
    let mut rev: Vec<char> = Vec::new();
    let mut x = n;
    loop
        invariant
            x <= n,
            decimal(n as nat) == decimal(x as nat) + rev@.reverse(),
        ensures
            x < 10,
            decimal(n as nat) == decimal(x as nat) + rev@.reverse(),
        decreases x,
    {
        if x < 10 {
            break;
        }
        let ghost before = rev@;
        rev.push(digit(x % 10));
        assert(decimal(x as nat) == decimal((x / 10) as nat).push(digit_char((x % 10) as nat)));
        assert(rev@.reverse() =~= seq![digit_char((x % 10) as nat)] + before.reverse());
        assert(decimal(n as nat) =~= decimal((x / 10) as nat) + rev@.reverse());
        x = x / 10;
    }
    let ghost start = s@;
    push_char(s, digit(x));
    assert(decimal(x as nat) == seq![digit_char(x as nat)]);
    let mut i = rev.len();
    while i > 0
        invariant
            i <= rev@.len(),
            s@ == start + decimal(x as nat) + rev@.reverse().subrange(0, rev@.len() - i),
            decimal(n as nat) == decimal(x as nat) + rev@.reverse(),
        decreases i,
    {
        i = i - 1;
        let ghost before = s@;
        push_char(s, rev[i]);
        assert(rev@.reverse()[rev@.len() - 1 - i] == rev@[i as int]);
        assert(rev@.reverse().subrange(0, rev@.len() - i) =~= rev@.reverse().subrange(
            0,
            rev@.len() - i - 1,
        ).push(rev@[i as int]));
    }
    assert(rev@.reverse().subrange(0, rev@.len() as int) =~= rev@.reverse());
    assert(s@ =~= start + decimal(n as nat));
}

/// Appends the decimal notation of a signed value.
pub fn push_signed_text(s: &mut String, v: i64)
    ensures
        final(s)@ == old(s)@ + signed_decimal(v as int),
{
    if v < 0 {
        let ghost start = s@;
        push_char(s, '-');
        let magnitude: u64 = if v == i64::MIN {
            9223372036854775808
        } else {
            (-v) as u64
        };
        push_unsigned_text(s, magnitude);
        assert(s@ =~= start + signed_decimal(v as int));
    } else {
        push_unsigned_text(s, v as u64);
    }
}

/// Decimal notation of an unsigned value.
pub fn unsigned_text(n: u64) -> (s: String)
    ensures
        s@ == decimal(n as nat),
{
    let mut s = String::new();
    push_unsigned_text(&mut s, n);
    assert(s@ =~= decimal(n as nat));
    s
}

/// Decimal notation of a signed value.
pub fn signed_text(v: i64) -> (s: String)
    ensures
        s@ == signed_decimal(v as int),
{
    let mut s = String::new();
    push_signed_text(&mut s, v);
    assert(s@ =~= signed_decimal(v as int));
    s
}


pub open spec fn hex_char(d: nat) -> char {
    if d < 10 {
        digit_char(d)
    } else if d == 10 {
        'a'
    } else if d == 11 {
        'b'
    } else if d == 12 {
        'c'
    } else if d == 13 {
        'd'
    } else if d == 14 {
        'e'
    } else {
        'f'
    }
}

/// Two lowercase hex digits per byte.
pub open spec fn hex(bytes: Seq<u8>) -> Seq<char>
    decreases bytes.len(),
{
    if bytes.len() == 0 {
        Seq::empty()
    } else {
        hex(bytes.drop_last()) + seq![hex_char((bytes.last() / 16) as nat), hex_char((bytes.last() % 16) as nat)]
    }
}

fn hex_digit(d: u8) -> (c: char)
    requires
        d < 16,
    ensures
        c == hex_char(d as nat),
{
    if d < 10 {
        digit(d as u64)
    } else if d == 10 {
        'a'
    } else if d == 11 {
        'b'
    } else if d == 12 {
        'c'
    } else if d == 13 {
        'd'
    } else if d == 14 {
        'e'
    } else {
        'f'
    }
}

pub fn hex_text(bytes: &Vec<u8>) -> (s: String)
    ensures
        s@ == hex(bytes@),
{
    let mut s = String::new();
    let mut k: usize = 0;
    while k < bytes.len()
        invariant
            k <= bytes@.len(),
            s@ == hex(bytes@.subrange(0, k as int)),
        decreases bytes@.len() - k,
    {
        let b = bytes[k];
        push_char(&mut s, hex_digit(b / 16));
        push_char(&mut s, hex_digit(b % 16));
        let ghost pre = bytes@.subrange(0, k + 1);
        assert(pre.drop_last() =~= bytes@.subrange(0, k as int));
        assert(s@ =~= hex(pre));
        k = k + 1;
    }
    assert(bytes@.subrange(0, k as int) =~= bytes@);
    s
}

/// The characters of a string slice.
pub fn chars_of(s: &str) -> (v: Vec<char>)
    ensures
        v@ == s@,
{
    let mut v: Vec<char> = Vec::new();
    let ghost cs = s@;
    for c in it: s.chars()
        invariant
            it.seq() == cs,
            v@ == cs.subrange(0, it.index() as int),
    {
        v.push(c);
        assert(v@ =~= cs.subrange(0, it.index() + 1));
    }
    assert(cs.subrange(0, cs.len() as int) =~= cs);
    v
}

/// The scalar value of a character.
pub fn code_of(c: char) -> (r: u32)
    ensures
        r as int == c as int,
{
    proof {
        assert(0 <= c as int <= 0x10FFFF);
    }
    c as u32
}

/// Whether a string slice has exactly the text of another.
pub fn same_text(a: &str, b: &str) -> (r: bool)
    ensures
        r == (a@ == b@),
{
    let x = chars_of(a);
    let y = chars_of(b);
    if x.len() != y.len() {
        assert(x@.len() != y@.len());
        return false;
    }
    let mut k: usize = 0;
    while k < x.len()
        invariant
            x@ == a@,
            y@ == b@,
            x@.len() == y@.len(),
            k <= x@.len(),
            x@.subrange(0, k as int) == y@.subrange(0, k as int),
        decreases x@.len() - k,
    {
        let cx = code_of(x[k]);
        let cy = code_of(y[k]);
        assert(cx as int == x@[k as int] as int);
        assert(cy as int == y@[k as int] as int);
        if cx != cy {
            assert(x@[k as int] != y@[k as int]);
            return false;
        }
        assert(x@.subrange(0, k + 1) =~= y@.subrange(0, k + 1));
        k = k + 1;
    }
    assert(x@ =~= x@.subrange(0, k as int));
    assert(y@ =~= y@.subrange(0, k as int));
    true
}

/// Decimal value of a digit sequence.
pub open spec fn digits_value(ds: Seq<char>) -> int
    decreases ds.len(),
{
    if ds.len() == 0 {
        0
    } else {
        digits_value(ds.drop_last()) * 10 + (ds.last() as int - '0' as int)
    }
}

pub open spec fn all_digits(ds: Seq<char>) -> bool {
    forall|i: int| 0 <= i < ds.len() ==> '0' <= #[trigger] ds[i] <= '9'
}

/// Integer text as Rust's integer parsing accepts it: an optional `+` (or `-` where
/// negative values are allowed) followed by at least one decimal digit; the value must lie
/// in `min..=max`.
pub open spec fn sign_len(s: Seq<char>, min: int) -> int {
    if s.len() > 0 && (s[0] == '+' || (min < 0 && s[0] == '-')) {
        1
    } else {
        0
    }
}

pub open spec fn parse_integer_spec(s: Seq<char>, min: int, max: int) -> Option<int> {
    let neg = s.len() > 0 && s[0] != '+' && min < 0 && s[0] == '-';
    let ds = s.subrange(sign_len(s, min), s.len() as int);
    let v = if neg {
        -digits_value(ds)
    } else {
        digits_value(ds)
    };
    if ds.len() > 0 && all_digits(ds) && min <= v <= max {
        Some(v)
    } else {
        None
    }
}

proof fn lemma_digits_nonneg(ds: Seq<char>)
    requires
        all_digits(ds),
    ensures
        digits_value(ds) >= 0,
    decreases ds.len(),
{
    if ds.len() > 0 {
        lemma_digits_nonneg(ds.drop_last());
    }
}

/// Parses integer text within `min..=max` (a range inside the 64-bit integers).
pub fn parse_integer(s: &str, min: i128, max: i128) -> (r: Option<i128>)
    requires
        -18446744073709551616 <= min <= 0 <= max <= 18446744073709551616,
    ensures
        r matches Some(v) ==> parse_integer_spec(s@, min as int, max as int) == Some(v as int),
        r is None ==> parse_integer_spec(s@, min as int, max as int) is None,
{
    let cs = chars_of(s);
    let n = cs.len();
    let mut start: usize = 0;
    let mut neg = false;
    if n > 0 && cs[0] == '+' {
        start = 1;
    } else if min < 0 && n > 0 && cs[0] == '-' {
        start = 1;
        neg = true;
    }
    let ghost ds = cs@.subrange(start as int, n as int);
    assert(start == sign_len(s@, min as int));
    assert(neg == (s@.len() > 0 && s@[0] != '+' && min < 0 && s@[0] == '-'));
    if start == n {
        return None;
    }
    // Values beyond `cap` are out of range whatever follows, so accumulation saturates there.
    let cap: u128 = 40000000000000000000;
    let mut acc: u128 = 0;
    let mut k: usize = start;
    while k < n
        invariant
            cs@ == s@,
            start == sign_len(s@, min as int),
            start <= k <= n == cs@.len(),
            ds == cs@.subrange(start as int, n as int),
            all_digits(cs@.subrange(start as int, k as int)),
            acc <= cap,
            acc < cap ==> acc == digits_value(cs@.subrange(start as int, k as int)),
            acc == cap ==> digits_value(cs@.subrange(start as int, k as int)) >= cap,
            cap == 40000000000000000000,
        decreases n - k,
    {
        let c = cs[k];
        let ghost pre = cs@.subrange(start as int, k + 1);
        assert(pre.drop_last() =~= cs@.subrange(start as int, k as int));
        assert(pre.last() == c);
        let code = code_of(c);
        if code < 48 || code > 57 {
            assert(!all_digits(ds)) by {
                assert(ds[k - start] == c);
            }
            return None;
        }
        proof {
            lemma_digits_nonneg(cs@.subrange(start as int, k as int));
        }
        let d = (code - 48) as u128;
        if acc >= cap / 10 {
            acc = cap;
        } else {
            acc = acc * 10 + d;
            if acc > cap {
                acc = cap;
            }
        }
        assert(all_digits(pre)) by {
            assert forall|i: int| 0 <= i < pre.len() implies '0' <= #[trigger] pre[i] <= '9' by {
                if i < pre.len() - 1 {
                    assert(pre[i] == cs@.subrange(start as int, k as int)[i]);
                }
            }
        }
        k = k + 1;
    }
    assert(cs@.subrange(start as int, k as int) =~= ds);
    if acc >= cap {
        return None;
    }
    let v: i128 = if neg {
        -(acc as i128)
    } else {
        acc as i128
    };
    if v < min || v > max {
        None
    } else {
        Some(v)
    }
}


/// An owned copy of a string slice.
pub fn owned(s: &str) -> (r: String)
    ensures
        r@ == s@,
{
    s.to_string()
}

/// Appends a string slice.
pub fn push_text(s: &mut String, t: &str)
    ensures
        final(s)@ == old(s)@ + t@,
{
    s.append(t);
}

} // verus!
