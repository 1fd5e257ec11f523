//! Decimal and little-endian byte representations of integers, shared by the
//! RESP and RDB codecs.

use vstd::prelude::*;

verus! {

/// ASCII decimal digits of `n`, most significant first, no leading zeros
/// (the single digit `0` for zero).
pub open spec fn dec_digits(n: nat) -> Seq<u8>
    decreases n,
{
    if n < 10 {
        seq![(n + 48) as u8]
    } else {
        dec_digits(n / 10) + seq![((n % 10) + 48) as u8]
    }
}

pub open spec fn is_digit(b: u8) -> bool {
    48 <= b <= 57
}

pub open spec fn all_digits(s: Seq<u8>) -> bool {
    forall|i: int| 0 <= i < s.len() ==> is_digit(s[i])
}

/// Value of a digit string, most significant digit first.
pub open spec fn dec_value(s: Seq<u8>) -> nat
    decreases s.len(),
{
    if s.len() == 0 {
        0
    } else {
        dec_value(s.drop_last()) * 10 + (if is_digit(s.last()) {
            (s.last() - 48) as nat
        } else {
            0
        })
    }
}

/// `dec_digits` produces only digits, at least one of them.
pub proof fn lemma_dec_digits_wf(n: nat)
    ensures
        dec_digits(n).len() >= 1,
        all_digits(dec_digits(n)),
    decreases n,
{
    if n >= 10 {
        lemma_dec_digits_wf(n / 10);
    }
}

/// Reading back the decimal representation yields the original number.
pub proof fn lemma_dec_digits_value(n: nat)
    ensures
        dec_value(dec_digits(n)) == n,
    decreases n,
{
    if n < 10 {
        assert(dec_digits(n) =~= seq![(n + 48) as u8]);
        assert(dec_digits(n).drop_last() =~= Seq::<u8>::empty());
        assert(dec_value(Seq::<u8>::empty()) == 0);
        assert(dec_digits(n).last() == (n + 48) as u8);
        assert(is_digit(dec_digits(n).last()));
        assert(dec_value(dec_digits(n)) == n);
    } else {
        lemma_dec_digits_value(n / 10);
        assert(dec_digits(n).drop_last() =~= dec_digits(n / 10));
        assert(dec_digits(n).last() == ((n % 10) + 48) as u8);
        assert(0 <= n % 10 < 10) by (nonlinear_arith);
        assert(is_digit(dec_digits(n).last()));
        assert((dec_digits(n).last() - 48) as nat == n % 10);
        assert(dec_value(dec_digits(n)) == (n / 10) * 10 + n % 10);
        assert((n / 10) * 10 + n % 10 == n) by (nonlinear_arith);
    }
}

/// Appends the decimal digits of `n` to `out`.
pub fn push_dec_u64(n: u64, out: &mut Vec<u8>)
    ensures
        final(out)@ == old(out)@ + dec_digits(n as nat),
    decreases n,
{
    if n < 10 {
        out.push((n as u8) + 48);
    } else {
        push_dec_u64(n / 10, out);
        out.push(((n % 10) as u8) + 48);
        assert(out@ =~= old(out)@ + dec_digits(n as nat));
    }
}

/// Parses an unsigned decimal number; `None` when `s` is empty, holds a
/// non-digit, or the value does not fit in a `u64`.
pub fn parse_dec_u64(s: &[u8]) -> (r: Option<u64>)
    ensures
        match r {
            Some(v) => s@.len() > 0 && all_digits(s@) && v == dec_value(s@),
            None => s@.len() == 0 || !all_digits(s@) || dec_value(s@) > u64::MAX,
        },
{
    if s.len() == 0 {
        return None;
    }
    let mut acc: u64 = 0;
    let mut i: usize = 0;
    while i < s.len()
        invariant
            0 <= i <= s@.len(),
            all_digits(s@.subrange(0, i as int)),
            acc == dec_value(s@.subrange(0, i as int)),
        decreases s@.len() - i,
    {
        let b = s[i];
        if b < 48 || b > 57 {
            assert(!is_digit(s@[i as int]));
            return None;
        }
        let d = b - 48;
        if acc > (u64::MAX - (d as u64)) / 10 {
            proof {
                lemma_dec_value_grows(s@, i as int);
            }
            return None;
        }
        assert(s@.subrange(0, i + 1).drop_last() =~= s@.subrange(0, i as int));
        acc = acc * 10 + (d as u64);
        i = i + 1;
    }
    assert(s@.subrange(0, i as int) =~= s@);
    Some(acc)
}

/// Once a prefix's value exceeds `u64::MAX`, so does the whole string's.
proof fn lemma_dec_value_grows(s: Seq<u8>, i: int)
    requires
        0 <= i < s.len(),
        is_digit(s[i]),
        dec_value(s.subrange(0, i)) * 10 + (s[i] - 48) > u64::MAX,
    ensures
        dec_value(s) > u64::MAX,
    decreases s.len() - i,
{
    if i + 1 == s.len() {
        assert(s.subrange(0, i) =~= s.drop_last());
        assert(s.last() == s[i]);
    } else {
        assert(s.subrange(0, i + 1).drop_last() =~= s.subrange(0, i));
        assert(s.subrange(0, i + 1).last() == s[i]);
        if is_digit(s[i + 1]) {
            lemma_dec_value_grows(s, i + 1);
        } else {
            lemma_dec_value_nondigit(s, i + 1);
        }
    }
}

/// Once ten times a prefix's value exceeds `u64::MAX`, so does the
/// whole string's value, whatever bytes follow.
proof fn lemma_dec_value_nondigit(s: Seq<u8>, j: int)
    requires
        0 <= j < s.len(),
        dec_value(s.subrange(0, j)) * 10 > u64::MAX,
    ensures
        dec_value(s) > u64::MAX,
    decreases s.len() - j,
{
    if j + 1 == s.len() {
        assert(s.subrange(0, j) =~= s.drop_last());
    } else {
        assert(s.subrange(0, j + 1).drop_last() =~= s.subrange(0, j));
        lemma_dec_value_nondigit(s, j + 1);
    }
}

/// Little-endian bytes of a `u32`.
pub open spec fn u32_le_bytes(n: u32) -> Seq<u8> {
    seq![
        (n & 0xFF) as u8,
        ((n >> 8) & 0xFF) as u8,
        ((n >> 16) & 0xFF) as u8,
        ((n >> 24) & 0xFF) as u8,
    ]
}

/// Little-endian bytes of a `u64`.
pub open spec fn u64_le_bytes(n: u64) -> Seq<u8> {
    seq![
        (n & 0xFF) as u8,
        ((n >> 8) & 0xFF) as u8,
        ((n >> 16) & 0xFF) as u8,
        ((n >> 24) & 0xFF) as u8,
        ((n >> 32) & 0xFF) as u8,
        ((n >> 40) & 0xFF) as u8,
        ((n >> 48) & 0xFF) as u8,
        ((n >> 56) & 0xFF) as u8,
    ]
}

/// The `u32` denoted by four little-endian bytes.
pub open spec fn le_u32(b0: u8, b1: u8, b2: u8, b3: u8) -> u32 {
    (b0 as u32) | ((b1 as u32) << 8) | ((b2 as u32) << 16) | ((b3 as u32) << 24)
}

/// The `u64` denoted by eight little-endian bytes.
pub open spec fn le_u64(b0: u8, b1: u8, b2: u8, b3: u8, b4: u8, b5: u8, b6: u8, b7: u8) -> u64 {
    (b0 as u64) | ((b1 as u64) << 8) | ((b2 as u64) << 16) | ((b3 as u64) << 24)
        | ((b4 as u64) << 32) | ((b5 as u64) << 40) | ((b6 as u64) << 48) | ((b7 as u64) << 56)
}

pub proof fn lemma_u32_le_roundtrip(n: u32)
    ensures
        le_u32(
            u32_le_bytes(n)[0],
            u32_le_bytes(n)[1],
            u32_le_bytes(n)[2],
            u32_le_bytes(n)[3],
        ) == n,
{
    assert(le_u32(
        (n & 0xFF) as u8,
        ((n >> 8) & 0xFF) as u8,
        ((n >> 16) & 0xFF) as u8,
        ((n >> 24) & 0xFF) as u8,
    ) == n) by (bit_vector);
}

pub proof fn lemma_u64_le_roundtrip(n: u64)
    ensures
        le_u64(
            u64_le_bytes(n)[0],
            u64_le_bytes(n)[1],
            u64_le_bytes(n)[2],
            u64_le_bytes(n)[3],
            u64_le_bytes(n)[4],
            u64_le_bytes(n)[5],
            u64_le_bytes(n)[6],
            u64_le_bytes(n)[7],
        ) == n,
{
    assert(le_u64(
        (n & 0xFF) as u8,
        ((n >> 8) & 0xFF) as u8,
        ((n >> 16) & 0xFF) as u8,
        ((n >> 24) & 0xFF) as u8,
        ((n >> 32) & 0xFF) as u8,
        ((n >> 40) & 0xFF) as u8,
        ((n >> 48) & 0xFF) as u8,
        ((n >> 56) & 0xFF) as u8,
    ) == n) by (bit_vector);
}

/// Appends the four little-endian bytes of `n` to `out`.
pub fn push_u32_le(n: u32, out: &mut Vec<u8>)
    ensures
        final(out)@ == old(out)@ + u32_le_bytes(n),
{
    out.push((n & 0xFF) as u8);
    out.push(((n >> 8) & 0xFF) as u8);
    out.push(((n >> 16) & 0xFF) as u8);
    out.push(((n >> 24) & 0xFF) as u8);
    assert(out@ =~= old(out)@ + u32_le_bytes(n));
}

/// Appends the eight little-endian bytes of `n` to `out`.
pub fn push_u64_le(n: u64, out: &mut Vec<u8>)
    ensures
        final(out)@ == old(out)@ + u64_le_bytes(n),
{
    out.push((n & 0xFF) as u8);
    out.push(((n >> 8) & 0xFF) as u8);
    out.push(((n >> 16) & 0xFF) as u8);
    out.push(((n >> 24) & 0xFF) as u8);
    out.push(((n >> 32) & 0xFF) as u8);
    out.push(((n >> 40) & 0xFF) as u8);
    out.push(((n >> 48) & 0xFF) as u8);
    out.push(((n >> 56) & 0xFF) as u8);
    assert(out@ =~= old(out)@ + u64_le_bytes(n));
}

/// Reads a `u32` from four little-endian bytes of `s` starting at `pos`.
pub fn read_u32_le(s: &[u8], pos: usize) -> (r: u32)
    requires
        pos + 4 <= s@.len(),
    ensures
        r == le_u32(s@[pos as int], s@[pos + 1], s@[pos + 2], s@[pos + 3]),
{
    (s[pos] as u32) | ((s[pos + 1] as u32) << 8) | ((s[pos + 2] as u32) << 16)
        | ((s[pos + 3] as u32) << 24)
}

/// Reads a `u64` from eight little-endian bytes of `s` starting at `pos`.
pub fn read_u64_le(s: &[u8], pos: usize) -> (r: u64)
    requires
        pos + 8 <= s@.len(),
    ensures
        r == le_u64(
            s@[pos as int],
            s@[pos + 1],
            s@[pos + 2],
            s@[pos + 3],
            s@[pos + 4],
            s@[pos + 5],
            s@[pos + 6],
            s@[pos + 7],
        ),
{
    (s[pos] as u64) | ((s[pos + 1] as u64) << 8) | ((s[pos + 2] as u64) << 16)
        | ((s[pos + 3] as u64) << 24) | ((s[pos + 4] as u64) << 32)
        | ((s[pos + 5] as u64) << 40) | ((s[pos + 6] as u64) << 48)
        | ((s[pos + 7] as u64) << 56)
}

/// Appends all of `src` to `out`.
pub fn append_bytes(out: &mut Vec<u8>, src: &[u8])
    ensures
        final(out)@ == old(out)@ + src@,
{
    let mut i: usize = 0;
    while i < src.len()
        invariant
            i <= src@.len(),
            out@ == old(out)@ + src@.subrange(0, i as int),
        decreases src@.len() - i,
    {
        out.push(src[i]);
        assert(out@ =~= old(out)@ + src@.subrange(0, i + 1));
        i = i + 1;
    }
    assert(src@.subrange(0, i as int) =~= src@);
}

pub proof fn lemma_subrange_index(input: Seq<u8>, pos: int, e: Seq<u8>)
    requires
        0 <= pos,
        pos + e.len() <= input.len(),
        input.subrange(pos, pos + e.len() as int) == e,
    ensures
        forall|k: int| 0 <= k < e.len() ==> input[pos + k] == #[trigger] e[k],
{
    assert forall|k: int| 0 <= k < e.len() implies input[pos + k] == #[trigger] e[k] by {
        assert(input.subrange(pos, pos + e.len() as int)[k] == input[pos + k]);
    }
}

pub proof fn lemma_subrange_nested(input: Seq<u8>, pos: int, e: Seq<u8>, a: int, b: int)
    requires
        0 <= pos,
        pos + e.len() <= input.len(),
        input.subrange(pos, pos + e.len() as int) == e,
        0 <= a <= b <= e.len(),
    ensures
        input.subrange(pos + a, pos + b) == e.subrange(a, b),
{
    lemma_subrange_index(input, pos, e);
    assert forall|k: int| 0 <= k < b - a implies input.subrange(pos + a, pos + b)[k]
        == e.subrange(a, b)[k] by {
        assert(input[pos + (a + k)] == e[a + k]);
    }
    assert(input.subrange(pos + a, pos + b) =~= e.subrange(a, b));
}

/// Index of the first space in `s`, or -1.
pub open spec fn find_space(s: Seq<u8>, pos: int) -> int
    decreases s.len() - pos,
{
    if pos < 0 || pos >= s.len() {
        -1
    } else if s[pos] == 32 {
        pos
    } else {
        find_space(s, pos + 1)
    }
}

pub proof fn lemma_find_space(s: Seq<u8>, pos: int)
    requires
        0 <= pos,
    ensures
        find_space(s, pos) == -1 ==> forall|j: int| pos <= j < s.len() ==> s[j] != 32,
        find_space(s, pos) != -1 ==> pos <= find_space(s, pos) < s.len() && s[find_space(s, pos)]
            == 32 && forall|j: int| pos <= j < find_space(s, pos) ==> s[j] != 32,
    decreases s.len() - pos,
{
    if pos < s.len() && s[pos] != 32 {
        lemma_find_space(s, pos + 1);
    }
}

pub fn find_space_exec(s: &[u8]) -> (r: Option<usize>)
    ensures
        match r {
            Some(c) => c == find_space(s@, 0),
            None => find_space(s@, 0) == -1,
        },
{
    let mut i: usize = 0;
    while i < s.len()
        invariant
            i <= s@.len(),
            find_space(s@, 0) == find_space(s@, i as int),
        decreases s@.len() - i,
    {
        if s[i] == 32 {
            return Some(i);
        }
        i = i + 1;
    }
    None
}

/// True when every byte is an ASCII digit.
pub fn all_digits_exec(s: &[u8]) -> (r: bool)
    ensures
        r == all_digits(s@),
{
    let mut i: usize = 0;
    while i < s.len()
        invariant
            i <= s@.len(),
            forall|j: int| 0 <= j < i ==> is_digit(s@[j]),
        decreases s@.len() - i,
    {
        let b = s[i];
        if b < 48 || b > 57 {
            assert(!is_digit(s@[i as int]));
            return false;
        }
        i = i + 1;
    }
    true
}

} // verus!
