//! RDB binary codec: length encoding, value-type dispatch, expiry
//! prefixes, and a CRC-64 trailer over everything that precedes it.

use vstd::prelude::*;
use crate::num::{
    append_bytes, dec_digits, is_digit, le_u32, le_u64, u32_le_bytes, u64_le_bytes,
    lemma_subrange_index, lemma_subrange_nested, lemma_u32_le_roundtrip, lemma_u64_le_roundtrip,
    push_dec_u64, push_u32_le, push_u64_le, read_u32_le, read_u64_le,
};
use crate::db::{
    assoc_wf, Database, Expiry, KeyValue, KeyValueData, RdbFile, RedisValue, Score, ValueData,
};

verus! {

/// Mathematical image of a whole store, in storage order.
pub struct RdbData {
    pub version: u32,
    pub aux: Seq<(Seq<u8>, Seq<u8>)>,
    pub dbs: Seq<(u64, Seq<(Seq<u8>, KeyValueData)>)>,
}

/// Deep view of an `RdbFile`.
pub open spec fn rdb_dv(f: RdbFile) -> RdbData {
    RdbData {
        version: f.version,
        aux: f.aux_seq(),
        dbs: f.databases@.map_values(|e: (u64, Database)| (e.0, e.1.entry_seq())),
    }
}

/// Longest string the parser accepts.
pub const MAX_STRING_LEN: u64 = 1048576;

/// What an RDB read can fail with.
#[derive(Debug, Clone, Copy, PartialEq, Eq, Structural)]
pub enum StorageError {
    /// The file does not begin with the magic bytes.
    BadMagic,
    /// The four version bytes are not ASCII digits.
    BadVersion,
    /// A byte where a section marker was expected is none.
    UnknownControl,
    /// A value-type byte outside the supported range.
    UnsupportedType,
    /// The stored checksum does not match the bytes before it.
    CrcMismatch,
    /// The input ends in the middle of a structure.
    Truncated,
    /// Bytes follow the checksum trailer.
    TrailingBytes,
    /// A string longer than `MAX_STRING_LEN`.
    OversizedString,
    /// A compressed string or an unknown special length code.
    UnsupportedEncoding,
    /// A database index that occurs twice.
    DuplicateDb,
}

// ---------------------------------------------------------------------
// Encoding

/// Length encoding: one byte below 64, two bytes below 16384, else the
/// marker 0x80 followed by the length as a little-endian `u32`.
pub open spec fn len_enc(n: u64) -> Seq<u8> {
    if n < 64 {
        seq![n as u8]
    } else if n < 16384 {
        seq![(0x40u64 | (n >> 8)) as u8, (n & 0xFF) as u8]
    } else {
        seq![0x80u8] + u32_le_bytes(n as u32)
    }
}

/// A string: its length, then its bytes.
pub open spec fn str_enc(s: Seq<u8>) -> Seq<u8> {
    len_enc(s.len() as u64) + s
}

/// A score: the special markers 253, 254, 255, or the length 8 followed
/// by the eight bytes of the double.
pub open spec fn score_enc(sc: Score) -> Seq<u8> {
    match sc {
        Score::PosInf => len_enc(253),
        Score::NegInf => len_enc(254),
        Score::NotANum => len_enc(255),
        Score::Finite(bits) => len_enc(8) + u64_le_bytes(bits),
    }
}

pub open spec fn strs_enc(items: Seq<Seq<u8>>) -> Seq<u8>
    decreases items.len(),
{
    if items.len() == 0 {
        Seq::empty()
    } else {
        str_enc(items.first()) + strs_enc(items.drop_first())
    }
}

pub open spec fn pairs_enc(items: Seq<(Seq<u8>, Seq<u8>)>) -> Seq<u8>
    decreases items.len(),
{
    if items.len() == 0 {
        Seq::empty()
    } else {
        str_enc(items.first().0) + str_enc(items.first().1) + pairs_enc(items.drop_first())
    }
}

pub open spec fn scored_enc(items: Seq<(Seq<u8>, Score)>) -> Seq<u8>
    decreases items.len(),
{
    if items.len() == 0 {
        Seq::empty()
    } else {
        str_enc(items.first().0) + score_enc(items.first().1) + scored_enc(items.drop_first())
    }
}

/// The value-type byte: 0 string, 1 list, 2 hash, 3 set, 4 sorted set.
pub open spec fn type_byte(v: ValueData) -> u8 {
    match v {
        ValueData::Str(_) => 0,
        ValueData::List(_) => 1,
        ValueData::Hash(_) => 2,
        ValueData::SetVal(_) => 3,
        ValueData::SortedSet(_) => 4,
    }
}

pub open spec fn value_enc(v: ValueData) -> Seq<u8> {
    match v {
        ValueData::Str(s) => str_enc(s),
        ValueData::List(items) => len_enc(items.len() as u64) + strs_enc(items),
        ValueData::SetVal(items) => len_enc(items.len() as u64) + strs_enc(items),
        ValueData::SortedSet(items) => len_enc(items.len() as u64) + scored_enc(items),
        ValueData::Hash(items) => len_enc(items.len() as u64) + pairs_enc(items),
    }
}

/// The optional expiry prefix: 0xFD with unix seconds, or 0xFC with unix
/// milliseconds.
pub open spec fn expiry_enc(e: Option<Expiry>) -> Seq<u8> {
    match e {
        Option::None => Seq::empty(),
        Option::Some(Expiry::Seconds(t)) => seq![0xFDu8] + u32_le_bytes(t),
        Option::Some(Expiry::Milliseconds(t)) => seq![0xFCu8] + u64_le_bytes(t),
    }
}

pub open spec fn entry_enc(k: Seq<u8>, kv: KeyValueData) -> Seq<u8> {
    expiry_enc(kv.expiry) + seq![type_byte(kv.value)] + str_enc(k) + value_enc(kv.value)
}

pub open spec fn entries_enc(items: Seq<(Seq<u8>, KeyValueData)>) -> Seq<u8>
    decreases items.len(),
{
    if items.len() == 0 {
        Seq::empty()
    } else {
        entry_enc(items.first().0, items.first().1) + entries_enc(items.drop_first())
    }
}

/// A database section: 0xFE, the index, 0xFB, the entry count, a zero
/// expire-table size, then the entries.
pub open spec fn db_enc(idx: u64, entries: Seq<(Seq<u8>, KeyValueData)>) -> Seq<u8> {
    seq![0xFEu8] + len_enc(idx) + seq![0xFBu8] + len_enc(entries.len() as u64) + len_enc(0)
        + entries_enc(entries)
}

pub open spec fn dbs_enc(dbs: Seq<(u64, Seq<(Seq<u8>, KeyValueData)>)>) -> Seq<u8>
    decreases dbs.len(),
{
    if dbs.len() == 0 {
        Seq::empty()
    } else {
        db_enc(dbs.first().0, dbs.first().1) + dbs_enc(dbs.drop_first())
    }
}

pub open spec fn aux_enc(k: Seq<u8>, v: Seq<u8>) -> Seq<u8> {
    seq![0xFAu8] + str_enc(k) + str_enc(v)
}

pub open spec fn auxes_enc(aux: Seq<(Seq<u8>, Seq<u8>)>) -> Seq<u8>
    decreases aux.len(),
{
    if aux.len() == 0 {
        Seq::empty()
    } else {
        aux_enc(aux.first().0, aux.first().1) + auxes_enc(aux.drop_first())
    }
}

pub open spec fn rdb_magic() -> Seq<u8> {
    seq![82u8, 69u8, 68u8, 73u8, 83u8]
}

/// The version as four zero-padded ASCII digits.
pub open spec fn dec4(v: u32) -> Seq<u8> {
    seq![
        ((v / 1000) % 10 + 48) as u8,
        ((v / 100) % 10 + 48) as u8,
        ((v / 10) % 10 + 48) as u8,
        (v % 10 + 48) as u8,
    ]
}

/// Everything before the trailer.
pub open spec fn rdb_body(d: RdbData) -> Seq<u8> {
    rdb_magic() + dec4(d.version) + auxes_enc(d.aux) + dbs_enc(d.dbs) + seq![0xFFu8]
}

/// The whole file: the body, then the CRC-64 of the body, little endian.
pub open spec fn rdb_encode(d: RdbData) -> Seq<u8> {
    rdb_body(d) + u64_le_bytes(crc64_of(rdb_body(d)))
}

// ---------------------------------------------------------------------
// The checksum

/// The CRC-64 (as crc64fast computes it) of a byte string.
pub uninterp spec fn crc64_of(bytes: Seq<u8>) -> u64;

/// Relies on crc64fast::Digest (new / write / sum64), which computes the
/// CRC-64/XZ (ECMA) polynomial: the checksum is a function of the bytes
/// written, and of nothing else. Note this is not the polynomial genuine
/// Redis trailers use, so images are self-consistent here but not
/// interchangeable with Redis's own files.
#[verifier::external_body]
fn crc64_bytes(bytes: &[u8]) -> (r: u64)
    ensures
        r == crc64_of(bytes@),
{
    let mut d = crc64fast::Digest::new();
    d.write(bytes);
    d.sum64()
}

// ---------------------------------------------------------------------
// Parsing

/// What one length item denotes: a plain length, an inline integer, or a
/// compressed string marker.
pub enum LenItem {
    Plain(u64),
    IntVal(int),
    Lzf,
}

/// The signed value of one little-endian byte.
pub open spec fn sint8(b: u8) -> int {
    if b >= 128 {
        b - 256
    } else {
        b as int
    }
}

pub open spec fn sint16(x: u16) -> int {
    if x >= 32768 {
        x - 65536
    } else {
        x as int
    }
}

pub open spec fn sint32(x: u32) -> int {
    if x >= 2147483648 {
        x - 4294967296
    } else {
        x as int
    }
}

/// The little-endian `u16` of two bytes.
pub open spec fn sle_u16(b0: u8, b1: u8) -> u16 {
    (b0 as u16) | ((b1 as u16) << 8)
}

/// Decimal digits of a possibly negative integer.
pub open spec fn int_str(v: int) -> Seq<u8> {
    if v < 0 {
        seq![45u8] + dec_digits((-v) as nat)
    } else {
        dec_digits(v as nat)
    }
}

/// Reads one length item starting at `pos`.
pub open spec fn spec_read_len(input: Seq<u8>, pos: int) -> Result<(LenItem, int), StorageError> {
    if pos < 0 || pos >= input.len() {
        Result::Err(StorageError::Truncated)
    } else {
        let b = input[pos];
        let prefix = b >> 6;
        if prefix == 0 {
            Result::Ok((LenItem::Plain((b & 0x3F) as u64), pos + 1))
        } else if prefix == 1 {
            if pos + 2 > input.len() {
                Result::Err(StorageError::Truncated)
            } else {
                Result::Ok((
                    LenItem::Plain((((b & 0x3F) as u64) << 8) | (input[pos + 1] as u64)),
                    pos + 2,
                ))
            }
        } else if prefix == 2 {
            if pos + 5 > input.len() {
                Result::Err(StorageError::Truncated)
            } else {
                Result::Ok((
                    LenItem::Plain(
                        le_u32(input[pos + 1], input[pos + 2], input[pos + 3], input[pos + 4])
                            as u64,
                    ),
                    pos + 5,
                ))
            }
        } else {
            let code = b & 0x3F;
            if code == 0 {
                if pos + 2 > input.len() {
                    Result::Err(StorageError::Truncated)
                } else {
                    Result::Ok((LenItem::IntVal(sint8(input[pos + 1])), pos + 2))
                }
            } else if code == 1 {
                if pos + 3 > input.len() {
                    Result::Err(StorageError::Truncated)
                } else {
                    Result::Ok((
                        LenItem::IntVal(sint16(sle_u16(input[pos + 1], input[pos + 2]))),
                        pos + 3,
                    ))
                }
            } else if code == 2 {
                if pos + 5 > input.len() {
                    Result::Err(StorageError::Truncated)
                } else {
                    Result::Ok((
                        LenItem::IntVal(
                            sint32(
                                le_u32(
                                    input[pos + 1],
                                    input[pos + 2],
                                    input[pos + 3],
                                    input[pos + 4],
                                ),
                            ),
                        ),
                        pos + 5,
                    ))
                }
            } else if code == 3 {
                Result::Ok((LenItem::Lzf, pos + 1))
            } else {
                Result::Err(StorageError::UnsupportedEncoding)
            }
        }
    }
}

/// Reads a plain length; inline integers and compressed markers are not
/// lengths.
pub open spec fn spec_read_count(input: Seq<u8>, pos: int) -> Result<(u64, int), StorageError> {
    match spec_read_len(input, pos) {
        Result::Ok((LenItem::Plain(n), p)) => Result::Ok((n, p)),
        Result::Ok((LenItem::IntVal(_), p)) => Result::Err(StorageError::UnsupportedEncoding),
        Result::Ok((LenItem::Lzf, p)) => Result::Err(StorageError::UnsupportedEncoding),
        Result::Err(e) => Result::Err(e),
    }
}

/// Reads one string: a plain length followed by that many bytes, or an
/// inline integer read as its decimal digits.
pub open spec fn spec_read_string(input: Seq<u8>, pos: int) -> Result<(Seq<u8>, int), StorageError> {
    match spec_read_len(input, pos) {
        Result::Ok((LenItem::Plain(n), p)) => {
            if n > MAX_STRING_LEN {
                Result::Err(StorageError::OversizedString)
            } else if p + n > input.len() {
                Result::Err(StorageError::Truncated)
            } else {
                Result::Ok((input.subrange(p, p + n), p + n))
            }
        },
        Result::Ok((LenItem::IntVal(v), p)) => Result::Ok((int_str(v), p)),
        Result::Ok((LenItem::Lzf, p)) => Result::Err(StorageError::UnsupportedEncoding),
        Result::Err(e) => Result::Err(e),
    }
}

/// Reads one score.
pub open spec fn spec_read_score(input: Seq<u8>, pos: int) -> Result<(Score, int), StorageError> {
    match spec_read_count(input, pos) {
        Result::Ok((n, p)) => {
            if n == 253 {
                Result::Ok((Score::PosInf, p))
            } else if n == 254 {
                Result::Ok((Score::NegInf, p))
            } else if n == 255 {
                Result::Ok((Score::NotANum, p))
            } else if n == 8 {
                if p + 8 > input.len() {
                    Result::Err(StorageError::Truncated)
                } else {
                    Result::Ok((
                        Score::Finite(
                            le_u64(
                                input[p],
                                input[p + 1],
                                input[p + 2],
                                input[p + 3],
                                input[p + 4],
                                input[p + 5],
                                input[p + 6],
                                input[p + 7],
                            ),
                        ),
                        p + 8,
                    ))
                }
            } else {
                Result::Err(StorageError::UnsupportedEncoding)
            }
        },
        Result::Err(e) => Result::Err(e),
    }
}

/// Reads `cnt` strings.
pub open spec fn spec_read_strings(input: Seq<u8>, pos: int, cnt: nat, acc: Seq<Seq<u8>>) -> Result<
    (Seq<Seq<u8>>, int),
    StorageError,
>
    decreases input.len() - pos, cnt,
{
    if cnt == 0 {
        Result::Ok((acc, pos))
    } else {
        match spec_read_string(input, pos) {
            Result::Ok((s, p)) => {
                if p < pos || p > input.len() {
                    Result::Err(StorageError::Truncated)
                } else {
                    spec_read_strings(input, p, (cnt - 1) as nat, acc.push(s))
                }
            },
            Result::Err(e) => Result::Err(e),
        }
    }
}

/// Reads `cnt` field/value pairs.
pub open spec fn spec_read_pairs(
    input: Seq<u8>,
    pos: int,
    cnt: nat,
    acc: Seq<(Seq<u8>, Seq<u8>)>,
) -> Result<(Seq<(Seq<u8>, Seq<u8>)>, int), StorageError>
    decreases input.len() - pos, cnt,
{
    if cnt == 0 {
        Result::Ok((acc, pos))
    } else {
        match spec_read_string(input, pos) {
            Result::Ok((k, p1)) => match spec_read_string(input, p1) {
                Result::Ok((v, p2)) => {
                    if p2 < pos || p2 > input.len() {
                        Result::Err(StorageError::Truncated)
                    } else {
                        spec_read_pairs(input, p2, (cnt - 1) as nat, acc.push((k, v)))
                    }
                },
                Result::Err(e) => Result::Err(e),
            },
            Result::Err(e) => Result::Err(e),
        }
    }
}

/// Reads `cnt` member/score pairs.
pub open spec fn spec_read_scored(
    input: Seq<u8>,
    pos: int,
    cnt: nat,
    acc: Seq<(Seq<u8>, Score)>,
) -> Result<(Seq<(Seq<u8>, Score)>, int), StorageError>
    decreases input.len() - pos, cnt,
{
    if cnt == 0 {
        Result::Ok((acc, pos))
    } else {
        match spec_read_string(input, pos) {
            Result::Ok((m, p1)) => match spec_read_score(input, p1) {
                Result::Ok((sc, p2)) => {
                    if p2 < pos || p2 > input.len() {
                        Result::Err(StorageError::Truncated)
                    } else {
                        spec_read_scored(input, p2, (cnt - 1) as nat, acc.push((m, sc)))
                    }
                },
                Result::Err(e) => Result::Err(e),
            },
            Result::Err(e) => Result::Err(e),
        }
    }
}

/// Reads one value of the given type byte.
pub open spec fn spec_parse_value(input: Seq<u8>, pos: int, vt: u8) -> Result<
    (ValueData, int),
    StorageError,
> {
    if vt == 0 {
        match spec_read_string(input, pos) {
            Result::Ok((s, p)) => Result::Ok((ValueData::Str(s), p)),
            Result::Err(e) => Result::Err(e),
        }
    } else if vt == 1 {
        match spec_read_count(input, pos) {
            Result::Ok((n, p)) => match spec_read_strings(input, p, n as nat, Seq::empty()) {
                Result::Ok((items, p2)) => Result::Ok((ValueData::List(items), p2)),
                Result::Err(e) => Result::Err(e),
            },
            Result::Err(e) => Result::Err(e),
        }
    } else if vt == 2 {
        match spec_read_count(input, pos) {
            Result::Ok((n, p)) => match spec_read_pairs(input, p, n as nat, Seq::empty()) {
                Result::Ok((items, p2)) => Result::Ok((ValueData::Hash(items), p2)),
                Result::Err(e) => Result::Err(e),
            },
            Result::Err(e) => Result::Err(e),
        }
    } else if vt == 3 {
        match spec_read_count(input, pos) {
            Result::Ok((n, p)) => match spec_read_strings(input, p, n as nat, Seq::empty()) {
                Result::Ok((items, p2)) => Result::Ok((ValueData::SetVal(items), p2)),
                Result::Err(e) => Result::Err(e),
            },
            Result::Err(e) => Result::Err(e),
        }
    } else if vt == 4 {
        match spec_read_count(input, pos) {
            Result::Ok((n, p)) => match spec_read_scored(input, p, n as nat, Seq::empty()) {
                Result::Ok((items, p2)) => Result::Ok((ValueData::SortedSet(items), p2)),
                Result::Err(e) => Result::Err(e),
            },
            Result::Err(e) => Result::Err(e),
        }
    } else {
        Result::Err(StorageError::UnsupportedType)
    }
}

/// Reads one key/value entry: an optional expiry prefix, the value-type
/// byte, the key, the value.
pub open spec fn spec_parse_entry(input: Seq<u8>, pos: int) -> Result<
    ((Seq<u8>, KeyValueData), int),
    StorageError,
> {
    if pos < 0 || pos >= input.len() {
        Result::Err(StorageError::Truncated)
    } else {
        let b = input[pos];
        let exp: Result<(Option<Expiry>, int), StorageError> = if b == 0xFD {
            if pos + 5 > input.len() {
                Result::Err(StorageError::Truncated)
            } else {
                Result::Ok((
                    Option::Some(
                        Expiry::Seconds(
                            le_u32(input[pos + 1], input[pos + 2], input[pos + 3], input[pos + 4]),
                        ),
                    ),
                    pos + 5,
                ))
            }
        } else if b == 0xFC {
            if pos + 9 > input.len() {
                Result::Err(StorageError::Truncated)
            } else {
                Result::Ok((
                    Option::Some(
                        Expiry::Milliseconds(
                            le_u64(
                                input[pos + 1],
                                input[pos + 2],
                                input[pos + 3],
                                input[pos + 4],
                                input[pos + 5],
                                input[pos + 6],
                                input[pos + 7],
                                input[pos + 8],
                            ),
                        ),
                    ),
                    pos + 9,
                ))
            }
        } else {
            Result::Ok((Option::None, pos))
        };
        match exp {
            Result::Ok((expiry, p1)) => {
                if p1 >= input.len() {
                    Result::Err(StorageError::Truncated)
                } else {
                    let vt = input[p1];
                    match spec_read_string(input, p1 + 1) {
                        Result::Ok((k, p2)) => match spec_parse_value(input, p2, vt) {
                            Result::Ok((v, p3)) => Result::Ok((
                                (k, KeyValueData { value: v, expiry }),
                                p3,
                            )),
                            Result::Err(e) => Result::Err(e),
                        },
                        Result::Err(e) => Result::Err(e),
                    }
                }
            },
            Result::Err(e) => Result::Err(e),
        }
    }
}

/// True when `k` is a key of the association list.
pub open spec fn assoc_has<K, V>(s: Seq<(K, V)>, k: K) -> bool {
    exists|i: int| 0 <= i < s.len() && (#[trigger] s[i]).0 == k
}

/// Reads `cnt` entries; a key that was already read is dropped, the first
/// occurrence wins.
pub open spec fn spec_parse_entries(
    input: Seq<u8>,
    pos: int,
    cnt: nat,
    acc: Seq<(Seq<u8>, KeyValueData)>,
) -> Result<(Seq<(Seq<u8>, KeyValueData)>, int), StorageError>
    decreases input.len() - pos, cnt,
{
    if cnt == 0 {
        Result::Ok((acc, pos))
    } else {
        match spec_parse_entry(input, pos) {
            Result::Ok(((k, kv), p)) => {
                if p < pos || p > input.len() {
                    Result::Err(StorageError::Truncated)
                } else {
                    let acc2 = if assoc_has(acc, k) {
                        acc
                    } else {
                        acc.push((k, kv))
                    };
                    spec_parse_entries(input, p, (cnt - 1) as nat, acc2)
                }
            },
            Result::Err(e) => Result::Err(e),
        }
    }
}

/// Reads the sections after the header: auxiliary fields, database
/// sections, then the end marker and the checksum trailer, which must be
/// the last eight bytes.
pub open spec fn spec_parse_tops(
    input: Seq<u8>,
    pos: int,
    version: u32,
    aux: Seq<(Seq<u8>, Seq<u8>)>,
    dbs: Seq<(u64, Seq<(Seq<u8>, KeyValueData)>)>,
) -> Result<RdbData, StorageError>
    decreases input.len() - pos,
{
    if pos < 0 || pos >= input.len() {
        Result::Err(StorageError::Truncated)
    } else {
        let b = input[pos];
        if b == 0xFA {
            match spec_read_string(input, pos + 1) {
                Result::Ok((k, p1)) => match spec_read_string(input, p1) {
                    Result::Ok((v, p2)) => {
                        if p2 <= pos || p2 > input.len() {
                            Result::Err(StorageError::Truncated)
                        } else {
                            let aux2 = if assoc_has(aux, k) {
                                aux
                            } else {
                                aux.push((k, v))
                            };
                            spec_parse_tops(input, p2, version, aux2, dbs)
                        }
                    },
                    Result::Err(e) => Result::Err(e),
                },
                Result::Err(e) => Result::Err(e),
            }
        } else if b == 0xFE {
            match spec_parse_db_section(input, pos) {
                Result::Ok(((idx, entries), p4)) => {
                    if assoc_has(dbs, idx) {
                        Result::Err(StorageError::DuplicateDb)
                    } else if p4 <= pos || p4 > input.len() {
                        Result::Err(StorageError::Truncated)
                    } else {
                        spec_parse_tops(input, p4, version, aux, dbs.push((idx, entries)))
                    }
                },
                Result::Err(e) => Result::Err(e),
            }
        } else if b == 0xFF {
            if pos + 9 > input.len() {
                Result::Err(StorageError::Truncated)
            } else if pos + 9 < input.len() {
                Result::Err(StorageError::TrailingBytes)
            } else {
                let stored = le_u64(
                    input[pos + 1],
                    input[pos + 2],
                    input[pos + 3],
                    input[pos + 4],
                    input[pos + 5],
                    input[pos + 6],
                    input[pos + 7],
                    input[pos + 8],
                );
                if stored == crc64_of(input.subrange(0, pos + 1)) {
                    Result::Ok(RdbData { version, aux, dbs })
                } else {
                    Result::Err(StorageError::CrcMismatch)
                }
            }
        } else {
            Result::Err(StorageError::UnknownControl)
        }
    }
}

/// Parses a whole RDB file image.
pub open spec fn spec_rdb_parse(input: Seq<u8>) -> Result<RdbData, StorageError> {
    if input.len() < 9 {
        Result::Err(StorageError::Truncated)
    } else if input.subrange(0, 5) != rdb_magic() {
        Result::Err(StorageError::BadMagic)
    } else if !(is_digit(input[5]) && is_digit(input[6]) && is_digit(input[7]) && is_digit(
        input[8],
    )) {
        Result::Err(StorageError::BadVersion)
    } else {
        let version = ((input[5] - 48) * 1000 + (input[6] - 48) * 100 + (input[7] - 48) * 10 + (
        input[8] - 48)) as u32;
        spec_parse_tops(input, 9, version, Seq::empty(), Seq::empty())
    }
}


// ---------------------------------------------------------------------
// Length bounds the writer needs

/// Fits the length encoding's four-byte form.
pub open spec fn str_len_wf(s: Seq<u8>) -> bool {
    s.len() < 4294967296
}

pub open spec fn value_len_wf(v: ValueData) -> bool {
    match v {
        ValueData::Str(s) => str_len_wf(s),
        ValueData::List(items) => items.len() < 4294967296 && forall|i: int|
            0 <= i < items.len() ==> str_len_wf(#[trigger] items[i]),
        ValueData::SetVal(items) => items.len() < 4294967296 && forall|i: int|
            0 <= i < items.len() ==> str_len_wf(#[trigger] items[i]),
        ValueData::SortedSet(items) => items.len() < 4294967296 && forall|i: int|
            0 <= i < items.len() ==> str_len_wf((#[trigger] items[i]).0),
        ValueData::Hash(items) => items.len() < 4294967296 && forall|i: int|
            0 <= i < items.len() ==> str_len_wf((#[trigger] items[i]).0) && str_len_wf(
                items[i].1,
            ),
    }
}

pub open spec fn entry_len_wf(e: (Seq<u8>, KeyValueData)) -> bool {
    str_len_wf(e.0) && value_len_wf(e.1.value)
}

/// What the writer needs of a store: the version has four digits, and
/// every counted length fits the encoding.
pub open spec fn rdb_len_wf(d: RdbData) -> bool {
    &&& d.version <= 9999
    &&& forall|i: int|
        0 <= i < d.aux.len() ==> str_len_wf((#[trigger] d.aux[i]).0) && str_len_wf(d.aux[i].1)
    &&& forall|i: int|
        0 <= i < d.dbs.len() ==> (#[trigger] d.dbs[i]).0 < 4294967296 && d.dbs[i].1.len()
            < 4294967296 && forall|j: int|
            0 <= j < d.dbs[i].1.len() ==> entry_len_wf(#[trigger] d.dbs[i].1[j])
}

// ---------------------------------------------------------------------
// Writer

/// Appends the length encoding of `n`.
pub fn push_len(n: u64, out: &mut Vec<u8>)
    requires
        n < 4294967296,
    ensures
        final(out)@ == old(out)@ + len_enc(n),
{
    if n < 64 {
        out.push(n as u8);
        assert(out@ =~= old(out)@ + len_enc(n));
    } else if n < 16384 {
        out.push((0x40u64 | (n >> 8)) as u8);
        out.push((n & 0xFF) as u8);
        assert(out@ =~= old(out)@ + len_enc(n));
    } else {
        out.push(0x80);
        push_u32_le(n as u32, out);
        assert(out@ =~= old(out)@ + len_enc(n));
    }
}

/// Appends the string encoding of `s`.
pub fn push_str_enc(s: &Vec<u8>, out: &mut Vec<u8>)
    requires
        str_len_wf(s@),
    ensures
        final(out)@ == old(out)@ + str_enc(s@),
{
    push_len(s.len() as u64, out);
    append_bytes(out, s.as_slice());
    assert(out@ =~= old(out)@ + str_enc(s@));
}

/// Appends the score encoding.
pub fn push_score(sc: &Score, out: &mut Vec<u8>)
    ensures
        final(out)@ == old(out)@ + score_enc(*sc),
{
    match sc {
        Score::PosInf => push_len(253, out),
        Score::NegInf => push_len(254, out),
        Score::NotANum => push_len(255, out),
        Score::Finite(bits) => {
            push_len(8, out);
            push_u64_le(*bits, out);
            assert(out@ =~= old(out)@ + score_enc(*sc));
        },
    }
}

proof fn lemma_strs_enc_snoc(items: Seq<Seq<u8>>, x: Seq<u8>)
    ensures
        strs_enc(items.push(x)) == strs_enc(items) + str_enc(x),
    decreases items.len(),
{
    if items.len() == 0 {
        assert(items.push(x).first() == x);
        assert(items.push(x).drop_first() =~= Seq::<Seq<u8>>::empty());
        assert(strs_enc(Seq::<Seq<u8>>::empty()) == Seq::<u8>::empty());
        assert(strs_enc(items) == Seq::<u8>::empty());
        assert(strs_enc(items.push(x)) =~= strs_enc(items) + str_enc(x));
    } else {
        lemma_strs_enc_snoc(items.drop_first(), x);
        assert(items.push(x).drop_first() =~= items.drop_first().push(x));
        assert(items.push(x).first() == items.first());
        assert(strs_enc(items.push(x)) =~= strs_enc(items) + str_enc(x));
    }
}

proof fn lemma_pairs_enc_snoc(items: Seq<(Seq<u8>, Seq<u8>)>, x: (Seq<u8>, Seq<u8>))
    ensures
        pairs_enc(items.push(x)) == pairs_enc(items) + str_enc(x.0) + str_enc(x.1),
    decreases items.len(),
{
    if items.len() == 0 {
        assert(items.push(x).first() == x);
        assert(items.push(x).drop_first() =~= Seq::<(Seq<u8>, Seq<u8>)>::empty());
        assert(pairs_enc(Seq::<(Seq<u8>, Seq<u8>)>::empty()) == Seq::<u8>::empty());
        assert(pairs_enc(items) == Seq::<u8>::empty());
        assert(pairs_enc(items.push(x)) =~= pairs_enc(items) + str_enc(x.0) + str_enc(x.1));
    } else {
        lemma_pairs_enc_snoc(items.drop_first(), x);
        assert(items.push(x).drop_first() =~= items.drop_first().push(x));
        assert(items.push(x).first() == items.first());
        assert(pairs_enc(items.push(x)) =~= pairs_enc(items) + str_enc(x.0) + str_enc(x.1));
    }
}

proof fn lemma_scored_enc_snoc(items: Seq<(Seq<u8>, Score)>, x: (Seq<u8>, Score))
    ensures
        scored_enc(items.push(x)) == scored_enc(items) + str_enc(x.0) + score_enc(x.1),
    decreases items.len(),
{
    if items.len() == 0 {
        assert(items.push(x).first() == x);
        assert(items.push(x).drop_first() =~= Seq::<(Seq<u8>, Score)>::empty());
        assert(scored_enc(Seq::<(Seq<u8>, Score)>::empty()) == Seq::<u8>::empty());
        assert(scored_enc(items) == Seq::<u8>::empty());
        assert(scored_enc(items.push(x)) =~= scored_enc(items) + str_enc(x.0) + score_enc(x.1));
    } else {
        lemma_scored_enc_snoc(items.drop_first(), x);
        assert(items.push(x).drop_first() =~= items.drop_first().push(x));
        assert(items.push(x).first() == items.first());
        assert(scored_enc(items.push(x)) =~= scored_enc(items) + str_enc(x.0) + score_enc(x.1));
    }
}

proof fn lemma_entries_enc_snoc(items: Seq<(Seq<u8>, KeyValueData)>, x: (Seq<u8>, KeyValueData))
    ensures
        entries_enc(items.push(x)) == entries_enc(items) + entry_enc(x.0, x.1),
    decreases items.len(),
{
    if items.len() == 0 {
        assert(items.push(x).first() == x);
        assert(items.push(x).drop_first() =~= Seq::<(Seq<u8>, KeyValueData)>::empty());
        assert(entries_enc(Seq::<(Seq<u8>, KeyValueData)>::empty()) == Seq::<u8>::empty());
        assert(entries_enc(items) == Seq::<u8>::empty());
        assert(entries_enc(items.push(x)) =~= entries_enc(items) + entry_enc(x.0, x.1));
    } else {
        lemma_entries_enc_snoc(items.drop_first(), x);
        assert(items.push(x).drop_first() =~= items.drop_first().push(x));
        assert(items.push(x).first() == items.first());
        assert(entries_enc(items.push(x)) =~= entries_enc(items) + entry_enc(x.0, x.1));
    }
}

proof fn lemma_auxes_enc_snoc(items: Seq<(Seq<u8>, Seq<u8>)>, x: (Seq<u8>, Seq<u8>))
    ensures
        auxes_enc(items.push(x)) == auxes_enc(items) + aux_enc(x.0, x.1),
    decreases items.len(),
{
    if items.len() == 0 {
        assert(items.push(x).first() == x);
        assert(items.push(x).drop_first() =~= Seq::<(Seq<u8>, Seq<u8>)>::empty());
        assert(auxes_enc(Seq::<(Seq<u8>, Seq<u8>)>::empty()) == Seq::<u8>::empty());
        assert(auxes_enc(items) == Seq::<u8>::empty());
        assert(auxes_enc(items.push(x)) =~= auxes_enc(items) + aux_enc(x.0, x.1));
    } else {
        lemma_auxes_enc_snoc(items.drop_first(), x);
        assert(items.push(x).drop_first() =~= items.drop_first().push(x));
        assert(items.push(x).first() == items.first());
        assert(auxes_enc(items.push(x)) =~= auxes_enc(items) + aux_enc(x.0, x.1));
    }
}

proof fn lemma_dbs_enc_snoc(items: Seq<(u64, Seq<(Seq<u8>, KeyValueData)>)>, x: (u64, Seq<(Seq<u8>, KeyValueData)>))
    ensures
        dbs_enc(items.push(x)) == dbs_enc(items) + db_enc(x.0, x.1),
    decreases items.len(),
{
    if items.len() == 0 {
        assert(items.push(x).first() == x);
        assert(items.push(x).drop_first() =~= Seq::<(u64, Seq<(Seq<u8>, KeyValueData)>)>::empty());
        assert(dbs_enc(Seq::<(u64, Seq<(Seq<u8>, KeyValueData)>)>::empty()) == Seq::<u8>::empty());
        assert(dbs_enc(items) == Seq::<u8>::empty());
        assert(dbs_enc(items.push(x)) =~= dbs_enc(items) + db_enc(x.0, x.1));
    } else {
        lemma_dbs_enc_snoc(items.drop_first(), x);
        assert(items.push(x).drop_first() =~= items.drop_first().push(x));
        assert(items.push(x).first() == items.first());
        assert(dbs_enc(items.push(x)) =~= dbs_enc(items) + db_enc(x.0, x.1));
    }
}

/// Appends the value encoding of `v`.
pub fn push_value(v: &RedisValue, out: &mut Vec<u8>)
    requires
        value_len_wf(v.dv()),
    ensures
        final(out)@ == old(out)@ + value_enc(v.dv()),
{
    match v {
        RedisValue::Str(s) => {
            assert(v.dv() == ValueData::Str(s@));
            push_str_enc(s, out);
        },
        RedisValue::List(items) => {
            let ghost dvs = items@.map_values(|x: Vec<u8>| x@);
            push_len(items.len() as u64, out);
            let mut i: usize = 0;
            while i < items.len()
                invariant
                    i <= items@.len(),
                    dvs == items@.map_values(|x: Vec<u8>| x@),
                    value_len_wf(ValueData::List(dvs)),
                    out@ == old(out)@ + len_enc(dvs.len() as u64) + strs_enc(
                        dvs.subrange(0, i as int),
                    ),
                decreases items@.len() - i,
            {
                assert(dvs[i as int] == items@[i as int]@);
                push_str_enc(&items[i], out);
                proof {
                    lemma_strs_enc_snoc(dvs.subrange(0, i as int), dvs[i as int]);
                    assert(dvs.subrange(0, i + 1) =~= dvs.subrange(0, i as int).push(
                        dvs[i as int],
                    ));
                    assert(out@ =~= old(out)@ + len_enc(dvs.len() as u64) + strs_enc(
                        dvs.subrange(0, i + 1),
                    ));
                }
                i = i + 1;
            }
            assert(dvs.subrange(0, i as int) =~= dvs);
        },
        RedisValue::SetVal(items) => {
            let ghost dvs = items@.map_values(|x: Vec<u8>| x@);
            push_len(items.len() as u64, out);
            let mut i: usize = 0;
            while i < items.len()
                invariant
                    i <= items@.len(),
                    dvs == items@.map_values(|x: Vec<u8>| x@),
                    value_len_wf(ValueData::SetVal(dvs)),
                    out@ == old(out)@ + len_enc(dvs.len() as u64) + strs_enc(
                        dvs.subrange(0, i as int),
                    ),
                decreases items@.len() - i,
            {
                assert(dvs[i as int] == items@[i as int]@);
                push_str_enc(&items[i], out);
                proof {
                    lemma_strs_enc_snoc(dvs.subrange(0, i as int), dvs[i as int]);
                    assert(dvs.subrange(0, i + 1) =~= dvs.subrange(0, i as int).push(
                        dvs[i as int],
                    ));
                    assert(out@ =~= old(out)@ + len_enc(dvs.len() as u64) + strs_enc(
                        dvs.subrange(0, i + 1),
                    ));
                }
                i = i + 1;
            }
            assert(dvs.subrange(0, i as int) =~= dvs);
        },
        RedisValue::SortedSet(items) => {
            let ghost dvs = items@.map_values(|e: (Vec<u8>, Score)| (e.0@, e.1));
            push_len(items.len() as u64, out);
            let mut i: usize = 0;
            while i < items.len()
                invariant
                    i <= items@.len(),
                    dvs == items@.map_values(|e: (Vec<u8>, Score)| (e.0@, e.1)),
                    value_len_wf(ValueData::SortedSet(dvs)),
                    out@ == old(out)@ + len_enc(dvs.len() as u64) + scored_enc(
                        dvs.subrange(0, i as int),
                    ),
                decreases items@.len() - i,
            {
                assert(dvs[i as int] == (items@[i as int].0@, items@[i as int].1));
                push_str_enc(&items[i].0, out);
                push_score(&items[i].1, out);
                proof {
                    lemma_scored_enc_snoc(dvs.subrange(0, i as int), dvs[i as int]);
                    assert(dvs.subrange(0, i + 1) =~= dvs.subrange(0, i as int).push(
                        dvs[i as int],
                    ));
                    assert(out@ =~= old(out)@ + len_enc(dvs.len() as u64) + scored_enc(
                        dvs.subrange(0, i + 1),
                    ));
                }
                i = i + 1;
            }
            assert(dvs.subrange(0, i as int) =~= dvs);
        },
        RedisValue::Hash(items) => {
            let ghost dvs = items@.map_values(|e: (Vec<u8>, Vec<u8>)| (e.0@, e.1@));
            push_len(items.len() as u64, out);
            let mut i: usize = 0;
            while i < items.len()
                invariant
                    i <= items@.len(),
                    dvs == items@.map_values(|e: (Vec<u8>, Vec<u8>)| (e.0@, e.1@)),
                    value_len_wf(ValueData::Hash(dvs)),
                    out@ == old(out)@ + len_enc(dvs.len() as u64) + pairs_enc(
                        dvs.subrange(0, i as int),
                    ),
                decreases items@.len() - i,
            {
                assert(dvs[i as int] == (items@[i as int].0@, items@[i as int].1@));
                push_str_enc(&items[i].0, out);
                push_str_enc(&items[i].1, out);
                proof {
                    lemma_pairs_enc_snoc(dvs.subrange(0, i as int), dvs[i as int]);
                    assert(dvs.subrange(0, i + 1) =~= dvs.subrange(0, i as int).push(
                        dvs[i as int],
                    ));
                    assert(out@ =~= old(out)@ + len_enc(dvs.len() as u64) + pairs_enc(
                        dvs.subrange(0, i + 1),
                    ));
                }
                i = i + 1;
            }
            assert(dvs.subrange(0, i as int) =~= dvs);
        },
    }
}

/// The value-type byte of a stored value.
pub fn value_type_byte(v: &RedisValue) -> (r: u8)
    ensures
        r == type_byte(v.dv()),
{
    match v {
        RedisValue::Str(_) => 0,
        RedisValue::List(_) => 1,
        RedisValue::Hash(_) => 2,
        RedisValue::SetVal(_) => 3,
        RedisValue::SortedSet(_) => 4,
    }
}

/// Appends one entry: expiry prefix, type byte, key, value.
pub fn push_entry(key: &Vec<u8>, kv: &KeyValue, out: &mut Vec<u8>)
    requires
        str_len_wf(key@),
        value_len_wf(kv.value.dv()),
    ensures
        final(out)@ == old(out)@ + entry_enc(key@, kv.dv()),
{
    match &kv.expiry {
        Option::Some(Expiry::Seconds(t)) => {
            out.push(0xFD);
            push_u32_le(*t, out);
        },
        Option::Some(Expiry::Milliseconds(t)) => {
            out.push(0xFC);
            push_u64_le(*t, out);
        },
        Option::None => {},
    }
    assert(out@ == old(out)@ + expiry_enc(kv.expiry)) by {
        assert(out@ =~= old(out)@ + expiry_enc(kv.expiry));
    }
    out.push(value_type_byte(&kv.value));
    push_str_enc(key, out);
    push_value(&kv.value, out);
    assert(out@ =~= old(out)@ + entry_enc(key@, kv.dv()));
}

/// Writes the whole store as an RDB image: header, auxiliary fields,
/// database sections, end marker, then the CRC-64 trailer.
pub fn rdb_write(f: &RdbFile) -> (r: Vec<u8>)
    requires
        rdb_len_wf(rdb_dv(*f)),
    ensures
        r@ == rdb_encode(rdb_dv(*f)),
{
    let ghost d = rdb_dv(*f);
    let mut out: Vec<u8> = Vec::new();
    out.push(82);
    out.push(69);
    out.push(68);
    out.push(73);
    out.push(83);
    let v = f.version;
    out.push((((v / 1000) % 10) as u8) + 48);
    out.push((((v / 100) % 10) as u8) + 48);
    out.push((((v / 10) % 10) as u8) + 48);
    out.push(((v % 10) as u8) + 48);
    assert(out@ =~= rdb_magic() + dec4(d.version));

    let ghost base1 = out@;
    let mut i: usize = 0;
    while i < f.aux_fields.len()
        invariant
            i <= f.aux_fields@.len(),
            d == rdb_dv(*f),
            rdb_len_wf(d),
            out@ == base1 + auxes_enc(d.aux.subrange(0, i as int)),
        decreases f.aux_fields@.len() - i,
    {
        assert(d.aux[i as int] == (f.aux_fields@[i as int].0@, f.aux_fields@[i as int].1@));
        out.push(0xFA);
        push_str_enc(&f.aux_fields[i].0, &mut out);
        push_str_enc(&f.aux_fields[i].1, &mut out);
        proof {
            lemma_auxes_enc_snoc(d.aux.subrange(0, i as int), d.aux[i as int]);
            assert(d.aux.subrange(0, i + 1) =~= d.aux.subrange(0, i as int).push(d.aux[i as int]));
            assert(out@ =~= base1 + auxes_enc(d.aux.subrange(0, i + 1)));
        }
        i = i + 1;
    }
    assert(d.aux.subrange(0, i as int) =~= d.aux);

    let ghost base2 = out@;
    let mut j: usize = 0;
    while j < f.databases.len()
        invariant
            j <= f.databases@.len(),
            d == rdb_dv(*f),
            rdb_len_wf(d),
            out@ == base2 + dbs_enc(d.dbs.subrange(0, j as int)),
        decreases f.databases@.len() - j,
    {
        let ghost dbd = d.dbs[j as int];
        assert(dbd == (f.databases@[j as int].0, f.databases@[j as int].1.entry_seq()));
        let idx = f.databases[j].0;
        let dbref = &f.databases[j].1;
        out.push(0xFE);
        push_len(idx, &mut out);
        out.push(0xFB);
        push_len(dbref.entries.len() as u64, &mut out);
        push_len(0, &mut out);
        let ghost ebase = out@;
        let mut k: usize = 0;
        while k < dbref.entries.len()
            invariant
                k <= dbref.entries@.len(),
                dbd.1 == dbref.entry_seq(),
                forall|t: int| 0 <= t < dbd.1.len() ==> entry_len_wf(#[trigger] dbd.1[t]),
                out@ == ebase + entries_enc(dbd.1.subrange(0, k as int)),
            decreases dbref.entries@.len() - k,
        {
            assert(dbd.1[k as int] == (dbref.entries@[k as int].0@, dbref.entries@[k as int].1.dv()));
            assert(entry_len_wf(dbd.1[k as int]));
            push_entry(&dbref.entries[k].0, &dbref.entries[k].1, &mut out);
            proof {
                lemma_entries_enc_snoc(dbd.1.subrange(0, k as int), dbd.1[k as int]);
                assert(dbd.1.subrange(0, k + 1) =~= dbd.1.subrange(0, k as int).push(
                    dbd.1[k as int],
                ));
                assert(out@ =~= ebase + entries_enc(dbd.1.subrange(0, k + 1)));
            }
            k = k + 1;
        }
        assert(dbd.1.subrange(0, k as int) =~= dbd.1);
        proof {
            lemma_dbs_enc_snoc(d.dbs.subrange(0, j as int), dbd);
            assert(d.dbs.subrange(0, j + 1) =~= d.dbs.subrange(0, j as int).push(dbd));
            assert(out@ =~= base2 + dbs_enc(d.dbs.subrange(0, j + 1)));
        }
        j = j + 1;
    }
    assert(d.dbs.subrange(0, j as int) =~= d.dbs);

    out.push(0xFF);
    assert(out@ =~= rdb_body(d));
    let crc = crc64_bytes(out.as_slice());
    push_u64_le(crc, &mut out);
    assert(out@ =~= rdb_encode(d));
    out
}


// ---------------------------------------------------------------------
// Exec parser

/// Length item as the parser holds it.
pub enum ELenItem {
    EPlain(u64),
    EIntVal(i64),
    ELzf,
}

pub open spec fn len_matches(
    r: Result<(ELenItem, usize), StorageError>,
    s: Result<(LenItem, int), StorageError>,
) -> bool {
    match (r, s) {
        (Result::Ok((ELenItem::EPlain(n), p)), Result::Ok((LenItem::Plain(m), q))) => n == m && p
            == q,
        (Result::Ok((ELenItem::EIntVal(v), p)), Result::Ok((LenItem::IntVal(w), q))) => v as int
            == w && p == q,
        (Result::Ok((ELenItem::ELzf, p)), Result::Ok((LenItem::Lzf, q))) => p == q,
        (Result::Err(e1), Result::Err(e2)) => e1 == e2,
        _ => false,
    }
}

fn read_len_exec(input: &[u8], pos: usize) -> (r: Result<(ELenItem, usize), StorageError>)
    requires
        pos <= input@.len(),
    ensures
        len_matches(r, spec_read_len(input@, pos as int)),
        r matches Result::Ok((item, p)) ==> pos < p <= input@.len(),
{
    let len = input.len();
    if pos >= len {
        return Err(StorageError::Truncated);
    }
    let b = input[pos];
    let prefix = b >> 6;
    if prefix == 0 {
        Ok((ELenItem::EPlain((b & 0x3F) as u64), pos + 1))
    } else if prefix == 1 {
        if len - pos < 2 {
            Err(StorageError::Truncated)
        } else {
            Ok((ELenItem::EPlain((((b & 0x3F) as u64) << 8) | (input[pos + 1] as u64)), pos + 2))
        }
    } else if prefix == 2 {
        if len - pos < 5 {
            Err(StorageError::Truncated)
        } else {
            Ok((ELenItem::EPlain(read_u32_le(input, pos + 1) as u64), pos + 5))
        }
    } else {
        let code = b & 0x3F;
        if code == 0 {
            if len - pos < 2 {
                Err(StorageError::Truncated)
            } else {
                let v = input[pos + 1];
                let sv: i64 = if v >= 128 {
                    (v as i64) - 256
                } else {
                    v as i64
                };
                Ok((ELenItem::EIntVal(sv), pos + 2))
            }
        } else if code == 1 {
            if len - pos < 3 {
                Err(StorageError::Truncated)
            } else {
                let x: u16 = (input[pos + 1] as u16) | ((input[pos + 2] as u16) << 8);
                let sv: i64 = if x >= 32768 {
                    (x as i64) - 65536
                } else {
                    x as i64
                };
                assert(sv as int == sint16(sle_u16(input@[pos + 1], input@[pos + 2])));
                Ok((ELenItem::EIntVal(sv), pos + 3))
            }
        } else if code == 2 {
            if len - pos < 5 {
                Err(StorageError::Truncated)
            } else {
                let x: u32 = read_u32_le(input, pos + 1);
                let sv: i64 = if x >= 2147483648 {
                    (x as i64) - 4294967296
                } else {
                    x as i64
                };
                Ok((ELenItem::EIntVal(sv), pos + 5))
            }
        } else if code == 3 {
            Ok((ELenItem::ELzf, pos + 1))
        } else {
            Err(StorageError::UnsupportedEncoding)
        }
    }
}

fn read_count_exec(input: &[u8], pos: usize) -> (r: Result<(u64, usize), StorageError>)
    requires
        pos <= input@.len(),
    ensures
        match r {
            Result::Ok((n, p)) => spec_read_count(input@, pos as int) == Result::<(u64, int),
                StorageError>::Ok((n, p as int)) && pos < p <= input@.len(),
            Result::Err(e) => spec_read_count(input@, pos as int) == Result::<(u64, int),
                StorageError>::Err(e),
        },
{
    match read_len_exec(input, pos)? {
        (ELenItem::EPlain(n), p) => Ok((n, p)),
        (ELenItem::EIntVal(_), _) => Err(StorageError::UnsupportedEncoding),
        (ELenItem::ELzf, _) => Err(StorageError::UnsupportedEncoding),
    }
}

/// Decimal digits of an inline integer.
fn int_to_dec_bytes(v: i64) -> (r: Vec<u8>)
    requires
        -4294967296 <= v <= 4294967295,
    ensures
        r@ == int_str(v as int),
{
    let mut out: Vec<u8> = Vec::new();
    if v < 0 {
        out.push(45);
        crate::num::push_dec_u64((-v) as u64, &mut out);
        assert(out@ =~= int_str(v as int));
    } else {
        crate::num::push_dec_u64(v as u64, &mut out);
        assert(out@ =~= int_str(v as int));
    }
    out
}

fn read_string_exec(input: &[u8], pos: usize) -> (r: Result<(Vec<u8>, usize), StorageError>)
    requires
        pos <= input@.len(),
    ensures
        match r {
            Result::Ok((sv, p)) => spec_read_string(input@, pos as int) == Result::<(Seq<u8>, int),
                StorageError>::Ok((sv@, p as int)) && pos < p <= input@.len(),
            Result::Err(e) => spec_read_string(input@, pos as int) == Result::<(Seq<u8>, int),
                StorageError>::Err(e),
        },
{
    let len = input.len();
    match read_len_exec(input, pos)? {
        (ELenItem::EPlain(n), p) => {
            if n > MAX_STRING_LEN {
                Err(StorageError::OversizedString)
            } else if n > (len - p) as u64 {
                Err(StorageError::Truncated)
            } else {
                let nb = n as usize;
                let sv = vstd::slice::slice_to_vec(vstd::slice::slice_subrange(input, p, p + nb));
                Ok((sv, p + nb))
            }
        },
        (ELenItem::EIntVal(v), p) => Ok((int_to_dec_bytes(v), p)),
        (ELenItem::ELzf, _) => Err(StorageError::UnsupportedEncoding),
    }
}

fn read_score_exec(input: &[u8], pos: usize) -> (r: Result<(Score, usize), StorageError>)
    requires
        pos <= input@.len(),
    ensures
        match r {
            Result::Ok((sc, p)) => spec_read_score(input@, pos as int) == Result::<(Score, int),
                StorageError>::Ok((sc, p as int)) && pos < p <= input@.len(),
            Result::Err(e) => spec_read_score(input@, pos as int) == Result::<(Score, int),
                StorageError>::Err(e),
        },
{
    let len = input.len();
    let (n, p) = read_count_exec(input, pos)?;
    if n == 253 {
        Ok((Score::PosInf, p))
    } else if n == 254 {
        Ok((Score::NegInf, p))
    } else if n == 255 {
        Ok((Score::NotANum, p))
    } else if n == 8 {
        if len - p < 8 {
            Err(StorageError::Truncated)
        } else {
            Ok((Score::Finite(read_u64_le(input, p)), p + 8))
        }
    } else {
        Err(StorageError::UnsupportedEncoding)
    }
}

fn read_strings_exec(input: &[u8], pos: usize, cnt: u64) -> (r: Result<
    (Vec<Vec<u8>>, usize),
    StorageError,
>)
    requires
        pos <= input@.len(),
    ensures
        match r {
            Result::Ok((items, p)) => spec_read_strings(input@, pos as int, cnt as nat, Seq::empty())
                == Result::<(Seq<Seq<u8>>, int), StorageError>::Ok((
                items@.map_values(|x: Vec<u8>| x@),
                p as int,
            )) && pos <= p <= input@.len(),
            Result::Err(e) => spec_read_strings(input@, pos as int, cnt as nat, Seq::empty())
                == Result::<(Seq<Seq<u8>>, int), StorageError>::Err(e),
        },
{
    let mut acc: Vec<Vec<u8>> = Vec::new();
    let mut cur = pos;
    let mut rem = cnt;
    assert(acc@.map_values(|x: Vec<u8>| x@) =~= Seq::<Seq<u8>>::empty());
    while rem > 0
        invariant
            pos <= cur <= input@.len(),
            spec_read_strings(input@, pos as int, cnt as nat, Seq::empty()) == spec_read_strings(
                input@,
                cur as int,
                rem as nat,
                acc@.map_values(|x: Vec<u8>| x@),
            ),
        decreases rem,
    {
        let ghost accv = acc@.map_values(|x: Vec<u8>| x@);
        match read_string_exec(input, cur) {
            Ok((sv, p)) => {
                let ghost svv = sv@;
                acc.push(sv);
                assert(acc@.map_values(|x: Vec<u8>| x@) =~= accv.push(svv));
                cur = p;
                rem = rem - 1;
            },
            Err(e) => {
                return Err(e);
            },
        }
    }
    Ok((acc, cur))
}

fn read_pairs_exec(input: &[u8], pos: usize, cnt: u64) -> (r: Result<
    (Vec<(Vec<u8>, Vec<u8>)>, usize),
    StorageError,
>)
    requires
        pos <= input@.len(),
    ensures
        match r {
            Result::Ok((items, p)) => spec_read_pairs(input@, pos as int, cnt as nat, Seq::empty())
                == Result::<(Seq<(Seq<u8>, Seq<u8>)>, int), StorageError>::Ok((
                items@.map_values(|e: (Vec<u8>, Vec<u8>)| (e.0@, e.1@)),
                p as int,
            )) && pos <= p <= input@.len(),
            Result::Err(e) => spec_read_pairs(input@, pos as int, cnt as nat, Seq::empty())
                == Result::<(Seq<(Seq<u8>, Seq<u8>)>, int), StorageError>::Err(e),
        },
{
    let mut acc: Vec<(Vec<u8>, Vec<u8>)> = Vec::new();
    let mut cur = pos;
    let mut rem = cnt;
    assert(acc@.map_values(|e: (Vec<u8>, Vec<u8>)| (e.0@, e.1@)) =~= Seq::<(
        Seq<u8>,
        Seq<u8>,
    )>::empty());
    while rem > 0
        invariant
            pos <= cur <= input@.len(),
            spec_read_pairs(input@, pos as int, cnt as nat, Seq::empty()) == spec_read_pairs(
                input@,
                cur as int,
                rem as nat,
                acc@.map_values(|e: (Vec<u8>, Vec<u8>)| (e.0@, e.1@)),
            ),
        decreases rem,
    {
        let ghost accv = acc@.map_values(|e: (Vec<u8>, Vec<u8>)| (e.0@, e.1@));
        match read_string_exec(input, cur) {
            Ok((k, p1)) => match read_string_exec(input, p1) {
                Ok((v, p2)) => {
                    let ghost kv = (k@, v@);
                    acc.push((k, v));
                    assert(acc@.map_values(|e: (Vec<u8>, Vec<u8>)| (e.0@, e.1@)) =~= accv.push(kv));
                    cur = p2;
                    rem = rem - 1;
                },
                Err(e) => {
                    return Err(e);
                },
            },
            Err(e) => {
                return Err(e);
            },
        }
    }
    Ok((acc, cur))
}

fn read_scored_exec(input: &[u8], pos: usize, cnt: u64) -> (r: Result<
    (Vec<(Vec<u8>, Score)>, usize),
    StorageError,
>)
    requires
        pos <= input@.len(),
    ensures
        match r {
            Result::Ok((items, p)) => spec_read_scored(input@, pos as int, cnt as nat, Seq::empty())
                == Result::<(Seq<(Seq<u8>, Score)>, int), StorageError>::Ok((
                items@.map_values(|e: (Vec<u8>, Score)| (e.0@, e.1)),
                p as int,
            )) && pos <= p <= input@.len(),
            Result::Err(e) => spec_read_scored(input@, pos as int, cnt as nat, Seq::empty())
                == Result::<(Seq<(Seq<u8>, Score)>, int), StorageError>::Err(e),
        },
{
    let mut acc: Vec<(Vec<u8>, Score)> = Vec::new();
    let mut cur = pos;
    let mut rem = cnt;
    assert(acc@.map_values(|e: (Vec<u8>, Score)| (e.0@, e.1)) =~= Seq::<(Seq<u8>, Score)>::empty());
    while rem > 0
        invariant
            pos <= cur <= input@.len(),
            spec_read_scored(input@, pos as int, cnt as nat, Seq::empty()) == spec_read_scored(
                input@,
                cur as int,
                rem as nat,
                acc@.map_values(|e: (Vec<u8>, Score)| (e.0@, e.1)),
            ),
        decreases rem,
    {
        let ghost accv = acc@.map_values(|e: (Vec<u8>, Score)| (e.0@, e.1));
        match read_string_exec(input, cur) {
            Ok((m, p1)) => match read_score_exec(input, p1) {
                Ok((sc, p2)) => {
                    let ghost msc = (m@, sc);
                    acc.push((m, sc));
                    assert(acc@.map_values(|e: (Vec<u8>, Score)| (e.0@, e.1)) =~= accv.push(msc));
                    cur = p2;
                    rem = rem - 1;
                },
                Err(e) => {
                    return Err(e);
                },
            },
            Err(e) => {
                return Err(e);
            },
        }
    }
    Ok((acc, cur))
}

fn parse_value_exec(input: &[u8], pos: usize, vt: u8) -> (r: Result<
    (RedisValue, usize),
    StorageError,
>)
    requires
        pos <= input@.len(),
    ensures
        match r {
            Result::Ok((v, p)) => spec_parse_value(input@, pos as int, vt) == Result::<(
                ValueData,
                int,
            ), StorageError>::Ok((v.dv(), p as int)) && pos <= p <= input@.len(),
            Result::Err(e) => spec_parse_value(input@, pos as int, vt) == Result::<(
                ValueData,
                int,
            ), StorageError>::Err(e),
        },
{
    if vt == 0 {
        let (s, p) = read_string_exec(input, pos)?;
        Ok((RedisValue::Str(s), p))
    } else if vt == 1 {
        let (n, p) = read_count_exec(input, pos)?;
        let (items, p2) = read_strings_exec(input, p, n)?;
        Ok((RedisValue::List(items), p2))
    } else if vt == 2 {
        let (n, p) = read_count_exec(input, pos)?;
        let (items, p2) = read_pairs_exec(input, p, n)?;
        Ok((RedisValue::Hash(items), p2))
    } else if vt == 3 {
        let (n, p) = read_count_exec(input, pos)?;
        let (items, p2) = read_strings_exec(input, p, n)?;
        Ok((RedisValue::SetVal(items), p2))
    } else if vt == 4 {
        let (n, p) = read_count_exec(input, pos)?;
        let (items, p2) = read_scored_exec(input, p, n)?;
        Ok((RedisValue::SortedSet(items), p2))
    } else {
        Err(StorageError::UnsupportedType)
    }
}

fn parse_entry_exec(input: &[u8], pos: usize) -> (r: Result<
    ((Vec<u8>, KeyValue), usize),
    StorageError,
>)
    requires
        pos <= input@.len(),
    ensures
        match r {
            Result::Ok(((k, kv), p)) => spec_parse_entry(input@, pos as int) == Result::<(
                (Seq<u8>, KeyValueData),
                int,
            ), StorageError>::Ok(((k@, kv.dv()), p as int)) && pos < p <= input@.len(),
            Result::Err(e) => spec_parse_entry(input@, pos as int) == Result::<(
                (Seq<u8>, KeyValueData),
                int,
            ), StorageError>::Err(e),
        },
{
    let len = input.len();
    if pos >= len {
        return Err(StorageError::Truncated);
    }
    let b = input[pos];
    let expiry: Option<Expiry>;
    let p1: usize;
    if b == 0xFD {
        if len - pos < 5 {
            return Err(StorageError::Truncated);
        }
        expiry = Some(Expiry::Seconds(read_u32_le(input, pos + 1)));
        p1 = pos + 5;
    } else if b == 0xFC {
        if len - pos < 9 {
            return Err(StorageError::Truncated);
        }
        expiry = Some(Expiry::Milliseconds(read_u64_le(input, pos + 1)));
        p1 = pos + 9;
    } else {
        expiry = None;
        p1 = pos;
    }
    if p1 >= len {
        return Err(StorageError::Truncated);
    }
    let vt = input[p1];
    let (k, p2) = read_string_exec(input, p1 + 1)?;
    let (v, p3) = parse_value_exec(input, p2, vt)?;
    Ok(((k, KeyValue { value: v, expiry }), p3))
}

/// True when `k` is already a key among `entries`.
fn entries_has_key(entries: &Vec<(Vec<u8>, KeyValue)>, k: &Vec<u8>) -> (r: bool)
    ensures
        r == assoc_has(
            entries@.map_values(|e: (Vec<u8>, KeyValue)| (e.0@, e.1.dv())),
            k@,
        ),
{
    let ghost s = entries@.map_values(|e: (Vec<u8>, KeyValue)| (e.0@, e.1.dv()));
    let mut i: usize = 0;
    while i < entries.len()
        invariant
            i <= entries@.len(),
            s == entries@.map_values(|e: (Vec<u8>, KeyValue)| (e.0@, e.1.dv())),
            forall|j: int| 0 <= j < i ==> (#[trigger] s[j]).0 != k@,
        decreases entries@.len() - i,
    {
        if crate::db::bytes_eq(entries[i].0.as_slice(), k.as_slice()) {
            assert(s[i as int].0 == k@);
            return true;
        }
        assert(s[i as int].0 != k@);
        i = i + 1;
    }
    false
}

fn parse_entries_exec(input: &[u8], pos: usize, cnt: u64) -> (r: Result<
    (Vec<(Vec<u8>, KeyValue)>, usize),
    StorageError,
>)
    requires
        pos <= input@.len(),
    ensures
        match r {
            Result::Ok((entries, p)) => spec_parse_entries(
                input@,
                pos as int,
                cnt as nat,
                Seq::empty(),
            ) == Result::<(Seq<(Seq<u8>, KeyValueData)>, int), StorageError>::Ok((
                entries@.map_values(|e: (Vec<u8>, KeyValue)| (e.0@, e.1.dv())),
                p as int,
            )) && pos <= p <= input@.len() && assoc_wf(
                entries@.map_values(|e: (Vec<u8>, KeyValue)| (e.0@, e.1.dv())),
            ),
            Result::Err(e) => spec_parse_entries(input@, pos as int, cnt as nat, Seq::empty())
                == Result::<(Seq<(Seq<u8>, KeyValueData)>, int), StorageError>::Err(e),
        },
{
    let mut acc: Vec<(Vec<u8>, KeyValue)> = Vec::new();
    let mut cur = pos;
    let mut rem = cnt;
    assert(acc@.map_values(|e: (Vec<u8>, KeyValue)| (e.0@, e.1.dv())) =~= Seq::<(
        Seq<u8>,
        KeyValueData,
    )>::empty());
    while rem > 0
        invariant
            pos <= cur <= input@.len(),
            spec_parse_entries(input@, pos as int, cnt as nat, Seq::empty()) == spec_parse_entries(
                input@,
                cur as int,
                rem as nat,
                acc@.map_values(|e: (Vec<u8>, KeyValue)| (e.0@, e.1.dv())),
            ),
            assoc_wf(acc@.map_values(|e: (Vec<u8>, KeyValue)| (e.0@, e.1.dv()))),
        decreases rem,
    {
        let ghost accv = acc@.map_values(|e: (Vec<u8>, KeyValue)| (e.0@, e.1.dv()));
        match parse_entry_exec(input, cur) {
            Ok(((k, kv), p)) => {
                if !entries_has_key(&acc, &k) {
                    let ghost kkv = (k@, kv.dv());
                    acc.push((k, kv));
                    proof {
                        let t = acc@.map_values(|e: (Vec<u8>, KeyValue)| (e.0@, e.1.dv()));
                        assert(t =~= accv.push(kkv));
                        assert forall|a: int, b2: int| 0 <= a < b2 < t.len() implies (
                        #[trigger] t[a]).0 != (#[trigger] t[b2]).0 by {
                            if b2 == t.len() - 1 {
                                assert(t[a] == accv[a]);
                                assert(!assoc_has(accv, kkv.0));
                            } else {
                                assert(t[a] == accv[a] && t[b2] == accv[b2]);
                            }
                        }
                    }
                }
                cur = p;
                rem = rem - 1;
            },
            Err(e) => {
                return Err(e);
            },
        }
    }
    Ok((acc, cur))
}

/// True when `k` is already a key among the auxiliary fields.
fn aux_has_key(aux: &Vec<(Vec<u8>, Vec<u8>)>, k: &Vec<u8>) -> (r: bool)
    ensures
        r == assoc_has(aux@.map_values(|e: (Vec<u8>, Vec<u8>)| (e.0@, e.1@)), k@),
{
    let ghost s = aux@.map_values(|e: (Vec<u8>, Vec<u8>)| (e.0@, e.1@));
    let mut i: usize = 0;
    while i < aux.len()
        invariant
            i <= aux@.len(),
            s == aux@.map_values(|e: (Vec<u8>, Vec<u8>)| (e.0@, e.1@)),
            forall|j: int| 0 <= j < i ==> (#[trigger] s[j]).0 != k@,
        decreases aux@.len() - i,
    {
        if crate::db::bytes_eq(aux[i].0.as_slice(), k.as_slice()) {
            assert(s[i as int].0 == k@);
            return true;
        }
        assert(s[i as int].0 != k@);
        i = i + 1;
    }
    false
}

/// True when `idx` is already a database index.
fn dbs_has_idx(dbs: &Vec<(u64, Database)>, idx: u64) -> (r: bool)
    ensures
        r == assoc_has(
            dbs@.map_values(|e: (u64, Database)| (e.0, e.1.entry_seq())),
            idx,
        ),
{
    let ghost s = dbs@.map_values(|e: (u64, Database)| (e.0, e.1.entry_seq()));
    let mut i: usize = 0;
    while i < dbs.len()
        invariant
            i <= dbs@.len(),
            s == dbs@.map_values(|e: (u64, Database)| (e.0, e.1.entry_seq())),
            forall|j: int| 0 <= j < i ==> (#[trigger] s[j]).0 != idx,
        decreases dbs@.len() - i,
    {
        if dbs[i].0 == idx {
            assert(s[i as int].0 == idx);
            return true;
        }
        assert(s[i as int].0 != idx);
        i = i + 1;
    }
    false
}


/// What one database section (from its 0xFE byte) parses to.
pub open spec fn spec_parse_db_section(input: Seq<u8>, pos: int) -> Result<
    ((u64, Seq<(Seq<u8>, KeyValueData)>), int),
    StorageError,
> {
    match spec_read_count(input, pos + 1) {
        Result::Ok((idx, p1)) => {
            if p1 >= input.len() {
                Result::Err(StorageError::Truncated)
            } else if input[p1] != 0xFB {
                Result::Err(StorageError::UnknownControl)
            } else {
                match spec_read_count(input, p1 + 1) {
                    Result::Ok((ht, p2)) => match spec_read_count(input, p2) {
                        Result::Ok((_exp_sz, p3)) => {
                            match spec_parse_entries(input, p3, ht as nat, Seq::empty()) {
                                Result::Ok((entries, p4)) => Result::Ok(((idx, entries), p4)),
                                Result::Err(e) => Result::Err(e),
                            }
                        },
                        Result::Err(e) => Result::Err(e),
                    },
                    Result::Err(e) => Result::Err(e),
                }
            }
        },
        Result::Err(e) => Result::Err(e),
    }
}

/// Parses one database section starting at its 0xFE byte.
fn parse_db_section_exec(input: &[u8], pos: usize) -> (r: Result<
    ((u64, Database), usize),
    StorageError,
>)
    requires
        pos < input@.len(),
    ensures
        match r {
            Result::Ok(((idx, db), p)) => spec_parse_db_section(input@, pos as int) == Result::<
                ((u64, Seq<(Seq<u8>, KeyValueData)>), int),
                StorageError,
            >::Ok(((idx, db.entry_seq()), p as int)) && pos < p <= input@.len() && db.wf(),
            Result::Err(e) => spec_parse_db_section(input@, pos as int) == Result::<
                ((u64, Seq<(Seq<u8>, KeyValueData)>), int),
                StorageError,
            >::Err(e),
        },
{
    let len = input.len();
    let (idx, p1) = read_count_exec(input, pos + 1)?;
    if p1 >= len {
        return Err(StorageError::Truncated);
    }
    if input[p1] != 0xFB {
        return Err(StorageError::UnknownControl);
    }
    let (ht, p2) = read_count_exec(input, p1 + 1)?;
    let (_exp_sz, p3) = read_count_exec(input, p2)?;
    let (entries, p4) = parse_entries_exec(input, p3, ht)?;
    let db = Database { entries };
    Ok(((idx, db), p4))
}


/// Appends an auxiliary field unless its key is already present.
fn push_aux_unique(aux: &mut Vec<(Vec<u8>, Vec<u8>)>, k: Vec<u8>, v: Vec<u8>)
    requires
        assoc_wf(old(aux)@.map_values(|e: (Vec<u8>, Vec<u8>)| (e.0@, e.1@))),
    ensures
        final(aux)@.map_values(|e: (Vec<u8>, Vec<u8>)| (e.0@, e.1@)) == if assoc_has(
            old(aux)@.map_values(|e: (Vec<u8>, Vec<u8>)| (e.0@, e.1@)),
            k@,
        ) {
            old(aux)@.map_values(|e: (Vec<u8>, Vec<u8>)| (e.0@, e.1@))
        } else {
            old(aux)@.map_values(|e: (Vec<u8>, Vec<u8>)| (e.0@, e.1@)).push((k@, v@))
        },
        assoc_wf(final(aux)@.map_values(|e: (Vec<u8>, Vec<u8>)| (e.0@, e.1@))),
{
    let ghost auxv = aux@.map_values(|e: (Vec<u8>, Vec<u8>)| (e.0@, e.1@));
    if !aux_has_key(aux, &k) {
        let ghost kv = (k@, v@);
        aux.push((k, v));
        proof {
            let t = final(aux)@.map_values(|e: (Vec<u8>, Vec<u8>)| (e.0@, e.1@));
            assert(t =~= auxv.push(kv));
            assert forall|a: int, b2: int| 0 <= a < b2 < t.len() implies (#[trigger] t[a]).0
                != (#[trigger] t[b2]).0 by {
                if b2 == t.len() - 1 {
                    assert(t[a] == auxv[a]);
                    assert(!assoc_has(auxv, kv.0));
                } else {
                    assert(t[a] == auxv[a] && t[b2] == auxv[b2]);
                }
            }
        }
    }
}

/// Appends a parsed database; reports false when the index is taken.
fn push_db_unique(dbs: &mut Vec<(u64, Database)>, idx: u64, db: Database) -> (r: bool)
    requires
        assoc_wf(old(dbs)@.map_values(|e: (u64, Database)| (e.0, e.1.entry_seq()))),
        forall|i: int| 0 <= i < old(dbs)@.len() ==> (#[trigger] old(dbs)@[i]).1.wf(),
        db.wf(),
    ensures
        r == !assoc_has(
            old(dbs)@.map_values(|e: (u64, Database)| (e.0, e.1.entry_seq())),
            idx,
        ),
        r ==> final(dbs)@.map_values(|e: (u64, Database)| (e.0, e.1.entry_seq())) == old(
            dbs,
        )@.map_values(|e: (u64, Database)| (e.0, e.1.entry_seq())).push((idx, db.entry_seq())),
        !r ==> final(dbs)@ == old(dbs)@,
        assoc_wf(final(dbs)@.map_values(|e: (u64, Database)| (e.0, e.1.entry_seq()))),
        forall|i: int| 0 <= i < final(dbs)@.len() ==> (#[trigger] final(dbs)@[i]).1.wf(),
{
    let ghost dbsv = dbs@.map_values(|e: (u64, Database)| (e.0, e.1.entry_seq()));
    if dbs_has_idx(dbs, idx) {
        return false;
    }
    let ghost dbv = (idx, db.entry_seq());
    dbs.push((idx, db));
    proof {
        let t = final(dbs)@.map_values(|e: (u64, Database)| (e.0, e.1.entry_seq()));
        assert(t =~= dbsv.push(dbv));
        assert forall|a: int, b2: int| 0 <= a < b2 < t.len() implies (#[trigger] t[a]).0
            != (#[trigger] t[b2]).0 by {
            if b2 == t.len() - 1 {
                assert(t[a] == dbsv[a]);
                assert(!assoc_has(dbsv, dbv.0));
            } else {
                assert(t[a] == dbsv[a] && t[b2] == dbsv[b2]);
            }
        }
        assert forall|i: int| 0 <= i < final(dbs)@.len() implies (#[trigger] final(dbs)@[
            i
        ]).1.wf() by {
            if i < final(dbs)@.len() - 1 {
                assert(final(dbs)@[i] == old(dbs)@[i]);
            }
        }
    }
    true
}


/// Checks the trailer at the end marker and assembles the store.
#[verifier::rlimit(60)]
fn finish_parse(
    input: &[u8],
    pos: usize,
    version: u32,
    aux: Vec<(Vec<u8>, Vec<u8>)>,
    dbs: Vec<(u64, Database)>,
) -> (r: Result<RdbFile, StorageError>)
    requires
        pos < input@.len(),
        input@[pos as int] == 0xFF,
        assoc_wf(aux@.map_values(|e: (Vec<u8>, Vec<u8>)| (e.0@, e.1@))),
        assoc_wf(dbs@.map_values(|e: (u64, Database)| (e.0, e.1.entry_seq()))),
        forall|i: int| 0 <= i < dbs@.len() ==> (#[trigger] dbs@[i]).1.wf(),
    ensures
        match r {
            Result::Ok(f) => spec_parse_tops(
                input@,
                pos as int,
                version,
                aux@.map_values(|e: (Vec<u8>, Vec<u8>)| (e.0@, e.1@)),
                dbs@.map_values(|e: (u64, Database)| (e.0, e.1.entry_seq())),
            ) == Result::<RdbData, StorageError>::Ok(rdb_dv(f)) && f.wf(),
            Result::Err(e) => spec_parse_tops(
                input@,
                pos as int,
                version,
                aux@.map_values(|e: (Vec<u8>, Vec<u8>)| (e.0@, e.1@)),
                dbs@.map_values(|e: (u64, Database)| (e.0, e.1.entry_seq())),
            ) == Result::<RdbData, StorageError>::Err(e),
        },
{
    let ghost auxv = aux@.map_values(|e: (Vec<u8>, Vec<u8>)| (e.0@, e.1@));
    let ghost dbsv = dbs@.map_values(|e: (u64, Database)| (e.0, e.1.entry_seq()));
    let len = input.len();
    if len - pos < 9 {
        return Err(StorageError::Truncated);
    }
    if len - pos > 9 {
        return Err(StorageError::TrailingBytes);
    }
    let stored = read_u64_le(input, pos + 1);
    let computed = crc64_bytes(vstd::slice::slice_subrange(input, 0, pos + 1));
    if stored != computed {
        return Err(StorageError::CrcMismatch);
    }
    let f = RdbFile { version, aux_fields: aux, databases: dbs };
    proof {
        assert forall|i: int| 0 <= i < auxv.len() implies rdb_dv(f).aux[i] == auxv[i] by {
            assert(rdb_dv(f).aux[i] == (f.aux_fields@[i].0@, f.aux_fields@[i].1@));
            assert(auxv[i] == (f.aux_fields@[i].0@, f.aux_fields@[i].1@));
        }
        assert(rdb_dv(f).aux =~= auxv);
        assert forall|i: int| 0 <= i < dbsv.len() implies rdb_dv(f).dbs[i] == dbsv[i] by {
            assert(rdb_dv(f).dbs[i] == (f.databases@[i].0, f.databases@[i].1.entry_seq()));
            assert(dbsv[i] == (f.databases@[i].0, f.databases@[i].1.entry_seq()));
        }
        assert(rdb_dv(f).dbs =~= dbsv);
        assert(spec_parse_tops(input@, pos as int, version, auxv, dbsv)
            == Result::<RdbData, StorageError>::Ok(RdbData { version, aux: auxv, dbs: dbsv }));
        assert(RdbData { version, aux: auxv, dbs: dbsv } == rdb_dv(f));
        assert(f.wf()) by {
            assert(assoc_wf(f.aux_seq())) by {
                assert(f.aux_seq() =~= auxv);
            }
            assert(assoc_wf(f.databases@)) by {
                assert forall|a: int, b2: int| 0 <= a < b2 < f.databases@.len() implies (
                #[trigger] f.databases@[a]).0 != (#[trigger] f.databases@[b2]).0 by {
                    assert(dbsv[a].0 == f.databases@[a].0);
                    assert(dbsv[b2].0 == f.databases@[b2].0);
                }
            }
        }
    }
    Ok(f)
}

/// Parses a whole RDB image into a store.
#[verifier::rlimit(100)]
#[verifier::spinoff_prover]
pub fn rdb_parse(input: &[u8]) -> (r: Result<RdbFile, StorageError>)
    ensures
        match r {
            Result::Ok(f) => spec_rdb_parse(input@) == Result::<RdbData, StorageError>::Ok(
                rdb_dv(f),
            ) && f.wf(),
            Result::Err(e) => spec_rdb_parse(input@) == Result::<RdbData, StorageError>::Err(e),
        },
{
    let len = input.len();
    if len < 9 {
        return Err(StorageError::Truncated);
    }
    if !(input[0] == 82 && input[1] == 69 && input[2] == 68 && input[3] == 73 && input[4] == 83) {
        assert(input@.subrange(0, 5) != rdb_magic()) by {
            assert(input@.subrange(0, 5)[0] == input@[0]);
            assert(input@.subrange(0, 5)[1] == input@[1]);
            assert(input@.subrange(0, 5)[2] == input@[2]);
            assert(input@.subrange(0, 5)[3] == input@[3]);
            assert(input@.subrange(0, 5)[4] == input@[4]);
        }
        return Err(StorageError::BadMagic);
    }
    assert(input@.subrange(0, 5) =~= rdb_magic());
    let d5 = input[5];
    let d6 = input[6];
    let d7 = input[7];
    let d8 = input[8];
    if d5 < 48 || d5 > 57 || d6 < 48 || d6 > 57 || d7 < 48 || d7 > 57 || d8 < 48 || d8 > 57 {
        return Err(StorageError::BadVersion);
    }
    let version: u32 = ((d5 - 48) as u32) * 1000 + ((d6 - 48) as u32) * 100 + ((d7 - 48) as u32)
        * 10 + ((d8 - 48) as u32);
    let mut aux: Vec<(Vec<u8>, Vec<u8>)> = Vec::new();
    let mut dbs: Vec<(u64, Database)> = Vec::new();
    let mut pos: usize = 9;
    assert(aux@.map_values(|e: (Vec<u8>, Vec<u8>)| (e.0@, e.1@)) =~= Seq::<(
        Seq<u8>,
        Seq<u8>,
    )>::empty());
    assert(dbs@.map_values(|e: (u64, Database)| (e.0, e.1.entry_seq())) =~= Seq::<(
        u64,
        Seq<(Seq<u8>, KeyValueData)>,
    )>::empty());
    loop
        invariant
            9 <= pos <= input@.len(),
            input@.len() == len,
            spec_rdb_parse(input@) == spec_parse_tops(
                input@,
                pos as int,
                version,
                aux@.map_values(|e: (Vec<u8>, Vec<u8>)| (e.0@, e.1@)),
                dbs@.map_values(|e: (u64, Database)| (e.0, e.1.entry_seq())),
            ),
            assoc_wf(aux@.map_values(|e: (Vec<u8>, Vec<u8>)| (e.0@, e.1@))),
            assoc_wf(dbs@.map_values(|e: (u64, Database)| (e.0, e.1.entry_seq()))),
            forall|i: int| 0 <= i < dbs@.len() ==> (#[trigger] dbs@[i]).1.wf(),
        decreases input@.len() - pos,
    {
        let ghost auxv = aux@.map_values(|e: (Vec<u8>, Vec<u8>)| (e.0@, e.1@));
        let ghost dbsv = dbs@.map_values(|e: (u64, Database)| (e.0, e.1.entry_seq()));
        if pos >= len {
            return Err(StorageError::Truncated);
        }
        let b = input[pos];
        if b == 0xFA {
            let (k, p1) = match read_string_exec(input, pos + 1) {
                Ok(x) => x,
                Err(e) => {
                    return Err(e);
                },
            };
            let (v, p2) = match read_string_exec(input, p1) {
                Ok(x) => x,
                Err(e) => {
                    return Err(e);
                },
            };
            push_aux_unique(&mut aux, k, v);
            pos = p2;
        } else if b == 0xFE {
            let ((idx, db), p4) = match parse_db_section_exec(input, pos) {
                Ok(x) => x,
                Err(e) => {
                    return Err(e);
                },
            };
            if !push_db_unique(&mut dbs, idx, db) {
                return Err(StorageError::DuplicateDb);
            }
            pos = p4;
        } else if b == 0xFF {
            return finish_parse(input, pos, version, aux, dbs);
        } else {
            return Err(StorageError::UnknownControl);
        }
    }
}


// ---------------------------------------------------------------------
// Round trip

/// Strings small enough to be read back.
pub open spec fn value_rt_wf(v: ValueData) -> bool {
    match v {
        ValueData::Str(s) => s.len() <= MAX_STRING_LEN,
        ValueData::List(items) => items.len() < 4294967296 && forall|i: int|
            0 <= i < items.len() ==> (#[trigger] items[i]).len() <= MAX_STRING_LEN,
        ValueData::SetVal(items) => items.len() < 4294967296 && forall|i: int|
            0 <= i < items.len() ==> (#[trigger] items[i]).len() <= MAX_STRING_LEN,
        ValueData::SortedSet(items) => items.len() < 4294967296 && forall|i: int|
            0 <= i < items.len() ==> (#[trigger] items[i]).0.len() <= MAX_STRING_LEN,
        ValueData::Hash(items) => items.len() < 4294967296 && forall|i: int|
            0 <= i < items.len() ==> (#[trigger] items[i]).0.len() <= MAX_STRING_LEN
                && items[i].1.len() <= MAX_STRING_LEN,
    }
}

/// A store whose image reads back exactly: four-digit version, unique
/// keys everywhere, and every string within the parser's limit.
pub open spec fn rdb_wf(d: RdbData) -> bool {
    &&& d.version <= 9999
    &&& assoc_wf(d.aux)
    &&& forall|i: int|
        0 <= i < d.aux.len() ==> (#[trigger] d.aux[i]).0.len() <= MAX_STRING_LEN
            && d.aux[i].1.len() <= MAX_STRING_LEN
    &&& assoc_wf(d.dbs)
    &&& forall|i: int|
        0 <= i < d.dbs.len() ==> (#[trigger] d.dbs[i]).0 < 4294967296 && d.dbs[i].1.len()
            < 4294967296 && assoc_wf(d.dbs[i].1) && forall|j: int|
            0 <= j < d.dbs[i].1.len() ==> (#[trigger] d.dbs[i].1[j]).0.len() <= MAX_STRING_LEN
                && value_rt_wf(d.dbs[i].1[j].1.value)
}

proof fn lemma_read_len_enc(input: Seq<u8>, pos: int, n: u64)
    requires
        0 <= pos,
        n < 4294967296,
        pos + len_enc(n).len() <= input.len(),
        input.subrange(pos, pos + len_enc(n).len() as int) == len_enc(n),
    ensures
        spec_read_len(input, pos) == Result::<(LenItem, int), StorageError>::Ok((
            LenItem::Plain(n),
            pos + len_enc(n).len(),
        )),
        spec_read_count(input, pos) == Result::<(u64, int), StorageError>::Ok((
            n,
            pos + len_enc(n).len(),
        )),
{
    let e = len_enc(n);
    lemma_subrange_index(input, pos, e);
    if n < 64 {
        assert(input[pos + 0] == e[0]);
        let b = e[0];
        assert(b == n as u8);
        assert(b >> 6 == 0 && (b & 0x3F) as u64 == n) by (bit_vector)
            requires b == n as u8 && n < 64;
    } else if n < 16384 {
        assert(input[pos + 0] == e[0]);
        assert(input[pos + 1] == e[1]);
        let b = e[0];
        let b1 = e[1];
        assert(b == (0x40u64 | (n >> 8)) as u8 && b1 == (n & 0xFF) as u8);
        assert(b >> 6 == 1 && ((((b & 0x3F) as u64) << 8) | (b1 as u64)) == n) by (bit_vector)
            requires
                b == (0x40u64 | (n >> 8)) as u8 && b1 == (n & 0xFF) as u8 && 64 <= n < 16384;
    } else {
        assert(input[pos + 0] == e[0]);
        let b = e[0];
        assert(b == 0x80);
        assert(b >> 6 == 2) by (bit_vector)
            requires b == 0x80u8;
        assert(e[1] == u32_le_bytes(n as u32)[0]);
        assert(e[2] == u32_le_bytes(n as u32)[1]);
        assert(e[3] == u32_le_bytes(n as u32)[2]);
        assert(e[4] == u32_le_bytes(n as u32)[3]);
        assert(input[pos + 1] == e[1]);
        assert(input[pos + 2] == e[2]);
        assert(input[pos + 3] == e[3]);
        assert(input[pos + 4] == e[4]);
        lemma_u32_le_roundtrip(n as u32);
        assert(le_u32(input[pos + 1], input[pos + 2], input[pos + 3], input[pos + 4])
            == n as u32);
        assert((n as u32) as u64 == n);
    }
}

proof fn lemma_read_string_enc(input: Seq<u8>, pos: int, s: Seq<u8>)
    requires
        0 <= pos,
        s.len() <= MAX_STRING_LEN,
        pos + str_enc(s).len() <= input.len(),
        input.subrange(pos, pos + str_enc(s).len() as int) == str_enc(s),
    ensures
        spec_read_string(input, pos) == Result::<(Seq<u8>, int), StorageError>::Ok((
            s,
            pos + str_enc(s).len(),
        )),
{
    let e = str_enc(s);
    let le = len_enc(s.len() as u64);
    lemma_subrange_nested(input, pos, e, 0, le.len() as int);
    assert forall|k: int| 0 <= k < le.len() implies e.subrange(0, le.len() as int)[k]
        == le[k] by {
        assert(e[k] == le[k]);
    }
    assert(e.subrange(0, le.len() as int) =~= le);
    lemma_read_len_enc(input, pos, s.len() as u64);
    let p = pos + le.len();
    lemma_subrange_nested(input, pos, e, le.len() as int, e.len() as int);
    assert forall|k: int| 0 <= k < s.len() implies e.subrange(le.len() as int, e.len() as int)[k]
        == s[k] by {
        assert(e[le.len() + k] == s[k]);
    }
    assert(e.subrange(le.len() as int, e.len() as int) =~= s);
    assert(input.subrange(p, p + s.len() as int) == s);
}

proof fn lemma_read_score_enc(input: Seq<u8>, pos: int, sc: Score)
    requires
        0 <= pos,
        pos + score_enc(sc).len() <= input.len(),
        input.subrange(pos, pos + score_enc(sc).len() as int) == score_enc(sc),
    ensures
        spec_read_score(input, pos) == Result::<(Score, int), StorageError>::Ok((
            sc,
            pos + score_enc(sc).len(),
        )),
{
    let e = score_enc(sc);
    match sc {
        Score::PosInf => {
            lemma_read_len_enc(input, pos, 253);
        },
        Score::NegInf => {
            lemma_read_len_enc(input, pos, 254);
        },
        Score::NotANum => {
            lemma_read_len_enc(input, pos, 255);
        },
        Score::Finite(bits) => {
            let le = len_enc(8);
            lemma_subrange_nested(input, pos, e, 0, le.len() as int);
            assert forall|k: int| 0 <= k < le.len() implies e.subrange(0, le.len() as int)[k]
                == le[k] by {
                assert(e[k] == le[k]);
            }
            assert(e.subrange(0, le.len() as int) =~= le);
            lemma_read_len_enc(input, pos, 8);
            let p = pos + le.len();
            lemma_subrange_index(input, pos, e);
            assert forall|k: int| 0 <= k < 8 implies input[p + k] == u64_le_bytes(bits)[k] by {
                assert(input[pos + (le.len() + k)] == e[le.len() + k]);
                assert(e[le.len() + k] == u64_le_bytes(bits)[k]);
            }
            lemma_u64_le_roundtrip(bits);
            assert(input[p] == u64_le_bytes(bits)[0]);
            assert(input[p + 1] == u64_le_bytes(bits)[1]);
            assert(input[p + 2] == u64_le_bytes(bits)[2]);
            assert(input[p + 3] == u64_le_bytes(bits)[3]);
            assert(input[p + 4] == u64_le_bytes(bits)[4]);
            assert(input[p + 5] == u64_le_bytes(bits)[5]);
            assert(input[p + 6] == u64_le_bytes(bits)[6]);
            assert(input[p + 7] == u64_le_bytes(bits)[7]);
        },
    }
}

proof fn lemma_read_strings_enc(input: Seq<u8>, pos: int, items: Seq<Seq<u8>>, acc: Seq<Seq<u8>>)
    requires
        0 <= pos,
        forall|i: int| 0 <= i < items.len() ==> (#[trigger] items[i]).len() <= MAX_STRING_LEN,
        pos + strs_enc(items).len() <= input.len(),
        input.subrange(pos, pos + strs_enc(items).len() as int) == strs_enc(items),
    ensures
        spec_read_strings(input, pos, items.len(), acc) == Result::<(Seq<Seq<u8>>, int),
            StorageError>::Ok((acc + items, pos + strs_enc(items).len())),
    decreases items.len(),
{
    if items.len() == 0 {
        assert(acc + items =~= acc);
    } else {
        let e = strs_enc(items);
        let e1 = str_enc(items.first());
        let e2 = strs_enc(items.drop_first());
        assert(e == e1 + e2);
        lemma_subrange_nested(input, pos, e, 0, e1.len() as int);
        assert forall|k: int| 0 <= k < e1.len() implies e.subrange(0, e1.len() as int)[k]
            == e1[k] by {
            assert(e[k] == e1[k]);
        }
        assert(e.subrange(0, e1.len() as int) =~= e1);
        lemma_read_string_enc(input, pos, items.first());
        let p = pos + e1.len();
        lemma_subrange_nested(input, pos, e, e1.len() as int, e.len() as int);
        assert forall|k: int| 0 <= k < e2.len() implies e.subrange(
            e1.len() as int,
            e.len() as int,
        )[k] == e2[k] by {
            assert(e[e1.len() + k] == e2[k]);
        }
        assert(e.subrange(e1.len() as int, e.len() as int) =~= e2);
        assert(forall|i: int| 0 <= i < items.drop_first().len() ==> (#[trigger] items.drop_first()[
            i
        ]).len() <= MAX_STRING_LEN);
        lemma_read_strings_enc(input, p, items.drop_first(), acc.push(items.first()));
        assert(acc.push(items.first()) + items.drop_first() =~= acc + items);
        assert((items.len() - 1) as nat == items.drop_first().len());
    }
}

proof fn lemma_read_pairs_enc(
    input: Seq<u8>,
    pos: int,
    items: Seq<(Seq<u8>, Seq<u8>)>,
    acc: Seq<(Seq<u8>, Seq<u8>)>,
)
    requires
        0 <= pos,
        forall|i: int| 0 <= i < items.len() ==> (#[trigger] items[i]).0.len() <= MAX_STRING_LEN
            && items[i].1.len() <= MAX_STRING_LEN,
        pos + pairs_enc(items).len() <= input.len(),
        input.subrange(pos, pos + pairs_enc(items).len() as int) == pairs_enc(items),
    ensures
        spec_read_pairs(input, pos, items.len(), acc) == Result::<(Seq<(Seq<u8>, Seq<u8>)>, int),
            StorageError>::Ok((acc + items, pos + pairs_enc(items).len())),
    decreases items.len(),
{
    if items.len() == 0 {
        assert(acc + items =~= acc);
    } else {
        let e = pairs_enc(items);
        let ek = str_enc(items.first().0);
        let ev = str_enc(items.first().1);
        let e2 = pairs_enc(items.drop_first());
        assert(e == ek + ev + e2);
        lemma_subrange_nested(input, pos, e, 0, ek.len() as int);
        assert forall|k: int| 0 <= k < ek.len() implies e.subrange(0, ek.len() as int)[k]
            == ek[k] by {
            assert(e[k] == ek[k]);
        }
        assert(e.subrange(0, ek.len() as int) =~= ek);
        lemma_read_string_enc(input, pos, items.first().0);
        let p1 = pos + ek.len();
        lemma_subrange_nested(input, pos, e, ek.len() as int, ek.len() + ev.len() as int);
        assert forall|k: int| 0 <= k < ev.len() implies e.subrange(
            ek.len() as int,
            ek.len() + ev.len() as int,
        )[k] == ev[k] by {
            assert(e[ek.len() + k] == ev[k]);
        }
        assert(e.subrange(ek.len() as int, ek.len() + ev.len() as int) =~= ev);
        lemma_read_string_enc(input, p1, items.first().1);
        let p2 = p1 + ev.len();
        lemma_subrange_nested(input, pos, e, ek.len() + ev.len() as int, e.len() as int);
        assert forall|k: int| 0 <= k < e2.len() implies e.subrange(
            ek.len() + ev.len() as int,
            e.len() as int,
        )[k] == e2[k] by {
            assert(e[ek.len() + ev.len() + k] == e2[k]);
        }
        assert(e.subrange(ek.len() + ev.len() as int, e.len() as int) =~= e2);
        lemma_read_pairs_enc(input, p2, items.drop_first(), acc.push(items.first()));
        assert(acc.push(items.first()) + items.drop_first() =~= acc + items);
        assert((items.len() - 1) as nat == items.drop_first().len());
    }
}

proof fn lemma_read_scored_enc(
    input: Seq<u8>,
    pos: int,
    items: Seq<(Seq<u8>, Score)>,
    acc: Seq<(Seq<u8>, Score)>,
)
    requires
        0 <= pos,
        forall|i: int| 0 <= i < items.len() ==> (#[trigger] items[i]).0.len() <= MAX_STRING_LEN,
        pos + scored_enc(items).len() <= input.len(),
        input.subrange(pos, pos + scored_enc(items).len() as int) == scored_enc(items),
    ensures
        spec_read_scored(input, pos, items.len(), acc) == Result::<(Seq<(Seq<u8>, Score)>, int),
            StorageError>::Ok((acc + items, pos + scored_enc(items).len())),
    decreases items.len(),
{
    if items.len() == 0 {
        assert(acc + items =~= acc);
    } else {
        let e = scored_enc(items);
        let ek = str_enc(items.first().0);
        let ev = score_enc(items.first().1);
        let e2 = scored_enc(items.drop_first());
        assert(e == ek + ev + e2);
        lemma_subrange_nested(input, pos, e, 0, ek.len() as int);
        assert forall|k: int| 0 <= k < ek.len() implies e.subrange(0, ek.len() as int)[k]
            == ek[k] by {
            assert(e[k] == ek[k]);
        }
        assert(e.subrange(0, ek.len() as int) =~= ek);
        lemma_read_string_enc(input, pos, items.first().0);
        let p1 = pos + ek.len();
        lemma_subrange_nested(input, pos, e, ek.len() as int, ek.len() + ev.len() as int);
        assert forall|k: int| 0 <= k < ev.len() implies e.subrange(
            ek.len() as int,
            ek.len() + ev.len() as int,
        )[k] == ev[k] by {
            assert(e[ek.len() + k] == ev[k]);
        }
        assert(e.subrange(ek.len() as int, ek.len() + ev.len() as int) =~= ev);
        lemma_read_score_enc(input, p1, items.first().1);
        let p2 = p1 + ev.len();
        lemma_subrange_nested(input, pos, e, ek.len() + ev.len() as int, e.len() as int);
        assert forall|k: int| 0 <= k < e2.len() implies e.subrange(
            ek.len() + ev.len() as int,
            e.len() as int,
        )[k] == e2[k] by {
            assert(e[ek.len() + ev.len() + k] == e2[k]);
        }
        assert(e.subrange(ek.len() + ev.len() as int, e.len() as int) =~= e2);
        lemma_read_scored_enc(input, p2, items.drop_first(), acc.push(items.first()));
        assert(acc.push(items.first()) + items.drop_first() =~= acc + items);
        assert((items.len() - 1) as nat == items.drop_first().len());
    }
}

proof fn lemma_parse_value_enc(input: Seq<u8>, pos: int, v: ValueData)
    requires
        0 <= pos,
        value_rt_wf(v),
        pos + value_enc(v).len() <= input.len(),
        input.subrange(pos, pos + value_enc(v).len() as int) == value_enc(v),
    ensures
        spec_parse_value(input, pos, type_byte(v)) == Result::<(ValueData, int),
            StorageError>::Ok((v, pos + value_enc(v).len())),
{
    let e = value_enc(v);
    match v {
        ValueData::Str(s) => {
            lemma_read_string_enc(input, pos, s);
        },
        ValueData::List(items) => {
            let le = len_enc(items.len() as u64);
            lemma_subrange_nested(input, pos, e, 0, le.len() as int);
            assert forall|k: int| 0 <= k < le.len() implies e.subrange(0, le.len() as int)[k]
                == le[k] by {
                assert(e[k] == le[k]);
            }
            assert(e.subrange(0, le.len() as int) =~= le);
            lemma_read_len_enc(input, pos, items.len() as u64);
            let p = pos + le.len();
            lemma_subrange_nested(input, pos, e, le.len() as int, e.len() as int);
            assert forall|k: int| 0 <= k < strs_enc(items).len() implies e.subrange(
                le.len() as int,
                e.len() as int,
            )[k] == strs_enc(items)[k] by {
                assert(e[le.len() + k] == strs_enc(items)[k]);
            }
            assert(e.subrange(le.len() as int, e.len() as int) =~= strs_enc(items));
            lemma_read_strings_enc(input, p, items, Seq::empty());
            assert(Seq::<Seq<u8>>::empty() + items =~= items);
        },
        ValueData::SetVal(items) => {
            let le = len_enc(items.len() as u64);
            lemma_subrange_nested(input, pos, e, 0, le.len() as int);
            assert forall|k: int| 0 <= k < le.len() implies e.subrange(0, le.len() as int)[k]
                == le[k] by {
                assert(e[k] == le[k]);
            }
            assert(e.subrange(0, le.len() as int) =~= le);
            lemma_read_len_enc(input, pos, items.len() as u64);
            let p = pos + le.len();
            lemma_subrange_nested(input, pos, e, le.len() as int, e.len() as int);
            assert forall|k: int| 0 <= k < strs_enc(items).len() implies e.subrange(
                le.len() as int,
                e.len() as int,
            )[k] == strs_enc(items)[k] by {
                assert(e[le.len() + k] == strs_enc(items)[k]);
            }
            assert(e.subrange(le.len() as int, e.len() as int) =~= strs_enc(items));
            lemma_read_strings_enc(input, p, items, Seq::empty());
            assert(Seq::<Seq<u8>>::empty() + items =~= items);
        },
        ValueData::SortedSet(items) => {
            let le = len_enc(items.len() as u64);
            lemma_subrange_nested(input, pos, e, 0, le.len() as int);
            assert forall|k: int| 0 <= k < le.len() implies e.subrange(0, le.len() as int)[k]
                == le[k] by {
                assert(e[k] == le[k]);
            }
            assert(e.subrange(0, le.len() as int) =~= le);
            lemma_read_len_enc(input, pos, items.len() as u64);
            let p = pos + le.len();
            lemma_subrange_nested(input, pos, e, le.len() as int, e.len() as int);
            assert forall|k: int| 0 <= k < scored_enc(items).len() implies e.subrange(
                le.len() as int,
                e.len() as int,
            )[k] == scored_enc(items)[k] by {
                assert(e[le.len() + k] == scored_enc(items)[k]);
            }
            assert(e.subrange(le.len() as int, e.len() as int) =~= scored_enc(items));
            lemma_read_scored_enc(input, p, items, Seq::empty());
            assert(Seq::<(Seq<u8>, Score)>::empty() + items =~= items);
        },
        ValueData::Hash(items) => {
            let le = len_enc(items.len() as u64);
            lemma_subrange_nested(input, pos, e, 0, le.len() as int);
            assert forall|k: int| 0 <= k < le.len() implies e.subrange(0, le.len() as int)[k]
                == le[k] by {
                assert(e[k] == le[k]);
            }
            assert(e.subrange(0, le.len() as int) =~= le);
            lemma_read_len_enc(input, pos, items.len() as u64);
            let p = pos + le.len();
            lemma_subrange_nested(input, pos, e, le.len() as int, e.len() as int);
            assert forall|k: int| 0 <= k < pairs_enc(items).len() implies e.subrange(
                le.len() as int,
                e.len() as int,
            )[k] == pairs_enc(items)[k] by {
                assert(e[le.len() + k] == pairs_enc(items)[k]);
            }
            assert(e.subrange(le.len() as int, e.len() as int) =~= pairs_enc(items));
            lemma_read_pairs_enc(input, p, items, Seq::empty());
            assert(Seq::<(Seq<u8>, Seq<u8>)>::empty() + items =~= items);
        },
    }
}


proof fn lemma_parse_entry_enc(input: Seq<u8>, pos: int, k: Seq<u8>, kv: KeyValueData)
    requires
        0 <= pos,
        k.len() <= MAX_STRING_LEN,
        value_rt_wf(kv.value),
        pos + entry_enc(k, kv).len() <= input.len(),
        input.subrange(pos, pos + entry_enc(k, kv).len() as int) == entry_enc(k, kv),
    ensures
        spec_parse_entry(input, pos) == Result::<((Seq<u8>, KeyValueData), int),
            StorageError>::Ok(((k, kv), pos + entry_enc(k, kv).len())),
{
    let e = entry_enc(k, kv);
    let ee = expiry_enc(kv.expiry);
    let ks = str_enc(k);
    let ve = value_enc(kv.value);
    lemma_subrange_index(input, pos, e);
    let p1 = pos + ee.len();
    match kv.expiry {
        Option::None => {
            assert(ee.len() == 0);
        },
        Option::Some(Expiry::Seconds(t)) => {
            assert(e[0] == 0xFD);
            assert(input[pos + 0] == e[0]);
            lemma_u32_le_roundtrip(t);
            assert(e[1] == u32_le_bytes(t)[0]);
            assert(e[2] == u32_le_bytes(t)[1]);
            assert(e[3] == u32_le_bytes(t)[2]);
            assert(e[4] == u32_le_bytes(t)[3]);
            assert(input[pos + 1] == e[1]);
            assert(input[pos + 2] == e[2]);
            assert(input[pos + 3] == e[3]);
            assert(input[pos + 4] == e[4]);
        },
        Option::Some(Expiry::Milliseconds(t)) => {
            assert(e[0] == 0xFC);
            assert(input[pos + 0] == e[0]);
            lemma_u64_le_roundtrip(t);
            assert(e[1] == u64_le_bytes(t)[0]);
            assert(e[2] == u64_le_bytes(t)[1]);
            assert(e[3] == u64_le_bytes(t)[2]);
            assert(e[4] == u64_le_bytes(t)[3]);
            assert(e[5] == u64_le_bytes(t)[4]);
            assert(e[6] == u64_le_bytes(t)[5]);
            assert(e[7] == u64_le_bytes(t)[6]);
            assert(e[8] == u64_le_bytes(t)[7]);
            assert(input[pos + 1] == e[1]);
            assert(input[pos + 2] == e[2]);
            assert(input[pos + 3] == e[3]);
            assert(input[pos + 4] == e[4]);
            assert(input[pos + 5] == e[5]);
            assert(input[pos + 6] == e[6]);
            assert(input[pos + 7] == e[7]);
            assert(input[pos + 8] == e[8]);
        },
    }
    // the type byte: 0 to 4, so no expiry marker reads it by mistake
    assert(e[ee.len() as int] == type_byte(kv.value));
    assert(input[pos + ee.len() as int] == e[ee.len() as int]);
    assert(type_byte(kv.value) != 0xFD && type_byte(kv.value) != 0xFC);
    assert(input[p1] == type_byte(kv.value));
    lemma_subrange_nested(input, pos, e, ee.len() + 1 as int, ee.len() + 1 + ks.len() as int);
    assert forall|t: int| 0 <= t < ks.len() implies e.subrange(
        ee.len() + 1 as int,
        ee.len() + 1 + ks.len() as int,
    )[t] == ks[t] by {
        assert(e[ee.len() + 1 + t] == ks[t]);
    }
    assert(e.subrange(ee.len() + 1 as int, ee.len() + 1 + ks.len() as int) =~= ks);
    lemma_read_string_enc(input, p1 + 1, k);
    let p2 = p1 + 1 + ks.len();
    lemma_subrange_nested(input, pos, e, ee.len() + 1 + ks.len() as int, e.len() as int);
    assert forall|t: int| 0 <= t < ve.len() implies e.subrange(
        ee.len() + 1 + ks.len() as int,
        e.len() as int,
    )[t] == ve[t] by {
        assert(e[ee.len() + 1 + ks.len() + t] == ve[t]);
    }
    assert(e.subrange(ee.len() + 1 + ks.len() as int, e.len() as int) =~= ve);
    lemma_parse_value_enc(input, p2, kv.value);
}

proof fn lemma_parse_entries_enc(
    input: Seq<u8>,
    pos: int,
    items: Seq<(Seq<u8>, KeyValueData)>,
    acc: Seq<(Seq<u8>, KeyValueData)>,
)
    requires
        0 <= pos,
        forall|i: int| 0 <= i < items.len() ==> (#[trigger] items[i]).0.len() <= MAX_STRING_LEN
            && value_rt_wf(items[i].1.value),
        assoc_wf(acc + items),
        pos + entries_enc(items).len() <= input.len(),
        input.subrange(pos, pos + entries_enc(items).len() as int) == entries_enc(items),
    ensures
        spec_parse_entries(input, pos, items.len(), acc) == Result::<(
            Seq<(Seq<u8>, KeyValueData)>,
            int,
        ), StorageError>::Ok((acc + items, pos + entries_enc(items).len())),
    decreases items.len(),
{
    if items.len() == 0 {
        assert(acc + items =~= acc);
    } else {
        let e = entries_enc(items);
        let e1 = entry_enc(items.first().0, items.first().1);
        let e2 = entries_enc(items.drop_first());
        assert(e == e1 + e2);
        lemma_subrange_nested(input, pos, e, 0, e1.len() as int);
        assert forall|t: int| 0 <= t < e1.len() implies e.subrange(0, e1.len() as int)[t]
            == e1[t] by {
            assert(e[t] == e1[t]);
        }
        assert(e.subrange(0, e1.len() as int) =~= e1);
        lemma_parse_entry_enc(input, pos, items.first().0, items.first().1);
        let p = pos + e1.len();
        // the freshly read key is not among the earlier ones
        let whole = acc + items;
        assert(whole[acc.len() as int] == items.first());
        assert(!assoc_has(acc, items.first().0)) by {
            if assoc_has(acc, items.first().0) {
                let i = choose|i: int| 0 <= i < acc.len() && (#[trigger] acc[i]).0
                    == items.first().0;
                assert(whole[i] == acc[i]);
                assert(whole[i].0 == whole[acc.len() as int].0);
            }
        }
        lemma_subrange_nested(input, pos, e, e1.len() as int, e.len() as int);
        assert forall|t: int| 0 <= t < e2.len() implies e.subrange(e1.len() as int, e.len() as int)[
            t
        ] == e2[t] by {
            assert(e[e1.len() + t] == e2[t]);
        }
        assert(e.subrange(e1.len() as int, e.len() as int) =~= e2);
        assert(acc.push(items.first()) + items.drop_first() =~= acc + items);
        assert(assoc_wf(acc.push(items.first()) + items.drop_first()));
        assert(forall|i: int| 0 <= i < items.drop_first().len() ==> (
        #[trigger] items.drop_first()[i]).0.len() <= MAX_STRING_LEN && value_rt_wf(
            items.drop_first()[i].1.value,
        ));
        lemma_parse_entries_enc(input, p, items.drop_first(), acc.push(items.first()));
        assert((items.len() - 1) as nat == items.drop_first().len());
    }
}

proof fn lemma_parse_db_section_enc(
    input: Seq<u8>,
    pos: int,
    idx: u64,
    entries: Seq<(Seq<u8>, KeyValueData)>,
)
    requires
        0 <= pos,
        idx < 4294967296,
        entries.len() < 4294967296,
        assoc_wf(entries),
        forall|i: int| 0 <= i < entries.len() ==> (#[trigger] entries[i]).0.len()
            <= MAX_STRING_LEN && value_rt_wf(entries[i].1.value),
        pos + db_enc(idx, entries).len() <= input.len(),
        input.subrange(pos, pos + db_enc(idx, entries).len() as int) == db_enc(idx, entries),
    ensures
        spec_parse_db_section(input, pos) == Result::<
            ((u64, Seq<(Seq<u8>, KeyValueData)>), int),
            StorageError,
        >::Ok(((idx, entries), pos + db_enc(idx, entries).len())),
{
    let e = db_enc(idx, entries);
    let li = len_enc(idx);
    let lc = len_enc(entries.len() as u64);
    let lz = len_enc(0);
    let ee = entries_enc(entries);
    lemma_subrange_index(input, pos, e);
    assert(e[0] == 0xFE);
    assert(input[pos + 0] == e[0]);
    lemma_subrange_nested(input, pos, e, 1, 1 + li.len() as int);
    assert forall|t: int| 0 <= t < li.len() implies e.subrange(1, 1 + li.len() as int)[t]
        == li[t] by {
        assert(e[1 + t] == li[t]);
    }
    assert(e.subrange(1, 1 + li.len() as int) =~= li);
    lemma_read_len_enc(input, pos + 1, idx);
    let p1 = pos + 1 + li.len();
    assert(e[1 + li.len() as int] == 0xFB);
    assert(input[pos + (1 + li.len() as int)] == e[1 + li.len() as int]);
    assert(input[p1] == 0xFB);
    lemma_subrange_nested(input, pos, e, 2 + li.len() as int, 2 + li.len() + lc.len() as int);
    assert forall|t: int| 0 <= t < lc.len() implies e.subrange(
        2 + li.len() as int,
        2 + li.len() + lc.len() as int,
    )[t] == lc[t] by {
        assert(e[2 + li.len() + t] == lc[t]);
    }
    assert(e.subrange(2 + li.len() as int, 2 + li.len() + lc.len() as int) =~= lc);
    lemma_read_len_enc(input, p1 + 1, entries.len() as u64);
    let p2 = p1 + 1 + lc.len();
    lemma_subrange_nested(
        input,
        pos,
        e,
        2 + li.len() + lc.len() as int,
        2 + li.len() + lc.len() + lz.len() as int,
    );
    assert forall|t: int| 0 <= t < lz.len() implies e.subrange(
        2 + li.len() + lc.len() as int,
        2 + li.len() + lc.len() + lz.len() as int,
    )[t] == lz[t] by {
        assert(e[2 + li.len() + lc.len() + t] == lz[t]);
    }
    assert(e.subrange(2 + li.len() + lc.len() as int, 2 + li.len() + lc.len() + lz.len() as int)
        =~= lz);
    lemma_read_len_enc(input, p2, 0);
    let p3 = p2 + lz.len();
    lemma_subrange_nested(input, pos, e, 2 + li.len() + lc.len() + lz.len() as int, e.len() as int);
    assert forall|t: int| 0 <= t < ee.len() implies e.subrange(
        2 + li.len() + lc.len() + lz.len() as int,
        e.len() as int,
    )[t] == ee[t] by {
        assert(e[2 + li.len() + lc.len() + lz.len() + t] == ee[t]);
    }
    assert(e.subrange(2 + li.len() + lc.len() + lz.len() as int, e.len() as int) =~= ee);
    assert(assoc_wf(Seq::<(Seq<u8>, KeyValueData)>::empty() + entries)) by {
        assert(Seq::<(Seq<u8>, KeyValueData)>::empty() + entries =~= entries);
    }
    lemma_parse_entries_enc(input, p3, entries, Seq::empty());
    assert(Seq::<(Seq<u8>, KeyValueData)>::empty() + entries =~= entries);
}


proof fn lemma_parse_tops_dbs(
    input: Seq<u8>,
    pos: int,
    version: u32,
    aux_acc: Seq<(Seq<u8>, Seq<u8>)>,
    dbs_acc: Seq<(u64, Seq<(Seq<u8>, KeyValueData)>)>,
    rest: Seq<(u64, Seq<(Seq<u8>, KeyValueData)>)>,
)
    requires
        0 <= pos,
        assoc_wf(dbs_acc + rest),
        forall|i: int| 0 <= i < rest.len() ==> (#[trigger] rest[i]).0 < 4294967296
            && rest[i].1.len() < 4294967296 && assoc_wf(rest[i].1) && forall|j: int|
            0 <= j < rest[i].1.len() ==> (#[trigger] rest[i].1[j]).0.len() <= MAX_STRING_LEN
                && value_rt_wf(rest[i].1[j].1.value),
        pos + dbs_enc(rest).len() + 9 == input.len(),
        input.subrange(pos, pos + dbs_enc(rest).len() as int) == dbs_enc(rest),
        input[pos + dbs_enc(rest).len()] == 0xFF,
        le_u64(
            input[pos + dbs_enc(rest).len() + 1],
            input[pos + dbs_enc(rest).len() + 2],
            input[pos + dbs_enc(rest).len() + 3],
            input[pos + dbs_enc(rest).len() + 4],
            input[pos + dbs_enc(rest).len() + 5],
            input[pos + dbs_enc(rest).len() + 6],
            input[pos + dbs_enc(rest).len() + 7],
            input[pos + dbs_enc(rest).len() + 8],
        ) == crc64_of(input.subrange(0, pos + dbs_enc(rest).len() + 1)),
    ensures
        spec_parse_tops(input, pos, version, aux_acc, dbs_acc) == Result::<RdbData,
            StorageError>::Ok(RdbData { version, aux: aux_acc, dbs: dbs_acc + rest }),
    decreases rest.len(),
{
    if rest.len() == 0 {
        assert(dbs_enc(rest).len() == 0);
        assert(input[pos] == 0xFF);
        assert(dbs_acc + rest =~= dbs_acc);
    } else {
        let e = dbs_enc(rest);
        let e1 = db_enc(rest.first().0, rest.first().1);
        let e2 = dbs_enc(rest.drop_first());
        assert(e == e1 + e2);
        lemma_subrange_index(input, pos, e);
        assert(e[0] == 0xFE);
        assert(input[pos + 0] == e[0]);
        lemma_subrange_nested(input, pos, e, 0, e1.len() as int);
        assert forall|t: int| 0 <= t < e1.len() implies e.subrange(0, e1.len() as int)[t]
            == e1[t] by {
            assert(e[t] == e1[t]);
        }
        assert(e.subrange(0, e1.len() as int) =~= e1);
        assert(rest.first().0 < 4294967296 && rest.first().1.len() < 4294967296 && assoc_wf(
            rest.first().1,
        ) && forall|j: int|
            0 <= j < rest.first().1.len() ==> (#[trigger] rest.first().1[j]).0.len()
                <= MAX_STRING_LEN && value_rt_wf(rest.first().1[j].1.value)) by {
            assert(rest[0] == rest.first());
        }
        lemma_parse_db_section_enc(input, pos, rest.first().0, rest.first().1);
        let p = pos + e1.len();
        // the index is new
        let whole = dbs_acc + rest;
        assert(whole[dbs_acc.len() as int] == rest.first());
        assert(!assoc_has(dbs_acc, rest.first().0)) by {
            if assoc_has(dbs_acc, rest.first().0) {
                let i = choose|i: int| 0 <= i < dbs_acc.len() && (#[trigger] dbs_acc[i]).0
                    == rest.first().0;
                assert(whole[i] == dbs_acc[i]);
                assert(whole[i].0 == whole[dbs_acc.len() as int].0);
            }
        }
        lemma_subrange_nested(input, pos, e, e1.len() as int, e.len() as int);
        assert forall|t: int| 0 <= t < e2.len() implies e.subrange(e1.len() as int, e.len() as int)[
            t
        ] == e2[t] by {
            assert(e[e1.len() + t] == e2[t]);
        }
        assert(e.subrange(e1.len() as int, e.len() as int) =~= e2);
        assert(dbs_acc.push(rest.first()) + rest.drop_first() =~= dbs_acc + rest);
        assert(input.subrange(p, p + e2.len() as int) == e2);
        assert(input[p + e2.len()] == 0xFF);
        lemma_parse_tops_dbs(input, p, version, aux_acc, dbs_acc.push(rest.first()),
            rest.drop_first());
    }
}

proof fn lemma_parse_tops_auxes(
    input: Seq<u8>,
    pos: int,
    version: u32,
    aux_acc: Seq<(Seq<u8>, Seq<u8>)>,
    rest: Seq<(Seq<u8>, Seq<u8>)>,
    dbs: Seq<(u64, Seq<(Seq<u8>, KeyValueData)>)>,
)
    requires
        0 <= pos,
        assoc_wf(aux_acc + rest),
        forall|i: int| 0 <= i < rest.len() ==> (#[trigger] rest[i]).0.len() <= MAX_STRING_LEN
            && rest[i].1.len() <= MAX_STRING_LEN,
        assoc_wf(dbs),
        forall|i: int| 0 <= i < dbs.len() ==> (#[trigger] dbs[i]).0 < 4294967296
            && dbs[i].1.len() < 4294967296 && assoc_wf(dbs[i].1) && forall|j: int|
            0 <= j < dbs[i].1.len() ==> (#[trigger] dbs[i].1[j]).0.len() <= MAX_STRING_LEN
                && value_rt_wf(dbs[i].1[j].1.value),
        pos + auxes_enc(rest).len() + dbs_enc(dbs).len() + 9 == input.len(),
        input.subrange(pos, pos + auxes_enc(rest).len() as int) == auxes_enc(rest),
        input.subrange(
            pos + auxes_enc(rest).len() as int,
            pos + auxes_enc(rest).len() + dbs_enc(dbs).len() as int,
        ) == dbs_enc(dbs),
        input[pos + auxes_enc(rest).len() + dbs_enc(dbs).len()] == 0xFF,
        le_u64(
            input[pos + auxes_enc(rest).len() + dbs_enc(dbs).len() + 1],
            input[pos + auxes_enc(rest).len() + dbs_enc(dbs).len() + 2],
            input[pos + auxes_enc(rest).len() + dbs_enc(dbs).len() + 3],
            input[pos + auxes_enc(rest).len() + dbs_enc(dbs).len() + 4],
            input[pos + auxes_enc(rest).len() + dbs_enc(dbs).len() + 5],
            input[pos + auxes_enc(rest).len() + dbs_enc(dbs).len() + 6],
            input[pos + auxes_enc(rest).len() + dbs_enc(dbs).len() + 7],
            input[pos + auxes_enc(rest).len() + dbs_enc(dbs).len() + 8],
        ) == crc64_of(input.subrange(0, pos + auxes_enc(rest).len() + dbs_enc(dbs).len() + 1)),
    ensures
        spec_parse_tops(input, pos, version, aux_acc, Seq::empty()) == Result::<RdbData,
            StorageError>::Ok(RdbData { version, aux: aux_acc + rest, dbs }),
    decreases rest.len(),
{
    if rest.len() == 0 {
        assert(auxes_enc(rest).len() == 0);
        assert(assoc_wf(Seq::<(u64, Seq<(Seq<u8>, KeyValueData)>)>::empty() + dbs)) by {
            assert(Seq::<(u64, Seq<(Seq<u8>, KeyValueData)>)>::empty() + dbs =~= dbs);
        }
        lemma_parse_tops_dbs(input, pos, version, aux_acc, Seq::empty(), dbs);
        assert(Seq::<(u64, Seq<(Seq<u8>, KeyValueData)>)>::empty() + dbs =~= dbs);
        assert(aux_acc + rest =~= aux_acc);
    } else {
        let e = auxes_enc(rest);
        let e1 = aux_enc(rest.first().0, rest.first().1);
        let e2 = auxes_enc(rest.drop_first());
        assert(e == e1 + e2);
        lemma_subrange_index(input, pos, e);
        assert(e[0] == 0xFA);
        assert(input[pos + 0] == e[0]);
        let ks = str_enc(rest.first().0);
        let vs = str_enc(rest.first().1);
        lemma_subrange_nested(input, pos, e, 1, 1 + ks.len() as int);
        assert forall|t: int| 0 <= t < ks.len() implies e.subrange(1, 1 + ks.len() as int)[t]
            == ks[t] by {
            assert(e[1 + t] == ks[t]);
        }
        assert(e.subrange(1, 1 + ks.len() as int) =~= ks);
        assert(rest[0] == rest.first());
        lemma_read_string_enc(input, pos + 1, rest.first().0);
        let p1 = pos + 1 + ks.len();
        lemma_subrange_nested(input, pos, e, 1 + ks.len() as int, 1 + ks.len() + vs.len() as int);
        assert forall|t: int| 0 <= t < vs.len() implies e.subrange(
            1 + ks.len() as int,
            1 + ks.len() + vs.len() as int,
        )[t] == vs[t] by {
            assert(e[1 + ks.len() + t] == vs[t]);
        }
        assert(e.subrange(1 + ks.len() as int, 1 + ks.len() + vs.len() as int) =~= vs);
        lemma_read_string_enc(input, p1, rest.first().1);
        let p2 = p1 + vs.len();
        assert(p2 == pos + e1.len());
        // the key is new
        let whole = aux_acc + rest;
        assert(whole[aux_acc.len() as int] == rest.first());
        assert(!assoc_has(aux_acc, rest.first().0)) by {
            if assoc_has(aux_acc, rest.first().0) {
                let i = choose|i: int| 0 <= i < aux_acc.len() && (#[trigger] aux_acc[i]).0
                    == rest.first().0;
                assert(whole[i] == aux_acc[i]);
                assert(whole[i].0 == whole[aux_acc.len() as int].0);
            }
        }
        lemma_subrange_nested(input, pos, e, e1.len() as int, e.len() as int);
        assert forall|t: int| 0 <= t < e2.len() implies e.subrange(e1.len() as int, e.len() as int)[
            t
        ] == e2[t] by {
            assert(e[e1.len() + t] == e2[t]);
        }
        assert(e.subrange(e1.len() as int, e.len() as int) =~= e2);
        assert(aux_acc.push(rest.first()) + rest.drop_first() =~= aux_acc + rest);
        assert(input.subrange(p2, p2 + e2.len() as int) == e2);
        assert(input.subrange(
            p2 + e2.len() as int,
            p2 + e2.len() + dbs_enc(dbs).len() as int,
        ) == dbs_enc(dbs));
        lemma_parse_tops_auxes(input, p2, version, aux_acc.push(rest.first()), rest.drop_first(),
            dbs);
    }
}

/// Round trip: the image of a well-formed store parses back to exactly
/// that store, and the written checksum validates.
#[verifier::rlimit(100)]
#[verifier::spinoff_prover]
pub proof fn lemma_rdb_round_trip(d: RdbData)
    requires
        rdb_wf(d),
    ensures
        spec_rdb_parse(rdb_encode(d)) == Result::<RdbData, StorageError>::Ok(d),
{
    let body = rdb_body(d);
    let input = rdb_encode(d);
    let ae = auxes_enc(d.aux);
    let de = dbs_enc(d.dbs);
    assert(body == rdb_magic() + dec4(d.version) + ae + de + seq![0xFFu8]);
    assert(input == body + u64_le_bytes(crc64_of(body)));
    assert(input.len() == body.len() + 8);
    assert(body.len() == 9 + ae.len() + de.len() + 1);
    // header
    assert(input.subrange(0, 5) =~= rdb_magic()) by {
        assert forall|t: int| 0 <= t < 5 implies input.subrange(0, 5)[t] == rdb_magic()[t] by {
            assert(input[t] == body[t]);
            assert(body[t] == rdb_magic()[t]);
        }
    }
    let v = d.version;
    assert(input[5] == body[5] && body[5] == dec4(v)[0]);
    assert(input[6] == body[6] && body[6] == dec4(v)[1]);
    assert(input[7] == body[7] && body[7] == dec4(v)[2]);
    assert(input[8] == body[8] && body[8] == dec4(v)[3]);
    assert((v / 1000) % 10 < 10 && (v / 100) % 10 < 10 && (v / 10) % 10 < 10 && v % 10 < 10);
    assert(is_digit(input[5]) && is_digit(input[6]) && is_digit(input[7]) && is_digit(input[8]));
    assert(v / 1000 <= 9);
    assert((v / 1000) % 10 == v / 1000);
    let vback = ((input[5] - 48) * 1000 + (input[6] - 48) * 100 + (input[7] - 48) * 10 + (
    input[8] - 48)) as u32;
    assert((input[5] - 48) == v / 1000 && (input[6] - 48) == (v / 100) % 10 && (input[7] - 48)
        == (v / 10) % 10 && (input[8] - 48) == v % 10);
    assert((v / 1000) * 1000 + ((v / 100) % 10) * 100 + ((v / 10) % 10) * 10 + v % 10 == v) by {
        lemma_dec4_value(v);
    }
    assert(vback == v);
    // aux sections start at 9
    assert(input.subrange(9, 9 + ae.len() as int) =~= ae) by {
        assert forall|t: int| 0 <= t < ae.len() implies input.subrange(9, 9 + ae.len() as int)[t]
            == ae[t] by {
            assert(input[9 + t] == body[9 + t]);
            assert(body[9 + t] == ae[t]);
        }
    }
    assert(input.subrange(9 + ae.len() as int, 9 + ae.len() + de.len() as int) =~= de) by {
        assert forall|t: int| 0 <= t < de.len() implies input.subrange(
            9 + ae.len() as int,
            9 + ae.len() + de.len() as int,
        )[t] == de[t] by {
            assert(input[9 + ae.len() + t] == body[9 + ae.len() + t]);
            assert(body[9 + ae.len() + t] == de[t]);
        }
    }
    assert(input[9 + ae.len() + de.len() as int] == body[9 + ae.len() + de.len() as int]);
    assert(body[9 + ae.len() + de.len() as int] == 0xFF);
    // the trailer holds the checksum of the body
    let bl = body.len() as int;
    assert(input.subrange(0, bl) =~= body) by {
        assert forall|t: int| 0 <= t < bl implies input.subrange(0, bl)[t] == body[t] by {
            assert(input[t] == body[t]);
        }
    }
    let crc = crc64_of(body);
    assert forall|t: int| 0 <= t < 8 implies input[bl + t] == u64_le_bytes(crc)[t] by {
        assert(input[body.len() + t] == u64_le_bytes(crc)[t]);
    }
    lemma_u64_le_roundtrip(crc);
    assert(le_u64(
        input[bl],
        input[bl + 1],
        input[bl + 2],
        input[bl + 3],
        input[bl + 4],
        input[bl + 5],
        input[bl + 6],
        input[bl + 7],
    ) == crc) by {
        assert(input[bl + 0] == u64_le_bytes(crc)[0]);
        assert(input[bl + 1] == u64_le_bytes(crc)[1]);
        assert(input[bl + 2] == u64_le_bytes(crc)[2]);
        assert(input[bl + 3] == u64_le_bytes(crc)[3]);
        assert(input[bl + 4] == u64_le_bytes(crc)[4]);
        assert(input[bl + 5] == u64_le_bytes(crc)[5]);
        assert(input[bl + 6] == u64_le_bytes(crc)[6]);
        assert(input[bl + 7] == u64_le_bytes(crc)[7]);
    }
    assert(assoc_wf(Seq::<(Seq<u8>, Seq<u8>)>::empty() + d.aux)) by {
        assert(Seq::<(Seq<u8>, Seq<u8>)>::empty() + d.aux =~= d.aux);
    }
    lemma_parse_tops_auxes(input, 9, v, Seq::empty(), d.aux, d.dbs);
    assert(Seq::<(Seq<u8>, Seq<u8>)>::empty() + d.aux =~= d.aux);
    assert(RdbData { version: v, aux: Seq::<(Seq<u8>, Seq<u8>)>::empty() + d.aux, dbs: d.dbs }
        == d);
}

/// The four zero-padded digits of a number up to 9999 denote it.
proof fn lemma_dec4_value(v: u32)
    requires
        v <= 9999,
    ensures
        (v / 1000) * 1000 + ((v / 100) % 10) * 100 + ((v / 10) % 10) * 10 + v % 10 == v,
{
    assert((v / 1000) * 1000 + ((v / 100) % 10) * 100 + ((v / 10) % 10) * 10 + v % 10 == v)
        by (nonlinear_arith)
        requires v <= 9999;
}

} // verus!





