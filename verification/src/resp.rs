//! RESP wire codec: the frame types, an encoder, and a one-frame decoder
//! that reports complete frames, incomplete input, or malformed input.

use vstd::prelude::*;
use crate::num::{
    all_digits, append_bytes, dec_digits, dec_value, is_digit, lemma_dec_digits_value,
    lemma_dec_digits_wf, lemma_subrange_index, lemma_subrange_nested, parse_dec_u64, push_dec_u64,
};

verus! {

/// One RESP frame. Arrays may hold arbitrary frames; null forms are the
/// wire values `$-1` and `*-1`.
#[derive(Debug, PartialEq, Eq)]
pub enum RespValue {
    Simple(Vec<u8>),
    ErrorMsg(Vec<u8>),
    Bulk(Vec<u8>),
    NullBulk,
    Arr(Vec<RespValue>),
    NullArr,
}

/// Mathematical image of a `RespValue`: the same tree over sequences.
pub enum RespData {
    Simple(Seq<u8>),
    ErrorMsg(Seq<u8>),
    Bulk(Seq<u8>),
    NullBulk,
    Arr(Seq<RespData>),
    NullArr,
}

pub open spec fn resp_seq_dv(items: Seq<RespValue>) -> Seq<RespData>
    decreases items,
{
    if items.len() == 0 {
        Seq::empty()
    } else {
        seq![items.first().dv()] + resp_seq_dv(items.drop_first())
    }
}

impl RespValue {
    /// Deep view of the frame as a `RespData` tree.
    pub open spec fn dv(self) -> RespData
        decreases self,
    {
        match self {
            RespValue::Simple(s) => RespData::Simple(s@),
            RespValue::ErrorMsg(s) => RespData::ErrorMsg(s@),
            RespValue::Bulk(s) => RespData::Bulk(s@),
            RespValue::NullBulk => RespData::NullBulk,
            RespValue::Arr(items) => RespData::Arr(resp_seq_dv(items@)),
            RespValue::NullArr => RespData::NullArr,
        }
    }
}

pub proof fn lemma_resp_seq_dv_len(items: Seq<RespValue>)
    ensures
        resp_seq_dv(items).len() == items.len(),
        forall|i: int|
            0 <= i < items.len() ==> #[trigger] resp_seq_dv(items)[i] == items[i].dv(),
    decreases items,
{
    if items.len() > 0 {
        lemma_resp_seq_dv_len(items.drop_first());
    }
}

/// Line terminator.
pub open spec fn crlf() -> Seq<u8> {
    seq![13u8, 10u8]
}

/// A frame is well formed when simple strings and errors hold no CR or LF,
/// counted lengths fit the wire's `u64` limit, and every array element is
/// well formed. Only well-formed frames have an unambiguous encoding.
pub open spec fn data_wf(d: RespData) -> bool
    decreases d,
{
    match d {
        RespData::Simple(s) => forall|i: int| 0 <= i < s.len() ==> s[i] != 13 && s[i] != 10,
        RespData::ErrorMsg(s) => forall|i: int| 0 <= i < s.len() ==> s[i] != 13 && s[i] != 10,
        RespData::Bulk(s) => s.len() <= u64::MAX,
        RespData::NullBulk => true,
        RespData::Arr(items) => items.len() <= u64::MAX && forall|i: int|
            0 <= i < items.len() ==> data_wf(#[trigger] items[i]),
        RespData::NullArr => true,
    }
}

/// Wire encoding of one frame: `+s\r\n`, `-s\r\n`, `$len\r\ns\r\n`,
/// `$-1\r\n`, `*n\r\n` followed by the elements, `*-1\r\n`.
pub open spec fn encode_data(d: RespData) -> Seq<u8>
    decreases d,
{
    match d {
        RespData::Simple(s) => seq![43u8] + s + crlf(),
        RespData::ErrorMsg(s) => seq![45u8] + s + crlf(),
        RespData::Bulk(s) => seq![36u8] + dec_digits(s.len()) + crlf() + s + crlf(),
        RespData::NullBulk => seq![36u8, 45u8, 49u8, 13u8, 10u8],
        RespData::Arr(items) => seq![42u8] + dec_digits(items.len()) + crlf()
            + encode_items(items),
        RespData::NullArr => seq![42u8, 45u8, 49u8, 13u8, 10u8],
    }
}

pub open spec fn encode_items(items: Seq<RespData>) -> Seq<u8>
    decreases items,
{
    if items.len() == 0 {
        Seq::empty()
    } else {
        encode_data(items.first()) + encode_items(items.drop_first())
    }
}

/// Index of the first CR at or after `pos`, or -1 when there is none.
pub open spec fn find_cr(input: Seq<u8>, pos: int) -> int
    decreases input.len() - pos,
{
    if pos < 0 || pos >= input.len() {
        -1
    } else if input[pos] == 13 {
        pos
    } else {
        find_cr(input, pos + 1)
    }
}

pub proof fn lemma_find_cr(input: Seq<u8>, pos: int)
    requires
        0 <= pos,
    ensures
        find_cr(input, pos) == -1 ==> forall|j: int| pos <= j < input.len() ==> input[j] != 13,
        find_cr(input, pos) != -1 ==> {
            &&& pos <= find_cr(input, pos) < input.len()
            &&& input[find_cr(input, pos)] == 13
            &&& forall|j: int| pos <= j < find_cr(input, pos) ==> input[j] != 13
        },
    decreases input.len() - pos,
{
    if pos < input.len() && input[pos] != 13 {
        lemma_find_cr(input, pos + 1);
    }
}

/// The first CR at or after `pos` is at `c` when the bytes before it are
/// CR-free and `input[c]` is CR.
pub proof fn lemma_find_cr_at(input: Seq<u8>, pos: int, c: int)
    requires
        0 <= pos <= c < input.len(),
        input[c] == 13,
        forall|j: int| pos <= j < c ==> input[j] != 13,
    ensures
        find_cr(input, pos) == c,
    decreases c - pos,
{
    if pos < c {
        lemma_find_cr_at(input, pos + 1, c);
    }
}

/// Result of scanning one CRLF-terminated line starting at `pos`.
pub enum ParsedLine {
    Line { content: Seq<u8>, next: int },
    MoreLine,
    BadLine,
}

/// The line starting at `pos`: its bytes up to the first CR, which must be
/// followed by LF.
pub open spec fn spec_parse_line(input: Seq<u8>, pos: int) -> ParsedLine {
    let c = find_cr(input, pos);
    if c == -1 || c + 1 >= input.len() {
        ParsedLine::MoreLine
    } else if input[c + 1] != 10 {
        ParsedLine::BadLine
    } else {
        ParsedLine::Line { content: input.subrange(pos, c), next: c + 2 }
    }
}

/// Result of scanning a decimal length line (as after `$` or `*`).
pub enum ParsedLen {
    Len { n: nat, next: int },
    NullMarker { next: int },
    MoreLen,
    BadLen,
}

/// The length line starting at `pos`: either the exact bytes `-1`, or a
/// nonempty run of digits whose value fits in a `u64`.
pub open spec fn spec_parse_len(input: Seq<u8>, pos: int) -> ParsedLen {
    match spec_parse_line(input, pos) {
        ParsedLine::Line { content, next } => {
            if content =~= seq![45u8, 49u8] {
                ParsedLen::NullMarker { next }
            } else if content.len() > 0 && all_digits(content) && dec_value(content)
                <= u64::MAX {
                ParsedLen::Len { n: dec_value(content), next }
            } else {
                ParsedLen::BadLen
            }
        },
        ParsedLine::MoreLine => ParsedLen::MoreLen,
        ParsedLine::BadLine => ParsedLen::BadLen,
    }
}

pub proof fn lemma_parse_line_next(input: Seq<u8>, pos: int)
    requires
        0 <= pos,
    ensures
        match spec_parse_line(input, pos) {
            ParsedLine::Line { content, next } => pos + content.len() + 2 == next
                && next <= input.len() && pos < next,
            _ => true,
        },
{
    lemma_find_cr(input, pos);
}

pub proof fn lemma_parse_len_next(input: Seq<u8>, pos: int)
    requires
        0 <= pos,
    ensures
        match spec_parse_len(input, pos) {
            ParsedLen::Len { n, next } => pos < next <= input.len(),
            ParsedLen::NullMarker { next } => pos < next <= input.len(),
            _ => true,
        },
{
    lemma_parse_line_next(input, pos);
}

/// Result of parsing one frame starting at some position.
pub enum ParsedData {
    Found { d: RespData, end: int },
    More,
    Bad,
}

/// Result of parsing a run of consecutive frames.
pub enum ParsedItems {
    FoundItems { items: Seq<RespData>, end: int },
    MoreItems,
    BadItems,
}

/// Parses the frame starting at `pos`: dispatch on the prefix byte, then
/// scan the line, the counted payload, or the counted elements.
pub open spec fn spec_parse(input: Seq<u8>, pos: int) -> ParsedData
    decreases input.len() - pos, 0int,
{
    if pos < 0 || pos >= input.len() {
        ParsedData::More
    } else {
        let b = input[pos];
        if b == 43 {  // '+'
            match spec_parse_line(input, pos + 1) {
                ParsedLine::Line { content, next } => ParsedData::Found {
                    d: RespData::Simple(content),
                    end: next,
                },
                ParsedLine::MoreLine => ParsedData::More,
                ParsedLine::BadLine => ParsedData::Bad,
            }
        } else if b == 45 {  // '-'
            match spec_parse_line(input, pos + 1) {
                ParsedLine::Line { content, next } => ParsedData::Found {
                    d: RespData::ErrorMsg(content),
                    end: next,
                },
                ParsedLine::MoreLine => ParsedData::More,
                ParsedLine::BadLine => ParsedData::Bad,
            }
        } else if b == 36 {  // '$'
            match spec_parse_len(input, pos + 1) {
                ParsedLen::NullMarker { next } => ParsedData::Found {
                    d: RespData::NullBulk,
                    end: next,
                },
                ParsedLen::Len { n, next } => {
                    if next + n + 2 > input.len() {
                        ParsedData::More
                    } else if input[next + n] != 13 || input[next + n + 1] != 10 {
                        ParsedData::Bad
                    } else {
                        ParsedData::Found {
                            d: RespData::Bulk(input.subrange(next, next + n)),
                            end: next + n + 2,
                        }
                    }
                },
                ParsedLen::MoreLen => ParsedData::More,
                ParsedLen::BadLen => ParsedData::Bad,
            }
        } else if b == 42 {  // '*'
            match spec_parse_len(input, pos + 1) {
                ParsedLen::NullMarker { next } => ParsedData::Found {
                    d: RespData::NullArr,
                    end: next,
                },
                ParsedLen::Len { n, next } => {
                    proof {
                        lemma_parse_len_next(input, pos + 1);
                    }
                    match spec_parse_items(input, next, n) {
                        ParsedItems::FoundItems { items, end } => ParsedData::Found {
                            d: RespData::Arr(items),
                            end,
                        },
                        ParsedItems::MoreItems => ParsedData::More,
                        ParsedItems::BadItems => ParsedData::Bad,
                    }
                },
                ParsedLen::MoreLen => ParsedData::More,
                ParsedLen::BadLen => ParsedData::Bad,
            }
        } else {
            ParsedData::Bad
        }
    }
}

/// Parses `n` consecutive frames starting at `pos`.
pub open spec fn spec_parse_items(input: Seq<u8>, pos: int, n: nat) -> ParsedItems
    decreases input.len() - pos, n,
{
    if n == 0 {
        ParsedItems::FoundItems { items: Seq::empty(), end: pos }
    } else {
        match spec_parse(input, pos) {
            ParsedData::Found { d, end } => {
                if end < pos || end > input.len() {
                    // a parse never moves backwards; this arm is unreachable
                    ParsedItems::BadItems
                } else {
                    match spec_parse_items(input, end, (n - 1) as nat) {
                        ParsedItems::FoundItems { items, end: e2 } => ParsedItems::FoundItems {
                            items: seq![d] + items,
                            end: e2,
                        },
                        ParsedItems::MoreItems => ParsedItems::MoreItems,
                        ParsedItems::BadItems => ParsedItems::BadItems,
                    }
                }
            },
            ParsedData::More => ParsedItems::MoreItems,
            ParsedData::Bad => ParsedItems::BadItems,
        }
    }
}

/// Outcome of decoding one frame from a byte buffer.
#[derive(Debug, PartialEq, Eq)]
pub enum Decoded {
    /// A complete frame and the number of bytes it occupies.
    Complete(RespValue, usize),
    /// The buffer holds only a prefix of a frame.
    NeedMore,
    /// The buffer cannot start a frame.
    Malformed,
}

fn find_cr_exec(input: &[u8], pos: usize) -> (r: Option<usize>)
    requires
        pos <= input@.len(),
    ensures
        match r {
            Some(c) => c == find_cr(input@, pos as int),
            None => find_cr(input@, pos as int) == -1,
        },
{
    let mut i = pos;
    while i < input.len()
        invariant
            pos <= i <= input@.len(),
            find_cr(input@, pos as int) == find_cr(input@, i as int),
        decreases input@.len() - i,
    {
        if input[i] == 13 {
            return Some(i);
        }
        i = i + 1;
    }
    None
}

enum ExLine {
    LineOk(Vec<u8>, usize),
    LineMore,
    LineBad,
}

fn parse_line_exec(input: &[u8], pos: usize) -> (r: ExLine)
    requires
        pos <= input@.len(),
    ensures
        match r {
            ExLine::LineOk(content, next) => spec_parse_line(input@, pos as int)
                == (ParsedLine::Line { content: content@, next: next as int })
                && pos < next <= input@.len(),
            ExLine::LineMore => spec_parse_line(input@, pos as int) is MoreLine,
            ExLine::LineBad => spec_parse_line(input@, pos as int) is BadLine,
        },
{
    proof {
        lemma_parse_line_next(input@, pos as int);
    }
    match find_cr_exec(input, pos) {
        None => ExLine::LineMore,
        Some(c) => {
            let len = input.len();
            proof {
                lemma_find_cr(input@, pos as int);
                assert(find_cr(input@, pos as int) == c as int);
                assert(c as int != -1);
                assert(c < len);
            }
            if c + 1 >= len {
                ExLine::LineMore
            } else if input[c + 1] != 10 {
                ExLine::LineBad
            } else {
                let content = vstd::slice::slice_to_vec(vstd::slice::slice_subrange(input, pos, c));
                ExLine::LineOk(content, c + 2)
            }
        },
    }
}

enum ExLen {
    LenOk(u64, usize),
    LenNull(usize),
    LenMore,
    LenBad,
}

fn parse_len_exec(input: &[u8], pos: usize) -> (r: ExLen)
    requires
        pos <= input@.len(),
    ensures
        match r {
            ExLen::LenOk(n, next) => spec_parse_len(input@, pos as int)
                == (ParsedLen::Len { n: n as nat, next: next as int })
                && pos < next <= input@.len(),
            ExLen::LenNull(next) => spec_parse_len(input@, pos as int)
                == (ParsedLen::NullMarker { next: next as int })
                && pos < next <= input@.len(),
            ExLen::LenMore => spec_parse_len(input@, pos as int) is MoreLen,
            ExLen::LenBad => spec_parse_len(input@, pos as int) is BadLen,
        },
{
    match parse_line_exec(input, pos) {
        ExLine::LineMore => ExLen::LenMore,
        ExLine::LineBad => ExLen::LenBad,
        ExLine::LineOk(content, next) => {
            if content.len() == 2 && content[0] == 45 && content[1] == 49 {
                assert(content@ =~= seq![45u8, 49u8]);
                ExLen::LenNull(next)
            } else {
                assert(!(content@ =~= seq![45u8, 49u8]));
                match parse_dec_u64(content.as_slice()) {
                    Some(v) => ExLen::LenOk(v, next),
                    None => ExLen::LenBad,
                }
            }
        },
    }
}

enum ExItems {
    ItemsOk(Vec<RespValue>, usize),
    ItemsMore,
    ItemsBad,
}

/// Decodes the frame starting at `pos`.
pub fn parse_frame(input: &[u8], pos: usize) -> (r: Decoded)
    requires
        pos <= input@.len(),
    ensures
        match r {
            Decoded::Complete(v, end) => spec_parse(input@, pos as int)
                == (ParsedData::Found { d: v.dv(), end: end as int })
                && pos < end <= input@.len(),
            Decoded::NeedMore => spec_parse(input@, pos as int) is More,
            Decoded::Malformed => spec_parse(input@, pos as int) is Bad,
        },
    decreases input@.len() - pos, 0int,
{
    if pos >= input.len() {
        return Decoded::NeedMore;
    }
    let b = input[pos];
    if b == 43 {
        match parse_line_exec(input, pos + 1) {
            ExLine::LineOk(content, next) => Decoded::Complete(RespValue::Simple(content), next),
            ExLine::LineMore => Decoded::NeedMore,
            ExLine::LineBad => Decoded::Malformed,
        }
    } else if b == 45 {
        match parse_line_exec(input, pos + 1) {
            ExLine::LineOk(content, next) => Decoded::Complete(RespValue::ErrorMsg(content), next),
            ExLine::LineMore => Decoded::NeedMore,
            ExLine::LineBad => Decoded::Malformed,
        }
    } else if b == 36 {
        match parse_len_exec(input, pos + 1) {
            ExLen::LenNull(next) => Decoded::Complete(RespValue::NullBulk, next),
            ExLen::LenOk(n, next) => {
                let remaining = input.len() - next;
                if n > remaining as u64 || (remaining as u64) - n < 2 {
                    return Decoded::NeedMore;
                }
                let nb = n as usize;
                if input[next + nb] != 13 || input[next + nb + 1] != 10 {
                    return Decoded::Malformed;
                }
                let content = vstd::slice::slice_to_vec(
                    vstd::slice::slice_subrange(input, next, next + nb),
                );
                Decoded::Complete(RespValue::Bulk(content), next + nb + 2)
            },
            ExLen::LenMore => Decoded::NeedMore,
            ExLen::LenBad => Decoded::Malformed,
        }
    } else if b == 42 {
        match parse_len_exec(input, pos + 1) {
            ExLen::LenNull(next) => Decoded::Complete(RespValue::NullArr, next),
            ExLen::LenOk(n, next) => {
                match parse_items_exec(input, next, n) {
                    ExItems::ItemsOk(items, end) => Decoded::Complete(RespValue::Arr(items), end),
                    ExItems::ItemsMore => Decoded::NeedMore,
                    ExItems::ItemsBad => Decoded::Malformed,
                }
            },
            ExLen::LenMore => Decoded::NeedMore,
            ExLen::LenBad => Decoded::Malformed,
        }
    } else {
        Decoded::Malformed
    }
}

fn parse_items_exec(input: &[u8], pos: usize, n: u64) -> (r: ExItems)
    requires
        pos <= input@.len(),
    ensures
        match r {
            ExItems::ItemsOk(items, end) => spec_parse_items(input@, pos as int, n as nat)
                == (ParsedItems::FoundItems { items: resp_seq_dv(items@), end: end as int })
                && pos <= end <= input@.len() && items@.len() == n,
            ExItems::ItemsMore => spec_parse_items(input@, pos as int, n as nat) is MoreItems,
            ExItems::ItemsBad => spec_parse_items(input@, pos as int, n as nat) is BadItems,
        },
    decreases input@.len() - pos, n,
{
    if n == 0 {
        let items: Vec<RespValue> = Vec::new();
        assert(resp_seq_dv(items@) =~= Seq::<RespData>::empty());
        return ExItems::ItemsOk(items, pos);
    }
    match parse_frame(input, pos) {
        Decoded::NeedMore => ExItems::ItemsMore,
        Decoded::Malformed => ExItems::ItemsBad,
        Decoded::Complete(v, end) => {
            match parse_items_exec(input, end, n - 1) {
                ExItems::ItemsMore => ExItems::ItemsMore,
                ExItems::ItemsBad => ExItems::ItemsBad,
                ExItems::ItemsOk(mut items, e2) => {
                    let ghost old_items = items@;
                    let ghost vd = v.dv();
                    items.insert(0, v);
                    proof {
                        assert(items@ =~= seq![items@[0]] + old_items);
                        assert(items@.drop_first() =~= old_items);
                        assert(resp_seq_dv(items@) =~= seq![vd] + resp_seq_dv(old_items));
                    }
                    ExItems::ItemsOk(items, e2)
                },
            }
        },
    }
}

/// Decodes one complete frame from the front of `input`, reporting the
/// frame and how many bytes it occupies, or that the input is an
/// incomplete prefix, or that it is malformed.
pub fn resp_decode(input: &[u8]) -> (r: Decoded)
    ensures
        match r {
            Decoded::Complete(v, consumed) => spec_parse(input@, 0)
                == (ParsedData::Found { d: v.dv(), end: consumed as int })
                && 0 < consumed <= input@.len(),
            Decoded::NeedMore => spec_parse(input@, 0) is More,
            Decoded::Malformed => spec_parse(input@, 0) is Bad,
        },
{
    parse_frame(input, 0)
}


/// Appends the digits of `n` followed by CRLF.
fn push_dec_crlf(n: u64, out: &mut Vec<u8>)
    ensures
        final(out)@ == old(out)@ + dec_digits(n as nat) + crlf(),
{
    push_dec_u64(n, out);
    out.push(13);
    out.push(10);
    assert(out@ =~= old(out)@ + dec_digits(n as nat) + crlf());
}

/// Appends the encoding of the frame to `out`.
pub fn encode_frame_to(v: &RespValue, out: &mut Vec<u8>)
    ensures
        final(out)@ == old(out)@ + encode_data(v.dv()),
    decreases *v, 0int,
{
    match v {
        RespValue::Simple(s) => {
            out.push(43);
            append_bytes(out, s.as_slice());
            out.push(13);
            out.push(10);
            assert(out@ =~= old(out)@ + encode_data(v.dv()));
        },
        RespValue::ErrorMsg(s) => {
            out.push(45);
            append_bytes(out, s.as_slice());
            out.push(13);
            out.push(10);
            assert(out@ =~= old(out)@ + encode_data(v.dv()));
        },
        RespValue::Bulk(s) => {
            out.push(36);
            push_dec_crlf(s.len() as u64, out);
            append_bytes(out, s.as_slice());
            out.push(13);
            out.push(10);
            assert(out@ =~= old(out)@ + encode_data(v.dv()));
        },
        RespValue::NullBulk => {
            out.push(36);
            out.push(45);
            out.push(49);
            out.push(13);
            out.push(10);
            assert(out@ =~= old(out)@ + encode_data(v.dv()));
        },
        RespValue::Arr(items) => {
            out.push(42);
            push_dec_crlf(items.len() as u64, out);
            proof {
                lemma_resp_seq_dv_len(items@);
            }
            encode_items_to(items, 0, out);
            assert(items@.subrange(0, items@.len() as int) =~= items@);
            assert(out@ =~= old(out)@ + encode_data(v.dv()));
        },
        RespValue::NullArr => {
            out.push(42);
            out.push(45);
            out.push(49);
            out.push(13);
            out.push(10);
            assert(out@ =~= old(out)@ + encode_data(v.dv()));
        },
    }
}

/// Appends the encodings of `items[i..]` to `out`.
fn encode_items_to(items: &Vec<RespValue>, i: usize, out: &mut Vec<u8>)
    requires
        i <= items@.len(),
    ensures
        final(out)@ == old(out)@ + encode_items(resp_seq_dv(items@.subrange(i as int, items@.len() as int))),
    decreases items@, items@.len() - i,
{
    if i == items.len() {
        assert(items@.subrange(i as int, items@.len() as int) =~= Seq::<RespValue>::empty());
        assert(resp_seq_dv(Seq::<RespValue>::empty()) =~= Seq::<RespData>::empty());
        assert(out@ =~= out@ + Seq::<u8>::empty());
    } else {
        let ghost rest = items@.subrange(i as int, items@.len() as int);
        proof {
            assert(decreases_to!(items@ => items@[i as int]));
        }
        encode_frame_to(&items[i], out);
        encode_items_to(items, i + 1, out);
        proof {
            assert(rest.len() > 0);
            assert(rest.first() == items@[i as int]);
            assert(rest.drop_first() =~= items@.subrange(i + 1, items@.len() as int));
            assert(resp_seq_dv(rest) == seq![rest.first().dv()] + resp_seq_dv(rest.drop_first()));
            assert(encode_items(resp_seq_dv(rest)) == encode_data(items@[i as int].dv())
                + encode_items(resp_seq_dv(items@.subrange(i + 1, items@.len() as int)))) by {
                assert(resp_seq_dv(rest).len() > 0);
                assert(resp_seq_dv(rest).first() == rest.first().dv());
                assert(resp_seq_dv(rest).drop_first() =~= resp_seq_dv(rest.drop_first()));
            }
            assert(out@ =~= old(out)@ + encode_items(resp_seq_dv(rest)));
        }
    }
}

/// Encodes one frame as a fresh byte vector.
pub fn encode_frame(v: &RespValue) -> (r: Vec<u8>)
    ensures
        r@ == encode_data(v.dv()),
{
    let mut out: Vec<u8> = Vec::new();
    encode_frame_to(v, &mut out);
    out
}


/// The digits of a number contain no CR, no LF, and no minus sign.
proof fn lemma_dec_digits_bytes(n: nat)
    ensures
        forall|i: int| 0 <= i < dec_digits(n).len() ==> #[trigger] dec_digits(n)[i] != 13
            && dec_digits(n)[i] != 10 && dec_digits(n)[i] != 45,
{
    lemma_dec_digits_wf(n);
    assert forall|i: int| 0 <= i < dec_digits(n).len() implies #[trigger] dec_digits(n)[i] != 13
        && dec_digits(n)[i] != 10 && dec_digits(n)[i] != 45 by {
        assert(is_digit(dec_digits(n)[i]));
    }
}

/// Parsing a decimal length line that was written as `digits ++ CRLF`
/// (with arbitrary bytes after it) finds exactly that number.
proof fn lemma_parse_len_of_digits(input: Seq<u8>, pos: int, n: nat)
    requires
        0 <= pos,
        n <= u64::MAX,
        pos + dec_digits(n).len() + 2 <= input.len(),
        input.subrange(pos, pos + dec_digits(n).len() as int) == dec_digits(n),
        input[pos + dec_digits(n).len()] == 13,
        input[pos + dec_digits(n).len() + 1] == 10,
    ensures
        spec_parse_len(input, pos) == (ParsedLen::Len {
            n,
            next: pos + dec_digits(n).len() + 2,
        }),
{
    let ds = dec_digits(n);
    lemma_dec_digits_wf(n);
    lemma_dec_digits_value(n);
    lemma_dec_digits_bytes(n);
    lemma_subrange_index(input, pos, ds);
    let c = pos + ds.len();
    assert forall|j: int| pos <= j < c implies input[j] != 13 by {
        assert(input[pos + (j - pos)] == ds[j - pos]);
    }
    lemma_find_cr_at(input, pos, c);
    let content = input.subrange(pos, c);
    assert(content =~= ds);
    assert(is_digit(content[0]));
    assert(!(content =~= seq![45u8, 49u8]));
    assert(spec_parse_line(input, pos) == (ParsedLine::Line {
        content: input.subrange(pos, c),
        next: c + 2,
    }));
}

/// Parsing at the start of a well-formed frame's encoding finds exactly
/// that frame, whatever bytes follow.
pub proof fn lemma_parse_encode(input: Seq<u8>, pos: int, d: RespData)
    requires
        data_wf(d),
        0 <= pos,
        pos + encode_data(d).len() <= input.len(),
        input.subrange(pos, pos + encode_data(d).len() as int) == encode_data(d),
    ensures
        spec_parse(input, pos) == (ParsedData::Found { d, end: pos + encode_data(d).len() }),
    decreases d,
{
    let e = encode_data(d);
    lemma_subrange_index(input, pos, e);
    match d {
        RespData::Simple(s) => {
            let sl = s.len() as int;
            assert(e == seq![43u8] + s + crlf());
            assert(e[0] == 43);
            assert(input[pos + 0] == e[0]);
            let c = pos + 1 + sl;
            assert(e[1 + sl] == 13);
            assert(input[pos + (1 + sl)] == e[1 + sl]);
            assert(e[2 + sl] == 10);
            assert(input[pos + (2 + sl)] == e[2 + sl]);
            assert forall|j: int| pos + 1 <= j < c implies input[j] != 13 by {
                assert(input[pos + (j - pos)] == e[j - pos]);
                assert(e[j - pos] == s[j - pos - 1]);
            }
            lemma_find_cr_at(input, pos + 1, c);
            assert forall|t: int| 0 <= t < sl implies input.subrange(pos + 1, c)[t] == s[t] by {
                assert(input[pos + (1 + t)] == e[1 + t]);
                assert(e[1 + t] == s[t]);
            }
            assert(input.subrange(pos + 1, c) =~= s);
        },
        RespData::ErrorMsg(s) => {
            let sl = s.len() as int;
            assert(e == seq![45u8] + s + crlf());
            assert(e[0] == 45);
            assert(input[pos + 0] == e[0]);
            let c = pos + 1 + sl;
            assert(e[1 + sl] == 13);
            assert(input[pos + (1 + sl)] == e[1 + sl]);
            assert(e[2 + sl] == 10);
            assert(input[pos + (2 + sl)] == e[2 + sl]);
            assert forall|j: int| pos + 1 <= j < c implies input[j] != 13 by {
                assert(input[pos + (j - pos)] == e[j - pos]);
                assert(e[j - pos] == s[j - pos - 1]);
            }
            lemma_find_cr_at(input, pos + 1, c);
            assert forall|t: int| 0 <= t < sl implies input.subrange(pos + 1, c)[t] == s[t] by {
                assert(input[pos + (1 + t)] == e[1 + t]);
                assert(e[1 + t] == s[t]);
            }
            assert(input.subrange(pos + 1, c) =~= s);
        },
        RespData::Bulk(s) => {
            let sl = s.len() as int;
            let ds = dec_digits(s.len());
            let dl = ds.len() as int;
            assert(e == seq![36u8] + ds + crlf() + s + crlf());
            assert(e[0] == 36);
            assert(input[pos + 0] == e[0]);
            lemma_subrange_nested(input, pos, e, 1, 1 + dl);
            assert forall|k: int| 0 <= k < dl implies e.subrange(1, 1 + dl)[k] == ds[k] by {
                assert(e[1 + k] == ds[k]);
            }
            assert(e.subrange(1, 1 + dl) =~= ds);
            assert(e[1 + dl] == 13);
            assert(input[pos + (1 + dl)] == e[1 + dl]);
            assert(e[2 + dl] == 10);
            assert(input[pos + (2 + dl)] == e[2 + dl]);
            lemma_parse_len_of_digits(input, pos + 1, s.len());
            let next = pos + dl + 3;
            assert(spec_parse_len(input, pos + 1) == (ParsedLen::Len { n: s.len(), next }));
            assert(e.len() == dl + sl + 5);
            assert(next + sl + 2 == pos + e.len());
            assert(e[3 + dl + sl] == 13);
            assert(input[pos + (3 + dl + sl)] == e[3 + dl + sl]);
            assert(e[4 + dl + sl] == 10);
            assert(input[pos + (4 + dl + sl)] == e[4 + dl + sl]);
            lemma_subrange_nested(input, pos, e, 3 + dl, 3 + dl + sl);
            assert forall|t: int| 0 <= t < sl implies e.subrange(3 + dl, 3 + dl + sl)[t]
                == s[t] by {
                assert(e[3 + dl + t] == s[t]);
            }
            assert(e.subrange(3 + dl, 3 + dl + sl) =~= s);
            assert(input.subrange(next, next + sl) == s);
            assert(spec_parse(input, pos) == (ParsedData::Found {
                d: RespData::Bulk(input.subrange(next, next + sl)),
                end: next + sl + 2,
            }));
        },
        RespData::NullBulk => {
            assert(e =~= seq![36u8, 45u8, 49u8, 13u8, 10u8]);
            assert(input[pos + 0] == e[0] && e[0] == 36);
            assert(input[pos + 1] == e[1] && e[1] == 45);
            assert(input[pos + 2] == e[2] && e[2] == 49);
            assert(input[pos + 3] == e[3] && e[3] == 13);
            assert(input[pos + 4] == e[4] && e[4] == 10);
            lemma_find_cr_at(input, pos + 1, pos + 3);
            assert(input.subrange(pos + 1, pos + 3) =~= seq![45u8, 49u8]);
            assert(spec_parse_line(input, pos + 1) == (ParsedLine::Line {
                content: input.subrange(pos + 1, pos + 3),
                next: pos + 5,
            }));
        },
        RespData::Arr(items) => {
            let ds = dec_digits(items.len());
            let dl = ds.len() as int;
            let body = encode_items(items);
            assert(e == seq![42u8] + ds + crlf() + body);
            assert(e[0] == 42);
            assert(input[pos + 0] == e[0]);
            lemma_subrange_nested(input, pos, e, 1, 1 + dl);
            assert forall|k: int| 0 <= k < dl implies e.subrange(1, 1 + dl)[k] == ds[k] by {
                assert(e[1 + k] == ds[k]);
            }
            assert(e.subrange(1, 1 + dl) =~= ds);
            assert(e[1 + dl] == 13);
            assert(input[pos + (1 + dl)] == e[1 + dl]);
            assert(e[2 + dl] == 10);
            assert(input[pos + (2 + dl)] == e[2 + dl]);
            lemma_parse_len_of_digits(input, pos + 1, items.len());
            let next = pos + dl + 3;
            assert(spec_parse_len(input, pos + 1) == (ParsedLen::Len { n: items.len(), next }));
            lemma_subrange_nested(input, pos, e, 3 + dl, e.len() as int);
            assert forall|t: int| 0 <= t < body.len() implies e.subrange(3 + dl, e.len() as int)[t]
                == body[t] by {
                assert(e[3 + dl + t] == body[t]);
            }
            assert(e.subrange(3 + dl, e.len() as int) =~= body);
            assert(input.subrange(next, next + body.len() as int) == body);
            lemma_parse_encode_items(input, next, items);
            assert(next + body.len() == pos + e.len());
        },
        RespData::NullArr => {
            assert(e =~= seq![42u8, 45u8, 49u8, 13u8, 10u8]);
            assert(input[pos + 0] == e[0] && e[0] == 42);
            assert(input[pos + 1] == e[1] && e[1] == 45);
            assert(input[pos + 2] == e[2] && e[2] == 49);
            assert(input[pos + 3] == e[3] && e[3] == 13);
            assert(input[pos + 4] == e[4] && e[4] == 10);
            lemma_find_cr_at(input, pos + 1, pos + 3);
            assert(input.subrange(pos + 1, pos + 3) =~= seq![45u8, 49u8]);
            assert(spec_parse_line(input, pos + 1) == (ParsedLine::Line {
                content: input.subrange(pos + 1, pos + 3),
                next: pos + 5,
            }));
        },
    }
}

/// Parsing at the start of the concatenated encodings of `items` finds
/// exactly those frames, whatever bytes follow.
pub proof fn lemma_parse_encode_items(input: Seq<u8>, pos: int, items: Seq<RespData>)
    requires
        forall|i: int| 0 <= i < items.len() ==> data_wf(#[trigger] items[i]),
        items.len() <= u64::MAX,
        0 <= pos,
        pos + encode_items(items).len() <= input.len(),
        input.subrange(pos, pos + encode_items(items).len() as int) == encode_items(items),
    ensures
        spec_parse_items(input, pos, items.len()) == (ParsedItems::FoundItems {
            items,
            end: pos + encode_items(items).len(),
        }),
    decreases items,
{
    if items.len() == 0 {
        assert(items =~= Seq::<RespData>::empty());
    } else {
        let e = encode_items(items);
        let e1 = encode_data(items.first());
        let e2 = encode_items(items.drop_first());
        assert(e == e1 + e2);
        lemma_subrange_nested(input, pos, e, 0, e1.len() as int);
        assert forall|k: int| 0 <= k < e1.len() implies e.subrange(0, e1.len() as int)[k]
            == e1[k] by {
            assert(e[k] == e1[k]);
        }
        assert(e.subrange(0, e1.len() as int) =~= e1);
        assert(data_wf(items.first()));
        lemma_parse_encode(input, pos, items.first());
        let end1 = pos + e1.len();
        lemma_subrange_nested(input, pos, e, e1.len() as int, e.len() as int);
        assert forall|k: int| 0 <= k < e2.len() implies e.subrange(e1.len() as int, e.len() as int)[k]
            == e2[k] by {
            assert(e[e1.len() + k] == e2[k]);
        }
        assert(e.subrange(e1.len() as int, e.len() as int) =~= e2);
        assert(forall|i: int| 0 <= i < items.drop_first().len()
            ==> data_wf(#[trigger] items.drop_first()[i]));
        lemma_parse_encode_items(input, end1, items.drop_first());
        assert(seq![items.first()] + items.drop_first() =~= items);
        assert((items.len() - 1) as nat == items.drop_first().len());
    }
}

/// Round trip: the encoding of a well-formed frame decodes to exactly that
/// frame, consuming the whole encoding.
pub proof fn lemma_resp_round_trip(d: RespData)
    requires
        data_wf(d),
    ensures
        spec_parse(encode_data(d), 0) == (ParsedData::Found {
            d,
            end: encode_data(d).len() as int,
        }),
{
    let e = encode_data(d);
    assert(e.subrange(0, e.len() as int) =~= e);
    lemma_parse_encode(e, 0, d);
}


/// The frames commands travel in: an array of bulk strings.
pub open spec fn bulks_of(words: Seq<Seq<u8>>) -> Seq<RespData> {
    words.map_values(|w: Seq<u8>| RespData::Bulk(w))
}

/// Encodes an array of bulk strings holding exactly `words`.
pub fn bulk_array_frame(words: &Vec<Vec<u8>>) -> (r: Vec<u8>)
    ensures
        r@ == encode_data(RespData::Arr(bulks_of(words@.map_values(|w: Vec<u8>| w@)))),
{
    let mut items: Vec<RespValue> = Vec::new();
    let mut i: usize = 0;
    while i < words.len()
        invariant
            i <= words@.len(),
            items@.len() == i,
            forall|j: int|
                0 <= j < i ==> (#[trigger] items@[j]).dv() == RespData::Bulk(words@[j]@),
        decreases words@.len() - i,
    {
        items.push(RespValue::Bulk(crate::db::clone_bytes(&words[i])));
        i = i + 1;
    }
    let frame = encode_frame(&RespValue::Arr(items));
    proof {
        lemma_resp_seq_dv_len(items@);
        assert(resp_seq_dv(items@) =~= bulks_of(words@.map_values(|w: Vec<u8>| w@)));
    }
    frame
}

} // verus!
