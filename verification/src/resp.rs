//! The RESP wire format: reading values out of a byte buffer, and writing them back.
use vstd::prelude::*;
use vstd::string::*;
use vstd::utf8::*;

use crate::decimal::{decimal, parse_integer, push_decimal, spec_parse_integer};
use crate::resp_result::{RESPError, RESPLength, RESPResult};
use crate::text::string_from_utf8;

verus! {

broadcast use vstd::std_specs::vec::group_vec_axioms;

/// A RESP value.
#[derive(Debug, PartialEq)]
pub enum RESP {
    Array(Vec<RESP>),
    BulkString(String),
    Null,
    SimpleString(String),
}

/// The mathematical content of a RESP value: strings as characters, arrays as sequences.
pub enum RespValue {
    Array(Seq<RespValue>),
    BulkString(Seq<char>),
    Null,
    SimpleString(Seq<char>),
}

/// The content of a RESP value.
pub open spec fn resp_view(r: RESP) -> RespValue
    decreases r,
{
    match r {
        RESP::Array(v) => RespValue::Array(resp_seq_view(v@)),
        RESP::BulkString(s) => RespValue::BulkString(s@),
        RESP::Null => RespValue::Null,
        RESP::SimpleString(s) => RespValue::SimpleString(s@),
    }
}

/// The contents of a sequence of RESP values.
pub open spec fn resp_seq_view(s: Seq<RESP>) -> Seq<RespValue>
    decreases s,
{
    if s.len() == 0 {
        Seq::empty()
    } else {
        resp_seq_view(s.drop_last()).push(resp_view(s.last()))
    }
}

impl View for RESP {
    type V = RespValue;

    open spec fn view(&self) -> RespValue {
        resp_view(*self)
    }
}

pub proof fn lemma_resp_seq_view(s: Seq<RESP>)
    ensures
        resp_seq_view(s).len() == s.len(),
        forall|k: int| 0 <= k < s.len() ==> #[trigger] resp_seq_view(s)[k] == resp_view(s[k]),
    decreases s.len(),
{
    if s.len() > 0 {
        lemma_resp_seq_view(s.drop_last());
        assert forall|k: int| 0 <= k < s.len() implies #[trigger] resp_seq_view(s)[k] == resp_view(
            s[k],
        ) by {
            if k < s.len() - 1 {
                assert(s.drop_last()[k] == s[k]);
            }
        }
    }
}


/// The outcome of reading a value that starts at some index of a buffer: the value and
/// the index after it, an error and the index reached, or an index past the end of the
/// buffer where a value's first byte should stand.
pub enum ParseStep<T> {
    Done(T, int),
    Failed(RESPError, int),
    Stuck,
}

/// The first `j` at or after `from` such that `\r\n` ends at `j`.
pub open spec fn find_crlf(buf: Seq<u8>, from: int) -> Option<int>
    decreases buf.len() - from,
{
    if from >= buf.len() {
        None
    } else if buf[from - 1] == 13 && buf[from] == 10 {
        Some(from)
    } else {
        find_crlf(buf, from + 1)
    }
}

pub proof fn lemma_find_crlf_range(buf: Seq<u8>, from: int)
    ensures
        find_crlf(buf, from) matches Some(j) ==> from <= j < buf.len() && buf[j - 1] == 13
            && buf[j] == 10,
    decreases buf.len() - from,
{
    if from < buf.len() && !(buf[from - 1] == 13 && buf[from] == 10) {
        lemma_find_crlf_range(buf, from + 1);
    }
}

/// Reading the line that starts at `i`: the bytes before the first `\r\n`, and the index
/// after that `\r\n`.
pub open spec fn spec_extract_line(buf: Seq<u8>, i: int) -> (Result<Seq<u8>, RESPError>, int) {
    if i >= buf.len() {
        (Err(RESPError::OutOfBounds(i as usize)), i)
    } else {
        match find_crlf(buf, i + 1) {
            Some(j) => (Ok(buf.subrange(i, j - 1)), j + 1),
            None => (Err(RESPError::OutOfBounds(buf.len() as usize)), buf.len() as int),
        }
    }
}

/// Reading the line that starts at `i` as UTF-8 text.
pub open spec fn spec_extract_line_as_string(buf: Seq<u8>, i: int) -> (
    Result<Seq<char>, RESPError>,
    int,
) {
    let (line, j) = spec_extract_line(buf, i);
    match line {
        Ok(bytes) => if valid_utf8(bytes) {
            (Ok(decode_utf8(bytes)), j)
        } else {
            (Err(RESPError::FromUtf8), j)
        },
        Err(e) => (Err(e), j),
    }
}

/// Reading the line that starts at `i` as a length.
pub open spec fn spec_extract_length(buf: Seq<u8>, i: int) -> (Result<int, RESPError>, int) {
    let (line, j) = spec_extract_line_as_string(buf, i);
    match line {
        Ok(text) => match spec_parse_integer(text, i32::MIN as int, i32::MAX as int) {
            Some(n) => (Ok(n), j),
            None => (Err(RESPError::ParseInt), j),
        },
        Err(e) => (Err(e), j),
    }
}

/// Reading `length` bytes that start at `i`.
pub open spec fn spec_extract_bytes(buf: Seq<u8>, i: int, length: int) -> (
    Result<Seq<u8>, RESPError>,
    int,
) {
    if i + length > buf.len() {
        (Err(RESPError::OutOfBounds(buf.len() as usize)), i)
    } else {
        (Ok(buf.subrange(i, i + length)), i + length)
    }
}

/// Reading a simple string `+TEXT\r\n` that starts at `i`.
pub open spec fn spec_parse_simple_string(buf: Seq<u8>, i: int) -> ParseStep<RespValue> {
    if i >= buf.len() {
        ParseStep::Stuck
    } else if buf[i] != 43 {
        ParseStep::Failed(RESPError::WrongType, i)
    } else {
        let (line, j) = spec_extract_line_as_string(buf, i + 1);
        match line {
            Ok(text) => ParseStep::Done(RespValue::SimpleString(text), j),
            Err(e) => ParseStep::Failed(e, j),
        }
    }
}

/// Reading a bulk string `$LENGTH\r\nDATA\r\n` that starts at `i`; the length `-1`
/// stands for the null value. The two bytes after the data are skipped unread.
pub open spec fn spec_parse_bulk_string(buf: Seq<u8>, i: int) -> ParseStep<RespValue> {
    if i >= buf.len() {
        ParseStep::Stuck
    } else if buf[i] != 36 {
        ParseStep::Failed(RESPError::WrongType, i)
    } else {
        let (header, j) = spec_extract_length(buf, i + 1);
        match header {
            Err(e) => ParseStep::Failed(e, j),
            Ok(n) => if n == -1 {
                ParseStep::Done(RespValue::Null, j)
            } else if n < -1 {
                ParseStep::Failed(RESPError::IncorrectLength(n as i32), j)
            } else {
                let (data, k) = spec_extract_bytes(buf, j, n);
                match data {
                    Err(e) => ParseStep::Failed(e, k),
                    Ok(bytes) => if valid_utf8(bytes) {
                        ParseStep::Done(RespValue::BulkString(decode_utf8(bytes)), k + 2)
                    } else {
                        ParseStep::Failed(RESPError::FromUtf8, k)
                    },
                }
            },
        }
    }
}

/// The bytes left from `i` on, as a measure of the work left.
pub open spec fn bytes_left(buf: Seq<u8>, i: int) -> int {
    if 0 <= i < buf.len() {
        buf.len() - i
    } else {
        0
    }
}

/// Puts `vs` in front of the values that a step read.
pub open spec fn prepend_values(vs: Seq<RespValue>, step: ParseStep<Seq<RespValue>>) -> ParseStep<
    Seq<RespValue>,
> {
    match step {
        ParseStep::Done(ws, j) => ParseStep::Done(vs + ws, j),
        ParseStep::Failed(e, j) => ParseStep::Failed(e, j),
        ParseStep::Stuck => ParseStep::Stuck,
    }
}

/// The array made of the values that a step read.
pub open spec fn array_of(step: ParseStep<Seq<RespValue>>) -> ParseStep<RespValue> {
    match step {
        ParseStep::Done(vs, k) => ParseStep::Done(RespValue::Array(vs), k),
        ParseStep::Failed(e, k) => ParseStep::Failed(e, k),
        ParseStep::Stuck => ParseStep::Stuck,
    }
}

/// Reading the value that starts at `i`, chosen by its first byte.
pub open spec fn spec_parse_value(buf: Seq<u8>, i: int) -> ParseStep<RespValue>
    decreases bytes_left(buf, i), 1int,
{
    if i < 0 || i >= buf.len() {
        ParseStep::Stuck
    } else if buf[i] == 43 {
        spec_parse_simple_string(buf, i)
    } else if buf[i] == 36 {
        spec_parse_bulk_string(buf, i)
    } else if buf[i] == 42 {
        spec_parse_array(buf, i)
    } else {
        ParseStep::Failed(RESPError::Unknown, i)
    }
}

/// Reading an array `*COUNT\r\n` followed by its elements, that starts at `i`.
pub open spec fn spec_parse_array(buf: Seq<u8>, i: int) -> ParseStep<RespValue>
    decreases bytes_left(buf, i), 0int,
{
    if i < 0 || i >= buf.len() {
        ParseStep::Stuck
    } else if buf[i] != 42 {
        ParseStep::Failed(RESPError::WrongType, i)
    } else {
        let (header, j) = spec_extract_length(buf, i + 1);
        match header {
            Err(e) => ParseStep::Failed(e, j),
            Ok(n) => if n < 0 {
                ParseStep::Failed(RESPError::IncorrectLength(n as i32), j)
            } else {
                proof {
                    lemma_find_crlf_range(buf, i + 2);
                }
                array_of(spec_parse_elems(buf, j, n as nat))
            },
        }
    }
}

/// Reading `n` values one after another, the first at `i`. Every value read takes at
/// least its first byte.
pub open spec fn spec_parse_elems(buf: Seq<u8>, i: int, n: nat) -> ParseStep<Seq<RespValue>>
    decreases bytes_left(buf, i), n + 2,
{
    if n == 0 {
        ParseStep::Done(Seq::empty(), i)
    } else if i < 0 || i >= buf.len() {
        ParseStep::Stuck
    } else {
        match spec_parse_value(buf, i) {
            ParseStep::Done(v, j) => if j > i {
                prepend_values(seq![v], spec_parse_elems(buf, j, (n - 1) as nat))
            } else {
                ParseStep::Stuck
            },
            ParseStep::Failed(e, j) => ParseStep::Failed(e, j),
            ParseStep::Stuck => ParseStep::Stuck,
        }
    }
}

/// The step that a parsing function took, from its result and the index it left.
pub open spec fn reached(r: RESPResult<RESP>, index: usize) -> ParseStep<RespValue> {
    match r {
        Ok(v) => ParseStep::Done(v@, index as int),
        Err(e) => ParseStep::Failed(e, index as int),
    }
}

/// As `reached`, where no result stands for an index past the end of the buffer.
pub open spec fn reached_or_stuck(r: Option<RESPResult<RESP>>, index: usize) -> ParseStep<
    RespValue,
> {
    match r {
        Some(x) => reached(x, index),
        None => ParseStep::Stuck,
    }
}

/// The bytes of a result.
pub open spec fn bytes_result(r: RESPResult<Vec<u8>>) -> Result<Seq<u8>, RESPError> {
    match r {
        Ok(v) => Ok(v@),
        Err(e) => Err(e),
    }
}

/// The characters of a result.
pub open spec fn text_result(r: RESPResult<String>) -> Result<Seq<char>, RESPError> {
    match r {
        Ok(s) => Ok(s@),
        Err(e) => Err(e),
    }
}

/// The number of a result.
pub open spec fn length_result(r: RESPResult<RESPLength>) -> Result<int, RESPError> {
    match r {
        Ok(n) => Ok(n as int),
        Err(e) => Err(e),
    }
}

/// A copy of `buffer[from..to]`.
fn copy_range(buffer: &[u8], from: usize, to: usize) -> (out: Vec<u8>)
    requires
        from <= to <= buffer@.len(),
    ensures
        out@ == buffer@.subrange(from as int, to as int),
{
    let mut out: Vec<u8> = Vec::new();
    let mut k = from;
    while k < to
        invariant
            from <= k <= to <= buffer@.len(),
            out@ == buffer@.subrange(from as int, k as int),
        decreases to - k,
    {
        out.push(buffer[k]);
        k = k + 1;
        assert(out@ =~= buffer@.subrange(from as int, k as int));
    }
    out
}

/// Reads the bytes from `index` up to the first `\r\n`, and moves `index` past that
/// `\r\n`. Without one, `index` moves to the end of the buffer.
pub fn binary_extract_line(buffer: &[u8], index: &mut usize) -> (r: RESPResult<Vec<u8>>)
    ensures
        bytes_result(r) == spec_extract_line(buffer@, *old(index) as int).0,
        *final(index) as int == spec_extract_line(buffer@, *old(index) as int).1,
{
    let start = *index;
    if start >= buffer.len() {
        return Err(RESPError::OutOfBounds(start));
    }
    let mut j: usize = start + 1;
    while j < buffer.len()
        invariant
            start == *old(index),
            *index == start,
            start < buffer@.len(),
            start + 1 <= j <= buffer@.len(),
            find_crlf(buffer@, start as int + 1) == find_crlf(buffer@, j as int),
        decreases buffer@.len() - j,
    {
        if buffer[j - 1] == 13 && buffer[j] == 10 {
            assert(find_crlf(buffer@, j as int) == Some(j as int));
            let out = copy_range(buffer, start, j - 1);
            *index = j + 1;
            return Ok(out);
        }
        j = j + 1;
    }
    *index = buffer.len();
    Err(RESPError::OutOfBounds(buffer.len()))
}

/// Reads the line from `index` as UTF-8 text, moving `index` as `binary_extract_line` does.
pub fn binary_extract_line_as_string(buffer: &[u8], index: &mut usize) -> (r: RESPResult<String>)
    ensures
        text_result(r) == spec_extract_line_as_string(buffer@, *old(index) as int).0,
        *final(index) as int == spec_extract_line_as_string(buffer@, *old(index) as int).1,
{
    let line = binary_extract_line(buffer, index)?;
    match string_from_utf8(line) {
        Some(text) => Ok(text),
        None => Err(RESPError::FromUtf8),
    }
}

/// Checks that the byte at `index` is the type marker `value`, and moves `index` past it.
pub fn resp_remove_type(value: char, buffer: &[u8], index: &mut usize) -> (r: RESPResult<()>)
    requires
        *old(index) < buffer@.len(),
    ensures
        buffer@[*old(index) as int] != value as u8 ==> r == Err::<(), RESPError>(
            RESPError::WrongType,
        ) && *final(index) == *old(index),
        buffer@[*old(index) as int] == value as u8 ==> r == Ok::<(), RESPError>(())
            && *final(index) == *old(index) + 1,
{
    if buffer[*index] != value as u8 {
        return Err(RESPError::WrongType);
    }
    *index = *index + 1;
    Ok(())
}

/// Reads the line from `index` as a decimal length, moving `index` as
/// `binary_extract_line` does.
pub fn resp_extract_length(buffer: &[u8], index: &mut usize) -> (r: RESPResult<RESPLength>)
    ensures
        length_result(r) == spec_extract_length(buffer@, *old(index) as int).0,
        *final(index) as int == spec_extract_length(buffer@, *old(index) as int).1,
{
    let line = binary_extract_line_as_string(buffer, index)?;
    match parse_integer(line.as_str(), i32::MIN as i128, i32::MAX as i128) {
        Some(n) => Ok(n as i32),
        None => Err(RESPError::ParseInt),
    }
}

/// Reads `length` bytes from `index`, moving `index` past them; when fewer are left, the
/// error gives the buffer's length and `index` stays.
pub fn binary_extract_bytes(buffer: &[u8], index: &mut usize, length: usize) -> (r: RESPResult<
    Vec<u8>,
>)
    requires
        *old(index) + length <= usize::MAX,
    ensures
        bytes_result(r) == spec_extract_bytes(buffer@, *old(index) as int, length as int).0,
        *final(index) as int == spec_extract_bytes(buffer@, *old(index) as int, length as int).1,
{
    if *index + length > buffer.len() {
        return Err(RESPError::OutOfBounds(buffer.len()));
    }
    let out = copy_range(buffer, *index, *index + length);
    *index = *index + length;
    Ok(out)
}

/// Reads a simple string `+TEXT\r\n` at `index`.
pub fn parse_simple_string(buffer: &[u8], index: &mut usize) -> (r: RESPResult<RESP>)
    requires
        *old(index) < buffer@.len(),
    ensures
        reached(r, *final(index)) == spec_parse_simple_string(buffer@, *old(index) as int),
        r is Ok ==> *old(index) < *final(index) <= buffer@.len() + 2,
{
    resp_remove_type('+', buffer, index)?;
    let line = binary_extract_line_as_string(buffer, index);
    proof {
        lemma_find_crlf_range(buffer@, *old(index) + 2);
    }
    Ok(RESP::SimpleString(line?))
}

/// Reads a bulk string `$LENGTH\r\nDATA\r\n` at `index`; the length `-1` gives `Null`.
pub fn parse_bulk_string(buffer: &[u8], index: &mut usize) -> (r: RESPResult<RESP>)
    requires
        *old(index) < buffer@.len(),
        buffer@.len() <= isize::MAX,
    ensures
        reached(r, *final(index)) == spec_parse_bulk_string(buffer@, *old(index) as int),
        r is Ok ==> *old(index) < *final(index) <= buffer@.len() + 2,
{
    resp_remove_type('$', buffer, index)?;
    let length = resp_extract_length(buffer, index)?;
    proof {
        lemma_find_crlf_range(buffer@, *old(index) + 2);
    }
    if length == -1 {
        return Ok(RESP::Null);
    }
    if length < -1 {
        return Err(RESPError::IncorrectLength(length));
    }
    let bytes = binary_extract_bytes(buffer, index, length as usize)?;
    let data = match string_from_utf8(bytes) {
        Some(text) => text,
        None => {
            return Err(RESPError::FromUtf8);
        },
    };
    *index = *index + 2;
    Ok(RESP::BulkString(data))
}

/// The kinds of value, told apart by their first byte.
enum RespKind {
    SimpleString,
    BulkString,
    Array,
}

/// The kind of the value whose first byte is at `index`.
fn parser_router(buffer: &[u8], index: &usize) -> (r: Option<RespKind>)
    requires
        *index < buffer@.len(),
    ensures
        r matches Some(RespKind::SimpleString) <==> buffer@[*index as int] == 43,
        r matches Some(RespKind::BulkString) <==> buffer@[*index as int] == 36,
        r matches Some(RespKind::Array) <==> buffer@[*index as int] == 42,
{
    match buffer[*index] {
        43 => Some(RespKind::SimpleString),
        36 => Some(RespKind::BulkString),
        42 => Some(RespKind::Array),
        _ => None,
    }
}

/// Reads the value at `index`; no result where an element of an array would start past
/// the end of the buffer.
fn parse_value(buffer: &[u8], index: &mut usize) -> (r: Option<RESPResult<RESP>>)
    requires
        *old(index) < buffer@.len(),
        buffer@.len() <= isize::MAX,
    ensures
        reached_or_stuck(r, *final(index)) == spec_parse_value(buffer@, *old(index) as int),
        r matches Some(Ok(_)) ==> *old(index) < *final(index) <= buffer@.len() + 2,
    decreases buffer@.len() - *old(index), 1int,
{
    match parser_router(buffer, index) {
        Some(RespKind::SimpleString) => Some(parse_simple_string(buffer, index)),
        Some(RespKind::BulkString) => Some(parse_bulk_string(buffer, index)),
        Some(RespKind::Array) => parse_array_elements(buffer, index),
        None => Some(Err(RESPError::Unknown)),
    }
}

/// Reads an array `*COUNT\r\n` and its elements at `index`; no result where an element
/// would start past the end of the buffer.
fn parse_array_elements(buffer: &[u8], index: &mut usize) -> (r: Option<RESPResult<RESP>>)
    requires
        *old(index) < buffer@.len(),
        buffer@.len() <= isize::MAX,
    ensures
        reached_or_stuck(r, *final(index)) == spec_parse_array(buffer@, *old(index) as int),
        r matches Some(Ok(_)) ==> *old(index) < *final(index) <= buffer@.len() + 2,
    decreases buffer@.len() - *old(index), 0int,
{
    let ghost start = *old(index) as int;
    match resp_remove_type('*', buffer, index) {
        Ok(()) => {},
        Err(e) => {
            return Some(Err(e));
        },
    }
    let length = match resp_extract_length(buffer, index) {
        Ok(n) => n,
        Err(e) => {
            return Some(Err(e));
        },
    };
    proof {
        lemma_find_crlf_range(buffer@, start + 2);
    }
    if length < 0 {
        return Some(Err(RESPError::IncorrectLength(length)));
    }
    let ghost total = spec_parse_elems(buffer@, *index as int, length as nat);
    let mut data: Vec<RESP> = Vec::new();
    let mut k: i32 = 0;
    while k < length
        invariant
            start == *old(index) as int,
            spec_parse_array(buffer@, start) == array_of(total),
            0 <= k <= length,
            start < *index <= buffer@.len() + 2,
            buffer@.len() <= isize::MAX,
            resp_seq_view(data@).len() == data@.len(),
            total == prepend_values(
                resp_seq_view(data@),
                spec_parse_elems(buffer@, *index as int, (length - k) as nat),
            ),
        decreases length - k,
    {
        if *index >= buffer.len() {
            return None;
        }
        let ghost before = *index as int;
        let ghost rest = spec_parse_elems(buffer@, before, (length - k - 1) as nat);
        match parse_value(buffer, index) {
            None => {
                return None;
            },
            Some(Err(e)) => {
                return Some(Err(e));
            },
            Some(Ok(v)) => {
                let ghost old_view = resp_seq_view(data@);
                let ghost old_data = data@;
                data.push(v);
                proof {
                    assert(data@.drop_last() =~= old_data);
                }
                proof {
                    assert(resp_seq_view(data@) == old_view.push(v@));
                    let next = spec_parse_elems(buffer@, *index as int, (length - (k + 1)) as nat);
                    match next {
                        ParseStep::Done(ws, e) => {
                            assert(old_view + (seq![v@] + ws) =~= old_view.push(v@) + ws);
                        },
                        _ => {},
                    }
                }
            },
        }
        k = k + 1;
    }
    proof {
        assert(resp_seq_view(data@) + Seq::<RespValue>::empty() =~= resp_seq_view(data@));
    }
    Some(Ok(RESP::Array(data)))
}

/// Reads an array `*COUNT\r\n` and its elements at `index`.
pub fn parse_array(buffer: &[u8], index: &mut usize) -> (r: RESPResult<RESP>)
    requires
        *old(index) < buffer@.len(),
        buffer@.len() <= isize::MAX,
        !(spec_parse_array(buffer@, *old(index) as int) is Stuck),
    ensures
        reached(r, *final(index)) == spec_parse_array(buffer@, *old(index) as int),
{
    match parse_array_elements(buffer, index) {
        Some(r) => r,
        None => Err(RESPError::Unknown),
    }
}

/// Reads the value at `index`, of the kind its first byte gives.
pub fn bytes_to_resp(buffer: &[u8], index: &mut usize) -> (r: RESPResult<RESP>)
    requires
        *old(index) < buffer@.len(),
        buffer@.len() <= isize::MAX,
        !(spec_parse_value(buffer@, *old(index) as int) is Stuck),
    ensures
        reached(r, *final(index)) == spec_parse_value(buffer@, *old(index) as int),
{
    match parse_value(buffer, index) {
        Some(r) => r,
        None => Err(RESPError::Unknown),
    }
}

/// Reads the value at `index` as `bytes_to_resp` does, and gives no result exactly where
/// a value would have to start past the end of the buffer.
pub fn bytes_to_resp_checked(buffer: &[u8], index: &mut usize) -> (r: Option<RESPResult<RESP>>)
    requires
        buffer@.len() <= isize::MAX,
    ensures
        reached_or_stuck(r, *final(index)) == spec_parse_value(buffer@, *old(index) as int),
{
    if *index >= buffer.len() {
        return None;
    }
    parse_value(buffer, index)
}

/// The bytes `\r\n`.
pub open spec fn crlf() -> Seq<u8> {
    seq![13u8, 10u8]
}

/// The RESP encoding of a value: `+TEXT\r\n`, `$LENGTH\r\nDATA\r\n` with the data's length
/// in bytes, `$-1\r\n` for null, and `*COUNT\r\n` followed by the elements.
pub open spec fn spec_serialize(v: RespValue) -> Seq<u8>
    decreases v,
{
    match v {
        RespValue::Array(items) => seq![42u8] + encode_utf8(decimal(items.len())) + crlf()
            + spec_serialize_seq(items),
        RespValue::BulkString(s) => seq![36u8] + encode_utf8(decimal(encode_utf8(s).len())) + crlf()
            + encode_utf8(s) + crlf(),
        RespValue::Null => seq![36u8, 45u8, 49u8, 13u8, 10u8],
        RespValue::SimpleString(s) => seq![43u8] + encode_utf8(s) + crlf(),
    }
}

/// The encodings of a sequence of values, one after another.
pub open spec fn spec_serialize_seq(items: Seq<RespValue>) -> Seq<u8>
    decreases items,
{
    if items.len() == 0 {
        Seq::empty()
    } else {
        spec_serialize_seq(items.drop_last()) + spec_serialize(items.last())
    }
}

/// Appends `bytes` to `out`.
fn push_bytes(out: &mut Vec<u8>, bytes: &[u8])
    ensures
        final(out)@ == old(out)@ + bytes@,
{
    let ghost start = out@;
    let mut k: usize = 0;
    while k < bytes.len()
        invariant
            k <= bytes@.len(),
            out@ == start + bytes@.subrange(0, k as int),
        decreases bytes@.len() - k,
    {
        out.push(bytes[k]);
        k = k + 1;
        assert(out@ =~= start + bytes@.subrange(0, k as int));
    }
    assert(bytes@.subrange(0, k as int) =~= bytes@);
}

impl RESP {
    /// The RESP encoding of this value, as sent over the wire.
    pub fn to_bytes(&self) -> (r: Vec<u8>)
        ensures
            r@ == spec_serialize(self@),
    {
        let mut out: Vec<u8> = Vec::new();
        self.write_to(&mut out);
        assert(out@ =~= spec_serialize(self@));
        out
    }

    /// Appends the RESP encoding of this value to `out`.
    fn write_to(&self, out: &mut Vec<u8>)
        ensures
            final(out)@ == old(out)@ + spec_serialize(self@),
        decreases self,
    {
        let ghost start = out@;
        match self {
            RESP::Array(data) => {
                out.push(42u8);
                push_decimal(out, data.len() as u64);
                out.push(13u8);
                out.push(10u8);
                let ghost head = out@;
                proof {
                    lemma_resp_seq_view(data@);
                    assert(head =~= start + (seq![42u8] + encode_utf8(decimal(data@.len())) + crlf()));
                    assert(resp_seq_view(data@.take(0)) =~= Seq::<RespValue>::empty());
                }
                let mut i: usize = 0;
                while i < data.len()
                    invariant
                        *self == RESP::Array(*data),
                        i <= data@.len(),
                        out@ == head + spec_serialize_seq(resp_seq_view(data@.take(i as int))),
                    decreases data@.len() - i,
                {
                    proof {
                        let v = *data;
                        assert(decreases_to!(v => v[i as int]));
                        assert(decreases_to!(*self => (*self)->Array_0));
                        assert((*self)->Array_0 == v);
                        assert(decreases_to!(*self => data@[i as int]));
                    }
                    data[i].write_to(out);
                    proof {
                        let pre = data@.take(i as int);
                        let post = data@.take(i + 1);
                        assert(post.drop_last() =~= pre);
                        assert(post.last() == data@[i as int]);
                        assert(resp_seq_view(post) == resp_seq_view(pre).push(resp_view(data@[i as int])));
                        assert(resp_seq_view(pre).push(resp_view(data@[i as int])).drop_last() =~= resp_seq_view(pre));
                    }
                    i = i + 1;
                    assert(out@ =~= head + spec_serialize_seq(resp_seq_view(data@.take(i as int))));
                }
                proof {
                    assert(data@.take(i as int) =~= data@);
                }
                assert(out@ =~= start + spec_serialize(self@));
            },
            RESP::BulkString(data) => {
                let bytes = data.as_str().as_bytes();
                out.push(36u8);
                push_decimal(out, bytes.len() as u64);
                out.push(13u8);
                out.push(10u8);
                push_bytes(out, bytes);
                out.push(13u8);
                out.push(10u8);
                assert(out@ =~= start + spec_serialize(self@));
            },
            RESP::Null => {
                out.push(36u8);
                out.push(45u8);
                out.push(49u8);
                out.push(13u8);
                out.push(10u8);
                assert(out@ =~= start + spec_serialize(self@));
            },
            RESP::SimpleString(data) => {
                let bytes = data.as_str().as_bytes();
                out.push(43u8);
                push_bytes(out, bytes);
                out.push(13u8);
                out.push(10u8);
                assert(out@ =~= start + spec_serialize(self@));
            },
        }
    }
}

} // verus!
