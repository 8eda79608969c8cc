//! Reading back what was written: the RESP encoding of a value parses to that value.
use vstd::prelude::*;
use vstd::string::*;
use vstd::utf8::*;

use crate::decimal::{decimal, lemma_decimal, lemma_parse_decimal, signed_decimal};
use crate::resp::{
    crlf, find_crlf, spec_extract_bytes, spec_extract_length, spec_extract_line, spec_parse_elems,
    spec_parse_value, spec_serialize, spec_serialize_seq, ParseStep, RespValue,
};
use crate::resp_result::RESPError;

verus! {

broadcast use vstd::utf8::group_utf8_lib;

/// Whether no `\r\n` occurs in `b`.
pub open spec fn no_crlf(b: Seq<u8>) -> bool {
    forall|k: int| 0 < k < b.len() ==> !(#[trigger] b[k - 1] == 13 && b[k] == 10)
}

/// Whether a value can be written so that it reads back: a simple string holds no
/// `\r\n`, and every length and count fits a RESP length.
pub open spec fn is_encodable(v: RespValue) -> bool
    decreases v,
{
    match v {
        RespValue::Array(items) => items.len() <= i32::MAX && all_encodable(items),
        RespValue::BulkString(s) => encode_utf8(s).len() <= i32::MAX,
        RespValue::Null => true,
        RespValue::SimpleString(s) => no_crlf(encode_utf8(s)),
    }
}

/// Whether every value of a sequence can be written so that it reads back.
pub open spec fn all_encodable(items: Seq<RespValue>) -> bool
    decreases items,
{
    if items.len() == 0 {
        true
    } else {
        is_encodable(items[0]) && all_encodable(items.drop_first())
    }
}

/// Whether the bytes of `buf` from `i` on start with `bytes`.
pub open spec fn holds_at(buf: Seq<u8>, i: int, bytes: Seq<u8>) -> bool {
    &&& 0 <= i
    &&& i + bytes.len() <= buf.len()
    &&& forall|k: int| 0 <= k < bytes.len() ==> #[trigger] buf[i + k] == bytes[k]
}

proof fn lemma_holds_at_split(buf: Seq<u8>, i: int, a: Seq<u8>, b: Seq<u8>)
    requires
        holds_at(buf, i, a + b),
    ensures
        holds_at(buf, i, a),
        holds_at(buf, i + a.len(), b),
{
    assert forall|k: int| 0 <= k < a.len() implies #[trigger] buf[i + k] == a[k] by {
        assert((a + b)[k] == a[k]);
    }
    assert forall|k: int| 0 <= k < b.len() implies #[trigger] buf[i + a.len() + k] == b[k] by {
        assert((a + b)[a.len() + k] == b[k]);
        assert(buf[i + (a.len() + k)] == (a + b)[a.len() + k]);
    }
}

proof fn lemma_holds_at_subrange(buf: Seq<u8>, i: int, a: Seq<u8>)
    requires
        holds_at(buf, i, a),
    ensures
        buf.subrange(i, i + a.len()) == a,
{
    assert(buf.subrange(i, i + a.len()) =~= a) by {
        assert forall|k: int| 0 <= k < a.len() implies #[trigger] buf.subrange(i, i + a.len())[k]
            == a[k] by {
            assert(buf[i + k] == a[k]);
        }
    }
}

proof fn lemma_find_crlf_skip(buf: Seq<u8>, from: int, to: int)
    requires
        1 <= from <= to < buf.len(),
        buf[to - 1] == 13 && buf[to] == 10,
        forall|j: int| from <= j < to ==> !(#[trigger] buf[j - 1] == 13 && buf[j] == 10),
    ensures
        find_crlf(buf, from) == Some(to),
    decreases to - from,
{
    if from < to {
        assert(!(buf[from - 1] == 13 && buf[from] == 10));
        lemma_find_crlf_skip(buf, from + 1, to);
    }
}

/// A line holding `content`, which has no `\r\n`, followed by `\r\n`, reads as `content`.
proof fn lemma_read_line(buf: Seq<u8>, a: int, content: Seq<u8>)
    requires
        no_crlf(content),
        holds_at(buf, a, content + crlf()),
    ensures
        spec_extract_line(buf, a) == (
            Ok::<Seq<u8>, RESPError>(content),
            a + content.len() + 2,
        ),
{
    lemma_holds_at_split(buf, a, content, crlf());
    let m = content.len() as int;
    assert(buf[a + m + 0] == crlf()[0]);
    assert(buf[a + m + 1] == crlf()[1]);
    assert forall|j: int| a + 1 <= j < a + m + 1 implies !(#[trigger] buf[j - 1] == 13 && buf[j]
        == 10) by {
        if j < a + m {
            assert(buf[a + (j - a - 1)] == content[j - a - 1]);
            assert(buf[a + (j - a)] == content[j - a]);
            assert(content[(j - a) - 1] == content[j - a - 1]);
        } else {
            assert(buf[a + m + 0] == 13);
        }
    }
    lemma_find_crlf_skip(buf, a + 1, a + m + 1);
    lemma_holds_at_subrange(buf, a, content);
}

/// The text `Display` writes for an integer holds no `\r\n`.
proof fn lemma_decimal_text(v: int)
    ensures
        no_crlf(encode_utf8(signed_decimal(v))),
        is_ascii_chars(signed_decimal(v)),
        encode_utf8(signed_decimal(v)).len() == signed_decimal(v).len(),
        signed_decimal(v).len() > 0,
{
    let m: nat = if v < 0 {
        (-v) as nat
    } else {
        v as nat
    };
    lemma_decimal(m);
    let t = signed_decimal(v);
    if v < 0 {
        assert forall|i: int| 0 <= i < t.len() implies '\0' <= #[trigger] t[i] <= '\u{7f}' by {
            if i > 0 {
                assert(t[i] == decimal(m)[i - 1]);
            }
        }
    }
    let e = encode_utf8(t);
    is_ascii_chars_encode_utf8(t);
    assert forall|k: int| 0 <= k < t.len() implies #[trigger] e[k] != 13 by {
        assert(t[k] as u8 == e[k]);
        if v < 0 && k == 0 {
            assert(t[k] == '-');
        } else if v < 0 {
            assert(t[k] == decimal(m)[k - 1]);
            assert(crate::decimal::is_digit(decimal(m)[k - 1]));
        } else {
            assert(crate::decimal::is_digit(decimal(m)[k]));
        }
    }
    assert forall|k: int| 0 < k < e.len() implies !(#[trigger] e[k - 1] == 13 && e[k] == 10) by {
        assert(e[k - 1] != 13);
    }
}

/// A line holding the decimal text of a RESP length reads as that length.
proof fn lemma_read_length(buf: Seq<u8>, a: int, v: int)
    requires
        i32::MIN <= v <= i32::MAX,
        holds_at(buf, a, encode_utf8(signed_decimal(v)) + crlf()),
    ensures
        spec_extract_length(buf, a) == (
            Ok::<int, RESPError>(v),
            a + encode_utf8(signed_decimal(v)).len() + 2,
        ),
{
    lemma_decimal_text(v);
    lemma_read_line(buf, a, encode_utf8(signed_decimal(v)));
    lemma_parse_decimal(v, i32::MIN as int, i32::MAX as int);
}

proof fn lemma_serialize_seq_front(items: Seq<RespValue>)
    requires
        items.len() > 0,
    ensures
        spec_serialize_seq(items) == spec_serialize(items[0]) + spec_serialize_seq(
            items.drop_first(),
        ),
    decreases items.len(),
{
    if items.len() == 1 {
        assert(items.drop_last() =~= Seq::<RespValue>::empty());
        assert(items.drop_first() =~= Seq::<RespValue>::empty());
        assert(spec_serialize_seq(items.drop_last()) =~= Seq::<u8>::empty());
        assert(spec_serialize_seq(items.drop_first()) =~= Seq::<u8>::empty());
        assert(items.last() == items[0]);
        assert(spec_serialize_seq(items) =~= spec_serialize(items[0]));
    } else {
        let init = items.drop_last();
        lemma_serialize_seq_front(init);
        assert(init.drop_first() =~= items.drop_first().drop_last());
        assert(items.drop_first().last() == items.last());
        assert(init[0] == items[0]);
        assert(spec_serialize_seq(items) =~= spec_serialize(items[0]) + spec_serialize_seq(
            items.drop_first(),
        ));
    }
}

/// The encoding of an encodable value, found at `i` of a buffer, reads back as the value,
/// and reading stops right after the encoding.
pub proof fn lemma_parse_encoded_value(v: RespValue, buf: Seq<u8>, i: int)
    requires
        is_encodable(v),
        holds_at(buf, i, spec_serialize(v)),
    ensures
        spec_parse_value(buf, i) == ParseStep::Done(v, i + spec_serialize(v).len()),
    decreases v,
{
    let enc = spec_serialize(v);
    assert(buf[i + 0] == enc[0]);
    match v {
        RespValue::SimpleString(s) => {
            let text = encode_utf8(s);
            assert(enc =~= seq![43u8] + (text + crlf()));
            lemma_holds_at_split(buf, i, seq![43u8], text + crlf());
            lemma_read_line(buf, i + 1, text);
        },
        RespValue::Null => {
            let minus_one = encode_utf8(signed_decimal(-1));
            lemma_decimal_text(-1);
            assert(signed_decimal(-1) =~= seq!['-', '1']) by {
                reveal_with_fuel(decimal, 1);
            }
            assert(minus_one =~= seq![45u8, 49u8]) by {
                assert(signed_decimal(-1)[0] as u8 == minus_one[0]);
                assert(signed_decimal(-1)[1] as u8 == minus_one[1]);
            }
            assert(enc =~= seq![36u8] + (minus_one + crlf()));
            lemma_holds_at_split(buf, i, seq![36u8], minus_one + crlf());
            lemma_read_length(buf, i + 1, -1);
        },
        RespValue::BulkString(s) => {
            let data = encode_utf8(s);
            let n = data.len() as int;
            let header = encode_utf8(decimal(n as nat));
            assert(signed_decimal(n) == decimal(n as nat));
            assert(enc =~= seq![36u8] + ((header + crlf()) + (data + crlf())));
            lemma_holds_at_split(buf, i, seq![36u8], (header + crlf()) + (data + crlf()));
            lemma_holds_at_split(buf, i + 1, header + crlf(), data + crlf());
            lemma_read_length(buf, i + 1, n);
            let j = i + 1 + header.len() + 2;
            lemma_holds_at_split(buf, j, data, crlf());
            lemma_holds_at_subrange(buf, j, data);
            assert(spec_extract_bytes(buf, j, n) == (Ok::<Seq<u8>, RESPError>(data), j + n));
        },
        RespValue::Array(items) => {
            let n = items.len() as int;
            let header = encode_utf8(decimal(n as nat));
            let body = spec_serialize_seq(items);
            assert(signed_decimal(n) == decimal(n as nat));
            assert(enc =~= seq![42u8] + ((header + crlf()) + body));
            lemma_holds_at_split(buf, i, seq![42u8], (header + crlf()) + body);
            lemma_holds_at_split(buf, i + 1, header + crlf(), body);
            lemma_read_length(buf, i + 1, n);
            let j = i + 1 + header.len() + 2;
            lemma_parse_encoded_elems(items, buf, j);
        },
    }
}

/// The encodings of encodable values, one after another from `i`, read back as those
/// values.
pub proof fn lemma_parse_encoded_elems(items: Seq<RespValue>, buf: Seq<u8>, i: int)
    requires
        all_encodable(items),
        holds_at(buf, i, spec_serialize_seq(items)),
    ensures
        spec_parse_elems(buf, i, items.len()) == ParseStep::Done(
            items,
            i + spec_serialize_seq(items).len(),
        ),
    decreases items,
{
    if items.len() == 0 {
        assert(spec_serialize_seq(items).len() == 0);
        assert(items =~= Seq::<RespValue>::empty());
    } else {
        let first = items[0];
        let rest = items.drop_first();
        lemma_serialize_seq_front(items);
        lemma_holds_at_split(buf, i, spec_serialize(first), spec_serialize_seq(rest));
        lemma_serialize_nonempty(first);
        lemma_parse_encoded_value(first, buf, i);
        let j = i + spec_serialize(first).len();
        lemma_parse_encoded_elems(rest, buf, j);
        assert(seq![first] + rest =~= items);
        assert((items.len() - 1) as nat == rest.len());
    }
}

proof fn lemma_serialize_nonempty(v: RespValue)
    ensures
        spec_serialize(v).len() > 0,
{
    assert(spec_serialize(v)[0] == spec_serialize(v)[0]);
}

/// Reading back the encoding of an encodable value gives the value, and stops right
/// after the encoding, whatever bytes stand before and after it.
pub proof fn law_read_what_was_written(v: RespValue, before: Seq<u8>, after: Seq<u8>)
    requires
        is_encodable(v),
    ensures
        spec_parse_value(before + spec_serialize(v) + after, before.len() as int)
            == ParseStep::Done(v, (before.len() + spec_serialize(v).len()) as int),
{
    let buf = before + spec_serialize(v) + after;
    let enc = spec_serialize(v);
    assert forall|k: int| 0 <= k < enc.len() implies #[trigger] buf[before.len() + k] == enc[k] by {}
    lemma_parse_encoded_value(v, buf, before.len() as int);
}

} // verus!
