//! Text helpers: UTF-8 decoding, lowercasing, joining words, and decimal text.
use vstd::prelude::*;
use vstd::string::*;
use vstd::utf8::*;

use crate::decimal::{decimal, signed_decimal, signed_decimal_bytes, push_decimal};

verus! {

broadcast use vstd::utf8::group_utf8_lib;

/// What `str::to_lowercase` returns for a string: the lowercase mapping of each
/// character as Unicode defines it.
pub uninterp spec fn spec_to_lowercase(s: Seq<char>) -> Seq<char>;

/// The lowercase of an ASCII character: `A` to `Z` become `a` to `z`, the rest stay.
pub open spec fn ascii_lower_char(c: char) -> char {
    if 'A' <= c <= 'Z' {
        ((c as u32) + 32) as char
    } else {
        c
    }
}

/// The lowercase of an ASCII text, character by character.
pub open spec fn ascii_lowercase(s: Seq<char>) -> Seq<char> {
    s.map_values(|c: char| ascii_lower_char(c))
}

/// `str::to_lowercase`: its result is the Unicode lowercase mapping of `s`, a function
/// of the characters of `s` alone; on an ASCII text that mapping turns `A` to `Z` into
/// `a` to `z` and keeps every other character.
#[verifier::external_body]
pub(crate) fn to_lowercase(s: &str) -> (r: String)
    ensures
        r@ == spec_to_lowercase(s@),
        is_ascii_chars(s@) ==> r@ == ascii_lowercase(s@),
{
    s.to_lowercase()
}

/// `String::from_utf8`: it succeeds exactly when the bytes are valid UTF-8, and then
/// holds the characters those bytes encode.
#[verifier::external_body]
pub(crate) fn string_from_utf8(bytes: Vec<u8>) -> (r: Option<String>)
    ensures
        r is Some <==> valid_utf8(bytes@),
        r matches Some(s) ==> s@ == decode_utf8(bytes@),
{
    String::from_utf8(bytes).ok()
}

/// The ASCII lowercase of an ASCII text is ASCII, and lowercasing it again changes nothing.
pub proof fn lemma_ascii_lowercase(s: Seq<char>)
    requires
        is_ascii_chars(s),
    ensures
        is_ascii_chars(ascii_lowercase(s)),
        ascii_lowercase(ascii_lowercase(s)) == ascii_lowercase(s),
{
    let l = ascii_lowercase(s);
    assert forall|i: int| 0 <= i < l.len() implies '\0' <= #[trigger] l[i] <= '\u{7f}' by {
        assert('\0' <= s[i] <= '\u{7f}');
    }
    assert(ascii_lowercase(l) =~= l);
}

/// The words of `words` separated by single spaces, as `[String]::join(" ")` builds them.
pub open spec fn join_words(words: Seq<Seq<char>>) -> Seq<char>
    decreases words.len(),
{
    if words.len() == 0 {
        Seq::empty()
    } else if words.len() == 1 {
        words[0]
    } else {
        join_words(words.drop_last()) + seq![' '] + words.last()
    }
}

/// The characters of each string of a sequence.
pub open spec fn strings_view(v: Seq<String>) -> Seq<Seq<char>> {
    v.map_values(|s: String| s@)
}

/// Joins the strings with single spaces between them.
pub fn join_with_spaces(parts: &Vec<String>) -> (r: String)
    ensures
        r@ == join_words(strings_view(parts@)),
{
    let ghost words = strings_view(parts@);
    let mut out = String::new();
    let mut i: usize = 0;
    while i < parts.len()
        invariant
            i <= parts.len(),
            words == strings_view(parts@),
            out@ == join_words(words.take(i as int)),
        decreases parts.len() - i,
    {
        let ghost before = words.take(i as int);
        if i > 0 {
            out.append(" ");
            proof {
                reveal_strlit(" ");
            }
        }
        out.append(parts[i].as_str());
        proof {
            let after = words.take(i + 1);
            assert(after.drop_last() =~= before);
            assert(after.last() == parts@[i as int]@);
            if i == 0 {
                assert(after =~= seq![parts@[0]@]);
                assert(out@ =~= join_words(after));
            } else {
                assert(out@ =~= join_words(after));
            }
        }
        i = i + 1;
    }
    assert(words.take(parts.len() as int) =~= words);
    out
}

/// The text `Display` writes for the integer `v`.
pub fn decimal_string(v: i64) -> (r: String)
    ensures
        r@ == signed_decimal(v as int),
{
    let bytes = signed_decimal_bytes(v);
    match string_from_utf8(bytes) {
        Some(s) => s,
        None => String::new(),
    }
}

/// The text `Display` writes for the unsigned integer `n`.
pub fn unsigned_decimal_string(n: u64) -> (r: String)
    ensures
        r@ == decimal(n as nat),
{
    let mut bytes: Vec<u8> = Vec::new();
    push_decimal(&mut bytes, n);
    assert(bytes@ =~= encode_utf8(decimal(n as nat)));
    match string_from_utf8(bytes) {
        Some(s) => s,
        None => String::new(),
    }
}

/// Whether `a` holds exactly the characters of `b`.
pub fn same_text(a: &String, b: &str) -> (r: bool)
    ensures
        r == (a@ == b@),
{
    let other = String::from_str(b);
    *a == other
}

} // verus!
