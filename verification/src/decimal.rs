//! Decimal integers as text: reading them the way Rust's `FromStr` does for the
//! integer types, and writing them the way `Display` does.
use vstd::prelude::*;
use vstd::string::*;
use vstd::utf8::*;

verus! {

broadcast use vstd::utf8::group_utf8_lib;

/// Whether `c` is one of the ASCII digits `0` to `9`.
pub open spec fn is_digit(c: char) -> bool {
    48 <= (c as u32) <= 57
}

/// The value of the digit `c`.
pub open spec fn digit_value(c: char) -> int {
    (c as u32) - 48
}

/// The digit character for a value below ten.
pub open spec fn digit_char(d: nat) -> char {
    ((d + 48) as u32) as char
}

/// Whether every character of `s` is a decimal digit.
pub open spec fn all_digits(s: Seq<char>) -> bool {
    forall|i: int| 0 <= i < s.len() ==> is_digit(#[trigger] s[i])
}

/// The number that a string of decimal digits writes, most significant digit first.
pub open spec fn digits_value(s: Seq<char>) -> int
    decreases s.len(),
{
    if s.len() == 0 {
        0
    } else {
        digits_value(s.drop_last()) * 10 + digit_value(s.last())
    }
}

/// What Rust's `FromStr` for an integer type whose values are `lo..=hi` reads from `s`:
/// an optional `+` (or, for a signed type, `-`) followed by at least one decimal digit,
/// giving a value within the type's range; anything else is refused.
pub open spec fn spec_parse_integer(s: Seq<char>, lo: int, hi: int) -> Option<int> {
    let neg = lo < 0 && s.len() > 0 && s[0] == '-';
    let digits = if s.len() > 0 && (s[0] == '+' || neg) {
        s.drop_first()
    } else {
        s
    };
    if digits.len() > 0 && all_digits(digits) {
        let v = if neg {
            -digits_value(digits)
        } else {
            digits_value(digits)
        };
        if lo <= v <= hi {
            Some(v)
        } else {
            None
        }
    } else {
        None
    }
}

/// The decimal digits of `n`, most significant first, with no leading zero.
pub open spec fn decimal(n: nat) -> Seq<char>
    decreases n,
{
    if n < 10 {
        seq![digit_char(n)]
    } else {
        decimal(n / 10).push(digit_char(n % 10))
    }
}

/// How `Display` writes the integer `v`: a `-` for a negative value, then its digits.
pub open spec fn signed_decimal(v: int) -> Seq<char> {
    if v < 0 {
        seq!['-'] + decimal((-v) as nat)
    } else {
        decimal(v as nat)
    }
}

proof fn lemma_digit_char(d: nat)
    requires
        d < 10,
    ensures
        is_digit(digit_char(d)),
        digit_value(digit_char(d)) == d,
        digit_char(d) as u8 == d + 48,
        ('\0' <= digit_char(d) <= '\u{7f}'),
{
}

/// The digits written for `n` are decimal digits that read back as `n`.
pub proof fn lemma_decimal(n: nat)
    ensures
        decimal(n).len() > 0,
        all_digits(decimal(n)),
        is_ascii_chars(decimal(n)),
        digits_value(decimal(n)) == n,
    decreases n,
{
    if n < 10 {
        lemma_digit_char(n);
        assert(decimal(n).drop_last() =~= Seq::<char>::empty());
        assert(digits_value(Seq::<char>::empty()) == 0);
    } else {
        lemma_decimal(n / 10);
        lemma_digit_char(n % 10);
        let s = decimal(n);
        assert(s.drop_last() =~= decimal(n / 10));
        assert(s.last() == digit_char(n % 10));
        assert(digits_value(s) == digits_value(decimal(n / 10)) * 10 + digit_value(s.last()));
        assert(n == (n / 10) * 10 + n % 10);
        assert forall|i: int| 0 <= i < s.len() implies is_digit(#[trigger] s[i]) by {
            if i < s.len() - 1 {
                assert(s[i] == decimal(n / 10)[i]);
            }
        }
        assert forall|i: int| 0 <= i < s.len() implies '\0' <= #[trigger] s[i] <= '\u{7f}' by {
            if i < s.len() - 1 {
                assert(s[i] == decimal(n / 10)[i]);
            }
        }
    }
}

/// Reading back what `Display` writes for a value in range gives the value.
pub proof fn lemma_parse_decimal(v: int, lo: int, hi: int)
    requires
        lo <= v <= hi,
    ensures
        spec_parse_integer(signed_decimal(v), lo, hi) == Some(v),
{
    if v < 0 {
        let m = (-v) as nat;
        lemma_decimal(m);
        let s = signed_decimal(v);
        assert(s.drop_first() =~= decimal(m));
    } else {
        lemma_decimal(v as nat);
        lemma_digit_char(0);
    }
}

proof fn lemma_digits_prefix_le(s: Seq<char>, k: int)
    requires
        all_digits(s),
        0 <= k <= s.len(),
    ensures
        0 <= digits_value(s.subrange(0, k)) <= digits_value(s),
    decreases s.len(),
{
    if s.len() == 0 {
        assert(s.subrange(0, k) =~= s);
    } else if k == s.len() {
        assert(s.subrange(0, k) =~= s);
        lemma_digits_prefix_le(s.drop_last(), s.len() - 1);
        assert(s.drop_last().subrange(0, s.len() - 1) =~= s.drop_last());
    } else {
        let t = s.drop_last();
        assert forall|i: int| 0 <= i < t.len() implies is_digit(#[trigger] t[i]) by {
            assert(t[i] == s[i]);
        }
        lemma_digits_prefix_le(t, k);
        assert(t.subrange(0, k) =~= s.subrange(0, k));
        lemma_digits_prefix_le(t, t.len() as int);
        assert(t.subrange(0, t.len() as int) =~= t);
        assert(is_digit(s[s.len() - 1]));
    }
}

/// Reads an integer from `s` the way `FromStr` does for an integer type whose values
/// are `lo..=hi`.
pub fn parse_integer(s: &str, lo: i128, hi: i128) -> (r: Option<i128>)
    requires
        -0x1_0000_0000_0000_0000 <= lo <= 0 <= hi <= 0x1_0000_0000_0000_0000,
    ensures
        match r {
            Some(v) => spec_parse_integer(s@, lo as int, hi as int) == Some(v as int),
            None => spec_parse_integer(s@, lo as int, hi as int) is None,
        },
{
    let n = s.unicode_len();
    let ghost sv = s@;
    let mut start: usize = 0;
    let mut neg: bool = false;
    if n > 0 {
        let c0 = s.get_char(0);
        if c0 == '+' {
            start = 1;
        } else if lo < 0 && c0 == '-' {
            start = 1;
            neg = true;
        }
    }
    let ghost digits = sv.subrange(start as int, n as int);
    assert(digits =~= (if sv.len() > 0 && (sv[0] == '+' || (lo < 0 && sv[0] == '-')) {
        sv.drop_first()
    } else {
        sv
    }));
    if start == n {
        return None;
    }
    let limit: u128 = 0x2_0000_0000_0000_0000;
    let mut acc: u128 = 0;
    let mut i: usize = start;
    while i < n
        invariant
            sv == s@,
            n == sv.len(),
            start <= i <= n,
            start < n,
            digits == sv.subrange(start as int, n as int),
            all_digits(sv.subrange(start as int, i as int)),
            acc as int == digits_value(sv.subrange(start as int, i as int)),
            acc <= limit,
            limit == 0x2_0000_0000_0000_0000,
            -0x1_0000_0000_0000_0000 <= lo <= 0 <= hi <= 0x1_0000_0000_0000_0000,
            neg == (lo < 0 && sv.len() > 0 && sv[0] == '-'),
            digits == (if sv.len() > 0 && (sv[0] == '+' || (lo < 0 && sv[0] == '-')) {
                sv.drop_first()
            } else {
                sv
            }),
        decreases n - i,
    {
        let c = s.get_char(i);
        let cu = c as u32;
        if !(48 <= cu && cu <= 57) {
            assert(digits[i - start] == c);
            assert(!is_digit(digits[i - start]));
            return None;
        }
        let d = (cu - 48) as u128;
        let ghost prev = sv.subrange(start as int, i as int);
        let ghost next = sv.subrange(start as int, i + 1);
        assert(next.drop_last() =~= prev);
        assert forall|k: int| 0 <= k < next.len() implies is_digit(#[trigger] next[k]) by {
            if k < prev.len() {
                assert(next[k] == prev[k]);
            }
        }
        acc = acc * 10 + d;
        assert(next.last() == c);
        assert(acc as int == digits_value(next));
        i = i + 1;
        if acc > limit {
            proof {
                if all_digits(digits) {
                    lemma_digits_prefix_le(digits, i - start);
                    assert(digits.subrange(0, i - start) =~= next);
                    assert(digits_value(digits) > limit);
                }
            }
            return None;
        }
    }
    assert(sv.subrange(start as int, i as int) =~= digits);
    let v: i128 = if neg {
        -(acc as i128)
    } else {
        acc as i128
    };
    if lo <= v && v <= hi {
        Some(v)
    } else {
        None
    }
}

/// Appends the decimal digits of `n` to `out`, as bytes.
pub fn push_decimal(out: &mut Vec<u8>, n: u64)
    ensures
        final(out)@ == old(out)@ + encode_utf8(decimal(n as nat)),
    decreases n,
{
    proof {
        lemma_decimal(n as nat);
    }
    let ghost before = out@;
    if n >= 10 {
        push_decimal(out, n / 10);
        proof {
            lemma_decimal((n / 10) as nat);
        }
    }
    let d: u8 = (n % 10) as u8;
    out.push(48 + d);
    proof {
        lemma_digit_char(d as nat);
        let ds = decimal(n as nat);
        let enc = encode_utf8(ds);
        assert(enc.len() == ds.len());
        if n >= 10 {
            let pre = decimal((n / 10) as nat);
            assert(ds == pre.push(digit_char((n % 10) as nat)));
            assert(encode_utf8(pre).len() == pre.len());
            assert forall|i: int| 0 <= i < enc.len() implies #[trigger] out@[before.len() + i]
                == enc[i] by {
                if i < pre.len() {
                    assert(ds[i] == pre[i]);
                    assert(ds[i] as u8 == enc[i]);
                    assert(pre[i] as u8 == encode_utf8(pre)[i]);
                }
            }
            assert(out@ =~= before + enc);
        } else {
            assert(ds[0] as u8 == enc[0]);
            assert(out@ =~= before + enc);
        }
    }
}

/// The decimal text of `v`, with a leading `-` when it is negative.
pub fn signed_decimal_bytes(v: i64) -> (r: Vec<u8>)
    ensures
        r@ == encode_utf8(signed_decimal(v as int)),
{
    let mut out: Vec<u8> = Vec::new();
    if v < 0 {
        out.push(45u8);
        let m: u64 = if v == i64::MIN {
            0x8000_0000_0000_0000u64
        } else {
            (-v) as u64
        };
        push_decimal(&mut out, m);
        proof {
            let ds = decimal(m as nat);
            lemma_decimal(m as nat);
            let whole = seq!['-'] + ds;
            assert(is_ascii_chars(whole)) by {
                assert forall|i: int| 0 <= i < whole.len() implies '\0' <= #[trigger] whole[i]
                    <= '\u{7f}' by {
                    if i > 0 {
                        assert(whole[i] == ds[i - 1]);
                    }
                }
            }
            let enc = encode_utf8(whole);
            assert(enc.len() == whole.len());
            assert(encode_utf8(ds).len() == ds.len());
            assert forall|i: int| 0 <= i < enc.len() implies #[trigger] out@[i] == enc[i] by {
                assert(whole[i] as u8 == enc[i]);
                if i > 0 {
                    assert(whole[i] == ds[i - 1]);
                    assert(ds[i - 1] as u8 == encode_utf8(ds)[i - 1]);
                }
            }
            assert(out@ =~= enc);
        }
    } else {
        push_decimal(&mut out, v as u64);
    }
    assert(out@ =~= encode_utf8(signed_decimal(v as int)));
    out
}

} // verus!
