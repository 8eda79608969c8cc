//! The options of the SET command.
use vstd::prelude::*;

use crate::decimal::{all_digits, is_digit, parse_integer, spec_parse_integer};
use crate::storage_result::{StorageError, StorageErrorView, StorageResult};
use crate::text::{
    ascii_lower_char, ascii_lowercase, join_with_spaces, join_words, lemma_ascii_lowercase, same_text,
    spec_to_lowercase, strings_view, to_lowercase,
};
use vstd::utf8::is_ascii_chars;

verus! {

/// Whether the key must be absent (`NX`) or present (`XX`).
#[derive(Debug, PartialEq, Eq, Structural, Clone, Copy)]
pub enum KeyExistence {
    NX,
    XX,
}

/// How long the key lives: seconds (`EX`) or milliseconds (`PX`).
#[derive(Debug, PartialEq, Eq, Structural, Clone, Copy)]
pub enum KeyExpiry {
    EX(u64),
    PX(u64),
}

/// The options given to SET.
#[derive(Debug, PartialEq, Eq)]
pub struct SetArgs {
    pub expiry: Option<KeyExpiry>,
    pub existence: Option<KeyExistence>,
    pub get: bool,
}

/// SET with no option.
pub open spec fn no_set_args() -> SetArgs {
    SetArgs { expiry: None, existence: None, get: false }
}

impl SetArgs {
    /// The options of a SET that names none.
    pub fn new() -> (r: Self)
        ensures
            r == no_set_args(),
    {
        SetArgs { expiry: None, existence: None, get: false }
    }
}

/// One option: `word` is the lowercase of the argument at `idx`, `acc` the options read
/// before it. The index of the next option and the options read so far, or no result
/// where the options are malformed. `NX` and `XX` exclude each other, as do `EX` and
/// `PX`; `EX` and `PX` take the next argument as an unsigned 64-bit number.
pub open spec fn spec_set_option(word: Seq<char>, args: Seq<Seq<char>>, idx: int, acc: SetArgs) -> Option<
    (int, SetArgs),
> {
    if word == "nx"@ {
        if acc.existence == Some(KeyExistence::XX) {
            None
        } else {
            Some((idx + 1, SetArgs { existence: Some(KeyExistence::NX), ..acc }))
        }
    } else if word == "xx"@ {
        if acc.existence == Some(KeyExistence::NX) {
            None
        } else {
            Some((idx + 1, SetArgs { existence: Some(KeyExistence::XX), ..acc }))
        }
    } else if word == "get"@ {
        Some((idx + 1, SetArgs { get: true, ..acc }))
    } else if word == "ex"@ || word == "px"@ {
        if (word == "ex"@ && acc.expiry matches Some(KeyExpiry::PX(_))) || (word == "px"@
            && acc.expiry matches Some(KeyExpiry::EX(_))) {
            None
        } else if idx + 1 >= args.len() {
            None
        } else {
            match spec_parse_integer(args[idx + 1], 0, u64::MAX as int) {
                Some(v) => Some(
                    (
                        idx + 2,
                        SetArgs {
                            expiry: Some(
                                if word == "ex"@ {
                                    KeyExpiry::EX(v as u64)
                                } else {
                                    KeyExpiry::PX(v as u64)
                                },
                            ),
                            ..acc
                        },
                    ),
                ),
                None => None,
            }
        }
    } else {
        None
    }
}

/// An option moves past its name, and past its number when it takes one.
pub proof fn lemma_set_option_advances(word: Seq<char>, args: Seq<Seq<char>>, idx: int, acc: SetArgs)
    requires
        0 <= idx < args.len(),
    ensures
        spec_set_option(word, args, idx, acc) matches Some((next, _)) ==> idx < next <= args.len(),
{
}

/// Reads the options from `idx` on, starting from the options `acc` read before; `lower`
/// holds the lowercase of each argument. No result where the options are malformed.
pub open spec fn spec_parse_set_from(
    lower: Seq<Seq<char>>,
    args: Seq<Seq<char>>,
    idx: int,
    acc: SetArgs,
) -> Option<SetArgs>
    decreases args.len() - idx,
{
    if idx < 0 || idx >= args.len() {
        Some(acc)
    } else {
        proof {
            lemma_set_option_advances(lower[idx], args, idx, acc);
        }
        match spec_set_option(lower[idx], args, idx, acc) {
            Some((next, a)) => spec_parse_set_from(lower, args, next, a),
            None => None,
        }
    }
}

/// The lowercase of each word, as `str::to_lowercase` gives it.
pub open spec fn lowercase_words(args: Seq<Seq<char>>) -> Seq<Seq<char>> {
    args.map_values(|w: Seq<char>| spec_to_lowercase(w))
}

/// The ASCII lowercase of each word.
pub open spec fn ascii_lowercase_words(args: Seq<Seq<char>>) -> Seq<Seq<char>> {
    args.map_values(|w: Seq<char>| ascii_lowercase(w))
}

/// Whether every word is ASCII.
pub open spec fn all_ascii(args: Seq<Seq<char>>) -> bool {
    forall|i: int| 0 <= i < args.len() ==> is_ascii_chars(#[trigger] args[i])
}

/// The options that a SET argument list gives, option names compared in lowercase, or no
/// result when it is malformed.
pub open spec fn spec_parse_set_arguments(args: Seq<Seq<char>>) -> Option<SetArgs> {
    spec_parse_set_from(lowercase_words(args), args, 0, no_set_args())
}

/// Whether `r` is the answer to the SET options `arguments` when `lower` holds their
/// lowercase: the options they give, or a syntax error that quotes them joined by spaces.
pub open spec fn set_arguments_result(
    lower: Seq<Seq<char>>,
    arguments: Seq<Seq<char>>,
    r: StorageResult<SetArgs>,
) -> bool {
    match spec_parse_set_from(lower, arguments, 0, no_set_args()) {
        Some(a) => r == Ok::<SetArgs, StorageError>(a),
        None => r matches Err(e) && e@ == StorageErrorView::CommandSyntaxError(
            join_words(arguments),
        ),
    }
}

/// The index and options after one step.
pub open spec fn option_step(r: Option<(usize, SetArgs)>) -> Option<(int, SetArgs)> {
    match r {
        Some((next, a)) => Some((next as int, a)),
        None => None,
    }
}

/// Reads one option of SET, whose lowercase name is `word`, at `idx` of `arguments`,
/// after the options `args`: the index of the next option and the options so far.
pub fn parse_set_option(word: &String, arguments: &Vec<String>, idx: usize, args: SetArgs) -> (r:
    Option<(usize, SetArgs)>)
    requires
        idx < arguments@.len(),
    ensures
        option_step(r) == spec_set_option(word@, strings_view(arguments@), idx as int, args),
{
    let ghost words = strings_view(arguments@);
    let count = arguments.len();
    assert(idx + 1 <= count);
    proof {
        lemma_option_names_differ();
    }
    let mut args = args;
    if same_text(word, "nx") {
        if let Some(KeyExistence::XX) = args.existence {
            return None;
        }
        args.existence = Some(KeyExistence::NX);
        Some((idx + 1, args))
    } else if same_text(word, "xx") {
        if let Some(KeyExistence::NX) = args.existence {
            return None;
        }
        args.existence = Some(KeyExistence::XX);
        Some((idx + 1, args))
    } else if same_text(word, "get") {
        args.get = true;
        Some((idx + 1, args))
    } else {
        let is_ex = same_text(word, "ex");
        let is_px = same_text(word, "px");
        if !is_ex && !is_px {
            return None;
        }
        if is_ex {
            if let Some(KeyExpiry::PX(_)) = args.expiry {
                return None;
            }
        } else {
            if let Some(KeyExpiry::EX(_)) = args.expiry {
                return None;
            }
        }
        if idx + 1 >= arguments.len() {
            return None;
        }
        assert(words[idx + 1] == arguments@[idx + 1]@);
        let value = match parse_integer(arguments[idx + 1].as_str(), 0, u64::MAX as i128) {
            Some(v) => v as u64,
            None => {
                return None;
            },
        };
        args.expiry = Some(
            if is_ex {
                KeyExpiry::EX(value)
            } else {
                KeyExpiry::PX(value)
            },
        );
        Some((idx + 2, args))
    }
}

/// Reads the options that follow the key and the value of a SET command, their names
/// compared in lowercase.
pub fn parse_set_arguments(arguments: &Vec<String>) -> (r: StorageResult<SetArgs>)
    ensures
        set_arguments_result(lowercase_words(strings_view(arguments@)), strings_view(arguments@), r),
        all_ascii(strings_view(arguments@)) ==> set_arguments_result(
            ascii_lowercase_words(strings_view(arguments@)),
            strings_view(arguments@),
            r,
        ),
{
    let ghost words = strings_view(arguments@);
    let ghost lower = lowercase_words(words);
    let ghost ascii = ascii_lowercase_words(words);
    let mut args = SetArgs::new();
    let mut idx: usize = 0;
    while idx < arguments.len()
        invariant
            idx <= arguments@.len(),
            words == strings_view(arguments@),
            lower == lowercase_words(words),
            ascii == ascii_lowercase_words(words),
            spec_parse_set_from(lower, words, 0, no_set_args()) == spec_parse_set_from(
                lower,
                words,
                idx as int,
                args,
            ),
            all_ascii(words) ==> spec_parse_set_from(ascii, words, 0, no_set_args())
                == spec_parse_set_from(ascii, words, idx as int, args),
        decreases arguments@.len() - idx,
    {
        let word = to_lowercase(arguments[idx].as_str());
        assert(words[idx as int] == arguments@[idx as int]@);
        assert(lower[idx as int] == word@);
        assert(all_ascii(words) ==> is_ascii_chars(words[idx as int]));
        assert(all_ascii(words) ==> ascii[idx as int] == word@);
        match parse_set_option(&word, arguments, idx, args) {
            Some((next, a)) => {
                idx = next;
                args = a;
            },
            None => {
                return Err(StorageError::CommandSyntaxError(join_with_spaces(arguments)));
            },
        }
    }
    Ok(args)
}

/// Reading options on past the end of `args` continues from what `args` gave.
pub proof fn lemma_parse_set_extend(
    lower: Seq<Seq<char>>,
    args: Seq<Seq<char>>,
    more_lower: Seq<Seq<char>>,
    more: Seq<Seq<char>>,
    idx: int,
    acc: SetArgs,
)
    requires
        0 <= idx <= args.len(),
        lower.len() == args.len(),
        spec_parse_set_from(lower, args, idx, acc) is Some,
    ensures
        spec_parse_set_from(lower + more_lower, args + more, idx, acc) == spec_parse_set_from(
            lower + more_lower,
            args + more,
            args.len() as int,
            spec_parse_set_from(lower, args, idx, acc).unwrap(),
        ),
    decreases args.len() - idx,
{
    if idx < args.len() {
        let all = args + more;
        let all_lower = lower + more_lower;
        assert(all[idx] == args[idx]);
        assert(all_lower[idx] == lower[idx]);
        lemma_set_option_advances(lower[idx], args, idx, acc);
        if idx + 1 < args.len() {
            assert(all[idx + 1] == args[idx + 1]);
        }
        assert(spec_set_option(lower[idx], args, idx, acc) == spec_set_option(
            all_lower[idx],
            all,
            idx,
            acc,
        ));
        let (next, a) = spec_set_option(lower[idx], args, idx, acc).unwrap();
        lemma_parse_set_extend(lower, args, more_lower, more, next, a);
    }
}

/// The option names are different words.
proof fn lemma_option_names_differ()
    ensures
        "nx"@ != "xx"@,
        "nx"@ != "get"@,
        "nx"@ != "ex"@,
        "nx"@ != "px"@,
        "xx"@ != "get"@,
        "xx"@ != "ex"@,
        "xx"@ != "px"@,
        "get"@ != "ex"@,
        "get"@ != "px"@,
        "ex"@ != "px"@,
{
    reveal_strlit("nx");
    reveal_strlit("xx");
    reveal_strlit("get");
    reveal_strlit("ex");
    reveal_strlit("px");
    assert("nx"@.len() == 2);
    assert("xx"@.len() == 2);
    assert("ex"@.len() == 2);
    assert("px"@.len() == 2);
    assert("get"@.len() == 3);
    assert("nx"@[0] != "xx"@[0]);
    assert("nx"@[0] != "ex"@[0]);
    assert("nx"@[0] != "px"@[0]);
    assert("xx"@[0] != "ex"@[0]);
    assert("xx"@[0] != "px"@[0]);
    assert("ex"@[0] != "px"@[0]);
}

/// NX and XX exclude each other: options that ask for NX (or XX) are refused once the
/// other one follows.
pub proof fn law_nx_and_xx_exclude_each_other(args: Seq<Seq<char>>, word: Seq<char>)
    requires
        spec_parse_set_arguments(args) matches Some(a) && ((a.existence == Some(KeyExistence::NX)
            && spec_to_lowercase(word) == "xx"@) || (a.existence == Some(KeyExistence::XX)
            && spec_to_lowercase(word) == "nx"@)),
    ensures
        spec_parse_set_arguments(args.push(word)) is None,
{
    lemma_option_names_differ();
    let longer = args.push(word);
    assert(longer =~= args + seq![word]);
    assert(lowercase_words(longer) =~= lowercase_words(args) + seq![spec_to_lowercase(word)]);
    lemma_parse_set_extend(lowercase_words(args), args, seq![spec_to_lowercase(word)], seq![word], 0, no_set_args());
    assert(lowercase_words(longer)[args.len() as int] == spec_to_lowercase(word));
}

/// EX and PX exclude each other: options that give a lifetime in one unit are refused
/// once the other unit follows, whatever number comes with it.
pub proof fn law_ex_and_px_exclude_each_other(
    args: Seq<Seq<char>>,
    word: Seq<char>,
    number: Seq<char>,
)
    requires
        spec_parse_set_arguments(args) matches Some(a) && ((a.expiry matches Some(KeyExpiry::EX(_))
            && spec_to_lowercase(word) == "px"@) || (a.expiry matches Some(KeyExpiry::PX(_))
            && spec_to_lowercase(word) == "ex"@)),
    ensures
        spec_parse_set_arguments(args.push(word).push(number)) is None,
{
    lemma_option_names_differ();
    let longer = args.push(word).push(number);
    let tail_lower = seq![spec_to_lowercase(word), spec_to_lowercase(number)];
    assert(longer =~= args + seq![word, number]);
    assert(lowercase_words(longer) =~= lowercase_words(args) + tail_lower);
    lemma_parse_set_extend(lowercase_words(args), args, tail_lower, seq![word, number], 0, no_set_args());
    assert(lowercase_words(longer)[args.len() as int] == spec_to_lowercase(word));
}

/// Lowercasing an ASCII text leaves the number it writes, if any, as it was.
pub proof fn lemma_parse_integer_ascii_lowercase(s: Seq<char>, lo: int, hi: int)
    ensures
        spec_parse_integer(ascii_lowercase(s), lo, hi) == spec_parse_integer(s, lo, hi),
{
    let t = ascii_lowercase(s);
    assert forall|i: int| 0 <= i < s.len() implies (is_digit(#[trigger] t[i]) == is_digit(s[i]))
        && (is_digit(s[i]) ==> t[i] == s[i]) && (t[i] == '+' <==> s[i] == '+') && (t[i] == '-'
        <==> s[i] == '-') by {
        assert(t[i] == ascii_lower_char(s[i]));
    }
    let neg_s = lo < 0 && s.len() > 0 && s[0] == '-';
    let ds = if s.len() > 0 && (s[0] == '+' || neg_s) {
        s.drop_first()
    } else {
        s
    };
    let dt = if t.len() > 0 && (t[0] == '+' || (lo < 0 && t.len() > 0 && t[0] == '-')) {
        t.drop_first()
    } else {
        t
    };
    let off: int = if s.len() > 0 && (s[0] == '+' || neg_s) {
        1
    } else {
        0
    };
    assert(dt.len() == ds.len());
    assert forall|i: int| 0 <= i < ds.len() implies #[trigger] dt[i] == ascii_lower_char(ds[i]) by {
        assert(dt[i] == t[i + off]);
        assert(ds[i] == s[i + off]);
    }
    assert forall|i: int| 0 <= i < ds.len() implies is_digit(#[trigger] dt[i]) == is_digit(ds[i]) by {
        assert(dt[i] == t[i + off]);
        assert(ds[i] == s[i + off]);
    }
    if all_digits(ds) {
        assert forall|i: int| 0 <= i < ds.len() implies #[trigger] dt[i] == ds[i] by {
            assert(dt[i] == t[i + off]);
            assert(ds[i] == s[i + off]);
        }
        assert(dt =~= ds);
    } else {
        let k = choose|k: int| 0 <= k < ds.len() && !is_digit(#[trigger] ds[k]);
        assert(!is_digit(dt[k]));
        assert(!all_digits(dt));
    }
}

/// Reading options does not depend on the arguments beyond their lowercase names and the
/// numbers they write.
proof fn lemma_parse_set_same_numbers(
    lower: Seq<Seq<char>>,
    args: Seq<Seq<char>>,
    other: Seq<Seq<char>>,
    idx: int,
    acc: SetArgs,
)
    requires
        lower.len() == args.len(),
        other.len() == args.len(),
        forall|i: int|
            0 <= i < args.len() ==> spec_parse_integer(#[trigger] args[i], 0, u64::MAX as int)
                == spec_parse_integer(other[i], 0, u64::MAX as int),
    ensures
        spec_parse_set_from(lower, args, idx, acc) == spec_parse_set_from(lower, other, idx, acc),
    decreases args.len() - idx,
{
    if 0 <= idx < args.len() {
        if idx + 1 < args.len() {
            assert(spec_parse_integer(args[idx + 1], 0, u64::MAX as int) == spec_parse_integer(
                other[idx + 1],
                0,
                u64::MAX as int,
            ));
        }
        assert(spec_set_option(lower[idx], args, idx, acc) == spec_set_option(
            lower[idx],
            other,
            idx,
            acc,
        ));
        lemma_set_option_advances(lower[idx], args, idx, acc);
        if let Some((next, a)) = spec_set_option(lower[idx], args, idx, acc) {
            lemma_parse_set_same_numbers(lower, args, other, next, a);
        }
    }
}

/// For ASCII arguments, option names are read without regard to case: the arguments and
/// their lowercase give the same options, or are both refused (the refusal quotes the
/// arguments as they were written).
pub proof fn law_set_options_ignore_case(args: Seq<Seq<char>>)
    requires
        all_ascii(args),
    ensures
        all_ascii(ascii_lowercase_words(args)),
        spec_parse_set_from(ascii_lowercase_words(args), args, 0, no_set_args())
            == spec_parse_set_from(
            ascii_lowercase_words(ascii_lowercase_words(args)),
            ascii_lowercase_words(args),
            0,
            no_set_args(),
        ),
{
    let low = ascii_lowercase_words(args);
    assert forall|i: int| 0 <= i < low.len() implies is_ascii_chars(#[trigger] low[i]) by {
        lemma_ascii_lowercase(args[i]);
    }
    assert(ascii_lowercase_words(low) =~= low) by {
        assert forall|i: int| 0 <= i < low.len() implies #[trigger] ascii_lowercase_words(low)[i]
            == low[i] by {
            lemma_ascii_lowercase(args[i]);
        }
    }
    assert forall|i: int| 0 <= i < args.len() implies spec_parse_integer(
        #[trigger] args[i],
        0,
        u64::MAX as int,
    ) == spec_parse_integer(low[i], 0, u64::MAX as int) by {
        lemma_parse_integer_ascii_lowercase(args[i], 0, u64::MAX as int);
    }
    lemma_parse_set_same_numbers(low, args, low, 0, no_set_args());
}

/// Each option sets only the field it names and keeps the others as read before it:
/// `NX` and `XX` set the existence condition, `GET` sets the flag, `EX` and `PX` set the
/// lifetime to the number that follows them; a word that names no option is refused.
pub proof fn law_option_sets_only_its_field(
    word: Seq<char>,
    args: Seq<Seq<char>>,
    idx: int,
    acc: SetArgs,
)
    requires
        0 <= idx < args.len(),
    ensures
        word == "nx"@ ==> spec_set_option(word, args, idx, acc) == if acc.existence == Some(
            KeyExistence::XX,
        ) {
            None
        } else {
            Some((idx + 1, SetArgs { expiry: acc.expiry, existence: Some(KeyExistence::NX), get: acc.get }))
        },
        word == "xx"@ ==> spec_set_option(word, args, idx, acc) == if acc.existence == Some(
            KeyExistence::NX,
        ) {
            None
        } else {
            Some((idx + 1, SetArgs { expiry: acc.expiry, existence: Some(KeyExistence::XX), get: acc.get }))
        },
        word == "get"@ ==> spec_set_option(word, args, idx, acc) == Some(
            (idx + 1, SetArgs { expiry: acc.expiry, existence: acc.existence, get: true }),
        ),
        (word == "ex"@ || word == "px"@) ==> (spec_set_option(word, args, idx, acc) matches Some(
            (next, a),
        ) ==> {
            &&& next == idx + 2
            &&& a.existence == acc.existence
            &&& a.get == acc.get
            &&& spec_parse_integer(args[idx + 1], 0, u64::MAX as int) matches Some(n)
            &&& a.expiry == Some(
                if word == "ex"@ {
                    KeyExpiry::EX(n as u64)
                } else {
                    KeyExpiry::PX(n as u64)
                },
            )
        }),
        (word == "ex"@ || word == "px"@) ==> (spec_set_option(word, args, idx, acc) is Some <==> {
            &&& idx + 1 < args.len()
            &&& spec_parse_integer(args[idx + 1], 0, u64::MAX as int) is Some
            &&& !(word == "ex"@ && (acc.expiry matches Some(KeyExpiry::PX(_))))
            &&& !(word == "px"@ && (acc.expiry matches Some(KeyExpiry::EX(_))))
        }),
        word != "nx"@ && word != "xx"@ && word != "get"@ && word != "ex"@ && word != "px"@
            ==> spec_set_option(word, args, idx, acc) is None,
{
    lemma_option_names_differ();
}

/// Once read, an option stays: the options read later keep the `GET` flag, the existence
/// condition and the kind of lifetime (seconds or milliseconds) that earlier ones set.
pub proof fn law_options_once_read_stay(
    lower: Seq<Seq<char>>,
    args: Seq<Seq<char>>,
    idx: int,
    acc: SetArgs,
)
    requires
        lower.len() == args.len(),
    ensures
        spec_parse_set_from(lower, args, idx, acc) matches Some(a) ==> {
            &&& acc.get ==> a.get
            &&& acc.existence is Some ==> a.existence == acc.existence
            &&& (acc.expiry matches Some(KeyExpiry::EX(_))) ==> (a.expiry matches Some(KeyExpiry::EX(_)))
            &&& (acc.expiry matches Some(KeyExpiry::PX(_))) ==> (a.expiry matches Some(KeyExpiry::PX(_)))
            &&& acc.expiry is Some ==> a.expiry is Some
        },
    decreases args.len() - idx,
{
    if 0 <= idx < args.len() {
        lemma_option_names_differ();
        lemma_set_option_advances(lower[idx], args, idx, acc);
        law_option_sets_only_its_field(lower[idx], args, idx, acc);
        if let Some((next, a)) = spec_set_option(lower[idx], args, idx, acc) {
            law_options_once_read_stay(lower, args, next, a);
        }
    }
}

/// Every option read shows in the result: where the options from `idx` on are well
/// formed, the one at `idx` is a known option, and the result has its existence
/// condition, its `GET` flag, or a lifetime of its kind.
pub proof fn law_first_option_shows_in_result(
    lower: Seq<Seq<char>>,
    args: Seq<Seq<char>>,
    idx: int,
    acc: SetArgs,
)
    requires
        lower.len() == args.len(),
        0 <= idx < args.len(),
    ensures
        spec_parse_set_from(lower, args, idx, acc) matches Some(a) ==> {
            &&& spec_set_option(lower[idx], args, idx, acc) is Some
            &&& lower[idx] == "nx"@ ==> a.existence == Some(KeyExistence::NX)
            &&& lower[idx] == "xx"@ ==> a.existence == Some(KeyExistence::XX)
            &&& lower[idx] == "get"@ ==> a.get
            &&& lower[idx] == "ex"@ ==> (a.expiry matches Some(KeyExpiry::EX(_)))
            &&& lower[idx] == "px"@ ==> (a.expiry matches Some(KeyExpiry::PX(_)))
        },
{
    lemma_option_names_differ();
    lemma_set_option_advances(lower[idx], args, idx, acc);
    law_option_sets_only_its_field(lower[idx], args, idx, acc);
    if let Some((next, a)) = spec_set_option(lower[idx], args, idx, acc) {
        law_options_once_read_stay(lower, args, next, a);
    }
}

} // verus!
