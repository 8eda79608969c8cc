//! The key-value storage and the commands it answers.
//!
//! Instants are nanoseconds since the UNIX epoch and durations are nanoseconds.
use vstd::hash_map::StringHashMap;
use vstd::prelude::*;
use vstd::std_specs::cmp::PartialEqSpecImpl;
use vstd::string::*;
use vstd::utf8::is_ascii_chars;

use crate::expiry_map::{keys_due_before, ExpiryMap};
use crate::resp::{RespValue, RESP};
use crate::set::{
    lowercase_words, no_set_args, parse_set_arguments, spec_parse_set_arguments, KeyExpiry,
    SetArgs,
};
use crate::storage_result::{StorageError, StorageErrorView, StorageResult};
use crate::text::{
    ascii_lowercase, join_with_spaces, join_words, same_text, spec_to_lowercase, strings_view,
    to_lowercase,
};

verus! {

broadcast use vstd::string::group_string_axioms;

/// The latest instant the clock can give: the longest `Duration` after the epoch.
pub const MAX_INSTANT: i128 = 18_446_744_073_709_551_615_999_999_999i128;

/// Whether `t` lies within a `Duration` of the epoch, on either side: every instant the
/// clock gives does.
pub open spec fn is_clock_instant(t: i128) -> bool {
    -MAX_INSTANT <= t <= MAX_INSTANT
}

#[verifier::external_type_specification]
#[verifier::external_body]
pub struct ExSystemTime(std::time::SystemTime);

#[verifier::external_type_specification]
#[verifier::external_body]
pub struct ExSystemTimeError(std::time::SystemTimeError);

/// `SystemTime::now`: the instant the system clock shows. Nothing is stated of it.
#[verifier::external_body]
fn system_time_now() -> (r: std::time::SystemTime) {
    std::time::SystemTime::now()
}

/// `SystemTime::duration_since` the UNIX epoch: the time from the epoch to `t`, or an
/// error when `t` lies before the epoch. Nothing is stated of either.
#[verifier::external_body]
fn since_epoch(t: &std::time::SystemTime) -> (r: Result<
    std::time::Duration,
    std::time::SystemTimeError,
>) {
    t.duration_since(std::time::UNIX_EPOCH)
}

/// `SystemTimeError::duration`: how far before the epoch the instant lay. Nothing is
/// stated of it.
#[verifier::external_body]
fn error_duration(e: &std::time::SystemTimeError) -> (r: std::time::Duration) {
    e.duration()
}

/// `Duration::as_nanos`: the whole nanoseconds of `d`, which is at most `u64::MAX`
/// seconds and 999 999 999 nanoseconds long. Which number it is, is not stated.
#[verifier::external_body]
fn duration_nanos(d: &std::time::Duration) -> (r: u128)
    ensures
        r <= MAX_INSTANT,
{
    d.as_nanos()
}

/// The current instant, in nanoseconds from the UNIX epoch, negative before it.
fn current_instant() -> (r: i128)
    ensures
        is_clock_instant(r),
{
    let now = system_time_now();
    match since_epoch(&now) {
        Ok(after) => duration_nanos(&after) as i128,
        Err(e) => {
            let before = error_duration(&e);
            -(duration_nanos(&before) as i128)
        },
    }
}

/// A stored value.
#[derive(Debug, PartialEq)]
pub enum StorageValue {
    String(String),
}

impl View for StorageValue {
    type V = Seq<char>;

    open spec fn view(&self) -> Seq<char> {
        match self {
            StorageValue::String(s) => s@,
        }
    }
}

/// A stored value with the instant it was stored and, when it expires, its lifetime.
#[derive(Debug)]
pub struct StorageData {
    pub value: StorageValue,
    pub creation_time: i128,
    pub expiry: Option<u128>,
}

impl StorageData {
    /// The value `value` stored at the instant `creation_time`, with no lifetime.
    pub fn created_at(value: String, creation_time: i128) -> (r: StorageData)
        ensures
            r == (StorageData {
                value: StorageValue::String(value),
                creation_time,
                expiry: None,
            }),
    {
        StorageData { value: StorageValue::String(value), creation_time, expiry: None }
    }

    /// Gives the value the lifetime `expiry`.
    pub fn add_expiry(&mut self, expiry: u128)
        ensures
            *final(self) == (StorageData { expiry: Some(expiry), ..*old(self) }),
    {
        self.expiry = Some(expiry);
    }
}

impl PartialEq for StorageData {
    fn eq(&self, other: &Self) -> (r: bool) {
        let same_value = match (&self.value, &other.value) {
            (StorageValue::String(a), StorageValue::String(b)) => *a == *b,
        };
        let same_expiry = match (self.expiry, other.expiry) {
            (Some(a), Some(b)) => a == b,
            (None, None) => true,
            _ => false,
        };
        same_value && same_expiry
    }
}

impl PartialEqSpecImpl for StorageData {
    open spec fn obeys_eq_spec() -> bool {
        true
    }

    /// Two stored values are equal when their text and their lifetime are; the instant
    /// they were stored does not count.
    open spec fn eq_spec(&self, other: &Self) -> bool {
        self.value@ == other.value@ && self.expiry == other.expiry
    }
}

/// The key-value storage: the stored values, the deadlines of the keys that expire, and
/// whether expired keys are removed by `expire_keys`.
pub struct Storage {
    pub store: StringHashMap<StorageData>,
    pub expiry: ExpiryMap,
    pub active_expiry: bool,
}

/// The content of a storage.
pub struct StorageView {
    pub store: Map<Seq<char>, StorageData>,
    pub expiry: Map<Seq<char>, i128>,
    pub active_expiry: bool,
}

impl View for Storage {
    type V = StorageView;

    open spec fn view(&self) -> StorageView {
        StorageView { store: self.store@, expiry: self.expiry@, active_expiry: self.active_expiry }
    }
}

/// The lifetime that an `EX` or `PX` option gives, in nanoseconds.
pub open spec fn expiry_duration(e: KeyExpiry) -> int {
    match e {
        KeyExpiry::EX(secs) => secs * 1_000_000_000,
        KeyExpiry::PX(millis) => millis * 1_000_000,
    }
}

/// The text of a stored value.
pub open spec fn stored_text(d: StorageData) -> String {
    match d.value {
        StorageValue::String(s) => s,
    }
}

/// The storage after `SET key value` with the options `args` at the instant `now`:
/// the key holds the value, and when the options give a lifetime, the key's deadline is
/// `now` plus that lifetime. A deadline from an earlier SET stays when no lifetime is given.
pub open spec fn spec_set(
    s: StorageView,
    key: Seq<char>,
    value: String,
    args: SetArgs,
    now: i128,
) -> StorageView {
    let data = StorageData {
        value: StorageValue::String(value),
        creation_time: now,
        expiry: match args.expiry {
            Some(e) => Some(expiry_duration(e) as u128),
            None => None,
        },
    };
    StorageView {
        store: s.store.insert(key, data),
        expiry: match args.expiry {
            Some(e) => s.expiry.insert(key, (now + expiry_duration(e)) as i128),
            None => s.expiry,
        },
        active_expiry: s.active_expiry,
    }
}

/// Whether `key` has a deadline that `now` has reached.
pub open spec fn is_expired_at(s: StorageView, key: Seq<char>, now: i128) -> bool {
    s.expiry.contains_key(key) && now >= s.expiry[key]
}

/// `GET key` at the instant `now`: a key whose deadline has come is removed and reads as
/// absent; otherwise the storage stays and the stored text, if any, is returned.
pub open spec fn spec_get(s: StorageView, key: Seq<char>, now: i128) -> (StorageView, Option<
    String,
>) {
    if is_expired_at(s, key, now) {
        (
            StorageView {
                store: s.store.remove(key),
                expiry: s.expiry.remove(key),
                active_expiry: s.active_expiry,
            },
            None,
        )
    } else if s.store.contains_key(key) {
        (s, Some(stored_text(s.store[key])))
    } else {
        (s, None)
    }
}

/// The storage after removing, when active expiry is on, every key whose deadline lies
/// before `now`, from the values and from the deadlines.
pub open spec fn spec_expire_keys(s: StorageView, now: i128) -> StorageView {
    if !s.active_expiry {
        s
    } else {
        let gone = keys_due_before(s.expiry, now);
        StorageView {
            store: s.store.remove_keys(gone),
            expiry: s.expiry.remove_keys(gone),
            active_expiry: s.active_expiry,
        }
    }
}

/// The content of a command's answer.
pub open spec fn answer_view(r: StorageResult<RESP>) -> Result<RespValue, StorageErrorView> {
    match r {
        Ok(v) => Ok(v@),
        Err(e) => Err(e@),
    }
}

/// Whether the command can be run without reading past its end: it names a command, and
/// an ECHO names what to echo.
pub open spec fn command_is_complete(command: Seq<String>) -> bool {
    &&& command.len() >= 1
    &&& spec_to_lowercase(command[0]@) == "echo"@ ==> command.len() >= 2
}

/// The command `command` whose name, in lowercase, is `name`, run at the instant `now`:
/// the storage after it and its answer.
pub open spec fn spec_run_command(
    s: StorageView,
    name: Seq<char>,
    command: Seq<String>,
    now: i128,
) -> (StorageView, Result<RespValue, StorageErrorView>) {
    let words = strings_view(command);
    if name == "ping"@ {
        (s, Ok(RespValue::SimpleString("PONG"@)))
    } else if name == "echo"@ {
        (s, Ok(RespValue::BulkString(words[1])))
    } else if name == "get"@ {
        if words.len() != 2 {
            (s, Err(StorageErrorView::CommandSyntaxError(join_words(words))))
        } else {
            let (after, found) = spec_get(s, words[1], now);
            match found {
                Some(text) => (after, Ok(RespValue::BulkString(text@))),
                None => (after, Ok(RespValue::Null)),
            }
        }
    } else if name == "set"@ {
        if words.len() < 3 {
            (s, Err(StorageErrorView::CommandSyntaxError(join_words(words))))
        } else {
            let options = words.subrange(3, words.len() as int);
            match spec_parse_set_arguments(options) {
                Some(args) => (
                    spec_set(s, words[1], command[2], args, now),
                    Ok(RespValue::SimpleString("OK"@)),
                ),
                None => (s, Err(StorageErrorView::CommandSyntaxError(join_words(options)))),
            }
        }
    } else {
        (s, Err(StorageErrorView::CommandNotAvailable(words[0])))
    }
}

/// A command, its name compared in lowercase (`str::to_lowercase`), run at the instant
/// `now`: the storage after it and its answer.
pub open spec fn spec_process_command(s: StorageView, command: Seq<String>, now: i128) -> (
    StorageView,
    Result<RespValue, StorageErrorView>,
) {
    spec_run_command(s, spec_to_lowercase(command[0]@), command, now)
}

/// The command names are different words.
proof fn lemma_command_names_differ()
    ensures
        "ping"@ != "echo"@,
        "ping"@ != "get"@,
        "ping"@ != "set"@,
        "echo"@ != "get"@,
        "echo"@ != "set"@,
        "get"@ != "set"@,
{
    reveal_strlit("ping");
    reveal_strlit("echo");
    reveal_strlit("get");
    reveal_strlit("set");
    assert("ping"@.len() == 4);
    assert("echo"@.len() == 4);
    assert("get"@.len() == 3);
    assert("set"@.len() == 3);
    assert("ping"@[0] != "echo"@[0]);
    assert("get"@[0] != "set"@[0]);
}

/// Tests whether the command can be run: whether it names a command, and, where that
/// command is ECHO, names what to echo.
pub fn check_command_complete(command: &Vec<String>) -> (b: bool)
    ensures
        b == command_is_complete(command@),
{
    if command.len() == 0 {
        return false;
    }
    let name = to_lowercase(command[0].as_str());
    !same_text(&name, "echo") || command.len() >= 2
}

impl Storage {
    /// Whether the deadlines are well kept.
    pub open spec fn wf(&self) -> bool {
        self.expiry.wf()
    }

    /// An empty storage with active expiry on.
    pub fn new() -> (r: Self)
        ensures
            r.wf(),
            r@ == (StorageView {
                store: Map::empty(),
                expiry: Map::empty(),
                active_expiry: true,
            }),
    {
        let store: StringHashMap<StorageData> = StringHashMap::new();
        Self { store: store, expiry: ExpiryMap::new(), active_expiry: true }
    }

    /// Runs a command now, reading the clock.
    pub fn process_command(&mut self, command: &Vec<String>) -> (r: StorageResult<RESP>)
        requires
            old(self).wf(),
            command_is_complete(command@),
        ensures
            final(self).wf(),
            exists|now: i128|
                #![trigger spec_process_command(old(self)@, command@, now)]
                {
                    &&& is_clock_instant(now)
                    &&& spec_process_command(old(self)@, command@, now) == (
                        final(self)@,
                        answer_view(r),
                    )
                    &&& is_ascii_chars(command@[0]@) ==> spec_run_command(
                        old(self)@,
                        ascii_lowercase(command@[0]@),
                        command@,
                        now,
                    ) == (final(self)@, answer_view(r))
                },
    {
        let now = current_instant();
        self.process_command_at(command, now)
    }

    /// Runs a command at the instant `now`: PING, ECHO, GET or SET, its name compared in
    /// lowercase.
    pub fn process_command_at(&mut self, command: &Vec<String>, now: i128) -> (r: StorageResult<
        RESP,
    >)
        requires
            old(self).wf(),
            command_is_complete(command@),
            is_clock_instant(now),
        ensures
            final(self).wf(),
            spec_process_command(old(self)@, command@, now) == (final(self)@, answer_view(r)),
            is_ascii_chars(command@[0]@) ==> spec_run_command(
                old(self)@,
                ascii_lowercase(command@[0]@),
                command@,
                now,
            ) == (final(self)@, answer_view(r)),
    {
        let name = to_lowercase(command[0].as_str());
        self.run_command_at(&name, command, now)
    }

    /// Runs at the instant `now` the command `command` whose name, already in lowercase,
    /// is `name`: PING, ECHO, GET or SET; any other name is not available.
    pub fn run_command_at(&mut self, name: &String, command: &Vec<String>, now: i128) -> (r:
        StorageResult<RESP>)
        requires
            old(self).wf(),
            command@.len() >= 1,
            name@ == "echo"@ ==> command@.len() >= 2,
            is_clock_instant(now),
        ensures
            final(self).wf(),
            spec_run_command(old(self)@, name@, command@, now) == (final(self)@, answer_view(r)),
    {
        proof {
            lemma_command_names_differ();
            assert(strings_view(command@)[0] == command@[0]@);
            if command@.len() >= 2 {
                assert(strings_view(command@)[1] == command@[1]@);
            }
        }
        if same_text(name, "ping") {
            self.command_ping(command)
        } else if same_text(name, "echo") {
            self.command_echo(command)
        } else if same_text(name, "get") {
            self.command_get_at(command, now)
        } else if same_text(name, "set") {
            self.command_set_at(command, now)
        } else {
            Err(StorageError::CommandNotAvailable(command[0].clone()))
        }
    }

    /// PING answers the simple string PONG.
    pub fn command_ping(&self, command: &Vec<String>) -> (r: StorageResult<RESP>)
        ensures
            answer_view(r) == Ok::<RespValue, StorageErrorView>(RespValue::SimpleString("PONG"@)),
    {
        Ok(RESP::SimpleString(String::from_str("PONG")))
    }

    /// ECHO answers a bulk string with its argument.
    pub fn command_echo(&self, command: &Vec<String>) -> (r: StorageResult<RESP>)
        requires
            command@.len() >= 2,
        ensures
            answer_view(r) == Ok::<RespValue, StorageErrorView>(RespValue::BulkString(command@[1]@)),
    {
        Ok(RESP::BulkString(command[1].clone()))
    }

    /// Stores `value` under `key` with the options `args`, now.
    pub fn set(&mut self, key: String, value: String, args: SetArgs) -> (r: StorageResult<String>)
        requires
            old(self).wf(),
        ensures
            final(self).wf(),
            r matches Ok(text) && text@ == "OK"@,
            exists|now: i128|
                is_clock_instant(now) && final(self)@ == spec_set(old(self)@, key@, value, args, now),
    {
        let now = current_instant();
        self.set_at(key, value, args, now)
    }

    /// Stores `value` under `key` with the options `args`, at the instant `now`.
    pub fn set_at(&mut self, key: String, value: String, args: SetArgs, now: i128) -> (r:
        StorageResult<String>)
        requires
            old(self).wf(),
            is_clock_instant(now),
        ensures
            final(self).wf(),
            r matches Ok(text) && text@ == "OK"@,
            final(self)@ == spec_set(old(self)@, key@, value, args, now),
    {
        let mut data = StorageData::created_at(value, now);
        if let Some(e) = args.expiry {
            let duration: u128 = match e {
                KeyExpiry::EX(secs) => (secs as u128) * 1_000_000_000,
                KeyExpiry::PX(millis) => (millis as u128) * 1_000_000,
            };
            data.add_expiry(duration);
            self.expiry.insert(key.clone(), now + (duration as i128));
        }
        self.store.insert(key, data);
        Ok(String::from_str("OK"))
    }

    /// Reads the value of `key`, now; a key whose deadline has come is removed.
    pub fn get(&mut self, key: String) -> (r: StorageResult<Option<String>>)
        requires
            old(self).wf(),
        ensures
            final(self).wf(),
            exists|now: i128|
                is_clock_instant(now) && (final(self)@, r) == (
                spec_get(old(self)@, key@, now).0,
                Ok::<Option<String>, StorageError>(spec_get(old(self)@, key@, now).1),
            ),
    {
        let now = current_instant();
        self.get_at(key, now)
    }

    /// Reads the value of `key` at the instant `now`; a key whose deadline has come is
    /// removed.
    pub fn get_at(&mut self, key: String, now: i128) -> (r: StorageResult<Option<String>>)
        requires
            old(self).wf(),
        ensures
            final(self).wf(),
            final(self)@ == spec_get(old(self)@, key@, now).0,
            r == Ok::<Option<String>, StorageError>(spec_get(old(self)@, key@, now).1),
    {
        if let Some(deadline) = self.expiry.get(key.as_str()) {
            if now >= deadline {
                self.expiry.remove(key.as_str());
                self.store.remove(key.as_str());
                return Ok(None);
            }
        }
        match self.store.get(key.as_str()) {
            Some(data) => match &data.value {
                StorageValue::String(v) => Ok(Some(v.clone())),
            },
            None => Ok(None),
        }
    }

    /// SET key value [options]: stores the value and answers OK.
    fn command_set_at(&mut self, command: &Vec<String>, now: i128) -> (r: StorageResult<RESP>)
        requires
            old(self).wf(),
            command@.len() >= 1,
            is_clock_instant(now),
        ensures
            final(self).wf(),
            spec_run_command(old(self)@, "set"@, command@, now) == (final(self)@, answer_view(r)),
    {
        proof {
            lemma_command_names_differ();
            assert(strings_view(command@)[0] == command@[0]@);
        }
        if command.len() < 3 {
            return Err(StorageError::CommandSyntaxError(join_with_spaces(command)));
        }
        assert(strings_view(command@)[1] == command@[1]@);
        let key = command[1].clone();
        let value = command[2].clone();
        let mut rest: Vec<String> = Vec::new();
        let mut i: usize = 3;
        while i < command.len()
            invariant
                3 <= i <= command@.len(),
                rest@ == command@.subrange(3, i as int),
            decreases command@.len() - i,
        {
            rest.push(command[i].clone());
            i = i + 1;
            assert(rest@ =~= command@.subrange(3, i as int));
        }
        assert(strings_view(rest@) =~= strings_view(command@).subrange(3, command@.len() as int));
        let args = parse_set_arguments(&rest)?;
        let _ = self.set_at(key, value, args, now);
        Ok(RESP::SimpleString(String::from_str("OK")))
    }

    /// GET key: answers the value as a bulk string, or null when the key is absent.
    fn command_get_at(&mut self, command: &Vec<String>, now: i128) -> (r: StorageResult<RESP>)
        requires
            old(self).wf(),
            command@.len() >= 1,
        ensures
            final(self).wf(),
            spec_run_command(old(self)@, "get"@, command@, now) == (final(self)@, answer_view(r)),
    {
        proof {
            lemma_command_names_differ();
            assert(strings_view(command@)[0] == command@[0]@);
        }
        if command.len() != 2 {
            return Err(StorageError::CommandSyntaxError(join_with_spaces(command)));
        }
        assert(strings_view(command@)[1] == command@[1]@);
        let output = self.get_at(command[1].clone(), now);
        match output {
            Ok(Some(v)) => Ok(RESP::BulkString(v)),
            Ok(None) => Ok(RESP::Null),
            Err(_) => Err(StorageError::CommandInternalError(join_with_spaces(command))),
        }
    }

    /// Removes every key whose deadline lies before now, when active expiry is on.
    pub fn expire_keys(&mut self)
        requires
            old(self).wf(),
        ensures
            final(self).wf(),
            exists|now: i128|
                is_clock_instant(now) && final(self)@ == spec_expire_keys(old(self)@, now),
    {
        let now = current_instant();
        self.expire_keys_at(now)
    }

    /// Removes every key whose deadline lies before `now`, when active expiry is on.
    pub fn expire_keys_at(&mut self, now: i128)
        requires
            old(self).wf(),
        ensures
            final(self).wf(),
            final(self)@ == spec_expire_keys(old(self)@, now),
    {
        if !self.active_expiry {
            return;
        }
        let expired_keys = self.expiry.keys_due_before(now);
        let ghost gone = keys_due_before(old(self)@.expiry, now);
        let ghost names = strings_view(expired_keys@);
        let mut i: usize = 0;
        while i < expired_keys.len()
            invariant
                self.wf(),
                self.active_expiry,
                i <= expired_keys@.len(),
                names == strings_view(expired_keys@),
                self.store@ == old(self)@.store.remove_keys(names.take(i as int).to_set()),
                self.expiry@ == old(self)@.expiry.remove_keys(names.take(i as int).to_set()),
            decreases expired_keys@.len() - i,
        {
            let k = &expired_keys[i];
            self.store.remove(k.as_str());
            self.expiry.remove(k.as_str());
            proof {
                let before = names.take(i as int).to_set();
                let after = names.take(i + 1).to_set();
                let t0 = names.take(i as int);
                let t1 = names.take(i + 1);
                assert forall|k: Seq<char>| #[trigger] after.contains(k) == before.insert(
                    names[i as int],
                ).contains(k) by {
                    if t1.contains(k) {
                        let p = choose|p: int| 0 <= p < t1.len() && t1[p] == k;
                        if p < i {
                            assert(t0[p] == k);
                        }
                    }
                    if t0.contains(k) {
                        let p = choose|p: int| 0 <= p < t0.len() && t0[p] == k;
                        assert(t1[p] == k);
                    }
                    if k == names[i as int] {
                        assert(t1[i as int] == k);
                    }
                }
                assert(after =~= before.insert(names[i as int]));
                assert(self.store@ =~= old(self)@.store.remove_keys(after));
                assert(self.expiry@ =~= old(self)@.expiry.remove_keys(after));
            }
            i = i + 1;
        }
        assert(names.take(i as int) =~= names);
    }
}

/// A GET of a key that a SET stored reads the stored text and leaves the storage as it
/// was, as long as the key's deadline has not come: the lifetime the SET gave, or,
/// when it gave none, a deadline the key already had.
pub proof fn law_get_reads_what_set_stored(
    s: StorageView,
    key: Seq<char>,
    value: String,
    args: SetArgs,
    set_time: i128,
    get_time: i128,
)
    requires
        is_clock_instant(set_time),
        match args.expiry {
            Some(e) => get_time < set_time + expiry_duration(e),
            None => s.expiry.contains_key(key) ==> get_time < s.expiry[key],
        },
    ensures
        spec_get(spec_set(s, key, value, args, set_time), key, get_time) == (
            spec_set(s, key, value, args, set_time),
            Some(value),
        ),
{
    if let Some(e) = args.expiry {
        assert(expiry_duration(e) <= u64::MAX * 1_000_000_000);
    }
}

/// The commands `SET key value` and then `GET key` (names in any case, here already
/// lowercased): the SET answers OK, the GET answers the value as a bulk string and
/// changes nothing, and every other key keeps its value, as long as a deadline that the
/// key already had has not come by the GET.
pub proof fn law_get_command_reads_set_command(
    s: StorageView,
    set_command: Seq<String>,
    get_command: Seq<String>,
    set_time: i128,
    get_time: i128,
)
    requires
        is_clock_instant(set_time),
        set_command.len() == 3,
        get_command.len() == 2,
        get_command[1]@ == set_command[1]@,
        s.expiry.contains_key(set_command[1]@) ==> get_time < s.expiry[set_command[1]@],
    ensures
        ({
            let (after_set, set_answer) = spec_run_command(s, "set"@, set_command, set_time);
            let (after_get, get_answer) = spec_run_command(after_set, "get"@, get_command, get_time);
            &&& set_answer == Ok::<RespValue, StorageErrorView>(RespValue::SimpleString("OK"@))
            &&& get_answer == Ok::<RespValue, StorageErrorView>(RespValue::BulkString(set_command[2]@))
            &&& after_get == after_set
            &&& after_set.store.contains_key(set_command[1]@)
            &&& forall|k: Seq<char>| k != set_command[1]@ ==> {
                &&& #[trigger] after_set.store.contains_key(k) == s.store.contains_key(k)
                &&& s.store.contains_key(k) ==> after_set.store[k] == s.store[k]
                &&& after_set.expiry.contains_key(k) == s.expiry.contains_key(k)
                &&& s.expiry.contains_key(k) ==> after_set.expiry[k] == s.expiry[k]
            }
        }),
{
    lemma_command_names_differ();
    let words = strings_view(set_command);
    let gwords = strings_view(get_command);
    assert(words[1] == set_command[1]@);
    assert(gwords[1] == get_command[1]@);
    let options = words.subrange(3, words.len() as int);
    assert(options.len() == 0);
    assert(lowercase_words(options).len() == 0);
    assert(spec_parse_set_arguments(options) == Some(no_set_args()));
    law_get_reads_what_set_stored(s, set_command[1]@, set_command[2], no_set_args(), set_time, get_time);
}

/// `SET key value [options]`: when the options are well formed, whatever they are (`NX`
/// and `XX` included), the answer is OK and the key holds the value, stored at `now`,
/// with a deadline `now` plus the lifetime when the options give one and its earlier
/// deadline, if any, otherwise; every other key keeps its value and deadline. Malformed
/// options are refused with a syntax error that quotes them, and nothing changes.
pub proof fn law_set_command(s: StorageView, command: Seq<String>, now: i128)
    requires
        command.len() >= 3,
        is_clock_instant(now),
    ensures
        ({
            let key = command[1]@;
            let options = strings_view(command).subrange(3, command.len() as int);
            let (after, answer) = spec_run_command(s, "set"@, command, now);
            match spec_parse_set_arguments(options) {
                Some(a) => {
                    &&& answer == Ok::<RespValue, StorageErrorView>(RespValue::SimpleString("OK"@))
                    &&& after.store.contains_key(key)
                    &&& stored_text(after.store[key]) == command[2]
                    &&& after.store[key].creation_time == now
                    &&& after.active_expiry == s.active_expiry
                    &&& match a.expiry {
                        Some(e) => {
                            &&& after.store[key].expiry == Some(expiry_duration(e) as u128)
                            &&& after.expiry.contains_key(key)
                            &&& after.expiry[key] == now + expiry_duration(e)
                        },
                        None => {
                            &&& after.store[key].expiry is None
                            &&& after.expiry.contains_key(key) == s.expiry.contains_key(key)
                            &&& s.expiry.contains_key(key) ==> after.expiry[key] == s.expiry[key]
                        },
                    }
                    &&& forall|k: Seq<char>| k != key ==> {
                        &&& #[trigger] after.store.contains_key(k) == s.store.contains_key(k)
                        &&& s.store.contains_key(k) ==> after.store[k] == s.store[k]
                        &&& after.expiry.contains_key(k) == s.expiry.contains_key(k)
                        &&& s.expiry.contains_key(k) ==> after.expiry[k] == s.expiry[k]
                    }
                },
                None => {
                    &&& after == s
                    &&& answer == Err::<RespValue, StorageErrorView>(
                        StorageErrorView::CommandSyntaxError(join_words(options)),
                    )
                },
            }
        }),
{
    lemma_command_names_differ();
    let words = strings_view(command);
    assert(words[1] == command[1]@);
    if let Some(a) = spec_parse_set_arguments(words.subrange(3, command.len() as int)) {
        if let Some(e) = a.expiry {
            assert(0 <= expiry_duration(e) <= u64::MAX * 1_000_000_000);
        }
    }
}

/// `GET key` at `now`: a key whose deadline has come reads as null and is removed from
/// the values and the deadlines; otherwise the storage stays, and the answer is the
/// stored text as a bulk string, or null when the key holds nothing. Only the deadline
/// decides, not the lifetime a stored value records.
pub proof fn law_get_command(s: StorageView, command: Seq<String>, now: i128)
    requires
        command.len() == 2,
    ensures
        ({
            let key = command[1]@;
            let (after, answer) = spec_run_command(s, "get"@, command, now);
            if s.expiry.contains_key(key) && now >= s.expiry[key] {
                &&& answer == Ok::<RespValue, StorageErrorView>(RespValue::Null)
                &&& after.store == s.store.remove(key)
                &&& after.expiry == s.expiry.remove(key)
                &&& after.active_expiry == s.active_expiry
            } else if s.store.contains_key(key) {
                &&& answer == Ok::<RespValue, StorageErrorView>(
                    RespValue::BulkString(stored_text(s.store[key])@),
                )
                &&& after == s
            } else {
                &&& answer == Ok::<RespValue, StorageErrorView>(RespValue::Null)
                &&& after == s
            }
        }),
{
    lemma_command_names_differ();
    assert(strings_view(command)[1] == command[1]@);
}

/// A GET with other than one key is refused with a syntax error that quotes the whole
/// command, and changes nothing; so is a SET with no value.
pub proof fn law_commands_missing_words(s: StorageView, command: Seq<String>, now: i128)
    requires
        command.len() >= 1,
    ensures
        command.len() != 2 ==> spec_run_command(s, "get"@, command, now) == (
            s,
            Err::<RespValue, StorageErrorView>(
                StorageErrorView::CommandSyntaxError(join_words(strings_view(command))),
            ),
        ),
        command.len() < 3 ==> spec_run_command(s, "set"@, command, now) == (
            s,
            Err::<RespValue, StorageErrorView>(
                StorageErrorView::CommandSyntaxError(join_words(strings_view(command))),
            ),
        ),
{
    lemma_command_names_differ();
}

/// PING answers PONG, ECHO answers its first argument exactly as written, and a name
/// that is no command is refused quoting the command's first word as written; none of
/// them changes the storage.
pub proof fn law_ping_echo_and_unknown(s: StorageView, name: Seq<char>, command: Seq<String>, now: i128)
    requires
        command.len() >= 1,
    ensures
        spec_run_command(s, "ping"@, command, now) == (
            s,
            Ok::<RespValue, StorageErrorView>(RespValue::SimpleString("PONG"@)),
        ),
        command.len() >= 2 ==> spec_run_command(s, "echo"@, command, now) == (
            s,
            Ok::<RespValue, StorageErrorView>(RespValue::BulkString(command[1]@)),
        ),
        name != "ping"@ && name != "echo"@ && name != "get"@ && name != "set"@
            ==> spec_run_command(s, name, command, now) == (
            s,
            Err::<RespValue, StorageErrorView>(StorageErrorView::CommandNotAvailable(command[0]@)),
        ),
{
    lemma_command_names_differ();
    assert(strings_view(command)[0] == command[0]@);
    if command.len() >= 2 {
        assert(strings_view(command)[1] == command[1]@);
    }
}

/// `SET key value [options]` and then `GET key`: when the options are well formed,
/// whatever they are, the GET answers the value as long as the key's deadline has not
/// come: the lifetime the options give, or, when they give none, a deadline the key
/// already had.
pub proof fn law_set_then_get_commands(
    s: StorageView,
    set_command: Seq<String>,
    get_command: Seq<String>,
    set_time: i128,
    get_time: i128,
)
    requires
        is_clock_instant(set_time),
        set_command.len() >= 3,
        get_command.len() == 2,
        get_command[1]@ == set_command[1]@,
        spec_parse_set_arguments(strings_view(set_command).subrange(3, set_command.len() as int))
            matches Some(a) && match a.expiry {
            Some(e) => get_time < set_time + expiry_duration(e),
            None => s.expiry.contains_key(set_command[1]@) ==> get_time < s.expiry[set_command[1]@],
        },
    ensures
        ({
            let (after_set, set_answer) = spec_run_command(s, "set"@, set_command, set_time);
            let (after_get, get_answer) = spec_run_command(after_set, "get"@, get_command, get_time);
            &&& set_answer == Ok::<RespValue, StorageErrorView>(RespValue::SimpleString("OK"@))
            &&& get_answer == Ok::<RespValue, StorageErrorView>(RespValue::BulkString(set_command[2]@))
            &&& after_get == after_set
        }),
{
    law_set_command(s, set_command, set_time);
    let (after_set, _) = spec_run_command(s, "set"@, set_command, set_time);
    law_get_command(after_set, get_command, get_time);
}

/// A key stored with a lifetime reads as absent once the lifetime is over, and a GET
/// then removes it from the values and from the deadlines.
pub proof fn law_lifetime_ends(
    s: StorageView,
    key: Seq<char>,
    value: String,
    args: SetArgs,
    set_time: i128,
    get_time: i128,
)
    requires
        is_clock_instant(set_time),
        args.expiry matches Some(e) && get_time >= set_time + expiry_duration(e),
    ensures
        ({
            let (after, found) = spec_get(spec_set(s, key, value, args, set_time), key, get_time);
            &&& found is None
            &&& !after.store.contains_key(key)
            &&& !after.expiry.contains_key(key)
        }),
{
    if let Some(e) = args.expiry {
        assert(expiry_duration(e) <= u64::MAX * 1_000_000_000);
    }
}

/// Removing expired keys leaves no deadline before `now` and keeps every other key with
/// its value and deadline; with active expiry off it changes nothing.
pub proof fn law_expire_keys(s: StorageView, now: i128)
    ensures
        ({
            let after = spec_expire_keys(s, now);
            &&& !s.active_expiry ==> after == s
            &&& s.active_expiry ==> forall|k: Seq<char>| #[trigger]
                after.expiry.contains_key(k) ==> after.expiry[k] >= now
            &&& s.active_expiry ==> forall|k: Seq<char>|
                !(s.expiry.contains_key(k) && s.expiry[k] < now) ==> (#[trigger] after.store.contains_key(k)
                    == s.store.contains_key(k) && after.expiry.contains_key(k) == s.expiry.contains_key(k)
                    && (s.store.contains_key(k) ==> after.store[k] == s.store[k])
                    && (s.expiry.contains_key(k) ==> after.expiry[k] == s.expiry[k]))
            &&& s.active_expiry ==> forall|k: Seq<char>|
                s.expiry.contains_key(k) && s.expiry[k] < now ==> !#[trigger] after.store.contains_key(k)
        }),
{
}

/// Command names are read without regard to case: two commands that differ only in how
/// their known name is written leave the same storage, both succeed or both fail, and
/// succeed with the same answer. (An error quotes the command as it was written.)
pub proof fn law_command_names_ignore_case(s: StorageView, a: Seq<String>, b: Seq<String>, now: i128)
    requires
        a.len() == b.len(),
        command_is_complete(a),
        forall|i: int| 1 <= i < a.len() ==> a[i] == b[i],
        spec_to_lowercase(a[0]@) == spec_to_lowercase(b[0]@),
        spec_to_lowercase(a[0]@) == "ping"@ || spec_to_lowercase(a[0]@) == "echo"@
            || spec_to_lowercase(a[0]@) == "get"@ || spec_to_lowercase(a[0]@) == "set"@,
    ensures
        spec_process_command(s, a, now).0 == spec_process_command(s, b, now).0,
        spec_process_command(s, a, now).1 is Ok <==> spec_process_command(s, b, now).1 is Ok,
        spec_process_command(s, a, now).1 is Ok ==> spec_process_command(s, a, now).1
            == spec_process_command(s, b, now).1,
{
    let wa = strings_view(a);
    let wb = strings_view(b);
    assert(wa[0] == a[0]@);
    assert(wb[0] == b[0]@);
    assert(wa.subrange(1, wa.len() as int) =~= wb.subrange(1, wb.len() as int)) by {
        assert forall|i: int| 0 <= i < wa.len() - 1 implies wa.subrange(1, wa.len() as int)[i]
            == wb.subrange(1, wb.len() as int)[i] by {
            assert(a[i + 1] == b[i + 1]);
        }
    }
    if a.len() >= 2 {
        assert(wa[1] == wa.subrange(1, wa.len() as int)[0]);
        assert(wb[1] == wb.subrange(1, wb.len() as int)[0]);
    }
    if a.len() >= 3 {
        assert(wa.subrange(3, wa.len() as int) =~= wb.subrange(3, wb.len() as int)) by {
            assert forall|i: int| 0 <= i < wa.len() - 3 implies wa.subrange(3, wa.len() as int)[i]
                == wb.subrange(3, wb.len() as int)[i] by {
                assert(a[i + 3] == b[i + 3]);
            }
        }
        assert(a[2] == b[2]);
    }
}

} // verus!
