//! Answering a request: a RESP array of bulk strings that names a command.
use vstd::prelude::*;

use crate::resp::RESP;
use vstd::utf8::is_ascii_chars;

use crate::storage::{
    answer_view, check_command_complete, command_is_complete, is_clock_instant,
    spec_process_command, spec_run_command, Storage,
};
use crate::text::ascii_lowercase;
use crate::storage_result::{StorageError, StorageErrorView, StorageResult};

verus! {

/// The command that a request holds: the texts of an array made only of bulk strings;
/// no command for anything else.
pub open spec fn request_command(request: RESP) -> Option<Seq<String>> {
    match request {
        RESP::Array(v) => if forall|i: int| 0 <= i < v@.len() ==> #[trigger] v@[i] is BulkString {
            Some(v@.map_values(|e: RESP| e->BulkString_0))
        } else {
            None
        },
        _ => None,
    }
}

/// Tests whether the request can be answered: whether the command it holds, if it holds
/// one, can be run.
pub fn request_is_complete(request: &RESP) -> (b: bool)
    ensures
        b == (request_command(*request) matches Some(command) ==> command_is_complete(command)),
{
    let elements = match request {
        RESP::Array(v) => v,
        _ => {
            return true;
        },
    };
    let mut command: Vec<String> = Vec::new();
    let mut i: usize = 0;
    while i < elements.len()
        invariant
            *request == RESP::Array(*elements),
            i <= elements@.len(),
            forall|j: int| 0 <= j < i ==> #[trigger] elements@[j] is BulkString,
            command@ == elements@.take(i as int).map_values(|e: RESP| e->BulkString_0),
        decreases elements@.len() - i,
    {
        match &elements[i] {
            RESP::BulkString(v) => {
                command.push(v.clone());
                assert(command@ =~= elements@.take(i + 1).map_values(|e: RESP| e->BulkString_0));
            },
            _ => {
                return true;
            },
        }
        i = i + 1;
    }
    assert(elements@.take(i as int) =~= elements@);
    check_command_complete(&command)
}

/// Answers a request with the storage, now: an array of bulk strings is run as a
/// command; any other request is refused as incorrect and leaves the storage as it was.
pub fn process_request(request: RESP, storage: &mut Storage) -> (r: StorageResult<RESP>)
    requires
        old(storage).wf(),
        request_command(request) matches Some(command) ==> command_is_complete(command),
    ensures
        final(storage).wf(),
        match request_command(request) {
            None => answer_view(r) == Err::<crate::resp::RespValue, StorageErrorView>(
                StorageErrorView::IncorrectRequest,
            ) && final(storage)@ == old(storage)@,
            Some(command) => exists|now: i128|
                #![trigger spec_process_command(old(storage)@, command, now)]
                {
                    &&& is_clock_instant(now)
                    &&& spec_process_command(old(storage)@, command, now) == (
                        final(storage)@,
                        answer_view(r),
                    )
                    &&& is_ascii_chars(command[0]@) ==> spec_run_command(
                        old(storage)@,
                        ascii_lowercase(command[0]@),
                        command,
                        now,
                    ) == (final(storage)@, answer_view(r))
                },
        },
{
    let elements = match request {
        RESP::Array(v) => v,
        _ => {
            return Err(StorageError::IncorrectRequest);
        },
    };
    let mut command: Vec<String> = Vec::new();
    let mut i: usize = 0;
    while i < elements.len()
        invariant
            request == RESP::Array(elements),
            storage.wf(),
            storage@ == old(storage)@,
            i <= elements@.len(),
            forall|j: int| 0 <= j < i ==> #[trigger] elements@[j] is BulkString,
            command@ == elements@.take(i as int).map_values(|e: RESP| e->BulkString_0),
        decreases elements@.len() - i,
    {
        match &elements[i] {
            RESP::BulkString(v) => {
                let ghost before = command@;
                command.push(v.clone());
                assert(command@ =~= elements@.take(i + 1).map_values(|e: RESP| e->BulkString_0));
            },
            _ => {
                return Err(StorageError::IncorrectRequest);
            },
        }
        i = i + 1;
    }
    assert(elements@.take(i as int) =~= elements@);
    storage.process_command(&command)
}

/// The command a request holds has one word for each element of the array, in order,
/// each the text of its bulk string exactly as sent (an empty one included); an array
/// with any other element, or a request that is no array, holds none.
pub proof fn law_request_command_keeps_every_word(request: RESP)
    ensures
        match request {
            RESP::Array(v) => if forall|i: int| 0 <= i < v@.len() ==> #[trigger] v@[i] is BulkString {
                &&& request_command(request) is Some
                &&& request_command(request)->0.len() == v@.len()
                &&& forall|i: int|
                    0 <= i < v@.len() ==> v@[i] == RESP::BulkString(
                        #[trigger] request_command(request)->0[i],
                    )
            } else {
                request_command(request) is None
            },
            _ => request_command(request) is None,
        },
{
}

} // verus!
