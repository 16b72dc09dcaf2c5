//! The command surface: picking the arguments apart and naming the action.

use crate::bytes::bytes_equal;
use vstd::prelude::*;
use vstd::string::StringSliceAdditionalSpecFns;

verus! {

/// One of the four operations that a command can ask for.
#[derive(Debug, Clone, Copy, PartialEq, Eq)]
pub enum Action {
    Get,
    Delete,
    Insert,
    Update,
}

/// The action that a word names, if it names one. Words are compared by
/// their bytes.
pub open spec fn action_named(word: Seq<u8>) -> Option<Action> {
    if word == "get".spec_bytes() {
        Some(Action::Get)
    } else if word == "delete".spec_bytes() {
        Some(Action::Delete)
    } else if word == "insert".spec_bytes() {
        Some(Action::Insert)
    } else if word == "update".spec_bytes() {
        Some(Action::Update)
    } else {
        None
    }
}

/// The action that `word` names: `get`, `delete`, `insert` or `update`, and
/// nothing for any other word.
pub fn parse_action(word: &str) -> (action: Option<Action>)
    ensures
        action == action_named(word.spec_bytes()),
{
    let bytes = word.as_bytes();
    if bytes_equal(bytes, "get".as_bytes()) {
        Some(Action::Get)
    } else if bytes_equal(bytes, "delete".as_bytes()) {
        Some(Action::Delete)
    } else if bytes_equal(bytes, "insert".as_bytes()) {
        Some(Action::Insert)
    } else if bytes_equal(bytes, "update".as_bytes()) {
        Some(Action::Update)
    } else {
        None
    }
}

/// Picks the file name, the action, the key and, where there is one, the
/// value out of a command line. The first argument is the program's name
/// and is passed over.
pub fn parse_input(args: &Vec<String>) -> (parsed: (&str, &str, &str, Option<&str>))
    requires
        args@.len() >= 4,
    ensures
        parsed.0@ == args@[1]@,
        parsed.1@ == args@[2]@,
        parsed.2@ == args@[3]@,
        parsed.3 is Some <==> args@.len() > 4,
        parsed.3 is Some ==> parsed.3.unwrap()@ == args@[4]@,
{
    let file_name = args[1].as_str();
    let action = args[2].as_str();
    let key = args[3].as_str();
    let maybe_value = if args.len() > 4 {
        Some(args[4].as_str())
    } else {
        None
    };
    (file_name, action, key, maybe_value)
}

} // verus!
