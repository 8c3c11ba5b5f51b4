//! What the script guest makes of the host's answers, and what it prints.
use crate::text::lossy;
use crate::text::lossy_text;
use vstd::prelude::*;
use vstd::slice::slice_subrange;
use vstd::string::StringExecFns;

verus! {

/// Room for a response, as large as the host's own cap.
pub const MAX_RESPONSE_BYTES: usize = 0x10_0000;

/// Room for a stored value, as large as the host's own cap.
pub const MAX_VALUE_BYTES: usize = 0x1_0000;

/// The bytes that the host left in a buffer, given what it returned: nothing
/// for a refusal, and never more than the buffer holds.
pub open spec fn taken(code: i32, buffer: Seq<u8>) -> Option<Seq<u8>> {
    if code < 0 {
        None
    } else if code <= buffer.len() {
        Some(buffer.take(code as int))
    } else {
        Some(buffer)
    }
}

fn text_in(code: i32, buffer: &[u8]) -> (out: Option<String>)
    ensures
        match (taken(code, buffer@), out) {
            (Some(bytes), Some(text)) => text@ == lossy_text(bytes),
            (None, None) => true,
            _ => false,
        },
{
    if code < 0 {
        return None;
    }
    if code as u32 as usize <= buffer.len() {
        let kept = slice_subrange(buffer, 0, code as u32 as usize);
        assert(kept@ =~= buffer@.take(code as int));
        Some(lossy(kept))
    } else {
        Some(lossy(buffer))
    }
}

/// What `httpGet` gives a script. A refusal is an exception, because a script
/// must be able to tell "blocked" from "the page was empty"; why is not said.
pub fn fetched(url: &str, code: i32, buffer: &[u8]) -> (out: Result<String, String>)
    ensures
        match (taken(code, buffer@), out) {
            (Some(bytes), Ok(text)) => text@ == lossy_text(bytes),
            (None, Err(message)) => message@ == "httpGet refused: "@ + url@,
            _ => false,
        },
{
    match text_in(code, buffer) {
        Some(text) => Ok(text),
        None => {
            let mut message = String::from_str("httpGet refused: ");
            message.append(url);
            Err(message)
        },
    }
}

/// What `session.get` gives a script: nothing for a key that was never written.
pub fn session_get(code: i32, buffer: &[u8]) -> (out: Option<String>)
    ensures
        match (taken(code, buffer@), out) {
            (Some(bytes), Some(text)) => text@ == lossy_text(bytes),
            (None, None) => true,
            _ => false,
        },
{
    text_in(code, buffer)
}

/// What `session.set` gives a script: whether the store accepted it. A full
/// node is a condition that a script can work around.
pub fn session_set(code: i32) -> (out: bool)
    ensures
        out == (code >= 0),
{
    code >= 0
}

/// How an evaluation ended.
pub enum Evaluated {
    Threw(String),
    Undefined,
    /// The completion value, formatted, or what formatting it threw.
    Value(Result<String, String>),
}

/// The line to print after a script, if there is one. An uncaught exception is
/// output and no fault: the program ran and threw. A script of statements only
/// completes with nothing worth a line.
pub open spec fn printed(ended: Evaluated) -> Option<Seq<char>> {
    match ended {
        Evaluated::Threw(why) => Some("Uncaught "@ + why@),
        Evaluated::Undefined => None,
        Evaluated::Value(Ok(text)) => Some(text@),
        Evaluated::Value(Err(why)) => Some("Uncaught "@ + why@),
    }
}

fn uncaught(why: &str) -> (out: String)
    ensures
        out@ == "Uncaught "@ + why@,
{
    let mut out = String::from_str("Uncaught ");
    out.append(why);
    out
}

pub fn report(ended: Evaluated) -> (out: Option<String>)
    ensures
        crate::proto::text_of(out) == printed(ended),
{
    match ended {
        Evaluated::Threw(why) => Some(uncaught(why.as_str())),
        Evaluated::Undefined => None,
        Evaluated::Value(Ok(text)) => Some(text),
        Evaluated::Value(Err(why)) => Some(uncaught(why.as_str())),
    }
}

/// What is printed when the source cannot be read.
pub fn unreadable(why: &str) -> (out: String)
    ensures
        out@ == "Uncaught Error: could not read request body: "@ + why@,
{
    let mut out = String::from_str("Uncaught Error: could not read request body: ");
    out.append(why);
    out
}

/// A script is given all the bytes that the host said it left, as far as the buffer
/// holds them, and nothing for a refusal.
pub proof fn law_a_script_gets_all_that_was_left(code: i32, buffer: Seq<u8>)
    ensures
        taken(code, buffer) is None <==> code < 0,
        code >= 0 ==> taken(code, buffer)->0.is_prefix_of(buffer),
        0 <= code <= buffer.len() ==> taken(code, buffer)->0.len() == code,
        code > buffer.len() ==> taken(code, buffer)->0 == buffer,
{
    if code > buffer.len() {
        assert(buffer =~= buffer.take(buffer.len() as int));
    } else if code >= 0 {
        assert(buffer.take(code as int) =~= buffer.take(code as int).take(code as int));
    }
}

/// What a script came to is printed in full: its value, or what it threw behind a
/// word that says so; a script that came to nothing prints nothing.
pub proof fn law_what_a_script_came_to_is_printed_in_full(ended: Evaluated)
    ensures
        printed(ended) is None <==> ended is Undefined,
        ended matches Evaluated::Value(Ok(text)) ==> printed(ended) == Some(text@),
        ended matches Evaluated::Value(Err(why)) ==> printed(ended) == Some("Uncaught "@ + why@),
        ended matches Evaluated::Threw(why) ==> printed(ended) == Some("Uncaught "@ + why@),
{
}

} // verus!
