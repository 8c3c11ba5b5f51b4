//! Header values as text.
use crate::text::string_of;
use crate::text::trim_chars;
use crate::text::trim;
use vstd::prelude::*;

verus! {

/// A byte that may stand in a header value and be read as text.
pub open spec fn is_visible(b: u8) -> bool {
    (32 <= b && b < 127) || b == 9
}

pub open spec fn is_printable(raw: Seq<u8>) -> bool {
    forall|i: int| 0 <= i < raw.len() ==> is_visible(#[trigger] raw[i])
}

/// The bytes of a header value, one character each.
pub open spec fn as_text(raw: Seq<u8>) -> Seq<char> {
    raw.map_values(|b: u8| b as char)
}

/// A header value as characters: visible ASCII and tabs, or nothing.
pub fn header_chars(raw: &[u8]) -> (out: Option<Vec<char>>)
    ensures
        match out {
            Some(chars) => is_printable(raw@) && chars@ == as_text(raw@),
            None => !is_printable(raw@),
        },
{
    let mut out: Vec<char> = Vec::new();
    let mut i: usize = 0;
    while i < raw.len()
        invariant
            i <= raw@.len(),
            forall|k: int| 0 <= k < i ==> is_visible(#[trigger] raw@[k]),
            out@ == as_text(raw@.take(i as int)),
        decreases raw@.len() - i,
    {
        let b: u8 = raw[i];
        if !((32 <= b && b < 127) || b == 9) {
            return None;
        }
        out.push(b as char);
        i += 1;
        assert(out@ =~= as_text(raw@.take(i as int)));
    }
    assert(raw@.take(i as int) =~= raw@);
    Some(out)
}

/// A header value as text, if it is printable ASCII.
pub fn header_text(raw: &[u8]) -> (out: Option<String>)
    ensures
        match out {
            Some(text) => is_printable(raw@) && text@ == as_text(raw@),
            None => !is_printable(raw@),
        },
{
    match header_chars(raw) {
        Some(chars) => Some(string_of(&chars)),
        None => None,
    }
}

/// A byte that may be sent in a header value: more than may be read as text.
pub open spec fn is_sendable(b: u8) -> bool {
    (32 <= b && b != 127) || b == 9
}

/// Bytes that may be sent as a header value.
pub open spec fn all_sendable(raw: Seq<u8>) -> bool {
    forall|i: int| 0 <= i < raw.len() ==> is_sendable(#[trigger] raw[i])
}

/// Whether bytes may be sent as a header value: no control character but the
/// tab.
pub fn may_be_sent(raw: &[u8]) -> (out: bool)
    ensures
        out == all_sendable(raw@),
{
    let mut i: usize = 0;
    while i < raw.len()
        invariant
            i <= raw@.len(),
            forall|k: int| 0 <= k < i ==> is_sendable(#[trigger] raw@[k]),
        decreases raw@.len() - i,
    {
        let b: u8 = raw[i];
        if !((32 <= b && b != 127) || b == 9) {
            assert(!is_sendable(raw@[i as int]));
            return false;
        }
        i += 1;
    }
    true
}

/// What a caller-supplied key header says, when it says something usable: not
/// blank, at most `max` bytes, without the white space around it.
pub open spec fn key_of(raw: Seq<u8>, max: nat) -> Option<Seq<char>> {
    let key = trim(as_text(raw));
    if is_printable(raw) && key.len() > 0 && raw.len() <= max {
        Some(key)
    } else {
        None
    }
}

/// Reads a key header.
pub fn read_key(raw: &[u8], max: usize) -> (out: Option<String>)
    ensures
        match out {
            Some(key) => key_of(raw@, max as nat) == Some(key@),
            None => key_of(raw@, max as nat) is None,
        },
{
    let chars = match header_chars(raw) {
        Some(chars) => chars,
        None => {
            return None;
        },
    };
    let key = trim_chars(&chars);
    if key.len() > 0 && raw.len() <= max {
        Some(string_of(&key))
    } else {
        None
    }
}

/// A header value is read as text exactly when it holds only the visible bytes of
/// ASCII, the blank and the tab, and then byte by byte.
pub proof fn law_a_header_is_read_byte_by_byte(raw: Seq<u8>, i: int)
    requires
        0 <= i < raw.len(),
    ensures
        is_printable(raw) ==> raw[i] == 9 || (raw[i] >= 32 && raw[i] <= 126),
        (forall|k: int| 0 <= k < raw.len() ==> #[trigger] raw[k] == 9 || (raw[k] >= 32 && raw[k] <= 126))
            ==> is_printable(raw),
        as_text(raw).len() == raw.len(),
        as_text(raw)[i] as int == raw[i],
{
    if is_printable(raw) {
        assert(is_visible(raw[i]));
    }
}

/// A header value may be sent exactly when no byte of it is a control character
/// other than the tab.
pub proof fn law_control_characters_are_not_sent(raw: Seq<u8>)
    ensures
        all_sendable(raw) <==> forall|i: int|
            0 <= i < raw.len() ==> !(#[trigger] raw[i] < 9 || (raw[i] > 9 && raw[i] < 32) || raw[i]
                == 127),
{
    if all_sendable(raw) {
        assert forall|i: int| 0 <= i < raw.len() implies !(#[trigger] raw[i] < 9 || (raw[i] > 9
            && raw[i] < 32) || raw[i] == 127) by {
            assert(is_sendable(raw[i]));
        }
    }
}

/// A key is what a header says without the blanks around it, all of it, and there
/// is none in a header that is blank, too long or not text.
pub proof fn law_a_key_is_the_whole_trimmed_header(raw: Seq<u8>, max: nat)
    ensures
        key_of(raw, max) is Some <==> is_printable(raw) && raw.len() <= max && trim(
            as_text(raw),
        ).len() > 0,
        key_of(raw, max) is Some ==> key_of(raw, max)->0 == trim(as_text(raw)),
{
}

} // verus!
