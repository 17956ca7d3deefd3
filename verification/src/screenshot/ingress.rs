//! The way in for the messages of sockets.

use crate::json::{lemma_elements, Json, Val};
use crate::screenshot::model::MAX_PACKET_BYTES;
use crate::serial::{parsed, read};
use crate::text::{byte_len, bytes_in, same_text};
use vstd::prelude::*;

verus! {

/// The kind that a message names in its header: the member `what`, or the one
/// element of a list.
pub open spec fn kind_of(message: Val) -> Option<Seq<char>> {
    match message {
        Val::Array(items) => if items.len() == 1 {
            items[0].as_text()
        } else {
            None
        },
        _ => message.text_at("what"@),
    }
}

/// Why a message is refused, if it is. `what` is the kind that the header of the
/// message names, if the message has a header that can be read.
pub open spec fn ingress_error(text: Seq<char>, what: Option<Seq<char>>) -> Option<Seq<char>> {
    if what is None {
        Some("invalid JSON envelope"@)
    } else if what == Some("screenshot_save"@) && byte_len(text) > MAX_PACKET_BYTES {
        Some("screenshot packet exceeds limit"@)
    } else if parsed(text) matches Some(v) && kind_of(v) == what {
        None
    } else {
        Some("invalid JSON envelope"@)
    }
}

/// Whether a message is of a kind.
fn is_kind(message: &Json, kind: &str) -> (is: bool)
    ensures
        is == (kind_of(message@) == Some(kind@)),
{
    match message {
        Json::Array(items) => {
            proof {
                lemma_elements(items@);
            }
            if items.len() != 1 {
                return false;
            }
            match items[0].as_text() {
                Some(s) => same_text(s, kind),
                None => false,
            }
        },
        _ => message.says("what", kind),
    }
}

/// Reads a message whose header names this kind, without building the value of
/// a screenshot packet that is too long. Other messages keep the limits of their
/// transport, and no reason repeats what a message holds. A message of another
/// kind than its header was read to name is refused.
pub fn ingress(text: &str, what: Option<&str>) -> (value: Result<Json, &'static str>)
    ensures
        ({
            let kind = match what {
                Some(w) => Some(w@),
                None => None,
            };
            match value {
                Ok(v) => {
                    &&& ingress_error(text@, kind) is None
                    &&& parsed(text@) == Some(v@)
                    &&& v@ is Object ==> v@.text_at("what"@) == kind
                },
                Err(reason) => ingress_error(text@, kind) == Some(reason@),
            }
        }),
{
    let kind: &str = match what {
        Some(w) => w,
        None => return Err("invalid JSON envelope"),
    };
    if same_text(kind, "screenshot_save") && bytes_in(text) > MAX_PACKET_BYTES {
        return Err("screenshot packet exceeds limit");
    }
    match read(text) {
        Some(v) => {
            if is_kind(&v, kind) {
                Ok(v)
            } else {
                Err("invalid JSON envelope")
            }
        },
        None => Err("invalid JSON envelope"),
    }
}

/// A message is let in exactly where its header names a kind, its text holds a value
/// of that kind, and a screenshot packet keeps to its limit. A packet that is too
/// long is refused as such, whatever it holds.
pub proof fn law_messages_are_let_in_by_kind_and_size(text: Seq<char>, what: Option<Seq<char>>)
    ensures
        ({
            let long = what == Some("screenshot_save"@) && byte_len(text) > 98_304;
            &&& ingress_error(text, what) is None <==> {
                &&& what is Some
                &&& !long
                &&& parsed(text) is Some
                &&& kind_of(parsed(text)->0) == what
            }
            &&& long ==> ingress_error(text, what) == Some("screenshot packet exceeds limit"@)
            &&& !long ==> ingress_error(text, what) is None || ingress_error(text, what) == Some(
                "invalid JSON envelope"@,
            )
        }),
{
}

/// The kind of a message is the text of its member `what`, or of the one item of a
/// list.
pub proof fn law_a_message_names_its_kind(m: Map<Seq<char>, Val>, items: Seq<Val>)
    ensures
        kind_of(Val::Object(m)) == Val::Object(m).text_at("what"@),
        items.len() == 1 ==> kind_of(Val::Array(items)) == items[0].as_text(),
        items.len() != 1 ==> kind_of(Val::Array(items)) is None,
{
}

} // verus!
