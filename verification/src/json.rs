//! JSON text of strings, as `serde_json` writes and reads it.
//!
//! The store does not know how a string is escaped. It asks `serde_json`,
//! and relies on two facts only: the text of a string reads back as that
//! string, and a string that was read depends on nothing behind the bytes
//! that were consumed for it.

use vstd::prelude::*;

verus! {

/// `serde_json::Error`: why a text could not be written or read. Nothing is
/// known of a value of it.
#[verifier::external_type_specification]
#[verifier::external_body]
pub struct ExJsonError(serde_json::Error);

/// The bytes that `serde_json::to_vec` writes for the string `s`.
pub uninterp spec fn json_text(s: Seq<char>) -> Seq<u8>;

/// The first value of `bytes` read as a string by a `serde_json` stream
/// deserializer, with the number of bytes consumed for it; `None` where the
/// bytes do not begin with a JSON string.
pub uninterp spec fn json_parse(bytes: Seq<u8>) -> Option<(Seq<char>, int)>;

/// `text` reads as the string `s`, whatever follows it.
pub open spec fn reads_as(text: Seq<u8>, s: Seq<char>) -> bool {
    &&& text.len() > 0
    &&& forall|bytes: Seq<u8>|
        text.is_prefix_of(bytes) ==> #[trigger] json_parse(bytes) == Some((s, text.len() as int))
}

/// Calls `serde_json::to_vec` on a string slice. The contract claims that
/// the call succeeds: a string is written into a vector, and neither can
/// refuse. It names the bytes written, and claims that a stream
/// deserializer reads them back as `s`, consuming exactly those bytes,
/// whatever bytes follow.
#[verifier::external_body]
pub(crate) fn json_encode(s: &str) -> (r: Result<Vec<u8>, serde_json::Error>)
    ensures
        match r {
            Ok(text) => text@ == json_text(s@) && reads_as(text@, s@),
            Err(_) => false,
        },
{
    serde_json::to_vec(s)
}

/// Reads the first value of `bytes` as a `String` with
/// `serde_json::StreamDeserializer::next`, and asks `byte_offset` how many
/// bytes that took. The contract names the outcome, and claims of a string
/// that was read: it took at least one byte and no more than there are, and
/// the bytes consumed read as the same string in front of any other bytes.
#[verifier::external_body]
pub(crate) fn json_decode(bytes: &[u8]) -> (r: Option<(String, usize)>)
    ensures
        match r {
            Some((s, n)) => {
                &&& json_parse(bytes@) == Some((s@, n as int))
                &&& n <= bytes@.len()
                &&& reads_as(bytes@.take(n as int), s@)
            },
            None => json_parse(bytes@) is None,
        },
{
    let mut stream = serde_json::Deserializer::from_slice(bytes).into_iter::<String>();
    match stream.next() {
        Some(Ok(s)) => Some((s, stream.byte_offset())),
        Some(Err(_)) => None,
        None => None,
    }
}

} // verus!
