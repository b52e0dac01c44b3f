//! Command records: what the log holds, and how a record is laid out.
//!
//! A record is JSON text with no separator before or after it:
//! `{"SET":[key,value]}` or `{"RM":key}`, where `key` and `value` are JSON
//! strings. The frame is checked here byte by byte; the strings inside are
//! written and read by `serde_json`.

use vstd::prelude::*;
use vstd::slice::slice_subrange;
use crate::error::KVStoreError;
use crate::json::{json_decode, json_encode, json_parse, json_text, reads_as};

verus! {

/// One mutation of the store.
#[derive(Debug, Clone)]
pub enum Command {
    /// Assigns a value to a key.
    SET(String, String),
    /// Deletes a key.
    RM(String),
}

/// A command as a mathematical value.
pub enum CommandView {
    SET(Seq<char>, Seq<char>),
    RM(Seq<char>),
}

impl View for Command {
    type V = CommandView;

    open spec fn view(&self) -> CommandView {
        match self {
            Command::SET(key, value) => CommandView::SET(key@, value@),
            Command::RM(key) => CommandView::RM(key@),
        }
    }
}

/// `{"SET":[`
pub open spec fn set_open() -> Seq<u8> {
    seq![123u8, 34u8, 83u8, 69u8, 84u8, 34u8, 58u8, 91u8]
}

/// `]}`
pub open spec fn set_close() -> Seq<u8> {
    seq![93u8, 125u8]
}

/// `{"RM":`
pub open spec fn rm_open() -> Seq<u8> {
    seq![123u8, 34u8, 82u8, 77u8, 34u8, 58u8]
}

/// `}`
pub open spec fn rm_close() -> Seq<u8> {
    seq![125u8]
}

/// `,`
pub open spec fn comma() -> Seq<u8> {
    seq![44u8]
}

/// A `SET` record around the JSON texts of its key and value.
pub open spec fn set_frame(key_text: Seq<u8>, value_text: Seq<u8>) -> Seq<u8> {
    set_open() + key_text + comma() + value_text + set_close()
}

/// An `RM` record around the JSON text of its key.
pub open spec fn rm_frame(key_text: Seq<u8>) -> Seq<u8> {
    rm_open() + key_text + rm_close()
}

/// The bytes of the record `SET(key, value)`.
pub open spec fn set_record(key: Seq<char>, value: Seq<char>) -> Seq<u8> {
    set_frame(json_text(key), json_text(value))
}

/// The bytes of the record `RM(key)`.
pub open spec fn rm_record(key: Seq<char>) -> Seq<u8> {
    rm_frame(json_text(key))
}

/// Reads what follows `{"SET":[`.
pub open spec fn parse_set(b: Seq<u8>) -> Option<(CommandView, int)> {
    match json_parse(b.skip(8)) {
        Some((key, n1)) => {
            if 0 < n1 && 8 + n1 < b.len() && b[8 + n1] == 44u8 {
                match json_parse(b.skip(9 + n1)) {
                    Some((value, n2)) => {
                        if 0 < n2 && 9 + n1 + n2 <= b.len() && set_close().is_prefix_of(
                            b.skip(9 + n1 + n2),
                        ) {
                            Some((CommandView::SET(key, value), 11 + n1 + n2))
                        } else {
                            None
                        }
                    },
                    None => None,
                }
            } else {
                None
            }
        },
        None => None,
    }
}

/// Reads what follows `{"RM":`.
pub open spec fn parse_rm(b: Seq<u8>) -> Option<(CommandView, int)> {
    match json_parse(b.skip(6)) {
        Some((key, n1)) => {
            if 0 < n1 && 6 + n1 <= b.len() && rm_close().is_prefix_of(b.skip(6 + n1)) {
                Some((CommandView::RM(key), 7 + n1))
            } else {
                None
            }
        },
        None => None,
    }
}

/// The record at the front of `b`, with its length in bytes; `None` where
/// `b` does not begin with a record.
pub open spec fn parse_record(b: Seq<u8>) -> Option<(CommandView, int)> {
    if set_open().is_prefix_of(b) {
        parse_set(b)
    } else if rm_open().is_prefix_of(b) {
        parse_rm(b)
    } else {
        None
    }
}

/// `r` is one whole record that reads as `c`, whatever bytes follow it.
pub open spec fn stable_record(r: Seq<u8>, c: CommandView) -> bool {
    &&& r.len() > 0
    &&& forall|b: Seq<u8>| r.is_prefix_of(b) ==> #[trigger] parse_record(b) == Some((c, r.len() as int))
}

/// A stable record reads as its command when nothing follows it.
pub proof fn lemma_stable_record_parses(r: Seq<u8>, c: CommandView)
    requires
        stable_record(r, c),
    ensures
        parse_record(r) == Some((c, r.len() as int)),
{
    assert(r.is_prefix_of(r));
}

/// A part of a prefix of `b` stands in `b` where it stood in the prefix.
proof fn lemma_part_of_prefix(r: Seq<u8>, b: Seq<u8>, i: int, j: int)
    requires
        r.is_prefix_of(b),
        0 <= i <= j <= r.len(),
    ensures
        r.subrange(i, j).is_prefix_of(b.skip(i)),
        forall|k: int| 0 <= k < r.len() ==> b[k] == r[k],
{
    assert(r =~= b.subrange(0, r.len() as int));
    assert(r.subrange(i, j) =~= b.skip(i).subrange(0, j - i));
    assert forall|k: int| 0 <= k < r.len() implies b[k] == r[k] by {
        assert(b.subrange(0, r.len() as int)[k] == b[k]);
    }
}

/// A `SET` frame around two texts that read as `key` and `value` is a
/// stable record.
pub proof fn lemma_set_frame_stable(
    key_text: Seq<u8>,
    value_text: Seq<u8>,
    key: Seq<char>,
    value: Seq<char>,
)
    requires
        reads_as(key_text, key),
        reads_as(value_text, value),
    ensures
        stable_record(set_frame(key_text, value_text), CommandView::SET(key, value)),
        set_frame(key_text, value_text).len() == 11 + key_text.len() + value_text.len(),
{
    let r = set_frame(key_text, value_text);
    let n1 = key_text.len() as int;
    let n2 = value_text.len() as int;
    assert(set_open() =~= r.subrange(0, 8));
    assert(key_text =~= r.subrange(8, 8 + n1));
    assert(value_text =~= r.subrange(9 + n1, 9 + n1 + n2));
    assert(set_close() =~= r.subrange(9 + n1 + n2, 11 + n1 + n2));
    assert forall|b: Seq<u8>| r.is_prefix_of(b) implies #[trigger] parse_record(b) == Some(
        (CommandView::SET(key, value), r.len() as int),
    ) by {
        lemma_part_of_prefix(r, b, 0, 8);
        lemma_part_of_prefix(r, b, 8, 8 + n1);
        lemma_part_of_prefix(r, b, 9 + n1, 9 + n1 + n2);
        lemma_part_of_prefix(r, b, 9 + n1 + n2, 11 + n1 + n2);
        assert(b.skip(0) =~= b);
        assert(b[8 + n1] == r[8 + n1]);
    }
}

/// An `RM` frame around a text that reads as `key` is a stable record.
pub proof fn lemma_rm_frame_stable(key_text: Seq<u8>, key: Seq<char>)
    requires
        reads_as(key_text, key),
    ensures
        stable_record(rm_frame(key_text), CommandView::RM(key)),
        rm_frame(key_text).len() == 7 + key_text.len(),
{
    let r = rm_frame(key_text);
    let n1 = key_text.len() as int;
    assert(rm_open() =~= r.subrange(0, 6));
    assert(key_text =~= r.subrange(6, 6 + n1));
    assert(rm_close() =~= r.subrange(6 + n1, 7 + n1));
    assert forall|b: Seq<u8>| r.is_prefix_of(b) implies #[trigger] parse_record(b) == Some(
        (CommandView::RM(key), r.len() as int),
    ) by {
        lemma_part_of_prefix(r, b, 0, 6);
        lemma_part_of_prefix(r, b, 6, 6 + n1);
        lemma_part_of_prefix(r, b, 6 + n1, 7 + n1);
        assert(b.skip(0) =~= b);
        assert(!set_open().is_prefix_of(b)) by {
            if set_open().is_prefix_of(b) {
                assert(b.subrange(0, 8)[2] == b[2]);
                assert(b.subrange(0, 6)[2] == b[2]);
                assert(set_open()[2] == 83u8);
                assert(rm_open()[2] == 82u8);
            }
        }
    }
}

/// Frames a `SET` record from what the JSON encoder gave for key and value.
pub fn frame_set(
    key_text: Result<Vec<u8>, serde_json::Error>,
    value_text: Result<Vec<u8>, serde_json::Error>,
) -> (r: Result<Vec<u8>, KVStoreError>)
    ensures
        match (key_text, value_text) {
            (Ok(k), Ok(v)) => r matches Ok(bytes) && bytes@ == set_frame(k@, v@),
            _ => r == Err::<Vec<u8>, KVStoreError>(KVStoreError::Encoding),
        },
{
    match (key_text, value_text) {
        (Ok(k), Ok(v)) => {
            let mut out: Vec<u8> = Vec::new();
            out.push(123u8);
            out.push(34u8);
            out.push(83u8);
            out.push(69u8);
            out.push(84u8);
            out.push(34u8);
            out.push(58u8);
            out.push(91u8);
            assert(out@ =~= set_open());
            out.extend_from_slice(k.as_slice());
            out.push(44u8);
            out.extend_from_slice(v.as_slice());
            out.push(93u8);
            out.push(125u8);
            assert(out@ =~= set_frame(k@, v@));
            Ok(out)
        },
        _ => Err(KVStoreError::Encoding),
    }
}

/// Frames an `RM` record from what the JSON encoder gave for the key.
pub fn frame_rm(key_text: Result<Vec<u8>, serde_json::Error>) -> (r: Result<
    Vec<u8>,
    KVStoreError,
>)
    ensures
        match key_text {
            Ok(k) => r matches Ok(bytes) && bytes@ == rm_frame(k@),
            Err(_) => r == Err::<Vec<u8>, KVStoreError>(KVStoreError::Encoding),
        },
{
    match key_text {
        Ok(k) => {
            let mut out: Vec<u8> = Vec::new();
            out.push(123u8);
            out.push(34u8);
            out.push(82u8);
            out.push(77u8);
            out.push(34u8);
            out.push(58u8);
            assert(out@ =~= rm_open());
            out.extend_from_slice(k.as_slice());
            out.push(125u8);
            assert(out@ =~= rm_frame(k@));
            Ok(out)
        },
        Err(_) => Err(KVStoreError::Encoding),
    }
}

/// Encodes `SET(key, value)`. Every key and value can be encoded.
pub fn encode_set(key: &str, value: &str) -> (r: Result<Vec<u8>, KVStoreError>)
    ensures
        r matches Ok(bytes) && bytes@ == set_record(key@, value@) && stable_record(
            bytes@,
            CommandView::SET(key@, value@),
        ),
{
    let key_text = json_encode(key);
    let value_text = json_encode(value);
    proof {
        lemma_set_frame_stable(key_text->Ok_0@, value_text->Ok_0@, key@, value@);
    }
    frame_set(key_text, value_text)
}

/// Encodes `RM(key)`. Every key can be encoded.
pub fn encode_rm(key: &str) -> (r: Result<Vec<u8>, KVStoreError>)
    ensures
        r matches Ok(bytes) && bytes@ == rm_record(key@) && stable_record(
            bytes@,
            CommandView::RM(key@),
        ),
{
    let key_text = json_encode(key);
    proof {
        lemma_rm_frame_stable(key_text->Ok_0@, key@);
    }
    frame_rm(key_text)
}

/// Encodes a command as one record. Every command can be encoded.
pub fn encode(command: &Command) -> (r: Result<Vec<u8>, KVStoreError>)
    ensures
        r matches Ok(bytes) && stable_record(bytes@, command@) && bytes@ == match command@ {
            CommandView::SET(key, value) => set_record(key, value),
            CommandView::RM(key) => rm_record(key),
        },
{
    match command {
        Command::SET(key, value) => encode_set(key.as_str(), value.as_str()),
        Command::RM(key) => encode_rm(key.as_str()),
    }
}

/// Whether `bytes` begins with `{"SET":[`.
fn has_set_open(bytes: &[u8]) -> (r: bool)
    ensures
        r == set_open().is_prefix_of(bytes@),
{
    let r = bytes.len() >= 8 && bytes[0] == 123u8 && bytes[1] == 34u8 && bytes[2] == 83u8
        && bytes[3] == 69u8 && bytes[4] == 84u8 && bytes[5] == 34u8 && bytes[6] == 58u8
        && bytes[7] == 91u8;
    proof {
        if r {
            assert(set_open() =~= bytes@.subrange(0, 8));
        } else if bytes.len() >= 8 {
            let p = bytes@.subrange(0, 8);
            assert(p[0] == bytes@[0] && p[1] == bytes@[1] && p[2] == bytes@[2] && p[3]
                == bytes@[3] && p[4] == bytes@[4] && p[5] == bytes@[5] && p[6] == bytes@[6]
                && p[7] == bytes@[7]);
        }
    }
    r
}

/// Whether `bytes` begins with `{"RM":`.
fn has_rm_open(bytes: &[u8]) -> (r: bool)
    ensures
        r == rm_open().is_prefix_of(bytes@),
{
    let r = bytes.len() >= 6 && bytes[0] == 123u8 && bytes[1] == 34u8 && bytes[2] == 82u8
        && bytes[3] == 77u8 && bytes[4] == 34u8 && bytes[5] == 58u8;
    proof {
        if r {
            assert(rm_open() =~= bytes@.subrange(0, 6));
        } else if bytes.len() >= 6 {
            let p = bytes@.subrange(0, 6);
            assert(p[0] == bytes@[0] && p[1] == bytes@[1] && p[2] == bytes@[2] && p[3]
                == bytes@[3] && p[4] == bytes@[4] && p[5] == bytes@[5]);
        }
    }
    r
}

/// Reads the rest of a `SET` record.
fn decode_set(bytes: &[u8]) -> (r: Option<(Command, usize)>)
    requires
        set_open().is_prefix_of(bytes@),
    ensures
        match r {
            Some((c, n)) => {
                &&& parse_set(bytes@) == Some((c@, n as int))
                &&& 0 < n <= bytes@.len()
                &&& stable_record(bytes@.take(n as int), c@)
            },
            None => parse_set(bytes@) is None,
        },
{
    let len = bytes.len();
    let (key, n1) = match json_decode(slice_subrange(bytes, 8, len)) {
        Some(found) => found,
        None => { return None; },
    };
    if n1 == 0 || n1 >= len - 8 || bytes[8 + n1] != 44u8 {
        return None;
    }
    let (value, n2) = match json_decode(slice_subrange(bytes, 9 + n1, len)) {
        Some(found) => found,
        None => { return None; },
    };
    if n2 == 0 || len - 9 - n1 - n2 < 2 || bytes[9 + n1 + n2] != 93u8 || bytes[10 + n1 + n2]
        != 125u8 {
        proof {
            if 0 < n2 && 9 + n1 + n2 <= len {
                let tail = bytes@.skip(9 + n1 + n2);
                if set_close().is_prefix_of(tail) {
                    let p = tail.subrange(0, 2);
                    assert(p[0] == bytes@[9 + n1 + n2] && p[1] == bytes@[10 + n1 + n2]);
                }
            }
        }
        return None;
    }
    let n = 11 + n1 + n2;
    proof {
        let b = bytes@;
        let key_text = b.skip(8).take(n1 as int);
        let value_text = b.skip(9 + n1).take(n2 as int);
        assert(set_close() =~= b.skip(9 + n1 + n2).subrange(0, 2));
        lemma_set_frame_stable(key_text, value_text, key@, value@);
        assert(b.take(n as int) =~= set_frame(key_text, value_text));
    }
    Some((Command::SET(key, value), n))
}

/// Reads the rest of an `RM` record.
fn decode_rm(bytes: &[u8]) -> (r: Option<(Command, usize)>)
    requires
        rm_open().is_prefix_of(bytes@),
    ensures
        match r {
            Some((c, n)) => {
                &&& parse_rm(bytes@) == Some((c@, n as int))
                &&& 0 < n <= bytes@.len()
                &&& stable_record(bytes@.take(n as int), c@)
            },
            None => parse_rm(bytes@) is None,
        },
{
    let len = bytes.len();
    let (key, n1) = match json_decode(slice_subrange(bytes, 6, len)) {
        Some(found) => found,
        None => { return None; },
    };
    if n1 == 0 || n1 >= len - 6 || bytes[6 + n1] != 125u8 {
        proof {
            if 0 < n1 && 6 + n1 <= len {
                let tail = bytes@.skip(6 + n1);
                if rm_close().is_prefix_of(tail) {
                    let p = tail.subrange(0, 1);
                    assert(p[0] == bytes@[6 + n1]);
                }
            }
        }
        return None;
    }
    let n = 7 + n1;
    proof {
        let b = bytes@;
        let key_text = b.skip(6).take(n1 as int);
        assert(rm_close() =~= b.skip(6 + n1).subrange(0, 1));
        lemma_rm_frame_stable(key_text, key@);
        assert(b.take(n as int) =~= rm_frame(key_text));
    }
    Some((Command::RM(key), n))
}

/// Reads the record at the front of `bytes`: the command, and how many
/// bytes it takes. `None` where `bytes` does not begin with a record.
pub fn decode_record(bytes: &[u8]) -> (r: Option<(Command, usize)>)
    ensures
        match r {
            Some((c, n)) => {
                &&& parse_record(bytes@) == Some((c@, n as int))
                &&& 0 < n <= bytes@.len()
                &&& stable_record(bytes@.take(n as int), c@)
            },
            None => parse_record(bytes@) is None,
        },
{
    if has_set_open(bytes) {
        decode_set(bytes)
    } else if has_rm_open(bytes) {
        decode_rm(bytes)
    } else {
        None
    }
}

} // verus!
