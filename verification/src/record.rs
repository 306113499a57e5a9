//! The records of the log and their encoding as JSON text.
//!
//! A record is one JSON object with a single member, named after the kind of
//! record, whose value is an object of string members:
//! `{"SetRecord":{"key":"k","value":"v"}}` and `{"RemoveRecord":{"key":"k"}}`.
//! Records follow each other in a segment with nothing in between; white
//! space between them is passed over.

use std::collections::BTreeMap;
use vstd::prelude::*;
use vstd::string::*;
use crate::error::KvsError;

verus! {

/// One entry of the log.
#[derive(Debug, PartialEq, Eq)]
pub enum Record {
    /// The key has this value from here on.
    SetRecord { key: String, value: String },
    /// The key has no value from here on.
    RemoveRecord { key: String },
}

/// What a record says, as mathematical strings.
pub enum RecordView {
    SetRecord { key: Seq<char>, value: Seq<char> },
    RemoveRecord { key: Seq<char> },
}

impl View for Record {
    type V = RecordView;

    open spec fn view(&self) -> RecordView {
        match self {
            Record::SetRecord { key, value } => RecordView::SetRecord { key: key@, value: value@ },
            Record::RemoveRecord { key } => RecordView::RemoveRecord { key: key@ },
        }
    }
}

impl RecordView {
    /// The key that the record is about.
    pub open spec fn key(self) -> Seq<char> {
        match self {
            RecordView::SetRecord { key, .. } => key,
            RecordView::RemoveRecord { key } => key,
        }
    }
}

/// The error type of `serde_json`.
#[verifier::external_type_specification]
#[verifier::external_body]
pub struct ExJsonError(serde_json::Error);

/// The JSON text that `serde_json::to_vec` gives for a string: `None` where
/// it fails.
pub uninterp spec fn json_string(s: Seq<char>) -> Option<Seq<u8>>;

/// What the first step of `serde_json`'s stream deserializer gives on
/// `input`, read as an object of objects of strings: `None` at the end of the
/// input, `Some(None)` on an error, else the members in the order of their
/// names, each with its own members in the order of theirs.
pub uninterp spec fn json_item(input: Seq<u8>) -> Option<
    Option<Seq<(Seq<char>, Seq<(Seq<char>, Seq<char>)>)>>,
>;

/// The byte offset that the stream deserializer reports after that step.
pub uninterp spec fn json_offset(input: Seq<u8>) -> nat;

/// The members of an object of strings, as mathematical strings.
pub open spec fn members_view(members: Seq<(String, String)>) -> Seq<(Seq<char>, Seq<char>)> {
    members.map_values(|m: (String, String)| (m.0@, m.1@))
}

/// The members of an object of objects of strings, as mathematical strings.
pub open spec fn object_view(object: Seq<(String, Vec<(String, String)>)>) -> Seq<
    (Seq<char>, Seq<(Seq<char>, Seq<char>)>),
> {
    object.map_values(|m: (String, Vec<(String, String)>)| (m.0@, members_view(m.1@)))
}

/// Calls `serde_json::to_vec` on `s`. The contract only gives the outcome
/// its name, `json_string`.
#[verifier::external_body]
fn json_text(s: &str) -> (r: Result<Vec<u8>, serde_json::Error>)
    ensures
        match r {
            Ok(bytes) => json_string(s@) == Some(bytes@),
            Err(_) => json_string(s@) is None,
        },
{
    serde_json::to_vec(s)
}

/// Makes a stream deserializer on `input` with
/// `serde_json::Deserializer::from_slice` and `into_iter`, asks it for one
/// object of objects of strings with `next`, and reads `byte_offset`. The
/// contract only gives the two outcomes their names, `json_item` and
/// `json_offset`.
#[verifier::external_body]
fn json_read(input: &[u8]) -> (r: (
    Option<Result<Vec<(String, Vec<(String, String)>)>, serde_json::Error>>,
    usize,
))
    ensures
        r.1 == json_offset(input@),
        match r.0 {
            None => json_item(input@) is None,
            Some(Err(_)) => json_item(input@) == Some(
                None::<Seq<(Seq<char>, Seq<(Seq<char>, Seq<char>)>)>>,
            ),
            Some(Ok(object)) => json_item(input@) == Some(Some(object_view(object@))),
        },
{
    let mut stream = serde_json::Deserializer::from_slice(input).into_iter::<
        BTreeMap<String, BTreeMap<String, String>>,
    >();
    let item = stream.next();
    let offset = stream.byte_offset();
    (item.map(|r| r.map(|o| o.into_iter().map(|(k, m)| (k, m.into_iter().collect())).collect())), offset)
}

/// The record that an object of objects of strings stands for: the object
/// has one member, named after the kind of record, and that member has the
/// members of the kind, no others, in the order of their names.
pub open spec fn record_of(object: Seq<(Seq<char>, Seq<(Seq<char>, Seq<char>)>)>) -> Option<
    RecordView,
> {
    if object.len() != 1 {
        None
    } else {
        let kind = object[0].0;
        let members = object[0].1;
        if kind == "SetRecord"@ && members.len() == 2 && members[0].0 == "key"@ && members[1].0
            == "value"@ {
            Some(RecordView::SetRecord { key: members[0].1, value: members[1].1 })
        } else if kind == "RemoveRecord"@ && members.len() == 1 && members[0].0 == "key"@ {
            Some(RecordView::RemoveRecord { key: members[0].1 })
        } else {
            None
        }
    }
}

/// What one decoding step finds at the front of `input`.
pub enum Decoded {
    /// Nothing but white space is left.
    End,
    /// The bytes are no record.
    Corrupt,
    /// A record, which ends `len` bytes into the input.
    Item { record: RecordView, len: nat },
}

/// One decoding step on `input`: the JSON object at its front, read as a
/// record, and the offset behind it, which lies in the input and past its
/// start.
pub open spec fn decoding(input: Seq<u8>) -> Decoded {
    match json_item(input) {
        None => Decoded::End,
        Some(None) => Decoded::Corrupt,
        Some(Some(object)) => match record_of(object) {
            None => Decoded::Corrupt,
            Some(record) => if 0 < json_offset(input) <= input.len() {
                Decoded::Item { record, len: json_offset(input) }
            } else {
                Decoded::Corrupt
            },
        },
    }
}

/// The text of a `Set` record around the JSON texts of its key and value.
pub open spec fn set_text(key: Seq<u8>, value: Seq<u8>) -> Seq<u8> {
    "{\"SetRecord\":{\"key\":".spec_bytes() + key + ",\"value\":".spec_bytes() + value
        + "}}".spec_bytes()
}

/// The text of a `Remove` record around the JSON text of its key.
pub open spec fn remove_text(key: Seq<u8>) -> Seq<u8> {
    "{\"RemoveRecord\":{\"key\":".spec_bytes() + key + "}}".spec_bytes()
}

/// The bytes that stand for a record in the log: `None` where one of its
/// strings has no JSON text.
pub open spec fn encoding(record: RecordView) -> Option<Seq<u8>> {
    match record {
        RecordView::SetRecord { key, value } => if json_string(key) is Some && json_string(
            value,
        ) is Some {
            Some(set_text(json_string(key)->0, json_string(value)->0))
        } else {
            None
        },
        RecordView::RemoveRecord { key } => if json_string(key) is Some {
            Some(remove_text(json_string(key)->0))
        } else {
            None
        },
    }
}

/// Whether `s` is the string `text`.
fn is_text(s: &String, text: &str) -> (b: bool)
    ensures
        b == (s@ == text@),
{
    let t = text.to_owned();
    *s == t
}

/// Reads an object of objects of strings as a record.
pub fn record_from(object: Vec<(String, Vec<(String, String)>)>) -> (r: Option<Record>)
    ensures
        match record_of(object_view(object@)) {
            Some(record) => r is Some && r->0@ == record,
            None => r is None,
        },
{
    let mut object = object;
    if object.len() != 1 {
        return None;
    }
    let ghost members_before = object@[0].1@;
    let (kind, mut members) = object.pop().unwrap();
    assert(members@ == members_before);
    if is_text(&kind, "SetRecord") && members.len() == 2 && is_text(&members[0].0, "key")
        && is_text(&members[1].0, "value") {
        let (_, value) = members.pop().unwrap();
        let (_, key) = members.pop().unwrap();
        Some(Record::SetRecord { key, value })
    } else if is_text(&kind, "RemoveRecord") && members.len() == 1 && is_text(
        &members[0].0,
        "key",
    ) {
        let (_, key) = members.pop().unwrap();
        Some(Record::RemoveRecord { key })
    } else {
        None
    }
}

/// Decodes the record at the front of `input`, with the offset behind it.
/// `Ok(None)` says that the input has come to its end; bytes that are no
/// record give `Corruption`.
pub fn decode(input: &[u8]) -> (r: Result<Option<(Record, usize)>, KvsError>)
    ensures
        match decoding(input@) {
            Decoded::End => r == Ok::<Option<(Record, usize)>, KvsError>(None),
            Decoded::Corrupt => r == Err::<Option<(Record, usize)>, KvsError>(
                KvsError::Corruption,
            ),
            Decoded::Item { record, len } => r matches Ok(Some(found)) && found.0@ == record
                && found.1 == len,
        },
{
    let (item, offset) = json_read(input);
    match item {
        None => Ok(None),
        Some(Err(_)) => Err(KvsError::Corruption),
        Some(Ok(object)) => match record_from(object) {
            None => Err(KvsError::Corruption),
            Some(record) => if 0 < offset && offset <= input.len() {
                Ok(Some((record, offset)))
            } else {
                Err(KvsError::Corruption)
            },
        },
    }
}

/// Encodes a record as the bytes that stand for it in the log. Fails with
/// `Io` where one of its strings has no JSON text.
pub fn encode(record: &Record) -> (r: Result<Vec<u8>, KvsError>)
    ensures
        match encoding(record@) {
            Some(bytes) => r is Ok && r->Ok_0@ == bytes,
            None => r == Err::<Vec<u8>, KvsError>(KvsError::Io),
        },
{
    let mut out: Vec<u8> = Vec::new();
    match record {
        Record::SetRecord { key, value } => {
            let key_text = match json_text(key.as_str()) {
                Ok(text) => text,
                Err(_) => { return Err(KvsError::Io); },
            };
            let value_text = match json_text(value.as_str()) {
                Ok(text) => text,
                Err(_) => { return Err(KvsError::Io); },
            };
            out.extend_from_slice("{\"SetRecord\":{\"key\":".as_bytes());
            out.extend_from_slice(key_text.as_slice());
            out.extend_from_slice(",\"value\":".as_bytes());
            out.extend_from_slice(value_text.as_slice());
            out.extend_from_slice("}}".as_bytes());
        },
        Record::RemoveRecord { key } => {
            let key_text = match json_text(key.as_str()) {
                Ok(text) => text,
                Err(_) => { return Err(KvsError::Io); },
            };
            out.extend_from_slice("{\"RemoveRecord\":{\"key\":".as_bytes());
            out.extend_from_slice(key_text.as_slice());
            out.extend_from_slice("}}".as_bytes());
        },
    }
    Ok(out)
}

} // verus!
