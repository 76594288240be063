//! The errors of the store.

use vstd::prelude::*;

verus! {

/// What went wrong.
#[derive(Debug, Clone, Copy, PartialEq, Eq, Structural)]
pub enum ErrorKind {
    /// The key is not in the index.
    KeyNotFound,
    /// The file system failed.
    Io,
    /// Bytes of a segment are no record, or a command cannot be encoded.
    Codec,
    /// The index and the segments disagree, or a segment id cannot be used.
    Invariant,
}

/// An error of the store: its kind and a message for people.
#[derive(Debug)]
pub struct KvsError {
    pub kind: ErrorKind,
    pub msg: String,
}

impl KvsError {
    /// The error for a key that the index does not hold.
    pub fn key_not_found() -> (e: KvsError)
        ensures
            e.kind == ErrorKind::KeyNotFound,
            e.msg@ == "Key not found in index"@,
    {
        KvsError { kind: ErrorKind::KeyNotFound, msg: "Key not found in index".to_owned() }
    }

    /// An error of the file system, with what it said.
    pub fn io(msg: String) -> (e: KvsError)
        ensures
            e.kind == ErrorKind::Io,
            e.msg == msg,
    {
        KvsError { kind: ErrorKind::Io, msg }
    }

    /// The error for bytes that are no record and for a command that cannot
    /// be encoded.
    pub fn codec() -> (e: KvsError)
        ensures
            e.kind == ErrorKind::Codec,
            e.msg@ == "Record cannot be encoded or decoded"@,
    {
        KvsError { kind: ErrorKind::Codec, msg: "Record cannot be encoded or decoded".to_owned() }
    }

    /// The error for a segment id that cannot be used: it does not lie above
    /// the ids in use, or no id is left above them.
    pub fn bad_segment_id() -> (e: KvsError)
        ensures
            e.kind == ErrorKind::Invariant,
            e.msg@ == "Segment id cannot be used"@,
    {
        KvsError { kind: ErrorKind::Invariant, msg: "Segment id cannot be used".to_owned() }
    }

    /// The error for an index that does not match the segments.
    pub fn broken() -> (e: KvsError)
        ensures
            e.kind == ErrorKind::Invariant,
            e.msg@ == "Index and segments disagree"@,
    {
        KvsError { kind: ErrorKind::Invariant, msg: "Index and segments disagree".to_owned() }
    }

    /// The message of the error.
    pub fn message(&self) -> (msg: String)
        ensures
            msg@ == self.msg@,
    {
        self.msg.clone()
    }
}

} // verus!
