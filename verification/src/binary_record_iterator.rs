//! Lazy decoding of length-prefixed records from a byte image.
//!
//! The full-rewrite store keeps its file as a sequence of
//! `[8-byte little-endian length][record payload]` frames.  The iterator
//! yields one decoded record per step; a clean end exactly at a frame
//! boundary ends the sequence, a short read is an I/O failure, and a
//! payload that does not decode is a serialization failure.

use vstd::bytes::spec_u64_from_le_bytes;
use vstd::prelude::*;

use crate::binary_store_error::BinaryStoreError;
use crate::codec::{copy_range, dec_record, decode_record_at, read_u64};
use crate::model::{Entry, EntryV};

verus! {

/// What the stream holds at one position: a record frame, a clean end, a
/// truncated frame, or a frame whose payload does not decode.
pub enum StreamStep {
    Item((Seq<char>, EntryV), int),
    End,
    ShortRead,
    BadRecord,
}

/// Outcome of parsing a whole record stream.
#[verifier::ext_equal]
pub enum RecordsParse {
    Records(Seq<(Seq<char>, EntryV)>),
    Truncated,
    Corrupt,
}

/// Outcome of scanning a record stream for one key.
#[verifier::ext_equal]
pub enum RecordScan {
    Found(EntryV),
    Absent,
    Truncated,
    Corrupt,
}

/// One step of the stream at position `at`.
pub open spec fn step_at(b: Seq<u8>, at: int) -> StreamStep {
    if at == b.len() {
        StreamStep::End
    } else if !(0 <= at && at + 8 <= b.len()) {
        StreamStep::ShortRead
    } else {
        let n = spec_u64_from_le_bytes(b.subrange(at, at + 8)) as int;
        if at + 8 + n > b.len() {
            StreamStep::ShortRead
        } else {
            match dec_record(b.subrange(at + 8, at + 8 + n), 0) {
                Some((rec, _)) => StreamStep::Item(rec, at + 8 + n),
                None => StreamStep::BadRecord,
            }
        }
    }
}

/// Parse the record stream from position `at` to its end.
pub open spec fn parse_records(b: Seq<u8>, at: int) -> RecordsParse
    decreases b.len() - at,
{
    if at == b.len() {
        RecordsParse::Records(Seq::empty())
    } else if !(0 <= at && at + 8 <= b.len()) {
        RecordsParse::Truncated
    } else {
        let n = spec_u64_from_le_bytes(b.subrange(at, at + 8)) as int;
        if at + 8 + n > b.len() {
            RecordsParse::Truncated
        } else {
            match dec_record(b.subrange(at + 8, at + 8 + n), 0) {
                Some((rec, _)) => match parse_records(b, at + 8 + n) {
                    RecordsParse::Records(s) => RecordsParse::Records(seq![rec] + s),
                    RecordsParse::Truncated => RecordsParse::Truncated,
                    RecordsParse::Corrupt => RecordsParse::Corrupt,
                },
                None => RecordsParse::Corrupt,
            }
        }
    }
}

/// Scan the record stream from position `at` for the first record keyed
/// `key`, stopping early when it is found.
pub open spec fn scan_records(b: Seq<u8>, at: int, key: Seq<char>) -> RecordScan
    decreases b.len() - at,
{
    if at == b.len() {
        RecordScan::Absent
    } else if !(0 <= at && at + 8 <= b.len()) {
        RecordScan::Truncated
    } else {
        let n = spec_u64_from_le_bytes(b.subrange(at, at + 8)) as int;
        if at + 8 + n > b.len() {
            RecordScan::Truncated
        } else {
            match dec_record(b.subrange(at + 8, at + 8 + n), 0) {
                Some((rec, _)) => if rec.0 == key {
                    RecordScan::Found(rec.1)
                } else {
                    scan_records(b, at + 8 + n, key)
                },
                None => RecordScan::Corrupt,
            }
        }
    }
}

/// [`parse_records`] steps exactly as [`step_at`] says.
pub proof fn lemma_parse_step(b: Seq<u8>, at: int)
    ensures
        parse_records(b, at) == (match step_at(b, at) {
            StreamStep::End => RecordsParse::Records(Seq::empty()),
            StreamStep::Item(rec, next) => (match parse_records(b, next) {
                RecordsParse::Records(s) => RecordsParse::Records(seq![rec] + s),
                RecordsParse::Truncated => RecordsParse::Truncated,
                RecordsParse::Corrupt => RecordsParse::Corrupt,
            }),
            StreamStep::ShortRead => RecordsParse::Truncated,
            StreamStep::BadRecord => RecordsParse::Corrupt,
        }),
{
}

/// [`scan_records`] steps exactly as [`step_at`] says.
pub proof fn lemma_scan_step(b: Seq<u8>, at: int, key: Seq<char>)
    ensures
        scan_records(b, at, key) == (match step_at(b, at) {
            StreamStep::End => RecordScan::Absent,
            StreamStep::Item(rec, next) => (if rec.0 == key {
                RecordScan::Found(rec.1)
            } else {
                scan_records(b, next, key)
            }),
            StreamStep::ShortRead => RecordScan::Truncated,
            StreamStep::BadRecord => RecordScan::Corrupt,
        }),
{
}

/// Lazy decoder over a byte image of a length-prefixed record file.
pub struct BinaryRecordIterator {
    bytes: Vec<u8>,
    pos: usize,
}

impl BinaryRecordIterator {
    #[verifier::type_invariant]
    spec fn type_inv(&self) -> bool {
        self.pos <= self.bytes@.len()
    }

    /// The byte image the iterator walks.
    pub closed spec fn stream(&self) -> Seq<u8> {
        self.bytes@
    }

    /// The current position in the image.
    pub closed spec fn at(&self) -> int {
        self.pos as int
    }

    /// Start a decoder at the front of the given image.
    pub fn new(bytes: Vec<u8>) -> (r: Self)
        ensures
            r.stream() == bytes@,
            r.at() == 0,
    {
        BinaryRecordIterator { bytes, pos: 0 }
    }

    /// Decode the next record, if any.  After a failure the iterator is
    /// exhausted.
    pub fn next(&mut self) -> (r: Option<Result<(String, Entry), BinaryStoreError>>)
        ensures
            final(self).stream() == old(self).stream(),
            (match step_at(old(self).stream(), old(self).at()) {
                StreamStep::End => r is None && final(self).at() == old(self).at(),
                StreamStep::Item(rec, next) => {
                    &&& r matches Some(Ok(p))
                    &&& p.0@ == rec.0
                    &&& p.1@ == rec.1
                    &&& final(self).at() == next
                },
                StreamStep::ShortRead => r == Some(
                    Err::<(String, Entry), BinaryStoreError>(BinaryStoreError::IoError),
                ) && final(self).at() == old(self).stream().len(),
                StreamStep::BadRecord => r == Some(
                    Err::<(String, Entry), BinaryStoreError>(BinaryStoreError::SerializationError),
                ) && final(self).at() == old(self).stream().len(),
            }),
    {
        proof {
            use_type_invariant(&*self);
        }
        let len = self.bytes.len();
        if self.pos == len {
            return None;
        }
        if len - self.pos < 8 {
            self.pos = len;
            return Some(Err(BinaryStoreError::IoError));
        }
        let n = read_u64(&self.bytes, self.pos);
        if n > (len - self.pos - 8) as u64 {
            self.pos = len;
            return Some(Err(BinaryStoreError::IoError));
        }
        let n_us = n as usize;
        let payload = copy_range(&self.bytes, self.pos + 8, self.pos + 8 + n_us);
        match decode_record_at(&payload, 0) {
            Some((key, e, _)) => {
                self.pos = self.pos + 8 + n_us;
                Some(Ok((key, e)))
            },
            None => {
                self.pos = len;
                Some(Err(BinaryStoreError::SerializationError))
            },
        }
    }
}

} // verus!
