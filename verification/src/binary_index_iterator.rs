//! Lazy decoding of fixed-width index slots from a byte image.
//!
//! The index file is a sequence of slots of one fixed width.  The iterator
//! reads exactly one slot per step; a clean end exactly at a slot boundary
//! ends the sequence, a short trailing read is an I/O failure, and a slot
//! that does not decode is a serialization failure.

use vstd::prelude::*;

use crate::binary_store_error::BinaryStoreError;
use crate::codec::copy_range;
use crate::indexed_binary_file_entry_store::{dec_slot, decode_slot, IndexEntry, Position};

verus! {

/// What the slot stream holds at one position.
pub enum IndexStep {
    Item((Seq<char>, Position), int),
    End,
    ShortRead,
    BadSlot,
}

/// Outcome of parsing a whole index image.
#[verifier::ext_equal]
pub enum IndexParse {
    Slots(Seq<(Seq<char>, Position)>),
    Truncated,
    Corrupt,
}

/// One step of the slot stream at position `at`, with slots `rs` bytes
/// wide.  A width of zero reads an empty chunk, which never decodes.
pub open spec fn index_step_at(b: Seq<u8>, at: int, rs: int) -> IndexStep {
    if rs <= 0 {
        IndexStep::BadSlot
    } else if at == b.len() {
        IndexStep::End
    } else if !(0 <= at && at + rs <= b.len()) {
        IndexStep::ShortRead
    } else {
        match dec_slot(b.subrange(at, at + rs)) {
            Some(p) => IndexStep::Item(p, at + rs),
            None => IndexStep::BadSlot,
        }
    }
}

/// Parse the slot stream from position `at` to its end.
pub open spec fn parse_index(b: Seq<u8>, at: int, rs: int) -> IndexParse
    decreases b.len() - at,
{
    if rs <= 0 {
        IndexParse::Corrupt
    } else if at == b.len() {
        IndexParse::Slots(Seq::empty())
    } else if !(0 <= at && at + rs <= b.len()) {
        IndexParse::Truncated
    } else {
        match dec_slot(b.subrange(at, at + rs)) {
            Some(p) => match parse_index(b, at + rs, rs) {
                IndexParse::Slots(s) => IndexParse::Slots(seq![p] + s),
                IndexParse::Truncated => IndexParse::Truncated,
                IndexParse::Corrupt => IndexParse::Corrupt,
            },
            None => IndexParse::Corrupt,
        }
    }
}

/// [`parse_index`] steps exactly as [`index_step_at`] says.
pub proof fn lemma_parse_index_step(b: Seq<u8>, at: int, rs: int)
    ensures
        parse_index(b, at, rs) == (match index_step_at(b, at, rs) {
            IndexStep::End => IndexParse::Slots(Seq::<(Seq<char>, Position)>::empty()),
            IndexStep::Item(p, next) => (match parse_index(b, next, rs) {
                IndexParse::Slots(s) => IndexParse::Slots(seq![p] + s),
                IndexParse::Truncated => IndexParse::Truncated,
                IndexParse::Corrupt => IndexParse::Corrupt,
            }),
            IndexStep::ShortRead => IndexParse::Truncated,
            IndexStep::BadSlot => IndexParse::Corrupt,
        }),
{
}

/// Appending one decodable slot to a well-formed slot stream appends its
/// pair to the parse.
pub proof fn lemma_parse_index_extend(
    b: Seq<u8>,
    b2: Seq<u8>,
    at: int,
    slot: Seq<u8>,
    p: (Seq<char>, Position),
    s: Seq<(Seq<char>, Position)>,
    rs: int,
)
    requires
        0 <= at <= b.len(),
        rs > 0,
        b2 == b + slot,
        slot.len() == rs,
        dec_slot(slot) == Some(p),
        parse_index(b, at, rs) == IndexParse::Slots(s),
    ensures
        parse_index(b2, at, rs) == IndexParse::Slots(s.push(p)),
    decreases b.len() - at,
{
    if at == b.len() {
        assert(b2.subrange(at, at + rs) =~= slot);
        assert(at + rs == b2.len());
        assert(parse_index(b2, at + rs, rs) == IndexParse::Slots(Seq::<(Seq<char>,
            Position)>::empty()));
        assert(s =~= Seq::<(Seq<char>, Position)>::empty());
        assert(seq![p] + Seq::<(Seq<char>, Position)>::empty() =~= s.push(p));
    } else {
        assert(0 <= at && at + rs <= b.len());
        let chunk = b.subrange(at, at + rs);
        assert(dec_slot(chunk) is Some);
        let p0 = dec_slot(chunk)->Some_0;
        assert(parse_index(b, at + rs, rs) is Slots);
        let s2 = parse_index(b, at + rs, rs)->Slots_0;
        assert(s == seq![p0] + s2);
        assert(b2.subrange(at, at + rs) =~= chunk);
        lemma_parse_index_extend(b, b2, at + rs, slot, p, s2, rs);
        assert(parse_index(b2, at, rs) == IndexParse::Slots(seq![p0] + s2.push(p)));
        assert(seq![p0] + s2.push(p) =~= (seq![p0] + s2).push(p));
    }
}

/// Lazy decoder over a byte image of a fixed-width index file.
pub struct BinaryIndexIterator {
    bytes: Vec<u8>,
    record_size: usize,
    pos: usize,
}

impl BinaryIndexIterator {
    #[verifier::type_invariant]
    spec fn type_inv(&self) -> bool {
        self.pos <= self.bytes@.len()
    }

    /// The byte image the iterator walks.
    pub closed spec fn stream(&self) -> Seq<u8> {
        self.bytes@
    }

    /// The width of one slot.
    pub closed spec fn rec_size(&self) -> int {
        self.record_size as int
    }

    /// The current position in the image.
    pub closed spec fn at(&self) -> int {
        self.pos as int
    }

    /// Start a decoder at the front of the given image, reading slots of
    /// the given width.
    pub fn new(bytes: Vec<u8>, record_size: usize) -> (r: Self)
        ensures
            r.stream() == bytes@,
            r.rec_size() == record_size as int,
            r.at() == 0,
    {
        BinaryIndexIterator { bytes, record_size, pos: 0 }
    }

    /// Decode the next slot, if any.  After a failure the iterator is
    /// exhausted.
    pub fn next(&mut self) -> (r: Option<Result<IndexEntry, BinaryStoreError>>)
        ensures
            final(self).stream() == old(self).stream(),
            final(self).rec_size() == old(self).rec_size(),
            (match index_step_at(old(self).stream(), old(self).at(), old(self).rec_size()) {
                IndexStep::End => r is None && final(self).at() == old(self).at(),
                IndexStep::Item(p, next) => {
                    &&& r matches Some(Ok(ie))
                    &&& ie@ == p
                    &&& final(self).at() == next
                },
                IndexStep::ShortRead => r == Some(
                    Err::<IndexEntry, BinaryStoreError>(BinaryStoreError::IoError),
                ) && final(self).at() == old(self).stream().len(),
                IndexStep::BadSlot => r == Some(
                    Err::<IndexEntry, BinaryStoreError>(BinaryStoreError::SerializationError),
                ) && final(self).at() == old(self).stream().len(),
            }),
    {
        proof {
            use_type_invariant(&*self);
        }
        let len = self.bytes.len();
        if self.record_size == 0 {
            self.pos = len;
            return Some(Err(BinaryStoreError::SerializationError));
        }
        if self.pos == len {
            return None;
        }
        if len - self.pos < self.record_size {
            self.pos = len;
            return Some(Err(BinaryStoreError::IoError));
        }
        let chunk = copy_range(&self.bytes, self.pos, self.pos + self.record_size);
        match decode_slot(&chunk) {
            Some((id, position)) => {
                self.pos = self.pos + self.record_size;
                Some(Ok(IndexEntry::from_parts(id, position)))
            },
            None => {
                self.pos = len;
                Some(Err(BinaryStoreError::SerializationError))
            },
        }
    }
}

} // verus!
