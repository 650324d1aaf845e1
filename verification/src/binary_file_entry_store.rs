//! The full-rewrite storage engine.
//!
//! One byte image holds every record as a length-prefixed frame.  Saving
//! and deleting rebuild the whole image: every frame whose key differs from
//! the given id is kept verbatim, and a save appends the new record at the
//! end.  Loading and searching scan the image from the front.

use vstd::bytes::{lemma_auto_spec_u64_to_from_le_bytes, spec_u64_from_le_bytes,
    spec_u64_to_le_bytes, u64_to_le_bytes};
use vstd::prelude::*;

use crate::binary_record_iterator::{parse_records, scan_records, step_at, lemma_parse_step,
    lemma_scan_step, RecordScan, RecordsParse, StreamStep};
use crate::binary_store_error::BinaryStoreError;
use crate::codec::{append_slice, copy_range, dec_record, decode_record_at, enc_record, encode_record,
    lemma_dec_enc_record, read_u64};
use crate::data_store::{DataStore, Filter};
use crate::model::{Entry, EntryV};

verus! {

// ----- Record sequences -----

/// Every record of `s` whose key differs from `key`, in order.
pub open spec fn remove_key(
    s: Seq<(Seq<char>, EntryV)>,
    key: Seq<char>,
) -> Seq<(Seq<char>, EntryV)>
    decreases s.len(),
{
    if s.len() == 0 {
        Seq::empty()
    } else {
        let rest = remove_key(s.drop_first(), key);
        if s[0].0 == key {
            rest
        } else {
            seq![s[0]] + rest
        }
    }
}

/// What one save leaves behind: every record not keyed `key`, then the new
/// record, stored under the entry's own id.
pub open spec fn upsert_recs(
    s: Seq<(Seq<char>, EntryV)>,
    key: Seq<char>,
    e: EntryV,
) -> Seq<(Seq<char>, EntryV)> {
    remove_key(s, key).push((e.id, e))
}

/// The first record of `s` keyed `key`, if any.
pub open spec fn lookup_recs(s: Seq<(Seq<char>, EntryV)>, key: Seq<char>) -> Option<EntryV>
    decreases s.len(),
{
    if s.len() == 0 {
        None
    } else if s[0].0 == key {
        Some(s[0].1)
    } else {
        lookup_recs(s.drop_first(), key)
    }
}

/// How many records of `s` are keyed `key`.
pub open spec fn count_key(s: Seq<(Seq<char>, EntryV)>, key: Seq<char>) -> nat
    decreases s.len(),
{
    if s.len() == 0 {
        0nat
    } else {
        (if s[0].0 == key {
            1nat
        } else {
            0nat
        }) + count_key(s.drop_first(), key)
    }
}

/// The entries of `s` that satisfy the filter, in order.
pub open spec fn matching_entries<F: Filter<Entry>>(
    s: Seq<(Seq<char>, EntryV)>,
    f: &F,
) -> Seq<EntryV>
    decreases s.len(),
{
    if s.len() == 0 {
        Seq::empty()
    } else {
        let pre = matching_entries(s.drop_last(), f);
        if f.spec_pass(s.last().1) {
            pre.push(s.last().1)
        } else {
            pre
        }
    }
}

// ----- Lemmas about record sequences -----

/// Removing a key distributes over appending one record.
pub proof fn lemma_remove_key_push(s: Seq<(Seq<char>, EntryV)>, key: Seq<char>, r: (Seq<char>, EntryV))
    ensures
        remove_key(s.push(r), key) == (if r.0 == key {
            remove_key(s, key)
        } else {
            remove_key(s, key).push(r)
        }),
    decreases s.len(),
{
    let sp = s.push(r);
    if s.len() == 0 {
        assert(sp.len() == 1);
        assert(sp[0] == r);
        assert(sp.drop_first() =~= Seq::<(Seq<char>, EntryV)>::empty());
        assert(remove_key(sp.drop_first(), key) =~= Seq::<(Seq<char>, EntryV)>::empty());
        assert(remove_key(s, key) =~= Seq::<(Seq<char>, EntryV)>::empty());
        if r.0 == key {
            assert(remove_key(sp, key) =~= remove_key(s, key));
        } else {
            assert(remove_key(sp, key) =~= seq![r] + Seq::<(Seq<char>, EntryV)>::empty());
            assert(seq![r] + Seq::<(Seq<char>, EntryV)>::empty() =~= remove_key(s, key).push(r));
        }
    } else {
        assert(sp[0] == s[0]);
        assert(sp.drop_first() =~= s.drop_first().push(r));
        lemma_remove_key_push(s.drop_first(), key, r);
        if r.0 != key && s[0].0 != key {
            assert(seq![s[0]] + remove_key(s.drop_first(), key).push(r) =~= (seq![s[0]]
                + remove_key(s.drop_first(), key)).push(r));
        }
    }
}

/// Counting a key distributes over appending one record.
pub proof fn lemma_count_key_push(s: Seq<(Seq<char>, EntryV)>, key: Seq<char>, r: (Seq<char>, EntryV))
    ensures
        count_key(s.push(r), key) == count_key(s, key) + (if r.0 == key {
            1nat
        } else {
            0nat
        }),
    decreases s.len(),
{
    let sp = s.push(r);
    if s.len() == 0 {
        assert(sp.len() == 1);
        assert(sp[0] == r);
        assert(sp.drop_first() =~= Seq::<(Seq<char>, EntryV)>::empty());
        assert(count_key(sp.drop_first(), key) == 0);
    } else {
        assert(sp[0] == s[0]);
        assert(sp.drop_first() =~= s.drop_first().push(r));
        lemma_count_key_push(s.drop_first(), key, r);
    }
}

/// After removing a key no record of that key is left.
pub proof fn lemma_count_remove_key(s: Seq<(Seq<char>, EntryV)>, key: Seq<char>)
    ensures
        count_key(remove_key(s, key), key) == 0,
    decreases s.len(),
{
    if s.len() == 0 {
    } else {
        lemma_count_remove_key(s.drop_first(), key);
        if s[0].0 != key {
            let rest = remove_key(s.drop_first(), key);
            assert((seq![s[0]] + rest).drop_first() =~= rest);
        }
    }
}

/// A sequence without the key holds no record of it.
pub proof fn lemma_lookup_absent(s: Seq<(Seq<char>, EntryV)>, key: Seq<char>)
    requires
        count_key(s, key) == 0,
    ensures
        lookup_recs(s, key) is None,
    decreases s.len(),
{
    if s.len() == 0 {
    } else {
        lemma_lookup_absent(s.drop_first(), key);
    }
}

/// A record appended behind a key-free prefix is what a lookup finds.
pub proof fn lemma_lookup_push_found(s: Seq<(Seq<char>, EntryV)>, key: Seq<char>, e: EntryV)
    requires
        count_key(s, key) == 0,
    ensures
        lookup_recs(s.push((key, e)), key) == Some(e),
    decreases s.len(),
{
    if s.len() == 0 {
        assert(s.push((key, e))[0] == (key, e));
    } else {
        assert(s.push((key, e)).drop_first() =~= s.drop_first().push((key, e)));
        lemma_lookup_push_found(s.drop_first(), key, e);
    }
}

// ----- The laws the engines obey -----

/// Round-trip: saving an entry under its own id and then looking that id
/// up yields exactly that entry, whatever was stored before.
pub proof fn lemma_save_then_load(s: Seq<(Seq<char>, EntryV)>, e: EntryV)
    ensures
        lookup_recs(upsert_recs(s, e.id, e), e.id) == Some(e),
{
    lemma_count_remove_key(s, e.id);
    lemma_lookup_push_found(remove_key(s, e.id), e.id, e);
}

/// Upsert: saving twice under one id keeps only the second value, and
/// exactly one record of that id stays live.
pub proof fn lemma_upsert_latest(
    s: Seq<(Seq<char>, EntryV)>,
    id: Seq<char>,
    e1: EntryV,
    e2: EntryV,
)
    requires
        e2.id == id,
    ensures
        lookup_recs(upsert_recs(upsert_recs(s, id, e1), id, e2), id) == Some(e2),
        count_key(upsert_recs(upsert_recs(s, id, e1), id, e2), id) == 1,
{
    let t = upsert_recs(s, id, e1);
    lemma_count_remove_key(t, id);
    lemma_lookup_push_found(remove_key(t, id), id, e2);
    lemma_count_key_push(remove_key(t, id), id, (e2.id, e2));
}

/// Delete-then-load: once every record of a key is removed, a lookup of
/// that key finds nothing.
pub proof fn lemma_delete_then_load(s: Seq<(Seq<char>, EntryV)>, id: Seq<char>)
    ensures
        lookup_recs(remove_key(s, id), id) is None,
{
    lemma_count_remove_key(s, id);
    lemma_lookup_absent(remove_key(s, id), id);
}

/// Scanning a well-formed stream finds exactly what a lookup over its
/// records finds.
pub proof fn lemma_scan_is_lookup(b: Seq<u8>, at: int, key: Seq<char>, s: Seq<(Seq<char>, EntryV)>)
    requires
        0 <= at <= b.len(),
        parse_records(b, at) == RecordsParse::Records(s),
    ensures
        scan_records(b, at, key) == (match lookup_recs(s, key) {
            Some(e) => RecordScan::Found(e),
            None => RecordScan::Absent,
        }),
    decreases b.len() - at,
{
    lemma_parse_step(b, at);
    lemma_scan_step(b, at, key);
    match step_at(b, at) {
        StreamStep::End => {},
        StreamStep::Item(rec, next) => {
            let s2 = parse_records(b, next)->Records_0;
            assert(s =~= seq![rec] + s2);
            assert(s[0] == rec);
            if rec.0 == key {
            } else {
                assert(s.drop_first() =~= s2);
                lemma_scan_is_lookup(b, next, key, s2);
            }
        },
        StreamStep::ShortRead => {},
        StreamStep::BadRecord => {},
    }
}

// ----- Frames -----

/// One well-formed length-prefixed frame holding the record `rec`.
pub open spec fn valid_frame(frame: Seq<u8>, rec: (Seq<char>, EntryV)) -> bool {
    &&& frame.len() >= 8
    &&& frame.len() - 8 <= u64::MAX
    &&& frame.subrange(0, 8) == spec_u64_to_le_bytes((frame.len() - 8) as u64)
    &&& (dec_record(frame.subrange(8, frame.len() as int), 0) matches Some((r, _)) && r == rec)
}

/// Appending one well-formed frame to a well-formed stream appends its
/// record to the parse.
pub proof fn lemma_parse_extend(
    b: Seq<u8>,
    b2: Seq<u8>,
    at: int,
    frame: Seq<u8>,
    rec: (Seq<char>, EntryV),
    s: Seq<(Seq<char>, EntryV)>,
)
    requires
        0 <= at <= b.len(),
        b2 == b + frame,
        valid_frame(frame, rec),
        parse_records(b, at) == RecordsParse::Records(s),
    ensures
        parse_records(b2, at) == RecordsParse::Records(s.push(rec)),
    decreases b.len() - at,
{
    lemma_auto_spec_u64_to_from_le_bytes();
    if at == b.len() {
        let n = frame.len() - 8;
        assert(b2.subrange(at, at + 8) =~= frame.subrange(0, 8));
        assert(spec_u64_from_le_bytes(b2.subrange(at, at + 8)) == (n as u64));
        assert(spec_u64_from_le_bytes(b2.subrange(at, at + 8)) as int == n);
        assert(b2.subrange(at + 8, at + 8 + n) =~= frame.subrange(8, frame.len() as int));
        assert(at + 8 + n == b2.len());
        assert(parse_records(b2, at + 8 + n) == RecordsParse::Records(Seq::<(Seq<char>,
            EntryV)>::empty()));
        assert(s =~= Seq::<(Seq<char>, EntryV)>::empty());
        assert(seq![rec] + Seq::<(Seq<char>, EntryV)>::empty() =~= s.push(rec));
    } else {
        assert(0 <= at && at + 8 <= b.len());
        let n0 = spec_u64_from_le_bytes(b.subrange(at, at + 8)) as int;
        assert(at + 8 + n0 <= b.len());
        let payload = b.subrange(at + 8, at + 8 + n0);
        assert(dec_record(payload, 0) is Some);
        let rec0 = dec_record(payload, 0)->Some_0.0;
        assert(parse_records(b, at + 8 + n0) is Records);
        let s2 = parse_records(b, at + 8 + n0)->Records_0;
        assert(s == seq![rec0] + s2);
        assert(b2.subrange(at, at + 8) =~= b.subrange(at, at + 8));
        assert(b2.subrange(at + 8, at + 8 + n0) =~= payload);
        lemma_parse_extend(b, b2, at + 8 + n0, frame, rec, s2);
        assert(parse_records(b2, at) == RecordsParse::Records(seq![rec0] + s2.push(rec)));
        assert(seq![rec0] + s2.push(rec) =~= (seq![rec0] + s2).push(rec));
    }
}

/// Build one length-prefixed frame for a record.
fn build_frame(key: &String, e: &Entry) -> (r: Vec<u8>)
    ensures
        valid_frame(r@, (key@, e@)),
{
    let payload = encode_record(key, e);
    let mut out = u64_to_le_bytes(payload.len() as u64);
    append_slice(&mut out, payload.as_slice());
    proof {
        lemma_auto_spec_u64_to_from_le_bytes();
        assert(out@.subrange(0, 8) =~= spec_u64_to_le_bytes(payload@.len() as u64));
        assert(out@.subrange(8, out@.len() as int) =~= payload@);
        assert(payload@.subrange(0, enc_record(key@, e@).len() as int) =~= payload@);
        lemma_dec_enc_record(payload@, 0, key@, e@);
    }
    out
}

// ----- The engine -----

/// Persistent unordered collection of entries keyed by id, held as one
/// byte image of length-prefixed frames.
pub struct BinaryFileEntryStore {
    contents: Vec<u8>,
}

impl BinaryFileEntryStore {
    /// The byte image the store holds.
    pub closed spec fn stream(&self) -> Seq<u8> {
        self.contents@
    }

    /// An empty store.
    pub fn new() -> (r: Self)
        ensures
            r.stream() == Seq::<u8>::empty(),
            parse_records(r.stream(), 0) == RecordsParse::Records(Seq::<(Seq<char>,
                EntryV)>::empty()),
    {
        let r = BinaryFileEntryStore { contents: Vec::new() };
        r
    }

    /// A store over a byte image read from elsewhere; the image may be
    /// truncated or corrupt, which every operation then reports.
    pub fn from_image(image: Vec<u8>) -> (r: Self)
        ensures
            r.stream() == image@,
    {
        BinaryFileEntryStore { contents: image }
    }

    /// The byte image, for persisting.
    pub fn image(&self) -> (r: &Vec<u8>)
        ensures
            r@ == self.stream(),
    {
        &self.contents
    }

    /// Rebuild the image: keep every frame whose key differs from `id`,
    /// then append the given entry, if any, under its own id.
    #[verifier::rlimit(100)]
    #[verifier::spinoff_prover]
    fn rebuild(&self, id: &String, append: Option<&Entry>) -> (r: Result<
        Vec<u8>,
        BinaryStoreError,
    >)
        ensures
            (match parse_records(self.stream(), 0) {
                RecordsParse::Records(s) => {
                    &&& r matches Ok(nb)
                    &&& parse_records(nb@, 0) == RecordsParse::Records(
                        match append {
                            Some(e) => upsert_recs(s, id@, e@),
                            None => remove_key(s, id@),
                        },
                    )
                },
                RecordsParse::Truncated => r == Err::<Vec<u8>, BinaryStoreError>(
                    BinaryStoreError::IoError,
                ),
                RecordsParse::Corrupt => r == Err::<Vec<u8>, BinaryStoreError>(
                    BinaryStoreError::SerializationError,
                ),
            }),
    {
        let b = &self.contents;
        let len = b.len();
        let mut out: Vec<u8> = Vec::new();
        let mut pos: usize = 0;
        let ghost mut seen: Seq<(Seq<char>, EntryV)> = Seq::empty();
        while pos < len
            invariant
                pos <= len,
                len == b@.len(),
                b@ == self.stream(),
                parse_records(out@, 0) == RecordsParse::Records(remove_key(seen, id@)),
                (match parse_records(b@, pos as int) {
                    RecordsParse::Records(rest) => parse_records(b@, 0) == RecordsParse::Records(
                        seen + rest,
                    ),
                    RecordsParse::Truncated => parse_records(b@, 0) is Truncated,
                    RecordsParse::Corrupt => parse_records(b@, 0) is Corrupt,
                }),
            decreases len - pos,
        {
            proof {
                lemma_parse_step(b@, pos as int);
            }
            if len - pos < 8 {
                proof {
                    assert(step_at(b@, pos as int) is ShortRead);
                }
                return Err(BinaryStoreError::IoError);
            }
            let n = read_u64(b, pos);
            if n > (len - pos - 8) as u64 {
                proof {
                    assert(step_at(b@, pos as int) is ShortRead);
                }
                return Err(BinaryStoreError::IoError);
            }
            let n_us = n as usize;
            let frame_end = pos + 8 + n_us;
            let payload = copy_range(b, pos + 8, frame_end);
            match decode_record_at(&payload, 0) {
                None => {
                    proof {
                        assert(step_at(b@, pos as int) is BadRecord);
                    }
                    return Err(BinaryStoreError::SerializationError);
                },
                Some((key, e, _)) => {
                    let ghost rec = (key@, e@);
                    proof {
                        assert(step_at(b@, pos as int) == StreamStep::Item(
                            rec,
                            frame_end as int,
                        ));
                    }
                    if !(key == *id) {
                        let ghost frame = b@.subrange(pos as int, frame_end as int);
                        let ghost out_before = out@;
                        let chunk = copy_range(b, pos, frame_end);
                        append_slice(&mut out, chunk.as_slice());
                        proof {
                            lemma_auto_spec_u64_to_from_le_bytes();
                            assert(frame.subrange(0, 8) =~= b@.subrange(
                                pos as int,
                                pos as int + 8,
                            ));
                            assert(frame.subrange(8, frame.len() as int) =~= payload@);
                            assert(valid_frame(frame, rec));
                            lemma_parse_extend(
                                out_before,
                                out@,
                                0,
                                frame,
                                rec,
                                remove_key(seen, id@),
                            );
                            lemma_remove_key_push(seen, id@, rec);
                        }
                    } else {
                        proof {
                            lemma_remove_key_push(seen, id@, rec);
                        }
                    }
                    proof {
                        let rest2 = parse_records(b@, frame_end as int);
                        if rest2 is Records {
                            assert(seen + (seq![rec] + rest2->Records_0) =~= (seen.push(rec))
                                + rest2->Records_0);
                        }
                        seen = seen.push(rec);
                    }
                    pos = frame_end;
                },
            }
        }
        proof {
            assert(parse_records(b@, pos as int) == RecordsParse::Records(Seq::<(Seq<char>,
                EntryV)>::empty()));
            assert(seen + Seq::<(Seq<char>, EntryV)>::empty() =~= seen);
        }
        match append {
            Some(e) => {
                let frame = build_frame(&e.id, e);
                let ghost out_before = out@;
                append_slice(&mut out, frame.as_slice());
                proof {
                    lemma_parse_extend(
                        out_before,
                        out@,
                        0,
                        frame@,
                        (e.id@, e@),
                        remove_key(seen, id@),
                    );
                }
            },
            None => {},
        }
        Ok(out)
    }

    /// Upsert: rebuild the image without any record keyed `id`, then
    /// append `value` under its own id.  A truncated image is an I/O
    /// failure, a corrupt one a serialization failure; either leaves the
    /// store unchanged.
    pub fn save(&mut self, id: &String, value: &Entry) -> (r: Result<(), BinaryStoreError>)
        ensures
            (match parse_records(old(self).stream(), 0) {
                RecordsParse::Records(s) => {
                    &&& r is Ok
                    &&& parse_records(final(self).stream(), 0) == RecordsParse::Records(
                        upsert_recs(s, id@, value@),
                    )
                },
                RecordsParse::Truncated => r == Err::<(), BinaryStoreError>(
                    BinaryStoreError::IoError,
                ) && final(self).stream() == old(self).stream(),
                RecordsParse::Corrupt => r == Err::<(), BinaryStoreError>(
                    BinaryStoreError::SerializationError,
                ) && final(self).stream() == old(self).stream(),
            }),
    {
        match self.rebuild(id, Some(value)) {
            Ok(nb) => {
                self.contents = nb;
                Ok(())
            },
            Err(e) => Err(e),
        }
    }

    /// Linear scan from the start: the first record keyed `id`, or none.
    /// Corruption behind the first match goes unnoticed, as the scan stops
    /// there.
    pub fn load(&self, id: &String) -> (r: Result<Option<Entry>, BinaryStoreError>)
        ensures
            (match scan_records(self.stream(), 0, id@) {
                RecordScan::Found(ev) => r matches Ok(Some(e)) && e@ == ev,
                RecordScan::Absent => r == Ok::<Option<Entry>, BinaryStoreError>(None),
                RecordScan::Truncated => r == Err::<Option<Entry>, BinaryStoreError>(
                    BinaryStoreError::IoError,
                ),
                RecordScan::Corrupt => r == Err::<Option<Entry>, BinaryStoreError>(
                    BinaryStoreError::SerializationError,
                ),
            }),
    {
        let b = &self.contents;
        let len = b.len();
        let mut pos: usize = 0;
        while pos < len
            invariant
                pos <= len,
                len == b@.len(),
                b@ == self.stream(),
                scan_records(b@, 0, id@) == scan_records(b@, pos as int, id@),
            decreases len - pos,
        {
            proof {
                lemma_scan_step(b@, pos as int, id@);
            }
            if len - pos < 8 {
                return Err(BinaryStoreError::IoError);
            }
            let n = read_u64(b, pos);
            if n > (len - pos - 8) as u64 {
                return Err(BinaryStoreError::IoError);
            }
            let n_us = n as usize;
            let frame_end = pos + 8 + n_us;
            let payload = copy_range(b, pos + 8, frame_end);
            match decode_record_at(&payload, 0) {
                None => {
                    return Err(BinaryStoreError::SerializationError);
                },
                Some((key, e, _)) => {
                    proof {
                        assert(step_at(b@, pos as int) == StreamStep::Item(
                            (key@, e@),
                            frame_end as int,
                        ));
                    }
                    if key == *id {
                        return Ok(Some(e));
                    }
                    pos = frame_end;
                },
            }
        }
        Ok(None)
    }

    /// Delete: rebuild the image without any record keyed `id`, appending
    /// nothing.
    pub fn delete(&mut self, id: &String) -> (r: Result<(), BinaryStoreError>)
        ensures
            (match parse_records(old(self).stream(), 0) {
                RecordsParse::Records(s) => {
                    &&& r is Ok
                    &&& parse_records(final(self).stream(), 0) == RecordsParse::Records(
                        remove_key(s, id@),
                    )
                },
                RecordsParse::Truncated => r == Err::<(), BinaryStoreError>(
                    BinaryStoreError::IoError,
                ) && final(self).stream() == old(self).stream(),
                RecordsParse::Corrupt => r == Err::<(), BinaryStoreError>(
                    BinaryStoreError::SerializationError,
                ) && final(self).stream() == old(self).stream(),
            }),
    {
        match self.rebuild(id, None) {
            Ok(nb) => {
                self.contents = nb;
                Ok(())
            },
            Err(e) => Err(e),
        }
    }

    /// Scan every live record and keep the entries the filter passes, in
    /// file order.
    pub fn search<F: Filter<Entry>>(&self, filter: &F) -> (r: Result<Vec<Entry>, BinaryStoreError>)
        ensures
            (match parse_records(self.stream(), 0) {
                RecordsParse::Records(s) => {
                    &&& r matches Ok(v)
                    &&& v@.map_values(|e: Entry| e@) == matching_entries(s, filter)
                },
                RecordsParse::Truncated => r == Err::<Vec<Entry>, BinaryStoreError>(
                    BinaryStoreError::IoError,
                ),
                RecordsParse::Corrupt => r == Err::<Vec<Entry>, BinaryStoreError>(
                    BinaryStoreError::SerializationError,
                ),
            }),
    {
        let b = &self.contents;
        let len = b.len();
        let mut result: Vec<Entry> = Vec::new();
        let mut pos: usize = 0;
        let ghost mut seen: Seq<(Seq<char>, EntryV)> = Seq::empty();
        while pos < len
            invariant
                pos <= len,
                len == b@.len(),
                b@ == self.stream(),
                result@.map_values(|e: Entry| e@) == matching_entries(seen, filter),
                (match parse_records(b@, pos as int) {
                    RecordsParse::Records(rest) => parse_records(b@, 0) == RecordsParse::Records(
                        seen + rest,
                    ),
                    RecordsParse::Truncated => parse_records(b@, 0) is Truncated,
                    RecordsParse::Corrupt => parse_records(b@, 0) is Corrupt,
                }),
            decreases len - pos,
        {
            proof {
                lemma_parse_step(b@, pos as int);
            }
            if len - pos < 8 {
                return Err(BinaryStoreError::IoError);
            }
            let n = read_u64(b, pos);
            if n > (len - pos - 8) as u64 {
                return Err(BinaryStoreError::IoError);
            }
            let n_us = n as usize;
            let frame_end = pos + 8 + n_us;
            let payload = copy_range(b, pos + 8, frame_end);
            match decode_record_at(&payload, 0) {
                None => {
                    return Err(BinaryStoreError::SerializationError);
                },
                Some((key, e, _)) => {
                    let ghost rec = (key@, e@);
                    proof {
                        assert(step_at(b@, pos as int) == StreamStep::Item(
                            rec,
                            frame_end as int,
                        ));
                    }
                    let ghost result_before = result@;
                    if filter.pass(&e) {
                        result.push(e);
                    }
                    proof {
                        assert(seen.push(rec).drop_last() =~= seen);
                        if filter.spec_pass(rec.1) {
                            assert(result@.map_values(|x: Entry| x@) =~= result_before.map_values(
                                |x: Entry| x@,
                            ).push(rec.1));
                        }
                        let rest2 = parse_records(b@, frame_end as int);
                        if rest2 is Records {
                            assert(seen + (seq![rec] + rest2->Records_0) =~= (seen.push(rec))
                                + rest2->Records_0);
                        }
                        seen = seen.push(rec);
                    }
                    pos = frame_end;
                },
            }
        }
        proof {
            assert(parse_records(b@, pos as int) == RecordsParse::Records(Seq::<(Seq<char>,
                EntryV)>::empty()));
            assert(seen + Seq::<(Seq<char>, EntryV)>::empty() =~= seen);
        }
        Ok(result)
    }
}

impl DataStore<String, Entry, BinaryStoreError> for BinaryFileEntryStore {
    open spec fn store_inv(&self) -> bool {
        true
    }

    fn save(&mut self, id: &String, value: &Entry) -> Result<(), BinaryStoreError> {
        BinaryFileEntryStore::save(self, id, value)
    }

    fn load(&self, key: &String) -> Result<Option<Entry>, BinaryStoreError> {
        BinaryFileEntryStore::load(self, key)
    }

    fn delete(&mut self, id: &String) -> Result<(), BinaryStoreError> {
        BinaryFileEntryStore::delete(self, id)
    }

    fn search<F: Filter<Entry>>(&self, filter: &F) -> Result<Vec<Entry>, BinaryStoreError> {
        BinaryFileEntryStore::search(self, filter)
    }
}

} // verus!
