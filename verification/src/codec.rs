//! Binary layout of serialized entries and records.
//!
//! Every text field is written as an 8-byte little-endian byte length
//! followed by its UTF-8 bytes; an optional field is a one-byte tag (0 for
//! absent, 1 for present) followed by the field itself.  A serialized entry
//! is the concatenation of its six fields; a record pairs a key with an
//! entry.

use vstd::bytes::{
    lemma_auto_spec_u64_to_from_le_bytes, spec_u64_from_le_bytes, spec_u64_to_le_bytes,
    u64_from_le_bytes, u64_to_le_bytes,
};
use vstd::prelude::*;
use vstd::utf8::{decode_utf8, encode_utf8, encode_utf8_decode_utf8, encode_utf8_valid_utf8,
    valid_utf8};

use crate::model::{view_opt, Entry, EntryV};

verus! {

// ----- Specification of the encoding -----

/// Byte encoding of one text field: length prefix, then UTF-8 bytes.
pub open spec fn enc_str(s: Seq<char>) -> Seq<u8> {
    spec_u64_to_le_bytes(encode_utf8(s).len() as u64) + encode_utf8(s)
}

/// Byte encoding of one optional text field: a tag byte, then the field.
pub open spec fn enc_opt(o: Option<Seq<char>>) -> Seq<u8> {
    match o {
        None => seq![0u8],
        Some(s) => seq![1u8] + enc_str(s),
    }
}

/// Byte encoding of a whole entry.
pub open spec fn enc_entry(e: EntryV) -> Seq<u8> {
    enc_str(e.id) + enc_str(e.title) + enc_opt(e.username) + enc_opt(e.password) + enc_opt(e.url)
        + enc_opt(e.note)
}

/// Byte encoding of a keyed record, as the full-rewrite store frames it.
pub open spec fn enc_record(key: Seq<char>, e: EntryV) -> Seq<u8> {
    enc_str(key) + enc_entry(e)
}

/// A text field whose UTF-8 length fits the 8-byte length prefix.  Every
/// field of an entry held in memory satisfies this.
pub open spec fn str_fits(s: Seq<char>) -> bool {
    encode_utf8(s).len() <= u64::MAX
}

/// [`str_fits`] lifted to an optional field.
pub open spec fn opt_fits(o: Option<Seq<char>>) -> bool {
    match o {
        None => true,
        Some(s) => str_fits(s),
    }
}

/// [`str_fits`] lifted to every field of an entry.
pub open spec fn entry_fits(e: EntryV) -> bool {
    str_fits(e.id) && str_fits(e.title) && opt_fits(e.username) && opt_fits(e.password)
        && opt_fits(e.url) && opt_fits(e.note)
}

// ----- Specification of the decoding -----

/// Decode one text field at position `at`; on success returns the field and
/// the position just past it.
pub open spec fn dec_str(b: Seq<u8>, at: int) -> Option<(Seq<char>, int)> {
    if !(0 <= at && at + 8 <= b.len()) {
        None
    } else {
        let n = spec_u64_from_le_bytes(b.subrange(at, at + 8)) as int;
        if at + 8 + n > b.len() {
            None
        } else {
            let data = b.subrange(at + 8, at + 8 + n);
            if valid_utf8(data) {
                Some((decode_utf8(data), at + 8 + n))
            } else {
                None
            }
        }
    }
}

/// Decode one optional text field at position `at`.
pub open spec fn dec_opt(b: Seq<u8>, at: int) -> Option<(Option<Seq<char>>, int)> {
    if !(0 <= at && at < b.len()) {
        None
    } else if b[at] == 0 {
        Some((None, at + 1))
    } else if b[at] == 1 {
        match dec_str(b, at + 1) {
            Some((s, j)) => Some((Some(s), j)),
            None => None,
        }
    } else {
        None
    }
}

/// Decode a whole entry at position `at`.
pub open spec fn dec_entry(b: Seq<u8>, at: int) -> Option<(EntryV, int)> {
    match dec_str(b, at) {
        Some((id, a1)) => match dec_str(b, a1) {
            Some((title, a2)) => match dec_opt(b, a2) {
                Some((username, a3)) => match dec_opt(b, a3) {
                    Some((password, a4)) => match dec_opt(b, a4) {
                        Some((url, a5)) => match dec_opt(b, a5) {
                            Some((note, a6)) => Some(
                                (EntryV { id, title, username, password, url, note }, a6),
                            ),
                            None => None,
                        },
                        None => None,
                    },
                    None => None,
                },
                None => None,
            },
            None => None,
        },
        None => None,
    }
}

/// Decode a keyed record at position `at`.
pub open spec fn dec_record(b: Seq<u8>, at: int) -> Option<((Seq<char>, EntryV), int)> {
    match dec_str(b, at) {
        Some((key, a1)) => match dec_entry(b, a1) {
            Some((e, a2)) => Some(((key, e), a2)),
            None => None,
        },
        None => None,
    }
}

/// The entry decoded from the front of a byte string, trailing bytes
/// ignored, as the indexed store reads a data-file range.
pub open spec fn dec_entry_val(b: Seq<u8>) -> Option<EntryV> {
    match dec_entry(b, 0) {
        Some((e, _)) => Some(e),
        None => None,
    }
}

// ----- Decoding inverts encoding -----

/// Decoding a text field reads back exactly what encoding wrote, wherever
/// the encoding sits inside a longer byte string.
pub proof fn lemma_dec_enc_str(b: Seq<u8>, at: int, s: Seq<char>)
    requires
        str_fits(s),
        0 <= at,
        at + enc_str(s).len() <= b.len(),
        b.subrange(at, at + enc_str(s).len()) == enc_str(s),
    ensures
        dec_str(b, at) == Some((s, at + enc_str(s).len())),
{
    broadcast use encode_utf8_valid_utf8, encode_utf8_decode_utf8;

    lemma_auto_spec_u64_to_from_le_bytes();
    let data = encode_utf8(s);
    let n = data.len() as int;
    assert(enc_str(s).len() == 8 + n);
    assert(b.subrange(at, at + 8) =~= enc_str(s).subrange(0, 8));
    assert(enc_str(s).subrange(0, 8) =~= spec_u64_to_le_bytes(n as u64));
    assert(spec_u64_from_le_bytes(b.subrange(at, at + 8)) == n as u64);
    assert(b.subrange(at + 8, at + 8 + n) =~= enc_str(s).subrange(8, 8 + n));
    assert(enc_str(s).subrange(8, 8 + n) =~= data);
}

/// Decoding an optional field reads back exactly what encoding wrote.
pub proof fn lemma_dec_enc_opt(b: Seq<u8>, at: int, o: Option<Seq<char>>)
    requires
        opt_fits(o),
        0 <= at,
        at + enc_opt(o).len() <= b.len(),
        b.subrange(at, at + enc_opt(o).len()) == enc_opt(o),
    ensures
        dec_opt(b, at) == Some((o, at + enc_opt(o).len())),
{
    match o {
        None => {
            assert(b[at] == enc_opt(o)[0]);
        },
        Some(s) => {
            assert(b[at] == enc_opt(o)[0]);
            assert(b.subrange(at + 1, at + 1 + enc_str(s).len() as int) =~= enc_opt(o).subrange(
                1,
                1 + enc_str(s).len() as int,
            ));
            assert(enc_opt(o).subrange(1, 1 + enc_str(s).len() as int) =~= enc_str(s));
            lemma_dec_enc_str(b, at + 1, s);
        },
    }
}

/// Decoding an entry reads back exactly what encoding wrote.
pub proof fn lemma_dec_enc_entry(b: Seq<u8>, at: int, e: EntryV)
    requires
        entry_fits(e),
        0 <= at,
        at + enc_entry(e).len() <= b.len(),
        b.subrange(at, at + enc_entry(e).len()) == enc_entry(e),
    ensures
        dec_entry(b, at) == Some((e, at + enc_entry(e).len())),
{
    let p0 = enc_str(e.id);
    let p1 = enc_str(e.title);
    let p2 = enc_opt(e.username);
    let p3 = enc_opt(e.password);
    let p4 = enc_opt(e.url);
    let p5 = enc_opt(e.note);
    let whole = enc_entry(e);
    let a1 = at + p0.len();
    let a2 = a1 + p1.len();
    let a3 = a2 + p2.len();
    let a4 = a3 + p3.len();
    let a5 = a4 + p4.len();
    let a6 = a5 + p5.len();
    assert(whole =~= p0 + p1 + p2 + p3 + p4 + p5);
    assert(b.subrange(at, a1) =~= whole.subrange(0, p0.len() as int));
    assert(whole.subrange(0, p0.len() as int) =~= p0);
    lemma_dec_enc_str(b, at, e.id);
    assert(b.subrange(a1, a2) =~= whole.subrange(p0.len() as int, p0.len() + p1.len() as int));
    assert(whole.subrange(p0.len() as int, p0.len() + p1.len() as int) =~= p1);
    lemma_dec_enc_str(b, a1, e.title);
    assert(b.subrange(a2, a3) =~= whole.subrange(a2 - at, a3 - at));
    assert(whole.subrange(a2 - at, a3 - at) =~= p2);
    lemma_dec_enc_opt(b, a2, e.username);
    assert(b.subrange(a3, a4) =~= whole.subrange(a3 - at, a4 - at));
    assert(whole.subrange(a3 - at, a4 - at) =~= p3);
    lemma_dec_enc_opt(b, a3, e.password);
    assert(b.subrange(a4, a5) =~= whole.subrange(a4 - at, a5 - at));
    assert(whole.subrange(a4 - at, a5 - at) =~= p4);
    lemma_dec_enc_opt(b, a4, e.url);
    assert(b.subrange(a5, a6) =~= whole.subrange(a5 - at, a6 - at));
    assert(whole.subrange(a5 - at, a6 - at) =~= p5);
    lemma_dec_enc_opt(b, a5, e.note);
    let d = dec_entry(b, at);
    assert(d is Some);
    assert(d->Some_0.0 =~= e);
}

/// Decoding a keyed record reads back exactly what encoding wrote.
pub proof fn lemma_dec_enc_record(b: Seq<u8>, at: int, key: Seq<char>, e: EntryV)
    requires
        str_fits(key),
        entry_fits(e),
        0 <= at,
        at + enc_record(key, e).len() <= b.len(),
        b.subrange(at, at + enc_record(key, e).len()) == enc_record(key, e),
    ensures
        dec_record(b, at) == Some(((key, e), at + enc_record(key, e).len())),
{
    let p0 = enc_str(key);
    let p1 = enc_entry(e);
    let whole = enc_record(key, e);
    let a1 = at + p0.len();
    let a2 = a1 + p1.len();
    assert(b.subrange(at, a1) =~= whole.subrange(0, p0.len() as int));
    assert(whole.subrange(0, p0.len() as int) =~= p0);
    lemma_dec_enc_str(b, at, key);
    assert(b.subrange(a1, a2) =~= whole.subrange(p0.len() as int, p0.len() + p1.len() as int));
    assert(whole.subrange(p0.len() as int, p0.len() + p1.len() as int) =~= p1);
    lemma_dec_enc_entry(b, a1, e);
}

// ----- Executable encoding -----

/// Append every byte of `src` to `out`.
pub fn append_slice(out: &mut Vec<u8>, src: &[u8])
    ensures
        final(out)@ == old(out)@ + src@,
{
    let ghost start = out@;
    let mut i: usize = 0;
    while i < src.len()
        invariant
            i <= src@.len(),
            out@ == start + src@.subrange(0, i as int),
        decreases src@.len() - i,
    {
        let byte = src[i];
        out.push(byte);
        proof {
            assert(src@.subrange(0, i + 1) =~= src@.subrange(0, i as int).push(src@[i as int]));
        }
        i += 1;
    }
    proof {
        assert(src@.subrange(0, src@.len() as int) =~= src@);
    }
}

/// Append the encoding of one text field to `out`.
pub(crate) fn append_string(out: &mut Vec<u8>, s: &String)
    ensures
        final(out)@ == old(out)@ + enc_str(s@),
        str_fits(s@),
{
    let bs: &[u8] = s.as_str().as_bytes();
    let len_bytes = u64_to_le_bytes(bs.len() as u64);
    append_slice(out, len_bytes.as_slice());
    append_slice(out, bs);
    proof {
        assert(final(out)@ =~= old(out)@ + enc_str(s@));
    }
}

/// Append the encoding of one optional text field to `out`.
fn append_opt(out: &mut Vec<u8>, o: &Option<String>)
    ensures
        final(out)@ == old(out)@ + enc_opt(view_opt(*o)),
        opt_fits(view_opt(*o)),
{
    match o {
        None => {
            out.push(0u8);
            proof {
                assert(final(out)@ =~= old(out)@ + enc_opt(view_opt(*o)));
            }
        },
        Some(s) => {
            out.push(1u8);
            append_string(out, s);
            proof {
                assert(final(out)@ =~= old(out)@ + enc_opt(view_opt(*o)));
            }
        },
    }
}

/// Serialize one entry.
pub fn encode_entry(e: &Entry) -> (r: Vec<u8>)
    ensures
        r@ == enc_entry(e@),
        entry_fits(e@),
{
    let mut out: Vec<u8> = Vec::new();
    append_string(&mut out, &e.id);
    append_string(&mut out, &e.title);
    append_opt(&mut out, &e.username);
    append_opt(&mut out, &e.password);
    append_opt(&mut out, &e.url);
    append_opt(&mut out, &e.note);
    proof {
        assert(out@ =~= enc_entry(e@));
    }
    out
}

/// Serialize one keyed record.
pub fn encode_record(key: &String, e: &Entry) -> (r: Vec<u8>)
    ensures
        r@ == enc_record(key@, e@),
        str_fits(key@),
        entry_fits(e@),
{
    let mut out: Vec<u8> = Vec::new();
    append_string(&mut out, key);
    let body = encode_entry(e);
    append_slice(&mut out, body.as_slice());
    proof {
        assert(out@ =~= enc_record(key@, e@));
    }
    out
}

// ----- Executable decoding -----

/// Relies on `String::from_utf8`: it returns the string whose UTF-8
/// encoding is the given bytes, and fails exactly when the bytes are not
/// valid UTF-8.
#[verifier::external_body]
pub(crate) fn bytes_to_string(v: Vec<u8>) -> (r: Option<String>)
    ensures
        match r {
            Some(s) => valid_utf8(v@) && s@ == decode_utf8(v@),
            None => !valid_utf8(v@),
        },
{
    match String::from_utf8(v) {
        Ok(s) => Some(s),
        Err(_) => None,
    }
}

/// Read the little-endian length prefix at `at`.
pub(crate) fn read_u64(b: &Vec<u8>, at: usize) -> (r: u64)
    requires
        at + 8 <= b@.len(),
    ensures
        r == spec_u64_from_le_bytes(b@.subrange(at as int, at as int + 8)),
{
    let total = b.len();
    proof {
        assert(at + 8 <= total);
    }
    let s = vstd::slice::slice_subrange(b.as_slice(), at, at + 8);
    u64_from_le_bytes(s)
}

/// Copy the byte range `[from, to)` out of `b`.
pub fn copy_range(b: &Vec<u8>, from: usize, to: usize) -> (r: Vec<u8>)
    requires
        from <= to <= b@.len(),
    ensures
        r@ == b@.subrange(from as int, to as int),
{
    let s = vstd::slice::slice_subrange(b.as_slice(), from, to);
    vstd::slice::slice_to_vec(s)
}

/// Decode one text field at position `at`.
pub(crate) fn decode_string(b: &Vec<u8>, at: usize) -> (r: Option<(String, usize)>)
    ensures
        match r {
            Some((s, j)) => dec_str(b@, at as int) == Some((s@, j as int)) && at <= j <= b@.len(),
            None => dec_str(b@, at as int) is None,
        },
{
    if at > b.len() || b.len() - at < 8 {
        return None;
    }
    let n = read_u64(b, at);
    if n > (b.len() - at - 8) as u64 {
        return None;
    }
    let n_us = n as usize;
    let data = copy_range(b, at + 8, at + 8 + n_us);
    match bytes_to_string(data) {
        Some(s) => Some((s, at + 8 + n_us)),
        None => None,
    }
}

/// Decode one optional text field at position `at`.
fn decode_opt(b: &Vec<u8>, at: usize) -> (r: Option<(Option<String>, usize)>)
    ensures
        match r {
            Some((o, j)) => dec_opt(b@, at as int) == Some((view_opt(o), j as int)) && at <= j
                <= b@.len(),
            None => dec_opt(b@, at as int) is None,
        },
{
    if at >= b.len() {
        return None;
    }
    let tag = b[at];
    if tag == 0 {
        Some((None, at + 1))
    } else if tag == 1 {
        match decode_string(b, at + 1) {
            Some((s, j)) => Some((Some(s), j)),
            None => None,
        }
    } else {
        None
    }
}

/// Decode a whole entry at position `at`.
pub fn decode_entry_at(b: &Vec<u8>, at: usize) -> (r: Option<(Entry, usize)>)
    ensures
        match r {
            Some((e, j)) => dec_entry(b@, at as int) == Some((e@, j as int)) && at <= j
                <= b@.len(),
            None => dec_entry(b@, at as int) is None,
        },
{
    let (id, a1) = match decode_string(b, at) {
        Some(v) => v,
        None => {
            return None;
        },
    };
    let (title, a2) = match decode_string(b, a1) {
        Some(v) => v,
        None => {
            return None;
        },
    };
    let (username, a3) = match decode_opt(b, a2) {
        Some(v) => v,
        None => {
            return None;
        },
    };
    let (password, a4) = match decode_opt(b, a3) {
        Some(v) => v,
        None => {
            return None;
        },
    };
    let (url, a5) = match decode_opt(b, a4) {
        Some(v) => v,
        None => {
            return None;
        },
    };
    let (note, a6) = match decode_opt(b, a5) {
        Some(v) => v,
        None => {
            return None;
        },
    };
    let e = Entry { id, title, username, password, url, note };
    proof {
        assert(e@ =~= dec_entry(b@, at as int)->Some_0.0);
    }
    Some((e, a6))
}

/// Decode a keyed record at position `at`.
pub fn decode_record_at(b: &Vec<u8>, at: usize) -> (r: Option<(String, Entry, usize)>)
    ensures
        match r {
            Some((key, e, j)) => dec_record(b@, at as int) == Some(((key@, e@), j as int)) && at
                <= j <= b@.len(),
            None => dec_record(b@, at as int) is None,
        },
{
    let (key, a1) = match decode_string(b, at) {
        Some(v) => v,
        None => {
            return None;
        },
    };
    match decode_entry_at(b, a1) {
        Some((e, a2)) => Some((key, e, a2)),
        None => None,
    }
}

} // verus!
