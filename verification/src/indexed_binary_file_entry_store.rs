//! The indexed storage engine.
//!
//! An append-only data image holds bare serialized entries; a separate
//! index image holds fixed-width slots mapping each id to the byte range of
//! its entry; and an in-memory id-to-position table, owned by exactly one
//! store instance, is authoritative over the index image until explicitly
//! persisted.  Two dirty flags track divergence: `needs_index_rewrite`
//! (the table differs from the index image) and `needs_data_rewrite` (the
//! data image holds byte ranges no longer reachable from the table).

use vstd::bytes::{lemma_auto_spec_u64_to_from_le_bytes, spec_u64_from_le_bytes,
    spec_u64_to_le_bytes, u64_to_le_bytes};
use vstd::prelude::*;

use crate::binary_store_error::BinaryStoreError;
use crate::data_store::{DataStore, Filter};
use crate::binary_index_iterator::{lemma_parse_index_extend, lemma_parse_index_step,
    parse_index, BinaryIndexIterator, IndexParse};
use crate::codec::{append_slice, append_string, copy_range, dec_entry_val, decode_entry_at,
    decode_string, enc_entry, enc_str, encode_entry, lemma_dec_enc_str, read_u64, str_fits};
use crate::model::{Entry, EntryV};

verus! {

/// Width of one index slot: room for one id, an offset and a length,
/// zero-padded.
pub const INDEX_RECORD_SIZE: usize = 52;

/// Exact byte range of one serialized entry in the data image.
#[derive(Debug, Clone, Copy, PartialEq, Eq, Structural)]
pub struct Position {
    pub offset: u64,
    pub length: usize,
}

/// One decoded index slot: an id and where its entry lies.
#[derive(Debug)]
pub struct IndexEntry {
    pub(crate) id: String,
    pub(crate) position: Position,
}

impl View for IndexEntry {
    type V = (Seq<char>, Position);

    closed spec fn view(&self) -> (Seq<char>, Position) {
        (self.id@, self.position)
    }
}

impl IndexEntry {
    /// Pack one decoded slot.
    pub(crate) fn from_parts(id: String, position: Position) -> (r: Self)
        ensures
            r@ == (id@, position),
    {
        IndexEntry { id, position }
    }

    /// The id the slot maps.
    pub fn id(&self) -> (r: &String)
        ensures
            r@ == self@.0,
    {
        &self.id
    }

    /// Where the mapped entry lies.
    pub fn position(&self) -> (r: Position)
        ensures
            r == self@.1,
    {
        self.position
    }
}

// ----- Index slots -----

/// Byte encoding of a position: offset, then length, little-endian.
pub open spec fn enc_pos(p: Position) -> Seq<u8> {
    spec_u64_to_le_bytes(p.offset) + spec_u64_to_le_bytes(p.length as u64)
}

/// Whether an id's encoding leaves room for the position in one slot.
pub open spec fn slot_fits(id: Seq<char>) -> bool {
    8 + vstd::utf8::encode_utf8(id).len() + 16 <= INDEX_RECORD_SIZE
}

/// One zero-padded index slot.
pub open spec fn enc_slot(id: Seq<char>, p: Position) -> Seq<u8>
    recommends
        slot_fits(id),
{
    let body = enc_str(id) + enc_pos(p);
    body + Seq::new((INDEX_RECORD_SIZE - body.len()) as nat, |i: int| 0u8)
}

/// Decode one slot: an id, then sixteen position bytes; padding is
/// ignored.
pub open spec fn dec_slot(chunk: Seq<u8>) -> Option<(Seq<char>, Position)> {
    match crate::codec::dec_str(chunk, 0) {
        Some((id, i)) => if i + 16 <= chunk.len() {
            let off = spec_u64_from_le_bytes(chunk.subrange(i, i + 8));
            let len = spec_u64_from_le_bytes(chunk.subrange(i + 8, i + 16));
            if len <= usize::MAX as u64 {
                Some((id, Position { offset: off, length: len as usize }))
            } else {
                None
            }
        } else {
            None
        },
        None => None,
    }
}

/// Decoding a slot reads back exactly what encoding wrote.
pub proof fn lemma_dec_enc_slot(id: Seq<char>, p: Position)
    requires
        slot_fits(id),
    ensures
        enc_slot(id, p).len() == INDEX_RECORD_SIZE,
        dec_slot(enc_slot(id, p)) == Some((id, p)),
{
    lemma_auto_spec_u64_to_from_le_bytes();
    let chunk = enc_slot(id, p);
    let i = enc_str(id).len() as int;
    assert(str_fits(id));
    assert(chunk.subrange(0, i) =~= enc_str(id));
    lemma_dec_enc_str(chunk, 0, id);
    assert(chunk.subrange(i, i + 8) =~= spec_u64_to_le_bytes(p.offset));
    assert(chunk.subrange(i + 8, i + 16) =~= spec_u64_to_le_bytes(p.length as u64));
    assert((p.length as u64) <= usize::MAX as u64);
}

/// Decode one slot chunk.
pub(crate) fn decode_slot(chunk: &Vec<u8>) -> (r: Option<(String, Position)>)
    ensures
        (match r {
            Some((id, p)) => dec_slot(chunk@) == Some((id@, p)),
            None => dec_slot(chunk@) is None,
        }),
{
    let (id, i) = match decode_string(chunk, 0) {
        Some(v) => v,
        None => {
            return None;
        },
    };
    if chunk.len() - i < 16 {
        return None;
    }
    let offset = read_u64(chunk, i);
    let len64 = read_u64(chunk, i + 8);
    if len64 > usize::MAX as u64 {
        return None;
    }
    Some((id, Position { offset, length: len64 as usize }))
}

/// The map an index file leaves behind: later slots win over earlier
/// ones.
pub open spec fn map_of_pairs(s: Seq<(Seq<char>, Position)>) -> Map<Seq<char>, Position>
    decreases s.len(),
{
    if s.len() == 0 {
        Map::empty()
    } else {
        map_of_pairs(s.drop_last()).insert(s.last().0, s.last().1)
    }
}

// ----- The in-memory index as an association list -----

/// An executable id-to-position table read as a sequence of models.
pub open spec fn pairs_view(v: Seq<(String, Position)>) -> Seq<(Seq<char>, Position)> {
    v.map_values(|p: (String, Position)| (p.0@, p.1))
}

/// The position stored for `key`: the first pair of `s` carrying it.
pub open spec fn find_pos(s: Seq<(Seq<char>, Position)>, key: Seq<char>) -> Option<Position>
    decreases s.len(),
{
    if s.len() == 0 {
        None
    } else if s[0].0 == key {
        Some(s[0].1)
    } else {
        find_pos(s.drop_first(), key)
    }
}

/// No two pairs of `s` carry the same id.
pub open spec fn distinct_keys(s: Seq<(Seq<char>, Position)>) -> bool {
    forall|i: int, j: int| 0 <= i < j < s.len() ==> s[i].0 != s[j].0
}

/// The association list read as a map.
pub open spec fn assoc_map(s: Seq<(Seq<char>, Position)>) -> Map<Seq<char>, Position> {
    Map::new(
        |k: Seq<char>| find_pos(s, k) is Some,
        |k: Seq<char>| find_pos(s, k)->Some_0,
    )
}

/// A found position is carried by some pair; a missing key by none.
pub proof fn lemma_find_pos_char(s: Seq<(Seq<char>, Position)>, key: Seq<char>)
    ensures
        (match find_pos(s, key) {
            Some(p) => exists|i: int| 0 <= i < s.len() && s[i].0 == key && s[i].1 == p,
            None => forall|i: int| 0 <= i < s.len() ==> s[i].0 != key,
        }),
    decreases s.len(),
{
    if s.len() == 0 {
    } else if s[0].0 == key {
    } else {
        lemma_find_pos_char(s.drop_first(), key);
        match find_pos(s, key) {
            Some(p) => {
                let i = choose|i: int|
                    0 <= i < s.drop_first().len() && s.drop_first()[i].0 == key
                        && s.drop_first()[i].1 == p;
                assert(s[i + 1] == s.drop_first()[i]);
            },
            None => {
                assert forall|i: int| 0 <= i < s.len() implies s[i].0 != key by {
                    if i > 0 {
                        assert(s.drop_first()[i - 1] == s[i]);
                    }
                }
            },
        }
    }
}

/// Under distinct keys, the pair at `i` is what a find returns for its id.
pub proof fn lemma_find_pos_at(s: Seq<(Seq<char>, Position)>, i: int)
    requires
        distinct_keys(s),
        0 <= i < s.len(),
    ensures
        find_pos(s, s[i].0) == Some(s[i].1),
    decreases i,
{
    if i == 0 {
    } else {
        assert(s[0].0 != s[i].0);
        assert(s.drop_first()[i - 1] == s[i]);
        assert(distinct_keys(s.drop_first())) by {
            assert forall|a: int, b: int|
                0 <= a < b < s.drop_first().len() implies s.drop_first()[a].0
                != s.drop_first()[b].0 by {
                assert(s.drop_first()[a] == s[a + 1]);
                assert(s.drop_first()[b] == s[b + 1]);
            }
        }
        lemma_find_pos_at(s.drop_first(), i - 1);
    }
}

// ----- Reading one byte range of the data image -----

/// What one position points at in a data image.
#[verifier::ext_equal]
pub enum SliceStatus {
    /// The range lies inside the image and decodes to this entry.
    Valid(EntryV),
    /// The range reaches past the end of the image: a stale offset.
    OutOfRange,
    /// The range is inside the image but does not decode.
    Undecodable,
}

/// Read the entry a position points at.
pub open spec fn entry_at(data: Seq<u8>, p: Position) -> SliceStatus {
    if p.offset + p.length > data.len() {
        SliceStatus::OutOfRange
    } else {
        match dec_entry_val(data.subrange(p.offset as int, p.offset + p.length)) {
            Some(e) => SliceStatus::Valid(e),
            None => SliceStatus::Undecodable,
        }
    }
}

/// The entry a valid position points at.
pub open spec fn entry_of(data: Seq<u8>, p: Position) -> EntryV
    recommends
        entry_at(data, p) is Valid,
{
    entry_at(data, p)->Valid_0
}

/// Appending to the data image does not disturb ranges that lie inside
/// it.
pub proof fn lemma_entry_at_append(data: Seq<u8>, data2: Seq<u8>, p: Position)
    requires
        p.offset + p.length <= data.len(),
        data2.subrange(0, data.len() as int) == data,
        data2.len() >= data.len(),
    ensures
        entry_at(data2, p) == entry_at(data, p),
{
    assert(data2.subrange(p.offset as int, p.offset + p.length) =~= data.subrange(
        p.offset as int,
        p.offset + p.length,
    ));
}

/// The whole logical content of an index over a data image.
pub open spec fn entries_of(
    data: Seq<u8>,
    s: Seq<(Seq<char>, Position)>,
) -> Map<Seq<char>, EntryV> {
    Map::new(
        |k: Seq<char>| find_pos(s, k) is Some,
        |k: Seq<char>| entry_of(data, find_pos(s, k)->Some_0),
    )
}

/// The first failure met when reading every indexed range in table
/// order, if any.
pub open spec fn scan_bad(data: Seq<u8>, s: Seq<(Seq<char>, Position)>) -> Option<
    BinaryStoreError,
>
    decreases s.len(),
{
    if s.len() == 0 {
        None
    } else {
        match entry_at(data, s[0].1) {
            SliceStatus::Valid(e) => scan_bad(data, s.drop_first()),
            SliceStatus::OutOfRange => Some(BinaryStoreError::IoError),
            SliceStatus::Undecodable => Some(BinaryStoreError::SerializationError),
        }
    }
}

/// Reading every range succeeds exactly when every range is valid.
pub proof fn lemma_scan_bad_none(data: Seq<u8>, s: Seq<(Seq<char>, Position)>)
    ensures
        (scan_bad(data, s) is None) <==> (forall|i: int|
            0 <= i < s.len() ==> entry_at(data, #[trigger] s[i].1) is Valid),
    decreases s.len(),
{
    if s.len() == 0 {
    } else {
        lemma_scan_bad_none(data, s.drop_first());
        if entry_at(data, s[0].1) is Valid {
            if scan_bad(data, s) is None {
                assert forall|i: int|
                    0 <= i < s.len() implies entry_at(data, #[trigger] s[i].1) is Valid by {
                    if i > 0 {
                        assert(s.drop_first()[i - 1] == s[i]);
                    }
                }
            } else {
                let i = choose|i: int|
                    0 <= i < s.drop_first().len() && !(entry_at(
                        data,
                        #[trigger] s.drop_first()[i].1,
                    ) is Valid);
                assert(s[i + 1] == s.drop_first()[i]);
            }
        }
    }
}

/// The failure the scan reports is the one at the first bad range.
pub proof fn lemma_scan_bad_first(data: Seq<u8>, s: Seq<(Seq<char>, Position)>, i: int)
    requires
        0 <= i < s.len(),
        forall|j: int| 0 <= j < i ==> entry_at(data, #[trigger] s[j].1) is Valid,
        !(entry_at(data, s[i].1) is Valid),
    ensures
        scan_bad(data, s) == (match entry_at(data, s[i].1) {
            SliceStatus::Valid(e) => None::<BinaryStoreError>,
            SliceStatus::OutOfRange => Some(BinaryStoreError::IoError),
            SliceStatus::Undecodable => Some(BinaryStoreError::SerializationError),
        }),
    decreases i,
{
    if i == 0 {
    } else {
        assert(entry_at(data, s[0].1) is Valid);
        assert forall|j: int|
            0 <= j < i - 1 implies entry_at(data, #[trigger] s.drop_first()[j].1) is Valid by {
            assert(s.drop_first()[j] == s[j + 1]);
        }
        assert(s.drop_first()[i - 1] == s[i]);
        lemma_scan_bad_first(data, s.drop_first(), i - 1);
    }
}

/// The data image compaction leaves behind: the serialized entry of every
/// pair, in table order, with nothing between.
pub open spec fn compact_bytes(data: Seq<u8>, s: Seq<(Seq<char>, Position)>) -> Seq<u8>
    decreases s.len(),
{
    if s.len() == 0 {
        Seq::empty()
    } else {
        compact_bytes(data, s.drop_last()) + enc_entry(entry_of(data, s.last().1))
    }
}

// ----- Operations on an id-to-position table -----

/// The first pair of the table carrying `id`, if any.
fn assoc_find(v: &Vec<(String, Position)>, id: &String) -> (r: Option<usize>)
    requires
        distinct_keys(pairs_view(v@)),
    ensures
        (match r {
            Some(i) => i < pairs_view(v@).len() && pairs_view(v@)[i as int].0 == id@ && find_pos(
                pairs_view(v@),
                id@,
            ) == Some(pairs_view(v@)[i as int].1),
            None => find_pos(pairs_view(v@), id@) is None,
        }),
{
    let n = v.len();
    let mut i: usize = 0;
    while i < n
        invariant
            distinct_keys(pairs_view(v@)),
            i <= n,
            n == v@.len(),
            forall|j: int| 0 <= j < i ==> pairs_view(v@)[j].0 != id@,
        decreases n - i,
    {
        if v[i].0 == *id {
            proof {
                lemma_find_pos_at(pairs_view(v@), i as int);
            }
            return Some(i);
        }
        i += 1;
    }
    proof {
        lemma_find_pos_char(pairs_view(v@), id@);
    }
    None
}

/// Map `id` to `position` in the table, replacing any prior position for
/// it.
fn assoc_upsert(v: &mut Vec<(String, Position)>, id: &String, position: Position)
    requires
        distinct_keys(pairs_view(old(v)@)),
    ensures
        distinct_keys(pairs_view(final(v)@)),
        assoc_map(pairs_view(final(v)@)) == assoc_map(pairs_view(old(v)@)).insert(id@, position),
        (forall|k: Seq<char>|
            assoc_map(pairs_view(final(v)@)).contains_key(k) ==> (k == id@ || (assoc_map(
                pairs_view(old(v)@),
            ).contains_key(k) && assoc_map(pairs_view(final(v)@))[k] == assoc_map(
                pairs_view(old(v)@),
            )[k]))),
{
    let ghost s_old = pairs_view(v@);
    match assoc_find(v, id) {
        Some(i) => {
            let elem = vstd::std_specs::vec::vec_index_mut(v, i);
            *elem = (id.clone(), position);
            proof {
                let s_new = pairs_view(v@);
                assert(s_new =~= s_old.update(i as int, (id@, position)));
                assert(distinct_keys(s_new)) by {
                    assert forall|a: int, b: int|
                        0 <= a < b < s_new.len() implies s_new[a].0 != s_new[b].0 by {
                        assert(s_old[a].0 == s_new[a].0 || (a == i && s_new[a].0 == id@));
                        assert(s_old[b].0 == s_new[b].0 || (b == i && s_new[b].0 == id@));
                        assert(s_old[i as int].0 == id@);
                    }
                }
                assert forall|k: Seq<char>| true implies #[trigger] find_pos(s_new, k)
                    == (if k == id@ {
                    Some(position)
                } else {
                    find_pos(s_old, k)
                }) by {
                    if k == id@ {
                        lemma_find_pos_at(s_new, i as int);
                    } else {
                        lemma_find_pos_char(s_new, k);
                        lemma_find_pos_char(s_old, k);
                        match find_pos(s_new, k) {
                            Some(p) => {
                                let a = choose|a: int|
                                    0 <= a < s_new.len() && s_new[a].0 == k && s_new[a].1 == p;
                                lemma_find_pos_at(s_old, a);
                            },
                            None => {
                                match find_pos(s_old, k) {
                                    Some(p) => {
                                        let a = choose|a: int|
                                            0 <= a < s_old.len() && s_old[a].0 == k && s_old[a].1
                                                == p;
                                        assert(s_new[a].0 == k);
                                        lemma_find_pos_at(s_new, a);
                                    },
                                    None => {},
                                }
                            },
                        }
                    }
                }
                assert(assoc_map(s_new) =~= assoc_map(s_old).insert(id@, position));
            }
        },
        None => {
            v.push((id.clone(), position));
            proof {
                let s_new = pairs_view(v@);
                assert(s_new =~= s_old.push((id@, position)));
                lemma_find_pos_char(s_old, id@);
                assert(distinct_keys(s_new)) by {
                    assert forall|a: int, b: int|
                        0 <= a < b < s_new.len() implies s_new[a].0 != s_new[b].0 by {
                        if b < s_old.len() {
                            assert(s_new[a] == s_old[a]);
                            assert(s_new[b] == s_old[b]);
                        } else {
                            assert(s_new[a] == s_old[a]);
                            assert(s_new[b].0 == id@);
                            assert(s_old[a].0 != id@);
                        }
                    }
                }
                assert forall|k: Seq<char>| true implies #[trigger] find_pos(s_new, k)
                    == (if k == id@ {
                    Some(position)
                } else {
                    find_pos(s_old, k)
                }) by {
                    if k == id@ {
                        lemma_find_pos_at(s_new, s_old.len() as int);
                    } else {
                        lemma_find_pos_char(s_new, k);
                        lemma_find_pos_char(s_old, k);
                        match find_pos(s_new, k) {
                            Some(p) => {
                                let a = choose|a: int|
                                    0 <= a < s_new.len() && s_new[a].0 == k && s_new[a].1 == p;
                                assert(a < s_old.len());
                                lemma_find_pos_at(s_old, a);
                            },
                            None => {
                                match find_pos(s_old, k) {
                                    Some(p) => {
                                        let a = choose|a: int|
                                            0 <= a < s_old.len() && s_old[a].0 == k && s_old[a].1
                                                == p;
                                        assert(s_new[a].0 == k);
                                        lemma_find_pos_at(s_new, a);
                                    },
                                    None => {},
                                }
                            },
                        }
                    }
                }
                assert(assoc_map(s_new) =~= assoc_map(s_old).insert(id@, position));
            }
        },
    }
}

/// Pairs ordered by ascending offset.
pub open spec fn sorted_by_offset(s: Seq<(Seq<char>, Position)>) -> bool {
    forall|i: int, j: int| 0 <= i < j < s.len() ==> s[i].1.offset <= s[j].1.offset
}

/// A permutation of the table indices `0 .. n`.
pub open spec fn is_index_permutation(ord: Seq<int>, n: int) -> bool {
    &&& ord.len() == n
    &&& (forall|i: int| 0 <= i < n ==> 0 <= #[trigger] ord[i] < n)
    &&& (forall|i: int, j: int| 0 <= i < j < n ==> ord[i] != ord[j])
}

/// The entries of the given pairs that pass the filter, in order.
pub open spec fn matching_indexed<F: Filter<Entry>>(
    data: Seq<u8>,
    s: Seq<(Seq<char>, Position)>,
    f: &F,
) -> Seq<EntryV>
    decreases s.len(),
{
    if s.len() == 0 {
        Seq::empty()
    } else {
        let pre = matching_indexed(data, s.drop_last(), f);
        if f.spec_pass(entry_of(data, s.last().1)) {
            pre.push(entry_of(data, s.last().1))
        } else {
            pre
        }
    }
}

/// Order the table indices by ascending offset, by insertion sort.
fn sort_positions(pairs: &Vec<(String, Position)>) -> (r: Vec<usize>)
    ensures
        r@.len() == pairs@.len(),
        forall|j: int| 0 <= j < r@.len() ==> (#[trigger] r@[j]) < pairs@.len(),
        forall|i: int, j: int| 0 <= i < j < r@.len() ==> r@[i] != r@[j],
        forall|i: int, j: int|
            0 <= i < j < r@.len() ==> pairs@[r@[i] as int].1.offset <= pairs@[r@[j] as int
                ].1.offset,
{
    let n = pairs.len();
    let mut order: Vec<usize> = Vec::new();
    let mut i: usize = 0;
    while i < n
        invariant
            i <= n,
            order@.len() == i,
            forall|j: int| 0 <= j < i ==> (#[trigger] order@[j]) == j,
        decreases n - i,
    {
        order.push(i);
        i += 1;
    }
    if n == 0 {
        return order;
    }
    let mut a: usize = 1;
    while a < n
        invariant
            1 <= a <= n,
            n == pairs@.len(),
            order@.len() == n,
            forall|j: int| 0 <= j < n ==> (#[trigger] order@[j]) < n,
            forall|i2: int, j: int| 0 <= i2 < j < n ==> order@[i2] != order@[j],
            forall|i2: int, j: int|
                0 <= i2 < j < a ==> pairs@[order@[i2] as int].1.offset <= pairs@[order@[j] as int
                    ].1.offset,
        decreases n - a,
    {
        let mut b: usize = a;
        while b > 0 && pairs[order[b - 1]].1.offset > pairs[order[b]].1.offset
            invariant
                b <= a < n,
                n == pairs@.len(),
                order@.len() == n,
                forall|j: int| 0 <= j < n ==> (#[trigger] order@[j]) < n,
                forall|i2: int, j: int| 0 <= i2 < j < n ==> order@[i2] != order@[j],
                forall|i2: int, j: int|
                    0 <= i2 < j <= a && j != b ==> pairs@[order@[i2] as int].1.offset
                        <= pairs@[order@[j] as int].1.offset,
            decreases b,
        {
            let ghost order_before = order@;
            let x = order[b - 1];
            let y = order[b];
            let eb = vstd::std_specs::vec::vec_index_mut(&mut order, b - 1);
            *eb = y;
            let eb2 = vstd::std_specs::vec::vec_index_mut(&mut order, b);
            *eb2 = x;
            proof {
                assert(order@ =~= order_before.update(b - 1, y).update(b as int, x));
                assert forall|i2: int, j: int|
                    0 <= i2 < j <= a && j != b - 1 implies pairs@[order@[i2] as int].1.offset
                    <= pairs@[order@[j] as int].1.offset by {
                    if j == b {
                        if i2 < b - 1 {
                            assert(order@[i2] == order_before[i2]);
                            assert(order@[j] == order_before[b - 1]);
                        }
                    } else {
                        if i2 == b - 1 {
                            assert(order@[i2] == order_before[b as int]);
                            assert(order@[j] == order_before[j]);
                        } else if i2 == b {
                            assert(order@[i2] == order_before[b - 1]);
                            assert(order@[j] == order_before[j]);
                        } else {
                            assert(order@[i2] == order_before[i2]);
                            assert(order@[j] == order_before[j]);
                        }
                    }
                }
            }
            b -= 1;
        }
        proof {
            assert forall|i2: int, j: int|
                0 <= i2 < j <= a implies pairs@[order@[i2] as int].1.offset <= pairs@[order@[
                j] as int].1.offset by {
                if j == b {
                    if b > 0 {
                        assert(pairs@[order@[b - 1] as int].1.offset <= pairs@[order@[b as int
                            ] as int].1.offset);
                        if i2 < b - 1 {
                            assert(pairs@[order@[i2] as int].1.offset <= pairs@[order@[b
                                - 1] as int].1.offset);
                        }
                    }
                }
            }
        }
        a += 1;
    }
    order
}

// ----- The engine -----

/// Append-only data image, index image, and the in-memory id-to-position
/// table with its two dirty flags.
pub struct IndexedBinaryFileEntryStore {
    data: Vec<u8>,
    index_image: Vec<u8>,
    index: Vec<(String, Position)>,
    needs_index_rewrite: bool,
    needs_data_rewrite: bool,
}

impl IndexedBinaryFileEntryStore {
    /// Structural well-formedness: no id appears twice in the in-memory
    /// table.  Constructors establish it and every operation preserves it.
    pub closed spec fn inv(&self) -> bool {
        distinct_keys(self.index_seq())
    }

    /// The data image.
    pub closed spec fn data_bytes(&self) -> Seq<u8> {
        self.data@
    }

    /// The index image.
    pub closed spec fn index_bytes(&self) -> Seq<u8> {
        self.index_image@
    }

    /// The in-memory table, in insertion order.
    pub closed spec fn index_seq(&self) -> Seq<(Seq<char>, Position)> {
        pairs_view(self.index@)
    }

    /// The in-memory table as a map.
    pub open spec fn index_map(&self) -> Map<Seq<char>, Position> {
        assoc_map(self.index_seq())
    }

    /// Whether the in-memory table has diverged from the index image.
    pub closed spec fn index_dirty(&self) -> bool {
        self.needs_index_rewrite
    }

    /// Whether the data image holds unreachable byte ranges.
    pub closed spec fn data_dirty(&self) -> bool {
        self.needs_data_rewrite
    }

    /// Every position in the table points at a decodable entry.
    pub open spec fn wf(&self) -> bool {
        forall|i: int|
            0 <= i < self.index_seq().len() ==> entry_at(
                self.data_bytes(),
                self.index_seq()[i].1,
            ) is Valid
    }

    /// The logical content: each indexed id with its current entry.
    pub open spec fn entries(&self) -> Map<Seq<char>, EntryV> {
        entries_of(self.data_bytes(), self.index_seq())
    }

    /// Under well-formedness, what the table maps an id to is a decodable
    /// entry.
    pub proof fn lemma_wf_map(&self, key: Seq<char>)
        requires
            self.wf(),
            self.index_map().contains_key(key),
        ensures
            entry_at(self.data_bytes(), self.index_map()[key]) is Valid,
            self.entries().contains_key(key),
            self.entries()[key] == entry_of(self.data_bytes(), self.index_map()[key]),
    {
        lemma_find_pos_char(self.index_seq(), key);
    }

    /// A fresh store: empty images, empty table, both flags clear.
    pub fn new() -> (r: Self)
        ensures
            r.data_bytes() == Seq::<u8>::empty(),
            r.index_bytes() == Seq::<u8>::empty(),
            r.index_map() == Map::<Seq<char>, Position>::empty(),
            !r.index_dirty(),
            !r.data_dirty(),
            r.wf(),
            r.inv(),
    {
        let r = IndexedBinaryFileEntryStore {
            data: Vec::new(),
            index_image: Vec::new(),
            index: Vec::new(),
            needs_index_rewrite: false,
            needs_data_rewrite: false,
        };
        proof {
            assert(r.index_seq() =~= Seq::<(Seq<char>, Position)>::empty());
            assert(r.index_map() =~= Map::<Seq<char>, Position>::empty());
        }
        r
    }

    /// A store over images read from elsewhere.  The in-memory table
    /// always starts empty, whatever the index image holds: hydration
    /// takes an explicit [`Self::reload_index`].
    pub fn from_images(data: Vec<u8>, index_image: Vec<u8>) -> (r: Self)
        ensures
            r.data_bytes() == data@,
            r.index_bytes() == index_image@,
            r.index_map() == Map::<Seq<char>, Position>::empty(),
            !r.index_dirty(),
            !r.data_dirty(),
            r.wf(),
            r.inv(),
    {
        let r = IndexedBinaryFileEntryStore {
            data,
            index_image,
            index: Vec::new(),
            needs_index_rewrite: false,
            needs_data_rewrite: false,
        };
        proof {
            assert(r.index_seq() =~= Seq::<(Seq<char>, Position)>::empty());
            assert(r.index_map() =~= Map::<Seq<char>, Position>::empty());
        }
        r
    }

    /// The data image, for persisting.
    pub fn data_image(&self) -> (r: &Vec<u8>)
        ensures
            r@ == self.data_bytes(),
    {
        &self.data
    }

    /// The index image, for persisting.
    pub fn index_file_image(&self) -> (r: &Vec<u8>)
        ensures
            r@ == self.index_bytes(),
    {
        &self.index_image
    }

    /// Whether the in-memory table must be rewritten to the index image
    /// before it is durable.
    pub fn needs_index_rewrite(&self) -> (r: bool)
        ensures
            r == self.index_dirty(),
    {
        self.needs_index_rewrite
    }

    /// Whether the data image holds reclaimable garbage.
    pub fn needs_data_rewrite(&self) -> (r: bool)
        ensures
            r == self.data_dirty(),
    {
        self.needs_data_rewrite
    }

    /// The first table entry carrying `id`, if any.
    fn find_index(&self, id: &String) -> (r: Option<usize>)
        requires
            self.inv(),
        ensures
            (match r {
                Some(i) => i < self.index_seq().len() && self.index_seq()[i as int].0 == id@
                    && find_pos(self.index_seq(), id@) == Some(self.index_seq()[i as int].1),
                None => find_pos(self.index_seq(), id@) is None,
            }),
    {
        assoc_find(&self.index, id)
    }

    /// Map `id` to `position` in the in-memory table, replacing any prior
    /// position, and mark the index image stale.
    fn update_index_entry(&mut self, id: &String, position: Position)
        requires
            old(self).inv(),
        ensures
            final(self).inv(),
            final(self).index_map() == old(self).index_map().insert(id@, position),
            final(self).data_bytes() == old(self).data_bytes(),
            final(self).index_bytes() == old(self).index_bytes(),
            final(self).index_dirty(),
            final(self).data_dirty() == old(self).data_dirty(),
            (forall|k: Seq<char>|
                final(self).index_map().contains_key(k) ==> (k == id@ || (
                old(self).index_map().contains_key(k) && final(self).index_map()[k] == old(
                    self,
                ).index_map()[k]))),
    {
        assoc_upsert(&mut self.index, id, position);
        self.needs_index_rewrite = true;
    }

    /// Read and decode the byte range a position points at.
    fn get(&self, position: Position) -> (r: Result<Entry, BinaryStoreError>)
        ensures
            (match entry_at(self.data_bytes(), position) {
                SliceStatus::Valid(ev) => r matches Ok(e) && e@ == ev,
                SliceStatus::OutOfRange => r == Err::<Entry, BinaryStoreError>(
                    BinaryStoreError::IoError,
                ),
                SliceStatus::Undecodable => r == Err::<Entry, BinaryStoreError>(
                    BinaryStoreError::SerializationError,
                ),
            }),
    {
        let dlen = self.data.len();
        if position.length > dlen || position.offset > (dlen - position.length) as u64 {
            return Err(BinaryStoreError::IoError);
        }
        let off = position.offset as usize;
        let buf = copy_range(&self.data, off, off + position.length);
        match decode_entry_at(&buf, 0) {
            Some((e, _)) => Ok(e),
            None => Err(BinaryStoreError::SerializationError),
        }
    }

    /// Append the serialized entry at the end of the data image and point
    /// the table at it.  The bytes are durable at once; the mapping is not
    /// until [`Self::rewrite_index`].  Overwriting leaves the prior range
    /// as garbage without marking the data image for rewrite.
    #[verifier::rlimit(80)]
    pub fn save(&mut self, id: &String, value: &Entry) -> (r: Result<(), BinaryStoreError>)
        requires
            old(self).inv(),
        ensures
            final(self).inv(),
            r is Ok,
            final(self).data_bytes() == old(self).data_bytes() + enc_entry(value@),
            final(self).index_bytes() == old(self).index_bytes(),
            final(self).index_map() == old(self).index_map().insert(
                id@,
                Position {
                    offset: old(self).data_bytes().len() as u64,
                    length: enc_entry(value@).len() as usize,
                },
            ),
            final(self).index_dirty(),
            final(self).data_dirty() == old(self).data_dirty(),
            old(self).wf() ==> final(self).wf(),
            old(self).wf() ==> final(self).entries() == old(self).entries().insert(id@, value@),
    {
        let ghost data_old = self.data@;
        let ghost s_old = self.index_seq();
        let ghost entries_old = self.entries();
        let ghost wf_old = self.wf();
        let bytes = encode_entry(value);
        let offset = self.data.len() as u64;
        let length = bytes.len();
        append_slice(&mut self.data, bytes.as_slice());
        let position = Position { offset, length };
        proof {
            assert(self.data@.subrange(offset as int, offset + length) =~= enc_entry(value@));
            assert(self.data@.subrange(offset as int, offset + length).subrange(
                0,
                enc_entry(value@).len() as int,
            ) =~= enc_entry(value@));
            crate::codec::lemma_dec_enc_entry(
                self.data@.subrange(offset as int, offset + length),
                0,
                value@,
            );
            assert(entry_at(self.data@, position) == SliceStatus::Valid(value@));
            assert(self.data@.subrange(0, data_old.len() as int) =~= data_old);
        }
        self.update_index_entry(id, position);
        proof {
            if wf_old {
                assert forall|i: int|
                    0 <= i < self.index_seq().len() implies entry_at(
                    self.data_bytes(),
                    self.index_seq()[i].1,
                ) is Valid by {
                    let k = self.index_seq()[i].0;
                    let p = self.index_seq()[i].1;
                    lemma_find_pos_at(self.index_seq(), i);
                    assert(self.index_map().contains_key(k));
                    assert(self.index_map()[k] == p);
                    if k == id@ {
                        assert(self.index_map()[k] == position);
                        assert(p == position);
                    } else {
                        assert(old(self).index_map().contains_key(k) && p == old(
                            self,
                        ).index_map()[k]);
                        lemma_find_pos_char(s_old, k);
                        let a = choose|a: int|
                            0 <= a < s_old.len() && s_old[a].0 == k && s_old[a].1 == p;
                        lemma_entry_at_append(data_old, self.data@, p);
                    }
                }
                assert forall|k: Seq<char>| true implies #[trigger] entries_of(
                    self.data_bytes(),
                    self.index_seq(),
                ).contains_key(k) == entries_old.insert(id@, value@).contains_key(k) && (
                entries_of(self.data_bytes(), self.index_seq()).contains_key(k)
                    ==> entries_of(self.data_bytes(), self.index_seq())[k] == entries_old.insert(
                    id@,
                    value@,
                )[k]) by {
                    if k == id@ {
                        assert(self.index_map().contains_key(k));
                        assert(self.index_map()[k] == position);
                    } else {
                        if self.index_map().contains_key(k) {
                            let p = self.index_map()[k];
                            assert(old(self).index_map().contains_key(k) && p == old(
                                self,
                            ).index_map()[k]);
                            lemma_find_pos_char(s_old, k);
                            let a = choose|a: int|
                                0 <= a < s_old.len() && s_old[a].0 == k && s_old[a].1 == p;
                            lemma_entry_at_append(data_old, self.data@, p);
                        } else {
                            assert(!old(self).index_map().contains_key(k)) by {
                                if old(self).index_map().contains_key(k) {
                                    assert(self.index_map().contains_key(k));
                                }
                            }
                        }
                    }
                }
                assert(self.entries() =~= entries_old.insert(id@, value@));
            }
        }
        Ok(())
    }

    /// O(1) lookup through the in-memory table; an id the table does not
    /// hold is absent, a stale or undecodable range is an error.
    pub fn load(&self, key: &String) -> (r: Result<Option<Entry>, BinaryStoreError>)
        requires
            self.inv(),
        ensures
            (if !self.index_map().contains_key(key@) {
                r == Ok::<Option<Entry>, BinaryStoreError>(None)
            } else {
                match entry_at(self.data_bytes(), self.index_map()[key@]) {
                    SliceStatus::Valid(ev) => r matches Ok(Some(e)) && e@ == ev,
                    SliceStatus::OutOfRange => r == Err::<Option<Entry>, BinaryStoreError>(
                        BinaryStoreError::IoError,
                    ),
                    SliceStatus::Undecodable => r == Err::<Option<Entry>, BinaryStoreError>(
                        BinaryStoreError::SerializationError,
                    ),
                }
            }),
            (self.wf() && self.index_map().contains_key(key@)) ==> (r matches Ok(Some(e)) && e@
                == self.entries()[key@]),
    {
        proof {
            if self.wf() && self.index_map().contains_key(key@) {
                self.lemma_wf_map(key@);
            }
        }
        match self.find_index(key) {
            Some(i) => {
                let position = self.index[i].1;
                match self.get(position) {
                    Ok(e) => Ok(Some(e)),
                    Err(err) => Err(err),
                }
            },
            None => Ok(None),
        }
    }

    /// Remove the id from the in-memory table only; its bytes stay as
    /// reclaimable garbage, so the data image is marked for rewrite.
    pub fn delete(&mut self, id: &String) -> (r: Result<(), BinaryStoreError>)
        requires
            old(self).inv(),
        ensures
            final(self).inv(),
            r is Ok,
            final(self).data_bytes() == old(self).data_bytes(),
            final(self).index_bytes() == old(self).index_bytes(),
            final(self).index_map() == old(self).index_map().remove(id@),
            final(self).index_dirty() == old(self).index_dirty(),
            final(self).data_dirty(),
            old(self).wf() ==> final(self).wf(),
            final(self).entries() == old(self).entries().remove(id@),
    {
        let ghost s_old = self.index_seq();
        match self.find_index(id) {
            Some(i) => {
                self.index.remove(i);
                proof {
                    let s_new = self.index_seq();
                    assert(s_new =~= s_old.remove(i as int));
                    assert(distinct_keys(s_new)) by {
                        assert forall|a: int, b: int|
                            0 <= a < b < s_new.len() implies s_new[a].0 != s_new[b].0 by {
                            let a0 = if a < i {
                                a
                            } else {
                                a + 1
                            };
                            let b0 = if b < i {
                                b
                            } else {
                                b + 1
                            };
                            assert(s_new[a] == s_old[a0]);
                            assert(s_new[b] == s_old[b0]);
                        }
                    }
                    assert(s_old[i as int].0 == id@);
                    assert forall|k: Seq<char>| true implies #[trigger] find_pos(s_new, k)
                        == (if k == id@ {
                        None
                    } else {
                        find_pos(s_old, k)
                    }) by {
                        lemma_find_pos_char(s_new, k);
                        lemma_find_pos_char(s_old, k);
                        if k == id@ {
                            match find_pos(s_new, k) {
                                Some(p) => {
                                    let a = choose|a: int|
                                        0 <= a < s_new.len() && s_new[a].0 == k && s_new[a].1
                                            == p;
                                    let a0 = if a < i {
                                        a
                                    } else {
                                        a + 1
                                    };
                                    assert(s_new[a] == s_old[a0]);
                                },
                                None => {},
                            }
                        } else {
                            match find_pos(s_new, k) {
                                Some(p) => {
                                    let a = choose|a: int|
                                        0 <= a < s_new.len() && s_new[a].0 == k && s_new[a].1
                                            == p;
                                    let a0 = if a < i {
                                        a
                                    } else {
                                        a + 1
                                    };
                                    assert(s_new[a] == s_old[a0]);
                                    lemma_find_pos_at(s_old, a0);
                                },
                                None => {
                                    match find_pos(s_old, k) {
                                        Some(p) => {
                                            let a0 = choose|a0: int|
                                                0 <= a0 < s_old.len() && s_old[a0].0 == k
                                                    && s_old[a0].1 == p;
                                            let a = if a0 < i {
                                                a0
                                            } else {
                                                a0 - 1
                                            };
                                            assert(s_new[a] == s_old[a0]);
                                            lemma_find_pos_at(s_new, a);
                                        },
                                        None => {},
                                    }
                                },
                            }
                        }
                    }
                    assert(assoc_map(s_new) =~= assoc_map(s_old).remove(id@));
                    assert(entries_of(self.data_bytes(), s_new) =~= entries_of(
                        self.data_bytes(),
                        s_old,
                    ).remove(id@));
                    if old(self).wf() {
                        assert forall|a: int|
                            0 <= a < s_new.len() implies entry_at(self.data_bytes(), s_new[a].1)
                            is Valid by {
                            let a0 = if a < i {
                                a
                            } else {
                                a + 1
                            };
                            assert(s_new[a] == s_old[a0]);
                        }
                    }
                }
            },
            None => {
                proof {
                    assert(assoc_map(s_old) =~= assoc_map(s_old).remove(id@));
                    assert(entries_of(self.data_bytes(), s_old) =~= entries_of(
                        self.data_bytes(),
                        s_old,
                    ).remove(id@));
                }
            },
        }
        self.needs_data_rewrite = true;
        Ok(())
    }

    /// Replace the in-memory table by fully decoding the index image.  On
    /// any decode failure the table is left untouched (fail-soft); the
    /// flags never change.
    pub fn reload_index(&mut self)
        requires
            old(self).inv(),
        ensures
            final(self).inv(),
            final(self).data_bytes() == old(self).data_bytes(),
            final(self).index_bytes() == old(self).index_bytes(),
            final(self).index_dirty() == old(self).index_dirty(),
            final(self).data_dirty() == old(self).data_dirty(),
            (match parse_index(old(self).index_bytes(), 0, INDEX_RECORD_SIZE as int) {
                IndexParse::Slots(ps) => final(self).index_map() == map_of_pairs(ps),
                IndexParse::Truncated => final(self).index_map() == old(self).index_map(),
                IndexParse::Corrupt => final(self).index_map() == old(self).index_map(),
            }),
    {
        let ghost b = self.index_bytes();
        let image_copy = copy_range(&self.index_image, 0, self.index_image.len());
        let mut it = BinaryIndexIterator::new(image_copy, INDEX_RECORD_SIZE);
        let mut new_index: Vec<(String, Position)> = Vec::new();
        let ghost mut done: Seq<(Seq<char>, Position)> = Seq::empty();
        loop
            invariant
                *self == *old(self),
                self.inv(),
                b == old(self).index_bytes(),
                it.stream() == b,
                it.rec_size() == INDEX_RECORD_SIZE as int,
                0 <= it.at() <= b.len(),
                distinct_keys(pairs_view(new_index@)),
                assoc_map(pairs_view(new_index@)) == map_of_pairs(done),
                (match parse_index(b, it.at(), INDEX_RECORD_SIZE as int) {
                    IndexParse::Slots(rest) => parse_index(b, 0, INDEX_RECORD_SIZE as int)
                        == IndexParse::Slots(done + rest),
                    IndexParse::Truncated => parse_index(
                        b,
                        0,
                        INDEX_RECORD_SIZE as int,
                    ) is Truncated,
                    IndexParse::Corrupt => parse_index(b, 0, INDEX_RECORD_SIZE as int) is Corrupt,
                }),
            ensures
                parse_index(b, 0, INDEX_RECORD_SIZE as int) == IndexParse::Slots(done),
                distinct_keys(pairs_view(new_index@)),
                assoc_map(pairs_view(new_index@)) == map_of_pairs(done),
            decreases b.len() - it.at(),
        {
            proof {
                lemma_parse_index_step(b, it.at(), INDEX_RECORD_SIZE as int);
            }
            match it.next() {
                None => {
                    proof {
                        assert(done + Seq::<(Seq<char>, Position)>::empty() =~= done);
                    }
                    break;
                },
                Some(Ok(ie)) => {
                    let ghost pr = ie@;
                    let IndexEntry { id, position } = ie;
                    assoc_upsert(&mut new_index, &id, position);
                    proof {
                        assert(map_of_pairs(done.push(pr)) == map_of_pairs(done).insert(
                            pr.0,
                            pr.1,
                        )) by {
                            assert(done.push(pr).drop_last() =~= done);
                        }
                        let rest2 = parse_index(b, it.at(), INDEX_RECORD_SIZE as int);
                        if rest2 is Slots {
                            assert(done + (seq![pr] + rest2->Slots_0) =~= (done.push(pr))
                                + rest2->Slots_0);
                        }
                        done = done.push(pr);
                    }
                },
                Some(Err(_)) => {
                    return ;
                },
            }
        }
        self.index = new_index;
    }

    /// Encode every table pair into one fixed-width slot and replace the
    /// index image with them; clears `needs_index_rewrite` only on
    /// success.  An id too wide for a slot is rejected, never truncated,
    /// and leaves the store unchanged.
    pub fn rewrite_index(&mut self) -> (r: Result<(), BinaryStoreError>)
        requires
            old(self).inv(),
        ensures
            final(self).inv(),
            final(self).data_bytes() == old(self).data_bytes(),
            final(self).index_seq() == old(self).index_seq(),
            final(self).data_dirty() == old(self).data_dirty(),
            (if forall|i: int|
                0 <= i < old(self).index_seq().len() ==> slot_fits(
                    #[trigger] old(self).index_seq()[i].0,
                ) {
                &&& r is Ok
                &&& parse_index(final(self).index_bytes(), 0, INDEX_RECORD_SIZE as int)
                    == IndexParse::Slots(old(self).index_seq())
                &&& !final(self).index_dirty()
            } else {
                &&& r == Err::<(), BinaryStoreError>(BinaryStoreError::IndexRecordTooLarge)
                &&& final(self).index_bytes() == old(self).index_bytes()
                &&& final(self).index_dirty() == old(self).index_dirty()
            }),
    {
        let n = self.index.len();
        let mut out: Vec<u8> = Vec::new();
        let mut i: usize = 0;
        while i < n
            invariant
                *self == *old(self),
                self.inv(),
                i <= n,
                n == self.index@.len(),
                forall|j: int| 0 <= j < i ==> slot_fits(#[trigger] self.index_seq()[j].0),
                parse_index(out@, 0, INDEX_RECORD_SIZE as int) == IndexParse::Slots(
                    self.index_seq().take(i as int),
                ),
            decreases n - i,
        {
            let pos_i = self.index[i].1;
            match encode_slot(&self.index[i].0, pos_i) {
                Err(e) => {
                    return Err(e);
                },
                Ok(slot) => {
                    let ghost out_before = out@;
                    append_slice(&mut out, slot.as_slice());
                    proof {
                        assert(self.index_seq()[i as int] == (self.index@[i as int].0@,
                            self.index@[i as int].1));
                        lemma_dec_enc_slot(self.index_seq()[i as int].0, pos_i);
                        lemma_parse_index_extend(
                            out_before,
                            out@,
                            0,
                            slot@,
                            self.index_seq()[i as int],
                            self.index_seq().take(i as int),
                            INDEX_RECORD_SIZE as int,
                        );
                        assert(self.index_seq().take(i + 1) =~= self.index_seq().take(
                            i as int,
                        ).push(self.index_seq()[i as int]));
                    }
                },
            }
            i += 1;
        }
        proof {
            assert(self.index_seq().take(n as int) =~= self.index_seq());
        }
        self.index_image = out;
        self.needs_index_rewrite = false;
        Ok(())
    }

    /// Compaction: re-read every indexed entry through the old data image,
    /// re-append it to a fresh one, and point the table at the new
    /// offsets; clears `needs_data_rewrite`.  The index image is *not*
    /// rewritten here: a caller that wants the on-disk index to match must
    /// follow with [`Self::rewrite_index`], or the persisted index will
    /// reference offsets the swap invalidated.
    #[verifier::rlimit(100)]
    pub fn write_data(&mut self) -> (r: Result<(), BinaryStoreError>)
        requires
            old(self).inv(),
        ensures
            final(self).inv(),
            final(self).index_bytes() == old(self).index_bytes(),
            final(self).index_dirty() == old(self).index_dirty(),
            (match scan_bad(old(self).data_bytes(), old(self).index_seq()) {
                Some(err) => {
                    &&& r == Err::<(), BinaryStoreError>(err)
                    &&& final(self).data_bytes() == old(self).data_bytes()
                    &&& final(self).index_map() == old(self).index_map()
                    &&& final(self).data_dirty() == old(self).data_dirty()
                },
                None => {
                    &&& r is Ok
                    &&& final(self).wf()
                    &&& final(self).entries() == old(self).entries()
                    &&& final(self).data_bytes() == compact_bytes(
                        old(self).data_bytes(),
                        old(self).index_seq(),
                    )
                    &&& !final(self).data_dirty()
                },
            }),
    {
        let n = self.index.len();
        let mut new_data: Vec<u8> = Vec::new();
        let mut new_index: Vec<(String, Position)> = Vec::new();
        let mut i: usize = 0;
        while i < n
            invariant
                *self == *old(self),
                self.inv(),
                i <= n,
                n == self.index@.len(),
                forall|j: int|
                    0 <= j < i ==> entry_at(self.data_bytes(), #[trigger] self.index_seq()[j].1)
                        is Valid,
                new_index@.len() == i,
                forall|j: int|
                    0 <= j < i ==> (#[trigger] pairs_view(new_index@)[j]).0
                        == self.index_seq()[j].0,
                forall|j: int|
                    0 <= j < i ==> entry_at(new_data@, (#[trigger] pairs_view(new_index@)[j]).1)
                        == SliceStatus::Valid(
                        entry_of(self.data_bytes(), self.index_seq()[j].1),
                    ),
                new_data@ == compact_bytes(self.data_bytes(), self.index_seq().take(i as int)),
            decreases n - i,
        {
            let position = self.index[i].1;
            match self.get(position) {
                Err(e) => {
                    proof {
                        lemma_scan_bad_first(self.data_bytes(), self.index_seq(), i as int);
                    }
                    return Err(e);
                },
                Ok(entry) => {
                    let bytes = encode_entry(&entry);
                    let offset = new_data.len() as u64;
                    let length = bytes.len();
                    let ghost nd_before = new_data@;
                    let ghost ni_before = new_index@;
                    append_slice(&mut new_data, bytes.as_slice());
                    let newpos = Position { offset, length };
                    let id_i = self.index[i].0.clone();
                    new_index.push((id_i, newpos));
                    proof {
                        assert(pairs_view(new_index@) =~= pairs_view(ni_before).push(
                            (self.index_seq()[i as int].0, newpos),
                        ));
                        assert(new_data@.subrange(offset as int, offset + length) =~= enc_entry(
                            entry@,
                        ));
                        assert(new_data@.subrange(offset as int, offset + length).subrange(
                            0,
                            enc_entry(entry@).len() as int,
                        ) =~= enc_entry(entry@));
                        crate::codec::lemma_dec_enc_entry(
                            new_data@.subrange(offset as int, offset + length),
                            0,
                            entry@,
                        );
                        assert(entry_at(new_data@, newpos) == SliceStatus::Valid(entry@));
                        assert(new_data@.subrange(0, nd_before.len() as int) =~= nd_before);
                        assert forall|j: int|
                            0 <= j < i implies entry_at(
                            new_data@,
                            (#[trigger] pairs_view(new_index@)[j]).1,
                        ) == SliceStatus::Valid(
                            entry_of(self.data_bytes(), self.index_seq()[j].1),
                        ) by {
                            assert(pairs_view(new_index@)[j] == pairs_view(ni_before)[j]);
                            lemma_entry_at_append(
                                nd_before,
                                new_data@,
                                pairs_view(ni_before)[j].1,
                            );
                        }
                        assert(self.index_seq().take(i + 1).drop_last() =~= self.index_seq().take(
                            i as int,
                        ));
                        assert(self.index_seq().take(i + 1).last() == self.index_seq()[i as int]);
                        assert(entry_of(self.data_bytes(), self.index_seq()[i as int].1)
                            == entry@);
                        assert(new_data@ =~= compact_bytes(
                            self.data_bytes(),
                            self.index_seq().take(i + 1),
                        ));
                    }
                },
            }
            i += 1;
        }
        proof {
            assert(self.index_seq().take(n as int) =~= self.index_seq());
            lemma_scan_bad_none(self.data_bytes(), self.index_seq());
        }
        let ghost data_old = self.data_bytes();
        let ghost s_old = self.index_seq();
        self.data = new_data;
        self.index = new_index;
        self.needs_data_rewrite = false;
        proof {
            let s_new = self.index_seq();
            assert(s_new.len() == s_old.len());
            assert(distinct_keys(s_new)) by {
                assert forall|a: int, b: int|
                    0 <= a < b < s_new.len() implies s_new[a].0 != s_new[b].0 by {
                    assert(s_new[a].0 == s_old[a].0);
                    assert(s_new[b].0 == s_old[b].0);
                }
            }
            assert forall|k: Seq<char>| true implies (#[trigger] find_pos(s_new, k) is Some
                == find_pos(s_old, k) is Some) && (find_pos(s_new, k) is Some ==> entry_of(
                self.data_bytes(),
                find_pos(s_new, k)->Some_0,
            ) == entry_of(data_old, find_pos(s_old, k)->Some_0)) by {
                lemma_find_pos_char(s_new, k);
                lemma_find_pos_char(s_old, k);
                match find_pos(s_new, k) {
                    Some(p) => {
                        let a = choose|a: int|
                            0 <= a < s_new.len() && s_new[a].0 == k && s_new[a].1 == p;
                        assert(s_old[a].0 == k);
                        lemma_find_pos_at(s_old, a);
                        lemma_find_pos_at(s_new, a);
                    },
                    None => {
                        match find_pos(s_old, k) {
                            Some(p) => {
                                let a = choose|a: int|
                                    0 <= a < s_old.len() && s_old[a].0 == k && s_old[a].1 == p;
                                assert(s_new[a].0 == k);
                                lemma_find_pos_at(s_new, a);
                            },
                            None => {},
                        }
                    },
                }
            }
            assert(entries_of(self.data_bytes(), s_new) =~= entries_of(data_old, s_old));
        }
        Ok(())
    }

    /// Snapshot the table sorted by ascending offset, read each range in
    /// that order, and keep the entries the filter passes: matches come
    /// back in original write order.
    pub fn search<F: Filter<Entry>>(&self, filter: &F) -> (r: Result<Vec<Entry>, BinaryStoreError>)
        requires
            self.inv(),
        ensures
            self.wf() ==> r is Ok,
            (r matches Ok(v) ==> exists|ord: Seq<int>|
                {
                    &&& #[trigger] is_index_permutation(ord, self.index_seq().len() as int)
                    &&& sorted_by_offset(
                        Seq::new(self.index_seq().len(), |j: int| self.index_seq()[ord[j]]),
                    )
                    &&& v@.map_values(|e: Entry| e@) == matching_indexed(
                        self.data_bytes(),
                        Seq::new(self.index_seq().len(), |j: int| self.index_seq()[ord[j]]),
                        filter,
                    )
                }),
            (r matches Err(e) ==> !self.wf() && (e == BinaryStoreError::IoError || e
                == BinaryStoreError::SerializationError)),
    {
        let order = sort_positions(&self.index);
        let n = order.len();
        let ghost ordi: Seq<int> = order@.map_values(|u: usize| u as int);
        let ghost sorted: Seq<(Seq<char>, Position)> = Seq::new(
            self.index_seq().len(),
            |j: int| self.index_seq()[ordi[j]],
        );
        let mut result: Vec<Entry> = Vec::new();
        let mut k: usize = 0;
        while k < n
            invariant
                self.inv(),
                k <= n,
                n == order@.len(),
                n == self.index@.len(),
                forall|j: int| 0 <= j < n ==> (#[trigger] order@[j]) < n,
                forall|i2: int, j: int| 0 <= i2 < j < n ==> order@[i2] != order@[j],
                forall|i2: int, j: int|
                    0 <= i2 < j < n ==> self.index@[order@[i2] as int].1.offset <= self.index@[
                        order@[j] as int].1.offset,
                ordi == order@.map_values(|u: usize| u as int),
                sorted == Seq::new(
                    self.index_seq().len(),
                    |j: int| self.index_seq()[ordi[j]],
                ),
                result@.map_values(|e: Entry| e@) == matching_indexed(
                    self.data_bytes(),
                    sorted.take(k as int),
                    filter,
                ),
            decreases n - k,
        {
            let idx = order[k];
            let position = self.index[idx].1;
            proof {
                assert(ordi[k as int] == idx as int);
                assert(sorted[k as int] == self.index_seq()[idx as int]);
                assert(self.index_seq()[idx as int].1 == position);
            }
            match self.get(position) {
                Err(e) => {
                    proof {
                        assert(!(entry_at(self.data_bytes(), self.index_seq()[idx as int].1)
                            is Valid));
                    }
                    return Err(e);
                },
                Ok(entry) => {
                    let ghost res_before = result@;
                    let passes = filter.pass(&entry);
                    if passes {
                        result.push(entry);
                    }
                    proof {
                        assert(sorted.take(k + 1).drop_last() =~= sorted.take(k as int));
                        assert(sorted.take(k + 1).last() == sorted[k as int]);
                        assert(entry_of(self.data_bytes(), sorted[k as int].1) == entry@);
                        if passes {
                            assert(result@.map_values(|e: Entry| e@) =~= res_before.map_values(
                                |e: Entry| e@,
                            ).push(entry@));
                        }
                    }
                },
            }
            k += 1;
        }
        proof {
            assert(sorted.take(n as int) =~= sorted);
            assert(is_index_permutation(ordi, self.index_seq().len() as int));
            assert(sorted_by_offset(sorted)) by {
                assert forall|i2: int, j: int|
                    0 <= i2 < j < sorted.len() implies sorted[i2].1.offset <= sorted[j].1.offset
                by {
                    assert(sorted[i2] == self.index_seq()[ordi[i2]]);
                    assert(sorted[j] == self.index_seq()[ordi[j]]);
                }
            }
        }
        Ok(result)
    }
}

/// The engines' shared storage contract, over the indexed engine.
impl DataStore<String, Entry, BinaryStoreError> for IndexedBinaryFileEntryStore {
    open spec fn store_inv(&self) -> bool {
        self.inv()
    }

    fn save(&mut self, id: &String, value: &Entry) -> (r: Result<(), BinaryStoreError>) {
        IndexedBinaryFileEntryStore::save(self, id, value)
    }

    fn load(&self, key: &String) -> Result<Option<Entry>, BinaryStoreError> {
        IndexedBinaryFileEntryStore::load(self, key)
    }

    fn delete(&mut self, id: &String) -> (r: Result<(), BinaryStoreError>) {
        IndexedBinaryFileEntryStore::delete(self, id)
    }

    fn search<F: Filter<Entry>>(&self, filter: &F) -> Result<Vec<Entry>, BinaryStoreError> {
        IndexedBinaryFileEntryStore::search(self, filter)
    }
}

/// Encode one table pair into one zero-padded fixed-width slot, unless
/// the id is too wide to fit.
fn encode_slot(id: &String, position: Position) -> (r: Result<Vec<u8>, BinaryStoreError>)
    ensures
        (match r {
            Ok(v) => slot_fits(id@) && v@ == enc_slot(id@, position) && v@.len()
                == INDEX_RECORD_SIZE,
            Err(e) => e == BinaryStoreError::IndexRecordTooLarge && !slot_fits(id@),
        }),
{
    let mut body: Vec<u8> = Vec::new();
    append_string(&mut body, id);
    let off_bytes = u64_to_le_bytes(position.offset);
    append_slice(&mut body, off_bytes.as_slice());
    let len_bytes = u64_to_le_bytes(position.length as u64);
    append_slice(&mut body, len_bytes.as_slice());
    proof {
        assert(body@ =~= enc_str(id@) + enc_pos(position));
        lemma_auto_spec_u64_to_from_le_bytes();
    }
    if body.len() > INDEX_RECORD_SIZE {
        return Err(BinaryStoreError::IndexRecordTooLarge);
    }
    let ghost core = body@;
    while body.len() < INDEX_RECORD_SIZE
        invariant
            core.len() <= body@.len() <= INDEX_RECORD_SIZE,
            body@.subrange(0, core.len() as int) == core,
            forall|j: int| core.len() <= j < body@.len() ==> body@[j] == 0u8,
        decreases INDEX_RECORD_SIZE - body@.len(),
    {
        body.push(0u8);
        proof {
            assert(body@.subrange(0, core.len() as int) =~= core);
        }
    }
    proof {
        assert(body@ =~= enc_slot(id@, position));
    }
    Ok(body)
}


// ----- The laws the indexed engine obeys -----

/// Round-trip: after a save the stored content maps the saved id to
/// exactly the saved entry, whatever was stored before.
pub proof fn lemma_indexed_round_trip(m: Map<Seq<char>, EntryV>, id: Seq<char>, e: EntryV)
    ensures
        m.insert(id, e).contains_key(id),
        m.insert(id, e)[id] == e,
{
}

/// Upsert: two saves under one id leave exactly the content one save of
/// the latest value leaves, so only the latest value stays live.
pub proof fn lemma_indexed_upsert(
    m: Map<Seq<char>, EntryV>,
    id: Seq<char>,
    e1: EntryV,
    e2: EntryV,
)
    ensures
        m.insert(id, e1).insert(id, e2) == m.insert(id, e2),
{
    assert(m.insert(id, e1).insert(id, e2) =~= m.insert(id, e2));
}

/// Delete-then-load: a removed id maps to nothing.
pub proof fn lemma_indexed_delete(m: Map<Seq<char>, EntryV>, id: Seq<char>)
    ensures
        !m.remove(id).contains_key(id),
{
}

/// A rewritten index image reloads to exactly the table that wrote it:
/// under distinct ids, last-wins accumulation agrees with association.
pub proof fn lemma_rewrite_then_reload(s: Seq<(Seq<char>, Position)>)
    requires
        distinct_keys(s),
    ensures
        map_of_pairs(s) == assoc_map(s),
    decreases s.len(),
{
    if s.len() == 0 {
        assert(map_of_pairs(s) =~= assoc_map(s));
    } else {
        let pre = s.drop_last();
        let lastp = s.last();
        assert(distinct_keys(pre)) by {
            assert forall|a: int, b: int|
                0 <= a < b < pre.len() implies pre[a].0 != pre[b].0 by {
                assert(pre[a] == s[a]);
                assert(pre[b] == s[b]);
            }
        }
        lemma_rewrite_then_reload(pre);
        assert forall|k: Seq<char>| true implies #[trigger] find_pos(s, k) == (if k == lastp.0 {
            Some(lastp.1)
        } else {
            find_pos(pre, k)
        }) by {
            if k == lastp.0 {
                lemma_find_pos_at(s, s.len() - 1);
            } else {
                lemma_find_pos_char(s, k);
                lemma_find_pos_char(pre, k);
                match find_pos(s, k) {
                    Some(p) => {
                        let a = choose|a: int| 0 <= a < s.len() && s[a].0 == k && s[a].1 == p;
                        assert(a < pre.len());
                        assert(pre[a] == s[a]);
                        lemma_find_pos_at(pre, a);
                    },
                    None => {
                        match find_pos(pre, k) {
                            Some(p) => {
                                let a = choose|a: int|
                                    0 <= a < pre.len() && pre[a].0 == k && pre[a].1 == p;
                                assert(s[a] == pre[a]);
                                lemma_find_pos_at(s, a);
                            },
                            None => {},
                        }
                    },
                }
            }
        }
        assert(assoc_map(s) =~= assoc_map(pre).insert(lastp.0, lastp.1));
    }
}

} // verus!
