//! The index of a pack in version 2: where in the pack each object starts.
//!
//! The file holds a header, a fan-out table over the first byte of the ids, the ids, a
//! checksum for each object, the offset of each object, the offsets that need more than 31
//! bits, the hash of the pack, and the hash of all that goes before.
use vstd::prelude::*;
use vstd::slice::slice_subrange;
use crate::bytes::{
    be_u32, be_u64, sha1, sha1_digest, u32_from_be, u32_of_be, u32_to_be, u64_from_be, u64_of_be, u64_to_be,
};
use crate::error::Error;
use crate::records::{lemma_records_push, records};

verus! {

/// The id of an object: its SHA-1 hash.
pub type ObjectId = [u8; 20];

/// The number of bytes of a hash.
pub const HASH_LEN: usize = 20;

/// The first bytes of an index in version 2: its signature, then the version.
pub const V2_HEADER: [u8; 8] = [0xff, 0x74, 0x4f, 0x63, 0, 0, 0, 2];

/// The greatest offset that an index holds in 31 bits.
pub const LARGE_OFFSET_THRESHOLD: u64 = 0x7fff_ffff;

/// The bit that marks a reference to a large offset.
pub const HIGH_BIT: u32 = 0x8000_0000;

/// The most objects an index holds.
pub const MAX_OBJECTS: u64 = 0xffff_ffff;

/// What an index holds of an object, as a mathematical value.
pub struct EntryView {
    /// Where the object starts in the pack.
    pub offset: u64,
    /// The id of the object.
    pub id: Seq<u8>,
    /// The checksum of the bytes of the object in the pack.
    pub crc32: u32,
}

/// What an index holds of an object: its offset in the pack, its id and its checksum.
pub open spec fn entry_view(entry: (u64, ObjectId, u32)) -> EntryView {
    EntryView { offset: entry.0, id: entry.1@, crc32: entry.2 }
}

/// The views of entries.
pub open spec fn entry_views(entries: Seq<(u64, ObjectId, u32)>) -> Seq<EntryView> {
    Seq::new(entries.len(), |i: int| entry_view(entries[i]))
}

/// Whether each id has the length of a hash.
pub open spec fn ids_are_hashes(entries: Seq<EntryView>) -> bool {
    forall|i: int| 0 <= i < entries.len() ==> (#[trigger] entries[i]).id.len() == HASH_LEN
}

/// The number of entries whose id starts with the byte `first`.
pub open spec fn count_first(entries: Seq<EntryView>, first: int) -> nat
    decreases entries.len(),
{
    if entries.len() == 0 {
        0
    } else {
        count_first(entries.drop_last(), first) + if entries.last().id[0] == first {
            1nat
        } else {
            0nat
        }
    }
}

/// The number of entries whose id starts with a byte that is at most `first`.
pub open spec fn count_first_up_to(entries: Seq<EntryView>, first: int) -> nat
    decreases entries.len(),
{
    if entries.len() == 0 {
        0
    } else {
        count_first_up_to(entries.drop_last(), first) + if entries.last().id[0] <= first {
            1nat
        } else {
            0nat
        }
    }
}

/// The offsets of more than 31 bits, in the order of their entries.
pub open spec fn large_offsets(entries: Seq<EntryView>) -> Seq<u64>
    decreases entries.len(),
{
    if entries.len() == 0 {
        Seq::empty()
    } else if entries.last().offset > LARGE_OFFSET_THRESHOLD {
        large_offsets(entries.drop_last()).push(entries.last().offset)
    } else {
        large_offsets(entries.drop_last())
    }
}

/// What the table of offsets holds for the entry number `i`: the offset, where it fits 31
/// bits, and else, under the high bit, the number of the offset among the large ones.
pub open spec fn offset_word(entries: Seq<EntryView>, i: int) -> u32 {
    if entries[i].offset <= LARGE_OFFSET_THRESHOLD {
        entries[i].offset as u32
    } else {
        (HIGH_BIT + large_offsets(entries.take(i)).len()) as u32
    }
}

/// The fan-out table: for each first byte, the number of ids that start with it or a smaller one.
pub open spec fn fan_out(entries: Seq<EntryView>) -> Seq<u8> {
    records(256, 4, |first: int| be_u32(count_first_up_to(entries, first) as u32))
}

/// The ids, one after the other.
pub open spec fn id_table(entries: Seq<EntryView>) -> Seq<u8> {
    records(entries.len(), HASH_LEN as nat, |i: int| entries[i].id)
}

/// The checksums, one after the other.
pub open spec fn crc_table(entries: Seq<EntryView>) -> Seq<u8> {
    records(entries.len(), 4, |i: int| be_u32(entries[i].crc32))
}

/// The table of offsets.
pub open spec fn offset_table(entries: Seq<EntryView>) -> Seq<u8> {
    records(entries.len(), 4, |i: int| be_u32(offset_word(entries, i)))
}

/// The large offsets, one after the other.
pub open spec fn large_offset_table(entries: Seq<EntryView>) -> Seq<u8> {
    records(large_offsets(entries).len(), 8, |i: int| be_u64(large_offsets(entries)[i]))
}

/// An index without its own hash: all that the hash is taken of.
pub open spec fn index_body(entries: Seq<EntryView>, pack_hash: Seq<u8>) -> Seq<u8> {
    V2_HEADER@ + fan_out(entries) + id_table(entries) + crc_table(entries) + offset_table(entries)
        + large_offset_table(entries) + pack_hash
}

/// Why no index can be written of `entries`, if none can.
pub open spec fn refusal(entries: Seq<EntryView>) -> Option<Error> {
    if entries.len() == 0 {
        Some(Error::NoObjects)
    } else if entries.len() > MAX_OBJECTS {
        Some(Error::TooManyObjects { count: entries.len() as usize })
    } else if large_offsets(entries).len() > LARGE_OFFSET_THRESHOLD {
        Some(Error::TooManyLargeOffsets { count: large_offsets(entries).len() as usize })
    } else {
        None
    }
}

/// Taking one more entry adds its id to the count of its first byte.
proof fn lemma_count_first_next(entries: Seq<EntryView>, i: int, first: int)
    requires
        0 <= i < entries.len(),
    ensures
        count_first(entries.take(i + 1), first) == count_first(entries.take(i), first) + if entries[i].id[0]
            == first {
            1nat
        } else {
            0nat
        },
        count_first(entries.take(i), first) <= i,
    decreases i,
{
    assert(entries.take(i + 1).drop_last() =~= entries.take(i));
    if i > 0 {
        lemma_count_first_next(entries, i - 1, first);
    }
}

/// The ids that start with at most `first` are those that start with less and those that
/// start with `first`.
proof fn lemma_count_first_up_to(entries: Seq<EntryView>, first: int)
    ensures
        count_first_up_to(entries, first) == count_first_up_to(entries, first - 1) + count_first(
            entries,
            first,
        ),
        count_first_up_to(entries, first) <= entries.len(),
        first < 0 ==> count_first_up_to(entries, first) == 0,
        first >= 255 ==> count_first_up_to(entries, first) == entries.len(),
    decreases entries.len(),
{
    if entries.len() > 0 {
        lemma_count_first_up_to(entries.drop_last(), first);
    }
}

/// Taking one more entry adds its offset to the large ones if it is large.
proof fn lemma_large_offsets_next(entries: Seq<EntryView>, i: int)
    requires
        0 <= i < entries.len(),
    ensures
        large_offsets(entries.take(i + 1)) == if entries[i].offset > LARGE_OFFSET_THRESHOLD {
            large_offsets(entries.take(i)).push(entries[i].offset)
        } else {
            large_offsets(entries.take(i))
        },
        large_offsets(entries.take(i)).len() <= i,
    decreases i,
{
    assert(entries.take(i + 1).drop_last() =~= entries.take(i));
    if i > 0 {
        lemma_large_offsets_next(entries, i - 1);
    }
}

/// The large offsets among the first entries are the first of the large offsets.
#[verifier::rlimit(40)]
proof fn lemma_large_offsets_prefix(entries: Seq<EntryView>, i: int)
    requires
        0 <= i <= entries.len(),
    ensures
        large_offsets(entries.take(i)).len() <= large_offsets(entries).len(),
        large_offsets(entries.take(i)).len() <= i,
        large_offsets(entries.take(i)) == large_offsets(entries).take(
            large_offsets(entries.take(i)).len() as int,
        ),
        i < entries.len() && entries[i].offset > LARGE_OFFSET_THRESHOLD ==> large_offsets(
            entries.take(i),
        ).len() < large_offsets(entries).len() && large_offsets(entries)[large_offsets(
            entries.take(i),
        ).len() as int] == entries[i].offset,
    decreases entries.len() - i,
{
    if i == entries.len() {
        assert(entries.take(i) =~= entries);
        assert(large_offsets(entries).take(large_offsets(entries).len() as int) =~= large_offsets(
            entries,
        ));
        if i > 0 {
            lemma_large_offsets_next(entries, i - 1);
        }
    } else {
        lemma_large_offsets_next(entries, i);
        lemma_large_offsets_prefix(entries, i + 1);
        let here = large_offsets(entries.take(i));
        let next = large_offsets(entries.take(i + 1));
        let all = large_offsets(entries);
        assert(here =~= all.take(here.len() as int)) by {
            assert(next == all.take(next.len() as int));
            assert forall|k: int| 0 <= k < here.len() implies here[k] == all[k] by {
                assert(next[k] == all.take(next.len() as int)[k]);
            }
        }
        if entries[i].offset > LARGE_OFFSET_THRESHOLD {
            assert(next[here.len() as int] == all.take(next.len() as int)[here.len() as int]);
        }
    }
}

/// Appends `bytes` to `out`.
fn push_bytes(out: &mut Vec<u8>, bytes: &[u8])
    ensures
        final(out)@ == old(out)@ + bytes@,
{
    let mut i: usize = 0;
    while i < bytes.len()
        invariant
            i <= bytes@.len(),
            out@ == old(out)@ + bytes@.take(i as int),
        decreases bytes@.len() - i,
    {
        out.push(bytes[i]);
        proof {
            assert(bytes@.take(i + 1) =~= bytes@.take(i as int).push(bytes@[i as int]));
        }
        i += 1;
    }
    proof {
        assert(bytes@.take(bytes@.len() as int) =~= bytes@);
    }
}

/// The number of offsets of more than 31 bits.
fn count_large_offsets(entries: &Vec<(u64, ObjectId, u32)>) -> (count: usize)
    ensures
        count == large_offsets(entry_views(entries@)).len(),
{
    let ghost views = entry_views(entries@);
    let mut count: usize = 0;
    let mut i: usize = 0;
    while i < entries.len()
        invariant
            i <= entries@.len(),
            views == entry_views(entries@),
            count == large_offsets(views.take(i as int)).len(),
            count <= i,
        decreases entries@.len() - i,
    {
        proof {
            lemma_large_offsets_next(views, i as int);
        }
        if entries[i].0 > LARGE_OFFSET_THRESHOLD {
            count += 1;
        }
        i += 1;
    }
    proof {
        assert(views.take(entries@.len() as int) =~= views);
    }
    count
}

/// Appends the fan-out table of `entries` to `out`.
#[verifier::rlimit(40)]
fn push_fan_out(out: &mut Vec<u8>, entries: &Vec<(u64, ObjectId, u32)>)
    requires
        entries@.len() <= MAX_OBJECTS,
    ensures
        final(out)@ == old(out)@ + fan_out(entry_views(entries@)),
{
    let ghost views = entry_views(entries@);
    let mut counts: Vec<u32> = Vec::new();
    let mut first: usize = 0;
    while first < 256
        invariant
            first <= 256,
            counts@.len() == first,
            forall|b: int| 0 <= b < first ==> counts@[b] == 0,
        decreases 256 - first,
    {
        counts.push(0);
        first += 1;
    }
    let mut i: usize = 0;
    while i < entries.len()
        invariant
            i <= entries@.len(),
            entries@.len() <= MAX_OBJECTS,
            views == entry_views(entries@),
            counts@.len() == 256,
            forall|b: int| 0 <= b < 256 ==> counts@[b] == count_first(views.take(i as int), b),
        decreases entries@.len() - i,
    {
        let first_byte = entries[i].1[0] as usize;
        proof {
            lemma_count_first_next(views, i as int, first_byte as int);
            assert forall|b: int| 0 <= b < 256 && b != first_byte implies count_first(
                views.take(i + 1),
                b,
            ) == count_first(views.take(i as int), b) by {
                lemma_count_first_next(views, i as int, b);
            }
        }
        let count = counts[first_byte];
        counts[first_byte] = count + 1;
        i += 1;
    }
    proof {
        assert(views.take(entries@.len() as int) =~= views);
    }
    let ghost record = |first: int| be_u32(count_first_up_to(views, first) as u32);
    let mut up_to: u32 = 0;
    let mut first: usize = 0;
    proof {
        lemma_count_first_up_to(views, -1);
        assert(records(0, 4, record) =~= Seq::<u8>::empty());
    }
    while first < 256
        invariant
            first <= 256,
            views.len() <= MAX_OBJECTS,
            counts@.len() == 256,
            forall|b: int| 0 <= b < 256 ==> counts@[b] == count_first(views, b),
            up_to == count_first_up_to(views, first - 1),
            record == |first: int| be_u32(count_first_up_to(views, first) as u32),
            out@ == old(out)@ + records(first as nat, 4, record),
        decreases 256 - first,
    {
        proof {
            lemma_count_first_up_to(views, first as int);
            lemma_records_push(first as nat, 4, record);
        }
        up_to = up_to + counts[first];
        let bytes = u32_to_be(up_to);
        push_bytes(out, bytes.as_slice());
        first += 1;
    }
}

/// Appends the table of ids to `out`.
fn push_ids(out: &mut Vec<u8>, entries: &Vec<(u64, ObjectId, u32)>)
    ensures
        final(out)@ == old(out)@ + id_table(entry_views(entries@)),
{
    let ghost views = entry_views(entries@);
    let ghost record = |i: int| views[i].id;
    let mut i: usize = 0;
    proof {
        assert(records(0, HASH_LEN as nat, record) =~= Seq::<u8>::empty());
    }
    while i < entries.len()
        invariant
            i <= entries@.len(),
            views == entry_views(entries@),
            record == |i: int| views[i].id,
            out@ == old(out)@ + records(i as nat, HASH_LEN as nat, record),
        decreases entries@.len() - i,
    {
        proof {
            lemma_records_push(i as nat, HASH_LEN as nat, record);
        }
        push_bytes(out, entries[i].1.as_slice());
        i += 1;
    }
}

/// Appends the table of checksums to `out`.
fn push_crcs(out: &mut Vec<u8>, entries: &Vec<(u64, ObjectId, u32)>)
    ensures
        final(out)@ == old(out)@ + crc_table(entry_views(entries@)),
{
    let ghost views = entry_views(entries@);
    let ghost record = |i: int| be_u32(views[i].crc32);
    let mut i: usize = 0;
    proof {
        assert(records(0, 4, record) =~= Seq::<u8>::empty());
    }
    while i < entries.len()
        invariant
            i <= entries@.len(),
            views == entry_views(entries@),
            record == |i: int| be_u32(views[i].crc32),
            out@ == old(out)@ + records(i as nat, 4, record),
        decreases entries@.len() - i,
    {
        proof {
            lemma_records_push(i as nat, 4, record);
        }
        let bytes = u32_to_be(entries[i].2);
        push_bytes(out, bytes.as_slice());
        i += 1;
    }
}

/// Appends the table of offsets to `out`, and after it the large offsets.
#[verifier::rlimit(40)]
fn push_offsets(out: &mut Vec<u8>, entries: &Vec<(u64, ObjectId, u32)>)
    requires
        large_offsets(entry_views(entries@)).len() <= LARGE_OFFSET_THRESHOLD,
    ensures
        final(out)@ == old(out)@ + offset_table(entry_views(entries@)) + large_offset_table(
            entry_views(entries@),
        ),
{
    let ghost views = entry_views(entries@);
    let ghost word = |i: int| be_u32(offset_word(views, i));
    let mut large: Vec<u64> = Vec::new();
    let mut i: usize = 0;
    proof {
        assert(records(0, 4, word) =~= Seq::<u8>::empty());
        assert(views.take(0) =~= Seq::<EntryView>::empty());
    }
    while i < entries.len()
        invariant
            i <= entries@.len(),
            views == entry_views(entries@),
            large_offsets(views).len() <= LARGE_OFFSET_THRESHOLD,
            word == |i: int| be_u32(offset_word(views, i)),
            large@ == large_offsets(views.take(i as int)),
            out@ == old(out)@ + records(i as nat, 4, word),
        decreases entries@.len() - i,
    {
        proof {
            lemma_records_push(i as nat, 4, word);
            lemma_large_offsets_next(views, i as int);
            lemma_large_offsets_prefix(views, i as int);
        }
        let offset = entries[i].0;
        if offset <= LARGE_OFFSET_THRESHOLD {
            let bytes = u32_to_be(offset as u32);
            push_bytes(out, bytes.as_slice());
        } else {
            let bytes = u32_to_be(HIGH_BIT + large.len() as u32);
            push_bytes(out, bytes.as_slice());
            large.push(offset);
        }
        i += 1;
    }
    let ghost all = large_offsets(views);
    let ghost wide = |i: int| be_u64(all[i]);
    let ghost table = out@;
    let mut i: usize = 0;
    proof {
        assert(views.take(entries@.len() as int) =~= views);
        assert(records(0, 8, wide) =~= Seq::<u8>::empty());
    }
    while i < large.len()
        invariant
            i <= large@.len(),
            large@ == all,
            wide == |i: int| be_u64(all[i]),
            out@ == table + records(i as nat, 8, wide),
        decreases large@.len() - i,
    {
        proof {
            lemma_records_push(i as nat, 8, wide);
        }
        let bytes = u64_to_be(large[i]);
        push_bytes(out, bytes.as_slice());
        i += 1;
    }
}

/// The length of an index is no more than SHA-1 takes.
proof fn lemma_body_len(entries: Seq<EntryView>, pack_hash: Seq<u8>)
    requires
        refusal(entries) is None,
        pack_hash.len() == HASH_LEN,
    ensures
        index_body(entries, pack_hash).len() == 1052 + 28 * entries.len() + 8 * large_offsets(
            entries,
        ).len(),
        index_body(entries, pack_hash).len() <= crate::bytes::SHA1_MAX_LEN,
{
}

/// Writes the index of a pack whose hash is `pack_hash` and whose objects are
/// `entries_sorted_by_oid`, each with its offset into the pack, its id and its checksum.
/// Gives the bytes of the index and, as they end with it, the hash of the index.
///
/// The entries are written in the order in which they are given. Only an index of
/// entries that are sorted by id serves to look an id up.
#[verifier::rlimit(40)]
pub fn encode(entries_sorted_by_oid: Vec<(u64, ObjectId, u32)>, pack_hash: &ObjectId) -> (r: Result<
    (Vec<u8>, ObjectId),
    Error,
>)
    ensures
        match refusal(entry_views(entries_sorted_by_oid@)) {
            Some(e) => r == Err::<(Vec<u8>, ObjectId), Error>(e),
            None => {
                &&& r is Ok
                &&& r->Ok_0.1@ == sha1(index_body(entry_views(entries_sorted_by_oid@), pack_hash@))
                &&& r->Ok_0.0@ == index_body(entry_views(entries_sorted_by_oid@), pack_hash@)
                    + r->Ok_0.1@
                &&& parsed(r->Ok_0.0@) == Some(
                    IndexView {
                        entries: entry_views(entries_sorted_by_oid@),
                        pack_hash: pack_hash@,
                        index_hash: r->Ok_0.1@,
                    },
                )
            },
        },
{
    let entries = &entries_sorted_by_oid;
    if entries.len() == 0 {
        return Err(Error::NoObjects);
    }
    if entries.len() as u64 > MAX_OBJECTS {
        return Err(Error::TooManyObjects { count: entries.len() });
    }
    let large = count_large_offsets(entries);
    if large as u64 > LARGE_OFFSET_THRESHOLD {
        return Err(Error::TooManyLargeOffsets { count: large });
    }
    let mut out: Vec<u8> = Vec::new();
    push_bytes(&mut out, V2_HEADER.as_slice());
    push_fan_out(&mut out, entries);
    push_ids(&mut out, entries);
    push_crcs(&mut out, entries);
    push_offsets(&mut out, entries);
    push_bytes(&mut out, pack_hash.as_slice());
    proof {
        assert(out@ =~= index_body(entry_views(entries@), pack_hash@));
        lemma_body_len(entry_views(entries@), pack_hash@);
    }
    let index_hash = sha1_digest(out.as_slice());
    push_bytes(&mut out, index_hash.as_slice());
    proof {
        lemma_round_trip(entry_views(entries@), pack_hash@, index_hash@);
    }
    Ok((out, index_hash))
}

/// What an index holds, as a mathematical value.
pub struct IndexView {
    /// The objects in the order of the index.
    pub entries: Seq<EntryView>,
    /// The hash of the pack.
    pub pack_hash: Seq<u8>,
    /// The hash of the index, as the index holds it.
    pub index_hash: Seq<u8>,
}

/// The number of bytes of an index of no objects: the header, the fan-out table and two hashes.
pub const MIN_LEN: usize = 1072;

/// Where the ids start in an index.
pub const IDS_START: usize = 1032;

/// The number of objects that the index in `data` declares: the last number of its fan-out table.
pub open spec fn declared_count(data: Seq<u8>) -> nat {
    u32_of_be(data.subrange(1028, 1032)) as nat
}

/// The number of large offsets for which the index in `data` has room.
pub open spec fn declared_large_count(data: Seq<u8>) -> int {
    (data.len() - MIN_LEN - 28 * declared_count(data)) / 8
}

/// Whether `data` starts as an index does and has the length of an index of as many
/// objects as it declares.
pub open spec fn well_sized(data: Seq<u8>) -> bool {
    &&& data.len() >= MIN_LEN
    &&& data.subrange(0, 8) == V2_HEADER@
    &&& data.len() >= MIN_LEN + 28 * declared_count(data)
    &&& (data.len() - MIN_LEN - 28 * declared_count(data)) % 8 == 0
}

/// What the table of offsets of the index in `data` holds for the object number `i`.
pub open spec fn word_at(data: Seq<u8>, i: int) -> u32 {
    let at = IDS_START + 24 * declared_count(data) + 4 * i;
    u32_of_be(data.subrange(at, at + 4))
}

/// The offset of the object number `i` of the index in `data`, unless the index refers
/// to a large offset that it has no room for.
pub open spec fn offset_at(data: Seq<u8>, i: int) -> Option<u64> {
    let word = word_at(data, i);
    if word < HIGH_BIT {
        Some(word as u64)
    } else if word - HIGH_BIT < declared_large_count(data) {
        let at = IDS_START + 28 * declared_count(data) + 8 * (word - HIGH_BIT);
        Some(u64_of_be(data.subrange(at, at + 8)))
    } else {
        None
    }
}

/// The object number `i` of the index in `data`.
pub open spec fn entry_at(data: Seq<u8>, i: int) -> EntryView {
    let crc_at = IDS_START + 20 * declared_count(data) + 4 * i;
    EntryView {
        offset: offset_at(data, i)->0,
        id: data.subrange(IDS_START + 20 * i, IDS_START + 20 * i + 20),
        crc32: u32_of_be(data.subrange(crc_at, crc_at + 4)),
    }
}

/// What the index in `data` holds, if `data` is an index: it is well sized, and it has
/// each large offset that it refers to.
pub open spec fn parsed(data: Seq<u8>) -> Option<IndexView> {
    if well_sized(data) && forall|i: int|
        0 <= i < declared_count(data) ==> (#[trigger] offset_at(data, i)) is Some {
        Some(
            IndexView {
                entries: Seq::new(declared_count(data), |i: int| entry_at(data, i)),
                pack_hash: data.subrange(data.len() - 40, data.len() - 20),
                index_hash: data.subrange(data.len() - 20, data.len() as int),
            },
        )
    } else {
        None
    }
}

/// Where each part of an index stands.
#[verifier::rlimit(40)]
proof fn lemma_layout(entries: Seq<EntryView>, pack_hash: Seq<u8>, index_hash: Seq<u8>)
    requires
        ids_are_hashes(entries),
        pack_hash.len() == HASH_LEN,
        index_hash.len() == HASH_LEN,
    ensures
        ({
            let data = index_body(entries, pack_hash) + index_hash;
            let n = entries.len() as int;
            let m = large_offsets(entries).len() as int;
            &&& data.len() == MIN_LEN + 28 * n + 8 * m
            &&& data.subrange(0, 8) == V2_HEADER@
            &&& data.subrange(8, 1032) == fan_out(entries)
            &&& data.subrange(IDS_START as int, IDS_START + n * 20) == id_table(entries)
            &&& data.subrange(IDS_START + 20 * n, IDS_START + 20 * n + n * 4) == crc_table(entries)
            &&& data.subrange(IDS_START + 24 * n, IDS_START + 24 * n + n * 4) == offset_table(entries)
            &&& data.subrange(IDS_START + 28 * n, IDS_START + 28 * n + m * 8) == large_offset_table(
                entries,
            )
            &&& data.subrange(data.len() - 40, data.len() - 20) == pack_hash
            &&& data.subrange(data.len() - 20, data.len() as int) == index_hash
        }),
{
    let data = index_body(entries, pack_hash) + index_hash;
    let n = entries.len() as int;
    let m = large_offsets(entries).len() as int;
    assert(data.subrange(0, 8) =~= V2_HEADER@);
    assert(data.subrange(8, 1032) =~= fan_out(entries));
    assert(data.subrange(IDS_START as int, IDS_START + n * 20) =~= id_table(entries));
    assert(data.subrange(IDS_START + 20 * n, IDS_START + 20 * n + n * 4) =~= crc_table(entries));
    assert(data.subrange(IDS_START + 24 * n, IDS_START + 24 * n + n * 4) =~= offset_table(entries));
    assert(data.subrange(IDS_START + 28 * n, IDS_START + 28 * n + m * 8) =~= large_offset_table(
        entries,
    ));
    assert(data.subrange(data.len() - 40, data.len() - 20) =~= pack_hash);
    assert(data.subrange(data.len() - 20, data.len() as int) =~= index_hash);
}

/// An index that was written declares as many objects and large offsets as were written.
#[verifier::rlimit(40)]
proof fn lemma_counts_read(entries: Seq<EntryView>, pack_hash: Seq<u8>, index_hash: Seq<u8>)
    requires
        ids_are_hashes(entries),
        refusal(entries) is None,
        pack_hash.len() == HASH_LEN,
        index_hash.len() == HASH_LEN,
    ensures
        ({
            let data = index_body(entries, pack_hash) + index_hash;
            &&& well_sized(data)
            &&& declared_count(data) == entries.len()
            &&& declared_large_count(data) == large_offsets(entries).len()
        }),
{
    let data = index_body(entries, pack_hash) + index_hash;
    let n = entries.len();
    lemma_layout(entries, pack_hash, index_hash);
    let counts = |first: int| be_u32(count_first_up_to(entries, first) as u32);
    lemma_count_first_up_to(entries, 255);
    crate::records::lemma_record_in(data, 8, 256, 4, counts, 255);
    crate::bytes::lemma_be_u32_read(n as u32);
    assert(data.subrange(1028, 1032) == be_u32(n as u32));
}

/// The id and the checksum that are read of an object are those that were written.
#[verifier::rlimit(40)]
proof fn lemma_id_and_crc_read(
    entries: Seq<EntryView>,
    pack_hash: Seq<u8>,
    index_hash: Seq<u8>,
    i: int,
)
    requires
        ids_are_hashes(entries),
        refusal(entries) is None,
        pack_hash.len() == HASH_LEN,
        index_hash.len() == HASH_LEN,
        0 <= i < entries.len(),
    ensures
        ({
            let data = index_body(entries, pack_hash) + index_hash;
            &&& entry_at(data, i).id == entries[i].id
            &&& entry_at(data, i).crc32 == entries[i].crc32
        }),
{
    let data = index_body(entries, pack_hash) + index_hash;
    let n = entries.len();
    lemma_layout(entries, pack_hash, index_hash);
    lemma_counts_read(entries, pack_hash, index_hash);
    let ids = |i: int| entries[i].id;
    let crcs = |i: int| be_u32(entries[i].crc32);
    crate::records::lemma_record_in(data, IDS_START as int, n, 20, ids, i);
    crate::records::lemma_record_in(data, IDS_START + 20 * n, n, 4, crcs, i);
    crate::bytes::lemma_be_u32_read(entries[i].crc32);
    assert(data.subrange(IDS_START + 20 * i, IDS_START + 20 * i + 20) == entries[i].id);
    assert(data.subrange(IDS_START + 20 * n + 4 * i, IDS_START + 20 * n + 4 * i + 4) == be_u32(
        entries[i].crc32,
    ));
}

/// The word that is read from the table of offsets is the word that was written.
proof fn lemma_word_read(data: Seq<u8>, entries: Seq<EntryView>, i: int)
    requires
        0 <= i < entries.len(),
        declared_count(data) == entries.len(),
        IDS_START + 28 * entries.len() <= data.len(),
        data.subrange(IDS_START + 24 * entries.len(), IDS_START + 24 * entries.len() + entries.len() * 4)
            == offset_table(entries),
    ensures
        word_at(data, i) == offset_word(entries, i),
{
    let n = entries.len();
    let words = |i: int| be_u32(offset_word(entries, i));
    crate::records::lemma_record_in(data, IDS_START + 24 * n, n, 4, words, i);
    crate::bytes::lemma_be_u32_read(offset_word(entries, i));
    assert(data.subrange(IDS_START + 24 * n + 4 * i, IDS_START + 24 * n + 4 * i + 4) == be_u32(
        offset_word(entries, i),
    ));
}

/// The large offset that is read is the one that was written.
proof fn lemma_large_offset_read(data: Seq<u8>, entries: Seq<EntryView>, at: int)
    requires
        0 <= at < large_offsets(entries).len(),
        declared_count(data) == entries.len(),
        IDS_START + 28 * entries.len() + large_offsets(entries).len() * 8 <= data.len(),
        data.subrange(
            IDS_START + 28 * entries.len(),
            IDS_START + 28 * entries.len() + large_offsets(entries).len() * 8,
        ) == large_offset_table(entries),
    ensures
        u64_of_be(
            data.subrange(
                IDS_START + 28 * declared_count(data) + 8 * at,
                IDS_START + 28 * declared_count(data) + 8 * at + 8,
            ),
        ) == large_offsets(entries)[at],
{
    let n = entries.len();
    let all = large_offsets(entries);
    let wides = |i: int| be_u64(all[i]);
    crate::bytes::lemma_be_u64_read(all[at]);
    crate::records::lemma_record_in(data, IDS_START + 28 * n, all.len(), 8, wides, at);
    assert(data.subrange(IDS_START + 28 * n + 8 * at, IDS_START + 28 * n + 8 * at + 8) == be_u64(
        all[at],
    ));
}

/// The offset that is read of an object is the one that was written.
#[verifier::rlimit(40)]
proof fn lemma_offset_read(entries: Seq<EntryView>, pack_hash: Seq<u8>, index_hash: Seq<u8>, i: int)
    requires
        ids_are_hashes(entries),
        refusal(entries) is None,
        pack_hash.len() == HASH_LEN,
        index_hash.len() == HASH_LEN,
        0 <= i < entries.len(),
    ensures
        offset_at(index_body(entries, pack_hash) + index_hash, i) == Some(entries[i].offset),
{
    let data = index_body(entries, pack_hash) + index_hash;
    lemma_layout(entries, pack_hash, index_hash);
    lemma_counts_read(entries, pack_hash, index_hash);
    lemma_word_read(data, entries, i);
    lemma_large_offsets_prefix(entries, i);
    if entries[i].offset > LARGE_OFFSET_THRESHOLD {
        let at = large_offsets(entries.take(i)).len() as int;
        assert(word_at(data, i) - HIGH_BIT == at);
        lemma_large_offset_read(data, entries, at);
    }
}

/// Reading an index that was written gives what was written: each object with its
/// offset, its id and its checksum, in the same order, whether the offsets are large
/// or not, and the two hashes.
#[verifier::rlimit(40)]
pub proof fn lemma_round_trip(entries: Seq<EntryView>, pack_hash: Seq<u8>, index_hash: Seq<u8>)
    requires
        ids_are_hashes(entries),
        refusal(entries) is None,
        pack_hash.len() == HASH_LEN,
        index_hash.len() == HASH_LEN,
    ensures
        parsed(index_body(entries, pack_hash) + index_hash) == Some(
            IndexView { entries, pack_hash, index_hash },
        ),
{
    let data = index_body(entries, pack_hash) + index_hash;
    lemma_layout(entries, pack_hash, index_hash);
    lemma_counts_read(entries, pack_hash, index_hash);
    assert forall|i: int| 0 <= i < entries.len() implies (#[trigger] offset_at(data, i)) == Some(
        entries[i].offset,
    ) && entry_at(data, i) == entries[i] by {
        lemma_offset_read(entries, pack_hash, index_hash, i);
        lemma_id_and_crc_read(entries, pack_hash, index_hash, i);
    }
    assert(parsed(data)->0.entries =~= entries);
}

/// The hash that `data` holds from the byte number `at` on.
fn hash_at(data: &[u8], at: usize) -> (hash: ObjectId)
    requires
        at + HASH_LEN <= data@.len(),
    ensures
        hash@ == data@.subrange(at as int, at + HASH_LEN),
{
    let mut hash: ObjectId = [0u8; 20];
    let len = data.len();
    let mut i: usize = 0;
    while i < HASH_LEN
        invariant
            i <= HASH_LEN,
            at + HASH_LEN <= data@.len() == len,
            forall|k: int| 0 <= k < i ==> hash@[k] == data@[at + k],
        decreases HASH_LEN - i,
    {
        hash[i] = data[at + i];
        i += 1;
    }
    proof {
        assert(hash@ =~= data@.subrange(at as int, at + HASH_LEN));
    }
    hash
}

/// Whether `data` starts with the header of an index in version 2.
fn starts_with_header(data: &[u8]) -> (starts: bool)
    requires
        data@.len() >= 8,
    ensures
        starts == (data@.subrange(0, 8) == V2_HEADER@),
{
    let mut i: usize = 0;
    while i < 8
        invariant
            i <= 8,
            data@.len() >= 8,
            forall|k: int| 0 <= k < i ==> data@[k] == V2_HEADER@[k],
        decreases 8 - i,
    {
        if data[i] != V2_HEADER[i] {
            proof {
                assert(data@.subrange(0, 8)[i as int] == data@[i as int]);
            }
            return false;
        }
        i += 1;
    }
    proof {
        assert(data@.subrange(0, 8) =~= V2_HEADER@);
    }
    true
}

/// Reads the index in `data`: its objects, each with its offset into the pack, its id and
/// its checksum, then the hash of the pack and the hash of the index as `data` holds them.
/// Gives nothing if `data` is no index in version 2. Neither hash is checked.
#[verifier::rlimit(40)]
pub fn decode(data: &[u8]) -> (r: Option<(Vec<(u64, ObjectId, u32)>, ObjectId, ObjectId)>)
    ensures
        match parsed(data@) {
            Some(index) => {
                &&& r matches Some((entries, pack_hash, index_hash))
                &&& entry_views(entries@) == index.entries
                &&& pack_hash@ == index.pack_hash
                &&& index_hash@ == index.index_hash
            },
            None => r is None,
        },
{
    if data.len() < MIN_LEN {
        return None;
    }
    if !starts_with_header(data) {
        return None;
    }
    let declared = u32_from_be(slice_subrange(data, 1028, 1032));
    let needed: u64 = MIN_LEN as u64 + 28 * (declared as u64);
    if (data.len() as u64) < needed {
        return None;
    }
    let count = declared as usize;
    let room = data.len() - MIN_LEN - 28 * count;
    if room % 8 != 0 {
        return None;
    }
    let large_count = room / 8;
    let mut entries: Vec<(u64, ObjectId, u32)> = Vec::new();
    let mut i: usize = 0;
    while i < count
        invariant
            i <= count,
            count == declared_count(data@),
            large_count == declared_large_count(data@),
            data@.len() == MIN_LEN + 28 * count + 8 * large_count,
            data@.len() <= usize::MAX,
            well_sized(data@),
            forall|k: int| 0 <= k < i ==> (#[trigger] offset_at(data@, k)) is Some,
            entries@.len() == i,
            forall|k: int| 0 <= k < i ==> entry_view(#[trigger] entries@[k]) == entry_at(data@, k),
        decreases count - i,
    {
        let id = hash_at(data, IDS_START + 20 * i);
        let crc_at = IDS_START + 20 * count + 4 * i;
        let crc32 = u32_from_be(slice_subrange(data, crc_at, crc_at + 4));
        let word_at = IDS_START + 24 * count + 4 * i;
        let word = u32_from_be(slice_subrange(data, word_at, word_at + 4));
        let offset = if word < HIGH_BIT {
            word as u64
        } else {
            let large = (word - HIGH_BIT) as usize;
            if large >= large_count {
                proof {
                    assert(offset_at(data@, i as int) is None);
                }
                return None;
            }
            let at = IDS_START + 28 * count + 8 * large;
            u64_from_be(slice_subrange(data, at, at + 8))
        };
        entries.push((offset, id, crc32));
        i += 1;
    }
    let pack_hash = hash_at(data, data.len() - 40);
    let index_hash = hash_at(data, data.len() - 20);
    proof {
        assert(entry_views(entries@) =~= parsed(data@)->0.entries);
    }
    Some((entries, pack_hash, index_hash))
}

} // verus!
