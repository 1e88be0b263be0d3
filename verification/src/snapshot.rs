//! The index snapshot helper: the in-memory index serialized as the value
//! of one ordinary record, appended to the log under a caller-chosen
//! reserved key. A later open can decode that record by offset and restore
//! the index without replaying the whole log.
//!
//! Entry layout, little-endian: key length (4 bytes), key bytes, offset
//! (8 bytes), entries concatenated in index order.

use vstd::prelude::*;
use vstd::assert_seqs_equal;
use crate::codec::{StoreError, record_bytes, push_bytes};
use crate::index::{Index, IndexEntry, entries_map, entries_remove, copy_bytes};
use crate::store::ActionKV;
use crate::wire::{u32_le, u32_bytes, u64_le, u64_bytes, put_u32_le, put_u64_le, get_u32_le,
    get_u64_le, lemma_u32_round_trip, lemma_u64_round_trip};

verus! {

/// The encoded bytes of one index entry.
pub open spec fn entry_bytes(key: Seq<u8>, offset: u64) -> Seq<u8>
    recommends
        key.len() <= u32::MAX,
{
    u32_bytes(key.len() as u32) + key + u64_bytes(offset)
}

/// The serialized form of a sequence of index entries, in order.
pub open spec fn index_bytes(s: Seq<IndexEntry>) -> Seq<u8>
    decreases s.len(),
{
    if s.len() == 0 {
        Seq::empty()
    } else {
        entry_bytes(s.first().key@, s.first().offset) + index_bytes(s.drop_first())
    }
}

/// Parses serialized index entries from `pos`, folding each `key -> offset`
/// over `acc`; `None` when the bytes are not a whole number of entries.
pub open spec fn parse_index_from(bytes: Seq<u8>, pos: int, acc: Map<Seq<u8>, u64>) -> Option<
    Map<Seq<u8>, u64>,
>
    decreases bytes.len() - pos,
{
    if pos < 0 {
        None
    } else if pos == bytes.len() {
        Some(acc)
    } else if pos + 4 > bytes.len() {
        None
    } else {
        let klen = u32_le(bytes.subrange(pos, pos + 4)) as int;
        if pos + 4 + klen + 8 > bytes.len() {
            None
        } else {
            parse_index_from(
                bytes,
                pos + 4 + klen + 8,
                acc.insert(
                    bytes.subrange(pos + 4, pos + 4 + klen),
                    u64_le(bytes.subrange(pos + 4 + klen, pos + 4 + klen + 8)),
                ),
            )
        }
    }
}

/// Parses a whole serialized index.
pub open spec fn spec_parse_index(bytes: Seq<u8>) -> Option<Map<Seq<u8>, u64>> {
    parse_index_from(bytes, 0, Map::empty())
}

/// Serializes the index: every entry, in order.
pub fn encode_index(idx: &Index) -> (r: Vec<u8>)
    requires
        idx.wf(),
    ensures
        r@ == index_bytes(idx.entries@),
{
    let mut out: Vec<u8> = Vec::new();
    let n = idx.entries.len();
    let mut i: usize = 0;
    proof {
        assert(idx.entries@.skip(0) =~= idx.entries@);
    }
    while i < n
        invariant
            n == idx.entries@.len(),
            i <= n,
            idx.wf(),
            index_bytes(idx.entries@) == out@ + index_bytes(idx.entries@.skip(i as int)),
        decreases n - i,
    {
        proof {
            let s = idx.entries@.skip(i as int);
            assert(s.first() == idx.entries@[i as int]);
            assert(s.drop_first() =~= idx.entries@.skip(i as int + 1));
        }
        let e = &idx.entries[i];
        put_u32_le(&mut out, e.key.len() as u32);
        push_bytes(&mut out, e.key.as_slice());
        put_u64_le(&mut out, e.offset);
        i = i + 1;
        proof {
            assert(index_bytes(idx.entries@) =~= out@ + index_bytes(
                idx.entries@.skip(i as int),
            ));
        }
    }
    proof {
        assert(idx.entries@.skip(n as int) =~= Seq::<IndexEntry>::empty());
        assert(out@ =~= index_bytes(idx.entries@));
    }
    out
}

/// Decodes a serialized index back into an index value. Malformed bytes,
/// not a whole number of entries, are reported as truncation.
#[verifier::loop_isolation(false)]
pub fn decode_index(bytes: &[u8]) -> (r: Result<Index, StoreError>)
    ensures
        match r {
            Ok(idx) => spec_parse_index(bytes@) == Some(idx@) && idx.wf(),
            Err(e) => spec_parse_index(bytes@) is None && e == StoreError::Truncated,
        },
{
    let n = bytes.len();
    let mut idx = Index::new();
    let mut pos: usize = 0;
    while pos < n
        invariant
            pos <= n,
            idx.wf(),
            spec_parse_index(bytes@) == parse_index_from(bytes@, pos as int, idx@),
        decreases n - pos,
    {
        if n - pos < 4 {
            return Err(StoreError::Truncated);
        }
        let klen = get_u32_le(bytes, pos) as usize;
        if klen > n - pos - 4 || 8 > n - pos - 4 - klen {
            return Err(StoreError::Truncated);
        }
        let key = copy_bytes(&bytes[pos + 4..pos + 4 + klen]);
        let off = get_u64_le(bytes, pos + 4 + klen);
        proof {
            assert(parse_index_from(bytes@, pos as int, idx@) == parse_index_from(
                bytes@,
                pos as int + 4 + klen as int + 8,
                idx@.insert(key@, off),
            ));
        }
        idx.insert(key, off);
        pos = pos + 4 + klen + 8;
    }
    Ok(idx)
}

/// Removes any prior snapshot under the reserved key from the in-memory
/// index, serializes the remaining index, clears the in-memory index, and
/// appends the serialized bytes as one ordinary record under that key.
/// The log keeps its append-only shape: an older snapshot record simply
/// becomes a dead entry. A later `load`, or a `get_at` at the returned
/// record's offset, is still needed to restore an index.
pub fn store_index_on_disk(store: &mut ActionKV, index_key: &[u8]) -> (r: Result<(), StoreError>)
    requires
        old(store).index.wf(),
        index_key@.len() + index_bytes(
            entries_remove(old(store).index.entries@, index_key@),
        ).len() <= u32::MAX,
    ensures
        r is Ok,
        final(store).log_view() == old(store).log_view() + record_bytes(
            index_key@,
            index_bytes(entries_remove(old(store).index.entries@, index_key@)),
        ),
        final(store).index@ == Map::<Seq<u8>, u64>::empty().insert(
            index_key@,
            old(store).log_view().len() as u64,
        ),
        final(store).index.wf(),
{
    store.index.remove(index_key);
    let index_as_bytes = encode_index(&store.index);
    store.index = Index::new();
    store.insert(index_key, index_as_bytes.as_slice())
}

/// Parsing is position-independent: entry bytes parse the same after any
/// prefix.
proof fn lemma_parse_shift(prefix: Seq<u8>, bytes: Seq<u8>, pos: int, acc: Map<Seq<u8>, u64>)
    requires
        0 <= pos <= bytes.len(),
    ensures
        parse_index_from(prefix + bytes, prefix.len() + pos, acc) == parse_index_from(
            bytes,
            pos,
            acc,
        ),
    decreases bytes.len() - pos,
{
    let full = prefix + bytes;
    let fpos = prefix.len() + pos;
    if pos == bytes.len() {
    } else if pos + 4 > bytes.len() {
    } else {
        assert_seqs_equal!(full.subrange(fpos, fpos + 4) == bytes.subrange(pos, pos + 4));
        let klen = u32_le(bytes.subrange(pos, pos + 4)) as int;
        if pos + 4 + klen + 8 > bytes.len() {
        } else {
            assert_seqs_equal!(full.subrange(fpos + 4, fpos + 4 + klen)
                == bytes.subrange(pos + 4, pos + 4 + klen));
            assert_seqs_equal!(full.subrange(fpos + 4 + klen, fpos + 4 + klen + 8)
                == bytes.subrange(pos + 4 + klen, pos + 4 + klen + 8));
            lemma_parse_shift(prefix, bytes, pos + 4 + klen + 8, acc.insert(
                bytes.subrange(pos + 4, pos + 4 + klen),
                u64_le(bytes.subrange(pos + 4 + klen, pos + 4 + klen + 8)),
            ));
        }
    }
}

/// The mapping of entries, unfolded at the front: the first entry's
/// binding, overridden by whatever the remaining entries say.
proof fn lemma_entries_map_front(f: IndexEntry, rest: Seq<IndexEntry>)
    ensures
        entries_map(seq![f] + rest) == Map::<Seq<u8>, u64>::empty().insert(
            f.key@,
            f.offset,
        ).union_prefer_right(entries_map(rest)),
    decreases rest.len(),
{
    let one = Map::<Seq<u8>, u64>::empty().insert(f.key@, f.offset);
    if rest.len() == 0 {
        assert(seq![f] + rest =~= seq![f]);
        assert(seq![f].drop_last() =~= Seq::<IndexEntry>::empty());
        assert(seq![f].last() == f);
        assert(entries_map(Seq::<IndexEntry>::empty()) == Map::<Seq<u8>, u64>::empty());
        assert(entries_map(seq![f]) == entries_map(Seq::<IndexEntry>::empty()).insert(
            f.key@,
            f.offset,
        ));
        assert(entries_map(seq![f] + rest) =~= one.union_prefer_right(entries_map(rest)));
    } else {
        let r0 = rest.drop_last();
        let last = rest.last();
        lemma_entries_map_front(f, r0);
        assert((seq![f] + rest).drop_last() =~= seq![f] + r0);
        assert((seq![f] + rest).last() == last);
        assert(entries_map(seq![f] + rest) == entries_map(seq![f] + r0).insert(
            last.key@,
            last.offset,
        ));
        assert(one.union_prefer_right(entries_map(r0)).insert(last.key@, last.offset)
            =~= one.union_prefer_right(entries_map(r0).insert(last.key@, last.offset)));
    }
}

/// Serialized entries parse back to the mapping they denote, folded over
/// any starting accumulator.
#[verifier::rlimit(100)]
proof fn lemma_index_parse(s: Seq<IndexEntry>, acc: Map<Seq<u8>, u64>)
    requires
        forall|i: int| 0 <= i < s.len() ==> (#[trigger] s[i].key@).len() <= u32::MAX,
    ensures
        parse_index_from(index_bytes(s), 0, acc) == Some(
            acc.union_prefer_right(entries_map(s)),
        ),
    decreases s.len(),
{
    let bytes = index_bytes(s);
    if s.len() == 0 {
        assert(acc.union_prefer_right(entries_map(s)) =~= acc);
    } else {
        let f = s.first();
        let rest = s.drop_first();
        let eb = entry_bytes(f.key@, f.offset);
        let rb = index_bytes(rest);
        let klen = f.key@.len() as int;
        assert(bytes == eb + rb);
        assert(eb.len() == 4 + klen + 8);
        lemma_u32_round_trip(f.key@.len() as u32);
        lemma_u64_round_trip(f.offset);
        assert_seqs_equal!(bytes.subrange(0, 4) == u32_bytes(f.key@.len() as u32));
        assert(u32_le(bytes.subrange(0, 4)) as int == klen);
        assert(0 + 4 + klen + 8 <= bytes.len());
        assert_seqs_equal!(bytes.subrange(4, 4 + klen) == f.key@);
        assert_seqs_equal!(bytes.subrange(4 + klen, 4 + klen + 8) == u64_bytes(f.offset));
        let acc2 = acc.insert(f.key@, f.offset);
        assert(parse_index_from(bytes, 0, acc) == parse_index_from(bytes, 4 + klen + 8, acc2));
        lemma_parse_shift(eb, rb, 0, acc2);
        assert(parse_index_from(bytes, eb.len() as int, acc2) == parse_index_from(rb, 0, acc2));
        lemma_index_parse(rest, acc2);
        assert(s =~= seq![f] + rest);
        lemma_entries_map_front(f, rest);
        assert(acc2.union_prefer_right(entries_map(rest)) =~= acc.union_prefer_right(
            entries_map(s),
        ));
    }
}

/// Snapshot round trip: decoding a serialized index restores exactly the
/// mapping its entries denoted.
pub proof fn lemma_snapshot_round_trip(s: Seq<IndexEntry>)
    requires
        forall|i: int| 0 <= i < s.len() ==> (#[trigger] s[i].key@).len() <= u32::MAX,
    ensures
        spec_parse_index(index_bytes(s)) == Some(entries_map(s)),
{
    lemma_index_parse(s, Map::empty());
    assert(Map::<Seq<u8>, u64>::empty().union_prefer_right(entries_map(s)) =~= entries_map(s));
}

} // verus!
