//! The log store: an append-only byte log with last-writer-wins reads.
//!
//! The store owns the log bytes and the in-memory index. Appends go to the
//! end of the log and advance the index; reads consult the index and decode
//! exactly one record. Durable storage is outside this module: a host opens
//! the backing file, hands its bytes in, and appends the bytes the store
//! grew by back to the file.

use vstd::prelude::*;
use vstd::assert_seqs_equal;
use crate::codec::{StoreError, KeyValuePair, record_bytes, spec_decode, encode_record,
    decode_record, lemma_record_round_trip};
use crate::index::Index;

verus! {

/// Replays the log from `pos`, folding `key -> record offset` over `acc`,
/// until fewer bytes than a header remain. Yields the final index mapping
/// and the position where the scan stopped, or the first decode error.
pub open spec fn replay_from(log: Seq<u8>, pos: int, acc: Map<Seq<u8>, u64>) -> Result<
    (Map<Seq<u8>, u64>, int),
    StoreError,
>
    decreases log.len() - pos,
{
    if pos < 0 {
        Err(StoreError::EndOfLog)
    } else if pos + 12 > log.len() {
        Ok((acc, pos))
    } else {
        match spec_decode(log, pos) {
            Ok(t) => replay_from(log, t.2, acc.insert(t.0, pos as u64)),
            Err(e) => Err(e),
        }
    }
}

/// Replays the whole log into an empty index.
pub open spec fn spec_replay(log: Seq<u8>) -> Result<(Map<Seq<u8>, u64>, int), StoreError> {
    replay_from(log, 0, Map::empty())
}

/// Scans the log from `pos` keeping the last record whose key is `target`,
/// as its offset and value; `found` is what the scan has seen so far.
pub open spec fn find_from(
    log: Seq<u8>,
    pos: int,
    target: Seq<u8>,
    found: Option<(u64, Seq<u8>)>,
) -> Result<Option<(u64, Seq<u8>)>, StoreError>
    decreases log.len() - pos,
{
    if pos < 0 {
        Err(StoreError::EndOfLog)
    } else if pos + 12 > log.len() {
        Ok(found)
    } else {
        match spec_decode(log, pos) {
            Ok(t) => find_from(
                log,
                t.2,
                target,
                if t.0 == target {
                    Some((pos as u64, t.1))
                } else {
                    found
                },
            ),
            Err(e) => Err(e),
        }
    }
}

/// A full-log scan for the last record with the target key.
pub open spec fn spec_find(log: Seq<u8>, target: Seq<u8>) -> Result<
    Option<(u64, Seq<u8>)>,
    StoreError,
> {
    find_from(log, 0, target, None)
}

/// The view of an in-progress scan result.
pub open spec fn found_view(f: Option<(u64, Vec<u8>)>) -> Option<(u64, Seq<u8>)> {
    match f {
        None => None,
        Some(p) => Some((p.0, p.1@)),
    }
}

/// The append-only key-value store: the log bytes and the index.
#[derive(Debug)]
pub struct ActionKV {
    pub log: Vec<u8>,
    pub index: Index,
}

impl ActionKV {
    /// The log bytes the store currently holds.
    pub open spec fn log_view(&self) -> Seq<u8> {
        self.log@
    }

    /// Opens a store over the given log bytes with an empty index: the log
    /// is not scanned. Call `load` before reads that should see
    /// pre-existing records.
    pub fn open(log: Vec<u8>) -> (r: ActionKV)
        ensures
            r.log_view() == log@,
            r.index@ == Map::<Seq<u8>, u64>::empty(),
            r.index.wf(),
    {
        ActionKV { log, index: Index::new() }
    }

    /// The log bytes, for a host that persists them.
    pub fn log_bytes(&self) -> (r: &Vec<u8>)
        ensures
            r@ == self.log_view(),
    {
        &self.log
    }

    /// The offset just past the last record: where the next append lands.
    pub fn seek_to_end(&mut self) -> (r: Result<u64, StoreError>)
        ensures
            *final(self) == *old(self),
            r == Ok::<u64, StoreError>(old(self).log_view().len() as u64),
    {
        Ok(self.log.len() as u64)
    }

    /// Replays the whole log from offset 0, recording each record's key
    /// and offset in the index, latest occurrence winning. Stops cleanly
    /// at the end of the log; any other decode failure aborts the load
    /// and is returned.
    pub fn load(&mut self) -> (r: Result<(), StoreError>)
        ensures
            final(self).log_view() == old(self).log_view(),
            old(self).index.wf() ==> final(self).index.wf(),
            match r {
                Ok(()) => replay_from(old(self).log_view(), 0, old(self).index@) matches Ok(p)
                    && final(self).index@ == p.0,
                Err(e) => replay_from(old(self).log_view(), 0, old(self).index@) == Err::<
                    (Map<Seq<u8>, u64>, int),
                    StoreError,
                >(e),
            },
    {
        let mut idx = Index::new();
        core::mem::swap(&mut self.index, &mut idx);
        let (idx2, r) = replay_exec(&self.log, idx);
        self.index = idx2;
        r
    }

    /// Looks the key up in the index; a missing key is an explicit empty
    /// result, not an error. A present key's record is decoded at its
    /// recorded offset, and a corrupt record there is a hard error, never
    /// masked as "not found".
    pub fn get(&mut self, key: &[u8]) -> (r: Result<Option<Vec<u8>>, StoreError>)
        ensures
            *final(self) == *old(self),
            match r {
                Ok(None) => !old(self).index@.contains_key(key@),
                Ok(Some(v)) => old(self).index@.contains_key(key@) && (spec_decode(
                    old(self).log_view(),
                    old(self).index@[key@] as int,
                ) matches Ok(t) && v@ == t.1),
                Err(e) => old(self).index@.contains_key(key@) && (spec_decode(
                    old(self).log_view(),
                    old(self).index@[key@] as int,
                ) matches Err(e2) && e == e2),
            },
    {
        let position = match self.index.get(key) {
            None => {
                return Ok(None);
            },
            Some(position) => position,
        };
        match self.get_at(position) {
            Ok(kv) => Ok(Some(kv.value)),
            Err(e) => Err(e),
        }
    }

    /// Decodes the single record starting at the given byte offset.
    pub fn get_at(&mut self, position: u64) -> (r: Result<KeyValuePair, StoreError>)
        ensures
            *final(self) == *old(self),
            match r {
                Ok(kv) => spec_decode(old(self).log_view(), position as int) matches Ok(t)
                    && kv.key@ == t.0 && kv.value@ == t.1,
                Err(e) => spec_decode(old(self).log_view(), position as int) matches Err(e2) && e
                    == e2,
            },
    {
        let n = self.log.len();
        if position >= n as u64 {
            proof {
                assert(position as int + 12 > self.log@.len());
            }
            return Err(StoreError::EndOfLog);
        }
        let pos = position as usize;
        match decode_record(self.log.as_slice(), pos) {
            Ok(p) => Ok(p.0),
            Err(e) => Err(e),
        }
    }

    /// Scans the whole log, ignoring the index, and returns the offset and
    /// value of the last record with the target key: the same answer a
    /// correctly maintained index gives, at the cost of a full scan.
    pub fn find(&mut self, target: &[u8]) -> (r: Result<Option<(u64, Vec<u8>)>, StoreError>)
        ensures
            *final(self) == *old(self),
            match r {
                Ok(f) => spec_find(old(self).log_view(), target@) == Ok::<_, StoreError>(
                    found_view(f),
                ),
                Err(e) => spec_find(old(self).log_view(), target@) == Err::<
                    Option<(u64, Seq<u8>)>,
                    StoreError,
                >(e),
            },
    {
        find_exec(&self.log, target)
    }

    /// Appends one record for the key and value and records its offset in
    /// the index.
    pub fn insert(&mut self, key: &[u8], value: &[u8]) -> (r: Result<(), StoreError>)
        requires
            key@.len() + value@.len() <= u32::MAX,
        ensures
            r is Ok,
            final(self).log_view() == old(self).log_view() + record_bytes(key@, value@),
            final(self).index@ == old(self).index@.insert(
                key@,
                old(self).log_view().len() as u64,
            ),
            old(self).index.wf() ==> final(self).index.wf(),
    {
        let position = match self.insert_but_ignore_index(key, value) {
            Ok(position) => position,
            Err(e) => {
                return Err(e);
            },
        };
        let owned_key = crate::index::copy_bytes(key);
        self.index.insert(owned_key, position);
        Ok(())
    }

    /// Appends one record and returns its starting offset, leaving the
    /// index untouched: the raw-append primitive for payloads that are not
    /// ordinary key-value data, such as an index snapshot.
    pub fn insert_but_ignore_index(&mut self, key: &[u8], value: &[u8]) -> (r: Result<
        u64,
        StoreError,
    >)
        requires
            key@.len() + value@.len() <= u32::MAX,
        ensures
            r == Ok::<u64, StoreError>(old(self).log_view().len() as u64),
            final(self).log_view() == old(self).log_view() + record_bytes(key@, value@),
            final(self).index == old(self).index,
    {
        let mut rec = encode_record(key, value);
        let position = self.log.len() as u64;
        self.log.append(&mut rec);
        Ok(position)
    }

    /// Identical to `insert`: the log has no distinct update record kind;
    /// every write is an append.
    #[inline]
    pub fn update(&mut self, key: &[u8], value: &[u8]) -> (r: Result<(), StoreError>)
        requires
            key@.len() + value@.len() <= u32::MAX,
        ensures
            r is Ok,
            final(self).log_view() == old(self).log_view() + record_bytes(key@, value@),
            final(self).index@ == old(self).index@.insert(
                key@,
                old(self).log_view().len() as u64,
            ),
            old(self).index.wf() ==> final(self).index.wf(),
    {
        self.insert(key, value)
    }

    /// Appends a tombstone: a record for the key with an empty value. A
    /// later read finds the key present with an empty value, which this
    /// library reads as "deleted", distinguishable from a key never
    /// inserted, which is not found at all.
    #[inline]
    pub fn delete(&mut self, key: &[u8]) -> (r: Result<(), StoreError>)
        requires
            key@.len() <= u32::MAX,
        ensures
            r is Ok,
            final(self).log_view() == old(self).log_view() + record_bytes(
                key@,
                Seq::<u8>::empty(),
            ),
            final(self).index@ == old(self).index@.insert(
                key@,
                old(self).log_view().len() as u64,
            ),
            old(self).index.wf() ==> final(self).index.wf(),
    {
        let empty: Vec<u8> = Vec::new();
        self.insert(key, empty.as_slice())
    }
}

/// The replay loop behind `load`, over the log bytes and an index taken by
/// value.
#[verifier::loop_isolation(false)]
fn replay_exec(log: &Vec<u8>, idx: Index) -> (r: (Index, Result<(), StoreError>))
    ensures
        idx.wf() ==> r.0.wf(),
        match r.1 {
            Ok(()) => replay_from(log@, 0, idx@) matches Ok(p) && r.0@ == p.0,
            Err(e) => replay_from(log@, 0, idx@) == Err::<(Map<Seq<u8>, u64>, int), StoreError>(e),
        },
{
    let ghost m0 = idx@;
    let ghost wf0 = idx.wf();
    let mut idx = idx;
    let mut pos: usize = 0;
    loop
        invariant
            wf0 ==> idx.wf(),
            pos <= log@.len(),
            replay_from(log@, 0, m0) == replay_from(log@, pos as int, idx@),
        decreases log@.len() - pos,
    {
        match decode_record(log.as_slice(), pos) {
            Ok(p) => {
                let (kv, next) = p;
                proof {
                    let t = spec_decode(log@, pos as int)->Ok_0;
                    assert(t.0.len() <= u32::MAX) by {
                        assert(t.0.len() == crate::codec::rec_key_len(log@, pos as int));
                    }
                    assert(replay_from(log@, pos as int, idx@) == replay_from(
                        log@,
                        t.2,
                        idx@.insert(t.0, pos as u64),
                    ));
                }
                idx.insert(kv.key, pos as u64);
                pos = next;
            },
            Err(e) => {
                if matches!(e, StoreError::EndOfLog) {
                    proof {
                        assert(e == StoreError::EndOfLog);
                        assert(pos as int + 12 > log@.len());
                        assert(replay_from(log@, pos as int, idx@) == Ok::<_, StoreError>(
                            (idx@, pos as int),
                        ));
                    }
                    return (idx, Ok(()));
                } else {
                    proof {
                        assert(replay_from(log@, pos as int, idx@) == Err::<
                            (Map<Seq<u8>, u64>, int),
                            StoreError,
                        >(e));
                    }
                    return (idx, Err(e));
                }
            },
        }
    }
}

/// The scan loop behind `find`.
fn find_exec(log: &Vec<u8>, target: &[u8]) -> (r: Result<Option<(u64, Vec<u8>)>, StoreError>)
    ensures
        match r {
            Ok(f) => spec_find(log@, target@) == Ok::<_, StoreError>(found_view(f)),
            Err(e) => spec_find(log@, target@) == Err::<Option<(u64, Seq<u8>)>, StoreError>(e),
        },
{
    let mut found: Option<(u64, Vec<u8>)> = None;
    let mut pos: usize = 0;
    loop
        invariant
            pos <= log@.len(),
            spec_find(log@, target@) == find_from(log@, pos as int, target@, found_view(found)),
        decreases log@.len() - pos,
    {
        match decode_record(log.as_slice(), pos) {
            Ok(p) => {
                let (kv, next) = p;
                let ghost t = spec_decode(log@, pos as int)->Ok_0;
                if crate::index::bytes_equal(kv.key.as_slice(), target) {
                    proof {
                        assert(find_from(log@, pos as int, target@, found_view(found))
                            == find_from(log@, t.2, target@, Some((pos as u64, t.1))));
                    }
                    found = Some((pos as u64, kv.value));
                } else {
                    proof {
                        assert(find_from(log@, pos as int, target@, found_view(found))
                            == find_from(log@, t.2, target@, found_view(found)));
                    }
                }
                pos = next;
            },
            Err(e) => {
                if matches!(e, StoreError::EndOfLog) {
                    proof {
                        assert(find_from(log@, pos as int, target@, found_view(found)) == Ok::<
                            _,
                            StoreError,
                        >(found_view(found)));
                    }
                    return Ok(found);
                } else {
                    return Err(e);
                }
            },
        }
    }
}

/// Starting a replay from an already-populated index, rather than from an
/// empty one, succeeds on exactly the same logs, and only keeps whatever
/// starting bindings the log does not override.
pub proof fn lemma_replay_acc(log: Seq<u8>, pos: int, acc: Map<Seq<u8>, u64>)
    requires
        0 <= pos,
    ensures
        replay_from(log, pos, acc) is Ok <==> replay_from(log, pos, Map::<Seq<u8>, u64>::empty())
            is Ok,
        replay_from(log, pos, acc) matches Err(e) ==> replay_from(
            log,
            pos,
            Map::<Seq<u8>, u64>::empty(),
        ) == Err::<(Map<Seq<u8>, u64>, int), StoreError>(e),
        replay_from(log, pos, acc) matches Ok(p) ==> (replay_from(
            log,
            pos,
            Map::<Seq<u8>, u64>::empty(),
        ) matches Ok(q) && p.0 == acc.union_prefer_right(q.0) && p.1 == q.1),
    decreases log.len() - pos,
{
    let e0 = Map::<Seq<u8>, u64>::empty();
    if pos + 12 > log.len() {
        assert(acc.union_prefer_right(e0) =~= acc);
    } else {
        match spec_decode(log, pos) {
            Ok(t) => {
                let acc1 = acc.insert(t.0, pos as u64);
                let em1 = e0.insert(t.0, pos as u64);
                lemma_replay_acc(log, t.2, acc1);
                lemma_replay_acc(log, t.2, em1);
                let r0 = replay_from(log, t.2, e0);
                if r0 is Ok {
                    let q0 = r0->Ok_0;
                    assert(acc1.union_prefer_right(q0.0) =~= acc.union_prefer_right(
                        em1.union_prefer_right(q0.0),
                    ));
                }
            },
            Err(e) => {},
        }
    }
}

/// Idempotent reload: replaying an unmodified log a second time, on top of
/// the index that the first replay produced, yields that index again.
pub proof fn lemma_load_idempotent(log: Seq<u8>)
    requires
        spec_replay(log) is Ok,
    ensures
        replay_from(log, 0, spec_replay(log)->Ok_0.0) == spec_replay(log),
{
    let q = spec_replay(log)->Ok_0;
    lemma_replay_acc(log, 0, q.0);
    assert(q.0.union_prefer_right(q.0) =~= q.0);
}

/// A record that decodes within a log decodes identically after more bytes
/// are appended behind it.
pub proof fn lemma_decode_append(log: Seq<u8>, suffix: Seq<u8>, pos: int)
    requires
        0 <= pos,
        spec_decode(log, pos) is Ok,
    ensures
        spec_decode(log + suffix, pos) == spec_decode(log, pos),
{
    let log2 = log + suffix;
    assert_seqs_equal!(log2.subrange(pos, pos + 4) == log.subrange(pos, pos + 4));
    assert_seqs_equal!(log2.subrange(pos + 4, pos + 8) == log.subrange(pos + 4, pos + 8));
    assert_seqs_equal!(log2.subrange(pos + 8, pos + 12) == log.subrange(pos + 8, pos + 12));
    assert(crate::codec::rec_end(log2, pos) == crate::codec::rec_end(log, pos));
    assert_seqs_equal!(crate::codec::rec_key(log2, pos) == crate::codec::rec_key(log, pos));
    assert_seqs_equal!(crate::codec::rec_value(log2, pos) == crate::codec::rec_value(log, pos));
}

/// Appending one record to a log whose replay ends exactly at its end
/// extends the replayed index by exactly that key at that record's offset.
pub proof fn lemma_replay_append(
    log: Seq<u8>,
    pos: int,
    acc: Map<Seq<u8>, u64>,
    key: Seq<u8>,
    value: Seq<u8>,
)
    requires
        0 <= pos,
        key.len() + value.len() <= u32::MAX,
        replay_from(log, pos, acc) matches Ok(p) && p.1 == log.len(),
    ensures
        replay_from(log + record_bytes(key, value), pos, acc) matches Ok(q) && q.0 == replay_from(
            log,
            pos,
            acc,
        )->Ok_0.0.insert(key, log.len() as u64) && q.1 == log.len() + record_bytes(
            key,
            value,
        ).len(),
    decreases log.len() - pos,
{
    let rec = record_bytes(key, value);
    let log2 = log + rec;
    if pos + 12 > log.len() {
        assert(pos == log.len());
        assert_seqs_equal!(log2.subrange(pos, pos + rec.len() as int) == rec);
        lemma_record_round_trip(log2, pos, key, value);
        let t = spec_decode(log2, pos)->Ok_0;
        assert(t.2 == log2.len());
        assert(replay_from(log2, pos, acc) == replay_from(log2, t.2, acc.insert(key, pos as u64)));
    } else {
        let t = spec_decode(log, pos)->Ok_0;
        lemma_decode_append(log, rec, pos);
        lemma_replay_append(log, t.2, acc.insert(t.0, pos as u64), key, value);
    }
}

/// A full scan agrees with a replayed index: starting from an index and a
/// scan state that agree on the target key, the finished scan returns the
/// offset the finished index holds, and the value stored there, or nothing
/// when the key is absent.
pub proof fn lemma_find_agrees(
    log: Seq<u8>,
    pos: int,
    target: Seq<u8>,
    acc: Map<Seq<u8>, u64>,
    found: Option<(u64, Seq<u8>)>,
)
    requires
        0 <= pos,
        log.len() <= u64::MAX,
        replay_from(log, pos, acc) is Ok,
        match found {
            Some(f) => acc.contains_key(target) && acc[target] == f.0 && (spec_decode(
                log,
                f.0 as int,
            ) matches Ok(t) && t.1 == f.1),
            None => !acc.contains_key(target),
        },
    ensures
        find_from(log, pos, target, found) matches Ok(f2) && (match f2 {
            Some(f) => {
                let m = replay_from(log, pos, acc)->Ok_0.0;
                m.contains_key(target) && m[target] == f.0 && (spec_decode(log, f.0 as int)
                    matches Ok(t) && t.1 == f.1)
            },
            None => !replay_from(log, pos, acc)->Ok_0.0.contains_key(target),
        }),
    decreases log.len() - pos,
{
    if pos + 12 > log.len() {
    } else {
        let t = spec_decode(log, pos)->Ok_0;
        let acc2 = acc.insert(t.0, pos as u64);
        if t.0 == target {
            lemma_find_agrees(log, t.2, target, acc2, Some((pos as u64, t.1)));
        } else {
            lemma_find_agrees(log, t.2, target, acc2, found);
        }
    }
}

/// Last-writer-wins: after appending a record with value `a` and then one
/// with value `b` under the same key, a replayed index maps the key to the
/// second record's offset, the record there holds `b`, and a full scan
/// returns that same offset and value.
#[verifier::rlimit(100)]
pub proof fn lemma_last_writer_wins(log: Seq<u8>, key: Seq<u8>, a: Seq<u8>, b: Seq<u8>)
    requires
        key.len() + a.len() <= u32::MAX,
        key.len() + b.len() <= u32::MAX,
        log.len() + record_bytes(key, a).len() + record_bytes(key, b).len() <= u64::MAX,
        spec_replay(log) matches Ok(p) && p.1 == log.len(),
    ensures
        ({
            let off = (log.len() + record_bytes(key, a).len()) as int;
            let log2 = log + record_bytes(key, a) + record_bytes(key, b);
            &&& spec_replay(log2) matches Ok(q) && q.0.contains_key(key) && q.0[key] == off as u64
            &&& spec_decode(log2, off) matches Ok(t) && t.1 == b
            &&& spec_find(log2, key) == Ok::<_, StoreError>(Some((off as u64, b)))
        }),
{
    let ra = record_bytes(key, a);
    let rb = record_bytes(key, b);
    let la = log + ra;
    let log2 = la + rb;
    let off = la.len() as int;
    lemma_replay_append(log, 0, Map::empty(), key, a);
    lemma_replay_append(la, 0, Map::empty(), key, b);
    assert_seqs_equal!(log2.subrange(off, off + rb.len() as int) == rb);
    lemma_record_round_trip(log2, off, key, b);
    let q = spec_replay(log2)->Ok_0;
    assert(q.0[key] == off as u64);
    lemma_find_agrees(log2, 0, key, Map::empty(), None);
    assert(spec_find(log2, key) matches Ok(f2) && f2 == Some((off as u64, b)));
}

/// Tombstone visibility: after a delete is appended, a replayed index maps
/// the key to a record holding the empty value — present but empty — while
/// a key never written stays absent entirely.
pub proof fn lemma_tombstone(log: Seq<u8>, key: Seq<u8>, other: Seq<u8>)
    requires
        key.len() <= u32::MAX,
        log.len() + record_bytes(key, Seq::<u8>::empty()).len() <= u64::MAX,
        spec_replay(log) matches Ok(p) && p.1 == log.len(),
        other != key,
        !spec_replay(log)->Ok_0.0.contains_key(other),
    ensures
        ({
            let log2 = log + record_bytes(key, Seq::<u8>::empty());
            &&& spec_replay(log2) matches Ok(q) && q.0.contains_key(key) && q.0[key] == log.len()
                as u64
            &&& spec_decode(log2, log.len() as int) matches Ok(t) && t.1 == Seq::<u8>::empty()
            &&& !spec_replay(log2)->Ok_0.0.contains_key(other)
        }),
{
    let rec = record_bytes(key, Seq::<u8>::empty());
    let log2 = log + rec;
    lemma_replay_append(log, 0, Map::empty(), key, Seq::empty());
    assert_seqs_equal!(log2.subrange(log.len() as int, log.len() + rec.len() as int) == rec);
    lemma_record_round_trip(log2, log.len() as int, key, Seq::empty());
}

} // verus!
