//! The in-memory index: key bytes to the log offset of the latest record.
//!
//! Entries are kept in insertion order and the latest entry for a key wins,
//! mirroring the last-writer-wins read model of the log itself. The index
//! is transient; the log bytes are the single source of truth.

use vstd::prelude::*;
use vstd::map::*;

verus! {

/// One index entry: a key and the log offset of a record for it.
#[derive(Debug)]
pub struct IndexEntry {
    pub key: Vec<u8>,
    pub offset: u64,
}

/// The mapping that a sequence of entries denotes: later entries override
/// earlier ones for the same key.
pub open spec fn entries_map(s: Seq<IndexEntry>) -> Map<Seq<u8>, u64>
    decreases s.len(),
{
    if s.len() == 0 {
        Map::empty()
    } else {
        entries_map(s.drop_last()).insert(s.last().key@, s.last().offset)
    }
}

/// The entries that survive removing a key.
pub open spec fn entries_remove(s: Seq<IndexEntry>, key: Seq<u8>) -> Seq<IndexEntry> {
    s.filter(|e: IndexEntry| e.key@ != key)
}

/// The in-memory index. Viewed as a map from key bytes to offsets.
#[derive(Debug)]
pub struct Index {
    pub entries: Vec<IndexEntry>,
}

impl View for Index {
    type V = Map<Seq<u8>, u64>;

    open spec fn view(&self) -> Map<Seq<u8>, u64> {
        entries_map(self.entries@)
    }
}

/// An entry whose key matches, with no later entry for the same key,
/// decides the mapping at that key.
pub proof fn lemma_entries_map_last_match(s: Seq<IndexEntry>, i: int, k: Seq<u8>)
    requires
        0 <= i < s.len(),
        s[i].key@ == k,
        forall|j: int| i < j < s.len() ==> (#[trigger] s[j].key@) != k,
    ensures
        entries_map(s).contains_key(k),
        entries_map(s)[k] == s[i].offset,
    decreases s.len(),
{
    if i == s.len() - 1 {
        assert(s.last() == s[i]);
    } else {
        lemma_entries_map_last_match(s.drop_last(), i, k);
        assert(s.last().key@ != k);
    }
}

/// A key that no entry carries is absent from the mapping.
pub proof fn lemma_entries_map_no_match(s: Seq<IndexEntry>, k: Seq<u8>)
    requires
        forall|j: int| 0 <= j < s.len() ==> (#[trigger] s[j].key@) != k,
    ensures
        !entries_map(s).contains_key(k),
    decreases s.len(),
{
    if s.len() > 0 {
        lemma_entries_map_no_match(s.drop_last(), k);
    }
}

/// Filtering a key out of the entries removes exactly that key from the
/// mapping.
pub proof fn lemma_entries_map_remove(s: Seq<IndexEntry>, k: Seq<u8>)
    ensures
        entries_map(entries_remove(s, k)) == entries_map(s).remove(k),
    decreases s.len(),
{
    reveal(Seq::filter);
    if s.len() == 0 {
        assert(entries_map(entries_remove(s, k)) =~= entries_map(s).remove(k));
    } else {
        lemma_entries_map_remove(s.drop_last(), k);
        let e = s.last();
        assert(entries_remove(s, k) == if e.key@ != k {
            entries_remove(s.drop_last(), k).push(e)
        } else {
            entries_remove(s.drop_last(), k)
        });
        if e.key@ != k {
            let t = entries_remove(s.drop_last(), k).push(e);
            assert(t.drop_last() =~= entries_remove(s.drop_last(), k));
            assert(t.last() == e);
            assert(entries_map(t) =~= entries_map(s).remove(k));
        } else {
            assert(entries_map(entries_remove(s, k)) =~= entries_map(s).remove(k));
        }
    }
}

/// Compares two byte strings.
pub(crate) fn bytes_equal(a: &[u8], b: &[u8]) -> (r: bool)
    ensures
        r <==> a@ == b@,
{
    if a.len() != b.len() {
        proof {
            assert(a@.len() != b@.len());
        }
        return false;
    }
    let mut i: usize = 0;
    while i < a.len()
        invariant
            a@.len() == b@.len(),
            i <= a@.len(),
            forall|j: int| 0 <= j < i ==> a@[j] == b@[j],
        decreases a@.len() - i,
    {
        if a[i] != b[i] {
            return false;
        }
        i = i + 1;
    }
    proof {
        assert(a@ =~= b@);
    }
    true
}

/// Copies a byte string.
pub(crate) fn copy_bytes(b: &[u8]) -> (r: Vec<u8>)
    ensures
        r@ == b@,
{
    let mut out: Vec<u8> = Vec::new();
    crate::codec::push_bytes(&mut out, b);
    proof {
        assert(out@ =~= b@);
    }
    out
}

impl Index {
    /// Keys fit the four-byte length field of an index snapshot entry.
    pub open spec fn wf(&self) -> bool {
        forall|i: int|
            0 <= i < self.entries@.len() ==> (#[trigger] self.entries@[i].key@).len() <= u32::MAX
    }

    /// An empty index.
    pub fn new() -> (r: Index)
        ensures
            r@ == Map::<Seq<u8>, u64>::empty(),
            r.wf(),
    {
        Index { entries: Vec::new() }
    }

    /// Records `offset` as the latest position for `key`, overriding any
    /// earlier entry.
    pub fn insert(&mut self, key: Vec<u8>, offset: u64)
        requires
            key@.len() <= u32::MAX,
        ensures
            final(self)@ == old(self)@.insert(key@, offset),
            old(self).wf() ==> final(self).wf(),
            final(self).entries@ == old(self).entries@.push(IndexEntry { key, offset }),
    {
        let ghost k = key@;
        let e = IndexEntry { key, offset };
        self.entries.push(e);
        proof {
            assert(self.entries@.drop_last() =~= old(self).entries@);
            assert(self@ =~= old(self)@.insert(k, offset));
        }
    }

    /// Looks the key up, returning the offset of its latest entry.
    pub fn get(&self, key: &[u8]) -> (r: Option<u64>)
        ensures
            match r {
                Some(off) => self@.contains_key(key@) && self@[key@] == off,
                None => !self@.contains_key(key@),
            },
    {
        let n = self.entries.len();
        let mut i: usize = n;
        while i > 0
            invariant
                i <= self.entries@.len(),
                n == self.entries@.len(),
                forall|j: int| i <= j < n ==> (#[trigger] self.entries@[j].key@) != key@,
            decreases i,
        {
            i = i - 1;
            if bytes_equal(self.entries[i].key.as_slice(), key) {
                proof {
                    lemma_entries_map_last_match(self.entries@, i as int, key@);
                }
                return Some(self.entries[i].offset);
            }
        }
        proof {
            lemma_entries_map_no_match(self.entries@, key@);
        }
        None
    }

    /// Drops every entry for `key`.
    pub fn remove(&mut self, key: &[u8])
        ensures
            final(self)@ == old(self)@.remove(key@),
            final(self).entries@ == entries_remove(old(self).entries@, key@),
            old(self).wf() ==> final(self).wf(),
    {
        let mut rest: Vec<IndexEntry> = Vec::new();
        core::mem::swap(&mut self.entries, &mut rest);
        let ghost orig = rest@;
        let ghost mut done: Seq<IndexEntry> = Seq::empty();
        let mut kept: Vec<IndexEntry> = Vec::new();
        proof {
            reveal(Seq::filter);
            assert(done + rest@ =~= orig);
            assert(kept@ =~= entries_remove(done, key@));
        }
        while rest.len() > 0
            invariant
                done + rest@ == orig,
                orig == old(self).entries@,
                kept@ == entries_remove(done, key@),
                old(self).wf() ==> forall|j: int|
                    0 <= j < kept@.len() ==> (#[trigger] kept@[j].key@).len() <= u32::MAX,
            decreases rest@.len(),
        {
            proof {
                assert(rest@[0] == orig[done.len() as int]);
            }
            let e = rest.remove(0);
            let keep_it = !bytes_equal(e.key.as_slice(), key);
            proof {
                reveal(Seq::filter);
                let done2 = done.push(e);
                assert(done2.drop_last() =~= done);
                assert(done2.last() == e);
                if keep_it {
                    assert(entries_remove(done2, key@) =~= entries_remove(done, key@).push(e));
                } else {
                    assert(entries_remove(done2, key@) =~= entries_remove(done, key@));
                }
                done = done2;
                assert(done + rest@ =~= orig);
            }
            if keep_it {
                kept.push(e);
            }
        }
        proof {
            assert(done =~= orig);
        }
        self.entries = kept;
        proof {
            lemma_entries_map_remove(orig, key@);
        }
    }
}

} // verus!
