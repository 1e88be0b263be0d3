//! The record codec: one key-value record to and from its on-disk bytes.
//!
//! Layout, fixed header then variable body, all integers little-endian:
//! checksum (4 bytes, IEEE CRC-32 of key ++ value), key length (4 bytes),
//! value length (4 bytes), key bytes, value bytes.

use vstd::prelude::*;
use vstd::assert_seqs_equal;
use crate::checksum::{crc32_of, crc32_ieee};
use crate::wire::{u32_le, u32_bytes, put_u32_le, get_u32_le, lemma_u32_round_trip,
    lemma_u32_le_injective};

verus! {

/// How a read of a single record can fail.
///
/// A missing key is not an error: lookups return an explicit empty result
/// instead. I/O failures cannot arise here; the log is held as plain bytes,
/// and whatever reads or writes durable storage reports its own failures.
#[derive(Clone, Copy, Debug, PartialEq, Eq, Structural)]
pub enum StoreError {
    /// Fewer bytes than a complete header remain: the expected, clean end
    /// of a scan, not a corruption.
    EndOfLog,
    /// A complete header promised more body bytes than the log holds.
    Truncated,
    /// The stored checksum does not match the one recomputed from the body.
    ChecksumMismatch,
}

/// One key-value record. An empty value is the tombstone convention: a
/// deleted key is stored as present with an empty value.
#[derive(Debug, PartialEq, Eq)]
pub struct KeyValuePair {
    pub key: Vec<u8>,
    pub value: Vec<u8>,
}

/// The encoded bytes of one record.
pub open spec fn record_bytes(key: Seq<u8>, value: Seq<u8>) -> Seq<u8>
    recommends
        key.len() <= u32::MAX,
        value.len() <= u32::MAX,
{
    u32_bytes(crc32_of(key + value)) + u32_bytes(key.len() as u32) + u32_bytes(
        value.len() as u32,
    ) + key + value
}

/// The stored checksum of the record starting at `pos`.
pub open spec fn rec_stored_checksum(log: Seq<u8>, pos: int) -> u32 {
    u32_le(log.subrange(pos, pos + 4))
}

/// The key length field of the record starting at `pos`.
pub open spec fn rec_key_len(log: Seq<u8>, pos: int) -> int {
    u32_le(log.subrange(pos + 4, pos + 8)) as int
}

/// The value length field of the record starting at `pos`.
pub open spec fn rec_val_len(log: Seq<u8>, pos: int) -> int {
    u32_le(log.subrange(pos + 8, pos + 12)) as int
}

/// The position just past the record starting at `pos`.
pub open spec fn rec_end(log: Seq<u8>, pos: int) -> int {
    pos + 12 + rec_key_len(log, pos) + rec_val_len(log, pos)
}

/// The key bytes of the record starting at `pos`.
pub open spec fn rec_key(log: Seq<u8>, pos: int) -> Seq<u8> {
    log.subrange(pos + 12, pos + 12 + rec_key_len(log, pos))
}

/// The value bytes of the record starting at `pos`.
pub open spec fn rec_value(log: Seq<u8>, pos: int) -> Seq<u8> {
    log.subrange(pos + 12 + rec_key_len(log, pos), rec_end(log, pos))
}

/// What decoding at `pos` yields: the key, the value and the position just
/// past the record, or the error that the bytes force.
pub open spec fn spec_decode(log: Seq<u8>, pos: int) -> Result<(Seq<u8>, Seq<u8>, int), StoreError> {
    if pos + 12 > log.len() {
        Err(StoreError::EndOfLog)
    } else if rec_end(log, pos) > log.len() {
        Err(StoreError::Truncated)
    } else if rec_stored_checksum(log, pos) != crc32_of(rec_key(log, pos) + rec_value(log, pos)) {
        Err(StoreError::ChecksumMismatch)
    } else {
        Ok((rec_key(log, pos), rec_value(log, pos), rec_end(log, pos)))
    }
}

/// Appends a copy of `b` to `out`.
pub(crate) fn push_bytes(out: &mut Vec<u8>, b: &[u8])
    ensures
        final(out)@ == old(out)@ + b@,
{
    let mut i: usize = 0;
    while i < b.len()
        invariant
            i <= b@.len(),
            out@ == old(out)@ + b@.subrange(0, i as int),
        decreases b@.len() - i,
    {
        out.push(b[i]);
        i = i + 1;
        proof {
            assert(out@ =~= old(out)@ + b@.subrange(0, i as int));
        }
    }
    proof {
        assert(out@ =~= old(out)@ + b@);
    }
}

/// Serializes one record: header with the checksum of key ++ value, then
/// the key and value bytes.
pub fn encode_record(key: &[u8], value: &[u8]) -> (r: Vec<u8>)
    requires
        key@.len() + value@.len() <= u32::MAX,
    ensures
        r@ == record_bytes(key@, value@),
{
    let mut data: Vec<u8> = Vec::new();
    push_bytes(&mut data, key);
    push_bytes(&mut data, value);
    let checksum = crc32_ieee(data.as_slice());
    let mut out: Vec<u8> = Vec::new();
    put_u32_le(&mut out, checksum);
    put_u32_le(&mut out, key.len() as u32);
    put_u32_le(&mut out, value.len() as u32);
    let mut body = data;
    out.append(&mut body);
    proof {
        assert(out@ =~= record_bytes(key@, value@));
    }
    out
}

/// Decodes the record starting at `pos`, returning the pair and the
/// position just past it. Exactly `12 + key_len + val_len` bytes are read;
/// a short header means the end of the log, a short body means truncation,
/// and a checksum mismatch is reported, never silently accepted.
pub fn decode_record(log: &[u8], pos: usize) -> (r: Result<(KeyValuePair, usize), StoreError>)
    ensures
        match r {
            Ok(p) => spec_decode(log@, pos as int) matches Ok(t) && p.0.key@ == t.0 && p.0.value@
                == t.1 && p.1 as int == t.2,
            Err(e) => spec_decode(log@, pos as int) matches Err(e2) && e == e2,
        },
{
    let n = log.len();
    if n < 12 || pos > n - 12 {
        return Err(StoreError::EndOfLog);
    }
    let stored = get_u32_le(log, pos);
    let key_len = get_u32_le(log, pos + 4) as usize;
    let val_len = get_u32_le(log, pos + 8) as usize;
    let body_start = pos + 12;
    if key_len > n - body_start || val_len > n - body_start - key_len {
        return Err(StoreError::Truncated);
    }
    let body_end = body_start + key_len + val_len;
    let mut data: Vec<u8> = Vec::new();
    push_bytes(&mut data, &log[body_start..body_end]);
    proof {
        assert_seqs_equal!(data@ == rec_key(log@, pos as int) + rec_value(log@, pos as int));
    }
    let computed = crc32_ieee(data.as_slice());
    if computed != stored {
        return Err(StoreError::ChecksumMismatch);
    }
    let value = data.split_off(key_len);
    let key = data;
    proof {
        assert_seqs_equal!(key@ == rec_key(log@, pos as int));
        assert_seqs_equal!(value@ == rec_value(log@, pos as int));
    }
    Ok((KeyValuePair { key, value }, body_end))
}

/// Round trip: a record encoded from any key and value bytes, written at
/// any position of a log, decodes to that key and value again, with the
/// stored checksum matching the recomputed one.
pub proof fn lemma_record_round_trip(log: Seq<u8>, pos: int, key: Seq<u8>, value: Seq<u8>)
    requires
        0 <= pos,
        key.len() + value.len() <= u32::MAX,
        pos + record_bytes(key, value).len() <= log.len(),
        log.subrange(pos, pos + record_bytes(key, value).len() as int) == record_bytes(key, value),
    ensures
        spec_decode(log, pos) == Ok::<_, StoreError>(
            (key, value, pos + 12 + key.len() + value.len()),
        ),
        rec_end(log, pos) == pos + record_bytes(key, value).len(),
{
    let r = record_bytes(key, value);
    let k = key.len() as int;
    let v = value.len() as int;
    let h = u32_bytes(crc32_of(key + value));
    let hk = u32_bytes(key.len() as u32);
    let hv = u32_bytes(value.len() as u32);
    assert(r.len() == 12 + k + v);
    assert(forall|j: int| 0 <= j < r.len() ==> log[pos + j] == #[trigger] r[j]) by {
        assert(forall|j: int|
            0 <= j < r.len() ==> #[trigger] log.subrange(pos, pos + r.len() as int)[j] == log[pos
                + j]);
    }
    assert_seqs_equal!(log.subrange(pos, pos + 4) == h, j => {
        assert(log[pos + j] == r[j]);
        assert(r[j] == h[j]);
    });
    assert_seqs_equal!(log.subrange(pos + 4, pos + 8) == hk, j => {
        assert(log[pos + 4 + j] == r[4 + j]);
        assert(r[4 + j] == hk[j]);
    });
    assert_seqs_equal!(log.subrange(pos + 8, pos + 12) == hv, j => {
        assert(log[pos + 8 + j] == r[8 + j]);
        assert(r[8 + j] == hv[j]);
    });
    lemma_u32_round_trip(crc32_of(key + value));
    lemma_u32_round_trip(key.len() as u32);
    lemma_u32_round_trip(value.len() as u32);
    assert(rec_key_len(log, pos) == k);
    assert(rec_val_len(log, pos) == v);
    assert(rec_end(log, pos) == pos + 12 + k + v);
    assert_seqs_equal!(rec_key(log, pos) == key, j => {
        assert(log[pos + 12 + j] == r[12 + j]);
        assert(r[12 + j] == key[j]);
    });
    assert_seqs_equal!(rec_value(log, pos) == value, j => {
        assert(log[pos + 12 + k + j] == r[12 + k + j]);
        assert(r[12 + k + j] == value[j]);
    });
    assert(rec_stored_checksum(log, pos) == crc32_of(key + value));
    assert(rec_key(log, pos) + rec_value(log, pos) == key + value);
}

/// Checksum enforcement: flipping any byte of a stored checksum makes the
/// record decode to a checksum-mismatch error instead of returning data.
pub proof fn lemma_checksum_flip_detected(log: Seq<u8>, pos: int, i: int, b: u8)
    requires
        0 <= pos,
        spec_decode(log, pos) is Ok,
        0 <= i < 4,
        b != log[pos + i],
    ensures
        spec_decode(log.update(pos + i, b), pos) == Err::<(Seq<u8>, Seq<u8>, int), _>(
            StoreError::ChecksumMismatch,
        ),
{
    let log2 = log.update(pos + i, b);
    assert(log2.len() == log.len());
    assert_seqs_equal!(log2.subrange(pos + 4, pos + 8) == log.subrange(pos + 4, pos + 8));
    assert_seqs_equal!(log2.subrange(pos + 8, pos + 12) == log.subrange(pos + 8, pos + 12));
    assert(rec_key_len(log2, pos) == rec_key_len(log, pos));
    assert(rec_val_len(log2, pos) == rec_val_len(log, pos));
    assert(rec_end(log2, pos) == rec_end(log, pos));
    assert_seqs_equal!(rec_key(log2, pos) == rec_key(log, pos));
    assert_seqs_equal!(rec_value(log2, pos) == rec_value(log, pos));
    let s1 = log.subrange(pos, pos + 4);
    let s2 = log2.subrange(pos, pos + 4);
    assert(s2[i] == b && s1[i] == log[pos + i]);
    assert(s1 != s2);
    if u32_le(s1) == u32_le(s2) {
        lemma_u32_le_injective(s1, s2);
    }
    assert(rec_stored_checksum(log2, pos) != rec_stored_checksum(log, pos));
    assert(rec_stored_checksum(log, pos) == crc32_of(rec_key(log, pos) + rec_value(log, pos)));
}

} // verus!
