//! Little-endian integer encoding for the fixed-width header fields.
//!
//! Every multi-byte integer in the log is stored little-endian; the header
//! fields are read and written through these functions only, never by
//! reinterpreting raw memory.

use vstd::prelude::*;
use vstd::assert_seqs_equal;

verus! {

/// The little-endian interpretation of the four bytes `b[0] ..= b[3]`.
pub open spec fn u32_le(b: Seq<u8>) -> u32
    recommends
        b.len() == 4,
{
    (b[0] + b[1] * 0x100 + b[2] * 0x1_0000 + b[3] * 0x100_0000) as u32
}

/// The four little-endian bytes of a 32-bit integer.
pub open spec fn u32_bytes(n: u32) -> Seq<u8> {
    seq![
        (n % 0x100) as u8,
        ((n / 0x100) % 0x100) as u8,
        ((n / 0x100 / 0x100) % 0x100) as u8,
        ((n / 0x100 / 0x100 / 0x100) % 0x100) as u8,
    ]
}

/// Serializing a 32-bit integer and reading the bytes back is the identity.
pub proof fn lemma_u32_round_trip(n: u32)
    ensures
        u32_le(u32_bytes(n)) == n,
{
    let b = u32_bytes(n);
    assert(b[0] == (n % 0x100) as u8);
    assert(b[1] == ((n / 0x100) % 0x100) as u8);
    assert(b[2] == ((n / 0x100 / 0x100) % 0x100) as u8);
    assert(b[3] == ((n / 0x100 / 0x100 / 0x100) % 0x100) as u8);
    assert(n == 0x100 * (n / 0x100) + n % 0x100) by (nonlinear_arith);
    assert(n / 0x100 == 0x100 * (n / 0x100 / 0x100) + (n / 0x100) % 0x100) by (nonlinear_arith);
    assert(n / 0x100 / 0x100 == 0x100 * (n / 0x100 / 0x100 / 0x100) + (n / 0x100 / 0x100)
        % 0x100) by (nonlinear_arith);
    assert(n / 0x100 / 0x100 / 0x100 < 0x100);
}

/// Two distinct four-byte sequences decode to distinct 32-bit integers.
pub proof fn lemma_u32_le_injective(a: Seq<u8>, b: Seq<u8>)
    requires
        a.len() == 4,
        b.len() == 4,
        u32_le(a) == u32_le(b),
    ensures
        a == b,
{
    lemma_u32_le_bytes(a);
    lemma_u32_le_bytes(b);
    assert(a =~= b);
}

/// Reading four bytes and serializing the integer again restores the bytes.
pub proof fn lemma_u32_le_bytes(b: Seq<u8>)
    requires
        b.len() == 4,
    ensures
        u32_bytes(u32_le(b)) =~= b,
{
    let n = u32_le(b);
    let s = b[0] + b[1] * 0x100 + b[2] * 0x1_0000 + b[3] * 0x100_0000;
    assert(0 <= s < 0x1_0000_0000);
    assert(n == s);
    assert(s % 0x100 == b[0] && s / 0x100 == b[1] + b[2] * 0x100 + b[3] * 0x1_0000)
        by (nonlinear_arith)
        requires
            s == b[0] + b[1] * 0x100 + b[2] * 0x1_0000 + b[3] * 0x100_0000,
            0 <= b[0] < 0x100,
            0 <= b[1] < 0x100,
            0 <= b[2] < 0x100,
            0 <= b[3] < 0x100,
    ;
    let s1 = b[1] + b[2] * 0x100 + b[3] * 0x1_0000;
    assert(s1 % 0x100 == b[1] && s1 / 0x100 == b[2] + b[3] * 0x100)
        by (nonlinear_arith)
        requires
            s1 == b[1] + b[2] * 0x100 + b[3] * 0x1_0000,
            0 <= b[1] < 0x100,
            0 <= b[2] < 0x100,
            0 <= b[3] < 0x100,
    ;
    let s2 = b[2] + b[3] * 0x100;
    assert(s2 % 0x100 == b[2] && s2 / 0x100 == b[3])
        by (nonlinear_arith)
        requires
            s2 == b[2] + b[3] * 0x100,
            0 <= b[2] < 0x100,
            0 <= b[3] < 0x100,
    ;
    assert((b[3] as int) % 0x100 == b[3] as int);
}

/// The little-endian interpretation of the eight bytes `b[0] ..= b[7]`.
pub open spec fn u64_le(b: Seq<u8>) -> u64
    recommends
        b.len() == 8,
{
    (u32_le(b.subrange(0, 4)) + u32_le(b.subrange(4, 8)) * 0x1_0000_0000) as u64
}

/// The eight little-endian bytes of a 64-bit integer.
pub open spec fn u64_bytes(n: u64) -> Seq<u8> {
    u32_bytes((n % 0x1_0000_0000) as u32) + u32_bytes((n / 0x1_0000_0000) as u32)
}

/// Serializing a 64-bit integer and reading the bytes back is the identity.
pub proof fn lemma_u64_round_trip(n: u64)
    ensures
        u64_le(u64_bytes(n)) == n,
{
    let lo = (n % 0x1_0000_0000) as u32;
    let hi = (n / 0x1_0000_0000) as u32;
    let b = u64_bytes(n);
    assert_seqs_equal!(b.subrange(0, 4) == u32_bytes(lo));
    assert_seqs_equal!(b.subrange(4, 8) == u32_bytes(hi));
    lemma_u32_round_trip(lo);
    lemma_u32_round_trip(hi);
    assert(n == 0x1_0000_0000 * (n / 0x1_0000_0000) + n % 0x1_0000_0000) by (nonlinear_arith);
}

/// Appends the eight little-endian bytes of `n` to `out`.
pub fn put_u64_le(out: &mut Vec<u8>, n: u64)
    ensures
        final(out)@ == old(out)@ + u64_bytes(n),
{
    let lo = (n % 0x1_0000_0000) as u32;
    let hi = (n / 0x1_0000_0000) as u32;
    put_u32_le(out, lo);
    put_u32_le(out, hi);
    proof {
        assert(final(out)@ =~= old(out)@ + u64_bytes(n));
    }
}

/// Reads the eight bytes at `pos` as a little-endian 64-bit integer.
pub fn get_u64_le(b: &[u8], pos: usize) -> (r: u64)
    requires
        pos + 8 <= b@.len(),
    ensures
        r == u64_le(b@.subrange(pos as int, pos as int + 8)),
{
    let n = b.len();
    proof {
        assert(pos + 8 <= n);
    }
    let lo = get_u32_le(b, pos) as u64;
    let mid = pos + 4;
    let hi = get_u32_le(b, mid) as u64;
    let r = lo + hi * 0x1_0000_0000;
    proof {
        let s = b@.subrange(pos as int, pos as int + 8);
        assert_seqs_equal!(s.subrange(0, 4) == b@.subrange(pos as int, pos as int + 4));
        assert_seqs_equal!(s.subrange(4, 8) == b@.subrange(pos as int + 4, pos as int + 8));
    }
    r
}

/// Appends the four little-endian bytes of `n` to `out`.
pub fn put_u32_le(out: &mut Vec<u8>, n: u32)
    ensures
        final(out)@ == old(out)@ + u32_bytes(n),
{
    out.push((n % 0x100) as u8);
    out.push((n / 0x100 % 0x100) as u8);
    out.push((n / 0x100 / 0x100 % 0x100) as u8);
    out.push((n / 0x100 / 0x100 / 0x100 % 0x100) as u8);
    proof {
        assert(final(out)@ =~= old(out)@ + u32_bytes(n));
    }
}

/// Reads the four bytes at `pos` as a little-endian 32-bit integer.
pub fn get_u32_le(b: &[u8], pos: usize) -> (r: u32)
    requires
        pos + 4 <= b@.len(),
    ensures
        r == u32_le(b@.subrange(pos as int, pos as int + 4)),
{
    let b0 = b[pos] as u32;
    let b1 = b[pos + 1] as u32;
    let b2 = b[pos + 2] as u32;
    let b3 = b[pos + 3] as u32;
    let r = b0 + b1 * 0x100 + b2 * 0x1_0000 + b3 * 0x100_0000;
    proof {
        let s = b@.subrange(pos as int, pos as int + 4);
        assert(s[0] == b@[pos as int]);
        assert(s[1] == b@[pos as int + 1]);
        assert(s[2] == b@[pos as int + 2]);
        assert(s[3] == b@[pos as int + 3]);
    }
    r
}

} // verus!
