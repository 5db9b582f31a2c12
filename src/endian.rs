use vstd::prelude::*;
use byteorder::{BigEndian, ByteOrder};

verus! {

/// The number that `s` spells in base 256, most significant byte first.
pub open spec fn be_value(s: Seq<u8>) -> nat
    decreases s.len(),
{
    if s.len() == 0 {
        0
    } else {
        be_value(s.drop_last()) * 256 + s.last() as nat
    }
}

/// The `k` low base-256 digits of `n`, most significant first.
pub open spec fn be_bytes(n: nat, k: nat) -> Seq<u8>
    decreases k,
{
    if k == 0 {
        Seq::empty()
    } else {
        be_bytes(n / 256, (k - 1) as nat).push((n % 256) as u8)
    }
}

pub open spec fn pow256(k: nat) -> nat
    decreases k,
{
    if k == 0 {
        1
    } else {
        256 * pow256((k - 1) as nat)
    }
}

pub proof fn lemma_be_bytes_len(n: nat, k: nat)
    ensures
        be_bytes(n, k).len() == k,
    decreases k,
{
    if k > 0 {
        lemma_be_bytes_len(n / 256, (k - 1) as nat);
    }
}

/// Reading back the `k` digits of a number below `256^k` gives the number.
pub proof fn lemma_be_round_trip(n: nat, k: nat)
    requires
        n < pow256(k),
    ensures
        be_value(be_bytes(n, k)) == n,
    decreases k,
{
    if k > 0 {
        assert(n / 256 < pow256((k - 1) as nat)) by (nonlinear_arith)
            requires
                n < 256 * pow256((k - 1) as nat),
        ;
        lemma_be_round_trip(n / 256, (k - 1) as nat);
        let s = be_bytes(n, k);
        assert(s.drop_last() == be_bytes(n / 256, (k - 1) as nat));
    }
}

pub proof fn lemma_be_value_bound(s: Seq<u8>)
    ensures
        be_value(s) < pow256(s.len()),
    decreases s.len(),
{
    if s.len() > 0 {
        lemma_be_value_bound(s.drop_last());
        let a = be_value(s.drop_last());
        let p = pow256((s.len() - 1) as nat);
        assert(a * 256 + (s.last() as nat) < 256 * p) by (nonlinear_arith)
            requires
                a < p,
                s.last() < 256,
        ;
    }
}

/// Relies on byteorder's `BigEndian::read_u16`: the first two bytes, most significant first.
#[verifier::external_body]
pub(crate) fn be_read_u16(buf: &[u8]) -> (r: u16)
    requires
        buf@.len() >= 2,
    ensures
        r as nat == be_value(buf@.subrange(0, 2)),
{
    BigEndian::read_u16(buf)
}

/// Relies on byteorder's `BigEndian::read_u32`: the first four bytes, most significant first.
#[verifier::external_body]
pub(crate) fn be_read_u32(buf: &[u8]) -> (r: u32)
    requires
        buf@.len() >= 4,
    ensures
        r as nat == be_value(buf@.subrange(0, 4)),
{
    BigEndian::read_u32(buf)
}

/// Relies on byteorder's `BigEndian::read_u64`: the first eight bytes, most significant first.
#[verifier::external_body]
pub(crate) fn be_read_u64(buf: &[u8]) -> (r: u64)
    requires
        buf@.len() >= 8,
    ensures
        r as nat == be_value(buf@.subrange(0, 8)),
{
    BigEndian::read_u64(buf)
}

/// Relies on byteorder's `BigEndian::write_u16`: stores `n` in the first two bytes,
/// most significant first, and leaves the others.
#[verifier::external_body]
pub(crate) fn be_write_u16(buf: &mut Vec<u8>, n: u16)
    requires
        old(buf)@.len() >= 2,
    ensures
        final(buf)@.len() == old(buf)@.len(),
        final(buf)@.subrange(0, 2) == be_bytes(n as nat, 2),
        final(buf)@.subrange(2, final(buf)@.len() as int) == old(buf)@.subrange(2, old(buf)@.len() as int),
{
    BigEndian::write_u16(buf.as_mut_slice(), n)
}

/// Relies on byteorder's `BigEndian::write_u32`: stores `n` in the first four bytes,
/// most significant first, and leaves the others.
#[verifier::external_body]
pub(crate) fn be_write_u32(buf: &mut Vec<u8>, n: u32)
    requires
        old(buf)@.len() >= 4,
    ensures
        final(buf)@.len() == old(buf)@.len(),
        final(buf)@.subrange(0, 4) == be_bytes(n as nat, 4),
        final(buf)@.subrange(4, final(buf)@.len() as int) == old(buf)@.subrange(4, old(buf)@.len() as int),
{
    BigEndian::write_u32(buf.as_mut_slice(), n)
}

/// Relies on byteorder's `BigEndian::write_u64`: stores `n` in the first eight bytes,
/// most significant first, and leaves the others.
#[verifier::external_body]
pub(crate) fn be_write_u64(buf: &mut Vec<u8>, n: u64)
    requires
        old(buf)@.len() >= 8,
    ensures
        final(buf)@.len() == old(buf)@.len(),
        final(buf)@.subrange(0, 8) == be_bytes(n as nat, 8),
        final(buf)@.subrange(8, final(buf)@.len() as int) == old(buf)@.subrange(8, old(buf)@.len() as int),
{
    BigEndian::write_u64(buf.as_mut_slice(), n)
}

} // verus!
