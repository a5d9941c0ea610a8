//! Big-endian integer encodings and the `bytes` calls that write and read them.
use vstd::prelude::*;
use bytes::{Buf, BufMut};

verus! {

/// `256` raised to `len`: the number of distinct values that `len` bytes hold.
pub open spec fn radix(len: nat) -> nat
    decreases len,
{
    if len == 0 {
        1
    } else {
        256 * radix((len - 1) as nat)
    }
}

/// The `len` low-order bytes of `n`, most significant first.
pub open spec fn be_bytes(n: nat, len: nat) -> Seq<u8>
    decreases len,
{
    if len == 0 {
        Seq::empty()
    } else {
        be_bytes(n / 256, (len - 1) as nat).push((n % 256) as u8)
    }
}

/// The number that a sequence of bytes denotes, most significant first.
pub open spec fn be_value(s: Seq<u8>) -> nat
    decreases s.len(),
{
    if s.len() == 0 {
        0
    } else {
        be_value(s.drop_last()) * 256 + (s.last() as nat)
    }
}

/// The two bytes that `put_u16` writes.
pub open spec fn u16_bytes(n: u16) -> Seq<u8> {
    be_bytes(n as nat, 2)
}

/// The four bytes that `put_u32` writes.
pub open spec fn u32_bytes(n: u32) -> Seq<u8> {
    be_bytes(n as nat, 4)
}

/// The eight bytes that `put_u64` writes.
pub open spec fn u64_bytes(n: u64) -> Seq<u8> {
    be_bytes(n as nat, 8)
}

pub proof fn lemma_be_bytes_len(n: nat, len: nat)
    ensures
        be_bytes(n, len).len() == len,
    decreases len,
{
    if len > 0 {
        lemma_be_bytes_len(n / 256, (len - 1) as nat);
    }
}

/// Decoding what was encoded gives the number back, when it fits.
pub proof fn lemma_be_roundtrip(n: nat, len: nat)
    requires
        n < radix(len),
    ensures
        be_value(be_bytes(n, len)) == n,
        be_bytes(n, len).len() == len,
    decreases len,
{
    lemma_be_bytes_len(n, len);
    if len > 0 {
        let r = radix((len - 1) as nat);
        assert(n / 256 < r) by (nonlinear_arith)
            requires
                n < 256 * r,
        ;
        lemma_be_roundtrip(n / 256, (len - 1) as nat);
        let s = be_bytes(n, len);
        assert(s.drop_last() =~= be_bytes(n / 256, (len - 1) as nat));
    }
}

pub proof fn lemma_radix_values()
    ensures
        radix(2) == 0x1_0000,
        radix(4) == 0x1_0000_0000,
        radix(8) == 0x1_0000_0000_0000_0000,
{
    reveal_with_fuel(radix, 9);
}

/// The fixed-width encodings decode back to the number written.
pub proof fn lemma_uint_roundtrips()
    ensures
        forall|n: u16| #[trigger] u16_bytes(n).len() == 2 && be_value(u16_bytes(n)) == n,
        forall|n: u32| #[trigger] u32_bytes(n).len() == 4 && be_value(u32_bytes(n)) == n,
        forall|n: u64| #[trigger] u64_bytes(n).len() == 8 && be_value(u64_bytes(n)) == n,
{
    lemma_radix_values();
    assert forall|n: u16| #[trigger] u16_bytes(n).len() == 2 && be_value(u16_bytes(n)) == n by {
        lemma_be_roundtrip(n as nat, 2);
    }
    assert forall|n: u32| #[trigger] u32_bytes(n).len() == 4 && be_value(u32_bytes(n)) == n by {
        lemma_be_roundtrip(n as nat, 4);
    }
    assert forall|n: u64| #[trigger] u64_bytes(n).len() == 8 && be_value(u64_bytes(n)) == n by {
        lemma_be_roundtrip(n as nat, 8);
    }
}

/// Appends `n` to `buf` in big-endian order, by `BufMut::put_u16`.
/// Claimed: the two bytes of `n`, high byte first, are appended and nothing else changes.
#[verifier::external_body]
pub(crate) fn put_u16(buf: &mut Vec<u8>, n: u16)
    ensures
        final(buf)@ == old(buf)@ + u16_bytes(n),
{
    buf.put_u16(n)
}

/// Appends `n` to `buf` in big-endian order, by `BufMut::put_u32`.
/// Claimed: the four bytes of `n`, most significant first, are appended.
#[verifier::external_body]
pub(crate) fn put_u32(buf: &mut Vec<u8>, n: u32)
    ensures
        final(buf)@ == old(buf)@ + u32_bytes(n),
{
    buf.put_u32(n)
}

/// Appends `n` to `buf` in big-endian order, by `BufMut::put_u64`.
/// Claimed: the eight bytes of `n`, most significant first, are appended.
#[verifier::external_body]
pub(crate) fn put_u64(buf: &mut Vec<u8>, n: u64)
    ensures
        final(buf)@ == old(buf)@ + u64_bytes(n),
{
    buf.put_u64(n)
}

/// Appends the bytes of `src` to `buf`, by `BufMut::put_slice`.
/// Claimed: `buf` becomes its old contents followed by `src`.
#[verifier::external_body]
pub(crate) fn put_slice(buf: &mut Vec<u8>, src: &[u8])
    ensures
        final(buf)@ == old(buf)@ + src@,
{
    buf.put_slice(src)
}

/// Reads the big-endian `u16` at `pos`, by `Buf::get_u16` on the slice from `pos`.
/// Claimed: the value denoted by the two bytes at `pos`; the call panics on
/// fewer than two bytes, which `requires` rules out.
#[verifier::external_body]
pub(crate) fn get_u16_at(data: &[u8], pos: usize) -> (n: u16)
    requires
        pos + 2 <= data@.len(),
    ensures
        n as nat == be_value(data@.subrange(pos as int, pos + 2)),
{
    let mut rest = &data[pos..];
    rest.get_u16()
}

/// Reads the big-endian `u32` at `pos`, by `Buf::get_u32` on the slice from `pos`.
/// Claimed: the value denoted by the four bytes at `pos`; fewer bytes are ruled out.
#[verifier::external_body]
pub(crate) fn get_u32_at(data: &[u8], pos: usize) -> (n: u32)
    requires
        pos + 4 <= data@.len(),
    ensures
        n as nat == be_value(data@.subrange(pos as int, pos + 4)),
{
    let mut rest = &data[pos..];
    rest.get_u32()
}

/// Reads the big-endian `u64` at `pos`, by `Buf::get_u64` on the slice from `pos`.
/// Claimed: the value denoted by the eight bytes at `pos`; fewer bytes are ruled out.
#[verifier::external_body]
pub(crate) fn get_u64_at(data: &[u8], pos: usize) -> (n: u64)
    requires
        pos + 8 <= data@.len(),
    ensures
        n as nat == be_value(data@.subrange(pos as int, pos + 8)),
{
    let mut rest = &data[pos..];
    rest.get_u64()
}

} // verus!
