//! Byte strings and big-endian integers.
//!
//! [`Bytes`] is the shared, immutable byte string in which datagrams and
//! frames are kept. The integer readers take bytes off the front of a slice;
//! the writers place them at an offset.

use bytes::{Buf, BufMut, Bytes};
use vstd::prelude::*;

verus! {

/// The shared byte string of the `bytes` crate. Nothing is known of its
/// representation; what it holds is [`octets`].
#[verifier::external_type_specification]
#[verifier::external_body]
pub struct ExBytes(bytes::Bytes);

/// The bytes that a [`Bytes`] handle gives access to.
pub uninterp spec fn octets(b: bytes::Bytes) -> Seq<u8>;

/// `<Bytes as Clone>::clone`: another handle on the same bytes.
pub assume_specification[ <bytes::Bytes as Clone>::clone ](b: &bytes::Bytes) -> (r: bytes::Bytes)
    ensures
        octets(r) == octets(*b),
;

/// `Bytes::len`: how many bytes the handle gives access to.
pub assume_specification[ bytes::Bytes::len ](b: &bytes::Bytes) -> (n: usize)
    ensures
        n == octets(*b).len(),
;

/// `Bytes::copy_from_slice`: a new byte string that holds a copy of `data`.
pub assume_specification[ bytes::Bytes::copy_from_slice ](data: &[u8]) -> (b: bytes::Bytes)
    ensures
        octets(b) == data@,
;

/// `<Bytes as From<Vec<u8>>>::from`: takes the vector's bytes over unchanged.
#[verifier::external_body]
pub(crate) fn seal(v: Vec<u8>) -> (b: Bytes)
    ensures
        octets(b) == v@,
{
    Bytes::from(v)
}

/// `<Bytes as AsRef<[u8]>>::as_ref`: the bytes as a slice.
#[verifier::external_body]
pub(crate) fn as_slice(b: &Bytes) -> (s: &[u8])
    ensures
        s@ == octets(*b),
{
    b.as_ref()
}

/// `n`, or the largest `usize` when `n` is larger.
pub open spec fn size_capped(n: int) -> usize {
    if n > usize::MAX {
        usize::MAX
    } else {
        n as usize
    }
}

/// The big-endian value of the first two bytes.
pub open spec fn be16(b: Seq<u8>) -> u16 {
    (b[0] * 0x100 + b[1]) as u16
}

/// The big-endian value of the first four bytes.
pub open spec fn be32(b: Seq<u8>) -> u32 {
    (be16(b) * 0x1_0000 + be16(b.skip(2))) as u32
}

/// The big-endian value of the first eight bytes.
pub open spec fn be64(b: Seq<u8>) -> u64 {
    (be32(b) * 0x1_0000_0000 + be32(b.skip(4))) as u64
}

/// `n` as two bytes, high byte first.
pub open spec fn be16_bytes(n: u16) -> Seq<u8> {
    seq![(n / 0x100) as u8, (n % 0x100) as u8]
}

/// `n` as four bytes, high byte first.
pub open spec fn be32_bytes(n: u32) -> Seq<u8> {
    be16_bytes((n / 0x1_0000) as u16) + be16_bytes((n % 0x1_0000) as u16)
}

/// `n` as eight bytes, high byte first.
pub open spec fn be64_bytes(n: u64) -> Seq<u8> {
    be32_bytes((n / 0x1_0000_0000) as u32) + be32_bytes((n % 0x1_0000_0000) as u32)
}

/// `s` with the bytes from `at` on overwritten by `b`.
pub open spec fn overwritten(s: Seq<u8>, at: int, b: Seq<u8>) -> Seq<u8> {
    s.take(at) + b + s.skip(at + b.len())
}

/// `<&[u8] as Buf>::get_u8`: takes one byte off the front.
#[verifier::external_body]
pub(crate) fn get_u8(buf: &mut &[u8]) -> (n: u8)
    requires
        old(buf)@.len() >= 1,
    ensures
        n == old(buf)@[0],
        final(buf)@ == old(buf)@.skip(1),
{
    buf.get_u8()
}

/// `<&[u8] as Buf>::get_u16`: takes a big-endian `u16` off the front.
#[verifier::external_body]
pub(crate) fn get_u16(buf: &mut &[u8]) -> (n: u16)
    requires
        old(buf)@.len() >= 2,
    ensures
        n == be16(old(buf)@),
        final(buf)@ == old(buf)@.skip(2),
{
    buf.get_u16()
}

/// `<&[u8] as Buf>::get_u32`: takes a big-endian `u32` off the front.
#[verifier::external_body]
pub(crate) fn get_u32(buf: &mut &[u8]) -> (n: u32)
    requires
        old(buf)@.len() >= 4,
    ensures
        n == be32(old(buf)@),
        final(buf)@ == old(buf)@.skip(4),
{
    buf.get_u32()
}

/// `<&[u8] as Buf>::get_u64`: takes a big-endian `u64` off the front.
#[verifier::external_body]
pub(crate) fn get_u64(buf: &mut &[u8]) -> (n: u64)
    requires
        old(buf)@.len() >= 8,
    ensures
        n == be64(old(buf)@),
        final(buf)@ == old(buf)@.skip(8),
{
    buf.get_u64()
}

/// `<&mut [u8] as BufMut>::put_u8` on the bytes from `at` on: writes one byte
/// there and leaves the others.
#[verifier::external_body]
pub(crate) fn put_u8(bytes: &mut [u8], at: usize, n: u8)
    requires
        at + 1 <= old(bytes)@.len(),
    ensures
        final(bytes)@ == overwritten(old(bytes)@, at as int, seq![n]),
{
    (&mut bytes[at..]).put_u8(n)
}

/// `<&mut [u8] as BufMut>::put_u16` on the bytes from `at` on: writes `n`
/// there in big-endian order and leaves the other bytes.
#[verifier::external_body]
pub(crate) fn put_u16(bytes: &mut [u8], at: usize, n: u16)
    requires
        at + 2 <= old(bytes)@.len(),
    ensures
        final(bytes)@ == overwritten(old(bytes)@, at as int, be16_bytes(n)),
{
    (&mut bytes[at..]).put_u16(n)
}

/// `<&mut [u8] as BufMut>::put_u32` on the bytes from `at` on: writes `n`
/// there in big-endian order and leaves the other bytes.
#[verifier::external_body]
pub(crate) fn put_u32(bytes: &mut [u8], at: usize, n: u32)
    requires
        at + 4 <= old(bytes)@.len(),
    ensures
        final(bytes)@ == overwritten(old(bytes)@, at as int, be32_bytes(n)),
{
    (&mut bytes[at..]).put_u32(n)
}

/// `<&mut [u8] as BufMut>::put_u64` on the bytes from `at` on: writes `n`
/// there in big-endian order and leaves the other bytes.
#[verifier::external_body]
pub(crate) fn put_u64(bytes: &mut [u8], at: usize, n: u64)
    requires
        at + 8 <= old(bytes)@.len(),
    ensures
        final(bytes)@ == overwritten(old(bytes)@, at as int, be64_bytes(n)),
{
    (&mut bytes[at..]).put_u64(n)
}

/// `<&mut [u8] as BufMut>::put_slice` on the bytes from `at` on: copies `src`
/// there and leaves the other bytes.
#[verifier::external_body]
pub(crate) fn put_slice(bytes: &mut [u8], at: usize, src: &[u8])
    requires
        at + src@.len() <= old(bytes)@.len(),
    ensures
        final(bytes)@ == overwritten(old(bytes)@, at as int, src@),
{
    (&mut bytes[at..]).put_slice(src)
}

/// Where `w` has replaced the front of `all`, overwriting right behind `w`
/// extends the replaced part.
pub proof fn lemma_write_on(all: Seq<u8>, w: Seq<u8>, b: Seq<u8>)
    requires
        w.len() + b.len() <= all.len(),
    ensures
        overwritten(w + all.skip(w.len() as int), w.len() as int, b) == (w + b) + all.skip(
            (w + b).len() as int,
        ),
{
}

/// Reading a `u16` behind the bytes of one gives the value back, whatever
/// follows.
pub proof fn lemma_be16_round(n: u16, rest: Seq<u8>)
    ensures
        be16(be16_bytes(n) + rest) == n,
        (be16_bytes(n) + rest).skip(2) == rest,
{
}

/// Reading a `u32` from the bytes of one gives the value back, whatever
/// follows.
pub proof fn lemma_be32_round(n: u32, rest: Seq<u8>)
    ensures
        be32(be32_bytes(n) + rest) == n,
        (be32_bytes(n) + rest).skip(4) == rest,
{
    let hi = (n / 0x1_0000) as u16;
    let lo = (n % 0x1_0000) as u16;
    assert(be32_bytes(n) + rest == be16_bytes(hi) + (be16_bytes(lo) + rest));
    lemma_be16_round(hi, be16_bytes(lo) + rest);
    lemma_be16_round(lo, rest);
    assert((be32_bytes(n) + rest).skip(4) == rest);
}

/// Reading a `u64` from the bytes of one gives the value back, whatever
/// follows.
pub proof fn lemma_be64_round(n: u64, rest: Seq<u8>)
    ensures
        be64(be64_bytes(n) + rest) == n,
        (be64_bytes(n) + rest).skip(8) == rest,
{
    let hi = (n / 0x1_0000_0000) as u32;
    let lo = (n % 0x1_0000_0000) as u32;
    assert(be64_bytes(n) + rest == be32_bytes(hi) + (be32_bytes(lo) + rest));
    lemma_be32_round(hi, be32_bytes(lo) + rest);
    lemma_be32_round(lo, rest);
    assert((be64_bytes(n) + rest).skip(8) == rest);
}

/// Writing a `u16` that was read gives its bytes back.
pub proof fn lemma_be16_bytes_round(b: Seq<u8>)
    requires
        b.len() >= 2,
    ensures
        be16_bytes(be16(b)) == b.take(2),
{
}

/// Writing a `u32` that was read gives its bytes back.
pub proof fn lemma_be32_bytes_round(b: Seq<u8>)
    requires
        b.len() >= 4,
    ensures
        be32_bytes(be32(b)) == b.take(4),
{
    lemma_be16_bytes_round(b);
    lemma_be16_bytes_round(b.skip(2));
    assert(b.take(4) == b.take(2) + b.skip(2).take(2));
}

proof fn lemma_be64_halves(hi: u32, lo: u32)
    ensures
        ({
            let n = (hi * 0x1_0000_0000 + lo) as u64;
            n / 0x1_0000_0000 == hi && n % 0x1_0000_0000 == lo
        }),
{
}

/// Writing a `u64` that was read gives its bytes back.
pub proof fn lemma_be64_bytes_round(b: Seq<u8>)
    requires
        b.len() >= 8,
    ensures
        be64_bytes(be64(b)) == b.take(8),
{
    let hi = be32(b);
    let lo = be32(b.skip(4));
    let n = be64(b);
    lemma_be64_halves(hi, lo);
    assert(be64_bytes(n) == be32_bytes(hi) + be32_bytes(lo));
    assert(be32_bytes(hi) == b.take(4)) by {
        lemma_be32_bytes_round(b);
    }
    assert(be32_bytes(lo) == b.skip(4).take(4)) by {
        lemma_be32_bytes_round(b.skip(4));
    }
    assert(b.take(8) == b.take(4) + b.skip(4).take(4));
}

} // verus!
