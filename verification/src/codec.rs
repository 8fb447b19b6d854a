//! Big-endian integers in byte buffers.
//!
//! The buffer primitives are those of the `bytes` crate. What this module
//! states about them is taken on trust from that crate; everything else in
//! the library is proved on top of these statements. As for `Vec` in vstd,
//! nothing is stated about whether memory can be had for a buffer to grow.

use vstd::prelude::*;

verus! {

/// The two bytes of `n`, most significant first.
pub open spec fn be_u16(n: u16) -> Seq<u8> {
    seq![(n / 256) as u8, (n % 256) as u8]
}

/// The number whose big-endian bytes are `hi`, `lo`.
pub open spec fn u16_from_be(hi: u8, lo: u8) -> u16 {
    (hi * 256 + lo) as u16
}

/// The four bytes of `n`, most significant first.
pub open spec fn be_u32(n: u32) -> Seq<u8> {
    seq![
        (n / 0x100_0000) as u8,
        ((n / 0x1_0000) % 256) as u8,
        ((n / 0x100) % 256) as u8,
        (n % 256) as u8,
    ]
}

/// The number whose big-endian bytes are `b0` to `b3`.
pub open spec fn u32_from_be(b0: u8, b1: u8, b2: u8, b3: u8) -> u32 {
    (b0 * 0x100_0000 + b1 * 0x1_0000 + b2 * 0x100 + b3) as u32
}

/// The 16-bit number stored big-endian at `at` in `s`.
pub open spec fn read_u16(s: Seq<u8>, at: int) -> u16 {
    u16_from_be(s[at], s[at + 1])
}

/// The 32-bit number stored big-endian at `at` in `s`.
pub open spec fn read_u32(s: Seq<u8>, at: int) -> u32 {
    u32_from_be(s[at], s[at + 1], s[at + 2], s[at + 3])
}

/// Writing what was read gives the bytes read.
pub proof fn lemma_u16_bytes_round_trip(hi: u8, lo: u8)
    ensures
        be_u16(u16_from_be(hi, lo)) == seq![hi, lo],
{
    assert(be_u16(u16_from_be(hi, lo)) =~= seq![hi, lo]);
}

/// Reading back what was written gives the number written.
pub proof fn lemma_u32_round_trip(n: u32)
    ensures
        be_u32(n).len() == 4,
        u32_from_be(be_u32(n)[0], be_u32(n)[1], be_u32(n)[2], be_u32(n)[3]) == n,
{
}

/// Writing what was read gives the bytes read.
pub proof fn lemma_u32_bytes_round_trip(b0: u8, b1: u8, b2: u8, b3: u8)
    ensures
        be_u32(u32_from_be(b0, b1, b2, b3)) == seq![b0, b1, b2, b3],
{
    let n = u32_from_be(b0, b1, b2, b3);
    let (w0, w1, w2, w3) = (b0 as u32, b1 as u32, b2 as u32, b3 as u32);
    assert(n == w0 * 0x100_0000 + w1 * 0x1_0000 + w2 * 0x100 + w3);
    assert(n / 0x100_0000 == w0 && (n / 0x1_0000) % 256 == w1 && (n / 0x100) % 256 == w2 && n % 256
        == w3) by (bit_vector)
        requires
            w0 < 256 && w1 < 256 && w2 < 256 && w3 < 256,
            n == w0 * 0x100_0000 + w1 * 0x1_0000 + w2 * 0x100 + w3,
    ;
    assert(be_u32(n) =~= seq![b0, b1, b2, b3]);
}

/// `bytes::Bytes`, a shared immutable byte buffer.
#[verifier::external_type_specification]
#[verifier::external_body]
pub struct ExBytes(bytes::Bytes);

/// `bytes::BytesMut`, a growable byte buffer.
#[verifier::external_type_specification]
#[verifier::external_body]
pub struct ExBytesMut(bytes::BytesMut);

/// The bytes that a `Bytes` holds, in order.
pub uninterp spec fn bytes_view(b: bytes::Bytes) -> Seq<u8>;

/// The bytes that a `BytesMut` holds, in order.
pub uninterp spec fn bytes_mut_view(b: bytes::BytesMut) -> Seq<u8>;

/// `Bytes::from(Vec<u8>)`: the buffer holds the bytes of the vector.
#[verifier::external_body]
pub(crate) fn bytes_from_vec(v: Vec<u8>) -> (b: bytes::Bytes)
    ensures
        bytes_view(b) == v@,
{
    bytes::Bytes::from(v)
}

/// `Bytes::as_ref`: the contents of the buffer as a slice.
#[verifier::external_body]
pub(crate) fn bytes_as_slice(b: &bytes::Bytes) -> (s: &[u8])
    ensures
        s@ == bytes_view(*b),
{
    b.as_ref()
}

/// `Bytes::clone`: another handle on the same bytes.
#[verifier::external_body]
pub(crate) fn bytes_clone(b: &bytes::Bytes) -> (c: bytes::Bytes)
    ensures
        bytes_view(c) == bytes_view(*b),
{
    b.clone()
}

/// `BytesMut::new`: a buffer that holds nothing.
#[verifier::external_body]
pub(crate) fn bytes_mut_new() -> (b: bytes::BytesMut)
    ensures
        bytes_mut_view(b) == Seq::<u8>::empty(),
{
    bytes::BytesMut::new()
}

/// `BytesMut::len`: the number of bytes held.
#[verifier::external_body]
pub(crate) fn bytes_mut_len(b: &bytes::BytesMut) -> (n: usize)
    ensures
        n == bytes_mut_view(*b).len(),
{
    b.len()
}

/// `BufMut::put_slice` on a `BytesMut`: appends the bytes of `src`.
#[verifier::external_body]
pub(crate) fn bytes_mut_put_slice(b: &mut bytes::BytesMut, src: &[u8])
    ensures
        bytes_mut_view(*final(b)) == bytes_mut_view(*old(b)) + src@,
{
    bytes::BufMut::put_slice(b, src)
}

/// `BufMut::put_u16` on a `BytesMut`: appends `n`, most significant byte
/// first.
#[verifier::external_body]
pub(crate) fn bytes_mut_put_u16(b: &mut bytes::BytesMut, n: u16)
    ensures
        bytes_mut_view(*final(b)) == bytes_mut_view(*old(b)) + be_u16(n),
{
    bytes::BufMut::put_u16(b, n)
}

/// `Buf::copy_to_bytes` on a `BytesMut`: takes the first `len` bytes out of
/// the buffer and hands them back; the buffer keeps the rest. The call
/// aborts when fewer than `len` bytes are held.
#[verifier::external_body]
pub(crate) fn bytes_mut_copy_to_bytes(b: &mut bytes::BytesMut, len: usize) -> (out: bytes::Bytes)
    requires
        len <= bytes_mut_view(*old(b)).len(),
    ensures
        bytes_view(out) == bytes_mut_view(*old(b)).take(len as int),
        bytes_mut_view(*final(b)) == bytes_mut_view(*old(b)).skip(len as int),
{
    bytes::Buf::copy_to_bytes(b, len)
}

/// `BufMut::put_slice` on a `Vec<u8>`: appends the bytes of `src`.
#[verifier::external_body]
pub(crate) fn put_slice(buf: &mut Vec<u8>, src: &[u8])
    ensures
        final(buf)@ == old(buf)@ + src@,
{
    bytes::BufMut::put_slice(buf, src)
}

/// `BufMut::put_u16` on a `Vec<u8>`: appends `n`, most significant byte
/// first.
#[verifier::external_body]
pub(crate) fn put_u16(buf: &mut Vec<u8>, n: u16)
    ensures
        final(buf)@ == old(buf)@ + be_u16(n),
{
    bytes::BufMut::put_u16(buf, n)
}

/// `BufMut::put_u32` on a `Vec<u8>`: appends `n`, most significant byte
/// first.
#[verifier::external_body]
pub(crate) fn put_u32(buf: &mut Vec<u8>, n: u32)
    ensures
        final(buf)@ == old(buf)@ + be_u32(n),
{
    bytes::BufMut::put_u32(buf, n)
}

/// `Buf::get_u16` on a byte slice: the number held big-endian in its first
/// two bytes. The call aborts on a slice shorter than that.
#[verifier::external_body]
pub(crate) fn get_u16(src: &[u8]) -> (n: u16)
    requires
        src@.len() >= 2,
    ensures
        n == read_u16(src@, 0),
{
    let mut cursor = src;
    bytes::Buf::get_u16(&mut cursor)
}

/// `Buf::get_u32` on a byte slice: the number held big-endian in its first
/// four bytes. The call aborts on a slice shorter than that.
#[verifier::external_body]
pub(crate) fn get_u32(src: &[u8]) -> (n: u32)
    requires
        src@.len() >= 4,
    ensures
        n == read_u32(src@, 0),
{
    let mut cursor = src;
    bytes::Buf::get_u32(&mut cursor)
}

/// The 16-bit number stored big-endian at `at` in `data`.
pub fn load_u16(data: &[u8], at: usize) -> (n: u16)
    requires
        at + 2 <= data@.len(),
    ensures
        n == read_u16(data@, at as int),
{
    let hi: u16 = data[at] as u16;
    let lo: u16 = data[at + 1] as u16;
    hi * 256 + lo
}

} // verus!
