//! The calls that the library makes into the `hex`, `sha1`, `rand` and
//! `bytes` crates, each with the contract that it is trusted to meet.

use vstd::prelude::*;

use bytes::{Buf, BufMut};
use rand::seq::SliceRandom;
use rand::RngCore;
use sha1::Digest;

verus! {

// ---------------------------------------------------------------------------
// hex

/// The value of a hex digit of either case.
pub open spec fn hex_digit_value(c: u8) -> Option<u8> {
    if 48 <= c <= 57 {
        Some((c - 48) as u8)
    } else if 97 <= c <= 102 {
        Some((c - 87) as u8)
    } else if 65 <= c <= 70 {
        Some((c - 55) as u8)
    } else {
        None
    }
}

/// What `hex::decode` gives: one byte per pair of hex digits, or nothing
/// when the length is odd or a character is not a hex digit.
pub open spec fn hex_decode_spec(s: Seq<u8>) -> Option<Seq<u8>>
    decreases s.len(),
{
    if s.len() == 0 {
        Some(Seq::empty())
    } else if s.len() == 1 {
        None
    } else {
        match (hex_digit_value(s[0]), hex_digit_value(s[1]), hex_decode_spec(s.skip(2))) {
            (Some(h), Some(l), Some(rest)) => Some(seq![(h * 16 + l) as u8] + rest),
            _ => None,
        }
    }
}

/// The lowercase hex digit for `n`, which is below 16.
pub open spec fn hex_digit_lower(n: int) -> u8 {
    if n < 10 {
        (48 + n) as u8
    } else {
        (87 + n) as u8
    }
}

/// What `hex::encode` gives: two lowercase hex digits per byte.
pub open spec fn hex_encode_spec(b: Seq<u8>) -> Seq<u8>
    decreases b.len(),
{
    if b.len() == 0 {
        Seq::empty()
    } else {
        seq![hex_digit_lower(b[0] as int / 16), hex_digit_lower(b[0] as int % 16)] + hex_encode_spec(
            b.drop_first(),
        )
    }
}

/// `hex::FromHexError` is declared in `crate::error`; `hex::decode` either
/// decodes every pair of hex digits of `data` into one byte, or fails when
/// the length is odd or some character is not a hex digit. Which of its
/// errors comes back is not stated.
#[verifier::external_body]
pub fn hex_decode(data: &[u8]) -> (r: Result<Vec<u8>, hex::FromHexError>)
    ensures
        r is Ok <==> hex_decode_spec(data@) is Some,
        r matches Ok(v) ==> v@ == hex_decode_spec(data@)->0,
{
    hex::decode(data)
}

/// `hex::encode`: two lowercase hex digits for each byte, as a `String`.
/// Its characters are those digits.
#[verifier::external_body]
pub fn hex_encode(data: &[u8]) -> (r: String)
    ensures
        r@ == hex_encode_spec(data@).map_values(|c: u8| c as char),
{
    hex::encode(data)
}

// ---------------------------------------------------------------------------
// sha1

/// The SHA-1 digest of `data`, as `sha1::Sha1::digest` computes it.
pub uninterp spec fn sha1_spec(data: Seq<u8>) -> Seq<u8>;

/// `sha1::Sha1::digest`: the 20-byte SHA-1 digest of `data`, which depends
/// on `data` alone.
#[verifier::external_body]
pub fn sha1_digest(data: &[u8]) -> (r: [u8; 20])
    ensures
        r@ == sha1_spec(data@),
{
    sha1::Sha1::digest(data).into()
}

// ---------------------------------------------------------------------------
// rand

/// `rand::thread_rng().fill_bytes`: `n` random bytes. Nothing is stated of
/// their values.
#[verifier::external_body]
pub fn random_bytes(n: usize) -> (r: Vec<u8>)
    ensures
        r@.len() == n,
{
    let mut v = vec![0u8; n];
    rand::thread_rng().fill_bytes(&mut v);
    v
}

/// `SliceRandom::choose` with `rand::thread_rng()`: `None` for an empty
/// slice, otherwise one of its elements, picked at random.
#[verifier::external_body]
pub fn choose_one<T: Copy>(items: &[T]) -> (r: Option<T>)
    ensures
        r is None <==> items@.len() == 0,
        r matches Some(x) ==> items@.contains(x),
{
    items.choose(&mut rand::thread_rng()).copied()
}

// ---------------------------------------------------------------------------
// bytes

/// The four bytes of `n`, most significant first.
pub open spec fn be32(n: u32) -> Seq<u8> {
    seq![(n >> 24) as u8, ((n >> 16) & 0xff) as u8, ((n >> 8) & 0xff) as u8, (n & 0xff) as u8]
}

/// The number that four bytes stand for, most significant first.
pub open spec fn be32_value(b: Seq<u8>) -> u32 {
    ((b[0] as u32) << 24) | ((b[1] as u32) << 16) | ((b[2] as u32) << 8) | (b[3] as u32)
}

pub proof fn lemma_be32_roundtrip(n: u32)
    ensures
        be32_value(be32(n)) == n,
{
    let b0 = (n >> 24) as u8;
    let b1 = ((n >> 16) & 0xff) as u8;
    let b2 = ((n >> 8) & 0xff) as u8;
    let b3 = (n & 0xff) as u8;
    assert(((b0 as u32) << 24) | ((b1 as u32) << 16) | ((b2 as u32) << 8) | (b3 as u32) == n)
        by (bit_vector)
        requires
            b0 == (n >> 24) as u8,
            b1 == ((n >> 16) & 0xff) as u8,
            b2 == ((n >> 8) & 0xff) as u8,
            b3 == (n & 0xff) as u8,
    ;
}

/// `bytes::BytesMut`, a growable byte buffer.
#[verifier::external_type_specification]
#[verifier::external_body]
pub struct ExBytesMut(bytes::BytesMut);

/// The bytes that a `BytesMut` holds.
pub uninterp spec fn bytes_mut_contents(b: bytes::BytesMut) -> Seq<u8>;

/// `BytesMut::new`: an empty buffer.
#[verifier::external_body]
pub fn bytes_mut_new() -> (r: bytes::BytesMut)
    ensures
        bytes_mut_contents(r) == Seq::<u8>::empty(),
{
    bytes::BytesMut::new()
}

/// `BufMut::put_u8` on a `BytesMut`: appends `n`. It panics where the
/// buffer would outgrow `isize::MAX` bytes.
#[verifier::external_body]
pub fn bytes_mut_put_u8(b: &mut bytes::BytesMut, n: u8)
    requires
        bytes_mut_contents(*old(b)).len() + 1 <= isize::MAX,
    ensures
        bytes_mut_contents(*final(b)) == bytes_mut_contents(*old(b)).push(n),
{
    b.put_u8(n)
}

/// `BufMut::put_u32` on a `BytesMut`: appends the four bytes of `n`, most
/// significant first. It panics where the buffer would outgrow
/// `isize::MAX` bytes.
#[verifier::external_body]
pub fn bytes_mut_put_u32(b: &mut bytes::BytesMut, n: u32)
    requires
        bytes_mut_contents(*old(b)).len() + 4 <= isize::MAX,
    ensures
        bytes_mut_contents(*final(b)) == bytes_mut_contents(*old(b)) + be32(n),
{
    b.put_u32(n)
}

/// `BufMut::put_slice` on a `BytesMut`: appends `src`. It panics where the
/// buffer would outgrow `isize::MAX` bytes.
#[verifier::external_body]
pub fn bytes_mut_put_slice(b: &mut bytes::BytesMut, src: &[u8])
    requires
        bytes_mut_contents(*old(b)).len() + src@.len() <= isize::MAX,
    ensures
        bytes_mut_contents(*final(b)) == bytes_mut_contents(*old(b)) + src@,
{
    b.put_slice(src)
}

/// The bytes of a `BytesMut`, copied into a `Vec` (`to_vec` on its slice).
#[verifier::external_body]
pub fn bytes_mut_to_vec(b: &bytes::BytesMut) -> (r: Vec<u8>)
    ensures
        r@ == bytes_mut_contents(*b),
{
    b.to_vec()
}

/// `Buf::get_u32` on the slice `buf[pos..]`: the four bytes there, read
/// most significant first.
#[verifier::external_body]
pub fn get_u32_at(buf: &[u8], pos: usize) -> (r: u32)
    requires
        pos + 4 <= buf@.len(),
    ensures
        r == be32_value(buf@.subrange(pos as int, pos + 4)),
{
    let mut c = &buf[pos..];
    c.get_u32()
}

} // verus!
