//! Little-endian byte-writing helpers shared by the header, sample-block and
//! record encoders, together with the compression layer.
//!
//! The compression layer is the one place where the codec leans on an outside
//! crate: zlib streams are produced and consumed by `flate2`. The two
//! uninterpreted functions [`deflate_of`] and [`inflate_of`] name the byte
//! sequences those calls produce; everything proved about compressed payloads
//! goes through these names.

use crate::error::BgenError;
use vstd::prelude::*;

verus! {

/// The zlib stream that compressing `b` at the fast level produces.
pub uninterp spec fn deflate_of(b: Seq<u8>) -> Seq<u8>;

/// The byte stream that zlib-decompressing `b` produces.
pub uninterp spec fn inflate_of(b: Seq<u8>) -> Seq<u8>;

/// Relies on `flate2::bufread::ZlibEncoder` at `Compression::fast()`: the
/// result is a zlib stream, and zlib decompression of it yields `data` again.
/// Compressing from an in-memory cursor cannot fail: the encoder only
/// reports errors of the underlying reader, and a `Cursor` has none.
#[verifier::external_body]
pub fn compress_data(data: &Vec<u8>) -> (r: Result<Vec<u8>, BgenError>)
    ensures
        r is Ok,
        r matches Ok(block) ==> {
            &&& block@ == deflate_of(data@)
            &&& inflate_of(deflate_of(data@)) == data@
        },
{
    let mut encoder =
        flate2::bufread::ZlibEncoder::new(std::io::Cursor::new(data), flate2::Compression::fast());
    let mut block = Vec::new();
    match std::io::Read::read_to_end(&mut encoder, &mut block) {
        Ok(_) => Ok(block),
        Err(_) => Err(BgenError::CompressionFailed),
    }
}

/// Relies on `flate2::bufread::ZlibDecoder` together with
/// `std::io::Read::read_exact`: `inflate_of(block@)` is the longest byte
/// sequence the decoder can produce from `block`, so the read fills the
/// buffer exactly when that sequence has at least `length` bytes, and on
/// success the buffer holds exactly its first `length` bytes.
#[verifier::external_body]
pub fn decompress_block(block: Vec<u8>, length: usize) -> (r: Result<Vec<u8>, BgenError>)
    ensures
        r matches Ok(decoded) ==> {
            &&& inflate_of(block@).len() >= length
            &&& decoded@.len() == length
            &&& decoded@ == inflate_of(block@).take(length as int)
        },
        r matches Err(e) ==> e == BgenError::DecompressionFailed && inflate_of(block@).len()
            < length,
{
    let mut decoder = flate2::bufread::ZlibDecoder::new(std::io::Cursor::new(block));
    let mut decoded = vec![0u8; length];
    match std::io::Read::read_exact(&mut decoder, &mut decoded) {
        Ok(()) => Ok(decoded),
        Err(_) => Err(BgenError::DecompressionFailed),
    }
}

/// Relies on `std::str::from_utf8`, which accepts exactly the byte sequences
/// that are valid UTF-8 in the sense of `vstd::utf8::valid_utf8`.
#[verifier::external_body]
pub(crate) fn check_utf8(bytes: &[u8]) -> (r: bool)
    ensures
        r == vstd::utf8::valid_utf8(bytes@),
{
    std::str::from_utf8(bytes).is_ok()
}

/// A fresh vector with the same bytes.
pub fn copy_bytes(v: &Vec<u8>) -> (r: Vec<u8>)
    ensures
        r@ == v@,
{
    vstd::slice::slice_to_vec(v.as_slice())
}

/// Appends every byte of `s` to `out`.
pub fn extend_bytes(out: &mut Vec<u8>, s: &[u8])
    ensures
        final(out)@ == old(out)@ + s@,
{
    let mut i: usize = 0;
    while i < s.len()
        invariant
            i <= s@.len(),
            out@ == old(out)@ + s@.take(i as int),
        decreases s@.len() - i,
    {
        proof {
            assert(s@.take(i + 1) =~= s@.take(i as int).push(s@[i as int]));
        }
        out.push(s[i]);
        i = i + 1;
    }
    proof {
        assert(s@.take(s@.len() as int) =~= s@);
    }
}

/// Appends `num` to `out`.
pub fn write_u8(out: &mut Vec<u8>, num: u8)
    ensures
        final(out)@ == old(out)@.push(num),
{
    out.push(num);
}

/// Appends the two little-endian bytes of `num` to `out`.
pub fn write_u16(out: &mut Vec<u8>, num: u16)
    ensures
        final(out)@ == old(out)@ + vstd::bytes::spec_u16_to_le_bytes(num),
{
    let mut bytes = vstd::bytes::u16_to_le_bytes(num);
    out.append(&mut bytes);
}

/// Appends the four little-endian bytes of `num` to `out`.
pub fn write_u32(out: &mut Vec<u8>, num: u32)
    ensures
        final(out)@ == old(out)@ + vstd::bytes::spec_u32_to_le_bytes(num),
{
    let mut bytes = vstd::bytes::u32_to_le_bytes(num);
    out.append(&mut bytes);
}

/// The wire form of a string with a `u16` length prefix.
pub open spec fn spec_str16(s: Seq<u8>) -> Seq<u8> {
    vstd::bytes::spec_u16_to_le_bytes(s.len() as u16) + s
}

/// The wire form of a string with a `u32` length prefix.
pub open spec fn spec_str32(s: Seq<u8>) -> Seq<u8> {
    vstd::bytes::spec_u32_to_le_bytes(s.len() as u32) + s
}

/// Appends a `u16` length prefix and the bytes of `string` to `out`.
pub fn write_u16_sized_string(out: &mut Vec<u8>, string: &Vec<u8>) -> (r: Result<(), BgenError>)
    ensures
        r matches Ok(()) ==> string@.len() <= u16::MAX && final(out)@ == old(out)@ + spec_str16(
            string@,
        ),
        r is Err ==> string@.len() > u16::MAX && *final(out) == *old(out),
        r matches Err(e) ==> e == BgenError::LengthOverflow,
{
    if string.len() > u16::MAX as usize {
        return Err(BgenError::LengthOverflow);
    }
    write_u16(out, string.len() as u16);
    extend_bytes(out, string.as_slice());
    Ok(())
}

/// Appends a `u32` length prefix and the bytes of `string` to `out`.
pub fn write_u32_sized_string(out: &mut Vec<u8>, string: &Vec<u8>) -> (r: Result<(), BgenError>)
    ensures
        r matches Ok(()) ==> string@.len() <= u32::MAX && final(out)@ == old(out)@ + spec_str32(
            string@,
        ),
        r is Err ==> string@.len() > u32::MAX && *final(out) == *old(out),
        r matches Err(e) ==> e == BgenError::LengthOverflow,
{
    if string.len() > u32::MAX as usize {
        return Err(BgenError::LengthOverflow);
    }
    write_u32(out, string.len() as u32);
    extend_bytes(out, string.as_slice());
    Ok(())
}

} // verus!
