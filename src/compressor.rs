use vstd::prelude::*;
use vstd::slice::slice_to_vec;

use crate::bitio::{BitReader, bytes_bits, codes_bits, pad_to_byte};
use crate::compress::{lzw_codes, lzw_compress};
use crate::decompress::{DecodeError, lzw_decode, lzw_decompress_from_reader};

verus! {

/// File extension that archives carry by convention.
pub const EXTENSION: &'static str = "pressrs";

/// Compresses a byte buffer: its bits are the codes of the encoding, then the zero
/// bits that fill the last byte; empty input gives empty output.
pub fn compress_raw(data: &[u8]) -> (r: Vec<u8>)
    ensures
        bytes_bits(r@) == pad_to_byte(codes_bits(lzw_codes(data@))),
        data@.len() == 0 ==> r@.len() == 0,
{
    lzw_compress(data)
}

/// Decompresses a byte buffer made by `compress_raw`.
pub fn decompress_raw(data: &[u8]) -> (r: Result<Vec<u8>, DecodeError>)
    ensures
        match r {
            Ok(v) => lzw_decode(data@) == Ok::<Seq<u8>, DecodeError>(v@),
            Err(e) => lzw_decode(data@) == Err::<Seq<u8>, DecodeError>(e),
        },
{
    let reader = BitReader::new(slice_to_vec(data));
    lzw_decompress_from_reader(reader)
}

} // verus!
