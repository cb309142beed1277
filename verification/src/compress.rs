//! The batch compression codecs, called in the outside crates and
//! trusted through the contracts below. Decompression is a function of
//! its input alone, so its result carries a name; compression promises
//! only that its output decompresses back to the input.
use vstd::prelude::*;

verus! {

/// What `lz4_flex::decompress_size_prepended` returns for given bytes:
/// the decompressed block, or nothing when they are not a valid
/// size-prepended block.
pub uninterp spec fn lz4_unof(b: Seq<u8>) -> Option<Seq<u8>>;

/// What `zstd::stream::decode_all` returns for given bytes: the
/// decompressed stream, or nothing when they are not a valid stream.
pub uninterp spec fn zstd_unof(b: Seq<u8>) -> Option<Seq<u8>>;

/// Relies on `lz4_flex::compress_prepend_size`: the documentation pairs
/// it with `decompress_size_prepended`, which restores the input; the
/// prepended length is a 32-bit integer, so the input must fit it.
#[verifier::external_body]
pub fn lz4_compress(b: &Vec<u8>) -> (r: Vec<u8>)
    requires
        b@.len() < 0x1_0000_0000,
    ensures
        lz4_unof(r@) == Some(b@),
{
    lz4_flex::compress_prepend_size(b.as_slice())
}

/// Relies on `lz4_flex::decompress_size_prepended`: deterministic in its
/// input alone; its result is the named `lz4_unof`.
#[verifier::external_body]
pub fn lz4_decompress(b: &Vec<u8>) -> (r: Option<Vec<u8>>)
    ensures
        r matches Some(v) ==> lz4_unof(b@) == Some(v@),
        r is None ==> lz4_unof(b@) is None,
{
    match lz4_flex::decompress_size_prepended(b.as_slice()) {
        Ok(v) => Some(v),
        Err(_) => None,
    }
}

/// Relies on `zstd::stream::encode_all`: the documentation pairs it with
/// `decode_all`, which restores the input; encoding into memory may
/// still report an error, in which case nothing is promised.
#[verifier::external_body]
pub fn zstd_compress(b: &Vec<u8>) -> (r: Option<Vec<u8>>)
    ensures
        r matches Some(v) ==> zstd_unof(v@) == Some(b@),
{
    match zstd::stream::encode_all(b.as_slice(), 0) {
        Ok(v) => Some(v),
        Err(_) => None,
    }
}

/// Relies on `zstd::stream::decode_all`: deterministic in its input
/// alone; its result is the named `zstd_unof`.
#[verifier::external_body]
pub fn zstd_decompress(b: &Vec<u8>) -> (r: Option<Vec<u8>>)
    ensures
        r matches Some(v) ==> zstd_unof(b@) == Some(v@),
        r is None ==> zstd_unof(b@) is None,
{
    match zstd::stream::decode_all(b.as_slice()) {
        Ok(v) => Some(v),
        Err(_) => None,
    }
}

} // verus!
