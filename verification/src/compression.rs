//! Compression of tiles and directories. Gzip goes through `flate2`, brotli
//! and zstd through `pmtiles2`; every other compression id is read as
//! stored bytes.

use std::io::Read;
use std::io::Write;
use vstd::prelude::*;
use vstd::slice::slice_to_vec;
use crate::error::PmTilesError;

verus! {

/// Compression applied to tile data and directories in an archive.
#[derive(Clone, Copy, Debug, PartialEq, Eq, Structural)]
pub enum Compression {
    /// Stored uncompressed.
    Uncompressed,
    /// gzip-compressed.
    Gzip,
}

/// The compression id the header stores for `c`.
pub open spec fn compression_id(c: Compression) -> u8 {
    match c {
        Compression::Uncompressed => 1,
        Compression::Gzip => 2,
    }
}

/// The header's compression id for gzip.
pub const COMPRESSION_GZIP: u8 = 2;

/// The header's compression id for brotli.
pub const COMPRESSION_BROTLI: u8 = 3;

/// The header's compression id for zstd.
pub const COMPRESSION_ZSTD: u8 = 4;

/// The compressions whose decoding the library takes from `pmtiles2`.
#[derive(Clone, Copy, Debug)]
pub enum StreamCodec {
    /// Brotli (RFC 7932), compression id 3.
    Brotli,
    /// Zstandard (RFC 8478), compression id 4.
    Zstd,
}

/// The gzip stream that `flate2` writes for `data`.
pub uninterp spec fn gzip(data: Seq<u8>) -> Seq<u8>;

/// What `flate2` decodes from the gzip stream `data`, or `None` where it
/// reports an error.
pub uninterp spec fn gunzip(data: Seq<u8>) -> Option<Seq<u8>>;

/// What `pmtiles2` decodes from `data` compressed with `codec`, or `None`
/// where it reports an error.
pub uninterp spec fn stream_decoded(codec: StreamCodec, data: Seq<u8>) -> Option<Seq<u8>>;

/// The bytes stored with compression `c` for `data`.
pub open spec fn compressed(data: Seq<u8>, c: Compression) -> Seq<u8> {
    match c {
        Compression::Gzip => gzip(data),
        Compression::Uncompressed => data,
    }
}

/// The bytes that `data`, stored with compression id `id`, stands for:
/// gzip (2), brotli (3) and zstd (4) streams are decoded (`None` where they
/// do not decode); any other id stands for the stored bytes themselves.
pub open spec fn decompressed(data: Seq<u8>, id: u8) -> Option<Seq<u8>> {
    if id == COMPRESSION_GZIP {
        gunzip(data)
    } else if id == COMPRESSION_BROTLI {
        stream_decoded(StreamCodec::Brotli, data)
    } else if id == COMPRESSION_ZSTD {
        stream_decoded(StreamCodec::Zstd, data)
    } else {
        Some(data)
    }
}

/// Gzip-compresses `data` with `flate2::write::GzEncoder` at the default
/// level into a `Vec<u8>` (a gzip header with no name, comment or time).
/// Trusted: the result is the stream named `gzip(data)`, and
/// `flate2::read::MultiGzDecoder` decodes that stream back to `data`.
/// Writing into a `Vec<u8>` does not fail.
#[verifier::external_body]
fn gzip_encode(data: &[u8]) -> (out: Vec<u8>)
    ensures
        out@ == gzip(data@),
        gunzip(out@) == Some(data@),
{
    let mut enc = flate2::write::GzEncoder::new(Vec::new(), flate2::Compression::default());
    enc.write_all(data).unwrap();
    enc.finish().unwrap()
}

/// Decodes the gzip stream `data` (one or more members) with
/// `flate2::read::MultiGzDecoder`, reading to the end. Trusted: the result is
/// `gunzip(data)`, with `Err` exactly where that is `None`; the error message
/// is `flate2`'s and is not stated.
#[verifier::external_body]
fn gzip_decode(data: &[u8]) -> (res: Result<Vec<u8>, String>)
    ensures
        match res {
            Ok(out) => gunzip(data@) == Some(out@),
            Err(_) => gunzip(data@) is None,
        },
{
    let mut out = Vec::new();
    match flate2::read::MultiGzDecoder::new(data).read_to_end(&mut out) {
        Ok(_) => Ok(out),
        Err(e) => Err(e.to_string()),
    }
}

/// Decodes the brotli or zstd stream `data` with
/// `pmtiles2::util::decompress_all`, which reads it to the end through
/// `brotli::Decompressor` or `zstd::Decoder`. Trusted: the result is
/// `stream_decoded(codec, data)`, with `Err` exactly where that is `None`;
/// the error message is that of the decoder and is not stated.
#[verifier::external_body]
fn stream_decode(codec: StreamCodec, data: &[u8]) -> (res: Result<Vec<u8>, String>)
    ensures
        match res {
            Ok(out) => stream_decoded(codec, data@) == Some(out@),
            Err(_) => stream_decoded(codec, data@) is None,
        },
{
    let compression = match codec {
        StreamCodec::Brotli => pmtiles2::Compression::Brotli,
        StreamCodec::Zstd => pmtiles2::Compression::ZStd,
    };
    match pmtiles2::util::decompress_all(compression, data) {
        Ok(out) => Ok(out),
        Err(e) => Err(e.to_string()),
    }
}

impl Compression {
    /// The compression id stored in the header: 1 for none, 2 for gzip.
    pub fn id(self) -> (id: u8)
        ensures
            id == compression_id(self),
    {
        match self {
            Compression::Uncompressed => 1,
            Compression::Gzip => 2,
        }
    }
}

/// Compresses `data` as `compression` says.
pub fn compress(data: &[u8], compression: Compression) -> (out: Vec<u8>)
    ensures
        out@ == compressed(data@, compression),
        decompressed(out@, compression_id(compression)) == Some(data@),
{
    match compression {
        Compression::Gzip => gzip_encode(data),
        Compression::Uncompressed => slice_to_vec(data),
    }
}

/// Decompresses `data` stored with compression id `compression`: gzip (2),
/// brotli (3) and zstd (4) are decoded, every other id is returned as
/// stored. A stream that does not decode gives an `Io` error.
pub fn decompress(data: &[u8], compression: u8) -> (res: Result<Vec<u8>, PmTilesError>)
    ensures
        match decompressed(data@, compression) {
            Some(out) => res matches Ok(v) && v@ == out,
            None => res matches Err(PmTilesError::Io { .. }),
        },
{
    let decoded = if compression == COMPRESSION_GZIP {
        gzip_decode(data)
    } else if compression == COMPRESSION_BROTLI {
        stream_decode(StreamCodec::Brotli, data)
    } else if compression == COMPRESSION_ZSTD {
        stream_decode(StreamCodec::Zstd, data)
    } else {
        return Ok(slice_to_vec(data));
    };
    match decoded {
        Ok(out) => Ok(out),
        Err(msg) => Err(PmTilesError::Io { msg }),
    }
}

} // verus!
