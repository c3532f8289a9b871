//! The gzip codec: decoding (possibly multi-member) input and encoding one
//! member.
use std::io::Read;
use std::io::Write;
use vstd::prelude::*;
use crate::mol2::Mol2Error;

verus! {

#[verifier::external_type_specification]
#[verifier::external_body]
pub struct ExIoError(std::io::Error);

/// The bytes that a gzip decoder yields for `data`, every member read.
pub uninterp spec fn gunzip(data: Seq<u8>) -> Seq<u8>;

/// Whether `data` decodes as a sequence of gzip members.
pub uninterp spec fn gunzip_ok(data: Seq<u8>) -> bool;

/// The single gzip member that flate2 writes for `data` at the default level.
pub uninterp spec fn gzip(data: Seq<u8>) -> Seq<u8>;

/// Whether flate2 finishes encoding `data` without an error.
pub uninterp spec fn gzip_ok(data: Seq<u8>) -> bool;

/// Relies on flate2's `read::MultiGzDecoder`: read to its end, it yields the
/// contents of all the gzip members of `data`, one after the other, or fails.
/// Header, inflate, checksum and member boundaries are all read from `data`,
/// so whether it fails depends on `data` alone.
#[verifier::external_body]
fn gunzip_all(data: &[u8]) -> (r: Result<Vec<u8>, std::io::Error>)
    ensures
        r.is_ok() == gunzip_ok(data@),
        r.is_ok() ==> r.unwrap()@ == gunzip(data@),
{
    let mut out = Vec::new();
    flate2::read::MultiGzDecoder::new(data).read_to_end(&mut out)?;
    Ok(out)
}

/// Relies on flate2's `write::GzEncoder` over a `Vec<u8>` at
/// `Compression::default()`: once finished, the vector holds one gzip member
/// for `data`. Its header has mtime 0 and operating system byte 255, so the
/// member depends on `data` alone.
#[verifier::external_body]
fn gzip_all(data: &[u8]) -> (r: Result<Vec<u8>, std::io::Error>)
    ensures
        r.is_ok() == gzip_ok(data@),
        r.is_ok() ==> r.unwrap()@ == gzip(data@),
{
    let mut enc = flate2::write::GzEncoder::new(Vec::new(), flate2::Compression::default());
    enc.write_all(data)?;
    enc.finish()
}

/// Decompresses a (possibly multi-member) gzip stream.
pub fn decompress(data: &[u8]) -> (r: Result<Vec<u8>, Mol2Error>)
    ensures
        r.is_ok() == gunzip_ok(data@),
        r matches Ok(v) ==> v@ == gunzip(data@),
        r matches Err(e) ==> e == Mol2Error::Decode,
{
    match gunzip_all(data) {
        Ok(v) => Ok(v),
        Err(_) => Err(Mol2Error::Decode),
    }
}

/// Compresses `data` into one gzip member.
pub fn compress(data: &[u8]) -> (r: Result<Vec<u8>, Mol2Error>)
    ensures
        r.is_ok() == gzip_ok(data@),
        r matches Ok(v) ==> v@ == gzip(data@),
        r matches Err(e) ==> e == Mol2Error::Encode,
{
    match gzip_all(data) {
        Ok(v) => Ok(v),
        Err(_) => Err(Mol2Error::Encode),
    }
}

} // verus!
