use vstd::prelude::*;

verus! {

/// The gzip stream that flate2 writes for the given bytes at the default level.
pub uninterp spec fn gzip_of(b: Seq<u8>) -> Seq<u8>;

/// The bytes held by the first gzip member of a stream, or `None` when the
/// stream is not valid gzip.
pub uninterp spec fn gunzip_of(b: Seq<u8>) -> Option<Seq<u8>>;

/// The zlib stream that flate2 writes for the given bytes at the default level.
pub uninterp spec fn zlib_of(b: Seq<u8>) -> Seq<u8>;

/// The bytes held by a zlib stream, or `None` when it is not valid zlib.
pub uninterp spec fn unzlib_of(b: Seq<u8>) -> Option<Seq<u8>>;

/// Relies on flate2::write::GzEncoder at the default level: its header has a
/// zero time and a fixed system byte, so the stream depends on the input alone;
/// writing into a `Vec` does not fail; and flate2's GzDecoder inflates the
/// stream back to the input.
#[verifier::external_body]
pub(crate) fn gzip(b: &[u8]) -> (r: Option<Vec<u8>>)
    ensures
        r is Some,
        r is Some ==> r->Some_0@ == gzip_of(b@),
        r is Some ==> gunzip_of(r->Some_0@) == Some(b@),
{
    let mut e = flate2::write::GzEncoder::new(Vec::new(), flate2::Compression::default());
    match std::io::Write::write_all(&mut e, b) {
        Ok(()) => e.finish().ok(),
        Err(_) => None,
    }
}

/// Relies on flate2::read::GzDecoder: it inflates the first gzip member of the
/// input and fails on input that is not valid gzip.
#[verifier::external_body]
pub(crate) fn gunzip(b: &[u8]) -> (r: Option<Vec<u8>>)
    ensures
        match r {
            Some(v) => gunzip_of(b@) == Some(v@),
            None => gunzip_of(b@) is None,
        },
{
    let mut out = Vec::new();
    match std::io::Read::read_to_end(&mut flate2::read::GzDecoder::new(b), &mut out) {
        Ok(_) => Some(out),
        Err(_) => None,
    }
}

/// Relies on flate2::write::ZlibEncoder at the default level: writing into a
/// `Vec` does not fail, and flate2's ZlibDecoder inflates the stream back to
/// the input.
#[verifier::external_body]
pub(crate) fn zlib(b: &[u8]) -> (r: Option<Vec<u8>>)
    ensures
        r is Some,
        r is Some ==> r->Some_0@ == zlib_of(b@),
        r is Some ==> unzlib_of(r->Some_0@) == Some(b@),
{
    let mut e = flate2::write::ZlibEncoder::new(Vec::new(), flate2::Compression::default());
    match std::io::Write::write_all(&mut e, b) {
        Ok(()) => e.finish().ok(),
        Err(_) => None,
    }
}

/// Relies on flate2::read::ZlibDecoder: it inflates a zlib stream and fails on
/// input that is not valid zlib.
#[verifier::external_body]
pub(crate) fn unzlib(b: &[u8]) -> (r: Option<Vec<u8>>)
    ensures
        match r {
            Some(v) => unzlib_of(b@) == Some(v@),
            None => unzlib_of(b@) is None,
        },
{
    let mut out = Vec::new();
    match std::io::Read::read_to_end(&mut flate2::read::ZlibDecoder::new(b), &mut out) {
        Ok(_) => Some(out),
        Err(_) => None,
    }
}

} // verus!
