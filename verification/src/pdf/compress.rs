//! Compression of stream contents (`/FlateDecode`).
use vstd::prelude::*;

verus! {

/// The zlib data (RFC 1950, default compression level) that `flate2`'s
/// encoder produces for `data`.
pub uninterp spec fn zlib_compressed(data: Seq<u8>) -> Seq<u8>;

/// `flate2::write::ZlibEncoder` at `Compression::default()`: writes `data`
/// into an encoder over a `Vec` and finishes it. The encoder's output
/// depends on the data and the level alone. The encoder's errors come from
/// the writer it wraps, and writing into a `Vec` does not fail, so the
/// `expect`s are never reached.
#[verifier::external_body]
fn zlib_compress(data: &[u8]) -> (r: Vec<u8>)
    ensures
        r@ == zlib_compressed(data@),
{
    let mut encoder = flate2::write::ZlibEncoder::new(Vec::new(), flate2::Compression::default());
    std::io::Write::write_all(&mut encoder, data).expect("writing into memory does not fail");
    encoder.finish().expect("writing into memory does not fail")
}

/// Compresses `data` for a `/FlateDecode` stream.
pub fn deflate(data: &[u8]) -> (r: Vec<u8>)
    ensures
        r@ == zlib_compressed(data@),
{
    zlib_compress(data)
}

} // verus!
