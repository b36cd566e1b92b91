//! Compressed streams.
use vstd::prelude::*;
use std::io::Read;
use std::io::Write;

verus! {

/// What a zlib decoder makes of bytes that begin with a zlib stream: what the
/// stream holds, and how many bytes the stream itself takes up. `None` where
/// the bytes do not begin with a whole, sound stream.
pub uninterp spec fn zlib_stream(data: Seq<u8>) -> Option<(Seq<u8>, nat)>;

/// `flate2::write::ZlibEncoder` compresses bytes into one zlib stream, which is
/// never empty. A decoder that is given the stream, whatever follows it, gives
/// back the bytes and takes exactly the stream. Which stream it is, of all that
/// hold the bytes, is not said.
#[verifier::external_body]
pub(crate) fn compress(data: &[u8]) -> (r: Vec<u8>)
    ensures
        r@.len() > 0,
        forall|rest: Seq<u8>| #[trigger]
            zlib_stream(r@ + rest) == Some((data@, r@.len())),
{
    let mut encoder = flate2::write::ZlibEncoder::new(Vec::new(), flate2::Compression::default());
    encoder.write_all(data).expect("a vector takes every byte");
    encoder.finish().expect("a vector takes every byte")
}

/// `flate2::read::ZlibDecoder` reads the zlib stream that stands at the front
/// of some bytes. Its result is a function of the bytes; it takes no more
/// bytes than there are.
#[verifier::external_body]
pub(crate) fn decompress(data: &[u8]) -> (r: Option<(Vec<u8>, usize)>)
    ensures
        match r {
            Some((content, taken)) => zlib_stream(data@) == Some((content@, taken as nat))
                && taken <= data@.len(),
            None => zlib_stream(data@) is None,
        },
{
    let mut decoder = flate2::read::ZlibDecoder::new(data);
    let mut content = Vec::new();
    match decoder.read_to_end(&mut content) {
        Ok(_) => Some((content, decoder.total_in() as usize)),
        Err(_) => None,
    }
}

} // verus!
