use vstd::prelude::*;

verus! {

/// The DEFLATE stream that compressing the given bytes at the default
/// level produces.
pub uninterp spec fn deflate_of(data: Seq<u8>) -> Seq<u8>;

/// The bytes that inflating the given DEFLATE stream produces.
pub uninterp spec fn inflate_of(data: Seq<u8>) -> Seq<u8>;

/// Relies on flate2's DeflateEncoder at the default level: the output is
/// a function of the input bytes alone, and DEFLATE is lossless, so
/// inflating the output gives the input back. Writing into a `Vec` sink
/// cannot fail.
#[verifier::external_body]
pub fn deflate_bytes(data: &[u8]) -> (r: Vec<u8>)
    ensures
        r@ == deflate_of(data@),
        inflate_of(r@) == data@,
{
    let mut encoder = flate2::write::DeflateEncoder::new(
        Vec::new(),
        flate2::Compression::default(),
    );
    std::io::Write::write_all(&mut encoder, data).expect("writing to memory cannot fail");
    encoder.finish().expect("writing to memory cannot fail")
}

/// Relies on flate2's DeflateDecoder: inflates a stream that was
/// produced by the encoder above, which cannot fail on such input.
#[verifier::external_body]
pub fn inflate_bytes(data: &[u8], size_hint: usize) -> (r: Vec<u8>)
    requires
        exists|d: Seq<u8>| data@ == deflate_of(d),
    ensures
        r@ == inflate_of(data@),
{
    let mut decoder = flate2::read::DeflateDecoder::new(data);
    let mut out = Vec::with_capacity(size_hint);
    std::io::Read::read_to_end(&mut decoder, &mut out).expect(
        "stored blocks hold valid deflate data",
    );
    out
}

} // verus!
