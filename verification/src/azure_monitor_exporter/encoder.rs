//! The gzip encoder and the byte buffers of the batcher, as seen by its proofs.

use bytes::Bytes;
use flate2::write::GzEncoder;
use flate2::Compression;
use std::io::Write;
use vstd::prelude::*;

verus! {

/// `bytes::Bytes`: an immutable buffer of bytes.
#[verifier::external_type_specification]
#[verifier::external_body]
pub struct ExBytes(Bytes);

/// `std::io::Error`: why the encoder could not take or give bytes.
#[verifier::external_type_specification]
#[verifier::external_body]
pub struct ExIoError(std::io::Error);

/// A `flate2::write::GzEncoder` in front of a `Vec`. Three things are known of one: its level,
/// what was done with it, and the compressed bytes that it has handed to its `Vec`.
#[verifier::external_body]
pub struct GzStream {
    encoder: GzEncoder<Vec<u8>>,
}

/// The bytes that a buffer holds.
pub uninterp spec fn octets(b: Bytes) -> Seq<u8>;

/// The compression level of an encoder.
pub uninterp spec fn level_of(e: GzStream) -> u32;

/// What was done with an encoder so far, in order: bytes that were written, or a flush.
pub uninterp spec fn fed(e: GzStream) -> Seq<Option<Seq<u8>>>;

/// The compressed bytes that an encoder has handed to its `Vec` so far.
pub uninterp spec fn emitted(e: GzStream) -> Seq<u8>;

/// What an encoder of that level has handed out once `fed` was done with it and it was flushed.
pub uninterp spec fn flushed(level: u32, fed: Seq<Option<Seq<u8>>>) -> Seq<u8>;

/// The complete gzip stream of an encoder of that level once `fed` was done with it.
pub uninterp spec fn gzipped(level: u32, fed: Seq<Option<Seq<u8>>>) -> Seq<u8>;

/// What `flate2::read::GzDecoder` reads from a complete gzip stream.
pub uninterp spec fn decompressed(stream: Seq<u8>) -> Seq<u8>;

/// What the error says that was made from a text.
pub uninterp spec fn error_text(e: std::io::Error) -> Seq<char>;

/// All bytes that were written, one after another.
pub open spec fn plain(fed: Seq<Option<Seq<u8>>>) -> Seq<u8>
    decreases fed.len(),
{
    if fed.len() == 0 {
        Seq::empty()
    } else {
        match fed.last() {
            Some(data) => plain(fed.drop_last()) + data,
            None => plain(fed.drop_last()),
        }
    }
}

pub proof fn lemma_plain_push(fed: Seq<Option<Seq<u8>>>, data: Option<Seq<u8>>)
    ensures
        plain(fed.push(data)) == match data {
            Some(bytes) => plain(fed) + bytes,
            None => plain(fed),
        },
{
    assert(fed.push(data).drop_last() =~= fed);
}

/// `bytes::Bytes::len`: the number of bytes in the buffer.
#[verifier::external_body]
pub(crate) fn bytes_len(b: &Bytes) -> (n: usize)
    ensures
        n == octets(*b).len(),
{
    b.len()
}

/// `<bytes::Bytes as AsRef<[u8]>>::as_ref`: the bytes of the buffer as a slice.
#[verifier::external_body]
pub(crate) fn bytes_slice(b: &Bytes) -> (s: &[u8])
    ensures
        s@ == octets(*b),
{
    b.as_ref()
}

/// `<bytes::Bytes as From<Vec<u8>>>::from`: a buffer that holds the bytes of the vector.
#[verifier::external_body]
pub(crate) fn bytes_from(v: Vec<u8>) -> (b: Bytes)
    ensures
        octets(b) == v@,
{
    Bytes::from(v)
}

/// `flate2::write::GzEncoder::new` on an empty `Vec` with room for `capacity` bytes: nothing
/// was done with it yet and nothing was handed out, not even the gzip header, which waits for
/// the first write. The encoder takes levels up to 9.
#[verifier::external_body]
pub(crate) fn new_encoder(capacity: usize, level: u32) -> (e: GzStream)
    requires
        level <= 9,
    ensures
        level_of(e) == level,
        fed(e) == Seq::<Option<Seq<u8>>>::empty(),
        emitted(e) == Seq::<u8>::empty(),
{
    GzStream { encoder: GzEncoder::new(Vec::with_capacity(capacity), Compression::new(level)) }
}

/// `<flate2::write::GzEncoder as std::io::Write>::write_all`: all of `data` is written, which
/// never fails in front of a `Vec`. What was handed out before stays as it was; a write of at
/// least one byte also hands out the gzip header. How much else is handed out is left open.
#[verifier::external_body]
pub(crate) fn write_all(e: &mut GzStream, data: &[u8]) -> (r: Result<(), std::io::Error>)
    ensures
        r is Ok,
        level_of(*final(e)) == level_of(*old(e)),
        fed(*final(e)) == fed(*old(e)).push(Some(data@)),
        emitted(*old(e)).is_prefix_of(emitted(*final(e))),
        data@.len() > 0 ==> emitted(*final(e)).len() > 0,
{
    e.encoder.write_all(data)
}

/// `<flate2::write::GzEncoder as std::io::Write>::flush`: compresses all that was written and
/// hands it out, which never fails in front of a `Vec`; more can be written afterwards. What
/// stands in the `Vec` then depends only on the level and on what was done before.
#[verifier::external_body]
pub(crate) fn flush(e: &mut GzStream) -> (r: Result<(), std::io::Error>)
    ensures
        r is Ok,
        level_of(*final(e)) == level_of(*old(e)),
        fed(*final(e)) == fed(*old(e)).push(None),
        emitted(*final(e)) == flushed(level_of(*old(e)), fed(*old(e))),
        emitted(*old(e)).is_prefix_of(emitted(*final(e))),
{
    e.encoder.flush()
}

/// `flate2::write::GzEncoder::get_ref` and the length of the `Vec` it gives: how many
/// compressed bytes were handed out so far.
#[verifier::external_body]
pub(crate) fn emitted_len(e: &GzStream) -> (n: usize)
    ensures
        n == emitted(*e).len(),
{
    e.encoder.get_ref().len()
}

/// `flate2::write::GzEncoder::finish`: completes the stream and gives it back, which never
/// fails in front of a `Vec`. The stream depends only on the level and on what was done with
/// the encoder, and decompressing it gives back what was written.
#[verifier::external_body]
pub(crate) fn finish(e: GzStream) -> (r: Result<Vec<u8>, std::io::Error>)
    ensures
        r is Ok,
        r->Ok_0@ == gzipped(level_of(e), fed(e)),
        decompressed(r->Ok_0@) == plain(fed(e)),
{
    e.encoder.finish()
}

/// `std::io::Error::other`: an error that says the text.
#[verifier::external_body]
pub(crate) fn other_error(text: &str) -> (e: std::io::Error)
    ensures
        error_text(e) == text@,
{
    std::io::Error::other(text)
}

} // verus!
