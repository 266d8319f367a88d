//! Streaming CRC32 of a byte stream.
//!
//! The caller reads a file in chunks of any size and feeds each chunk to a
//! [`Crc32`]; the digest is the CRC32 (polynomial `0xEDB88320`, the classic
//! zlib variant) of the whole stream.  The arithmetic of the checksum is done
//! by the `crc32fast` crate; this module tracks, in specification, exactly
//! which bytes have been fed, so that the digest is pinned to the stream and
//! not to how it was chunked.

use vstd::prelude::*;

verus! {

#[verifier::external_type_specification]
#[verifier::external_body]
pub struct ExHasher(crc32fast::Hasher);

/// The bytes fed so far to a `crc32fast::Hasher` since its creation.
pub uninterp spec fn fed(h: crc32fast::Hasher) -> Seq<u8>;

/// The CRC32 digest of a byte sequence.  The digest is a function of the
/// bytes alone; its value is not spelled out here, it is what `crc32fast`
/// computes.
pub uninterp spec fn crc32_of(bytes: Seq<u8>) -> u32;

/// Relies on `crc32fast::Hasher::new`: a hasher over the empty stream.
#[verifier::external_body]
fn new_hasher() -> (h: crc32fast::Hasher)
    ensures
        fed(h) == Seq::<u8>::empty(),
{
    crc32fast::Hasher::new()
}

/// Relies on `crc32fast::Hasher::update`: appends the chunk to the stream.
#[verifier::external_body]
fn hasher_update(h: &mut crc32fast::Hasher, chunk: &[u8])
    ensures
        fed(*final(h)) == fed(*old(h)) + chunk@,
{
    h.update(chunk)
}

/// Relies on `crc32fast::Hasher::finalize`: the CRC32 of the fed bytes.
#[verifier::external_body]
fn hasher_finalize(h: crc32fast::Hasher) -> (r: u32)
    ensures
        r == crc32_of(fed(h)),
{
    h.finalize()
}

/// An in-progress CRC32 computation; its view is the bytes fed so far.
pub struct Crc32 {
    inner: crc32fast::Hasher,
}

impl View for Crc32 {
    type V = Seq<u8>;

    closed spec fn view(&self) -> Seq<u8> {
        fed(self.inner)
    }
}

impl Crc32 {
    /// A checksum over the empty stream.
    pub fn new() -> (r: Self)
        ensures
            r@ == Seq::<u8>::empty(),
    {
        Crc32 { inner: new_hasher() }
    }

    /// Feeds one chunk; the stream grows by exactly those bytes.
    pub fn update(&mut self, chunk: &[u8])
        ensures
            final(self)@ == old(self)@ + chunk@,
    {
        hasher_update(&mut self.inner, chunk)
    }

    /// The CRC32 of everything fed.
    pub fn finalize(self) -> (r: u32)
        ensures
            r == crc32_of(self@),
    {
        hasher_finalize(self.inner)
    }
}

/// The CRC32 of a byte slice, in one call.
pub fn crc32_of_bytes(data: &[u8]) -> (r: u32)
    ensures
        r == crc32_of(data@),
{
    let mut h = Crc32::new();
    h.update(data);
    proof {
        assert(h@ =~= data@);
    }
    h.finalize()
}

} // verus!
