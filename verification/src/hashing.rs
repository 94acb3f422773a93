//! Content and path hashing.
//!
//! Every identity in this crate is a 64-bit SeaHash value: a *content
//! hash* of a file's full byte stream, or a *path key* of a file's
//! tree-relative path. Both are stable across processes and machines, so
//! they may be persisted and compared between runs. The hash itself is
//! computed by the `seahash` crate; its results are named by
//! uninterpreted functions and everything built on top of them is
//! verified against those names.

use vstd::prelude::*;

verus! {

/// The SeaHash digest of a byte sequence, as `seahash::hash` computes it.
pub uninterp spec fn sea_hash_of(bytes: Seq<u8>) -> u64;

/// The SeaHash digest of a byte stream fed piecewise to a
/// `seahash::SeaHasher`. The hasher buffers partial blocks internally,
/// so the digest depends only on the concatenation of the pieces, never
/// on how the stream was cut.
pub uninterp spec fn stream_hash_of(bytes: Seq<u8>) -> u64;

/// The path key of a tree-relative path: the digest of its UTF-8 bytes.
pub open spec fn path_key_of(path: Seq<char>) -> u64 {
    sea_hash_of(vstd::utf8::encode_utf8(path))
}

/// Relies on `seahash::hash`: a deterministic, seed-fixed function of
/// the input bytes alone; it never panics.
#[verifier::external_body]
pub fn hash_bytes(bytes: &[u8]) -> (r: u64)
    ensures
        r == sea_hash_of(bytes@),
{
    seahash::hash(bytes)
}

/// The key under which a file's record is stored: the digest of the
/// file's tree-relative path.
pub fn path_key(rel_path: &str) -> (r: u64)
    ensures
        r == path_key_of(rel_path@),
{
    hash_bytes(rel_path.as_bytes())
}

#[verifier::external_type_specification]
#[verifier::external_body]
pub struct ExSeaHasher(seahash::SeaHasher);

/// Relies on `seahash::SeaHasher::default`: a hasher in its initial
/// state, with the crate's fixed seeds; it never panics. The state is
/// opaque here, so nothing is stated of the result: `ContentHasher`
/// keeps the byte stream beside it, and only `ContentHasher::finish`
/// states what the digest of that stream is.
#[verifier::external_body]
fn fresh_sea_hasher() -> seahash::SeaHasher {
    seahash::SeaHasher::default()
}

/// Relies on `seahash::SeaHasher::write` (`std::hash::Hasher`): folds
/// the chunk into the running state; it never panics. The state is
/// opaque here, so nothing is stated of it; see `ContentHasher::finish`.
#[verifier::external_body]
fn sea_write(h: &mut seahash::SeaHasher, chunk: &[u8]) {
    std::hash::Hasher::write(h, chunk);
}

/// A running content hash. Bytes are fed in chunks of any size; the
/// final digest depends only on the full byte stream, never on how the
/// stream was cut. The view is the byte stream fed so far.
pub struct ContentHasher {
    inner: seahash::SeaHasher,
    fed: Ghost<Seq<u8>>,
}

impl View for ContentHasher {
    type V = Seq<u8>;

    closed spec fn view(&self) -> Seq<u8> {
        self.fed@
    }
}

impl ContentHasher {
    /// A hasher that has seen no bytes yet.
    pub fn new() -> (r: ContentHasher)
        ensures
            r@ == Seq::<u8>::empty(),
    {
        ContentHasher { inner: fresh_sea_hasher(), fed: Ghost(Seq::empty()) }
    }

    /// Feed one chunk of the stream.
    pub fn update(&mut self, chunk: &[u8])
        ensures
            final(self)@ == old(self)@ + chunk@,
    {
        sea_write(&mut self.inner, chunk);
        self.fed = Ghost(self.fed@ + chunk@);
    }

    /// Relies on `seahash::SeaHasher::finish` (`std::hash::Hasher`): the
    /// digest of the bytes written so far, a function of those bytes
    /// alone; the hasher buffers partial blocks, so chunk boundaries do
    /// not enter into it. Every `ContentHasher` is built by `new` and
    /// `update`, which keep its view equal to the bytes its inner hasher
    /// has been fed.
    #[verifier::external_body]
    pub fn finish(&self) -> (r: u64)
        ensures
            r == stream_hash_of(self@),
    {
        std::hash::Hasher::finish(&self.inner)
    }
}

/// The chunk size in which byte streams are folded into the hash state.
pub const HASH_CHUNK: usize = 1024;

/// The content hash of a byte buffer, folded in fixed-size chunks.
pub fn hash_content(bytes: &[u8]) -> (r: u64)
    ensures
        r == stream_hash_of(bytes@),
{
    let mut h = ContentHasher::new();
    let mut i: usize = 0;
    while i < bytes.len()
        invariant
            i <= bytes.len(),
            h@ == bytes@.subrange(0, i as int),
        decreases bytes.len() - i,
    {
        let end = if bytes.len() - i < HASH_CHUNK {
            bytes.len()
        } else {
            i + HASH_CHUNK
        };
        let chunk = vstd::slice::slice_subrange(bytes, i, end);
        h.update(chunk);
        proof {
            assert(bytes@.subrange(0, i as int) + bytes@.subrange(i as int, end as int)
                =~= bytes@.subrange(0, end as int));
        }
        i = end;
    }
    proof {
        assert(bytes@.subrange(0, bytes@.len() as int) =~= bytes@);
    }
    h.finish()
}

} // verus!
