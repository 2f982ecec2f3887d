//! Streaming 64-bit content digests (xxHash64 with seed 0).

use std::hash::Hasher;
use twox_hash::XxHash64;
use vstd::prelude::*;
use vstd::slice::slice_subrange;

verus! {

/// The seed every digest is computed with, so that unchanged content always
/// reproduces the same value.
pub const DIGEST_SEED: u64 = 0;

/// The size of the pieces that file content is read and digested in.
pub const READ_CHUNK_SIZE: usize = 4096;

#[verifier::external_type_specification]
#[verifier::external_body]
pub struct ExXxHash64(XxHash64);

/// The xxHash64 digest, seeded with zero, of a byte sequence.
pub uninterp spec fn xxh64_digest(data: Seq<u8>) -> u64;

/// An incremental digest: bytes can be fed in pieces of any size, and the
/// final value depends only on the concatenation of everything fed.
pub struct ContentHasher {
    inner: XxHash64,
    fed: Ghost<Seq<u8>>,
}

/// Relies on `XxHash64::with_seed`: a fresh state that has consumed nothing.
#[verifier::external_body]
fn xxh64_start() -> (h: ContentHasher)
    ensures
        h.consumed() == Seq::<u8>::empty(),
{
    ContentHasher { inner: XxHash64::with_seed(DIGEST_SEED), fed: Ghost(Seq::empty()) }
}

/// Relies on `<XxHash64 as Hasher>::write`: the bytes are appended to the
/// consumed input; the crate buffers partial stripes, so the split points
/// between calls do not matter.
#[verifier::external_body]
fn xxh64_write(h: &mut ContentHasher, chunk: &[u8])
    ensures
        final(h).consumed() == old(h).consumed() + chunk@,
{
    h.inner.write(chunk);
}

/// Relies on `<XxHash64 as Hasher>::finish`: the digest of everything
/// consumed, without changing the state.
#[verifier::external_body]
fn xxh64_finish(h: &ContentHasher) -> (r: u64)
    ensures
        r == xxh64_digest(h.consumed()),
{
    h.inner.finish()
}

impl ContentHasher {
    /// All bytes fed so far, in order.
    pub closed spec fn consumed(&self) -> Seq<u8> {
        self.fed@
    }

    /// A digest state that has consumed nothing.
    pub fn new() -> (h: ContentHasher)
        ensures
            h.consumed() == Seq::<u8>::empty(),
    {
        xxh64_start()
    }

    /// Feeds `chunk` after everything fed before.
    pub fn update(&mut self, chunk: &[u8])
        ensures
            final(self).consumed() == old(self).consumed() + chunk@,
    {
        xxh64_write(self, chunk)
    }

    /// The digest of everything fed so far.
    pub fn finish(&self) -> (r: u64)
        ensures
            r == xxh64_digest(self.consumed()),
    {
        xxh64_finish(self)
    }
}

/// The digest of `data` fed in one piece.
pub fn digest_bytes(data: &[u8]) -> (r: u64)
    ensures
        r == xxh64_digest(data@),
{
    let mut h = ContentHasher::new();
    h.update(data);
    assert(h.consumed() =~= data@);
    h.finish()
}

/// The digest of `data` fed in consecutive pieces of `chunk_size` bytes (the
/// last one possibly shorter).
pub fn digest_in_chunks(data: &[u8], chunk_size: usize) -> (r: u64)
    requires
        chunk_size > 0,
    ensures
        r == xxh64_digest(data@),
{
    let mut h = ContentHasher::new();
    let mut pos: usize = 0;
    while pos < data.len()
        invariant
            chunk_size > 0,
            pos <= data@.len(),
            h.consumed() == data@.subrange(0, pos as int),
        decreases data@.len() - pos,
    {
        let end: usize = if data.len() - pos < chunk_size {
            data.len()
        } else {
            pos + chunk_size
        };
        let piece = slice_subrange(data, pos, end);
        h.update(piece);
        assert(h.consumed() =~= data@.subrange(0, end as int));
        pos = end;
    }
    assert(h.consumed() =~= data@);
    h.finish()
}

/// The concatenation of a sequence of byte pieces.
pub open spec fn concat_pieces(pieces: Seq<Seq<u8>>) -> Seq<u8>
    decreases pieces.len(),
{
    if pieces.len() == 0 {
        Seq::empty()
    } else {
        concat_pieces(pieces.drop_last()) + pieces.last()
    }
}

/// The views of a list of byte buffers.
pub open spec fn piece_views(pieces: Seq<Vec<u8>>) -> Seq<Seq<u8>> {
    pieces.map_values(|v: Vec<u8>| v@)
}

/// The digest of the concatenation of `pieces`, fed one piece at a time.
pub fn digest_pieces(pieces: &Vec<Vec<u8>>) -> (r: u64)
    ensures
        r == xxh64_digest(concat_pieces(piece_views(pieces@))),
{
    let mut h = ContentHasher::new();
    let mut i: usize = 0;
    while i < pieces.len()
        invariant
            i <= pieces@.len(),
            h.consumed() == concat_pieces(piece_views(pieces@).take(i as int)),
        decreases pieces@.len() - i,
    {
        h.update(pieces[i].as_slice());
        assert(piece_views(pieces@).take(i as int + 1).drop_last() =~= piece_views(
            pieces@,
        ).take(i as int));
        i = i + 1;
    }
    assert(piece_views(pieces@).take(pieces@.len() as int) =~= piece_views(pieces@));
    h.finish()
}

/// `data` cut into consecutive pieces of `size` bytes, the last one possibly
/// shorter.
pub open spec fn chunks_of(data: Seq<u8>, size: nat) -> Seq<Seq<u8>>
    recommends
        size > 0,
    decreases data.len(),
{
    if size == 0 || data.len() == 0 {
        Seq::empty()
    } else if data.len() <= size {
        seq![data]
    } else {
        chunks_of(data.subrange(0, data.len() - size as int), size)
            + seq![data.subrange(data.len() - size as int, data.len() as int)]
    }
}

proof fn lemma_concat_pieces_append(a: Seq<Seq<u8>>, b: Seq<Seq<u8>>)
    ensures
        concat_pieces(a + b) == concat_pieces(a) + concat_pieces(b),
    decreases b.len(),
{
    if b.len() == 0 {
        assert(a + b =~= a);
        assert(concat_pieces(a) + Seq::<u8>::empty() =~= concat_pieces(a));
    } else {
        lemma_concat_pieces_append(a, b.drop_last());
        assert((a + b).drop_last() =~= a + b.drop_last());
        assert(concat_pieces(a) + concat_pieces(b.drop_last()) + b.last() =~= concat_pieces(a) + (
        concat_pieces(b.drop_last()) + b.last()));
    }
}

proof fn lemma_single_piece(piece: Seq<u8>)
    ensures
        concat_pieces(seq![piece]) == piece,
{
    let s1 = seq![piece];
    assert(s1.drop_last() =~= Seq::<Seq<u8>>::empty());
    assert(concat_pieces(s1.drop_last()) == Seq::<u8>::empty());
    assert(concat_pieces(s1) == concat_pieces(s1.drop_last()) + s1.last());
    assert(Seq::<u8>::empty() + piece =~= piece);
}

/// Cutting `data` into pieces of any positive size and joining them again
/// gives `data` back.
pub proof fn lemma_chunks_rejoin(data: Seq<u8>, size: nat)
    requires
        size > 0,
    ensures
        concat_pieces(chunks_of(data, size)) == data,
    decreases data.len(),
{
    if data.len() == 0 {
        assert(concat_pieces(Seq::<Seq<u8>>::empty()) =~= data);
    } else if data.len() <= size {
        lemma_single_piece(data);
    } else {
        let front = data.subrange(0, data.len() - size as int);
        let back = data.subrange(data.len() - size as int, data.len() as int);
        lemma_chunks_rejoin(front, size);
        lemma_concat_pieces_append(chunks_of(front, size), seq![back]);
        lemma_single_piece(back);
        assert(front + back =~= data);
    }
}

/// Streaming equivalence: feeding `data` as consecutive pieces of any
/// positive size gives the same digest as feeding it in one piece.
pub proof fn lemma_chunked_digest_matches_whole(data: Seq<u8>, size: nat)
    requires
        size > 0,
    ensures
        xxh64_digest(concat_pieces(chunks_of(data, size))) == xxh64_digest(data),
{
    lemma_chunks_rejoin(data, size);
}

} // verus!
