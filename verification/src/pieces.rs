//! The pieces of a torrent: cutting encrypted data into them, and hashing them.

use sha1::{Digest, Sha1};
use vstd::prelude::*;

use crate::chunks::{
    append_bytes, full_chunks, full_chunks_stand_in_place, lemma_chunk_lengths, lemma_chunks_split,
    pieces, remainder, take_front,
};
use crate::bencode::{byte_strings, PIECE_HASH_LENGTH};

verus! {

/// The longest input whose bits SHA-1 can count, in bytes.
pub const SHA1_INPUT_MAX: u64 = 0x1fff_ffff_ffff_ffff;

/// The SHA-1 hash of data.
pub uninterp spec fn sha1(data: Seq<u8>) -> Seq<u8>;

/// `sha1::Sha1::digest`. The hash has 20 bytes and depends on the data alone. Data whose length in
/// bits exceeds 64 bits overflows its counter and is left out.
#[verifier::external_body]
pub(crate) fn sha1_digest(data: &[u8]) -> (hash: Vec<u8>)
    requires
        data@.len() <= SHA1_INPUT_MAX,
    ensures
        hash@ == sha1(data@),
        hash@.len() == PIECE_HASH_LENGTH,
{
    Sha1::digest(data).to_vec()
}

/// The hashes of pieces.
pub open spec fn hashes_of(pieces: Seq<Seq<u8>>) -> Seq<Seq<u8>> {
    Seq::new(pieces.len(), |i: int| sha1(pieces[i]))
}

/// The piece hashes of a torrent with this data: one for each piece, and one for a torrent without
/// data.
pub open spec fn piece_hashes(data: Seq<u8>, piece_length: nat) -> Seq<Seq<u8>> {
    if data.len() == 0 {
        seq![sha1(Seq::empty())]
    } else {
        hashes_of(pieces(data, piece_length))
    }
}

/// The state of a piece hasher: the hashes of the complete pieces, and what has come of the next.
#[verifier::ext_equal]
pub struct HasherState {
    pub piece_length: nat,
    pub hashes: Seq<Seq<u8>>,
    pub buffer: Seq<u8>,
}

impl HasherState {
    /// Whether SHA-1 can hash every piece after so many more bytes: the bytes that it is given at
    /// once are those of a piece, or fewer if the data ends before.
    pub open spec fn accepts(self, len: nat) -> bool {
        self.piece_length <= SHA1_INPUT_MAX || self.buffer.len() + len <= SHA1_INPUT_MAX
    }

    /// The state after more data has come.
    pub open spec fn updated(self, data: Seq<u8>) -> HasherState {
        HasherState {
            hashes: self.hashes + hashes_of(full_chunks(self.buffer + data, self.piece_length)),
            buffer: remainder(self.buffer + data, self.piece_length),
            ..self
        }
    }

    /// The hashes at the end of the data: what has come of a piece is the last piece, and there
    /// is at least one hash.
    pub open spec fn finished(self) -> Seq<Seq<u8>> {
        if self.buffer.len() > 0 {
            self.hashes.push(sha1(self.buffer))
        } else if self.hashes.len() == 0 {
            seq![sha1(Seq::empty())]
        } else {
            self.hashes
        }
    }
}

/// The state of a piece hasher before any data has come.
pub open spec fn fresh_hasher(piece_length: nat) -> HasherState {
    HasherState { piece_length, hashes: Seq::empty(), buffer: Seq::empty() }
}

/// Hashes the pieces of a torrent as its data comes.
pub struct PieceHasher {
    piece_length: usize,
    buffer: Vec<u8>,
    piece_hashes: Vec<Vec<u8>>,
}

impl View for PieceHasher {
    type V = HasherState;

    closed spec fn view(&self) -> HasherState {
        HasherState {
            piece_length: self.piece_length as nat,
            hashes: byte_strings(self.piece_hashes@),
            buffer: self.buffer@,
        }
    }
}

impl PieceHasher {
    /// What holds of every hasher.
    pub closed spec fn wf(self) -> bool {
        &&& self.buffer@.len() <= SHA1_INPUT_MAX
        &&& forall|i: int|
            0 <= i < self.piece_hashes@.len() ==> (#[trigger] self.piece_hashes@[i])@.len()
                == PIECE_HASH_LENGTH
    }

    /// Creates a hasher for pieces of this length.
    pub fn new(piece_length: usize) -> (hasher: Self)
        ensures
            hasher.wf(),
            hasher@ == fresh_hasher(piece_length as nat),
    {
        let hasher = PieceHasher { piece_length, buffer: Vec::new(), piece_hashes: Vec::new() };
        assert(hasher@ =~= fresh_hasher(piece_length as nat));
        hasher
    }

    /// Whether SHA-1 can hash every piece after so many more bytes.
    pub fn accepts(&self, len: usize) -> (r: bool)
        requires
            self.wf(),
        ensures
            r == self@.accepts(len as nat),
    {
        self.piece_length as u64 <= SHA1_INPUT_MAX || len as u64 <= SHA1_INPUT_MAX
            - self.buffer.len() as u64
    }

    /// Adds data, and hashes the pieces that are now complete.
    pub fn update(&mut self, data: &[u8])
        requires
            old(self).wf(),
            old(self)@.piece_length > 0,
            old(self)@.accepts(data@.len()),
        ensures
            final(self).wf(),
            final(self)@ == old(self)@.updated(data@),
    {
        let ghost before = self@;
        let ghost all = self.buffer@ + data@;
        let ghost n = self@.piece_length;
        let ghost mut done: Seq<Seq<u8>> = Seq::empty();
        append_bytes(&mut self.buffer, data);
        proof {
            assert(done + full_chunks(all, n) =~= full_chunks(all, n));
            assert(before.hashes + hashes_of(done) =~= before.hashes);
        }
        while self.buffer.len() >= self.piece_length
            invariant
                n == self.piece_length,
                n > 0,
                n <= SHA1_INPUT_MAX || self.buffer@.len() <= SHA1_INPUT_MAX,
                forall|i: int|
                    0 <= i < self.piece_hashes@.len() ==> (#[trigger] self.piece_hashes@[i])@.len()
                        == PIECE_HASH_LENGTH,
                done + full_chunks(self.buffer@, n) == full_chunks(all, n),
                remainder(self.buffer@, n) == remainder(all, n),
                byte_strings(self.piece_hashes@) == before.hashes + hashes_of(done),
            decreases self.buffer@.len(),
        {
            let ghost waiting = self.buffer@;
            let ghost hashes = byte_strings(self.piece_hashes@);
            let piece: Vec<u8> = take_front(&mut self.buffer, self.piece_length);
            let hash: Vec<u8> = sha1_digest(piece.as_slice());
            self.piece_hashes.push(hash);
            proof {
                let next = done.push(piece@);
                assert(done + full_chunks(waiting, n) =~= next + full_chunks(self.buffer@, n));
                assert(byte_strings(self.piece_hashes@) =~= hashes.push(sha1(piece@)));
                assert(hashes_of(next) =~= hashes_of(done).push(sha1(piece@)));
                assert(hashes.push(sha1(piece@)) =~= before.hashes + hashes_of(next));
                done = next;
            }
        }
        proof {
            assert(done =~= full_chunks(all, n));
            assert(self@ =~= before.updated(data@));
        }
    }

    /// Ends the data: what has come of a piece is the last piece. Returns the hashes of all
    /// pieces.
    pub fn finalize(self) -> (hashes: Vec<Vec<u8>>)
        requires
            self.wf(),
        ensures
            byte_strings(hashes@) == self@.finished(),
            forall|i: int|
                0 <= i < hashes@.len() ==> (#[trigger] hashes@[i])@.len() == PIECE_HASH_LENGTH,
    {
        let mut hashes: Vec<Vec<u8>> = self.piece_hashes;
        let ghost before = byte_strings(hashes@);
        if self.buffer.len() > 0 || hashes.len() == 0 {
            let hash: Vec<u8> = sha1_digest(self.buffer.as_slice());
            hashes.push(hash);
            proof {
                assert(byte_strings(hashes@) =~= before.push(hash@));
                if self.buffer@.len() == 0 {
                    assert(self.buffer@ =~= Seq::<u8>::empty());
                    assert(byte_strings(hashes@) =~= self@.finished());
                }
            }
        }
        hashes
    }
}

/// The state of a piece cutter is what has come of the next piece. More data gives these pieces.
pub open spec fn cut_pieces(buffer: Seq<u8>, data: Seq<u8>, piece_length: nat) -> Seq<Seq<u8>> {
    full_chunks(buffer + data, piece_length)
}

/// Cuts data into the pieces of a torrent as the data comes.
pub struct PieceCutter {
    piece_length: usize,
    buffer: Vec<u8>,
}

impl PieceCutter {
    /// The length of the pieces.
    pub closed spec fn piece_length(self) -> nat {
        self.piece_length as nat
    }

    /// What has come of the next piece.
    pub closed spec fn pending(self) -> Seq<u8> {
        self.buffer@
    }

    /// Creates a cutter for pieces of this length.
    pub fn new(piece_length: usize) -> (cutter: Self)
        ensures
            cutter.piece_length() == piece_length,
            cutter.pending() == Seq::<u8>::empty(),
    {
        PieceCutter { piece_length, buffer: Vec::new() }
    }

    /// Adds data. Returns the pieces that are now complete.
    pub fn cut(&mut self, data: &[u8]) -> (r: Vec<Vec<u8>>)
        requires
            old(self).piece_length() > 0,
        ensures
            final(self).piece_length() == old(self).piece_length(),
            byte_strings(r@) == cut_pieces(
                old(self).pending(),
                data@,
                old(self).piece_length(),
            ),
            final(self).pending() == remainder(
                old(self).pending() + data@,
                old(self).piece_length(),
            ),
    {
        let ghost all = self.buffer@ + data@;
        let ghost n = self.piece_length as nat;
        let mut complete: Vec<Vec<u8>> = Vec::new();
        append_bytes(&mut self.buffer, data);
        assert(byte_strings(complete@) + full_chunks(all, n) =~= full_chunks(all, n));
        while self.buffer.len() >= self.piece_length
            invariant
                n == self.piece_length,
                n > 0,
                byte_strings(complete@) + full_chunks(self.buffer@, n) == full_chunks(all, n),
                remainder(self.buffer@, n) == remainder(all, n),
            decreases self.buffer@.len(),
        {
            let ghost waiting = self.buffer@;
            let ghost before = byte_strings(complete@);
            let piece: Vec<u8> = take_front(&mut self.buffer, self.piece_length);
            complete.push(piece);
            proof {
                assert(byte_strings(complete@) =~= before.push(piece@));
                assert(before + full_chunks(waiting, n) =~= before.push(piece@) + full_chunks(
                    self.buffer@,
                    n,
                ));
            }
        }
        assert(byte_strings(complete@) =~= full_chunks(all, n));
        complete
    }

    /// Ends the data. Returns what has come of the last piece, if anything has.
    pub fn finish(self) -> (r: Option<Vec<u8>>)
        ensures
            match r {
                Some(piece) => piece@ == self.pending() && piece@.len() > 0,
                None => self.pending().len() == 0,
            },
    {
        if self.buffer.len() > 0 {
            Some(self.buffer)
        } else {
            None
        }
    }
}

/// The piece hashes do not depend on how the data is cut into chunks.
pub proof fn hashing_ignores_chunking(state: HasherState, a: Seq<u8>, b: Seq<u8>)
    ensures
        state.updated(a).updated(b) == state.updated(a + b),
{
    let n = state.piece_length;
    lemma_chunks_split(state.buffer + a, b, n);
    assert(state.buffer + (a + b) =~= (state.buffer + a) + b);
    let (x, y) = (
        full_chunks(state.buffer + a, n),
        full_chunks(remainder(state.buffer + a, n) + b, n),
    );
    assert(hashes_of(x + y) =~= hashes_of(x) + hashes_of(y));
    assert(state.updated(a).updated(b) =~= state.updated(a + b));
}

/// A hasher that was given all the data yields the piece hashes of the torrent.
pub proof fn hasher_yields_piece_hashes(data: Seq<u8>, piece_length: nat)
    requires
        piece_length > 0,
    ensures
        fresh_hasher(piece_length).updated(data).finished() == piece_hashes(data, piece_length),
{
    let fresh = fresh_hasher(piece_length);
    let end = fresh.updated(data);
    assert(fresh.buffer + data =~= data);
    let chunks = full_chunks(data, piece_length);
    let left = remainder(data, piece_length);
    assert(end.hashes =~= hashes_of(chunks));
    lemma_chunk_lengths(data, piece_length);
    if data.len() > 0 {
        if left.len() > 0 {
            assert(hashes_of(chunks.push(left)) =~= hashes_of(chunks).push(sha1(left)));
        } else if chunks.len() == 0 {
            assert(0 * piece_length == 0) by (nonlinear_arith);
        }
    }
}

/// Where a piece ends: so many lengths from the beginning, or where the data ends.
pub open spec fn piece_end(length: nat, piece_length: nat, i: int) -> int {
    if i * piece_length + piece_length <= length {
        i * piece_length + piece_length
    } else {
        length as int
    }
}

/// The torrent lists one hash for each piece, in their order: the hash of the bytes from so many
/// piece lengths on, up to the next, or to the end of the data. There are as many as the data
/// needs, and one for a torrent without data.
pub proof fn hashes_are_those_of_the_pieces(data: Seq<u8>, piece_length: nat)
    requires
        piece_length > 0,
    ensures
        ({
            let hashes = piece_hashes(data, piece_length);
            &&& data.len() == 0 ==> hashes == seq![sha1(data)]
            &&& data.len() > 0 ==> (hashes.len() - 1) * piece_length < data.len()
                <= hashes.len() * piece_length
            &&& forall|i: int|
                0 <= i < hashes.len() ==> #[trigger] hashes[i] == sha1(
                    data.subrange(i * piece_length, piece_end(data.len(), piece_length, i)),
                )
        }),
{
    let hashes = piece_hashes(data, piece_length);
    let n = piece_length;
    let full = full_chunks(data, n);
    let m = full.len();
    full_chunks_stand_in_place(data, n);
    assert((m + 1) * n == m * n + n && (m - 1) * n == m * n - n) by (nonlinear_arith);
    if data.len() == 0 {
        assert(data =~= Seq::<u8>::empty());
        assert(0 * n == 0) by (nonlinear_arith);
        assert(data.subrange(0, 0) =~= Seq::<u8>::empty());
    } else {
        assert forall|i: int| 0 <= i < hashes.len() implies #[trigger] hashes[i] == sha1(
            data.subrange(i * n, piece_end(data.len(), n, i)),
        ) by {
            if i < m {
                assert(pieces(data, n)[i] == full[i]);
            } else {
                assert(pieces(data, n)[i] == remainder(data, n));
                assert(remainder(data, n) =~= data.subrange((m * n) as int, data.len() as int));
            }
        }
    }
}

/// The pieces do not depend on how the data is cut into chunks: what a cutter returns for two
/// chunks is what it returns for both at once, and it is left with the same.
pub proof fn cutting_ignores_chunking(
    pending: Seq<u8>,
    a: Seq<u8>,
    b: Seq<u8>,
    piece_length: nat,
)
    ensures
        cut_pieces(pending, a + b, piece_length) == cut_pieces(pending, a, piece_length)
            + cut_pieces(remainder(pending + a, piece_length), b, piece_length),
        remainder(pending + (a + b), piece_length) == remainder(
            remainder(pending + a, piece_length) + b,
            piece_length,
        ),
{
    lemma_chunks_split(pending + a, b, piece_length);
    assert(pending + (a + b) =~= (pending + a) + b);
}

/// A piece that a cutter returns, with the number `i`, is one whose hash the torrent lists under
/// that number; the last, shorter piece too.
pub proof fn cut_pieces_match_hashes(data: Seq<u8>, piece_length: nat)
    requires
        data.len() > 0,
    ensures
        ({
            let cut = cut_pieces(Seq::empty(), data, piece_length);
            let left = remainder(Seq::<u8>::empty() + data, piece_length);
            let uploaded = if left.len() > 0 {
                cut.push(left)
            } else {
                cut
            };
            hashes_of(uploaded) == piece_hashes(data, piece_length)
        }),
{
    assert(Seq::<u8>::empty() + data =~= data);
}

} // verus!
