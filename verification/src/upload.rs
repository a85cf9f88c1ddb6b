//! Uploads. The files are encrypted twice: a first pass hashes the encrypted data for the torrent,
//! a second one cuts it into the pieces that are uploaded. Both see the same data, for they use
//! the same salts.

use vstd::prelude::*;

use crate::bencode::{byte_strings, PIECE_HASH_LENGTH};
use crate::chunks::{concat, full_chunks, lemma_chunks_split, lemma_concat_push, pieces, remainder};
use crate::crypto::{hkdf_accepts, HKDF_INPUT_MAX, KEY_LENGTH};
use crate::encrypt::{fresh_state, EncryptorState, StreamEncryptor, RECORD_OVERHEAD, RECORD_SIZE};
use crate::error::Error;
use crate::pieces::{
    fresh_hasher, hasher_yields_piece_hashes, hashing_ignores_chunking, piece_hashes, PieceCutter,
    PieceHasher,
};
use crate::roundtrip::decrypted_stream;
use crate::stream::{sealed_stream, stream_keys};
use crate::torrent::FileMetadata;

verus! {

/// The encrypted file that holds `plaintext`.
pub open spec fn encrypted_file(
    master_key: Seq<u8>,
    salt: Seq<u8>,
    plaintext: Seq<u8>,
) -> Seq<u8> {
    sealed_stream(
        stream_keys(master_key, salt),
        salt,
        RECORD_SIZE,
        (RECORD_SIZE - RECORD_OVERHEAD) as nat,
        plaintext,
    )
}

/// The encrypted files.
pub open spec fn encrypted_files(
    master_key: Seq<u8>,
    salts: Seq<Seq<u8>>,
    plaintexts: Seq<Seq<u8>>,
) -> Seq<Seq<u8>> {
    Seq::new(plaintexts.len(), |i: int| encrypted_file(master_key, salts[i], plaintexts[i]))
}

/// The data of an upload: the encrypted files, one behind the other.
pub open spec fn upload_data(
    master_key: Seq<u8>,
    salts: Seq<Seq<u8>>,
    plaintexts: Seq<Seq<u8>>,
) -> Seq<u8> {
    concat(encrypted_files(master_key, salts, plaintexts))
}

/// The meanings of salts.
pub open spec fn salts_of(salts: Seq<[u8; KEY_LENGTH]>) -> Seq<Seq<u8>> {
    Seq::new(salts.len(), |i: int| salts[i]@)
}

/// The state of a pass: the files that were encrypted, and the encryptor of the one that has been
/// begun, whose salt is the last.
pub struct PassState {
    pub master_key: Seq<u8>,
    pub piece_length: nat,
    pub salts: Seq<Seq<u8>>,
    pub plaintexts: Seq<Seq<u8>>,
    pub current: Option<EncryptorState>,
}

impl PassState {
    /// The encrypted data so far.
    pub open spec fn data(self) -> Seq<u8> {
        upload_data(self.master_key, self.salts, self.plaintexts) + match self.current {
            Some(encryptor) => encryptor.history->0.ciphertext,
            None => Seq::empty(),
        }
    }

    /// Whether the pieces can still be hashed after more encrypted data.
    pub open spec fn can_hash(self, output: Seq<u8>) -> bool {
        fresh_hasher(self.piece_length).updated(self.data()).accepts(output.len())
    }

    /// What holds of every state.
    pub open spec fn valid(self) -> bool {
        match self.current {
            None => self.salts.len() == self.plaintexts.len(),
            Some(encryptor) => {
                &&& self.salts.len() == self.plaintexts.len() + 1
                &&& self.salts.last() == encryptor.salt
                &&& encryptor.record_size == RECORD_SIZE
                &&& !encryptor.finished
                &&& encryptor.history is Some
                &&& encryptor.history->0.master_key == self.master_key
            },
        }
    }

    /// The state with a file begun.
    pub open spec fn begun(self, salt: Seq<u8>) -> PassState {
        PassState {
            salts: self.salts.push(salt),
            current: Some(fresh_state(self.master_key, RECORD_SIZE, salt)),
            ..self
        }
    }

    /// The state after the current file was given more plaintext.
    pub open spec fn fed(self, data: Seq<u8>) -> PassState {
        PassState { current: Some(self.current->0.update_state(data)), ..self }
    }

    /// The state after the current file was ended.
    pub open spec fn ended(self) -> PassState {
        PassState {
            plaintexts: self.plaintexts.push(self.current->0.history->0.plaintext),
            current: None,
            ..self
        }
    }
}

/// The state before any file was begun.
pub open spec fn fresh_pass(master_key: Seq<u8>, piece_length: nat) -> PassState {
    PassState {
        master_key,
        piece_length,
        salts: Seq::empty(),
        plaintexts: Seq::empty(),
        current: None,
    }
}

/// One more encrypted file stands behind those before it; a salt without a file changes nothing.
proof fn lemma_upload_data_push(
    master_key: Seq<u8>,
    salts: Seq<Seq<u8>>,
    plaintexts: Seq<Seq<u8>>,
    salt: Seq<u8>,
    plaintext: Seq<u8>,
)
    requires
        salts.len() == plaintexts.len(),
    ensures
        upload_data(master_key, salts.push(salt), plaintexts) == upload_data(
            master_key,
            salts,
            plaintexts,
        ),
        upload_data(master_key, salts.push(salt), plaintexts.push(plaintext)) == upload_data(
            master_key,
            salts,
            plaintexts,
        ) + encrypted_file(master_key, salt, plaintext),
        encrypted_files(master_key, salts.push(salt), plaintexts.push(plaintext))
            == encrypted_files(master_key, salts, plaintexts).push(
            encrypted_file(master_key, salt, plaintext),
        ),
{
    let files = encrypted_files(master_key, salts, plaintexts);
    let file = encrypted_file(master_key, salt, plaintext);
    assert(encrypted_files(master_key, salts.push(salt), plaintexts) =~= files);
    assert(encrypted_files(master_key, salts.push(salt), plaintexts.push(plaintext)) =~= files.push(
        file,
    ));
    lemma_concat_push(files, file);
}

/// Beginning, feeding and ending a file adds to the data what the encryptor hands out.
proof fn lemma_pass_data(state: PassState)
    requires
        state.valid(),
    ensures
        forall|salt: Seq<u8>|
            state.current is None ==> (#[trigger] state.begun(salt)).data() == state.data(),
        forall|data: Seq<u8>|
            state.current is Some && state.current->0.update_result(data) is Ok ==> (
            #[trigger] state.fed(data)).data() == state.data() + state.current->0.update_result(
                data,
            )->Ok_0,
        (state.current is Some && state.current->0.finalize_result() is Ok
            && state.current->0.finalize_state().consistent()) ==> state.ended().data()
            == state.data() + state.current->0.finalize_result()->Ok_0,
{
    assert forall|salt: Seq<u8>| state.current is None implies (#[trigger] state.begun(salt)).data()
        == state.data() by {
        lemma_upload_data_push(
            state.master_key,
            state.salts,
            state.plaintexts,
            salt,
            Seq::empty(),
        );
        assert(state.begun(salt).data() =~= state.data());
    }
    assert forall|data: Seq<u8>|
        state.current is Some && state.current->0.update_result(data) is Ok implies (
    #[trigger] state.fed(data)).data() == state.data() + state.current->0.update_result(
        data,
    )->Ok_0 by {
        assert(state.fed(data).data() =~= state.data() + state.current->0.update_result(
            data,
        )->Ok_0);
    }
    if state.current is Some && state.current->0.finalize_result() is Ok
        && state.current->0.finalize_state().consistent() {
        let encryptor = state.current->0;
        let h = encryptor.history->0;
        let salts = state.salts.drop_last();
        assert(salts.push(encryptor.salt) =~= state.salts);
        lemma_upload_data_push(
            state.master_key,
            salts,
            state.plaintexts,
            encryptor.salt,
            h.plaintext,
        );
        let end = encryptor.finalize_state();
        assert(h.plaintext + Seq::<u8>::empty() =~= h.plaintext);
        assert(end.history->0.ciphertext == encrypted_file(
            state.master_key,
            encryptor.salt,
            h.plaintext,
        ));
        assert(state.ended().data() =~= state.data() + encryptor.finalize_result()->Ok_0);
    }
}

/// Ending a file adds its encrypted length to that of the data.
proof fn lemma_file_ended(state: PassState)
    requires
        state.valid(),
        state.current is Some,
        state.current->0.finalize_result() is Ok,
        state.current->0.finalize_state().consistent(),
    ensures
        ({
            let encryptor = state.current->0;
            let output = encryptor.finalize_result()->Ok_0;
            let h = encryptor.history->0;
            let file = encrypted_file(state.master_key, encryptor.salt, h.plaintext);
            let end = encryptor.finalize_state().history->0;
            &&& state.ended().valid()
            &&& state.ended().data() == state.data() + output
            &&& state.ended().data() == upload_data(
                state.master_key,
                state.salts,
                state.plaintexts,
            ) + file
            &&& state.ended().data() == upload_data(
                state.master_key,
                state.salts,
                state.ended().plaintexts,
            )
            &&& file.len() == h.ciphertext.len() + output.len()
            &&& end.ciphertext == file
            &&& end.plaintext == h.plaintext
        }),
{
    let encryptor = state.current->0;
    let h = encryptor.history->0;
    let salts = state.salts.drop_last();
    lemma_pass_data(state);
    assert(salts.push(encryptor.salt) =~= state.salts);
    lemma_upload_data_push(state.master_key, salts, state.plaintexts, encryptor.salt, h.plaintext);
    assert(h.plaintext + Seq::<u8>::empty() =~= h.plaintext);
    assert(state.ended().data() =~= upload_data(
        state.master_key,
        state.salts,
        state.ended().plaintexts,
    ));
}

/// One more file matches too.
proof fn lemma_files_match_push(
    state: PassState,
    files: Seq<FileMetadata>,
    file: FileMetadata,
)
    requires
        state.valid(),
        state.current is Some,
        files_match(state.master_key, state.salts, state.plaintexts, files),
        ({
            let plaintext = state.current->0.history->0.plaintext;
            let stream = encrypted_file(state.master_key, state.current->0.salt, plaintext);
            &&& file.encrypted_length == stream.len()
            &&& plaintext.len() <= usize::MAX ==> decrypted_stream(state.master_key, stream)
                == Ok::<Seq<u8>, Error>(plaintext)
        }),
    ensures
        files_match(
            state.master_key,
            state.salts,
            state.ended().plaintexts,
            files.push(file),
        ),
{
    let plaintexts = state.ended().plaintexts;
    let all = files.push(file);
    assert forall|i: int| 0 <= i < all.len() implies {
        let stream = encrypted_file(state.master_key, state.salts[i], plaintexts[i]);
        &&& (#[trigger] all[i]).encrypted_length == stream.len()
        &&& plaintexts[i].len() <= usize::MAX ==> decrypted_stream(state.master_key, stream)
            == Ok::<Seq<u8>, Error>(plaintexts[i])
    } by {
        if i < files.len() {
            assert(all[i] == files[i]);
            assert(plaintexts[i] == state.plaintexts[i]);
        }
    }
}

/// What the first pass has found out: the files of the torrent, the salts that they were encrypted
/// with, the hashes of the pieces and the length of the data.
pub struct HashedUpload {
    pub files: Vec<FileMetadata>,
    pub salts: Vec<[u8; KEY_LENGTH]>,
    pub piece_hashes: Vec<Vec<u8>>,
    pub total_size: usize,
}

/// The first pass: encrypts the files in turn and hashes the pieces of the encrypted data.
pub struct HashingPass {
    master_key: Vec<u8>,
    piece_hasher: PieceHasher,
    files: Vec<FileMetadata>,
    salts: Vec<[u8; KEY_LENGTH]>,
    total_size: usize,
    current_path: String,
    current_size: usize,
    encryptor: Option<StreamEncryptor>,
    plaintexts: Ghost<Seq<Seq<u8>>>,
}

impl View for HashingPass {
    type V = PassState;

    closed spec fn view(&self) -> PassState {
        PassState {
            master_key: self.master_key@,
            piece_length: self.piece_hasher@.piece_length,
            salts: salts_of(self.salts@),
            plaintexts: self.plaintexts@,
            current: match self.encryptor {
                Some(encryptor) => Some(encryptor@),
                None => None,
            },
        }
    }
}

/// Whether the files have the lengths of the encrypted files, and decrypt to their plaintexts.
pub open spec fn files_match(
    master_key: Seq<u8>,
    salts: Seq<Seq<u8>>,
    plaintexts: Seq<Seq<u8>>,
    files: Seq<FileMetadata>,
) -> bool {
    &&& files.len() == plaintexts.len()
    &&& forall|i: int|
        0 <= i < files.len() ==> {
            let file = encrypted_file(master_key, salts[i], plaintexts[i]);
            &&& (#[trigger] files[i]).encrypted_length == file.len()
            &&& plaintexts[i].len() <= usize::MAX ==> decrypted_stream(master_key, file) == Ok::<
                Seq<u8>,
                Error,
            >(plaintexts[i])
        }
}

impl HashingPass {
    /// The files that were encrypted.
    pub closed spec fn listed(self) -> Seq<FileMetadata> {
        self.files@
    }

    /// The path of the current file.
    pub closed spec fn path(self) -> String {
        self.current_path
    }

    /// What holds of every pass.
    pub closed spec fn wf(self) -> bool {
        &&& self@.valid()
        &&& self@.piece_length > 0
        &&& self.piece_hasher.wf()
        &&& self.piece_hasher@ == fresh_hasher(self@.piece_length).updated(self@.data())
        &&& files_match(self.master_key@, self@.salts, self.plaintexts@, self.files@)
        &&& self.total_size == upload_data(
            self.master_key@,
            self@.salts,
            self.plaintexts@,
        ).len()
        &&& self.encryptor matches Some(encryptor) ==> {
            &&& encryptor.wf()
            &&& self.current_size == encryptor@.history->0.ciphertext.len()
        }
    }

    /// Begins a pass with pieces of this length.
    pub fn new(master_key: Vec<u8>, piece_length: usize) -> (pass: Self)
        requires
            0 < piece_length,
        ensures
            pass.wf(),
            pass@ == fresh_pass(master_key@, piece_length as nat),
            pass.listed() == Seq::<FileMetadata>::empty(),
    {
        let pass = HashingPass {
            master_key,
            piece_hasher: PieceHasher::new(piece_length),
            files: Vec::new(),
            salts: Vec::new(),
            total_size: 0,
            current_path: String::new(),
            current_size: 0,
            encryptor: None,
            plaintexts: Ghost(Seq::empty()),
        };
        proof {
            assert(pass@.salts =~= Seq::<Seq<u8>>::empty());
            assert(encrypted_files(master_key@, pass@.salts, pass@.plaintexts) =~= Seq::<
                Seq<u8>,
            >::empty());
            let fresh = fresh_hasher(piece_length as nat);
            assert(pass@.data() =~= Seq::<u8>::empty());
            assert(fresh.buffer + Seq::<u8>::empty() =~= Seq::<u8>::empty());
            assert(fresh.updated(Seq::empty()) =~= fresh);
        }
        pass
    }

    /// Begins the next file, with a random salt.
    pub fn begin_file(self, path: String) -> (r: Result<Self, Error>)
        requires
            self.wf(),
            self@.current is None,
        ensures
            match r {
                Ok(next) => {
                    &&& next.wf()
                    &&& next@.salts.last().len() == KEY_LENGTH
                    &&& next@ == self@.begun(next@.salts.last())
                    &&& next.listed() == self.listed()
                    &&& next.path() == path
                    &&& self@.master_key.len() <= HKDF_INPUT_MAX
                },
                Err(e) => e == Error::KeyDerivation && self@.master_key.len() > HKDF_INPUT_MAX,
            },
    {
        let mut next: HashingPass = self;
        let encryptor: StreamEncryptor = match StreamEncryptor::new(
            next.master_key.as_slice(),
            RECORD_SIZE,
        ) {
            Ok(encryptor) => encryptor,
            Err(e) => {
                return Err(e);
            },
        };
        let salt: [u8; KEY_LENGTH] = encryptor.salt();
        next.salts.push(salt);
        next.current_path = path;
        next.current_size = 0;
        next.encryptor = Some(encryptor);
        proof {
            lemma_pass_data(self@);
            assert(next@.salts =~= self@.salts.push(salt@));
            assert(next@ == self@.begun(salt@));
            lemma_upload_data_push(
                self@.master_key,
                self@.salts,
                self@.plaintexts,
                salt@,
                Seq::empty(),
            );
        }
        Ok(next)
    }

    /// Gives the current file more plaintext.
    pub fn update(self, data: &[u8]) -> (r: Result<Self, Error>)
        requires
            self.wf(),
            self@.current is Some,
        ensures
            match r {
                Ok(next) => {
                    &&& next.wf()
                    &&& self@.current->0.update_result(data@) is Ok
                    &&& self@.can_hash(self@.current->0.update_result(data@)->Ok_0)
                    &&& self@.fed(data@).current->0.history->0.ciphertext.len() <= usize::MAX
                    &&& next@ == self@.fed(data@)
                    &&& next.listed() == self.listed()
                    &&& next.path() == self.path()
                },
                Err(e) => {
                    ||| self@.current->0.update_result(data@) == Err::<Seq<u8>, Error>(e)
                    ||| e == Error::StreamTooLong && self@.current->0.update_result(data@) is Ok
                        && (self@.fed(data@).current->0.history->0.ciphertext.len() > usize::MAX
                        || !self@.can_hash(self@.current->0.update_result(data@)->Ok_0))
                },
            },
    {
        let mut next: HashingPass = self;
        match next.encryptor.take() {
            Some(mut encryptor) => {
                let encrypted: Vec<u8> = match encryptor.update(data) {
                    Ok(encrypted) => encrypted,
                    Err(e) => {
                        return Err(e);
                    },
                };
                next.current_size = match next.current_size.checked_add(encrypted.len()) {
                    Some(size) => size,
                    None => {
                        return Err(Error::StreamTooLong);
                    },
                };
                if !next.piece_hasher.accepts(encrypted.len()) {
                    return Err(Error::StreamTooLong);
                }
                next.piece_hasher.update(encrypted.as_slice());
                next.encryptor = Some(encryptor);
                proof {
                    lemma_pass_data(self@);
                    hashing_ignores_chunking(
                        fresh_hasher(self@.piece_length),
                        self@.data(),
                        encrypted@,
                    );
                    assert(next@ == self@.fed(data@));
                }
                Ok(next)
            },
            None => Ok(next),
        }
    }

    /// Ends the current file, and lists it with its encrypted length.
    pub fn end_file(self) -> (r: Result<Self, Error>)
        requires
            self.wf(),
            self@.current is Some,
        ensures
            match r {
                Ok(next) => {
                    &&& next.wf()
                    &&& self@.current->0.finalize_result() is Ok
                    &&& self@.can_hash(self@.current->0.finalize_result()->Ok_0)
                    &&& self@.ended().data().len() <= usize::MAX
                    &&& next@ == self@.ended()
                    &&& next.listed().drop_last() == self.listed()
                    &&& next.listed().len() == self.listed().len() + 1
                    &&& next.listed().last().path == self.path()
                    &&& next.listed().last().encrypted_length == encrypted_file(
                        self@.master_key,
                        self@.current->0.salt,
                        self@.current->0.history->0.plaintext,
                    ).len()
                },
                Err(e) => {
                    ||| self@.current->0.finalize_result() == Err::<Seq<u8>, Error>(e)
                    ||| e == Error::StreamTooLong && self@.current->0.finalize_result() is Ok
                        && (self@.ended().data().len() > usize::MAX || !self@.can_hash(
                        self@.current->0.finalize_result()->Ok_0,
                    ))
                },
            },
    {
        let mut next: HashingPass = self;
        match next.encryptor.take() {
            Some(mut encryptor) => {
                let ghost before = encryptor@;
                let encrypted: Vec<u8> = match encryptor.finalize() {
                    Ok(encrypted) => encrypted,
                    Err(e) => {
                        return Err(e);
                    },
                };
                proof {
                    encryptor.lemma_consistent();
                    lemma_file_ended(self@);
                    hashing_ignores_chunking(
                        fresh_hasher(self@.piece_length),
                        self@.data(),
                        encrypted@,
                    );
                }
                let size: usize = match next.current_size.checked_add(encrypted.len()) {
                    Some(size) => size,
                    None => {
                        return Err(Error::StreamTooLong);
                    },
                };
                next.total_size = match next.total_size.checked_add(size) {
                    Some(total) => total,
                    None => {
                        return Err(Error::StreamTooLong);
                    },
                };
                if !next.piece_hasher.accepts(encrypted.len()) {
                    return Err(Error::StreamTooLong);
                }
                next.piece_hasher.update(encrypted.as_slice());
                let mut path: String = String::new();
                std::mem::swap(&mut path, &mut next.current_path);
                next.files.push(FileMetadata { path, encrypted_length: size });
                next.plaintexts = Ghost(
                    self@.plaintexts.push(before.history->0.plaintext),
                );
                proof {
                    assert(next@ == self@.ended());
                    assert(next.files@.drop_last() =~= self.files@);
                    lemma_files_match_push(self@, self.files@, next.files@.last());
                    assert(next.files@ =~= self.files@.push(next.files@.last()));
                }
                Ok(next)
            },
            None => Ok(next),
        }
    }

    /// Ends the pass. The hashes are those of the pieces of the encrypted files, one behind the
    /// other; each file decrypts to its plaintext.
    pub fn finish(self) -> (hashed: HashedUpload)
        requires
            self.wf(),
            self@.current is None,
        ensures
            hashed.files@ == self.listed(),
            salts_of(hashed.salts@) == self@.salts,
            hashed.salts@.len() == hashed.files@.len(),
            byte_strings(hashed.piece_hashes@) == piece_hashes(
                upload_data(self@.master_key, self@.salts, self@.plaintexts),
                self@.piece_length,
            ),
            forall|i: int|
                0 <= i < hashed.piece_hashes@.len() ==> (#[trigger] hashed.piece_hashes@[i])@.len()
                    == PIECE_HASH_LENGTH,
            hashed.total_size == upload_data(
                self@.master_key,
                self@.salts,
                self@.plaintexts,
            ).len(),
            files_match(self@.master_key, self@.salts, self@.plaintexts, hashed.files@),
    {
        proof {
            let data = upload_data(self@.master_key, self@.salts, self@.plaintexts);
            assert(self@.data() =~= data);
            hasher_yields_piece_hashes(data, self@.piece_length);
            assert(salts_of(self.salts@).len() == self.salts@.len());
        }
        HashedUpload {
            files: self.files,
            salts: self.salts,
            piece_hashes: self.piece_hasher.finalize(),
            total_size: self.total_size,
        }
    }
}

/// The second pass: encrypts the files in turn, with the salts of the first pass, and cuts the
/// encrypted data into pieces.
pub struct EncryptingPass {
    master_key: Vec<u8>,
    cutter: PieceCutter,
    encryptor: Option<StreamEncryptor>,
    salts: Ghost<Seq<Seq<u8>>>,
    plaintexts: Ghost<Seq<Seq<u8>>>,
    cut: Ghost<Seq<Seq<u8>>>,
}

impl View for EncryptingPass {
    type V = PassState;

    closed spec fn view(&self) -> PassState {
        PassState {
            master_key: self.master_key@,
            piece_length: self.cutter.piece_length(),
            salts: self.salts@,
            plaintexts: self.plaintexts@,
            current: match self.encryptor {
                Some(encryptor) => Some(encryptor@),
                None => None,
            },
        }
    }
}

impl EncryptingPass {
    /// The pieces that were handed out.
    pub closed spec fn handed_out(self) -> Seq<Seq<u8>> {
        self.cut@
    }

    /// What holds of every pass: the complete pieces of the data were handed out, and the rest
    /// waits.
    pub closed spec fn wf(self) -> bool {
        &&& self@.valid()
        &&& self@.piece_length > 0
        &&& self.cut@ == full_chunks(self@.data(), self@.piece_length)
        &&& self.cutter.pending() == remainder(self@.data(), self@.piece_length)
        &&& self.encryptor matches Some(encryptor) ==> encryptor.wf()
    }

    /// Begins a pass with pieces of this length.
    pub fn new(master_key: Vec<u8>, piece_length: usize) -> (pass: Self)
        requires
            0 < piece_length,
        ensures
            pass.wf(),
            pass@ == fresh_pass(master_key@, piece_length as nat),
            pass.handed_out() == Seq::<Seq<u8>>::empty(),
    {
        let pass = EncryptingPass {
            master_key,
            cutter: PieceCutter::new(piece_length),
            encryptor: None,
            salts: Ghost(Seq::empty()),
            plaintexts: Ghost(Seq::empty()),
            cut: Ghost(Seq::empty()),
        };
        proof {
            assert(encrypted_files(master_key@, pass@.salts, pass@.plaintexts) =~= Seq::<
                Seq<u8>,
            >::empty());
            assert(pass@.data() =~= Seq::<u8>::empty());
        }
        pass
    }

    /// Begins the next file, with the salt that it was hashed with.
    pub fn begin_file(self, salt: [u8; KEY_LENGTH]) -> (r: Result<Self, Error>)
        requires
            self.wf(),
            self@.current is None,
        ensures
            match r {
                Ok(next) => {
                    &&& next.wf()
                    &&& next@ == self@.begun(salt@)
                    &&& next.handed_out() == self.handed_out()
                    &&& hkdf_accepts(self@.master_key, salt@)
                },
                Err(e) => e == Error::KeyDerivation && !hkdf_accepts(self@.master_key, salt@),
            },
    {
        let mut next: EncryptingPass = self;
        let encryptor: StreamEncryptor = match StreamEncryptor::new_with_salt(
            next.master_key.as_slice(),
            RECORD_SIZE,
            salt,
        ) {
            Ok(encryptor) => encryptor,
            Err(e) => {
                return Err(e);
            },
        };
        next.encryptor = Some(encryptor);
        next.salts = Ghost(self@.salts.push(salt@));
        proof {
            lemma_pass_data(self@);
            assert(next@ == self@.begun(salt@));
        }
        Ok(next)
    }

    /// Gives the current file more plaintext. Returns the pieces that are now complete.
    pub fn update(self, data: &[u8]) -> (r: Result<(Self, Vec<Vec<u8>>), Error>)
        requires
            self.wf(),
            self@.current is Some,
        ensures
            match r {
                Ok((next, complete)) => {
                    &&& next.wf()
                    &&& self@.current->0.update_result(data@) is Ok
                    &&& next@ == self@.fed(data@)
                    &&& next.handed_out() == self.handed_out() + byte_strings(complete@)
                },
                Err(e) => self@.current->0.update_result(data@) == Err::<Seq<u8>, Error>(e),
            },
    {
        let mut next: EncryptingPass = self;
        match next.encryptor.take() {
            Some(mut encryptor) => {
                let encrypted: Vec<u8> = match encryptor.update(data) {
                    Ok(encrypted) => encrypted,
                    Err(e) => {
                        return Err(e);
                    },
                };
                let complete: Vec<Vec<u8>> = next.cutter.cut(encrypted.as_slice());
                next.encryptor = Some(encryptor);
                next.cut = Ghost(self.cut@ + byte_strings(complete@));
                proof {
                    lemma_pass_data(self@);
                    lemma_chunks_split(self@.data(), encrypted@, self@.piece_length);
                    assert(next@ == self@.fed(data@));
                }
                Ok((next, complete))
            },
            None => Ok((next, Vec::new())),
        }
    }

    /// Ends the current file. Returns the pieces that are now complete.
    pub fn end_file(self) -> (r: Result<(Self, Vec<Vec<u8>>), Error>)
        requires
            self.wf(),
            self@.current is Some,
        ensures
            match r {
                Ok((next, complete)) => {
                    &&& next.wf()
                    &&& self@.current->0.finalize_result() is Ok
                    &&& next@ == self@.ended()
                    &&& next.handed_out() == self.handed_out() + byte_strings(complete@)
                },
                Err(e) => self@.current->0.finalize_result() == Err::<Seq<u8>, Error>(e),
            },
    {
        let mut next: EncryptingPass = self;
        match next.encryptor.take() {
            Some(mut encryptor) => {
                let ghost before = encryptor@;
                let encrypted: Vec<u8> = match encryptor.finalize() {
                    Ok(encrypted) => encrypted,
                    Err(e) => {
                        return Err(e);
                    },
                };
                let complete: Vec<Vec<u8>> = next.cutter.cut(encrypted.as_slice());
                next.plaintexts = Ghost(
                    self@.plaintexts.push(before.history->0.plaintext),
                );
                next.cut = Ghost(self.cut@ + byte_strings(complete@));
                proof {
                    encryptor.lemma_consistent();
                    lemma_file_ended(self@);
                    lemma_chunks_split(self@.data(), encrypted@, self@.piece_length);
                    assert(next@ == self@.ended());
                }
                Ok((next, complete))
            },
            None => Ok((next, Vec::new())),
        }
    }

    /// Ends the pass. Returns the last piece if it is shorter than the others. With it, the pieces
    /// that were handed out are those of the encrypted files, one behind the other.
    pub fn finish(self) -> (last: Option<Vec<u8>>)
        requires
            self.wf(),
            self@.current is None,
        ensures
            pieces(
                upload_data(self@.master_key, self@.salts, self@.plaintexts),
                self@.piece_length,
            ) == match last {
                Some(piece) => self.handed_out().push(piece@),
                None => self.handed_out(),
            },
    {
        proof {
            assert(self@.data() =~= upload_data(
                self@.master_key,
                self@.salts,
                self@.plaintexts,
            ));
        }
        self.cutter.finish()
    }
}

} // verus!
