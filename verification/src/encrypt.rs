//! Encryption: streams in the `aes128gcm` content encoding, record by record, and metadata.

use vstd::prelude::*;

use crate::chunks::{append_bytes, lead_chunks, lemma_lead_split, last_chunk, take_front};
use crate::crypto::{
    aes128gcm_iv16_open, aes128gcm_iv16_seal, derive_content_key, derive_nonce_base, gcm_iv16_seal,
    gcm_seal, generate_nonce, hkdf_accepts, metadata_opened, random_bytes, to_be_bytes, KEY_LENGTH,
    MESSAGE_MAX, NONCE_LENGTH, TAG_LENGTH,
};
use crate::error::{seq_of, Error};
use crate::roundtrip::{decrypted_stream, decryption_inverts_encryption};
use crate::stream_laws::{is_laid_out, stream_has_its_records};
use crate::stream::{
    lemma_sealed_records_add, padded, record_opens, records_open, sealed_record, sealed_records,
    sealed_stream, stream_header, stream_keys, stream_opens, StreamKeys,
};

verus! {

/// Default record size (64 KiB).
pub const RECORD_SIZE: usize = 65536;

/// What a record adds to its data: the delimiter and the tag.
pub const RECORD_OVERHEAD: usize = 17;

/// Whether a stream with this record size can hold so many bytes and be decrypted: the header has
/// room for the record size, the records have room for data unless there is none, and the bytes
/// can be counted.
pub open spec fn fits_stream(record_size: usize, length: nat) -> bool {
    &&& RECORD_OVERHEAD <= record_size <= u32::MAX
    &&& record_size == RECORD_OVERHEAD ==> length == 0
    &&& length <= usize::MAX
}

/// The plaintext that an encryptor was given, and the ciphertext that it handed out.
pub struct EncryptorHistory {
    pub master_key: Seq<u8>,
    pub plaintext: Seq<u8>,
    pub ciphertext: Seq<u8>,
}

/// The state of an encryptor. The history is lost when a call fails, for then bytes are lost.
pub struct EncryptorState {
    pub keys: StreamKeys,
    pub salt: Seq<u8>,
    pub record_size: usize,
    pub seq: nat,
    pub buffer: Seq<u8>,
    pub header_emitted: bool,
    pub finished: bool,
    pub history: Option<EncryptorHistory>,
}

impl EncryptorState {
    /// How many bytes of data a record holds.
    pub open spec fn per_record(self) -> nat {
        (self.record_size - RECORD_OVERHEAD) as nat
    }

    /// The header, if it has not been handed out yet.
    pub open spec fn pending_header(self) -> Seq<u8> {
        if self.header_emitted {
            Seq::empty()
        } else {
            stream_header(self.salt, self.record_size)
        }
    }

    /// The history with one more exchange.
    pub open spec fn extended_history(self, plaintext: Seq<u8>, ciphertext: Seq<u8>) -> Option<
        EncryptorHistory,
    > {
        match self.history {
            Some(h) => Some(
                EncryptorHistory {
                    master_key: h.master_key,
                    plaintext: h.plaintext + plaintext,
                    ciphertext: h.ciphertext + ciphertext,
                },
            ),
            None => None,
        }
    }

    /// The chunks that become records when `chunk` is added: those that have more data behind
    /// them, for the last one waits to be marked as last.
    pub open spec fn ready_chunks(self, chunk: Seq<u8>) -> Seq<Seq<u8>> {
        lead_chunks(self.buffer + chunk, self.per_record())
    }

    /// What adding `chunk` returns: the header if it is still due, then the records that are now
    /// complete.
    pub open spec fn update_result(self, chunk: Seq<u8>) -> Result<Seq<u8>, Error> {
        let ready = self.ready_chunks(chunk);
        if self.finished {
            Err(Error::AlreadyFinalized)
        } else if ready.len() > 0 && self.per_record() + 1 > MESSAGE_MAX {
            Err(Error::RecordEncryption)
        } else if ready.len() > 0 && self.seq + ready.len() > u32::MAX {
            Err(Error::StreamTooLong)
        } else {
            Ok(self.pending_header() + sealed_records(self.keys, self.seq, ready))
        }
    }

    /// The state after `chunk` was added. A record that cannot be encrypted leaves the buffer, and
    /// so do those that were encrypted before it. A stream that has become too long has used up
    /// its numbers, so that no record of it is handed out any more.
    pub open spec fn update_state(self, chunk: Seq<u8>) -> EncryptorState {
        let data = self.buffer + chunk;
        match self.update_result(chunk) {
            Ok(output) => EncryptorState {
                seq: self.seq + self.ready_chunks(chunk).len(),
                buffer: last_chunk(data, self.per_record()),
                header_emitted: true,
                history: self.extended_history(chunk, output),
                ..self
            },
            Err(Error::AlreadyFinalized) => self,
            Err(Error::StreamTooLong) => EncryptorState {
                seq: u32::MAX as nat,
                buffer: data.skip((u32::MAX - self.seq + 1) * self.per_record()),
                header_emitted: true,
                history: None,
                ..self
            },
            Err(_) => EncryptorState {
                buffer: data.skip(self.per_record() as int),
                header_emitted: true,
                history: None,
                ..self
            },
        }
    }

    /// What finalizing returns: the header if it is still due, then the last record.
    pub open spec fn finalize_result(self) -> Result<Seq<u8>, Error> {
        if self.finished {
            Err(Error::AlreadyFinalized)
        } else if self.buffer.len() + 1 > MESSAGE_MAX {
            Err(Error::RecordEncryption)
        } else if self.seq >= u32::MAX {
            Err(Error::StreamTooLong)
        } else {
            Ok(self.pending_header() + sealed_record(self.keys, self.seq, self.buffer, true))
        }
    }

    /// The state after finalizing.
    pub open spec fn finalize_state(self) -> EncryptorState {
        match self.finalize_result() {
            Ok(output) => EncryptorState {
                seq: self.seq + 1,
                buffer: Seq::empty(),
                header_emitted: true,
                finished: true,
                history: self.extended_history(Seq::empty(), output),
                ..self
            },
            Err(Error::AlreadyFinalized) => self,
            Err(_) => EncryptorState {
                buffer: Seq::empty(),
                header_emitted: true,
                history: None,
                ..self
            },
        }
    }

    /// How the history explains the state: what was handed out is the stream of the plaintext so
    /// far, and every record of it opens again.
    pub open spec fn consistent(self) -> bool {
        self.history matches Some(h) ==> {
            let chunks = lead_chunks(h.plaintext, self.per_record());
            &&& hkdf_accepts(h.master_key, self.salt)
            &&& self.keys == stream_keys(h.master_key, self.salt)
            &&& if self.finished {
                &&& h.ciphertext == sealed_stream(
                    self.keys,
                    self.salt,
                    self.record_size,
                    self.per_record(),
                    h.plaintext,
                )
                &&& stream_opens(self.keys, self.per_record(), h.plaintext)
                &&& chunks.len() < u32::MAX
            } else {
                &&& h.ciphertext + self.pending_header() == stream_header(
                    self.salt,
                    self.record_size,
                ) + sealed_records(self.keys, 0, chunks)
                &&& records_open(self.keys, 0, chunks)
                &&& self.seq == chunks.len()
                &&& self.buffer == last_chunk(h.plaintext, self.per_record())
            }
        }
    }
}

/// Streaming encryptor for the `aes128gcm` content encoding. It encrypts data piece by piece, as
/// the data comes.
pub struct StreamEncryptor {
    content_key: Vec<u8>,
    nonce_base: Vec<u8>,
    record_size: usize,
    max_plaintext_per_record: usize,
    seq: u32,
    buffer: Vec<u8>,
    header_emitted: bool,
    finished: bool,
    salt: [u8; KEY_LENGTH],
    history: Ghost<Option<EncryptorHistory>>,
}

impl View for StreamEncryptor {
    type V = EncryptorState;

    closed spec fn view(&self) -> EncryptorState {
        EncryptorState {
            keys: StreamKeys { content_key: self.content_key@, nonce_base: self.nonce_base@ },
            salt: self.salt@,
            record_size: self.record_size,
            seq: self.seq as nat,
            buffer: self.buffer@,
            header_emitted: self.header_emitted,
            finished: self.finished,
            history: self.history@,
        }
    }
}

impl StreamEncryptor {
    /// What holds of every encryptor.
    pub closed spec fn wf(self) -> bool {
        &&& self.content_key@.len() == KEY_LENGTH
        &&& self.nonce_base@.len() == NONCE_LENGTH
        &&& self.record_size == self.max_plaintext_per_record + RECORD_OVERHEAD
        &&& self@.consistent()
    }

    /// The state of every encryptor is explained by its history, and its salt has the length of a
    /// key.
    pub proof fn lemma_consistent(&self)
        requires
            self.wf(),
        ensures
            self@.consistent(),
            self@.salt.len() == KEY_LENGTH,
    {
    }

    /// Creates an encryptor with a random salt.
    pub fn new(master_key: &[u8], record_size: usize) -> (r: Result<Self, Error>)
        requires
            record_size >= RECORD_OVERHEAD,
        ensures
            match r {
                Ok(encryptor) => encryptor.wf() && encryptor@ == fresh_state(
                    master_key@,
                    record_size,
                    encryptor@.salt,
                ) && encryptor@.salt.len() == KEY_LENGTH && master_key@.len()
                    <= crate::crypto::HKDF_INPUT_MAX,
                Err(e) => e == Error::KeyDerivation && master_key@.len()
                    > crate::crypto::HKDF_INPUT_MAX,
            },
    {
        let salt: [u8; 16] = random_bytes();
        Self::new_with_salt(master_key, record_size, salt)
    }

    /// Creates an encryptor with the given salt. Two encryptors with one salt encrypt the same
    /// data to the same bytes.
    pub fn new_with_salt(master_key: &[u8], record_size: usize, salt: [u8; KEY_LENGTH]) -> (r:
        Result<Self, Error>)
        requires
            record_size >= RECORD_OVERHEAD,
        ensures
            match r {
                Ok(encryptor) => encryptor.wf() && encryptor@ == fresh_state(
                    master_key@,
                    record_size,
                    salt@,
                ) && hkdf_accepts(master_key@, salt@),
                Err(e) => e == Error::KeyDerivation && !hkdf_accepts(master_key@, salt@),
            },
    {
        let content_key: Vec<u8> = match derive_content_key(master_key, salt.as_slice()) {
            Ok(key) => key,
            Err(e) => {
                return Err(e);
            },
        };
        let nonce_base: Vec<u8> = match derive_nonce_base(master_key, salt.as_slice()) {
            Ok(base) => base,
            Err(e) => {
                return Err(e);
            },
        };
        let ghost history = EncryptorHistory {
            master_key: master_key@,
            plaintext: Seq::empty(),
            ciphertext: Seq::empty(),
        };
        let encryptor = StreamEncryptor {
            content_key,
            nonce_base,
            record_size,
            max_plaintext_per_record: record_size - RECORD_OVERHEAD,
            seq: 0,
            buffer: Vec::new(),
            header_emitted: false,
            finished: false,
            salt,
            history: Ghost(Some(history)),
        };
        assert(encryptor.buffer@ =~= Seq::<u8>::empty());
        Ok(encryptor)
    }

    /// The salt of this encryptor.
    pub fn salt(&self) -> (salt: [u8; KEY_LENGTH])
        ensures
            salt@ == self@.salt,
    {
        self.salt
    }

    /// The header of the stream.
    fn get_header(&self) -> (header: Vec<u8>)
        ensures
            header@ == stream_header(self@.salt, self@.record_size),
    {
        let mut header: Vec<u8> = Vec::new();
        append_bytes(&mut header, self.salt.as_slice());
        append_bytes(&mut header, to_be_bytes(self.record_size as u32).as_slice());
        header.push(0);
        assert(header@ =~= stream_header(self@.salt, self@.record_size));
        header
    }

    /// Adds the header to `output` if it is still due.
    fn emit_header(&mut self, output: &mut Vec<u8>)
        ensures
            final(output)@ == old(output)@ + old(self)@.pending_header(),
            *final(self) == (StreamEncryptor { header_emitted: true, ..*old(self) }),
    {
        if !self.header_emitted {
            let header: Vec<u8> = self.get_header();
            append_bytes(output, header.as_slice());
            self.header_emitted = true;
        } else {
            assert(output@ =~= old(output)@ + old(self)@.pending_header());
        }
    }

    /// Encrypts one record and counts it.
    fn encrypt_record(&mut self, plaintext: &[u8], is_last: bool) -> (r: Result<Vec<u8>, Error>)
        requires
            old(self).content_key@.len() == KEY_LENGTH,
            old(self).nonce_base@.len() == NONCE_LENGTH,
        ensures
            seq_of(r) == if plaintext@.len() + 1 > MESSAGE_MAX {
                Err(Error::RecordEncryption)
            } else if old(self).seq == u32::MAX {
                Err(Error::StreamTooLong)
            } else {
                Ok(sealed_record(old(self)@.keys, old(self).seq as nat, plaintext@, is_last))
            },
            match r {
                Ok(_) => *final(self) == (StreamEncryptor {
                    seq: final(self).seq,
                    ..*old(self)
                }) && final(self).seq == old(self).seq + 1 && record_opens(
                    old(self)@.keys,
                    old(self).seq as nat,
                    plaintext@,
                    is_last,
                ),
                Err(_) => *final(self) == *old(self),
            },
    {
        let padded_record: Vec<u8> = pad_record(plaintext, is_last);
        let nonce: Vec<u8> = match generate_nonce(self.nonce_base.as_slice(), self.seq) {
            Ok(nonce) => nonce,
            Err(e) => {
                return Err(e);
            },
        };
        match gcm_seal(
            self.content_key.as_slice(),
            nonce.as_slice(),
            padded_record.as_slice(),
        ) {
            Some(record) => {
                if self.seq == u32::MAX {
                    return Err(Error::StreamTooLong);
                }
                self.seq = self.seq + 1;
                Ok(record)
            },
            None => Err(Error::RecordEncryption),
        }
    }

    /// Adds a chunk of plaintext. Returns the records that are now complete and have more data
    /// behind them, with the header of the stream before the first of them; the rest waits in the
    /// buffer.
    pub fn update(&mut self, chunk: &[u8]) -> (r: Result<Vec<u8>, Error>)
        requires
            old(self).wf(),
            old(self)@.finished || old(self)@.record_size > RECORD_OVERHEAD,
        ensures
            final(self).wf(),
            seq_of(r) == old(self)@.update_result(chunk@),
            final(self)@ == old(self)@.update_state(chunk@),
    {
        if self.finished {
            return Err(Error::AlreadyFinalized);
        }
        let ghost before = self@;
        let ghost data = self.buffer@ + chunk@;
        let ghost per_record = self@.per_record();
        let ghost mut done: Seq<Seq<u8>> = Seq::empty();
        let mut output: Vec<u8> = Vec::new();
        self.emit_header(&mut output);
        append_bytes(&mut self.buffer, chunk);
        proof {
            assert(output@ =~= before.pending_header() + sealed_records(
                before.keys,
                before.seq,
                done,
            ));
            assert(done + lead_chunks(data, per_record) =~= lead_chunks(data, per_record));
            assert(0 * per_record == 0) by (nonlinear_arith);
            assert(data.skip(0) =~= data);
        }
        while self.buffer.len() > self.max_plaintext_per_record
            invariant
                before == old(self)@,
                before.consistent(),
                !before.finished,
                data == before.buffer + chunk@,
                per_record == before.per_record(),
                per_record == self.max_plaintext_per_record,
                per_record > 0,
                self.record_size == self.max_plaintext_per_record + RECORD_OVERHEAD,
                self.content_key@.len() == KEY_LENGTH,
                self.nonce_base@.len() == NONCE_LENGTH,
                self@ == (EncryptorState {
                    seq: before.seq + done.len(),
                    buffer: self.buffer@,
                    header_emitted: true,
                    ..before
                }),
                done + lead_chunks(self.buffer@, per_record) == lead_chunks(data, per_record),
                last_chunk(self.buffer@, per_record) == last_chunk(data, per_record),
                done.len() == 0 ==> self.buffer@ == data,
                self.buffer@ == data.skip((done.len() * per_record) as int),
                done.len() * per_record <= data.len(),
                done.len() > 0 ==> per_record + 1 <= MESSAGE_MAX && before.seq + done.len()
                    <= u32::MAX,
                output@ == before.pending_header() + sealed_records(before.keys, before.seq, done),
                records_open(before.keys, before.seq, done),
            decreases self.buffer@.len(),
        {
            let ghost waiting = self.buffer@;
            let plaintext: Vec<u8> = take_front(&mut self.buffer, self.max_plaintext_per_record);
            proof {
                let m = done.len();
                assert((m + 1) * per_record == m * per_record + per_record) by (nonlinear_arith);
                assert(self.buffer@ =~= data.skip(((m + 1) * per_record) as int));
            }
            match self.encrypt_record(plaintext.as_slice(), false) {
                Ok(record) => {
                    append_bytes(&mut output, record.as_slice());
                    proof {
                        let chunks = lead_chunks(waiting, per_record);
                        assert(done + chunks =~= done.push(plaintext@) + lead_chunks(
                            self.buffer@,
                            per_record,
                        ));
                        let next = done.push(plaintext@);
                        assert(next.drop_last() =~= done);
                        assert(output@ =~= before.pending_header() + sealed_records(
                            before.keys,
                            before.seq,
                            next,
                        ));
                        assert(records_open(before.keys, before.seq, next)) by {
                            assert forall|i: int| 0 <= i < next.len() implies record_opens(
                                before.keys,
                                (before.seq + i) as nat,
                                #[trigger] next[i],
                                false,
                            ) by {
                                if i < done.len() {
                                    assert(next[i] == done[i]);
                                }
                            }
                        }
                        done = next;
                    }
                },
                Err(e) => {
                    proof {
                        assert(lead_chunks(data, per_record).len() >= done.len() + 1);
                    }
                    self.history = Ghost(None);
                    return Err(e);
                },
            }
        }
        proof {
            assert(done =~= lead_chunks(data, per_record));
            assert(last_chunk(self.buffer@, per_record) == self.buffer@);
        }
        self.history = Ghost(before.extended_history(chunk@, output@));
        proof {
            lemma_update_consistent(before, chunk@);
        }
        Ok(output)
    }

    /// Ends the stream. Encrypts what waits in the buffer as the last record, and marks it as
    /// last; a stream without data has one record, which is empty.
    pub fn finalize(&mut self) -> (r: Result<Vec<u8>, Error>)
        requires
            old(self).wf(),
        ensures
            final(self).wf(),
            seq_of(r) == old(self)@.finalize_result(),
            final(self)@ == old(self)@.finalize_state(),
            // What was handed out decrypts to what was taken in.
            (r is Ok && final(self)@.history is Some && fits_stream(
                final(self)@.record_size,
                final(self)@.history->0.plaintext.len(),
            )) ==> decrypted_stream(
                final(self)@.history->0.master_key,
                final(self)@.history->0.ciphertext,
            ) == Ok::<Seq<u8>, Error>(final(self)@.history->0.plaintext),
            (r is Ok && final(self)@.history is Some && final(self)@.record_size > RECORD_OVERHEAD
                && fits_stream(
                final(self)@.record_size,
                final(self)@.history->0.plaintext.len(),
            )) ==> exists|count: nat| #[trigger]
                is_laid_out(
                    final(self)@.history->0.ciphertext,
                    final(self)@.history->0.master_key,
                    final(self)@.salt,
                    final(self)@.record_size as nat,
                    final(self)@.history->0.plaintext,
                    count,
                ),
    {
        if self.finished {
            return Err(Error::AlreadyFinalized);
        }
        let ghost before = self@;
        let mut output: Vec<u8> = Vec::new();
        self.emit_header(&mut output);
        assert(output@ =~= before.pending_header());
        let count: usize = self.buffer.len();
        let plaintext: Vec<u8> = take_front(&mut self.buffer, count);
        assert(plaintext@ =~= before.buffer);
        assert(self.buffer@ =~= Seq::<u8>::empty());
        match self.encrypt_record(plaintext.as_slice(), true) {
            Ok(record) => {
                append_bytes(&mut output, record.as_slice());
            },
            Err(e) => {
                self.history = Ghost(None);
                return Err(e);
            },
        }
        self.finished = true;
        self.history = Ghost(before.extended_history(Seq::empty(), output@));
        proof {
            lemma_finalize_consistent(before);
            if self@.history is Some && fits_stream(
                self@.record_size,
                self@.history->0.plaintext.len(),
            ) {
                decryption_inverts_encryption(self@);
                if self@.record_size > RECORD_OVERHEAD {
                    stream_has_its_records(self@);
                }
            }
        }
        Ok(output)
    }
}

/// An encryptor that was finalized hands out nothing any more: adding data and finalizing again
/// fail, and leave it as it is.
pub proof fn finalized_encryptor_is_closed(state: EncryptorState, chunk: Seq<u8>)
    requires
        state.finalize_result() is Ok,
    ensures
        ({
            let end = state.finalize_state();
            &&& end.update_result(chunk) == Err::<Seq<u8>, Error>(Error::AlreadyFinalized)
            &&& end.update_state(chunk) == end
            &&& end.finalize_result() == Err::<Seq<u8>, Error>(Error::AlreadyFinalized)
            &&& end.finalize_state() == end
        }),
{
}

/// A stream that has become too long is at its end: no record of it is handed out any more.
pub proof fn too_long_stream_stays_so(state: EncryptorState, chunk: Seq<u8>, more: Seq<u8>)
    requires
        state.update_result(chunk) == Err::<Seq<u8>, Error>(Error::StreamTooLong),
    ensures
        ({
            let end = state.update_state(chunk);
            &&& end.update_result(more) matches Ok(output) ==> output.len() == 0
            &&& end.finalize_result() is Err
        }),
{
    let end = state.update_state(chunk);
    let ready = end.ready_chunks(more);
    if ready.len() == 0 {
        assert(end.pending_header() + sealed_records(end.keys, end.seq, ready) =~= Seq::<
            u8,
        >::empty());
    }
}

/// A chunk that is added leaves the state explained by its history.
proof fn lemma_update_consistent(before: EncryptorState, chunk: Seq<u8>)
    requires
        before.consistent(),
        !before.finished,
        before.update_result(chunk) is Ok,
        records_open(before.keys, before.seq, before.ready_chunks(chunk)),
    ensures
        before.update_state(chunk).consistent(),
{
    if before.history is Some {
        let h = before.history->0;
        let n = before.per_record();
        let chunks = lead_chunks(h.plaintext, n);
        let ready = before.ready_chunks(chunk);
        let output = before.update_result(chunk)->Ok_0;
        lemma_lead_split(h.plaintext, chunk, n);
        lemma_sealed_records_add(before.keys, 0, chunks, ready);
        let after = before.update_state(chunk);
        assert(h.ciphertext + output =~= h.ciphertext + before.pending_header() + sealed_records(
            before.keys,
            before.seq,
            ready,
        ));
        assert(after.pending_header() =~= Seq::<u8>::empty());
        assert(h.ciphertext + output + after.pending_header() =~= stream_header(
            before.salt,
            before.record_size,
        ) + sealed_records(before.keys, 0, chunks + ready));
        assert forall|i: int| 0 <= i < (chunks + ready).len() implies record_opens(
            before.keys,
            i as nat,
            #[trigger] (chunks + ready)[i],
            false,
        ) by {
            if i < chunks.len() {
                assert((chunks + ready)[i] == chunks[i]);
            } else {
                assert((chunks + ready)[i] == ready[i - chunks.len()]);
            }
        }
    }
}

/// Finalizing leaves the state explained by its history.
proof fn lemma_finalize_consistent(before: EncryptorState)
    requires
        before.consistent(),
        !before.finished,
        before.seq <= u32::MAX,
        before.finalize_result() is Ok,
        record_opens(before.keys, before.seq, before.buffer, true),
    ensures
        before.finalize_state().consistent(),
{
    if before.history is Some {
        let h = before.history->0;
        let output = before.finalize_result()->Ok_0;
        assert(h.plaintext + Seq::<u8>::empty() =~= h.plaintext);
        assert(h.ciphertext + output =~= sealed_stream(
            before.keys,
            before.salt,
            before.record_size,
            before.per_record(),
            h.plaintext,
        )) by {
            assert(h.ciphertext + output =~= h.ciphertext + before.pending_header()
                + sealed_record(before.keys, before.seq, before.buffer, true));
        }
    }
}

/// The state of an encryptor that was given nothing yet.
pub open spec fn fresh_state(
    master_key: Seq<u8>,
    record_size: usize,
    salt: Seq<u8>,
) -> EncryptorState {
    EncryptorState {
        keys: stream_keys(master_key, salt),
        salt,
        record_size,
        seq: 0,
        buffer: Seq::empty(),
        header_emitted: false,
        finished: false,
        history: Some(
            EncryptorHistory { master_key, plaintext: Seq::empty(), ciphertext: Seq::empty() },
        ),
    }
}

/// Appends the delimiter to the data of a record: 2 to the last record, 1 to those before it.
pub fn pad_record(data: &[u8], is_last: bool) -> (padded_record: Vec<u8>)
    ensures
        padded_record@ == padded(data@, is_last),
{
    let delimiter: u8 = if is_last {
        2
    } else {
        1
    };
    let mut padded_record: Vec<u8> = Vec::new();
    append_bytes(&mut padded_record, data);
    padded_record.push(delimiter);
    assert(padded_record@ =~= padded(data@, is_last));
    padded_record
}

/// What encrypting metadata gives: the IV, then the ciphertext and tag.
pub open spec fn metadata_sealed(
    plaintext: Seq<u8>,
    key: Seq<u8>,
    iv: Seq<u8>,
) -> Result<Seq<u8>, Error> {
    if key.len() != KEY_LENGTH {
        Err(Error::KeyLength)
    } else if plaintext.len() > MESSAGE_MAX {
        Err(Error::MetadataEncryption)
    } else {
        Ok(iv + aes128gcm_iv16_seal(key, iv, plaintext))
    }
}

/// Encrypted metadata is the IV, and behind it what the cipher makes of the metadata under it.
/// Decryption takes the first sixteen bytes for the IV, and the rest for the ciphertext.
pub proof fn metadata_begins_with_its_iv(
    plaintext: Seq<u8>,
    key: Seq<u8>,
    iv: Seq<u8>,
    sealed: Seq<u8>,
)
    requires
        key.len() == 16,
        iv.len() == 16,
    ensures
        plaintext.len() <= MESSAGE_MAX ==> (metadata_sealed(plaintext, key, iv) matches Ok(
            encrypted,
        ) && encrypted.take(16) == iv && encrypted.skip(16) == aes128gcm_iv16_seal(
            key,
            iv,
            plaintext,
        )),
        metadata_opened(iv + sealed, key) == match aes128gcm_iv16_open(key, iv, sealed) {
            Some(message) => Ok::<Seq<u8>, Error>(message),
            None => Err(Error::MetadataDecryption),
        },
        forall|short: Seq<u8>|
            short.len() < 16 ==> #[trigger] metadata_opened(short, key) == Err::<Seq<u8>, Error>(
                Error::MetadataTooShort,
            ),
{
    let body = aes128gcm_iv16_seal(key, iv, plaintext);
    assert((iv + body).take(16) =~= iv);
    assert((iv + body).skip(16) =~= body);
    assert((iv + sealed).take(16) =~= iv);
    assert((iv + sealed).skip(16) =~= sealed);
}

/// Encrypts metadata under the given IV. Decrypting gives the metadata back.
pub fn encrypt_metadata_with_iv(
    plaintext_meta: &[u8],
    meta_key: &[u8],
    iv: &[u8; KEY_LENGTH],
) -> (r: Result<Vec<u8>, Error>)
    ensures
        seq_of(r) == metadata_sealed(plaintext_meta@, meta_key@, iv@),
        r matches Ok(encrypted) ==> {
            &&& encrypted@.len() == KEY_LENGTH + plaintext_meta@.len() + TAG_LENGTH
            &&& encrypted@.take(KEY_LENGTH as int) == iv@
            &&& metadata_opened(encrypted@, meta_key@) == Ok::<Seq<u8>, Error>(plaintext_meta@)
        },
{
    if meta_key.len() != KEY_LENGTH {
        return Err(Error::KeyLength);
    }
    match gcm_iv16_seal(meta_key, iv.as_slice(), plaintext_meta) {
        Some(sealed) => {
            let mut result: Vec<u8> = Vec::new();
            append_bytes(&mut result, iv.as_slice());
            append_bytes(&mut result, sealed.as_slice());
            proof {
                assert(result@ =~= iv@ + sealed@);
                assert(result@.take(KEY_LENGTH as int) =~= iv@);
                assert(result@.skip(KEY_LENGTH as int) =~= sealed@);
            }
            Ok(result)
        },
        None => Err(Error::MetadataEncryption),
    }
}

/// Encrypts metadata (the torrent file) under a random IV, which stands before the ciphertext.
/// Decrypting gives the metadata back.
pub fn encrypt_metadata(plaintext_meta: &[u8], meta_key: &[u8]) -> (r: Result<Vec<u8>, Error>)
    ensures
        match r {
            Ok(encrypted) => {
                &&& seq_of(r) == metadata_sealed(
                    plaintext_meta@,
                    meta_key@,
                    encrypted@.take(KEY_LENGTH as int),
                )
                &&& encrypted@.len() == KEY_LENGTH + plaintext_meta@.len() + TAG_LENGTH
                &&& metadata_opened(encrypted@, meta_key@) == Ok::<Seq<u8>, Error>(plaintext_meta@)
            },
            Err(e) => {
                ||| e == Error::KeyLength && meta_key@.len() != KEY_LENGTH
                ||| e == Error::MetadataEncryption && meta_key@.len() == KEY_LENGTH
                    && plaintext_meta@.len() > MESSAGE_MAX
            },
        },
{
    let iv: [u8; 16] = random_bytes();
    encrypt_metadata_with_iv(plaintext_meta, meta_key, &iv)
}

} // verus!
