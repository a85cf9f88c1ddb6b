//! Decryption of streams in the `aes128gcm` content encoding.

use vstd::prelude::*;

use crate::chunks::{append_bytes, take_front};
use crate::crypto::{
    aes128gcm_open, be_value, derive_content_key, derive_nonce_base, gcm_open, generate_nonce,
    hkdf_accepts, record_nonce, KEY_LENGTH, NONCE_LENGTH, TAG_LENGTH,
};
use crate::error::{seq_of, Error};
use crate::stream::{padded, stream_keys, StreamKeys};

verus! {

/// Length of a stream's header: the salt, the record size and the length of the key identifier.
pub const HEADER_LENGTH: usize = 21;

/// The header of a stream.
#[derive(Debug)]
pub struct Header {
    pub salt: Vec<u8>,
    pub record_size: usize,
    pub idlen: u8,
}

/// What parsing a header gives: the salt and the record size.
pub open spec fn header_fields(bytes: Seq<u8>) -> Result<(Seq<u8>, nat), Error> {
    if bytes.len() < HEADER_LENGTH {
        Err(Error::HeaderTooShort)
    } else if bytes[HEADER_LENGTH - 1] != 0 {
        Err(Error::KeyIdentifier)
    } else {
        Ok((bytes.take(KEY_LENGTH as int), be_value(bytes.subrange(KEY_LENGTH as int, 20))))
    }
}

/// The header tells the salt, which is its first sixteen bytes, and the record size, which is in
/// the next four, the most significant first. What follows it is not looked at. The identifier of
/// a key is refused.
pub proof fn header_tells_salt_and_size(
    salt: Seq<u8>,
    a: u8,
    b: u8,
    c: u8,
    d: u8,
    idlen: u8,
    rest: Seq<u8>,
)
    requires
        salt.len() == 16,
    ensures
        header_fields(salt + seq![a, b, c, d, idlen] + rest) == if idlen == 0 {
            Ok::<(Seq<u8>, nat), Error>(
                (salt, (a * 0x100_0000 + b * 0x1_0000 + c * 0x100 + d) as nat),
            )
        } else {
            Err(Error::KeyIdentifier)
        },
        forall|short: Seq<u8>|
            short.len() < 21 ==> #[trigger] header_fields(short) == Err::<(Seq<u8>, nat), Error>(
                Error::HeaderTooShort,
            ),
{
    let bytes = salt + seq![a, b, c, d, idlen] + rest;
    assert(bytes.take(16) =~= salt);
    assert(bytes.subrange(16, 20) =~= seq![a, b, c, d]);
}

impl Header {
    /// Parses the header that `header_bytes` begins with.
    pub fn parse(header_bytes: &[u8]) -> (r: Result<Header, Error>)
        ensures
            match r {
                Ok(header) => header_fields(header_bytes@) == Ok::<(Seq<u8>, nat), Error>(
                    (header.salt@, header.record_size as nat),
                ) && header.record_size <= u32::MAX && header.idlen == 0,
                Err(e) => header_fields(header_bytes@) == Err::<(Seq<u8>, nat), Error>(e),
            },
    {
        if header_bytes.len() < HEADER_LENGTH {
            return Err(Error::HeaderTooShort);
        }
        let salt: Vec<u8> = vstd::slice::slice_to_vec(
            vstd::slice::slice_subrange(header_bytes, 0, KEY_LENGTH),
        );
        let record_size: u32 = header_bytes[16] as u32 * 0x100_0000 + header_bytes[17] as u32
            * 0x1_0000 + header_bytes[18] as u32 * 0x100 + header_bytes[19] as u32;
        let idlen: u8 = header_bytes[HEADER_LENGTH - 1];
        if idlen != 0 {
            return Err(Error::KeyIdentifier);
        }
        assert(salt@ =~= header_bytes@.take(KEY_LENGTH as int));
        Ok(Header { salt, record_size: record_size as usize, idlen })
    }
}

/// What a record's data is: all before the last byte that is not zero, which must be the
/// delimiter.
pub open spec fn unpadded(data: Seq<u8>, is_last: bool) -> Result<Seq<u8>, Error>
    decreases data.len(),
{
    if data.len() == 0 {
        Err(Error::NoDelimiter)
    } else if data.last() == 0 {
        unpadded(data.drop_last(), is_last)
    } else if is_last && data.last() != 2 {
        Err(Error::FinalDelimiter(data.last()))
    } else if !is_last && data.last() != 1 {
        Err(Error::RecordDelimiter(data.last()))
    } else {
        Ok(data.drop_last())
    }
}

/// Removing the padding undoes adding it.
pub proof fn unpad_inverts_pad(data: Seq<u8>, is_last: bool)
    ensures
        unpadded(padded(data, is_last), is_last) == Ok::<Seq<u8>, Error>(data),
{
    assert(padded(data, is_last).drop_last() =~= data);
}

/// Removing the padding of a record gives what stands before its delimiter, however many zeros
/// stand behind it. The delimiter has to be 2 in the last record and 1 in any other; the error
/// tells what it is. Zeros alone hold no delimiter.
pub proof fn padding_is_removed(data: Seq<u8>, mark: u8, zeros: nat, is_last: bool)
    requires
        mark != 0,
    ensures
        unpadded(data + seq![mark] + Seq::new(zeros, |i: int| 0u8), is_last) == if is_last && mark
            == 2 || !is_last && mark == 1 {
            Ok::<Seq<u8>, Error>(data)
        } else if is_last {
            Err(Error::FinalDelimiter(mark))
        } else {
            Err(Error::RecordDelimiter(mark))
        },
        unpadded(Seq::new(zeros, |i: int| 0u8), is_last) == Err::<Seq<u8>, Error>(
            Error::NoDelimiter,
        ),
    decreases zeros,
{
    let padding = Seq::new(zeros, |i: int| 0u8);
    let record = data + seq![mark] + padding;
    if zeros > 0 {
        let fewer = Seq::new((zeros - 1) as nat, |i: int| 0u8);
        padding_is_removed(data, mark, (zeros - 1) as nat, is_last);
        assert(record.drop_last() =~= data + seq![mark] + fewer);
        assert(padding.drop_last() =~= fewer);
    } else {
        assert(record.drop_last() =~= data);
    }
}

/// Removes the padding of a decrypted record.
pub fn unpad(data: &[u8], is_last: bool) -> (r: Result<Vec<u8>, Error>)
    ensures
        seq_of(r) == unpadded(data@, is_last),
        r matches Ok(plaintext) ==> plaintext@.len() < data@.len(),
{
    let mut end: usize = data.len();
    assert(data@.take(end as int) =~= data@);
    while end > 0
        invariant
            end <= data@.len(),
            unpadded(data@, is_last) == unpadded(data@.take(end as int), is_last),
        decreases end,
    {
        let delimiter: u8 = data[end - 1];
        assert(data@.take(end as int).drop_last() =~= data@.take(end - 1));
        if delimiter != 0 {
            if is_last {
                if delimiter != 2 {
                    return Err(Error::FinalDelimiter(delimiter));
                }
            } else if delimiter != 1 {
                return Err(Error::RecordDelimiter(delimiter));
            }
            let plaintext: Vec<u8> = vstd::slice::slice_to_vec(
                vstd::slice::slice_subrange(data, 0, end - 1),
            );
            assert(plaintext@ =~= data@.take(end - 1));
            return Ok(plaintext);
        }
        end = end - 1;
    }
    Err(Error::NoDelimiter)
}

/// The delimiter of a record: its last byte that is not zero.
pub open spec fn delimiter(data: Seq<u8>) -> Option<u8>
    decreases data.len(),
{
    if data.len() == 0 {
        None
    } else if data.last() == 0 {
        delimiter(data.drop_last())
    } else {
        Some(data.last())
    }
}

/// Whether a record is marked as the last of its stream.
fn is_marked_last(data: &[u8]) -> (marked: bool)
    ensures
        marked == (delimiter(data@) == Some(2u8)),
{
    let mut end: usize = data.len();
    assert(data@.take(end as int) =~= data@);
    while end > 0
        invariant
            end <= data@.len(),
            delimiter(data@) == delimiter(data@.take(end as int)),
        decreases end,
    {
        assert(data@.take(end as int).drop_last() =~= data@.take(end - 1));
        if data[end - 1] != 0 {
            return data[end - 1] == 2;
        }
        end = end - 1;
    }
    false
}

/// What the record with number `seq` is with its padding.
pub open spec fn opened_record(keys: StreamKeys, seq: nat, record: Seq<u8>) -> Option<Seq<u8>> {
    if record.len() < TAG_LENGTH {
        None
    } else {
        aes128gcm_open(keys.content_key, record_nonce(keys.nonce_base, seq as u32), record)
    }
}

/// The state of a decryptor: what its header told, what waits to be decrypted, the number of the
/// next record, whether the last record has come, and the plaintext that was not taken away yet
/// with the count of all of it.
#[verifier::ext_equal]
pub struct DecryptorState {
    pub keys: Option<StreamKeys>,
    pub record_size: nat,
    pub buffer: Seq<u8>,
    pub seq: nat,
    pub ended: bool,
    pub output: Seq<u8>,
    pub written: nat,
}

impl DecryptorState {
    /// The state after one record was decrypted, or the error that this gives. A record that is
    /// marked as last ends the stream; one that has no other behind it must be marked.
    pub open spec fn with_record(self, record: Seq<u8>, must_end: bool) -> Result<
        DecryptorState,
        Error,
    > {
        match opened_record(self.keys->0, self.seq, record) {
            None => Err(Error::RecordDecryption),
            Some(data) => {
                let is_last = must_end || delimiter(data) == Some(2u8);
                match unpadded(data, is_last) {
                    Err(e) => Err(e),
                    Ok(plaintext) => if self.written + plaintext.len() > usize::MAX {
                        Err(Error::StreamTooLong)
                    } else {
                        Ok(
                            DecryptorState {
                                ended: is_last,
                                output: self.output + plaintext,
                                written: self.written + plaintext.len(),
                                ..self
                            },
                        )
                    },
                }
            },
        }
    }

    /// The state after all complete records in the buffer were decrypted, up to the first that
    /// fails. A record that fails has left the buffer. Data behind the last record is an error.
    pub open spec fn drained(self) -> (DecryptorState, Option<Error>)
        decreases self.buffer.len(),
    {
        if self.ended {
            (
                self,
                if self.buffer.len() == 0 {
                    None
                } else {
                    Some(Error::TrailingData)
                },
            )
        } else if self.buffer.len() < self.record_size {
            (self, None)
        } else {
            let record = self.buffer.take(self.record_size as int);
            let rest = DecryptorState { buffer: self.buffer.skip(self.record_size as int), ..self };
            match rest.with_record(record, false) {
                Err(e) => (rest, Some(e)),
                Ok(after) => if after.ended {
                    after.drained()
                } else if self.seq >= u32::MAX {
                    (after, Some(Error::StreamTooLong))
                } else {
                    DecryptorState { seq: self.seq + 1, ..after }.drained()
                },
            }
        }
    }

    /// The state after the header was read, if it is complete and was not read before.
    pub open spec fn with_header(self, master_key: Seq<u8>) -> Result<DecryptorState, Error> {
        if self.keys is Some || self.buffer.len() < HEADER_LENGTH {
            Ok(self)
        } else {
            match header_fields(self.buffer.take(HEADER_LENGTH as int)) {
                Err(e) => Err(e),
                Ok((salt, record_size)) => if !hkdf_accepts(master_key, salt) {
                    Err(Error::KeyDerivation)
                } else {
                    Ok(
                        DecryptorState {
                            keys: Some(stream_keys(master_key, salt)),
                            record_size,
                            buffer: self.buffer.skip(HEADER_LENGTH as int),
                            ..self
                        },
                    )
                },
            }
        }
    }

    /// The state after a chunk was processed, and the error if there was one.
    pub open spec fn processed(self, chunk: Seq<u8>, master_key: Seq<u8>) -> (
        DecryptorState,
        Option<Error>,
    ) {
        let fed = DecryptorState { buffer: self.buffer + chunk, ..self };
        match fed.with_header(master_key) {
            Err(e) => (fed, Some(e)),
            Ok(ready) => if ready.keys is Some {
                ready.drained()
            } else {
                (ready, None)
            },
        }
    }

    /// The state at the end of the stream. If the last record has not come, what waits in the
    /// buffer is it. Where no data has come at all, there is no plaintext either.
    pub open spec fn finished(self) -> Result<DecryptorState, Error> {
        if self.ended {
            if self.buffer.len() == 0 {
                Ok(self)
            } else {
                Err(Error::TrailingData)
            }
        } else if self.keys is None {
            if self.buffer.len() == 0 {
                Ok(self)
            } else {
                Err(Error::HeaderTooShort)
            }
        } else if self.buffer.len() == 0 {
            Err(Error::MissingFinalRecord)
        } else {
            DecryptorState { buffer: Seq::empty(), ..self }.with_record(self.buffer, true)
        }
    }
}

/// The state of a decryptor that was given nothing yet.
pub open spec fn fresh_decryptor(output: Seq<u8>) -> DecryptorState {
    DecryptorState {
        keys: None,
        record_size: 0,
        buffer: Seq::empty(),
        seq: 0,
        ended: false,
        output,
        written: 0,
    }
}

/// Streaming decryptor. It processes an encrypted stream chunk by chunk and appends what it
/// decrypts to its output.
pub struct StreamingDecryptor {
    writer: Vec<u8>,
    keys: Option<RecordKeys>,
    buffer: Vec<u8>,
    seq: u32,
    ended: bool,
    bytes_written: usize,
}

/// What the header of a stream yields.
struct RecordKeys {
    content_key: Vec<u8>,
    nonce_base: Vec<u8>,
    record_size: usize,
}

impl View for StreamingDecryptor {
    type V = DecryptorState;

    closed spec fn view(&self) -> DecryptorState {
        DecryptorState {
            keys: match self.keys {
                Some(k) => Some(
                    StreamKeys { content_key: k.content_key@, nonce_base: k.nonce_base@ },
                ),
                None => None,
            },
            record_size: match self.keys {
                Some(k) => k.record_size as nat,
                None => 0,
            },
            buffer: self.buffer@,
            seq: self.seq as nat,
            ended: self.ended,
            output: self.writer@,
            written: self.bytes_written as nat,
        }
    }
}

impl StreamingDecryptor {
    /// What holds of every decryptor.
    pub closed spec fn wf(self) -> bool {
        self.keys matches Some(k) ==> k.content_key@.len() == KEY_LENGTH && k.nonce_base@.len()
            == NONCE_LENGTH
    }

    /// Creates a decryptor that appends to `writer`.
    pub fn new(writer: Vec<u8>) -> (decryptor: Self)
        ensures
            decryptor.wf(),
            decryptor@ == fresh_decryptor(writer@),
    {
        StreamingDecryptor {
            writer,
            keys: None,
            buffer: Vec::new(),
            seq: 0,
            ended: false,
            bytes_written: 0,
        }
    }

    /// Takes away the plaintext that was decrypted since it was last taken away.
    pub fn take_output(&mut self) -> (output: Vec<u8>)
        requires
            old(self).wf(),
        ensures
            final(self).wf(),
            output@ == old(self)@.output,
            final(self)@ == (DecryptorState { output: Seq::empty(), ..old(self)@ }),
    {
        let mut output: Vec<u8> = Vec::new();
        std::mem::swap(&mut self.writer, &mut output);
        output
    }

    /// Decrypts one record and appends what it holds to the output. Notes whether it was the last;
    /// with `must_end` it has to be.
    fn decrypt_and_write_record(&mut self, encrypted_record: Vec<u8>, must_end: bool) -> (r:
        Result<(), Error>)
        requires
            old(self).wf(),
            old(self)@.keys is Some,
        ensures
            final(self).wf(),
            match r {
                Ok(_) => old(self)@.with_record(encrypted_record@, must_end) == Ok::<
                    DecryptorState,
                    Error,
                >(final(self)@) && encrypted_record@.len() > TAG_LENGTH,
                Err(e) => *final(self) == *old(self) && old(self)@.with_record(
                    encrypted_record@,
                    must_end,
                ) == Err::<DecryptorState, Error>(e),
            },
    {
        match &self.keys {
            Some(keys) => {
                let nonce: Vec<u8> = match generate_nonce(keys.nonce_base.as_slice(), self.seq) {
                    Ok(nonce) => nonce,
                    Err(e) => {
                        return Err(e);
                    },
                };
                let padded_record: Vec<u8> = match gcm_open(
                    keys.content_key.as_slice(),
                    nonce.as_slice(),
                    encrypted_record.as_slice(),
                ) {
                    Some(data) => data,
                    None => {
                        return Err(Error::RecordDecryption);
                    },
                };
                let is_last: bool = must_end || is_marked_last(padded_record.as_slice());
                let plaintext: Vec<u8> = match unpad(padded_record.as_slice(), is_last) {
                    Ok(plaintext) => plaintext,
                    Err(e) => {
                        return Err(e);
                    },
                };
                match self.bytes_written.checked_add(plaintext.len()) {
                    Some(total) => {
                        append_bytes(&mut self.writer, plaintext.as_slice());
                        self.bytes_written = total;
                        self.ended = is_last;
                        Ok(())
                    },
                    None => Err(Error::StreamTooLong),
                }
            },
            None => Err(Error::HeaderTooShort),
        }
    }

    /// Processes a chunk of an encrypted stream.
    pub fn process_chunk(&mut self, chunk: &[u8], master_key: &[u8]) -> (r: Result<(), Error>)
        requires
            old(self).wf(),
        ensures
            final(self).wf(),
            (final(self)@, r.err()) == old(self)@.processed(chunk@, master_key@),
    {
        append_bytes(&mut self.buffer, chunk);
        let ghost fed = self@;
        if self.keys.is_none() && self.buffer.len() >= HEADER_LENGTH {
            let header_bytes: &[u8] = vstd::slice::slice_subrange(
                self.buffer.as_slice(),
                0,
                HEADER_LENGTH,
            );
            assert(header_bytes@ =~= fed.buffer.take(HEADER_LENGTH as int));
            let header: Header = match Header::parse(header_bytes) {
                Ok(header) => header,
                Err(e) => {
                    return Err(e);
                },
            };
            let content_key: Vec<u8> = match derive_content_key(
                master_key,
                header.salt.as_slice(),
            ) {
                Ok(key) => key,
                Err(e) => {
                    return Err(e);
                },
            };
            let nonce_base: Vec<u8> = match derive_nonce_base(master_key, header.salt.as_slice()) {
                Ok(base) => base,
                Err(e) => {
                    return Err(e);
                },
            };
            self.keys = Some(
                RecordKeys { content_key, nonce_base, record_size: header.record_size },
            );
            let _header: Vec<u8> = take_front(&mut self.buffer, HEADER_LENGTH);
        }
        let ghost ready = self@;
        assert(fed.with_header(master_key@) == Ok::<DecryptorState, Error>(ready));
        let record_size: usize = match &self.keys {
            Some(keys) => keys.record_size,
            None => {
                return Ok(());
            },
        };
        while !self.ended && self.buffer.len() >= record_size
            invariant
                self.wf(),
                self@.keys is Some,
                self@.record_size == record_size,
                self@.drained() == old(self)@.processed(chunk@, master_key@),
            decreases self.buffer@.len(),
        {
            let encrypted_record: Vec<u8> = take_front(&mut self.buffer, record_size);
            match self.decrypt_and_write_record(encrypted_record, false) {
                Ok(_) => {},
                Err(e) => {
                    return Err(e);
                },
            }
            if !self.ended {
                if self.seq == u32::MAX {
                    return Err(Error::StreamTooLong);
                }
                self.seq = self.seq + 1;
            }
        }
        if self.ended && self.buffer.len() > 0 {
            return Err(Error::TrailingData);
        }
        Ok(())
    }

    /// Ends the stream: if the last record has not come, decrypts what waits in the buffer as it.
    /// Returns the plaintext that was not taken away and the count of all plaintext.
    pub fn finalize(self) -> (r: Result<(Vec<u8>, usize), Error>)
        requires
            self.wf(),
        ensures
            match r {
                Ok((writer, count)) => self@.finished() matches Ok(end) && end.output == writer@
                    && end.written == count,
                Err(e) => self@.finished() == Err::<DecryptorState, Error>(e),
            },
    {
        let mut decryptor: StreamingDecryptor = self;
        if decryptor.ended {
            if decryptor.buffer.len() > 0 {
                return Err(Error::TrailingData);
            }
        } else if decryptor.keys.is_none() {
            if decryptor.buffer.len() > 0 {
                return Err(Error::HeaderTooShort);
            }
        } else if decryptor.buffer.len() == 0 {
            return Err(Error::MissingFinalRecord);
        } else {
            let mut encrypted_record: Vec<u8> = Vec::new();
            std::mem::swap(&mut decryptor.buffer, &mut encrypted_record);
            match decryptor.decrypt_and_write_record(encrypted_record, true) {
                Ok(_) => {},
                Err(e) => {
                    return Err(e);
                },
            }
        }
        Ok((decryptor.writer, decryptor.bytes_written))
    }
}

} // verus!
