//! What holds of encryption and decryption together: decrypting a stream gives back what was
//! encrypted, however either was cut into chunks.

use vstd::prelude::*;

use crate::chunks::{
    concat, last_chunk, lead_chunks, lemma_concat_add, lemma_concat_push, lemma_lead_concat,
    lemma_lead_lengths, lemma_lead_split,
};
use crate::crypto::{be_bytes, hkdf_accepts, lemma_be_value, KEY_LENGTH};
use crate::decrypt::{
    delimiter, fresh_decryptor, header_fields, opened_record, unpad_inverts_pad, unpadded,
    DecryptorState, HEADER_LENGTH,
};
use crate::encrypt::{fits_stream, EncryptorState, RECORD_OVERHEAD};
use crate::error::Error;
use crate::stream::{
    lemma_sealed_records_add, record_opens, sealed_record, sealed_records, sealed_stream,
    stream_header, stream_keys, stream_opens, StreamKeys,
};

verus! {

/// What a whole stream decrypts to.
pub open spec fn decrypted_stream(master_key: Seq<u8>, stream: Seq<u8>) -> Result<Seq<u8>, Error> {
    match fresh_decryptor(Seq::empty()).processed(stream, master_key) {
        (_, Some(e)) => Err(e),
        (state, None) => match state.finished() {
            Err(e) => Err(e),
            Ok(end) => Ok(end.output),
        },
    }
}

// ---- valid streams ----

/// Whether the record with number `seq` opens, and holds `data` before its padding.
pub open spec fn record_holds(
    keys: StreamKeys,
    seq: nat,
    record: Seq<u8>,
    data: Seq<u8>,
    is_last: bool,
) -> bool {
    opened_record(keys, seq, record) matches Some(opened) && unpadded(opened, is_last) == Ok::<
        Seq<u8>,
        Error,
    >(data)
}

/// Whether records that are not the last, numbered from `seq` on, have the record size and hold
/// the contents.
pub open spec fn records_hold(
    keys: StreamKeys,
    seq: nat,
    record_size: nat,
    records: Seq<Seq<u8>>,
    contents: Seq<Seq<u8>>,
) -> bool {
    &&& records.len() == contents.len()
    &&& forall|i: int|
        0 <= i < records.len() ==> (#[trigger] records[i]).len() == record_size && record_holds(
            keys,
            (seq + i) as nat,
            records[i],
            contents[i],
            false,
        )
}

/// Whether a header with these fields, these records and this last record make a valid stream:
/// all records before the last have the record size and the delimiter 1; the last one may be
/// shorter and has the delimiter 2. Records may be padded with zeros.
pub open spec fn valid_stream(
    master_key: Seq<u8>,
    salt: Seq<u8>,
    record_size: u32,
    records: Seq<Seq<u8>>,
    contents: Seq<Seq<u8>>,
    last_record: Seq<u8>,
    last_content: Seq<u8>,
) -> bool {
    let keys = stream_keys(master_key, salt);
    &&& salt.len() == KEY_LENGTH
    &&& hkdf_accepts(master_key, salt)
    &&& records.len() <= u32::MAX
    &&& records_hold(keys, 0, record_size as nat, records, contents)
    &&& last_record.len() <= record_size
    &&& record_holds(keys, records.len(), last_record, last_content, true)
    &&& concat(contents).len() + last_content.len() <= usize::MAX
}

/// The delimiter of a record that holds data tells whether it is the last.
proof fn lemma_held_delimiter(data: Seq<u8>, is_last: bool)
    ensures
        unpadded(data, is_last) is Ok ==> delimiter(data) == Some(
            if is_last {
                2u8
            } else {
                1u8
            },
        ),
    decreases data.len(),
{
    if data.len() > 0 && data.last() == 0 {
        lemma_held_delimiter(data.drop_last(), is_last);
    }
}

/// Decrypting complete records yields what they hold, one behind the other, and goes on with what
/// follows.
proof fn lemma_records_drain(
    state: DecryptorState,
    keys: StreamKeys,
    records: Seq<Seq<u8>>,
    contents: Seq<Seq<u8>>,
    tail: Seq<u8>,
)
    requires
        state.keys == Some(keys),
        !state.ended,
        records_hold(keys, state.seq, state.record_size, records, contents),
        state.buffer == concat(records) + tail,
        state.seq + records.len() <= u32::MAX,
        state.written + concat(contents).len() <= usize::MAX,
    ensures
        state.drained() == (DecryptorState {
            seq: state.seq + records.len(),
            buffer: tail,
            output: state.output + concat(contents),
            written: state.written + concat(contents).len(),
            ..state
        }).drained(),
    decreases records.len(),
{
    if records.len() == 0 {
        assert(state.buffer =~= tail);
        assert(state.output + concat(contents) =~= state.output);
    } else {
        let (record, data) = (records[0], contents[0]);
        let (rest, rest_contents) = (records.drop_first(), contents.drop_first());
        let behind = concat(rest) + tail;
        assert(record_holds(keys, (state.seq + 0) as nat, records[0], contents[0], false));
        assert(state.buffer =~= record + behind);
        assert(state.buffer.take(state.record_size as int) =~= record);
        assert(state.buffer.skip(state.record_size as int) =~= behind);
        lemma_held_delimiter(opened_record(keys, state.seq, record)->0, false);
        assert(concat(contents) == data + concat(rest_contents));
        let next = DecryptorState {
            seq: state.seq + 1,
            buffer: behind,
            output: state.output + data,
            written: state.written + data.len(),
            ..state
        };
        assert(state.drained() == next.drained());
        assert forall|i: int| 0 <= i < rest.len() implies (#[trigger] rest[i]).len()
            == state.record_size && record_holds(
            keys,
            (next.seq + i) as nat,
            rest[i],
            rest_contents[i],
            false,
        ) by {
            assert(rest[i] == records[i + 1]);
            assert(record_holds(
                keys,
                (state.seq + (i + 1)) as nat,
                records[i + 1],
                contents[i + 1],
                false,
            ));
        }
        lemma_records_drain(next, keys, rest, rest_contents, tail);
        assert(next.output + concat(rest_contents) =~= state.output + concat(contents));
    }
}

/// Decrypting the last record ends the stream, whether the record is shorter than the others or
/// not.
proof fn lemma_last_record_drains(state: DecryptorState, keys: StreamKeys, data: Seq<u8>)
    requires
        state.keys == Some(keys),
        !state.ended,
        state.buffer.len() <= state.record_size,
        record_holds(keys, state.seq, state.buffer, data, true),
        state.written + data.len() <= usize::MAX,
    ensures
        state.drained().1 is None,
        state.drained().0.finished() matches Ok(end) && end.output == state.output + data,
        state.buffer.len() == state.record_size ==> state.drained().0.output == state.output + data,
{
    let record = state.buffer;
    lemma_held_delimiter(opened_record(keys, state.seq, record)->0, true);
    if record.len() == state.record_size {
        // The record fills the record size, and is known by its mark.
        let rest = DecryptorState { buffer: record.skip(state.record_size as int), ..state };
        assert(record.take(state.record_size as int) =~= record);
        assert(rest.buffer =~= Seq::<u8>::empty());
        let after = rest.with_record(record, false)->Ok_0;
        assert(after.ended);
        assert(state.drained() == after.drained());
    } else {
        assert(state.drained() == (state, None::<Error>));
    }
}

/// A decryptor that gets a stream reads its header first.
proof fn lemma_header_read(
    master_key: Seq<u8>,
    salt: Seq<u8>,
    record_size: u32,
    body: Seq<u8>,
)
    requires
        salt.len() == KEY_LENGTH,
        hkdf_accepts(master_key, salt),
    ensures
        fresh_decryptor(Seq::empty()).processed(
            stream_header(salt, record_size as usize) + body,
            master_key,
        ) == (DecryptorState {
            keys: Some(stream_keys(master_key, salt)),
            record_size: record_size as nat,
            buffer: body,
            ..fresh_decryptor(Seq::empty())
        }).drained(),
{
    let header = stream_header(salt, record_size as usize);
    let stream = header + body;
    let fresh = fresh_decryptor(Seq::empty());
    lemma_be_value(record_size);
    assert(fresh.buffer + stream =~= stream);
    assert(stream.take(HEADER_LENGTH as int) =~= header);
    assert(stream.skip(HEADER_LENGTH as int) =~= body);
    assert(header.take(KEY_LENGTH as int) =~= salt);
    assert(header.subrange(KEY_LENGTH as int, 20) =~= be_bytes(record_size));
    assert(header[HEADER_LENGTH - 1] == 0);
    assert(header_fields(header) == Ok::<(Seq<u8>, nat), Error>((salt, record_size as nat)));
}

/// A decryptor that gets the header and records that are not the last has decrypted them, and goes
/// on with what follows.
proof fn lemma_records_read(
    master_key: Seq<u8>,
    salt: Seq<u8>,
    record_size: u32,
    records: Seq<Seq<u8>>,
    contents: Seq<Seq<u8>>,
    tail: Seq<u8>,
)
    requires
        salt.len() == KEY_LENGTH,
        hkdf_accepts(master_key, salt),
        records.len() <= u32::MAX,
        records_hold(stream_keys(master_key, salt), 0, record_size as nat, records, contents),
        concat(contents).len() <= usize::MAX,
    ensures
        fresh_decryptor(Seq::empty()).processed(
            stream_header(salt, record_size as usize) + concat(records) + tail,
            master_key,
        ) == (DecryptorState {
            keys: Some(stream_keys(master_key, salt)),
            record_size: record_size as nat,
            buffer: tail,
            seq: records.len(),
            output: concat(contents),
            written: concat(contents).len(),
            ..fresh_decryptor(Seq::empty())
        }).drained(),
{
    let header = stream_header(salt, record_size as usize);
    let fresh = fresh_decryptor(Seq::empty());
    assert(header + concat(records) + tail =~= header + (concat(records) + tail));
    lemma_header_read(master_key, salt, record_size, concat(records) + tail);
    let ready = DecryptorState {
        keys: Some(stream_keys(master_key, salt)),
        record_size: record_size as nat,
        buffer: concat(records) + tail,
        ..fresh
    };
    lemma_records_drain(ready, stream_keys(master_key, salt), records, contents, tail);
    assert(ready.output + concat(contents) =~= concat(contents));
}

/// A valid stream decrypts to what its records hold, one behind the other; its last record may be
/// as long as the others.
pub proof fn valid_stream_decrypts(
    master_key: Seq<u8>,
    salt: Seq<u8>,
    record_size: u32,
    records: Seq<Seq<u8>>,
    contents: Seq<Seq<u8>>,
    last_record: Seq<u8>,
    last_content: Seq<u8>,
)
    requires
        valid_stream(
            master_key,
            salt,
            record_size,
            records,
            contents,
            last_record,
            last_content,
        ),
    ensures
        decrypted_stream(
            master_key,
            stream_header(salt, record_size as usize) + concat(records) + last_record,
        ) == Ok::<Seq<u8>, Error>(concat(contents) + last_content),
{
    let keys = stream_keys(master_key, salt);
    lemma_records_read(master_key, salt, record_size, records, contents, last_record);
    let last = DecryptorState {
        keys: Some(keys),
        record_size: record_size as nat,
        buffer: last_record,
        seq: records.len(),
        output: concat(contents),
        written: concat(contents).len(),
        ..fresh_decryptor(Seq::empty())
    };
    lemma_last_record_drains(last, keys, last_content);
}

/// A stream that was cut behind a record before the last is refused, though all of its records
/// open.
pub proof fn cut_stream_is_refused(
    master_key: Seq<u8>,
    salt: Seq<u8>,
    record_size: u32,
    records: Seq<Seq<u8>>,
    contents: Seq<Seq<u8>>,
)
    requires
        salt.len() == KEY_LENGTH,
        hkdf_accepts(master_key, salt),
        record_size > 0,
        records.len() <= u32::MAX,
        records_hold(stream_keys(master_key, salt), 0, record_size as nat, records, contents),
        concat(contents).len() <= usize::MAX,
    ensures
        decrypted_stream(
            master_key,
            stream_header(salt, record_size as usize) + concat(records),
        ) == Err::<Seq<u8>, Error>(Error::MissingFinalRecord),
{
    let stream = stream_header(salt, record_size as usize) + concat(records);
    assert(stream + Seq::<u8>::empty() =~= stream);
    lemma_records_read(master_key, salt, record_size, records, contents, Seq::empty());
}

/// Data behind a last record that is as long as the others is refused.
pub proof fn data_behind_the_last_record_is_refused(
    master_key: Seq<u8>,
    salt: Seq<u8>,
    record_size: u32,
    records: Seq<Seq<u8>>,
    contents: Seq<Seq<u8>>,
    last_record: Seq<u8>,
    last_content: Seq<u8>,
    more: Seq<u8>,
)
    requires
        valid_stream(
            master_key,
            salt,
            record_size,
            records,
            contents,
            last_record,
            last_content,
        ),
        last_record.len() == record_size,
        more.len() > 0,
    ensures
        decrypted_stream(
            master_key,
            stream_header(salt, record_size as usize) + concat(records) + (last_record + more),
        ) == Err::<Seq<u8>, Error>(Error::TrailingData),
{
    let keys = stream_keys(master_key, salt);
    lemma_records_read(master_key, salt, record_size, records, contents, last_record + more);
    let last = DecryptorState {
        keys: Some(keys),
        record_size: record_size as nat,
        buffer: last_record + more,
        seq: records.len(),
        output: concat(contents),
        written: concat(contents).len(),
        ..fresh_decryptor(Seq::empty())
    };
    let n = record_size as int;
    lemma_held_delimiter(opened_record(keys, records.len(), last_record)->0, true);
    assert(last.buffer.take(n) =~= last_record);
    assert(last.buffer.skip(n) =~= more);
    let rest = DecryptorState { buffer: more, ..last };
    let after = rest.with_record(last_record, false)->Ok_0;
    assert(last.drained() == after.drained());
}

// ---- encryption and decryption ----

/// The records that hold chunks, one by one.
pub open spec fn record_list(keys: StreamKeys, seq: nat, chunks: Seq<Seq<u8>>) -> Seq<Seq<u8>> {
    Seq::new(chunks.len(), |i: int| sealed_record(keys, (seq + i) as nat, chunks[i], false))
}

/// The records that hold chunks stand one behind the other.
pub proof fn lemma_record_list(keys: StreamKeys, seq: nat, chunks: Seq<Seq<u8>>)
    ensures
        concat(record_list(keys, seq, chunks)) == sealed_records(keys, seq, chunks),
    decreases chunks.len(),
{
    if chunks.len() > 0 {
        let start = chunks.drop_last();
        let last = sealed_record(keys, (seq + chunks.len() - 1) as nat, chunks.last(), false);
        lemma_record_list(keys, seq, start);
        assert(record_list(keys, seq, chunks) =~= record_list(keys, seq, start).push(last));
        lemma_concat_push(record_list(keys, seq, start), last);
    }
}

/// A stream whose records open is valid, and decrypts to the data that it holds.
pub proof fn lemma_stream_decrypts(
    master_key: Seq<u8>,
    salt: Seq<u8>,
    record_size: usize,
    data: Seq<u8>,
)
    requires
        salt.len() == KEY_LENGTH,
        hkdf_accepts(master_key, salt),
        fits_stream(record_size, data.len()),
        lead_chunks(data, (record_size - RECORD_OVERHEAD) as nat).len() < u32::MAX,
        stream_opens(
            stream_keys(master_key, salt),
            (record_size - RECORD_OVERHEAD) as nat,
            data,
        ),
    ensures
        ({
            let keys = stream_keys(master_key, salt);
            let n = (record_size - RECORD_OVERHEAD) as nat;
            let chunks = lead_chunks(data, n);
            let stream = sealed_stream(keys, salt, record_size, n, data);
            &&& valid_stream(
                master_key,
                salt,
                record_size as u32,
                record_list(keys, 0, chunks),
                chunks,
                sealed_record(keys, chunks.len(), last_chunk(data, n), true),
                last_chunk(data, n),
            )
            &&& stream.len() == HEADER_LENGTH + data.len() + RECORD_OVERHEAD * (chunks.len() + 1)
            &&& decrypted_stream(master_key, stream) == Ok::<Seq<u8>, Error>(data)
        }),
{
    let keys = stream_keys(master_key, salt);
    let n = (record_size - RECORD_OVERHEAD) as nat;
    let chunks = lead_chunks(data, n);
    let left = last_chunk(data, n);
    let records = record_list(keys, 0, chunks);
    if n > 0 {
        lemma_lead_lengths(data, n);
    }
    lemma_lead_concat(data, n);
    lemma_record_list(keys, 0, chunks);
    assert forall|i: int| 0 <= i < records.len() implies (#[trigger] records[i]).len()
        == record_size && record_holds(keys, (0 + i) as nat, records[i], chunks[i], false) by {
        assert(record_opens(keys, (0 + i) as nat, chunks[i], false));
        unpad_inverts_pad(chunks[i], false);
    }
    unpad_inverts_pad(left, true);
    let last_record = sealed_record(keys, chunks.len(), left, true);
    assert(concat(chunks).len() + left.len() == data.len());
    valid_stream_decrypts(
        master_key,
        salt,
        record_size as u32,
        records,
        chunks,
        last_record,
        left,
    );
    lemma_equal_lengths(records, record_size as nat);
    assert(chunks.len() * record_size == chunks.len() * n + RECORD_OVERHEAD * chunks.len())
        by (nonlinear_arith)
        requires
            record_size == n + RECORD_OVERHEAD,
    ;
}

/// So many parts of one length have this length together.
pub proof fn lemma_equal_lengths(parts: Seq<Seq<u8>>, n: nat)
    requires
        forall|i: int| 0 <= i < parts.len() ==> (#[trigger] parts[i]).len() == n,
    ensures
        concat(parts).len() == parts.len() * n,
    decreases parts.len(),
{
    if parts.len() > 0 {
        let rest = parts.drop_first();
        assert forall|i: int| 0 <= i < rest.len() implies (#[trigger] rest[i]).len() == n by {
            assert(rest[i] == parts[i + 1]);
        }
        lemma_equal_lengths(rest, n);
        let m = rest.len();
        assert((m + 1) * n == m * n + n) by (nonlinear_arith);
    } else {
        assert(0 * n == 0) by (nonlinear_arith);
    }
}

/// The stream that an encryptor has finished decrypts to the plaintext that it was given. It is
/// valid: its last record, and no other, is marked as last. It is longer than the plaintext by the
/// header and by the overhead of each record.
pub proof fn decryption_inverts_encryption(state: EncryptorState)
    requires
        state.consistent(),
        state.finished,
        state.history is Some,
        state.salt.len() == KEY_LENGTH,
        fits_stream(state.record_size, state.history->0.plaintext.len()),
    ensures
        decrypted_stream(state.history->0.master_key, state.history->0.ciphertext) == Ok::<
            Seq<u8>,
            Error,
        >(state.history->0.plaintext),
        ({
            let plaintext = state.history->0.plaintext;
            let chunks = lead_chunks(plaintext, state.per_record());
            let last = last_chunk(plaintext, state.per_record());
            let records = record_list(state.keys, 0, chunks);
            let last_record = sealed_record(state.keys, chunks.len(), last, true);
            &&& state.history->0.ciphertext == stream_header(state.salt, state.record_size)
                + concat(records) + last_record
            &&& valid_stream(
                state.history->0.master_key,
                state.salt,
                state.record_size as u32,
                records,
                chunks,
                last_record,
                last,
            )
            &&& state.history->0.ciphertext.len() == HEADER_LENGTH + plaintext.len()
                + RECORD_OVERHEAD * (chunks.len() + 1)
        }),
{
    lemma_stream_decrypts(
        state.history->0.master_key,
        state.salt,
        state.record_size,
        state.history->0.plaintext,
    );
    lemma_record_list(
        state.keys,
        0,
        lead_chunks(state.history->0.plaintext, state.per_record()),
    );
}

// ---- chunks ----

/// Draining a longer buffer goes on from where draining a shorter one stopped, or stops where
/// that failed.
proof fn lemma_drain_extends(state: DecryptorState, more: Seq<u8>)
    ensures
        ({
            let longer = DecryptorState { buffer: state.buffer + more, ..state };
            let (after, error) = state.drained();
            match error {
                None => longer.drained() == (DecryptorState {
                    buffer: after.buffer + more,
                    ..after
                }).drained(),
                Some(e) => longer.drained() == (
                    DecryptorState { buffer: after.buffer + more, ..after },
                    Some(e),
                ),
            }
        }),
    decreases state.buffer.len(),
{
    let n = state.record_size as int;
    if !state.ended && state.buffer.len() >= n {
        let longer = DecryptorState { buffer: state.buffer + more, ..state };
        let record = state.buffer.take(n);
        assert(longer.buffer.take(n) =~= record);
        assert(longer.buffer.skip(n) =~= state.buffer.skip(n) + more);
        let rest = DecryptorState { buffer: state.buffer.skip(n), ..state };
        if rest.with_record(record, false) is Ok {
            let after = rest.with_record(record, false)->Ok_0;
            if after.ended {
                lemma_drain_extends(after, more);
            } else if state.seq < u32::MAX {
                lemma_drain_extends(DecryptorState { seq: state.seq + 1, ..after }, more);
            }
        }
    }
}

/// Decryption does not depend on how a stream is cut: where a first chunk is processed without
/// an error, processing a second one leads to the same state and the same outcome as processing
/// both at once.
pub proof fn decryption_ignores_chunking(
    state: DecryptorState,
    a: Seq<u8>,
    b: Seq<u8>,
    master_key: Seq<u8>,
)
    requires
        state.processed(a, master_key).1 is None,
    ensures
        state.processed(a, master_key).0.processed(b, master_key) == state.processed(
            a + b,
            master_key,
        ),
{
    let fed = DecryptorState { buffer: state.buffer + a, ..state };
    let fed_both = DecryptorState { buffer: state.buffer + (a + b), ..state };
    assert(fed_both.buffer =~= fed.buffer + b);
    let ready = fed.with_header(master_key)->Ok_0;
    if ready.keys is Some {
        if state.keys is None {
            assert(fed_both.buffer.take(HEADER_LENGTH as int) =~= fed.buffer.take(
                HEADER_LENGTH as int,
            ));
            assert(fed_both.buffer.skip(HEADER_LENGTH as int) =~= fed.buffer.skip(
                HEADER_LENGTH as int,
            ) + b);
        }
        lemma_drain_extends(ready, b);
        lemma_drain_keeps_keys(ready);
    }
}

/// Draining changes neither the keys nor the record size.
proof fn lemma_drain_keeps_keys(state: DecryptorState)
    ensures
        state.drained().0.keys == state.keys,
        state.drained().0.record_size == state.record_size,
    decreases state.buffer.len(),
{
    let n = state.record_size as int;
    if !state.ended && state.buffer.len() >= n {
        let record = state.buffer.take(n);
        let rest = DecryptorState { buffer: state.buffer.skip(n), ..state };
        if rest.with_record(record, false) is Ok {
            let after = rest.with_record(record, false)->Ok_0;
            if after.ended {
                lemma_drain_keeps_keys(after);
            } else if state.seq < u32::MAX {
                lemma_drain_keeps_keys(DecryptorState { seq: state.seq + 1, ..after });
            }
        }
    }
}

/// An error does not depend on how a stream is cut either: where a chunk fails, what follows it
/// changes neither the error nor the plaintext before it.
pub proof fn decryption_errors_ignore_chunking(
    state: DecryptorState,
    a: Seq<u8>,
    b: Seq<u8>,
    master_key: Seq<u8>,
)
    requires
        state.processed(a, master_key).1 is Some,
    ensures
        state.processed(a + b, master_key).1 == state.processed(a, master_key).1,
        state.processed(a + b, master_key).0.output == state.processed(a, master_key).0.output,
        state.processed(a + b, master_key).0.written == state.processed(a, master_key).0.written,
{
    let fed = DecryptorState { buffer: state.buffer + a, ..state };
    let fed_both = DecryptorState { buffer: state.buffer + (a + b), ..state };
    assert(fed_both.buffer =~= fed.buffer + b);
    if fed.buffer.len() >= HEADER_LENGTH {
        assert(fed_both.buffer.take(HEADER_LENGTH as int) =~= fed.buffer.take(
            HEADER_LENGTH as int,
        ));
        assert(fed_both.buffer.skip(HEADER_LENGTH as int) =~= fed.buffer.skip(HEADER_LENGTH as int)
            + b);
    }
    if fed.with_header(master_key) is Ok {
        lemma_drain_extends(fed.with_header(master_key)->Ok_0, b);
    }
}

impl DecryptorState {
    /// The state after the chunks were processed in turn, up to the first that fails.
    pub open spec fn processed_all(self, chunks: Seq<Seq<u8>>, master_key: Seq<u8>) -> (
        DecryptorState,
        Option<Error>,
    )
        decreases chunks.len(),
    {
        if chunks.len() == 0 {
            (self, None)
        } else {
            match self.processed(chunks[0], master_key) {
                (after, Some(e)) => (after, Some(e)),
                (after, None) => after.processed_all(chunks.drop_first(), master_key),
            }
        }
    }
}

/// A decryptor that takes a stream chunk by chunk writes what it writes when it takes the stream
/// at once, and fails where that fails.
pub proof fn decryption_of_chunks(
    state: DecryptorState,
    chunks: Seq<Seq<u8>>,
    master_key: Seq<u8>,
)
    requires
        chunks.len() > 0,
    ensures
        ({
            let piecewise = state.processed_all(chunks, master_key);
            let at_once = state.processed(concat(chunks), master_key);
            &&& piecewise.1 == at_once.1
            &&& piecewise.0.output == at_once.0.output
            &&& piecewise.0.written == at_once.0.written
            &&& piecewise.1 is None ==> piecewise.0 == at_once.0
        }),
    decreases chunks.len(),
{
    let rest = chunks.drop_first();
    let (after, error) = state.processed(chunks[0], master_key);
    assert(concat(chunks) == chunks[0] + concat(rest));
    if error is Some {
        assert(state.processed_all(chunks, master_key) == (after, error));
        decryption_errors_ignore_chunking(state, chunks[0], concat(rest), master_key);
    } else if rest.len() == 0 {
        assert(chunks[0] + concat(rest) =~= chunks[0]);
        assert(after.processed_all(rest, master_key) == (after, None::<Error>));
        assert(state.processed_all(chunks, master_key) == (after, None::<Error>));
    } else {
        assert(state.processed_all(chunks, master_key) == after.processed_all(rest, master_key));
        decryption_of_chunks(after, rest, master_key);
        decryption_ignores_chunking(state, chunks[0], concat(rest), master_key);
    }
}

// ---- beginnings of streams ----

/// How many records of the record size lie wholly inside the first bytes of a stream.
pub open spec fn records_inside(length: nat, record_size: nat) -> nat {
    if length < HEADER_LENGTH {
        0
    } else {
        (length - HEADER_LENGTH) as nat / record_size
    }
}

/// The parts that begin a list stand before the others.
pub proof fn lemma_concat_take(parts: Seq<Seq<u8>>, k: int)
    requires
        0 <= k <= parts.len(),
    ensures
        concat(parts) == concat(parts.take(k)) + concat(parts.skip(k)),
{
    assert(parts.take(k) + parts.skip(k) =~= parts);
    lemma_concat_add(parts.take(k), parts.skip(k));
}

/// A stream begins with its header and its first records.
proof fn lemma_beginning(
    header: Seq<u8>,
    records: Seq<Seq<u8>>,
    last_record: Seq<u8>,
    record_size: nat,
    k: int,
    n: int,
)
    requires
        header.len() == HEADER_LENGTH,
        0 <= k <= records.len(),
        forall|i: int| 0 <= i < records.len() ==> (#[trigger] records[i]).len() == record_size,
        HEADER_LENGTH + k * record_size <= n <= header.len() + concat(records).len()
            + last_record.len(),
    ensures
        ({
            let stream = header + concat(records) + last_record;
            let tail = stream.take(n).skip(HEADER_LENGTH + k * record_size);
            &&& stream.take(n) == header + concat(records.take(k)) + tail
            &&& tail.len() == n - HEADER_LENGTH - k * record_size
        }),
{
    let stream = header + concat(records) + last_record;
    let first = records.take(k);
    assert forall|i: int| 0 <= i < first.len() implies (#[trigger] first[i]).len()
        == record_size by {
        assert(first[i] == records[i]);
    }
    lemma_equal_lengths(first, record_size);
    lemma_concat_take(records, k);
    let m = HEADER_LENGTH + k * record_size;
    let tail = stream.take(n).skip(m);
    assert(0 <= k * record_size) by (nonlinear_arith)
        requires
            0 <= k,
            0 <= record_size,
    ;
    assert(stream =~= (header + concat(first)) + (concat(records.skip(k)) + last_record));
    assert(stream.take(n).take(m) =~= header + concat(first));
    assert(stream.take(n) =~= stream.take(n).take(m) + tail);
}

/// Of a valid stream of which only the first bytes have come, all records that lie wholly inside
/// them have been decrypted, and nothing more: they are handed out at once, and what waits has no
/// record's full length. However the bytes were cut, there is no error.
pub proof fn beginning_of_a_stream_decrypts(
    master_key: Seq<u8>,
    salt: Seq<u8>,
    record_size: u32,
    records: Seq<Seq<u8>>,
    contents: Seq<Seq<u8>>,
    last_record: Seq<u8>,
    last_content: Seq<u8>,
    chunks: Seq<Seq<u8>>,
)
    requires
        valid_stream(
            master_key,
            salt,
            record_size,
            records,
            contents,
            last_record,
            last_content,
        ),
        concat(chunks).is_prefix_of(
            stream_header(salt, record_size as usize) + concat(records) + last_record,
        ),
    ensures
        ({
            let (state, error) = fresh_decryptor(Seq::empty()).processed_all(chunks, master_key);
            let k = records_inside(concat(chunks).len(), record_size as nat);
            &&& error is None
            &&& k <= contents.len() + 1
            &&& state.output == concat(contents.push(last_content).take(k as int))
        }),
{
    let keys = stream_keys(master_key, salt);
    let header = stream_header(salt, record_size as usize);
    let stream = header + concat(records) + last_record;
    let q = concat(chunks);
    let n = q.len();
    let rs = record_size as nat;
    let fresh = fresh_decryptor(Seq::empty());
    let all = contents.push(last_content);
    let k = records_inside(n, rs);
    assert(q =~= stream.take(n as int));
    assert forall|i: int| 0 <= i < records.len() implies (#[trigger] records[i]).len() == rs by {}
    if n < HEADER_LENGTH {
        assert(fresh.buffer + q =~= q);
        assert(all.take(0) =~= Seq::<Seq<u8>>::empty());
        assert(fresh.processed(q, master_key).0.output =~= Seq::<u8>::empty());
    } else {
        let c = records.len();
        lemma_equal_lengths(records, rs);
        let body = (n - HEADER_LENGTH) as nat;
        assert(k * rs <= body < (k + 1) * rs) by (nonlinear_arith)
            requires
                k == body / rs,
                rs > 0,
        ;
        assert(body <= (c + 1) * rs) by (nonlinear_arith)
            requires
                body <= c * rs + last_record.len(),
                last_record.len() <= rs,
        ;
        assert(k <= c + 1) by (nonlinear_arith)
            requires
                k * rs <= body,
                body <= (c + 1) * rs,
                rs > 0,
        ;
        // The last record is read with those before it; it is alone in the buffer then.
        let whole = k == c + 1;
        let j = if whole {
            c as int
        } else {
            k as int
        };
        assert(whole ==> body == c * rs + rs && last_record.len() == rs) by (nonlinear_arith)
            requires
                k * rs <= body,
                body <= c * rs + last_record.len(),
                last_record.len() <= rs,
                whole ==> k == c + 1,
        ;
        assert(j * rs <= body) by (nonlinear_arith)
            requires
                j <= k,
                k * rs <= body,
                rs > 0,
        ;
        lemma_beginning(header, records, last_record, rs, j, n as int);
        let tail = q.skip(HEADER_LENGTH + j * rs);
        let (first, held) = (records.take(j), contents.take(j));
        assert(records_hold(keys, 0, rs, first, held)) by {
            assert forall|i: int| 0 <= i < first.len() implies (#[trigger] first[i]).len() == rs
                && record_holds(keys, (0 + i) as nat, first[i], held[i], false) by {
                assert(first[i] == records[i]);
            }
        }
        lemma_concat_take(contents, j);
        lemma_records_read(master_key, salt, record_size, first, held, tail);
        let ready = DecryptorState {
            keys: Some(keys),
            record_size: rs,
            buffer: tail,
            seq: first.len(),
            output: concat(held),
            written: concat(held).len(),
            ..fresh
        };
        if whole {
            assert(first =~= records);
            assert(held =~= contents);
            assert(tail =~= last_record) by {
                assert(q =~= header + concat(records) + last_record);
            }
            lemma_last_record_drains(ready, keys, last_content);
            lemma_concat_push(contents, last_content);
            assert(all.take(k as int) =~= all);
        } else {
            assert(tail.len() < rs) by (nonlinear_arith)
                requires
                    tail.len() == body - j * rs,
                    body < (k + 1) * rs,
                    j == k,
            ;
            assert(ready.drained() == (ready, None::<Error>));
            assert(all.take(k as int) =~= held);
        }
    }
    if chunks.len() > 0 {
        decryption_of_chunks(fresh, chunks, master_key);
    } else {
        assert(fresh.processed_all(chunks, master_key) == (fresh, None::<Error>));
        assert(all.take(0) =~= Seq::<Seq<u8>>::empty());
    }
}

/// Of the stream that an encryptor has finished, a decryptor that was given the first bytes, cut
/// in any way, has written the plaintext of the records of full size inside them, and nothing
/// more.
pub proof fn beginning_of_an_encrypted_stream_decrypts(
    state: EncryptorState,
    chunks: Seq<Seq<u8>>,
)
    requires
        state.consistent(),
        state.finished,
        state.history is Some,
        state.salt.len() == KEY_LENGTH,
        fits_stream(state.record_size, state.history->0.plaintext.len()),
        concat(chunks).is_prefix_of(state.history->0.ciphertext),
    ensures
        ({
            let h = state.history->0;
            let (reader, error) = fresh_decryptor(Seq::empty()).processed_all(chunks, h.master_key);
            let k = records_inside(concat(chunks).len(), state.record_size as nat);
            &&& error is None
            &&& k * state.per_record() <= h.plaintext.len() + state.per_record()
            &&& reader.output == if k * state.per_record() <= h.plaintext.len() {
                h.plaintext.take((k * state.per_record()) as int)
            } else {
                h.plaintext
            }
        }),
{
    let h = state.history->0;
    let n = state.per_record();
    let contents = lead_chunks(h.plaintext, n);
    let last = last_chunk(h.plaintext, n);
    let records = record_list(state.keys, 0, contents);
    let last_record = sealed_record(state.keys, contents.len(), last, true);
    let k = records_inside(concat(chunks).len(), state.record_size as nat);
    decryption_inverts_encryption(state);
    beginning_of_a_stream_decrypts(
        h.master_key,
        state.salt,
        state.record_size as u32,
        records,
        contents,
        last_record,
        last,
        chunks,
    );
    lemma_lead_concat(h.plaintext, n);
    let c = contents.len();
    let all = contents.push(last);
    lemma_concat_push(contents, last);
    if n == 0 {
        assert(k * n == 0) by (nonlinear_arith)
            requires
                n == 0,
        ;
        lemma_concat_take(all, k as int);
        assert(concat(all.take(k as int)).len() <= concat(all).len());
        assert(h.plaintext.take(0) =~= concat(all.take(k as int)));
    } else {
        lemma_lead_lengths(h.plaintext, n);
        if k <= c {
            let held = contents.take(k as int);
            assert(all.take(k as int) =~= held);
            assert forall|i: int| 0 <= i < held.len() implies (#[trigger] held[i]).len() == n by {
                assert(held[i] == contents[i]);
            }
            lemma_equal_lengths(held, n);
            lemma_concat_take(all, k as int);
            assert(k * n <= c * n) by (nonlinear_arith)
                requires
                    k <= c,
            ;
            assert(h.plaintext.take((k * n) as int) =~= concat(held));
        } else {
            assert(k * n == c * n + n) by (nonlinear_arith)
                requires
                    k == c + 1,
            ;
            assert(all.take(k as int) =~= all);
            if k * n <= h.plaintext.len() {
                assert(h.plaintext.take((k * n) as int) =~= h.plaintext);
            }
        }
    }
}

// ---- chunks of plaintext ----

/// Encryption does not depend on how the plaintext is cut: after a first chunk, a second one
/// succeeds if and only if both at once do, hands out the rest of what both at once hand out, and
/// leads to the same state.
pub proof fn encryption_ignores_chunking(state: EncryptorState, a: Seq<u8>, b: Seq<u8>)
    requires
        state.record_size > RECORD_OVERHEAD,
        state.update_result(a) is Ok,
    ensures
        state.update_result(a + b) is Ok <==> state.update_state(a).update_result(b) is Ok,
        state.update_result(a + b) is Ok ==> {
            &&& state.update_result(a + b)->Ok_0 == state.update_result(a)->Ok_0
                + state.update_state(a).update_result(b)->Ok_0
            &&& state.update_state(a + b) == state.update_state(a).update_state(b)
        },
{
    let n = state.per_record();
    let middle = state.update_state(a);
    assert(state.buffer + (a + b) =~= (state.buffer + a) + b);
    lemma_lead_split(state.buffer + a, b, n);
    lemma_sealed_records_add(state.keys, state.seq, state.ready_chunks(a), middle.ready_chunks(b));
    if state.update_result(a + b) is Ok {
        let (x, y) = (state.update_result(a)->Ok_0, middle.update_result(b)->Ok_0);
        assert(state.update_result(a + b)->Ok_0 =~= x + y);
        if state.history is Some {
            let h = state.history->0;
            assert(h.plaintext + (a + b) =~= (h.plaintext + a) + b);
            assert(h.ciphertext + (x + y) =~= (h.ciphertext + x) + y);
        }
    }
}

/// Encrypting the same plaintext twice with one key, one salt and one record size gives the same
/// stream, however the plaintext was cut.
pub proof fn encryption_is_deterministic(first: EncryptorState, second: EncryptorState)
    requires
        first.consistent() && first.finished && first.history is Some,
        second.consistent() && second.finished && second.history is Some,
        first.salt == second.salt,
        first.record_size == second.record_size,
        first.history->0.master_key == second.history->0.master_key,
        first.history->0.plaintext == second.history->0.plaintext,
    ensures
        first.history->0.ciphertext == second.history->0.ciphertext,
{
}

} // verus!
