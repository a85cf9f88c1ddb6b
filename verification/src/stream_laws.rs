//! What an encrypted stream looks like, byte by byte: its header, and each of its records in its
//! place.

use vstd::prelude::*;

use crate::chunks::{
    concat, last_chunk, lead_chunks, lead_chunks_stand_in_place, lemma_concat_push, stands_at,
};
use crate::crypto::{aes128gcm_open, content_key, nonce_base, record_nonce};
use crate::encrypt::{fits_stream, EncryptorState};
use crate::roundtrip::{lemma_concat_take, lemma_equal_lengths, lemma_record_list, record_list};
use crate::stream::{record_opens, sealed_record, stream_header};

verus! {

/// How many records a stream has: as many as its data needs, and one if there is none.
pub open spec fn is_record_count(count: nat, length: nat, per_record: nat) -> bool {
    &&& count > 0
    &&& length <= count * per_record
    &&& length == 0 ==> count == 1
    &&& length > 0 ==> (count - 1) * per_record < length
}

/// Where a stretch with this number ends, if each has this length and all of them so much.
pub open spec fn stretch_end(start: int, length: int, total: int) -> int {
    if start + length <= total {
        start + length
    } else {
        total
    }
}

/// Whether a stream has a record in its place: what stands behind the header and the records before
/// it opens, with the nonce of its number, to the stretch of data with that number. Behind the data
/// stands 2 in the last record, and 1 in every other.
pub open spec fn has_record(
    stream: Seq<u8>,
    master_key: Seq<u8>,
    salt: Seq<u8>,
    record_size: nat,
    data: Seq<u8>,
    i: int,
    count: nat,
) -> bool {
    let per_record = record_size - 17;
    let start = 21 + i * record_size;
    let from = i * per_record;
    aes128gcm_open(
        content_key(master_key, salt),
        record_nonce(nonce_base(master_key, salt), i as u32),
        stream.subrange(start, stretch_end(start, record_size as int, stream.len() as int)),
    ) == Some(
        data.subrange(from, stretch_end(from, per_record, data.len() as int)).push(
            if i == count - 1 {
                2u8
            } else {
                1u8
            },
        ),
    )
}

/// A part of one length stands in the concatenation behind those before it.
proof fn lemma_concat_at(parts: Seq<Seq<u8>>, n: nat, i: int)
    requires
        0 <= i < parts.len(),
        forall|k: int| 0 <= k < parts.len() ==> (#[trigger] parts[k]).len() == n,
    ensures
        stands_at(parts[i], concat(parts), n, i),
{
    let first = parts.take(i);
    let upto = parts.take(i + 1);
    assert forall|k: int| 0 <= k < first.len() implies (#[trigger] first[k]).len() == n by {
        assert(first[k] == parts[k]);
    }
    lemma_equal_lengths(first, n);
    lemma_concat_take(parts, i + 1);
    assert(first.push(parts[i]) =~= upto);
    lemma_concat_push(first, parts[i]);
    assert(first.len() * n == i * n);
    assert(parts[i] =~= concat(parts).subrange(i * n, i * n + n));
}

/// Whether a record is what a stream holds with this number.
spec fn opens_to(
    record: Seq<u8>,
    master_key: Seq<u8>,
    salt: Seq<u8>,
    i: int,
    content: Seq<u8>,
) -> bool {
    aes128gcm_open(
        content_key(master_key, salt),
        record_nonce(nonce_base(master_key, salt), i as u32),
        record,
    ) == Some(content)
}

/// A record before the last stands in its place.
proof fn lemma_inner_record(
    stream: Seq<u8>,
    header: Seq<u8>,
    records: Seq<Seq<u8>>,
    last_record: Seq<u8>,
    master_key: Seq<u8>,
    salt: Seq<u8>,
    n: nat,
    data: Seq<u8>,
    chunk: Seq<u8>,
    i: int,
)
    requires
        n > 17,
        stream == header + concat(records) + last_record,
        header.len() == 21,
        0 <= i < records.len(),
        forall|k: int| 0 <= k < records.len() ==> (#[trigger] records[k]).len() == n,
        stands_at(chunk, data, (n - 17) as nat, i),
        opens_to(records[i], master_key, salt, i, chunk.push(1)),
    ensures
        has_record(stream, master_key, salt, n, data, i, records.len() + 1),
{
    let start = 21 + i * n;
    lemma_concat_at(records, n, i);
    assert(0 <= i * n) by (nonlinear_arith)
        requires
            0 <= i,
    ;
    assert(stream.subrange(start, start + n) =~= concat(records).subrange(i * n, i * n + n));
    assert(stretch_end(start, n as int, stream.len() as int) == start + n);
}

/// The last record stands in its place.
proof fn lemma_last_record(
    stream: Seq<u8>,
    header: Seq<u8>,
    records: Seq<Seq<u8>>,
    last_record: Seq<u8>,
    master_key: Seq<u8>,
    salt: Seq<u8>,
    n: nat,
    data: Seq<u8>,
    chunk: Seq<u8>,
)
    requires
        n > 17,
        stream == header + concat(records) + last_record,
        header.len() == 21,
        forall|k: int| 0 <= k < records.len() ==> (#[trigger] records[k]).len() == n,
        last_record.len() == chunk.len() + 17,
        chunk.len() <= n - 17,
        records.len() * (n - 17) <= data.len(),
        chunk == data.skip(records.len() * (n - 17)),
        opens_to(last_record, master_key, salt, records.len() as int, chunk.push(2)),
    ensures
        has_record(
            stream,
            master_key,
            salt,
            n,
            data,
            records.len() as int,
            records.len() + 1,
        ),
{
    let c = records.len() as int;
    let start = 21 + c * n;
    let from = c * (n - 17);
    lemma_equal_lengths(records, n);
    assert(0 <= c * n && 0 <= from) by (nonlinear_arith)
        requires
            0 <= c,
            n > 17,
            from == c * (n - 17),
    ;
    let end = stretch_end(start, n as int, stream.len() as int);
    assert(end == stream.len());
    assert(stream.subrange(start, end) =~= last_record);
    let data_end = stretch_end(from, n - 17, data.len() as int);
    assert(data_end == data.len());
    assert(data.subrange(from, data_end) =~= chunk);
}

/// The header is in its place.
proof fn lemma_header_bytes(salt: Seq<u8>, record_size: usize, body: Seq<u8>)
    requires
        salt.len() == 16,
        record_size <= u32::MAX,
    ensures
        ({
            let stream = stream_header(salt, record_size) + body;
            &&& stream.len() == 21 + body.len()
            &&& stream.take(16) == salt
            &&& stream[16] * 0x100_0000 + stream[17] * 0x1_0000 + stream[18] * 0x100 + stream[19]
                == record_size
            &&& stream[20] == 0
        }),
{
    let stream = stream_header(salt, record_size) + body;
    assert(stream.take(16) =~= salt);
}

/// Whether a stream is laid out as it has to be: it begins with the salt, the record size in four
/// bytes, the most significant first, and a zero. Behind that stand its records, as many as the
/// plaintext needs, each with the next stretch of the plaintext under the nonce of its number.
pub open spec fn is_laid_out(
    stream: Seq<u8>,
    master_key: Seq<u8>,
    salt: Seq<u8>,
    record_size: nat,
    data: Seq<u8>,
    count: nat,
) -> bool {
    &&& is_record_count(count, data.len(), (record_size - 17) as nat)
    &&& stream.len() == 21 + data.len() + 17 * count
    &&& stream.take(16) == salt
    &&& stream[16] * 0x100_0000 + stream[17] * 0x1_0000 + stream[18] * 0x100 + stream[19]
        == record_size
    &&& stream[20] == 0
    &&& forall|i: int|
        0 <= i < count ==> #[trigger] has_record(
            stream,
            master_key,
            salt,
            record_size,
            data,
            i,
            count,
        )
}

/// All records stand in their places.
proof fn lemma_all_records(
    stream: Seq<u8>,
    header: Seq<u8>,
    records: Seq<Seq<u8>>,
    last_record: Seq<u8>,
    master_key: Seq<u8>,
    salt: Seq<u8>,
    n: nat,
    data: Seq<u8>,
)
    requires
        n > 17,
        stream == header + concat(records) + last_record,
        header.len() == 21,
        records.len() == lead_chunks(data, (n - 17) as nat).len(),
        forall|k: int| 0 <= k < records.len() ==> (#[trigger] records[k]).len() == n,
        last_record.len() == last_chunk(data, (n - 17) as nat).len() + 17,
        forall|k: int|
            0 <= k < records.len() ==> opens_to(
                #[trigger] records[k],
                master_key,
                salt,
                k,
                lead_chunks(data, (n - 17) as nat)[k].push(1),
            ),
        opens_to(
            last_record,
            master_key,
            salt,
            records.len() as int,
            last_chunk(data, (n - 17) as nat).push(2),
        ),
    ensures
        forall|i: int|
            0 <= i < records.len() + 1 ==> #[trigger] has_record(
                stream,
                master_key,
                salt,
                n,
                data,
                i,
                records.len() + 1,
            ),
        is_record_count(records.len() + 1, data.len(), (n - 17) as nat),
        concat(records).len() + last_record.len() == data.len() + 17 * (records.len() + 1),
{
    let m = (n - 17) as nat;
    let c = records.len();
    let chunks = lead_chunks(data, m);
    let last = last_chunk(data, m);
    lead_chunks_stand_in_place(data, m);
    lemma_equal_lengths(records, n);
    assert((c + 1) * m == c * m + m && c * n == c * m + 17 * c) by (nonlinear_arith)
        requires
            n == m + 17,
    ;
    assert forall|i: int| 0 <= i < c + 1 implies #[trigger] has_record(
        stream,
        master_key,
        salt,
        n,
        data,
        i,
        c + 1,
    ) by {
        if i < c {
            assert(stands_at(chunks[i], data, m, i));
            assert(opens_to(records[i], master_key, salt, i, chunks[i].push(1)));
            lemma_inner_record(
                stream,
                header,
                records,
                last_record,
                master_key,
                salt,
                n,
                data,
                chunks[i],
                i,
            );
        } else {
            lemma_last_record(
                stream,
                header,
                records,
                last_record,
                master_key,
                salt,
                n,
                data,
                last,
            );
        }
    }
}

/// The stream that an encryptor has finished is laid out as it has to be.
pub proof fn stream_has_its_records(state: EncryptorState)
    requires
        state.consistent(),
        state.finished,
        state.history is Some,
        state.salt.len() == 16,
        state.record_size > 17,
        fits_stream(state.record_size, state.history->0.plaintext.len()),
    ensures
        exists|count: nat| #[trigger]
            is_laid_out(
                state.history->0.ciphertext,
                state.history->0.master_key,
                state.salt,
                state.record_size as nat,
                state.history->0.plaintext,
                count,
            ),
{
    let h = state.history->0;
    let (stream, data, key, salt) = (h.ciphertext, h.plaintext, h.master_key, state.salt);
    let n = state.record_size as nat;
    let m = state.per_record();
    let chunks = lead_chunks(data, m);
    let last = last_chunk(data, m);
    let records = record_list(state.keys, 0, chunks);
    let last_record = sealed_record(state.keys, chunks.len(), last, true);
    let header = stream_header(salt, state.record_size);
    lemma_record_list(state.keys, 0, chunks);
    lemma_header_bytes(salt, state.record_size, concat(records) + last_record);
    assert(stream =~= header + (concat(records) + last_record));
    lead_chunks_stand_in_place(data, m);
    assert forall|k: int| 0 <= k < records.len() implies (#[trigger] records[k]).len() == n
        && opens_to(records[k], key, salt, k, chunks[k].push(1)) by {
        assert(record_opens(state.keys, (0 + k) as nat, chunks[k], false));
        assert(stands_at(chunks[k], data, m, k));
    }
    assert(record_opens(state.keys, chunks.len(), last, true));
    assert(opens_to(last_record, key, salt, records.len() as int, last.push(2)));
    lemma_all_records(stream, header, records, last_record, key, salt, n, data);
    assert(is_laid_out(stream, key, salt, n, data, records.len() + 1));
}

} // verus!
