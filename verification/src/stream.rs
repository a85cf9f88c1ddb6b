//! The layout of an encrypted stream: a header, then records of one size, each sealed under a
//! nonce of its own. The last one, which may be shorter, is marked as last.

use vstd::prelude::*;

use crate::chunks::{last_chunk, lead_chunks};
use crate::crypto::{
    aes128gcm_open, aes128gcm_seal, be_bytes, content_key, nonce_base, record_nonce, TAG_LENGTH,
};

verus! {

/// The key and the nonce base of a stream.
#[verifier::ext_equal]
pub struct StreamKeys {
    pub content_key: Seq<u8>,
    pub nonce_base: Seq<u8>,
}

/// The key and the nonce base of the stream with this salt.
pub open spec fn stream_keys(master_key: Seq<u8>, salt: Seq<u8>) -> StreamKeys {
    StreamKeys {
        content_key: content_key(master_key, salt),
        nonce_base: nonce_base(master_key, salt),
    }
}

/// The header of a stream: the salt, the record size in four bytes, and the length of an absent
/// key identifier.
pub open spec fn stream_header(salt: Seq<u8>, record_size: usize) -> Seq<u8> {
    salt + be_bytes(record_size as u32) + seq![0u8]
}

/// A record's data with its delimiter behind it: 2 in the last record, 1 in those before it.
pub open spec fn padded(data: Seq<u8>, is_last: bool) -> Seq<u8> {
    data.push(
        if is_last {
            2u8
        } else {
            1u8
        },
    )
}

/// The record with number `seq` that holds `data`.
pub open spec fn sealed_record(
    keys: StreamKeys,
    seq: nat,
    data: Seq<u8>,
    is_last: bool,
) -> Seq<u8> {
    aes128gcm_seal(
        keys.content_key,
        record_nonce(keys.nonce_base, seq as u32),
        padded(data, is_last),
    )
}

/// The records that hold `chunks`, numbered from `seq` on, none of them the last.
pub open spec fn sealed_records(keys: StreamKeys, seq: nat, chunks: Seq<Seq<u8>>) -> Seq<u8>
    decreases chunks.len(),
{
    if chunks.len() == 0 {
        Seq::empty()
    } else {
        sealed_records(keys, seq, chunks.drop_last()) + sealed_record(
            keys,
            (seq + chunks.len() - 1) as nat,
            chunks.last(),
            false,
        )
    }
}

/// The stream that holds `data`, in records of `per_record` bytes of data each. The last record
/// holds what is left, be it a whole record's data, and it alone is marked as last. A stream
/// without data has one record, which is empty.
pub open spec fn sealed_stream(
    keys: StreamKeys,
    salt: Seq<u8>,
    record_size: usize,
    per_record: nat,
    data: Seq<u8>,
) -> Seq<u8> {
    let chunks = lead_chunks(data, per_record);
    stream_header(salt, record_size) + sealed_records(keys, 0, chunks) + sealed_record(
        keys,
        chunks.len(),
        last_chunk(data, per_record),
        true,
    )
}

/// Whether the record that holds `data` opens again, and has the length of the data, the
/// delimiter and the tag.
pub open spec fn record_opens(keys: StreamKeys, seq: nat, data: Seq<u8>, is_last: bool) -> bool {
    let record = sealed_record(keys, seq, data, is_last);
    &&& record.len() == data.len() + 1 + TAG_LENGTH
    &&& aes128gcm_open(keys.content_key, record_nonce(keys.nonce_base, seq as u32), record)
        == Some(padded(data, is_last))
}

/// Whether each of the records that hold `chunks`, numbered from `seq` on, opens again.
pub open spec fn records_open(keys: StreamKeys, seq: nat, chunks: Seq<Seq<u8>>) -> bool {
    forall|i: int|
        0 <= i < chunks.len() ==> record_opens(keys, (seq + i) as nat, #[trigger] chunks[i], false)
}

/// Whether every record of the stream that holds `data` opens again.
pub open spec fn stream_opens(keys: StreamKeys, per_record: nat, data: Seq<u8>) -> bool {
    let chunks = lead_chunks(data, per_record);
    &&& records_open(keys, 0, chunks)
    &&& record_opens(keys, chunks.len(), last_chunk(data, per_record), true)
}

/// The records of two lists of chunks are those of the first before those of the second.
pub proof fn lemma_sealed_records_add(
    keys: StreamKeys,
    seq: nat,
    a: Seq<Seq<u8>>,
    b: Seq<Seq<u8>>,
)
    ensures
        sealed_records(keys, seq, a + b) == sealed_records(keys, seq, a) + sealed_records(
            keys,
            seq + a.len(),
            b,
        ),
    decreases b.len(),
{
    if b.len() == 0 {
        assert(a + b =~= a);
        assert(sealed_records(keys, seq, a) + sealed_records(keys, seq + a.len(), b)
            =~= sealed_records(keys, seq, a));
    } else {
        lemma_sealed_records_add(keys, seq, a, b.drop_last());
        assert((a + b).drop_last() =~= a + b.drop_last());
        assert((a + b).last() == b.last());
        assert(sealed_records(keys, seq, a + b) =~= sealed_records(keys, seq, a)
            + sealed_records(keys, seq + a.len(), b));
    }
}

} // verus!
