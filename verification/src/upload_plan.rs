//! What an upload tells the server: the room, the torrent, and how many pieces will come.

use vstd::prelude::*;
use vstd::utf8::encode_utf8;

use crate::api::{bearer, bearer_carries_the_token, decrypted_torrent};
use crate::base64_text::{
    base64, base64_decoded, base64_decodes, base64_encode, base64_fits, fits_base64, Variant,
};
use crate::bencode::byte_strings;
use crate::bencoding::Node;
use crate::chunks::{full_chunks, lemma_chunk_lengths, pieces, remainder};
use crate::crypto::{
    aes128gcm_iv16_seal, auth_info, derive_auth_token, derive_meta_key, derived, hkdf_accepts,
    hkdf_sha256, random_bytes, KEY_LENGTH, MESSAGE_MAX,
};
use crate::encrypt::encrypt_metadata;
use crate::error::Error;
use crate::models::{CreateRoomRequest, UpdateRoomRequest};
use crate::sizes::{
    is_nearest_multiple, is_power_of_ten, megabytes_are_the_nearest, round_size_as_mb,
    rounded_megabytes,
};
use crate::torrent::{
    create_multi_file_torrent_at, create_torrent_at, made_torrent, multi_info, seconds_since_epoch,
    INFO_HASH_LENGTH, single_info,
};
use crate::upload::HashedUpload;

verus! {

/// How many pieces are uploaded at a time at most, each with an upload token of its own.
pub const PARALLEL_UPLOADS: usize = 10;

// ---- the room ----

/// Whether a request for a room tells the salt and the readers' token in standard base64. The token
/// is what HKDF derives for authentication, and its text is that which stands in the authorization
/// header of a reader.
pub open spec fn are_credentials(
    request: CreateRoomRequest,
    master_key: Seq<u8>,
    salt: Seq<u8>,
) -> bool {
    let token = hkdf_sha256(master_key, salt, encode_utf8("authentication"@), 16);
    &&& base64_decoded(request.salt@, Variant::Standard) == Some(salt)
    &&& base64_decoded(request.reader_token@, Variant::Standard) == Some(token)
    &&& request.reader_token@ == bearer(token).1.skip(15)
}

/// Asks for a room with this key and this salt: the readers' token is derived from both.
pub fn room_credentials(master_key: &[u8], salt: &[u8]) -> (r: Result<CreateRoomRequest, Error>)
    requires
        base64_fits(salt@.len()),
    ensures
        match r {
            Ok(request) => {
                &&& hkdf_accepts(master_key@, salt@)
                &&& request.reader_token@ == base64(
                    hkdf_sha256(master_key@, salt@, auth_info(), KEY_LENGTH as nat),
                    Variant::Standard,
                )
                &&& request.salt@ == base64(salt@, Variant::Standard)
                &&& are_credentials(request, master_key@, salt@)
            },
            Err(e) => e == Error::KeyDerivation && !hkdf_accepts(master_key@, salt@),
        },
{
    proof {
        base64_decodes(salt@, Variant::Standard);
    }
    match derive_auth_token(master_key, salt) {
        Ok(reader_token) => {
            proof {
                bearer_carries_the_token(reader_token@, reader_token@);
                reveal_strlit("Bearer sync-v1 ");
                base64_decodes(reader_token@, Variant::Standard);
                assert(bearer(reader_token@).1.skip(15) =~= base64(
                    reader_token@,
                    Variant::Standard,
                ));
            }
            Ok(
                CreateRoomRequest {
                    reader_token: base64_encode(reader_token.as_slice()),
                    salt: base64_encode(salt),
                },
            )
        },
        Err(e) => Err(e),
    }
}

/// The beginning of an upload.
pub struct UploadStart {
    pub master_key: [u8; KEY_LENGTH],
    pub salt: [u8; KEY_LENGTH],
    pub request: CreateRoomRequest,
}

/// Begins an upload, with a random key and a random salt.
pub fn start_upload() -> (r: Result<UploadStart, Error>)
    ensures
        r matches Ok(start) && start.request.reader_token@ == base64(
            hkdf_sha256(start.master_key@, start.salt@, auth_info(), KEY_LENGTH as nat),
            Variant::Standard,
        ) && start.request.salt@ == base64(start.salt@, Variant::Standard) && are_credentials(
            start.request,
            start.master_key@,
            start.salt@,
        ),
{
    let master_key: [u8; 16] = random_bytes();
    let salt: [u8; 16] = random_bytes();
    match room_credentials(master_key.as_slice(), salt.as_slice()) {
        Ok(request) => Ok(UploadStart { master_key, salt, request }),
        Err(e) => Err(e),
    }
}

// ---- sizes ----

/// The sum of sizes.
pub open spec fn sum_of(sizes: Seq<u64>) -> nat
    decreases sizes.len(),
{
    if sizes.len() == 0 {
        0
    } else {
        sum_of(sizes.drop_last()) + sizes.last() as nat
    }
}

/// The sum of the estimates of encrypted sizes: each a tenth more than the size.
pub open spec fn estimate_of(sizes: Seq<usize>) -> nat
    decreases sizes.len(),
{
    if sizes.len() == 0 {
        0
    } else {
        estimate_of(sizes.drop_last()) + (sizes.last() + sizes.last() / 10) as nat
    }
}

/// One more size adds itself to the sum, and itself and a tenth to the estimate, wherever it
/// stands; no sizes add nothing.
pub proof fn sizes_add_up(a: Seq<u64>, b: Seq<u64>, c: Seq<usize>, d: Seq<usize>)
    ensures
        sum_of(a + b) == sum_of(a) + sum_of(b),
        sum_of(Seq::empty()) == 0,
        forall|x: u64| #[trigger] sum_of(seq![x]) == x,
        estimate_of(c + d) == estimate_of(c) + estimate_of(d),
        estimate_of(Seq::empty()) == 0,
        forall|x: usize| #[trigger] estimate_of(seq![x]) == x + x / 10,
    decreases b.len() + d.len(),
{
    assert forall|x: u64| #[trigger] sum_of(seq![x]) == x by {
        assert(seq![x].drop_last() =~= Seq::<u64>::empty());
        assert(sum_of(seq![x].drop_last()) == 0);
    }
    assert forall|x: usize| #[trigger] estimate_of(seq![x]) == x + x / 10 by {
        assert(seq![x].drop_last() =~= Seq::<usize>::empty());
        assert(estimate_of(seq![x].drop_last()) == 0);
    }
    if b.len() > 0 {
        sizes_add_up(a, b.drop_last(), c, d);
        assert((a + b).drop_last() =~= a + b.drop_last());
    } else if d.len() > 0 {
        sizes_add_up(a, b, c, d.drop_last());
    } else {
        assert(a + b =~= a);
    }
    if d.len() > 0 {
        sizes_add_up(a, b, c, d.drop_last());
        assert((c + d).drop_last() =~= c + d.drop_last());
    } else {
        assert(c + d =~= c);
    }
}

/// The sum of the sizes that begin a list is at most that of all.
proof fn lemma_sum_grows(sizes: Seq<u64>, k: int)
    requires
        0 <= k <= sizes.len(),
    ensures
        sum_of(sizes.take(k)) <= sum_of(sizes),
    decreases sizes.len(),
{
    if k == sizes.len() {
        assert(sizes.take(k) =~= sizes);
    } else {
        assert(sizes.drop_last().take(k) =~= sizes.take(k));
        lemma_sum_grows(sizes.drop_last(), k);
    }
}

/// The estimate of the sizes that begin a list is at most that of all.
proof fn lemma_estimate_grows(sizes: Seq<usize>, k: int)
    requires
        0 <= k <= sizes.len(),
    ensures
        estimate_of(sizes.take(k)) <= estimate_of(sizes),
    decreases sizes.len(),
{
    if k == sizes.len() {
        assert(sizes.take(k) =~= sizes);
    } else {
        assert(sizes.drop_last().take(k) =~= sizes.take(k));
        lemma_estimate_grows(sizes.drop_last(), k);
    }
}

/// The size of all files together, if it can be counted.
pub fn total_size(sizes: &[u64]) -> (r: Option<u64>)
    ensures
        match r {
            Some(total) => total == sum_of(sizes@),
            None => sum_of(sizes@) > u64::MAX,
        },
{
    let mut total: u64 = 0;
    let mut i: usize = 0;
    while i < sizes.len()
        invariant
            i <= sizes@.len(),
            total == sum_of(sizes@.take(i as int)),
        decreases sizes@.len() - i,
    {
        proof {
            assert(sizes@.take(i + 1).drop_last() =~= sizes@.take(i as int));
            assert(sizes@.take(i + 1).last() == sizes@[i as int]);
            lemma_sum_grows(sizes@, i + 1);
        }
        total = match total.checked_add(sizes[i]) {
            Some(sum) => sum,
            None => {
                return None;
            },
        };
        i = i + 1;
    }
    assert(sizes@.take(i as int) =~= sizes@);
    Some(total)
}

/// An estimate of the encrypted size of all files together, if it can be counted.
pub fn estimated_encrypted_size(sizes: &[usize]) -> (r: Option<usize>)
    ensures
        match r {
            Some(total) => total == estimate_of(sizes@),
            None => estimate_of(sizes@) > usize::MAX,
        },
{
    let mut total: usize = 0;
    let mut i: usize = 0;
    while i < sizes.len()
        invariant
            i <= sizes@.len(),
            total == estimate_of(sizes@.take(i as int)),
        decreases sizes@.len() - i,
    {
        proof {
            assert(sizes@.take(i + 1).drop_last() =~= sizes@.take(i as int));
            assert(sizes@.take(i + 1).last() == sizes@[i as int]);
            lemma_estimate_grows(sizes@, i + 1);
        }
        let estimate: usize = match sizes[i].checked_add(sizes[i] / 10) {
            Some(estimate) => estimate,
            None => {
                return None;
            },
        };
        total = match total.checked_add(estimate) {
            Some(sum) => sum,
            None => {
                return None;
            },
        };
        i = i + 1;
    }
    assert(sizes@.take(i as int) =~= sizes@);
    Some(total)
}

/// How many pieces data of this length has.
pub open spec fn chunk_count(total: nat, piece_length: nat) -> nat {
    if total % piece_length == 0 {
        total / piece_length
    } else {
        total / piece_length + 1
    }
}

/// The pieces are enough to hold the data, and one less would not be.
pub proof fn pieces_are_just_enough(total: nat, piece_length: nat)
    requires
        piece_length > 0,
    ensures
        ({
            let count = chunk_count(total, piece_length);
            &&& total <= count * piece_length
            &&& total > 0 ==> (count - 1) * piece_length < total
            &&& total == 0 ==> count == 0
        }),
{
    let (q, r) = (total / piece_length, total % piece_length);
    assert(total == q * piece_length + r && r < piece_length) by (nonlinear_arith)
        requires
            q == total / piece_length,
            r == total % piece_length,
            piece_length > 0,
    ;
    assert((q + 1) * piece_length == q * piece_length + piece_length && (q - 1) * piece_length == q
        * piece_length - piece_length) by (nonlinear_arith);
    assert((q + 1 - 1) * piece_length == q * piece_length) by (nonlinear_arith);
    if total == 0 {
        assert(0nat / piece_length == 0 && 0nat % piece_length == 0) by (nonlinear_arith)
            requires
                piece_length > 0,
        ;
    }
}

/// How many pieces data of this length has.
pub fn num_chunks(total_size: usize, piece_length: usize) -> (count: usize)
    requires
        piece_length > 0,
    ensures
        count == chunk_count(total_size as nat, piece_length as nat),
{
    let whole: usize = total_size / piece_length;
    if total_size % piece_length == 0 {
        whole
    } else {
        proof {
            assert(whole < total_size) by (nonlinear_arith)
                requires
                    whole == total_size / piece_length,
                    total_size % piece_length != 0,
                    piece_length > 0,
            ;
        }
        whole + 1
    }
}

/// How many upload tokens are asked for.
pub open spec fn token_count(num_chunks: nat) -> nat {
    if num_chunks < PARALLEL_UPLOADS {
        num_chunks
    } else {
        PARALLEL_UPLOADS as nat
    }
}

/// How many upload tokens are asked for.
pub fn num_tokens(num_chunks: usize) -> (count: usize)
    ensures
        count == token_count(num_chunks as nat),
{
    if num_chunks < PARALLEL_UPLOADS {
        num_chunks
    } else {
        PARALLEL_UPLOADS
    }
}

/// Which upload token a piece is uploaded with.
pub open spec fn token_of(chunk_index: nat) -> nat {
    chunk_index % PARALLEL_UPLOADS as nat
}

/// The tokens take turns: the first pieces have those of their own index, and ten pieces further on
/// it is the same one's turn again. There are never more than ten, nor more than pieces.
pub proof fn tokens_take_turns(chunk_index: nat, num_chunks: nat)
    ensures
        token_of(chunk_index) < 10,
        chunk_index < 10 ==> token_of(chunk_index) == chunk_index,
        token_of(chunk_index + 10) == token_of(chunk_index),
        token_count(num_chunks) <= 10,
        token_count(num_chunks) <= num_chunks,
        token_count(num_chunks) == 10 || token_count(num_chunks) == num_chunks,
        chunk_index < num_chunks ==> token_of(chunk_index) < token_count(num_chunks),
{
}

/// Which upload token a piece is uploaded with.
pub fn token_index(chunk_index: usize) -> (index: usize)
    ensures
        index == chunk_index % PARALLEL_UPLOADS,
        index == token_of(chunk_index as nat),
{
    chunk_index % PARALLEL_UPLOADS
}

/// The tokens that are asked for are enough: there is one for every piece.
pub proof fn every_piece_has_a_token(chunk_index: nat, num_chunks: nat)
    requires
        chunk_index < num_chunks,
    ensures
        chunk_index % (PARALLEL_UPLOADS as nat) < token_count(num_chunks),
{
}

/// The data has as many pieces as were announced.
pub proof fn pieces_are_counted(data: Seq<u8>, piece_length: nat)
    requires
        piece_length > 0,
    ensures
        pieces(data, piece_length).len() == chunk_count(data.len(), piece_length),
{
    lemma_chunk_lengths(data, piece_length);
    let count = full_chunks(data, piece_length).len();
    let left = remainder(data, piece_length).len();
    assert(data.len() / piece_length == count && data.len() % piece_length == left)
        by (nonlinear_arith)
        requires
            count * piece_length + left == data.len(),
            left < piece_length,
    ;
}

/// How many whole hours so many seconds are.
pub fn hours(seconds: i64) -> (r: i64)
    ensures
        seconds >= 0 ==> r == seconds as int / 3600,
        seconds < 0 ==> r == -((-seconds) / 3600),
        seconds >= 0 ==> 3600 * r <= seconds < 3600 * (r + 1),
        seconds < 0 ==> 3600 * (r - 1) < seconds <= 3600 * r,
{
    if seconds >= 0 {
        seconds / 60 / 60
    } else if seconds == i64::MIN {
        -2_562_047_788_015_215
    } else {
        -((-seconds) / 60 / 60)
    }
}

// ---- the torrent ----

/// Whether a text is a torrent file as a room keeps it: in standard base64, an IV of sixteen bytes
/// and the ciphertext under it, with the key that HKDF derives for metadata.
pub open spec fn is_sealed_torrent(
    text: Seq<char>,
    torrent: Seq<u8>,
    master_key: Seq<u8>,
    salt: Seq<u8>,
) -> bool {
    &&& base64_decoded(text, Variant::Standard) matches Some(encrypted)
    &&& encrypted.len() == torrent.len() + 32
    &&& encrypted.skip(16) == aes128gcm_iv16_seal(
        hkdf_sha256(master_key, salt, encode_utf8("metadata"@), 16),
        encrypted.take(16),
        torrent,
    )
}

/// Encrypts the torrent file for the room. Readers, who have the key and the salt, decrypt it
/// again.
pub fn seal_torrent(torrent: &[u8], master_key: &[u8], salt: &[u8]) -> (r: Result<String, Error>)
    ensures
        match r {
            Ok(text) => {
                &&& hkdf_accepts(master_key@, salt@)
                &&& torrent@.len() <= MESSAGE_MAX
                &&& base64_fits(torrent@.len() + 2 * KEY_LENGTH as nat)
                &&& decrypted_torrent(text@, master_key@, salt@) == Ok::<Seq<u8>, Error>(torrent@)
                &&& is_sealed_torrent(text@, torrent@, master_key@, salt@)
            },
            Err(e) => {
                ||| e == Error::KeyDerivation && !hkdf_accepts(master_key@, salt@)
                ||| e == Error::MetadataEncryption && hkdf_accepts(master_key@, salt@)
                    && (torrent@.len() > MESSAGE_MAX || !base64_fits(
                    torrent@.len() + 2 * KEY_LENGTH as nat,
                ))
            },
        },
{
    let meta_key: Vec<u8> = match derive_meta_key(master_key, salt) {
        Ok(key) => key,
        Err(e) => {
            return Err(e);
        },
    };
    match encrypt_metadata(torrent, meta_key.as_slice()) {
        Ok(encrypted) => {
            if !fits_base64(encrypted.len()) {
                return Err(Error::MetadataEncryption);
            }
            proof {
                base64_decodes(encrypted@, Variant::Standard);
                let iv = encrypted@.take(16);
                assert(encrypted@.skip(16) =~= aes128gcm_iv16_seal(meta_key@, iv, torrent@));
            }
            Ok(base64_encode(encrypted.as_slice()))
        },
        Err(e) => Err(e),
    }
}

/// What a prepared upload consists of.
pub struct PreparedUpload {
    /// What the server is told of the room.
    pub request: UpdateRoomRequest,
    /// The salts for the second pass.
    pub salts: Vec<[u8; KEY_LENGTH]>,
    /// The length of the encrypted data.
    pub total_size: usize,
    /// How many pieces it has.
    pub num_chunks: usize,
    /// The torrent file.
    pub torrent: Vec<u8>,
}

/// The `info` dictionary of an upload: of its files if a directory is uploaded, else of the file
/// that bears the name.
pub open spec fn upload_info(
    name: Seq<char>,
    multi_file: bool,
    piece_length: usize,
    hashed: HashedUpload,
    nonce: Seq<u8>,
) -> Node {
    if multi_file {
        multi_info(
            name,
            hashed.files@,
            piece_length,
            byte_strings(hashed.piece_hashes@),
            nonce,
        )
    } else {
        single_info(
            name,
            hashed.total_size,
            piece_length,
            byte_strings(hashed.piece_hashes@),
            nonce,
        )
    }
}

/// Whether a torrent was made and is too long to be encrypted and put in base64.
pub open spec fn too_long_to_seal(made: Result<(Seq<u8>, Seq<char>), Error>) -> bool {
    made matches Ok((torrent, _)) && (torrent.len() > MESSAGE_MAX || !base64_fits(
        torrent.len() + 2 * KEY_LENGTH as nat,
    ))
}

/// What a prepared upload holds, whatever its torrent is.
pub open spec fn prepared_for(
    prepared: PreparedUpload,
    multi_file: bool,
    piece_length: usize,
    hashed: HashedUpload,
    master_key: Seq<u8>,
    salt: Seq<u8>,
) -> bool {
    &&& prepared.salts == hashed.salts
    &&& prepared.total_size == hashed.total_size
    &&& prepared.num_chunks == chunk_count(hashed.total_size as nat, piece_length as nat)
    &&& prepared.request.multi_file == multi_file
    &&& prepared.request.size_mb == rounded_megabytes(hashed.total_size as nat)
    &&& decrypted_torrent(prepared.request.encrypted_torrent_file@, master_key, salt) == Ok::<
        Seq<u8>,
        Error,
    >(prepared.torrent@)
    &&& is_sealed_torrent(
        prepared.request.encrypted_torrent_file@,
        prepared.torrent@,
        master_key,
        salt,
    )
}

/// A prepared upload announces what the first pass has found out: the same salts and the same
/// length; just as many pieces as hold the data; the size in the nearest megabytes that two digits
/// can tell; and whether there are several files. The torrent is sealed for the readers of the room.
pub proof fn prepared_upload_announces_the_data(
    prepared: PreparedUpload,
    multi_file: bool,
    piece_length: usize,
    hashed: HashedUpload,
    master_key: Seq<u8>,
    salt: Seq<u8>,
)
    requires
        piece_length > 0,
        prepared_for(prepared, multi_file, piece_length, hashed, master_key, salt),
    ensures
        prepared.salts == hashed.salts,
        prepared.total_size == hashed.total_size,
        hashed.total_size <= prepared.num_chunks * piece_length,
        hashed.total_size > 0 ==> (prepared.num_chunks - 1) * piece_length < hashed.total_size,
        hashed.total_size == 0 ==> prepared.num_chunks == 0,
        prepared.request.multi_file == multi_file,
        exists|scale: nat|
            {
                &&& #[trigger] is_power_of_ten(scale)
                &&& prepared.request.size_mb <= 100 * scale
                &&& is_nearest_multiple(
                    prepared.request.size_mb as nat,
                    scale,
                    hashed.total_size as nat,
                )
                &&& scale == 1 || 10_050_000 * scale <= hashed.total_size
            },
        is_sealed_torrent(
            prepared.request.encrypted_torrent_file@,
            prepared.torrent@,
            master_key,
            salt,
        ),
{
    pieces_are_just_enough(hashed.total_size as nat, piece_length as nat);
    megabytes_are_the_nearest(hashed.total_size as nat);
}

/// Prepares an upload after the first pass, with the given nonce and date of creation: makes the
/// torrent, encrypts it for the room, and counts the pieces.
pub fn prepare_upload_at(
    name: &str,
    multi_file: bool,
    piece_length: usize,
    hashed: HashedUpload,
    master_key: &[u8],
    salt: &[u8],
    nonce: &[u8; 16],
    created: i64,
) -> (r: Result<PreparedUpload, Error>)
    requires
        piece_length > 0,
    ensures
        ({
            let made = made_torrent(
                upload_info(name@, multi_file, piece_length, hashed, nonce@),
                created,
            );
            match made {
                Err(e) => r == Err::<PreparedUpload, Error>(e),
                Ok((torrent, info_hash)) => if !hkdf_accepts(master_key@, salt@) {
                    r == Err::<PreparedUpload, Error>(Error::KeyDerivation)
                } else if too_long_to_seal(made) {
                    r == Err::<PreparedUpload, Error>(Error::MetadataEncryption)
                } else {
                    &&& r matches Ok(prepared)
                    &&& prepared.torrent@ == torrent
                    &&& prepared.request.info_hash@ == info_hash
                    &&& info_hash.len() == INFO_HASH_LENGTH
                    &&& prepared_for(
                        prepared,
                        multi_file,
                        piece_length,
                        hashed,
                        master_key@,
                        salt@,
                    )
                },
            }
        }),
{
    let made: Result<(Vec<u8>, String), Error> = if multi_file {
        create_multi_file_torrent_at(
            name,
            hashed.files.as_slice(),
            piece_length,
            &hashed.piece_hashes,
            nonce,
            created,
        )
    } else {
        create_torrent_at(
            name,
            hashed.total_size,
            piece_length,
            &hashed.piece_hashes,
            nonce,
            created,
        )
    };
    let (torrent, info_hash) = match made {
        Ok((torrent, info_hash)) => (torrent, info_hash),
        Err(e) => {
            return Err(e);
        },
    };
    let encrypted_torrent_file: String = match seal_torrent(torrent.as_slice(), master_key, salt) {
        Ok(text) => text,
        Err(e) => {
            return Err(e);
        },
    };
    let request = UpdateRoomRequest {
        info_hash,
        encrypted_torrent_file,
        multi_file,
        size_mb: round_size_as_mb(hashed.total_size),
    };
    Ok(
        PreparedUpload {
            request,
            salts: hashed.salts,
            total_size: hashed.total_size,
            num_chunks: num_chunks(hashed.total_size, piece_length),
            torrent,
        },
    )
}

/// Prepares an upload after the first pass, with a random nonce and the present date.
pub fn prepare_upload(
    name: &str,
    multi_file: bool,
    piece_length: usize,
    hashed: HashedUpload,
    master_key: &[u8],
    salt: &[u8],
) -> (r: Result<PreparedUpload, Error>)
    requires
        piece_length > 0,
    ensures
        match r {
            Ok(prepared) => {
                &&& hkdf_accepts(master_key@, salt@)
                &&& prepared.request.info_hash@.len() == INFO_HASH_LENGTH
                &&& prepared_for(prepared, multi_file, piece_length, hashed, master_key@, salt@)
                &&& exists|nonce: Seq<u8>, created: i64|
                    nonce.len() == 16 && #[trigger] made_torrent(
                        upload_info(name@, multi_file, piece_length, hashed, nonce),
                        created,
                    ) == Ok::<(Seq<u8>, Seq<char>), Error>(
                        (prepared.torrent@, prepared.request.info_hash@),
                    )
            },
            Err(e) => {
                ||| e == Error::Clock
                ||| e == Error::KeyDerivation && !hkdf_accepts(master_key@, salt@)
                ||| exists|nonce: Seq<u8>, created: i64|
                    nonce.len() == 16 && #[trigger] made_torrent(
                        upload_info(name@, multi_file, piece_length, hashed, nonce),
                        created,
                    ) == Err::<(Seq<u8>, Seq<char>), Error>(e)
                ||| e == Error::MetadataEncryption && exists|nonce: Seq<u8>, created: i64|
                    nonce.len() == 16 && too_long_to_seal(
                        #[trigger] made_torrent(
                            upload_info(name@, multi_file, piece_length, hashed, nonce),
                            created,
                        ),
                    )
            },
        },
{
    let nonce: [u8; 16] = random_bytes();
    match seconds_since_epoch() {
        Some(seconds) => prepare_upload_at(
            name,
            multi_file,
            piece_length,
            hashed,
            master_key,
            salt,
            &nonce,
            seconds as i64,
        ),
        None => Err(Error::Clock),
    }
}

} // verus!
