//! Key derivation and authenticated encryption: HKDF with SHA-256, AES-128 in Galois/counter
//! mode, and the nonce of each record of an encrypted stream.

use aes_gcm::aead::consts::U16;
use aes_gcm::aead::generic_array::GenericArray;
use aes_gcm::aead::{Aead, KeyInit};
use aes_gcm::aes::Aes128;
use aes_gcm::{Aes128Gcm, AesGcm};
use rand::Rng;
use ring::hkdf::{KeyType, Salt, HKDF_SHA256};
use vstd::prelude::*;
use vstd::utf8::{encode_utf8, is_ascii_chars_encode_utf8};

use crate::error::{seq_of, Error};

verus! {

/// Length of encryption keys in bytes.
pub const KEY_LENGTH: usize = 16;

/// Length of nonces in bytes.
pub const NONCE_LENGTH: usize = 12;

/// Length of an authentication tag in bytes.
pub const TAG_LENGTH: usize = 16;

/// The longest key or salt that HKDF takes: with one more block before it, SHA-256 can still
/// count its bits.
pub const HKDF_INPUT_MAX: u64 = 0x1fff_ffff_ffff_ffbf;

/// The longest message that AES-GCM encrypts, in bytes.
pub const MESSAGE_MAX: u64 = 0x10_0000_0000;

// ---- outside functions ----

/// What HKDF with SHA-256 derives from key material, a salt and an info string.
pub uninterp spec fn hkdf_sha256(
    master_key: Seq<u8>,
    salt: Seq<u8>,
    info: Seq<u8>,
    length: nat,
) -> Seq<u8>;

/// The ciphertext and tag that AES-128-GCM makes of a message, with a nonce of 12 bytes.
pub uninterp spec fn aes128gcm_seal(key: Seq<u8>, nonce: Seq<u8>, message: Seq<u8>) -> Seq<u8>;

/// The message that AES-128-GCM recovers with a nonce of 12 bytes, if the tag is right.
pub uninterp spec fn aes128gcm_open(
    key: Seq<u8>,
    nonce: Seq<u8>,
    sealed: Seq<u8>,
) -> Option<Seq<u8>>;

/// The ciphertext and tag that AES-128-GCM makes of a message, with a nonce of 16 bytes.
pub uninterp spec fn aes128gcm_iv16_seal(
    key: Seq<u8>,
    nonce: Seq<u8>,
    message: Seq<u8>,
) -> Seq<u8>;

/// The message that AES-128-GCM recovers with a nonce of 16 bytes, if the tag is right.
pub uninterp spec fn aes128gcm_iv16_open(
    key: Seq<u8>,
    nonce: Seq<u8>,
    sealed: Seq<u8>,
) -> Option<Seq<u8>>;

/// An output length for HKDF.
struct HkdfLength(usize);

impl HkdfLength {
    /// The length in bytes.
    pub closed spec fn bytes(&self) -> usize {
        self.0
    }
}

impl KeyType for HkdfLength {
    /// The length that is asked for.
    fn len(&self) -> (length: usize)
        ensures
            length == self.bytes(),
    {
        self.0
    }
}

/// `ring::hkdf`: extract with `Salt::extract`, expand with `Prk::expand`, read with `Okm::fill`.
/// The output has the length asked for and depends on the four arguments alone. There is none if
/// and only if more than 255 blocks of 32 bytes are asked for. Inputs too long for SHA-256 to
/// count make `ring` panic and are left out.
#[verifier::external_body]
fn hkdf_derive(master_key: &[u8], salt: &[u8], info: &[u8], length: usize) -> (r: Option<Vec<u8>>)
    requires
        master_key@.len() <= HKDF_INPUT_MAX,
        salt@.len() <= HKDF_INPUT_MAX,
        info@.len() + 33 <= HKDF_INPUT_MAX,
    ensures
        r is Some <==> length <= 8160,
        r matches Some(output) ==> output@ == hkdf_sha256(master_key@, salt@, info@, length as nat)
            && output@.len() == length,
{
    let prk = Salt::new(HKDF_SHA256, salt).extract(master_key);
    let info_array = [info];
    let okm = prk.expand(&info_array, HkdfLength(length)).ok()?;
    let mut output = vec![0u8; length];
    okm.fill(&mut output).ok()?;
    Some(output)
}

/// `aes_gcm::Aes128Gcm::encrypt`. It fails if and only if the message is longer than 2^36 bytes.
/// The result is the ciphertext, as long as the message, with the tag behind it; it depends on
/// the arguments alone, and `decrypt` gives the message back.
#[verifier::external_body]
pub(crate) fn gcm_seal(key: &[u8], nonce: &[u8], message: &[u8]) -> (r: Option<Vec<u8>>)
    requires
        key@.len() == KEY_LENGTH,
        nonce@.len() == NONCE_LENGTH,
    ensures
        r is Some <==> message@.len() <= MESSAGE_MAX,
        r matches Some(sealed) ==> {
            &&& sealed@ == aes128gcm_seal(key@, nonce@, message@)
            &&& sealed@.len() == message@.len() + TAG_LENGTH
            &&& aes128gcm_open(key@, nonce@, sealed@) == Some(message@)
        },
{
    let cipher = Aes128Gcm::new_from_slice(key).ok()?;
    cipher.encrypt(GenericArray::from_slice(nonce), message).ok()
}

/// `aes_gcm::Aes128Gcm::decrypt`. Whether it recovers a message, and which, depends on the
/// arguments alone; a message is shorter than what was decrypted by the length of the tag.
#[verifier::external_body]
pub(crate) fn gcm_open(key: &[u8], nonce: &[u8], sealed: &[u8]) -> (r: Option<Vec<u8>>)
    requires
        key@.len() == KEY_LENGTH,
        nonce@.len() == NONCE_LENGTH,
    ensures
        r is Some <==> aes128gcm_open(key@, nonce@, sealed@) is Some,
        r matches Some(message) ==> {
            &&& aes128gcm_open(key@, nonce@, sealed@) == Some(message@)
            &&& message@.len() + TAG_LENGTH == sealed@.len()
        },
{
    let cipher = Aes128Gcm::new_from_slice(key).ok()?;
    cipher.decrypt(GenericArray::from_slice(nonce), sealed).ok()
}

/// `aes_gcm::AesGcm<Aes128, U16>::encrypt`, which is `Aes128Gcm::encrypt` with a nonce of 16
/// bytes; the same is claimed of it.
#[verifier::external_body]
pub(crate) fn gcm_iv16_seal(key: &[u8], nonce: &[u8], message: &[u8]) -> (r: Option<Vec<u8>>)
    requires
        key@.len() == KEY_LENGTH,
        nonce@.len() == KEY_LENGTH,
    ensures
        r is Some <==> message@.len() <= MESSAGE_MAX,
        r matches Some(sealed) ==> {
            &&& sealed@ == aes128gcm_iv16_seal(key@, nonce@, message@)
            &&& sealed@.len() == message@.len() + TAG_LENGTH
            &&& aes128gcm_iv16_open(key@, nonce@, sealed@) == Some(message@)
        },
{
    let cipher = AesGcm::<Aes128, U16>::new_from_slice(key).ok()?;
    cipher.encrypt(GenericArray::from_slice(nonce), message).ok()
}

/// `aes_gcm::AesGcm<Aes128, U16>::decrypt`, which is `Aes128Gcm::decrypt` with a nonce of 16
/// bytes; the same is claimed of it.
#[verifier::external_body]
fn gcm_iv16_open(key: &[u8], nonce: &[u8], sealed: &[u8]) -> (r: Option<Vec<u8>>)
    requires
        key@.len() == KEY_LENGTH,
        nonce@.len() == KEY_LENGTH,
    ensures
        r is Some <==> aes128gcm_iv16_open(key@, nonce@, sealed@) is Some,
        r matches Some(message) ==> {
            &&& aes128gcm_iv16_open(key@, nonce@, sealed@) == Some(message@)
            &&& message@.len() + TAG_LENGTH == sealed@.len()
        },
{
    let cipher = AesGcm::<Aes128, U16>::new_from_slice(key).ok()?;
    cipher.decrypt(GenericArray::from_slice(nonce), sealed).ok()
}

/// `rand::Rng::gen` on the thread's generator: sixteen bytes of which nothing is claimed.
#[verifier::external_body]
pub(crate) fn random_bytes() -> (bytes: [u8; 16]) {
    rand::thread_rng().gen()
}

// ---- keys ----

/// Whether HKDF takes this key material and this salt.
pub open spec fn hkdf_accepts(master_key: Seq<u8>, salt: Seq<u8>) -> bool {
    master_key.len() <= HKDF_INPUT_MAX && salt.len() <= HKDF_INPUT_MAX
}

/// The key or nonce base of `length` bytes that is derived under an info string.
pub open spec fn derived(
    master_key: Seq<u8>,
    salt: Seq<u8>,
    info: Seq<u8>,
    length: nat,
) -> Result<Seq<u8>, Error> {
    if hkdf_accepts(master_key, salt) {
        Ok(hkdf_sha256(master_key, salt, info, length))
    } else {
        Err(Error::KeyDerivation)
    }
}

/// The info string of the authentication token.
pub open spec fn auth_info() -> Seq<u8> {
    encode_utf8("authentication"@)
}

/// The info string of the metadata key.
pub open spec fn meta_info() -> Seq<u8> {
    encode_utf8("metadata"@)
}

/// The info string of the content key.
pub open spec fn content_info() -> Seq<u8> {
    encode_utf8("Content-Encoding: aes128gcm\0"@)
}

/// The info string of the nonce base.
pub open spec fn nonce_info() -> Seq<u8> {
    encode_utf8("Content-Encoding: nonce\0"@)
}

/// The content key of a stream with this salt.
pub open spec fn content_key(master_key: Seq<u8>, salt: Seq<u8>) -> Seq<u8> {
    hkdf_sha256(master_key, salt, content_info(), KEY_LENGTH as nat)
}

/// The nonce base of a stream with this salt.
pub open spec fn nonce_base(master_key: Seq<u8>, salt: Seq<u8>) -> Seq<u8> {
    hkdf_sha256(master_key, salt, nonce_info(), NONCE_LENGTH as nat)
}

/// The keys of a room and of a stream are what HKDF derives from the key of the link and the salt,
/// each under its own info string. The info strings are given by their bytes. There are no keys
/// where the key or the salt is too long, and only there.
pub proof fn keys_are_derived(master_key: Seq<u8>, salt: Seq<u8>, length: nat)
    ensures
        ({
            let info = seq![
                97u8, 117u8, 116u8, 104u8, 101u8, 110u8, 116u8, 105u8, 99u8, 97u8, 116u8, 105u8,
                111u8, 110u8,
            ];
            derived(master_key, salt, auth_info(), length) == if hkdf_accepts(master_key, salt) {
                Ok(hkdf_sha256(master_key, salt, info, length))
            } else {
                Err::<Seq<u8>, Error>(Error::KeyDerivation)
            }
        }),
        ({
            let info = seq![109u8, 101u8, 116u8, 97u8, 100u8, 97u8, 116u8, 97u8];
            derived(master_key, salt, meta_info(), length) == if hkdf_accepts(master_key, salt) {
                Ok(hkdf_sha256(master_key, salt, info, length))
            } else {
                Err::<Seq<u8>, Error>(Error::KeyDerivation)
            }
        }),
        ({
            let info = seq![
                67u8, 111u8, 110u8, 116u8, 101u8, 110u8, 116u8, 45u8, 69u8, 110u8, 99u8, 111u8,
                100u8, 105u8, 110u8, 103u8, 58u8, 32u8, 97u8, 101u8, 115u8, 49u8, 50u8, 56u8,
                103u8, 99u8, 109u8, 0u8,
            ];
            derived(master_key, salt, content_info(), length) == if hkdf_accepts(master_key, salt) {
                Ok(hkdf_sha256(master_key, salt, info, length))
            } else {
                Err::<Seq<u8>, Error>(Error::KeyDerivation)
            }
        }),
        ({
            let info = seq![
                67u8, 111u8, 110u8, 116u8, 101u8, 110u8, 116u8, 45u8, 69u8, 110u8, 99u8, 111u8,
                100u8, 105u8, 110u8, 103u8, 58u8, 32u8, 110u8, 111u8, 110u8, 99u8, 101u8, 0u8,
            ];
            derived(master_key, salt, nonce_info(), length) == if hkdf_accepts(master_key, salt) {
                Ok(hkdf_sha256(master_key, salt, info, length))
            } else {
                Err::<Seq<u8>, Error>(Error::KeyDerivation)
            }
        }),
        content_key(master_key, salt) == hkdf_sha256(master_key, salt, seq![
            67u8, 111u8, 110u8, 116u8, 101u8, 110u8, 116u8, 45u8, 69u8, 110u8, 99u8, 111u8,
            100u8, 105u8, 110u8, 103u8, 58u8, 32u8, 97u8, 101u8, 115u8, 49u8, 50u8, 56u8,
            103u8, 99u8, 109u8, 0u8,
        ], 16),
        nonce_base(master_key, salt) == hkdf_sha256(master_key, salt, seq![
            67u8, 111u8, 110u8, 116u8, 101u8, 110u8, 116u8, 45u8, 69u8, 110u8, 99u8, 111u8,
            100u8, 105u8, 110u8, 103u8, 58u8, 32u8, 110u8, 111u8, 110u8, 99u8, 101u8, 0u8,
        ], 12),
        hkdf_accepts(master_key, salt) <==> master_key.len() <= HKDF_INPUT_MAX && salt.len()
            <= HKDF_INPUT_MAX,
{
    reveal_strlit("authentication");
    is_ascii_chars_encode_utf8("authentication"@);
    assert(auth_info() =~= seq![
        97u8, 117u8, 116u8, 104u8, 101u8, 110u8, 116u8, 105u8, 99u8, 97u8, 116u8, 105u8,
        111u8, 110u8,
    ]);
    reveal_strlit("metadata");
    is_ascii_chars_encode_utf8("metadata"@);
    assert(meta_info() =~= seq![109u8, 101u8, 116u8, 97u8, 100u8, 97u8, 116u8, 97u8]);
    reveal_strlit("Content-Encoding: aes128gcm\0");
    is_ascii_chars_encode_utf8("Content-Encoding: aes128gcm\0"@);
    assert(content_info() =~= seq![
        67u8, 111u8, 110u8, 116u8, 101u8, 110u8, 116u8, 45u8, 69u8, 110u8, 99u8, 111u8,
        100u8, 105u8, 110u8, 103u8, 58u8, 32u8, 97u8, 101u8, 115u8, 49u8, 50u8, 56u8,
        103u8, 99u8, 109u8, 0u8,
    ]);
    reveal_strlit("Content-Encoding: nonce\0");
    is_ascii_chars_encode_utf8("Content-Encoding: nonce\0"@);
    assert(nonce_info() =~= seq![
        67u8, 111u8, 110u8, 116u8, 101u8, 110u8, 116u8, 45u8, 69u8, 110u8, 99u8, 111u8,
        100u8, 105u8, 110u8, 103u8, 58u8, 32u8, 110u8, 111u8, 110u8, 99u8, 101u8, 0u8,
    ]);
}

/// Derives `length` bytes from key material, a salt and an info string.
fn derive(master_key: &[u8], salt: &[u8], info: &[u8], length: usize) -> (r: Result<Vec<u8>, Error>)
    requires
        info@.len() <= 64,
        length <= 8160,
    ensures
        seq_of(r) == derived(master_key@, salt@, info@, length as nat),
        r matches Ok(key) ==> key@.len() == length,
{
    if master_key.len() as u64 > HKDF_INPUT_MAX || salt.len() as u64 > HKDF_INPUT_MAX {
        return Err(Error::KeyDerivation);
    }
    match hkdf_derive(master_key, salt, info, length) {
        Some(output) => Ok(output),
        None => Err(Error::KeyDerivation),
    }
}

/// Derives a key.
fn derive_key(master_key: &[u8], salt: &[u8], info: &[u8]) -> (r: Result<Vec<u8>, Error>)
    requires
        info@.len() <= 64,
    ensures
        seq_of(r) == derived(master_key@, salt@, info@, KEY_LENGTH as nat),
        r matches Ok(key) ==> key@.len() == KEY_LENGTH,
{
    derive(master_key, salt, info, KEY_LENGTH)
}

/// Derives the authentication token.
pub fn derive_auth_token(master_key: &[u8], salt: &[u8]) -> (r: Result<Vec<u8>, Error>)
    ensures
        seq_of(r) == derived(master_key@, salt@, auth_info(), KEY_LENGTH as nat),
        r matches Ok(key) ==> key@.len() == KEY_LENGTH,
{
    proof {
        reveal_strlit("authentication");
        is_ascii_chars_encode_utf8("authentication"@);
    }
    derive_key(master_key, salt, "authentication".as_bytes())
}

/// Derives the key that encrypts the torrent file.
pub fn derive_meta_key(master_key: &[u8], salt: &[u8]) -> (r: Result<Vec<u8>, Error>)
    ensures
        seq_of(r) == derived(master_key@, salt@, meta_info(), KEY_LENGTH as nat),
        r matches Ok(key) ==> key@.len() == KEY_LENGTH,
{
    proof {
        reveal_strlit("metadata");
        is_ascii_chars_encode_utf8("metadata"@);
    }
    derive_key(master_key, salt, "metadata".as_bytes())
}

/// Derives the key that encrypts the content of a stream.
pub fn derive_content_key(master_key: &[u8], salt: &[u8]) -> (r: Result<Vec<u8>, Error>)
    ensures
        seq_of(r) == derived(master_key@, salt@, content_info(), KEY_LENGTH as nat),
        r matches Ok(key) ==> key@.len() == KEY_LENGTH,
{
    proof {
        reveal_strlit("Content-Encoding: aes128gcm\0");
        is_ascii_chars_encode_utf8("Content-Encoding: aes128gcm\0"@);
    }
    derive_key(master_key, salt, "Content-Encoding: aes128gcm\0".as_bytes())
}

/// Derives the nonce base of a stream.
pub fn derive_nonce_base(master_key: &[u8], salt: &[u8]) -> (r: Result<Vec<u8>, Error>)
    ensures
        seq_of(r) == derived(master_key@, salt@, nonce_info(), NONCE_LENGTH as nat),
        r matches Ok(base) ==> base@.len() == NONCE_LENGTH,
{
    proof {
        reveal_strlit("Content-Encoding: nonce\0");
        is_ascii_chars_encode_utf8("Content-Encoding: nonce\0"@);
    }
    derive(master_key, salt, "Content-Encoding: nonce\0".as_bytes(), NONCE_LENGTH)
}

// ---- nonces ----

/// The four bytes of a number, the most significant first.
pub open spec fn be_bytes(x: u32) -> Seq<u8> {
    seq![
        (x / 0x100_0000) as u8,
        (x / 0x1_0000 % 0x100) as u8,
        (x / 0x100 % 0x100) as u8,
        (x % 0x100) as u8,
    ]
}

/// The nonce of a record: the nonce base with the record's number XORed into its last four bytes.
pub open spec fn record_nonce(base: Seq<u8>, seq: u32) -> Seq<u8> {
    Seq::new(
        NONCE_LENGTH as nat,
        |i: int| if i < 8 { base[i] } else { base[i] ^ be_bytes(seq)[i - 8] },
    )
}

/// Two records of one stream never share a nonce.
pub proof fn nonce_is_unique(base: Seq<u8>, seq1: u32, seq2: u32)
    requires
        base.len() == NONCE_LENGTH,
        seq1 != seq2,
    ensures
        record_nonce(base, seq1) != record_nonce(base, seq2),
{
    let a = be_bytes(seq1);
    let b = be_bytes(seq2);
    if record_nonce(base, seq1) == record_nonce(base, seq2) {
        assert forall|k: int| 0 <= k < 4 implies a[k] == b[k] by {
            let (x, y, z) = (base[8 + k], a[k], b[k]);
            assert(record_nonce(base, seq1)[8 + k] == record_nonce(base, seq2)[8 + k]);
            assert(x ^ y == x ^ z ==> y == z) by (bit_vector);
        }
        assert(a[0] == b[0] && a[1] == b[1] && a[2] == b[2] && a[3] == b[3]);
        lemma_be_bytes_injective(seq1, seq2);
    }
}

/// The number that a nonce holds: what its last four bytes, each XORed with that of the base at
/// its place, stand for, the most significant first.
pub open spec fn number_in_nonce(base: Seq<u8>, nonce: Seq<u8>) -> int {
    (nonce[8] ^ base[8]) * 0x100_0000 + (nonce[9] ^ base[9]) * 0x1_0000 + (nonce[10] ^ base[10])
        * 0x100 + (nonce[11] ^ base[11])
}

/// The nonce of a record holds the number of the record; its first eight bytes are those of the
/// base.
pub proof fn nonce_holds_the_record_number(base: Seq<u8>, seq: u32)
    requires
        base.len() == NONCE_LENGTH,
    ensures
        ({
            let nonce = record_nonce(base, seq);
            &&& nonce.len() == 12
            &&& forall|i: int| 0 <= i < 8 ==> #[trigger] nonce[i] == base[i]
            &&& number_in_nonce(base, nonce) == seq
            &&& be_value(Seq::new(4, |k: int| nonce[8 + k] ^ base[8 + k])) == seq
        }),
{
    let nonce = record_nonce(base, seq);
    let bytes = be_bytes(seq);
    assert forall|k: int| 0 <= k < 4 implies nonce[8 + k] ^ #[trigger] base[8 + k] == bytes[k] by {
        let (x, y) = (base[8 + k], bytes[k]);
        assert((x ^ y) ^ x == y) by (bit_vector);
    }
    assert(nonce[8] ^ base[8 + 0int] == bytes[0]);
    assert(nonce[9] ^ base[8 + 1int] == bytes[1]);
    assert(nonce[10] ^ base[8 + 2int] == bytes[2]);
    assert(nonce[11] ^ base[8 + 3int] == bytes[3]);
}

/// The four bytes of a number tell it apart from every other.
pub proof fn lemma_be_bytes_injective(x: u32, y: u32)
    ensures
        be_bytes(x) == be_bytes(y) ==> x == y,
{
    lemma_be_value(x);
    lemma_be_value(y);
}

/// The number that four bytes stand for, the most significant first.
pub open spec fn be_value(b: Seq<u8>) -> nat {
    (b[0] * 0x100_0000 + b[1] * 0x1_0000 + b[2] * 0x100 + b[3]) as nat
}

/// The four bytes of a number stand for it.
pub proof fn lemma_be_value(x: u32)
    ensures
        be_value(be_bytes(x)) == x,
{
}

/// The four bytes of a number, the most significant first.
pub(crate) fn to_be_bytes(x: u32) -> (b: [u8; 4])
    ensures
        b@ == be_bytes(x),
{
    [
        (x / 0x100_0000) as u8,
        (x / 0x1_0000 % 0x100) as u8,
        (x / 0x100 % 0x100) as u8,
        (x % 0x100) as u8,
    ]
}

/// Generates the nonce of the record with number `seq`: the number is XORed into the last four
/// bytes of the nonce base.
pub fn generate_nonce(nonce_base: &[u8], seq: u32) -> (r: Result<Vec<u8>, Error>)
    ensures
        seq_of(r) == if nonce_base@.len() == NONCE_LENGTH {
            Ok(record_nonce(nonce_base@, seq))
        } else {
            Err(Error::NonceBaseLength)
        },
        r matches Ok(nonce) ==> number_in_nonce(nonce_base@, nonce@) == seq,
{
    if nonce_base.len() != NONCE_LENGTH {
        return Err(Error::NonceBaseLength);
    }
    let number: [u8; 4] = to_be_bytes(seq);
    let mut nonce: Vec<u8> = Vec::new();
    let mut i: usize = 0;
    while i < NONCE_LENGTH
        invariant
            i <= NONCE_LENGTH,
            nonce_base@.len() == NONCE_LENGTH,
            number@ == be_bytes(seq),
            nonce@ == record_nonce(nonce_base@, seq).take(i as int),
        decreases NONCE_LENGTH - i,
    {
        if i < 8 {
            nonce.push(nonce_base[i]);
        } else {
            nonce.push(nonce_base[i] ^ number[i - 8]);
        }
        i += 1;
    }
    proof {
        assert(nonce@ =~= record_nonce(nonce_base@, seq));
        nonce_holds_the_record_number(nonce_base@, seq);
    }
    Ok(nonce)
}

// ---- metadata ----

/// What decrypting metadata gives: the first `KEY_LENGTH` bytes are the IV of the rest.
pub open spec fn metadata_opened(encrypted: Seq<u8>, key: Seq<u8>) -> Result<Seq<u8>, Error> {
    if encrypted.len() < KEY_LENGTH {
        Err(Error::MetadataTooShort)
    } else if key.len() != KEY_LENGTH {
        Err(Error::KeyLength)
    } else {
        match aes128gcm_iv16_open(
            key,
            encrypted.take(KEY_LENGTH as int),
            encrypted.skip(KEY_LENGTH as int),
        ) {
            Some(plaintext) => Ok(plaintext),
            None => Err(Error::MetadataDecryption),
        }
    }
}

/// Decrypts metadata (the torrent file).
pub fn decrypt_metadata(encrypted_meta: &[u8], meta_key: &[u8]) -> (r: Result<Vec<u8>, Error>)
    ensures
        seq_of(r) == metadata_opened(encrypted_meta@, meta_key@),
        r matches Ok(plaintext) ==> plaintext@.len() + KEY_LENGTH + TAG_LENGTH
            == encrypted_meta@.len(),
{
    if encrypted_meta.len() < KEY_LENGTH {
        return Err(Error::MetadataTooShort);
    }
    if meta_key.len() != KEY_LENGTH {
        return Err(Error::KeyLength);
    }
    let iv: &[u8] = vstd::slice::slice_subrange(encrypted_meta, 0, KEY_LENGTH);
    let sealed: &[u8] = vstd::slice::slice_subrange(
        encrypted_meta,
        KEY_LENGTH,
        encrypted_meta.len(),
    );
    assert(iv@ =~= encrypted_meta@.take(KEY_LENGTH as int));
    assert(sealed@ =~= encrypted_meta@.skip(KEY_LENGTH as int));
    match gcm_iv16_open(meta_key, iv, sealed) {
        Some(plaintext) => Ok(plaintext),
        None => Err(Error::MetadataDecryption),
    }
}

} // verus!
