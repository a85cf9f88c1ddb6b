//! Base64: the standard alphabet with padding, and the URL-safe alphabet without.

use base64::engine::general_purpose::{STANDARD, URL_SAFE_NO_PAD};
use base64::Engine;
use vstd::prelude::*;

use crate::error::{seq_of, Error};

verus! {

/// Which base64: with the standard alphabet and padding, or URL-safe without.
pub enum Variant {
    Standard,
    UrlSafe,
}

/// The character that stands for six bits.
pub open spec fn sextet_char(n: nat, variant: Variant) -> char {
    if n < 26 {
        (65 + n) as u8 as char
    } else if n < 52 {
        (71 + n) as u8 as char
    } else if n < 62 {
        (n - 4) as u8 as char
    } else if n == 62 {
        match variant {
            Variant::Standard => '+',
            Variant::UrlSafe => '-',
        }
    } else {
        match variant {
            Variant::Standard => '/',
            Variant::UrlSafe => '_',
        }
    }
}

/// The padding of a last group that lacks `n` bytes.
pub open spec fn padding(n: nat, variant: Variant) -> Seq<char> {
    match variant {
        Variant::Standard => Seq::new(n, |i: int| '='),
        Variant::UrlSafe => Seq::empty(),
    }
}

/// Bytes in base64: three bytes in four characters; a last group of one or two bytes in two or
/// three, and padding.
pub open spec fn base64(data: Seq<u8>, variant: Variant) -> Seq<char>
    decreases data.len(),
{
    if data.len() == 0 {
        Seq::empty()
    } else if data.len() == 1 {
        seq![
            sextet_char(data[0] as nat / 4, variant),
            sextet_char(data[0] as nat % 4 * 16, variant),
        ] + padding(2, variant)
    } else if data.len() == 2 {
        seq![
            sextet_char(data[0] as nat / 4, variant),
            sextet_char(data[0] as nat % 4 * 16 + data[1] as nat / 16, variant),
            sextet_char(data[1] as nat % 16 * 4, variant),
        ] + padding(1, variant)
    } else {
        seq![
            sextet_char(data[0] as nat / 4, variant),
            sextet_char(data[0] as nat % 4 * 16 + data[1] as nat / 16, variant),
            sextet_char(data[1] as nat % 16 * 4 + data[2] as nat / 64, variant),
            sextet_char(data[2] as nat % 64, variant),
        ] + base64(data.skip(3), variant)
    }
}

/// Whether the base64 of so many bytes fits in memory.
pub open spec fn base64_fits(length: nat) -> bool {
    length / 3 * 4 + 4 <= isize::MAX
}

/// What a text in base64 stands for: the bytes that are encoded as it.
pub open spec fn base64_decoded(text: Seq<char>, variant: Variant) -> Option<Seq<u8>> {
    if exists|data: Seq<u8>| #[trigger] base64(data, variant) == text {
        Some(choose|data: Seq<u8>| #[trigger] base64(data, variant) == text)
    } else {
        None
    }
}

// ---- outside functions ----

/// `base64::engine::general_purpose::STANDARD`, `Engine::encode`: base64 with the standard
/// alphabet and padding. Data whose encoding does not fit in memory is left out.
#[verifier::external_body]
fn standard_encode(data: &[u8]) -> (text: String)
    requires
        base64_fits(data@.len()),
    ensures
        text@ == base64(data@, Variant::Standard),
{
    STANDARD.encode(data)
}

/// `base64::engine::general_purpose::STANDARD`, `Engine::decode`: it succeeds if and only if the
/// text is the encoding of some bytes, with its padding and no stray bits, and gives such bytes.
#[verifier::external_body]
fn standard_decode(text: &str) -> (r: Option<Vec<u8>>)
    ensures
        match r {
            Some(data) => base64(data@, Variant::Standard) == text@,
            None => forall|data: Seq<u8>| #[trigger] base64(data, Variant::Standard) != text@,
        },
{
    STANDARD.decode(text).ok()
}

/// `base64::engine::general_purpose::URL_SAFE_NO_PAD`, `Engine::encode`: base64 with the URL-safe
/// alphabet, without padding. Data whose encoding does not fit in memory is left out.
#[verifier::external_body]
fn url_safe_encode(data: &[u8]) -> (text: String)
    requires
        base64_fits(data@.len()),
    ensures
        text@ == base64(data@, Variant::UrlSafe),
{
    URL_SAFE_NO_PAD.encode(data)
}

/// `base64::engine::general_purpose::URL_SAFE_NO_PAD`, `Engine::decode`: it succeeds if and only
/// if the text is the encoding of some bytes, with no padding and no stray bits, and gives such
/// bytes.
#[verifier::external_body]
fn url_safe_decode(text: &str) -> (r: Option<Vec<u8>>)
    ensures
        match r {
            Some(data) => base64(data@, Variant::UrlSafe) == text@,
            None => forall|data: Seq<u8>| #[trigger] base64(data, Variant::UrlSafe) != text@,
        },
{
    URL_SAFE_NO_PAD.decode(text).ok()
}

// ---- base64 tells bytes apart ----

/// Six bits are told by their character, and no character is the padding.
proof fn lemma_sextet(m: nat, n: nat, variant: Variant)
    requires
        m < 64,
        n < 64,
    ensures
        sextet_char(m, variant) == sextet_char(n, variant) ==> m == n,
        sextet_char(m, variant) != '=',
{
}

/// Three bytes are told by their four sextets.
proof fn lemma_group(a: (nat, nat, nat), b: (nat, nat, nat), variant: Variant)
    requires
        a.0 < 256 && a.1 < 256 && a.2 < 256,
        b.0 < 256 && b.1 < 256 && b.2 < 256,
        sextet_char(a.0 / 4, variant) == sextet_char(b.0 / 4, variant),
        sextet_char(a.0 % 4 * 16 + a.1 / 16, variant) == sextet_char(
            b.0 % 4 * 16 + b.1 / 16,
            variant,
        ),
        sextet_char(a.1 % 16 * 4 + a.2 / 64, variant) == sextet_char(
            b.1 % 16 * 4 + b.2 / 64,
            variant,
        ),
        sextet_char(a.2 % 64, variant) == sextet_char(b.2 % 64, variant),
    ensures
        a == b,
{
    lemma_sextet(a.0 / 4, b.0 / 4, variant);
    lemma_sextet(a.0 % 4 * 16 + a.1 / 16, b.0 % 4 * 16 + b.1 / 16, variant);
    lemma_sextet(a.1 % 16 * 4 + a.2 / 64, b.1 % 16 * 4 + b.2 / 64, variant);
    lemma_sextet(a.2 % 64, b.2 % 64, variant);
}

/// What the first characters of base64 are.
proof fn lemma_first_chars(a: Seq<u8>, variant: Variant)
    requires
        a.len() > 0,
    ensures
        ({
            let x = base64(a, variant);
            let a0 = a[0] as nat;
            &&& x.len() >= 2
            &&& x[0] == sextet_char(a0 / 4, variant)
            &&& a.len() == 1 ==> {
                &&& x[1] == sextet_char(a0 % 4 * 16, variant)
                &&& variant is Standard ==> x.len() == 4 && x[2] == '='
                &&& variant is UrlSafe ==> x.len() == 2
            }
            &&& a.len() == 2 ==> {
                let a1 = a[1] as nat;
                &&& x[1] == sextet_char(a0 % 4 * 16 + a1 / 16, variant)
                &&& x[2] == sextet_char(a1 % 16 * 4, variant)
                &&& x[2] != '='
                &&& variant is Standard ==> x.len() == 4 && x[3] == '='
                &&& variant is UrlSafe ==> x.len() == 3
            }
            &&& a.len() > 2 ==> {
                let (a1, a2) = (a[1] as nat, a[2] as nat);
                &&& x[1] == sextet_char(a0 % 4 * 16 + a1 / 16, variant)
                &&& x[2] == sextet_char(a1 % 16 * 4 + a2 / 64, variant)
                &&& x[3] == sextet_char(a2 % 64, variant)
                &&& x[2] != '=' && x[3] != '='
                &&& x.len() >= 4
                &&& x.skip(4) == base64(a.skip(3), variant)
            }
        }),
{
    let x = base64(a, variant);
    if a.len() == 2 {
        lemma_sextet(a[1] as nat % 16 * 4, 0, variant);
    } else if a.len() > 2 {
        lemma_sextet(a[1] as nat % 16 * 4 + a[2] as nat / 64, 0, variant);
        lemma_sextet(a[2] as nat % 64, 0, variant);
        assert(x.skip(4) =~= base64(a.skip(3), variant));
    }
}

/// Bytes are told by their base64.
pub proof fn base64_is_injective(a: Seq<u8>, b: Seq<u8>, variant: Variant)
    requires
        base64(a, variant) == base64(b, variant),
    ensures
        a == b,
    decreases a.len(),
{
    if a.len() == 0 || b.len() == 0 {
        if a.len() > 0 {
            lemma_first_chars(a, variant);
        }
        if b.len() > 0 {
            lemma_first_chars(b, variant);
        }
        assert(a =~= b);
    } else {
        lemma_first_chars(a, variant);
        lemma_first_chars(b, variant);
        if a.len() == 1 {
            assert(b.len() == 1);
            lemma_group((a[0] as nat, 0, 0), (b[0] as nat, 0, 0), variant);
            assert(a =~= b);
        } else if a.len() == 2 {
            assert(b.len() == 2);
            lemma_group(
                (a[0] as nat, a[1] as nat, 0),
                (b[0] as nat, b[1] as nat, 0),
                variant,
            );
            assert(a =~= b);
        } else {
            assert(b.len() > 2);
            lemma_group(
                (a[0] as nat, a[1] as nat, a[2] as nat),
                (b[0] as nat, b[1] as nat, b[2] as nat),
                variant,
            );
            base64_is_injective(a.skip(3), b.skip(3), variant);
            assert(a =~= seq![a[0], a[1], a[2]] + a.skip(3));
            assert(b =~= seq![b[0], b[1], b[2]] + b.skip(3));
        }
    }
}

/// Decoding undoes encoding.
pub proof fn base64_decodes(data: Seq<u8>, variant: Variant)
    ensures
        base64_decoded(base64(data, variant), variant) == Some(data),
{
    let text = base64(data, variant);
    let found = choose|d: Seq<u8>| #[trigger] base64(d, variant) == text;
    base64_is_injective(found, data, variant);
}

// ---- encoding and decoding ----

/// Whether the base64 of so many bytes fits in memory.
pub fn fits_base64(length: usize) -> (fits: bool)
    ensures
        fits == base64_fits(length as nat),
{
    length / 3 <= (isize::MAX as usize - 4) / 4
}

/// Encodes bytes to standard base64.
pub fn base64_encode(data: &[u8]) -> (text: String)
    requires
        base64_fits(data@.len()),
    ensures
        text@ == base64(data@, Variant::Standard),
{
    standard_encode(data)
}

/// Encodes bytes to URL-safe base64 without padding.
pub fn base64url_encode(data: &[u8]) -> (text: String)
    requires
        base64_fits(data@.len()),
    ensures
        text@ == base64(data@, Variant::UrlSafe),
{
    url_safe_encode(data)
}

/// Decodes standard base64.
pub fn decode(s: &str) -> (r: Result<Vec<u8>, Error>)
    ensures
        seq_of(r) == match base64_decoded(s@, Variant::Standard) {
            Some(data) => Ok(data),
            None => Err(Error::Base64),
        },
        r matches Ok(data) ==> base64(data@, Variant::Standard) == s@,
        r is Err ==> forall|data: Seq<u8>| #[trigger] base64(data, Variant::Standard) != s@,
{
    match standard_decode(s) {
        Some(data) => {
            proof {
                base64_decodes(data@, Variant::Standard);
            }
            Ok(data)
        },
        None => Err(Error::Base64),
    }
}

/// Decodes URL-safe base64 without padding.
pub fn base64_url_decode(s: &str) -> (r: Result<Vec<u8>, Error>)
    ensures
        seq_of(r) == match base64_decoded(s@, Variant::UrlSafe) {
            Some(data) => Ok(data),
            None => Err(Error::Base64Url),
        },
        r matches Ok(data) ==> base64(data@, Variant::UrlSafe) == s@,
        r is Err ==> forall|data: Seq<u8>| #[trigger] base64(data, Variant::UrlSafe) != s@,
{
    match url_safe_decode(s) {
        Some(data) => {
            proof {
                base64_decodes(data@, Variant::UrlSafe);
            }
            Ok(data)
        },
        None => Err(Error::Base64Url),
    }
}

} // verus!
