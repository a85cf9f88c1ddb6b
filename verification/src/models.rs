//! What is exchanged with the server, and the URLs that are shared.

use vstd::prelude::*;
use vstd::string::*;

use crate::base64_text::{
    base64, base64_decoded, base64_decodes, base64_fits, base64_url_decode, base64url_encode,
    Variant,
};
use crate::error::Error;
use crate::text::{
    cut_once, lemma_last_part, lemma_split_nonempty, lemma_split_once, lemma_split_whole, split,
    split_once, split_text, texts,
};

verus! {

/// The salt of a room.
#[derive(Debug)]
pub struct SaltResponse {
    pub salt: String,
}

/// A room.
#[derive(Debug)]
pub struct RoomResponse {
    pub cloud_state: Option<String>,
    pub multi_file: Option<bool>,
    pub remaining_downloads: Option<i32>,
    pub encrypted_torrent_file: String,
}

/// Where and how a room's data may be downloaded.
#[derive(Debug, Clone)]
pub struct B2AuthResponse {
    pub download_url: String,
    pub authorization_token: String,
}

/// A room that was created.
#[derive(Debug)]
pub struct RoomCreateResponse {
    pub id: String,
    pub writer_token: String,
    pub expires_at_timestamp_ms: Option<i64>,
    pub max_downloads: Option<i32>,
    pub lifetime: Option<i64>,
}

/// Where and how a piece may be uploaded.
#[derive(Debug)]
pub struct B2UploadToken {
    pub upload_url: String,
    pub authorization_token: String,
}

/// Asks for a room to be created.
#[derive(Debug)]
pub struct CreateRoomRequest {
    pub reader_token: String,
    pub salt: String,
}

/// Tells what is in a room.
#[derive(Debug)]
pub struct UpdateRoomRequest {
    pub info_hash: String,
    pub encrypted_torrent_file: String,
    pub multi_file: bool,
    pub size_mb: usize,
}

/// The parts of a shared URL.
#[derive(Debug, Clone)]
pub struct WormholeUrl {
    pub room_id: String,
    pub key: Vec<u8>,
}

/// The room and the key of a shared URL: the room is the last part of the path, the key is what
/// stands behind the first `#`, in base64.
pub open spec fn url_parts(url: Seq<char>) -> Result<(Seq<char>, Seq<u8>), Error> {
    match split_once(url, '#') {
        (_, None) => Err(Error::MissingFragment),
        (path, Some(fragment)) => match base64_decoded(fragment, Variant::UrlSafe) {
            Some(key) => Ok((split(path, '/').last(), key)),
            None => Err(Error::Base64Url),
        },
    }
}

/// The URL that is shared for a room and a key.
pub open spec fn shared_url(room_id: Seq<char>, key: Seq<u8>) -> Seq<char> {
    "https://wormhole.app/"@ + room_id + seq!['#'] + base64(key, Variant::UrlSafe)
}

impl WormholeUrl {
    /// Parses a shared URL, `https://wormhole.app/{room}#{key}`.
    pub fn parse(url: &str) -> (r: Result<WormholeUrl, Error>)
        ensures
            match r {
                Ok(parsed) => url_parts(url@) == Ok::<(Seq<char>, Seq<u8>), Error>(
                    (parsed.room_id@, parsed.key@),
                ),
                Err(e) => url_parts(url@) == Err::<(Seq<char>, Seq<u8>), Error>(e),
            },
    {
        let (path, fragment) = cut_once(url, '#');
        let hash: String = match fragment {
            Some(hash) => hash,
            None => {
                return Err(Error::MissingFragment);
            },
        };
        let mut parts: Vec<String> = split_text(path.as_str(), '/');
        proof {
            lemma_split_nonempty(path@, '/');
            assert(texts(parts@).len() == parts@.len());
            assert(texts(parts@).last() == parts@.last()@);
        }
        let room_id: String = match parts.pop() {
            Some(part) => part,
            None => String::new(),
        };
        match base64_url_decode(hash.as_str()) {
            Ok(key) => Ok(WormholeUrl { room_id, key }),
            Err(e) => Err(e),
        }
    }
}

/// The URL to share for a room and a key.
pub fn share_url(room_id: &str, key: &[u8]) -> (url: String)
    requires
        base64_fits(key@.len()),
    ensures
        url@ == shared_url(room_id@, key@),
{
    let mut url: String = "https://wormhole.app/".to_owned();
    url.append(room_id);
    url.push('#');
    url.append(base64url_encode(key).as_str());
    assert(url@ =~= shared_url(room_id@, key@));
    url
}

/// Of any link the room is what stands between the last slash before the first `#` and that `#`,
/// and the key is what the text behind the `#` stands for in URL-safe base64.
pub proof fn link_tells_room_and_key(before: Seq<char>, room_id: Seq<char>, key: Seq<u8>)
    requires
        !before.contains('#'),
        before.len() > 0 ==> before.last() == '/',
        !room_id.contains('#'),
        !room_id.contains('/'),
    ensures
        url_parts(before + room_id + seq!['#'] + base64(key, Variant::UrlSafe)) == Ok::<
            (Seq<char>, Seq<u8>),
            Error,
        >((room_id, key)),
{
    let path = before + room_id;
    assert(!path.contains('#')) by {
        if path.contains('#') {
            let i = path.index_of('#');
            if i >= before.len() {
                assert(room_id[i - before.len()] == '#');
            } else {
                assert(before[i] == '#');
            }
        }
    }
    lemma_split_once(path, base64(key, Variant::UrlSafe), '#');
    if before.len() > 0 {
        lemma_last_part(before, room_id, '/');
    } else {
        assert(path =~= room_id);
        lemma_split_whole(room_id, '/');
    }
    base64_decodes(key, Variant::UrlSafe);
}

/// A link without `#` has no key, and one whose text behind the first `#` is not base64 has none
/// either.
pub proof fn link_without_key_is_refused(path: Seq<char>, fragment: Seq<char>)
    requires
        !path.contains('#'),
    ensures
        url_parts(path) == Err::<(Seq<char>, Seq<u8>), Error>(Error::MissingFragment),
        (forall|key: Seq<u8>| #[trigger] base64(key, Variant::UrlSafe) != fragment) ==> url_parts(
            path + seq!['#'] + fragment,
        ) == Err::<(Seq<char>, Seq<u8>), Error>(Error::Base64Url),
{
    lemma_split_once(path, fragment, '#');
}

/// The URL that is shared is that of the site, the room, `#` and the key in URL-safe base64.
pub proof fn shared_url_tells_room_and_key(room_id: Seq<char>, key: Seq<u8>)
    ensures
        ({
            let url = shared_url(room_id, key);
            let n = room_id.len() as int;
            &&& url.len() > 21 + n
            &&& url.take(21) == "https://wormhole.app/"@
            &&& url.subrange(21, 21 + n) == room_id
            &&& url[21 + n] == '#'
            &&& base64_decoded(url.skip(22 + n), Variant::UrlSafe) == Some(key)
        }),
{
    reveal_strlit("https://wormhole.app/");
    let url = shared_url(room_id, key);
    let n = room_id.len() as int;
    base64_decodes(key, Variant::UrlSafe);
    assert(url.take(21) =~= "https://wormhole.app/"@);
    assert(url.subrange(21, 21 + n) =~= room_id);
    assert(url.skip(22 + n) =~= base64(key, Variant::UrlSafe));
}

/// Parsing a shared URL gives back its room and its key.
pub proof fn shared_url_parses_back(room_id: Seq<char>, key: Seq<u8>)
    requires
        !room_id.contains('#'),
        !room_id.contains('/'),
    ensures
        url_parts(shared_url(room_id, key)) == Ok::<(Seq<char>, Seq<u8>), Error>((room_id, key)),
{
    let prefix = "https://wormhole.app/"@;
    reveal_strlit("https://wormhole.app/");
    let path = prefix + room_id;
    assert(!path.contains('#')) by {
        if path.contains('#') {
            let i = path.index_of('#');
            if i >= prefix.len() {
                assert(room_id[i - prefix.len()] == '#');
            } else {
                assert(prefix[i] == '#');
            }
        }
    }
    lemma_split_once(path, base64(key, Variant::UrlSafe), '#');
    lemma_last_part(prefix, room_id, '/');
    base64_decodes(key, Variant::UrlSafe);
}

} // verus!
