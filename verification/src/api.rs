//! The requests to the server, and what is read from its answers.

use vstd::prelude::*;
use vstd::string::*;
use vstd::utf8::encode_utf8;

use crate::base64_text::{
    base64, base64_decoded, base64_decodes, base64_encode, base64_fits, decode, Variant,
};
use crate::crypto::{
    aes128gcm_iv16_open, decrypt_metadata, derive_meta_key, derived, hkdf_accepts, hkdf_sha256,
    meta_info, metadata_opened, KEY_LENGTH,
};
use crate::error::{seq_of, Error};
use crate::hex::{encode, hex, hex_tells_the_bytes, tell_byte};
use crate::models::{B2AuthResponse, B2UploadToken, SaltResponse};
use crate::pieces::{sha1, sha1_digest, SHA1_INPUT_MAX};
use crate::text::{
    decimal_text, decimal_text_tells_the_number, plain_number_is_the_only_one, push_decimal,
    tells_number,
};

verus! {

/// The method of a request.
#[derive(Debug, Clone, Copy, PartialEq, Eq, Structural)]
pub enum Method {
    Get,
    Post,
    Patch,
}

/// A request, but for its body.
#[derive(Debug)]
pub struct Request {
    pub method: Method,
    pub url: String,
    pub headers: Vec<(String, String)>,
}

/// The meaning of a [`Request`].
#[verifier::ext_equal]
pub struct RequestParts {
    pub method: Method,
    pub url: Seq<char>,
    pub headers: Seq<(Seq<char>, Seq<char>)>,
}

impl View for Request {
    type V = RequestParts;

    open spec fn view(&self) -> RequestParts {
        RequestParts {
            method: self.method,
            url: self.url@,
            headers: Seq::new(
                self.headers@.len(),
                |i: int| (self.headers@[i].0@, self.headers@[i].1@),
            ),
        }
    }
}

impl Request {
    /// A request without headers.
    fn new(method: Method, url: String) -> (r: Request)
        ensures
            r@ == (RequestParts { method, url: url@, headers: Seq::empty() }),
    {
        let r = Request { method, url, headers: Vec::new() };
        assert(r@.headers =~= Seq::<(Seq<char>, Seq<char>)>::empty());
        r
    }

    /// The request with one more header.
    fn header(self, name: &str, value: &str) -> (r: Request)
        ensures
            r@ == (RequestParts { headers: self@.headers.push((name@, value@)), ..self@ }),
    {
        let mut headers: Vec<(String, String)> = self.headers;
        headers.push((name.to_owned(), value.to_owned()));
        let r = Request { method: self.method, url: self.url, headers };
        assert(r@.headers =~= self@.headers.push((name@, value@)));
        r
    }
}

/// The address of a room, or of something in it.
pub open spec fn room_address(room_id: Seq<char>, rest: Seq<char>) -> Seq<char> {
    "https://wormhole.app/api/room/"@ + room_id + rest
}

/// The authorization header of a token.
pub open spec fn bearer(token: Seq<u8>) -> (Seq<char>, Seq<char>) {
    ("Authorization"@, "Bearer sync-v1 "@ + base64(token, Variant::Standard))
}

/// The header that says that the body is JSON.
pub open spec fn json_header() -> (Seq<char>, Seq<char>) {
    ("Content-Type"@, "application/json"@)
}

/// The header that names this client.
pub open spec fn agent_header() -> (Seq<char>, Seq<char>) {
    ("User-Agent"@, "Wormhole-CLI/1.0"@)
}

/// The name of a piece in storage.
pub open spec fn piece_name(room_id: Seq<char>, chunk_index: nat) -> Seq<char> {
    room_id + "/"@ + decimal_text(chunk_index)
}

// ---- what requests say ----

/// Whether the value of an authorization header carries a token: behind the words that name the
/// scheme stands the token in standard base64, with its padding.
pub open spec fn carries_token(value: Seq<char>, token: Seq<u8>) -> bool {
    &&& value.len() >= 15
    &&& value.take(15) == "Bearer sync-v1 "@
    &&& base64_decoded(value.skip(15), Variant::Standard) == Some(token)
}

/// Whether a request carries a token in its first header.
pub open spec fn authorized(r: RequestParts, token: Seq<u8>) -> bool {
    &&& r.headers.len() > 0
    &&& r.headers[0].0 == "Authorization"@
    &&& carries_token(r.headers[0].1, token)
}

/// The authorization header carries its token, and no other.
pub proof fn bearer_carries_the_token(token: Seq<u8>, other: Seq<u8>)
    ensures
        bearer(token).0 == "Authorization"@,
        carries_token(bearer(token).1, token),
        carries_token(bearer(token).1, other) ==> other == token,
{
    reveal_strlit("Bearer sync-v1 ");
    let value = bearer(token).1;
    base64_decodes(token, Variant::Standard);
    assert(value.take(15) =~= "Bearer sync-v1 "@);
    assert(value.skip(15) =~= base64(token, Variant::Standard));
}

/// Whether an address is that of a room, or of what `rest` names in it.
pub open spec fn is_address_of(url: Seq<char>, room_id: Seq<char>, rest: Seq<char>) -> bool {
    let n = room_id.len() as int;
    &&& url.len() == 30 + n + rest.len()
    &&& url.take(30) == "https://wormhole.app/api/room/"@
    &&& url.subrange(30, 30 + n) == room_id
    &&& url.skip(30 + n) == rest
}

/// The address of a room holds the whole name of the room behind that of the server, and ends with
/// what is asked of it.
pub proof fn room_address_tells_the_room(room_id: Seq<char>, rest: Seq<char>)
    ensures
        is_address_of(room_address(room_id, rest), room_id, rest),
{
    reveal_strlit("https://wormhole.app/api/room/");
    let url = room_address(room_id, rest);
    let n = room_id.len() as int;
    assert(url.take(30) =~= "https://wormhole.app/api/room/"@);
    assert(url.subrange(30, 30 + n) =~= room_id);
    assert(url.skip(30 + n) =~= rest);
}

/// Whether a name is that of a piece: the room, a slash and the index of the piece in decimal
/// digits.
pub open spec fn names_piece(name: Seq<char>, room_id: Seq<char>, chunk_index: nat) -> bool {
    let n = room_id.len() as int;
    &&& name.len() > n
    &&& name.take(n) == room_id
    &&& name[n] == '/'
    &&& tells_number(name.skip(n + 1), chunk_index as int)
}

/// The name of a piece tells its room and its index.
pub proof fn piece_name_tells_the_piece(room_id: Seq<char>, chunk_index: nat)
    ensures
        names_piece(piece_name(room_id, chunk_index), room_id, chunk_index),
{
    reveal_strlit("/");
    let name = piece_name(room_id, chunk_index);
    let n = room_id.len() as int;
    decimal_text_tells_the_number(chunk_index);
    assert(name.take(n) =~= room_id);
    assert(name.skip(n + 1) =~= decimal_text(chunk_index));
}

/// Two pieces of a room have the same name only if they are the same piece.
pub proof fn pieces_have_names_of_their_own(room_id: Seq<char>, i: nat, j: nat)
    ensures
        piece_name(room_id, i) == piece_name(room_id, j) <==> i == j,
{
    piece_name_tells_the_piece(room_id, i);
    piece_name_tells_the_piece(room_id, j);
}

/// A piece has one name: that under which it is uploaded is that under which it is downloaded.
pub proof fn piece_has_one_name(a: Seq<char>, b: Seq<char>, room_id: Seq<char>, chunk_index: nat)
    requires
        names_piece(a, room_id, chunk_index),
        names_piece(b, room_id, chunk_index),
    ensures
        a == b,
{
    let n = room_id.len() as int;
    plain_number_is_the_only_one(a.skip(n + 1));
    plain_number_is_the_only_one(b.skip(n + 1));
    assert(a =~= a.take(n) + seq![a[n]] + a.skip(n + 1));
    assert(b =~= b.take(n) + seq![b[n]] + b.skip(n + 1));
}

/// Whether a request asks for the piece with this index: its address holds the name of the piece
/// between the place that the data may be downloaded from and the permission to do so.
pub open spec fn asks_for_piece(
    r: RequestParts,
    room_id: Seq<char>,
    chunk_index: nat,
    b2_auth: B2AuthResponse,
) -> bool {
    exists|name: Seq<char>| #[trigger]
        names_piece(name, room_id, chunk_index) && r.url == b2_auth.download_url@
            + "/file/socket-dev-prod/"@ + name + "?Authorization="@ + b2_auth.authorization_token@
}

/// Whether a request announces the piece with this index and this data: its name, its hash in
/// hexadecimal and its length.
pub open spec fn announces_piece(
    r: RequestParts,
    room_id: Seq<char>,
    chunk_index: nat,
    data: Seq<u8>,
) -> bool {
    &&& r.headers.len() > 3
    &&& r.headers[1].0 == "X-Bz-File-Name"@
    &&& names_piece(r.headers[1].1, room_id, chunk_index)
    &&& r.headers[2].0 == "X-Bz-Content-Sha1"@
    &&& r.headers[2].1.len() == 2 * sha1(data).len()
    &&& forall|i: int|
        0 <= i < sha1(data).len() ==> tell_byte(
            r.headers[2].1[2 * i],
            r.headers[2].1[2 * i + 1],
            #[trigger] sha1(data)[i],
        )
    &&& r.headers[3].0 == "Content-Length"@
    &&& tells_number(r.headers[3].1, data.len() as int)
}

// ---- making requests ----

/// The address of a room, or of something in it.
fn room_url(room_id: &str, rest: &str) -> (url: String)
    ensures
        url@ == room_address(room_id@, rest@),
        is_address_of(url@, room_id@, rest@),
{
    proof {
        room_address_tells_the_room(room_id@, rest@);
    }
    let mut url: String = "https://wormhole.app/api/room/".to_owned();
    url.append(room_id);
    url.append(rest);
    url
}

/// The value of the authorization header of a token.
fn bearer_value(token: &[u8]) -> (value: String)
    requires
        base64_fits(token@.len()),
    ensures
        value@ == bearer(token@).1,
        carries_token(value@, token@),
{
    proof {
        bearer_carries_the_token(token@, token@);
    }
    let mut value: String = "Bearer sync-v1 ".to_owned();
    value.append(base64_encode(token).as_str());
    value
}

/// The name of a piece in storage.
fn piece_name_of(room_id: &str, chunk_index: usize) -> (name: String)
    ensures
        name@ == piece_name(room_id@, chunk_index as nat),
        names_piece(name@, room_id@, chunk_index as nat),
{
    proof {
        piece_name_tells_the_piece(room_id@, chunk_index as nat);
    }
    let mut name: String = room_id.to_owned();
    name.append("/");
    push_decimal(&mut name, chunk_index as u64);
    name
}

/// Client of a room: what a request needs to know of it.
#[derive(Clone)]
pub struct WormholeClient {
    pub room_id: String,
    pub master_key: Vec<u8>,
}

impl WormholeClient {
    /// Creates a client of a room, with the key that its files are encrypted under.
    pub fn new(room_id: String, master_key: Vec<u8>) -> (client: Self)
        ensures
            client.room_id == room_id,
            client.master_key == master_key,
    {
        WormholeClient { room_id, master_key }
    }

    /// Asks for the salt of the room.
    pub fn salt_request(&self) -> (r: Request)
        ensures
            r@ == (RequestParts {
                method: Method::Get,
                url: room_address(self.room_id@, "/salt"@),
                headers: Seq::empty(),
            }),
            is_address_of(r@.url, self.room_id@, "/salt"@),
    {
        Request::new(Method::Get, room_url(self.room_id.as_str(), "/salt"))
    }

    /// Asks for the room.
    pub fn room_request(&self, auth_token: &[u8]) -> (r: Request)
        requires
            base64_fits(auth_token@.len()),
        ensures
            r@ == (RequestParts {
                method: Method::Get,
                url: room_address(self.room_id@, ""@),
                headers: seq![bearer(auth_token@)],
            }),
            authorized(r@, auth_token@),
            is_address_of(r@.url, self.room_id@, ""@),
    {
        let r: Request = Request::new(Method::Get, room_url(self.room_id.as_str(), "")).header(
            "Authorization",
            bearer_value(auth_token).as_str(),
        );
        assert(r@.headers =~= seq![bearer(auth_token@)]);
        r
    }

    /// Asks where the data of the room may be downloaded.
    pub fn b2_auth_request(&self, auth_token: &[u8]) -> (r: Request)
        requires
            base64_fits(auth_token@.len()),
        ensures
            r@ == (RequestParts {
                method: Method::Post,
                url: room_address(self.room_id@, "/b2/auth-download"@),
                headers: seq![bearer(auth_token@)],
            }),
            authorized(r@, auth_token@),
            is_address_of(r@.url, self.room_id@, "/b2/auth-download"@),
    {
        let r: Request = Request::new(
            Method::Post,
            room_url(self.room_id.as_str(), "/b2/auth-download"),
        ).header("Authorization", bearer_value(auth_token).as_str());
        assert(r@.headers =~= seq![bearer(auth_token@)]);
        r
    }

    /// Asks for a piece of the data.
    pub fn chunk_request(&self, chunk_index: usize, b2_auth: &B2AuthResponse) -> (r: Request)
        ensures
            r@ == (RequestParts {
                method: Method::Get,
                url: b2_auth.download_url@ + "/file/socket-dev-prod/"@ + piece_name(
                    self.room_id@,
                    chunk_index as nat,
                ) + "?Authorization="@ + b2_auth.authorization_token@,
                headers: Seq::empty(),
            }),
            asks_for_piece(r@, self.room_id@, chunk_index as nat, *b2_auth),
    {
        let mut url: String = b2_auth.download_url.clone();
        url.append("/file/socket-dev-prod/");
        url.append(piece_name_of(self.room_id.as_str(), chunk_index).as_str());
        url.append("?Authorization=");
        url.append(b2_auth.authorization_token.as_str());
        Request::new(Method::Get, url)
    }

    /// Decrypts the torrent file of the room, which comes in base64.
    pub fn decrypt_torrent(&self, encrypted_torrent_b64: &str, salt: &[u8]) -> (r: Result<
        Vec<u8>,
        Error,
    >)
        ensures
            seq_of(r) == decrypted_torrent(encrypted_torrent_b64@, self.master_key@, salt@),
    {
        let encrypted_torrent: Vec<u8> = match decode(encrypted_torrent_b64) {
            Ok(data) => data,
            Err(e) => {
                return Err(e);
            },
        };
        let meta_key: Vec<u8> = match derive_meta_key(self.master_key.as_slice(), salt) {
            Ok(key) => key,
            Err(e) => {
                return Err(e);
            },
        };
        decrypt_metadata(encrypted_torrent.as_slice(), meta_key.as_slice())
    }
}

/// What decrypting a torrent file gives that comes in base64.
pub open spec fn decrypted_torrent(
    text: Seq<char>,
    master_key: Seq<u8>,
    salt: Seq<u8>,
) -> Result<Seq<u8>, Error> {
    match base64_decoded(text, Variant::Standard) {
        None => Err(Error::Base64),
        Some(encrypted) => match derived(master_key, salt, meta_info(), KEY_LENGTH as nat) {
            Err(e) => Err(e),
            Ok(key) => metadata_opened(encrypted, key),
        },
    }
}

/// The torrent file of a room comes in standard base64. It is an IV of sixteen bytes and a
/// ciphertext, under the key that HKDF derives from the key of the link and the salt of the room
/// for metadata.
pub proof fn torrent_is_decrypted(
    iv: Seq<u8>,
    sealed: Seq<u8>,
    master_key: Seq<u8>,
    salt: Seq<u8>,
)
    requires
        iv.len() == 16,
        hkdf_accepts(master_key, salt),
        hkdf_sha256(master_key, salt, encode_utf8("metadata"@), 16).len() == 16,
    ensures
        decrypted_torrent(base64(iv + sealed, Variant::Standard), master_key, salt) == match
            aes128gcm_iv16_open(
            hkdf_sha256(master_key, salt, encode_utf8("metadata"@), 16),
            iv,
            sealed,
        ) {
            Some(torrent) => Ok::<Seq<u8>, Error>(torrent),
            None => Err(Error::MetadataDecryption),
        },
{
    base64_decodes(iv + sealed, Variant::Standard);
    assert((iv + sealed).take(16) =~= iv);
    assert((iv + sealed).skip(16) =~= sealed);
}

/// Reads the salt of a room.
pub fn decode_salt(response: &SaltResponse) -> (r: Result<Vec<u8>, Error>)
    ensures
        seq_of(r) == match base64_decoded(response.salt@, Variant::Standard) {
            Some(salt) => Ok(salt),
            None => Err(Error::Base64),
        },
        r matches Ok(salt) ==> base64(salt@, Variant::Standard) == response.salt@,
        r is Err ==> forall|salt: Seq<u8>| #[trigger]
            base64(salt, Variant::Standard) != response.salt@,
{
    decode(response.salt.as_str())
}

/// Asks for a room to be created.
pub fn create_room_request() -> (r: Request)
    ensures
        r@ == (RequestParts {
            method: Method::Post,
            url: "https://wormhole.app/api/room"@,
            headers: seq![json_header(), agent_header()],
        }),
{
    let r: Request = Request::new(Method::Post, "https://wormhole.app/api/room".to_owned()).header(
        "Content-Type",
        "application/json",
    ).header("User-Agent", "Wormhole-CLI/1.0");
    assert(r@.headers =~= seq![json_header(), agent_header()]);
    r
}

/// Tells that the uploader is online.
pub fn uploader_online_request(room_id: &str, auth_token: &[u8]) -> (r: Request)
    requires
        base64_fits(auth_token@.len()),
    ensures
        r@ == (RequestParts {
            method: Method::Patch,
            url: room_address(room_id@, "/uploader-online"@),
            headers: seq![bearer(auth_token@), agent_header()],
        }),
        authorized(r@, auth_token@),
        is_address_of(r@.url, room_id@, "/uploader-online"@),
{
    let r: Request = Request::new(Method::Patch, room_url(room_id, "/uploader-online")).header(
        "Authorization",
        bearer_value(auth_token).as_str(),
    ).header("User-Agent", "Wormhole-CLI/1.0");
    assert(r@.headers =~= seq![bearer(auth_token@), agent_header()]);
    r
}

/// Tells what is in a room.
pub fn update_room_request(room_id: &str, auth_token: &[u8]) -> (r: Request)
    requires
        base64_fits(auth_token@.len()),
    ensures
        r@ == (RequestParts {
            method: Method::Patch,
            url: room_address(room_id@, ""@),
            headers: seq![
                bearer(auth_token@),
                json_header(),
                ("Accept"@, "application/json"@),
                ("Origin"@, "https://wormhole.app"@),
                ("Referer"@, "https://wormhole.app/"@),
                agent_header(),
            ],
        }),
        authorized(r@, auth_token@),
        is_address_of(r@.url, room_id@, ""@),
{
    let r: Request = Request::new(Method::Patch, room_url(room_id, "")).header(
        "Authorization",
        bearer_value(auth_token).as_str(),
    ).header("Content-Type", "application/json").header("Accept", "application/json").header(
        "Origin",
        "https://wormhole.app",
    ).header("Referer", "https://wormhole.app/").header("User-Agent", "Wormhole-CLI/1.0");
    assert(r@.headers =~= seq![
        bearer(auth_token@),
        json_header(),
        ("Accept"@, "application/json"@),
        ("Origin"@, "https://wormhole.app"@),
        ("Referer"@, "https://wormhole.app/"@),
        agent_header(),
    ]);
    r
}

/// Asks where pieces may be uploaded.
pub fn b2_upload_auth_request(room_id: &str, auth_token: &[u8]) -> (r: Request)
    requires
        base64_fits(auth_token@.len()),
    ensures
        r@ == (RequestParts {
            method: Method::Post,
            url: room_address(room_id@, "/b2/auth-upload"@),
            headers: seq![bearer(auth_token@), json_header(), agent_header()],
        }),
        authorized(r@, auth_token@),
        is_address_of(r@.url, room_id@, "/b2/auth-upload"@),
{
    let r: Request = Request::new(Method::Post, room_url(room_id, "/b2/auth-upload")).header(
        "Authorization",
        bearer_value(auth_token).as_str(),
    ).header("Content-Type", "application/json").header("User-Agent", "Wormhole-CLI/1.0");
    assert(r@.headers =~= seq![bearer(auth_token@), json_header(), agent_header()]);
    r
}

/// Uploads a piece: its name, its hash and its length are told before it.
pub fn upload_request(
    upload_token: &B2UploadToken,
    room_id: &str,
    chunk_index: usize,
    data: &[u8],
) -> (r: Request)
    requires
        data@.len() <= SHA1_INPUT_MAX,
    ensures
        r@ == (RequestParts {
            method: Method::Post,
            url: upload_token.upload_url@,
            headers: seq![
                ("Authorization"@, upload_token.authorization_token@),
                ("X-Bz-File-Name"@, piece_name(room_id@, chunk_index as nat)),
                ("X-Bz-Content-Sha1"@, hex(sha1(data@))),
                ("Content-Length"@, decimal_text(data@.len())),
                ("Content-Type"@, "application/octet-stream"@),
                agent_header(),
            ],
        }),
        announces_piece(r@, room_id@, chunk_index as nat, data@),
{
    proof {
        hex_tells_the_bytes(sha1(data@));
        decimal_text_tells_the_number(data@.len());
    }
    let content_sha1: String = encode(sha1_digest(data).as_slice());
    let mut length: String = String::new();
    push_decimal(&mut length, data.len() as u64);
    assert(length@ =~= decimal_text(data@.len()));
    let r: Request = Request::new(Method::Post, upload_token.upload_url.clone()).header(
        "Authorization",
        upload_token.authorization_token.as_str(),
    ).header("X-Bz-File-Name", piece_name_of(room_id, chunk_index).as_str()).header(
        "X-Bz-Content-Sha1",
        content_sha1.as_str(),
    ).header("Content-Length", length.as_str()).header(
        "Content-Type",
        "application/octet-stream",
    ).header("User-Agent", "Wormhole-CLI/1.0");
    assert(r@.headers =~= seq![
        ("Authorization"@, upload_token.authorization_token@),
        ("X-Bz-File-Name"@, piece_name(room_id@, chunk_index as nat)),
        ("X-Bz-Content-Sha1"@, hex(sha1(data@))),
        ("Content-Length"@, decimal_text(data@.len())),
        ("Content-Type"@, "application/octet-stream"@),
        agent_header(),
    ]);
    r
}

/// Tells that the upload is finished.
pub fn finish_upload_request(room_id: &str, auth_token: &[u8]) -> (r: Request)
    requires
        base64_fits(auth_token@.len()),
    ensures
        r@ == (RequestParts {
            method: Method::Post,
            url: room_address(room_id@, "/b2/finish-upload"@),
            headers: seq![bearer(auth_token@), json_header(), agent_header()],
        }),
        authorized(r@, auth_token@),
        is_address_of(r@.url, room_id@, "/b2/finish-upload"@),
{
    let r: Request = Request::new(Method::Post, room_url(room_id, "/b2/finish-upload")).header(
        "Authorization",
        bearer_value(auth_token).as_str(),
    ).header("Content-Type", "application/json").header("User-Agent", "Wormhole-CLI/1.0");
    assert(r@.headers =~= seq![bearer(auth_token@), json_header(), agent_header()]);
    r
}

} // verus!
