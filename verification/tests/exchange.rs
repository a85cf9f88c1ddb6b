use wormhole_cli::api::{
    b2_upload_auth_request, create_room_request, decode_salt, finish_upload_request,
    update_room_request, upload_request, uploader_online_request, Method, Request, WormholeClient,
};
use wormhole_cli::base64_text::{base64_encode, base64_url_decode, base64url_encode, decode};
use wormhole_cli::crypto::{derive_auth_token, derive_meta_key};
use wormhole_cli::encrypt::encrypt_metadata;
use wormhole_cli::error::Error;
use wormhole_cli::models::{
    share_url, B2AuthResponse, B2UploadToken, SaltResponse, WormholeUrl,
};

#[test]
fn test_parse_url() {
    let url = "https://wormhole.app/vbrQp4#D3r_nHhqnxiCgKE4pZTtOw";
    let parsed = WormholeUrl::parse(url).unwrap();
    assert_eq!(parsed.room_id, "vbrQp4");
    assert!(!parsed.key.is_empty());
    assert_eq!(parsed.key.len(), 16);
    assert_eq!(parsed.key[..4], [0x0f, 0x7a, 0xff, 0x9c]);
}

#[test]
fn test_parse_url_without_hash() {
    let url = "https://wormhole.app/vbrQp4";
    assert!(WormholeUrl::parse(url).is_err());
    assert_eq!(WormholeUrl::parse(url).unwrap_err(), Error::MissingFragment);
}

#[test]
fn odd_urls_are_parsed_too() {
    let parsed = WormholeUrl::parse("room#AA").unwrap();
    assert_eq!((parsed.room_id.as_str(), parsed.key.as_slice()), ("room", &[0u8][..]));
    let parsed = WormholeUrl::parse("#").unwrap();
    assert_eq!((parsed.room_id.as_str(), parsed.key.len()), ("", 0));
    let parsed = WormholeUrl::parse("a/b/#AA").unwrap();
    assert_eq!(parsed.room_id, "");
    for url in ["r#A", "r#AB", "r#AA==", "r#A+", "r#AA#AA", "r#é", "r# AA"] {
        assert_eq!(WormholeUrl::parse(url).unwrap_err(), Error::Base64Url);
    }
}

#[test]
fn shared_url_parses_back() {
    for key in [vec![0xfb; 16], (0..16).collect(), vec![]] {
        let url = share_url("vbrQp4", &key);
        assert!(url.starts_with("https://wormhole.app/vbrQp4#"));
        let parsed = WormholeUrl::parse(&url).unwrap();
        assert_eq!((parsed.room_id.as_str(), parsed.key), ("vbrQp4", key));
    }
}

#[test]
fn base64_has_known_values() {
    for (data, text) in [
        (&b""[..], ""),
        (b"f", "Zg=="),
        (b"fo", "Zm8="),
        (b"foo", "Zm9v"),
        (b"foob", "Zm9vYg=="),
        (b"fooba", "Zm9vYmE="),
        (b"foobar", "Zm9vYmFy"),
        (&[0xfb, 0xff, 0xfe], "+//+"),
    ] {
        assert_eq!(base64_encode(data), text);
        assert_eq!(decode(text).unwrap(), data);
        let url_safe = text.replace('+', "-").replace('/', "_").replace('=', "");
        assert_eq!(base64url_encode(data), url_safe);
        assert_eq!(base64_url_decode(&url_safe).unwrap(), data);
    }
}

#[test]
fn base64_is_read_strictly() {
    for text in ["Zg", "Zg=", "Zh==", "Zm9=", "Z===", "=", "Zm9v ", "-_-_", "Zg==Zg==", "é==="] {
        assert_eq!(decode(text), Err(Error::Base64));
    }
    for text in ["Zg==", "Zh", "Zm9", "Z", "+/+/", "Zm9v\n"] {
        assert_eq!(base64_url_decode(text), Err(Error::Base64Url));
    }
}

#[test]
fn base64_round_trips_at_all_lengths() {
    for length in 0..70u8 {
        let data: Vec<u8> = (0..length).map(|i| i.wrapping_mul(37)).collect();
        assert_eq!(decode(&base64_encode(&data)).unwrap(), data);
        assert_eq!(base64_url_decode(&base64url_encode(&data)).unwrap(), data);
    }
}

fn client() -> WormholeClient {
    WormholeClient::new("room1".to_string(), (0..16).collect())
}

fn check(request: Request, method: Method, url: &str, headers: &[(&str, &str)]) {
    assert_eq!(request.method, method);
    assert_eq!(request.url, url);
    let found: Vec<(&str, &str)> =
        request.headers.iter().map(|(n, v)| (n.as_str(), v.as_str())).collect();
    assert_eq!(found, headers);
}

#[test]
fn requests_of_a_reader() {
    let token = [0u8, 1, 2];
    let bearer = ("Authorization", "Bearer sync-v1 AAEC");
    check(
        client().salt_request(),
        Method::Get,
        "https://wormhole.app/api/room/room1/salt",
        &[],
    );
    check(
        client().room_request(&token),
        Method::Get,
        "https://wormhole.app/api/room/room1",
        &[bearer],
    );
    check(
        client().b2_auth_request(&token),
        Method::Post,
        "https://wormhole.app/api/room/room1/b2/auth-download",
        &[bearer],
    );
    let auth = B2AuthResponse {
        download_url: "https://b2.example".to_string(),
        authorization_token: "tok".to_string(),
    };
    check(
        client().chunk_request(12, &auth),
        Method::Get,
        "https://b2.example/file/socket-dev-prod/room1/12?Authorization=tok",
        &[],
    );
}

#[test]
fn requests_of_a_writer() {
    let token = [0u8, 1, 2];
    let bearer = ("Authorization", "Bearer sync-v1 AAEC");
    let json = ("Content-Type", "application/json");
    let agent = ("User-Agent", "Wormhole-CLI/1.0");
    check(
        create_room_request(),
        Method::Post,
        "https://wormhole.app/api/room",
        &[json, agent],
    );
    check(
        uploader_online_request("r", &token),
        Method::Patch,
        "https://wormhole.app/api/room/r/uploader-online",
        &[bearer, agent],
    );
    check(
        update_room_request("r", &token),
        Method::Patch,
        "https://wormhole.app/api/room/r",
        &[
            bearer,
            json,
            ("Accept", "application/json"),
            ("Origin", "https://wormhole.app"),
            ("Referer", "https://wormhole.app/"),
            agent,
        ],
    );
    check(
        b2_upload_auth_request("r", &token),
        Method::Post,
        "https://wormhole.app/api/room/r/b2/auth-upload",
        &[bearer, json, agent],
    );
    check(
        finish_upload_request("r", &token),
        Method::Post,
        "https://wormhole.app/api/room/r/b2/finish-upload",
        &[bearer, json, agent],
    );
    let upload = B2UploadToken {
        upload_url: "https://b2.example/upload".to_string(),
        authorization_token: "tok".to_string(),
    };
    check(
        upload_request(&upload, "r", 3, b"abc"),
        Method::Post,
        "https://b2.example/upload",
        &[
            ("Authorization", "tok"),
            ("X-Bz-File-Name", "r/3"),
            ("X-Bz-Content-Sha1", "a9993e364706816aba3e25717850c26c9cd0d89d"),
            ("Content-Length", "3"),
            ("Content-Type", "application/octet-stream"),
            agent,
        ],
    );
}

#[test]
fn salt_is_read() {
    let response = SaltResponse { salt: "AAEC".to_string() };
    assert_eq!(decode_salt(&response).unwrap(), [0, 1, 2]);
    let response = SaltResponse { salt: "AAE".to_string() };
    assert_eq!(decode_salt(&response), Err(Error::Base64));
}

#[test]
fn torrent_of_a_room_is_decrypted() {
    let salt = [7u8; 16];
    let key = derive_meta_key(&client().master_key, &salt).unwrap();
    assert_ne!(key, derive_auth_token(&client().master_key, &salt).unwrap());
    let text = base64_encode(&encrypt_metadata(b"the torrent", &key).unwrap());
    assert_eq!(client().decrypt_torrent(&text, &salt).unwrap(), b"the torrent");
    assert_eq!(client().decrypt_torrent("?", &salt), Err(Error::Base64));
    assert_eq!(client().decrypt_torrent("AAEC", &salt), Err(Error::MetadataTooShort));
    assert_eq!(
        client().decrypt_torrent(&text, &[8u8; 16]),
        Err(Error::MetadataDecryption)
    );
}
