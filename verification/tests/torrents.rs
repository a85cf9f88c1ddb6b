use wormhole_cli::bencode::parse_torrent;
use wormhole_cli::error::Error;
use wormhole_cli::hex::{encode, hex_encode};
use wormhole_cli::pieces::{PieceCutter, PieceHasher};
use wormhole_cli::torrent::{
    bencode_encode, create_multi_file_torrent_at, create_multi_file_torrent_from_hashes,
    create_torrent_at, create_torrent_from_hashes, BencodeDict, BencodeValue, FileMetadata,
};

#[test]
fn test_bencode_integer() {
    let value = BencodeValue::Integer(42);
    assert_eq!(bencode_encode(&value), b"i42e");
}

#[test]
fn test_bencode_bytestring() {
    let value = BencodeValue::ByteString(b"hello".to_vec());
    assert_eq!(bencode_encode(&value), b"5:hello");
}

#[test]
fn test_bencode_list() {
    let value = BencodeValue::List(vec![BencodeValue::Integer(1), BencodeValue::Integer(2)]);
    assert_eq!(bencode_encode(&value), b"li1ei2ee");
}

#[test]
fn test_bencode_dict() {
    let mut dict = BencodeDict::new();
    dict.insert(b"key".to_vec(), BencodeValue::Integer(42));
    let value = BencodeValue::Dict(dict);
    assert_eq!(bencode_encode(&value), b"d3:keyi42ee");
}

#[test]
fn test_hex_encode() {
    assert_eq!(hex_encode(&[0x00, 0xff, 0xab]), "00ffab");
    assert_eq!(hex_encode(&[]), "");
}

#[test]
fn hex_has_two_digits_for_each_byte() {
    let all: Vec<u8> = (0..=255).collect();
    let expected: String = all.iter().map(|b| format!("{:02x}", b)).collect();
    assert_eq!(encode(&all), expected);
}

#[test]
fn integers_of_all_signs_are_encoded() {
    for n in [0, 1, 9, 10, -1, -10, i64::MAX, i64::MIN, i64::MIN + 1] {
        let expected = format!("i{}e", n).into_bytes();
        assert_eq!(bencode_encode(&BencodeValue::Integer(n)), expected);
    }
}

#[test]
fn empty_values_are_encoded() {
    assert_eq!(bencode_encode(&BencodeValue::ByteString(Vec::new())), b"0:");
    assert_eq!(bencode_encode(&BencodeValue::List(Vec::new())), b"le");
    assert_eq!(bencode_encode(&BencodeValue::Dict(BencodeDict::new())), b"de");
}

#[test]
fn dictionaries_keep_their_keys_in_order() {
    let mut dict = BencodeDict::new();
    for key in ["b", "ab", "a", "", "c", "b", "aa"] {
        let value = BencodeValue::ByteString(key.as_bytes().to_vec());
        dict.insert(key.as_bytes().to_vec(), value);
    }
    dict.insert(b"a".to_vec(), BencodeValue::Integer(7));
    dict.insert(vec![255], BencodeValue::Integer(8));
    assert_eq!(
        bencode_encode(&BencodeValue::Dict(dict)),
        b"d0:0:1:ai7e2:aa2:aa2:ab2:ab1:b1:b1:c1:c1:\xffi8ee"
    );
}

#[test]
fn encodings_tell_values_apart() {
    let text = |t: &str| BencodeValue::ByteString(t.as_bytes().to_vec());
    let mut dict = BencodeDict::new();
    dict.insert(b"b".to_vec(), BencodeValue::Integer(1));
    dict.insert(b"a".to_vec(), BencodeValue::List(vec![text("x")]));
    let mut reversed = BencodeDict::new();
    reversed.insert(b"a".to_vec(), BencodeValue::List(vec![text("x")]));
    reversed.insert(b"b".to_vec(), BencodeValue::Integer(1));
    let dict = BencodeValue::Dict(dict);
    // The order of insertion makes no difference.
    assert_eq!(bencode_encode(&dict), bencode_encode(&BencodeValue::Dict(reversed)));
    let values = [
        BencodeValue::Integer(1),
        BencodeValue::Integer(-1),
        BencodeValue::Integer(11),
        text(""),
        text("1"),
        text("i1e"),
        BencodeValue::List(Vec::new()),
        BencodeValue::List(vec![BencodeValue::Integer(1)]),
        BencodeValue::List(vec![BencodeValue::List(vec![BencodeValue::Integer(1)])]),
        BencodeValue::List(vec![text("1"), text("2")]),
        BencodeValue::List(vec![text("12")]),
        BencodeValue::Dict(BencodeDict::new()),
        dict,
    ];
    let encoded: Vec<Vec<u8>> = values.iter().map(bencode_encode).collect();
    for i in 0..encoded.len() {
        for j in 0..encoded.len() {
            assert_eq!(encoded[i].starts_with(&encoded[j]), i == j);
        }
    }
}

#[test]
fn values_are_copied() {
    let mut inner = BencodeDict::new();
    inner.insert(b"k".to_vec(), BencodeValue::ByteString(b"bytes".to_vec()));
    let list = vec![BencodeValue::Integer(-5), BencodeValue::Dict(inner.clone())];
    let mut dict = BencodeDict::new();
    dict.insert(b"list".to_vec(), BencodeValue::List(list));
    let value = BencodeValue::Dict(dict.clone());
    let copy = value.clone();
    assert_eq!(bencode_encode(&copy), b"d4:listli-5ed1:k5:byteseee");
    assert_eq!(bencode_encode(&value), bencode_encode(&copy));
    // A copy is a dictionary of its own.
    dict.insert(b"more".to_vec(), BencodeValue::Integer(1));
    assert_eq!(bencode_encode(&value), bencode_encode(&copy));
    assert_eq!(
        bencode_encode(&BencodeValue::Dict(dict)),
        b"d4:listli-5ed1:k5:bytesee4:morei1ee"
    );
}

fn hashes(count: u8) -> Vec<Vec<u8>> {
    (0..count).map(|i| vec![i; 20]).collect()
}

#[test]
fn single_file_torrent_is_made() {
    let (torrent, info_hash) =
        create_torrent_at("name.txt", 1234, 16384, &hashes(2), &[0x0f; 16], 1_700_000_000).unwrap();
    let mut info = b"d6:lengthi1234e4:name8:name.txt5:nonce32:".to_vec();
    info.extend_from_slice("0f".repeat(16).as_bytes());
    info.extend_from_slice(b"12:piece lengthi16384e6:pieces40:");
    info.extend_from_slice(&hashes(2).concat());
    info.extend_from_slice(b"7:privatei1ee");
    let mut expected = b"d8:announce28:wss://wormhole.app/websocket\
        13:announce-listll28:wss://wormhole.app/websocketee\
        10:created by15:WebTorrent/010813:creation datei1700000000e4:info"
        .to_vec();
    expected.extend_from_slice(&info);
    expected.extend_from_slice(b"7:privatei1e8:url-listlee");
    assert_eq!(torrent, expected);
    let mut hasher = PieceHasher::new(info.len());
    hasher.update(&info);
    assert_eq!(info_hash, hex_encode(&hasher.finalize()[0]));
}

#[test]
fn single_file_torrent_reads_back() {
    let (torrent, info_hash) =
        create_torrent_from_hashes("été.txt", 123_456, 65536, hashes(3)).unwrap();
    assert_eq!(info_hash.len(), 40);
    let info = parse_torrent(&torrent).unwrap();
    assert_eq!(info.name, "été.txt");
    assert_eq!(info.piece_length, 65536);
    assert_eq!(info.num_pieces, 3);
    assert_eq!(info.total_length, 123_456);
    assert!(!info.multi_file);
    assert_eq!(info.files.len(), 1);
    assert_eq!(info.files[0].path, "été.txt");
    assert_eq!(info.files[0].encrypted_length, 123_456);
    assert_eq!(info.files[0].offset, 0);
    assert_eq!(info.files[0].decrypted_length, None);
}

#[test]
fn torrents_have_nonces_of_their_own() {
    let (first, first_hash) = create_torrent_from_hashes("n", 1, 16384, hashes(1)).unwrap();
    let (second, second_hash) = create_torrent_from_hashes("n", 1, 16384, hashes(1)).unwrap();
    assert_ne!(first, second);
    assert_ne!(first_hash, second_hash);
}

#[test]
fn torrents_bear_the_present_date() {
    let seconds = || {
        let elapsed = std::time::UNIX_EPOCH.elapsed().unwrap();
        elapsed.as_secs()
    };
    let before = seconds();
    let (torrent, _) = create_torrent_from_hashes("n", 1, 16384, hashes(1)).unwrap();
    let after = seconds();
    let text = String::from_utf8_lossy(&torrent).into_owned();
    let (_, rest) = text.split_once("13:creation datei").unwrap();
    let (date, _) = rest.split_once('e').unwrap();
    let date: u64 = date.parse().unwrap();
    assert!(before <= date && date <= after);
}

fn metadata(path: &str, encrypted_length: usize) -> FileMetadata {
    FileMetadata { path: path.to_string(), encrypted_length }
}

#[test]
fn multi_file_torrent_is_made() {
    let files = [metadata("a/b.txt", 7), metadata("c", 8)];
    let (torrent, _) =
        create_multi_file_torrent_at("dir", &files, 16384, &hashes(1), &[0; 16], 5).unwrap();
    let text = String::from_utf8_lossy(&torrent).into_owned();
    assert!(text.contains(
        "4:infod5:filesld6:lengthi7e4:pathl1:a5:b.txteed6:lengthi8e4:pathl1:ceee4:name3:dir5:nonce"
    ));
    assert!(text.contains("13:creation datei5e"));
}

#[test]
fn multi_file_torrent_reads_back() {
    let files = [metadata("sub/é.bin", 100), metadata("z", 0), metadata("a//b", 50)];
    let (torrent, _) =
        create_multi_file_torrent_from_hashes("my dir", &files, 16384, hashes(2)).unwrap();
    let info = parse_torrent(&torrent).unwrap();
    assert_eq!(info.name, "my dir");
    assert!(info.multi_file);
    assert_eq!(info.num_pieces, 2);
    assert_eq!(info.total_length, 150);
    let listed: Vec<_> =
        info.files.iter().map(|f| (f.path.as_str(), f.encrypted_length, f.offset)).collect();
    assert_eq!(listed, [("sub/é.bin", 100, 0), ("z", 0, 100), ("a//b", 50, 100)]);
}

fn error_of(data: &[u8]) -> Error {
    parse_torrent(data).unwrap_err()
}

#[test]
fn fields_of_a_torrent_are_found() {
    let data = b"d4:infod6:lengthi5e4:name1:n12:piece lengthi9e6:pieces41:\
        aaaaaaaaaaaaaaaaaaaaaaaaaaaaaaaaaaaaaaaaaee";
    let info = parse_torrent(data).unwrap();
    assert_eq!((info.total_length, info.piece_length, info.num_pieces), (5, 9, 2));
    // What follows the torrent is not looked at.
    let mut longer = data.to_vec();
    longer.extend_from_slice(b"trailing");
    assert!(parse_torrent(&longer).is_ok());
    assert_eq!(error_of(&data[..data.len() - 1]), Error::TorrentSyntax);
}

#[test]
fn other_fields_of_a_torrent_are_ignored() {
    let data = b"d1:ai99999999999999999999999e4:infod5:filesle6:lengthi5e4:name1:n\
        12:piece lengthi9e6:pieces0:7:privatei1ee1:zl1:xdeee";
    let info = parse_torrent(data).unwrap();
    // A list of files counts for more than a length.
    assert!(info.multi_file);
    assert_eq!(info.files.len(), 0);
    assert_eq!(info.total_length, 0);
}

#[test]
fn names_that_are_not_text_are_mended() {
    let data = b"d4:infod6:lengthi5e4:name3:a\xffb12:piece lengthi9e6:pieces0:ee";
    assert_eq!(parse_torrent(data).unwrap().name, "a\u{fffd}b");
}

#[test]
fn broken_torrents_are_refused() {
    for data in [
        &b""[..],
        b"e",
        b"i5e",
        b"de",
        b"le",
        b"d4:infoi5ee",
        b"d4:infodee",
        // a field is missing
        b"d4:infod6:lengthi5e4:name1:n6:pieces0:ee",
        b"d4:infod6:lengthi5e12:piece lengthi9e6:pieces0:ee",
        b"d4:infod6:lengthi5e4:name1:n12:piece lengthi9eee",
        // a field has the wrong type
        b"d4:infod6:length1:54:name1:n12:piece lengthi9e6:pieces0:ee",
        b"d4:infod6:lengthi5e4:namei1e12:piece lengthi9e6:pieces0:ee",
        b"d4:infod5:filesi1e4:name1:n12:piece lengthi9e6:pieces0:ee",
        b"d4:infod5:filesli1ee4:name1:n12:piece lengthi9e6:pieces0:ee",
        b"d4:infod5:filesld6:lengthi1eee4:name1:n12:piece lengthi9e6:pieces0:ee",
        b"d4:infod5:filesld6:lengthi1e4:pathli1eeee4:name1:n12:piece lengthi9e6:pieces0:ee",
        // a number is out of range, or has a leading zero
        b"d4:infod6:lengthi9223372036854775808e4:name1:n12:piece lengthi9e6:pieces0:ee",
        b"d4:infod6:lengthi05e4:name1:n12:piece lengthi9e6:pieces0:ee",
        b"d4:infod6:lengthi-0e4:name1:n12:piece lengthi9e6:pieces0:ee",
        // keys are out of order, or stand twice
        b"d4:infod4:name1:n6:lengthi5e12:piece lengthi9e6:pieces0:ee",
        b"d4:infod6:lengthi5e6:lengthi5e4:name1:n12:piece lengthi9e6:pieces0:ee",
    ] {
        assert_eq!(error_of(data), Error::TorrentSyntax);
    }
}

fn nested(levels: usize) -> Vec<u8> {
    let mut data = b"d1:a".to_vec();
    data.extend_from_slice("l".repeat(levels).as_bytes());
    data.extend_from_slice("e".repeat(levels).as_bytes());
    data.extend_from_slice(b"4:infod6:lengthi5e4:name1:n12:piece lengthi9e6:pieces0:ee");
    data
}

#[test]
fn nesting_is_allowed_to_some_depth() {
    // The dictionary is the first level, nine lists the others.
    assert!(parse_torrent(&nested(9)).is_ok());
    assert_eq!(error_of(&nested(10)), Error::TorrentSyntax);
    assert_eq!(error_of(&nested(5000)), Error::TorrentSyntax);
}

#[test]
fn torrent_without_content_is_refused() {
    let data = b"d4:infod4:name1:n12:piece lengthi9e6:pieces0:ee";
    assert_eq!(error_of(data), Error::TorrentContent);
}

#[test]
fn files_that_are_too_long_together_are_refused() {
    let data = b"d4:infod5:filesld6:lengthi-1e4:pathleed6:lengthi1e4:pathleee\
        4:name1:n12:piece lengthi9e6:pieces0:ee";
    assert_eq!(error_of(data), Error::TorrentLength);
}

#[test]
fn extreme_lengths_are_read() {
    let data = b"d4:infod6:lengthi9223372036854775807e4:name1:n\
        12:piece lengthi-9223372036854775808e6:pieces0:ee";
    let info = parse_torrent(data).unwrap();
    assert_eq!(info.total_length, i64::MAX as usize);
    assert_eq!(info.piece_length, i64::MIN as usize);
}

fn hash_all(data: &[u8], piece_length: usize, chunk: usize) -> Vec<Vec<u8>> {
    let mut hasher = PieceHasher::new(piece_length);
    for part in data.chunks(chunk) {
        hasher.update(part);
    }
    hasher.finalize()
}

#[test]
fn pieces_are_hashed() {
    let hashes = hash_all(b"abcabcab", 3, 100);
    assert_eq!(hex_encode(&hashes[0]), "a9993e364706816aba3e25717850c26c9cd0d89d");
    assert_eq!(hashes[0], hashes[1]);
    assert_eq!(hex_encode(&hashes[2]), "da23614e02469a0d7c7bd1bdab5c9c474b1904dc");
    assert_eq!(hashes.len(), 3);
    for chunk in [1, 2, 3, 4] {
        assert_eq!(hash_all(b"abcabcab", 3, chunk), hashes);
    }
    assert_eq!(hash_all(b"abcabc", 3, 5).len(), 2);
}

#[test]
fn no_data_has_one_hash() {
    let hashes = PieceHasher::new(16).finalize();
    assert_eq!(hashes.len(), 1);
    assert_eq!(hex_encode(&hashes[0]), "da39a3ee5e6b4b0d3255bfef95601890afd80709");
}

#[test]
fn cut_pieces_have_the_hashes_of_the_torrent() {
    let data: Vec<u8> = (0..100u8).collect();
    for chunk in [1, 9, 16, 17, 100] {
        let mut cutter = PieceCutter::new(16);
        let mut pieces = Vec::new();
        for part in data.chunks(chunk) {
            pieces.extend(cutter.cut(part));
        }
        pieces.extend(cutter.finish());
        assert_eq!(pieces.concat(), data);
        let hashes = hash_all(&data, 16, 100);
        assert_eq!(pieces.len(), hashes.len());
        for (piece, hash) in pieces.iter().zip(&hashes) {
            assert_eq!(hash_all(piece, 16, 16)[0], *hash);
        }
    }
    assert!(PieceCutter::new(16).finish().is_none());
}
