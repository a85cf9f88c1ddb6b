use std::collections::{HashMap, HashSet};

use wormhole_cli::api::WormholeClient;
use wormhole_cli::base64_text::base64_encode;
use wormhole_cli::bencode::parse_torrent;
use wormhole_cli::crypto::derive_auth_token;
use wormhole_cli::error::Error;
use wormhole_cli::multifile::{FileAction, MultiFileDecryptor};
use wormhole_cli::paths::{
    check_path, classify_reply, fault_message, normalize_path, read_reply, sorted_order,
    DownloadPlan, PathFault, Reply, Step,
};
use wormhole_cli::pieces::PieceHasher;
use wormhole_cli::report::{downloaded_files, info_report, upload_size_line};
use wormhole_cli::sizes::calculate_piece_length;
use wormhole_cli::torrent::{create_multi_file_torrent_at, create_torrent_at};
use wormhole_cli::upload::{EncryptingPass, HashedUpload, HashingPass};
use wormhole_cli::upload_plan::{
    estimated_encrypted_size, hours, num_chunks, num_tokens, prepare_upload, prepare_upload_at,
    room_credentials, seal_torrent, start_upload, token_index, total_size,
};

fn hash_files(
    master_key: &[u8],
    files: &[(&str, Vec<u8>)],
    piece_length: usize,
    chunk: usize,
) -> HashedUpload {
    let mut pass = HashingPass::new(master_key.to_vec(), piece_length);
    for (path, data) in files {
        pass = pass.begin_file(path.to_string()).unwrap();
        for part in data.chunks(chunk) {
            pass = pass.update(part).unwrap();
        }
        pass = pass.end_file().unwrap();
    }
    pass.finish()
}

fn cut_files(
    master_key: &[u8],
    files: &[(&str, Vec<u8>)],
    salts: &[[u8; 16]],
    piece_length: usize,
    chunk: usize,
) -> Vec<Vec<u8>> {
    let mut pieces = Vec::new();
    let mut pass = EncryptingPass::new(master_key.to_vec(), piece_length);
    for ((_, data), salt) in files.iter().zip(salts) {
        pass = pass.begin_file(*salt).unwrap();
        for part in data.chunks(chunk) {
            let (next, complete) = pass.update(part).unwrap();
            pass = next;
            pieces.extend(complete);
        }
        let (next, complete) = pass.end_file().unwrap();
        pass = next;
        pieces.extend(complete);
    }
    pieces.extend(pass.finish());
    pieces
}

fn sample(length: usize, seed: u8) -> Vec<u8> {
    (0..length).map(|i| (i % 253) as u8 ^ seed).collect()
}

#[test]
fn upload_and_download_give_the_files_back() {
    let start = start_upload().unwrap();
    let reader_token = derive_auth_token(&start.master_key, &start.salt).unwrap();
    assert_eq!(start.request.reader_token, base64_encode(&reader_token));
    assert_eq!(start.request.salt, base64_encode(&start.salt));

    let files = [
        ("a.txt", sample(100_000, 1)),
        ("dir/b.bin", sample(0, 2)),
        ("dir/c.bin", sample(65519 * 2, 3)),
        ("z", sample(1, 4)),
    ];
    let piece_length = 50_000;
    let hashed = hash_files(&start.master_key, &files, piece_length, 4096);
    let salts = hashed.salts.clone();
    let hashes = hashed.piece_hashes.clone();
    let total = hashed.total_size;
    let prepared = prepare_upload(
        "my files",
        true,
        piece_length,
        hashed,
        &start.master_key,
        &start.salt,
    )
    .unwrap();
    assert_eq!(prepared.total_size, total);
    assert!(prepared.request.multi_file);
    assert_eq!(prepared.request.size_mb, 0);

    // The second pass reads in other chunks, and cuts the pieces that were hashed.
    let pieces = cut_files(&start.master_key, &files, &salts, piece_length, 333);
    assert_eq!(pieces.len(), prepared.num_chunks);
    assert_eq!(pieces.concat().len(), total);
    for (piece, hash) in pieces.iter().zip(&hashes) {
        let mut hasher = PieceHasher::new(piece_length);
        hasher.update(piece);
        assert_eq!(hasher.finalize()[0], *hash);
    }

    // A reader decrypts the torrent and then the pieces.
    let client = WormholeClient::new("room".to_string(), start.master_key.to_vec());
    let torrent = client
        .decrypt_torrent(&prepared.request.encrypted_torrent_file, &start.salt)
        .unwrap();
    assert_eq!(torrent, prepared.torrent);
    let info = parse_torrent(&torrent).unwrap();
    assert_eq!(info.name, "my files");
    assert_eq!(info.num_pieces, pieces.len());
    assert_eq!(info.total_length, total);
    let paths: Vec<&str> = info.files.iter().map(|f| f.path.as_str()).collect();
    assert_eq!(paths, ["a.txt", "dir/b.bin", "dir/c.bin", "z"]);

    let wanted: HashSet<usize> = [0, 1, 2, 3].into_iter().collect();
    let mut disk: HashMap<usize, Vec<u8>> = HashMap::new();
    let mut decryptor =
        MultiFileDecryptor::new(info.files, start.master_key.to_vec(), wanted.clone());
    for piece in &pieces {
        let (actions, result) = decryptor.process_chunk(piece);
        result.unwrap();
        for action in actions {
            match action {
                FileAction::Create(index) => {
                    disk.insert(index, Vec::new());
                }
                FileAction::Write(index, data) => {
                    disk.get_mut(&index).unwrap().extend_from_slice(&data);
                }
            }
        }
    }
    let (files_with_sizes, _) = decryptor.finalize().unwrap();
    for (i, (_, data)) in files.iter().enumerate() {
        assert_eq!(disk[&i], *data);
        assert_eq!(files_with_sizes[i].decrypted_length, Some(data.len()));
    }
    let list = downloaded_files(&files_with_sizes, &wanted).unwrap();
    assert_eq!(list[0], (0, "    97.66 KB".to_string()));
    assert_eq!(list[1], (1, "         0 B".to_string()));
}

#[test]
fn single_file_upload_is_prepared() {
    let master_key = [1u8; 16];
    let salt = [2u8; 16];
    let files = [("one.bin", sample(200_000, 9))];
    let piece_length = calculate_piece_length(estimated_encrypted_size(&[200_000]).unwrap());
    let hashed = hash_files(&master_key, &files, piece_length, 10_000);
    assert_eq!(hashed.files.len(), 1);
    assert_eq!(hashed.files[0].encrypted_length, hashed.total_size);
    assert_eq!(hashed.total_size, 200_000 + 21 + 4 * 17);
    let prepared =
        prepare_upload("one.bin", false, piece_length, hashed, &master_key, &salt).unwrap();
    assert_eq!(prepared.num_chunks, 1);
    let info = parse_torrent(&prepared.torrent).unwrap();
    assert!(!info.multi_file);
    assert_eq!(info.files[0].path, "one.bin");
    assert_eq!(info.total_length, prepared.total_size);
    assert_eq!(prepared.request.info_hash.len(), 40);
}

#[test]
fn upload_with_given_nonce_and_date_is_prepared() {
    let (master_key, salt, nonce) = ([1u8; 16], [2u8; 16], [3u8; 16]);
    let created = 1_700_000_000;
    let files = [("a", sample(3_000_000, 9)), ("d/b", sample(5, 1))];
    for multi_file in [false, true] {
        let hashed = hash_files(&master_key, &files, 1 << 20, 10_000);
        let total = hashed.total_size;
        let (torrent, info_hash) = if multi_file {
            create_multi_file_torrent_at(
                "name",
                &hashed.files,
                1 << 20,
                &hashed.piece_hashes,
                &nonce,
                created,
            )
            .unwrap()
        } else {
            create_torrent_at("name", total, 1 << 20, &hashed.piece_hashes, &nonce, created)
                .unwrap()
        };
        let salts = hashed.salts.clone();
        let prepared = match prepare_upload_at(
            "name",
            multi_file,
            1 << 20,
            hashed,
            &master_key,
            &salt,
            &nonce,
            created,
        ) {
            Ok(prepared) => prepared,
            Err(e) => panic!("{}", e.message()),
        };
        assert_eq!(prepared.torrent, torrent);
        assert_eq!(prepared.request.info_hash, info_hash);
        assert_eq!(prepared.request.multi_file, multi_file);
        assert_eq!(prepared.request.size_mb, 3);
        assert_eq!(prepared.salts, salts);
        assert_eq!(prepared.total_size, total);
        assert_eq!(prepared.num_chunks, 3);
        let client = WormholeClient::new(String::new(), master_key.to_vec());
        let text = &prepared.request.encrypted_torrent_file;
        assert_eq!(client.clone().decrypt_torrent(text, &salt).unwrap(), torrent);
        assert_eq!(client.decrypt_torrent(text, &[0; 16]), Err(Error::MetadataDecryption));
    }
}

#[test]
fn pieces_may_be_longer_than_any_data() {
    for piece_length in [1 << 62, usize::MAX] {
        let mut hasher = PieceHasher::new(piece_length);
        assert!(hasher.accepts(1 << 60));
        assert!(!hasher.accepts(1 << 61));
        hasher.update(b"ab");
        assert!(!hasher.accepts((1 << 61) - 2));
        hasher.update(b"c");
        let hashes = hasher.finalize();
        let mut whole = PieceHasher::new(3);
        assert!(whole.accepts(usize::MAX));
        whole.update(b"abc");
        assert_eq!(hashes, whole.finalize());

        let files = [("a", sample(100_000, 1))];
        let hashed = hash_files(&[1; 16], &files, piece_length, 5000);
        let pieces = cut_files(&[1; 16], &files, &hashed.salts, piece_length, 777);
        assert_eq!(pieces.len(), 1);
        assert_eq!(pieces[0].len(), hashed.total_size);
        assert_eq!(hashed.piece_hashes.len(), 1);
    }
}

#[test]
fn torrent_is_sealed_for_the_room() {
    let text = seal_torrent(b"torrent", &[1; 16], &[2; 16]).unwrap();
    let client = WormholeClient::new(String::new(), vec![1; 16]);
    assert_eq!(client.decrypt_torrent(&text, &[2; 16]).unwrap(), b"torrent");
}

#[test]
fn room_is_asked_for_with_derived_credentials() {
    let master_key: Vec<u8> = (0..16).collect();
    let salt: Vec<u8> = (100..116).collect();
    let request = room_credentials(&master_key, &salt).unwrap();
    assert_eq!(request.reader_token, "sAd4jxjIwtaCKEal3g3AIQ==");
    assert_eq!(request.salt, "ZGVmZ2hpamtsbW5vcHFycw==");
    let (first, second) = (start_upload().unwrap(), start_upload().unwrap());
    assert_ne!(first.master_key, second.master_key);
    assert_ne!(first.salt, second.salt);
}

#[test]
fn sizes_are_added_up() {
    assert_eq!(total_size(&[]), Some(0));
    assert_eq!(total_size(&[1, 2, 3]), Some(6));
    assert_eq!(total_size(&[u64::MAX, 1]), None);
    assert_eq!(estimated_encrypted_size(&[]), Some(0));
    assert_eq!(estimated_encrypted_size(&[100, 9, 19]), Some(110 + 9 + 20));
    assert_eq!(estimated_encrypted_size(&[usize::MAX]), None);
    assert_eq!(estimated_encrypted_size(&[usize::MAX / 2, usize::MAX / 2]), None);
}

#[test]
fn pieces_and_tokens_are_counted() {
    assert_eq!(num_chunks(0, 10), 0);
    assert_eq!(num_chunks(1, 10), 1);
    assert_eq!(num_chunks(10, 10), 1);
    assert_eq!(num_chunks(11, 10), 2);
    assert_eq!(num_chunks(usize::MAX, 1), usize::MAX);
    for count in [1, 5, 9, 10, 11, 25] {
        assert_eq!(num_tokens(count), count.min(10));
        for index in 0..count {
            assert_eq!(token_index(index), index % 10);
            assert!(token_index(index) < num_tokens(count));
        }
    }
}

#[test]
fn lifetimes_are_whole_hours() {
    for seconds in [0, 1, 3599, 3600, 86_400, i64::MAX, -1, -3600, -7201, i64::MIN] {
        assert_eq!(hours(seconds), seconds / 60 / 60);
    }
}

#[test]
fn paths_that_leave_the_directory_are_refused() {
    for path in ["a", "a/b", "..a", "a..", "...", "a/...", "./a", "a//b", "", "a\\..\\b"] {
        assert_eq!(check_path(path), None);
    }
    for path in ["..", "../a", "a/..", "a/../b", "./..", "a//../b"] {
        assert_eq!(check_path(path), Some(PathFault::Parent));
    }
    for path in ["/", "/a", "//a", "/../a"] {
        assert_eq!(check_path(path), Some(PathFault::Absolute));
    }
    assert_eq!(
        fault_message("/a", PathFault::Absolute),
        "Path traversal detected: file path '/a' is absolute"
    );
    assert_eq!(
        fault_message("../a", PathFault::Parent),
        "Path traversal detected: file path '../a' contains '..'"
    );
}

#[test]
fn replies_are_understood() {
    for line in ["y\n", "yes\r\n", " Y ", "YES", "\u{a0}\u{3000}yEs\u{85}\u{2028}", "\u{b}y\u{c}"] {
        assert_eq!(read_reply(line), Reply::Yes);
    }
    for line in ["n", "No\n", " NO"] {
        assert_eq!(read_reply(line), Reply::No);
    }
    for line in ["a\n", "ALL", "\tall\n"] {
        assert_eq!(read_reply(line), Reply::All);
    }
    for line in ["", "\n", "ye", "y es", "none", "\u{200b}y", "\u{feff}y", "ý"] {
        assert_eq!(read_reply(line), Reply::Other);
    }
    assert_eq!(classify_reply(&"Y".to_string()), Reply::Other);
}

fn paths(names: &[&str]) -> Vec<String> {
    names.iter().map(|s| s.to_string()).collect()
}

#[test]
fn existing_files_are_asked_for() {
    let mut plan = DownloadPlan::new(paths(&["a", "b", "c", "d", "e", "f"]), false);
    // One that is not there is downloaded.
    assert_eq!(plan.step(), Step::Inspect(0));
    plan.inspected(false);
    assert_eq!(plan.step(), Step::Prepare(0));
    plan.prepared();
    // One that is there is left, whether the user refuses or is not understood.
    for (index, reply) in [(1, Reply::No), (2, Reply::Other)] {
        assert_eq!(plan.step(), Step::Inspect(index));
        plan.inspected(true);
        assert_eq!(plan.step(), Step::Ask(index));
        plan.replied(reply);
    }
    // One is replaced, the next is asked for again.
    plan.inspected(true);
    plan.replied(Reply::Yes);
    assert_eq!(plan.step(), Step::Prepare(3));
    plan.prepared();
    plan.inspected(true);
    assert_eq!(plan.step(), Step::Ask(4));
    plan.replied(Reply::All);
    assert_eq!(plan.step(), Step::Prepare(4));
    plan.prepared();
    // Now all are replaced.
    plan.inspected(true);
    assert_eq!(plan.step(), Step::Prepare(5));
    plan.prepared();
    assert_eq!(plan.step(), Step::Done);
    let expected: HashSet<usize> = [0, 3, 4, 5].into_iter().collect();
    assert_eq!(plan.into_selection(), expected);
}

#[test]
fn files_are_replaced_without_asking() {
    let mut plan = DownloadPlan::new(paths(&["a"]), true);
    plan.inspected(true);
    assert_eq!(plan.step(), Step::Prepare(0));
    plan.prepared();
    assert_eq!(plan.step(), Step::Done);
    assert_eq!(plan.into_selection().len(), 1);
    assert_eq!(DownloadPlan::new(Vec::new(), true).step(), Step::Done);
}

#[test]
fn faulty_paths_are_not_looked_for() {
    let plan = DownloadPlan::new(paths(&["/etc/passwd"]), true);
    assert_eq!(plan.step(), Step::Refuse(0, PathFault::Absolute));
    let mut plan = DownloadPlan::new(paths(&["a", "../b"]), true);
    plan.inspected(false);
    plan.prepared();
    assert_eq!(plan.step(), Step::Refuse(1, PathFault::Parent));
}

#[test]
fn files_of_a_directory_are_ordered() {
    let names: Vec<String> = ["b", "a/c", "a", "a.txt", "é", "Z", "a/b", "b"]
        .iter()
        .map(|s| s.to_string())
        .collect();
    let order = sorted_order(&names);
    let mut expected: Vec<usize> = (0..names.len()).collect();
    expected.sort_by(|i, j| names[*i].cmp(&names[*j]));
    assert_eq!(order, expected);
    assert!(sorted_order(&Vec::new()).is_empty());
    assert_eq!(normalize_path("a\\b/c\\é"), "a/b/c/é");
}

#[test]
fn room_is_described() {
    let data = b"d4:infod5:filesld6:lengthi2048e4:pathl1:d1:feed6:lengthi5e4:pathl1:geee\
        4:name3:dir12:piece lengthi16384e6:pieces20:aaaaaaaaaaaaaaaaaaaaee";
    let info = parse_torrent(data).unwrap();
    let text = info_report("URL#K", "room", &info, &Some("complete".to_string()), Some(-3));
    assert_eq!(
        text,
        "URL: URL#K\nRoom ID: room\n\nFile Information:\n  Name: dir\n  Type: Directory\n  \
         Total Size: 2.00 KB (2053)\n  Files: 2\n\n  Files in archive:\n         2.00 KB  d/f\n             \
         5 B  g\n\nTorrent Information:\n  Pieces: 1\n  Piece Length: 16.00 KB (16384)\n\n\
         Availability:\n  Status: ✓ Available\n  Remaining Downloads: -3\n"
    );

    let data = b"d4:infod6:lengthi5e4:name1:n12:piece lengthi9e6:pieces0:ee";
    let info = parse_torrent(data).unwrap();
    let text = info_report("u", "r", &info, &None, None);
    assert_eq!(
        text,
        "URL: u\nRoom ID: r\n\nFile Information:\n  Name: n\n  Type: File\n  Total Size: 5 B (5)\n\n\
         Torrent Information:\n  Pieces: 0\n  Piece Length: 9 B (9)\n\nAvailability:\n  Status: Unknown\n"
    );
    let text = info_report("u", "r", &info, &Some("pending".to_string()), None);
    assert!(text.ends_with("  Status: pending\n"));
}

#[test]
fn size_of_an_upload_is_told() {
    for total in [0u64, 1, 5243, 1 << 20, 123_456_789] {
        let expected =
            format!("Size: {} bytes ({:.2} MB)", total, total as f64 / (1024.0 * 1024.0));
        assert_eq!(upload_size_line(total), expected);
    }
}

#[test]
fn incomplete_files_cannot_be_listed() {
    let data = b"d4:infod6:lengthi5e4:name1:n12:piece lengthi9e6:pieces0:ee";
    let mut files = parse_torrent(data).unwrap().files;
    let wanted: HashSet<usize> = [0].into_iter().collect();
    assert_eq!(downloaded_files(&files, &wanted), Err(Error::IncompleteFile));
    assert_eq!(downloaded_files(&files, &HashSet::new()).unwrap(), []);
    files[0].decrypted_length = Some(1500);
    let expected = vec![(0, "     1.46 KB".to_string())];
    assert_eq!(downloaded_files(&files, &wanted).unwrap(), expected);
}

#[test]
fn errors_are_put_in_words() {
    assert_eq!(
        Error::FinalDelimiter(3).message(),
        "delimiter of final record is not 2, got 3"
    );
    assert_eq!(
        Error::RecordDelimiter(255).message(),
        "delimiter of non-final record is not 1, got 255"
    );
    assert_eq!(Error::MissingFragment.message(), "URL must contain # with encryption key");
    assert_eq!(Error::HeaderTooShort.message(), "header must be at least 21 bytes");
    assert_eq!(Error::TrailingData.message(), "data after the final record");
    assert_eq!(Error::MissingFinalRecord.message(), "stream ends before its final record");
    assert_eq!(
        Error::TooMuchData.message(),
        "received more data than expected for all files"
    );
}
