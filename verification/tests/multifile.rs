use std::collections::{HashMap, HashSet};

use wormhole_cli::bencode::FileInfo;
use wormhole_cli::encrypt::StreamEncryptor;
use wormhole_cli::error::Error;
use wormhole_cli::multifile::{FileAction, MultiFileDecryptor};

const KEY: [u8; 16] = [0x21; 16];

fn encrypted(plaintext: &[u8]) -> Vec<u8> {
    let mut encryptor = StreamEncryptor::new(&KEY, 50).unwrap();
    let mut stream = encryptor.update(plaintext).unwrap();
    stream.extend_from_slice(&encryptor.finalize().unwrap());
    stream
}

fn info(path: &str, encrypted_length: usize) -> FileInfo {
    FileInfo {
        path: path.to_string(),
        encrypted_length,
        offset: 0,
        decrypted_length: None,
    }
}

fn perform(actions: Vec<FileAction>, disk: &mut HashMap<usize, Vec<u8>>) {
    for action in actions {
        match action {
            FileAction::Create(index) => {
                disk.insert(index, Vec::new());
            }
            FileAction::Write(index, data) => {
                disk.get_mut(&index).unwrap().extend_from_slice(&data);
            }
        }
    }
}

fn wanted(indices: &[usize]) -> HashSet<usize> {
    indices.iter().copied().collect()
}

fn run(
    files: Vec<FileInfo>,
    data: &[u8],
    chunk: usize,
    selection: &[usize],
) -> (Result<Vec<FileInfo>, Error>, HashMap<usize, Vec<u8>>) {
    let mut disk = HashMap::new();
    let mut decryptor = MultiFileDecryptor::new(files, KEY.to_vec(), wanted(selection));
    for part in data.chunks(chunk) {
        let (actions, result) = decryptor.process_chunk(part);
        perform(actions, &mut disk);
        if let Err(e) = result {
            return (Err(e), disk);
        }
    }
    match decryptor.finalize() {
        Ok((files, actions)) => {
            perform(actions, &mut disk);
            (Ok(files), disk)
        }
        Err(e) => (Err(e), disk),
    }
}

#[test]
fn every_file_gets_its_plaintext() {
    let plaintexts: Vec<Vec<u8>> = vec![vec![], vec![1; 33], vec![2; 34], vec![3; 1000]];
    let streams: Vec<Vec<u8>> = plaintexts.iter().map(|p| encrypted(p)).collect();
    let data = streams.concat();
    for chunk in [1, 20, 38, 100, 5000] {
        let files = streams.iter().map(|s| info("f", s.len())).collect();
        let (result, disk) = run(files, &data, chunk, &[0, 1, 2, 3]);
        let files = result.unwrap();
        for i in 0..4 {
            assert_eq!(disk[&i], plaintexts[i]);
            assert_eq!(files[i].decrypted_length, Some(plaintexts[i].len()));
        }
    }
}

#[test]
fn files_that_are_not_wanted_are_not_written() {
    let streams = [encrypted(&[1; 60]), encrypted(&[2; 70]), encrypted(&[3; 80])];
    let files = streams.iter().map(|s| info("f", s.len())).collect();
    let (result, disk) = run(files, &streams.concat(), 64, &[1]);
    let files = result.unwrap();
    assert_eq!(disk.len(), 1);
    assert_eq!(disk[&1], vec![2; 70]);
    let lengths: Vec<_> = files.iter().map(|f| f.decrypted_length).collect();
    assert_eq!(lengths, [Some(60), Some(70), Some(80)]);
}

#[test]
fn more_data_than_files_is_refused() {
    let stream = encrypted(b"all there is");
    let mut data = stream.clone();
    data.push(0);
    let (result, disk) = run(vec![info("f", stream.len())], &data, 1000, &[0]);
    assert_eq!(result.unwrap_err(), Error::TooMuchData);
    assert_eq!(disk[&0], b"all there is");
    let (result, _) = run(Vec::new(), &[1], 1, &[]);
    assert_eq!(result.unwrap_err(), Error::TooMuchData);
}

#[test]
fn files_without_encrypted_data_are_empty() {
    let stream = encrypted(b"x");
    let files = vec![info("a", 0), info("b", stream.len()), info("c", 0)];
    let (result, disk) = run(files, &stream, 1000, &[0, 1, 2]);
    let files = result.unwrap();
    assert_eq!(disk[&0], b"");
    assert_eq!(disk[&1], b"x");
    // No data comes behind the last file, so it is never begun.
    assert!(!disk.contains_key(&2));
    assert_eq!(files[0].decrypted_length, Some(0));
    assert_eq!(files[2].decrypted_length, None);
}

#[test]
fn data_that_ends_early_is_the_end_of_a_file() {
    let stream = encrypted(&[5; 66]);
    let files = vec![info("a", stream.len() + 100), info("b", 50)];
    let (result, disk) = run(files, &stream, 1000, &[0, 1]);
    let files = result.unwrap();
    assert_eq!(disk[&0], vec![5; 66]);
    assert_eq!(files[0].decrypted_length, Some(66));
    assert_eq!(files[1].decrypted_length, None);

    let files = vec![info("a", stream.len())];
    let (result, _) = run(files, &stream[..stream.len() - 1], 1000, &[0]);
    assert_eq!(result.unwrap_err(), Error::RecordDecryption);

    // The data may end where a record does, but not before the last record.
    let files = vec![info("a", stream.len())];
    let (result, disk) = run(files, &stream[..stream.len() - 50], 1000, &[0]);
    assert_eq!(result.unwrap_err(), Error::MissingFinalRecord);
    assert_eq!(disk[&0], vec![5; 33]);
}

#[test]
fn files_too_short_for_a_header_are_refused() {
    let (result, _) = run(vec![info("a", 5)], &[1, 2, 3, 4, 5], 10, &[0]);
    assert_eq!(result.unwrap_err(), Error::HeaderTooShort);
}

#[test]
fn damage_stops_the_file_it_is_in() {
    let streams = [encrypted(&[1; 60]), encrypted(&[2; 60])];
    let files = streams.iter().map(|s| info("f", s.len())).collect();
    let mut data = streams.concat();
    let second = streams[0].len() + 21 + 50 + 1;
    data[second] ^= 1;
    let (result, disk) = run(files, &data, 7, &[0, 1]);
    assert_eq!(result.unwrap_err(), Error::RecordDecryption);
    assert_eq!(disk[&0], vec![1; 60]);
    assert_eq!(disk[&1], vec![2; 33]);
}

#[test]
fn every_file_gets_its_part_of_the_data() {
    let plaintexts: Vec<Vec<u8>> = vec![vec![1; 70], vec![2; 10], vec![3; 120], vec![4; 5]];
    let streams: Vec<Vec<u8>> = plaintexts.iter().map(|p| encrypted(p)).collect();
    let data = streams.concat();
    let offsets: Vec<usize> =
        (0..=4).map(|k| streams[..k].iter().map(|s| s.len()).sum()).collect();
    for end in 0..=data.len() {
        for chunk in [1, 64, 5000] {
            let files = streams.iter().map(|s| info("f", s.len())).collect();
            let wanted: HashSet<usize> = [0, 2, 3].into_iter().collect();
            let mut disk = HashMap::new();
            let mut decryptor = MultiFileDecryptor::new(files, KEY.to_vec(), wanted);
            for part in data[..end].chunks(chunk) {
                let (actions, result) = decryptor.process_chunk(part);
                perform(actions, &mut disk);
                result.unwrap();
            }
            for k in 0..4 {
                if k == 1 || offsets[k] >= end {
                    assert!(!disk.contains_key(&k));
                } else if offsets[k + 1] <= end {
                    assert_eq!(disk[&k], plaintexts[k]);
                } else {
                    let records = (end - offsets[k]).saturating_sub(21) / 50;
                    assert_eq!(disk[&k], plaintexts[k][..records * 33]);
                }
            }
            // The end is accepted only where a file ends.
            let ended = decryptor.finalize();
            assert_eq!(ended.is_ok(), offsets.contains(&end));
            if let Ok((files, actions)) = ended {
                assert!(actions.is_empty());
                for k in 0..4 {
                    assert_eq!(files[k].path, "f");
                    assert_eq!(files[k].encrypted_length, streams[k].len());
                    let length = if offsets[k] < end { Some(plaintexts[k].len()) } else { None };
                    assert_eq!(files[k].decrypted_length, length);
                }
            }
        }
    }
}
