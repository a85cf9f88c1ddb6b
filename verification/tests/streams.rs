use wormhole_cli::base64_text::base64_url_decode;
use wormhole_cli::crypto::KEY_LENGTH;
use wormhole_cli::decrypt::{unpad, Header, StreamingDecryptor, HEADER_LENGTH};
use wormhole_cli::encrypt::{pad_record, StreamEncryptor, RECORD_SIZE};
use wormhole_cli::error::Error;

fn encrypt_stream(
    plaintext: &[u8],
    master_key: &[u8],
    record_size: usize,
) -> Result<Vec<u8>, Error> {
    let mut encryptor = StreamEncryptor::new(master_key, record_size)?;
    let mut output = encryptor.update(plaintext)?;
    output.extend_from_slice(&encryptor.finalize()?);
    Ok(output)
}

fn decrypt_stream(stream: &[u8], master_key: &[u8], chunk: usize) -> Result<Vec<u8>, Error> {
    let mut decryptor = StreamingDecryptor::new(Vec::new());
    for part in stream.chunks(chunk) {
        decryptor.process_chunk(part, master_key)?;
    }
    let (output, count) = decryptor.finalize()?;
    assert_eq!(output.len(), count);
    Ok(output)
}

fn sample(length: usize) -> Vec<u8> {
    (0..length).map(|i| (i * 7 + i / 251) as u8).collect()
}

const KEY: [u8; KEY_LENGTH] = [0x42; KEY_LENGTH];

#[test]
fn test_encrypt_decrypt_roundtrip() {
    let master_key = [0u8; KEY_LENGTH];
    let plaintext = b"Hello, Wormhole!";

    let encrypted = encrypt_stream(plaintext, &master_key, RECORD_SIZE).unwrap();

    // Encrypted data should be larger than plaintext (header + padding + tag)
    assert!(encrypted.len() > plaintext.len());

    // Should start with 21-byte header
    assert!(encrypted.len() >= 21);

    assert_eq!(decrypt_stream(&encrypted, &master_key, 1000).unwrap(), plaintext);
}

#[test]
fn test_pad_record() {
    let data = b"test";
    let padded_middle = pad_record(data, false);
    assert_eq!(padded_middle.last(), Some(&1));

    let padded_final = pad_record(data, true);
    assert_eq!(padded_final.last(), Some(&2));
}

#[test]
fn test_unpad_last() {
    let data = vec![1, 2, 3, 0, 0, 2];
    let result = unpad(&data, true).unwrap();
    assert_eq!(result, vec![1, 2, 3, 0, 0]);
}

#[test]
fn test_unpad_non_last() {
    let data = vec![1, 2, 3, 0, 0, 1];
    let result = unpad(&data, false).unwrap();
    assert_eq!(result, vec![1, 2, 3, 0, 0]);
}

#[test]
fn test_unpad_wrong_delimiter() {
    let data = vec![1, 2, 3, 0, 0, 3];
    assert!(unpad(&data, true).is_err());
}

#[test]
fn unpad_errors_tell_the_delimiter() {
    assert_eq!(unpad(&[5, 3], true), Err(Error::FinalDelimiter(3)));
    assert_eq!(unpad(&[5, 1], true), Err(Error::FinalDelimiter(1)));
    assert_eq!(unpad(&[5, 2], false), Err(Error::RecordDelimiter(2)));
    assert_eq!(unpad(&[0, 0, 0], true), Err(Error::NoDelimiter));
    assert_eq!(unpad(&[], false), Err(Error::NoDelimiter));
}

#[test]
fn unpad_drops_zeros_behind_the_delimiter() {
    assert_eq!(unpad(&[9, 0, 2, 0, 0], true).unwrap(), vec![9, 0]);
    assert_eq!(unpad(&[1, 0], false).unwrap(), Vec::<u8>::new());
}

#[test]
fn unpad_undoes_pad() {
    for data in [&b""[..], b"abc", &[0, 0, 0], &[1, 2, 0]] {
        for is_last in [false, true] {
            assert_eq!(unpad(&pad_record(data, is_last), is_last).unwrap(), data);
        }
    }
}

#[test]
fn header_is_parsed() {
    let mut bytes = sample(16);
    bytes.extend_from_slice(&[0, 1, 2, 3, 0, 99]);
    let header = Header::parse(&bytes).unwrap();
    assert_eq!(header.salt, sample(16));
    assert_eq!(header.record_size, 0x0001_0203);
    assert_eq!(header.idlen, 0);
    assert_eq!(Header::parse(&bytes[..20]).unwrap_err(), Error::HeaderTooShort);
    bytes[20] = 4;
    assert_eq!(Header::parse(&bytes).unwrap_err(), Error::KeyIdentifier);
}

#[test]
fn walrus_is_encrypted_and_decrypted() {
    let key = base64_url_decode("yqdlZ-tYemfogSmv7Ws5PQ").unwrap();
    let salt = base64_url_decode("I1BsxtFttlv3u_Oo94xnmw").unwrap();
    let message = base64_url_decode(
        "I1BsxtFttlv3u_Oo94xnmwAAEAAA-NAVub2qFgBEuQKRapoZu-IxkIva3MEB1PD-ly8Thjg",
    )
    .unwrap();
    let salt: [u8; KEY_LENGTH] = salt.try_into().unwrap();
    let mut encryptor = StreamEncryptor::new_with_salt(&key, 4096, salt).unwrap();
    let mut stream = encryptor.update(b"I am the walrus").unwrap();
    stream.extend_from_slice(&encryptor.finalize().unwrap());
    assert_eq!(stream, message);
    assert_eq!(decrypt_stream(&message, &key, 10).unwrap(), b"I am the walrus");
}

#[test]
fn last_record_may_be_as_long_as_the_others() {
    let key = base64_url_decode("BO3ZVPxUlnLORbVGMpbT1Q").unwrap();
    let message = base64_url_decode(
        "uNCkWiNYzKTnBN9ji3-qWAAAABkCYTHOG8chz_gnvgOqdGYovxyjuqRyJFjEDyoF1Fvkj6hQPdPHI51OEUKEpgz3SsLWIqS_uA",
    )
    .unwrap();
    // This stream names its key, which is refused.
    assert_eq!(message[20], 2);
    assert_eq!(decrypt_stream(&message, &key, 7), Err(Error::KeyIdentifier));
    // Without the name it is read: the first record has a zero behind its delimiter, the last one
    // has the length of the others.
    let mut unnamed = message[..20].to_vec();
    unnamed.push(0);
    unnamed.extend_from_slice(&message[23..]);
    assert_eq!(unnamed.len(), HEADER_LENGTH + 2 * 25);
    for chunk in [1, 7, 25, 46, 100] {
        assert_eq!(decrypt_stream(&unnamed, &key, chunk).unwrap(), b"I am the walrus");
    }
    // Each record is handed out as soon as it is complete.
    let mut decryptor = StreamingDecryptor::new(Vec::new());
    decryptor.process_chunk(&unnamed[..60], &key).unwrap();
    assert_eq!(decryptor.take_output(), b"I am th");
    decryptor.process_chunk(&unnamed[60..], &key).unwrap();
    assert_eq!(decryptor.take_output(), b"e walrus");
    assert_eq!(decryptor.finalize().unwrap(), (Vec::new(), 15));
    // Nothing may follow the last record.
    unnamed.push(0);
    for chunk in [1, 25, 71, 100] {
        assert_eq!(decrypt_stream(&unnamed, &key, chunk), Err(Error::TrailingData));
    }
    // And the last record has to come.
    assert_eq!(decrypt_stream(&unnamed[..46], &key, 9), Err(Error::MissingFinalRecord));
}

#[test]
fn full_records_wait_for_more_plaintext() {
    let per_record = 64 - 17;
    let plaintext = sample(per_record + 1);
    let mut encryptor = StreamEncryptor::new_with_salt(&KEY, 64, [1; 16]).unwrap();
    let mut stream = encryptor.update(&plaintext[..per_record]).unwrap();
    assert_eq!(stream.len(), HEADER_LENGTH);
    stream.extend_from_slice(&encryptor.update(&plaintext[per_record..]).unwrap());
    assert_eq!(stream.len(), HEADER_LENGTH + 64);
    stream.extend_from_slice(&encryptor.finalize().unwrap());
    assert_eq!(stream.len(), HEADER_LENGTH + 64 + 18);
    assert_eq!(decrypt_stream(&stream, &KEY, 30).unwrap(), plaintext);
}

#[test]
fn last_record_is_marked_whatever_its_length() {
    // A record that ends the stream ends it also where another one could follow.
    for length in [1, 22, 23, 46, 230] {
        let mut stream = encrypt_stream(&sample(length), &KEY, 40).unwrap();
        let records = length.div_ceil(23);
        let last = HEADER_LENGTH + (records - 1) * 40;
        if records > 1 {
            assert_eq!(
                decrypt_stream(&stream[..last], &KEY, 64),
                Err(Error::MissingFinalRecord)
            );
        }
        if length % 23 == 0 {
            assert_eq!(stream.len(), last + 40);
            stream.extend_from_slice(&[0; 5]);
            assert_eq!(decrypt_stream(&stream, &KEY, 64), Err(Error::TrailingData));
        }
    }
}

#[test]
fn streams_round_trip_at_all_lengths() {
    let per_record = 40 - 17;
    for length in [0, 1, per_record - 1, per_record, per_record + 1, 2 * per_record, 100, 1000] {
        let plaintext = sample(length);
        let stream = encrypt_stream(&plaintext, &KEY, 40).unwrap();
        let records = if length == 0 { 1 } else { length.div_ceil(per_record) };
        assert_eq!(stream.len(), HEADER_LENGTH + length + 17 * records);
        for chunk in [1, 7, 21, 40, 5000] {
            assert_eq!(decrypt_stream(&stream, &KEY, chunk).unwrap(), plaintext);
        }
    }
}

#[test]
fn streams_round_trip_with_the_default_record_size() {
    for length in [65536 - 18, 65536 - 17, 65536, 300_000] {
        let plaintext = sample(length);
        let stream = encrypt_stream(&plaintext, &KEY, RECORD_SIZE).unwrap();
        assert_eq!(decrypt_stream(&stream, &KEY, 4096).unwrap(), plaintext);
    }
}

#[test]
fn encryption_does_not_depend_on_chunks() {
    let plaintext = sample(500);
    let salt = [5u8; KEY_LENGTH];
    let mut streams = Vec::new();
    for chunk in [1, 3, 46, 47, 48, 500] {
        let mut encryptor = StreamEncryptor::new_with_salt(&KEY, 64, salt).unwrap();
        assert_eq!(encryptor.salt(), salt);
        let mut stream = Vec::new();
        for part in plaintext.chunks(chunk) {
            stream.extend_from_slice(&encryptor.update(part).unwrap());
        }
        stream.extend_from_slice(&encryptor.finalize().unwrap());
        streams.push(stream);
    }
    for stream in &streams {
        assert_eq!(stream, &streams[0]);
    }
    assert_eq!(streams[0][..16], salt);
    assert_eq!(streams[0][16..21], [0, 0, 0, 64, 0]);
}

#[test]
fn random_salts_differ() {
    let first = StreamEncryptor::new(&KEY, RECORD_SIZE).unwrap();
    let second = StreamEncryptor::new(&KEY, RECORD_SIZE).unwrap();
    assert_ne!(first.salt(), second.salt());
}

#[test]
fn header_comes_with_the_first_output() {
    let mut encryptor = StreamEncryptor::new_with_salt(&KEY, 64, [1; 16]).unwrap();
    assert_eq!(encryptor.update(b"").unwrap().len(), HEADER_LENGTH);
    assert_eq!(encryptor.update(b"ab").unwrap().len(), 0);
    assert_eq!(encryptor.finalize().unwrap().len(), 2 + 17);

    let mut unused = StreamEncryptor::new_with_salt(&KEY, 64, [1; 16]).unwrap();
    assert_eq!(unused.finalize().unwrap().len(), HEADER_LENGTH + 17);
}

#[test]
fn finalized_encryptor_is_refused() {
    let mut encryptor = StreamEncryptor::new(&KEY, 64).unwrap();
    encryptor.finalize().unwrap();
    assert_eq!(encryptor.update(b"x"), Err(Error::AlreadyFinalized));
    assert_eq!(encryptor.finalize(), Err(Error::AlreadyFinalized));

    let mut smallest = StreamEncryptor::new(&KEY, 17).unwrap();
    smallest.finalize().unwrap();
    for chunk in [&b""[..], b"x"] {
        assert_eq!(smallest.update(chunk), Err(Error::AlreadyFinalized));
    }
    assert_eq!(smallest.finalize(), Err(Error::AlreadyFinalized));
}

#[test]
fn beginning_of_a_stream_gives_its_full_records() {
    let per_record = 40 - 17;
    for length in [0, 5, 23, 60, 69] {
        let plaintext = sample(length);
        let stream = encrypt_stream(&plaintext, &KEY, 40).unwrap();
        for end in 0..=stream.len() {
            let inside = end.saturating_sub(HEADER_LENGTH) / 40;
            let expected = &plaintext[..(inside * per_record).min(length)];
            for chunk in [1, 13, 100] {
                let mut decryptor = StreamingDecryptor::new(Vec::new());
                for part in stream[..end].chunks(chunk) {
                    decryptor.process_chunk(part, &KEY).unwrap();
                }
                assert_eq!(decryptor.take_output(), expected);
            }
        }
    }
}

#[test]
fn smallest_record_size_takes_an_empty_stream() {
    let mut encryptor = StreamEncryptor::new(&KEY, 17).unwrap();
    let stream = encryptor.finalize().unwrap();
    assert_eq!(stream.len(), HEADER_LENGTH + 17);
    assert_eq!(decrypt_stream(&stream, &KEY, 9).unwrap(), b"");
}

#[test]
fn damaged_streams_are_refused() {
    let stream = encrypt_stream(&sample(100), &KEY, 40).unwrap();
    assert_eq!(decrypt_stream(&stream, &[1; 16], 9), Err(Error::RecordDecryption));

    let mut flipped = stream.clone();
    flipped[30] ^= 1;
    assert_eq!(decrypt_stream(&flipped, &KEY, 9), Err(Error::RecordDecryption));

    // Without its last record, a stream ends where a record ends.
    let cut = HEADER_LENGTH + 4 * 40;
    assert_eq!(decrypt_stream(&stream[..cut], &KEY, 9), Err(Error::MissingFinalRecord));
    assert_eq!(decrypt_stream(&stream[..HEADER_LENGTH], &KEY, 9), Err(Error::MissingFinalRecord));
    assert_eq!(decrypt_stream(&stream[..cut + 1], &KEY, 9), Err(Error::RecordDecryption));
    assert_eq!(decrypt_stream(&stream[..20], &KEY, 9), Err(Error::HeaderTooShort));
    assert_eq!(decrypt_stream(b"", &KEY, 9).unwrap(), b"");
}

#[test]
fn misplaced_records_are_refused() {
    // A record that another follows, taken for the last one.
    let stream = encrypt_stream(&sample(24), &KEY, 40).unwrap();
    let mut longer = stream[..HEADER_LENGTH + 40].to_vec();
    longer[19] = 41;
    assert_eq!(decrypt_stream(&longer, &KEY, 99), Err(Error::FinalDelimiter(1)));

    // A last one that fills the record size ends the stream; nothing may follow.
    let mut exact = encrypt_stream(&sample(5), &KEY, 40).unwrap();
    exact[19] = 22;
    assert_eq!(decrypt_stream(&exact, &KEY, 99).unwrap(), sample(5));
    let record = exact[HEADER_LENGTH..].to_vec();
    exact.extend_from_slice(&record);
    assert_eq!(decrypt_stream(&exact, &KEY, 99), Err(Error::TrailingData));
    assert_eq!(decrypt_stream(&exact, &KEY, HEADER_LENGTH + 22), Err(Error::TrailingData));
}

#[test]
fn record_sizes_without_room_are_refused() {
    for record_size in [0u8, 1, 15, 16, 17] {
        let mut stream = vec![7u8; 16];
        stream.extend_from_slice(&[0, 0, 0, record_size, 0]);
        stream.extend_from_slice(&[1; 60]);
        assert_eq!(decrypt_stream(&stream, &KEY, 100), Err(Error::RecordDecryption));
    }
}

#[test]
fn output_can_be_taken_on_the_way() {
    let plaintext = sample(90);
    let stream = encrypt_stream(&plaintext, &KEY, 40).unwrap();
    let mut decryptor = StreamingDecryptor::new(b"before".to_vec());
    decryptor.process_chunk(&stream[..70], &KEY).unwrap();
    let mut output = decryptor.take_output();
    assert_eq!(output, [&b"before"[..], &plaintext[..23]].concat());
    assert!(decryptor.take_output().is_empty());
    decryptor.process_chunk(&stream[70..], &KEY).unwrap();
    let (rest, count) = decryptor.finalize().unwrap();
    output.extend_from_slice(&rest);
    assert_eq!(output[6..], plaintext);
    assert_eq!(count, 90);
}

#[test]
fn plaintext_before_an_error_is_kept() {
    let plaintext = sample(90);
    let mut stream = encrypt_stream(&plaintext, &KEY, 40).unwrap();
    stream[21 + 40 + 3] ^= 1;
    for chunk in [5, 61, 200] {
        let mut decryptor = StreamingDecryptor::new(Vec::new());
        let mut error = None;
        for part in stream.chunks(chunk) {
            if let Err(e) = decryptor.process_chunk(part, &KEY) {
                error = Some(e);
                break;
            }
        }
        assert_eq!(error, Some(Error::RecordDecryption));
        assert_eq!(decryptor.take_output(), plaintext[..23]);
    }
}
