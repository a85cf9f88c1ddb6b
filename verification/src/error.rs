//! What can go wrong in the library.

use vstd::prelude::*;

use crate::text::{decimal_text, decimal_text_tells_the_number, push_decimal, tells_number};

verus! {

/// An error of the library. [`Error::message`] puts it in words.
#[derive(Debug, Clone, Copy, PartialEq, Eq, Structural)]
pub enum Error {
    /// A nonce base that is not `NONCE_LENGTH` bytes long.
    NonceBaseLength,
    /// Key material that is too long for HKDF.
    KeyDerivation,
    /// A metadata key that is not `KEY_LENGTH` bytes long.
    KeyLength,
    /// Encrypted metadata that ends before its IV does.
    MetadataTooShort,
    /// Metadata that is too long to encrypt.
    MetadataEncryption,
    /// Metadata that does not authenticate under the key.
    MetadataDecryption,
    /// A record that is too long to encrypt.
    RecordEncryption,
    /// A record that does not authenticate under the key.
    RecordDecryption,
    /// The encryptor was used after it was finalized.
    AlreadyFinalized,
    /// A stream whose record or byte count leaves its counter's range.
    StreamTooLong,
    /// A stream header that ends too early.
    HeaderTooShort,
    /// A stream header with a key identifier.
    KeyIdentifier,
    /// A final record that ends in this delimiter instead of 2.
    FinalDelimiter(u8),
    /// A record before the final one that ends in this delimiter instead of 1.
    RecordDelimiter(u8),
    /// A record that holds nothing but zeros.
    NoDelimiter,
    /// Data behind the final record of a stream.
    TrailingData,
    /// A stream that ends before its final record.
    MissingFinalRecord,
    /// More encrypted data than the files of the torrent hold.
    TooMuchData,
    /// A URL without a `#`.
    MissingFragment,
    /// Text that is not unpadded URL-safe base64.
    Base64Url,
    /// Text that is not standard base64.
    Base64,
    /// Bytes that do not begin with the bencoding of a torrent.
    TorrentSyntax,
    /// A torrent with neither a `length` nor a `files` field.
    TorrentContent,
    /// A torrent whose file lengths do not sum to a `usize`.
    TorrentLength,
    /// Torrent information that is too long to hash.
    TorrentTooLong,
    /// The clock shows a time before 1970.
    Clock,
    /// A file of which not all data has come.
    IncompleteFile,
}

impl Error {
    /// The error in words.
    pub open spec fn words(self) -> Seq<char> {
        match self {
            Error::NonceBaseLength => "nonce base must be 12 bytes"@,
            Error::KeyDerivation => "HKDF expand failed"@,
            Error::KeyLength => "invalid key length"@,
            Error::MetadataTooShort => "encrypted metadata too short"@,
            Error::MetadataEncryption => "encryption failed"@,
            Error::MetadataDecryption => "decryption failed"@,
            Error::RecordEncryption => "failed to encrypt record"@,
            Error::RecordDecryption => "failed to decrypt record"@,
            Error::AlreadyFinalized => "StreamEncryptor already finalized"@,
            Error::StreamTooLong => "stream too long"@,
            Error::HeaderTooShort => "header must be at least 21 bytes"@,
            Error::KeyIdentifier => "implementation does not support non-zero idlen"@,
            Error::FinalDelimiter(got) => "delimiter of final record is not 2, got "@
                + decimal_text(got as nat),
            Error::RecordDelimiter(got) => "delimiter of non-final record is not 1, got "@
                + decimal_text(got as nat),
            Error::NoDelimiter => "no delimiter found"@,
            Error::TrailingData => "data after the final record"@,
            Error::MissingFinalRecord => "stream ends before its final record"@,
            Error::TooMuchData => "received more data than expected for all files"@,
            Error::MissingFragment => "URL must contain # with encryption key"@,
            Error::Base64Url => "failed to decode base64url"@,
            Error::Base64 => "base64 decode failed"@,
            Error::TorrentSyntax => "failed to parse bencode torrent file"@,
            Error::TorrentContent => "torrent has neither 'length' nor 'files' field"@,
            Error::TorrentLength => "files are too long together"@,
            Error::TorrentTooLong => "torrent information too long"@,
            Error::Clock => "system time is before the Unix epoch"@,
            Error::IncompleteFile => "file is incomplete"@,
        }
    }

    /// The error in words.
    pub fn message(&self) -> (text: String)
        ensures
            text@ == self.words(),
    {
        match *self {
            Error::NonceBaseLength => "nonce base must be 12 bytes".to_owned(),
            Error::KeyDerivation => "HKDF expand failed".to_owned(),
            Error::KeyLength => "invalid key length".to_owned(),
            Error::MetadataTooShort => "encrypted metadata too short".to_owned(),
            Error::MetadataEncryption => "encryption failed".to_owned(),
            Error::MetadataDecryption => "decryption failed".to_owned(),
            Error::RecordEncryption => "failed to encrypt record".to_owned(),
            Error::RecordDecryption => "failed to decrypt record".to_owned(),
            Error::AlreadyFinalized => "StreamEncryptor already finalized".to_owned(),
            Error::StreamTooLong => "stream too long".to_owned(),
            Error::HeaderTooShort => "header must be at least 21 bytes".to_owned(),
            Error::KeyIdentifier => "implementation does not support non-zero idlen".to_owned(),
            Error::FinalDelimiter(got) => {
                let mut text: String = "delimiter of final record is not 2, got ".to_owned();
                push_decimal(&mut text, got as u64);
                text
            },
            Error::RecordDelimiter(got) => {
                let mut text: String = "delimiter of non-final record is not 1, got ".to_owned();
                push_decimal(&mut text, got as u64);
                text
            },
            Error::NoDelimiter => "no delimiter found".to_owned(),
            Error::TrailingData => "data after the final record".to_owned(),
            Error::MissingFinalRecord => "stream ends before its final record".to_owned(),
            Error::TooMuchData => "received more data than expected for all files".to_owned(),
            Error::MissingFragment => "URL must contain # with encryption key".to_owned(),
            Error::Base64Url => "failed to decode base64url".to_owned(),
            Error::Base64 => "base64 decode failed".to_owned(),
            Error::TorrentSyntax => "failed to parse bencode torrent file".to_owned(),
            Error::TorrentContent => "torrent has neither 'length' nor 'files' field".to_owned(),
            Error::TorrentLength => "files are too long together".to_owned(),
            Error::TorrentTooLong => "torrent information too long".to_owned(),
            Error::Clock => "system time is before the Unix epoch".to_owned(),
            Error::IncompleteFile => "file is incomplete".to_owned(),
        }
    }
}

/// The errors about a delimiter tell which one was found.
pub proof fn delimiter_errors_tell_the_delimiter(got: u8)
    ensures
        ({
            let words = Error::FinalDelimiter(got).words();
            &&& words.len() > 40
            &&& words.take(40) == "delimiter of final record is not 2, got "@
            &&& tells_number(words.skip(40), got as int)
        }),
        ({
            let words = Error::RecordDelimiter(got).words();
            &&& words.len() > 44
            &&& words.take(44) == "delimiter of non-final record is not 1, got "@
            &&& tells_number(words.skip(44), got as int)
        }),
{
    reveal_strlit("delimiter of final record is not 2, got ");
    reveal_strlit("delimiter of non-final record is not 1, got ");
    decimal_text_tells_the_number(got as nat);
    let last = Error::FinalDelimiter(got).words();
    assert(last.take(40) =~= "delimiter of final record is not 2, got "@);
    assert(last.skip(40) =~= decimal_text(got as nat));
    let other = Error::RecordDelimiter(got).words();
    assert(other.take(44) =~= "delimiter of non-final record is not 1, got "@);
    assert(other.skip(44) =~= decimal_text(got as nat));
}

/// A result that holds bytes, with the bytes taken as a sequence.
pub open spec fn seq_of(r: Result<Vec<u8>, Error>) -> Result<Seq<u8>, Error> {
    match r {
        Ok(bytes) => Ok(bytes@),
        Err(e) => Err(e),
    }
}

} // verus!
