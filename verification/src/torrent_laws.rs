//! What holds of making and reading torrent files together: reading gives back what was written.

use vstd::prelude::*;
use vstd::utf8::encode_utf8;

use crate::bencode::{
    byte_strings, byte_strings_of, field, file_entries_of, file_entry_of, info_of, number_of,
    parsed_torrent, path_of, placed_files, torrent_fields, total_of, FileEntry, FileFields,
    InfoFields, TorrentFields, PIECE_HASH_LENGTH, TORRENT_DEPTH,
};
use crate::bencoding::{
    bencode, bytes_less, canonical, canonical_entries, canonical_items, depth, depth_entries,
    depth_items, keys_ascend, lemma_bencode_unique, lemma_bytes_less_total,
    lemma_bytes_less_transitive, Node,
};
use crate::chunks::concat;
use crate::decoding::{begins_with, decoded, decoding_inverts_encoding, lemma_decoded};
use crate::error::Error;
use crate::hex::{hex, hex_tells_the_bytes, tell_byte};
use crate::pieces::{sha1, SHA1_INPUT_MAX};
use crate::text::{
    is_number, lemma_join_inverts_split, lemma_signed_value, lemma_text_of_utf8, signed_decimal,
    signed_value, split, text_of,
};
use crate::torrent::{
    entry, file_node, files_node, info_node, int_node, lemma_info_keys, lemma_torrent_keys,
    made_torrent, multi_info, single_info, text_node, torrent_node, FileMetadata,
};
use crate::upload::HashedUpload;
use crate::upload_plan::upload_info;

verus! {

/// Values that hold different numbers are different.
pub proof fn numbers_are_told_apart(a: i64, b: i64)
    ensures
        int_node(a) == int_node(b) <==> a == b,
{
    lemma_signed_value(a as int);
    lemma_signed_value(b as int);
}

/// Keys that stand further apart are in order too.
pub proof fn lemma_keys_less(entries: Seq<(Seq<u8>, Node)>, i: int, j: int)
    requires
        keys_ascend(entries),
        0 <= i < j < entries.len(),
    ensures
        bytes_less(entries[i].0, entries[j].0),
    decreases j - i,
{
    assert(bytes_less(entries[j - 1].0, entries[(j - 1) + 1].0));
    if i < j - 1 {
        lemma_keys_less(entries, i, j - 1);
        lemma_bytes_less_transitive(entries[i].0, entries[j - 1].0, entries[j].0);
    }
}

/// In a dictionary, the value under a key is the one that stands with it.
proof fn lemma_field_at(entries: Seq<(Seq<u8>, Node)>, key: Seq<char>, i: int)
    requires
        keys_ascend(entries),
        0 <= i < entries.len(),
        entries[i].0 == encode_utf8(key),
    ensures
        field(entries, key) == Some(entries[i].1),
    decreases entries.len(),
{
    let last = entries.len() - 1;
    if i < last {
        lemma_keys_less(entries, i, last);
        lemma_bytes_less_total(entries[i].0, entries[last].0);
        let start = entries.drop_last();
        assert forall|k: int| 0 <= k < start.len() - 1 implies bytes_less(
            #[trigger] start[k].0,
            start[k + 1].0,
        ) by {
            assert(start[k] == entries[k]);
            assert(start[k + 1] == entries[k + 1]);
        }
        lemma_field_at(start, key, i);
    }
}

/// In a dictionary, nothing stands under a key whose place is empty.
proof fn lemma_field_absent(entries: Seq<(Seq<u8>, Node)>, key: Seq<char>, k: int)
    requires
        keys_ascend(entries),
        0 <= k <= entries.len(),
        k > 0 ==> bytes_less(entries[k - 1].0, encode_utf8(key)),
        k < entries.len() ==> bytes_less(encode_utf8(key), entries[k].0),
    ensures
        field(entries, key) is None,
{
    assert forall|i: int| 0 <= i < entries.len() implies (#[trigger] entries[i]).0 != encode_utf8(
        key,
    ) by {
        if i < k {
            if i < k - 1 {
                lemma_keys_less(entries, i, k - 1);
                lemma_bytes_less_transitive(entries[i].0, entries[k - 1].0, encode_utf8(key));
            }
            lemma_bytes_less_total(entries[i].0, encode_utf8(key));
        } else {
            if i > k {
                lemma_keys_less(entries, k, i);
                lemma_bytes_less_transitive(encode_utf8(key), entries[k].0, entries[i].0);
            }
            lemma_bytes_less_total(encode_utf8(key), entries[i].0);
        }
    }
    lemma_field_none(entries, key);
}

/// Nothing stands under a key that no entry has.
proof fn lemma_field_none(entries: Seq<(Seq<u8>, Node)>, key: Seq<char>)
    requires
        forall|i: int| 0 <= i < entries.len() ==> (#[trigger] entries[i]).0 != encode_utf8(key),
    ensures
        field(entries, key) is None,
    decreases entries.len(),
{
    if entries.len() > 0 {
        let start = entries.drop_last();
        assert forall|i: int| 0 <= i < start.len() implies (#[trigger] start[i]).0 != encode_utf8(
            key,
        ) by {
            assert(start[i] == entries[i]);
        }
        lemma_field_none(start, key);
    }
}

/// A number may be encoded, and is read as it was written.
proof fn lemma_int_node(n: i64)
    ensures
        canonical(int_node(n)),
        depth(int_node(n)) == 0,
        number_of(int_node(n)) == Some(n),
{
    assert(signed_decimal(n as int) == signed_decimal(n as int));
    assert(is_number(signed_decimal(n as int)));
    lemma_signed_value(n as int);
}

/// Lists may be encoded if their values may, and are one level deeper.
proof fn lemma_list(items: Seq<Node>, d: nat)
    requires
        forall|i: int|
            0 <= i < items.len() ==> canonical(#[trigger] items[i]) && depth(items[i]) <= d,
    ensures
        canonical(Node::List(items)),
        depth(Node::List(items)) <= d + 1,
    decreases items.len(),
{
    if items.len() > 0 {
        let rest = items.drop_first();
        assert forall|i: int| 0 <= i < rest.len() implies canonical(#[trigger] rest[i]) && depth(
            rest[i],
        ) <= d by {
            assert(rest[i] == items[i + 1]);
        }
        lemma_list(rest, d);
        assert(canonical(items[0]));
        assert(canonical(Node::List(rest)) == canonical_items(rest));
        assert(depth(Node::List(rest)) == 1 + depth_items(rest));
    }
}

/// Dictionaries may be encoded if their values may and their keys are in order, and are one level
/// deeper.
proof fn lemma_dict(entries: Seq<(Seq<u8>, Node)>, d: nat)
    requires
        forall|i: int|
            0 <= i < entries.len() ==> canonical((#[trigger] entries[i]).1) && depth(entries[i].1)
                <= d,
    ensures
        keys_ascend(entries) ==> canonical(Node::Dict(entries)),
        canonical_entries(entries),
        depth(Node::Dict(entries)) <= d + 1,
        depth_entries(entries) <= d,
    decreases entries.len(),
{
    if entries.len() > 0 {
        let rest = entries.drop_first();
        assert forall|i: int| 0 <= i < rest.len() implies canonical((#[trigger] rest[i]).1)
            && depth(rest[i].1) <= d by {
            assert(rest[i] == entries[i + 1]);
        }
        lemma_dict(rest, d);
        assert(canonical(entries[0].1));
    }
}

/// The `info` dictionary may be encoded, and has its fields.
proof fn lemma_info(
    content_key: Seq<char>,
    content: Node,
    d: nat,
    name: Seq<char>,
    nonce: Seq<u8>,
    piece_length: usize,
    hashes: Seq<Seq<u8>>,
)
    requires
        bytes_less(encode_utf8(content_key), encode_utf8("name"@)),
        canonical(content),
        depth(content) <= d,
    ensures
        ({
            let info = info_node(
                entry(content_key, content),
                name,
                nonce,
                piece_length,
                hashes,
            );
            let entries = info->Dict_0;
            &&& canonical(info)
            &&& depth(info) <= d + 1
            &&& keys_ascend(entries)
            &&& field(entries, content_key) == Some(content)
            &&& field(entries, "name"@) == Some(text_node(name))
            &&& field(entries, "piece length"@) == Some(int_node(piece_length as i64))
            &&& field(entries, "pieces"@) == Some(Node::Str(concat(hashes)))
        }),
{
    lemma_info_keys();
    let info = info_node(entry(content_key, content), name, nonce, piece_length, hashes);
    let entries = info->Dict_0;
    lemma_int_node(piece_length as i64);
    lemma_int_node(1);
    assert forall|i: int| 0 <= i < entries.len() implies canonical((#[trigger] entries[i]).1)
        && depth(entries[i].1) <= d by {}
    assert forall|i: int| 0 <= i < entries.len() - 1 implies bytes_less(
        #[trigger] entries[i].0,
        entries[i + 1].0,
    ) by {}
    lemma_dict(entries, d);
    lemma_field_at(entries, content_key, 0);
    lemma_field_at(entries, "name"@, 1);
    lemma_field_at(entries, "piece length"@, 3);
    lemma_field_at(entries, "pieces"@, 4);
}

/// Reading a torrent finds its `info` dictionary.
proof fn lemma_torrent_found(info: Node, created: i64)
    requires
        canonical(info),
        depth(info) + 1 <= TORRENT_DEPTH,
    ensures
        parsed_torrent(bencode(torrent_node(info, created))) == match info_of(info) {
            None => Err(Error::TorrentSyntax),
            Some(fields) => torrent_fields(fields),
        },
{
    lemma_torrent_keys();
    let torrent = torrent_node(info, created);
    let entries = torrent->Dict_0;
    let announce = text_node("wss://wormhole.app/websocket"@);
    lemma_int_node(created);
    lemma_int_node(1);
    lemma_list(seq![announce], 0);
    lemma_list(seq![Node::List(seq![announce])], 1);
    lemma_list(Seq::empty(), 0);
    assert forall|i: int| 0 <= i < entries.len() implies canonical((#[trigger] entries[i]).1)
        && depth(entries[i].1) <= TORRENT_DEPTH - 1 by {}
    assert forall|i: int| 0 <= i < entries.len() - 1 implies bytes_less(
        #[trigger] entries[i].0,
        entries[i + 1].0,
    ) by {}
    lemma_dict(entries, (TORRENT_DEPTH - 1) as nat);
    lemma_field_at(entries, "info"@, 4);
    let data = bencode(torrent);
    assert(bencode(torrent).is_prefix_of(data));
    assert(begins_with(data, torrent, TORRENT_DEPTH as nat));
    lemma_decoded(data, torrent, TORRENT_DEPTH as nat);
}

/// The hashes of the pieces have this length together.
proof fn lemma_hashes_length(hashes: Seq<Seq<u8>>)
    requires
        forall|i: int| 0 <= i < hashes.len() ==> (#[trigger] hashes[i]).len() == PIECE_HASH_LENGTH,
    ensures
        concat(hashes).len() == PIECE_HASH_LENGTH * hashes.len(),
    decreases hashes.len(),
{
    if hashes.len() > 0 {
        let rest = hashes.drop_first();
        assert forall|i: int| 0 <= i < rest.len() implies (#[trigger] rest[i]).len()
            == PIECE_HASH_LENGTH by {
            assert(rest[i] == hashes[i + 1]);
        }
        lemma_hashes_length(rest);
        assert(hashes[0].len() == PIECE_HASH_LENGTH);
    }
}

/// Reading the torrent file of a single file gives back its name, its length, the length of its
/// pieces and their number.
pub proof fn single_file_torrent_reads_back(
    name: Seq<char>,
    encrypted_length: usize,
    piece_length: usize,
    hashes: Seq<Seq<u8>>,
    nonce: Seq<u8>,
    created: i64,
)
    requires
        forall|i: int| 0 <= i < hashes.len() ==> (#[trigger] hashes[i]).len() == PIECE_HASH_LENGTH,
    ensures
        parsed_torrent(
            bencode(
                torrent_node(
                    single_info(name, encrypted_length, piece_length, hashes, nonce),
                    created,
                ),
            ),
        ) == Ok::<TorrentFields, Error>(
            TorrentFields {
                name,
                piece_length,
                num_pieces: hashes.len(),
                total_length: encrypted_length as nat,
                multi_file: false,
                files: seq![
                    FileFields {
                        path: name,
                        encrypted_length,
                        offset: 0,
                        decrypted_length: None,
                    },
                ],
            },
        ),
{
    let info = single_info(name, encrypted_length, piece_length, hashes, nonce);
    let entries = info->Dict_0;
    let content = int_node(encrypted_length as i64);
    lemma_info_keys();
    lemma_int_node(encrypted_length as i64);
    lemma_int_node(piece_length as i64);
    lemma_info("length"@, content, 0, name, nonce, piece_length, hashes);
    lemma_field_absent(entries, "files"@, 0);
    lemma_torrent_found(info, created);
    lemma_text_of_utf8(name);
    lemma_hashes_length(hashes);
    assert((encrypted_length as i64) as usize == encrypted_length) by (bit_vector);
    assert((piece_length as i64) as usize == piece_length) by (bit_vector);
}

// ---- several files ----

/// The length of all files together.
pub open spec fn metadata_total(files: Seq<FileMetadata>) -> nat
    decreases files.len(),
{
    if files.len() == 0 {
        0
    } else {
        metadata_total(files.drop_last()) + files.last().encrypted_length as nat
    }
}

/// The files, each where the one before it ends.
pub open spec fn metadata_placed(files: Seq<FileMetadata>) -> Seq<FileFields>
    decreases files.len(),
{
    if files.len() == 0 {
        Seq::empty()
    } else {
        metadata_placed(files.drop_last()).push(
            FileFields {
                path: files.last().path@,
                encrypted_length: files.last().encrypted_length,
                offset: metadata_total(files.drop_last()),
                decrypted_length: None,
            },
        )
    }
}

/// A file as it is listed.
spec fn listed_file(file: FileMetadata) -> FileEntry {
    let parts = split(file.path@, '/');
    FileEntry {
        length: file.encrypted_length as i64,
        path: Seq::new(parts.len(), |i: int| encode_utf8(parts[i])),
    }
}

/// The byte strings of a list of texts are the texts in UTF-8.
proof fn lemma_byte_strings(parts: Seq<Seq<char>>)
    ensures
        byte_strings_of(Seq::new(parts.len(), |i: int| text_node(parts[i]))) == Some(
            Seq::new(parts.len(), |i: int| encode_utf8(parts[i])),
        ),
    decreases parts.len(),
{
    let items = Seq::new(parts.len(), |i: int| text_node(parts[i]));
    let strings = Seq::new(parts.len(), |i: int| encode_utf8(parts[i]));
    if parts.len() == 0 {
        assert(strings =~= Seq::<Seq<u8>>::empty());
    } else {
        let start = parts.drop_last();
        lemma_byte_strings(start);
        assert(items.drop_last() =~= Seq::new(start.len(), |i: int| text_node(start[i])));
        assert(strings =~= Seq::new(start.len(), |i: int| encode_utf8(start[i])).push(
            encode_utf8(parts.last()),
        ));
    }
}

/// A file in the list of files may be encoded, and is read as it was written.
proof fn lemma_file_node(file: FileMetadata)
    ensures
        canonical(file_node(file.path@, file.encrypted_length)),
        depth(file_node(file.path@, file.encrypted_length)) <= 2,
        file_entry_of(file_node(file.path@, file.encrypted_length)) == Some(listed_file(file)),
        path_of(listed_file(file).path) == file.path@,
        listed_file(file).length as usize == file.encrypted_length,
{
    let length = file.encrypted_length;
    let node = file_node(file.path@, length);
    let entries = node->Dict_0;
    let parts = split(file.path@, '/');
    let items = Seq::new(parts.len(), |i: int| text_node(parts[i]));
    lemma_info_keys();
    lemma_int_node(length as i64);
    lemma_list(items, 0);
    assert forall|i: int| 0 <= i < entries.len() implies canonical((#[trigger] entries[i]).1)
        && depth(entries[i].1) <= 1 by {}
    assert forall|i: int| 0 <= i < entries.len() - 1 implies bytes_less(
        #[trigger] entries[i].0,
        entries[i + 1].0,
    ) by {}
    lemma_dict(entries, 1);
    lemma_field_at(entries, "length"@, 0);
    lemma_field_at(entries, "path"@, 1);
    lemma_byte_strings(parts);
    assert((length as i64) as usize == length) by (bit_vector);
    let path = listed_file(file).path;
    let read = Seq::new(path.len(), |i: int| text_of(path[i]));
    assert forall|i: int| 0 <= i < parts.len() implies read[i] == parts[i] by {
        lemma_text_of_utf8(parts[i]);
    }
    assert(read =~= parts);
    lemma_join_inverts_split(file.path@, '/');
}

/// The files are read as they were listed.
proof fn lemma_listed_files(files: Seq<FileMetadata>)
    ensures
        ({
            let listed = Seq::new(files.len(), |i: int| listed_file(files[i]));
            &&& file_entries_of(files_node(files)->List_0) == Some(listed)
            &&& total_of(listed) == metadata_total(files)
            &&& placed_files(listed) == metadata_placed(files)
        }),
    decreases files.len(),
{
    let listed = Seq::new(files.len(), |i: int| listed_file(files[i]));
    let items = files_node(files)->List_0;
    if files.len() == 0 {
        assert(listed =~= Seq::<FileEntry>::empty());
    } else {
        let start = files.drop_last();
        lemma_listed_files(start);
        lemma_file_node(files.last());
        let before = Seq::new(start.len(), |i: int| listed_file(start[i]));
        assert(items.drop_last() =~= files_node(start)->List_0);
        assert(listed.drop_last() =~= before);
        assert(listed =~= before.push(listed_file(files.last())));
    }
}

/// The `info` dictionary of several files is read as it was written.
proof fn lemma_multi_info(
    name: Seq<char>,
    files: Seq<FileMetadata>,
    piece_length: usize,
    hashes: Seq<Seq<u8>>,
    nonce: Seq<u8>,
)
    ensures
        ({
            let info = multi_info(name, files, piece_length, hashes, nonce);
            &&& canonical(info)
            &&& depth(info) <= 4
            &&& info_of(info) == Some(
                InfoFields {
                    name,
                    piece_length: piece_length as i64,
                    pieces: concat(hashes),
                    length: None,
                    files: Some(Seq::new(files.len(), |i: int| listed_file(files[i]))),
                },
            )
        }),
{
    let info = multi_info(name, files, piece_length, hashes, nonce);
    let entries = info->Dict_0;
    let content = files_node(files);
    let items = content->List_0;
    lemma_info_keys();
    lemma_int_node(piece_length as i64);
    assert forall|i: int| 0 <= i < items.len() implies canonical(#[trigger] items[i]) && depth(
        items[i],
    ) <= 2 by {
        lemma_file_node(files[i]);
    }
    lemma_list(items, 2);
    lemma_info("files"@, content, 3, name, nonce, piece_length, hashes);
    lemma_field_absent(entries, "length"@, 1);
    lemma_listed_files(files);
    lemma_text_of_utf8(name);
}

/// Reading the torrent file of several files gives back the name, every file with its path, its
/// length and its place, the length of the pieces and their number.
pub proof fn multi_file_torrent_reads_back(
    name: Seq<char>,
    files: Seq<FileMetadata>,
    piece_length: usize,
    hashes: Seq<Seq<u8>>,
    nonce: Seq<u8>,
    created: i64,
)
    requires
        forall|i: int| 0 <= i < hashes.len() ==> (#[trigger] hashes[i]).len() == PIECE_HASH_LENGTH,
        metadata_total(files) <= usize::MAX,
    ensures
        parsed_torrent(
            bencode(
                torrent_node(multi_info(name, files, piece_length, hashes, nonce), created),
            ),
        ) == Ok::<TorrentFields, Error>(
            TorrentFields {
                name,
                piece_length,
                num_pieces: hashes.len(),
                total_length: metadata_total(files),
                multi_file: true,
                files: metadata_placed(files),
            },
        ),
{
    let info = multi_info(name, files, piece_length, hashes, nonce);
    lemma_multi_info(name, files, piece_length, hashes, nonce);
    lemma_torrent_found(info, created);
    lemma_listed_files(files);
    lemma_hashes_length(hashes);
    assert((piece_length as i64) as usize == piece_length) by (bit_vector);
}

// ---- any torrent file ----

/// Data that begins with the encoding of a value, nested at most ten deep, is read as the torrent
/// that the value tells, whatever follows it: the `info` dictionary stands under its key, wherever
/// that stands. A value that is nested deeper is not read.
pub proof fn torrent_is_read(
    entries: Seq<(Seq<u8>, Node)>,
    rest: Seq<u8>,
    i: int,
    info: Node,
)
    requires
        canonical(Node::Dict(entries)),
        0 <= i < entries.len(),
        entries[i] == (encode_utf8("info"@), info),
    ensures
        depth(Node::Dict(entries)) <= 10 ==> parsed_torrent(bencode(Node::Dict(entries)) + rest)
            == match info_of(info) {
            None => Err::<TorrentFields, Error>(Error::TorrentSyntax),
            Some(fields) => torrent_fields(fields),
        },
        depth(Node::Dict(entries)) > 10 ==> parsed_torrent(bencode(Node::Dict(entries)) + rest)
            == Err::<TorrentFields, Error>(Error::TorrentSyntax),
{
    let v = Node::Dict(entries);
    let data = bencode(v) + rest;
    lemma_field_at(entries, "info"@, i);
    assert(bencode(v) =~= data.take(bencode(v).len() as int));
    if depth(v) <= 10 {
        decoding_inverts_encoding(v, rest, TORRENT_DEPTH as nat);
    } else if exists|w: Node| begins_with(data, w, TORRENT_DEPTH as nat) {
        let w = choose|w: Node| begins_with(data, w, TORRENT_DEPTH as nat);
        let y = data.skip(bencode(w).len() as int);
        assert(data =~= bencode(w) + y);
        lemma_bencode_unique(v, w, rest, y);
    }
}

// ---- what a torrent file tells ----

/// Whether a value is this number.
pub open spec fn is_number_node(v: Option<Node>, n: int) -> bool {
    v matches Some(Node::Num(text)) && signed_value(text) == n
}

/// Whether a torrent file tells where its peers are found, when it was made, that it is private, and
/// its `info` dictionary.
pub open spec fn tells_torrent(entries: Seq<(Seq<u8>, Node)>, info: Node, created: i64) -> bool {
    &&& field(entries, "announce"@) == Some(Node::Str(encode_utf8("wss://wormhole.app/websocket"@)))
    &&& is_number_node(field(entries, "creation date"@), created as int)
    &&& field(entries, "info"@) == Some(info)
    &&& is_number_node(field(entries, "private"@), 1)
}

/// Whether a text tells bytes in hexadecimal.
pub open spec fn tells_bytes(text: Seq<char>, bytes: Seq<u8>) -> bool {
    &&& text.len() == 2 * bytes.len()
    &&& forall|i: int|
        0 <= i < bytes.len() ==> tell_byte(text[2 * i], text[2 * i + 1], #[trigger] bytes[i])
}

/// Reading a torrent file that was made gives back its date and its `info` dictionary, whose hash
/// is the info hash. No file is made if and only if that dictionary is too long to hash.
pub proof fn torrent_file_tells_its_info(info: Node, created: i64)
    requires
        canonical(info),
        depth(info) + 1 <= TORRENT_DEPTH,
    ensures
        match made_torrent(info, created) {
            Ok((torrent, info_hash)) => {
                &&& decoded(torrent, TORRENT_DEPTH as nat) matches Some(Node::Dict(entries))
                &&& tells_torrent(entries, info, created)
                &&& tells_bytes(info_hash, sha1(bencode(info)))
            },
            Err(e) => e == Error::TorrentTooLong && bencode(info).len() > SHA1_INPUT_MAX,
        },
{
    lemma_torrent_keys();
    let torrent = torrent_node(info, created);
    let entries = torrent->Dict_0;
    let announce = text_node("wss://wormhole.app/websocket"@);
    lemma_int_node(created);
    lemma_int_node(1);
    lemma_signed_value(created as int);
    lemma_signed_value(1);
    lemma_list(seq![announce], 0);
    lemma_list(seq![Node::List(seq![announce])], 1);
    lemma_list(Seq::empty(), 0);
    assert forall|i: int| 0 <= i < entries.len() implies canonical((#[trigger] entries[i]).1)
        && depth(entries[i].1) <= TORRENT_DEPTH - 1 by {}
    assert forall|i: int| 0 <= i < entries.len() - 1 implies bytes_less(
        #[trigger] entries[i].0,
        entries[i + 1].0,
    ) by {}
    lemma_dict(entries, (TORRENT_DEPTH - 1) as nat);
    lemma_field_at(entries, "announce"@, 0);
    lemma_field_at(entries, "creation date"@, 3);
    lemma_field_at(entries, "info"@, 4);
    lemma_field_at(entries, "private"@, 5);
    let data = bencode(torrent);
    assert(begins_with(data, torrent, TORRENT_DEPTH as nat));
    lemma_decoded(data, torrent, TORRENT_DEPTH as nat);
    hex_tells_the_bytes(sha1(bencode(info)));
}

/// Whether an `info` dictionary tells the name, the nonce in hexadecimal, the length of the pieces,
/// their hashes one behind the other, and that the torrent is private.
pub open spec fn tells_info(
    entries: Seq<(Seq<u8>, Node)>,
    name: Seq<char>,
    nonce: Seq<u8>,
    piece_length: usize,
    hashes: Seq<Seq<u8>>,
) -> bool {
    &&& field(entries, "name"@) == Some(Node::Str(encode_utf8(name)))
    &&& exists|text: Seq<char>| #[trigger]
        tells_bytes(text, nonce) && field(entries, "nonce"@) == Some(Node::Str(encode_utf8(text)))
    &&& piece_length <= i64::MAX ==> is_number_node(
        field(entries, "piece length"@),
        piece_length as int,
    )
    &&& field(entries, "pieces"@) matches Some(Node::Str(pieces))
    &&& pieces.len() == 20 * hashes.len()
    &&& forall|i: int|
        0 <= i < hashes.len() ==> pieces.subrange(20 * i, 20 * i + 20) == #[trigger] hashes[i]
    &&& is_number_node(field(entries, "private"@), 1)
}

/// The hashes of the pieces are found in their places.
proof fn lemma_hash_at(hashes: Seq<Seq<u8>>, i: int)
    requires
        forall|k: int| 0 <= k < hashes.len() ==> (#[trigger] hashes[k]).len() == PIECE_HASH_LENGTH,
        0 <= i < hashes.len(),
    ensures
        concat(hashes).len() == 20 * hashes.len(),
        concat(hashes).subrange(20 * i, 20 * i + 20) == hashes[i],
    decreases hashes.len(),
{
    let rest = hashes.drop_first();
    lemma_hashes_length(hashes);
    assert(hashes[0].len() == 20);
    if i == 0 {
        assert(concat(hashes).subrange(0, 20) =~= hashes[0]);
    } else {
        assert forall|k: int| 0 <= k < rest.len() implies (#[trigger] rest[k]).len()
            == PIECE_HASH_LENGTH by {
            assert(rest[k] == hashes[k + 1]);
        }
        lemma_hash_at(rest, i - 1);
        assert(rest[i - 1] == hashes[i]);
        assert(concat(hashes).subrange(20 * i, 20 * i + 20) =~= concat(rest).subrange(
            20 * (i - 1),
            20 * (i - 1) + 20,
        ));
    }
}

/// The `info` dictionary of an upload tells what the upload is made of.
proof fn lemma_info_tells(
    content_key: Seq<char>,
    content: Node,
    d: nat,
    name: Seq<char>,
    nonce: Seq<u8>,
    piece_length: usize,
    hashes: Seq<Seq<u8>>,
)
    requires
        bytes_less(encode_utf8(content_key), encode_utf8("name"@)),
        canonical(content),
        depth(content) <= d,
        forall|k: int| 0 <= k < hashes.len() ==> (#[trigger] hashes[k]).len() == PIECE_HASH_LENGTH,
    ensures
        ({
            let info = info_node(
                entry(content_key, content),
                name,
                nonce,
                piece_length,
                hashes,
            );
            canonical(info) && depth(info) <= d + 1 && tells_info(
                info->Dict_0,
                name,
                nonce,
                piece_length,
                hashes,
            )
        }),
{
    let info = info_node(entry(content_key, content), name, nonce, piece_length, hashes);
    let entries = info->Dict_0;
    lemma_info(content_key, content, d, name, nonce, piece_length, hashes);
    lemma_field_at(entries, "nonce"@, 2);
    lemma_field_at(entries, "private"@, 5);
    lemma_signed_value(piece_length as i64 as int);
    lemma_signed_value(1);
    hex_tells_the_bytes(nonce);
    assert(tells_bytes(hex(nonce), nonce));
    lemma_hashes_length(hashes);
    assert forall|i: int| 0 <= i < hashes.len() implies concat(hashes).subrange(
        20 * i,
        20 * i + 20,
    ) == #[trigger] hashes[i] by {
        lemma_hash_at(hashes, i);
    }
}

/// Where a file begins in the data: behind the lengths of those before it.
pub open spec fn place_of_file(files: Seq<FileMetadata>, i: int) -> nat
    decreases i,
{
    if i <= 0 {
        0
    } else {
        place_of_file(files, i - 1) + files[i - 1].encrypted_length as nat
    }
}

/// The place of a file depends on those before it alone.
proof fn lemma_place_of_file(files: Seq<FileMetadata>, i: int)
    requires
        files.len() > 0,
        i < files.len(),
    ensures
        place_of_file(files, i) == place_of_file(files.drop_last(), i),
    decreases i,
{
    if i > 0 {
        lemma_place_of_file(files, i - 1);
        assert(files.drop_last()[i - 1] == files[i - 1]);
    }
}

/// The files are placed one behind the other.
proof fn lemma_metadata_placed(files: Seq<FileMetadata>)
    ensures
        metadata_placed(files).len() == files.len(),
        metadata_total(files) == place_of_file(files, files.len() as int),
        forall|i: int|
            0 <= i < files.len() ==> {
                let file = #[trigger] metadata_placed(files)[i];
                &&& file.path == files[i].path@
                &&& file.encrypted_length == files[i].encrypted_length
                &&& file.offset == place_of_file(files, i)
            },
    decreases files.len(),
{
    if files.len() > 0 {
        let start = files.drop_last();
        lemma_metadata_placed(start);
        lemma_place_of_file(files, files.len() - 1);
        assert forall|i: int| 0 <= i < files.len() implies {
            let file = #[trigger] metadata_placed(files)[i];
            &&& file.path == files[i].path@
            &&& file.encrypted_length == files[i].encrypted_length
            &&& file.offset == place_of_file(files, i)
        } by {
            if i < start.len() {
                lemma_place_of_file(files, i);
                assert(metadata_placed(files)[i] == metadata_placed(start)[i]);
            }
        }
    }
}

/// Whether what was read from a torrent is what an upload consists of: its name, the length and the
/// number of its pieces, and its files, each behind the one before it; or the one file that bears
/// the name.
pub open spec fn is_upload(
    torrent: TorrentFields,
    name: Seq<char>,
    multi_file: bool,
    piece_length: usize,
    hashed: HashedUpload,
) -> bool {
    &&& torrent.name == name
    &&& torrent.piece_length == piece_length
    &&& torrent.num_pieces == hashed.piece_hashes@.len()
    &&& torrent.multi_file == multi_file
    &&& multi_file ==> {
        &&& torrent.files.len() == hashed.files@.len()
        &&& torrent.total_length == place_of_file(hashed.files@, hashed.files@.len() as int)
        &&& forall|i: int|
            0 <= i < torrent.files.len() ==> {
                let file = #[trigger] torrent.files[i];
                &&& file.path == hashed.files@[i].path@
                &&& file.encrypted_length == hashed.files@[i].encrypted_length
                &&& file.offset == place_of_file(hashed.files@, i)
            }
    }
    &&& !multi_file ==> {
        &&& torrent.files.len() == 1
        &&& torrent.total_length == hashed.total_size
        &&& torrent.files[0].path == name
        &&& torrent.files[0].encrypted_length == hashed.total_size
        &&& torrent.files[0].offset == 0
    }
}

/// The torrent file of an upload tells the upload: reading it gives the name, the files and the
/// pieces back; it holds the date, the nonce and the hashes; and the info hash is that of its
/// `info` dictionary.
pub proof fn torrent_of_an_upload_tells_it(
    name: Seq<char>,
    multi_file: bool,
    piece_length: usize,
    hashed: HashedUpload,
    nonce: Seq<u8>,
    created: i64,
)
    requires
        forall|i: int|
            0 <= i < hashed.piece_hashes@.len() ==> (#[trigger] hashed.piece_hashes@[i])@.len()
                == PIECE_HASH_LENGTH,
        multi_file ==> place_of_file(hashed.files@, hashed.files@.len() as int) <= usize::MAX,
    ensures
        match made_torrent(upload_info(name, multi_file, piece_length, hashed, nonce), created) {
            Ok((torrent, info_hash)) => {
                &&& parsed_torrent(torrent) matches Ok(fields)
                &&& is_upload(fields, name, multi_file, piece_length, hashed)
                &&& decoded(torrent, TORRENT_DEPTH as nat) matches Some(Node::Dict(entries))
                &&& field(entries, "info"@) matches Some(Node::Dict(info))
                &&& tells_torrent(entries, Node::Dict(info), created)
                &&& tells_info(
                    info,
                    name,
                    nonce,
                    piece_length,
                    byte_strings(hashed.piece_hashes@),
                )
                &&& tells_bytes(info_hash, sha1(bencode(Node::Dict(info))))
            },
            Err(e) => e == Error::TorrentTooLong,
        },
{
    let hashes = byte_strings(hashed.piece_hashes@);
    let info = upload_info(name, multi_file, piece_length, hashed, nonce);
    assert forall|i: int| 0 <= i < hashes.len() implies (#[trigger] hashes[i]).len()
        == PIECE_HASH_LENGTH by {
        assert(hashes[i] == hashed.piece_hashes@[i]@);
    }
    lemma_info_keys();
    lemma_metadata_placed(hashed.files@);
    if multi_file {
        lemma_multi_info(name, hashed.files@, piece_length, hashes, nonce);
        let content = files_node(hashed.files@);
        let items = content->List_0;
        assert forall|i: int| 0 <= i < items.len() implies canonical(#[trigger] items[i]) && depth(
            items[i],
        ) <= 2 by {
            lemma_file_node(hashed.files@[i]);
        }
        lemma_list(items, 2);
        lemma_info_tells("files"@, content, 3, name, nonce, piece_length, hashes);
        multi_file_torrent_reads_back(name, hashed.files@, piece_length, hashes, nonce, created);
    } else {
        let content = int_node(hashed.total_size as i64);
        lemma_int_node(hashed.total_size as i64);
        lemma_info_tells("length"@, content, 0, name, nonce, piece_length, hashes);
        single_file_torrent_reads_back(
            name,
            hashed.total_size,
            piece_length,
            hashes,
            nonce,
            created,
        );
    }
    torrent_file_tells_its_info(info, created);
}

} // verus!
