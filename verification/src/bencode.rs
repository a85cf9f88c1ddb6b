//! Torrent files: what they say, and reading it from their bencoding.

use vstd::prelude::*;
use vstd::string::*;
use vstd::utf8::encode_utf8;

use crate::bencoding::{
    bytes_less, canonical, canonical_entries, canonical_items, keys_ascend, lemma_bytes_less_total,
    Node,
};
use crate::torrent_laws::lemma_keys_less;
use crate::decoding::{
    copy_bytes, decode_value, decoded, entry_nodes, lemma_dict_node, lemma_list_node, nodes, Value,
};
use crate::error::Error;
use crate::text::{
    bytes_to_text, joined, lemma_split_append, lemma_split_whole, parse_number, signed_value, split,
    text_of,
};

verus! {

/// How deep the values of a torrent file may be nested.
pub const TORRENT_DEPTH: usize = 10;

/// Length of the hash of a piece.
pub const PIECE_HASH_LENGTH: usize = 20;

/// A file of a torrent.
#[derive(Debug, Clone)]
pub struct FileInfo {
    /// The path, with `/` between its parts.
    pub path: String,
    /// The length of the encrypted file.
    pub encrypted_length: usize,
    /// Where the encrypted file begins in the data of the torrent.
    pub offset: usize,
    /// The length of the decrypted file, once it is known.
    pub decrypted_length: Option<usize>,
}

/// What a torrent file says.
#[derive(Debug)]
pub struct TorrentInfo {
    pub name: String,
    pub piece_length: usize,
    pub num_pieces: usize,
    pub total_length: usize,
    pub multi_file: bool,
    pub files: Vec<FileInfo>,
}

/// The meaning of a [`FileInfo`].
#[verifier::ext_equal]
pub struct FileFields {
    pub path: Seq<char>,
    pub encrypted_length: usize,
    pub offset: nat,
    pub decrypted_length: Option<usize>,
}

/// The meaning of a [`TorrentInfo`].
#[verifier::ext_equal]
pub struct TorrentFields {
    pub name: Seq<char>,
    pub piece_length: usize,
    pub num_pieces: nat,
    pub total_length: nat,
    pub multi_file: bool,
    pub files: Seq<FileFields>,
}

impl View for FileInfo {
    type V = FileFields;

    open spec fn view(&self) -> FileFields {
        FileFields {
            path: self.path@,
            encrypted_length: self.encrypted_length,
            offset: self.offset as nat,
            decrypted_length: self.decrypted_length,
        }
    }
}

/// The meanings of files.
pub open spec fn file_fields(files: Seq<FileInfo>) -> Seq<FileFields> {
    Seq::new(files.len(), |i: int| files[i]@)
}

impl View for TorrentInfo {
    type V = TorrentFields;

    open spec fn view(&self) -> TorrentFields {
        TorrentFields {
            name: self.name@,
            piece_length: self.piece_length,
            num_pieces: self.num_pieces as nat,
            total_length: self.total_length as nat,
            multi_file: self.multi_file,
            files: file_fields(self.files@),
        }
    }
}

// ---- the fields of a torrent ----

/// A file as the torrent lists it.
struct TorrentFileInfo {
    length: i64,
    path: Vec<Vec<u8>>,
}

/// The `info` dictionary of a torrent.
struct Info {
    name: String,
    piece_length: i64,
    pieces: Vec<u8>,
    length: Option<i64>,
    files: Option<Vec<TorrentFileInfo>>,
}

/// A file as the torrent lists it.
#[verifier::ext_equal]
pub struct FileEntry {
    pub length: i64,
    pub path: Seq<Seq<u8>>,
}

/// The `info` dictionary of a torrent.
#[verifier::ext_equal]
pub struct InfoFields {
    pub name: Seq<char>,
    pub piece_length: i64,
    pub pieces: Seq<u8>,
    pub length: Option<i64>,
    pub files: Option<Seq<FileEntry>>,
}

/// The value under a key of a dictionary.
pub open spec fn field(entries: Seq<(Seq<u8>, Node)>, key: Seq<char>) -> Option<Node>
    decreases entries.len(),
{
    if entries.len() == 0 {
        None
    } else if entries.last().0 == encode_utf8(key) {
        Some(entries.last().1)
    } else {
        field(entries.drop_last(), key)
    }
}

/// The entries of a dictionary.
pub open spec fn dict_of(v: Node) -> Option<Seq<(Seq<u8>, Node)>> {
    match v {
        Node::Dict(entries) => Some(entries),
        _ => None,
    }
}

/// The values of a list.
pub open spec fn list_of(v: Node) -> Option<Seq<Node>> {
    match v {
        Node::List(items) => Some(items),
        _ => None,
    }
}

/// The bytes of a byte string.
pub open spec fn bytes_of(v: Node) -> Option<Seq<u8>> {
    match v {
        Node::Str(bytes) => Some(bytes),
        _ => None,
    }
}

/// The number, if the value is one within the range of `i64`.
pub open spec fn number_of(v: Node) -> Option<i64> {
    match v {
        Node::Num(text) => if i64::MIN <= signed_value(text) <= i64::MAX {
            Some(signed_value(text) as i64)
        } else {
            None
        },
        _ => None,
    }
}

/// The byte strings of a list, if it holds nothing else.
pub open spec fn byte_strings_of(items: Seq<Node>) -> Option<Seq<Seq<u8>>>
    decreases items.len(),
{
    if items.len() == 0 {
        Some(Seq::empty())
    } else {
        match (byte_strings_of(items.drop_last()), bytes_of(items.last())) {
            (Some(before), Some(last)) => Some(before.push(last)),
            _ => None,
        }
    }
}

/// A file of the list of files: a dictionary with a `length`, which is a number, and a `path`,
/// which is a list of byte strings.
pub open spec fn file_entry_of(v: Node) -> Option<FileEntry> {
    match dict_of(v) {
        None => None,
        Some(entries) => match (field(entries, "length"@), field(entries, "path"@)) {
            (Some(length), Some(path)) => match (number_of(length), list_of(path)) {
                (Some(length), Some(items)) => match byte_strings_of(items) {
                    Some(path) => Some(FileEntry { length, path }),
                    None => None,
                },
                _ => None,
            },
            _ => None,
        },
    }
}

/// The files of the list of files, if it holds nothing else.
pub open spec fn file_entries_of(items: Seq<Node>) -> Option<Seq<FileEntry>>
    decreases items.len(),
{
    if items.len() == 0 {
        Some(Seq::empty())
    } else {
        match (file_entries_of(items.drop_last()), file_entry_of(items.last())) {
            (Some(before), Some(last)) => Some(before.push(last)),
            _ => None,
        }
    }
}

/// The `info` dictionary: `name` and `pieces` are byte strings, `piece length` is a number;
/// `length`, which is a number, and `files`, which is a list of files, may be absent.
pub open spec fn info_of(v: Node) -> Option<InfoFields> {
    match dict_of(v) {
        None => None,
        Some(entries) => {
            let name = match field(entries, "name"@) {
                Some(name) => bytes_of(name),
                None => None,
            };
            let piece_length = match field(entries, "piece length"@) {
                Some(piece_length) => number_of(piece_length),
                None => None,
            };
            let pieces = match field(entries, "pieces"@) {
                Some(pieces) => bytes_of(pieces),
                None => None,
            };
            let length: Option<Option<i64>> = match field(entries, "length"@) {
                Some(length) => match number_of(length) {
                    Some(n) => Some(Some(n)),
                    None => None,
                },
                None => Some(None),
            };
            let files: Option<Option<Seq<FileEntry>>> = match field(entries, "files"@) {
                Some(files) => match list_of(files) {
                    Some(items) => match file_entries_of(items) {
                        Some(entries) => Some(Some(entries)),
                        None => None,
                    },
                    None => None,
                },
                None => Some(None),
            };
            match (name, piece_length, pieces, length, files) {
                (
                    Some(name),
                    Some(piece_length),
                    Some(pieces),
                    Some(length),
                    Some(files),
                ) => Some(
                    InfoFields { name: text_of(name), piece_length, pieces, length, files },
                ),
                _ => None,
            }
        },
    }
}

/// The `info` dictionary of a torrent.
pub open spec fn torrent_of(v: Node) -> Option<InfoFields> {
    match dict_of(v) {
        Some(entries) => match field(entries, "info"@) {
            Some(info) => info_of(info),
            None => None,
        },
        None => None,
    }
}

/// The path of a file: its parts as text, with `/` between them.
pub open spec fn path_of(parts: Seq<Seq<u8>>) -> Seq<char> {
    joined(Seq::new(parts.len(), |i: int| text_of(parts[i])), '/')
}

/// The length of all files together.
pub open spec fn total_of(files: Seq<FileEntry>) -> nat
    decreases files.len(),
{
    if files.len() == 0 {
        0
    } else {
        total_of(files.drop_last()) + (files.last().length as usize) as nat
    }
}

/// The files, each where the one before it ends.
pub open spec fn placed_files(files: Seq<FileEntry>) -> Seq<FileFields>
    decreases files.len(),
{
    if files.len() == 0 {
        Seq::empty()
    } else {
        placed_files(files.drop_last()).push(
            FileFields {
                path: path_of(files.last().path),
                encrypted_length: files.last().length as usize,
                offset: total_of(files.drop_last()),
                decrypted_length: None,
            },
        )
    }
}

/// What a torrent says. One with a list of files has several; one with only a length has a single
/// file, under the name of the torrent.
pub open spec fn torrent_fields(info: InfoFields) -> Result<TorrentFields, Error> {
    let num_pieces = info.pieces.len() / PIECE_HASH_LENGTH as nat;
    match (info.files, info.length) {
        (Some(files), _) => if total_of(files) > usize::MAX {
            Err(Error::TorrentLength)
        } else {
            Ok(
                TorrentFields {
                    name: info.name,
                    piece_length: info.piece_length as usize,
                    num_pieces,
                    total_length: total_of(files),
                    multi_file: true,
                    files: placed_files(files),
                },
            )
        },
        (None, Some(length)) => Ok(
            TorrentFields {
                name: info.name,
                piece_length: info.piece_length as usize,
                num_pieces,
                total_length: (length as usize) as nat,
                multi_file: false,
                files: seq![
                    FileFields {
                        path: info.name,
                        encrypted_length: length as usize,
                        offset: 0,
                        decrypted_length: None,
                    },
                ],
            },
        ),
        (None, None) => Err(Error::TorrentContent),
    }
}

/// What a torrent file says, read from its bytes.
pub open spec fn parsed_torrent(data: Seq<u8>) -> Result<TorrentFields, Error> {
    match decoded(data, TORRENT_DEPTH as nat) {
        None => Err(Error::TorrentSyntax),
        Some(v) => match torrent_of(v) {
            None => Err(Error::TorrentSyntax),
            Some(info) => torrent_fields(info),
        },
    }
}

// ---- what is read ----

/// In a dictionary with its keys in order, the value under a key is the one that stands with that
/// key, wherever it stands; there is none if and only if the key does not occur.
pub proof fn field_is_the_entry(entries: Seq<(Seq<u8>, Node)>, key: Seq<char>, i: int)
    requires
        keys_ascend(entries),
    ensures
        0 <= i < entries.len() && entries[i].0 == encode_utf8(key) ==> field(entries, key) == Some(
            entries[i].1,
        ),
        field(entries, key) is None <==> forall|j: int|
            0 <= j < entries.len() ==> (#[trigger] entries[j]).0 != encode_utf8(key),
    decreases entries.len(),
{
    if entries.len() > 0 {
        let start = entries.drop_last();
        assert forall|j: int| 0 <= j < start.len() - 1 implies bytes_less(
            (#[trigger] start[j]).0,
            start[j + 1].0,
        ) by {
            assert(start[j] == entries[j] && start[j + 1] == entries[j + 1]);
            assert(bytes_less(entries[j].0, entries[j + 1].0));
        }
        field_is_the_entry(start, key, i);
        if i < start.len() && 0 <= i && entries[i].0 == encode_utf8(key) {
            assert(start[i] == entries[i]);
            lemma_keys_less(entries, i, entries.len() - 1);
            lemma_bytes_less_total(entries[i].0, entries[i].0);
        }
        if entries.last().0 != encode_utf8(key) {
            if field(start, key) is None {
                assert forall|j: int| 0 <= j < entries.len() implies (#[trigger] entries[j]).0
                    != encode_utf8(key) by {
                    if j < start.len() {
                        assert(start[j].0 != encode_utf8(key));
                    }
                }
            } else {
                let j = choose|j: int|
                    0 <= j < start.len() && (#[trigger] start[j]).0 == encode_utf8(key);
                assert(entries[j].0 == encode_utf8(key));
            }
        } else {
            assert(entries[entries.len() - 1].0 == encode_utf8(key));
        }
    }
}

/// Byte strings are read from a list in their order; there are none if and only if the list holds
/// something else.
pub proof fn byte_strings_are_read(items: Seq<Node>)
    ensures
        match byte_strings_of(items) {
            Some(strings) => strings.len() == items.len() && forall|i: int|
                0 <= i < items.len() ==> #[trigger] items[i] == Node::Str(strings[i]),
            None => exists|i: int| 0 <= i < items.len() && !((#[trigger] items[i]) is Str),
        },
    decreases items.len(),
{
    if items.len() > 0 {
        let start = items.drop_last();
        byte_strings_are_read(start);
        if byte_strings_of(start) is None {
            let i = choose|i: int| 0 <= i < start.len() && !((#[trigger] start[i]) is Str);
            assert(items[i] == start[i]);
        } else {
            assert forall|i: int| 0 <= i < start.len() implies #[trigger] items[i] == Node::Str(
                byte_strings_of(start)->0[i],
            ) by {
                assert(items[i] == start[i]);
            }
            assert(items[items.len() - 1] == items.last());
        }
    }
}

/// Files are read from a list in their order; there are none if and only if the list holds
/// something else.
pub proof fn listed_files_are_read(items: Seq<Node>)
    ensures
        match file_entries_of(items) {
            Some(files) => files.len() == items.len() && forall|i: int|
                0 <= i < items.len() ==> file_entry_of(#[trigger] items[i]) == Some(files[i]),
            None => exists|i: int|
                0 <= i < items.len() && file_entry_of(#[trigger] items[i]) is None,
        },
    decreases items.len(),
{
    if items.len() > 0 {
        let start = items.drop_last();
        listed_files_are_read(start);
        if file_entries_of(start) is None {
            let i = choose|i: int|
                0 <= i < start.len() && file_entry_of(#[trigger] start[i]) is None;
            assert(items[i] == start[i]);
        } else {
            assert forall|i: int| 0 <= i < start.len() implies file_entry_of(#[trigger] items[i])
                == Some(file_entries_of(start)->0[i]) by {
                assert(items[i] == start[i]);
            }
            assert(items[items.len() - 1] == items.last());
        }
    }
}

/// Whether an entry of a dictionary is a number within the range of `i64`.
pub open spec fn is_number_entry(entry: (Seq<u8>, Node), key: Seq<char>, n: i64) -> bool {
    &&& entry.0 == encode_utf8(key)
    &&& entry.1 matches Node::Num(text)
    &&& signed_value(text) == n
}

/// A file is read from its length and the parts of its path, whatever else its dictionary holds.
pub proof fn listed_file_is_read(
    entries: Seq<(Seq<u8>, Node)>,
    a: int,
    b: int,
    length: i64,
    parts: Seq<Seq<u8>>,
)
    requires
        keys_ascend(entries),
        0 <= a < entries.len(),
        0 <= b < entries.len(),
        is_number_entry(entries[a], "length"@, length),
        entries[b] == (
            encode_utf8("path"@),
            Node::List(Seq::new(parts.len(), |i: int| Node::Str(parts[i]))),
        ),
    ensures
        file_entry_of(Node::Dict(entries)) == Some(FileEntry { length, path: parts }),
{
    let items = Seq::new(parts.len(), |i: int| Node::Str(parts[i]));
    field_is_the_entry(entries, "length"@, a);
    field_is_the_entry(entries, "path"@, b);
    byte_strings_are_read(items);
    match byte_strings_of(items) {
        Some(strings) => {
            assert forall|i: int| 0 <= i < parts.len() implies strings[i] == parts[i] by {
                assert(items[i] == Node::Str(parts[i]));
            }
            assert(strings =~= parts);
        },
        None => {
            let i = choose|i: int| 0 <= i < items.len() && !((#[trigger] items[i]) is Str);
            assert(items[i] == Node::Str(parts[i]));
        },
    }
}

/// Whether no entry of a dictionary has this key.
pub open spec fn lacks_key(entries: Seq<(Seq<u8>, Node)>, key: Seq<char>) -> bool {
    forall|i: int| 0 <= i < entries.len() ==> (#[trigger] entries[i]).0 != encode_utf8(key)
}

/// The `info` dictionary is read from its name, the length and the hashes of its pieces, and its
/// length or its files, wherever they stand and whatever else it holds. One that lacks its name,
/// its hashes or the length of its pieces is none.
pub proof fn info_is_read(
    entries: Seq<(Seq<u8>, Node)>,
    at: (int, int, int, int),
    name: Seq<u8>,
    piece_length: i64,
    pieces: Seq<u8>,
    length: i64,
    items: Seq<Node>,
)
    requires
        keys_ascend(entries),
    ensures
        ({
            let (a, b, c, d) = at;
            let named = 0 <= a < entries.len() && entries[a] == (
                encode_utf8("name"@),
                Node::Str(name),
            ) && 0 <= b < entries.len() && is_number_entry(
                entries[b],
                "piece length"@,
                piece_length,
            ) && 0 <= c < entries.len() && entries[c] == (
                encode_utf8("pieces"@),
                Node::Str(pieces),
            ) && 0 <= d < entries.len();
            let single = InfoFields {
                name: text_of(name),
                piece_length,
                pieces,
                length: Some(length),
                files: None,
            };
            &&& named && is_number_entry(entries[d], "length"@, length) && lacks_key(
                entries,
                "files"@,
            ) ==> info_of(Node::Dict(entries)) == Some(single)
            &&& named && entries[d] == (encode_utf8("files"@), Node::List(items)) && lacks_key(
                entries,
                "length"@,
            ) && file_entries_of(items) is Some ==> info_of(Node::Dict(entries)) == Some(
                InfoFields { length: None, files: file_entries_of(items), ..single },
            )
            &&& lacks_key(entries, "name"@) || lacks_key(entries, "pieces"@) || lacks_key(
                entries,
                "piece length"@,
            ) ==> info_of(Node::Dict(entries)) is None
        }),
{
    let (a, b, c, d) = at;
    field_is_the_entry(entries, "name"@, a);
    field_is_the_entry(entries, "piece length"@, b);
    field_is_the_entry(entries, "pieces"@, c);
    field_is_the_entry(entries, "length"@, d);
    field_is_the_entry(entries, "files"@, d);
}

/// Where a file begins in the data: behind the lengths of those before it.
pub open spec fn place_of(files: Seq<FileEntry>, i: int) -> nat
    decreases i,
{
    if i <= 0 {
        0
    } else {
        place_of(files, i - 1) + (files[i - 1].length as usize) as nat
    }
}

/// The place of a file depends on those before it alone.
proof fn lemma_place_of(files: Seq<FileEntry>, more: Seq<FileEntry>, i: int)
    requires
        i <= files.len() <= more.len(),
        forall|k: int| 0 <= k < files.len() ==> files[k] == #[trigger] more[k],
    ensures
        place_of(files, i) == place_of(more, i),
    decreases i,
{
    if i > 0 {
        lemma_place_of(files, more, i - 1);
        assert(files[i - 1] == more[i - 1]);
    }
}

/// Every file that is listed is there, in its order, with its path and its length, and begins where
/// the one before it ends; all together are as long as where another one would begin.
pub proof fn files_are_placed(files: Seq<FileEntry>)
    ensures
        placed_files(files).len() == files.len(),
        total_of(files) == place_of(files, files.len() as int),
        forall|i: int|
            0 <= i < files.len() ==> {
                let file = #[trigger] placed_files(files)[i];
                &&& file.path == path_of(files[i].path)
                &&& file.encrypted_length == files[i].length as usize
                &&& file.offset == place_of(files, i)
                &&& file.decrypted_length is None
            },
    decreases files.len(),
{
    if files.len() > 0 {
        let start = files.drop_last();
        let last = files.len() - 1;
        files_are_placed(start);
        lemma_place_of(start, files, last as int);
        assert forall|i: int| 0 <= i < files.len() implies {
            let file = #[trigger] placed_files(files)[i];
            &&& file.path == path_of(files[i].path)
            &&& file.encrypted_length == files[i].length as usize
            &&& file.offset == place_of(files, i)
            &&& file.decrypted_length is None
        } by {
            if i < last {
                lemma_place_of(start, files, i);
                assert(placed_files(files)[i] == placed_files(start)[i]);
            }
        }
    }
}

/// A torrent has as many pieces as it has whole hashes of twenty bytes. Its name and the length of
/// its pieces are those that it tells. With a list of files it is a directory of these; else it is
/// one file, with the name of the torrent, at the beginning of the data.
pub proof fn torrent_tells_its_fields(info: InfoFields)
    ensures
        match torrent_fields(info) {
            Ok(torrent) => {
                &&& torrent.name == info.name
                &&& torrent.piece_length == info.piece_length as usize
                &&& 20 * torrent.num_pieces <= info.pieces.len() < 20 * torrent.num_pieces + 20
                &&& torrent.multi_file == info.files is Some
                &&& info.files matches Some(files) ==> {
                    &&& torrent.files.len() == files.len()
                    &&& torrent.total_length == place_of(files, files.len() as int)
                    &&& forall|i: int|
                        0 <= i < files.len() ==> (#[trigger] torrent.files[i]).offset == place_of(
                            files,
                            i,
                        ) && torrent.files[i].encrypted_length == files[i].length as usize
                            && torrent.files[i].path == path_of(files[i].path)
                }
                &&& info.files is None ==> {
                    &&& info.length is Some
                    &&& torrent.total_length == info.length->0 as usize
                    &&& torrent.files.len() == 1
                    &&& torrent.files[0].path == info.name
                    &&& torrent.files[0].encrypted_length == info.length->0 as usize
                    &&& torrent.files[0].offset == 0
                }
            },
            Err(e) => {
                ||| e == Error::TorrentContent && info.files is None && info.length is None
                ||| e == Error::TorrentLength && info.files is Some && place_of(
                    info.files->0,
                    info.files->0.len() as int,
                ) > usize::MAX
            },
        },
{
    if let Some(files) = info.files {
        files_are_placed(files);
    }
}

/// Parts that hold no slash are those between the slashes of the path.
pub proof fn path_tells_its_parts(parts: Seq<Seq<char>>)
    requires
        parts.len() > 0,
        forall|i: int| 0 <= i < parts.len() ==> !(#[trigger] parts[i]).contains('/'),
    ensures
        split(joined(parts, '/'), '/') == parts,
    decreases parts.len(),
{
    let last = parts.last();
    assert(!parts[parts.len() - 1].contains('/'));
    if parts.len() == 1 {
        lemma_split_whole(parts[0], '/');
        assert(parts =~= seq![parts[0]]);
    } else {
        let start = parts.drop_last();
        assert forall|i: int| 0 <= i < start.len() implies !(#[trigger] start[i]).contains(
            '/',
        ) by {
            assert(start[i] == parts[i]);
        }
        path_tells_its_parts(start);
        lemma_split_append(joined(start, '/') + seq!['/'], last, '/');
        assert((joined(start, '/') + seq!['/']).drop_last() =~= joined(start, '/'));
        assert(split(joined(start, '/') + seq!['/'], '/') =~= start.push(Seq::empty()));
        assert(split(joined(parts, '/'), '/') =~= parts);
    }
}

// ---- reading ----

impl View for TorrentFileInfo {
    type V = FileEntry;

    closed spec fn view(&self) -> FileEntry {
        FileEntry { length: self.length, path: byte_strings(self.path@) }
    }
}

/// The meanings of byte strings.
pub open spec fn byte_strings(strings: Seq<Vec<u8>>) -> Seq<Seq<u8>> {
    Seq::new(strings.len(), |i: int| strings[i]@)
}

/// The meanings of listed files.
spec fn entries_view(files: Seq<TorrentFileInfo>) -> Seq<FileEntry> {
    Seq::new(files.len(), |i: int| files[i]@)
}

impl View for Info {
    type V = InfoFields;

    closed spec fn view(&self) -> InfoFields {
        InfoFields {
            name: self.name@,
            piece_length: self.piece_length,
            pieces: self.pieces@,
            length: self.length,
            files: match self.files {
                Some(files) => Some(entries_view(files@)),
                None => None,
            },
        }
    }
}

/// The meaning of an optional value.
spec fn node_of(v: Option<&Value>) -> Option<Node> {
    match v {
        Some(value) => Some(value.node()),
        None => None,
    }
}

/// Whether two byte strings are the same.
pub(crate) fn same_bytes(a: &[u8], b: &[u8]) -> (same: bool)
    ensures
        same == (a@ == b@),
{
    if a.len() != b.len() {
        return false;
    }
    let mut i: usize = 0;
    while i < a.len()
        invariant
            a@.len() == b@.len(),
            i <= a@.len(),
            forall|k: int| 0 <= k < i ==> a@[k] == b@[k],
        decreases a@.len() - i,
    {
        if a[i] != b[i] {
            return false;
        }
        i = i + 1;
    }
    assert(a@ =~= b@);
    true
}

/// The value under a key of a dictionary.
fn find_field<'a>(entries: &'a Vec<(Vec<u8>, Value)>, key: &str) -> (r: Option<&'a Value>)
    ensures
        node_of(r) == field(entry_nodes(entries@), key@),
        r matches Some(v) ==> exists|i: int| 0 <= i < entries@.len() && *v == entries@[i].1,
{
    let ghost all = entry_nodes(entries@);
    let mut i: usize = entries.len();
    assert(all.take(i as int) =~= all);
    while i > 0
        invariant
            i <= entries@.len(),
            all == entry_nodes(entries@),
            field(all.take(i as int), key@) == field(all, key@),
        decreases i,
    {
        assert(all.take(i as int).drop_last() =~= all.take(i - 1));
        assert(all.take(i as int).last() == all[i - 1]);
        if same_bytes(entries[i - 1].0.as_slice(), key.as_bytes()) {
            let v: &'a Value = &entries[i - 1].1;
            assert(*v == entries@[i - 1].1);
            return Some(v);
        }
        i = i - 1;
    }
    None
}

/// Every value of a list that may be encoded may be encoded.
proof fn lemma_canonical_item(items: Seq<Node>, i: int)
    requires
        canonical_items(items),
        0 <= i < items.len(),
    ensures
        canonical(items[i]),
    decreases items.len(),
{
    if i > 0 {
        lemma_canonical_item(items.drop_first(), i - 1);
        assert(items.drop_first()[i - 1] == items[i]);
    }
}

/// Every value of a dictionary that may be encoded may be encoded.
proof fn lemma_canonical_entry(entries: Seq<(Seq<u8>, Node)>, i: int)
    requires
        canonical_entries(entries),
        0 <= i < entries.len(),
    ensures
        canonical(entries[i].1),
    decreases entries.len(),
{
    if i > 0 {
        lemma_canonical_entry(entries.drop_first(), i - 1);
        assert(entries.drop_first()[i - 1] == entries[i]);
    }
}

/// What stands under a key of a dictionary that may be encoded may be encoded.
proof fn lemma_canonical_field(entries: Seq<(Seq<u8>, Node)>, key: Seq<char>)
    requires
        forall|i: int| 0 <= i < entries.len() ==> canonical(#[trigger] entries[i].1),
    ensures
        field(entries, key) matches Some(v) ==> canonical(v),
    decreases entries.len(),
{
    if entries.len() > 0 {
        assert forall|i: int| 0 <= i < entries.drop_last().len() implies canonical(
            #[trigger] entries.drop_last()[i].1,
        ) by {
            assert(entries.drop_last()[i] == entries[i]);
        }
        lemma_canonical_field(entries.drop_last(), key);
    }
}

/// The number, if the value is one within the range of `i64`.
fn value_number(v: &Value) -> (r: Option<i64>)
    requires
        canonical(v.node()),
    ensures
        r == number_of(v.node()),
{
    match v {
        Value::Number(text) => parse_number(text.as_slice()),
        _ => None,
    }
}

/// The bytes of a byte string.
fn value_bytes(v: &Value) -> (r: Option<Vec<u8>>)
    ensures
        match r {
            Some(bytes) => bytes_of(v.node()) == Some(bytes@),
            None => bytes_of(v.node()) is None,
        },
{
    match v {
        Value::Bytes(bytes) => Some(copy_bytes(bytes.as_slice())),
        _ => None,
    }
}

/// The byte strings of a list, if it holds nothing else.
fn value_byte_strings(v: &Value) -> (r: Option<Vec<Vec<u8>>>)
    ensures
        match r {
            Some(strings) => list_of(v.node()) matches Some(items) && byte_strings_of(items)
                == Some(byte_strings(strings@)),
            None => match list_of(v.node()) {
                Some(items) => byte_strings_of(items) is None,
                None => true,
            },
        },
{
    let items: &Vec<Value> = match v {
        Value::List(items) => items,
        _ => {
            return None;
        },
    };
    let ghost all = nodes(items@);
    proof {
        lemma_list_node(*items);
    }
    let mut strings: Vec<Vec<u8>> = Vec::new();
    let mut i: usize = 0;
    assert(byte_strings(strings@) =~= Seq::<Seq<u8>>::empty());
    while i < items.len()
        invariant
            i <= items@.len(),
            all == nodes(items@),
            list_of(v.node()) == Some(all),
            byte_strings_of(all.take(i as int)) == Some(byte_strings(strings@)),
        decreases items@.len() - i,
    {
        let ghost before = byte_strings(strings@);
        proof {
            assert(all.take(i + 1).drop_last() =~= all.take(i as int));
            assert(all.take(i + 1).last() == items@[i as int].node());
        }
        match value_bytes(&items[i]) {
            Some(bytes) => {
                strings.push(bytes);
                assert(byte_strings(strings@) =~= before.push(bytes@));
            },
            None => {
                proof {
                    lemma_byte_strings_prefix(all, i + 1);
                }
                return None;
            },
        }
        i = i + 1;
    }
    assert(all.take(i as int) =~= all);
    Some(strings)
}

/// Where a list holds something else before some place, it holds something else.
proof fn lemma_byte_strings_prefix(items: Seq<Node>, k: int)
    requires
        0 <= k <= items.len(),
        byte_strings_of(items.take(k)) is None,
    ensures
        byte_strings_of(items) is None,
    decreases items.len(),
{
    if k == items.len() {
        assert(items.take(k) =~= items);
    } else {
        assert(items.drop_last().take(k) =~= items.take(k));
        lemma_byte_strings_prefix(items.drop_last(), k);
    }
}

/// Where a list holds something that is no file before some place, it is no list of files.
proof fn lemma_file_entries_prefix(items: Seq<Node>, k: int)
    requires
        0 <= k <= items.len(),
        file_entries_of(items.take(k)) is None,
    ensures
        file_entries_of(items) is None,
    decreases items.len(),
{
    if k == items.len() {
        assert(items.take(k) =~= items);
    } else {
        assert(items.drop_last().take(k) =~= items.take(k));
        lemma_file_entries_prefix(items.drop_last(), k);
    }
}

/// Reads a file of the list of files.
fn decode_file(v: &Value) -> (r: Option<TorrentFileInfo>)
    requires
        canonical(v.node()),
    ensures
        match r {
            Some(file) => file_entry_of(v.node()) == Some(file@),
            None => file_entry_of(v.node()) is None,
        },
{
    let entries: &Vec<(Vec<u8>, Value)> = match v {
        Value::Dict(entries) => entries,
        _ => {
            return None;
        },
    };
    let ghost all = entry_nodes(entries@);
    proof {
        lemma_dict_node(*entries);
        assert forall|i: int| 0 <= i < all.len() implies canonical(#[trigger] all[i].1) by {
            lemma_canonical_entry(all, i);
        }
        lemma_canonical_field(all, "length"@);
    }
    match (find_field(entries, "length"), find_field(entries, "path")) {
        (Some(length), Some(path)) => match (value_number(length), value_byte_strings(path)) {
            (Some(length), Some(path)) => {
                let file = TorrentFileInfo { length, path };
                assert(file@ == (FileEntry { length, path: byte_strings(path@) }));
                Some(file)
            },
            _ => None,
        },
        _ => None,
    }
}

/// Reads the list of files.
fn decode_files(v: &Value) -> (r: Option<Vec<TorrentFileInfo>>)
    requires
        canonical(v.node()),
    ensures
        match r {
            Some(files) => list_of(v.node()) matches Some(items) && file_entries_of(items)
                == Some(entries_view(files@)),
            None => match list_of(v.node()) {
                Some(items) => file_entries_of(items) is None,
                None => true,
            },
        },
{
    let items: &Vec<Value> = match v {
        Value::List(items) => items,
        _ => {
            return None;
        },
    };
    let ghost all = nodes(items@);
    proof {
        lemma_list_node(*items);
    }
    let mut files: Vec<TorrentFileInfo> = Vec::new();
    let mut i: usize = 0;
    assert(entries_view(files@) =~= Seq::<FileEntry>::empty());
    while i < items.len()
        invariant
            i <= items@.len(),
            all == nodes(items@),
            canonical_items(all),
            list_of(v.node()) == Some(all),
            file_entries_of(all.take(i as int)) == Some(entries_view(files@)),
        decreases items@.len() - i,
    {
        let ghost before = entries_view(files@);
        proof {
            lemma_canonical_item(all, i as int);
            assert(all.take(i + 1).drop_last() =~= all.take(i as int));
            assert(all.take(i + 1).last() == items@[i as int].node());
        }
        match decode_file(&items[i]) {
            Some(file) => {
                files.push(file);
                assert(entries_view(files@) =~= before.push(file@));
            },
            None => {
                proof {
                    lemma_file_entries_prefix(all, i + 1);
                }
                return None;
            },
        }
        i = i + 1;
    }
    assert(all.take(i as int) =~= all);
    Some(files)
}

/// Reads the `info` dictionary.
fn decode_info(v: &Value) -> (r: Option<Info>)
    requires
        canonical(v.node()),
    ensures
        match r {
            Some(info) => info_of(v.node()) == Some(info@),
            None => info_of(v.node()) is None,
        },
{
    let entries: &Vec<(Vec<u8>, Value)> = match v {
        Value::Dict(entries) => entries,
        _ => {
            return None;
        },
    };
    let ghost all = entry_nodes(entries@);
    proof {
        lemma_dict_node(*entries);
        assert forall|i: int| 0 <= i < all.len() implies canonical(#[trigger] all[i].1) by {
            lemma_canonical_entry(all, i);
        }
        lemma_canonical_field(all, "piece length"@);
        lemma_canonical_field(all, "length"@);
        lemma_canonical_field(all, "files"@);
    }
    let name: Vec<u8> = match find_field(entries, "name") {
        Some(name) => match value_bytes(name) {
            Some(name) => name,
            None => {
                return None;
            },
        },
        None => {
            return None;
        },
    };
    let piece_length: i64 = match find_field(entries, "piece length") {
        Some(piece_length) => match value_number(piece_length) {
            Some(piece_length) => piece_length,
            None => {
                return None;
            },
        },
        None => {
            return None;
        },
    };
    let pieces: Vec<u8> = match find_field(entries, "pieces") {
        Some(pieces) => match value_bytes(pieces) {
            Some(pieces) => pieces,
            None => {
                return None;
            },
        },
        None => {
            return None;
        },
    };
    let length: Option<i64> = match find_field(entries, "length") {
        Some(length) => match value_number(length) {
            Some(length) => Some(length),
            None => {
                return None;
            },
        },
        None => None,
    };
    let files: Option<Vec<TorrentFileInfo>> = match find_field(entries, "files") {
        Some(files) => match decode_files(files) {
            Some(files) => Some(files),
            None => {
                return None;
            },
        },
        None => None,
    };
    Some(Info { name: bytes_to_text(name.as_slice()), piece_length, pieces, length, files })
}

/// Reads the `info` dictionary of a torrent.
fn decode_torrent(v: &Value) -> (r: Option<Info>)
    requires
        canonical(v.node()),
    ensures
        match r {
            Some(info) => torrent_of(v.node()) == Some(info@),
            None => torrent_of(v.node()) is None,
        },
{
    let entries: &Vec<(Vec<u8>, Value)> = match v {
        Value::Dict(entries) => entries,
        _ => {
            return None;
        },
    };
    let ghost all = entry_nodes(entries@);
    proof {
        lemma_dict_node(*entries);
        assert forall|i: int| 0 <= i < all.len() implies canonical(#[trigger] all[i].1) by {
            lemma_canonical_entry(all, i);
        }
        lemma_canonical_field(all, "info"@);
    }
    match find_field(entries, "info") {
        Some(info) => decode_info(info),
        None => None,
    }
}

/// The path of a file: its parts as text, with `/` between them.
fn join_path(parts: &Vec<Vec<u8>>) -> (path: String)
    ensures
        path@ == path_of(byte_strings(parts@)),
{
    let ghost all = Seq::new(parts@.len(), |i: int| text_of(parts@[i]@));
    assert(all =~= Seq::new(
        byte_strings(parts@).len(),
        |i: int| text_of(byte_strings(parts@)[i]),
    ));
    let mut path: String = String::new();
    let mut i: usize = 0;
    assert(joined(all.take(0), '/') =~= path@);
    while i < parts.len()
        invariant
            i <= parts@.len(),
            all == Seq::new(parts@.len(), |i: int| text_of(parts@[i]@)),
            path@ == joined(all.take(i as int), '/'),
        decreases parts@.len() - i,
    {
        let ghost before = path@;
        let part: String = bytes_to_text(parts[i].as_slice());
        if i > 0 {
            path.push('/');
        }
        path.append(part.as_str());
        proof {
            assert(all.take(i + 1).drop_last() =~= all.take(i as int));
            assert(all.take(i + 1).last() == part@);
            assert(path@ =~= joined(all.take(i + 1), '/'));
        }
        i = i + 1;
    }
    assert(all.take(i as int) =~= all);
    path
}

/// The files, each where the one before it ends, and the length of all of them.
fn place_files(files: &Vec<TorrentFileInfo>) -> (r: Option<(Vec<FileInfo>, usize)>)
    ensures
        match r {
            Some((placed, total)) => file_fields(placed@) == placed_files(entries_view(files@))
                && total == total_of(entries_view(files@)),
            None => total_of(entries_view(files@)) > usize::MAX,
        },
{
    let ghost all = entries_view(files@);
    let mut placed: Vec<FileInfo> = Vec::new();
    let mut offset: usize = 0;
    let mut i: usize = 0;
    assert(file_fields(placed@) =~= placed_files(all.take(0)));
    while i < files.len()
        invariant
            i <= files@.len(),
            all == entries_view(files@),
            file_fields(placed@) == placed_files(all.take(i as int)),
            offset == total_of(all.take(i as int)),
        decreases files@.len() - i,
    {
        let ghost before = file_fields(placed@);
        let encrypted_length: usize = files[i].length as usize;
        let path: String = join_path(&files[i].path);
        placed.push(FileInfo { path, encrypted_length, offset, decrypted_length: None });
        proof {
            assert(all.take(i + 1).drop_last() =~= all.take(i as int));
            assert(all.take(i + 1).last() == files@[i as int]@);
            assert(file_fields(placed@) =~= placed_files(all.take(i + 1)));
            lemma_total_grows(all, i + 1);
        }
        offset = match offset.checked_add(encrypted_length) {
            Some(sum) => sum,
            None => {
                return None;
            },
        };
        i = i + 1;
    }
    assert(all.take(i as int) =~= all);
    Some((placed, offset))
}

/// More files are not shorter.
proof fn lemma_total_grows(files: Seq<FileEntry>, k: int)
    requires
        0 <= k <= files.len(),
    ensures
        total_of(files.take(k)) <= total_of(files),
    decreases files.len(),
{
    if k == files.len() {
        assert(files.take(k) =~= files);
    } else {
        assert(files.drop_last().take(k) =~= files.take(k));
        lemma_total_grows(files.drop_last(), k);
    }
}

/// Reads a torrent file.
pub fn parse_torrent(torrent_data: &[u8]) -> (r: Result<TorrentInfo, Error>)
    ensures
        match r {
            Ok(torrent) => parsed_torrent(torrent_data@) == Ok::<TorrentFields, Error>(torrent@),
            Err(e) => parsed_torrent(torrent_data@) == Err::<TorrentFields, Error>(e),
        },
{
    let value: Value = match decode_value(torrent_data, TORRENT_DEPTH) {
        Some(value) => value,
        None => {
            return Err(Error::TorrentSyntax);
        },
    };
    let info: Info = match decode_torrent(&value) {
        Some(info) => info,
        None => {
            return Err(Error::TorrentSyntax);
        },
    };
    let ghost fields = info@;
    let num_pieces: usize = info.pieces.len() / PIECE_HASH_LENGTH;
    let torrent: TorrentInfo = match (&info.files, info.length) {
        (Some(listed), _) => match place_files(listed) {
            Some((files, total_length)) => TorrentInfo {
                name: info.name,
                piece_length: info.piece_length as usize,
                num_pieces,
                total_length,
                multi_file: true,
                files,
            },
            None => {
                return Err(Error::TorrentLength);
            },
        },
        (None, Some(length)) => {
            let mut files: Vec<FileInfo> = Vec::new();
            files.push(
                FileInfo {
                    path: info.name.clone(),
                    encrypted_length: length as usize,
                    offset: 0,
                    decrypted_length: None,
                },
            );
            TorrentInfo {
                name: info.name,
                piece_length: info.piece_length as usize,
                num_pieces,
                total_length: length as usize,
                multi_file: false,
                files,
            }
        },
        (None, None) => {
            return Err(Error::TorrentContent);
        },
    };
    assert(torrent@ =~= torrent_fields(fields)->Ok_0);
    Ok(torrent)
}

} // verus!
