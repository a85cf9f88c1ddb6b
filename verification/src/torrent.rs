//! Torrent files for uploads: their bencoding and their contents.

use vstd::prelude::*;
use vstd::string::*;
use vstd::utf8::{encode_utf8, is_ascii_chars, is_ascii_chars_encode_utf8};

use crate::bencode::{byte_strings, same_bytes};
use crate::bencoding::{
    bencode, bencode_bytes, bencode_entries, bencode_items, bytes_less, canonical,
    canonical_entries, canonical_items, inserted, is_bytes_less, keys_ascend, lemma_bytes_less_at,
    lemma_inserted_ascends, lemma_inserted_at, lemma_inserted_last, Node,
};
use crate::chunks::{append_bytes, concat, lemma_concat_push};
use crate::crypto::random_bytes;
use crate::decoding::copy_bytes;
use crate::error::Error;
use crate::hex::{encode, hex, hex_has_two_digits_each};
use crate::pieces::{sha1, sha1_digest, SHA1_INPUT_MAX};
use crate::text::{decimal_digits, signed_decimal, signed_decimal_digits, split, split_text, texts};

verus! {

/// A value to be bencoded.
#[derive(Debug)]
pub enum BencodeValue {
    Integer(i64),
    ByteString(Vec<u8>),
    List(Vec<BencodeValue>),
    Dict(BencodeDict),
}

/// A dictionary to be bencoded. Its keys are kept in order.
#[derive(Debug)]
pub struct BencodeDict {
    entries: Vec<(Vec<u8>, BencodeValue)>,
}

impl BencodeValue {
    /// The meaning of a value; [`BencodeValue::lemma_node`] tells what it is.
    pub closed spec fn node(self) -> Node
        decreases self,
    {
        match self {
            BencodeValue::Integer(n) => Node::Num(signed_decimal(n as int)),
            BencodeValue::ByteString(bytes) => Node::Str(bytes@),
            BencodeValue::List(items) => Node::List(
                Seq::new(
                    items@.len(),
                    |i: int|
                        if 0 <= i < items@.len() {
                            items@[i].node()
                        } else {
                            arbitrary()
                        },
                ),
            ),
            BencodeValue::Dict(dict) => Node::Dict(
                Seq::new(
                    dict.entries@.len(),
                    |i: int|
                        if 0 <= i < dict.entries@.len() {
                            (dict.entries@[i].0@, dict.entries@[i].1.node())
                        } else {
                            arbitrary()
                        },
                ),
            ),
        }
    }

    /// What the meaning of a value is.
    pub proof fn lemma_node(self)
        ensures
            self.node() == match self {
                BencodeValue::Integer(n) => Node::Num(signed_decimal(n as int)),
                BencodeValue::ByteString(bytes) => Node::Str(bytes@),
                BencodeValue::List(items) => Node::List(value_nodes(items@)),
                BencodeValue::Dict(dict) => Node::Dict(dict@),
            },
    {
        match self {
            BencodeValue::List(items) => {
                assert(self.node()->List_0 =~= value_nodes(items@));
            },
            BencodeValue::Dict(dict) => {
                assert(self.node()->Dict_0 =~= dict@);
            },
            _ => {},
        }
    }
}

/// The meanings of values.
pub open spec fn value_nodes(items: Seq<BencodeValue>) -> Seq<Node> {
    Seq::new(items.len(), |i: int| items[i].node())
}

impl View for BencodeDict {
    type V = Seq<(Seq<u8>, Node)>;

    closed spec fn view(&self) -> Seq<(Seq<u8>, Node)> {
        entry_nodes(self.entries@)
    }
}

/// The meanings of entries.
spec fn entry_nodes(entries: Seq<(Vec<u8>, BencodeValue)>) -> Seq<(Seq<u8>, Node)> {
    Seq::new(entries.len(), |i: int| (entries[i].0@, entries[i].1.node()))
}

impl BencodeDict {
    /// What holds of every dictionary: its keys are in order, none of them twice.
    #[verifier::type_invariant]
    spec fn ordered(self) -> bool {
        keys_ascend(self@)
    }

    /// Creates an empty dictionary.
    pub fn new() -> (dict: Self)
        ensures
            dict@ == Seq::<(Seq<u8>, Node)>::empty(),
    {
        let dict = BencodeDict { entries: Vec::new() };
        assert(dict@ =~= Seq::<(Seq<u8>, Node)>::empty());
        dict
    }

    /// Inserts an entry; one with the same key is replaced. The keys stay in order.
    pub fn insert(&mut self, key: Vec<u8>, value: BencodeValue)
        ensures
            final(self)@ == inserted(old(self)@, key@, value.node()),
            keys_ascend(final(self)@),
    {
        proof {
            use_type_invariant(&*self);
        }
        let ghost before = self@;
        let ghost entry = (key@, value.node());
        let mut entries: Vec<(Vec<u8>, BencodeValue)> = Vec::new();
        std::mem::swap(&mut entries, &mut self.entries);
        let mut k: usize = 0;
        while k < entries.len() && is_bytes_less(entries[k].0.as_slice(), key.as_slice())
            invariant
                k <= entries@.len(),
                entry_nodes(entries@) == before,
                forall|i: int| 0 <= i < k ==> bytes_less(#[trigger] before[i].0, key@),
            decreases entries@.len() - k,
        {
            assert(before[k as int].0 == entries@[k as int].0@);
            k = k + 1;
        }
        proof {
            if k < entries@.len() {
                assert(before[k as int].0 == entries@[k as int].0@);
            }
            lemma_inserted_at(before, entry.0, entry.1, k as int);
            lemma_inserted_ascends(before, entry.0, entry.1);
        }
        if k < entries.len() && same_bytes(entries[k].0.as_slice(), key.as_slice()) {
            let _replaced = entries.remove(k);
        }
        entries.insert(k, (key, value));
        assert(entry_nodes(entries@) =~= inserted(before, entry.0, entry.1));
        self.entries = entries;
    }
}

/// A copy of a value.
fn copy_value(value: &BencodeValue) -> (copy: BencodeValue)
    ensures
        copy.node() == value.node(),
    decreases value,
{
    proof {
        value.lemma_node();
    }
    let copy = match value {
        BencodeValue::Integer(n) => BencodeValue::Integer(*n),
        BencodeValue::ByteString(bytes) => BencodeValue::ByteString(copy_bytes(bytes.as_slice())),
        BencodeValue::List(items) => {
            let mut copies: Vec<BencodeValue> = Vec::new();
            let mut i: usize = 0;
            while i < items.len()
                invariant
                    i <= items@.len(),
                    *value == BencodeValue::List(*items),
                    value_nodes(copies@) == value_nodes(items@).take(i as int),
                decreases items@.len() - i,
            {
                assert(decreases_to!(value => value->List_0));
                assert(decreases_to!(value->List_0@ => value->List_0@[i as int]));
                let ghost before = value_nodes(copies@);
                let item: BencodeValue = copy_value(&items[i]);
                copies.push(item);
                proof {
                    assert(value_nodes(copies@) =~= before.push(item.node()));
                    assert(value_nodes(copies@) =~= value_nodes(items@).take(i + 1));
                }
                i = i + 1;
            }
            assert(value_nodes(items@).take(i as int) =~= value_nodes(items@));
            BencodeValue::List(copies)
        },
        BencodeValue::Dict(dict) => {
            assert(decreases_to!(value => value->Dict_0));
            BencodeValue::Dict(copy_dict(dict))
        },
    };
    proof {
        copy.lemma_node();
    }
    copy
}

/// A copy of a dictionary.
fn copy_dict(dict: &BencodeDict) -> (copy: BencodeDict)
    ensures
        copy@ == dict@,
    decreases dict,
{
    let mut entries: Vec<(Vec<u8>, BencodeValue)> = Vec::new();
    let mut i: usize = 0;
    assert(entry_nodes(entries@) =~= dict@.take(0));
    while i < dict.entries.len()
        invariant
            i <= dict.entries@.len(),
            entry_nodes(entries@) == dict@.take(i as int),
        decreases dict.entries@.len() - i,
    {
        assert(decreases_to!(dict => dict.entries));
        assert(decreases_to!(dict.entries@ => dict.entries@[i as int]));
        let ghost before = entry_nodes(entries@);
        let key: Vec<u8> = copy_bytes(dict.entries[i].0.as_slice());
        let v: BencodeValue = copy_value(&dict.entries[i].1);
        entries.push((key, v));
        proof {
            assert(entry_nodes(entries@) =~= before.push((key@, v.node())));
            assert(entry_nodes(entries@) =~= dict@.take(i + 1));
        }
        i = i + 1;
    }
    proof {
        use_type_invariant(dict);
        assert(dict@.take(i as int) =~= dict@);
    }
    BencodeDict { entries }
}

impl Clone for BencodeValue {
    fn clone(&self) -> (copy: Self)
        ensures
            copy.node() == self.node(),
    {
        copy_value(self)
    }
}

impl Clone for BencodeDict {
    fn clone(&self) -> (copy: Self)
        ensures
            copy@ == self@,
    {
        copy_dict(self)
    }
}

/// The encoding of one more value stands behind those before it.
proof fn lemma_items_push(items: Seq<Node>, v: Node)
    ensures
        bencode_items(items.push(v)) == bencode_items(items) + bencode(v),
    decreases items.len(),
{
    let all = items.push(v);
    if items.len() == 0 {
        assert(all.drop_first() =~= Seq::<Node>::empty());
        assert(bencode_items(all.drop_first()) =~= Seq::<u8>::empty());
    } else {
        assert(all.drop_first() =~= items.drop_first().push(v));
        lemma_items_push(items.drop_first(), v);
    }
    assert(bencode_items(all) =~= bencode_items(items) + bencode(v));
}

/// The encoding of one more entry stands behind those before it.
proof fn lemma_entries_push(entries: Seq<(Seq<u8>, Node)>, key: Seq<u8>, v: Node)
    ensures
        bencode_entries(entries.push((key, v))) == bencode_entries(entries) + (bencode_bytes(key)
            + bencode(v)),
    decreases entries.len(),
{
    let all = entries.push((key, v));
    if entries.len() == 0 {
        assert(all.drop_first() =~= Seq::<(Seq<u8>, Node)>::empty());
        assert(bencode_entries(all.drop_first()) =~= Seq::<u8>::empty());
    } else {
        assert(all.drop_first() =~= entries.drop_first().push((key, v)));
        lemma_entries_push(entries.drop_first(), key, v);
    }
    assert(bencode_entries(all) =~= bencode_entries(entries) + (bencode_bytes(key) + bencode(v)));
}

/// One more value leaves all of them with their keys in order.
proof fn lemma_canonical_items_push(items: Seq<Node>, v: Node)
    requires
        canonical_items(items),
        canonical(v),
    ensures
        canonical_items(items.push(v)),
    decreases items.len(),
{
    let all = items.push(v);
    if items.len() == 0 {
        assert(all.drop_first() =~= Seq::<Node>::empty());
        assert(canonical_items(all.drop_first()));
    } else {
        assert(all.drop_first() =~= items.drop_first().push(v));
        lemma_canonical_items_push(items.drop_first(), v);
        assert(all[0] == items[0]);
    }
}

/// One more entry leaves the values of all of them with their keys in order.
proof fn lemma_canonical_entries_push(entries: Seq<(Seq<u8>, Node)>, entry: (Seq<u8>, Node))
    requires
        canonical_entries(entries),
        canonical(entry.1),
    ensures
        canonical_entries(entries.push(entry)),
    decreases entries.len(),
{
    let all = entries.push(entry);
    if entries.len() == 0 {
        assert(all.drop_first() =~= Seq::<(Seq<u8>, Node)>::empty());
        assert(canonical_entries(all.drop_first()));
    } else {
        assert(all.drop_first() =~= entries.drop_first().push(entry));
        lemma_canonical_entries_push(entries.drop_first(), entry);
        assert(all[0] == entries[0]);
    }
}

/// Appends the encoding of a byte string.
fn push_bytes(result: &mut Vec<u8>, bytes: &[u8])
    ensures
        final(result)@ == old(result)@ + bencode_bytes(bytes@),
{
    let digits: Vec<u8> = decimal_digits(bytes.len() as u64);
    append_bytes(result, digits.as_slice());
    result.push(58);
    append_bytes(result, bytes);
    assert(result@ =~= old(result)@ + bencode_bytes(bytes@));
}

/// Encodes a value. Every value has its keys in order at every depth, so that its encoding tells
/// it apart from all others.
pub fn bencode_encode(value: &BencodeValue) -> (result: Vec<u8>)
    ensures
        result@ == bencode(value.node()),
        canonical(value.node()),
    decreases value,
{
    proof {
        value.lemma_node();
    }
    let mut result: Vec<u8> = Vec::new();
    match value {
        BencodeValue::Integer(n) => {
            let digits: Vec<u8> = signed_decimal_digits(*n);
            result.push(105);
            append_bytes(&mut result, digits.as_slice());
            result.push(101);
            assert(result@ =~= bencode(value.node()));
        },
        BencodeValue::ByteString(bytes) => {
            push_bytes(&mut result, bytes.as_slice());
            assert(result@ =~= bencode(value.node()));
        },
        BencodeValue::List(items) => {
            let ghost all = value_nodes(items@);
            result.push(108);
            let mut i: usize = 0;
            assert(result@ =~= seq![108u8] + bencode_items(all.take(0)));
            while i < items.len()
                invariant
                    i <= items@.len(),
                    *value == BencodeValue::List(*items),
                    all == value_nodes(items@),
                    result@ == seq![108u8] + bencode_items(all.take(i as int)),
                    canonical_items(all.take(i as int)),
                decreases items@.len() - i,
            {
                assert(decreases_to!(value => value->List_0));
                assert(decreases_to!(value->List_0@ => value->List_0@[i as int]));
                let item: Vec<u8> = bencode_encode(&items[i]);
                append_bytes(&mut result, item.as_slice());
                proof {
                    lemma_items_push(all.take(i as int), all[i as int]);
                    lemma_canonical_items_push(all.take(i as int), all[i as int]);
                    assert(all.take(i as int).push(all[i as int]) =~= all.take(i + 1));
                    assert(result@ =~= seq![108u8] + bencode_items(all.take(i + 1)));
                }
                i = i + 1;
            }
            result.push(101);
            proof {
                assert(all.take(i as int) =~= all);
                assert(result@ =~= bencode(value.node()));
            }
        },
        BencodeValue::Dict(dict) => {
            let ghost all = dict@;
            result.push(100);
            let mut i: usize = 0;
            assert(result@ =~= seq![100u8] + bencode_entries(all.take(0)));
            while i < dict.entries.len()
                invariant
                    i <= dict.entries@.len(),
                    *value == BencodeValue::Dict(*dict),
                    all == dict@,
                    result@ == seq![100u8] + bencode_entries(all.take(i as int)),
                    canonical_entries(all.take(i as int)),
                decreases dict.entries@.len() - i,
            {
                push_bytes(&mut result, dict.entries[i].0.as_slice());
                assert(decreases_to!(value => value->Dict_0));
                assert(decreases_to!(value->Dict_0 => value->Dict_0.entries));
                assert(decreases_to!(value->Dict_0.entries@ => value->Dict_0.entries@[i as int]));
                let encoded: Vec<u8> = bencode_encode(&dict.entries[i].1);
                append_bytes(&mut result, encoded.as_slice());
                proof {
                    let entry = all[i as int];
                    lemma_entries_push(all.take(i as int), entry.0, entry.1);
                    lemma_canonical_entries_push(all.take(i as int), entry);
                    assert(all.take(i as int).push(entry) =~= all.take(i + 1));
                    assert(result@ =~= seq![100u8] + bencode_entries(all.take(i + 1)));
                }
                i = i + 1;
            }
            result.push(101);
            proof {
                use_type_invariant(dict);
                assert(all.take(i as int) =~= all);
                assert(result@ =~= bencode(value.node()));
            }
        },
    }
    result
}

// ---- the contents of a torrent file ----

/// A file of a torrent that is to be made.
pub struct FileMetadata {
    /// The relative path, with `/` between its parts.
    pub path: String,
    /// The length of the encrypted file.
    pub encrypted_length: usize,
}

/// A number as a value.
pub open spec fn int_node(n: i64) -> Node {
    Node::Num(signed_decimal(n as int))
}

/// A text as a value.
pub open spec fn text_node(text: Seq<char>) -> Node {
    Node::Str(encode_utf8(text))
}

/// An entry of a dictionary.
pub open spec fn entry(key: Seq<char>, v: Node) -> (Seq<u8>, Node) {
    (encode_utf8(key), v)
}

/// A file in the list of files: its length and the parts of its path.
pub open spec fn file_node(path: Seq<char>, encrypted_length: usize) -> Node {
    let parts = split(path, '/');
    Node::Dict(
        seq![
            entry("length"@, int_node(encrypted_length as i64)),
            entry("path"@, Node::List(Seq::new(parts.len(), |i: int| text_node(parts[i])))),
        ],
    )
}

/// The list of files.
pub open spec fn files_node(files: Seq<FileMetadata>) -> Node {
    Node::List(
        Seq::new(files.len(), |i: int| file_node(files[i].path@, files[i].encrypted_length)),
    )
}

/// The `info` dictionary: the length or the files, then the name, the nonce in hexadecimal, the
/// length of a piece, the hashes of the pieces, and that the torrent is private.
pub open spec fn info_node(
    content: (Seq<u8>, Node),
    name: Seq<char>,
    nonce: Seq<u8>,
    piece_length: usize,
    hashes: Seq<Seq<u8>>,
) -> Node {
    Node::Dict(
        seq![
            content,
            entry("name"@, text_node(name)),
            entry("nonce"@, text_node(hex(nonce))),
            entry("piece length"@, int_node(piece_length as i64)),
            entry("pieces"@, Node::Str(concat(hashes))),
            entry("private"@, int_node(1)),
        ],
    )
}

/// The whole torrent.
pub open spec fn torrent_node(info: Node, created: i64) -> Node {
    let announce = text_node("wss://wormhole.app/websocket"@);
    Node::Dict(
        seq![
            entry("announce"@, announce),
            entry("announce-list"@, Node::List(seq![Node::List(seq![announce])])),
            entry("created by"@, text_node("WebTorrent/0108"@)),
            entry("creation date"@, int_node(created)),
            entry("info"@, info),
            entry("private"@, int_node(1)),
            entry("url-list"@, Node::List(Seq::empty())),
        ],
    )
}

/// A torrent file and its info hash, in hexadecimal. There is none where the `info` dictionary is
/// too long to hash.
pub open spec fn made_torrent(info: Node, created: i64) -> Result<(Seq<u8>, Seq<char>), Error> {
    if bencode(info).len() > SHA1_INPUT_MAX {
        Err(Error::TorrentTooLong)
    } else {
        Ok((bencode(torrent_node(info, created)), hex(sha1(bencode(info)))))
    }
}

/// How many characters an info hash has.
pub const INFO_HASH_LENGTH: usize = 40;

/// Whether an info hash that was returned has its length.
pub open spec fn has_hash(r: Result<(Vec<u8>, String), Error>) -> bool {
    r matches Ok((_, info_hash)) ==> info_hash@.len() == INFO_HASH_LENGTH
}

/// The meaning of a torrent file with its info hash, or of the error in their place.
pub open spec fn made_of(r: Result<(Vec<u8>, String), Error>) -> Result<
    (Seq<u8>, Seq<char>),
    Error,
> {
    match r {
        Ok((torrent, info_hash)) => Ok((torrent@, info_hash@)),
        Err(e) => Err(e),
    }
}

/// The `info` dictionary of a torrent with a single file.
pub open spec fn single_info(
    name: Seq<char>,
    encrypted_length: usize,
    piece_length: usize,
    hashes: Seq<Seq<u8>>,
    nonce: Seq<u8>,
) -> Node {
    info_node(
        entry("length"@, int_node(encrypted_length as i64)),
        name,
        nonce,
        piece_length,
        hashes,
    )
}

/// The `info` dictionary of a torrent with several files.
pub open spec fn multi_info(
    name: Seq<char>,
    files: Seq<FileMetadata>,
    piece_length: usize,
    hashes: Seq<Seq<u8>>,
    nonce: Seq<u8>,
) -> Node {
    info_node(entry("files"@, files_node(files)), name, nonce, piece_length, hashes)
}

// ---- making a torrent file ----

/// Two ASCII texts that first differ at `k`, or of which the first ends there, are in order.
proof fn lemma_text_less_at(a: Seq<char>, b: Seq<char>, k: int)
    requires
        is_ascii_chars(a),
        is_ascii_chars(b),
        0 <= k <= a.len(),
        k < b.len(),
        a.take(k) == b.take(k),
        k < a.len() ==> (a[k] as u8) < (b[k] as u8),
    ensures
        bytes_less(encode_utf8(a), encode_utf8(b)),
{
    is_ascii_chars_encode_utf8(a);
    is_ascii_chars_encode_utf8(b);
    let (x, y) = (encode_utf8(a), encode_utf8(b));
    assert forall|i: int| 0 <= i < k implies x.take(k)[i] == y.take(k)[i] by {
        assert(a[i] == a.take(k)[i] && b[i] == b.take(k)[i]);
        assert(x[i] == a[i] as u8 && y[i] == b[i] as u8);
    }
    assert(x.take(k) =~= y.take(k));
    if k < a.len() {
        assert(x[k] == a[k] as u8);
    }
    assert(y[k] == b[k] as u8);
    lemma_bytes_less_at(x, y, k);
}

/// The keys of the `info` dictionary and of a file are in order.
pub proof fn lemma_info_keys()
    ensures
        bytes_less(encode_utf8("files"@), encode_utf8("length"@)),
        bytes_less(encode_utf8("length"@), encode_utf8("name"@)),
        bytes_less(encode_utf8("files"@), encode_utf8("name"@)),
        bytes_less(encode_utf8("name"@), encode_utf8("nonce"@)),
        bytes_less(encode_utf8("nonce"@), encode_utf8("piece length"@)),
        bytes_less(encode_utf8("piece length"@), encode_utf8("pieces"@)),
        bytes_less(encode_utf8("pieces"@), encode_utf8("private"@)),
        bytes_less(encode_utf8("length"@), encode_utf8("path"@)),
{
    reveal_strlit("length");
    reveal_strlit("files");
    reveal_strlit("name");
    reveal_strlit("nonce");
    reveal_strlit("piece length");
    reveal_strlit("pieces");
    reveal_strlit("private");
    reveal_strlit("path");
    assert("length"@.take(0) =~= "name"@.take(0));
    lemma_text_less_at("length"@, "name"@, 0);
    assert("files"@.take(0) =~= "length"@.take(0));
    lemma_text_less_at("files"@, "length"@, 0);
    assert("files"@.take(0) =~= "name"@.take(0));
    lemma_text_less_at("files"@, "name"@, 0);
    assert("name"@.take(1) =~= "nonce"@.take(1));
    lemma_text_less_at("name"@, "nonce"@, 1);
    assert("nonce"@.take(0) =~= "piece length"@.take(0));
    lemma_text_less_at("nonce"@, "piece length"@, 0);
    assert("piece length"@.take(5) =~= "pieces"@.take(5));
    lemma_text_less_at("piece length"@, "pieces"@, 5);
    assert("pieces"@.take(1) =~= "private"@.take(1));
    lemma_text_less_at("pieces"@, "private"@, 1);
    assert("length"@.take(0) =~= "path"@.take(0));
    lemma_text_less_at("length"@, "path"@, 0);
}

/// The keys of the whole torrent are in order.
pub proof fn lemma_torrent_keys()
    ensures
        bytes_less(encode_utf8("announce"@), encode_utf8("announce-list"@)),
        bytes_less(encode_utf8("announce-list"@), encode_utf8("created by"@)),
        bytes_less(encode_utf8("created by"@), encode_utf8("creation date"@)),
        bytes_less(encode_utf8("creation date"@), encode_utf8("info"@)),
        bytes_less(encode_utf8("info"@), encode_utf8("private"@)),
        bytes_less(encode_utf8("private"@), encode_utf8("url-list"@)),
{
    reveal_strlit("announce");
    reveal_strlit("announce-list");
    reveal_strlit("created by");
    reveal_strlit("creation date");
    reveal_strlit("info");
    reveal_strlit("private");
    reveal_strlit("url-list");
    assert("announce"@.take(8) =~= "announce-list"@.take(8));
    lemma_text_less_at("announce"@, "announce-list"@, 8);
    assert("announce-list"@.take(0) =~= "created by"@.take(0));
    lemma_text_less_at("announce-list"@, "created by"@, 0);
    assert("created by"@.take(5) =~= "creation date"@.take(5));
    lemma_text_less_at("created by"@, "creation date"@, 5);
    assert("creation date"@.take(0) =~= "info"@.take(0));
    lemma_text_less_at("creation date"@, "info"@, 0);
    assert("info"@.take(0) =~= "private"@.take(0));
    lemma_text_less_at("info"@, "private"@, 0);
    assert("private"@.take(0) =~= "url-list"@.take(0));
    lemma_text_less_at("private"@, "url-list"@, 0);
}

impl BencodeDict {
    /// Inserts an entry whose key comes behind all others.
    fn put(&mut self, key: &str, value: BencodeValue)
        requires
            old(self)@.len() > 0 ==> bytes_less(old(self)@.last().0, encode_utf8(key@)),
        ensures
            final(self)@ == old(self)@.push(entry(key@, value.node())),
    {
        proof {
            use_type_invariant(&*self);
            lemma_inserted_last(self@, encode_utf8(key@), value.node());
        }
        self.insert(copy_bytes(key.as_bytes()), value);
    }
}

/// A text as a value.
fn text_value(text: &str) -> (v: BencodeValue)
    ensures
        v.node() == text_node(text@),
{
    let v = BencodeValue::ByteString(copy_bytes(text.as_bytes()));
    proof {
        v.lemma_node();
    }
    v
}

/// A number as a value.
fn int_value(n: i64) -> (v: BencodeValue)
    ensures
        v.node() == int_node(n),
{
    let v = BencodeValue::Integer(n);
    proof {
        v.lemma_node();
    }
    v
}

/// The hashes of the pieces, one behind the other.
fn flatten_hashes(piece_hashes: &Vec<Vec<u8>>) -> (pieces: Vec<u8>)
    ensures
        pieces@ == concat(byte_strings(piece_hashes@)),
{
    let ghost all = byte_strings(piece_hashes@);
    let mut pieces: Vec<u8> = Vec::new();
    let mut i: usize = 0;
    while i < piece_hashes.len()
        invariant
            i <= piece_hashes@.len(),
            all == byte_strings(piece_hashes@),
            pieces@ == concat(all.take(i as int)),
        decreases piece_hashes@.len() - i,
    {
        append_bytes(&mut pieces, piece_hashes[i].as_slice());
        proof {
            lemma_concat_push(all.take(i as int), all[i as int]);
            assert(all.take(i as int).push(all[i as int]) =~= all.take(i + 1));
        }
        i = i + 1;
    }
    assert(all.take(i as int) =~= all);
    pieces
}

/// Makes the `info` dictionary.
fn make_info(
    content_key: &str,
    content: BencodeValue,
    name: &str,
    nonce: &[u8; 16],
    piece_length: usize,
    piece_hashes: &Vec<Vec<u8>>,
) -> (info: BencodeValue)
    requires
        bytes_less(encode_utf8(content_key@), encode_utf8("name"@)),
    ensures
        info.node() == info_node(
            entry(content_key@, content.node()),
            name@,
            nonce@,
            piece_length,
            byte_strings(piece_hashes@),
        ),
{
    proof {
        lemma_info_keys();
    }
    let nonce_text: String = encode(nonce.as_slice());
    let pieces = BencodeValue::ByteString(flatten_hashes(piece_hashes));
    proof {
        pieces.lemma_node();
    }
    let mut dict: BencodeDict = BencodeDict::new();
    dict.put(content_key, content);
    dict.put("name", text_value(name));
    dict.put("nonce", text_value(nonce_text.as_str()));
    dict.put("piece length", int_value(piece_length as i64));
    dict.put("pieces", pieces);
    dict.put("private", int_value(1));
    let info = BencodeValue::Dict(dict);
    proof {
        info.lemma_node();
        assert(dict@ =~= info_node(
            entry(content_key@, content.node()),
            name@,
            nonce@,
            piece_length,
            byte_strings(piece_hashes@),
        )->Dict_0);
    }
    info
}

/// A list with one value.
fn singleton(v: BencodeValue) -> (list: BencodeValue)
    ensures
        list.node() == Node::List(seq![v.node()]),
{
    let mut items: Vec<BencodeValue> = Vec::new();
    items.push(v);
    let list = BencodeValue::List(items);
    proof {
        list.lemma_node();
        assert(value_nodes(items@) =~= seq![v.node()]);
    }
    list
}

/// Makes the torrent around its `info` dictionary, and hashes that.
fn make_torrent(info: BencodeValue, created: i64) -> (r: Result<(Vec<u8>, String), Error>)
    ensures
        made_of(r) == made_torrent(info.node(), created),
        has_hash(r),
{
    let info_bencoded: Vec<u8> = bencode_encode(&info);
    if info_bencoded.len() as u64 > SHA1_INPUT_MAX {
        return Err(Error::TorrentTooLong);
    }
    let digest: Vec<u8> = sha1_digest(info_bencoded.as_slice());
    let info_hash: String = encode(digest.as_slice());
    proof {
        hex_has_two_digits_each(digest@);
        lemma_torrent_keys();
    }
    let announce = "wss://wormhole.app/websocket";
    let no_urls = BencodeValue::List(Vec::new());
    let mut dict: BencodeDict = BencodeDict::new();
    dict.put("announce", text_value(announce));
    dict.put("announce-list", singleton(singleton(text_value(announce))));
    dict.put("created by", text_value("WebTorrent/0108"));
    dict.put("creation date", int_value(created));
    dict.put("info", info);
    dict.put("private", int_value(1));
    dict.put("url-list", no_urls);
    let torrent = BencodeValue::Dict(dict);
    proof {
        no_urls.lemma_node();
        assert(no_urls.node()->List_0 =~= Seq::<Node>::empty());
        torrent.lemma_node();
        assert(dict@ =~= torrent_node(info.node(), created)->Dict_0);
    }
    Ok((bencode_encode(&torrent), info_hash))
}

/// `std::time::SystemTime::elapsed` of the Unix epoch, in whole seconds. Nothing is claimed of the
/// time; there is none if the clock is set before the epoch.
#[verifier::external_body]
pub(crate) fn seconds_since_epoch() -> (seconds: Option<u64>) {
    std::time::UNIX_EPOCH.elapsed().ok().map(|elapsed| elapsed.as_secs())
}

/// Makes the torrent file of a single file with the given nonce and date of creation. Returns it
/// with its info hash.
pub fn create_torrent_at(
    filename: &str,
    encrypted_length: usize,
    piece_length: usize,
    piece_hashes: &Vec<Vec<u8>>,
    nonce: &[u8; 16],
    created: i64,
) -> (r: Result<(Vec<u8>, String), Error>)
    ensures
        made_of(r) == made_torrent(
            single_info(
                filename@,
                encrypted_length,
                piece_length,
                byte_strings(piece_hashes@),
                nonce@,
            ),
            created,
        ),
        has_hash(r),
{
    proof {
        lemma_info_keys();
    }
    let info: BencodeValue = make_info(
        "length",
        int_value(encrypted_length as i64),
        filename,
        nonce,
        piece_length,
        piece_hashes,
    );
    make_torrent(info, created)
}

/// A file in the list of files.
fn file_value(file: &FileMetadata) -> (v: BencodeValue)
    ensures
        v.node() == file_node(file.path@, file.encrypted_length),
{
    let ghost parts = split(file.path@, '/');
    let names: Vec<String> = split_text(file.path.as_str(), '/');
    let mut items: Vec<BencodeValue> = Vec::new();
    let mut i: usize = 0;
    while i < names.len()
        invariant
            i <= names@.len(),
            parts == texts(names@),
            value_nodes(items@) == Seq::new(i as nat, |k: int| text_node(parts[k])),
        decreases names@.len() - i,
    {
        let ghost before = value_nodes(items@);
        let part: BencodeValue = text_value(names[i].as_str());
        items.push(part);
        proof {
            assert(value_nodes(items@) =~= before.push(part.node()));
            assert(value_nodes(items@) =~= Seq::new((i + 1) as nat, |k: int| text_node(parts[k])));
        }
        i = i + 1;
    }
    let path = BencodeValue::List(items);
    proof {
        path.lemma_node();
        lemma_info_keys();
    }
    let mut dict: BencodeDict = BencodeDict::new();
    dict.put("length", int_value(file.encrypted_length as i64));
    dict.put("path", path);
    let v = BencodeValue::Dict(dict);
    proof {
        v.lemma_node();
        assert(dict@ =~= file_node(file.path@, file.encrypted_length)->Dict_0);
    }
    v
}

/// The list of files.
fn files_value(files: &[FileMetadata]) -> (v: BencodeValue)
    ensures
        v.node() == files_node(files@),
{
    let mut items: Vec<BencodeValue> = Vec::new();
    let mut i: usize = 0;
    while i < files.len()
        invariant
            i <= files@.len(),
            value_nodes(items@) == Seq::new(
                i as nat,
                |k: int| file_node(files@[k].path@, files@[k].encrypted_length),
            ),
        decreases files@.len() - i,
    {
        let ghost before = value_nodes(items@);
        let file: BencodeValue = file_value(&files[i]);
        items.push(file);
        proof {
            assert(value_nodes(items@) =~= before.push(file.node()));
            assert(value_nodes(items@) =~= Seq::new(
                (i + 1) as nat,
                |k: int| file_node(files@[k].path@, files@[k].encrypted_length),
            ));
        }
        i = i + 1;
    }
    let v = BencodeValue::List(items);
    proof {
        v.lemma_node();
    }
    v
}

/// Makes the torrent file of several files with the given nonce and date of creation. Returns it
/// with its info hash.
pub fn create_multi_file_torrent_at(
    directory_name: &str,
    files: &[FileMetadata],
    piece_length: usize,
    piece_hashes: &Vec<Vec<u8>>,
    nonce: &[u8; 16],
    created: i64,
) -> (r: Result<(Vec<u8>, String), Error>)
    ensures
        made_of(r) == made_torrent(
            multi_info(
                directory_name@,
                files@,
                piece_length,
                byte_strings(piece_hashes@),
                nonce@,
            ),
            created,
        ),
        has_hash(r),
{
    proof {
        lemma_info_keys();
    }
    let info: BencodeValue = make_info(
        "files",
        files_value(files),
        directory_name,
        nonce,
        piece_length,
        piece_hashes,
    );
    make_torrent(info, created)
}

/// Makes the torrent file of a single file whose pieces have been hashed, with a random nonce and
/// the present date. Returns it with its info hash.
pub fn create_torrent_from_hashes(
    filename: &str,
    encrypted_length: usize,
    piece_length: usize,
    piece_hashes: Vec<Vec<u8>>,
) -> (r: Result<(Vec<u8>, String), Error>)
    ensures
        made_of(r) == Err::<(Seq<u8>, Seq<char>), Error>(Error::Clock) || exists|
            nonce: Seq<u8>,
            created: i64,
        |
            nonce.len() == 16 && made_of(r) == #[trigger] made_torrent(
                single_info(
                    filename@,
                    encrypted_length,
                    piece_length,
                    byte_strings(piece_hashes@),
                    nonce,
                ),
                created,
            ),
        has_hash(r),
{
    let nonce: [u8; 16] = random_bytes();
    match seconds_since_epoch() {
        Some(seconds) => create_torrent_at(
            filename,
            encrypted_length,
            piece_length,
            &piece_hashes,
            &nonce,
            seconds as i64,
        ),
        None => Err(Error::Clock),
    }
}

/// Makes the torrent file of several files whose pieces have been hashed, with a random nonce and
/// the present date. Returns it with its info hash.
pub fn create_multi_file_torrent_from_hashes(
    directory_name: &str,
    files: &[FileMetadata],
    piece_length: usize,
    piece_hashes: Vec<Vec<u8>>,
) -> (r: Result<(Vec<u8>, String), Error>)
    ensures
        made_of(r) == Err::<(Seq<u8>, Seq<char>), Error>(Error::Clock) || exists|
            nonce: Seq<u8>,
            created: i64,
        |
            nonce.len() == 16 && made_of(r) == #[trigger] made_torrent(
                multi_info(
                    directory_name@,
                    files@,
                    piece_length,
                    byte_strings(piece_hashes@),
                    nonce,
                ),
                created,
            ),
        has_hash(r),
{
    let nonce: [u8; 16] = random_bytes();
    match seconds_since_epoch() {
        Some(seconds) => create_multi_file_torrent_at(
            directory_name,
            files,
            piece_length,
            &piece_hashes,
            &nonce,
            seconds as i64,
        ),
        None => Err(Error::Clock),
    }
}

} // verus!
