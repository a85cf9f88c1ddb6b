//! The bencoding: values, the bytes that stand for them, and the tokens that these bytes are read
//! as. Both tell values apart: no encoding begins with another.

use vstd::prelude::*;

use crate::text::{
    decimal, digits_value, is_digit, is_number, lemma_decimal_injective, lemma_decimal_value,
    signed_decimal,
};

verus! {

/// A bencoded value. A number is kept as its text, for it may have any size.
pub enum Node {
    Num(Seq<u8>),
    Str(Seq<u8>),
    List(Seq<Node>),
    Dict(Seq<(Seq<u8>, Node)>),
}

/// A token of the bencoding.
pub enum Tok {
    Num(Seq<u8>),
    Str(Seq<u8>),
    List,
    Dict,
    End,
}

/// The encoding of a byte string: its length, a colon and the bytes.
pub open spec fn bencode_bytes(bytes: Seq<u8>) -> Seq<u8> {
    decimal(bytes.len()) + seq![58u8] + bytes
}

/// The encoding of a value.
pub open spec fn bencode(v: Node) -> Seq<u8>
    decreases v,
{
    match v {
        Node::Num(text) => seq![105u8] + text + seq![101u8],
        Node::Str(bytes) => bencode_bytes(bytes),
        Node::List(items) => seq![108u8] + bencode_items(items) + seq![101u8],
        Node::Dict(entries) => seq![100u8] + bencode_entries(entries) + seq![101u8],
    }
}

/// The encodings of values, one behind the other.
pub open spec fn bencode_items(items: Seq<Node>) -> Seq<u8>
    decreases items,
{
    if items.len() == 0 {
        Seq::empty()
    } else {
        bencode(items[0]) + bencode_items(items.drop_first())
    }
}

/// The encodings of keys and values, one behind the other.
pub open spec fn bencode_entries(entries: Seq<(Seq<u8>, Node)>) -> Seq<u8>
    decreases entries,
{
    if entries.len() == 0 {
        Seq::empty()
    } else {
        bencode_bytes(entries[0].0) + bencode(entries[0].1) + bencode_entries(entries.drop_first())
    }
}

/// The tokens of a value.
pub open spec fn tokens_of(v: Node) -> Seq<Tok>
    decreases v,
{
    match v {
        Node::Num(text) => seq![Tok::Num(text)],
        Node::Str(bytes) => seq![Tok::Str(bytes)],
        Node::List(items) => seq![Tok::List] + tokens_of_items(items) + seq![Tok::End],
        Node::Dict(entries) => seq![Tok::Dict] + tokens_of_entries(entries) + seq![Tok::End],
    }
}

/// The tokens of values, one behind the other.
pub open spec fn tokens_of_items(items: Seq<Node>) -> Seq<Tok>
    decreases items,
{
    if items.len() == 0 {
        Seq::empty()
    } else {
        tokens_of(items[0]) + tokens_of_items(items.drop_first())
    }
}

/// The tokens of keys and values, one behind the other.
pub open spec fn tokens_of_entries(entries: Seq<(Seq<u8>, Node)>) -> Seq<Tok>
    decreases entries,
{
    if entries.len() == 0 {
        Seq::empty()
    } else {
        seq![Tok::Str(entries[0].0)] + tokens_of(entries[0].1) + tokens_of_entries(
            entries.drop_first(),
        )
    }
}

/// Whether one byte string comes before another, byte by byte.
pub open spec fn bytes_less(a: Seq<u8>, b: Seq<u8>) -> bool
    decreases a.len(),
{
    if b.len() == 0 {
        false
    } else if a.len() == 0 {
        true
    } else {
        a[0] < b[0] || a[0] == b[0] && bytes_less(a.skip(1), b.skip(1))
    }
}

/// Whether the keys of a dictionary stand in order, none of them twice.
pub open spec fn keys_ascend(entries: Seq<(Seq<u8>, Node)>) -> bool {
    forall|i: int|
        0 <= i < entries.len() - 1 ==> bytes_less(#[trigger] entries[i].0, entries[i + 1].0)
}

/// Whether a value is as it may be encoded: numbers without leading zeros, keys in order.
pub open spec fn canonical(v: Node) -> bool
    decreases v,
{
    match v {
        Node::Num(text) => is_number(text),
        Node::Str(_) => true,
        Node::List(items) => canonical_items(items),
        Node::Dict(entries) => keys_ascend(entries) && canonical_entries(entries),
    }
}

/// Whether all values are as they may be encoded.
pub open spec fn canonical_items(items: Seq<Node>) -> bool
    decreases items,
{
    items.len() > 0 ==> canonical(items[0]) && canonical_items(items.drop_first())
}

/// Whether all values of a dictionary are as they may be encoded.
pub open spec fn canonical_entries(entries: Seq<(Seq<u8>, Node)>) -> bool
    decreases entries,
{
    entries.len() > 0 ==> canonical(entries[0].1) && canonical_entries(entries.drop_first())
}

/// How deep lists and dictionaries are nested in a value.
pub open spec fn depth(v: Node) -> nat
    decreases v,
{
    match v {
        Node::Num(_) => 0,
        Node::Str(_) => 0,
        Node::List(items) => 1 + depth_items(items),
        Node::Dict(entries) => 1 + depth_entries(entries),
    }
}

/// The depth of the deepest value.
pub open spec fn depth_items(items: Seq<Node>) -> nat
    decreases items,
{
    if items.len() == 0 {
        0
    } else {
        let (first, rest) = (depth(items[0]), depth_items(items.drop_first()));
        if first > rest {
            first
        } else {
            rest
        }
    }
}

/// The depth of the deepest value of a dictionary.
pub open spec fn depth_entries(entries: Seq<(Seq<u8>, Node)>) -> nat
    decreases entries,
{
    if entries.len() == 0 {
        0
    } else {
        let (first, rest) = (depth(entries[0].1), depth_entries(entries.drop_first()));
        if first > rest {
            first
        } else {
            rest
        }
    }
}

// ---- encodings tell values apart ----

/// Whether `byte` stands in `s` at no position.
pub open spec fn lacks(s: Seq<u8>, byte: u8) -> bool {
    forall|i: int| 0 <= i < s.len() ==> #[trigger] s[i] != byte
}

/// What stands before the first occurrence of a byte is determined.
proof fn lemma_split_at_byte(a: Seq<u8>, b: Seq<u8>, byte: u8, x: Seq<u8>, y: Seq<u8>)
    requires
        lacks(a, byte),
        lacks(b, byte),
        a + seq![byte] + x == b + seq![byte] + y,
    ensures
        a == b,
        x == y,
{
    let s = a + seq![byte] + x;
    let t = b + seq![byte] + y;
    assert(s.len() == a.len() + 1 + x.len());
    assert(t.len() == b.len() + 1 + y.len());
    assert(s[a.len() as int] == byte);
    assert(t[b.len() as int] == byte);
    if a.len() < b.len() {
        assert(s[a.len() as int] == b[a.len() as int]);
    } else if b.len() < a.len() {
        assert(s[b.len() as int] == a[b.len() as int]);
    }
    assert(a =~= b) by {
        assert forall|i: int| 0 <= i < a.len() implies a[i] == b[i] by {
            assert(s[i] == a[i]);
            assert(t[i] == b[i]);
        }
    }
    assert(x =~= y) by {
        assert forall|i: int| 0 <= i < x.len() implies x[i] == y[i] by {
            assert(s[a.len() + 1 + i] == x[i]);
            assert(t[b.len() + 1 + i] == y[i]);
        }
    }
}

/// The text of a number holds no `e` and no colon.
proof fn lemma_number_bytes(text: Seq<u8>)
    requires
        is_number(text),
    ensures
        lacks(text, 101),
        lacks(text, 58),
{
    let n = choose|n: int| text == signed_decimal(n);
    let m = if n < 0 {
        (-n) as nat
    } else {
        n as nat
    };
    lemma_decimal_value(m);
    let digits = decimal(m);
    assert forall|i: int| 0 <= i < text.len() implies #[trigger] text[i] != 101 && text[i] != 58 by {
        if n < 0 {
            if i > 0 {
                assert(text[i] == digits[i - 1]);
                assert(is_digit(digits[i - 1]));
            }
        } else {
            assert(is_digit(digits[i]));
        }
    }
}

/// A byte string is determined by any bytes that begin with its encoding.
proof fn lemma_bytes_unique(a: Seq<u8>, b: Seq<u8>, x: Seq<u8>, y: Seq<u8>)
    requires
        bencode_bytes(a) + x == bencode_bytes(b) + y,
    ensures
        a == b,
        x == y,
{
    lemma_decimal_value(a.len());
    lemma_decimal_value(b.len());
    let (da, db) = (decimal(a.len()), decimal(b.len()));
    assert forall|i: int| 0 <= i < da.len() implies #[trigger] da[i] != 58 by {
        assert(is_digit(da[i]));
    }
    assert forall|i: int| 0 <= i < db.len() implies #[trigger] db[i] != 58 by {
        assert(is_digit(db[i]));
    }
    assert(bencode_bytes(a) + x =~= da + seq![58u8] + (a + x));
    assert(bencode_bytes(b) + y =~= db + seq![58u8] + (b + y));
    lemma_split_at_byte(da, db, 58, a + x, b + y);
    lemma_decimal_injective(a.len(), b.len());
    assert(a =~= (a + x).take(a.len() as int));
    assert(b =~= (b + y).take(a.len() as int));
    assert(x =~= (a + x).skip(a.len() as int));
    assert(y =~= (b + y).skip(a.len() as int));
}

/// The first byte of an encoding tells what kind of value follows.
proof fn lemma_first_byte(v: Node)
    ensures
        bencode(v).len() > 0,
        match v {
            Node::Num(_) => bencode(v)[0] == 105,
            Node::Str(_) => is_digit(bencode(v)[0]),
            Node::List(_) => bencode(v)[0] == 108,
            Node::Dict(_) => bencode(v)[0] == 100,
        },
{
    if let Node::Str(bytes) = v {
        lemma_decimal_value(bytes.len());
        assert(bencode(v)[0] == decimal(bytes.len())[0]);
        assert(is_digit(decimal(bytes.len())[0]));
    }
}

/// The encodings of the values of a list.
pub open spec fn encodings(items: Seq<Node>) -> Seq<Seq<u8>> {
    Seq::new(items.len(), |i: int| bencode(items[i]))
}

/// The encodings of the entries of a dictionary: that of the key, which is a byte string, and that
/// of the value behind it.
pub open spec fn entry_encodings(entries: Seq<(Seq<u8>, Node)>) -> Seq<Seq<u8>> {
    Seq::new(
        entries.len(),
        |i: int| bencode(Node::Str(entries[i].0)) + bencode(entries[i].1),
    )
}

/// A number is encoded between `i` and `e`; a byte string behind its length in decimal digits and
/// a colon; the values of a list one behind the other between `l` and `e`; and the entries of a
/// dictionary between `d` and `e`.
pub proof fn encoding_has_its_form(
    text: Seq<u8>,
    bytes: Seq<u8>,
    items: Seq<Node>,
    entries: Seq<(Seq<u8>, Node)>,
)
    ensures
        bencode(Node::Num(text)) == seq![105u8] + text + seq![101u8],
        ({
            let encoded = bencode(Node::Str(bytes));
            let k = encoded.len() - bytes.len() - 1;
            &&& k > 0
            &&& encoded.skip(k + 1) == bytes
            &&& encoded[k] == 58
            &&& digits_value(encoded.take(k)) == bytes.len()
            &&& forall|i: int| 0 <= i < k ==> is_digit(#[trigger] encoded[i])
            &&& k > 1 ==> encoded[0] != 48
        }),
        bencode(Node::List(items)) == seq![108u8] + encodings(items).flatten() + seq![101u8],
        bencode(Node::Dict(entries)) == seq![100u8] + entry_encodings(entries).flatten()
            + seq![101u8],
{
    let encoded = bencode(Node::Str(bytes));
    let k = encoded.len() - bytes.len() - 1;
    lemma_decimal_value(bytes.len());
    assert(encoded.take(k) =~= decimal(bytes.len()));
    assert(encoded.skip(k + 1) =~= bytes);
    assert forall|i: int| 0 <= i < k implies is_digit(#[trigger] encoded[i]) by {
        assert(encoded[i] == decimal(bytes.len())[i]);
    }
    lemma_items_flatten(items);
    lemma_entries_flatten(entries);
}

/// The encodings of values stand one behind the other.
proof fn lemma_items_flatten(items: Seq<Node>)
    ensures
        bencode_items(items) == encodings(items).flatten(),
    decreases items.len(),
{
    let all = encodings(items);
    if items.len() > 0 {
        let rest = items.drop_first();
        lemma_items_flatten(rest);
        assert(all.drop_first() =~= encodings(rest));
        assert(all.first() == bencode(items[0]));
    } else {
        assert(bencode_items(items) =~= all.flatten());
    }
}

/// The encodings of entries stand one behind the other.
proof fn lemma_entries_flatten(entries: Seq<(Seq<u8>, Node)>)
    ensures
        bencode_entries(entries) == entry_encodings(entries).flatten(),
    decreases entries.len(),
{
    let all = entry_encodings(entries);
    if entries.len() > 0 {
        let rest = entries.drop_first();
        lemma_entries_flatten(rest);
        assert(all.drop_first() =~= entry_encodings(rest));
        assert(all.first() == bencode(Node::Str(entries[0].0)) + bencode(entries[0].1));
    } else {
        assert(bencode_entries(entries) =~= all.flatten());
    }
}

/// The encoding tells values apart: different values have different encodings, and neither
/// encoding begins the other.
pub proof fn encoding_tells_values_apart(v: Node, w: Node)
    requires
        canonical(v),
        canonical(w),
        v != w,
    ensures
        bencode(v) != bencode(w),
        !bencode(v).is_prefix_of(bencode(w)),
        !bencode(w).is_prefix_of(bencode(v)),
{
    let (a, b) = (bencode(v), bencode(w));
    if a.is_prefix_of(b) {
        assert(a + b.skip(a.len() as int) =~= b + Seq::<u8>::empty());
        lemma_bencode_unique(v, w, b.skip(a.len() as int), Seq::empty());
    }
    if b.is_prefix_of(a) {
        assert(b + a.skip(b.len() as int) =~= a + Seq::<u8>::empty());
        lemma_bencode_unique(w, v, a.skip(b.len() as int), Seq::empty());
    }
}

/// A value is determined by any bytes that begin with its encoding, and so is what follows it.
pub proof fn lemma_bencode_unique(v: Node, w: Node, x: Seq<u8>, y: Seq<u8>)
    requires
        canonical(v),
        canonical(w),
        bencode(v) + x == bencode(w) + y,
    ensures
        v == w,
        x == y,
    decreases v,
{
    lemma_first_byte(v);
    lemma_first_byte(w);
    assert((bencode(v) + x)[0] == bencode(v)[0]);
    assert((bencode(w) + y)[0] == bencode(w)[0]);
    match (v, w) {
        (Node::Num(a), Node::Num(b)) => {
            lemma_number_bytes(a);
            lemma_number_bytes(b);
            assert((bencode(v) + x).skip(1) =~= a + seq![101u8] + x);
            assert((bencode(w) + y).skip(1) =~= b + seq![101u8] + y);
            lemma_split_at_byte(a, b, 101, x, y);
        },
        (Node::Str(a), Node::Str(b)) => {
            lemma_bytes_unique(a, b, x, y);
        },
        (Node::List(a), Node::List(b)) => {
            assert((bencode(v) + x).skip(1) =~= bencode_items(a) + (seq![101u8] + x));
            assert((bencode(w) + y).skip(1) =~= bencode_items(b) + (seq![101u8] + y));
            lemma_items_unique(a, b, x, y);
        },
        (Node::Dict(a), Node::Dict(b)) => {
            assert((bencode(v) + x).skip(1) =~= bencode_entries(a) + (seq![101u8] + x));
            assert((bencode(w) + y).skip(1) =~= bencode_entries(b) + (seq![101u8] + y));
            lemma_entries_unique(a, b, x, y);
        },
        _ => {},
    }
}

/// Values are determined by their encodings with an `e` behind them.
proof fn lemma_items_unique(a: Seq<Node>, b: Seq<Node>, x: Seq<u8>, y: Seq<u8>)
    requires
        canonical_items(a),
        canonical_items(b),
        bencode_items(a) + (seq![101u8] + x) == bencode_items(b) + (seq![101u8] + y),
    ensures
        a == b,
        x == y,
    decreases a,
{
    let ex = seq![101u8] + x;
    let ey = seq![101u8] + y;
    if a.len() > 0 && b.len() > 0 {
        let (ra, rb) = (bencode_items(a.drop_first()) + ex, bencode_items(b.drop_first()) + ey);
        assert(bencode_items(a) + ex =~= bencode(a[0]) + ra);
        assert(bencode_items(b) + ey =~= bencode(b[0]) + rb);
        lemma_bencode_unique(a[0], b[0], ra, rb);
        lemma_items_unique(a.drop_first(), b.drop_first(), x, y);
        assert(a =~= seq![a[0]] + a.drop_first());
        assert(b =~= seq![b[0]] + b.drop_first());
    } else if a.len() > 0 {
        lemma_first_byte(a[0]);
        assert((bencode_items(a) + ex)[0] == bencode(a[0])[0]);
        assert((bencode_items(b) + ey)[0] == 101);
    } else if b.len() > 0 {
        lemma_first_byte(b[0]);
        assert((bencode_items(b) + ey)[0] == bencode(b[0])[0]);
        assert((bencode_items(a) + ex)[0] == 101);
    } else {
        assert(a =~= b);
        assert(bencode_items(a) + ex =~= ex);
        assert(bencode_items(b) + ey =~= ey);
        assert(x =~= ex.skip(1));
        assert(y =~= ey.skip(1));
    }
}

/// Keys and values are determined by their encodings with an `e` behind them.
#[verifier::rlimit(30)]
proof fn lemma_entries_unique(
    a: Seq<(Seq<u8>, Node)>,
    b: Seq<(Seq<u8>, Node)>,
    x: Seq<u8>,
    y: Seq<u8>,
)
    requires
        canonical_entries(a),
        canonical_entries(b),
        bencode_entries(a) + (seq![101u8] + x) == bencode_entries(b) + (seq![101u8] + y),
    ensures
        a == b,
        x == y,
    decreases a,
{
    let ex = seq![101u8] + x;
    let ey = seq![101u8] + y;
    if a.len() > 0 {
        lemma_first_byte(Node::Str(a[0].0));
        assert((bencode_entries(a) + ex)[0] == bencode_bytes(a[0].0)[0]);
    }
    if b.len() > 0 {
        lemma_first_byte(Node::Str(b[0].0));
        assert((bencode_entries(b) + ey)[0] == bencode_bytes(b[0].0)[0]);
    }
    if a.len() > 0 && b.len() > 0 {
        let (ra, rb) = (
            bencode_entries(a.drop_first()) + ex,
            bencode_entries(b.drop_first()) + ey,
        );
        assert(bencode_entries(a) + ex =~= bencode_bytes(a[0].0) + (bencode(a[0].1) + ra));
        assert(bencode_entries(b) + ey =~= bencode_bytes(b[0].0) + (bencode(b[0].1) + rb));
        lemma_bytes_unique(a[0].0, b[0].0, bencode(a[0].1) + ra, bencode(b[0].1) + rb);
        lemma_bencode_unique(a[0].1, b[0].1, ra, rb);
        lemma_entries_unique(a.drop_first(), b.drop_first(), x, y);
        assert(a =~= seq![a[0]] + a.drop_first());
        assert(b =~= seq![b[0]] + b.drop_first());
    } else if a.len() > 0 {
        assert((bencode_entries(b) + ey)[0] == 101);
    } else if b.len() > 0 {
        assert((bencode_entries(a) + ex)[0] == 101);
    } else {
        assert(a =~= b);
        assert(bencode_entries(a) + ex =~= ex);
        assert(bencode_entries(b) + ey =~= ey);
        assert(x =~= ex.skip(1));
        assert(y =~= ey.skip(1));
    }
}

// ---- tokens tell values apart ----

/// The first token tells what kind of value follows.
proof fn lemma_first_token(v: Node)
    ensures
        tokens_of(v).len() > 0,
        match v {
            Node::Num(text) => tokens_of(v)[0] == Tok::Num(text),
            Node::Str(bytes) => tokens_of(v)[0] == Tok::Str(bytes),
            Node::List(_) => tokens_of(v)[0] == Tok::List,
            Node::Dict(_) => tokens_of(v)[0] == Tok::Dict,
        },
{
}

/// A value is determined by any tokens that begin with its own, and so is what follows it.
pub proof fn lemma_tokens_unique(v: Node, w: Node, x: Seq<Tok>, y: Seq<Tok>)
    requires
        tokens_of(v) + x == tokens_of(w) + y,
    ensures
        v == w,
        x == y,
    decreases v,
{
    lemma_first_token(v);
    lemma_first_token(w);
    assert((tokens_of(v) + x)[0] == tokens_of(v)[0]);
    assert((tokens_of(w) + y)[0] == tokens_of(w)[0]);
    match (v, w) {
        (Node::List(a), Node::List(b)) => {
            assert((tokens_of(v) + x).skip(1) =~= tokens_of_items(a) + (seq![Tok::End] + x));
            assert((tokens_of(w) + y).skip(1) =~= tokens_of_items(b) + (seq![Tok::End] + y));
            lemma_item_tokens_unique(a, b, x, y);
        },
        (Node::Dict(a), Node::Dict(b)) => {
            assert((tokens_of(v) + x).skip(1) =~= tokens_of_entries(a) + (seq![Tok::End] + x));
            assert((tokens_of(w) + y).skip(1) =~= tokens_of_entries(b) + (seq![Tok::End] + y));
            lemma_entry_tokens_unique(a, b, x, y);
        },
        _ => {
            assert(x =~= (tokens_of(v) + x).skip(1));
            assert(y =~= (tokens_of(w) + y).skip(1));
        },
    }
}

/// Values are determined by their tokens with an end behind them.
proof fn lemma_item_tokens_unique(a: Seq<Node>, b: Seq<Node>, x: Seq<Tok>, y: Seq<Tok>)
    requires
        tokens_of_items(a) + (seq![Tok::End] + x) == tokens_of_items(b) + (seq![Tok::End] + y),
    ensures
        a == b,
        x == y,
    decreases a,
{
    let ex = seq![Tok::End] + x;
    let ey = seq![Tok::End] + y;
    if a.len() > 0 {
        lemma_first_token(a[0]);
        assert((tokens_of_items(a) + ex)[0] == tokens_of(a[0])[0]);
    } else {
        assert(tokens_of_items(a) + ex =~= ex);
    }
    if b.len() > 0 {
        lemma_first_token(b[0]);
        assert((tokens_of_items(b) + ey)[0] == tokens_of(b[0])[0]);
    } else {
        assert(tokens_of_items(b) + ey =~= ey);
    }
    if a.len() > 0 && b.len() > 0 {
        let (ra, rb) = (
            tokens_of_items(a.drop_first()) + ex,
            tokens_of_items(b.drop_first()) + ey,
        );
        assert(tokens_of_items(a) + ex =~= tokens_of(a[0]) + ra);
        assert(tokens_of_items(b) + ey =~= tokens_of(b[0]) + rb);
        lemma_tokens_unique(a[0], b[0], ra, rb);
        lemma_item_tokens_unique(a.drop_first(), b.drop_first(), x, y);
        assert(a =~= seq![a[0]] + a.drop_first());
        assert(b =~= seq![b[0]] + b.drop_first());
    } else {
        assert(a =~= b);
        assert(x =~= ex.skip(1));
        assert(y =~= ey.skip(1));
    }
}

/// Keys and values are determined by their tokens with an end behind them.
proof fn lemma_entry_tokens_unique(
    a: Seq<(Seq<u8>, Node)>,
    b: Seq<(Seq<u8>, Node)>,
    x: Seq<Tok>,
    y: Seq<Tok>,
)
    requires
        tokens_of_entries(a) + (seq![Tok::End] + x) == tokens_of_entries(b) + (seq![Tok::End] + y),
    ensures
        a == b,
        x == y,
    decreases a,
{
    let ex = seq![Tok::End] + x;
    let ey = seq![Tok::End] + y;
    if a.len() > 0 {
        assert((tokens_of_entries(a) + ex)[0] == Tok::Str(a[0].0));
    } else {
        assert(tokens_of_entries(a) + ex =~= ex);
    }
    if b.len() > 0 {
        assert((tokens_of_entries(b) + ey)[0] == Tok::Str(b[0].0));
    } else {
        assert(tokens_of_entries(b) + ey =~= ey);
    }
    if a.len() > 0 && b.len() > 0 {
        let (ra, rb) = (
            tokens_of_entries(a.drop_first()) + ex,
            tokens_of_entries(b.drop_first()) + ey,
        );
        assert((tokens_of_entries(a) + ex).skip(1) =~= tokens_of(a[0].1) + ra);
        assert((tokens_of_entries(b) + ey).skip(1) =~= tokens_of(b[0].1) + rb);
        lemma_tokens_unique(a[0].1, b[0].1, ra, rb);
        lemma_entry_tokens_unique(a.drop_first(), b.drop_first(), x, y);
        assert(a =~= seq![a[0]] + a.drop_first());
        assert(b =~= seq![b[0]] + b.drop_first());
    } else {
        assert(a =~= b);
        assert(x =~= ex.skip(1));
        assert(y =~= ey.skip(1));
    }
}

// ---- the order of keys ----

/// Two byte strings that first differ at `k`, or of which the first ends there, are in order.
pub proof fn lemma_bytes_less_at(a: Seq<u8>, b: Seq<u8>, k: int)
    requires
        0 <= k <= a.len(),
        k < b.len(),
        a.take(k) == b.take(k),
        k < a.len() ==> a[k] < b[k],
    ensures
        bytes_less(a, b),
    decreases k,
{
    if k > 0 {
        assert(a[0] == a.take(k)[0] && b[0] == b.take(k)[0]);
        assert(a.skip(1).take(k - 1) =~= a.take(k).skip(1));
        assert(b.skip(1).take(k - 1) =~= b.take(k).skip(1));
        lemma_bytes_less_at(a.skip(1), b.skip(1), k - 1);
    }
}

/// Whether two byte strings first differ at `k`, where the first is smaller or has ended.
pub open spec fn first_differs_at(a: Seq<u8>, b: Seq<u8>, k: int) -> bool {
    &&& 0 <= k <= a.len()
    &&& k < b.len()
    &&& a.take(k) == b.take(k)
    &&& k < a.len() ==> a[k] < b[k]
}

/// A byte string comes before another if and only if it is smaller at the first place where they
/// differ, or has ended there.
pub proof fn order_is_that_of_the_bytes(a: Seq<u8>, b: Seq<u8>)
    ensures
        bytes_less(a, b) <==> exists|k: int| #[trigger] first_differs_at(a, b, k),
    decreases a.len(),
{
    if exists|k: int| #[trigger] first_differs_at(a, b, k) {
        let k = choose|k: int| #[trigger] first_differs_at(a, b, k);
        lemma_bytes_less_at(a, b, k);
    }
    if bytes_less(a, b) {
        if a.len() == 0 || a[0] < b[0] {
            assert(a.take(0) =~= b.take(0));
            assert(first_differs_at(a, b, 0));
        } else {
            let (x, y) = (a.skip(1), b.skip(1));
            order_is_that_of_the_bytes(x, y);
            let k = choose|k: int| #[trigger] first_differs_at(x, y, k);
            assert(a.take(k + 1) =~= seq![a[0]] + x.take(k));
            assert(b.take(k + 1) =~= seq![b[0]] + y.take(k));
            assert(first_differs_at(a, b, k + 1));
        }
    }
}

/// The order of byte strings is transitive and strict.
pub proof fn lemma_bytes_less_transitive(a: Seq<u8>, b: Seq<u8>, c: Seq<u8>)
    requires
        bytes_less(a, b),
        bytes_less(b, c),
    ensures
        bytes_less(a, c),
    decreases a.len(),
{
    if a.len() > 0 && a[0] == b[0] && b[0] == c[0] {
        lemma_bytes_less_transitive(a.skip(1), b.skip(1), c.skip(1));
    }
}

/// Two byte strings are the same, or one of them comes first, and not the other too.
pub proof fn lemma_bytes_less_total(a: Seq<u8>, b: Seq<u8>)
    ensures
        a == b || bytes_less(a, b) || bytes_less(b, a),
        bytes_less(a, b) ==> !bytes_less(b, a) && a != b,
    decreases a.len(),
{
    if a.len() > 0 && b.len() > 0 {
        lemma_bytes_less_total(a.skip(1), b.skip(1));
        assert(a =~= seq![a[0]] + a.skip(1));
        assert(b =~= seq![b[0]] + b.skip(1));
    } else if a.len() == 0 && b.len() == 0 {
        assert(a =~= b);
    }
}

/// A dictionary with one more entry, in the place of its key; an entry with that key is replaced.
pub open spec fn inserted(entries: Seq<(Seq<u8>, Node)>, key: Seq<u8>, v: Node) -> Seq<
    (Seq<u8>, Node),
>
    decreases entries.len(),
{
    if entries.len() == 0 {
        seq![(key, v)]
    } else if bytes_less(key, entries[0].0) {
        seq![(key, v)] + entries
    } else if key == entries[0].0 {
        seq![(key, v)] + entries.drop_first()
    } else {
        seq![entries[0]] + inserted(entries.drop_first(), key, v)
    }
}

/// Whether a dictionary has this value under this key.
pub open spec fn has_entry(entries: Seq<(Seq<u8>, Node)>, key: Seq<u8>, v: Node) -> bool {
    exists|i: int| 0 <= i < entries.len() && #[trigger] entries[i] == (key, v)
}

/// Inserting puts the value under its key, in place of any other, and leaves all other entries.
pub proof fn inserting_keeps_the_others(
    entries: Seq<(Seq<u8>, Node)>,
    key: Seq<u8>,
    v: Node,
    other_key: Seq<u8>,
    w: Node,
)
    requires
        keys_ascend(entries),
    ensures
        has_entry(inserted(entries, key, v), other_key, w) <==> if other_key == key {
            w == v
        } else {
            has_entry(entries, other_key, w)
        },
    decreases entries.len(),
{
    let after = inserted(entries, key, v);
    if entries.len() == 0 {
        assert(after[0] == (key, v));
    } else {
        let rest = entries.drop_first();
        assert forall|i: int| 0 <= i < rest.len() - 1 implies bytes_less(
            #[trigger] rest[i].0,
            rest[i + 1].0,
        ) by {
            assert(rest[i] == entries[i + 1] && rest[i + 1] == entries[(i + 1) + 1]);
            assert(bytes_less(entries[i + 1].0, entries[(i + 1) + 1].0));
        }
        if bytes_less(key, entries[0].0) {
            assert(after[0] == (key, v));
            assert forall|i: int| 0 <= i < entries.len() implies after[i + 1]
                == #[trigger] entries[i] && entries[i].0 != key by {
                lemma_first_is_least(entries, i);
                if entries[i].0 == key {
                    lemma_bytes_less_total(key, key);
                    if i > 0 {
                        lemma_bytes_less_transitive(key, entries[0].0, key);
                    }
                }
            }
            assert forall|i: int| 1 <= i < after.len() implies #[trigger] after[i] == entries[i
                - 1] by {}
        } else if key == entries[0].0 {
            assert(after[0] == (key, v));
            assert forall|i: int| 1 <= i < entries.len() implies after[i] == #[trigger] entries[i]
                && entries[i].0 != key by {
                lemma_first_is_least(entries, i);
                lemma_bytes_less_total(key, key);
            }
        } else {
            inserting_keeps_the_others(rest, key, v, other_key, w);
            let behind = inserted(rest, key, v);
            assert(after[0] == entries[0]);
            assert forall|i: int| 0 <= i < behind.len() implies after[i + 1]
                == #[trigger] behind[i] by {}
            assert forall|i: int| 1 <= i < after.len() implies #[trigger] after[i] == behind[i
                - 1] by {}
            assert forall|i: int| 0 <= i < rest.len() implies entries[i + 1]
                == #[trigger] rest[i] by {}
            assert forall|i: int| 1 <= i < entries.len() implies #[trigger] entries[i] == rest[i
                - 1] by {}
        }
    }
}

/// The first key of a dictionary is the least.
proof fn lemma_first_is_least(entries: Seq<(Seq<u8>, Node)>, i: int)
    requires
        keys_ascend(entries),
        0 <= i < entries.len(),
    ensures
        i > 0 ==> bytes_less(entries[0].0, entries[i].0),
    decreases i,
{
    if i > 0 {
        assert(bytes_less(entries[i - 1].0, entries[(i - 1) + 1].0));
        if i > 1 {
            lemma_first_is_least(entries, i - 1);
            lemma_bytes_less_transitive(entries[0].0, entries[i - 1].0, entries[i].0);
        }
    }
}

/// Where the place of a key is.
pub proof fn lemma_inserted_at(entries: Seq<(Seq<u8>, Node)>, key: Seq<u8>, v: Node, k: int)
    requires
        0 <= k <= entries.len(),
        forall|i: int| 0 <= i < k ==> bytes_less(#[trigger] entries[i].0, key),
        k < entries.len() ==> !bytes_less(entries[k].0, key),
    ensures
        inserted(entries, key, v) == entries.take(k) + seq![(key, v)] + entries.skip(
            if k < entries.len() && entries[k].0 == key {
                k + 1
            } else {
                k
            },
        ),
    decreases k,
{
    let rest = entries.drop_first();
    if k > 0 {
        assert(bytes_less(entries[0].0, key));
        lemma_bytes_less_total(entries[0].0, key);
        assert forall|i: int| 0 <= i < k - 1 implies bytes_less(#[trigger] rest[i].0, key) by {
            assert(rest[i] == entries[i + 1]);
        }
        lemma_inserted_at(rest, key, v, k - 1);
        assert(entries.take(k) =~= seq![entries[0]] + rest.take(k - 1));
        assert(entries.skip(k) =~= rest.skip(k - 1));
        if k < entries.len() {
            assert(entries.skip(k + 1) =~= rest.skip(k));
        }
        assert(inserted(entries, key, v) =~= entries.take(k) + seq![(key, v)] + entries.skip(
            if k < entries.len() && entries[k].0 == key {
                k + 1
            } else {
                k
            },
        ));
    } else if entries.len() > 0 {
        lemma_bytes_less_total(entries[0].0, key);
        assert(entries.take(0) + seq![(key, v)] =~= seq![(key, v)]);
        assert(entries.skip(0) =~= entries);
        assert(entries.skip(1) =~= rest);
    } else {
        assert(inserted(entries, key, v) =~= entries.take(0) + seq![(key, v)] + entries.skip(0));
    }
}

/// Inserting keeps the keys in order.
pub proof fn lemma_inserted_ascends(entries: Seq<(Seq<u8>, Node)>, key: Seq<u8>, v: Node)
    requires
        keys_ascend(entries),
    ensures
        keys_ascend(inserted(entries, key, v)),
        inserted(entries, key, v).len() > 0,
        entries.len() > 0 && inserted(entries, key, v)[0].0 != key ==> inserted(
            entries,
            key,
            v,
        )[0].0 == entries[0].0,
    decreases entries.len(),
{
    let result = inserted(entries, key, v);
    if entries.len() > 0 {
        lemma_bytes_less_total(key, entries[0].0);
        let rest = entries.drop_first();
        assert forall|i: int| 0 <= i < rest.len() - 1 implies bytes_less(
            #[trigger] rest[i].0,
            rest[i + 1].0,
        ) by {
            assert(rest[i] == entries[i + 1]);
            assert(rest[i + 1] == entries[i + 2]);
        }
        lemma_inserted_ascends(rest, key, v);
        assert forall|i: int| 0 <= i < result.len() - 1 implies bytes_less(
            #[trigger] result[i].0,
            result[i + 1].0,
        ) by {
            if bytes_less(key, entries[0].0) {
                if i > 0 {
                    assert(result[i] == entries[i - 1]);
                    assert(result[i + 1] == entries[i]);
                } else {
                    assert(result[1] == entries[0]);
                }
            } else if key == entries[0].0 {
                assert(result[i + 1] == entries[i + 1]);
                assert(result[i].0 == entries[i].0);
            } else {
                let tail = inserted(rest, key, v);
                assert(result[i + 1] == tail[i]);
                if i > 0 {
                    assert(result[i] == tail[i - 1]);
                } else {
                    assert(bytes_less(entries[0].0, key));
                    if rest.len() > 0 {
                        assert(bytes_less(entries[0].0, entries[1].0));
                        assert(rest[0] == entries[1]);
                    }
                }
            }
        }
    }
}

/// An entry whose key comes last is inserted behind all others.
pub proof fn lemma_inserted_last(entries: Seq<(Seq<u8>, Node)>, key: Seq<u8>, v: Node)
    requires
        keys_ascend(entries),
        entries.len() > 0 ==> bytes_less(entries.last().0, key),
    ensures
        inserted(entries, key, v) == entries.push((key, v)),
    decreases entries.len(),
{
    if entries.len() > 0 {
        let rest = entries.drop_first();
        assert forall|i: int| 0 <= i < rest.len() - 1 implies bytes_less(
            #[trigger] rest[i].0,
            rest[i + 1].0,
        ) by {
            assert(rest[i] == entries[i + 1]);
            assert(rest[i + 1] == entries[i + 2]);
        }
        lemma_inserted_last(rest, key, v);
        assert(bytes_less(entries[0].0, key)) by {
            lemma_first_less_than_last(entries);
            if entries.len() > 1 {
                lemma_bytes_less_transitive(entries[0].0, entries.last().0, key);
            }
        }
        lemma_bytes_less_total(entries[0].0, key);
        assert(seq![entries[0]] + rest.push((key, v)) =~= entries.push((key, v)));
    } else {
        assert(inserted(entries, key, v) =~= entries.push((key, v)));
    }
}

/// The first key comes before the last.
proof fn lemma_first_less_than_last(entries: Seq<(Seq<u8>, Node)>)
    requires
        keys_ascend(entries),
    ensures
        entries.len() > 1 ==> bytes_less(entries[0].0, entries.last().0),
    decreases entries.len(),
{
    if entries.len() > 1 {
        let start = entries.drop_last();
        assert forall|i: int| 0 <= i < start.len() - 1 implies bytes_less(
            #[trigger] start[i].0,
            start[i + 1].0,
        ) by {
            assert(start[i] == entries[i]);
            assert(start[i + 1] == entries[i + 1]);
        }
        lemma_first_less_than_last(start);
        let k = entries.len() - 2;
        assert(bytes_less(entries[k].0, entries[k + 1].0));
        if start.len() > 1 {
            lemma_bytes_less_transitive(entries[0].0, start.last().0, entries.last().0);
        }
    }
}

/// Compares two byte strings.
pub fn is_bytes_less(a: &[u8], b: &[u8]) -> (less: bool)
    ensures
        less == bytes_less(a@, b@),
{
    let mut i: usize = 0;
    assert(a@.skip(0) =~= a@);
    assert(b@.skip(0) =~= b@);
    while i < a.len() && i < b.len()
        invariant
            i <= a@.len(),
            i <= b@.len(),
            bytes_less(a@.skip(i as int), b@.skip(i as int)) == bytes_less(a@, b@),
        decreases a@.len() - i,
    {
        assert(a@.skip(i as int).skip(1) =~= a@.skip(i + 1));
        assert(b@.skip(i as int).skip(1) =~= b@.skip(i + 1));
        if a[i] != b[i] {
            return a[i] < b[i];
        }
        i = i + 1;
    }
    i < b.len()
}

} // verus!
