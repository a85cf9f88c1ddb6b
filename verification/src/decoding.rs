//! Reading a bencoded value: the outside decoder yields tokens, and the value is built of them.

use bendy::decoding::Decoder;
use bendy::state_tracker::Token as RawToken;
use vstd::prelude::*;

use crate::bencoding::{
    bencode, canonical, depth, lemma_bencode_unique, lemma_tokens_unique, tokens_of,
    tokens_of_entries, tokens_of_items, Node, Tok,
};

verus! {

/// A token of the bencoding.
pub enum Token {
    Number(Vec<u8>),
    Bytes(Vec<u8>),
    List,
    Dict,
    End,
}

impl View for Token {
    type V = Tok;

    open spec fn view(&self) -> Tok {
        match *self {
            Token::Number(text) => Tok::Num(text@),
            Token::Bytes(bytes) => Tok::Str(bytes@),
            Token::List => Tok::List,
            Token::Dict => Tok::Dict,
            Token::End => Tok::End,
        }
    }
}

/// The meaning of a list of tokens.
pub open spec fn toks(tokens: Seq<Token>) -> Seq<Tok> {
    Seq::new(tokens.len(), |i: int| tokens[i]@)
}

/// Whether data begins with the encoding of a value that is nested at most `max_depth` deep.
pub open spec fn begins_with(data: Seq<u8>, v: Node, max_depth: nat) -> bool {
    canonical(v) && depth(v) <= max_depth && bencode(v).is_prefix_of(data)
}

/// `bendy::decoding::Decoder::tokens`, with `Decoder::with_max_depth`, up to the first error. The
/// tokens begin with those of a value if and only if the data begins with the encoding of that
/// value, which has numbers without leading zeros, keys in order, none of them twice, and is
/// nested no deeper than allowed.
#[verifier::external_body]
fn read_tokens(data: &[u8], max_depth: usize) -> (tokens: Vec<Token>)
    ensures
        forall|v: Node| #[trigger]
            tokens_of(v).is_prefix_of(toks(tokens@)) <==> begins_with(data@, v, max_depth as nat),
{
    let tokens = Decoder::new(data).with_max_depth(max_depth).tokens().map_while(Result::ok);
    tokens.map(
        |token| match token {
            RawToken::Num(text) => Token::Number(text.as_bytes().to_vec()),
            RawToken::String(bytes) => Token::Bytes(bytes.to_vec()),
            RawToken::List => Token::List,
            RawToken::Dict => Token::Dict,
            RawToken::End => Token::End,
        },
    ).collect()
}

/// A bencoded value that was read.
pub enum Value {
    Number(Vec<u8>),
    Bytes(Vec<u8>),
    List(Vec<Value>),
    Dict(Vec<(Vec<u8>, Value)>),
}

impl Value {
    /// The meaning of a value.
    pub open spec fn node(self) -> Node
        decreases self,
    {
        match self {
            Value::Number(text) => Node::Num(text@),
            Value::Bytes(bytes) => Node::Str(bytes@),
            Value::List(items) => Node::List(
                Seq::new(
                    items@.len(),
                    |i: int|
                        if 0 <= i < items@.len() {
                            items@[i].node()
                        } else {
                            arbitrary()
                        },
                ),
            ),
            Value::Dict(entries) => Node::Dict(
                Seq::new(
                    entries@.len(),
                    |i: int|
                        if 0 <= i < entries@.len() {
                            (entries@[i].0@, entries@[i].1.node())
                        } else {
                            arbitrary()
                        },
                ),
            ),
        }
    }
}

/// The meanings of the values of a list.
pub open spec fn nodes(items: Seq<Value>) -> Seq<Node> {
    Seq::new(items.len(), |i: int| items[i].node())
}

/// The meanings of the entries of a dictionary.
pub open spec fn entry_nodes(entries: Seq<(Vec<u8>, Value)>) -> Seq<(Seq<u8>, Node)> {
    Seq::new(entries.len(), |i: int| (entries[i].0@, entries[i].1.node()))
}

/// The meaning of a list is that of its values.
pub proof fn lemma_list_node(items: Vec<Value>)
    ensures
        Value::List(items).node() == Node::List(nodes(items@)),
{
    if let Node::List(s) = Value::List(items).node() {
        assert(s =~= nodes(items@));
    }
}

/// The meaning of a dictionary is that of its entries.
pub proof fn lemma_dict_node(entries: Vec<(Vec<u8>, Value)>)
    ensures
        Value::Dict(entries).node() == Node::Dict(entry_nodes(entries@)),
{
    if let Node::Dict(s) = Value::Dict(entries).node() {
        assert(s =~= entry_nodes(entries@));
    }
}

/// The tokens of one more value stand behind those before it.
proof fn lemma_item_tokens_push(items: Seq<Node>, v: Node)
    ensures
        tokens_of_items(items.push(v)) == tokens_of_items(items) + tokens_of(v),
    decreases items.len(),
{
    let all = items.push(v);
    if items.len() == 0 {
        assert(all.drop_first() =~= Seq::<Node>::empty());
        assert(tokens_of_items(all.drop_first()) =~= Seq::<Tok>::empty());
        assert(tokens_of_items(all) =~= tokens_of_items(items) + tokens_of(v));
    } else {
        assert(all.drop_first() =~= items.drop_first().push(v));
        lemma_item_tokens_push(items.drop_first(), v);
        assert(tokens_of_items(all) =~= tokens_of_items(items) + tokens_of(v));
    }
}

/// The tokens of one more entry stand behind those before it.
proof fn lemma_entry_tokens_push(entries: Seq<(Seq<u8>, Node)>, key: Seq<u8>, v: Node)
    ensures
        tokens_of_entries(entries.push((key, v))) == tokens_of_entries(entries) + (seq![
            Tok::Str(key),
        ] + tokens_of(v)),
    decreases entries.len(),
{
    let all = entries.push((key, v));
    if entries.len() == 0 {
        assert(all.drop_first() =~= Seq::<(Seq<u8>, Node)>::empty());
        assert(tokens_of_entries(all.drop_first()) =~= Seq::<Tok>::empty());
        assert(tokens_of_entries(all) =~= tokens_of_entries(entries) + (seq![Tok::Str(key)]
            + tokens_of(v)));
    } else {
        assert(all.drop_first() =~= entries.drop_first().push((key, v)));
        lemma_entry_tokens_push(entries.drop_first(), key, v);
        assert(tokens_of_entries(all) =~= tokens_of_entries(entries) + (seq![Tok::Str(key)]
            + tokens_of(v)));
    }
}

/// A list that begins with these values goes on with the rest of its values and its end.
proof fn lemma_items_continue(items: Seq<Node>, all: Seq<Node>, rest: Seq<Tok>, x: Seq<Tok>)
    requires
        tokens_of_items(items) + rest == tokens_of_items(all) + (seq![Tok::End] + x),
    ensures
        items.len() <= all.len(),
        rest == tokens_of_items(all.skip(items.len() as int)) + (seq![Tok::End] + x),
    decreases items.len(),
{
    let ex = seq![Tok::End] + x;
    if items.len() == 0 {
        assert(tokens_of_items(items) + rest =~= rest);
        assert(all.skip(0) =~= all);
    } else if all.len() == 0 {
        assert((tokens_of_items(items) + rest)[0] == tokens_of(items[0])[0]);
        assert((tokens_of_items(all) + ex)[0] == Tok::End);
    } else {
        let a = tokens_of_items(items.drop_first()) + rest;
        let b = tokens_of_items(all.drop_first()) + ex;
        assert(tokens_of_items(items) + rest =~= tokens_of(items[0]) + a);
        assert(tokens_of_items(all) + ex =~= tokens_of(all[0]) + b);
        lemma_tokens_unique(items[0], all[0], a, b);
        lemma_items_continue(items.drop_first(), all.drop_first(), rest, x);
        assert(all.drop_first().skip(items.len() - 1) =~= all.skip(items.len() as int));
    }
}

/// A dictionary that begins with these entries goes on with the rest of its entries and its end.
proof fn lemma_entries_continue(
    entries: Seq<(Seq<u8>, Node)>,
    all: Seq<(Seq<u8>, Node)>,
    rest: Seq<Tok>,
    x: Seq<Tok>,
)
    requires
        tokens_of_entries(entries) + rest == tokens_of_entries(all) + (seq![Tok::End] + x),
    ensures
        entries.len() <= all.len(),
        rest == tokens_of_entries(all.skip(entries.len() as int)) + (seq![Tok::End] + x),
    decreases entries.len(),
{
    let ex = seq![Tok::End] + x;
    if entries.len() == 0 {
        assert(tokens_of_entries(entries) + rest =~= rest);
        assert(all.skip(0) =~= all);
    } else if all.len() == 0 {
        assert((tokens_of_entries(entries) + rest)[0] == Tok::Str(entries[0].0));
        assert((tokens_of_entries(all) + ex)[0] == Tok::End);
    } else {
        let a = tokens_of_entries(entries.drop_first()) + rest;
        let b = tokens_of_entries(all.drop_first()) + ex;
        assert((tokens_of_entries(entries) + rest).skip(1) =~= tokens_of(entries[0].1) + a);
        assert((tokens_of_entries(all) + ex).skip(1) =~= tokens_of(all[0].1) + b);
        lemma_tokens_unique(entries[0].1, all[0].1, a, b);
        lemma_entries_continue(entries.drop_first(), all.drop_first(), rest, x);
        assert(all.drop_first().skip(entries.len() - 1) =~= all.skip(entries.len() as int));
    }
}

/// Where a list was begun and these values of it were read, no value stands at the beginning if
/// what follows is neither an end nor a value.
proof fn lemma_no_list(all: Seq<Tok>, items: Seq<Node>, rest: Seq<Tok>)
    requires
        all == seq![Tok::List] + tokens_of_items(items) + rest,
        rest.len() > 0 ==> rest[0] != Tok::End,
        forall|v: Node| !(#[trigger] tokens_of(v)).is_prefix_of(rest),
    ensures
        forall|v: Node| !(#[trigger] tokens_of(v)).is_prefix_of(all),
{
    assert forall|v: Node| !(#[trigger] tokens_of(v)).is_prefix_of(all) by {
        if tokens_of(v).is_prefix_of(all) {
            let x = all.skip(tokens_of(v).len() as int);
            assert(all =~= tokens_of(v) + x);
            assert(tokens_of(v)[0] == all[0]);
            if let Node::List(b) = v {
                assert(all.skip(1) =~= tokens_of_items(items) + rest);
                assert(all.skip(1) =~= tokens_of_items(b) + (seq![Tok::End] + x));
                lemma_items_continue(items, b, rest, x);
                let more = b.skip(items.len() as int);
                if more.len() > 0 {
                    assert(tokens_of(more[0]).is_prefix_of(rest)) by {
                        assert(rest =~= tokens_of(more[0]) + (tokens_of_items(more.drop_first())
                            + (seq![Tok::End] + x)));
                        assert(tokens_of(more[0]) =~= rest.take(tokens_of(more[0]).len() as int));
                    }
                } else {
                    assert(rest[0] == Tok::End);
                }
            }
        }
    }
}

/// Where a dictionary was begun and these entries of it were read, no value stands at the
/// beginning if what follows is neither an end nor a key with a value.
proof fn lemma_no_dict(all: Seq<Tok>, entries: Seq<(Seq<u8>, Node)>, rest: Seq<Tok>)
    requires
        all == seq![Tok::Dict] + tokens_of_entries(entries) + rest,
        rest.len() > 0 ==> rest[0] != Tok::End,
        rest.len() > 0 && rest[0] is Str ==> forall|v: Node|
            !(#[trigger] tokens_of(v)).is_prefix_of(rest.skip(1)),
    ensures
        forall|v: Node| !(#[trigger] tokens_of(v)).is_prefix_of(all),
{
    assert forall|v: Node| !(#[trigger] tokens_of(v)).is_prefix_of(all) by {
        if tokens_of(v).is_prefix_of(all) {
            let x = all.skip(tokens_of(v).len() as int);
            assert(all =~= tokens_of(v) + x);
            assert(tokens_of(v)[0] == all[0]);
            if let Node::Dict(b) = v {
                assert(all.skip(1) =~= tokens_of_entries(entries) + rest);
                assert(all.skip(1) =~= tokens_of_entries(b) + (seq![Tok::End] + x));
                lemma_entries_continue(entries, b, rest, x);
                let more = b.skip(entries.len() as int);
                if more.len() > 0 {
                    assert(rest[0] == Tok::Str(more[0].0));
                    let first = tokens_of(more[0].1);
                    assert(rest.skip(1) =~= first + (tokens_of_entries(more.drop_first()) + (seq![
                        Tok::End,
                    ] + x)));
                    assert(first =~= rest.skip(1).take(first.len() as int));
                    assert(first.is_prefix_of(rest.skip(1)));
                } else {
                    assert(rest[0] == Tok::End);
                }
            }
        }
    }
}

/// A copy of bytes.
pub(crate) fn copy_bytes(bytes: &[u8]) -> (copy: Vec<u8>)
    ensures
        copy@ == bytes@,
{
    vstd::slice::slice_to_vec(bytes)
}

/// Builds the value whose tokens begin at `pos`. Gives the value and where its tokens end, or
/// nothing if no value begins there.
fn build_value(tokens: &Vec<Token>, pos: usize) -> (r: Option<(Value, usize)>)
    requires
        pos <= tokens@.len(),
    ensures
        match r {
            Some((v, end)) => pos < end <= tokens@.len() && tokens_of(v.node()) == toks(
                tokens@,
            ).subrange(pos as int, end as int),
            None => forall|v: Node|
                !(#[trigger] tokens_of(v)).is_prefix_of(toks(tokens@).skip(pos as int)),
        },
    decreases tokens@.len() - pos, 1int,
{
    let ghost all = toks(tokens@);
    let ghost here = all.skip(pos as int);
    if pos == tokens.len() {
        return None;
    }
    assert(here[0] == tokens@[pos as int]@);
    match &tokens[pos] {
        Token::Number(text) => {
            let v = Value::Number(copy_bytes(text.as_slice()));
            assert(tokens_of(v.node()) =~= all.subrange(pos as int, pos + 1));
            Some((v, pos + 1))
        },
        Token::Bytes(bytes) => {
            let v = Value::Bytes(copy_bytes(bytes.as_slice()));
            assert(tokens_of(v.node()) =~= all.subrange(pos as int, pos + 1));
            Some((v, pos + 1))
        },
        Token::End => {
            proof {
                assert forall|v: Node| !(#[trigger] tokens_of(v)).is_prefix_of(here) by {
                    if tokens_of(v).is_prefix_of(here) {
                        assert(tokens_of(v)[0] == here[0]);
                    }
                }
            }
            None
        },
        Token::List => build_list(tokens, pos),
        Token::Dict => build_dict(tokens, pos),
    }
}

/// Builds the list whose tokens begin at `pos`.
fn build_list(tokens: &Vec<Token>, pos: usize) -> (r: Option<(Value, usize)>)
    requires
        pos < tokens@.len(),
        tokens@[pos as int]@ == Tok::List,
    ensures
        match r {
            Some((v, end)) => pos < end <= tokens@.len() && tokens_of(v.node()) == toks(
                tokens@,
            ).subrange(pos as int, end as int),
            None => forall|v: Node|
                !(#[trigger] tokens_of(v)).is_prefix_of(toks(tokens@).skip(pos as int)),
        },
    decreases tokens@.len() - pos, 0int,
{
    let ghost all = toks(tokens@);
    let mut items: Vec<Value> = Vec::new();
    assert(pos < tokens.len());
    let mut next: usize = pos + 1;
    proof {
        assert(nodes(items@) =~= Seq::<Node>::empty());
        assert(all.subrange(pos + 1, next as int) =~= tokens_of_items(nodes(items@)));
    }
    loop
        invariant
            pos < next <= tokens@.len(),
            all == toks(tokens@),
            tokens@[pos as int]@ == Tok::List,
            all.subrange(pos + 1, next as int) == tokens_of_items(nodes(items@)),
        decreases tokens@.len() - next,
    {
        let ghost rest = all.skip(next as int);
        assert(all.skip(pos as int) =~= seq![Tok::List] + all.subrange(pos + 1, next as int)
            + rest);
        if next < tokens.len() {
            assert(rest[0] == tokens@[next as int]@);
            if let Token::End = tokens[next] {
                let v = Value::List(items);
                proof {
                    lemma_list_node(items);
                    assert(tokens_of(v.node()) =~= all.subrange(pos as int, next + 1));
                }
                return Some((v, next + 1));
            }
        }
        match build_value(tokens, next) {
            Some((item, end)) => {
                let ghost before = nodes(items@);
                items.push(item);
                proof {
                    assert(nodes(items@) =~= before.push(item.node()));
                    lemma_item_tokens_push(before, item.node());
                    assert(all.subrange(pos + 1, end as int) =~= all.subrange(
                        pos + 1,
                        next as int,
                    ) + all.subrange(next as int, end as int));
                }
                next = end;
            },
            None => {
                proof {
                    lemma_no_list(all.skip(pos as int), nodes(items@), rest);
                }
                return None;
            },
        }
    }
}

/// Builds the dictionary whose tokens begin at `pos`.
fn build_dict(tokens: &Vec<Token>, pos: usize) -> (r: Option<(Value, usize)>)
    requires
        pos < tokens@.len(),
        tokens@[pos as int]@ == Tok::Dict,
    ensures
        match r {
            Some((v, end)) => pos < end <= tokens@.len() && tokens_of(v.node()) == toks(
                tokens@,
            ).subrange(pos as int, end as int),
            None => forall|v: Node|
                !(#[trigger] tokens_of(v)).is_prefix_of(toks(tokens@).skip(pos as int)),
        },
    decreases tokens@.len() - pos, 0int,
{
    let ghost all = toks(tokens@);
    let mut entries: Vec<(Vec<u8>, Value)> = Vec::new();
    assert(pos < tokens.len());
    let mut next: usize = pos + 1;
    proof {
        assert(entry_nodes(entries@) =~= Seq::<(Seq<u8>, Node)>::empty());
        assert(all.subrange(pos + 1, next as int) =~= tokens_of_entries(entry_nodes(entries@)));
    }
    loop
        invariant
            pos < next <= tokens@.len(),
            all == toks(tokens@),
            tokens@[pos as int]@ == Tok::Dict,
            all.subrange(pos + 1, next as int) == tokens_of_entries(entry_nodes(entries@)),
        decreases tokens@.len() - next,
    {
        let ghost rest = all.skip(next as int);
        assert(all.skip(pos as int) =~= seq![Tok::Dict] + all.subrange(pos + 1, next as int)
            + rest);
        if next == tokens.len() {
            proof {
                lemma_no_dict(all.skip(pos as int), entry_nodes(entries@), rest);
            }
            return None;
        }
        assert(rest[0] == tokens@[next as int]@);
        let key: Vec<u8> = match &tokens[next] {
            Token::End => {
                let v = Value::Dict(entries);
                proof {
                    lemma_dict_node(entries);
                    assert(tokens_of(v.node()) =~= all.subrange(pos as int, next + 1));
                }
                return Some((v, next + 1));
            },
            Token::Bytes(bytes) => copy_bytes(bytes.as_slice()),
            _ => {
                proof {
                    lemma_no_dict(all.skip(pos as int), entry_nodes(entries@), rest);
                }
                return None;
            },
        };
        assert(rest.skip(1) =~= all.skip(next + 1));
        match build_value(tokens, next + 1) {
            Some((value, end)) => {
                let ghost before = entry_nodes(entries@);
                let ghost entry = (key@, value.node());
                entries.push((key, value));
                proof {
                    assert(entry_nodes(entries@) =~= before.push(entry));
                    lemma_entry_tokens_push(before, entry.0, entry.1);
                    assert(all.subrange(pos + 1, end as int) =~= all.subrange(
                        pos + 1,
                        next as int,
                    ) + (seq![Tok::Str(entry.0)] + all.subrange(next + 1, end as int)));
                }
                next = end;
            },
            None => {
                proof {
                    lemma_no_dict(all.skip(pos as int), entry_nodes(entries@), rest);
                }
                return None;
            },
        }
    }
}

/// The value that data begins with, if it is nested at most `max_depth` deep.
pub open spec fn decoded(data: Seq<u8>, max_depth: nat) -> Option<Node> {
    if exists|v: Node| begins_with(data, v, max_depth) {
        Some(choose|v: Node| begins_with(data, v, max_depth))
    } else {
        None
    }
}

/// There is one value at most that data begins with.
pub proof fn lemma_decoded(data: Seq<u8>, v: Node, max_depth: nat)
    requires
        begins_with(data, v, max_depth),
    ensures
        decoded(data, max_depth) == Some(v),
{
    let w = choose|w: Node| begins_with(data, w, max_depth);
    let x = data.skip(bencode(v).len() as int);
    let y = data.skip(bencode(w).len() as int);
    assert(data =~= bencode(v) + x);
    assert(data =~= bencode(w) + y);
    lemma_bencode_unique(v, w, x, y);
}

/// Decoding undoes encoding: data that begins with the encoding of a value is read as that value,
/// whatever follows it.
pub proof fn decoding_inverts_encoding(v: Node, rest: Seq<u8>, max_depth: nat)
    requires
        canonical(v),
        depth(v) <= max_depth,
    ensures
        decoded(bencode(v) + rest, max_depth) == Some(v),
{
    let data = bencode(v) + rest;
    assert(bencode(v) =~= data.take(bencode(v).len() as int));
    lemma_decoded(data, v, max_depth);
}

/// Reads the value that data begins with; what follows it is not looked at.
pub fn decode_value(data: &[u8], max_depth: usize) -> (r: Option<Value>)
    ensures
        match r {
            Some(v) => decoded(data@, max_depth as nat) == Some(v.node()) && canonical(v.node()),
            None => decoded(data@, max_depth as nat) is None,
        },
{
    let tokens: Vec<Token> = read_tokens(data, max_depth);
    let ghost all = toks(tokens@);
    match build_value(&tokens, 0) {
        Some((v, end)) => {
            proof {
                assert(tokens_of(v.node()).is_prefix_of(all));
                lemma_decoded(data@, v.node(), max_depth as nat);
            }
            Some(v)
        },
        None => {
            proof {
                assert(all.skip(0) =~= all);
                assert forall|v: Node| !begins_with(data@, v, max_depth as nat) by {
                    assert(!tokens_of(v).is_prefix_of(all));
                }
            }
            None
        },
    }
}

} // verus!
