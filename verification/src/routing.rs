//! What holds of decrypting into several files: every file gets its plaintext, however the data
//! was cut into chunks.

use vstd::prelude::*;

use crate::bencode::FileInfo;
use crate::chunks::{concat, full_chunks, lemma_chunks_concat, lemma_concat_push, pieces, remainder};
use crate::decrypt::{fresh_decryptor, DecryptorState};
use crate::error::Error;
use crate::multifile::{
    all_performed, fresh_router, performed, with_decrypted_length, Action, Outcome, RouterState,
};
use crate::roundtrip::{
    decrypted_stream, decryption_errors_ignore_chunking, decryption_ignores_chunking,
};
use crate::torrent::FileMetadata;
use crate::upload::{encrypted_files, files_match, upload_data};

verus! {

/// Actions in two lists are those of the first before those of the second.
pub proof fn lemma_performed_add(a: Seq<Action>, b: Seq<Action>, disk: Map<nat, Seq<u8>>)
    ensures
        all_performed(a + b, disk) == all_performed(b, all_performed(a, disk)),
    decreases b.len(),
{
    if b.len() == 0 {
        assert(a + b =~= a);
    } else {
        assert((a + b).drop_last() =~= a + b.drop_last());
        lemma_performed_add(a, b.drop_last(), disk);
    }
}

/// One action is performed.
pub proof fn lemma_performed_one(action: Action, disk: Map<nat, Seq<u8>>)
    ensures
        all_performed(seq![action], disk) == performed(action, disk),
{
    assert(seq![action].drop_last() =~= Seq::<Action>::empty());
    assert(all_performed(seq![action].drop_last(), disk) == disk);
}

impl RouterState {
    /// Writing in two parts is writing both at once.
    proof fn lemma_write_twice(self, a: Seq<u8>, b: Seq<u8>, disk: Map<nat, Seq<u8>>)
        ensures
            all_performed(self.write_actions(a) + self.write_actions(b), disk) == all_performed(
                self.write_actions(a + b),
                disk,
            ),
    {
        lemma_performed_add(self.write_actions(a), self.write_actions(b), disk);
        if self.wanted.contains(self.index as usize) {
            let first = Action::Write(self.index, a);
            lemma_performed_one(first, disk);
            lemma_performed_one(Action::Write(self.index, b), performed(first, disk));
            lemma_performed_one(Action::Write(self.index, a + b), disk);
            assert(disk[self.index] + a + b =~= disk[self.index] + (a + b));
            assert(all_performed(self.write_actions(b), all_performed(self.write_actions(a), disk))
                =~= all_performed(self.write_actions(a + b), disk));
        }
    }
}

/// What is decrypted does not depend on the plaintext that is already there: it is appended.
proof fn lemma_drain_appends(state: DecryptorState, output: Seq<u8>)
    ensures
        ({
            let (end, error) = DecryptorState { output: Seq::empty(), ..state }.drained();
            DecryptorState { output, ..state }.drained() == (
                DecryptorState { output: output + end.output, ..end },
                error,
            )
        }),
    decreases state.buffer.len(),
{
    let empty = DecryptorState { output: Seq::empty(), ..state };
    let full = DecryptorState { output, ..state };
    let n = state.record_size as int;
    if state.ended || state.buffer.len() < n {
        assert(output + empty.output =~= output);
    } else {
        let record = state.buffer.take(n);
        let rest = DecryptorState { buffer: state.buffer.skip(n), ..empty };
        match rest.with_record(record, false) {
            Err(_) => {
                assert(output + rest.output =~= output);
            },
            Ok(after) => {
                assert(after.output =~= after.output);
                let p = after.output;
                let full_rest = DecryptorState { buffer: state.buffer.skip(n), ..full };
                let full_after = full_rest.with_record(record, false)->Ok_0;
                assert(full_after.output =~= output + p);
                if after.ended {
                    lemma_drain_appends(after, p);
                    lemma_drain_appends(after, output + p);
                    let y = DecryptorState { output: Seq::empty(), ..after }.drained().0.output;
                    assert((output + p) + y =~= output + (p + y));
                } else if state.seq < u32::MAX {
                    let next = DecryptorState { seq: state.seq + 1, ..after };
                    lemma_drain_appends(next, p);
                    lemma_drain_appends(next, output + p);
                    let y = DecryptorState { output: Seq::empty(), ..next }.drained().0.output;
                    assert((output + p) + y =~= output + (p + y));
                }
            },
        }
    }
}

/// What a chunk decrypts to is appended to the plaintext that is already there.
proof fn lemma_process_appends(
    state: DecryptorState,
    output: Seq<u8>,
    chunk: Seq<u8>,
    master_key: Seq<u8>,
)
    ensures
        ({
            let (end, error) = DecryptorState { output: Seq::empty(), ..state }.processed(
                chunk,
                master_key,
            );
            DecryptorState { output, ..state }.processed(chunk, master_key) == (
                DecryptorState { output: output + end.output, ..end },
                error,
            )
        }),
{
    let fed = DecryptorState {
        buffer: state.buffer + chunk,
        output: Seq::<u8>::empty(),
        ..state
    };
    assert(output + Seq::<u8>::empty() =~= output);
    if fed.with_header(master_key) is Ok {
        lemma_drain_appends(fed.with_header(master_key)->Ok_0, output);
    }
}

/// The count of the plaintext grows as the plaintext does.
pub proof fn lemma_drain_counts(state: DecryptorState)
    ensures
        state.drained().0.written - state.written == state.drained().0.output.len()
            - state.output.len(),
    decreases state.buffer.len(),
{
    let n = state.record_size as int;
    if !state.ended && state.buffer.len() >= n {
        let rest = DecryptorState { buffer: state.buffer.skip(n), ..state };
        if rest.with_record(state.buffer.take(n), false) is Ok {
            let after = rest.with_record(state.buffer.take(n), false)->Ok_0;
            if after.ended {
                lemma_drain_counts(after);
            } else if state.seq < u32::MAX {
                lemma_drain_counts(DecryptorState { seq: state.seq + 1, ..after });
            }
        }
    }
}

/// A step leads to a valid state. Without an error it either ends the file or uses up the data.
proof fn lemma_step_valid(state: RouterState, data: Seq<u8>)
    requires
        state.valid(),
        state.index < state.files.len(),
        data.len() > 0,
    ensures
        state.step(data).state.valid(),
        state.step(data).state.files.len() == state.files.len(),
        state.step(data).error is None ==> {
            let left = state.files[state.index as int].encrypted_length - state.opened().fed;
            let after = state.step(data).state;
            if left <= data.len() {
                after.index == state.index + 1
            } else {
                after == (RouterState {
                    current: after.current,
                    fed: after.fed,
                    ..state
                }) && after.current is Some && after.fed == state.opened().fed + data.len()
            }
        },
{
    reveal(RouterState::step);
}

/// A step looks at no more than the current file's portion of the data.
proof fn lemma_step_portion(state: RouterState, a: Seq<u8>, b: Seq<u8>)
    requires
        state.valid(),
        state.index < state.files.len(),
        state.files[state.index as int].encrypted_length - state.opened().fed <= a.len(),
    ensures
        state.step(a + b) == state.step(a),
{
    reveal(RouterState::step);
    let left = state.files[state.index as int].encrypted_length - state.opened().fed;
    assert((a + b).take(left) =~= a.take(left));
}

/// Routing does not depend on how the data is cut: where a first chunk is routed without an
/// error, a second one leads to the same outcome as both at once, and the files on disk hold the
/// same.
pub proof fn routing_ignores_chunking(
    state: RouterState,
    a: Seq<u8>,
    b: Seq<u8>,
    disk: Map<nat, Seq<u8>>,
)
    requires
        state.valid(),
        state.routed(a).error is None,
    ensures
        ({
            let first = state.routed(a);
            let second = first.state.routed(b);
            let both = state.routed(a + b);
            &&& both.error == second.error
            &&& both.error is None ==> both.state == second.state
            &&& all_performed(both.actions, disk) == all_performed(
                first.actions + second.actions,
                disk,
            )
        }),
    decreases a.len(), state.files.len() - state.index,
{
    if a.len() == 0 {
        assert(a + b =~= b);
        let second = state.routed(b);
        assert(Seq::<Action>::empty() + second.actions =~= second.actions);
    } else if b.len() == 0 {
        assert(a + b =~= a);
        let first = state.routed(a);
        assert(first.actions + Seq::<Action>::empty() =~= first.actions);
    } else {
        let opened = state.opened();
        let length = state.files[state.index as int].encrypted_length;
        let left = length - opened.fed;
        let step = state.step(a);
        lemma_step_valid(state, a);
        if left <= a.len() {
            lemma_step_portion(state, a, b);
            assert((a + b).skip(left) =~= a.skip(left) + b);
            let next_disk = all_performed(step.actions, disk);
            routing_ignores_chunking(step.state, a.skip(left), b, next_disk);
            let x = step.state.routed(a.skip(left)).actions;
            let y = step.state.routed(a.skip(left)).state.routed(b).actions;
            let z = step.state.routed(a.skip(left) + b).actions;
            lemma_performed_add(step.actions, z, disk);
            lemma_performed_add(step.actions, x + y, disk);
            assert((step.actions + x) + y =~= step.actions + (x + y));
            assert(state.routed(a).actions == step.actions + x);
            assert(state.routed(a + b).actions == step.actions + z);
        } else {
            lemma_step_in_two(state, a, b, disk);
            assert(a.skip(a.len() as int) =~= Seq::<u8>::empty());
            assert(step.state.routed(Seq::empty()).actions == Seq::<Action>::empty());
            assert(step.actions + Seq::<Action>::empty() =~= step.actions);
            assert(state.routed(a).actions == step.actions);
            assert(state.routed(a).state == step.state);
            let n = opened.portion((a + b).len());
            let m = step.state.opened().portion(b.len());
            assert((a + b).skip(n as int) =~= b.skip(m as int));
            let second = step.state.step(b);
            let both = state.step(a + b);
            if both.error is None {
                let rest = both.state.routed(b.skip(m as int)).actions;
                lemma_performed_add(both.actions, rest, disk);
                lemma_performed_add(step.actions + second.actions, rest, disk);
                assert(step.actions + (second.actions + rest) =~= (step.actions + second.actions)
                    + rest);
            }
        }
    }
}

/// One step on two chunks is a step on the first, where that does not fill the file, and then one
/// on the second.
#[verifier::rlimit(40)]
proof fn lemma_step_in_two(
    state: RouterState,
    a: Seq<u8>,
    b: Seq<u8>,
    disk: Map<nat, Seq<u8>>,
)
    requires
        state.valid(),
        state.index < state.files.len(),
        a.len() > 0,
        b.len() > 0,
        state.opened().fed + a.len() < state.files[state.index as int].encrypted_length,
        state.step(a).error is None,
    ensures
        ({
            let first = state.step(a);
            let second = first.state.step(b);
            let both = state.step(a + b);
            &&& both.error == second.error
            &&& both.error is None ==> both.state == second.state
            &&& all_performed(both.actions, disk) == all_performed(
                first.actions + second.actions,
                disk,
            )
        }),
{
    reveal(RouterState::step);
    let opened = state.opened();
    let key = state.master_key;
    let first = state.step(a);
    let middle = first.state;
    let second = middle.step(b);
    let both = state.step(a + b);
    let n = opened.portion((a + b).len());
    let m = middle.portion(b.len());
    let start = opened.current->0;
    let part = b.take(m as int);
    assert(a.take(a.len() as int) =~= a);
    assert((a + b).take(n as int) =~= a + part);
    let (after_a, error_a) = start.processed(a, key);
    let after_a_taken = DecryptorState { output: Seq::empty(), ..after_a };
    decryption_ignores_chunking(start, a, part, key);
    lemma_process_appends(after_a, after_a.output, part, key);
    let (after_b, error_b) = after_a_taken.processed(part, key);
    let (after_both, error_both) = start.processed(a + part, key);
    assert(DecryptorState { output: after_a.output, ..after_a } == after_a);
    assert(after_both.output == after_a.output + after_b.output);
    assert(DecryptorState { output: Seq::empty(), ..after_both } == DecryptorState {
        output: Seq::empty(),
        ..after_b
    });
    let open = state.open_actions();
    let w_a = opened.write_actions(after_a.output);
    let w_b = opened.write_actions(after_b.output);
    let w_both = opened.write_actions(after_both.output);
    assert(middle.open_actions() =~= Seq::<Action>::empty());
    assert(middle.write_actions(after_b.output) == w_b);
    let opened_disk = all_performed(open, disk);
    opened.lemma_write_twice(after_a.output, after_b.output, opened_disk);
    lemma_performed_add(open, w_a + w_b, disk);
    lemma_performed_add(open, w_both, disk);
    assert((open + w_a) + w_b =~= open + (w_a + w_b));
    assert(first.actions == open + w_a);
    assert(middle.open_actions() + w_b =~= w_b);
    let ended = DecryptorState { output: Seq::empty(), ..after_both }.finished();
    if error_both is None && opened.fed + n >= state.files[state.index as int].encrypted_length
        && ended is Ok {
        let last = opened.write_actions(ended->Ok_0.output);
        assert(middle.write_actions(ended->Ok_0.output) == last);
        assert(both.actions == open + w_both + last);
        assert(second.actions == w_b + last);
        lemma_performed_add(open + w_both, last, disk);
        lemma_performed_add(open + (w_a + w_b), last, disk);
        assert(first.actions + second.actions =~= (open + (w_a + w_b)) + last);
    } else {
        assert(both.actions == open + w_both);
        assert(second.actions == w_b);
    }
}

/// A file whose whole stream has come is ended, and holds what the stream decrypts to.
pub proof fn lemma_step_whole_file(
    state: RouterState,
    stream: Seq<u8>,
    rest: Seq<u8>,
    plaintext: Seq<u8>,
    disk: Map<nat, Seq<u8>>,
)
    requires
        state.valid(),
        state.current is None,
        state.index < state.files.len(),
        state.files[state.index as int].encrypted_length == stream.len(),
        decrypted_stream(state.master_key, stream) == Ok::<Seq<u8>, Error>(plaintext),
    ensures
        state.step(stream + rest).error is None,
        state.step(stream + rest).state == (RouterState {
            files: with_decrypted_length(state.files, state.index as int, plaintext.len()),
            index: state.index + 1,
            fed: 0,
            ..state
        }),
        all_performed(state.step(stream + rest).actions, disk) == if state.wanted.contains(
            state.index as usize,
        ) {
            disk.insert(state.index, plaintext)
        } else {
            disk
        },
{
    reveal(RouterState::step);
    let index = state.index;
    let opened = state.opened();
    let fresh = fresh_decryptor(Seq::empty());
    assert((stream + rest).take(stream.len() as int) =~= stream);
    let (after, _) = fresh.processed(stream, state.master_key);
    assert(after.written == after.output.len()) by {
        let fed = DecryptorState { buffer: fresh.buffer + stream, ..fresh };
        lemma_drain_counts(fed.with_header(state.master_key)->Ok_0);
    }
    let taken = DecryptorState { output: Seq::empty(), ..after };
    let end = taken.finished()->Ok_0;
    assert(plaintext =~= after.output + end.output);
    assert(end.written == plaintext.len());
    let actions = state.step(stream + rest).actions;
    if state.wanted.contains(index as usize) {
        let create = Action::Create(index);
        let write1 = Action::Write(index, after.output);
        let write2 = Action::Write(index, end.output);
        assert(actions =~= seq![create] + seq![write1] + seq![write2]);
        lemma_performed_add(seq![create] + seq![write1], seq![write2], disk);
        lemma_performed_add(seq![create], seq![write1], disk);
        let disk1 = performed(create, disk);
        let disk2 = performed(write1, disk1);
        lemma_performed_one(create, disk);
        lemma_performed_one(write1, disk1);
        lemma_performed_one(write2, disk2);
        assert(disk2[index] =~= after.output);
        assert(performed(write2, disk2) =~= disk.insert(index, plaintext));
    } else {
        assert(actions =~= Seq::<Action>::empty());
    }
}

/// The files from the next one on get what their streams decrypt to.
proof fn lemma_routes_remaining_files(
    state: RouterState,
    streams: Seq<Seq<u8>>,
    plaintexts: Seq<Seq<u8>>,
    disk: Map<nat, Seq<u8>>,
)
    requires
        state.valid(),
        state.current is None,
        state.index + streams.len() == state.files.len(),
        plaintexts.len() == streams.len(),
        forall|i: int|
            0 <= i < streams.len() ==> {
                &&& (#[trigger] streams[i]).len() > 0
                &&& state.files[state.index + i].encrypted_length == streams[i].len()
                &&& decrypted_stream(state.master_key, streams[i]) == Ok::<Seq<u8>, Error>(
                    plaintexts[i],
                )
            },
    ensures
        ({
            let out = state.routed(concat(streams));
            let after = all_performed(out.actions, disk);
            &&& out.error is None
            &&& out.state.current is None
            &&& out.state.index == state.files.len()
            &&& out.state.files.len() == state.files.len()
            &&& forall|j: int|
                0 <= j < state.files.len() ==> #[trigger] out.state.files[j] == if j
                    < state.index {
                    state.files[j]
                } else {
                    FileInfo {
                        decrypted_length: Some(plaintexts[j - state.index].len() as usize),
                        ..state.files[j]
                    }
                }
            &&& forall|j: nat| #[trigger]
                after.dom().contains(j) == (disk.dom().contains(j) || (state.index <= j
                    < state.files.len() && state.wanted.contains(j as usize)))
            &&& forall|j: nat| #[trigger]
                after[j] == if state.index <= j < state.files.len() && state.wanted.contains(
                    j as usize,
                ) {
                    plaintexts[j - state.index]
                } else {
                    disk[j]
                }
        }),
    decreases streams.len(),
{
    if streams.len() > 0 {
        let stream = streams[0];
        let rest = streams.drop_first();
        let data = concat(streams);
        assert(data == stream + concat(rest));
        lemma_step_whole_file(state, stream, concat(rest), plaintexts[0], disk);
        let step = state.step(data);
        let disk1 = all_performed(step.actions, disk);
        assert(data.skip(stream.len() as int) =~= concat(rest));
        let next = step.state;
        assert forall|i: int| 0 <= i < rest.len() implies {
            &&& (#[trigger] rest[i]).len() > 0
            &&& next.files[next.index + i].encrypted_length == rest[i].len()
            &&& decrypted_stream(next.master_key, rest[i]) == Ok::<Seq<u8>, Error>(
                plaintexts.drop_first()[i],
            )
        } by {
            assert(rest[i] == streams[i + 1]);
        }
        lemma_routes_remaining_files(next, rest, plaintexts.drop_first(), disk1);
        let tail = next.routed(concat(rest));
        assert(state.routed(data).actions == step.actions + tail.actions);
        lemma_performed_add(step.actions, tail.actions, disk);
        let out = state.routed(data);
        assert forall|j: int| 0 <= j < state.files.len() implies #[trigger] out.state.files[j]
            == if j < state.index {
            state.files[j]
        } else {
            FileInfo {
                decrypted_length: Some(plaintexts[j - state.index].len() as usize),
                ..state.files[j]
            }
        } by {
            assert(tail.state.files[j] == out.state.files[j]);
            if j > state.index {
                assert(plaintexts.drop_first()[j - next.index] == plaintexts[j - state.index]);
            }
        }
    }
}

/// Every wanted file ends up with the plaintext of its stream, no other file on disk is touched,
/// and the decrypted length of every file is noted.
pub proof fn every_file_is_decrypted(
    files: Seq<FileInfo>,
    master_key: Seq<u8>,
    wanted: Set<usize>,
    streams: Seq<Seq<u8>>,
    plaintexts: Seq<Seq<u8>>,
    disk: Map<nat, Seq<u8>>,
)
    requires
        streams.len() == files.len(),
        plaintexts.len() == files.len(),
        forall|i: int|
            0 <= i < streams.len() ==> {
                &&& (#[trigger] streams[i]).len() > 0
                &&& files[i].encrypted_length == streams[i].len()
                &&& decrypted_stream(master_key, streams[i]) == Ok::<Seq<u8>, Error>(plaintexts[i])
            },
    ensures
        ({
            let out = fresh_router(files, master_key, wanted).routed(concat(streams));
            let after = all_performed(out.actions, disk);
            &&& out.error is None
            &&& out.state.ended() == Ok::<(Seq<FileInfo>, Seq<Action>), Error>(
                (out.state.files, Seq::empty()),
            )
            &&& out.state.files.len() == files.len()
            &&& forall|j: int|
                0 <= j < files.len() ==> #[trigger] out.state.files[j] == (FileInfo {
                    decrypted_length: Some(plaintexts[j].len() as usize),
                    ..files[j]
                })
            &&& forall|j: nat| #[trigger]
                after.dom().contains(j) == (disk.dom().contains(j) || (j < files.len()
                    && wanted.contains(j as usize)))
            &&& forall|j: nat| #[trigger]
                after[j] == if j < files.len() && wanted.contains(j as usize) {
                    plaintexts[j as int]
                } else {
                    disk[j]
                }
        }),
{
    lemma_routes_remaining_files(
        fresh_router(files, master_key, wanted),
        streams,
        plaintexts,
        disk,
    );
}

// ---- a whole download ----

/// Where a chunk fails, it fails with more data behind it too.
proof fn lemma_routing_error_persists(state: RouterState, a: Seq<u8>, b: Seq<u8>)
    requires
        state.valid(),
        state.routed(a).error is Some,
    ensures
        state.routed(a + b).error is Some,
    decreases a.len(), state.files.len() - state.index,
{
    if a.len() > 0 && state.index < state.files.len() {
        let opened = state.opened();
        let left = state.files[state.index as int].encrypted_length - opened.fed;
        lemma_step_valid(state, a);
        if left <= a.len() {
            lemma_step_portion(state, a, b);
            assert((a + b).skip(left) =~= a.skip(left) + b);
            if state.step(a).error is None {
                lemma_routing_error_persists(state.step(a).state, a.skip(left), b);
            }
        } else {
            assert(a.skip(a.len() as int) =~= Seq::<u8>::empty());
            if state.step(a).error is None {
                assert(state.step(a).state.routed(Seq::empty()).error is None);
            }
            reveal(RouterState::step);
            let n = opened.portion((a + b).len());
            let part = b.take(n - a.len());
            assert((a + b).take(n as int) =~= a + part);
            assert(a.take(a.len() as int) =~= a);
            decryption_errors_ignore_chunking(opened.current->0, a, part, state.master_key);
            assert(state.step(a + b).error is Some);
        }
    }
}

/// A chunk that is routed leads to a valid state.
proof fn lemma_routed_valid(state: RouterState, chunk: Seq<u8>)
    requires
        state.valid(),
    ensures
        state.routed(chunk).state.valid(),
    decreases chunk.len(), state.files.len() - state.index,
{
    if chunk.len() > 0 && state.index < state.files.len() {
        lemma_step_valid(state, chunk);
        if state.step(chunk).error is None {
            let n = state.opened().portion(chunk.len());
            lemma_routed_valid(state.step(chunk).state, chunk.skip(n as int));
        }
    }
}

impl RouterState {
    /// The chunks are routed in turn, up to the first that fails.
    pub open spec fn routed_all(self, chunks: Seq<Seq<u8>>) -> Outcome
        decreases chunks.len(),
    {
        if chunks.len() == 0 {
            Outcome { state: self, actions: Seq::empty(), error: None }
        } else {
            let first = self.routed(chunks[0]);
            if first.error is Some {
                first
            } else {
                let rest = first.state.routed_all(chunks.drop_first());
                Outcome { actions: first.actions + rest.actions, ..rest }
            }
        }
    }
}

/// Where data is routed without an error, routing it chunk by chunk leads to the same state and to
/// the same files on disk.
pub proof fn routing_of_chunks(
    state: RouterState,
    chunks: Seq<Seq<u8>>,
    disk: Map<nat, Seq<u8>>,
)
    requires
        state.valid(),
        state.routed(concat(chunks)).error is None,
    ensures
        state.routed_all(chunks).error is None,
        state.routed_all(chunks).state == state.routed(concat(chunks)).state,
        all_performed(state.routed_all(chunks).actions, disk) == all_performed(
            state.routed(concat(chunks)).actions,
            disk,
        ),
    decreases chunks.len(),
{
    if chunks.len() > 0 {
        let (a, rest) = (chunks[0], chunks.drop_first());
        let first = state.routed(a);
        if first.error is Some {
            lemma_routing_error_persists(state, a, concat(rest));
        }
        routing_ignores_chunking(state, a, concat(rest), disk);
        lemma_routed_valid(state, a);
        let disk1 = all_performed(first.actions, disk);
        routing_of_chunks(first.state, rest, disk1);
        let piecewise = first.state.routed_all(rest).actions;
        let at_once = first.state.routed(concat(rest)).actions;
        lemma_performed_add(first.actions, piecewise, disk);
        lemma_performed_add(first.actions, at_once, disk);
        assert(state.routed_all(chunks).actions == first.actions + piecewise);
    }
}

/// Where all chunks are routed without an error, so is the data at once.
pub proof fn lemma_chunks_route(
    state: RouterState,
    chunks: Seq<Seq<u8>>,
    disk: Map<nat, Seq<u8>>,
)
    requires
        state.valid(),
        state.routed_all(chunks).error is None,
    ensures
        state.routed(concat(chunks)).error is None,
    decreases chunks.len(),
{
    if chunks.len() > 0 {
        let (a, rest) = (chunks[0], chunks.drop_first());
        let first = state.routed(a);
        lemma_routed_valid(state, a);
        lemma_chunks_route(first.state, rest, disk);
        routing_ignores_chunking(state, a, concat(rest), disk);
    }
}

/// The pieces, put together, are the data.
proof fn lemma_pieces_concat(data: Seq<u8>, piece_length: nat)
    ensures
        concat(pieces(data, piece_length)) == data,
{
    let chunks = full_chunks(data, piece_length);
    let left = remainder(data, piece_length);
    lemma_chunks_concat(data, piece_length);
    if left.len() > 0 {
        lemma_concat_push(chunks, left);
    } else {
        assert(concat(chunks) + left =~= concat(chunks));
    }
}

/// A download gives back what was uploaded. Files are encrypted, and their encrypted data is cut
/// into pieces; a decryptor that knows the key and the encrypted lengths, and gets the pieces in
/// turn, has every wanted file written with its plaintext, touches no other file, and knows the
/// length of every plaintext.
pub proof fn download_inverts_upload(
    master_key: Seq<u8>,
    salts: Seq<Seq<u8>>,
    plaintexts: Seq<Seq<u8>>,
    uploaded: Seq<FileMetadata>,
    piece_length: nat,
    files: Seq<FileInfo>,
    wanted: Set<usize>,
    disk: Map<nat, Seq<u8>>,
)
    requires
        files_match(master_key, salts, plaintexts, uploaded),
        files.len() == uploaded.len(),
        forall|i: int|
            0 <= i < files.len() ==> (#[trigger] files[i]).encrypted_length
                == uploaded[i].encrypted_length,
        forall|i: int| 0 <= i < plaintexts.len() ==> (#[trigger] plaintexts[i]).len() <= usize::MAX,
    ensures
        ({
            let data = upload_data(master_key, salts, plaintexts);
            let out = fresh_router(files, master_key, wanted).routed_all(
                pieces(data, piece_length),
            );
            let after = all_performed(out.actions, disk);
            &&& out.error is None
            &&& out.state.ended() == Ok::<(Seq<FileInfo>, Seq<Action>), Error>(
                (out.state.files, Seq::empty()),
            )
            &&& out.state.files.len() == files.len()
            &&& forall|j: int|
                0 <= j < files.len() ==> #[trigger] out.state.files[j] == (FileInfo {
                    decrypted_length: Some(plaintexts[j].len() as usize),
                    ..files[j]
                })
            &&& forall|j: nat| #[trigger]
                after.dom().contains(j) == (disk.dom().contains(j) || (j < files.len()
                    && wanted.contains(j as usize)))
            &&& forall|j: nat| #[trigger]
                after[j] == if j < files.len() && wanted.contains(j as usize) {
                    plaintexts[j as int]
                } else {
                    disk[j]
                }
        }),
{
    let data = upload_data(master_key, salts, plaintexts);
    let streams = encrypted_files(master_key, salts, plaintexts);
    let state = fresh_router(files, master_key, wanted);
    assert forall|i: int| 0 <= i < streams.len() implies {
        &&& (#[trigger] streams[i]).len() > 0
        &&& files[i].encrypted_length == streams[i].len()
        &&& decrypted_stream(master_key, streams[i]) == Ok::<Seq<u8>, Error>(plaintexts[i])
    } by {
        assert(uploaded[i].encrypted_length == streams[i].len());
        assert(files[i].encrypted_length == uploaded[i].encrypted_length);
        assert(plaintexts[i].len() <= usize::MAX);
    }
    every_file_is_decrypted(files, master_key, wanted, streams, plaintexts, disk);
    lemma_pieces_concat(data, piece_length);
    routing_of_chunks(state, pieces(data, piece_length), disk);
}

} // verus!
