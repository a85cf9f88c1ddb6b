//! What holds of decrypting into several files, wherever the data ends: every file gets its own
//! part of the data, however the data was cut into chunks.

use vstd::prelude::*;

use crate::bencode::FileInfo;
use crate::chunks::concat;
use crate::decrypt::{fresh_decryptor, DecryptorState};
use crate::error::Error;
use crate::multifile::{
    all_performed, fresh_router, performed, with_decrypted_length, Action, RouterState,
};
use crate::roundtrip::decrypted_stream;
use crate::routing::{
    lemma_chunks_route, lemma_drain_counts, lemma_performed_add, lemma_performed_one,
    lemma_step_whole_file, routing_of_chunks,
};

verus! {

/// Where the file with this index begins in the data: behind all files before it.
pub open spec fn offset(files: Seq<FileInfo>, index: int) -> nat
    decreases index,
{
    if index <= 0 {
        0
    } else {
        offset(files, index - 1) + files[index - 1].encrypted_length as nat
    }
}

/// The part of the data that is the stream of the file with this index. It is cut where the data
/// ends.
pub open spec fn part(files: Seq<FileInfo>, data: Seq<u8>, index: int) -> Seq<u8> {
    let from = offset(files, index);
    let to = offset(files, index + 1);
    if from >= data.len() {
        Seq::empty()
    } else if to >= data.len() {
        data.skip(from as int)
    } else {
        data.subrange(from as int, to as int)
    }
}

/// Whether data of the file with this index has come, or data behind it.
pub open spec fn has_begun(files: Seq<FileInfo>, data: Seq<u8>, index: int) -> bool {
    offset(files, index) < data.len()
}

/// Whether all data of the file with this index has come.
pub open spec fn is_whole(files: Seq<FileInfo>, data: Seq<u8>, index: int) -> bool {
    has_begun(files, data, index) && offset(files, index + 1) <= data.len()
}

/// What a part of the data decrypts to so far: all of it if the file is whole, else the records
/// that are complete.
pub open spec fn decrypted_part(
    files: Seq<FileInfo>,
    master_key: Seq<u8>,
    data: Seq<u8>,
    index: int,
) -> Seq<u8> {
    let stream = part(files, data, index);
    if is_whole(files, data, index) {
        decrypted_stream(master_key, stream)->Ok_0
    } else {
        fresh_decryptor(Seq::empty()).processed(stream, master_key).0.output
    }
}

/// A file does not begin before those that come before it.
proof fn lemma_offsets_grow(files: Seq<FileInfo>, i: int, j: int)
    requires
        0 <= i <= j,
    ensures
        offset(files, i) <= offset(files, j),
    decreases j - i,
{
    if i < j {
        lemma_offsets_grow(files, i, j - 1);
    }
}

/// A file all of whose data has come without an error decrypts.
proof fn lemma_whole_file_decrypts(state: RouterState, stream: Seq<u8>, rest: Seq<u8>)
    requires
        state.valid(),
        state.current is None,
        state.index < state.files.len(),
        state.files[state.index as int].encrypted_length == stream.len(),
        state.step(stream + rest).error is None,
    ensures
        decrypted_stream(state.master_key, stream) is Ok,
{
    reveal(RouterState::step);
    assert((stream + rest).take(stream.len() as int) =~= stream);
}

/// A file part of whose data has come holds what that part decrypts to so far.
proof fn lemma_step_part(state: RouterState, data: Seq<u8>, disk: Map<nat, Seq<u8>>)
    requires
        state.valid(),
        state.current is None,
        state.index < state.files.len(),
        0 < data.len() < state.files[state.index as int].encrypted_length,
        state.step(data).error is None,
    ensures
        ({
            let (reader, error) = fresh_decryptor(Seq::empty()).processed(data, state.master_key);
            &&& error is None
            &&& state.step(data).state == (RouterState {
                current: Some(DecryptorState { output: Seq::empty(), ..reader }),
                fed: data.len(),
                ..state
            })
            &&& all_performed(state.step(data).actions, disk) == if state.wanted.contains(
                state.index as usize,
            ) {
                disk.insert(state.index, reader.output)
            } else {
                disk
            }
        }),
{
    reveal(RouterState::step);
    let index = state.index;
    let (reader, _) = fresh_decryptor(Seq::empty()).processed(data, state.master_key);
    assert(data.take(data.len() as int) =~= data);
    let actions = state.step(data).actions;
    if state.wanted.contains(index as usize) {
        let create = Action::Create(index);
        let write = Action::Write(index, reader.output);
        assert(actions =~= seq![create] + seq![write]);
        lemma_performed_add(seq![create], seq![write], disk);
        lemma_performed_one(create, disk);
        lemma_performed_one(write, performed(create, disk));
        assert(Seq::<u8>::empty() + reader.output =~= reader.output);
        assert(performed(write, performed(create, disk)) =~= disk.insert(index, reader.output));
    } else {
        assert(actions =~= Seq::<Action>::empty());
    }
}

impl RouterState {
    /// Whether this state is that of a decryptor that has got `data`, where `before` were its
    /// files from `start` on before it got that of them.
    pub open spec fn has_routed(
        self,
        files: Seq<FileInfo>,
        before: Seq<FileInfo>,
        data: Seq<u8>,
        start: nat,
    ) -> bool {
        &&& self.files.len() == files.len()
        &&& forall|j: int|
            0 <= j < files.len() ==> #[trigger] self.files[j] == if start <= j && is_whole(
                files,
                data,
                j,
            ) {
                FileInfo {
                    decrypted_length: Some(
                        decrypted_part(files, self.master_key, data, j).len() as usize,
                    ),
                    ..before[j]
                }
            } else {
                before[j]
            }
        &&& forall|j: int|
            start <= j < files.len() && #[trigger] is_whole(files, data, j) ==> decrypted_stream(
                self.master_key,
                part(files, data, j),
            ) is Ok
        &&& match self.current {
            None => forall|j: int|
                start <= j < files.len() && #[trigger] has_begun(files, data, j) ==> is_whole(
                    files,
                    data,
                    j,
                ),
            Some(decryptor) => {
                let (reader, error) = fresh_decryptor(Seq::empty()).processed(
                    part(files, data, self.index as int),
                    self.master_key,
                );
                &&& start <= self.index < files.len()
                &&& has_begun(files, data, self.index as int)
                &&& !is_whole(files, data, self.index as int)
                &&& error is None
                &&& decryptor == (DecryptorState { output: Seq::empty(), ..reader })
            },
        }
    }
}

/// Whether the files on disk hold what their parts decrypt to so far, from `start` on, where they
/// are wanted and have begun, and are else as they were.
pub open spec fn disk_holds(
    after: Map<nat, Seq<u8>>,
    before: Map<nat, Seq<u8>>,
    files: Seq<FileInfo>,
    master_key: Seq<u8>,
    wanted: Set<usize>,
    data: Seq<u8>,
    start: nat,
) -> bool {
    &&& forall|j: nat| #[trigger]
        after.dom().contains(j) == (before.dom().contains(j) || (start <= j < files.len()
            && wanted.contains(j as usize) && has_begun(files, data, j as int)))
    &&& forall|j: nat| #[trigger]
        after[j] == if start <= j < files.len() && wanted.contains(j as usize) && has_begun(
            files,
            data,
            j as int,
        ) {
            decrypted_part(files, master_key, data, j as int)
        } else {
            before[j]
        }
}

/// The data from the next file on reaches the files that it belongs to.
proof fn lemma_parts_routed(
    files: Seq<FileInfo>,
    state: RouterState,
    data: Seq<u8>,
    disk: Map<nat, Seq<u8>>,
)
    requires
        state.valid(),
        state.current is None,
        state.files.len() == files.len(),
        forall|j: int|
            0 <= j < files.len() ==> (#[trigger] state.files[j]).encrypted_length
                == files[j].encrypted_length,
        offset(files, state.index as int) <= data.len(),
        state.routed(data.skip(offset(files, state.index as int) as int)).error is None,
    ensures
        ({
            let out = state.routed(data.skip(offset(files, state.index as int) as int));
            &&& data.len() <= offset(files, files.len() as int)
            &&& out.state.master_key == state.master_key
            &&& out.state.wanted == state.wanted
            &&& out.state.has_routed(files, state.files, data, state.index)
            &&& disk_holds(
                all_performed(out.actions, disk),
                disk,
                files,
                state.master_key,
                state.wanted,
                data,
                state.index,
            )
        }),
    decreases files.len() - state.index,
{
    let i = state.index as int;
    let from = offset(files, i);
    let rest = data.skip(from as int);
    let out = state.routed(rest);
    if rest.len() == 0 {
        assert forall|j: int| i <= j implies !#[trigger] has_begun(files, data, j) by {
            lemma_offsets_grow(files, i, j);
        }
        lemma_offsets_grow(files, i, files.len() as int);
    } else {
        let length = files[i].encrypted_length as nat;
        assert(state.files[i].encrypted_length == length);
        let step = state.step(rest);
        assert(offset(files, i + 1) == from + length);
        if length <= rest.len() {
            let stream = rest.take(length as int);
            let behind = rest.skip(length as int);
            assert(stream + behind =~= rest);
            assert(part(files, data, i) =~= stream);
            lemma_whole_file_decrypts(state, stream, behind);
            let plaintext = decrypted_stream(state.master_key, stream)->Ok_0;
            lemma_step_whole_file(state, stream, behind, plaintext, disk);
            let next = step.state;
            assert(behind =~= data.skip(offset(files, next.index as int) as int));
            let disk1 = all_performed(step.actions, disk);
            lemma_parts_routed(files, next, data, disk1);
            let tail = next.routed(behind);
            assert(out.actions == step.actions + tail.actions);
            lemma_performed_add(step.actions, tail.actions, disk);
            assert(is_whole(files, data, i));
            assert forall|j: int| 0 <= j < files.len() implies #[trigger] out.state.files[j]
                == if i <= j && is_whole(files, data, j) {
                FileInfo {
                    decrypted_length: Some(
                        decrypted_part(files, state.master_key, data, j).len() as usize,
                    ),
                    ..state.files[j]
                }
            } else {
                state.files[j]
            } by {
                assert(tail.state.files[j] == out.state.files[j]);
            }
            let after = all_performed(out.actions, disk);
            assert forall|j: nat| #[trigger] after[j] == if i <= j < files.len()
                && state.wanted.contains(j as usize) && has_begun(files, data, j as int) {
                decrypted_part(files, state.master_key, data, j as int)
            } else {
                disk[j]
            } by {
                assert(after[j] == all_performed(tail.actions, disk1)[j]);
            }
            assert forall|j: nat| #[trigger] after.dom().contains(j) == (disk.dom().contains(j) || (i
                <= j < files.len() && state.wanted.contains(j as usize) && has_begun(
                files,
                data,
                j as int,
            ))) by {
                assert(after.dom().contains(j) == all_performed(
                    tail.actions,
                    disk1,
                ).dom().contains(j));
            }
        } else {
            assert(part(files, data, i) =~= rest);
            lemma_step_part(state, rest, disk);
            assert(rest.skip(rest.len() as int) =~= Seq::<u8>::empty());
            assert(step.state.routed(Seq::empty()).actions == Seq::<Action>::empty());
            assert(step.actions + Seq::<Action>::empty() =~= step.actions);
            assert(out.state == step.state);
            assert(out.actions == step.actions);
            assert forall|j: int| i < j implies !#[trigger] has_begun(files, data, j) by {
                lemma_offsets_grow(files, i + 1, j);
            }
            lemma_offsets_grow(files, i + 1, files.len() as int);
        }
    }
}

/// Every file gets its own part of the data: the bytes behind those of the files before it, as many
/// as it has, or fewer where the data ends. However the data was cut into chunks, a wanted file
/// that has begun holds what its part decrypts to so far, no other file on disk is touched, and
/// the decrypted length of every file that is whole is noted, be it wanted or not.
pub proof fn every_file_gets_its_part(
    files: Seq<FileInfo>,
    master_key: Seq<u8>,
    wanted: Set<usize>,
    chunks: Seq<Seq<u8>>,
    disk: Map<nat, Seq<u8>>,
)
    requires
        fresh_router(files, master_key, wanted).routed_all(chunks).error is None,
    ensures
        ({
            let out = fresh_router(files, master_key, wanted).routed_all(chunks);
            let data = concat(chunks);
            &&& data.len() <= offset(files, files.len() as int)
            &&& out.state.master_key == master_key
            &&& out.state.wanted == wanted
            &&& out.state.has_routed(files, files, data, 0)
            &&& disk_holds(
                all_performed(out.actions, disk),
                disk,
                files,
                master_key,
                wanted,
                data,
                0,
            )
        }),
{
    let state = fresh_router(files, master_key, wanted);
    let data = concat(chunks);
    lemma_chunks_route(state, chunks, disk);
    routing_of_chunks(state, chunks, disk);
    assert(data.skip(offset(files, 0) as int) =~= data);
    lemma_parts_routed(files, state, data, disk);
}

/// Draining keeps the count of the plaintext in its range.
proof fn lemma_drain_bounded(state: DecryptorState)
    requires
        state.written <= usize::MAX,
    ensures
        state.drained().0.written <= usize::MAX,
    decreases state.buffer.len(),
{
    let n = state.record_size as int;
    if !state.ended && state.buffer.len() >= n {
        let rest = DecryptorState { buffer: state.buffer.skip(n), ..state };
        if rest.with_record(state.buffer.take(n), false) is Ok {
            let after = rest.with_record(state.buffer.take(n), false)->Ok_0;
            if after.ended {
                lemma_drain_bounded(after);
            } else if state.seq < u32::MAX {
                lemma_drain_bounded(DecryptorState { seq: state.seq + 1, ..after });
            }
        }
    }
}

/// The plaintext of a stream is what was handed out on the way, with what its end adds. It can be
/// counted.
proof fn lemma_stream_end(master_key: Seq<u8>, stream: Seq<u8>)
    ensures
        ({
            let (reader, error) = fresh_decryptor(Seq::empty()).processed(stream, master_key);
            let end = DecryptorState { output: Seq::empty(), ..reader }.finished();
            &&& error is None && end is Ok ==> {
                &&& decrypted_stream(master_key, stream) == Ok::<Seq<u8>, Error>(
                    reader.output + end->Ok_0.output,
                )
                &&& end->Ok_0.written == (reader.output + end->Ok_0.output).len()
            }
            &&& decrypted_stream(master_key, stream) matches Ok(plaintext) ==> plaintext.len()
                <= usize::MAX
        }),
{
    let fresh = fresh_decryptor(Seq::empty());
    let (reader, error) = fresh.processed(stream, master_key);
    let fed = DecryptorState { buffer: fresh.buffer + stream, ..fresh };
    if error is None {
        lemma_drain_counts(fed.with_header(master_key)->Ok_0);
        lemma_drain_bounded(fed.with_header(master_key)->Ok_0);
        let taken = DecryptorState { output: Seq::empty(), ..reader };
        if taken.finished() is Ok {
            let end = taken.finished()->Ok_0;
            assert(reader.finished()->Ok_0.output =~= reader.output + end.output);
        }
    }
}

/// Where the end of the data is accepted, wherever the data ended, every file that has begun
/// decrypts: its part of the data is a stream of its own. Its decrypted length is noted, be it
/// wanted or not, and on disk it holds the plaintext if it is wanted. The paths, the encrypted
/// lengths and the offsets are kept; a file that has not begun is left as it was.
pub proof fn every_file_is_ended(
    files: Seq<FileInfo>,
    master_key: Seq<u8>,
    wanted: Set<usize>,
    chunks: Seq<Seq<u8>>,
    disk: Map<nat, Seq<u8>>,
)
    requires
        fresh_router(files, master_key, wanted).routed_all(chunks).error is None,
        fresh_router(files, master_key, wanted).routed_all(chunks).state.ended() is Ok,
    ensures
        ({
            let out = fresh_router(files, master_key, wanted).routed_all(chunks);
            let data = concat(chunks);
            let (listed, actions) = out.state.ended()->Ok_0;
            let after = all_performed(out.actions + actions, disk);
            &&& listed.len() == files.len()
            &&& forall|j: int|
                0 <= j < files.len() ==> if has_begun(files, data, j) {
                    &&& decrypted_stream(master_key, part(files, data, j)) matches Ok(plaintext)
                    &&& plaintext.len() <= usize::MAX
                    &&& #[trigger] listed[j] == (FileInfo {
                        decrypted_length: Some(plaintext.len() as usize),
                        ..files[j]
                    })
                } else {
                    listed[j] == files[j]
                }
            &&& forall|j: nat| #[trigger]
                after.dom().contains(j) == (disk.dom().contains(j) || (j < files.len()
                    && wanted.contains(j as usize) && has_begun(files, data, j as int)))
            &&& forall|j: nat| #[trigger]
                after[j] == if j < files.len() && wanted.contains(j as usize) && has_begun(
                    files,
                    data,
                    j as int,
                ) {
                    decrypted_stream(master_key, part(files, data, j as int))->Ok_0
                } else {
                    disk[j]
                }
        }),
{
    let out = fresh_router(files, master_key, wanted).routed_all(chunks);
    let data = concat(chunks);
    let (listed, actions) = out.state.ended()->Ok_0;
    let before = all_performed(out.actions, disk);
    let after = all_performed(out.actions + actions, disk);
    every_file_gets_its_part(files, master_key, wanted, chunks, disk);
    lemma_performed_add(out.actions, actions, disk);
    let i = out.state.index;
    if out.state.current is Some {
        let stream = part(files, data, i as int);
        let (reader, _) = fresh_decryptor(Seq::empty()).processed(stream, master_key);
        let end = out.state.current->0.finished()->Ok_0;
        lemma_stream_end(master_key, stream);
        let plaintext = reader.output + end.output;
        assert(listed == with_decrypted_length(out.state.files, i as int, plaintext.len()));
        if wanted.contains(i as usize) {
            lemma_performed_one(Action::Write(i, end.output), before);
            assert(before[i] == reader.output);
            assert(before.dom().contains(i));
            assert(after == before.insert(i, plaintext));
        } else {
            assert(after == before);
        }
        assert forall|j: int| 0 <= j < files.len() && j != i && #[trigger] has_begun(
            files,
            data,
            j,
        ) implies is_whole(files, data, j) by {
            if j < i {
                lemma_offsets_grow(files, j + 1, i as int);
            } else {
                lemma_offsets_grow(files, (i + 1) as int, j);
            }
        }
    } else {
        assert(after == before);
    }
    assert forall|j: int| 0 <= j < files.len() implies if has_begun(files, data, j) {
        &&& decrypted_stream(master_key, part(files, data, j)) matches Ok(plaintext)
        &&& plaintext.len() <= usize::MAX
        &&& #[trigger] listed[j] == (FileInfo {
            decrypted_length: Some(plaintext.len() as usize),
            ..files[j]
        })
    } else {
        listed[j] == files[j]
    } by {
        lemma_stream_end(master_key, part(files, data, j));
        if has_begun(files, data, j) && !(out.state.current is Some && i == j) {
            assert(is_whole(files, data, j));
        }
    }
    assert forall|j: nat| #[trigger] after[j] == if j < files.len() && wanted.contains(j as usize)
        && has_begun(files, data, j as int) {
        decrypted_stream(master_key, part(files, data, j as int))->Ok_0
    } else {
        disk[j]
    } by {
        if j < files.len() && has_begun(files, data, j as int) && !(out.state.current is Some && i
            == j) {
            assert(is_whole(files, data, j as int));
        }
    }
    assert forall|j: nat| #[trigger] after.dom().contains(j) == (disk.dom().contains(j) || (j
        < files.len() && wanted.contains(j as usize) && has_begun(files, data, j as int))) by {}
}

} // verus!
