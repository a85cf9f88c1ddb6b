//! Decryption of a torrent's data into its files. The data is the encrypted files one behind the
//! other; each is a stream of its own.

use std::collections::HashSet;

use vstd::prelude::*;

use crate::bencode::FileInfo;
use crate::decrypt::{fresh_decryptor, DecryptorState, StreamingDecryptor};
use crate::error::Error;

verus! {

/// What is to be done to a file on disk.
#[derive(Debug)]
pub enum FileAction {
    /// Create the file with this index, or empty it.
    Create(usize),
    /// Append to the file with this index.
    Write(usize, Vec<u8>),
}

/// The meaning of a [`FileAction`].
pub enum Action {
    Create(nat),
    Write(nat, Seq<u8>),
}

impl View for FileAction {
    type V = Action;

    open spec fn view(&self) -> Action {
        match *self {
            FileAction::Create(index) => Action::Create(index as nat),
            FileAction::Write(index, data) => Action::Write(index as nat, data@),
        }
    }
}

/// The meaning of a list of actions.
pub open spec fn actions_of(actions: Seq<FileAction>) -> Seq<Action> {
    Seq::new(actions.len(), |i: int| actions[i]@)
}

/// The contents of the files on disk, by index, after an action.
pub open spec fn performed(action: Action, disk: Map<nat, Seq<u8>>) -> Map<nat, Seq<u8>> {
    match action {
        Action::Create(index) => disk.insert(index, Seq::empty()),
        Action::Write(index, data) => disk.insert(index, disk[index] + data),
    }
}

/// The contents of the files on disk, by index, after all actions in turn.
pub open spec fn all_performed(actions: Seq<Action>, disk: Map<nat, Seq<u8>>) -> Map<nat, Seq<u8>>
    decreases actions.len(),
{
    if actions.len() == 0 {
        disk
    } else {
        performed(actions.last(), all_performed(actions.drop_last(), disk))
    }
}

/// The state of a decryptor for several files: the files, which of them comes next, the decryptor
/// of the one that has been begun, and how many bytes of it have come.
pub struct RouterState {
    pub files: Seq<FileInfo>,
    pub index: nat,
    pub current: Option<DecryptorState>,
    pub fed: nat,
    pub master_key: Seq<u8>,
    pub wanted: Set<usize>,
}

/// The outcome of a step or of several: the state, what is to be done on disk, and the error.
pub struct Outcome {
    pub state: RouterState,
    pub actions: Seq<Action>,
    pub error: Option<Error>,
}

impl RouterState {
    /// What holds of every state: a file that has been begun is among the files, has not got more
    /// bytes than it has, and what it decrypted to has been taken away.
    pub open spec fn valid(self) -> bool {
        &&& self.index <= self.files.len()
        &&& self.current matches Some(decryptor) ==> {
            &&& decryptor.output == Seq::<u8>::empty()
            &&& self.index < self.files.len()
            &&& self.fed <= self.files[self.index as int].encrypted_length
        }
    }

    /// The state with the next file begun, if none was.
    pub open spec fn opened(self) -> RouterState {
        if self.current is None {
            RouterState { current: Some(fresh_decryptor(Seq::empty())), fed: 0, ..self }
        } else {
            self
        }
    }

    /// The action that begins the next file, if none was begun and it is wanted.
    pub open spec fn open_actions(self) -> Seq<Action> {
        if self.current is None && self.wanted.contains(self.index as usize) {
            seq![Action::Create(self.index)]
        } else {
            Seq::empty()
        }
    }

    /// The action that writes to the current file, if it is wanted.
    pub open spec fn write_actions(self, data: Seq<u8>) -> Seq<Action> {
        if self.wanted.contains(self.index as usize) {
            seq![Action::Write(self.index, data)]
        } else {
            Seq::empty()
        }
    }

    /// How many of `available` bytes belong to the current file.
    pub open spec fn portion(self, available: nat) -> nat {
        let length = self.files[self.index as int].encrypted_length;
        if length <= self.fed {
            0
        } else if length - self.fed <= available {
            (length - self.fed) as nat
        } else {
            available
        }
    }

    /// The current file takes its portion of the data. With the last byte of the file its stream
    /// is ended, and its decrypted length is noted.
    #[verifier::opaque]
    pub open spec fn step(self, data: Seq<u8>) -> Outcome {
        let state = self.opened();
        let n = state.portion(data.len());
        let length = state.files[state.index as int].encrypted_length;
        let (fed_decryptor, error) = state.current->0.processed(
            data.take(n as int),
            state.master_key,
        );
        let actions = self.open_actions() + state.write_actions(fed_decryptor.output);
        let decryptor = DecryptorState { output: Seq::empty(), ..fed_decryptor };
        if error is Some {
            Outcome {
                state: RouterState { current: Some(decryptor), ..state },
                actions,
                error,
            }
        } else if state.fed + n < length {
            Outcome {
                state: RouterState { current: Some(decryptor), fed: state.fed + n, ..state },
                actions,
                error: None,
            }
        } else {
            match decryptor.finished() {
                Err(e) => Outcome {
                    state: RouterState { current: None, fed: state.fed + n, ..state },
                    actions,
                    error: Some(e),
                },
                Ok(end) => Outcome {
                    state: RouterState {
                        files: with_decrypted_length(state.files, state.index as int, end.written),
                        index: state.index + 1,
                        current: None,
                        fed: 0,
                        ..state
                    },
                    actions: actions + state.write_actions(end.output),
                    error: None,
                },
            }
        }
    }

    /// All of a chunk is handed to the files that it belongs to, up to the first error. Data
    /// behind the last file is an error.
    pub open spec fn routed(self, chunk: Seq<u8>) -> Outcome
        decreases chunk.len(), self.files.len() - self.index,
    {
        if chunk.len() == 0 {
            Outcome { state: self, actions: Seq::empty(), error: None }
        } else if self.index >= self.files.len() {
            Outcome { state: self, actions: Seq::empty(), error: Some(Error::TooMuchData) }
        } else {
            proof {
                reveal(RouterState::step);
            }
            let first = self.step(chunk);
            if first.error is Some {
                first
            } else {
                let rest = first.state.routed(
                    chunk.skip(self.opened().portion(chunk.len()) as int),
                );
                Outcome { actions: first.actions + rest.actions, ..rest }
            }
        }
    }

    /// The end of the data: a file that has been begun is ended. Gives the files with their
    /// decrypted lengths, and what is still to be done on disk.
    pub open spec fn ended(self) -> Result<(Seq<FileInfo>, Seq<Action>), Error> {
        match self.current {
            None => Ok((self.files, Seq::empty())),
            Some(decryptor) => match decryptor.finished() {
                Err(e) => Err(e),
                Ok(end) => Ok(
                    (
                        with_decrypted_length(self.files, self.index as int, end.written),
                        self.write_actions(end.output),
                    ),
                ),
            },
        }
    }
}

/// The files, with the decrypted length of one of them noted.
pub open spec fn with_decrypted_length(files: Seq<FileInfo>, index: int, length: nat) -> Seq<
    FileInfo,
> {
    files.update(index, FileInfo { decrypted_length: Some(length as usize), ..files[index] })
}

/// The state before any data has come.
pub open spec fn fresh_router(
    files: Seq<FileInfo>,
    master_key: Seq<u8>,
    wanted: Set<usize>,
) -> RouterState {
    RouterState { files, index: 0, current: None, fed: 0, master_key, wanted }
}

/// Streaming decryptor for several files. It hands each part of the encrypted data to the file
/// that it belongs to, and tells what is to be written to which file. Files that are not wanted
/// are decrypted all the same, for their lengths, but not written.
pub struct MultiFileDecryptor {
    files: Vec<FileInfo>,
    current_file_index: usize,
    current_file_decryptor: Option<StreamingDecryptor>,
    bytes_fed_to_current_file: usize,
    master_key: Vec<u8>,
    files_to_download: HashSet<usize>,
}

impl View for MultiFileDecryptor {
    type V = RouterState;

    closed spec fn view(&self) -> RouterState {
        RouterState {
            files: self.files@,
            index: self.current_file_index as nat,
            current: match self.current_file_decryptor {
                Some(decryptor) => Some(decryptor@),
                None => None,
            },
            fed: self.bytes_fed_to_current_file as nat,
            master_key: self.master_key@,
            wanted: self.files_to_download@,
        }
    }
}

impl MultiFileDecryptor {
    /// What holds of every decryptor.
    pub closed spec fn wf(self) -> bool {
        &&& self@.valid()
        &&& self.current_file_decryptor matches Some(decryptor) ==> decryptor.wf()
    }

    /// The state of every decryptor is valid.
    pub proof fn lemma_valid(&self)
        requires
            self.wf(),
        ensures
            self@.valid(),
    {
    }

    /// Creates a decryptor for these files; those with an index in `files_to_download` are
    /// wanted.
    pub fn new(
        files: Vec<FileInfo>,
        master_key: Vec<u8>,
        files_to_download: HashSet<usize>,
    ) -> (decryptor: Self)
        ensures
            decryptor.wf(),
            decryptor@ == fresh_router(files@, master_key@, files_to_download@),
    {
        MultiFileDecryptor {
            files,
            current_file_index: 0,
            current_file_decryptor: None,
            bytes_fed_to_current_file: 0,
            master_key,
            files_to_download,
        }
    }

    /// Hands the current file its portion of the data, and begins or ends the file where that is
    /// due. Adds to `actions` what is to be done on disk, and returns how much of the data was
    /// used.
    fn feed_current_file(&mut self, data: &[u8], actions: &mut Vec<FileAction>) -> (r: Result<
        usize,
        Error,
    >)
        requires
            old(self).wf(),
            old(self)@.index < old(self)@.files.len(),
        ensures
            final(self).wf(),
            final(self)@ == old(self)@.step(data@).state,
            actions_of(final(actions)@) == actions_of(old(actions)@) + old(self)@.step(
                data@,
            ).actions,
            r.err() == old(self)@.step(data@).error,
            r matches Ok(used) ==> used == old(self)@.opened().portion(data@.len()),
    {
        broadcast use vstd::std_specs::hash::group_hash_axioms;

        proof {
            reveal(RouterState::step);
        }
        let ghost before = self@;
        let ghost opened = before.opened();
        let ghost done = actions_of(actions@);
        let index: usize = self.current_file_index;
        let wanted: bool = self.files_to_download.contains(&index);
        let mut decryptor: StreamingDecryptor = match self.current_file_decryptor.take() {
            Some(decryptor) => decryptor,
            None => {
                if wanted {
                    actions.push(FileAction::Create(index));
                }
                self.bytes_fed_to_current_file = 0;
                StreamingDecryptor::new(Vec::new())
            },
        };
        assert(actions_of(actions@) =~= done + before.open_actions());
        let length: usize = self.files[index].encrypted_length;
        let remaining_in_file: usize = length - self.bytes_fed_to_current_file;
        let bytes_to_feed: usize = if remaining_in_file <= data.len() {
            remaining_in_file
        } else {
            data.len()
        };
        let portion: &[u8] = vstd::slice::slice_subrange(data, 0, bytes_to_feed);
        assert(portion@ =~= data@.take(bytes_to_feed as int));
        let result: Result<(), Error> = decryptor.process_chunk(
            portion,
            self.master_key.as_slice(),
        );
        let output: Vec<u8> = decryptor.take_output();
        let ghost written = opened.write_actions(output@);
        if wanted {
            actions.push(FileAction::Write(index, output));
        }
        assert(actions_of(actions@) =~= done + (before.open_actions() + written));
        match result {
            Ok(_) => {},
            Err(e) => {
                self.current_file_decryptor = Some(decryptor);
                return Err(e);
            },
        }
        self.bytes_fed_to_current_file = self.bytes_fed_to_current_file + bytes_to_feed;
        if self.bytes_fed_to_current_file < length {
            self.current_file_decryptor = Some(decryptor);
        } else {
            match decryptor.finalize() {
                Ok((rest, decrypted_length)) => {
                    let ghost last = opened.write_actions(rest@);
                    if wanted {
                        actions.push(FileAction::Write(index, rest));
                    }
                    assert(actions_of(actions@) =~= done + (before.open_actions() + written
                        + last));
                    self.files[index].decrypted_length = Some(decrypted_length);
                    assert(self.files@ =~= with_decrypted_length(
                        before.files,
                        index as int,
                        decrypted_length as nat,
                    ));
                },
                Err(e) => {
                    return Err(e);
                },
            }
            assert(index < self.files.len());
            self.current_file_index = index + 1;
            self.bytes_fed_to_current_file = 0;
        }
        Ok(bytes_to_feed)
    }

    /// Processes a chunk of the encrypted data. Returns what is to be done on disk, also where
    /// it fails.
    #[verifier::rlimit(30)]
    pub fn process_chunk(&mut self, chunk: &[u8]) -> (r: (Vec<FileAction>, Result<(), Error>))
        requires
            old(self).wf(),
        ensures
            final(self).wf(),
            final(self)@ == old(self)@.routed(chunk@).state,
            actions_of(r.0@) == old(self)@.routed(chunk@).actions,
            r.1.err() == old(self)@.routed(chunk@).error,
    {
        let mut actions: Vec<FileAction> = Vec::new();
        let mut chunk_offset: usize = 0;
        assert(chunk@.skip(0) =~= chunk@);
        assert(actions_of(actions@) + self@.routed(chunk@).actions =~= self@.routed(
            chunk@,
        ).actions);
        while chunk_offset < chunk.len()
            invariant
                self.wf(),
                chunk_offset <= chunk@.len(),
                self@.routed(chunk@.skip(chunk_offset as int)).state == old(self)@.routed(
                    chunk@,
                ).state,
                self@.routed(chunk@.skip(chunk_offset as int)).error == old(self)@.routed(
                    chunk@,
                ).error,
                actions_of(actions@) + self@.routed(chunk@.skip(chunk_offset as int)).actions
                    == old(self)@.routed(chunk@).actions,
            decreases chunk@.len() - chunk_offset, self@.files.len() - self@.index,
        {
            if self.current_file_index >= self.files.len() {
                proof {
                    assert(actions_of(actions@) + Seq::<Action>::empty() =~= actions_of(actions@));
                }
                return (actions, Err(Error::TooMuchData));
            }
            let ghost before = self@;
            let ghost done = actions_of(actions@);
            let data: &[u8] = vstd::slice::slice_subrange(chunk, chunk_offset, chunk.len());
            assert(data@ =~= chunk@.skip(chunk_offset as int));
            proof {
                reveal(RouterState::step);
            }
            match self.feed_current_file(data, &mut actions) {
                Ok(used) => {
                    chunk_offset = chunk_offset + used;
                    proof {
                        assert(chunk@.skip(chunk_offset as int) =~= data@.skip(used as int));
                        let first = before.step(data@).actions;
                        let rest = self@.routed(data@.skip(used as int)).actions;
                        assert(done + first + rest =~= done + (first + rest));
                    }
                },
                Err(e) => {
                    return (actions, Err(e));
                },
            }
        }
        proof {
            assert(chunk@.skip(chunk_offset as int) =~= Seq::<u8>::empty());
            assert(actions_of(actions@) + Seq::<Action>::empty() =~= actions_of(actions@));
        }
        (actions, Ok(()))
    }

    /// Ends the data: a file that has been begun is ended. Returns the files with their decrypted
    /// lengths, and what is still to be done on disk.
    pub fn finalize(self) -> (r: Result<(Vec<FileInfo>, Vec<FileAction>), Error>)
        requires
            self.wf(),
        ensures
            match r {
                Ok((files, actions)) => self@.ended() == Ok::<(Seq<FileInfo>, Seq<Action>), Error>(
                    (files@, actions_of(actions@)),
                ),
                Err(e) => self@.ended() == Err::<(Seq<FileInfo>, Seq<Action>), Error>(e),
            },
    {
        broadcast use vstd::std_specs::hash::group_hash_axioms;

        let mut router: MultiFileDecryptor = self;
        let mut actions: Vec<FileAction> = Vec::new();
        let index: usize = router.current_file_index;
        match router.current_file_decryptor.take() {
            Some(decryptor) => match decryptor.finalize() {
                Ok((rest, decrypted_length)) => {
                    if router.files_to_download.contains(&index) {
                        actions.push(FileAction::Write(index, rest));
                    }
                    router.files[index].decrypted_length = Some(decrypted_length);
                    assert(actions_of(actions@) =~= self@.write_actions(rest@));
                    assert(router.files@ =~= with_decrypted_length(
                        self@.files,
                        index as int,
                        decrypted_length as nat,
                    ));
                },
                Err(e) => {
                    return Err(e);
                },
            },
            None => {
                assert(actions_of(actions@) =~= Seq::<Action>::empty());
            },
        }
        Ok((router.files, actions))
    }
}

} // verus!
