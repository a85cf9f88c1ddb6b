//! Paths: which of a torrent's files may be written and are to be, and the files of a directory
//! that is uploaded.

use std::collections::HashSet;

use vstd::prelude::*;
use vstd::string::*;
use vstd::utf8::{encode_utf8, is_ascii_chars};

use crate::bencode::same_bytes;
use crate::bencoding::{
    bytes_less, first_differs_at, is_bytes_less, lemma_bytes_less_at, lemma_bytes_less_total,
    lemma_bytes_less_transitive,
};
use crate::text::{
    lemma_last_part, lemma_split_nonempty, lemma_split_whole, split, split_text, texts,
};

verus! {

// ---- outside functions ----

/// Whether a character is white space, as Unicode has it.
pub open spec fn is_white_space(c: char) -> bool {
    ||| '\u{9}' <= c <= '\u{d}'
    ||| c == ' '
    ||| c == '\u{85}'
    ||| c == '\u{a0}'
    ||| c == '\u{1680}'
    ||| '\u{2000}' <= c <= '\u{200a}'
    ||| '\u{2028}' <= c <= '\u{2029}'
    ||| c == '\u{202f}'
    ||| c == '\u{205f}'
    ||| c == '\u{3000}'
}

/// A text without the white space at its ends.
pub open spec fn trimmed(text: Seq<char>) -> Seq<char>
    decreases text.len(),
{
    if text.len() == 0 {
        text
    } else if is_white_space(text[0]) {
        trimmed(text.drop_first())
    } else if is_white_space(text.last()) {
        trimmed(text.drop_last())
    } else {
        text
    }
}

/// A text in lower case.
pub uninterp spec fn lowercase(text: Seq<char>) -> Seq<char>;

/// A text of ASCII characters in lower case.
pub open spec fn ascii_lowercase(text: Seq<char>) -> Seq<char> {
    Seq::new(
        text.len(),
        |i: int|
            if 'A' <= text[i] <= 'Z' {
                (text[i] as u32 + 32) as char
            } else {
                text[i]
            },
    )
}

/// `str::trim`. The result is the text without the white space at its ends.
#[verifier::external_body]
fn trim(text: &str) -> (r: String)
    ensures
        r@ == trimmed(text@),
{
    text.trim().to_string()
}

/// `str::to_lowercase`. The result depends on the text alone; in a text of ASCII characters the
/// capital letters become small ones, and the others stay.
#[verifier::external_body]
fn to_lowercase(text: &str) -> (r: String)
    ensures
        r@ == lowercase(text@),
        is_ascii_chars(text@) ==> r@ == ascii_lowercase(text@),
{
    text.to_lowercase()
}

/// Whether a text is all white space.
pub open spec fn is_blank(text: Seq<char>) -> bool {
    forall|i: int| 0 <= i < text.len() ==> is_white_space(#[trigger] text[i])
}

/// Whether a text is another without the white space at its ends: only white space was taken off,
/// and none is left there.
pub open spec fn is_trimmed(middle: Seq<char>, text: Seq<char>) -> bool {
    &&& exists|before: Seq<char>, behind: Seq<char>|
        #![trigger is_blank(before), is_blank(behind)]
        is_blank(before) && is_blank(behind) && text == before + middle + behind
    &&& middle.len() > 0 ==> !is_white_space(middle[0]) && !is_white_space(middle.last())
}

/// Trimming takes off the white space at the ends, and nothing else.
pub proof fn trimming_takes_off_white_space(text: Seq<char>)
    ensures
        is_trimmed(trimmed(text), text),
    decreases text.len(),
{
    let none = Seq::<char>::empty();
    if text.len() > 0 && is_white_space(text[0]) {
        let rest = text.drop_first();
        trimming_takes_off_white_space(rest);
        let (before, behind) = choose|before: Seq<char>, behind: Seq<char>|
            #![trigger is_blank(before), is_blank(behind)]
            is_blank(before) && is_blank(behind) && rest == before + trimmed(rest) + behind;
        let longer = seq![text[0]] + before;
        assert(is_blank(longer) && is_blank(behind));
        assert(rest == before + trimmed(rest) + behind);
        assert(text =~= seq![text[0]] + rest);
        assert(text =~= longer + trimmed(rest) + behind);
    } else if text.len() > 0 && is_white_space(text.last()) {
        let rest = text.drop_last();
        trimming_takes_off_white_space(rest);
        let (before, behind) = choose|before: Seq<char>, behind: Seq<char>|
            #![trigger is_blank(before), is_blank(behind)]
            is_blank(before) && is_blank(behind) && rest == before + trimmed(rest) + behind;
        let longer = behind.push(text.last());
        assert(is_blank(before) && is_blank(longer));
        assert(rest == before + trimmed(rest) + behind);
        assert(text =~= rest.push(text.last()));
        assert(text =~= before + trimmed(rest) + longer);
    } else {
        assert(is_blank(none));
        assert(text =~= none + text + none);
    }
}

// ---- paths in a torrent ----

/// Why a file of a torrent must not be written.
#[derive(Debug, Clone, Copy, PartialEq, Eq, Structural)]
pub enum PathFault {
    /// The path begins at the root.
    Absolute,
    /// A part of the path leads to the parent directory.
    Parent,
}

/// What is wrong with the path of a file, if anything is. A path that begins with `/` leaves the
/// output directory, and one with a part `..` may leave it. Other ways to write a path, which
/// some platforms have, are for the program to refuse.
pub open spec fn path_fault(path: Seq<char>) -> Option<PathFault> {
    if path.len() > 0 && path[0] == '/' {
        Some(PathFault::Absolute)
    } else if split(path, '/').contains(".."@) {
        Some(PathFault::Parent)
    } else {
        None
    }
}

/// Whether a path has a part `..` at `i`: two points with a slash, or the end of the path, on
/// either side.
pub open spec fn has_parent_at(path: Seq<char>, i: int) -> bool {
    &&& 0 <= i
    &&& i + 2 <= path.len()
    &&& path[i] == '.'
    &&& path[i + 1] == '.'
    &&& i > 0 ==> path[i - 1] == '/'
    &&& i + 2 < path.len() ==> path[i + 2] == '/'
}

/// Whether a part stands in a path at `p`, between slashes or the ends of the path.
spec fn stands_between(path: Seq<char>, part: Seq<char>, p: int) -> bool {
    &&& 0 <= p
    &&& p + part.len() <= path.len()
    &&& part == path.subrange(p, p + part.len())
    &&& p > 0 ==> path[p - 1] == '/'
    &&& p + part.len() < path.len() ==> path[p + part.len()] == '/'
}

/// Every part of a path stands somewhere in it, and the last one at its end.
proof fn lemma_part_stands(path: Seq<char>, j: int)
    requires
        0 <= j < split(path, '/').len(),
    ensures
        exists|p: int| #[trigger]
            stands_between(path, split(path, '/')[j], p) && (j == split(path, '/').len() - 1 <==> p
                + split(path, '/')[j].len() == path.len()),
    decreases path.len(),
{
    let parts = split(path, '/');
    if path.len() == 0 {
        assert(parts[j] =~= path.subrange(0, 0));
        assert(stands_between(path, parts[j], 0));
    } else {
        let start = path.drop_last();
        let before = split(start, '/');
        lemma_split_nonempty(start, '/');
        if j == before.len() {
            assert(parts[j] =~= path.subrange(path.len() as int, path.len() as int));
            assert(stands_between(path, parts[j], path.len() as int));
        } else {
            lemma_part_stands(start, j);
            let p = choose|p: int| #[trigger]
                stands_between(start, before[j], p) && (j == before.len() - 1 <==> p
                    + before[j].len() == start.len());
            if j < before.len() - 1 || path.last() == '/' {
                assert(parts[j] == before[j]);
                assert(parts[j] =~= path.subrange(p, p + parts[j].len()));
            } else {
                assert(parts[j] == before[j].push(path.last()));
                assert(parts[j] =~= path.subrange(p, p + parts[j].len()));
            }
            assert(stands_between(path, parts[j], p));
        }
    }
}

/// What a path ends with behind its last slash is its last part.
proof fn lemma_parent_at_end(path: Seq<char>, i: int)
    requires
        has_parent_at(path, i),
        i + 2 == path.len(),
    ensures
        split(path, '/').len() > 0,
        split(path, '/').last() == seq!['.', '.'],
{
    let part = seq!['.', '.'];
    lemma_split_nonempty(path, '/');
    assert(!part.contains('/')) by {
        assert(part[0] == '.' && part[1] == '.');
    }
    if i == 0 {
        assert(path =~= part);
        lemma_split_whole(path, '/');
    } else {
        assert(path =~= path.take(i) + part);
        lemma_last_part(path.take(i), part, '/');
    }
}

/// A part `..` that has a slash behind it is one of the parts before the last.
proof fn lemma_parent_inside(path: Seq<char>, i: int)
    requires
        has_parent_at(path, i),
        i + 2 < path.len(),
    ensures
        exists|j: int|
            0 <= j < split(path, '/').len() - 1 && #[trigger] split(path, '/')[j] == seq!['.', '.'],
    decreases path.len(),
{
    let start = path.drop_last();
    let before = split(start, '/');
    let parts = split(path, '/');
    lemma_split_nonempty(start, '/');
    if i + 2 == start.len() {
        lemma_parent_at_end(start, i);
        assert(path.last() == path[i + 2]);
        assert(parts[before.len() - 1] == seq!['.', '.']);
    } else {
        lemma_parent_inside(start, i);
        let j = choose|j: int| 0 <= j < before.len() - 1 && #[trigger] before[j] == seq!['.', '.'];
        assert(parts[j] == before[j]);
    }
}

/// A path is refused as absolute if and only if it begins with a slash, and else as leading to a
/// parent if and only if somewhere in it two points stand between slashes or its ends. Any other
/// path is sound.
pub proof fn faulty_paths_are_told(path: Seq<char>)
    ensures
        path_fault(path) == Some(PathFault::Absolute) <==> path.len() > 0 && path[0] == '/',
        path_fault(path) == Some(PathFault::Parent) <==> !(path.len() > 0 && path[0] == '/')
            && exists|i: int| #[trigger] has_parent_at(path, i),
{
    reveal_strlit("..");
    let dots = ".."@;
    assert(dots =~= seq!['.', '.']);
    let parts = split(path, '/');
    if parts.contains(dots) {
        let j = parts.index_of(dots);
        lemma_part_stands(path, j);
        let p = choose|p: int| #[trigger]
            stands_between(path, parts[j], p) && (j == parts.len() - 1 <==> p + parts[j].len()
                == path.len());
        assert(path[p] == parts[j][0] && path[p + 1] == parts[j][1]);
        assert(has_parent_at(path, p));
    }
    if exists|i: int| #[trigger] has_parent_at(path, i) {
        let i = choose|i: int| #[trigger] has_parent_at(path, i);
        if i + 2 == path.len() {
            lemma_parent_at_end(path, i);
            assert(parts[parts.len() - 1] == dots);
        } else {
            lemma_parent_inside(path, i);
        }
        assert(parts.contains(dots));
    }
}

/// What is wrong with the path of a file, if anything is.
pub fn check_path(path: &str) -> (r: Option<PathFault>)
    ensures
        r == path_fault(path@),
{
    if !path.is_empty() && path.get_char(0) == '/' {
        return Some(PathFault::Absolute);
    }
    let parts: Vec<String> = split_text(path, '/');
    let parent: String = "..".to_owned();
    let mut i: usize = 0;
    while i < parts.len()
        invariant
            i <= parts@.len(),
            parent@ == ".."@,
            texts(parts@) == split(path@, '/'),
            !(path@.len() > 0 && path@[0] == '/'),
            forall|k: int| 0 <= k < i ==> #[trigger] texts(parts@)[k] != ".."@,
        decreases parts@.len() - i,
    {
        if parts[i] == parent {
            assert(texts(parts@)[i as int] == ".."@);
            return Some(PathFault::Parent);
        }
        i = i + 1;
    }
    None
}

/// The fault of a path in words.
pub open spec fn fault_words(path: Seq<char>, fault: PathFault) -> Seq<char> {
    "Path traversal detected: file path '"@ + path + match fault {
        PathFault::Absolute => "' is absolute"@,
        PathFault::Parent => "' contains '..'"@,
    }
}

/// The fault of a path in words names the whole path, and tells what is wrong with it.
pub proof fn fault_names_the_path(path: Seq<char>, fault: PathFault)
    ensures
        ({
            let words = fault_words(path, fault);
            let n = path.len() as int;
            &&& words.len() >= 36 + n
            &&& words.take(36) == "Path traversal detected: file path '"@
            &&& words.subrange(36, 36 + n) == path
            &&& fault == PathFault::Absolute ==> words.skip(36 + n) == "' is absolute"@
            &&& fault == PathFault::Parent ==> words.skip(36 + n) == "' contains '..'"@
        }),
{
    reveal_strlit("Path traversal detected: file path '");
    let words = fault_words(path, fault);
    let n = path.len() as int;
    assert(words.take(36) =~= "Path traversal detected: file path '"@);
    assert(words.subrange(36, 36 + n) =~= path);
    if fault == PathFault::Absolute {
        assert(words.skip(36 + n) =~= "' is absolute"@);
    } else {
        assert(words.skip(36 + n) =~= "' contains '..'"@);
    }
}

/// The fault of a path in words.
pub fn fault_message(path: &str, fault: PathFault) -> (text: String)
    ensures
        text@ == fault_words(path@, fault),
{
    let mut text: String = "Path traversal detected: file path '".to_owned();
    text.append(path);
    match fault {
        PathFault::Absolute => {
            text.append("' is absolute");
        },
        PathFault::Parent => {
            text.append("' contains '..'");
        },
    }
    text
}

// ---- which files to download ----

/// What the user says to replacing a file.
#[derive(Debug, Clone, Copy, PartialEq, Eq, Structural)]
pub enum Reply {
    Yes,
    No,
    All,
    Other,
}

/// What a reply means, once it has been trimmed and put in lower case.
pub open spec fn reply_meaning(text: Seq<char>) -> Reply {
    if text == "y"@ || text == "yes"@ {
        Reply::Yes
    } else if text == "n"@ || text == "no"@ {
        Reply::No
    } else if text == "a"@ || text == "all"@ {
        Reply::All
    } else {
        Reply::Other
    }
}

/// The replies that are understood are the letters `y`, `n` and `a`, and the words that they begin;
/// nothing else agrees to anything.
pub proof fn replies_are_letters_or_words(text: Seq<char>)
    ensures
        reply_meaning(text) == Reply::Yes <==> text == seq!['y'] || text == seq!['y', 'e', 's'],
        reply_meaning(text) == Reply::No <==> text == seq!['n'] || text == seq!['n', 'o'],
        reply_meaning(text) == Reply::All <==> text == seq!['a'] || text == seq!['a', 'l', 'l'],
{
    reveal_strlit("y");
    reveal_strlit("yes");
    reveal_strlit("n");
    reveal_strlit("no");
    reveal_strlit("a");
    reveal_strlit("all");
    assert("y"@ =~= seq!['y'] && "yes"@ =~= seq!['y', 'e', 's']);
    assert("n"@ =~= seq!['n'] && "no"@ =~= seq!['n', 'o']);
    assert("a"@ =~= seq!['a'] && "all"@ =~= seq!['a', 'l', 'l']);
    assert(seq!['y'][0] == 'y' && seq!['y', 'e', 's'][0] == 'y');
    assert(seq!['n'][0] == 'n' && seq!['n', 'o'][0] == 'n');
    assert(seq!['a'][0] == 'a' && seq!['a', 'l', 'l'][0] == 'a');
}

/// What a reply means, once it has been trimmed and put in lower case.
pub fn classify_reply(text: &String) -> (reply: Reply)
    ensures
        reply == reply_meaning(text@),
{
    if *text == "y".to_owned() || *text == "yes".to_owned() {
        Reply::Yes
    } else if *text == "n".to_owned() || *text == "no".to_owned() {
        Reply::No
    } else if *text == "a".to_owned() || *text == "all".to_owned() {
        Reply::All
    } else {
        Reply::Other
    }
}

/// What the line means that a user typed.
pub fn read_reply(line: &str) -> (reply: Reply)
    ensures
        reply == reply_meaning(lowercase(trimmed(line@))),
        is_ascii_chars(trimmed(line@)) ==> reply == reply_meaning(ascii_lowercase(trimmed(line@))),
{
    let text: String = to_lowercase(trim(line).as_str());
    classify_reply(&text)
}

/// What is to be done next to find out which files to download.
#[derive(Debug, Clone, Copy, PartialEq, Eq, Structural)]
pub enum Step {
    /// Give up: the path of the file with this index is at fault.
    Refuse(usize, PathFault),
    /// Look whether the file with this index is there.
    Inspect(usize),
    /// Ask the user whether to replace the file with this index.
    Ask(usize),
    /// Make the directory of the file with this index.
    Prepare(usize),
    /// All files have been decided on.
    Done,
}

/// What is known of the next file.
#[derive(Debug, Clone, Copy, PartialEq, Eq, Structural)]
pub enum Phase {
    /// Nothing yet.
    Unknown,
    /// It is there, and may be replaced only if the user says so.
    Present,
    /// It is to be downloaded.
    Accepted,
}

/// The state of a plan: the paths of the files, which of them comes next and what is known of it,
/// whether all files are replaced, and which files were chosen.
#[verifier::ext_equal]
pub struct PlanState {
    pub paths: Seq<Seq<char>>,
    pub next: nat,
    pub phase: Phase,
    pub replace_all: bool,
    pub chosen: Set<usize>,
}

impl PlanState {
    /// What holds of every state: nothing is done to a file before its path was found sound, no
    /// file with another path was gone past, and those that were chosen have been gone past.
    pub open spec fn valid(self) -> bool {
        &&& self.paths.len() <= usize::MAX
        &&& self.next <= self.paths.len()
        &&& forall|i: int|
            0 <= i < self.next ==> path_fault(#[trigger] self.paths[i]) is None
        &&& self.phase != Phase::Unknown ==> self.next < self.paths.len() && path_fault(
            self.paths[self.next as int],
        ) is None
        &&& forall|i: usize| #[trigger] self.chosen.contains(i) ==> i < self.next
    }

    /// What is to be done next.
    pub open spec fn step(self) -> Step {
        if self.next >= self.paths.len() {
            Step::Done
        } else {
            match self.phase {
                Phase::Unknown => match path_fault(self.paths[self.next as int]) {
                    Some(fault) => Step::Refuse(self.next as usize, fault),
                    None => Step::Inspect(self.next as usize),
                },
                Phase::Present => Step::Ask(self.next as usize),
                Phase::Accepted => Step::Prepare(self.next as usize),
            }
        }
    }

    /// The state with the next file decided on.
    pub open spec fn passed(self) -> PlanState {
        PlanState { next: self.next + 1, phase: Phase::Unknown, ..self }
    }

    /// The state after the next file was looked for: one that is not there is downloaded, one that
    /// is there too if all are replaced.
    pub open spec fn inspected(self, present: bool) -> PlanState {
        PlanState {
            phase: if present && !self.replace_all {
                Phase::Present
            } else {
                Phase::Accepted
            },
            ..self
        }
    }

    /// The state after the user was asked about the next file. A reply for all files holds from
    /// now on.
    pub open spec fn replied(self, reply: Reply) -> PlanState {
        match reply {
            Reply::Yes => PlanState { phase: Phase::Accepted, ..self },
            Reply::All => PlanState { phase: Phase::Accepted, replace_all: true, ..self },
            Reply::No => self.passed(),
            Reply::Other => self.passed(),
        }
    }

    /// The state after the directory of the next file was made.
    pub open spec fn prepared(self) -> PlanState {
        PlanState { chosen: self.chosen.insert(self.next as usize), ..self }.passed()
    }

    /// The state after the next file, if the file is or is not there and the user, if asked, gives
    /// this reply.
    pub open spec fn decided(self, present: bool, reply: Reply) -> PlanState {
        let found = self.inspected(present);
        let accepted = if found.phase == Phase::Present {
            found.replied(reply)
        } else {
            found
        };
        if accepted.phase == Phase::Accepted {
            accepted.prepared()
        } else {
            accepted
        }
    }
}

/// The state before any file was decided on.
pub open spec fn fresh_plan(paths: Seq<Seq<char>>, replace_all: bool) -> PlanState {
    PlanState {
        paths,
        next: 0,
        phase: Phase::Unknown,
        replace_all,
        chosen: Set::empty(),
    }
}

/// A file is chosen if and only if it is not there, or all files are replaced, or the user agrees
/// to replace it. Nothing else is chosen, the files are decided on one by one, and the user is
/// asked no more once they have agreed for all.
pub proof fn file_is_decided(state: PlanState, present: bool, reply: Reply)
    requires
        state.phase == Phase::Unknown,
        state.next < state.paths.len() <= usize::MAX,
    ensures
        ({
            let after = state.decided(present, reply);
            let agreed = !present || state.replace_all || reply == Reply::Yes || reply
                == Reply::All;
            &&& after.next == state.next + 1
            &&& after.phase == Phase::Unknown
            &&& after.paths == state.paths
            &&& after.chosen == if agreed {
                state.chosen.insert(state.next as usize)
            } else {
                state.chosen
            }
            &&& after.replace_all == (state.replace_all || (present && reply == Reply::All))
        }),
{
}

/// Whether a state is at a file of which nothing is known yet.
pub open spec fn is_at_file(state: PlanState, index: nat) -> bool {
    state.next == index && state.phase == Phase::Unknown && index < state.paths.len()
}

/// A plan goes through its files one by one. A file whose path is at fault ends it. Any other is
/// looked for; if it is there, and not all files are replaced, the user is asked before anything
/// else is done; its directory is made only if it is to be downloaded. It is at its end behind the
/// last file, and not before.
pub proof fn plan_asks_before_it_replaces(state: PlanState, index: nat, present: bool, reply: Reply)
    requires
        is_at_file(state, index),
        state.paths.len() <= usize::MAX,
    ensures
        ({
            let i = index as usize;
            let found = state.inspected(present);
            let answered = found.replied(reply);
            let agreed = reply == Reply::Yes || reply == Reply::All;
            &&& match path_fault(state.paths[index as int]) {
                Some(fault) => state.step() == Step::Refuse(i, fault),
                None => state.step() == Step::Inspect(i),
            }
            &&& found.step() == if present && !state.replace_all {
                Step::Ask(i)
            } else {
                Step::Prepare(i)
            }
            &&& found.chosen == state.chosen
            &&& found.replace_all == state.replace_all
            &&& answered.replace_all == (state.replace_all || reply == Reply::All)
            &&& answered.chosen == state.chosen
            &&& agreed ==> answered.step() == Step::Prepare(i)
            &&& !agreed ==> answered.next == index + 1 && answered.phase == Phase::Unknown
            &&& found.prepared().next == index + 1
            &&& found.prepared().phase == Phase::Unknown
            &&& found.prepared().chosen == state.chosen.insert(i)
            &&& state.step() != Step::Done
            &&& (PlanState { next: state.paths.len(), ..state }).step() == Step::Done
        }),
{
}

/// Decides which files of a torrent are to be downloaded, one after the other.
pub struct DownloadPlan {
    paths: Vec<String>,
    next: usize,
    phase: Phase,
    replace_all: bool,
    selected: HashSet<usize>,
}

impl View for DownloadPlan {
    type V = PlanState;

    closed spec fn view(&self) -> PlanState {
        PlanState {
            paths: texts(self.paths@),
            next: self.next as nat,
            phase: self.phase,
            replace_all: self.replace_all,
            chosen: self.selected@,
        }
    }
}

impl DownloadPlan {
    /// Creates a plan for files with these paths.
    pub fn new(paths: Vec<String>, replace_all: bool) -> (plan: Self)
        ensures
            plan@.valid(),
            plan@ == fresh_plan(texts(paths@), replace_all),
    {
        broadcast use vstd::std_specs::hash::group_hash_axioms;

        let plan = DownloadPlan {
            paths,
            next: 0,
            phase: Phase::Unknown,
            replace_all,
            selected: HashSet::new(),
        };
        assert(plan.paths.len() == texts(paths@).len());
        plan
    }

    /// What is to be done next.
    pub fn step(&self) -> (step: Step)
        ensures
            step == self@.step(),
    {
        if self.next >= self.paths.len() {
            return Step::Done;
        }
        match self.phase {
            Phase::Unknown => {
                assert(self@.paths[self.next as int] == self.paths@[self.next as int]@);
                match check_path(self.paths[self.next].as_str()) {
                    Some(fault) => Step::Refuse(self.next, fault),
                    None => Step::Inspect(self.next),
                }
            },
            Phase::Present => Step::Ask(self.next),
            Phase::Accepted => Step::Prepare(self.next),
        }
    }

    /// Tells whether the next file is there.
    pub fn inspected(&mut self, present: bool)
        requires
            old(self)@.valid(),
            old(self)@.step() is Inspect,
        ensures
            final(self)@.valid(),
            final(self)@ == old(self)@.inspected(present),
    {
        self.phase = if present && !self.replace_all {
            Phase::Present
        } else {
            Phase::Accepted
        };
    }

    /// Goes on to the next file.
    fn pass(&mut self)
        requires
            old(self)@.next < old(self)@.paths.len(),
        ensures
            final(self)@ == old(self)@.passed(),
    {
        assert(self.next < self.paths.len());
        self.next = self.next + 1;
        self.phase = Phase::Unknown;
    }

    /// Tells what the user says to replacing the next file.
    pub fn replied(&mut self, reply: Reply)
        requires
            old(self)@.valid(),
            old(self)@.step() is Ask,
        ensures
            final(self)@.valid(),
            final(self)@ == old(self)@.replied(reply),
    {
        match reply {
            Reply::Yes => {
                self.phase = Phase::Accepted;
            },
            Reply::All => {
                self.replace_all = true;
                self.phase = Phase::Accepted;
            },
            Reply::No => {
                self.pass();
            },
            Reply::Other => {
                self.pass();
            },
        }
    }

    /// Tells that the directory of the next file was made.
    pub fn prepared(&mut self)
        requires
            old(self)@.valid(),
            old(self)@.step() is Prepare,
        ensures
            final(self)@.valid(),
            final(self)@ == old(self)@.prepared(),
    {
        broadcast use vstd::std_specs::hash::group_hash_axioms;

        self.selected.insert(self.next);
        self.pass();
    }

    /// The files that were chosen, once all have been decided on. No path of the torrent begins at
    /// the root or holds a part `..`, be its file chosen or not.
    pub fn into_selection(self) -> (selected: HashSet<usize>)
        requires
            self@.valid(),
            self@.step() is Done,
        ensures
            selected@ == self@.chosen,
            forall|i: int|
                0 <= i < self@.paths.len() ==> path_fault(#[trigger] self@.paths[i]) is None,
            forall|i: usize| #[trigger]
                selected@.contains(i) ==> i < self@.paths.len() && path_fault(
                    self@.paths[i as int],
                ) is None,
    {
        proof {
            assert forall|i: usize| #[trigger] self.selected@.contains(i) implies i
                < self@.paths.len() && path_fault(self@.paths[i as int]) is None by {
                assert(self@.chosen.contains(i));
            }
        }
        self.selected
    }
}

// ---- the files of a directory ----

/// A relative path with `/` for every `\`.
pub open spec fn normalized(path: Seq<char>) -> Seq<char> {
    Seq::new(
        path.len(),
        |i: int|
            if path[i] == '\\' {
                '/'
            } else {
                path[i]
            },
    )
}

/// A path that was normalized has as many characters, holds no `\`, and has the same parts between
/// its slashes as the path had between slashes of either kind.
pub proof fn normalizing_turns_slashes(path: Seq<char>)
    ensures
        normalized(path).len() == path.len(),
        !normalized(path).contains('\\'),
        forall|i: int|
            0 <= i < path.len() ==> (normalized(path)[i] == '/' <==> (#[trigger] path[i] == '/'
                || path[i] == '\\')) && (normalized(path)[i] != '/' ==> normalized(path)[i]
                == path[i]),
{
}

/// A relative path with `/` for every `\`.
pub fn normalize_path(path: &str) -> (r: String)
    ensures
        r@ == normalized(path@),
{
    let mut r: String = String::new();
    for c in it: path.chars()
        invariant
            it.seq() == path@,
            r@ == normalized(path@).take(it.index() as int),
    {
        if c == '\\' {
            r.push('/');
        } else {
            r.push(c);
        }
        assert(r@ =~= normalized(path@).take(it.index() + 1));
    }
    assert(normalized(path@).take(path@.len() as int) =~= normalized(path@));
    r
}

/// Whether the file with one index comes before that with another: by the bytes of their names,
/// and by their indices where the names are the same.
pub open spec fn comes_before(names: Seq<Seq<char>>, i: usize, j: usize) -> bool {
    let (a, b) = (encode_utf8(names[i as int]), encode_utf8(names[j as int]));
    bytes_less(a, b) || (a == b && i < j)
}

/// Whether indices stand in order.
pub open spec fn in_order(names: Seq<Seq<char>>, order: Seq<usize>) -> bool {
    forall|i: int, j: int|
        0 <= i < j < order.len() ==> comes_before(names, #[trigger] order[i], #[trigger] order[j])
}

/// The order is transitive.
proof fn lemma_before_transitive(names: Seq<Seq<char>>, i: usize, j: usize, k: usize)
    requires
        comes_before(names, i, j),
        comes_before(names, j, k),
    ensures
        comes_before(names, i, k),
{
    let a = encode_utf8(names[i as int]);
    let b = encode_utf8(names[j as int]);
    let c = encode_utf8(names[k as int]);
    if bytes_less(a, b) && bytes_less(b, c) {
        lemma_bytes_less_transitive(a, b, c);
    }
}

/// The files stand in ascending order of the bytes of their names: none has behind it one whose
/// name first differs from its own by a smaller byte, or is the beginning of its own.
pub proof fn order_is_that_of_the_names(
    names: Seq<Seq<char>>,
    order: Seq<usize>,
    i: int,
    j: int,
    k: int,
)
    requires
        in_order(names, order),
        0 <= i < j < order.len(),
    ensures
        ({
            let a = encode_utf8(names[order[i] as int]);
            let b = encode_utf8(names[order[j] as int]);
            &&& !first_differs_at(b, a, k)
            &&& a == b ==> order[i] < order[j]
        }),
{
    let a = encode_utf8(names[order[i] as int]);
    let b = encode_utf8(names[order[j] as int]);
    assert(comes_before(names, order[i], order[j]));
    lemma_bytes_less_total(a, b);
    lemma_bytes_less_total(b, a);
    if first_differs_at(b, a, k) {
        lemma_bytes_less_at(b, a, k);
        if bytes_less(a, b) {
            lemma_bytes_less_transitive(a, b, a);
            lemma_bytes_less_total(a, a);
        }
    }
    if a == b {
        lemma_bytes_less_total(a, a);
    }
}

/// Of two files one comes before the other.
fn is_before(names: &Vec<String>, i: usize, j: usize) -> (before: bool)
    requires
        i < names@.len(),
        j < names@.len(),
        i != j,
    ensures
        before == comes_before(texts(names@), i, j),
        before == !comes_before(texts(names@), j, i),
{
    let (a, b) = (names[i].as_str().as_bytes(), names[j].as_str().as_bytes());
    proof {
        lemma_bytes_less_total(a@, b@);
        lemma_bytes_less_total(b@, a@);
    }
    if is_bytes_less(a, b) {
        true
    } else {
        same_bytes(a, b) && i < j
    }
}

/// Whether all indices lie in a range.
pub open spec fn within(order: Seq<usize>, low: int, high: int) -> bool {
    forall|i: int| 0 <= i < order.len() ==> low <= #[trigger] order[i] < high
}

/// Whether the indices of one list come before those of another from some place on.
spec fn all_before(names: Seq<Seq<char>>, done: Seq<usize>, list: Seq<usize>, from: int) -> bool {
    forall|k: int, p: int|
        0 <= k < done.len() && from <= p < list.len() ==> comes_before(
            names,
            #[trigger] done[k],
            #[trigger] list[p],
        )
}

/// One more index of an ordered list keeps all in order.
proof fn lemma_take_next(
    names: Seq<Seq<char>>,
    done: Seq<usize>,
    list: Seq<usize>,
    i: int,
    other: Seq<usize>,
    j: int,
)
    requires
        in_order(names, done),
        in_order(names, list),
        in_order(names, other),
        0 <= i < list.len(),
        0 <= j <= other.len(),
        all_before(names, done, list, i),
        all_before(names, done, other, j),
        j < other.len() ==> comes_before(names, list[i], other[j]),
    ensures
        in_order(names, done.push(list[i])),
        all_before(names, done.push(list[i]), list, i + 1),
        all_before(names, done.push(list[i]), other, j),
{
    let next = done.push(list[i]);
    assert forall|k: int, p: int| 0 <= k < next.len() && j <= p < other.len() implies comes_before(
        names,
        #[trigger] next[k],
        #[trigger] other[p],
    ) by {
        if k == done.len() && p > j {
            assert(comes_before(names, other[j], other[p]));
            lemma_before_transitive(names, list[i], other[j], other[p]);
        }
    }
}

/// Merges two ordered lists of indices into one.
fn merge(
    names: &Vec<String>,
    a: &Vec<usize>,
    b: &Vec<usize>,
    Ghost(low): Ghost<int>,
    Ghost(middle): Ghost<int>,
    Ghost(high): Ghost<int>,
) -> (r: Vec<usize>)
    requires
        in_order(texts(names@), a@),
        in_order(texts(names@), b@),
        within(a@, low, middle),
        within(b@, middle, high),
        0 <= low <= middle <= high <= names@.len(),
        a@.len() + b@.len() <= usize::MAX,
    ensures
        in_order(texts(names@), r@),
        within(r@, low, high),
        r@.len() == a@.len() + b@.len(),
{
    let ghost all = texts(names@);
    let mut r: Vec<usize> = Vec::new();
    let mut i: usize = 0;
    let mut j: usize = 0;
    while i < a.len() || j < b.len()
        invariant
            all == texts(names@),
            in_order(all, a@),
            in_order(all, b@),
            within(a@, low, middle),
            within(b@, middle, high),
            0 <= low <= middle <= high <= names@.len(),
            i <= a@.len(),
            j <= b@.len(),
            r@.len() == i + j,
            a@.len() + b@.len() <= usize::MAX,
            in_order(all, r@),
            within(r@, low, high),
            all_before(all, r@, a@, i as int),
            all_before(all, r@, b@, j as int),
        decreases a@.len() + b@.len() - i - j,
    {
        let from_a: bool = if i == a.len() {
            false
        } else if j == b.len() {
            true
        } else {
            is_before(names, a[i], b[j])
        };
        if from_a {
            proof {
                lemma_take_next(all, r@, a@, i as int, b@, j as int);
            }
            r.push(a[i]);
            i = i + 1;
        } else {
            proof {
                lemma_take_next(all, r@, b@, j as int, a@, i as int);
            }
            r.push(b[j]);
            j = j + 1;
        }
    }
    r
}

/// The indices from `low` to `high` in order.
fn sort_range(names: &Vec<String>, low: usize, high: usize) -> (r: Vec<usize>)
    requires
        low <= high <= names@.len(),
    ensures
        in_order(texts(names@), r@),
        within(r@, low as int, high as int),
        r@.len() == high - low,
    decreases high - low,
{
    if high - low < 2 {
        let mut r: Vec<usize> = Vec::new();
        if low < high {
            r.push(low);
        }
        return r;
    }
    let middle: usize = low + (high - low) / 2;
    let a: Vec<usize> = sort_range(names, low, middle);
    let b: Vec<usize> = sort_range(names, middle, high);
    merge(names, &a, &b, Ghost(low as int), Ghost(middle as int), Ghost(high as int))
}

/// The order in which the files of a directory are uploaded: by the bytes of their relative paths.
/// The result holds every index once.
pub fn sorted_order(names: &Vec<String>) -> (order: Vec<usize>)
    ensures
        in_order(texts(names@), order@),
        within(order@, 0, names@.len() as int),
        order@.len() == names@.len(),
        order@.no_duplicates(),
{
    let order: Vec<usize> = sort_range(names, 0, names.len());
    proof {
        assert forall|i: int, j: int| 0 <= i < j < order@.len() implies order@[i] != order@[j] by {
            assert(comes_before(texts(names@), order@[i], order@[j]));
            let a = encode_utf8(texts(names@)[order@[i] as int]);
            lemma_bytes_less_total(a, a);
        }
    }
    order
}

} // verus!
