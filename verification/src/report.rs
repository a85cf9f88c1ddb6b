//! What is shown to the user: a torrent and its availability, what was downloaded, and how large
//! an upload is.

use std::collections::HashSet;

use vstd::prelude::*;
use vstd::string::*;

use crate::bencode::{file_fields, FileFields, FileInfo, TorrentFields, TorrentInfo};
use crate::error::Error;
use crate::sizes::{
    format_size, hundredths, hundredths_are_nearest, hundredths_text,
    hundredths_text_tells_the_number, is_nearest, push_hundredths, size_text,
    size_text_tells_the_size, tells_hundredths, tells_size,
};
use crate::text::{
    ascii_text, decimal_text, decimal_text_tells_the_number, pad_left, padded_left,
    padding_keeps_the_text, push_ascii, push_decimal, signed_decimal, signed_decimal_digits,
    signed_text_tells_the_number, tells_number,
};

verus! {

/// The width of a size in a list of files.
pub const SIZE_WIDTH: usize = 12;

/// A size for people to read, and in bytes.
pub open spec fn size_and_bytes(n: nat) -> Seq<char> {
    size_text(n) + " ("@ + decimal_text(n) + ")"@
}

/// The lines of a list of files: the encrypted length and the path of each.
pub open spec fn file_lines(files: Seq<FileFields>) -> Seq<char>
    decreases files.len(),
{
    if files.len() == 0 {
        Seq::empty()
    } else {
        let file = files.last();
        file_lines(files.drop_last()) + "    "@ + padded_left(
            size_text(file.encrypted_length as nat),
            SIZE_WIDTH as nat,
        ) + "  "@ + file.path + "\n"@
    }
}

/// What is shown of the content of a torrent.
pub open spec fn content_text(torrent: TorrentFields) -> Seq<char> {
    "\nFile Information:\n  Name: "@ + torrent.name + (if torrent.multi_file {
        "\n  Type: Directory"@
    } else {
        "\n  Type: File"@
    }) + "\n  Total Size: "@ + size_and_bytes(torrent.total_length) + "\n"@ + (
    if torrent.multi_file {
        "  Files: "@ + decimal_text(torrent.files.len()) + "\n\n  Files in archive:\n"@
            + file_lines(torrent.files)
    } else {
        Seq::empty()
    })
}

/// What is shown of the pieces of a torrent.
pub open spec fn pieces_text(torrent: TorrentFields) -> Seq<char> {
    "\nTorrent Information:\n  Pieces: "@ + decimal_text(torrent.num_pieces)
        + "\n  Piece Length: "@ + size_and_bytes(torrent.piece_length as nat) + "\n"@
}

/// What is shown of the state of a room.
pub open spec fn status_text(cloud_state: Option<Seq<char>>) -> Seq<char> {
    match cloud_state {
        Some(state) => if state == "complete"@ {
            "✓ Available"@
        } else {
            state
        },
        None => "Unknown"@,
    }
}

/// What is shown of the availability of a room.
pub open spec fn availability_text(
    cloud_state: Option<Seq<char>>,
    remaining: Option<i32>,
) -> Seq<char> {
    "\nAvailability:\n  Status: "@ + status_text(cloud_state) + "\n"@ + match remaining {
        Some(n) => "  Remaining Downloads: "@ + ascii_text(signed_decimal(n as int)) + "\n"@,
        None => Seq::empty(),
    }
}

/// What is shown of a room and its torrent.
pub open spec fn info_text(
    url: Seq<char>,
    room_id: Seq<char>,
    torrent: TorrentFields,
    cloud_state: Option<Seq<char>>,
    remaining: Option<i32>,
) -> Seq<char> {
    "URL: "@ + url + "\nRoom ID: "@ + room_id + "\n"@ + content_text(torrent) + pieces_text(torrent)
        + availability_text(cloud_state, remaining)
}

// ---- what the texts tell ----

/// Whether a text tells a size for people to read, and in bytes.
pub open spec fn tells_size_and_bytes(text: Seq<char>, n: nat) -> bool {
    exists|size: Seq<char>, bytes: Seq<char>|
        #![trigger tells_size(size, n), tells_number(bytes, n as int)]
        tells_size(size, n) && tells_number(bytes, n as int) && text == size + " ("@ + bytes
            + ")"@
}

/// Whether a text tells a size behind spaces, which make it as wide as the others.
pub open spec fn tells_wide_size(text: Seq<char>, n: nat) -> bool {
    exists|k: int|
        {
            &&& 0 <= k <= text.len()
            &&& #[trigger] tells_size(text.skip(k), n)
            &&& forall|i: int| 0 <= i < k ==> #[trigger] text[i] == ' '
            &&& text.len() == 12 || (text.len() > 12 && k == 0)
        }
}

/// Whether a line tells the encrypted length and the path of a file.
pub open spec fn tells_file(line: Seq<char>, file: FileFields) -> bool {
    exists|size: Seq<char>| #[trigger]
        tells_wide_size(size, file.encrypted_length as nat) && line == "    "@ + size + "  "@
            + file.path + "\n"@
}

/// Whether a text has a line for each file, in their order, and nothing else.
pub open spec fn tells_files(text: Seq<char>, files: Seq<FileFields>) -> bool {
    exists|lines: Seq<Seq<char>>|
        {
            &&& text == #[trigger] lines.flatten()
            &&& lines.len() == files.len()
            &&& forall|i: int| 0 <= i < lines.len() ==> tells_file(#[trigger] lines[i], files[i])
        }
}

/// Whether a text tells what a torrent holds: its name, whether it is a directory, its size, and
/// the number and the list of the files of a directory.
pub open spec fn tells_content(text: Seq<char>, torrent: TorrentFields) -> bool {
    exists|size: Seq<char>, rest: Seq<char>| #[trigger]
        tells_content_in(text, torrent, size, rest)
}

/// Whether a text tells what a torrent holds, with these texts for its size and its files.
pub open spec fn tells_content_in(
    text: Seq<char>,
    torrent: TorrentFields,
    size: Seq<char>,
    rest: Seq<char>,
) -> bool {
    &&& tells_size_and_bytes(size, torrent.total_length)
    &&& torrent.multi_file ==> tells_listing(rest, torrent.files) && text
        == "\nFile Information:\n  Name: "@ + torrent.name + "\n  Type: Directory"@
        + "\n  Total Size: "@ + size + "\n"@ + rest
    &&& !torrent.multi_file ==> text == "\nFile Information:\n  Name: "@ + torrent.name
        + "\n  Type: File"@ + "\n  Total Size: "@ + size + "\n"@
}

/// Whether a text tells the number of files and lists them.
pub open spec fn tells_listing(text: Seq<char>, files: Seq<FileFields>) -> bool {
    exists|count: Seq<char>, list: Seq<char>|
        #![trigger tells_number(count, files.len() as int), tells_files(list, files)]
        tells_number(count, files.len() as int) && tells_files(list, files) && text
            == "  Files: "@ + count + "\n\n  Files in archive:\n"@ + list
}

/// Whether a text tells the number of the pieces and their length.
pub open spec fn tells_pieces(text: Seq<char>, torrent: TorrentFields) -> bool {
    exists|count: Seq<char>, size: Seq<char>|
        #![trigger
            tells_number(count, torrent.num_pieces as int),
            tells_size_and_bytes(size, torrent.piece_length as nat)
        ]
        tells_number(count, torrent.num_pieces as int) && tells_size_and_bytes(
            size,
            torrent.piece_length as nat,
        ) && text == "\nTorrent Information:\n  Pieces: "@ + count + "\n  Piece Length: "@ + size
            + "\n"@
}

/// Whether a text tells how many downloads remain, if the room says so, and nothing if it does
/// not.
pub open spec fn tells_remaining(text: Seq<char>, remaining: Option<i32>) -> bool {
    match remaining {
        Some(n) => exists|number: Seq<char>| #[trigger]
            tells_number(number, n as int) && text == "  Remaining Downloads: "@ + number
                + "\n"@,
        None => text.len() == 0,
    }
}

/// Whether a text tells the state of a room: a room that is complete is available, of any other its
/// own word is shown, and one that tells no state is unknown.
pub open spec fn tells_status(text: Seq<char>, cloud_state: Option<Seq<char>>) -> bool {
    &&& cloud_state is None ==> text == "Unknown"@
    &&& cloud_state == Some("complete"@) ==> text == "✓ Available"@
    &&& cloud_state matches Some(state) ==> (state != "complete"@ ==> text == state)
}

/// Whether a text tells the availability of a room.
pub open spec fn tells_availability(
    text: Seq<char>,
    cloud_state: Option<Seq<char>>,
    remaining: Option<i32>,
) -> bool {
    exists|status: Seq<char>, rest: Seq<char>|
        #![trigger tells_status(status, cloud_state), tells_remaining(rest, remaining)]
        tells_status(status, cloud_state) && tells_remaining(rest, remaining) && text
            == "\nAvailability:\n  Status: "@ + status + "\n"@ + rest
}

/// Whether a text tells a room and its torrent.
pub open spec fn tells_room(
    text: Seq<char>,
    url: Seq<char>,
    room_id: Seq<char>,
    torrent: TorrentFields,
    cloud_state: Option<Seq<char>>,
    remaining: Option<i32>,
) -> bool {
    exists|content: Seq<char>, pieces: Seq<char>, availability: Seq<char>|
        #![trigger
            tells_content(content, torrent),
            tells_pieces(pieces, torrent),
            tells_availability(availability, cloud_state, remaining)
        ]
        tells_content(content, torrent) && tells_pieces(pieces, torrent) && tells_availability(
            availability,
            cloud_state,
            remaining,
        ) && text == "URL: "@ + url + "\nRoom ID: "@ + room_id + "\n"@ + content + pieces
            + availability
}

/// A size for people to read, and in bytes, tells the size.
proof fn lemma_size_and_bytes(n: nat)
    ensures
        tells_size_and_bytes(size_and_bytes(n), n),
{
    size_text_tells_the_size(n);
    decimal_text_tells_the_number(n);
    assert(tells_size(size_text(n), n) && tells_number(decimal_text(n), n as int));
}

/// A size behind spaces tells the size.
pub proof fn wide_size_tells_the_size(n: nat)
    ensures
        tells_wide_size(padded_left(size_text(n), SIZE_WIDTH as nat), n),
{
    let size = size_text(n);
    let wide = padded_left(size, SIZE_WIDTH as nat);
    size_text_tells_the_size(n);
    padding_keeps_the_text(size, SIZE_WIDTH as nat);
    assert(tells_size(wide.skip(wide.len() - size.len()), n));
}

/// The lines of a list of files tell the files.
proof fn lemma_file_lines(files: Seq<FileFields>)
    ensures
        tells_files(file_lines(files), files),
    decreases files.len(),
{
    if files.len() == 0 {
        let lines = Seq::<Seq<char>>::empty();
        assert(file_lines(files) =~= lines.flatten());
    } else {
        let (start, file) = (files.drop_last(), files.last());
        lemma_file_lines(start);
        let lines = choose|lines: Seq<Seq<char>>|
            {
                &&& file_lines(start) == #[trigger] lines.flatten()
                &&& lines.len() == start.len()
                &&& forall|i: int| 0 <= i < lines.len() ==> tells_file(#[trigger] lines[i], start[i])
            };
        let size = padded_left(size_text(file.encrypted_length as nat), SIZE_WIDTH as nat);
        let line = "    "@ + size + "  "@ + file.path + "\n"@;
        wide_size_tells_the_size(file.encrypted_length as nat);
        assert(tells_file(line, file));
        let all = lines.push(line);
        lines.lemma_flatten_push(line);
        assert(file_lines(files) =~= all.flatten());
        assert forall|i: int| 0 <= i < all.len() implies tells_file(#[trigger] all[i], files[i]) by {
            if i < start.len() {
                assert(all[i] == lines[i]);
                assert(files[i] == start[i]);
            }
        }
    }
}

/// The report tells what it is about: the address and the room; the name, the kind, the size and
/// the files of the torrent; its pieces; the state of the room and how many downloads remain.
pub proof fn report_tells_the_room(
    url: Seq<char>,
    room_id: Seq<char>,
    torrent: TorrentFields,
    cloud_state: Option<Seq<char>>,
    remaining: Option<i32>,
)
    ensures
        tells_room(
            info_text(url, room_id, torrent, cloud_state, remaining),
            url,
            room_id,
            torrent,
            cloud_state,
            remaining,
        ),
{
    lemma_size_and_bytes(torrent.total_length);
    lemma_size_and_bytes(torrent.piece_length as nat);
    lemma_file_lines(torrent.files);
    decimal_text_tells_the_number(torrent.files.len());
    decimal_text_tells_the_number(torrent.num_pieces);
    let list = file_lines(torrent.files);
    let count = decimal_text(torrent.files.len());
    let listing = "  Files: "@ + count + "\n\n  Files in archive:\n"@ + list;
    assert(tells_number(count, torrent.files.len() as int) && tells_files(list, torrent.files));
    assert(tells_listing(listing, torrent.files));
    let size = size_and_bytes(torrent.total_length);
    if !torrent.multi_file {
        assert(content_text(torrent) =~= "\nFile Information:\n  Name: "@ + torrent.name
            + "\n  Type: File"@ + "\n  Total Size: "@ + size + "\n"@);
    }
    assert(tells_content_in(content_text(torrent), torrent, size, listing));
    assert(tells_content(content_text(torrent), torrent));
    assert(tells_pieces(pieces_text(torrent), torrent));
    let status = status_text(cloud_state);
    let left = match remaining {
        Some(n) => "  Remaining Downloads: "@ + ascii_text(signed_decimal(n as int)) + "\n"@,
        None => Seq::empty(),
    };
    if let Some(n) = remaining {
        signed_text_tells_the_number(n as int);
    }
    assert(tells_status(status, cloud_state) && tells_remaining(left, remaining));
    assert(tells_availability(
        availability_text(cloud_state, remaining),
        cloud_state,
        remaining,
    ));
}

/// The meaning of an optional string.
pub open spec fn optional_text(text: Option<String>) -> Option<Seq<char>> {
    match text {
        Some(s) => Some(s@),
        None => None,
    }
}

/// Appends a size for people to read, and in bytes.
fn push_size_and_bytes(text: &mut String, n: usize)
    ensures
        final(text)@ == old(text)@ + size_and_bytes(n as nat),
{
    text.append(format_size(n as u64).as_str());
    text.append(" (");
    push_decimal(text, n as u64);
    text.append(")");
    assert(text@ =~= old(text)@ + size_and_bytes(n as nat));
}

/// Appends the lines of a list of files.
fn push_file_lines(text: &mut String, files: &Vec<FileInfo>)
    ensures
        final(text)@ == old(text)@ + file_lines(file_fields(files@)),
{
    let ghost all = file_fields(files@);
    let mut i: usize = 0;
    assert(text@ =~= old(text)@ + file_lines(all.take(0)));
    while i < files.len()
        invariant
            i <= files@.len(),
            all == file_fields(files@),
            text@ == old(text)@ + file_lines(all.take(i as int)),
        decreases files@.len() - i,
    {
        let size: String = format_size(files[i].encrypted_length as u64);
        text.append("    ");
        text.append(pad_left(size.as_str(), SIZE_WIDTH).as_str());
        text.append("  ");
        text.append(files[i].path.as_str());
        text.append("\n");
        proof {
            assert(all.take(i + 1).drop_last() =~= all.take(i as int));
            assert(all.take(i + 1).last() == all[i as int]);
            assert(text@ =~= old(text)@ + file_lines(all.take(i + 1)));
        }
        i = i + 1;
    }
    assert(all.take(i as int) =~= all);
}

/// Appends what is shown of the content of a torrent.
fn push_content(text: &mut String, torrent: &TorrentInfo)
    ensures
        final(text)@ == old(text)@ + content_text(torrent@),
{
    text.append("\nFile Information:\n  Name: ");
    text.append(torrent.name.as_str());
    if torrent.multi_file {
        text.append("\n  Type: Directory");
    } else {
        text.append("\n  Type: File");
    }
    text.append("\n  Total Size: ");
    push_size_and_bytes(text, torrent.total_length);
    text.append("\n");
    if torrent.multi_file {
        text.append("  Files: ");
        push_decimal(text, torrent.files.len() as u64);
        text.append("\n\n  Files in archive:\n");
        push_file_lines(text, &torrent.files);
    }
    assert(text@ =~= old(text)@ + content_text(torrent@));
}

/// Appends what is shown of the pieces of a torrent.
fn push_pieces(text: &mut String, torrent: &TorrentInfo)
    ensures
        final(text)@ == old(text)@ + pieces_text(torrent@),
{
    text.append("\nTorrent Information:\n  Pieces: ");
    push_decimal(text, torrent.num_pieces as u64);
    text.append("\n  Piece Length: ");
    push_size_and_bytes(text, torrent.piece_length);
    text.append("\n");
    assert(text@ =~= old(text)@ + pieces_text(torrent@));
}

/// Appends what is shown of the availability of a room.
fn push_availability(text: &mut String, cloud_state: &Option<String>, remaining: Option<i32>)
    ensures
        final(text)@ == old(text)@ + availability_text(optional_text(*cloud_state), remaining),
{
    text.append("\nAvailability:\n  Status: ");
    match cloud_state {
        Some(state) => {
            if *state == "complete".to_owned() {
                text.append("✓ Available");
            } else {
                text.append(state.as_str());
            }
        },
        None => {
            text.append("Unknown");
        },
    }
    text.append("\n");
    if let Some(n) = remaining {
        text.append("  Remaining Downloads: ");
        push_ascii(text, signed_decimal_digits(n as i64).as_slice());
        text.append("\n");
    }
    assert(text@ =~= old(text)@ + availability_text(optional_text(*cloud_state), remaining));
}

/// What is shown of a room and its torrent.
pub fn info_report(
    url: &str,
    room_id: &str,
    torrent: &TorrentInfo,
    cloud_state: &Option<String>,
    remaining: Option<i32>,
) -> (text: String)
    ensures
        text@ == info_text(url@, room_id@, torrent@, optional_text(*cloud_state), remaining),
        tells_room(
            text@,
            url@,
            room_id@,
            torrent@,
            optional_text(*cloud_state),
            remaining,
        ),
{
    proof {
        report_tells_the_room(url@, room_id@, torrent@, optional_text(*cloud_state), remaining);
    }
    let mut text: String = "URL: ".to_owned();
    text.append(url);
    text.append("\nRoom ID: ");
    text.append(room_id);
    text.append("\n");
    push_content(&mut text, torrent);
    push_pieces(&mut text, torrent);
    push_availability(&mut text, cloud_state, remaining);
    assert(text@ =~= info_text(
        url@,
        room_id@,
        torrent@,
        optional_text(*cloud_state),
        remaining,
    ));
    text
}

/// Whether a line tells the size of an upload, in bytes and in megabytes of 1024 times 1024 bytes.
pub open spec fn tells_upload_size(text: Seq<char>, total_size: nat) -> bool {
    exists|bytes: Seq<char>, megabytes: Seq<char>, h: nat|
        #![trigger tells_number(bytes, total_size as int), tells_hundredths(megabytes, h)]
        tells_number(bytes, total_size as int) && tells_hundredths(megabytes, h) && is_nearest(
            h,
            total_size,
            1024 * 1024,
        ) && text == "Size: "@ + bytes + " bytes ("@ + megabytes + " MB)"@
}

/// The line about an upload tells its size.
pub proof fn upload_size_line_tells_the_size(total_size: nat)
    ensures
        tells_upload_size(
            "Size: "@ + decimal_text(total_size) + " bytes ("@ + hundredths_text(
                hundredths(total_size, 0x10_0000),
            ) + " MB)"@,
            total_size,
        ),
{
    let h = hundredths(total_size, 0x10_0000);
    decimal_text_tells_the_number(total_size);
    hundredths_are_nearest(total_size, 0x10_0000);
    hundredths_text_tells_the_number(h);
    assert(tells_number(decimal_text(total_size), total_size as int) && tells_hundredths(
        hundredths_text(h),
        h,
    ));
}

/// The line that tells the size of an upload.
pub fn upload_size_line(total_size: u64) -> (text: String)
    ensures
        text@ == "Size: "@ + decimal_text(total_size as nat) + " bytes ("@ + hundredths_text(
            hundredths(total_size as nat, 0x10_0000),
        ) + " MB)"@,
        tells_upload_size(text@, total_size as nat),
{
    proof {
        upload_size_line_tells_the_size(total_size as nat);
    }
    let mut text: String = "Size: ".to_owned();
    push_decimal(&mut text, total_size);
    text.append(" bytes (");
    push_hundredths(&mut text, total_size, 0x10_0000);
    text.append(" MB)");
    text
}

/// The files that were downloaded, each with its index and the size of its plaintext. There is no
/// such list if the size of one of them is not known.
pub open spec fn downloaded(files: Seq<FileInfo>, wanted: Set<usize>) -> Option<
    Seq<(nat, Seq<char>)>,
>
    decreases files.len(),
{
    if files.len() == 0 {
        Some(Seq::empty())
    } else {
        let index = (files.len() - 1) as nat;
        match downloaded(files.drop_last(), wanted) {
            None => None,
            Some(before) => if !wanted.contains(index as usize) {
                Some(before)
            } else {
                match files.last().decrypted_length {
                    None => None,
                    Some(length) => Some(
                        before.push(
                            (index, padded_left(size_text(length as nat), SIZE_WIDTH as nat)),
                        ),
                    ),
                }
            },
        }
    }
}

/// Whether a list tells the files that were downloaded: exactly the wanted ones, in ascending
/// order, each with the size of its plaintext.
pub open spec fn lists_downloads(
    list: Seq<(nat, Seq<char>)>,
    files: Seq<FileInfo>,
    wanted: Set<usize>,
) -> bool {
    &&& forall|a: int, b: int| 0 <= a < b < list.len() ==> (#[trigger] list[a]).0 < (
    #[trigger] list[b]).0
    &&& forall|a: int|
        0 <= a < list.len() ==> {
            let i = (#[trigger] list[a]).0;
            &&& i < files.len()
            &&& wanted.contains(i as usize)
            &&& files[i as int].decrypted_length is Some
            &&& tells_wide_size(list[a].1, files[i as int].decrypted_length->0 as nat)
        }
    &&& forall|i: nat|
        i < files.len() && wanted.contains(i as usize) ==> #[trigger] is_listed(list, i)
}

/// Whether a file has an entry in a list.
pub open spec fn is_listed(list: Seq<(nat, Seq<char>)>, index: nat) -> bool {
    exists|a: int| 0 <= a < list.len() && (#[trigger] list[a]).0 == index
}

/// Whether a file that is wanted has no size.
pub open spec fn lacks_size(files: Seq<FileInfo>, wanted: Set<usize>, i: int) -> bool {
    0 <= i < files.len() && wanted.contains(i as usize) && files[i].decrypted_length is None
}

/// The files that are listed are the wanted ones, each of them once and in ascending order, with
/// their sizes. There is no list if and only if one of them has no size.
pub proof fn wanted_files_are_listed(files: Seq<FileInfo>, wanted: Set<usize>)
    requires
        files.len() <= usize::MAX,
    ensures
        match downloaded(files, wanted) {
            Some(list) => {
                &&& lists_downloads(list, files, wanted)
                &&& forall|i: int| !#[trigger] lacks_size(files, wanted, i)
            },
            None => exists|i: int| #[trigger] lacks_size(files, wanted, i),
        },
    decreases files.len(),
{
    if files.len() > 0 {
        let start = files.drop_last();
        let last = (files.len() - 1) as nat;
        wanted_files_are_listed(start, wanted);
        match downloaded(start, wanted) {
            None => {
                let i = choose|i: int| #[trigger] lacks_size(start, wanted, i);
                assert(lacks_size(files, wanted, i));
            },
            Some(before) => {
                assert forall|i: int| lacks_size(files, wanted, i) implies i == last by {
                    if i < last {
                        assert(lacks_size(start, wanted, i));
                    }
                }
                if wanted.contains(last as usize) && files.last().decrypted_length is None {
                    assert(lacks_size(files, wanted, last as int));
                } else {
                    let list = downloaded(files, wanted)->0;
                    if wanted.contains(last as usize) {
                        wide_size_tells_the_size(files.last().decrypted_length->0 as nat);
                    }
                    assert forall|a: int| 0 <= a < list.len() implies {
                        let i = (#[trigger] list[a]).0;
                        &&& i < files.len()
                        &&& wanted.contains(i as usize)
                        &&& files[i as int].decrypted_length is Some
                        &&& tells_wide_size(list[a].1, files[i as int].decrypted_length->0 as nat)
                    } by {
                        if a < before.len() {
                            assert(list[a] == before[a]);
                        }
                    }
                    assert forall|a: int, b: int| 0 <= a < b < list.len() implies (
                    #[trigger] list[a]).0 < (#[trigger] list[b]).0 by {
                        assert(list[a] == before[a]);
                        if b < before.len() {
                            assert(list[b] == before[b]);
                        }
                    }
                    assert forall|i: nat| i < files.len() && wanted.contains(
                        i as usize,
                    ) implies #[trigger] is_listed(list, i) by {
                        if i < last {
                            assert(is_listed(before, i));
                            let a = choose|a: int|
                                0 <= a < before.len() && (#[trigger] before[a]).0 == i;
                            assert(list[a].0 == i);
                        } else {
                            assert(list[list.len() - 1].0 == i);
                        }
                    }
                }
            },
        }
    }
}

/// The meaning of a list of indices with texts.
pub open spec fn indexed_texts(list: Seq<(usize, String)>) -> Seq<(nat, Seq<char>)> {
    Seq::new(list.len(), |i: int| (list[i].0 as nat, list[i].1@))
}

/// Where a list cannot be made of some files, it cannot be made of more.
proof fn lemma_downloaded_prefix(files: Seq<FileInfo>, wanted: Set<usize>, k: int)
    requires
        0 <= k <= files.len(),
        downloaded(files.take(k), wanted) is None,
    ensures
        downloaded(files, wanted) is None,
    decreases files.len(),
{
    if k == files.len() {
        assert(files.take(k) =~= files);
    } else {
        assert(files.drop_last().take(k) =~= files.take(k));
        lemma_downloaded_prefix(files.drop_last(), wanted, k);
    }
}

/// The files that were downloaded, each with its index and its size.
pub fn downloaded_files(files: &Vec<FileInfo>, wanted: &HashSet<usize>) -> (r: Result<
    Vec<(usize, String)>,
    Error,
>)
    ensures
        match r {
            Ok(list) => downloaded(files@, wanted@) == Some(indexed_texts(list@)),
            Err(e) => e == Error::IncompleteFile && downloaded(files@, wanted@) is None,
        },
        r matches Ok(list) ==> lists_downloads(indexed_texts(list@), files@, wanted@),
        r is Err ==> exists|i: int| #[trigger] lacks_size(files@, wanted@, i),
{
    broadcast use vstd::std_specs::hash::group_hash_axioms;

    proof {
        assert(files.len() == files@.len());
        wanted_files_are_listed(files@, wanted@);
    }
    let mut list: Vec<(usize, String)> = Vec::new();
    let mut i: usize = 0;
    assert(indexed_texts(list@) =~= Seq::<(nat, Seq<char>)>::empty());
    while i < files.len()
        invariant
            i <= files@.len(),
            downloaded(files@.take(i as int), wanted@) == Some(indexed_texts(list@)),
        decreases files@.len() - i,
    {
        proof {
            assert(files@.take(i + 1).drop_last() =~= files@.take(i as int));
            assert(files@.take(i + 1).last() == files@[i as int]);
        }
        if wanted.contains(&i) {
            match files[i].decrypted_length {
                Some(length) => {
                    let ghost before = indexed_texts(list@);
                    let size: String = format_size(length as u64);
                    let text: String = pad_left(size.as_str(), SIZE_WIDTH);
                    list.push((i, text));
                    assert(indexed_texts(list@) =~= before.push((i as nat, text@)));
                },
                None => {
                    proof {
                        lemma_downloaded_prefix(files@, wanted@, i + 1);
                        assert(lacks_size(files@, wanted@, i as int));
                    }
                    return Err(Error::IncompleteFile);
                },
            }
        }
        i = i + 1;
    }
    assert(files@.take(i as int) =~= files@);
    Ok(list)
}

} // verus!
