//! What the commands write.
use vstd::prelude::*;
use crate::ext4::{listed, DirEntry, DirEntryView};
use crate::outside::{hex_encode, sha256, sha256_digest};
use crate::size::{format_size, size_text};
use crate::text::{
    concat_texts, decimal, hex_bytes, hex_padded, joined, left_aligned, number_in, pieces,
    push_decimal, push_hex, push_left_aligned, repeated, split_on, texts,
};
use crate::tree::{icon, icon_for};
use crate::ui::{least, seen_bytes, writes_byte, writes_place};
use crate::vma::{devices_shown, ArchiveView, VmaArchive, VmaDeviceView};

verus! {

// ---------------------------------------------------------------- errors

/// Why a command cannot be carried out.
pub enum CommandError {
    /// There is no partition of that number; there are only so many.
    NoPartitionOf { index: usize, count: usize },
    /// There is no partition of that number.
    NoPartition { index: usize },
    /// There is no file at that path.
    FileNotFound { path: String },
    /// The partition holds no file system that can be read.
    Unsupported,
}

/// Why a command cannot be carried out.
pub enum CommandErrorView {
    NoPartitionOf { index: usize, count: usize },
    NoPartition { index: usize },
    FileNotFound { path: Seq<char> },
    Unsupported,
}

impl View for CommandError {
    type V = CommandErrorView;

    open spec fn view(&self) -> CommandErrorView {
        match self {
            CommandError::NoPartitionOf { index, count } => CommandErrorView::NoPartitionOf {
                index: *index,
                count: *count,
            },
            CommandError::NoPartition { index } => CommandErrorView::NoPartition { index: *index },
            CommandError::FileNotFound { path } => CommandErrorView::FileNotFound { path: path@ },
            CommandError::Unsupported => CommandErrorView::Unsupported,
        }
    }
}

/// The message for an error.
pub open spec fn command_message(e: CommandErrorView) -> Seq<char> {
    match e {
        CommandErrorView::NoPartitionOf { index, count } => "Partition "@ + decimal(index as nat)
            + " not found (only "@ + decimal(count as nat) + " partitions)"@,
        CommandErrorView::NoPartition { index } => "Partition "@ + decimal(index as nat)
            + " not found"@,
        CommandErrorView::FileNotFound { path } => "File not found: "@ + path,
        CommandErrorView::Unsupported => "Unsupported filesystem or path not found"@,
    }
}

impl CommandError {
    /// The message for the error.
    pub fn message(&self) -> (r: String)
        ensures
            r@ == command_message(self@),
    {
        match self {
            CommandError::NoPartitionOf { index, count } => {
                let mut s = "Partition ".to_owned();
                push_decimal(&mut s, *index as u64);
                s.append(" not found (only ");
                push_decimal(&mut s, *count as u64);
                s.append(" partitions)");
                s
            },
            CommandError::NoPartition { index } => {
                let mut s = "Partition ".to_owned();
                push_decimal(&mut s, *index as u64);
                s.append(" not found");
                s
            },
            CommandError::FileNotFound { path } => concat_texts("File not found: ", path.as_str()),
            CommandError::Unsupported => "Unsupported filesystem or path not found".to_owned(),
        }
    }
}

/// Whether there is a partition of that number, for the command that lists a directory.
pub fn check_list_partition(index: usize, count: usize) -> (r: Result<(), CommandError>)
    ensures
        r is Ok <==> index < count,
        r matches Err(e) ==> e@ == (CommandErrorView::NoPartitionOf { index, count }),
{
    if index >= count {
        Err(CommandError::NoPartitionOf { index, count })
    } else {
        Ok(())
    }
}

/// Whether there is a partition of that number, for the commands on a file.
pub fn check_partition(index: usize, count: usize) -> (r: Result<(), CommandError>)
    ensures
        r is Ok <==> index < count,
        r matches Err(e) ==> e@ == (CommandErrorView::NoPartition { index }),
{
    if index >= count {
        Err(CommandError::NoPartition { index })
    } else {
        Ok(())
    }
}

/// The inode that the path was found to have; an error where it was not found.
pub fn found_file(ino: u32, path: &str) -> (r: Result<u32, CommandError>)
    ensures
        r is Ok <==> ino != 0,
        r matches Ok(i) ==> i == ino,
        r matches Err(e) ==> e@ == (CommandErrorView::FileNotFound { path: path@ }),
{
    if ino == 0 {
        Err(CommandError::FileNotFound { path: path.to_owned() })
    } else {
        Ok(ino)
    }
}

// ---------------------------------------------------------------- list

/// The lines for the entries of a directory.
pub open spec fn list_rows(path: Seq<char>, partition: Seq<char>, entries: Seq<DirEntryView>) -> Seq<
    Seq<char>,
> {
    seq![path + " ("@ + partition + ")"@] + Seq::new(
        entries.len(),
        |i: int| "  "@ + icon(entries[i].file_type) + " "@ + entries[i].name,
    )
}

/// The lines for the entries of a directory.
pub fn list_lines(path: &str, partition: &str, entries: &Vec<DirEntry>) -> (r: Vec<String>)
    ensures
        texts(r@) == list_rows(path@, partition@, listed(entries@)),
{
    let mut lines: Vec<String> = Vec::new();
    let mut head = path.to_owned();
    head.append(" (");
    head.append(partition);
    head.append(")");
    let ghost first = head@;
    lines.push(head);
    let mut i: usize = 0;
    while i < entries.len()
        invariant
            i <= entries.len(),
            lines.len() == i + 1,
            lines@[0]@ == first,
            forall|k: int|
                0 <= k < i ==> (#[trigger] lines@[k + 1])@ == "  "@ + icon(entries@[k].file_type)
                    + " "@ + entries@[k].name@,
        decreases entries.len() - i,
    {
        let mut s = "  ".to_owned();
        s.append(icon_for(entries[i].file_type));
        s.append(" ");
        s.append(entries[i].name.as_str());
        let ghost before = lines@;
        let ghost row = s@;
        lines.push(s);
        i = i + 1;
        assert forall|k: int| 0 <= k < i implies (#[trigger] lines@[k + 1])@ == "  "@ + icon(
            entries@[k].file_type,
        ) + " "@ + entries@[k].name@ by {
            if k < i - 1 {
                assert(lines@[k + 1] == before[k + 1]);
            }
        }
    }
    let ghost rows = list_rows(path@, partition@, listed(entries@));
    assert forall|j: int| 0 <= j < rows.len() implies texts(lines@)[j] == #[trigger] rows[j] by {
        if j > 0 {
            let k = j - 1;
            assert(lines@[k + 1]@ == "  "@ + icon(entries@[k].file_type) + " "@ + entries@[k].name@);
        }
    }
    assert(texts(lines@) =~= rows);
    lines
}

// ---------------------------------------------------------------- extract

/// The last of some pieces that is not empty; none where all are.
pub open spec fn last_name(parts: Seq<Seq<char>>) -> Seq<char>
    decreases parts.len(),
{
    if parts.len() == 0 {
        seq![]
    } else if parts.last().len() > 0 {
        parts.last()
    } else {
        last_name(parts.drop_last())
    }
}

/// The name of the file at a path: its last part.
pub open spec fn name_of_file(path: Seq<char>) -> Seq<char> {
    last_name(pieces(path, '/'))
}

/// The name under which a file is extracted where none is given: its own.
pub fn output_name(path: &str) -> (r: String)
    ensures
        r@ == name_of_file(path@),
{
    let parts = split_on(path, '/');
    let ghost all = texts(parts@);
    let mut n: usize = parts.len();
    assert(all.take(n as int) =~= all);
    while n > 0
        invariant
            n <= parts.len(),
            all == texts(parts@),
            all == pieces(path@, '/'),
            last_name(all) == last_name(all.take(n as int)),
        decreases n,
    {
        assert(all.take(n as int).last() == parts@[n - 1]@);
        assert(all.take(n as int).drop_last() =~= all.take(n - 1));
        if !parts[n - 1].as_str().is_empty() {
            return parts[n - 1].clone();
        }
        n = n - 1;
    }
    let r = String::new();
    assert(r@ =~= last_name(all.take(0)));
    r
}

/// What is said of a file that was extracted.
pub open spec fn extracted(path: Seq<char>, size: nat, output: Seq<char>) -> Seq<char> {
    "Extracted "@ + path + " ("@ + decimal(size) + " bytes) -> "@ + output
}

/// What is said of a file that was extracted.
pub fn extracted_line(path: &str, size: usize, output: &str) -> (r: String)
    ensures
        r@ == extracted(path@, size as nat, output@),
{
    let mut s = "Extracted ".to_owned();
    s.append(path);
    s.append(" (");
    push_decimal(&mut s, size as u64);
    s.append(" bytes) -> ");
    s.append(output);
    s
}

// ---------------------------------------------------------------- hex

/// Bytes `from` to `to` in hexadecimal, with spaces between them.
pub open spec fn joined_hex(d: Seq<u8>, from: int, to: int) -> Seq<char>
    decreases to - from,
{
    if from >= to {
        seq![]
    } else if from + 1 == to {
        hex_padded(d[from] as nat, 2, false)
    } else {
        joined_hex(d, from, to - 1) + " "@ + hex_padded(d[to - 1] as nat, 2, false)
    }
}

/// The row of a hex dump for the 16 bytes from `i` on, of the first `len` bytes.
pub open spec fn dump_row(d: Seq<u8>, len: int, i: int) -> Seq<char> {
    hex_padded(i as nat, 8, false) + ":  "@ + left_aligned(joined_hex(d, i, least(i + 16, len)), 48)
        + "  "@ + seen_bytes(d, i, least(i + 16, len))
}

/// A hex dump of a file: a heading, and a row for each 16 of its first bytes.
pub open spec fn hex_dump(path: Seq<char>, d: Seq<u8>, max_bytes: nat) -> Seq<Seq<char>> {
    let len = least(max_bytes as int, d.len() as int);
    seq!["Hex dump of "@ + path + " ("@ + decimal(len as nat) + " bytes):"@] + Seq::new(
        ((len + 15) / 16) as nat,
        |k: int| dump_row(d, len, 16 * k),
    )
}

fn dump_line(d: &[u8], len: usize, i: usize) -> (r: String)
    requires
        i < len <= d@.len(),
    ensures
        r@ == dump_row(d@, len as int, i as int),
{
    let end: usize = if len - i < 16 {
        len
    } else {
        i + 16
    };
    let mut hex = String::new();
    let mut k = i;
    assert(hex@ =~= joined_hex(d@, i as int, i as int));
    while k < end
        invariant
            i <= k <= end <= len <= d@.len(),
            hex@ == joined_hex(d@, i as int, k as int),
        decreases end - k,
    {
        if k > i {
            hex.append(" ");
        }
        let ghost before = hex@;
        push_hex(&mut hex, d[k] as u64, 2, false);
        k = k + 1;
        assert(hex@ =~= joined_hex(d@, i as int, k as int));
    }
    let mut s = String::new();
    push_hex(&mut s, i as u64, 8, false);
    s.append(":  ");
    push_left_aligned(&mut s, hex.as_str(), 48);
    s.append("  ");
    crate::ui::push_seen(&mut s, d, i, end);
    assert(s@ =~= dump_row(d@, len as int, i as int));
    s
}

/// A hex dump of the first `max_bytes` bytes of a file.
pub fn hex_dump_lines(path: &str, data: &[u8], max_bytes: usize) -> (r: Vec<String>)
    ensures
        texts(r@) == hex_dump(path@, data@, max_bytes as nat),
{
    let len: usize = if max_bytes < data.len() {
        max_bytes
    } else {
        data.len()
    };
    let mut lines: Vec<String> = Vec::new();
    let mut head = "Hex dump of ".to_owned();
    head.append(path);
    head.append(" (");
    push_decimal(&mut head, len as u64);
    head.append(" bytes):");
    let ghost first = head@;
    lines.push(head);
    let mut n: usize = 0;
    let rows: usize = if len % 16 == 0 {
        len / 16
    } else {
        len / 16 + 1
    };
    while n < rows
        invariant
            n <= rows,
            rows == (len + 15) / 16,
            len <= data@.len(),
            lines.len() == n + 1,
            lines@[0]@ == first,
            forall|k: int|
                1 <= k <= n ==> (#[trigger] lines@[k])@ == dump_row(
                    data@,
                    len as int,
                    16 * (k - 1),
                ),
        decreases rows - n,
    {
        lines.push(dump_line(data, len, 16 * n));
        n = n + 1;
    }
    let ghost all = hex_dump(path@, data@, max_bytes as nat);
    assert forall|j: int| 0 <= j < all.len() implies texts(lines@)[j] == #[trigger] all[j] by {
        if j > 0 {
            assert(lines@[j]@ == dump_row(data@, len as int, 16 * (j - 1)));
        }
    }
    assert(texts(lines@) =~= all);
    lines
}

// ---------------------------------------------------------------- info

/// The line for a device.
pub open spec fn info_row(d: VmaDeviceView, i: nat) -> Seq<char> {
    "  "@ + decimal(i) + ": "@ + d.name + " ("@ + size_text(d.size as nat) + ")"@
}

/// What is said of an archive.
pub open spec fn info(path: Seq<char>, a: ArchiveView) -> Seq<Seq<char>> {
    seq!["VMA: "@ + path, "Created: "@ + a.ctime, "Devices: "@ + decimal(a.devices.len())]
        + Seq::new(a.devices.len(), |i: int| info_row(a.devices[i], i as nat))
}

/// What is said of an archive.
pub fn info_lines(path: &str, archive: &VmaArchive) -> (r: Vec<String>)
    ensures
        texts(r@) == info(path@, archive@),
{
    let devices = archive.device_list();
    let mut lines: Vec<String> = Vec::new();
    lines.push(concat_texts("VMA: ", path));
    lines.push(concat_texts("Created: ", archive.created()));
    let mut count = "Devices: ".to_owned();
    push_decimal(&mut count, devices.len() as u64);
    lines.push(count);
    let ghost top = lines@;
    let mut i: usize = 0;
    while i < devices.len()
        invariant
            i <= devices.len(),
            devices_shown(devices@) == archive@.devices,
            top.len() == 3,
            lines.len() == i + 3,
            forall|k: int| 0 <= k < 3 ==> lines@[k] == #[trigger] top[k],
            forall|k: int|
                3 <= k < i + 3 ==> (#[trigger] lines@[k])@ == info_row(
                    archive@.devices[k - 3],
                    (k - 3) as nat,
                ),
        decreases devices.len() - i,
    {
        assert(devices@[i as int]@ == archive@.devices[i as int]);
        let mut s = "  ".to_owned();
        push_decimal(&mut s, i as u64);
        s.append(": ");
        s.append(devices[i].name.as_str());
        s.append(" (");
        s.append(format_size(devices[i].size).as_str());
        s.append(")");
        lines.push(s);
        i = i + 1;
    }
    let ghost all = info(path@, archive@);
    assert forall|j: int| 0 <= j < all.len() implies texts(lines@)[j] == #[trigger] all[j] by {
        if j < 3 {
            assert(lines@[j] == top[j]);
        } else {
            assert(lines@[j]@ == info_row(archive@.devices[j - 3], (j - 3) as nat));
        }
    }
    assert(texts(lines@) =~= all);
    lines
}

// ---------------------------------------------------------------- hash

/// What is said of the digest of a file.
pub open spec fn hash_rows(path: Seq<char>, size: nat, digest: Seq<u8>) -> Seq<Seq<char>> {
    seq![
        "File: "@ + path,
        "Size: "@ + decimal(size) + " bytes"@,
        "SHA256: "@ + hex_bytes(digest, 0, digest.len() as int, false),
    ]
}

/// What is said of a file of `size` bytes with this digest.
pub fn hash_report(path: &str, size: usize, digest: &[u8]) -> (r: Vec<String>)
    ensures
        texts(r@) == hash_rows(path@, size as nat, digest@),
{
    let mut lines: Vec<String> = Vec::new();
    lines.push(concat_texts("File: ", path));
    let mut s = "Size: ".to_owned();
    push_decimal(&mut s, size as u64);
    s.append(" bytes");
    lines.push(s);
    lines.push(concat_texts("SHA256: ", hex_encode(digest).as_str()));
    assert(texts(lines@) =~= hash_rows(path@, size as nat, digest@));
    lines
}

/// What is said of the SHA-256 digest of a file.
pub fn hash_lines(path: &str, data: &[u8]) -> (r: Vec<String>)
    ensures
        texts(r@) == hash_rows(path@, data@.len(), sha256_digest(data@)),
{
    let digest = sha256(data);
    hash_report(path, data.len(), digest.as_slice())
}

// ---------------------------------------------------------------- what the lines say

/// The name of a file is what stands behind the last slash of its path, slashes at the end apart;
/// nothing where there are only slashes.
pub proof fn law_file_name_is_the_last_part(path: Seq<char>)
    ensures
        ({
            let name = name_of_file(path);
            &&& !name.contains('/')
            &&& name.len() == 0 ==> forall|i: int| 0 <= i < path.len() ==> #[trigger] path[i] == '/'
            &&& name.len() > 0 ==> exists|front: Seq<char>, k: nat|
                path == #[trigger] (front + name + repeated('/', k)) && (front.len() == 0
                    || front.last() == '/')
        }),
{
    crate::text::law_pieces_make_the_text(path, '/');
    lemma_last_name(pieces(path, '/'));
    let name = name_of_file(path);
    if name.len() > 0 {
        let (front, k) = choose|front: Seq<char>, k: nat|
            joined(pieces(path, '/'), '/') == #[trigger] (front + name + repeated('/', k)) && (
            front.len() == 0 || front.last() == '/');
        assert(path == front + name + repeated('/', k));
    }
}

proof fn lemma_last_name(parts: Seq<Seq<char>>)
    requires
        parts.len() > 0,
        forall|k: int| 0 <= k < parts.len() ==> !(#[trigger] parts[k]).contains('/'),
    ensures
        ({
            let name = last_name(parts);
            let path = joined(parts, '/');
            &&& !name.contains('/')
            &&& name.len() == 0 ==> forall|i: int| 0 <= i < path.len() ==> #[trigger] path[i] == '/'
            &&& name.len() > 0 ==> exists|front: Seq<char>, k: nat|
                path == #[trigger] (front + name + repeated('/', k)) && (front.len() == 0
                    || front.last() == '/')
        }),
    decreases parts.len(),
{
    let name = last_name(parts);
    let path = joined(parts, '/');
    let none = Seq::<char>::empty();
    if parts.last().len() > 0 {
        assert(!parts[parts.len() - 1].contains('/'));
        let front = if parts.len() == 1 {
            none
        } else {
            joined(parts.drop_last(), '/').push('/')
        };
        assert(path =~= front + name + repeated('/', 0));
        assert(path == front + name + repeated('/', 0));
    } else if parts.len() == 1 {
        assert(last_name(parts.drop_last()) =~= none);
        assert(path =~= none);
        assert(name =~= none);
    } else {
        let rest = parts.drop_last();
        assert forall|k: int| 0 <= k < rest.len() implies !(#[trigger] rest[k]).contains('/') by {
            assert(rest[k] == parts[k]);
        }
        lemma_last_name(rest);
        let before = joined(rest, '/');
        assert(path =~= before.push('/'));
        if name.len() > 0 {
            let (front, k) = choose|front: Seq<char>, k: nat|
                before == #[trigger] (front + name + repeated('/', k)) && (front.len() == 0
                    || front.last() == '/');
            assert(path =~= front + name + repeated('/', k + 1));
            assert(path == front + name + repeated('/', k + 1));
        }
    }
}

proof fn lemma_joined_hex(d: Seq<u8>, from: int, to: int, k: int)
    requires
        from <= k < to,
    ensures
        joined_hex(d, from, to).len() == 3 * (to - from) - 1,
        writes_byte(joined_hex(d, from, to), 3 * (k - from), d[k], false),
    decreases to - from,
{
    reveal_strlit(" ");
    let all = joined_hex(d, from, to);
    let own = hex_padded(d[to - 1] as nat, 2, false);
    crate::ui::lemma_byte_is_written(d[to - 1], false);
    if from + 1 < to {
        let front = joined_hex(d, from, to - 1);
        lemma_joined_hex(d, from, to - 1, if k < to - 1 { k } else { from });
        if k < to - 1 {
            assert(all.subrange(0, front.len() as int) =~= front);
            crate::ui::lemma_byte_is_written_within(all, front, 0, 3 * (k - from), d[k], false);
        } else {
            let at = front.len() as int + 1;
            assert(all.subrange(at, at + own.len()) =~= own);
            crate::ui::lemma_byte_is_written_within(all, own, at, 0, d[k], false);
        }
    }
}

/// Byte `k` of a row of a hex dump whose place has `w` digits: two digits, and a character: itself
/// where it can be seen, a dot otherwise.
pub open spec fn dump_row_writes(row: Seq<char>, w: int, k: int, b: u8) -> bool {
    &&& writes_byte(row, w + 3 + 3 * k, b, false)
    &&& row.len() > w + 53 + k
    &&& row[w + 53 + k] == (if 0x20 <= b <= 0x7e { b as char } else { '.' })
}

/// A hex dump shows each byte among the first ones of a file: in the row with the number of 16s
/// before it, of which the first digits tell the place, with two digits at the place of the byte
/// in the row and a character behind: itself where it can be seen, a dot otherwise.
pub proof fn law_hex_dump_shows_every_byte(path: Seq<char>, d: Seq<u8>, max_bytes: nat, p: int)
    requires
        0 <= p < d.len(),
        p < max_bytes,
    ensures
        1 + p / 16 < hex_dump(path, d, max_bytes).len(),
        exists|w: int| #[trigger]
            writes_place(hex_dump(path, d, max_bytes)[1 + p / 16], w, p - p % 16)
                && dump_row_writes(hex_dump(path, d, max_bytes)[1 + p / 16], w, p % 16, d[p]),
{
    let len = least(max_bytes as int, d.len() as int);
    let i = 16 * (p / 16);
    let end = least(i + 16, len);
    assert(i <= p < end);
    assert(hex_dump(path, d, max_bytes)[1 + p / 16] == dump_row(d, len, i));
    reveal_strlit(":  ");
    reveal_strlit("  ");
    let place = hex_padded(i as nat, 8, false);
    let w = place.len() as int;
    crate::ui::lemma_place_is_written(i as nat, false);
    let hex = joined_hex(d, i, end);
    let wide = left_aligned(hex, 48);
    let seen = seen_bytes(d, i, end);
    let row = dump_row(d, len, i);
    lemma_joined_hex(d, i, end, p);
    crate::text::law_aligned_text_is_filled(hex, 48);
    assert(wide.len() == 48);
    assert(row.take(w) =~= place);
    assert(place.take(w) =~= place);
    assert(row.subrange(w + 3, w + 3 + hex.len()) =~= hex);
    crate::ui::lemma_byte_is_written_within(row, hex, w + 3, 3 * (p - i), d[p], false);
    assert(row[w + 53 + p % 16] == seen[p - i]);
    assert(writes_place(row, w, p - p % 16));
}

/// A hex dump has a heading with the number of bytes that it shows, and a row for each 16 of
/// them or what is left.
pub proof fn law_hex_dump_has_a_row_for_16_bytes(path: Seq<char>, d: Seq<u8>, max_bytes: nat)
    ensures
        ({
            let lines = hex_dump(path, d, max_bytes);
            let len = if max_bytes < d.len() { max_bytes } else { d.len() };
            &&& lines[0] == "Hex dump of "@ + path + " ("@ + decimal(len) + " bytes):"@
            &&& 16 * (lines.len() - 1) >= len
            &&& 16 * (lines.len() - 2) < len
        }),
{
}

/// The list of a directory has a heading and a line for each entry, in order, with its picture
/// and its name.
pub proof fn law_list_has_a_line_for_each_entry(
    path: Seq<char>,
    partition: Seq<char>,
    entries: Seq<DirEntryView>,
    i: int,
)
    requires
        0 <= i < entries.len(),
    ensures
        list_rows(path, partition, entries).len() == entries.len() + 1,
        list_rows(path, partition, entries)[0] == path + " ("@ + partition + ")"@,
        list_rows(path, partition, entries)[i + 1] == "  "@ + (if entries[i].file_type == 2 {
            "📁"@
        } else if entries[i].file_type == 1 {
            "📄"@
        } else if entries[i].file_type == 7 {
            "🔗"@
        } else {
            "❓"@
        }) + " "@ + entries[i].name,
{
}

/// What is said of an archive: its path, its time, and each device with its number, name and
/// size.
pub proof fn law_info_names_every_device(path: Seq<char>, a: ArchiveView, i: int)
    requires
        0 <= i < a.devices.len(),
    ensures
        info(path, a).len() == a.devices.len() + 3,
        info(path, a)[0] == "VMA: "@ + path,
        info(path, a)[1] == "Created: "@ + a.ctime,
        info(path, a)[2] == "Devices: "@ + decimal(a.devices.len()),
        info(path, a)[i + 3] == "  "@ + decimal(i as nat) + ": "@ + a.devices[i].name + " ("@
            + size_text(a.devices[i].size as nat) + ")"@,
{
}

/// What is said of the digest of a file: its path, its size, and each byte of the digest in two
/// digits.
pub proof fn law_hash_lines_write_the_digest(
    path: Seq<char>,
    size: nat,
    digest: Seq<u8>,
    k: int,
)
    requires
        0 <= k < digest.len(),
    ensures
        ({
            let lines = hash_rows(path, size, digest);
            &&& lines.len() == 3
            &&& lines[0] == "File: "@ + path
            &&& lines[1] == "Size: "@ + decimal(size) + " bytes"@
            &&& lines[2].len() == 8 + 2 * digest.len()
            &&& lines[2].take(8) == "SHA256: "@
            &&& number_in(16, lines[2].subrange(8 + 2 * k, 10 + 2 * k)) == digest[k]
        }),
{
    reveal_strlit("SHA256: ");
    let hex = hex_bytes(digest, 0, digest.len() as int, false);
    crate::text::law_hex_bytes_are_the_bytes(digest, 0, digest.len() as int, false, k);
    let line = hash_rows(path, size, digest)[2];
    assert(line.take(8) =~= "SHA256: "@);
    assert(line.subrange(8 + 2 * k, 10 + 2 * k) =~= hex.subrange(2 * k, 2 * k + 2));
}

/// What is said of a command that cannot be carried out, and of a file that was extracted, names
/// what it is about.
pub proof fn law_messages_name_what_they_are_about(
    index: usize,
    count: usize,
    path: Seq<char>,
    size: nat,
    output: Seq<char>,
)
    ensures
        command_message(CommandErrorView::NoPartitionOf { index, count }) == "Partition "@
            + decimal(index as nat) + " not found (only "@ + decimal(count as nat)
            + " partitions)"@,
        command_message(CommandErrorView::NoPartition { index }) == "Partition "@ + decimal(
            index as nat,
        ) + " not found"@,
        command_message(CommandErrorView::FileNotFound { path }) == "File not found: "@ + path,
        command_message(CommandErrorView::Unsupported)
            == "Unsupported filesystem or path not found"@,
        extracted(path, size, output) == "Extracted "@ + path + " ("@ + decimal(size)
            + " bytes) -> "@ + output,
{
}

/// What an error says to others is what it holds.
pub proof fn law_errors_say_what_they_hold(index: usize, count: usize, path: String)
    ensures
        (CommandError::NoPartitionOf { index, count })@ == (CommandErrorView::NoPartitionOf {
            index,
            count,
        }),
        (CommandError::NoPartition { index })@ == (CommandErrorView::NoPartition { index }),
        (CommandError::FileNotFound { path })@ == (CommandErrorView::FileNotFound { path: path@ }),
        CommandError::Unsupported@ == CommandErrorView::Unsupported,
{
}

} // verus!
