//! What the screens show.
//!
//! Paths come as text: what a path looks like is up to the file system.
use vstd::prelude::*;
use vstd::utf8::{decode_utf8, encode_utf8, is_char_boundary};
use crate::app::{device_partitions, App, AppState, FileEntry};
use crate::ext4::{listed, DirEntry, DirEntryView};
use crate::keys::{device_count, last_place};
use crate::partition::{partition_table, shown, table_fits, Partition, PartitionView};
use crate::probe::raw_fs;
use crate::size::{format_size, size_text};
use crate::text::{
    concat_texts, decimal, decimal_text, hex_padded, is_hex_digit, left_aligned, number_in, preview, preview_text,
    push_decimal, push_hex, push_left_aligned, push_right_aligned, right_aligned, texts,
};
use crate::tree::{icon, icon_for};
use crate::vma::{config_shown, devices_shown, VmaDevice, VmaDeviceView};

verus! {

/// The screens.
#[derive(PartialEq, Eq, Clone, Copy, Debug, Structural)]
pub enum ViewMode {
    FileList,
    VmaInfo,
    PartitionTable,
    HexView,
    FsBrowse,
}

// ---------------------------------------------------------------- title and status line

/// The name of the selected device; a question mark where there is none.
pub open spec fn chosen_name(s: AppState) -> Seq<char> {
    if s.selected_device < device_count(s) {
        (s.vma->0).devices[s.selected_device as int].name
    } else {
        "?"@
    }
}

/// The title of a screen.
pub open spec fn title(s: AppState, path: Seq<char>) -> Seq<char> {
    if s.status_msg.len() > 0 {
        "⏳ "@ + s.status_msg
    } else {
        match s.view_mode {
            ViewMode::FileList => "VZDump Browser — "@ + path,
            ViewMode::VmaInfo => "VMA: "@ + decimal(device_count(s)) + " devices"@,
            ViewMode::PartitionTable => "Partitions — "@ + chosen_name(s),
            ViewMode::FsBrowse => "Filesystem — "@ + s.current_dir.1,
            ViewMode::HexView => "Hex — "@ + s.hex_title,
        }
    }
}

/// The title of the screen.
pub fn title_text(app: &App, path: &str) -> (r: String)
    ensures
        r@ == title(app@, path@),
{
    if !app.status_msg.as_str().is_empty() {
        return concat_texts("⏳ ", app.status_msg.as_str());
    }
    match app.view_mode {
        ViewMode::FileList => concat_texts("VZDump Browser — ", path),
        ViewMode::VmaInfo => {
            let count: usize = match &app.vma {
                Some(v) => v.device_list().len(),
                None => 0,
            };
            let mut s = "VMA: ".to_owned();
            push_decimal(&mut s, count as u64);
            s.append(" devices");
            s
        },
        ViewMode::PartitionTable => {
            if let Some(v) = &app.vma {
                let devices = v.device_list();
                if app.selected_device < devices.len() {
                    assert(devices@[app.selected_device as int]@ == (app@.vma->0).devices[
                        app.selected_device as int]);
                    return concat_texts(
                        "Partitions — ",
                        devices[app.selected_device].name.as_str(),
                    );
                }
            }
            concat_texts("Partitions — ", "?")
        },
        ViewMode::FsBrowse => concat_texts("Filesystem — ", app.ext4_current_dir.1.as_str()),
        ViewMode::HexView => concat_texts("Hex — ", app.hex_title.as_str()),
    }
}

/// The place that is selected in the file list; the first where none is.
pub open spec fn list_place(s: AppState) -> usize {
    match s.list_selected {
        Some(i) => i,
        None => 0,
    }
}

/// The status line of a screen. `dump` is where the start of the device was saved, if it was.
pub open spec fn status(s: AppState, path: Seq<char>, dump: Seq<char>) -> Seq<char> {
    match s.view_mode {
        ViewMode::FileList => if list_place(s) < s.items.len() {
            let e = s.items[list_place(s) as int];
            path + " | "@ + (if e.is_dir {
                "DIR"@
            } else {
                size_text(e.size as nat)
            }) + " | Enter=Open h=Back ?=Help"@
        } else {
            path + " | ?=Help"@
        },
        ViewMode::VmaInfo => "w/s=device  p/Enter=partitions  x=raw hex  t=back  ?=Help"@,
        ViewMode::PartitionTable => if s.dump_path is Some {
            "j/k=select  Enter=hex  x=raw  d=dump:"@ + dump + "  h=back"@
        } else {
            "j/k=select  Enter=hex  x=raw hex  h=back  ?=Help"@
        },
        ViewMode::FsBrowse => s.current_dir.1 + " type="@ + s.fs_type + " blocks="@ + decimal(
            s.total_blocks as nat,
        ) + " | Enter=open e=extract ?=Help"@,
        ViewMode::HexView => "j/k=scroll  PgUp/Dn=page  h=back  ?=Help"@,
    }
}

/// The status line of the screen.
pub fn status_text(app: &App, path: &str, dump: &str) -> (r: String)
    ensures
        r@ == status(app@, path@, dump@),
{
    match app.view_mode {
        ViewMode::FileList => {
            let i: usize = match app.list_state {
                Some(i) => i,
                None => 0,
            };
            let mut s = path.to_owned();
            if i < app.items.len() {
                let e = &app.items[i];
                s.append(" | ");
                if e.is_dir {
                    s.append("DIR");
                } else {
                    s.append(format_size(e.size).as_str());
                }
                s.append(" | Enter=Open h=Back ?=Help");
            } else {
                s.append(" | ?=Help");
            }
            s
        },
        ViewMode::VmaInfo => {
            "w/s=device  p/Enter=partitions  x=raw hex  t=back  ?=Help".to_owned()
        },
        ViewMode::PartitionTable => {
            if app.dump_path.is_some() {
                let mut s = "j/k=select  Enter=hex  x=raw  d=dump:".to_owned();
                s.append(dump);
                s.append("  h=back");
                s
            } else {
                "j/k=select  Enter=hex  x=raw hex  h=back  ?=Help".to_owned()
            }
        },
        ViewMode::FsBrowse => {
            let mut s = app.ext4_current_dir.1.clone();
            s.append(" type=");
            s.append(app.ext4_fs_type.as_str());
            s.append(" blocks=");
            push_decimal(&mut s, app.ext4_total_blocks);
            s.append(" | Enter=open e=extract ?=Help");
            s
        },
        ViewMode::HexView => "j/k=scroll  PgUp/Dn=page  h=back  ?=Help".to_owned(),
    }
}

// ---------------------------------------------------------------- file list

/// The line for a file with a name.
pub open spec fn file_row(e: FileEntry, name: Seq<char>) -> Seq<char> {
    (if e.is_dir {
        "📁"@
    } else if e.is_vma {
        "📦"@
    } else {
        "📄"@
    }) + " "@ + left_aligned(name, 40) + (if e.is_dir {
        seq![]
    } else {
        "  "@ + size_text(e.size as nat)
    })
}

/// The line for a file with a name.
pub fn file_line(e: &FileEntry, name: &str) -> (r: String)
    ensures
        r@ == file_row(*e, name@),
{
    let mut s = if e.is_dir {
        "📁".to_owned()
    } else if e.is_vma {
        "📦".to_owned()
    } else {
        "📄".to_owned()
    };
    s.append(" ");
    push_left_aligned(&mut s, name, 40);
    if !e.is_dir {
        s.append("  ");
        s.append(format_size(e.size).as_str());
    }
    assert(s@ =~= file_row(*e, name@));
    s
}

// ---------------------------------------------------------------- archive

/// The line for a configuration file, with the start of its contents.
pub open spec fn config_row(c: (Seq<char>, Seq<char>), n: nat) -> Seq<char> {
    "  "@ + left_aligned(c.0, 35) + " "@ + preview(c.1, n)
}

/// The line for a configuration file, with the first `n` characters of its contents.
pub fn config_line(name: &str, value: &str, n: usize) -> (r: String)
    ensures
        r@ == config_row((name@, value@), n as nat),
{
    let mut s = "  ".to_owned();
    push_left_aligned(&mut s, name, 35);
    s.append(" ");
    s.append(preview_text(value, n).as_str());
    s
}

/// The lines for configuration files `from` to `to`.
pub open spec fn config_rows(config: Seq<(Seq<char>, Seq<char>)>, from: int, to: int) -> Seq<char>
    decreases to - from,
{
    if from >= to {
        seq![]
    } else {
        config_rows(config, from, to - 1) + config_row(config[to - 1], 70) + "\n"@
    }
}

/// The first configuration file that is shown.
pub open spec fn config_first(scroll: nat, len: nat) -> nat {
    if scroll < last_place(len) {
        scroll
    } else {
        last_place(len)
    }
}

/// The end of the configuration files that are shown.
pub open spec fn config_end(scroll: nat, len: nat) -> nat {
    if config_first(scroll, len) + 15 < len {
        config_first(scroll, len) + 15
    } else {
        len
    }
}

/// The line for a device.
pub open spec fn device_row(d: VmaDeviceView, selected: bool) -> Seq<char> {
    (if selected {
        "▶"@
    } else {
        " "@
    }) + " "@ + left_aligned(d.name, 25) + " "@ + right_aligned(size_text(d.size as nat), 10)
        + " [decompressed]"@
}

/// The lines for the first `n` devices.
pub open spec fn device_rows(devices: Seq<VmaDeviceView>, n: int, selected: int) -> Seq<char>
    decreases n,
{
    if n <= 0 {
        seq![]
    } else {
        device_rows(devices, n - 1, selected) + device_row(devices[n - 1], n - 1 == selected)
            + "\n"@
    }
}

/// What the screen of an archive shows.
pub open spec fn vma_info(s: AppState) -> Seq<char> {
    (match s.vma {
        None => seq![],
        Some(a) => "Created: "@ + a.ctime + "\nDevices: "@ + decimal(a.devices.len())
            + "  Configs: "@ + decimal(a.config.len()) + "\n\n── Configs (j/k scroll) ──\n"@
            + config_rows(
            a.config,
            config_first(s.config_scroll as nat, a.config.len()) as int,
            config_end(s.config_scroll as nat, a.config.len()) as int,
        ) + "\n── Devices (w/s switch) ──\n"@ + device_rows(
            a.devices,
            a.devices.len() as int,
            s.selected_device as int,
        ),
    }) + "\np/Enter: Analyze partitions\nx: Raw hex  w/s: Switch  t: Back\n"@
}

fn push_config_rows(s: &mut String, config: &Vec<(String, String)>, from: usize, to: usize)
    requires
        from <= to <= config@.len(),
    ensures
        final(s)@ == old(s)@ + config_rows(config_shown(config@), from as int, to as int),
{
    let ghost before = s@;
    let ghost all = config_shown(config@);
    let mut i = from;
    assert(s@ =~= before + config_rows(all, from as int, from as int));
    while i < to
        invariant
            from <= i <= to <= config@.len(),
            all == config_shown(config@),
            s@ == before + config_rows(all, from as int, i as int),
        decreases to - i,
    {
        assert(all[i as int] == (config@[i as int].0@, config@[i as int].1@));
        s.append(config_line(config[i].0.as_str(), config[i].1.as_str(), 70).as_str());
        s.append("\n");
        i = i + 1;
        assert(s@ =~= before + config_rows(all, from as int, i as int));
    }
}

fn push_device_rows(s: &mut String, devices: &Vec<VmaDevice>, selected: usize)
    ensures
        final(s)@ == old(s)@ + device_rows(
            devices_shown(devices@),
            devices@.len() as int,
            selected as int,
        ),
{
    let ghost before = s@;
    let ghost all = devices_shown(devices@);
    let mut i: usize = 0;
    assert(s@ =~= before + device_rows(all, 0, selected as int));
    while i < devices.len()
        invariant
            i <= devices.len(),
            all == devices_shown(devices@),
            s@ == before + device_rows(all, i as int, selected as int),
        decreases devices.len() - i,
    {
        assert(all[i as int] == devices@[i as int]@);
        if i == selected {
            s.append("▶");
        } else {
            s.append(" ");
        }
        s.append(" ");
        push_left_aligned(s, devices[i].name.as_str(), 25);
        s.append(" ");
        push_right_aligned(s, format_size(devices[i].size).as_str(), 10);
        s.append(" [decompressed]");
        s.append("\n");
        i = i + 1;
        assert(s@ =~= before + device_rows(all, i as int, selected as int));
    }
}

/// What the screen of the archive shows.
pub fn vma_info_text(app: &App) -> (r: String)
    ensures
        r@ == vma_info(app@),
{
    let mut s = String::new();
    if let Some(v) = &app.vma {
        let devices = v.device_list();
        let config = v.config_list();
        let len = config.len();
        let first: usize = if len == 0 {
            0
        } else if app.config_scroll < len - 1 {
            app.config_scroll
        } else {
            len - 1
        };
        let end: usize = if len - first > 15 {
            first + 15
        } else {
            len
        };
        s.append("Created: ");
        s.append(v.created());
        s.append("\nDevices: ");
        push_decimal(&mut s, devices.len() as u64);
        s.append("  Configs: ");
        push_decimal(&mut s, len as u64);
        s.append("\n\n── Configs (j/k scroll) ──\n");
        push_config_rows(&mut s, config, first, end);
        s.append("\n── Devices (w/s switch) ──\n");
        push_device_rows(&mut s, devices, app.selected_device);
    }
    let ghost top = s@;
    s.append("\np/Enter: Analyze partitions\nx: Raw hex  w/s: Switch  t: Back\n");
    assert(app.vma is None ==> top =~= seq![]);
    assert(s@ =~= vma_info(app@));
    s
}

// ---------------------------------------------------------------- partitions

/// The bytes of the sectors of a partition can be counted.
pub open spec fn size_fits(p: PartitionView) -> bool {
    p.num_sectors * 512 <= u64::MAX
}

/// The line for a partition.
pub open spec fn partition_row(p: PartitionView) -> Seq<char> {
    p.name + "  "@ + right_aligned(decimal(p.start_sector as nat), 10) + "  "@ + right_aligned(
        size_text((p.num_sectors * 512) as nat),
        10,
    ) + "  "@ + right_aligned(p.type_guid, 6) + "  "@ + p.fs_type
}

/// The line for a partition.
pub fn partition_line(p: &Partition) -> (r: String)
    requires
        size_fits(p@),
    ensures
        r@ == partition_row(p@),
{
    let mut s = p.name.clone();
    s.append("  ");
    push_right_aligned(&mut s, decimal_text(p.start_sector).as_str(), 10);
    s.append("  ");
    push_right_aligned(&mut s, format_size(p.num_sectors * 512).as_str(), 10);
    s.append("  ");
    push_right_aligned(&mut s, p.type_guid.as_str(), 6);
    s.append("  ");
    s.append(p.fs_type.as_str());
    s
}

// ---------------------------------------------------------------- file system browser

/// A name can be shortened: it is short, or a character ends at its 57th byte.
pub open spec fn name_fits(name: Seq<char>) -> bool {
    encode_utf8(name).len() > 60 ==> is_char_boundary(encode_utf8(name), 57)
}

/// A name; of one longer than 60 bytes the first 57, and dots.
pub open spec fn short_name(name: Seq<char>) -> Seq<char> {
    if encode_utf8(name).len() > 60 {
        decode_utf8(encode_utf8(name).subrange(0, 57)) + "..."@
    } else {
        name
    }
}

/// Whether a name can be shortened.
pub fn name_can_be_shown(name: &str) -> (r: bool)
    ensures
        r == name_fits(name@),
{
    name.as_bytes().len() <= 60 || name.is_char_boundary(57)
}

/// The line for an entry of a directory.
pub open spec fn entry_row(e: DirEntryView) -> Seq<char> {
    icon(e.file_type) + " "@ + short_name(e.name)
}

/// The line for an entry of a directory.
pub fn entry_line(e: &DirEntry) -> (r: String)
    requires
        name_fits(e@.name),
    ensures
        r@ == entry_row(e@),
{
    let mut s = icon_for(e.file_type).to_owned();
    s.append(" ");
    let name = e.name.as_str();
    if name.as_bytes().len() > 60 {
        let (start, _rest) = name.split_at(57);
        proof {
            vstd::utf8::encode_utf8_decode_utf8(start@);
        }
        s.append(start);
        s.append("...");
        assert(s@ =~= entry_row(e@));
    } else {
        s.append(name);
    }
    s
}

/// The title of the list of a directory.
pub open spec fn dir_title(s: AppState) -> Seq<char> {
    " "@ + s.current_dir.1 + " ("@ + decimal(s.dirlist.len()) + ")"@
}

/// The title of the list of the directory.
pub fn dir_title_text(app: &App) -> (r: String)
    ensures
        r@ == dir_title(app@),
{
    let mut s = " ".to_owned();
    s.append(app.ext4_current_dir.1.as_str());
    s.append(" (");
    push_decimal(&mut s, app.ext4_dirlist.len() as u64);
    s.append(")");
    s
}

// ---------------------------------------------------------------- hexadecimal

/// Bytes `from` to `to` in hexadecimal, each with a space behind it.
pub open spec fn spaced_hex(d: Seq<u8>, from: int, to: int) -> Seq<char>
    decreases to - from,
{
    if from >= to {
        seq![]
    } else {
        spaced_hex(d, from, to - 1) + hex_padded(d[to - 1] as nat, 2, true) + " "@
    }
}

/// A byte as a character; a dot where it is none that can be seen.
pub open spec fn seen(b: u8) -> char {
    if 32 <= b <= 126 {
        b as char
    } else {
        '.'
    }
}

/// Bytes `from` to `to` as characters.
pub open spec fn seen_bytes(d: Seq<u8>, from: int, to: int) -> Seq<char> {
    Seq::new((to - from) as nat, |k: int| seen(d[from + k]))
}

pub open spec fn least(a: int, b: int) -> int {
    if a < b {
        a
    } else {
        b
    }
}

/// The row of the hex view for the 16 bytes from `i` on.
pub open spec fn hex_row(d: Seq<u8>, i: int) -> Seq<char> {
    let middle = least(i + 8, d.len() as int);
    let end = least(i + 16, d.len() as int);
    hex_padded(i as nat, 8, true) + "  "@ + spaced_hex(d, i, middle) + " "@ + spaced_hex(
        d,
        middle,
        end,
    ) + " |"@ + seen_bytes(d, i, end) + "|\n"@
}

/// The first `n` rows of the hex view from byte `start` on.
pub open spec fn hex_rows(d: Seq<u8>, start: int, n: int) -> Seq<char>
    decreases n,
{
    if n <= 0 {
        seq![]
    } else {
        hex_rows(d, start, n - 1) + hex_row(d, start + 16 * (n - 1))
    }
}

/// How many rows of the hex view there are from byte `start` on: at most 24.
pub open spec fn row_count(len: int, start: int) -> int {
    if start >= len {
        0
    } else {
        least((len - start + 15) / 16, 24)
    }
}

/// The hex view of some bytes from row `scroll` on.
pub open spec fn hex_view(d: Seq<u8>, scroll: int) -> Seq<char> {
    if d.len() == 0 {
        "No data"@
    } else {
        hex_rows(d, scroll * 16, row_count(d.len() as int, scroll * 16))
    }
}

/// The rows of the hex view can be counted.
pub open spec fn scroll_fits(scroll: int) -> bool {
    scroll * 16 + 384 <= usize::MAX
}

/// Appends bytes `from` to `to` as characters that can be seen.
pub fn push_seen(s: &mut String, d: &[u8], from: usize, to: usize)
    requires
        from <= to <= d@.len(),
    ensures
        final(s)@ == old(s)@ + seen_bytes(d@, from as int, to as int),
{
    let ghost before = s@;
    let mut i = from;
    assert(s@ =~= before + seen_bytes(d@, from as int, from as int));
    while i < to
        invariant
            from <= i <= to <= d@.len(),
            s@ == before + seen_bytes(d@, from as int, i as int),
        decreases to - i,
    {
        let b = d[i];
        s.push(if b >= 32 && b <= 126 { b as char } else { '.' });
        i = i + 1;
        assert(s@ =~= before + seen_bytes(d@, from as int, i as int));
    }
}

fn push_spaced_hex(s: &mut String, d: &[u8], from: usize, to: usize)
    requires
        from <= to <= d@.len(),
    ensures
        final(s)@ == old(s)@ + spaced_hex(d@, from as int, to as int),
{
    let ghost before = s@;
    let mut i = from;
    assert(s@ =~= before + spaced_hex(d@, from as int, from as int));
    while i < to
        invariant
            from <= i <= to <= d@.len(),
            s@ == before + spaced_hex(d@, from as int, i as int),
        decreases to - i,
    {
        push_hex(s, d[i] as u64, 2, true);
        s.append(" ");
        i = i + 1;
        assert(s@ =~= before + spaced_hex(d@, from as int, i as int));
    }
}

fn push_hex_row(s: &mut String, data: &[u8], i: usize)
    requires
        i < data@.len(),
        i + 16 <= usize::MAX,
    ensures
        final(s)@ == old(s)@ + hex_row(data@, i as int),
{
    let ghost before = s@;
    let len = data.len();
    let middle: usize = if len - i < 8 {
        len
    } else {
        i + 8
    };
    let end: usize = if len - i < 16 {
        len
    } else {
        i + 16
    };
    push_hex(s, i as u64, 8, true);
    s.append("  ");
    push_spaced_hex(s, data, i, middle);
    s.append(" ");
    push_spaced_hex(s, data, middle, end);
    s.append(" |");
    push_seen(s, data, i, end);
    s.append("|\n");
    assert(s@ =~= before + hex_row(data@, i as int));
}

/// The hex view of some bytes from row `scroll` on.
pub fn gen_hex(data: &[u8], scroll: usize) -> (r: String)
    requires
        data@.len() > 0 ==> scroll_fits(scroll as int),
    ensures
        r@ == hex_view(data@, scroll as int),
{
    let len = data.len();
    if len == 0 {
        return "No data".to_owned();
    }
    let start: usize = scroll * 16;
    let mut s = String::new();
    let mut n: usize = 0;
    assert(s@ =~= hex_rows(data@, start as int, 0));
    while n < 24 && start + 16 * n < len
        invariant
            n <= 24,
            len == data@.len(),
            start == scroll * 16,
            scroll_fits(scroll as int),
            n > 0 ==> start + 16 * (n - 1) < len,
            s@ == hex_rows(data@, start as int, n as int),
        decreases 24 - n,
    {
        push_hex_row(&mut s, data, start + 16 * n);
        n = n + 1;
    }
    assert(n == row_count(len as int, start as int));
    s
}

// ---------------------------------------------------------------- help

/// What the help shows.
pub open spec fn help() -> Seq<Seq<char>> {
    seq![
        "Help"@,
        "────"@,
        "q/t/h   Quit / Back"@,
        "j/k     Navigate / Scroll"@,
        "Enter   Open / Select"@,
        "e       Extract file (fs browser)"@,
        "x       Raw hex view"@,
        "w/s     Switch device"@,
        "PgUp/Dn Page scroll"@,
        ""@,
        "Header: instant. Extraction: lazy, bounded."@,
        "Detects: MBR, ext4, XFS, btrfs, NTFS, LVM2"@,
    ]
}

/// What the help shows, line by line.
pub fn help_lines() -> (r: Vec<&'static str>)
    ensures
        r@.map_values(|s: &'static str| s@) == help(),
{
    let mut r: Vec<&'static str> = Vec::new();
    r.push("Help");
    r.push("────");
    r.push("q/t/h   Quit / Back");
    r.push("j/k     Navigate / Scroll");
    r.push("Enter   Open / Select");
    r.push("e       Extract file (fs browser)");
    r.push("x       Raw hex view");
    r.push("w/s     Switch device");
    r.push("PgUp/Dn Page scroll");
    r.push("");
    r.push("Header: instant. Extraction: lazy, bounded.");
    r.push("Detects: MBR, ext4, XFS, btrfs, NTFS, LVM2");
    assert(r@.map_values(|s: &'static str| s@) =~= help());
    r
}

// ---------------------------------------------------------------- the whole screen

/// The middle of a screen: a list with a selected line, or a text, under a title.
pub enum Body {
    List { title: String, lines: Vec<String>, selected: Option<usize> },
    Text { title: String, text: String },
}

/// The middle of a screen.
pub enum BodyView {
    List { title: Seq<char>, lines: Seq<Seq<char>>, selected: Option<usize> },
    Text { title: Seq<char>, text: Seq<char> },
}

impl View for Body {
    type V = BodyView;

    open spec fn view(&self) -> BodyView {
        match self {
            Body::List { title, lines, selected } => BodyView::List {
                title: title@,
                lines: texts(lines@),
                selected: *selected,
            },
            Body::Text { title, text } => BodyView::Text { title: title@, text: text@ },
        }
    }
}

/// A screen, from top to bottom, and whether the help lies over it.
pub struct Screen {
    pub title: String,
    pub body: Body,
    pub status: String,
    pub help: bool,
}

/// A screen.
pub struct ScreenView {
    pub title: Seq<char>,
    pub body: BodyView,
    pub status: Seq<char>,
    pub help: bool,
}

impl View for Screen {
    type V = ScreenView;

    open spec fn view(&self) -> ScreenView {
        ScreenView {
            title: self.title@,
            body: self.body@,
            status: self.status@,
            help: self.help,
        }
    }
}

/// The middle of the screen. `names` are those of the files in the list.
pub open spec fn body(s: AppState, names: Seq<Seq<char>>) -> BodyView {
    match s.view_mode {
        ViewMode::FileList => BodyView::List {
            title: " Backups "@,
            lines: Seq::new(s.items.len(), |i: int| file_row(s.items[i], names[i])),
            selected: s.list_selected,
        },
        ViewMode::VmaInfo => BodyView::Text { title: " VMA Info "@, text: vma_info(s) },
        ViewMode::PartitionTable => BodyView::List {
            title: " Partitions "@,
            lines: Seq::new(s.partitions.len(), |i: int| partition_row(s.partitions[i])),
            selected: Some(s.partition_scroll),
        },
        ViewMode::HexView => BodyView::Text {
            title: " Hex View "@,
            text: hex_view(s.hex_data, s.hex_scroll as int),
        },
        ViewMode::FsBrowse => BodyView::List {
            title: dir_title(s),
            lines: Seq::new(s.dirlist.len(), |i: int| entry_row(s.dirlist[i])),
            selected: s.dir_selected,
        },
    }
}

/// What there is to show can be shown.
pub open spec fn screen_fits(s: AppState) -> bool {
    match s.view_mode {
        ViewMode::PartitionTable => forall|i: int|
            0 <= i < s.partitions.len() ==> size_fits(#[trigger] s.partitions[i]),
        ViewMode::HexView => s.hex_data.len() > 0 ==> scroll_fits(s.hex_scroll as int),
        ViewMode::FsBrowse => forall|i: int|
            0 <= i < s.dirlist.len() ==> name_fits((#[trigger] s.dirlist[i]).name),
        _ => true,
    }
}

fn file_lines(items: &Vec<FileEntry>, names: &Vec<String>) -> (r: Vec<String>)
    requires
        names@.len() == items@.len(),
    ensures
        texts(r@) == Seq::new(items@.len(), |i: int| file_row(items@[i], texts(names@)[i])),
{
    let mut lines: Vec<String> = Vec::new();
    let mut i: usize = 0;
    while i < items.len()
        invariant
            i <= items.len(),
            names@.len() == items@.len(),
            lines.len() == i,
            forall|k: int| 0 <= k < i ==> (#[trigger] lines@[k])@ == file_row(items@[k], names@[k]@),
        decreases items.len() - i,
    {
        lines.push(file_line(&items[i], names[i].as_str()));
        i = i + 1;
    }
    assert(texts(lines@) =~= Seq::new(
        items@.len(),
        |i: int| file_row(items@[i], texts(names@)[i]),
    ));
    lines
}

fn partition_lines(partitions: &Vec<Partition>) -> (r: Vec<String>)
    requires
        forall|i: int|
            0 <= i < shown(partitions@).len() ==> size_fits(#[trigger] shown(partitions@)[i]),
    ensures
        texts(r@) == Seq::new(
            shown(partitions@).len(),
            |i: int| partition_row(shown(partitions@)[i]),
        ),
{
    let mut lines: Vec<String> = Vec::new();
    let mut i: usize = 0;
    while i < partitions.len()
        invariant
            i <= partitions.len(),
            forall|i: int|
                0 <= i < shown(partitions@).len() ==> size_fits(#[trigger] shown(partitions@)[i]),
            lines.len() == i,
            forall|k: int| 0 <= k < i ==> (#[trigger] lines@[k])@ == partition_row(partitions@[k]@),
        decreases partitions.len() - i,
    {
        assert(size_fits(shown(partitions@)[i as int]));
        lines.push(partition_line(&partitions[i]));
        i = i + 1;
    }
    assert(texts(lines@) =~= Seq::new(
        shown(partitions@).len(),
        |i: int| partition_row(shown(partitions@)[i]),
    ));
    lines
}

fn entry_lines(entries: &Vec<DirEntry>) -> (r: Vec<String>)
    requires
        forall|i: int|
            0 <= i < listed(entries@).len() ==> name_fits((#[trigger] listed(entries@)[i]).name),
    ensures
        texts(r@) == Seq::new(listed(entries@).len(), |i: int| entry_row(listed(entries@)[i])),
{
    let mut lines: Vec<String> = Vec::new();
    let mut i: usize = 0;
    while i < entries.len()
        invariant
            i <= entries.len(),
            forall|i: int|
                0 <= i < listed(entries@).len() ==> name_fits(
                    (#[trigger] listed(entries@)[i]).name,
                ),
            lines.len() == i,
            forall|k: int| 0 <= k < i ==> (#[trigger] lines@[k])@ == entry_row(entries@[k]@),
        decreases entries.len() - i,
    {
        assert(name_fits(listed(entries@)[i as int].name));
        lines.push(entry_line(&entries[i]));
        i = i + 1;
    }
    assert(texts(lines@) =~= Seq::new(
        listed(entries@).len(),
        |i: int| entry_row(listed(entries@)[i]),
    ));
    lines
}

/// Whether what there is to show can be shown.
pub fn can_render(app: &App) -> (r: bool)
    ensures
        r == screen_fits(app@),
{
    match app.view_mode {
        ViewMode::PartitionTable => {
            let mut i: usize = 0;
            while i < app.partitions.len()
                invariant
                    app.view_mode == ViewMode::PartitionTable,
                    i <= app.partitions.len(),
                    forall|k: int|
                        0 <= k < i ==> size_fits(#[trigger] shown(app.partitions@)[k]),
                decreases app.partitions.len() - i,
            {
                if app.partitions[i].num_sectors > u64::MAX / 512 {
                    assert(!size_fits(app@.partitions[i as int]));
                    return false;
                }
                i = i + 1;
            }
            true
        },
        ViewMode::HexView => {
            app.hex_data.len() == 0 || app.hex_scroll <= (usize::MAX - 384) / 16
        },
        ViewMode::FsBrowse => {
            let mut i: usize = 0;
            while i < app.ext4_dirlist.len()
                invariant
                    app.view_mode == ViewMode::FsBrowse,
                    i <= app.ext4_dirlist.len(),
                    forall|k: int|
                        0 <= k < i ==> name_fits((#[trigger] listed(app.ext4_dirlist@)[k]).name),
                decreases app.ext4_dirlist.len() - i,
            {
                if !name_can_be_shown(app.ext4_dirlist[i].name.as_str()) {
                    assert(!name_fits(app@.dirlist[i as int].name));
                    return false;
                }
                i = i + 1;
            }
            true
        },
        _ => true,
    }
}

/// What the screen shows. `names` are those of the files in the list, `path` is that of their
/// directory, and `dump` is where the start of the device was saved, if it was.
pub fn render(app: &App, path: &str, dump: &str, names: &Vec<String>) -> (r: Screen)
    requires
        screen_fits(app@),
        app@.view_mode == ViewMode::FileList ==> names@.len() == app@.items.len(),
    ensures
        r@ == (ScreenView {
            title: title(app@, path@),
            body: body(app@, texts(names@)),
            status: status(app@, path@, dump@),
            help: app@.show_help,
        }),
{
    let body = match app.view_mode {
        ViewMode::FileList => Body::List {
            title: " Backups ".to_owned(),
            lines: file_lines(&app.items, names),
            selected: app.list_state,
        },
        ViewMode::VmaInfo => Body::Text {
            title: " VMA Info ".to_owned(),
            text: vma_info_text(app),
        },
        ViewMode::PartitionTable => Body::List {
            title: " Partitions ".to_owned(),
            lines: partition_lines(&app.partitions),
            selected: Some(app.partition_scroll),
        },
        ViewMode::HexView => Body::Text {
            title: " Hex View ".to_owned(),
            text: gen_hex(app.hex_data.as_slice(), app.hex_scroll),
        },
        ViewMode::FsBrowse => Body::List {
            title: dir_title_text(app),
            lines: entry_lines(&app.ext4_dirlist),
            selected: app.ext4_dirlist_state,
        },
    };
    Screen {
        title: title_text(app, path),
        body,
        status: status_text(app, path, dump),
        help: app.show_help,
    }
}

/// The partitions that were read of a device can be shown.
pub proof fn law_loaded_partitions_can_be_shown(
    dev: VmaDeviceView,
    data: Seq<u8>,
    probes: Seq<Option<Vec<u8>>>,
    i: int,
)
    requires
        table_fits(data),
        0 <= i < device_partitions(dev, data, probes).len(),
    ensures
        size_fits(device_partitions(dev, data, probes)[i]),
{
    let table = partition_table(data);
    let first = if raw_fs(data).len() > 0 {
        1int
    } else {
        0
    };
    if i >= first {
        crate::partition::law_partitions_count_in_sectors(data, i - first);
        assert(device_partitions(dev, data, probes)[i].num_sectors == table[i - first].num_sectors);
    }
}

// ---------------------------------------------------------------- what the hex view shows

/// The two characters of a text at `at` are hexadecimal digits and write the byte.
pub open spec fn writes_byte(text: Seq<char>, at: int, b: u8, upper: bool) -> bool {
    &&& 0 <= at
    &&& at + 2 <= text.len()
    &&& number_in(16, text.subrange(at, at + 2)) == b
    &&& is_hex_digit(text[at], upper)
    &&& is_hex_digit(text[at + 1], upper)
}

pub proof fn lemma_byte_is_written(b: u8, upper: bool)
    ensures
        hex_padded(b as nat, 2, upper).len() == 2,
        writes_byte(hex_padded(b as nat, 2, upper), 0, b, upper),
{
    let t = hex_padded(b as nat, 2, upper);
    crate::text::lemma_byte_has_two_digits(b as nat, upper);
    crate::text::law_hexadecimal_is_the_number(b as nat, 2, upper);
    assert(t.subrange(0, 2) =~= t);
    assert(is_hex_digit(t[0], upper) && is_hex_digit(t[1], upper));
}

/// A text that another one holds writes what it writes.
pub proof fn lemma_byte_is_written_within(
    text: Seq<char>,
    part: Seq<char>,
    from: int,
    at: int,
    b: u8,
    upper: bool,
)
    requires
        0 <= from,
        from + part.len() <= text.len(),
        text.subrange(from, from + part.len()) == part,
        writes_byte(part, at, b, upper),
    ensures
        writes_byte(text, from + at, b, upper),
{
    assert(text.subrange(from + at, from + at + 2) =~= part.subrange(at, at + 2));
    assert(text[from + at] == text.subrange(from, from + part.len())[at]);
    assert(text[from + at + 1] == text.subrange(from, from + part.len())[at + 1]);
}

proof fn lemma_spaced_hex(d: Seq<u8>, from: int, to: int, k: int)
    requires
        from <= to,
        from <= k < to || from == to,
    ensures
        spaced_hex(d, from, to).len() == 3 * (to - from),
        from < to ==> writes_byte(spaced_hex(d, from, to), 3 * (k - from), d[k], true),
    decreases to - from,
{
    if from < to {
        reveal_strlit(" ");
        let front = spaced_hex(d, from, to - 1);
        let all = spaced_hex(d, from, to);
        let own = hex_padded(d[to - 1] as nat, 2, true);
        lemma_byte_is_written(d[to - 1], true);
        if k < to - 1 {
            lemma_spaced_hex(d, from, to - 1, k);
            assert(all.subrange(0, front.len() as int) =~= front);
            lemma_byte_is_written_within(all, front, 0, 3 * (k - from), d[k], true);
        } else {
            lemma_spaced_hex(d, from, to - 1, from);
            let at = front.len() as int;
            assert(all.subrange(at, at + own.len()) =~= own);
            lemma_byte_is_written_within(all, own, at, 0, d[k], true);
        }
    }
}

/// The first `w` characters of a row write the place of its first byte: eight digits, or as many
/// more as the place needs.
pub open spec fn writes_place(row: Seq<char>, w: int, place: int) -> bool {
    &&& 8 <= w <= row.len()
    &&& number_in(16, row.take(w)) == place
    &&& w > 8 ==> row[0] != '0'
    &&& place < 0x1_0000_0000 ==> w == 8
}

pub proof fn lemma_place_is_written(place: nat, upper: bool)
    ensures
        ({
            let t = hex_padded(place, 8, upper);
            writes_place(t, t.len() as int, place as int)
        }),
{
    let t = hex_padded(place, 8, upper);
    assert(vstd::arithmetic::power::pow(16, 8) == 0x1_0000_0000) by {
        reveal_with_fuel(vstd::arithmetic::power::pow, 9);
    }
    crate::text::law_hexadecimal_is_the_number(place, 8, upper);
    if place < 0x1_0000_0000 {
        crate::text::law_hexadecimal_has_its_width(place, 8, upper);
    }
    assert(t.take(t.len() as int) =~= t);
}

/// Byte `k` of a row of the hex view from byte `i` on, of `n` bytes, whose place has `w` digits:
/// two digits, behind a gap of one more from the ninth byte on, and a character: itself where it
/// can be seen, a dot otherwise.
pub open spec fn hex_row_writes(row: Seq<char>, w: int, n: int, k: int, b: u8) -> bool {
    &&& row.len() == w + 7 + 4 * n
    &&& writes_byte(row, w + 2 + 3 * k + (if k >= 8 { 1int } else { 0 }), b, true)
    &&& row[w + 5 + 3 * n + k] == (if 0x20 <= b <= 0x7e { b as char } else { '.' })
    &&& row.last() == '\n'
}

/// A row of the hex view has the place of its first byte in eight digits, or more where it needs
/// them, two digits for each of up to 16 bytes, with a gap behind the first eight, and a
/// character for each: itself where it can be seen, a dot otherwise.
pub proof fn law_hex_row_writes_its_bytes(d: Seq<u8>, i: int, k: int)
    requires
        0 <= i <= k < d.len(),
        k < i + 16,
    ensures
        exists|w: int| #[trigger]
            writes_place(hex_row(d, i), w, i) && hex_row_writes(
                hex_row(d, i),
                w,
                if d.len() - i < 16 { d.len() - i } else { 16 },
                k - i,
                d[k],
            ),
{
    reveal_strlit(" ");
    reveal_strlit("  ");
    reveal_strlit(" |");
    reveal_strlit("|\n");
    let n = if d.len() - i < 16 { d.len() - i } else { 16 };
    let middle = least(i + 8, d.len() as int);
    let end = least(i + 16, d.len() as int);
    let place = hex_padded(i as nat, 8, true);
    let w = place.len() as int;
    lemma_place_is_written(i as nat, true);
    let a = spaced_hex(d, i, middle);
    let b = spaced_hex(d, middle, end);
    lemma_spaced_hex(d, i, middle, if k < middle { k } else { i });
    lemma_spaced_hex(d, middle, end, if k < middle { middle } else { k });
    let c = seen_bytes(d, i, end);
    let row = hex_row(d, i);
    assert(row.take(w) =~= place);
    assert(place.take(w) =~= place);
    if k < middle {
        assert(row.subrange(w + 2, w + 2 + a.len()) =~= a);
        lemma_byte_is_written_within(row, a, w + 2, 3 * (k - i), d[k], true);
    } else {
        assert(row.subrange(w + 27, w + 27 + b.len()) =~= b);
        lemma_byte_is_written_within(row, b, w + 27, 3 * (k - middle), d[k], true);
    }
    assert(row.subrange(w + 5 + 3 * n, w + 5 + 4 * n) =~= c);
    assert(row[w + 5 + 3 * n + (k - i)] == c[k - i]);
    assert(writes_place(row, w, i));
}

/// The hex view consists of rows, from 16 times the scroll on: one for each 16 bytes as long as
/// there are any, up to 24 of them, one below the other.
pub proof fn law_hex_view_is_its_rows(d: Seq<u8>, scroll: int, n: int)
    requires
        0 <= scroll,
        0 <= n,
        d.len() > 0,
    ensures
        exists|count: int|
            0 <= count <= 24 && hex_view(d, scroll) == #[trigger] hex_rows(d, 16 * scroll, count)
                && (count == 24 || 16 * (scroll + count) >= d.len()) && (count == 0 || 16 * (scroll
                + count - 1) < d.len()),
        hex_rows(d, 16 * scroll, 0).len() == 0,
        hex_rows(d, 16 * scroll, n + 1) == hex_rows(d, 16 * scroll, n) + hex_row(
            d,
            16 * (scroll + n),
        ),
{
    let start = scroll * 16;
    let count = row_count(d.len() as int, start);
    assert(start == 16 * scroll);
    assert(hex_view(d, scroll) == hex_rows(d, 16 * scroll, count));
    assert(start + 16 * n == 16 * (scroll + n));
}

proof fn lemma_hex_rows(d: Seq<u8>, start: int, n: int, k: int)
    requires
        0 <= start,
        0 <= k < n,
        start + 16 * (n - 1) < d.len(),
        d.len() <= u32::MAX,
    ensures
        ({
            let all = hex_rows(d, start, n);
            let row = hex_row(d, start + 16 * k);
            &&& all.len() == 79 * (n - 1) + hex_row(d, start + 16 * (n - 1)).len()
            &&& 79 * k + row.len() <= all.len()
            &&& all.subrange(79 * k, 79 * k + row.len()) == row
        }),
    decreases n,
{
    let front = hex_rows(d, start, n - 1);
    let last = hex_row(d, start + 16 * (n - 1));
    let all = hex_rows(d, start, n);
    if n > 1 {
        lemma_hex_rows(d, start, n - 1, if k < n - 1 { k } else { 0 });
        let i = start + 16 * (n - 2);
        law_hex_row_writes_its_bytes(d, i, i);
        let w = choose|w: int| #[trigger]
            writes_place(hex_row(d, i), w, i) && hex_row_writes(hex_row(d, i), w, 16, 0, d[i]);
    } else {
        assert(front =~= seq![]);
    }
    assert(front.len() == 79 * (n - 1));
    let row = hex_row(d, start + 16 * k);
    if k < n - 1 {
        assert(all.subrange(79 * k, 79 * k + row.len()) =~= front.subrange(
            79 * k,
            79 * k + row.len(),
        ));
    } else {
        assert(all.subrange(79 * k, 79 * k + row.len()) =~= row);
    }
}

/// The hex view shows the bytes from 16 times the scroll on, 384 of them or as many as there
/// are: each 16 in a row, the rows one below the other, and nothing else.
pub proof fn law_hex_view_shows_its_rows(d: Seq<u8>, scroll: int, k: int)
    requires
        0 <= scroll,
        0 <= k < 24,
        d.len() <= u32::MAX,
    ensures
        16 * (scroll + k) < d.len() ==> {
            let row = hex_row(d, 16 * (scroll + k));
            &&& 79 * k + row.len() <= hex_view(d, scroll).len()
            &&& hex_view(d, scroll).subrange(79 * k, 79 * k + row.len()) == row
            &&& k == 23 || 16 * (scroll + k + 1) >= d.len() ==> hex_view(d, scroll).len() == 79 * k
                + row.len()
        },
        d.len() > 0 && 16 * scroll >= d.len() ==> hex_view(d, scroll).len() == 0,
        d.len() == 0 ==> hex_view(d, scroll) == "No data"@,
{
    let start = scroll * 16;
    let n = row_count(d.len() as int, start);
    if 16 * (scroll + k) < d.len() {
        assert(k < n);
        assert(start + 16 * (n - 1) < d.len());
        assert(start + 16 * k == 16 * (scroll + k));
        lemma_hex_rows(d, start, n, k);
        if k == 23 || 16 * (scroll + k + 1) >= d.len() {
            assert(n == k + 1);
        }
    }
}

// ---------------------------------------------------------------- what the lists show

/// The screen of an archive lists of its configuration files the one that is scrolled to and up
/// to 14 behind it; the last at least where there is one.
pub proof fn law_config_window_follows_the_scroll(scroll: nat, len: nat)
    ensures
        len > 0 ==> config_first(scroll, len) == (if scroll < len { scroll } else { (len - 1) as nat
        }),
        config_end(scroll, len) <= len,
        len > 0 ==> config_first(scroll, len) < config_end(scroll, len),
        config_end(scroll, len) - config_first(scroll, len) == 15 || config_end(scroll, len) == len,
        config_end(scroll, len) - config_first(scroll, len) <= 15,
        len == 0 ==> config_end(scroll, len) == 0,
{
}

/// The lines for some configuration files are those for each, in order.
pub proof fn law_config_rows_are_one_by_one(
    config: Seq<(Seq<char>, Seq<char>)>,
    from: int,
    mid: int,
    to: int,
)
    requires
        from <= mid <= to,
    ensures
        config_rows(config, from, to) == config_rows(config, from, mid) + config_rows(
            config,
            mid,
            to,
        ),
        config_rows(config, from, from + 1) == "  "@ + left_aligned(config[from].0, 35) + " "@
            + preview(config[from].1, 70) + "\n"@,
    decreases to - mid,
{
    assert(config_rows(config, from, from) =~= seq![]);
    assert(config_rows(config, from, from + 1) =~= "  "@ + left_aligned(config[from].0, 35) + " "@
        + preview(config[from].1, 70) + "\n"@);
    if mid < to {
        law_config_rows_are_one_by_one(config, from, mid, to - 1);
        let last = config_row(config[to - 1], 70);
        let a = config_rows(config, from, mid);
        let b = config_rows(config, mid, to - 1);
        assert(a + b + last + "\n"@ =~= a + (b + last + "\n"@));
    } else {
        assert(config_rows(config, from, mid) + config_rows(config, mid, mid) =~= config_rows(
            config,
            from,
            mid,
        ));
    }
}

/// The lines for the devices are one for each, in order, with a mark at the selected one alone.
pub proof fn law_device_rows_are_one_by_one(devices: Seq<VmaDeviceView>, n: int, selected: int)
    requires
        0 <= n < devices.len(),
    ensures
        device_rows(devices, 0, selected).len() == 0,
        device_rows(devices, n + 1, selected) == device_rows(devices, n, selected) + (if n
            == selected {
            "▶"@
        } else {
            " "@
        }) + " "@ + left_aligned(devices[n].name, 25) + " "@ + right_aligned(
            size_text(devices[n].size as nat),
            10,
        ) + " [decompressed]"@ + "\n"@,
{
    let mark = if n == selected {
        "▶"@
    } else {
        " "@
    };
    let d = devices[n];
    let front = device_rows(devices, n, selected);
    assert(device_rows(devices, n + 1, selected) =~= front + mark + " "@ + left_aligned(d.name, 25)
        + " "@ + right_aligned(size_text(d.size as nat), 10) + " [decompressed]"@ + "\n"@);
}

/// A long name is cut to its first 57 bytes and three dots; one of up to 60 bytes is shown whole.
pub proof fn law_long_names_are_cut(name: Seq<char>)
    requires
        name_fits(name),
    ensures
        encode_utf8(name).len() <= 60 ==> short_name(name) == name,
        encode_utf8(name).len() > 60 ==> exists|k: int|
            0 <= k <= name.len() && encode_utf8(name.take(k)) == encode_utf8(name).take(57)
                && short_name(name) == #[trigger] name.take(k) + "..."@,
{
    if encode_utf8(name).len() > 60 {
        let bytes = encode_utf8(name);
        let start = bytes.subrange(0, 57);
        vstd::utf8::encode_utf8_valid_utf8(name);
        vstd::utf8::encode_utf8_decode_utf8(name);
        vstd::utf8::valid_utf8_split(bytes, 57);
        vstd::utf8::decode_utf8_split(bytes, 57);
        vstd::utf8::decode_utf8_encode_utf8(start);
        let k = decode_utf8(start).len() as int;
        assert(name.take(k) =~= decode_utf8(start));
        assert(start =~= bytes.take(57));
    }
}

/// The lists show a line for each file, partition or entry, in order, and mark the one that is
/// selected. A file has its picture, its name and, unless it is a directory, its size; a
/// partition its name, its first sector, its size, its type and its file system; an entry its
/// picture and its name.
pub proof fn law_lists_have_a_line_for_each_item(s: AppState, names: Seq<Seq<char>>, i: int)
    requires
        0 <= i,
    ensures
        s.view_mode == ViewMode::FileList ==> (body(s, names) matches BodyView::List {
            lines,
            selected,
            ..
        } && lines.len() == s.items.len() && selected == s.list_selected && (i < s.items.len() ==> {
            let e = s.items[i];
            &&& e.is_dir ==> lines[i] == "📁"@ + " "@ + left_aligned(names[i], 40)
            &&& !e.is_dir ==> lines[i] == (if e.is_vma { "📦"@ } else { "📄"@ }) + " "@
                + left_aligned(names[i], 40) + "  "@ + size_text(e.size as nat)
        })),
        s.view_mode == ViewMode::PartitionTable ==> (body(s, names) matches BodyView::List {
            lines,
            selected,
            ..
        } && lines.len() == s.partitions.len() && selected == Some(s.partition_scroll) && (i
            < s.partitions.len() ==> {
            let p = s.partitions[i];
            lines[i] == p.name + "  "@ + right_aligned(decimal(p.start_sector as nat), 10) + "  "@
                + right_aligned(size_text((512 * p.num_sectors) as nat), 10) + "  "@
                + right_aligned(p.type_guid, 6) + "  "@ + p.fs_type
        })),
        s.view_mode == ViewMode::FsBrowse ==> (body(s, names) matches BodyView::List {
            title,
            lines,
            selected,
        } && title == " "@ + s.current_dir.1 + " ("@ + decimal(s.dirlist.len()) + ")"@
            && lines.len() == s.dirlist.len() && selected == s.dir_selected && (i < s.dirlist.len()
            ==> {
            let e = s.dirlist[i];
            lines[i] == (if e.file_type == 2 {
                "📁"@
            } else if e.file_type == 1 {
                "📄"@
            } else if e.file_type == 7 {
                "🔗"@
            } else {
                "❓"@
            }) + " "@ + short_name(e.name)
        })),
        s.view_mode == ViewMode::HexView ==> (body(s, names) matches BodyView::Text { text, .. }
            && text == hex_view(s.hex_data, s.hex_scroll as int)),
        s.view_mode == ViewMode::VmaInfo ==> (body(s, names) matches BodyView::Text { text, .. }
            && text == vma_info(s)),
{
    if s.view_mode == ViewMode::FileList && i < s.items.len() {
        let e = s.items[i];
        let row = file_row(e, names[i]);
        if e.is_dir {
            assert(row =~= "📁"@ + " "@ + left_aligned(names[i], 40));
        } else {
            assert(row =~= (if e.is_vma { "📦"@ } else { "📄"@ }) + " "@ + left_aligned(
                names[i],
                40,
            ) + "  "@ + size_text(e.size as nat));
        }
    }
}

/// A message stands in the title as long as there is one; otherwise the title tells what the
/// screen shows.
pub proof fn law_title_tells_the_screen(s: AppState, path: Seq<char>)
    ensures
        s.status_msg.len() > 0 ==> title(s, path) == "⏳ "@ + s.status_msg,
        s.status_msg.len() == 0 ==> {
            &&& s.view_mode == ViewMode::FileList ==> title(s, path) == "VZDump Browser — "@ + path
            &&& s.view_mode == ViewMode::VmaInfo ==> title(s, path) == "VMA: "@ + decimal(
                match s.vma {
                    Some(a) => a.devices.len(),
                    None => 0,
                },
            ) + " devices"@
            &&& s.view_mode == ViewMode::PartitionTable ==> (s.vma matches Some(a)
                ==> s.selected_device < a.devices.len() ==> title(s, path) == "Partitions — "@
                + a.devices[s.selected_device as int].name)
            &&& s.view_mode == ViewMode::FsBrowse ==> title(s, path) == "Filesystem — "@
                + s.current_dir.1
            &&& s.view_mode == ViewMode::HexView ==> title(s, path) == "Hex — "@ + s.hex_title
        },
{
}

/// The status line of the file list tells the path and the size of the selected file, and that of
/// a file system the directory, the kind and the number of blocks.
pub proof fn law_status_tells_the_selection(s: AppState, path: Seq<char>, dump: Seq<char>)
    ensures
        s.view_mode == ViewMode::FileList ==> (s.list_selected matches Some(i) ==> i < s.items.len()
            ==> status(s, path, dump) == path + " | "@ + (if s.items[i as int].is_dir {
            "DIR"@
        } else {
            size_text(s.items[i as int].size as nat)
        }) + " | Enter=Open h=Back ?=Help"@),
        s.view_mode == ViewMode::FileList && s.items.len() == 0 ==> status(s, path, dump) == path
            + " | ?=Help"@,
        s.view_mode == ViewMode::FsBrowse ==> status(s, path, dump) == s.current_dir.1 + " type="@
            + s.fs_type + " blocks="@ + decimal(s.total_blocks as nat)
            + " | Enter=open e=extract ?=Help"@,
{
}

/// The screen of an archive shows its time, how many devices and configuration files it has, and
/// their lines.
pub proof fn law_archive_screen_shows_its_parts(s: AppState)
    ensures
        s.vma matches Some(a) ==> exists|from: int, to: int|
            0 <= from <= to <= a.config.len() && vma_info(s) == "Created: "@ + a.ctime
                + "\nDevices: "@ + decimal(a.devices.len()) + "  Configs: "@ + decimal(
                a.config.len(),
            ) + "\n\n── Configs (j/k scroll) ──\n"@ + #[trigger] config_rows(a.config, from, to)
                + "\n── Devices (w/s switch) ──\n"@ + device_rows(
                a.devices,
                a.devices.len() as int,
                s.selected_device as int,
            ) + "\np/Enter: Analyze partitions\nx: Raw hex  w/s: Switch  t: Back\n"@ && from
                == config_first(s.config_scroll as nat, a.config.len()) && to == config_end(
                s.config_scroll as nat,
                a.config.len(),
            ),
{
    if let Some(a) = s.vma {
        let from = config_first(s.config_scroll as nat, a.config.len()) as int;
        let to = config_end(s.config_scroll as nat, a.config.len()) as int;
        law_config_window_follows_the_scroll(s.config_scroll as nat, a.config.len());
        let rows = config_rows(a.config, from, to);
    }
}

/// A screen says what its parts hold.
pub proof fn law_screen_is_what_its_parts_hold(r: Screen)
    ensures
        r@.title == r.title@,
        r@.status == r.status@,
        r@.help == r.help,
        r.body matches Body::List { title, lines, selected } ==> r@.body == (BodyView::List {
            title: title@,
            lines: texts(lines@),
            selected,
        }),
        r.body matches Body::Text { title, text } ==> r@.body == (BodyView::Text {
            title: title@,
            text: text@,
        }),
{
}

/// What can be shown: a name of up to 60 bytes always, and a longer one that can be cut behind
/// byte 57; a partition whose size is a 64-bit number; any screen but those that hold others.
pub proof fn law_ordinary_screens_can_be_shown(s: AppState, name: Seq<char>)
    ensures
        encode_utf8(name).len() <= 60 ==> name_fits(name),
        is_char_boundary(encode_utf8(name), 57) ==> name_fits(name),
        s.view_mode == ViewMode::FileList || s.view_mode == ViewMode::VmaInfo ==> screen_fits(s),
        s.view_mode == ViewMode::PartitionTable && (forall|i: int|
            0 <= i < s.partitions.len() ==> (#[trigger] s.partitions[i]).num_sectors * 512
                <= u64::MAX) ==> screen_fits(s),
        s.view_mode == ViewMode::HexView && s.hex_scroll * 16 + 384 <= usize::MAX ==> screen_fits(s),
        s.view_mode == ViewMode::FsBrowse && (forall|i: int|
            0 <= i < s.dirlist.len() ==> encode_utf8((#[trigger] s.dirlist[i]).name).len() <= 60
                || is_char_boundary(encode_utf8(s.dirlist[i].name), 57)) ==> screen_fits(s),
{
}

/// The status line tells which keys do what on the screens of an archive, its partitions and the
/// hex view.
pub proof fn law_status_tells_the_keys(s: AppState, path: Seq<char>, dump: Seq<char>)
    ensures
        s.view_mode == ViewMode::VmaInfo ==> status(s, path, dump)
            == "w/s=device  p/Enter=partitions  x=raw hex  t=back  ?=Help"@,
        s.view_mode == ViewMode::PartitionTable && s.dump_path is None ==> status(s, path, dump)
            == "j/k=select  Enter=hex  x=raw hex  h=back  ?=Help"@,
        s.view_mode == ViewMode::HexView ==> status(s, path, dump)
            == "j/k=scroll  PgUp/Dn=page  h=back  ?=Help"@,
{
}

/// The line for a configuration file has its name and so many characters of its contents.
pub proof fn law_config_row_has_name_and_contents(c: (Seq<char>, Seq<char>), n: nat)
    ensures
        config_row(c, n) == "  "@ + left_aligned(c.0, 35) + " "@ + preview(c.1, n),
{
}

/// The help has a line for each group of keys.
pub proof fn law_help_tells_the_keys()
    ensures
        help().len() == 12,
        help()[0] == "Help"@,
        help()[2] == "q/t/h   Quit / Back"@,
        help()[3] == "j/k     Navigate / Scroll"@,
        help()[4] == "Enter   Open / Select"@,
        help()[5] == "e       Extract file (fs browser)"@,
        help()[6] == "x       Raw hex view"@,
        help()[7] == "w/s     Switch device"@,
        help()[8] == "PgUp/Dn Page scroll"@,
{
}

} // verus!
