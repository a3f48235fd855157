//! What the keys do on each screen.
use vstd::prelude::*;
use std::path::PathBuf;
use crate::app::{app_sound, visit_back, visit_into, App, AppState, PendingOp, Visit};
use crate::text::{contains_text, has_part};
use crate::ui::ViewMode;

verus! {

/// A key.
#[derive(Clone, Copy, Debug, PartialEq, Eq, Structural)]
pub enum Key {
    Char(char),
    Up,
    Down,
    Left,
    Right,
    Enter,
    Backspace,
    PageUp,
    PageDown,
    Other,
}

/// What remains to be done for a key: what has to be read from a disk or written to it.
pub enum Action {
    /// Nothing.
    Nothing,
    /// Show the files of a directory.
    OpenDirectory(PathBuf),
    /// Show the files of the directory above.
    OpenParent,
    /// Open an entry of the directory that is browsed, which leads somewhere.
    Into { idx: usize, visit: Visit },
    /// Go back to the directory above in the file system that is browsed.
    Back { visit: Visit },
    /// Show an entry of the directory in hexadecimal.
    ShowFile { idx: usize },
    /// Extract an entry of the directory.
    ExtractFile { idx: usize },
}

// ---------------------------------------------------------------- groups of keys

pub open spec fn is_up(k: Key) -> bool {
    k == Key::Up || k == Key::Char('k')
}

pub open spec fn is_down(k: Key) -> bool {
    k == Key::Down || k == Key::Char('j')
}

/// The keys that open what is selected.
pub open spec fn is_open(k: Key) -> bool {
    k == Key::Enter || k == Key::Right || k == Key::Char('l')
}

/// The keys that lead back from the partitions and the hex view.
pub open spec fn is_back(k: Key) -> bool {
    k == Key::Char('q') || k == Key::Backspace || k == Key::Char('h') || k == Key::Char('t')
}

/// The last place of a list; zero where it is empty.
pub open spec fn last_place(len: nat) -> nat {
    if len == 0 {
        0
    } else {
        (len - 1) as nat
    }
}

/// A place one further up, where there is one.
pub open spec fn up(i: usize) -> usize {
    if i > 0 {
        (i - 1) as usize
    } else {
        i
    }
}

/// A place one further down, where `last` is the last one.
pub open spec fn down(i: usize, last: nat) -> usize {
    if i < last {
        (i + 1) as usize
    } else {
        i
    }
}

// ---------------------------------------------------------------- what keys do

/// What a key does to the file list.
pub open spec fn filelist_key(k: Key, s: AppState) -> (AppState, Action) {
    if k == Key::Char('q') {
        (AppState { quit: true, ..s }, Action::Nothing)
    } else if k == Key::Left || k == Key::Char('h') || k == Key::Backspace {
        (s, Action::OpenParent)
    } else {
        match s.list_selected {
            None => (s, Action::Nothing),
            Some(i) => if is_up(k) {
                (AppState { list_selected: Some(up(i)), ..s }, Action::Nothing)
            } else if is_down(k) {
                (
                    AppState { list_selected: Some(down(i, last_place(s.items.len()))), ..s },
                    Action::Nothing,
                )
            } else if is_open(k) && i < s.items.len() {
                let e = s.items[i as int];
                if e.is_dir {
                    (s, Action::OpenDirectory(e.path))
                } else if e.is_vma {
                    (
                        AppState { pending_op: Some(PendingOp::LoadVma(e.path)), ..s },
                        Action::Nothing,
                    )
                } else {
                    (s, Action::Nothing)
                }
            } else {
                (s, Action::Nothing)
            },
        }
    }
}

/// The number of configuration files.
pub open spec fn config_count(s: AppState) -> nat {
    match s.vma {
        Some(a) => a.config.len(),
        None => 0,
    }
}

/// The number of devices.
pub open spec fn device_count(s: AppState) -> nat {
    match s.vma {
        Some(a) => a.devices.len(),
        None => 0,
    }
}

/// What a key does to the archive.
pub open spec fn vma_key(k: Key, s: AppState) -> AppState {
    if k == Key::Char('q') || k == Key::Char('t') {
        AppState { view_mode: ViewMode::FileList, ..s }
    } else if is_up(k) {
        AppState { config_scroll: up(s.config_scroll), ..s }
    } else if is_down(k) {
        AppState { config_scroll: down(s.config_scroll, last_place(config_count(s))), ..s }
    } else if k == Key::Char('w') {
        AppState { selected_device: up(s.selected_device), ..s }
    } else if k == Key::Char('s') {
        AppState { selected_device: down(s.selected_device, last_place(device_count(s))), ..s }
    } else if k == Key::Enter || k == Key::Char('p') {
        AppState { pending_op: Some(PendingOp::LoadPartitions), ..s }
    } else if k == Key::Char('x') {
        AppState { pending_op: Some(PendingOp::LoadDeviceRaw), ..s }
    } else {
        s
    }
}

/// The file system of the partition can be browsed.
pub open spec fn can_browse(fs_type: Seq<char>) -> bool {
    contains_text(fs_type, "ext"@) || contains_text(fs_type, "ext4/xfs"@)
}

/// What a key does to the partitions.
pub open spec fn partitions_key(k: Key, s: AppState) -> AppState {
    if is_back(k) {
        AppState { view_mode: ViewMode::VmaInfo, ..s }
    } else if is_up(k) {
        AppState { partition_scroll: up(s.partition_scroll), ..s }
    } else if is_down(k) {
        AppState {
            partition_scroll: down(s.partition_scroll, last_place(s.partitions.len())),
            ..s
        }
    } else if is_open(k) {
        if s.partitions.len() == 0 {
            s
        } else if can_browse(s.partitions[s.partition_scroll as int].fs_type) {
            AppState { pending_op: Some(PendingOp::BrowsePartitionFs(s.partition_scroll)), ..s }
        } else {
            AppState { pending_op: Some(PendingOp::LoadPartitionHex(s.partition_scroll)), ..s }
        }
    } else if k == Key::Char('x') {
        AppState { pending_op: Some(PendingOp::LoadDeviceRaw), ..s }
    } else {
        s
    }
}

/// What a key does to the hex view.
pub open spec fn hex_key(k: Key, s: AppState) -> AppState {
    if is_back(k) {
        AppState {
            view_mode: if s.partitions.len() > 0 {
                ViewMode::PartitionTable
            } else if s.vma is Some {
                ViewMode::VmaInfo
            } else {
                ViewMode::FileList
            },
            ..s
        }
    } else if is_up(k) {
        AppState { hex_scroll: up(s.hex_scroll), ..s }
    } else if is_down(k) {
        AppState { hex_scroll: down(s.hex_scroll, last_place(s.hex_data.len() / 16)), ..s }
    } else if k == Key::PageUp {
        AppState {
            hex_scroll: if s.hex_scroll < 20 {
                0
            } else {
                (s.hex_scroll - 20) as usize
            },
            ..s
        }
    } else if k == Key::PageDown {
        AppState { hex_scroll: (s.hex_scroll + 20) as usize, ..s }
    } else {
        s
    }
}

/// The place that is selected in the directory; the first where none is.
pub open spec fn dir_place(s: AppState) -> usize {
    match s.dir_selected {
        Some(i) => i,
        None => 0,
    }
}

/// What a key does to the file system browser.
pub open spec fn fsbrowse_key(k: Key, s: AppState) -> (AppState, Action) {
    if k == Key::Char('q') || k == Key::Char('t') {
        (AppState { view_mode: ViewMode::PartitionTable, ..s }, Action::Nothing)
    } else if k == Key::Backspace || k == Key::Char('h') {
        (s, Action::Back { visit: visit_back(s) })
    } else if is_up(k) {
        (
            if dir_place(s) > 0 {
                AppState { dir_selected: Some(up(dir_place(s))), ..s }
            } else {
                s
            },
            Action::Nothing,
        )
    } else if is_down(k) {
        (
            if dir_place(s) < last_place(s.dirlist.len()) {
                AppState { dir_selected: Some(down(dir_place(s), last_place(s.dirlist.len()))), ..s }
            } else {
                s
            },
            Action::Nothing,
        )
    } else {
        match s.dir_selected {
            None => (s, Action::Nothing),
            Some(i) => {
                let e = s.dirlist[i as int];
                if is_open(k) && e.file_type == 2 {
                    (s, Action::Into { idx: i, visit: visit_into(s, i as int) })
                } else if is_open(k) && e.file_type == 1 {
                    (s, Action::ShowFile { idx: i })
                } else if k == Key::Char('e') && e.file_type == 1 {
                    (s, Action::ExtractFile { idx: i })
                } else {
                    (s, Action::Nothing)
                }
            },
        }
    }
}

/// The key looks at the entry that is selected in the directory.
pub open spec fn needs_entry(k: Key) -> bool {
    is_open(k) || k == Key::Char('e')
}

/// The screen has what the key looks at: a partition where there are some, an entry where one
/// is selected, and room to scroll.
pub open spec fn key_fits(k: Key, s: AppState) -> bool {
    match s.view_mode {
        ViewMode::PartitionTable => is_open(k) && s.partitions.len() > 0 ==> s.partition_scroll
            < s.partitions.len(),
        ViewMode::HexView => k == Key::PageDown ==> s.hex_scroll + 20 <= usize::MAX,
        ViewMode::FsBrowse => needs_entry(k) ==> (s.dir_selected matches Some(i) ==> i
            < s.dirlist.len()),
        _ => true,
    }
}

/// What a key does.
pub open spec fn key_pressed(k: Key, s: AppState) -> (AppState, Action) {
    if k == Key::Char('?') {
        (AppState { show_help: !s.show_help, ..s }, Action::Nothing)
    } else {
        match s.view_mode {
            ViewMode::FileList => filelist_key(k, s),
            ViewMode::VmaInfo => (vma_key(k, s), Action::Nothing),
            ViewMode::PartitionTable => (partitions_key(k, s), Action::Nothing),
            ViewMode::HexView => (hex_key(k, s), Action::Nothing),
            ViewMode::FsBrowse => fsbrowse_key(k, s),
        }
    }
}

// ---------------------------------------------------------------- handlers

fn move_down(i: usize, len: usize) -> (r: usize)
    ensures
        r == down(i, last_place(len as nat)),
{
    if len > 0 && i < len - 1 {
        i + 1
    } else {
        i
    }
}

fn move_up(i: usize) -> (r: usize)
    ensures
        r == up(i),
{
    if i > 0 {
        i - 1
    } else {
        i
    }
}

/// Handles a key on the file list.
pub fn handle_filelist(k: Key, app: &mut App) -> (r: Action)
    ensures
        (final(app)@, r) == filelist_key(k, old(app)@),
{
    match k {
        Key::Char('q') => {
            app.quit = true;
        },
        Key::Up | Key::Char('k') => {
            if let Some(i) = app.list_state {
                app.list_state = Some(move_up(i));
            }
        },
        Key::Down | Key::Char('j') => {
            if let Some(i) = app.list_state {
                app.list_state = Some(move_down(i, app.items.len()));
            }
        },
        Key::Enter | Key::Right | Key::Char('l') => {
            if let Some(i) = app.list_state {
                if i < app.items.len() {
                    let path = app.items[i].path.clone();
                    if app.items[i].is_dir {
                        return Action::OpenDirectory(path);
                    } else if app.items[i].is_vma {
                        app.pending_op = Some(PendingOp::LoadVma(path));
                    }
                }
            }
        },
        Key::Left | Key::Char('h') | Key::Backspace => {
            return Action::OpenParent;
        },
        _ => {},
    }
    Action::Nothing
}

/// Handles a key on the archive.
pub fn handle_vma(k: Key, app: &mut App)
    ensures
        final(app)@ == vma_key(k, old(app)@),
{
    match k {
        Key::Char('q') | Key::Char('t') => {
            app.view_mode = ViewMode::FileList;
        },
        Key::Up | Key::Char('k') => {
            app.config_scroll = move_up(app.config_scroll);
        },
        Key::Down | Key::Char('j') => {
            let count: usize = match &app.vma {
                Some(v) => v.config_list().len(),
                None => 0,
            };
            app.config_scroll = move_down(app.config_scroll, count);
        },
        Key::Char('w') => {
            app.selected_device = move_up(app.selected_device);
            app.clear_device();
        },
        Key::Char('s') => {
            let count: usize = match &app.vma {
                Some(v) => v.device_list().len(),
                None => 0,
            };
            app.selected_device = move_down(app.selected_device, count);
            app.clear_device();
        },
        Key::Enter | Key::Char('p') => {
            app.pending_op = Some(PendingOp::LoadPartitions);
        },
        Key::Char('x') => {
            app.pending_op = Some(PendingOp::LoadDeviceRaw);
        },
        _ => {},
    }
}

/// Handles a key on the partitions.
pub fn handle_partitions(k: Key, app: &mut App)
    requires
        is_open(k) && old(app)@.partitions.len() > 0 ==> old(app)@.partition_scroll
            < old(app)@.partitions.len(),
    ensures
        final(app)@ == partitions_key(k, old(app)@),
{
    match k {
        Key::Char('q') | Key::Backspace | Key::Char('h') | Key::Char('t') => {
            app.view_mode = ViewMode::VmaInfo;
        },
        Key::Up | Key::Char('k') => {
            app.partition_scroll = move_up(app.partition_scroll);
        },
        Key::Down | Key::Char('j') => {
            app.partition_scroll = move_down(app.partition_scroll, app.partitions.len());
        },
        Key::Enter | Key::Right | Key::Char('l') => {
            if app.partitions.len() > 0 {
                let p = &app.partitions[app.partition_scroll];
                assert(p@ == old(app)@.partitions[app.partition_scroll as int]);
                if has_part(p.fs_type.as_str(), "ext") || has_part(p.fs_type.as_str(), "ext4/xfs") {
                    app.pending_op = Some(PendingOp::BrowsePartitionFs(app.partition_scroll));
                } else {
                    app.pending_op = Some(PendingOp::LoadPartitionHex(app.partition_scroll));
                }
            }
        },
        Key::Char('x') => {
            app.pending_op = Some(PendingOp::LoadDeviceRaw);
        },
        _ => {},
    }
}

/// Handles a key on the hex view.
pub fn handle_hex(k: Key, app: &mut App)
    requires
        k == Key::PageDown ==> old(app)@.hex_scroll + 20 <= usize::MAX,
    ensures
        final(app)@ == hex_key(k, old(app)@),
{
    match k {
        Key::Char('q') | Key::Backspace | Key::Char('h') | Key::Char('t') => {
            app.view_mode = if app.partitions.len() > 0 {
                ViewMode::PartitionTable
            } else if app.vma.is_some() {
                ViewMode::VmaInfo
            } else {
                ViewMode::FileList
            };
        },
        Key::Up | Key::Char('k') => {
            app.hex_scroll = move_up(app.hex_scroll);
        },
        Key::Down | Key::Char('j') => {
            app.hex_scroll = move_down(app.hex_scroll, app.hex_data.len() / 16);
        },
        Key::PageUp => {
            app.hex_scroll = if app.hex_scroll < 20 {
                0
            } else {
                app.hex_scroll - 20
            };
        },
        Key::PageDown => {
            app.hex_scroll = app.hex_scroll + 20;
        },
        _ => {},
    }
}

/// Handles a key on the file system browser.
pub fn handle_fsbrowse(k: Key, app: &mut App) -> (r: Action)
    requires
        needs_entry(k) ==> (old(app)@.dir_selected matches Some(i) ==> i < old(app)@.dirlist.len()),
    ensures
        (final(app)@, r) == fsbrowse_key(k, old(app)@),
{
    match k {
        Key::Char('q') | Key::Char('t') => {
            app.view_mode = ViewMode::PartitionTable;
        },
        Key::Backspace | Key::Char('h') => {
            return Action::Back { visit: app.plan_navigate_back() };
        },
        Key::Up | Key::Char('k') => {
            let i: usize = match app.ext4_dirlist_state {
                Some(i) => i,
                None => 0,
            };
            if i > 0 {
                app.ext4_dirlist_state = Some(i - 1);
            }
        },
        Key::Down | Key::Char('j') => {
            let i: usize = match app.ext4_dirlist_state {
                Some(i) => i,
                None => 0,
            };
            if app.ext4_dirlist.len() > 0 && i < app.ext4_dirlist.len() - 1 {
                app.ext4_dirlist_state = Some(i + 1);
            }
        },
        Key::Enter | Key::Right | Key::Char('l') => {
            if let Some(i) = app.ext4_dirlist_state {
                let file_type = app.ext4_dirlist[i].file_type;
                assert(file_type == old(app)@.dirlist[i as int].file_type);
                if file_type == 2 {
                    return Action::Into { idx: i, visit: app.plan_navigate_into(i) };
                } else if file_type == 1 {
                    return Action::ShowFile { idx: i };
                }
            }
        },
        Key::Char('e') => {
            if let Some(i) = app.ext4_dirlist_state {
                assert(app.ext4_dirlist@[i as int]@ == old(app)@.dirlist[i as int]);
                if app.ext4_dirlist[i].file_type == 1 {
                    return Action::ExtractFile { idx: i };
                }
            }
        },
        _ => {},
    }
    Action::Nothing
}

/// Whether the screen has what a key looks at.
pub fn can_handle_key(k: Key, app: &App) -> (r: bool)
    ensures
        r == key_fits(k, app@),
{
    let opens = match k {
        Key::Enter | Key::Right | Key::Char('l') => true,
        _ => false,
    };
    match app.view_mode {
        ViewMode::PartitionTable => {
            !opens || app.partitions.len() == 0 || app.partition_scroll < app.partitions.len()
        },
        ViewMode::HexView => k != Key::PageDown || app.hex_scroll <= usize::MAX - 20,
        ViewMode::FsBrowse => match app.ext4_dirlist_state {
            Some(i) => !(opens || k == Key::Char('e')) || i < app.ext4_dirlist.len(),
            None => true,
        },
        _ => true,
    }
}

/// Handles a key.
pub fn handle_key(k: Key, app: &mut App) -> (r: Action)
    requires
        key_fits(k, old(app)@),
    ensures
        (final(app)@, r) == key_pressed(k, old(app)@),
{
    if k == Key::Char('?') {
        app.show_help = !app.show_help;
        return Action::Nothing;
    }
    match app.view_mode {
        ViewMode::FileList => handle_filelist(k, app),
        ViewMode::VmaInfo => {
            handle_vma(k, app);
            Action::Nothing
        },
        ViewMode::PartitionTable => {
            handle_partitions(k, app);
            Action::Nothing
        },
        ViewMode::HexView => {
            handle_hex(k, app);
            Action::Nothing
        },
        ViewMode::FsBrowse => handle_fsbrowse(k, app),
    }
}

/// Every key keeps what always holds.
pub proof fn law_keys_keep_sound(k: Key, s: AppState)
    requires
        app_sound(s),
        key_fits(k, s),
    ensures
        app_sound(key_pressed(k, s).0),
{
}

/// A key that opens something finds it, as long as the directory is not empty and the hex view
/// not at the end of all numbers.
pub proof fn law_keys_fit(k: Key, s: AppState)
    requires
        app_sound(s),
        s.view_mode == ViewMode::FsBrowse ==> s.dirlist.len() > 0,
        s.hex_scroll + 20 <= usize::MAX,
    ensures
        key_fits(k, s),
{
}

/// Moving down and up again leads back, as does moving up and down again; at the ends of a list
/// nothing moves.
pub proof fn law_up_undoes_down(i: usize, last: nat)
    requires
        i <= last <= usize::MAX,
    ensures
        i < last ==> up(down(i, last)) == i,
        i > 0 ==> down(up(i), last) == i,
        down(i, last) <= last,
        up(0) == 0,
        down(last as usize, last) == last,
{
}

/// The help comes and goes with its key, and with no other.
pub proof fn law_help_toggles(k: Key, s: AppState)
    ensures
        key_pressed(k, s).0.show_help == (s.show_help != (k == Key::Char('?'))),
        key_pressed(Key::Char('?'), key_pressed(Key::Char('?'), s).0).0 == s,
{
}

/// Only a key on the file list ends the browser.
pub proof fn law_only_q_quits(k: Key, s: AppState)
    ensures
        key_pressed(k, s).0.quit == (s.quit || (s.view_mode == ViewMode::FileList && k == Key::Char(
            'q',
        ))),
{
}

// ---------------------------------------------------------------- what keys do on a screen

/// One further down in a list of `len`, but not past the last.
pub open spec fn one_down(i: int, len: int) -> int {
    if i + 1 < len {
        i + 1
    } else {
        i
    }
}

/// One further up, but not past the first.
pub open spec fn one_up(i: int) -> int {
    if i > 0 {
        i - 1
    } else {
        i
    }
}

/// The keys for down move the selection of the screen one further, and nothing else: in the file
/// list, the configuration files, the partitions, the rows of the hex view, and the directory.
pub proof fn law_down_moves_one_further(k: Key, s: AppState)
    requires
        k == Key::Down || k == Key::Char('j'),
    ensures
        ({
            let t = key_pressed(k, s).0;
            &&& key_pressed(k, s).1 is Nothing
            &&& s.view_mode == ViewMode::FileList ==> t == (AppState {
                list_selected: match s.list_selected {
                    Some(i) => Some(one_down(i as int, s.items.len() as int) as usize),
                    None => None,
                },
                ..s
            })
            &&& s.view_mode == ViewMode::VmaInfo ==> t == (AppState {
                config_scroll: one_down(
                    s.config_scroll as int,
                    match s.vma {
                        Some(a) => a.config.len() as int,
                        None => 0,
                    },
                ) as usize,
                ..s
            })
            &&& s.view_mode == ViewMode::PartitionTable ==> t == (AppState {
                partition_scroll: one_down(
                    s.partition_scroll as int,
                    s.partitions.len() as int,
                ) as usize,
                ..s
            })
            &&& s.view_mode == ViewMode::HexView ==> t == (AppState {
                hex_scroll: one_down(s.hex_scroll as int, s.hex_data.len() as int / 16) as usize,
                ..s
            })
            &&& s.view_mode == ViewMode::FsBrowse ==> (s.dir_selected matches Some(i) ==> t == (
            AppState {
                dir_selected: Some(one_down(i as int, s.dirlist.len() as int) as usize),
                ..s
            }))
        }),
{
}

/// The keys for up move the selection of the screen one back, and nothing else.
pub proof fn law_up_moves_one_back(k: Key, s: AppState)
    requires
        k == Key::Up || k == Key::Char('k'),
    ensures
        ({
            let t = key_pressed(k, s).0;
            &&& key_pressed(k, s).1 is Nothing
            &&& s.view_mode == ViewMode::FileList ==> t == (AppState {
                list_selected: match s.list_selected {
                    Some(i) => Some(one_up(i as int) as usize),
                    None => None,
                },
                ..s
            })
            &&& s.view_mode == ViewMode::VmaInfo ==> t == (AppState {
                config_scroll: one_up(s.config_scroll as int) as usize,
                ..s
            })
            &&& s.view_mode == ViewMode::PartitionTable ==> t == (AppState {
                partition_scroll: one_up(s.partition_scroll as int) as usize,
                ..s
            })
            &&& s.view_mode == ViewMode::HexView ==> t == (AppState {
                hex_scroll: one_up(s.hex_scroll as int) as usize,
                ..s
            })
            &&& s.view_mode == ViewMode::FsBrowse ==> (s.dir_selected matches Some(i) ==> t == (
            AppState { dir_selected: Some(one_up(i as int) as usize), ..s }))
        }),
{
}

/// The keys for opening open what is selected: a directory or a backup of the file list, the
/// partitions of an archive, the file system of a partition where it can be browsed and its bytes
/// otherwise, and a directory or a file of a file system.
pub proof fn law_open_opens_the_selection(k: Key, s: AppState)
    requires
        k == Key::Enter || k == Key::Right || k == Key::Char('l'),
    ensures
        ({
            let (t, a) = key_pressed(k, s);
            &&& s.view_mode == ViewMode::FileList ==> (s.list_selected matches Some(i) ==> i
                < s.items.len() ==> {
                let e = s.items[i as int];
                &&& e.is_dir ==> a == Action::OpenDirectory(e.path) && t == s
                &&& !e.is_dir && e.is_vma ==> a is Nothing && t == (AppState {
                    pending_op: Some(PendingOp::LoadVma(e.path)),
                    ..s
                })
                &&& !e.is_dir && !e.is_vma ==> a is Nothing && t == s
            })
            &&& s.view_mode == ViewMode::VmaInfo && k == Key::Enter ==> t == (AppState {
                pending_op: Some(PendingOp::LoadPartitions),
                ..s
            })
            &&& s.view_mode == ViewMode::PartitionTable && s.partitions.len() == 0 ==> t == s
            &&& s.view_mode == ViewMode::PartitionTable && s.partitions.len() > 0 ==> {
                let fs = s.partitions[s.partition_scroll as int].fs_type;
                &&& t == (AppState { pending_op: t.pending_op, ..s })
                &&& contains_text(fs, "ext"@) ==> t.pending_op == Some(
                    PendingOp::BrowsePartitionFs(s.partition_scroll),
                )
                &&& !contains_text(fs, "ext"@) ==> t.pending_op == Some(
                    PendingOp::LoadPartitionHex(s.partition_scroll),
                )
            }
            &&& s.view_mode == ViewMode::FsBrowse ==> (s.dir_selected matches Some(i) ==> {
                let e = s.dirlist[i as int];
                &&& t == s
                &&& e.file_type == 2 ==> a == (Action::Into {
                    idx: i,
                    visit: visit_into(s, i as int),
                })
                &&& e.file_type == 1 ==> a == (Action::ShowFile { idx: i })
                &&& e.file_type != 1 && e.file_type != 2 ==> a is Nothing
            })
        }),
{
    reveal_strlit("ext");
    reveal_strlit("ext4/xfs");
    if s.view_mode == ViewMode::PartitionTable && s.partitions.len() > 0 {
        let fs = s.partitions[s.partition_scroll as int].fs_type;
        if contains_text(fs, "ext4/xfs"@) {
            let i = choose|i: int| crate::text::occurs_at(fs, "ext4/xfs"@, i);
            assert(fs.subrange(i, i + 3) =~= fs.subrange(i, i + 8).take(3));
            assert("ext4/xfs"@.take(3) =~= "ext"@);
            assert(crate::text::occurs_at(fs, "ext"@, i));
        }
    }
}

/// The keys for going back lead to the screen before: from the archive to the file list, from the
/// partitions to the archive, from a file system to the partitions, and from the hex view to the
/// partitions, the archive or the file list, the first of these that there is.
pub proof fn law_back_leads_to_the_screen_before(k: Key, s: AppState)
    requires
        k == Key::Char('q') || k == Key::Char('t'),
    ensures
        ({
            let (t, a) = key_pressed(k, s);
            &&& a is Nothing
            &&& s.view_mode == ViewMode::VmaInfo ==> t == (AppState {
                view_mode: ViewMode::FileList,
                ..s
            })
            &&& s.view_mode == ViewMode::PartitionTable ==> t == (AppState {
                view_mode: ViewMode::VmaInfo,
                ..s
            })
            &&& s.view_mode == ViewMode::FsBrowse ==> t == (AppState {
                view_mode: ViewMode::PartitionTable,
                ..s
            })
            &&& s.view_mode == ViewMode::HexView && s.partitions.len() > 0 ==> t == (AppState {
                view_mode: ViewMode::PartitionTable,
                ..s
            })
            &&& s.view_mode == ViewMode::HexView && s.partitions.len() == 0 && s.vma is Some
                ==> t == (AppState { view_mode: ViewMode::VmaInfo, ..s })
            &&& s.view_mode == ViewMode::HexView && s.partitions.len() == 0 && s.vma is None
                ==> t == (AppState { view_mode: ViewMode::FileList, ..s })
            &&& s.view_mode == ViewMode::FileList && k == Key::Char('q') ==> t == (AppState {
                quit: true,
                ..s
            })
        }),
{
}

/// Backspace and "h" lead up in the file list, back from the partitions and the hex view like the
/// other keys for it, and to the directory above in a file system.
pub proof fn law_backspace_leads_up(k: Key, s: AppState)
    requires
        k == Key::Backspace || k == Key::Char('h'),
    ensures
        s.view_mode == ViewMode::FileList ==> key_pressed(k, s) == (s, Action::OpenParent),
        s.view_mode == ViewMode::FsBrowse ==> key_pressed(k, s) == (
            s,
            Action::Back { visit: visit_back(s) },
        ),
        s.view_mode == ViewMode::PartitionTable || s.view_mode == ViewMode::HexView ==> key_pressed(
            k,
            s,
        ) == key_pressed(Key::Char('q'), s),
        s.view_mode == ViewMode::VmaInfo ==> key_pressed(k, s).0 == s,
{
}

/// On the screen of an archive "w" and "s" select the device before and behind, "p" asks for the
/// partitions, and "x" for the bytes of the device, as on the screen of the partitions; "e"
/// extracts a regular file; the keys for pages move the hex view by 20 rows.
pub proof fn law_other_keys_do_their_work(s: AppState)
    ensures
        s.view_mode == ViewMode::VmaInfo ==> {
            let n = match s.vma {
                Some(a) => a.devices.len() as int,
                None => 0,
            };
            &&& key_pressed(Key::Char('w'), s).0 == (AppState {
                selected_device: one_up(s.selected_device as int) as usize,
                ..s
            })
            &&& key_pressed(Key::Char('s'), s).0 == (AppState {
                selected_device: one_down(s.selected_device as int, n) as usize,
                ..s
            })
            &&& key_pressed(Key::Char('p'), s).0 == (AppState {
                pending_op: Some(PendingOp::LoadPartitions),
                ..s
            })
        },
        s.view_mode == ViewMode::VmaInfo || s.view_mode == ViewMode::PartitionTable ==> key_pressed(
            Key::Char('x'),
            s,
        ).0 == (AppState { pending_op: Some(PendingOp::LoadDeviceRaw), ..s }),
        s.view_mode == ViewMode::FsBrowse ==> (s.dir_selected matches Some(i) ==> {
            let e = s.dirlist[i as int];
            &&& key_pressed(Key::Char('e'), s).0 == s
            &&& e.file_type == 1 ==> key_pressed(Key::Char('e'), s).1 == (Action::ExtractFile {
                idx: i,
            })
            &&& e.file_type != 1 ==> key_pressed(Key::Char('e'), s).1 is Nothing
        }),
        s.view_mode == ViewMode::HexView ==> {
            &&& s.hex_scroll + 20 <= usize::MAX ==> key_pressed(Key::PageDown, s).0 == (AppState {
                hex_scroll: (s.hex_scroll + 20) as usize,
                ..s
            })
            &&& key_pressed(Key::PageUp, s).0 == (AppState {
                hex_scroll: (if s.hex_scroll >= 20 { s.hex_scroll - 20 } else { 0 }) as usize,
                ..s
            })
        },
{
}

/// Keys that have no work on a screen do nothing there.
pub proof fn law_idle_keys_do_nothing(k: Key, s: AppState)
    requires
        k != Key::Char('?'),
        k != Key::Up && k != Key::Char('k') && k != Key::Down && k != Key::Char('j'),
    ensures
        s.view_mode == ViewMode::FileList && k != Key::Char('q') && k != Key::Left && k
            != Key::Char('h') && k != Key::Backspace && k != Key::Enter && k != Key::Right && k
            != Key::Char('l') ==> key_pressed(k, s) == (s, Action::Nothing),
        s.view_mode == ViewMode::VmaInfo && k != Key::Char('q') && k != Key::Char('t') && k
            != Key::Char('w') && k != Key::Char('s') && k != Key::Enter && k != Key::Char('p') && k
            != Key::Char('x') ==> key_pressed(k, s) == (s, Action::Nothing),
        s.view_mode == ViewMode::PartitionTable && k != Key::Char('q') && k != Key::Char('t') && k
            != Key::Backspace && k != Key::Char('h') && k != Key::Enter && k != Key::Right && k
            != Key::Char('l') && k != Key::Char('x') ==> key_pressed(k, s) == (s, Action::Nothing),
        s.view_mode == ViewMode::HexView && k != Key::Char('q') && k != Key::Char('t') && k
            != Key::Backspace && k != Key::Char('h') && k != Key::PageUp && k != Key::PageDown
            ==> key_pressed(k, s) == (s, Action::Nothing),
        s.view_mode == ViewMode::FsBrowse && k != Key::Char('q') && k != Key::Char('t') && k
            != Key::Backspace && k != Key::Char('h') && k != Key::Enter && k != Key::Right && k
            != Key::Char('l') && k != Key::Char('e') ==> key_pressed(k, s) == (s, Action::Nothing),
{
}

/// "Left" leads up in the file list like Backspace; without a selection nothing is opened, and in
/// a directory the keys for up and down start from the first entry.
pub proof fn law_keys_without_a_selection(k: Key, s: AppState)
    ensures
        s.view_mode == ViewMode::FileList ==> key_pressed(Key::Left, s) == (s, Action::OpenParent),
        s.view_mode == ViewMode::FileList && s.list_selected is None && (k == Key::Enter || k
            == Key::Right || k == Key::Char('l')) ==> key_pressed(k, s) == (s, Action::Nothing),
        s.view_mode == ViewMode::FsBrowse && s.dir_selected is None && (k == Key::Enter || k
            == Key::Right || k == Key::Char('l') || k == Key::Char('e')) ==> key_pressed(k, s) == (
            s,
            Action::Nothing,
        ),
        s.view_mode == ViewMode::FsBrowse && s.dir_selected is None && (k == Key::Up || k
            == Key::Char('k')) ==> key_pressed(k, s).0 == s,
        s.view_mode == ViewMode::FsBrowse && s.dir_selected is None && (k == Key::Down || k
            == Key::Char('j')) ==> key_pressed(k, s).0 == (if s.dirlist.len() > 1 {
            AppState { dir_selected: Some(1usize), ..s }
        } else {
            s
        }),
{
}

/// A key can be taken wherever what it looks at is there: always on the file list and the screen
/// of an archive.
pub proof fn law_keys_can_be_taken(k: Key, s: AppState)
    ensures
        s.view_mode == ViewMode::FileList || s.view_mode == ViewMode::VmaInfo ==> key_fits(k, s),
        s.view_mode == ViewMode::PartitionTable && (s.partitions.len() == 0 || s.partition_scroll
            < s.partitions.len()) ==> key_fits(k, s),
        s.view_mode == ViewMode::HexView && s.hex_scroll + 20 <= usize::MAX ==> key_fits(k, s),
        s.view_mode == ViewMode::FsBrowse && (s.dir_selected is None || (s.dir_selected matches Some(
            i,
        ) && i < s.dirlist.len())) ==> key_fits(k, s),
{
}

} // verus!
