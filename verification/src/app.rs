//! The state of the browser, and what each operation makes of it.
//!
//! Where an operation has to read something, a method tells what; the operation itself takes
//! what came of it.
use vstd::prelude::*;
use std::path::PathBuf;
use std::time::SystemTime;
use crate::ext4::{listed, DirEntry, DirEntryView};
use crate::outside::{text_from_utf8_lossy, utf8_lossy};
use crate::partition::{
    parse_partition_table, partition_table, shown, table_fits, Partition, PartitionReader,
    PartitionView,
};
use crate::probe::{
    add_raw, all_probed, detect_raw_fs, probe_partitions, raw_fs, read_len_for,
    table_read_len, with_raw,
};
use crate::reader::VmaDeviceReader;
use crate::sorting::{bytes_before, is_before, ranked, stable_sort, Ranked};
use crate::text::{
    concat_texts, decimal, ends_with, has_ending, push_decimal, same_text,
};
use crate::ui::ViewMode;
use crate::vma::{
    device_reader, vma_message, ArchiveView, VmaArchive, VmaDeviceView, VmaError,
};

pub use crate::size::format_size;

verus! {

// ---------------------------------------------------------------- types

/// A file or directory of the file list.
pub struct FileEntry {
    pub path: PathBuf,
    pub is_dir: bool,
    pub size: u64,
    pub modified: SystemTime,
    pub is_vma: bool,
}

impl Clone for FileEntry {
    fn clone(&self) -> (r: Self)
        ensures
            r == *self,
    {
        FileEntry {
            path: self.path.clone(),
            is_dir: self.is_dir,
            size: self.size,
            modified: self.modified,
            is_vma: self.is_vma,
        }
    }
}

/// A file or directory as the file system lists it. The name is the last part of the path, in
/// bytes.
pub struct FoundFile {
    pub path: PathBuf,
    pub name: Vec<u8>,
    pub is_dir: bool,
    pub size: u64,
    pub modified: SystemTime,
    pub is_vma: bool,
}

impl FoundFile {
    /// A file or directory of this name, which tells whether it is a backup.
    pub fn new(
        path: PathBuf,
        name: Vec<u8>,
        is_dir: bool,
        size: u64,
        modified: SystemTime,
    ) -> (r: Self)
        ensures
            r == (FoundFile {
                path,
                name,
                is_dir,
                size,
                modified,
                is_vma: is_backup(utf8_lossy(name@)),
            }),
    {
        let is_vma = is_backup_name(text_from_utf8_lossy(name.as_slice()).as_str());
        FoundFile { path, name, is_dir, size, modified, is_vma }
    }
}

/// An operation that waits until the screen was drawn.
#[derive(Clone, Debug)]
pub enum PendingOp {
    LoadVma(PathBuf),
    LoadPartitions,
    LoadDeviceRaw,
    LoadPartitionHex(usize),
    BrowsePartitionFs(usize),
}

/// Why an operation is not possible.
#[derive(Clone, Copy, Debug, PartialEq, Eq, Structural)]
pub enum AppError {
    /// No archive is open.
    NoVma,
    /// The archive has no such device.
    Device(VmaError),
    /// The entry is not a regular file.
    NotRegularFile,
}

/// The message for an error.
pub open spec fn app_message(e: AppError) -> Seq<char> {
    match e {
        AppError::NoVma => "no VMA"@,
        AppError::Device(d) => vma_message(d, ""@),
        AppError::NotRegularFile => "Not a regular file"@,
    }
}

impl AppError {
    /// The message for the error.
    pub fn message(&self) -> (r: String)
        ensures
            r@ == app_message(*self),
    {
        match self {
            AppError::NoVma => "no VMA".to_owned(),
            AppError::Device(d) => d.message(""),
            AppError::NotRegularFile => "Not a regular file".to_owned(),
        }
    }
}

/// Why an entry was not extracted.
pub enum ExtractError<E> {
    /// It is none that can be extracted.
    Refused(AppError),
    /// Reading or writing it failed.
    Failed(E),
}

/// What was read to show the partitions of a device: its first bytes, and a probe for each partition that has to be looked at further on.
pub struct PartitionRead {
    pub data: Vec<u8>,
    pub probes: Vec<Option<Vec<u8>>>,
}

/// What was read to browse a file system.
pub struct FsRead {
    pub fs_type: String,
    pub total_blocks: u64,
    pub entries: Vec<DirEntry>,
}

/// Where opening an entry of a directory leads.
#[derive(Clone, Copy, Debug, PartialEq, Eq, Structural)]
pub enum Visit {
    /// Nowhere.
    Stay,
    /// To the directory above, which has this inode.
    Back { ino: u32 },
    /// Into the directory with this inode.
    Into { ino: u32 },
}

/// The state of the browser.
pub struct App {
    // file list
    pub items: Vec<FileEntry>,
    pub list_state: Option<usize>,
    pub current_path: PathBuf,
    // view state
    pub view_mode: ViewMode,
    pub quit: bool,
    pub show_help: bool,
    pub status_msg: String,
    // the operation to run after the next drawing
    pub pending_op: Option<PendingOp>,
    // archive
    pub vma: Option<VmaArchive>,
    pub selected_device: usize,
    pub config_scroll: usize,
    // partition table
    pub partitions: Vec<Partition>,
    pub partition_scroll: usize,
    // file system browser
    pub ext4_partition_offset: u64,
    pub ext4_partition_length: u64,
    pub ext4_dirlist: Vec<DirEntry>,
    pub ext4_dirlist_state: Option<usize>,
    pub ext4_current_dir: (u32, String),
    pub ext4_breadcrumbs: Vec<(u32, String)>,
    pub ext4_fs_type: String,
    pub ext4_total_blocks: u64,
    // hex view
    pub hex_data: Vec<u8>,
    pub hex_scroll: usize,
    pub hex_title: String,
    pub dump_path: Option<PathBuf>,
}

/// The state of the browser.
pub struct AppState {
    pub items: Seq<FileEntry>,
    pub list_selected: Option<usize>,
    pub current_path: PathBuf,
    pub view_mode: ViewMode,
    pub quit: bool,
    pub show_help: bool,
    pub status_msg: Seq<char>,
    pub pending_op: Option<PendingOp>,
    pub vma: Option<ArchiveView>,
    pub selected_device: usize,
    pub config_scroll: usize,
    pub partitions: Seq<PartitionView>,
    pub partition_scroll: usize,
    pub fs_offset: u64,
    pub fs_length: u64,
    pub dirlist: Seq<DirEntryView>,
    pub dir_selected: Option<usize>,
    pub current_dir: (u32, Seq<char>),
    pub breadcrumbs: Seq<(u32, Seq<char>)>,
    pub fs_type: Seq<char>,
    pub total_blocks: u64,
    pub hex_data: Seq<u8>,
    pub hex_scroll: usize,
    pub hex_title: Seq<char>,
    pub dump_path: Option<PathBuf>,
}

/// The directories on the way to the current one.
pub open spec fn crumbs(v: Seq<(u32, String)>) -> Seq<(u32, Seq<char>)> {
    v.map_values(|c: (u32, String)| (c.0, c.1@))
}

impl View for App {
    type V = AppState;

    open spec fn view(&self) -> AppState {
        AppState {
            items: self.items@,
            list_selected: self.list_state,
            current_path: self.current_path,
            view_mode: self.view_mode,
            quit: self.quit,
            show_help: self.show_help,
            status_msg: self.status_msg@,
            pending_op: self.pending_op,
            vma: match self.vma {
                Some(v) => Some(v@),
                None => None,
            },
            selected_device: self.selected_device,
            config_scroll: self.config_scroll,
            partitions: shown(self.partitions@),
            partition_scroll: self.partition_scroll,
            fs_offset: self.ext4_partition_offset,
            fs_length: self.ext4_partition_length,
            dirlist: listed(self.ext4_dirlist@),
            dir_selected: self.ext4_dirlist_state,
            current_dir: (self.ext4_current_dir.0, self.ext4_current_dir.1@),
            breadcrumbs: crumbs(self.ext4_breadcrumbs@),
            fs_type: self.ext4_fs_type@,
            total_blocks: self.ext4_total_blocks,
            hex_data: self.hex_data@,
            hex_scroll: self.hex_scroll,
            hex_title: self.hex_title@,
            dump_path: self.dump_path,
        }
    }
}

// ---------------------------------------------------------------- file list

impl Ranked for FoundFile {
    /// Files follow the order of the bytes of their names.
    open spec fn goes_after(self, other: Self) -> bool {
        bytes_before(other.name@, self.name@)
    }

    fn is_after(&self, other: &Self) -> (r: bool) {
        is_before(other.name.as_slice(), self.name.as_slice())
    }

    proof fn ranks_agree(a: Self, b: Self, c: Self) {
        let x = a.name@;
        let y = b.name@;
        let z = c.name@;
        crate::sorting::law_bytes_are_ordered(x, y);
        crate::sorting::law_bytes_are_ordered(y, z);
        if bytes_before(z, x) && bytes_before(x, y) {
            crate::sorting::law_bytes_order_is_transitive(z, x, y);
        }
    }
}

/// The name is that of a backup.
pub open spec fn is_backup(name: Seq<char>) -> bool {
    ends_with(name, ".vma"@) || ends_with(name, ".vma.zst"@) || ends_with(name, ".vma.xz"@)
}

/// Whether a name is that of a backup.
pub fn is_backup_name(name: &str) -> (r: bool)
    ensures
        r == is_backup(name@),
{
    has_ending(name, ".vma") || has_ending(name, ".vma.zst") || has_ending(name, ".vma.xz")
}

/// What the file list holds of a file.
pub open spec fn list_entry(f: FoundFile) -> FileEntry {
    FileEntry {
        path: f.path,
        is_dir: f.is_dir,
        size: if f.is_dir {
            0
        } else {
            f.size
        },
        modified: f.modified,
        is_vma: f.is_vma,
    }
}

/// What the file list holds of some files.
pub open spec fn list_entries(files: Seq<FoundFile>) -> Seq<FileEntry> {
    files.map_values(|f: FoundFile| list_entry(f))
}

/// The file list of a directory: the directories in it, then the backups, each by name.
pub open spec fn file_list(found: Seq<FoundFile>) -> Seq<FileEntry> {
    list_entries(ranked(found.filter(|f: FoundFile| f.is_dir))) + list_entries(
        ranked(found.filter(|f: FoundFile| !f.is_dir && f.is_vma)),
    )
}

/// Puts some files at the end of a file list.
fn append_entries(items: &mut Vec<FileEntry>, files: Vec<FoundFile>)
    ensures
        final(items)@ == old(items)@ + list_entries(files@),
{
    let ghost before = items@;
    let ghost all = files@;
    for f in it: files
        invariant
            it.seq() == all,
            items@ =~= before + list_entries(all.take(it.index() as int)),
    {
        let ghost n = it.index() as int;
        assert(list_entries(all.take(n + 1)) =~= list_entries(all.take(n)).push(
            list_entry(all[n]),
        ));
        let size: u64 = if f.is_dir {
            0
        } else {
            f.size
        };
        items.push(
            FileEntry {
                path: f.path,
                is_dir: f.is_dir,
                size,
                modified: f.modified,
                is_vma: f.is_vma,
            },
        );
    }
    assert(all.take(all.len() as int) =~= all);
}

/// The file list of a directory.
pub fn list_files(found: Vec<FoundFile>) -> (r: Vec<FileEntry>)
    ensures
        r@ == file_list(found@),
{
    let ghost all = found@;
    let ghost is_dir = |f: FoundFile| f.is_dir;
    let ghost is_file = |f: FoundFile| !f.is_dir && f.is_vma;
    let mut dirs: Vec<FoundFile> = Vec::new();
    let mut files: Vec<FoundFile> = Vec::new();
    proof {
        reveal(Seq::filter);
        assert(all.take(0).filter(is_dir) =~= dirs@);
        assert(all.take(0).filter(is_file) =~= files@);
    }
    for f in it: found
        invariant
            it.seq() == all,
            is_dir == (|f: FoundFile| f.is_dir),
            is_file == (|f: FoundFile| !f.is_dir && f.is_vma),
            dirs@ == all.take(it.index() as int).filter(is_dir),
            files@ == all.take(it.index() as int).filter(is_file),
    {
        let ghost n = it.index() as int;
        proof {
            assert(all.take(n + 1) =~= all.take(n).push(all[n]));
            crate::sorting::lemma_filter_push(all.take(n), all[n], is_dir);
            crate::sorting::lemma_filter_push(all.take(n), all[n], is_file);
        }
        if f.is_dir {
            dirs.push(f);
        } else if f.is_vma {
            files.push(f);
        }
    }
    assert(all.take(all.len() as int) =~= all);
    let mut items: Vec<FileEntry> = Vec::new();
    append_entries(&mut items, stable_sort(dirs));
    append_entries(&mut items, stable_sort(files));
    assert(items@ =~= file_list(all));
    items
}

// ---------------------------------------------------------------- what operations do

/// The state before anything was loaded.
pub open spec fn fresh(path: PathBuf) -> AppState {
    AppState {
        items: seq![],
        list_selected: None,
        current_path: path,
        view_mode: ViewMode::FileList,
        quit: false,
        show_help: false,
        status_msg: seq![],
        pending_op: None,
        vma: None,
        selected_device: 0,
        config_scroll: 0,
        partitions: seq![],
        partition_scroll: 0,
        fs_offset: 0,
        fs_length: 0,
        dirlist: seq![],
        dir_selected: None,
        current_dir: (2, "/"@),
        breadcrumbs: seq![],
        fs_type: seq![],
        total_blocks: 0,
        hex_data: seq![],
        hex_scroll: 0,
        hex_title: seq![],
        dump_path: None,
    }
}

/// The first of some entries is selected, where there is one.
pub open spec fn select_first(len: nat, selected: Option<usize>) -> Option<usize> {
    if len > 0 {
        Some(0)
    } else {
        selected
    }
}

/// A directory of files was loaded; nothing is listed of one that could not be read.
pub open spec fn directory_loaded(
    s: AppState,
    path: PathBuf,
    found: Option<Seq<FoundFile>>,
) -> AppState {
    let items = match found {
        Some(f) => file_list(f),
        None => seq![],
    };
    AppState {
        items,
        list_selected: select_first(items.len(), s.list_selected),
        current_path: path,
        view_mode: ViewMode::FileList,
        vma: None,
        partitions: seq![],
        selected_device: 0,
        config_scroll: 0,
        ..s
    }
}

/// The browser was started at a path: a directory is shown, and a file waits to be opened as an
/// archive.
pub open spec fn started(
    s: AppState,
    path: PathBuf,
    is_file: bool,
    found: Option<Seq<FoundFile>>,
) -> AppState {
    let t = directory_loaded(s, path, found);
    if is_file {
        AppState { pending_op: Some(PendingOp::LoadVma(path)), ..t }
    } else {
        t
    }
}

/// An archive was opened, or not.
pub open spec fn vma_loaded(s: AppState, opened: Option<ArchiveView>) -> AppState {
    match opened {
        None => AppState { status_msg: "Building VMA index..."@, ..s },
        Some(a) => AppState {
            selected_device: 0,
            partitions: seq![],
            vma: Some(a),
            view_mode: ViewMode::VmaInfo,
            status_msg: seq![],
            ..s
        },
    }
}

/// The device that is selected.
pub open spec fn chosen_device(s: AppState) -> VmaDeviceView {
    (s.vma->0).devices[s.selected_device as int]
}

/// An archive is open and has the device that is selected.
pub open spec fn has_chosen_device(s: AppState) -> bool {
    s.vma matches Some(a) && s.selected_device < a.devices.len()
}

/// What the partition list shows of a device.
pub open spec fn device_partitions(
    dev: VmaDeviceView,
    data: Seq<u8>,
    probes: Seq<Option<Vec<u8>>>,
) -> Seq<PartitionView> {
    with_raw(all_probed(partition_table(data), data, probes), dev.name, dev.size, raw_fs(data))
}

/// The partitions of the selected device were read, or not.
pub open spec fn partitions_loaded(s: AppState, read: Option<PartitionRead>) -> AppState {
    match read {
        None => AppState { status_msg: "Reading partition table..."@, ..s },
        Some(r) => AppState {
            partitions: device_partitions(chosen_device(s), r.data@, r.probes@),
            view_mode: ViewMode::PartitionTable,
            partition_scroll: 0,
            status_msg: seq![],
            ..s
        },
    }
}

/// What is read of a partition for its hex view: a place and a length.
pub open spec fn hex_range(p: PartitionView) -> (u64, usize) {
    (p.byte_offset, (if p.byte_length < 8192 { p.byte_length } else { 8192 }) as usize)
}

/// How much is read of a device for its hex view.
pub open spec fn raw_hex_len(size: u64) -> usize {
    (if size < 65536 { size } else { 65536 }) as usize
}

/// Some bytes are shown in hexadecimal.
pub open spec fn hex_shown(s: AppState, data: Seq<u8>, title: Seq<char>) -> AppState {
    AppState {
        hex_data: data,
        hex_scroll: 0,
        hex_title: title,
        view_mode: ViewMode::HexView,
        status_msg: seq![],
        ..s
    }
}

/// The start of a partition was read for its hex view, or not.
pub open spec fn partition_hex_loaded(s: AppState, pi: int, read: Option<Seq<u8>>) -> AppState {
    let p = s.partitions[pi];
    match read {
        None => AppState { status_msg: "Reading "@ + p.name + "..."@, ..s },
        Some(data) => hex_shown(s, data, p.name + " ("@ + p.fs_type + ")"@),
    }
}

/// The start of the device was read for its hex view, or not.
pub open spec fn device_raw_loaded(s: AppState, read: Option<Seq<u8>>) -> AppState {
    match read {
        None => AppState { status_msg: "Reading raw data..."@, ..s },
        Some(data) => hex_shown(s, data, chosen_device(s).name + " (raw, first 64KB)"@),
    }
}

/// What was read to browse a file system.
pub struct FsReadView {
    pub fs_type: Seq<char>,
    pub total_blocks: u64,
    pub entries: Seq<DirEntryView>,
}

impl View for FsRead {
    type V = FsReadView;

    open spec fn view(&self) -> FsReadView {
        FsReadView {
            fs_type: self.fs_type@,
            total_blocks: self.total_blocks,
            entries: listed(self.entries@),
        }
    }
}

/// The entries of a directory are listed.
pub open spec fn dir_listed(s: AppState, entries: Seq<DirEntryView>) -> AppState {
    AppState {
        dirlist: entries,
        dir_selected: select_first(entries.len(), s.dir_selected),
        ..s
    }
}

/// A partition was opened for browsing, at its root directory, or not.
pub open spec fn fs_opened(s: AppState, pi: int, read: Option<FsReadView>) -> AppState {
    let p = s.partitions[pi];
    let t = AppState { fs_offset: p.byte_offset, fs_length: p.byte_length, ..s };
    match read {
        None => AppState { status_msg: "Opening ext4 on "@ + p.name + "..."@, ..t },
        Some(r) => AppState {
            fs_type: r.fs_type,
            total_blocks: r.total_blocks,
            current_dir: (2, "/"@),
            breadcrumbs: seq![(2u32, "/"@)],
            view_mode: ViewMode::FsBrowse,
            status_msg: seq![],
            ..dir_listed(t, r.entries)
        },
    }
}

/// Where opening entry `idx` of the directory leads.
pub open spec fn visit_into(s: AppState, idx: int) -> Visit {
    let e = s.dirlist[idx];
    if e.ino == 0 {
        Visit::Stay
    } else if e.name == ".."@ && s.breadcrumbs.len() > 1 {
        visit_back(s)
    } else if e.name == "."@ || e.file_type != 2 {
        Visit::Stay
    } else {
        Visit::Into { ino: e.ino }
    }
}

/// Where going back leads.
pub open spec fn visit_back(s: AppState) -> Visit {
    if s.breadcrumbs.len() <= 1 {
        Visit::Stay
    } else {
        Visit::Back { ino: s.breadcrumbs[s.breadcrumbs.len() - 2].0 }
    }
}

/// The directory above is the current one.
pub open spec fn went_back(s: AppState) -> AppState {
    AppState {
        breadcrumbs: s.breadcrumbs.drop_last(),
        current_dir: s.breadcrumbs[s.breadcrumbs.len() - 2],
        ..s
    }
}

/// A directory below is the current one.
pub open spec fn went_into(s: AppState, ino: u32, name: Seq<char>) -> AppState {
    let dir = (ino, s.current_dir.1 + "/"@ + name);
    AppState { breadcrumbs: s.breadcrumbs.push(dir), current_dir: dir, ..s }
}

/// The state after going back, given what was read of the directory above.
pub open spec fn after_back(s: AppState, read: Option<Seq<DirEntryView>>) -> AppState {
    if visit_back(s) is Stay {
        s
    } else {
        match read {
            Some(entries) => dir_listed(went_back(s), entries),
            None => went_back(s),
        }
    }
}

/// The state after entry `idx` was opened, given what was read of the directory it leads to.
pub open spec fn after_into(s: AppState, idx: int, read: Option<Seq<DirEntryView>>) -> AppState {
    match visit_into(s, idx) {
        Visit::Stay => s,
        Visit::Back { .. } => after_back(s, read),
        Visit::Into { ino } => match read {
            Some(entries) => dir_listed(went_into(s, ino, s.dirlist[idx].name), entries),
            None => s,
        },
    }
}

/// A file was read for its hex view, or not.
pub open spec fn file_hex_loaded(s: AppState, idx: int, read: Option<Seq<u8>>) -> AppState {
    let e = s.dirlist[idx];
    if e.file_type != 1 {
        s
    } else {
        match read {
            None => AppState { status_msg: "Reading "@ + e.name + "..."@, ..s },
            Some(data) => hex_shown(s, data, e.name + " ("@ + s.current_dir.1 + ")"@),
        }
    }
}

/// What comes of extracting an entry.
pub open spec fn extract_result<E>(e: DirEntryView, written: Result<usize, E>) -> Result<
    (),
    ExtractError<E>,
> {
    if e.file_type != 1 {
        Err(ExtractError::Refused(AppError::NotRegularFile))
    } else {
        match written {
            Ok(_) => Ok(()),
            Err(err) => Err(ExtractError::Failed(err)),
        }
    }
}

/// A file was extracted with so many bytes, or not.
pub open spec fn file_extracted(s: AppState, idx: int, written: Option<usize>) -> AppState {
    let e = s.dirlist[idx];
    if e.file_type != 1 {
        s
    } else {
        AppState {
            status_msg: match written {
                None => "Extracting "@ + e.name + "..."@,
                Some(n) => "Extracted "@ + e.name + " ("@ + decimal(n as nat) + " bytes)"@,
            },
            ..s
        }
    }
}

// ---------------------------------------------------------------- operations

/// What a reading gave, as sequences.
pub open spec fn bytes_read<E>(read: Result<Vec<u8>, E>) -> Option<Seq<u8>> {
    match read {
        Ok(b) => Some(b@),
        Err(_) => None,
    }
}

/// The entries that a reading gave.
pub open spec fn entries_read<E>(read: Result<Vec<DirEntry>, E>) -> Option<Seq<DirEntryView>> {
    match read {
        Ok(e) => Some(listed(e@)),
        Err(_) => None,
    }
}

/// What came of something, where it did not fail.
pub open spec fn succeeded<T, E>(r: Result<T, E>) -> Option<T> {
    match r {
        Ok(t) => Some(t),
        Err(_) => None,
    }
}

/// The operation passes on the error of what it was given.
pub open spec fn passes_on<T, E>(r: Result<(), E>, given: Result<T, E>) -> bool {
    match given {
        Ok(_) => r is Ok,
        Err(e) => r matches Err(f) && f == e,
    }
}

/// A text between two others.
fn enclosed(before: &str, middle: &str, after: &str) -> (r: String)
    ensures
        r@ == before@ + middle@ + after@,
{
    let mut s = before.to_owned();
    s.append(middle);
    s.append(after);
    s
}

impl App {
    /// The state before anything was loaded.
    pub fn new(path: PathBuf) -> (r: Self)
        ensures
            r@ == fresh(path),
    {
        let r = App {
            items: Vec::new(),
            list_state: None,
            current_path: path,
            view_mode: ViewMode::FileList,
            quit: false,
            show_help: false,
            status_msg: String::new(),
            pending_op: None,
            vma: None,
            selected_device: 0,
            config_scroll: 0,
            partitions: Vec::new(),
            partition_scroll: 0,
            ext4_partition_offset: 0,
            ext4_partition_length: 0,
            ext4_dirlist: Vec::new(),
            ext4_dirlist_state: None,
            ext4_current_dir: (2, "/".to_owned()),
            ext4_breadcrumbs: Vec::new(),
            ext4_fs_type: String::new(),
            ext4_total_blocks: 0,
            hex_data: Vec::new(),
            hex_scroll: 0,
            hex_title: String::new(),
            dump_path: None,
        };
        proof {
            let f = fresh(path);
            assert(r@.items =~= f.items);
            assert(r@.status_msg =~= f.status_msg);
            assert(r@.partitions =~= f.partitions);
            assert(r@.dirlist =~= f.dirlist);
            assert(r@.breadcrumbs =~= f.breadcrumbs);
            assert(r@.fs_type =~= f.fs_type);
            assert(r@.hex_data =~= f.hex_data);
            assert(r@.hex_title =~= f.hex_title);
        }
        r
    }

    /// A reader for the selected device.
    pub fn dev_reader(&self) -> (r: Result<VmaDeviceReader, AppError>)
        ensures
            r is Ok <==> has_chosen_device(self@),
            r matches Err(e) ==> e == (if self@.vma is None {
                AppError::NoVma
            } else {
                AppError::Device(VmaError::BadDeviceIndex)
            }),
            r matches Ok(reader) ==> reader@ == device_reader(
                self@.vma->0,
                self@.selected_device as int,
            ),
    {
        match &self.vma {
            None => Err(AppError::NoVma),
            Some(vma) => match vma.open_device(self.selected_device) {
                Ok(reader) => Ok(reader),
                Err(e) => Err(AppError::Device(e)),
            },
        }
    }

    /// A reader over the selected device, restricted to `byte_length` bytes from `byte_offset`.
    pub fn part_reader(&self, byte_offset: u64, byte_length: u64) -> (r: Result<
        PartitionReader<VmaDeviceReader>,
        AppError,
    >)
        ensures
            r is Ok <==> has_chosen_device(self@),
            r matches Err(e) ==> e == (if self@.vma is None {
                AppError::NoVma
            } else {
                AppError::Device(VmaError::BadDeviceIndex)
            }),
            r matches Ok(p) ==> {
                &&& p.reader()@ == device_reader(self@.vma->0, self@.selected_device as int)
                &&& p.offset() == byte_offset
                &&& p.length() == byte_length
                &&& p.pos() == 0
            },
    {
        match self.dev_reader() {
            Ok(reader) => Ok(PartitionReader::new(reader, byte_offset, byte_length)),
            Err(e) => Err(e),
        }
    }

    // ------------------------------------------------------------ file list and archive

    /// Shows the files of a directory.
    pub fn load_directory(&mut self, path: PathBuf, found: Option<Vec<FoundFile>>)
        ensures
            final(self)@ == directory_loaded(
                old(self)@,
                path,
                match found {
                    Some(f) => Some(f@),
                    None => None,
                },
            ),
    {
        self.current_path = path;
        self.view_mode = ViewMode::FileList;
        self.vma = None;
        self.partitions.clear();
        self.selected_device = 0;
        self.config_scroll = 0;
        match found {
            Some(f) => {
                self.items = list_files(f);
            },
            None => {
                self.items.clear();
            },
        }
        if self.items.len() > 0 {
            self.list_state = Some(0);
        }
        assert(self@.partitions =~= seq![]);
        assert(found is None ==> self@.items =~= seq![]);
    }

    /// Starts at a path, which may be that of a directory or of an archive.
    pub fn start_at(&mut self, path: PathBuf, is_file: bool, found: Option<Vec<FoundFile>>)
        ensures
            final(self)@ == started(
                old(self)@,
                path,
                is_file,
                match found {
                    Some(f) => Some(f@),
                    None => None,
                },
            ),
    {
        let file = path.clone();
        self.load_directory(path, found);
        if is_file {
            self.pending_op = Some(PendingOp::LoadVma(file));
        }
    }

    /// Shows an archive that was opened.
    pub fn load_vma<E>(&mut self, opened: Result<VmaArchive, E>) -> (r: Result<(), E>)
        ensures
            passes_on(r, opened),
            final(self)@ == vma_loaded(
                old(self)@,
                match opened {
                    Ok(a) => Some(a@),
                    Err(_) => None,
                },
            ),
    {
        match opened {
            Err(e) => {
                self.status_msg = "Building VMA index...".to_owned();
                Err(e)
            },
            Ok(archive) => {
                self.selected_device = 0;
                self.partitions.clear();
                self.vma = Some(archive);
                self.view_mode = ViewMode::VmaInfo;
                self.status_msg = String::new();
                assert(self@.partitions =~= seq![]);
                assert(self@.status_msg =~= seq![]);
                Ok(())
            },
        }
    }

    /// Whether an archive is open; the data of its devices can then be read.
    pub fn has_device_data(&self) -> (r: bool)
        ensures
            r == self@.vma is Some,
    {
        self.vma.is_some()
    }

    /// Forgets what was kept of the selected device, which is nothing.
    pub fn clear_device(&mut self)
        ensures
            *final(self) == *old(self),
    {
    }

    /// Takes the operation that waits.
    pub fn execute_pending(&mut self) -> (r: Option<PendingOp>)
        ensures
            r == old(self)@.pending_op,
            final(self)@ == (AppState { pending_op: None, ..old(self)@ }),
    {
        self.pending_op.take()
    }

    // ------------------------------------------------------------ partition table

    /// How much of the selected device is read for its partition table.
    pub fn plan_partitions(&self) -> (r: usize)
        requires
            has_chosen_device(self@),
        ensures
            r == table_read_len(chosen_device(self@).size as int),
    {
        match &self.vma {
            Some(vma) => {
                let dev = &vma.device_list()[self.selected_device];
                assert(dev@ == chosen_device(self@));
                read_len_for(dev.size)
            },
            None => 0,
        }
    }

    /// Shows the partitions of the selected device.
    pub fn load_partitions<E>(&mut self, read: Result<PartitionRead, E>) -> (r: Result<(), E>)
        requires
            read matches Ok(p) ==> {
                &&& has_chosen_device(old(self)@)
                &&& table_fits(p.data@)
                &&& p.probes@.len() == partition_table(p.data@).len()
            },
        ensures
            passes_on(r, read),
            final(self)@ == partitions_loaded(old(self)@, succeeded(read)),
    {
        match read {
            Err(e) => {
                self.status_msg = "Reading partition table...".to_owned();
                Err(e)
            },
            Ok(p) => {
                let ghost before = self@;
                if let Some(vma) = &self.vma {
                    let dev = &vma.device_list()[self.selected_device];
                    assert(dev@ == chosen_device(before));
                    let table = parse_partition_table(p.data.as_slice());
                    proof {
                        assert forall|i: int| 0 <= i < shown(table@).len() implies (
                        #[trigger] shown(table@)[i]).byte_offset + 4 <= u64::MAX by {
                            crate::partition::law_partitions_count_in_sectors(p.data@, i);
                        }
                    }
                    let table = probe_partitions(table, p.data.as_slice(), &p.probes);
                    let fs = detect_raw_fs(p.data.as_slice());
                    let table = add_raw(table, dev.name.as_str(), dev.size, fs);
                    self.partitions = table;
                }
                self.view_mode = ViewMode::PartitionTable;
                self.partition_scroll = 0;
                self.status_msg = String::new();
                assert(self@.status_msg =~= seq![]);
                Ok(())
            },
        }
    }

    // ------------------------------------------------------------ hex views

    fn show_hex(&mut self, data: Vec<u8>, title: String)
        ensures
            final(self)@ == hex_shown(old(self)@, data@, title@),
    {
        self.hex_data = data;
        self.hex_scroll = 0;
        self.hex_title = title;
        self.view_mode = ViewMode::HexView;
        self.status_msg = String::new();
        assert(self@.status_msg =~= seq![]);
    }

    /// What is read of a partition for its hex view.
    pub fn plan_partition_hex(&self, pi: usize) -> (r: (u64, usize))
        requires
            pi < self@.partitions.len(),
        ensures
            r == hex_range(self@.partitions[pi as int]),
    {
        let p = &self.partitions[pi];
        let len: u64 = if p.byte_length < 8192 {
            p.byte_length
        } else {
            8192
        };
        (p.byte_offset, len as usize)
    }

    /// Shows the start of a partition in hexadecimal.
    pub fn load_partition_hex<E>(&mut self, pi: usize, read: Result<Vec<u8>, E>) -> (r: Result<
        (),
        E,
    >)
        requires
            pi < old(self)@.partitions.len(),
        ensures
            passes_on(r, read),
            final(self)@ == partition_hex_loaded(old(self)@, pi as int, bytes_read(read)),
    {
        let p = &self.partitions[pi];
        assert(p@ == old(self)@.partitions[pi as int]);
        match read {
            Err(e) => {
                self.status_msg = enclosed("Reading ", p.name.as_str(), "...");
                Err(e)
            },
            Ok(data) => {
                let mut title = enclosed(p.name.as_str(), " (", p.fs_type.as_str());
                title.append(")");
                self.show_hex(data, title);
                Ok(())
            },
        }
    }

    /// How much is read of the selected device for its hex view.
    pub fn plan_device_raw(&self) -> (r: usize)
        requires
            has_chosen_device(self@),
        ensures
            r == raw_hex_len(chosen_device(self@).size),
    {
        match &self.vma {
            Some(vma) => {
                let dev = &vma.device_list()[self.selected_device];
                assert(dev@ == chosen_device(self@));
                if dev.size < 65536 {
                    dev.size as usize
                } else {
                    65536
                }
            },
            None => 0,
        }
    }

    /// Shows the start of the selected device in hexadecimal.
    pub fn load_device_raw<E>(&mut self, read: Result<Vec<u8>, E>) -> (r: Result<(), E>)
        requires
            read is Ok ==> has_chosen_device(old(self)@),
        ensures
            passes_on(r, read),
            final(self)@ == device_raw_loaded(old(self)@, bytes_read(read)),
    {
        match read {
            Err(e) => {
                self.status_msg = "Reading raw data...".to_owned();
                Err(e)
            },
            Ok(data) => {
                let mut title = String::new();
                if let Some(vma) = &self.vma {
                    let dev = &vma.device_list()[self.selected_device];
                    assert(dev@ == chosen_device(old(self)@));
                    title = concat_texts(dev.name.as_str(), " (raw, first 64KB)");
                }
                self.show_hex(data, title);
                Ok(())
            },
        }
    }

    // ------------------------------------------------------------ file system browser

    /// Lists the entries of a directory.
    fn fs_read_dir(&mut self, entries: Vec<DirEntry>)
        ensures
            final(self)@ == dir_listed(old(self)@, listed(entries@)),
    {
        self.ext4_dirlist = entries;
        if self.ext4_dirlist.len() > 0 {
            self.ext4_dirlist_state = Some(0);
        }
    }

    /// Shows the root directory of the file system on a partition.
    pub fn browse_partition_fs<E>(&mut self, pi: usize, read: Result<FsRead, E>) -> (r: Result<
        (),
        E,
    >)
        requires
            pi < old(self)@.partitions.len(),
        ensures
            passes_on(r, read),
            final(self)@ == fs_opened(
                old(self)@,
                pi as int,
                match read {
                    Ok(f) => Some(f@),
                    Err(_) => None,
                },
            ),
    {
        let p = &self.partitions[pi];
        assert(p@ == old(self)@.partitions[pi as int]);
        let opening = enclosed("Opening ext4 on ", p.name.as_str(), "...");
        let offset = p.byte_offset;
        let length = p.byte_length;
        self.ext4_partition_offset = offset;
        self.ext4_partition_length = length;
        match read {
            Err(e) => {
                self.status_msg = opening;
                Err(e)
            },
            Ok(f) => {
                self.fs_read_dir(f.entries);
                self.ext4_fs_type = f.fs_type;
                self.ext4_total_blocks = f.total_blocks;
                self.ext4_current_dir = (2, "/".to_owned());
                let mut way: Vec<(u32, String)> = Vec::new();
                way.push((2, "/".to_owned()));
                self.ext4_breadcrumbs = way;
                self.view_mode = ViewMode::FsBrowse;
                self.status_msg = String::new();
                assert(self@.breadcrumbs =~= seq![(2u32, "/"@)]);
                assert(self@.status_msg =~= seq![]);
                Ok(())
            },
        }
    }

    /// Where opening an entry of the directory leads.
    pub fn plan_navigate_into(&self, idx: usize) -> (r: Visit)
        requires
            idx < self@.dirlist.len(),
        ensures
            r == visit_into(self@, idx as int),
    {
        let e = &self.ext4_dirlist[idx];
        assert(e@ == self@.dirlist[idx as int]);
        if e.ino == 0 {
            Visit::Stay
        } else if same_text(e.name.as_str(), "..") && self.ext4_breadcrumbs.len() > 1 {
            self.plan_navigate_back()
        } else if same_text(e.name.as_str(), ".") || e.file_type != 2 {
            Visit::Stay
        } else {
            Visit::Into { ino: e.ino }
        }
    }

    /// Where going back leads.
    pub fn plan_navigate_back(&self) -> (r: Visit)
        ensures
            r == visit_back(self@),
    {
        let n = self.ext4_breadcrumbs.len();
        if n <= 1 {
            Visit::Stay
        } else {
            Visit::Back { ino: self.ext4_breadcrumbs[n - 2].0 }
        }
    }

    fn go_back(&mut self)
        requires
            old(self)@.breadcrumbs.len() > 1,
        ensures
            final(self)@ == went_back(old(self)@),
    {
        let ghost before = self.ext4_breadcrumbs@;
        self.ext4_breadcrumbs.pop();
        let above = &self.ext4_breadcrumbs[self.ext4_breadcrumbs.len() - 1];
        let ino = above.0;
        let path = above.1.clone();
        self.ext4_current_dir = (ino, path);
        assert(crumbs(self.ext4_breadcrumbs@) =~= crumbs(before).drop_last());
    }

    /// Opens an entry of the directory, with what was read of the directory that it leads to.
    pub fn fs_navigate_into<E>(&mut self, idx: usize, read: Result<Vec<DirEntry>, E>) -> (r: Result<
        (),
        E,
    >)
        requires
            idx < old(self)@.dirlist.len(),
        ensures
            visit_into(old(self)@, idx as int) is Stay ==> r is Ok,
            visit_into(old(self)@, idx as int) !is Stay ==> passes_on(r, read),
            final(self)@ == after_into(old(self)@, idx as int, entries_read(read)),
    {
        match self.plan_navigate_into(idx) {
            Visit::Stay => Ok(()),
            Visit::Back { .. } => self.fs_navigate_back(read),
            Visit::Into { ino } => match read {
                Err(e) => Err(e),
                Ok(entries) => {
                    let ghost before = self.ext4_breadcrumbs@;
                    let mut path = concat_texts(self.ext4_current_dir.1.as_str(), "/");
                    path.append(self.ext4_dirlist[idx].name.as_str());
                    assert(self.ext4_dirlist@[idx as int]@ == old(self)@.dirlist[idx as int]);
                    let ghost dir = (ino, path@);
                    self.ext4_breadcrumbs.push((ino, path.clone()));
                    self.ext4_current_dir = (ino, path);
                    assert(crumbs(self.ext4_breadcrumbs@) =~= crumbs(before).push(dir));
                    self.fs_read_dir(entries);
                    Ok(())
                },
            },
        }
    }

    /// Goes back to the directory above, with what was read of it.
    pub fn fs_navigate_back<E>(&mut self, read: Result<Vec<DirEntry>, E>) -> (r: Result<(), E>)
        ensures
            visit_back(old(self)@) is Stay ==> r is Ok,
            visit_back(old(self)@) !is Stay ==> passes_on(r, read),
            final(self)@ == after_back(old(self)@, entries_read(read)),
    {
        if self.ext4_breadcrumbs.len() <= 1 {
            return Ok(());
        }
        self.go_back();
        match read {
            Err(e) => Err(e),
            Ok(entries) => {
                self.fs_read_dir(entries);
                Ok(())
            },
        }
    }

    /// The inode of the file that the hex view of an entry needs; none for what is not a
    /// regular file.
    pub fn plan_file_hex(&self, idx: usize) -> (r: Option<u32>)
        requires
            idx < self@.dirlist.len(),
        ensures
            r == (if self@.dirlist[idx as int].file_type == 1 {
                Some(self@.dirlist[idx as int].ino)
            } else {
                None
            }),
    {
        let e = &self.ext4_dirlist[idx];
        if e.file_type == 1 {
            Some(e.ino)
        } else {
            None
        }
    }

    /// Shows a file in hexadecimal; nothing of what is not a regular file.
    pub fn fs_show_file_hex<E>(&mut self, idx: usize, read: Result<Vec<u8>, E>) -> (r: Result<
        (),
        E,
    >)
        requires
            idx < old(self)@.dirlist.len(),
        ensures
            old(self)@.dirlist[idx as int].file_type != 1 ==> r is Ok,
            old(self)@.dirlist[idx as int].file_type == 1 ==> passes_on(r, read),
            final(self)@ == file_hex_loaded(old(self)@, idx as int, bytes_read(read)),
    {
        let e = &self.ext4_dirlist[idx];
        assert(e@ == old(self)@.dirlist[idx as int]);
        if e.file_type != 1 {
            return Ok(());
        }
        match read {
            Err(err) => {
                self.status_msg = enclosed("Reading ", e.name.as_str(), "...");
                Err(err)
            },
            Ok(data) => {
                let mut title = enclosed(e.name.as_str(), " (", self.ext4_current_dir.1.as_str());
                title.append(")");
                self.show_hex(data, title);
                Ok(())
            },
        }
    }

    /// The inode of the file to extract; an error for what is not a regular file.
    pub fn plan_extract(&self, idx: usize) -> (r: Result<u32, AppError>)
        requires
            idx < self@.dirlist.len(),
        ensures
            r == (if self@.dirlist[idx as int].file_type == 1 {
                Ok::<u32, AppError>(self@.dirlist[idx as int].ino)
            } else {
                Err(AppError::NotRegularFile)
            }),
    {
        match self.plan_file_hex(idx) {
            Some(ino) => Ok(ino),
            None => Err(AppError::NotRegularFile),
        }
    }

    /// Says that a file was extracted, with so many bytes, or that it is being; refuses what is
    /// not a regular file.
    pub fn fs_extract_file<E>(&mut self, idx: usize, written: Result<usize, E>) -> (r: Result<
        (),
        ExtractError<E>,
    >)
        requires
            idx < old(self)@.dirlist.len(),
        ensures
            r == extract_result(old(self)@.dirlist[idx as int], written),
            final(self)@ == file_extracted(old(self)@, idx as int, succeeded(written)),
    {
        let e = &self.ext4_dirlist[idx];
        assert(e@ == old(self)@.dirlist[idx as int]);
        if e.file_type != 1 {
            return Err(ExtractError::Refused(AppError::NotRegularFile));
        }
        match written {
            Err(err) => {
                self.status_msg = enclosed("Extracting ", e.name.as_str(), "...");
                Err(ExtractError::Failed(err))
            },
            Ok(n) => {
                let mut text = enclosed("Extracted ", e.name.as_str(), " (");
                push_decimal(&mut text, n as u64);
                text.append(" bytes)");
                self.status_msg = text;
                Ok(())
            },
        }
    }
}

// ---------------------------------------------------------------- what always holds

/// What holds of the browser at all times: selections lie within their lists, the selected
/// device is one of the archive, only the file list is shown without an archive, the way to the
/// current directory ends there, and nothing was saved.
pub open spec fn app_sound(s: AppState) -> bool {
    &&& s.items.len() > 0 ==> (s.list_selected matches Some(i) && i < s.items.len())
    &&& s.partitions.len() > 0 ==> s.partition_scroll < s.partitions.len()
    &&& s.dirlist.len() > 0 ==> (s.dir_selected matches Some(i) && i < s.dirlist.len())
    &&& s.breadcrumbs.len() > 0 ==> s.breadcrumbs.last() == s.current_dir
    &&& s.dump_path is None
    &&& match s.vma {
        None => s.selected_device == 0 && s.view_mode == ViewMode::FileList,
        Some(a) => s.selected_device < a.devices.len() || s.selected_device == 0,
    }
}

/// What always holds does so from the start.
pub proof fn law_new_state_is_sound(path: PathBuf)
    ensures
        app_sound(fresh(path)),
{
}

/// Showing a directory or an archive keeps what always holds.
pub proof fn law_loading_keeps_sound(
    s: AppState,
    path: PathBuf,
    found: Option<Seq<FoundFile>>,
    opened: Option<ArchiveView>,
)
    requires
        app_sound(s),
    ensures
        app_sound(directory_loaded(s, path, found)),
        app_sound(vma_loaded(s, opened)),
{
}

/// Showing the partitions of a device, or some of its bytes, keeps what always holds; so does
/// failing to read them.
pub proof fn law_device_views_keep_sound(
    s: AppState,
    read: Option<PartitionRead>,
    pi: int,
    bytes: Option<Seq<u8>>,
)
    requires
        app_sound(s),
    ensures
        s.vma is Some || read is None ==> app_sound(partitions_loaded(s, read)),
        s.vma is Some || bytes is None ==> app_sound(partition_hex_loaded(s, pi, bytes)),
        s.vma is Some || bytes is None ==> app_sound(device_raw_loaded(s, bytes)),
{
}

/// Browsing a file system keeps what always holds.
pub proof fn law_browsing_keeps_sound(
    s: AppState,
    pi: int,
    opened: Option<FsReadView>,
    idx: int,
    read: Option<Seq<DirEntryView>>,
    bytes: Option<Seq<u8>>,
    written: Option<usize>,
)
    requires
        app_sound(s),
    ensures
        s.vma is Some || opened is None ==> app_sound(fs_opened(s, pi, opened)),
        app_sound(after_into(s, idx, read)),
        app_sound(after_back(s, read)),
        s.vma is Some || bytes is None ==> app_sound(file_hex_loaded(s, idx, bytes)),
        app_sound(file_extracted(s, idx, written)),
{
}

/// Going back from a directory leads to the one from which it was opened.
pub proof fn law_back_undoes_into(
    s: AppState,
    idx: int,
    inside: Seq<DirEntryView>,
    outside: Seq<DirEntryView>,
)
    requires
        app_sound(s),
        s.breadcrumbs.len() > 0,
        visit_into(s, idx) is Into,
    ensures
        ({
            let within = after_into(s, idx, Some(inside));
            let back = after_back(within, Some(outside));
            &&& visit_back(within) == (Visit::Back { ino: s.current_dir.0 })
            &&& within.dirlist == inside
            &&& back.breadcrumbs == s.breadcrumbs
            &&& back.current_dir == s.current_dir
            &&& back.dirlist == outside
        }),
{
    let within = after_into(s, idx, Some(inside));
    assert(within.breadcrumbs.drop_last() =~= s.breadcrumbs);
}

/// The file list holds directories before backups, and nothing else.
pub proof fn law_file_list_holds_directories_and_backups(found: Seq<FoundFile>, k: int)
    requires
        0 <= k < file_list(found).len(),
    ensures
        file_list(found)[k].is_dir || file_list(found)[k].is_vma,
        forall|j: int| 0 <= j < k && file_list(found)[k].is_dir ==> (#[trigger] file_list(
            found,
        )[j]).is_dir,
{
    let is_dir = |f: FoundFile| f.is_dir;
    let is_file = |f: FoundFile| !f.is_dir && f.is_vma;
    let dirs = ranked(found.filter(is_dir));
    let files = ranked(found.filter(is_file));
    lemma_ranked_are_kept(found, is_dir);
    lemma_ranked_are_kept(found, is_file);
    assert(file_list(found) == list_entries(dirs) + list_entries(files));
    assert forall|j: int| 0 <= j < dirs.len() implies (#[trigger] file_list(found)[j]).is_dir by {
        assert(is_dir(dirs[j]));
    }
    if k >= dirs.len() {
        assert(is_file(files[k - dirs.len()]));
    }
}

/// The file list leaves no directory and no backup out, and names each as often as it was found.
pub proof fn law_file_list_is_complete(found: Seq<FoundFile>)
    ensures
        forall|i: int|
            0 <= i < found.len() && ((#[trigger] found[i]).is_dir || found[i].is_vma)
                ==> file_list(found).contains(list_entry(found[i])),
        file_list(found).len() == found.filter(
            |f: FoundFile| f.is_dir || f.is_vma,
        ).len(),
{
    let is_dir = |f: FoundFile| f.is_dir;
    let is_file = |f: FoundFile| !f.is_dir && f.is_vma;
    let is_either = |f: FoundFile| f.is_dir || f.is_vma;
    let dirs = ranked(found.filter(is_dir));
    let files = ranked(found.filter(is_file));
    let list = file_list(found);
    crate::sorting::law_sorting_keeps_the_values(found.filter(is_dir));
    crate::sorting::law_sorting_keeps_the_values(found.filter(is_file));
    assert(list == list_entries(dirs) + list_entries(files));
    lemma_filters_add_up(found, is_dir, is_file, is_either);
    assert forall|i: int|
        0 <= i < found.len() && ((#[trigger] found[i]).is_dir
            || found[i].is_vma) implies list.contains(list_entry(found[i])) by {
        if found[i].is_dir {
            lemma_ranked_has(found, is_dir, i);
            let k = choose|k: int| 0 <= k < dirs.len() && dirs[k] == found[i];
            assert(list[k] == list_entry(found[i]));
        } else {
            lemma_ranked_has(found, is_file, i);
            let k = choose|k: int| 0 <= k < files.len() && files[k] == found[i];
            assert(list[dirs.len() + k] == list_entry(found[i]));
        }
    }
}

proof fn lemma_filters_add_up(
    found: Seq<FoundFile>,
    a: spec_fn(FoundFile) -> bool,
    b: spec_fn(FoundFile) -> bool,
    either: spec_fn(FoundFile) -> bool,
)
    requires
        forall|f: FoundFile| #[trigger] either(f) <==> a(f) || b(f),
        forall|f: FoundFile| !(#[trigger] a(f) && #[trigger] b(f)),
    ensures
        found.filter(either).len() == found.filter(a).len() + found.filter(b).len(),
    decreases found.len(),
{
    reveal(Seq::filter);
    if found.len() > 0 {
        lemma_filters_add_up(found.drop_last(), a, b, either);
        assert(either(found.last()) <==> a(found.last()) || b(found.last()));
        assert(!(a(found.last()) && b(found.last())));
    }
}

proof fn lemma_ranked_has(found: Seq<FoundFile>, keep: spec_fn(FoundFile) -> bool, i: int)
    requires
        0 <= i < found.len(),
        keep(found[i]),
    ensures
        ranked(found.filter(keep)).contains(found[i]),
{
    broadcast use vstd::seq_lib::group_to_multiset_ensures;

    let kept = found.filter(keep);
    let out = ranked(kept);
    found.lemma_filter_contains(keep, i);
    crate::sorting::law_sorting_keeps_the_values(kept);
    assert(kept.contains(found[i]));
    assert(kept.to_multiset().count(found[i]) > 0);
    assert(out.to_multiset().count(found[i]) > 0);
}

proof fn lemma_ranked_are_kept(found: Seq<FoundFile>, keep: spec_fn(FoundFile) -> bool)
    ensures
        forall|i: int|
            0 <= i < ranked(found.filter(keep)).len() ==> keep(
                #[trigger] ranked(found.filter(keep))[i],
            ),
{
    broadcast use vstd::seq_lib::group_to_multiset_ensures;

    let kept = found.filter(keep);
    let out = ranked(kept);
    crate::sorting::law_sorting_keeps_the_values(kept);
    assert forall|i: int| 0 <= i < out.len() implies keep(#[trigger] out[i]) by {
        assert(out.contains(out[i]));
        assert(out.to_multiset().count(out[i]) > 0);
        assert(kept.contains(out[i]));
        let j = choose|j: int| 0 <= j < kept.len() && kept[j] == out[i];
        found.lemma_filter_pred(keep, j);
    }
}

// ---------------------------------------------------------------- what the operations show

/// A backup is a file whose name is some text and ".vma", ".vma.zst" or ".vma.xz".
pub proof fn law_backups_are_told_by_their_endings(base: Seq<char>, name: Seq<char>)
    ensures
        is_backup(base + ".vma"@),
        is_backup(base + ".vma.zst"@),
        is_backup(base + ".vma.xz"@),
        is_backup(name) ==> exists|b: Seq<char>|
            name == #[trigger] (b + ".vma"@) || name == b + ".vma.zst"@ || name == b + ".vma.xz"@,
{
    let none = Seq::<char>::empty();
    crate::text::law_parts_of_a_text(base, ".vma"@, none);
    crate::text::law_parts_of_a_text(base, ".vma.zst"@, none);
    crate::text::law_parts_of_a_text(base, ".vma.xz"@, none);
    crate::text::law_texts_with_a_part(name, ".vma"@);
    crate::text::law_texts_with_a_part(name, ".vma.zst"@);
    crate::text::law_texts_with_a_part(name, ".vma.xz"@);
    if is_backup(name) {
        let n = if ends_with(name, ".vma"@) {
            ".vma"@.len()
        } else if ends_with(name, ".vma.zst"@) {
            ".vma.zst"@.len()
        } else {
            ".vma.xz"@.len()
        };
        let b = name.take(name.len() - n);
        assert(name == b + ".vma"@ || name == b + ".vma.zst"@ || name == b + ".vma.xz"@);
    }
}

/// No file of the list belongs, by the bytes of its name, before an earlier one.
pub open spec fn by_name(files: Seq<FoundFile>) -> bool {
    forall|i: int, j: int|
        0 <= i < j < files.len() ==> !bytes_before(
            (#[trigger] files[j]).name@,
            (#[trigger] files[i]).name@,
        )
}

/// The entry says of a file what was found of it; a directory has no size.
pub open spec fn says_file(e: FileEntry, f: FoundFile) -> bool {
    &&& e.path == f.path
    &&& e.is_dir == f.is_dir
    &&& e.is_vma == f.is_vma
    &&& e.modified == f.modified
    &&& e.size == (if f.is_dir { 0 } else { f.size })
}

/// A list of files says of the directories `dirs` and then of the files `files` what was found;
/// either is in the order of the names, and holds what was found as often as it was found.
pub open spec fn lists_by_name(
    list: Seq<FileEntry>,
    found: Seq<FoundFile>,
    dirs: Seq<FoundFile>,
    files: Seq<FoundFile>,
) -> bool {
    &&& list.len() == dirs.len() + files.len()
    &&& forall|i: int| 0 <= i < dirs.len() ==> says_file(#[trigger] list[i], dirs[i])
    &&& forall|i: int|
        dirs.len() <= i < list.len() ==> says_file(#[trigger] list[i], files[i - dirs.len()])
    &&& by_name(dirs)
    &&& by_name(files)
    &&& forall|f: FoundFile| #[trigger]
        dirs.to_multiset().count(f) == (if f.is_dir {
            found.to_multiset().count(f)
        } else {
            0
        })
    &&& forall|f: FoundFile| #[trigger]
        files.to_multiset().count(f) == (if !f.is_dir && f.is_vma {
            found.to_multiset().count(f)
        } else {
            0
        })
}

/// The file list of a directory holds every directory and every backup in it, the directories
/// first, either in the order of the bytes of their names, and nothing else.
pub proof fn law_file_list_is_in_order(found: Seq<FoundFile>)
    ensures
        exists|dirs: Seq<FoundFile>, files: Seq<FoundFile>|
            #[trigger] lists_by_name(file_list(found), found, dirs, files),
{
    let is_dir = |f: FoundFile| f.is_dir;
    let is_file = |f: FoundFile| !f.is_dir && f.is_vma;
    let dirs = ranked(found.filter(is_dir));
    let files = ranked(found.filter(is_file));
    let list = file_list(found);
    lemma_ranked_by_name(found.filter(is_dir));
    lemma_ranked_by_name(found.filter(is_file));
    crate::sorting::law_sorting_keeps_the_values(found.filter(is_dir));
    crate::sorting::law_sorting_keeps_the_values(found.filter(is_file));
    assert(list == list_entries(dirs) + list_entries(files));
    assert forall|f: FoundFile| #[trigger]
        dirs.to_multiset().count(f) == (if f.is_dir {
            found.to_multiset().count(f)
        } else {
            0
        }) by {
        crate::sorting::lemma_filter_counts(found, is_dir, f);
    }
    assert forall|f: FoundFile| #[trigger]
        files.to_multiset().count(f) == (if !f.is_dir && f.is_vma {
            found.to_multiset().count(f)
        } else {
            0
        }) by {
        crate::sorting::lemma_filter_counts(found, is_file, f);
    }
    assert(lists_by_name(list, found, dirs, files));
}

proof fn lemma_ranked_by_name(s: Seq<FoundFile>)
    ensures
        by_name(ranked(s)),
{
    crate::sorting::law_sorted_list_is_in_order(s);
    let r = ranked(s);
    assert forall|i: int, j: int| 0 <= i < j < r.len() implies !bytes_before(
        (#[trigger] r[j]).name@,
        (#[trigger] r[i]).name@,
    ) by {
        assert(!r[i].goes_after(r[j]));
    }
}

/// A directory that was read is shown, with its first entry selected and no archive open; a file
/// that the browser is started at waits to be opened.
pub proof fn law_directory_is_shown(
    s: AppState,
    path: PathBuf,
    found: Option<Seq<FoundFile>>,
    is_file: bool,
)
    ensures
        ({
            let t = directory_loaded(s, path, found);
            let u = started(s, path, is_file, found);
            &&& found matches Some(f) ==> t.items == file_list(f)
            &&& found is None ==> t.items.len() == 0
            &&& t.items.len() > 0 ==> t.list_selected == Some(0usize)
            &&& t.current_path == path
            &&& t.view_mode == ViewMode::FileList
            &&& t.vma is None
            &&& t.partitions.len() == 0
            &&& t.selected_device == 0 && t.config_scroll == 0
            &&& t.quit == s.quit && t.pending_op == s.pending_op && t.status_msg == s.status_msg
            &&& is_file ==> u.pending_op == Some(PendingOp::LoadVma(path))
            &&& !is_file ==> u == t
            &&& u.items == t.items && u.view_mode == t.view_mode && u.current_path == path
        }),
{
}

/// An archive that was opened is shown, with its first device and nothing of a former one; one
/// that could not be opened leaves all as it was but for the message.
pub proof fn law_archive_is_shown(s: AppState, a: ArchiveView)
    ensures
        ({
            let t = vma_loaded(s, Some(a));
            &&& t.vma == Some(a)
            &&& t.view_mode == ViewMode::VmaInfo
            &&& t.selected_device == 0
            &&& t.partitions.len() == 0
            &&& t.status_msg.len() == 0
            &&& t.items == s.items && t.current_path == s.current_path && t.list_selected
                == s.list_selected && t.quit == s.quit
            &&& vma_loaded(s, None) == (AppState { status_msg: "Building VMA index..."@, ..s })
        }),
{
}

/// The partitions of the selected device are shown from the first: those of its table, each with
/// the file system that was found, after the device itself where that holds one.
pub proof fn law_partitions_are_shown(s: AppState, r: PartitionRead, i: int)
    requires
        has_chosen_device(s),
        0 <= i < partition_table(r.data@).len(),
    ensures
        ({
            let t = partitions_loaded(s, Some(r));
            let dev = (s.vma->0).devices[s.selected_device as int];
            let table = partition_table(r.data@);
            let first = if raw_fs(r.data@).len() > 0 { 1int } else { 0 };
            &&& t.view_mode == ViewMode::PartitionTable
            &&& t.partition_scroll == 0
            &&& t.status_msg.len() == 0
            &&& t.vma == s.vma && t.selected_device == s.selected_device
            &&& t.partitions.len() == table.len() + first
            &&& first == 1 ==> t.partitions[0].byte_offset == 0 && t.partitions[0].byte_length
                == dev.size && t.partitions[0].fs_type == raw_fs(r.data@)
            &&& t.partitions[i + first].byte_offset == table[i].byte_offset
            &&& t.partitions[i + first].byte_length == table[i].byte_length
            &&& t.partitions[i + first].start_sector == table[i].start_sector
            &&& t.partitions[i + first].num_sectors == table[i].num_sectors
            &&& t.partitions[i + first].name == table[i].name
            &&& t.partitions[i + first].type_guid == table[i].type_guid
            &&& partitions_loaded(s, None) == (AppState {
                status_msg: "Reading partition table..."@,
                ..s
            })
        }),
{
    let table = partition_table(r.data@);
    let dev = chosen_device(s);
    let probed = all_probed(table, r.data@, r.probes@);
    let fs = raw_fs(r.data@);
    crate::probe::law_device_goes_before_its_partitions(probed, dev.name, dev.size, fs);
    let all = with_raw(probed, dev.name, dev.size, fs);
    if fs.len() > 0 {
        assert(all.drop_first()[i] == all[i + 1]);
    }
}

/// For the hex view up to 8192 bytes of a partition are read from its start, and up to 65536 of
/// a device; they are shown from the first row.
pub proof fn law_hex_view_starts_at_the_first_byte(
    s: AppState,
    p: PartitionView,
    size: u64,
    data: Seq<u8>,
    title: Seq<char>,
)
    ensures
        hex_range(p).0 == p.byte_offset,
        hex_range(p).1 <= 8192 && hex_range(p).1 <= p.byte_length,
        hex_range(p).1 == 8192 || hex_range(p).1 == p.byte_length,
        raw_hex_len(size) <= 65536 && raw_hex_len(size) <= size,
        raw_hex_len(size) == 65536 || raw_hex_len(size) == size,
        hex_shown(s, data, title).hex_data == data,
        hex_shown(s, data, title).hex_scroll == 0,
        hex_shown(s, data, title).hex_title == title,
        hex_shown(s, data, title).view_mode == ViewMode::HexView,
        hex_shown(s, data, title).status_msg.len() == 0,
        hex_shown(s, data, title).partitions == s.partitions,
        hex_shown(s, data, title).vma == s.vma,
        hex_shown(s, data, title).dirlist == s.dirlist,
{
}

/// The bytes that were read are the ones that are shown, under a title that names the partition,
/// the device or the file; what could not be read changes nothing but the message, and only a
/// regular file is shown.
pub proof fn law_hex_views_have_titles(s: AppState, i: int, data: Seq<u8>)
    ensures
        partition_hex_loaded(s, i, Some(data)) == hex_shown(
            s,
            data,
            s.partitions[i].name + " ("@ + s.partitions[i].fs_type + ")"@,
        ),
        partition_hex_loaded(s, i, None) == (AppState {
            status_msg: "Reading "@ + s.partitions[i].name + "..."@,
            ..s
        }),
        s.vma matches Some(a) ==> device_raw_loaded(s, Some(data)) == hex_shown(
            s,
            data,
            a.devices[s.selected_device as int].name + " (raw, first 64KB)"@,
        ),
        device_raw_loaded(s, None) == (AppState { status_msg: "Reading raw data..."@, ..s }),
        s.dirlist[i].file_type == 1 ==> file_hex_loaded(s, i, Some(data)) == hex_shown(
            s,
            data,
            s.dirlist[i].name + " ("@ + s.current_dir.1 + ")"@,
        ),
        s.dirlist[i].file_type == 1 ==> file_hex_loaded(s, i, None) == (AppState {
            status_msg: "Reading "@ + s.dirlist[i].name + "..."@,
            ..s
        }),
        s.dirlist[i].file_type != 1 ==> file_hex_loaded(s, i, Some(data)) == s && file_hex_loaded(
            s,
            i,
            None,
        ) == s,
{
}

/// A file system is browsed from its root directory, on the range of its partition.
pub proof fn law_browsing_starts_at_the_root(s: AppState, pi: int, r: FsReadView)
    ensures
        ({
            let t = fs_opened(s, pi, Some(r));
            &&& t.fs_offset == s.partitions[pi].byte_offset
            &&& t.fs_length == s.partitions[pi].byte_length
            &&& t.fs_type == r.fs_type && t.total_blocks == r.total_blocks
            &&& t.dirlist == r.entries
            &&& r.entries.len() > 0 ==> t.dir_selected == Some(0usize)
            &&& t.current_dir.0 == 2 && t.current_dir.1 == "/"@
            &&& t.breadcrumbs == seq![t.current_dir]
            &&& t.view_mode == ViewMode::FsBrowse
            &&& t.status_msg.len() == 0
            &&& t.partitions == s.partitions && t.vma == s.vma
        }),
        ({
            let t = fs_opened(s, pi, None);
            &&& t.view_mode == s.view_mode && t.dirlist == s.dirlist && t.current_dir
                == s.current_dir && t.breadcrumbs == s.breadcrumbs
            &&& t.status_msg == "Opening ext4 on "@ + s.partitions[pi].name + "..."@
        }),
{
}

/// Opening an entry leads into a directory, back from one by two dots, where there is a way back,
/// and nowhere by one dot, a file or an entry without an inode.
pub proof fn law_entries_lead_into_directories(s: AppState, idx: int)
    ensures
        ({
            let e = s.dirlist[idx];
            let n = s.breadcrumbs.len();
            let one = e.name.len() == 1 && e.name[0] == '.';
            let two = e.name.len() == 2 && e.name[0] == '.' && e.name[1] == '.';
            &&& e.ino == 0 ==> visit_into(s, idx) == Visit::Stay
            &&& e.ino != 0 && two && n > 1 ==> visit_into(s, idx) == (Visit::Back {
                ino: s.breadcrumbs[n - 2].0,
            })
            &&& e.ino != 0 && one ==> visit_into(s, idx) == Visit::Stay
            &&& e.ino != 0 && e.file_type != 2 && !(two && n > 1) ==> visit_into(s, idx)
                == Visit::Stay
            &&& e.ino != 0 && e.file_type == 2 && !one && !(two && n > 1) ==> visit_into(s, idx)
                == (Visit::Into { ino: e.ino })
            &&& n <= 1 ==> visit_back(s) == Visit::Stay
            &&& n > 1 ==> visit_back(s) == (Visit::Back { ino: s.breadcrumbs[n - 2].0 })
        }),
{
    reveal_strlit(".");
    reveal_strlit("..");
    let name = s.dirlist[idx].name;
    if name.len() == 1 && name[0] == '.' {
        assert(name =~= "."@);
    }
    if name.len() == 2 && name[0] == '.' && name[1] == '.' {
        assert(name =~= ".."@);
    }
}

/// A directory that was opened is the current one, its path the one before it with a slash and
/// its name; its entries are listed, the first of them selected. Where its entries could not be
/// read, all stays as it was.
pub proof fn law_opened_directory_is_listed(s: AppState, idx: int, entries: Seq<DirEntryView>)
    requires
        visit_into(s, idx) is Into,
    ensures
        ({
            let t = after_into(s, idx, Some(entries));
            &&& t.current_dir.0 == s.dirlist[idx].ino
            &&& t.current_dir.1 == s.current_dir.1 + "/"@ + s.dirlist[idx].name
            &&& t.breadcrumbs == s.breadcrumbs.push(t.current_dir)
            &&& t.dirlist == entries
            &&& entries.len() > 0 ==> t.dir_selected == Some(0usize)
            &&& t.view_mode == s.view_mode
            &&& after_into(s, idx, None) == s
        }),
{
}

/// Only a regular file is extracted; what is said names it and its size.
pub proof fn law_regular_files_are_extracted(s: AppState, idx: int, n: usize)
    ensures
        s.dirlist[idx].file_type == 1 ==> file_extracted(s, idx, Some(n)) == (AppState {
            status_msg: "Extracted "@ + s.dirlist[idx].name + " ("@ + decimal(n as nat)
                + " bytes)"@,
            ..s
        }),
        s.dirlist[idx].file_type == 1 ==> file_extracted(s, idx, None) == (AppState {
            status_msg: "Extracting "@ + s.dirlist[idx].name + "..."@,
            ..s
        }),
        s.dirlist[idx].file_type != 1 ==> file_extracted(s, idx, Some(n)) == s && file_extracted(
            s,
            idx,
            None,
        ) == s,
        forall|w: Result<usize, AppError>| #[trigger]
            extract_result(s.dirlist[idx], w) is Ok <==> s.dirlist[idx].file_type == 1 && w is Ok,
{
}

/// The browser starts with the file list, with nothing loaded, selected or waiting, and with the
/// root as the directory of any file system.
pub proof fn law_browser_starts_empty(path: PathBuf)
    ensures
        ({
            let s = fresh(path);
            &&& s.current_path == path
            &&& s.view_mode == ViewMode::FileList
            &&& s.items.len() == 0 && s.list_selected is None
            &&& !s.quit && !s.show_help
            &&& s.status_msg.len() == 0
            &&& s.pending_op is None && s.vma is None && s.dump_path is None
            &&& s.selected_device == 0 && s.config_scroll == 0
            &&& s.partitions.len() == 0 && s.partition_scroll == 0
            &&& s.dirlist.len() == 0 && s.dir_selected is None && s.breadcrumbs.len() == 0
            &&& s.current_dir.0 == 2 && s.current_dir.1 == "/"@
            &&& s.hex_data.len() == 0 && s.hex_scroll == 0
        }),
{
}

/// Going back makes the directory above the current one, also where its entries could not be
/// read; then the former ones stay listed. Without a way back nothing changes.
pub proof fn law_back_goes_to_the_directory_above(s: AppState, entries: Seq<DirEntryView>)
    ensures
        s.breadcrumbs.len() <= 1 ==> after_back(s, Some(entries)) == s && after_back(s, None) == s,
        s.breadcrumbs.len() > 1 ==> {
            let n = s.breadcrumbs.len();
            let t = after_back(s, Some(entries));
            let u = after_back(s, None);
            &&& t.breadcrumbs == s.breadcrumbs.take(n - 1)
            &&& t.current_dir == s.breadcrumbs[n - 2]
            &&& t.dirlist == entries
            &&& entries.len() > 0 ==> t.dir_selected == Some(0usize)
            &&& t.view_mode == s.view_mode
            &&& u.breadcrumbs == t.breadcrumbs && u.current_dir == t.current_dir
            &&& u.dirlist == s.dirlist && u.dir_selected == s.dir_selected
        },
{
    if s.breadcrumbs.len() > 1 {
        assert(s.breadcrumbs.drop_last() =~= s.breadcrumbs.take(s.breadcrumbs.len() - 1));
    }
}

/// Two dots in a directory that is browsed lead back like the key for it.
pub proof fn law_dots_lead_back(s: AppState, idx: int, read: Option<Seq<DirEntryView>>)
    requires
        s.breadcrumbs.len() > 1,
        s.dirlist[idx].ino != 0,
        s.dirlist[idx].name.len() == 2 && s.dirlist[idx].name[0] == '.' && s.dirlist[idx].name[1]
            == '.',
    ensures
        after_into(s, idx, read) == after_back(s, read),
{
    law_entries_lead_into_directories(s, idx);
}

/// An operation succeeds exactly where what it was given did, and fails with the same error.
pub proof fn law_errors_are_passed_on(r: Result<(), AppError>, given: Result<Vec<u8>, AppError>)
    requires
        passes_on(r, given),
    ensures
        r is Ok <==> given is Ok,
        given matches Err(e) ==> r == Err::<(), AppError>(e),
        given matches Ok(b) ==> bytes_read(given) == Some(b@) && succeeded(given) == Some(b),
        given is Err ==> bytes_read(given) is None && succeeded(given) is None,
{
}

/// The entries that were read are listed one by one; a failure gives none.
pub proof fn law_entries_come_from_the_reading(given: Result<Vec<DirEntry>, AppError>)
    ensures
        given matches Ok(v) ==> entries_read(given) == Some(listed(v@)),
        given is Err ==> entries_read(given) is None,
{
}

/// What is said of an operation that is not possible.
pub proof fn law_messages_tell_what_is_missing(e: VmaError)
    ensures
        app_message(AppError::NoVma) == "no VMA"@,
        app_message(AppError::NotRegularFile) == "Not a regular file"@,
        app_message(AppError::Device(e)) == vma_message(e, ""@),
{
}

/// The state of the browser is what its parts hold.
pub proof fn law_state_is_what_the_browser_holds(a: App, i: int)
    ensures
        a@.items == a.items@ && a@.list_selected == a.list_state && a@.current_path
            == a.current_path,
        a@.view_mode == a.view_mode && a@.quit == a.quit && a@.show_help == a.show_help,
        a@.status_msg == a.status_msg@ && a@.pending_op == a.pending_op,
        a.vma matches Some(v) ==> a@.vma == Some(v@),
        a.vma is None ==> a@.vma is None,
        a@.selected_device == a.selected_device && a@.config_scroll == a.config_scroll,
        a@.partitions == shown(a.partitions@) && a@.partition_scroll == a.partition_scroll,
        a@.fs_offset == a.ext4_partition_offset && a@.fs_length == a.ext4_partition_length,
        a@.dirlist == listed(a.ext4_dirlist@) && a@.dir_selected == a.ext4_dirlist_state,
        a@.current_dir.0 == a.ext4_current_dir.0 && a@.current_dir.1 == a.ext4_current_dir.1@,
        a@.breadcrumbs.len() == a.ext4_breadcrumbs@.len(),
        0 <= i < a.ext4_breadcrumbs@.len() ==> a@.breadcrumbs[i].0 == a.ext4_breadcrumbs@[i].0
            && a@.breadcrumbs[i].1 == a.ext4_breadcrumbs@[i].1@,
        a@.fs_type == a.ext4_fs_type@ && a@.total_blocks == a.ext4_total_blocks,
        a@.hex_data == a.hex_data@ && a@.hex_scroll == a.hex_scroll && a@.hex_title == a.hex_title@,
        a@.dump_path == a.dump_path,
{
}

/// What is not a regular file is refused, and a failure to extract one is passed on.
pub proof fn law_refusals_and_failures_are_told(e: DirEntryView, w: Result<usize, AppError>)
    ensures
        e.file_type != 1 ==> extract_result(e, w) == Err::<(), ExtractError<AppError>>(
            ExtractError::Refused(AppError::NotRegularFile),
        ),
        e.file_type == 1 ==> (w matches Err(x) ==> extract_result(e, w) == Err::<
            (),
            ExtractError<AppError>,
        >(ExtractError::Failed(x))),
{
}

/// Each operation leaves alone what it is not about: loading a directory the file system that was
/// browsed and the hex view, opening an archive the file list, showing bytes all but the hex view,
/// and browsing all but the directories.
pub proof fn law_operations_change_nothing_else(
    s: AppState,
    path: PathBuf,
    found: Option<Seq<FoundFile>>,
    opened: Option<ArchiveView>,
    parts: Option<PartitionRead>,
    fs: Option<FsReadView>,
    pi: int,
    idx: int,
    read: Option<Seq<DirEntryView>>,
    data: Seq<u8>,
    title: Seq<char>,
)
    ensures
        ({
            let t = directory_loaded(s, path, found);
            t == (AppState {
                items: t.items,
                list_selected: t.list_selected,
                current_path: t.current_path,
                view_mode: t.view_mode,
                vma: t.vma,
                partitions: t.partitions,
                selected_device: t.selected_device,
                config_scroll: t.config_scroll,
                ..s
            })
        }),
        ({
            let t = vma_loaded(s, opened);
            t == (AppState {
                selected_device: t.selected_device,
                partitions: t.partitions,
                vma: t.vma,
                view_mode: t.view_mode,
                status_msg: t.status_msg,
                ..s
            })
        }),
        ({
            let t = partitions_loaded(s, parts);
            t == (AppState {
                partitions: t.partitions,
                partition_scroll: t.partition_scroll,
                view_mode: t.view_mode,
                status_msg: t.status_msg,
                ..s
            })
        }),
        ({
            let t = hex_shown(s, data, title);
            t == (AppState {
                hex_data: t.hex_data,
                hex_scroll: t.hex_scroll,
                hex_title: t.hex_title,
                view_mode: t.view_mode,
                status_msg: t.status_msg,
                ..s
            })
        }),
        ({
            let t = fs_opened(s, pi, fs);
            t == (AppState {
                fs_offset: t.fs_offset,
                fs_length: t.fs_length,
                fs_type: t.fs_type,
                total_blocks: t.total_blocks,
                current_dir: t.current_dir,
                breadcrumbs: t.breadcrumbs,
                dirlist: t.dirlist,
                dir_selected: t.dir_selected,
                view_mode: t.view_mode,
                status_msg: t.status_msg,
                ..s
            })
        }),
        ({
            let t = after_into(s, idx, read);
            t == (AppState {
                current_dir: t.current_dir,
                breadcrumbs: t.breadcrumbs,
                dirlist: t.dirlist,
                dir_selected: t.dir_selected,
                ..s
            })
        }),
        ({
            let t = after_back(s, read);
            t == (AppState {
                current_dir: t.current_dir,
                breadcrumbs: t.breadcrumbs,
                dirlist: t.dirlist,
                dir_selected: t.dir_selected,
                ..s
            })
        }),
{
}

/// An empty list has nothing to select: the selection stays as it was.
pub proof fn law_empty_lists_keep_the_selection(
    s: AppState,
    path: PathBuf,
    pi: int,
    idx: int,
    r: FsReadView,
)
    ensures
        directory_loaded(s, path, None).list_selected == s.list_selected,
        r.entries.len() == 0 ==> {
            &&& fs_opened(s, pi, Some(r)).dir_selected == s.dir_selected
            &&& after_into(s, idx, Some(r.entries)).dir_selected == s.dir_selected
            &&& after_back(s, Some(r.entries)).dir_selected == s.dir_selected
        },
        forall|found: Seq<FoundFile>|
            (#[trigger] file_list(found)).len() == 0 ==> directory_loaded(
                s,
                path,
                Some(found),
            ).list_selected == s.list_selected,
{
}

} // verus!
