//! The state of the browser, its keys and its screens.

use std::path::PathBuf;
use std::time::SystemTime;

use vzdump_browser::app::{
    is_backup_name, list_files, App, AppError, ExtractError, FileEntry, FoundFile, FsRead, PartitionRead,
    PendingOp, Visit,
};
use vzdump_browser::ext4::DirEntry;
use vzdump_browser::keys::{
    can_handle_key, handle_filelist, handle_fsbrowse, handle_hex, handle_key, handle_partitions,
    handle_vma, Action, Key,
};
use vzdump_browser::partition::Partition;
use vzdump_browser::ui::{
    can_render, config_line, dir_title_text, entry_line, file_line, gen_hex, help_lines,
    name_can_be_shown, partition_line, push_seen, render, status_text, title_text, vma_info_text,
    Body, ViewMode,
};
use vzdump_browser::vma::{ArchiveScan, VmaArchive, VmaError};

fn put_be32(d: &mut [u8], o: usize, n: u32) {
    d[o..o + 4].copy_from_slice(&n.to_be_bytes());
}

/// An archive with devices of these names and sizes, and so many configuration files.
fn archive(devices: &[(&str, u64)], configs: usize) -> VmaArchive {
    let mut d = vec![0u8; 16384];
    d[0..4].copy_from_slice(b"VMA\0");
    put_be32(&mut d, 48, 12288);
    put_be32(&mut d, 52, 4096);
    let mut p = 12289;
    let mut blob = |d: &mut Vec<u8>, text: &str| -> u32 {
        let key = (p - 12288) as u32;
        d[p..p + 2].copy_from_slice(&(text.len() as u16).to_le_bytes());
        d[p + 2..p + 2 + text.len()].copy_from_slice(text.as_bytes());
        p += 2 + text.len();
        key
    };
    for (i, (name, size)) in devices.iter().enumerate() {
        let key = blob(&mut d, name);
        put_be32(&mut d, 4096 + 32 * i, key);
        d[4096 + 32 * i + 8..4096 + 32 * i + 16].copy_from_slice(&size.to_be_bytes());
    }
    for i in 0..configs {
        let name = blob(&mut d, &format!("c{}.conf", i));
        let value = blob(&mut d, "cores: 2\nmem: 4\n");
        put_be32(&mut d, 2044 + 4 * i, name);
        put_be32(&mut d, 3068 + 4 * i, value);
    }
    match ArchiveScan::new(&d, 16384) {
        Ok(scan) => VmaArchive::open(PathBuf::from("a.vma"), scan),
        Err(_) => panic!("header"),
    }
}

fn app_with(devices: &[(&str, u64)], configs: usize) -> App {
    let mut app = App::new(PathBuf::from("/backups"));
    assert_eq!(app.load_vma::<u8>(Ok(archive(devices, configs))), Ok(()));
    app
}

fn found(name: &str, is_dir: bool, size: u64) -> FoundFile {
    FoundFile::new(
        PathBuf::from("/backups").join(name),
        name.as_bytes().to_vec(),
        is_dir,
        size,
        SystemTime::UNIX_EPOCH,
    )
}

fn entry(ino: u32, name: &str, file_type: u8) -> DirEntry {
    DirEntry { ino, name: name.to_string(), file_type }
}

fn partition(name: &str, fs: &str, offset: u64, sectors: u64) -> Partition {
    Partition {
        number: 1,
        name: name.to_string(),
        start_sector: offset / 512,
        num_sectors: sectors,
        type_guid: "83".to_string(),
        fs_type: fs.to_string(),
        byte_offset: offset,
        byte_length: sectors * 512,
    }
}

fn names(items: &[FileEntry]) -> Vec<String> {
    items.iter().map(|i| i.path.file_name().unwrap().to_string_lossy().to_string()).collect()
}

// ---------------------------------------------------------------- file list

#[test]
fn backups_have_known_endings() {
    for name in ["a.vma", "a.vma.zst", "a.vma.xz", ".vma"] {
        assert!(is_backup_name(name), "{}", name);
    }
    for name in ["a.vma.gz", "vma", "a.vmax", ""] {
        assert!(!is_backup_name(name), "{}", name);
    }
}

#[test]
fn file_list_has_directories_then_backups() {
    let items = list_files(vec![
        found("z.vma", false, 10),
        found("notes.txt", false, 10),
        found("dir2", true, 4096),
        found("a.vma.zst", false, 20),
        found("Dir.vma", true, 4096),
    ]);
    assert_eq!(names(&items), vec!["Dir.vma", "dir2", "a.vma.zst", "z.vma"]);
    assert_eq!((items[0].is_dir, items[0].size, items[0].is_vma), (true, 0, true));
    assert_eq!((items[1].is_dir, items[1].size, items[1].is_vma), (true, 0, false));
    assert_eq!((items[2].is_dir, items[2].size, items[2].is_vma), (false, 20, true));
    let odd = FoundFile::new(
        PathBuf::from("x"),
        b"\xff.vma".to_vec(),
        false,
        1,
        SystemTime::UNIX_EPOCH,
    );
    assert!(odd.is_vma);
    let copy = items[3].clone();
    assert_eq!((copy.path, copy.size, copy.modified), (PathBuf::from("/backups/z.vma"), 10, SystemTime::UNIX_EPOCH));
}

#[test]
fn loading_a_directory_resets_the_browser() {
    let mut app = app_with(&[("disk", 100)], 0);
    app.selected_device = 0;
    app.config_scroll = 3;
    app.partitions = vec![partition("P1", "ext4", 512, 1)];
    app.load_directory(PathBuf::from("/x"), Some(vec![found("a.vma", false, 1)]));
    assert_eq!(app.view_mode, ViewMode::FileList);
    assert!(app.vma.is_none());
    assert!(app.partitions.is_empty());
    assert_eq!(app.config_scroll, 0);
    assert_eq!(app.list_state, Some(0));
    assert_eq!(app.current_path, PathBuf::from("/x"));
    app.load_directory(PathBuf::from("/y"), None);
    assert!(app.items.is_empty());
    assert_eq!(app.list_state, Some(0));
}

#[test]
fn an_archive_can_be_opened_at_the_start() {
    let mut app = App::new(PathBuf::from("a.vma"));
    app.start_at(PathBuf::from("a.vma"), true, None);
    assert!(matches!(app.execute_pending(), Some(PendingOp::LoadVma(p)) if p == PathBuf::from("a.vma")));
    assert!(app.pending_op.is_none());
    app.start_at(PathBuf::from("/x"), false, Some(Vec::new()));
    assert!(app.execute_pending().is_none());
}

#[test]
fn file_list_keys() {
    let mut app = App::new(PathBuf::from("/backups"));
    assert!(matches!(handle_filelist(Key::Down, &mut app), Action::Nothing));
    assert_eq!(app.list_state, None);
    app.load_directory(
        PathBuf::from("/backups"),
        Some(vec![found("d", true, 0), found("a.vma", false, 1)]),
    );
    handle_filelist(Key::Char('k'), &mut app);
    assert_eq!(app.list_state, Some(0));
    assert!(matches!(
        handle_filelist(Key::Enter, &mut app),
        Action::OpenDirectory(p) if p == PathBuf::from("/backups/d")
    ));
    handle_filelist(Key::Char('j'), &mut app);
    handle_filelist(Key::Down, &mut app);
    assert_eq!(app.list_state, Some(1));
    assert!(matches!(handle_filelist(Key::Char('l'), &mut app), Action::Nothing));
    assert!(matches!(&app.pending_op, Some(PendingOp::LoadVma(p)) if *p == PathBuf::from("/backups/a.vma")));
    assert!(matches!(handle_filelist(Key::Backspace, &mut app), Action::OpenParent));
    assert!(!app.quit);
    handle_filelist(Key::Char('q'), &mut app);
    assert!(app.quit);
}

// ---------------------------------------------------------------- archive

#[test]
fn archives_are_shown_or_not() {
    let mut app = App::new(PathBuf::from("/backups"));
    assert!(!app.has_device_data());
    assert_eq!(app.load_vma(Err(7u8)), Err(7));
    assert_eq!(app.status_msg, "Building VMA index...");
    assert_eq!(app.view_mode, ViewMode::FileList);
    assert_eq!(app.load_vma::<u8>(Ok(archive(&[("disk", 5)], 0))), Ok(()));
    assert_eq!(app.status_msg, "");
    assert_eq!(app.view_mode, ViewMode::VmaInfo);
    assert!(app.has_device_data());
    app.clear_device();
    assert!(app.has_device_data());
}

#[test]
fn readers_need_an_archive_and_a_device() {
    let mut app = App::new(PathBuf::from("/backups"));
    assert!(matches!(app.dev_reader(), Err(AppError::NoVma)));
    assert_eq!(AppError::NoVma.message(), "no VMA");
    app = app_with(&[("disk", 70000)], 0);
    assert!(matches!(app.dev_reader(), Ok(r) if r.size() == 70000 && r.position() == 0));
    assert!(matches!(app.part_reader(512, 1024), Ok(p) if p.start() == 512 && p.len() == 1024));
    app.selected_device = 1;
    assert!(matches!(app.dev_reader(), Err(AppError::Device(VmaError::BadDeviceIndex))));
    assert!(matches!(app.part_reader(0, 1), Err(AppError::Device(_))));
    assert_eq!(AppError::Device(VmaError::BadDeviceIndex).message(), "bad device index");
}

#[test]
fn archive_keys() {
    let mut app = app_with(&[("a", 5), ("b", 6)], 3);
    handle_vma(Key::Char('w'), &mut app);
    assert_eq!(app.selected_device, 0);
    handle_vma(Key::Char('s'), &mut app);
    handle_vma(Key::Char('s'), &mut app);
    assert_eq!(app.selected_device, 1);
    for _ in 0..5 {
        handle_vma(Key::Down, &mut app);
    }
    assert_eq!(app.config_scroll, 2);
    handle_vma(Key::Up, &mut app);
    assert_eq!(app.config_scroll, 1);
    handle_vma(Key::Char('p'), &mut app);
    assert!(matches!(app.execute_pending(), Some(PendingOp::LoadPartitions)));
    handle_vma(Key::Char('x'), &mut app);
    assert!(matches!(app.execute_pending(), Some(PendingOp::LoadDeviceRaw)));
    handle_vma(Key::Char('t'), &mut app);
    assert_eq!(app.view_mode, ViewMode::FileList);
}

// ---------------------------------------------------------------- partitions

fn table_bytes() -> Vec<u8> {
    let mut d = vec![0u8; 4096];
    d[510] = 0x55;
    d[511] = 0xAA;
    d[450] = 0x83;
    d[454] = 4;
    d[458] = 2;
    d[466] = 0x83;
    d[470] = 100;
    d[474] = 8;
    d[2048..2052].copy_from_slice(b"XFSB");
    d
}

#[test]
fn partitions_are_shown_with_their_file_systems() {
    let mut app = app_with(&[("scsi/0", 1 << 20)], 0);
    assert_eq!(app.plan_partitions(), 1 << 20);
    assert_eq!(app.load_partitions(Err(1u8)), Err(1));
    assert_eq!(app.status_msg, "Reading partition table...");
    assert_eq!(app.view_mode, ViewMode::VmaInfo);
    app.partition_scroll = 9;
    let mut probe = vec![0u8; 2048];
    probe[1080] = 0x53;
    probe[1081] = 0xEF;
    let read = PartitionRead {
        data: table_bytes(),
        probes: vec![None, Some(probe)],
    };
    assert_eq!(app.load_partitions::<u8>(Ok(read)), Ok(()));
    let fs: Vec<(&str, &str)> =
        app.partitions.iter().map(|p| (p.name.as_str(), p.fs_type.as_str())).collect();
    assert_eq!(fs, vec![("P1", "XFS"), ("P2", "ext4")]);
    assert_eq!(app.partition_scroll, 0);
    assert_eq!(app.view_mode, ViewMode::PartitionTable);
    assert_eq!(app.dump_path, None);
    assert_eq!(app.status_msg, "");
}

#[test]
fn a_device_with_a_file_system_is_listed_first() {
    let mut app = app_with(&[("disk", 1 << 20)], 0);
    let mut data = table_bytes();
    data[0..4].copy_from_slice(b"LVM2");
    let read = PartitionRead { data, probes: vec![None, None] };
    assert_eq!(app.load_partitions::<u8>(Ok(read)), Ok(()));
    let fs: Vec<(&str, &str)> =
        app.partitions.iter().map(|p| (p.name.as_str(), p.fs_type.as_str())).collect();
    assert_eq!(fs, vec![("Raw device (disk)", "LVM2"), ("P1", "XFS"), ("P2", "Linux")]);
}

#[test]
fn partition_keys() {
    let mut app = app_with(&[("disk", 5)], 0);
    handle_partitions(Key::Enter, &mut app);
    assert!(app.pending_op.is_none());
    app.partitions = vec![partition("P1", "ext4", 512, 1), partition("P2", "swap", 1024, 1)];
    app.view_mode = ViewMode::PartitionTable;
    handle_partitions(Key::Enter, &mut app);
    assert!(matches!(app.execute_pending(), Some(PendingOp::BrowsePartitionFs(0))));
    handle_partitions(Key::Down, &mut app);
    handle_partitions(Key::Down, &mut app);
    assert_eq!(app.partition_scroll, 1);
    handle_partitions(Key::Right, &mut app);
    assert!(matches!(app.execute_pending(), Some(PendingOp::LoadPartitionHex(1))));
    handle_partitions(Key::Up, &mut app);
    assert_eq!(app.partition_scroll, 0);
    handle_partitions(Key::Char('x'), &mut app);
    assert!(matches!(app.execute_pending(), Some(PendingOp::LoadDeviceRaw)));
    handle_partitions(Key::Char('h'), &mut app);
    assert_eq!(app.view_mode, ViewMode::VmaInfo);
    app.view_mode = ViewMode::PartitionTable;
    app.partition_scroll = 2;
    assert!(!can_handle_key(Key::Enter, &app));
    assert!(can_handle_key(Key::Up, &app));
}

// ---------------------------------------------------------------- hex view

#[test]
fn hex_views_of_partitions_and_devices() {
    let mut app = app_with(&[("disk", 100_000)], 0);
    app.partitions = vec![partition("P1", "ext4", 512, 4), partition("P2", "swap", 1024, 100)];
    assert_eq!(app.plan_partition_hex(0), (512, 2048));
    assert_eq!(app.plan_partition_hex(1), (1024, 8192));
    assert_eq!(app.plan_device_raw(), 65536);
    assert_eq!(app.load_partition_hex(1, Err(4u8)), Err(4));
    assert_eq!(app.status_msg, "Reading P2...");
    app.hex_scroll = 4;
    assert_eq!(app.load_partition_hex::<u8>(1, Ok(vec![1, 2])), Ok(()));
    assert_eq!((app.hex_title.as_str(), app.hex_scroll), ("P2 (swap)", 0));
    assert_eq!(app.hex_data, vec![1, 2]);
    assert_eq!(app.view_mode, ViewMode::HexView);
    assert_eq!(app.load_device_raw(Err(4u8)), Err(4));
    assert_eq!(app.status_msg, "Reading raw data...");
    assert_eq!(app.load_device_raw::<u8>(Ok(vec![3])), Ok(()));
    assert_eq!(app.hex_title, "disk (raw, first 64KB)");
    assert_eq!(app.status_msg, "");
}

#[test]
fn hex_keys() {
    let mut app = app_with(&[("disk", 5)], 0);
    app.view_mode = ViewMode::HexView;
    app.hex_data = vec![0u8; 48];
    for _ in 0..5 {
        handle_hex(Key::Char('j'), &mut app);
    }
    assert_eq!(app.hex_scroll, 2);
    handle_hex(Key::PageDown, &mut app);
    assert_eq!(app.hex_scroll, 22);
    handle_hex(Key::PageUp, &mut app);
    handle_hex(Key::PageUp, &mut app);
    assert_eq!(app.hex_scroll, 0);
    handle_hex(Key::Up, &mut app);
    assert_eq!(app.hex_scroll, 0);
    app.hex_scroll = usize::MAX;
    assert!(!can_handle_key(Key::PageDown, &app));
    handle_hex(Key::Char('q'), &mut app);
    assert_eq!(app.view_mode, ViewMode::VmaInfo);
    app.partitions = vec![partition("P1", "", 0, 1)];
    handle_hex(Key::Char('t'), &mut app);
    assert_eq!(app.view_mode, ViewMode::PartitionTable);
    let mut app = App::new(PathBuf::from("/"));
    app.view_mode = ViewMode::HexView;
    handle_hex(Key::Backspace, &mut app);
    assert_eq!(app.view_mode, ViewMode::FileList);
}

#[test]
fn hex_view_has_rows_of_sixteen_bytes() {
    assert_eq!(gen_hex(&[], 5), "No data");
    let data: Vec<u8> = (0..20u8).map(|i| i + 60).collect();
    assert_eq!(
        gen_hex(&data, 0),
        "00000000  3C 3D 3E 3F 40 41 42 43  44 45 46 47 48 49 4A 4B  |<=>?@ABCDEFGHIJK|\n\
         00000010  4C 4D 4E 4F   |LMNO|\n"
    );
    assert_eq!(gen_hex(&data, 1), "00000010  4C 4D 4E 4F   |LMNO|\n");
    assert_eq!(gen_hex(&data, 2), "");
    assert_eq!(gen_hex(&vec![0u8; 1000], 0).lines().count(), 24);
    assert_eq!(gen_hex(&vec![0u8; 1000], 60).lines().count(), 3);
    assert_eq!(gen_hex(&[0x1f, 0x20, 0x7e, 0x7f], 0), "00000000  1F 20 7E 7F   |. ~.|\n");
    let mut s = String::new();
    push_seen(&mut s, &[0x41, 0xff, 0x42], 1, 3);
    assert_eq!(s, ".B");
}

// ---------------------------------------------------------------- file system browser

fn browsing() -> App {
    let mut app = app_with(&[("disk", 1 << 20)], 0);
    app.partitions = vec![partition("P1", "ext4", 2048, 64)];
    let read = FsRead {
        fs_type: "ext4".to_string(),
        total_blocks: 77,
        entries: vec![
            entry(2, ".", 2),
            entry(2, "..", 2),
            entry(11, "etc", 2),
            entry(12, "file", 1),
            entry(0, "gone", 2),
        ],
    };
    assert_eq!(app.browse_partition_fs::<u8>(0, Ok(read)), Ok(()));
    app
}

#[test]
fn a_partition_is_browsed_from_its_root() {
    let app = browsing();
    assert_eq!(app.view_mode, ViewMode::FsBrowse);
    assert_eq!((app.ext4_partition_offset, app.ext4_partition_length), (2048, 64 * 512));
    assert_eq!(app.ext4_current_dir, (2, "/".to_string()));
    assert_eq!(app.ext4_breadcrumbs, vec![(2, "/".to_string())]);
    assert_eq!(app.ext4_dirlist_state, Some(0));
    assert_eq!((app.ext4_fs_type.as_str(), app.ext4_total_blocks), ("ext4", 77));
    let mut app = app_with(&[("disk", 5)], 0);
    app.partitions = vec![partition("P1", "ext4", 2048, 64)];
    assert_eq!(app.browse_partition_fs(0, Err(9u8)), Err(9));
    assert_eq!(app.status_msg, "Opening ext4 on P1...");
    assert_eq!(app.ext4_partition_offset, 2048);
    assert_eq!(app.view_mode, ViewMode::VmaInfo);
}

#[test]
fn back_undoes_into() {
    let mut app = browsing();
    assert_eq!(app.plan_navigate_into(0), Visit::Stay);
    assert_eq!(app.plan_navigate_into(1), Visit::Into { ino: 2 });
    assert_eq!(app.plan_navigate_into(2), Visit::Into { ino: 11 });
    assert_eq!(app.plan_navigate_into(3), Visit::Stay);
    assert_eq!(app.plan_navigate_into(4), Visit::Stay);
    assert_eq!(app.plan_navigate_back(), Visit::Stay);
    app.ext4_dirlist_state = Some(2);
    assert_eq!(app.fs_navigate_into(2, Err(3u8)), Err(3));
    assert_eq!(app.ext4_current_dir, (2, "/".to_string()));
    let inside = vec![entry(2, "..", 2), entry(13, "passwd", 1)];
    assert_eq!(app.fs_navigate_into::<u8>(2, Ok(inside)), Ok(()));
    assert_eq!(app.ext4_current_dir, (11, "//etc".to_string()));
    assert_eq!(app.ext4_breadcrumbs.len(), 2);
    assert_eq!(app.ext4_dirlist_state, Some(0));
    assert_eq!(app.plan_navigate_into(0), Visit::Back { ino: 2 });
    assert_eq!(app.plan_navigate_back(), Visit::Back { ino: 2 });
    assert_eq!(app.fs_navigate_back::<u8>(Ok(vec![entry(12, "file", 1)])), Ok(()));
    assert_eq!(app.ext4_current_dir, (2, "/".to_string()));
    assert_eq!(app.ext4_breadcrumbs, vec![(2, "/".to_string())]);
    assert_eq!(app.ext4_dirlist.len(), 1);
    assert_eq!(app.fs_navigate_back::<u8>(Err(1)), Ok(()));
}

#[test]
fn dots_lead_back_even_where_reading_fails() {
    let mut app = browsing();
    assert_eq!(app.fs_navigate_into::<u8>(2, Ok(vec![entry(2, "..", 2)])), Ok(()));
    assert_eq!(app.fs_navigate_into(0, Err(5u8)), Err(5));
    assert_eq!(app.ext4_current_dir, (2, "/".to_string()));
    assert_eq!(app.ext4_dirlist.len(), 1);
}

#[test]
fn empty_directories_keep_the_selection() {
    let mut app = browsing();
    app.ext4_dirlist_state = Some(2);
    assert_eq!(app.fs_navigate_into::<u8>(2, Ok(Vec::new())), Ok(()));
    assert_eq!(app.ext4_dirlist_state, Some(2));
    assert!(!can_handle_key(Key::Enter, &app));
    assert!(!can_handle_key(Key::Char('e'), &app));
    assert!(can_handle_key(Key::Backspace, &app));
}

#[test]
fn files_are_shown_and_extracted() {
    let mut app = browsing();
    assert_eq!(app.plan_file_hex(3), Some(12));
    assert_eq!(app.plan_file_hex(2), None);
    assert_eq!(app.plan_extract(3), Ok(12));
    assert_eq!(app.plan_extract(2), Err(AppError::NotRegularFile));
    assert_eq!(AppError::NotRegularFile.message(), "Not a regular file");
    app.status_msg = "before".to_string();
    assert!(matches!(
        app.fs_extract_file::<u8>(2, Ok(5)),
        Err(ExtractError::Refused(AppError::NotRegularFile))
    ));
    assert_eq!(app.status_msg, "before");
    assert!(matches!(app.fs_extract_file(3, Err(1u8)), Err(ExtractError::Failed(1))));
    assert_eq!(app.status_msg, "Extracting file...");
    assert!(app.fs_extract_file::<u8>(3, Ok(1234)).is_ok());
    assert_eq!(app.status_msg, "Extracted file (1234 bytes)");
    assert_eq!(app.fs_show_file_hex(3, Err(1u8)), Err(1));
    assert_eq!(app.status_msg, "Reading file...");
    assert_eq!(app.fs_show_file_hex(2, Err(1u8)), Ok(()));
    assert_eq!(app.view_mode, ViewMode::FsBrowse);
    assert_eq!(app.fs_show_file_hex::<u8>(3, Ok(vec![9])), Ok(()));
    assert_eq!(app.hex_title, "file (/)");
    assert_eq!(app.view_mode, ViewMode::HexView);
}

#[test]
fn browser_keys() {
    let mut app = browsing();
    assert!(matches!(handle_fsbrowse(Key::Up, &mut app), Action::Nothing));
    assert_eq!(app.ext4_dirlist_state, Some(0));
    assert!(matches!(
        handle_fsbrowse(Key::Enter, &mut app),
        Action::Into { idx: 0, visit: Visit::Stay }
    ));
    handle_fsbrowse(Key::Char('j'), &mut app);
    handle_fsbrowse(Key::Down, &mut app);
    assert!(matches!(
        handle_fsbrowse(Key::Char('l'), &mut app),
        Action::Into { idx: 2, visit: Visit::Into { ino: 11 } }
    ));
    assert!(matches!(handle_fsbrowse(Key::Char('e'), &mut app), Action::Nothing));
    handle_fsbrowse(Key::Down, &mut app);
    assert!(matches!(handle_fsbrowse(Key::Right, &mut app), Action::ShowFile { idx: 3 }));
    assert!(matches!(handle_fsbrowse(Key::Char('e'), &mut app), Action::ExtractFile { idx: 3 }));
    handle_fsbrowse(Key::Down, &mut app);
    handle_fsbrowse(Key::Down, &mut app);
    assert_eq!(app.ext4_dirlist_state, Some(4));
    assert!(matches!(
        handle_fsbrowse(Key::Char('h'), &mut app),
        Action::Back { visit: Visit::Stay }
    ));
    handle_fsbrowse(Key::Char('q'), &mut app);
    assert_eq!(app.view_mode, ViewMode::PartitionTable);
}

// ---------------------------------------------------------------- all keys

#[test]
fn help_comes_and_goes() {
    let mut app = browsing();
    handle_key(Key::Char('?'), &mut app);
    assert!(app.show_help);
    assert_eq!(app.view_mode, ViewMode::FsBrowse);
    handle_key(Key::Char('?'), &mut app);
    assert!(!app.show_help);
}

#[test]
fn q_leads_back_to_the_end() {
    let mut app = browsing();
    handle_key(Key::Char('q'), &mut app);
    assert_eq!(app.view_mode, ViewMode::PartitionTable);
    handle_key(Key::Char('q'), &mut app);
    assert_eq!(app.view_mode, ViewMode::VmaInfo);
    handle_key(Key::Char('q'), &mut app);
    assert_eq!(app.view_mode, ViewMode::FileList);
    assert!(!app.quit);
    handle_key(Key::Char('q'), &mut app);
    assert!(app.quit);
}

#[test]
fn selections_stay_in_their_lists() {
    let mut app = browsing();
    let keys = [
        Key::Char('j'),
        Key::Down,
        Key::Char('k'),
        Key::PageDown,
        Key::PageUp,
        Key::Char('w'),
        Key::Char('s'),
        Key::Enter,
        Key::Other,
        Key::Left,
        Key::Char('q'),
    ];
    let mut n: usize = 7;
    for _ in 0..2000 {
        n = n.wrapping_mul(1103515245).wrapping_add(12345);
        let k = keys[(n >> 16) % keys.len()];
        if can_handle_key(k, &app) {
            handle_key(k, &mut app);
        }
        assert!(app.ext4_dirlist_state.unwrap() < app.ext4_dirlist.len());
        assert!(app.partition_scroll < app.partitions.len());
        assert_eq!(app.selected_device, 0);
    }
}

// ---------------------------------------------------------------- screens

#[test]
fn titles() {
    let mut app = App::new(PathBuf::from("/backups"));
    assert_eq!(title_text(&app, "/backups"), "VZDump Browser — /backups");
    app = browsing();
    assert_eq!(title_text(&app, "/backups"), "Filesystem — /");
    app.view_mode = ViewMode::PartitionTable;
    assert_eq!(title_text(&app, ""), "Partitions — disk");
    app.selected_device = 5;
    assert_eq!(title_text(&app, ""), "Partitions — ?");
    app.view_mode = ViewMode::VmaInfo;
    assert_eq!(title_text(&app, ""), "VMA: 1 devices");
    app.view_mode = ViewMode::HexView;
    app.hex_title = "x".to_string();
    assert_eq!(title_text(&app, ""), "Hex — x");
    app.status_msg = "wait".to_string();
    assert_eq!(title_text(&app, ""), "⏳ wait");
}

#[test]
fn status_lines() {
    let mut app = App::new(PathBuf::from("/b"));
    assert_eq!(status_text(&app, "/b", ""), "/b | ?=Help");
    app.load_directory(
        PathBuf::from("/b"),
        Some(vec![found("d", true, 0), found("a.vma", false, 2048)]),
    );
    assert_eq!(status_text(&app, "/b", ""), "/b | DIR | Enter=Open h=Back ?=Help");
    app.list_state = Some(1);
    assert_eq!(status_text(&app, "/b", ""), "/b | 2.0 KB | Enter=Open h=Back ?=Help");
    app = browsing();
    assert_eq!(
        status_text(&app, "", ""),
        "/ type=ext4 blocks=77 | Enter=open e=extract ?=Help"
    );
    app.view_mode = ViewMode::PartitionTable;
    assert_eq!(status_text(&app, "", ""), "j/k=select  Enter=hex  x=raw hex  h=back  ?=Help");
    app.dump_path = Some(PathBuf::from("/tmp/x"));
    assert_eq!(
        status_text(&app, "", "/tmp/x"),
        "j/k=select  Enter=hex  x=raw  d=dump:/tmp/x  h=back"
    );
    app.view_mode = ViewMode::VmaInfo;
    assert_eq!(
        status_text(&app, "", ""),
        "w/s=device  p/Enter=partitions  x=raw hex  t=back  ?=Help"
    );
    app.view_mode = ViewMode::HexView;
    assert_eq!(status_text(&app, "", ""), "j/k=scroll  PgUp/Dn=page  h=back  ?=Help");
}

#[test]
fn lines_for_files() {
    let items = list_files(vec![found("d", true, 0), found("a.vma", false, 2048)]);
    assert_eq!(file_line(&items[0], "d"), format!("📁 {:<40}", "d"));
    assert_eq!(file_line(&items[1], "a.vma"), format!("📦 {:<40}  2.0 KB", "a.vma"));
    let other = FileEntry { is_vma: false, ..items[1].clone() };
    assert_eq!(file_line(&other, "x"), format!("📄 {:<40}  2.0 KB", "x"));
}

#[test]
fn archive_screen() {
    let mut app = app_with(&[("scsi0", 1 << 20), ("efi", 512)], 20);
    app.selected_device = 1;
    app.config_scroll = 18;
    let text = vma_info_text(&app);
    let mut expected =
        String::from("Created: 1970-01-01 00:00:00\nDevices: 2  Configs: 20\n\n── Configs (j/k scroll) ──\n");
    for i in 18..20 {
        expected += &format!("  {:<35} cores: 2mem: 4\n", format!("c{}.conf", i));
    }
    expected += "\n── Devices (w/s switch) ──\n";
    expected += &format!("  {:<25} {:>10} [decompressed]\n", "scsi0", "1.0 MB");
    expected += &format!("▶ {:<25} {:>10} [decompressed]\n", "efi", "512 B");
    expected += "\np/Enter: Analyze partitions\nx: Raw hex  w/s: Switch  t: Back\n";
    assert_eq!(text, expected);
    app.config_scroll = 0;
    assert_eq!(vma_info_text(&app).matches(".conf").count(), 15);
    let empty = App::new(PathBuf::from("/"));
    assert_eq!(
        vma_info_text(&empty),
        "\np/Enter: Analyze partitions\nx: Raw hex  w/s: Switch  t: Back\n"
    );
    assert_eq!(config_line("a", "x\ny", 2), format!("  {:<35} x", "a"));
}

#[test]
fn lines_for_partitions_and_entries() {
    assert_eq!(
        partition_line(&partition("P1", "ext4", 2048, 64)),
        format!("P1  {:>10}  {:>10}  {:>6}  ext4", 4, "32.0 KB", "83")
    );
    assert_eq!(entry_line(&entry(1, "a", 7)), "🔗 a");
    let sixty = "x".repeat(60);
    assert_eq!(entry_line(&entry(1, &sixty, 1)), format!("📄 {}", sixty));
    assert_eq!(entry_line(&entry(1, &"x".repeat(61), 2)), format!("📁 {}...", "x".repeat(57)));
    let cut = format!("{}é{}", "x".repeat(56), "y".repeat(10));
    assert!(!name_can_be_shown(&cut));
    let whole = format!("{}é{}", "x".repeat(55), "y".repeat(10));
    assert!(name_can_be_shown(&whole));
    assert_eq!(entry_line(&entry(1, &whole, 1)), format!("📄 {}é...", "x".repeat(55)));
    assert_eq!(dir_title_text(&browsing()), " / (5)");
}

#[test]
fn whole_screens() {
    let mut app = browsing();
    assert!(can_render(&app));
    let screen = render(&app, "/b", "", &Vec::new());
    assert_eq!(screen.title, "Filesystem — /");
    assert!(!screen.help);
    match screen.body {
        Body::List { title, lines, selected } => {
            assert_eq!(title, " / (5)");
            assert_eq!(lines, vec!["📁 .", "📁 ..", "📁 etc", "📄 file", "📁 gone"]);
            assert_eq!(selected, Some(0));
        }
        Body::Text { .. } => panic!("a list"),
    }
    app.view_mode = ViewMode::HexView;
    app.hex_data = vec![0x41];
    match render(&app, "/b", "", &Vec::new()).body {
        Body::Text { title, text } => {
            assert_eq!((title.as_str(), text.as_str()), (" Hex View ", "00000000  41   |A|\n"));
        }
        Body::List { .. } => panic!("a text"),
    }
    app.view_mode = ViewMode::PartitionTable;
    match render(&app, "/b", "", &Vec::new()).body {
        Body::List { title, lines, selected } => {
            assert_eq!(title, " Partitions ");
            assert_eq!(lines, vec![partition_line(&app.partitions[0])]);
            assert_eq!(selected, Some(0));
        }
        Body::Text { .. } => panic!("a list"),
    }
    app.view_mode = ViewMode::VmaInfo;
    app.show_help = true;
    let screen = render(&app, "/b", "", &Vec::new());
    assert!(screen.help);
    assert!(matches!(screen.body, Body::Text { title, .. } if title == " VMA Info "));
    app.load_directory(PathBuf::from("/b"), Some(vec![found("a.vma", false, 1)]));
    match render(&app, "/b", "", &vec!["a.vma".to_string()]).body {
        Body::List { title, lines, selected } => {
            assert_eq!(title, " Backups ");
            assert_eq!(lines, vec![file_line(&app.items[0], "a.vma")]);
            assert_eq!(selected, Some(0));
        }
        Body::Text { .. } => panic!("a list"),
    }
}

#[test]
fn what_cannot_be_shown_is_noticed() {
    let mut app = browsing();
    app.ext4_dirlist.push(entry(1, &format!("{}é{}", "x".repeat(56), "y".repeat(10)), 1));
    assert!(!can_render(&app));
    app.view_mode = ViewMode::HexView;
    app.hex_data = vec![1];
    app.hex_scroll = usize::MAX / 16;
    assert!(!can_render(&app));
    app.hex_data.clear();
    assert!(can_render(&app));
    app.view_mode = ViewMode::PartitionTable;
    assert!(can_render(&app));
    app.partitions[0].num_sectors = u64::MAX / 512 + 1;
    assert!(!can_render(&app));
}

#[test]
fn help_text() {
    let lines = help_lines();
    assert_eq!(lines.len(), 12);
    assert_eq!(lines[0], "Help");
    assert_eq!(lines[11], "Detects: MBR, ext4, XFS, btrfs, NTFS, LVM2");
}
