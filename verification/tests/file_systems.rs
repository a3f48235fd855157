//! Ext and FAT file systems, and trees of directories.

use vzdump_browser::ext4::{
    find_named, superblock_fits, BlockDeviceWrapper, DirEntry, Ext4Error, Ext4Fs, PathLookup,
    RawDirEntry, READ_LIMIT, ROOT_INODE,
};
use vzdump_browser::fatfs::{names_root, FatError, FatFs, FatItem};
use vzdump_browser::tree::{icon_for, TreeItem, TreeKind, TreeStep, TreeWalk};

fn superblock(log: u32, features: u32, ro: u32) -> Vec<u8> {
    let mut sb = vec![0u8; 1024];
    sb[0x38] = 0x53;
    sb[0x39] = 0xEF;
    sb[0x04..0x08].copy_from_slice(&7u32.to_le_bytes());
    sb[0x18..0x1c].copy_from_slice(&log.to_le_bytes());
    sb[0x28..0x2c].copy_from_slice(&8192u32.to_le_bytes());
    sb[0x64..0x68].copy_from_slice(&features.to_le_bytes());
    sb[0x68..0x6c].copy_from_slice(&ro.to_le_bytes());
    sb
}

fn fs() -> Ext4Fs {
    match Ext4Fs::open(&superblock(2, 0x0040, 0)) {
        Ok(fs) => fs,
        Err(_) => panic!("superblock"),
    }
}

fn raw(inode: u32, name: &[u8], inode_type: u8) -> RawDirEntry {
    let mut n = name.to_vec();
    n.resize(255, b'#');
    RawDirEntry { inode, name: n, name_len: name.len() as u8, inode_type }
}

#[test]
fn superblock_describes_the_file_system() {
    let f = fs();
    assert_eq!(f.block_size(), 4096);
    assert_eq!(f.inodes_per_group(), 8192);
    assert_eq!(f.fs_type(), "ext4");
    assert_eq!(f.total_blocks(), 7);
    let mut sb = superblock(0, 0, 0);
    sb[0x150] = 1;
    let f = match Ext4Fs::open(&sb) {
        Ok(f) => f,
        Err(_) => panic!("superblock"),
    };
    assert_eq!(f.fs_type, "ext2/3");
    assert_eq!(f.block_size, 1024);
    assert_eq!(f.total_blocks, 0x1_0000_0007);
    for sb in [superblock(0, 0x0080, 0), superblock(0, 0, 0x0002)] {
        assert!(matches!(Ext4Fs::open(&sb), Ok(f) if f.fs_type == "ext4"));
    }
}

#[test]
fn other_magic_numbers_are_refused() {
    let mut sb = superblock(40, 0, 0);
    assert!(!superblock_fits(&sb));
    sb[0x38] = 0x1a;
    assert!(superblock_fits(&sb));
    match Ext4Fs::open(&sb) {
        Err(e) => assert_eq!(e.message(), "not an ext2/3/4 filesystem (magic EF1A)"),
        Ok(_) => panic!("opened"),
    }
}

#[test]
fn directory_entries_are_listed() {
    let entries = vec![raw(2, b".", 2), raw(12, b"f\xff", 1), raw(13, b"link", 7), raw(14, b"dev", 3)];
    let list = fs().read_directory(&entries);
    let got: Vec<(u32, &str, u8)> =
        list.iter().map(|e| (e.ino, e.name.as_str(), e.file_type)).collect();
    assert_eq!(got, vec![(2, ".", 2), (12, "f\u{fffd}", 1), (13, "link", 7), (14, "dev", 0)]);
    assert!(fs().is_dir(&entries));
    assert!(!fs().is_dir(&Vec::new()));
}

fn dirs(ino: u32) -> Vec<DirEntry> {
    match ino {
        2 => fs().read_directory(&vec![raw(2, b".", 2), raw(11, b"etc", 2), raw(99, b"etc", 2)]),
        11 => vec![DirEntry::new(20, "passwd".to_string(), 1)],
        _ => Vec::new(),
    }
}

fn look_up(path: &str) -> u32 {
    let mut lookup: PathLookup = fs().lookup_inode(path);
    while let Some(ino) = lookup.wants() {
        lookup.feed(&dirs(ino));
    }
    lookup.outcome()
}

#[test]
fn paths_lead_to_inodes() {
    assert_eq!(look_up("/etc/passwd"), 20);
    assert_eq!(look_up("etc/passwd"), 20);
    assert_eq!(look_up("///etc"), 11);
    assert_eq!(look_up("/"), ROOT_INODE);
    assert_eq!(look_up(""), ROOT_INODE);
    assert_eq!(look_up("/etc/shadow"), 0);
    assert_eq!(look_up("/etc/"), 0);
    assert_eq!(look_up("/nowhere/passwd"), 0);
    assert_eq!(find_named(&dirs(2), "etc"), Some(11));
    assert_eq!(find_named(&dirs(2), "et"), None);
}

#[test]
fn missing_paths_are_errors() {
    assert!(matches!(fs().read_directory_str("/etc", 11), Ok(11)));
    match fs().read_directory_str("/x", 0) {
        Err(e) => {
            assert!(matches!(e, Ext4Error::PathNotFound { .. }));
            assert_eq!(e.message(), "Path not found: /x");
        }
        Ok(_) => panic!("found"),
    }
}

#[test]
fn regular_files_have_a_size() {
    assert_eq!(fs().file_size(0o100644, 1_500_000, 0), Some(1_500_000));
    assert_eq!(fs().file_size(0o100000, 7, 1), Some(0x1_0000_0007));
    assert_eq!(fs().file_size(0o100777, u32::MAX, u32::MAX), Some(u64::MAX));
    assert_eq!(fs().file_size(0o100600, 0, 0), Some(0));
    // Directories, links, sockets and devices have none.
    for mode in [0o040755, 0o120777, 0o140755, 0o020600, 0o060600, 0o010600, 0] {
        assert_eq!(fs().file_size(mode, 4096, 0), None);
    }
}

/// Reads a file in pieces of at most `most` bytes.
fn read_in_pieces(file: &[u8], most: usize) -> (Vec<u8>, Vec<(u64, u32)>) {
    let mut read = fs().read_file(file.len() as u64);
    let mut asked = Vec::new();
    while let Some((at, len)) = read.wants() {
        asked.push((at, len));
        let from = at as usize;
        read.feed::<u8>(Ok(file[from..from + most.min(len as usize)].to_vec()));
    }
    (read.contents(), asked)
}

#[test]
fn files_are_read_whole() {
    let file: Vec<u8> = (0..1_500_000u32).map(|i| (i % 251) as u8).collect();
    let (data, asked) = read_in_pieces(&file, usize::MAX);
    assert_eq!(asked, vec![(0, 1_048_576), (1_048_576, 451_424)]);
    assert_eq!(data, file);
    let (data, asked) = read_in_pieces(&file[..READ_LIMIT as usize], usize::MAX);
    assert_eq!(asked, vec![(0, READ_LIMIT)]);
    assert_eq!(data.len(), 1_048_576);
    let (data, asked) = read_in_pieces(&[], usize::MAX);
    assert!(asked.is_empty());
    assert!(data.is_empty());
    // Short pieces are followed by the rest.
    let (data, asked) = read_in_pieces(b"abcde", 2);
    assert_eq!(asked, vec![(0, 5), (2, 3), (4, 1)]);
    assert_eq!(data, b"abcde");
}

#[test]
fn files_that_cannot_be_read_are_empty() {
    let mut read = fs().read_file(2_000_000);
    read.feed::<u8>(Ok(vec![1; 1_048_576]));
    assert_eq!(read.wants(), Some((1_048_576, 951_424)));
    read.feed(Err(5u8));
    assert_eq!(read.wants(), None);
    assert_eq!(read.contents(), Vec::<u8>::new());
    let mut read = fs().read_file(10);
    read.feed::<u8>(Ok(vec![1, 2]));
    read.feed::<u8>(Ok(Vec::new()));
    assert_eq!(read.wants(), None);
    assert_eq!(read.contents(), vec![1, 2]);
}

#[test]
fn blocks_are_filled_with_zeros() {
    let mut b = BlockDeviceWrapper::new("disk", 4);
    assert_eq!(b.block_size(), 4);
    assert_eq!(b.read_offset(&[1, 2]), vec![1, 2, 0, 0]);
    assert_eq!(b.read_offset(&[1, 2, 3, 4]), vec![1, 2, 3, 4]);
    assert_eq!(b.inner_mut(), &mut "disk");
}

// ---------------------------------------------------------------- FAT

fn bpb(total16: u16, total32: u32, fat16: u16, fat32: u32) -> Vec<u8> {
    let mut b = vec![0u8; 90];
    b[13..15].copy_from_slice(&total16.to_le_bytes());
    b[19..23].copy_from_slice(&total32.to_le_bytes());
    b[7..9].copy_from_slice(&fat16.to_le_bytes());
    b[24..28].copy_from_slice(&fat32.to_le_bytes());
    b
}

#[test]
fn fat_kinds() {
    let kind = |b: Vec<u8>| match FatFs::open(&[0x55, 0xAA], &b) {
        Ok(fs) => fs.fs_type,
        Err(_) => panic!("boot signature"),
    };
    assert_eq!(kind(bpb(4083, 0, 9, 0)), "FAT12");
    assert_eq!(kind(bpb(4084, 0, 0, 0)), "FAT16");
    assert_eq!(kind(bpb(4084, 0, 9, 0)), "FAT32");
    assert_eq!(kind(bpb(0, 65535, 0, 0)), "FAT16");
    assert_eq!(kind(bpb(0, 65536, 0, 0)), "FAT32");
    assert_eq!(kind(bpb(0, 5000, 0, 3)), "FAT32");
}

#[test]
fn fat_needs_a_boot_signature() {
    match FatFs::open(&[0x55, 0xAB], &bpb(0, 0, 0, 0)) {
        Err(e) => {
            assert_eq!(e, FatError::InvalidBootSignature);
            assert_eq!(e.message(), "not a FAT filesystem (invalid boot signature)");
        }
        Ok(_) => panic!("opened"),
    }
}

#[test]
fn fat_directories_are_listed() {
    let fs = match FatFs::open(&[0x55, 0xAA], &bpb(1, 0, 1, 0)) {
        Ok(fs) => fs,
        Err(_) => panic!("boot signature"),
    };
    let item = |name: &str, is_dir: bool| FatItem { name: name.to_string(), is_dir };
    let list = fs.read_directory::<u8>(vec![Ok(item("EFI", true)), Ok(item("a.txt", false))]);
    let got: Vec<(u32, String, u8)> = match list {
        Ok(l) => l.into_iter().map(|e| (e.ino, e.name, e.file_type)).collect(),
        Err(_) => panic!("entries"),
    };
    assert_eq!(got, vec![(0, "EFI".to_string(), 2), (0, "a.txt".to_string(), 1)]);
    let list = fs.read_directory(vec![Ok(item("EFI", true)), Err(3u8), Err(4u8)]);
    assert!(matches!(list, Err(3)));
    assert!(fs.is_dir("/", false));
    assert!(fs.is_dir("/EFI", true));
    assert!(!fs.is_dir("/a.txt", false));
    assert!(names_root(""));
    assert!(names_root("/"));
    assert!(!names_root("/EFI"));
}

// ---------------------------------------------------------------- trees

fn item(ino: u32, name: &str, file_type: u8) -> TreeItem {
    TreeItem { ino, name: name.to_string(), file_type }
}

fn items_of(ino: u32) -> Vec<TreeItem> {
    match ino {
        2 => vec![
            item(2, ".", 2),
            item(2, "..", 2),
            item(9, "zlink", 7),
            item(3, "var", 2),
            item(4, "etc", 2),
            item(8, "readme", 1),
        ],
        4 => vec![item(5, "passwd", 1), item(6, "dev", 3)],
        3 => vec![item(7, "log", 2)],
        7 => vec![item(10, "deep", 1)],
        _ => Vec::new(),
    }
}

fn run(mut walk: TreeWalk, read: impl Fn(u32, &str) -> Vec<TreeItem>) -> (Vec<String>, bool) {
    let mut lines = Vec::new();
    loop {
        match walk.step() {
            TreeStep::Line(l) => lines.push(l),
            TreeStep::Wants => {
                let items = match walk.wants() {
                    Some((ino, path)) => read(ino, path),
                    None => panic!("nothing wanted"),
                };
                walk.feed(items);
            }
            TreeStep::Done => return (lines, walk.reached_limit()),
        }
    }
}

#[test]
fn ext4_tree_has_branches() {
    let walk = TreeWalk::new(TreeKind::Ext4, 2, 3, 200);
    let (lines, reached) = run(walk, |ino, _| items_of(ino));
    assert_eq!(
        lines,
        vec![
            "├── 📁 etc",
            "│    ├── ❓ dev",
            "│    └── 📄 passwd",
            "├── 📁 var",
            "│    └── 📁 log",
            "│         └── 📄 deep",
            "├── 📄 readme",
            "└── 🔗 zlink",
        ]
    );
    assert!(!reached);
}

#[test]
fn trees_end_at_their_depth() {
    let (lines, _) = run(TreeWalk::new(TreeKind::Ext4, 2, 1, 200), |ino, _| items_of(ino));
    assert_eq!(lines.len(), 4);
    let (lines, reached) = run(TreeWalk::new(TreeKind::Ext4, 2, 0, 200), |ino, _| items_of(ino));
    assert!(lines.is_empty());
    assert!(!reached);
}

#[test]
fn trees_show_so_many_entries_of_a_directory() {
    let (lines, reached) = run(TreeWalk::new(TreeKind::Ext4, 2, 2, 2), |ino, _| items_of(ino));
    assert_eq!(
        lines,
        vec![
            "├── 📁 etc",
            "│    ├── ❓ dev",
            "│    └── 📄 passwd",
            "├── 📁 var",
            "│    └── 📁 log",
        ]
    );
    assert!(reached);
    let (lines, reached) = run(TreeWalk::new(TreeKind::Ext4, 2, 2, 5), |ino, _| items_of(ino));
    assert_eq!(lines.len(), 7);
    assert!(!reached);
    let (lines, reached) = run(TreeWalk::new(TreeKind::Ext4, 2, 2, 0), |ino, _| items_of(ino));
    assert!(lines.is_empty());
    assert!(reached);
}

#[test]
fn limits_are_reached_by_the_directories_looked_into() {
    let read = |ino: u32, _: &str| match ino {
        2 => vec![item(3, "a", 2), item(0, ".", 2), item(0, "..", 2)],
        3 => vec![item(4, "b", 2), item(9, "c", 1)],
        4 => vec![item(9, "d", 1), item(9, "e", 1), item(9, "f", 1)],
        _ => panic!("inode {}", ino),
    };
    let reached = |depth, max| run(TreeWalk::new(TreeKind::Ext4, 2, depth, max), read).1;
    assert_eq!((reached(1, 2), reached(2, 2), reached(3, 2)), (false, true, true));
    assert_eq!((reached(1, 3), reached(2, 3), reached(3, 3)), (false, false, true));
    assert_eq!((reached(3, 4), reached(1, 1), reached(0, 1)), (false, true, false));
    assert!(reached(0, 0));
}

#[test]
fn fat_tree_shows_paths() {
    let walk = TreeWalk::new(TreeKind::Fat, 2, 4, 200);
    let (lines, _) = run(walk, |_, path| match path {
        "" => vec![item(0, "b.txt", 1), item(0, "EFI", 2)],
        "/EFI" => vec![item(0, "..", 2), item(0, "BOOT", 2)],
        "/EFI/BOOT" => vec![item(0, "x.efi", 1)],
        _ => panic!("path {}", path),
    });
    assert_eq!(
        lines,
        vec!["├── 📁 EFI", "/EFI└── 📁 BOOT", "/EFI/BOOT└── 📄 x.efi", "└── 📄 b.txt"]
    );
}

#[test]
fn icons_of_file_types() {
    assert_eq!((icon_for(2), icon_for(1), icon_for(7), icon_for(0)), ("📁", "📄", "🔗", "❓"));
}
