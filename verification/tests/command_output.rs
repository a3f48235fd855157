//! What the commands write.

use std::path::PathBuf;

use vzdump_browser::commands::{
    check_list_partition, check_partition, extracted_line, found_file, hash_lines, hash_report,
    hex_dump_lines, info_lines, list_lines, output_name, CommandError,
};
use vzdump_browser::dump::{dump_head_lines, Dump, DumpAction};
use vzdump_browser::ext4::DirEntry;
use vzdump_browser::tree::TreeKind;
use vzdump_browser::vma::{ArchiveScan, VmaArchive};

fn put_be32(d: &mut [u8], o: usize, n: u32) {
    d[o..o + 4].copy_from_slice(&n.to_be_bytes());
}

/// An archive with two unnamed devices and one configuration file.
fn archive(config: bool) -> VmaArchive {
    let mut d = vec![0u8; 16384];
    d[0..4].copy_from_slice(b"VMA\0");
    put_be32(&mut d, 48, 12288);
    put_be32(&mut d, 52, 4096);
    d[12289] = 4;
    d[12291..12295].copy_from_slice(b"a\nb\0");
    for (slot, size) in [(0usize, 4096u64), (1, 1 << 31)] {
        put_be32(&mut d, 4096 + 32 * slot, 4000);
        d[4096 + 32 * slot + 8..4096 + 32 * slot + 16].copy_from_slice(&size.to_be_bytes());
    }
    if config {
        put_be32(&mut d, 2044, 1);
        put_be32(&mut d, 3068, 1);
    }
    match ArchiveScan::new(&d, 16384) {
        Ok(scan) => VmaArchive::open(PathBuf::from("a.vma"), scan),
        Err(_) => panic!("header"),
    }
}

#[test]
fn partition_numbers_are_checked() {
    assert!(check_partition(0, 1).is_ok());
    assert!(check_list_partition(1, 2).is_ok());
    match check_partition(3, 3) {
        Err(e) => assert_eq!(e.message(), "Partition 3 not found"),
        Ok(()) => panic!("found"),
    }
    match check_list_partition(3, 2) {
        Err(e) => assert_eq!(e.message(), "Partition 3 not found (only 2 partitions)"),
        Ok(()) => panic!("found"),
    }
}

#[test]
fn missing_files_are_errors() {
    assert!(matches!(found_file(12, "/x"), Ok(12)));
    match found_file(0, "/x") {
        Err(e) => assert_eq!(e.message(), "File not found: /x"),
        Ok(_) => panic!("found"),
    }
    assert_eq!(CommandError::Unsupported.message(), "Unsupported filesystem or path not found");
}

#[test]
fn directories_are_listed() {
    let entries = vec![
        DirEntry { ino: 2, name: "etc".to_string(), file_type: 2 },
        DirEntry { ino: 3, name: "f".to_string(), file_type: 1 },
    ];
    assert_eq!(list_lines("/", "P1", &entries), vec!["/ (P1)", "  📁 etc", "  📄 f"]);
    assert_eq!(list_lines("/x", "P1", &Vec::new()), vec!["/x (P1)"]);
}

#[test]
fn extracted_files_keep_their_name() {
    assert_eq!(output_name("/etc/passwd"), "passwd");
    assert_eq!(output_name("passwd"), "passwd");
    assert_eq!(output_name("/etc//"), "etc");
    assert_eq!(output_name("/"), "");
    assert_eq!(
        extracted_line("/etc/passwd", 12, "passwd"),
        "Extracted /etc/passwd (12 bytes) -> passwd"
    );
}

#[test]
fn hex_dumps() {
    let data: Vec<u8> = (0x3fu8..0x3f + 20).collect();
    assert_eq!(
        hex_dump_lines("/f", &data, 256),
        vec![
            "Hex dump of /f (20 bytes):".to_string(),
            format!(
                "00000000:  {:<48}  ?@ABCDEFGHIJKLMN",
                "3f 40 41 42 43 44 45 46 47 48 49 4a 4b 4c 4d 4e"
            ),
            format!("00000010:  {:<48}  OPQR", "4f 50 51 52"),
        ]
    );
    assert_eq!(
        hex_dump_lines("/f", &[0x00, 0x20, 0x7f, 0x41], 3),
        vec!["Hex dump of /f (3 bytes):".to_string(), format!("00000000:  {:<48}  . .", "00 20 7f")]
    );
    assert_eq!(hex_dump_lines("/f", &data, 16).len(), 2);
    assert_eq!(hex_dump_lines("/f", &data, 0), vec!["Hex dump of /f (0 bytes):"]);
}

#[test]
fn archive_info() {
    assert_eq!(
        info_lines("a.vma", &archive(false)),
        vec![
            "VMA: a.vma",
            "Created: 1970-01-01 00:00:00",
            "Devices: 2",
            "  0: device_1 (4.0 KB)",
            "  1: device_2 (2.00 GB)",
        ]
    );
}

#[test]
fn hashes() {
    assert_eq!(
        hash_lines("/f", b"abc"),
        vec![
            "File: /f",
            "Size: 3 bytes",
            "SHA256: ba7816bf8f01cfea414140de5dae2223b00361a396177a9cb410ff61f20015ad",
        ]
    );
    assert_eq!(
        hash_lines("/f", b"")[2],
        "SHA256: e3b0c44298fc1c149afbf4c8996fb92427ae41e4649b934ca495991b7852b855"
    );
    assert_eq!(
        hash_report("/g", 7, &[0x0a, 0xff]),
        vec!["File: /g", "Size: 7 bytes", "SHA256: 0aff"]
    );
}

#[test]
fn dumps_start_with_the_header() {
    assert_eq!(
        dump_head_lines("a.vma", &archive(true)),
        vec![
            "VMA: a.vma".to_string(),
            "Created: 1970-01-01 00:00:00".to_string(),
            String::new(),
            "Config files (1):".to_string(),
            format!("  {:<35} ab\0", "a\nb"),
            String::new(),
        ]
    );
    assert_eq!(dump_head_lines("a.vma", &archive(false)).len(), 3);
}

#[test]
fn dumps_go_through_all_devices() {
    let a = archive(false);
    let mut dump = Dump::new(&a, 200);
    assert_eq!(dump.action(), DumpAction::ReadDevice { device: 0, len: 4096 });
    let bar = "━".repeat(60);
    assert_eq!(
        dump.device_read(&vec![0u8; 4096]),
        vec![
            format!("{} Device 0: device_1 (4.0 KB) {}", bar, bar),
            "  No partition table or filesystem detected.".to_string(),
        ]
    );
    assert_eq!(dump.action(), DumpAction::ReadDevice { device: 1, len: 2_097_152 });
    let mut data = vec![0u8; 4096];
    data[510] = 0x55;
    data[511] = 0xAA;
    for (slot, start) in [(0usize, 8u8), (1, 16), (2, 32)] {
        let e = 446 + 16 * slot;
        data[e + 4] = 0x83;
        data[e + 8] = start;
        data[e + 12] = 2;
    }
    let lines = dump.device_read(&data);
    let row = |n: &str, start: u64| {
        format!("    {:<22} {:>10} {:>10} {:>8}  Linux", n, start, "1.0 KB", "83")
    };
    assert_eq!(
        lines,
        vec![
            format!("{} Device 1: device_2 (2.00 GB) {}", bar, bar),
            "  Partitions:".to_string(),
            format!("    {:<22} {:>10} {:>10} {:>8}  FS", "Name", "Start LBA", "Size", "Type"),
            format!("    {}", "─".repeat(70)),
            row("P1", 8),
            row("P2", 16),
            row("P3", 32),
        ]
    );
    assert_eq!(dump.action(), DumpAction::OpenExt4 { device: 1, offset: 4096, length: 1024 });
    assert_eq!(
        dump.ext4_opened(Some(("ext4", 9))),
        vec!["", "  📁 /  (P1 on device_2, ext4 1.0 KB, 9 blocks)"]
    );
    assert_eq!(dump.action(), DumpAction::WalkTree { kind: TreeKind::Ext4 });
    assert_eq!(dump.tree_done(true), vec!["  ... (reached 200 entry limit)"]);
    assert_eq!(dump.action(), DumpAction::OpenExt4 { device: 1, offset: 8192, length: 1024 });
    assert!(dump.ext4_opened(None).is_empty());
    assert_eq!(dump.action(), DumpAction::OpenFat { device: 1, offset: 8192, length: 1024 });
    assert_eq!(dump.fat_opened(Ok("FAT32")), vec!["", "  📁 /  (P2 on device_2, FAT32 FAT)"]);
    assert_eq!(dump.action(), DumpAction::WalkTree { kind: TreeKind::Fat });
    assert!(dump.tree_done(false).is_empty());
    assert!(dump.ext4_opened(None).is_empty());
    assert_eq!(
        dump.fat_opened(Err("bad")),
        vec!["", "  ⚠ P3 — could not open FAT: bad", ""]
    );
    assert_eq!(dump.action(), DumpAction::Done);
}

#[test]
fn dumps_show_the_raw_device_unless_covered() {
    let a = archive(false);
    let mut dump = Dump::new(&a, 200);
    let mut data = vec![0u8; 4096];
    data[0..4].copy_from_slice(b"XFSB");
    let lines = dump.device_read(&data);
    assert_eq!(
        lines[4],
        format!("    {:<22} {:>10} {:>10} {:>8}  XFS", "Raw device (device_1)", 0, "4.0 KB", "00")
    );
    assert_eq!(lines.len(), 5);
    let mut dump = Dump::new(&a, 200);
    data[510] = 0x55;
    data[511] = 0xAA;
    data[450] = 0x83;
    data[458] = 8;
    let lines = dump.device_read(&data);
    assert_eq!(lines.len(), 5);
    assert_eq!(
        lines[4],
        format!("    {:<22} {:>10} {:>10} {:>8}  Linux", "P1", 0, "4.0 KB", "83")
    );
}
