//! Partition tables, signatures, and reading within a partition.

use vzdump_browser::cluster::{build_index, ClusterEntry};
use vzdump_browser::partition::{
    decode_utf16le_name, detect_fs_at, format_guid, guid_to_type, parse_gpt, parse_mbr,
    parse_partition_table, partition_table_fits, type_guid_to_fs, Partition, PartitionReader,
};
use vzdump_browser::probe::{
    add_raw, detect_raw_fs, make_raw_partition, plan_probes, probe_partitions, read_len_for,
    some_covers,
};
use vzdump_browser::reader::VmaDeviceReader;
use vzdump_browser::seek::{NegativeSeek, SeekTarget};

fn mbr(slots: &[(usize, u8, u32, u32)]) -> Vec<u8> {
    let mut d = vec![0u8; 512];
    for (i, kind, start, count) in slots {
        let e = 446 + 16 * i;
        d[e + 4] = *kind;
        d[e + 8..e + 12].copy_from_slice(&start.to_le_bytes());
        d[e + 12..e + 16].copy_from_slice(&count.to_le_bytes());
    }
    d[510] = 0x55;
    d[511] = 0xAA;
    d
}

const LINUX_FS: [u8; 16] = [
    0xAF, 0x3D, 0xC6, 0x0F, 0x83, 0x84, 0x72, 0x47, 0x8E, 0x79, 0x3D, 0x69, 0xD8, 0x47, 0x7D, 0xE4,
];

fn gpt(entries: &[(usize, [u8; 16], u64, u64, &str)]) -> Vec<u8> {
    let mut d = mbr(&[(0, 0xEE, 1, 1)]);
    d.resize(512 * 34, 0);
    d[512..520].copy_from_slice(b"EFI PART");
    d[584..592].copy_from_slice(&2u64.to_le_bytes());
    d[592..596].copy_from_slice(&128u32.to_le_bytes());
    d[596..600].copy_from_slice(&128u32.to_le_bytes());
    for (i, guid, first, last, name) in entries {
        let o = 1024 + 128 * i;
        d[o..o + 16].copy_from_slice(guid);
        d[o + 32..o + 40].copy_from_slice(&first.to_le_bytes());
        d[o + 40..o + 48].copy_from_slice(&last.to_le_bytes());
        for (k, c) in name.encode_utf16().enumerate() {
            d[o + 56 + 2 * k..o + 58 + 2 * k].copy_from_slice(&c.to_le_bytes());
        }
    }
    d
}

fn sums(p: &Partition) -> (u8, &str, u64, u64, &str, &str, u64, u64) {
    (
        p.number,
        &p.name,
        p.start_sector,
        p.num_sectors,
        &p.type_guid,
        &p.fs_type,
        p.byte_offset,
        p.byte_length,
    )
}

#[test]
fn mbr_slots_become_partitions() {
    let d = mbr(&[(0, 0x83, 2048, 100), (2, 0x0c, 4096, 7), (3, 0x42, 1, 1)]);
    let p = parse_partition_table(&d);
    assert_eq!(p.len(), 3);
    assert_eq!(sums(&p[0]), (1, "P1", 2048, 100, "83", "Linux", 1048576, 51200));
    assert_eq!(sums(&p[1]), (3, "P3", 4096, 7, "0C", "FAT32 LBA", 2097152, 3584));
    assert_eq!(sums(&p[2]), (4, "P4", 1, 1, "42", "?", 512, 512));
}

#[test]
fn mbr_types_have_names() {
    let names = [
        (0x01, "FAT12"),
        (0x04, "FAT16"),
        (0x06, "FAT16B"),
        (0x07, "NTFS/exFAT"),
        (0x0b, "FAT32"),
        (0x0e, "FAT16 LBA"),
        (0x82, "swap"),
        (0x8e, "LVM"),
        (0xee, "GPT"),
        (0xef, "EFI"),
    ];
    for (kind, name) in names {
        assert_eq!(parse_mbr(&mbr(&[(1, kind, 1, 1)]))[0].fs_type, name);
    }
}

#[test]
fn no_boot_signature_no_partitions() {
    let mut d = mbr(&[(0, 0x83, 2048, 100)]);
    d[511] = 0;
    assert!(parse_partition_table(&d).is_empty());
    assert!(parse_partition_table(&d[..511]).is_empty());
    assert!(partition_table_fits(&d));
}

#[test]
fn gpt_entries_become_partitions() {
    let other = [1u8, 2, 3, 4, 5, 6, 7, 8, 9, 10, 11, 12, 13, 14, 15, 16];
    let d = gpt(&[(0, LINUX_FS, 2048, 4095, "root"), (3, other, 5000, 5000, "")]);
    assert!(partition_table_fits(&d));
    let p = parse_partition_table(&d);
    assert_eq!(p.len(), 2);
    assert_eq!(
        sums(&p[0]),
        (1, "root", 2048, 2048, "Linux filesystem", "ext4/xfs/btrfs/...", 1048576, 1048576)
    );
    assert_eq!(
        sums(&p[1]),
        (4, "P4", 5000, 1, "04030201-0605-0807-090A-0B0C0D0E0F10", "", 2560000, 512)
    );
}

#[test]
fn gpt_without_whole_table_is_empty() {
    let d = gpt(&[(0, LINUX_FS, 2048, 4095, "root")]);
    assert!(parse_gpt(&d[..512 * 33]).is_empty());
    let mut e = d.clone();
    e[512] = b'X';
    assert!(parse_gpt(&e).is_empty());
    let mut e = d.clone();
    e[596..600].copy_from_slice(&64u32.to_le_bytes());
    assert!(parse_gpt(&e).is_empty());
    assert!(parse_gpt(&d[..600]).is_empty());
    assert_eq!(parse_gpt(&d).len(), 1);
}

#[test]
fn gpt_that_cannot_be_counted_is_noticed() {
    let d = gpt(&[(0, LINUX_FS, 10, 9, "")]);
    assert!(!partition_table_fits(&d));
    let d = gpt(&[(0, LINUX_FS, 1, u64::MAX, "")]);
    assert!(!partition_table_fits(&d));
    let mut d = gpt(&[]);
    d[584..592].copy_from_slice(&u64::MAX.to_le_bytes());
    assert!(!partition_table_fits(&d));
}

#[test]
fn guids_and_their_file_systems() {
    assert_eq!(guid_to_type(&LINUX_FS), "Linux filesystem");
    assert_eq!(format_guid(&LINUX_FS), "0FC63DAF-8483-4772-8E79-3D69D8477DE4");
    assert_eq!(format_guid(&LINUX_FS[..15]), "?");
    assert_eq!(type_guid_to_fs("Linux /home"), "ext4/xfs/btrfs/...");
    assert_eq!(type_guid_to_fs("EFI System"), "FAT32");
    assert_eq!(type_guid_to_fs("Linux swap"), "swap");
    assert_eq!(type_guid_to_fs("Linux LVM"), "LVM2");
    assert_eq!(type_guid_to_fs("Windows basic"), "NTFS");
    assert_eq!(type_guid_to_fs("?"), "");
}

#[test]
fn utf16_names_end_at_zero_and_lose_surrogates() {
    assert_eq!(decode_utf16le_name(&[0x45, 0, 0xe9, 0, 0, 0, 0x41, 0]), "E\u{e9}");
    assert_eq!(decode_utf16le_name(&[0x3d, 0xd8, 0x00, 0xde, 0x41, 0]), "A");
    assert_eq!(decode_utf16le_name(&[0x41, 0, 0x42]), "A");
}

fn block(at: usize, bytes: &[u8]) -> Vec<u8> {
    let mut d = vec![0u8; 1088];
    d[at..at + bytes.len()].copy_from_slice(bytes);
    d
}

#[test]
fn signatures_of_file_systems() {
    assert_eq!(detect_fs_at(&block(1080, &[0x53, 0xEF])), "ext4");
    assert_eq!(detect_fs_at(&block(0, b"XFSB")), "XFS");
    assert_eq!(detect_fs_at(&block(0, b"_BHRf")), "btrfs");
    assert_eq!(detect_fs_at(&block(0, b"LVM2")), "LVM2");
    assert_eq!(detect_fs_at(&block(1080, b"NTFS    ")), "NTFS");
    assert_eq!(detect_fs_at(&block(3, b"MSDOS")), "FAT");
    assert_eq!(detect_fs_at(&block(82, b"FAT32   ")), "FAT");
    assert_eq!(detect_fs_at(&block(0, b"")), "");
    assert_eq!(detect_fs_at(&block(0, b"XFSB")[..1087]), "");
}

// ---------------------------------------------------------------- probes

fn partition(offset: u64, length: u64) -> Partition {
    Partition {
        number: 1,
        name: "P1".to_string(),
        start_sector: offset / 512,
        num_sectors: length / 512,
        type_guid: "83".to_string(),
        fs_type: "Linux".to_string(),
        byte_offset: offset,
        byte_length: length,
    }
}

#[test]
fn table_read_is_bounded() {
    assert_eq!(read_len_for(1000), 1000);
    assert_eq!(read_len_for(2_097_152), 2_097_152);
    assert_eq!(read_len_for(u64::MAX), 2_097_152);
}

#[test]
fn probes_are_read_beyond_the_buffer() {
    let table = vec![partition(512, 4096), partition(8192, 4096), partition(8192, 100), partition(9000, 0)];
    assert_eq!(
        plan_probes(&table, 8192),
        vec![None, Some((8192, 2048)), Some((8192, 100)), None]
    );
}

#[test]
fn probes_tell_file_systems() {
    let mut data = vec![0u8; 8192];
    data[512..516].copy_from_slice(b"XFSB");
    let table = vec![partition(512, 4096), partition(8192, 4096), partition(8192, 4096), partition(1024, 4096)];
    let probes = vec![None, Some(block(1080, &[0x53, 0xEF])), None, Some(block(0, b"LVM2"))];
    let out = probe_partitions(table, &data, &probes);
    let fs: Vec<&str> = out.iter().map(|p| p.fs_type.as_str()).collect();
    // A partition inside the buffer takes no probe.
    assert_eq!(fs, vec!["XFS", "ext4", "Linux", "Linux"]);
}

#[test]
fn whole_devices_are_probed_at_three_places() {
    let mut d = vec![0u8; 70000];
    assert_eq!(detect_raw_fs(&d), "");
    d[65536..65540].copy_from_slice(b"_BHR");
    assert_eq!(detect_raw_fs(&d), "btrfs");
    d[1024..1028].copy_from_slice(b"LVM2");
    assert_eq!(detect_raw_fs(&d), "LVM2");
    d[1080..1082].copy_from_slice(&[0x53, 0xEF]);
    assert_eq!(detect_raw_fs(&d), "ext4");
    assert_eq!(detect_raw_fs(&d[..3]), "");
}

#[test]
fn the_raw_device_comes_first() {
    let raw = make_raw_partition("disk", 1300, "ext4".to_string());
    assert_eq!(sums(&raw), (0, "Raw device (disk)", 0, 2, "00", "ext4", 0, 1300));
    let out = add_raw(vec![partition(512, 512)], "disk", 1300, "ext4".to_string());
    assert_eq!(out.len(), 2);
    assert_eq!(out[0].number, 0);
    assert_eq!(out[1].name, "P1");
    assert_eq!(add_raw(vec![partition(512, 512)], "disk", 1300, String::new()).len(), 1);
    assert!(some_covers(&out, 1300));
    assert!(!some_covers(&out, 1301));
}

// ---------------------------------------------------------------- reading within a partition

#[test]
fn reads_stay_inside_the_partition() {
    let mut p = PartitionReader::new("disk", 1000, 10);
    assert_eq!((p.start(), p.len(), p.position()), (1000, 10, 0));
    assert_eq!(p.next_read(4), Some((1000, 4)));
    p.advance(4);
    assert_eq!(p.next_read(100), Some((1004, 6)));
    p.advance(6);
    assert_eq!(p.next_read(100), None);
    assert_eq!(p.seek(SeekTarget::End(-1)), Ok(9));
    assert_eq!(p.next_read(100), Some((1009, 1)));
    assert_eq!(p.seek(SeekTarget::Current(-10)), Err(NegativeSeek));
    assert_eq!(p.position(), 9);
    assert_eq!(p.inner_ref(), &"disk");
    *p.inner_mut() = "other";
    assert_eq!(p.into_inner(), "other");
}

#[test]
fn partition_reads_the_bytes_of_the_device() {
    let index = build_index(&vec![ClusterEntry { cluster: 1, offset: 0, mask: 0xffff }]);
    let file: Vec<u8> = (0..65536u32).map(|i| (i % 253) as u8).collect();
    let mut p = PartitionReader::new(VmaDeviceReader::new(131072, index), 65536 + 100, 50);
    assert_eq!(p.seek(SeekTarget::Start(40)), Ok(40));
    let (at, most) = match p.next_read(30) {
        Some(r) => r,
        None => panic!("end"),
    };
    assert_eq!((at, most), (65536 + 140, 10));
    assert_eq!(p.inner_mut().seek(SeekTarget::Start(at)), Ok(at));
    let got = p.inner_mut().read(most, &file);
    assert_eq!(got, file[140..150].to_vec());
    p.advance(got.len());
    assert_eq!(p.next_read(30), None);
}
