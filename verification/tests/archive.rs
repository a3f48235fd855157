//! Headers, extents and devices of archives.

use std::collections::HashMap;
use std::path::PathBuf;

use vzdump_browser::cluster::{
    build_index, find_entry, is_stored, scatter, stored_len, ClusterEntry, ClusterIndex,
};
use vzdump_browser::extent::ExtentWalk;
use vzdump_browser::reader::{Source, VmaDeviceReader};
use vzdump_browser::seek::{can_seek, resolve_seek, NegativeSeek, SeekTarget};
use vzdump_browser::vma::{
    check_magic, header_can_be_read, header_size, name_or, parse_config, parse_devices,
    parse_header_bytes, read_blobs, shown_time, ArchiveScan, VmaArchive, VmaError,
};

const BLOBS: usize = 12288;

fn put_be32(d: &mut [u8], o: usize, n: u32) {
    d[o..o + 4].copy_from_slice(&n.to_be_bytes());
}

fn put_be64(d: &mut [u8], o: usize, n: u64) {
    d[o..o + 8].copy_from_slice(&n.to_be_bytes());
}

/// A header whose blobs are the given ones; gives the key of each.
fn header(blobs: &[&[u8]]) -> (Vec<u8>, Vec<u32>) {
    let mut d = vec![0u8; 16384];
    d[0..4].copy_from_slice(b"VMA\0");
    put_be32(&mut d, 48, BLOBS as u32);
    put_be32(&mut d, 52, 4096);
    put_be32(&mut d, 56, 16384);
    let mut keys = Vec::new();
    let mut p = BLOBS + 1;
    for b in blobs {
        keys.push((p - BLOBS) as u32);
        d[p..p + 2].copy_from_slice(&(b.len() as u16).to_le_bytes());
        d[p + 2..p + 2 + b.len()].copy_from_slice(b);
        p += 2 + b.len();
    }
    (d, keys)
}

fn set_device(d: &mut [u8], slot: usize, name: u32, size: u64) {
    put_be32(d, 4096 + 32 * slot, name);
    put_be64(d, 4096 + 32 * slot + 8, size);
}

/// An extent header with some slots: device, cluster, mask.
fn extent(block_count: u16, slots: &[(u8, u32, u16)]) -> Vec<u8> {
    let mut h = vec![0u8; 512];
    h[0..4].copy_from_slice(b"VMAE");
    h[6..8].copy_from_slice(&block_count.to_be_bytes());
    for (i, (dev, cluster, mask)) in slots.iter().enumerate() {
        let o = 40 + 8 * i;
        h[o..o + 2].copy_from_slice(&mask.to_be_bytes());
        h[o + 3] = *dev;
        put_be32(&mut h, o + 4, *cluster);
    }
    h
}

fn scan_all(header: &[u8], file: &[u8]) -> VmaArchive {
    let mut scan = match ArchiveScan::new(header, file.len() as u64) {
        Ok(s) => s,
        Err(_) => panic!("header"),
    };
    while let Some(p) = scan.next_header() {
        let p = p as usize;
        scan.feed(&file[p..p + 512]);
    }
    VmaArchive::open(PathBuf::from("/backups/a.vma"), scan)
}

fn read_some(r: &mut VmaDeviceReader, file: &[u8], want: usize) -> Vec<u8> {
    let stored = match r.source() {
        Source::Stored { offset, len } => file[offset as usize..offset as usize + len].to_vec(),
        _ => Vec::new(),
    };
    r.read(want, &stored)
}

// ---------------------------------------------------------------- signature and header

#[test]
fn signatures_of_files() {
    assert_eq!(check_magic(&[0x28, 0xb5, 0x2f, 0xfd]), Err(VmaError::Zstd));
    assert_eq!(check_magic(&[0x1f, 0x8b, 0x08, 0x00]), Err(VmaError::Gzip));
    assert_eq!(check_magic(b"VMAE"), Err(VmaError::NotVma));
    assert_eq!(check_magic(b"VMA\0"), Ok(()));
    assert_eq!(check_magic(b"VM"), Err(VmaError::NotVma));
}

#[test]
fn messages_name_the_file() {
    assert_eq!(
        VmaError::Zstd.message("a.vma.zst"),
        "a.vma.zst is zstd-compressed.\nDecompress first:  zstd -d a.vma.zst"
    );
    assert_eq!(
        VmaError::Gzip.message("a.gz"),
        "a.gz is gzip-compressed.\nDecompress first:  gunzip a.gz"
    );
    assert_eq!(VmaError::NotVma.message("x"), "x is not a valid VMA file");
    assert_eq!(VmaError::InvalidHeader.message("x"), "Invalid VMA header");
    assert_eq!(VmaError::BadDeviceIndex.message("x"), "bad device index");
}

#[test]
fn header_gives_devices_config_and_time() {
    let (mut d, k) = header(&[b"qemu-server.conf\0", b"cores: 2\nname: vm\n", b"drive-scsi0\0\0"]);
    put_be64(&mut d, 24, 1_700_000_000);
    put_be32(&mut d, 2044, k[0]);
    put_be32(&mut d, 3068, k[1]);
    // A slot with a name and no contents is no file.
    put_be32(&mut d, 2048, k[0]);
    set_device(&mut d, 0, k[2], 1 << 20);
    set_device(&mut d, 1, k[2], 0);
    set_device(&mut d, 4, 9999, 512);
    assert_eq!(header_size(&d), 16384);
    assert!(header_can_be_read(&d));
    let (devices, config, ctime) = match parse_header_bytes(&d) {
        Ok(h) => h,
        Err(_) => panic!("header"),
    };
    assert_eq!(ctime, "2023-11-14 22:13:20");
    assert_eq!(
        config,
        vec![("qemu-server.conf".to_string(), "cores: 2\nname: vm\n".to_string())]
    );
    assert_eq!(devices.len(), 2);
    assert_eq!(
        (devices[0].name.as_str(), devices[0].size, devices[0].dev_id),
        ("drive-scsi0", 1 << 20, 0)
    );
    assert_eq!(
        (devices[1].name.as_str(), devices[1].size, devices[1].dev_id),
        ("device_5", 512, 4)
    );
}

#[test]
fn blobs_are_found_by_their_place() {
    let (d, k) = header(&[b"first", b"", b"third\0"]);
    let table = read_blobs(&d);
    assert_eq!(k, vec![1, 8, 10]);
    assert_eq!(table.get(&1).map(String::as_str), Some("first"));
    assert_eq!(table.get(&8).map(String::as_str), Some(""));
    assert_eq!(table.get(&10).map(String::as_str), Some("third\0"));
}

#[test]
fn slots_refer_to_texts() {
    let (mut d, _) = header(&[]);
    put_be32(&mut d, 2044, 5);
    put_be32(&mut d, 3068, 6);
    put_be32(&mut d, 2044 + 4 * 255, 6);
    put_be32(&mut d, 3068 + 4 * 255, 5);
    set_device(&mut d, 254, 5, 9);
    let table = HashMap::from([(5u32, "name\0".to_string()), (6, "text\0".to_string())]);
    assert_eq!(
        parse_config(&d, &table),
        vec![
            ("name".to_string(), "text\0".to_string()),
            ("text".to_string(), "name\0".to_string()),
        ]
    );
    let devices = parse_devices(&d, &table);
    assert_eq!(devices.len(), 1);
    assert_eq!((devices[0].name.as_str(), devices[0].dev_id), ("name", 254));
    // A header that ends before its slots has none.
    assert!(parse_config(&d[..3071], &table).is_empty());
    assert_eq!(parse_config(&d[..3072], &table).len(), 1);
    assert!(parse_devices(&d[..4096 + 32 * 254 + 31], &table).is_empty());
}

#[test]
fn missing_blobs_leave_empty_config() {
    let (mut d, _) = header(&[]);
    put_be32(&mut d, 2044 + 4 * 7, 77);
    put_be32(&mut d, 3068 + 4 * 7, 78);
    let (_, config, ctime) = match parse_header_bytes(&d) {
        Ok(h) => h,
        Err(_) => panic!("header"),
    };
    assert_eq!(config, vec![(String::new(), String::new())]);
    assert_eq!(ctime, "1970-01-01 00:00:00");
}

#[test]
fn invalid_utf8_in_names_is_replaced() {
    let (mut d, k) = header(&[b"a\xffb\0"]);
    set_device(&mut d, 0, k[0], 1);
    let (devices, _, _) = match parse_header_bytes(&d) {
        Ok(h) => h,
        Err(_) => panic!("header"),
    };
    assert_eq!(devices[0].name, "a\u{fffd}b");
}

#[test]
fn times_without_a_date_are_seconds() {
    let (mut d, _) = header(&[]);
    put_be64(&mut d, 24, i64::MIN as u64);
    let (_, _, ctime) = match parse_header_bytes(&d) {
        Ok(h) => h,
        Err(_) => panic!("header"),
    };
    assert_eq!(ctime, "-9223372036854775808");
    put_be64(&mut d, 24, (-1i64) as u64);
    let (_, _, ctime) = match parse_header_bytes(&d) {
        Ok(h) => h,
        Err(_) => panic!("header"),
    };
    assert_eq!(ctime, "1969-12-31 23:59:59");
    put_be64(&mut d, 24, 8_210_266_876_799);
    let (_, _, ctime) = match parse_header_bytes(&d) {
        Ok(h) => h,
        Err(_) => panic!("header"),
    };
    assert_eq!(ctime, "+262142-12-31 23:59:59");
    put_be64(&mut d, 24, 8_210_266_876_800);
    let (_, _, ctime) = match parse_header_bytes(&d) {
        Ok(h) => h,
        Err(_) => panic!("header"),
    };
    assert_eq!(ctime, "8210266876800");
    put_be64(&mut d, 24, (-8_334_601_228_800i64) as u64);
    let (_, _, ctime) = match parse_header_bytes(&d) {
        Ok(h) => h,
        Err(_) => panic!("header"),
    };
    assert_eq!(ctime, "-262143-01-01 00:00:00");
    put_be64(&mut d, 24, (-8_334_601_228_801i64) as u64);
    let (_, _, ctime) = match parse_header_bytes(&d) {
        Ok(h) => h,
        Err(_) => panic!("header"),
    };
    assert_eq!(ctime, "-8334601228801");
}

#[test]
fn shown_time_prefers_the_date() {
    assert_eq!(shown_time(5, Some("today".to_string())), "today");
    assert_eq!(shown_time(-5, None), "-5");
}

#[test]
fn names_lose_their_zeros() {
    assert_eq!(name_or(Some("a\0b\0\0".to_string()), "x".to_string()), "a\0b");
    assert_eq!(name_or(None, "x".to_string()), "x");
}

#[test]
fn short_or_foreign_headers_are_invalid() {
    assert!(matches!(parse_header_bytes(&[0u8; 59]), Err(VmaError::InvalidHeader)));
    assert!(matches!(parse_header_bytes(&[0u8; 100]), Err(VmaError::InvalidHeader)));
    assert!(header_can_be_read(&[0u8; 100]));
}

#[test]
fn a_blob_length_cut_off_is_noticed() {
    let mut d = vec![0u8; 100];
    d[0..4].copy_from_slice(b"VMA\0");
    put_be32(&mut d, 48, 98);
    put_be32(&mut d, 52, 50);
    assert!(!header_can_be_read(&d));
    // The blob area ends before the length.
    put_be32(&mut d, 52, 2);
    assert!(header_can_be_read(&d));
    // A blob that does not fit ends the list.
    put_be32(&mut d, 48, 60);
    put_be32(&mut d, 52, 50);
    d[61] = 200;
    assert!(header_can_be_read(&d));
}

// ---------------------------------------------------------------- clusters

#[test]
fn masks_name_stored_blocks() {
    assert!(is_stored(0x8001, 0));
    assert!(!is_stored(0x8001, 1));
    assert!(is_stored(0x8001, 15));
    assert_eq!(stored_len(0), 0);
    assert_eq!(stored_len(0xffff), 65536);
    assert_eq!(stored_len(0x8001), 8192);
}

#[test]
fn empty_and_full_masks() {
    assert_eq!(scatter(0, &[]), vec![0u8; 65536]);
    let payload: Vec<u8> = (0..65536u32).map(|i| (i % 251) as u8).collect();
    assert_eq!(scatter(0xffff, &payload), payload);
}

#[test]
fn blocks_go_to_their_places() {
    let mut payload = vec![1u8; 4096];
    payload.extend(vec![2u8; 4096]);
    let c = scatter(0b1010, &payload);
    assert_eq!(c.len(), 65536);
    assert!(c[..4096].iter().all(|b| *b == 0));
    assert!(c[4096..8192].iter().all(|b| *b == 1));
    assert!(c[8192..12288].iter().all(|b| *b == 0));
    assert!(c[12288..16384].iter().all(|b| *b == 2));
    assert!(c[16384..].iter().all(|b| *b == 0));
}

#[test]
fn first_entry_for_a_cluster_wins() {
    let e = |cluster: u64, offset: u64| ClusterEntry { cluster, offset, mask: 1 };
    let index = build_index(&vec![e(5, 10), e(2, 20), e(5, 30), e(9, 40), e(2, 50)]);
    let got: Vec<(u64, u64)> = index.entries().iter().map(|e| (e.cluster, e.offset)).collect();
    assert_eq!(got, vec![(2, 20), (5, 10), (9, 40)]);
    assert_eq!(find_entry(&index, 5).map(|e| e.offset), Some(10));
    assert!(find_entry(&index, 6).is_none());
    assert!(find_entry(&ClusterIndex::new(), 0).is_none());
    assert_eq!(index.duplicate().entries().len(), 3);
}

// ---------------------------------------------------------------- extents

#[test]
fn walk_starts_behind_the_header() {
    assert_eq!(ExtentWalk::new(600, 4096, 1).next_header(), Some(1024));
    assert_eq!(ExtentWalk::new(512, 1024, 1).next_header(), Some(512));
    assert_eq!(ExtentWalk::new(512, 1023, 1).next_header(), None);
}

#[test]
fn walk_skips_sectors_and_follows_extents() {
    let mut w = ExtentWalk::new(0, 1 << 30, 2);
    w.feed(&vec![0u8; 512]);
    assert_eq!(w.next_header(), Some(512));
    w.feed(&extent(17, &[(1, 3, 0xffff), (0, 0, 0), (0, 7, 0x0001), (9, 1, 0x0003), (1, 4, 0)]));
    assert_eq!(w.next_header(), Some(512 + 512 + 17 * 4096));
    let index = w.into_index();
    assert_eq!(index.len(), 2);
    let got: Vec<(u64, u64, u16)> = index[0].entries().iter().map(|e| (e.cluster, e.offset, e.mask)).collect();
    assert_eq!(got, vec![(7, 1024 + 65536, 1)]);
    let got: Vec<(u64, u64, u16)> = index[1].entries().iter().map(|e| (e.cluster, e.offset, e.mask)).collect();
    // The blocks of a device without an index still count.
    assert_eq!(got, vec![(3, 1024, 0xffff), (4, 1024 + 65536 + 4096 + 8192, 0)]);
}

/// A file with two extents: device 0 has clusters 0 and 2, the second extent repeats cluster 2.
fn small_archive() -> (Vec<u8>, Vec<u8>) {
    let (mut h, k) = header(&[b"disk\0"]);
    set_device(&mut h, 0, k[0], 3 * 65536 - 100);
    let mut file = h.clone();
    file.extend(extent(17, &[(0, 2, 0xffff), (0, 0, 0x0002)]));
    file.extend((0..65536u32).map(|i| (i / 256) as u8));
    file.extend(vec![7u8; 4096]);
    file.extend(extent(1, &[(0, 2, 0x0001)]));
    file.extend(vec![9u8; 4096]);
    (h, file)
}

#[test]
fn device_reads_what_extents_store() {
    let (h, file) = small_archive();
    let archive = scan_all(&h, &file);
    assert_eq!(archive.devices.len(), 1);
    assert_eq!(archive.devices[0].name, "disk");
    assert_eq!(archive.path(), &PathBuf::from("/backups/a.vma"));
    let mut r = match archive.open_device(0) {
        Ok(r) => r,
        Err(_) => panic!("device"),
    };
    assert_eq!(r.size(), 3 * 65536 - 100);
    let mut all = Vec::new();
    loop {
        let got = read_some(&mut r, &file, 50000);
        if got.is_empty() {
            break;
        }
        all.extend(got);
        assert_eq!(r.position(), all.len() as u64);
    }
    let mut expected = vec![0u8; 4096];
    expected.extend(vec![7u8; 4096]);
    expected.extend(vec![0u8; 65536 - 8192]);
    expected.extend(vec![0u8; 65536]);
    expected.extend((0..65536u32 - 100).map(|i| (i / 256) as u8));
    assert_eq!(all, expected);
    assert_eq!(r.source(), Source::End);
}

#[test]
fn devices_outside_the_list_are_refused() {
    let (h, file) = small_archive();
    let archive = scan_all(&h, &file);
    assert!(matches!(archive.open_device(1), Err(VmaError::BadDeviceIndex)));
}

#[test]
fn an_archive_without_devices_is_empty() {
    let (h, _) = header(&[]);
    let archive = scan_all(&h, &h);
    assert!(archive.devices.is_empty());
    assert!(archive.config.is_empty());
    assert_eq!(archive.created(), "1970-01-01 00:00:00");
    assert_eq!(archive.config_list().len(), 0);
    assert_eq!(archive.device_list().len(), 0);
    assert!(matches!(archive.open_device(0), Err(VmaError::BadDeviceIndex)));
}

#[test]
fn scan_refuses_an_invalid_header() {
    assert!(matches!(ArchiveScan::new(&[0u8; 60], 60), Err(VmaError::InvalidHeader)));
}

// ---------------------------------------------------------------- reader

#[test]
fn reader_keeps_the_last_cluster() {
    let index = build_index(&vec![ClusterEntry { cluster: 1, offset: 1000, mask: 0x0001 }]);
    let mut r = VmaDeviceReader::new(131072, index);
    assert_eq!(r.source(), Source::Zeros);
    assert_eq!(r.source_of(1), Source::Stored { offset: 1000, len: 4096 });
    assert_eq!(r.seek(SeekTarget::Start(65536)), Ok(65536));
    assert_eq!(r.source(), Source::Stored { offset: 1000, len: 4096 });
    assert_eq!(r.read(3, &[5u8; 4096]), vec![5, 5, 5]);
    assert_eq!(r.source(), Source::Cached);
    assert_eq!(r.read(3, &[]), vec![5, 5, 5]);
    assert_eq!(r.position(), 65542);
    r.read_cluster(0, &[]);
    assert_eq!(r.source_of(0), Source::Cached);
    assert_eq!(r.source_of(1), Source::Stored { offset: 1000, len: 4096 });
}

#[test]
fn reads_stop_at_clusters_and_the_end() {
    let mut r = VmaDeviceReader::new(65536 + 10, ClusterIndex::new());
    assert_eq!(r.read(100_000, &[]).len(), 65536);
    assert_eq!(r.read(100_000, &[]).len(), 10);
    assert_eq!(r.read(100_000, &[]).len(), 0);
    assert_eq!(r.seek(SeekTarget::End(-4)), Ok(65542));
    assert_eq!(r.read(2, &[]), vec![0, 0]);
}

#[test]
fn seeks_stay_inside() {
    assert_eq!(resolve_seek(SeekTarget::Start(7), 100, 3), Ok(7));
    assert_eq!(resolve_seek(SeekTarget::Start(700), 100, 3), Ok(100));
    assert_eq!(resolve_seek(SeekTarget::Start(1 << 63), 100, 3), Err(NegativeSeek));
    assert_eq!(resolve_seek(SeekTarget::End(-1), 100, 3), Ok(99));
    assert_eq!(resolve_seek(SeekTarget::End(1), 100, 3), Ok(100));
    assert_eq!(resolve_seek(SeekTarget::End(-101), 100, 3), Err(NegativeSeek));
    assert_eq!(resolve_seek(SeekTarget::Current(0), 100, 3), Ok(3));
    assert_eq!(resolve_seek(SeekTarget::Current(-4), 100, 3), Err(NegativeSeek));
    assert!(can_seek(SeekTarget::Current(i64::MAX), 100, 0));
    assert!(!can_seek(SeekTarget::Current(i64::MAX), 100, 1));
    assert!(!can_seek(SeekTarget::End(i64::MAX), 1, 0));
}

#[test]
fn a_refused_seek_leaves_the_position() {
    let mut r = VmaDeviceReader::new(100, ClusterIndex::new());
    assert_eq!(r.seek(SeekTarget::Start(40)), Ok(40));
    assert_eq!(r.seek(SeekTarget::Current(-41)), Err(NegativeSeek));
    assert_eq!(r.position(), 40);
}
