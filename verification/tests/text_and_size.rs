//! Texts, numbers, sizes and orders.

use vzdump_browser::bytes::{
    get_be16, get_be32, get_be64, get_be64_signed, get_le16, get_le32, get_le64, matches_at,
    to_signed, zeros,
};
use vzdump_browser::size::format_size;
use vzdump_browser::sorting::{is_before, stable_sort};
use vzdump_browser::text::{
    chars_of, concat_texts, decimal_signed_text, decimal_text, has_ending, has_part, preview_text,
    push_hex, push_hex_bytes, push_left_aligned, push_repeated, push_right_aligned, same_text,
    split_on, text_between, trimmed_end, trimmed_start,
};
use vzdump_browser::tree::TreeItem;

#[test]
fn numbers_in_bytes() {
    let d = [0x01u8, 0x02, 0x03, 0x04, 0xff, 0xfe, 0xfd, 0xfc, 0x80];
    assert_eq!(get_be16(&d, 0), 0x0102);
    assert_eq!(get_be32(&d, 1), 0x020304ff);
    assert_eq!(get_be64(&d, 0), 0x01020304fffefdfc);
    assert_eq!(get_le16(&d, 4), 0xfeff);
    assert_eq!(get_le32(&d, 0), 0x04030201);
    assert_eq!(get_le64(&d, 1), 0x80fcfdfeff040302);
    assert_eq!(get_be64_signed(&[0xff; 8], 0), -1);
    assert_eq!(to_signed(u64::MAX), -1);
    assert_eq!(to_signed(5), 5);
    assert!(matches_at(&d, 4, &[0xff, 0xfe]));
    assert!(!matches_at(&d, 8, &[0x80, 0x00]));
    assert_eq!(zeros(3), vec![0, 0, 0]);
}

#[test]
fn decimal_numbers() {
    assert_eq!(decimal_text(0), "0");
    assert_eq!(decimal_text(u64::MAX), "18446744073709551615");
    assert_eq!(decimal_signed_text(i64::MIN), "-9223372036854775808");
    assert_eq!(decimal_signed_text(42), "42");
}

#[test]
fn hexadecimal_numbers() {
    let mut s = String::new();
    push_hex(&mut s, 0xBEEF, 8, true);
    push_hex(&mut s, 0xBEEF, 2, false);
    push_hex_bytes(&mut s, &[0x0a, 0xff, 0x10], 0, 2, false);
    assert_eq!(s, "0000BEEFbeef0aff");
}

#[test]
fn padding_counts_characters() {
    let mut s = String::new();
    push_left_aligned(&mut s, "é", 3);
    push_right_aligned(&mut s, "é", 3);
    push_left_aligned(&mut s, "long", 3);
    push_repeated(&mut s, '━', 2);
    assert_eq!(s, format!("{:<3}{:>3}{:<3}━━", "é", "é", "long"));
}

#[test]
fn parts_of_texts() {
    assert_eq!(trimmed_end("a\0\0", '\0'), "a");
    assert_eq!(trimmed_start("//a/", '/'), "a/");
    assert!(has_ending("x.vma", ".vma"));
    assert!(!has_ending("vma", ".vma"));
    assert!(has_part("a/ext4/xfs", "ext4/xfs"));
    assert!(!has_part("ex", "ext"));
    assert!(has_part("", ""));
    assert_eq!(split_on("a//b", '/'), vec!["a", "", "b"]);
    assert_eq!(split_on("", '/'), vec![""]);
    assert_eq!(preview_text("ab\ncd", 4), "abc");
    assert_eq!(concat_texts("é", "x"), "éx");
    assert!(same_text("é", "é"));
    assert!(!same_text("e", "é"));
    assert_eq!(chars_of("né"), vec!['n', 'é']);
    assert_eq!(text_between(&chars_of("abcd"), 1, 3), "bc");
}

/// A size as floating point numbers show it.
fn shown(size: u64) -> String {
    if size < 1024 {
        format!("{} B", size)
    } else if size < 1_048_576 {
        format!("{:.1} KB", size as f64 / 1024.0)
    } else if size < 1_073_741_824 {
        format!("{:.1} MB", size as f64 / 1_048_576.0)
    } else {
        format!("{:.2} GB", size as f64 / 1_073_741_824.0)
    }
}

#[test]
fn sizes_in_words() {
    assert_eq!(format_size(0), "0 B");
    assert_eq!(format_size(1023), "1023 B");
    assert_eq!(format_size(1024), "1.0 KB");
    assert_eq!(format_size(1280), "1.2 KB");
    assert_eq!(format_size(1792), "1.8 KB");
    assert_eq!(format_size(1_048_575), "1024.0 KB");
    assert_eq!(format_size(1_048_576), "1.0 MB");
    assert_eq!(format_size(32 * 1_073_741_824), "32.00 GB");
    assert_eq!(format_size(u64::MAX), "17179869184.00 GB");
}

#[test]
fn sizes_agree_with_floating_point() {
    let mut n: u64 = 1;
    let mut seed: u64 = 12345;
    for _ in 0..20000 {
        seed = seed.wrapping_mul(6364136223846793005).wrapping_add(1442695040888963407);
        n = n.wrapping_mul(31).wrapping_add(seed >> 33);
        let size = n >> (seed % 64);
        assert_eq!(format_size(size), shown(size), "{}", size);
    }
    for k in 0..64u64 {
        for d in [0u64, 1, 512, 1 << 9, 1 << 19] {
            let size = (1u64 << k).wrapping_sub(d);
            assert_eq!(format_size(size), shown(size), "{}", size);
            let size = (1u64 << k).wrapping_add(d);
            assert_eq!(format_size(size), shown(size), "{}", size);
        }
    }
    // Quotients that lie exactly between two decimals.
    for k in 0..2000u64 {
        let size = 1024 + 256 * k;
        assert_eq!(format_size(size), shown(size), "{}", size);
        let size = (1 << 30) + k * (1 << 27);
        assert_eq!(format_size(size), shown(size), "{}", size);
    }
}

#[test]
fn bytes_are_ordered() {
    assert!(is_before(b"", b"a"));
    assert!(is_before(b"a", b"ab"));
    assert!(is_before(b"B", b"a"));
    assert!(!is_before(b"a", b"a"));
    assert!(!is_before(b"b", b"ab"));
}

#[test]
fn sorting_is_stable() {
    let item = |ino: u32, name: &str, file_type: u8| TreeItem { ino, name: name.to_string(), file_type };
    let sorted = stable_sort(vec![
        item(1, "b", 1),
        item(2, "z", 2),
        item(3, "a", 7),
        item(4, "b", 1),
        item(5, "A", 2),
        item(6, "b", 1),
    ]);
    let order: Vec<u32> = sorted.iter().map(|e| e.ino).collect();
    assert_eq!(order, vec![5, 2, 3, 1, 4, 6]);
}
