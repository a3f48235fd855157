//! Partition tables (MBR and GPT), file system signatures, and reading within one partition.
use vstd::prelude::*;
use crate::bytes::{
    get_le16, get_le32, get_le64, has_at, le16, le32, le64, little_endian, little_endian_bytes,
    matches_at,
};
use crate::reader::{
    comes_from, device_image, keeps, next_source, read_bytes, read_count, sound, ReaderState,
    VmaDeviceReader,
};
use crate::seek::{resolve_seek, seek_fits, seek_position, NegativeSeek, SeekTarget};
use crate::text::{
    decimal, hex_bytes, hex_padded, is_hex_digit, number_in, push_decimal, push_hex, push_hex_bytes, same_text,
};

verus! {

/// `char::from_u32` gives the character with a number, and none where the number is a
/// surrogate or above the last character.
pub assume_specification[ char::from_u32 ](i: u32) -> (r: Option<char>)
    ensures
        r == (if is_character(i as int) {
            Some(i as char)
        } else {
            None
        }),
;

/// `n` is the number of a character.
pub open spec fn is_character(n: int) -> bool {
    0 <= n < 0xd800 || 0xe000 <= n < 0x11_0000
}

/// One entry of a partition table.
#[derive(Clone, Debug)]
pub struct Partition {
    pub number: u8,
    pub name: String,
    pub start_sector: u64,
    pub num_sectors: u64,
    pub type_guid: String,
    pub fs_type: String,
    /// Byte offset of this partition within the parent device
    pub byte_offset: u64,
    /// Byte length of this partition
    pub byte_length: u64,
}

/// What a partition says, with its texts as sequences of characters.
pub struct PartitionView {
    pub number: u8,
    pub name: Seq<char>,
    pub start_sector: u64,
    pub num_sectors: u64,
    pub type_guid: Seq<char>,
    pub fs_type: Seq<char>,
    pub byte_offset: u64,
    pub byte_length: u64,
}

impl View for Partition {
    type V = PartitionView;

    open spec fn view(&self) -> PartitionView {
        PartitionView {
            number: self.number,
            name: self.name@,
            start_sector: self.start_sector,
            num_sectors: self.num_sectors,
            type_guid: self.type_guid@,
            fs_type: self.fs_type@,
            byte_offset: self.byte_offset,
            byte_length: self.byte_length,
        }
    }
}

/// What the partitions of a list say.
pub open spec fn shown(v: Seq<Partition>) -> Seq<PartitionView> {
    v.map_values(|p: Partition| p@)
}

// ---------------------------------------------------------------- MBR

/// The name of an MBR partition type.
pub open spec fn mbr_type_name(pt: u8) -> Seq<char> {
    if pt == 0x01 {
        "FAT12"@
    } else if pt == 0x04 {
        "FAT16"@
    } else if pt == 0x06 {
        "FAT16B"@
    } else if pt == 0x07 {
        "NTFS/exFAT"@
    } else if pt == 0x0b {
        "FAT32"@
    } else if pt == 0x0c {
        "FAT32 LBA"@
    } else if pt == 0x0e {
        "FAT16 LBA"@
    } else if pt == 0x82 {
        "swap"@
    } else if pt == 0x83 {
        "Linux"@
    } else if pt == 0x8e {
        "LVM"@
    } else if pt == 0xee {
        "GPT"@
    } else if pt == 0xef {
        "EFI"@
    } else {
        "?"@
    }
}

/// The type byte of MBR slot `i`.
pub open spec fn mbr_type(d: Seq<u8>, i: int) -> u8 {
    d[446 + i * 16 + 4]
}

/// The partition in MBR slot `i`.
pub open spec fn mbr_partition(d: Seq<u8>, i: int) -> PartitionView {
    let e = 446 + i * 16;
    PartitionView {
        number: (i + 1) as u8,
        name: "P"@ + decimal((i + 1) as nat),
        start_sector: le32(d, e + 8) as u64,
        num_sectors: le32(d, e + 12) as u64,
        type_guid: hex_padded(mbr_type(d, i) as nat, 2, true),
        fs_type: mbr_type_name(mbr_type(d, i)),
        byte_offset: (le32(d, e + 8) * 512) as u64,
        byte_length: (le32(d, e + 12) * 512) as u64,
    }
}

/// The partitions in the first `n` MBR slots: those inside the data whose type is not zero.
pub open spec fn mbr_partitions(d: Seq<u8>, n: int) -> Seq<PartitionView>
    decreases n,
{
    if n <= 0 {
        seq![]
    } else if 446 + n * 16 <= d.len() && mbr_type(d, n - 1) != 0 {
        mbr_partitions(d, n - 1).push(mbr_partition(d, n - 1))
    } else {
        mbr_partitions(d, n - 1)
    }
}

fn mbr_type_text(pt: u8) -> (r: String)
    ensures
        r@ == mbr_type_name(pt),
{
    match pt {
        0x01 => "FAT12".to_owned(),
        0x04 => "FAT16".to_owned(),
        0x06 => "FAT16B".to_owned(),
        0x07 => "NTFS/exFAT".to_owned(),
        0x0b => "FAT32".to_owned(),
        0x0c => "FAT32 LBA".to_owned(),
        0x0e => "FAT16 LBA".to_owned(),
        0x82 => "swap".to_owned(),
        0x83 => "Linux".to_owned(),
        0x8e => "LVM".to_owned(),
        0xee => "GPT".to_owned(),
        0xef => "EFI".to_owned(),
        _ => "?".to_owned(),
    }
}

/// The name of a partition that has none of its own.
fn numbered_name(n: u64) -> (r: String)
    ensures
        r@ == "P"@ + decimal(n as nat),
{
    let mut s = "P".to_owned();
    push_decimal(&mut s, n);
    s
}

/// Reads the four slots of an MBR.
pub fn parse_mbr(data: &[u8]) -> (r: Vec<Partition>)
    ensures
        shown(r@) == mbr_partitions(data@, 4),
{
    let mut p: Vec<Partition> = Vec::new();
    assert(shown(p@) =~= mbr_partitions(data@, 0));
    let mut i: usize = 0;
    while i < 4
        invariant
            i <= 4,
            shown(p@) == mbr_partitions(data@, i as int),
        decreases 4 - i,
    {
        let e: usize = 446 + i * 16;
        if e + 16 <= data.len() {
            let pt = data[e + 4];
            if pt != 0 {
                let start = get_le32(data, e + 8) as u64;
                let count = get_le32(data, e + 12) as u64;
                let mut type_guid = String::new();
                push_hex(&mut type_guid, pt as u64, 2, true);
                let ghost before = shown(p@);
                let next = Partition {
                    number: (i + 1) as u8,
                    name: numbered_name((i + 1) as u64),
                    start_sector: start,
                    num_sectors: count,
                    type_guid,
                    fs_type: mbr_type_text(pt),
                    byte_offset: start * 512,
                    byte_length: count * 512,
                };
                assert(next@.type_guid =~= mbr_partition(data@, i as int).type_guid);
                assert(next@ == mbr_partition(data@, i as int));
                p.push(next);
                assert(shown(p@) =~= before.push(mbr_partition(data@, i as int)));
            }
        }
        i = i + 1;
    }
    p
}

// ---------------------------------------------------------------- GUIDs

pub open spec fn linux_fs_guid() -> Seq<u8> {
    seq![
        0xAFu8, 0x3D, 0xC6, 0x0F, 0x83, 0x84, 0x72, 0x47, 0x8E, 0x79, 0x3D, 0x69, 0xD8, 0x47, 0x7D,
        0xE4,
    ]
}

pub open spec fn efi_system_guid() -> Seq<u8> {
    seq![
        0x28u8, 0x73, 0x2A, 0xC1, 0x1F, 0xF8, 0xD2, 0x11, 0xBA, 0x4B, 0x00, 0xA0, 0xC9, 0x3E, 0xC9,
        0x3B,
    ]
}

pub open spec fn linux_swap_guid() -> Seq<u8> {
    seq![
        0x6Du8, 0xFD, 0x57, 0x06, 0xAB, 0xA4, 0xC4, 0x43, 0x84, 0xE5, 0x09, 0x33, 0xC8, 0x4B, 0x4F,
        0x4F,
    ]
}

pub open spec fn linux_lvm_guid() -> Seq<u8> {
    seq![
        0x79u8, 0xD3, 0xD6, 0xE6, 0x07, 0xF5, 0xC2, 0x44, 0xA2, 0x3C, 0x23, 0x8F, 0x2A, 0x3D, 0xF9,
        0x28,
    ]
}

pub open spec fn linux_home_guid() -> Seq<u8> {
    seq![
        0xE1u8, 0xC7, 0x3A, 0x93, 0xB4, 0x2E, 0x13, 0x4F, 0xB8, 0x44, 0x0E, 0x14, 0xE2, 0xAE, 0xF9,
        0x15,
    ]
}

pub open spec fn windows_basic_guid() -> Seq<u8> {
    seq![
        0x16u8, 0xE3, 0xC9, 0xE3, 0x5C, 0x0B, 0xB8, 0x4D, 0x81, 0x7D, 0xF9, 0x2D, 0xF0, 0x02, 0x15,
        0xAE,
    ]
}

/// A GUID in its usual form: the first three groups little-endian, the others byte by byte.
pub open spec fn guid_text(g: Seq<u8>) -> Seq<char> {
    if g.len() < 16 {
        "?"@
    } else {
        hex_padded(le32(g, 0) as nat, 8, true) + "-"@ + hex_padded(le16(g, 4) as nat, 4, true)
            + "-"@ + hex_padded(le16(g, 6) as nat, 4, true) + "-"@ + hex_bytes(g, 8, 10, true) + "-"@
            + hex_bytes(g, 10, 16, true)
    }
}

/// What a type GUID stands for: a name where it is known, else the GUID itself.
pub open spec fn guid_type(g: Seq<u8>) -> Seq<char> {
    if g == linux_fs_guid() {
        "Linux filesystem"@
    } else if g == efi_system_guid() {
        "EFI System"@
    } else if g == linux_swap_guid() {
        "Linux swap"@
    } else if g == linux_lvm_guid() {
        "Linux LVM"@
    } else if g == linux_home_guid() {
        "Linux /home"@
    } else if g == windows_basic_guid() {
        "Windows basic"@
    } else {
        guid_text(g)
    }
}

/// The file system that a partition of a given type is expected to hold.
pub open spec fn type_fs(t: Seq<char>) -> Seq<char> {
    if t == "Linux filesystem"@ || t == "Linux /home"@ {
        "ext4/xfs/btrfs/..."@
    } else if t == "EFI System"@ {
        "FAT32"@
    } else if t == "Linux swap"@ {
        "swap"@
    } else if t == "Linux LVM"@ {
        "LVM2"@
    } else if t == "Windows basic"@ {
        "NTFS"@
    } else {
        seq![]
    }
}

/// A GUID in its usual form.
pub fn format_guid(guid: &[u8]) -> (r: String)
    ensures
        r@ == guid_text(guid@),
{
    if guid.len() < 16 {
        return "?".to_owned();
    }
    let mut s = String::new();
    push_hex(&mut s, get_le32(guid, 0) as u64, 8, true);
    s.append("-");
    push_hex(&mut s, get_le16(guid, 4) as u64, 4, true);
    s.append("-");
    push_hex(&mut s, get_le16(guid, 6) as u64, 4, true);
    s.append("-");
    push_hex_bytes(&mut s, guid, 8, 10, true);
    s.append("-");
    push_hex_bytes(&mut s, guid, 10, 16, true);
    assert(s@ =~= guid_text(guid@));
    s
}

fn is_guid(guid: &[u8], known: &[u8; 16]) -> (r: bool)
    ensures
        r == (guid@ == known@),
{
    let r = guid.len() == 16 && matches_at(guid, 0, known);
    assert(guid@.len() == 16 ==> guid@.subrange(0, 16) =~= guid@);
    r
}

/// What a type GUID stands for.
pub fn guid_to_type(guid: &[u8]) -> (r: String)
    ensures
        r@ == guid_type(guid@),
{
    let linux_fs: [u8; 16] = [
        0xAF, 0x3D, 0xC6, 0x0F, 0x83, 0x84, 0x72, 0x47, 0x8E, 0x79, 0x3D, 0x69, 0xD8, 0x47, 0x7D,
        0xE4,
    ];
    assert(linux_fs@ =~= linux_fs_guid());
    if is_guid(guid, &linux_fs) {
        return "Linux filesystem".to_owned();
    }
    let efi_system: [u8; 16] = [
        0x28, 0x73, 0x2A, 0xC1, 0x1F, 0xF8, 0xD2, 0x11, 0xBA, 0x4B, 0x00, 0xA0, 0xC9, 0x3E, 0xC9,
        0x3B,
    ];
    assert(efi_system@ =~= efi_system_guid());
    if is_guid(guid, &efi_system) {
        return "EFI System".to_owned();
    }
    let linux_swap: [u8; 16] = [
        0x6D, 0xFD, 0x57, 0x06, 0xAB, 0xA4, 0xC4, 0x43, 0x84, 0xE5, 0x09, 0x33, 0xC8, 0x4B, 0x4F,
        0x4F,
    ];
    assert(linux_swap@ =~= linux_swap_guid());
    if is_guid(guid, &linux_swap) {
        return "Linux swap".to_owned();
    }
    let linux_lvm: [u8; 16] = [
        0x79, 0xD3, 0xD6, 0xE6, 0x07, 0xF5, 0xC2, 0x44, 0xA2, 0x3C, 0x23, 0x8F, 0x2A, 0x3D, 0xF9,
        0x28,
    ];
    assert(linux_lvm@ =~= linux_lvm_guid());
    if is_guid(guid, &linux_lvm) {
        return "Linux LVM".to_owned();
    }
    let linux_home: [u8; 16] = [
        0xE1, 0xC7, 0x3A, 0x93, 0xB4, 0x2E, 0x13, 0x4F, 0xB8, 0x44, 0x0E, 0x14, 0xE2, 0xAE, 0xF9,
        0x15,
    ];
    assert(linux_home@ =~= linux_home_guid());
    if is_guid(guid, &linux_home) {
        return "Linux /home".to_owned();
    }
    let windows_basic: [u8; 16] = [
        0x16, 0xE3, 0xC9, 0xE3, 0x5C, 0x0B, 0xB8, 0x4D, 0x81, 0x7D, 0xF9, 0x2D, 0xF0, 0x02, 0x15,
        0xAE,
    ];
    assert(windows_basic@ =~= windows_basic_guid());
    if is_guid(guid, &windows_basic) {
        return "Windows basic".to_owned();
    }
    format_guid(guid)
}

/// The file system that a partition of a given type is expected to hold.
pub fn type_guid_to_fs(t: &str) -> (r: String)
    ensures
        r@ == type_fs(t@),
{
    if same_text(t, "Linux filesystem") || same_text(t, "Linux /home") {
        "ext4/xfs/btrfs/...".to_owned()
    } else if same_text(t, "EFI System") {
        "FAT32".to_owned()
    } else if same_text(t, "Linux swap") {
        "swap".to_owned()
    } else if same_text(t, "Linux LVM") {
        "LVM2".to_owned()
    } else if same_text(t, "Windows basic") {
        "NTFS".to_owned()
    } else {
        String::new()
    }
}

// ---------------------------------------------------------------- GPT

/// The characters of a little-endian UTF-16 name, up to the first zero. Surrogates are left out.
pub open spec fn utf16_name(b: Seq<u8>) -> Seq<char>
    decreases b.len(),
{
    if b.len() < 2 || le16(b, 0) == 0 {
        seq![]
    } else if is_character(le16(b, 0)) {
        seq![le16(b, 0) as char] + utf16_name(b.skip(2))
    } else {
        utf16_name(b.skip(2))
    }
}

/// Decodes a little-endian UTF-16 name.
pub fn decode_utf16le_name(bytes: &[u8]) -> (r: String)
    ensures
        r@ == utf16_name(bytes@),
{
    let mut s = String::new();
    let mut i: usize = 0;
    assert(bytes@.skip(0) =~= bytes@);
    assert(s@ + utf16_name(bytes@) =~= utf16_name(bytes@));
    while bytes.len() - i >= 2
        invariant
            i <= bytes.len(),
            s@ + utf16_name(bytes@.skip(i as int)) == utf16_name(bytes@),
        decreases bytes.len() - i,
    {
        let ghost rest = bytes@.skip(i as int);
        let code = get_le16(bytes, i);
        assert(code == le16(rest, 0));
        assert(rest.skip(2) =~= bytes@.skip(i + 2));
        if code == 0 {
            assert(s@ + utf16_name(rest) =~= s@);
            return s;
        }
        let ghost before = s@;
        match char::from_u32(code as u32) {
            Some(c) => {
                s.push(c);
                assert(before + utf16_name(rest) =~= s@ + utf16_name(rest.skip(2)));
            },
            None => {},
        }
        i = i + 2;
    }
    assert(s@ + utf16_name(bytes@.skip(i as int)) =~= s@);
    s
}

pub open spec fn gpt_entries_lba(d: Seq<u8>) -> int {
    le64(d, 584)
}

pub open spec fn gpt_num_entries(d: Seq<u8>) -> int {
    le32(d, 592)
}

pub open spec fn gpt_entry_size(d: Seq<u8>) -> int {
    le32(d, 596)
}

/// The data hold a GPT header: "EFI PART" in the second sector.
pub open spec fn has_gpt_header(d: Seq<u8>) -> bool {
    &&& d.len() >= 604
    &&& has_at(d, 512, seq![0x45u8, 0x46, 0x49, 0x20, 0x50, 0x41, 0x52, 0x54])
}

/// The data hold the entries that the GPT header speaks of, each large enough.
pub open spec fn has_gpt_entries(d: Seq<u8>) -> bool {
    &&& has_gpt_header(d)
    &&& gpt_entry_size(d) >= 128
    &&& gpt_entries_lba(d) * 512 + gpt_num_entries(d) * gpt_entry_size(d) <= d.len()
}

/// The offset of GPT entry `i`.
pub open spec fn gpt_entry_offset(d: Seq<u8>, i: int) -> int {
    gpt_entries_lba(d) * 512 + i * 128
}

pub open spec fn gpt_first_lba(d: Seq<u8>, i: int) -> int {
    le64(d, gpt_entry_offset(d, i) + 32)
}

pub open spec fn gpt_last_lba(d: Seq<u8>, i: int) -> int {
    le64(d, gpt_entry_offset(d, i) + 40)
}

/// GPT entry `i` names a partition.
pub open spec fn gpt_used(d: Seq<u8>, i: int) -> bool {
    gpt_first_lba(d, i) != 0 && gpt_last_lba(d, i) != 0
}

/// The extent of the partition in GPT entry `i` can be counted in bytes.
pub open spec fn gpt_entry_fits(d: Seq<u8>, i: int) -> bool {
    let first = gpt_first_lba(d, i);
    let last = gpt_last_lba(d, i);
    gpt_used(d, i) ==> {
        &&& first <= last
        &&& first * 512 <= u64::MAX
        &&& (last - first + 1) * 512 <= u64::MAX
    }
}

/// The offsets and lengths that the GPT speaks of are 64-bit numbers of bytes.
pub open spec fn gpt_fits(d: Seq<u8>) -> bool {
    has_gpt_header(d) ==> {
        &&& gpt_entries_lba(d) * 512 + gpt_num_entries(d) * gpt_entry_size(d) <= u64::MAX
        &&& has_gpt_entries(d) ==> forall|i: int|
            0 <= i < gpt_num_entries(d) ==> #[trigger] gpt_entry_fits(d, i)
    }
}

/// The partition in GPT entry `i`.
pub open spec fn gpt_partition(d: Seq<u8>, i: int) -> PartitionView {
    let o = gpt_entry_offset(d, i);
    let first = gpt_first_lba(d, i);
    let count = gpt_last_lba(d, i) - first + 1;
    let own = utf16_name(d.subrange(o + 56, o + 128));
    let t = guid_type(d.subrange(o, o + 16));
    PartitionView {
        number: ((i + 1) % 256) as u8,
        name: if own.len() == 0 {
            "P"@ + decimal((i + 1) as nat)
        } else {
            own
        },
        start_sector: first as u64,
        num_sectors: count as u64,
        type_guid: t,
        fs_type: type_fs(t),
        byte_offset: (first * 512) as u64,
        byte_length: (count * 512) as u64,
    }
}

/// The partitions in the first `n` GPT entries.
pub open spec fn gpt_partitions(d: Seq<u8>, n: int) -> Seq<PartitionView>
    decreases n,
{
    if n <= 0 {
        seq![]
    } else if gpt_used(d, n - 1) {
        gpt_partitions(d, n - 1).push(gpt_partition(d, n - 1))
    } else {
        gpt_partitions(d, n - 1)
    }
}

/// The partitions of a GPT: none where the table is not whole.
pub open spec fn gpt_table(d: Seq<u8>) -> Seq<PartitionView> {
    if has_gpt_entries(d) {
        gpt_partitions(d, gpt_num_entries(d))
    } else {
        seq![]
    }
}

proof fn lemma_entry_inside(d: Seq<u8>, i: int)
    requires
        has_gpt_entries(d),
        0 <= i < gpt_num_entries(d),
    ensures
        0 <= gpt_entry_offset(d, i),
        gpt_entry_offset(d, i) + 128 <= d.len(),
{
    let n = gpt_num_entries(d);
    let size = gpt_entry_size(d);
    assert(n * size >= (i + 1) * 128) by (nonlinear_arith)
        requires
            size >= 128,
            n >= i + 1,
            i >= 0,
    ;
}

fn starts_gpt(data: &[u8]) -> (r: bool)
    ensures
        r == has_gpt_header(data@),
{
    let r = data.len() >= 604 && matches_at(
        data,
        512,
        &[0x45, 0x46, 0x49, 0x20, 0x50, 0x41, 0x52, 0x54],
    );
    assert([0x45u8, 0x46, 0x49, 0x20, 0x50, 0x41, 0x52, 0x54]@ =~= seq![
        0x45u8,
        0x46,
        0x49,
        0x20,
        0x50,
        0x41,
        0x52,
        0x54,
    ]);
    r
}

/// Where the GPT entries start, where the whole table stands in the data.
fn gpt_entries_start(data: &[u8]) -> (r: Option<u64>)
    requires
        has_gpt_header(data@),
        gpt_entries_lba(data@) * 512 + gpt_num_entries(data@) * gpt_entry_size(data@) <= u64::MAX,
    ensures
        r == (if has_gpt_entries(data@) {
            Some((gpt_entries_lba(data@) * 512) as u64)
        } else {
            None
        }),
{
    let lba = get_le64(data, 584);
    let count = get_le32(data, 592) as u64;
    let size = get_le32(data, 596) as u64;
    proof {
        assert(0 <= count * size <= 0xffff_ffff * 0xffff_ffff) by (nonlinear_arith)
            requires
                0 <= count <= 0xffff_ffff,
                0 <= size <= 0xffff_ffff,
        ;
    }
    let start = lba * 512;
    if size < 128 || start + count * size > data.len() as u64 {
        None
    } else {
        Some(start)
    }
}

/// Reads a GPT.
pub fn parse_gpt(data: &[u8]) -> (r: Vec<Partition>)
    requires
        gpt_fits(data@),
    ensures
        shown(r@) == gpt_table(data@),
{
    let mut parts: Vec<Partition> = Vec::new();
    assert(shown(parts@) =~= seq![]);
    if !starts_gpt(data) {
        return parts;
    }
    let start: usize = match gpt_entries_start(data) {
        None => {
            return parts;
        },
        Some(start) => {
            proof {
                let n = gpt_num_entries(data@);
                let size = gpt_entry_size(data@);
                assert(0 <= n * size) by (nonlinear_arith)
                    requires
                        0 <= n,
                        0 <= size,
                ;
            }
            start as usize
        },
    };
    let len = data.len();
    let count = get_le32(data, 592);
    let mut i: u32 = 0;
    while i < count
        invariant
            i <= count,
            len == data@.len(),
            count == gpt_num_entries(data@),
            has_gpt_entries(data@),
            gpt_fits(data@),
            start == gpt_entries_lba(data@) * 512,
            shown(parts@) == gpt_partitions(data@, i as int),
        decreases count - i,
    {
        proof {
            lemma_entry_inside(data@, i as int);
            assert(gpt_entry_fits(data@, i as int));
        }
        let off: usize = start + i as usize * 128;
        let first = get_le64(data, off + 32);
        let last = get_le64(data, off + 40);
        if first != 0 && last != 0 {
            let num_sectors = last - first + 1;
            let type_guid = guid_to_type(vstd::slice::slice_subrange(data, off, off + 16));
            let fs_type = type_guid_to_fs(type_guid.as_str());
            let own = decode_utf16le_name(
                vstd::slice::slice_subrange(data, off + 56, off + 128),
            );
            let name = if own.as_str().is_empty() {
                numbered_name(i as u64 + 1)
            } else {
                own
            };
            let ghost before = shown(parts@);
            let next = Partition {
                number: ((i as u64 + 1) % 256) as u8,
                name,
                start_sector: first,
                num_sectors,
                type_guid,
                fs_type,
                byte_offset: first * 512,
                byte_length: num_sectors * 512,
            };
            assert(next@ == gpt_partition(data@, i as int));
            parts.push(next);
            assert(shown(parts@) =~= before.push(gpt_partition(data@, i as int)));
        }
        i = i + 1;
    }
    parts
}

// ---------------------------------------------------------------- the table

/// The data start with a boot sector: they end the first sector with 55 AA.
pub open spec fn has_boot_signature(d: Seq<u8>) -> bool {
    d.len() >= 512 && d[510] == 0x55 && d[511] == 0xAA
}

/// One of the four MBR slots says that a GPT follows.
pub open spec fn is_protective(d: Seq<u8>) -> bool {
    mbr_type(d, 0) == 0xEE || mbr_type(d, 1) == 0xEE || mbr_type(d, 2) == 0xEE || mbr_type(d, 3)
        == 0xEE
}

/// The data lead to a GPT.
pub open spec fn leads_to_gpt(d: Seq<u8>) -> bool {
    has_boot_signature(d) && is_protective(d)
}

/// The partitions of a device whose first bytes are `d`.
pub open spec fn partition_table(d: Seq<u8>) -> Seq<PartitionView> {
    if !has_boot_signature(d) {
        seq![]
    } else if is_protective(d) {
        gpt_table(d)
    } else {
        mbr_partitions(d, 4)
    }
}

/// The offsets and lengths that the table speaks of are 64-bit numbers of bytes.
pub open spec fn table_fits(d: Seq<u8>) -> bool {
    leads_to_gpt(d) ==> gpt_fits(d)
}

fn finds_gpt(data: &[u8]) -> (r: bool)
    ensures
        r == leads_to_gpt(data@),
{
    data.len() >= 512 && data[510] == 0x55 && data[511] == 0xAA && (data[450] == 0xEE || data[466]
        == 0xEE || data[482] == 0xEE || data[498] == 0xEE)
}

/// Whether the offsets and lengths that the table speaks of are 64-bit numbers of bytes.
pub fn partition_table_fits(data: &[u8]) -> (r: bool)
    ensures
        r == table_fits(data@),
{
    if !finds_gpt(data) || !starts_gpt(data) {
        return true;
    }
    let lba = get_le64(data, 584);
    let count = get_le32(data, 592);
    let size = get_le32(data, 596);
    proof {
        let c = count as int;
        let z = size as int;
        assert(0 <= c * z <= 0xffff_ffff * 0xffff_ffff) by (nonlinear_arith)
            requires
                0 <= c <= 0xffff_ffff,
                0 <= z <= 0xffff_ffff,
        ;
    }
    let entries_len: u64 = count as u64 * size as u64;
    if lba > 0x7f_ffff_ffff_ffff || lba * 512 > 0xffff_ffff_ffff_ffff - entries_len {
        return false;
    }
    let start: usize = match gpt_entries_start(data) {
        None => {
            return true;
        },
        Some(start) => start as usize,
    };
    let len = data.len();
    let mut i: u32 = 0;
    while i < count
        invariant
            i <= count,
            len == data@.len(),
            count == gpt_num_entries(data@),
            has_gpt_entries(data@),
            leads_to_gpt(data@),
            start == gpt_entries_lba(data@) * 512,
            forall|k: int| 0 <= k < i ==> #[trigger] gpt_entry_fits(data@, k),
        decreases count - i,
    {
        proof {
            lemma_entry_inside(data@, i as int);
        }
        let off: usize = start + i as usize * 128;
        let first = get_le64(data, off + 32);
        let last = get_le64(data, off + 40);
        if first != 0 && last != 0 && (first > last || first > 0x7f_ffff_ffff_ffff || last - first
            >= 0x7f_ffff_ffff_ffff) {
            assert(!gpt_entry_fits(data@, i as int));
            return false;
        }
        assert(gpt_entry_fits(data@, i as int));
        i = i + 1;
    }
    true
}

/// Reads the partition table at the start of a device.
pub fn parse_partition_table(data: &[u8]) -> (r: Vec<Partition>)
    requires
        table_fits(data@),
    ensures
        shown(r@) == partition_table(data@),
{
    if data.len() < 512 || data[510] != 0x55 || data[511] != 0xAA {
        let none: Vec<Partition> = Vec::new();
        assert(shown(none@) =~= seq![]);
        return none;
    }
    if finds_gpt(data) {
        return parse_gpt(data);
    }
    parse_mbr(data)
}

/// A partition starts and ends at a sector of 512 bytes.
pub open spec fn counts_in_sectors(p: PartitionView) -> bool {
    p.byte_offset == p.start_sector * 512 && p.byte_length == p.num_sectors * 512
}

/// Each partition of a table has the bytes of its sectors.
pub proof fn law_partitions_count_in_sectors(d: Seq<u8>, k: int)
    requires
        table_fits(d),
        0 <= k < partition_table(d).len(),
    ensures
        counts_in_sectors(partition_table(d)[k]),
{
    if is_protective(d) {
        lemma_gpt_counts_in_sectors(d, gpt_num_entries(d), k);
    } else {
        lemma_mbr_counts_in_sectors(d, 4, k);
    }
}

proof fn lemma_mbr_counts_in_sectors(d: Seq<u8>, n: int, k: int)
    requires
        0 <= n <= 4,
        0 <= k < mbr_partitions(d, n).len(),
    ensures
        counts_in_sectors(mbr_partitions(d, n)[k]),
    decreases n,
{
    if k < mbr_partitions(d, n - 1).len() {
        lemma_mbr_counts_in_sectors(d, n - 1, k);
    } else {
        assert(0 <= le32(d, 446 + (n - 1) * 16 + 8) <= u32::MAX);
        assert(0 <= le32(d, 446 + (n - 1) * 16 + 12) <= u32::MAX);
    }
}

proof fn lemma_gpt_counts_in_sectors(d: Seq<u8>, n: int, k: int)
    requires
        gpt_fits(d),
        has_gpt_entries(d),
        0 <= n <= gpt_num_entries(d),
        0 <= k < gpt_partitions(d, n).len(),
    ensures
        counts_in_sectors(gpt_partitions(d, n)[k]),
    decreases n,
{
    if k < gpt_partitions(d, n - 1).len() {
        lemma_gpt_counts_in_sectors(d, n - 1, k);
    } else {
        assert(gpt_entry_fits(d, n - 1));
        assert(0 <= le64(d, gpt_entry_offset(d, n - 1) + 32) <= u64::MAX);
        assert(0 <= le64(d, gpt_entry_offset(d, n - 1) + 40) <= u64::MAX);
    }
}

/// An MBR has four partitions at most, and their numbers, from 1 to 4, rise.
pub proof fn law_mbr_numbers_rise(d: Seq<u8>, n: int)
    requires
        0 <= n <= 4,
    ensures
        mbr_partitions(d, n).len() <= n,
        forall|k: int|
            0 <= k < mbr_partitions(d, n).len() ==> 1 <= (#[trigger] mbr_partitions(
                d,
                n,
            )[k]).number <= n,
        forall|j: int, k: int|
            0 <= j < k < mbr_partitions(d, n).len() ==> (#[trigger] mbr_partitions(d, n)[j]).number
                < (#[trigger] mbr_partitions(d, n)[k]).number,
    decreases n,
{
    if n > 0 {
        law_mbr_numbers_rise(d, n - 1);
    }
}

/// A GPT lists a partition for each used entry, and no others.
pub proof fn law_gpt_lists_used_entries(d: Seq<u8>, n: int, i: int)
    requires
        0 <= i < n,
    ensures
        gpt_used(d, i) ==> gpt_partitions(d, n).contains(gpt_partition(d, i)),
        gpt_partitions(d, n).len() <= n,
    decreases n,
{
    if n > 1 {
        law_gpt_lists_used_entries(d, n - 1, if i < n - 1 { i } else { 0 });
    }
    let front = gpt_partitions(d, n - 1);
    let all = gpt_partitions(d, n);
    if i < n - 1 {
        if gpt_used(d, i) {
            let k = choose|k: int| 0 <= k < front.len() && front[k] == gpt_partition(d, i);
            assert(all[k] == gpt_partition(d, i));
        }
    } else if gpt_used(d, i) {
        assert(all[all.len() - 1] == gpt_partition(d, i));
    }
}

// ---------------------------------------------------------------- file system signatures

/// The file system whose signature stands at the start of a block; no text where none does.
pub open spec fn detected_fs(b: Seq<u8>) -> Seq<char> {
    if b.len() < 1088 {
        seq![]
    } else if b[1080] == 0x53 && b[1081] == 0xEF {
        "ext4"@
    } else if has_at(b, 0, seq![0x58u8, 0x46, 0x53, 0x42]) {
        "XFS"@
    } else if has_at(b, 0, seq![0x5fu8, 0x42, 0x48, 0x52]) {
        "btrfs"@
    } else if has_at(b, 0, seq![0x4cu8, 0x56, 0x4d, 0x32]) {
        "LVM2"@
    } else if has_at(b, 1080, seq![0x4eu8, 0x54, 0x46, 0x53, 0x20, 0x20, 0x20, 0x20]) {
        "NTFS"@
    } else if has_at(b, 3, seq![0x4du8, 0x53, 0x44, 0x4f, 0x53]) || has_at(
        b,
        82,
        seq![0x46u8, 0x41, 0x54, 0x33, 0x32, 0x20, 0x20, 0x20],
    ) {
        "FAT"@
    } else {
        seq![]
    }
}

/// Detect filesystem superblock signature at the start of a block
/// This is called at the beginning of each partition's data
pub fn detect_fs_at(block: &[u8]) -> (r: String)
    ensures
        r@ == detected_fs(block@),
{
    if block.len() < 1088 {
        return String::new();
    }
    // ext2/3/4: superblock at offset 1024, magic at 1080-1081 = 0xEF53
    if block[1080] == 0x53 && block[1081] == 0xEF {
        return "ext4".to_owned();
    }
    // XFS: "XFSB" at offset 0
    let xfs: [u8; 4] = [0x58, 0x46, 0x53, 0x42];
    assert(xfs@ =~= seq![0x58u8, 0x46, 0x53, 0x42]);
    if matches_at(block, 0, &xfs) {
        return "XFS".to_owned();
    }
    // btrfs: "_BHR" at offset 0
    let btrfs: [u8; 4] = [0x5f, 0x42, 0x48, 0x52];
    assert(btrfs@ =~= seq![0x5fu8, 0x42, 0x48, 0x52]);
    if matches_at(block, 0, &btrfs) {
        return "btrfs".to_owned();
    }
    // LVM2: "LVM2" at offset 0
    let lvm: [u8; 4] = [0x4c, 0x56, 0x4d, 0x32];
    assert(lvm@ =~= seq![0x4cu8, 0x56, 0x4d, 0x32]);
    if matches_at(block, 0, &lvm) {
        return "LVM2".to_owned();
    }
    // NTFS: "NTFS    " at offset 1080
    let ntfs: [u8; 8] = [0x4e, 0x54, 0x46, 0x53, 0x20, 0x20, 0x20, 0x20];
    assert(ntfs@ =~= seq![0x4eu8, 0x54, 0x46, 0x53, 0x20, 0x20, 0x20, 0x20]);
    if matches_at(block, 1080, &ntfs) {
        return "NTFS".to_owned();
    }
    // FAT: "MSDOS" or "FAT32   " in the boot sector
    let msdos: [u8; 5] = [0x4d, 0x53, 0x44, 0x4f, 0x53];
    let fat32: [u8; 8] = [0x46, 0x41, 0x54, 0x33, 0x32, 0x20, 0x20, 0x20];
    assert(msdos@ =~= seq![0x4du8, 0x53, 0x44, 0x4f, 0x53]);
    assert(fat32@ =~= seq![0x46u8, 0x41, 0x54, 0x33, 0x32, 0x20, 0x20, 0x20]);
    if matches_at(block, 3, &msdos) || matches_at(block, 82, &fat32) {
        return "FAT".to_owned();
    }
    String::new()
}

// ---------------------------------------------------------------- reading within a partition

/// Restricts an underlying reader to a byte range.
/// Seeks are relative to the partition start; reads are clamped.
pub struct PartitionReader<R> {
    inner: R,
    offset: u64,
    length: u64,
    pos: u64,
}

impl<R> PartitionReader<R> {
    /// The underlying reader.
    pub closed spec fn reader(self) -> R {
        self.inner
    }

    /// Where the range starts.
    pub closed spec fn offset(self) -> u64 {
        self.offset
    }

    /// How long the range is.
    pub closed spec fn length(self) -> u64 {
        self.length
    }

    /// The position within the range.
    pub closed spec fn pos(self) -> u64 {
        self.pos
    }

    /// Create a new PartitionReader from an existing reader.
    /// `byte_offset` and `byte_length` are byte offsets within `inner`.
    pub fn new(inner: R, byte_offset: u64, byte_length: u64) -> (r: Self)
        ensures
            r.reader() == inner,
            r.offset() == byte_offset,
            r.length() == byte_length,
            r.pos() == 0,
    {
        PartitionReader { inner, offset: byte_offset, length: byte_length, pos: 0 }
    }

    /// Get the underlying reader back (consumes PartitionReader).
    pub fn into_inner(self) -> (r: R)
        ensures
            r == self.reader(),
    {
        self.inner
    }

    /// Borrow the inner reader.
    pub fn inner_ref(&self) -> (r: &R)
        ensures
            *r == self.reader(),
    {
        &self.inner
    }

    /// Mutably borrow the inner reader.
    pub fn inner_mut(&mut self) -> (r: &mut R)
        ensures
            *r == old(self).reader(),
            final(self).reader() == *final(r),
            final(self).offset() == old(self).offset(),
            final(self).length() == old(self).length(),
            final(self).pos() == old(self).pos(),
    {
        &mut self.inner
    }

    /// What a read for `want` bytes asks of the underlying reader: the place to read at and
    /// the most to read; nothing at the end of the range.
    pub open spec fn asks(self, want: usize) -> Option<(u64, usize)> {
        if self.pos() >= self.length() {
            None
        } else if self.length() - self.pos() < want {
            Some(((self.offset() + self.pos()) as u64, (self.length() - self.pos()) as usize))
        } else {
            Some(((self.offset() + self.pos()) as u64, want))
        }
    }

    /// What a read for `want` bytes asks of the underlying reader.
    pub fn next_read(&self, want: usize) -> (r: Option<(u64, usize)>)
        requires
            self.pos() < self.length() ==> self.offset() + self.pos() <= u64::MAX,
        ensures
            r == self.asks(want),
    {
        if self.pos >= self.length {
            return None;
        }
        let left = self.length - self.pos;
        let most: usize = if left < want as u64 {
            left as usize
        } else {
            want
        };
        Some((self.offset + self.pos, most))
    }

    /// Moves behind `n` bytes that were read.
    pub fn advance(&mut self, n: usize)
        requires
            old(self).pos() + n <= u64::MAX,
        ensures
            final(self).pos() == old(self).pos() + n,
            final(self).reader() == old(self).reader(),
            final(self).offset() == old(self).offset(),
            final(self).length() == old(self).length(),
    {
        self.pos = self.pos + n as u64;
    }

    /// Moves the position.
    pub fn seek(&mut self, target: SeekTarget) -> (r: Result<u64, NegativeSeek>)
        requires
            seek_fits(target, old(self).length(), old(self).pos()),
        ensures
            r == seek_position(target, old(self).length(), old(self).pos()),
            final(self).pos() == (match r {
                Ok(p) => p,
                Err(_) => old(self).pos(),
            }),
            final(self).reader() == old(self).reader(),
            final(self).offset() == old(self).offset(),
            final(self).length() == old(self).length(),
    {
        let r = resolve_seek(target, self.length, self.pos);
        if let Ok(p) = r {
            self.pos = p;
        }
        r
    }

    /// Where the range starts.
    pub fn start(&self) -> (r: u64)
        ensures
            r == self.offset(),
    {
        self.offset
    }

    /// How long the range is.
    pub fn len(&self) -> (r: u64)
        ensures
            r == self.length(),
    {
        self.length
    }

    /// The position within the range.
    pub fn position(&self) -> (r: u64)
        ensures
            r == self.pos(),
    {
        self.pos
    }

    /// Reads stay inside the range, and a read of what was asked for keeps the position there.
    pub proof fn law_reads_stay_inside(self, want: usize, n: usize)
        requires
            self.pos() <= self.length(),
            self.offset() + self.length() <= u64::MAX,
        ensures
            self.asks(want) matches Some((at, most)) ==> {
                &&& at == self.offset() + self.pos()
                &&& self.offset() <= at
                &&& at + most <= self.offset() + self.length()
                &&& n <= most ==> self.pos() + n <= self.length()
                &&& want > 0 ==> most > 0
            },
    {
    }
}

/// A reader of a device after a seek to `at`.
pub open spec fn moved_to(r: ReaderState, at: u64) -> ReaderState {
    ReaderState {
        pos: match seek_position(SeekTarget::Start(at), r.size, r.pos) {
            Ok(p) => p,
            Err(_) => r.pos,
        },
        ..r
    }
}

/// A read of a partition gives the bytes of the device that stand as far behind the start of
/// the partition as the position says: some where the device has any there, and none behind the
/// end of the partition.
pub proof fn law_partition_reads_the_device(
    p: PartitionReader<VmaDeviceReader>,
    file: Seq<u8>,
    want: usize,
    stored: Seq<u8>,
)
    requires
        p.pos() < p.length(),
        p.offset() + p.pos() <= i64::MAX,
        sound(p.reader()@),
        keeps(p.reader()@, file),
        comes_from(
            next_source(moved_to(p.reader()@, (p.offset() + p.pos()) as u64)),
            file,
            stored,
        ),
    ensures
        p.asks(want) matches Some((at, most)) && {
            let r = moved_to(p.reader()@, at);
            let n = read_count(r, most as nat);
            &&& seek_fits(SeekTarget::Start(at), p.reader()@.size, p.reader()@.pos)
            &&& at == p.offset() + p.pos()
            &&& p.pos() + n <= p.length()
            &&& want > 0 && at < r.size ==> n > 0
            &&& at <= r.size ==> read_bytes(r, most as nat, stored) == device_image(
                r.index,
                file,
                r.size,
            ).subrange(at as int, at + n)
            &&& at > r.size ==> n == 0
        },
{
    let at = (p.offset() + p.pos()) as u64;
    let r = moved_to(p.reader()@, at);
    let most = (p.asks(want)->0).1;
    crate::reader::law_read_gives_the_device(r, file, most as nat, stored);
    if want > 0 && at < r.size {
        crate::reader::law_read_makes_progress(r, most as nat);
    }
}

// ---------------------------------------------------------------- what an MBR means

/// The slots with the numbers `at` are those of an MBR that stand in the data and whose type,
/// byte 4, is not zero, in order; and each partition says what its slot says: it starts at the
/// sector in bytes 8 to 11 and has as many as bytes 12 to 15 say, the lowest byte first.
pub open spec fn partitions_of_slots(
    list: Seq<PartitionView>,
    at: Seq<int>,
    d: Seq<u8>,
    n: int,
) -> bool {
    &&& list.len() == at.len()
    &&& forall|k: int|
        0 <= k < at.len() ==> 0 <= #[trigger] at[k] < n && slot_has_partition(d, at[k])
            && is_partition_of_slot(list[k], d, at[k])
    &&& forall|j: int, k: int| 0 <= j < k < at.len() ==> #[trigger] at[j] < #[trigger] at[k]
    &&& forall|i: int| 0 <= i < n && #[trigger] slot_has_partition(d, i) ==> at.contains(i)
}

/// Slot `i` stands in the data, and its type is not zero.
pub open spec fn slot_has_partition(d: Seq<u8>, i: int) -> bool {
    446 + 16 * i + 16 <= d.len() && d[446 + 16 * i + 4] != 0
}

/// The partition says what slot `i` says.
pub open spec fn is_partition_of_slot(p: PartitionView, d: Seq<u8>, i: int) -> bool {
    let e = 446 + 16 * i;
    let start = little_endian(d.subrange(e + 8, e + 12));
    let count = little_endian(d.subrange(e + 12, e + 16));
    &&& p.number == i + 1
    &&& p.name == "P"@ + decimal((i + 1) as nat)
    &&& p.start_sector == start
    &&& p.num_sectors == count
    &&& p.byte_offset == start * 512
    &&& p.byte_length == count * 512
    &&& p.type_guid.len() == 2
    &&& number_in(16, p.type_guid) == d[e + 4]
    &&& is_hex_digit(p.type_guid[0], true)
    &&& is_hex_digit(p.type_guid[1], true)
    &&& p.fs_type == mbr_type_name(d[e + 4])
}

proof fn lemma_mbr_slot(d: Seq<u8>, i: int)
    requires
        0 <= i < 4,
        446 + 16 * i + 16 <= d.len(),
    ensures
        is_partition_of_slot(mbr_partition(d, i), d, i),
{
    let e = 446 + 16 * i;
    let t = d[e + 4] as nat;
    crate::bytes::law_numbers_are_their_bytes(d, e + 8);
    crate::bytes::law_numbers_are_their_bytes(d, e + 12);
    crate::text::lemma_byte_has_two_digits(t, true);
    crate::text::law_hexadecimal_is_the_number(t, 2, true);
    assert(hex_padded(t, 2, true)[0] == hex_padded(t, 2, true)[0]);
    assert(hex_padded(t, 2, true)[1] == hex_padded(t, 2, true)[1]);
}

proof fn lemma_mbr_is_its_slots(d: Seq<u8>, n: int) -> (at: Seq<int>)
    requires
        0 <= n <= 4,
    ensures
        partitions_of_slots(mbr_partitions(d, n), at, d, n),
    decreases n,
{
    if n == 0 {
        seq![]
    } else {
        let i = n - 1;
        let front = lemma_mbr_is_its_slots(d, i);
        let before = mbr_partitions(d, i);
        let now = mbr_partitions(d, n);
        if slot_has_partition(d, i) {
            lemma_mbr_slot(d, i);
        }
        let at = if slot_has_partition(d, i) {
            front.push(i)
        } else {
            front
        };
        assert forall|k: int| 0 <= k < at.len() implies 0 <= #[trigger] at[k] < n
            && slot_has_partition(d, at[k]) && is_partition_of_slot(now[k], d, at[k]) by {
            if k < front.len() {
                assert(at[k] == front[k]);
                assert(now[k] == before[k]);
            }
        }
        assert forall|j: int, k: int| 0 <= j < k < at.len() implies #[trigger] at[j]
            < #[trigger] at[k] by {
            assert(at[j] == front[j]);
            if k < front.len() {
                assert(at[k] == front[k]);
            }
        }
        assert forall|j: int| 0 <= j < n && #[trigger] slot_has_partition(d, j) implies at.contains(
            j,
        ) by {
            if j < i {
                let k = choose|k: int| 0 <= k < front.len() && front[k] == j;
                assert(at[k] == j);
            } else {
                assert(at[at.len() - 1] == j);
            }
        }
        at
    }
}

/// The partitions of an MBR are those of its four slots whose type is not zero, in order, each
/// with the start and the number of sectors that four bytes of the slot say.
pub proof fn law_mbr_is_its_slots(d: Seq<u8>)
    ensures
        exists|at: Seq<int>| #[trigger] partitions_of_slots(mbr_partitions(d, 4), at, d, 4),
{
    let at = lemma_mbr_is_its_slots(d, 4);
    assert(partitions_of_slots(mbr_partitions(d, 4), at, d, 4));
}

/// A start and a number of sectors that are written into a slot with a type, in four bytes each,
/// the least significant first, are those of the partition that is listed for it, whatever they
/// are.
pub proof fn law_written_partition_is_listed(d: Seq<u8>, i: int, start: u32, count: u32)
    requires
        0 <= i < 4,
        446 + 16 * i + 16 <= d.len(),
        d[446 + 16 * i + 4] != 0,
        d.subrange(446 + 16 * i + 8, 446 + 16 * i + 12) == little_endian_bytes(start as nat, 4),
        d.subrange(446 + 16 * i + 12, 446 + 16 * i + 16) == little_endian_bytes(count as nat, 4),
    ensures
        exists|k: int|
            0 <= k < mbr_partitions(d, 4).len() && (#[trigger] mbr_partitions(d, 4)[k]).number == i
                + 1 && mbr_partitions(d, 4)[k].start_sector == start && mbr_partitions(
                d,
                4,
            )[k].num_sectors == count,
{
    assert(vstd::arithmetic::power::pow(256, 4) == 0x1_0000_0000) by {
        reveal_with_fuel(vstd::arithmetic::power::pow, 5);
    }
    crate::bytes::law_written_number_is_read_back(start as nat, 4);
    crate::bytes::law_written_number_is_read_back(count as nat, 4);
    let at = lemma_mbr_is_its_slots(d, 4);
    assert(slot_has_partition(d, i));
    let k = choose|k: int| 0 <= k < at.len() && at[k] == i;
    assert(is_partition_of_slot(mbr_partitions(d, 4)[k], d, at[k]));
}

/// The types of an MBR that have a name.
pub open spec fn named_types() -> Seq<(u8, Seq<char>)> {
    seq![
        (0x01u8, "FAT12"@),
        (0x04u8, "FAT16"@),
        (0x06u8, "FAT16B"@),
        (0x07u8, "NTFS/exFAT"@),
        (0x0bu8, "FAT32"@),
        (0x0cu8, "FAT32 LBA"@),
        (0x0eu8, "FAT16 LBA"@),
        (0x82u8, "swap"@),
        (0x83u8, "Linux"@),
        (0x8eu8, "LVM"@),
        (0xeeu8, "GPT"@),
        (0xefu8, "EFI"@),
    ]
}

/// A type of an MBR is called by its name where it has one, and by a question mark otherwise.
pub proof fn law_types_are_called_by_their_names(pt: u8)
    ensures
        forall|k: int|
            0 <= k < named_types().len() && (#[trigger] named_types()[k]).0 == pt
                ==> mbr_type_name(pt) == named_types()[k].1,
        (forall|k: int| 0 <= k < named_types().len() ==> (#[trigger] named_types()[k]).0 != pt)
            ==> mbr_type_name(pt) == "?"@,
{
    let t = named_types();
    assert(t[0].0 == 0x01 && t[1].0 == 0x04 && t[2].0 == 0x06 && t[3].0 == 0x07 && t[4].0 == 0x0b
        && t[5].0 == 0x0c && t[6].0 == 0x0e && t[7].0 == 0x82 && t[8].0 == 0x83 && t[9].0 == 0x8e
        && t[10].0 == 0xee && t[11].0 == 0xef);
}

// ---------------------------------------------------------------- what a GPT means

/// Where the entries of a GPT start: bytes 584 to 591 say in which sector.
pub open spec fn entries_from(d: Seq<u8>) -> int {
    512 * little_endian(d.subrange(584, 592))
}

/// How many entries a GPT has: bytes 592 to 595 say so.
pub open spec fn entry_count(d: Seq<u8>) -> int {
    little_endian(d.subrange(592, 596))
}

/// Entry `i` names a partition: neither its first nor its last sector is zero.
pub open spec fn entry_has_partition(d: Seq<u8>, i: int) -> bool {
    let o = entries_from(d) + 128 * i;
    &&& little_endian(d.subrange(o + 32, o + 40)) != 0
    &&& little_endian(d.subrange(o + 40, o + 48)) != 0
}

/// The partition says what entry `i` says: it goes from the sector in bytes 32 to 39 to the one
/// in bytes 40 to 47, and is of the type in bytes 0 to 15. Its name is the one in bytes 56 to
/// 127; "P" and the number without one.
pub open spec fn is_partition_of_entry(p: PartitionView, d: Seq<u8>, i: int) -> bool {
    let o = entries_from(d) + 128 * i;
    let first = little_endian(d.subrange(o + 32, o + 40));
    let last = little_endian(d.subrange(o + 40, o + 48));
    let own = utf16_name(d.subrange(o + 56, o + 128));
    &&& p.number == (i + 1) % 256
    &&& p.start_sector == first
    &&& p.start_sector + p.num_sectors == last + 1
    &&& p.byte_offset == first * 512
    &&& p.byte_length == (last + 1 - first) * 512
    &&& p.type_guid == guid_type(d.subrange(o, o + 16))
    &&& p.fs_type == type_fs(p.type_guid)
    &&& p.name == (if own.len() == 0 {
        "P"@ + decimal((i + 1) as nat)
    } else {
        own
    })
}

/// The entries with the numbers `at` are those of a GPT that name a partition, in order, and
/// each partition says what its entry says.
pub open spec fn partitions_of_entries(
    list: Seq<PartitionView>,
    at: Seq<int>,
    d: Seq<u8>,
    n: int,
) -> bool {
    &&& list.len() == at.len()
    &&& forall|k: int|
        0 <= k < at.len() ==> 0 <= #[trigger] at[k] < n && entry_has_partition(d, at[k])
            && is_partition_of_entry(list[k], d, at[k])
    &&& forall|j: int, k: int| 0 <= j < k < at.len() ==> #[trigger] at[j] < #[trigger] at[k]
    &&& forall|i: int| 0 <= i < n && #[trigger] entry_has_partition(d, i) ==> at.contains(i)
}

proof fn lemma_gpt_entry(d: Seq<u8>, i: int)
    requires
        has_gpt_entries(d),
        0 <= i < gpt_num_entries(d),
    ensures
        gpt_used(d, i) == entry_has_partition(d, i),
        gpt_used(d, i) && gpt_entry_fits(d, i) ==> is_partition_of_entry(gpt_partition(d, i), d, i),
{
    lemma_entry_inside(d, i);
    let o = gpt_entry_offset(d, i);
    crate::bytes::law_numbers_are_their_bytes(d, 584);
    crate::bytes::law_numbers_are_their_bytes(d, o + 32);
    crate::bytes::law_numbers_are_their_bytes(d, o + 40);
    assert(o == entries_from(d) + 128 * i);
    assert(0 <= gpt_first_lba(d, i) <= u64::MAX);
    assert(0 <= gpt_last_lba(d, i) <= u64::MAX);
}

proof fn lemma_gpt_is_its_entries(d: Seq<u8>, n: int) -> (at: Seq<int>)
    requires
        gpt_fits(d),
        has_gpt_entries(d),
        0 <= n <= gpt_num_entries(d),
    ensures
        partitions_of_entries(gpt_partitions(d, n), at, d, n),
    decreases n,
{
    if n == 0 {
        seq![]
    } else {
        let i = n - 1;
        let front = lemma_gpt_is_its_entries(d, i);
        let before = gpt_partitions(d, i);
        let now = gpt_partitions(d, n);
        lemma_gpt_entry(d, i);
        assert(gpt_entry_fits(d, i));
        let at = if entry_has_partition(d, i) {
            front.push(i)
        } else {
            front
        };
        assert forall|k: int| 0 <= k < at.len() implies 0 <= #[trigger] at[k] < n
            && entry_has_partition(d, at[k]) && is_partition_of_entry(now[k], d, at[k]) by {
            if k < front.len() {
                assert(at[k] == front[k]);
                assert(now[k] == before[k]);
            }
        }
        assert forall|j: int, k: int| 0 <= j < k < at.len() implies #[trigger] at[j]
            < #[trigger] at[k] by {
            assert(at[j] == front[j]);
            if k < front.len() {
                assert(at[k] == front[k]);
            }
        }
        assert forall|j: int| 0 <= j < n && #[trigger] entry_has_partition(
            d,
            j,
        ) implies at.contains(j) by {
            if j < i {
                let k = choose|k: int| 0 <= k < front.len() && front[k] == j;
                assert(at[k] == j);
            } else {
                assert(at[at.len() - 1] == j);
            }
        }
        at
    }
}

/// The data hold a whole GPT: "EFI PART" in the second sector, entries of 128 bytes or more, and
/// all of them.
pub open spec fn gpt_is_whole(d: Seq<u8>) -> bool {
    &&& d.len() >= 604
    &&& d[512] == 0x45 && d[513] == 0x46 && d[514] == 0x49 && d[515] == 0x20 && d[516] == 0x50
        && d[517] == 0x41 && d[518] == 0x52 && d[519] == 0x54
    &&& little_endian(d.subrange(596, 600)) >= 128
    &&& entries_from(d) + entry_count(d) * little_endian(d.subrange(596, 600)) <= d.len()
}

proof fn lemma_whole_gpt(d: Seq<u8>)
    requires
        d.len() >= 604,
    ensures
        has_gpt_entries(d) == gpt_is_whole(d),
        gpt_num_entries(d) == entry_count(d),
{
    crate::bytes::law_numbers_are_their_bytes(d, 584);
    crate::bytes::law_numbers_are_their_bytes(d, 592);
    crate::bytes::law_numbers_are_their_bytes(d, 596);
    let sig = seq![0x45u8, 0x46, 0x49, 0x20, 0x50, 0x41, 0x52, 0x54];
    let part = d.subrange(512, 520);
    assert(part[0] == d[512] && part[1] == d[513] && part[2] == d[514] && part[3] == d[515]
        && part[4] == d[516] && part[5] == d[517] && part[6] == d[518] && part[7] == d[519]);
    if d[512] == 0x45 && d[513] == 0x46 && d[514] == 0x49 && d[515] == 0x20 && d[516] == 0x50
        && d[517] == 0x41 && d[518] == 0x52 && d[519] == 0x54 {
        assert(part =~= sig);
    }
}

/// The partitions of a GPT are those of its entries that have a first and a last sector, in
/// order; none where the table is not whole.
pub proof fn law_gpt_is_its_entries(d: Seq<u8>)
    requires
        gpt_fits(d),
    ensures
        gpt_is_whole(d) ==> exists|at: Seq<int>|
            #[trigger] partitions_of_entries(gpt_table(d), at, d, entry_count(d)),
        !gpt_is_whole(d) ==> gpt_table(d).len() == 0,
{
    if d.len() >= 604 {
        lemma_whole_gpt(d);
        if gpt_is_whole(d) {
            let at = lemma_gpt_is_its_entries(d, gpt_num_entries(d));
            assert(partitions_of_entries(gpt_table(d), at, d, entry_count(d)));
        }
    }
}

/// A device has partitions where its first sector ends with 55 AA: those of the GPT where one of
/// the four types of the MBR is EE, and those of the MBR otherwise.
pub proof fn law_table_is_gpt_or_mbr(d: Seq<u8>)
    ensures
        d.len() < 512 || d[510] != 0x55 || d[511] != 0xAA ==> partition_table(d).len() == 0,
        d.len() >= 512 && d[510] == 0x55 && d[511] == 0xAA ==> partition_table(d) == (if d[450]
            == 0xEE || d[466] == 0xEE || d[482] == 0xEE || d[498] == 0xEE {
            gpt_table(d)
        } else {
            mbr_partitions(d, 4)
        }),
{
}

/// Two bytes for each character of a name, the lower one first, up to the first pair of zeros,
/// are read back; so are all of them where there is no such pair.
pub proof fn law_utf16_name_is_read_back(b: Seq<u8>, n: int)
    requires
        0 <= n,
        2 * n <= b.len(),
        2 * n + 1 >= b.len() || (b[2 * n] == 0 && b[2 * n + 1] == 0),
        forall|i: int|
            0 <= i < n ==> ({
                let code = #[trigger] little_endian(b.subrange(2 * i, 2 * i + 2));
                code != 0 && !(0xd800 <= code < 0xe000)
            }),
    ensures
        utf16_name(b).len() == n,
        forall|i: int|
            0 <= i < n ==> #[trigger] utf16_name(b)[i] as int == little_endian(
                b.subrange(2 * i, 2 * i + 2),
            ),
    decreases b.len(),
{
    if b.len() >= 2 {
        crate::bytes::law_numbers_are_their_bytes(b, 0);
    }
    if n > 0 {
        let c = b.skip(2);
        let zero: int = 0;
        assert(little_endian(b.subrange(2 * zero, 2 * zero + 2)) == le16(b, 0));
        assert forall|i: int| 0 <= i < n - 1 implies ({
            let code = #[trigger] little_endian(c.subrange(2 * i, 2 * i + 2));
            code != 0 && !(0xd800 <= code < 0xe000)
        }) by {
            assert(c.subrange(2 * i, 2 * i + 2) =~= b.subrange(2 * (i + 1), 2 * (i + 1) + 2));
        }
        law_utf16_name_is_read_back(c, n - 1);
        assert(le16(b, 0) <= 0xffff);
        assert(utf16_name(b) == seq![le16(b, 0) as char] + utf16_name(c));
        assert forall|i: int| 0 <= i < n implies #[trigger] utf16_name(b)[i] as int
            == little_endian(b.subrange(2 * i, 2 * i + 2)) by {
            if i > 0 {
                assert(utf16_name(b)[i] == utf16_name(c)[i - 1]);
                assert(c.subrange(2 * (i - 1), 2 * (i - 1) + 2) =~= b.subrange(2 * i, 2 * i + 2));
            }
        }
    }
}

/// Surrogates in a name are passed over, wherever they stand.
pub proof fn law_utf16_name_skips_surrogates(b: Seq<u8>)
    requires
        b.len() >= 2,
        0xd800 <= little_endian(b.subrange(0, 2)) < 0xe000,
    ensures
        utf16_name(b) == utf16_name(b.skip(2)),
{
    crate::bytes::law_numbers_are_their_bytes(b, 0);
}

/// A GUID is written with 32 capital hexadecimal digits in groups of 8, 4, 4, 4 and 12: the first
/// three groups are numbers whose lowest byte comes first, the others the bytes one by one.
pub proof fn law_guid_is_written_in_groups(g: Seq<u8>, k: int)
    requires
        g.len() >= 16,
        8 <= k < 16,
    ensures
        ({
            let t = guid_text(g);
            let at = if k < 10 { 19 + 2 * (k - 8) } else { 24 + 2 * (k - 10) };
            &&& t.len() == 36
            &&& t[8] == '-' && t[13] == '-' && t[18] == '-' && t[23] == '-'
            &&& number_in(16, t.subrange(0, 8)) == little_endian(g.subrange(0, 4))
            &&& number_in(16, t.subrange(9, 13)) == little_endian(g.subrange(4, 6))
            &&& number_in(16, t.subrange(14, 18)) == little_endian(g.subrange(6, 8))
            &&& number_in(16, t.subrange(at, at + 2)) == g[k]
        }),
{
    reveal_strlit("-");
    crate::bytes::law_numbers_are_their_bytes(g, 0);
    crate::bytes::law_numbers_are_their_bytes(g, 4);
    crate::bytes::law_numbers_are_their_bytes(g, 6);
    let a = hex_padded(le32(g, 0) as nat, 8, true);
    let b = hex_padded(le16(g, 4) as nat, 4, true);
    let c = hex_padded(le16(g, 6) as nat, 4, true);
    assert(vstd::arithmetic::power::pow(16, 8) == 0x1_0000_0000) by {
        reveal_with_fuel(vstd::arithmetic::power::pow, 9);
    }
    assert(vstd::arithmetic::power::pow(16, 4) == 0x1_0000) by {
        reveal_with_fuel(vstd::arithmetic::power::pow, 5);
    }
    crate::text::law_hexadecimal_has_its_width(le32(g, 0) as nat, 8, true);
    crate::text::law_hexadecimal_has_its_width(le16(g, 4) as nat, 4, true);
    crate::text::law_hexadecimal_has_its_width(le16(g, 6) as nat, 4, true);
    crate::text::law_hexadecimal_is_the_number(le32(g, 0) as nat, 8, true);
    crate::text::law_hexadecimal_is_the_number(le16(g, 4) as nat, 4, true);
    crate::text::law_hexadecimal_is_the_number(le16(g, 6) as nat, 4, true);
    let x = hex_bytes(g, 8, 10, true);
    let y = hex_bytes(g, 10, 16, true);
    crate::text::law_hex_bytes_are_the_bytes(g, 8, 10, true, if k < 10 { k } else { 8 });
    crate::text::law_hex_bytes_are_the_bytes(g, 10, 16, true, if k < 10 { 10 } else { k });
    let t = guid_text(g);
    assert(t.subrange(0, 8) =~= a);
    assert(t.subrange(9, 13) =~= b);
    assert(t.subrange(14, 18) =~= c);
    if k < 10 {
        let at = 19 + 2 * (k - 8);
        assert(t.subrange(at, at + 2) =~= x.subrange(2 * (k - 8), 2 * (k - 8) + 2));
    } else {
        let at = 24 + 2 * (k - 10);
        assert(t.subrange(at, at + 2) =~= y.subrange(2 * (k - 10), 2 * (k - 10) + 2));
    }
}

/// The type GUIDs that have a name, byte by byte, with the names and the file systems that are
/// expected there.
pub open spec fn named_guids() -> Seq<(Seq<u8>, Seq<char>, Seq<char>)> {
    seq![
        (
            seq![
                0xAFu8, 0x3D, 0xC6, 0x0F, 0x83, 0x84, 0x72, 0x47, 0x8E, 0x79, 0x3D, 0x69, 0xD8,
                0x47, 0x7D, 0xE4,
            ],
            "Linux filesystem"@,
            "ext4/xfs/btrfs/..."@,
        ),
        (
            seq![
                0x28u8, 0x73, 0x2A, 0xC1, 0x1F, 0xF8, 0xD2, 0x11, 0xBA, 0x4B, 0x00, 0xA0, 0xC9,
                0x3E, 0xC9, 0x3B,
            ],
            "EFI System"@,
            "FAT32"@,
        ),
        (
            seq![
                0x6Du8, 0xFD, 0x57, 0x06, 0xAB, 0xA4, 0xC4, 0x43, 0x84, 0xE5, 0x09, 0x33, 0xC8,
                0x4B, 0x4F, 0x4F,
            ],
            "Linux swap"@,
            "swap"@,
        ),
        (
            seq![
                0x79u8, 0xD3, 0xD6, 0xE6, 0x07, 0xF5, 0xC2, 0x44, 0xA2, 0x3C, 0x23, 0x8F, 0x2A,
                0x3D, 0xF9, 0x28,
            ],
            "Linux LVM"@,
            "LVM2"@,
        ),
        (
            seq![
                0xE1u8, 0xC7, 0x3A, 0x93, 0xB4, 0x2E, 0x13, 0x4F, 0xB8, 0x44, 0x0E, 0x14, 0xE2,
                0xAE, 0xF9, 0x15,
            ],
            "Linux /home"@,
            "ext4/xfs/btrfs/..."@,
        ),
        (
            seq![
                0x16u8, 0xE3, 0xC9, 0xE3, 0x5C, 0x0B, 0xB8, 0x4D, 0x81, 0x7D, 0xF9, 0x2D, 0xF0,
                0x02, 0x15, 0xAE,
            ],
            "Windows basic"@,
            "NTFS"@,
        ),
    ]
}

/// A type GUID is called by its name where it has one, and is written out otherwise; a type with
/// a name is expected to hold its file system, and any other none.
pub proof fn law_guids_are_called_by_their_names(g: Seq<u8>, t: Seq<char>)
    ensures
        forall|k: int|
            0 <= k < named_guids().len() && (#[trigger] named_guids()[k]).0 == g ==> guid_type(g)
                == named_guids()[k].1,
        (forall|k: int| 0 <= k < named_guids().len() ==> (#[trigger] named_guids()[k]).0 != g)
            ==> guid_type(g) == guid_text(g),
        forall|k: int|
            0 <= k < named_guids().len() && (#[trigger] named_guids()[k]).1 == t ==> type_fs(t)
                == named_guids()[k].2,
        (forall|k: int| 0 <= k < named_guids().len() ==> (#[trigger] named_guids()[k]).1 != t)
            ==> type_fs(t).len() == 0,
{
    let n = named_guids();
    reveal_strlit("Linux filesystem");
    reveal_strlit("EFI System");
    reveal_strlit("Linux swap");
    reveal_strlit("Linux LVM");
    reveal_strlit("Linux /home");
    reveal_strlit("Windows basic");
    let first = |k: int| n[k].0[0];
    assert(first(0) == 0xAF && first(1) == 0x28 && first(2) == 0x6D && first(3) == 0x79 && first(4)
        == 0xE1 && first(5) == 0x16);
    assert(n[0].0 =~= linux_fs_guid());
    assert(n[1].0 =~= efi_system_guid());
    assert(n[2].0 =~= linux_swap_guid());
    assert(n[3].0 =~= linux_lvm_guid());
    assert(n[4].0 =~= linux_home_guid());
    assert(n[5].0 =~= windows_basic_guid());
    assert("Linux swap"@[6] == 's' && "Linux LVM"@[6] == 'L' && "Linux /home"@[6] == '/');
    assert("Linux filesystem"@.len() == 16 && "EFI System"@.len() == 10 && "Linux swap"@.len() == 10
        && "Linux LVM"@.len() == 9 && "Linux /home"@.len() == 11 && "Windows basic"@.len() == 13);
    assert("EFI System"@[0] == 'E' && "Linux swap"@[0] == 'L');
}

/// A file system is told from the bytes at its start, of which there must be 1088: 53 EF at 1080
/// goes before "XFSB", "_BHR" and "LVM2" at the start, these before "NTFS    " at 1080, and that
/// before "MSDOS" at 3 and "FAT32   " at 82.
pub proof fn law_file_systems_are_told_by_their_bytes(b: Seq<u8>)
    ensures
        b.len() < 1088 ==> detected_fs(b).len() == 0,
        b.len() >= 1088 ==> detected_fs(b) == (if b[1080] == 0x53 && b[1081] == 0xEF {
            "ext4"@
        } else if b[0] == 0x58 && b[1] == 0x46 && b[2] == 0x53 && b[3] == 0x42 {
            "XFS"@
        } else if b[0] == 0x5f && b[1] == 0x42 && b[2] == 0x48 && b[3] == 0x52 {
            "btrfs"@
        } else if b[0] == 0x4c && b[1] == 0x56 && b[2] == 0x4d && b[3] == 0x32 {
            "LVM2"@
        } else if b[1080] == 0x4e && b[1081] == 0x54 && b[1082] == 0x46 && b[1083] == 0x53
            && b[1084] == 0x20 && b[1085] == 0x20 && b[1086] == 0x20 && b[1087] == 0x20 {
            "NTFS"@
        } else if (b[3] == 0x4d && b[4] == 0x53 && b[5] == 0x44 && b[6] == 0x4f && b[7] == 0x53)
            || (b[82] == 0x46 && b[83] == 0x41 && b[84] == 0x54 && b[85] == 0x33 && b[86] == 0x32
            && b[87] == 0x20 && b[88] == 0x20 && b[89] == 0x20) {
            "FAT"@
        } else {
            seq![]
        }),
{
    if b.len() >= 1088 {
        let four = b.subrange(0, 4);
        let xfs = seq![0x58u8, 0x46, 0x53, 0x42];
        let btrfs = seq![0x5fu8, 0x42, 0x48, 0x52];
        let lvm = seq![0x4cu8, 0x56, 0x4d, 0x32];
        assert(four[0] == b[0] && four[1] == b[1] && four[2] == b[2] && four[3] == b[3]);
        assert(b[0] == 0x58 && b[1] == 0x46 && b[2] == 0x53 && b[3] == 0x42 ==> four =~= xfs);
        assert(b[0] == 0x5f && b[1] == 0x42 && b[2] == 0x48 && b[3] == 0x52 ==> four =~= btrfs);
        assert(b[0] == 0x4c && b[1] == 0x56 && b[2] == 0x4d && b[3] == 0x32 ==> four =~= lvm);
        let late = b.subrange(1080, 1088);
        let ntfs = seq![0x4eu8, 0x54, 0x46, 0x53, 0x20, 0x20, 0x20, 0x20];
        assert(late[0] == b[1080] && late[1] == b[1081] && late[2] == b[1082] && late[3] == b[1083]
            && late[4] == b[1084] && late[5] == b[1085] && late[6] == b[1086] && late[7]
            == b[1087]);
        assert(b[1080] == 0x4e && b[1081] == 0x54 && b[1082] == 0x46 && b[1083] == 0x53 && b[1084]
            == 0x20 && b[1085] == 0x20 && b[1086] == 0x20 && b[1087] == 0x20 ==> late =~= ntfs);
        let oem = b.subrange(3, 8);
        let msdos = seq![0x4du8, 0x53, 0x44, 0x4f, 0x53];
        assert(oem[0] == b[3] && oem[1] == b[4] && oem[2] == b[5] && oem[3] == b[6] && oem[4]
            == b[7]);
        assert(b[3] == 0x4d && b[4] == 0x53 && b[5] == 0x44 && b[6] == 0x4f && b[7] == 0x53
            ==> oem =~= msdos);
        let kind = b.subrange(82, 90);
        let fat32 = seq![0x46u8, 0x41, 0x54, 0x33, 0x32, 0x20, 0x20, 0x20];
        assert(kind[0] == b[82] && kind[1] == b[83] && kind[2] == b[84] && kind[3] == b[85]
            && kind[4] == b[86] && kind[5] == b[87] && kind[6] == b[88] && kind[7] == b[89]);
        assert(b[82] == 0x46 && b[83] == 0x41 && b[84] == 0x54 && b[85] == 0x33 && b[86] == 0x32
            && b[87] == 0x20 && b[88] == 0x20 && b[89] == 0x20 ==> kind =~= fat32);
    }
}

/// The characters of a name are read pair by pair: a pair of zeros ends the name, a surrogate is
/// passed over, and any other pair is a character; a single byte at the end is none.
pub proof fn law_utf16_name_goes_pair_by_pair(b: Seq<u8>)
    ensures
        b.len() < 2 ==> utf16_name(b).len() == 0,
        b.len() >= 2 ==> {
            let code = b[0] + 256 * b[1];
            &&& code == 0 ==> utf16_name(b).len() == 0
            &&& 0xd800 <= code < 0xe000 ==> utf16_name(b) == utf16_name(b.skip(2))
            &&& code != 0 && !(0xd800 <= code < 0xe000) ==> utf16_name(b) == seq![code as char]
                + utf16_name(b.skip(2))
        },
{
}

/// The partitions of a list are shown one by one, each with all that it says.
pub proof fn law_partitions_are_shown_one_by_one(v: Seq<Partition>, i: int)
    requires
        0 <= i < v.len(),
    ensures
        shown(v).len() == v.len(),
        shown(v)[i].number == v[i].number,
        shown(v)[i].name == v[i].name@,
        shown(v)[i].start_sector == v[i].start_sector,
        shown(v)[i].num_sectors == v[i].num_sectors,
        shown(v)[i].type_guid == v[i].type_guid@,
        shown(v)[i].fs_type == v[i].fs_type@,
        shown(v)[i].byte_offset == v[i].byte_offset,
        shown(v)[i].byte_length == v[i].byte_length,
{
}

/// A table can be read unless it speaks of more bytes than 64 bits count: any MBR can, and a GPT
/// whose entries end within so many bytes and whose partitions do not end before they start.
pub proof fn law_ordinary_tables_can_be_read(d: Seq<u8>)
    requires
        d.len() >= 604 && gpt_is_whole(d) ==> forall|i: int|
            0 <= i < entry_count(d) && #[trigger] entry_has_partition(d, i) ==> {
                let o = entries_from(d) + 128 * i;
                little_endian(d.subrange(o + 32, o + 40)) <= little_endian(
                    d.subrange(o + 40, o + 48),
                ) < 0x7f_ffff_ffff_ffff
            },
        d.len() >= 604 ==> entries_from(d) + entry_count(d) * little_endian(d.subrange(596, 600))
            <= u64::MAX,
    ensures
        table_fits(d),
{
    if leads_to_gpt(d) && has_gpt_header(d) {
        lemma_whole_gpt(d);
        crate::bytes::law_numbers_are_their_bytes(d, 584);
        crate::bytes::law_numbers_are_their_bytes(d, 592);
        crate::bytes::law_numbers_are_their_bytes(d, 596);
        if has_gpt_entries(d) {
            assert forall|i: int| 0 <= i < gpt_num_entries(d) implies #[trigger] gpt_entry_fits(
                d,
                i,
            ) by {
                lemma_gpt_entry(d, i);
                lemma_entry_inside(d, i);
                let o = gpt_entry_offset(d, i);
                assert(o == entries_from(d) + 128 * i);
                crate::bytes::law_numbers_are_their_bytes(d, o + 32);
                crate::bytes::law_numbers_are_their_bytes(d, o + 40);
            }
        }
    }
}

/// A read within a partition asks for all that is wanted, or for all up to the end of the
/// partition, as far behind its start as the position says; for nothing only at the end.
pub proof fn law_partition_reads_ask_for_all(p: PartitionReader<VmaDeviceReader>, want: usize)
    requires
        p.offset() + p.length() <= u64::MAX,
    ensures
        p.pos() >= p.length() <==> p.asks(want) is None,
        p.asks(want) matches Some((at, most)) ==> {
            &&& at == p.offset() + p.pos()
            &&& most <= want
            &&& p.pos() + most <= p.length()
            &&& most == want || p.pos() + most == p.length()
        },
{
}

} // verus!
