//! VMA archives: the header, the devices, and the way to their clusters.
use vstd::prelude::*;
use std::collections::HashMap;
use std::path::PathBuf;
use crate::bytes::{
    be32, be64, be64_signed, big_endian, big_endian_bytes, get_be32, get_be64, get_be64_signed, get_le16, has_at, le16,
    little_endian, matches_at,
};
use crate::cluster::{
    indexes, is_first, names, ones_below, scattered, stored_bytes, zero_cluster, ClusterEntry, ClusterIndex,
};
use crate::extent::{
    after_header, chain_slot_is_for, chain_slots, entries_of_chain, extent_chain, ones_in_masks,
    says_slot, slot_before, walk_goes_on, walk_run, walk_start, walk_step, ExtentWalk, WalkState,
};
use crate::outside::{format_utc, has_utc_text, text_from_utf8_lossy, utc_text, utf8_lossy};
use crate::reader::{cluster_image, ReaderState, VmaDeviceReader};
use crate::text::{
    concat_texts, decimal, decimal_signed, decimal_signed_text, decimal_text, trim_end, trimmed_end,
};

verus! {

// ---------------------------------------------------------------- errors

/// Why a file is not an archive that can be read, or a device not one of the archive.
#[derive(Clone, Copy, Debug, PartialEq, Eq, Structural)]
pub enum VmaError {
    /// The file is compressed with zstd.
    Zstd,
    /// The file is compressed with gzip.
    Gzip,
    /// The file has no VMA signature.
    NotVma,
    /// The header is too short or has no VMA signature.
    InvalidHeader,
    /// There is no device of that number.
    BadDeviceIndex,
}

/// The message for an error, with the path of the file.
pub open spec fn vma_message(e: VmaError, path: Seq<char>) -> Seq<char> {
    match e {
        VmaError::Zstd => path + " is zstd-compressed.\nDecompress first:  zstd -d "@ + path,
        VmaError::Gzip => path + " is gzip-compressed.\nDecompress first:  gunzip "@ + path,
        VmaError::NotVma => path + " is not a valid VMA file"@,
        VmaError::InvalidHeader => "Invalid VMA header"@,
        VmaError::BadDeviceIndex => "bad device index"@,
    }
}

impl VmaError {
    /// The message for the error, with the path of the file.
    pub fn message(&self, path: &str) -> (r: String)
        ensures
            r@ == vma_message(*self, path@),
    {
        match self {
            VmaError::Zstd => {
                let mut s = path.to_owned();
                s.append(" is zstd-compressed.\nDecompress first:  zstd -d ");
                s.append(path);
                s
            },
            VmaError::Gzip => {
                let mut s = path.to_owned();
                s.append(" is gzip-compressed.\nDecompress first:  gunzip ");
                s.append(path);
                s
            },
            VmaError::NotVma => concat_texts(path, " is not a valid VMA file"),
            VmaError::InvalidHeader => "Invalid VMA header".to_owned(),
            VmaError::BadDeviceIndex => "bad device index".to_owned(),
        }
    }
}

// ---------------------------------------------------------------- signature

/// The signature of a VMA archive.
pub open spec fn vma_signature() -> Seq<u8> {
    seq![0x56u8, 0x4d, 0x41, 0x00]
}

/// What the first bytes of a file say of it.
pub open spec fn magic_error(magic: Seq<u8>) -> Option<VmaError> {
    if has_at(magic, 0, seq![0x28u8, 0xb5, 0x2f, 0xfd]) {
        Some(VmaError::Zstd)
    } else if has_at(magic, 0, seq![0x1fu8, 0x8b]) {
        Some(VmaError::Gzip)
    } else if !has_at(magic, 0, vma_signature()) {
        Some(VmaError::NotVma)
    } else {
        None
    }
}

fn has_vma_signature(d: &[u8]) -> (r: bool)
    ensures
        r == has_at(d@, 0, vma_signature()),
{
    let vma: [u8; 4] = [0x56, 0x4d, 0x41, 0x00];
    assert(vma@ =~= vma_signature());
    matches_at(d, 0, &vma)
}

/// Whether a file that starts with `magic` is an archive.
pub fn check_magic(magic: &[u8]) -> (r: Result<(), VmaError>)
    ensures
        r == match magic_error(magic@) {
            Some(e) => Err::<(), VmaError>(e),
            None => Ok(()),
        },
{
    let zstd: [u8; 4] = [0x28, 0xb5, 0x2f, 0xfd];
    let gzip: [u8; 2] = [0x1f, 0x8b];
    assert(zstd@ =~= seq![0x28u8, 0xb5, 0x2f, 0xfd]);
    assert(gzip@ =~= seq![0x1fu8, 0x8b]);
    if matches_at(magic, 0, &zstd) {
        Err(VmaError::Zstd)
    } else if matches_at(magic, 0, &gzip) {
        Err(VmaError::Gzip)
    } else if !has_vma_signature(magic) {
        Err(VmaError::NotVma)
    } else {
        Ok(())
    }
}

/// The length of the whole header, as its first 60 bytes give it.
pub fn header_size(prefix: &[u8]) -> (r: u32)
    requires
        prefix@.len() >= 60,
    ensures
        r == be32(prefix@, 56),
{
    get_be32(prefix, 56)
}

// ---------------------------------------------------------------- blobs

/// Where the blobs of a header start.
pub open spec fn blob_start(d: Seq<u8>) -> int {
    be32(d, 48)
}

/// Where the blobs of a header end.
pub open spec fn blob_end(d: Seq<u8>) -> int {
    be32(d, 48) + be32(d, 52)
}

/// A blob may start at `p`.
pub open spec fn blob_may_start(d: Seq<u8>, p: int) -> bool {
    p + 2 <= blob_end(d) && p < d.len()
}

/// The blob at `p` stands whole within the header and the blob area.
pub open spec fn blob_is_whole(d: Seq<u8>, p: int) -> bool {
    p + 2 + le16(d, p) <= d.len() && p + 2 + le16(d, p) <= blob_end(d)
}

/// The number by which the header refers to the blob at `p`.
pub open spec fn blob_key(d: Seq<u8>, p: int) -> u32 {
    (p - blob_start(d)) as u32
}

/// The contents of the blob at `p`: its length in two bytes goes before them.
pub open spec fn blob_contents(d: Seq<u8>, p: int) -> Seq<u8> {
    d.subrange(p + 2, p + 2 + le16(d, p))
}

/// The blobs from `p` on, one behind the other, put into `found`.
pub open spec fn blobs_onto(d: Seq<u8>, p: int, found: Map<u32, Seq<u8>>) -> Map<u32, Seq<u8>>
    decreases d.len() - p,
{
    if blob_may_start(d, p) && blob_is_whole(d, p) {
        blobs_onto(
            d,
            p + 2 + le16(d, p),
            found.insert(blob_key(d, p), blob_contents(d, p)),
        )
    } else {
        found
    }
}

/// All blobs of a header.
pub open spec fn blobs(d: Seq<u8>) -> Map<u32, Seq<u8>> {
    blobs_onto(d, blob_start(d) + 1, Map::empty())
}

/// The places of the blobs from `p` on.
pub open spec fn blob_chain(d: Seq<u8>, p: int) -> Seq<int>
    decreases d.len() - p,
{
    if blob_may_start(d, p) && blob_is_whole(d, p) {
        seq![p] + blob_chain(d, p + 2 + le16(d, p))
    } else {
        seq![]
    }
}

proof fn lemma_later_blobs_keep(d: Seq<u8>, p: int, found: Map<u32, Seq<u8>>, key: u32)
    requires
        d.len() >= 60,
        key < p - blob_start(d),
    ensures
        blobs_onto(d, p, found).contains_key(key) == found.contains_key(key),
        found.contains_key(key) ==> blobs_onto(d, p, found)[key] == found[key],
    decreases d.len() - p,
{
    if blob_may_start(d, p) && blob_is_whole(d, p) {
        lemma_later_blobs_keep(
            d,
            p + 2 + le16(d, p),
            found.insert(blob_key(d, p), blob_contents(d, p)),
            key,
        );
    }
}

proof fn lemma_blobs_are_found(d: Seq<u8>, p: int, found: Map<u32, Seq<u8>>, k: int)
    requires
        d.len() >= 60,
        blob_start(d) < p,
        0 <= k < blob_chain(d, p).len(),
    ensures
        ({
            let q = blob_chain(d, p)[k];
            &&& blobs_onto(d, p, found).contains_key(blob_key(d, q))
            &&& blobs_onto(d, p, found)[blob_key(d, q)] == blob_contents(d, q)
        }),
    decreases d.len() - p,
{
    let next = p + 2 + le16(d, p);
    let more = found.insert(blob_key(d, p), blob_contents(d, p));
    if k == 0 {
        lemma_later_blobs_keep(d, next, more, blob_key(d, p));
    } else {
        lemma_blobs_are_found(d, next, more, k - 1);
    }
}

/// Each blob of a header is found by how far it stands behind the start of the blobs.
pub proof fn law_blobs_are_found_by_their_place(d: Seq<u8>, k: int)
    requires
        header_valid(d),
        0 <= k < blob_chain(d, blob_start(d) + 1).len(),
    ensures
        ({
            let q = blob_chain(d, blob_start(d) + 1)[k];
            &&& blobs(d).contains_key(blob_key(d, q))
            &&& blobs(d)[blob_key(d, q)] == blob_contents(d, q)
        }),
{
    lemma_blobs_are_found(d, blob_start(d) + 1, Map::empty(), k);
}

/// No blob from `p` on has its length cut off by the end of the header.
pub open spec fn blob_lengths_stand(d: Seq<u8>, p: int) -> bool
    decreases d.len() - p,
{
    blob_may_start(d, p) ==> {
        &&& p + 1 < d.len()
        &&& blob_is_whole(d, p) ==> blob_lengths_stand(d, p + 2 + le16(d, p))
    }
}

/// The header can be read: its blobs end within it, if it is a header at all.
pub open spec fn header_fits(d: Seq<u8>) -> bool {
    header_valid(d) ==> blob_lengths_stand(d, blob_start(d) + 1)
}

/// The bytes start like a header and are long enough for one.
pub open spec fn header_valid(d: Seq<u8>) -> bool {
    d.len() >= 60 && has_at(d, 0, vma_signature())
}

/// Whether a header can be read.
pub fn header_can_be_read(data: &[u8]) -> (r: bool)
    ensures
        r == header_fits(data@),
{
    let len = data.len() as u64;
    if len < 60 || !has_vma_signature(data) {
        return true;
    }
    let start = get_be32(data, 48) as u64;
    let end = start + get_be32(data, 52) as u64;
    let mut p: u64 = start + 1;
    while p + 2 <= end && p < len
        invariant
            len == data@.len(),
            len <= usize::MAX,
            header_valid(data@),
            start == blob_start(data@),
            end == blob_end(data@),
            end <= 0x2_0000_0000,
            0 <= p,
            p <= end || p == start + 1,
            start <= 0xffff_ffff,
            blob_lengths_stand(data@, p as int) == blob_lengths_stand(data@, start + 1),
        decreases len - p,
    {
        if p + 1 >= len {
            return false;
        }
        let size = get_le16(data, p as usize) as u64;
        if p + 2 + size > len || p + 2 + size > end {
            return true;
        }
        p = p + 2 + size;
    }
    true
}

/// The texts of some blobs.
pub open spec fn blob_texts(found: Map<u32, Seq<u8>>) -> Map<u32, Seq<char>> {
    found.map_values(|b: Seq<u8>| utf8_lossy(b))
}

/// The texts of a table.
pub open spec fn text_table(m: Map<u32, String>) -> Map<u32, Seq<char>> {
    m.map_values(|s: String| s@)
}

/// The texts of all blobs of a header.
pub fn read_blobs(data: &[u8]) -> (r: HashMap<u32, String>)
    requires
        header_valid(data@),
        header_fits(data@),
    ensures
        text_table(r@) == blob_texts(blobs(data@)),
{
    broadcast use vstd::std_specs::hash::group_hash_axioms;

    let len = data.len() as u64;
    let start = get_be32(data, 48) as u64;
    let end = start + get_be32(data, 52) as u64;
    let mut found: HashMap<u32, String> = HashMap::new();
    let ghost mut raw: Map<u32, Seq<u8>> = Map::empty();
    let mut p: u64 = start + 1;
    assert(text_table(found@) =~= blob_texts(raw));
    while p + 2 <= end && p < len
        invariant_except_break
            blob_lengths_stand(data@, p as int),
            blobs_onto(data@, p as int, raw) == blobs(data@),
        invariant
            len == data@.len(),
            len <= usize::MAX,
            start == blob_start(data@),
            end == blob_end(data@),
            end <= 0x1_ffff_fffe,
            start < p,
            p <= end || p == start + 1,
            start <= 0xffff_ffff,
            end - start <= 0xffff_ffff,
            text_table(found@) == blob_texts(raw),
        ensures
            raw == blobs(data@),
        decreases len - p,
    {
        broadcast use vstd::std_specs::hash::group_hash_axioms;

        let size = get_le16(data, p as usize) as u64;
        if p + 2 + size > len || p + 2 + size > end {
            break;
        }
        let from = (p + 2) as usize;
        let blob = vstd::slice::slice_subrange(data, from, from + size as usize);
        let key = (p - start) as u32;
        let ghost before = found@;
        let ghost raw_before = raw;
        let text = text_from_utf8_lossy(blob);
        let ghost shown = text@;
        found.insert(key, text);
        proof {
            raw = raw.insert(blob_key(data@, p as int), blob_contents(data@, p as int));
            assert(text_table(found@) =~= text_table(before).insert(key, shown));
            assert(blob_texts(raw) =~= blob_texts(raw_before).insert(key, shown));
        }
        p = p + 2 + size;
    }
    found
}

// ---------------------------------------------------------------- header

/// A device of an archive.
#[derive(Clone, Debug)]
pub struct VmaDevice {
    pub name: String,
    pub size: u64,
    pub dev_id: usize,
}

/// A device of an archive.
pub struct VmaDeviceView {
    pub name: Seq<char>,
    pub size: u64,
    pub dev_id: usize,
}

impl View for VmaDevice {
    type V = VmaDeviceView;

    open spec fn view(&self) -> VmaDeviceView {
        VmaDeviceView { name: self.name@, size: self.size, dev_id: self.dev_id }
    }
}

/// The devices of a list.
pub open spec fn devices_shown(v: Seq<VmaDevice>) -> Seq<VmaDeviceView> {
    v.map_values(|d: VmaDevice| d@)
}

/// The names and contents of a list of configuration files.
pub open spec fn config_shown(v: Seq<(String, String)>) -> Seq<(Seq<char>, Seq<char>)> {
    v.map_values(|c: (String, String)| (c.0@, c.1@))
}

/// The text with a key; none where there is no such text.
pub open spec fn text_with(table: Map<u32, Seq<char>>, key: u32) -> Option<Seq<char>> {
    if table.contains_key(key) {
        Some(table[key])
    } else {
        None
    }
}

/// A name from the text of a blob: without the zeros at its end.
pub open spec fn name_from(text: Option<Seq<char>>, otherwise: Seq<char>) -> Seq<char> {
    match text {
        Some(t) => trim_end(t, '\0'),
        None => otherwise,
    }
}

/// The text of a blob, or nothing.
pub open spec fn text_or_nothing(text: Option<Seq<char>>) -> Seq<char> {
    match text {
        Some(t) => t,
        None => seq![],
    }
}

/// The name of a device with number `did` that has no name of its own.
pub open spec fn unnamed_device(did: nat) -> Seq<char> {
    "device_"@ + decimal(did)
}

/// The blob with the name of configuration file `i`.
pub open spec fn config_name_key(d: Seq<u8>, i: int) -> u32 {
    be32(d, 2044 + 4 * i) as u32
}

/// The blob with the contents of configuration file `i`.
pub open spec fn config_data_key(d: Seq<u8>, i: int) -> u32 {
    be32(d, 3068 + 4 * i) as u32
}

/// Slot `i` of the header names a configuration file.
pub open spec fn config_used(d: Seq<u8>, i: int) -> bool {
    &&& 3068 + 4 * i + 4 <= d.len()
    &&& config_name_key(d, i) != 0
    &&& config_data_key(d, i) != 0
}

/// The configuration files of the first `n` slots, where `table` holds the texts of the blobs.
pub open spec fn config_slots(d: Seq<u8>, table: Map<u32, Seq<char>>, n: int) -> Seq<
    (Seq<char>, Seq<char>),
>
    decreases n,
{
    if n <= 0 {
        seq![]
    } else if config_used(d, n - 1) {
        config_slots(d, table, n - 1).push(
            (
                name_from(text_with(table, config_name_key(d, n - 1)), seq![]),
                text_or_nothing(text_with(table, config_data_key(d, n - 1))),
            ),
        )
    } else {
        config_slots(d, table, n - 1)
    }
}

/// The configuration files that a header names.
pub open spec fn header_config(d: Seq<u8>) -> Seq<(Seq<char>, Seq<char>)> {
    config_slots(d, blob_texts(blobs(d)), 256)
}

/// The blob with the name of the device in slot `i`.
pub open spec fn device_name_key(d: Seq<u8>, i: int) -> u32 {
    be32(d, 4096 + 32 * i) as u32
}

/// The size of the device in slot `i`.
pub open spec fn device_size(d: Seq<u8>, i: int) -> u64 {
    be64(d, 4096 + 32 * i + 8) as u64
}

/// Slot `i` of the header holds a device.
pub open spec fn device_used(d: Seq<u8>, i: int) -> bool {
    &&& 4096 + 32 * i + 32 <= d.len()
    &&& device_size(d, i) != 0
    &&& device_name_key(d, i) != 0
}

/// The device in slot `i`.
pub open spec fn device_in_slot(d: Seq<u8>, table: Map<u32, Seq<char>>, i: int) -> VmaDeviceView {
    VmaDeviceView {
        name: name_from(
            text_with(table, device_name_key(d, i)),
            unnamed_device((i + 1) as nat),
        ),
        size: device_size(d, i),
        dev_id: i as usize,
    }
}

/// The devices of the first `n` slots, where `table` holds the texts of the blobs.
pub open spec fn device_slots(d: Seq<u8>, table: Map<u32, Seq<char>>, n: int) -> Seq<VmaDeviceView>
    decreases n,
{
    if n <= 0 {
        seq![]
    } else if device_used(d, n - 1) {
        device_slots(d, table, n - 1).push(device_in_slot(d, table, n - 1))
    } else {
        device_slots(d, table, n - 1)
    }
}

/// The devices that a header names.
pub open spec fn header_devices(d: Seq<u8>) -> Seq<VmaDeviceView> {
    device_slots(d, blob_texts(blobs(d)), 255)
}

/// What the header says of the time of the backup, in seconds.
pub open spec fn header_seconds(d: Seq<u8>) -> int {
    be64_signed(d, 24)
}

/// How a time is written: the date, or the seconds where there is none.
pub open spec fn time_text(secs: int, date: Option<Seq<char>>) -> Seq<char> {
    match date {
        Some(t) => t,
        None => decimal_signed(secs),
    }
}

/// The date for some seconds, in the form of this library.
pub open spec fn date_of(secs: int) -> Option<Seq<char>> {
    if has_utc_text(secs) {
        Some(utc_text(secs as i64, "%Y-%m-%d %H:%M:%S"@))
    } else {
        None
    }
}

/// The text of an optional string.
pub open spec fn shown_option(o: Option<String>) -> Option<Seq<char>> {
    match o {
        Some(s) => Some(s@),
        None => None,
    }
}

/// Writes a time: the date, or the seconds where there is none.
pub fn shown_time(secs: i64, date: Option<String>) -> (r: String)
    ensures
        r@ == time_text(secs as int, shown_option(date)),
{
    match date {
        Some(t) => t,
        None => decimal_signed_text(secs),
    }
}

/// The name that the text of a blob gives, without the zeros at its end.
pub fn name_or(text: Option<String>, otherwise: String) -> (r: String)
    ensures
        r@ == name_from(shown_option(text), otherwise@),
{
    match text {
        Some(t) => trimmed_end(t.as_str(), '\0'),
        None => otherwise,
    }
}

fn look_up(table: &HashMap<u32, String>, key: u32) -> (r: Option<String>)
    ensures
        shown_option(r) == text_with(text_table(table@), key),
{
    broadcast use vstd::std_specs::hash::group_hash_axioms;

    match table.get(&key) {
        Some(t) => Some(t.clone()),
        None => None,
    }
}

/// The configuration files that a header names, with the texts of its blobs.
pub fn parse_config(data: &[u8], table: &HashMap<u32, String>) -> (config: Vec<(String, String)>)
    ensures
        config_shown(config@) == config_slots(data@, text_table(table@), 256),
{
    let len = data.len();
    let ghost all = text_table(table@);
    let mut config: Vec<(String, String)> = Vec::new();
    assert(config_shown(config@) =~= config_slots(data@, all, 0));
    let mut i: usize = 0;
    while i < 256
        invariant
            i <= 256,
            len == data@.len(),
            all == text_table(table@),
            config_shown(config@) == config_slots(data@, all, i as int),
        decreases 256 - i,
    {
        let ghost before = config@;
        let data_at: usize = 3068 + 4 * i;
        if data_at + 4 <= len {
            let name_key = get_be32(data, 2044 + 4 * i);
            let data_key = get_be32(data, data_at);
            if name_key != 0 && data_key != 0 {
                let name = name_or(look_up(table, name_key), String::new());
                let value = match look_up(table, data_key) {
                    Some(t) => t,
                    None => String::new(),
                };
                let ghost item = (name@, value@);
                assert(value@ =~= text_or_nothing(text_with(all, data_key)));
                config.push((name, value));
                assert(config_shown(config@) =~= config_shown(before).push(item));
            }
        }
        i = i + 1;
    }
    config
}

/// The devices that a header names, with the texts of its blobs.
pub fn parse_devices(data: &[u8], table: &HashMap<u32, String>) -> (devices: Vec<VmaDevice>)
    ensures
        devices_shown(devices@) == device_slots(data@, text_table(table@), 255),
{
    let len = data.len();
    let ghost all = text_table(table@);
    let mut devices: Vec<VmaDevice> = Vec::new();
    assert(devices_shown(devices@) =~= device_slots(data@, all, 0));
    let mut i: usize = 0;
    while i < 255
        invariant
            i <= 255,
            len == data@.len(),
            all == text_table(table@),
            devices_shown(devices@) == device_slots(data@, all, i as int),
        decreases 255 - i,
    {
        let ghost before = devices@;
        let at: usize = 4096 + 32 * i;
        if at + 32 <= len {
            let key = get_be32(data, at);
            let size = get_be64(data, at + 8);
            if size != 0 && key != 0 {
                let fallback = concat_texts("device_", decimal_text(i as u64 + 1).as_str());
                let name = name_or(look_up(table, key), fallback);
                devices.push(VmaDevice { name, size, dev_id: i });
                assert(devices_shown(devices@) =~= devices_shown(before).push(
                    device_in_slot(data@, all, i as int),
                ));
            }
        }
        i = i + 1;
    }
    devices
}

/// The devices, the configuration files and the time of the backup, from the bytes of a header.
pub fn parse_header_bytes(data: &[u8]) -> (r: Result<
    (Vec<VmaDevice>, Vec<(String, String)>, String),
    VmaError,
>)
    requires
        header_fits(data@),
    ensures
        r is Ok <==> header_valid(data@),
        r matches Err(e) ==> e == VmaError::InvalidHeader,
        r matches Ok(h) ==> {
            &&& devices_shown(h.0@) == header_devices(data@)
            &&& config_shown(h.1@) == header_config(data@)
            &&& h.2@ == time_text(header_seconds(data@), date_of(header_seconds(data@)))
        },
{
    if data.len() < 60 || !has_vma_signature(data) {
        return Err(VmaError::InvalidHeader);
    }
    let table = read_blobs(data);
    let config = parse_config(data, &table);
    let devices = parse_devices(data, &table);
    let secs = get_be64_signed(data, 24);
    let ctime = shown_time(secs, format_utc(secs, "%Y-%m-%d %H:%M:%S"));
    Ok((devices, config, ctime))
}

/// The devices of a header stand in the order of their slots, no slot gives two, and none is
/// empty.
pub proof fn law_device_numbers_rise(d: Seq<u8>, table: Map<u32, Seq<char>>, n: int)
    requires
        0 <= n <= 255,
    ensures
        forall|k: int|
            0 <= k < device_slots(d, table, n).len() ==> (#[trigger] device_slots(
                d,
                table,
                n,
            )[k]).dev_id < n && device_slots(d, table, n)[k].size != 0,
        forall|j: int, k: int|
            0 <= j < k < device_slots(d, table, n).len() ==> (#[trigger] device_slots(
                d,
                table,
                n,
            )[j]).dev_id < (#[trigger] device_slots(d, table, n)[k]).dev_id,
    decreases n,
{
    if n > 0 {
        law_device_numbers_rise(d, table, n - 1);
        let before = device_slots(d, table, n - 1);
        let now = device_slots(d, table, n);
        assert forall|k: int| 0 <= k < now.len() implies (#[trigger] now[k]).dev_id < n
            && now[k].size != 0 by {
            if k < before.len() {
                assert(now[k] == before[k]);
            }
        }
        assert forall|j: int, k: int| 0 <= j < k < now.len() implies (#[trigger] now[j]).dev_id < (
        #[trigger] now[k]).dev_id by {
            assert(now[j] == before[j]);
            if k < before.len() {
                assert(now[k] == before[k]);
            }
        }
    }
}

// ---------------------------------------------------------------- scanning

/// The largest number of a device; zero where there is none.
pub open spec fn max_dev_id(devices: Seq<VmaDeviceView>) -> nat
    decreases devices.len(),
{
    if devices.len() == 0 {
        0
    } else {
        let most = max_dev_id(devices.drop_last());
        if most < devices.last().dev_id {
            devices.last().dev_id as nat
        } else {
            most
        }
    }
}

proof fn lemma_max_dev_id_is_largest(devices: Seq<VmaDeviceView>, k: int)
    requires
        0 <= k < devices.len(),
    ensures
        devices[k].dev_id <= max_dev_id(devices),
    decreases devices.len(),
{
    if k < devices.len() - 1 {
        lemma_max_dev_id_is_largest(devices.drop_last(), k);
    }
}

proof fn lemma_max_dev_id_below(devices: Seq<VmaDeviceView>, limit: int)
    requires
        0 < limit,
        forall|k: int| 0 <= k < devices.len() ==> (#[trigger] devices[k]).dev_id < limit,
    ensures
        max_dev_id(devices) < limit,
    decreases devices.len(),
{
    if devices.len() > 0 {
        let rest = devices.drop_last();
        assert forall|k: int| 0 <= k < rest.len() implies (#[trigger] rest[k]).dev_id < limit by {
            assert(rest[k] == devices[k]);
        }
        lemma_max_dev_id_below(rest, limit);
    }
}

fn largest_dev_id(devices: &Vec<VmaDevice>) -> (r: usize)
    ensures
        r == max_dev_id(devices_shown(devices@)),
{
    let mut most: usize = 0;
    let mut i: usize = 0;
    let ghost all = devices_shown(devices@);
    while i < devices.len()
        invariant
            i <= devices.len(),
            all == devices_shown(devices@),
            most == max_dev_id(all.take(i as int)),
        decreases devices.len() - i,
    {
        assert(all.take(i + 1).drop_last() =~= all.take(i as int));
        assert(all.take(i + 1).last() == devices@[i as int]@);
        if most < devices[i].dev_id {
            most = devices[i].dev_id;
        }
        i = i + 1;
    }
    assert(all.take(i as int) =~= all);
    most
}

/// An archive whose extents are being looked through.
pub struct ArchiveScan {
    devices: Vec<VmaDevice>,
    config: Vec<(String, String)>,
    ctime: String,
    walk: ExtentWalk,
}

/// An archive whose extents are being looked through.
pub struct ScanState {
    pub devices: Seq<VmaDeviceView>,
    pub config: Seq<(Seq<char>, Seq<char>)>,
    pub ctime: Seq<char>,
    pub walk: WalkState,
}

impl View for ArchiveScan {
    type V = ScanState;

    closed spec fn view(&self) -> ScanState {
        ScanState {
            devices: devices_shown(self.devices@),
            config: config_shown(self.config@),
            ctime: self.ctime@,
            walk: self.walk@,
        }
    }
}

/// The start of a scan: what the header says, and no extent looked at.
pub open spec fn scan_start(header: Seq<u8>, file_len: int) -> ScanState {
    ScanState {
        devices: header_devices(header),
        config: header_config(header),
        ctime: time_text(header_seconds(header), date_of(header_seconds(header))),
        walk: walk_start(
            header.len() as int,
            file_len,
            max_dev_id(header_devices(header)) + 1,
        ),
    }
}

/// A scan carried through to the end of a file.
pub open spec fn scan_run(file: Seq<u8>, s: ScanState) -> ScanState {
    ScanState { walk: walk_run(file, s.walk), ..s }
}

impl ArchiveScan {
    /// Starts to look through a file of `file_len` bytes with this header.
    pub fn new(header: &[u8], file_len: u64) -> (r: Result<Self, VmaError>)
        requires
            header_fits(header@),
            header@.len() <= u32::MAX,
            file_len <= i64::MAX,
        ensures
            r is Ok <==> header_valid(header@),
            r matches Err(e) ==> e == VmaError::InvalidHeader,
            r matches Ok(s) ==> s@ == scan_start(header@, file_len as int),
    {
        match parse_header_bytes(header) {
            Err(e) => Err(e),
            Ok(h) => {
                let (devices, config, ctime) = h;
                proof {
                    law_device_numbers_rise(header@, blob_texts(blobs(header@)), 255);
                    lemma_max_dev_id_below(header_devices(header@), 255);
                }
                let count = largest_dev_id(&devices) + 1;
                let walk = ExtentWalk::new(header.len() as u32, file_len, count);
                Ok(ArchiveScan { devices, config, ctime, walk })
            },
        }
    }

    /// The place of the next 512 bytes that the scan needs; none at the end of the file.
    pub fn next_header(&self) -> (r: Option<u64>)
        ensures
            r == (if walk_goes_on(self@.walk) {
                Some(self@.walk.pos as u64)
            } else {
                None
            }),
    {
        self.walk.next_header()
    }

    /// Goes on with the 512 bytes at the place of the scan.
    pub fn feed(&mut self, hdr: &[u8])
        requires
            walk_goes_on(old(self)@.walk),
            hdr@.len() == 512,
        ensures
            final(self)@ == (ScanState { walk: walk_step(old(self)@.walk, hdr@), ..old(self)@ }),
    {
        self.walk.feed(hdr);
    }
}

// ---------------------------------------------------------------- archive

/// An archive: its devices, and where the clusters of each are stored.
pub struct VmaArchive {
    pub devices: Vec<VmaDevice>,
    pub config: Vec<(String, String)>,
    pub ctime: String,
    path: PathBuf,
    cluster_index: Vec<ClusterIndex>,
}

/// An archive: its devices, and where the clusters of each are stored.
pub struct ArchiveView {
    pub devices: Seq<VmaDeviceView>,
    pub config: Seq<(Seq<char>, Seq<char>)>,
    pub ctime: Seq<char>,
    pub path: PathBuf,
    pub index: Seq<Seq<ClusterEntry>>,
}

impl View for VmaArchive {
    type V = ArchiveView;

    closed spec fn view(&self) -> ArchiveView {
        ArchiveView {
            devices: devices_shown(self.devices@),
            config: config_shown(self.config@),
            ctime: self.ctime@,
            path: self.path,
            index: self.cluster_index@.map_values(|i: ClusterIndex| i@),
        }
    }
}

/// The archive `a` is what the scan `s` found in the file at `path`.
pub open spec fn archive_of(a: ArchiveView, path: PathBuf, s: ScanState) -> bool {
    &&& a.devices == s.devices
    &&& a.config == s.config
    &&& a.ctime == s.ctime
    &&& a.path == path
    &&& a.index.len() == s.walk.found.len()
    &&& forall|d: int|
        0 <= d < a.index.len() ==> indexes(#[trigger] a.index[d], s.walk.found[d])
}

/// The clusters of the device with number `dev_id`.
pub open spec fn index_of_device(a: ArchiveView, dev_id: int) -> Seq<ClusterEntry> {
    if 0 <= dev_id < a.index.len() {
        a.index[dev_id]
    } else {
        seq![]
    }
}

/// A reader at the start of device `dev_idx`.
pub open spec fn device_reader(a: ArchiveView, dev_idx: int) -> ReaderState {
    let device = a.devices[dev_idx];
    ReaderState {
        size: device.size,
        index: index_of_device(a, device.dev_id as int),
        pos: 0,
        cache: None,
    }
}

impl VmaArchive {
    /// The archive at `path`, whose extents `scan` has looked through.
    pub fn open(path: PathBuf, scan: ArchiveScan) -> (r: Self)
        ensures
            archive_of(r@, path, scan@),
    {
        let cluster_index = scan.walk.into_index();
        let r = VmaArchive {
            devices: scan.devices,
            config: scan.config,
            ctime: scan.ctime,
            path,
            cluster_index,
        };
        assert forall|d: int| 0 <= d < r@.index.len() implies indexes(
            #[trigger] r@.index[d],
            scan@.walk.found[d],
        ) by {
            assert(indexes(cluster_index@[d]@, scan@.walk.found[d]));
        }
        r
    }

    /// A reader at the start of device `dev_idx`.
    pub fn open_device(&self, dev_idx: usize) -> (r: Result<VmaDeviceReader, VmaError>)
        ensures
            r is Ok <==> dev_idx < self@.devices.len(),
            r matches Err(e) ==> e == VmaError::BadDeviceIndex,
            r matches Ok(reader) ==> reader@ == device_reader(self@, dev_idx as int),
    {
        if dev_idx >= self.devices.len() {
            return Err(VmaError::BadDeviceIndex);
        }
        let device = &self.devices[dev_idx];
        let index = if device.dev_id < self.cluster_index.len() {
            self.cluster_index[device.dev_id].duplicate()
        } else {
            ClusterIndex::new()
        };
        assert(index@ =~= index_of_device(self@, device.dev_id as int));
        Ok(VmaDeviceReader::new(device.size, index))
    }

    /// The devices.
    pub fn device_list(&self) -> (r: &Vec<VmaDevice>)
        ensures
            devices_shown(r@) == self@.devices,
    {
        &self.devices
    }

    /// The names and contents of the configuration files.
    pub fn config_list(&self) -> (r: &Vec<(String, String)>)
        ensures
            config_shown(r@) == self@.config,
    {
        &self.config
    }

    /// When the backup was made.
    pub fn created(&self) -> (r: &str)
        ensures
            r@ == self@.ctime,
    {
        self.ctime.as_str()
    }

    /// Where the archive is.
    pub fn path(&self) -> (r: &PathBuf)
        ensures
            *r == self@.path,
    {
        &self.path
    }
}

/// The index of each device of an archive holds what the extents of its file name of that
/// device, the first slot for a cluster before the later ones.
pub proof fn law_archive_indexes_the_file(
    a: ArchiveView,
    path: PathBuf,
    header: Seq<u8>,
    file: Seq<u8>,
    k: int,
)
    requires
        archive_of(a, path, scan_run(file, scan_start(header, file.len() as int))),
        0 <= k < a.devices.len(),
    ensures
        a.devices == header_devices(header),
        indexes(
            device_reader(a, k).index,
            chain_slots(
                file,
                extent_chain(file, after_header(header.len() as int)),
                a.devices[k].dev_id as int,
            ),
        ),
{
    let start = scan_start(header, file.len() as int);
    let dev = a.devices[k].dev_id as int;
    lemma_max_dev_id_is_largest(a.devices, k);
    crate::extent::law_walk_finds_the_chain(file, start.walk, dev);
    let slots = chain_slots(file, extent_chain(file, start.walk.pos), dev);
    assert(start.walk.found[dev] + slots =~= slots);
    assert(indexes(a.index[dev], scan_run(file, start).walk.found[dev]));
}

/// A device holds, in each cluster, the blocks that the first slot for it stores, zeros in the
/// blocks that it does not store, and zeros in a cluster that no slot names.
pub proof fn law_device_holds_what_extents_store(
    index: Seq<ClusterEntry>,
    slots: Seq<ClusterEntry>,
    file: Seq<u8>,
    cluster: u64,
)
    requires
        indexes(index, slots),
    ensures
        forall|i: int|
            #[trigger] is_first(slots, i) && slots[i].cluster == cluster ==> cluster_image(
                index,
                file,
                cluster,
            ) == scattered(
                slots[i].mask,
                file.subrange(
                    slots[i].offset as int,
                    slots[i].offset + stored_bytes(slots[i].mask),
                ),
            ),
        !names(slots, cluster) ==> cluster_image(index, file, cluster) == zero_cluster(),
{
    assert forall|i: int| #[trigger]
        is_first(slots, i) && slots[i].cluster == cluster implies cluster_image(
        index,
        file,
        cluster,
    ) == scattered(
        slots[i].mask,
        file.subrange(slots[i].offset as int, slots[i].offset + stored_bytes(slots[i].mask)),
    ) by {
        crate::cluster::law_first_entry_wins(index, slots, i);
    }
    if !names(slots, cluster) {
        crate::cluster::law_unnamed_cluster_is_absent(index, slots, cluster);
    }
}

// ---------------------------------------------------------------- what headers mean

/// The first bytes of a file tell what it is: "VMA" and a zero an archive, 28 b5 2f fd and 1f 8b
/// a compressed file, anything else none of these.
pub proof fn law_first_bytes_tell_the_file(magic: Seq<u8>)
    requires
        magic.len() >= 4,
    ensures
        magic[0] == 0x56 && magic[1] == 0x4d && magic[2] == 0x41 && magic[3] == 0
            <==> magic_error(magic) is None,
        magic[0] == 0x28 && magic[1] == 0xb5 && magic[2] == 0x2f && magic[3] == 0xfd
            <==> magic_error(magic) == Some(VmaError::Zstd),
        magic[0] == 0x1f && magic[1] == 0x8b <==> magic_error(magic) == Some(VmaError::Gzip),
        magic_error(magic) matches Some(e) ==> e == VmaError::Zstd || e == VmaError::Gzip || e
            == VmaError::NotVma,
{
    let zstd = seq![0x28u8, 0xb5, 0x2f, 0xfd];
    let gzip = seq![0x1fu8, 0x8b];
    let vma = vma_signature();
    lemma_four_bytes(magic, zstd);
    lemma_four_bytes(magic, vma);
    let start = magic.subrange(0, 2);
    assert(start == gzip <==> magic[0] == 0x1f && magic[1] == 0x8b) by {
        assert(start[0] == magic[0] && start[1] == magic[1]);
        if magic[0] == 0x1f && magic[1] == 0x8b {
            assert(start =~= gzip);
        }
    }
}

proof fn lemma_four_bytes(d: Seq<u8>, sig: Seq<u8>)
    requires
        d.len() >= 4,
        sig.len() == 4,
    ensures
        has_at(d, 0, sig) <==> d[0] == sig[0] && d[1] == sig[1] && d[2] == sig[2] && d[3] == sig[3],
{
    let start = d.subrange(0, 4);
    assert(start[0] == d[0] && start[1] == d[1] && start[2] == d[2] && start[3] == d[3]);
    if d[0] == sig[0] && d[1] == sig[1] && d[2] == sig[2] && d[3] == sig[3] {
        assert(start =~= sig);
    }
}

/// A header is one exactly where it has 60 bytes and starts with "VMA" and a zero.
pub proof fn law_headers_start_with_their_name(d: Seq<u8>)
    ensures
        header_valid(d) <==> d.len() >= 60 && d[0] == 0x56 && d[1] == 0x4d && d[2] == 0x41 && d[3]
            == 0,
{
    if d.len() >= 4 {
        lemma_four_bytes(d, vma_signature());
    }
}

/// Where the blobs of a header start: bytes 48 to 51 say so.
pub open spec fn blobs_from(d: Seq<u8>) -> int {
    big_endian(d.subrange(48, 52))
}

/// Where the blobs of a header end: bytes 52 to 55 say how long they are.
pub open spec fn blobs_to(d: Seq<u8>) -> int {
    big_endian(d.subrange(48, 52)) + big_endian(d.subrange(52, 56))
}

/// The length in the two bytes before a blob.
pub open spec fn length_at(d: Seq<u8>, p: int) -> int {
    little_endian(d.subrange(p, p + 2))
}

/// A blob with its length stands whole at `p`, before the end of the blobs and of the header.
pub open spec fn blob_stands(d: Seq<u8>, p: int) -> bool {
    &&& p + 2 <= blobs_to(d)
    &&& p + 2 <= d.len()
    &&& p + 2 + length_at(d, p) <= blobs_to(d)
    &&& p + 2 + length_at(d, p) <= d.len()
}

/// A map that was filled with the blobs from `p` on, onto `found`: it holds what `found` holds
/// before `p`; the blob at `p`, if one stands there, and behind each blob the next; each with its
/// bytes; and no others.
spec fn is_blob_map(d: Seq<u8>, p: int, found: Map<u32, Seq<u8>>, m: Map<u32, Seq<u8>>) -> bool {
    let start = blobs_from(d);
    &&& blob_stands(d, p) ==> m.contains_key((p - start) as u32)
    &&& forall|k: u32| #[trigger]
        m.contains_key(k) && start + k >= p ==> {
            let q = start + k;
            &&& blob_stands(d, q)
            &&& m[k] == d.subrange(q + 2, q + 2 + length_at(d, q))
            &&& blob_stands(d, q + 2 + length_at(d, q)) ==> m.contains_key(
                (k + 2 + length_at(d, q)) as u32,
            )
            &&& q == p || exists|j: u32| #[trigger]
                m.contains_key(j) && start + j >= p && k == j + 2 + length_at(d, start + j)
        }
    &&& forall|k: u32|
        start + k < p ==> (#[trigger] m.contains_key(k) <==> found.contains_key(k))
}

proof fn lemma_blob_numbers(d: Seq<u8>, p: int)
    requires
        d.len() >= 60,
        0 <= p,
    ensures
        blobs_from(d) == blob_start(d),
        blobs_to(d) == blob_end(d),
        0 <= blob_start(d) <= u32::MAX,
        0 <= blob_end(d) - blob_start(d) <= u32::MAX,
        p + 2 <= d.len() ==> length_at(d, p) == le16(d, p) && 0 <= le16(d, p) <= 0xffff,
{
    crate::bytes::law_numbers_are_their_bytes(d, 48);
    crate::bytes::law_numbers_are_their_bytes(d, 52);
    if p + 2 <= d.len() {
        crate::bytes::law_numbers_are_their_bytes(d, p);
    }
}

proof fn lemma_blobs_make_a_map(d: Seq<u8>, p: int, found: Map<u32, Seq<u8>>)
    requires
        d.len() >= 60,
        blob_start(d) < p,
        p <= blob_end(d) || p == blob_start(d) + 1,
        blob_lengths_stand(d, p),
        forall|k: u32| #[trigger] found.contains_key(k) ==> blob_start(d) + k < p,
    ensures
        is_blob_map(d, p, found, blobs_onto(d, p, found)),
        forall|k: u32|
            #[trigger] found.contains_key(k) ==> blobs_onto(d, p, found)[k] == found[k],
    decreases d.len() - p,
{
    let start = blob_start(d);
    let m = blobs_onto(d, p, found);
    lemma_blob_numbers(d, p);
    if blob_may_start(d, p) && blob_is_whole(d, p) {
        let n = le16(d, p);
        let next = p + 2 + n;
        let key = blob_key(d, p);
        let more = found.insert(key, blob_contents(d, p));
        lemma_blob_numbers(d, next);
        assert(key == p - start);
        assert forall|k: u32| #[trigger] more.contains_key(k) implies start + k < next by {}
        lemma_blobs_make_a_map(d, next, more);
        assert(more.contains_key(key));
        assert(m.contains_key(key));
        assert(m[key] == more[key]);
        assert forall|k: u32| #[trigger] m.contains_key(k) && start + k >= p implies {
            let q = start + k;
            &&& blob_stands(d, q)
            &&& m[k] == d.subrange(q + 2, q + 2 + length_at(d, q))
            &&& blob_stands(d, q + 2 + length_at(d, q)) ==> m.contains_key(
                (k + 2 + length_at(d, q)) as u32,
            )
            &&& q == p || exists|j: u32| #[trigger]
                m.contains_key(j) && start + j >= p && k == j + 2 + length_at(d, start + j)
        } by {
            let q = start + k;
            if q < next {
                assert(more.contains_key(k));
                assert(k == key);
            } else if q == next {
                assert(k == key + 2 + length_at(d, start + key));
            } else {
                let j = choose|j: u32| #[trigger]
                    m.contains_key(j) && start + j >= next && k == j + 2 + length_at(d, start + j);
                assert(m.contains_key(j) && start + j >= p);
            }
        }
        assert forall|k: u32| #[trigger] found.contains_key(k) implies m[k] == found[k] by {
            assert(more.contains_key(k));
        }
    }
}

/// The blobs of a header stand one behind the other, each with its length in two bytes before
/// it, the lower one first. The first stands one byte behind their start. Each is found, by how
/// far its length stands behind the start, up to the first that does not stand whole; and
/// nothing else is found.
pub proof fn law_blobs_follow_each_other(d: Seq<u8>)
    requires
        header_valid(d),
        header_fits(d),
    ensures
        ({
            let start = blobs_from(d);
            &&& blob_stands(d, start + 1) ==> blobs(d).contains_key(1)
            &&& forall|k: u32| #[trigger]
                blobs(d).contains_key(k) ==> {
                    let q = start + k;
                    &&& blob_stands(d, q)
                    &&& blobs(d)[k] == d.subrange(q + 2, q + 2 + length_at(d, q))
                    &&& blob_stands(d, q + 2 + length_at(d, q)) ==> blobs(d).contains_key(
                        (k + 2 + length_at(d, q)) as u32,
                    )
                    &&& k == 1 || exists|j: u32| #[trigger]
                        blobs(d).contains_key(j) && k == j + 2 + length_at(d, start + j)
                }
        }),
{
    let start = blob_start(d);
    lemma_blob_numbers(d, start + 1);
    lemma_blobs_make_a_map(d, start + 1, Map::empty());
    let m = blobs(d);
    assert(is_blob_map(d, start + 1, Map::empty(), m));
    assert forall|k: u32| #[trigger] m.contains_key(k) implies {
        let q = start + k;
        &&& blob_stands(d, q)
        &&& m[k] == d.subrange(q + 2, q + 2 + length_at(d, q))
        &&& blob_stands(d, q + 2 + length_at(d, q)) ==> m.contains_key(
            (k + 2 + length_at(d, q)) as u32,
        )
        &&& k == 1 || exists|j: u32| #[trigger]
            m.contains_key(j) && k == j + 2 + length_at(d, start + j)
    } by {
        if start + k < start + 1 {
            assert(!Map::<u32, Seq<u8>>::empty().contains_key(k));
        }
    }
}

// ---------------------------------------------------------------- what slots mean

/// What the text of a blob gives as a name: the text without the zeros at its end, or, without
/// such a blob, something else.
pub open spec fn is_name_of(
    name: Seq<char>,
    table: Map<u32, Seq<char>>,
    key: int,
    otherwise: Seq<char>,
) -> bool {
    if 0 <= key <= u32::MAX && table.contains_key(key as u32) {
        let text = table[key as u32];
        &&& name.len() <= text.len()
        &&& name == text.take(name.len() as int)
        &&& forall|i: int| name.len() <= i < text.len() ==> #[trigger] text[i] == '\0'
        &&& name.len() > 0 ==> name.last() != '\0'
    } else {
        name == otherwise
    }
}

proof fn lemma_name_is_of(table: Map<u32, Seq<char>>, key: u32, otherwise: Seq<char>)
    ensures
        is_name_of(name_from(text_with(table, key), otherwise), table, key as int, otherwise),
{
    if table.contains_key(key) {
        crate::text::law_trimmed_end_is_a_run(table[key], '\0');
    }
}

/// Slot `i` holds a device: it stands whole in the header, the eight bytes of its size are not
/// all zero, and neither are the four that name a blob.
pub open spec fn slot_has_device(d: Seq<u8>, i: int) -> bool {
    let o = 4096 + 32 * i;
    &&& o + 32 <= d.len()
    &&& big_endian(d.subrange(o + 8, o + 16)) != 0
    &&& big_endian(d.subrange(o, o + 4)) != 0
}

/// The device is the one of slot `i`: its size is the number in bytes 8 to 15 of the slot, and
/// its name the blob with the number in bytes 0 to 3; "device_" and a number without such a blob.
pub open spec fn is_device_of_slot(
    v: VmaDeviceView,
    d: Seq<u8>,
    table: Map<u32, Seq<char>>,
    i: int,
) -> bool {
    let o = 4096 + 32 * i;
    &&& v.dev_id == i
    &&& v.size == big_endian(d.subrange(o + 8, o + 16))
    &&& is_name_of(
        v.name,
        table,
        big_endian(d.subrange(o, o + 4)),
        "device_"@ + decimal((i + 1) as nat),
    )
}

proof fn lemma_device_slot(d: Seq<u8>, table: Map<u32, Seq<char>>, i: int)
    requires
        0 <= i < 255,
    ensures
        device_used(d, i) == slot_has_device(d, i),
        slot_has_device(d, i) ==> is_device_of_slot(device_in_slot(d, table, i), d, table, i),
{
    let o = 4096 + 32 * i;
    if o + 32 <= d.len() {
        crate::bytes::law_numbers_are_their_bytes(d, o);
        crate::bytes::law_numbers_are_their_bytes(d, o + 8);
        lemma_name_is_of(table, device_name_key(d, i), unnamed_device((i + 1) as nat));
    }
}

proof fn lemma_devices_are_those_of_slots(d: Seq<u8>, table: Map<u32, Seq<char>>, n: int)
    requires
        0 <= n <= 255,
    ensures
        forall|k: int|
            0 <= k < device_slots(d, table, n).len() ==> {
                let v = #[trigger] device_slots(d, table, n)[k];
                &&& v.dev_id < n
                &&& slot_has_device(d, v.dev_id as int)
                &&& is_device_of_slot(v, d, table, v.dev_id as int)
            },
        forall|i: int|
            0 <= i < n && #[trigger] slot_has_device(d, i) ==> exists|k: int|
                0 <= k < device_slots(d, table, n).len() && (#[trigger] device_slots(
                    d,
                    table,
                    n,
                )[k]).dev_id == i,
    decreases n,
{
    if n > 0 {
        lemma_devices_are_those_of_slots(d, table, n - 1);
        lemma_device_slot(d, table, n - 1);
        let before = device_slots(d, table, n - 1);
        let now = device_slots(d, table, n);
        assert forall|k: int| 0 <= k < now.len() implies {
            let v = #[trigger] now[k];
            &&& v.dev_id < n
            &&& slot_has_device(d, v.dev_id as int)
            &&& is_device_of_slot(v, d, table, v.dev_id as int)
        } by {
            if k < before.len() {
                assert(now[k] == before[k]);
            }
        }
        assert forall|i: int| 0 <= i < n && #[trigger] slot_has_device(d, i) implies exists|k: int|
            0 <= k < now.len() && (#[trigger] now[k]).dev_id == i by {
            if i < n - 1 {
                let k = choose|k: int| 0 <= k < before.len() && (#[trigger] before[k]).dev_id == i;
                assert(now[k].dev_id == i);
            } else {
                assert(now[now.len() - 1].dev_id == i);
            }
        }
    }
}

/// The devices of a header are those of its 255 slots, in order: each slot that holds one gives
/// one device, with the size that its eight bytes say and the name that its blob says, and
/// nothing else gives one.
pub proof fn law_devices_are_those_of_slots(d: Seq<u8>, table: Map<u32, Seq<char>>)
    ensures
        header_devices(d) == device_slots(d, blob_texts(blobs(d)), 255),
        ({
            let list = device_slots(d, table, 255);
            &&& forall|k: int|
                0 <= k < list.len() ==> {
                    let v = #[trigger] list[k];
                    &&& v.dev_id < 255
                    &&& slot_has_device(d, v.dev_id as int)
                    &&& is_device_of_slot(v, d, table, v.dev_id as int)
                }
            &&& forall|i: int|
                0 <= i < 255 && #[trigger] slot_has_device(d, i) ==> exists|k: int|
                    0 <= k < list.len() && (#[trigger] list[k]).dev_id == i
            &&& forall|j: int, k: int|
                0 <= j < k < list.len() ==> (#[trigger] list[j]).dev_id < (
                #[trigger] list[k]).dev_id
        }),
{
    lemma_devices_are_those_of_slots(d, table, 255);
    law_device_numbers_rise(d, table, 255);
}

/// A size that is written into a slot with a name, in eight bytes, the most significant first,
/// is the size of the device that the header lists for it, whatever the size is.
pub proof fn law_written_size_is_listed(d: Seq<u8>, i: int, size: u64)
    requires
        0 <= i < 255,
        4096 + 32 * i + 32 <= d.len(),
        size > 0,
        d.subrange(4096 + 32 * i + 8, 4096 + 32 * i + 16) == big_endian_bytes(size as nat, 8),
        big_endian(d.subrange(4096 + 32 * i, 4096 + 32 * i + 4)) != 0,
    ensures
        exists|k: int|
            0 <= k < header_devices(d).len() && (#[trigger] header_devices(d)[k]).dev_id == i
                && header_devices(d)[k].size == size,
{
    assert(vstd::arithmetic::power::pow(256, 8) == 0x1_0000_0000_0000_0000) by {
        reveal_with_fuel(vstd::arithmetic::power::pow, 9);
    }
    crate::bytes::law_written_number_is_read_back(size as nat, 8);
    law_devices_are_those_of_slots(d, blob_texts(blobs(d)));
    assert(slot_has_device(d, i));
    let list = header_devices(d);
    let k = choose|k: int| 0 <= k < list.len() && (#[trigger] list[k]).dev_id == i;
    assert(is_device_of_slot(list[k], d, blob_texts(blobs(d)), i));
}

/// Slot `i` names a configuration file: its four bytes from 3068 on, which name the blob with
/// the contents, stand in the header, and neither these nor those from 2044 on, which name the
/// blob with the name, are all zero.
pub open spec fn slot_has_config(d: Seq<u8>, i: int) -> bool {
    &&& 3072 + 4 * i <= d.len()
    &&& big_endian(d.subrange(2044 + 4 * i, 2048 + 4 * i)) != 0
    &&& big_endian(d.subrange(3068 + 4 * i, 3072 + 4 * i)) != 0
}

/// The name and the contents are those that the blobs of slot `i` have; nothing without a blob.
pub open spec fn is_config_of_slot(
    c: (Seq<char>, Seq<char>),
    d: Seq<u8>,
    table: Map<u32, Seq<char>>,
    i: int,
) -> bool {
    let key = big_endian(d.subrange(3068 + 4 * i, 3072 + 4 * i));
    &&& is_name_of(c.0, table, big_endian(d.subrange(2044 + 4 * i, 2048 + 4 * i)), seq![])
    &&& table.contains_key(key as u32) ==> c.1 == table[key as u32]
    &&& !table.contains_key(key as u32) ==> c.1.len() == 0
}

/// The slots with the numbers `at` are those that name a configuration file, in order, and
/// `list` holds what they name.
pub open spec fn configs_of_slots(
    list: Seq<(Seq<char>, Seq<char>)>,
    at: Seq<int>,
    d: Seq<u8>,
    table: Map<u32, Seq<char>>,
    n: int,
) -> bool {
    &&& list.len() == at.len()
    &&& forall|k: int|
        0 <= k < at.len() ==> 0 <= #[trigger] at[k] < n && slot_has_config(d, at[k])
            && is_config_of_slot(list[k], d, table, at[k])
    &&& forall|j: int, k: int| 0 <= j < k < at.len() ==> #[trigger] at[j] < #[trigger] at[k]
    &&& forall|i: int| 0 <= i < n && #[trigger] slot_has_config(d, i) ==> at.contains(i)
}

proof fn lemma_configs_are_those_of_slots(d: Seq<u8>, table: Map<u32, Seq<char>>, n: int) -> (at:
    Seq<int>)
    requires
        0 <= n <= 256,
    ensures
        configs_of_slots(config_slots(d, table, n), at, d, table, n),
    decreases n,
{
    if n == 0 {
        seq![]
    } else {
        let i = n - 1;
        let front = lemma_configs_are_those_of_slots(d, table, i);
        let before = config_slots(d, table, i);
        let now = config_slots(d, table, n);
        if 3072 + 4 * i <= d.len() {
            crate::bytes::law_numbers_are_their_bytes(d, 2044 + 4 * i);
            crate::bytes::law_numbers_are_their_bytes(d, 3068 + 4 * i);
            lemma_name_is_of(table, config_name_key(d, i), seq![]);
        }
        assert(config_used(d, i) == slot_has_config(d, i));
        let at = if slot_has_config(d, i) {
            front.push(i)
        } else {
            front
        };
        assert forall|k: int| 0 <= k < at.len() implies 0 <= #[trigger] at[k] < n
            && slot_has_config(d, at[k]) && is_config_of_slot(now[k], d, table, at[k]) by {
            if k < front.len() {
                assert(at[k] == front[k]);
                assert(now[k] == before[k]);
            }
        }
        assert forall|j: int, k: int| 0 <= j < k < at.len() implies #[trigger] at[j]
            < #[trigger] at[k] by {
            assert(at[j] == front[j]);
            if k < front.len() {
                assert(at[k] == front[k]);
            }
        }
        assert forall|j: int| 0 <= j < n && #[trigger] slot_has_config(d, j) implies at.contains(
            j,
        ) by {
            if j < i {
                let k = choose|k: int| 0 <= k < front.len() && front[k] == j;
                assert(at[k] == j);
            } else {
                assert(at[at.len() - 1] == j);
            }
        }
        at
    }
}

/// The configuration files of a header are those that its 256 slots name, in order, each with
/// the name and the contents of its blobs.
pub proof fn law_configs_are_those_of_slots(d: Seq<u8>, table: Map<u32, Seq<char>>)
    ensures
        header_config(d) == config_slots(d, blob_texts(blobs(d)), 256),
        exists|at: Seq<int>|
            #[trigger] configs_of_slots(config_slots(d, table, 256), at, d, table, 256),
{
    let at = lemma_configs_are_those_of_slots(d, table, 256);
    assert(configs_of_slots(config_slots(d, table, 256), at, d, table, 256));
}

/// The time of a backup is written as the date that bytes 24 to 31 of the header say, in seconds
/// as a signed number; where there is no such date, as the number itself.
pub proof fn law_time_is_that_of_the_header(d: Seq<u8>, file_len: int)
    requires
        header_valid(d),
    ensures
        ({
            let n = big_endian(d.subrange(24, 32));
            let secs = if n < 0x8000_0000_0000_0000 { n } else { n - 0x1_0000_0000_0000_0000 };
            let text = scan_start(d, file_len).ctime;
            &&& has_utc_text(secs) ==> text == utc_text(secs as i64, "%Y-%m-%d %H:%M:%S"@)
            &&& !has_utc_text(secs) ==> text == decimal_signed(secs)
        }),
{
    crate::bytes::law_numbers_are_their_bytes(d, 24);
}

/// A device is read with its own size and from the start, through the index of its number.
pub proof fn law_device_is_read_through_its_index(a: ArchiveView, k: int)
    requires
        0 <= k < a.devices.len(),
    ensures
        ({
            let r = device_reader(a, k);
            let id = a.devices[k].dev_id as int;
            &&& r.size == a.devices[k].size
            &&& r.pos == 0
            &&& r.cache is None
            &&& id < a.index.len() ==> r.index == a.index[id]
            &&& id >= a.index.len() ==> r.index.len() == 0
        }),
{
}

/// The texts of the blobs are those of all blobs, under the same numbers.
pub proof fn law_every_blob_has_its_text(found: Map<u32, Seq<u8>>, key: u32)
    ensures
        blob_texts(found).contains_key(key) <==> found.contains_key(key),
        found.contains_key(key) ==> blob_texts(found)[key] == utf8_lossy(found[key]),
{
}

/// A header whose blobs end within it can be read, and so can bytes that are no header.
pub proof fn law_whole_headers_can_be_read(d: Seq<u8>)
    ensures
        d.len() < 60 ==> header_fits(d),
        d.len() >= 60 && blobs_to(d) <= d.len() ==> header_fits(d),
        !header_valid(d) ==> header_fits(d),
{
    if d.len() >= 60 && blobs_to(d) <= d.len() {
        lemma_blob_numbers(d, 0);
        lemma_lengths_stand(d, blob_start(d) + 1);
    }
}

proof fn lemma_lengths_stand(d: Seq<u8>, p: int)
    requires
        d.len() >= 60,
        0 <= p,
        blob_end(d) <= d.len(),
    ensures
        blob_lengths_stand(d, p),
    decreases d.len() - p,
{
    if blob_may_start(d, p) && blob_is_whole(d, p) {
        lemma_lengths_stand(d, p + 2 + le16(d, p));
    }
}

/// The devices and the configuration files of a list are shown one by one, each with all that
/// it says.
pub proof fn law_lists_show_what_they_hold(
    v: Seq<VmaDevice>,
    c: Seq<(String, String)>,
    i: int,
)
    ensures
        devices_shown(v).len() == v.len(),
        0 <= i < v.len() ==> devices_shown(v)[i].name == v[i].name@ && devices_shown(v)[i].size
            == v[i].size && devices_shown(v)[i].dev_id == v[i].dev_id,
        config_shown(c).len() == c.len(),
        0 <= i < c.len() ==> config_shown(c)[i].0 == c[i].0@ && config_shown(c)[i].1 == c[i].1@,
{
}

/// What is said of a file that cannot be opened names the file and, where it is compressed, the
/// command that decompresses it.
pub proof fn law_messages_tell_the_error(path: Seq<char>)
    ensures
        vma_message(VmaError::Zstd, path) == path
            + " is zstd-compressed.\nDecompress first:  zstd -d "@ + path,
        vma_message(VmaError::Gzip, path) == path
            + " is gzip-compressed.\nDecompress first:  gunzip "@ + path,
        vma_message(VmaError::NotVma, path) == path + " is not a valid VMA file"@,
        vma_message(VmaError::InvalidHeader, path) == "Invalid VMA header"@,
        vma_message(VmaError::BadDeviceIndex, path) == "bad device index"@,
{
}

/// The places `at` of lengths follow each other, from `p` on, each behind the blob of the one
/// before it; of the last only the first byte stands in the header, and the blobs are said to go
/// on behind it.
pub open spec fn leads_to_a_cut(d: Seq<u8>, p: int, at: Seq<int>) -> bool {
    &&& at.len() > 0
    &&& at[0] == p
    &&& forall|k: int|
        0 <= k < at.len() - 1 ==> blob_stands(d, #[trigger] at[k]) && blob_leads_to(
            d,
            at[k],
            at[k + 1],
        )
    &&& at.last() + 2 <= blobs_to(d)
    &&& at.last() + 1 == d.len()
}

/// The blob at `p` ends at `q`.
pub open spec fn blob_leads_to(d: Seq<u8>, p: int, q: int) -> bool {
    q == p + 2 + length_at(d, p)
}

proof fn lemma_cut_is_found(d: Seq<u8>, p: int) -> (at: Seq<int>)
    requires
        d.len() >= 60,
        0 <= p,
        !blob_lengths_stand(d, p),
    ensures
        leads_to_a_cut(d, p, at),
    decreases d.len() - p,
{
    lemma_blob_numbers(d, p);
    if p + 1 >= d.len() {
        seq![p]
    } else {
        let next = p + 2 + le16(d, p);
        let rest = lemma_cut_is_found(d, next);
        let at = seq![p] + rest;
        assert forall|k: int| 0 <= k < at.len() - 1 implies blob_stands(d, #[trigger] at[k])
            && blob_leads_to(d, at[k], at[k + 1]) by {
            if k > 0 {
                assert(at[k] == rest[k - 1]);
                assert(at[k + 1] == rest[k - 1 + 1]);
            }
        }
        assert(at.last() == rest.last());
        at
    }
}

proof fn lemma_cut_is_noticed(d: Seq<u8>, p: int, at: Seq<int>)
    requires
        d.len() >= 60,
        0 <= p,
        leads_to_a_cut(d, p, at),
    ensures
        !blob_lengths_stand(d, p),
    decreases at.len(),
{
    lemma_blob_numbers(d, p);
    if at.len() > 1 {
        let rest = at.drop_first();
        assert(blob_stands(d, at[0]) && blob_leads_to(d, at[0], at[1]));
        assert forall|k: int| 0 <= k < rest.len() - 1 implies blob_stands(d, #[trigger] rest[k])
            && blob_leads_to(d, rest[k], rest[k + 1]) by {
            assert(rest[k] == at[k + 1]);
            assert(rest[k + 1] == at[k + 1 + 1]);
        }
        lemma_cut_is_noticed(d, at[1], rest);
    }
}

/// A header cannot be read exactly where it ends within the length of a blob to which the blobs
/// before it lead.
pub proof fn law_headers_can_be_read_unless_cut(d: Seq<u8>)
    requires
        header_valid(d),
    ensures
        !header_fits(d) <==> exists|at: Seq<int>|
            #[trigger] leads_to_a_cut(d, blobs_from(d) + 1, at),
{
    lemma_blob_numbers(d, 0);
    let p = blob_start(d) + 1;
    if !header_fits(d) {
        let at = lemma_cut_is_found(d, p);
        assert(leads_to_a_cut(d, blobs_from(d) + 1, at));
    }
    if exists|at: Seq<int>| #[trigger] leads_to_a_cut(d, blobs_from(d) + 1, at) {
        let at = choose|at: Seq<int>| #[trigger] leads_to_a_cut(d, blobs_from(d) + 1, at);
        lemma_cut_is_noticed(d, p, at);
    }
}

/// An archive has the devices, the configuration files and the time that its header says, and
/// the path under which it was opened, whatever its extents hold.
pub proof fn law_archive_says_what_its_header_says(
    a: ArchiveView,
    path: PathBuf,
    header: Seq<u8>,
    file: Seq<u8>,
)
    requires
        archive_of(a, path, scan_run(file, scan_start(header, file.len() as int))),
    ensures
        a.devices == header_devices(header),
        a.config == header_config(header),
        a.ctime == scan_start(header, file.len() as int).ctime,
        a.path == path,
        a.index.len() == scan_start(header, file.len() as int).walk.found.len(),
{
    let start = scan_start(header, file.len() as int);
    lemma_walk_keeps_its_devices(file, start.walk);
}

proof fn lemma_walk_keeps_its_devices(file: Seq<u8>, w: WalkState)
    ensures
        walk_run(file, w).found.len() == w.found.len(),
    decreases crate::extent::room(w.file_len, w.pos),
{
    if walk_goes_on(w) {
        lemma_walk_keeps_its_devices(
            file,
            walk_step(w, crate::extent::header_at(file, w.pos)),
        );
    }
}

/// The texts of a table stand under their numbers, and a text is looked up by its number.
pub proof fn law_texts_are_looked_up(m: Map<u32, String>, key: u32)
    ensures
        text_table(m).contains_key(key) <==> m.contains_key(key),
        m.contains_key(key) ==> text_table(m)[key] == m[key]@ && text_with(text_table(m), key)
            == Some(m[key]@),
        !m.contains_key(key) ==> text_with(text_table(m), key) is None,
{
}

/// A name is the text without zeros at its end, or the other one; a time the date, or the number
/// of seconds.
pub proof fn law_names_and_times_have_a_substitute(
    text: Option<String>,
    otherwise: Seq<char>,
    secs: int,
)
    ensures
        text matches Some(t) ==> shown_option(text) == Some(t@) && name_from(
            shown_option(text),
            otherwise,
        ) == trim_end(t@, '\0') && time_text(secs, shown_option(text)) == t@,
        text is None ==> name_from(shown_option(text), otherwise) == otherwise && time_text(
            secs,
            shown_option(text),
        ) == decimal_signed(secs),
{
}

/// A block that an extent of the archive stores for a device is read back: where slot `t.1` of
/// extent `t.0` names a cluster of the device before any other slot does, and its mask has a one
/// for a block, the bytes of that block on the device are those behind the header of the extent,
/// after the blocks of the slots before it and the blocks before it in its own.
pub proof fn law_stored_block_is_read_back(
    index: Seq<ClusterEntry>,
    file: Seq<u8>,
    pos: int,
    dev: int,
    size: u64,
    t: (int, int),
    b: nat,
    j: int,
)
    requires
        0 <= pos,
        file.len() + 59 * 65536 <= u64::MAX,
        indexes(index, chain_slots(file, extent_chain(file, pos), dev)),
        crate::reader::blocks_within(index, file),
        chain_slot_is_for(file, extent_chain(file, pos), dev, t),
        forall|u: (int, int)| #[trigger]
            chain_slot_is_for(file, extent_chain(file, pos), dev, u) && slot_before(u, t)
                ==> slot_number(file, extent_chain(file, pos), u, 4, 8) != slot_number(
                file,
                extent_chain(file, pos),
                t,
                4,
                8,
            ),
        b < 16,
        0 <= j < 4096,
        (slot_number(file, extent_chain(file, pos), t, 0, 2) as nat
            / vstd::arithmetic::power2::pow2(b)) % 2 == 1,
        65536 * slot_number(file, extent_chain(file, pos), t, 4, 8) + 4096 * b + j < size,
    ensures
        ({
            let at = extent_chain(file, pos)[t.0];
            let h = file.subrange(at, at + 512);
            let mask = slot_number(file, extent_chain(file, pos), t, 0, 2) as nat;
            let cluster = slot_number(file, extent_chain(file, pos), t, 4, 8);
            crate::reader::device_image(index, file, size)[65536 * cluster + 4096 * b + j]
                == file[at + 512 + 4096 * (ones_in_masks(h, t.1) + ones_below(mask, b)) + j]
        }),
{
    let chain = extent_chain(file, pos);
    let cluster = slot_number(file, chain, t, 4, 8);
    let n = lemma_first_slot_is_indexed(index, file, pos, dev, t);
    lemma_byte_of_entry(index, file, size, n, cluster, b, j);
}

proof fn lemma_byte_of_entry(
    index: Seq<ClusterEntry>,
    file: Seq<u8>,
    size: u64,
    n: int,
    cluster: int,
    b: nat,
    j: int,
)
    requires
        crate::cluster::rising(index),
        crate::reader::blocks_within(index, file),
        0 <= n < index.len(),
        index[n].cluster == cluster,
        b < 16,
        0 <= j < 4096,
        (index[n].mask as nat / vstd::arithmetic::power2::pow2(b)) % 2 == 1,
        65536 * cluster + 4096 * b + j < size,
    ensures
        crate::reader::device_image(index, file, size)[65536 * cluster + 4096 * b + j]
            == file[index[n].offset + 4096 * ones_below(index[n].mask as nat, b) + j],
{
    let p = 65536 * cluster + 4096 * b + j;
    crate::reader::law_device_bytes_come_from_blocks(index, file, size, p);
    assert(p / 65536 == cluster);
    assert(p % 65536 / 4096 == b);
    assert(p % 4096 == j);
    assert(index[n].cluster == p / 65536);
}

proof fn lemma_first_slot_is_indexed(
    index: Seq<ClusterEntry>,
    file: Seq<u8>,
    pos: int,
    dev: int,
    t: (int, int),
) -> (n: int)
    requires
        0 <= pos,
        file.len() + 59 * 65536 <= u64::MAX,
        indexes(index, chain_slots(file, extent_chain(file, pos), dev)),
        chain_slot_is_for(file, extent_chain(file, pos), dev, t),
        forall|u: (int, int)| #[trigger]
            chain_slot_is_for(file, extent_chain(file, pos), dev, u) && slot_before(u, t)
                ==> slot_number(file, extent_chain(file, pos), u, 4, 8) != slot_number(
                file,
                extent_chain(file, pos),
                t,
                4,
                8,
            ),
    ensures
        0 <= n < index.len(),
        index[n].cluster == slot_number(file, extent_chain(file, pos), t, 4, 8),
        index[n].mask == slot_number(file, extent_chain(file, pos), t, 0, 2),
        index[n].offset == extent_chain(file, pos)[t.0] + 512 + 4096 * ones_in_masks(
            crate::extent::header_at(file, extent_chain(file, pos)[t.0]),
            t.1,
        ),
{
    let chain = extent_chain(file, pos);
    let slots = chain_slots(file, chain, dev);
    crate::extent::law_chain_holds_all_slots(file, pos, dev);
    let tags = choose|tags: Seq<(int, int)>|
        #[trigger] entries_of_chain(slots, tags, file, chain, dev);
    let k = choose|k: int| 0 <= k < tags.len() && tags[k] == t;
    let h = crate::extent::header_at(file, chain[t.0]);
    assert(says_slot(slots[k], h, chain[t.0] + 512, t.1));
    let c = slots[k].cluster;
    assert(c == slot_number(file, chain, t, 4, 8));
    assert forall|i: int| 0 <= i < k implies (#[trigger] slots[i]).cluster != c by {
        assert(slot_before(tags[i], tags[k]));
        assert(chain_slot_is_for(file, chain, dev, tags[i]));
        let g = crate::extent::header_at(file, chain[tags[i].0]);
        assert(says_slot(slots[i], g, chain[tags[i].0] + 512, tags[i].1));
        assert(slots[i].cluster == slot_number(file, chain, tags[i], 4, 8));
    }
    crate::cluster::law_index_keeps_first_entries(index, slots, c);
    assert(index.contains(slots[k]));
    choose|n: int| 0 <= n < index.len() && index[n] == slots[k]
}

/// The number in bytes `from` to `to` of slot `t.1` of extent `t.0`.
pub open spec fn slot_number(
    file: Seq<u8>,
    chain: Seq<int>,
    t: (int, int),
    from: int,
    to: int,
) -> int {
    let at = chain[t.0];
    big_endian(file.subrange(at, at + 512).subrange(40 + 8 * t.1 + from, 40 + 8 * t.1 + to))
}

} // verus!
