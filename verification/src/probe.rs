//! Which file systems a device holds: what its first bytes tell, and what has to be read.
use vstd::prelude::*;
use crate::partition::{
    detect_fs_at, detected_fs, shown, Partition, PartitionView,
};

verus! {

/// How much of a device is read for its partition table.
pub const TABLE_READ: u64 = 2_097_152;

/// How much of a device of `size` bytes is read for its partition table.
pub open spec fn table_read_len(size: int) -> int {
    if size < 2_097_152 {
        size
    } else {
        2_097_152
    }
}

/// How much of a device of `size` bytes is read for its partition table.
pub fn read_len_for(size: u64) -> (r: usize)
    ensures
        r == table_read_len(size as int),
{
    if size < TABLE_READ {
        size as usize
    } else {
        TABLE_READ as usize
    }
}

// ---------------------------------------------------------------- signatures

/// The file system whose signature stands in `data` at `offset`; no text where none does.
pub open spec fn fs_at(data: Seq<u8>, offset: int) -> Seq<char> {
    if offset + 4 <= data.len() {
        detected_fs(data.subrange(offset, data.len() as int))
    } else {
        seq![]
    }
}

fn find_fs_at(data: &[u8], offset: u64) -> (r: String)
    requires
        offset + 4 <= u64::MAX,
    ensures
        r@ == fs_at(data@, offset as int),
{
    let len = data.len();
    if offset + 4 <= len as u64 {
        detect_fs_at(vstd::slice::slice_subrange(data, offset as usize, len))
    } else {
        String::new()
    }
}

/// The file system on the device as a whole: the first whose signature stands at one of the
/// usual places.
pub open spec fn raw_fs(data: Seq<u8>) -> Seq<char> {
    if fs_at(data, 0).len() > 0 {
        fs_at(data, 0)
    } else if fs_at(data, 1024).len() > 0 {
        fs_at(data, 1024)
    } else {
        fs_at(data, 65536)
    }
}

/// The file system on the device as a whole, from its first bytes.
pub fn detect_raw_fs(data: &[u8]) -> (r: String)
    ensures
        r@ == raw_fs(data@),
{
    let fs = find_fs_at(data, 0);
    if !fs.as_str().is_empty() {
        return fs;
    }
    let fs = find_fs_at(data, 1024);
    if !fs.as_str().is_empty() {
        return fs;
    }
    find_fs_at(data, 65536)
}

// ---------------------------------------------------------------- probes

/// What has to be read of a device to tell the file system of a partition, where `have` bytes
/// of the device are at hand: a place and a length.
pub open spec fn probe_range(p: PartitionView, have: int) -> Option<(u64, usize)> {
    if p.byte_offset < have || p.byte_length == 0 {
        None
    } else if p.byte_length < 2048 {
        Some((p.byte_offset, p.byte_length as usize))
    } else {
        Some((p.byte_offset, 2048))
    }
}

/// A partition with its file system: as its first bytes tell, be they at hand in `data` or
/// read as a probe; and as it was where they tell nothing.
pub open spec fn probed(p: PartitionView, data: Seq<u8>, probe: Option<Seq<u8>>) -> PartitionView {
    let near = fs_at(data, p.byte_offset as int);
    if near.len() > 0 {
        PartitionView { fs_type: near, ..p }
    } else if probe_range(p, data.len() as int) is Some && probe is Some && detected_fs(
        probe->0,
    ).len() > 0 {
        PartitionView { fs_type: detected_fs(probe->0), ..p }
    } else {
        p
    }
}

/// What was read as a probe.
pub open spec fn probe_bytes(probe: Option<Vec<u8>>) -> Option<Seq<u8>> {
    match probe {
        Some(b) => Some(b@),
        None => None,
    }
}

/// The partitions with their file systems.
pub open spec fn all_probed(
    table: Seq<PartitionView>,
    data: Seq<u8>,
    probes: Seq<Option<Vec<u8>>>,
) -> Seq<PartitionView> {
    Seq::new(table.len(), |i: int| probed(table[i], data, probe_bytes(probes[i])))
}

/// What has to be read for each partition.
pub fn plan_probes(table: &Vec<Partition>, have: usize) -> (r: Vec<Option<(u64, usize)>>)
    ensures
        r@.len() == table@.len(),
        forall|i: int|
            0 <= i < table@.len() ==> #[trigger] r@[i] == probe_range(table@[i]@, have as int),
{
    let mut plan: Vec<Option<(u64, usize)>> = Vec::new();
    let mut i: usize = 0;
    while i < table.len()
        invariant
            i <= table.len(),
            plan.len() == i,
            forall|k: int|
                0 <= k < i ==> #[trigger] plan@[k] == probe_range(table@[k]@, have as int),
        decreases table.len() - i,
    {
        let p = &table[i];
        plan.push(
            if p.byte_offset < have as u64 || p.byte_length == 0 {
                None
            } else if p.byte_length < 2048 {
                Some((p.byte_offset, p.byte_length as usize))
            } else {
                Some((p.byte_offset, 2048))
            },
        );
        i = i + 1;
    }
    plan
}

/// Every partition can be looked at: its place is no larger than a device can be.
pub open spec fn places_fit(table: Seq<PartitionView>) -> bool {
    forall|i: int| 0 <= i < table.len() ==> (#[trigger] table[i]).byte_offset + 4 <= u64::MAX
}

/// Finds the file system of each partition, from the first bytes of the device and the probes.
pub fn probe_partitions(table: Vec<Partition>, data: &[u8], probes: &Vec<Option<Vec<u8>>>) -> (r:
    Vec<Partition>)
    requires
        probes@.len() == table@.len(),
        places_fit(shown(table@)),
    ensures
        shown(r@) == all_probed(shown(table@), data@, probes@),
{
    let ghost all = table@;
    let have = data.len();
    let mut out: Vec<Partition> = Vec::new();
    for p in it: table
        invariant
            it.seq() == all,
            have == data@.len(),
            probes@.len() == all.len(),
            places_fit(shown(all)),
            out.len() == it.index(),
            forall|k: int|
                0 <= k < it.index() ==> (#[trigger] out@[k])@ == probed(
                    all[k]@,
                    data@,
                    probe_bytes(probes@[k]),
                ),
    {
        let ghost n = it.index() as int;
        let i = out.len();
        assert(shown(all)[n] == p@);
        let mut fs = find_fs_at(data, p.byte_offset);
        if fs.as_str().is_empty() && p.byte_offset >= have as u64 && p.byte_length > 0 {
            if let Some(bytes) = &probes[i] {
                fs = detect_fs_at(bytes.as_slice());
            }
        }
        if fs.as_str().is_empty() {
            out.push(p);
        } else {
            out.push(Partition { fs_type: fs, ..p });
        }
    }
    assert(shown(out@) =~= all_probed(shown(all), data@, probes@));
    out
}

// ---------------------------------------------------------------- the device as a partition

/// The whole device, as a partition.
pub open spec fn raw_partition(name: Seq<char>, size: u64, fs: Seq<char>) -> PartitionView {
    PartitionView {
        number: 0,
        name: "Raw device ("@ + name + ")"@,
        start_sector: 0,
        num_sectors: size / 512,
        type_guid: "00"@,
        fs_type: fs,
        byte_offset: 0,
        byte_length: size,
    }
}

/// The whole device, as a partition.
pub fn make_raw_partition(name: &str, size: u64, fs: String) -> (r: Partition)
    ensures
        r@ == raw_partition(name@, size, fs@),
{
    let mut title = "Raw device (".to_owned();
    title.append(name);
    title.append(")");
    Partition {
        number: 0,
        name: title,
        start_sector: 0,
        num_sectors: size / 512,
        type_guid: "00".to_owned(),
        fs_type: fs,
        byte_offset: 0,
        byte_length: size,
    }
}

/// A partition covers the whole device.
pub open spec fn covers(p: PartitionView, size: u64) -> bool {
    p.byte_offset == 0 && p.byte_length == size
}

/// The partitions, after the whole device where that holds a file system.
pub open spec fn with_raw(
    table: Seq<PartitionView>,
    name: Seq<char>,
    size: u64,
    fs: Seq<char>,
) -> Seq<PartitionView> {
    if fs.len() > 0 {
        seq![raw_partition(name, size, fs)] + table
    } else {
        table
    }
}

/// Puts the whole device before its partitions where it holds a file system.
pub fn add_raw(table: Vec<Partition>, name: &str, size: u64, fs: String) -> (r: Vec<Partition>)
    ensures
        shown(r@) == with_raw(shown(table@), name@, size, fs@),
{
    let ghost before = table@;
    let mut table = table;
    if !fs.as_str().is_empty() {
        let raw = make_raw_partition(name, size, fs);
        table.insert(0, raw);
        assert(shown(table@) =~= seq![raw@] + shown(before));
    }
    table
}

/// Whether a partition covers the whole device.
pub fn some_covers(table: &Vec<Partition>, size: u64) -> (r: bool)
    ensures
        r == exists|i: int| 0 <= i < table@.len() && covers((#[trigger] table@[i])@, size),
{
    let mut i: usize = 0;
    while i < table.len()
        invariant
            i <= table.len(),
            forall|k: int| 0 <= k < i ==> !covers((#[trigger] table@[k])@, size),
        decreases table.len() - i,
    {
        if table[i].byte_offset == 0 && table[i].byte_length == size {
            assert(covers(table@[i as int]@, size));
            return true;
        }
        i = i + 1;
    }
    false
}

// ---------------------------------------------------------------- what probes tell

/// Up to two megabytes of a device are read for its partition table, and all of a smaller one.
pub proof fn law_table_is_read_from_the_first_bytes(size: int)
    requires
        0 <= size,
    ensures
        table_read_len(size) <= size,
        table_read_len(size) <= 2 * 1024 * 1024,
        table_read_len(size) == size || table_read_len(size) == 2 * 1024 * 1024,
{
}

/// The signature at a place is told from the bytes from there on, of which there must be 1088.
pub proof fn law_signature_is_looked_for_at_its_place(data: Seq<u8>, offset: int)
    requires
        0 <= offset,
    ensures
        offset + 1088 <= data.len() ==> fs_at(data, offset) == detected_fs(data.skip(offset)),
        offset + 1088 > data.len() ==> fs_at(data, offset).len() == 0,
{
    if offset <= data.len() {
        let rest = data.subrange(offset, data.len() as int);
        assert(rest =~= data.skip(offset));
        crate::partition::law_file_systems_are_told_by_their_bytes(rest);
    }
}

/// A file system on the whole device is looked for at its start, then at 1024, then at 65536;
/// the first that is found counts.
pub proof fn law_device_is_looked_at_in_three_places(data: Seq<u8>)
    ensures
        fs_at(data, 0).len() > 0 ==> raw_fs(data) == fs_at(data, 0),
        fs_at(data, 0).len() == 0 && fs_at(data, 1024).len() > 0 ==> raw_fs(data) == fs_at(
            data,
            1024,
        ),
        fs_at(data, 0).len() == 0 && fs_at(data, 1024).len() == 0 ==> raw_fs(data) == fs_at(
            data,
            65536,
        ),
{
}

/// A partition that starts behind the bytes at hand and is not empty is probed: its first 2048
/// bytes, or all that it has. No other is.
pub proof fn law_far_partitions_are_probed(p: PartitionView, have: int)
    ensures
        p.byte_offset >= have && p.byte_length > 0 ==> (probe_range(p, have) matches Some((at, len))
            && at == p.byte_offset && len <= 2048 && len <= p.byte_length && (len == 2048 || len
            == p.byte_length)),
        p.byte_offset < have || p.byte_length == 0 ==> probe_range(p, have) is None,
{
}

/// A partition keeps all that its table says of it but for the file system: that is the one
/// whose signature stands at its start, as far as the start is at hand or was probed; the
/// expected one stays where no signature is found.
pub proof fn law_probes_tell_the_file_system(
    p: PartitionView,
    data: Seq<u8>,
    probe: Option<Seq<u8>>,
)
    ensures
        ({
            let q = probed(p, data, probe);
            let near = fs_at(data, p.byte_offset as int);
            &&& q.number == p.number && q.name == p.name && q.type_guid == p.type_guid
            &&& q.start_sector == p.start_sector && q.num_sectors == p.num_sectors
            &&& q.byte_offset == p.byte_offset && q.byte_length == p.byte_length
            &&& near.len() > 0 ==> q.fs_type == near
            &&& near.len() == 0 && p.byte_offset < data.len() ==> q.fs_type == p.fs_type
            &&& p.byte_offset >= data.len() && p.byte_length > 0 ==> match probe {
                Some(b) => q.fs_type == (if detected_fs(b).len() > 0 {
                    detected_fs(b)
                } else {
                    p.fs_type
                }),
                None => q.fs_type == p.fs_type,
            }
            &&& p.byte_length == 0 && near.len() == 0 ==> q.fs_type == p.fs_type
        }),
{
    if p.byte_offset >= data.len() {
        law_signature_is_looked_for_at_its_place(data, p.byte_offset as int);
    }
}

/// Each partition of a table is probed by itself, and stays at its place.
pub proof fn law_every_partition_is_probed(
    table: Seq<PartitionView>,
    data: Seq<u8>,
    probes: Seq<Option<Vec<u8>>>,
    i: int,
)
    requires
        0 <= i < table.len(),
    ensures
        all_probed(table, data, probes).len() == table.len(),
        probes[i] matches Some(b) ==> all_probed(table, data, probes)[i] == probed(
            table[i],
            data,
            Some(b@),
        ),
        probes[i] is None ==> all_probed(table, data, probes)[i] == probed(table[i], data, None),
{
}

/// A device that holds a file system itself goes before its partitions, as one that covers all
/// of it; any other does not, and all partitions stay.
pub proof fn law_device_goes_before_its_partitions(
    table: Seq<PartitionView>,
    name: Seq<char>,
    size: u64,
    fs: Seq<char>,
)
    ensures
        fs.len() == 0 ==> with_raw(table, name, size, fs) == table,
        fs.len() > 0 ==> {
            let all = with_raw(table, name, size, fs);
            &&& all.len() == table.len() + 1
            &&& all.drop_first() == table
            &&& all[0].byte_offset == 0 && all[0].byte_length == size
            &&& all[0].start_sector == 0
            &&& 512 * all[0].num_sectors <= size < 512 * (all[0].num_sectors + 1)
            &&& all[0].fs_type == fs
            &&& all[0].name == "Raw device ("@ + name + ")"@
            &&& all[0].number == 0
            &&& all[0].type_guid == "00"@
        },
        forall|p: PartitionView| #[trigger]
            covers(p, size) <==> p.byte_offset == 0 && p.byte_length == size,
{
    if fs.len() > 0 {
        assert(with_raw(table, name, size, fs).drop_first() =~= table);
    }
}

} // verus!
