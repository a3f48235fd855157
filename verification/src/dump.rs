//! The dump of an archive: its header, and of each device the partitions and their trees.
//!
//! A dump says what it needs next: the start of a device, a file system to be opened, or a tree
//! to be walked. It takes what came of that, and gives the lines to write.
use vstd::prelude::*;
use crate::partition::{
    parse_partition_table, partition_table, shown, table_fits, Partition, PartitionView,
};
use crate::probe::{
    add_raw, covers, detect_raw_fs, raw_fs, read_len_for, some_covers, table_read_len, with_raw,
};
use crate::size::{format_size, size_text};
use crate::text::{
    concat_texts, decimal, decimal_text, left_aligned, push_decimal, push_left_aligned,
    push_repeated, push_right_aligned, repeated, right_aligned, texts,
};
use crate::tree::{
    dirs_visited, limit_reached, some_full, tree_end, tree_start, TreeItem, TreeKind,
};
use crate::ui::{config_line, config_row, size_fits};
use crate::vma::{config_shown, devices_shown, ArchiveView, VmaArchive, VmaDevice, VmaDeviceView};

verus! {

// ---------------------------------------------------------------- lines

/// The lines for the configuration files.
pub open spec fn config_lines(config: Seq<(Seq<char>, Seq<char>)>) -> Seq<Seq<char>> {
    if config.len() == 0 {
        seq![]
    } else {
        seq!["Config files ("@ + decimal(config.len()) + "):"@] + Seq::new(
            config.len(),
            |i: int| config_row(config[i], 120),
        ) + seq![seq![]]
    }
}

/// The lines before those for the devices.
pub open spec fn dump_head(path: Seq<char>, a: ArchiveView) -> Seq<Seq<char>> {
    seq!["VMA: "@ + path, "Created: "@ + a.ctime, seq![]] + config_lines(a.config)
}

/// The heading of a device.
pub open spec fn device_heading(d: VmaDeviceView, i: nat) -> Seq<char> {
    repeated('━', 60) + " Device "@ + decimal(i) + ": "@ + d.name + " ("@ + size_text(
        d.size as nat,
    ) + ") "@ + repeated('━', 60)
}

/// A row of the list of partitions.
pub open spec fn table_row(
    name: Seq<char>,
    start: Seq<char>,
    size: Seq<char>,
    guid: Seq<char>,
    fs: Seq<char>,
) -> Seq<char> {
    "    "@ + left_aligned(name, 22) + " "@ + right_aligned(start, 10) + " "@ + right_aligned(
        size,
        10,
    ) + " "@ + right_aligned(guid, 8) + "  "@ + fs
}

/// The row for a partition.
pub open spec fn partition_table_row(p: PartitionView) -> Seq<char> {
    table_row(
        p.name,
        decimal(p.start_sector as nat),
        size_text((p.num_sectors * 512) as nat),
        p.type_guid,
        p.fs_type,
    )
}

/// The list of the partitions of a device.
pub open spec fn table_lines(table: Seq<PartitionView>) -> Seq<Seq<char>> {
    if table.len() == 0 {
        seq!["  No partition table or filesystem detected."@]
    } else {
        seq![
            "  Partitions:"@,
            table_row("Name"@, "Start LBA"@, "Size"@, "Type"@, "FS"@),
            "    "@ + repeated('─', 70),
        ] + Seq::new(table.len(), |i: int| partition_table_row(table[i]))
    }
}

/// The heading of the tree of an ext file system.
pub open spec fn ext4_heading(
    p: PartitionView,
    device: Seq<char>,
    fs_type: Seq<char>,
    blocks: u64,
) -> Seq<char> {
    "  📁 /  ("@ + p.name + " on "@ + device + ", "@ + fs_type + " "@ + size_text(
        (p.num_sectors * 512) as nat,
    ) + ", "@ + decimal(blocks as nat) + " blocks)"@
}

/// The heading of the tree of a FAT file system.
pub open spec fn fat_heading(p: PartitionView, device: Seq<char>, fs_type: Seq<char>) -> Seq<char> {
    "  📁 /  ("@ + p.name + " on "@ + device + ", "@ + fs_type + " FAT)"@
}

/// The line for a partition without a file system that can be opened.
pub open spec fn failed_line(p: PartitionView, error: Seq<char>) -> Seq<char> {
    "  ⚠ "@ + p.name + " — could not open FAT: "@ + error
}

/// The line for a tree that is cut short.
pub open spec fn limit_line(max_entries: nat) -> Seq<char> {
    "  ... (reached "@ + decimal(max_entries) + " entry limit)"@
}

/// The partitions of a device, after the device itself where that holds a file system and no
/// partition covers it.
pub open spec fn dump_table(d: VmaDeviceView, data: Seq<u8>) -> Seq<PartitionView> {
    let table = partition_table(data);
    if exists|i: int| 0 <= i < table.len() && covers(#[trigger] table[i], d.size) {
        table
    } else {
        with_raw(table, d.name, d.size, raw_fs(data))
    }
}

// ---------------------------------------------------------------- the dump

/// What a dump is about to do.
#[derive(Clone, Copy, Debug, PartialEq, Eq, Structural)]
pub enum Stage {
    /// Read the start of a device.
    Device,
    /// Open a partition as an ext file system.
    Ext4,
    /// Open a partition as a FAT file system.
    Fat,
    /// Walk the tree of the file system that was opened.
    Tree(TreeKind),
}

/// What a dump needs next.
#[derive(Clone, Copy, Debug, PartialEq, Eq, Structural)]
pub enum DumpAction {
    /// The first `len` bytes of a device.
    ReadDevice { device: usize, len: usize },
    /// An ext file system on a part of a device.
    OpenExt4 { device: usize, offset: u64, length: u64 },
    /// A FAT file system on a part of a device.
    OpenFat { device: usize, offset: u64, length: u64 },
    /// The tree of the file system that was opened last.
    WalkTree { kind: TreeKind },
    /// Nothing: the dump is complete.
    Done,
}

/// A dump: the devices, where it has come to, and the partitions of the device there.
pub struct DumpState {
    pub devices: Seq<VmaDeviceView>,
    pub max_entries: nat,
    pub device: nat,
    pub table: Seq<PartitionView>,
    pub part: nat,
    pub stage: Stage,
}

/// The start of a dump.
pub open spec fn dump_start(devices: Seq<VmaDeviceView>, max_entries: nat) -> DumpState {
    DumpState {
        devices,
        max_entries,
        device: 0,
        table: seq![],
        part: 0,
        stage: Stage::Device,
    }
}

/// What holds of every dump: within a device it is at one of its partitions.
pub open spec fn dump_sound(s: DumpState) -> bool {
    &&& s.device <= s.devices.len() <= usize::MAX
    &&& s.stage != Stage::Device ==> s.device < s.devices.len() && s.part < s.table.len()
    &&& forall|i: int| 0 <= i < s.table.len() ==> size_fits(#[trigger] s.table[i])
}

/// The device at which a dump is.
pub open spec fn current_device(s: DumpState) -> VmaDeviceView {
    s.devices[s.device as int]
}

/// The partition at which a dump is.
pub open spec fn current_part(s: DumpState) -> PartitionView {
    s.table[s.part as int]
}

/// What a dump needs next.
pub open spec fn dump_action(s: DumpState) -> DumpAction {
    if s.stage == Stage::Device {
        if s.device < s.devices.len() {
            DumpAction::ReadDevice {
                device: s.device as usize,
                len: table_read_len(current_device(s).size as int) as usize,
            }
        } else {
            DumpAction::Done
        }
    } else {
        let p = current_part(s);
        match s.stage {
            Stage::Tree(kind) => DumpAction::WalkTree { kind },
            Stage::Fat => DumpAction::OpenFat {
                device: s.device as usize,
                offset: p.byte_offset,
                length: p.byte_length,
            },
            _ => DumpAction::OpenExt4 {
                device: s.device as usize,
                offset: p.byte_offset,
                length: p.byte_length,
            },
        }
    }
}

/// The dump at the next device.
pub open spec fn next_device(s: DumpState) -> DumpState {
    DumpState { device: s.device + 1, table: seq![], part: 0, stage: Stage::Device, ..s }
}

/// What is written after a partition, and the dump at the next one.
pub open spec fn next_part(s: DumpState) -> (Seq<Seq<char>>, DumpState) {
    if s.part + 1 < s.table.len() {
        (seq![], DumpState { part: s.part + 1, stage: Stage::Ext4, ..s })
    } else {
        (seq![seq![]], next_device(s))
    }
}

/// What is written of a device whose start was read, and the dump after it.
pub open spec fn on_device(s: DumpState, data: Seq<u8>) -> (Seq<Seq<char>>, DumpState) {
    let d = current_device(s);
    let table = dump_table(d, data);
    (
        seq![device_heading(d, s.device)] + table_lines(table),
        if table.len() == 0 {
            next_device(s)
        } else {
            DumpState { table, part: 0, stage: Stage::Ext4, ..s }
        },
    )
}

/// What is written of a partition that was opened as an ext file system, or not, and the dump
/// after it.
pub open spec fn on_ext4(s: DumpState, opened: Option<(Seq<char>, u64)>) -> (
    Seq<Seq<char>>,
    DumpState,
) {
    match opened {
        Some((fs_type, blocks)) => (
            seq![seq![], ext4_heading(current_part(s), current_device(s).name, fs_type, blocks)],
            DumpState { stage: Stage::Tree(TreeKind::Ext4), ..s },
        ),
        None => (seq![], DumpState { stage: Stage::Fat, ..s }),
    }
}

/// What is written of a partition that was opened as a FAT file system, or not, and the dump
/// after it.
pub open spec fn on_fat(s: DumpState, opened: Result<Seq<char>, Seq<char>>) -> (
    Seq<Seq<char>>,
    DumpState,
) {
    match opened {
        Ok(fs_type) => (
            seq![seq![], fat_heading(current_part(s), current_device(s).name, fs_type)],
            DumpState { stage: Stage::Tree(TreeKind::Fat), ..s },
        ),
        Err(error) => (
            seq![seq![], failed_line(current_part(s), error)] + next_part(s).0,
            next_part(s).1,
        ),
    }
}

/// What is written after a tree, and the dump after it.
pub open spec fn on_tree(s: DumpState, reached: bool) -> (Seq<Seq<char>>, DumpState) {
    (
        (if reached {
            seq![limit_line(s.max_entries)]
        } else {
            seq![]
        }) + next_part(s).0,
        next_part(s).1,
    )
}

/// A dump of an archive.
pub struct Dump {
    devices: Vec<VmaDevice>,
    max_entries: usize,
    device: usize,
    table: Vec<Partition>,
    part: usize,
    stage: Stage,
}

impl View for Dump {
    type V = DumpState;

    closed spec fn view(&self) -> DumpState {
        DumpState {
            devices: devices_shown(self.devices@),
            max_entries: self.max_entries as nat,
            device: self.device as nat,
            table: shown(self.table@),
            part: self.part as nat,
            stage: self.stage,
        }
    }
}

/// The lines before those for the devices.
pub fn dump_head_lines(path: &str, archive: &VmaArchive) -> (r: Vec<String>)
    ensures
        texts(r@) == dump_head(path@, archive@),
{
    let config = archive.config_list();
    let ghost all = archive@.config;
    let mut lines: Vec<String> = Vec::new();
    lines.push(concat_texts("VMA: ", path));
    lines.push(concat_texts("Created: ", archive.created()));
    lines.push(String::new());
    let ghost top = texts(lines@);
    proof {
        assert(lines@[2]@ =~= seq![]);
        assert(top =~= seq!["VMA: "@ + path@, "Created: "@ + archive@.ctime, seq![]]);
    }
    if config.len() > 0 {
        let mut s = "Config files (".to_owned();
        push_decimal(&mut s, config.len() as u64);
        s.append("):");
        let ghost head = s@;
        lines.push(s);
        let mut i: usize = 0;
        assert(texts(lines@) =~= top + seq![head] + Seq::new(
            0,
            |k: int| config_row(all[k], 120),
        ));
        while i < config.len()
            invariant
                i <= config.len(),
                all == config_shown(config@),
                texts(lines@) == top + seq![head] + Seq::new(
                    i as nat,
                    |k: int| config_row(all[k], 120),
                ),
            decreases config.len() - i,
        {
            let ghost before = lines@;
            assert(all[i as int] == (config@[i as int].0@, config@[i as int].1@));
            lines.push(config_line(config[i].0.as_str(), config[i].1.as_str(), 120));
            i = i + 1;
            assert(texts(lines@) =~= texts(before).push(config_row(all[i - 1], 120)));
            assert(texts(lines@) =~= top + seq![head] + Seq::new(
                i as nat,
                |k: int| config_row(all[k], 120),
            ));
        }
        let ghost before = lines@;
        lines.push(String::new());
        assert(lines@.last()@ =~= seq![]);
        assert(texts(lines@) =~= texts(before).push(seq![]));
    }
    assert(texts(lines@) =~= top + config_lines(all));
    lines
}

fn table_line(name: &str, start: &str, size: &str, guid: &str, fs: &str) -> (r: String)
    ensures
        r@ == table_row(name@, start@, size@, guid@, fs@),
{
    let mut s = "    ".to_owned();
    push_left_aligned(&mut s, name, 22);
    s.append(" ");
    push_right_aligned(&mut s, start, 10);
    s.append(" ");
    push_right_aligned(&mut s, size, 10);
    s.append(" ");
    push_right_aligned(&mut s, guid, 8);
    s.append("  ");
    s.append(fs);
    s
}

fn heading_of_device(d: &VmaDevice, i: usize) -> (r: String)
    ensures
        r@ == device_heading(d@, i as nat),
{
    let mut s = String::new();
    push_repeated(&mut s, '━', 60);
    s.append(" Device ");
    push_decimal(&mut s, i as u64);
    s.append(": ");
    s.append(d.name.as_str());
    s.append(" (");
    s.append(format_size(d.size).as_str());
    s.append(") ");
    push_repeated(&mut s, '━', 60);
    assert(s@ =~= device_heading(d@, i as nat));
    s
}

fn push_table_lines(lines: &mut Vec<String>, table: &Vec<Partition>)
    requires
        forall|i: int| 0 <= i < shown(table@).len() ==> size_fits(#[trigger] shown(table@)[i]),
    ensures
        texts(final(lines)@) == texts(old(lines)@) + table_lines(shown(table@)),
{
    let ghost before = texts(lines@);
    let ghost all = shown(table@);
    if table.len() == 0 {
        lines.push("  No partition table or filesystem detected.".to_owned());
        assert(texts(lines@) =~= before + table_lines(all));
        return;
    }
    lines.push("  Partitions:".to_owned());
    lines.push(table_line("Name", "Start LBA", "Size", "Type", "FS"));
    let mut rule = "    ".to_owned();
    push_repeated(&mut rule, '─', 70);
    lines.push(rule);
    let ghost top = seq![
        "  Partitions:"@,
        table_row("Name"@, "Start LBA"@, "Size"@, "Type"@, "FS"@),
        "    "@ + repeated('─', 70),
    ];
    let mut i: usize = 0;
    assert(texts(lines@) =~= before + top + Seq::new(0, |k: int| partition_table_row(all[k])));
    while i < table.len()
        invariant
            i <= table.len(),
            all == shown(table@),
            forall|i: int| 0 <= i < all.len() ==> size_fits(#[trigger] all[i]),
            texts(lines@) == before + top + Seq::new(
                i as nat,
                |k: int| partition_table_row(all[k]),
            ),
        decreases table.len() - i,
    {
        let ghost so_far = lines@;
        let p = &table[i];
        assert(all[i as int] == p@);
        assert(size_fits(all[i as int]));
        lines.push(
            table_line(
                p.name.as_str(),
                decimal_text(p.start_sector).as_str(),
                format_size(p.num_sectors * 512).as_str(),
                p.type_guid.as_str(),
                p.fs_type.as_str(),
            ),
        );
        i = i + 1;
        assert(texts(lines@) =~= texts(so_far).push(partition_table_row(all[i - 1])));
        assert(texts(lines@) =~= before + top + Seq::new(
            i as nat,
            |k: int| partition_table_row(all[k]),
        ));
    }
    assert(texts(lines@) =~= before + table_lines(all));
}

fn partitions_to_dump(d: &VmaDevice, data: &[u8]) -> (r: Vec<Partition>)
    requires
        table_fits(data@),
    ensures
        shown(r@) == dump_table(d@, data@),
        forall|i: int| 0 <= i < shown(r@).len() ==> size_fits(#[trigger] shown(r@)[i]),
{
    let table = parse_partition_table(data);
    let ghost parsed = shown(table@);
    proof {
        assert forall|i: int| 0 <= i < parsed.len() implies size_fits(#[trigger] parsed[i]) by {
            crate::partition::law_partitions_count_in_sectors(data@, i);
        }
    }
    if some_covers(&table, d.size) {
        assert(exists|i: int| 0 <= i < parsed.len() && covers(#[trigger] parsed[i], d.size)) by {
            let i = choose|i: int| 0 <= i < table@.len() && covers(
                (#[trigger] table@[i])@,
                d.size,
            );
            assert(covers(parsed[i], d.size));
        }
        table
    } else {
        assert forall|i: int| 0 <= i < parsed.len() implies !covers(
            #[trigger] parsed[i],
            d.size,
        ) by {
            assert(parsed[i] == table@[i]@);
        }
        add_raw(table, d.name.as_str(), d.size, detect_raw_fs(data))
    }
}

impl Dump {
    #[verifier::type_invariant]
    closed spec fn always_sound(self) -> bool {
        dump_sound(self@)
    }

    /// The start of a dump of an archive.
    pub fn new(archive: &VmaArchive, max_entries: usize) -> (r: Self)
        ensures
            r@ == dump_start(archive@.devices, max_entries as nat),
            dump_sound(r@),
    {
        let list = archive.device_list();
        let mut devices: Vec<VmaDevice> = Vec::new();
        let mut i: usize = 0;
        while i < list.len()
            invariant
                i <= list.len(),
                devices.len() == i,
                forall|k: int| 0 <= k < i ==> (#[trigger] devices@[k])@ == list@[k]@,
            decreases list.len() - i,
        {
            devices.push(
                VmaDevice {
                    name: list[i].name.clone(),
                    size: list[i].size,
                    dev_id: list[i].dev_id,
                },
            );
            i = i + 1;
        }
        assert(devices_shown(devices@) =~= devices_shown(list@));
        let table: Vec<Partition> = Vec::new();
        assert(shown(table@) =~= seq![]);
        Dump { devices, max_entries, device: 0, table, part: 0, stage: Stage::Device }
    }

    /// What the dump needs next.
    pub fn action(&self) -> (r: DumpAction)
        ensures
            r == dump_action(self@),
    {
        proof {
            use_type_invariant(self);
        }
        match self.stage {
            Stage::Device => {
                if self.device < self.devices.len() {
                    assert(self.devices@[self.device as int]@ == current_device(self@));
                    DumpAction::ReadDevice {
                        device: self.device,
                        len: read_len_for(self.devices[self.device].size),
                    }
                } else {
                    DumpAction::Done
                }
            },
            Stage::Tree(kind) => DumpAction::WalkTree { kind },
            Stage::Fat => {
                let p = &self.table[self.part];
                assert(p@ == current_part(self@));
                DumpAction::OpenFat {
                    device: self.device,
                    offset: p.byte_offset,
                    length: p.byte_length,
                }
            },
            Stage::Ext4 => {
                let p = &self.table[self.part];
                assert(p@ == current_part(self@));
                DumpAction::OpenExt4 {
                    device: self.device,
                    offset: p.byte_offset,
                    length: p.byte_length,
                }
            },
        }
    }

    fn go_to_next_device(&mut self)
        requires
            old(self)@.device < old(self)@.devices.len(),
        ensures
            final(self)@ == next_device(old(self)@),
            dump_sound(final(self)@),
    {
        proof {
            use_type_invariant(&*self);
        }
        self.stage = Stage::Device;
        let table: Vec<Partition> = Vec::new();
        assert(shown(table@) =~= seq![]);
        self.table = table;
        self.part = 0;
        self.device = self.device + 1;
    }

    fn go_to_next_part(&mut self, lines: &mut Vec<String>)
        requires
            old(self)@.stage != Stage::Device,
        ensures
            texts(final(lines)@) == texts(old(lines)@) + next_part(old(self)@).0,
            final(self)@ == next_part(old(self)@).1,
            dump_sound(final(self)@),
    {
        proof {
            use_type_invariant(&*self);
        }
        let ghost before = lines@;
        assert(self.part < self.table.len());
        if self.part + 1 < self.table.len() {
            self.part = self.part + 1;
            self.stage = Stage::Ext4;
            assert(texts(lines@) + seq![] =~= texts(lines@));
        } else {
            lines.push(String::new());
            assert(lines@.last()@ =~= seq![]);
            assert(texts(lines@) =~= texts(before) + seq![seq![]]);
            self.go_to_next_device();
        }
    }

    /// Goes on with the start of the device.
    pub fn device_read(&mut self, data: &[u8]) -> (r: Vec<String>)
        requires
            old(self)@.stage == Stage::Device,
            old(self)@.device < old(self)@.devices.len(),
            table_fits(data@),
        ensures
            (texts(r@), final(self)@) == on_device(old(self)@, data@),
            dump_sound(final(self)@),
    {
        proof {
            use_type_invariant(&*self);
        }
        let d = &self.devices[self.device];
        assert(d@ == current_device(self@));
        let mut lines: Vec<String> = Vec::new();
        lines.push(heading_of_device(d, self.device));
        let table = partitions_to_dump(d, data);
        assert(texts(lines@) =~= seq![device_heading(d@, self.device as nat)]);
        push_table_lines(&mut lines, &table);
        if table.len() == 0 {
            self.go_to_next_device();
        } else {
            self.table = table;
            self.part = 0;
            self.stage = Stage::Ext4;
        }
        lines
    }

    /// Goes on with the kind and the blocks of the ext file system that was opened, if it was.
    pub fn ext4_opened(&mut self, opened: Option<(&str, u64)>) -> (r: Vec<String>)
        requires
            old(self)@.stage == Stage::Ext4,
        ensures
            (texts(r@), final(self)@) == on_ext4(
                old(self)@,
                match opened {
                    Some((t, b)) => Some((t@, b)),
                    None => None,
                },
            ),
            dump_sound(final(self)@),
    {
        proof {
            use_type_invariant(&*self);
        }
        let mut lines: Vec<String> = Vec::new();
        match opened {
            Some((fs_type, blocks)) => {
                let p = &self.table[self.part];
                assert(p@ == current_part(self@));
                assert(self.devices@[self.device as int]@ == current_device(self@));
                assert(size_fits(self@.table[self.part as int]));
                let mut s = "  📁 /  (".to_owned();
                s.append(p.name.as_str());
                s.append(" on ");
                s.append(self.devices[self.device].name.as_str());
                s.append(", ");
                s.append(fs_type);
                s.append(" ");
                s.append(format_size(p.num_sectors * 512).as_str());
                s.append(", ");
                push_decimal(&mut s, blocks);
                s.append(" blocks)");
                let ghost heading = s@;
                lines.push(String::new());
                lines.push(s);
                self.stage = Stage::Tree(TreeKind::Ext4);
                assert(lines@[0]@ =~= seq![]);
                assert(texts(lines@) =~= seq![seq![], heading]);
            },
            None => {
                self.stage = Stage::Fat;
                assert(texts(lines@) =~= seq![]);
            },
        }
        lines
    }

    /// Goes on with the kind of the FAT file system that was opened, or why it was not.
    pub fn fat_opened(&mut self, opened: Result<&str, &str>) -> (r: Vec<String>)
        requires
            old(self)@.stage == Stage::Fat,
        ensures
            (texts(r@), final(self)@) == on_fat(
                old(self)@,
                match opened {
                    Ok(t) => Ok::<Seq<char>, Seq<char>>(t@),
                    Err(e) => Err(e@),
                },
            ),
            dump_sound(final(self)@),
    {
        proof {
            use_type_invariant(&*self);
        }
        let mut lines: Vec<String> = Vec::new();
        lines.push(String::new());
        assert(lines@[0]@ =~= seq![]);
        let p = &self.table[self.part];
        assert(p@ == current_part(self@));
        match opened {
            Ok(fs_type) => {
                assert(self.devices@[self.device as int]@ == current_device(self@));
                let mut s = "  📁 /  (".to_owned();
                s.append(p.name.as_str());
                s.append(" on ");
                s.append(self.devices[self.device].name.as_str());
                s.append(", ");
                s.append(fs_type);
                s.append(" FAT)");
                let ghost heading = s@;
                lines.push(s);
                self.stage = Stage::Tree(TreeKind::Fat);
                assert(texts(lines@) =~= seq![seq![], heading]);
            },
            Err(error) => {
                let mut s = "  ⚠ ".to_owned();
                s.append(p.name.as_str());
                s.append(" — could not open FAT: ");
                s.append(error);
                let ghost line = s@;
                lines.push(s);
                assert(texts(lines@) =~= seq![seq![], line]);
                self.go_to_next_part(&mut lines);
            },
        }
        lines
    }

    /// Goes on after the tree, which reached the limit on entries or not.
    pub fn tree_done(&mut self, reached: bool) -> (r: Vec<String>)
        requires
            old(self)@.stage matches Stage::Tree(_),
        ensures
            (texts(r@), final(self)@) == on_tree(old(self)@, reached),
            dump_sound(final(self)@),
    {
        let mut lines: Vec<String> = Vec::new();
        assert(texts(lines@) =~= seq![]);
        if reached {
            let mut s = "  ... (reached ".to_owned();
            push_decimal(&mut s, self.max_entries as u64);
            s.append(" entry limit)");
            let ghost line = s@;
            lines.push(s);
            assert(texts(lines@) =~= seq![line]);
        }
        self.go_to_next_part(&mut lines);
        lines
    }
}

// ---------------------------------------------------------------- the dump as a whole

/// What comes of all that a dump needs: the start of each device, and of each of its partitions
/// what opens it and whether its tree reaches the limit.
pub struct Outcomes {
    pub data: spec_fn(nat) -> Seq<u8>,
    pub ext4: spec_fn(nat, nat) -> Option<(Seq<char>, u64)>,
    pub fat: spec_fn(nat, nat) -> Result<Seq<char>, Seq<char>>,
    pub reached: spec_fn(nat, nat) -> bool,
}

/// What is written after the tree of a partition.
pub open spec fn tree_text(o: Outcomes, max_entries: nat, d: nat, p: nat) -> Seq<Seq<char>> {
    if (o.reached)(d, p) {
        seq![limit_line(max_entries)]
    } else {
        seq![]
    }
}

/// What is written of a partition that is no ext file system.
pub open spec fn fat_text(
    o: Outcomes,
    max_entries: nat,
    device: VmaDeviceView,
    part: PartitionView,
    d: nat,
    p: nat,
) -> Seq<Seq<char>> {
    match (o.fat)(d, p) {
        Ok(fs_type) => seq![seq![], fat_heading(part, device.name, fs_type)] + tree_text(
            o,
            max_entries,
            d,
            p,
        ),
        Err(error) => seq![seq![], failed_line(part, error)],
    }
}

/// What is written of a partition, its tree apart.
pub open spec fn part_text(
    o: Outcomes,
    max_entries: nat,
    device: VmaDeviceView,
    part: PartitionView,
    d: nat,
    p: nat,
) -> Seq<Seq<char>> {
    match (o.ext4)(d, p) {
        Some((fs_type, blocks)) => seq![seq![], ext4_heading(part, device.name, fs_type, blocks)]
            + tree_text(o, max_entries, d, p),
        None => fat_text(o, max_entries, device, part, d, p),
    }
}

/// What is written of the partitions of a device from number `p` on.
pub open spec fn parts_text(
    o: Outcomes,
    max_entries: nat,
    device: VmaDeviceView,
    table: Seq<PartitionView>,
    d: nat,
    p: nat,
) -> Seq<Seq<char>>
    decreases table.len() - p,
{
    if p >= table.len() {
        seq![]
    } else {
        part_text(o, max_entries, device, table[p as int], d, p) + parts_text(
            o,
            max_entries,
            device,
            table,
            d,
            p + 1,
        )
    }
}

/// What is written of a device: its heading, its partitions, and what they hold.
pub open spec fn device_text(o: Outcomes, max_entries: nat, device: VmaDeviceView, d: nat) -> Seq<
    Seq<char>,
> {
    let table = dump_table(device, (o.data)(d));
    seq![device_heading(device, d)] + table_lines(table) + (if table.len() == 0 {
        seq![]
    } else {
        parts_text(o, max_entries, device, table, d, 0) + seq![seq![]]
    })
}

/// What is written of the devices from number `d` on.
pub open spec fn devices_text(
    o: Outcomes,
    max_entries: nat,
    devices: Seq<VmaDeviceView>,
    d: nat,
) -> Seq<Seq<char>>
    decreases devices.len() - d,
{
    if d >= devices.len() {
        seq![]
    } else {
        device_text(o, max_entries, devices[d as int], d) + devices_text(
            o,
            max_entries,
            devices,
            d + 1,
        )
    }
}

/// One step of a dump: what it writes, and the dump after it.
pub open spec fn dump_step(o: Outcomes, s: DumpState) -> (Seq<Seq<char>>, DumpState) {
    match s.stage {
        Stage::Device => on_device(s, (o.data)(s.device)),
        Stage::Ext4 => on_ext4(s, (o.ext4)(s.device, s.part)),
        Stage::Fat => on_fat(s, (o.fat)(s.device, s.part)),
        Stage::Tree(_) => on_tree(s, (o.reached)(s.device, s.part)),
    }
}

/// How far a dump is from its next device: opening comes before the tree.
pub open spec fn stages_left(s: DumpState) -> nat {
    match s.stage {
        Stage::Device => 0,
        Stage::Ext4 => 3,
        Stage::Fat => 2,
        Stage::Tree(_) => 1,
    }
}

/// What a dump writes from where it is to the end.
pub open spec fn dump_run(o: Outcomes, s: DumpState) -> Seq<Seq<char>>
    decreases
            s.devices.len() - s.device,
            (if s.stage == Stage::Device {
                1int
            } else {
                0
            }),
            s.table.len() - s.part,
            stages_left(s),
    when s.device <= s.devices.len() && (s.stage != Stage::Device ==> s.device < s.devices.len()
        && s.part < s.table.len())
{
    if s.stage == Stage::Device && s.device >= s.devices.len() {
        seq![]
    } else {
        dump_step(o, s).0 + dump_run(o, dump_step(o, s).1)
    }
}

/// What a dump has still to write of the device at which it is.
spec fn rest_of_device(o: Outcomes, s: DumpState) -> Seq<Seq<char>> {
    let device = current_device(s);
    let part = current_part(s);
    let here = match s.stage {
        Stage::Device => device_text(o, s.max_entries, device, s.device),
        Stage::Ext4 => part_text(o, s.max_entries, device, part, s.device, s.part),
        Stage::Fat => fat_text(o, s.max_entries, device, part, s.device, s.part),
        Stage::Tree(_) => tree_text(o, s.max_entries, s.device, s.part),
    };
    if s.stage == Stage::Device {
        here
    } else {
        here + parts_text(o, s.max_entries, device, s.table, s.device, s.part + 1) + seq![seq![]]
    }
}

/// The dump is at a device, and within it at one of its partitions.
spec fn within(s: DumpState) -> bool {
    s.device < s.devices.len() && (s.stage != Stage::Device ==> s.part < s.table.len())
}

/// What a step leaves to be written of the device is what there was without its lines.
spec fn step_adds_up(o: Outcomes, s: DumpState, lines: Seq<Seq<char>>, t: DumpState) -> bool {
    if t.device == s.device {
        rest_of_device(o, s) == lines + rest_of_device(o, t)
    } else {
        rest_of_device(o, s) == lines
    }
}

proof fn lemma_next_part_adds_up(o: Outcomes, s: DumpState)
    requires
        within(s),
        s.stage != Stage::Device,
    ensures
        ({
            let (lines, t) = next_part(s);
            let rest = parts_text(
                o,
                s.max_entries,
                current_device(s),
                s.table,
                s.device,
                s.part + 1,
            ) + seq![seq![]];
            if t.device == s.device {
                lines == Seq::<Seq<char>>::empty() && rest_of_device(o, t) == rest
            } else {
                lines == rest
            }
        }),
{
    let (lines, t) = next_part(s);
    let parts = parts_text(o, s.max_entries, current_device(s), s.table, s.device, s.part + 1);
    if s.part + 1 < s.table.len() {
        assert(rest_of_device(o, t) =~= parts + seq![seq![]]);
    } else {
        assert(parts =~= seq![]);
        assert(lines =~= parts + seq![seq![]]);
    }
}

proof fn lemma_device_step_adds_up(o: Outcomes, s: DumpState)
    requires
        within(s),
        s.stage == Stage::Device,
    ensures
        step_adds_up(o, s, dump_step(o, s).0, dump_step(o, s).1),
{
    let (lines, t) = dump_step(o, s);
    let device = current_device(s);
    if t.device == s.device {
        let parts = parts_text(o, s.max_entries, device, t.table, s.device, 0);
        assert(rest_of_device(o, t) =~= parts + seq![seq![]]);
        assert(rest_of_device(o, s) =~= lines + rest_of_device(o, t));
    } else {
        assert(rest_of_device(o, s) =~= lines);
    }
}

proof fn lemma_open_step_adds_up(o: Outcomes, s: DumpState)
    requires
        within(s),
        s.stage == Stage::Ext4 || s.stage == Stage::Fat,
    ensures
        step_adds_up(o, s, dump_step(o, s).0, dump_step(o, s).1),
{
    let (lines, t) = dump_step(o, s);
    lemma_next_part_adds_up(o, s);
    if t.device == s.device {
        assert(rest_of_device(o, s) =~= lines + rest_of_device(o, t));
    } else {
        assert(rest_of_device(o, s) =~= lines);
    }
}

proof fn lemma_tree_step_adds_up(o: Outcomes, s: DumpState)
    requires
        within(s),
        s.stage matches Stage::Tree(_),
    ensures
        step_adds_up(o, s, dump_step(o, s).0, dump_step(o, s).1),
{
    let (lines, t) = dump_step(o, s);
    lemma_next_part_adds_up(o, s);
    if t.device == s.device {
        assert(rest_of_device(o, s) =~= lines + rest_of_device(o, t));
    } else {
        assert(rest_of_device(o, s) =~= lines);
    }
}

proof fn lemma_run_gives_the_rest(o: Outcomes, s: DumpState)
    requires
        within(s),
    ensures
        dump_run(o, s) == rest_of_device(o, s) + devices_text(
            o,
            s.max_entries,
            s.devices,
            s.device + 1,
        ),
    decreases
            s.devices.len() - s.device,
            (if s.stage == Stage::Device {
                1int
            } else {
                0
            }),
            s.table.len() - s.part,
            stages_left(s),
{
    let (lines, t) = dump_step(o, s);
    let later = devices_text(o, s.max_entries, s.devices, s.device + 1);
    match s.stage {
        Stage::Device => lemma_device_step_adds_up(o, s),
        Stage::Tree(_) => lemma_tree_step_adds_up(o, s),
        _ => lemma_open_step_adds_up(o, s),
    }
    assert(dump_run(o, s) == lines + dump_run(o, t));
    if t.device == s.device {
        lemma_run_gives_the_rest(o, t);
        let rest = rest_of_device(o, t);
        assert(lines + (rest + later) =~= (lines + rest) + later);
    } else {
        if t.device < t.devices.len() {
            lemma_run_gives_the_rest(o, t);
        }
        assert(dump_run(o, t) =~= later);
    }
}

/// A dump writes of every device its heading and partitions, and of every partition what opens
/// it, in their order.
pub proof fn law_dump_covers_all_devices(
    o: Outcomes,
    devices: Seq<VmaDeviceView>,
    max_entries: nat,
)
    ensures
        dump_run(o, dump_start(devices, max_entries)) == devices_text(o, max_entries, devices, 0),
{
    if devices.len() > 0 {
        lemma_run_gives_the_rest(o, dump_start(devices, max_entries));
    }
}

/// After the tree of a partition the limit is spoken of exactly where no entries are shown at
/// all, or one of the directories that the tree looked into has as many as are shown of one, or
/// more.
pub proof fn law_limit_is_said_of_full_directories(
    o: Outcomes,
    kind: TreeKind,
    read: spec_fn(u32, Seq<char>) -> Seq<TreeItem>,
    ino: u32,
    depth: nat,
    max_entries: nat,
    d: nat,
    p: nat,
)
    requires
        (o.reached)(d, p) == limit_reached(
            tree_end(read, tree_start(kind, ino, depth, max_entries)),
        ),
    ensures
        tree_text(o, max_entries, d, p) == (if max_entries == 0 || some_full(
            read,
            max_entries,
            dirs_visited(kind, max_entries, read, ino, seq![], depth),
        ) {
            seq![limit_line(max_entries)]
        } else {
            seq![]
        }),
{
    crate::tree::law_limit_is_reached_by_a_full_directory(kind, read, ino, depth, max_entries);
}

// ---------------------------------------------------------------- what the lines say

/// The device itself is dumped before its partitions where it holds a file system and no
/// partition covers all of it; the partitions are dumped in any case.
pub proof fn law_dump_shows_all_partitions(d: VmaDeviceView, data: Seq<u8>)
    ensures
        (exists|i: int|
            0 <= i < partition_table(data).len() && (#[trigger] partition_table(
                data,
            )[i]).byte_offset == 0 && partition_table(data)[i].byte_length == d.size)
            || raw_fs(data).len() == 0 ==> dump_table(d, data) == partition_table(data),
        !(exists|i: int|
            0 <= i < partition_table(data).len() && (#[trigger] partition_table(
                data,
            )[i]).byte_offset == 0 && partition_table(data)[i].byte_length == d.size)
            && raw_fs(data).len() > 0 ==> dump_table(d, data).drop_first() == partition_table(data)
            && dump_table(d, data)[0].byte_offset == 0 && dump_table(d, data)[0].byte_length
            == d.size && dump_table(d, data)[0].fs_type == raw_fs(data),
{
    let table = partition_table(data);
    crate::probe::law_device_goes_before_its_partitions(table, d.name, d.size, raw_fs(data));
    if exists|i: int|
        0 <= i < table.len() && (#[trigger] table[i]).byte_offset == 0 && table[i].byte_length
            == d.size {
        let i = choose|i: int|
            0 <= i < table.len() && (#[trigger] table[i]).byte_offset == 0 && table[i].byte_length
                == d.size;
        assert(covers(table[i], d.size));
    }
}

/// The list of the partitions has a row for each, in order, below a heading of three lines; one
/// line says that there is none.
pub proof fn law_table_has_a_row_for_each_partition(table: Seq<PartitionView>, i: int)
    ensures
        table.len() == 0 ==> table_lines(table) == seq![
            "  No partition table or filesystem detected."@,
        ],
        table.len() > 0 ==> {
            let lines = table_lines(table);
            &&& lines.len() == table.len() + 3
            &&& lines[0] == "  Partitions:"@
            &&& lines[1] == "    "@ + left_aligned("Name"@, 22) + " "@ + right_aligned(
                "Start LBA"@,
                10,
            ) + " "@ + right_aligned("Size"@, 10) + " "@ + right_aligned("Type"@, 8) + "  "@
                + "FS"@
            &&& lines[2] == "    "@ + repeated('─', 70)
        },
        0 <= i < table.len() ==> {
            let p = table[i];
            table_lines(table)[i + 3] == "    "@ + left_aligned(p.name, 22) + " "@ + right_aligned(
                decimal(p.start_sector as nat),
                10,
            ) + " "@ + right_aligned(size_text((512 * p.num_sectors) as nat), 10) + " "@
                + right_aligned(p.type_guid, 8) + "  "@ + p.fs_type
        },
{
}

/// The dump starts with the path, the time, and a line for each configuration file, with the
/// first 120 characters of its contents.
pub proof fn law_dump_head_names_every_config(path: Seq<char>, a: ArchiveView, i: int)
    requires
        0 <= i < a.config.len(),
    ensures
        dump_head(path, a).len() == a.config.len() + 5,
        dump_head(path, a)[0] == "VMA: "@ + path,
        dump_head(path, a)[1] == "Created: "@ + a.ctime,
        dump_head(path, a)[3] == "Config files ("@ + decimal(a.config.len()) + "):"@,
        dump_head(path, a)[i + 4] == "  "@ + left_aligned(a.config[i].0, 35) + " "@
            + crate::text::preview(a.config[i].1, 120),
{
}

/// What a dump needs at each device and partition: the start of the device, then an ext file
/// system on the range of the partition, a FAT file system on the same range where that fails,
/// and the tree of what was opened.
pub proof fn law_dump_opens_every_partition(s: DumpState, data: Seq<u8>, fs: Seq<char>, blocks: u64)
    requires
        dump_sound(s),
        s.device < s.devices.len(),
    ensures
        s.stage == Stage::Device ==> {
            let t = on_device(s, data).1;
            let table = dump_table(s.devices[s.device as int], data);
            &&& dump_action(s) == (DumpAction::ReadDevice {
                device: s.device as usize,
                len: table_read_len(s.devices[s.device as int].size as int) as usize,
            })
            &&& table.len() > 0 ==> t.device == s.device && t.table == table && t.part == 0
                && t.stage == Stage::Ext4
            &&& table.len() == 0 ==> t.device == s.device + 1 && t.stage == Stage::Device
        },
        s.stage == Stage::Ext4 ==> {
            let p = s.table[s.part as int];
            &&& dump_action(s) == (DumpAction::OpenExt4 {
                device: s.device as usize,
                offset: p.byte_offset,
                length: p.byte_length,
            })
            &&& on_ext4(s, None).1 == (DumpState { stage: Stage::Fat, ..s })
            &&& on_ext4(s, Some((fs, blocks))).1 == (DumpState {
                stage: Stage::Tree(TreeKind::Ext4),
                ..s
            })
        },
        s.stage == Stage::Fat ==> {
            let p = s.table[s.part as int];
            &&& dump_action(s) == (DumpAction::OpenFat {
                device: s.device as usize,
                offset: p.byte_offset,
                length: p.byte_length,
            })
            &&& on_fat(s, Ok(fs)).1 == (DumpState { stage: Stage::Tree(TreeKind::Fat), ..s })
        },
        s.stage != Stage::Device && s.part + 1 < s.table.len() ==> {
            &&& on_tree(s, true).1 == (DumpState { part: s.part + 1, stage: Stage::Ext4, ..s })
            &&& on_tree(s, false).1 == on_tree(s, true).1
            &&& on_fat(s, Err(fs)).1 == on_tree(s, true).1
        },
        s.stage != Stage::Device && s.part + 1 >= s.table.len() ==> {
            &&& on_tree(s, true).1.device == s.device + 1
            &&& on_tree(s, true).1.stage == Stage::Device
            &&& on_tree(s, true).1.devices == s.devices
            &&& on_tree(s, true).1.max_entries == s.max_entries
            &&& on_tree(s, false).1 == on_tree(s, true).1
            &&& on_fat(s, Err(fs)).1 == on_tree(s, true).1
        },
        s.stage == Stage::Tree(TreeKind::Ext4) ==> dump_action(s) == (DumpAction::WalkTree {
            kind: TreeKind::Ext4,
        }),
        s.stage == Stage::Tree(TreeKind::Fat) ==> dump_action(s) == (DumpAction::WalkTree {
            kind: TreeKind::Fat,
        }),
{
}

/// A dump ends exactly when all devices were dumped, and starts with the first.
pub proof fn law_dump_ends_behind_the_last_device(
    s: DumpState,
    devices: Seq<VmaDeviceView>,
    max_entries: nat,
)
    requires
        dump_sound(s),
    ensures
        dump_action(s) == DumpAction::Done <==> s.device == s.devices.len(),
        dump_start(devices, max_entries).device == 0,
        dump_start(devices, max_entries).stage == Stage::Device,
        dump_start(devices, max_entries).devices == devices,
        dump_start(devices, max_entries).max_entries == max_entries,
{
}

/// Each device is headed by its number, its name and its size, and each file system by its
/// partition, its device and its kind.
pub proof fn law_headings_name_what_follows(
    d: VmaDeviceView,
    i: nat,
    p: PartitionView,
    fs: Seq<char>,
    blocks: u64,
    max_entries: nat,
)
    ensures
        device_heading(d, i) == repeated('━', 60) + " Device "@ + decimal(i) + ": "@ + d.name
            + " ("@ + size_text(d.size as nat) + ") "@ + repeated('━', 60),
        ext4_heading(p, d.name, fs, blocks) == "  📁 /  ("@ + p.name + " on "@ + d.name + ", "@ + fs
            + " "@ + size_text((512 * p.num_sectors) as nat) + ", "@ + decimal(blocks as nat)
            + " blocks)"@,
        fat_heading(p, d.name, fs) == "  📁 /  ("@ + p.name + " on "@ + d.name + ", "@ + fs
            + " FAT)"@,
        failed_line(p, fs) == "  ⚠ "@ + p.name + " — could not open FAT: "@ + fs,
        limit_line(max_entries) == "  ... (reached "@ + decimal(max_entries) + " entry limit)"@,
{
}

/// What a dump writes of some devices is what it writes of each, in order.
pub proof fn law_devices_are_dumped_one_by_one(
    o: Outcomes,
    max_entries: nat,
    devices: Seq<VmaDeviceView>,
    d: nat,
)
    ensures
        d >= devices.len() ==> devices_text(o, max_entries, devices, d).len() == 0,
        d < devices.len() ==> devices_text(o, max_entries, devices, d) == device_text(
            o,
            max_entries,
            devices[d as int],
            d,
        ) + devices_text(o, max_entries, devices, d + 1),
        d < devices.len() ==> device_text(o, max_entries, devices[d as int], d)[0]
            == device_heading(devices[d as int], d),
{
}

/// What is written of a device: its heading, the list of its partitions, what each of them holds,
/// in order, and an empty line behind them.
pub proof fn law_device_is_dumped_with_its_partitions(
    o: Outcomes,
    max_entries: nat,
    device: VmaDeviceView,
    d: nat,
    p: nat,
)
    ensures
        ({
            let table = dump_table(device, (o.data)(d));
            let text = device_text(o, max_entries, device, d);
            let n = table_lines(table).len() as int;
            &&& text[0] == device_heading(device, d)
            &&& text.subrange(1, 1 + n) == table_lines(table)
            &&& table.len() == 0 ==> text.len() == 1 + n
            &&& table.len() > 0 ==> text.subrange(1 + n, text.len() - 1) == parts_text(
                o,
                max_entries,
                device,
                table,
                d,
                0,
            ) && text.last().len() == 0
            &&& p >= table.len() ==> parts_text(o, max_entries, device, table, d, p).len() == 0
            &&& p < table.len() ==> parts_text(o, max_entries, device, table, d, p) == part_text(
                o,
                max_entries,
                device,
                table[p as int],
                d,
                p,
            ) + parts_text(o, max_entries, device, table, d, p + 1)
        }),
{
    let table = dump_table(device, (o.data)(d));
    let text = device_text(o, max_entries, device, d);
    let n = table_lines(table).len() as int;
    assert(text.subrange(1, 1 + n) =~= table_lines(table));
    if table.len() > 0 {
        assert(text.subrange(1 + n, text.len() - 1) =~= parts_text(
            o,
            max_entries,
            device,
            table,
            d,
            0,
        ));
    }
}

/// What is written of a partition, its tree apart: an empty line, and the heading of the ext file
/// system that was opened; otherwise that of the FAT file system; otherwise that neither opened.
/// Behind a tree that reached the limit stands a line that says so.
pub proof fn law_partition_is_dumped_as_it_opened(
    o: Outcomes,
    max_entries: nat,
    device: VmaDeviceView,
    part: PartitionView,
    d: nat,
    p: nat,
)
    ensures
        ({
            let text = part_text(o, max_entries, device, part, d, p);
            let opened = (o.ext4)(d, p) is Some || (o.fat)(d, p) is Ok;
            &&& text[0].len() == 0
            &&& (o.ext4)(d, p) matches Some((fs, blocks)) ==> text[1] == ext4_heading(
                part,
                device.name,
                fs,
                blocks,
            )
            &&& (o.ext4)(d, p) is None ==> ((o.fat)(d, p) matches Ok(fs) ==> text[1]
                == fat_heading(part, device.name, fs))
            &&& (o.ext4)(d, p) is None ==> ((o.fat)(d, p) matches Err(e) ==> text[1]
                == failed_line(part, e))
            &&& opened && (o.reached)(d, p) ==> text.len() == 3 && text[2] == limit_line(
                max_entries,
            )
            &&& !opened || !(o.reached)(d, p) ==> text.len() == 2
        }),
{
}

/// The dump of an archive without configuration files starts with its path and its time alone.
pub proof fn law_dump_head_without_configs(path: Seq<char>, a: ArchiveView)
    requires
        a.config.len() == 0,
    ensures
        dump_head(path, a) == seq!["VMA: "@ + path, "Created: "@ + a.ctime, seq![]],
{
    assert(dump_head(path, a) =~= seq!["VMA: "@ + path, "Created: "@ + a.ctime, seq![]]);
}

} // verus!
