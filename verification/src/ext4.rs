//! ext2/3/4 file systems: the superblock, directory entries, looking up paths, and reading files.
//!
//! Blocks of the device, directory listings and pieces of files come from outside; what they mean
//! is decided here.
use vstd::prelude::*;
use crate::bytes::{get_le16, get_le32, le16, le32, little_endian};
use crate::outside::{text_from_utf8_lossy, utf8_lossy};
use crate::text::{
    hex_padded, joined, pieces, push_hex, same_text, split_on, texts, trim_start, trimmed_start,
};

verus! {

/// The inode of the root directory.
pub const ROOT_INODE: u32 = 2;

/// The most that is read of a file at once.
pub const READ_LIMIT: u32 = 1_048_576;

// ---------------------------------------------------------------- blocks

/// An underlying reader, read block by block.
pub struct BlockDeviceWrapper<R> {
    inner: R,
    block_size: u32,
}

impl<R> BlockDeviceWrapper<R> {
    /// The underlying reader.
    pub closed spec fn reader(self) -> R {
        self.inner
    }

    /// The size of a block.
    pub closed spec fn size(self) -> u32 {
        self.block_size
    }

    pub fn new(inner: R, block_size: u32) -> (r: Self)
        ensures
            r.reader() == inner,
            r.size() == block_size,
    {
        BlockDeviceWrapper { inner, block_size }
    }

    /// Mutably borrow the underlying reader.
    pub fn inner_mut(&mut self) -> (r: &mut R)
        ensures
            *r == old(self).reader(),
            final(self).reader() == *final(r),
            final(self).size() == old(self).size(),
    {
        &mut self.inner
    }

    /// How many bytes a block has.
    pub fn block_size(&self) -> (r: u32)
        ensures
            r == self.size(),
    {
        self.block_size
    }

    /// The block whose first bytes are `got`: what could not be read is zero.
    pub fn read_offset(&self, got: &[u8]) -> (r: Vec<u8>)
        requires
            got@.len() <= self.size(),
        ensures
            r@ == got@ + Seq::new((self.size() - got@.len()) as nat, |i: int| 0u8),
    {
        let mut buf = vstd::slice::slice_to_vec(got);
        let rest = crate::bytes::zeros(self.block_size as usize - got.len());
        buf.extend_from_slice(rest.as_slice());
        assert(buf@ =~= got@ + rest@);
        buf
    }
}

// ---------------------------------------------------------------- superblock

/// Why an ext4 file system or a path in it cannot be used.
#[derive(Debug)]
pub enum Ext4Error {
    /// The superblock has another magic number.
    NotExt { magic: u16 },
    /// The path names nothing.
    PathNotFound { path: String },
}

impl Ext4Error {
    /// What an error message says.
    pub open spec fn text(self) -> Seq<char> {
        match self {
            Ext4Error::NotExt { magic } => "not an ext2/3/4 filesystem (magic "@ + hex_padded(
                magic as nat,
                4,
                true,
            ) + ")"@,
            Ext4Error::PathNotFound { path } => "Path not found: "@ + path@,
        }
    }

    /// The error message.
    pub fn message(&self) -> (r: String)
        ensures
            r@ == self.text(),
    {
        match self {
            Ext4Error::NotExt { magic } => {
                let mut s = "not an ext2/3/4 filesystem (magic ".to_owned();
                push_hex(&mut s, *magic as u64, 4, true);
                s.append(")");
                s
            },
            Ext4Error::PathNotFound { path } => {
                let mut s = "Path not found: ".to_owned();
                s.append(path.as_str());
                s
            },
        }
    }
}

/// An open file system: what its superblock says.
pub struct Ext4Fs {
    pub block_size: u32,
    pub inodes_per_group: u32,
    pub fs_type: String,
    pub total_blocks: u64,
}

/// What an open file system says, with its texts as sequences of characters.
pub struct Ext4View {
    pub block_size: u32,
    pub inodes_per_group: u32,
    pub fs_type: Seq<char>,
    pub total_blocks: u64,
}

impl View for Ext4Fs {
    type V = Ext4View;

    open spec fn view(&self) -> Ext4View {
        Ext4View {
            block_size: self.block_size,
            inodes_per_group: self.inodes_per_group,
            fs_type: self.fs_type@,
            total_blocks: self.total_blocks,
        }
    }
}

/// The magic number of a superblock.
pub open spec fn sb_magic(sb: Seq<u8>) -> int {
    le16(sb, 0x38)
}

/// The power of two by which a block is larger than 1024 bytes.
pub open spec fn sb_log_block_size(sb: Seq<u8>) -> int {
    le32(sb, 0x18)
}

/// The number of blocks: a low and a high half.
pub open spec fn sb_total_blocks(sb: Seq<u8>) -> int {
    le32(sb, 0x150) * 0x1_0000_0000 + le32(sb, 0x04)
}

/// The superblock names a feature that only ext4 has.
pub open spec fn sb_is_ext4(sb: Seq<u8>) -> bool {
    let features = le32(sb, 0x64) as u32;
    let ro_features = le32(sb, 0x68) as u32;
    features & 0x0040 != 0 || ro_features & 0x0002 != 0 || features & 0x0080 != 0
}

/// The file system that a superblock describes.
pub open spec fn described_fs(sb: Seq<u8>) -> Ext4View {
    Ext4View {
        block_size: 1024u32 << (sb_log_block_size(sb) as u32),
        inodes_per_group: le32(sb, 0x28) as u32,
        fs_type: if sb_is_ext4(sb) {
            "ext4"@
        } else {
            "ext2/3"@
        },
        total_blocks: sb_total_blocks(sb) as u64,
    }
}

/// The block size of a superblock can be computed: it is no ext superblock, or the shift is
/// below the width of a word.
pub open spec fn sb_shift_fits(sb: Seq<u8>) -> bool {
    sb_magic(sb) == 0xEF53 ==> sb_log_block_size(sb) < 32
}

/// Whether the block size of a superblock can be computed.
pub fn superblock_fits(sb: &[u8]) -> (r: bool)
    requires
        sb@.len() == 1024,
    ensures
        r == sb_shift_fits(sb@),
{
    get_le16(sb, 0x38) != 0xEF53 || get_le32(sb, 0x18) < 32
}

/// The block size is 1024 bytes times a power of two, as long as it is a 32-bit number.
pub proof fn law_block_size_is_a_power_of_two(sb: Seq<u8>)
    requires
        0 <= sb_log_block_size(sb) <= 21,
    ensures
        described_fs(sb).block_size == 1024 * vstd::arithmetic::power2::pow2(
            sb_log_block_size(sb) as nat,
        ),
{
    let n = sb_log_block_size(sb);
    vstd::arithmetic::power2::lemma_pow2_strictly_increases(n as nat, 22);
    vstd::arithmetic::power2::lemma2_to64();
    vstd::bits::lemma_u32_shl_is_mul(1024, n as u32);
}

// ---------------------------------------------------------------- directories

/// A directory entry as the file system stores it: the name in the first `name_len` bytes.
pub struct RawDirEntry {
    pub inode: u32,
    pub name: Vec<u8>,
    pub name_len: u8,
    pub inode_type: u8,
}

/// A directory entry.
#[derive(Clone, Debug)]
pub struct DirEntry {
    pub ino: u32,
    pub name: String,
    pub file_type: u8,
}

/// What a directory entry says.
pub struct DirEntryView {
    pub ino: u32,
    pub name: Seq<char>,
    pub file_type: u8,
}

impl View for DirEntry {
    type V = DirEntryView;

    open spec fn view(&self) -> DirEntryView {
        DirEntryView { ino: self.ino, name: self.name@, file_type: self.file_type }
    }
}

impl DirEntry {
    /// The entry with a name, whose inode is stored with this type.
    pub fn new(ino: u32, name: String, inode_type: u8) -> (r: Self)
        ensures
            r@ == (DirEntryView { ino, name: name@, file_type: known_type(inode_type) }),
    {
        let file_type: u8 = match inode_type {
            2 => 2,
            1 => 1,
            7 => 7,
            _ => 0,
        };
        DirEntry { ino, name, file_type }
    }
}

/// What the entries of a list say.
pub open spec fn listed(v: Seq<DirEntry>) -> Seq<DirEntryView> {
    v.map_values(|e: DirEntry| e@)
}

/// The name of a stored entry.
pub open spec fn raw_name(e: RawDirEntry) -> Seq<char> {
    utf8_lossy(e.name@.subrange(0, e.name_len as int))
}

/// The stored entries hold their names whole.
pub open spec fn whole(entries: Seq<RawDirEntry>) -> bool {
    forall|i: int|
        0 <= i < entries.len() ==> (#[trigger] entries[i]).name_len <= entries[i].name@.len()
}

/// The file type of an entry: directory (2), regular file (1), symbolic link (7), else 0.
pub open spec fn known_type(inode_type: u8) -> u8 {
    if inode_type == 2 || inode_type == 1 || inode_type == 7 {
        inode_type
    } else {
        0
    }
}

/// What a stored entry says.
pub open spec fn raw_says(e: RawDirEntry) -> DirEntryView {
    DirEntryView { ino: e.inode, name: raw_name(e), file_type: known_type(e.inode_type) }
}

/// The inode of the first entry with a given name.
pub open spec fn inode_named(entries: Seq<DirEntryView>, name: Seq<char>) -> Option<u32>
    decreases entries.len(),
{
    if entries.len() == 0 {
        None
    } else if entries[0].name == name {
        Some(entries[0].ino)
    } else {
        inode_named(entries.drop_first(), name)
    }
}

fn name_of(e: &RawDirEntry) -> (r: String)
    requires
        e.name_len <= e.name@.len(),
    ensures
        r@ == raw_name(*e),
{
    text_from_utf8_lossy(
        vstd::slice::slice_subrange(e.name.as_slice(), 0, e.name_len as usize),
    )
}

/// The inode of the first entry with a given name.
pub fn find_named(entries: &Vec<DirEntry>, name: &str) -> (r: Option<u32>)
    ensures
        r == inode_named(listed(entries@), name@),
{
    let mut i: usize = 0;
    let ghost all = listed(entries@);
    assert(all.skip(0) =~= all);
    while i < entries.len()
        invariant
            i <= entries.len(),
            all == listed(entries@),
            inode_named(all, name@) == inode_named(all.skip(i as int), name@),
        decreases entries.len() - i,
    {
        assert(all.skip(i as int)[0] == entries@[i as int]@);
        assert(all.skip(i as int).drop_first() =~= all.skip(i + 1));
        if same_text(entries[i].name.as_str(), name) {
            return Some(entries[i].ino);
        }
        i = i + 1;
    }
    None
}

// ---------------------------------------------------------------- paths

/// The components of a path below the root.
pub open spec fn components(path: Seq<char>) -> Seq<Seq<char>> {
    let below = trim_start(path, '/');
    if below.len() == 0 {
        seq![]
    } else {
        pieces(below, '/')
    }
}

/// The inode that a chain of names leads to from directory `ino`; 0 where a name is missing.
/// `dirs` lists each directory.
pub open spec fn resolved(
    dirs: spec_fn(u32) -> Seq<DirEntryView>,
    ino: u32,
    names: Seq<Seq<char>>,
) -> u32
    decreases names.len(),
{
    if names.len() == 0 {
        ino
    } else {
        match inode_named(dirs(ino), names[0]) {
            None => 0,
            Some(next) => resolved(dirs, next, names.drop_first()),
        }
    }
}

/// A lookup that has come to directory `inode` and has the names `rest` to go.
pub struct LookupState {
    pub inode: u32,
    pub rest: Seq<Seq<char>>,
    pub lost: bool,
}

/// The lookup needs no more directories.
pub open spec fn lookup_done(s: LookupState) -> bool {
    s.lost || s.rest.len() == 0
}

/// The lookup after the directory that it has come to was listed.
pub open spec fn lookup_step(s: LookupState, entries: Seq<DirEntryView>) -> LookupState {
    match inode_named(entries, s.rest[0]) {
        None => LookupState { lost: true, ..s },
        Some(next) => LookupState { inode: next, rest: s.rest.drop_first(), lost: false },
    }
}

/// The outcome of a lookup.
pub open spec fn lookup_outcome(s: LookupState) -> u32 {
    if s.lost {
        0
    } else {
        s.inode
    }
}

/// A lookup carried through, with `dirs` listing each directory that it asks for.
pub open spec fn lookup_run(dirs: spec_fn(u32) -> Seq<DirEntryView>, s: LookupState) -> LookupState
    decreases (if s.lost { 0 } else { s.rest.len() + 1 }),
{
    if lookup_done(s) {
        s
    } else {
        lookup_run(dirs, lookup_step(s, dirs(s.inode)))
    }
}

/// The start of a lookup.
pub open spec fn lookup_start(path: Seq<char>) -> LookupState {
    LookupState { inode: 2, rest: components(path), lost: false }
}

proof fn lemma_lookup_resolves(dirs: spec_fn(u32) -> Seq<DirEntryView>, s: LookupState)
    requires
        !s.lost,
    ensures
        lookup_outcome(lookup_run(dirs, s)) == resolved(dirs, s.inode, s.rest),
    decreases s.rest.len(),
{
    if s.rest.len() > 0 {
        let next = lookup_step(s, dirs(s.inode));
        if !next.lost {
            lemma_lookup_resolves(dirs, next);
        } else {
            assert(lookup_run(dirs, next) == next);
        }
    }
}

/// A lookup leads where the names of the path lead from the root.
pub proof fn law_lookup_resolves_path(dirs: spec_fn(u32) -> Seq<DirEntryView>, path: Seq<char>)
    ensures
        lookup_outcome(lookup_run(dirs, lookup_start(path))) == resolved(dirs, 2, components(path)),
{
    lemma_lookup_resolves(dirs, lookup_start(path));
}

/// A path of slashes alone is the root.
pub proof fn law_slashes_are_the_root(n: nat)
    ensures
        components(Seq::new(n, |i: int| '/')) == Seq::<Seq<char>>::empty(),
    decreases n,
{
    let s = Seq::new(n, |i: int| '/');
    if n > 0 {
        assert(s.drop_first() =~= Seq::new((n - 1) as nat, |i: int| '/'));
        law_slashes_are_the_root((n - 1) as nat);
    }
}

/// Slashes in front of a path make no difference.
pub proof fn law_leading_slash_is_ignored(path: Seq<char>)
    ensures
        components(seq!['/'] + path) == components(path),
{
    assert((seq!['/'] + path).drop_first() =~= path);
}

/// Looking up a path, directory by directory.
pub struct PathLookup {
    names: Vec<String>,
    next: usize,
    inode: u32,
    lost: bool,
}

impl View for PathLookup {
    type V = LookupState;

    closed spec fn view(&self) -> LookupState {
        LookupState {
            inode: self.inode,
            rest: texts(self.names@).skip(self.next as int),
            lost: self.lost,
        }
    }
}

impl PathLookup {
    #[verifier::type_invariant]
    closed spec fn sound(self) -> bool {
        self.next <= self.names@.len()
    }

    /// The directory that the lookup needs listed; none where it is done.
    pub fn wants(&self) -> (r: Option<u32>)
        ensures
            r == (if lookup_done(self@) {
                None
            } else {
                Some(self@.inode)
            }),
    {
        proof {
            use_type_invariant(self);
        }
        if self.lost || self.next >= self.names.len() {
            None
        } else {
            Some(self.inode)
        }
    }

    /// Goes on with the entries of the directory that the lookup wants.
    pub fn feed(&mut self, entries: &Vec<DirEntry>)
        requires
            !lookup_done(old(self)@),
        ensures
            final(self)@ == lookup_step(old(self)@, listed(entries@)),
    {
        proof {
            use_type_invariant(&*self);
        }
        let ghost rest = self@.rest;
        assert(self.next < self.names.len());
        assert(rest[0] == self.names@[self.next as int]@);
        match find_named(entries, self.names[self.next].as_str()) {
            None => {
                self.lost = true;
            },
            Some(next) => {
                self.inode = next;
                self.next = self.next + 1;
                assert(rest.drop_first() =~= texts(self.names@).skip(self.next as int));
            },
        }
    }

    /// The inode that the path leads to; 0 where it leads nowhere.
    pub fn outcome(&self) -> (r: u32)
        ensures
            r == lookup_outcome(self@),
    {
        if self.lost {
            0
        } else {
            self.inode
        }
    }
}

// ---------------------------------------------------------------- files

/// The mode of an inode is that of a regular file.
pub open spec fn is_regular(mode: u16) -> bool {
    mode & 0xF000 == 0x8000
}

/// The size that an inode stores in two halves.
pub open spec fn stored_size(size_lo: u32, size_hi: u32) -> u64 {
    (size_hi * 0x1_0000_0000 + size_lo) as u64
}

/// The piece to read next of a file of `size` bytes of which `got` are there: a place and a
/// length. None where all are there.
pub open spec fn next_piece(size: u64, got: nat) -> Option<(u64, u32)> {
    if got >= size {
        None
    } else if size - got < READ_LIMIT {
        Some((got as u64, (size - got) as u32))
    } else {
        Some((got as u64, READ_LIMIT))
    }
}

/// A file that is being read piece by piece: what there is of it, and whether no more is to come.
pub struct FileReadState {
    pub size: u64,
    pub data: Seq<u8>,
    pub over: bool,
}

/// The start of reading a file.
pub open spec fn file_read_start(size: u64) -> FileReadState {
    FileReadState { size, data: seq![], over: false }
}

/// The piece that the reading of a file needs; none where it is done.
pub open spec fn wanted_piece(s: FileReadState) -> Option<(u64, u32)> {
    if s.over {
        None
    } else {
        next_piece(s.size, s.data.len())
    }
}

/// The reading after a piece: the piece goes behind what there is. An empty piece ends the
/// reading, and a piece that could not be read leaves nothing.
pub open spec fn piece_added(s: FileReadState, piece: Option<Seq<u8>>) -> FileReadState {
    match piece {
        Some(p) => FileReadState { data: s.data + p, over: p.len() == 0, ..s },
        None => FileReadState { data: seq![], over: true, ..s },
    }
}

/// The reading of a file with the contents `file` carried through.
pub open spec fn file_read_run(file: Seq<u8>, s: FileReadState) -> FileReadState
    decreases s.size - s.data.len(),
{
    match wanted_piece(s) {
        Some((at, len)) => if at + len <= file.len() {
            file_read_run(file, piece_added(s, Some(file.subrange(at as int, at + len))))
        } else {
            s
        },
        None => s,
    }
}

/// What there is of a file is its start: a piece of the file at the place that was asked for
/// goes on with it, however much of it came. With nothing more to ask for, the file is whole.
pub proof fn law_pieces_go_on_with_the_file(file: Seq<u8>, s: FileReadState, n: int)
    requires
        s.size == file.len(),
        s.data.len() <= file.len(),
        s.data == file.take(s.data.len() as int),
        !s.over,
        wanted_piece(s) matches Some((_, len)) ==> 0 < n <= len,
    ensures
        match wanted_piece(s) {
            Some((at, _)) => {
                let t = piece_added(s, Some(file.subrange(at as int, at + n)));
                &&& at == s.data.len()
                &&& t.data.len() == s.data.len() + n <= file.len()
                &&& t.data == file.take(t.data.len() as int)
                &&& !t.over
            },
            None => s.data == file,
        },
{
    match wanted_piece(s) {
        Some((at, _)) => {
            assert(s.data + file.subrange(at as int, at + n) =~= file.take(at + n));
        },
        None => {
            assert(file.take(s.data.len() as int) =~= file);
        },
    }
}

proof fn lemma_reading_gives_the_rest(file: Seq<u8>, s: FileReadState)
    requires
        s.size == file.len(),
        s.data.len() <= file.len(),
        s.data == file.take(s.data.len() as int),
        !s.over,
    ensures
        file_read_run(file, s).data == file,
    decreases s.size - s.data.len(),
{
    match wanted_piece(s) {
        Some((at, len)) => {
            law_pieces_go_on_with_the_file(file, s, len as int);
            lemma_reading_gives_the_rest(
                file,
                piece_added(s, Some(file.subrange(at as int, at + len))),
            );
        },
        None => {
            law_pieces_go_on_with_the_file(file, s, 0);
        },
    }
}

/// The pieces of a file, read one after the other, make the whole file, however long it is.
pub proof fn law_pieces_make_the_file(file: Seq<u8>)
    requires
        file.len() <= u64::MAX,
    ensures
        file_read_run(file, file_read_start(file.len() as u64)).data == file,
{
    assert(file.take(0) =~= seq![]);
    lemma_reading_gives_the_rest(file, file_read_start(file.len() as u64));
}

/// A file that is being read piece by piece.
pub struct FileRead {
    size: u64,
    data: Vec<u8>,
    over: bool,
}

impl View for FileRead {
    type V = FileReadState;

    closed spec fn view(&self) -> FileReadState {
        FileReadState { size: self.size, data: self.data@, over: self.over }
    }
}

impl FileRead {
    /// The place and the length of the piece that the reading needs; none where it is done.
    pub fn wants(&self) -> (r: Option<(u64, u32)>)
        ensures
            r == wanted_piece(self@),
    {
        let got = self.data.len() as u64;
        if self.over || got >= self.size {
            None
        } else if self.size - got < READ_LIMIT as u64 {
            Some((got, (self.size - got) as u32))
        } else {
            Some((got, READ_LIMIT))
        }
    }

    /// Goes on with the piece that the reading needs, or the failure to read it.
    pub fn feed<E>(&mut self, piece: Result<Vec<u8>, E>)
        requires
            wanted_piece(old(self)@) is Some,
        ensures
            final(self)@ == piece_added(
                old(self)@,
                match piece {
                    Ok(p) => Some(p@),
                    Err(_) => None,
                },
            ),
    {
        match piece {
            Ok(p) => {
                self.data.extend_from_slice(p.as_slice());
                self.over = p.len() == 0;
                assert(self.data@ =~= old(self)@.data + p@);
            },
            Err(_) => {
                self.data.clear();
                self.over = true;
                assert(self.data@ =~= seq![]);
            },
        }
    }

    /// What there is of the file.
    pub fn contents(self) -> (r: Vec<u8>)
        ensures
            r@ == self@.data,
    {
        self.data
    }
}

// ---------------------------------------------------------------- file system

impl Ext4Fs {
    /// Open an ext4 filesystem from its superblock, the 1024 bytes from offset 1024 on.
    pub fn open(sb: &[u8]) -> (r: Result<Self, Ext4Error>)
        requires
            sb@.len() == 1024,
            sb_shift_fits(sb@),
        ensures
            match r {
                Ok(fs) => sb_magic(sb@) == 0xEF53 && fs@ == described_fs(sb@),
                Err(e) => sb_magic(sb@) != 0xEF53 && e == (Ext4Error::NotExt {
                    magic: sb_magic(sb@) as u16,
                }),
            },
    {
        let magic = get_le16(sb, 0x38);
        if magic != 0xEF53 {
            return Err(Ext4Error::NotExt { magic });
        }
        let log_block_size = get_le32(sb, 0x18);
        let block_size = 1024u32 << log_block_size;
        let inodes_per_group = get_le32(sb, 0x28);
        let blocks_lo = get_le32(sb, 0x04);
        let blocks_hi = get_le32(sb, 0x150);
        let total_blocks = blocks_hi as u64 * 0x1_0000_0000 + blocks_lo as u64;
        let features = get_le32(sb, 0x64);
        let ro_features = get_le32(sb, 0x68);
        let is_ext4 = features & 0x0040 != 0 || ro_features & 0x0002 != 0 || features & 0x0080 != 0;
        let fs_type = if is_ext4 {
            "ext4".to_owned()
        } else {
            "ext2/3".to_owned()
        };
        Ok(Ext4Fs { block_size, inodes_per_group, fs_type, total_blocks })
    }

    /// The entries of a directory, from the entries that the file system stores.
    pub fn read_directory(&self, entries: &Vec<RawDirEntry>) -> (r: Vec<DirEntry>)
        requires
            whole(entries@),
        ensures
            listed(r@) == entries@.map_values(|e: RawDirEntry| raw_says(e)),
    {
        let mut result: Vec<DirEntry> = Vec::new();
        let mut i: usize = 0;
        while i < entries.len()
            invariant
                i <= entries.len(),
                whole(entries@),
                result.len() == i,
                forall|k: int| 0 <= k < i ==> (#[trigger] result@[k])@ == raw_says(entries@[k]),
            decreases entries.len() - i,
        {
            let e = &entries[i];
            result.push(DirEntry::new(e.inode, name_of(e), e.inode_type));
            i = i + 1;
        }
        assert(listed(result@) =~= entries@.map_values(|e: RawDirEntry| raw_says(e)));
        result
    }

    /// Check if an inode is a directory: whether it lists any entry.
    pub fn is_dir(&self, entries: &Vec<RawDirEntry>) -> (r: bool)
        ensures
            r == (entries@.len() > 0),
    {
        entries.len() > 0
    }

    /// Get file size for an inode (regular files only), from its mode and the two halves of the
    /// size that it stores.
    pub fn file_size(&self, mode: u16, size_lo: u32, size_hi: u32) -> (r: Option<u64>)
        ensures
            r == (if is_regular(mode) {
                Some(stored_size(size_lo, size_hi))
            } else {
                None
            }),
    {
        if mode & 0xF000 == 0x8000 {
            Some(size_hi as u64 * 0x1_0000_0000 + size_lo as u64)
        } else {
            None
        }
    }

    /// Read a file's contents, of which its inode says that they have `size` bytes.
    pub fn read_file(&self, size: u64) -> (r: FileRead)
        ensures
            r@ == file_read_start(size),
    {
        FileRead { size, data: Vec::new(), over: false }
    }

    /// Look up an inode number by path.
    pub fn lookup_inode(&self, path: &str) -> (r: PathLookup)
        ensures
            r@ == lookup_start(path@),
    {
        let below = trimmed_start(path, '/');
        if below.as_str().is_empty() {
            let names: Vec<String> = Vec::new();
            let r = PathLookup { names, next: 0, inode: ROOT_INODE, lost: false };
            assert(r@.rest =~= components(path@));
            r
        } else {
            let r = PathLookup {
                names: split_on(below.as_str(), '/'),
                next: 0,
                inode: ROOT_INODE,
                lost: false,
            };
            assert(r@.rest =~= components(path@));
            r
        }
    }

    /// The directory to read for a path whose lookup gave `ino`.
    pub fn read_directory_str(&self, path: &str, ino: u32) -> (r: Result<u32, Ext4Error>)
        ensures
            match r {
                Ok(dir) => ino != 0 && dir == ino,
                Err(e) => ino == 0 && e is PathNotFound && e->path@ == path@,
            },
    {
        if ino == 0 {
            Err(Ext4Error::PathNotFound { path: path.to_owned() })
        } else {
            Ok(ino)
        }
    }

    /// Get block size.
    pub fn block_size(&self) -> (r: u32)
        ensures
            r == self@.block_size,
    {
        self.block_size
    }

    pub fn inodes_per_group(&self) -> (r: u32)
        ensures
            r == self@.inodes_per_group,
    {
        self.inodes_per_group
    }

    pub fn fs_type(&self) -> (r: &str)
        ensures
            r@ == self@.fs_type,
    {
        self.fs_type.as_str()
    }

    pub fn total_blocks(&self) -> (r: u64)
        ensures
            r == self@.total_blocks,
    {
        self.total_blocks
    }
}

// ---------------------------------------------------------------- what paths and names mean

/// The first entry of a list with a name, if there is one, gives the inode; entries before it
/// have other names.
pub open spec fn first_named(entries: Seq<DirEntryView>, name: Seq<char>, ino: u32) -> bool {
    exists|i: int|
        0 <= i < entries.len() && (#[trigger] entries[i]).name == name && entries[i].ino == ino && (
        forall|j: int| 0 <= j < i ==> (#[trigger] entries[j]).name != name)
}

/// A name is looked up as the first entry that has it, and not found only where none has it.
pub proof fn law_names_are_found_first(entries: Seq<DirEntryView>, name: Seq<char>)
    ensures
        inode_named(entries, name) matches Some(ino) ==> first_named(entries, name, ino),
        inode_named(entries, name) is None <==> forall|i: int|
            0 <= i < entries.len() ==> (#[trigger] entries[i]).name != name,
        forall|ino: u32|
            #[trigger] first_named(entries, name, ino) ==> inode_named(entries, name) == Some(ino),
    decreases entries.len(),
{
    if entries.len() > 0 {
        let rest = entries.drop_first();
        law_names_are_found_first(rest, name);
        if entries[0].name == name {
            assert(first_named(entries, name, entries[0].ino));
        } else {
            assert forall|i: int| 0 <= i < rest.len() implies rest[i] == #[trigger] entries[i
                + 1] by {}
            if let Some(ino) = inode_named(rest, name) {
                let i = choose|i: int|
                    0 <= i < rest.len() && (#[trigger] rest[i]).name == name && rest[i].ino == ino
                        && (forall|j: int| 0 <= j < i ==> (#[trigger] rest[j]).name != name);
                assert(entries[i + 1].name == name && entries[i + 1].ino == ino);
                assert forall|j: int| 0 <= j < i + 1 implies (#[trigger] entries[j]).name
                    != name by {
                    if j > 0 {
                        assert(rest[j - 1].name != name);
                    }
                }
            } else {
                assert forall|i: int| 0 <= i < entries.len() implies (#[trigger] entries[i]).name
                    != name by {
                    if i > 0 {
                        assert(rest[i - 1].name != name);
                    }
                }
            }
            assert forall|ino: u32| #[trigger]
                first_named(entries, name, ino) implies inode_named(entries, name) == Some(ino) by {
                let i = choose|i: int|
                    0 <= i < entries.len() && (#[trigger] entries[i]).name == name && entries[i].ino
                        == ino && (forall|j: int|
                        0 <= j < i ==> (#[trigger] entries[j]).name != name);
                assert(rest[i - 1] == entries[i]);
                assert forall|j: int| 0 <= j < i - 1 implies (#[trigger] rest[j]).name != name by {
                    assert(rest[j] == entries[j + 1]);
                }
                assert(first_named(rest, name, ino));
            }
        }
    }
}

/// The components of a path, with slashes between them, are the path without its leading
/// slashes; none holds a slash. Only a path of slashes alone has none.
pub proof fn law_components_make_the_path(path: Seq<char>)
    ensures
        ({
            let names = components(path);
            let below = joined(names, '/');
            &&& below.len() <= path.len()
            &&& below == path.skip(path.len() - below.len())
            &&& forall|i: int| 0 <= i < path.len() - below.len() ==> #[trigger] path[i] == '/'
            &&& below.len() > 0 ==> below[0] != '/'
            &&& names.len() == 0 <==> below.len() == 0
            &&& forall|k: int| 0 <= k < names.len() ==> !(#[trigger] names[k]).contains('/')
        }),
{
    let below = trim_start(path, '/');
    crate::text::law_trimmed_start_is_a_run(path, '/');
    if below.len() > 0 {
        crate::text::law_pieces_make_the_text(below, '/');
    } else {
        assert(joined(components(path), '/') =~= below);
    }
}

/// The path of some names, joined by slashes, behind as many slashes as one likes.
pub open spec fn path_of(leading: nat, names: Seq<Seq<char>>) -> Seq<char> {
    Seq::new(leading, |i: int| '/') + joined(names, '/')
}

proof fn lemma_components_of_names(leading: nat, names: Seq<Seq<char>>)
    requires
        names.len() > 0,
        names[0].len() > 0,
        forall|k: int| 0 <= k < names.len() ==> !(#[trigger] names[k]).contains('/'),
    ensures
        components(path_of(leading, names)) == names,
    decreases leading,
{
    let path = path_of(leading, names);
    let below = joined(names, '/');
    if leading > 0 {
        lemma_components_of_names((leading - 1) as nat, names);
        assert(path.drop_first() =~= path_of((leading - 1) as nat, names));
    } else {
        assert(path =~= below);
        lemma_joined_starts(names);
        assert(names[0].contains(names[0][0]));
        assert(trim_start(below, '/') == below);
        crate::text::law_joined_names_are_the_pieces(names, '/');
    }
}

proof fn lemma_joined_starts(names: Seq<Seq<char>>)
    requires
        names.len() > 0,
        names[0].len() > 0,
    ensures
        joined(names, '/').len() > 0,
        joined(names, '/')[0] == names[0][0],
    decreases names.len(),
{
    if names.len() > 1 {
        lemma_joined_starts(names.drop_last());
    }
}

/// `way` leads through the directories: it starts at the root, and each inode is that of the
/// first entry of the one before it with the next of the names.
pub open spec fn leads_along(
    dirs: spec_fn(u32) -> Seq<DirEntryView>,
    names: Seq<Seq<char>>,
    way: Seq<u32>,
) -> bool {
    &&& 0 < way.len() <= names.len() + 1
    &&& way[0] == 2
    &&& forall|k: int|
        0 <= k < way.len() - 1 ==> first_named(dirs(way[k]), names[k], #[trigger] way[k + 1])
}

proof fn lemma_resolved_follows(
    dirs: spec_fn(u32) -> Seq<DirEntryView>,
    names: Seq<Seq<char>>,
    way: Seq<u32>,
    k: int,
)
    requires
        leads_along(dirs, names, way),
        0 <= k < way.len(),
    ensures
        resolved(dirs, 2, names) == resolved(dirs, way[k], names.skip(k)),
    decreases k,
{
    if k == 0 {
        assert(names.skip(0) =~= names);
    } else {
        lemma_resolved_follows(dirs, names, way, k - 1);
        assert(first_named(dirs(way[k - 1]), names[k - 1], way[k - 1 + 1]));
        law_names_are_found_first(dirs(way[k - 1]), names[k - 1]);
        assert(names.skip(k - 1)[0] == names[k - 1]);
        assert(names.skip(k - 1).drop_first() =~= names.skip(k));
    }
}

/// A lookup that is carried through follows all names of a path, however many there are: it
/// gives the inode where the way along them ends, and 0 where a directory on the way lists no
/// entry with the next name.
pub proof fn law_lookup_follows_every_name(
    dirs: spec_fn(u32) -> Seq<DirEntryView>,
    leading: nat,
    names: Seq<Seq<char>>,
    way: Seq<u32>,
)
    requires
        names.len() > 0,
        names[0].len() > 0,
        forall|k: int| 0 <= k < names.len() ==> !(#[trigger] names[k]).contains('/'),
        leads_along(dirs, names, way),
    ensures
        ({
            let outcome = lookup_outcome(lookup_run(dirs, lookup_start(path_of(leading, names))));
            &&& way.len() == names.len() + 1 ==> outcome == way.last()
            &&& way.len() <= names.len() && (forall|i: int|
                0 <= i < dirs(way.last()).len() ==> (#[trigger] dirs(way.last())[i]).name
                    != names[way.len() - 1]) ==> outcome == 0
        }),
{
    let path = path_of(leading, names);
    law_lookup_resolves_path(dirs, path);
    lemma_components_of_names(leading, names);
    let n = way.len() - 1;
    lemma_resolved_follows(dirs, names, way, n);
    if way.len() == names.len() + 1 {
        assert(names.skip(n) =~= seq![]);
    } else {
        assert(names.skip(n)[0] == names[n]);
        let entries = dirs(way.last());
        law_names_are_found_first(entries, names[n]);
        if forall|i: int| 0 <= i < entries.len() ==> (#[trigger] entries[i]).name != names[n] {
            assert(resolved(dirs, way[n], names.skip(n)) == 0);
        }
    }
}

/// A lookup of slashes alone, or of nothing, gives the root.
pub proof fn law_lookup_of_slashes_is_the_root(
    dirs: spec_fn(u32) -> Seq<DirEntryView>,
    leading: nat,
)
    ensures
        lookup_outcome(lookup_run(dirs, lookup_start(Seq::new(leading, |i: int| '/')))) == 2,
{
    law_slashes_are_the_root(leading);
}

// ---------------------------------------------------------------- what inodes and blocks mean

/// What a superblock says: 53 EF at 0x38 makes it one, and the numbers in it have their lowest
/// byte first. The blocks are counted in two halves, at 0x04 and 0x150.
pub proof fn law_superblock_is_read(sb: Seq<u8>)
    requires
        sb.len() == 1024,
    ensures
        sb_magic(sb) == 0xEF53 <==> sb[0x38] == 0x53 && sb[0x39] == 0xEF,
        sb_magic(sb) == little_endian(sb.subrange(0x38, 0x3a)),
        described_fs(sb).inodes_per_group == little_endian(sb.subrange(0x28, 0x2c)),
        described_fs(sb).total_blocks == little_endian(sb.subrange(0x04, 0x08)) + 0x1_0000_0000
            * little_endian(sb.subrange(0x150, 0x154)),
        sb_log_block_size(sb) == little_endian(sb.subrange(0x18, 0x1c)),
        sb_shift_fits(sb) <==> sb[0x38] != 0x53 || sb[0x39] != 0xEF || little_endian(
            sb.subrange(0x18, 0x1c),
        ) < 32,
{
    crate::bytes::law_numbers_are_their_bytes(sb, 0x38);
    crate::bytes::law_numbers_are_their_bytes(sb, 0x28);
    crate::bytes::law_numbers_are_their_bytes(sb, 0x04);
    crate::bytes::law_numbers_are_their_bytes(sb, 0x150);
    crate::bytes::law_numbers_are_their_bytes(sb, 0x18);
}

/// The block size is 1024 bytes, doubled as often as the four bytes at 0x18 say.
pub proof fn law_block_size_doubles(sb: Seq<u8>, n: nat)
    requires
        sb.len() == 1024,
        n <= 21,
        little_endian(sb.subrange(0x18, 0x1c)) == n,
    ensures
        described_fs(sb).block_size == 1024 * vstd::arithmetic::power2::pow2(n),
{
    crate::bytes::law_numbers_are_their_bytes(sb, 0x18);
    law_block_size_is_a_power_of_two(sb);
}

/// A file system is called ext4 where bit 6 or 7 of byte 0x64 or bit 1 of byte 0x68 is set, and
/// ext2/3 otherwise.
pub proof fn law_ext4_is_told_by_its_features(sb: Seq<u8>)
    requires
        sb.len() == 1024,
    ensures
        described_fs(sb).fs_type == (if sb[0x64] as int / 64 % 2 == 1 || sb[0x64] as int / 128 % 2
            == 1 || sb[0x68] as int / 2 % 2 == 1 {
            "ext4"@
        } else {
            "ext2/3"@
        }),
{
    let f = le32(sb, 0x64) as u32;
    let r = le32(sb, 0x68) as u32;
    assert(f % 256 == sb[0x64]);
    assert(r % 256 == sb[0x68]);
    assert((f & 0x0040 != 0) == ((f % 256) / 64 % 2 == 1)) by (bit_vector);
    assert((f & 0x0080 != 0) == ((f % 256) / 128 % 2 == 1)) by (bit_vector);
    assert((r & 0x0002 != 0) == ((r % 256) / 2 % 2 == 1)) by (bit_vector);
}

/// A stored entry is listed with its inode and with as many bytes of its name as it says; the
/// types 1, 2 and 7 are kept, and any other is 0.
pub proof fn law_stored_entry_is_listed(e: RawDirEntry)
    requires
        e.name_len <= e.name@.len(),
    ensures
        raw_says(e).ino == e.inode,
        raw_says(e).name == utf8_lossy(e.name@.take(e.name_len as int)),
        e.inode_type == 1 || e.inode_type == 2 || e.inode_type == 7 ==> raw_says(e).file_type
            == e.inode_type,
        e.inode_type != 1 && e.inode_type != 2 && e.inode_type != 7 ==> raw_says(e).file_type == 0,
{
    assert(e.name@.subrange(0, e.name_len as int) =~= e.name@.take(e.name_len as int));
}

/// An inode is that of a regular file where the highest four bits of its mode are 8, and its
/// size counts both halves.
pub proof fn law_regular_files_have_their_size(mode: u16, size_lo: u32, size_hi: u32)
    ensures
        is_regular(mode) <==> mode / 4096 == 8,
        stored_size(size_lo, size_hi) == size_lo + 0x1_0000_0000 * size_hi,
{
    assert((mode & 0xF000 == 0x8000) == (mode / 4096 == 8)) by (bit_vector);
    assert(0 <= size_hi * 0x1_0000_0000 + size_lo <= u64::MAX);
}

/// A file is read from where the reading has come to, up to 1048576 bytes at a time, until all
/// of it is there; a piece goes behind what there is, and a failure leaves nothing.
pub proof fn law_files_are_read_in_pieces(s: FileReadState, piece: Seq<u8>)
    ensures
        !s.over && s.data.len() < s.size ==> (wanted_piece(s) matches Some((at, len)) && at
            == s.data.len() && 0 < len <= 1_048_576 && at + len <= s.size && (len == 1_048_576 || at
            + len == s.size)),
        s.over || s.data.len() >= s.size ==> wanted_piece(s) is None,
        piece_added(s, Some(piece)).data == s.data + piece,
        piece_added(s, Some(piece)).over <==> piece.len() == 0,
        piece_added(s, Some(piece)).size == s.size,
        piece_added(s, None).data.len() == 0,
        wanted_piece(piece_added(s, None)) is None,
        file_read_start(s.size).data.len() == 0,
        file_read_start(s.size).size == s.size,
        !file_read_start(s.size).over,
{
}

/// A block size that is no 32-bit number has no bit left.
pub proof fn law_too_large_blocks_are_zero(sb: Seq<u8>, n: u32)
    requires
        sb.len() == 1024,
        22 <= n < 32,
        little_endian(sb.subrange(0x18, 0x1c)) == n,
    ensures
        described_fs(sb).block_size == 0,
{
    crate::bytes::law_numbers_are_their_bytes(sb, 0x18);
    assert(1024u32 << n == 0) by (bit_vector)
        requires
            22 <= n < 32,
    ;
}

/// The entries of a list are shown one by one, each with all that it says.
pub proof fn law_entries_are_listed_one_by_one(v: Seq<DirEntry>, i: int)
    requires
        0 <= i < v.len(),
    ensures
        listed(v).len() == v.len(),
        listed(v)[i].ino == v[i].ino,
        listed(v)[i].name == v[i].name@,
        listed(v)[i].file_type == v[i].file_type,
{
}

/// What is said of a superblock with another magic number tells that in four digits, and what is
/// said of a path that names nothing tells the path.
pub proof fn law_messages_tell_the_error(magic: u16, path: String)
    ensures
        ({
            let text = (Ext4Error::NotExt { magic }).text();
            let digits = text.subrange(34, 38);
            &&& text.len() == 39
            &&& text.take(34) == "not an ext2/3/4 filesystem (magic "@
            &&& crate::text::number_in(16, digits) == magic
            &&& text[38] == ')'
        }),
        (Ext4Error::PathNotFound { path }).text() == "Path not found: "@ + path@,
{
    reveal_strlit("not an ext2/3/4 filesystem (magic ");
    reveal_strlit(")");
    assert(vstd::arithmetic::power::pow(16, 4) == 0x1_0000) by {
        reveal_with_fuel(vstd::arithmetic::power::pow, 5);
    }
    let hex = hex_padded(magic as nat, 4, true);
    crate::text::law_hexadecimal_has_its_width(magic as nat, 4, true);
    crate::text::law_hexadecimal_is_the_number(magic as nat, 4, true);
    let text = (Ext4Error::NotExt { magic }).text();
    assert(text.subrange(34, 38) =~= hex);
    assert(text.take(34) =~= "not an ext2/3/4 filesystem (magic "@);
}

} // verus!
