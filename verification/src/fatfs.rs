//! FAT file systems: the boot sector and directory listings.
use vstd::prelude::*;
use crate::bytes::{get_le16, get_le32, le16, le32, little_endian};
use crate::text::same_text;

verus! {

/// Why a FAT file system cannot be opened.
#[derive(Clone, Copy, Debug, PartialEq, Eq, Structural)]
pub enum FatError {
    /// The boot sector does not end with 55 AA.
    InvalidBootSignature,
}

impl FatError {
    /// The error message.
    pub fn message(&self) -> (r: String)
        ensures
            r@ == "not a FAT filesystem (invalid boot signature)"@,
    {
        "not a FAT filesystem (invalid boot signature)".to_owned()
    }
}

/// An open FAT file system.
pub struct FatFs {
    /// FAT12, FAT16, or FAT32
    pub fs_type: String,
}

/// A directory entry.
#[derive(Clone, Debug)]
pub struct DirEntry {
    pub ino: u32,
    pub name: String,
    pub file_type: u8,
}

/// An entry as the file system lists it.
pub struct FatItem {
    pub name: String,
    pub is_dir: bool,
}

/// The 16-bit number at `narrow`, or the 32-bit one at `wide` where that is zero.
pub open spec fn count_at(bpb: Seq<u8>, narrow: int, wide: int) -> int {
    if le16(bpb, narrow) != 0 {
        le16(bpb, narrow)
    } else {
        le32(bpb, wide)
    }
}

/// The kind of FAT file system that the program shows. It looks at the bytes from 13 and 19 on,
/// and at those from 7 and 24 on, counted from offset 11 of the boot sector. These are not the
/// fields of a BIOS parameter block that hold the number of sectors and the sectors of a table.
pub open spec fn fat_kind(bpb: Seq<u8>) -> Seq<char> {
    let size = count_at(bpb, 13, 19);
    if size < 4084 {
        "FAT12"@
    } else if size < 65536 && count_at(bpb, 7, 24) == 0 {
        "FAT16"@
    } else {
        "FAT32"@
    }
}

/// The path is the root directory.
pub open spec fn is_root(path: Seq<char>) -> bool {
    path.len() == 0 || path == "/"@
}

/// `e` is the entry that is listed as `item`: 2 for a directory, 1 for a file, and no inode.
pub open spec fn lists(e: DirEntry, item: FatItem) -> bool {
    &&& e.ino == 0
    &&& e.name@ == item.name@
    &&& e.file_type == (if item.is_dir { 2u8 } else { 1u8 })
}

/// Entry `i` is the first that could not be read.
pub open spec fn fails_first<E>(items: Seq<Result<FatItem, E>>, i: int) -> bool {
    &&& 0 <= i < items.len()
    &&& items[i] is Err
    &&& forall|j: int| 0 <= j < i ==> (#[trigger] items[j]) is Ok
}

/// Whether a path is the root directory, which needs no opening.
pub fn names_root(path: &str) -> (r: bool)
    ensures
        r == is_root(path@),
{
    path.is_empty() || same_text(path, "/")
}

fn get_count(bpb: &[u8], narrow: usize, wide: usize) -> (r: u32)
    requires
        narrow + 2 <= bpb@.len(),
        wide + 4 <= bpb@.len(),
    ensures
        r == count_at(bpb@, narrow as int, wide as int),
{
    let short = get_le16(bpb, narrow);
    if short != 0 {
        short as u32
    } else {
        get_le32(bpb, wide)
    }
}

impl FatFs {
    /// Open a FAT filesystem from the last two bytes of its boot sector and the 90 bytes from
    /// offset 11 on, where its BIOS parameter block starts.
    pub fn open(boot_sig: &[u8], bpb: &[u8]) -> (r: Result<Self, FatError>)
        requires
            boot_sig@.len() == 2,
            bpb@.len() == 90,
        ensures
            match r {
                Ok(fs) => boot_sig@ == seq![0x55u8, 0xAA] && fs.fs_type@ == fat_kind(bpb@),
                Err(e) => boot_sig@ != seq![0x55u8, 0xAA] && e == FatError::InvalidBootSignature,
            },
    {
        if boot_sig[0] != 0x55 || boot_sig[1] != 0xAA {
            return Err(FatError::InvalidBootSignature);
        }
        assert(boot_sig@ =~= seq![0x55u8, 0xAA]);
        let size = get_count(bpb, 13, 19);
        let table = get_count(bpb, 7, 24);
        let fs_type = if size < 4084 {
            "FAT12".to_owned()
        } else if size < 65536 && table == 0 {
            "FAT16".to_owned()
        } else {
            "FAT32".to_owned()
        };
        Ok(FatFs { fs_type })
    }

    /// The entries of a directory, from what the file system lists; the first entry that could
    /// not be read is the error.
    pub fn read_directory<E>(&self, items: Vec<Result<FatItem, E>>) -> (r: Result<
        Vec<DirEntry>,
        E,
    >)
        ensures
            match r {
                Ok(entries) => {
                    &&& entries@.len() == items@.len()
                    &&& forall|i: int|
                        0 <= i < items@.len() ==> (#[trigger] items@[i]) is Ok && lists(
                            entries@[i],
                            items@[i]->Ok_0,
                        )
                },
                Err(e) => exists|i: int| fails_first(items@, i) && items@[i]->Err_0 == e,
            },
    {
        let mut entries: Vec<DirEntry> = Vec::new();
        for item in it: items
            invariant
                it.seq() == items@,
                entries.len() == it.index(),
                forall|i: int|
                    0 <= i < it.index() ==> (#[trigger] items@[i]) is Ok && lists(
                        entries@[i],
                        items@[i]->Ok_0,
                    ),
        {
            match item {
                Ok(entry) => {
                    let file_type: u8 = if entry.is_dir {
                        2
                    } else {
                        1
                    };
                    entries.push(DirEntry { ino: 0, name: entry.name, file_type });
                },
                Err(e) => {
                    assert(fails_first(items@, it.index()));
                    return Err(e);
                },
            }
        }
        Ok(entries)
    }

    /// Check if a path is a directory: the root is, and any other that opens as one.
    pub fn is_dir(&self, path: &str, opens: bool) -> (r: bool)
        ensures
            r == (is_root(path@) || opens),
    {
        names_root(path) || opens
    }
}

/// The kind that is shown goes by two counts, each of two bytes or, where these are zero, of
/// four: below 4084 by the first it is FAT12; below 65536, with zero as the second, FAT16; and
/// FAT32 otherwise.
pub proof fn law_kind_goes_by_two_counts(bpb: Seq<u8>)
    requires
        bpb.len() == 90,
    ensures
        ({
            let size = if bpb[13] != 0 || bpb[14] != 0 {
                little_endian(bpb.subrange(13, 15))
            } else {
                little_endian(bpb.subrange(19, 23))
            };
            let no_table = bpb[7] == 0 && bpb[8] == 0 && bpb[24] == 0 && bpb[25] == 0 && bpb[26]
                == 0 && bpb[27] == 0;
            fat_kind(bpb) == (if size < 4084 {
                "FAT12"@
            } else if size < 65536 && no_table {
                "FAT16"@
            } else {
                "FAT32"@
            })
        }),
{
    crate::bytes::law_numbers_are_their_bytes(bpb, 13);
    crate::bytes::law_numbers_are_their_bytes(bpb, 19);
    crate::bytes::law_numbers_are_their_bytes(bpb, 7);
    crate::bytes::law_numbers_are_their_bytes(bpb, 24);
}

/// The root directory is named by nothing at all and by a single slash, and by no other path.
pub proof fn law_root_is_a_slash_or_nothing(path: Seq<char>)
    ensures
        is_root(path) <==> path.len() == 0 || (path.len() == 1 && path[0] == '/'),
{
    reveal_strlit("/");
    if path.len() == 1 && path[0] == '/' {
        assert(path =~= "/"@);
    }
}

/// A listed entry has the name of the item, the type of a directory or of a file, and no inode.
pub proof fn law_items_are_listed_with_their_type(e: DirEntry, item: FatItem)
    requires
        lists(e, item),
    ensures
        e.ino == 0,
        e.name@ == item.name@,
        item.is_dir ==> e.file_type == 2,
        !item.is_dir ==> e.file_type == 1,
{
}

/// The error of a listing is that of the first item that could not be read.
pub proof fn law_first_failure_counts<E>(items: Seq<Result<FatItem, E>>, i: int, j: int)
    requires
        fails_first(items, i),
        0 <= j < i,
    ensures
        items[i] is Err,
        items[j] is Ok,
{
}

} // verus!
