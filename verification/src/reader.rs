//! Reading a device of an archive at any position.
//!
//! The reader says which bytes of the archive file it needs next, and turns them into
//! bytes of the device.
use vstd::prelude::*;
use crate::cluster::{
    entry_for, find_entry, ones_below, rising, scatter, scattered, stored_bytes, stored_len, zero_cluster,
    ClusterEntry, ClusterIndex,
};
use crate::seek::{resolve_seek, seek_fits, seek_position, NegativeSeek, SeekTarget};

verus! {

/// A position within a device, the index of its clusters, and the cluster last read.
pub struct VmaDeviceReader {
    device_size: u64,
    cluster_index: ClusterIndex,
    pos: u64,
    cache: Option<(u64, Vec<u8>)>,
}

/// The state of a reader.
pub struct ReaderState {
    pub size: u64,
    pub index: Seq<ClusterEntry>,
    pub pos: u64,
    pub cache: Option<(u64, Seq<u8>)>,
}

/// Where the bytes of a cluster come from.
#[derive(Clone, Copy, Debug, PartialEq, Eq, Structural)]
pub enum Source {
    /// There is nothing left to read.
    End,
    /// The cluster was the last one read.
    Cached,
    /// The archive does not store the cluster.
    Zeros,
    /// The archive stores `len` bytes for the cluster, from `offset` on.
    Stored { offset: u64, len: usize },
}

// ---------------------------------------------------------------- model

/// Where the bytes of cluster `cn` come from.
pub open spec fn cluster_source(r: ReaderState, cn: u64) -> Source {
    if r.cache matches Some(c) && c.0 == cn {
        Source::Cached
    } else {
        match entry_for(r.index, cn) {
            None => Source::Zeros,
            Some(e) => if e.mask == 0 {
                Source::Zeros
            } else {
                Source::Stored { offset: e.offset, len: stored_bytes(e.mask) as usize }
            },
        }
    }
}

/// Where the bytes at the position come from.
pub open spec fn next_source(r: ReaderState) -> Source {
    if r.pos >= r.size {
        Source::End
    } else {
        cluster_source(r, r.pos / 65536)
    }
}

/// `stored` is as long as the source asks for.
pub open spec fn supplies(source: Source, stored: Seq<u8>) -> bool {
    source matches Source::Stored { len, .. } ==> stored.len() == len
}

/// The contents of cluster `cn`, given the bytes that its source asks for.
pub open spec fn cluster_data(r: ReaderState, cn: u64, stored: Seq<u8>) -> Seq<u8> {
    match cluster_source(r, cn) {
        Source::Cached => (r.cache->0).1,
        Source::Stored { .. } => scattered((entry_for(r.index, cn)->0).mask, stored),
        _ => zero_cluster(),
    }
}

/// How many bytes a read for `want` bytes gives: up to the end of the cluster or the device.
pub open spec fn read_count(r: ReaderState, want: nat) -> nat {
    if r.pos >= r.size {
        0
    } else {
        let left = (r.size - r.pos) as nat;
        let in_cluster = (65536 - r.pos % 65536) as nat;
        let most = if left < in_cluster { left } else { in_cluster };
        if want < most { want } else { most }
    }
}

/// The bytes that a read gives.
pub open spec fn read_bytes(r: ReaderState, want: nat, stored: Seq<u8>) -> Seq<u8> {
    if r.pos >= r.size {
        seq![]
    } else {
        let off = (r.pos % 65536) as int;
        cluster_data(r, r.pos / 65536, stored).subrange(off, off + read_count(r, want))
    }
}

/// The state after cluster `cn` was loaded.
pub open spec fn state_after_load(r: ReaderState, cn: u64, stored: Seq<u8>) -> ReaderState {
    ReaderState { cache: Some((cn, cluster_data(r, cn, stored))), ..r }
}

/// The state after a read.
pub open spec fn state_after_read(r: ReaderState, want: nat, stored: Seq<u8>) -> ReaderState {
    if r.pos >= r.size {
        r
    } else {
        ReaderState {
            pos: (r.pos + read_count(r, want)) as u64,
            ..state_after_load(r, r.pos / 65536, stored)
        }
    }
}

impl View for VmaDeviceReader {
    type V = ReaderState;

    closed spec fn view(&self) -> ReaderState {
        ReaderState {
            size: self.device_size,
            index: self.cluster_index@,
            pos: self.pos,
            cache: match self.cache {
                Some(c) => Some((c.0, c.1@)),
                None => None,
            },
        }
    }
}

// ---------------------------------------------------------------- reader

/// What holds of every reader: the position is not past the end, the index is in order, and a
/// kept cluster is whole.
pub open spec fn sound(r: ReaderState) -> bool {
    &&& rising(r.index)
    &&& r.pos <= r.size
    &&& r.cache matches Some(c) ==> c.1.len() == 65536
}

impl VmaDeviceReader {
    #[verifier::type_invariant]
    closed spec fn always_sound(self) -> bool {
        sound(self@)
    }

    /// A reader at the start of a device.
    pub fn new(device_size: u64, ci: ClusterIndex) -> (r: Self)
        ensures
            r@ == (ReaderState { size: device_size, index: ci@, pos: 0, cache: None }),
            sound(r@),
    {
        proof {
            use_type_invariant(&ci);
        }
        VmaDeviceReader { device_size, cluster_index: ci, pos: 0, cache: None }
    }

    /// Where the bytes of cluster `cn` come from.
    pub fn source_of(&self, cn: u64) -> (r: Source)
        ensures
            r == cluster_source(self@, cn),
    {
        proof {
            use_type_invariant(self);
        }
        match &self.cache {
            Some(c) => {
                if c.0 == cn {
                    return Source::Cached;
                }
            },
            None => {},
        }
        match find_entry(&self.cluster_index, cn) {
            None => Source::Zeros,
            Some(e) => {
                if e.mask == 0 {
                    Source::Zeros
                } else {
                    Source::Stored { offset: e.offset, len: stored_len(e.mask) }
                }
            },
        }
    }

    /// Where the bytes at the position come from. A read needs the bytes that a stored source
    /// names.
    pub fn source(&self) -> (r: Source)
        ensures
            r == next_source(self@),
    {
        if self.pos >= self.device_size {
            Source::End
        } else {
            self.source_of(self.pos / 65536)
        }
    }

    /// Loads a cluster, given the bytes that its source names, and keeps it.
    pub fn read_cluster(&mut self, cn: u64, stored: &[u8])
        requires
            supplies(cluster_source(old(self)@, cn), stored@),
        ensures
            final(self)@ == state_after_load(old(self)@, cn, stored@),
            sound(final(self)@),
    {
        proof {
            use_type_invariant(&*self);
        }
        match self.source_of(cn) {
            Source::Cached => {},
            Source::Stored { .. } => {
                if let Some(e) = find_entry(&self.cluster_index, cn) {
                    proof {
                        crate::cluster::lemma_stored_before_bounds(e.mask, 0, 16);
                    }
                    let data = scatter(e.mask, stored);
                    self.cache = Some((cn, data));
                }
            },
            _ => {
                let data = crate::bytes::zeros(65536);
                assert(data@ =~= zero_cluster());
                self.cache = Some((cn, data));
            },
        }
    }

    /// Reads up to `want` bytes at the position and moves behind them.
    pub fn read(&mut self, want: usize, stored: &[u8]) -> (r: Vec<u8>)
        requires
            supplies(next_source(old(self)@), stored@),
        ensures
            r@ == read_bytes(old(self)@, want as nat, stored@),
            r@.len() == read_count(old(self)@, want as nat),
            final(self)@ == state_after_read(old(self)@, want as nat, stored@),
            sound(final(self)@),
    {
        proof {
            use_type_invariant(&*self);
        }
        let mut out: Vec<u8> = Vec::new();
        if self.pos >= self.device_size {
            assert(out@ =~= seq![]);
            return out;
        }
        let off: u64 = self.pos % 65536;
        let left: u64 = self.device_size - self.pos;
        let in_cluster: u64 = 65536 - off;
        let most: u64 = if left < in_cluster {
            left
        } else {
            in_cluster
        };
        let n: usize = if (want as u64) < most {
            want
        } else {
            most as usize
        };
        let cn = self.pos / 65536;
        self.read_cluster(cn, stored);
        proof {
            use_type_invariant(&*self);
        }
        if let Some(c) = &self.cache {
            out.extend_from_slice(
                vstd::slice::slice_subrange(c.1.as_slice(), off as usize, off as usize + n),
            );
            assert(out@ =~= c.1@.subrange(off as int, off + n));
        }
        self.pos = self.pos + n as u64;
        out
    }

    /// Moves the position.
    pub fn seek(&mut self, target: SeekTarget) -> (r: Result<u64, NegativeSeek>)
        requires
            seek_fits(target, old(self)@.size, old(self)@.pos),
        ensures
            r == seek_position(target, old(self)@.size, old(self)@.pos),
            final(self)@ == (ReaderState {
                pos: match r {
                    Ok(p) => p,
                    Err(_) => old(self)@.pos,
                },
                ..old(self)@
            }),
            sound(final(self)@),
    {
        proof {
            use_type_invariant(&*self);
        }
        let r = resolve_seek(target, self.device_size, self.pos);
        if let Ok(p) = r {
            self.pos = p;
        }
        r
    }

    /// The position.
    pub fn position(&self) -> (r: u64)
        ensures
            r == self@.pos,
    {
        self.pos
    }

    /// The size of the device.
    pub fn size(&self) -> (r: u64)
        ensures
            r == self@.size,
    {
        self.device_size
    }
}

// ---------------------------------------------------------------- the device as a whole

/// What cluster `cn` holds according to the archive file.
pub open spec fn cluster_image(index: Seq<ClusterEntry>, file: Seq<u8>, cn: u64) -> Seq<u8> {
    match entry_for(index, cn) {
        None => zero_cluster(),
        Some(e) => scattered(e.mask, file.subrange(e.offset as int, e.offset + stored_bytes(e.mask))),
    }
}

/// The bytes of the device, from the first to the last.
pub open spec fn device_image(index: Seq<ClusterEntry>, file: Seq<u8>, size: u64) -> Seq<u8> {
    Seq::new(
        size as nat,
        |p: int| cluster_image(index, file, (p / 65536) as u64)[p % 65536],
    )
}

/// A cluster that the reader keeps is the one of this archive file.
pub open spec fn keeps(r: ReaderState, file: Seq<u8>) -> bool {
    r.cache matches Some(c) ==> c.1 == cluster_image(r.index, file, c.0)
}

/// `stored` is what the file holds where the source says.
pub open spec fn comes_from(source: Source, file: Seq<u8>, stored: Seq<u8>) -> bool {
    source matches Source::Stored { offset, len } ==> {
        &&& offset + len <= file.len()
        &&& stored == file.subrange(offset as int, offset + len)
    }
}

/// A cluster that is loaded from the archive file is the one that the file holds.
pub proof fn law_load_gives_the_cluster(r: ReaderState, file: Seq<u8>, cn: u64, stored: Seq<u8>)
    requires
        sound(r),
        keeps(r, file),
        comes_from(cluster_source(r, cn), file, stored),
    ensures
        cluster_data(r, cn, stored) == cluster_image(r.index, file, cn),
        keeps(state_after_load(r, cn, stored), file),
{
    if let Some(e) = entry_for(r.index, cn) {
        crate::cluster::lemma_stored_before_bounds(e.mask, 0, 16);
        if e.mask == 0 {
            crate::cluster::law_empty_mask_reads_as_zeros(
                file.subrange(e.offset as int, e.offset + stored_bytes(e.mask)),
            );
        }
    }
}

/// Reads give the bytes of the device, in order: a read at a position gives the bytes from
/// there on, and moves the position behind them.
pub proof fn law_read_gives_the_device(
    r: ReaderState,
    file: Seq<u8>,
    want: nat,
    stored: Seq<u8>,
)
    requires
        sound(r),
        keeps(r, file),
        comes_from(next_source(r), file, stored),
    ensures
        read_bytes(r, want, stored) == device_image(r.index, file, r.size).subrange(
            r.pos as int,
            r.pos + read_count(r, want),
        ),
        state_after_read(r, want, stored).pos == r.pos + read_count(r, want),
        state_after_read(r, want, stored).index == r.index,
        state_after_read(r, want, stored).size == r.size,
        keeps(state_after_read(r, want, stored), file),
        sound(state_after_read(r, want, stored)),
{
    let image = device_image(r.index, file, r.size);
    if r.pos < r.size {
        let cn = r.pos / 65536;
        let off = (r.pos % 65536) as int;
        law_load_gives_the_cluster(r, file, cn, stored);
        let got = read_bytes(r, want, stored);
        let n = read_count(r, want);
        assert forall|i: int| 0 <= i < n implies got[i] == image[r.pos + i] by {
            assert((r.pos + i) / 65536 == cn as int);
            assert((r.pos + i) % 65536 == off + i);
        }
        assert(cluster_image(r.index, file, cn).len() == 65536);
        assert(got =~= image.subrange(r.pos as int, r.pos + n));
    } else {
        assert(read_bytes(r, want, stored) =~= image.subrange(r.pos as int, r.pos as int));
    }
}

/// A read that asks for something before the end gives at least one byte.
pub proof fn law_read_makes_progress(r: ReaderState, want: nat)
    requires
        want > 0,
        r.pos < r.size,
    ensures
        read_count(r, want) > 0,
{
}

// ---------------------------------------------------------------- bytes of the device

/// Where the index has an entry for the cluster of a byte and the mask of the entry a one for
/// its block, the byte is in the archive file, as many blocks behind the place of the entry as
/// the mask has ones below; any other byte is zero.
pub open spec fn is_device_byte(
    index: Seq<ClusterEntry>,
    file: Seq<u8>,
    p: int,
    byte: u8,
) -> bool {
    let b = (p % 65536 / 4096) as nat;
    &&& forall|k: int|
        0 <= k < index.len() && (#[trigger] index[k]).cluster == p / 65536 ==> {
            let mask = index[k].mask as nat;
            byte == (if (mask / vstd::arithmetic::power2::pow2(b)) % 2 == 1 {
                file[index[k].offset + 4096 * ones_below(mask, b) + p % 4096]
            } else {
                0
            })
        }
    &&& (forall|k: int| 0 <= k < index.len() ==> (#[trigger] index[k]).cluster != p / 65536)
        ==> byte == 0
}

/// The index stores its blocks within the file.
pub open spec fn blocks_within(index: Seq<ClusterEntry>, file: Seq<u8>) -> bool {
    forall|k: int|
        0 <= k < index.len() ==> (#[trigger] index[k]).offset + 4096 * ones_below(
            index[k].mask as nat,
            16,
        ) <= file.len()
}

/// Each byte of a device is the one of the block that the archive stores for it, and zero where
/// it stores none.
pub proof fn law_device_bytes_come_from_blocks(
    index: Seq<ClusterEntry>,
    file: Seq<u8>,
    size: u64,
    p: int,
)
    requires
        rising(index),
        blocks_within(index, file),
        0 <= p < size,
    ensures
        device_image(index, file, size).len() == size,
        is_device_byte(index, file, p, device_image(index, file, size)[p]),
{
    let c = (p / 65536) as u64;
    let b = (p % 65536 / 4096) as nat;
    let j = p % 4096;
    assert(p % 65536 == 4096 * b + j);
    crate::cluster::law_lookup_finds_the_entry(index, c);
    let byte = device_image(index, file, size)[p];
    assert(byte == cluster_image(index, file, c)[p % 65536]);
    assert forall|k: int| 0 <= k < index.len() && (#[trigger] index[k]).cluster == p / 65536 implies {
        let mask = index[k].mask as nat;
        byte == (if (mask / vstd::arithmetic::power2::pow2(b)) % 2 == 1 {
            file[index[k].offset + 4096 * ones_below(mask, b) + p % 4096]
        } else {
            0
        })
    } by {
        let e = index[k];
        assert(entry_for(index, c) == Some(e));
        let payload = file.subrange(e.offset as int, e.offset + stored_bytes(e.mask));
        crate::cluster::law_mask_has_a_digit_for_each_block(e.mask, b);
        crate::cluster::law_mask_has_a_digit_for_each_block(e.mask, (b + 1) as nat);
        crate::cluster::lemma_stored_before_bounds(e.mask, b as int, 16);
        crate::cluster::lemma_stored_before_bounds(e.mask, (b + 1) as int, 16);
        crate::cluster::law_blocks_stand_at_their_places(e.mask, payload, b, j);
        if (e.mask as nat / vstd::arithmetic::power2::pow2(b)) % 2 == 1 {
            let at = 4096 * ones_below(e.mask as nat, b) + j;
            assert(0 <= at < payload.len());
            assert(payload[at] == file[e.offset + at]);
        }
    }
}

/// A read gives bytes of the device from the position on, each the one of the block that the
/// archive stores for it or zero, and moves the position behind them. It gives as many as asked
/// for, or ends at the end of the device or of a cluster; none only where none are asked for or
/// left.
pub proof fn law_reads_give_stored_bytes(
    r: ReaderState,
    file: Seq<u8>,
    want: nat,
    stored: Seq<u8>,
)
    requires
        sound(r),
        keeps(r, file),
        comes_from(next_source(r), file, stored),
        blocks_within(r.index, file),
    ensures
        ({
            let got = read_bytes(r, want, stored);
            let after = state_after_read(r, want, stored);
            &&& got.len() == read_count(r, want)
            &&& got.len() <= want
            &&& r.pos + got.len() <= r.size
            &&& got.len() == want || r.pos + got.len() == r.size || (r.pos + got.len()) % 65536 == 0
            &&& want > 0 && r.pos < r.size ==> got.len() > 0
            &&& forall|i: int|
                0 <= i < got.len() ==> is_device_byte(r.index, file, r.pos + i, #[trigger] got[i])
            &&& after.pos == r.pos + got.len()
            &&& after.index == r.index
            &&& after.size == r.size
            &&& keeps(after, file)
        }),
{
    law_read_gives_the_device(r, file, want, stored);
    let got = read_bytes(r, want, stored);
    let image = device_image(r.index, file, r.size);
    assert(got.len() == read_count(r, want));
    assert forall|i: int| 0 <= i < got.len() implies is_device_byte(
        r.index,
        file,
        r.pos + i,
        #[trigger] got[i],
    ) by {
        law_device_bytes_come_from_blocks(r.index, file, r.size, r.pos + i);
        assert(got[i] == image[r.pos + i]);
    }
}

/// What a read needs of the archive file: nothing at the end of the device; otherwise, unless
/// the reader keeps the cluster, all blocks that the index names for the cluster at the
/// position, from their first byte on; nothing where it names none.
pub proof fn law_source_is_the_stored_blocks(r: ReaderState)
    requires
        sound(r),
    ensures
        r.pos >= r.size <==> next_source(r) is End,
        r.pos < r.size && r.cache is None ==> {
            &&& forall|k: int|
                0 <= k < r.index.len() && (#[trigger] r.index[k]).cluster == r.pos / 65536
                    && r.index[k].mask != 0 ==> next_source(r) == (Source::Stored {
                    offset: r.index[k].offset,
                    len: (4096 * ones_below(r.index[k].mask as nat, 16)) as usize,
                })
            &&& (forall|k: int|
                0 <= k < r.index.len() && (#[trigger] r.index[k]).cluster == r.pos / 65536
                    ==> r.index[k].mask == 0) ==> next_source(r) == Source::Zeros
        },
        r.pos < r.size && next_source(r) is Cached ==> (r.cache matches Some(c) && c.0 == r.pos
            / 65536),
{
    let c = r.pos / 65536;
    crate::cluster::law_lookup_finds_the_entry(r.index, c);
    if let Some(e) = entry_for(r.index, c) {
        crate::cluster::law_mask_has_a_digit_for_each_block(e.mask, 16);
        let m = choose|m: int| 0 <= m < r.index.len() && #[trigger] r.index[m].cluster == c;
        assert(r.index[m] == e);
    }
}

} // verus!
