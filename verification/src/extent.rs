//! Extents of an archive: headers of 512 bytes, each followed by stored blocks.
//!
//! A header has 59 slots. A slot names a cluster of a device and the blocks of it that are
//! stored; the blocks of all slots stand one behind the other after the header.
use vstd::prelude::*;
use crate::bytes::{be16, be32, big_endian, get_be16, get_be32, has_at, matches_at};
use crate::cluster::{
    build_index, indexes, ones_below, stored_bytes, stored_len, ClusterEntry, ClusterIndex,
};

verus! {

pub const SLOTS: usize = 59;

// ---------------------------------------------------------------- one header

/// The bytes are the header of an extent: they start with "VMAE".
pub open spec fn is_extent(h: Seq<u8>) -> bool {
    has_at(h, 0, seq![0x56u8, 0x4d, 0x41, 0x45])
}

/// The length of an extent: the header and its blocks.
pub open spec fn extent_len(h: Seq<u8>) -> int {
    512 + be16(h, 6) * 4096
}

/// The mask of slot `i`.
pub open spec fn slot_mask(h: Seq<u8>, i: int) -> u16 {
    be16(h, 40 + i * 8) as u16
}

/// The device of slot `i`.
pub open spec fn slot_device(h: Seq<u8>, i: int) -> u8 {
    h[40 + i * 8 + 3]
}

/// The cluster of slot `i`.
pub open spec fn slot_cluster(h: Seq<u8>, i: int) -> u64 {
    be32(h, 40 + i * 8 + 4) as u64
}

/// Slot `i` names nothing.
pub open spec fn slot_empty(h: Seq<u8>, i: int) -> bool {
    slot_cluster(h, i) == 0 && slot_device(h, i) == 0 && slot_mask(h, i) == 0
}

/// How many bytes the first `i` slots store.
pub open spec fn stored_in_slots(h: Seq<u8>, i: int) -> int
    decreases i,
{
    if i <= 0 {
        0
    } else {
        stored_in_slots(h, i - 1) + stored_bytes(slot_mask(h, i - 1))
    }
}

/// What slot `i` names, with the stored blocks of the extent from offset `base` on.
pub open spec fn slot_entry(h: Seq<u8>, base: int, i: int) -> ClusterEntry {
    ClusterEntry {
        cluster: slot_cluster(h, i),
        offset: (base + stored_in_slots(h, i)) as u64,
        mask: slot_mask(h, i),
    }
}

/// What the first `n` slots name of device `dev`.
pub open spec fn device_slots(h: Seq<u8>, base: int, dev: int, n: int) -> Seq<ClusterEntry>
    decreases n,
{
    if n <= 0 {
        seq![]
    } else if slot_device(h, n - 1) == dev && !slot_empty(h, n - 1) {
        device_slots(h, base, dev, n - 1).push(slot_entry(h, base, n - 1))
    } else {
        device_slots(h, base, dev, n - 1)
    }
}

/// The blocks of a slot follow directly those of the slot before it.
pub proof fn law_slots_are_packed(h: Seq<u8>, base: int, i: int)
    requires
        0 <= base,
        base + stored_in_slots(h, i + 1) <= u64::MAX,
        0 <= i,
    ensures
        slot_entry(h, base, i + 1).offset == slot_entry(h, base, i).offset + stored_bytes(
            slot_entry(h, base, i).mask,
        ),
{
    lemma_stored_in_slots_bounds(h, i);
    crate::cluster::lemma_stored_before_bounds(slot_mask(h, i), 0, 16);
}

proof fn lemma_stored_in_slots_bounds(h: Seq<u8>, i: int)
    requires
        0 <= i,
    ensures
        0 <= stored_in_slots(h, i) <= i * 65536,
    decreases i,
{
    if i > 0 {
        lemma_stored_in_slots_bounds(h, i - 1);
        crate::cluster::lemma_stored_before_bounds(slot_mask(h, i - 1), 0, 16);
        crate::cluster::lemma_stored_before_bounds(slot_mask(h, i - 1), 16, 16);
    }
}

// ---------------------------------------------------------------- the chain of extents

/// A walk along the extents of a file: where it has come to, and what it has found for each
/// device.
pub struct WalkState {
    pub pos: int,
    pub file_len: int,
    pub found: Seq<Seq<ClusterEntry>>,
}

/// There is a whole header at the place that the walk has come to.
pub open spec fn walk_goes_on(w: WalkState) -> bool {
    w.pos + 512 <= w.file_len
}

/// The walk after the 512 bytes `h` at its place: behind the extent that they start, or one
/// sector further where they start none.
pub open spec fn walk_step(w: WalkState, h: Seq<u8>) -> WalkState {
    if is_extent(h) {
        WalkState {
            pos: w.pos + extent_len(h),
            found: Seq::new(
                w.found.len(),
                |d: int| w.found[d] + device_slots(h, w.pos + 512, d, 59),
            ),
            ..w
        }
    } else {
        WalkState { pos: w.pos + 512, ..w }
    }
}

/// How many bytes of a file of `len` bytes stand from `pos` on.
pub open spec fn room(len: int, pos: int) -> nat {
    if pos < len {
        (len - pos) as nat
    } else {
        0
    }
}

/// The 512 bytes of a file at `pos`.
pub open spec fn header_at(file: Seq<u8>, pos: int) -> Seq<u8> {
    file.subrange(pos, pos + 512)
}

/// A walk carried through to the end of a file.
pub open spec fn walk_run(file: Seq<u8>, w: WalkState) -> WalkState
    decreases room(w.file_len, w.pos),
{
    if walk_goes_on(w) {
        walk_run(file, walk_step(w, header_at(file, w.pos)))
    } else {
        w
    }
}

/// The places of the extents of a file from `pos` on.
pub open spec fn extent_chain(file: Seq<u8>, pos: int) -> Seq<int>
    decreases room(file.len() as int, pos),
{
    if pos + 512 > file.len() {
        seq![]
    } else if is_extent(header_at(file, pos)) {
        seq![pos] + extent_chain(file, pos + extent_len(header_at(file, pos)))
    } else {
        extent_chain(file, pos + 512)
    }
}

/// What the extents at some places of a file name of device `dev`, in order.
pub open spec fn chain_slots(file: Seq<u8>, chain: Seq<int>, dev: int) -> Seq<ClusterEntry>
    decreases chain.len(),
{
    if chain.len() == 0 {
        seq![]
    } else {
        device_slots(header_at(file, chain[0]), chain[0] + 512, dev, 59) + chain_slots(
            file,
            chain.drop_first(),
            dev,
        )
    }
}

/// A walk finds what the extents of the file name, for each device, in the order of the file.
pub proof fn law_walk_finds_the_chain(file: Seq<u8>, w: WalkState, dev: int)
    requires
        w.file_len == file.len(),
        0 <= w.pos,
        0 <= dev < w.found.len(),
    ensures
        walk_run(file, w).found.len() == w.found.len(),
        walk_run(file, w).found[dev] == w.found[dev] + chain_slots(
            file,
            extent_chain(file, w.pos),
            dev,
        ),
    decreases room(w.file_len, w.pos),
{
    let chain = extent_chain(file, w.pos);
    if walk_goes_on(w) {
        let h = header_at(file, w.pos);
        let next = walk_step(w, h);
        law_walk_finds_the_chain(file, next, dev);
        if is_extent(h) {
            assert(chain.drop_first() =~= extent_chain(file, w.pos + extent_len(h)));
            let own = device_slots(h, w.pos + 512, dev, 59);
            let rest = chain_slots(file, chain.drop_first(), dev);
            assert((w.found[dev] + own) + rest =~= w.found[dev] + (own + rest));
        }
    } else {
        assert(chain_slots(file, chain, dev) =~= seq![]);
        assert(w.found[dev] + seq![] =~= w.found[dev]);
    }
}

/// `p` is the place of an extent of the file, at `pos` or behind it.
pub open spec fn extent_stands_at(file: Seq<u8>, pos: int, p: int) -> bool {
    pos <= p && p + 512 <= file.len() && is_extent(header_at(file, p))
}

/// Extent `q` of the file starts at the end of extent `p` or behind it.
pub open spec fn extent_follows(file: Seq<u8>, p: int, q: int) -> bool {
    p + extent_len(header_at(file, p)) <= q
}

/// The chain leads through extents only, and none starts before the end of an earlier one.
pub proof fn law_chain_rises(file: Seq<u8>, pos: int)
    requires
        0 <= pos,
    ensures
        forall|k: int|
            0 <= k < extent_chain(file, pos).len() ==> #[trigger] extent_stands_at(
                file,
                pos,
                extent_chain(file, pos)[k],
            ),
        forall|j: int, k: int|
            0 <= j < k < extent_chain(file, pos).len() ==> #[trigger] extent_follows(
                file,
                extent_chain(file, pos)[j],
                extent_chain(file, pos)[k],
            ),
    decreases room(file.len() as int, pos),
{
    let chain = extent_chain(file, pos);
    if pos + 512 <= file.len() {
        let h = header_at(file, pos);
        let next = if is_extent(h) {
            pos + extent_len(h)
        } else {
            pos + 512
        };
        let rest = extent_chain(file, next);
        let lead = chain.len() - rest.len();
        law_chain_rises(file, next);
        assert forall|k: int| 0 <= k < chain.len() implies #[trigger] extent_stands_at(
            file,
            pos,
            chain[k],
        ) by {
            if k >= lead {
                assert(extent_stands_at(file, next, rest[k - lead]));
            }
        }
        assert forall|j: int, k: int| 0 <= j < k < chain.len() implies #[trigger] extent_follows(
            file,
            chain[j],
            chain[k],
        ) by {
            assert(extent_stands_at(file, next, rest[k - lead]));
            if j >= lead {
                assert(extent_follows(file, rest[j - lead], rest[k - lead]));
            }
        }
    }
}

// ---------------------------------------------------------------- walking

/// The rows of a table.
pub open spec fn rows(v: Seq<Vec<ClusterEntry>>) -> Seq<Seq<ClusterEntry>> {
    v.map_values(|row: Vec<ClusterEntry>| row@)
}

/// A walk along the extents of a file.
pub struct ExtentWalk {
    pos: u64,
    file_len: u64,
    found: Vec<Vec<ClusterEntry>>,
}

impl View for ExtentWalk {
    type V = WalkState;

    closed spec fn view(&self) -> WalkState {
        WalkState {
            pos: self.pos as int,
            file_len: self.file_len as int,
            found: rows(self.found@),
        }
    }
}

/// The first place behind a header of `len` bytes that is a whole number of sectors.
pub open spec fn after_header(len: int) -> int {
    (len + 511) / 512 * 512
}

/// The start of a walk, behind a header of `header_len` bytes, for `devices` devices.
pub open spec fn walk_start(header_len: int, file_len: int, devices: nat) -> WalkState {
    WalkState {
        pos: after_header(header_len),
        file_len,
        found: Seq::new(devices, |d: int| Seq::<ClusterEntry>::empty()),
    }
}

impl ExtentWalk {
    #[verifier::type_invariant]
    closed spec fn sound(self) -> bool {
        &&& self.file_len <= i64::MAX
        &&& self.pos <= i64::MAX + 0x2000_0000
    }

    /// The start of a walk through a file with a header of `header_len` bytes.
    pub fn new(header_len: u32, file_len: u64, devices: usize) -> (r: Self)
        requires
            file_len <= i64::MAX,
        ensures
            r@ == walk_start(header_len as int, file_len as int, devices as nat),
    {
        let mut found: Vec<Vec<ClusterEntry>> = Vec::new();
        let mut d: usize = 0;
        while d < devices
            invariant
                d <= devices,
                found.len() == d,
                forall|k: int| 0 <= k < d ==> (#[trigger] found@[k])@.len() == 0,
            decreases devices - d,
        {
            found.push(Vec::new());
            d = d + 1;
        }
        let pos: u64 = (header_len as u64 + 511) / 512 * 512;
        let r = ExtentWalk { pos, file_len, found };
        assert(rows(found@) =~~= Seq::new(devices as nat, |d: int| Seq::<ClusterEntry>::empty()));
        r
    }

    /// The place of the next 512 bytes that the walk needs; none at the end of the file.
    pub fn next_header(&self) -> (r: Option<u64>)
        ensures
            r == (if walk_goes_on(self@) {
                Some(self@.pos as u64)
            } else {
                None
            }),
    {
        proof {
            use_type_invariant(self);
        }
        if self.pos + 512 <= self.file_len {
            Some(self.pos)
        } else {
            None
        }
    }

    /// Goes on with the 512 bytes at the place of the walk.
    pub fn feed(&mut self, hdr: &[u8])
        requires
            walk_goes_on(old(self)@),
            hdr@.len() == 512,
        ensures
            final(self)@ == walk_step(old(self)@, hdr@),
    {
        proof {
            use_type_invariant(&*self);
        }
        let magic: [u8; 4] = [0x56, 0x4d, 0x41, 0x45];
        assert(magic@ =~= seq![0x56u8, 0x4d, 0x41, 0x45]);
        if !matches_at(hdr, 0, &magic) {
            self.pos = self.pos + 512;
            return;
        }
        let block_count = get_be16(hdr, 6);
        let base = self.pos + 512;
        let mut found: Vec<Vec<ClusterEntry>> = Vec::new();
        std::mem::swap(&mut found, &mut self.found);
        let ghost before = rows(found@);
        let mut stored: u64 = 0;
        let mut i: usize = 0;
        assert forall|d: int| 0 <= d < before.len() implies (#[trigger] found@[d])@ == before[d]
            + device_slots(hdr@, base as int, d, 0) by {
            assert(before[d] + seq![] =~= before[d]);
        }
        while i < SLOTS
            invariant
                i <= 59,
                hdr@.len() == 512,
                base <= i64::MAX + 0x2000_0200,
                stored == stored_in_slots(hdr@, i as int),
                stored <= i * 65536,
                found.len() == before.len(),
                forall|d: int|
                    0 <= d < before.len() ==> (#[trigger] found@[d])@ == before[d] + device_slots(
                        hdr@,
                        base as int,
                        d,
                        i as int,
                    ),
            decreases 59 - i,
        {
            let o: usize = 40 + i * 8;
            let mask = get_be16(hdr, o);
            let device = hdr[o + 3] as usize;
            let cluster = get_be32(hdr, o + 4) as u64;
            let ghost slots = found@;
            if (cluster != 0 || device != 0 || mask != 0) && device < found.len() {
                let entry = ClusterEntry { cluster, offset: base + stored, mask };
                assert(entry == slot_entry(hdr@, base as int, i as int));
                found[device].push(entry);
            }
            assert forall|d: int| 0 <= d < before.len() implies (#[trigger] found@[d])@ == before[d]
                + device_slots(hdr@, base as int, d, i + 1) by {
                assert(slots[d]@ == before[d] + device_slots(hdr@, base as int, d, i as int));
                if d == device && !slot_empty(hdr@, i as int) {
                    assert(found@[d]@ =~= before[d] + device_slots(hdr@, base as int, d, i + 1));
                }
            }
            stored = stored + stored_len(mask) as u64;
            i = i + 1;
        }
        assert(rows(found@) =~= Seq::new(
            before.len(),
            |d: int| before[d] + device_slots(hdr@, base as int, d, 59),
        ));
        self.found = found;
        self.pos = self.pos + 512 + block_count as u64 * 4096;
    }

    /// The index of each device.
    pub fn into_index(self) -> (r: Vec<ClusterIndex>)
        ensures
            r@.len() == self@.found.len(),
            forall|d: int| 0 <= d < r@.len() ==> indexes((#[trigger] r@[d])@, self@.found[d]),
    {
        let mut out: Vec<ClusterIndex> = Vec::new();
        let mut d: usize = 0;
        while d < self.found.len()
            invariant
                d <= self.found.len(),
                out.len() == d,
                forall|k: int| 0 <= k < d ==> indexes((#[trigger] out@[k])@, self.found@[k]@),
            decreases self.found.len() - d,
        {
            out.push(build_index(&self.found[d]));
            d = d + 1;
        }
        out
    }
}

// ---------------------------------------------------------------- what headers mean

/// How many ones the masks of the first `i` slots have, each in two bytes.
pub open spec fn ones_in_masks(h: Seq<u8>, i: int) -> nat
    decreases i,
{
    if i <= 0 {
        0
    } else {
        ones_in_masks(h, i - 1) + ones_below(
            big_endian(h.subrange(40 + 8 * (i - 1), 42 + 8 * (i - 1))) as nat,
            16,
        )
    }
}

/// The eight bytes of slot `i` name something of device `dev`: its byte is that of the device,
/// and the bytes of the mask, the device and the cluster are not all zero.
pub open spec fn slot_is_for(h: Seq<u8>, i: int, dev: int) -> bool {
    let o = 40 + 8 * i;
    &&& h[o + 3] == dev
    &&& !(h[o] == 0 && h[o + 1] == 0 && h[o + 3] == 0 && h[o + 4] == 0 && h[o + 5] == 0 && h[o + 6]
        == 0 && h[o + 7] == 0)
}

/// The entry says what slot `i` says: the mask of its first two bytes, the cluster of its last
/// four, and a place behind the blocks of all slots before it, of which the first is at `base`.
pub open spec fn says_slot(e: ClusterEntry, h: Seq<u8>, base: int, i: int) -> bool {
    let o = 40 + 8 * i;
    &&& e.mask == big_endian(h.subrange(o, o + 2))
    &&& e.cluster == big_endian(h.subrange(o + 4, o + 8))
    &&& e.offset == base + 4096 * ones_in_masks(h, i)
}

/// The slots with the numbers `at` are those for a device, in order, and `entries` say what they
/// say.
pub open spec fn entries_of_slots(
    entries: Seq<ClusterEntry>,
    at: Seq<int>,
    h: Seq<u8>,
    base: int,
    dev: int,
    n: int,
) -> bool {
    &&& entries.len() == at.len()
    &&& forall|k: int|
        0 <= k < at.len() ==> 0 <= #[trigger] at[k] < n && slot_is_for(h, at[k], dev) && says_slot(
            entries[k],
            h,
            base,
            at[k],
        )
    &&& forall|j: int, k: int| 0 <= j < k < at.len() ==> #[trigger] at[j] < #[trigger] at[k]
    &&& forall|i: int| 0 <= i < n && #[trigger] slot_is_for(h, i, dev) ==> at.contains(i)
}

proof fn lemma_stored_in_slots_counts(h: Seq<u8>, i: int)
    requires
        h.len() == 512,
        0 <= i <= 59,
    ensures
        stored_in_slots(h, i) == 4096 * ones_in_masks(h, i),
    decreases i,
{
    if i > 0 {
        lemma_stored_in_slots_counts(h, i - 1);
        crate::bytes::law_numbers_are_their_bytes(h, 40 + 8 * (i - 1));
        crate::cluster::law_mask_has_a_digit_for_each_block(slot_mask(h, i - 1), 16);
    }
}

proof fn lemma_device_slots_are_those(h: Seq<u8>, base: int, dev: int, n: int) -> (at: Seq<int>)
    requires
        h.len() == 512,
        0 <= n <= 59,
        0 <= base,
        base + 59 * 65536 <= u64::MAX,
    ensures
        entries_of_slots(device_slots(h, base, dev, n), at, h, base, dev, n),
    decreases n,
{
    if n == 0 {
        seq![]
    } else {
        let i = n - 1;
        let o = 40 + 8 * i;
        let front = lemma_device_slots_are_those(h, base, dev, i);
        crate::bytes::law_numbers_are_their_bytes(h, o);
        crate::bytes::law_numbers_are_their_bytes(h, o + 4);
        lemma_stored_in_slots_counts(h, i);
        lemma_stored_in_slots_bounds(h, i);
        assert(slot_empty(h, i) == (h[o] == 0 && h[o + 1] == 0 && h[o + 3] == 0 && h[o + 4] == 0
            && h[o + 5] == 0 && h[o + 6] == 0 && h[o + 7] == 0));
        let at = if slot_is_for(h, i, dev) {
            front.push(i)
        } else {
            front
        };
        let before = device_slots(h, base, dev, i);
        let now = device_slots(h, base, dev, n);
        assert forall|k: int| 0 <= k < at.len() implies 0 <= #[trigger] at[k] < n && slot_is_for(
            h,
            at[k],
            dev,
        ) && says_slot(now[k], h, base, at[k]) by {
            if k < front.len() {
                assert(at[k] == front[k]);
                assert(now[k] == before[k]);
            }
        }
        assert forall|j: int, k: int| 0 <= j < k < at.len() implies #[trigger] at[j]
            < #[trigger] at[k] by {
            assert(at[j] == front[j]);
            if k < front.len() {
                assert(at[k] == front[k]);
            }
        }
        assert forall|j: int| 0 <= j < n && #[trigger] slot_is_for(h, j, dev) implies at.contains(
            j,
        ) by {
            if j < i {
                let k = choose|k: int| 0 <= k < front.len() && front[k] == j;
                assert(at[k] == j);
            } else {
                assert(at[at.len() - 1] == j);
            }
        }
        at
    }
}

/// A walk over the header of an extent adds for each device an entry for each of the 59 slots
/// that name something of it, in the order of the slots, and no others. Each entry has the mask
/// and the cluster of its slot, and stands behind the blocks of all slots before it.
pub proof fn law_extent_adds_its_slots(w: WalkState, h: Seq<u8>, dev: int)
    requires
        h.len() == 512,
        h[0] == 0x56 && h[1] == 0x4d && h[2] == 0x41 && h[3] == 0x45,
        0 <= dev < w.found.len(),
        0 <= w.pos,
        w.pos + 512 + 59 * 65536 <= u64::MAX,
    ensures
        walk_step(w, h).found.len() == w.found.len(),
        ({
            let n = w.found[dev].len() as int;
            let after = walk_step(w, h).found[dev];
            &&& n <= after.len()
            &&& after.take(n) == w.found[dev]
            &&& exists|at: Seq<int>|
                #[trigger] entries_of_slots(after.skip(n), at, h, w.pos + 512, dev, 59)
        }),
{
    assert(is_extent(h)) by {
        assert(h.subrange(0, 4) =~= seq![0x56u8, 0x4d, 0x41, 0x45]);
    }
    let own = device_slots(h, w.pos + 512, dev, 59);
    let n = w.found[dev].len() as int;
    let after = walk_step(w, h).found[dev];
    assert(after.take(n) =~= w.found[dev]);
    assert(after.skip(n) =~= own);
    let at = lemma_device_slots_are_those(h, w.pos + 512, dev, 59);
    assert(entries_of_slots(after.skip(n), at, h, w.pos + 512, dev, 59));
}

/// Each slot of an extent, whatever its number, is found: where it names something of a device,
/// the walk holds an entry with its cluster and its mask, which stands as many blocks behind the
/// header as the masks of the slots before it have ones.
pub proof fn law_every_slot_is_found(w: WalkState, h: Seq<u8>, dev: int, i: int)
    requires
        h.len() == 512,
        h[0] == 0x56 && h[1] == 0x4d && h[2] == 0x41 && h[3] == 0x45,
        0 <= dev < w.found.len(),
        0 <= w.pos,
        w.pos + 512 + 59 * 65536 <= u64::MAX,
        0 <= i < 59,
        slot_is_for(h, i, dev),
    ensures
        exists|k: int|
            w.found[dev].len() <= k < walk_step(w, h).found[dev].len() && says_slot(
                #[trigger] walk_step(w, h).found[dev][k],
                h,
                w.pos + 512,
                i,
            ),
{
    law_extent_adds_its_slots(w, h, dev);
    let n = w.found[dev].len() as int;
    let after = walk_step(w, h).found[dev];
    let at = choose|at: Seq<int>|
        #[trigger] entries_of_slots(after.skip(n), at, h, w.pos + 512, dev, 59);
    let k = choose|k: int| 0 <= k < at.len() && at[k] == i;
    assert(says_slot(after.skip(n)[k], h, w.pos + 512, at[k]));
    assert(after[n + k] == after.skip(n)[k]);
}

/// A walk goes on behind the blocks of an extent, of which the header has the number in bytes 6
/// and 7, or 512 bytes further where there is no extent, and then has found nothing. It goes on
/// as long as a whole header is left, and starts at the first multiple of 512 behind the header
/// of the archive, with nothing found.
pub proof fn law_walk_goes_from_extent_to_extent(
    w: WalkState,
    h: Seq<u8>,
    header_len: int,
    devices: nat,
)
    requires
        h.len() == 512,
        0 <= header_len,
    ensures
        ({
            let next = walk_step(w, h);
            let extent = h[0] == 0x56 && h[1] == 0x4d && h[2] == 0x41 && h[3] == 0x45;
            &&& next.file_len == w.file_len
            &&& extent ==> next.pos == w.pos + 512 + 4096 * big_endian(h.subrange(6, 8))
            &&& !extent ==> next.pos == w.pos + 512 && next.found == w.found
        }),
        walk_goes_on(w) <==> w.file_len - w.pos >= 512,
        ({
            let start = walk_start(header_len, w.file_len, devices);
            &&& start.file_len == w.file_len
            &&& start.pos % 512 == 0
            &&& header_len <= start.pos < header_len + 512
            &&& start.found.len() == devices
            &&& forall|d: int| 0 <= d < devices ==> (#[trigger] start.found[d]).len() == 0
        }),
{
    crate::bytes::law_numbers_are_their_bytes(h, 6);
    crate::bytes::law_signature_is_byte_by_byte(h, 0, seq![0x56u8, 0x4d, 0x41, 0x45]);
    let magic = seq![0x56u8, 0x4d, 0x41, 0x45];
    if is_extent(h) {
        assert(h[0] == magic[0]);
        assert(h[1] == magic[1]);
        assert(h[2] == magic[2]);
        assert(h[3] == magic[3]);
    } else if h[0] == 0x56 && h[1] == 0x4d && h[2] == 0x41 && h[3] == 0x45 {
        assert(h.subrange(0, 4) =~= magic);
    }
}

/// A walk that is carried through takes the 512 bytes at its place as long as the file has so
/// many there, and goes on behind what they start.
pub proof fn law_walk_takes_every_header(file: Seq<u8>, w: WalkState)
    requires
        w.file_len == file.len(),
        0 <= w.pos,
    ensures
        w.file_len - w.pos < 512 ==> walk_run(file, w) == w,
        w.file_len - w.pos >= 512 ==> walk_run(file, w) == walk_run(
            file,
            walk_step(w, file.subrange(w.pos, w.pos + 512)),
        ),
{
}

// ---------------------------------------------------------------- slots of all extents

/// Slot `t.1` of extent `t.0` of a chain names something of a device.
pub open spec fn chain_slot_is_for(
    file: Seq<u8>,
    chain: Seq<int>,
    dev: int,
    t: (int, int),
) -> bool {
    &&& 0 <= t.0 < chain.len()
    &&& 0 <= t.1 < 59
    &&& slot_is_for(header_at(file, chain[t.0]), t.1, dev)
}

/// A slot stands before another: in an earlier extent, or earlier in the same.
pub open spec fn slot_before(a: (int, int), b: (int, int)) -> bool {
    a.0 < b.0 || (a.0 == b.0 && a.1 < b.1)
}

/// The slots `tags` are those of a chain for a device, in order, and `entries` say what they say.
pub open spec fn entries_of_chain(
    entries: Seq<ClusterEntry>,
    tags: Seq<(int, int)>,
    file: Seq<u8>,
    chain: Seq<int>,
    dev: int,
) -> bool {
    &&& entries.len() == tags.len()
    &&& forall|k: int|
        0 <= k < tags.len() ==> chain_slot_is_for(file, chain, dev, #[trigger] tags[k])
            && says_slot(
            entries[k],
            header_at(file, chain[tags[k].0]),
            chain[tags[k].0] + 512,
            tags[k].1,
        )
    &&& forall|j: int, k: int|
        0 <= j < k < tags.len() ==> slot_before(#[trigger] tags[j], #[trigger] tags[k])
    &&& forall|t: (int, int)| #[trigger]
        chain_slot_is_for(file, chain, dev, t) ==> tags.contains(t)
}

proof fn lemma_chain_slots_are_those(file: Seq<u8>, chain: Seq<int>, dev: int) -> (tags: Seq<
    (int, int),
>)
    requires
        file.len() + 59 * 65536 <= u64::MAX,
        forall|m: int| 0 <= m < chain.len() ==> 0 <= #[trigger] chain[m] <= file.len() - 512,
    ensures
        entries_of_chain(chain_slots(file, chain, dev), tags, file, chain, dev),
    decreases chain.len(),
{
    if chain.len() == 0 {
        seq![]
    } else {
        let later = chain.drop_first();
        assert forall|m: int| 0 <= m < later.len() implies 0 <= #[trigger] later[m] <= file.len()
            - 512 by {
            assert(later[m] == chain[m + 1]);
        }
        let h = header_at(file, chain[0]);
        let rest = lemma_chain_slots_are_those(file, later, dev);
        let at = lemma_device_slots_are_those(h, chain[0] + 512, dev, 59);
        let own = device_slots(h, chain[0] + 512, dev, 59);
        let others = chain_slots(file, later, dev);
        let all = chain_slots(file, chain, dev);
        let n = at.len() as int;
        let tags = Seq::new(
            (n + rest.len()) as nat,
            |k: int| if k < n { (0int, at[k]) } else { (rest[k - n].0 + 1, rest[k - n].1) },
        );
        assert forall|k: int| 0 <= k < tags.len() implies chain_slot_is_for(
            file,
            chain,
            dev,
            #[trigger] tags[k],
        ) && says_slot(
            all[k],
            header_at(file, chain[tags[k].0]),
            chain[tags[k].0] + 512,
            tags[k].1,
        ) by {
            if k < n {
                assert(says_slot(own[k], h, chain[0] + 512, at[k]));
            } else {
                assert(chain_slot_is_for(file, later, dev, rest[k - n]));
                assert(all[k] == others[k - n]);
                assert(later[rest[k - n].0] == chain[rest[k - n].0 + 1]);
            }
        }
        assert forall|j: int, k: int| 0 <= j < k < tags.len() implies slot_before(
            #[trigger] tags[j],
            #[trigger] tags[k],
        ) by {
            if k < n {
                assert(at[j] < at[k]);
            } else if j < n {
                assert(chain_slot_is_for(file, later, dev, rest[k - n]));
            } else {
                assert(slot_before(rest[j - n], rest[k - n]));
            }
        }
        assert forall|t: (int, int)| #[trigger]
            chain_slot_is_for(file, chain, dev, t) implies tags.contains(t) by {
            if t.0 == 0 {
                assert(slot_is_for(h, t.1, dev));
                let k = choose|k: int| 0 <= k < at.len() && at[k] == t.1;
                assert(tags[k] == t);
            } else {
                let u = (t.0 - 1, t.1);
                assert(later[u.0] == chain[t.0]);
                assert(chain_slot_is_for(file, later, dev, u));
                let k = choose|k: int| 0 <= k < rest.len() && rest[k] == u;
                assert(tags[k + n] == t);
            }
        }
        tags
    }
}

/// What a walk finds of a device are all slots for it in the extents of the file, in the order of
/// the file, and nothing else.
pub proof fn law_chain_holds_all_slots(file: Seq<u8>, pos: int, dev: int)
    requires
        0 <= pos,
        file.len() + 59 * 65536 <= u64::MAX,
    ensures
        exists|tags: Seq<(int, int)>|
            #[trigger] entries_of_chain(
                chain_slots(file, extent_chain(file, pos), dev),
                tags,
                file,
                extent_chain(file, pos),
                dev,
            ),
{
    let chain = extent_chain(file, pos);
    law_chain_rises(file, pos);
    assert forall|m: int| 0 <= m < chain.len() implies 0 <= #[trigger] chain[m] <= file.len()
        - 512 by {
        assert(extent_stands_at(file, pos, chain[m]));
    }
    let tags = lemma_chain_slots_are_those(file, chain, dev);
    assert(entries_of_chain(chain_slots(file, chain, dev), tags, file, chain, dev));
}

/// The extents of a file are those to which one comes from `pos` on, by going over 512 bytes that
/// start none and over the blocks of those that there are.
pub proof fn law_chain_goes_over_all_headers(file: Seq<u8>, pos: int)
    requires
        0 <= pos,
    ensures
        pos + 512 > file.len() ==> extent_chain(file, pos).len() == 0,
        pos + 512 <= file.len() ==> {
            let extent = file[pos] == 0x56 && file[pos + 1] == 0x4d && file[pos + 2] == 0x41
                && file[pos + 3] == 0x45;
            &&& !extent ==> extent_chain(file, pos) == extent_chain(file, pos + 512)
            &&& extent ==> extent_chain(file, pos) == seq![pos] + extent_chain(
                file,
                pos + 512 + 4096 * big_endian(file.subrange(pos + 6, pos + 8)),
            )
        },
{
    if pos + 512 <= file.len() {
        let h = header_at(file, pos);
        let w = WalkState { pos, file_len: file.len() as int, found: seq![] };
        law_walk_goes_from_extent_to_extent(w, h, 0, 0);
        assert(h.subrange(6, 8) =~= file.subrange(pos + 6, pos + 8));
        assert(h[0] == file[pos] && h[1] == file[pos + 1] && h[2] == file[pos + 2] && h[3]
            == file[pos + 3]);
        let magic = seq![0x56u8, 0x4d, 0x41, 0x45];
        if is_extent(h) {
            assert(h.subrange(0, 4) == magic);
            assert(h.subrange(0, 4)[0] == magic[0] && h.subrange(0, 4)[1] == magic[1]
                && h.subrange(0, 4)[2] == magic[2] && h.subrange(0, 4)[3] == magic[3]);
        } else if h[0] == 0x56 && h[1] == 0x4d && h[2] == 0x41 && h[3] == 0x45 {
            assert(h.subrange(0, 4) =~= magic);
        }
    }
}

} // verus!
