//! Clusters of a device: which blocks of one are stored, and where.
//!
//! A cluster has sixteen blocks of 4096 bytes. Its mask has a bit for each block that the
//! archive stores; the stored blocks stand one behind the other, the others read as zeros.
use vstd::prelude::*;

verus! {

pub const BLOCK_SIZE: usize = 4096;

pub const BLOCKS_PER_CLUSTER: usize = 16;

/// Where the stored blocks of one cluster stand in the archive.
#[derive(Clone, Copy, Debug)]
pub struct ClusterEntry {
    /// Number of the cluster within its device.
    pub cluster: u64,
    /// Byte offset of the first stored block within the archive file.
    pub offset: u64,
    /// One bit for each stored block.
    pub mask: u16,
}

// ---------------------------------------------------------------- masks

/// Block `b` is stored.
pub open spec fn stored(mask: u16, b: int) -> bool {
    (mask >> (b as u16)) & 1 == 1
}

/// How many of the first `b` blocks are stored.
pub open spec fn stored_before(mask: u16, b: int) -> int
    decreases b,
{
    if b <= 0 {
        0
    } else {
        stored_before(mask, b - 1) + (if stored(mask, b - 1) { 1int } else { 0int })
    }
}

/// How many bytes the archive holds for a cluster with this mask.
pub open spec fn stored_bytes(mask: u16) -> int {
    stored_before(mask, 16) * 4096
}

pub proof fn lemma_stored_before_bounds(mask: u16, a: int, b: int)
    requires
        0 <= a <= b,
    ensures
        stored_before(mask, a) <= stored_before(mask, b) <= stored_before(mask, a) + (b - a),
        0 <= stored_before(mask, a) <= a,
    decreases b,
{
    if a < b {
        lemma_stored_before_bounds(mask, a, b - 1);
    } else if a > 0 {
        lemma_stored_before_bounds(mask, a - 1, a - 1);
    }
}

/// No block is stored where the mask is empty.
pub proof fn law_empty_mask_stores_nothing(b: int)
    requires
        0 <= b <= 16,
    ensures
        stored_before(0, b) == 0,
        b < 16 ==> !stored(0, b),
    decreases b,
{
    if b > 0 {
        law_empty_mask_stores_nothing(b - 1);
    }
    let n = b as u16;
    assert((0u16 >> n) & 1 == 0) by (bit_vector);
}

/// Each block is stored where the mask is full: 65536 bytes in all.
pub proof fn law_full_mask_stores_everything(b: int)
    requires
        0 <= b <= 16,
    ensures
        stored_before(0xffff, b) == b,
        b < 16 ==> stored(0xffff, b),
    decreases b,
{
    if b > 0 {
        law_full_mask_stores_everything(b - 1);
    }
    if b < 16 {
        let n = b as u16;
        assert((0xffffu16 >> n) & 1 == 1) by (bit_vector)
            requires
                n < 16,
        ;
    }
}

/// Whether block `b` is stored.
pub fn is_stored(mask: u16, b: usize) -> (r: bool)
    requires
        b < 16,
    ensures
        r == stored(mask, b as int),
{
    (mask >> (b as u16)) & 1 == 1
}

/// The number of stored bytes of a cluster.
pub fn stored_len(mask: u16) -> (r: usize)
    ensures
        r == stored_bytes(mask),
        r <= 65536,
{
    let mut n: usize = 0;
    let mut b: usize = 0;
    while b < BLOCKS_PER_CLUSTER
        invariant
            b <= 16,
            n == stored_before(mask, b as int),
            n <= b,
        decreases 16 - b,
    {
        if is_stored(mask, b) {
            n = n + 1;
        }
        b = b + 1;
    }
    n * BLOCK_SIZE
}

// ---------------------------------------------------------------- contents of one cluster

/// The contents of a cluster: each stored block from `payload`, zeros for the others.
pub open spec fn scattered(mask: u16, payload: Seq<u8>) -> Seq<u8> {
    Seq::new(65536, |i: int| scattered_byte(mask, payload, i))
}

/// Byte `i` of a cluster.
pub open spec fn scattered_byte(mask: u16, payload: Seq<u8>, i: int) -> u8 {
    if stored(mask, i / 4096) {
        payload[stored_before(mask, i / 4096) * 4096 + i % 4096]
    } else {
        0
    }
}

/// A cluster that is not stored.
pub open spec fn zero_cluster() -> Seq<u8> {
    Seq::new(65536, |i: int| 0u8)
}

/// A cluster with an empty mask is all zeros.
pub proof fn law_empty_mask_reads_as_zeros(payload: Seq<u8>)
    ensures
        scattered(0, payload) == zero_cluster(),
{
    assert forall|i: int| 0 <= i < 65536 implies scattered_byte(0, payload, i) == 0 by {
        law_empty_mask_stores_nothing(i / 4096);
    }
    assert(scattered(0, payload) =~= zero_cluster());
}

/// A cluster with a full mask is its payload.
pub proof fn law_full_mask_reads_as_payload(payload: Seq<u8>)
    requires
        payload.len() == 65536,
    ensures
        scattered(0xffff, payload) == payload,
{
    assert forall|i: int| 0 <= i < 65536 implies scattered_byte(0xffff, payload, i) == payload[i] by {
        law_full_mask_stores_everything(i / 4096);
    }
    assert(scattered(0xffff, payload) =~= payload);
}

/// Lays the stored blocks of a cluster out at their places.
pub fn scatter(mask: u16, payload: &[u8]) -> (r: Vec<u8>)
    requires
        payload.len() == stored_bytes(mask),
    ensures
        r@ == scattered(mask, payload@),
{
    let mut out: Vec<u8> = Vec::with_capacity(65536);
    let mut taken: usize = 0;
    let mut b: usize = 0;
    while b < BLOCKS_PER_CLUSTER
        invariant
            b <= 16,
            taken == stored_before(mask, b as int) * 4096,
            taken <= b * 4096,
            payload.len() == stored_bytes(mask),
            out.len() == b * 4096,
            forall|i: int| 0 <= i < out.len() ==> out@[i] == scattered_byte(mask, payload@, i),
        decreases 16 - b,
    {
        let ghost before = out@;
        if is_stored(mask, b) {
            proof {
                lemma_stored_before_bounds(mask, b + 1, 16);
            }
            out.extend_from_slice(vstd::slice::slice_subrange(payload, taken, taken + BLOCK_SIZE));
            assert forall|i: int| 0 <= i < out.len() implies out@[i] == scattered_byte(
                mask,
                payload@,
                i,
            ) by {
                if i >= b * 4096 {
                    assert(i / 4096 == b && i % 4096 == i - b * 4096);
                    assert(out@[i] == payload@[taken + (i - b * 4096)]);
                } else {
                    assert(out@[i] == before[i]);
                }
            }
            taken = taken + BLOCK_SIZE;
        } else {
            out.extend_from_slice(crate::bytes::zeros(BLOCK_SIZE).as_slice());
            assert forall|i: int| 0 <= i < out.len() implies out@[i] == scattered_byte(
                mask,
                payload@,
                i,
            ) by {
                if i >= b * 4096 {
                    assert(i / 4096 == b);
                } else {
                    assert(out@[i] == before[i]);
                }
            }
        }
        b = b + 1;
    }
    assert(out@ =~= scattered(mask, payload@));
    out
}

// ---------------------------------------------------------------- index

/// The cluster numbers rise from entry to entry.
pub open spec fn rising(index: Seq<ClusterEntry>) -> bool {
    forall|i: int, j: int| 0 <= i < j < index.len() ==> index[i].cluster < index[j].cluster
}

/// Entry `i` is the first of `raw` for its cluster.
pub open spec fn is_first(raw: Seq<ClusterEntry>, i: int) -> bool {
    &&& 0 <= i < raw.len()
    &&& forall|j: int| 0 <= j < i ==> raw[j].cluster != raw[i].cluster
}

/// `e` is the first entry of `raw` for its cluster.
pub open spec fn is_a_first(raw: Seq<ClusterEntry>, e: ClusterEntry) -> bool {
    exists|i: int| #[trigger] is_first(raw, i) && raw[i] == e
}

/// `index` holds, in rising order, the first entry of `raw` for each cluster, and no others.
pub open spec fn indexes(index: Seq<ClusterEntry>, raw: Seq<ClusterEntry>) -> bool {
    &&& rising(index)
    &&& forall|i: int| #[trigger] is_first(raw, i) ==> index.contains(raw[i])
    &&& forall|k: int| 0 <= k < index.len() ==> is_a_first(raw, #[trigger] index[k])
}

/// Each cluster of `raw` has a first entry.
proof fn lemma_first_exists(raw: Seq<ClusterEntry>, n: int)
    requires
        0 <= n < raw.len(),
    ensures
        exists|i: int| 0 <= i <= n && is_first(raw, i) && raw[i].cluster == raw[n].cluster,
    decreases n,
{
    if is_first(raw, n) {
    } else {
        let j = choose|j: int| 0 <= j < n && raw[j].cluster == raw[n].cluster;
        lemma_first_exists(raw, j);
    }
}

/// An index names exactly the clusters that the entries name.
proof fn lemma_index_covers(index: Seq<ClusterEntry>, raw: Seq<ClusterEntry>, n: int)
    requires
        indexes(index, raw),
        0 <= n < raw.len(),
    ensures
        exists|k: int| 0 <= k < index.len() && index[k].cluster == raw[n].cluster,
{
    lemma_first_exists(raw, n);
    let i = choose|i: int| 0 <= i <= n && is_first(raw, i) && raw[i].cluster == raw[n].cluster;
    assert(index.contains(raw[i]));
}

/// There is only one index of given entries.
pub proof fn law_index_is_unique(
    a: Seq<ClusterEntry>,
    b: Seq<ClusterEntry>,
    raw: Seq<ClusterEntry>,
)
    requires
        indexes(a, raw),
        indexes(b, raw),
    ensures
        a == b,
{
    assert forall|x: ClusterEntry| a.contains(x) implies b.contains(x) by {
        let k = choose|k: int| 0 <= k < a.len() && a[k] == x;
        let i = choose|i: int| #[trigger] is_first(raw, i) && raw[i] == a[k];
        assert(b.contains(raw[i]));
    }
    assert forall|x: ClusterEntry| b.contains(x) implies a.contains(x) by {
        let k = choose|k: int| 0 <= k < b.len() && b[k] == x;
        let i = choose|i: int| #[trigger] is_first(raw, i) && raw[i] == b[k];
        assert(a.contains(raw[i]));
    }
    lemma_rising_with_same_members(a, b);
}

proof fn lemma_rising_with_same_members(a: Seq<ClusterEntry>, b: Seq<ClusterEntry>)
    requires
        rising(a),
        rising(b),
        forall|x: ClusterEntry| a.contains(x) <==> b.contains(x),
    ensures
        a == b,
    decreases a.len(),
{
    if a.len() == 0 {
        if b.len() > 0 {
            assert(b.contains(b[0]));
        }
        assert(a =~= b);
    } else if b.len() == 0 {
        assert(a.contains(a[0]));
    } else {
        assert(b.contains(a.last()));
        assert(a.contains(b.last()));
        let i = choose|i: int| 0 <= i < b.len() && b[i] == a.last();
        let j = choose|j: int| 0 <= j < a.len() && a[j] == b.last();
        assert(i == b.len() - 1 || b[i].cluster < b.last().cluster);
        assert(j == a.len() - 1 || a[j].cluster < a.last().cluster);
        assert(a.last() == b.last());
        let x = a.drop_last();
        let y = b.drop_last();
        assert forall|e: ClusterEntry| x.contains(e) <==> y.contains(e) by {
            if x.contains(e) {
                let p = choose|p: int| 0 <= p < x.len() && x[p] == e;
                assert(a[p] == e);
                assert(a.contains(e));
                let q = choose|q: int| 0 <= q < b.len() && b[q] == e;
                assert(y[q] == e);
            }
            if y.contains(e) {
                let p = choose|p: int| 0 <= p < y.len() && y[p] == e;
                assert(b[p] == e);
                assert(b.contains(e));
                let q = choose|q: int| 0 <= q < a.len() && a[q] == e;
                assert(x[q] == e);
            }
        }
        lemma_rising_with_same_members(x, y);
        assert(a =~= x.push(a.last()));
        assert(b =~= y.push(b.last()));
    }
}

/// `index` has an entry for `cluster`.
pub open spec fn names(index: Seq<ClusterEntry>, cluster: u64) -> bool {
    exists|k: int| 0 <= k < index.len() && #[trigger] index[k].cluster == cluster
}

/// `out` is `l` and those entries of `r` whose cluster `l` does not name, in rising order.
spec fn merges(out: Seq<ClusterEntry>, l: Seq<ClusterEntry>, r: Seq<ClusterEntry>) -> bool {
    &&& rising(out)
    &&& forall|k: int| 0 <= k < l.len() ==> out.contains(#[trigger] l[k])
    &&& forall|k: int|
        0 <= k < r.len() ==> out.contains(#[trigger] r[k]) || names(l, r[k].cluster)
    &&& forall|k: int|
        0 <= k < out.len() ==> l.contains(#[trigger] out[k]) || (r.contains(out[k]) && !names(
            l,
            out[k].cluster,
        ))
}

fn merge(l: &Vec<ClusterEntry>, r: &Vec<ClusterEntry>) -> (out: Vec<ClusterEntry>)
    requires
        rising(l@),
        rising(r@),
    ensures
        merges(out@, l@, r@),
{
    let mut out: Vec<ClusterEntry> = Vec::new();
    let mut i: usize = 0;
    let mut j: usize = 0;
    while i < l.len() || j < r.len()
        invariant
            i <= l.len(),
            j <= r.len(),
            rising(l@),
            rising(r@),
            rising(out@),
            i < l.len() ==> forall|k: int|
                0 <= k < out.len() ==> (#[trigger] out@[k]).cluster < l@[i as int].cluster,
            j < r.len() ==> forall|k: int|
                0 <= k < out.len() ==> (#[trigger] out@[k]).cluster < r@[j as int].cluster,
            forall|k: int| 0 <= k < i ==> out@.contains(#[trigger] l@[k]),
            forall|k: int|
                0 <= k < j ==> out@.contains(#[trigger] r@[k]) || names(l@, r@[k].cluster),
            forall|k: int|
                0 <= k < out.len() ==> l@.contains(#[trigger] out@[k]) || (r@.contains(out@[k])
                    && !names(l@, out@[k].cluster)),
        decreases (l.len() - i) + (r.len() - j),
    {
        let ghost before = out@;
        if i < l.len() && (j >= r.len() || l[i].cluster <= r[j].cluster) {
            if j < r.len() && l[i].cluster == r[j].cluster {
                j = j + 1;
            }
            out.push(l[i]);
            assert(l@.contains(l@[i as int]));
            assert(out@[out@.len() - 1] == l@[i as int]);
            i = i + 1;
        } else {
            assert(!names(l@, r@[j as int].cluster)) by {
                if names(l@, r@[j as int].cluster) {
                    let m = choose|m: int|
                        0 <= m < l@.len() && #[trigger] l@[m].cluster == r@[j as int].cluster;
                    if m < i {
                        assert(out@.contains(l@[m]));
                    } else {
                        assert(l@[i as int].cluster <= l@[m].cluster);
                    }
                }
            }
            out.push(r[j]);
            assert(r@.contains(r@[j as int]));
            assert(out@[out@.len() - 1] == r@[j as int]);
            j = j + 1;
        }
        assert forall|e: ClusterEntry| before.contains(e) implies out@.contains(e) by {
            let k = choose|k: int| 0 <= k < before.len() && before[k] == e;
            assert(out@[k] == e);
        }
        assert forall|k: int| 0 <= k < before.len() implies out@[k] == #[trigger] before[k] by {}
    }
    out
}

proof fn lemma_merge_indexes(
    out: Seq<ClusterEntry>,
    l: Seq<ClusterEntry>,
    r: Seq<ClusterEntry>,
    a: Seq<ClusterEntry>,
    b: Seq<ClusterEntry>,
)
    requires
        merges(out, l, r),
        indexes(l, a),
        indexes(r, b),
    ensures
        indexes(out, a + b),
{
    let raw = a + b;
    assert forall|i: int| #[trigger] is_first(raw, i) implies out.contains(raw[i]) by {
        if i < a.len() {
            assert(is_first(a, i)) by {
                assert forall|j: int| 0 <= j < i implies a[j].cluster != a[i].cluster by {
                    assert(raw[j].cluster != raw[i].cluster);
                }
            }
            assert(l.contains(a[i]));
            let k = choose|k: int| 0 <= k < l.len() && l[k] == a[i];
            assert(out.contains(l[k]));
        } else {
            let n = i - a.len();
            assert(is_first(b, n)) by {
                assert forall|j: int| 0 <= j < n implies b[j].cluster != b[n].cluster by {
                    assert(raw[j + a.len()].cluster != raw[i].cluster);
                }
            }
            assert(r.contains(b[n]));
            let k = choose|k: int| 0 <= k < r.len() && r[k] == b[n];
            if names(l, r[k].cluster) {
                let m = choose|m: int| 0 <= m < l.len() && #[trigger] l[m].cluster == r[k].cluster;
                assert(is_a_first(a, l[m]));
                let f = choose|f: int| #[trigger] is_first(a, f) && a[f] == l[m];
                assert(raw[f].cluster == raw[i].cluster);
                assert(false);
            }
            assert(out.contains(r[k]));
        }
    }
    assert forall|k: int| 0 <= k < out.len() implies is_a_first(raw, #[trigger] out[k]) by {
        if l.contains(out[k]) {
            let m = choose|m: int| 0 <= m < l.len() && l[m] == out[k];
            assert(is_a_first(a, l[m]));
            let f = choose|f: int| #[trigger] is_first(a, f) && a[f] == l[m];
            assert(is_first(raw, f)) by {
                assert forall|j: int| 0 <= j < f implies raw[j].cluster != raw[f].cluster by {
                    assert(a[j].cluster != a[f].cluster);
                }
            }
        } else {
            let m = choose|m: int| 0 <= m < r.len() && r[m] == out[k];
            assert(is_a_first(b, r[m]));
            let f = choose|f: int| #[trigger] is_first(b, f) && b[f] == r[m];
            let i = f + a.len();
            assert(is_first(raw, i)) by {
                assert forall|j: int| 0 <= j < i implies raw[j].cluster != raw[i].cluster by {
                    if j < a.len() {
                        if a[j].cluster == b[f].cluster {
                            lemma_index_covers(l, a, j);
                            assert(names(l, out[k].cluster));
                        }
                    } else {
                        assert(b[j - a.len()].cluster != b[f].cluster);
                    }
                }
            }
            assert(raw[i] == out[k]);
        }
    }
}

fn build_between(raw: &Vec<ClusterEntry>, from: usize, to: usize) -> (out: Vec<ClusterEntry>)
    requires
        from <= to <= raw.len(),
    ensures
        indexes(out@, raw@.subrange(from as int, to as int)),
    decreases to - from,
{
    let ghost part = raw@.subrange(from as int, to as int);
    let mut out: Vec<ClusterEntry> = Vec::new();
    if from == to {
        return out;
    }
    if to - from == 1 {
        out.push(raw[from]);
        assert(out@ =~= part);
        assert(is_first(part, 0));
        assert forall|k: int| 0 <= k < out@.len() implies is_a_first(part, #[trigger] out@[k]) by {
            assert(is_first(part, k));
        }
        assert(out@.contains(out@[0]));
        return out;
    }
    let mid = from + (to - from) / 2;
    let l = build_between(raw, from, mid);
    let r = build_between(raw, mid, to);
    out = merge(&l, &r);
    proof {
        let a = raw@.subrange(from as int, mid as int);
        let b = raw@.subrange(mid as int, to as int);
        lemma_merge_indexes(out@, l@, r@, a, b);
        assert(a + b =~= part);
    }
    out
}

/// The clusters of a device that an archive stores, in rising order.
pub struct ClusterIndex {
    entries: Vec<ClusterEntry>,
}

impl View for ClusterIndex {
    type V = Seq<ClusterEntry>;

    closed spec fn view(&self) -> Seq<ClusterEntry> {
        self.entries@
    }
}

impl ClusterIndex {
    #[verifier::type_invariant]
    pub open spec fn always_rising(self) -> bool {
        rising(self@)
    }

    /// An index without clusters.
    pub fn new() -> (r: Self)
        ensures
            r@ == Seq::<ClusterEntry>::empty(),
    {
        ClusterIndex { entries: Vec::new() }
    }

    /// The entries, in order.
    pub fn entries(&self) -> (r: &Vec<ClusterEntry>)
        ensures
            r@ == self@,
            rising(r@),
    {
        proof {
            use_type_invariant(self);
        }
        &self.entries
    }

    /// The same index once more.
    pub fn duplicate(&self) -> (r: Self)
        ensures
            r@ == self@,
    {
        proof {
            use_type_invariant(self);
        }
        let mut entries: Vec<ClusterEntry> = Vec::new();
        entries.extend_from_slice(self.entries.as_slice());
        assert(entries@ =~= self.entries@);
        ClusterIndex { entries }
    }
}

/// Sorts the entries by cluster; of several for one cluster the first stays.
pub fn build_index(raw: &Vec<ClusterEntry>) -> (out: ClusterIndex)
    ensures
        indexes(out@, raw@),
{
    let entries = build_between(raw, 0, raw.len());
    assert(raw@.subrange(0, raw@.len() as int) =~= raw@);
    ClusterIndex { entries }
}

// ---------------------------------------------------------------- lookup

/// The entry of `index` for `cluster`.
pub open spec fn entry_for(index: Seq<ClusterEntry>, cluster: u64) -> Option<ClusterEntry> {
    if names(index, cluster) {
        Some(index[choose|k: int| 0 <= k < index.len() && #[trigger] index[k].cluster == cluster])
    } else {
        None
    }
}

/// An index looks up the first entry that was stored for a cluster.
pub proof fn law_first_entry_wins(index: Seq<ClusterEntry>, raw: Seq<ClusterEntry>, i: int)
    requires
        indexes(index, raw),
        is_first(raw, i),
    ensures
        entry_for(index, raw[i].cluster) == Some(raw[i]),
{
    assert(index.contains(raw[i]));
    let k = choose|k: int| 0 <= k < index.len() && index[k] == raw[i];
    let c = raw[i].cluster;
    assert(index[k].cluster == c);
    let m = choose|m: int| 0 <= m < index.len() && #[trigger] index[m].cluster == c;
    assert(m == k);
}

/// An index looks nothing up for a cluster that no entry names.
pub proof fn law_unnamed_cluster_is_absent(
    index: Seq<ClusterEntry>,
    raw: Seq<ClusterEntry>,
    cluster: u64,
)
    requires
        indexes(index, raw),
        !names(raw, cluster),
    ensures
        entry_for(index, cluster) is None,
{
    if names(index, cluster) {
        let k = choose|k: int| 0 <= k < index.len() && #[trigger] index[k].cluster == cluster;
        assert(is_a_first(raw, index[k]));
        let i = choose|i: int| #[trigger] is_first(raw, i) && raw[i] == index[k];
        assert(raw[i].cluster == cluster);
    }
}

/// Finds the entry for a cluster by bisection.
pub fn find_entry(index: &ClusterIndex, cluster: u64) -> (r: Option<ClusterEntry>)
    ensures
        r == entry_for(index@, cluster),
{
    let entries = index.entries();
    let mut lo: usize = 0;
    let mut hi: usize = entries.len();
    while lo < hi
        invariant
            lo <= hi <= entries.len(),
            entries@ == index@,
            rising(index@),
            forall|k: int| 0 <= k < lo ==> (#[trigger] index@[k]).cluster < cluster,
            forall|k: int| hi <= k < index@.len() ==> (#[trigger] index@[k]).cluster > cluster,
        decreases hi - lo,
    {
        let mid = lo + (hi - lo) / 2;
        let c = entries[mid].cluster;
        if c == cluster {
            proof {
                assert(index@[mid as int].cluster == cluster);
                let m = choose|m: int|
                    0 <= m < index@.len() && #[trigger] index@[m].cluster == cluster;
                assert(m == mid);
            }
            return Some(entries[mid]);
        }
        if c < cluster {
            lo = mid + 1;
        } else {
            hi = mid;
        }
    }
    None
}

// ---------------------------------------------------------------- what masks and indexes mean

/// How many of the lowest `k` binary digits of `n` are ones.
pub open spec fn ones_below(n: nat, k: nat) -> nat
    decreases k,
{
    if k == 0 {
        0
    } else {
        ones_below(n, (k - 1) as nat) + (n / vstd::arithmetic::power2::pow2((k - 1) as nat)) % 2
    }
}

/// Block `b` is stored where binary digit `b` of the mask is a one, and each one of the mask
/// stands for 4096 bytes.
pub proof fn law_mask_has_a_digit_for_each_block(mask: u16, b: nat)
    requires
        b <= 16,
    ensures
        b < 16 ==> (stored(mask, b as int) <==> (mask as nat
            / vstd::arithmetic::power2::pow2(b)) % 2 == 1),
        stored_before(mask, b as int) == ones_below(mask as nat, b),
        stored_bytes(mask) == 4096 * ones_below(mask as nat, 16),
{
    lemma_stored_before_counts(mask, b);
    lemma_stored_before_counts(mask, 16);
    if b < 16 {
        lemma_stored_is_a_digit(mask, b);
    }
}

proof fn lemma_stored_is_a_digit(mask: u16, b: nat)
    requires
        b < 16,
    ensures
        stored(mask, b as int) <==> (mask as nat / vstd::arithmetic::power2::pow2(b)) % 2 == 1,
{
    vstd::bits::lemma_u16_shr_is_div(mask, b as u16);
    let x = mask >> (b as u16);
    assert(x & 1 == x % 2) by (bit_vector);
}

proof fn lemma_stored_before_counts(mask: u16, b: nat)
    requires
        b <= 16,
    ensures
        stored_before(mask, b as int) == ones_below(mask as nat, b),
    decreases b,
{
    if b > 0 {
        lemma_stored_before_counts(mask, (b - 1) as nat);
        lemma_stored_is_a_digit(mask, (b - 1) as nat);
    }
}

/// Byte `j` of block `b` of a cluster: from the payload where the block is stored, behind as
/// many blocks as there are ones below in the mask; zero where it is not stored.
pub proof fn law_blocks_stand_at_their_places(mask: u16, payload: Seq<u8>, b: nat, j: int)
    requires
        b < 16,
        0 <= j < 4096,
    ensures
        scattered(mask, payload).len() == 65536,
        (mask as nat / vstd::arithmetic::power2::pow2(b)) % 2 == 1 ==> scattered(mask, payload)[4096
            * b + j] == payload[4096 * ones_below(mask as nat, b) + j],
        (mask as nat / vstd::arithmetic::power2::pow2(b)) % 2 == 0 ==> scattered(mask, payload)[4096
            * b + j] == 0,
{
    law_mask_has_a_digit_for_each_block(mask, b);
    assert((4096 * b + j) / 4096 == b);
    assert((4096 * b + j) % 4096 == j);
}

/// An index holds of each cluster the entry that was given first, by which it is looked up; of a
/// cluster that no entry names it holds none. Its clusters rise, and it holds nothing else.
pub proof fn law_index_keeps_first_entries(
    index: Seq<ClusterEntry>,
    raw: Seq<ClusterEntry>,
    cluster: u64,
)
    requires
        indexes(index, raw),
    ensures
        forall|i: int|
            0 <= i < raw.len() && (#[trigger] raw[i]).cluster == cluster && (forall|j: int|
                0 <= j < i ==> (#[trigger] raw[j]).cluster != cluster) ==> entry_for(index, cluster)
                == Some(raw[i]) && index.contains(raw[i]),
        (forall|i: int| 0 <= i < raw.len() ==> (#[trigger] raw[i]).cluster != cluster)
            ==> entry_for(index, cluster) is None,
        forall|i: int, j: int|
            0 <= i < j < index.len() ==> (#[trigger] index[i]).cluster < (
            #[trigger] index[j]).cluster,
        forall|k: int| 0 <= k < index.len() ==> raw.contains(#[trigger] index[k]),
{
    assert forall|i: int|
        0 <= i < raw.len() && (#[trigger] raw[i]).cluster == cluster && (forall|j: int|
            0 <= j < i ==> (#[trigger] raw[j]).cluster != cluster) implies entry_for(index, cluster)
        == Some(raw[i]) && index.contains(raw[i]) by {
        assert(is_first(raw, i));
        law_first_entry_wins(index, raw, i);
    }
    if forall|i: int| 0 <= i < raw.len() ==> (#[trigger] raw[i]).cluster != cluster {
        law_unnamed_cluster_is_absent(index, raw, cluster);
    }
    assert forall|k: int| 0 <= k < index.len() implies raw.contains(#[trigger] index[k]) by {
        assert(is_a_first(raw, index[k]));
    }
}

/// Looking up a cluster in an index gives the entry that names it; none where there is none.
pub proof fn law_lookup_finds_the_entry(index: Seq<ClusterEntry>, cluster: u64)
    requires
        forall|i: int, j: int|
            0 <= i < j < index.len() ==> (#[trigger] index[i]).cluster < (
            #[trigger] index[j]).cluster,
    ensures
        forall|k: int|
            0 <= k < index.len() && (#[trigger] index[k]).cluster == cluster ==> entry_for(
                index,
                cluster,
            ) == Some(index[k]),
        (forall|k: int| 0 <= k < index.len() ==> (#[trigger] index[k]).cluster != cluster)
            ==> entry_for(index, cluster) is None,
{
    assert forall|k: int|
        0 <= k < index.len() && (#[trigger] index[k]).cluster == cluster implies entry_for(
        index,
        cluster,
    ) == Some(index[k]) by {
        let m = choose|m: int| 0 <= m < index.len() && #[trigger] index[m].cluster == cluster;
        assert(m == k);
    }
}

} // verus!
