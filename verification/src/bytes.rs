//! Fixed-width integers and signatures inside byte buffers.
use vstd::prelude::*;

verus! {

/// The big-endian 16-bit number at offset `o`.
pub open spec fn be16(d: Seq<u8>, o: int) -> int {
    d[o] * 0x100 + d[o + 1]
}

/// The big-endian 32-bit number at offset `o`.
pub open spec fn be32(d: Seq<u8>, o: int) -> int {
    be16(d, o) * 0x1_0000 + be16(d, o + 2)
}

/// The big-endian 64-bit number at offset `o`.
pub open spec fn be64(d: Seq<u8>, o: int) -> int {
    be32(d, o) * 0x1_0000_0000 + be32(d, o + 4)
}

/// The big-endian two's complement 64-bit number at offset `o`.
pub open spec fn be64_signed(d: Seq<u8>, o: int) -> int {
    signed64(be64(d, o))
}

/// The little-endian 16-bit number at offset `o`.
pub open spec fn le16(d: Seq<u8>, o: int) -> int {
    d[o] + d[o + 1] * 0x100
}

/// The little-endian 32-bit number at offset `o`.
pub open spec fn le32(d: Seq<u8>, o: int) -> int {
    le16(d, o) + le16(d, o + 2) * 0x1_0000
}

/// The little-endian 64-bit number at offset `o`.
pub open spec fn le64(d: Seq<u8>, o: int) -> int {
    le32(d, o) + le32(d, o + 4) * 0x1_0000_0000
}

/// What the 64 bits of `n` mean as a two's complement number.
pub open spec fn signed64(n: int) -> int {
    if n < 0x8000_0000_0000_0000 {
        n
    } else {
        n - 0x1_0000_0000_0000_0000
    }
}

/// `sig` stands in `d` at offset `o`.
pub open spec fn has_at(d: Seq<u8>, o: int, sig: Seq<u8>) -> bool {
    &&& 0 <= o
    &&& o + sig.len() <= d.len()
    &&& d.subrange(o, o + sig.len()) == sig
}

pub fn get_be16(d: &[u8], o: usize) -> (r: u16)
    requires
        o + 2 <= d.len(),
    ensures
        r == be16(d@, o as int),
{
    d[o] as u16 * 0x100 + d[o + 1] as u16
}

pub fn get_be32(d: &[u8], o: usize) -> (r: u32)
    requires
        o + 4 <= d.len(),
    ensures
        r == be32(d@, o as int),
{
    get_be16(d, o) as u32 * 0x1_0000 + get_be16(d, o + 2) as u32
}

pub fn get_be64(d: &[u8], o: usize) -> (r: u64)
    requires
        o + 8 <= d.len(),
    ensures
        r == be64(d@, o as int),
{
    get_be32(d, o) as u64 * 0x1_0000_0000 + get_be32(d, o + 4) as u64
}

pub fn get_be64_signed(d: &[u8], o: usize) -> (r: i64)
    requires
        o + 8 <= d.len(),
    ensures
        r == be64_signed(d@, o as int),
{
    to_signed(get_be64(d, o))
}

/// The two's complement reading of a 64-bit word.
pub fn to_signed(n: u64) -> (r: i64)
    ensures
        r == signed64(n as int),
{
    if n < 0x8000_0000_0000_0000 {
        n as i64
    } else {
        -((0xffff_ffff_ffff_ffff - n) as i64) - 1
    }
}

pub fn get_le16(d: &[u8], o: usize) -> (r: u16)
    requires
        o + 2 <= d.len(),
    ensures
        r == le16(d@, o as int),
{
    d[o] as u16 + d[o + 1] as u16 * 0x100
}

pub fn get_le32(d: &[u8], o: usize) -> (r: u32)
    requires
        o + 4 <= d.len(),
    ensures
        r == le32(d@, o as int),
{
    get_le16(d, o) as u32 + get_le16(d, o + 2) as u32 * 0x1_0000
}

pub fn get_le64(d: &[u8], o: usize) -> (r: u64)
    requires
        o + 8 <= d.len(),
    ensures
        r == le64(d@, o as int),
{
    get_le32(d, o) as u64 + get_le32(d, o + 4) as u64 * 0x1_0000_0000
}

/// Whether the bytes of `sig` stand in `d` from offset `o` on.
pub fn matches_at(d: &[u8], o: usize, sig: &[u8]) -> (r: bool)
    ensures
        r == has_at(d@, o as int, sig@),
{
    if sig.len() > d.len() || o > d.len() - sig.len() {
        return false;
    }
    let mut i: usize = 0;
    while i < sig.len()
        invariant
            i <= sig.len(),
            o + sig.len() <= d.len(),
            forall|j: int| 0 <= j < i ==> d@[o + j] == sig@[j],
        decreases sig.len() - i,
    {
        if d[o + i] != sig[i] {
            assert(d@.subrange(o as int, o + sig.len())[i as int] != sig@[i as int]);
            return false;
        }
        i = i + 1;
    }
    assert(d@.subrange(o as int, o + sig.len()) =~= sig@);
    true
}

/// A buffer of `n` zero bytes.
pub fn zeros(n: usize) -> (r: Vec<u8>)
    ensures
        r@ == Seq::new(n as nat, |i: int| 0u8),
{
    let r: Vec<u8> = vec![0u8; n];
    assert(r@ =~= Seq::new(n as nat, |i: int| 0u8));
    r
}

// ---------------------------------------------------------------- numbers as strings of bytes

/// The number that some bytes write in base 256, the most significant first.
pub open spec fn big_endian(s: Seq<u8>) -> int
    decreases s.len(),
{
    if s.len() == 0 {
        0
    } else {
        big_endian(s.drop_last()) * 256 + s.last()
    }
}

/// The number that some bytes write in base 256, the least significant first.
pub open spec fn little_endian(s: Seq<u8>) -> int
    decreases s.len(),
{
    if s.len() == 0 {
        0
    } else {
        s[0] + 256 * little_endian(s.drop_first())
    }
}

/// `n` written in `len` bytes, the most significant first.
pub open spec fn big_endian_bytes(n: nat, len: nat) -> Seq<u8>
    decreases len,
{
    if len == 0 {
        seq![]
    } else {
        big_endian_bytes(n / 256, (len - 1) as nat).push((n % 256) as u8)
    }
}

/// `n` written in `len` bytes, the least significant first.
pub open spec fn little_endian_bytes(n: nat, len: nat) -> Seq<u8>
    decreases len,
{
    if len == 0 {
        seq![]
    } else {
        seq![(n % 256) as u8] + little_endian_bytes(n / 256, (len - 1) as nat)
    }
}

/// A number that is written in enough bytes is read back from them, in either order.
pub proof fn law_written_number_is_read_back(n: nat, len: nat)
    requires
        n < vstd::arithmetic::power::pow(256, len),
    ensures
        big_endian_bytes(n, len).len() == len,
        big_endian(big_endian_bytes(n, len)) == n,
        little_endian_bytes(n, len).len() == len,
        little_endian(little_endian_bytes(n, len)) == n,
    decreases len,
{
    reveal(vstd::arithmetic::power::pow);
    if len > 0 {
        let k = (len - 1) as nat;
        let unit = vstd::arithmetic::power::pow(256, k);
        assert(n / 256 < unit) by (nonlinear_arith)
            requires
                n < 256 * unit,
        ;
        law_written_number_is_read_back(n / 256, k);
        let high = big_endian_bytes(n / 256, k);
        assert(big_endian_bytes(n, len).drop_last() =~= high);
        let low = little_endian_bytes(n / 256, k);
        assert(little_endian_bytes(n, len).drop_first() =~= low);
    }
}

/// What two, four and eight bytes say as a number, whatever they are: each byte counts, with
/// its place.
pub proof fn law_numbers_are_their_bytes(d: Seq<u8>, o: int)
    requires
        0 <= o,
    ensures
        o + 2 <= d.len() ==> {
            &&& be16(d, o) == big_endian(d.subrange(o, o + 2))
            &&& le16(d, o) == little_endian(d.subrange(o, o + 2))
        },
        o + 4 <= d.len() ==> {
            &&& be32(d, o) == big_endian(d.subrange(o, o + 4))
            &&& le32(d, o) == little_endian(d.subrange(o, o + 4))
        },
        o + 8 <= d.len() ==> {
            &&& be64(d, o) == big_endian(d.subrange(o, o + 8))
            &&& le64(d, o) == little_endian(d.subrange(o, o + 8))
        },
{
    if o + 2 <= d.len() {
        lemma_pair(d.subrange(o, o + 2));
    }
    if o + 4 <= d.len() {
        lemma_four(d.subrange(o, o + 4));
    }
    if o + 8 <= d.len() {
        lemma_eight(d.subrange(o, o + 8));
    }
}

proof fn lemma_big_endian_splits(s: Seq<u8>, k: int)
    requires
        0 <= k <= s.len(),
    ensures
        big_endian(s) == big_endian(s.take(k)) * vstd::arithmetic::power::pow(
            256,
            (s.len() - k) as nat,
        ) + big_endian(s.skip(k)),
    decreases s.len() - k,
{
    reveal(vstd::arithmetic::power::pow);
    if k < s.len() {
        let t = s.drop_last();
        lemma_big_endian_splits(t, k);
        assert(t.take(k) =~= s.take(k));
        assert(t.skip(k) =~= s.skip(k).drop_last());
        let a = big_endian(s.take(k));
        let unit = vstd::arithmetic::power::pow(256, (t.len() - k) as nat);
        assert(a * (256 * unit) == a * unit * 256) by (nonlinear_arith);
    } else {
        assert(s.take(k) =~= s);
        assert(s.skip(k) =~= seq![]);
    }
}

proof fn lemma_little_endian_splits(s: Seq<u8>, k: int)
    requires
        0 <= k <= s.len(),
    ensures
        little_endian(s) == little_endian(s.take(k)) + little_endian(s.skip(k))
            * vstd::arithmetic::power::pow(256, k as nat),
    decreases k,
{
    reveal(vstd::arithmetic::power::pow);
    if k > 0 {
        let t = s.drop_first();
        lemma_little_endian_splits(t, k - 1);
        assert(t.take(k - 1) =~= s.take(k).drop_first());
        assert(t.skip(k - 1) =~= s.skip(k));
        let a = little_endian(s.skip(k));
        let unit = vstd::arithmetic::power::pow(256, (k - 1) as nat);
        assert(a * (256 * unit) == 256 * (a * unit)) by (nonlinear_arith);
    } else {
        assert(s.skip(0) =~= s);
        assert(s.take(0) =~= seq![]);
    }
}

proof fn lemma_pair(s: Seq<u8>)
    requires
        s.len() == 2,
    ensures
        big_endian(s) == be16(s, 0),
        little_endian(s) == le16(s, 0),
{
    assert(s.drop_last().drop_last() =~= seq![]);
    assert(s.drop_first().drop_first() =~= seq![]);
    reveal_with_fuel(big_endian, 3);
    reveal_with_fuel(little_endian, 3);
}

proof fn lemma_four(s: Seq<u8>)
    requires
        s.len() == 4,
    ensures
        big_endian(s) == be32(s, 0),
        little_endian(s) == le32(s, 0),
{
    lemma_big_endian_splits(s, 2);
    lemma_little_endian_splits(s, 2);
    lemma_pair(s.take(2));
    lemma_pair(s.skip(2));
    assert(vstd::arithmetic::power::pow(256, 2) == 0x1_0000) by {
        reveal_with_fuel(vstd::arithmetic::power::pow, 3);
    }
}

proof fn lemma_eight(s: Seq<u8>)
    requires
        s.len() == 8,
    ensures
        big_endian(s) == be64(s, 0),
        little_endian(s) == le64(s, 0),
{
    lemma_big_endian_splits(s, 4);
    lemma_little_endian_splits(s, 4);
    lemma_four(s.take(4));
    lemma_four(s.skip(4));
    assert(vstd::arithmetic::power::pow(256, 4) == 0x1_0000_0000) by {
        reveal_with_fuel(vstd::arithmetic::power::pow, 5);
    }
}

/// A signed number of eight bytes is the one in the range of 64 bits that differs from the
/// unsigned one by a multiple of 2 to the 64.
pub proof fn law_signed_number_is_twos_complement(d: Seq<u8>, o: int)
    requires
        0 <= o,
        o + 8 <= d.len(),
    ensures
        i64::MIN <= be64_signed(d, o) <= i64::MAX,
        (big_endian(d.subrange(o, o + 8)) - be64_signed(d, o)) % 0x1_0000_0000_0000_0000 == 0,
{
    law_numbers_are_their_bytes(d, o);
}

/// A signature stands at a place exactly where each of its bytes does.
pub proof fn law_signature_is_byte_by_byte(d: Seq<u8>, o: int, sig: Seq<u8>)
    ensures
        has_at(d, o, sig) <==> 0 <= o && o + sig.len() <= d.len() && forall|j: int|
            0 <= j < sig.len() ==> d[o + j] == #[trigger] sig[j],
{
    if 0 <= o && o + sig.len() <= d.len() {
        let part = d.subrange(o, o + sig.len());
        if forall|j: int| 0 <= j < sig.len() ==> d[o + j] == #[trigger] sig[j] {
            assert(part =~= sig);
        }
        if part == sig {
            assert forall|j: int| 0 <= j < sig.len() implies d[o + j] == #[trigger] sig[j] by {
                assert(part[j] == sig[j]);
            }
        }
    }
}

} // verus!
