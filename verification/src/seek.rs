//! Positions: moving within a range of bytes of known length.
use vstd::prelude::*;
use crate::bytes::{signed64, to_signed};

verus! {

/// Where to move to.
#[derive(Clone, Copy, Debug)]
pub enum SeekTarget {
    /// From the start.
    Start(u64),
    /// From the end.
    End(i64),
    /// From where the position is now.
    Current(i64),
}

/// The target lies before the start.
#[derive(Clone, Copy, Debug, PartialEq, Eq, Structural)]
pub struct NegativeSeek;

/// The place that a target names. Offsets and lengths count as two's complement numbers.
pub open spec fn seek_sum(target: SeekTarget, len: u64, pos: u64) -> int {
    match target {
        SeekTarget::Start(o) => signed64(o as int),
        SeekTarget::End(o) => signed64(len as int) + o,
        SeekTarget::Current(o) => signed64(pos as int) + o,
    }
}

/// The place that a target names is a 64-bit number.
pub open spec fn seek_fits(target: SeekTarget, len: u64, pos: u64) -> bool {
    i64::MIN <= seek_sum(target, len, pos) <= i64::MAX
}

/// The position after a seek: the place named, but not past the end; none before the start.
pub open spec fn seek_position(target: SeekTarget, len: u64, pos: u64) -> Result<u64, NegativeSeek> {
    let sum = seek_sum(target, len, pos);
    if sum < 0 {
        Err(NegativeSeek)
    } else if sum < len {
        Ok(sum as u64)
    } else {
        Ok(len)
    }
}

/// Whether the place that a target names is a 64-bit number.
pub fn can_seek(target: SeekTarget, len: u64, pos: u64) -> (r: bool)
    ensures
        r == seek_fits(target, len, pos),
{
    match target {
        SeekTarget::Start(_) => true,
        SeekTarget::End(o) => to_signed(len).checked_add(o).is_some(),
        SeekTarget::Current(o) => to_signed(pos).checked_add(o).is_some(),
    }
}

/// The position that a seek leads to.
pub fn resolve_seek(target: SeekTarget, len: u64, pos: u64) -> (r: Result<u64, NegativeSeek>)
    requires
        seek_fits(target, len, pos),
    ensures
        r == seek_position(target, len, pos),
{
    let place: i64 = match target {
        SeekTarget::Start(o) => to_signed(o),
        SeekTarget::End(o) => to_signed(len) + o,
        SeekTarget::Current(o) => to_signed(pos) + o,
    };
    if place < 0 {
        return Err(NegativeSeek);
    }
    let place = place as u64;
    if place < len {
        Ok(place)
    } else {
        Ok(len)
    }
}

/// A seek never leads past the end.
pub proof fn law_seek_stays_inside(target: SeekTarget, len: u64, pos: u64)
    ensures
        seek_position(target, len, pos) matches Ok(p) ==> p <= len,
{
}

/// A seek by nothing keeps a position.
pub proof fn law_seek_nowhere_stays(len: u64, pos: u64)
    requires
        pos <= len <= i64::MAX,
    ensures
        seek_position(SeekTarget::Current(0), len, pos) == Ok::<u64, NegativeSeek>(pos),
{
}

/// A seek from the start leads where it says, up to the end.
pub proof fn law_seek_from_start(len: u64, pos: u64, to: u64)
    requires
        to <= len <= i64::MAX,
    ensures
        seek_position(SeekTarget::Start(to), len, pos) == Ok::<u64, NegativeSeek>(to),
{
}

/// A seek leads as far from the start, the end or the position as it says, but not past the
/// end; it fails exactly where that lies before the start.
pub proof fn law_seek_leads_where_it_says(len: u64, pos: u64, to: u64, by: i64)
    requires
        len <= i64::MAX,
        pos <= i64::MAX,
        to <= i64::MAX,
    ensures
        seek_position(SeekTarget::Start(to), len, pos) == Ok::<u64, NegativeSeek>(
            if to < len { to } else { len },
        ),
        len + by < 0 <==> seek_position(SeekTarget::End(by), len, pos) is Err,
        seek_position(SeekTarget::End(by), len, pos) matches Ok(p) ==> p == (if by < 0 {
            len + by
        } else {
            len as int
        }),
        pos + by < 0 <==> seek_position(SeekTarget::Current(by), len, pos) is Err,
        seek_position(SeekTarget::Current(by), len, pos) matches Ok(p) ==> p == (if pos + by < len {
            pos + by
        } else {
            len as int
        }),
        seek_fits(SeekTarget::Start(to), len, pos),
        seek_fits(SeekTarget::End(by), len, pos) <==> len + by <= i64::MAX,
        seek_fits(SeekTarget::Current(by), len, pos) <==> pos + by <= i64::MAX,
{
}

/// From the start, numbers above the largest signed one count as negative.
pub proof fn law_large_starts_are_negative(len: u64, pos: u64, to: u64)
    requires
        to > i64::MAX,
    ensures
        seek_position(SeekTarget::Start(to), len, pos) is Err,
{
}

} // verus!
