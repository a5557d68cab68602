//! Positions in a stream of bytes.
use vstd::prelude::*;

verus! {

/// Where to go in a stream.
#[derive(Clone, Copy, PartialEq, Eq, Structural, Debug)]
pub enum SeekTo {
    /// So many bytes behind the start.
    Start(u64),
    /// So many bytes behind the end.
    End(i64),
    /// So many bytes behind the current position.
    Current(i64),
}

/// The position `by` bytes behind `from`, no lower than 0 and no higher than
/// 64 bits allow.
pub open spec fn moved(from: u64, by: i64) -> u64 {
    if from + by < 0 {
        0
    } else if from + by > u64::MAX {
        u64::MAX
    } else {
        (from + by) as u64
    }
}

/// The position that `to` stands for in a stream of `end` bytes at `pos`.
pub open spec fn seek_position(to: SeekTo, pos: u64, end: u64) -> u64 {
    match to {
        SeekTo::Start(n) => n,
        SeekTo::End(n) => moved(end, n),
        SeekTo::Current(n) => moved(pos, n),
    }
}

/// The distance has a negation.
pub open spec fn can_seek(to: SeekTo) -> bool {
    to != SeekTo::End(i64::MIN) && to != SeekTo::Current(i64::MIN)
}

fn shift(from: u64, by: i64) -> (r: u64)
    requires
        by != i64::MIN,
    ensures
        r == moved(from, by),
{
    if by >= 0 {
        from.saturating_add(by as u64)
    } else {
        from.saturating_sub((-by) as u64)
    }
}

/// The position that `to` stands for in a stream of `end` bytes at `pos`.
pub fn seek_target(to: SeekTo, pos: u64, end: u64) -> (r: u64)
    requires
        can_seek(to),
    ensures
        r == seek_position(to, pos, end),
{
    match to {
        SeekTo::Start(n) => n,
        SeekTo::End(n) => shift(end, n),
        SeekTo::Current(n) => shift(pos, n),
    }
}

} // verus!
