//! Moving the position of a reader.
use vstd::prelude::*;

verus! {

/// Where a reader is asked to go.
pub enum Whence {
    Start(u64),
    Current(i64),
    End(i64),
}

/// The position that a move leads to, from `pos` in a source of `len` bytes.
pub open spec fn target(pos: int, len: int, to: Whence) -> int {
    match to {
        Whence::Start(n) => n as int,
        Whence::Current(n) => pos + n,
        Whence::End(n) => len + n,
    }
}

/// The position that a move leads to: one before the start, or past what a
/// signed 64-bit offset reaches, is refused.
pub fn seek_target(pos: u64, len: u64, to: Whence) -> (r: Option<u64>)
    ensures
        match r {
            Some(p) => p == target(pos as int, len as int, to) && p <= i64::MAX,
            None => target(pos as int, len as int, to) < 0 || target(pos as int, len as int, to)
                > i64::MAX,
        },
{
    let t: i128 = match to {
        Whence::Start(n) => n as i128,
        Whence::Current(n) => pos as i128 + n as i128,
        Whence::End(n) => len as i128 + n as i128,
    };
    if t < 0 || t > 0x7fff_ffff_ffff_ffff {
        None
    } else {
        Some(t as u64)
    }
}

/// The position that a move leads to, held between the start and the largest
/// 64-bit position.
pub fn seek_saturating(pos: u64, len: u64, to: Whence) -> (r: u64)
    ensures
        r == ({
            let t = target(pos as int, len as int, to);
            if t < 0 {
                0
            } else if t > u64::MAX {
                u64::MAX as int
            } else {
                t
            }
        }),
{
    let t: i128 = match to {
        Whence::Start(n) => n as i128,
        Whence::Current(n) => pos as i128 + n as i128,
        Whence::End(n) => len as i128 + n as i128,
    };
    if t < 0 {
        0
    } else if t > 0xffff_ffff_ffff_ffff {
        0xffff_ffff_ffff_ffff
    } else {
        t as u64
    }
}

} // verus!
