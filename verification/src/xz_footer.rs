//! The footer of an xz stream, and the size of the index that it gives.
use vstd::prelude::*;
use crate::bytes;
use crate::bytes::{bytes_at, cut};
use crate::codec;
use crate::codec::xz_decode;
use crate::source;
use crate::text;
use crate::text::{chars_of, starts_with};

verus! {

/// The smallest size in a footer that comes to zero: sizes count words and from one, in
/// 32 bits.
pub open spec fn zero_size() -> Seq<u8> {
    seq![0xFFu8, 0xFF, 0xFF, 0x3F]
}

/// The stream up to `p`, where a footer gives the size of its index, with a size there
/// that comes to zero.
pub open spec fn probe(data: Seq<u8>, p: int) -> Seq<u8> {
    data.take(p) + zero_size()
}

/// Whether a decoder refused a stream because the size in its footer comes to zero.
pub open spec fn refuses_zero(r: Result<Seq<u8>, Seq<char>>) -> bool {
    r matches Err(e) && text::begins(e, "xz error: Invalid index size: expected 0 but got "@)
}

/// Whether all ones stand at `p` where a decoder looks for the size in a footer, unless it
/// has refused one that comes to zero before.
pub open spec fn overflows_at(data: Seq<u8>, p: int) -> bool {
    bytes::has_at(data, p, seq![0xFFu8, 0xFF, 0xFF, 0xFF]) && refuses_zero(
        codec::xz_stream(probe(data, p)),
    )
}

/// The first position from `p` on where a size of all ones stands in a footer. Every
/// part of a stream is a number of words long.
pub open spec fn overflow_from(data: Seq<u8>, p: int) -> Option<int>
    decreases data.len() + 4 - p,
{
    if p < 0 || p >= data.len() {
        None
    } else if overflows_at(data, p) {
        Some(p)
    } else {
        overflow_from(data, p + 4)
    }
}

/// What a stream unpacks to. One with a size of all ones in its footer is refused as one
/// whose size comes to zero.
pub open spec fn decoded(data: Seq<u8>) -> Result<Seq<u8>, Seq<char>> {
    match overflow_from(data, 0) {
        Some(p) => codec::xz_stream(probe(data, p)),
        None => codec::xz_stream(data),
    }
}

/// Where no size of all ones stands in a footer before `p`, the probe at `p` has none.
proof fn lemma_probe(data: Seq<u8>, p: int, q: int)
    requires
        0 <= q <= p,
        q % 4 == 0,
        p % 4 == 0,
        p + 4 <= data.len(),
        forall|i: int| 0 <= i < p && i % 4 == 0 ==> !#[trigger] overflows_at(data, i),
    ensures
        overflow_from(probe(data, p), q) is None,
    decreases p - q,
{
    let t = probe(data, p);
    let ones = seq![0xFFu8, 0xFF, 0xFF, 0xFF];
    if q < p {
        assert(t.subrange(q, q + 4) =~= data.subrange(q, q + 4));
        assert(probe(t, q) =~= probe(data, q));
        assert(!overflows_at(data, q));
        lemma_probe(data, p, q + 4);
    } else {
        assert(t.subrange(p, p + 4)[3] == 0x3F);
        assert(ones[3] == 0xFF);
        assert(overflow_from(t, p + 4) is None);
    }
}

/// Unpacks a stream.
#[verifier::loop_isolation(false)]
pub fn unpack_xz(data: &[u8]) -> (r: Result<Vec<u8>, String>)
    requires
        data@.len() <= u32::MAX,
    ensures
        source::outcome(r) == decoded(data@),
{
    let ones: [u8; 4] = [0xFF, 0xFF, 0xFF, 0xFF];
    assert(ones@ =~= seq![0xFFu8, 0xFF, 0xFF, 0xFF]);
    let len: usize = data.len();
    let mut p: usize = 0;
    while p < len
        invariant
            p <= len + 3,
            p % 4 == 0,
            overflow_from(data@, p as int) == overflow_from(data@, 0),
            forall|i: int| 0 <= i < p && i % 4 == 0 ==> !#[trigger] overflows_at(data@, i),
        decreases len + 4 - p,
    {
        if bytes_at(data, p, ones.as_slice()) {
            let mut t: Vec<u8> = cut(data, 0, p);
            t.push(0xFF);
            t.push(0xFF);
            t.push(0xFF);
            t.push(0x3F);
            assert(t@ =~= probe(data@, p as int));
            proof {
                lemma_probe(data@, p as int, 0);
            }
            let r: Result<Vec<u8>, String> = xz_decode(t.as_slice());
            if let Err(e) = &r {
                let c: Vec<char> = chars_of(e.as_str());
                if starts_with(
                    c.as_slice(),
                    "xz error: Invalid index size: expected 0 but got ",
                ) {
                    return r;
                }
            }
        }
        if len - p <= 4 {
            assert(overflow_from(data@, p + 4) is None);
            return xz_decode(data);
        }
        p += 4;
    }
    xz_decode(data)
}

} // verus!
