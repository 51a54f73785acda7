//! ECM images: raw sectors stored without their error correction.
use vstd::prelude::*;
use crate::bytes;
use crate::bytes::{bytes_at, cut, spells_at, zeroes};
use crate::track;

verus! {

/// The length of a raw sector.
pub const SECTOR_LEN: usize = 2352;

/// A count that no image holds; larger ones are taken for it.
pub const COUNT_LIMIT: u64 = 0x1_0000_0000_0000;

/// The bytes that vectors hold.
pub open spec fn contents(v: Seq<Vec<u8>>) -> Seq<Seq<u8>> {
    v.map_values(|b: Vec<u8>| b@)
}

/// A count within the limit.
pub open spec fn clipped(n: int) -> int {
    if n > COUNT_LIMIT {
        COUNT_LIMIT as int
    } else {
        n
    }
}

/// The rest of a count from `pos` on, and where it ends: seven bits in each byte,
/// the lowest first, the last byte being the one without its high bit.
pub open spec fn count_from(raw: Seq<u8>, pos: int, weight: int, count: int) -> (int, int)
    decreases raw.len() - pos,
{
    if pos < 0 || pos >= raw.len() {
        (count, pos)
    } else if raw[pos] >= 128 {
        count_from(
            raw,
            pos + 1,
            clipped(weight * 128),
            clipped(count + (raw[pos] - 128) * weight),
        )
    } else {
        (clipped(count + raw[pos] * weight), pos + 1)
    }
}

/// How many units the chunk at `pos` holds, and where they start: the high bit of its
/// first byte says whether more bytes of the count follow.
pub open spec fn chunk_count(raw: Seq<u8>, pos: int) -> (int, int) {
    let low = raw[pos] as int / 4 % 32;
    let (count, at) = if raw[pos] >= 128 {
        count_from(raw, pos + 1, 32, low)
    } else {
        (low, pos + 1)
    };
    (count + 1, at)
}

/// The bytes `from..to`, cut into sectors, the last one filled with zeros.
pub open spec fn padded_sectors(raw: Seq<u8>, from: int, to: int) -> Seq<Seq<u8>>
    decreases to - from,
{
    if from >= to {
        seq![]
    } else if to - from <= SECTOR_LEN {
        seq![bytes::resized(raw.subrange(from, to), SECTOR_LEN as int)]
    } else {
        seq![raw.subrange(from, from + SECTOR_LEN)] + padded_sectors(raw, from + SECTOR_LEN, to)
    }
}

/// The user data that a stored sector of some kind holds.
pub open spec fn stored_len(kind: int) -> int {
    if kind == 3 {
        2324
    } else {
        2048
    }
}

/// The sector of a kind whose stored bytes are `s`: four of its header, and its
/// user data.
pub open spec fn rebuilt(kind: int, s: Seq<u8>) -> Seq<u8> {
    let head = s.take(4);
    let data = s.skip(4);
    if kind == 1 {
        track::sync_pattern() + head.take(3) + seq![1u8] + data + bytes::zeros(288)
    } else if kind == 2 {
        track::sync_pattern() + bytes::zeros(3) + seq![2u8] + head + head + data + bytes::zeros(280)
    } else {
        track::sync_pattern() + bytes::zeros(3) + seq![2u8] + head + head + data + bytes::zeros(4)
    }
}

/// The error for a header that is cut off.
pub open spec fn head_error(kind: int) -> Seq<char> {
    if kind == 1 {
        "ECM: truncated type-1 header"@
    } else if kind == 2 {
        "ECM: truncated type-2 sub-hdr"@
    } else {
        "ECM: truncated type-3 sub-hdr"@
    }
}

/// The error for user data that is cut off.
pub open spec fn data_error(kind: int) -> Seq<char> {
    if kind == 1 {
        "ECM: truncated type-1 data"@
    } else if kind == 2 {
        "ECM: truncated type-2 data"@
    } else {
        "ECM: truncated type-3 data"@
    }
}

/// The sector of a kind that is stored at `pos`.
pub open spec fn sector_at(raw: Seq<u8>, kind: int, pos: int) -> Result<Seq<u8>, Seq<char>> {
    if pos + 4 > raw.len() {
        Err(head_error(kind))
    } else if pos + 4 + stored_len(kind) > raw.len() {
        Err(data_error(kind))
    } else {
        Ok(rebuilt(kind, raw.subrange(pos, pos + 4 + stored_len(kind))))
    }
}

/// The `n` sectors of a kind that are stored from `pos` on.
pub open spec fn sectors_at(raw: Seq<u8>, kind: int, pos: int, n: int) -> Result<
    Seq<Seq<u8>>,
    Seq<char>,
>
    decreases n,
{
    if n <= 0 {
        Ok(seq![])
    } else {
        match sector_at(raw, kind, pos) {
            Err(e) => Err(e),
            Ok(s) => prepended(
                seq![s],
                sectors_at(raw, kind, pos + 4 + stored_len(kind), n - 1),
            ),
        }
    }
}

/// Sectors with others in front.
pub open spec fn prepended(head: Seq<Seq<u8>>, r: Result<Seq<Seq<u8>>, Seq<char>>) -> Result<
    Seq<Seq<u8>>,
    Seq<char>,
> {
    match r {
        Err(e) => Err(e),
        Ok(rest) => Ok(head + rest),
    }
}

/// The sectors of `n` units of a kind at `pos`: bytes for kind zero, else sectors.
pub open spec fn units_at(raw: Seq<u8>, kind: int, pos: int, n: int) -> Result<
    Seq<Seq<u8>>,
    Seq<char>,
> {
    if kind == 0 {
        if pos + n > raw.len() {
            Err("ECM: truncated type-0 data"@)
        } else {
            Ok(padded_sectors(raw, pos, pos + n))
        }
    } else {
        sectors_at(raw, kind, pos, n)
    }
}

/// The bytes that `n` units of a kind take.
pub open spec fn units_len(kind: int, n: int) -> int {
    if kind == 0 {
        n
    } else {
        n * (4 + stored_len(kind))
    }
}

/// The sectors of the chunks from `pos` on; four bytes of all ones end them.
pub open spec fn sectors_from(raw: Seq<u8>, pos: int) -> Result<Seq<Seq<u8>>, Seq<char>>
    decreases raw.len() - pos,
{
    let (n, at) = chunk_count(raw, pos);
    let kind = raw[pos] as int % 4;
    let end = at + units_len(kind, n);
    if pos < 0 || pos >= raw.len() || bytes::has_at(raw, pos, seq![0xFFu8, 0xFF, 0xFF, 0xFF]) {
        Ok(seq![])
    } else {
        match units_at(raw, kind, at, n) {
            Err(e) => Err(e),
            Ok(these) => if pos < end <= raw.len() {
                prepended(these, sectors_from(raw, end))
            } else {
                Ok(these)
            },
        }
    }
}

/// The sectors of an image.
pub open spec fn sectors_of(raw: Seq<u8>) -> Result<Seq<Seq<u8>>, Seq<char>> {
    if bytes::spells(raw, 0, "ECM\0"@) {
        sectors_from(raw, 4)
    } else {
        Err("Not an ECM file"@)
    }
}

/// A count lies within the limit, and ends behind where it starts.
proof fn lemma_count(raw: Seq<u8>, pos: int, weight: int, count: int)
    requires
        0 <= pos <= raw.len(),
        0 <= weight <= COUNT_LIMIT,
        0 <= count <= COUNT_LIMIT,
    ensures
        pos <= count_from(raw, pos, weight, count).1 <= raw.len(),
        0 <= count_from(raw, pos, weight, count).0 <= COUNT_LIMIT,
    decreases raw.len() - pos,
{
    if pos < raw.len() {
        assert(0 <= (raw[pos] - 128) * weight || raw[pos] < 128) by (nonlinear_arith)
            requires
                0 <= weight,
        ;
        assert(0 <= raw[pos] * weight) by (nonlinear_arith)
            requires
                0 <= weight,
        ;
        if raw[pos] >= 128 {
            lemma_count(
                raw,
                pos + 1,
                clipped(weight * 128),
                clipped(count + (raw[pos] - 128) * weight),
            );
        }
    }
}

/// Every sector that is cut out of bytes has its full length.
proof fn lemma_padded_whole(raw: Seq<u8>, from: int, to: int)
    requires
        0 <= from,
        to <= raw.len(),
    ensures
        forall|k: int|
            0 <= k < padded_sectors(raw, from, to).len() ==> (#[trigger] padded_sectors(
                raw,
                from,
                to,
            )[k]).len() == SECTOR_LEN,
    decreases to - from,
{
    if from < to && to - from > SECTOR_LEN {
        lemma_padded_whole(raw, from + SECTOR_LEN, to);
        let rest = padded_sectors(raw, from + SECTOR_LEN, to);
        let all = padded_sectors(raw, from, to);
        assert forall|k: int| 0 <= k < all.len() implies (#[trigger] all[k]).len()
            == SECTOR_LEN by {
            if k > 0 {
                assert(all[k] == rest[k - 1]);
            }
        }
    }
}

/// Every sector that is stored without its error correction has its full length.
proof fn lemma_sectors_whole(raw: Seq<u8>, kind: int, pos: int, n: int)
    requires
        1 <= kind <= 3,
        0 <= pos,
    ensures
        sectors_at(raw, kind, pos, n) matches Ok(v) ==> forall|k: int|
            0 <= k < v.len() ==> (#[trigger] v[k]).len() == SECTOR_LEN,
    decreases n,
{
    if n > 0 {
        let step = 4 + stored_len(kind);
        lemma_sectors_whole(raw, kind, pos + step, n - 1);
        if let Ok(v) = sectors_at(raw, kind, pos, n) {
            let rest = sectors_at(raw, kind, pos + step, n - 1)->Ok_0;
            assert(v =~= seq![sector_at(raw, kind, pos)->Ok_0] + rest);
            assert forall|k: int| 0 <= k < v.len() implies (#[trigger] v[k]).len()
                == SECTOR_LEN by {
                if k > 0 {
                    assert(v[k] == rest[k - 1]);
                }
            }
        }
    }
}

/// Every sector of an image is a whole raw sector.
pub proof fn sectors_are_whole(raw: Seq<u8>, pos: int)
    requires
        0 <= pos,
    ensures
        sectors_from(raw, pos) matches Ok(v) ==> forall|k: int|
            0 <= k < v.len() ==> (#[trigger] v[k]).len() == SECTOR_LEN,
    decreases raw.len() - pos,
{
    if pos < raw.len() && !bytes::has_at(raw, pos, seq![0xFFu8, 0xFF, 0xFF, 0xFF]) {
        lemma_count(raw, pos + 1, 32, raw[pos] as int / 4 % 32);
        let (n, at) = chunk_count(raw, pos);
        let kind = raw[pos] as int % 4;
        let end = at + units_len(kind, n);
        if kind == 0 {
            if at + n <= raw.len() {
                lemma_padded_whole(raw, at, at + n);
            }
        } else {
            lemma_sectors_whole(raw, kind, at, n);
        }
        if let Ok(these) = units_at(raw, kind, at, n) {
            if pos < end <= raw.len() {
                sectors_are_whole(raw, end);
                if let Ok(rest) = sectors_from(raw, end) {
                    let v = these + rest;
                    assert forall|k: int| 0 <= k < v.len() implies (#[trigger] v[k]).len()
                        == SECTOR_LEN by {
                        if k < these.len() {
                            assert(v[k] == these[k]);
                        } else {
                            assert(v[k] == rest[k - these.len()]);
                        }
                    }
                }
            }
        }
    }
}

// ── Reading ─────────────────────────────────────────────────────────────────

/// Reads how many units the chunk at `pos` holds, and where they start.
#[verifier::loop_isolation(false)]
fn read_count(raw: &[u8], pos: usize) -> (r: (u64, usize))
    requires
        pos < raw@.len(),
    ensures
        (r.0 as int, r.1 as int) == chunk_count(raw@, pos as int),
        pos < r.1 <= raw@.len(),
        1 <= r.0 <= COUNT_LIMIT + 1,
{
    let len: usize = raw.len();
    let mut count: u64 = (raw[pos] / 4 % 32) as u64;
    if raw[pos] < 128 {
        return (count + 1, pos + 1);
    }
    let mut weight: u64 = 32;
    let mut at: usize = pos + 1;
    let ghost goal = count_from(raw@, pos + 1, 32, raw@[pos as int] as int / 4 % 32);
    while at < len && raw[at] >= 128
        invariant
            pos < at <= len,
            0 <= weight <= COUNT_LIMIT,
            0 <= count <= COUNT_LIMIT,
            count_from(raw@, at as int, weight as int, count as int) == goal,
        decreases len - at,
    {
        let b: u64 = (raw[at] - 128) as u64;
        proof {
            let w = weight as int;
            let d = b as int;
            assert(0 <= d * w <= 127 * 0x1_0000_0000_0000) by (nonlinear_arith)
                requires
                    0 <= d <= 127,
                    0 <= w <= 0x1_0000_0000_0000,
            ;
        }
        let sum: u64 = count + b * weight;
        count = if sum > COUNT_LIMIT {
            COUNT_LIMIT
        } else {
            sum
        };
        weight = if weight * 128 > COUNT_LIMIT {
            COUNT_LIMIT
        } else {
            weight * 128
        };
        at += 1;
    }
    if at < len {
        let b: u64 = raw[at] as u64;
        proof {
            let w = weight as int;
            let d = b as int;
            assert(0 <= d * w <= 127 * 0x1_0000_0000_0000) by (nonlinear_arith)
                requires
                    0 <= d <= 127,
                    0 <= w <= 0x1_0000_0000_0000,
            ;
        }
        let sum: u64 = count + b * weight;
        count = if sum > COUNT_LIMIT {
            COUNT_LIMIT
        } else {
            sum
        };
        at += 1;
    }
    (count + 1, at)
}

/// Adds the bytes `from..to` as sectors.
#[verifier::loop_isolation(false)]
fn add_padded(raw: &[u8], from: usize, to: usize, out: &mut Vec<Vec<u8>>)
    requires
        from <= to <= raw@.len(),
    ensures
        contents(final(out)@) == contents(old(out)@) + padded_sectors(
            raw@,
            from as int,
            to as int,
        ),
{
    let ghost goal = contents(out@) + padded_sectors(raw@, from as int, to as int);
    let mut at: usize = from;
    while at < to
        invariant
            from <= at <= to,
            contents(out@) + padded_sectors(raw@, at as int, to as int) == goal,
        decreases to - at,
    {
        let ghost before = contents(out@);
        if to - at <= SECTOR_LEN {
            let piece: Vec<u8> = cut(raw, at, to);
            let sector: Vec<u8> = bytes::resize(piece, 2352);
            let ghost sv = sector@;
            out.push(sector);
            assert(contents(out@) =~= before + seq![sv]);
            at = to;
            assert(contents(out@) + padded_sectors(raw@, at as int, to as int) =~= contents(out@));
        } else {
            let piece: Vec<u8> = cut(raw, at, at + SECTOR_LEN);
            let ghost pv = piece@;
            let ghost rest = padded_sectors(raw@, at + SECTOR_LEN, to as int);
            out.push(piece);
            assert(contents(out@) =~= before + seq![pv]);
            assert(before + (seq![pv] + rest) =~= before + seq![pv] + rest);
            at = at + SECTOR_LEN;
        }
    }
    assert(contents(out@) + padded_sectors(raw@, at as int, to as int) =~= contents(out@));
}

/// Appends bytes.
fn append(v: &mut Vec<u8>, b: &[u8])
    ensures
        final(v)@ == old(v)@ + b@,
{
    let len: usize = b.len();
    let mut i: usize = 0;
    assert(v@ + b@.take(0) =~= v@);
    let ghost head = v@;
    while i < len
        invariant
            len == b@.len(),
            i <= len,
            v@ == head + b@.take(i as int),
        decreases len - i,
    {
        let ghost before = v@;
        v.push(b[i]);
        i += 1;
        assert(v@ =~= head + b@.take(i as int));
    }
    assert(b@.take(len as int) =~= b@);
}

/// Rebuilds a sector from its stored bytes.
fn rebuild(kind: u8, s: &[u8]) -> (r: Vec<u8>)
    requires
        1 <= kind <= 3,
        s@.len() == 4 + stored_len(kind as int),
    ensures
        r@ == rebuilt(kind as int, s@),
{
    let len: usize = s.len();
    let head: Vec<u8> = cut(s, 0, 4);
    let data: Vec<u8> = cut(s, 4, len);
    assert(s@.subrange(0, 4) =~= s@.take(4));
    assert(s@.subrange(4, len as int) =~= s@.skip(4));
    let sync: [u8; 12] = [
        0x00, 0xFF, 0xFF, 0xFF, 0xFF, 0xFF, 0xFF, 0xFF, 0xFF, 0xFF, 0xFF, 0x00,
    ];
    assert(sync@ =~= track::sync_pattern());
    let mut out: Vec<u8> = Vec::new();
    append(&mut out, sync.as_slice());
    assert(out@ =~= track::sync_pattern());
    if kind == 1 {
        let three: Vec<u8> = cut(head.as_slice(), 0, 3);
        assert(head@.subrange(0, 3) =~= head@.take(3));
        append(&mut out, three.as_slice());
        out.push(1);
        assert(out@ =~= track::sync_pattern() + head@.take(3) + seq![1u8]);
        append(&mut out, data.as_slice());
        let tail: Vec<u8> = zeroes(288);
        append(&mut out, tail.as_slice());
    } else {
        let three: Vec<u8> = zeroes(3);
        append(&mut out, three.as_slice());
        out.push(2);
        assert(out@ =~= track::sync_pattern() + bytes::zeros(3) + seq![2u8]);
        append(&mut out, head.as_slice());
        append(&mut out, head.as_slice());
        append(&mut out, data.as_slice());
        let tail: Vec<u8> = if kind == 2 {
            zeroes(280)
        } else {
            zeroes(4)
        };
        append(&mut out, tail.as_slice());
    }
    out
}

/// The error for a header that is cut off.
fn head_message(kind: u8) -> (r: String)
    ensures
        r@ == head_error(kind as int),
{
    if kind == 1 {
        "ECM: truncated type-1 header".to_owned()
    } else if kind == 2 {
        "ECM: truncated type-2 sub-hdr".to_owned()
    } else {
        "ECM: truncated type-3 sub-hdr".to_owned()
    }
}

/// The error for user data that is cut off.
fn data_message(kind: u8) -> (r: String)
    ensures
        r@ == data_error(kind as int),
{
    if kind == 1 {
        "ECM: truncated type-1 data".to_owned()
    } else if kind == 2 {
        "ECM: truncated type-2 data".to_owned()
    } else {
        "ECM: truncated type-3 data".to_owned()
    }
}

/// Adds `n` sectors of a kind, and gives where they end.
#[verifier::loop_isolation(false)]
fn add_sectors(raw: &[u8], kind: u8, pos: usize, n: u64, out: &mut Vec<Vec<u8>>) -> (r: Result<
    usize,
    String,
>)
    requires
        1 <= kind <= 3,
        pos <= raw@.len(),
    ensures
        match r {
            Ok(end) => sectors_at(raw@, kind as int, pos as int, n as int) is Ok && end == pos
                + units_len(kind as int, n as int) && end <= raw@.len() && contents(final(out)@)
                == contents(old(out)@) + sectors_at(
                raw@,
                kind as int,
                pos as int,
                n as int,
            )->Ok_0,
            Err(e) => sectors_at(raw@, kind as int, pos as int, n as int) == Err::<
                Seq<Seq<u8>>,
                Seq<char>,
            >(e@),
        },
{
    let len: usize = raw.len();
    let size: usize = if kind == 3 {
        2324
    } else {
        2048
    };
    let ghost goal = sectors_at(raw@, kind as int, pos as int, n as int);
    let ghost head = contents(out@);
    let mut at: usize = pos;
    let mut left: u64 = n;
    proof {
        if let Ok(v) = goal {
            assert(head + v =~= head + v);
        }
    }
    while left > 0
        invariant
            pos <= at <= len,
            left <= n,
            at == pos + (n - left) * (4 + size),
            goal is Err <==> sectors_at(raw@, kind as int, at as int, left as int) is Err,
            goal matches Err(e) ==> sectors_at(raw@, kind as int, at as int, left as int) == goal,
            goal matches Ok(v) ==> contents(out@) + sectors_at(
                raw@,
                kind as int,
                at as int,
                left as int,
            )->Ok_0 == head + v,
        decreases left,
    {
        if len - at < 4 {
            return Err(head_message(kind));
        }
        if len - at - 4 < size {
            return Err(data_message(kind));
        }
        let stored: Vec<u8> = cut(raw, at, at + 4 + size);
        let sector: Vec<u8> = rebuild(kind, stored.as_slice());
        let ghost before = contents(out@);
        let ghost sv = sector@;
        let ghost rest = sectors_at(raw@, kind as int, at + 4 + size, left - 1);
        out.push(sector);
        proof {
            assert(contents(out@) =~= before + seq![sv]);
            if let Ok(v) = rest {
                assert(before + (seq![sv] + v) =~= before + seq![sv] + v);
            }
            let a = (n - left) as int;
            let b = (4 + size) as int;
            assert((a + 1) * b == a * b + b) by (nonlinear_arith);
        }
        at = at + 4 + size;
        left -= 1;
    }
    proof {
        assert(contents(out@) + seq![] =~= contents(out@));
    }
    Ok(at)
}

/// A decoded image.
pub struct EcmReader {
    pub sectors: Vec<Vec<u8>>,
}

/// The offset of the user data of a raw sector, by its mode.
pub open spec fn data_offset(sector: Seq<u8>) -> int {
    if sector[15] == 2 {
        24
    } else {
        16
    }
}

/// The lesser of two numbers.
pub open spec fn lesser(a: int, b: int) -> int {
    if a < b {
        a
    } else {
        b
    }
}

/// Up to `n` bytes of a sector's user data, with what follows it.
pub open spec fn data_read(sectors: Seq<Seq<u8>>, lba: int, n: int) -> Result<Seq<u8>, Seq<char>> {
    if lba >= sectors.len() {
        Err("ECM: LBA out of range"@)
    } else {
        let at = data_offset(sectors[lba]);
        Ok(sectors[lba].subrange(at, at + lesser(n, SECTOR_LEN - at)))
    }
}

/// Up to `n` bytes of what a sector holds behind its header; nothing of one that
/// has no subheader.
pub open spec fn payload_read(sectors: Seq<Seq<u8>>, lba: int, n: int) -> Seq<u8> {
    if lba >= sectors.len() || sectors[lba][15] != 2 {
        seq![]
    } else {
        sectors[lba].subrange(16, 16 + lesser(n, SECTOR_LEN - 16))
    }
}

impl EcmReader {
    /// Whether every sector is a whole raw sector.
    pub open spec fn wf(&self) -> bool {
        forall|k: int|
            0 <= k < self.sectors@.len() ==> (#[trigger] self.sectors@[k])@.len() == SECTOR_LEN
    }

    /// Decodes an image.
    #[verifier::loop_isolation(false)]
    pub fn open(raw: &[u8]) -> (r: Result<EcmReader, String>)
        ensures
            match r {
                Ok(e) => sectors_of(raw@) == Ok::<Seq<Seq<u8>>, Seq<char>>(contents(e.sectors@))
                    && e.wf(),
                Err(e) => sectors_of(raw@) == Err::<Seq<Seq<u8>>, Seq<char>>(e@),
            },
    {
        let len: usize = raw.len();
        if !spells_at(raw, 0, "ECM\0") {
            return Err("Not an ECM file".to_owned());
        }
        proof {
            reveal_strlit("ECM\0");
            sectors_are_whole(raw@, 4);
        }
        let ghost goal = sectors_from(raw@, 4);
        let end_mark: [u8; 4] = [0xFF, 0xFF, 0xFF, 0xFF];
        assert(end_mark@ =~= seq![0xFFu8, 0xFF, 0xFF, 0xFF]);
        let mut out: Vec<Vec<u8>> = Vec::new();
        let mut pos: usize = 4;
        proof {
            if let Ok(v) = goal {
                assert(contents(out@) + v =~= v);
            }
        }
        while pos < len && !bytes_at(raw, pos, end_mark.as_slice())
            invariant
                4 <= pos <= len,
                prepended(contents(out@), sectors_from(raw@, pos as int)) == goal,
            decreases len - pos,
        {
            let ghost before = contents(out@);
            let ghost from = pos;
            let (n, at): (u64, usize) = read_count(raw, pos);
            let kind: u8 = raw[pos] % 4;
            if kind == 0 {
                if n > (len - at) as u64 {
                    return Err("ECM: truncated type-0 data".to_owned());
                }
                let end: usize = at + n as usize;
                add_padded(raw, at, end, &mut out);
                pos = end;
            } else {
                match add_sectors(raw, kind, at, n, &mut out) {
                    Err(e) => {
                        return Err(e);
                    },
                    Ok(end) => {
                        proof {
                            let b = 4 + stored_len(kind as int);
                            assert(0 <= n * b) by (nonlinear_arith)
                                requires
                                    0 <= b,
                                    0 <= n,
                            ;
                        }
                        pos = end;
                    },
                }
            }
            proof {
                let these = units_at(raw@, kind as int, at as int, n as int)->Ok_0;
                assert(contents(out@) =~= before + these);
                if let Ok(v) = sectors_from(raw@, pos as int) {
                    assert(before + (these + v) =~= before + these + v);
                }
            }
        }
        proof {
            assert(contents(out@) + seq![] =~= contents(out@));
            assert forall|k: int| 0 <= k < out@.len() implies (#[trigger] out@[k])@.len()
                == SECTOR_LEN by {
                assert(contents(out@)[k] == out@[k]@);
            }
        }
        Ok(EcmReader { sectors: out })
    }

    /// Reads up to `n` bytes of a sector's user data.
    pub fn read_at(&self, lba: u64, n: usize) -> (r: Result<Vec<u8>, String>)
        requires
            self.wf(),
        ensures
            crate::source::outcome(r) == data_read(
                contents(self.sectors@),
                lba as int,
                n as int,
            ),
    {
        if lba >= self.sectors.len() as u64 {
            return Err("ECM: LBA out of range".to_owned());
        }
        let sector: &Vec<u8> = &self.sectors[lba as usize];
        assert(contents(self.sectors@)[lba as int] == sector@);
        let at: usize = if sector[15] == 2 {
            24
        } else {
            16
        };
        let room: usize = SECTOR_LEN - at;
        let m: usize = if n < room {
            n
        } else {
            room
        };
        Ok(cut(sector.as_slice(), at, at + m))
    }

    /// Reads up to `n` bytes of what a sector holds behind its header.
    pub fn read_raw_sector(&self, lba: u64, n: usize) -> (r: Vec<u8>)
        requires
            self.wf(),
        ensures
            r@ == payload_read(contents(self.sectors@), lba as int, n as int),
    {
        if lba >= self.sectors.len() as u64 {
            let none: Vec<u8> = Vec::new();
            assert(none@ =~= seq![]);
            return none;
        }
        let sector: &Vec<u8> = &self.sectors[lba as usize];
        assert(contents(self.sectors@)[lba as int] == sector@);
        if sector[15] != 2 {
            let none: Vec<u8> = Vec::new();
            assert(none@ =~= seq![]);
            return none;
        }
        let room: usize = SECTOR_LEN - 16;
        let m: usize = if n < room {
            n
        } else {
            room
        };
        cut(sector.as_slice(), 16, 16 + m)
    }
}

// ── Laws ────────────────────────────────────────────────────────────────────

/// The user data of a rebuilt sector are those that were stored: 2048 bytes, or 2324 in a
/// sector of the third kind; its header and subheader are the stored ones, the latter twice.
pub proof fn a_rebuilt_sector_holds_its_data(
    sectors: Seq<Seq<u8>>,
    lba: int,
    kind: int,
    head: Seq<u8>,
    data: Seq<u8>,
)
    requires
        1 <= kind <= 3,
        head.len() == 4,
        kind < 3 ==> data.len() == 2048,
        kind == 3 ==> data.len() == 2324,
        0 <= lba < sectors.len(),
        sectors[lba] == rebuilt(kind, head + data),
    ensures
        sectors[lba].len() == 2352,
        sectors[lba].take(12) == seq![0u8, 255, 255, 255, 255, 255, 255, 255, 255, 255, 255, 0],
        data_read(sectors, lba, data.len() as int) == Ok::<Seq<u8>, Seq<char>>(data),
        kind == 1 ==> sectors[lba][15] == 1 && sectors[lba].subrange(12, 15) == head.take(3),
        kind > 1 ==> sectors[lba][15] == 2 && sectors[lba].subrange(16, 20) == head
            && sectors[lba].subrange(20, 24) == head && payload_read(
            sectors,
            lba,
            8 + data.len() as int,
        ) == head + head + data,
{
    let s = head + data;
    let r = rebuilt(kind, s);
    assert(s.take(4) =~= head);
    assert(s.skip(4) =~= data);
    assert(r.take(12) =~= seq![0u8, 255, 255, 255, 255, 255, 255, 255, 255, 255, 255, 0]);
    if kind == 1 {
        assert(r.len() == 2352);
        assert(r[15] == 1);
        assert(r.subrange(12, 15) =~= head.take(3));
        assert(r.subrange(16, 2064) =~= data);
    } else {
        assert(r.len() == 2352);
        assert(r[15] == 2);
        assert(r.subrange(16, 20) =~= head);
        assert(r.subrange(20, 24) =~= head);
        assert(r.subrange(24, 24 + data.len() as int) =~= data);
        assert(r.subrange(16, 24 + data.len() as int) =~= head + head + data);
    }
}

/// Stored sectors follow each other: each is rebuilt from its own bytes, behind those before
/// it.
pub proof fn stored_sectors_follow_each_other(
    front: Seq<u8>,
    units: Seq<Seq<u8>>,
    rest: Seq<u8>,
    kind: int,
    k: int,
)
    requires
        1 <= kind <= 3,
        0 <= k <= units.len(),
        forall|j: int|
            0 <= j < units.len() ==> (#[trigger] units[j]).len() == (if kind == 3 {
                2328int
            } else {
                2052
            }),
    ensures
        ({
            let len = if kind == 3 {
                2328int
            } else {
                2052
            };
            sectors_at(
                crate::source::image_of(front, units, len, rest),
                kind,
                front.len() + k * len,
                units.len() - k,
            ) == Ok::<Seq<Seq<u8>>, Seq<char>>(
                Seq::new((units.len() - k) as nat, |j: int| rebuilt(kind, units[k + j])),
            )
        }),
    decreases units.len() - k,
{
    let len = if kind == 3 {
        2328int
    } else {
        2052
    };
    let raw = crate::source::image_of(front, units, len, rest);
    let want = Seq::new((units.len() - k) as nat, |j: int| rebuilt(kind, units[k + j]));
    if k < units.len() {
        assert(units[k].len() == len);
        crate::source::parts_follow_each_other(front, units, len, rest, k);
        stored_sectors_follow_each_other(front, units, rest, kind, k + 1);
        assert((k + 1) * len == k * len + len) by (nonlinear_arith);
        let more = Seq::new((units.len() - k - 1) as nat, |j: int| rebuilt(kind, units[k + 1 + j]));
        assert(seq![rebuilt(kind, units[k])] + more =~= want);
    } else {
        assert(want =~= seq![]);
    }
}

/// A chunk tells the number of its units, less one, in five bits of its first byte and seven
/// of each byte that follows, and its kind in the lowest two.
pub proof fn a_chunk_counts_its_units(raw: Seq<u8>, pos: int, kind: int, low: int, mid: int, high: int)
    requires
        0 <= pos < raw.len(),
        0 <= kind < 4,
        0 <= low < 32,
        0 <= mid < 128,
        0 <= high < 128,
    ensures
        raw[pos] == kind + 4 * low ==> chunk_count(raw, pos) == (low + 1, pos + 1),
        raw[pos] == kind + 4 * low + 128 && pos + 1 < raw.len() && raw[pos + 1] == mid
            ==> chunk_count(raw, pos) == (low + 32 * mid + 1, pos + 2),
        raw[pos] == kind + 4 * low + 128 && pos + 2 < raw.len() && raw[pos + 1] == mid + 128
            && raw[pos + 2] == high ==> chunk_count(raw, pos) == (
            low + 32 * (mid + 128 * high) + 1,
            pos + 3,
        ),
        raw[pos] == kind + 4 * low || raw[pos] == kind + 4 * low + 128 ==> raw[pos] as int % 4
            == kind,
{
    reveal_with_fuel(count_from, 3);
}

/// Bytes that are stored as they are make sectors of 2352 of them; zeros fill the last one.
pub proof fn plain_bytes_make_sectors(raw: Seq<u8>, from: int, to: int)
    requires
        0 <= from <= to <= raw.len(),
    ensures
        2352 * padded_sectors(raw, from, to).len() >= to - from,
        2352 * padded_sectors(raw, from, to).len() < to - from + 2352,
        forall|i: int|
            0 <= i < to - from ==> #[trigger] padded_sectors(raw, from, to)[i / 2352][i % 2352]
                == raw[from + i],
    decreases to - from,
{
    if to - from > 2352 {
        plain_bytes_make_sectors(raw, from + 2352, to);
        let more = padded_sectors(raw, from + 2352, to);
        let all = padded_sectors(raw, from, to);
        assert(all == seq![raw.subrange(from, from + 2352)] + more);
        assert forall|i: int| 0 <= i < to - from implies #[trigger] all[i / 2352][i % 2352]
            == raw[from + i] by {
            if i >= 2352 {
                let j = i - 2352;
                assert(j / 2352 == i / 2352 - 1 && j % 2352 == i % 2352);
                assert(more[j / 2352][j % 2352] == raw[from + 2352 + j]);
                assert(all[i / 2352] == more[i / 2352 - 1]);
            }
        }
    } else if from < to {
        let all = padded_sectors(raw, from, to);
        assert forall|i: int| 0 <= i < to - from implies #[trigger] all[i / 2352][i % 2352]
            == raw[from + i] by {}
    }
}

} // verus!
