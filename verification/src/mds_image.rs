//! Alcohol images: the descriptor file that goes with the tracks' data.
use vstd::prelude::*;
use crate::bytes;
use crate::bytes::{read_u16_le, read_u32_le, read_u64_le, spells_at};
use crate::sector::RAW_SECTOR_SIZE;
use crate::source::{ByteSource, Reads};
use crate::text::join2;
use crate::track;
use crate::track::{sector_lba_at, DataTrack, InfoView, TrackInfo, TrackView};

verus! {

/// The length of a track block.
pub const TRACK_BLOCK_SIZE: usize = 80;

/// The length of a session block.
pub const SESSION_BLOCK_SIZE: usize = 24;

/// Whether `data` is a descriptor.
pub open spec fn is_descriptor(data: Seq<u8>) -> bool {
    data.len() >= 0x60 && bytes::spells(data, 0, "MEDIA DESCRIPTOR"@)
}

/// The whole sectors of 2048 bytes in a file of known length.
pub open spec fn plain_sectors(len: Option<u64>) -> u64 {
    match len {
        Some(n) => n / 2048,
        None => 0,
    }
}

/// Whether a track block is of a track that holds data.
pub open spec fn is_data_mode(mode: u8) -> bool {
    mode != 0 && mode != 0xA9
}

/// Whether a track block is of a track, not of a lead-in or lead-out.
pub open spec fn is_track(data: Seq<u8>, tb: int) -> bool {
    1 <= data[tb + 4] <= 99
}

/// The length of a track's sectors, with their subchannel.
pub open spec fn stride_of(data: Seq<u8>, tb: int) -> int {
    if bytes::le16_at(data, tb + 0x10) >= 0x800 {
        bytes::le16_at(data, tb + 0x10)
    } else {
        RAW_SECTOR_SIZE as int
    }
}

/// The bytes of subchannel in each of a track's sectors.
pub open spec fn subchannel(data: Seq<u8>, tb: int) -> int {
    if data[tb + 1] != 0 {
        0x60
    } else {
        0
    }
}

/// Where the user data of a track's sectors starts.
pub open spec fn user_data(data: Seq<u8>, tb: int) -> u64 {
    if stride_of(data, tb) - subchannel(data, tb) > 0x800 {
        if data[tb] == 0xAC || data[tb] == 0xAD || data[tb] == 0x03 || data[tb] == 0x04 {
            24
        } else {
            16
        }
    } else {
        0
    }
}

/// Where the first track block from `tb` on stands that holds data, among `n`.
pub open spec fn data_block(data: Seq<u8>, tb: int, n: int) -> Option<int>
    decreases n,
{
    if n <= 0 || tb + TRACK_BLOCK_SIZE > data.len() {
        None
    } else if is_track(data, tb) && is_data_mode(data[tb]) {
        Some(tb)
    } else {
        data_block(data, tb + TRACK_BLOCK_SIZE, n - 1)
    }
}

/// The data track of the track block at `tb`.
pub open spec fn track_at(data: Seq<u8>, mdf: Reads, mdf_path: Seq<char>, tb: int) -> TrackView {
    TrackView {
        bin_path: mdf_path,
        track_offset: bytes::le64_at(data, tb + 0x28) as u64,
        user_data_offset: user_data(data, tb),
        stride: stride_of(data, tb) as u64,
        lba_offset: track::lba_at(mdf, bytes::le64_at(data, tb + 0x28)),
        descramble: false,
        sector_count: 0,
    }
}

/// The data track of an image: of a DVD, the whole data file; of a CD, the first
/// data track of its first session.
pub open spec fn chosen_track(
    data: Seq<u8>,
    mdf: Reads,
    mdf_path: Seq<char>,
    mdf_exists: bool,
    mdf_len: Option<u64>,
) -> Result<TrackView, Seq<char>> {
    let session = bytes::le32_at(data, 0x50);
    if !is_descriptor(data) {
        Err("Not a valid MDS file"@)
    } else if !mdf_exists {
        Err("MDF file not found: "@ + mdf_path)
    } else if data[0x12] >= 0x10 {
        Ok(
            TrackView {
                bin_path: mdf_path,
                track_offset: 0,
                user_data_offset: 0,
                stride: 2048,
                lba_offset: 0,
                descramble: false,
                sector_count: plain_sectors(mdf_len),
            },
        )
    } else if session + SESSION_BLOCK_SIZE > data.len() {
        Err("Invalid MDS session offset"@)
    } else {
        match data_block(
            data,
            bytes::le32_at(data, session + 0x14),
            data[session + 0x0A] as int,
        ) {
            None => Err("No data track found in MDS"@),
            Some(tb) => Ok(track_at(data, mdf, mdf_path, tb)),
        }
    }
}

/// The name of a track's mode.
pub open spec fn mode_name(data: Seq<u8>, tb: int) -> Seq<char> {
    let mode = data[tb];
    if mode == 0x00 || mode == 0xA9 {
        "AUDIO"@
    } else if mode == 0xAB || mode == 0x02 || mode == 0x03 || mode == 0x04 {
        "MODE2/2352"@
    } else if bytes::le16_at(data, tb + 0x10) - subchannel(data, tb) <= 0x800 {
        "MODE1/2048"@
    } else {
        "MODE1/2352"@
    }
}

/// The length of a track, which the block behind its own says.
pub open spec fn track_len(data: Seq<u8>, tb: int) -> u64 {
    let extra = bytes::le32_at(data, tb + 0x0C);
    if extra + 8 <= data.len() {
        bytes::le32_at(data, extra + 4) as u64
    } else {
        0
    }
}

/// A track as it is listed.
pub open spec fn listed(data: Seq<u8>, tb: int, session: u32, mdf_path: Seq<char>) -> InfoView {
    InfoView {
        number: data[tb + 4] as u32,
        is_data: is_data_mode(data[tb]),
        mode: mode_name(data, tb),
        start_lba: bytes::le32_at(data, tb + 0x24) as u64,
        num_sectors: track_len(data, tb),
        session,
        bin_path: mdf_path,
    }
}

/// The tracks of `n` blocks from `tb` on.
pub open spec fn blocks_listed(
    data: Seq<u8>,
    tb: int,
    n: int,
    session: u32,
    mdf_path: Seq<char>,
) -> Seq<InfoView>
    decreases n,
{
    if n <= 0 || tb + TRACK_BLOCK_SIZE > data.len() {
        seq![]
    } else {
        let rest = blocks_listed(data, tb + TRACK_BLOCK_SIZE, n - 1, session, mdf_path);
        if is_track(data, tb) {
            seq![listed(data, tb, session, mdf_path)] + rest
        } else {
            rest
        }
    }
}

/// The number of the session whose block stands at `at`, the session `s` of the
/// image counted from zero.
pub open spec fn session_number(data: Seq<u8>, at: int, s: int) -> u32 {
    if bytes::le16_at(data, at + 8) > 0 {
        bytes::le16_at(data, at + 8) as u32
    } else {
        (s + 1) as u32
    }
}

/// The tracks of the sessions from `s` on, of `n`.
pub open spec fn sessions_listed(
    data: Seq<u8>,
    first: int,
    s: int,
    n: int,
    mdf_path: Seq<char>,
) -> Seq<InfoView>
    decreases n - s,
{
    let at = first + s * SESSION_BLOCK_SIZE;
    if s >= n || at + SESSION_BLOCK_SIZE > data.len() {
        seq![]
    } else {
        blocks_listed(
            data,
            bytes::le32_at(data, at + 0x14),
            data[at + 0x0A] as int,
            session_number(data, at, s),
            mdf_path,
        ) + sessions_listed(data, first, s + 1, n, mdf_path)
    }
}

/// The sessions of an image: at least one.
pub open spec fn session_count(data: Seq<u8>) -> int {
    let n = bytes::le16_at(data, 0x14);
    if n == 0 {
        1
    } else {
        n
    }
}

/// The tracks among the first `k` that have the number `n`, in their order.
pub open spec fn numbered(v: Seq<InfoView>, n: int, k: int) -> Seq<InfoView>
    decreases k,
{
    if k <= 0 {
        seq![]
    } else if v[k - 1].number == n {
        numbered(v, n, k - 1).push(v[k - 1])
    } else {
        numbered(v, n, k - 1)
    }
}

/// The tracks with numbers from one up to `n`, by their numbers; tracks of the
/// same number stay in their order.
pub open spec fn by_number(v: Seq<InfoView>, n: int) -> Seq<InfoView>
    decreases n,
{
    if n <= 0 {
        seq![]
    } else {
        by_number(v, n - 1) + numbered(v, n, v.len() as int)
    }
}

/// The tracks of an image as they are listed.
pub open spec fn track_listing(data: Seq<u8>, mdf_path: Seq<char>, mdf_len: Option<u64>) -> Result<
    Seq<InfoView>,
    Seq<char>,
> {
    if !is_descriptor(data) {
        Err("Not a valid MDS file"@)
    } else if data[0x12] >= 0x10 {
        Ok(
            seq![
                InfoView {
                    number: 1,
                    is_data: true,
                    mode: "MODE1/2048"@,
                    start_lba: 0,
                    num_sectors: plain_sectors(mdf_len),
                    session: 1,
                    bin_path: mdf_path,
                },
            ],
        )
    } else {
        Ok(
            by_number(
                sessions_listed(
                    data,
                    bytes::le32_at(data, 0x50),
                    0,
                    session_count(data),
                    mdf_path,
                ),
                99,
            ),
        )
    }
}

/// Tracks picked by their number have it.
proof fn lemma_numbered(v: Seq<InfoView>, n: int, k: int)
    requires
        0 <= k <= v.len(),
    ensures
        forall|i: int|
            0 <= i < numbered(v, n, k).len() ==> (#[trigger] numbered(v, n, k)[i]).number == n,
    decreases k,
{
    if k > 0 {
        lemma_numbered(v, n, k - 1);
        let before = numbered(v, n, k - 1);
        let now = numbered(v, n, k);
        assert forall|i: int| 0 <= i < now.len() implies (#[trigger] now[i]).number == n by {
            if i < before.len() {
                assert(now[i] == before[i]);
            }
        }
    }
}

/// Listed tracks follow each other by their numbers.
pub proof fn tracks_are_listed_by_number(v: Seq<InfoView>, n: int)
    ensures
        forall|i: int, j: int|
            0 <= i <= j < by_number(v, n).len() ==> (#[trigger] by_number(v, n)[i]).number
                <= (#[trigger] by_number(v, n)[j]).number,
        forall|i: int|
            0 <= i < by_number(v, n).len() ==> 1 <= (#[trigger] by_number(v, n)[i]).number <= n,
    decreases n,
{
    if n > 0 {
        tracks_are_listed_by_number(v, n - 1);
        lemma_numbered(v, n, v.len() as int);
        let before = by_number(v, n - 1);
        let these = numbered(v, n, v.len() as int);
        let now = by_number(v, n);
        assert forall|i: int| 0 <= i < now.len() implies 1 <= (#[trigger] now[i]).number <= n && (
        i < before.len() ==> now[i] == before[i]) && (i >= before.len() ==> now[i].number == n) by {
            if i < before.len() {
                assert(now[i] == before[i]);
            } else {
                assert(now[i] == these[i - before.len()]);
            }
        }
    }
}

// ── Reading ─────────────────────────────────────────────────────────────────

/// Finds the first track block that holds data.
#[verifier::loop_isolation(false)]
fn find_data_block(data: &[u8], first: u32, n: u8) -> (r: Option<usize>)
    ensures
        match r {
            Some(tb) => data_block(data@, first as int, n as int) == Some(tb as int) && tb
                + TRACK_BLOCK_SIZE <= data@.len(),
            None => data_block(data@, first as int, n as int) is None,
        },
{
    let len: usize = data.len();
    let mut tb: u64 = first as u64;
    let mut left: u8 = n;
    while left > 0
        invariant
            tb <= 0xffff_ffff + (n - left) * 80,
            left <= n,
            data_block(data@, tb as int, left as int) == data_block(
                data@,
                first as int,
                n as int,
            ),
        decreases left,
    {
        if tb + 80 > len as u64 {
            return None;
        }
        let at: usize = tb as usize;
        let mode: u8 = data[at];
        let point: u8 = data[at + 4];
        if 1 <= point && point <= 99 && mode != 0 && mode != 0xA9 {
            return Some(at);
        }
        tb += 80;
        left -= 1;
    }
    None
}

/// The data track of a track block.
fn read_track<S: ByteSource>(data: &[u8], mdf: &mut S, mdf_path: &str, tb: usize) -> (r: DataTrack)
    requires
        tb + TRACK_BLOCK_SIZE <= data@.len(),
    ensures
        final(mdf).reads() == old(mdf).reads(),
        r@ == track_at(data@, old(mdf).reads(), mdf_path@, tb as int),
{
    let len: usize = data.len();
    let size: u16 = read_u16_le(data, tb + 0x10);
    let stride: u64 = if size >= 0x800 {
        size as u64
    } else {
        RAW_SECTOR_SIZE
    };
    let sub: u64 = if data[tb + 1] != 0 {
        0x60
    } else {
        0
    };
    let mode: u8 = data[tb];
    let user_data_offset: u64 = if stride - sub > 0x800 {
        if mode == 0xAC || mode == 0xAD || mode == 0x03 || mode == 0x04 {
            24
        } else {
            16
        }
    } else {
        0
    };
    let track_offset: u64 = read_u64_le(data, tb + 0x28);
    let lba_offset: u64 = sector_lba_at(mdf, track_offset);
    DataTrack {
        bin_path: mdf_path.to_owned(),
        track_offset,
        user_data_offset,
        stride,
        lba_offset,
        descramble: false,
        sector_count: 0,
    }
}

/// The whole sectors of 2048 bytes in a file of known length.
fn count_plain(len: Option<u64>) -> (r: u64)
    ensures
        r == plain_sectors(len),
{
    match len {
        Some(n) => n / 2048,
        None => 0,
    }
}

/// Finds the data track of an image: `mdf` is the data file that goes with the
/// descriptor.
pub fn parse_mds_for_data_track<S: ByteSource>(
    data: &[u8],
    mdf: &mut S,
    mdf_path: &str,
    mdf_exists: bool,
    mdf_len: Option<u64>,
) -> (r: Result<DataTrack, String>)
    ensures
        final(mdf).reads() == old(mdf).reads(),
        track::track_outcome(r) == chosen_track(
            data@,
            old(mdf).reads(),
            mdf_path@,
            mdf_exists,
            mdf_len,
        ),
{
    let len: usize = data.len();
    if len < 0x60 || !spells_at(data, 0, "MEDIA DESCRIPTOR") {
        return Err("Not a valid MDS file".to_owned());
    }
    if !mdf_exists {
        return Err(join2("MDF file not found: ", mdf_path));
    }
    if data[0x12] >= 0x10 {
        return Ok(
            DataTrack {
                bin_path: mdf_path.to_owned(),
                track_offset: 0,
                user_data_offset: 0,
                stride: 2048,
                lba_offset: 0,
                descramble: false,
                sector_count: count_plain(mdf_len),
            },
        );
    }
    let session: u32 = read_u32_le(data, 0x50);
    if session as u64 + 24 > len as u64 {
        return Err("Invalid MDS session offset".to_owned());
    }
    let at: usize = session as usize;
    match find_data_block(data, read_u32_le(data, at + 0x14), data[at + 0x0A]) {
        None => Err("No data track found in MDS".to_owned()),
        Some(tb) => Ok(read_track(data, mdf, mdf_path, tb)),
    }
}

/// The name of a track's mode.
fn mode_text(data: &[u8], tb: usize) -> (r: String)
    requires
        tb + TRACK_BLOCK_SIZE <= data@.len(),
    ensures
        r@ == mode_name(data@, tb as int),
{
    let len: usize = data.len();
    let mode: u8 = data[tb];
    let sub: u64 = if data[tb + 1] != 0 {
        0x60
    } else {
        0
    };
    let size: u64 = read_u16_le(data, tb + 0x10) as u64;
    if mode == 0x00 || mode == 0xA9 {
        "AUDIO".to_owned()
    } else if mode == 0xAB || mode == 0x02 || mode == 0x03 || mode == 0x04 {
        "MODE2/2352".to_owned()
    } else if size <= 0x800 + sub {
        "MODE1/2048".to_owned()
    } else {
        "MODE1/2352".to_owned()
    }
}

/// A track as it is listed.
fn list_track(data: &[u8], tb: usize, session: u32, mdf_path: &str) -> (r: TrackInfo)
    requires
        tb + TRACK_BLOCK_SIZE <= data@.len(),
    ensures
        r@ == listed(data@, tb as int, session, mdf_path@),
{
    let len: usize = data.len();
    let mode: u8 = data[tb];
    let extra: u32 = read_u32_le(data, tb + 0x0C);
    let num_sectors: u64 = if extra as u64 + 8 <= len as u64 {
        read_u32_le(data, extra as usize + 4) as u64
    } else {
        0
    };
    TrackInfo {
        number: data[tb + 4] as u32,
        is_data: mode != 0 && mode != 0xA9,
        mode: mode_text(data, tb),
        start_lba: read_u32_le(data, tb + 0x24) as u64,
        num_sectors,
        session,
        bin_path: mdf_path.to_owned(),
    }
}

/// Adds the tracks of a session's blocks.
#[verifier::loop_isolation(false)]
fn list_blocks(
    data: &[u8],
    first: u32,
    n: u8,
    session: u32,
    mdf_path: &str,
    out: &mut Vec<TrackInfo>,
)
    ensures
        track::infos(final(out)@) == track::infos(old(out)@) + blocks_listed(
            data@,
            first as int,
            n as int,
            session,
            mdf_path@,
        ),
{
    let len: usize = data.len();
    let ghost goal = track::infos(out@) + blocks_listed(
        data@,
        first as int,
        n as int,
        session,
        mdf_path@,
    );
    let mut tb: u64 = first as u64;
    let mut left: u8 = n;
    while left > 0 && tb + 80 <= len as u64
        invariant
            tb <= 0xffff_ffff + (n - left) * 80,
            left <= n,
            track::infos(out@) + blocks_listed(
                data@,
                tb as int,
                left as int,
                session,
                mdf_path@,
            ) == goal,
        decreases left,
    {
        let at: usize = tb as usize;
        let point: u8 = data[at + 4];
        if 1 <= point && point <= 99 {
            let info: TrackInfo = list_track(data, at, session, mdf_path);
            let ghost before = track::infos(out@);
            let ghost iv = info@;
            let ghost rest = blocks_listed(data@, tb + 80, left - 1, session, mdf_path@);
            out.push(info);
            assert(track::infos(out@) =~= before.push(iv));
            assert(before + (seq![iv] + rest) =~= before.push(iv) + rest);
        }
        tb += 80;
        left -= 1;
    }
    assert(track::infos(out@) + seq![] =~= track::infos(out@));
}

/// All tracks of an image's sessions.
#[verifier::loop_isolation(false)]
fn list_sessions(data: &[u8], first: u32, n: u16, mdf_path: &str) -> (r: Vec<TrackInfo>)
    ensures
        track::infos(r@) == sessions_listed(data@, first as int, 0, n as int, mdf_path@),
{
    let len: usize = data.len();
    let ghost goal = sessions_listed(data@, first as int, 0, n as int, mdf_path@);
    let mut out: Vec<TrackInfo> = Vec::new();
    assert(track::infos(out@) + goal =~= goal);
    let mut s: u16 = 0;
    while s < n && first as u64 + s as u64 * 24 + 24 <= len as u64
        invariant
            s <= n,
            track::infos(out@) + sessions_listed(
                data@,
                first as int,
                s as int,
                n as int,
                mdf_path@,
            ) == goal,
        decreases n - s,
    {
        let at: usize = (first as u64 + s as u64 * 24) as usize;
        let number: u16 = read_u16_le(data, at + 8);
        let session: u32 = if number > 0 {
            number as u32
        } else {
            s as u32 + 1
        };
        let blocks: u32 = read_u32_le(data, at + 0x14);
        let count: u8 = data[at + 0x0A];
        let ghost before = track::infos(out@);
        let ghost these = blocks_listed(
            data@,
            blocks as int,
            count as int,
            session,
            mdf_path@,
        );
        let ghost rest = sessions_listed(data@, first as int, s + 1, n as int, mdf_path@);
        list_blocks(data, blocks, count, session, mdf_path, &mut out);
        assert(before + (these + rest) =~= (before + these) + rest);
        s += 1;
    }
    assert(track::infos(out@) + seq![] =~= track::infos(out@));
    out
}

/// A copy of a listed track.
fn copy_info(t: &TrackInfo) -> (r: TrackInfo)
    ensures
        r@ == t@,
{
    TrackInfo {
        number: t.number,
        is_data: t.is_data,
        mode: t.mode.as_str().to_owned(),
        start_lba: t.start_lba,
        num_sectors: t.num_sectors,
        session: t.session,
        bin_path: t.bin_path.as_str().to_owned(),
    }
}

/// The tracks with numbers up to 99, by their numbers.
fn sort_by_number(v: &Vec<TrackInfo>) -> (r: Vec<TrackInfo>)
    ensures
        track::infos(r@) == by_number(track::infos(v@), 99),
{
    let ghost all = track::infos(v@);
    let mut out: Vec<TrackInfo> = Vec::new();
    assert(track::infos(out@) =~= seq![]);
    let mut n: u32 = 0;
    while n < 99
        invariant
            n <= 99,
            all == track::infos(v@),
            track::infos(out@) == by_number(all, n as int),
        decreases 99 - n,
    {
        n += 1;
        let ghost head = by_number(all, n - 1);
        let mut k: usize = 0;
        assert(head + numbered(all, n as int, 0) =~= head);
        while k < v.len()
            invariant
                k <= v@.len(),
                all == track::infos(v@),
                track::infos(out@) == head + numbered(all, n as int, k as int),
            decreases v@.len() - k,
        {
            assert(all[k as int] == v@[k as int]@);
            if v[k].number == n {
                let info: TrackInfo = copy_info(&v[k]);
                let ghost before = track::infos(out@);
                out.push(info);
                assert(track::infos(out@) =~= before.push(all[k as int]));
                assert(before.push(all[k as int]) =~= head + numbered(all, n as int, k as int).push(
                    all[k as int],
                ));
            }
            k += 1;
        }
        assert(all.len() == v@.len());
    }
    out
}

/// Lists the tracks of an image: `mdf_path` names the data file that goes with
/// the descriptor, and `mdf_len` is its length.
pub fn get_mds_track_list(data: &[u8], mdf_path: &str, mdf_len: Option<u64>) -> (r: Result<
    Vec<TrackInfo>,
    String,
>)
    ensures
        track::listing_outcome(r) == track_listing(data@, mdf_path@, mdf_len),
{
    let len: usize = data.len();
    if len < 0x60 || !spells_at(data, 0, "MEDIA DESCRIPTOR") {
        return Err("Not a valid MDS file".to_owned());
    }
    if data[0x12] >= 0x10 {
        let info: TrackInfo = TrackInfo {
            number: 1,
            is_data: true,
            mode: "MODE1/2048".to_owned(),
            start_lba: 0,
            num_sectors: count_plain(mdf_len),
            session: 1,
            bin_path: mdf_path.to_owned(),
        };
        let ghost iv = info@;
        let mut out: Vec<TrackInfo> = Vec::new();
        out.push(info);
        assert(track::infos(out@) =~= seq![iv]);
        return Ok(out);
    }
    let n: u16 = read_u16_le(data, 0x14);
    let sessions: u16 = if n == 0 {
        1
    } else {
        n
    };
    let all: Vec<TrackInfo> = list_sessions(data, read_u32_le(data, 0x50), sessions, mdf_path);
    Ok(sort_by_number(&all))
}

/// A track block of 80 bytes that holds no data track is passed over, and the next one looked
/// at; the first that does is the one.
pub proof fn track_blocks_follow_each_other(data: Seq<u8>, tb: int, n: int)
    requires
        0 < n,
        0 <= tb,
        tb + 80 <= data.len(),
    ensures
        1 <= data[tb + 4] <= 99 && data[tb] != 0 && data[tb] != 0xA9 ==> data_block(data, tb, n)
            == Some(tb),
        data[tb + 4] == 0 || data[tb + 4] > 99 || data[tb] == 0 || data[tb] == 0xA9 ==> data_block(
            data,
            tb,
            n,
        ) == data_block(data, tb + 80, n - 1),
{
}

/// A descriptor leads to its data track: byte 0x50 to the session block, whose byte 0x14 leads
/// to the track blocks. A block tells the length of the sectors at 0x10 and where the track
/// starts at 0x28.
pub proof fn a_descriptor_leads_to_its_track(
    data: Seq<u8>,
    mdf: Reads,
    mdf_path: Seq<char>,
    mdf_len: Option<u64>,
    session: int,
    tb: int,
    stride: int,
    start: int,
)
    requires
        data.len() >= 0x60,
        bytes::spells(data, 0, "MEDIA DESCRIPTOR"@),
        data[0x12] < 0x10,
        0 <= session <= 0xFFFF_FFFF,
        session + 24 <= data.len(),
        0 <= tb <= 0xFFFF_FFFF,
        tb + 80 <= data.len(),
        bytes::has_at(data, 0x50, bytes::le_bytes(session, 4)),
        bytes::has_at(data, session + 0x14, bytes::le_bytes(tb, 4)),
        data[session + 0x0A] > 0,
        1 <= data[tb + 4] <= 99,
        data[tb] != 0,
        data[tb] != 0xA9,
        0x800 <= stride <= 0xFFFF,
        0 <= start <= u64::MAX,
        bytes::has_at(data, tb + 0x10, bytes::le_bytes(stride, 2)),
        bytes::has_at(data, tb + 0x28, bytes::le_bytes(start, 8)),
    ensures
        chosen_track(data, mdf, mdf_path, true, mdf_len) matches Ok(t) && {
            &&& t.bin_path == mdf_path
            &&& t.track_offset == start
            &&& t.stride == stride
            &&& t.lba_offset == track::lba_at(mdf, start)
            &&& data[tb + 1] == 0 && stride == 2048 ==> t.user_data_offset == 0
            &&& data[tb + 1] != 0 && stride == 2144 ==> t.user_data_offset == 0
            &&& stride >= 2352 && (data[tb] == 0xAC || data[tb] == 0xAD || data[tb] == 3 || data[tb]
                == 4) ==> t.user_data_offset == 24
            &&& stride >= 2352 && (data[tb] == 0xAA || data[tb] == 0xAB || data[tb] == 1 || data[tb]
                == 2) ==> t.user_data_offset == 16
        },
{
    bytes::fields_hold_what_was_written(data, 0x50, session);
    bytes::fields_hold_what_was_written(data, session + 0x14, tb);
    bytes::fields_hold_what_was_written(data, tb + 0x10, stride);
    bytes::fields_hold_what_was_written(data, tb + 0x28, start);
}

/// A track is listed with what its block holds: its number at 4, where it starts at 0x24, and
/// its length four bytes behind where the block at 0x0C leads.
pub proof fn a_track_is_listed_by_its_block(
    data: Seq<u8>,
    tb: int,
    n: int,
    session: u32,
    path: Seq<char>,
    lba: u32,
    extra: int,
    len: u32,
)
    requires
        0 < n,
        0 <= tb,
        tb + 80 <= data.len(),
        1 <= data[tb + 4] <= 99,
        0 <= extra <= 0xFFFF_FFFF,
        extra + 8 <= data.len(),
        bytes::has_at(data, tb + 0x24, bytes::le_bytes(lba as int, 4)),
        bytes::has_at(data, tb + 0x0C, bytes::le_bytes(extra, 4)),
        bytes::has_at(data, extra + 4, bytes::le_bytes(len as int, 4)),
    ensures
        ({
            let v = blocks_listed(data, tb, n, session, path);
            &&& v.len() > 0
            &&& v[0].number == data[tb + 4]
            &&& v[0].start_lba == lba
            &&& v[0].num_sectors == len
            &&& v[0].session == session
            &&& v[0].is_data == (data[tb] != 0 && data[tb] != 0xA9)
            &&& v.skip(1) == blocks_listed(data, tb + 80, n - 1, session, path)
        }),
{
    bytes::fields_hold_what_was_written(data, tb + 0x24, lba as int);
    bytes::fields_hold_what_was_written(data, tb + 0x0C, extra);
    bytes::fields_hold_what_was_written(data, extra + 4, len as int);
    let rest = blocks_listed(data, tb + 80, n - 1, session, path);
    let v = blocks_listed(data, tb, n, session, path);
    assert(v == seq![listed(data, tb, session, path)] + rest);
    assert(v.skip(1) =~= rest);
}

/// The session blocks of 24 bytes follow each other; each tells its number at 8, how many
/// track blocks it has at 0x0A and where they stand at 0x14.
pub proof fn session_blocks_follow_each_other(
    data: Seq<u8>,
    first: int,
    s: int,
    n: int,
    path: Seq<char>,
    number: int,
    tb: int,
)
    requires
        0 <= first,
        0 <= s < n,
        first + 24 * s + 24 <= data.len(),
        0 < number <= 0xFFFF,
        0 <= tb <= 0xFFFF_FFFF,
        bytes::has_at(data, first + 24 * s + 8, bytes::le_bytes(number, 2)),
        bytes::has_at(data, first + 24 * s + 0x14, bytes::le_bytes(tb, 4)),
    ensures
        sessions_listed(data, first, s, n, path) == blocks_listed(
            data,
            tb,
            data[first + 24 * s + 10] as int,
            number as u32,
            path,
        ) + sessions_listed(data, first, s + 1, n, path),
{
    bytes::fields_hold_what_was_written(data, first + 24 * s + 8, number);
    bytes::fields_hold_what_was_written(data, first + 24 * s + 0x14, tb);
}

/// A track of an image is listed among those by number if and only if it has one of these.
pub proof fn every_numbered_track_is_listed(v: Seq<InfoView>, n: int, i: int)
    requires
        0 <= i < v.len(),
        1 <= v[i].number <= n,
    ensures
        by_number(v, n).contains(v[i]),
    decreases n,
{
    if v[i].number == n {
        lemma_among_numbered(v, n, v.len() as int, i);
        let t = numbered(v, n, v.len() as int);
        let j = choose|j: int| 0 <= j < t.len() && t[j] == v[i];
        let all = by_number(v, n);
        assert(all[by_number(v, n - 1).len() + j] == v[i]);
    } else {
        every_numbered_track_is_listed(v, n - 1, i);
        let t = by_number(v, n - 1);
        let j = choose|j: int| 0 <= j < t.len() && t[j] == v[i];
        let all = by_number(v, n);
        assert(all[j] == v[i]);
    }
}

/// A track is among those of its number.
proof fn lemma_among_numbered(v: Seq<InfoView>, n: int, k: int, i: int)
    requires
        0 <= i < k <= v.len(),
        v[i].number == n,
    ensures
        numbered(v, n, k).contains(v[i]),
    decreases k,
{
    let t = numbered(v, n, k);
    if i == k - 1 {
        assert(t[t.len() - 1] == v[i]);
    } else {
        lemma_among_numbered(v, n, k - 1, i);
        let b = numbered(v, n, k - 1);
        let j = choose|j: int| 0 <= j < b.len() && b[j] == v[i];
        assert(t[j] == v[i]);
    }
}

} // verus!
