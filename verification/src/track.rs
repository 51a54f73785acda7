//! Data tracks of disc images: sector headers, layouts, and where sectors stand.
use vstd::prelude::*;
use vstd::slice::*;
use crate::bytes;
use crate::bytes::{bytes_at, cut, spells_at};
use crate::sector;
use crate::sector::{data_position, RAW_SECTOR_SIZE};
use crate::source;
use crate::source::{read_wide, ByteSource, Reads};

verus! {

/// A data track: the file it is in, and how its sectors stand there.
pub struct DataTrack {
    pub bin_path: String,
    pub track_offset: u64,
    pub user_data_offset: u64,
    pub stride: u64,
    pub lba_offset: u64,
    pub descramble: bool,
    pub sector_count: u64,
}

/// The contents of a data track.
#[verifier::ext_equal]
pub struct TrackView {
    pub bin_path: Seq<char>,
    pub track_offset: u64,
    pub user_data_offset: u64,
    pub stride: u64,
    pub lba_offset: u64,
    pub descramble: bool,
    pub sector_count: u64,
}

impl View for DataTrack {
    type V = TrackView;

    open spec fn view(&self) -> TrackView {
        TrackView {
            bin_path: self.bin_path@,
            track_offset: self.track_offset,
            user_data_offset: self.user_data_offset,
            stride: self.stride,
            lba_offset: self.lba_offset,
            descramble: self.descramble,
            sector_count: self.sector_count,
        }
    }
}

/// The contents of the outcome of a search for a data track.
pub open spec fn track_outcome(r: Result<DataTrack, String>) -> Result<TrackView, Seq<char>> {
    match r {
        Ok(t) => Ok(t@),
        Err(e) => Err(e@),
    }
}

/// One track as listed for an image.
pub struct TrackInfo {
    pub number: u32,
    pub is_data: bool,
    pub mode: String,
    pub start_lba: u64,
    pub num_sectors: u64,
    pub session: u32,
    pub bin_path: String,
}

/// The contents of a listed track.
#[verifier::ext_equal]
pub struct InfoView {
    pub number: u32,
    pub is_data: bool,
    pub mode: Seq<char>,
    pub start_lba: u64,
    pub num_sectors: u64,
    pub session: u32,
    pub bin_path: Seq<char>,
}

impl View for TrackInfo {
    type V = InfoView;

    open spec fn view(&self) -> InfoView {
        InfoView {
            number: self.number,
            is_data: self.is_data,
            mode: self.mode@,
            start_lba: self.start_lba,
            num_sectors: self.num_sectors,
            session: self.session,
            bin_path: self.bin_path@,
        }
    }
}

/// The contents of listed tracks.
pub open spec fn infos(v: Seq<TrackInfo>) -> Seq<InfoView> {
    v.map_values(|t: TrackInfo| t@)
}

/// The contents of the outcome of a listing.
pub open spec fn listing_outcome(r: Result<Vec<TrackInfo>, String>) -> Result<
    Seq<InfoView>,
    Seq<char>,
> {
    match r {
        Ok(v) => Ok(infos(v@)),
        Err(e) => Err(e@),
    }
}

// ── Sector headers ──────────────────────────────────────────────────────────

/// The pattern that a raw sector begins with.
pub open spec fn sync_pattern() -> Seq<u8> {
    seq![0x00u8, 0xFF, 0xFF, 0xFF, 0xFF, 0xFF, 0xFF, 0xFF, 0xFF, 0xFF, 0xFF, 0x00]
}

/// Whether `s` begins like a raw sector.
pub open spec fn is_synced(s: Seq<u8>) -> bool {
    bytes::has_at(s, 0, sync_pattern())
}

/// Whether `s` begins like a raw sector.
pub fn has_sync(s: &[u8]) -> (r: bool)
    ensures
        r == is_synced(s@),
{
    let pattern: [u8; 12] = [
        0x00, 0xFF, 0xFF, 0xFF, 0xFF, 0xFF, 0xFF, 0xFF, 0xFF, 0xFF, 0xFF, 0x00,
    ];
    assert(pattern@ =~= sync_pattern());
    bytes_at(s, 0, pattern.as_slice())
}

/// The value of a byte in binary-coded decimal.
pub open spec fn bcd(b: u8) -> int {
    b / 16 * 10 + b % 16
}

/// The value of a byte in binary-coded decimal.
pub fn from_bcd(b: u8) -> (r: u64)
    ensures
        r == bcd(b),
        r <= 165,
{
    b as u64 / 16 * 10 + b as u64 % 16
}

/// The sector of the disc that a sector's header names: its minute, second and
/// frame count from two seconds before the first sector.
pub open spec fn header_lba(h: Seq<u8>) -> u64 {
    let n = (bcd(h[12]) * 60 + bcd(h[13])) * 75 + bcd(h[14]);
    if !is_synced(h) || n < 150 {
        0
    } else {
        (n - 150) as u64
    }
}

/// The sector of the disc that the header at `off` names; zero where there is
/// no header.
pub open spec fn lba_at(reads: Reads, off: int) -> u64 {
    match reads(off, 15) {
        Err(_) => 0,
        Ok(h) => header_lba(h),
    }
}

/// The sector of the disc that the header at `byte_offset` names.
pub fn sector_lba_at<S: ByteSource>(source: &mut S, byte_offset: u64) -> (r: u64)
    ensures
        final(source).reads() == old(source).reads(),
        r == lba_at(old(source).reads(), byte_offset as int),
{
    match source.read_exact_at(byte_offset, 15) {
        Err(_) => 0,
        Ok(h) => {
            if !has_sync(h.as_slice()) {
                return 0;
            }
            let n: u64 = (from_bcd(h[12]) * 60 + from_bcd(h[13])) * 75 + from_bcd(h[14]);
            if n < 150 {
                0
            } else {
                n - 150
            }
        },
    }
}

/// Where the user data of a raw sector that begins with `h` starts.
pub open spec fn raw_data_offset(h: Seq<u8>) -> u64 {
    if h[15] == 2 {
        24
    } else {
        16
    }
}

/// The length of the sectors at `off`, and where their user data starts: sectors
/// without a header are of 2048 bytes.
pub open spec fn format_at(reads: Reads, off: int) -> (u64, u64) {
    match reads(off, 16) {
        Err(_) => (2048, 0),
        Ok(h) => if is_synced(h) {
            (2352, raw_data_offset(h))
        } else {
            (2048, 0)
        },
    }
}

/// The length of the sectors at `offset`, and where their user data starts.
pub fn detect_sector_format_at<S: ByteSource>(source: &mut S, offset: u64) -> (r: (u64, u64))
    ensures
        final(source).reads() == old(source).reads(),
        r == format_at(old(source).reads(), offset as int),
{
    match source.read_exact_at(offset, 16) {
        Err(_) => (2048, 0),
        Ok(h) => if has_sync(h.as_slice()) {
            (
                2352,
                if h[15] == 2 {
                    24
                } else {
                    16
                },
            )
        } else {
            (2048, 0)
        },
    }
}

/// Where the user data of an image's raw sectors starts; none for an image of
/// plain sectors.
pub fn detect_raw_sector_offset<S: ByteSource>(source: &mut S) -> (r: Option<u64>)
    ensures
        final(source).reads() == old(source).reads(),
        r == (if format_at(old(source).reads(), 0).0 == 2352 {
            Some(format_at(old(source).reads(), 0).1)
        } else {
            None
        }),
{
    let (size, offset): (u64, u64) = detect_sector_format_at(source, 0);
    if size == 2352 {
        Some(offset)
    } else {
        None
    }
}

/// Whether the sixteenth sector of a track is a volume descriptor.
pub open spec fn has_descriptor(reads: Reads, track_offset: int, user_data_offset: int) -> bool {
    source::reach(reads, track_offset + 16 * 2352 + user_data_offset, 6) matches Ok(b)
        && bytes::spells(b, 1, "CD001"@)
}

/// Whether the sixteenth sector of a track is a volume descriptor.
pub fn has_pvd<S: ByteSource>(source: &mut S, track_offset: u64, user_data_offset: u64) -> (r: bool)
    ensures
        final(source).reads() == old(source).reads(),
        r == has_descriptor(
            old(source).reads(),
            track_offset as int,
            user_data_offset as int,
        ),
{
    let pos: u128 = track_offset as u128 + 16 * 2352 + user_data_offset as u128;
    match read_wide(source, pos, 6, "") {
        Err(_) => false,
        Ok(b) => spells_at(b.as_slice(), 1, "CD001"),
    }
}

/// The first of the 512 sectors from `delta` on, counted from the sixteenth, in
/// which a volume descriptor stands. The search ends at a sector that cannot be
/// read.
pub open spec fn descriptor_from(
    reads: Reads,
    base: int,
    stride: int,
    user_data_offset: int,
    delta: int,
) -> Option<int>
    decreases 512 - delta,
{
    if delta < 0 || delta >= 512 {
        None
    } else {
        match source::reach(
            reads,
            sector::data_pos(base, stride, user_data_offset, 16 + delta),
            8,
        ) {
            Err(_) => None,
            Ok(b) => if bytes::has_at(b, 0, seq![1u8, 0x43, 0x44, 0x30, 0x30, 0x31, 1]) {
                Some(delta)
            } else {
                descriptor_from(reads, base, stride, user_data_offset, delta + 1)
            },
        }
    }
}

/// Where a track has to begin for its sixteenth sector to be the first volume
/// descriptor found behind `base`.
pub open spec fn aligned_start(reads: Reads, base: int, stride: int, user_data_offset: int) -> Option<
    int,
> {
    match descriptor_from(reads, base, stride, user_data_offset, 0) {
        None => None,
        Some(delta) => Some(base + delta * stride),
    }
}

/// Where a track has to begin for its sixteenth sector to be a volume
/// descriptor.
#[verifier::loop_isolation(false)]
pub fn align_to_pvd<S: ByteSource>(
    source: &mut S,
    base_offset: u64,
    stride: u64,
    user_data_offset: u64,
) -> (r: Option<u64>)
    ensures
        final(source).reads() == old(source).reads(),
        match r {
            Some(p) => aligned_start(
                old(source).reads(),
                base_offset as int,
                stride as int,
                user_data_offset as int,
            ) == Some(p as int),
            None => aligned_start(
                old(source).reads(),
                base_offset as int,
                stride as int,
                user_data_offset as int,
            ) is None,
        },
{
    let ghost reads = source.reads();
    let ghost goal = descriptor_from(
        reads,
        base_offset as int,
        stride as int,
        user_data_offset as int,
        0,
    );
    let magic: [u8; 7] = [1, 0x43, 0x44, 0x30, 0x30, 0x31, 1];
    assert(magic@ =~= seq![1u8, 0x43, 0x44, 0x30, 0x30, 0x31, 1]);
    let mut delta: u64 = 0;
    while delta < 512
        invariant
            delta <= 512,
            source.reads() == reads,
            descriptor_from(
                reads,
                base_offset as int,
                stride as int,
                user_data_offset as int,
                delta as int,
            ) == goal,
        decreases 512 - delta,
    {
        let pos: u128 = data_position(base_offset, stride, user_data_offset, 16 + delta);
        match read_wide(source, pos, 8, "") {
            Err(_) => {
                return None;
            },
            Ok(b) => {
                if bytes_at(b.as_slice(), 0, magic.as_slice()) {
                    proof {
                        let s = stride as int;
                        let d = delta as int;
                        assert(d * s <= (16 + d) * s) by (nonlinear_arith)
                            requires
                                0 <= s,
                        ;
                        assert(0 <= d * s) by (nonlinear_arith)
                            requires
                                0 <= s,
                                0 <= d,
                        ;
                    }
                    let back: u128 = data_position(base_offset, stride, 0, delta);
                    return Some(back as u64);
                }
            },
        }
        delta += 1;
    }
    None
}

// ── Scrambling ──────────────────────────────────────────────────────────────

/// A raw sector with the scrambling of all but its first twelve bytes undone:
/// each is combined with one of the scrambler's table.
pub open spec fn descrambled(s: Seq<u8>, table: Seq<u8>) -> Seq<u8> {
    Seq::new(
        s.len(),
        |i: int|
            if i < 12 || i - 12 >= table.len() {
                s[i]
            } else {
                s[i] ^ table[i - 12]
            },
    )
}

/// Scrambling a sector twice gives it back.
pub proof fn scrambling_twice_changes_nothing(s: Seq<u8>, table: Seq<u8>)
    ensures
        descrambled(descrambled(s, table), table) == s,
{
    let once = descrambled(s, table);
    assert forall|i: int| 0 <= i < s.len() implies descrambled(once, table)[i] == s[i] by {
        if 12 <= i && i - 12 < table.len() {
            let a = s[i];
            let b = table[i - 12];
            assert((a ^ b) ^ b == a) by (bit_vector);
        }
    }
    assert(descrambled(once, table) =~= s);
}

/// Undoes the scrambling of a raw sector.
pub fn descramble_sector(s: &[u8], table: &[u8]) -> (r: Vec<u8>)
    ensures
        r@ == descrambled(s@, table@),
{
    let mut out: Vec<u8> = Vec::new();
    let mut i: usize = 0;
    while i < s.len()
        invariant
            i <= s@.len(),
            out@.len() == i,
            forall|j: int| 0 <= j < i ==> out@[j] == #[trigger] descrambled(s@, table@)[j],
        decreases s@.len() - i,
    {
        let b: u8 = if i < 12 || i - 12 >= table.len() {
            s[i]
        } else {
            s[i] ^ table[i - 12]
        };
        assert(descrambled(s@, table@)[i as int] == b);
        out.push(b);
        i += 1;
    }
    assert(out@ =~= descrambled(s@, table@));
    out
}

// ── Tracks of several files ─────────────────────────────────────────────────

/// How the sectors of one track stand in its file.
#[derive(Clone, Copy)]
pub struct TrackFile {
    pub track_offset: u64,
    pub user_data_offset: u64,
    pub stride: u64,
    pub lba_offset: u64,
    pub start_lba: u64,
    pub sector_count: u64,
    pub descramble: bool,
}

/// The tracks of a disc image, one file each.
pub struct MultiTrackBinReader {
    pub tracks: Vec<TrackFile>,
    pub root_idx: usize,
    pub multi_bin: bool,
}

/// How the sectors of a track stand in a file of its own.
pub open spec fn file_of(t: TrackView) -> TrackFile {
    TrackFile {
        track_offset: t.track_offset,
        user_data_offset: t.user_data_offset,
        stride: t.stride,
        lba_offset: t.lba_offset,
        start_lba: t.lba_offset,
        sector_count: t.sector_count,
        descramble: false,
    }
}

/// Whether a track holds a sector of the disc; one of unknown length holds all
/// behind its start.
pub open spec fn holds(t: TrackFile, lba: int) -> bool {
    lba >= t.start_lba && (t.sector_count == 0 || lba < t.start_lba + t.sector_count)
}

/// The first track from `k` on that holds a sector.
pub open spec fn holder_from(tracks: Seq<TrackFile>, k: int, lba: int) -> Option<int>
    decreases tracks.len() - k,
{
    if k < 0 || k >= tracks.len() {
        None
    } else if holds(tracks[k], lba) {
        Some(k)
    } else {
        holder_from(tracks, k + 1, lba)
    }
}

/// The track that a sector is read from, and its number there. The first sectors
/// of a disc in several files are those of the root track.
pub open spec fn placed(tracks: Seq<TrackFile>, root: int, multi: bool, lba: int) -> (int, int) {
    if !multi {
        (
            root,
            if lba >= tracks[root].lba_offset {
                lba - tracks[root].lba_offset
            } else {
                lba
            },
        )
    } else if lba < 32 {
        (root, lba)
    } else {
        match holder_from(tracks, 0, lba) {
            Some(k) => (k, lba - tracks[k].start_lba),
            None => (root, lba),
        }
    }
}

impl MultiTrackBinReader {
    /// Whether the root track is one of the tracks.
    pub open spec fn wf(&self) -> bool {
        self.root_idx < self.tracks@.len()
    }

    /// The reader of an image with one track.
    pub fn single(
        track_offset: u64,
        user_data_offset: u64,
        stride: u64,
        lba_offset: u64,
        descramble: bool,
    ) -> (r: MultiTrackBinReader)
        ensures
            r.wf(),
            !r.multi_bin,
            r.root_idx == 0,
            r.tracks@ == seq![
                TrackFile {
                    track_offset,
                    user_data_offset,
                    stride,
                    lba_offset,
                    start_lba: lba_offset,
                    sector_count: 0,
                    descramble,
                },
            ],
    {
        let mut tracks: Vec<TrackFile> = Vec::new();
        tracks.push(
            TrackFile {
                track_offset,
                user_data_offset,
                stride,
                lba_offset,
                start_lba: lba_offset,
                sector_count: 0,
                descramble,
            },
        );
        assert(tracks@ =~= seq![tracks@[0]]);
        MultiTrackBinReader { tracks, root_idx: 0, multi_bin: false }
    }

    /// The reader of an image with a file for each track.
    #[verifier::loop_isolation(false)]
    pub fn for_tracks(all: &Vec<DataTrack>) -> (r: MultiTrackBinReader)
        requires
            all@.len() > 0,
        ensures
            r.wf(),
            r.multi_bin,
            r.root_idx == 0,
            r.tracks@ == all@.map_values(|t: DataTrack| file_of(t@)),
    {
        let mut tracks: Vec<TrackFile> = Vec::new();
        while tracks.len() < all.len()
            invariant
                tracks@.len() <= all@.len(),
                forall|j: int| 0 <= j < tracks@.len() ==> tracks@[j] == file_of(all@[j]@),
            decreases all@.len() - tracks@.len(),
        {
            let i: usize = tracks.len();
            let t: &DataTrack = &all[i];
            tracks.push(
                TrackFile {
                    track_offset: t.track_offset,
                    user_data_offset: t.user_data_offset,
                    stride: t.stride,
                    lba_offset: t.lba_offset,
                    start_lba: t.lba_offset,
                    sector_count: t.sector_count,
                    descramble: false,
                },
            );
        }
        assert(tracks@ =~= all@.map_values(|t: DataTrack| file_of(t@)));
        MultiTrackBinReader { tracks, root_idx: 0, multi_bin: true }
    }

    /// The track that a sector is read from, and its number there.
    #[verifier::loop_isolation(false)]
    pub fn locate(&self, lba: u64) -> (r: (usize, u64))
        requires
            self.wf(),
        ensures
            (r.0 as int, r.1 as int) == placed(
                self.tracks@,
                self.root_idx as int,
                self.multi_bin,
                lba as int,
            ),
            r.0 < self.tracks@.len(),
    {
        if !self.multi_bin {
            let t: TrackFile = self.tracks[self.root_idx];
            let n: u64 = if lba >= t.lba_offset {
                lba - t.lba_offset
            } else {
                lba
            };
            return (self.root_idx, n);
        }
        if lba < 32 {
            return (self.root_idx, lba);
        }
        let mut k: usize = 0;
        while k < self.tracks.len()
            invariant
                k <= self.tracks@.len(),
                holder_from(self.tracks@, 0, lba as int) == holder_from(
                    self.tracks@,
                    k as int,
                    lba as int,
                ),
            decreases self.tracks@.len() - k,
        {
            let t: TrackFile = self.tracks[k];
            if lba >= t.start_lba && (t.sector_count == 0 || lba - t.start_lba < t.sector_count) {
                return (k, lba - t.start_lba);
            }
            k += 1;
        }
        (self.root_idx, lba)
    }

    /// Where a sector is read: the track, the position in its file, and whether
    /// a whole raw sector is read there to be descrambled.
    pub fn read_place(&self, lba: u64) -> (r: (usize, u128, bool))
        requires
            self.wf(),
        ensures
            ({
                let (k, n) = placed(
                    self.tracks@,
                    self.root_idx as int,
                    self.multi_bin,
                    lba as int,
                );
                let t = self.tracks@[k];
                let whole = !self.multi_bin && t.descramble;
                &&& r.0 == k
                &&& r.0 < self.tracks@.len()
                &&& r.2 == whole
                &&& r.1 == sector::data_pos(
                    t.track_offset as int,
                    t.stride as int,
                    if whole {
                        0
                    } else {
                        t.user_data_offset as int
                    },
                    n,
                )
            }),
    {
        let (k, n): (usize, u64) = self.locate(lba);
        let t: TrackFile = self.tracks[k];
        let whole: bool = !self.multi_bin && t.descramble;
        let skip: u64 = if whole {
            0
        } else {
            t.user_data_offset
        };
        (k, data_position(t.track_offset, t.stride, skip, n), whole)
    }

    /// Where a whole raw sector is read, and whether it is to be descrambled;
    /// none for a track whose sectors have no subheader.
    pub fn raw_place(&self, lba: u64) -> (r: Option<(usize, u128, bool)>)
        requires
            self.wf(),
        ensures
            ({
                let (k, n) = placed(
                    self.tracks@,
                    self.root_idx as int,
                    self.multi_bin,
                    lba as int,
                );
                let t = self.tracks@[k];
                match r {
                    None => t.stride != RAW_SECTOR_SIZE || t.user_data_offset != 24,
                    Some(p) => t.stride == RAW_SECTOR_SIZE && t.user_data_offset == 24 && p.0 == k
                        && p.0 < self.tracks@.len() && p.1 == sector::data_pos(
                        t.track_offset as int,
                        2352,
                        0,
                        n,
                    ) && p.2 == t.descramble,
                }
            }),
    {
        let (k, n): (usize, u64) = self.locate(lba);
        let t: TrackFile = self.tracks[k];
        if t.stride != RAW_SECTOR_SIZE || t.user_data_offset != 24 {
            return None;
        }
        Some((k, data_position(t.track_offset, 2352, 0, n), t.descramble))
    }
}

/// The user data of a scrambled raw sector: up to `n` bytes of it.
pub open spec fn scrambled_data(s: Seq<u8>, table: Seq<u8>, user_data_offset: int, n: int) -> Seq<u8> {
    let d = descrambled(s, table);
    let room = d.len() - user_data_offset;
    if room <= 0 {
        seq![]
    } else {
        d.subrange(
            user_data_offset,
            user_data_offset + if n < room {
                n
            } else {
                room
            },
        )
    }
}

/// The user data of a scrambled raw sector.
pub fn read_scrambled(s: &[u8], table: &[u8], user_data_offset: u64, n: u64) -> (r: Vec<u8>)
    ensures
        r@ == scrambled_data(s@, table@, user_data_offset as int, n as int),
{
    let d: Vec<u8> = descramble_sector(s, table);
    if user_data_offset >= d.len() as u64 {
        let none: Vec<u8> = Vec::new();
        assert(none@ =~= seq![]);
        return none;
    }
    let from: usize = user_data_offset as usize;
    let room: usize = d.len() - from;
    let m: usize = if n < room as u64 {
        n as usize
    } else {
        room
    };
    cut(d.as_slice(), from, from + m)
}

/// What a raw sector holds behind its header: up to `n` bytes. A sector that was
/// cut off within the header holds nothing.
pub open spec fn payload_of(s: Seq<u8>, descramble: bool, table: Seq<u8>, n: int) -> Seq<u8> {
    let d = if descramble {
        descrambled(s, table)
    } else {
        s
    };
    if d.len() <= 16 {
        seq![]
    } else {
        d.subrange(
            16,
            16 + if n < d.len() - 16 {
                n
            } else {
                d.len() - 16
            },
        )
    }
}

/// What a raw sector holds behind its header.
pub fn raw_payload(s: &[u8], descramble: bool, table: &[u8], n: u64) -> (r: Vec<u8>)
    ensures
        r@ == payload_of(s@, descramble, table@, n as int),
{
    let d: Vec<u8> = if descramble {
        descramble_sector(s, table)
    } else {
        slice_to_vec(s)
    };
    if d.len() <= 16 {
        let none: Vec<u8> = Vec::new();
        assert(none@ =~= seq![]);
        return none;
    }
    let room: usize = d.len() - 16;
    let m: usize = if n < room as u64 {
        n as usize
    } else {
        room
    };
    cut(d.as_slice(), 16, 16 + m)
}

// ── Laws ────────────────────────────────────────────────────────────────────

/// A header that holds the time of a sector in binary-coded decimal, two seconds ahead,
/// names that sector.
pub proof fn a_header_names_its_sector(h: Seq<u8>, lba: int, minute: int, second: int, frame: int)
    requires
        h.len() >= 15,
        h.take(12) == seq![0u8, 255, 255, 255, 255, 255, 255, 255, 255, 255, 255, 0],
        0 <= minute < 100,
        0 <= second < 60,
        0 <= frame < 75,
        lba + 150 == minute * 60 * 75 + second * 75 + frame,
        0 <= lba,
        h[12] == minute / 10 * 16 + minute % 10,
        h[13] == second / 10 * 16 + second % 10,
        h[14] == frame / 10 * 16 + frame % 10,
    ensures
        header_lba(h) == lba,
{
    assert(h.subrange(0, 12) =~= h.take(12));
    assert(bcd(h[12]) == minute);
    assert(bcd(h[13]) == second);
    assert(bcd(h[14]) == frame);
    assert(is_synced(h));
}

/// The user data of a raw sector stand behind its header, and behind the subheader too
/// where the header says so; sectors without a header are plain.
pub proof fn the_format_is_told_by_the_header(image: Seq<u8>, off: int, mode: u8)
    requires
        0 <= off,
        off + 16 <= image.len(),
        image[off + 15] == mode,
    ensures
        image.subrange(off, off + 12) == seq![0u8, 255, 255, 255, 255, 255, 255, 255, 255, 255, 255, 0]
            ==> format_at(source::reads_of(image), off) == (if mode == 2 {
            (2352u64, 24u64)
        } else {
            (2352u64, 16u64)
        }),
        image.subrange(off, off + 12) != seq![0u8, 255, 255, 255, 255, 255, 255, 255, 255, 255, 255, 0]
            ==> format_at(source::reads_of(image), off) == (2048u64, 0u64),
{
    let h = image.subrange(off, off + 16);
    assert(h.subrange(0, 12) =~= image.subrange(off, off + 12));
}

/// A track of raw sectors holds a volume where the user data of its sixteenth sector start
/// with a type and `CD001`.
pub proof fn a_volume_starts_at_the_sixteenth_sector(
    front: Seq<u8>,
    sectors: Seq<Seq<u8>>,
    rest: Seq<u8>,
    user_data_offset: int,
)
    requires
        sectors.len() > 16,
        sectors[16].len() == 2352,
        0 <= user_data_offset <= 2346,
        source::image_of(front, sectors, 2352, rest).len() <= u64::MAX,
    ensures
        has_descriptor(
            source::reads_of(source::image_of(front, sectors, 2352, rest)),
            front.len() as int,
            user_data_offset,
        ) <==> bytes::spells(sectors[16], user_data_offset + 1, "CD001"@),
{
    let image = source::image_of(front, sectors, 2352, rest);
    source::parts_follow_each_other(front, sectors, 2352, rest, 16);
    reveal_strlit("CD001");
    let c = "CD001"@;
    let at: int = front.len() + 16 * 2352int;
    let s = sectors[16];
    assert(image.subrange(at, at + 2352) == s);
    let b = image.subrange(at + user_data_offset, at + user_data_offset + 6);
    if bytes::spells(s, user_data_offset + 1, c) {
        assert forall|i: int| 0 <= i < c.len() implies b[1 + i] as u32 == #[trigger] c[i] as u32 by {
            assert(s[user_data_offset + 1 + i] == image[at + user_data_offset + 1 + i]);
            assert(b[1 + i] == image[at + user_data_offset + 1 + i]);
        }
    }
    if bytes::spells(b, 1, c) {
        assert forall|i: int| 0 <= i < c.len() implies s[user_data_offset + 1 + i] as u32
            == #[trigger] c[i] as u32 by {
            assert(s[user_data_offset + 1 + i] == image[at + user_data_offset + 1 + i]);
            assert(b[1 + i] == image[at + user_data_offset + 1 + i]);
        }
    }
}

/// Where a descriptor is found, its sector holds one and none of those before it does.
pub proof fn the_first_descriptor_is_found(
    reads: Reads,
    base: int,
    stride: int,
    data: int,
    from: int,
    d: int,
)
    requires
        0 <= from,
        descriptor_from(reads, base, stride, data, from) == Some(d),
    ensures
        from <= d < 512,
        forall|j: int|
            from <= j <= d ==> {
                let b = #[trigger] source::reach(reads, base + data + (16 + j) * stride, 8);
                b is Ok && (b->Ok_0.len() >= 7 && b->Ok_0.take(7) == seq![
                    1u8,
                    0x43,
                    0x44,
                    0x30,
                    0x30,
                    0x31,
                    1,
                ] <==> j == d)
            },
    decreases 512 - from,
{
    let mark = seq![1u8, 0x43, 0x44, 0x30, 0x30, 0x31, 1];
    let b0 = source::reach(reads, sector::data_pos(base, stride, data, 16 + from), 8)->Ok_0;
    if b0.len() >= 7 {
        assert(b0.take(7) =~= b0.subrange(0, 7));
    }
    if !bytes::has_at(b0, 0, mark) {
        the_first_descriptor_is_found(reads, base, stride, data, from + 1, d);
    }
    assert forall|j: int| from <= j <= d implies {
        let b = #[trigger] source::reach(reads, base + data + (16 + j) * stride, 8);
        b is Ok && (b->Ok_0.len() >= 7 && b->Ok_0.take(7) == mark <==> j == d)
    } by {
        if j == from {
            assert(base + data + (16 + j) * stride == sector::data_pos(base, stride, data, 16 + from));
        }
    }
}

/// A sector of a disc in several files is read from a track that holds it, at its place in
/// that track, and no track before that one holds it; the first 32 are those of the root
/// track.
pub proof fn a_sector_is_read_from_its_track(tracks: Seq<TrackFile>, root: int, lba: int)
    requires
        0 <= root < tracks.len(),
        0 <= lba,
    ensures
        lba < 32 ==> placed(tracks, root, true, lba) == (root, lba),
        lba >= 32 ==> {
            let (k, n) = placed(tracks, root, true, lba);
            ||| {
                &&& 0 <= k < tracks.len()
                &&& tracks[k].start_lba + n == lba
                &&& 0 <= n
                &&& tracks[k].sector_count > 0 ==> n < tracks[k].sector_count
                &&& forall|j: int|
                    0 <= j < k ==> lba < (#[trigger] tracks[j]).start_lba || (
                    tracks[j].sector_count > 0 && lba - tracks[j].start_lba
                        >= tracks[j].sector_count)
            }
            ||| {
                &&& (k, n) == (root, lba)
                &&& forall|j: int|
                    0 <= j < tracks.len() ==> lba < (#[trigger] tracks[j]).start_lba || (
                    tracks[j].sector_count > 0 && lba - tracks[j].start_lba
                        >= tracks[j].sector_count)
            }
        },
        lba >= tracks[root].lba_offset ==> placed(tracks, root, false, lba).0 == root && placed(
            tracks,
            root,
            false,
            lba,
        ).1 + tracks[root].lba_offset == lba,
{
    lemma_holder(tracks, 0, lba);
    let end = match holder_from(tracks, 0, lba) {
        Some(h) => h,
        None => tracks.len() as int,
    };
    assert forall|j: int| 0 <= j < end implies lba < (#[trigger] tracks[j]).start_lba || (
    tracks[j].sector_count > 0 && lba - tracks[j].start_lba >= tracks[j].sector_count) by {
        assert(!holds(tracks[j], lba));
    }
}

proof fn lemma_holder(tracks: Seq<TrackFile>, k: int, lba: int)
    requires
        0 <= k <= tracks.len(),
    ensures
        match holder_from(tracks, k, lba) {
            Some(h) => k <= h < tracks.len() && holds(tracks[h], lba) && forall|j: int|
                k <= j < h ==> !#[trigger] holds(tracks[j], lba),
            None => forall|j: int| k <= j < tracks.len() ==> !#[trigger] holds(tracks[j], lba),
        },
    decreases tracks.len() - k,
{
    if k < tracks.len() && !holds(tracks[k], lba) {
        lemma_holder(tracks, k + 1, lba);
    }
}

/// The user data of a raw sector that was scrambled behind its pattern are had back.
pub proof fn scrambled_user_data_come_back(
    s: Seq<u8>,
    plain: Seq<u8>,
    table: Seq<u8>,
    from: int,
    n: int,
)
    requires
        s.len() == 2352,
        plain.len() == 2352,
        table.len() == 2340,
        forall|i: int| 0 <= i < 12 ==> s[i] == plain[i],
        forall|i: int| 12 <= i < 2352 ==> #[trigger] s[i] == plain[i] ^ table[i - 12],
        0 <= from,
        0 <= n,
        from + n <= 2352,
    ensures
        descrambled(s, table) == plain,
        scrambled_data(s, table, from, n) == plain.subrange(from, from + n),
        n <= 2336 ==> payload_of(s, true, table, n) == plain.subrange(16, 16 + n),
        n <= 2336 ==> payload_of(plain, false, table, n) == plain.subrange(16, 16 + n),
{
    let d = descrambled(s, table);
    assert forall|i: int| 0 <= i < 2352 implies d[i] == plain[i] by {
        if i >= 12 {
            let a = plain[i];
            let b = table[i - 12];
            assert(s[i] == a ^ b);
            assert((a ^ b) ^ b == a) by (bit_vector);
        }
    }
    assert(d =~= plain);
    if from == 2352 {
        assert(plain.subrange(from, from + n) =~= seq![]);
    }
    if n == 0 {
        assert(plain.subrange(16, 16) =~= d.subrange(16, 16));
    }
}

} // verus!
