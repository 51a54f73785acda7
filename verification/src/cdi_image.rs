//! DiscJuggler images: the descriptor behind the tracks' data.
use vstd::prelude::*;
use crate::bytes;
use crate::bytes::{read_u16_le, read_u32_le};
use crate::numbers;
use crate::numbers::write_padded;
use crate::source;
use crate::source::{read_wide, ByteSource, Reads};
use crate::text::{join3, string_of};
use crate::track;
use crate::track::{align_to_pvd, detect_sector_format_at, DataTrack, InfoView, TrackInfo, TrackView};

verus! {

/// The first version of the descriptor: its track records are shorter.
pub const VERSION_2: u32 = 0x8000_0004;

/// The version in which the descriptor's place is counted from the end.
pub const VERSION_35: u32 = 0x8000_0006;

/// What a track record of the descriptor says.
pub struct CdiTrack {
    pub pregap: u32,
    pub length: u32,
    pub mode: u32,
    pub start_lba: u32,
    pub total_len: u32,
    pub sector_size: u32,
}

/// A place in the descriptor: the position, the sessions that follow the present
/// one, the tracks of it that follow, and its number.
#[derive(Clone, Copy)]
pub struct CdiPlace {
    pub pos: u128,
    pub sessions: u32,
    pub tracks: u32,
    pub session: u32,
}

/// The bytes of a descriptor's field.
pub open spec fn field(reads: Reads, pos: int, n: int) -> Result<Seq<u8>, Seq<char>> {
    source::labelled(source::reach(reads, pos, n), "CDI read: "@)
}

/// A field of four bytes.
pub open spec fn long_field(reads: Reads, pos: int) -> Result<int, Seq<char>> {
    match field(reads, pos, 4) {
        Err(e) => Err(e),
        Ok(b) => Ok(bytes::le32_at(b, 0)),
    }
}

/// Where the numbers of a track record start, behind its two marks and the name
/// of the file that it was made from.
pub open spec fn numbers_start(reads: Reads, pos: int) -> Result<int, Seq<char>> {
    match long_field(reads, pos) {
        Err(e) => Err(e),
        Ok(marker) => {
            let name = pos + 28 + if marker != 0 {
                8int
            } else {
                0
            };
            match field(reads, name, 1) {
                Err(e) => Err(e),
                Ok(len) => {
                    let second = name + 20 + len[0];
                    match long_field(reads, second) {
                        Err(e) => Err(e),
                        Ok(mark) => Ok(
                            second + 6 + if mark == 0x8000_0000 {
                                8int
                            } else {
                                0
                            },
                        ),
                    }
                },
            }
        },
    }
}

/// Where a track record ends whose numbers start at `at`.
pub open spec fn record_end(reads: Reads, version: u32, at: int) -> Result<int, Seq<char>> {
    if version == VERSION_2 {
        Ok(at + 87)
    } else {
        match long_field(reads, at + 92) {
            Err(e) => Err(e),
            Ok(extra) => Ok(
                at + 96 + if extra == 0xffff_ffff {
                    78int
                } else {
                    0
                },
            ),
        }
    }
}

/// The numbers of a track record.
pub open spec fn record_numbers(reads: Reads, at: int) -> Result<CdiTrack, Seq<char>> {
    match (
        long_field(reads, at),
        long_field(reads, at + 4),
        long_field(reads, at + 14),
        long_field(reads, at + 30),
        long_field(reads, at + 34),
        long_field(reads, at + 54),
    ) {
        (Err(e), _, _, _, _, _) => Err(e),
        (_, Err(e), _, _, _, _) => Err(e),
        (_, _, Err(e), _, _, _) => Err(e),
        (_, _, _, Err(e), _, _) => Err(e),
        (_, _, _, _, Err(e), _) => Err(e),
        (_, _, _, _, _, Err(e)) => Err(e),
        (Ok(pregap), Ok(length), Ok(mode), Ok(start_lba), Ok(total_len), Ok(sector_size)) => Ok(
            CdiTrack {
                pregap: pregap as u32,
                length: length as u32,
                mode: mode as u32,
                start_lba: start_lba as u32,
                total_len: total_len as u32,
                sector_size: sector_size as u32,
            },
        ),
    }
}

/// The track record at `pos`, and where the next one stands.
pub open spec fn record_at(reads: Reads, version: u32, pos: int) -> Result<
    (CdiTrack, int),
    Seq<char>,
> {
    match numbers_start(reads, pos) {
        Err(e) => Err(e),
        Ok(at) => match record_numbers(reads, at) {
            Err(e) => Err(e),
            Ok(t) => match record_end(reads, version, at) {
                Err(e) => Err(e),
                Ok(end) => Ok((t, end)),
            },
        },
    }
}

/// The bytes between two sessions.
pub open spec fn session_gap(version: u32) -> int {
    if version == VERSION_2 {
        12
    } else {
        13
    }
}

/// Where the first track record of the session that follows stands, and the
/// place there.
pub open spec fn next_session(reads: Reads, version: u32, place: CdiPlace) -> Result<
    CdiPlace,
    Seq<char>,
> {
    let at = place.pos + if place.session == 0 {
        0
    } else {
        session_gap(version)
    };
    match field(reads, at, 2) {
        Err(e) => Err(e),
        Ok(b) => Ok(
            CdiPlace {
                pos: (at + 2) as u128,
                sessions: (place.sessions - 1) as u32,
                tracks: bytes::le16_at(b, 0) as u32,
                session: (place.session + 1) as u32,
            },
        ),
    }
}

/// The next track of the descriptor and the place behind it.
pub open spec fn next_track(reads: Reads, version: u32, place: CdiPlace) -> Result<
    Option<(CdiTrack, CdiPlace)>,
    Seq<char>,
>
    decreases place.sessions,
{
    if place.tracks > 0 {
        match record_at(reads, version, place.pos as int) {
            Err(e) => Err(e),
            Ok((t, end)) => Ok(
                Some((t, CdiPlace { pos: end as u128, tracks: (place.tracks - 1) as u32, ..place })),
            ),
        }
    } else if place.sessions == 0 {
        Ok(None)
    } else {
        match next_session(reads, version, place) {
            Err(e) => Err(e),
            Ok(p) => next_track(reads, version, p),
        }
    }
}

/// A bound on the tracks that follow a place: a session has fewer than 65536.
pub open spec fn tracks_ahead(place: CdiPlace) -> int {
    place.sessions * 65536 + place.tracks
}

/// Each track brings the end of the descriptor nearer.
pub proof fn lemma_next_track(reads: Reads, version: u32, place: CdiPlace)
    ensures
        next_track(reads, version, place) matches Ok(Some((t, p))) ==> tracks_ahead(p)
            < tracks_ahead(place),
    decreases place.sessions,
{
    if place.tracks == 0 && place.sessions > 0 {
        if let Ok(p) = next_session(reads, version, place) {
            lemma_next_track(reads, version, p);
        }
    }
}

/// The place before the first session of `n`.
pub open spec fn first_place(pos: int, n: int) -> CdiPlace {
    CdiPlace { pos: (pos + 2) as u128, sessions: n as u32, tracks: 0, session: 0 }
}

/// The version and the header offset in the last eight bytes of an image.
pub open spec fn footer(reads: Reads, len: u64, short: Seq<char>) -> Result<
    (u32, u32),
    Seq<char>,
> {
    if len < 8 {
        Err(short)
    } else {
        match (long_field(reads, len - 8), long_field(reads, len - 4)) {
            (Err(e), _) => Err(e),
            (_, Err(e)) => Err(e),
            (Ok(version), Ok(offset)) => if version < VERSION_2 || version > VERSION_35 {
                Err(
                    "Not a CDI image (version 0x"@ + numbers::zero_padded(
                        numbers::numeral(version, 16),
                        8,
                    ) + ")"@,
                )
            } else {
                Ok((version as u32, offset as u32))
            },
        }
    }
}

/// Where the descriptor starts: counted from the end in the latest version.
pub open spec fn descriptor_start(len: u64, version: u32, offset: u32) -> int {
    if version == VERSION_35 {
        if len < offset {
            0
        } else {
            len - offset
        }
    } else {
        offset as int
    }
}

/// The place before the first session of the descriptor at `pos`.
pub open spec fn opened(reads: Reads, pos: int) -> Result<CdiPlace, Seq<char>> {
    match field(reads, pos, 2) {
        Err(e) => Err(e),
        Ok(b) => Ok(first_place(pos, bytes::le16_at(b, 0))),
    }
}

/// The length of a track's sectors.
pub open spec fn sector_len(t: CdiTrack) -> int {
    if t.sector_size == 0 {
        2048
    } else if t.sector_size == 1 {
        2336
    } else {
        2352
    }
}

/// The name of a track's mode.
pub open spec fn mode_name(t: CdiTrack) -> Seq<char> {
    if t.mode == 0 {
        "AUDIO"@
    } else if sector_len(t) == 2048 {
        "MODE1/2048"@
    } else if sector_len(t) == 2336 {
        "MODE2/2336"@
    } else if t.mode == 1 {
        "MODE1/2352"@
    } else {
        "MODE2/2352"@
    }
}

/// The tracks from a place on, as they are listed, numbered from `number`.
pub open spec fn listed_from(
    reads: Reads,
    version: u32,
    path: Seq<char>,
    place: CdiPlace,
    number: int,
) -> Result<Seq<InfoView>, Seq<char>>
    decreases tracks_ahead(place),
{
    proof {
        lemma_next_track(reads, version, place);
    }
    match next_track(reads, version, place) {
        Err(e) => Err(e),
        Ok(None) => Ok(seq![]),
        Ok(Some((t, p))) => if tracks_ahead(p) < tracks_ahead(place) {
            match listed_from(reads, version, path, p, number + 1) {
                Err(e) => Err(e),
                Ok(rest) => Ok(
                    seq![
                        InfoView {
                            number: number as u32,
                            is_data: t.mode != 0,
                            mode: mode_name(t),
                            start_lba: t.start_lba as u64,
                            num_sectors: t.length as u64,
                            session: p.session,
                            bin_path: path,
                        },
                    ] + rest,
                ),
            }
        } else {
            Ok(seq![])
        },
    }
}

/// All tracks of an image, as they are listed.
pub open spec fn track_listing(reads: Reads, len: u64, path: Seq<char>) -> Result<
    Seq<InfoView>,
    Seq<char>,
> {
    match footer(reads, len, "CDI too short"@) {
        Err(e) => Err(e),
        Ok((version, offset)) => match opened(reads, descriptor_start(len, version, offset)) {
            Err(e) => Err(e),
            Ok(place) => match listed_from(reads, version, path, place, 1) {
                Err(e) => Err(e),
                Ok(v) => if v.len() == 0 {
                    Err("No tracks found in CDI"@)
                } else {
                    Ok(v)
                },
            },
        },
    }
}

/// A 64-bit position, counted around.
pub open spec fn around(n: int) -> u64 {
    (n % 0x1_0000_0000_0000_0000) as u64
}

/// Where a track's data starts, behind its pregap.
pub open spec fn data_start(t: CdiTrack, offset: u64) -> u64 {
    around(offset + t.pregap * sector_len(t))
}

/// Where the user data of a track's sectors starts.
pub open spec fn user_data(reads: Reads, t: CdiTrack, offset: u64) -> u64 {
    if sector_len(t) == 2048 {
        0
    } else if sector_len(t) == 2336 {
        8
    } else {
        track::format_at(reads, data_start(t, offset) as int).1
    }
}

/// A data track that begins at `start`.
pub open spec fn data_track(
    reads: Reads,
    path: Seq<char>,
    t: CdiTrack,
    offset: u64,
    start: int,
) -> TrackView {
    TrackView {
        bin_path: path,
        track_offset: start as u64,
        user_data_offset: user_data(reads, t, offset),
        stride: sector_len(t) as u64,
        lba_offset: t.start_lba as u64,
        descramble: false,
        sector_count: t.length as u64,
    }
}

/// Where the volume of a data track makes it begin, if it has one.
pub open spec fn volume_start(reads: Reads, t: CdiTrack, offset: u64) -> Option<int> {
    track::aligned_start(
        reads,
        data_start(t, offset) as int,
        sector_len(t),
        user_data(reads, t, offset) as int,
    )
}

/// The first data track from a place on that holds a volume; where there is
/// none, the first data track. `offset` is where the data of the next track
/// stands, and `fallback` the first data track before the place.
pub open spec fn data_track_from(
    reads: Reads,
    version: u32,
    path: Seq<char>,
    place: CdiPlace,
    offset: u64,
    fallback: Option<TrackView>,
) -> Result<TrackView, Seq<char>>
    decreases tracks_ahead(place),
{
    proof {
        lemma_next_track(reads, version, place);
    }
    match next_track(reads, version, place) {
        Err(e) => Err(e),
        Ok(Some((t, p))) if tracks_ahead(p) < tracks_ahead(place) => {
            let next = around(offset + sector_len(t) * t.total_len);
            if t.mode == 0 {
                data_track_from(reads, version, path, p, next, fallback)
            } else {
                match volume_start(reads, t, offset) {
                    Some(start) => Ok(data_track(reads, path, t, offset, start)),
                    None => data_track_from(
                        reads,
                        version,
                        path,
                        p,
                        next,
                        match fallback {
                            Some(f) => Some(f),
                            None => Some(
                                data_track(
                                    reads,
                                    path,
                                    t,
                                    offset,
                                    data_start(t, offset) as int,
                                ),
                            ),
                        },
                    ),
                }
            }
        },
        _ => match fallback {
            Some(f) => Ok(f),
            None => Err("No data track found in CDI image"@),
        },
    }
}

/// The data track of an image.
pub open spec fn chosen_track(reads: Reads, len: u64, path: Seq<char>) -> Result<
    TrackView,
    Seq<char>,
> {
    match footer(reads, len, "CDI file too short"@) {
        Err(e) => Err(e),
        Ok((version, offset)) => if offset == 0 {
            Err("Bad CDI: zero header offset"@)
        } else {
            match opened(reads, descriptor_start(len, version, offset)) {
                Err(e) => Err(e),
                Ok(place) => data_track_from(reads, version, path, place, 0, None),
            }
        },
    }
}

// ── Reading ─────────────────────────────────────────────────────────────────

/// Reads a field of four bytes.
fn read_long<S: ByteSource>(source: &mut S, pos: u128) -> (r: Result<u32, String>)
    ensures
        final(source).reads() == old(source).reads(),
        match r {
            Ok(v) => long_field(old(source).reads(), pos as int) == Ok::<int, Seq<char>>(v as int)
                && pos + 4 <= u64::MAX,
            Err(e) => long_field(old(source).reads(), pos as int) == Err::<int, Seq<char>>(e@),
        },
{
    match read_wide(source, pos, 4, "CDI read: ") {
        Err(e) => Err(e),
        Ok(b) => Ok(read_u32_le(b.as_slice(), 0)),
    }
}

/// Reads where the numbers of a track record start.
fn read_numbers_start<S: ByteSource>(source: &mut S, pos: u128) -> (r: Result<u128, String>)
    ensures
        final(source).reads() == old(source).reads(),
        match r {
            Ok(v) => numbers_start(old(source).reads(), pos as int) == Ok::<int, Seq<char>>(
                v as int,
            ) && v <= u64::MAX + 400,
            Err(e) => numbers_start(old(source).reads(), pos as int) == Err::<int, Seq<char>>(e@),
        },
{
    let marker: u32 = match read_long(source, pos) {
        Ok(v) => v,
        Err(e) => {
            return Err(e);
        },
    };
    let name: u128 = pos + 28 + if marker != 0 {
        8
    } else {
        0
    };
    let len: u8 = match read_wide(source, name, 1, "CDI read: ") {
        Ok(b) => b[0],
        Err(e) => {
            return Err(e);
        },
    };
    let second: u128 = name + 20 + len as u128;
    match read_long(source, second) {
        Ok(mark) => Ok(
            second + 6 + if mark == 0x8000_0000 {
                8
            } else {
                0
            },
        ),
        Err(e) => Err(e),
    }
}

/// Reads a track record and where the next one stands.
#[verifier::rlimit(40)]
fn read_record<S: ByteSource>(source: &mut S, version: u32, pos: u128) -> (r: Result<
    (CdiTrack, u128),
    String,
>)
    ensures
        final(source).reads() == old(source).reads(),
        match r {
            Ok((t, end)) => record_at(old(source).reads(), version, pos as int) == Ok::<
                (CdiTrack, int),
                Seq<char>,
            >((t, end as int)) && end <= u64::MAX + 700,
            Err(e) => record_at(old(source).reads(), version, pos as int) == Err::<
                (CdiTrack, int),
                Seq<char>,
            >(e@),
        },
{
    let at: u128 = match read_numbers_start(source, pos) {
        Ok(v) => v,
        Err(e) => {
            return Err(e);
        },
    };
    let pregap: u32 = match read_long(source, at) {
        Ok(v) => v,
        Err(e) => {
            return Err(e);
        },
    };
    let length: u32 = match read_long(source, at + 4) {
        Ok(v) => v,
        Err(e) => {
            return Err(e);
        },
    };
    let mode: u32 = match read_long(source, at + 14) {
        Ok(v) => v,
        Err(e) => {
            return Err(e);
        },
    };
    let start_lba: u32 = match read_long(source, at + 30) {
        Ok(v) => v,
        Err(e) => {
            return Err(e);
        },
    };
    let total_len: u32 = match read_long(source, at + 34) {
        Ok(v) => v,
        Err(e) => {
            return Err(e);
        },
    };
    let sector_size: u32 = match read_long(source, at + 54) {
        Ok(v) => v,
        Err(e) => {
            return Err(e);
        },
    };
    let t: CdiTrack = CdiTrack { pregap, length, mode, start_lba, total_len, sector_size };
    if version == VERSION_2 {
        return Ok((t, at + 87));
    }
    match read_long(source, at + 92) {
        Ok(extra) => Ok(
            (
                t,
                at + 96 + if extra == 0xffff_ffff {
                    78
                } else {
                    0
                },
            ),
        ),
        Err(e) => Err(e),
    }
}

/// A place that the descriptor's reader can be at.
pub open spec fn place_ok(p: CdiPlace) -> bool {
    p.pos <= u64::MAX + 1000 && p.session + p.sessions <= 65535 && p.tracks <= 65535
}

/// Reads the next track of the descriptor and the place behind it.
#[verifier::loop_isolation(false)]
fn read_next<S: ByteSource>(source: &mut S, version: u32, place: CdiPlace) -> (r: Result<
    Option<(CdiTrack, CdiPlace)>,
    String,
>)
    requires
        place_ok(place),
    ensures
        final(source).reads() == old(source).reads(),
        match r {
            Ok(n) => next_track(old(source).reads(), version, place) == Ok::<
                Option<(CdiTrack, CdiPlace)>,
                Seq<char>,
            >(n) && (n matches Some((t, p)) ==> place_ok(p) && tracks_ahead(p) < tracks_ahead(
                place,
            )),
            Err(e) => next_track(old(source).reads(), version, place) == Err::<
                Option<(CdiTrack, CdiPlace)>,
                Seq<char>,
            >(e@),
        },
{
    let ghost reads = source.reads();
    proof {
        lemma_next_track(reads, version, place);
    }
    let mut at: CdiPlace = place;
    while at.tracks == 0
        invariant
            place_ok(at),
            source.reads() == reads,
            next_track(reads, version, at) == next_track(reads, version, place),
        decreases at.sessions,
    {
        if at.sessions == 0 {
            return Ok(None);
        }
        let pos: u128 = if at.session == 0 {
            at.pos
        } else if version == VERSION_2 {
            at.pos + 12
        } else {
            at.pos + 13
        };
        match read_wide(source, pos, 2, "CDI read: ") {
            Err(e) => {
                return Err(e);
            },
            Ok(b) => {
                let n: u16 = read_u16_le(b.as_slice(), 0);
                at =
                CdiPlace {
                    pos: pos + 2,
                    sessions: at.sessions - 1,
                    tracks: n as u32,
                    session: at.session + 1,
                };
            },
        }
    }
    match read_record(source, version, at.pos) {
        Err(e) => Err(e),
        Ok((t, end)) => Ok(
            Some(
                (
                    t,
                    CdiPlace {
                        pos: end,
                        sessions: at.sessions,
                        tracks: at.tracks - 1,
                        session: at.session,
                    },
                ),
            ),
        ),
    }
}

/// Reads the version and the header offset of an image.
fn read_footer<S: ByteSource>(source: &mut S, len: u64, short: &str) -> (r: Result<
    (u32, u32),
    String,
>)
    ensures
        final(source).reads() == old(source).reads(),
        match r {
            Ok(f) => footer(old(source).reads(), len, short@) == Ok::<(u32, u32), Seq<char>>(f),
            Err(e) => footer(old(source).reads(), len, short@) == Err::<(u32, u32), Seq<char>>(e@),
        },
{
    if len < 8 {
        return Err(short.to_owned());
    }
    let version: u32 = match read_long(source, (len - 8) as u128) {
        Ok(v) => v,
        Err(e) => {
            return Err(e);
        },
    };
    let offset: u32 = match read_long(source, (len - 4) as u128) {
        Ok(v) => v,
        Err(e) => {
            return Err(e);
        },
    };
    if version < VERSION_2 || version > VERSION_35 {
        let hex: Vec<char> = write_padded(version as u64, 16, 8);
        let digits: String = string_of(hex.as_slice());
        return Err(join3("Not a CDI image (version 0x", digits.as_str(), ")"));
    }
    Ok((version, offset))
}

/// Reads the place before the first session of the descriptor.
fn open_descriptor<S: ByteSource>(source: &mut S, len: u64, version: u32, offset: u32) -> (r: Result<
    CdiPlace,
    String,
>)
    ensures
        final(source).reads() == old(source).reads(),
        match r {
            Ok(p) => opened(old(source).reads(), descriptor_start(len, version, offset)) == Ok::<
                CdiPlace,
                Seq<char>,
            >(p) && place_ok(p) && p.tracks == 0,
            Err(e) => opened(old(source).reads(), descriptor_start(len, version, offset)) == Err::<
                CdiPlace,
                Seq<char>,
            >(e@),
        },
{
    let pos: u64 = if version == VERSION_35 {
        if len < offset as u64 {
            0
        } else {
            len - offset as u64
        }
    } else {
        offset as u64
    };
    match read_wide(source, pos as u128, 2, "CDI read: ") {
        Err(e) => Err(e),
        Ok(b) => {
            let n: u16 = read_u16_le(b.as_slice(), 0);
            Ok(CdiPlace { pos: pos as u128 + 2, sessions: n as u32, tracks: 0, session: 0 })
        },
    }
}

/// The name of a track's mode.
fn mode_text(t: &CdiTrack) -> (r: String)
    ensures
        r@ == mode_name(*t),
{
    if t.mode == 0 {
        "AUDIO".to_owned()
    } else if t.sector_size == 0 {
        "MODE1/2048".to_owned()
    } else if t.sector_size == 1 {
        "MODE2/2336".to_owned()
    } else if t.mode == 1 {
        "MODE1/2352".to_owned()
    } else {
        "MODE2/2352".to_owned()
    }
}

/// Tracks with others in front.
pub open spec fn prepended(head: Seq<InfoView>, r: Result<Seq<InfoView>, Seq<char>>) -> Result<
    Seq<InfoView>,
    Seq<char>,
> {
    match r {
        Err(e) => Err(e),
        Ok(rest) => Ok(head + rest),
    }
}

/// Lists the tracks of an image.
#[verifier::loop_isolation(false)]
pub fn get_cdi_track_list<S: ByteSource>(source: &mut S, len: u64, path: &str) -> (r: Result<
    Vec<TrackInfo>,
    String,
>)
    ensures
        final(source).reads() == old(source).reads(),
        track::listing_outcome(r) == track_listing(old(source).reads(), len, path@),
{
    let ghost reads = source.reads();
    let (version, offset): (u32, u32) = match read_footer(source, len, "CDI too short") {
        Ok(f) => f,
        Err(e) => {
            return Err(e);
        },
    };
    let mut place: CdiPlace = match open_descriptor(source, len, version, offset) {
        Ok(p) => p,
        Err(e) => {
            return Err(e);
        },
    };
    let ghost goal = listed_from(reads, version, path@, place, 1);
    let mut tracks: Vec<TrackInfo> = Vec::new();
    let mut number: u32 = 0;
    let mut more: bool = true;
    proof {
        assert(track::infos(tracks@) =~= seq![]);
        if let Ok(v) = goal {
            assert(track::infos(tracks@) + v =~= v);
        }
    }
    while more
        invariant
            place_ok(place),
            source.reads() == reads,
            number + tracks_ahead(place) <= 65535 * 65536,
            more ==> prepended(
                track::infos(tracks@),
                listed_from(reads, version, path@, place, number + 1),
            ) == goal,
            !more ==> goal == Ok::<Seq<InfoView>, Seq<char>>(track::infos(tracks@)),
        decreases tracks_ahead(place) + if more {
            1int
        } else {
            0
        },
    {
        match read_next(source, version, place) {
            Err(e) => {
                return Err(e);
            },
            Ok(None) => {
                assert(track::infos(tracks@) + seq![] =~= track::infos(tracks@));
                more = false;
            },
            Ok(Some((t, p))) => {
                number = number + 1;
                let ghost before = track::infos(tracks@);
                let ghost rest = listed_from(reads, version, path@, p, number + 1);
                let info: TrackInfo = TrackInfo {
                    number,
                    is_data: t.mode != 0,
                    mode: mode_text(&t),
                    start_lba: t.start_lba as u64,
                    num_sectors: t.length as u64,
                    session: p.session,
                    bin_path: path.to_owned(),
                };
                let ghost one = info@;
                tracks.push(info);
                proof {
                    assert(track::infos(tracks@) =~= before + seq![one]);
                    if let Ok(v) = rest {
                        assert(before + (seq![one] + v) =~= before + seq![one] + v);
                    }
                }
                place = p;
            },
        }
    }
    if tracks.len() == 0 {
        return Err("No tracks found in CDI".to_owned());
    }
    Ok(tracks)
}

/// Where the data of the track behind this one stands.
fn next_offset(t: &CdiTrack, offset: u64) -> (r: u64)
    ensures
        r == around(offset + sector_len(*t) * t.total_len),
{
    let stride: u64 = match t.sector_size {
        0 => 2048,
        1 => 2336,
        _ => 2352,
    };
    proof {
        let l = stride as int;
        let n = t.total_len as int;
        assert(0 <= l * n <= 2352 * 0xffff_ffff) by (nonlinear_arith)
            requires
                0 <= l <= 2352,
                0 <= n <= 0xffff_ffff,
        ;
    }
    offset.wrapping_add(stride * t.total_len as u64)
}

/// A data track as it is read, and whether it holds a volume.
fn probe_track<S: ByteSource>(source: &mut S, t: &CdiTrack, offset: u64, path: &str) -> (r: (
    DataTrack,
    bool,
))
    ensures
        final(source).reads() == old(source).reads(),
        match volume_start(old(source).reads(), *t, offset) {
            Some(start) => r.1 && r.0@ == data_track(
                old(source).reads(),
                path@,
                *t,
                offset,
                start,
            ),
            None => !r.1 && r.0@ == data_track(
                old(source).reads(),
                path@,
                *t,
                offset,
                data_start(*t, offset) as int,
            ),
        },
{
    let stride: u64 = match t.sector_size {
        0 => 2048,
        1 => 2336,
        _ => 2352,
    };
    assert(t.pregap * sector_len(*t) <= 0xffff_ffff * 2352);
    let base: u64 = offset.wrapping_add(t.pregap as u64 * stride);
    let udo: u64 = if stride == 2048 {
        0
    } else if stride == 2336 {
        8
    } else {
        detect_sector_format_at(source, base).1
    };
    let (start, holds_volume): (u64, bool) = match align_to_pvd(source, base, stride, udo) {
        Some(start) => (start, true),
        None => (base, false),
    };
    (
        DataTrack {
            bin_path: path.to_owned(),
            track_offset: start,
            user_data_offset: udo,
            stride,
            lba_offset: t.start_lba as u64,
            descramble: false,
            sector_count: t.length as u64,
        },
        holds_volume,
    )
}

/// Finds the data track of an image.
#[verifier::loop_isolation(false)]
#[verifier::rlimit(40)]
pub fn parse_cdi_for_data_track<S: ByteSource>(source: &mut S, len: u64, path: &str) -> (r: Result<
    DataTrack,
    String,
>)
    ensures
        final(source).reads() == old(source).reads(),
        track::track_outcome(r) == chosen_track(old(source).reads(), len, path@),
{
    let ghost reads = source.reads();
    let (version, offset): (u32, u32) = match read_footer(source, len, "CDI file too short") {
        Ok(f) => f,
        Err(e) => {
            return Err(e);
        },
    };
    if offset == 0 {
        return Err("Bad CDI: zero header offset".to_owned());
    }
    let mut place: CdiPlace = match open_descriptor(source, len, version, offset) {
        Ok(p) => p,
        Err(e) => {
            return Err(e);
        },
    };
    let ghost goal = data_track_from(reads, version, path@, place, 0, None);
    let mut cur: u64 = 0;
    let mut fallback: Option<DataTrack> = None;
    loop
        invariant
            place_ok(place),
            source.reads() == reads,
            data_track_from(
                reads,
                version,
                path@,
                place,
                cur,
                match fallback {
                    Some(f) => Some(f@),
                    None => None,
                },
            ) == goal,
        decreases tracks_ahead(place),
    {
        let (t, p): (CdiTrack, CdiPlace) = match read_next(source, version, place) {
            Err(e) => {
                return Err(e);
            },
            Ok(None) => {
                return match fallback {
                    Some(f) => Ok(f),
                    None => Err("No data track found in CDI image".to_owned()),
                };
            },
            Ok(Some(n)) => n,
        };
        if t.mode != 0 {
            let (found, holds_volume): (DataTrack, bool) = probe_track(source, &t, cur, path);
            if holds_volume {
                return Ok(found);
            }
            if fallback.is_none() {
                fallback = Some(found);
            }
        }
        cur = next_offset(&t, cur);
        place = p;
    }
}

/// A field of four bytes holds what was written.
proof fn lemma_long(image: Seq<u8>, pos: int, v: int)
    requires
        image.len() <= u64::MAX,
        0 <= v <= 0xFFFF_FFFF,
        bytes::has_at(image, pos, bytes::le_bytes(v, 4)),
    ensures
        long_field(source::reads_of(image), pos) == Ok::<int, Seq<char>>(v),
        0 <= pos,
        pos + 4 <= image.len(),
{
    bytes::lemma_notation_len(v, 4);
    bytes::fields_hold_what_was_written(image, pos, v);
    let b = image.subrange(pos, pos + 4);
    assert(bytes::le32_at(b, 0) == bytes::le32_at(image, pos));
}

/// A track record holds what was written: behind a mark of four bytes, or of twelve, and 24
/// more stand the length of a name, nineteen bytes and the name, a second mark of six bytes,
/// or of fourteen, and then its numbers.
pub proof fn a_record_holds_what_was_written(
    image: Seq<u8>,
    pos: int,
    marker: int,
    lead: int,
    name_len: int,
    second: int,
    gap: int,
    version: u32,
    tail: int,
    t: CdiTrack,
)
    requires
        image.len() <= u64::MAX,
        0 <= pos,
        0 <= marker <= 0xFFFF_FFFF,
        marker == 0 ==> lead == 28,
        marker != 0 ==> lead == 36,
        0 <= name_len <= 255,
        0 <= second <= 0xFFFF_FFFF,
        second == 0x8000_0000 ==> gap == 14,
        second != 0x8000_0000 ==> gap == 6,
        pos + lead < image.len(),
        bytes::has_at(image, pos, bytes::le_bytes(marker, 4)),
        image[pos + lead] == name_len,
        bytes::has_at(image, pos + lead + 20 + name_len, bytes::le_bytes(second, 4)),
        ({
            let at = pos + lead + 20 + name_len + gap;
            &&& bytes::has_at(image, at, bytes::le_bytes(t.pregap as int, 4))
            &&& bytes::has_at(image, at + 4, bytes::le_bytes(t.length as int, 4))
            &&& bytes::has_at(image, at + 14, bytes::le_bytes(t.mode as int, 4))
            &&& bytes::has_at(image, at + 30, bytes::le_bytes(t.start_lba as int, 4))
            &&& bytes::has_at(image, at + 34, bytes::le_bytes(t.total_len as int, 4))
            &&& bytes::has_at(image, at + 54, bytes::le_bytes(t.sector_size as int, 4))
            &&& version != 0x8000_0004 ==> 0 <= tail <= 0xFFFF_FFFF && bytes::has_at(
                image,
                at + 92,
                bytes::le_bytes(tail, 4),
            )
        }),
    ensures
        ({
            let at = pos + lead + 20 + name_len + gap;
            record_at(source::reads_of(image), version, pos) matches Ok((r, end)) && r == t
                && (version == 0x8000_0004 ==> end == at + 87) && (version != 0x8000_0004 && tail
                == 0xFFFF_FFFF ==> end == at + 174) && (version != 0x8000_0004 && tail
                != 0xFFFF_FFFF ==> end == at + 96)
        }),
{
    let reads = source::reads_of(image);
    lemma_long(image, pos, marker);
    let name = pos + lead;
    assert(field(reads, name, 1) == Ok::<Seq<u8>, Seq<char>>(image.subrange(name, name + 1)));
    lemma_long(image, name + 20 + name_len, second);
    let at = name + 20 + name_len + gap;
    assert(numbers_start(reads, pos) == Ok::<int, Seq<char>>(at));
    lemma_long(image, at, t.pregap as int);
    lemma_long(image, at + 4, t.length as int);
    lemma_long(image, at + 14, t.mode as int);
    lemma_long(image, at + 30, t.start_lba as int);
    lemma_long(image, at + 34, t.total_len as int);
    lemma_long(image, at + 54, t.sector_size as int);
    if version != 0x8000_0004 {
        lemma_long(image, at + 92, tail);
    }
}

/// Between two sessions stand twelve bytes in the first version of the descriptor and thirteen
/// later, and a session begins with the number of its tracks.
pub proof fn sessions_follow_each_other(image: Seq<u8>, version: u32, place: CdiPlace, gap: int, n: int)
    requires
        image.len() <= u64::MAX,
        0 < place.sessions,
        place.session < 0xFFFF,
        0 <= n <= 0xFFFF,
        place.session == 0 ==> gap == 0,
        place.session > 0 && version == 0x8000_0004 ==> gap == 12,
        place.session > 0 && version != 0x8000_0004 ==> gap == 13,
        bytes::has_at(image, place.pos + gap, bytes::le_bytes(n, 2)),
    ensures
        next_session(source::reads_of(image), version, place) == Ok::<CdiPlace, Seq<char>>(
            CdiPlace {
                pos: (place.pos + gap + 2) as u128,
                sessions: (place.sessions - 1) as u32,
                tracks: n as u32,
                session: (place.session + 1) as u32,
            },
        ),
{
    bytes::lemma_notation_len(n, 2);
    let at = place.pos + gap;
    bytes::fields_hold_what_was_written(image, at, n);
    let b = image.subrange(at, at + 2);
    assert(bytes::le16_at(b, 0) == bytes::le16_at(image, at));
}

/// The last eight bytes of an image tell its version and where its descriptor starts: from
/// the front, or from the end in the latest version.
pub proof fn the_footer_names_the_descriptor(image: Seq<u8>, version: u32, offset: u32, short: Seq<char>)
    requires
        8 <= image.len() <= u64::MAX,
        0x8000_0004 <= version <= 0x8000_0006,
        bytes::has_at(image, image.len() - 8, bytes::le_bytes(version as int, 4)),
        bytes::has_at(image, image.len() - 4, bytes::le_bytes(offset as int, 4)),
        offset <= image.len(),
    ensures
        footer(source::reads_of(image), image.len() as u64, short) == Ok::<(u32, u32), Seq<char>>(
            (version, offset),
        ),
        version < 0x8000_0006 ==> descriptor_start(image.len() as u64, version, offset) == offset,
        version == 0x8000_0006 ==> descriptor_start(image.len() as u64, version, offset) + offset
            == image.len(),
{
    lemma_long(image, image.len() - 8, version as int);
    lemma_long(image, image.len() - 4, offset as int);
}

/// The tracks of an image stand one after the other: behind an audio track the data of the
/// next one start after as many sectors as the audio track has in all. A data track with a
/// volume begins there, behind its pregap.
pub proof fn tracks_stand_one_after_the_other(
    reads: Reads,
    version: u32,
    path: Seq<char>,
    place: CdiPlace,
    offset: u64,
    fallback: Option<TrackView>,
    t: CdiTrack,
    p: CdiPlace,
    size: int,
)
    requires
        next_track(reads, version, place) == Ok::<Option<(CdiTrack, CdiPlace)>, Seq<char>>(
            Some((t, p)),
        ),
        t.sector_size == 0 ==> size == 2048,
        t.sector_size == 1 ==> size == 2336,
        t.sector_size == 2 ==> size == 2352,
        t.sector_size <= 2,
        offset + size * t.total_len <= u64::MAX,
        offset + size * t.pregap <= u64::MAX,
    ensures
        t.mode == 0 ==> data_track_from(reads, version, path, place, offset, fallback)
            == data_track_from(
            reads,
            version,
            path,
            p,
            (offset + size * t.total_len) as u64,
            fallback,
        ),
        data_start(t, offset) == offset + size * t.pregap,
        t.mode != 0 ==> (track::aligned_start(
            reads,
            offset + size * t.pregap,
            size,
            user_data(reads, t, offset) as int,
        ) matches Some(start) ==> data_track_from(reads, version, path, place, offset, fallback)
            matches Ok(d) && d.track_offset == start as u64 && d.stride == size && d.lba_offset
            == t.start_lba && d.sector_count == t.length && d.bin_path == path),
        size == 2048 ==> user_data(reads, t, offset) == 0,
        size == 2336 ==> user_data(reads, t, offset) == 8,
{
    lemma_next_track(reads, version, place);
    assert(t.pregap * size == size * t.pregap) by (nonlinear_arith);
    assert(0 <= size * t.pregap && 0 <= size * t.total_len) by (nonlinear_arith)
        requires
            0 <= size,
            0 <= t.pregap,
            0 <= t.total_len,
    ;
}

} // verus!
