//! GDI sheets: a line per track, each track in its own file.
use vstd::prelude::*;
use crate::numbers;
use crate::numbers::{parse_u32, parse_u64};
use crate::source::{ByteSource, Reads};
use crate::text;
use crate::text::{chars_of, lines, string_of, trim, trim_end_of, trim_start_of, words};
use crate::track;
use crate::track::{align_to_pvd, detect_sector_format_at, DataTrack, InfoView, TrackInfo, TrackView};

verus! {

/// A line of a sheet.
pub struct GdiRow {
    pub number: Option<u32>,
    pub start_lba: u64,
    pub track_type: u32,
    pub sector_size: u64,
    pub file: String,
}

/// The contents of a line.
#[verifier::ext_equal]
pub struct RowView {
    pub number: Option<u32>,
    pub start_lba: u64,
    pub track_type: u32,
    pub sector_size: u64,
    pub file: Seq<char>,
}

impl View for GdiRow {
    type V = RowView;

    open spec fn view(&self) -> RowView {
        RowView {
            number: self.number,
            start_lba: self.start_lba,
            track_type: self.track_type,
            sector_size: self.sector_size,
            file: self.file@,
        }
    }
}

/// The contents of lines.
pub open spec fn row_views(v: Seq<GdiRow>) -> Seq<RowView> {
    v.map_values(|r: GdiRow| r@)
}

/// What a line says, if it is of a track.
pub open spec fn row_of(line: Seq<char>) -> Option<RowView> {
    let w = text::words_of(line);
    if w.len() < 5 {
        None
    } else {
        match (
            numbers::parsed_unsigned(w[1], 10, u64::MAX as int),
            numbers::parsed_unsigned(w[2], 10, u32::MAX as int),
            numbers::parsed_unsigned(w[3], 10, u64::MAX as int),
        ) {
            (Some(start_lba), Some(track_type), Some(sector_size)) => Some(
                RowView {
                    number: match numbers::parsed_unsigned(w[0], 10, u32::MAX as int) {
                        Some(n) => Some(n as u32),
                        None => None,
                    },
                    start_lba: start_lba as u64,
                    track_type: track_type as u32,
                    sector_size: sector_size as u64,
                    file: text::strip_back(text::strip_front(w[4], '"'), '"'),
                },
            ),
            _ => None,
        }
    }
}

/// What the first `n` lines say, without blank ones: the count of the tracks,
/// whatever it says, and the lines of tracks behind it.
pub open spec fn rows_upto(all: Seq<Seq<char>>, n: int) -> Option<Seq<RowView>>
    decreases n,
{
    if n <= 0 {
        None
    } else {
        let before = rows_upto(all, n - 1);
        if text::trimmed(all[n - 1]).len() == 0 {
            before
        } else {
            match before {
                None => Some(seq![]),
                Some(rows) => match row_of(all[n - 1]) {
                    Some(r) => Some(rows.push(r)),
                    None => Some(rows),
                },
            }
        }
    }
}

/// The lines of a sheet's tracks.
pub open spec fn rows_of(sheet: Seq<char>) -> Result<Seq<RowView>, Seq<char>> {
    match rows_upto(text::lines_of(sheet), text::lines_of(sheet).len() as int) {
        None => Err("GDI: missing track count"@),
        Some(rows) => Ok(rows),
    }
}

/// Reads what a line says, if it is of a track.
fn read_row(line: &[char]) -> (r: Option<GdiRow>)
    ensures
        match r {
            Some(g) => row_of(line@) == Some(g@),
            None => row_of(line@) is None,
        },
{
    let w: Vec<Vec<char>> = words(line);
    let ghost wv = text::words_of(line@);
    assert(wv == text::texts(w@));
    if w.len() < 5 {
        return None;
    }
    assert(wv[0] == w@[0]@ && wv[1] == w@[1]@ && wv[2] == w@[2]@ && wv[3] == w@[3]@ && wv[4]
        == w@[4]@);
    let start_lba: u64 = match parse_u64(w[1].as_slice()) {
        Some(v) => v,
        None => {
            return None;
        },
    };
    let track_type: u32 = match parse_u32(w[2].as_slice()) {
        Some(v) => v,
        None => {
            return None;
        },
    };
    let sector_size: u64 = match parse_u64(w[3].as_slice()) {
        Some(v) => v,
        None => {
            return None;
        },
    };
    let front: Vec<char> = trim_start_of(w[4].as_slice(), '"');
    let name: Vec<char> = trim_end_of(front.as_slice(), '"');
    Some(
        GdiRow {
            number: parse_u32(w[0].as_slice()),
            start_lba,
            track_type,
            sector_size,
            file: string_of(name.as_slice()),
        },
    )
}

/// Reads the lines of a sheet's tracks.
pub fn read_rows(sheet: &str) -> (r: Result<Vec<GdiRow>, String>)
    ensures
        match r {
            Ok(v) => rows_of(sheet@) == Ok::<Seq<RowView>, Seq<char>>(row_views(v@)),
            Err(e) => rows_of(sheet@) == Err::<Seq<RowView>, Seq<char>>(e@),
        },
{
    let chars: Vec<char> = chars_of(sheet);
    let all: Vec<Vec<char>> = lines(chars.as_slice());
    let ghost av = text::lines_of(sheet@);
    let mut counted: bool = false;
    let mut out: Vec<GdiRow> = Vec::new();
    let mut i: usize = 0;
    assert(row_views(out@) =~= seq![]);
    while i < all.len()
        invariant
            i <= all@.len(),
            av == text::texts(all@),
            !counted ==> row_views(out@) == Seq::<RowView>::empty(),
            rows_upto(av, i as int) == (if counted {
                Some(row_views(out@))
            } else {
                None
            }),
        decreases all@.len() - i,
    {
        assert(av[i as int] == all@[i as int]@);
        let t: Vec<char> = trim(all[i].as_slice());
        if t.len() > 0 {
            if !counted {
                counted = true;
            } else {
                match read_row(all[i].as_slice()) {
                    Some(g) => {
                        let ghost before = row_views(out@);
                        let ghost gv = g@;
                        out.push(g);
                        assert(row_views(out@) =~= before.push(gv));
                    },
                    None => {},
                }
            }
        }
        i += 1;
    }
    if counted {
        Ok(out)
    } else {
        Err("GDI: missing track count".to_owned())
    }
}

// ── The data track ──────────────────────────────────────────────────────────

/// What is found in the file of a track: where the user data of its sectors
/// starts, how many there are, and where its volume makes the track begin.
#[derive(Clone, Copy)]
pub struct GdiProbe {
    pub user_data_offset: u64,
    pub sector_count: u64,
    pub volume_start: Option<u64>,
}

/// Where the user data of a track's sectors starts.
pub open spec fn user_data(reads: Reads, sector_size: u64) -> u64 {
    if sector_size == 2048 {
        0
    } else {
        track::format_at(reads, 0).1
    }
}

/// Looks into the file of a track.
pub fn probe_file<S: ByteSource>(source: &mut S, len: Option<u64>, sector_size: u64) -> (r: GdiProbe)
    requires
        sector_size > 0,
    ensures
        final(source).reads() == old(source).reads(),
        r.user_data_offset == user_data(old(source).reads(), sector_size),
        r.sector_count == (match len {
            Some(n) => n / sector_size,
            None => 0,
        }),
        match r.volume_start {
            Some(p) => track::aligned_start(
                old(source).reads(),
                0,
                sector_size as int,
                r.user_data_offset as int,
            ) == Some(p as int),
            None => track::aligned_start(
                old(source).reads(),
                0,
                sector_size as int,
                r.user_data_offset as int,
            ) is None,
        },
{
    let user_data_offset: u64 = if sector_size == 2048 {
        0
    } else {
        detect_sector_format_at(source, 0).1
    };
    let sector_count: u64 = match len {
        Some(n) => n / sector_size,
        None => 0,
    };
    let volume_start: Option<u64> = align_to_pvd(source, 0, sector_size, user_data_offset);
    GdiProbe { user_data_offset, sector_count, volume_start }
}

/// What was found in the file of a data track, if there is such a file.
pub open spec fn probe_at(rows: Seq<RowView>, probes: Seq<Option<GdiProbe>>, k: int) -> Option<
    GdiProbe,
> {
    if k < probes.len() && rows[k].track_type != 0 {
        probes[k]
    } else {
        None
    }
}

/// Whether the track `k` is a data track that holds a volume, or one that holds
/// none.
pub open spec fn is_candidate(
    rows: Seq<RowView>,
    probes: Seq<Option<GdiProbe>>,
    volume: bool,
    k: int,
) -> bool {
    probe_at(rows, probes, k) matches Some(p) && (p.volume_start is Some) == volume
}

/// Of the first `n` data tracks that hold a volume, or of those that hold none,
/// the one that is farthest out on the disc.
pub open spec fn farthest(
    rows: Seq<RowView>,
    probes: Seq<Option<GdiProbe>>,
    volume: bool,
    n: int,
) -> Option<int>
    decreases n,
{
    if n <= 0 {
        None
    } else {
        let best = farthest(rows, probes, volume, n - 1);
        if is_candidate(rows, probes, volume, n - 1) && (match best {
            Some(b) => rows[n - 1].start_lba > rows[b].start_lba,
            None => true,
        }) {
            Some(n - 1)
        } else {
            best
        }
    }
}

/// The track that is chosen is a candidate, and none is farther out.
pub proof fn the_farthest_track_is_chosen(
    rows: Seq<RowView>,
    probes: Seq<Option<GdiProbe>>,
    volume: bool,
    n: int,
)
    ensures
        match farthest(rows, probes, volume, n) {
            Some(b) => 0 <= b < n && is_candidate(rows, probes, volume, b) && forall|k: int|
                0 <= k < n && #[trigger] is_candidate(rows, probes, volume, k)
                    ==> rows[k].start_lba <= rows[b].start_lba,
            None => forall|k: int|
                0 <= k < n ==> !#[trigger] is_candidate(rows, probes, volume, k),
        },
    decreases n,
{
    if n > 0 {
        the_farthest_track_is_chosen(rows, probes, volume, n - 1);
    }
}

/// A data track of a sheet, with what was found in its file.
pub open spec fn as_track(row: RowView, p: GdiProbe) -> TrackView {
    TrackView {
        bin_path: row.file,
        track_offset: match p.volume_start {
            Some(s) => s,
            None => 0,
        },
        user_data_offset: p.user_data_offset,
        stride: row.sector_size,
        lba_offset: row.start_lba,
        descramble: false,
        sector_count: p.sector_count,
    }
}

/// The data track of a sheet: of those that hold a volume the farthest out, or of
/// the others if none does.
pub open spec fn chosen_track(rows: Seq<RowView>, probes: Seq<Option<GdiProbe>>) -> Result<
    TrackView,
    Seq<char>,
> {
    let n = rows.len() as int;
    match (farthest(rows, probes, true, n), farthest(rows, probes, false, n)) {
        (Some(k), _) => Ok(as_track(rows[k], probes[k]->0)),
        (None, Some(k)) => Ok(as_track(rows[k], probes[k]->0)),
        (None, None) => Err("No data track found in GDI image"@),
    }
}

/// Finds the candidate that is farthest out.
fn find_farthest(rows: &Vec<GdiRow>, probes: &[Option<GdiProbe>], volume: bool) -> (r: Option<usize>)
    ensures
        match r {
            Some(k) => farthest(row_views(rows@), probes@, volume, rows@.len() as int) == Some(
                k as int,
            ) && k < rows@.len() && is_candidate(row_views(rows@), probes@, volume, k as int),
            None => farthest(row_views(rows@), probes@, volume, rows@.len() as int) is None,
        },
{
    let ghost rv = row_views(rows@);
    let mut best: Option<usize> = None;
    let mut i: usize = 0;
    while i < rows.len()
        invariant
            i <= rows@.len(),
            rv == row_views(rows@),
            match best {
                Some(k) => farthest(rv, probes@, volume, i as int) == Some(k as int) && k < i
                    && is_candidate(rv, probes@, volume, k as int),
                None => farthest(rv, probes@, volume, i as int) is None,
            },
        decreases rows@.len() - i,
    {
        assert(rv[i as int] == rows@[i as int]@);
        let fits: bool = if i < probes.len() && rows[i].track_type != 0 {
            match probes[i] {
                Some(p) => p.volume_start.is_some() == volume,
                None => false,
            }
        } else {
            false
        };
        assert(fits == is_candidate(rv, probes@, volume, i as int));
        if fits {
            match best {
                Some(b) => {
                    assert(rv[b as int] == rows@[b as int]@);
                    if rows[i].start_lba > rows[b].start_lba {
                        best = Some(i);
                    }
                },
                None => {
                    best = Some(i);
                },
            }
        }
        i += 1;
    }
    best
}

/// A data track of a sheet, with what was found in its file.
fn make_track(row: &GdiRow, p: GdiProbe) -> (r: DataTrack)
    ensures
        r@ == as_track(row@, p),
{
    DataTrack {
        bin_path: row.file.as_str().to_owned(),
        track_offset: match p.volume_start {
            Some(s) => s,
            None => 0,
        },
        user_data_offset: p.user_data_offset,
        stride: row.sector_size,
        lba_offset: row.start_lba,
        descramble: false,
        sector_count: p.sector_count,
    }
}

/// Chooses the data track of a sheet: `probes` says what was found in the tracks'
/// files, nothing for a file that does not exist.
pub fn parse_gdi_for_data_track(rows: &Vec<GdiRow>, probes: &[Option<GdiProbe>]) -> (r: Result<
    DataTrack,
    String,
>)
    ensures
        track::track_outcome(r) == chosen_track(row_views(rows@), probes@),
{
    let ghost rv = row_views(rows@);
    let chosen: Option<usize> = match find_farthest(rows, probes, true) {
        Some(k) => Some(k),
        None => find_farthest(rows, probes, false),
    };
    match chosen {
        None => Err("No data track found in GDI image".to_owned()),
        Some(k) => {
            assert(rv[k as int] == rows@[k as int]@);
            match probes[k] {
                Some(p) => Ok(make_track(&rows[k], p)),
                None => {
                    assert(false);
                    Err("No data track found in GDI image".to_owned())
                },
            }
        },
    }
}

// ── Track listing ───────────────────────────────────────────────────────────

/// What the file of a track shows for the listing: where the user data of its
/// first sector starts, and its length.
#[derive(Clone, Copy)]
pub struct GdiFile {
    pub user_data_offset: u64,
    pub len: Option<u64>,
}

/// What the file of the track `k` shows.
pub open spec fn file_at(files: Seq<GdiFile>, k: int) -> GdiFile {
    if k < files.len() {
        files[k]
    } else {
        GdiFile { user_data_offset: 0, len: None }
    }
}

/// The name of a track's mode.
pub open spec fn mode_name(row: RowView, f: GdiFile) -> Seq<char> {
    if row.track_type == 0 {
        "AUDIO"@
    } else if row.sector_size == 2048 {
        "MODE1/2048"@
    } else if f.user_data_offset == 24 {
        "MODE2/2352"@
    } else {
        "MODE1/2352"@
    }
}

/// A track as it is listed: one from sector 45000 on is in the high-density area.
pub open spec fn listed(row: RowView, number: u32, f: GdiFile) -> InfoView {
    InfoView {
        number,
        is_data: row.track_type != 0,
        mode: mode_name(row, f),
        start_lba: 0,
        num_sectors: match f.len {
            Some(n) => n / row.sector_size,
            None => 0,
        },
        session: if row.start_lba < 45000 {
            1
        } else {
            2
        },
        bin_path: row.file,
    }
}

/// The first `n` tracks as they are listed; one without a number is left out.
pub open spec fn listed_upto(rows: Seq<RowView>, files: Seq<GdiFile>, n: int) -> Seq<InfoView>
    decreases n,
{
    if n <= 0 {
        seq![]
    } else {
        let before = listed_upto(rows, files, n - 1);
        match rows[n - 1].number {
            None => before,
            Some(number) => before.push(listed(rows[n - 1], number, file_at(files, n - 1))),
        }
    }
}

/// The tracks of a sheet as they are listed.
pub open spec fn track_listing(rows: Seq<RowView>, files: Seq<GdiFile>) -> Result<
    Seq<InfoView>,
    Seq<char>,
> {
    let v = listed_upto(rows, files, rows.len() as int);
    if v.len() == 0 {
        Err("No tracks found in GDI"@)
    } else {
        Ok(v)
    }
}

/// A track as it is listed.
fn list_row(row: &GdiRow, number: u32, f: GdiFile) -> (r: TrackInfo)
    requires
        f.len is Some ==> row.sector_size > 0,
    ensures
        r@ == listed(row@, number, f),
{
    let mode: String = if row.track_type == 0 {
        "AUDIO".to_owned()
    } else if row.sector_size == 2048 {
        "MODE1/2048".to_owned()
    } else if f.user_data_offset == 24 {
        "MODE2/2352".to_owned()
    } else {
        "MODE1/2352".to_owned()
    };
    TrackInfo {
        number,
        is_data: row.track_type != 0,
        mode,
        start_lba: 0,
        num_sectors: match f.len {
            Some(n) => n / row.sector_size,
            None => 0,
        },
        session: if row.start_lba < 45000 {
            1
        } else {
            2
        },
        bin_path: row.file.as_str().to_owned(),
    }
}

/// Lists the tracks of a sheet: `files` says what their files show. A track whose
/// file exists has sectors of some length.
pub fn get_gdi_tracks(rows: &Vec<GdiRow>, files: &[GdiFile]) -> (r: Result<Vec<TrackInfo>, String>)
    requires
        forall|k: int|
            0 <= k < rows@.len() && file_at(files@, k).len is Some ==> (#[trigger] rows@[k]).sector_size
                > 0,
    ensures
        track::listing_outcome(r) == track_listing(row_views(rows@), files@),
{
    let ghost rv = row_views(rows@);
    let mut out: Vec<TrackInfo> = Vec::new();
    assert(track::infos(out@) =~= seq![]);
    let mut i: usize = 0;
    while i < rows.len()
        invariant
            i <= rows@.len(),
            rv == row_views(rows@),
            forall|k: int|
                0 <= k < rows@.len() && file_at(files@, k).len is Some ==> (
                #[trigger] rows@[k]).sector_size > 0,
            track::infos(out@) == listed_upto(rv, files@, i as int),
        decreases rows@.len() - i,
    {
        assert(rv[i as int] == rows@[i as int]@);
        let f: GdiFile = if i < files.len() {
            files[i]
        } else {
            GdiFile { user_data_offset: 0, len: None }
        };
        if let Some(number) = rows[i].number {
            let info: TrackInfo = list_row(&rows[i], number, f);
            let ghost before = track::infos(out@);
            let ghost iv = info@;
            out.push(info);
            assert(track::infos(out@) =~= before.push(iv));
        }
        i += 1;
    }
    assert(track::infos(out@).len() == out@.len());
    if out.len() == 0 {
        return Err("No tracks found in GDI".to_owned());
    }
    Ok(out)
}

/// A line of a sheet tells, in this order, the number of a track, where it starts, its type,
/// the length of its sectors and its file.
pub proof fn a_line_tells_its_track(
    number: u32,
    start_lba: u64,
    track_type: u32,
    sector_size: u64,
    file: Seq<char>,
    rest: Seq<char>,
)
    requires
        file.len() > 0,
        file[0] != '"',
        file.last() != '"',
        forall|i: int| 0 <= i < file.len() ==> !text::is_white(#[trigger] file[i]),
    ensures
        row_of(
            numbers::decimal(number as int) + seq![' '] + (numbers::decimal(start_lba as int)
                + seq![' '] + (numbers::decimal(track_type as int) + seq![' '] + (
            numbers::decimal(sector_size as int) + seq![' '] + (file + seq![' '] + rest)))),
        ) == Some(
            RowView { number: Some(number), start_lba, track_type, sector_size, file },
        ),
{
    let a = numbers::decimal(number as int);
    let b = numbers::decimal(start_lba as int);
    let c = numbers::decimal(track_type as int);
    let d = numbers::decimal(sector_size as int);
    lemma_digits_are_a_word(number as int, u32::MAX as int);
    lemma_digits_are_a_word(start_lba as int, u64::MAX as int);
    lemma_digits_are_a_word(track_type as int, u32::MAX as int);
    lemma_digits_are_a_word(sector_size as int, u64::MAX as int);
    let e4 = file + seq![' '] + rest;
    let e3 = d + seq![' '] + e4;
    let e2 = c + seq![' '] + e3;
    let e1 = b + seq![' '] + e2;
    text::words_stand_between_white_space(' ', file, rest);
    text::words_stand_between_white_space(' ', d, e4);
    text::words_stand_between_white_space(' ', c, e3);
    text::words_stand_between_white_space(' ', b, e2);
    text::words_stand_between_white_space(' ', a, e1);
    let w = text::words_of(a + seq![' '] + e1);
    let tail = text::words_of(rest);
    assert(w =~= seq![a, b, c, d, file] + tail);
    assert(text::strip_front(file, '"') == file);
    assert(text::strip_back(file, '"') == file);
}

/// The digits of a number are a word, which is read back.
proof fn lemma_digits_are_a_word(n: int, max: int)
    requires
        0 <= n <= max,
    ensures
        ({
            let s = numbers::decimal(n);
            &&& s.len() > 0
            &&& forall|i: int| 0 <= i < s.len() ==> !text::is_white(#[trigger] s[i])
            &&& numbers::parsed_unsigned(s, 10, max) == Some(n)
        }),
{
    let s = numbers::decimal(n);
    numbers::written_numbers_are_read_back(n, 10, max);
    numbers::a_numeral_spells_its_number(n, 10);
    assert forall|i: int| 0 <= i < s.len() implies !text::is_white(#[trigger] s[i]) by {
        assert(0 <= numbers::digit_value(s[i]) < 10);
    }
}

/// The marks around the name of a file are taken off.
pub proof fn a_name_is_freed_of_its_marks(name: Seq<char>)
    requires
        name.len() > 0,
        name[0] != '"',
        name.last() != '"',
    ensures
        text::strip_back(text::strip_front(seq!['"'] + name + seq!['"'], '"'), '"') == name,
{
    let s = seq!['"'] + name + seq!['"'];
    let t = name + seq!['"'];
    assert(s.skip(1) =~= t);
    assert(t[0] == name[0]);
    assert(text::strip_front(t, '"') == t);
    assert(t.last() == '"');
    assert(t.drop_last() =~= name);
    assert(text::strip_back(name, '"') == name);
}

/// A track is listed with the whole sectors of its file; one that starts from sector 45000 on
/// is of the second session.
pub proof fn a_track_is_listed_by_its_file(row: RowView, number: u32, f: GdiFile, len: u64)
    requires
        f.len == Some(len),
        row.sector_size > 0,
    ensures
        ({
            let t = listed(row, number, f);
            &&& row.sector_size * t.num_sectors <= len < row.sector_size * t.num_sectors
                + row.sector_size
            &&& t.session == 2 <==> row.start_lba >= 45000
            &&& t.session == 1 <==> row.start_lba < 45000
            &&& t.is_data == (row.track_type != 0)
            &&& t.number == number
            &&& t.bin_path == row.file
        }),
{
    let z = row.sector_size as int;
    let q = len as int / z;
    assert(z * q <= len < z * q + z) by (nonlinear_arith)
        requires
            z > 0,
            q == len as int / z,
    ;
}

} // verus!
