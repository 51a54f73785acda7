//! CUE sheets: what their lines say, and the tracks that they describe.
use vstd::prelude::*;
use crate::numbers;
use crate::numbers::{parse_u32, parse_u64};
use crate::path;
use crate::path::{equal_files, HostDir, HostDirView};
use crate::sector::RAW_SECTOR_SIZE;
use crate::text;
use crate::text::{
    chars_of, cut_chars, find_char_from, is_text, lines, same_text, split, starts_with, string_of,
    to_uppercase, trim, words,
};
use crate::track;
use crate::track::{DataTrack, InfoView, TrackInfo, TrackView};

verus! {

// ── Lines ───────────────────────────────────────────────────────────────────

/// The sector that a time in minutes, seconds and frames stands for, if it fits 64
/// bits.
pub open spec fn msf_sectors(s: Seq<char>) -> Option<u64> {
    let parts = text::split_on(s, ':');
    if parts.len() != 3 {
        None
    } else {
        match (
            numbers::parsed_unsigned(parts[0], 10, u64::MAX as int),
            numbers::parsed_unsigned(parts[1], 10, u64::MAX as int),
            numbers::parsed_unsigned(parts[2], 10, u64::MAX as int),
        ) {
            (Some(m), Some(s2), Some(f)) => if 0 <= (m * 60 + s2) * 75 + f <= u64::MAX {
                Some(((m * 60 + s2) * 75 + f) as u64)
            } else {
                None
            },
            _ => None,
        }
    }
}

/// The sector that a time in minutes, seconds and frames stands for.
pub fn msf_to_sectors(s: &[char]) -> (r: Option<u64>)
    ensures
        r == msf_sectors(s@),
{
    let parts: Vec<Vec<char>> = split(s, ':');
    assert(text::texts(parts@).len() == parts@.len());
    if parts.len() != 3 {
        return None;
    }
    assert(text::texts(parts@)[0] == parts@[0]@);
    assert(text::texts(parts@)[1] == parts@[1]@);
    assert(text::texts(parts@)[2] == parts@[2]@);
    let m: u64 = match parse_u64(parts[0].as_slice()) {
        Some(v) => v,
        None => {
            return None;
        },
    };
    let s2: u64 = match parse_u64(parts[1].as_slice()) {
        Some(v) => v,
        None => {
            return None;
        },
    };
    let f: u64 = match parse_u64(parts[2].as_slice()) {
        Some(v) => v,
        None => {
            return None;
        },
    };
    let n: u128 = (m as u128 * 60 + s2 as u128) * 75 + f as u128;
    if n <= u64::MAX as u128 {
        Some(n as u64)
    } else {
        None
    }
}

/// What stands between the first two quotation marks of a line.
pub open spec fn quoted(s: Seq<char>) -> Option<Seq<char>> {
    let a = text::find_char(s, 0, '"');
    let b = text::find_char(s, a + 1, '"');
    if a >= s.len() || b >= s.len() {
        None
    } else {
        Some(s.subrange(a + 1, b))
    }
}

/// What stands between the first two quotation marks of a line.
pub fn extract_quoted(s: &[char]) -> (r: Option<Vec<char>>)
    ensures
        match r {
            Some(v) => quoted(s@) == Some(v@),
            None => quoted(s@) is None,
        },
{
    let n: usize = s.len();
    proof {
        text::lemma_find_char(s@, 0, '"');
    }
    let a: usize = find_char_from(s, 0, '"');
    if a >= n {
        return None;
    }
    proof {
        text::lemma_find_char(s@, a + 1, '"');
    }
    let b: usize = find_char_from(s, a + 1, '"');
    if b >= n {
        return None;
    }
    Some(cut_chars(s, a + 1, b))
}

/// What an INDEX line says: whether it is index 00 or 01, the time, and the
/// rest of a line that begins with exactly `INDEX 01 `, as a time.
#[derive(Clone, Copy)]
pub struct CueIndex {
    pub zero: bool,
    pub one: bool,
    pub time: Option<u64>,
    pub strict: Option<Option<u64>>,
}

/// What a line of a sheet says.
pub enum CueLine {
    Session(Option<u32>),
    File(Option<String>),
    Track(Option<u32>, Option<String>),
    Index(CueIndex),
    Other,
}

/// The contents of a line.
pub enum LineView {
    Session(Option<u32>),
    File(Option<Seq<char>>),
    Track(Option<u32>, Option<Seq<char>>),
    Index(CueIndex),
    Other,
}

/// The text of an optional string.
pub open spec fn opt_text(s: Option<String>) -> Option<Seq<char>> {
    match s {
        Some(t) => Some(t@),
        None => None,
    }
}

/// A copy of an optional string.
pub fn copy_opt(s: &Option<String>) -> (r: Option<String>)
    ensures
        opt_text(r) == opt_text(*s),
{
    match s {
        Some(t) => Some(t.as_str().to_owned()),
        None => None,
    }
}

impl View for CueLine {
    type V = LineView;

    open spec fn view(&self) -> LineView {
        match self {
            CueLine::Session(n) => LineView::Session(*n),
            CueLine::File(f) => LineView::File(opt_text(*f)),
            CueLine::Track(n, m) => LineView::Track(*n, opt_text(*m)),
            CueLine::Index(i) => LineView::Index(*i),
            CueLine::Other => LineView::Other,
        }
    }
}

/// What lines say.
pub open spec fn line_views(v: Seq<CueLine>) -> Seq<LineView> {
    v.map_values(|l: CueLine| l@)
}

/// The word at an index, if there are so many.
pub open spec fn word_at(s: Seq<char>, i: int) -> Option<Seq<char>> {
    let w = text::words_of(s);
    if i < w.len() {
        Some(w[i])
    } else {
        None
    }
}

/// The word at an index.
fn nth_word(w: &Vec<Vec<char>>, i: usize) -> (r: Option<Vec<char>>)
    ensures
        match r {
            Some(v) => i < w@.len() && v@ == w@[i as int]@,
            None => i >= w@.len(),
        },
{
    if i < w.len() {
        let s: &[char] = w[i].as_slice();
        assert(s@.subrange(0, s@.len() as int) =~= s@);
        Some(cut_chars(s, 0, s.len()))
    } else {
        None
    }
}

/// The number that an optional word spells.
pub open spec fn opt_number(w: Option<Seq<char>>) -> Option<u32> {
    match w {
        None => None,
        Some(t) => match numbers::parsed_unsigned(t, 10, u32::MAX as int) {
            None => None,
            Some(n) => Some(n as u32),
        },
    }
}

/// The sector that an optional word spells.
pub open spec fn opt_time(w: Option<Seq<char>>) -> Option<u64> {
    match w {
        None => None,
        Some(t) => msf_sectors(t),
    }
}

/// What an INDEX line says behind its first word; `upper` is the whole line.
pub open spec fn index_said(upper: Seq<char>) -> CueIndex {
    let rest = upper.skip("INDEX "@.len() as int);
    CueIndex {
        zero: word_at(rest, 0) == Some("00"@),
        one: word_at(rest, 0) == Some("01"@),
        time: opt_time(word_at(rest, 1)),
        strict: if text::begins(upper, "INDEX 01 "@) {
            Some(msf_sectors(text::trimmed(upper.skip("INDEX 01 "@.len() as int))))
        } else {
            None
        },
    }
}

/// What a line says: `upper` is the line in upper case. The mode of a track is
/// as it is written.
pub open spec fn said(line: Seq<char>, upper: Seq<char>) -> LineView {
    if text::begins(upper, "REM SESSION "@) {
        LineView::Session(opt_number(word_at(line, 2)))
    } else if text::begins(upper, "FILE "@) {
        LineView::File(quoted(line))
    } else if text::begins(upper, "TRACK "@) {
        LineView::Track(opt_number(word_at(line, 1)), word_at(line, 2))
    } else if text::begins(upper, "INDEX "@) {
        LineView::Index(index_said(upper))
    } else {
        LineView::Other
    }
}

/// What a line says, with the mode of a track in upper case.
pub open spec fn line_said(line: Seq<char>) -> LineView {
    let t = text::trimmed(line);
    match said(t, text::uppercase(t)) {
        LineView::Track(n, Some(mode)) => LineView::Track(n, Some(text::uppercase(mode))),
        l => l,
    }
}

/// What the lines of a sheet say.
pub open spec fn sheet_said(sheet: Seq<char>) -> Seq<LineView> {
    text::lines_of(sheet).map_values(|l: Seq<char>| line_said(l))
}

/// What an INDEX line says.
fn read_index(upper: &[char]) -> (r: CueIndex)
    requires
        text::begins(upper@, "INDEX "@),
    ensures
        r == index_said(upper@),
{
    proof {
        reveal_strlit("INDEX ");
        reveal_strlit("INDEX 01 ");
    }
    let len: usize = upper.len();
    assert(upper@.subrange(6, len as int) =~= upper@.skip(6));
    let rest: Vec<char> = cut_chars(upper, 6, len);
    let parts: Vec<Vec<char>> = words(rest.as_slice());
    let ghost w = text::words_of(rest@);
    assert(w == text::texts(parts@));
    let first: Option<Vec<char>> = nth_word(&parts, 0);
    let (zero, one): (bool, bool) = match &first {
        Some(v) => (is_text(v.as_slice(), "00"), is_text(v.as_slice(), "01")),
        None => (false, false),
    };
    let time: Option<u64> = match nth_word(&parts, 1) {
        Some(v) => msf_to_sectors(v.as_slice()),
        None => None,
    };
    let strict: Option<Option<u64>> = if starts_with(upper, "INDEX 01 ") {
        assert(upper@.subrange(9, len as int) =~= upper@.skip(9));
        let tail: Vec<char> = cut_chars(upper, 9, len);
        let t: Vec<char> = trim(tail.as_slice());
        Some(msf_to_sectors(t.as_slice()))
    } else {
        None
    };
    CueIndex { zero, one, time, strict }
}

/// Reads the number that an optional word spells.
fn read_opt_number(w: Option<Vec<char>>) -> (r: Option<u32>)
    ensures
        r == opt_number(
            match w {
                Some(v) => Some(v@),
                None => None,
            },
        ),
{
    match w {
        Some(v) => parse_u32(v.as_slice()),
        None => None,
    }
}

/// What a line says: `upper` is the line in upper case.
pub fn read_said(line: &[char], upper: &[char]) -> (r: CueLine)
    ensures
        r@ == said(line@, upper@),
{
    if starts_with(upper, "REM SESSION ") {
        let parts: Vec<Vec<char>> = words(line);
        let ghost w = text::words_of(line@);
        assert(w == text::texts(parts@));
        CueLine::Session(read_opt_number(nth_word(&parts, 2)))
    } else if starts_with(upper, "FILE ") {
        match extract_quoted(line) {
            Some(v) => CueLine::File(Some(string_of(v.as_slice()))),
            None => CueLine::File(None),
        }
    } else if starts_with(upper, "TRACK ") {
        let parts: Vec<Vec<char>> = words(line);
        let ghost w = text::words_of(line@);
        assert(w == text::texts(parts@));
        let number: Option<u32> = read_opt_number(nth_word(&parts, 1));
        let mode: Option<String> = match nth_word(&parts, 2) {
            Some(v) => Some(string_of(v.as_slice())),
            None => None,
        };
        CueLine::Track(number, mode)
    } else if starts_with(upper, "INDEX ") {
        CueLine::Index(read_index(upper))
    } else {
        CueLine::Other
    }
}

/// What a line says, with the mode of a track in upper case.
pub fn read_line(line: &[char]) -> (r: CueLine)
    ensures
        r@ == line_said(line@),
{
    let t: Vec<char> = trim(line);
    let plain: String = string_of(t.as_slice());
    let upper: String = to_uppercase(plain.as_str());
    let u: Vec<char> = chars_of(upper.as_str());
    match read_said(t.as_slice(), u.as_slice()) {
        CueLine::Track(n, Some(mode)) => CueLine::Track(n, Some(to_uppercase(mode.as_str()))),
        l => l,
    }
}

/// What the lines of a sheet say.
pub fn read_sheet(sheet: &str) -> (r: Vec<CueLine>)
    ensures
        line_views(r@) == sheet_said(sheet@),
{
    let chars: Vec<char> = chars_of(sheet);
    let rows: Vec<Vec<char>> = lines(chars.as_slice());
    let ghost all = text::lines_of(sheet@);
    assert(all == text::texts(rows@));
    let mut out: Vec<CueLine> = Vec::new();
    let mut i: usize = 0;
    while i < rows.len()
        invariant
            i <= rows@.len(),
            all == text::texts(rows@),
            out@.len() == i,
            forall|j: int| 0 <= j < i ==> (#[trigger] out@[j])@ == line_said(all[j]),
        decreases rows@.len() - i,
    {
        let l: CueLine = read_line(rows[i].as_slice());
        out.push(l);
        i += 1;
    }
    assert(line_views(out@) =~= sheet_said(sheet@));
    out
}

// ── The data track ──────────────────────────────────────────────────────────

/// A data track of a sheet: the file, the sector it begins at, and where the
/// user data of its sectors starts.
pub struct CueTrack {
    pub bin: String,
    pub index: u64,
    pub user_data_offset: u64,
}

/// The contents of a sheet's data track.
#[verifier::ext_equal]
pub struct CueTrackView {
    pub bin: Seq<char>,
    pub index: u64,
    pub user_data_offset: u64,
}

impl View for CueTrack {
    type V = CueTrackView;

    open spec fn view(&self) -> CueTrackView {
        CueTrackView {
            bin: self.bin@,
            index: self.index,
            user_data_offset: self.user_data_offset,
        }
    }
}

/// The contents of an optional data track.
pub open spec fn opt_track(t: Option<CueTrack>) -> Option<CueTrackView> {
    match t {
        Some(c) => Some(c@),
        None => None,
    }
}

/// The pregap of an audio track: the file, and the sectors between which it lies.
pub struct Pregap {
    pub bin: String,
    pub from: u64,
    pub to: u64,
}

/// The contents of a pregap.
#[verifier::ext_equal]
pub struct PregapView {
    pub bin: Seq<char>,
    pub from: u64,
    pub to: u64,
}

impl View for Pregap {
    type V = PregapView;

    open spec fn view(&self) -> PregapView {
        PregapView { bin: self.bin@, from: self.from, to: self.to }
    }
}

/// The contents of pregaps.
pub open spec fn pregap_views(v: Seq<Pregap>) -> Seq<PregapView> {
    v.map_values(|p: Pregap| p@)
}

/// What the lines of a sheet up to some line amount to: the present file, mode
/// and indices, the first and the last data track, and the pregaps.
pub struct CueScan {
    pub bin: Option<String>,
    pub mode: Option<String>,
    pub index00: u64,
    pub index01: Option<u64>,
    pub first: Option<CueTrack>,
    pub last: Option<CueTrack>,
    pub pregaps: Vec<Pregap>,
}

/// The contents of a scan.
#[verifier::ext_equal]
pub struct ScanView {
    pub bin: Option<Seq<char>>,
    pub mode: Option<Seq<char>>,
    pub index00: u64,
    pub index01: Option<u64>,
    pub first: Option<CueTrackView>,
    pub last: Option<CueTrackView>,
    pub pregaps: Seq<PregapView>,
}

impl View for CueScan {
    type V = ScanView;

    open spec fn view(&self) -> ScanView {
        ScanView {
            bin: opt_text(self.bin),
            mode: opt_text(self.mode),
            index00: self.index00,
            index01: self.index01,
            first: opt_track(self.first),
            last: opt_track(self.last),
            pregaps: pregap_views(self.pregaps@),
        }
    }
}

/// Before the first line.
pub open spec fn fresh_scan() -> ScanView {
    ScanView {
        bin: None,
        mode: None,
        index00: 0,
        index01: None,
        first: None,
        last: None,
        pregaps: seq![],
    }
}

/// The last sector at which a data track or a pregap is looked for: its byte position in a file
/// of raw sectors fits 64 bits.
pub const LAST_SECTOR: u64 = 7843003093840795;

/// Where the user data of a track's sectors starts, by its mode; none for a track
/// that holds no data.
pub open spec fn mode_offset(mode: Seq<char>) -> Option<u64> {
    if text::begins(mode, "MODE1"@) {
        Some(16)
    } else if text::begins(mode, "MODE2"@) || text::begins(mode, "CDI"@) {
        Some(24)
    } else {
        None
    }
}

/// The pregap of the present track, if it is an audio track with one that starts at a
/// position that a file can reach.
pub open spec fn pending_pregap(s: ScanView) -> Seq<PregapView> {
    match (s.bin, s.mode, s.index01) {
        (Some(bin), Some(mode), Some(to)) => if mode == "AUDIO"@ && s.index00 < to
            && s.index00 <= LAST_SECTOR {
            seq![PregapView { bin, from: s.index00, to }]
        } else {
            seq![]
        },
        _ => seq![],
    }
}

/// The present track, if it is a data track that starts at a position that a file can
/// reach.
pub open spec fn present_track(s: ScanView) -> Option<CueTrackView> {
    match (s.bin, s.mode, s.index01) {
        (Some(bin), Some(mode), Some(index)) => match mode_offset(mode) {
            Some(user_data_offset) => if index <= LAST_SECTOR {
                Some(CueTrackView { bin, index, user_data_offset })
            } else {
                None
            },
            None => None,
        },
        _ => None,
    }
}

/// What a line changes of the present file, mode and indices.
pub open spec fn moved(s: ScanView, l: LineView) -> ScanView {
    match l {
        LineView::File(name) => ScanView {
            bin: if name is Some {
                name
            } else {
                s.bin
            },
            mode: None,
            index00: 0,
            index01: None,
            pregaps: s.pregaps + pending_pregap(s),
            ..s
        },
        LineView::Track(_, mode) => ScanView {
            mode: if mode is Some {
                mode
            } else {
                s.mode
            },
            index00: 0,
            index01: None,
            pregaps: s.pregaps + pending_pregap(s),
            ..s
        },
        LineView::Index(i) => if i.zero {
            ScanView {
                index00: match i.time {
                    Some(t) => t,
                    None => 0,
                },
                ..s
            }
        } else if i.one && i.time is Some {
            ScanView { index01: i.time, ..s }
        } else {
            s
        },
        _ => s,
    }
}

/// The scan behind a line.
pub open spec fn scanned(s: ScanView, l: LineView) -> ScanView {
    let t = moved(s, l);
    match present_track(t) {
        None => t,
        Some(c) => ScanView {
            first: if t.first is Some {
                t.first
            } else {
                Some(c)
            },
            last: Some(c),
            ..t
        },
    }
}

/// The scan behind the first `n` lines.
pub open spec fn scan_of(rows: Seq<LineView>, n: int) -> ScanView
    decreases n,
{
    if n <= 0 {
        fresh_scan()
    } else {
        scanned(scan_of(rows, n - 1), rows[n - 1])
    }
}

/// The scan of a whole sheet, with the pregap of the last track.
pub open spec fn sheet_scan(rows: Seq<LineView>) -> ScanView {
    let s = scan_of(rows, rows.len() as int);
    ScanView { pregaps: s.pregaps + pending_pregap(s), ..s }
}

/// Where the user data of a track's sectors starts, by its mode.
pub fn offset_for_mode(mode: &str) -> (r: Option<u64>)
    ensures
        r == mode_offset(mode@),
{
    let m: Vec<char> = chars_of(mode);
    if starts_with(m.as_slice(), "MODE1") {
        Some(16)
    } else if starts_with(m.as_slice(), "MODE2") || starts_with(m.as_slice(), "CDI") {
        Some(24)
    } else {
        None
    }
}

impl CueScan {
    /// Before the first line.
    pub fn new() -> (r: CueScan)
        ensures
            r@ == fresh_scan(),
    {
        let r: CueScan = CueScan {
            bin: None,
            mode: None,
            index00: 0,
            index01: None,
            first: None,
            last: None,
            pregaps: Vec::new(),
        };
        assert(pregap_views(r.pregaps@) =~= seq![]);
        r
    }

    /// Adds the pregap of the present track, if it is an audio track with one.
    pub fn flush(&mut self)
        ensures
            final(self)@ == (ScanView {
                pregaps: old(self)@.pregaps + pending_pregap(old(self)@),
                ..old(self)@
            }),
    {
        let ghost before = self@;
        let pending: Option<Pregap> = match (&self.bin, &self.mode, self.index01) {
            (Some(bin), Some(mode), Some(to)) => if same_text(mode.as_str(), "AUDIO")
                && self.index00 < to && self.index00 <= LAST_SECTOR {
                Some(Pregap { bin: bin.as_str().to_owned(), from: self.index00, to })
            } else {
                None
            },
            _ => None,
        };
        match pending {
            Some(p) => {
                let ghost pv = p@;
                self.pregaps.push(p);
                assert(pregap_views(self.pregaps@) =~= before.pregaps + seq![pv]);
            },
            None => {
                assert(before.pregaps + seq![] =~= before.pregaps);
            },
        }
    }

    /// The present track, if it is a data track.
    pub fn present(&self) -> (r: Option<CueTrack>)
        ensures
            opt_track(r) == present_track(self@),
    {
        match (&self.bin, &self.mode, self.index01) {
            (Some(bin), Some(mode), Some(index)) => match offset_for_mode(mode.as_str()) {
                Some(user_data_offset) => if index <= LAST_SECTOR {
                    Some(CueTrack { bin: bin.as_str().to_owned(), index, user_data_offset })
                } else {
                    None
                },
                None => None,
            },
            _ => None,
        }
    }

    /// Takes in a line.
    pub fn step(&mut self, line: &CueLine)
        ensures
            final(self)@ == scanned(old(self)@, line@),
    {
        match line {
            CueLine::File(name) => {
                self.flush();
                if name.is_some() {
                    self.bin = copy_opt(name);
                }
                self.mode = None;
                self.index00 = 0;
                self.index01 = None;
            },
            CueLine::Track(_, mode) => {
                self.flush();
                if mode.is_some() {
                    self.mode = copy_opt(mode);
                }
                self.index00 = 0;
                self.index01 = None;
            },
            CueLine::Index(i) => {
                if i.zero {
                    self.index00 =
                    match i.time {
                        Some(t) => t,
                        None => 0,
                    };
                } else if i.one {
                    if i.time.is_some() {
                        self.index01 = i.time;
                    }
                }
            },
            _ => {},
        }
        assert(self@ == moved(old(self)@, line@));
        match self.present() {
            None => {},
            Some(c) => {
                if self.first.is_none() {
                    self.first =
                    Some(
                        CueTrack {
                            bin: c.bin.as_str().to_owned(),
                            index: c.index,
                            user_data_offset: c.user_data_offset,
                        },
                    );
                }
                self.last = Some(c);
            },
        }
    }
}

/// Scans the lines of a sheet for its data tracks and pregaps.
pub fn scan_lines(rows: &Vec<CueLine>) -> (r: CueScan)
    ensures
        r@ == sheet_scan(line_views(rows@)),
{
    let ghost all = line_views(rows@);
    let mut s: CueScan = CueScan::new();
    let mut i: usize = 0;
    while i < rows.len()
        invariant
            i <= rows@.len(),
            all == line_views(rows@),
            s@ == scan_of(all, i as int),
        decreases rows@.len() - i,
    {
        s.step(&rows[i]);
        assert(all[i as int] == rows@[i as int]@);
        i += 1;
    }
    s.flush();
    s
}

/// What is known of the file of a data track: the sector that the header at the
/// track's start names, and the file's length.
#[derive(Clone, Copy)]
pub struct BinFacts {
    pub lba_offset: u64,
    pub len: Option<u64>,
}

/// The whole raw sectors behind a position in a file.
pub open spec fn sectors_behind(len: Option<u64>, pos: int) -> u64 {
    match len {
        None => 0,
        Some(n) => if n < pos {
            0
        } else {
            ((n - pos) / 2352) as u64
        },
    }
}

/// A data track of a sheet, with what is known of its file.
pub open spec fn as_track(c: CueTrackView, f: BinFacts) -> TrackView {
    TrackView {
        bin_path: c.bin,
        track_offset: (c.index * 2352) as u64,
        user_data_offset: c.user_data_offset,
        stride: 2352,
        lba_offset: f.lba_offset,
        descramble: false,
        sector_count: sectors_behind(f.len, c.index * 2352),
    }
}

/// A data track of a sheet, with what is known of its file.
pub fn to_data_track(c: &CueTrack, f: BinFacts) -> (r: DataTrack)
    requires
        c.index <= LAST_SECTOR,
    ensures
        r@ == as_track(c@, f),
{
    let track_offset: u64 = c.index * RAW_SECTOR_SIZE;
    let sector_count: u64 = match f.len {
        None => 0,
        Some(n) => if n < track_offset {
            0
        } else {
            (n - track_offset) / RAW_SECTOR_SIZE
        },
    };
    DataTrack {
        bin_path: c.bin.as_str().to_owned(),
        track_offset,
        user_data_offset: c.user_data_offset,
        stride: RAW_SECTOR_SIZE,
        lba_offset: f.lba_offset,
        descramble: false,
        sector_count,
    }
}

/// The first pregap from `k` on that holds scrambled data.
pub open spec fn ready_from(pregaps: Seq<PregapView>, ready: Seq<bool>, k: int) -> Option<int>
    decreases pregaps.len() - k,
{
    if k < 0 || k >= pregaps.len() {
        None
    } else if k < ready.len() && ready[k] {
        Some(k)
    } else {
        ready_from(pregaps, ready, k + 1)
    }
}

/// The data track of a sheet: the last one, or the first where the last is in
/// another file and holds no volume; `dir` is the directory of the sheet. A sheet without data tracks may hold one in
/// the pregap of an audio track; `ready` says which pregaps do.
pub open spec fn chosen_track(
    dir: HostDirView,
    s: ScanView,
    first: BinFacts,
    last: BinFacts,
    last_has_pvd: bool,
    ready: Seq<bool>,
) -> Result<TrackView, Seq<char>> {
    match (s.last, s.first) {
        (Some(l), Some(f)) => if !path::same_file(dir, f.bin, l.bin) && !last_has_pvd {
            Ok(as_track(f, first))
        } else {
            Ok(as_track(l, last))
        },
        (Some(l), None) => Ok(as_track(l, last)),
        _ => match ready_from(s.pregaps, ready, 0) {
            None => Err("No data track found in CUE sheet"@),
            Some(k) => Ok(
                TrackView {
                    bin_path: s.pregaps[k].bin,
                    track_offset: (s.pregaps[k].from * 2352) as u64,
                    user_data_offset: 24,
                    stride: 2352,
                    lba_offset: 0,
                    descramble: true,
                    sector_count: 0,
                },
            ),
        },
    }
}

/// Whether the tracks and pregaps of a scan start at positions that a file can reach.
pub open spec fn in_reach(s: ScanView) -> bool {
    &&& s.first matches Some(c) ==> c.index <= LAST_SECTOR
    &&& s.last matches Some(c) ==> c.index <= LAST_SECTOR
    &&& forall|k: int| 0 <= k < s.pregaps.len() ==> (#[trigger] s.pregaps[k]).from <= LAST_SECTOR
}

/// The tracks and pregaps of every scan start at positions that a file can reach.
pub proof fn scan_stays_in_reach(rows: Seq<LineView>, n: int)
    ensures
        in_reach(scan_of(rows, n)),
    decreases n,
{
    if n > 0 {
        scan_stays_in_reach(rows, n - 1);
    }
}

/// Chooses the data track of a scanned sheet in the directory `dir`.
#[verifier::loop_isolation(false)]
pub fn choose_data_track(
    dir: &HostDir,
    s: &CueScan,
    first: BinFacts,
    last: BinFacts,
    last_has_pvd: bool,
    ready: &[bool],
) -> (r: Result<DataTrack, String>)
    requires
        in_reach(s@),
    ensures
        track::track_outcome(r) == chosen_track(dir@, s@, first, last, last_has_pvd, ready@),
{
    match &s.last {
        Some(l) => {
            match &s.first {
                Some(f) => {
                    if !equal_files(dir, f.bin.as_str(), l.bin.as_str()) && !last_has_pvd {
                        return Ok(to_data_track(f, first));
                    }
                },
                None => {},
            }
            return Ok(to_data_track(l, last));
        },
        None => {},
    }
    let mut k: usize = 0;
    while k < s.pregaps.len()
        invariant
            k <= s.pregaps@.len(),
            ready_from(s@.pregaps, ready@, 0) == ready_from(s@.pregaps, ready@, k as int),
        decreases s.pregaps@.len() - k,
    {
        if k < ready.len() && ready[k] {
            let p: &Pregap = &s.pregaps[k];
            assert(s@.pregaps[k as int] == p@);
            return Ok(
                DataTrack {
                    bin_path: p.bin.as_str().to_owned(),
                    track_offset: p.from * RAW_SECTOR_SIZE,
                    user_data_offset: 24,
                    stride: RAW_SECTOR_SIZE,
                    lba_offset: 0,
                    descramble: true,
                    sector_count: 0,
                },
            );
        }
        k += 1;
    }
    Err("No data track found in CUE sheet".to_owned())
}

/// Scans a sheet for its data tracks and pregaps.
pub fn parse_cue_for_data_track(sheet: &str) -> (r: CueScan)
    ensures
        r@ == sheet_scan(sheet_said(sheet@)),
        in_reach(r@),
{
    let rows: Vec<CueLine> = read_sheet(sheet);
    proof {
        scan_stays_in_reach(sheet_said(sheet@), sheet_said(sheet@).len() as int);
    }
    scan_lines(&rows)
}

// ── All data tracks ─────────────────────────────────────────────────────────

/// What the lines of a sheet up to some line amount to where every data track is
/// wanted.
pub struct DataScan {
    pub bin: Option<String>,
    pub mode: Option<String>,
    pub index01: Option<u64>,
    pub found: Vec<CueTrack>,
}

/// The contents of such a scan.
#[verifier::ext_equal]
pub struct DataScanView {
    pub bin: Option<Seq<char>>,
    pub mode: Option<Seq<char>>,
    pub index01: Option<u64>,
    pub found: Seq<CueTrackView>,
}

/// The contents of data tracks.
pub open spec fn cue_tracks(v: Seq<CueTrack>) -> Seq<CueTrackView> {
    v.map_values(|c: CueTrack| c@)
}

impl View for DataScan {
    type V = DataScanView;

    open spec fn view(&self) -> DataScanView {
        DataScanView {
            bin: opt_text(self.bin),
            mode: opt_text(self.mode),
            index01: self.index01,
            found: cue_tracks(self.found@),
        }
    }
}

/// What a line changes of the present file, mode and index.
pub open spec fn data_moved(s: DataScanView, l: LineView) -> DataScanView {
    match l {
        LineView::File(name) => DataScanView {
            bin: if name is Some {
                name
            } else {
                s.bin
            },
            mode: None,
            index01: None,
            ..s
        },
        LineView::Track(_, mode) => DataScanView { mode, index01: None, ..s },
        LineView::Index(i) => match i.strict {
            Some(t) => DataScanView { index01: t, ..s },
            None => s,
        },
        _ => s,
    }
}

/// The present track, if it is a data track that starts at a position that a file can
/// reach.
pub open spec fn data_present(s: DataScanView) -> Option<CueTrackView> {
    match (s.bin, s.mode, s.index01) {
        (Some(bin), Some(mode), Some(index)) => match mode_offset(mode) {
            Some(user_data_offset) => if index <= LAST_SECTOR {
                Some(CueTrackView { bin, index, user_data_offset })
            } else {
                None
            },
            None => None,
        },
        _ => None,
    }
}

/// Whether the last track found begins where this one does.
pub open spec fn is_last(dir: HostDirView, found: Seq<CueTrackView>, c: CueTrackView) -> bool {
    found.len() > 0 && path::same_file(dir, found.last().bin, c.bin) && found.last().index
        == c.index
}

/// The scan behind a line: a track that begins where the last one does is not
/// added again.
pub open spec fn data_scanned(dir: HostDirView, s: DataScanView, l: LineView) -> DataScanView {
    let t = data_moved(s, l);
    match data_present(t) {
        None => t,
        Some(c) => if is_last(dir, t.found, c) {
            t
        } else {
            DataScanView { found: t.found.push(c), ..t }
        },
    }
}

/// The scan behind the first `n` lines.
pub open spec fn data_scan_of(dir: HostDirView, rows: Seq<LineView>, n: int) -> DataScanView
    decreases n,
{
    if n <= 0 {
        DataScanView { bin: None, mode: None, index01: None, found: seq![] }
    } else {
        data_scanned(dir, data_scan_of(dir, rows, n - 1), rows[n - 1])
    }
}

impl DataScan {
    /// Takes in a line of a sheet in the directory `dir`.
    pub fn step(&mut self, dir: &HostDir, line: &CueLine)
        ensures
            final(self)@ == data_scanned(dir@, old(self)@, line@),
    {
        match line {
            CueLine::File(name) => {
                if name.is_some() {
                    self.bin = copy_opt(name);
                }
                self.mode = None;
                self.index01 = None;
            },
            CueLine::Track(_, mode) => {
                self.mode = copy_opt(mode);
                self.index01 = None;
            },
            CueLine::Index(i) => {
                if let Some(t) = i.strict {
                    self.index01 = t;
                }
            },
            _ => {},
        }
        let ghost t = self@;
        assert(t == data_moved(old(self)@, line@));
        let present: Option<CueTrack> = match (&self.bin, &self.mode, self.index01) {
            (Some(bin), Some(mode), Some(index)) => match offset_for_mode(mode.as_str()) {
                Some(user_data_offset) => if index <= LAST_SECTOR {
                    Some(CueTrack { bin: bin.as_str().to_owned(), index, user_data_offset })
                } else {
                    None
                },
                None => None,
            },
            _ => None,
        };
        assert(opt_track(present) == data_present(t));
        match present {
            None => {},
            Some(c) => {
                let n: usize = self.found.len();
                let again: bool = if n == 0 {
                    false
                } else {
                    assert(t.found.last() == self.found@[n - 1]@);
                    equal_files(dir, self.found[n - 1].bin.as_str(), c.bin.as_str())
                        && self.found[n - 1].index == c.index
                };
                assert(again == is_last(dir@, t.found, c@));
                if !again {
                    let ghost cv = c@;
                    self.found.push(c);
                    assert(cue_tracks(self.found@) =~= t.found.push(cv));
                }
            },
        }
    }
}

/// Finds all data tracks of a sheet in the directory `dir`, as their lines say.
pub fn scan_data_tracks(dir: &HostDir, rows: &Vec<CueLine>) -> (r: Vec<CueTrack>)
    ensures
        cue_tracks(r@) == data_scan_of(dir@, line_views(rows@), rows@.len() as int).found,
{
    let ghost all = line_views(rows@);
    let mut s: DataScan = DataScan { bin: None, mode: None, index01: None, found: Vec::new() };
    assert(cue_tracks(s.found@) =~= seq![]);
    let mut i: usize = 0;
    while i < rows.len()
        invariant
            i <= rows@.len(),
            all == line_views(rows@),
            s@ == data_scan_of(dir@, all, i as int),
        decreases rows@.len() - i,
    {
        s.step(dir, &rows[i]);
        assert(all[i as int] == rows@[i as int]@);
        i += 1;
    }
    s.found
}

/// The tracks that are found start at positions that a file can reach.
pub proof fn found_tracks_are_in_reach(dir: HostDirView, rows: Seq<LineView>, n: int)
    ensures
        forall|k: int|
            0 <= k < data_scan_of(dir, rows, n).found.len() ==> (#[trigger] data_scan_of(
                dir,
                rows,
                n,
            ).found[k]).index <= LAST_SECTOR,
    decreases n,
{
    if n > 0 {
        found_tracks_are_in_reach(dir, rows, n - 1);
    }
}

/// Finds all data tracks of a sheet in the directory `dir`.
pub fn parse_cue_all_data_tracks(dir: &HostDir, sheet: &str) -> (r: Vec<CueTrack>)
    ensures
        cue_tracks(r@) == data_scan_of(
            dir@,
            sheet_said(sheet@),
            sheet_said(sheet@).len() as int,
        ).found,
        forall|k: int| 0 <= k < r@.len() ==> (#[trigger] r@[k]).index <= LAST_SECTOR,
{
    let rows: Vec<CueLine> = read_sheet(sheet);
    let ghost said = sheet_said(sheet@);
    assert(said.len() == rows@.len());
    proof {
        found_tracks_are_in_reach(dir@, said, said.len() as int);
    }
    let r: Vec<CueTrack> = scan_data_tracks(dir, &rows);
    assert forall|k: int| 0 <= k < r@.len() implies (#[trigger] r@[k]).index <= LAST_SECTOR by {
        assert(cue_tracks(r@)[k] == r@[k]@);
    }
    r
}

/// What is known of the file of the track `k`; nothing where it is not said.
pub open spec fn facts_at(facts: Seq<BinFacts>, k: int) -> BinFacts {
    if k < facts.len() {
        facts[k]
    } else {
        BinFacts { lba_offset: 0, len: None }
    }
}

/// All data tracks of a sheet, with what is known of their files.
pub fn all_data_tracks(found: &Vec<CueTrack>, facts: &[BinFacts]) -> (r: Result<
    Vec<DataTrack>,
    String,
>)
    requires
        forall|k: int| 0 <= k < found@.len() ==> (#[trigger] found@[k]).index <= LAST_SECTOR,
    ensures
        match r {
            Err(e) => found@.len() == 0 && e@ == "No data track found in CUE sheet"@,
            Ok(v) => found@.len() > 0 && v@.len() == found@.len() && forall|k: int|
                0 <= k < v@.len() ==> (#[trigger] v@[k])@ == as_track(
                    found@[k]@,
                    facts_at(facts@, k),
                ),
        },
{
    if found.len() == 0 {
        return Err("No data track found in CUE sheet".to_owned());
    }
    let mut out: Vec<DataTrack> = Vec::new();
    let mut i: usize = 0;
    while i < found.len()
        invariant
            i <= found@.len(),
            out@.len() == i,
            forall|k: int| 0 <= k < found@.len() ==> (#[trigger] found@[k]).index <= LAST_SECTOR,
            forall|k: int|
                0 <= k < i ==> (#[trigger] out@[k])@ == as_track(found@[k]@, facts_at(facts@, k)),
        decreases found@.len() - i,
    {
        let f: BinFacts = if i < facts.len() {
            facts[i]
        } else {
            BinFacts { lba_offset: 0, len: None }
        };
        let t: DataTrack = to_data_track(&found[i], f);
        out.push(t);
        i += 1;
    }
    Ok(out)
}

// ── Track listing ───────────────────────────────────────────────────────────

/// A track as its lines in a sheet say.
pub struct RawCueTrack {
    pub number: u32,
    pub mode: String,
    pub index00_lba: u64,
    pub start_lba: u64,
    pub bin_path: String,
    pub session: u32,
}

/// The contents of a sheet's track.
#[verifier::ext_equal]
pub struct RawTrackView {
    pub number: u32,
    pub mode: Seq<char>,
    pub index00_lba: u64,
    pub start_lba: u64,
    pub bin_path: Seq<char>,
    pub session: u32,
}

impl View for RawCueTrack {
    type V = RawTrackView;

    open spec fn view(&self) -> RawTrackView {
        RawTrackView {
            number: self.number,
            mode: self.mode@,
            index00_lba: self.index00_lba,
            start_lba: self.start_lba,
            bin_path: self.bin_path@,
            session: self.session,
        }
    }
}

/// The contents of a sheet's tracks.
pub open spec fn raw_views(v: Seq<RawCueTrack>) -> Seq<RawTrackView> {
    v.map_values(|t: RawCueTrack| t@)
}

/// What the lines of a sheet up to some line amount to where its tracks are
/// listed.
pub struct ListScan {
    pub session: u32,
    pub bin: Option<String>,
    pub number: Option<u32>,
    pub mode: Option<String>,
    pub index00: u64,
    pub start: u64,
    pub tracks: Vec<RawCueTrack>,
}

/// The contents of such a scan.
#[verifier::ext_equal]
pub struct ListScanView {
    pub session: u32,
    pub bin: Option<Seq<char>>,
    pub number: Option<u32>,
    pub mode: Option<Seq<char>>,
    pub index00: u64,
    pub start: u64,
    pub tracks: Seq<RawTrackView>,
}

impl View for ListScan {
    type V = ListScanView;

    open spec fn view(&self) -> ListScanView {
        ListScanView {
            session: self.session,
            bin: opt_text(self.bin),
            number: self.number,
            mode: opt_text(self.mode),
            index00: self.index00,
            start: self.start,
            tracks: raw_views(self.tracks@),
        }
    }
}

/// The scan with the present track added, if it has a number, a mode and a file.
pub open spec fn flushed(s: ListScanView) -> ListScanView {
    ListScanView {
        number: None,
        mode: None,
        index00: 0,
        start: 0,
        tracks: match (s.number, s.mode, s.bin) {
            (Some(number), Some(mode), Some(bin_path)) => s.tracks.push(
                RawTrackView {
                    number,
                    mode,
                    index00_lba: s.index00,
                    start_lba: s.start,
                    bin_path,
                    session: s.session,
                },
            ),
            _ => s.tracks,
        },
        ..s
    }
}

/// The scan behind a line.
pub open spec fn list_scanned(s: ListScanView, l: LineView) -> ListScanView {
    match l {
        LineView::Session(n) => ListScanView {
            session: match n {
                Some(k) => k,
                None => s.session,
            },
            ..flushed(s)
        },
        LineView::File(name) => ListScanView {
            bin: if name is Some {
                name
            } else {
                s.bin
            },
            ..flushed(s)
        },
        LineView::Track(number, mode) => ListScanView { number, mode, ..flushed(s) },
        LineView::Index(i) => if i.zero {
            ListScanView {
                index00: match i.time {
                    Some(t) => t,
                    None => 0,
                },
                ..s
            }
        } else {
            match (i.one, i.time) {
                (true, Some(t)) => ListScanView { start: t, ..s },
                _ => s,
            }
        },
        LineView::Other => s,
    }
}

/// The scan behind the first `n` lines.
pub open spec fn list_scan_of(rows: Seq<LineView>, n: int) -> ListScanView
    decreases n,
{
    if n <= 0 {
        ListScanView {
            session: 1,
            bin: None,
            number: None,
            mode: None,
            index00: 0,
            start: 0,
            tracks: seq![],
        }
    } else {
        list_scanned(list_scan_of(rows, n - 1), rows[n - 1])
    }
}

/// The tracks of a sheet.
pub open spec fn raw_tracks(rows: Seq<LineView>) -> Seq<RawTrackView> {
    flushed(list_scan_of(rows, rows.len() as int)).tracks
}

impl ListScan {
    /// Adds the present track, if it has a number, a mode and a file.
    pub fn flush(&mut self)
        ensures
            final(self)@ == flushed(old(self)@),
    {
        let ghost before = self@;
        let made: Option<RawCueTrack> = match (self.number, &self.mode, &self.bin) {
            (Some(number), Some(mode), Some(bin)) => Some(
                RawCueTrack {
                    number,
                    mode: mode.as_str().to_owned(),
                    index00_lba: self.index00,
                    start_lba: self.start,
                    bin_path: bin.as_str().to_owned(),
                    session: self.session,
                },
            ),
            _ => None,
        };
        if let Some(t) = made {
            let ghost tv = t@;
            self.tracks.push(t);
            assert(raw_views(self.tracks@) =~= before.tracks.push(tv));
        }
        self.number = None;
        self.mode = None;
        self.index00 = 0;
        self.start = 0;
    }

    /// Takes in a line.
    pub fn step(&mut self, line: &CueLine)
        ensures
            final(self)@ == list_scanned(old(self)@, line@),
    {
        match line {
            CueLine::Session(n) => {
                self.flush();
                if let Some(k) = n {
                    self.session = *k;
                }
            },
            CueLine::File(name) => {
                self.flush();
                if name.is_some() {
                    self.bin = copy_opt(name);
                }
            },
            CueLine::Track(number, mode) => {
                self.flush();
                self.number = *number;
                self.mode = copy_opt(mode);
            },
            CueLine::Index(i) => {
                if i.zero {
                    self.index00 =
                    match i.time {
                        Some(t) => t,
                        None => 0,
                    };
                } else if i.one {
                    if let Some(t) = i.time {
                        self.start = t;
                    }
                }
            },
            CueLine::Other => {},
        }
    }
}

/// The tracks of a sheet, as its lines say.
pub fn scan_tracks(rows: &Vec<CueLine>) -> (r: Vec<RawCueTrack>)
    ensures
        raw_views(r@) == raw_tracks(line_views(rows@)),
{
    let ghost all = line_views(rows@);
    let mut s: ListScan = ListScan {
        session: 1,
        bin: None,
        number: None,
        mode: None,
        index00: 0,
        start: 0,
        tracks: Vec::new(),
    };
    assert(raw_views(s.tracks@) =~= seq![]);
    let mut i: usize = 0;
    while i < rows.len()
        invariant
            i <= rows@.len(),
            all == line_views(rows@),
            s@ == list_scan_of(all, i as int),
        decreases rows@.len() - i,
    {
        s.step(&rows[i]);
        assert(all[i as int] == rows@[i as int]@);
        i += 1;
    }
    s.flush();
    s.tracks
}

/// The tracks of a sheet.
pub fn get_cue_tracks(sheet: &str) -> (r: Vec<RawCueTrack>)
    ensures
        raw_views(r@) == raw_tracks(sheet_said(sheet@)),
{
    let rows: Vec<CueLine> = read_sheet(sheet);
    scan_tracks(&rows)
}

/// The whole raw sectors of a file of known length.
pub open spec fn sectors_in(lens: Seq<Option<u64>>, k: int) -> u64 {
    if k < lens.len() {
        sectors_behind(lens[k], 0)
    } else {
        0
    }
}

/// A track of a sheet in the directory `dir` as it is listed: up to the next track in
/// the same file, or the whole file; `lens` holds the lengths of the tracks' files.
pub open spec fn listed(
    dir: HostDirView,
    raw: Seq<RawTrackView>,
    lens: Seq<Option<u64>>,
    k: int,
) -> InfoView {
    let t = raw[k];
    InfoView {
        number: t.number,
        is_data: text::begins(t.mode, "MODE"@) || text::begins(t.mode, "CDI"@),
        mode: t.mode,
        start_lba: t.start_lba,
        num_sectors: if k + 1 < raw.len() && path::same_file(
            dir,
            raw[k + 1].bin_path,
            t.bin_path,
        ) {
            if raw[k + 1].start_lba < t.start_lba {
                0
            } else {
                (raw[k + 1].start_lba - t.start_lba) as u64
            }
        } else {
            sectors_in(lens, k)
        },
        session: t.session,
        bin_path: t.bin_path,
    }
}

/// Whether a track has a pregap that holds scrambled data; `ready` says of which
/// pregaps that is so.
pub open spec fn has_data_pregap(raw: Seq<RawTrackView>, ready: Seq<bool>, k: int) -> bool {
    raw[k].mode == "AUDIO"@ && raw[k].index00_lba < raw[k].start_lba && k < ready.len() && ready[k]
}

/// A pregap that holds scrambled data, as it is listed.
pub open spec fn listed_pregap(t: RawTrackView) -> InfoView {
    InfoView {
        number: 0,
        is_data: true,
        mode: "CDI/PREGAP"@,
        start_lba: t.index00_lba,
        num_sectors: (t.start_lba - t.index00_lba) as u64,
        session: t.session,
        bin_path: t.bin_path,
    }
}

/// The pregaps with scrambled data of the first `n` tracks.
pub open spec fn listed_pregaps(raw: Seq<RawTrackView>, ready: Seq<bool>, n: int) -> Seq<InfoView>
    decreases n,
{
    if n <= 0 {
        seq![]
    } else if has_data_pregap(raw, ready, n - 1) {
        listed_pregaps(raw, ready, n - 1).push(listed_pregap(raw[n - 1]))
    } else {
        listed_pregaps(raw, ready, n - 1)
    }
}

/// The listing of a sheet: the pregaps with scrambled data, then the tracks.
pub open spec fn track_listing(
    dir: HostDirView,
    raw: Seq<RawTrackView>,
    lens: Seq<Option<u64>>,
    ready: Seq<bool>,
) -> Seq<InfoView> {
    listed_pregaps(raw, ready, raw.len() as int) + Seq::new(
        raw.len(),
        |k: int| listed(dir, raw, lens, k),
    )
}

/// A track as it is listed.
fn list_track(
    dir: &HostDir,
    raw: &Vec<RawCueTrack>,
    lens: &[Option<u64>],
    k: usize,
) -> (r: TrackInfo)
    requires
        k < raw@.len(),
    ensures
        r@ == listed(dir@, raw_views(raw@), lens@, k as int),
{
    let ghost rv = raw_views(raw@);
    let t: &RawCueTrack = &raw[k];
    assert(rv[k as int] == t@);
    let next: bool = if k < raw.len() - 1 {
        assert(rv[k + 1] == raw@[k + 1]@);
        equal_files(dir, raw[k + 1].bin_path.as_str(), t.bin_path.as_str())
    } else {
        false
    };
    let num_sectors: u64 = if next {
        if raw[k + 1].start_lba < t.start_lba {
            0
        } else {
            raw[k + 1].start_lba - t.start_lba
        }
    } else if k < lens.len() {
        match lens[k] {
            Some(n) => n / RAW_SECTOR_SIZE,
            None => 0,
        }
    } else {
        0
    };
    let m: Vec<char> = chars_of(t.mode.as_str());
    TrackInfo {
        number: t.number,
        is_data: starts_with(m.as_slice(), "MODE") || starts_with(m.as_slice(), "CDI"),
        mode: t.mode.as_str().to_owned(),
        start_lba: t.start_lba,
        num_sectors,
        session: t.session,
        bin_path: t.bin_path.as_str().to_owned(),
    }
}

/// Lists the tracks of a sheet in the directory `dir`: `lens` holds the lengths of
/// their files, and `ready` says which of their pregaps hold scrambled data.
pub fn list_cue_tracks(
    dir: &HostDir,
    raw: &Vec<RawCueTrack>,
    lens: &[Option<u64>],
    ready: &[bool],
) -> (r: Vec<TrackInfo>)
    ensures
        track::infos(r@) == track_listing(dir@, raw_views(raw@), lens@, ready@),
{
    let ghost rv = raw_views(raw@);
    let mut out: Vec<TrackInfo> = Vec::new();
    assert(track::infos(out@) =~= seq![]);
    let mut i: usize = 0;
    while i < raw.len()
        invariant
            i <= raw@.len(),
            rv == raw_views(raw@),
            track::infos(out@) == listed_pregaps(rv, ready@, i as int),
        decreases raw@.len() - i,
    {
        let t: &RawCueTrack = &raw[i];
        assert(rv[i as int] == t@);
        if same_text(t.mode.as_str(), "AUDIO") && t.index00_lba < t.start_lba && i < ready.len()
            && ready[i] {
            let info: TrackInfo = TrackInfo {
                number: 0,
                is_data: true,
                mode: "CDI/PREGAP".to_owned(),
                start_lba: t.index00_lba,
                num_sectors: t.start_lba - t.index00_lba,
                session: t.session,
                bin_path: t.bin_path.as_str().to_owned(),
            };
            let ghost before = track::infos(out@);
            let ghost iv = info@;
            out.push(info);
            assert(track::infos(out@) =~= before.push(iv));
        }
        i += 1;
    }
    let ghost head = listed_pregaps(rv, ready@, rv.len() as int);
    let mut k: usize = 0;
    assert(track::infos(out@) =~= head + Seq::new(0, |j: int| listed(dir@, rv, lens@, j)));
    while k < raw.len()
        invariant
            k <= raw@.len(),
            rv == raw_views(raw@),
            track::infos(out@) == head + Seq::new(k as nat, |j: int| listed(dir@, rv, lens@, j)),
        decreases raw@.len() - k,
    {
        let info: TrackInfo = list_track(dir, raw, lens, k);
        let ghost before = track::infos(out@);
        let ghost iv = info@;
        out.push(info);
        assert(track::infos(out@) =~= before.push(iv));
        k += 1;
        assert(track::infos(out@) =~= head + Seq::new(k as nat, |j: int| listed(dir@, rv, lens@, j)));
    }
    assert(track::infos(out@) =~= track_listing(dir@, rv, lens@, ready@));
    out
}

/// A time in minutes, seconds and frames is that of a sector: 75 frames to a second, and 60
/// seconds to a minute.
pub proof fn a_time_is_counted_in_frames(m: int, s: int, f: int)
    requires
        0 <= m,
        0 <= s,
        0 <= f,
        75 * (60 * m + s) + f <= u64::MAX,
    ensures
        msf_sectors(
            numbers::decimal(m) + seq![':'] + (numbers::decimal(s) + seq![':'] + numbers::decimal(
                f,
            )),
        ) == Some((75 * (60 * m + s) + f) as u64),
{
    let a = numbers::decimal(m);
    let b = numbers::decimal(s);
    let c = numbers::decimal(f);
    numbers::written_numbers_are_read_back(m, 10, u64::MAX as int);
    numbers::written_numbers_are_read_back(s, 10, u64::MAX as int);
    numbers::written_numbers_are_read_back(f, 10, u64::MAX as int);
    assert(numbers::digit_value(':') == -1);
    assert(!a.contains(':'));
    assert(!b.contains(':'));
    assert(!c.contains(':'));
    text::pieces_stand_between_separators(a, ':', b + seq![':'] + c);
    text::pieces_stand_between_separators(b, ':', c);
    text::pieces_stand_between_separators(c, ':', seq![]);
    let parts = text::split_on(a + seq![':'] + (b + seq![':'] + c), ':');
    assert(parts =~= seq![a, b, c]);
}

/// What stands between the first two quotation marks of a line is its name.
pub proof fn a_name_stands_between_its_marks(a: Seq<char>, name: Seq<char>, b: Seq<char>)
    requires
        !a.contains('"'),
        !name.contains('"'),
    ensures
        quoted(a + seq!['"'] + name + seq!['"'] + b) == Some(name),
{
    let s = a + seq!['"'] + name + seq!['"'] + b;
    text::lemma_find_char(s, 0, '"');
    let x = text::find_char(s, 0, '"');
    assert(s[a.len() as int] == '"');
    assert(x == a.len()) by {
        if x < a.len() {
            assert(s[x] == a[x]);
            assert(a.contains(a[x]));
        }
    }
    text::lemma_find_char(s, x + 1, '"');
    let y = text::find_char(s, x + 1, '"');
    let e = a.len() + 1 + name.len();
    assert(s[e as int] == '"');
    assert(y == e) by {
        if y < e {
            assert(s[y] == name[y - x - 1]);
            assert(name.contains(name[y - x - 1]));
        }
    }
    assert(s.subrange(x + 1, y) =~= name);
}

/// The lines for a file, a data track in it and where that track begins make it the last data
/// track of the scan, and the first where there was none; its bytes start as many raw sectors
/// of 2352 bytes behind the file's as the time tells.
pub proof fn a_data_track_is_told_by_its_lines(
    s: ScanView,
    bin: Seq<char>,
    number: Option<u32>,
    mode: Seq<char>,
    i: CueIndex,
    index: u64,
    offset: u64,
    f: BinFacts,
)
    requires
        mode_offset(mode) == Some(offset),
        !i.zero,
        i.one,
        i.time == Some(index),
        index <= 7843003093840795,
    ensures
        ({
            let t = scanned(
                scanned(
                    scanned(s, LineView::File(Some(bin))),
                    LineView::Track(number, Some(mode)),
                ),
                LineView::Index(i),
            );
            let c = CueTrackView { bin, index, user_data_offset: offset };
            &&& t.last == Some(c)
            &&& s.first is None ==> t.first == Some(c)
            &&& s.first is Some ==> t.first == s.first
            &&& as_track(c, f).track_offset == 2352 * index
            &&& as_track(c, f).bin_path == bin
            &&& as_track(c, f).user_data_offset == offset
            &&& as_track(c, f).stride == 2352
            &&& f.len matches Some(n) ==> n >= 2352 * index ==> 2352 * (index + as_track(
                c,
                f,
            ).sector_count) <= n < 2352 * (index + as_track(c, f).sector_count + 1)
        }),
{
}

/// The user data of a sector of the first mode start at byte 16, of the second at 24.
pub proof fn a_mode_tells_where_the_data_start(rest: Seq<char>)
    ensures
        mode_offset("MODE1"@ + rest) == Some(16u64),
        mode_offset("MODE2"@ + rest) == Some(24u64),
        mode_offset("CDI"@ + rest) == Some(24u64),
        mode_offset("AUDIO"@) is None,
{
    reveal_strlit("MODE1");
    reveal_strlit("MODE2");
    reveal_strlit("CDI");
    reveal_strlit("AUDIO");
    let a = "MODE1"@ + rest;
    assert(a.subrange(0, 5) =~= "MODE1"@);
    let b = "MODE2"@ + rest;
    assert(b.subrange(0, 5) =~= "MODE2"@);
    assert("MODE1"@[4] == '1' && "MODE2"@[4] == '2');
    let c = "CDI"@ + rest;
    assert(c.subrange(0, 3) =~= "CDI"@);
    if text::begins(c, "MODE1"@) {
        assert(c.subrange(0, 5)[0] == c[0]);
    }
    if text::begins(c, "MODE2"@) {
        assert(c.subrange(0, 5)[0] == c[0]);
    }
    if text::begins("AUDIO"@, "MODE1"@) {
        assert("AUDIO"@.subrange(0, 5)[0] == "AUDIO"@[0]);
    }
    if text::begins("AUDIO"@, "MODE2"@) {
        assert("AUDIO"@.subrange(0, 5)[0] == "AUDIO"@[0]);
    }
    if text::begins("AUDIO"@, "CDI"@) {
        assert("AUDIO"@.subrange(0, 3)[0] == "AUDIO"@[0]);
    }
}

/// The lines of a track add it to the list once the next track, file or session begins.
pub proof fn a_track_is_listed_by_its_lines(
    s: ListScanView,
    bin: Seq<char>,
    number: u32,
    mode: Seq<char>,
    zero: CueIndex,
    one: CueIndex,
    from: u64,
    start: u64,
    next: LineView,
)
    requires
        s.number is None,
        zero.zero && zero.time == Some(from),
        !one.zero && one.one && one.time == Some(start),
        next is Track || next is File || next is Session,
    ensures
        ({
            let t = list_scanned(
                list_scanned(
                    list_scanned(
                        list_scanned(
                            list_scanned(s, LineView::File(Some(bin))),
                            LineView::Track(Some(number), Some(mode)),
                        ),
                        LineView::Index(zero),
                    ),
                    LineView::Index(one),
                ),
                next,
            );
            t.tracks == s.tracks.push(
                RawTrackView {
                    number,
                    mode,
                    index00_lba: from,
                    start_lba: start,
                    bin_path: bin,
                    session: s.session,
                },
            )
        }),
{
}

/// A track reaches up to the next one in its file; the last one of a file is listed with the
/// whole raw sectors of the file.
pub proof fn a_track_reaches_to_the_next(
    dir: HostDirView,
    raw: Seq<RawTrackView>,
    lens: Seq<Option<u64>>,
    k: int,
    len: u64,
)
    requires
        0 <= k < raw.len(),
        k < lens.len(),
        lens[k] == Some(len),
    ensures
        ({
            let t = listed(dir, raw, lens, k);
            &&& t.number == raw[k].number
            &&& t.session == raw[k].session
            &&& t.bin_path == raw[k].bin_path
            &&& k + 1 < raw.len() && path::same_file(dir, raw[k + 1].bin_path, raw[k].bin_path)
                && raw[k].start_lba <= raw[k + 1].start_lba ==> t.start_lba + t.num_sectors
                == raw[k + 1].start_lba
            &&& k + 1 == raw.len() ==> 2352 * t.num_sectors <= len < 2352 * t.num_sectors + 2352
            &&& t.start_lba == raw[k].start_lba
        }),
{
}

/// A TRACK line tells the number of a track and its mode.
pub proof fn a_track_line_is_read(number: u32, mode: Seq<char>)
    requires
        mode.len() > 0,
        forall|i: int| 0 <= i < mode.len() ==> !text::is_white(#[trigger] mode[i]),
    ensures
        ({
            let line = "TRACK"@ + seq![' '] + (numbers::decimal(number as int) + seq![' '] + mode);
            said(line, line) == LineView::Track(Some(number), Some(mode))
        }),
{
    let head = "TRACK"@;
    let d = numbers::decimal(number as int);
    let rest = d + seq![' '] + mode;
    let line = head + seq![' '] + rest;
    reveal_strlit("TRACK");
    reveal_strlit("TRACK ");
    reveal_strlit("FILE ");
    reveal_strlit("REM SESSION ");
    assert("TRACK "@ =~= head + seq![' ']);
    assert(line.subrange(0, 6) =~= "TRACK "@);
    assert(line[0] == 'T');
    if text::begins(line, "FILE "@) {
        assert(line.subrange(0, 5)[0] == line[0]);
    }
    if text::begins(line, "REM SESSION "@) {
        assert(line.subrange(0, 12)[0] == line[0]);
    }
    numbers::written_numbers_are_read_back(number as int, 10, u32::MAX as int);
    numbers::a_numeral_spells_its_number(number as int, 10);
    assert forall|i: int| 0 <= i < d.len() implies !text::is_white(#[trigger] d[i]) by {
        assert(0 <= numbers::digit_value(d[i]) < 10);
    }
    assert forall|i: int| 0 <= i < head.len() implies !text::is_white(#[trigger] head[i]) by {}
    text::words_stand_between_white_space(' ', mode, seq![]);
    text::words_stand_between_white_space(' ', d, mode);
    text::words_stand_between_white_space(' ', head, rest);
    let w = text::words_of(line);
    assert(w =~= seq![head, d, mode]);
    assert(w[1] == d && w[2] == mode);
}

/// An INDEX line tells which index it is, and its time.
pub proof fn an_index_line_is_read(one: bool, m: int, s: int, f: int)
    requires
        0 <= m,
        0 <= s,
        0 <= f,
        75 * (60 * m + s) + f <= u64::MAX,
    ensures
        ({
            let which = if one {
                "01"@
            } else {
                "00"@
            };
            let time = numbers::decimal(m) + seq![':'] + (numbers::decimal(s) + seq![':']
                + numbers::decimal(f));
            let line = "INDEX "@ + (which + seq![' '] + time);
            said(line, line) matches LineView::Index(i) && i.one == one && i.zero == !one && i.time
                == Some((75 * (60 * m + s) + f) as u64)
        }),
{
    let which = if one {
        "01"@
    } else {
        "00"@
    };
    let a = numbers::decimal(m);
    let b = numbers::decimal(s);
    let c = numbers::decimal(f);
    let time = a + seq![':'] + (b + seq![':'] + c);
    let rest = which + seq![' '] + time;
    let line = "INDEX "@ + rest;
    reveal_strlit("INDEX ");
    reveal_strlit("01");
    reveal_strlit("00");
    reveal_strlit("FILE ");
    reveal_strlit("REM SESSION ");
    reveal_strlit("TRACK ");
    assert("01"@[1] == '1' && "00"@[1] == '0');
    assert(line[0] == 'I');
    assert(line.subrange(0, 6) =~= "INDEX "@);
    assert(line.skip(6) =~= rest);
    if text::begins(line, "FILE "@) {
        assert(line.subrange(0, 5)[0] == line[0]);
    }
    if text::begins(line, "REM SESSION "@) {
        assert(line.subrange(0, 12)[0] == line[0]);
    }
    if text::begins(line, "TRACK "@) {
        assert(line.subrange(0, 6)[0] == line[0]);
    }
    a_time_is_counted_in_frames(m, s, f);
    numbers::written_numbers_are_read_back(m, 10, u64::MAX as int);
    numbers::written_numbers_are_read_back(s, 10, u64::MAX as int);
    numbers::written_numbers_are_read_back(f, 10, u64::MAX as int);
    assert forall|i: int| 0 <= i < time.len() implies !text::is_white(#[trigger] time[i]) by {
        if i < a.len() {
            assert(time[i] == a[i]);
            assert(0 <= numbers::digit_value(a[i]) < 10);
        } else if i == a.len() {
            assert(time[i] == ':');
        } else if i < a.len() + 1 + b.len() {
            assert(time[i] == b[i - a.len() - 1]);
            assert(0 <= numbers::digit_value(b[i - a.len() - 1]) < 10);
        } else if i == a.len() + 1 + b.len() {
            assert(time[i] == ':');
        } else {
            assert(time[i] == c[i - a.len() - b.len() - 2]);
            assert(0 <= numbers::digit_value(c[i - a.len() - b.len() - 2]) < 10);
        }
    }
    assert forall|i: int| 0 <= i < which.len() implies !text::is_white(#[trigger] which[i]) by {}
    text::words_stand_between_white_space(' ', time, seq![]);
    text::words_stand_between_white_space(' ', which, time);
    assert(text::words_of(rest) =~= seq![which, time]);
}

} // verus!
