//! CloneCD images: the control file that goes with the raw sectors.
use vstd::prelude::*;
use crate::numbers;
use crate::numbers::parse_signed;
use crate::sector::RAW_SECTOR_SIZE;
use crate::source::{ByteSource, Reads};
use crate::text;
use crate::text::{
    chars_of, cut_chars, find_char_from, is_text, join2, lines, starts_with, to_ascii_lower, trim,
};
use crate::track;
use crate::track::{detect_sector_format_at, sector_lba_at, DataTrack, TrackView};

verus! {

/// The number that a text stands for, in decimal or, behind `0x`, in hexadecimal;
/// zero where it stands for none.
pub open spec fn parsed_int(s: Seq<char>) -> i64 {
    let t = text::trimmed(s);
    let n = if text::begins(t, "0x"@) || text::begins(t, "0X"@) {
        numbers::parsed_signed(t.skip(2), 16)
    } else {
        numbers::parsed_signed(t, 10)
    };
    match n {
        Some(v) => v as i64,
        None => 0,
    }
}

/// The number that a text stands for, in decimal; zero where it stands for none.
pub open spec fn parsed_decimal(s: Seq<char>) -> i64 {
    match numbers::parsed_signed(text::trimmed(s), 10) {
        Some(v) => v as i64,
        None => 0,
    }
}

/// The number that a text stands for, in decimal or hexadecimal.
pub fn parse_int_ccd(s: &[char]) -> (r: i64)
    ensures
        r == parsed_int(s@),
{
    proof {
        reveal_strlit("0x");
        reveal_strlit("0X");
    }
    let t: Vec<char> = trim(s);
    let n: Option<i64> = if starts_with(t.as_slice(), "0x") || starts_with(t.as_slice(), "0X") {
        assert(t@.subrange(2, t@.len() as int) =~= t@.skip(2));
        let h: Vec<char> = cut_chars(t.as_slice(), 2, t.len());
        parse_signed(h.as_slice(), 16)
    } else {
        parse_signed(t.as_slice(), 10)
    };
    match n {
        Some(v) => v,
        None => 0,
    }
}

/// An entry of the table of contents: its control bits and its first sector.
#[derive(Clone, Copy)]
pub struct CcdEntry {
    pub control: u32,
    pub plba: i64,
}

/// What the lines of a control file up to some line amount to.
pub struct CcdScan {
    pub in_entry: bool,
    pub point: Option<i32>,
    pub control: Option<u32>,
    pub plba: Option<i64>,
    pub entries: Vec<CcdEntry>,
}

/// The contents of a scan.
#[verifier::ext_equal]
pub struct CcdView {
    pub in_entry: bool,
    pub point: Option<i32>,
    pub control: Option<u32>,
    pub plba: Option<i64>,
    pub entries: Seq<CcdEntry>,
}

impl View for CcdScan {
    type V = CcdView;

    open spec fn view(&self) -> CcdView {
        CcdView {
            in_entry: self.in_entry,
            point: self.point,
            control: self.control,
            plba: self.plba,
            entries: self.entries@,
        }
    }
}

/// The entries with the present one added, if it is complete and of a track.
pub open spec fn flushed(s: CcdView) -> Seq<CcdEntry> {
    match (s.point, s.control, s.plba) {
        (Some(point), Some(control), Some(plba)) => if s.in_entry && 1 <= point <= 99 {
            s.entries.push(CcdEntry { control, plba })
        } else {
            s.entries
        },
        _ => s.entries,
    }
}

/// What a line `key=value` of an entry changes.
pub open spec fn assigned(s: CcdView, key: Seq<char>, value: Seq<char>) -> CcdView {
    if key == "point"@ {
        CcdView { point: Some(parsed_int(value) as i32), ..s }
    } else if key == "control"@ {
        CcdView { control: Some(parsed_int(value) as u32), ..s }
    } else if key == "plba"@ {
        CcdView { plba: Some(parsed_decimal(value)), ..s }
    } else {
        s
    }
}

/// The scan behind a line.
pub open spec fn scanned(s: CcdView, line: Seq<char>) -> CcdView {
    let t = text::trimmed(line);
    let eq = text::find_char(t, 0, '=');
    if text::begins(t, "["@) {
        CcdView {
            in_entry: text::begins(text::lowered(t), "[entry"@),
            point: None,
            control: None,
            plba: None,
            entries: flushed(s),
        }
    } else if s.in_entry && eq < t.len() {
        assigned(s, text::lowered(text::trimmed(t.take(eq))), t.skip(eq + 1))
    } else {
        s
    }
}

/// The scan behind the first `n` lines.
pub open spec fn scan_of(rows: Seq<Seq<char>>, n: int) -> CcdView
    decreases n,
{
    if n <= 0 {
        CcdView { in_entry: false, point: None, control: None, plba: None, entries: seq![] }
    } else {
        scanned(scan_of(rows, n - 1), rows[n - 1])
    }
}

/// The entries of a control file.
pub open spec fn entries_of(sheet: Seq<char>) -> Seq<CcdEntry> {
    let rows = text::lines_of(sheet);
    flushed(scan_of(rows, rows.len() as int))
}

/// The first data entry from `k` on.
pub open spec fn data_entry(entries: Seq<CcdEntry>, k: int) -> Option<CcdEntry>
    decreases entries.len() - k,
{
    if k < 0 || k >= entries.len() {
        None
    } else if entries[k].control & 0x04 != 0 && entries[k].plba >= 0 {
        Some(entries[k])
    } else {
        data_entry(entries, k + 1)
    }
}

/// Where the raw sectors of an entry start, counted around at 64 bits.
pub open spec fn entry_start(e: CcdEntry) -> u64 {
    ((e.plba * 2352) % 0x1_0000_0000_0000_0000) as u64
}

/// The data track of an image: its sectors are raw ones.
pub open spec fn chosen_track(
    sheet: Seq<char>,
    img: Reads,
    img_path: Seq<char>,
    img_exists: bool,
) -> Result<TrackView, Seq<char>> {
    if !img_exists {
        Err("IMG file not found: "@ + img_path)
    } else {
        match data_entry(entries_of(sheet), 0) {
            None => Err("No data track found in CCD"@),
            Some(e) => {
                let start = entry_start(e);
                let offset = track::format_at(img, start as int).1;
                Ok(
                    TrackView {
                        bin_path: img_path,
                        track_offset: start,
                        user_data_offset: if offset == 0 {
                            16
                        } else {
                            offset
                        },
                        stride: RAW_SECTOR_SIZE,
                        lba_offset: track::lba_at(img, start as int),
                        descramble: false,
                        sector_count: 0,
                    },
                )
            },
        }
    }
}

impl CcdScan {
    /// Adds the present entry, if it is complete and of a track.
    pub fn flush(&mut self)
        ensures
            final(self)@ == (CcdView { entries: flushed(old(self)@), ..old(self)@ }),
    {
        if self.in_entry {
            if let (Some(point), Some(control), Some(plba)) = (
                self.point,
                self.control,
                self.plba,
            ) {
                if 1 <= point && point <= 99 {
                    self.entries.push(CcdEntry { control, plba });
                }
            }
        }
    }

    /// Takes in a line.
    pub fn step(&mut self, line: &[char])
        ensures
            final(self)@ == scanned(old(self)@, line@),
    {
        let t: Vec<char> = trim(line);
        if starts_with(t.as_slice(), "[") {
            self.flush();
            let low: Vec<char> = to_ascii_lower(t.as_slice());
            self.in_entry = starts_with(low.as_slice(), "[entry");
            self.point = None;
            self.control = None;
            self.plba = None;
            return ;
        }
        if !self.in_entry {
            return ;
        }
        let len: usize = t.len();
        proof {
            text::lemma_find_char(t@, 0, '=');
        }
        let eq: usize = find_char_from(t.as_slice(), 0, '=');
        if eq >= len {
            return ;
        }
        assert(t@.subrange(0, eq as int) =~= t@.take(eq as int));
        assert(t@.subrange(eq + 1, len as int) =~= t@.skip(eq + 1));
        let left: Vec<char> = cut_chars(t.as_slice(), 0, eq);
        let value: Vec<char> = cut_chars(t.as_slice(), eq + 1, len);
        let bare: Vec<char> = trim(left.as_slice());
        let key: Vec<char> = to_ascii_lower(bare.as_slice());
        if is_text(key.as_slice(), "point") {
            let v: i64 = parse_int_ccd(value.as_slice());
            self.point = Some(#[verifier::truncate] (v as i32));
        } else if is_text(key.as_slice(), "control") {
            let v: i64 = parse_int_ccd(value.as_slice());
            self.control = Some(#[verifier::truncate] (v as u32));
        } else if is_text(key.as_slice(), "plba") {
            let v: Vec<char> = trim(value.as_slice());
            self.plba =
            Some(
                match parse_signed(v.as_slice(), 10) {
                    Some(n) => n,
                    None => 0,
                },
            );
        }
    }
}

/// Reads the entries of a control file.
pub fn read_entries(sheet: &str) -> (r: Vec<CcdEntry>)
    ensures
        r@ == entries_of(sheet@),
{
    let chars: Vec<char> = chars_of(sheet);
    let rows: Vec<Vec<char>> = lines(chars.as_slice());
    let ghost all = text::lines_of(sheet@);
    let mut s: CcdScan = CcdScan {
        in_entry: false,
        point: None,
        control: None,
        plba: None,
        entries: Vec::new(),
    };
    assert(s.entries@ =~= seq![]);
    let mut i: usize = 0;
    while i < rows.len()
        invariant
            i <= rows@.len(),
            all == text::texts(rows@),
            s@ == scan_of(all, i as int),
        decreases rows@.len() - i,
    {
        s.step(rows[i].as_slice());
        assert(all[i as int] == rows@[i as int]@);
        i += 1;
    }
    s.flush();
    s.entries
}

/// Finds the first data entry.
fn find_data_entry(entries: &Vec<CcdEntry>) -> (r: Option<CcdEntry>)
    ensures
        r == data_entry(entries@, 0),
        r matches Some(e) ==> e.plba >= 0,
{
    let mut k: usize = 0;
    while k < entries.len()
        invariant
            k <= entries@.len(),
            data_entry(entries@, k as int) == data_entry(entries@, 0),
        decreases entries@.len() - k,
    {
        let e: CcdEntry = entries[k];
        if e.control & 0x04 != 0 && e.plba >= 0 {
            return Some(e);
        }
        k += 1;
    }
    None
}

/// Finds the data track of an image: `img` holds the raw sectors that go with the
/// control file.
pub fn parse_ccd_for_data_track<S: ByteSource>(
    sheet: &str,
    img: &mut S,
    img_path: &str,
    img_exists: bool,
) -> (r: Result<DataTrack, String>)
    ensures
        final(img).reads() == old(img).reads(),
        track::track_outcome(r) == chosen_track(
            sheet@,
            old(img).reads(),
            img_path@,
            img_exists,
        ),
{
    if !img_exists {
        return Err(join2("IMG file not found: ", img_path));
    }
    let entries: Vec<CcdEntry> = read_entries(sheet);
    match find_data_entry(&entries) {
        None => Err("No data track found in CCD".to_owned()),
        Some(e) => {
            let n: u64 = e.plba as u64;
            let start: u64 = n.wrapping_mul(RAW_SECTOR_SIZE);
            assert(start == entry_start(e));
            let (_, offset): (u64, u64) = detect_sector_format_at(img, start);
            let lba_offset: u64 = sector_lba_at(img, start);
            Ok(
                DataTrack {
                    bin_path: img_path.to_owned(),
                    track_offset: start,
                    user_data_offset: if offset == 0 {
                        16
                    } else {
                        offset
                    },
                    stride: RAW_SECTOR_SIZE,
                    lba_offset,
                    descramble: false,
                    sector_count: 0,
                },
            )
        },
    }
}

/// A number is read as it was written: in decimal, or behind `0x` in hexadecimal.
pub proof fn written_numbers_are_read(n: int)
    requires
        0 <= n <= 0x7fff_ffff_ffff_ffff,
    ensures
        parsed_int(numbers::decimal(n)) == n,
        parsed_int("0x"@ + numbers::numeral(n, 16)) == n,
        parsed_decimal(numbers::decimal(n)) == n,
        parsed_decimal(seq!['-'] + numbers::decimal(n)) == -n,
{
    let none = Seq::<char>::empty();
    let d = numbers::decimal(n);
    let h = numbers::numeral(n, 16);
    reveal_strlit("0x");
    reveal_strlit("0X");
    numbers::written_numbers_are_read_back(n, 10, 0x7fff_ffff_ffff_ffff);
    numbers::written_numbers_are_read_back(n, 16, 0x7fff_ffff_ffff_ffff);
    numbers::a_numeral_spells_its_number(n, 10);
    numbers::a_numeral_spells_its_number(n, 16);
    assert(0 <= numbers::digit_value(d[0]) < 10);
    assert(0 <= numbers::digit_value(d.last()) < 10);
    assert(0 <= numbers::digit_value(h.last()) < 16);
    text::trimming_takes_the_white_space(none, d, none);
    let x = "0x"@ + h;
    assert(x[0] == '0' && x[1] == 'x');
    assert(x.last() == h.last());
    text::trimming_takes_the_white_space(none, x, none);
    assert(x.subrange(0, 2) =~= "0x"@);
    assert(x.skip(2) =~= h);
    let m = seq!['-'] + d;
    assert(m[0] == '-');
    assert(m.last() == d.last());
    text::trimming_takes_the_white_space(none, m, none);
    if text::begins(d, "0x"@) {
        assert(d.subrange(0, 2)[1] == d[1]);
        assert(0 <= numbers::digit_value(d[1]) < 10);
        assert(numbers::digit_value('x') == -1);
    }
    if text::begins(d, "0X"@) {
        assert(d.subrange(0, 2)[1] == d[1]);
        assert(0 <= numbers::digit_value(d[1]) < 10);
        assert(numbers::digit_value('X') == -1);
    }
}

/// A line `key=value` gives the present entry its value, whatever the case of the key.
pub proof fn a_line_sets_its_key(s: CcdView, key: Seq<char>, value: Seq<char>)
    requires
        s.in_entry,
        key.len() > 0,
        value.len() > 0,
        key[0] != '[',
        !text::is_white(key[0]),
        !text::is_white(key.last()),
        !text::is_white(value.last()),
        !key.contains('='),
    ensures
        ({
            let t = scanned(s, key + seq!['='] + value);
            &&& text::lowered(key) == "point"@ ==> t == (CcdView {
                point: Some(parsed_int(value) as i32),
                ..s
            })
            &&& text::lowered(key) == "control"@ ==> t == (CcdView {
                control: Some(parsed_int(value) as u32),
                ..s
            })
            &&& text::lowered(key) == "plba"@ ==> t == (CcdView {
                plba: Some(parsed_decimal(value)),
                ..s
            })
        }),
{
    let none = Seq::<char>::empty();
    let line = key + seq!['='] + value;
    assert(line[0] == key[0]);
    assert(line.last() == value.last());
    text::trimming_takes_the_white_space(none, line, none);
    text::trimming_takes_the_white_space(none, key, none);
    text::lemma_find_char(line, 0, '=');
    let eq = text::find_char(line, 0, '=');
    assert(line[key.len() as int] == '=');
    assert(eq == key.len()) by {
        if eq < key.len() {
            assert(line[eq] == key[eq]);
            assert(key.contains(key[eq]));
        }
    }
    assert(line.take(eq) =~= key);
    assert(line.skip(eq + 1) =~= value);
    reveal_strlit("[");
    reveal_strlit("point");
    reveal_strlit("control");
    reveal_strlit("plba");
    assert("point"@.len() == 5 && "control"@.len() == 7 && "plba"@.len() == 4);
    if text::begins(line, "["@) {
        assert(line.subrange(0, 1)[0] == line[0]);
    }
}

/// An entry of a track counts once its section ends; the data track is that of the first such
/// entry whose third control bit is set, and it starts at that sector's place in raw sectors.
pub proof fn an_entry_tells_its_track(
    before: Seq<CcdEntry>,
    point: i32,
    control: u32,
    plba: i64,
    rest: Seq<CcdEntry>,
)
    requires
        1 <= point <= 99,
        (control / 4) % 2 == 1,
        0 <= plba,
        2352 * plba <= u64::MAX,
        forall|k: int|
            0 <= k < before.len() ==> ((#[trigger] before[k]).control / 4) % 2 == 0
                || before[k].plba < 0,
    ensures
        ({
            let s = CcdView {
                in_entry: true,
                point: Some(point),
                control: Some(control),
                plba: Some(plba),
                entries: before,
            };
            let e = CcdEntry { control, plba };
            &&& flushed(s) == before.push(e)
            &&& data_entry(flushed(s) + rest, 0) == Some(e)
            &&& entry_start(e) == 2352 * plba
        }),
{
    let e = CcdEntry { control, plba };
    lemma_first_data(before, e, rest, 0);
}

/// The first data entry stands behind those that are none.
proof fn lemma_first_data(before: Seq<CcdEntry>, e: CcdEntry, rest: Seq<CcdEntry>, k: int)
    requires
        (e.control / 4) % 2 == 1,
        0 <= e.plba,
        forall|k: int|
            0 <= k < before.len() ==> ((#[trigger] before[k]).control / 4) % 2 == 0
                || before[k].plba < 0,
        0 <= k <= before.len(),
    ensures
        data_entry(before.push(e) + rest, k) == Some(e),
    decreases before.len() - k,
{
    let all = before.push(e) + rest;
    let c = all[k].control;
    assert((c & 0x04 != 0) == ((c / 4) % 2 == 1)) by (bit_vector);
    if k < before.len() {
        assert(all[k] == before[k]);
        lemma_first_data(before, e, rest, k + 1);
    } else {
        assert(all[k] == e);
    }
}

} // verus!
