//! Raw dumps of scrambled discs: CD sectors, DVD recording frames, Blu-ray frames.
use vstd::prelude::*;
use crate::bytes::{cut, read_u24_be};
use crate::bytes;
use crate::ecm_reader;
use crate::iso_volume;
use crate::iso_volume::{joliet_descriptor, push_text, Sectors};
use crate::numbers;
use crate::numbers::parse_signed;
use crate::path;
use crate::path::equal_paths;
use crate::sector::RAW_SECTOR_SIZE;
use crate::source;
use crate::source::{read_wide, ByteSource, Reads};
use crate::text;
use crate::text::{chars_of, cut_chars, find_str, lines, trim, trim_end_of, words};
use crate::track;
use crate::track::{descramble_sector, DataTrack, TrackView};

verus! {

// ── DVD ─────────────────────────────────────────────────────────────────────

/// The next state of the DVD scrambler's register.
pub open spec fn dvd_step(sr: u16) -> u16 {
    ((sr << 1) | (((sr >> 14) ^ (sr >> 10)) & 1)) & 0x7FFF
}

/// The register after `n` steps.
pub open spec fn dvd_state(sr: u16, n: int) -> u16
    decreases n,
{
    if n <= 0 {
        sr
    } else {
        dvd_step(dvd_state(sr, n - 1))
    }
}

/// The byte that the low bits of the register make over `n` steps.
pub open spec fn dvd_byte(sr: u16, n: int) -> u8
    decreases n,
{
    if n <= 0 {
        0
    } else {
        dvd_byte(sr, n - 1) | (((dvd_state(sr, n - 1) & 1) as u8) << ((n - 1) as u8))
    }
}

/// The register before the byte `i` of the table.
pub open spec fn dvd_register(i: int) -> u16
    decreases i,
{
    if i <= 0 {
        1
    } else {
        dvd_state(dvd_register(i - 1), 8)
    }
}

/// The DVD scrambler's table: sixteen runs of 2048 bytes.
pub open spec fn dvd_table() -> Seq<u8> {
    Seq::new(32768, |i: int| dvd_byte(dvd_register(i), 8))
}

/// Makes the DVD scrambler's table.
pub fn dvd_scramble_table() -> (r: Vec<u8>)
    ensures
        r@ == dvd_table(),
{
    let mut sr: u16 = 1;
    let mut table: Vec<u8> = Vec::new();
    while table.len() < 32768
        invariant
            table@.len() <= 32768,
            sr == dvd_register(table@.len() as int),
            forall|j: int| 0 <= j < table@.len() ==> table@[j] == #[trigger] dvd_table()[j],
        decreases 32768 - table@.len(),
    {
        let ghost start = sr;
        let ghost at = table@.len() as int;
        let mut v: u8 = 0;
        let mut b: u8 = 0;
        while b < 8
            invariant
                b <= 8,
                sr == dvd_state(start, b as int),
                v == dvd_byte(start, b as int),
            decreases 8 - b,
        {
            v = v | (((sr & 1) as u8) << b);
            sr = ((sr << 1) | (((sr >> 14) ^ (sr >> 10)) & 1)) & 0x7FFF;
            b += 1;
        }
        assert(dvd_table()[at] == v);
        table.push(v);
    }
    assert(table@ =~= dvd_table());
    table
}

/// A data frame out of a recording frame: of each row of 182 bytes the first 172.
pub open spec fn data_frame(frame: Seq<u8>) -> Seq<u8> {
    Seq::new(2064, |i: int| frame[i / 172 * 182 + i % 172])
}

/// A data frame out of a recording frame.
#[verifier::loop_isolation(false)]
pub fn recording_frame_to_df(frame: &[u8]) -> (r: Vec<u8>)
    requires
        frame@.len() == 2366,
    ensures
        r@ == data_frame(frame@),
{
    let mut df: Vec<u8> = Vec::new();
    while df.len() < 2064
        invariant
            df@.len() <= 2064,
            forall|j: int| 0 <= j < df@.len() ==> df@[j] == #[trigger] data_frame(frame@)[j],
        decreases 2064 - df@.len(),
    {
        let i: usize = df.len();
        let b: u8 = frame[i / 172 * 182 + i % 172];
        assert(data_frame(frame@)[i as int] == b);
        df.push(b);
    }
    assert(df@ =~= data_frame(frame@));
    df
}

/// Where the run of the table starts that a data frame is scrambled with: by its
/// sector number.
pub open spec fn dvd_run(df: Seq<u8>) -> int {
    bytes::be24_at(df, 1) / 16 % 16 * 2048
}

/// A data frame with the scrambling of its 2048 bytes of data undone.
pub open spec fn dvd_descrambled(df: Seq<u8>, table: Seq<u8>) -> Seq<u8> {
    Seq::new(
        df.len(),
        |i: int|
            if 12 <= i < 2060 {
                df[i] ^ table[dvd_run(df) + i - 12]
            } else {
                df[i]
            },
    )
}

/// Scrambling a data frame twice gives it back.
pub proof fn dvd_scrambling_twice_changes_nothing(df: Seq<u8>, table: Seq<u8>)
    requires
        df.len() == 2064,
    ensures
        dvd_descrambled(dvd_descrambled(df, table), table) == df,
{
    let once = dvd_descrambled(df, table);
    assert(dvd_run(once) == dvd_run(df));
    assert forall|i: int| 0 <= i < df.len() implies dvd_descrambled(once, table)[i] == df[i] by {
        if 12 <= i < 2060 {
            let a = df[i];
            let b = table[dvd_run(df) + i - 12];
            assert((a ^ b) ^ b == a) by (bit_vector);
        }
    }
    assert(dvd_descrambled(once, table) =~= df);
}

/// Undoes the scrambling of a data frame.
#[verifier::loop_isolation(false)]
pub fn dvd_descramble(df: &[u8], table: &[u8]) -> (r: Vec<u8>)
    requires
        df@.len() == 2064,
        table@.len() == 32768,
    ensures
        r@ == dvd_descrambled(df@, table@),
{
    let psn: u32 = read_u24_be(df, 1);
    let run: usize = (psn / 16 % 16) as usize * 2048;
    let mut out: Vec<u8> = Vec::new();
    while out.len() < 2064
        invariant
            out@.len() <= 2064,
            forall|j: int|
                0 <= j < out@.len() ==> out@[j] == #[trigger] dvd_descrambled(df@, table@)[j],
        decreases 2064 - out@.len(),
    {
        let i: usize = out.len();
        let b: u8 = if 12 <= i && i < 2060 {
            df[i] ^ table[run + i - 12]
        } else {
            df[i]
        };
        assert(dvd_descrambled(df@, table@)[i as int] == b);
        out.push(b);
    }
    assert(out@ =~= dvd_descrambled(df@, table@));
    out
}

/// The sector of a DVD dump: its first frame is that of sector -0x30000.
pub open spec fn dvd_sector(reads: Reads, lba: int) -> Result<Seq<u8>, Seq<char>> {
    match source::reach(reads, (lba + 0x30000) * 2366, 2366) {
        Err(e) => Err(e),
        Ok(f) => Ok(dvd_descrambled(data_frame(f), dvd_table()).subrange(12, 2060)),
    }
}

/// A dump of a DVD.
pub struct SdramReader<S> {
    pub source: S,
    pub table: Vec<u8>,
}

impl<S: ByteSource> SdramReader<S> {
    /// Whether the table is the scrambler's.
    pub open spec fn wf(&self) -> bool {
        self.table@ == dvd_table()
    }

    /// A dump.
    pub fn new(source: S) -> (r: SdramReader<S>)
        ensures
            r.wf(),
            r.source.reads() == source.reads(),
    {
        SdramReader { source, table: dvd_scramble_table() }
    }

    /// Reads up to `n` bytes of a sector.
    pub fn read_at(&mut self, lba: u64, n: usize) -> (r: Result<Vec<u8>, String>)
        requires
            old(self).wf(),
        ensures
            final(self).wf(),
            final(self).source.reads() == old(self).source.reads(),
            source::outcome(r) == (match dvd_sector(old(self).source.reads(), lba as int) {
                Err(e) => Err(e),
                Ok(s) => Ok(s.take(ecm_reader::lesser(n as int, 2048))),
            }),
            r matches Ok(b) ==> b@.len() == ecm_reader::lesser(n as int, 2048),
    {
        let pos: u128 = (lba as u128 + 0x30000) * 2366;
        match read_wide(&mut self.source, pos, 2366, "") {
            Err(e) => {
                proof {
                    reveal_strlit("");
                    let whole = source::reach(old(self).source.reads(), pos as int, 2366)->Err_0;
                    assert(""@ + whole =~= whole);
                }
                Err(e)
            },
            Ok(f) => {
                let df: Vec<u8> = recording_frame_to_df(f.as_slice());
                let d: Vec<u8> = dvd_descramble(df.as_slice(), self.table.as_slice());
                let m: usize = if n < 2048 {
                    n
                } else {
                    2048
                };
                assert(d@.subrange(12, 2060).take(m as int) =~= d@.subrange(12, 12 + m));
                Ok(cut(d.as_slice(), 12, 12 + m))
            },
        }
    }
}

// ── Blu-ray ─────────────────────────────────────────────────────────────────

/// The next state of the Blu-ray scrambler's register.
pub open spec fn bd_step(sr: u16) -> u16 {
    (sr << 1) | (((sr >> 15) ^ (sr >> 14) ^ (sr >> 12) ^ (sr >> 3)) & 1)
}

/// The register after `n` steps.
pub open spec fn bd_state(sr: u16, n: int) -> u16
    decreases n,
{
    if n <= 0 {
        sr
    } else {
        bd_step(bd_state(sr, n - 1))
    }
}

/// The byte that the low bits of the register make over `n` steps.
pub open spec fn bd_byte(sr: u16, n: int) -> u8
    decreases n,
{
    if n <= 0 {
        0
    } else {
        bd_byte(sr, n - 1) | (((bd_state(sr, n - 1) & 1) as u8) << ((n - 1) as u8))
    }
}

/// The register before the first byte of a sector: its high bit is set.
pub open spec fn bd_seed(lba: int) -> u16 {
    (0x8000 + (lba + 0x100000) / 32 % 0x8000) as u16
}

/// The register before the byte `i` of a sector.
pub open spec fn bd_register(lba: int, i: int) -> u16
    decreases i,
{
    if i <= 0 {
        bd_seed(lba)
    } else {
        bd_state(bd_register(lba, i - 1), 8)
    }
}

/// A Blu-ray sector with its scrambling undone.
pub open spec fn bd_descrambled(s: Seq<u8>, lba: int) -> Seq<u8> {
    Seq::new(s.len(), |i: int| s[i] ^ bd_byte(bd_register(lba, i), 8))
}

/// Scrambling a Blu-ray sector twice gives it back.
pub proof fn bd_scrambling_twice_changes_nothing(s: Seq<u8>, lba: int)
    ensures
        bd_descrambled(bd_descrambled(s, lba), lba) == s,
{
    let once = bd_descrambled(s, lba);
    assert forall|i: int| 0 <= i < s.len() implies bd_descrambled(once, lba)[i] == s[i] by {
        let a = s[i];
        let b = bd_byte(bd_register(lba, i), 8);
        assert((a ^ b) ^ b == a) by (bit_vector);
    }
    assert(bd_descrambled(once, lba) =~= s);
}

/// Undoes the scrambling of a Blu-ray sector.
#[verifier::loop_isolation(false)]
pub fn bd_descramble(s: &[u8], lba: u64) -> (r: Vec<u8>)
    ensures
        r@ == bd_descrambled(s@, lba as int),
{
    let seed: u128 = 0x8000 + (lba as u128 + 0x100000) / 32 % 0x8000;
    let mut sr: u16 = seed as u16;
    let mut out: Vec<u8> = Vec::new();
    while out.len() < s.len()
        invariant
            out@.len() <= s@.len(),
            sr == bd_register(lba as int, out@.len() as int),
            forall|j: int|
                0 <= j < out@.len() ==> out@[j] == #[trigger] bd_descrambled(s@, lba as int)[j],
        decreases s@.len() - out@.len(),
    {
        let i: usize = out.len();
        let ghost start = sr;
        let mut v: u8 = 0;
        let mut b: u8 = 0;
        while b < 8
            invariant
                b <= 8,
                sr == bd_state(start, b as int),
                v == bd_byte(start, b as int),
            decreases 8 - b,
        {
            v = v | (((sr & 1) as u8) << b);
            sr = (sr << 1) | (((sr >> 15) ^ (sr >> 14) ^ (sr >> 12) ^ (sr >> 3)) & 1);
            b += 1;
        }
        assert(bd_descrambled(s@, lba as int)[i as int] == s@[i as int] ^ v);
        out.push(s[i] ^ v);
    }
    assert(out@ =~= bd_descrambled(s@, lba as int));
    out
}

/// The sector of a Blu-ray dump: its first frame is that of sector -0x100000. The
/// dump's own first sector is the disc's sector `base`.
pub open spec fn bd_sector(reads: Reads, base: int, lba: int) -> Result<Seq<u8>, Seq<char>> {
    match source::reach(reads, (lba + 0x100000) * 2052, 2052) {
        Err(e) => Err(e),
        Ok(f) => Ok(bd_descrambled(f.take(2048), base + lba)),
    }
}

/// A dump of a Blu-ray disc.
pub struct SbramReader<S> {
    pub source: S,
    pub lba_base: u64,
}

impl<S: ByteSource> SbramReader<S> {
    /// Reads up to `n` bytes of a sector.
    pub fn read_at(&mut self, lba: u64, n: usize) -> (r: Result<Vec<u8>, String>)
        requires
            old(self).lba_base + lba <= u64::MAX,
        ensures
            final(self).source.reads() == old(self).source.reads(),
            final(self).lba_base == old(self).lba_base,
            source::outcome(r) == (match bd_sector(
                old(self).source.reads(),
                old(self).lba_base as int,
                lba as int,
            ) {
                Err(e) => Err(e),
                Ok(s) => Ok(s.take(ecm_reader::lesser(n as int, 2048))),
            }),
            r matches Ok(b) ==> b@.len() == ecm_reader::lesser(n as int, 2048) && bd_sector(
                old(self).source.reads(),
                old(self).lba_base as int,
                lba as int,
            )->Ok_0.len() == 2048,
    {
        let pos: u128 = (lba as u128 + 0x100000) * 2052;
        match read_wide(&mut self.source, pos, 2052, "") {
            Err(e) => {
                proof {
                    reveal_strlit("");
                    let whole = source::reach(old(self).source.reads(), pos as int, 2052)->Err_0;
                    assert(""@ + whole =~= whole);
                }
                Err(e)
            },
            Ok(f) => {
                let data: Vec<u8> = cut(f.as_slice(), 0, 2048);
                assert(f@.subrange(0, 2048) =~= f@.take(2048));
                let d: Vec<u8> = bd_descramble(data.as_slice(), self.lba_base + lba);
                let m: usize = if n < 2048 {
                    n
                } else {
                    2048
                };
                assert(d@.take(m as int) =~= d@.subrange(0, m as int));
                Ok(cut(d.as_slice(), 0, m))
            },
        }
    }
}

// ── What dumps hold ─────────────────────────────────────────────────────────

/// The Joliet descriptors from `lba` on, up to the last descriptor or sector 32.
pub open spec fn joliet_from(sectors: Sectors, lba: int) -> Seq<Seq<char>>
    decreases 32 - lba,
{
    if lba >= 32 {
        seq![]
    } else {
        match sectors(lba) {
            None => seq![],
            Some(d) => if d[0] == 0xFF {
                seq![]
            } else if iso_volume::is_joliet(d) {
                seq!["Joliet"@] + joliet_from(sectors, lba + 1)
            } else {
                joliet_from(sectors, lba + 1)
            },
        }
    }
}

/// The file systems of a dump: always the plain one, and Joliet where there is a
/// volume descriptor and a Joliet one behind it.
pub open spec fn dump_systems(sectors: Sectors) -> Seq<Seq<char>> {
    let joliet = match sectors(16) {
        Some(d) => if d[0] == 1 && bytes::spells(d, 1, "CD001"@) {
            joliet_from(sectors, 17)
        } else {
            seq![]
        },
        None => seq![],
    };
    seq!["ISO 9660"@] + joliet
}

/// A sector that could be read.
pub open spec fn readable(r: Result<Seq<u8>, Seq<char>>) -> Option<Seq<u8>> {
    match r {
        Ok(b) => Some(b),
        Err(_) => None,
    }
}

/// The sectors of a DVD dump.
pub open spec fn dvd_sectors(reads: Reads) -> Sectors {
    |lba: int| readable(dvd_sector(reads, lba))
}

/// The sectors of a Blu-ray dump.
pub open spec fn bd_sectors(reads: Reads) -> Sectors {
    |lba: int| readable(bd_sector(reads, 0, lba))
}

/// Finds the file systems of a DVD dump.
#[verifier::loop_isolation(false)]
pub fn detect_filesystems_redumper_dvd<S: ByteSource>(source: S) -> (r: Vec<String>)
    ensures
        text::views(r@) == dump_systems(dvd_sectors(source.reads())),
{
    let ghost reads = source.reads();
    let ghost sectors = dvd_sectors(reads);
    let mut reader: SdramReader<S> = SdramReader::new(source);
    let mut out: Vec<String> = Vec::new();
    assert(text::views(out@) =~= seq![]);
    push_text(&mut out, "ISO 9660");
    assert(text::views(out@) =~= seq!["ISO 9660"@]);
    let head: Vec<u8> = match reader.read_at(16, 2048) {
        Ok(d) => d,
        Err(_) => {
            assert(sectors(16) is None);
            assert(dump_systems(sectors) =~= seq!["ISO 9660"@]);
            return out;
        },
    };
    proof {
        let whole = dvd_sector(reads, 16)->Ok_0;
        assert(whole.take(2048) =~= whole);
        assert(sectors(16) == Some(head@));
    }
    if head[0] != 1 || !bytes::spells_at(head.as_slice(), 1, "CD001") {
        assert(dump_systems(sectors) =~= seq!["ISO 9660"@]);
        return out;
    }
    let ghost goal = dump_systems(sectors);
    let mut lba: u64 = 17;
    while lba < 32
        invariant
            17 <= lba <= 32,
            reader.wf(),
            reader.source.reads() == reads,
            text::views(out@) + joliet_from(sectors, lba as int) == goal,
        decreases 32 - lba,
    {
        let ghost before = text::views(out@);
        let d: Vec<u8> = match reader.read_at(lba, 2048) {
            Ok(d) => d,
            Err(_) => {
                assert(sectors(lba as int) is None);
                assert(before + seq![] =~= before);
                return out;
            },
        };
        proof {
            let whole = dvd_sector(reads, lba as int)->Ok_0;
            assert(whole.take(2048) =~= whole);
            assert(sectors(lba as int) == Some(d@));
        }
        if d[0] == 0xFF {
            assert(before + seq![] =~= before);
            return out;
        }
        if joliet_descriptor(d.as_slice()) {
            let ghost rest = joliet_from(sectors, lba + 1);
            push_text(&mut out, "Joliet");
            assert(before + (seq!["Joliet"@] + rest) =~= before.push("Joliet"@) + rest);
        }
        lba += 1;
    }
    assert(text::views(out@) + seq![] =~= text::views(out@));
    out
}

/// Finds the file systems of a Blu-ray dump.
#[verifier::loop_isolation(false)]
pub fn detect_filesystems_redumper_bd<S: ByteSource>(source: S) -> (r: Vec<String>)
    ensures
        text::views(r@) == dump_systems(bd_sectors(source.reads())),
{
    let ghost reads = source.reads();
    let ghost sectors = bd_sectors(reads);
    let mut reader: SbramReader<S> = SbramReader { source, lba_base: 0 };
    let mut out: Vec<String> = Vec::new();
    assert(text::views(out@) =~= seq![]);
    push_text(&mut out, "ISO 9660");
    assert(text::views(out@) =~= seq!["ISO 9660"@]);
    let head: Vec<u8> = match reader.read_at(16, 2048) {
        Ok(d) => d,
        Err(_) => {
            assert(sectors(16) is None);
            assert(dump_systems(sectors) =~= seq!["ISO 9660"@]);
            return out;
        },
    };
    proof {
        let whole = bd_sector(reads, 0, 16)->Ok_0;
        assert(whole.take(2048) =~= whole);
        assert(sectors(16) == Some(head@));
    }
    if head[0] != 1 || !bytes::spells_at(head.as_slice(), 1, "CD001") {
        assert(dump_systems(sectors) =~= seq!["ISO 9660"@]);
        return out;
    }
    let ghost goal = dump_systems(sectors);
    let mut lba: u64 = 17;
    while lba < 32
        invariant
            17 <= lba <= 32,
            reader.lba_base == 0,
            reader.source.reads() == reads,
            text::views(out@) + joliet_from(sectors, lba as int) == goal,
        decreases 32 - lba,
    {
        let ghost before = text::views(out@);
        let d: Vec<u8> = match reader.read_at(lba, 2048) {
            Ok(d) => d,
            Err(_) => {
                assert(sectors(lba as int) is None);
                assert(before + seq![] =~= before);
                return out;
            },
        };
        proof {
            let whole = bd_sector(reads, 0, lba as int)->Ok_0;
            assert(whole.take(2048) =~= whole);
            assert(sectors(lba as int) == Some(d@));
        }
        if d[0] == 0xFF {
            assert(before + seq![] =~= before);
            return out;
        }
        if joliet_descriptor(d.as_slice()) {
            let ghost rest = joliet_from(sectors, lba + 1);
            push_text(&mut out, "Joliet");
            assert(before + (seq!["Joliet"@] + rest) =~= before.push("Joliet"@) + rest);
        }
        lba += 1;
    }
    assert(text::views(out@) + seq![] =~= text::views(out@));
    out
}

// ── Scrambled CD sectors ────────────────────────────────────────────────────

/// The length of the runs that a dump is searched in.
pub const SCAN_RUN: u64 = 8388608;

/// The bytes of two raw sectors.
pub const TWO_SECTORS: u64 = 4704;

/// Whether a byte is in binary-coded decimal.
pub open spec fn is_bcd(b: u8) -> bool {
    b / 16 <= 9 && b % 16 <= 9
}

/// The disc's sector whose scrambled header stands at `at`, if one does.
pub open spec fn scrambled_lba(w: Seq<u8>, at: int, table: Seq<u8>) -> Option<int> {
    let m = w[at + 12] ^ table[0];
    let s = w[at + 13] ^ table[1];
    let f = w[at + 14] ^ table[2];
    let mode = w[at + 15] ^ table[3];
    if at + 16 > w.len() || !bytes::has_at(w, at, track::sync_pattern()) || (mode != 1 && mode != 2)
        || !is_bcd(m) || !is_bcd(s) || !is_bcd(f) || track::bcd(s) >= 60 || track::bcd(f) >= 75 {
        None
    } else {
        Some((track::bcd(m) * 60 + track::bcd(s)) * 75 + track::bcd(f) - 150)
    }
}

/// Whether a sector stands at `i` whose number the next one confirms.
pub open spec fn confirmed(w: Seq<u8>, i: int, table: Seq<u8>) -> bool {
    0 <= i && i + TWO_SECTORS <= w.len() && (scrambled_lba(w, i, table) matches Some(n)
        && scrambled_lba(w, i + 2352, table) == Some(n + 1))
}

/// The first confirmed sector of `w` from `i` on.
pub open spec fn first_confirmed(w: Seq<u8>, i: int, table: Seq<u8>) -> Option<int>
    decreases w.len() - i,
{
    if i < 0 || i + TWO_SECTORS > w.len() {
        None
    } else if confirmed(w, i, table) {
        Some(i)
    } else {
        first_confirmed(w, i + 1, table)
    }
}

/// A sector that a dump can be anchored on: where it stands, its number and its
/// mode.
#[derive(Clone, Copy)]
pub struct Anchor {
    pub pos: u64,
    pub lba: i64,
    pub mode: u8,
}

/// The anchor at `i` of the bytes `w` that stand at `at`.
pub open spec fn anchor_at(w: Seq<u8>, i: int, at: int, table: Seq<u8>) -> Anchor {
    Anchor {
        pos: (at + i) as u64,
        lba: (scrambled_lba(w, i, table)->0) as i64,
        mode: w[i + 15] ^ table[3],
    }
}

/// The lesser of two numbers.
pub open spec fn lesser(a: int, b: int) -> int {
    if a < b {
        a
    } else {
        b
    }
}

/// The first anchor from `at` up to `end`. Runs overlap by two sectors.
pub open spec fn anchor_from(reads: Reads, table: Seq<u8>, at: int, end: int) -> Option<Anchor>
    decreases end - at,
{
    let n = lesser(SCAN_RUN + TWO_SECTORS, end - at);
    if at < 0 || at + TWO_SECTORS > end {
        None
    } else {
        match reads(at, n) {
            Err(_) => None,
            Ok(w) => match first_confirmed(w, 0, table) {
                Some(i) => Some(anchor_at(w, i, at, table)),
                None => if at + n >= end {
                    None
                } else {
                    anchor_from(reads, table, at + SCAN_RUN, end)
                },
            },
        }
    }
}

/// The first confirmed sector is one, and there is none before it.
proof fn lemma_first_confirmed(w: Seq<u8>, i: int, table: Seq<u8>)
    requires
        0 <= i,
    ensures
        match first_confirmed(w, i, table) {
            Some(k) => i <= k && confirmed(w, k, table) && forall|j: int|
                i <= j < k ==> !#[trigger] confirmed(w, j, table),
            None => forall|j: int| i <= j ==> !#[trigger] confirmed(w, j, table),
        },
    decreases w.len() - i,
{
    if i + TWO_SECTORS <= w.len() && !confirmed(w, i, table) {
        lemma_first_confirmed(w, i + 1, table);
    }
}

/// A sector is confirmed within a run just as it is within the whole image.
proof fn lemma_run_confirmed(image: Seq<u8>, at: int, n: int, j: int, table: Seq<u8>)
    requires
        0 <= at,
        0 <= n,
        at + n <= image.len(),
        0 <= j,
        j + TWO_SECTORS <= n,
    ensures
        confirmed(image.subrange(at, at + n), j, table) == confirmed(image, at + j, table),
        scrambled_lba(image.subrange(at, at + n), j, table) == scrambled_lba(
            image,
            at + j,
            table,
        ),
{
    let w = image.subrange(at, at + n);
    let p = track::sync_pattern();
    assert(w.subrange(j, j + 12) =~= image.subrange(at + j, at + j + 12));
    assert(w.subrange(j + 2352, j + 2364) =~= image.subrange(at + j + 2352, at + j + 2364));
    assert(bytes::has_at(w, j, p) == bytes::has_at(image, at + j, p)) by {
        assert(p.len() == 12);
    }
    assert(bytes::has_at(w, j + 2352, p) == bytes::has_at(image, at + j + 2352, p)) by {
        assert(p.len() == 12);
    }
}

/// A dump is anchored on the first sector of the range that the next sector
/// confirms.
pub proof fn the_first_confirmed_sector_is_the_anchor(
    image: Seq<u8>,
    table: Seq<u8>,
    at: int,
    end: int,
)
    requires
        0 <= at,
        end <= image.len(),
        image.len() <= u64::MAX,
    ensures
        match anchor_from(source::reads_of(image), table, at, end) {
            Some(a) => at <= a.pos && a.pos + TWO_SECTORS <= end && confirmed(
                image,
                a.pos as int,
                table,
            ) && forall|j: int| at <= j < a.pos ==> !#[trigger] confirmed(image, j, table),
            None => forall|j: int|
                at <= j && j + TWO_SECTORS <= end ==> !#[trigger] confirmed(image, j, table),
        },
    decreases end - at,
{
    let reads = source::reads_of(image);
    let n = lesser(SCAN_RUN + TWO_SECTORS, end - at);
    if at + TWO_SECTORS <= end {
        let w = image.subrange(at, at + n);
        lemma_first_confirmed(w, 0, table);
        assert forall|j: int| at <= j && j + TWO_SECTORS <= at + n implies #[trigger] confirmed(
            image,
            j,
            table,
        ) == confirmed(w, j - at, table) by {
            lemma_run_confirmed(image, at, n, j - at, table);
        }
        match first_confirmed(w, 0, table) {
            Some(i) => {
                assert(confirmed(image, at + i, table));
                assert forall|j: int| at <= j < at + i implies !#[trigger] confirmed(
                    image,
                    j,
                    table,
                ) by {
                    assert(!confirmed(w, j - at, table));
                }
            },
            None => {
                assert forall|j: int|
                    at <= j && j + TWO_SECTORS <= at + n implies !#[trigger] confirmed(
                    image,
                    j,
                    table,
                ) by {
                    assert(!confirmed(w, j - at, table));
                }
                if at + n < end {
                    the_first_confirmed_sector_is_the_anchor(image, table, at + SCAN_RUN, end);
                }
            },
        }
    }
}

/// Reads the scrambled header at `at`.
fn read_scrambled_lba(w: &[u8], at: usize, table: &[u8]) -> (r: Option<i64>)
    requires
        at + 16 <= w@.len(),
        table@.len() >= 4,
    ensures
        match r {
            Some(v) => scrambled_lba(w@, at as int, table@) == Some(v as int) && -150 <= v <= 10000000,
            None => scrambled_lba(w@, at as int, table@) is None,
        },
{
    let len: usize = w.len();
    let sync: [u8; 12] = [
        0x00, 0xFF, 0xFF, 0xFF, 0xFF, 0xFF, 0xFF, 0xFF, 0xFF, 0xFF, 0xFF, 0x00,
    ];
    assert(sync@ =~= track::sync_pattern());
    if w[at] != 0 || w[at + 1] != 0xFF {
        proof {
            if bytes::has_at(w@, at as int, track::sync_pattern()) {
                let part = w@.subrange(at as int, at + 12);
                assert(part[0] == track::sync_pattern()[0]);
                assert(part[1] == track::sync_pattern()[1]);
            }
        }
        return None;
    }
    if !bytes::bytes_at(w, at, sync.as_slice()) {
        return None;
    }
    let mode: u8 = w[at + 15] ^ table[3];
    if mode != 1 && mode != 2 {
        return None;
    }
    let m: u8 = w[at + 12] ^ table[0];
    let s: u8 = w[at + 13] ^ table[1];
    let f: u8 = w[at + 14] ^ table[2];
    if m / 16 > 9 || m % 16 > 9 || s / 16 > 9 || s % 16 > 9 || f / 16 > 9 || f % 16 > 9 {
        return None;
    }
    let mm: i64 = (m / 16) as i64 * 10 + (m % 16) as i64;
    let ss: i64 = (s / 16) as i64 * 10 + (s % 16) as i64;
    let ff: i64 = (f / 16) as i64 * 10 + (f % 16) as i64;
    if ss >= 60 || ff >= 75 {
        return None;
    }
    Some((mm * 60 + ss) * 75 + ff - 150)
}

/// Finds the first confirmed sector of `w`.
#[verifier::loop_isolation(false)]
fn find_confirmed(w: &[u8], table: &[u8]) -> (r: Option<(usize, i64)>)
    requires
        table@.len() >= 4,
    ensures
        match r {
            Some((i, n)) => first_confirmed(w@, 0, table@) == Some(i as int) && scrambled_lba(
                w@,
                i as int,
                table@,
            ) == Some(n as int) && i + TWO_SECTORS <= w@.len() && -150 <= n <= 10000000,
            None => first_confirmed(w@, 0, table@) is None,
        },
{
    let len: usize = w.len();
    let mut i: usize = 0;
    while len - i >= 4704
        invariant
            i <= len,
            first_confirmed(w@, i as int, table@) == first_confirmed(w@, 0, table@),
        decreases len - i,
    {
        if let Some(n) = read_scrambled_lba(w, i, table) {
            if let Some(next) = read_scrambled_lba(w, i + 2352, table) {
                if next == n + 1 {
                    return Some((i, n));
                }
            }
        }
        i += 1;
    }
    None
}

/// Finds the first anchor from `start` up to `end`.
#[verifier::loop_isolation(false)]
pub fn scram_scan_range<S: ByteSource>(source: &mut S, start: u64, end: u64, table: &[u8]) -> (r:
    Option<Anchor>)
    requires
        table@.len() >= 4,
    ensures
        final(source).reads() == old(source).reads(),
        r == anchor_from(old(source).reads(), table@, start as int, end as int),
        r matches Some(a) ==> a.pos <= end && -150 <= a.lba <= 10000000,
{
    let ghost reads = source.reads();
    let mut at: u64 = start;
    while at <= end && end - at >= TWO_SECTORS
        invariant
            start <= at,
            source.reads() == reads,
            anchor_from(reads, table@, at as int, end as int) == anchor_from(
                reads,
                table@,
                start as int,
                end as int,
            ),
        decreases end - at,
    {
        let n: u64 = if SCAN_RUN + TWO_SECTORS < end - at {
            SCAN_RUN + TWO_SECTORS
        } else {
            end - at
        };
        let w: Vec<u8> = match source.read_exact_at(at, n) {
            Ok(w) => w,
            Err(_) => {
                return None;
            },
        };
        match find_confirmed(w.as_slice(), table) {
            Some((i, lba)) => {
                let mode: u8 = w[i + 15] ^ table[3];
                return Some(Anchor { pos: at + i as u64, lba, mode });
            },
            None => {},
        }
        if n >= end - at {
            return None;
        }
        at = at + SCAN_RUN;
    }
    None
}

/// Where the user data of a dump's sectors starts, by the volume descriptor in
/// its sixteenth sector.
pub open spec fn probed_offset(reads: Reads, start: int, table: Seq<u8>) -> Option<u64> {
    match source::reach(reads, start + 16 * 2352, 2352) {
        Err(_) => None,
        Ok(s) => {
            let d = track::descrambled(s, table);
            if bytes::spells(d, 17, "CD001"@) || bytes::spells(d, 17, "CD-I "@) {
                Some(16)
            } else if bytes::spells(d, 25, "CD001"@) || bytes::spells(d, 25, "CD-I "@) {
                Some(24)
            } else {
                None
            }
        },
    }
}

/// Finds where the user data of a dump's sectors starts.
pub fn scram_probe_udo<S: ByteSource>(source: &mut S, start: u64, table: &[u8]) -> (r: Option<u64>)
    ensures
        final(source).reads() == old(source).reads(),
        r == probed_offset(old(source).reads(), start as int, table@),
{
    let s: Vec<u8> = match read_wide(source, start as u128 + 16 * 2352, 2352, "") {
        Ok(s) => s,
        Err(_) => {
            return None;
        },
    };
    let d: Vec<u8> = descramble_sector(s.as_slice(), table);
    let ds: &[u8] = d.as_slice();
    if bytes::spells_at(ds, 17, "CD001") || bytes::spells_at(ds, 17, "CD-I ") {
        Some(16)
    } else if bytes::spells_at(ds, 25, "CD001") || bytes::spells_at(ds, 25, "CD-I ") {
        Some(24)
    } else {
        None
    }
}

/// Where sector zero stands in a dump without a shift.
pub const NOMINAL_START: u64 = 106192800;

/// The anchor of a dump of `len` bytes: near where sector zero should stand, or
/// anywhere in its first part.
pub open spec fn dump_anchor(reads: Reads, table: Seq<u8>, len: u64) -> Option<Anchor> {
    match anchor_from(
        reads,
        table,
        NOMINAL_START - 12582912,
        lesser(NOMINAL_START + 4194304, len as int),
    ) {
        Some(a) => Some(a),
        None => anchor_from(reads, table, 0, lesser(268435456, len as int)),
    }
}

/// Where sector zero of an anchored dump stands, and where the user data of its
/// sectors starts.
pub open spec fn anchored(reads: Reads, table: Seq<u8>, len: u64) -> Option<(u64, u64)> {
    match dump_anchor(reads, table, len) {
        None => None,
        Some(a) => {
            let start = a.pos - a.lba * 2352;
            if start < 0 {
                None
            } else {
                Some(
                    (
                        start as u64,
                        match probed_offset(reads, start, table) {
                            Some(o) => o,
                            None => if a.mode == 2 {
                                24
                            } else {
                                16
                            },
                        },
                    ),
                )
            }
        },
    }
}

/// Anchors a dump.
pub fn scram_sync_anchor<S: ByteSource>(source: &mut S, len: u64, table: &[u8]) -> (r: Option<
    (u64, u64),
>)
    requires
        table@.len() >= 4,
    ensures
        final(source).reads() == old(source).reads(),
        r == anchored(old(source).reads(), table@, len),
{
    let hint_end: u64 = if NOMINAL_START + 4194304 < len {
        NOMINAL_START + 4194304
    } else {
        len
    };
    let whole_end: u64 = if 268435456 < len {
        268435456
    } else {
        len
    };
    let found: Option<Anchor> = match scram_scan_range(
        source,
        NOMINAL_START - 12582912,
        hint_end,
        table,
    ) {
        Some(a) => Some(a),
        None => scram_scan_range(source, 0, whole_end, table),
    };
    match found {
        None => None,
        Some(a) => {
            let start: i128 = a.pos as i128 - a.lba as i128 * 2352;
            if start < 0 {
                return None;
            }
            let at: u64 = start as u64;
            let offset: u64 = match scram_probe_udo(source, at, table) {
                Some(o) => o,
                None => if a.mode == 2 {
                    24
                } else {
                    16
                },
            };
            Some((at, offset))
        },
    }
}

/// The write offset that a log line states.
pub open spec fn line_offset(line: Seq<char>) -> Option<int> {
    let at = text::find_text(line, "disc write offset:"@, 0);
    if at < 0 {
        None
    } else {
        let w = text::words_of(text::trimmed(line.skip(at + 18)));
        if w.len() == 0 {
            None
        } else {
            numbers::parsed_signed(text::strip_back(w[0], ','), 10)
        }
    }
}

/// The write offset that the first of the lines from `k` on to do so states.
pub open spec fn offset_from(rows: Seq<Seq<char>>, k: int) -> int
    decreases rows.len() - k,
{
    if k < 0 || k >= rows.len() {
        0
    } else {
        match line_offset(rows[k]) {
            Some(n) => n,
            None => offset_from(rows, k + 1),
        }
    }
}

/// Reads the write offset that a log line states.
fn read_line_offset(line: &[char]) -> (r: Option<i64>)
    ensures
        match r {
            Some(v) => line_offset(line@) == Some(v as int),
            None => line_offset(line@) is None,
        },
{
    proof {
        reveal_strlit("disc write offset:");
    }
    let at: usize = match find_str(line, "disc write offset:") {
        Some(i) => i,
        None => {
            return None;
        },
    };
    let len: usize = line.len();
    assert(line@.subrange(at + 18, len as int) =~= line@.skip(at + 18));
    let rest: Vec<char> = cut_chars(line, at + 18, len);
    let after: Vec<char> = trim(rest.as_slice());
    let w: Vec<Vec<char>> = words(after.as_slice());
    let ghost wv = text::words_of(after@);
    assert(wv == text::texts(w@));
    if w.len() == 0 {
        return None;
    }
    assert(wv[0] == w@[0]@);
    let number: Vec<char> = trim_end_of(w[0].as_slice(), ',');
    parse_signed(number.as_slice(), 10)
}

/// Reads the write offset, in samples, that a dump's log states; zero where it
/// states none.
#[verifier::loop_isolation(false)]
pub fn parse_log_write_offset(log: &str) -> (r: i64)
    ensures
        r == offset_from(text::lines_of(log@), 0),
{
    let c: Vec<char> = chars_of(log);
    let rows: Vec<Vec<char>> = lines(c.as_slice());
    let ghost rv = text::lines_of(log@);
    let mut k: usize = 0;
    while k < rows.len()
        invariant
            k <= rows@.len(),
            rv == text::texts(rows@),
            offset_from(rv, k as int) == offset_from(rv, 0),
        decreases rows@.len() - k,
    {
        assert(rv[k as int] == rows@[k as int]@);
        if let Some(n) = read_line_offset(rows[k].as_slice()) {
            return n;
        }
        k += 1;
    }
    0
}

/// Where sector zero stands in a dump whose sectors are shifted by so many samples
/// of four bytes, within what a file can reach.
pub open spec fn shifted_start(samples: int) -> u64 {
    let at = NOMINAL_START + samples * 4;
    if at < 0 {
        0
    } else if at > u64::MAX {
        u64::MAX
    } else {
        at as u64
    }
}

/// Where sector zero of a dump stands, and where the user data of its sectors
/// starts: by its anchor, or by the write offset in its log.
pub open spec fn dump_start(reads: Reads, table: Seq<u8>, len: u64, log: Seq<char>) -> (u64, u64) {
    match anchored(reads, table, len) {
        Some(p) => p,
        None => (shifted_start(offset_from(text::lines_of(log), 0)), 16),
    }
}

/// The data track of a dump.
pub open spec fn dump_track(path: Seq<char>, start: (u64, u64)) -> TrackView {
    TrackView {
        bin_path: path,
        track_offset: start.0,
        user_data_offset: start.1,
        stride: RAW_SECTOR_SIZE,
        lba_offset: 0,
        descramble: true,
        sector_count: 0,
    }
}

/// Where sector zero stands in a dump whose sectors are shifted.
fn shift_start(samples: i64) -> (r: u64)
    ensures
        r == shifted_start(samples as int),
{
    let at: i128 = NOMINAL_START as i128 + samples as i128 * 4;
    if at < 0 {
        0
    } else if at > 0xffff_ffff_ffff_ffff {
        0xffff_ffff_ffff_ffff
    } else {
        at as u64
    }
}

/// Finds where sector zero of a dump stands, and where the user data of its
/// sectors starts: `log` is the log beside it, empty where there is none.
pub fn locate_dump<S: ByteSource>(source: &mut S, len: u64, table: &[u8], log: &str) -> (r: (u64, u64))
    requires
        table@.len() >= 4,
    ensures
        final(source).reads() == old(source).reads(),
        r == dump_start(old(source).reads(), table@, len, log@),
{
    match scram_sync_anchor(source, len, table) {
        Some(p) => p,
        None => (shift_start(parse_log_write_offset(log)), 16),
    }
}

/// The data track of a dump.
pub fn dump_data_track(path: &str, start: (u64, u64)) -> (r: DataTrack)
    ensures
        r@ == dump_track(path@, start),
{
    DataTrack {
        bin_path: path.to_owned(),
        track_offset: start.0,
        user_data_offset: start.1,
        stride: RAW_SECTOR_SIZE,
        lba_offset: 0,
        descramble: true,
        sector_count: 0,
    }
}

/// The starts of dumps that were found before: by the path, for a length of the
/// file.
pub struct AnchorCache {
    pub entries: Vec<(String, (u64, (u64, u64)))>,
}

/// What is kept for the paths with a key, from `k` on.
pub open spec fn kept_from(
    v: Seq<(String, (u64, (u64, u64)))>,
    key: (bool, Seq<Seq<char>>),
    k: int,
) -> Option<(u64, (u64, u64))>
    decreases v.len() - k,
{
    if k < 0 || k >= v.len() {
        None
    } else if path::path_key(v[k].0@) == key {
        Some(v[k].1)
    } else {
        kept_from(v, key, k + 1)
    }
}

impl View for AnchorCache {
    type V = Map<(bool, Seq<Seq<char>>), (u64, (u64, u64))>;

    open spec fn view(&self) -> Map<(bool, Seq<Seq<char>>), (u64, (u64, u64))> {
        Map::new(
            |key: (bool, Seq<Seq<char>>)| kept_from(self.entries@, key, 0) is Some,
            |key: (bool, Seq<Seq<char>>)| kept_from(self.entries@, key, 0)->0,
        )
    }
}

/// An entry in front leaves what is kept for other paths.
proof fn lemma_kept_behind(
    v: Seq<(String, (u64, (u64, u64)))>,
    first: (String, (u64, (u64, u64))),
    key: (bool, Seq<Seq<char>>),
    k: int,
)
    requires
        0 <= k,
    ensures
        kept_from(seq![first] + v, key, k + 1) == kept_from(v, key, k),
    decreases v.len() - k,
{
    if k < v.len() {
        assert((seq![first] + v)[k + 1] == v[k]);
        lemma_kept_behind(v, first, key, k + 1);
    }
}

impl AnchorCache {
    /// An empty cache.
    pub fn new() -> (r: AnchorCache)
        ensures
            r@ == Map::<(bool, Seq<Seq<char>>), (u64, (u64, u64))>::empty(),
    {
        let r: AnchorCache = AnchorCache { entries: Vec::new() };
        assert(r@ =~= Map::<(bool, Seq<Seq<char>>), (u64, (u64, u64))>::empty());
        r
    }

    /// What is kept for a path, if the file still has the same length.
    #[verifier::loop_isolation(false)]
    pub fn get(&self, path: &str, len: u64) -> (r: Option<(u64, u64)>)
        ensures
            r == (if self@.contains_key(path::path_key(path@)) && self@[path::path_key(path@)].0
                == len {
                Some(self@[path::path_key(path@)].1)
            } else {
                None
            }),
    {
        let ghost key = path::path_key(path@);
        let mut k: usize = 0;
        while k < self.entries.len()
            invariant
                k <= self.entries@.len(),
                kept_from(self.entries@, key, k as int) == kept_from(self.entries@, key, 0),
            decreases self.entries@.len() - k,
        {
            if equal_paths(self.entries[k].0.as_str(), path) {
                let (held, start): (u64, (u64, u64)) = self.entries[k].1;
                return if held == len {
                    Some(start)
                } else {
                    None
                };
            }
            k += 1;
        }
        None
    }

    /// Keeps what was found for a path.
    pub fn put(&mut self, path: &str, len: u64, start: (u64, u64))
        ensures
            final(self)@ == old(self)@.insert(path::path_key(path@), (len, start)),
    {
        let ghost before = self.entries@;
        self.entries.insert(0, (path.to_owned(), (len, start)));
        let ghost first = self.entries@[0];
        assert(self.entries@ =~= seq![first] + before);
        let ghost key = path::path_key(path@);
        assert forall|q: (bool, Seq<Seq<char>>)| q != key implies #[trigger] kept_from(
            self.entries@,
            q,
            0,
        ) == kept_from(before, q, 0) by {
            lemma_kept_behind(before, first, q, 0);
        }
        assert(self@ =~= old(self)@.insert(key, (len, start)));
    }
}

/// The data track of a dump: where it starts is looked for once for each length
/// of the file.
pub fn parse_scram_for_data_track<S: ByteSource>(
    source: &mut S,
    len: u64,
    path: &str,
    table: &[u8],
    log: &str,
    cache: &mut AnchorCache,
) -> (r: DataTrack)
    requires
        table@.len() >= 4,
    ensures
        final(source).reads() == old(source).reads(),
        ({
            let key = path::path_key(path@);
            let kept = old(cache)@.contains_key(key) && old(cache)@[key].0 == len;
            let start = if kept {
                old(cache)@[key].1
            } else {
                dump_start(old(source).reads(), table@, len, log@)
            };
            &&& r@ == dump_track(path@, start)
            &&& final(cache)@ == (if kept {
                old(cache)@
            } else {
                old(cache)@.insert(key, (len, start))
            })
        }),
{
    match cache.get(path, len) {
        Some(start) => dump_data_track(path, start),
        None => {
            let start: (u64, u64) = locate_dump(source, len, table, log);
            cache.put(path, len, start);
            dump_data_track(path, start)
        },
    }
}

// ── Laws ────────────────────────────────────────────────────────────────────

/// The sixteen sectors of a block share one run of the scrambler's table, and the next
/// block uses the next run: a frame of the sector `t` of the block `r`, which counts anew
/// after sixteen, gives the data that were scrambled with the run `r`, and all other bytes
/// as they are.
pub proof fn a_dvd_block_shares_one_run(
    df: Seq<u8>,
    table: Seq<u8>,
    user: Seq<u8>,
    high: int,
    r: int,
    t: int,
)
    requires
        df.len() == 2064,
        table.len() == 32768,
        user.len() == 2048,
        0 <= r < 16,
        0 <= t < 16,
        0x1_0000 * df[1] + 0x100 * df[2] + df[3] == 256 * high + 16 * r + t,
        forall|i: int|
            0 <= i < 2048 ==> #[trigger] df[12 + i] == user[i] ^ table.subrange(
                2048 * r,
                2048 * r + 2048,
            )[i],
    ensures
        dvd_descrambled(df, table) == df.take(12) + user + df.skip(2060),
{
    let out = dvd_descrambled(df, table);
    let want = df.take(12) + user + df.skip(2060);
    assert(dvd_run(df) == 2048 * r);
    assert forall|j: int| 0 <= j < 2064 implies out[j] == want[j] by {
        if 12 <= j < 2060 {
            let i = j - 12;
            assert(df[12 + i] == user[i] ^ table.subrange(2048 * r, 2048 * r + 2048)[i]);
            let a = user[i];
            let b = table[2048 * r + i];
            assert((a ^ b) ^ b == a) by (bit_vector);
        }
    }
    assert(out =~= want);
}

/// Eight steps of the register, written out.
proof fn lemma_dvd_eight(sr: u16)
    ensures
        ({
            let s0 = sr;
            let s1 = dvd_step(s0);
            let s2 = dvd_step(s1);
            let s3 = dvd_step(s2);
            let s4 = dvd_step(s3);
            let s5 = dvd_step(s4);
            let s6 = dvd_step(s5);
            let s7 = dvd_step(s6);
            let s8 = dvd_step(s7);
            &&& dvd_state(sr, 8) == s8
            &&& dvd_byte(sr, 8) == ((((((((0u8 | (((s0 & 1) as u8) << 0u8)) | (((s1 & 1) as u8) << 1u8)) | (((s2 & 1) as u8) << 2u8)) | (((s3 & 1) as u8) << 3u8)) | (((s4 & 1) as u8) << 4u8)) | (((s5 & 1) as u8) << 5u8)) | (((s6 & 1) as u8) << 6u8)) | (((s7 & 1) as u8) << 7u8))
        }),
{
    reveal_with_fuel(dvd_state, 9);
    reveal_with_fuel(dvd_byte, 9);
}

/// Three bytes of the DVD scrambler's output in a row.
proof fn lemma_dvd_three(sr: u16)
    requires
        sr <= 0x7FFF,
    ensures
        ({
            let a = dvd_byte(sr, 8);
            let b = dvd_byte(dvd_state(sr, 8), 8);
            let c = dvd_byte(dvd_state(dvd_state(sr, 8), 8), 8);
            let w = (a as u32) | ((b as u32) << 8) | ((c as u32) << 16);
            &&& ((w >> 15) ^ w ^ (w >> 4)) & 0x1FF == 0
            &&& dvd_state(sr, 8) <= 0x7FFF
        }),
{
    lemma_dvd_eight(sr);
    lemma_dvd_eight(dvd_state(sr, 8));
    lemma_dvd_eight(dvd_state(dvd_state(sr, 8), 8));
    let s0 = sr;
    let s1 = dvd_step(s0);
    let s2 = dvd_step(s1);
    let s3 = dvd_step(s2);
    let s4 = dvd_step(s3);
    let s5 = dvd_step(s4);
    let s6 = dvd_step(s5);
    let s7 = dvd_step(s6);
    let s8 = dvd_step(s7);
    let s9 = dvd_step(s8);
    let s10 = dvd_step(s9);
    let s11 = dvd_step(s10);
    let s12 = dvd_step(s11);
    let s13 = dvd_step(s12);
    let s14 = dvd_step(s13);
    let s15 = dvd_step(s14);
    let s16 = dvd_step(s15);
    let s17 = dvd_step(s16);
    let s18 = dvd_step(s17);
    let s19 = dvd_step(s18);
    let s20 = dvd_step(s19);
    let s21 = dvd_step(s20);
    let s22 = dvd_step(s21);
    let s23 = dvd_step(s22);
    let s24 = dvd_step(s23);
    let a = dvd_byte(sr, 8);
    let b = dvd_byte(dvd_state(sr, 8), 8);
    let c = dvd_byte(dvd_state(dvd_state(sr, 8), 8), 8);
    let w = (a as u32) | ((b as u32) << 8) | ((c as u32) << 16);
    assert(((w >> 15) ^ w ^ (w >> 4)) & 0x1FF == 0) by (bit_vector)
        requires
            s0 <= 0x7FFF,
            s1 == dvd_step(s0),
            s2 == dvd_step(s1),
            s3 == dvd_step(s2),
            s4 == dvd_step(s3),
            s5 == dvd_step(s4),
            s6 == dvd_step(s5),
            s7 == dvd_step(s6),
            s8 == dvd_step(s7),
            s9 == dvd_step(s8),
            s10 == dvd_step(s9),
            s11 == dvd_step(s10),
            s12 == dvd_step(s11),
            s13 == dvd_step(s12),
            s14 == dvd_step(s13),
            s15 == dvd_step(s14),
            s16 == dvd_step(s15),
            s17 == dvd_step(s16),
            s18 == dvd_step(s17),
            s19 == dvd_step(s18),
            s20 == dvd_step(s19),
            s21 == dvd_step(s20),
            s22 == dvd_step(s21),
            s23 == dvd_step(s22),
            a == ((((((((0u8 | (((s0 & 1) as u8) << 0u8)) | (((s1 & 1) as u8) << 1u8)) | (((s2 & 1) as u8) << 2u8)) | (((s3 & 1) as u8) << 3u8)) | (((s4 & 1) as u8) << 4u8)) | (((s5 & 1) as u8) << 5u8)) | (((s6 & 1) as u8) << 6u8)) | (((s7 & 1) as u8) << 7u8)),
            b == ((((((((0u8 | (((s8 & 1) as u8) << 0u8)) | (((s9 & 1) as u8) << 1u8)) | (((s10 & 1) as u8) << 2u8)) | (((s11 & 1) as u8) << 3u8)) | (((s12 & 1) as u8) << 4u8)) | (((s13 & 1) as u8) << 5u8)) | (((s14 & 1) as u8) << 6u8)) | (((s15 & 1) as u8) << 7u8)),
            c == ((((((((0u8 | (((s16 & 1) as u8) << 0u8)) | (((s17 & 1) as u8) << 1u8)) | (((s18 & 1) as u8) << 2u8)) | (((s19 & 1) as u8) << 3u8)) | (((s20 & 1) as u8) << 4u8)) | (((s21 & 1) as u8) << 5u8)) | (((s22 & 1) as u8) << 6u8)) | (((s23 & 1) as u8) << 7u8)),
            w == (a as u32) | ((b as u32) << 8) | ((c as u32) << 16),
    ;
    assert(s8 <= 0x7FFF) by (bit_vector)
        requires
            s8 == dvd_step(s7),
    ;
}

/// The register before each byte of the table has fifteen bits.
proof fn lemma_dvd_register(i: int)
    ensures
        dvd_register(i) <= 0x7FFF,
    decreases i,
{
    if i > 0 {
        lemma_dvd_register(i - 1);
        lemma_dvd_three(dvd_register(i - 1));
    }
}

/// The table of the DVD scrambler, read as bits from the lowest of the first byte on, begins
/// with a one and ten zeros, and from the sixteenth on each bit is the exclusive sum of those
/// fifteen and eleven before it.
pub proof fn the_dvd_table_follows_its_recurrence(i: int)
    requires
        0 <= i < 32766,
    ensures
        ({
            let w = (dvd_table()[i] as u32) | ((dvd_table()[i + 1] as u32) << 8) | ((dvd_table()[i
                + 2] as u32) << 16);
            ((w >> 15) ^ w ^ (w >> 4)) & 0x1FF == 0
        }),
        dvd_table()[0] == 1,
        dvd_table()[1] == 0x88,
        dvd_table().len() == 32768,
{
    lemma_dvd_register(i);
    lemma_dvd_three(dvd_register(i));
    assert(dvd_register(i + 1) == dvd_state(dvd_register(i), 8));
    assert(dvd_register(i + 2) == dvd_state(dvd_register(i + 1), 8));
    assert(dvd_register(0) == 1);
    assert(dvd_register(1) == dvd_state(1, 8));
    lemma_dvd_eight(1);
    lemma_dvd_eight(dvd_state(1, 8));
    let s0 = 1u16;
    let s1 = dvd_step(s0);
    let s2 = dvd_step(s1);
    let s3 = dvd_step(s2);
    let s4 = dvd_step(s3);
    let s5 = dvd_step(s4);
    let s6 = dvd_step(s5);
    let s7 = dvd_step(s6);
    let s8 = dvd_step(s7);
    let s9 = dvd_step(s8);
    let s10 = dvd_step(s9);
    let s11 = dvd_step(s10);
    let s12 = dvd_step(s11);
    let s13 = dvd_step(s12);
    let s14 = dvd_step(s13);
    let s15 = dvd_step(s14);
    let s16 = dvd_step(s15);
    let a = dvd_byte(1, 8);
    let b = dvd_byte(dvd_state(1, 8), 8);
    assert(a == 1 && b == 0x88) by (bit_vector)
        requires
            s0 == 1,
            s1 == dvd_step(s0),
            s2 == dvd_step(s1),
            s3 == dvd_step(s2),
            s4 == dvd_step(s3),
            s5 == dvd_step(s4),
            s6 == dvd_step(s5),
            s7 == dvd_step(s6),
            s8 == dvd_step(s7),
            s9 == dvd_step(s8),
            s10 == dvd_step(s9),
            s11 == dvd_step(s10),
            s12 == dvd_step(s11),
            s13 == dvd_step(s12),
            s14 == dvd_step(s13),
            s15 == dvd_step(s14),
            a == ((((((((0u8 | (((s0 & 1) as u8) << 0u8)) | (((s1 & 1) as u8) << 1u8)) | (((s2 & 1) as u8) << 2u8)) | (((s3 & 1) as u8) << 3u8)) | (((s4 & 1) as u8) << 4u8)) | (((s5 & 1) as u8) << 5u8)) | (((s6 & 1) as u8) << 6u8)) | (((s7 & 1) as u8) << 7u8)),
            b == ((((((((0u8 | (((s8 & 1) as u8) << 0u8)) | (((s9 & 1) as u8) << 1u8)) | (((s10 & 1) as u8) << 2u8)) | (((s11 & 1) as u8) << 3u8)) | (((s12 & 1) as u8) << 4u8)) | (((s13 & 1) as u8) << 5u8)) | (((s14 & 1) as u8) << 6u8)) | (((s15 & 1) as u8) << 7u8)),
    ;
}

/// Eight steps of the register, written out.
proof fn lemma_bd_eight(sr: u16)
    ensures
        ({
            let s0 = sr;
            let s1 = bd_step(s0);
            let s2 = bd_step(s1);
            let s3 = bd_step(s2);
            let s4 = bd_step(s3);
            let s5 = bd_step(s4);
            let s6 = bd_step(s5);
            let s7 = bd_step(s6);
            let s8 = bd_step(s7);
            &&& bd_state(sr, 8) == s8
            &&& bd_byte(sr, 8) == ((((((((0u8 | (((s0 & 1) as u8) << 0u8)) | (((s1 & 1) as u8) << 1u8)) | (((s2 & 1) as u8) << 2u8)) | (((s3 & 1) as u8) << 3u8)) | (((s4 & 1) as u8) << 4u8)) | (((s5 & 1) as u8) << 5u8)) | (((s6 & 1) as u8) << 6u8)) | (((s7 & 1) as u8) << 7u8))
        }),
{
    reveal_with_fuel(bd_state, 9);
    reveal_with_fuel(bd_byte, 9);
}

/// Three bytes of the Blu-ray scrambler's output in a row.
proof fn lemma_bd_three(sr: u16)
    ensures
        ({
            let a = bd_byte(sr, 8);
            let b = bd_byte(bd_state(sr, 8), 8);
            let c = bd_byte(bd_state(bd_state(sr, 8), 8), 8);
            let w = (a as u32) | ((b as u32) << 8) | ((c as u32) << 16);
            ((w >> 16) ^ w ^ (w >> 1) ^ (w >> 3) ^ (w >> 12)) & 0xFF == 0
        }),
{
    lemma_bd_eight(sr);
    lemma_bd_eight(bd_state(sr, 8));
    lemma_bd_eight(bd_state(bd_state(sr, 8), 8));
    let s0 = sr;
    let s1 = bd_step(s0);
    let s2 = bd_step(s1);
    let s3 = bd_step(s2);
    let s4 = bd_step(s3);
    let s5 = bd_step(s4);
    let s6 = bd_step(s5);
    let s7 = bd_step(s6);
    let s8 = bd_step(s7);
    let s9 = bd_step(s8);
    let s10 = bd_step(s9);
    let s11 = bd_step(s10);
    let s12 = bd_step(s11);
    let s13 = bd_step(s12);
    let s14 = bd_step(s13);
    let s15 = bd_step(s14);
    let s16 = bd_step(s15);
    let s17 = bd_step(s16);
    let s18 = bd_step(s17);
    let s19 = bd_step(s18);
    let s20 = bd_step(s19);
    let s21 = bd_step(s20);
    let s22 = bd_step(s21);
    let s23 = bd_step(s22);
    let s24 = bd_step(s23);
    let a = bd_byte(sr, 8);
    let b = bd_byte(bd_state(sr, 8), 8);
    let c = bd_byte(bd_state(bd_state(sr, 8), 8), 8);
    let w = (a as u32) | ((b as u32) << 8) | ((c as u32) << 16);
    assert(((w >> 16) ^ w ^ (w >> 1) ^ (w >> 3) ^ (w >> 12)) & 0xFF == 0) by (bit_vector)
        requires
            s1 == bd_step(s0),
            s2 == bd_step(s1),
            s3 == bd_step(s2),
            s4 == bd_step(s3),
            s5 == bd_step(s4),
            s6 == bd_step(s5),
            s7 == bd_step(s6),
            s8 == bd_step(s7),
            s9 == bd_step(s8),
            s10 == bd_step(s9),
            s11 == bd_step(s10),
            s12 == bd_step(s11),
            s13 == bd_step(s12),
            s14 == bd_step(s13),
            s15 == bd_step(s14),
            s16 == bd_step(s15),
            s17 == bd_step(s16),
            s18 == bd_step(s17),
            s19 == bd_step(s18),
            s20 == bd_step(s19),
            s21 == bd_step(s20),
            s22 == bd_step(s21),
            s23 == bd_step(s22),
            a == ((((((((0u8 | (((s0 & 1) as u8) << 0u8)) | (((s1 & 1) as u8) << 1u8)) | (((s2 & 1) as u8) << 2u8)) | (((s3 & 1) as u8) << 3u8)) | (((s4 & 1) as u8) << 4u8)) | (((s5 & 1) as u8) << 5u8)) | (((s6 & 1) as u8) << 6u8)) | (((s7 & 1) as u8) << 7u8)),
            b == ((((((((0u8 | (((s8 & 1) as u8) << 0u8)) | (((s9 & 1) as u8) << 1u8)) | (((s10 & 1) as u8) << 2u8)) | (((s11 & 1) as u8) << 3u8)) | (((s12 & 1) as u8) << 4u8)) | (((s13 & 1) as u8) << 5u8)) | (((s14 & 1) as u8) << 6u8)) | (((s15 & 1) as u8) << 7u8)),
            c == ((((((((0u8 | (((s16 & 1) as u8) << 0u8)) | (((s17 & 1) as u8) << 1u8)) | (((s18 & 1) as u8) << 2u8)) | (((s19 & 1) as u8) << 3u8)) | (((s20 & 1) as u8) << 4u8)) | (((s21 & 1) as u8) << 5u8)) | (((s22 & 1) as u8) << 6u8)) | (((s23 & 1) as u8) << 7u8)),
            w == (a as u32) | ((b as u32) << 8) | ((c as u32) << 16),
    ;
}

/// What the Blu-ray scrambler lays over a sector, read as bits from the lowest of the first
/// byte on: each is the exclusive sum of those sixteen, fifteen, thirteen and four before it,
/// and the sixteen before the first are those of the seed, the lowest last.
pub proof fn the_bd_scrambling_follows_its_recurrence(zeros: Seq<u8>, lba: int, i: int)
    requires
        0 <= lba,
        zeros.len() == 2048,
        forall|k: int| 0 <= k < 2048 ==> #[trigger] zeros[k] == 0,
        0 <= i < 2046,
    ensures
        ({
            let t = bd_descrambled(zeros, lba);
            let w = (t[i] as u32) | ((t[i + 1] as u32) << 8) | ((t[i + 2] as u32) << 16);
            let s = (32768 + lba / 32 % 32768) as u16;
            let first = t[0] as u16;
            &&& ((w >> 16) ^ w ^ (w >> 1) ^ (w >> 3) ^ (w >> 12)) & 0xFF == 0
            &&& first & 1 == s & 1
            &&& (first >> 1) & 1 == ((s >> 15) ^ (s >> 14) ^ (s >> 12) ^ (s >> 3)) & 1
            &&& (first >> 2) & 1 == ((s >> 14) ^ (s >> 13) ^ (s >> 11) ^ (s >> 2)) & 1
            &&& (first >> 3) & 1 == ((s >> 13) ^ (s >> 12) ^ (s >> 10) ^ (s >> 1)) & 1
            &&& (first >> 4) & 1 == ((s >> 12) ^ (s >> 11) ^ (s >> 9) ^ s) & 1
        }),
{
    let t = bd_descrambled(zeros, lba);
    assert forall|k: int| 0 <= k < 2048 implies #[trigger] t[k] == bd_byte(
        bd_register(lba, k),
        8,
    ) by {
        let b = bd_byte(bd_register(lba, k), 8);
        assert(0u8 ^ b == b) by (bit_vector);
        assert(zeros[k] == 0);
    }
    lemma_bd_three(bd_register(lba, i));
    assert(bd_register(lba, i + 1) == bd_state(bd_register(lba, i), 8));
    assert(bd_register(lba, i + 2) == bd_state(bd_register(lba, i + 1), 8));
    assert((lba + 0x100000) / 32 % 0x8000 == lba / 32 % 0x8000);
    assert(bd_register(lba, 0) == bd_seed(lba));
    let s = bd_seed(lba);
    lemma_bd_eight(s);
    let s0 = s;
    let s1 = bd_step(s0);
    let s2 = bd_step(s1);
    let s3 = bd_step(s2);
    let s4 = bd_step(s3);
    let s5 = bd_step(s4);
    let s6 = bd_step(s5);
    let s7 = bd_step(s6);
    let s8 = bd_step(s7);
    let first8 = t[0];
    let first = first8 as u16;
    assert(t[0] == bd_byte(bd_register(lba, 0), 8));
    assert(first & 1 == s & 1 && (first >> 1) & 1 == ((s >> 15) ^ (s >> 14) ^ (s >> 12) ^ (s >> 3))
        & 1 && (first >> 2) & 1 == ((s >> 14) ^ (s >> 13) ^ (s >> 11) ^ (s >> 2)) & 1 && (first
        >> 3) & 1 == ((s >> 13) ^ (s >> 12) ^ (s >> 10) ^ (s >> 1)) & 1 && (first >> 4) & 1 == ((s
        >> 12) ^ (s >> 11) ^ (s >> 9) ^ s) & 1) by (bit_vector)
        requires
            s0 == s,
            s1 == bd_step(s0),
            s2 == bd_step(s1),
            s3 == bd_step(s2),
            s4 == bd_step(s3),
            s5 == bd_step(s4),
            s6 == bd_step(s5),
            s7 == bd_step(s6),
            first8 == ((((((((0u8 | (((s0 & 1) as u8) << 0u8)) | (((s1 & 1) as u8) << 1u8)) | (((s2 & 1) as u8) << 2u8)) | (((s3 & 1) as u8) << 3u8)) | (((s4 & 1) as u8) << 4u8)) | (((s5 & 1) as u8) << 5u8)) | (((s6 & 1) as u8) << 6u8)) | (((s7 & 1) as u8) << 7u8)),
            first == first8 as u16,
    ;
}

/// A sector of a DVD dump is what was written into its frame: the frames stand one after the
/// other from that of sector -0x30000 on, each of thirteen rows of which the first twelve hold
/// 172 bytes of data before ten of parity.
pub proof fn a_dvd_sector_is_read_from_its_frame(
    frames: Seq<Seq<u8>>,
    rest: Seq<u8>,
    df: Seq<u8>,
    user: Seq<u8>,
    lba: int,
    high: int,
    r: int,
    t: int,
)
    requires
        forall|k: int| 0 <= k < frames.len() ==> (#[trigger] frames[k]).len() == 2366,
        0 <= lba,
        196608 + lba < frames.len(),
        2366 * frames.len() + rest.len() <= u64::MAX,
        df.len() == 2064,
        user.len() == 2048,
        forall|i: int|
            0 <= i < 2064 ==> frames[196608 + lba][182 * (i / 172) + i % 172] == #[trigger] df[i],
        0 <= r < 16,
        0 <= t < 16,
        0x1_0000 * df[1] + 0x100 * df[2] + df[3] == 256 * high + 16 * r + t,
        forall|i: int|
            0 <= i < 2048 ==> #[trigger] df[12 + i] == user[i] ^ dvd_table().subrange(
                2048 * r,
                2048 * r + 2048,
            )[i],
    ensures
        dvd_sector(source::reads_of(source::end_to_end(frames, 2366) + rest), lba) == Ok::<
            Seq<u8>,
            Seq<char>,
        >(user),
{
    let image = source::end_to_end(frames, 2366) + rest;
    let k = 196608 + lba;
    assert(frames[k].len() == 2366);
    assert(image.len() == 2366 * frames.len() + rest.len());
    assert(2366 * (k + 1) <= 2366 * frames.len());
    let f = image.subrange(k * 2366, k * 2366 + 2366);
    assert forall|j: int| 0 <= j < 2366 implies f[j] == frames[k][j] by {
        source::lemma_within_part(k, 2366, j);
        assert(f[j] == image[k * 2366 + j]);
        assert(image[k * 2366 + j] == source::end_to_end(frames, 2366)[k * 2366 + j]);
    }
    assert(f =~= frames[k]);
    assert(data_frame(f) =~= df) by {
        assert forall|i: int| 0 <= i < 2064 implies data_frame(f)[i] == df[i] by {
            assert(frames[k][182 * (i / 172) + i % 172] == df[i]);
        }
    }
    a_dvd_block_shares_one_run(df, dvd_table(), user, high, r, t);
    assert(dvd_descrambled(df, dvd_table()).subrange(12, 2060) =~= user);
}

/// A sector of a Blu-ray dump is what was written into its frame: the frames of 2052 bytes
/// stand one after the other from that of sector -0x100000 on, and 32 sectors in a row are
/// scrambled alike.
pub proof fn a_bd_sector_is_read_from_its_frame(
    frames: Seq<Seq<u8>>,
    rest: Seq<u8>,
    user: Seq<u8>,
    base: int,
    lba: int,
    group: int,
)
    requires
        forall|k: int| 0 <= k < frames.len() ==> (#[trigger] frames[k]).len() == 2052,
        0 <= lba,
        0 <= base,
        1048576 + lba < frames.len(),
        2052 * frames.len() + rest.len() <= u64::MAX,
        user.len() == 2048,
        32 * group <= base + lba < 32 * group + 32,
        frames[1048576 + lba].subrange(0, 2048) == bd_descrambled(user, 32 * group),
    ensures
        bd_sector(source::reads_of(source::end_to_end(frames, 2052) + rest), base, lba) == Ok::<
            Seq<u8>,
            Seq<char>,
        >(user),
{
    let image = source::end_to_end(frames, 2052) + rest;
    let k = 1048576 + lba;
    assert(frames[k].len() == 2052);
    assert(2052 * (k + 1) <= 2052 * frames.len());
    let f = image.subrange(k * 2052, k * 2052 + 2052);
    assert forall|j: int| 0 <= j < 2052 implies f[j] == frames[k][j] by {
        source::lemma_within_part(k, 2052, j);
        assert(f[j] == image[k * 2052 + j]);
        assert(image[k * 2052 + j] == source::end_to_end(frames, 2052)[k * 2052 + j]);
    }
    assert(f =~= frames[k]);
    let n = base + lba;
    assert forall|i: int| 0 <= i implies #[trigger] bd_register(n, i) == bd_register(
        32 * group,
        i,
    ) by {
        lemma_bd_group(n, 32 * group, i);
    }
    assert(f.take(2048) =~= frames[k].subrange(0, 2048));
    assert(bd_descrambled(f.take(2048), n) =~= bd_descrambled(
        bd_descrambled(user, 32 * group),
        32 * group,
    ));
    bd_scrambling_twice_changes_nothing(user, 32 * group);
}

/// Sectors with one seed are scrambled alike.
proof fn lemma_bd_group(a: int, b: int, i: int)
    requires
        a / 32 == b / 32,
    ensures
        bd_register(a, i) == bd_register(b, i),
    decreases i,
{
    if i > 0 {
        lemma_bd_group(a, b, i - 1);
    } else {
        assert((a + 0x100000) / 32 == (b + 0x100000) / 32);
    }
}

/// A scrambled sector tells its number: its header holds minutes, seconds and frames in
/// binary-coded decimal, counted from two seconds before sector zero.
pub proof fn a_scrambled_header_names_its_sector(
    w: Seq<u8>,
    at: int,
    table: Seq<u8>,
    m: int,
    s: int,
    f: int,
    mode: u8,
)
    requires
        0 <= at,
        at + 16 <= w.len(),
        bytes::has_at(w, at, track::sync_pattern()),
        0 <= m < 100,
        0 <= s < 60,
        0 <= f < 75,
        mode == 1 || mode == 2,
        w[at + 12] ^ table[0] == (16 * (m / 10) + m % 10) as u8,
        w[at + 13] ^ table[1] == (16 * (s / 10) + s % 10) as u8,
        w[at + 14] ^ table[2] == (16 * (f / 10) + f % 10) as u8,
        w[at + 15] ^ table[3] == mode,
    ensures
        scrambled_lba(w, at, table) == Some(75 * (60 * m + s) + f - 150),
{
}

/// An anchor tells where sector zero stands, in raw sectors of 2352 bytes.
pub proof fn sector_zero_is_reckoned_from_the_anchor(reads: Reads, table: Seq<u8>, len: u64, a: Anchor)
    requires
        dump_anchor(reads, table, len) == Some(a),
        a.pos >= 2352 * a.lba,
        a.pos - 2352 * a.lba <= u64::MAX,
    ensures
        anchored(reads, table, len) matches Some(p) && p.0 + 2352 * a.lba == a.pos,
{
}

/// A dump without an anchor starts where its log tells: four bytes for each sample behind
/// where sector -45150 would put it.
pub proof fn a_shift_is_in_samples(samples: int)
    requires
        -26_548_200 <= samples <= 0x7FFF_FFFF,
    ensures
        shifted_start(samples) == 2352 * 45150 + 4 * samples,
{
}

/// A log tells the write offset behind its label.
pub proof fn a_log_line_tells_the_offset(front: Seq<char>, n: int, w: Seq<char>)
    requires
        0 <= n <= 0x7fff_ffff_ffff_ffff,
        w == numbers::decimal(n) || w == seq!['-'] + numbers::decimal(n),
        text::find_text(front + "disc write offset:"@ + (seq![' '] + w), "disc write offset:"@, 0)
            == front.len(),
    ensures
        w == numbers::decimal(n) ==> line_offset(
            front + "disc write offset:"@ + (seq![' '] + w),
        ) == Some(n),
        w == seq!['-'] + numbers::decimal(n) ==> line_offset(
            front + "disc write offset:"@ + (seq![' '] + w),
        ) == Some(-n),
{
    let label = "disc write offset:"@;
    reveal_strlit("disc write offset:");
    assert(label.len() == 18);
    let line = front + label + (seq![' '] + w);
    let d = numbers::decimal(n);
    numbers::written_numbers_are_read_back(n, 10, 0x7fff_ffff_ffff_ffff);
    numbers::a_numeral_spells_its_number(n, 10);
    assert forall|i: int| 0 <= i < w.len() implies !text::is_white(#[trigger] w[i]) by {
        if w == d {
            assert(0 <= numbers::digit_value(d[i]) < 10);
        } else if i > 0 {
            assert(w[i] == d[i - 1]);
            assert(0 <= numbers::digit_value(d[i - 1]) < 10);
        }
    }
    assert(w.last() == d.last());
    assert(0 <= numbers::digit_value(d.last()) < 10);
    let none = Seq::<char>::empty();
    assert(line.skip(front.len() as int + 18) =~= seq![' '] + w + none);
    assert forall|i: int| 0 <= i < seq![' '].len() implies text::is_white(
        #[trigger] seq![' '][i],
    ) by {}
    text::trimming_takes_the_white_space(seq![' '], w, none);
    text::words_stand_between_white_space(' ', w, none);
    assert(text::strip_back(w, ',') == w);
}

} // verus!
