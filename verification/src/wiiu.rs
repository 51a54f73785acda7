//! Wii U discs: file tables, keys and encrypted contents.
use vstd::prelude::*;
use vstd::utf8::*;
use crate::bytes;
use crate::bytes::{
    cut, find_byte_from, read_u16_be, read_u24_be, read_u32_be, spells_at, write_be, zeroes,
};
use crate::codec;
use crate::codec::aes_cbc_decrypt;
use crate::entry;
use crate::entry::{DiscEntry, EntryView};
use crate::extract;
use crate::extract::{ExtractItem, ExtractPlan, PlanView};
use crate::iso_volume;
use crate::iso_volume::push_text;
use crate::numbers;
use crate::numbers::{decimal_string, write_padded};
use crate::sanitize;
use crate::sanitize::sanitize_component;
use crate::source;
use crate::source::{label_error, read_labelled, read_wide, ByteSource, Reads};
use crate::text;
use crate::text::{
    chars_of, from_utf8, is_text, join2, join3, read_to_zero, same_chars, segments, starts_with,
    string_of, trim, trim_start_of,
};

verus! {

/// Where the file table of the system partition stands.
pub const SI_FST_OFFSET: u64 = 0x28000;

// ── File tables ─────────────────────────────────────────────────────────────

/// An entry of a file table.
#[derive(Clone, Copy)]
pub struct WiiUFstEntry {
    pub flags: u8,
    pub name_off: u32,
    pub data_off: u32,
    pub size: u32,
    pub content_idx: u16,
}

/// A file table, with what is known of the contents that its files are in.
pub struct WiiUFst {
    pub entries: Vec<WiiUFstEntry>,
    pub string_table: Vec<u8>,
    pub sec_hdrs: Vec<(u64, u64)>,
    pub sector_size: u64,
    pub offset_factor: u64,
    pub partition_base: u64,
    pub content_hashed: Vec<bool>,
    pub content_iv_idx: Vec<u16>,
}

/// The contents of a file table.
#[verifier::ext_equal]
pub struct FstView {
    pub entries: Seq<WiiUFstEntry>,
    pub string_table: Seq<u8>,
    pub sec_hdrs: Seq<(u64, u64)>,
    pub sector_size: u64,
    pub offset_factor: u64,
    pub partition_base: u64,
    pub content_hashed: Seq<bool>,
    pub content_iv_idx: Seq<u16>,
}

impl View for WiiUFst {
    type V = FstView;

    open spec fn view(&self) -> FstView {
        FstView {
            entries: self.entries@,
            string_table: self.string_table@,
            sec_hdrs: self.sec_hdrs@,
            sector_size: self.sector_size,
            offset_factor: self.offset_factor,
            partition_base: self.partition_base,
            content_hashed: self.content_hashed@,
            content_iv_idx: self.content_iv_idx@,
        }
    }
}

/// The name of an entry: up to the next zero; a question mark where it is not
/// text.
pub open spec fn name_of(t: FstView, k: int) -> Seq<char> {
    let off = t.entries[k].name_off as int;
    let raw = t.string_table.subrange(off, bytes::find_byte(t.string_table, off, 0));
    if off > t.string_table.len() || !valid_utf8(raw) {
        "?"@
    } else {
        decode_utf8(raw)
    }
}

/// Whether an entry is a directory.
pub open spec fn is_dir(t: FstView, k: int) -> bool {
    k < t.entries.len() && t.entries[k].flags % 2 == 1
}

/// Where a content starts: its sector is counted from one.
pub open spec fn content_base(t: FstView, c: int) -> int {
    let sector = if c < t.sec_hdrs.len() {
        t.sec_hdrs[c].0 as int
    } else {
        1
    };
    t.partition_base + if sector < 1 {
        0
    } else {
        (sector - 1) * t.sector_size
    }
}

/// Whether a content is stored with the hashes of its blocks.
pub open spec fn is_hashed(t: FstView, c: int) -> bool {
    c < t.content_hashed.len() && t.content_hashed[c]
}

/// The number that the encryption of a content starts from.
pub open spec fn iv_index(t: FstView, c: int) -> u16 {
    if c < t.content_iv_idx.len() {
        t.content_iv_idx[c]
    } else {
        c as u16
    }
}

/// Where a file starts within its content.
pub open spec fn file_start(t: FstView, k: int) -> int {
    t.entries[k].data_off * t.offset_factor
}

/// Where a file stands on the disc.
pub open spec fn disc_place(t: FstView, k: int) -> int {
    content_base(t, t.entries[k].content_idx as int) + file_start(t, k)
}

/// The entries of a directory from `i` on, up to `end`: a directory is followed by
/// what is in it. One that does not lead on ends them.
pub open spec fn children_from(t: FstView, i: int, end: int) -> Seq<int>
    decreases t.entries.len() - i,
{
    if i < 0 || i >= end || i >= t.entries.len() {
        seq![]
    } else {
        let next = if is_dir(t, i) {
            t.entries[i].size as int
        } else {
            i + 1
        };
        seq![i] + if next <= i || next > t.entries.len() {
            seq![]
        } else {
            children_from(t, next, end)
        }
    }
}

/// The entries of a directory.
pub open spec fn children(t: FstView, k: int) -> Seq<int> {
    children_from(t, k + 1, t.entries[k].size as int)
}

/// The first of some entries from `j` on that has a name.
pub open spec fn named(t: FstView, v: Seq<int>, name: Seq<char>, j: int) -> Option<int>
    decreases v.len() - j,
{
    if j < 0 || j >= v.len() {
        None
    } else if name_of(t, v[j]) == name {
        Some(v[j])
    } else {
        named(t, v, name, j + 1)
    }
}

/// The entry that the first `n` parts of a path lead to.
pub open spec fn reached(t: FstView, parts: Seq<Seq<char>>, n: int) -> Option<int>
    decreases n,
{
    if n <= 0 {
        Some(0)
    } else {
        match reached(t, parts, n - 1) {
            None => None,
            Some(k) => if !is_dir(t, k) {
                None
            } else {
                named(t, children(t, k), parts[n - 1], 0)
            },
        }
    }
}

/// The entry that a path leads to.
pub open spec fn entry_of(t: FstView, path: Seq<char>) -> Option<int> {
    let parts = text::segments_of(path);
    reached(t, parts, parts.len() as int)
}

impl WiiUFst {
    /// The name of an entry.
    pub fn name(&self, k: usize) -> (r: String)
        requires
            k < self.entries@.len(),
        ensures
            r@ == name_of(self@, k as int),
    {
        let off: u32 = self.entries[k].name_off;
        let len: usize = self.string_table.len();
        if off as u64 > len as u64 {
            return "?".to_owned();
        }
        let at: usize = off as usize;
        proof {
            bytes::lemma_find_byte(self.string_table@, at as int, 0);
        }
        let end: usize = find_byte_from(self.string_table.as_slice(), at, 0);
        let raw: Vec<u8> = cut(self.string_table.as_slice(), at, end);
        match from_utf8(raw.as_slice()) {
            Some(t) => t,
            None => "?".to_owned(),
        }
    }

    /// Whether an entry is a directory.
    pub fn is_dir(&self, k: usize) -> (r: bool)
        ensures
            r == is_dir(self@, k as int),
    {
        k < self.entries.len() && self.entries[k].flags % 2 == 1
    }

    /// Where a content starts.
    pub fn content_base(&self, c: usize) -> (r: u128)
        ensures
            r == content_base(self@, c as int),
            r <= 0x1_0000_0000_0000_0000 * 0x1_0000_0000_0000_0000 - 0x1_0000_0000_0000_0000,
    {
        let sector: u64 = if c < self.sec_hdrs.len() {
            self.sec_hdrs[c].0
        } else {
            1
        };
        if sector < 1 {
            return self.partition_base as u128;
        }
        proof {
            let a = (sector - 1) as int;
            let b = self.sector_size as int;
            assert(0 <= a * b <= 0xffff_ffff_ffff_fffe * 0xffff_ffff_ffff_ffff) by (nonlinear_arith)
                requires
                    0 <= a <= 0xffff_ffff_ffff_fffe,
                    0 <= b <= 0xffff_ffff_ffff_ffff,
            ;
        }
        self.partition_base as u128 + (sector - 1) as u128 * self.sector_size as u128
    }

    /// Whether a content is stored with the hashes of its blocks.
    pub fn content_is_hashed(&self, c: usize) -> (r: bool)
        ensures
            r == is_hashed(self@, c as int),
    {
        c < self.content_hashed.len() && self.content_hashed[c]
    }

    /// The number that the encryption of a content starts from.
    pub fn content_iv_index(&self, c: u16) -> (r: u16)
        ensures
            r == iv_index(self@, c as int),
    {
        let i: usize = c as usize;
        if i < self.content_iv_idx.len() {
            self.content_iv_idx[i]
        } else {
            c
        }
    }

    /// The entries of a directory.
    #[verifier::loop_isolation(false)]
    pub fn list_children(&self, k: usize) -> (r: Vec<usize>)
        requires
            k < self.entries@.len(),
        ensures
            r@.map_values(|i: usize| i as int) == children(self@, k as int),
            forall|j: int| 0 <= j < r@.len() ==> #[trigger] r@[j] < self.entries@.len(),
    {
        let ghost t = self@;
        let ghost goal = children(t, k as int);
        let n: usize = self.entries.len();
        let end: u32 = self.entries[k].size;
        let mut out: Vec<usize> = Vec::new();
        let mut i: usize = k + 1;
        let mut more: bool = true;
        assert(out@.map_values(|x: usize| x as int) + goal =~= goal);
        while more && (i as u64) < end as u64 && i < n
            invariant
                i <= n,
                more ==> out@.map_values(|x: usize| x as int) + children_from(
                    t,
                    i as int,
                    end as int,
                ) == goal,
                !more ==> out@.map_values(|x: usize| x as int) == goal,
                forall|j: int| 0 <= j < out@.len() ==> #[trigger] out@[j] < n,
            decreases n - i + if more {
                1int
            } else {
                0
            },
        {
            let ghost before = out@.map_values(|x: usize| x as int);
            let next: u64 = if self.is_dir(i) {
                self.entries[i].size as u64
            } else {
                i as u64 + 1
            };
            let ghost rest = if next <= i || next > n {
                seq![]
            } else {
                children_from(t, next as int, end as int)
            };
            out.push(i);
            assert(out@.map_values(|x: usize| x as int) =~= before.push(i as int));
            assert(before + (seq![i as int] + rest) =~= before.push(i as int) + rest);
            if next <= i as u64 || next > n as u64 {
                assert(before.push(i as int) + seq![] =~= before.push(i as int));
                more = false;
            } else {
                i = next as usize;
            }
        }
        assert(out@.map_values(|x: usize| x as int) + seq![] =~= out@.map_values(
            |x: usize| x as int,
        ));
        out
    }

    /// The entry that a path leads to.
    #[verifier::loop_isolation(false)]
    pub fn find_entry(&self, path: &str) -> (r: Option<usize>)
        ensures
            match r {
                Some(k) => entry_of(self@, path@) == Some(k as int) && (k < self.entries@.len()
                    || k == 0),
                None => entry_of(self@, path@) is None,
            },
    {
        let ghost t = self@;
        let parts: Vec<Vec<char>> = segments(path);
        let ghost pv = text::segments_of(path@);
        assert(pv == text::texts(parts@));
        let mut cur: usize = 0;
        let mut n: usize = 0;
        while n < parts.len()
            invariant
                n <= parts@.len(),
                reached(t, pv, n as int) == Some(cur as int),
                cur < self.entries@.len() || cur == 0,
            decreases parts@.len() - n,
        {
            assert(pv[n as int] == parts@[n as int]@);
            if !self.is_dir(cur) {
                proof {
                    lemma_stops(t, pv, n + 1, pv.len() as int);
                }
                return None;
            }
            match self.find_child(cur, parts[n].as_slice()) {
                Some(k) => {
                    cur = k;
                },
                None => {
                    proof {
                        lemma_stops(t, pv, n + 1, pv.len() as int);
                    }
                    return None;
                },
            }
            n += 1;
        }
        Some(cur)
    }

    /// The entry of a directory that has a name.
    #[verifier::loop_isolation(false)]
    fn find_child(&self, k: usize, name: &[char]) -> (r: Option<usize>)
        requires
            k < self.entries@.len(),
        ensures
            match r {
                Some(c) => named(self@, children(self@, k as int), name@, 0) == Some(c as int) && c
                    < self.entries@.len(),
                None => named(self@, children(self@, k as int), name@, 0) is None,
            },
    {
        let ghost t = self@;
        let ids: Vec<usize> = self.list_children(k);
        let ghost v = children(t, k as int);
        let mut j: usize = 0;
        while j < ids.len()
            invariant
                j <= ids@.len(),
                v == ids@.map_values(|i: usize| i as int),
                named(t, v, name@, j as int) == named(t, v, name@, 0),
            decreases ids@.len() - j,
        {
            assert(v[j as int] == ids@[j as int]);
            let found: String = self.name(ids[j]);
            let c: Vec<char> = chars_of(found.as_str());
            if same_chars(c.as_slice(), name) {
                return Some(ids[j]);
            }
            j += 1;
        }
        None
    }

    /// Where a file starts within its content.
    pub fn file_start(&self, k: usize) -> (r: u128)
        requires
            k < self.entries@.len(),
        ensures
            r == file_start(self@, k as int),
            r <= 0x1_0000_0000_0000_0000_0000_0000,
    {
        proof {
            let a = self.entries@[k as int].data_off as int;
            let b = self.offset_factor as int;
            assert(0 <= a * b <= 0xffff_ffff * 0xffff_ffff_ffff_ffff) by (nonlinear_arith)
                requires
                    0 <= a <= 0xffff_ffff,
                    0 <= b <= 0xffff_ffff_ffff_ffff,
            ;
        }
        self.entries[k].data_off as u128 * self.offset_factor as u128
    }
}

/// A path that leads nowhere at some part leads nowhere.
proof fn lemma_stops(t: FstView, parts: Seq<Seq<char>>, n: int, m: int)
    requires
        1 <= n <= m,
        reached(t, parts, n) is None,
    ensures
        reached(t, parts, m) is None,
    decreases m - n,
{
    if n < m {
        lemma_stops(t, parts, n + 1, m);
    }
}

/// The entry at an index of the table that starts at `base`.
pub open spec fn entry_at(buf: Seq<u8>, base: int, k: int) -> WiiUFstEntry {
    let b = base + k * 16;
    WiiUFstEntry {
        flags: buf[b],
        name_off: bytes::be24_at(buf, b + 1) as u32,
        data_off: bytes::be32_at(buf, b + 4) as u32,
        size: bytes::be32_at(buf, b + 8) as u32,
        content_idx: bytes::be16_at(buf, b + 14) as u16,
    }
}

/// The file table in `buf`.
pub open spec fn parsed(buf: Seq<u8>, sector_size: u64, partition_base: u64) -> Result<
    FstView,
    Seq<char>,
> {
    let secs = bytes::be32_at(buf, 8);
    let base = 0x20 + secs * 0x20;
    let count = bytes::be32_at(buf, base + 8);
    let end = base + count * 16;
    if buf.len() < 0x20 {
        Err("WUX FST: buffer too small"@)
    } else if !bytes::spells(buf, 0, "FST\0"@) {
        Err(
            "WUX FST: bad magic "@ + numbers::zero_padded(
                numbers::numeral(bytes::be32_at(buf, 0), 16),
                8,
            ),
        )
    } else if buf.len() < base + 16 {
        Err("WUX FST: buffer too small for section headers"@)
    } else if buf.len() < end {
        Err("WUX FST: buffer too small for "@ + numbers::decimal(count) + " entries"@)
    } else {
        Ok(
            FstView {
                entries: Seq::new(count as nat, |k: int| entry_at(buf, base, k)),
                string_table: buf.skip(end),
                sec_hdrs: Seq::new(
                    secs as nat,
                    |i: int|
                        (
                            bytes::be32_at(buf, 0x20 + i * 0x20) as u64,
                            bytes::be32_at(buf, 0x24 + i * 0x20) as u64,
                        ),
                ),
                sector_size,
                offset_factor: bytes::be32_at(buf, 4) as u64,
                partition_base,
                content_hashed: seq![],
                content_iv_idx: seq![],
            },
        )
    }
}

/// The contents of the outcome of opening a file table.
pub open spec fn fst_outcome(r: Result<WiiUFst, String>) -> Result<FstView, Seq<char>> {
    match r {
        Ok(t) => Ok(t@),
        Err(e) => Err(e@),
    }
}

/// Reads the section headers of a file table.
#[verifier::loop_isolation(false)]
fn read_sections(buf: &[u8], n: usize) -> (r: Vec<(u64, u64)>)
    requires
        0x20 + n * 0x20 <= buf@.len(),
    ensures
        r@ == Seq::new(
            n as nat,
            |i: int|
                (
                    bytes::be32_at(buf@, 0x20 + i * 0x20) as u64,
                    bytes::be32_at(buf@, 0x24 + i * 0x20) as u64,
                ),
        ),
{
    let len: usize = buf.len();
    let ghost goal = Seq::new(
        n as nat,
        |i: int|
            (
                bytes::be32_at(buf@, 0x20 + i * 0x20) as u64,
                bytes::be32_at(buf@, 0x24 + i * 0x20) as u64,
            ),
    );
    let mut out: Vec<(u64, u64)> = Vec::new();
    while out.len() < n
        invariant
            out@.len() <= n,
            forall|j: int| 0 <= j < out@.len() ==> #[trigger] out@[j] == goal[j],
        decreases n - out@.len(),
    {
        let b: usize = 0x20 + out.len() * 0x20;
        out.push((read_u32_be(buf, b) as u64, read_u32_be(buf, b + 4) as u64));
    }
    assert(out@ =~= goal);
    out
}

/// Reads the entries of a file table.
#[verifier::loop_isolation(false)]
fn read_entries(buf: &[u8], base: usize, n: usize) -> (r: Vec<WiiUFstEntry>)
    requires
        base + n * 16 <= buf@.len(),
    ensures
        r@ == Seq::new(n as nat, |k: int| entry_at(buf@, base as int, k)),
{
    let len: usize = buf.len();
    let mut out: Vec<WiiUFstEntry> = Vec::new();
    while out.len() < n
        invariant
            out@.len() <= n,
            forall|j: int| 0 <= j < out@.len() ==> out@[j] == entry_at(buf@, base as int, j),
        decreases n - out@.len(),
    {
        let b: usize = base + out.len() * 16;
        out.push(
            WiiUFstEntry {
                flags: buf[b],
                name_off: read_u24_be(buf, b + 1),
                data_off: read_u32_be(buf, b + 4),
                size: read_u32_be(buf, b + 8),
                content_idx: read_u16_be(buf, b + 14),
            },
        );
    }
    assert(out@ =~= Seq::new(n as nat, |k: int| entry_at(buf@, base as int, k)));
    out
}

/// Reads a file table.
pub fn parse_wiiu_fst(buf: &[u8], sector_size: u64, partition_base: u64) -> (r: Result<
    WiiUFst,
    String,
>)
    ensures
        fst_outcome(r) == parsed(buf@, sector_size, partition_base),
{
    let len: usize = buf.len();
    if len < 0x20 {
        return Err("WUX FST: buffer too small".to_owned());
    }
    if !spells_at(buf, 0, "FST\0") {
        let hex: Vec<char> = write_padded(read_u32_be(buf, 0) as u64, 16, 8);
        let digits: String = string_of(hex.as_slice());
        return Err(join2("WUX FST: bad magic ", digits.as_str()));
    }
    let factor: u32 = read_u32_be(buf, 4);
    let secs: u32 = read_u32_be(buf, 8);
    let base: u64 = 0x20 + secs as u64 * 0x20;
    if (len as u64) < base + 16 {
        return Err("WUX FST: buffer too small for section headers".to_owned());
    }
    let at: usize = base as usize;
    let count: u32 = read_u32_be(buf, at + 8);
    let end: u64 = base + count as u64 * 16;
    if (len as u64) < end {
        let digits: String = decimal_string(count as u64);
        return Err(join3("WUX FST: buffer too small for ", digits.as_str(), " entries"));
    }
    let stop: usize = end as usize;
    let entries: Vec<WiiUFstEntry> = read_entries(buf, at, count as usize);
    let sec_hdrs: Vec<(u64, u64)> = read_sections(buf, secs as usize);
    assert(buf@.subrange(stop as int, len as int) =~= buf@.skip(stop as int));
    let t: WiiUFst = WiiUFst {
        entries,
        string_table: cut(buf, stop, len),
        sec_hdrs,
        sector_size,
        offset_factor: factor as u64,
        partition_base,
        content_hashed: Vec::new(),
        content_iv_idx: Vec::new(),
    };
    assert(t.content_hashed@ =~= seq![]);
    assert(t.content_iv_idx@ =~= seq![]);
    Ok(t)
}

/// The line of an entry.
pub open spec fn line_of(t: FstView, k: int) -> EntryView {
    if is_dir(t, k) {
        entry::dir_line(name_of(t, k))
    } else {
        entry::file_line(
            name_of(t, k),
            (disc_place(t, k) / 2048 % 0x1_0000_0000) as u32,
            t.entries[k].size,
            seq![],
        )
    }
}

/// What a directory lists.
pub open spec fn dir_listing(t: FstView, dir: Seq<char>) -> Result<Seq<EntryView>, Seq<char>> {
    match entry_of(t, dir) {
        None => Err("WUX: directory not found: "@ + dir),
        Some(k) => if !is_dir(t, k) {
            Err("WUX: not a directory: "@ + dir)
        } else {
            Ok(children(t, k).map_values(|i: int| line_of(t, i)))
        },
    }
}

/// Lists a directory.
#[verifier::loop_isolation(false)]
pub fn wiiu_fst_list_dir(t: &WiiUFst, dir: &str) -> (r: Result<Vec<DiscEntry>, String>)
    ensures
        iso_volume::entries_outcome(r) == dir_listing(t@, dir@),
{
    let ghost tv = t@;
    let k: usize = match t.find_entry(dir) {
        Some(k) => k,
        None => {
            return Err(join2("WUX: directory not found: ", dir));
        },
    };
    if !t.is_dir(k) {
        return Err(join2("WUX: not a directory: ", dir));
    }
    let ids: Vec<usize> = t.list_children(k);
    let ghost v = children(tv, k as int);
    let ghost goal = v.map_values(|i: int| line_of(tv, i));
    let mut out: Vec<DiscEntry> = Vec::new();
    let mut j: usize = 0;
    while j < ids.len()
        invariant
            j <= ids@.len(),
            v == ids@.map_values(|i: usize| i as int),
            out@.len() == j,
            forall|i: int| 0 <= i < j ==> (#[trigger] out@[i])@ == goal[i],
        decreases ids@.len() - j,
    {
        let i: usize = ids[j];
        assert(v[j as int] == i);
        let name: String = t.name(i);
        let e: DiscEntry = if t.is_dir(i) {
            entry::dir_entry(name)
        } else {
            let base: u128 = t.content_base(t.entries[i].content_idx as usize);
            let start: u128 = t.file_start(i);
            let lba: u128 = (base / 2048 + (base % 2048 + start) / 2048) % 0x1_0000_0000;
            assert(lba == disc_place(tv, i as int) / 2048 % 0x1_0000_0000);
            let blank: String = String::new();
            assert(blank@ =~= seq![]);
            entry::file_entry(name, lba as u32, t.entries[i].size, blank)
        };
        out.push(e);
        j += 1;
    }
    assert(entry::listing(out@) =~= goal);
    Ok(out)
}

// ── Encrypted contents ──────────────────────────────────────────────────────

/// The blocks of something that is read block by block.
pub type Blocks = spec_fn(int) -> Result<Seq<u8>, Seq<char>>;

/// The `n` bytes from `off` on, out of blocks of `size` bytes.
pub open spec fn pieces(blocks: Blocks, size: int, off: int, n: int) -> Result<Seq<u8>, Seq<char>>
    decreases n,
{
    let at = off % size;
    let take = if n < size - at {
        n
    } else {
        size - at
    };
    if n <= 0 || size <= 0 || off < 0 || take <= 0 {
        Ok(seq![])
    } else {
        match blocks(off / size) {
            Err(e) => Err(e),
            Ok(b) => source::after(
                b.subrange(at, at + take),
                pieces(blocks, size, off + take, n - take),
            ),
        }
    }
}

/// How a content is stored: in chunks that each start from their own number, in
/// sectors that all start from the number of the content, or in blocks that carry
/// the hashes which they start from.
#[derive(Clone, Copy, PartialEq, Eq, Structural)]
pub enum Scheme {
    Chunks,
    Sectors(u16),
    Hashed,
}

/// The stored length of a block.
pub open spec fn stored_len(s: Scheme) -> int {
    match s {
        Scheme::Sectors(_) => 0x8000,
        _ => 0x10000,
    }
}

/// The bytes of a block when it is decrypted.
pub open spec fn block_len(s: Scheme) -> int {
    match s {
        Scheme::Chunks => 0x10000,
        Scheme::Sectors(_) => 0x8000,
        Scheme::Hashed => 0xFC00,
    }
}

/// What the decryption of a chunk starts from: its number in the last eight bytes.
pub open spec fn chunk_iv(k: int) -> Seq<u8> {
    bytes::zeros(8) + bytes::be_bytes(k, 8)
}

/// What the decryption of a sector starts from: the number of the content in the
/// first two bytes.
pub open spec fn index_iv(index: u16) -> Seq<u8> {
    bytes::be_bytes(index as int, 2) + bytes::zeros(14)
}

/// What the decryption of a hashed block starts from: the first 16 bytes of its
/// hash.
pub open spec fn hash_iv(key: Seq<u8>, stored: Seq<u8>, k: int) -> Seq<u8> {
    codec::cbc_decrypted(key, bytes::zeros(16), stored.take(0x400)).subrange(
        k % 16 * 20,
        k % 16 * 20 + 16,
    )
}

/// A block out of its stored form.
pub open spec fn decrypted(s: Scheme, key: Seq<u8>, stored: Seq<u8>, k: int) -> Seq<u8> {
    match s {
        Scheme::Chunks => codec::cbc_decrypted(key, chunk_iv(k), stored),
        Scheme::Sectors(index) => codec::cbc_decrypted(key, index_iv(index), stored),
        Scheme::Hashed => codec::cbc_decrypted(
            key,
            hash_iv(key, stored, k),
            stored.skip(0x400),
        ),
    }
}

/// The blocks of a content that starts at `base`.
pub open spec fn content_blocks(reads: Reads, base: int, s: Scheme, key: Seq<u8>) -> Blocks {
    |k: int|
        match source::reach(reads, base + k * stored_len(s), stored_len(s)) {
            Err(e) => Err(e),
            Ok(stored) => Ok(decrypted(s, key, stored, k)),
        }
}

/// The `n` bytes from `off` on of a content.
pub open spec fn content_bytes(
    reads: Reads,
    base: int,
    s: Scheme,
    key: Seq<u8>,
    off: int,
    n: int,
) -> Result<Seq<u8>, Seq<char>> {
    pieces(content_blocks(reads, base, s, key), block_len(s), off, n)
}

/// Big-endian notation takes the bytes that it is given.
proof fn lemma_be_len(v: int, n: nat)
    ensures
        bytes::be_bytes(v, n).len() == n,
    decreases n,
{
    if n > 0 {
        lemma_be_len(v / 0x100, (n - 1) as nat);
    }
}

/// What the decryption of a chunk starts from.
pub fn wiiu_gm_chunk_iv(k: u64) -> (r: Vec<u8>)
    ensures
        r@ == chunk_iv(k as int),
        r@.len() == 16,
{
    proof {
        lemma_be_len(k as int, 8);
    }
    let mut iv: Vec<u8> = zeroes(8);
    let mut tail: Vec<u8> = write_be(k, 8);
    iv.append(&mut tail);
    iv
}

/// What the decryption of a sector starts from.
fn make_index_iv(index: u16) -> (r: Vec<u8>)
    ensures
        r@ == index_iv(index),
        r@.len() == 16,
{
    proof {
        lemma_be_len(index as int, 2);
    }
    let mut iv: Vec<u8> = write_be(index as u64, 2);
    let mut tail: Vec<u8> = zeroes(14);
    iv.append(&mut tail);
    iv
}

/// Decrypts a block.
pub fn decrypt_block(s: Scheme, key: &[u8], stored: &[u8], k: u64) -> (r: Vec<u8>)
    requires
        key@.len() == 16,
        stored@.len() == stored_len(s),
    ensures
        r@ == decrypted(s, key@, stored@, k as int),
        r@.len() == block_len(s),
{
    match s {
        Scheme::Chunks => {
            let iv: Vec<u8> = wiiu_gm_chunk_iv(k);
            aes_cbc_decrypt(key, iv.as_slice(), stored)
        },
        Scheme::Sectors(index) => {
            let iv: Vec<u8> = make_index_iv(index);
            aes_cbc_decrypt(key, iv.as_slice(), stored)
        },
        Scheme::Hashed => {
            let head: Vec<u8> = cut(stored, 0, 0x400);
            assert(stored@.subrange(0, 0x400) =~= stored@.take(0x400));
            let zero: Vec<u8> = zeroes(16);
            let hashes: Vec<u8> = aes_cbc_decrypt(key, zero.as_slice(), head.as_slice());
            let at: usize = (k % 16) as usize * 20;
            let iv: Vec<u8> = cut(hashes.as_slice(), at, at + 16);
            let body: Vec<u8> = cut(stored, 0x400, 0x10000);
            assert(stored@.subrange(0x400, 0x10000) =~= stored@.skip(0x400));
            aes_cbc_decrypt(key, iv.as_slice(), body.as_slice())
        },
    }
}

/// Reads the `n` bytes from `off` on of a content that starts at `base`.
#[verifier::loop_isolation(false)]
pub fn wiiu_content_read<S: ByteSource>(
    source: &mut S,
    base: u128,
    s: Scheme,
    key: &[u8],
    off: u128,
    n: u64,
) -> (r: Result<Vec<u8>, String>)
    requires
        key@.len() == 16,
        base <= 0x1_0000_0000_0000_0000 * 0x1_0000_0000_0000_0000 - 0x1_0000_0000_0000_0000,
        off <= 0x1_0000_0000_0000_0000_0000_0000,
    ensures
        final(source).reads() == old(source).reads(),
        source::outcome(r) == content_bytes(
            old(source).reads(),
            base as int,
            s,
            key@,
            off as int,
            n as int,
        ),
{
    let ghost reads = source.reads();
    let ghost blocks = content_blocks(reads, base as int, s, key@);
    let size: u64 = match s {
        Scheme::Chunks => 0x10000,
        Scheme::Sectors(_) => 0x8000,
        Scheme::Hashed => 0xFC00,
    };
    let stored_size: u64 = match s {
        Scheme::Sectors(_) => 0x8000,
        _ => 0x10000,
    };
    let ghost goal = pieces(blocks, size as int, off as int, n as int);
    let mut out: Vec<u8> = Vec::new();
    let mut cur: u128 = off;
    let mut left: u64 = n;
    proof {
        if let Ok(t) = goal {
            assert(out@ + t =~= t);
        }
    }
    while left > 0
        invariant
            left <= n,
            cur + left == off + n,
            source.reads() == reads,
            source::after(out@, pieces(blocks, size as int, cur as int, left as int)) == goal,
        decreases left,
    {
        let k: u128 = cur / size as u128;
        let at: u64 = (cur % size as u128) as u64;
        let take: u64 = if left < size - at {
            left
        } else {
            size - at
        };
        let room: u128 = 0xffff_ffff_ffff_ffff;
        let ghost before = out@;
        if base > room || k > (room - base) / stored_size as u128 {
            proof {
                let ki = k as int;
                let st = stored_size as int;
                assert(base + ki * st + st > 0xffff_ffff_ffff_ffff) by {
                    if base <= room {
                        let q = (room - base) / (stored_size as int);
                        assert((q + 1) * st > room - base) by (nonlinear_arith)
                            requires
                                q == (room - base) / st,
                                st > 0,
                        ;
                        assert(ki * st >= (q + 1) * st) by (nonlinear_arith)
                            requires
                                ki >= q + 1,
                                st > 0,
                        ;
                    } else {
                        assert(ki * st >= 0) by (nonlinear_arith)
                            requires
                                ki >= 0,
                                st > 0,
                        ;
                    }
                }
                assert(blocks(ki) == Err::<Seq<u8>, Seq<char>>(source::short_read()));
            }
            return Err("failed to fill whole buffer".to_owned());
        }
        proof {
            let ki = k as int;
            let st = stored_size as int;
            let q = (room - base) / (stored_size as int);
            assert(0 <= ki * st <= room - base) by (nonlinear_arith)
                requires
                    0 <= ki <= q,
                    q == (room - base) / st,
                    st > 0,
                    base <= room,
            ;
        }
        let pos: u128 = base + k * stored_size as u128;
        let stored: Vec<u8> = match read_wide(source, pos, stored_size, "") {
            Ok(b) => b,
            Err(e) => {
                proof {
                    reveal_strlit("");
                    let whole = source::reach(reads, pos as int, stored_size as int)->Err_0;
                    assert(""@ + whole =~= whole);
                    assert(blocks(k as int) == Err::<Seq<u8>, Seq<char>>(whole));
                }
                return Err(e);
            },
        };
        let block: Vec<u8> = decrypt_block(s, key, stored.as_slice(), k as u64);
        assert(blocks(k as int) == Ok::<Seq<u8>, Seq<char>>(block@));
        let mut part: Vec<u8> = cut(block.as_slice(), at as usize, (at + take) as usize);
        let ghost pv = part@;
        let ghost rest = pieces(blocks, size as int, cur + take, left - take);
        out.append(&mut part);
        proof {
            if let Ok(t) = rest {
                assert(before + (pv + t) =~= (before + pv) + t);
            }
        }
        left -= take;
        cur += take as u128;
    }
    assert(out@ + seq![] =~= out@);
    Ok(out)
}

/// Reads in pieces that each lie within a sector.
pub open spec fn clear_bytes(reads: Reads, pos: int, n: int) -> Result<Seq<u8>, Seq<char>>
    decreases n,
{
    let take = if n < 0x8000 - pos % 0x8000 {
        n
    } else {
        0x8000 - pos % 0x8000
    };
    if n <= 0 {
        Ok(seq![])
    } else {
        match source::reach(reads, pos, take) {
            Err(e) => Err(e),
            Ok(b) => source::after(b, clear_bytes(reads, pos + take, n - take)),
        }
    }
}

/// The `n` bytes at `pos` of a disc: in sectors that are decrypted where there is
/// a key.
pub open spec fn disc_bytes(reads: Reads, pos: int, n: int, key: Option<Seq<u8>>) -> Result<
    Seq<u8>,
    Seq<char>,
> {
    match key {
        Some(k) => content_bytes(reads, 0, Scheme::Sectors(0), k, pos, n),
        None => clear_bytes(reads, pos, n),
    }
}

/// The bytes of an optional key.
pub open spec fn opt_key(key: Option<&[u8]>) -> Option<Seq<u8>> {
    match key {
        Some(k) => Some(k@),
        None => None,
    }
}

/// Reads the `n` bytes at `pos` of a disc.
#[verifier::loop_isolation(false)]
pub fn wiiu_read_at<S: ByteSource>(source: &mut S, pos: u128, n: u64, key: Option<&[u8]>) -> (r: Result<
    Vec<u8>,
    String,
>)
    requires
        key matches Some(k) ==> k@.len() == 16,
        pos <= 0x1_0000_0000_0000_0000_0000_0000,
    ensures
        final(source).reads() == old(source).reads(),
        source::outcome(r) == disc_bytes(
            old(source).reads(),
            pos as int,
            n as int,
            opt_key(key),
        ),
{
    if let Some(k) = key {
        return wiiu_content_read(source, 0, Scheme::Sectors(0), k, pos, n);
    }
    let ghost reads = source.reads();
    let ghost goal = clear_bytes(reads, pos as int, n as int);
    let mut out: Vec<u8> = Vec::new();
    let mut cur: u128 = pos;
    let mut left: u64 = n;
    proof {
        if let Ok(t) = goal {
            assert(out@ + t =~= t);
        }
    }
    while left > 0
        invariant
            left <= n,
            cur + left == pos + n,
            source.reads() == reads,
            source::after(out@, clear_bytes(reads, cur as int, left as int)) == goal,
        decreases left,
    {
        let room: u64 = 0x8000 - (cur % 0x8000) as u64;
        let take: u64 = if left < room {
            left
        } else {
            room
        };
        let mut part: Vec<u8> = match read_wide(source, cur, take, "") {
            Ok(b) => b,
            Err(e) => {
                proof {
                    reveal_strlit("");
                    let whole = source::reach(reads, cur as int, take as int)->Err_0;
                    assert(""@ + whole =~= whole);
                }
                return Err(e);
            },
        };
        let ghost before = out@;
        let ghost pv = part@;
        let ghost rest = clear_bytes(reads, cur + take, left - take);
        out.append(&mut part);
        proof {
            if let Ok(t) = rest {
                assert(before + (pv + t) =~= (before + pv) + t);
            }
        }
        left -= take;
        cur += take as u128;
    }
    assert(out@ + seq![] =~= out@);
    Ok(out)
}

// ── Titles ──────────────────────────────────────────────────────────────────

/// A content of a title: the number that its encryption starts from, and whether
/// it is stored with the hashes of its blocks.
#[derive(Clone, Copy)]
pub struct TitleContent {
    pub index: u16,
    pub hashed: bool,
}

/// Whether the content record `i` of a table at `base` lies within `tmd`.
pub open spec fn has_record(tmd: Seq<u8>, base: int, i: int) -> bool {
    base + i * 0x30 + 8 <= tmd.len()
}

/// The number in a content record.
pub open spec fn record_index(tmd: Seq<u8>, base: int, i: int) -> int {
    bytes::be16_at(tmd, base + i * 0x30 + 4)
}

/// The content of a record.
pub open spec fn content_at(tmd: Seq<u8>, base: int, i: int) -> TitleContent {
    TitleContent {
        index: record_index(tmd, base, i) as u16,
        hashed: bytes::be16_at(tmd, base + i * 0x30 + 6) / 2 % 2 == 1,
    }
}

/// The first place from `base` on where a table of contents can start: its first
/// two records are numbered zero and one.
pub open spec fn table_from(tmd: Seq<u8>, base: int) -> Option<int>
    decreases 0xB84 - base,
{
    if base >= 0xB80 {
        None
    } else if has_record(tmd, base, 1) && record_index(tmd, base, 0) == 0 && record_index(
        tmd,
        base,
        1,
    ) == 1 {
        Some(base)
    } else {
        table_from(tmd, base + 4)
    }
}

/// The contents of the records from `i` on, of `n`.
pub open spec fn contents_from(tmd: Seq<u8>, base: int, i: int, n: int) -> Seq<TitleContent>
    decreases n - i,
{
    if i >= n || !has_record(tmd, base, i) {
        seq![]
    } else {
        seq![content_at(tmd, base, i)] + contents_from(tmd, base, i + 1, n)
    }
}

/// The contents of a title.
pub open spec fn title_contents(tmd: Seq<u8>) -> Seq<TitleContent> {
    if tmd.len() < 0x1E0 {
        seq![]
    } else {
        match table_from(tmd, 0xAC0) {
            None => seq![],
            Some(base) => contents_from(tmd, base, 0, bytes::be16_at(tmd, 0x1DE)),
        }
    }
}

/// Finds where the table of contents starts.
#[verifier::loop_isolation(false)]
fn find_table(tmd: &[u8]) -> (r: Option<usize>)
    ensures
        match r {
            Some(b) => table_from(tmd@, 0xAC0) == Some(b as int) && b <= 0xB80,
            None => table_from(tmd@, 0xAC0) is None,
        },
{
    let len: usize = tmd.len();
    let mut base: usize = 0xAC0;
    while base < 0xB80
        invariant
            0xAC0 <= base <= 0xB84,
            table_from(tmd@, base as int) == table_from(tmd@, 0xAC0),
        decreases 0xB84 - base,
    {
        if base + 0x38 <= len && read_u16_be(tmd, base + 4) == 0 && read_u16_be(tmd, base + 0x34)
            == 1 {
            return Some(base);
        }
        base += 4;
    }
    None
}

/// Reads the contents of a title.
#[verifier::loop_isolation(false)]
pub fn wiiu_parse_tmd_contents(tmd: &[u8]) -> (r: Vec<TitleContent>)
    ensures
        r@ == title_contents(tmd@),
{
    let len: usize = tmd.len();
    let mut out: Vec<TitleContent> = Vec::new();
    assert(out@ =~= seq![]);
    if len < 0x1E0 {
        return out;
    }
    let base: usize = match find_table(tmd) {
        Some(b) => b,
        None => {
            return out;
        },
    };
    let n: u16 = read_u16_be(tmd, 0x1DE);
    let ghost goal = contents_from(tmd@, base as int, 0, n as int);
    let mut i: u16 = 0;
    assert(out@ + goal =~= goal);
    while i < n && base + i as usize * 0x30 + 8 <= len
        invariant
            i <= n,
            out@ + contents_from(tmd@, base as int, i as int, n as int) == goal,
        decreases n - i,
    {
        let o: usize = base + i as usize * 0x30;
        let kind: u16 = read_u16_be(tmd, o + 6);
        let c: TitleContent = TitleContent {
            index: read_u16_be(tmd, o + 4),
            hashed: kind / 2 % 2 == 1,
        };
        let ghost before = out@;
        let ghost rest = contents_from(tmd@, base as int, i + 1, n as int);
        out.push(c);
        assert(before + (seq![c] + rest) =~= out@ + rest);
        i += 1;
    }
    assert(out@ + seq![] =~= out@);
    out
}

// ── The system partition ────────────────────────────────────────────────────

/// The first bytes of the system partition: at most a sector.
pub open spec fn si_head(reads: Reads, len: u64) -> Result<Seq<u8>, Seq<char>> {
    let n = if len <= SI_FST_OFFSET {
        0
    } else if len - SI_FST_OFFSET < 0x8000 {
        len - SI_FST_OFFSET
    } else {
        0x8000
    };
    source::labelled(reads(SI_FST_OFFSET as int, n), "WiiU SI read: "@)
}

/// A sector that is decrypted from zero on; one that does not hold whole blocks
/// stays as it is.
pub open spec fn sector_decrypted(key: Seq<u8>, data: Seq<u8>) -> Seq<u8> {
    if data.len() % 16 == 0 {
        codec::cbc_decrypted(key, bytes::zeros(16), data)
    } else {
        data
    }
}

/// The file table of the system partition, and whether it was encrypted.
pub open spec fn si_opened(
    reads: Reads,
    len: u64,
    sector_size: u64,
    key: Option<Seq<u8>>,
    wrong_key: Seq<char>,
) -> Result<(FstView, bool), Seq<char>> {
    match si_head(reads, len) {
        Err(e) => Err(e),
        Ok(b) => if bytes::spells(b, 0, "FST\0"@) {
            match parsed(b, sector_size, SI_FST_OFFSET) {
                Err(e) => Err(e),
                Ok(t) => Ok((t, false)),
            }
        } else {
            match key {
                None => Err("Wii U disc is encrypted; place a matching .key file alongside it"@),
                Some(k) => {
                    let d = sector_decrypted(k, b);
                    if !bytes::spells(d, 0, "FST\0"@) {
                        Err(wrong_key)
                    } else {
                        match parsed(d, sector_size, SI_FST_OFFSET) {
                            Err(e) => Err(e),
                            Ok(t) => Ok((t, true)),
                        }
                    }
                },
            }
        },
    }
}

/// Decrypts a sector from zero on.
pub fn wiiu_decrypt_sector(key: &[u8], data: &[u8]) -> (r: Vec<u8>)
    requires
        key@.len() == 16,
    ensures
        r@ == sector_decrypted(key@, data@),
{
    let len: usize = data.len();
    if len % 16 == 0 {
        let zero: Vec<u8> = zeroes(16);
        aes_cbc_decrypt(key, zero.as_slice(), data)
    } else {
        assert(data@.subrange(0, len as int) =~= data@);
        cut(data, 0, len)
    }
}

/// The contents of the outcome of opening the system partition.
pub open spec fn si_outcome(r: Result<(WiiUFst, bool), String>) -> Result<
    (FstView, bool),
    Seq<char>,
> {
    match r {
        Ok((t, b)) => Ok((t@, b)),
        Err(e) => Err(e@),
    }
}

/// Opens the file table of the system partition of a disc of `len` bytes.
fn open_si<S: ByteSource>(
    source: &mut S,
    len: u64,
    sector_size: u64,
    key: Option<&[u8]>,
    wrong_key: &str,
) -> (r: Result<(WiiUFst, bool), String>)
    requires
        key matches Some(k) ==> k@.len() == 16,
    ensures
        final(source).reads() == old(source).reads(),
        si_outcome(r) == si_opened(
            old(source).reads(),
            len,
            sector_size,
            opt_key(key),
            wrong_key@,
        ),
{
    let n: u64 = if len <= SI_FST_OFFSET {
        0
    } else if len - SI_FST_OFFSET < 0x8000 {
        len - SI_FST_OFFSET
    } else {
        0x8000
    };
    let b: Vec<u8> = match read_labelled(source, SI_FST_OFFSET, n, "WiiU SI read: ") {
        Ok(b) => b,
        Err(e) => {
            return Err(e);
        },
    };
    if spells_at(b.as_slice(), 0, "FST\0") {
        return match parse_wiiu_fst(b.as_slice(), sector_size, SI_FST_OFFSET) {
            Ok(t) => Ok((t, false)),
            Err(e) => Err(e),
        };
    }
    match key {
        None => Err(
            "Wii U disc is encrypted; place a matching .key file alongside it".to_owned(),
        ),
        Some(k) => {
            let d: Vec<u8> = wiiu_decrypt_sector(k, b.as_slice());
            if !spells_at(d.as_slice(), 0, "FST\0") {
                return Err(wrong_key.to_owned());
            }
            match parse_wiiu_fst(d.as_slice(), sector_size, SI_FST_OFFSET) {
                Ok(t) => Ok((t, true)),
                Err(e) => Err(e),
            }
        },
    }
}

/// The file table of the system partition of a disc of `len` bytes, and whether it
/// was encrypted.
pub fn open_wiiu_si_fst<S: ByteSource>(
    source: &mut S,
    len: u64,
    sector_size: u64,
    key: Option<&[u8]>,
) -> (r: Result<(WiiUFst, bool), String>)
    requires
        key matches Some(k) ==> k@.len() == 16,
    ensures
        final(source).reads() == old(source).reads(),
        si_outcome(r) == si_opened(
            old(source).reads(),
            len,
            sector_size,
            opt_key(key),
            "Wii U SI FST decryption failed — wrong title key?"@,
        ),
{
    open_si(
        source,
        len,
        sector_size,
        key,
        "Wii U SI FST decryption failed — wrong title key?",
    )
}

/// The paths at which a file of the system partition can stand, as they are tried.
pub open spec fn si_paths(name: Seq<char>) -> Seq<Seq<char>> {
    seq!["02/"@ + name, "01/"@ + name, name]
}

/// Whether a path leads to a file.
pub open spec fn is_file(t: FstView, path: Seq<char>) -> bool {
    entry_of(t, path) matches Some(k) && k < t.entries.len() && !is_dir(t, k)
}

/// The first of some paths from `i` on that leads to a file.
pub open spec fn first_file(t: FstView, paths: Seq<Seq<char>>, i: int) -> Option<Seq<char>>
    decreases paths.len() - i,
{
    if i < 0 || i >= paths.len() {
        None
    } else if is_file(t, paths[i]) {
        Some(paths[i])
    } else {
        first_file(t, paths, i + 1)
    }
}

/// The error for a file that is at none of its paths.
pub open spec fn missing_error(name: Seq<char>) -> Seq<char> {
    "WiiU SI: none of [\"02/"@ + name + "\", \"01/"@ + name + "\", \""@ + name + "\"] found"@
}

/// How many bytes of a file of the system partition are read: at least 512.
pub open spec fn si_size(t: FstView, k: int) -> int {
    if t.entries[k].size < 0x200 {
        0x200
    } else {
        t.entries[k].size as int
    }
}

/// A file of the system partition: encrypted by the key where there is one.
pub open spec fn si_file(reads: Reads, t: FstView, key: Option<Seq<u8>>, name: Seq<char>) -> Result<
    Seq<u8>,
    Seq<char>,
> {
    match first_file(t, si_paths(name), 0) {
        None => Err(missing_error(name)),
        Some(path) => {
            let k = entry_of(t, path)->0;
            let base = content_base(t, t.entries[k].content_idx as int);
            source::labelled(
                match key {
                    Some(key) => content_bytes(
                        reads,
                        base,
                        Scheme::Chunks,
                        key,
                        file_start(t, k),
                        si_size(t, k),
                    ),
                    None => clear_bytes(reads, disc_place(t, k), si_size(t, k)),
                },
                "WiiU SI: failed to read "@ + path + ": "@,
            )
        },
    }
}

/// Reads a file of the system partition at a path.
fn read_si_path<S: ByteSource>(source: &mut S, t: &WiiUFst, key: Option<&[u8]>, path: &str, k: usize) -> (r:
    Result<Vec<u8>, String>)
    requires
        key matches Some(x) ==> x@.len() == 16,
        k < t.entries@.len(),
        content_base(t@, t@.entries[k as int].content_idx as int)
            <= 0x1_0000_0000_0000_0000_0000,
    ensures
        final(source).reads() == old(source).reads(),
        source::outcome(r) == source::labelled(
            match opt_key(key) {
                Some(x) => content_bytes(
                    old(source).reads(),
                    content_base(t@, t@.entries[k as int].content_idx as int),
                    Scheme::Chunks,
                    x,
                    file_start(t@, k as int),
                    si_size(t@, k as int),
                ),
                None => clear_bytes(
                    old(source).reads(),
                    disc_place(t@, k as int),
                    si_size(t@, k as int),
                ),
            },
            "WiiU SI: failed to read "@ + path@ + ": "@,
        ),
{
    let base: u128 = t.content_base(t.entries[k].content_idx as usize);
    let start: u128 = t.file_start(k);
    let size: u64 = if t.entries[k].size < 0x200 {
        0x200
    } else {
        t.entries[k].size as u64
    };
    let label: String = join3("WiiU SI: failed to read ", path, ": ");
    let got: Result<Vec<u8>, String> = match key {
        Some(x) => wiiu_content_read(source, base, Scheme::Chunks, x, start, size),
        None => {
            if start > 0x1_0000_0000_0000_0000 {
                proof {
                    lemma_clear_far(
                        source.reads(),
                        disc_place(t@, k as int),
                        si_size(t@, k as int),
                    );
                }
                Err("failed to fill whole buffer".to_owned())
            } else {
                wiiu_read_at(source, base + start, size, None)
            }
        },
    };
    label_error(got, label.as_str())
}

/// Nothing is read past where a position can reach.
proof fn lemma_clear_far(reads: Reads, pos: int, n: int)
    requires
        pos > u64::MAX,
        n > 0,
    ensures
        clear_bytes(reads, pos, n) == Err::<Seq<u8>, Seq<char>>(source::short_read()),
{
}

/// Whether the contents of a table start where a position can reach them, and not
/// much farther.
pub open spec fn bases_ok(t: FstView) -> bool {
    forall|c: int| 0 <= c ==> #[trigger] content_base(t, c) <= 0x1_0000_0000_0000_0000_0000
}

/// The contents of a parsed table are within reach.
proof fn lemma_bases(buf: Seq<u8>, sector_size: u64, partition_base: u64)
    requires
        sector_size <= 0x1_0000_0000,
    ensures
        parsed(buf, sector_size, partition_base) matches Ok(t) ==> bases_ok(t),
{
    if let Ok(t) = parsed(buf, sector_size, partition_base) {
        assert forall|c: int| 0 <= c implies #[trigger] content_base(t, c)
            <= 0x1_0000_0000_0000_0000_0000 by {
            if c < t.sec_hdrs.len() {
                let v = bytes::be32_at(buf, 0x20 + c * 0x20);
                assert(t.sec_hdrs[c].0 == v as u64);
                assert(0 <= v <= 0xffff_ffff);
                if v >= 1 {
                    let a = v - 1;
                    let b = sector_size as int;
                    assert(0 <= a * b <= 0xffff_ffff * 0x1_0000_0000) by (nonlinear_arith)
                        requires
                            0 <= a <= 0xffff_ffff,
                            0 <= b <= 0x1_0000_0000,
                    ;
                    assert(t.sec_hdrs[c].0 as int - 1 == a);
                    assert(content_base(t, c) == partition_base + a * b);
                }
            } else {
                assert(0int * (sector_size as int) == 0) by (nonlinear_arith);
            }
        }
    }
}

/// Reads a file of the system partition.
pub fn wiiu_read_si_file<S: ByteSource>(source: &mut S, t: &WiiUFst, key: Option<&[u8]>, name: &str) -> (r:
    Result<Vec<u8>, String>)
    requires
        key matches Some(x) ==> x@.len() == 16,
        bases_ok(t@),
    ensures
        final(source).reads() == old(source).reads(),
        source::outcome(r) == si_file(old(source).reads(), t@, opt_key(key), name@),
{
    let ghost paths = si_paths(name@);
    let second: String = join2("02/", name);
    let first: String = join2("01/", name);
    assert(paths[0] == second@ && paths[1] == first@ && paths[2] == name@);
    proof {
        reveal_with_fuel(first_file, 4);
    }
    if let Some(k) = t.find_entry(second.as_str()) {
        if k < t.entries.len() && !t.is_dir(k) {
            return read_si_path(source, t, key, second.as_str(), k);
        }
    }
    if let Some(k) = t.find_entry(first.as_str()) {
        if k < t.entries.len() && !t.is_dir(k) {
            return read_si_path(source, t, key, first.as_str(), k);
        }
    }
    if let Some(k) = t.find_entry(name) {
        if k < t.entries.len() && !t.is_dir(k) {
            return read_si_path(source, t, key, name, k);
        }
    }
    let mut e: String = "WiiU SI: none of [\"02/".to_owned();
    e.append(name);
    e.append("\", \"01/");
    e.append(name);
    e.append("\", \"");
    e.append(name);
    e.append("\"] found");
    Err(e)
}

// ── The game partition ──────────────────────────────────────────────────────

/// The key that the title keys of retail discs are encrypted with.
pub open spec fn retail_common_key() -> Seq<u8> {
    seq![
        0xd7u8, 0xb0, 0x04, 0x02, 0x65, 0x9b, 0xa2, 0xab, 0xd2, 0xcb, 0x0d, 0xb2, 0x7f, 0xa2, 0xb6,
        0x56,
    ]
}

/// The key that the title keys of development discs are encrypted with.
pub open spec fn dev_common_key() -> Seq<u8> {
    seq![
        0x2fu8, 0x5c, 0x1b, 0x29, 0x44, 0xe7, 0xfd, 0x6f, 0xc3, 0x97, 0x96, 0x4b, 0x05, 0x76, 0x91,
        0xfa,
    ]
}

/// The title key in a ticket: decrypted with the common key, from the title's
/// number on.
pub open spec fn title_key(tik: Seq<u8>, retail: bool) -> Result<Seq<u8>, Seq<char>> {
    if tik.len() < 0x1E4 {
        Err("WiiU GM: title.tik too small to contain title key"@)
    } else if tik.subrange(0x1BF, 0x1CF) == bytes::zeros(16) {
        Err(
            "WiiU GM: title.tik is not available in this disc (sparse sector) — GM partition inaccessible"@,
        )
    } else {
        Ok(
            codec::cbc_decrypted(
                if retail {
                    retail_common_key()
                } else {
                    dev_common_key()
                },
                tik.subrange(0x1DC, 0x1E4) + bytes::zeros(8),
                tik.subrange(0x1BF, 0x1CF),
            ),
        )
    }
}

/// Unwraps the title key in a ticket.
pub fn unwrap_title_key(tik: &[u8], retail: bool) -> (r: Result<Vec<u8>, String>)
    ensures
        source::outcome(r) == title_key(tik@, retail),
        r matches Ok(k) ==> k@.len() == 16,
{
    let len: usize = tik.len();
    if len < 0x1E4 {
        return Err("WiiU GM: title.tik too small to contain title key".to_owned());
    }
    let wrapped: Vec<u8> = cut(tik, 0x1BF, 0x1CF);
    let zero: Vec<u8> = zeroes(16);
    if bytes::same_bytes(wrapped.as_slice(), zero.as_slice()) {
        return Err(
            "WiiU GM: title.tik is not available in this disc (sparse sector) — GM partition inaccessible".to_owned(),
        );
    }
    let mut iv: Vec<u8> = cut(tik, 0x1DC, 0x1E4);
    let mut tail: Vec<u8> = zeroes(8);
    iv.append(&mut tail);
    let retail_key: [u8; 16] = [
        0xd7, 0xb0, 0x04, 0x02, 0x65, 0x9b, 0xa2, 0xab, 0xd2, 0xcb, 0x0d, 0xb2, 0x7f, 0xa2, 0xb6,
        0x56,
    ];
    let dev_key: [u8; 16] = [
        0x2f, 0x5c, 0x1b, 0x29, 0x44, 0xe7, 0xfd, 0x6f, 0xc3, 0x97, 0x96, 0x4b, 0x05, 0x76, 0x91,
        0xfa,
    ];
    assert(retail_key@ =~= retail_common_key());
    assert(dev_key@ =~= dev_common_key());
    if retail {
        Ok(aes_cbc_decrypt(retail_key.as_slice(), iv.as_slice(), wrapped.as_slice()))
    } else {
        Ok(aes_cbc_decrypt(dev_key.as_slice(), iv.as_slice(), wrapped.as_slice()))
    }
}

/// Whether a partition header stands at a position.
pub open spec fn is_partition(reads: Reads, pos: int) -> bool {
    reads(pos, 4) matches Ok(b) && bytes::be32_at(b, 0) == 0xCC93A4F5
}

/// Where the game partition of a disc starts.
pub open spec fn gm_base(reads: Reads) -> Option<u64> {
    if is_partition(reads, 0xC000_0000) {
        Some(0xC000_0000)
    } else if is_partition(reads, 0x48000) {
        Some(0x48000)
    } else {
        None
    }
}

/// Finds where the game partition of a disc starts.
pub fn find_gm_partition_base<S: ByteSource>(source: &mut S) -> (r: Option<u64>)
    ensures
        final(source).reads() == old(source).reads(),
        r == gm_base(old(source).reads()),
{
    if let Ok(b) = source.read_exact_at(0xC000_0000, 4) {
        if read_u32_be(b.as_slice(), 0) == 0xCC93A4F5 {
            return Some(0xC000_0000);
        }
    }
    if let Ok(b) = source.read_exact_at(0x48000, 4) {
        if read_u32_be(b.as_slice(), 0) == 0xCC93A4F5 {
            return Some(0x48000);
        }
    }
    None
}

/// How a title's first content is stored.
pub open spec fn first_scheme(contents: Seq<TitleContent>) -> Scheme {
    if contents.len() == 0 {
        Scheme::Sectors(0)
    } else if contents[0].hashed {
        Scheme::Hashed
    } else {
        Scheme::Sectors(contents[0].index)
    }
}

/// The file table of the game partition at `base`, whose contents a title
/// describes.
pub open spec fn gm_table(
    reads: Reads,
    base: u64,
    sector_size: u64,
    key: Seq<u8>,
    contents: Seq<TitleContent>,
) -> Result<FstView, Seq<char>> {
    match source::labelled(reads(base as int, 0x8000), "WiiU GM header read: "@) {
        Err(e) => Err(e),
        Ok(h) => {
            let block = bytes::be32_at(h, 4);
            match source::labelled(
                content_bytes(
                    reads,
                    base + bytes::be32_at(h, 0x18) * block,
                    first_scheme(contents),
                    key,
                    0,
                    bytes::be32_at(h, 0x14),
                ),
                "WiiU GM FST read: "@,
            ) {
                Err(e) => Err(e),
                Ok(b) => if !bytes::spells(b, 0, "FST\0"@) {
                    Err("WiiU GM FST: bad magic after decryption — wrong title key?"@)
                } else {
                    match parsed(b, sector_size, (base + block) as u64) {
                        Err(e) => Err(e),
                        Ok(t) => Ok(
                            FstView {
                                content_hashed: contents.map_values(|c: TitleContent| c.hashed),
                                content_iv_idx: contents.map_values(|c: TitleContent| c.index),
                                ..t
                            },
                        ),
                    }
                },
            }
        },
    }
}

/// The file table of the game partition of a disc of `len` bytes, and its title
/// key.
pub open spec fn gm_opened(reads: Reads, len: u64, sector_size: u64, key: Option<Seq<u8>>) -> Result<
    (FstView, Seq<u8>),
    Seq<char>,
> {
    match si_opened(
        reads,
        len,
        sector_size,
        key,
        "Wii U SI FST decryption failed — wrong .key file?"@,
    ) {
        Err(e) => Err(e),
        Ok((si, _)) => match si_file(reads, si, key, "title.tik"@) {
            Err(e) => Err(e),
            Ok(tik) => match title_key(tik, key is Some) {
                Err(e) => Err(e),
                Ok(title) => match si_file(reads, si, key, "title.tmd"@) {
                    Err(e) => Err(e),
                    Ok(tmd) => match gm_base(reads) {
                        None => Err("WiiU: GM partition not found at known offsets"@),
                        Some(base) => match gm_table(
                            reads,
                            base,
                            sector_size,
                            title,
                            title_contents(tmd),
                        ) {
                            Err(e) => Err(e),
                            Ok(t) => Ok((t, title)),
                        },
                    },
                },
            },
        },
    }
}

/// The contents of the outcome of opening the game partition.
pub open spec fn gm_outcome(r: Result<(WiiUFst, Vec<u8>), String>) -> Result<
    (FstView, Seq<u8>),
    Seq<char>,
> {
    match r {
        Ok((t, k)) => Ok((t@, k@)),
        Err(e) => Err(e@),
    }
}

/// The schemes and the numbers of a title's contents.
fn split_contents(contents: &Vec<TitleContent>) -> (r: (Vec<bool>, Vec<u16>))
    ensures
        r.0@ == contents@.map_values(|c: TitleContent| c.hashed),
        r.1@ == contents@.map_values(|c: TitleContent| c.index),
{
    let mut hashed: Vec<bool> = Vec::new();
    let mut index: Vec<u16> = Vec::new();
    let mut i: usize = 0;
    while i < contents.len()
        invariant
            i <= contents@.len(),
            hashed@.len() == i,
            index@.len() == i,
            forall|j: int| 0 <= j < i ==> #[trigger] hashed@[j] == contents@[j].hashed,
            forall|j: int| 0 <= j < i ==> #[trigger] index@[j] == contents@[j].index,
        decreases contents@.len() - i,
    {
        hashed.push(contents[i].hashed);
        index.push(contents[i].index);
        i += 1;
    }
    assert(hashed@ =~= contents@.map_values(|c: TitleContent| c.hashed));
    assert(index@ =~= contents@.map_values(|c: TitleContent| c.index));
    (hashed, index)
}

/// Reads the file table of the game partition at `base`.
fn read_gm_table<S: ByteSource>(
    source: &mut S,
    base: u64,
    sector_size: u64,
    key: &[u8],
    contents: &Vec<TitleContent>,
) -> (r: Result<WiiUFst, String>)
    requires
        key@.len() == 16,
        base <= 0xC000_0000,
    ensures
        final(source).reads() == old(source).reads(),
        fst_outcome(r) == gm_table(
            old(source).reads(),
            base,
            sector_size,
            key@,
            contents@,
        ),
{
    let h: Vec<u8> = match read_labelled(source, base, 0x8000, "WiiU GM header read: ") {
        Ok(b) => b,
        Err(e) => {
            return Err(e);
        },
    };
    let block: u32 = read_u32_be(h.as_slice(), 4);
    let size: u32 = read_u32_be(h.as_slice(), 0x14);
    let addr: u32 = read_u32_be(h.as_slice(), 0x18);
    proof {
        let a = addr as int;
        let b = block as int;
        assert(0 <= a * b <= 0xffff_ffff * 0xffff_ffff) by (nonlinear_arith)
            requires
                0 <= a <= 0xffff_ffff,
                0 <= b <= 0xffff_ffff,
        ;
    }
    let at: u128 = base as u128 + addr as u128 * block as u128;
    let scheme: Scheme = if contents.len() == 0 {
        Scheme::Sectors(0)
    } else if contents[0].hashed {
        Scheme::Hashed
    } else {
        Scheme::Sectors(contents[0].index)
    };
    let b: Vec<u8> = match label_error(
        wiiu_content_read(source, at, scheme, key, 0, size as u64),
        "WiiU GM FST read: ",
    ) {
        Ok(b) => b,
        Err(e) => {
            return Err(e);
        },
    };
    if !spells_at(b.as_slice(), 0, "FST\0") {
        return Err("WiiU GM FST: bad magic after decryption — wrong title key?".to_owned());
    }
    let mut t: WiiUFst = match parse_wiiu_fst(b.as_slice(), sector_size, base + block as u64) {
        Ok(t) => t,
        Err(e) => {
            return Err(e);
        },
    };
    let (hashed, index): (Vec<bool>, Vec<u16>) = split_contents(contents);
    t.content_hashed = hashed;
    t.content_iv_idx = index;
    Ok(t)
}

/// Opens the file table of the game partition of a disc of `len` bytes: `key` is
/// the disc's own key, none for a development disc.
pub fn open_wiiu_gm_fst<S: ByteSource>(
    source: &mut S,
    len: u64,
    sector_size: u64,
    key: Option<&[u8]>,
) -> (r: Result<(WiiUFst, Vec<u8>), String>)
    requires
        key matches Some(k) ==> k@.len() == 16,
        sector_size <= 0x1_0000_0000,
    ensures
        final(source).reads() == old(source).reads(),
        gm_outcome(r) == gm_opened(old(source).reads(), len, sector_size, opt_key(key)),
        r matches Ok((_, k)) ==> k@.len() == 16,
{
    let ghost reads = source.reads();
    let (si, _): (WiiUFst, bool) = match open_si(
        source,
        len,
        sector_size,
        key,
        "Wii U SI FST decryption failed — wrong .key file?",
    ) {
        Ok(p) => p,
        Err(e) => {
            return Err(e);
        },
    };
    proof {
        let b = si_head(reads, len)->Ok_0;
        lemma_bases(b, sector_size, SI_FST_OFFSET);
        if let Some(k) = opt_key(key) {
            lemma_bases(sector_decrypted(k, b), sector_size, SI_FST_OFFSET);
        }
    }
    let tik: Vec<u8> = match wiiu_read_si_file(source, &si, key, "title.tik") {
        Ok(b) => b,
        Err(e) => {
            return Err(e);
        },
    };
    let title: Vec<u8> = match unwrap_title_key(tik.as_slice(), key.is_some()) {
        Ok(k) => k,
        Err(e) => {
            return Err(e);
        },
    };
    let tmd: Vec<u8> = match wiiu_read_si_file(source, &si, key, "title.tmd") {
        Ok(b) => b,
        Err(e) => {
            return Err(e);
        },
    };
    let contents: Vec<TitleContent> = wiiu_parse_tmd_contents(tmd.as_slice());
    let base: u64 = match find_gm_partition_base(source) {
        Some(b) => b,
        None => {
            return Err("WiiU: GM partition not found at known offsets".to_owned());
        },
    };
    match read_gm_table(source, base, sector_size, title.as_slice(), &contents) {
        Ok(t) => Ok((t, title)),
        Err(e) => Err(e),
    }
}

// ── Extraction ──────────────────────────────────────────────────────────────

/// How the content of an entry is stored.
pub open spec fn scheme_of(t: FstView, k: int) -> Scheme {
    let c = t.entries[k].content_idx as int;
    if is_hashed(t, c) {
        Scheme::Hashed
    } else {
        Scheme::Sectors(iv_index(t, c))
    }
}

/// A file of the game partition.
pub open spec fn gm_file(reads: Reads, t: FstView, key: Seq<u8>, path: Seq<char>) -> Result<
    Seq<u8>,
    Seq<char>,
> {
    match entry_of(t, path) {
        None => Err("WiiU GM: file not found: "@ + path),
        Some(k) => if is_dir(t, k) {
            Err("WiiU GM: "@ + path + " is a directory"@)
        } else if k >= t.entries.len() {
            Err("WiiU GM: file not found: "@ + path)
        } else {
            source::labelled(
                content_bytes(
                    reads,
                    content_base(t, t.entries[k].content_idx as int),
                    scheme_of(t, k),
                    key,
                    file_start(t, k),
                    t.entries[k].size as int,
                ),
                "WiiU GM file read: "@,
            )
        },
    }
}

/// A file of the system partition, by its path.
pub open spec fn si_path_file(reads: Reads, t: FstView, key: Option<Seq<u8>>, path: Seq<char>) -> Result<
    Seq<u8>,
    Seq<char>,
> {
    match entry_of(t, path) {
        None => Err("WiiU: file not found: "@ + path),
        Some(k) => if is_dir(t, k) {
            Err("WiiU: "@ + path + " is a directory"@)
        } else if k >= t.entries.len() {
            Err("WiiU: file not found: "@ + path)
        } else {
            source::labelled(
                disc_bytes(reads, disc_place(t, k), t.entries[k].size as int, key),
                "WiiU file read: "@,
            )
        },
    }
}

/// Reads a file of the game partition.
pub fn wiiu_gm_fst_extract_file<S: ByteSource>(
    source: &mut S,
    t: &WiiUFst,
    key: &[u8],
    path: &str,
) -> (r: Result<Vec<u8>, String>)
    requires
        key@.len() == 16,
    ensures
        final(source).reads() == old(source).reads(),
        source::outcome(r) == gm_file(old(source).reads(), t@, key@, path@),
{
    let k: usize = match t.find_entry(path) {
        Some(k) => k,
        None => {
            return Err(join2("WiiU GM: file not found: ", path));
        },
    };
    if t.is_dir(k) {
        return Err(join3("WiiU GM: ", path, " is a directory"));
    }
    if k >= t.entries.len() {
        return Err(join2("WiiU GM: file not found: ", path));
    }
    let c: u16 = t.entries[k].content_idx;
    let base: u128 = t.content_base(c as usize);
    let scheme: Scheme = if t.content_is_hashed(c as usize) {
        Scheme::Hashed
    } else {
        Scheme::Sectors(t.content_iv_index(c))
    };
    let start: u128 = t.file_start(k);
    label_error(
        wiiu_content_read(source, base, scheme, key, start, t.entries[k].size as u64),
        "WiiU GM file read: ",
    )
}

/// Nothing is decrypted past where a position can reach.
proof fn lemma_sectors_far(reads: Reads, key: Seq<u8>, pos: int, n: int)
    requires
        pos > 0x1_0000_0000_0000_0000 + 0x10000,
        n > 0,
    ensures
        content_bytes(reads, 0, Scheme::Sectors(0), key, pos, n) == Err::<Seq<u8>, Seq<char>>(
            source::short_read(),
        ),
{
    let blocks = content_blocks(reads, 0, Scheme::Sectors(0), key);
    let k = pos / 0x8000;
    assert(0 + k * 0x8000 + 0x8000 > u64::MAX);
    assert(blocks(k) == Err::<Seq<u8>, Seq<char>>(source::short_read()));
}

/// Reads a file of the system partition by its path.
pub fn wiiu_fst_extract_file<S: ByteSource>(
    source: &mut S,
    t: &WiiUFst,
    key: Option<&[u8]>,
    path: &str,
) -> (r: Result<Vec<u8>, String>)
    requires
        key matches Some(k) ==> k@.len() == 16,
    ensures
        final(source).reads() == old(source).reads(),
        source::outcome(r) == si_path_file(old(source).reads(), t@, opt_key(key), path@),
{
    let k: usize = match t.find_entry(path) {
        Some(k) => k,
        None => {
            return Err(join2("WiiU: file not found: ", path));
        },
    };
    if t.is_dir(k) {
        return Err(join3("WiiU: ", path, " is a directory"));
    }
    if k >= t.entries.len() {
        return Err(join2("WiiU: file not found: ", path));
    }
    let base: u128 = t.content_base(t.entries[k].content_idx as usize);
    let start: u128 = t.file_start(k);
    let size: u64 = t.entries[k].size as u64;
    let far: u128 = 0x1_0000_0000_0000_0000_0000;
    let got: Result<Vec<u8>, String> = if base > far || start > far {
        if size == 0 {
            let none: Vec<u8> = Vec::new();
            assert(none@ =~= seq![]);
            Ok(none)
        } else {
            proof {
                lemma_clear_far(source.reads(), disc_place(t@, k as int), size as int);
                if let Some(x) = opt_key(key) {
                    lemma_sectors_far(source.reads(), x, disc_place(t@, k as int), size as int);
                }
            }
            Err("failed to fill whole buffer".to_owned())
        }
    } else {
        wiiu_read_at(source, base + start, size, key)
    };
    label_error(got, "WiiU file read: ")
}

/// A path below a directory of a partition.
pub open spec fn child_path(dir: Seq<char>, name: Seq<char>) -> Seq<char> {
    if dir == "/"@ || dir.len() == 0 {
        "/"@ + name
    } else {
        dir + "/"@ + name
    }
}

/// The plan for the directory at a path, which goes to `dest`: the directory
/// itself, and what is in it. No path is longer than `fuel` names.
pub open spec fn dir_plan(
    t: FstView,
    label: Seq<char>,
    dir: Seq<char>,
    dest: Seq<char>,
    fuel: int,
) -> Result<PlanView, Seq<char>>
    decreases fuel, 1int, 0int,
{
    if fuel <= 0 {
        Ok(extract::no_plan())
    } else {
        match entry_of(t, dir) {
            None => Err(label + ": directory not found: "@ + dir),
            Some(k) => if !is_dir(t, k) {
                Err(label + ": "@ + dir + " is not a directory"@)
            } else {
                extract::with(
                    PlanView { dirs: seq![dest], files: seq![] },
                    children_plan(t, label, children(t, k), 0, dir, dest, fuel),
                )
            },
        }
    }
}

/// The plan for some entries of a directory from `j` on.
pub open spec fn children_plan(
    t: FstView,
    label: Seq<char>,
    v: Seq<int>,
    j: int,
    dir: Seq<char>,
    dest: Seq<char>,
    fuel: int,
) -> Result<PlanView, Seq<char>>
    decreases fuel, 0int, v.len() - j,
{
    if j < 0 || j >= v.len() || fuel <= 0 {
        Ok(extract::no_plan())
    } else {
        let name = name_of(t, v[j]);
        let from = child_path(dir, name);
        let to = extract::child(dest, sanitize::sanitized(name));
        let rest = children_plan(t, label, v, j + 1, dir, dest, fuel);
        if is_dir(t, v[j]) {
            match dir_plan(t, label, from, to, fuel - 1) {
                Err(e) => Err(e),
                Ok(sub) => extract::with(sub, rest),
            }
        } else {
            extract::with(PlanView { dirs: seq![], files: seq![(from, to)] }, rest)
        }
    }
}

/// A path below a directory of a partition.
fn make_child_path(dir: &str, name: &str) -> (r: String)
    ensures
        r@ == child_path(dir@, name@),
{
    let c: Vec<char> = chars_of(dir);
    if is_text(c.as_slice(), "/") || c.len() == 0 {
        join2("/", name)
    } else {
        join3(dir, "/", name)
    }
}

/// Adds to a plan what extracting a directory of a partition takes.
#[verifier::loop_isolation(false)]
fn plan_dir(t: &WiiUFst, label: &str, dir: &str, dest: &str, plan: &mut ExtractPlan, fuel: usize) -> (r:
    Result<(), String>)
    ensures
        match r {
            Ok(_) => dir_plan(t@, label@, dir@, dest@, fuel as int) matches Ok(p)
                && final(plan)@ == extract::both(old(plan)@, p),
            Err(e) => dir_plan(t@, label@, dir@, dest@, fuel as int) == Err::<
                PlanView,
                Seq<char>,
            >(e@),
        },
    decreases fuel,
{
    let ghost tv = t@;
    let ghost start = plan@;
    if fuel == 0 {
        assert(extract::both(start, extract::no_plan()) =~= start);
        return Ok(());
    }
    let k: usize = match t.find_entry(dir) {
        Some(k) => k,
        None => {
            return Err(join3(label, ": directory not found: ", dir));
        },
    };
    if !t.is_dir(k) {
        let head: String = join3(label, ": ", dir);
        return Err(join2(head.as_str(), " is not a directory"));
    }
    let ghost one = PlanView { dirs: seq![dest@], files: seq![] };
    push_text(&mut plan.dirs, dest);
    assert(plan@ =~= extract::both(start, one));
    let ids: Vec<usize> = t.list_children(k);
    let ghost v = children(tv, k as int);
    let ghost goal = children_plan(tv, label@, v, 0, dir@, dest@, fuel as int);
    let ghost base = plan@;
    let mut j: usize = 0;
    while j < ids.len()
        invariant
            j <= ids@.len(),
            v == ids@.map_values(|i: usize| i as int),
            goal is Err <==> children_plan(
                tv,
                label@,
                v,
                j as int,
                dir@,
                dest@,
                fuel as int,
            ) is Err,
            goal matches Err(e) ==> children_plan(
                tv,
                label@,
                v,
                j as int,
                dir@,
                dest@,
                fuel as int,
            ) == goal,
            goal matches Ok(p) ==> extract::both(
                plan@,
                children_plan(tv, label@, v, j as int, dir@, dest@, fuel as int)->Ok_0,
            ) == extract::both(base, p),
        decreases ids@.len() - j,
    {
        let i: usize = ids[j];
        assert(v[j as int] == i);
        let name: String = t.name(i);
        let safe: String = sanitize_component(name.as_str());
        let from: String = make_child_path(dir, name.as_str());
        let to: String = join3(dest, "/", safe.as_str());
        let ghost before = plan@;
        let ghost rest = children_plan(tv, label@, v, j + 1, dir@, dest@, fuel as int);
        if t.is_dir(i) {
            match plan_dir(t, label, from.as_str(), to.as_str(), plan, fuel - 1) {
                Err(e) => {
                    return Err(e);
                },
                Ok(_) => {},
            }
            proof {
                let sub = dir_plan(tv, label@, from@, to@, fuel - 1)->Ok_0;
                if let Ok(p) = rest {
                    assert(extract::both(before, extract::both(sub, p)) =~= extract::both(
                        plan@,
                        p,
                    ));
                }
            }
        } else {
            let ghost file = PlanView { dirs: seq![], files: seq![(from@, to@)] };
            plan.files.push(ExtractItem { src: from, dest: to });
            proof {
                assert(plan@ =~= extract::both(before, file));
                if let Ok(p) = rest {
                    assert(extract::both(before, extract::both(file, p)) =~= extract::both(
                        plan@,
                        p,
                    ));
                }
            }
        }
        j += 1;
    }
    proof {
        assert(extract::both(plan@, extract::no_plan()) =~= plan@);
        let p = goal->Ok_0;
        assert(extract::both(start, extract::both(one, p)) =~= extract::both(base, p));
    }
    Ok(())
}

/// Plans the extraction of a directory of a partition; `label` names the partition
/// in errors. Paths of more names than the table has entries are left out.
pub fn plan_wiiu_dir(t: &WiiUFst, label: &str, dir: &str, dest: &str) -> (r: Result<
    ExtractPlan,
    String,
>)
    requires
        t.entries@.len() < usize::MAX,
    ensures
        match r {
            Ok(p) => dir_plan(t@, label@, dir@, dest@, t@.entries.len() + 1int) == Ok::<
                PlanView,
                Seq<char>,
            >(p@),
            Err(e) => dir_plan(t@, label@, dir@, dest@, t@.entries.len() + 1int) == Err::<
                PlanView,
                Seq<char>,
            >(e@),
        },
{
    let mut plan: ExtractPlan = ExtractPlan { dirs: Vec::new(), files: Vec::new() };
    assert(plan@ =~= extract::no_plan());
    let fuel: usize = t.entries.len() + 1;
    match plan_dir(t, label, dir, dest, &mut plan, fuel) {
        Err(e) => Err(e),
        Ok(_) => {
            proof {
                let p = dir_plan(t@, label@, dir@, dest@, fuel as int)->Ok_0;
                assert(extract::both(extract::no_plan(), p) =~= p);
            }
            Ok(plan)
        },
    }
}

/// What a plan for a directory of a partition writes is the directory itself or
/// below it.
pub open spec fn stays_at(dest: Seq<char>, p: PlanView) -> bool {
    &&& forall|i: int|
        0 <= i < p.dirs.len() ==> #[trigger] p.dirs[i] == dest || extract::is_below(
            dest,
            p.dirs[i],
        )
    &&& forall|i: int|
        0 <= i < p.files.len() ==> extract::is_below(dest, (#[trigger] p.files[i]).1)
}

/// Two plans that stay at a directory do so together.
proof fn lemma_both_at(dest: Seq<char>, a: PlanView, b: PlanView)
    requires
        stays_at(dest, a),
        stays_at(dest, b),
    ensures
        stays_at(dest, extract::both(a, b)),
{
    let p = extract::both(a, b);
    assert forall|i: int| 0 <= i < p.dirs.len() implies #[trigger] p.dirs[i] == dest
        || extract::is_below(dest, p.dirs[i]) by {
        if i < a.dirs.len() {
            assert(p.dirs[i] == a.dirs[i]);
        } else {
            assert(p.dirs[i] == b.dirs[i - a.dirs.len()]);
        }
    }
    assert forall|i: int| 0 <= i < p.files.len() implies extract::is_below(
        dest,
        (#[trigger] p.files[i]).1,
    ) by {
        if i < a.files.len() {
            assert(p.files[i] == a.files[i]);
        } else {
            assert(p.files[i] == b.files[i - a.files.len()]);
        }
    }
}

/// Whatever names a file table holds, a directory that is extracted from it is
/// written at the destination and below.
pub proof fn extraction_stays_at_the_destination(
    t: FstView,
    label: Seq<char>,
    dir: Seq<char>,
    dest: Seq<char>,
    fuel: int,
)
    ensures
        dir_plan(t, label, dir, dest, fuel) matches Ok(p) ==> stays_at(dest, p),
    decreases fuel, 1int, 0int,
{
    if fuel > 0 {
        if let Some(k) = entry_of(t, dir) {
            if is_dir(t, k) {
                lemma_children_at(t, label, children(t, k), 0, dir, dest, fuel);
                if let Ok(p) = children_plan(t, label, children(t, k), 0, dir, dest, fuel) {
                    lemma_both_at(dest, PlanView { dirs: seq![dest], files: seq![] }, p);
                }
            }
        }
    }
}

/// The plan for the entries of a directory stays at its destination.
proof fn lemma_children_at(
    t: FstView,
    label: Seq<char>,
    v: Seq<int>,
    j: int,
    dir: Seq<char>,
    dest: Seq<char>,
    fuel: int,
)
    ensures
        children_plan(t, label, v, j, dir, dest, fuel) matches Ok(p) ==> stays_at(dest, p),
    decreases fuel, 0int, v.len() - j,
{
    if 0 <= j < v.len() && fuel > 0 {
        let name = name_of(t, v[j]);
        let from = child_path(dir, name);
        let to = extract::child(dest, sanitize::sanitized(name));
        lemma_children_at(t, label, v, j + 1, dir, dest, fuel);
        assert(extract::below(dest, to, 1));
        assert(extract::is_below(dest, to));
        if let Ok(rest) = children_plan(t, label, v, j + 1, dir, dest, fuel) {
            if is_dir(t, v[j]) {
                extraction_stays_at_the_destination(t, label, from, to, fuel - 1);
                if let Ok(sub) = dir_plan(t, label, from, to, fuel - 1) {
                    assert forall|i: int| 0 <= i < sub.dirs.len() implies #[trigger] sub.dirs[i]
                        == dest || extract::is_below(dest, sub.dirs[i]) by {
                        if sub.dirs[i] != to {
                            extract::lemma_deeper(dest, name, sub.dirs[i]);
                        }
                    }
                    assert forall|i: int| 0 <= i < sub.files.len() implies extract::is_below(
                        dest,
                        (#[trigger] sub.files[i]).1,
                    ) by {
                        extract::lemma_deeper(dest, name, sub.files[i].1);
                    }
                    lemma_both_at(dest, sub, rest);
                }
            } else {
                lemma_both_at(dest, PlanView { dirs: seq![], files: seq![(from, to)] }, rest);
            }
        }
    }
}

// ── Paths and labels ────────────────────────────────────────────────────────

/// What a path on a disc names: the root, a place in one of the partitions, or
/// nothing.
pub enum Place {
    Root,
    System(String),
    Game(String),
    Unknown,
}

/// The contents of a place.
pub enum PlaceView {
    Root,
    System(Seq<char>),
    Game(Seq<char>),
    Unknown,
}

impl View for Place {
    type V = PlaceView;

    open spec fn view(&self) -> PlaceView {
        match self {
            Place::Root => PlaceView::Root,
            Place::System(p) => PlaceView::System(p@),
            Place::Game(p) => PlaceView::Game(p@),
            Place::Unknown => PlaceView::Unknown,
        }
    }
}

/// Whether a path is in a partition of some name.
pub open spec fn is_in(norm: Seq<char>, part: Seq<char>) -> bool {
    norm == part || text::begins(norm, part + "/"@)
}

/// What a path names for a listing.
pub open spec fn place_of(path: Seq<char>) -> PlaceView {
    let norm = text::strip_front(path, '/');
    if norm.len() == 0 {
        PlaceView::Root
    } else if is_in(norm, "SI"@) {
        PlaceView::System(norm.skip(2))
    } else if is_in(norm, "GM"@) {
        PlaceView::Game(norm.skip(2))
    } else {
        PlaceView::Unknown
    }
}

/// What a path names for an extraction: where it names no partition, the system
/// partition.
pub open spec fn extraction_place(path: Seq<char>) -> PlaceView {
    let norm = text::strip_front(path, '/');
    if is_in(norm, "GM"@) {
        PlaceView::Game(norm.skip(2))
    } else if is_in(norm, "SI"@) {
        PlaceView::System(norm.skip(2))
    } else {
        PlaceView::System(path)
    }
}

/// Whether a path is in the system partition.
fn in_system(norm: &[char]) -> (r: bool)
    ensures
        r == is_in(norm@, "SI"@),
{
    proof {
        reveal_strlit("SI");
        reveal_strlit("/");
        reveal_strlit("SI/");
        assert("SI/"@ =~= "SI"@ + "/"@);
    }
    is_text(norm, "SI") || starts_with(norm, "SI/")
}

/// Whether a path is in the game partition.
fn in_game(norm: &[char]) -> (r: bool)
    ensures
        r == is_in(norm@, "GM"@),
{
    proof {
        reveal_strlit("GM");
        reveal_strlit("/");
        reveal_strlit("GM/");
        assert("GM/"@ =~= "GM"@ + "/"@);
    }
    is_text(norm, "GM") || starts_with(norm, "GM/")
}

/// What is left of a path behind the name of its partition.
fn behind_partition(norm: &[char]) -> (r: String)
    requires
        norm@.len() >= 2,
    ensures
        r@ == norm@.skip(2),
{
    let n: usize = norm.len();
    let rest: Vec<char> = text::cut_chars(norm, 2, n);
    assert(norm@.subrange(2, n as int) =~= norm@.skip(2));
    string_of(rest.as_slice())
}

/// A path in a partition is at least as long as its name.
proof fn lemma_in_len(norm: Seq<char>, part: Seq<char>)
    requires
        is_in(norm, part),
    ensures
        norm.len() >= part.len(),
{
}

/// What a path names for a listing.
pub fn listing_place(path: &str) -> (r: Place)
    ensures
        r@ == place_of(path@),
{
    proof {
        reveal_strlit("SI");
        reveal_strlit("GM");
    }
    let c: Vec<char> = chars_of(path);
    let norm: Vec<char> = trim_start_of(c.as_slice(), '/');
    let n: &[char] = norm.as_slice();
    if norm.len() == 0 {
        Place::Root
    } else if in_system(n) {
        proof {
            lemma_in_len(norm@, "SI"@);
        }
        Place::System(behind_partition(n))
    } else if in_game(n) {
        proof {
            lemma_in_len(norm@, "GM"@);
        }
        Place::Game(behind_partition(n))
    } else {
        Place::Unknown
    }
}

/// What a path names for an extraction.
pub fn source_place(path: &str) -> (r: Place)
    ensures
        r@ == extraction_place(path@),
{
    proof {
        reveal_strlit("SI");
        reveal_strlit("GM");
    }
    let c: Vec<char> = chars_of(path);
    let norm: Vec<char> = trim_start_of(c.as_slice(), '/');
    let n: &[char] = norm.as_slice();
    if in_game(n) {
        proof {
            lemma_in_len(norm@, "GM"@);
        }
        Place::Game(behind_partition(n))
    } else if in_system(n) {
        proof {
            lemma_in_len(norm@, "SI"@);
        }
        Place::System(behind_partition(n))
    } else {
        Place::System(path.to_owned())
    }
}

/// What the root of a disc lists.
pub fn list_partitions() -> (r: Vec<DiscEntry>)
    ensures
        entry::listing(r@) == seq![entry::dir_line("SI"@), entry::dir_line("GM"@)],
{
    let mut out: Vec<DiscEntry> = Vec::new();
    out.push(entry::dir_entry("SI".to_owned()));
    out.push(entry::dir_entry("GM".to_owned()));
    assert(entry::listing(out@) =~= seq![entry::dir_line("SI"@), entry::dir_line("GM"@)]);
    out
}

/// The error for a path that names no partition.
pub fn unknown_place(path: &str) -> (r: String)
    ensures
        r@ == "WiiU: unknown partition path: "@ + path@,
{
    join2("WiiU: unknown partition path: ", path)
}

/// The title key in a key file: its first sixteen bytes.
pub fn load_title_key(data: &[u8]) -> (r: Option<Vec<u8>>)
    ensures
        match r {
            Some(k) => data@.len() >= 16 && k@ == data@.take(16),
            None => data@.len() < 16,
        },
{
    if data.len() < 16 {
        return None;
    }
    assert(data@.subrange(0, 16) =~= data@.take(16));
    Some(cut(data, 0, 16))
}

/// The name of a disc by the title in its header.
pub open spec fn label_of(title: Seq<char>) -> Seq<char> {
    let t = text::trimmed(title);
    if t.len() == 0 {
        "Wii U disc"@
    } else {
        "Wii U — "@ + t
    }
}

/// The name of a disc.
pub open spec fn disc_label(reads: Reads) -> Option<Seq<char>> {
    match reads(0, 0x60) {
        Err(_) => None,
        Ok(h) => Some(label_of(text::text_to_zero(h.subrange(0x20, 0x60)))),
    }
}

/// The name of a disc by the title in its header.
pub fn make_label(title: &str) -> (r: String)
    ensures
        r@ == label_of(title@),
{
    let c: Vec<char> = chars_of(title);
    let t: Vec<char> = trim(c.as_slice());
    if t.len() == 0 {
        return "Wii U disc".to_owned();
    }
    let bare: String = string_of(t.as_slice());
    join2("Wii U — ", bare.as_str())
}

/// Reads the name of a disc.
pub fn wux_disc_label<S: ByteSource>(source: &mut S) -> (r: Option<String>)
    ensures
        final(source).reads() == old(source).reads(),
        match r {
            Some(t) => disc_label(old(source).reads()) == Some(t@),
            None => disc_label(old(source).reads()) is None,
        },
{
    match source.read_exact_at(0, 0x60) {
        Err(_) => None,
        Ok(h) => {
            let raw: Vec<u8> = cut(h.as_slice(), 0x20, 0x60);
            let title: String = read_to_zero(raw.as_slice());
            Some(make_label(title.as_str()))
        },
    }
}

// ── Laws of contents ────────────────────────────────────────────────────────

/// Whole blocks, one after the other, make up what is read.
proof fn lemma_pieces(blocks: Blocks, size: int, plain: Seq<Seq<u8>>, off: int, n: int)
    requires
        size > 0,
        0 <= off,
        0 <= n,
        off + n <= plain.len() * size,
        forall|k: int|
            0 <= k < plain.len() ==> (#[trigger] plain[k]).len() == size && blocks(k) == Ok::<
                Seq<u8>,
                Seq<char>,
            >(plain[k]),
    ensures
        pieces(blocks, size, off, n) == Ok::<Seq<u8>, Seq<char>>(
            source::end_to_end(plain, size).subrange(off, off + n),
        ),
    decreases n,
{
    let all = source::end_to_end(plain, size);
    let at = off % size;
    let k = off / size;
    vstd::arithmetic::div_mod::lemma_fundamental_div_mod(off, size);
    vstd::arithmetic::div_mod::lemma_mod_bound(off, size);
    if n > 0 {
        let take = if n < size - at {
            n
        } else {
            size - at
        };
        let len = plain.len() as int;
        assert(0 <= k < len) by (nonlinear_arith)
            requires
                size > 0,
                off == size * k + at,
                0 <= at < size,
                0 <= off < len * size,
        ;
        assert(plain[k].len() == size);
        lemma_pieces(blocks, size, plain, off + take, n - take);
        let head = plain[k].subrange(at, at + take);
        assert forall|j: int| 0 <= j < take implies head[j] == #[trigger] all[off + j] by {
            source::lemma_within_part(k, size, at + j);
            assert(k * size == size * k) by (nonlinear_arith);
        }
        let tail = all.subrange(off + take, off + n);
        assert(0 <= len * size) by (nonlinear_arith)
            requires
                0 <= len,
                size > 0,
        ;
        assert forall|j: int| 0 <= j < n implies (head + tail)[j] == #[trigger] all[off + j] by {
            if j >= take {
                assert(tail[j - take] == all[off + j]);
            }
        }
        assert forall|j: int| 0 <= j < n implies (head + tail)[j] == #[trigger] all.subrange(
            off,
            off + n,
        )[j] by {
            assert(all.subrange(off, off + n)[j] == all[off + j]);
        }
        assert(head + tail =~= all.subrange(off, off + n));
    } else {
        assert(all.subrange(off, off) =~= seq![]);
    }
}

/// The blocks of a content stored in parts of `size` bytes are where those before them end.
proof fn lemma_stored(
    front: Seq<u8>,
    stored: Seq<Seq<u8>>,
    size: int,
    rest: Seq<u8>,
    k: int,
)
    requires
        size > 0,
        0 <= k < stored.len(),
        stored[k].len() == size,
        source::image_of(front, stored, size, rest).len() <= u64::MAX,
    ensures
        source::reach(
            source::reads_of(source::image_of(front, stored, size, rest)),
            front.len() + k * size,
            size,
        ) == Ok::<Seq<u8>, Seq<char>>(stored[k]),
{
    source::parts_follow_each_other(front, stored, size, rest, k);
}

/// Stored blocks do not overlap and leave no gap: of a content stored as blocks of 0x10000
/// bytes, each with a table of hashes and the 0xFC00 bytes of `plain` that are encrypted
/// from one of them, every read gives the bytes of `plain` one after the other.
pub proof fn a_hashed_content_is_its_blocks(
    front: Seq<u8>,
    stored: Seq<Seq<u8>>,
    rest: Seq<u8>,
    key: Seq<u8>,
    hashes: Seq<Seq<u8>>,
    plain: Seq<Seq<u8>>,
    off: int,
    n: int,
)
    requires
        source::image_of(front, stored, 0x10000, rest).len() <= u64::MAX,
        plain.len() == stored.len(),
        hashes.len() == stored.len(),
        forall|k: int|
            0 <= k < stored.len() ==> {
                &&& (#[trigger] stored[k]).len() == 0x10000
                &&& hashes[k] == codec::cbc_decrypted(
                    key,
                    Seq::new(16, |i: int| 0u8),
                    stored[k].subrange(0, 0x400),
                )
                &&& plain[k].len() == 0xFC00
                &&& plain[k] == codec::cbc_decrypted(
                    key,
                    hashes[k].subrange(20 * (k % 16), 20 * (k % 16) + 16),
                    stored[k].subrange(0x400, 0x10000),
                )
            },
        0 <= off,
        0 <= n,
        off + n <= 0xFC00 * stored.len(),
    ensures
        content_bytes(
            source::reads_of(source::image_of(front, stored, 0x10000, rest)),
            front.len() as int,
            Scheme::Hashed,
            key,
            off,
            n,
        ) == Ok::<Seq<u8>, Seq<char>>(
            source::end_to_end(plain, 0xFC00).subrange(off, off + n),
        ),
{
    let reads = source::reads_of(source::image_of(front, stored, 0x10000, rest));
    let blocks = content_blocks(reads, front.len() as int, Scheme::Hashed, key);
    assert forall|k: int| 0 <= k < plain.len() implies (#[trigger] plain[k]).len() == 0xFC00
        && blocks(k) == Ok::<Seq<u8>, Seq<char>>(plain[k]) by {
        assert(stored[k].len() == 0x10000);
        lemma_stored(front, stored, 0x10000, rest, k);
        assert(stored[k].subrange(0, 0x400) =~= stored[k].take(0x400));
        assert(stored[k].subrange(0x400, 0x10000) =~= stored[k].skip(0x400));
        assert(Seq::new(16, |i: int| 0u8) =~= bytes::zeros(16));
    }
    lemma_pieces(blocks, 0xFC00, plain, off, n);
}

/// A number in eight big-endian bytes.
proof fn lemma_eight_bytes(s: Seq<u8>)
    requires
        s.len() == 8,
    ensures
        bytes::be_bytes(bytes::be64_at(s, 0), 8) == s,
{
    let v7 = bytes::be64_at(s, 0);
    let v3 = bytes::be32_at(s, 0);
    reveal_with_fuel(bytes::be_bytes, 9);
    assert(v7 / 0x100 == 0x100_0000 * v3 + 0x1_0000 * s[4] + 0x100 * s[5] + s[6]);
    assert(v7 / 0x100 / 0x100 == 0x1_0000 * v3 + 0x100 * s[4] + s[5]);
    assert(v7 / 0x100 / 0x100 / 0x100 == 0x100 * v3 + s[4]);
    assert(v7 / 0x100 / 0x100 / 0x100 / 0x100 == v3);
    assert(bytes::be_bytes(v7, 8) =~= s);
}

/// Of a content stored in chunks of 0x10000 bytes, each encrypted from its own number, every
/// read gives the bytes of the chunks one after the other.
pub proof fn a_content_in_chunks_is_its_chunks(
    front: Seq<u8>,
    stored: Seq<Seq<u8>>,
    rest: Seq<u8>,
    key: Seq<u8>,
    starts: Seq<Seq<u8>>,
    plain: Seq<Seq<u8>>,
    off: int,
    n: int,
)
    requires
        source::image_of(front, stored, 0x10000, rest).len() <= u64::MAX,
        plain.len() == stored.len(),
        starts.len() == stored.len(),
        forall|k: int|
            0 <= k < stored.len() ==> {
                &&& (#[trigger] stored[k]).len() == 0x10000
                &&& starts[k].len() == 16
                &&& forall|i: int| 0 <= i < 8 ==> starts[k][i] == 0
                &&& bytes::be64_at(starts[k], 8) == k
                &&& plain[k].len() == 0x10000
                &&& plain[k] == codec::cbc_decrypted(key, starts[k], stored[k])
            },
        0 <= off,
        0 <= n,
        off + n <= 0x10000 * stored.len(),
    ensures
        content_bytes(
            source::reads_of(source::image_of(front, stored, 0x10000, rest)),
            front.len() as int,
            Scheme::Chunks,
            key,
            off,
            n,
        ) == Ok::<Seq<u8>, Seq<char>>(
            source::end_to_end(plain, 0x10000).subrange(off, off + n),
        ),
{
    let reads = source::reads_of(source::image_of(front, stored, 0x10000, rest));
    let blocks = content_blocks(reads, front.len() as int, Scheme::Chunks, key);
    assert forall|k: int| 0 <= k < plain.len() implies (#[trigger] plain[k]).len() == 0x10000
        && blocks(k) == Ok::<Seq<u8>, Seq<char>>(plain[k]) by {
        assert(stored[k].len() == 0x10000);
        lemma_stored(front, stored, 0x10000, rest, k);
        let tail = starts[k].subrange(8, 16);
        lemma_eight_bytes(tail);
        assert(bytes::be64_at(tail, 0) == k);
        assert(starts[k] =~= chunk_iv(k));
    }
    lemma_pieces(blocks, 0x10000, plain, off, n);
}

/// Of a content stored in sectors of 0x8000 bytes, all encrypted from the number of the
/// content, every read gives the bytes of the sectors one after the other.
pub proof fn a_content_in_sectors_is_its_sectors(
    front: Seq<u8>,
    stored: Seq<Seq<u8>>,
    rest: Seq<u8>,
    key: Seq<u8>,
    index: u16,
    plain: Seq<Seq<u8>>,
    off: int,
    n: int,
)
    requires
        source::image_of(front, stored, 0x8000, rest).len() <= u64::MAX,
        plain.len() == stored.len(),
        forall|k: int|
            0 <= k < stored.len() ==> {
                &&& (#[trigger] stored[k]).len() == 0x8000
                &&& plain[k].len() == 0x8000
                &&& plain[k] == codec::cbc_decrypted(
                    key,
                    seq![(index / 256) as u8, (index % 256) as u8] + Seq::new(14, |i: int| 0u8),
                    stored[k],
                )
            },
        0 <= off,
        0 <= n,
        off + n <= 0x8000 * stored.len(),
    ensures
        content_bytes(
            source::reads_of(source::image_of(front, stored, 0x8000, rest)),
            front.len() as int,
            Scheme::Sectors(index),
            key,
            off,
            n,
        ) == Ok::<Seq<u8>, Seq<char>>(
            source::end_to_end(plain, 0x8000).subrange(off, off + n),
        ),
{
    let reads = source::reads_of(source::image_of(front, stored, 0x8000, rest));
    let blocks = content_blocks(reads, front.len() as int, Scheme::Sectors(index), key);
    let iv = seq![(index / 256) as u8, (index % 256) as u8] + Seq::new(14, |i: int| 0u8);
    reveal_with_fuel(bytes::be_bytes, 3);
    assert(iv =~= index_iv(index));
    assert forall|k: int| 0 <= k < plain.len() implies (#[trigger] plain[k]).len() == 0x8000
        && blocks(k) == Ok::<Seq<u8>, Seq<char>>(plain[k]) by {
        assert(stored[k].len() == 0x8000);
        lemma_stored(front, stored, 0x8000, rest, k);
    }
    lemma_pieces(blocks, 0x8000, plain, off, n);
}

/// An entry of the file table holds what was written into its sixteen bytes.
pub proof fn a_table_entry_holds_what_was_written(buf: Seq<u8>, base: int, k: int, e: WiiUFstEntry)
    requires
        0 <= base,
        0 <= k,
        base + 16 * k + 16 <= buf.len(),
        e.name_off <= 0xFF_FFFF,
        buf[base + 16 * k] == e.flags,
        bytes::has_at(buf, base + 16 * k + 1, bytes::be_bytes(e.name_off as int, 3)),
        bytes::has_at(buf, base + 16 * k + 4, bytes::be_bytes(e.data_off as int, 4)),
        bytes::has_at(buf, base + 16 * k + 8, bytes::be_bytes(e.size as int, 4)),
        bytes::has_at(buf, base + 16 * k + 14, bytes::be_bytes(e.content_idx as int, 2)),
    ensures
        entry_at(buf, base, k) == e,
{
    let b = base + 16 * k;
    assert(base + k * 16 == b);
    bytes::fields_hold_what_was_written(buf, b + 1, e.name_off as int);
    bytes::fields_hold_what_was_written(buf, b + 4, e.data_off as int);
    bytes::fields_hold_what_was_written(buf, b + 8, e.size as int);
    bytes::fields_hold_what_was_written(buf, b + 14, e.content_idx as int);
}

/// A file table is a header, a record of 32 bytes for each content, the entries of sixteen
/// bytes, of which the first tells their number, and the names.
pub proof fn a_table_is_made_of_its_parts(
    head: Seq<u8>,
    sections: Seq<Seq<u8>>,
    entries: Seq<Seq<u8>>,
    names: Seq<u8>,
    factor: int,
    sector_size: u64,
    base: u64,
)
    requires
        head.len() == 0x20,
        bytes::spells(head, 0, "FST\0"@),
        0 <= factor <= 0xFFFF_FFFF,
        sections.len() <= 0xFFFF_FFFF,
        0 < entries.len() <= 0xFFFF_FFFF,
        bytes::has_at(head, 4, bytes::be_bytes(factor, 4)),
        bytes::has_at(head, 8, bytes::be_bytes(sections.len() as int, 4)),
        forall|i: int| 0 <= i < sections.len() ==> (#[trigger] sections[i]).len() == 0x20,
        forall|i: int| 0 <= i < entries.len() ==> (#[trigger] entries[i]).len() == 16,
        bytes::has_at(entries[0], 8, bytes::be_bytes(entries.len() as int, 4)),
    ensures
        ({
            let buf = head + source::end_to_end(sections, 0x20) + source::end_to_end(entries, 16)
                + names;
            parsed(buf, sector_size, base) matches Ok(t) && {
                &&& t.entries.len() == entries.len()
                &&& t.string_table == names
                &&& t.sec_hdrs.len() == sections.len()
                &&& t.offset_factor == factor
                &&& t.sector_size == sector_size
                &&& t.partition_base == base
                &&& forall|i: int|
                    0 <= i < sections.len() ==> (#[trigger] t.sec_hdrs[i]).0 == bytes::be32_at(
                        sections[i],
                        0,
                    )
                &&& forall|k: int|
                    0 <= k < entries.len() ==> #[trigger] t.entries[k] == entry_at(entries[k], 0, 0)
            }
        }),
{
    let mid = source::end_to_end(sections, 0x20);
    let rows = source::end_to_end(entries, 16);
    let buf = head + mid + rows + names;
    let at = 0x20 + mid.len() as int;
    assert(mid.len() == 0x20 * sections.len());
    assert(rows.len() == 16 * entries.len());
    reveal_strlit("FST\0");
    assert forall|i: int| 0 <= i < "FST\0"@.len() implies buf[0 + i] as u32
        == #[trigger] "FST\0"@[i] as u32 by {
        assert(head[0 + i] as u32 == "FST\0"@[i] as u32);
        assert(buf[0 + i] == head[0 + i]);
    }
    assert(buf.subrange(0, 0x20) =~= head);
    bytes::lemma_notation_len(factor, 4);
    bytes::lemma_has_in_part(buf, 0, head, 4, bytes::be_bytes(factor, 4));
    bytes::lemma_has_in_part(buf, 0, head, 8, bytes::be_bytes(sections.len() as int, 4));
    bytes::fields_hold_what_was_written(buf, 4, factor);
    bytes::fields_hold_what_was_written(buf, 8, sections.len() as int);
    assert(entries[0].len() == 16);
    assert forall|k: int| 0 <= k < entries.len() implies #[trigger] buf.subrange(
        at + 16 * k,
        at + 16 * k + 16,
    ) == entries[k] by {
        assert(entries[k].len() == 16);
        assert forall|j: int| 0 <= j < 16 implies buf[at + 16 * k + j] == entries[k][j] by {
            source::lemma_within_part(k, 16, j);
            assert(buf[at + 16 * k + j] == rows[16 * k + j]);
        }
        assert(buf.subrange(at + 16 * k, at + 16 * k + 16) =~= entries[k]);
    }
    assert(buf.subrange(at + 16 * 0, at + 16 * 0 + 16) == entries[0]);
    bytes::lemma_has_in_part(buf, at, entries[0], 8, bytes::be_bytes(entries.len() as int, 4));
    bytes::fields_hold_what_was_written(buf, at + 8, entries.len() as int);
    let t = parsed(buf, sector_size, base)->Ok_0;
    assert(buf.skip(at + 16 * entries.len()) =~= names);
    assert forall|k: int| 0 <= k < entries.len() implies #[trigger] t.entries[k] == entry_at(
        entries[k],
        0,
        0,
    ) by {
        let e = buf.subrange(at + 16 * k, at + 16 * k + 16);
        assert(e == entries[k]);
        assert forall|j: int| 0 <= j < 16 implies #[trigger] e[j] == buf[at + 16 * k + j] by {}
        assert(t.entries[k] == entry_at(buf, at, k));
        assert(at + k * 16 == at + 16 * k);
        assert(e[0] == buf[at + 16 * k]);
        assert(e[1] == buf[at + 16 * k + 1] && e[2] == buf[at + 16 * k + 2] && e[3] == buf[at + 16
            * k + 3]);
        assert(bytes::be32_at(buf, at + 16 * k + 4) == bytes::be32_at(e, 4));
        assert(bytes::be32_at(buf, at + 16 * k + 8) == bytes::be32_at(e, 8));
        assert(bytes::be16_at(buf, at + 16 * k + 14) == bytes::be16_at(e, 14));
    }
    assert forall|i: int| 0 <= i < sections.len() implies (#[trigger] t.sec_hdrs[i]).0
        == bytes::be32_at(sections[i], 0) by {
        assert(sections[i].len() == 0x20);
        source::lemma_within_part(i, 0x20, 0);
        source::lemma_within_part(i, 0x20, 1);
        source::lemma_within_part(i, 0x20, 2);
        source::lemma_within_part(i, 0x20, 3);
        let p = 0x20 + i * 0x20;
        assert(buf[p] == mid[i * 0x20 + 0] && buf[p + 1] == mid[i * 0x20 + 1] && buf[p + 2] == mid[i
            * 0x20 + 2] && buf[p + 3] == mid[i * 0x20 + 3]);
    }
}

/// A file of the game partition is the stretch of its content that its entry tells: the
/// content starts as many sectors behind the partition's as its record says, less one, and
/// the file as many units of the table's factor behind that.
pub proof fn a_game_file_is_read_from_its_content(
    front: Seq<u8>,
    stored: Seq<Seq<u8>>,
    rest: Seq<u8>,
    t: FstView,
    key: Seq<u8>,
    hashes: Seq<Seq<u8>>,
    plain: Seq<Seq<u8>>,
    path: Seq<char>,
    k: int,
)
    requires
        entry_of(t, path) == Some(k),
        0 <= k < t.entries.len(),
        t.entries[k].flags % 2 == 0,
        t.entries[k].content_idx < t.sec_hdrs.len(),
        t.entries[k].content_idx < t.content_hashed.len(),
        t.content_hashed[t.entries[k].content_idx as int],
        t.sec_hdrs[t.entries[k].content_idx as int].0 >= 1,
        front.len() == t.partition_base + t.sector_size * (t.sec_hdrs[
        t.entries[k].content_idx as int].0 - 1),
        source::image_of(front, stored, 0x10000, rest).len() <= u64::MAX,
        plain.len() == stored.len(),
        hashes.len() == stored.len(),
        forall|i: int|
            0 <= i < stored.len() ==> {
                &&& (#[trigger] stored[i]).len() == 0x10000
                &&& hashes[i] == codec::cbc_decrypted(
                    key,
                    Seq::new(16, |j: int| 0u8),
                    stored[i].subrange(0, 0x400),
                )
                &&& plain[i].len() == 0xFC00
                &&& plain[i] == codec::cbc_decrypted(
                    key,
                    hashes[i].subrange(20 * (i % 16), 20 * (i % 16) + 16),
                    stored[i].subrange(0x400, 0x10000),
                )
            },
        t.entries[k].data_off * t.offset_factor + t.entries[k].size <= 0xFC00 * stored.len(),
    ensures
        gm_file(
            source::reads_of(source::image_of(front, stored, 0x10000, rest)),
            t,
            key,
            path,
        ) == Ok::<Seq<u8>, Seq<char>>(
            source::end_to_end(plain, 0xFC00).subrange(
                t.entries[k].data_off * t.offset_factor,
                t.entries[k].data_off * t.offset_factor + t.entries[k].size,
            ),
        ),
{
    let c = t.entries[k].content_idx as int;
    let s = t.sec_hdrs[c].0 as int;
    let z = t.sector_size as int;
    assert((s - 1) * z == z * (s - 1)) by (nonlinear_arith);
    assert(0 <= t.entries[k].data_off * t.offset_factor) by (nonlinear_arith);
    a_hashed_content_is_its_blocks(
        front,
        stored,
        rest,
        key,
        hashes,
        plain,
        t.entries[k].data_off * t.offset_factor,
        t.entries[k].size as int,
    );
}

/// What is read without a key is the stretch of the disc as it is.
pub proof fn clear_data_are_read_as_they_are(image: Seq<u8>, pos: int, n: int)
    requires
        0 <= pos,
        0 <= n,
        pos + n <= image.len() <= u64::MAX,
    ensures
        clear_bytes(source::reads_of(image), pos, n) == Ok::<Seq<u8>, Seq<char>>(
            image.subrange(pos, pos + n),
        ),
    decreases n,
{
    if n > 0 {
        let take = if n < 0x8000 - pos % 0x8000 {
            n
        } else {
            0x8000 - pos % 0x8000
        };
        clear_data_are_read_as_they_are(image, pos + take, n - take);
        assert(image.subrange(pos, pos + take) + image.subrange(pos + take, pos + n)
            =~= image.subrange(pos, pos + n));
    } else {
        assert(image.subrange(pos, pos) =~= seq![]);
    }
}

/// The entries of a directory are those behind it up to where it says that it ends, but what
/// is in a directory among them is passed over.
pub proof fn a_directory_lists_what_is_in_it(t: FstView, i: int, end: int)
    requires
        0 <= i < end <= t.entries.len(),
    ensures
        t.entries[i].flags % 2 == 0 ==> children_from(t, i, end) == seq![i] + children_from(
            t,
            i + 1,
            end,
        ),
        t.entries[i].flags % 2 == 1 && i < t.entries[i].size <= t.entries.len() ==> children_from(
            t,
            i,
            end,
        ) == seq![i] + children_from(t, t.entries[i].size as int, end),
        children_from(t, end, end) == Seq::<int>::empty(),
{
}

/// A record of 0x30 bytes of a title's metadata tells the number of its content and whether
/// it is hashed.
pub proof fn contents_follow_each_other(tmd: Seq<u8>, base: int, i: int, n: int, index: int)
    requires
        0 <= base,
        0 <= i < n,
        base + 0x30 * i + 0x30 <= tmd.len(),
        0 <= index <= 0xFFFF,
        bytes::has_at(tmd, base + 0x30 * i + 4, bytes::be_bytes(index, 2)),
    ensures
        contents_from(tmd, base, i, n) == seq![
            TitleContent {
                index: index as u16,
                hashed: tmd[base + 0x30 * i + 7] / 2 % 2 == 1,
            },
        ] + contents_from(tmd, base, i + 1, n),
{
    let p = base + i * 0x30;
    assert(base + 0x30 * i == p);
    bytes::fields_hold_what_was_written(tmd, p + 4, index);
    let a = tmd[p + 6] as int;
    let b = tmd[p + 7] as int;
    assert((0x100 * a + b) / 2 % 2 == b / 2 % 2);
}

/// The title key of a ticket is decrypted from the title's number.
pub proof fn a_ticket_holds_its_key(tik: Seq<u8>, retail: bool, common: Seq<u8>)
    requires
        tik.len() >= 0x1E4,
        exists|i: int| 0x1BF <= i < 0x1CF && #[trigger] tik[i] != 0,
        retail ==> common == retail_common_key(),
        !retail ==> common == dev_common_key(),
    ensures
        title_key(tik, retail) == Ok::<Seq<u8>, Seq<char>>(
            codec::cbc_decrypted(
                common,
                tik.subrange(0x1DC, 0x1E4) + seq![0u8, 0, 0, 0, 0, 0, 0, 0],
                tik.subrange(0x1BF, 0x1CF),
            ),
        ),
{
    let i = choose|i: int| 0x1BF <= i < 0x1CF && #[trigger] tik[i] != 0;
    assert(tik.subrange(0x1BF, 0x1CF)[i - 0x1BF] != 0);
    assert(bytes::zeros(16)[i - 0x1BF] == 0);
    assert(tik.subrange(0x1DC, 0x1E4) + bytes::zeros(8) =~= tik.subrange(0x1DC, 0x1E4) + seq![
        0u8,
        0,
        0,
        0,
        0,
        0,
        0,
        0,
    ]);
}

/// The header of the game partition names its file table: the length of a block at 4, the table's
/// length at 0x14, and at 0x18 the block that it starts with. The contents start one block behind
/// the header.
pub proof fn the_game_header_names_the_table(
    image: Seq<u8>,
    base: u64,
    sector_size: u64,
    key: Seq<u8>,
    contents: Seq<TitleContent>,
    block: int,
    size: int,
    first: int,
    table: Seq<u8>,
    t: FstView,
)
    requires
        image.len() <= u64::MAX,
        base + 0x8000 <= image.len(),
        0 <= block <= 0xFFFF_FFFF,
        0 <= size <= 0xFFFF_FFFF,
        0 <= first <= 0xFFFF_FFFF,
        bytes::has_at(image, base + 4, bytes::be_bytes(block, 4)),
        bytes::has_at(image, base + 0x14, bytes::be_bytes(size, 4)),
        bytes::has_at(image, base + 0x18, bytes::be_bytes(first, 4)),
        contents.len() > 0,
        contents[0].hashed ==> content_bytes(
            source::reads_of(image),
            base + first * block,
            Scheme::Hashed,
            key,
            0,
            size,
        ) == Ok::<Seq<u8>, Seq<char>>(table),
        !contents[0].hashed ==> content_bytes(
            source::reads_of(image),
            base + first * block,
            Scheme::Sectors(contents[0].index),
            key,
            0,
            size,
        ) == Ok::<Seq<u8>, Seq<char>>(table),
        bytes::spells(table, 0, "FST\0"@),
        parsed(table, sector_size, (base + block) as u64) == Ok::<FstView, Seq<char>>(t),
    ensures
        gm_table(source::reads_of(image), base, sector_size, key, contents) matches Ok(g) && {
            &&& g.entries == t.entries
            &&& g.string_table == t.string_table
            &&& g.sec_hdrs == t.sec_hdrs
            &&& g.partition_base == t.partition_base
            &&& g.content_hashed.len() == contents.len()
            &&& g.content_iv_idx.len() == contents.len()
            &&& forall|i: int|
                0 <= i < contents.len() ==> (#[trigger] contents[i]).hashed == g.content_hashed[i]
                    && contents[i].index == g.content_iv_idx[i]
        },
{
    let b = base as int;
    let h = image.subrange(b, b + 0x8000);
    bytes::fields_hold_what_was_written(image, b + 4, block);
    bytes::fields_hold_what_was_written(image, b + 0x14, size);
    bytes::fields_hold_what_was_written(image, b + 0x18, first);
    assert(bytes::be32_at(h, 4) == bytes::be32_at(image, b + 4));
    assert(bytes::be32_at(h, 0x14) == bytes::be32_at(image, b + 0x14));
    assert(bytes::be32_at(h, 0x18) == bytes::be32_at(image, b + 0x18));
}

/// The game partition stands at one of two places, the later one first.
pub proof fn the_game_partition_is_known_by_its_mark(image: Seq<u8>)
    requires
        0xC000_0004 <= image.len() <= u64::MAX,
    ensures
        bytes::has_at(image, 0xC000_0000, bytes::be_bytes(0xCC93_A4F5, 4)) ==> gm_base(
            source::reads_of(image),
        ) == Some(0xC000_0000u64),
        bytes::be32_at(image, 0xC000_0000) != 0xCC93_A4F5 && bytes::has_at(
            image,
            0x4_8000,
            bytes::be_bytes(0xCC93_A4F5, 4),
        ) ==> gm_base(source::reads_of(image)) == Some(0x4_8000u64),
        bytes::be32_at(image, 0xC000_0000) != 0xCC93_A4F5 && bytes::be32_at(image, 0x4_8000)
            != 0xCC93_A4F5 ==> gm_base(source::reads_of(image)) is None,
{
    bytes::fields_hold_what_was_written(image, 0xC000_0000, 0xCC93_A4F5);
    bytes::fields_hold_what_was_written(image, 0x4_8000, 0xCC93_A4F5);
    let a = image.subrange(0xC000_0000, 0xC000_0004);
    let b = image.subrange(0x4_8000, 0x4_8004);
    assert(bytes::be32_at(a, 0) == bytes::be32_at(image, 0xC000_0000));
    assert(bytes::be32_at(b, 0) == bytes::be32_at(image, 0x4_8000));
}

/// The first file table of a disc that is not encrypted stands at 0x28000, and its files are read
/// as they stand: each at its place behind its content's start, and of at least 0x200 bytes.
pub proof fn a_clear_file_is_read_from_its_place(
    image: Seq<u8>,
    t: FstView,
    name: Seq<char>,
    path: Seq<char>,
    k: int,
    place: int,
    n: int,
)
    requires
        image.len() <= u64::MAX,
        first_file(t, si_paths(name), 0) == Some(path),
        entry_of(t, path) == Some(k),
        0 <= k < t.entries.len(),
        t.entries[k].content_idx < t.sec_hdrs.len(),
        t.sec_hdrs[t.entries[k].content_idx as int].0 >= 1,
        place == t.partition_base + t.sector_size * (t.sec_hdrs[
        t.entries[k].content_idx as int].0 - 1) + t.entries[k].data_off * t.offset_factor,
        t.entries[k].size >= 0x200 ==> n == t.entries[k].size,
        t.entries[k].size < 0x200 ==> n == 0x200,
        0 <= place,
        place + n <= image.len(),
    ensures
        si_file(source::reads_of(image), t, None, name) == Ok::<Seq<u8>, Seq<char>>(
            image.subrange(place, place + n),
        ),
{
    let s = t.sec_hdrs[t.entries[k].content_idx as int].0 as int;
    let z = t.sector_size as int;
    assert((s - 1) * z == z * (s - 1)) by (nonlinear_arith);
    clear_data_are_read_as_they_are(image, place, n);
}

} // verus!
