//! XDVDFS, the file system of Xbox game discs.
//!
//! A directory is a table with a binary search tree of its entries in it.
use vstd::prelude::*;
use vstd::slice::*;
use crate::bytes;
use crate::bytes::{read_u16_le, read_u32_le, spells_at};
use crate::catalog;
use crate::catalog::less_name;
use crate::entry;
use crate::entry::{DiscEntry, EntryView};
use crate::numbers;
use crate::numbers::decimal_string;
use crate::path;
use crate::path::split_path;
use crate::source;
use crate::source::{read_wide, ByteSource, Reads};
use crate::text;
use crate::text::{
    ascii_upper, chars_of, from_utf8_lossy, join2, join3, same_text, segments, string_of,
};

verus! {

/// The subtree reference that stands for no subtree.
pub const NO_SUBTREE: u16 = 0xFFFF;

/// The largest directory table that is read.
pub const MAX_DIR_TABLE: u32 = 0x40_0000;

// ── Detection ───────────────────────────────────────────────────────────────

/// Where the partition may start: extracted images, padded dumps, and the game
/// discs of the two consoles.
pub open spec fn starts() -> Seq<u64> {
    seq![0u64, 65_536, 131_072, 406_847_488, 0x0208_0000, 0x0FD9_0000]
}

/// The first start from `k` on behind which the volume descriptor stands.
pub open spec fn start_from(reads: Reads, track_offset: int, k: int) -> Option<int>
    decreases starts().len() - k,
{
    if k < 0 || k >= starts().len() {
        None
    } else if source::reach(reads, track_offset + starts()[k] + 65_536, 20) matches Ok(b)
        && bytes::spells(b, 0, "MICROSOFT*XBOX*MEDIA"@) {
        Some(track_offset + starts()[k])
    } else {
        start_from(reads, track_offset, k + 1)
    }
}

/// Finds where the partition starts.
#[verifier::loop_isolation(false)]
fn probe_for_magic<S: ByteSource>(source: &mut S, track_offset: u64) -> (r: Option<u64>)
    ensures
        final(source).reads() == old(source).reads(),
        match r {
            Some(n) => start_from(old(source).reads(), track_offset as int, 0) == Some(n as int)
                && n + 65_536 <= u64::MAX,
            None => start_from(old(source).reads(), track_offset as int, 0) is None,
        },
{
    let ghost reads = source.reads();
    let list: [u64; 6] = [0, 65_536, 131_072, 406_847_488, 0x0208_0000, 0x0FD9_0000];
    assert(list@ =~= starts());
    let mut k: usize = 0;
    while k < 6
        invariant
            k <= 6,
            source.reads() == reads,
            start_from(reads, track_offset as int, 0) == start_from(
                reads,
                track_offset as int,
                k as int,
            ),
        decreases 6 - k,
    {
        let at: u128 = track_offset as u128 + list[k] as u128;
        assert(list@[k as int] == starts()[k as int]);
        if let Ok(b) = read_wide(source, at + 65_536, 20, "") {
            if spells_at(b.as_slice(), 0, "MICROSOFT*XBOX*MEDIA") {
                return Some(at as u64);
            }
        }
        k += 1;
    }
    None
}

/// Whether a source holds an XDVDFS partition.
pub fn is_xdvdfs_reader<S: ByteSource>(reader: &mut S, track_offset: u64) -> (r: bool)
    ensures
        final(reader).reads() == old(reader).reads(),
        r == start_from(old(reader).reads(), track_offset as int, 0) is Some,
{
    probe_for_magic(reader, track_offset).is_some()
}

/// Whether an image holds an XDVDFS partition.
pub fn is_xdvdfs_disc<S: ByteSource>(source: &mut S, track_offset: u64) -> (r: bool)
    ensures
        final(source).reads() == old(source).reads(),
        r == start_from(old(source).reads(), track_offset as int, 0) is Some,
{
    is_xdvdfs_reader(source, track_offset)
}

// ── Directory tables ────────────────────────────────────────────────────────

/// An entry of a directory.
pub struct XEntry {
    pub name: String,
    pub is_dir: bool,
    pub sector: u32,
    pub size: u32,
}

/// The contents of an entry.
#[verifier::ext_equal]
pub struct XEntryView {
    pub name: Seq<char>,
    pub is_dir: bool,
    pub sector: u32,
    pub size: u32,
}

impl View for XEntry {
    type V = XEntryView;

    open spec fn view(&self) -> XEntryView {
        XEntryView {
            name: self.name@,
            is_dir: self.is_dir,
            sector: self.sector,
            size: self.size,
        }
    }
}

/// The contents of a list of entries.
pub open spec fn entry_views(v: Seq<XEntry>) -> Seq<XEntryView> {
    Seq::new(v.len(), |i: int| v[i]@)
}

/// Whether the node at `off` has a name, and that within the table.
pub open spec fn is_named(t: Seq<u8>, off: int) -> bool {
    t[off + 13] > 0 && off + 14 + t[off + 13] <= t.len()
}

/// The entry of the node at `off`.
pub open spec fn node_entry(t: Seq<u8>, off: int) -> XEntryView {
    XEntryView {
        name: text::utf8_text(t.subrange(off + 14, off + 14 + t[off + 13])),
        is_dir: (t[off + 12] / 16) % 2 == 1,
        sector: bytes::le32_at(t, off + 4) as u32,
        size: bytes::le32_at(t, off + 8) as u32,
    }
}

/// What a walk over a tree has found, and the nodes it has visited.
#[verifier::ext_equal]
pub struct Walk {
    pub found: Seq<XEntryView>,
    pub seen: Seq<bool>,
}

/// The walk after the subtree that the reference `at` names.
pub open spec fn subtree(t: Seq<u8>, at: int, depth: int, w: Walk) -> Walk
    decreases 2 * (66 - depth),
{
    if depth > 65 || at == NO_SUBTREE || 4 * at >= t.len() {
        w
    } else {
        node(t, 4 * at, depth, w)
    }
}

/// The walk after the node at `off` and what hangs on it: the left subtree, the
/// node itself, the right subtree. Nodes more than 64 levels down, and those
/// met before, are passed over.
pub open spec fn node(t: Seq<u8>, off: int, depth: int, w: Walk) -> Walk
    decreases 2 * (66 - depth) - 1,
{
    if depth > 64 || off + 15 > t.len() || w.seen[off] {
        w
    } else {
        let begun = Walk { found: w.found, seen: w.seen.update(off, true) };
        let left = subtree(t, bytes::le16_at(t, off), depth + 1, begun);
        let here = if is_named(t, off) {
            Walk { found: left.found.push(node_entry(t, off)), seen: left.seen }
        } else {
            left
        };
        subtree(t, bytes::le16_at(t, off + 2), depth + 1, here)
    }
}

/// The entries of a table, in the order of its tree.
pub open spec fn table_entries(t: Seq<u8>) -> Seq<XEntryView> {
    node(t, 0, 0, Walk { found: seq![], seen: Seq::new(t.len(), |i: int| false) }).found
}

/// The entry of the node at `off`.
fn read_entry(t: &[u8], off: usize) -> (r: XEntry)
    requires
        off + 15 <= t@.len(),
        is_named(t@, off as int),
    ensures
        r@ == node_entry(t@, off as int),
{
    assert(off + 15 <= t.len());
    let n: usize = t[off + 13] as usize;
    XEntry {
        name: from_utf8_lossy(slice_subrange(t, off + 14, off + 14 + n)),
        is_dir: (t[off + 12] / 16) % 2 == 1,
        sector: read_u32_le(t, off + 4),
        size: read_u32_le(t, off + 8),
    }
}

/// Walks over the subtree at `off`.
fn traverse_inner(
    t: &[u8],
    off: usize,
    results: &mut Vec<XEntry>,
    depth: u32,
    seen: &mut Vec<bool>,
)
    requires
        depth <= 65,
        old(seen)@.len() == t@.len(),
    ensures
        final(seen)@.len() == t@.len(),
        (Walk { found: entry_views(final(results)@), seen: final(seen)@ }) == node(
            t@,
            off as int,
            depth as int,
            Walk { found: entry_views(old(results)@), seen: old(seen)@ },
        ),
    decreases 66 - depth,
{
    let len: usize = t.len();
    let ghost w0 = Walk { found: entry_views(results@), seen: seen@ };
    if depth > 64 || len < 15 || off > len - 15 {
        return ;
    }
    if seen[off] {
        return ;
    }
    seen.set(off, true);
    let ghost begun = Walk { found: entry_views(results@), seen: seen@ };
    let left: u16 = read_u16_le(t, off);
    let right: u16 = read_u16_le(t, off + 2);
    if left != NO_SUBTREE {
        let lo: usize = left as usize * 4;
        if lo < len {
            traverse_inner(t, lo, results, depth + 1, seen);
        }
    }
    let ghost after_left = Walk { found: entry_views(results@), seen: seen@ };
    assert(after_left == subtree(t@, left as int, depth + 1, begun));
    let n: usize = t[off + 13] as usize;
    if n > 0 && len - off - 14 >= n {
        let e: XEntry = read_entry(t, off);
        let ghost before = results@;
        results.push(e);
        assert(entry_views(results@) =~= entry_views(before).push(e@));
    }
    let ghost here = Walk { found: entry_views(results@), seen: seen@ };
    if right != NO_SUBTREE {
        let ro: usize = right as usize * 4;
        if ro < len {
            traverse_inner(t, ro, results, depth + 1, seen);
        }
    }
    assert((Walk { found: entry_views(results@), seen: seen@ }) == subtree(
        t@,
        right as int,
        depth + 1,
        here,
    ));
}

/// The entries of a table.
pub fn list_dir_table(t: &[u8]) -> (r: Vec<XEntry>)
    ensures
        entry_views(r@) == table_entries(t@),
{
    let mut seen: Vec<bool> = Vec::new();
    let len: usize = t.len();
    let mut i: usize = 0;
    while i < len
        invariant
            i <= len,
            seen@ == Seq::new(i as nat, |j: int| false),
        decreases len - i,
    {
        seen.push(false);
        i += 1;
        assert(seen@ =~= Seq::new(i as nat, |j: int| false));
    }
    let mut out: Vec<XEntry> = Vec::new();
    assert(entry_views(out@) =~= seq![]);
    traverse_inner(t, 0, &mut out, 0, &mut seen);
    out
}

/// A name with its ASCII letters in upper case.
pub open spec fn raised(s: Seq<char>) -> Seq<char> {
    Seq::new(s.len(), |i: int| text::upper(s[i]))
}

fn to_upper(s: &str) -> (r: String)
    ensures
        r@ == raised(s@),
{
    let c: Vec<char> = chars_of(s);
    let mut out: Vec<char> = Vec::new();
    let mut i: usize = 0;
    while i < c.len()
        invariant
            i <= c@.len(),
            out@.len() == i,
            forall|j: int| 0 <= j < i ==> out@[j] == text::upper(c@[j]),
        decreases c@.len() - i,
    {
        out.push(ascii_upper(c[i]));
        i += 1;
    }
    assert(out@ =~= raised(s@));
    string_of(out.as_slice())
}

/// The entry named `target` in the subtree at `off`, searched by the order of
/// names in upper case.
pub open spec fn found_from(t: Seq<u8>, off: int, target: Seq<char>, depth: int) -> Option<XEntryView>
    decreases 65 - depth,
{
    if depth > 64 || off + 15 > t.len() || !is_named(t, off) {
        None
    } else {
        let e = node_entry(t, off);
        if raised(target) == raised(e.name) {
            Some(e)
        } else {
            let next = if catalog::name_less(raised(target), raised(e.name)) {
                bytes::le16_at(t, off)
            } else {
                bytes::le16_at(t, off + 2)
            };
            if next == NO_SUBTREE {
                None
            } else {
                found_from(t, 4 * next, target, depth + 1)
            }
        }
    }
}

/// The first entry of a list, from the one at `k` on, that has the name `target`,
/// whatever the case of its letters.
pub open spec fn named_from(d: Seq<XEntryView>, target: Seq<char>, k: int) -> Option<XEntryView>
    decreases d.len() - k,
{
    if k < 0 || k >= d.len() {
        None
    } else if raised(target) == raised(d[k].name) {
        Some(d[k])
    } else {
        named_from(d, target, k + 1)
    }
}

/// The entry of a table with the name `target`: the one that the order of the names
/// leads to, or, where a tree is out of order, the first on either side.
pub open spec fn found(t: Seq<u8>, target: Seq<char>) -> Option<XEntryView> {
    match found_from(t, 0, target, 0) {
        Some(e) => Some(e),
        None => named_from(table_entries(t), target, 0),
    }
}

/// Follows the order of the names.
#[verifier::loop_isolation(false)]
fn follow_order(t: &[u8], target: &str) -> (r: Option<XEntry>)
    ensures
        match r {
            Some(e) => found_from(t@, 0, target@, 0) == Some(e@),
            None => found_from(t@, 0, target@, 0) is None,
        },
{
    let len: usize = t.len();
    let wanted: String = to_upper(target);
    let ghost goal = found_from(t@, 0, target@, 0);
    let mut off: usize = 0;
    let mut depth: u32 = 0;
    while depth <= 64
        invariant
            depth <= 65,
            off <= 4 * 0xffff,
            found_from(t@, off as int, target@, depth as int) == goal,
        decreases 65 - depth,
    {
        if len < 15 || off > len - 15 {
            return None;
        }
        let n: usize = t[off + 13] as usize;
        if n == 0 || len - off - 14 < n {
            return None;
        }
        let e: XEntry = read_entry(t, off);
        let name: String = to_upper(e.name.as_str());
        let next: u16 = if less_name(wanted.as_str(), name.as_str()) {
            proof {
                catalog::names_are_totally_ordered(wanted@, name@);
            }
            read_u16_le(t, off)
        } else if less_name(name.as_str(), wanted.as_str()) {
            proof {
                catalog::names_are_totally_ordered(wanted@, name@);
                catalog::names_are_totally_ordered(name@, wanted@);
            }
            read_u16_le(t, off + 2)
        } else {
            proof {
                catalog::names_are_totally_ordered(wanted@, name@);
            }
            return Some(e);
        };
        if next == NO_SUBTREE {
            return None;
        }
        off = next as usize * 4;
        depth += 1;
    }
    None
}

/// Finds an entry by its name.
pub fn find_node(t: &[u8], target: &str) -> (r: Option<XEntry>)
    ensures
        match r {
            Some(e) => found(t@, target@) == Some(e@),
            None => found(t@, target@) is None,
        },
{
    if let Some(e) = follow_order(t, target) {
        return Some(e);
    }
    let wanted: String = to_upper(target);
    let mut list: Vec<XEntry> = list_dir_table(t);
    let ghost d = table_entries(t@);
    let mut k: usize = 0;
    while k < list.len()
        invariant
            k <= list@.len(),
            entry_views(list@) == d,
            d == table_entries(t@),
            wanted@ == raised(target@),
            found(t@, target@) == named_from(d, target@, k as int),
        decreases list@.len() - k,
    {
        assert(d[k as int] == list@[k as int]@);
        let name: String = to_upper(list[k].name.as_str());
        if same_text(name.as_str(), wanted.as_str()) {
            return Some(list.swap_remove(k));
        }
        k += 1;
    }
    None
}

// ── Volumes ─────────────────────────────────────────────────────────────────

/// An opened partition.
pub struct XDVDFSFs<S: ByteSource> {
    pub source: S,
    pub fs_start: u64,
    pub root_sector: u32,
    pub root_size: u32,
}

/// Where a partition starts, and its root directory.
#[verifier::ext_equal]
pub struct XVolume {
    pub fs_start: int,
    pub root_sector: u32,
    pub root_size: u32,
}

/// The partition that a source holds.
pub open spec fn xdvdfs_opened(reads: Reads, track_offset: int) -> Result<XVolume, Seq<char>> {
    match start_from(reads, track_offset, 0) {
        None => Err("Not an XDVDFS disc"@),
        Some(at) => match source::labelled(
            source::reach(reads, at + 65_536, 2048),
            "Read error: "@,
        ) {
            Err(e) => Err(e),
            Ok(b) => Ok(
                XVolume {
                    fs_start: at,
                    root_sector: bytes::le32_at(b, 20) as u32,
                    root_size: bytes::le32_at(b, 24) as u32,
                },
            ),
        },
    }
}

/// The table of a directory: `size` bytes of the sectors from `sector` on.
pub open spec fn table_at(reads: Reads, v: XVolume, sector: u32, size: u32) -> Result<
    Seq<u8>,
    Seq<char>,
> {
    if size > MAX_DIR_TABLE {
        Err(
            "Directory table size "@ + numbers::decimal(size as int) + " exceeds 4 MiB limit"@,
        )
    } else {
        match source::labelled(
            source::reach(reads, v.fs_start + sector * 2048, (size + 2047) / 2048 * 2048),
            "Read error: "@,
        ) {
            Err(e) => Err(e),
            Ok(b) => Ok(b.take(size as int)),
        }
    }
}

/// The directory that `parts` from `k` on lead to, from the one given.
pub open spec fn resolved(
    reads: Reads,
    v: XVolume,
    parts: Seq<Seq<char>>,
    k: int,
    sector: u32,
    size: u32,
) -> Result<(u32, u32), Seq<char>>
    decreases parts.len() - k,
{
    if k < 0 || k >= parts.len() {
        Ok((sector, size))
    } else {
        match table_at(reads, v, sector, size) {
            Err(e) => Err(e),
            Ok(t) => match found(t, parts[k]) {
                None => Err("Directory not found: "@ + parts[k]),
                Some(e) => if !e.is_dir {
                    Err("Not a directory: "@ + parts[k])
                } else {
                    resolved(reads, v, parts, k + 1, e.sector, e.size)
                },
            },
        }
    }
}

/// The directory that a path names.
pub open spec fn dir_at(reads: Reads, v: XVolume, path: Seq<char>) -> Result<
    (u32, u32),
    Seq<char>,
> {
    resolved(reads, v, text::segments_of(path), 0, v.root_sector, v.root_size)
}

/// The line for an entry.
pub open spec fn xdvdfs_line(e: XEntryView) -> EntryView {
    EntryView {
        name: e.name,
        is_dir: e.is_dir,
        lba: e.sector,
        size: if e.is_dir {
            0
        } else {
            e.size
        },
        size_bytes: e.size,
        modified: seq![],
        deleted: false,
        is_xa: false,
    }
}

/// The answer to a listing of a directory.
pub open spec fn listing_answer(reads: Reads, v: XVolume, path: Seq<char>) -> Result<
    Seq<EntryView>,
    Seq<char>,
> {
    match dir_at(reads, v, path) {
        Err(e) => Err(e),
        Ok((sector, size)) => match table_at(reads, v, sector, size) {
            Err(e) => Err(e),
            Ok(t) => {
                let d = table_entries(t);
                Ok(Seq::new(d.len(), |i: int| xdvdfs_line(d[i])))
            },
        },
    }
}

/// The first `n` bytes of the sectors from `s` on.
pub open spec fn data_from(reads: Reads, v: XVolume, s: int, n: int) -> Result<Seq<u8>, Seq<char>>
    decreases n,
{
    if n <= 0 {
        Ok(seq![])
    } else {
        match source::labelled(
            source::reach(reads, v.fs_start + s * 2048, 2048),
            "Read error at sector "@ + numbers::decimal(s) + ": "@,
        ) {
            Err(e) => Err(e),
            Ok(b) => {
                let m = if n < 2048 {
                    n
                } else {
                    2048
                };
                source::after(b.take(m), data_from(reads, v, s + 1, n - m))
            },
        }
    }
}

/// The answer to a request for a file.
pub open spec fn file_answer(reads: Reads, v: XVolume, path: Seq<char>) -> Result<
    Seq<u8>,
    Seq<char>,
> {
    let trimmed = text::strip_front(path, '/');
    match dir_at(reads, v, path::dir_part(trimmed)) {
        Err(e) => Err(e),
        Ok((sector, size)) => match table_at(reads, v, sector, size) {
            Err(e) => Err(e),
            Ok(t) => match found(t, path::name_part(trimmed)) {
                None => Err("File not found: "@ + path),
                Some(e) => if e.is_dir {
                    Err("Not a file: "@ + path)
                } else {
                    data_from(reads, v, e.sector as int, e.size as int)
                },
            },
        },
    }
}

impl<S: ByteSource> XDVDFSFs<S> {
    /// Where this partition starts.
    pub open spec fn contents(&self) -> XVolume {
        XVolume {
            fs_start: self.fs_start as int,
            root_sector: self.root_sector,
            root_size: self.root_size,
        }
    }

    /// Opens the partition that a source holds.
    pub fn new(source: S, track_offset: u64) -> (r: Result<XDVDFSFs<S>, String>)
        ensures
            match r {
                Ok(fs) => fs.source.reads() == source.reads() && xdvdfs_opened(
                    source.reads(),
                    track_offset as int,
                ) == Ok::<XVolume, Seq<char>>(fs.contents()),
                Err(e) => xdvdfs_opened(source.reads(), track_offset as int) == Err::<
                    XVolume,
                    Seq<char>,
                >(e@),
            },
    {
        let mut source: S = source;
        let fs_start: u64 = match probe_for_magic(&mut source, track_offset) {
            Some(n) => n,
            None => {
                return Err("Not an XDVDFS disc".to_owned());
            },
        };
        let vol: Vec<u8> = match read_wide(
            &mut source,
            fs_start as u128 + 65_536,
            2048,
            "Read error: ",
        ) {
            Ok(b) => b,
            Err(e) => {
                return Err(e);
            },
        };
        let root_sector: u32 = read_u32_le(vol.as_slice(), 20);
        let root_size: u32 = read_u32_le(vol.as_slice(), 24);
        Ok(XDVDFSFs { source, fs_start, root_sector, root_size })
    }

    /// Reads the table of a directory.
    fn read_dir_table(&mut self, sector: u32, size: u32) -> (r: Result<Vec<u8>, String>)
        ensures
            final(self).contents() == old(self).contents(),
            final(self).source.reads() == old(self).source.reads(),
            source::outcome(r) == table_at(
                old(self).source.reads(),
                old(self).contents(),
                sector,
                size,
            ),
    {
        if size > MAX_DIR_TABLE {
            let n: String = decimal_string(size as u64);
            return Err(join3("Directory table size ", n.as_str(), " exceeds 4 MiB limit"));
        }
        let whole: u64 = (size as u64 + 2047) / 2048 * 2048;
        let pos: u128 = self.fs_start as u128 + sector as u128 * 2048;
        match read_wide(&mut self.source, pos, whole, "Read error: ") {
            Err(e) => Err(e),
            Ok(b) => {
                let mut b: Vec<u8> = b;
                let ghost all = b@;
                b.truncate(size as usize);
                assert(b@ =~= all.take(size as int));
                Ok(b)
            },
        }
    }

    /// Finds the directory that a path names.
    #[verifier::loop_isolation(false)]
    fn resolve_dir(&mut self, path: &str) -> (r: Result<(u32, u32), String>)
        ensures
            final(self).contents() == old(self).contents(),
            final(self).source.reads() == old(self).source.reads(),
            match r {
                Ok(p) => dir_at(old(self).source.reads(), old(self).contents(), path@) == Ok::<
                    (u32, u32),
                    Seq<char>,
                >(p),
                Err(e) => dir_at(old(self).source.reads(), old(self).contents(), path@) == Err::<
                    (u32, u32),
                    Seq<char>,
                >(e@),
            },
    {
        let ghost reads = self.source.reads();
        let ghost v = self.contents();
        let parts: Vec<Vec<char>> = segments(path);
        let ghost all = text::texts(parts@);
        let mut sector: u32 = self.root_sector;
        let mut size: u32 = self.root_size;
        let ghost goal = dir_at(reads, v, path@);
        let mut k: usize = 0;
        while k < parts.len()
            invariant
                k <= parts@.len(),
                self.contents() == v,
                self.source.reads() == reads,
                resolved(reads, v, all, k as int, sector, size) == goal,
            decreases parts@.len() - k,
        {
            assert(all[k as int] == parts@[k as int]@);
            let t: Vec<u8> = match self.read_dir_table(sector, size) {
                Ok(t) => t,
                Err(e) => {
                    return Err(e);
                },
            };
            let part: String = string_of(parts[k].as_slice());
            match find_node(t.as_slice(), part.as_str()) {
                None => {
                    return Err(join2("Directory not found: ", part.as_str()));
                },
                Some(e) => {
                    if !e.is_dir {
                        return Err(join2("Not a directory: ", part.as_str()));
                    }
                    sector = e.sector;
                    size = e.size;
                },
            }
            k += 1;
        }
        Ok((sector, size))
    }

    /// Lists a directory.
    #[verifier::loop_isolation(false)]
    pub fn list_directory(&mut self, dir_path: &str) -> (r: Result<Vec<DiscEntry>, String>)
        ensures
            final(self).contents() == old(self).contents(),
            final(self).source.reads() == old(self).source.reads(),
            match r {
                Ok(v) => listing_answer(old(self).source.reads(), old(self).contents(), dir_path@)
                    == Ok::<Seq<EntryView>, Seq<char>>(entry::listing(v@)),
                Err(e) => listing_answer(old(self).source.reads(), old(self).contents(), dir_path@)
                    == Err::<Seq<EntryView>, Seq<char>>(e@),
            },
    {
        let (sector, size): (u32, u32) = match self.resolve_dir(dir_path) {
            Ok(p) => p,
            Err(e) => {
                return Err(e);
            },
        };
        let t: Vec<u8> = match self.read_dir_table(sector, size) {
            Ok(t) => t,
            Err(e) => {
                return Err(e);
            },
        };
        let entries: Vec<XEntry> = list_dir_table(t.as_slice());
        let ghost d = entry_views(entries@);
        let ghost lines = Seq::new(d.len(), |i: int| xdvdfs_line(d[i]));
        let mut out: Vec<DiscEntry> = Vec::new();
        let mut k: usize = 0;
        assert(entry::listing(out@) =~= lines.take(0));
        while k < entries.len()
            invariant
                k <= entries@.len(),
                entry::listing(out@) == lines.take(k as int),
            decreases entries@.len() - k,
        {
            let e: &XEntry = &entries[k];
            let modified: String = String::new();
            assert(modified@ =~= seq![]);
            let ghost before = out@;
            let line: DiscEntry = DiscEntry {
                name: e.name.clone(),
                is_dir: e.is_dir,
                lba: e.sector,
                size: if e.is_dir {
                    0
                } else {
                    e.size
                },
                size_bytes: e.size,
                modified,
                deleted: false,
                is_xa: false,
            };
            out.push(line);
            assert(line@ =~= lines[k as int]);
            assert(entry::listing(out@) =~= entry::listing(before).push(line@));
            assert(lines.take(k + 1) =~= lines.take(k as int).push(lines[k as int]));
            k += 1;
        }
        assert(lines.take(k as int) =~= lines);
        Ok(out)
    }

    /// The bytes of a file.
    pub fn extract_file(&mut self, file_path: &str) -> (r: Result<Vec<u8>, String>)
        ensures
            final(self).contents() == old(self).contents(),
            final(self).source.reads() == old(self).source.reads(),
            source::outcome(r) == file_answer(
                old(self).source.reads(),
                old(self).contents(),
                file_path@,
            ),
    {
        let (dir, name) = split_path(file_path);
        let (sector, size): (u32, u32) = match self.resolve_dir(dir.as_str()) {
            Ok(p) => p,
            Err(e) => {
                return Err(e);
            },
        };
        let t: Vec<u8> = match self.read_dir_table(sector, size) {
            Ok(t) => t,
            Err(e) => {
                return Err(e);
            },
        };
        match find_node(t.as_slice(), name.as_str()) {
            None => Err(join2("File not found: ", file_path)),
            Some(e) => if e.is_dir {
                Err(join2("Not a file: ", file_path))
            } else {
                self.read_file_data(e.sector, e.size)
            },
        }
    }

    /// Reads the first `size` bytes of the sectors from `sector` on.
    #[verifier::loop_isolation(false)]
    fn read_file_data(&mut self, sector: u32, size: u32) -> (r: Result<Vec<u8>, String>)
        ensures
            final(self).contents() == old(self).contents(),
            final(self).source.reads() == old(self).source.reads(),
            source::outcome(r) == data_from(
                old(self).source.reads(),
                old(self).contents(),
                sector as int,
                size as int,
            ),
    {
        let ghost reads = self.source.reads();
        let ghost v = self.contents();
        let ghost goal = data_from(reads, v, sector as int, size as int);
        let mut out: Vec<u8> = Vec::new();
        let mut s: u64 = sector as u64;
        let mut left: u64 = size as u64;
        assert(source::after(out@, goal) == goal) by {
            match goal {
                Ok(b) => {
                    assert(out@ + b =~= b);
                },
                Err(_) => {},
            }
        }
        while left > 0
            invariant
                self.contents() == v,
                self.source.reads() == reads,
                left <= size,
                s <= 0xffff_ffff + (size - left),
                source::after(out@, data_from(reads, v, s as int, left as int)) == goal,
            decreases left,
        {
            let n: String = decimal_string(s);
            let label: String = join3("Read error at sector ", n.as_str(), ": ");
            let pos: u128 = self.fs_start as u128 + s as u128 * 2048;
            let mut b: Vec<u8> = match read_wide(&mut self.source, pos, 2048, label.as_str()) {
                Ok(b) => b,
                Err(e) => {
                    return Err(e);
                },
            };
            let m: u64 = if left < 2048 {
                left
            } else {
                2048
            };
            let ghost whole = b@;
            let ghost before = out@;
            b.truncate(m as usize);
            assert(b@ =~= whole.take(m as int));
            out.append(&mut b);
            proof {
                let piece = whole.take(m as int);
                match data_from(reads, v, s + 1, left - m) {
                    Ok(t) => {
                        assert(before + (piece + t) =~= (before + piece) + t);
                    },
                    Err(_) => {},
                }
            }
            left -= m;
            s += 1;
        }
        assert(out@ + seq![] =~= out@);
        Ok(out)
    }
}

/// Every entry that a listing shows is found by its name, in whatever case it is written
/// and in whatever order the tree is.
pub proof fn what_is_listed_is_found(t: Seq<u8>, i: int, name: Seq<char>)
    requires
        0 <= i < table_entries(t).len(),
        raised(name) == raised(table_entries(t)[i].name),
    ensures
        found(t, name) matches Some(e) && raised(e.name) == raised(name),
{
    lemma_found_from(t, 0, name, 0);
    lemma_named_from(table_entries(t), name, 0, i);
}

proof fn lemma_found_from(t: Seq<u8>, off: int, target: Seq<char>, depth: int)
    ensures
        found_from(t, off, target, depth) matches Some(e) ==> raised(e.name) == raised(target),
    decreases 65 - depth,
{
    if depth <= 64 && off + 15 <= t.len() && is_named(t, off) {
        lemma_found_from(t, 4 * bytes::le16_at(t, off), target, depth + 1);
        lemma_found_from(t, 4 * bytes::le16_at(t, off + 2), target, depth + 1);
    }
}

proof fn lemma_named_from(d: Seq<XEntryView>, target: Seq<char>, k: int, i: int)
    requires
        0 <= k <= i < d.len(),
        raised(target) == raised(d[i].name),
    ensures
        named_from(d, target, k) matches Some(e) && raised(e.name) == raised(target),
    decreases d.len() - k,
{
    if raised(target) != raised(d[k].name) {
        lemma_named_from(d, target, k + 1, i);
    }
}

/// The shape of the tree in a table: nodes, by where they stand in the table, between
/// their subtrees.
pub enum Tree {
    Empty,
    Node(Box<Tree>, int, Box<Tree>),
}

/// The nodes of a tree from left to right.
pub open spec fn nodes(tree: Tree) -> Seq<int>
    decreases tree,
{
    match tree {
        Tree::Empty => seq![],
        Tree::Node(l, off, r) => nodes(*l) + seq![off] + nodes(*r),
    }
}

/// Whether the reference `at`, at the depth `depth`, names a tree of that shape: each
/// of its nodes has a name, and none is more than 64 levels down.
pub open spec fn has_shape(t: Seq<u8>, tree: Tree, at: int, depth: int) -> bool
    decreases tree,
{
    match tree {
        Tree::Empty => at == NO_SUBTREE || 4 * at + 15 > t.len(),
        Tree::Node(l, off, r) => {
            &&& at != NO_SUBTREE
            &&& 0 <= off == 4 * at
            &&& off + 15 <= t.len()
            &&& depth <= 64
            &&& is_named(t, off)
            &&& has_shape(t, *l, bytes::le16_at(t, off), depth + 1)
            &&& has_shape(t, *r, bytes::le16_at(t, off + 2), depth + 1)
        },
    }
}

/// The name that the node at `off` is ordered by.
pub open spec fn order_name(t: Seq<u8>, off: int) -> Seq<char> {
    raised(node_entry(t, off).name)
}

/// Whether a tree is a search tree: at each of its nodes the names to the left come
/// before the node's own, and those to the right behind it.
pub open spec fn is_search_tree(t: Seq<u8>, tree: Tree) -> bool
    decreases tree,
{
    match tree {
        Tree::Empty => true,
        Tree::Node(l, off, r) => {
            &&& forall|i: int|
                0 <= i < nodes(*l).len() ==> catalog::name_less(
                    order_name(t, #[trigger] nodes(*l)[i]),
                    order_name(t, off),
                )
            &&& forall|i: int|
                0 <= i < nodes(*r).len() ==> catalog::name_less(
                    order_name(t, off),
                    order_name(t, #[trigger] nodes(*r)[i]),
                )
            &&& is_search_tree(t, *l)
            &&& is_search_tree(t, *r)
        },
    }
}

/// The entries of nodes, one for each.
pub open spec fn node_lines(t: Seq<u8>, offs: Seq<int>) -> Seq<XEntryView> {
    Seq::new(offs.len(), |i: int| node_entry(t, offs[i]))
}

/// The names of entries in upper case.
pub open spec fn raised_names(v: Seq<XEntryView>) -> Seq<Seq<char>> {
    Seq::new(v.len(), |i: int| raised(v[i].name))
}

/// The listing of a table whose tree is a search tree holds one line for each node, in
/// strictly ascending order of the names in upper case.
pub proof fn search_trees_are_listed_in_order(t: Seq<u8>, tree: Tree)
    requires
        has_shape(t, tree, 0, 0),
        is_search_tree(t, tree),
    ensures
        table_entries(t) == node_lines(t, nodes(tree)),
        catalog::ascending(raised_names(table_entries(t))),
{
    let v = nodes(tree);
    lemma_order_of_nodes(t, tree);
    assert forall|i: int, j: int| 0 <= i < v.len() && 0 <= j < v.len() && i != j implies v[i]
        != v[j] by {
        if i < j {
            catalog::names_are_totally_ordered(order_name(t, v[i]), order_name(t, v[j]));
        } else {
            catalog::names_are_totally_ordered(order_name(t, v[j]), order_name(t, v[i]));
        }
    }
    let w = Walk { found: seq![], seen: Seq::new(t.len(), |i: int| false) };
    lemma_nodes_lie_inside(t, tree, 0, 0);
    lemma_walk_over_shape(t, tree, 0, 0, w);
    assert(w.found + node_lines(t, v) =~= node_lines(t, v));
    let names = raised_names(table_entries(t));
    assert forall|i: int, j: int| 0 <= i < j < names.len() implies catalog::name_less(
        #[trigger] names[i],
        #[trigger] names[j],
    ) by {
        assert(names[i] == order_name(t, v[i]) && names[j] == order_name(t, v[j]));
    }
}

/// The nodes of a search tree stand in the order of their names.
proof fn lemma_order_of_nodes(t: Seq<u8>, tree: Tree)
    requires
        is_search_tree(t, tree),
    ensures
        forall|i: int, j: int|
            0 <= i < j < nodes(tree).len() ==> catalog::name_less(
                order_name(t, #[trigger] nodes(tree)[i]),
                order_name(t, #[trigger] nodes(tree)[j]),
            ),
    decreases tree,
{
    if let Tree::Node(l, off, r) = tree {
        lemma_order_of_nodes(t, *l);
        lemma_order_of_nodes(t, *r);
        let a = nodes(*l);
        let b = nodes(*r);
        let v = nodes(tree);
        assert forall|i: int, j: int| 0 <= i < j < v.len() implies catalog::name_less(
            order_name(t, #[trigger] v[i]),
            order_name(t, #[trigger] v[j]),
        ) by {
            let n = a.len() as int;
            if j < n {
                assert(v[i] == a[i] && v[j] == a[j]);
            } else if i > n {
                assert(v[i] == b[i - n - 1] && v[j] == b[j - n - 1]);
            } else {
                assert(i < n ==> v[i] == a[i]);
                assert(i == n ==> v[i] == off);
                assert(j == n ==> v[j] == off);
                assert(j > n ==> v[j] == b[j - n - 1]);
                if i < n && j > n {
                    catalog::name_order_is_transitive(
                        order_name(t, a[i]),
                        order_name(t, off),
                        order_name(t, b[j - n - 1]),
                    );
                }
            }
        }
    }
}

/// The nodes of a tree stand in its table.
proof fn lemma_nodes_lie_inside(t: Seq<u8>, tree: Tree, at: int, depth: int)
    requires
        has_shape(t, tree, at, depth),
    ensures
        forall|k: int|
            0 <= k < nodes(tree).len() ==> 0 <= #[trigger] nodes(tree)[k] < t.len(),
    decreases tree,
{
    if let Tree::Node(l, off, r) = tree {
        lemma_nodes_lie_inside(t, *l, bytes::le16_at(t, off), depth + 1);
        lemma_nodes_lie_inside(t, *r, bytes::le16_at(t, off + 2), depth + 1);
        let a = nodes(*l);
        let b = nodes(*r);
        let v = nodes(tree);
        assert forall|k: int| 0 <= k < v.len() implies 0 <= #[trigger] v[k] < t.len() by {
            let n = a.len() as int;
            if k < n {
                assert(v[k] == a[k]);
            } else if k > n {
                assert(v[k] == b[k - n - 1]);
            }
        }
    }
}

/// The walk over a tree of distinct nodes, none of them visited, finds each of them once
/// and visits no others.
proof fn lemma_walk_over_shape(t: Seq<u8>, tree: Tree, at: int, depth: int, w: Walk)
    requires
        has_shape(t, tree, at, depth),
        0 <= at,
        0 <= depth <= 65,
        w.seen.len() == t.len(),
        forall|k: int|
            0 <= k < nodes(tree).len() ==> 0 <= #[trigger] nodes(tree)[k] < t.len()
                && !w.seen[nodes(tree)[k]],
        forall|i: int, j: int|
            0 <= i < nodes(tree).len() && 0 <= j < nodes(tree).len() && i != j ==> (
            #[trigger] nodes(tree)[i]) != (#[trigger] nodes(tree)[j]),
    ensures
        subtree(t, at, depth, w).found == w.found + node_lines(t, nodes(tree)),
        subtree(t, at, depth, w).seen.len() == t.len(),
        forall|o: int|
            0 <= o < t.len() ==> #[trigger] subtree(t, at, depth, w).seen[o] == (w.seen[o]
                || nodes(tree).contains(o)),
    decreases tree,
{
    let v = nodes(tree);
    match tree {
        Tree::Empty => {
            assert(subtree(t, at, depth, w) == w);
            assert(w.found + node_lines(t, v) =~= w.found);
        },
        Tree::Node(l, off, r) => {
            let a = nodes(*l);
            let b = nodes(*r);
            let n = a.len() as int;
            assert(v[n] == off);
            assert forall|k: int| 0 <= k < a.len() implies #[trigger] a[k] == v[k] by {}
            assert forall|k: int| 0 <= k < b.len() implies #[trigger] b[k] == v[n + 1 + k] by {}
            let begun = Walk { found: w.found, seen: w.seen.update(off, true) };
            let lo = bytes::le16_at(t, off);
            let ro = bytes::le16_at(t, off + 2);
            assert forall|i: int, j: int|
                0 <= i < a.len() && 0 <= j < a.len() && i != j implies (#[trigger] a[i]) != (
            #[trigger] a[j]) by {
                assert(a[i] == v[i] && a[j] == v[j]);
            }
            lemma_walk_over_shape(t, *l, lo, depth + 1, begun);
            let left = subtree(t, lo, depth + 1, begun);
            let here = Walk { found: left.found.push(node_entry(t, off)), seen: left.seen };
            assert forall|k: int| 0 <= k < b.len() implies 0 <= #[trigger] b[k] < t.len()
                && !here.seen[b[k]] by {
                let o = v[n + 1 + k];
                assert(o == b[k]);
                if a.contains(o) {
                    let i = choose|i: int| 0 <= i < a.len() && a[i] == o;
                    assert(v[i] == v[n + 1 + k]);
                }
                assert(left.seen[o] == (begun.seen[o] || a.contains(o)));
            }
            assert forall|i: int, j: int|
                0 <= i < b.len() && 0 <= j < b.len() && i != j implies (#[trigger] b[i]) != (
            #[trigger] b[j]) by {
                assert(b[i] == v[n + 1 + i] && b[j] == v[n + 1 + j]);
            }
            lemma_walk_over_shape(t, *r, ro, depth + 1, here);
            let done = subtree(t, ro, depth + 1, here);
            assert(subtree(t, at, depth, w) == node(t, off, depth, w));
            assert(node(t, off, depth, w) == done);
            assert(done.found =~= w.found + node_lines(t, v));
            assert forall|o: int| 0 <= o < t.len() implies #[trigger] done.seen[o] == (w.seen[o]
                || v.contains(o)) by {
                assert(here.seen[o] == (begun.seen[o] || a.contains(o)));
                if v.contains(o) {
                    let k = choose|k: int| 0 <= k < v.len() && v[k] == o;
                    if k < n {
                        assert(a[k] == o);
                    } else if k > n {
                        assert(b[k - n - 1] == o);
                    }
                }
                if a.contains(o) {
                    let k = choose|k: int| 0 <= k < a.len() && a[k] == o;
                    assert(v[k] == o);
                }
                if b.contains(o) {
                    let k = choose|k: int| 0 <= k < b.len() && b[k] == o;
                    assert(v[n + 1 + k] == o);
                }
            }
        },
    }
}

/// A file that is read is as long as a listing says.
pub proof fn a_file_is_as_long_as_its_entry(reads: Reads, v: XVolume, s: int, n: int)
    requires
        source::exact(reads),
        0 <= n,
    ensures
        data_from(reads, v, s, n) matches Ok(b) ==> b.len() == n,
    decreases n,
{
    if n > 0 {
        let m = if n < 2048 {
            n
        } else {
            2048
        };
        a_file_is_as_long_as_its_entry(reads, v, s + 1, n - m);
        if let Ok(b) = source::reach(reads, v.fs_start + s * 2048, 2048) {
            assert(b.len() == 2048);
        }
    }
}

/// The byte `i` of a file that is read is the byte of the image at that place behind the
/// start of the file's first sector, and a file whose sectors are all there is read.
pub proof fn a_file_is_read_from_its_sectors(image: Seq<u8>, v: XVolume, s: int, n: int)
    requires
        0 <= v.fs_start,
        0 <= s,
        0 <= n,
    ensures
        data_from(source::reads_of(image), v, s, n) matches Ok(b) ==> b.len() == n && forall|i: int|
            0 <= i < n ==> #[trigger] b[i] == image[v.fs_start + 2048 * s + i],
        v.fs_start + 2048 * s + (n + 2047) / 2048 * 2048 <= image.len() <= u64::MAX ==> data_from(
            source::reads_of(image),
            v,
            s,
            n,
        ) is Ok,
    decreases n,
{
    if n > 0 {
        let reads = source::reads_of(image);
        let m = if n < 2048 {
            n
        } else {
            2048
        };
        a_file_is_read_from_its_sectors(image, v, s + 1, n - m);
        assert((n - m + 2047) / 2048 * 2048 + 2048 == (n + 2047) / 2048 * 2048);
        if let Ok(b) = data_from(reads, v, s, n) {
            let head = source::reach(reads, v.fs_start + s * 2048, 2048)->Ok_0.take(m);
            let tail = data_from(reads, v, s + 1, n - m)->Ok_0;
            assert(b == head + tail);
            assert forall|i: int| 0 <= i < n implies #[trigger] b[i] == image[v.fs_start + 2048 * s
                + i] by {
                if i < m {
                    assert(b[i] == head[i]);
                } else {
                    assert(b[i] == tail[i - m]);
                }
            }
        }
    }
}

/// The table of a directory that is read is the stretch of the image at its sector.
pub proof fn a_table_is_read_from_its_sectors(image: Seq<u8>, v: XVolume, sector: u32, size: u32)
    requires
        0 <= v.fs_start,
        v.fs_start + 2048 * sector + (size + 2047) / 2048 * 2048 <= image.len() <= u64::MAX,
        size <= 0x40_0000,
    ensures
        table_at(source::reads_of(image), v, sector, size) == Ok::<Seq<u8>, Seq<char>>(
            image.subrange(v.fs_start + 2048 * sector, v.fs_start + 2048 * sector + size),
        ),
{
    let at = v.fs_start + 2048 * sector;
    let b = image.subrange(at, at + (size + 2047) / 2048 * 2048);
    assert(b.take(size as int) =~= image.subrange(at, at + size));
}

/// A node of a table holds what was written: where its data start at 4, how many they are at 8,
/// the bit that tells a directory at 12, and its name behind its length at 13.
pub proof fn a_node_holds_what_was_written(
    t: Seq<u8>,
    off: int,
    sector: u32,
    size: u32,
    flags: u8,
    name: Seq<u8>,
)
    requires
        0 <= off,
        off + 14 + name.len() <= t.len(),
        0 < name.len() <= 255,
        bytes::has_at(t, off + 4, bytes::le_bytes(sector as int, 4)),
        bytes::has_at(t, off + 8, bytes::le_bytes(size as int, 4)),
        t[off + 12] == flags,
        t[off + 13] == name.len(),
        bytes::has_at(t, off + 14, name),
    ensures
        is_named(t, off),
        node_entry(t, off) == (XEntryView {
            name: text::utf8_text(name),
            is_dir: (flags / 0x10) % 2 == 1,
            sector,
            size,
        }),
{
    bytes::fields_hold_what_was_written(t, off + 4, sector as int);
    bytes::fields_hold_what_was_written(t, off + 8, size as int);
    assert(t.subrange(off + 14, off + 14 + name.len()) =~= name);
}

/// A node without subtrees is its own entry; the references to subtrees stand in its first four
/// bytes and count in units of four bytes.
pub proof fn a_table_of_three_nodes_is_listed(t: Seq<u8>, left: int, right: int)
    requires
        15 <= t.len(),
        is_named(t, 0),
        0 < left <= 0xFFFE,
        0 < right <= 0xFFFE,
        left != right,
        4 * left + 15 <= t.len(),
        4 * right + 15 <= t.len(),
        bytes::has_at(t, 0, bytes::le_bytes(left, 2)),
        bytes::has_at(t, 2, bytes::le_bytes(right, 2)),
        bytes::has_at(t, 4 * left, bytes::le_bytes(0xFFFF, 2)),
        bytes::has_at(t, 4 * left + 2, bytes::le_bytes(0xFFFF, 2)),
        bytes::has_at(t, 4 * right, bytes::le_bytes(0xFFFF, 2)),
        bytes::has_at(t, 4 * right + 2, bytes::le_bytes(0xFFFF, 2)),
        is_named(t, 4 * left),
        is_named(t, 4 * right),
    ensures
        table_entries(t) == seq![
            node_entry(t, 4 * left),
            node_entry(t, 0),
            node_entry(t, 4 * right),
        ],
{
    bytes::fields_hold_what_was_written(t, 0, left);
    bytes::fields_hold_what_was_written(t, 2, right);
    bytes::fields_hold_what_was_written(t, 4 * left, 0xFFFF);
    bytes::fields_hold_what_was_written(t, 4 * left + 2, 0xFFFF);
    bytes::fields_hold_what_was_written(t, 4 * right, 0xFFFF);
    bytes::fields_hold_what_was_written(t, 4 * right + 2, 0xFFFF);
    let w0 = Walk { found: seq![], seen: Seq::new(t.len(), |i: int| false) };
    let w1 = Walk { found: w0.found, seen: w0.seen.update(0, true) };
    lemma_single_node(t, left, w1);
    let w2 = subtree(t, left, 1, w1);
    let w3 = Walk { found: w2.found.push(node_entry(t, 0)), seen: w2.seen };
    lemma_single_node(t, right, w3);
    assert(table_entries(t) == subtree(t, right, 1, w3).found);
    assert(table_entries(t) =~= seq![
        node_entry(t, 4 * left),
        node_entry(t, 0),
        node_entry(t, 4 * right),
    ]);
}

/// The walk over a node without subtrees.
proof fn lemma_single_node(t: Seq<u8>, at: int, w: Walk)
    requires
        0 < at <= 0xFFFE,
        4 * at + 15 <= t.len(),
        bytes::le16_at(t, 4 * at) == 0xFFFF,
        bytes::le16_at(t, 4 * at + 2) == 0xFFFF,
        is_named(t, 4 * at),
        w.seen.len() == t.len(),
        !w.seen[4 * at],
    ensures
        subtree(t, at, 1, w) == (Walk {
            found: w.found.push(node_entry(t, 4 * at)),
            seen: w.seen.update(4 * at, true),
        }),
{
    reveal_with_fuel(subtree, 3);
    reveal_with_fuel(node, 3);
}

/// A volume descriptor stands 0x10000 bytes behind the start of its partition, at one of six
/// places, and tells where the root table stands at 20 and how long it is at 24.
pub proof fn a_descriptor_names_the_root(
    image: Seq<u8>,
    track: int,
    places: Seq<int>,
    k: int,
    root: u32,
    size: u32,
)
    requires
        places == seq![0int, 0x1_0000, 0x2_0000, 406_847_488, 0x208_0000, 0xFD9_0000],
        image.len() <= u64::MAX,
        0 <= track,
        0 <= k < 6,
        track + places[k] + 0x1_0000 + 2048 <= image.len(),
        bytes::spells(image, track + places[k] + 0x1_0000, "MICROSOFT*XBOX*MEDIA"@),
        forall|j: int|
            0 <= j < k ==> !#[trigger] bytes::spells(
                image,
                track + places[j] + 0x1_0000,
                "MICROSOFT*XBOX*MEDIA"@,
            ),
        bytes::has_at(image, track + places[k] + 0x1_0014, bytes::le_bytes(root as int, 4)),
        bytes::has_at(image, track + places[k] + 0x1_0018, bytes::le_bytes(size as int, 4)),
    ensures
        xdvdfs_opened(source::reads_of(image), track) == Ok::<XVolume, Seq<char>>(
            XVolume { fs_start: track + places[k], root_sector: root, root_size: size },
        ),
{
    assert forall|j: int| 0 <= j < 6 implies #[trigger] starts()[j] == places[j] by {}
    assert forall|j: int| 0 <= j < k implies !#[trigger] bytes::spells(
        image,
        track + starts()[j] + 0x1_0000,
        "MICROSOFT*XBOX*MEDIA"@,
    ) by {
        assert(starts()[j] == places[j]);
        assert(!bytes::spells(image, track + places[j] + 0x1_0000, "MICROSOFT*XBOX*MEDIA"@));
    }
    lemma_start(image, track, k, 0);
    let at = track + places[k] + 0x1_0000;
    bytes::fields_hold_what_was_written(image, at + 20, root as int);
    bytes::fields_hold_what_was_written(image, at + 24, size as int);
    let b = image.subrange(at, at + 2048);
    assert(bytes::le32_at(b, 20) == bytes::le32_at(image, at + 20));
    assert(bytes::le32_at(b, 24) == bytes::le32_at(image, at + 24));
}

/// The first place with a descriptor is found.
proof fn lemma_start(image: Seq<u8>, track: int, k: int, j: int)
    requires
        image.len() <= u64::MAX,
        0 <= track,
        0 <= j <= k < 6,
        track + starts()[k] + 0x1_0000 + 2048 <= image.len(),
        bytes::spells(image, track + starts()[k] + 0x1_0000, "MICROSOFT*XBOX*MEDIA"@),
        forall|j: int|
            0 <= j < k ==> !#[trigger] bytes::spells(
                image,
                track + starts()[j] + 0x1_0000,
                "MICROSOFT*XBOX*MEDIA"@,
            ),
    ensures
        start_from(source::reads_of(image), track, j) == Some(track + starts()[k]),
    decreases k - j,
{
    reveal_strlit("MICROSOFT*XBOX*MEDIA");
    let m = "MICROSOFT*XBOX*MEDIA"@;
    assert(m.len() == 20);
    let at = track + starts()[j] + 65_536;
    let reads = source::reads_of(image);
    if at + 20 <= image.len() {
        let b = image.subrange(at, at + 20);
        assert(bytes::spells(b, 0, m) == bytes::spells(image, at, m)) by {
            assert forall|i: int| 0 <= i < 20 implies b[0 + i] == #[trigger] image[at + i] by {}
            if bytes::spells(b, 0, m) {
                assert forall|i: int| 0 <= i < m.len() implies image[at + i] as u32
                    == #[trigger] m[i] as u32 by {
                    assert(b[0 + i] == image[at + i]);
                }
            }
            if bytes::spells(image, at, m) {
                assert forall|i: int| 0 <= i < m.len() implies b[0 + i] as u32
                    == #[trigger] m[i] as u32 by {
                    assert(b[0 + i] == image[at + i]);
                }
            }
        }
    }
    if j < k {
        assert(!bytes::spells(image, track + starts()[j] + 0x1_0000, m));
        lemma_start(image, track, k, j + 1);
    }
}

/// A file two directories down is found by its path: each directory's table is that of the entry
/// in the one above, and the file's bytes are those of the sectors that its own entry names.
pub proof fn a_file_is_found_by_its_path(
    image: Seq<u8>,
    v: XVolume,
    a: Seq<char>,
    b: Seq<char>,
    name: Seq<char>,
    root: Seq<u8>,
    ea: XEntryView,
    ta: Seq<u8>,
    eb: XEntryView,
    tb: Seq<u8>,
    e: XEntryView,
)
    requires
        image.len() <= u64::MAX,
        0 <= v.fs_start,
        a.len() > 0 && !a.contains('/'),
        b.len() > 0 && !b.contains('/'),
        name.len() > 0 && !name.contains('/'),
        table_at(source::reads_of(image), v, v.root_sector, v.root_size) == Ok::<
            Seq<u8>,
            Seq<char>,
        >(root),
        found(root, a) == Some(ea) && ea.is_dir,
        table_at(source::reads_of(image), v, ea.sector, ea.size) == Ok::<Seq<u8>, Seq<char>>(ta),
        found(ta, b) == Some(eb) && eb.is_dir,
        table_at(source::reads_of(image), v, eb.sector, eb.size) == Ok::<Seq<u8>, Seq<char>>(tb),
        found(tb, name) == Some(e) && !e.is_dir,
        v.fs_start + 2048 * e.sector + (e.size + 2047) / 2048 * 2048 <= image.len(),
    ensures
        file_answer(
            source::reads_of(image),
            v,
            seq!['/'] + (a + seq!['/'] + b) + seq!['/'] + name,
        ) == Ok::<Seq<u8>, Seq<char>>(
            image.subrange(
                v.fs_start + 2048 * e.sector,
                v.fs_start + 2048 * e.sector + e.size,
            ),
        ),
        listing_answer(source::reads_of(image), v, seq!['/'] + a + seq!['/'] + b) matches Ok(l)
            && l.len() == table_entries(tb).len() && forall|i: int|
            0 <= i < l.len() ==> (#[trigger] l[i]).name == table_entries(tb)[i].name && l[i].lba
                == table_entries(tb)[i].sector && l[i].size_bytes == table_entries(tb)[i].size
                && l[i].is_dir == table_entries(tb)[i].is_dir,
{
    let reads = source::reads_of(image);
    let d = a + seq!['/'] + b;
    assert(d[0] == a[0]);
    assert(a.contains(a[0]));
    path::a_path_is_split_at_its_last_slash(d, name);
    text::names_stand_between_slashes(a, b);
    let parts = seq![a, b];
    assert(parts[0] == a && parts[1] == b);
    reveal_with_fuel(resolved, 3);
    assert(dir_at(reads, v, d) == Ok::<(u32, u32), Seq<char>>((eb.sector, eb.size)));
    assert(dir_at(reads, v, seq!['/'] + a + seq!['/'] + b) == Ok::<(u32, u32), Seq<char>>(
        (eb.sector, eb.size),
    ));
    a_file_is_read_from_its_sectors(image, v, e.sector as int, e.size as int);
    let got = data_from(reads, v, e.sector as int, e.size as int)->Ok_0;
    assert(got =~= image.subrange(
        v.fs_start + 2048 * e.sector,
        v.fs_start + 2048 * e.sector + e.size,
    ));
}

} // verus!
