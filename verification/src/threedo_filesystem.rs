//! OperaFS, the file system of 3DO discs.
//!
//! Directory entries are 68 bytes plus four for each copy of what they
//! describe; a directory longer than one block goes on at blocks numbered
//! within its own extent.
use vstd::prelude::*;
use vstd::slice::*;
use crate::bytes;
use crate::bytes::{bytes_at, read_u32_be};
use crate::entry;
use crate::entry::{DiscEntry, EntryView};
use crate::numbers;
use crate::numbers::decimal_string;
use crate::path;
use crate::path::split_path;
use crate::sector;
use crate::sector::{default_stride, read_data};
use crate::source;
use crate::source::{ByteSource, Reads};
use crate::text;
use crate::text::{chars_of, join2, read_to_zero, same_text, segments, string_of};

verus! {

/// A limit on the number of copies.
pub const MAX_AVATARS: u32 = 64;

/// The header of a block of a directory.
pub const DIR_HDR_SIZE: usize = 20;

/// The part of an entry before the list of its copies.
pub const DIR_ENTRY_FIXED: usize = 68;

pub const ENTRY_NAME_OFF: usize = 32;

pub const ENTRY_LAST_AVATAR_OFF: usize = 64;

pub const ENTRY_AVATAR0_OFF: usize = 68;

/// What an entry describes.
#[derive(Clone, Copy, PartialEq, Eq, Structural)]
pub enum EntryKind {
    File,
    Directory,
}

/// An entry of a directory.
pub struct DirEntry {
    pub name: String,
    pub kind: EntryKind,
    pub lba: u32,
    pub byte_count: u32,
}

/// The contents of an entry.
#[verifier::ext_equal]
pub struct DirEntryView {
    pub name: Seq<char>,
    pub kind: EntryKind,
    pub lba: u32,
    pub byte_count: u32,
}

impl View for DirEntry {
    type V = DirEntryView;

    open spec fn view(&self) -> DirEntryView {
        DirEntryView {
            name: self.name@,
            kind: self.kind,
            lba: self.lba,
            byte_count: self.byte_count,
        }
    }
}

/// The contents of a list of entries.
pub open spec fn entry_views(v: Seq<DirEntry>) -> Seq<DirEntryView> {
    Seq::new(v.len(), |i: int| v[i]@)
}

/// The length of an entry with its list of copies.
pub open spec fn entry_len(b: Seq<u8>) -> Option<int> {
    if b.len() < 72 || bytes::be32_at(b, 64) >= 64 {
        None
    } else {
        Some(68 + 4 * (bytes::be32_at(b, 64) + 1))
    }
}

/// The length of the entry that `buf` begins with.
pub fn entry_size(buf: &[u8]) -> (r: Option<usize>)
    ensures
        match r {
            Some(n) => entry_len(buf@) == Some(n as int),
            None => entry_len(buf@) is None,
        },
{
    if buf.len() < 72 {
        return None;
    }
    let last: u32 = read_u32_be(buf, ENTRY_LAST_AVATAR_OFF);
    if last >= MAX_AVATARS {
        return None;
    }
    Some(68 + 4 * (last as usize + 1))
}

/// What an entry describes: by its type tag, or else by the low bits of its
/// flags.
pub open spec fn kind_of(tag: int, flags: int) -> Option<EntryKind> {
    if tag == 0x43617420 || tag == 0x2A646972 {
        Some(EntryKind::Directory)
    } else if tag == 0x4C766C20 || tag == 0x20202020 || tag == 0x2A6C626C {
        Some(EntryKind::File)
    } else if flags % 8 == 7 {
        Some(EntryKind::Directory)
    } else if flags % 8 == 2 || flags % 8 == 6 {
        Some(EntryKind::File)
    } else {
        None
    }
}

/// The entry that `b` holds; one of unknown kind or without a name is none.
pub open spec fn entry_of(b: Seq<u8>) -> Option<DirEntryView> {
    if b.len() < 72 {
        None
    } else {
        match kind_of(bytes::be32_at(b, 8), bytes::be32_at(b, 0)) {
            None => None,
            Some(kind) => {
                let name = text::text_to_zero(b.subrange(32, 64));
                if name.len() == 0 {
                    None
                } else {
                    Some(
                        DirEntryView {
                            name,
                            kind,
                            lba: bytes::be32_at(b, 68) as u32,
                            byte_count: bytes::be32_at(b, 16) as u32,
                        },
                    )
                }
            },
        }
    }
}

/// The entry that `buf` holds.
pub fn parse_entry(buf: &[u8]) -> (r: Option<DirEntry>)
    ensures
        match r {
            Some(e) => entry_of(buf@) == Some(e@),
            None => entry_of(buf@) is None,
        },
{
    if buf.len() < 72 {
        return None;
    }
    let tag: u32 = read_u32_be(buf, 8);
    let flags: u32 = read_u32_be(buf, 0);
    let kind: EntryKind = if tag == 0x43617420 || tag == 0x2A646972 {
        EntryKind::Directory
    } else if tag == 0x4C766C20 || tag == 0x20202020 || tag == 0x2A6C626C {
        EntryKind::File
    } else if flags % 8 == 7 {
        EntryKind::Directory
    } else if flags % 8 == 2 || flags % 8 == 6 {
        EntryKind::File
    } else {
        return None;
    };
    let name: String = read_to_zero(slice_subrange(buf, 32, 64));
    let letters: Vec<char> = chars_of(name.as_str());
    if letters.len() == 0 {
        return None;
    }
    Some(
        DirEntry {
            name,
            kind,
            lba: read_u32_be(buf, ENTRY_AVATAR0_OFF),
            byte_count: read_u32_be(buf, 16),
        },
    )
}

/// `n` within the limits `lo` and `hi`.
pub open spec fn within(n: int, lo: int, hi: int) -> int {
    if n < lo {
        lo
    } else if n > hi {
        hi
    } else {
        n
    }
}

/// The entries of a block from `off` on, up to `free`, where its used part ends.
pub open spec fn entries_from(b: Seq<u8>, off: int, free: int) -> Seq<DirEntryView>
    decreases free - off,
{
    if off < 0 || off + 72 > free {
        seq![]
    } else {
        match entry_len(b.skip(off)) {
            None => seq![],
            Some(n) => if off + n > free || n <= 0 {
                seq![]
            } else {
                let rest = entries_from(b, off + n, free);
                match entry_of(b.subrange(off, off + n)) {
                    Some(e) => seq![e] + rest,
                    None => rest,
                }
            },
        }
    }
}

/// The entries of a directory block, which says where they begin and end.
pub open spec fn block_entries(b: Seq<u8>) -> Seq<DirEntryView> {
    entries_from(
        b,
        within(bytes::be32_at(b, 16), 20, 2048),
        within(bytes::be32_at(b, 12), 0, 2048),
    )
}

/// The entries of a directory block.
#[verifier::loop_isolation(false)]
pub fn walk_block(block: &[u8]) -> (r: Vec<DirEntry>)
    requires
        block@.len() == 2048,
    ensures
        entry_views(r@) == block_entries(block@),
{
    let first: u32 = read_u32_be(block, 16);
    let end: u32 = read_u32_be(block, 12);
    let free: usize = if end > 2048 {
        2048
    } else {
        end as usize
    };
    let mut off: usize = if first < 20 {
        20
    } else if first > 2048 {
        2048
    } else {
        first as usize
    };
    let mut out: Vec<DirEntry> = Vec::new();
    let ghost goal = block_entries(block@);
    assert(entry_views(out@) + goal =~= goal);
    while off + 72 <= free
        invariant
            off <= 2048,
            entry_views(out@) + entries_from(block@, off as int, free as int) == goal,
        decreases 2048 - off,
    {
        let rest: &[u8] = slice_subrange(block, off, 2048);
        assert(rest@ =~= block@.skip(off as int));
        let size: usize = match entry_size(rest) {
            Some(n) => n,
            None => {
                assert(entry_views(out@) + seq![] =~= entry_views(out@));
                return out;
            },
        };
        if off + size > free {
            assert(entry_views(out@) + seq![] =~= entry_views(out@));
            return out;
        }
        let ghost tail = entries_from(block@, off + size, free as int);
        if let Some(e) = parse_entry(slice_subrange(block, off, off + size)) {
            let ghost before = out@;
            out.push(e);
            assert(entry_views(out@) =~= entry_views(before).push(e@));
            assert(entry_views(before).push(e@) + tail =~= entry_views(before) + (seq![e@] + tail));
        }
        off += size;
    }
    assert(entry_views(out@) + seq![] =~= entry_views(out@));
    out
}

/// Whether a sector begins a volume.
pub open spec fn is_volume(s: Seq<u8>) -> bool {
    bytes::has_at(s, 0, seq![0x01u8, 0x5A, 0x5A, 0x5A, 0x5A, 0x5A, 0x01])
}

/// Whether a sector begins a volume.
fn has_magic(s: &[u8]) -> (r: bool)
    ensures
        r == is_volume(s@),
{
    let magic: [u8; 7] = [0x01, 0x5A, 0x5A, 0x5A, 0x5A, 0x5A, 0x01];
    assert(magic@ =~= seq![0x01u8, 0x5A, 0x5A, 0x5A, 0x5A, 0x5A, 0x01]);
    bytes_at(s, 0, magic.as_slice())
}

/// Whether a track with the given layout holds a volume.
pub fn is_threedo_reader<S: ByteSource>(
    reader: &mut S,
    track_byte_start: u64,
    user_data_offset: u64,
    stride: u64,
) -> (r: bool)
    ensures
        final(reader).reads() == old(reader).reads(),
        r == (sector::data_at(
            old(reader).reads(),
            track_byte_start as int,
            stride as int,
            user_data_offset as int,
            0,
        ) matches Ok(s) && is_volume(s)),
{
    match read_data(reader, track_byte_start, stride, user_data_offset, 0, "") {
        Ok(s) => has_magic(s.as_slice()),
        Err(_) => false,
    }
}

/// Whether a track holds a volume.
pub fn is_threedo_disc<S: ByteSource>(source: &mut S, track_offset: u64, user_data_offset: u64) -> (r:
    bool)
    ensures
        final(source).reads() == old(source).reads(),
        r == (sector::data_at(
            old(source).reads(),
            track_offset as int,
            sector::stride_for(user_data_offset) as int,
            user_data_offset as int,
            0,
        ) matches Ok(s) && is_volume(s)),
{
    is_threedo_reader(
        source,
        track_offset,
        user_data_offset,
        default_stride(user_data_offset),
    )
}

/// An opened volume.
pub struct ThreeDOFs<S: ByteSource> {
    pub source: S,
    pub track_offset: u64,
    pub user_data_offset: u64,
    pub stride: u64,
    pub root_lba: u64,
}

/// Where the sectors of a volume stand, and its root directory.
#[verifier::ext_equal]
pub struct OperaView {
    pub track_offset: int,
    pub user_data_offset: int,
    pub stride: int,
    pub root_lba: int,
}

/// A sector of a volume.
pub open spec fn opera_sector(reads: Reads, v: OperaView, lba: int) -> Result<Seq<u8>, Seq<char>> {
    sector::data_at(reads, v.track_offset, v.stride, v.user_data_offset, lba)
}

/// The entries of the directory that begins at `start`, from the block `lba`
/// on. At most `left` blocks are read, and none twice.
pub open spec fn dir_from(
    reads: Reads,
    v: OperaView,
    start: int,
    lba: int,
    seen: Seq<u64>,
    left: int,
) -> Seq<DirEntryView>
    decreases left,
{
    if left <= 0 || seen.contains(lba as u64) {
        seq![]
    } else {
        match opera_sector(reads, v, lba) {
            Err(_) => seq![],
            Ok(b) => {
                let next = bytes::be32_at(b, 0);
                block_entries(b) + (if next == 0xFFFF_FFFF || next == 0 {
                    seq![]
                } else {
                    dir_from(reads, v, start, start + next, seen.push(lba as u64), left - 1)
                })
            },
        }
    }
}

/// The entries of the directory that begins at `start`.
pub open spec fn dir_entries(reads: Reads, v: OperaView, start: int) -> Seq<DirEntryView> {
    dir_from(reads, v, start, start, seq![], 256)
}

/// The first entry from `k` on of the given kind and name.
pub open spec fn entry_named(d: Seq<DirEntryView>, k: int, kind: EntryKind, name: Seq<char>) -> Option<
    DirEntryView,
>
    decreases d.len() - k,
{
    if k < 0 || k >= d.len() {
        None
    } else if d[k].kind == kind && d[k].name == name {
        Some(d[k])
    } else {
        entry_named(d, k + 1, kind, name)
    }
}

/// The directory that `parts` from `k` on lead to, from the one at `lba`.
pub open spec fn resolved(
    reads: Reads,
    v: OperaView,
    parts: Seq<Seq<char>>,
    k: int,
    lba: int,
) -> Result<int, Seq<char>>
    decreases parts.len() - k,
{
    if k < 0 || k >= parts.len() {
        Ok(lba)
    } else {
        match entry_named(dir_entries(reads, v, lba), 0, EntryKind::Directory, parts[k]) {
            None => Err("Directory not found: "@ + parts[k]),
            Some(e) => resolved(reads, v, parts, k + 1, e.lba as int),
        }
    }
}

/// The directory that a path names.
pub open spec fn dir_at(reads: Reads, v: OperaView, path: Seq<char>) -> Result<int, Seq<char>> {
    resolved(reads, v, text::segments_of(path), 0, v.root_lba)
}

/// The line for an entry.
pub open spec fn opera_line(e: DirEntryView) -> EntryView {
    EntryView {
        name: e.name,
        is_dir: e.kind == EntryKind::Directory,
        lba: e.lba,
        size: if e.kind == EntryKind::Directory {
            0
        } else {
            e.byte_count
        },
        size_bytes: e.byte_count,
        modified: seq![],
        deleted: false,
        is_xa: false,
    }
}

/// The first `n` bytes of the blocks from `lba` on.
pub open spec fn blocks_from(reads: Reads, v: OperaView, lba: int, n: int) -> Result<
    Seq<u8>,
    Seq<char>,
>
    decreases n,
{
    if n <= 0 {
        Ok(seq![])
    } else {
        match opera_sector(reads, v, lba) {
            Err(_) => Err("Cannot read block "@ + numbers::decimal(lba)),
            Ok(b) => {
                let m = if n < 2048 {
                    n
                } else {
                    2048
                };
                source::after(b.take(m), blocks_from(reads, v, lba + 1, n - m))
            },
        }
    }
}

/// The answer to a listing of a directory.
pub open spec fn listing_answer(reads: Reads, v: OperaView, path: Seq<char>) -> Result<
    Seq<EntryView>,
    Seq<char>,
> {
    match dir_at(reads, v, path) {
        Err(e) => Err(e),
        Ok(lba) => {
            let d = dir_entries(reads, v, lba);
            Ok(Seq::new(d.len(), |i: int| opera_line(d[i])))
        },
    }
}

/// The answer to a request for a file.
pub open spec fn file_answer(reads: Reads, v: OperaView, path: Seq<char>) -> Result<
    Seq<u8>,
    Seq<char>,
> {
    let trimmed = text::strip_front(path, '/');
    match dir_at(reads, v, path::dir_part(trimmed)) {
        Err(e) => Err(e),
        Ok(lba) => match entry_named(
            dir_entries(reads, v, lba),
            0,
            EntryKind::File,
            path::name_part(trimmed),
        ) {
            None => Err("File not found: "@ + path),
            Some(e) => blocks_from(reads, v, e.lba as int, e.byte_count as int),
        },
    }
}

/// The volume whose first sector is `s`.
pub open spec fn opera_opened(
    reads: Reads,
    track_offset: int,
    user_data_offset: int,
    stride: int,
) -> Result<OperaView, Seq<char>> {
    match sector::data_at(reads, track_offset, stride, user_data_offset, 0) {
        Err(_) => Err("Cannot read 3DO volume header"@),
        Ok(s) => if !is_volume(s) {
            Err("Not a 3DO OperaFS disc"@)
        } else {
            Ok(
                OperaView {
                    track_offset,
                    user_data_offset,
                    stride,
                    root_lba: bytes::be32_at(s, 100),
                },
            )
        },
    }
}

impl<S: ByteSource> ThreeDOFs<S> {
    /// Where the sectors of this volume stand.
    pub open spec fn contents(&self) -> OperaView {
        OperaView {
            track_offset: self.track_offset as int,
            user_data_offset: self.user_data_offset as int,
            stride: self.stride as int,
            root_lba: self.root_lba as int,
        }
    }

    /// Whether the root directory has a 32-bit block number.
    pub open spec fn wf(&self) -> bool {
        self.root_lba <= 0xffff_ffff
    }

    /// Opens the volume of a track.
    pub fn new(source: S, track_offset: u64, user_data_offset: u64, stride: u64) -> (r: Result<
        ThreeDOFs<S>,
        String,
    >)
        ensures
            match r {
                Ok(fs) => fs.wf() && fs.source.reads() == source.reads() && opera_opened(
                    source.reads(),
                    track_offset as int,
                    user_data_offset as int,
                    stride as int,
                ) == Ok::<OperaView, Seq<char>>(fs.contents()),
                Err(e) => opera_opened(
                    source.reads(),
                    track_offset as int,
                    user_data_offset as int,
                    stride as int,
                ) == Err::<OperaView, Seq<char>>(e@),
            },
    {
        let mut source: S = source;
        let s: Vec<u8> = match read_data(
            &mut source,
            track_offset,
            stride,
            user_data_offset,
            0,
            "",
        ) {
            Ok(s) => s,
            Err(_) => {
                return Err("Cannot read 3DO volume header".to_owned());
            },
        };
        if !has_magic(s.as_slice()) {
            return Err("Not a 3DO OperaFS disc".to_owned());
        }
        let root_lba: u64 = read_u32_be(s.as_slice(), 100) as u64;
        Ok(ThreeDOFs { source, track_offset, user_data_offset, stride, root_lba })
    }

    /// Reads a directory.
    #[verifier::loop_isolation(false)]
    fn read_dir_at(&mut self, start_lba: u64) -> (r: Vec<DirEntry>)
        requires
            start_lba <= 0xffff_ffff,
        ensures
            final(self).contents() == old(self).contents(),
            final(self).source.reads() == old(self).source.reads(),
            entry_views(r@) == dir_entries(
                old(self).source.reads(),
                old(self).contents(),
                start_lba as int,
            ),
    {
        let ghost reads = self.source.reads();
        let ghost v = self.contents();
        let ghost goal = dir_entries(reads, v, start_lba as int);
        let mut out: Vec<DirEntry> = Vec::new();
        let mut seen: Vec<u64> = Vec::new();
        let mut lba: u64 = start_lba;
        let mut left: u32 = 256;
        assert(seen@ =~= seq![]);
        assert(entry_views(out@) + goal =~= goal);
        while left > 0
            invariant
                self.contents() == v,
                self.source.reads() == reads,
                lba <= 0x1_ffff_ffff,
                entry_views(out@) + dir_from(
                    reads,
                    v,
                    start_lba as int,
                    lba as int,
                    seen@,
                    left as int,
                ) == goal,
            decreases left,
        {
            assert(entry_views(out@) + seq![] =~= entry_views(out@));
            let mut k: usize = 0;
            let mut met: bool = false;
            while k < seen.len()
                invariant
                    k <= seen@.len(),
                    met == (exists|j: int| 0 <= j < k && seen@[j] == lba),
                decreases seen@.len() - k,
            {
                if seen[k] == lba {
                    met = true;
                }
                k += 1;
            }
            if met {
                assert(seen@.contains(lba));
                return out;
            }
            assert(!seen@.contains(lba));
            let block: Vec<u8> = match read_data(
                &mut self.source,
                self.track_offset,
                self.stride,
                self.user_data_offset,
                lba,
                "",
            ) {
                Ok(b) => b,
                Err(_) => {
                    return out;
                },
            };
            let next: u32 = read_u32_be(block.as_slice(), 0);
            let ghost before = entry_views(out@);
            let ghost here = block_entries(block@);
            let mut found: Vec<DirEntry> = walk_block(block.as_slice());
            let ghost found0 = found@;
            let ghost out0 = out@;
            out.append(&mut found);
            assert(entry_views(out@) =~= before + here) by {
                assert(out@ == out0 + found0);
                assert(entry_views(out0 + found0) =~= entry_views(out0) + entry_views(found0));
            }
            seen.push(lba);
            if next == 0xFFFF_FFFF || next == 0 {
                assert(before + (here + seq![]) =~= before + here);
                return out;
            }
            proof {
                let rest = dir_from(
                    reads,
                    v,
                    start_lba as int,
                    start_lba + next,
                    seen@,
                    left - 1,
                );
                assert(before + (here + rest) =~= (before + here) + rest);
            }
            lba = start_lba + next as u64;
            left -= 1;
        }
        assert(entry_views(out@) + seq![] =~= entry_views(out@));
        out
    }

    /// Finds the directory that a path names.
    #[verifier::loop_isolation(false)]
    fn resolve_dir(&mut self, path: &str) -> (r: Result<u64, String>)
        requires
            old(self).wf(),
        ensures
            final(self).contents() == old(self).contents(),
            final(self).source.reads() == old(self).source.reads(),
            match r {
                Ok(lba) => lba <= 0xffff_ffff && dir_at(
                    old(self).source.reads(),
                    old(self).contents(),
                    path@,
                ) == Ok::<int, Seq<char>>(lba as int),
                Err(e) => dir_at(old(self).source.reads(), old(self).contents(), path@) == Err::<
                    int,
                    Seq<char>,
                >(e@),
            },
    {
        let ghost reads = self.source.reads();
        let ghost v = self.contents();
        let parts: Vec<Vec<char>> = segments(path);
        let ghost all = text::texts(parts@);
        let mut lba: u64 = self.root_lba;
        let ghost goal = dir_at(reads, v, path@);
        let mut k: usize = 0;
        while k < parts.len()
            invariant
                k <= parts@.len(),
                lba <= 0xffff_ffff,
                self.contents() == v,
                self.source.reads() == reads,
                resolved(reads, v, all, k as int, lba as int) == goal,
            decreases parts@.len() - k,
        {
            assert(all[k as int] == parts@[k as int]@);
            let entries: Vec<DirEntry> = self.read_dir_at(lba);
            let part: String = string_of(parts[k].as_slice());
            match find_entry(&entries, EntryKind::Directory, part.as_str()) {
                None => {
                    return Err(join2("Directory not found: ", part.as_str()));
                },
                Some(i) => {
                    lba = entries[i].lba as u64;
                },
            }
            k += 1;
        }
        Ok(lba)
    }

    /// Lists a directory.
    #[verifier::loop_isolation(false)]
    pub fn list_directory(&mut self, dir_path: &str) -> (r: Result<Vec<DiscEntry>, String>)
        requires
            old(self).wf(),
        ensures
            final(self).contents() == old(self).contents(),
            final(self).source.reads() == old(self).source.reads(),
            match r {
                Ok(v) => listing_answer(old(self).source.reads(), old(self).contents(), dir_path@)
                    == Ok::<Seq<EntryView>, Seq<char>>(entry::listing(v@)),
                Err(e) => listing_answer(old(self).source.reads(), old(self).contents(), dir_path@)
                    == Err::<Seq<EntryView>, Seq<char>>(e@),
            },
    {
        let lba: u64 = match self.resolve_dir(dir_path) {
            Ok(n) => n,
            Err(e) => {
                return Err(e);
            },
        };
        let entries: Vec<DirEntry> = self.read_dir_at(lba);
        let ghost d = entry_views(entries@);
        let ghost lines = Seq::new(d.len(), |i: int| opera_line(d[i]));
        let mut out: Vec<DiscEntry> = Vec::new();
        let mut k: usize = 0;
        assert(entry::listing(out@) =~= lines.take(0));
        while k < entries.len()
            invariant
                k <= entries@.len(),
                entry::listing(out@) == lines.take(k as int),
            decreases entries@.len() - k,
        {
            let is_dir: bool = entries[k].kind == EntryKind::Directory;
            let modified: String = String::new();
            assert(modified@ =~= seq![]);
            let ghost before = out@;
            let line: DiscEntry = DiscEntry {
                name: entries[k].name.clone(),
                is_dir,
                lba: entries[k].lba,
                size: if is_dir {
                    0
                } else {
                    entries[k].byte_count
                },
                size_bytes: entries[k].byte_count,
                modified,
                deleted: false,
                is_xa: false,
            };
            out.push(line);
            assert(line@ =~= lines[k as int]);
            assert(entry::listing(out@) =~= entry::listing(before).push(line@));
            assert(lines.take(k + 1) =~= lines.take(k as int).push(lines[k as int]));
            k += 1;
        }
        assert(lines.take(k as int) =~= lines);
        Ok(out)
    }

    /// The bytes of a file.
    pub fn extract_file(&mut self, file_path: &str) -> (r: Result<Vec<u8>, String>)
        requires
            old(self).wf(),
        ensures
            final(self).contents() == old(self).contents(),
            final(self).source.reads() == old(self).source.reads(),
            source::outcome(r) == file_answer(
                old(self).source.reads(),
                old(self).contents(),
                file_path@,
            ),
    {
        let (dir, name) = split_path(file_path);
        let lba: u64 = match self.resolve_dir(dir.as_str()) {
            Ok(n) => n,
            Err(e) => {
                return Err(e);
            },
        };
        let entries: Vec<DirEntry> = self.read_dir_at(lba);
        match find_entry(&entries, EntryKind::File, name.as_str()) {
            None => Err(join2("File not found: ", file_path)),
            Some(i) => self.read_blocks(entries[i].lba as u64, entries[i].byte_count as u64),
        }
    }

    /// Reads the first `byte_count` bytes of the blocks from `start_lba` on.
    #[verifier::loop_isolation(false)]
    fn read_blocks(&mut self, start_lba: u64, byte_count: u64) -> (r: Result<Vec<u8>, String>)
        requires
            start_lba <= 0xffff_ffff,
            byte_count <= 0xffff_ffff,
        ensures
            final(self).contents() == old(self).contents(),
            final(self).source.reads() == old(self).source.reads(),
            source::outcome(r) == blocks_from(
                old(self).source.reads(),
                old(self).contents(),
                start_lba as int,
                byte_count as int,
            ),
    {
        let ghost reads = self.source.reads();
        let ghost v = self.contents();
        let ghost goal = blocks_from(reads, v, start_lba as int, byte_count as int);
        let mut out: Vec<u8> = Vec::new();
        let mut lba: u64 = start_lba;
        let mut left: u64 = byte_count;
        assert(source::after(out@, goal) == goal) by {
            match goal {
                Ok(b) => {
                    assert(out@ + b =~= b);
                },
                Err(_) => {},
            }
        }
        while left > 0
            invariant
                self.contents() == v,
                self.source.reads() == reads,
                left <= byte_count,
                lba <= 0xffff_ffff + (byte_count - left),
                source::after(out@, blocks_from(reads, v, lba as int, left as int)) == goal,
            decreases left,
        {
            let mut b: Vec<u8> = match read_data(
                &mut self.source,
                self.track_offset,
                self.stride,
                self.user_data_offset,
                lba,
                "",
            ) {
                Ok(b) => b,
                Err(_) => {
                    let n: String = decimal_string(lba);
                    return Err(join2("Cannot read block ", n.as_str()));
                },
            };
            let n: u64 = if left < 2048 {
                left
            } else {
                2048
            };
            let ghost whole = b@;
            let ghost before = out@;
            b.truncate(n as usize);
            assert(b@ =~= whole.take(n as int));
            out.append(&mut b);
            proof {
                let piece = whole.take(n as int);
                match blocks_from(reads, v, lba + 1, left - n) {
                    Ok(t) => {
                        assert(before + (piece + t) =~= (before + piece) + t);
                    },
                    Err(_) => {},
                }
            }
            left -= n;
            lba += 1;
        }
        assert(out@ + seq![] =~= out@);
        Ok(out)
    }
}

/// Finds the first entry of the given kind and name.
#[verifier::loop_isolation(false)]
fn find_entry(entries: &Vec<DirEntry>, kind: EntryKind, name: &str) -> (r: Option<usize>)
    ensures
        match r {
            Some(i) => i < entries@.len() && entry_named(entry_views(entries@), 0, kind, name@)
                == Some(entries@[i as int]@),
            None => entry_named(entry_views(entries@), 0, kind, name@) is None,
        },
{
    let ghost d = entry_views(entries@);
    let mut k: usize = 0;
    while k < entries.len()
        invariant
            k <= entries@.len(),
            entry_named(d, 0, kind, name@) == entry_named(d, k as int, kind, name@),
        decreases entries@.len() - k,
    {
        if entries[k].kind == kind && same_text(entries[k].name.as_str(), name) {
            return Some(k);
        }
        k += 1;
    }
    None
}

/// A file that is read is as long as a listing says.
pub proof fn a_file_is_as_long_as_its_entry(reads: Reads, v: OperaView, lba: int, n: int)
    requires
        source::exact(reads),
        0 <= n,
    ensures
        blocks_from(reads, v, lba, n) matches Ok(b) ==> b.len() == n,
    decreases n,
{
    if n > 0 {
        let m = if n < 2048 {
            n
        } else {
            2048
        };
        a_file_is_as_long_as_its_entry(reads, v, lba + 1, n - m);
        if let Ok(b) = opera_sector(reads, v, lba) {
            assert(b.len() == 2048);
        }
    }
}

/// Every entry that a listing shows is found by its kind and name: the first of
/// them, where several share both.
pub proof fn a_listed_entry_is_found(d: Seq<DirEntryView>, i: int, k: int)
    requires
        0 <= k <= i < d.len(),
    ensures
        entry_named(d, k, d[i].kind, d[i].name) matches Some(e) && e.kind == d[i].kind && e.name
            == d[i].name,
    decreases i - k,
{
    if !(d[k].kind == d[i].kind && d[k].name == d[i].name) {
        a_listed_entry_is_found(d, i, k + 1);
    }
}

/// The byte `i` of a file that is read stands in the user data of the sector that many whole
/// sectors of 2048 bytes behind its first one.
pub proof fn a_file_is_read_from_its_blocks(
    front: Seq<u8>,
    sectors: Seq<Seq<u8>>,
    rest: Seq<u8>,
    v: OperaView,
    lba: int,
    n: int,
)
    requires
        v.track_offset == front.len(),
        0 <= v.user_data_offset,
        v.user_data_offset + 2048 <= v.stride,
        forall|k: int| 0 <= k < sectors.len() ==> (#[trigger] sectors[k]).len() == v.stride,
        source::image_of(front, sectors, v.stride, rest).len() <= u64::MAX,
        0 <= lba,
        0 <= n,
        2048 * lba + n <= 2048 * sectors.len(),
    ensures
        blocks_from(source::reads_of(source::image_of(front, sectors, v.stride, rest)), v, lba, n)
            matches Ok(b) && b.len() == n && forall|i: int|
            0 <= i < n ==> #[trigger] b[i] == sectors[lba + i / 2048][v.user_data_offset + i % 2048],
    decreases n,
{
    if n > 0 {
        let reads = source::reads_of(source::image_of(front, sectors, v.stride, rest));
        let m = if n < 2048 {
            n
        } else {
            2048
        };
        assert(sectors[lba].len() == v.stride);
        sector::sectors_follow_each_other(
            front,
            sectors,
            v.stride,
            rest,
            v.user_data_offset,
            lba,
        );
        a_file_is_read_from_its_blocks(front, sectors, rest, v, lba + 1, n - m);
        let head = opera_sector(reads, v, lba)->Ok_0.take(m);
        let tail = blocks_from(reads, v, lba + 1, n - m)->Ok_0;
        let b = head + tail;
        assert forall|i: int| 0 <= i < n implies #[trigger] b[i] == sectors[lba + i / 2048][
        v.user_data_offset + i % 2048] by {
            if i >= m {
                assert(b[i] == tail[i - m]);
                assert((i - 2048) / 2048 == i / 2048 - 1 && (i - 2048) % 2048 == i % 2048);
            }
        }
    }
}

/// An entry tells of the directory or file that was written into it: its name, the number of
/// bytes, and the first of its copies.
pub proof fn an_entry_holds_what_was_written(b: Seq<u8>, lba: int, count: int, is_dir: bool)
    requires
        b.len() >= 72,
        0 <= lba <= 0xFFFF_FFFF,
        0 <= count <= 0xFFFF_FFFF,
        bytes::has_at(b, 68, bytes::be_bytes(lba, 4)),
        bytes::has_at(b, 16, bytes::be_bytes(count, 4)),
        is_dir ==> bytes::has_at(b, 8, seq![0x2Au8, 0x64, 0x69, 0x72]),
        !is_dir ==> bytes::has_at(b, 8, seq![0x20u8, 0x20, 0x20, 0x20]),
        text::text_to_zero(b.subrange(32, 64)).len() > 0,
    ensures
        entry_of(b) == Some(
            DirEntryView {
                name: text::text_to_zero(b.subrange(32, 64)),
                kind: if is_dir {
                    EntryKind::Directory
                } else {
                    EntryKind::File
                },
                lba: lba as u32,
                byte_count: count as u32,
            },
        ),
{
    bytes::fields_hold_what_was_written(b, 68, lba);
    bytes::fields_hold_what_was_written(b, 16, count);
    let t = b.subrange(8, 12);
    assert(t[0] == b[8] && t[1] == b[9] && t[2] == b[10] && t[3] == b[11]);
}

/// Entries follow each other in a block: one with `copies` copies takes 68 bytes and four for
/// each of them.
pub proof fn entries_follow_each_other(b: Seq<u8>, off: int, free: int, copies: int)
    requires
        0 <= off,
        free <= b.len(),
        1 <= copies <= 64,
        off + 68 + 4 * copies <= free,
        bytes::has_at(b, off + 64, bytes::be_bytes(copies - 1, 4)),
    ensures
        entries_from(b, off, free) == (match entry_of(b.subrange(off, off + 68 + 4 * copies)) {
            Some(e) => seq![e],
            None => seq![],
        }) + entries_from(b, off + 68 + 4 * copies, free),
{
    let s = b.skip(off);
    assert(s.subrange(64, 68) =~= b.subrange(off + 64, off + 68));
    reveal_with_fuel(bytes::be_bytes, 5);
    bytes::fields_hold_what_was_written(s, 64, copies - 1);
    let n = 68 + 4 * copies;
    assert(entry_len(s) == Some(n));
    let more = entries_from(b, off + n, free);
    assert(seq![] + more =~= more);
}

/// A directory of two blocks holds the entries of the first and then those of the block that
/// the first one counts from the directory's start.
pub proof fn a_directory_goes_on_in_the_next_block(reads: Reads, v: OperaView, start: int, next: int)
    requires
        0 <= start <= 0xFFFF_FFFF,
        0 < next < 0xFFFF_FFFF,
        opera_sector(reads, v, start) matches Ok(b) && bytes::has_at(b, 0, bytes::be_bytes(next, 4)),
        opera_sector(reads, v, start + next) matches Ok(b) && bytes::has_at(
            b,
            0,
            seq![0xFFu8, 0xFF, 0xFF, 0xFF],
        ),
    ensures
        dir_entries(reads, v, start) == block_entries(opera_sector(reads, v, start)->Ok_0)
            + block_entries(opera_sector(reads, v, start + next)->Ok_0),
{
    let a = opera_sector(reads, v, start)->Ok_0;
    let b = opera_sector(reads, v, start + next)->Ok_0;
    bytes::fields_hold_what_was_written(a, 0, next);
    let t = b.subrange(0, 4);
    assert(t[0] == b[0] && t[1] == b[1] && t[2] == b[2] && t[3] == b[3]);
    let none: Seq<u64> = seq![];
    let one = none.push(start as u64);
    assert(!none.contains(start as u64));
    assert(!one.contains((start + next) as u64)) by {
        if one.contains((start + next) as u64) {
            let i = choose|i: int| 0 <= i < one.len() && one[i] == (start + next) as u64;
            assert(one[i] == start as u64);
        }
    }
    let second = dir_from(reads, v, start, start + next, one, 255);
    assert(second =~= block_entries(b));
    assert(dir_from(reads, v, start, start, none, 256) =~= block_entries(a) + second);
}

/// A volume's root directory starts at the block that the hundredth byte of its first sector
/// begins to name.
pub proof fn a_volume_names_its_root(
    front: Seq<u8>,
    sectors: Seq<Seq<u8>>,
    stride: int,
    rest: Seq<u8>,
    data: int,
    root: int,
)
    requires
        sectors.len() > 0,
        sectors[0].len() == stride,
        0 <= data,
        data + 2048 <= stride,
        source::image_of(front, sectors, stride, rest).len() <= u64::MAX,
        0 <= root <= 0xFFFF_FFFF,
        bytes::has_at(sectors[0], data, seq![1u8, 0x5A, 0x5A, 0x5A, 0x5A, 0x5A, 1]),
        bytes::has_at(sectors[0], data + 100, bytes::be_bytes(root, 4)),
    ensures
        opera_opened(
            source::reads_of(source::image_of(front, sectors, stride, rest)),
            front.len() as int,
            data,
            stride,
        ) == Ok::<OperaView, Seq<char>>(
            OperaView {
                track_offset: front.len() as int,
                user_data_offset: data,
                stride,
                root_lba: root,
            },
        ),
{
    sector::sectors_follow_each_other(front, sectors, stride, rest, data, 0);
    let s = sectors[0].subrange(data, data + 2048);
    assert(s.subrange(0, 7) =~= sectors[0].subrange(data, data + 7));
    reveal_with_fuel(bytes::be_bytes, 5);
    assert(s.subrange(100, 104) =~= sectors[0].subrange(data + 100, data + 104));
    bytes::fields_hold_what_was_written(s, 100, root);
}

/// A file two directories down is found by its path: the entries of each directory are those from
/// the block that its entry above names, and the file is read from the block of its own.
pub proof fn a_file_is_found_by_its_path(
    reads: Reads,
    v: OperaView,
    a: Seq<char>,
    b: Seq<char>,
    name: Seq<char>,
    ea: DirEntryView,
    eb: DirEntryView,
    e: DirEntryView,
)
    requires
        a.len() > 0 && !a.contains('/'),
        b.len() > 0 && !b.contains('/'),
        name.len() > 0 && !name.contains('/'),
        entry_named(dir_entries(reads, v, v.root_lba), 0, EntryKind::Directory, a) == Some(ea),
        entry_named(dir_entries(reads, v, ea.lba as int), 0, EntryKind::Directory, b) == Some(eb),
        entry_named(dir_entries(reads, v, eb.lba as int), 0, EntryKind::File, name) == Some(e),
    ensures
        file_answer(reads, v, seq!['/'] + (a + seq!['/'] + b) + seq!['/'] + name) == blocks_from(
            reads,
            v,
            e.lba as int,
            e.byte_count as int,
        ),
{
    let d = a + seq!['/'] + b;
    assert(d[0] == a[0]);
    assert(a.contains(a[0]));
    path::a_path_is_split_at_its_last_slash(d, name);
    text::names_stand_between_slashes(a, b);
    let parts = seq![a, b];
    assert(parts[0] == a && parts[1] == b);
    reveal_with_fuel(resolved, 3);
    assert(dir_at(reads, v, d) == Ok::<int, Seq<char>>(eb.lba as int));
}

/// The first entry of its kind and name is the one that is found.
pub proof fn the_first_entry_of_its_name_is_found(
    d: Seq<DirEntryView>,
    k: int,
    kind: EntryKind,
    name: Seq<char>,
)
    requires
        0 <= k <= d.len(),
    ensures
        match entry_named(d, k, kind, name) {
            Some(e) => e.kind == kind && e.name == name && exists|i: int|
                k <= i < d.len() && #[trigger] d[i] == e && forall|j: int|
                    k <= j < i ==> (#[trigger] d[j]).kind != kind || d[j].name != name,
            None => forall|j: int|
                k <= j < d.len() ==> (#[trigger] d[j]).kind != kind || d[j].name != name,
        },
    decreases d.len() - k,
{
    if k < d.len() {
        if d[k].kind == kind && d[k].name == name {
            assert(d[k] == entry_named(d, k, kind, name)->0);
        } else {
            the_first_entry_of_its_name_is_found(d, k + 1, kind, name);
            if let Some(e) = entry_named(d, k + 1, kind, name) {
                let i = choose|i: int|
                    k + 1 <= i < d.len() && #[trigger] d[i] == e && forall|j: int|
                        k + 1 <= j < i ==> (#[trigger] d[j]).kind != kind || d[j].name != name;
                assert(d[i] == e);
            }
        }
    }
}

} // verus!
