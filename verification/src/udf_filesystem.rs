//! UDF volumes: anchor, descriptors, partitions, directories and files.
use vstd::prelude::*;
use vstd::slice::*;
use crate::bytes;
use crate::bytes::{cut, read_u16_le, read_u32_le, read_u64_le, spells_at};
use crate::calendar;
use crate::calendar::write_stamp;
use crate::codec;
use crate::codec::from_utf16_lossy;
use crate::entry;
use crate::entry::{DiscEntry, EntryView};
use crate::numbers;
use crate::numbers::{decimal_string, write_padded};
use crate::sector;
use crate::source;
use crate::source::{read_wide, ByteSource, Reads};
use crate::text;
use crate::text::{
    chars_of,
    eq_ignore_case,
    from_utf8_lossy,
    join2,
    join3,
    same_text,
    segments,
    string_of,
};

verus! {

pub const TAG_AVDP: u16 = 2;

pub const TAG_PD: u16 = 5;

pub const TAG_LVD: u16 = 6;

pub const TAG_TERM: u16 = 8;

pub const TAG_LVID: u16 = 9;

pub const TAG_FSD: u16 = 256;

pub const TAG_FID: u16 = 257;

pub const TAG_FILE_ENTRY: u16 = 261;

pub const TAG_EXT_FILE_ENTRY: u16 = 266;

pub const FILE_TYPE_VAT: u8 = 248;

/// The partition reference that stands for no partition.
pub const NO_PART: u16 = 0xFFFF;

/// The bytes of a sector's user data.
pub const SECTOR: usize = 2048;

// ── Sectors ─────────────────────────────────────────────────────────────────

/// Where the user data of a sector stands: raw sectors are 2352 bytes long.
pub open spec fn sector_pos(track_offset: int, user_data_offset: int, lba: int) -> int {
    track_offset + lba * (if user_data_offset == 0 {
        2048int
    } else {
        2352int
    }) + user_data_offset
}

/// The user data of a sector of the track.
pub open spec fn sector_at(reads: Reads, track_offset: int, user_data_offset: int, lba: int) -> Result<
    Seq<u8>,
    Seq<char>,
> {
    source::labelled(
        source::reach(reads, sector_pos(track_offset, user_data_offset, lba), 2048),
        "UDF read: "@,
    )
}

/// The identifier in a descriptor's tag.
pub open spec fn tag_of(s: Seq<u8>) -> int {
    bytes::le16_at(s, 0)
}

/// Where the partitions of a volume stand, and how their blocks are numbered.
pub struct UdfLayout {
    pub track_offset: u64,
    pub user_data_offset: u64,
    pub partition_start: u64,
    /// The first block of the metadata file in the physical partition.
    pub meta_lbn_offset: u64,
    pub meta_part_ref: u16,
    /// The virtual allocation table: the physical block of each virtual one.
    pub vat: Vec<u32>,
    pub vat_part_ref: u16,
}

/// The contents of a layout.
#[verifier::ext_equal]
pub struct LayoutView {
    pub track_offset: int,
    pub user_data_offset: int,
    pub partition_start: int,
    pub meta_lbn_offset: int,
    pub meta_part_ref: u16,
    pub vat: Seq<u32>,
    pub vat_part_ref: u16,
}

impl View for UdfLayout {
    type V = LayoutView;

    open spec fn view(&self) -> LayoutView {
        LayoutView {
            track_offset: self.track_offset as int,
            user_data_offset: self.user_data_offset as int,
            partition_start: self.partition_start as int,
            meta_lbn_offset: self.meta_lbn_offset as int,
            meta_part_ref: self.meta_part_ref,
            vat: self.vat@,
            vat_part_ref: self.vat_part_ref,
        }
    }
}

/// A layout with its physical partition alone.
pub open spec fn physical(v: LayoutView) -> LayoutView {
    LayoutView { meta_part_ref: NO_PART, vat: seq![], ..v }
}

/// The sector of the track that holds a block of a partition.
pub open spec fn part_lba(v: LayoutView, lbn: int, part_ref: u16) -> int {
    if v.vat.len() > 0 && part_ref == v.vat_part_ref {
        v.partition_start + (if lbn < v.vat.len() {
            v.vat[lbn] as int
        } else {
            lbn
        })
    } else if v.meta_part_ref != NO_PART && part_ref == v.meta_part_ref {
        v.partition_start + v.meta_lbn_offset + lbn
    } else {
        v.partition_start + lbn
    }
}

/// A block of a partition.
pub open spec fn block_at(reads: Reads, v: LayoutView, lbn: int, part_ref: u16) -> Result<
    Seq<u8>,
    Seq<char>,
> {
    sector_at(reads, v.track_offset, v.user_data_offset, part_lba(v, lbn, part_ref))
}

/// The first `len` bytes of the blocks of a partition from `lbn` on.
pub open spec fn span_at(reads: Reads, v: LayoutView, lbn: int, len: int, part_ref: u16) -> Result<
    Seq<u8>,
    Seq<char>,
>
    decreases len,
{
    if len <= 0 {
        Ok(seq![])
    } else {
        match block_at(reads, v, lbn, part_ref) {
            Err(e) => Err(e),
            Ok(b) => {
                let n = if len < 2048 {
                    len
                } else {
                    2048
                };
                source::after(b.take(n), span_at(reads, v, lbn + 1, len - n, part_ref))
            },
        }
    }
}

fn read_physical_sector<S: ByteSource>(
    source: &mut S,
    track_offset: u64,
    user_data_offset: u64,
    lba: u128,
) -> (r: Result<Vec<u8>, String>)
    requires
        lba <= 0x4_0000_0000_0000_0000,
    ensures
        final(source).reads() == old(source).reads(),
        source::outcome(r) == sector_at(
            old(source).reads(),
            track_offset as int,
            user_data_offset as int,
            lba as int,
        ),
        r matches Ok(b) ==> b@.len() == 2048,
{
    let base: u128 = if user_data_offset == 0 {
        lba * 2048
    } else {
        lba * 2352
    };
    let pos: u128 = track_offset as u128 + base + user_data_offset as u128;
    read_wide(source, pos, 2048, "UDF read: ")
}

fn tag_id(s: &[u8]) -> (r: u16)
    requires
        s@.len() >= 2,
    ensures
        r == tag_of(s@),
{
    read_u16_le(s, 0)
}

/// Reads a block of a partition.
fn read_sector_for_part<S: ByteSource>(
    source: &mut S,
    layout: &UdfLayout,
    lbn: u64,
    part_ref: u16,
) -> (r: Result<Vec<u8>, String>)
    ensures
        final(source).reads() == old(source).reads(),
        source::outcome(r) == block_at(old(source).reads(), layout@, lbn as int, part_ref),
        r matches Ok(b) ==> b@.len() == 2048,
{
    let lba: u128 = if layout.vat.len() > 0 && part_ref == layout.vat_part_ref {
        let to: u64 = if lbn < layout.vat.len() as u64 {
            layout.vat[lbn as usize] as u64
        } else {
            lbn
        };
        layout.partition_start as u128 + to as u128
    } else if layout.meta_part_ref != NO_PART && part_ref == layout.meta_part_ref {
        layout.partition_start as u128 + layout.meta_lbn_offset as u128 + lbn as u128
    } else {
        layout.partition_start as u128 + lbn as u128
    };
    read_physical_sector(source, layout.track_offset, layout.user_data_offset, lba)
}

/// Reads the first `length` bytes of the blocks of a partition from `start_lbn` on.
#[verifier::loop_isolation(false)]
fn logical_bytes_for_part<S: ByteSource>(
    source: &mut S,
    layout: &UdfLayout,
    start_lbn: u64,
    length: u64,
    part_ref: u16,
) -> (r: Result<Vec<u8>, String>)
    requires
        start_lbn <= 0xffff_ffff,
        length <= 0xffff_ffff,
    ensures
        final(source).reads() == old(source).reads(),
        source::outcome(r) == span_at(
            old(source).reads(),
            layout@,
            start_lbn as int,
            length as int,
            part_ref,
        ),
        r matches Ok(b) ==> b@.len() == length,
{
    let ghost reads = source.reads();
    let ghost goal = span_at(reads, layout@, start_lbn as int, length as int, part_ref);
    let mut out: Vec<u8> = Vec::new();
    let mut rem: u64 = length;
    let mut lbn: u64 = start_lbn;
    assert(source::after(out@, goal) == goal) by {
        match goal {
            Ok(b) => {
                assert(out@ + b =~= b);
            },
            Err(_) => {},
        }
    }
    while rem > 0
        invariant
            source.reads() == reads,
            goal == span_at(reads, layout@, start_lbn as int, length as int, part_ref),
            source::after(out@, span_at(reads, layout@, lbn as int, rem as int, part_ref)) == goal,
            out@.len() + rem == length,
            lbn <= 0xffff_ffff + (length - rem),
            length <= 0xffff_ffff,
        decreases rem,
    {
        let mut sec: Vec<u8> = match read_sector_for_part(source, layout, lbn, part_ref) {
            Ok(b) => b,
            Err(e) => {
                return Err(e);
            },
        };
        let n: u64 = if rem < 2048 {
            rem
        } else {
            2048
        };
        let ghost whole = sec@;
        let ghost before = out@;
        sec.truncate(n as usize);
        assert(sec@ =~= whole.take(n as int));
        out.append(&mut sec);
        proof {
            match span_at(reads, layout@, lbn + 1, rem - n, part_ref) {
                Ok(t) => {
                    assert(before + (whole.take(n as int) + t) =~= (before + whole.take(n as int))
                        + t);
                },
                Err(_) => {},
            }
        }
        rem -= n;
        lbn += 1;
    }
    assert(out@ + seq![] =~= out@);
    Ok(out)
}

// ── Text ────────────────────────────────────────────────────────────────────

/// The 16-bit big-endian values of `s`, a byte left over aside.
pub open spec fn be_words(s: Seq<u8>) -> Seq<u16> {
    Seq::new(s.len() / 2, |i: int| bytes::be16_at(s, 2 * i) as u16)
}

/// The text of an OSTA compressed Unicode field: its first byte tells bytes
/// from 16-bit values.
pub open spec fn cs0_text(s: Seq<u8>) -> Seq<char> {
    if s.len() == 0 {
        seq![]
    } else if s[0] == 16 {
        codec::utf16_lossy(be_words(s.skip(1)))
    } else if s[0] == 8 {
        Seq::new((s.len() - 1) as nat, |i: int| s[i + 1] as char)
    } else {
        text::utf8_text(s)
    }
}

/// The text of the sixteen-bit variant, given its values.
fn cs0_to_string(data: &[u8]) -> (r: String)
    ensures
        r@ == cs0_text(data@),
{
    if data.len() == 0 {
        let r: String = String::new();
        assert(r@ =~= seq![]);
        return r;
    }
    if data[0] == 16 {
        let mut units: Vec<u16> = Vec::new();
        let ghost rest = data@.skip(1);
        let size: usize = data.len();
        let count: usize = (size - 1) / 2;
        let mut i: usize = 0;
        while i < count
            invariant
                size == data@.len() >= 1,
                rest == data@.skip(1),
                count == rest.len() / 2,
                units@.len() == i,
                i <= count,
                forall|j: int| 0 <= j < i ==> units@[j] == #[trigger] be_words(rest)[j],
            decreases count - i,
        {
            let u: u16 = 0x100u16 * (data[1 + 2 * i] as u16) + data[2 + 2 * i] as u16;
            assert(be_words(rest)[i as int] == u);
            units.push(u);
            i += 1;
        }
        assert(units@ =~= be_words(rest));
        from_utf16_lossy(units.as_slice())
    } else if data[0] == 8 {
        let mut c: Vec<char> = Vec::new();
        let mut i: usize = 1;
        while i < data.len()
            invariant
                1 <= i <= data@.len(),
                c@.len() == i - 1,
                forall|j: int| 0 <= j < i - 1 ==> c@[j] == data@[j + 1] as char,
            decreases data@.len() - i,
        {
            c.push(data[i] as char);
            i += 1;
        }
        assert(c@ =~= cs0_text(data@));
        string_of(c.as_slice())
    } else {
        from_utf8_lossy(data)
    }
}

/// The date and time in an ECMA-167 timestamp that begins at `at`.
pub open spec fn stamp_at(s: Seq<u8>, at: int) -> Seq<char> {
    calendar::stamp(
        0,
        bytes::le16_at(s, at + 2),
        s[at + 4] as int,
        s[at + 5] as int,
        s[at + 6] as int,
        s[at + 7] as int,
        s[at + 8] as int,
    )
}

fn udf_timestamp(b: &[u8], at: usize) -> (r: String)
    requires
        at + 12 <= b@.len(),
    ensures
        r@ == stamp_at(b@, at as int),
{
    assert(at + 12 <= b.len());
    let year: u16 = read_u16_le(b, at + 2);
    write_stamp(
        0,
        year as u64,
        b[at + 4] as u64,
        b[at + 5] as u64,
        b[at + 6] as u64,
        b[at + 7] as u64,
        b[at + 8] as u64,
    )
}

/// The text for a revision in binary-coded decimal: the major number, then the
/// minor one in two digits.
pub open spec fn version_text(rev: int) -> Seq<char> {
    "UDF "@ + numbers::decimal(rev / 256) + "."@ + numbers::two_digits(
        (rev % 256) / 16 * 10 + rev % 16,
    )
}

/// The text for a revision.
pub fn format_udf_version(rev: u16) -> (r: String)
    ensures
        r@ == version_text(rev as int),
{
    let major: String = decimal_string((rev / 256) as u64);
    let minor: Vec<char> = write_padded(((rev % 256) / 16 * 10 + rev % 16) as u64, 10, 2);
    let tail: String = string_of(minor.as_slice());
    let head: String = join3("UDF ", major.as_str(), ".");
    join2(head.as_str(), tail.as_str())
}

// ── Detection ───────────────────────────────────────────────────────────────

/// The sum of the first `n` bytes of a tag but the one at index 4.
pub open spec fn tag_sum(tag: Seq<u8>, n: int) -> int
    decreases n,
{
    if n <= 0 {
        0
    } else {
        tag_sum(tag, n - 1) + (if n - 1 == 4 {
            0
        } else {
            tag[n - 1] as int
        })
    }
}

/// Whether an anchor with a correct checksum stands at sector 256.
pub open spec fn is_udf(reads: Reads, track_offset: int, user_data_offset: int) -> bool {
    match source::reach(reads, sector_pos(track_offset, user_data_offset, 256), 16) {
        Err(_) => false,
        Ok(tag) => bytes::le16_at(tag, 0) == TAG_AVDP && tag_sum(tag, 16) % 256 == tag[4],
    }
}

/// Whether a source holds a UDF volume.
pub fn is_udf_disc<S: ByteSource>(source: &mut S, track_offset: u64, user_data_offset: u64) -> (r:
    bool)
    ensures
        final(source).reads() == old(source).reads(),
        r == is_udf(old(source).reads(), track_offset as int, user_data_offset as int),
{
    let size: u128 = if user_data_offset == 0 {
        2048
    } else {
        2352
    };
    let pos: u128 = track_offset as u128 + 256 * size + user_data_offset as u128;
    let tag: Vec<u8> = match read_wide(source, pos, 16, "") {
        Ok(b) => b,
        Err(_) => {
            return false;
        },
    };
    if read_u16_le(tag.as_slice(), 0) != TAG_AVDP {
        return false;
    }
    let mut sum: u32 = 0;
    let mut i: usize = 0;
    while i < 16
        invariant
            tag@.len() == 16,
            i <= 16,
            sum == tag_sum(tag@, i as int),
            sum <= 255 * i,
        decreases 16 - i,
    {
        if i != 4 {
            sum += tag[i] as u32;
        }
        i += 1;
    }
    sum % 256 == tag[4] as u32
}

// ── File entries ────────────────────────────────────────────────────────────

/// Whether a sector holds a file entry.
pub open spec fn is_file_entry(s: Seq<u8>) -> bool {
    tag_of(s) == TAG_FILE_ENTRY || tag_of(s) == TAG_EXT_FILE_ENTRY
}

/// Where the fields of a file entry of variable length begin: at the length of
/// the extended attributes, which that of the descriptors and the attributes
/// themselves follow.
pub open spec fn tail_of(fe: Seq<u8>) -> int {
    if tag_of(fe) == TAG_EXT_FILE_ENTRY {
        208
    } else {
        168
    }
}

/// Where the allocation descriptors of a file entry begin.
pub open spec fn ads_start(fe: Seq<u8>) -> int {
    tail_of(fe) + 8 + bytes::le32_at(fe, tail_of(fe))
}

/// Where the allocation descriptors of a file entry end, within its sector.
pub open spec fn ads_end(fe: Seq<u8>) -> int {
    let end = ads_start(fe) + bytes::le32_at(fe, tail_of(fe) + 4);
    if end < 2048 {
        end
    } else {
        2048
    }
}

/// How a file entry describes its data: 0 by short descriptors, 3 by the data
/// itself, otherwise by long descriptors.
pub open spec fn alloc_type(fe: Seq<u8>) -> int {
    bytes::le16_at(fe, 34) % 8
}

/// The length of an allocation descriptor.
pub open spec fn ad_size(fe: Seq<u8>) -> int {
    if alloc_type(fe) == 0 {
        8
    } else {
        16
    }
}

/// The data that the descriptors from `off` on describe, up to `left` bytes.
/// Extents that are not recorded are passed over.
pub open spec fn extents_data(
    reads: Reads,
    v: LayoutView,
    fe: Seq<u8>,
    part_ref: u16,
    off: int,
    left: int,
) -> Result<Seq<u8>, Seq<char>>
    decreases 2048 - off,
{
    if off + ad_size(fe) > ads_end(fe) || left <= 0 || off > 2048 {
        Ok(seq![])
    } else {
        let len = bytes::le32_at(fe, off) % 0x4000_0000;
        if bytes::le32_at(fe, off) / 0x4000_0000 == 0 && len > 0 {
            let n = if len < left {
                len
            } else {
                left
            };
            let part = if alloc_type(fe) == 0 {
                part_ref
            } else {
                bytes::le16_at(fe, off + 8) as u16
            };
            match span_at(reads, v, bytes::le32_at(fe, off + 4), n, part) {
                Err(e) => Err(e),
                Ok(d) => source::after(
                    d,
                    extents_data(reads, v, fe, part_ref, off + ad_size(fe), left - n),
                ),
            }
        } else {
            extents_data(reads, v, fe, part_ref, off + ad_size(fe), left)
        }
    }
}

/// The data of a file, given its entry in the partition `part_ref`.
pub open spec fn file_data(reads: Reads, v: LayoutView, fe: Seq<u8>, part_ref: u16) -> Result<
    Seq<u8>,
    Seq<char>,
> {
    if alloc_type(fe) == 3 {
        if ads_start(fe) > 2048 {
            Ok(seq![])
        } else {
            Ok(fe.subrange(ads_start(fe), ads_end(fe)))
        }
    } else {
        extents_data(reads, v, fe, part_ref, ads_start(fe), bytes::le64_at(fe, 56))
    }
}

/// Reads the data of a file, given its entry.
#[verifier::loop_isolation(false)]
fn read_alloc_bytes<S: ByteSource>(
    source: &mut S,
    layout: &UdfLayout,
    fe: &[u8],
    fe_part_ref: u16,
) -> (r: Result<Vec<u8>, String>)
    requires
        fe@.len() == 2048,
    ensures
        final(source).reads() == old(source).reads(),
        source::outcome(r) == file_data(old(source).reads(), layout@, fe@, fe_part_ref),
{
    let ghost reads = source.reads();
    let tail: usize = if tag_id(fe) == TAG_EXT_FILE_ENTRY {
        208
    } else {
        168
    };
    let kind: u16 = read_u16_le(fe, 34) % 8;
    let start: u64 = tail as u64 + 8 + read_u32_le(fe, tail) as u64;
    let full: u64 = start + read_u32_le(fe, tail + 4) as u64;
    let end: u64 = if full < 2048 {
        full
    } else {
        2048
    };
    if kind == 3 {
        if start > 2048 {
            let none: Vec<u8> = Vec::new();
            assert(none@ =~= seq![]);
            return Ok(none);
        }
        return Ok(cut(fe, start as usize, end as usize));
    }
    let step: u64 = if kind == 0 {
        8
    } else {
        16
    };
    let mut out: Vec<u8> = Vec::new();
    let mut off: u64 = start;
    let mut left: u64 = read_u64_le(fe, 56);
    let ghost goal = extents_data(reads, layout@, fe@, fe_part_ref, off as int, left as int);
    assert(source::after(out@, goal) == goal) by {
        match goal {
            Ok(b) => {
                assert(out@ + b =~= b);
            },
            Err(_) => {},
        }
    }
    while off + step <= end && left > 0
        invariant
            source.reads() == reads,
            off <= 0x2_0000_0000,
            source::after(
                out@,
                extents_data(reads, layout@, fe@, fe_part_ref, off as int, left as int),
            ) == goal,
        decreases end + 16 - off,
    {
        let at: usize = off as usize;
        let raw: u32 = read_u32_le(fe, at);
        let len: u64 = (raw % 0x4000_0000) as u64;
        if raw / 0x4000_0000 == 0 && len > 0 {
            let n: u64 = if len < left {
                len
            } else {
                left
            };
            let part: u16 = if kind == 0 {
                fe_part_ref
            } else {
                read_u16_le(fe, at + 8)
            };
            let lbn: u32 = read_u32_le(fe, at + 4);
            let mut d: Vec<u8> = match logical_bytes_for_part(source, layout, lbn as u64, n, part) {
                Ok(d) => d,
                Err(e) => {
                    return Err(e);
                },
            };
            let ghost before = out@;
            let ghost data = d@;
            out.append(&mut d);
            proof {
                match extents_data(
                    reads,
                    layout@,
                    fe@,
                    fe_part_ref,
                    off + step,
                    left - n,
                ) {
                    Ok(t) => {
                        assert(before + (data + t) =~= (before + data) + t);
                    },
                    Err(_) => {},
                }
            }
            left -= n;
        }
        off += step;
    }
    assert(out@ + seq![] =~= out@);
    Ok(out)
}

// ── Directories ─────────────────────────────────────────────────────────────

/// A named entry of a directory: where its file entry stands.
#[verifier::ext_equal]
pub struct FidView {
    pub is_dir: bool,
    pub lbn: u32,
    pub part_ref: u16,
    pub name: Seq<char>,
}

/// Where the name of the identifier at `pos` begins.
pub open spec fn name_start(d: Seq<u8>, pos: int) -> int {
    pos + 38 + bytes::le16_at(d, pos + 36)
}

/// Where the identifier after the one at `pos` begins: identifiers are padded
/// to a multiple of four bytes.
pub open spec fn next_fid(d: Seq<u8>, pos: int) -> int {
    pos + (38 + bytes::le16_at(d, pos + 36) + d[pos + 19] + 3) / 4 * 4
}

/// Whether the identifier at `pos` names something other than the parent.
pub open spec fn is_named(d: Seq<u8>, pos: int) -> bool {
    (d[pos + 18] / 8) % 2 == 0 && d[pos + 19] > 0 && name_start(d, pos) + d[pos + 19] <= d.len()
}

/// The entry that the identifier at `pos` describes.
pub open spec fn fid_at(d: Seq<u8>, pos: int) -> FidView {
    FidView {
        is_dir: (d[pos + 18] / 2) % 2 == 1,
        lbn: bytes::le32_at(d, pos + 24) as u32,
        part_ref: bytes::le16_at(d, pos + 28) as u16,
        name: cs0_text(d.subrange(name_start(d, pos), name_start(d, pos) + d[pos + 19])),
    }
}

/// The entries of a directory from `pos` on, up to the first thing that is no
/// identifier.
pub open spec fn fids_of(d: Seq<u8>, pos: int) -> Seq<FidView>
    decreases d.len() - pos,
{
    if pos < 0 || pos + 38 > d.len() || bytes::le16_at(d, pos) != TAG_FID {
        seq![]
    } else {
        let rest = if next_fid(d, pos) > d.len() {
            seq![]
        } else {
            fids_of(d, next_fid(d, pos))
        };
        if is_named(d, pos) {
            seq![fid_at(d, pos)] + rest
        } else {
            rest
        }
    }
}

/// A named entry of a directory.
pub struct Fid {
    pub is_dir: bool,
    pub lbn: u32,
    pub part_ref: u16,
    pub name: String,
}

impl View for Fid {
    type V = FidView;

    open spec fn view(&self) -> FidView {
        FidView {
            is_dir: self.is_dir,
            lbn: self.lbn,
            part_ref: self.part_ref,
            name: self.name@,
        }
    }
}

/// The contents of a list of entries.
pub open spec fn fid_views(v: Seq<Fid>) -> Seq<FidView> {
    Seq::new(v.len(), |i: int| v[i]@)
}

/// Collects the entries of a directory.
fn parse_fids(d: &[u8]) -> (r: Vec<Fid>)
    ensures
        fid_views(r@) == fids_of(d@, 0),
{
    let len: usize = d.len();
    let mut out: Vec<Fid> = Vec::new();
    let mut pos: usize = 0;
    let ghost goal = fids_of(d@, 0);
    assert(fid_views(out@) + goal =~= goal);
    while pos <= len && len - pos >= 38 && read_u16_le(d, pos) == TAG_FID
        invariant_except_break
            fid_views(out@) + fids_of(d@, pos as int) == goal,
        invariant
            len == d@.len(),
        ensures
            fid_views(out@) == goal,
        decreases len - pos,
    {
        let chars: u8 = d[pos + 18];
        let l_fi: usize = d[pos + 19] as usize;
        let lbn: u32 = read_u32_le(d, pos + 24);
        let part_ref: u16 = read_u16_le(d, pos + 28);
        let l_iu: usize = read_u16_le(d, pos + 36) as usize;
        let left: usize = len - pos;
        if (chars / 8) % 2 == 0 && l_fi > 0 && 38 + l_iu + l_fi <= left {
            let from: usize = pos + 38 + l_iu;
            let name: String = cs0_to_string(slice_subrange(d, from, from + l_fi));
            let fid: Fid = Fid { is_dir: (chars / 2) % 2 == 1, lbn, part_ref, name };
            let ghost before = out@;
            let ghost rest = if next_fid(d@, pos as int) > d@.len() {
                seq![]
            } else {
                fids_of(d@, next_fid(d@, pos as int))
            };
            out.push(fid);
            assert(fid@ == fid_at(d@, pos as int));
            assert(fid_views(out@) =~= fid_views(before).push(fid@));
            assert(fid_views(before).push(fid@) + rest =~= fid_views(before) + (seq![fid@] + rest));
        }
        let step: usize = (38 + l_iu + l_fi + 3) / 4 * 4;
        if step > left {
            assert(fid_views(out@) + seq![] =~= fid_views(out@));
            break;
        }
        pos += step;
    }
    out
}

/// What a listing shows of a file's size and time: nothing where its entry
/// cannot be read.
pub open spec fn info_of(reads: Reads, v: LayoutView, f: FidView) -> (int, Seq<char>) {
    match block_at(reads, v, f.lbn as int, f.part_ref) {
        Ok(fe) => (bytes::le64_at(fe, 56), stamp_at(fe, 84)),
        Err(_) => (0, seq![]),
    }
}

/// The line for an entry of a directory; sizes show their low 32 bits.
pub open spec fn udf_line(reads: Reads, v: LayoutView, f: FidView) -> EntryView {
    let (size, modified) = info_of(reads, v, f);
    let low = (size % 0x1_0000_0000) as u32;
    EntryView {
        name: f.name,
        is_dir: f.is_dir,
        lba: f.lbn,
        size: if f.is_dir {
            0
        } else {
            low
        },
        size_bytes: low,
        modified,
        deleted: false,
        is_xa: false,
    }
}

/// The line for an entry of a directory.
fn entry_line<S: ByteSource>(source: &mut S, layout: &UdfLayout, f: &Fid) -> (r: DiscEntry)
    ensures
        final(source).reads() == old(source).reads(),
        r@ == udf_line(old(source).reads(), layout@, f@),
{
    let (size, modified): (u64, String) = match read_sector_for_part(
        source,
        layout,
        f.lbn as u64,
        f.part_ref,
    ) {
        Ok(fe) => {
            (read_u64_le(fe.as_slice(), 56), udf_timestamp(fe.as_slice(), 84))
        },
        Err(_) => {
            let none: String = String::new();
            assert(none@ =~= seq![]);
            (0, none)
        },
    };
    let low: u32 = (size % 0x1_0000_0000) as u32;
    DiscEntry {
        name: f.name.clone(),
        is_dir: f.is_dir,
        lba: f.lbn,
        size: if f.is_dir {
            0
        } else {
            low
        },
        size_bytes: low,
        modified,
        deleted: false,
        is_xa: false,
    }
}

/// The entries of the directory whose file entry is the block `lbn`: none where
/// that block holds no file entry.
pub open spec fn dir_fids(reads: Reads, v: LayoutView, lbn: int, part_ref: u16) -> Result<
    Option<Seq<FidView>>,
    Seq<char>,
> {
    match block_at(reads, v, lbn, part_ref) {
        Err(e) => Err(e),
        Ok(fe) => if !is_file_entry(fe) {
            Ok(None)
        } else {
            match file_data(reads, v, fe, part_ref) {
                Err(e) => Err(e),
                Ok(d) => Ok(Some(fids_of(d, 0))),
            }
        },
    }
}

/// Reads the entries of a directory.
fn read_fids<S: ByteSource>(source: &mut S, layout: &UdfLayout, lbn: u64, part_ref: u16) -> (r:
    Result<Option<Vec<Fid>>, String>)
    ensures
        final(source).reads() == old(source).reads(),
        match r {
            Err(e) => dir_fids(old(source).reads(), layout@, lbn as int, part_ref) == Err::<
                Option<Seq<FidView>>,
                Seq<char>,
            >(e@),
            Ok(None) => dir_fids(old(source).reads(), layout@, lbn as int, part_ref) == Ok::<
                Option<Seq<FidView>>,
                Seq<char>,
            >(None),
            Ok(Some(v)) => dir_fids(old(source).reads(), layout@, lbn as int, part_ref) == Ok::<
                Option<Seq<FidView>>,
                Seq<char>,
            >(Some(fid_views(v@))),
        },
{
    let fe: Vec<u8> = match read_sector_for_part(source, layout, lbn, part_ref) {
        Ok(b) => b,
        Err(e) => {
            return Err(e);
        },
    };
    let tag: u16 = tag_id(fe.as_slice());
    if tag != TAG_FILE_ENTRY && tag != TAG_EXT_FILE_ENTRY {
        return Ok(None);
    }
    match read_alloc_bytes(source, layout, fe.as_slice(), part_ref) {
        Ok(d) => Ok(Some(parse_fids(d.as_slice()))),
        Err(e) => Err(e),
    }
}

/// The first entry from `k` on that is named `name`, the case of letters aside.
pub open spec fn fid_named(fids: Seq<FidView>, k: int, name: Seq<char>) -> Option<(u32, u16)>
    decreases fids.len() - k,
{
    if k < 0 || k >= fids.len() {
        None
    } else if text::alike(fids[k].name, name) {
        Some((fids[k].lbn, fids[k].part_ref))
    } else {
        fid_named(fids, k + 1, name)
    }
}

/// The entry `name` of a directory.
pub open spec fn found_in(reads: Reads, v: LayoutView, lbn: u32, part_ref: u16, name: Seq<char>) -> Result<
    (u32, u16),
    Seq<char>,
> {
    match dir_fids(reads, v, lbn as int, part_ref) {
        Err(e) => Err(e),
        Ok(None) => Err("UDF: '"@ + name + "' not found (not a directory)"@),
        Ok(Some(fids)) => match fid_named(fids, 0, name) {
            Some(p) => Ok(p),
            None => Err("UDF: '"@ + name + "' not found"@),
        },
    }
}

/// What `parts` from `k` on lead to, from the directory at `lbn`.
pub open spec fn resolved(
    reads: Reads,
    v: LayoutView,
    parts: Seq<Seq<char>>,
    k: int,
    lbn: u32,
    part_ref: u16,
) -> Result<(u32, u16), Seq<char>>
    decreases parts.len() - k,
{
    if k < 0 || k >= parts.len() {
        Ok((lbn, part_ref))
    } else {
        match found_in(reads, v, lbn, part_ref, parts[k]) {
            Err(e) => Err(e),
            Ok((l, p)) => resolved(reads, v, parts, k + 1, l, p),
        }
    }
}

/// Finds the entry `name` of a directory.
#[verifier::loop_isolation(false)]
fn find_in_dir<S: ByteSource>(
    source: &mut S,
    layout: &UdfLayout,
    lbn: u32,
    part_ref: u16,
    name: &[char],
) -> (r: Result<(u32, u16), String>)
    ensures
        final(source).reads() == old(source).reads(),
        match r {
            Ok(p) => found_in(old(source).reads(), layout@, lbn, part_ref, name@) == Ok::<
                (u32, u16),
                Seq<char>,
            >(p),
            Err(e) => found_in(old(source).reads(), layout@, lbn, part_ref, name@) == Err::<
                (u32, u16),
                Seq<char>,
            >(e@),
        },
{
    let label: String = string_of(name);
    let fids: Vec<Fid> = match read_fids(source, layout, lbn as u64, part_ref) {
        Err(e) => {
            return Err(e);
        },
        Ok(None) => {
            return Err(join3("UDF: '", label.as_str(), "' not found (not a directory)"));
        },
        Ok(Some(v)) => v,
    };
    let ghost views = fid_views(fids@);
    let mut k: usize = 0;
    while k < fids.len()
        invariant
            k <= fids@.len(),
            fid_named(views, 0, name@) == fid_named(views, k as int, name@),
        decreases fids@.len() - k,
    {
        let letters: Vec<char> = chars_of(fids[k].name.as_str());
        if eq_ignore_case(letters.as_slice(), name) {
            return Ok((fids[k].lbn, fids[k].part_ref));
        }
        k += 1;
    }
    Err(join3("UDF: '", label.as_str(), "' not found"))
}

// ── Volumes ─────────────────────────────────────────────────────────────────

/// An opened volume.
pub struct UdfFs<S: ByteSource> {
    pub source: S,
    pub layout: UdfLayout,
    pub volume_name: String,
    pub udf_version: String,
    pub root_icb_lbn: u32,
    pub root_icb_part_ref: u16,
}

/// The contents of an opened volume.
#[verifier::ext_equal]
pub struct UdfView {
    pub layout: LayoutView,
    pub volume_name: Seq<char>,
    pub udf_version: Seq<char>,
    pub root_icb_lbn: u32,
    pub root_icb_part_ref: u16,
}

/// What a path names on a volume.
pub open spec fn place_of(reads: Reads, v: UdfView, path: Seq<char>) -> Result<
    (u32, u16),
    Seq<char>,
> {
    resolved(
        reads,
        v.layout,
        text::segments_of(path),
        0,
        v.root_icb_lbn,
        v.root_icb_part_ref,
    )
}

/// The answer to a listing of a directory.
pub open spec fn listing_answer(reads: Reads, v: UdfView, path: Seq<char>) -> Result<
    Seq<EntryView>,
    Seq<char>,
> {
    match place_of(reads, v, path) {
        Err(e) => Err(e),
        Ok((lbn, part)) => match dir_fids(reads, v.layout, lbn as int, part) {
            Err(e) => Err(e),
            Ok(None) => {
                let tag = tag_of(block_at(reads, v.layout, lbn as int, part)->Ok_0);
                Err(
                    "UDF: LBN "@ + numbers::decimal(lbn as int) + " has tag "@ + numbers::decimal(
                        tag,
                    ) + ", expected file entry"@,
                )
            },
            Ok(Some(fids)) => Ok(
                Seq::new(fids.len(), |i: int| udf_line(reads, v.layout, fids[i])),
            ),
        },
    }
}

/// The answer to a request for a file.
pub open spec fn file_answer(reads: Reads, v: UdfView, path: Seq<char>) -> Result<
    Seq<u8>,
    Seq<char>,
> {
    match place_of(reads, v, path) {
        Err(e) => Err(e),
        Ok((lbn, part)) => match block_at(reads, v.layout, lbn as int, part) {
            Err(e) => Err(e),
            Ok(fe) => if !is_file_entry(fe) {
                Err("UDF: '"@ + path + "' is not a file entry"@)
            } else {
                file_data(reads, v.layout, fe, part)
            },
        },
    }
}

impl<S: ByteSource> UdfFs<S> {
    /// The contents of this volume.
    pub open spec fn contents(&self) -> UdfView {
        UdfView {
            layout: self.layout@,
            volume_name: self.volume_name@,
            udf_version: self.udf_version@,
            root_icb_lbn: self.root_icb_lbn,
            root_icb_part_ref: self.root_icb_part_ref,
        }
    }

    /// Finds what a path names.
    #[verifier::loop_isolation(false)]
    fn resolve(&mut self, path: &str) -> (r: Result<(u32, u16), String>)
        ensures
            final(self).contents() == old(self).contents(),
            final(self).source.reads() == old(self).source.reads(),
            match r {
                Ok(p) => place_of(old(self).source.reads(), old(self).contents(), path@) == Ok::<
                    (u32, u16),
                    Seq<char>,
                >(p),
                Err(e) => place_of(old(self).source.reads(), old(self).contents(), path@) == Err::<
                    (u32, u16),
                    Seq<char>,
                >(e@),
            },
    {
        let ghost reads = self.source.reads();
        let ghost v = self.layout@;
        let parts: Vec<Vec<char>> = segments(path);
        let ghost all = text::texts(parts@);
        let mut lbn: u32 = self.root_icb_lbn;
        let mut part: u16 = self.root_icb_part_ref;
        let ghost goal = resolved(reads, v, all, 0, lbn, part);
        let mut k: usize = 0;
        while k < parts.len()
            invariant
                k <= parts@.len(),
                self.contents() == old(self).contents(),
                self.source.reads() == reads,
                resolved(reads, v, all, k as int, lbn, part) == goal,
            decreases parts@.len() - k,
        {
            assert(all[k as int] == parts@[k as int]@);
            match find_in_dir(&mut self.source, &self.layout, lbn, part, parts[k].as_slice()) {
                Err(e) => {
                    return Err(e);
                },
                Ok(p) => {
                    lbn = p.0;
                    part = p.1;
                },
            }
            k += 1;
        }
        Ok((lbn, part))
    }

    /// Lists a directory.
    #[verifier::loop_isolation(false)]
    pub fn list_directory(&mut self, dir_path: &str) -> (r: Result<Vec<DiscEntry>, String>)
        ensures
            final(self).contents() == old(self).contents(),
            final(self).source.reads() == old(self).source.reads(),
            match r {
                Ok(v) => listing_answer(old(self).source.reads(), old(self).contents(), dir_path@)
                    == Ok::<Seq<EntryView>, Seq<char>>(entry::listing(v@)),
                Err(e) => listing_answer(old(self).source.reads(), old(self).contents(), dir_path@)
                    == Err::<Seq<EntryView>, Seq<char>>(e@),
            },
    {
        let ghost reads = self.source.reads();
        let (lbn, part): (u32, u16) = match self.resolve(dir_path) {
            Err(e) => {
                return Err(e);
            },
            Ok(p) => p,
        };
        let fids: Vec<Fid> = match read_fids(&mut self.source, &self.layout, lbn as u64, part) {
            Err(e) => {
                return Err(e);
            },
            Ok(None) => match read_sector_for_part(
                &mut self.source,
                &self.layout,
                lbn as u64,
                part,
            ) {
                Err(e) => {
                    return Err(e);
                },
                Ok(fe) => {
                    let at: String = decimal_string(lbn as u64);
                    let tag: String = decimal_string(tag_id(fe.as_slice()) as u64);
                    let head: String = join3("UDF: LBN ", at.as_str(), " has tag ");
                    return Err(join3(head.as_str(), tag.as_str(), ", expected file entry"));
                },
            },
            Ok(Some(v)) => v,
        };
        let ghost views = fid_views(fids@);
        let ghost lines = Seq::new(views.len(), |i: int| udf_line(reads, self.layout@, views[i]));
        let mut out: Vec<DiscEntry> = Vec::new();
        let mut k: usize = 0;
        assert(entry::listing(out@) =~= lines.take(0));
        while k < fids.len()
            invariant
                k <= fids@.len(),
                self.contents() == old(self).contents(),
                self.source.reads() == reads,
                entry::listing(out@) == lines.take(k as int),
            decreases fids@.len() - k,
        {
            let ghost before = out@;
            let line: DiscEntry = entry_line(&mut self.source, &self.layout, &fids[k]);
            out.push(line);
            assert(entry::listing(out@) =~= entry::listing(before).push(line@));
            assert(lines.take(k + 1) =~= lines.take(k as int).push(lines[k as int]));
            k += 1;
        }
        assert(lines.take(k as int) =~= lines);
        Ok(out)
    }

    /// The bytes of a file.
    pub fn extract_file(&mut self, file_path: &str) -> (r: Result<Vec<u8>, String>)
        ensures
            final(self).contents() == old(self).contents(),
            final(self).source.reads() == old(self).source.reads(),
            source::outcome(r) == file_answer(
                old(self).source.reads(),
                old(self).contents(),
                file_path@,
            ),
    {
        let (lbn, part): (u32, u16) = match self.resolve(file_path) {
            Err(e) => {
                return Err(e);
            },
            Ok(p) => p,
        };
        let fe: Vec<u8> = match read_sector_for_part(
            &mut self.source,
            &self.layout,
            lbn as u64,
            part,
        ) {
            Err(e) => {
                return Err(e);
            },
            Ok(fe) => fe,
        };
        let tag: u16 = tag_id(fe.as_slice());
        if tag != TAG_FILE_ENTRY && tag != TAG_EXT_FILE_ENTRY {
            return Err(join3("UDF: '", file_path, "' is not a file entry"));
        }
        read_alloc_bytes(&mut self.source, &self.layout, fe.as_slice(), part)
    }
}

// ── Opening ─────────────────────────────────────────────────────────────────

/// What the volume descriptors tell: where the partition starts, the logical
/// volume descriptor, and the volume's name.
#[verifier::ext_equal]
pub struct DescView {
    pub part: Option<int>,
    pub lvd: Option<Seq<u8>>,
    pub name: Seq<char>,
}

/// What is known once the descriptor `sec` is read.
pub open spec fn noted(d: DescView, sec: Seq<u8>) -> DescView {
    if tag_of(sec) == TAG_PD {
        DescView { part: Some(bytes::le32_at(sec, 188)), ..d }
    } else if tag_of(sec) == TAG_LVD {
        DescView {
            part: d.part,
            lvd: Some(sec),
            name: if 0 < sec[211] <= 127 {
                cs0_text(sec.subrange(84, 84 + sec[211]))
            } else {
                d.name
            },
        }
    } else {
        d
    }
}

/// What the `n` descriptors from the sector `lba` on tell, up to a terminator.
pub open spec fn described(
    reads: Reads,
    track_offset: int,
    user_data_offset: int,
    lba: int,
    n: int,
    d: DescView,
) -> Result<DescView, Seq<char>>
    decreases n,
{
    if n <= 0 {
        Ok(d)
    } else {
        match sector_at(reads, track_offset, user_data_offset, lba) {
            Err(e) => Err(e),
            Ok(sec) => if tag_of(sec) == TAG_TERM {
                Ok(d)
            } else {
                described(reads, track_offset, user_data_offset, lba + 1, n - 1, noted(d, sec))
            },
        }
    }
}

/// What the volume descriptors tell.
struct Descriptors {
    part: Option<u64>,
    lvd: Option<Vec<u8>>,
    name: String,
}

impl View for Descriptors {
    type V = DescView;

    closed spec fn view(&self) -> DescView {
        DescView {
            part: match self.part {
                Some(p) => Some(p as int),
                None => None,
            },
            lvd: match self.lvd {
                Some(v) => Some(v@),
                None => None,
            },
            name: self.name@,
        }
    }
}

/// Reads the volume descriptors.
#[verifier::loop_isolation(false)]
fn read_descriptors<S: ByteSource>(
    source: &mut S,
    track_offset: u64,
    user_data_offset: u64,
    first: u32,
    count: u64,
) -> (r: Result<Descriptors, String>)
    requires
        count <= 0x1_0000_0000,
    ensures
        final(source).reads() == old(source).reads(),
        ({
            let all = described(
                old(source).reads(),
                track_offset as int,
                user_data_offset as int,
                first as int,
                count as int,
                DescView { part: None, lvd: None, name: seq![] },
            );
            match r {
                Ok(d) => all == Ok::<DescView, Seq<char>>(d@),
                Err(e) => all == Err::<DescView, Seq<char>>(e@),
            }
        }),
        r matches Ok(d) ==> (d.part matches Some(p) ==> p <= 0xffff_ffff) && (d.lvd matches Some(v)
            ==> v@.len() == 2048),
{
    let ghost reads = source.reads();
    let ghost goal = described(
        reads,
        track_offset as int,
        user_data_offset as int,
        first as int,
        count as int,
        DescView { part: None, lvd: None, name: seq![] },
    );
    let mut d: Descriptors = Descriptors { part: None, lvd: None, name: String::new() };
    let mut i: u64 = 0;
    assert(d@ =~= DescView { part: None, lvd: None, name: seq![] });
    while i < count
        invariant
            source.reads() == reads,
            i <= count,
            described(
                reads,
                track_offset as int,
                user_data_offset as int,
                first + i,
                count - i,
                d@,
            ) == goal,
            d.part matches Some(p) ==> p <= 0xffff_ffff,
            d.lvd matches Some(v) ==> v@.len() == 2048,
        decreases count - i,
    {
        let sec: Vec<u8> = match read_physical_sector(
            source,
            track_offset,
            user_data_offset,
            first as u128 + i as u128,
        ) {
            Ok(b) => b,
            Err(e) => {
                return Err(e);
            },
        };
        let tag: u16 = tag_id(sec.as_slice());
        let ghost before = d@;
        let ghost sector = sec@;
        if tag == TAG_TERM {
            return Ok(d);
        } else if tag == TAG_PD {
            d.part = Some(read_u32_le(sec.as_slice(), 188) as u64);
        } else if tag == TAG_LVD {
            let n: usize = sec[211] as usize;
            if 0 < n && n <= 127 {
                d.name = cs0_to_string(slice_subrange(sec.as_slice(), 84, 84 + n));
            }
            d.lvd = Some(sec);
        }
        assert(d@ =~= noted(before, sector));
        i += 1;
    }
    Ok(d)
}

/// How many whole sectors a source of `len` bytes has from the start of the track on.
pub open spec fn sector_count(v: LayoutView, len: int) -> int {
    if len <= v.track_offset {
        0
    } else {
        (len - v.track_offset) / (if v.user_data_offset == 0 {
            2048int
        } else {
            2352int
        })
    }
}

fn count_sectors(layout: &UdfLayout, len: u64) -> (r: u64)
    ensures
        r == sector_count(layout@, len as int),
{
    if len <= layout.track_offset {
        0
    } else if layout.user_data_offset == 0 {
        (len - layout.track_offset) / 2048
    } else {
        (len - layout.track_offset) / 2352
    }
}

/// The first sector from `probe` on, of a disc of `count` sectors, that holds a file
/// set descriptor.
pub open spec fn first_fsd(reads: Reads, v: LayoutView, probe: int, count: int) -> Option<int>
    decreases count - probe,
{
    if probe < 0 || probe >= count {
        None
    } else {
        match sector_at(reads, v.track_offset, v.user_data_offset, probe) {
            Ok(sec) => if tag_of(sec) == TAG_FSD {
                Some(probe)
            } else {
                first_fsd(reads, v, probe + 1, count)
            },
            Err(_) => first_fsd(reads, v, probe + 1, count),
        }
    }
}

/// `a - b`, or zero where that is negative.
pub open spec fn less(a: int, b: int) -> int {
    if a < b {
        0
    } else {
        a - b
    }
}

/// The first block of the metadata file whose entry is the block `icb`. An
/// entry without descriptors leaves it to be found from where the file set
/// descriptor is, which has the number `fsd_lbn` in the metadata partition.
pub open spec fn meta_start(
    reads: Reads,
    v: LayoutView,
    len: int,
    icb: int,
    fsd_lbn: int,
) -> Option<int> {
    match sector_at(reads, v.track_offset, v.user_data_offset, v.partition_start + icb) {
        Err(_) => None,
        Ok(fe) => if !is_file_entry(fe) || alloc_type(fe) > 1 {
            None
        } else if ads_start(fe) + ad_size(fe) <= ads_end(fe) {
            Some(bytes::le32_at(fe, ads_start(fe) + 4))
        } else if bytes::le64_at(fe, 56) > 0 {
            match first_fsd(reads, v, 0, sector_count(v, len)) {
                None => None,
                Some(p) => Some(less(less(p, v.partition_start), fsd_lbn)),
            }
        } else {
            None
        },
    }
}

/// Where the partition maps of a logical volume descriptor end.
pub open spec fn maps_end(lvd: Seq<u8>) -> int {
    if 440 + bytes::le32_at(lvd, 264) < 2048 {
        440 + bytes::le32_at(lvd, 264)
    } else {
        2048
    }
}

/// A layout with the partition map at `off`, the one numbered `idx`, in it.
pub open spec fn mapped(
    reads: Reads,
    v: LayoutView,
    len: int,
    lvd: Seq<u8>,
    off: int,
    idx: int,
) -> LayoutView {
    if lvd[off] != 2 || off + 36 > maps_end(lvd) {
        v
    } else if bytes::spells(lvd, off + 5, "*UDF Metadata Partition"@) {
        if off + 44 > maps_end(lvd) {
            v
        } else {
            match meta_start(
                reads,
                v,
                len,
                bytes::le32_at(lvd, off + 40),
                bytes::le32_at(lvd, 252),
            ) {
                None => v,
                Some(at) => LayoutView { meta_lbn_offset: at, meta_part_ref: idx as u16, ..v },
            }
        }
    } else if bytes::spells(lvd, off + 5, "*UDF Virtual Partition"@) {
        LayoutView { vat_part_ref: idx as u16, ..v }
    } else {
        v
    }
}

/// A layout with the partition maps from `off` on in it.
pub open spec fn all_mapped(
    reads: Reads,
    v: LayoutView,
    len: int,
    lvd: Seq<u8>,
    off: int,
    idx: int,
) -> LayoutView
    decreases 4096 - off,
{
    if off < 0 || off + 2 > maps_end(lvd) || idx >= bytes::le32_at(lvd, 268) || lvd[off + 1] < 2 {
        v
    } else {
        all_mapped(
            reads,
            mapped(reads, v, len, lvd, off, idx),
            len,
            lvd,
            off + lvd[off + 1],
            idx + 1,
        )
    }
}

/// Finds the first block of the metadata file whose entry is the block `icb`.
#[verifier::loop_isolation(false)]
fn find_meta_start<S: ByteSource>(
    source: &mut S,
    layout: &UdfLayout,
    len: u64,
    icb: u32,
    fsd_lbn: u32,
) -> (r: Option<u64>)
    ensures
        final(source).reads() == old(source).reads(),
        match r {
            Some(p) => meta_start(
                old(source).reads(),
                layout@,
                len as int,
                icb as int,
                fsd_lbn as int,
            ) == Some(p as int),
            None => meta_start(
                old(source).reads(),
                layout@,
                len as int,
                icb as int,
                fsd_lbn as int,
            ) is None,
        },
{
    let ghost reads = source.reads();
    let fe: Vec<u8> = match read_physical_sector(
        source,
        layout.track_offset,
        layout.user_data_offset,
        layout.partition_start as u128 + icb as u128,
    ) {
        Ok(b) => b,
        Err(_) => {
            return None;
        },
    };
    let tag: u16 = tag_id(fe.as_slice());
    let kind: u16 = read_u16_le(fe.as_slice(), 34) % 8;
    if (tag != TAG_FILE_ENTRY && tag != TAG_EXT_FILE_ENTRY) || kind > 1 {
        return None;
    }
    let tail: usize = if tag == TAG_EXT_FILE_ENTRY {
        208
    } else {
        168
    };
    let start: u64 = tail as u64 + 8 + read_u32_le(fe.as_slice(), tail) as u64;
    let full: u64 = start + read_u32_le(fe.as_slice(), tail + 4) as u64;
    let end: u64 = if full < 2048 {
        full
    } else {
        2048
    };
    let step: u64 = if kind == 0 {
        8
    } else {
        16
    };
    if start + step <= end {
        return Some(read_u32_le(fe.as_slice(), start as usize + 4) as u64);
    }
    if read_u64_le(fe.as_slice(), 56) == 0 {
        return None;
    }
    let count: u64 = count_sectors(layout, len);
    let mut probe: u64 = 0;
    while probe < count
        invariant
            source.reads() == reads,
            probe <= count,
            first_fsd(reads, layout@, 0, count as int) == first_fsd(
                reads,
                layout@,
                probe as int,
                count as int,
            ),
        decreases count - probe,
    {
        if let Ok(sec) = read_physical_sector(
            source,
            layout.track_offset,
            layout.user_data_offset,
            probe as u128,
        ) {
            if tag_id(sec.as_slice()) == TAG_FSD {
                let rel: u64 = if probe < layout.partition_start {
                    0
                } else {
                    probe - layout.partition_start
                };
                return Some(
                    if rel < fsd_lbn as u64 {
                        0
                    } else {
                        rel - fsd_lbn as u64
                    },
                );
            }
        }
        probe += 1;
    }
    None
}

/// Notes the partition maps of a logical volume descriptor.
#[verifier::loop_isolation(false)]
fn map_partitions<S: ByteSource>(source: &mut S, layout: &mut UdfLayout, len: u64, lvd: &[u8])
    requires
        lvd@.len() == 2048,
    ensures
        final(source).reads() == old(source).reads(),
        final(layout)@ == all_mapped(old(source).reads(), old(layout)@, len as int, lvd@, 440, 0),
        final(layout).vat@ == old(layout).vat@,
{
    let ghost reads = source.reads();
    let ghost goal = all_mapped(reads, layout@, len as int, lvd@, 440, 0);
    let fsd_lbn: u32 = read_u32_le(lvd, 252);
    let full: u64 = 440 + read_u32_le(lvd, 264) as u64;
    let end: usize = if full < 2048 {
        full as usize
    } else {
        2048
    };
    let count: u32 = read_u32_le(lvd, 268);
    let mut off: usize = 440;
    let mut idx: u16 = 0;
    while off + 2 <= end && (idx as u32) < count && lvd[off + 1] >= 2
        invariant
            source.reads() == reads,
            440 + 2 * idx <= off <= 2048 + 255,
            layout.vat@ == old(layout).vat@,
            all_mapped(reads, layout@, len as int, lvd@, off as int, idx as int) == goal,
        decreases 4096 - off,
    {
        let ghost before = layout@;
        if lvd[off] == 2 && off + 36 <= end {
            if spells_at(lvd, off + 5, "*UDF Metadata Partition") {
                if off + 44 <= end {
                    let icb: u32 = read_u32_le(lvd, off + 40);
                    if let Some(at) = find_meta_start(source, layout, len, icb, fsd_lbn) {
                        layout.meta_lbn_offset = at;
                        layout.meta_part_ref = idx;
                    }
                }
            } else if spells_at(lvd, off + 5, "*UDF Virtual Partition") {
                layout.vat_part_ref = idx;
            }
        }
        assert(layout@ =~= mapped(reads, before, len as int, lvd@, off as int, idx as int));
        off += lvd[off + 1] as usize;
        idx += 1;
    }
}

/// The revision that the integrity descriptor of a volume names.
pub open spec fn integrity_rev(reads: Reads, v: LayoutView, lvd: Seq<u8>) -> Option<int> {
    let lba = bytes::le32_at(lvd, 436);
    if lba == 0 {
        None
    } else {
        match sector_at(reads, v.track_offset, v.user_data_offset, lba) {
            Err(_) => None,
            Ok(s) => {
                let at = 80 + 8 * bytes::le32_at(s, 72);
                if tag_of(s) == TAG_LVID && at + 46 <= 2048 && bytes::le32_at(s, 76) >= 46
                    && bytes::le16_at(s, at + 40) != 0 {
                    Some(bytes::le16_at(s, at + 40))
                } else {
                    None
                }
            },
        }
    }
}

/// Reads the revision that the integrity descriptor of a volume names.
fn read_integrity_rev<S: ByteSource>(source: &mut S, layout: &UdfLayout, lvd: &[u8]) -> (r: Option<
    u16,
>)
    requires
        lvd@.len() == 2048,
    ensures
        final(source).reads() == old(source).reads(),
        match r {
            Some(rev) => integrity_rev(old(source).reads(), layout@, lvd@) == Some(rev as int),
            None => integrity_rev(old(source).reads(), layout@, lvd@) is None,
        },
{
    let lba: u32 = read_u32_le(lvd, 436);
    if lba == 0 {
        return None;
    }
    let s: Vec<u8> = match read_physical_sector(
        source,
        layout.track_offset,
        layout.user_data_offset,
        lba as u128,
    ) {
        Ok(b) => b,
        Err(_) => {
            return None;
        },
    };
    if tag_id(s.as_slice()) != TAG_LVID {
        return None;
    }
    let at: u64 = 80 + 8 * (read_u32_le(s.as_slice(), 72) as u64);
    if at + 46 > 2048 || read_u32_le(s.as_slice(), 76) < 46 {
        return None;
    }
    let rev: u16 = read_u16_le(s.as_slice(), at as usize + 40);
    if rev == 0 {
        None
    } else {
        Some(rev)
    }
}

/// Whether a sector holds the file entry of a virtual allocation table.
pub open spec fn is_vat_entry(s: Seq<u8>) -> bool {
    is_file_entry(s) && s[27] == FILE_TYPE_VAT
}

/// The last sector below `i`, and not below `low`, that holds the file entry of
/// a virtual allocation table.
pub open spec fn last_vat_entry(reads: Reads, v: LayoutView, i: int, low: int) -> Option<int>
    decreases i - low,
{
    if i <= low {
        None
    } else {
        match sector_at(reads, v.track_offset, v.user_data_offset, i - 1) {
            Ok(s) => if is_vat_entry(s) {
                Some(i - 1)
            } else {
                last_vat_entry(reads, v, i - 1, low)
            },
            Err(_) => last_vat_entry(reads, v, i - 1, low),
        }
    }
}

/// The sector with the file entry of the virtual allocation table, among the
/// last 256 of a source of `len` bytes.
pub open spec fn vat_entry(reads: Reads, v: LayoutView, len: int) -> Option<int> {
    last_vat_entry(reads, v, sector_count(v, len), less(sector_count(v, len), 256))
}

/// The data of the virtual allocation table.
pub open spec fn vat_data(reads: Reads, v: LayoutView, len: int) -> Option<Seq<u8>> {
    match vat_entry(reads, v, len) {
        None => None,
        Some(lba) => match sector_at(reads, v.track_offset, v.user_data_offset, lba) {
            Err(_) => None,
            Ok(fe) => match file_data(reads, physical(v), fe, 0) {
                Err(_) => None,
                Ok(d) => if d.len() < 4 {
                    None
                } else {
                    Some(d)
                },
            },
        },
    }
}

/// The 32-bit little-endian values of `s` from `from` on, bytes left over aside.
pub open spec fn words_from(s: Seq<u8>, from: int) -> Seq<u32> {
    Seq::new(((s.len() - from) / 4) as nat, |i: int| bytes::le32_at(s, from + 4 * i) as u32)
}

/// What a virtual allocation table holds: its blocks, and a name and a revision
/// where its header has them.
#[verifier::ext_equal]
pub struct VatView {
    pub blocks: Seq<u32>,
    pub name: Option<Seq<char>>,
    pub rev: Option<int>,
}

/// What a virtual allocation table holds; one without a header is blocks only.
pub open spec fn vat_of(d: Seq<u8>, use_header: bool) -> Option<VatView> {
    if !use_header {
        Some(VatView { blocks: words_from(d, 0), name: None, rev: None })
    } else {
        let head = bytes::le16_at(d, 0);
        if head < 4 || head > d.len() {
            None
        } else {
            Some(
                VatView {
                    blocks: words_from(d, head),
                    name: if head >= 132 && 0 < d[131] <= 127 && cs0_text(
                        d.subrange(4, 4 + d[131]),
                    ).len() > 0 {
                        Some(cs0_text(d.subrange(4, 4 + d[131])))
                    } else {
                        None
                    },
                    rev: if head >= 146 && bytes::le16_at(d, 144) != 0 {
                        Some(bytes::le16_at(d, 144))
                    } else {
                        None
                    },
                },
            )
        }
    }
}

/// Reads the data of the virtual allocation table.
#[verifier::loop_isolation(false)]
fn read_vat_data<S: ByteSource>(source: &mut S, layout: &UdfLayout, len: u64) -> (r: Option<Vec<u8>>)
    ensures
        final(source).reads() == old(source).reads(),
        match r {
            Some(d) => vat_data(old(source).reads(), layout@, len as int) == Some(d@) && d@.len()
                >= 4,
            None => vat_data(old(source).reads(), layout@, len as int) is None,
        },
{
    let ghost reads = source.reads();
    let sectors: u64 = count_sectors(layout, len);
    let low: u64 = if sectors < 256 {
        0
    } else {
        sectors - 256
    };
    let mut i: u64 = sectors;
    while i > low
        invariant
            source.reads() == reads,
            low <= i <= sectors,
            vat_entry(reads, layout@, len as int) == last_vat_entry(
                reads,
                layout@,
                i as int,
                low as int,
            ),
        decreases i - low,
    {
        if let Ok(fe) = read_physical_sector(
            source,
            layout.track_offset,
            layout.user_data_offset,
            (i - 1) as u128,
        ) {
            let tag: u16 = tag_id(fe.as_slice());
            if (tag == TAG_FILE_ENTRY || tag == TAG_EXT_FILE_ENTRY) && fe[27] == FILE_TYPE_VAT {
                let none: Vec<u32> = Vec::new();
                let base: UdfLayout = UdfLayout {
                    track_offset: layout.track_offset,
                    user_data_offset: layout.user_data_offset,
                    partition_start: layout.partition_start,
                    meta_lbn_offset: layout.meta_lbn_offset,
                    meta_part_ref: NO_PART,
                    vat: none,
                    vat_part_ref: layout.vat_part_ref,
                };
                assert(base@ =~= physical(layout@));
                return match read_alloc_bytes(source, &base, fe.as_slice(), 0) {
                    Err(_) => None,
                    Ok(d) => if d.len() < 4 {
                        None
                    } else {
                        Some(d)
                    },
                };
            }
        }
        i -= 1;
    }
    None
}

/// The 32-bit values of `s` from `from` on.
fn read_words(s: &[u8], from: usize) -> (r: Vec<u32>)
    requires
        from <= s@.len(),
    ensures
        r@ == words_from(s@, from as int),
{
    let len: usize = s.len();
    let count: usize = (len - from) / 4;
    let mut out: Vec<u32> = Vec::new();
    let mut i: usize = 0;
    while i < count
        invariant
            len == s@.len(),
            from <= len,
            count == (len - from) / 4,
            i <= count,
            out@.len() == i,
            forall|j: int| 0 <= j < i ==> out@[j] == #[trigger] words_from(s@, from as int)[j],
        decreases count - i,
    {
        let w: u32 = read_u32_le(s, from + 4 * i);
        assert(words_from(s@, from as int)[i as int] == w);
        out.push(w);
        i += 1;
    }
    assert(out@ =~= words_from(s@, from as int));
    out
}

/// The file set descriptor: the block recorded for it, or else block 0.
pub open spec fn fsd_at(reads: Reads, v: LayoutView, lbn: int, part_ref: u16) -> Result<
    Seq<u8>,
    Seq<char>,
> {
    match block_at(reads, v, lbn, part_ref) {
        Err(e) => Err(e),
        Ok(s) => if tag_of(s) == TAG_FSD {
            Ok(s)
        } else if lbn == 0 {
            Err("UDF: File Set Descriptor not found"@)
        } else {
            match block_at(reads, v, 0, part_ref) {
                Err(e) => Err(e),
                Ok(t) => if tag_of(t) == TAG_FSD {
                    Ok(t)
                } else {
                    Err("UDF: File Set Descriptor not found"@)
                },
            }
        },
    }
}

/// The volume whose partition starts at `part` and whose logical volume
/// descriptor is `lvd`, before its file set is known.
pub open spec fn volume_of(
    reads: Reads,
    len: int,
    track_offset: int,
    user_data_offset: int,
    part: int,
    lvd: Seq<u8>,
    name: Seq<char>,
) -> UdfView {
    let base = LayoutView {
        track_offset,
        user_data_offset,
        partition_start: part,
        meta_lbn_offset: 0,
        meta_part_ref: NO_PART,
        vat: seq![],
        vat_part_ref: NO_PART,
    };
    let layout = all_mapped(reads, base, len, lvd, 440, 0);
    let version = match integrity_rev(reads, layout, lvd) {
        Some(rev) => version_text(rev),
        None => "UDF"@,
    };
    let plain = UdfView {
        layout,
        volume_name: name,
        udf_version: version,
        root_icb_lbn: 0,
        root_icb_part_ref: 0,
    };
    if layout.vat_part_ref == NO_PART {
        plain
    } else {
        let use_header = version != "UDF 1.02"@ && version != "UDF 1.50"@ && version != "UDF"@;
        match vat_data(reads, layout, len) {
            None => plain,
            Some(d) => match vat_of(d, use_header) {
                None => plain,
                Some(vat) => UdfView {
                    layout: LayoutView { vat: vat.blocks, ..layout },
                    volume_name: match vat.name {
                        Some(n) => n,
                        None => name,
                    },
                    udf_version: match vat.rev {
                        Some(rev) => version_text(rev),
                        None => version,
                    },
                    root_icb_lbn: 0,
                    root_icb_part_ref: 0,
                },
            },
        }
    }
}

/// The volume that a source of `len` bytes holds.
pub open spec fn udf_opened(reads: Reads, len: int, track_offset: int, user_data_offset: int) -> Result<
    UdfView,
    Seq<char>,
> {
    match sector_at(reads, track_offset, user_data_offset, 256) {
        Err(e) => Err(e),
        Ok(avdp) => if tag_of(avdp) != TAG_AVDP {
            Err("No UDF AVDP at LBA 256"@)
        } else {
            match described(
                reads,
                track_offset,
                user_data_offset,
                bytes::le32_at(avdp, 20),
                (bytes::le32_at(avdp, 16) + 2047) / 2048,
                DescView { part: None, lvd: None, name: seq![] },
            ) {
                Err(e) => Err(e),
                Ok(d) => match d.part {
                    None => Err("UDF: no Partition Descriptor found"@),
                    Some(part) => match d.lvd {
                        None => Err("UDF: no Logical Volume Descriptor found"@),
                        Some(lvd) => {
                            let v = volume_of(
                                reads,
                                len,
                                track_offset,
                                user_data_offset,
                                part,
                                lvd,
                                d.name,
                            );
                            match fsd_at(
                                reads,
                                v.layout,
                                bytes::le32_at(lvd, 252),
                                bytes::le16_at(lvd, 256) as u16,
                            ) {
                                Err(e) => Err(e),
                                Ok(fsd) => Ok(
                                    UdfView {
                                        root_icb_lbn: bytes::le32_at(fsd, 404) as u32,
                                        root_icb_part_ref: bytes::le16_at(fsd, 408) as u16,
                                        ..v
                                    },
                                ),
                            }
                        },
                    },
                },
            }
        },
    }
}

/// Reads the file set descriptor.
fn read_fsd<S: ByteSource>(source: &mut S, layout: &UdfLayout, lbn: u32, part_ref: u16) -> (r:
    Result<Vec<u8>, String>)
    ensures
        final(source).reads() == old(source).reads(),
        source::outcome(r) == fsd_at(old(source).reads(), layout@, lbn as int, part_ref),
        r matches Ok(b) ==> b@.len() == 2048,
{
    let first: Vec<u8> = match read_sector_for_part(source, layout, lbn as u64, part_ref) {
        Ok(b) => b,
        Err(e) => {
            return Err(e);
        },
    };
    if tag_id(first.as_slice()) == TAG_FSD {
        return Ok(first);
    }
    if lbn == 0 {
        return Err("UDF: File Set Descriptor not found".to_owned());
    }
    let second: Vec<u8> = match read_sector_for_part(source, layout, 0, part_ref) {
        Ok(b) => b,
        Err(e) => {
            return Err(e);
        },
    };
    if tag_id(second.as_slice()) == TAG_FSD {
        Ok(second)
    } else {
        Err("UDF: File Set Descriptor not found".to_owned())
    }
}

impl<S: ByteSource> UdfFs<S> {
    /// Takes over the virtual allocation table where the volume has one.
    fn load_vat(&mut self, len: u64, use_header: bool)
        ensures
            final(self).source.reads() == old(self).source.reads(),
            final(self).contents() == (match vat_data(
                old(self).source.reads(),
                old(self).layout@,
                len as int,
            ) {
                None => old(self).contents(),
                Some(d) => match vat_of(d, use_header) {
                    None => old(self).contents(),
                    Some(vat) => UdfView {
                        layout: LayoutView { vat: vat.blocks, ..old(self).layout@ },
                        volume_name: match vat.name {
                            Some(n) => n,
                            None => old(self).volume_name@,
                        },
                        udf_version: match vat.rev {
                            Some(rev) => version_text(rev),
                            None => old(self).udf_version@,
                        },
                        root_icb_lbn: old(self).root_icb_lbn,
                        root_icb_part_ref: old(self).root_icb_part_ref,
                    },
                },
            }),
    {
        let d: Vec<u8> = match read_vat_data(&mut self.source, &self.layout, len) {
            None => {
                return ;
            },
            Some(d) => d,
        };
        if use_header {
            let head: usize = read_u16_le(d.as_slice(), 0) as usize;
            if head < 4 || head > d.len() {
                return ;
            }
            self.layout.vat = read_words(d.as_slice(), head);
            if head >= 132 {
                let n: usize = d[131] as usize;
                if 0 < n && n <= 127 {
                    let name: String = cs0_to_string(slice_subrange(d.as_slice(), 4, 4 + n));
                    let letters: Vec<char> = chars_of(name.as_str());
                    if letters.len() > 0 {
                        self.volume_name = name;
                    }
                }
            }
            if head >= 146 {
                let rev: u16 = read_u16_le(d.as_slice(), 144);
                if rev != 0 {
                    self.udf_version = format_udf_version(rev);
                }
            }
        } else {
            self.layout.vat = read_words(d.as_slice(), 0);
        }
    }

    /// Opens the volume that a source of `len` bytes holds.
    pub fn new(source: S, len: u64, track_offset: u64, user_data_offset: u64) -> (r: Result<
        UdfFs<S>,
        String,
    >)
        ensures
            match r {
                Ok(fs) => fs.source.reads() == source.reads() && udf_opened(
                    source.reads(),
                    len as int,
                    track_offset as int,
                    user_data_offset as int,
                ) == Ok::<UdfView, Seq<char>>(fs.contents()),
                Err(e) => udf_opened(
                    source.reads(),
                    len as int,
                    track_offset as int,
                    user_data_offset as int,
                ) == Err::<UdfView, Seq<char>>(e@),
            },
    {
        let mut source: S = source;
        let ghost reads = source.reads();
        let avdp: Vec<u8> = match read_physical_sector(
            &mut source,
            track_offset,
            user_data_offset,
            256,
        ) {
            Ok(b) => b,
            Err(e) => {
                return Err(e);
            },
        };
        if tag_id(avdp.as_slice()) != TAG_AVDP {
            return Err("No UDF AVDP at LBA 256".to_owned());
        }
        let count: u64 = (read_u32_le(avdp.as_slice(), 16) as u64 + 2047) / 2048;
        let first: u32 = read_u32_le(avdp.as_slice(), 20);
        let d: Descriptors = match read_descriptors(
            &mut source,
            track_offset,
            user_data_offset,
            first,
            count,
        ) {
            Ok(d) => d,
            Err(e) => {
                return Err(e);
            },
        };
        let part: u64 = match d.part {
            None => {
                return Err("UDF: no Partition Descriptor found".to_owned());
            },
            Some(p) => p,
        };
        let lvd: Vec<u8> = match d.lvd {
            None => {
                return Err("UDF: no Logical Volume Descriptor found".to_owned());
            },
            Some(v) => v,
        };
        let mut layout: UdfLayout = UdfLayout {
            track_offset,
            user_data_offset,
            partition_start: part,
            meta_lbn_offset: 0,
            meta_part_ref: NO_PART,
            vat: Vec::new(),
            vat_part_ref: NO_PART,
        };
        assert(layout.vat@ =~= seq![]);
        map_partitions(&mut source, &mut layout, len, lvd.as_slice());
        let version: String = match read_integrity_rev(&mut source, &layout, lvd.as_slice()) {
            Some(rev) => format_udf_version(rev),
            None => "UDF".to_owned(),
        };
        let has_vat: bool = layout.vat_part_ref != NO_PART;
        let use_header: bool = !same_text(version.as_str(), "UDF 1.02") && !same_text(
            version.as_str(),
            "UDF 1.50",
        ) && !same_text(version.as_str(), "UDF");
        let mut fs: UdfFs<S> = UdfFs {
            source,
            layout,
            volume_name: d.name,
            udf_version: version,
            root_icb_lbn: 0,
            root_icb_part_ref: 0,
        };
        if has_vat {
            fs.load_vat(len, use_header);
        }
        assert(fs.contents() =~= volume_of(
            reads,
            len as int,
            track_offset as int,
            user_data_offset as int,
            part as int,
            lvd@,
            d@.name,
        ));
        let fsd_lbn: u32 = read_u32_le(lvd.as_slice(), 252);
        let fsd_part: u16 = read_u16_le(lvd.as_slice(), 256);
        let fsd: Vec<u8> = match read_fsd(&mut fs.source, &fs.layout, fsd_lbn, fsd_part) {
            Ok(b) => b,
            Err(e) => {
                return Err(e);
            },
        };
        fs.root_icb_lbn = read_u32_le(fsd.as_slice(), 404);
        fs.root_icb_part_ref = read_u16_le(fsd.as_slice(), 408);
        Ok(fs)
    }
}

/// Every entry that a listing shows is found by its name: the first of them, where
/// several share it but for the case of their letters.
pub proof fn a_listed_entry_is_found(fids: Seq<FidView>, i: int, k: int)
    requires
        0 <= k <= i < fids.len(),
    ensures
        exists|j: int|
            k <= j <= i && text::alike((#[trigger] fids[j]).name, fids[i].name) && fid_named(
                fids,
                k,
                fids[i].name,
            ) == Some((fids[j].lbn, fids[j].part_ref)),
    decreases i - k,
{
    if text::alike(fids[k].name, fids[i].name) {
        assert(fid_named(fids, k, fids[i].name) == Some((fids[k].lbn, fids[k].part_ref)));
    } else {
        assert(text::alike(fids[i].name, fids[i].name));
        a_listed_entry_is_found(fids, i, k + 1);
    }
}

// ── Laws ────────────────────────────────────────────────────────────────────

/// A sector of the track is the user data of the plain or raw sector of that number.
pub proof fn a_sector_is_read_from_its_place(
    front: Seq<u8>,
    sectors: Seq<Seq<u8>>,
    stride: int,
    rest: Seq<u8>,
    data: int,
    lba: int,
)
    requires
        0 <= lba < sectors.len(),
        sectors[lba].len() == stride,
        0 <= data,
        data == 0 ==> stride == 2048,
        data > 0 ==> stride == 2352 && data <= 304,
        source::image_of(front, sectors, stride, rest).len() <= u64::MAX,
    ensures
        sector_at(
            source::reads_of(source::image_of(front, sectors, stride, rest)),
            front.len() as int,
            data,
            lba,
        ) == Ok::<Seq<u8>, Seq<char>>(sectors[lba].subrange(data, data + 2048)),
{
    sector::sectors_follow_each_other(front, sectors, stride, rest, data, lba);
}

/// The byte `i` of a stretch of blocks stands in the block that many whole blocks of 2048
/// bytes behind its first one, which counts from the start of the partition.
pub proof fn a_stretch_is_read_from_its_blocks(
    front: Seq<u8>,
    sectors: Seq<Seq<u8>>,
    stride: int,
    rest: Seq<u8>,
    v: LayoutView,
    lbn: int,
    n: int,
    part: u16,
)
    requires
        v.track_offset == front.len(),
        0 <= v.user_data_offset,
        v.user_data_offset == 0 ==> stride == 2048,
        v.user_data_offset > 0 ==> stride == 2352 && v.user_data_offset <= 304,
        forall|k: int| 0 <= k < sectors.len() ==> (#[trigger] sectors[k]).len() == stride,
        source::image_of(front, sectors, stride, rest).len() <= u64::MAX,
        v.vat.len() == 0 || part != v.vat_part_ref,
        part != v.meta_part_ref,
        0 <= v.partition_start,
        0 <= lbn,
        0 <= n,
        2048 * (v.partition_start + lbn) + n <= 2048 * sectors.len(),
    ensures
        span_at(
            source::reads_of(source::image_of(front, sectors, stride, rest)),
            v,
            lbn,
            n,
            part,
        ) matches Ok(b) && b.len() == n && forall|i: int|
            0 <= i < n ==> #[trigger] b[i] == sectors[v.partition_start + lbn + i / 2048][
            v.user_data_offset + i % 2048],
    decreases n,
{
    if n > 0 {
        let reads = source::reads_of(source::image_of(front, sectors, stride, rest));
        let m = if n < 2048 {
            n
        } else {
            2048
        };
        let lba = v.partition_start + lbn;
        assert(sectors[lba].len() == stride);
        a_sector_is_read_from_its_place(front, sectors, stride, rest, v.user_data_offset, lba);
        a_stretch_is_read_from_its_blocks(
            front,
            sectors,
            stride,
            rest,
            v,
            lbn + 1,
            n - m,
            part,
        );
        let head = block_at(reads, v, lbn, part)->Ok_0.take(m);
        let tail = span_at(reads, v, lbn + 1, n - m, part)->Ok_0;
        let b = head + tail;
        assert forall|i: int| 0 <= i < n implies #[trigger] b[i] == sectors[v.partition_start + lbn
            + i / 2048][v.user_data_offset + i % 2048] by {
            if i >= m {
                assert(b[i] == tail[i - m]);
                assert((i - 2048) / 2048 == i / 2048 - 1 && (i - 2048) % 2048 == i % 2048);
            }
        }
    }
}

/// A block of the virtual partition is the one that the allocation table has for it, and a
/// block of the metadata partition counts from the start of the metadata file.
pub proof fn blocks_are_found_by_their_partition(reads: Reads, v: LayoutView, lbn: int, k: int)
    requires
        0 <= lbn,
    ensures
        lbn < v.vat.len() && v.vat[lbn] == k ==> block_at(reads, v, lbn, v.vat_part_ref)
            == sector_at(reads, v.track_offset, v.user_data_offset, v.partition_start + k),
        v.vat.len() == 0 && v.meta_part_ref != 0xFFFF && lbn + v.meta_lbn_offset == k ==> block_at(
            reads,
            v,
            lbn,
            v.meta_part_ref,
        ) == sector_at(reads, v.track_offset, v.user_data_offset, v.partition_start + k),
{
}

/// The data of a file entry that holds them itself stand behind its extended attributes.
pub proof fn embedded_data_are_read(
    reads: Reads,
    v: LayoutView,
    fe: Seq<u8>,
    part: u16,
    attributes: int,
    data: Seq<u8>,
)
    requires
        fe.len() == 2048,
        fe[34] % 8 == 3,
        0 <= attributes,
        176 + attributes + data.len() <= 2048,
        bytes::has_at(fe, 0, seq![5u8, 1]),
        bytes::has_at(fe, 168, bytes::le_bytes(attributes, 4)),
        bytes::has_at(fe, 172, bytes::le_bytes(data.len() as int, 4)),
        bytes::has_at(fe, 176 + attributes, data),
    ensures
        file_data(reads, v, fe, part) == Ok::<Seq<u8>, Seq<char>>(data),
{
    lemma_entry_tag(fe);
    bytes::fields_hold_what_was_written(fe, 168, attributes);
    bytes::fields_hold_what_was_written(fe, 172, data.len() as int);
}

proof fn lemma_entry_tag(fe: Seq<u8>)
    requires
        fe.len() == 2048,
    ensures
        bytes::has_at(fe, 0, seq![5u8, 1]) ==> tag_of(fe) == 261,
        bytes::has_at(fe, 0, seq![10u8, 1]) ==> tag_of(fe) == 266,
        alloc_type(fe) == fe[34] % 8,
{
    let t = fe.subrange(0, 2);
    assert(t[0] == fe[0] && t[1] == fe[1]);
    let a = fe[34] as int;
    let b = fe[35] as int;
    assert((a + 0x100 * b) % 8 == a % 8);
}

/// The data of a file with one short or long descriptor are the stretch that it tells of, up
/// to the file's length, in either kind of file entry.
pub proof fn a_file_of_one_extent_is_its_stretch(
    reads: Reads,
    v: LayoutView,
    fe: Seq<u8>,
    part: u16,
    extended: bool,
    attributes: int,
    long: bool,
    lbn: int,
    n: int,
    size: int,
    other: int,
)
    requires
        fe.len() == 2048,
        0 <= attributes <= 0x600,
        0 < n < 0x4000_0000,
        0 <= lbn <= 0xFFFF_FFFF,
        0 < size <= n,
        0 <= other <= 0xFFFF,
        extended ==> bytes::has_at(fe, 0, seq![10u8, 1]),
        !extended ==> bytes::has_at(fe, 0, seq![5u8, 1]),
        long ==> fe[34] % 8 == 1,
        !long ==> fe[34] % 8 == 0,
        bytes::has_at(fe, 56, bytes::le_bytes(size, 8)),
        ({
            let tail: int = if extended {
                208
            } else {
                168
            };
            let at = tail + 8 + attributes;
            &&& bytes::has_at(fe, tail, bytes::le_bytes(attributes, 4))
            &&& bytes::has_at(
                fe,
                tail + 4,
                bytes::le_bytes(
                    if long {
                        16
                    } else {
                        8
                    },
                    4,
                ),
            )
            &&& bytes::has_at(fe, at, bytes::le_bytes(n, 4))
            &&& bytes::has_at(fe, at + 4, bytes::le_bytes(lbn, 4))
            &&& long ==> bytes::has_at(fe, at + 8, bytes::le_bytes(other, 2))
        }),
    ensures
        file_data(reads, v, fe, part) == span_at(
            reads,
            v,
            lbn,
            size,
            if long {
                other as u16
            } else {
                part
            },
        ),
{
    lemma_entry_tag(fe);
    let tail: int = if extended {
        208
    } else {
        168
    };
    let at = tail + 8 + attributes;
    let len: int = if long {
        16
    } else {
        8
    };
    bytes::fields_hold_what_was_written(fe, 56, size);
    bytes::fields_hold_what_was_written(fe, tail, attributes);
    bytes::fields_hold_what_was_written(fe, tail + 4, len);
    bytes::fields_hold_what_was_written(fe, at, n);
    bytes::fields_hold_what_was_written(fe, at + 4, lbn);
    bytes::fields_hold_what_was_written(fe, at + 8, other);
    assert(ads_start(fe) == at);
    assert(ads_end(fe) == at + len);
    let p = if long {
        other as u16
    } else {
        part
    };
    assert(extents_data(reads, v, fe, part, at + len, 0) == Ok::<Seq<u8>, Seq<char>>(seq![]));
    let none: Seq<u8> = seq![];
    if let Ok(d) = span_at(reads, v, lbn, size, p) {
        assert(d + none =~= d);
    }
}

/// Extents follow each other: the data that a descriptor tells of are followed by those of
/// the next one, and one that is not recorded adds nothing.
pub proof fn extents_follow_each_other(
    reads: Reads,
    v: LayoutView,
    fe: Seq<u8>,
    part: u16,
    off: int,
    left: int,
    kind: int,
    n: int,
    lbn: int,
)
    requires
        fe.len() == 2048,
        fe[34] % 8 == 0,
        0 <= off,
        off + 8 <= ads_end(fe),
        0 <= kind < 4,
        0 < n < 0x4000_0000,
        n <= left,
        0 <= lbn <= 0xFFFF_FFFF,
        bytes::has_at(fe, off, bytes::le_bytes(n + 0x4000_0000 * kind, 4)),
        bytes::has_at(fe, off + 4, bytes::le_bytes(lbn, 4)),
    ensures
        kind == 0 ==> extents_data(reads, v, fe, part, off, left) == (match span_at(
            reads,
            v,
            lbn,
            n,
            part,
        ) {
            Ok(d) => source::after(d, extents_data(reads, v, fe, part, off + 8, left - n)),
            Err(e) => Err(e),
        }),
        kind > 0 ==> extents_data(reads, v, fe, part, off, left) == extents_data(
            reads,
            v,
            fe,
            part,
            off + 8,
            left,
        ),
{
    lemma_entry_tag(fe);
    bytes::fields_hold_what_was_written(fe, off, n + 0x4000_0000 * kind);
    bytes::fields_hold_what_was_written(fe, off + 4, lbn);
}

/// An identifier of a directory names the entry that was written into it, and the next one
/// stands behind it at the next multiple of four bytes.
pub proof fn identifiers_follow_each_other(
    d: Seq<u8>,
    pos: int,
    lbn: int,
    part: int,
    implementation: int,
    name: Seq<u8>,
    next: int,
)
    requires
        0 <= pos,
        0 < name.len() <= 255,
        0 <= implementation <= 0xFFFF,
        pos + 38 + implementation + name.len() <= next <= d.len(),
        next < pos + 38 + implementation + name.len() + 4,
        (next - pos) % 4 == 0,
        bytes::has_at(d, pos, seq![1u8, 1]),
        d[pos + 18] / 8 % 2 == 0,
        d[pos + 19] == name.len(),
        0 <= lbn <= 0xFFFF_FFFF,
        0 <= part <= 0xFFFF,
        bytes::has_at(d, pos + 24, bytes::le_bytes(lbn, 4)),
        bytes::has_at(d, pos + 28, bytes::le_bytes(part, 2)),
        bytes::has_at(d, pos + 36, bytes::le_bytes(implementation, 2)),
        bytes::has_at(d, pos + 38 + implementation, name),
    ensures
        fids_of(d, pos) == seq![
            FidView {
                is_dir: d[pos + 18] / 2 % 2 == 1,
                lbn: lbn as u32,
                part_ref: part as u16,
                name: cs0_text(name),
            },
        ] + fids_of(d, next),
{
    let t = d.subrange(pos, pos + 2);
    assert(t[0] == d[pos] && t[1] == d[pos + 1]);
    bytes::fields_hold_what_was_written(d, pos + 24, lbn);
    bytes::fields_hold_what_was_written(d, pos + 28, part);
    bytes::fields_hold_what_was_written(d, pos + 36, implementation);
    assert(next_fid(d, pos) == next);
}

/// A name is of one byte for each character, or of two with the higher one first.
pub proof fn names_are_of_bytes_or_words(s: Seq<u8>, i: int)
    requires
        0 <= i,
    ensures
        s.len() > 0 && s[0] == 8 ==> cs0_text(s).len() == s.len() - 1 && (i + 1 < s.len()
            ==> cs0_text(s)[i] as u32 == s[i + 1]),
        s.len() > 0 && s[0] == 16 ==> exists|w: Seq<u16>|
            #![trigger codec::utf16_lossy(w)]
            cs0_text(s) == codec::utf16_lossy(w) && w.len() == (s.len() - 1) / 2 && (2 * i + 2
                < s.len() ==> w[i] == 256 * s[2 * i + 1] + s[2 * i + 2]),
{
    if s.len() > 0 && s[0] == 16 {
        let w = be_words(s.skip(1));
        assert(cs0_text(s) == codec::utf16_lossy(w));
        if 2 * i + 2 < s.len() {
            assert(w[i] == 256 * s[2 * i + 1] + s[2 * i + 2]);
        }
    }
}

/// A tag whose fifth byte is the sum of the others marks an anchor, and no other does.
pub proof fn an_anchor_has_a_correct_sum(reads: Reads, track_offset: int, data: int, t: Seq<u8>)
    requires
        data >= 0,
        t.len() == 16,
        source::reach(
            reads,
            track_offset + 256 * (if data == 0 {
                2048int
            } else {
                2352int
            }) + data,
            16,
        ) == Ok::<Seq<u8>, Seq<char>>(t),
    ensures
        is_udf(reads, track_offset, data) <==> t[0] == 2 && t[1] == 0 && (t[0] + t[1] + t[2] + t[3]
            + t[5] + t[6] + t[7] + t[8] + t[9] + t[10] + t[11] + t[12] + t[13] + t[14] + t[15]) % 256
            == t[4],
{
    reveal_with_fuel(tag_sum, 17);
}

/// The text of a revision shows its two numbers.
pub proof fn a_revision_is_shown(major: int, minor: int)
    requires
        0 <= major < 256,
        0 <= minor < 100,
    ensures
        version_text(256 * major + minor / 10 * 16 + minor % 10) == "UDF "@ + numbers::decimal(
            major,
        ) + "."@ + numbers::two_digits(minor),
{
    let rev = 256 * major + minor / 10 * 16 + minor % 10;
    assert(rev / 256 == major);
    assert(rev % 256 / 16 == minor / 10);
    assert(rev % 16 == minor % 10);
}

/// A volume without special partitions opens at what its anchor leads to: the descriptors
/// that the anchor places, the partition's start, the file set that the logical volume
/// places, and the root directory that the file set places.
pub proof fn a_plain_volume_is_opened(
    reads: Reads,
    len: int,
    track_offset: int,
    data: int,
    first: int,
    start: int,
    fsd_lbn: int,
    root: int,
)
    requires
        0 <= first <= 0xFFFF_FFFF,
        0 <= start <= 0xFFFF_FFFF,
        0 <= fsd_lbn <= 0xFFFF_FFFF,
        0 <= root <= 0xFFFF_FFFF,
        sector_at(reads, track_offset, data, 256) matches Ok(s) && s.len() == 2048 && bytes::has_at(
            s,
            0,
            seq![2u8, 0],
        ) && bytes::has_at(s, 16, bytes::le_bytes(6144, 4)) && bytes::has_at(
            s,
            20,
            bytes::le_bytes(first, 4),
        ),
        sector_at(reads, track_offset, data, first) matches Ok(s) && s.len() == 2048
            && bytes::has_at(s, 0, seq![5u8, 0]) && bytes::has_at(s, 188, bytes::le_bytes(start, 4)),
        sector_at(reads, track_offset, data, first + 1) matches Ok(s) && s.len() == 2048
            && bytes::has_at(s, 0, seq![6u8, 0]) && bytes::has_at(
            s,
            252,
            bytes::le_bytes(fsd_lbn, 4),
        ) && bytes::has_at(s, 256, seq![0u8, 0]) && bytes::has_at(s, 264, seq![0u8, 0, 0, 0])
            && bytes::has_at(s, 268, seq![0u8, 0, 0, 0]) && bytes::has_at(
            s,
            436,
            seq![0u8, 0, 0, 0],
        ),
        sector_at(reads, track_offset, data, first + 2) matches Ok(s) && s.len() == 2048
            && bytes::has_at(s, 0, seq![8u8, 0]),
        sector_at(reads, track_offset, data, start + fsd_lbn) matches Ok(s) && s.len() == 2048
            && bytes::has_at(s, 0, seq![0u8, 1]) && bytes::has_at(s, 404, bytes::le_bytes(root, 4))
            && bytes::has_at(s, 408, seq![0u8, 0]),
    ensures
        udf_opened(reads, len, track_offset, data) matches Ok(v) && {
            &&& v.layout.track_offset == track_offset
            &&& v.layout.user_data_offset == data
            &&& v.layout.partition_start == start
            &&& v.layout.vat.len() == 0
            &&& v.layout.meta_part_ref == 0xFFFF
            &&& v.root_icb_lbn == root
            &&& v.root_icb_part_ref == 0
        },
{
    let avdp = sector_at(reads, track_offset, data, 256)->Ok_0;
    let pd = sector_at(reads, track_offset, data, first)->Ok_0;
    let lvd = sector_at(reads, track_offset, data, first + 1)->Ok_0;
    let term = sector_at(reads, track_offset, data, first + 2)->Ok_0;
    let fsd = sector_at(reads, track_offset, data, start + fsd_lbn)->Ok_0;
    lemma_tag(avdp, 2, 0);
    lemma_tag(pd, 5, 0);
    lemma_tag(lvd, 6, 0);
    lemma_tag(term, 8, 0);
    lemma_tag(fsd, 0, 1);
    bytes::fields_hold_what_was_written(avdp, 16, 6144);
    bytes::fields_hold_what_was_written(avdp, 20, first);
    bytes::fields_hold_what_was_written(pd, 188, start);
    bytes::fields_hold_what_was_written(lvd, 252, fsd_lbn);
    lemma_blank(lvd, 256);
    lemma_blank(lvd, 264);
    lemma_blank(lvd, 268);
    lemma_blank(lvd, 436);
    bytes::fields_hold_what_was_written(fsd, 404, root);
    lemma_blank(fsd, 408);
    let none = DescView { part: None, lvd: None, name: seq![] };
    let d1 = noted(none, pd);
    let d2 = noted(d1, lvd);
    assert(described(reads, track_offset, data, first + 2, 1, d2) == Ok::<DescView, Seq<char>>(d2));
    assert(described(reads, track_offset, data, first + 1, 2, d1) == Ok::<DescView, Seq<char>>(d2));
    assert(described(reads, track_offset, data, first, 3, none) == Ok::<DescView, Seq<char>>(d2));
    let v = volume_of(reads, len, track_offset, data, start, lvd, d2.name);
    assert(block_at(reads, v.layout, fsd_lbn, 0) == sector_at(
        reads,
        track_offset,
        data,
        start + fsd_lbn,
    ));
}

proof fn lemma_tag(s: Seq<u8>, a: u8, b: u8)
    requires
        s.len() == 2048,
        bytes::has_at(s, 0, seq![a, b]),
    ensures
        tag_of(s) == a + 256 * b,
{
    let t = s.subrange(0, 2);
    assert(t[0] == s[0] && t[1] == s[1]);
}

proof fn lemma_blank(s: Seq<u8>, at: int)
    requires
        s.len() == 2048,
        0 <= at,
    ensures
        bytes::has_at(s, at, seq![0u8, 0, 0, 0]) ==> bytes::le32_at(s, at) == 0,
        bytes::has_at(s, at, seq![0u8, 0]) ==> bytes::le16_at(s, at) == 0,
{
    if bytes::has_at(s, at, seq![0u8, 0, 0, 0]) {
        let t = s.subrange(at, at + 4);
        assert(t[0] == s[at] && t[1] == s[at + 1] && t[2] == s[at + 2] && t[3] == s[at + 3]);
    }
    if bytes::has_at(s, at, seq![0u8, 0]) {
        let t = s.subrange(at, at + 2);
        assert(t[0] == s[at] && t[1] == s[at + 1]);
    }
}

/// A file two directories down is found by its path, and is what its own entry describes.
pub proof fn a_file_is_found_by_its_path(
    reads: Reads,
    v: UdfView,
    a: Seq<char>,
    b: Seq<char>,
    fa: Seq<FidView>,
    fb: Seq<FidView>,
    i: int,
    j: int,
    fe: Seq<u8>,
)
    requires
        a.len() > 0 && !a.contains('/'),
        b.len() > 0 && !b.contains('/'),
        dir_fids(reads, v.layout, v.root_icb_lbn as int, v.root_icb_part_ref) == Ok::<
            Option<Seq<FidView>>,
            Seq<char>,
        >(Some(fa)),
        0 <= i < fa.len(),
        text::alike(fa[i].name, a),
        forall|k: int| 0 <= k < i ==> !text::alike((#[trigger] fa[k]).name, a),
        dir_fids(reads, v.layout, fa[i].lbn as int, fa[i].part_ref) == Ok::<
            Option<Seq<FidView>>,
            Seq<char>,
        >(Some(fb)),
        0 <= j < fb.len(),
        text::alike(fb[j].name, b),
        forall|k: int| 0 <= k < j ==> !text::alike((#[trigger] fb[k]).name, b),
        block_at(reads, v.layout, fb[j].lbn as int, fb[j].part_ref) == Ok::<Seq<u8>, Seq<char>>(fe),
        is_file_entry(fe),
    ensures
        file_answer(reads, v, seq!['/'] + a + seq!['/'] + b) == file_data(
            reads,
            v.layout,
            fe,
            fb[j].part_ref,
        ),
{
    text::names_stand_between_slashes(a, b);
    let parts = seq![a, b];
    assert(parts[0] == a && parts[1] == b);
    lemma_fid_named(fa, 0, i, a);
    lemma_fid_named(fb, 0, j, b);
    reveal_with_fuel(resolved, 3);
    assert(place_of(reads, v, seq!['/'] + a + seq!['/'] + b) == Ok::<(u32, u16), Seq<char>>(
        (fb[j].lbn, fb[j].part_ref),
    ));
}

/// The first entry of a name is the one that is found.
proof fn lemma_fid_named(fids: Seq<FidView>, k: int, i: int, name: Seq<char>)
    requires
        0 <= k <= i < fids.len(),
        text::alike(fids[i].name, name),
        forall|j: int| 0 <= j < i ==> !text::alike((#[trigger] fids[j]).name, name),
    ensures
        fid_named(fids, k, name) == Some((fids[i].lbn, fids[i].part_ref)),
    decreases i - k,
{
    if k < i {
        assert(!text::alike(fids[k].name, name));
        lemma_fid_named(fids, k + 1, i, name);
    }
}

/// A table of virtual blocks holds what was written behind its header, or from its first byte where
/// it has none: four bytes for each block.
pub proof fn virtual_blocks_hold_what_was_written(d: Seq<u8>, head: int, i: int, block: u32)
    requires
        4 <= head <= 0xFFFF,
        0 <= i,
        head + 4 * i + 4 <= d.len(),
        bytes::has_at(d, 0, bytes::le_bytes(head, 2)),
        bytes::has_at(d, head + 4 * i, bytes::le_bytes(block as int, 4)),
    ensures
        vat_of(d, true) matches Some(v) && v.blocks.len() == (d.len() - head) / 4 && v.blocks[i]
            == block,
{
    bytes::fields_hold_what_was_written(d, 0, head);
    bytes::fields_hold_what_was_written(d, head + 4 * i, block as int);
}

/// A table of virtual blocks without a header.
pub proof fn bare_virtual_blocks_hold_what_was_written(d: Seq<u8>, i: int, block: u32)
    requires
        0 <= i,
        4 * i + 4 <= d.len(),
        bytes::has_at(d, 4 * i, bytes::le_bytes(block as int, 4)),
    ensures
        vat_of(d, false) matches Some(v) && v.blocks.len() == d.len() / 4 && v.blocks[i] == block,
{
    bytes::fields_hold_what_was_written(d, 4 * i, block as int);
}

/// The entry of the table of virtual blocks is the last one of its type among the sectors that are
/// looked at.
pub proof fn the_last_table_counts(reads: Reads, v: LayoutView, i: int, low: int, k: int, s: Seq<u8>)
    requires
        low <= k < i,
        sector_at(reads, v.track_offset, v.user_data_offset, k) == Ok::<Seq<u8>, Seq<char>>(s),
        is_vat_entry(s),
        forall|j: int|
            k < j < i ==> (#[trigger] sector_at(reads, v.track_offset, v.user_data_offset, j)
                matches Ok(t) ==> !is_vat_entry(t)),
    ensures
        last_vat_entry(reads, v, i, low) == Some(k),
    decreases i - k,
{
    let last = sector_at(reads, v.track_offset, v.user_data_offset, i - 1);
    if i - 1 > k {
        the_last_table_counts(reads, v, i - 1, low, k, s);
    }
}

/// A map of the second type tells a virtual partition by its name, and a metadata partition by its
/// own, with the block of its file at 40.
pub proof fn a_map_tells_its_partition(
    reads: Reads,
    v: LayoutView,
    len: int,
    lvd: Seq<u8>,
    off: int,
    idx: int,
    maps: int,
    icb: int,
    fsd: int,
)
    requires
        lvd.len() == 2048,
        0 <= idx <= 0xFFFF,
        0 <= off,
        lvd[off] == 2,
        0 <= maps <= 1608,
        off + 64 <= 440 + maps,
        bytes::has_at(lvd, 264, bytes::le_bytes(maps, 4)),
        0 <= icb <= 0xFFFF_FFFF,
        0 <= fsd <= 0xFFFF_FFFF,
        bytes::has_at(lvd, off + 40, bytes::le_bytes(icb, 4)),
        bytes::has_at(lvd, 252, bytes::le_bytes(fsd, 4)),
    ensures
        bytes::spells(lvd, off + 5, "*UDF Metadata Partition"@) && meta_start(
            reads,
            v,
            len,
            icb,
            fsd,
        ) is Some ==> mapped(reads, v, len, lvd, off, idx) == (LayoutView {
            meta_lbn_offset: meta_start(reads, v, len, icb, fsd)->0,
            meta_part_ref: idx as u16,
            ..v
        }),
        bytes::spells(lvd, off + 5, "*UDF Virtual Partition"@) ==> mapped(
            reads,
            v,
            len,
            lvd,
            off,
            idx,
        ) == (LayoutView { vat_part_ref: idx as u16, ..v }),
{
    bytes::fields_hold_what_was_written(lvd, 264, maps);
    bytes::fields_hold_what_was_written(lvd, off + 40, icb);
    bytes::fields_hold_what_was_written(lvd, 252, fsd);
    reveal_strlit("*UDF Metadata Partition");
    reveal_strlit("*UDF Virtual Partition");
    assert("*UDF Metadata Partition"@[5] == 'M' && "*UDF Virtual Partition"@[5] == 'V');
}

} // verus!
