//! WIA and RVZ: compressed images of GameCube and Wii discs.
//!
//! The disc is described by ranges of it, each cut into chunks; a table of
//! groups says where the compressed bytes of each chunk stand. RVZ adds
//! Zstandard, and stores the disc's padding as the seed that generates it.
use vstd::prelude::*;
use vstd::slice::*;
use crate::bytes;
use crate::bytes::{
    bytes_at,
    cut,
    patch,
    read_u16_be,
    read_u32_be,
    read_u64_be,
    resize,
    write_le,
    zeroes,
};
use crate::codec;
use crate::codec::{
    bzip2_decode,
    limit_block,
    lzma2_decode,
    lzma_decode,
    zstd_decompress,
};
use crate::junk;
use crate::junk::make_junk;
use crate::numbers;
use crate::numbers::decimal_string;
use crate::source;
use crate::source::{label_error, read_labelled, ByteSource, Reads};
use crate::text::{join2, join3};

verus! {

pub const HEADER2_MIN: u32 = 0xDC;

pub const COMPRESSION_NONE: u32 = 0;

pub const COMPRESSION_PURGE: u32 = 1;

pub const COMPRESSION_BZIP2: u32 = 2;

pub const COMPRESSION_LZMA: u32 = 3;

pub const COMPRESSION_LZMA2: u32 = 4;

pub const COMPRESSION_ZSTD: u32 = 5;

/// A sector of a Wii partition.
pub const WII_SECTOR: u32 = 0x8000;

/// The part of a sector that is left without its hashes.
pub const WII_SECTOR_DATA: u32 = 0x7C00;

/// One exception: an offset and a digest.
pub const EXCEPTION_SIZE: u32 = 22;

/// The largest exception list.
pub const EXCEPTION_SLACK: u64 = 1_441_772;

// ── Decoding ────────────────────────────────────────────────────────────────

/// The chunk that the segments of `input` from `p` on leave, laid over `out`:
/// each is an offset, a length and as many bytes. The last twenty bytes of the
/// input are a digest.
pub open spec fn purge_from(input: Seq<u8>, p: int, out: Seq<u8>) -> Result<Seq<u8>, Seq<char>>
    decreases input.len() - p,
{
    if p < 0 || p + 8 > input.len() - 20 {
        Ok(out)
    } else {
        let offset = bytes::be32_at(input, p);
        let size = bytes::be32_at(input, p + 4);
        if p + 8 + size > input.len() || offset + size > out.len() {
            Err("WIA: PURGE segment runs outside the chunk"@)
        } else {
            purge_from(
                input,
                p + 8 + size,
                bytes::patched(out, offset, input.subrange(p + 8, p + 8 + size)),
            )
        }
    }
}

/// A chunk of `expected` bytes of which only the segments that are not zero are
/// stored.
#[verifier::loop_isolation(false)]
pub fn purge_decode(input: &[u8], expected: u64) -> (r: Result<Vec<u8>, String>)
    ensures
        source::outcome(r) == purge_from(input@, 0, bytes::zeros(expected as int)),
{
    let len: usize = input.len();
    let mut out: Vec<u8> = zeroes(expected);
    let mut p: usize = 0;
    let ghost goal = purge_from(input@, 0, out@);
    while len >= 28 && p <= len - 28
        invariant
            len == input@.len(),
            out@.len() == expected,
            p <= len,
            purge_from(input@, p as int, out@) == goal,
        decreases len - p,
    {
        let offset: u32 = read_u32_be(input, p);
        let size: u32 = read_u32_be(input, p + 4);
        let room: u64 = (len - p - 8) as u64;
        if size as u64 > room || offset as u64 + size as u64 > expected {
            return Err("WIA: PURGE segment runs outside the chunk".to_owned());
        }
        let from: usize = p + 8;
        let to: usize = from + size as usize;
        patch(&mut out, offset as usize, slice_subrange(input, from, to));
        p = to;
    }
    Ok(out)
}

/// The header that an LZMA stream begins with, rebuilt from the properties that
/// the image records once, and the length of what is compressed.
pub open spec fn lzma_input(properties: Seq<u8>, expected: int, input: Seq<u8>) -> Seq<u8> {
    properties.take(5) + bytes::le_bytes(expected, 8) + input
}

/// What a chunk decompresses to.
pub open spec fn decompressed(
    method: u32,
    properties: Seq<u8>,
    input: Seq<u8>,
    expected: int,
) -> Result<Seq<u8>, Seq<char>> {
    if method == COMPRESSION_NONE {
        Ok(input)
    } else if method == COMPRESSION_ZSTD {
        source::labelled(
            codec::zstd_block(input, codec::block_limit(expected)),
            "WIA: zstd chunk failed: "@,
        )
    } else if method == COMPRESSION_BZIP2 {
        source::labelled(codec::bzip2_stream(input), "WIA: bzip2 chunk failed: "@)
    } else if method == COMPRESSION_LZMA {
        if properties.len() < 5 {
            Err("WIA: LZMA properties missing from the header"@)
        } else {
            source::labelled(
                codec::lzma_stream(lzma_input(properties, expected, input)),
                "WIA: LZMA chunk failed: "@,
            )
        }
    } else if method == COMPRESSION_LZMA2 {
        source::labelled(codec::lzma2_stream(input), "WIA: LZMA2 chunk failed: "@)
    } else if method == COMPRESSION_PURGE {
        purge_from(input, 0, bytes::zeros(expected))
    } else {
        Err("WIA: unsupported compression method "@ + numbers::decimal(method as int))
    }
}

/// Decompresses a chunk.
pub fn decompress(method: u32, compressor_data: &[u8], input: &[u8], expected: u64) -> (r: Result<
    Vec<u8>,
    String,
>)
    ensures
        source::outcome(r) == decompressed(method, compressor_data@, input@, expected as int),
{
    if method == COMPRESSION_NONE {
        Ok(slice_to_vec(input))
    } else if method == COMPRESSION_ZSTD {
        label_error(zstd_decompress(input, limit_block(expected)), "WIA: zstd chunk failed: ")
    } else if method == COMPRESSION_BZIP2 {
        label_error(bzip2_decode(input), "WIA: bzip2 chunk failed: ")
    } else if method == COMPRESSION_LZMA {
        if compressor_data.len() < 5 {
            return Err("WIA: LZMA properties missing from the header".to_owned());
        }
        let mut stream: Vec<u8> = cut(compressor_data, 0, 5);
        let mut size: Vec<u8> = write_le(expected, 8);
        let mut rest: Vec<u8> = slice_to_vec(input);
        stream.append(&mut size);
        stream.append(&mut rest);
        assert(stream@ =~= lzma_input(compressor_data@, expected as int, input@));
        label_error(lzma_decode(stream.as_slice()), "WIA: LZMA chunk failed: ")
    } else if method == COMPRESSION_LZMA2 {
        label_error(lzma2_decode(input), "WIA: LZMA2 chunk failed: ")
    } else if method == COMPRESSION_PURGE {
        purge_decode(input, expected)
    } else {
        let n: String = decimal_string(method as u64);
        Err(join2("WIA: unsupported compression method ", n.as_str()))
    }
}

/// What the packed runs from `p` on unpack to, after `out`: each is a length,
/// with its top bit set where a seed of 68 bytes stands for padding.
pub open spec fn unpacked_from(packed: Seq<u8>, p: int, out: Seq<u8>, out_len: int) -> Result<
    Seq<u8>,
    Seq<char>,
>
    decreases packed.len() - p,
{
    if p < 0 || p + 4 > packed.len() || out.len() >= out_len {
        Ok(bytes::resized(out, out_len))
    } else {
        let word = bytes::be32_at(packed, p);
        let size = word % 0x8000_0000;
        if word >= 0x8000_0000 {
            if p + 72 > packed.len() {
                Err("WIA: RVZ junk seed runs past the end of the chunk"@)
            } else {
                unpacked_from(
                    packed,
                    p + 72,
                    out + junk::junk(packed.subrange(p + 4, p + 72), size),
                    out_len,
                )
            }
        } else if p + 4 + size > packed.len() {
            Err("WIA: RVZ packed run runs past the end of the chunk"@)
        } else {
            unpacked_from(
                packed,
                p + 4 + size,
                out + packed.subrange(p + 4, p + 4 + size),
                out_len,
            )
        }
    }
}

/// Undoes the packing of a chunk of `out_len` bytes.
#[verifier::loop_isolation(false)]
pub fn unpack(packed: &[u8], out_len: u64) -> (r: Result<Vec<u8>, String>)
    ensures
        source::outcome(r) == unpacked_from(packed@, 0, seq![], out_len as int),
{
    let len: usize = packed.len();
    let mut out: Vec<u8> = Vec::new();
    let mut p: usize = 0;
    assert(out@ =~= seq![]);
    let ghost goal = unpacked_from(packed@, 0, seq![], out_len as int);
    while len - p >= 4 && (out.len() as u64) < out_len
        invariant
            len == packed@.len(),
            p <= len,
            unpacked_from(packed@, p as int, out@, out_len as int) == goal,
        decreases len - p,
    {
        let word: u32 = read_u32_be(packed, p);
        let size: u32 = word % 0x8000_0000;
        if word >= 0x8000_0000 {
            if len - p < 72 {
                return Err("WIA: RVZ junk seed runs past the end of the chunk".to_owned());
            }
            let mut run: Vec<u8> = make_junk(slice_subrange(packed, p + 4, p + 72), size as u64);
            out.append(&mut run);
            p += 72;
        } else {
            if size as u64 > (len - p - 4) as u64 {
                return Err("WIA: RVZ packed run runs past the end of the chunk".to_owned());
            }
            let to: usize = p + 4 + size as usize;
            let mut run: Vec<u8> = cut(packed, p + 4, to);
            out.append(&mut run);
            p = to;
        }
    }
    Ok(resize(out, out_len))
}

// ── Tables ──────────────────────────────────────────────────────────────────

/// One half of a partition: a run of sectors and the first of the groups that
/// hold them.
#[derive(Clone, Copy)]
pub struct PartitionSegment {
    pub sectors: u32,
    pub group_index: u32,
}

/// A Wii partition: its two segments follow each other.
#[derive(Clone, Copy)]
pub struct Partition {
    pub first: PartitionSegment,
    pub second: PartitionSegment,
}

/// A range of the disc and the groups that hold it.
#[derive(Clone, Copy)]
pub struct RawDataEntry {
    pub disc_offset: u64,
    pub disc_size: u128,
    pub group_index: u32,
    pub group_count: u32,
}

/// Where the bytes of a group stand.
#[derive(Clone, Copy)]
pub struct GroupEntry {
    pub data_offset4: u32,
    pub data_size: u32,
    pub compressed: bool,
    pub packed_size: u32,
}

/// What the headers and tables of an image say.
pub struct WiaTables {
    pub compression: u32,
    pub compressor_data: Vec<u8>,
    pub chunk_size: u32,
    pub disc_size: u64,
    /// The first bytes of the disc, which no group holds.
    pub disc_head: Vec<u8>,
    pub partitions: Vec<Partition>,
    pub raw_data: Vec<RawDataEntry>,
    pub groups: Vec<GroupEntry>,
}

/// The contents of the headers and tables of an image.
#[verifier::ext_equal]
pub struct WiaView {
    pub compression: u32,
    pub compressor_data: Seq<u8>,
    pub chunk_size: u32,
    pub disc_size: u64,
    pub disc_head: Seq<u8>,
    pub partitions: Seq<Partition>,
    pub raw_data: Seq<RawDataEntry>,
    pub groups: Seq<GroupEntry>,
}

impl View for WiaTables {
    type V = WiaView;

    open spec fn view(&self) -> WiaView {
        WiaView {
            compression: self.compression,
            compressor_data: self.compressor_data@,
            chunk_size: self.chunk_size,
            disc_size: self.disc_size,
            disc_head: self.disc_head@,
            partitions: self.partitions@,
            raw_data: self.raw_data@,
            groups: self.groups@,
        }
    }
}

/// The partition that stands at `at` in the partition table.
pub open spec fn partition_at(t: Seq<u8>, at: int) -> Partition {
    Partition {
        first: PartitionSegment {
            sectors: bytes::be32_at(t, at + 20) as u32,
            group_index: bytes::be32_at(t, at + 24) as u32,
        },
        second: PartitionSegment {
            sectors: bytes::be32_at(t, at + 36) as u32,
            group_index: bytes::be32_at(t, at + 40) as u32,
        },
    }
}

/// The `n` partitions of a table whose entries are `size` bytes long.
pub open spec fn partitions_of(t: Seq<u8>, n: int, size: int) -> Seq<Partition> {
    Seq::new(n as nat, |i: int| partition_at(t, i * size))
}

/// The range number `i` of the table of ranges. The first one begins where the
/// sector does in which it is recorded to begin.
pub open spec fn raw_entry_at(t: Seq<u8>, i: int) -> RawDataEntry {
    let offset = bytes::be64_at(t, 24 * i);
    let lead = if i == 0 {
        offset % 0x8000
    } else {
        0
    };
    RawDataEntry {
        disc_offset: (offset - lead) as u64,
        disc_size: (bytes::be64_at(t, 24 * i + 8) + lead) as u128,
        group_index: bytes::be32_at(t, 24 * i + 16) as u32,
        group_count: bytes::be32_at(t, 24 * i + 20) as u32,
    }
}

/// The group number `i` of the table of groups.
pub open spec fn group_at(t: Seq<u8>, i: int, is_rvz: bool) -> GroupEntry {
    if is_rvz {
        let size = bytes::be32_at(t, 12 * i + 4);
        GroupEntry {
            data_offset4: bytes::be32_at(t, 12 * i) as u32,
            data_size: (size % 0x8000_0000) as u32,
            compressed: size >= 0x8000_0000,
            packed_size: bytes::be32_at(t, 12 * i + 8) as u32,
        }
    } else {
        GroupEntry {
            data_offset4: bytes::be32_at(t, 8 * i) as u32,
            data_size: bytes::be32_at(t, 8 * i + 4) as u32,
            compressed: true,
            packed_size: 0,
        }
    }
}

/// The bytes of a table that is stored compressed; one without a place is empty.
pub open spec fn table_at(
    reads: Reads,
    method: u32,
    properties: Seq<u8>,
    off: int,
    size: int,
    expected: int,
    label: Seq<char>,
) -> Result<Seq<u8>, Seq<char>> {
    if size == 0 || off == 0 {
        Ok(seq![])
    } else {
        match source::labelled(reads(off, size), label) {
            Err(e) => Err(e),
            Ok(raw) => decompressed(method, properties, raw, expected),
        }
    }
}

/// The partition table, which is stored plain.
pub open spec fn partition_table(reads: Reads, h2: Seq<u8>) -> Result<Seq<Partition>, Seq<char>> {
    let n = bytes::be32_at(h2, 0x90);
    let size = bytes::be32_at(h2, 0x94);
    if n == 0 || size < 48 {
        Ok(seq![])
    } else {
        match source::labelled(reads(bytes::be64_at(h2, 0x98), n * size), "WIA partition table: "@) {
            Err(e) => Err(e),
            Ok(t) => Ok(partitions_of(t, n, size)),
        }
    }
}

/// The compressor's properties in the second header.
pub open spec fn properties_of(h2: Seq<u8>) -> Seq<u8> {
    h2.subrange(
        0xD5,
        0xD5 + (if h2[0xD4] < 7 {
            h2[0xD4] as int
        } else {
            7
        }),
    )
}

/// The tables that the second header leads to.
pub open spec fn tables_of(reads: Reads, h2: Seq<u8>, disc_size: u64, is_rvz: bool) -> Result<
    WiaView,
    Seq<char>,
> {
    let method = bytes::be32_at(h2, 4) as u32;
    let properties = properties_of(h2);
    let n_raw = bytes::be32_at(h2, 0xB4);
    let n_groups = bytes::be32_at(h2, 0xC4);
    let group_size = if is_rvz {
        12int
    } else {
        8int
    };
    match partition_table(reads, h2) {
        Err(e) => Err(e),
        Ok(partitions) => match table_at(
            reads,
            method,
            properties,
            bytes::be64_at(h2, 0xB8),
            bytes::be32_at(h2, 0xC0),
            n_raw * 24,
            "WIA raw data entries: "@,
        ) {
            Err(e) => Err(e),
            Ok(raw) => match table_at(
                reads,
                method,
                properties,
                bytes::be64_at(h2, 0xC8),
                bytes::be32_at(h2, 0xD0),
                n_groups * group_size,
                "WIA group entries: "@,
            ) {
                Err(e) => Err(e),
                Ok(groups) => if raw.len() < n_raw * 24 {
                    Err("WIA: raw data table is shorter than its entry count"@)
                } else if groups.len() < n_groups * group_size {
                    Err("WIA: group table is shorter than its entry count"@)
                } else {
                    Ok(
                        WiaView {
                            compression: method,
                            compressor_data: properties,
                            chunk_size: bytes::be32_at(h2, 0x0C) as u32,
                            disc_size,
                            disc_head: h2.subrange(0x10, 0x90),
                            partitions,
                            raw_data: Seq::new(n_raw as nat, |i: int| raw_entry_at(raw, i)),
                            groups: Seq::new(n_groups as nat, |i: int| group_at(groups, i, is_rvz)),
                        },
                    )
                },
            },
        },
    }
}

/// The image that a source holds.
pub open spec fn wia_opened(reads: Reads) -> Result<WiaView, Seq<char>> {
    match source::labelled(reads(0, 0x48), "WIA header: "@) {
        Err(e) => Err(e),
        Ok(h1) => {
            let is_rvz = bytes::has_at(h1, 0, seq![0x52u8, 0x56, 0x5A, 0x01]);
            if !is_rvz && !bytes::has_at(h1, 0, seq![0x57u8, 0x49, 0x41, 0x01]) {
                Err("Not a WIA or RVZ file"@)
            } else if bytes::be32_at(h1, 0x0C) < HEADER2_MIN {
                Err(
                    "WIA: header2 is "@ + numbers::decimal(bytes::be32_at(h1, 0x0C))
                        + " bytes, expected at least 220"@,
                )
            } else {
                match source::labelled(reads(0x48, bytes::be32_at(h1, 0x0C)), "WIA header2: "@) {
                    Err(e) => Err(e),
                    Ok(h2) => if bytes::be32_at(h2, 0x0C) == 0 {
                        Err("WIA: chunk size is zero"@)
                    } else {
                        tables_of(reads, h2, bytes::be64_at(h1, 0x24) as u64, is_rvz)
                    },
                }
            }
        },
    }
}

proof fn lemma_area(a: u64, b: u64)
    requires
        a <= 0xffff_ffff,
        b <= 0xffff_ffff,
    ensures
        a * b <= u64::MAX,
{
    assert(a * b <= 0xffff_ffff * 0xffff_ffff) by (nonlinear_arith)
        requires
            a <= 0xffff_ffff,
            b <= 0xffff_ffff,
    ;
}

proof fn lemma_slot(i: int, n: int, size: int)
    requires
        0 <= i < n,
        48 <= size,
    ensures
        0 <= i * size,
        i * size + size <= n * size,
        (i + 1) * size == i * size + size,
{
    assert(0 <= i * size && i * size + size <= n * size && (i + 1) * size == i * size + size)
        by (nonlinear_arith)
        requires
            0 <= i < n,
            48 <= size,
    ;
}

/// Reads the partition table.
#[verifier::loop_isolation(false)]
fn read_partitions<S: ByteSource>(source: &mut S, h2: &[u8]) -> (r: Result<Vec<Partition>, String>)
    requires
        h2@.len() >= HEADER2_MIN,
    ensures
        final(source).reads() == old(source).reads(),
        match r {
            Ok(v) => partition_table(old(source).reads(), h2@) == Ok::<Seq<Partition>, Seq<char>>(
                v@,
            ),
            Err(e) => partition_table(old(source).reads(), h2@) == Err::<Seq<Partition>, Seq<char>>(
                e@,
            ),
        },
{
    let n: u32 = read_u32_be(h2, 0x90);
    let size: u32 = read_u32_be(h2, 0x94);
    let mut out: Vec<Partition> = Vec::new();
    assert(out@ =~= seq![]);
    if n == 0 || size < 48 {
        return Ok(out);
    }
    proof {
        lemma_area(n as u64, size as u64);
    }
    let total: u64 = n as u64 * size as u64;
    let t: Vec<u8> = match read_labelled(
        source,
        read_u64_be(h2, 0x98),
        total,
        "WIA partition table: ",
    ) {
        Ok(b) => b,
        Err(e) => {
            return Err(e);
        },
    };
    let mut i: u32 = 0;
    let mut at: u64 = 0;
    while i < n
        invariant
            i <= n,
            t@.len() == n * size,
            at == i * size,
            out@.len() == i,
            forall|j: int|
                0 <= j < i ==> out@[j] == #[trigger] partitions_of(t@, n as int, size as int)[j],
        decreases n - i,
    {
        proof {
            lemma_slot(i as int, n as int, size as int);
        }
        assert(at + 48 <= t.len());
        let base: usize = at as usize;
        let p: Partition = Partition {
            first: PartitionSegment {
                sectors: read_u32_be(t.as_slice(), base + 20),
                group_index: read_u32_be(t.as_slice(), base + 24),
            },
            second: PartitionSegment {
                sectors: read_u32_be(t.as_slice(), base + 36),
                group_index: read_u32_be(t.as_slice(), base + 40),
            },
        };
        assert(partitions_of(t@, n as int, size as int)[i as int] == p);
        out.push(p);
        at += size as u64;
        i += 1;
    }
    assert(out@ =~= partitions_of(t@, n as int, size as int));
    Ok(out)
}

/// Reads a table that is stored compressed.
fn read_table<S: ByteSource>(
    source: &mut S,
    method: u32,
    properties: &[u8],
    off: u64,
    size: u32,
    expected: u64,
    label: &str,
) -> (r: Result<Vec<u8>, String>)
    ensures
        final(source).reads() == old(source).reads(),
        source::outcome(r) == table_at(
            old(source).reads(),
            method,
            properties@,
            off as int,
            size as int,
            expected as int,
            label@,
        ),
{
    if size == 0 || off == 0 {
        let none: Vec<u8> = Vec::new();
        assert(none@ =~= seq![]);
        return Ok(none);
    }
    match read_labelled(source, off, size as u64, label) {
        Err(e) => Err(e),
        Ok(raw) => decompress(method, properties, raw.as_slice(), expected),
    }
}

/// The ranges of the disc.
fn parse_raw_data(t: &[u8], n: u32) -> (r: Vec<RawDataEntry>)
    requires
        t@.len() >= n * 24,
    ensures
        r@ == Seq::new(n as nat, |i: int| raw_entry_at(t@, i)),
{
    let len: usize = t.len();
    let mut out: Vec<RawDataEntry> = Vec::new();
    let mut i: u32 = 0;
    while i < n
        invariant
            i <= n,
            len == t@.len(),
            t@.len() >= n * 24,
            out@ == Seq::new(i as nat, |j: int| raw_entry_at(t@, j)),
        decreases n - i,
    {
        let at: usize = 24 * (i as usize);
        let offset: u64 = read_u64_be(t, at);
        let lead: u64 = if i == 0 {
            offset % 0x8000
        } else {
            0
        };
        let e: RawDataEntry = RawDataEntry {
            disc_offset: offset - lead,
            disc_size: read_u64_be(t, at + 8) as u128 + lead as u128,
            group_index: read_u32_be(t, at + 16),
            group_count: read_u32_be(t, at + 20),
        };
        out.push(e);
        assert(e == raw_entry_at(t@, i as int));
        i += 1;
        assert(out@ =~= Seq::new(i as nat, |j: int| raw_entry_at(t@, j)));
    }
    out
}

/// The groups.
fn parse_groups(t: &[u8], n: u32, is_rvz: bool) -> (r: Vec<GroupEntry>)
    requires
        t@.len() >= n * (if is_rvz {
            12int
        } else {
            8int
        }),
    ensures
        r@ == Seq::new(n as nat, |i: int| group_at(t@, i, is_rvz)),
{
    let len: usize = t.len();
    let mut out: Vec<GroupEntry> = Vec::new();
    let mut i: u32 = 0;
    while i < n
        invariant
            i <= n,
            len == t@.len(),
            t@.len() >= n * (if is_rvz {
                12int
            } else {
                8int
            }),
            out@ == Seq::new(i as nat, |j: int| group_at(t@, j, is_rvz)),
        decreases n - i,
    {
        let g: GroupEntry = if is_rvz {
            let at: usize = 12 * (i as usize);
            let size: u32 = read_u32_be(t, at + 4);
            GroupEntry {
                data_offset4: read_u32_be(t, at),
                data_size: size % 0x8000_0000,
                compressed: size >= 0x8000_0000,
                packed_size: read_u32_be(t, at + 8),
            }
        } else {
            let at: usize = 8 * (i as usize);
            GroupEntry {
                data_offset4: read_u32_be(t, at),
                data_size: read_u32_be(t, at + 4),
                compressed: true,
                packed_size: 0,
            }
        };
        out.push(g);
        assert(g == group_at(t@, i as int, is_rvz));
        i += 1;
        assert(out@ =~= Seq::new(i as nat, |j: int| group_at(t@, j, is_rvz)));
    }
    out
}

/// Reads the tables that the second header leads to.
fn read_tables<S: ByteSource>(source: &mut S, h2: &[u8], disc_size: u64, is_rvz: bool) -> (r: Result<
    WiaTables,
    String,
>)
    requires
        h2@.len() >= HEADER2_MIN,
    ensures
        final(source).reads() == old(source).reads(),
        match r {
            Ok(t) => tables_of(old(source).reads(), h2@, disc_size, is_rvz) == Ok::<
                WiaView,
                Seq<char>,
            >(t@) && t.disc_head@.len() == 0x80,
            Err(e) => tables_of(old(source).reads(), h2@, disc_size, is_rvz) == Err::<
                WiaView,
                Seq<char>,
            >(e@),
        },
{
    let method: u32 = read_u32_be(h2, 4);
    let n: usize = if h2[0xD4] < 7 {
        h2[0xD4] as usize
    } else {
        7
    };
    let properties: Vec<u8> = cut(h2, 0xD5, 0xD5 + n);
    let partitions: Vec<Partition> = match read_partitions(source, h2) {
        Ok(v) => v,
        Err(e) => {
            return Err(e);
        },
    };
    let n_raw: u32 = read_u32_be(h2, 0xB4);
    let n_groups: u32 = read_u32_be(h2, 0xC4);
    let group_size: u64 = if is_rvz {
        12
    } else {
        8
    };
    let group_bytes: u64 = if is_rvz {
        n_groups as u64 * 12
    } else {
        n_groups as u64 * 8
    };
    let raw: Vec<u8> = match read_table(
        source,
        method,
        properties.as_slice(),
        read_u64_be(h2, 0xB8),
        read_u32_be(h2, 0xC0),
        n_raw as u64 * 24,
        "WIA raw data entries: ",
    ) {
        Ok(v) => v,
        Err(e) => {
            return Err(e);
        },
    };
    let groups: Vec<u8> = match read_table(
        source,
        method,
        properties.as_slice(),
        read_u64_be(h2, 0xC8),
        read_u32_be(h2, 0xD0),
        group_bytes,
        "WIA group entries: ",
    ) {
        Ok(v) => v,
        Err(e) => {
            return Err(e);
        },
    };
    if (raw.len() as u64) < n_raw as u64 * 24 {
        return Err("WIA: raw data table is shorter than its entry count".to_owned());
    }
    if (groups.len() as u64) < group_bytes {
        return Err("WIA: group table is shorter than its entry count".to_owned());
    }
    Ok(
        WiaTables {
            compression: method,
            compressor_data: properties,
            chunk_size: read_u32_be(h2, 0x0C),
            disc_size,
            disc_head: cut(h2, 0x10, 0x90),
            partitions,
            raw_data: parse_raw_data(raw.as_slice(), n_raw),
            groups: parse_groups(groups.as_slice(), n_groups, is_rvz),
        },
    )
}

// ── Groups ──────────────────────────────────────────────────────────────────

/// The error for a group that the table does not have.
pub open spec fn no_group(index: int) -> Seq<char> {
    "WIA: group "@ + numbers::decimal(index) + " is out of range"@
}

/// The bytes of a group once decompressed; `target` is the length expected of
/// them.
pub open spec fn stage_of(reads: Reads, v: WiaView, g: GroupEntry, target: int) -> Result<
    Seq<u8>,
    Seq<char>,
> {
    match source::labelled(reads(4 * g.data_offset4, g.data_size as int), "WIA read: "@) {
        Err(e) => Err(e),
        Ok(raw) => if g.compressed {
            decompressed(v.compression, v.compressor_data, raw, target)
        } else {
            Ok(raw)
        },
    }
}

/// A block of `len` bytes from what a group decompresses to: packed groups are
/// unpacked first.
pub open spec fn block_of(packed: bool, body: Seq<u8>, len: int) -> Result<Seq<u8>, Seq<char>> {
    if packed {
        unpacked_from(body, 0, seq![], len)
    } else {
        Ok(bytes::resized(body, len))
    }
}

/// The chunk of `len` bytes that a group holds; one without bytes is all zeros.
pub open spec fn chunk_of(reads: Reads, v: WiaView, index: int, len: int) -> Result<
    Seq<u8>,
    Seq<char>,
> {
    if index >= v.groups.len() {
        Err(no_group(index))
    } else {
        let g = v.groups[index];
        if g.data_size == 0 {
            Ok(bytes::zeros(len))
        } else {
            match stage_of(
                reads,
                v,
                g,
                if g.packed_size != 0 {
                    g.packed_size as int
                } else {
                    len
                },
            ) {
                Err(e) => Err(e),
                Ok(stage) => block_of(g.packed_size != 0, stage, len),
            }
        }
    }
}

/// Where the bytes behind `lists` exception lists begin, from `at` on.
pub open spec fn past_lists(stage: Seq<u8>, lists: int, at: int) -> Result<int, Seq<char>>
    decreases lists,
{
    if lists <= 0 {
        if at > stage.len() {
            Err("WIA: exception list is longer than the group"@)
        } else {
            Ok(at)
        }
    } else if at + 2 > stage.len() {
        Err("WIA: exception list runs past the end of the group"@)
    } else {
        past_lists(stage, lists - 1, at + 2 + 22 * bytes::be16_at(stage, at))
    }
}

/// How many exception lists a group begins with: one for each two megabytes of
/// its chunk, and at least one.
pub open spec fn list_count(chunk_size: u32) -> int {
    if chunk_size < 0x20_0000 {
        1
    } else {
        chunk_size as int / 0x20_0000
    }
}

/// The `payload` bytes of partition data that a group holds.
pub open spec fn partition_chunk_of(reads: Reads, v: WiaView, index: int, payload: int) -> Result<
    Seq<u8>,
    Seq<char>,
> {
    if index >= v.groups.len() {
        Err(no_group(index))
    } else {
        let g = v.groups[index];
        if g.data_size == 0 {
            Ok(bytes::zeros(payload))
        } else {
            match stage_of(
                reads,
                v,
                g,
                EXCEPTION_SLACK + (if g.packed_size != 0 {
                    g.packed_size as int
                } else {
                    payload
                }),
            ) {
                Err(e) => Err(e),
                Ok(stage) => match past_lists(stage, list_count(v.chunk_size), 0) {
                    Err(e) => Err(e),
                    Ok(at) => block_of(g.packed_size != 0, stage.skip(at), payload),
                },
            }
        }
    }
}

/// What a group holds: partition data, or a range of the disc.
pub open spec fn group_data(reads: Reads, v: WiaView, part: bool, index: int, len: int) -> Result<
    Seq<u8>,
    Seq<char>,
> {
    if part {
        partition_chunk_of(reads, v, index, len)
    } else {
        chunk_of(reads, v, index, len)
    }
}

proof fn lemma_unpacked(packed: Seq<u8>, p: int, out: Seq<u8>, out_len: int)
    requires
        0 <= out_len,
    ensures
        unpacked_from(packed, p, out, out_len) matches Ok(b) ==> b.len() == out_len,
    decreases packed.len() - p,
{
    if p < 0 || p + 4 > packed.len() || out.len() >= out_len {
    } else {
        let word = bytes::be32_at(packed, p);
        let size = word % 0x8000_0000;
        if word >= 0x8000_0000 {
            if p + 72 <= packed.len() {
                lemma_unpacked(
                    packed,
                    p + 72,
                    out + junk::junk(packed.subrange(p + 4, p + 72), size),
                    out_len,
                );
            }
        } else if p + 4 + size <= packed.len() {
            lemma_unpacked(
                packed,
                p + 4 + size,
                out + packed.subrange(p + 4, p + 4 + size),
                out_len,
            );
        }
    }
}

/// What a group holds has the length that is asked for.
pub proof fn groups_are_whole(reads: Reads, v: WiaView, part: bool, index: int, len: int)
    requires
        0 <= index,
        0 <= len,
    ensures
        group_data(reads, v, part, index, len) matches Ok(b) ==> b.len() == len,
{
    if 0 <= index < v.groups.len() {
        let g = v.groups[index];
        if part {
            let target = EXCEPTION_SLACK + (if g.packed_size != 0 {
                g.packed_size as int
            } else {
                len
            });
            if let Ok(stage) = stage_of(reads, v, g, target) {
                if let Ok(at) = past_lists(stage, list_count(v.chunk_size), 0) {
                    lemma_unpacked(stage.skip(at), 0, seq![], len);
                }
            }
        } else {
            let target = if g.packed_size != 0 {
                g.packed_size as int
            } else {
                len
            };
            if let Ok(stage) = stage_of(reads, v, g, target) {
                lemma_unpacked(stage, 0, seq![], len);
            }
        }
    }
}

/// Steps over the exception lists of a group.
#[verifier::loop_isolation(false)]
pub fn skip_exception_lists(stage: &[u8], lists: u32) -> (r: Result<usize, String>)
    ensures
        match r {
            Ok(at) => past_lists(stage@, lists as int, 0) == Ok::<int, Seq<char>>(at as int) && at
                <= stage@.len(),
            Err(e) => past_lists(stage@, lists as int, 0) == Err::<int, Seq<char>>(e@),
        },
{
    let len: usize = stage.len();
    let mut at: u128 = 0;
    let mut left: u32 = lists;
    let ghost goal = past_lists(stage@, lists as int, 0);
    while left > 0
        invariant
            past_lists(stage@, left as int, at as int) == goal,
            at <= len + 2 + 22 * 0xffff,
            len == stage@.len(),
        decreases left,
    {
        if at > len as u128 || len as u128 - at < 2 {
            return Err("WIA: exception list runs past the end of the group".to_owned());
        }
        let count: u16 = read_u16_be(stage, at as usize);
        at += 2 + 22 * (count as u128);
        left -= 1;
    }
    if at > len as u128 {
        return Err("WIA: exception list is longer than the group".to_owned());
    }
    Ok(at as usize)
}

// ── Reading ─────────────────────────────────────────────────────────────────

/// The first range of the disc from `k` on that holds the offset `pos`.
pub open spec fn range_at(raw: Seq<RawDataEntry>, k: int, pos: int) -> Option<RawDataEntry>
    decreases raw.len() - k,
{
    if k < 0 || k >= raw.len() {
        None
    } else if raw[k].disc_offset <= pos < raw[k].disc_offset + raw[k].disc_size {
        Some(raw[k])
    } else {
        range_at(raw, k + 1, pos)
    }
}

/// The group that holds an offset of the disc, where in its chunk that offset
/// is, and how long the chunk is: the last one of a range may be short.
pub open spec fn located(v: WiaView, pos: int) -> Option<(int, int, int)> {
    match range_at(v.raw_data, 0, pos) {
        None => None,
        Some(e) => {
            let within = pos - e.disc_offset;
            let chunk = within / v.chunk_size as int;
            let left = e.disc_size - chunk * v.chunk_size;
            if chunk >= e.group_count {
                None
            } else {
                Some(
                    (
                        e.group_index + chunk,
                        within % v.chunk_size as int,
                        if left < v.chunk_size {
                            left
                        } else {
                            v.chunk_size as int
                        },
                    ),
                )
            }
        },
    }
}

/// The smallest of three numbers.
pub open spec fn least(a: int, b: int, c: int) -> int {
    if a <= b && a <= c {
        a
    } else if b <= c {
        b
    } else {
        c
    }
}

/// Where the range that holds `pos` ends, or where the next one starts: the nearest
/// such edge behind `pos`, or `limit`.
pub open spec fn next_edge(raw: Seq<RawDataEntry>, k: int, pos: int, limit: int) -> int
    decreases raw.len() - k,
{
    if k < 0 || k >= raw.len() {
        limit
    } else {
        let start = raw[k].disc_offset as int;
        let end = start + raw[k].disc_size;
        let rest = next_edge(raw, k + 1, pos, limit);
        if pos < start {
            nearer(start, rest)
        } else if pos < end {
            nearer(end, rest)
        } else {
            rest
        }
    }
}

/// The smaller of two numbers.
pub open spec fn nearer(a: int, b: int) -> int {
    if a < b {
        a
    } else {
        b
    }
}

/// The bytes that a read of `n` bytes at `pos` takes from the groups, up to the end
/// of the disc. What no range holds reads as zeros.
pub open spec fn disc_bytes(reads: Reads, v: WiaView, pos: int, n: int) -> Result<
    Seq<u8>,
    Seq<char>,
>
    decreases n,
{
    if n <= 0 || pos >= v.disc_size {
        Ok(seq![])
    } else {
        match located(v, pos) {
            None => {
                let edge = next_edge(v.raw_data, 0, pos, v.disc_size as int);
                let m = nearer(n, edge - pos);
                if m <= 0 {
                    Ok(seq![])
                } else {
                    source::after(bytes::zeros(m), disc_bytes(reads, v, pos + m, n - m))
                }
            },
            Some((group, within, len)) => match chunk_of(reads, v, group, len) {
                Err(e) => Err(e),
                Ok(b) => {
                    let m = least(n, len - within, v.disc_size - pos);
                    if m <= 0 {
                        Ok(seq![])
                    } else {
                        source::after(
                            b.subrange(within, within + m),
                            disc_bytes(reads, v, pos + m, n - m),
                        )
                    }
                },
            },
        }
    }
}

/// Bytes read at `pos` with the beginning of the disc laid over them.
pub open spec fn headed(head: Seq<u8>, pos: int, b: Seq<u8>) -> Seq<u8> {
    if pos >= 0x80 {
        b
    } else {
        let end = if pos + b.len() < 0x80 {
            pos + b.len()
        } else {
            0x80
        };
        bytes::patched(b, 0, head.subrange(pos, end))
    }
}

/// What a read of up to `n` bytes of the disc at `pos` gives.
pub open spec fn disc_read(reads: Reads, v: WiaView, pos: int, n: int) -> Result<
    Seq<u8>,
    Seq<char>,
> {
    match disc_bytes(reads, v, pos, n) {
        Err(e) => Err(e),
        Ok(b) => Ok(headed(v.disc_head, pos, b)),
    }
}

/// The sectors that a group of a partition holds.
pub open spec fn group_sectors(chunk_size: u32) -> int {
    if chunk_size < WII_SECTOR {
        1
    } else {
        chunk_size as int / 0x8000
    }
}

/// The decrypted length of a partition.
pub open spec fn partition_size(p: Partition) -> int {
    (p.first.sectors + p.second.sectors) * 0x7C00
}

/// The group that holds the offset `pos` of a partition, and where in the data
/// of that group it is.
#[verifier::opaque]
pub open spec fn partition_place(chunk_size: u32, p: Partition, pos: int) -> (int, int) {
    let sector = pos / 0x7C00;
    let (seg, local) = if sector < p.first.sectors {
        (p.first, sector)
    } else {
        (p.second, sector - p.first.sectors)
    };
    let per = group_sectors(chunk_size);
    (seg.group_index + local / per, (local % per) * 0x7C00 + pos % 0x7C00)
}

/// What a read of up to `n` bytes of a partition at `pos` gives: the data of
/// its sectors, hashes aside.
pub open spec fn partition_read(reads: Reads, v: WiaView, p: Partition, pos: int, n: int) -> Result<
    Seq<u8>,
    Seq<char>,
>
    decreases n,
{
    if n <= 0 || pos < 0 || pos >= partition_size(p) {
        Ok(seq![])
    } else {
        let payload = group_sectors(v.chunk_size) * 0x7C00;
        let (group, within) = partition_place(v.chunk_size, p, pos);
        match partition_chunk_of(reads, v, group, payload) {
            Err(e) => Err(e),
            Ok(b) => {
                let m = least(n, payload - within, partition_size(p) - pos);
                if m <= 0 {
                    Ok(seq![])
                } else {
                    source::after(
                        b.subrange(within, within + m),
                        partition_read(reads, v, p, pos + m, n - m),
                    )
                }
            },
        }
    }
}

/// The group that was decoded last.
pub struct Cached {
    pub part: bool,
    pub index: u64,
    pub block: Vec<u8>,
}

/// An opened image.
pub struct WiaReader<S: ByteSource> {
    pub source: S,
    pub tables: WiaTables,
    pub cache: Option<Cached>,
}

/// Reads the bytes of a group and decompresses them.
fn read_stage<S: ByteSource>(source: &mut S, tables: &WiaTables, g: GroupEntry, target: u64) -> (r:
    Result<Vec<u8>, String>)
    ensures
        final(source).reads() == old(source).reads(),
        source::outcome(r) == stage_of(old(source).reads(), tables@, g, target as int),
{
    let raw: Vec<u8> = match read_labelled(
        source,
        g.data_offset4 as u64 * 4,
        g.data_size as u64,
        "WIA read: ",
    ) {
        Ok(b) => b,
        Err(e) => {
            return Err(e);
        },
    };
    if g.compressed {
        decompress(tables.compression, tables.compressor_data.as_slice(), raw.as_slice(), target)
    } else {
        Ok(raw)
    }
}

/// A block of `len` bytes from what a group decompresses to.
fn make_block(packed: bool, body: Vec<u8>, len: u64) -> (r: Result<Vec<u8>, String>)
    ensures
        source::outcome(r) == block_of(packed, body@, len as int),
{
    if packed {
        unpack(body.as_slice(), len)
    } else {
        Ok(resize(body, len))
    }
}

/// Decodes a group.
fn decode_group<S: ByteSource>(
    source: &mut S,
    tables: &WiaTables,
    part: bool,
    index: u64,
    len: u64,
) -> (r: Result<Vec<u8>, String>)
    requires
        len <= 0x1_0000_0000,
    ensures
        final(source).reads() == old(source).reads(),
        source::outcome(r) == group_data(
            old(source).reads(),
            tables@,
            part,
            index as int,
            len as int,
        ),
{
    if index >= tables.groups.len() as u64 {
        let n: String = decimal_string(index);
        return Err(join3("WIA: group ", n.as_str(), " is out of range"));
    }
    let g: GroupEntry = tables.groups[index as usize];
    if g.data_size == 0 {
        return Ok(zeroes(len));
    }
    let plain: u64 = if g.packed_size != 0 {
        g.packed_size as u64
    } else {
        len
    };
    if !part {
        return match read_stage(source, tables, g, plain) {
            Ok(stage) => make_block(g.packed_size != 0, stage, len),
            Err(e) => Err(e),
        };
    }
    let stage: Vec<u8> = match read_stage(source, tables, g, plain + EXCEPTION_SLACK) {
        Ok(b) => b,
        Err(e) => {
            return Err(e);
        },
    };
    let lists: u32 = if tables.chunk_size < 0x20_0000 {
        1
    } else {
        tables.chunk_size / 0x20_0000
    };
    match skip_exception_lists(stage.as_slice(), lists) {
        Ok(at) => {
            let body: Vec<u8> = cut(stage.as_slice(), at, stage.len());
            assert(body@ =~= stage@.skip(at as int));
            make_block(g.packed_size != 0, body, len)
        },
        Err(e) => Err(e),
    }
}

proof fn lemma_chunk(within: int, size: int, chunk: int)
    requires
        0 <= within < size,
        0 < chunk,
    ensures
        0 <= within / chunk,
        0 <= (within / chunk) * chunk <= within,
        0 <= within % chunk < chunk,
        within % chunk == within - (within / chunk) * chunk,
{
    assert(0 <= within / chunk && (within / chunk) * chunk + within % chunk == within && 0 <= within
        % chunk < chunk && 0 <= (within / chunk) * chunk) by (nonlinear_arith)
        requires
            0 <= within,
            0 < chunk,
    ;
}

impl<S: ByteSource> WiaReader<S> {
    /// Whether the headers are consistent, and the cached group holds what its
    /// group does.
    pub open spec fn wf(&self) -> bool {
        &&& self.tables.chunk_size > 0
        &&& self.tables.disc_head@.len() == 0x80
        &&& self.cache matches Some(c) ==> group_data(
            self.source.reads(),
            self.tables@,
            c.part,
            c.index as int,
            c.block@.len() as int,
        ) == Ok::<Seq<u8>, Seq<char>>(c.block@)
    }

    /// Opens the image that a source holds.
    pub fn open(source: S) -> (r: Result<WiaReader<S>, String>)
        ensures
            match r {
                Ok(w) => w.wf() && w.source.reads() == source.reads() && wia_opened(source.reads())
                    == Ok::<WiaView, Seq<char>>(w.tables@),
                Err(e) => wia_opened(source.reads()) == Err::<WiaView, Seq<char>>(e@),
            },
    {
        let mut source: S = source;
        let h1: Vec<u8> = match read_labelled(&mut source, 0, 0x48, "WIA header: ") {
            Ok(b) => b,
            Err(e) => {
                return Err(e);
            },
        };
        let rvz: [u8; 4] = [0x52, 0x56, 0x5A, 0x01];
        let wia: [u8; 4] = [0x57, 0x49, 0x41, 0x01];
        assert(rvz@ =~= seq![0x52u8, 0x56, 0x5A, 0x01]);
        assert(wia@ =~= seq![0x57u8, 0x49, 0x41, 0x01]);
        let is_rvz: bool = bytes_at(h1.as_slice(), 0, rvz.as_slice());
        if !is_rvz && !bytes_at(h1.as_slice(), 0, wia.as_slice()) {
            return Err("Not a WIA or RVZ file".to_owned());
        }
        let size: u32 = read_u32_be(h1.as_slice(), 0x0C);
        let disc_size: u64 = read_u64_be(h1.as_slice(), 0x24);
        if size < HEADER2_MIN {
            let n: String = decimal_string(size as u64);
            return Err(join3("WIA: header2 is ", n.as_str(), " bytes, expected at least 220"));
        }
        let h2: Vec<u8> = match read_labelled(&mut source, 0x48, size as u64, "WIA header2: ") {
            Ok(b) => b,
            Err(e) => {
                return Err(e);
            },
        };
        if read_u32_be(h2.as_slice(), 0x0C) == 0 {
            return Err("WIA: chunk size is zero".to_owned());
        }
        match read_tables(&mut source, h2.as_slice(), disc_size, is_rvz) {
            Ok(tables) => Ok(WiaReader { source, tables, cache: None }),
            Err(e) => Err(e),
        }
    }

    /// The size of the disc.
    pub fn total_bytes(&self) -> (r: u64)
        ensures
            r == self.tables@.disc_size,
    {
        self.tables.disc_size
    }

    /// The number of partitions that the image describes.
    pub fn partition_count(&self) -> (r: usize)
        ensures
            r == self.tables@.partitions.len(),
    {
        self.tables.partitions.len()
    }

    /// The decrypted length of a partition; zero where there is no such one.
    pub fn partition_len(&self, index: usize) -> (r: u64)
        ensures
            r == if index < self.tables@.partitions.len() {
                partition_size(self.tables@.partitions[index as int])
            } else {
                0
            },
    {
        if index < self.tables.partitions.len() {
            let p: Partition = self.tables.partitions[index];
            (p.first.sectors as u64 + p.second.sectors as u64) * 0x7C00
        } else {
            0
        }
    }

    /// Decodes a group, unless it is the one that was decoded last.
    fn load(&mut self, part: bool, index: u64, len: u64) -> (r: Result<(), String>)
        requires
            old(self).wf(),
            len <= 0x1_0000_0000,
        ensures
            final(self).wf(),
            final(self).source.reads() == old(self).source.reads(),
            final(self).tables@ == old(self).tables@,
            match r {
                Ok(_) => final(self).cache matches Some(c) && group_data(
                    old(self).source.reads(),
                    old(self).tables@,
                    part,
                    index as int,
                    len as int,
                ) == Ok::<Seq<u8>, Seq<char>>(c.block@) && c.block@.len() == len,
                Err(e) => group_data(
                    old(self).source.reads(),
                    old(self).tables@,
                    part,
                    index as int,
                    len as int,
                ) == Err::<Seq<u8>, Seq<char>>(e@),
            },
    {
        if let Some(c) = &self.cache {
            if c.part == part && c.index == index && c.block.len() as u64 == len {
                return Ok(());
            }
        }
        proof {
            groups_are_whole(self.source.reads(), self.tables@, part, index as int, len as int);
        }
        match decode_group(&mut self.source, &self.tables, part, index, len) {
            Err(e) => Err(e),
            Ok(block) => {
                self.cache = Some(Cached { part, index, block });
                Ok(())
            },
        }
    }

    /// The group that holds an offset of the disc.
    #[verifier::loop_isolation(false)]
    fn locate(&self, pos: u64) -> (r: Option<(u64, u64, u64)>)
        requires
            self.wf(),
        ensures
            match r {
                None => located(self.tables@, pos as int) is None,
                Some((g, w, l)) => located(self.tables@, pos as int) == Some(
                    (g as int, w as int, l as int),
                ) && w < l <= self.tables.chunk_size,
            },
    {
        let ghost raw = self.tables.raw_data@;
        let chunk_size: u64 = self.tables.chunk_size as u64;
        let mut k: usize = 0;
        while k < self.tables.raw_data.len()
            invariant
                raw == self.tables.raw_data@,
                k <= raw.len(),
                range_at(raw, 0, pos as int) == range_at(raw, k as int, pos as int),
            decreases raw.len() - k,
        {
            let e: RawDataEntry = self.tables.raw_data[k];
            if pos >= e.disc_offset && ((pos - e.disc_offset) as u128) < e.disc_size {
                let within: u64 = pos - e.disc_offset;
                proof {
                    lemma_chunk(within as int, e.disc_size as int, chunk_size as int);
                }
                let chunk: u64 = within / chunk_size;
                if chunk >= e.group_count as u64 {
                    return None;
                }
                let left: u128 = e.disc_size - (chunk * chunk_size) as u128;
                let len: u64 = if left < chunk_size as u128 {
                    left as u64
                } else {
                    chunk_size
                };
                return Some((e.group_index as u64 + chunk, within % chunk_size, len));
            }
            k += 1;
        }
        None
    }

    /// The nearest edge of a range behind `pos`, or the end of the disc.
    #[verifier::loop_isolation(false)]
    fn gap_end(&self, pos: u64) -> (r: u64)
        requires
            pos < self.tables.disc_size,
        ensures
            r == next_edge(self.tables@.raw_data, 0, pos as int, self.tables@.disc_size as int),
            pos < r <= self.tables.disc_size,
    {
        let ghost raw = self.tables.raw_data@;
        let ghost limit = self.tables.disc_size as int;
        let mut best: u64 = self.tables.disc_size;
        let mut k: usize = self.tables.raw_data.len();
        while k > 0
            invariant
                raw == self.tables.raw_data@,
                k <= raw.len(),
                pos < best <= limit,
                best == next_edge(raw, k as int, pos as int, limit),
            decreases k,
        {
            k -= 1;
            let e: RawDataEntry = self.tables.raw_data[k];
            if pos < e.disc_offset {
                if e.disc_offset < best {
                    best = e.disc_offset;
                }
            } else if ((pos - e.disc_offset) as u128) < e.disc_size {
                let left: u128 = e.disc_size - (pos - e.disc_offset) as u128;
                if left < (best - pos) as u128 {
                    best = pos + left as u64;
                }
            }
        }
        best
    }

    /// Reads up to `n` bytes of the disc at `pos`.
    #[verifier::loop_isolation(false)]
    pub fn read_at(&mut self, pos: u64, n: u64) -> (r: Result<Vec<u8>, String>)
        requires
            old(self).wf(),
        ensures
            final(self).wf(),
            final(self).source.reads() == old(self).source.reads(),
            final(self).tables@ == old(self).tables@,
            source::outcome(r) == disc_read(
                old(self).source.reads(),
                old(self).tables@,
                pos as int,
                n as int,
            ),
    {
        let ghost reads = self.source.reads();
        let ghost v = self.tables@;
        let ghost goal = disc_bytes(reads, v, pos as int, n as int);
        let mut out: Vec<u8> = Vec::new();
        let mut at: u64 = pos;
        let mut left: u64 = n;
        assert(source::after(out@, goal) == goal) by {
            match goal {
                Ok(b) => {
                    assert(out@ + b =~= b);
                },
                Err(_) => {},
            }
        }
        while left > 0 && at < self.tables.disc_size
            invariant
                self.wf(),
                self.source.reads() == reads,
                self.tables@ == v,
                source::after(out@, disc_bytes(reads, v, at as int, left as int)) == goal,
            decreases left,
        {
            match self.locate(at) {
                None => {
                    let room: u64 = self.gap_end(at) - at;
                    let m: u64 = if left < room {
                        left
                    } else {
                        room
                    };
                    let mut gap: Vec<u8> = zeroes(m);
                    let ghost z = gap@;
                    let ghost before = out@;
                    out.append(&mut gap);
                    proof {
                        match disc_bytes(reads, v, at + m, left - m) {
                            Ok(t) => {
                                assert(before + (z + t) =~= (before + z) + t);
                            },
                            Err(_) => {},
                        }
                    }
                    at += m;
                    left -= m;
                },
                Some((group, within, len)) => {
                    match self.load(false, group, len) {
                        Err(e) => {
                            return Err(e);
                        },
                        Ok(_) => {},
                    }
                    let room: u64 = len - within;
                    let rest: u64 = self.tables.disc_size - at;
                    let m: u64 = if left <= room && left <= rest {
                        left
                    } else if room <= rest {
                        room
                    } else {
                        rest
                    };
                    if let Some(c) = &self.cache {
                        let ghost before = out@;
                        let ghost piece = c.block@.subrange(within as int, within + m);
                        let mut run: Vec<u8> = cut(
                            c.block.as_slice(),
                            within as usize,
                            within as usize + m as usize,
                        );
                        out.append(&mut run);
                        proof {
                            match disc_bytes(reads, v, at + m, left - m) {
                                Ok(t) => {
                                    assert(before + (piece + t) =~= (before + piece) + t);
                                },
                                Err(_) => {},
                            }
                        }
                    }
                    at += m;
                    left -= m;
                },
            }
        }
        assert(out@ + seq![] =~= out@);
        if pos < 0x80 {
            let len: u64 = out.len() as u64;
            let end: u64 = if len < 0x80 - pos {
                pos + len
            } else {
                0x80
            };
            patch(
                &mut out,
                0,
                slice_subrange(self.tables.disc_head.as_slice(), pos as usize, end as usize),
            );
        }
        Ok(out)
    }

    /// The group that holds the offset `pos` of a partition.
    fn locate_in_partition(&self, p: Partition, pos: u64) -> (r: (u64, u64))
        requires
            pos < partition_size(p),
        ensures
            (r.0 as int, r.1 as int) == partition_place(self.tables.chunk_size, p, pos as int),
            r.1 < group_sectors(self.tables.chunk_size) * 0x7C00,
    {
        reveal(partition_place);
        let per: u64 = if self.tables.chunk_size < WII_SECTOR {
            1
        } else {
            (self.tables.chunk_size / 0x8000) as u64
        };
        let sector: u64 = pos / 0x7C00;
        let (seg, local): (PartitionSegment, u64) = if sector < p.first.sectors as u64 {
            (p.first, sector)
        } else {
            (p.second, sector - p.first.sectors as u64)
        };
        proof {
            lemma_chunk(local as int, local + 1, per as int);
            assert(local as int / per as int <= local) by (nonlinear_arith)
                requires
                    0 <= local,
                    1 <= per,
            ;
        }
        (seg.group_index as u64 + local / per, (local % per) * 0x7C00 + pos % 0x7C00)
    }

    /// Reads the bytes of a partition at `at` that one group holds, up to `left`
    /// of them.
    fn read_piece(&mut self, p: Partition, at: u64, left: u64) -> (r: Result<Vec<u8>, String>)
        requires
            old(self).wf(),
            0 < left,
            at < partition_size(p),
        ensures
            final(self).wf(),
            final(self).source.reads() == old(self).source.reads(),
            final(self).tables@ == old(self).tables@,
            ({
                let reads = old(self).source.reads();
                let v = old(self).tables@;
                let all = partition_read(reads, v, p, at as int, left as int);
                match r {
                    Err(e) => all == Err::<Seq<u8>, Seq<char>>(e@),
                    Ok(b) => 0 < b@.len() <= left && at + b@.len() <= partition_size(p) && all
                        == source::after(
                        b@,
                        partition_read(reads, v, p, at + b@.len(), left - b@.len()),
                    ),
                }
            }),
    {
        let total: u64 = (p.first.sectors as u64 + p.second.sectors as u64) * 0x7C00;
        let per: u64 = if self.tables.chunk_size < WII_SECTOR {
            1
        } else {
            (self.tables.chunk_size / 0x8000) as u64
        };
        let payload: u64 = per * 0x7C00;
        let (group, within): (u64, u64) = self.locate_in_partition(p, at);
        match self.load(true, group, payload) {
            Err(e) => {
                return Err(e);
            },
            Ok(_) => {},
        }
        let room: u64 = payload - within;
        let rest: u64 = total - at;
        let m: u64 = if left <= room && left <= rest {
            left
        } else if room <= rest {
            room
        } else {
            rest
        };
        match &self.cache {
            Some(c) => {
                let run: Vec<u8> = cut(
                    c.block.as_slice(),
                    within as usize,
                    within as usize + m as usize,
                );
                Ok(run)
            },
            None => Err("WIA: no group is loaded".to_owned()),
        }
    }

    /// Reads up to `n` bytes of a partition's decrypted contents at `pos`; an
    /// image without that partition gives none.
    #[verifier::loop_isolation(false)]
    pub fn read_partition_at(&mut self, index: usize, pos: u64, n: u64) -> (r: Result<
        Vec<u8>,
        String,
    >)
        requires
            old(self).wf(),
        ensures
            final(self).wf(),
            final(self).source.reads() == old(self).source.reads(),
            final(self).tables@ == old(self).tables@,
            source::outcome(r) == (if index < old(self).tables@.partitions.len() {
                partition_read(
                    old(self).source.reads(),
                    old(self).tables@,
                    old(self).tables@.partitions[index as int],
                    pos as int,
                    n as int,
                )
            } else {
                Ok(seq![])
            }),
    {
        let mut out: Vec<u8> = Vec::new();
        assert(out@ =~= seq![]);
        if index >= self.tables.partitions.len() {
            return Ok(out);
        }
        let ghost reads = self.source.reads();
        let ghost v = self.tables@;
        let p: Partition = self.tables.partitions[index];
        let total: u64 = self.partition_len(index);
        let ghost goal = partition_read(reads, v, p, pos as int, n as int);
        let mut at: u64 = pos;
        let mut left: u64 = n;
        assert(source::after(out@, goal) == goal) by {
            match goal {
                Ok(b) => {
                    assert(out@ + b =~= b);
                },
                Err(_) => {},
            }
        }
        while left > 0 && at < total
            invariant
                self.wf(),
                self.source.reads() == reads,
                self.tables@ == v,
                source::after(out@, partition_read(reads, v, p, at as int, left as int)) == goal,
            decreases left,
        {
            match self.read_piece(p, at, left) {
                Err(e) => {
                    return Err(e);
                },
                Ok(b) => {
                    let mut run: Vec<u8> = b;
                    let m: u64 = run.len() as u64;
                    let ghost before = out@;
                    let ghost piece = run@;
                    out.append(&mut run);
                    proof {
                        match partition_read(reads, v, p, at + m, left - m) {
                            Ok(t) => {
                                assert(before + (piece + t) =~= (before + piece) + t);
                            },
                            Err(_) => {},
                        }
                    }
                    at += m;
                    left -= m;
                },
            }
        }
        assert(out@ + seq![] =~= out@);
        Ok(out)
    }
}

/// A reader over one partition's decrypted contents.
pub struct WiaPartitionReader<S: ByteSource> {
    pub inner: WiaReader<S>,
    pub index: usize,
}

impl<S: ByteSource> WiaPartitionReader<S> {
    pub fn new(inner: WiaReader<S>, index: usize) -> (r: WiaPartitionReader<S>)
        ensures
            r.inner == inner,
            r.index == index,
    {
        WiaPartitionReader { inner, index }
    }

    /// The decrypted length of the partition.
    pub fn len(&self) -> (r: u64)
        ensures
            r == if self.index < self.inner.tables@.partitions.len() {
                partition_size(self.inner.tables@.partitions[self.index as int])
            } else {
                0
            },
    {
        self.inner.partition_len(self.index)
    }

    /// Reads up to `n` bytes at `pos`.
    pub fn read_at(&mut self, pos: u64, n: u64) -> (r: Result<Vec<u8>, String>)
        requires
            old(self).inner.wf(),
        ensures
            final(self).inner.wf(),
            final(self).index == old(self).index,
            final(self).inner.tables@ == old(self).inner.tables@,
            final(self).inner.source.reads() == old(self).inner.source.reads(),
            source::outcome(r) == (if old(self).index < old(self).inner.tables@.partitions.len() {
                partition_read(
                    old(self).inner.source.reads(),
                    old(self).inner.tables@,
                    old(self).inner.tables@.partitions[old(self).index as int],
                    pos as int,
                    n as int,
                )
            } else {
                Ok(seq![])
            }),
    {
        self.inner.read_partition_at(self.index, pos, n)
    }
}

// ── Laws ────────────────────────────────────────────────────────────────────

/// Whether a range holds an offset of the disc.
pub open spec fn holds(e: RawDataEntry, pos: int) -> bool {
    e.disc_offset <= pos < e.disc_offset + e.disc_size
}

/// Whether no two ranges share an offset.
pub open spec fn ranges_apart(raw: Seq<RawDataEntry>) -> bool {
    forall|i: int, j: int, pos: int|
        0 <= i < j < raw.len() ==> !(#[trigger] holds(raw[i], pos) && #[trigger] holds(raw[j], pos))
}

/// A range that is found is one of those from `k` on, and holds the offset.
proof fn lemma_range_found(raw: Seq<RawDataEntry>, k: int, pos: int) -> (j: int)
    requires
        0 <= k,
        range_at(raw, k, pos) is Some,
    ensures
        k <= j < raw.len(),
        range_at(raw, k, pos) == Some(raw[j]),
        holds(raw[j], pos),
    decreases raw.len() - k,
{
    if holds(raw[k], pos) {
        k
    } else {
        lemma_range_found(raw, k + 1, pos)
    }
}

/// A range that holds an offset is found, or one before it.
proof fn lemma_held(raw: Seq<RawDataEntry>, k: int, j: int, pos: int)
    requires
        0 <= k <= j < raw.len(),
        holds(raw[j], pos),
    ensures
        range_at(raw, k, pos) is Some,
        ranges_apart(raw) ==> range_at(raw, k, pos) == Some(raw[j]),
    decreases j - k,
{
    if k < j {
        if !holds(raw[k], pos) {
            lemma_held(raw, k + 1, j, pos);
        }
    }
}

/// No range starts or ends before the next edge.
proof fn lemma_edge(raw: Seq<RawDataEntry>, k: int, pos: int, limit: int, j: int, p: int)
    requires
        0 <= k <= j < raw.len(),
        pos <= p < next_edge(raw, k, pos, limit),
    ensures
        holds(raw[j], p) == holds(raw[j], pos),
    decreases j - k,
{
    if k < j {
        lemma_edge(raw, k + 1, pos, limit, j, p);
    }
}

/// The next edge lies behind the offset, and not behind the limit.
proof fn lemma_edge_bounds(raw: Seq<RawDataEntry>, k: int, pos: int, limit: int)
    requires
        0 <= k,
        pos < limit,
    ensures
        pos < next_edge(raw, k, pos, limit) <= limit,
    decreases raw.len() - k,
{
    if k < raw.len() {
        lemma_edge_bounds(raw, k + 1, pos, limit);
    }
}

/// Offsets in one chunk of a range.
proof fn lemma_same_chunk(within: int, i: int, chunk: int)
    requires
        0 <= within,
        0 <= i,
        0 < chunk,
        within % chunk + i < chunk,
    ensures
        (within + i) / chunk == within / chunk,
        (within + i) % chunk == within % chunk + i,
{
    let q = within / chunk;
    let r = within % chunk;
    assert(within == q * chunk + r && 0 <= r) by (nonlinear_arith)
        requires
            0 < chunk,
            q == within / chunk,
            r == within % chunk,
    ;
    assert((within + i) / chunk == q && (within + i) % chunk == r + i) by (nonlinear_arith)
        requires
            within == q * chunk + r,
            0 <= r + i < chunk,
            0 < chunk,
    ;
}

/// Later offsets lie in later chunks of a range.
proof fn lemma_later_chunk(within: int, i: int, chunk: int)
    requires
        0 <= within,
        0 <= i,
        0 < chunk,
    ensures
        within / chunk <= (within + i) / chunk,
{
    assert(within / chunk <= (within + i) / chunk) by (nonlinear_arith)
        requires
            0 <= within,
            0 <= i,
            0 < chunk,
    ;
}

/// What a read takes from one place of the disc: at least one byte, and none behind
/// the range that it lies in.
proof fn lemma_place(v: WiaView, pos: int)
    requires
        v.chunk_size > 0,
        located(v, pos) is Some,
    ensures
        ({
            let e = range_at(v.raw_data, 0, pos)->0;
            let (group, within, len) = located(v, pos)->0;
            &&& holds(e, pos)
            &&& 0 <= group
            &&& 0 <= within < len <= v.chunk_size
            &&& pos + (len - within) <= e.disc_offset + e.disc_size
        }),
{
    let j = lemma_range_found(v.raw_data, 0, pos);
    let e = v.raw_data[j];
    lemma_chunk(pos - e.disc_offset, e.disc_size as int, v.chunk_size as int);
}

/// A read of the disc gives all that it is asked for, up to the end of the disc, and
/// what no range holds reads as zeros, whatever stands before or behind it.
pub proof fn gaps_read_as_zeros(reads: Reads, v: WiaView, pos: int, n: int)
    requires
        v.chunk_size > 0,
        0 <= pos <= v.disc_size,
        0 <= n,
    ensures
        disc_bytes(reads, v, pos, n) matches Ok(b) ==> {
            &&& b.len() == nearer(n, v.disc_size - pos)
            &&& forall|i: int|
                0 <= i < b.len() && range_at(v.raw_data, 0, pos + i) is None ==> #[trigger] b[i]
                    == 0
        },
    decreases n,
{
    if n > 0 && pos < v.disc_size {
        if let Ok(b) = disc_bytes(reads, v, pos, n) {
            match located(v, pos) {
                None => {
                    let edge = next_edge(v.raw_data, 0, pos, v.disc_size as int);
                    lemma_edge_bounds(v.raw_data, 0, pos, v.disc_size as int);
                    let m = nearer(n, edge - pos);
                    gaps_read_as_zeros(reads, v, pos + m, n - m);
                    let rest = disc_bytes(reads, v, pos + m, n - m)->Ok_0;
                    assert forall|i: int|
                        0 <= i < b.len() && range_at(
                            v.raw_data,
                            0,
                            pos + i,
                        ) is None implies #[trigger] b[i] == 0 by {
                        if i >= m {
                            assert(b[i] == rest[i - m]);
                            assert(pos + m + (i - m) == pos + i);
                        }
                    }
                },
                Some((group, within, len)) => {
                    lemma_place(v, pos);
                    groups_are_whole(reads, v, false, group, len);
                    let m = least(n, len - within, v.disc_size - pos);
                    gaps_read_as_zeros(reads, v, pos + m, n - m);
                    let rest = disc_bytes(reads, v, pos + m, n - m)->Ok_0;
                    let j = lemma_range_found(v.raw_data, 0, pos);
                    assert forall|i: int|
                        0 <= i < b.len() && range_at(
                            v.raw_data,
                            0,
                            pos + i,
                        ) is None implies #[trigger] b[i] == 0 by {
                        if i >= m {
                            assert(b[i] == rest[i - m]);
                            assert(pos + m + (i - m) == pos + i);
                        } else {
                            lemma_held(v.raw_data, 0, j, pos + i);
                        }
                    }
                },
            }
        }
    }
}

/// Where no two ranges share an offset, every offset that a group holds reads as what
/// that group holds there, and every other one as zero.
pub proof fn ranges_read_as_their_groups(reads: Reads, v: WiaView, pos: int, n: int)
    requires
        v.chunk_size > 0,
        ranges_apart(v.raw_data),
        0 <= pos <= v.disc_size,
        0 <= n,
    ensures
        disc_bytes(reads, v, pos, n) matches Ok(b) ==> forall|i: int|
            0 <= i < b.len() ==> #[trigger] b[i] == match located(v, pos + i) {
                None => 0,
                Some((group, within, len)) => chunk_of(reads, v, group, len)->Ok_0[within],
            },
    decreases n,
{
    if n > 0 && pos < v.disc_size {
        if let Ok(b) = disc_bytes(reads, v, pos, n) {
            match located(v, pos) {
                None => {
                    let edge = next_edge(v.raw_data, 0, pos, v.disc_size as int);
                    lemma_edge_bounds(v.raw_data, 0, pos, v.disc_size as int);
                    let m = nearer(n, edge - pos);
                    ranges_read_as_their_groups(reads, v, pos + m, n - m);
                    let rest = disc_bytes(reads, v, pos + m, n - m)->Ok_0;
                    assert forall|i: int| 0 <= i < b.len() implies #[trigger] b[i] == match located(
                        v,
                        pos + i,
                    ) {
                        None => 0,
                        Some((group, within, len)) => chunk_of(reads, v, group, len)->Ok_0[within],
                    } by {
                        if i >= m {
                            assert(b[i] == rest[i - m]);
                            assert(pos + m + (i - m) == pos + i);
                        } else {
                            if range_at(v.raw_data, 0, pos + i) is Some {
                                let j = lemma_range_found(v.raw_data, 0, pos + i);
                                lemma_edge(v.raw_data, 0, pos, v.disc_size as int, j, pos + i);
                                lemma_held(v.raw_data, 0, j, pos);
                                lemma_later_chunk(
                                    pos - v.raw_data[j].disc_offset,
                                    i,
                                    v.chunk_size as int,
                                );
                                assert(pos - v.raw_data[j].disc_offset + i == pos + i
                                    - v.raw_data[j].disc_offset);
                            }
                            assert(located(v, pos + i) is None);
                        }
                    }
                },
                Some((group, within, len)) => {
                    lemma_place(v, pos);
                    groups_are_whole(reads, v, false, group, len);
                    let m = least(n, len - within, v.disc_size - pos);
                    ranges_read_as_their_groups(reads, v, pos + m, n - m);
                    let rest = disc_bytes(reads, v, pos + m, n - m)->Ok_0;
                    let j = lemma_range_found(v.raw_data, 0, pos);
                    let e = v.raw_data[j];
                    assert forall|i: int| 0 <= i < b.len() implies #[trigger] b[i] == match located(
                        v,
                        pos + i,
                    ) {
                        None => 0,
                        Some((group, within, len)) => chunk_of(reads, v, group, len)->Ok_0[within],
                    } by {
                        if i >= m {
                            assert(b[i] == rest[i - m]);
                            assert(pos + m + (i - m) == pos + i);
                        } else {
                            lemma_held(v.raw_data, 0, j, pos + i);
                            lemma_same_chunk(pos - e.disc_offset, i, v.chunk_size as int);
                            assert(pos - e.disc_offset + i == pos + i - e.disc_offset);
                            assert(located(v, pos + i) == Some((group, within + i, len)));
                        }
                    }
                },
            }
        }
    }
}

/// A purged chunk is rebuilt from its segments: each tells where its bytes go and how many
/// they are, and what follows is laid over it. Twenty bytes end the chunk.
pub proof fn purged_segments_are_laid_down(
    input: Seq<u8>,
    p: int,
    offset: int,
    data: Seq<u8>,
    out: Seq<u8>,
)
    requires
        0 <= p,
        0 <= offset,
        offset + data.len() <= out.len(),
        offset <= 0xFFFF_FFFF,
        data.len() <= 0xFFFF_FFFF,
        p + 8 + data.len() + 20 <= input.len(),
        bytes::has_at(input, p, bytes::be_bytes(offset, 4)),
        bytes::has_at(input, p + 4, bytes::be_bytes(data.len() as int, 4)),
        bytes::has_at(input, p + 8, data),
    ensures
        purge_from(input, p, out) == purge_from(
            input,
            p + 8 + data.len(),
            out.take(offset) + data + out.skip(offset + data.len()),
        ),
        input.len() == p + 8 + data.len() + 20 ==> purge_from(input, p, out) == Ok::<
            Seq<u8>,
            Seq<char>,
        >(out.take(offset) + data + out.skip(offset + data.len())),
{
    bytes::fields_hold_what_was_written(input, p, offset);
    bytes::fields_hold_what_was_written(input, p + 4, data.len() as int);
    assert(input.subrange(p + 8, p + 8 + data.len()) =~= data);
    assert(bytes::patched(out, offset, data) =~= out.take(offset) + data + out.skip(
        offset + data.len(),
    ));
}

/// A packed chunk is unpacked run by run: the bytes that follow a length come out as they
/// are.
pub proof fn packed_runs_follow_each_other(
    packed: Seq<u8>,
    p: int,
    data: Seq<u8>,
    out: Seq<u8>,
    out_len: int,
)
    requires
        0 <= p,
        p + 4 + data.len() <= packed.len(),
        data.len() < 0x8000_0000,
        out.len() < out_len,
        bytes::has_at(packed, p, bytes::be_bytes(data.len() as int, 4)),
        bytes::has_at(packed, p + 4, data),
    ensures
        unpacked_from(packed, p, out, out_len) == unpacked_from(
            packed,
            p + 4 + data.len(),
            out + data,
            out_len,
        ),
        out.len() + data.len() == out_len ==> unpacked_from(packed, p, out, out_len) == Ok::<
            Seq<u8>,
            Seq<char>,
        >(out + data),
{
    bytes::fields_hold_what_was_written(packed, p, data.len() as int);
    assert(packed.subrange(p + 4, p + 4 + data.len()) =~= data);
    assert(bytes::resized(out + data, (out + data).len() as int) =~= out + data);
}

/// A length with its top bit set is followed by a seed of seventeen words, which stands for
/// as many bytes of padding.
pub proof fn a_seed_stands_for_its_padding(
    packed: Seq<u8>,
    p: int,
    seed: Seq<u8>,
    size: int,
    out: Seq<u8>,
    out_len: int,
)
    requires
        0 <= p,
        seed.len() == 68,
        p + 72 <= packed.len(),
        0 <= size < 0x8000_0000,
        out.len() < out_len,
        bytes::has_at(packed, p, bytes::be_bytes(0x8000_0000 + size, 4)),
        bytes::has_at(packed, p + 4, seed),
    ensures
        unpacked_from(packed, p, out, out_len) == unpacked_from(
            packed,
            p + 72,
            out + junk::junk(seed, size),
            out_len,
        ),
{
    bytes::fields_hold_what_was_written(packed, p, 0x8000_0000 + size);
    assert(packed.subrange(p + 4, p + 72) =~= seed);
}

/// A partition of the table holds what was written into its two segments.
pub proof fn a_partition_holds_what_was_written(t: Seq<u8>, n: int, size: int, i: int, p: Partition)
    requires
        0 <= i < n,
        48 <= size,
        size * n <= t.len(),
        bytes::has_at(t, size * i + 20, bytes::be_bytes(p.first.sectors as int, 4)),
        bytes::has_at(t, size * i + 24, bytes::be_bytes(p.first.group_index as int, 4)),
        bytes::has_at(t, size * i + 36, bytes::be_bytes(p.second.sectors as int, 4)),
        bytes::has_at(t, size * i + 40, bytes::be_bytes(p.second.group_index as int, 4)),
    ensures
        partitions_of(t, n, size)[i] == p,
{
    assert(size * i + size <= size * n && 0 <= size * i && i * size == size * i)
        by (nonlinear_arith)
        requires
            0 <= i < n,
            48 <= size,
    ;
    bytes::fields_hold_what_was_written(t, size * i + 20, p.first.sectors as int);
    bytes::fields_hold_what_was_written(t, size * i + 24, p.first.group_index as int);
    bytes::fields_hold_what_was_written(t, size * i + 36, p.second.sectors as int);
    bytes::fields_hold_what_was_written(t, size * i + 40, p.second.group_index as int);
}

/// A range of the disc holds what was written into its 24 bytes; the first one reaches back
/// to the start of its sector, and ends where it did.
pub proof fn a_range_holds_what_was_written(
    t: Seq<u8>,
    i: int,
    offset: int,
    size: int,
    group: u32,
    count: u32,
)
    requires
        0 <= i,
        24 * i + 24 <= t.len(),
        0 <= offset <= u64::MAX,
        0 <= size <= u64::MAX,
        bytes::has_at(t, 24 * i, bytes::be_bytes(offset, 8)),
        bytes::has_at(t, 24 * i + 8, bytes::be_bytes(size, 8)),
        bytes::has_at(t, 24 * i + 16, bytes::be_bytes(group as int, 4)),
        bytes::has_at(t, 24 * i + 20, bytes::be_bytes(count as int, 4)),
    ensures
        ({
            let e = raw_entry_at(t, i);
            &&& e.group_index == group
            &&& e.group_count == count
            &&& e.disc_offset + e.disc_size == offset + size
            &&& i > 0 ==> e.disc_offset == offset
            &&& i == 0 ==> e.disc_offset % 0x8000 == 0 && e.disc_offset <= offset < e.disc_offset
                + 0x8000
        }),
{
    bytes::fields_hold_what_was_written(t, 24 * i, offset);
    bytes::fields_hold_what_was_written(t, 24 * i + 8, size);
    bytes::fields_hold_what_was_written(t, 24 * i + 16, group as int);
    bytes::fields_hold_what_was_written(t, 24 * i + 20, count as int);
}

/// A group holds what was written into its eight bytes, or its twelve, in which the top bit
/// of the size tells whether it is compressed.
pub proof fn a_group_holds_what_was_written(t: Seq<u8>, i: int, is_rvz: bool, g: GroupEntry)
    requires
        0 <= i,
        is_rvz ==> {
            &&& 12 * i + 12 <= t.len()
            &&& g.data_size < 0x8000_0000
            &&& bytes::has_at(t, 12 * i, bytes::be_bytes(g.data_offset4 as int, 4))
            &&& g.compressed ==> bytes::has_at(
                t,
                12 * i + 4,
                bytes::be_bytes(0x8000_0000 + g.data_size, 4),
            )
            &&& !g.compressed ==> bytes::has_at(
                t,
                12 * i + 4,
                bytes::be_bytes(g.data_size as int, 4),
            )
            &&& bytes::has_at(t, 12 * i + 8, bytes::be_bytes(g.packed_size as int, 4))
        },
        !is_rvz ==> {
            &&& 8 * i + 8 <= t.len()
            &&& g.compressed
            &&& g.packed_size == 0
            &&& bytes::has_at(t, 8 * i, bytes::be_bytes(g.data_offset4 as int, 4))
            &&& bytes::has_at(t, 8 * i + 4, bytes::be_bytes(g.data_size as int, 4))
        },
    ensures
        group_at(t, i, is_rvz) == g,
{
    if is_rvz {
        bytes::fields_hold_what_was_written(t, 12 * i, g.data_offset4 as int);
        if g.compressed {
            bytes::fields_hold_what_was_written(t, 12 * i + 4, 0x8000_0000 + g.data_size);
        } else {
            bytes::fields_hold_what_was_written(t, 12 * i + 4, g.data_size as int);
        }
        bytes::fields_hold_what_was_written(t, 12 * i + 8, g.packed_size as int);
    } else {
        bytes::fields_hold_what_was_written(t, 8 * i, g.data_offset4 as int);
        bytes::fields_hold_what_was_written(t, 8 * i + 4, g.data_size as int);
    }
}

/// The tables of an image without compression stand where its second header tells.
pub proof fn the_header_names_the_tables(
    image: Seq<u8>,
    h2: Seq<u8>,
    disc_size: u64,
    is_rvz: bool,
    chunk_size: u32,
    n: int,
    size: int,
    at: int,
    n_raw: int,
    raw_at: int,
    n_groups: int,
    groups_at: int,
    group_size: int,
)
    requires
        image.len() <= u64::MAX,
        h2.len() >= 0xDC,
        is_rvz ==> group_size == 12,
        !is_rvz ==> group_size == 8,
        bytes::has_at(h2, 4, bytes::be_bytes(0, 4)),
        bytes::has_at(h2, 0x0C, bytes::be_bytes(chunk_size as int, 4)),
        0 < n <= 0xFFFF_FFFF,
        48 <= size <= 0xFFFF_FFFF,
        0 <= at,
        at + n * size <= image.len(),
        bytes::has_at(h2, 0x90, bytes::be_bytes(n, 4)),
        bytes::has_at(h2, 0x94, bytes::be_bytes(size, 4)),
        bytes::has_at(h2, 0x98, bytes::be_bytes(at, 8)),
        0 < n_raw,
        24 * n_raw <= 0xFFFF_FFFF,
        0 < raw_at,
        raw_at + 24 * n_raw <= image.len(),
        bytes::has_at(h2, 0xB4, bytes::be_bytes(n_raw, 4)),
        bytes::has_at(h2, 0xB8, bytes::be_bytes(raw_at, 8)),
        bytes::has_at(h2, 0xC0, bytes::be_bytes(24 * n_raw, 4)),
        0 < n_groups,
        group_size * n_groups <= 0xFFFF_FFFF,
        0 < groups_at,
        groups_at + group_size * n_groups <= image.len(),
        bytes::has_at(h2, 0xC4, bytes::be_bytes(n_groups, 4)),
        bytes::has_at(h2, 0xC8, bytes::be_bytes(groups_at, 8)),
        bytes::has_at(h2, 0xD0, bytes::be_bytes(group_size * n_groups, 4)),
    ensures
        tables_of(source::reads_of(image), h2, disc_size, is_rvz) matches Ok(v) && {
            &&& v.compression == 0
            &&& v.chunk_size == chunk_size
            &&& v.disc_size == disc_size
            &&& v.disc_head == h2.subrange(0x10, 0x90)
            &&& v.partitions.len() == n
            &&& v.raw_data.len() == n_raw
            &&& v.groups.len() == n_groups
            &&& forall|i: int|
                0 <= i < n ==> #[trigger] v.partitions[i] == partitions_of(
                    image.subrange(at, at + n * size),
                    n,
                    size,
                )[i]
            &&& forall|i: int|
                0 <= i < n_raw ==> #[trigger] v.raw_data[i] == raw_entry_at(
                    image.subrange(raw_at, raw_at + 24 * n_raw),
                    i,
                )
            &&& forall|i: int|
                0 <= i < n_groups ==> #[trigger] v.groups[i] == group_at(
                    image.subrange(groups_at, groups_at + group_size * n_groups),
                    i,
                    is_rvz,
                )
        },
{
    bytes::fields_hold_what_was_written(h2, 4, 0);
    bytes::fields_hold_what_was_written(h2, 0x0C, chunk_size as int);
    bytes::fields_hold_what_was_written(h2, 0x90, n);
    bytes::fields_hold_what_was_written(h2, 0x94, size);
    bytes::fields_hold_what_was_written(h2, 0x98, at);
    bytes::fields_hold_what_was_written(h2, 0xB4, n_raw);
    bytes::fields_hold_what_was_written(h2, 0xB8, raw_at);
    bytes::fields_hold_what_was_written(h2, 0xC0, 24 * n_raw);
    bytes::fields_hold_what_was_written(h2, 0xC4, n_groups);
    bytes::fields_hold_what_was_written(h2, 0xC8, groups_at);
    bytes::fields_hold_what_was_written(h2, 0xD0, group_size * n_groups);
    assert(0 <= n * size) by (nonlinear_arith)
        requires
            0 < n,
            48 <= size,
    ;
}

/// A disc without compression is read from its chunks: the chunks of a range are its bytes in
/// a row, each stored at four times the number that its group tells.
#[verifier::rlimit(40)]
pub proof fn a_stored_range_is_its_chunks(
    image: Seq<u8>,
    v: WiaView,
    range: Seq<u8>,
    pos: int,
    n: int,
)
    requires
        image.len() <= u64::MAX,
        v.compression == 0,
        v.chunk_size > 0,
        v.raw_data.len() == 1,
        v.raw_data[0].disc_size == range.len(),
        v.raw_data[0].group_index + v.raw_data[0].group_count <= v.groups.len(),
        v.chunk_size * v.raw_data[0].group_count >= range.len(),
        forall|k: int|
            0 <= k && v.chunk_size * k < range.len() ==> {
                let g = #[trigger] v.groups[v.raw_data[0].group_index + k];
                let len = if range.len() - v.chunk_size * k < v.chunk_size {
                    range.len() - v.chunk_size * k
                } else {
                    v.chunk_size as int
                };
                &&& g.packed_size == 0
                &&& g.data_size == len
                &&& 4 * g.data_offset4 + len <= image.len()
                &&& image.subrange(4 * g.data_offset4, 4 * g.data_offset4 + len) == range.subrange(
                    v.chunk_size * k,
                    v.chunk_size * k + len,
                )
            },
        v.raw_data[0].disc_offset <= pos,
        0 <= n,
        pos + n <= v.raw_data[0].disc_offset + range.len(),
        pos + n <= v.disc_size,
    ensures
        disc_bytes(source::reads_of(image), v, pos, n) == Ok::<Seq<u8>, Seq<char>>(
            range.subrange(
                pos - v.raw_data[0].disc_offset,
                pos - v.raw_data[0].disc_offset + n,
            ),
        ),
    decreases n,
{
    let e = v.raw_data[0];
    let reads = source::reads_of(image);
    let within = pos - e.disc_offset;
    if n > 0 {
        let c = v.chunk_size as int;
        let k = within / c;
        let w = within % c;
        assert(within == c * k + w && 0 <= w < c && 0 <= k) by (nonlinear_arith)
            requires
                c > 0,
                0 <= within,
                k == within / c,
                w == within % c,
        ;
        assert(k < e.group_count) by (nonlinear_arith)
            requires
                c * k <= within,
                within < range.len(),
                c * e.group_count >= range.len(),
                c > 0,
        ;
        assert(range_at(v.raw_data, 0, pos) == Some(e));
        assert(k * c == c * k) by (nonlinear_arith);
        let len = if range.len() - c * k < c {
            range.len() - c * k
        } else {
            c
        };
        let b = range.subrange(c * k, c * k + len);
        assert(v.groups[e.group_index + k].data_size == len);
        lemma_stored_chunk(image, v, e.group_index + k, b);
        assert(located(v, pos) == Some((e.group_index + k, w, len)));
        let m = least(n, len - w, v.disc_size - pos);
        assert(m > 0);
        a_stored_range_is_its_chunks(image, v, range, pos + m, n - m);
        assert(b.subrange(w, w + m) + range.subrange(within + m, within + n) =~= range.subrange(
            within,
            within + n,
        ));
    } else {
        assert(range.subrange(within, within) =~= seq![]);
    }
}

/// A chunk that is stored as it is.
proof fn lemma_stored_chunk(image: Seq<u8>, v: WiaView, index: int, b: Seq<u8>)
    requires
        image.len() <= u64::MAX,
        v.compression == 0,
        0 <= index < v.groups.len(),
        v.groups[index].packed_size == 0,
        v.groups[index].data_size == b.len(),
        0 < b.len(),
        4 * v.groups[index].data_offset4 + b.len() <= image.len(),
        image.subrange(
            4 * v.groups[index].data_offset4,
            4 * v.groups[index].data_offset4 + b.len(),
        ) == b,
    ensures
        chunk_of(source::reads_of(image), v, index, b.len() as int) == Ok::<Seq<u8>, Seq<char>>(b),
{
    assert(bytes::resized(b, b.len() as int) =~= b);
}

/// The first 0x80 bytes of the disc are those of the header.
pub proof fn the_disc_begins_with_its_header(head: Seq<u8>, pos: int, b: Seq<u8>)
    requires
        head.len() == 0x80,
        0 <= pos,
    ensures
        headed(head, pos, b).len() == b.len(),
        forall|i: int|
            0 <= i < b.len() && pos + i < 0x80 ==> #[trigger] headed(head, pos, b)[i] == head[pos
                + i],
        forall|i: int|
            0 <= i < b.len() && pos + i >= 0x80 ==> #[trigger] headed(head, pos, b)[i] == b[i],
{
}

/// The lists before the data of a group are passed over: each is a number and as many
/// records of 22 bytes.
pub proof fn lists_follow_each_other(stage: Seq<u8>, lists: int, at: int, count: int)
    requires
        0 < lists,
        0 <= at,
        at + 2 + 22 * count <= stage.len(),
        0 <= count <= 0xFFFF,
        bytes::has_at(stage, at, bytes::be_bytes(count, 2)),
    ensures
        past_lists(stage, lists, at) == past_lists(stage, lists - 1, at + 2 + 22 * count),
        lists == 1 ==> past_lists(stage, lists, at) == Ok::<int, Seq<char>>(at + 2 + 22 * count),
{
    bytes::fields_hold_what_was_written(stage, at, count);
}

/// A group has a list for each two mebibytes of its chunk.
pub proof fn lists_are_counted_by_the_chunk(chunk_size: u32, m: int, rest: int)
    requires
        chunk_size == 0x20_0000 * m + rest,
        0 <= m,
        0 <= rest < 0x20_0000,
    ensures
        m > 0 ==> list_count(chunk_size) == m,
        m == 0 ==> list_count(chunk_size) == 1,
{
}

/// A place in a partition is counted in sectors of 0x7C00 bytes, as many to a group as its
/// chunk has sectors of 0x8000: first those of the first segment, then those of the second.
pub proof fn a_partition_is_its_two_segments(
    chunk_size: u32,
    p: Partition,
    per: int,
    k: int,
    j: int,
    w: int,
)
    requires
        0 < per,
        0x8000 * per <= chunk_size < 0x8000 * per + 0x8000,
        0 <= k,
        0 <= j < per,
        0 <= w < 0x7C00,
    ensures
        per * k + j < p.first.sectors ==> partition_place(
            chunk_size,
            p,
            0x7C00 * (per * k + j) + w,
        ) == (p.first.group_index + k, 0x7C00 * j + w),
        partition_place(chunk_size, p, 0x7C00 * (p.first.sectors + per * k + j) + w) == (
            p.second.group_index + k,
            0x7C00 * j + w,
        ),
{
    let local = per * k + j;
    lemma_place_in_segment(chunk_size, p, per, k, j, w, local, 0x7C00 * local + w);
    lemma_place_in_segment(
        chunk_size,
        p,
        per,
        k,
        j,
        w,
        local,
        0x7C00 * (p.first.sectors + local) + w,
    );
    assert(p.first.sectors + per * k + j == p.first.sectors + local);
}

/// The place of a sector of either segment.
proof fn lemma_place_in_segment(
    chunk_size: u32,
    p: Partition,
    per: int,
    k: int,
    j: int,
    w: int,
    local: int,
    pos: int,
)
    requires
        0 < per,
        0x8000 * per <= chunk_size < 0x8000 * per + 0x8000,
        0 <= k,
        0 <= j < per,
        0 <= w < 0x7C00,
        local == per * k + j,
    ensures
        pos == 0x7C00 * local + w && local < p.first.sectors ==> partition_place(chunk_size, p, pos)
            == (p.first.group_index + k, 0x7C00 * j + w),
        pos == 0x7C00 * (p.first.sectors + local) + w ==> partition_place(chunk_size, p, pos) == (
            p.second.group_index + k,
            0x7C00 * j + w,
        ),
{
    assert(group_sectors(chunk_size) == per);
    assert(0 <= local && local / per == k && local % per == j) by (nonlinear_arith)
        requires
            local == per * k + j,
            0 <= k,
            0 <= j < per,
    ;
    lemma_sector(local, w);
    lemma_sector(p.first.sectors + local, w);
    reveal(partition_place);
    let place = partition_place(chunk_size, p, pos);
    if pos == 0x7C00 * local + w && local < p.first.sectors {
        assert(pos / 0x7C00 == local);
        assert(place.0 == p.first.group_index + local / per);
        assert(place.1 == (local % per) * 0x7C00 + w);
    }
    if pos == 0x7C00 * (p.first.sectors + local) + w {
        assert(pos / 0x7C00 == p.first.sectors + local);
        assert(place.0 == p.second.group_index + local / per);
        assert(place.1 == (local % per) * 0x7C00 + w);
    }
}

/// A place in sectors of 0x7C00 bytes, taken apart.
proof fn lemma_sector(x: int, w: int)
    requires
        0 <= w < 0x7C00,
    ensures
        (0x7C00 * x + w) / 0x7C00 == x,
        (0x7C00 * x + w) % 0x7C00 == w,
{
}

/// A read of a partition that does not reach behind its group is the stretch of what the
/// group holds.
pub proof fn a_partition_is_read_from_its_groups(
    reads: Reads,
    v: WiaView,
    p: Partition,
    group: int,
    within: int,
    data: Seq<u8>,
    pos: int,
    n: int,
)
    requires
        0 <= pos,
        0 < n,
        pos + n <= 0x7C00 * (p.first.sectors + p.second.sectors),
        partition_place(v.chunk_size, p, pos) == (group, within),
        partition_chunk_of(reads, v, group, data.len() as int) == Ok::<Seq<u8>, Seq<char>>(data),
        data.len() == 0x7C00 * group_sectors(v.chunk_size),
        0 <= within,
        within + n <= data.len(),
    ensures
        partition_read(reads, v, p, pos, n) == Ok::<Seq<u8>, Seq<char>>(
            data.subrange(within, within + n),
        ),
{
    reveal_with_fuel(partition_read, 2);
    assert(data.subrange(within, within + n) + seq![] =~= data.subrange(within, within + n));
}

} // verus!
