//! Measurements of the angular position of sectors, kept beside an image.
use vstd::prelude::*;
use crate::bytes;
use crate::bytes::{read_u32_le, spells_at};
use crate::text;
use crate::text::{chars_of, ends_with};

verus! {

/// Samples of the angular velocity, taken at every so many sectors.
pub struct DpmBlock {
    pub start_sector: u32,
    pub resolution: u32,
    pub data: Vec<u32>,
}

/// The contents of a block.
#[verifier::ext_equal]
pub struct BlockView {
    pub start_sector: u32,
    pub resolution: u32,
    pub data: Seq<u32>,
}

impl View for DpmBlock {
    type V = BlockView;

    open spec fn view(&self) -> BlockView {
        BlockView {
            start_sector: self.start_sector,
            resolution: self.resolution,
            data: self.data@,
        }
    }
}

/// A number held at the largest of 32 bits.
pub open spec fn held(n: int) -> int {
    if n > 0xffff_ffff {
        0xffff_ffff
    } else {
        n
    }
}

/// The sector behind the last that a block covers.
pub open spec fn block_end(b: BlockView) -> u32 {
    held(b.start_sector + held(b.resolution * (b.data.len() as u32))) as u32
}

/// Whether a block has a sample for a sector.
pub open spec fn block_covers(b: BlockView, sector: u32) -> bool {
    b.start_sector <= sector < block_end(b)
}

/// The sample of a block for a sector.
pub open spec fn block_sample(b: BlockView, sector: u32) -> Option<u32> {
    let k = (sector - b.start_sector) / b.resolution as int;
    if block_covers(b, sector) && k < b.data.len() {
        Some(b.data[k])
    } else {
        None
    }
}

/// A block without resolution covers nothing.
proof fn lemma_no_resolution(b: BlockView, sector: u32)
    requires
        block_covers(b, sector),
    ensures
        b.resolution > 0,
{
    if b.resolution == 0 {
        let n = b.data.len() as u32;
        assert(b.resolution * n == 0) by (nonlinear_arith)
            requires
                b.resolution == 0,
        ;
    }
}

impl DpmBlock {
    /// The sector behind the last that this block covers.
    pub fn end_sector(&self) -> (r: u32)
        ensures
            r == block_end(self@),
    {
        let n: usize = self.data.len();
        let count: u32 = #[verifier::truncate] (n as u32);
        proof {
            let a = self.resolution as int;
            let b = count as int;
            assert(0 <= a * b <= 0xffff_ffff * 0xffff_ffff) by (nonlinear_arith)
                requires
                    0 <= a <= 0xffff_ffff,
                    0 <= b <= 0xffff_ffff,
            ;
        }
        let span: u64 = self.resolution as u64 * count as u64;
        let held_span: u64 = if span > 0xffff_ffff {
            0xffff_ffff
        } else {
            span
        };
        let end: u64 = self.start_sector as u64 + held_span;
        if end > 0xffff_ffff {
            0xffff_ffff
        } else {
            end as u32
        }
    }

    /// Whether this block has a sample for a sector.
    pub fn covers(&self, sector: u32) -> (r: bool)
        ensures
            r == block_covers(self@, sector),
    {
        sector >= self.start_sector && sector < self.end_sector()
    }

    /// The sample for a sector.
    pub fn sample_at(&self, sector: u32) -> (r: Option<u32>)
        ensures
            r == block_sample(self@, sector),
    {
        if !self.covers(sector) {
            return None;
        }
        proof {
            lemma_no_resolution(self@, sector);
        }
        let k: u32 = (sector - self.start_sector) / self.resolution;
        if (k as u64) < self.data.len() as u64 {
            Some(self.data[k as usize])
        } else {
            None
        }
    }
}

/// All measurements of an image.
pub struct DpmData {
    pub blocks: Vec<DpmBlock>,
}

/// The contents of blocks.
pub open spec fn block_views(v: Seq<DpmBlock>) -> Seq<BlockView> {
    v.map_values(|b: DpmBlock| b@)
}

/// Of the first `n` blocks that cover a sector, the first of the finest
/// resolution.
pub open spec fn finest(blocks: Seq<BlockView>, sector: u32, n: int) -> Option<int>
    decreases n,
{
    if n <= 0 {
        None
    } else {
        let best = finest(blocks, sector, n - 1);
        if block_covers(blocks[n - 1], sector) && (match best {
            Some(k) => blocks[n - 1].resolution < blocks[k].resolution,
            None => true,
        }) {
            Some(n - 1)
        } else {
            best
        }
    }
}

/// The sample for a sector in the block that measures it most finely.
pub open spec fn best_sample(blocks: Seq<BlockView>, sector: u32) -> Option<u32> {
    match finest(blocks, sector, blocks.len() as int) {
        Some(k) => block_sample(blocks[k], sector),
        None => None,
    }
}

/// The block that is chosen covers the sector, no covering block is finer, and none
/// before it is as fine.
pub proof fn the_finest_block_is_chosen(blocks: Seq<BlockView>, sector: u32, n: int)
    ensures
        match finest(blocks, sector, n) {
            Some(k) => 0 <= k < n && block_covers(blocks[k], sector) && forall|j: int|
                0 <= j < n && block_covers(#[trigger] blocks[j], sector) ==> blocks[k].resolution
                    <= blocks[j].resolution && (j < k ==> blocks[k].resolution
                    < blocks[j].resolution),
            None => forall|j: int|
                0 <= j < n ==> !block_covers(#[trigger] blocks[j], sector),
        },
    decreases n,
{
    if n > 0 {
        the_finest_block_is_chosen(blocks, sector, n - 1);
    }
}

impl DpmData {
    /// The sample for a sector in the block that measures it most finely.
    pub fn sample_at(&self, sector: u32) -> (r: Option<u32>)
        ensures
            r == best_sample(block_views(self.blocks@), sector),
    {
        let ghost bv = block_views(self.blocks@);
        let mut best: Option<usize> = None;
        let mut i: usize = 0;
        while i < self.blocks.len()
            invariant
                i <= self.blocks@.len(),
                bv == block_views(self.blocks@),
                match best {
                    Some(k) => k < i && finest(bv, sector, i as int) == Some(k as int),
                    None => finest(bv, sector, i as int) is None,
                },
            decreases self.blocks@.len() - i,
        {
            assert(bv[i as int] == self.blocks@[i as int]@);
            if self.blocks[i].covers(sector) {
                match best {
                    Some(k) => {
                        assert(bv[k as int] == self.blocks@[k as int]@);
                        if self.blocks[i].resolution < self.blocks[k].resolution {
                            best = Some(i);
                        }
                    },
                    None => {
                        best = Some(i);
                    },
                }
            }
            i += 1;
        }
        match best {
            Some(k) => {
                assert(bv[k as int] == self.blocks@[k as int]@);
                self.blocks[k].sample_at(sector)
            },
            None => None,
        }
    }
}

// ── Files ───────────────────────────────────────────────────────────────────

/// The samples at `at`, `n` of them.
pub open spec fn samples_at(raw: Seq<u8>, at: int, n: int) -> Seq<u32> {
    Seq::new(n as nat, |i: int| bytes::le32_at(raw, at + i * 4) as u32)
}

/// The block whose start, resolution and count stand at `at`, with the samples
/// behind them.
pub open spec fn block_at(raw: Seq<u8>, at: int) -> Option<BlockView> {
    let resolution = bytes::le32_at(raw, at + 4);
    let n = bytes::le32_at(raw, at + 8);
    if at + 12 > raw.len() || resolution == 0 || n == 0 || at + 12 + n * 4 > raw.len() {
        None
    } else {
        Some(
            BlockView {
                start_sector: bytes::le32_at(raw, at) as u32,
                resolution: resolution as u32,
                data: samples_at(raw, at + 12, n),
            },
        )
    }
}

/// Reads a block.
fn read_block(raw: &[u8], at: u64) -> (r: Option<DpmBlock>)
    requires
        at <= 0x2_0000_0000,
    ensures
        match r {
            Some(b) => block_at(raw@, at as int) == Some(b@),
            None => block_at(raw@, at as int) is None,
        },
{
    let len: usize = raw.len();
    if at + 12 > len as u64 {
        return None;
    }
    let base: usize = at as usize;
    let start_sector: u32 = read_u32_le(raw, base);
    let resolution: u32 = read_u32_le(raw, base + 4);
    let n: u32 = read_u32_le(raw, base + 8);
    if resolution == 0 || n == 0 || at + 12 + n as u64 * 4 > len as u64 {
        return None;
    }
    let mut data: Vec<u32> = Vec::new();
    let mut i: usize = 0;
    let count: usize = n as usize;
    while i < count
        invariant
            i <= count,
            count == n,
            base + 12 + n * 4 <= raw@.len(),
            raw@.len() <= usize::MAX,
            data@.len() == i,
            forall|j: int|
                0 <= j < i ==> data@[j] == #[trigger] samples_at(raw@, base + 12, n as int)[j],
        decreases count - i,
    {
        let v: u32 = read_u32_le(raw, base + 12 + i * 4);
        assert(samples_at(raw@, base + 12, n as int)[i as int] == v);
        data.push(v);
        i += 1;
    }
    assert(data@ =~= samples_at(raw@, base + 12, n as int));
    Some(DpmBlock { start_sector, resolution, data })
}

/// The blocks that the first `n` pointers from `at` on lead to; the first pointer
/// that is cut off ends them.
pub open spec fn blocks_from(raw: Seq<u8>, at: int, n: int) -> Seq<BlockView>
    decreases n,
{
    if n <= 0 || at + 4 > raw.len() {
        seq![]
    } else {
        let rest = blocks_from(raw, at + 4, n - 1);
        match block_at(raw, bytes::le32_at(raw, at) + 4) {
            Some(b) => seq![b] + rest,
            None => rest,
        }
    }
}

/// The measurements in an Alcohol descriptor.
pub open spec fn mds_blocks(raw: Seq<u8>) -> Option<Seq<BlockView>> {
    let table = bytes::le32_at(raw, 0x54);
    if raw.len() < 0x58 || !bytes::spells(raw, 0, "MEDIA DESCRIPTOR"@) || table == 0 || table + 8
        > raw.len() || bytes::le32_at(raw, table) == 0 {
        None
    } else {
        let v = blocks_from(raw, table + 4, bytes::le32_at(raw, table));
        if v.len() == 0 {
            None
        } else {
            Some(v)
        }
    }
}

/// Reads the measurements in an Alcohol descriptor.
#[verifier::loop_isolation(false)]
pub fn parse_mds_dpm(raw: &[u8]) -> (r: Option<DpmData>)
    ensures
        match r {
            Some(d) => mds_blocks(raw@) == Some(block_views(d.blocks@)),
            None => mds_blocks(raw@) is None,
        },
{
    let len: usize = raw.len();
    if len < 0x58 || !spells_at(raw, 0, "MEDIA DESCRIPTOR") {
        return None;
    }
    let table: u32 = read_u32_le(raw, 0x54);
    if table == 0 || table as u64 + 8 > len as u64 {
        return None;
    }
    let n: u32 = read_u32_le(raw, table as usize);
    if n == 0 {
        return None;
    }
    let ghost goal = blocks_from(raw@, table + 4, n as int);
    let mut blocks: Vec<DpmBlock> = Vec::new();
    let mut at: u64 = table as u64 + 4;
    let mut left: u32 = n;
    assert(block_views(blocks@) + goal =~= goal);
    while left > 0 && at + 4 <= len as u64
        invariant
            left <= n,
            at == table + 4 + (n - left) * 4,
            block_views(blocks@) + blocks_from(raw@, at as int, left as int) == goal,
        decreases left,
    {
        let ghost before = block_views(blocks@);
        let ghost rest = blocks_from(raw@, at + 4, left - 1);
        let place: u32 = read_u32_le(raw, at as usize);
        match read_block(raw, place as u64 + 4) {
            Some(b) => {
                let ghost bv = b@;
                blocks.push(b);
                assert(block_views(blocks@) =~= before + seq![bv]);
                assert(before + (seq![bv] + rest) =~= before + seq![bv] + rest);
            },
            None => {},
        }
        at += 4;
        left -= 1;
    }
    assert(block_views(blocks@) + seq![] =~= block_views(blocks@));
    if blocks.len() == 0 {
        None
    } else {
        Some(DpmData { blocks })
    }
}

/// The measurements in a BlindWrite sidecar: one block behind its header.
pub open spec fn bwa_blocks(raw: Seq<u8>) -> Option<Seq<BlockView>> {
    match block_at(raw, 32) {
        Some(b) => Some(seq![b]),
        None => None,
    }
}

/// Reads the measurements in a BlindWrite sidecar.
pub fn parse_bwa_dpm(raw: &[u8]) -> (r: Option<DpmData>)
    ensures
        match r {
            Some(d) => bwa_blocks(raw@) == Some(block_views(d.blocks@)),
            None => bwa_blocks(raw@) is None,
        },
{
    match read_block(raw, 32) {
        Some(b) => {
            let ghost bv = b@;
            let mut blocks: Vec<DpmBlock> = Vec::new();
            blocks.push(b);
            assert(block_views(blocks@) =~= seq![bv]);
            Some(DpmData { blocks })
        },
        None => None,
    }
}

/// Where an image keeps its measurements.
#[derive(Clone, Copy, PartialEq, Eq, Structural)]
pub enum DpmPlace {
    Descriptor,
    Sidecar,
    Nowhere,
}

/// Where an image keeps its measurements, by its name in lower case.
pub open spec fn place_of(lower: Seq<char>) -> DpmPlace {
    if text::ends(lower, ".mds"@) {
        DpmPlace::Descriptor
    } else if text::ends(lower, ".b6t"@) || text::ends(lower, ".b5t"@) {
        DpmPlace::Sidecar
    } else {
        DpmPlace::Nowhere
    }
}

/// Where an image keeps its measurements, by its name in lower case.
pub fn dpm_place(lower: &str) -> (r: DpmPlace)
    ensures
        r == place_of(lower@),
{
    let c: Vec<char> = chars_of(lower);
    if ends_with(c.as_slice(), ".mds") {
        DpmPlace::Descriptor
    } else if ends_with(c.as_slice(), ".b6t") || ends_with(c.as_slice(), ".b5t") {
        DpmPlace::Sidecar
    } else {
        DpmPlace::Nowhere
    }
}

/// The measurements of an image: `raw` is the file that keeps them.
pub fn get_dpm_data(lower: &str, raw: &[u8]) -> (r: Option<DpmData>)
    ensures
        match (place_of(lower@), r) {
            (DpmPlace::Descriptor, Some(d)) => mds_blocks(raw@) == Some(block_views(d.blocks@)),
            (DpmPlace::Descriptor, None) => mds_blocks(raw@) is None,
            (DpmPlace::Sidecar, Some(d)) => bwa_blocks(raw@) == Some(block_views(d.blocks@)),
            (DpmPlace::Sidecar, None) => bwa_blocks(raw@) is None,
            (DpmPlace::Nowhere, _) => r is None,
        },
{
    match dpm_place(lower) {
        DpmPlace::Descriptor => parse_mds_dpm(raw),
        DpmPlace::Sidecar => parse_bwa_dpm(raw),
        DpmPlace::Nowhere => None,
    }
}

/// A block holds what was written at its place: where it starts, how many sectors lie between
/// two samples, and the samples.
pub proof fn a_block_holds_what_was_written(raw: Seq<u8>, at: int, b: BlockView)
    requires
        0 <= at,
        at + 12 + 4 * b.data.len() <= raw.len(),
        b.resolution > 0,
        0 < b.data.len() <= 0xFFFF_FFFF,
        bytes::has_at(raw, at, bytes::le_bytes(b.start_sector as int, 4)),
        bytes::has_at(raw, at + 4, bytes::le_bytes(b.resolution as int, 4)),
        bytes::has_at(raw, at + 8, bytes::le_bytes(b.data.len() as int, 4)),
        forall|i: int|
            0 <= i < b.data.len() ==> bytes::has_at(
                raw,
                at + 12 + 4 * i,
                bytes::le_bytes(#[trigger] b.data[i] as int, 4),
            ),
    ensures
        block_at(raw, at) == Some(b),
{
    bytes::fields_hold_what_was_written(raw, at, b.start_sector as int);
    bytes::fields_hold_what_was_written(raw, at + 4, b.resolution as int);
    bytes::fields_hold_what_was_written(raw, at + 8, b.data.len() as int);
    let n = b.data.len() as int;
    assert forall|i: int| 0 <= i < n implies #[trigger] samples_at(raw, at + 12, n)[i]
        == b.data[i] by {
        bytes::fields_hold_what_was_written(raw, at + 12 + 4 * i, b.data[i] as int);
    }
    assert(samples_at(raw, at + 12, n) =~= b.data);
}

/// A pointer in a descriptor's table leads to four bytes before its block, and the pointers
/// follow each other.
pub proof fn pointers_lead_to_their_blocks(raw: Seq<u8>, at: int, n: int, to: int, b: BlockView)
    requires
        0 <= at,
        at + 4 <= raw.len(),
        0 < n,
        0 <= to <= 0xFFFF_FFFF,
        bytes::has_at(raw, at, bytes::le_bytes(to, 4)),
        block_at(raw, to + 4) == Some(b),
    ensures
        blocks_from(raw, at, n) == seq![b] + blocks_from(raw, at + 4, n - 1),
        n == 1 ==> blocks_from(raw, at, n) == seq![b],
{
    bytes::fields_hold_what_was_written(raw, at, to);
    if n == 1 {
        assert(seq![b] + Seq::<BlockView>::empty() =~= seq![b]);
    }
}

/// A descriptor tells at byte 0x54 where the table of its measurements stands.
pub proof fn a_descriptor_names_its_measurements(raw: Seq<u8>, table: int, n: int)
    requires
        raw.len() >= 0x58,
        bytes::spells(raw, 0, "MEDIA DESCRIPTOR"@),
        0 < table,
        table + 8 <= raw.len(),
        table <= 0xFFFF_FFFF,
        0 < n <= 0xFFFF_FFFF,
        bytes::has_at(raw, 0x54, bytes::le_bytes(table, 4)),
        bytes::has_at(raw, table, bytes::le_bytes(n, 4)),
        blocks_from(raw, table + 4, n).len() > 0,
    ensures
        mds_blocks(raw) == Some(blocks_from(raw, table + 4, n)),
{
    bytes::fields_hold_what_was_written(raw, 0x54, table);
    bytes::fields_hold_what_was_written(raw, table, n);
}

/// A sector has the sample of the stretch that it lies in, and none outside its block.
pub proof fn a_sample_stands_for_its_stretch(b: BlockView, k: int, j: int, sector: u32)
    requires
        b.resolution > 0,
        0 <= k < b.data.len(),
        0 <= j < b.resolution,
        b.data.len() <= 0xFFFF_FFFF,
        sector == b.start_sector + b.resolution * k + j,
        b.start_sector + b.resolution * b.data.len() <= 0xFFFF_FFFF,
    ensures
        block_sample(b, sector) == Some(b.data[k]),
{
    let r = b.resolution as int;
    let n = b.data.len() as int;
    let off = r * k + j;
    assert(off / r == k && r * k + j < r * n) by (nonlinear_arith)
        requires
            off == r * k + j,
            0 <= k < n,
            0 <= j < r,
    ;
    assert(0 <= r * n) by (nonlinear_arith)
        requires
            0 < r,
            0 <= n,
    ;
    assert(b.resolution * (b.data.len() as u32) == r * n);
}

} // verus!
