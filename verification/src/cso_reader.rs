//! Compressed ISO images: blocks that are deflated one by one.
use vstd::prelude::*;
use crate::bytes;
use crate::bytes::{cut, read_u32_le, read_u64_le, spells_at};
use crate::codec;
use crate::codec::deflate_decode_exact;
use crate::source;
use crate::source::{read_labelled, read_wide, ByteSource, Reads};

verus! {

/// The number of blocks that `total` bytes take.
pub open spec fn block_count(total: int, block_size: int) -> int {
    (total + block_size - 1) / block_size
}

/// The `n` index entries from `pos` on.
pub open spec fn index_from(reads: Reads, pos: int, n: int) -> Result<Seq<u32>, Seq<char>>
    decreases n,
{
    if n <= 0 {
        Ok(seq![])
    } else {
        match source::labelled(source::reach(reads, pos, 4), "CSO index: "@) {
            Err(e) => Err(e),
            Ok(b) => match index_from(reads, pos + 4, n - 1) {
                Err(e) => Err(e),
                Ok(rest) => Ok(seq![bytes::le32_at(b, 0) as u32] + rest),
            },
        }
    }
}

/// What the header and the index of an image say.
#[verifier::ext_equal]
pub struct CsoView {
    pub block_size: u64,
    pub total_bytes: u64,
    pub align: u8,
    pub index: Seq<u32>,
}

/// What the header and the index of an image say.
pub open spec fn opened(reads: Reads) -> Result<CsoView, Seq<char>> {
    match source::labelled(reads(0, 24), "CSO header: "@) {
        Err(e) => Err(e),
        Ok(h) => {
            let total = bytes::le64_at(h, 8);
            let size = bytes::le32_at(h, 16);
            if !bytes::spells(h, 0, "CISO"@) {
                Err("Not a CSO file"@)
            } else if size == 0 {
                Err("Invalid CSO: block_size=0"@)
            } else {
                match index_from(reads, 24, block_count(total, size) + 1) {
                    Err(e) => Err(e),
                    Ok(index) => Ok(
                        CsoView {
                            block_size: size as u64,
                            total_bytes: total as u64,
                            align: h[21],
                            index,
                        },
                    ),
                }
            }
        },
    }
}

/// The position that an index entry stands for.
pub open spec fn entry_pos(entry: u32, align: u8) -> u64 {
    ((entry & 0xffff_fffe) as u64) << (align as u64)
}

/// Whether the index says where a block stands: its entry and the next one are
/// there, in their order, and a block of that length can be held.
pub open spec fn is_recorded(v: CsoView, k: int) -> bool {
    &&& 0 <= k
    &&& k + 1 < v.index.len()
    &&& v.align < 64
    &&& entry_pos(v.index[k], v.align) <= entry_pos(v.index[k + 1], v.align)
    &&& v.block_size <= isize::MAX
}

/// The bytes of a block: as they are stored where the entry's low bit is set,
/// else inflated.
pub open spec fn block_at(reads: Reads, v: CsoView, k: int) -> Result<Seq<u8>, Seq<char>> {
    let pos = entry_pos(v.index[k], v.align) as int;
    match source::reach(reads, pos, entry_pos(v.index[k + 1], v.align) - pos) {
        Err(e) => Err(e),
        Ok(stored) => if v.index[k] & 1 != 0 {
            Ok(stored)
        } else {
            codec::deflate_prefix(stored, v.block_size as nat)
        },
    }
}

/// What is left of `b` from `at` on, up to `n` bytes.
pub open spec fn part(b: Seq<u8>, at: int, n: int) -> Seq<u8> {
    if at >= b.len() {
        seq![]
    } else if n < b.len() - at {
        b.subrange(at, at + n)
    } else {
        b.skip(at)
    }
}

/// What is left of `b` from `at` on, up to `n` bytes.
pub fn take_part(b: &[u8], at: u64, n: usize) -> (r: Vec<u8>)
    ensures
        r@ == part(b@, at as int, n as int),
{
    let len: usize = b.len();
    if at >= len as u64 {
        let none: Vec<u8> = Vec::new();
        assert(none@ =~= seq![]);
        return none;
    }
    let from: usize = at as usize;
    if n < len - from {
        cut(b, from, from + n)
    } else {
        assert(b@.subrange(from as int, len as int) =~= b@.skip(from as int));
        cut(b, from, len)
    }
}

/// Up to `n` bytes from the sector `lba` on, within the block that holds it.
pub open spec fn sector_read(reads: Reads, v: CsoView, lba: int, n: int) -> Result<
    Seq<u8>,
    Seq<char>,
> {
    let size = v.block_size as int;
    match block_at(reads, v, (lba * 2048) / size) {
        Err(e) => Err(e),
        Ok(b) => Ok(part(b, (lba * 2048) % size, n)),
    }
}

/// A compressed image.
pub struct CsoReader<S> {
    pub source: S,
    pub block_size: u64,
    pub total_bytes: u64,
    pub align: u8,
    pub index: Vec<u32>,
    pub cache: Option<(u64, Vec<u8>)>,
}

impl<S: ByteSource> CsoReader<S> {
    /// What the header and the index of this image say.
    pub open spec fn told(&self) -> CsoView {
        CsoView {
            block_size: self.block_size,
            total_bytes: self.total_bytes,
            align: self.align,
            index: self.index@,
        }
    }

    /// Whether there are blocks of some length, and the block that is kept is the
    /// one that the image holds.
    pub open spec fn wf(&self) -> bool {
        &&& self.block_size > 0
        &&& self.cache matches Some((k, b)) ==> block_at(
            self.source.reads(),
            self.told(),
            k as int,
        ) == Ok::<Seq<u8>, Seq<char>>(b@)
    }

    /// Opens an image.
    #[verifier::loop_isolation(false)]
    pub fn open(source: S) -> (r: Result<CsoReader<S>, String>)
        ensures
            match r {
                Ok(c) => opened(source.reads()) == Ok::<CsoView, Seq<char>>(c.told()) && c.wf()
                    && c.source.reads() == source.reads(),
                Err(e) => opened(source.reads()) == Err::<CsoView, Seq<char>>(e@),
            },
    {
        let ghost reads = source.reads();
        let mut src: S = source;
        let h: Vec<u8> = match read_labelled(&mut src, 0, 24, "CSO header: ") {
            Ok(b) => b,
            Err(e) => {
                return Err(e);
            },
        };
        let hs: &[u8] = h.as_slice();
        if !spells_at(hs, 0, "CISO") {
            return Err("Not a CSO file".to_owned());
        }
        let total_bytes: u64 = read_u64_le(hs, 8);
        let size: u32 = read_u32_le(hs, 16);
        let align: u8 = h[21];
        if size == 0 {
            return Err("Invalid CSO: block_size=0".to_owned());
        }
        let n: u128 = (total_bytes as u128 + size as u128 - 1) / size as u128 + 1;
        let ghost goal = index_from(reads, 24, n as int);
        let mut index: Vec<u32> = Vec::new();
        let mut left: u128 = n;
        let mut pos: u128 = 24;
        proof {
            if let Ok(v) = goal {
                assert(index@ + v =~= v);
            }
            assert(n <= 0x1_0000_0000_0000_0000 + 0x1_0000_0000) by {
                let t = total_bytes as int;
                let s = size as int;
                assert((t + s - 1) / s <= t + s - 1) by (nonlinear_arith)
                    requires
                        t >= 0,
                        s >= 1,
                ;
            }
        }
        while left > 0
            invariant
                left <= n,
                pos == 24 + 4 * (n - left),
                src.reads() == reads,
                goal is Err <==> index_from(reads, pos as int, left as int) is Err,
                goal matches Err(e) ==> index_from(reads, pos as int, left as int) == goal,
                goal matches Ok(v) ==> index@ + index_from(reads, pos as int, left as int)->Ok_0
                    == v,
            decreases left,
        {
            let b: Vec<u8> = match read_wide(&mut src, pos, 4, "CSO index: ") {
                Ok(b) => b,
                Err(e) => {
                    return Err(e);
                },
            };
            let v: u32 = read_u32_le(b.as_slice(), 0);
            let ghost before = index@;
            let ghost rest = index_from(reads, pos + 4, left - 1);
            index.push(v);
            proof {
                if let Ok(t) = rest {
                    assert(before + (seq![v] + t) =~= index@ + t);
                }
            }
            pos = pos + 4;
            left = left - 1;
        }
        assert(index@ + seq![] =~= index@);
        Ok(
            CsoReader {
                source: src,
                block_size: size as u64,
                total_bytes,
                align,
                index,
                cache: None,
            },
        )
    }

    /// Whether the index says where the block stands that holds a sector.
    pub fn has_sector(&self, lba: u64) -> (r: bool)
        requires
            self.wf(),
        ensures
            r == is_recorded(self.told(), (lba * 2048) / self.block_size as int),
    {
        let k: u128 = (lba as u128 * 2048) / self.block_size as u128;
        let len: usize = self.index.len();
        if k + 1 >= len as u128 || self.align >= 64 || self.block_size > isize::MAX as u64 {
            return false;
        }
        let i: usize = k as usize;
        let a: u64 = ((self.index[i] & 0xffff_fffe) as u64) << (self.align as u64);
        let b: u64 = ((self.index[i + 1] & 0xffff_fffe) as u64) << (self.align as u64);
        a <= b
    }

    /// Reads a block.
    fn load(&mut self, k: u64) -> (r: Result<(), String>)
        requires
            old(self).wf(),
            is_recorded(old(self).told(), k as int),
        ensures
            final(self).wf(),
            final(self).told() == old(self).told(),
            final(self).source.reads() == old(self).source.reads(),
            match r {
                Ok(_) => final(self).cache matches Some((i, b)) && i == k && block_at(
                    old(self).source.reads(),
                    old(self).told(),
                    k as int,
                ) == Ok::<Seq<u8>, Seq<char>>(b@),
                Err(e) => block_at(old(self).source.reads(), old(self).told(), k as int) == Err::<
                    Seq<u8>,
                    Seq<char>,
                >(e@),
            },
    {
        let held: bool = match &self.cache {
            Some((i, _)) => *i == k,
            None => false,
        };
        if held {
            return Ok(());
        }
        let len: usize = self.index.len();
        let i: usize = k as usize;
        let entry: u32 = self.index[i];
        let pos: u64 = ((entry & 0xffff_fffe) as u64) << (self.align as u64);
        let end: u64 = ((self.index[i + 1] & 0xffff_fffe) as u64) << (self.align as u64);
        let stored: Vec<u8> = match read_wide(&mut self.source, pos as u128, end - pos, "") {
            Ok(b) => b,
            Err(e) => {
                assert(""@ + source::reach(
                    old(self).source.reads(),
                    pos as int,
                    end - pos,
                )->Err_0 =~= source::reach(old(self).source.reads(), pos as int, end - pos)->Err_0)
                    by {
                    reveal_strlit("");
                }
                return Err(e);
            },
        };
        let block: Vec<u8> = if entry & 1 != 0 {
            stored
        } else {
            match deflate_decode_exact(stored.as_slice(), self.block_size as usize) {
                Ok(b) => b,
                Err(e) => {
                    return Err(e);
                },
            }
        };
        self.cache = Some((k, block));
        Ok(())
    }

    /// Reads up to `n` bytes from the sector `lba` on, within the block that holds
    /// it; nothing of a block that is too short to hold it.
    pub fn read_at(&mut self, lba: u64, n: usize) -> (r: Result<Vec<u8>, String>)
        requires
            old(self).wf(),
            is_recorded(old(self).told(), (lba * 2048) / old(self).block_size as int),
        ensures
            final(self).wf(),
            final(self).told() == old(self).told(),
            final(self).source.reads() == old(self).source.reads(),
            source::outcome(r) == sector_read(
                old(self).source.reads(),
                old(self).told(),
                lba as int,
                n as int,
            ),
    {
        let at: u128 = lba as u128 * 2048;
        let k: u128 = at / self.block_size as u128;
        let off: u128 = at % self.block_size as u128;
        let len: usize = self.index.len();
        proof {
            let a = at as int;
            let s = self.block_size as int;
            assert(0 <= a % s < s) by (nonlinear_arith)
                requires
                    s > 0,
            ;
            assert(k < len);
        }
        match self.load(k as u64) {
            Err(e) => Err(e),
            Ok(_) => {
                match &self.cache {
                    Some((_, b)) => Ok(take_part(b.as_slice(), off as u64, n)),
                    None => {
                        assert(false);
                        Err("".to_owned())
                    },
                }
            },
        }
    }
}

// ── Laws ────────────────────────────────────────────────────────────────────

/// The index holds the numbers that follow each other in the image, four bytes each.
pub proof fn the_index_is_read_in_order(image: Seq<u8>, pos: int, n: int)
    requires
        0 <= pos,
        0 <= n,
        pos + 4 * n <= image.len() <= u64::MAX,
    ensures
        index_from(source::reads_of(image), pos, n) matches Ok(v) && v.len() == n && forall|k: int|
            0 <= k < n ==> #[trigger] v[k] as int == image[pos + 4 * k] + 256 * image[pos + 4 * k
                + 1] + 65536 * image[pos + 4 * k + 2] + 16777216 * image[pos + 4 * k + 3],
    decreases n,
{
    if n > 0 {
        the_index_is_read_in_order(image, pos + 4, n - 1);
        let b = image.subrange(pos, pos + 4);
        let rest = index_from(source::reads_of(image), pos + 4, n - 1)->Ok_0;
        let v = seq![bytes::le32_at(b, 0) as u32] + rest;
        assert forall|k: int| 0 <= k < n implies #[trigger] v[k] as int == image[pos + 4 * k] + 256
            * image[pos + 4 * k + 1] + 65536 * image[pos + 4 * k + 2] + 16777216 * image[pos + 4 * k
            + 3] by {
            if k > 0 {
                assert(v[k] == rest[k - 1]);
            }
        }
    }
}

/// The number of blocks of an image is the least that its bytes fit into, and the index has
/// one entry more.
pub proof fn blocks_cover_the_image(total: int, block_size: int)
    requires
        0 <= total,
        block_size > 0,
    ensures
        total <= block_count(total, block_size) * block_size < total + block_size,
{
    let n = total + block_size - 1;
    vstd::arithmetic::div_mod::lemma_fundamental_div_mod(n, block_size);
    vstd::arithmetic::div_mod::lemma_mod_bound(n, block_size);
    assert(block_size * (n / block_size) == (n / block_size) * block_size) by (nonlinear_arith);
}

/// Blocks that are stored as they are, one after the other behind what the index counts as
/// its first position, read as the image that was cut into them; a block whose entry is even
/// reads as what inflating its stored bytes gives.
pub proof fn stored_blocks_read_as_the_image(
    front: Seq<u8>,
    blocks: Seq<Seq<u8>>,
    rest: Seq<u8>,
    v: CsoView,
    lba: int,
    n: int,
)
    requires
        v.align == 0,
        0 < v.block_size,
        v.index.len() == blocks.len() + 1,
        forall|k: int| 0 <= k < blocks.len() ==> (#[trigger] blocks[k]).len() == v.block_size,
        forall|k: int|
            0 <= k <= blocks.len() ==> (#[trigger] v.index[k]) / 2 * 2 == front.len() + k
                * v.block_size,
        0 <= lba,
        0 <= n,
        lba * 2048 < blocks.len() * v.block_size,
        lba * 2048 % (v.block_size as int) + n <= v.block_size,
        source::image_of(front, blocks, v.block_size as int, rest).len() <= u64::MAX,
    ensures
        ({
            let k = lba * 2048 / (v.block_size as int);
            let r = sector_read(
                source::reads_of(source::image_of(front, blocks, v.block_size as int, rest)),
                v,
                lba,
                n,
            );
            &&& v.index[k] % 2 == 1 ==> r == Ok::<Seq<u8>, Seq<char>>(
                source::end_to_end(blocks, v.block_size as int).subrange(
                    lba * 2048,
                    lba * 2048 + n,
                ),
            )
            &&& v.index[k] % 2 == 0 ==> match codec::deflate_prefix(blocks[k], v.block_size as nat) {
                Err(e) => r == Err::<Seq<u8>, Seq<char>>(e),
                Ok(b) => b.len() == v.block_size ==> r == Ok::<Seq<u8>, Seq<char>>(
                    b.subrange(
                        lba * 2048 % (v.block_size as int),
                        lba * 2048 % (v.block_size as int) + n,
                    ),
                ),
            }
        }),
{
    let size = v.block_size as int;
    let pos = lba * 2048;
    let k = pos / size;
    let at = pos % size;
    let count = blocks.len() as int;
    vstd::arithmetic::div_mod::lemma_fundamental_div_mod(pos, size);
    vstd::arithmetic::div_mod::lemma_mod_bound(pos, size);
    assert(0 <= k < count) by (nonlinear_arith)
        requires
            size > 0,
            pos == size * k + at,
            0 <= at < size,
            0 <= pos < count * size,
    ;
    assert(blocks[k].len() == size);
    source::parts_follow_each_other(front, blocks, size, rest, k);
    assert((k + 1) * size == k * size + size) by (nonlinear_arith);
    let a = v.index[k];
    let b = v.index[k + 1];
    lemma_entry(a);
    lemma_entry(b);
    let all = source::end_to_end(blocks, size);
    assert(size * k == k * size) by (nonlinear_arith);
    assert forall|j: int| 0 <= j < n implies blocks[k].subrange(at, at + n)[j]
        == #[trigger] all.subrange(pos, pos + n)[j] by {
        source::lemma_within_part(k, size, at + j);
    }
    assert(blocks[k].subrange(at, at + n) =~= all.subrange(pos, pos + n));
    assert(part(blocks[k], at, n) =~= blocks[k].subrange(at, at + n));
    if let Ok(d) = codec::deflate_prefix(blocks[k], v.block_size as nat) {
        if d.len() == size {
            assert(part(d, at, n) =~= d.subrange(at, at + n));
        }
    }
}

proof fn lemma_entry(e: u32)
    ensures
        entry_pos(e, 0) == e / 2 * 2,
        (e & 1 != 0) <==> e % 2 == 1,
{
    assert((e & 0xffff_fffe) == e / 2 * 2) by (bit_vector);
    assert((e & 1 != 0) <==> e % 2 == 1) by (bit_vector);
    let x = (e & 0xffff_fffe) as u64;
    assert(x << 0u64 == x) by (bit_vector);
}

/// The header of an image holds the length of the disc at 8, that of a block at 16 and the shift of
/// the index at 21; the index stands behind its 24 bytes, with one number more than there are
/// blocks.
pub proof fn the_header_names_the_blocks(image: Seq<u8>, total: u64, size: u32, align: u8, blocks: int)
    requires
        24 <= image.len() <= u64::MAX,
        size > 0,
        bytes::spells(image, 0, "CISO"@),
        bytes::has_at(image, 8, bytes::le_bytes(total as int, 8)),
        bytes::has_at(image, 16, bytes::le_bytes(size as int, 4)),
        image[21] == align,
        size * blocks - size < total <= size * blocks,
        index_from(source::reads_of(image), 24, blocks + 1) is Ok,
    ensures
        opened(source::reads_of(image)) == Ok::<CsoView, Seq<char>>(
            CsoView {
                block_size: size as u64,
                total_bytes: total,
                align,
                index: index_from(source::reads_of(image), 24, blocks + 1)->Ok_0,
            },
        ),
{
    let h = image.subrange(0, 24);
    bytes::fields_hold_what_was_written(image, 8, total as int);
    bytes::fields_hold_what_was_written(image, 16, size as int);
    assert(bytes::le64_at(h, 8) == bytes::le64_at(image, 8));
    assert(bytes::le32_at(h, 16) == bytes::le32_at(image, 16));
    reveal_strlit("CISO");
    assert(bytes::spells(h, 0, "CISO"@)) by {
        assert forall|i: int| 0 <= i < "CISO"@.len() implies h[0 + i] as u32
            == #[trigger] "CISO"@[i] as u32 by {
            assert(h[0 + i] == image[0 + i]);
        }
    }
    let z = size as int;
    let t = total as int;
    assert((t + z - 1) / z == blocks) by (nonlinear_arith)
        requires
            z * blocks - z < t <= z * blocks,
            z > 0,
    ;
}

} // verus!
