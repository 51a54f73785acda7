//! WUX: images of Wii U discs in which blocks that occur more than once are
//! stored once.
//!
//! A header of 32 bytes is followed by a table that gives for each block of the
//! disc the number of the stored block it equals, and by the stored blocks.
use vstd::prelude::*;
use crate::bytes;
use crate::bytes::{read_u32_le, read_u64_le};
use crate::numbers;
use crate::numbers::decimal_string;
use crate::source;
use crate::source::{read_labelled, ByteSource, Reads};
use crate::text::join2;

verus! {

pub const WUX_MAGIC0: u32 = 0x3058_5557;

pub const WUX_MAGIC1: u32 = 0x1099_D02E;

/// Whether `n` is a power of two.
pub open spec fn power_of_two(n: int) -> bool
    decreases n,
{
    if n <= 0 {
        false
    } else if n == 1 {
        true
    } else {
        n % 2 == 0 && power_of_two(n / 2)
    }
}

/// Whether `n` is a power of two.
pub fn is_power_of_two(n: u64) -> (r: bool)
    ensures
        r == power_of_two(n as int),
{
    if n == 0 {
        return false;
    }
    let mut x: u64 = n;
    while x % 2 == 0
        invariant
            x > 0,
            power_of_two(x as int) == power_of_two(n as int),
        decreases x,
    {
        x = x / 2;
    }
    x == 1
}

/// How many pieces of `size` bytes `total` bytes take.
pub open spec fn pieces(total: int, size: int) -> int {
    (total + size - 1) / size
}

/// `n` rounded up to a multiple of `size`.
pub open spec fn rounded_up(n: int, size: int) -> int {
    pieces(n, size) * size
}

/// The contents of an opened image.
#[verifier::ext_equal]
pub struct WuxView {
    pub sector_size: int,
    pub index_table: Seq<u32>,
    pub data_start: int,
    pub total_bytes: int,
}

/// The 32-bit little-endian values of `s`.
pub open spec fn words_of(s: Seq<u8>) -> Seq<u32> {
    Seq::new(s.len() / 4, |i: int| bytes::le32_at(s, 4 * i) as u32)
}

/// The image that a source holds.
pub open spec fn wux_opened(reads: Reads) -> Result<WuxView, Seq<char>> {
    match source::labelled(reads(0, 32), "WUX header read: "@) {
        Err(e) => Err(e),
        Ok(h) => {
            let size = bytes::le32_at(h, 8);
            let total = bytes::le64_at(h, 16);
            if bytes::le32_at(h, 0) != WUX_MAGIC0 || bytes::le32_at(h, 4) != WUX_MAGIC1 {
                Err("Not a WUX file"@)
            } else if !power_of_two(size) {
                Err("WUX: invalid sector_size="@ + numbers::decimal(size))
            } else {
                match source::labelled(
                    source::reach(reads, 32, 4 * pieces(total, size)),
                    "WUX index read: "@,
                ) {
                    Err(e) => Err(e),
                    Ok(index) => Ok(
                        WuxView {
                            sector_size: size,
                            index_table: words_of(index),
                            data_start: rounded_up(32 + 4 * pieces(total, size), size),
                            total_bytes: total,
                        },
                    ),
                }
            }
        },
    }
}

/// An opened image.
pub struct WuxReader<S: ByteSource> {
    source: S,
    sector_size: u64,
    index_table: Vec<u32>,
    data_start: u128,
    total_bytes: u64,
}

/// How many bytes of the block that holds `pos` follow from there, up to `n`
/// and to the end of the disc.
pub open spec fn piece_len(v: WuxView, pos: int, n: int) -> int {
    let room = v.sector_size - pos % v.sector_size;
    let rest = v.total_bytes - pos;
    if n <= room && n <= rest {
        n
    } else if room <= rest {
        room
    } else {
        rest
    }
}

/// What a read of up to `n` bytes of the disc at `pos` gives: no more than one
/// block.
pub open spec fn wux_read(reads: Reads, v: WuxView, pos: int, n: int) -> Result<
    Seq<u8>,
    Seq<char>,
> {
    if n <= 0 || pos >= v.total_bytes {
        Ok(seq![])
    } else if v.sector_size <= 0 || pos / v.sector_size >= v.index_table.len() {
        Err("WUX: sector index OOB"@)
    } else {
        source::reach(
            reads,
            v.data_start + v.index_table[pos / v.sector_size] * v.sector_size + pos % v.sector_size,
            piece_len(v, pos, n),
        )
    }
}

/// What a read of exactly `n` bytes of the disc at `pos` gives.
pub open spec fn wux_exact(reads: Reads, v: WuxView, pos: int, n: int) -> Result<
    Seq<u8>,
    Seq<char>,
>
    decreases n,
{
    if n <= 0 {
        Ok(seq![])
    } else if pos < 0 || pos >= v.total_bytes {
        Err(source::short_read())
    } else {
        match wux_read(reads, v, pos, n) {
            Err(e) => Err(e),
            Ok(b) => {
                let m = piece_len(v, pos, n);
                if m <= 0 {
                    Err(source::short_read())
                } else {
                    source::after(b, wux_exact(reads, v, pos + m, n - m))
                }
            },
        }
    }
}

/// Where a position stands among blocks of `size` bytes.
pub proof fn lemma_place(pos: int, size: int, total: int)
    requires
        0 <= pos < total,
        0 < size,
    ensures
        0 <= pos / size < pieces(total, size),
        0 <= pos % size < size,
        pos == (pos / size) * size + pos % size,
{
    assert(0 <= pos / size && 0 <= pos % size < size && pos == (pos / size) * size + pos % size)
        by (nonlinear_arith)
        requires
            0 <= pos,
            0 < size,
    ;
    let q = pos / size;
    let k = pieces(total, size);
    assert(q < k) by (nonlinear_arith)
        requires
            0 < size,
            q == pos / size,
            k == (total + size - 1) / size,
            pos < total,
            0 <= pos,
    ;
}

impl<S: ByteSource> WuxReader<S> {
    /// The contents of this image.
    pub closed spec fn contents(&self) -> WuxView {
        WuxView {
            sector_size: self.sector_size as int,
            index_table: self.index_table@,
            data_start: self.data_start as int,
            total_bytes: self.total_bytes as int,
        }
    }

    /// What exact reads of the stored file give.
    pub closed spec fn stored(&self) -> Reads {
        self.source.reads()
    }

    /// Opens the image that a source holds.
    pub fn open(source: S) -> (r: Result<WuxReader<S>, String>)
        ensures
            match r {
                Ok(w) => w.stored() == source.reads() && wux_opened(source.reads()) == Ok::<
                    WuxView,
                    Seq<char>,
                >(w.contents()),
                Err(e) => wux_opened(source.reads()) == Err::<WuxView, Seq<char>>(e@),
            },
    {
        let mut source: S = source;
        let h: Vec<u8> = match read_labelled(&mut source, 0, 32, "WUX header read: ") {
            Ok(b) => b,
            Err(e) => {
                return Err(e);
            },
        };
        if read_u32_le(h.as_slice(), 0) != WUX_MAGIC0 || read_u32_le(h.as_slice(), 4)
            != WUX_MAGIC1 {
            return Err("Not a WUX file".to_owned());
        }
        let sector_size: u64 = read_u32_le(h.as_slice(), 8) as u64;
        if !is_power_of_two(sector_size) {
            let n: String = decimal_string(sector_size);
            return Err(join2("WUX: invalid sector_size=", n.as_str()));
        }
        let total_bytes: u64 = read_u64_le(h.as_slice(), 16);
        let size: u128 = sector_size as u128;
        proof {
            lemma_pieces(total_bytes as int, size as int);
        }
        let count: u128 = (total_bytes as u128 + size - 1) / size;
        if count * 4 > 0xffff_ffff_ffff_ffff - 32 {
            return Err(join2("WUX index read: ", "failed to fill whole buffer"));
        }
        let index: Vec<u8> = match read_labelled(
            &mut source,
            32,
            (count * 4) as u64,
            "WUX index read: ",
        ) {
            Ok(b) => b,
            Err(e) => {
                return Err(e);
            },
        };
        let index_table: Vec<u32> = read_words(index.as_slice());
        proof {
            lemma_pieces(32 + 4 * count as int, size as int);
        }
        let data_start: u128 = (32 + count * 4 + size - 1) / size * size;
        Ok(WuxReader { source, sector_size, index_table, data_start, total_bytes })
    }

    pub fn total_bytes(&self) -> (r: u64)
        ensures
            r == self.contents().total_bytes,
    {
        self.total_bytes
    }

    pub fn sector_size(&self) -> (r: u64)
        ensures
            r == self.contents().sector_size,
    {
        self.sector_size
    }

    /// Reads up to `n` bytes of the disc at `pos`.
    pub fn read_at(&mut self, pos: u64, n: u64) -> (r: Result<Vec<u8>, String>)
        ensures
            final(self).stored() == old(self).stored(),
            final(self).contents() == old(self).contents(),
            source::outcome(r) == wux_read(
                old(self).stored(),
                old(self).contents(),
                pos as int,
                n as int,
            ),
            r matches Ok(b) ==> 0 < n && pos < old(self).contents().total_bytes ==> b@.len()
                == piece_len(old(self).contents(), pos as int, n as int) > 0,
    {
        if n == 0 || pos >= self.total_bytes {
            let none: Vec<u8> = Vec::new();
            assert(none@ =~= seq![]);
            return Ok(none);
        }
        if self.sector_size == 0 {
            return Err("WUX: sector index OOB".to_owned());
        }
        proof {
            lemma_place(pos as int, self.sector_size as int, self.total_bytes as int);
        }
        let at: u64 = pos / self.sector_size;
        let within: u64 = pos % self.sector_size;
        let room: u64 = self.sector_size - within;
        let rest: u64 = self.total_bytes - pos;
        let m: u64 = if n <= room && n <= rest {
            n
        } else if room <= rest {
            room
        } else {
            rest
        };
        if at >= self.index_table.len() as u64 {
            return Err("WUX: sector index OOB".to_owned());
        }
        let phys: u32 = self.index_table[at as usize];
        let limit: u128 = (0xffff_ffff_ffff_ffff - m) as u128;
        let size: u128 = self.sector_size as u128;
        proof {
            assert(0 <= phys * size <= 0xffff_ffff * 0xffff_ffff_ffff_ffff) by (nonlinear_arith)
                requires
                    phys <= 0xffff_ffff,
                    size <= 0xffff_ffff_ffff_ffff,
            ;
        }
        let skip: u128 = phys as u128 * size + within as u128;
        if self.data_start > limit || skip > limit - self.data_start {
            return Err("failed to fill whole buffer".to_owned());
        }
        self.source.read_exact_at((self.data_start + skip) as u64, m)
    }
}

proof fn lemma_pieces(total: int, size: int)
    requires
        0 <= total,
        0 < size,
    ensures
        0 <= pieces(total, size) <= total,
        rounded_up(total, size) < total + size,
        total <= rounded_up(total, size),
{
    let k = pieces(total, size);
    assert(0 <= k <= total && total <= k * size < total + size) by (nonlinear_arith)
        requires
            0 <= total,
            0 < size,
            k == (total + size - 1) / size,
    ;
}

/// The 32-bit little-endian values of `s`.
pub fn read_words(s: &[u8]) -> (r: Vec<u32>)
    ensures
        r@ == words_of(s@),
{
    let len: usize = s.len();
    let count: usize = len / 4;
    let mut out: Vec<u32> = Vec::new();
    let mut i: usize = 0;
    while i < count
        invariant
            len == s@.len(),
            count == len / 4,
            i <= count,
            out@.len() == i,
            forall|j: int| 0 <= j < i ==> out@[j] == #[trigger] words_of(s@)[j],
        decreases count - i,
    {
        let w: u32 = read_u32_le(s, 4 * i);
        assert(words_of(s@)[i as int] == w);
        out.push(w);
        i += 1;
    }
    assert(out@ =~= words_of(s@));
    out
}

impl<S: ByteSource> ByteSource for WuxReader<S> {
    open spec fn reads(&self) -> Reads {
        |pos: int, n: int| wux_exact(self.stored(), self.contents(), pos, n)
    }

    #[verifier::loop_isolation(false)]
    fn read_exact_at(&mut self, pos: u64, n: u64) -> (r: Result<Vec<u8>, String>) {
        let ghost stored = self.stored();
        let ghost v = self.contents();
        let ghost goal = wux_exact(stored, v, pos as int, n as int);
        let mut out: Vec<u8> = Vec::new();
        let mut at: u64 = pos;
        let mut left: u64 = n;
        assert(source::after(out@, goal) == goal) by {
            match goal {
                Ok(b) => {
                    assert(out@ + b =~= b);
                },
                Err(_) => {},
            }
        }
        while left > 0
            invariant
                self.stored() == stored,
                self.contents() == v,
                self.reads() == old(self).reads(),
                at + left == pos + n,
                out@.len() + left == n,
                source::after(out@, wux_exact(stored, v, at as int, left as int)) == goal,
            decreases left,
        {
            if at >= self.total_bytes {
                return Err("failed to fill whole buffer".to_owned());
            }
            let mut b: Vec<u8> = match self.read_at(at, left) {
                Ok(b) => b,
                Err(e) => {
                    return Err(e);
                },
            };
            let m: u64 = b.len() as u64;
            let ghost before = out@;
            let ghost piece = b@;
            out.append(&mut b);
            proof {
                match wux_exact(stored, v, at + m, left - m) {
                    Ok(t) => {
                        assert(before + (piece + t) =~= (before + piece) + t);
                    },
                    Err(_) => {},
                }
            }
            at += m;
            left -= m;
        }
        assert(out@ + seq![] =~= out@);
        Ok(out)
    }
}

/// An image holds what was written into its header: the size of its blocks, the length of the
/// disc and, from byte 32 on, the number of the stored block for each block of the disc. The
/// stored blocks start at the next multiple of their size.
pub proof fn the_header_names_the_blocks(image: Seq<u8>, size: int, total: int, table: Seq<u32>, pad: int)
    requires
        image.len() <= u64::MAX,
        power_of_two(size),
        size <= 0xFFFF_FFFF,
        0 <= total <= u64::MAX,
        size * table.len() - size < total <= size * table.len(),
        32 + 4 * table.len() <= image.len(),
        bytes::has_at(image, 0, seq![0x57u8, 0x55, 0x58, 0x30, 0x2E, 0xD0, 0x99, 0x10]),
        bytes::has_at(image, 8, bytes::le_bytes(size, 4)),
        bytes::has_at(image, 16, bytes::le_bytes(total, 8)),
        forall|i: int|
            0 <= i < table.len() ==> bytes::has_at(
                image,
                32 + 4 * i,
                bytes::le_bytes(#[trigger] table[i] as int, 4),
            ),
        0 <= pad < size,
        (32 + 4 * table.len() + pad) % size == 0,
    ensures
        wux_opened(source::reads_of(image)) matches Ok(v) && {
            &&& v.sector_size == size
            &&& v.total_bytes == total
            &&& v.index_table == table
            &&& v.data_start == 32 + 4 * table.len() + pad
        },
{
    let h = image.subrange(0, 32);
    let n = table.len() as int;
    assert(image.len() >= 32);
    assert(image[0] == 0x57 && image[1] == 0x55 && image[2] == 0x58 && image[3] == 0x30 && image[4]
        == 0x2E && image[5] == 0xD0 && image[6] == 0x99 && image[7] == 0x10) by {
        let m = seq![0x57u8, 0x55, 0x58, 0x30, 0x2E, 0xD0, 0x99, 0x10];
        assert(m[0] == 0x57 && m[1] == 0x55 && m[2] == 0x58 && m[3] == 0x30 && m[4] == 0x2E && m[5]
            == 0xD0 && m[6] == 0x99 && m[7] == 0x10);
    }
    bytes::fields_hold_what_was_written(image, 8, size);
    bytes::fields_hold_what_was_written(image, 16, total);
    assert(bytes::le32_at(h, 8) == bytes::le32_at(image, 8));
    assert(bytes::le64_at(h, 16) == bytes::le64_at(image, 16));
    assert(pieces(total, size) == n) by (nonlinear_arith)
        requires
            size * n - size < total <= size * n,
            size > 0,
            pieces(total, size) == (total + size - 1) / size,
    ;
    let index = image.subrange(32, 32 + 4 * n);
    assert forall|i: int| 0 <= i < n implies #[trigger] words_of(index)[i] == table[i] by {
        bytes::fields_hold_what_was_written(image, 32 + 4 * i, table[i] as int);
        assert(bytes::le32_at(index, 4 * i) == bytes::le32_at(image, 32 + 4 * i));
    }
    assert(words_of(index) =~= table);
    let at = 32 + 4 * n;
    assert(rounded_up(at, size) == at + pad) by {
        let q = (at + pad) / size;
        assert(at + pad == size * q) by (nonlinear_arith)
            requires
                (at + pad) % size == 0,
                size > 0,
                q == (at + pad) / size,
        ;
        assert((at + size - 1) / size == q) by (nonlinear_arith)
            requires
                at + pad == size * q,
                0 <= pad < size,
        ;
        assert(q * size == size * q) by (nonlinear_arith);
    }
}

/// A block of the disc is read from the stored block that its number in the table tells.
pub proof fn a_block_is_read_by_its_number(
    front: Seq<u8>,
    blocks: Seq<Seq<u8>>,
    rest: Seq<u8>,
    v: WuxView,
    k: int,
    w: int,
    n: int,
)
    requires
        0 < v.sector_size,
        v.data_start == front.len(),
        source::image_of(front, blocks, v.sector_size, rest).len() <= u64::MAX,
        forall|i: int| 0 <= i < blocks.len() ==> (#[trigger] blocks[i]).len() == v.sector_size,
        0 <= k < v.index_table.len(),
        v.index_table[k] < blocks.len(),
        0 <= w,
        0 < n,
        w + n <= v.sector_size,
        v.sector_size * k + w + n <= v.total_bytes,
    ensures
        wux_read(
            source::reads_of(source::image_of(front, blocks, v.sector_size, rest)),
            v,
            v.sector_size * k + w,
            n,
        ) == Ok::<Seq<u8>, Seq<char>>(blocks[v.index_table[k] as int].subrange(w, w + n)),
{
    let z = v.sector_size;
    let image = source::image_of(front, blocks, z, rest);
    let pos = z * k + w;
    assert(pos / z == k && pos % z == w && 0 <= pos) by (nonlinear_arith)
        requires
            pos == z * k + w,
            0 <= w < z,
            0 <= k,
    ;
    let b = v.index_table[k] as int;
    assert(blocks[b].len() == z);
    let at = front.len() + b * z + w;
    assert(0 <= b * z && b * z + z <= blocks.len() * z) by (nonlinear_arith)
        requires
            0 <= b < blocks.len(),
            0 < z,
    ;
    assert(blocks.len() * z == z * blocks.len()) by (nonlinear_arith);
    assert(image.len() == front.len() + source::end_to_end(blocks, z).len() + rest.len());
    assert(source::end_to_end(blocks, z).len() == z * blocks.len()) by (nonlinear_arith)
        requires
            source::end_to_end(blocks, z).len() == (blocks.len() * z) as nat,
            0 < z,
    ;
    assert forall|j: int| 0 <= j < n implies #[trigger] image.subrange(at, at + n)[j]
        == blocks[b].subrange(w, w + n)[j] by {
        source::lemma_within_part(b, z, w + j);
        assert(image[at + j] == source::end_to_end(blocks, z)[b * z + (w + j)]);
    }
    assert(image.subrange(at, at + n) =~= blocks[b].subrange(w, w + n));
}

} // verus!
