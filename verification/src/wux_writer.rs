//! Writing WUX images: blocks that occur more than once are stored once.
//!
//! Two blocks count as the same where their BLAKE3 digests are.
use vstd::prelude::*;
use std::collections::HashMap;
use crate::bytes;
use crate::bytes::{read_u64_le, resize, same_bytes, write_le, zeroes};
use crate::codec;
use crate::codec::blake3_hash;
use crate::numbers;
use crate::numbers::decimal_string;
use crate::source;
use crate::source::{read_labelled, ByteSource, Reads};
use crate::text::{join2, join3};
use crate::wux_reader;
use crate::wux_reader::{is_power_of_two, WUX_MAGIC0, WUX_MAGIC1};

verus! {

pub const DEFAULT_SECTOR_SIZE: u64 = 32768;

/// What is known of the blocks before some offset: the digests of those that
/// differ, where each of these first stands, and for each block which of them
/// it is.
#[verifier::ext_equal]
pub struct ScanView {
    pub digests: Seq<Seq<u8>>,
    pub firsts: Seq<int>,
    pub table: Seq<u32>,
}

/// The first index from `k` on at which `d` stands.
pub open spec fn position(digests: Seq<Seq<u8>>, k: int, d: Seq<u8>) -> Option<int>
    decreases digests.len() - k,
{
    if k < 0 || k >= digests.len() {
        None
    } else if digests[k] == d {
        Some(k)
    } else {
        position(digests, k + 1, d)
    }
}

/// What is known once the block at `off`, with the digest `d`, is read.
pub open spec fn noted(st: ScanView, d: Seq<u8>, off: int) -> ScanView {
    match position(st.digests, 0, d) {
        Some(p) => ScanView { table: st.table.push(p as u32), ..st },
        None => ScanView {
            digests: st.digests.push(d),
            firsts: st.firsts.push(off),
            table: st.table.push(st.digests.len() as u32),
        },
    }
}

/// The bytes that a block of `size` bytes at `off` has in an image of `total`.
pub open spec fn block_len(total: int, size: int, off: int) -> int {
    if size < total - off {
        size
    } else {
        total - off
    }
}

/// The block at `off`; the last one is filled up with zeros.
pub open spec fn block_read(reads: Reads, total: int, size: int, off: int, label: Seq<char>) -> Result<
    Seq<u8>,
    Seq<char>,
> {
    match source::labelled(reads(off, block_len(total, size, off)), label) {
        Err(e) => Err(e),
        Ok(b) => Ok(bytes::resized(b, size)),
    }
}

/// What is known of all blocks, from what is known of those before `off`.
pub open spec fn scanned(reads: Reads, total: int, size: int, off: int, st: ScanView) -> Result<
    ScanView,
    Seq<char>,
>
    decreases total - off,
{
    if size <= 0 || off >= total {
        Ok(st)
    } else {
        match block_read(
            reads,
            total,
            size,
            off,
            "Read block "@ + numbers::decimal(st.table.len() as int) + ": "@,
        ) {
            Err(e) => Err(e),
            Ok(b) => if size >= total - off {
                Ok(noted(st, codec::blake3_digest(b), off))
            } else {
                scanned(
                    reads,
                    total,
                    size,
                    off + size,
                    noted(st, codec::blake3_digest(b), off),
                )
            },
        }
    }
}

/// The numbers of a table, four bytes each.
pub open spec fn index_bytes(t: Seq<u32>) -> Seq<u8>
    decreases t.len(),
{
    if t.len() == 0 {
        seq![]
    } else {
        index_bytes(t.drop_last()) + bytes::le_bytes(t.last() as int, 4)
    }
}

/// What stands before the stored blocks: the header, the table, and zeros up to
/// a multiple of the block size.
pub open spec fn head_of(total: int, size: int, t: Seq<u32>) -> Seq<u8> {
    let index_end = 32 + 4 * t.len();
    bytes::le_bytes(WUX_MAGIC0 as int, 4) + bytes::le_bytes(WUX_MAGIC1 as int, 4)
        + bytes::le_bytes(size % 0x1_0000_0000, 4) + bytes::zeros(4) + bytes::le_bytes(total, 8)
        + bytes::zeros(8) + index_bytes(t) + bytes::zeros(
        wux_reader::rounded_up(index_end as int, size) - index_end,
    )
}

/// The stored blocks from the one numbered `k` on.
pub open spec fn stored_from(reads: Reads, total: int, size: int, firsts: Seq<int>, k: int) -> Result<
    Seq<u8>,
    Seq<char>,
>
    decreases firsts.len() - k,
{
    if k < 0 || k >= firsts.len() {
        Ok(seq![])
    } else {
        match block_read(
            reads,
            total,
            size,
            firsts[k],
            "Re-read block "@ + numbers::decimal(k) + ": "@,
        ) {
            Err(e) => Err(e),
            Ok(b) => source::after(b, stored_from(reads, total, size, firsts, k + 1)),
        }
    }
}

/// The beginning of a scan.
pub open spec fn nothing_scanned() -> ScanView {
    ScanView { digests: seq![], firsts: seq![], table: seq![] }
}

/// The WUX file for an image of `total` bytes.
pub open spec fn wux_file(reads: Reads, total: int, size: int) -> Result<Seq<u8>, Seq<char>> {
    if !wux_reader::power_of_two(size) {
        Err("WUX: invalid sector_size="@ + numbers::decimal(size))
    } else if total == 0 {
        Err("WUX: input image is empty"@)
    } else {
        match scanned(reads, total, size, 0, nothing_scanned()) {
            Err(e) => Err(e),
            Ok(st) => source::after(
                head_of(total, size, st.table),
                stored_from(reads, total, size, st.firsts, 0),
            ),
        }
    }
}

/// The digests of a scan, by their first eight bytes.
pub open spec fn prefix_of(d: Seq<u8>) -> u64 {
    bytes::le64_at(d, 0) as u64
}

/// A scan of an image.
pub struct WuxScan {
    sector_size: u64,
    total_bytes: u64,
    next: u64,
    digests: Vec<Vec<u8>>,
    firsts: Vec<u64>,
    table: Vec<u32>,
    seen: HashMap<u64, Vec<usize>>,
}

/// The contents of a list of digests.
pub open spec fn digest_views(v: Seq<Vec<u8>>) -> Seq<Seq<u8>> {
    Seq::new(v.len(), |i: int| v[i]@)
}

/// A list of offsets as numbers.
pub open spec fn offsets(v: Seq<u64>) -> Seq<int> {
    Seq::new(v.len(), |i: int| v[i] as int)
}

proof fn lemma_position(digests: Seq<Seq<u8>>, k: int, d: Seq<u8>)
    requires
        0 <= k,
    ensures
        match position(digests, k, d) {
            Some(p) => k <= p < digests.len() && digests[p] == d,
            None => forall|j: int| k <= j < digests.len() ==> digests[j] != d,
        },
    decreases digests.len() - k,
{
    if k < digests.len() && digests[k] != d {
        lemma_position(digests, k + 1, d);
    }
}

impl WuxScan {
    /// What is known so far.
    pub closed spec fn contents(&self) -> ScanView {
        ScanView {
            digests: digest_views(self.digests@),
            firsts: offsets(self.firsts@),
            table: self.table@,
        }
    }

    /// The block size.
    pub closed spec fn size(&self) -> int {
        self.sector_size as int
    }

    /// The size of the image.
    pub closed spec fn total(&self) -> int {
        self.total_bytes as int
    }

    /// The offset of the next block.
    pub closed spec fn at(&self) -> int {
        self.next as int
    }

    /// Whether digests differ, are as long as digests are, and are found by their
    /// first bytes.
    pub closed spec fn wf(&self) -> bool {
        &&& 0 < self.sector_size
        &&& self.next <= self.total_bytes
        &&& self.next < self.total_bytes ==> self.table@.len() * self.sector_size == self.next
        &&& self.table@.len() * self.sector_size < self.total_bytes + self.sector_size
        &&& self.digests@.len() <= self.table@.len()
        &&& self.firsts@.len() == self.digests@.len()
        &&& forall|i: int| 0 <= i < self.firsts@.len() ==> self.firsts@[i] < self.total_bytes
        &&& forall|i: int| 0 <= i < self.digests@.len() ==> (#[trigger] self.digests@[i])@.len() == 32
        &&& forall|i: int, j: int|
            0 <= i < j < self.digests@.len() ==> (#[trigger] self.digests@[i])@
                != (#[trigger] self.digests@[j])@
        &&& forall|i: int|
            0 <= i < self.digests@.len() ==> {
                let key = prefix_of((#[trigger] self.digests@[i])@);
                self.seen@.contains_key(key) && self.seen@[key]@.contains(i as usize)
            }
        &&& forall|key: u64, q: int|
            self.seen@.contains_key(key) && 0 <= q < self.seen@[key]@.len()
                ==> #[trigger] self.seen@[key]@[q] < self.digests@.len()
    }

    /// Begins a scan of an image of `total_bytes`.
    pub fn new(total_bytes: u64, sector_size: u64) -> (r: Result<WuxScan, String>)
        ensures
            match r {
                Ok(s) => s.wf() && s.at() == 0 && s.size() == sector_size && s.total()
                    == total_bytes && s.contents() == nothing_scanned() && total_bytes > 0
                    && wux_reader::power_of_two(sector_size as int),
                Err(e) => if !wux_reader::power_of_two(sector_size as int) {
                    e@ == "WUX: invalid sector_size="@ + numbers::decimal(sector_size as int)
                } else {
                    total_bytes == 0 && e@ == "WUX: input image is empty"@
                },
            },
    {
        if !is_power_of_two(sector_size) {
            let n: String = decimal_string(sector_size);
            return Err(join2("WUX: invalid sector_size=", n.as_str()));
        }
        if total_bytes == 0 {
            return Err("WUX: input image is empty".to_owned());
        }
        let s: WuxScan = WuxScan {
            sector_size,
            total_bytes,
            next: 0,
            digests: Vec::new(),
            firsts: Vec::new(),
            table: Vec::new(),
            seen: HashMap::new(),
        };
        assert(s.contents() =~= nothing_scanned());
        assert(s.table@.len() * sector_size == 0) by (nonlinear_arith)
            requires
                s.table@.len() == 0,
        ;
        Ok(s)
    }

    /// Finds the block with the digest `d`.
    #[verifier::loop_isolation(false)]
    fn find(&self, d: &Vec<u8>) -> (r: Option<usize>)
        requires
            self.wf(),
            d@.len() == 32,
        ensures
            match r {
                Some(p) => position(digest_views(self.digests@), 0, d@) == Some(p as int),
                None => position(digest_views(self.digests@), 0, d@) is None,
            },
    {
        broadcast use vstd::std_specs::hash::group_hash_axioms;

        let ghost all = digest_views(self.digests@);
        proof {
            lemma_position(all, 0, d@);
        }
        let key: u64 = read_u64_le(d.as_slice(), 0);
        match self.seen.get(&key) {
            None => {
                assert(forall|j: int| 0 <= j < all.len() ==> all[j] != d@);
                None
            },
            Some(bucket) => {
                let mut q: usize = 0;
                while q < bucket.len()
                    invariant
                        q <= bucket@.len(),
                        forall|w: int| 0 <= w < q ==> all[(#[trigger] bucket@[w]) as int] != d@,
                    decreases bucket@.len() - q,
                {
                    let p: usize = bucket[q];
                    assert(self.seen@[key]@[q as int] < self.digests@.len());
                    if same_bytes(self.digests[p].as_slice(), d.as_slice()) {
                        assert(all[p as int] == d@);
                        proof {
                            let f = position(all, 0, d@)->Some_0;
                            assert(position(all, 0, d@) is Some);
                            if f != p {
                                assert(self.digests@[f]@ == self.digests@[p as int]@);
                            }
                        }
                        return Some(p);
                    }
                    q += 1;
                }
                assert(self.digests.len() == all.len());
                assert forall|j: int| 0 <= j < all.len() implies all[j] != d@ by {
                    if all[j] == d@ {
                        assert(prefix_of(self.digests@[j]@) == key);
                        let w = choose|w: int| 0 <= w < bucket@.len() && bucket@[w] == j as usize;
                        assert(all[bucket@[w] as int] != d@);
                    }
                }
                None
            },
        }
    }

    /// Adds the digest `d` of the block at `off`, which is not among those known.
    fn add_digest(&mut self, d: Vec<u8>, off: u64)
        requires
            old(self).wf(),
            old(self).digests@.len() < old(self).table@.len(),
            d@.len() == 32,
            off < old(self).total_bytes,
            forall|j: int| 0 <= j < old(self).digests@.len() ==> (#[trigger] old(self).digests@[j])@ != d@,
        ensures
            final(self).wf(),
            final(self).sector_size == old(self).sector_size,
            final(self).total_bytes == old(self).total_bytes,
            final(self).next == old(self).next,
            final(self).table == old(self).table,
            final(self).firsts@ == old(self).firsts@.push(off),
            digest_views(final(self).digests@) == digest_views(old(self).digests@).push(d@),
    {
        broadcast use vstd::std_specs::hash::group_hash_axioms;

        let key: u64 = read_u64_le(d.as_slice(), 0);
        let ghost seen0 = self.seen@;
        let ghost all0 = self.digests@;
        let mut bucket: Vec<usize> = match self.seen.remove(&key) {
            Some(b) => b,
            None => Vec::new(),
        };
        let ghost bucket0 = bucket@;
        let n: usize = self.digests.len();
        bucket.push(n);
        assert(bucket@[bucket0.len() as int] == n);
        self.seen.insert(key, bucket);
        self.digests.push(d);
        self.firsts.push(off);
        proof {
            let seen1 = self.seen@;
            let all1 = self.digests@;
            assert(seen1[key]@ == bucket0.push(n));
            assert forall|i: int| 0 <= i < all1.len() implies {
                let k = prefix_of((#[trigger] all1[i])@);
                seen1.contains_key(k) && seen1[k]@.contains(i as usize)
            } by {
                if i < all0.len() {
                    assert(all1[i] == all0[i]);
                    let k = prefix_of(all0[i]@);
                    assert(seen0.contains_key(k) && seen0[k]@.contains(i as usize));
                    if k == key {
                        let w = choose|w: int| 0 <= w < seen0[k]@.len() && seen0[k]@[w] == i as usize;
                        assert(seen1[k]@[w] == i as usize);
                    }
                } else {
                    assert(seen1[key]@[bucket0.len() as int] == n);
                }
            }
            assert forall|k: u64, q: int|
                seen1.contains_key(k) && 0 <= q < seen1[k]@.len() implies #[trigger] seen1[k]@[q]
                < all1.len() by {
                if k == key {
                    if q < bucket0.len() {
                        assert(seen0.contains_key(key));
                        assert(seen0[key]@[q] < all0.len());
                    }
                } else {
                    assert(seen0[k]@[q] < all0.len());
                }
            }
            assert forall|i: int, j: int| 0 <= i < j < all1.len() implies (#[trigger] all1[i])@
                != (#[trigger] all1[j])@ by {
                assert(all1[i] == all0[i]);
                if j < all0.len() {
                    assert(all1[j] == all0[j]);
                }
            }
            assert(digest_views(all1) =~= digest_views(all0).push(d@));
        }
    }

    /// Whether all blocks are read.
    pub fn is_done(&self) -> (r: bool)
        ensures
            r == (self.at() >= self.total()),
    {
        self.next >= self.total_bytes
    }

    /// The bytes of the image that are read.
    pub fn scanned_bytes(&self) -> (r: u64)
        ensures
            r == self.at(),
    {
        self.next
    }

    /// Reads the next block of the image.
    pub fn step<S: ByteSource>(&mut self, source: &mut S) -> (r: Result<(), String>)
        requires
            old(self).wf(),
            old(self).at() < old(self).total(),
        ensures
            final(source).reads() == old(source).reads(),
            final(self).wf(),
            final(self).size() == old(self).size(),
            final(self).total() == old(self).total(),
            ({
                let label = "Read block "@ + numbers::decimal(
                    old(self).contents().table.len() as int,
                ) + ": "@;
                match block_read(
                    old(source).reads(),
                    old(self).total(),
                    old(self).size(),
                    old(self).at(),
                    label,
                ) {
                    Err(e) => r matches Err(t) && t@ == e && *final(self) == *old(self),
                    Ok(b) => r is Ok && final(self).contents() == noted(
                        old(self).contents(),
                        codec::blake3_digest(b),
                        old(self).at(),
                    ) && final(self).at() == old(self).at() + block_len(
                        old(self).total(),
                        old(self).size(),
                        old(self).at(),
                    ),
                }
            }),
    {
        let off: u64 = self.next;
        let rest: u64 = self.total_bytes - off;
        let want: u64 = if self.sector_size < rest {
            self.sector_size
        } else {
            rest
        };
        let n: String = decimal_string(self.table.len() as u64);
        let label: String = join3("Read block ", n.as_str(), ": ");
        let raw: Vec<u8> = match read_labelled(source, off, want, label.as_str()) {
            Ok(b) => b,
            Err(e) => {
                return Err(e);
            },
        };
        let block: Vec<u8> = resize(raw, self.sector_size);
        let d: Vec<u8> = blake3_hash(block.as_slice());
        let ghost before = self.contents();
        let found: Option<usize> = self.find(&d);
        let p: usize = match found {
            Some(p) => p,
            None => self.digests.len(),
        };
        proof {
            let t = self.table@.len() as int;
            let size = self.sector_size as int;
            assert((t + 1) * size == t * size + size) by (nonlinear_arith);
            let w = p as u64;
            assert((w % 0x1_0000_0000) as u32 == w as u32) by (bit_vector);
        }
        self.table.push((p as u64 % 0x1_0000_0000) as u32);
        self.next = off + want;
        match found {
            Some(_) => {},
            None => {
                proof {
                    lemma_position(digest_views(self.digests@), 0, d@);
                    assert forall|j: int| 0 <= j < self.digests@.len() implies (
                    #[trigger] self.digests@[j])@ != d@ by {
                        assert(digest_views(self.digests@)[j] != d@);
                    }
                }
                self.add_digest(d, off);
                assert(offsets(self.firsts@) =~= before.firsts.push(off as int));
            },
        }
        assert(self.contents() =~= noted(before, codec::blake3_digest(block@), off as int));
        Ok(())
    }

    /// How many blocks are stored.
    pub fn unique_count(&self) -> (r: usize)
        ensures
            r == self.contents().digests.len(),
    {
        self.digests.len()
    }

    /// The size of the finished file.
    pub fn out_size(&self) -> (r: u128)
        requires
            self.wf(),
        ensures
            r == wux_reader::rounded_up((32 + 4 * self.contents().table.len()) as int, self.size())
                + self.contents().digests.len() * self.size(),
    {
        let size: u128 = self.sector_size as u128;
        let end: u128 = 32 + 4 * (self.table.len() as u128);
        proof {
            lemma_round(end as int, size as int);
            let n = self.digests@.len();
            let t = self.table@.len();
            assert(n * size <= t * size) by (nonlinear_arith)
                requires
                    n <= t,
                    0 < size,
            ;
            assert(self.digests.len() == n);
        }
        (end + size - 1) / size * size + self.digests.len() as u128 * size
    }

    /// What stands before the stored blocks.
    pub fn head(&self) -> (r: Vec<u8>)
        requires
            self.wf(),
        ensures
            r@ == head_of(self.total(), self.size(), self.contents().table),
    {
        let mut out: Vec<u8> = write_le(WUX_MAGIC0 as u64, 4);
        let mut part: Vec<u8> = write_le(WUX_MAGIC1 as u64, 4);
        out.append(&mut part);
        let mut part: Vec<u8> = write_le(self.sector_size % 0x1_0000_0000, 4);
        out.append(&mut part);
        let mut part: Vec<u8> = zeroes(4);
        out.append(&mut part);
        let mut part: Vec<u8> = write_le(self.total_bytes, 8);
        out.append(&mut part);
        let mut part: Vec<u8> = zeroes(8);
        out.append(&mut part);
        let ghost fixed = out@;
        let mut i: usize = 0;
        assert(fixed + index_bytes(self.table@.take(0)) =~= fixed);
        while i < self.table.len()
            invariant
                i <= self.table@.len(),
                out@ == fixed + index_bytes(self.table@.take(i as int)),
            decreases self.table@.len() - i,
        {
            let mut part: Vec<u8> = write_le(self.table[i] as u64, 4);
            let ghost before = out@;
            let ghost word = part@;
            out.append(&mut part);
            proof {
                let t = self.table@.take(i + 1);
                assert(t.drop_last() =~= self.table@.take(i as int));
                assert(before + word =~= fixed + (index_bytes(t.drop_last()) + word));
            }
            i += 1;
        }
        assert(self.table@.take(i as int) =~= self.table@);
        let size: u128 = self.sector_size as u128;
        let end: u128 = 32 + 4 * (self.table.len() as u128);
        proof {
            lemma_round(end as int, size as int);
        }
        let pad: u128 = (end + size - 1) / size * size - end;
        let mut part: Vec<u8> = zeroes(pad as u64);
        out.append(&mut part);
        out
    }

    /// Reads the block that is stored with the number `k`.
    pub fn stored_block<S: ByteSource>(&self, source: &mut S, k: usize) -> (r: Result<
        Vec<u8>,
        String,
    >)
        requires
            self.wf(),
            k < self.contents().firsts.len(),
        ensures
            final(source).reads() == old(source).reads(),
            source::outcome(r) == block_read(
                old(source).reads(),
                self.total(),
                self.size(),
                self.contents().firsts[k as int],
                "Re-read block "@ + numbers::decimal(k as int) + ": "@,
            ),
    {
        let off: u64 = self.firsts[k];
        let rest: u64 = self.total_bytes - off;
        let want: u64 = if self.sector_size < rest {
            self.sector_size
        } else {
            rest
        };
        let n: String = decimal_string(k as u64);
        let label: String = join3("Re-read block ", n.as_str(), ": ");
        match read_labelled(source, off, want, label.as_str()) {
            Ok(raw) => Ok(resize(raw, self.sector_size)),
            Err(e) => Err(e),
        }
    }
}

proof fn lemma_round(n: int, size: int)
    requires
        0 < n,
        0 < size,
    ensures
        n <= wux_reader::rounded_up(n, size) < n + size,
        wux_reader::rounded_up(n, size) % size == 0,
{
    let k = wux_reader::pieces(n, size);
    assert(n <= k * size < n + size && (k * size) % size == 0) by (nonlinear_arith)
        requires
            0 < n,
            0 < size,
            k == (n + size - 1) / size,
    ;
}

/// Makes the WUX file for an image of `total_bytes`.
#[verifier::loop_isolation(false)]
pub fn compress<S: ByteSource>(source: &mut S, total_bytes: u64, sector_size: u64) -> (r: Result<
    Vec<u8>,
    String,
>)
    ensures
        final(source).reads() == old(source).reads(),
        source::outcome(r) == wux_file(
            old(source).reads(),
            total_bytes as int,
            sector_size as int,
        ),
{
    let ghost reads = source.reads();
    let mut scan: WuxScan = match WuxScan::new(total_bytes, sector_size) {
        Ok(s) => s,
        Err(e) => {
            return Err(e);
        },
    };
    let ghost whole = scanned(
        reads,
        total_bytes as int,
        sector_size as int,
        0,
        nothing_scanned(),
    );
    while !scan.is_done()
        invariant
            source.reads() == reads,
            scan.wf(),
            scan.total() == total_bytes,
            scan.size() == sector_size,
            scanned(
                reads,
                total_bytes as int,
                sector_size as int,
                scan.at(),
                scan.contents(),
            ) == whole,
        decreases total_bytes - scan.at(),
    {
        match scan.step(source) {
            Ok(_) => {},
            Err(e) => {
                return Err(e);
            },
        }
    }
    let ghost st = scan.contents();
    assert(whole == Ok::<ScanView, Seq<char>>(st));
    let mut out: Vec<u8> = scan.head();
    let ghost head = out@;
    let ghost blocks = stored_from(reads, total_bytes as int, sector_size as int, st.firsts, 0);
    let goal_len: usize = scan.unique_count();
    let mut k: usize = 0;
    while k < goal_len
        invariant
            source.reads() == reads,
            scan.wf(),
            scan.total() == total_bytes,
            scan.size() == sector_size,
            scan.contents() == st,
            goal_len == st.firsts.len(),
            k <= goal_len,
            source::after(
                out@,
                stored_from(reads, total_bytes as int, sector_size as int, st.firsts, k as int),
            ) == source::after(head, blocks),
        decreases goal_len - k,
    {
        let mut b: Vec<u8> = match scan.stored_block(source, k) {
            Ok(b) => b,
            Err(e) => {
                return Err(e);
            },
        };
        let ghost before = out@;
        let ghost block = b@;
        out.append(&mut b);
        proof {
            match stored_from(
                reads,
                total_bytes as int,
                sector_size as int,
                st.firsts,
                k + 1,
            ) {
                Ok(t) => {
                    assert(before + (block + t) =~= (before + block) + t);
                },
                Err(_) => {},
            }
        }
        k += 1;
    }
    assert(out@ + seq![] =~= out@);
    Ok(out)
}

// ── Step by step ────────────────────────────────────────────────────────────

/// How far the making of a WUX file has come: the image is scanned up to `at`, then the
/// head is written, then the stored blocks one by one, and then the end is reported.
#[verifier::ext_equal]
pub struct WuxProgress {
    pub total: int,
    pub size: int,
    pub at: int,
    pub known: ScanView,
    pub headed: bool,
    pub stored: int,
    pub closed: bool,
}

/// What the making of a WUX file does next: it reports how far it is, or has the head
/// written, for a file of `size` bytes, or a block, with a report, or reports its end,
/// whatever is answered, or is done, or gives up, after which the output is removed or
/// left.
pub enum WuxStep {
    Report { done: u64, total: u64 },
    Head { bytes: Vec<u8>, size: u128 },
    Block { bytes: Vec<u8>, done: u64, total: u64 },
    Close { done: u64, total: u64 },
    Done,
    Stop { error: String, remove: bool },
}

/// A step, with what it holds.
#[verifier::ext_equal]
pub enum WuxStepView {
    Report { done: int, total: int },
    Head { bytes: Seq<u8>, size: int },
    Block { bytes: Seq<u8>, done: int, total: int },
    Close { done: int, total: int },
    Done,
    Stop { error: Seq<char>, remove: bool },
}

impl View for WuxStep {
    type V = WuxStepView;

    open spec fn view(&self) -> WuxStepView {
        match self {
            WuxStep::Report { done, total } => WuxStepView::Report {
                done: *done as int,
                total: *total as int,
            },
            WuxStep::Head { bytes, size } => WuxStepView::Head { bytes: bytes@, size: *size as int },
            WuxStep::Block { bytes, done, total } => WuxStepView::Block {
                bytes: bytes@,
                done: *done as int,
                total: *total as int,
            },
            WuxStep::Close { done, total } => WuxStepView::Close {
                done: *done as int,
                total: *total as int,
            },
            WuxStep::Done => WuxStepView::Done,
            WuxStep::Stop { error, remove } => WuxStepView::Stop { error: error@, remove: *remove },
        }
    }
}

/// The bytes that are done, of twice as many as the image has: each counts once when it
/// is scanned, and once when the blocks are written.
pub open spec fn bytes_done(p: WuxProgress) -> int {
    let written = p.stored * p.size;
    if p.closed {
        2 * p.total
    } else if p.at < p.total {
        p.at
    } else if written < p.total {
        p.total + written
    } else {
        2 * p.total
    }
}

/// The next step, and how far it comes, where `go_on` is the answer to the last report:
/// an answer of no, except to the last one of all, ends the making and removes what is
/// written.
pub open spec fn wux_step(reads: Reads, p: WuxProgress, go_on: bool) -> (WuxStepView, WuxProgress) {
    let known = p.known;
    if !go_on && !p.closed {
        (WuxStepView::Stop { error: "__cancelled__"@, remove: p.headed }, p)
    } else if p.at < p.total {
        let label = "Read block "@ + numbers::decimal(known.table.len() as int) + ": "@;
        match block_read(reads, p.total, p.size, p.at, label) {
            Err(error) => (WuxStepView::Stop { error, remove: false }, p),
            Ok(b) => {
                let q = WuxProgress {
                    at: p.at + block_len(p.total, p.size, p.at),
                    known: noted(known, codec::blake3_digest(b), p.at),
                    ..p
                };
                (WuxStepView::Report { done: q.at, total: 2 * p.total }, q)
            },
        }
    } else if !p.headed {
        (
            WuxStepView::Head {
                bytes: head_of(p.total, p.size, known.table),
                size: wux_reader::rounded_up((32 + 4 * known.table.len()) as int, p.size)
                    + known.digests.len() * p.size,
            },
            WuxProgress { headed: true, ..p },
        )
    } else if p.stored < known.firsts.len() {
        let label = "Re-read block "@ + numbers::decimal(p.stored) + ": "@;
        match block_read(reads, p.total, p.size, known.firsts[p.stored], label) {
            Err(error) => (WuxStepView::Stop { error, remove: false }, p),
            Ok(bytes) => {
                let q = WuxProgress { stored: p.stored + 1, ..p };
                (WuxStepView::Block { bytes, done: bytes_done(q), total: 2 * p.total }, q)
            },
        }
    } else if !p.closed {
        (
            WuxStepView::Close { done: 2 * p.total, total: 2 * p.total },
            WuxProgress { closed: true, ..p },
        )
    } else {
        (WuxStepView::Done, p)
    }
}

/// The making of a WUX file.
pub struct WuxJob {
    scan: WuxScan,
    headed: bool,
    stored: usize,
    closed: bool,
}

impl WuxJob {
    /// How far the making has come.
    pub closed spec fn progress(&self) -> WuxProgress {
        WuxProgress {
            total: self.scan.total(),
            size: self.scan.size(),
            at: self.scan.at(),
            known: self.scan.contents(),
            headed: self.headed,
            stored: self.stored as int,
            closed: self.closed,
        }
    }

    /// Whether the scan is well formed, and the parts come one after the other.
    pub closed spec fn wf(&self) -> bool {
        &&& self.scan.wf()
        &&& self.scan.total() <= 0x7fff_ffff_ffff_ffff
        &&& self.stored <= self.scan.contents().firsts.len()
        &&& self.stored > 0 || self.closed ==> self.headed
        &&& self.headed ==> self.scan.at() >= self.scan.total()
        &&& self.closed ==> self.stored == self.scan.contents().firsts.len()
    }

    /// Begins the making of a WUX file for an image of `total_bytes`, twice which can be
    /// counted.
    pub fn begin(total_bytes: u64, sector_size: u64) -> (r: Result<WuxJob, String>)
        requires
            total_bytes <= 0x7fff_ffff_ffff_ffff,
        ensures
            match r {
                Ok(j) => j.wf() && j.progress() == (WuxProgress {
                    total: total_bytes as int,
                    size: sector_size as int,
                    at: 0,
                    known: nothing_scanned(),
                    headed: false,
                    stored: 0,
                    closed: false,
                }) && total_bytes > 0 && wux_reader::power_of_two(sector_size as int),
                Err(e) => if !wux_reader::power_of_two(sector_size as int) {
                    e@ == "WUX: invalid sector_size="@ + numbers::decimal(sector_size as int)
                } else {
                    total_bytes == 0 && e@ == "WUX: input image is empty"@
                },
            },
    {
        match WuxScan::new(total_bytes, sector_size) {
            Ok(scan) => Ok(WuxJob { scan, headed: false, stored: 0, closed: false }),
            Err(e) => Err(e),
        }
    }

    /// Does the next step, where `go_on` is the answer to the last report.
    pub fn next<S: ByteSource>(&mut self, source: &mut S, go_on: bool) -> (r: WuxStep)
        requires
            old(self).wf(),
        ensures
            final(source).reads() == old(source).reads(),
            final(self).wf(),
            (r@, final(self).progress()) == wux_step(
                old(source).reads(),
                old(self).progress(),
                go_on,
            ),
    {
        if !go_on && !self.closed {
            return WuxStep::Stop { error: "__cancelled__".to_owned(), remove: self.headed };
        }
        let total: u64 = self.scan.total_bytes;
        if !self.scan.is_done() {
            return match self.scan.step(source) {
                Err(error) => WuxStep::Stop { error, remove: false },
                Ok(_) => WuxStep::Report { done: self.scan.scanned_bytes(), total: 2 * total },
            };
        }
        if !self.headed {
            self.headed = true;
            return WuxStep::Head { bytes: self.scan.head(), size: self.scan.out_size() };
        }
        if self.stored < self.scan.unique_count() {
            return match self.scan.stored_block(source, self.stored) {
                Err(error) => WuxStep::Stop { error, remove: false },
                Ok(bytes) => {
                    self.stored = self.stored + 1;
                    let size: u64 = self.scan.sector_size;
                    proof {
                        let k = self.stored as int;
                        let t = self.scan.table@.len() as int;
                        assert(k * size <= t * size) by (nonlinear_arith)
                            requires
                                k <= t,
                                0 < size,
                        ;
                    }
                    let written: u128 = self.stored as u128 * size as u128;
                    let done: u64 = if written < total as u128 {
                        total + written as u64
                    } else {
                        2 * total
                    };
                    WuxStep::Block { bytes, done, total: 2 * total }
                },
            };
        }
        if !self.closed {
            self.closed = true;
            return WuxStep::Close { done: 2 * total, total: 2 * total };
        }
        WuxStep::Done
    }
}

/// Every report tells of twice the size of the image in all, of no more than that done,
/// and of no less than the one before.
pub proof fn reports_never_fall(reads: Reads, p: WuxProgress, go_on: bool)
    requires
        0 < p.size,
        0 <= p.at <= p.total,
        0 <= p.stored,
        p.stored > 0 || p.closed ==> p.headed,
        p.headed ==> p.at == p.total,
    ensures
        ({
            let (step, q) = wux_step(reads, p, go_on);
            &&& 0 <= bytes_done(p) <= bytes_done(q) <= 2 * p.total
            &&& match step {
                WuxStepView::Report { done, total } => done == bytes_done(q) && total == 2
                    * p.total,
                WuxStepView::Block { done, total, .. } => done == bytes_done(q) && total == 2
                    * p.total,
                WuxStepView::Close { done, total } => done == bytes_done(q) && total == 2 * p.total,
                _ => true,
            }
            &&& 0 <= q.at <= q.total && 0 <= q.stored
            &&& q.stored > 0 || q.closed ==> q.headed
            &&& q.headed ==> q.at == q.total
            &&& q.total == p.total && q.size == p.size
        }),
{
    assert(0 <= p.stored * p.size && (p.stored + 1) * p.size == p.stored * p.size + p.size)
        by (nonlinear_arith)
        requires
            0 <= p.stored,
            0 < p.size,
    ;
    assert(p.stored == 0 ==> p.stored * p.size == 0) by (nonlinear_arith);
}

/// What is written where every report is answered by going on, behind `out`.
pub open spec fn made(reads: Reads, p: WuxProgress, out: Seq<u8>) -> Result<Seq<u8>, Seq<char>>
    decreases
            p.total - p.at,
            if p.headed {
                0int
            } else {
                1
            },
            p.known.firsts.len() - p.stored,
            if p.closed {
                0int
            } else {
                1
            },
{
    if p.size <= 0 {
        Ok(out)
    } else {
        let (step, q) = wux_step(reads, p, true);
        match step {
            WuxStepView::Report { .. } => made(reads, q, out),
            WuxStepView::Head { bytes, .. } => made(reads, q, out + bytes),
            WuxStepView::Block { bytes, .. } => made(reads, q, out + bytes),
            WuxStepView::Close { .. } => made(reads, q, out),
            WuxStepView::Done => Ok(out),
            WuxStepView::Stop { error, .. } => Err(error),
        }
    }
}

/// The blocks are written one behind the other.
proof fn lemma_made_blocks(reads: Reads, p: WuxProgress, out: Seq<u8>)
    requires
        0 < p.size,
        p.total <= p.at,
        p.headed,
        !p.closed,
        0 <= p.stored <= p.known.firsts.len(),
    ensures
        made(reads, p, out) == source::after(
            out,
            stored_from(reads, p.total, p.size, p.known.firsts, p.stored),
        ),
    decreases p.known.firsts.len() - p.stored,
{
    let label = "Re-read block "@ + numbers::decimal(p.stored) + ": "@;
    if p.stored < p.known.firsts.len() {
        match block_read(reads, p.total, p.size, p.known.firsts[p.stored], label) {
            Ok(b) => {
                let q = WuxProgress { stored: p.stored + 1, ..p };
                lemma_made_blocks(reads, q, out + b);
                match stored_from(reads, p.total, p.size, p.known.firsts, p.stored + 1) {
                    Ok(t) => {
                        assert(out + (b + t) =~= out + b + t);
                    },
                    Err(_) => {},
                }
            },
            Err(_) => {},
        }
    } else {
        let q = WuxProgress { closed: true, ..p };
        assert(made(reads, q, out) == Ok::<Seq<u8>, Seq<char>>(out));
        assert(out + seq![] =~= out);
    }
}

/// The head is written once the image is scanned.
proof fn lemma_made(reads: Reads, p: WuxProgress, out: Seq<u8>)
    requires
        0 < p.size,
        p.at <= p.total,
        !p.headed,
        !p.closed,
        p.stored == 0,
    ensures
        made(reads, p, out) == match scanned(reads, p.total, p.size, p.at, p.known) {
            Err(e) => Err(e),
            Ok(st) => source::after(
                out + head_of(p.total, p.size, st.table),
                stored_from(reads, p.total, p.size, st.firsts, 0),
            ),
        },
    decreases p.total - p.at,
{
    if p.at < p.total {
        let label = "Read block "@ + numbers::decimal(p.known.table.len() as int) + ": "@;
        if let Ok(b) = block_read(reads, p.total, p.size, p.at, label) {
            let q = WuxProgress {
                at: p.at + block_len(p.total, p.size, p.at),
                known: noted(p.known, codec::blake3_digest(b), p.at),
                ..p
            };
            lemma_made(reads, q, out);
        }
    } else {
        let q = WuxProgress { headed: true, ..p };
        lemma_made_blocks(reads, q, out + head_of(p.total, p.size, p.known.table));
    }
}

/// Step by step, where it is never stopped, the same file is made as at once.
pub proof fn the_steps_make_the_file(reads: Reads, total: int, size: int)
    requires
        0 < total,
        wux_reader::power_of_two(size),
        0 < size,
    ensures
        made(
            reads,
            WuxProgress {
                total,
                size,
                at: 0,
                known: nothing_scanned(),
                headed: false,
                stored: 0,
                closed: false,
            },
            seq![],
        ) == wux_file(reads, total, size),
{
    let p = WuxProgress {
        total,
        size,
        at: 0,
        known: nothing_scanned(),
        headed: false,
        stored: 0,
        closed: false,
    };
    lemma_made(reads, p, seq![]);
    if let Ok(st) = scanned(reads, total, size, 0, nothing_scanned()) {
        assert(seq![] + head_of(total, size, st.table) =~= head_of(total, size, st.table));
    }
}

// ── What is written reads back ──────────────────────────────────────────────

/// The block of an image at `off`, filled up with zeros.
pub open spec fn block_of(image: Seq<u8>, size: int, off: int) -> Seq<u8> {
    bytes::resized(
        image.subrange(off, off + block_len(image.len() as int, size, off)),
        size,
    )
}

/// Whether a block of the image begins at `off`.
pub open spec fn is_block(image: Seq<u8>, size: int, off: int) -> bool {
    0 <= off < image.len() && off % size == 0
}

/// Whether blocks of the image with the same digest are the same.
pub open spec fn told_apart(image: Seq<u8>, size: int) -> bool {
    forall|a: int, b: int|
        #![trigger block_of(image, size, a), block_of(image, size, b)]
        is_block(image, size, a) && is_block(image, size, b) && codec::blake3_digest(
            block_of(image, size, a),
        ) == codec::blake3_digest(block_of(image, size, b)) ==> block_of(image, size, a)
            == block_of(image, size, b)
}

/// Whether what is known of the blocks before `off` describes them.
spec fn describes(image: Seq<u8>, size: int, off: int, st: ScanView) -> bool {
    &&& st.firsts.len() == st.digests.len()
    &&& st.firsts.len() <= st.table.len()
    &&& all_blocks(image, size, st.firsts)
    &&& forall|p: int|
        0 <= p < st.firsts.len() ==> st.digests[p] == codec::blake3_digest(
            block_of(image, size, #[trigger] st.firsts[p]),
        )
    &&& leads(image, size, st.firsts, st.table)
}

proof fn lemma_multiple(t: int, size: int, len: int)
    requires
        0 <= t,
        0 < size,
        t * size < len,
    ensures
        0 <= t * size,
        (t * size) % size == 0,
        (t + 1) * size == t * size + size,
        t < wux_reader::pieces(len, size),
        len <= t * size + size ==> wux_reader::pieces(len, size) == t + 1,
{
    let k = wux_reader::pieces(len, size);
    assert(0 <= t * size && (t * size) % size == 0 && (t + 1) * size == t * size + size)
        by (nonlinear_arith)
        requires
            0 <= t,
            0 < size,
    ;
    assert(k * size >= len && k * size < len + size) by (nonlinear_arith)
        requires
            0 < size,
            k == (len + size - 1) / size,
    ;
    assert(t < k) by (nonlinear_arith)
        requires
            0 < size,
            t * size < len,
            len <= k * size,
    ;
    if len <= t * size + size {
        assert(k < t + 2) by (nonlinear_arith)
            requires
                0 < size,
                k * size < len + size,
                len <= t * size + size,
        ;
    }
}

/// How many digests the blocks of an image have.
pub open spec fn distinct_blocks(image: Seq<u8>, size: int) -> nat {
    scanned(
        source::reads_of(image),
        image.len() as int,
        size,
        0,
        nothing_scanned(),
    )->Ok_0.digests.len()
}

/// A scan forgets no digest.
proof fn lemma_scan_grows(reads: Reads, total: int, size: int, off: int, st: ScanView)
    ensures
        scanned(reads, total, size, off, st) matches Ok(done) ==> st.digests.len()
            <= done.digests.len(),
    decreases total - off,
{
    if size > 0 && off < total {
        let label = "Read block "@ + numbers::decimal(st.table.len() as int) + ": "@;
        if let Ok(b) = block_read(reads, total, size, off, label) {
            if size < total - off {
                let next = noted(st, codec::blake3_digest(b), off);
                lemma_scan_grows(reads, total, size, off + size, next);
            }
        }
    }
}

/// An image in memory can be scanned.
proof fn lemma_scan_succeeds(image: Seq<u8>, size: int, off: int, st: ScanView)
    requires
        0 <= off,
    ensures
        scanned(source::reads_of(image), image.len() as int, size, off, st) is Ok,
    decreases image.len() - off,
{
    if size > 0 && off < image.len() {
        let reads = source::reads_of(image);
        let label = "Read block "@ + numbers::decimal(st.table.len() as int) + ": "@;
        let b = block_read(reads, image.len() as int, size, off, label)->Ok_0;
        if size < image.len() - off {
            lemma_scan_succeeds(image, size, off + size, noted(st, codec::blake3_digest(b), off));
        }
    }
}

proof fn lemma_scan(image: Seq<u8>, size: int, off: int, st: ScanView) -> (done: ScanView)
    requires
        0 < size,
        off == st.table.len() * size,
        off < image.len(),
        told_apart(image, size),
        scanned(
            source::reads_of(image),
            image.len() as int,
            size,
            off,
            st,
        )->Ok_0.digests.len() <= 0x1_0000_0000,
        describes(image, size, off, st),
    ensures
        scanned(source::reads_of(image), image.len() as int, size, off, st) == Ok::<
            ScanView,
            Seq<char>,
        >(done),
        describes(image, size, off, done),
        done.table.len() == wux_reader::pieces(image.len() as int, size),
    decreases image.len() - off,
{
    let reads = source::reads_of(image);
    let total = image.len() as int;
    let t = st.table.len() as int;
    lemma_multiple(t, size, total);
    let b = block_of(image, size, off);
    let d = codec::blake3_digest(b);
    let label = "Read block "@ + numbers::decimal(t) + ": "@;
    assert(block_read(reads, total, size, off, label) == Ok::<Seq<u8>, Seq<char>>(b));
    assert(is_block(image, size, off));
    let next = noted(st, d, off);
    lemma_position(st.digests, 0, d);
    lemma_scan_grows(reads, total, size, off + size, next);
    assert(scanned(reads, total, size, off, st) == if size >= total - off {
        Ok::<ScanView, Seq<char>>(next)
    } else {
        scanned(reads, total, size, off + size, next)
    });
    if size < total - off {
        lemma_scan_succeeds(image, size, off + size, next);
    }
    assert(next.digests.len() <= 0x1_0000_0000);
    assert(describes(image, size, off + size, next)) by {
        assert forall|i: int| 0 <= i < next.table.len() implies (#[trigger] next.table[i])
            < next.firsts.len() && block_of(image, size, next.firsts[next.table[i] as int])
            == block_of(image, size, i * size) by {
            if i < t {
                assert(next.table[i] == st.table[i]);
                assert(st.table[i] < st.firsts.len());
                assert(next.firsts[st.table[i] as int] == st.firsts[st.table[i] as int]);
            } else {
                match position(st.digests, 0, d) {
                    Some(p) => {
                        assert(next.table[i] == p);
                        assert(is_block(image, size, st.firsts[p]));
                    },
                    None => {
                        assert(next.table[i] == st.digests.len());
                        assert(next.firsts[st.digests.len() as int] == off);
                    },
                }
            }
        }
        assert forall|p: int| 0 <= p < next.firsts.len() implies is_block(
            image,
            size,
            #[trigger] next.firsts[p],
        ) && next.digests[p] == codec::blake3_digest(block_of(image, size, next.firsts[p])) by {
            if p < st.firsts.len() {
                assert(next.firsts[p] == st.firsts[p]);
                assert(next.digests[p] == st.digests[p]);
            }
        }
    }
    if size >= total - off {
        next
    } else {
        lemma_scan(image, size, off + size, next)
    }
}

proof fn lemma_block(image: Seq<u8>, size: int, off: int)
    requires
        0 < size,
        0 <= off < image.len(),
    ensures
        block_of(image, size, off).len() == size,
        block_of(image, size, off).take(block_len(image.len() as int, size, off))
            == image.subrange(off, off + block_len(image.len() as int, size, off)),
{
    let n = block_len(image.len() as int, size, off);
    let b = block_of(image, size, off);
    assert(b.take(n) =~= image.subrange(off, off + n));
}

/// Whether the bytes `b` stand in `all` at `at`.
spec fn stands_at(all: Seq<u8>, at: int, b: Seq<u8>) -> bool {
    0 <= at && at + b.len() <= all.len() && all.subrange(at, at + b.len()) == b
}

/// Whether the blocks at `firsts`, from the one numbered `k` on, stand in `all`
/// one behind the other from `base` on.
spec fn laid_out(
    all: Seq<u8>,
    base: int,
    image: Seq<u8>,
    size: int,
    firsts: Seq<int>,
    k: int,
) -> bool {
    forall|p: int|
        k <= p < firsts.len() ==> stands_at(
            all,
            base + (p - k) * size,
            block_of(image, size, #[trigger] firsts[p]),
        )
}

/// Whether blocks of the image begin at all of `firsts`.
spec fn all_blocks(image: Seq<u8>, size: int, firsts: Seq<int>) -> bool {
    forall|p: int| 0 <= p < firsts.len() ==> is_block(image, size, #[trigger] firsts[p])
}

/// Whether a table leads from each block of the image to an equal one of `firsts`.
spec fn leads(image: Seq<u8>, size: int, firsts: Seq<int>, table: Seq<u32>) -> bool {
    forall|i: int|
        0 <= i < table.len() ==> (#[trigger] table[i]) < firsts.len() && block_of(
            image,
            size,
            firsts[table[i] as int],
        ) == block_of(image, size, i * size)
}

proof fn lemma_stored(image: Seq<u8>, size: int, firsts: Seq<int>, k: int) -> (all: Seq<u8>)
    requires
        0 < size,
        0 <= k <= firsts.len(),
        all_blocks(image, size, firsts),
    ensures
        stored_from(source::reads_of(image), image.len() as int, size, firsts, k) == Ok::<
            Seq<u8>,
            Seq<char>,
        >(all),
        all.len() == (firsts.len() - k) * size,
        laid_out(all, 0, image, size, firsts, k),
    decreases firsts.len() - k,
{
    let n = firsts.len() as int;
    if k == n {
        assert((n - k) * size == 0) by (nonlinear_arith)
            requires
                n == k,
        ;
        seq![]
    } else {
        let first = block_of(image, size, firsts[k]);
        let rest = lemma_stored(image, size, firsts, k + 1);
        assert(is_block(image, size, firsts[k]));
        lemma_block(image, size, firsts[k]);
        let label = "Re-read block "@ + numbers::decimal(k) + ": "@;
        assert(block_read(source::reads_of(image), image.len() as int, size, firsts[k], label)
            == Ok::<Seq<u8>, Seq<char>>(first));
        let all = first + rest;
        assert((n - k) * size == size + (n - (k + 1)) * size) by (nonlinear_arith);
        assert forall|p: int| k <= p < firsts.len() implies stands_at(
            all,
            0 + (p - k) * size,
            block_of(image, size, #[trigger] firsts[p]),
        ) by {
            if p == k {
                assert((p - k) * size == 0) by (nonlinear_arith)
                    requires
                        p == k,
                ;
                assert(all.subrange(0, size) =~= first);
            } else {
                assert((p - k) * size == (p - (k + 1)) * size + size) by (nonlinear_arith);
                let at = (p - (k + 1)) * size;
                let b = block_of(image, size, firsts[p]);
                assert(stands_at(rest, 0 + at, b));
                assert(all.subrange(at + size, at + size + b.len()) =~= rest.subrange(
                    at,
                    at + b.len(),
                ));
            }
        }
        all
    }
}

proof fn lemma_index(t: Seq<u32>)
    ensures
        index_bytes(t).len() == 4 * t.len(),
        forall|i: int|
            0 <= i < t.len() ==> bytes::le32_at(index_bytes(t), 4 * i) == #[trigger] t[i],
    decreases t.len(),
{
    if t.len() > 0 {
        let n = t.len() - 1;
        let head = index_bytes(t.drop_last());
        let word = bytes::le_bytes(t.last() as int, 4);
        lemma_index(t.drop_last());
        bytes::lemma_le_bytes(t.last() as int, word);
        assert forall|i: int| 0 <= i < t.len() implies bytes::le32_at(index_bytes(t), 4 * i)
            == #[trigger] t[i] by {
            if i < n {
                assert(t.drop_last()[i] == t[i]);
                assert(bytes::le32_at(head, 4 * i) == t[i]);
            } else {
                assert(bytes::le32_at(head + word, 4 * n) == bytes::le32_at(word, 0));
            }
        }
    }
}

proof fn lemma_head(total: int, size: int, t: Seq<u32>)
    requires
        0 < size <= u32::MAX,
        0 <= total <= u64::MAX,
    ensures
        head_of(total, size, t).len() == wux_reader::rounded_up(32 + 4 * t.len() as int, size),
        head_of(total, size, t).len() >= 32 + 4 * t.len(),
        ({
            let h = head_of(total, size, t);
            &&& bytes::le32_at(h, 0) == WUX_MAGIC0
            &&& bytes::le32_at(h, 4) == WUX_MAGIC1
            &&& bytes::le32_at(h, 8) == size
            &&& bytes::le64_at(h, 16) == total
            &&& h.subrange(32, 32 + 4 * t.len() as int) == index_bytes(t)
        }),
{
    let h = head_of(total, size, t);
    let m0 = bytes::le_bytes(WUX_MAGIC0 as int, 4);
    let m1 = bytes::le_bytes(WUX_MAGIC1 as int, 4);
    let sz = bytes::le_bytes(size % 0x1_0000_0000, 4);
    let tot = bytes::le_bytes(total, 8);
    bytes::lemma_le_bytes(WUX_MAGIC0 as int, m0);
    bytes::lemma_le_bytes(WUX_MAGIC1 as int, m1);
    bytes::lemma_le_bytes(size, sz);
    bytes::lemma_le_bytes(total, tot);
    lemma_index(t);
    lemma_round(32 + 4 * t.len() as int, size);
    assert(h.subrange(0, 4) =~= m0);
    assert(h.subrange(4, 8) =~= m1);
    assert(h.subrange(8, 12) =~= sz);
    assert(h.subrange(16, 24) =~= tot);
    assert(h.subrange(32, 32 + 4 * t.len() as int) =~= index_bytes(t));
    assert(forall|i: int| 0 <= i < 4 ==> h[i] == #[trigger] h.subrange(0, 4)[i]);
    assert(forall|i: int| 0 <= i < 4 ==> h[4 + i] == #[trigger] h.subrange(4, 8)[i]);
    assert(forall|i: int| 0 <= i < 4 ==> h[8 + i] == #[trigger] h.subrange(8, 12)[i]);
    assert(forall|i: int| 0 <= i < 8 ==> h[16 + i] == #[trigger] h.subrange(16, 24)[i]);
    assert(bytes::le32_at(h, 0) == bytes::le32_at(h.subrange(0, 4), 0));
    assert(bytes::le32_at(h, 4) == bytes::le32_at(h.subrange(4, 8), 0));
    assert(bytes::le32_at(h, 8) == bytes::le32_at(h.subrange(8, 12), 0));
    assert(bytes::le64_at(h, 16) == bytes::le64_at(h.subrange(16, 24), 0));
}

proof fn lemma_reader(
    image: Seq<u8>,
    file: Seq<u8>,
    v: wux_reader::WuxView,
    firsts: Seq<int>,
    pos: int,
    n: int,
)
    requires
        0 < v.sector_size,
        0 <= pos,
        0 <= n,
        pos + n <= image.len(),
        v.total_bytes == image.len(),
        v.index_table.len() == wux_reader::pieces(image.len() as int, v.sector_size),
        file.len() <= u64::MAX,
        all_blocks(image, v.sector_size, firsts),
        laid_out(file, v.data_start, image, v.sector_size, firsts, 0),
        leads(image, v.sector_size, firsts, v.index_table),
    ensures
        wux_reader::wux_exact(source::reads_of(file), v, pos, n) == Ok::<Seq<u8>, Seq<char>>(
            image.subrange(pos, pos + n),
        ),
    decreases n,
{
    let reads = source::reads_of(file);
    let size = v.sector_size;
    if n == 0 {
        assert(image.subrange(pos, pos) =~= seq![]);
    } else {
        let q = pos / size;
        let within = pos % size;
        wux_reader::lemma_place(pos, size, image.len() as int);
        let phys = v.index_table[q] as int;
        let m = wux_reader::piece_len(v, pos, n);
        let base = v.data_start + phys * size;
        let b = block_of(image, size, q * size);
        assert(v.index_table[q] < firsts.len());
        assert(block_of(image, size, firsts[phys]) == b);
        assert(phys - 0 == phys);
        assert(stands_at(file, v.data_start + (phys - 0) * size, block_of(image, size, firsts[phys])));
        assert(stands_at(file, base, b));
        assert(0 <= q * size <= pos);
        lemma_block(image, size, q * size);
        let l = block_len(image.len() as int, size, q * size);
        assert(within + m <= l);
        let got = file.subrange(base + within, base + within + m);
        assert(got =~= image.subrange(pos, pos + m)) by {
            assert forall|i: int| 0 <= i < m implies got[i] == image[pos + i] by {
                assert(file.subrange(base, base + size)[within + i] == file[base + within + i]);
                assert(b.take(l)[within + i] == b[within + i]);
                assert(image.subrange(q * size, q * size + l)[within + i] == image[pos + i]);
            }
        }
        assert(wux_reader::wux_read(reads, v, pos, n) == Ok::<Seq<u8>, Seq<char>>(got));
        lemma_reader(image, file, v, firsts, pos + m, n - m);
        assert(image.subrange(pos, pos + m) + image.subrange(pos + m, pos + n) =~= image.subrange(
            pos,
            pos + n,
        ));
    }
}

proof fn lemma_opened(total: int, size: int, t: Seq<u32>, blocks: Seq<u8>)
    requires
        wux_reader::power_of_two(size),
        0 < size <= u32::MAX,
        0 < total <= u64::MAX,
        t.len() == wux_reader::pieces(total, size),
        head_of(total, size, t).len() + blocks.len() <= u64::MAX,
    ensures
        wux_reader::wux_opened(source::reads_of(head_of(total, size, t) + blocks)) == Ok::<
            wux_reader::WuxView,
            Seq<char>,
        >(
            wux_reader::WuxView {
                sector_size: size,
                index_table: t,
                data_start: head_of(total, size, t).len() as int,
                total_bytes: total,
            },
        ),
{
    let head = head_of(total, size, t);
    let file = head + blocks;
    let k = t.len() as int;
    lemma_head(total, size, t);
    let h = file.subrange(0, 32);
    assert(forall|i: int| 0 <= i < 32 ==> #[trigger] h[i] == head[i]);
    assert(bytes::le32_at(h, 0) == bytes::le32_at(head, 0));
    assert(bytes::le32_at(h, 4) == bytes::le32_at(head, 4));
    assert(bytes::le32_at(h, 8) == bytes::le32_at(head, 8));
    assert(bytes::le64_at(h, 16) == bytes::le64_at(head, 16));
    let index = file.subrange(32, 32 + 4 * k);
    assert(index =~= head.subrange(32, 32 + 4 * k));
    lemma_index(t);
    assert(wux_reader::words_of(index) =~= t);
}

/// A WUX file made from an image reads back as that image, wherever blocks
/// that differ have digests that do.
pub proof fn reading_gives_back_what_was_written(image: Seq<u8>, size: int, pos: int, n: int)
    requires
        wux_reader::power_of_two(size),
        size <= u32::MAX,
        0 < image.len(),
        distinct_blocks(image, size) <= 0x1_0000_0000,
        32 + 4 * wux_reader::pieces(image.len() as int, size) + 2 * size + image.len() <= u64::MAX,
        told_apart(image, size),
        0 <= pos,
        0 <= n,
        pos + n <= image.len(),
    ensures
        wux_file(source::reads_of(image), image.len() as int, size) matches Ok(file)
            && wux_reader::wux_opened(source::reads_of(file)) matches Ok(v) && v.total_bytes
            == image.len() && v.sector_size == size && wux_reader::wux_exact(
            source::reads_of(file),
            v,
            pos,
            n,
        ) == Ok::<Seq<u8>, Seq<char>>(image.subrange(pos, pos + n)),
{
    let total = image.len() as int;
    let start = nothing_scanned();
    assert(start.table.len() * size == 0) by (nonlinear_arith)
        requires
            start.table.len() == 0,
    ;
    let st = lemma_scan(image, size, 0, start);
    let blocks = lemma_stored(image, size, st.firsts, 0);
    lemma_head(total, size, st.table);
    let head = head_of(total, size, st.table);
    let file = head + blocks;
    let k = wux_reader::pieces(total, size);
    let count = st.firsts.len() as int;
    lemma_round(32 + 4 * k, size);
    lemma_round(total, size);
    assert(count * size <= k * size) by (nonlinear_arith)
        requires
            count <= k,
            0 < size,
    ;
    assert((count - 0) * size == count * size);
    assert(file.len() <= u64::MAX);
    lemma_opened(total, size, st.table, blocks);
    let v = wux_reader::WuxView {
        sector_size: size,
        index_table: st.table,
        data_start: head.len() as int,
        total_bytes: total,
    };
    lemma_shifted(head, blocks, image, size, st.firsts);
    lemma_reader(image, file, v, st.firsts, pos, n);
}

proof fn lemma_shifted(head: Seq<u8>, blocks: Seq<u8>, image: Seq<u8>, size: int, firsts: Seq<int>)
    requires
        laid_out(blocks, 0, image, size, firsts, 0),
    ensures
        laid_out(head + blocks, head.len() as int, image, size, firsts, 0),
{
    let file = head + blocks;
    assert forall|p: int| 0 <= p < firsts.len() implies stands_at(
        file,
        head.len() + (p - 0) * size,
        block_of(image, size, #[trigger] firsts[p]),
    ) by {
        let at = (p - 0) * size;
        let b = block_of(image, size, firsts[p]);
        assert(stands_at(blocks, 0 + at, b));
        assert(file.subrange(head.len() + at, head.len() + at + b.len()) =~= blocks.subrange(
            at,
            at + b.len(),
        ));
    }
}

/// What reads of up to `n` bytes give, one behind the other from `pos` on, until one
/// gives nothing.
pub open spec fn read_on(reads: Reads, v: wux_reader::WuxView, pos: int, n: int) -> Result<
    Seq<u8>,
    Seq<char>,
>
    decreases v.total_bytes - pos,
{
    match wux_reader::wux_read(reads, v, pos, n) {
        Err(e) => Err(e),
        Ok(b) => if 0 < b.len() <= v.total_bytes - pos {
            source::after(b, read_on(reads, v, pos + b.len(), n))
        } else {
            Ok(b)
        },
    }
}

/// One read gives what an exact read of the piece that it takes gives.
proof fn lemma_one_read(reads: Reads, v: wux_reader::WuxView, pos: int, n: int, b: Seq<u8>)
    requires
        0 < v.sector_size,
        0 <= pos < v.total_bytes,
        0 < n,
        wux_reader::wux_exact(reads, v, pos, wux_reader::piece_len(v, pos, n)) == Ok::<
            Seq<u8>,
            Seq<char>,
        >(b),
    ensures
        0 < wux_reader::piece_len(v, pos, n) <= v.total_bytes - pos,
        pos % v.sector_size + wux_reader::piece_len(v, pos, n) <= v.sector_size,
        wux_reader::wux_read(reads, v, pos, n) == Ok::<Seq<u8>, Seq<char>>(b),
{
    wux_reader::lemma_place(pos, v.sector_size, v.total_bytes);
    let m = wux_reader::piece_len(v, pos, n);
    assert(wux_reader::piece_len(v, pos, m) == m);
    assert(wux_reader::wux_read(reads, v, pos, m) == wux_reader::wux_read(reads, v, pos, n));
    assert(wux_reader::wux_exact(reads, v, pos + m, 0) == Ok::<Seq<u8>, Seq<char>>(seq![]));
    let got = wux_reader::wux_read(reads, v, pos, n)->Ok_0;
    assert(got + seq![] =~= got);
}

/// Whether exact reads of a WUX file give what stands in the image.
spec fn shows(reads: Reads, v: wux_reader::WuxView, image: Seq<u8>) -> bool {
    forall|pos: int, n: int|
        0 <= pos && 0 <= n && pos + n <= image.len() ==> #[trigger] wux_reader::wux_exact(
            reads,
            v,
            pos,
            n,
        ) == Ok::<Seq<u8>, Seq<char>>(image.subrange(pos, pos + n))
}

/// Reading on to the end gives what stands in the image.
proof fn lemma_read_on(reads: Reads, v: wux_reader::WuxView, image: Seq<u8>, pos: int, n: int)
    requires
        0 < v.sector_size,
        v.total_bytes == image.len(),
        shows(reads, v, image),
        0 <= pos < image.len(),
        0 < n,
    ensures
        read_on(reads, v, pos, n) == Ok::<Seq<u8>, Seq<char>>(image.skip(pos)),
        wux_reader::wux_read(reads, v, pos, n) matches Ok(b) && 0 < b.len() && pos % v.sector_size
            + b.len() <= v.sector_size,
    decreases image.len() - pos,
{
    let m = wux_reader::piece_len(v, pos, n);
    let b = image.subrange(pos, pos + m);
    wux_reader::lemma_place(pos, v.sector_size, v.total_bytes);
    assert(0 < m <= image.len() - pos);
    assert(wux_reader::wux_exact(reads, v, pos, m) == Ok::<Seq<u8>, Seq<char>>(b));
    lemma_one_read(reads, v, pos, n, b);
    assert(read_on(reads, v, pos, n) == source::after(b, read_on(reads, v, pos + m, n)));
    if pos + m < image.len() {
        lemma_read_on(reads, v, image, pos + m, n);
    } else {
        assert(read_on(reads, v, pos + m, n) == Ok::<Seq<u8>, Seq<char>>(seq![]));
        assert(image.skip(pos + m) =~= seq![]);
    }
    assert(b + image.skip(pos + m) =~= image.skip(pos));
}

/// Reading on to the end of a WUX file made from an image gives the image, without what
/// fills up its last block, and each read stays in one block, wherever blocks that
/// differ have digests that do.
#[verifier::rlimit(40)]
pub proof fn reading_on_gives_the_image(image: Seq<u8>, size: int, pos: int, n: int)
    requires
        wux_reader::power_of_two(size),
        0 < size <= u32::MAX,
        0 < image.len(),
        distinct_blocks(image, size) <= 0x1_0000_0000,
        32 + 4 * wux_reader::pieces(image.len() as int, size) + 2 * size + image.len() <= u64::MAX,
        told_apart(image, size),
        0 <= pos < image.len(),
        0 < n,
    ensures
        wux_file(source::reads_of(image), image.len() as int, size) matches Ok(file)
            && wux_reader::wux_opened(source::reads_of(file)) matches Ok(v) && read_on(
            source::reads_of(file),
            v,
            pos,
            n,
        ) == Ok::<Seq<u8>, Seq<char>>(image.skip(pos)) && (wux_reader::wux_read(
            source::reads_of(file),
            v,
            pos,
            n,
        ) matches Ok(b) && 0 < b.len() && pos % size + b.len() <= size),
{
    reading_gives_back_what_was_written(image, size, 0, 0);
    let file = wux_file(source::reads_of(image), image.len() as int, size)->Ok_0;
    let reads = source::reads_of(file);
    let v = wux_reader::wux_opened(reads)->Ok_0;
    assert(shows(reads, v, image)) by {
        assert forall|p: int, m: int|
            0 <= p && 0 <= m && p + m <= image.len() implies #[trigger] wux_reader::wux_exact(
            reads,
            v,
            p,
            m,
        ) == Ok::<Seq<u8>, Seq<char>>(image.subrange(p, p + m)) by {
            reading_gives_back_what_was_written(image, size, p, m);
        }
    }
    lemma_read_on(reads, v, image, pos, n);
}

} // verus!
