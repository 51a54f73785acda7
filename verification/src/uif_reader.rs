//! MagicISO images: runs of sectors that are compressed one by one.
use vstd::prelude::*;
use crate::bytes;
use crate::bytes::{read_u32_le, read_u64_le, spells_at, zeroes};
use crate::codec;
use crate::codec::zlib_decode_exact;
use crate::cso_reader;
use crate::cso_reader::take_part;
use crate::source;
use crate::source::{label_error, read_labelled, read_wide, ByteSource, Reads};

verus! {

/// A run of sectors: where it is stored and in how many bytes, the first sector
/// and how many there are, and how it is stored.
#[derive(Clone, Copy)]
pub struct BlhrEntry {
    pub offset: u64,
    pub zsize: u32,
    pub sector: u32,
    pub size: u32,
    pub typ: u32,
}

/// A 32-bit number, counted around.
pub open spec fn around(n: int) -> u32 {
    (n % 0x1_0000_0000) as u32
}

/// The entry at an index of a table.
pub open spec fn entry_at(table: Seq<u8>, k: int) -> BlhrEntry {
    BlhrEntry {
        offset: bytes::le64_at(table, k * 24) as u64,
        zsize: bytes::le32_at(table, k * 24 + 8) as u32,
        sector: bytes::le32_at(table, k * 24 + 12) as u32,
        size: bytes::le32_at(table, k * 24 + 16) as u32,
        typ: bytes::le32_at(table, k * 24 + 20) as u32,
    }
}

/// The entries of a table.
pub open spec fn entries_of(table: Seq<u8>) -> Seq<BlhrEntry> {
    Seq::new(table.len() / 24, |k: int| entry_at(table, k))
}

/// The first `n` bytes that inflating gives; more than memory can address cannot
/// be had.
pub open spec fn inflated(stored: Seq<u8>, n: int) -> Result<Seq<u8>, Seq<char>> {
    if n > isize::MAX {
        Err(source::short_read())
    } else {
        codec::zlib_prefix(stored, n as nat)
    }
}

/// The first `n` bytes that inflating gives.
fn inflate(stored: &[u8], n: u64) -> (r: Result<Vec<u8>, String>)
    ensures
        source::outcome(r) == inflated(stored@, n as int),
        r matches Ok(b) ==> b@.len() == n,
{
    if n > isize::MAX as u64 {
        return Err("failed to fill whole buffer".to_owned());
    }
    zlib_decode_exact(stored, n as usize)
}

/// The table behind the header `h` at `at`: what its length says is left of the
/// header's own fields, inflated.
pub open spec fn table_at(reads: Reads, at: int, h: Seq<u8>) -> Result<Seq<u8>, Seq<char>> {
    let size = bytes::le32_at(h, 4);
    let len = if size < 8 {
        0
    } else {
        size - 8
    };
    match source::labelled(source::reach(reads, at + 16, len), "UIF BLHR data: "@) {
        Err(e) => Err(e),
        Ok(stored) => source::labelled(
            inflated(stored, bytes::le32_at(h, 12) * 24),
            "UIF BLHR decompress: "@,
        ),
    }
}

/// The length of an image's sectors and its entries.
pub open spec fn opened(reads: Reads, len: u64) -> Result<(u32, Seq<BlhrEntry>), Seq<char>> {
    if len < 56 {
        Err("UIF: file too small"@)
    } else {
        match source::labelled(reads(len - 56, 56), "UIF BBIS read: "@) {
            Err(e) => Err(e),
            Ok(f) => {
                let at = bytes::le64_at(f, 0x1C);
                if !bytes::spells(f, 0, "bbis"@) {
                    Err("Not a UIF file"@)
                } else if bytes::le32_at(f, 0x14) == 0 {
                    Err("UIF: sector_size=0"@)
                } else {
                    match source::labelled(reads(at, 16), "UIF BLHR header: "@) {
                        Err(e) => Err(e),
                        Ok(h) => if !bytes::spells(h, 0, "blhr"@) {
                            Err("UIF: invalid BLHR signature"@)
                        } else {
                            match table_at(reads, at, h) {
                                Err(e) => Err(e),
                                Ok(table) => Ok(
                                    (bytes::le32_at(f, 0x14) as u32, entries_of(table)),
                                ),
                            }
                        },
                    }
                }
            },
        }
    }
}

/// Whether an entry holds a sector.
pub open spec fn holds(e: BlhrEntry, lba: u32) -> bool {
    e.sector <= lba < around(e.sector + e.size)
}

/// The first entry from `k` on that holds a sector.
pub open spec fn holder_from(entries: Seq<BlhrEntry>, lba: u32, k: int) -> Option<int>
    decreases entries.len() - k,
{
    if k < 0 || k >= entries.len() {
        None
    } else if holds(entries[k], lba) {
        Some(k)
    } else {
        holder_from(entries, lba, k + 1)
    }
}

/// The bytes that a run of sectors takes, counted around.
pub open spec fn run_len(e: BlhrEntry, sector_size: u32) -> int {
    around(e.size * sector_size) as int
}

/// The sectors of an entry: as they are stored, all zeros, or inflated.
pub open spec fn run_of(reads: Reads, e: BlhrEntry, sector_size: u32) -> Result<
    Seq<u8>,
    Seq<char>,
> {
    match source::reach(reads, e.offset as int, e.zsize as int) {
        Err(err) => Err(err),
        Ok(stored) => if e.typ == 1 {
            Ok(stored)
        } else if e.typ == 3 {
            Ok(bytes::zeros(run_len(e, sector_size)))
        } else {
            inflated(stored, run_len(e, sector_size))
        },
    }
}

/// A sector's number in 32 bits.
pub open spec fn short_lba(lba: u64) -> u32 {
    around(lba as int)
}

/// Up to `n` bytes from the sector `lba` on, within the run that holds it.
pub open spec fn sector_read(
    reads: Reads,
    entries: Seq<BlhrEntry>,
    sector_size: u32,
    lba: u64,
    n: int,
) -> Result<Seq<u8>, Seq<char>> {
    match holder_from(entries, short_lba(lba), 0) {
        None => Err("UIF: LBA not found"@),
        Some(k) => match run_of(reads, entries[k], sector_size) {
            Err(e) => Err(e),
            Ok(run) => Ok(
                cso_reader::part(
                    run,
                    around((short_lba(lba) - entries[k].sector) * sector_size) as int,
                    n,
                ),
            ),
        },
    }
}

/// The sectors of an image: up to the end of its last run.
pub open spec fn sector_count(entries: Seq<BlhrEntry>) -> u64 {
    if entries.len() == 0 {
        0
    } else {
        around(entries.last().sector + entries.last().size) as u64
    }
}

/// A compressed image.
pub struct UifReader<S> {
    pub source: S,
    pub entries: Vec<BlhrEntry>,
    pub sector_size: u32,
    pub cache: Option<(usize, Vec<u8>)>,
}

/// Reads the entries of a table.
#[verifier::loop_isolation(false)]
fn read_entries(table: &[u8]) -> (r: Vec<BlhrEntry>)
    ensures
        r@ == entries_of(table@),
{
    let len: usize = table.len();
    let n: usize = len / 24;
    let mut out: Vec<BlhrEntry> = Vec::new();
    while out.len() < n
        invariant
            out@.len() <= n,
            forall|j: int| 0 <= j < out@.len() ==> out@[j] == entry_at(table@, j),
        decreases n - out@.len(),
    {
        let i: usize = out.len();
        let at: usize = i * 24;
        let e: BlhrEntry = BlhrEntry {
            offset: read_u64_le(table, at),
            zsize: read_u32_le(table, at + 8),
            sector: read_u32_le(table, at + 12),
            size: read_u32_le(table, at + 16),
            typ: read_u32_le(table, at + 20),
        };
        out.push(e);
    }
    assert(out@ =~= entries_of(table@));
    out
}

impl<S: ByteSource> UifReader<S> {
    /// Whether the run that is kept is the one that the image holds.
    pub open spec fn wf(&self) -> bool {
        self.cache matches Some((k, b)) ==> k < self.entries@.len() && run_of(
            self.source.reads(),
            self.entries@[k as int],
            self.sector_size,
        ) == Ok::<Seq<u8>, Seq<char>>(b@)
    }

    /// Opens an image of `len` bytes.
    pub fn open(source: S, len: u64) -> (r: Result<UifReader<S>, String>)
        ensures
            match r {
                Ok(u) => opened(source.reads(), len) == Ok::<(u32, Seq<BlhrEntry>), Seq<char>>(
                    (u.sector_size, u.entries@),
                ) && u.wf() && u.source.reads() == source.reads(),
                Err(e) => opened(source.reads(), len) == Err::<(u32, Seq<BlhrEntry>), Seq<char>>(
                    e@,
                ),
            },
    {
        let mut src: S = source;
        if len < 56 {
            return Err("UIF: file too small".to_owned());
        }
        let f: Vec<u8> = match read_labelled(&mut src, len - 56, 56, "UIF BBIS read: ") {
            Ok(b) => b,
            Err(e) => {
                return Err(e);
            },
        };
        if !spells_at(f.as_slice(), 0, "bbis") {
            return Err("Not a UIF file".to_owned());
        }
        let sector_size: u32 = read_u32_le(f.as_slice(), 0x14);
        let at: u64 = read_u64_le(f.as_slice(), 0x1C);
        if sector_size == 0 {
            return Err("UIF: sector_size=0".to_owned());
        }
        let h: Vec<u8> = match read_labelled(&mut src, at, 16, "UIF BLHR header: ") {
            Ok(b) => b,
            Err(e) => {
                return Err(e);
            },
        };
        if !spells_at(h.as_slice(), 0, "blhr") {
            return Err("UIF: invalid BLHR signature".to_owned());
        }
        let size: u32 = read_u32_le(h.as_slice(), 4);
        let count: u32 = read_u32_le(h.as_slice(), 12);
        let stored_len: u64 = if size < 8 {
            0
        } else {
            (size - 8) as u64
        };
        let stored: Vec<u8> = match read_wide(
            &mut src,
            at as u128 + 16,
            stored_len,
            "UIF BLHR data: ",
        ) {
            Ok(b) => b,
            Err(e) => {
                return Err(e);
            },
        };
        let table: Vec<u8> = match label_error(
            inflate(stored.as_slice(), count as u64 * 24),
            "UIF BLHR decompress: ",
        ) {
            Ok(b) => b,
            Err(e) => {
                return Err(e);
            },
        };
        let entries: Vec<BlhrEntry> = read_entries(table.as_slice());
        Ok(UifReader { source: src, entries, sector_size, cache: None })
    }

    /// The sectors of this image.
    pub fn total_sectors(&self) -> (r: u64)
        ensures
            r == sector_count(self.entries@),
    {
        let n: usize = self.entries.len();
        if n == 0 {
            return 0;
        }
        let e: BlhrEntry = self.entries[n - 1];
        e.sector.wrapping_add(e.size) as u64
    }

    /// The entry that holds a sector.
    #[verifier::loop_isolation(false)]
    pub fn find_entry(&self, lba: u64) -> (r: Option<usize>)
        ensures
            match r {
                Some(k) => k < self.entries@.len() && holder_from(
                    self.entries@,
                    short_lba(lba),
                    0,
                ) == Some(k as int) && holds(self.entries@[k as int], short_lba(lba)),
                None => holder_from(self.entries@, short_lba(lba), 0) is None,
            },
    {
        let short: u32 = (lba % 0x1_0000_0000) as u32;
        let mut k: usize = 0;
        while k < self.entries.len()
            invariant
                k <= self.entries@.len(),
                holder_from(self.entries@, short, k as int) == holder_from(
                    self.entries@,
                    short,
                    0,
                ),
            decreases self.entries@.len() - k,
        {
            let e: BlhrEntry = self.entries[k];
            if e.sector <= short && short < e.sector.wrapping_add(e.size) {
                return Some(k);
            }
            k += 1;
        }
        None
    }

    /// Reads the sectors of an entry.
    fn load_entry(&mut self, k: usize) -> (r: Result<(), String>)
        requires
            old(self).wf(),
            k < old(self).entries@.len(),
        ensures
            final(self).wf(),
            final(self).entries@ == old(self).entries@,
            final(self).sector_size == old(self).sector_size,
            final(self).source.reads() == old(self).source.reads(),
            match r {
                Ok(_) => final(self).cache matches Some((i, b)) && i == k && run_of(
                    old(self).source.reads(),
                    old(self).entries@[k as int],
                    old(self).sector_size,
                ) == Ok::<Seq<u8>, Seq<char>>(b@),
                Err(e) => run_of(
                    old(self).source.reads(),
                    old(self).entries@[k as int],
                    old(self).sector_size,
                ) == Err::<Seq<u8>, Seq<char>>(e@),
            },
    {
        let held: bool = match &self.cache {
            Some((i, _)) => *i == k,
            None => false,
        };
        if held {
            return Ok(());
        }
        let e: BlhrEntry = self.entries[k];
        let stored: Vec<u8> = match read_wide(&mut self.source, e.offset as u128, e.zsize as u64, "") {
            Ok(b) => b,
            Err(err) => {
                proof {
                    reveal_strlit("");
                    let whole = source::reach(
                        old(self).source.reads(),
                        e.offset as int,
                        e.zsize as int,
                    )->Err_0;
                    assert(""@ + whole =~= whole);
                }
                return Err(err);
            },
        };
        let len: u32 = e.size.wrapping_mul(self.sector_size);
        let run: Vec<u8> = if e.typ == 1 {
            stored
        } else if e.typ == 3 {
            zeroes(len as u64)
        } else {
            match inflate(stored.as_slice(), len as u64) {
                Ok(b) => b,
                Err(err) => {
                    return Err(err);
                },
            }
        };
        self.cache = Some((k, run));
        Ok(())
    }

    /// Reads up to `n` bytes from the sector `lba` on, within the run that holds
    /// it; nothing of a run that is too short to hold it.
    pub fn read_at(&mut self, lba: u64, n: usize) -> (r: Result<Vec<u8>, String>)
        requires
            old(self).wf(),
        ensures
            final(self).wf(),
            final(self).entries@ == old(self).entries@,
            final(self).sector_size == old(self).sector_size,
            final(self).source.reads() == old(self).source.reads(),
            source::outcome(r) == sector_read(
                old(self).source.reads(),
                old(self).entries@,
                old(self).sector_size,
                lba,
                n as int,
            ),
    {
        let k: usize = match self.find_entry(lba) {
            Some(k) => k,
            None => {
                return Err("UIF: LBA not found".to_owned());
            },
        };
        let short: u32 = (lba % 0x1_0000_0000) as u32;
        match self.load_entry(k) {
            Err(e) => Err(e),
            Ok(_) => {
                let first: u32 = self.entries[k].sector;
                let at: u32 = (short - first).wrapping_mul(self.sector_size);
                match &self.cache {
                    Some((_, b)) => Ok(take_part(b.as_slice(), at as u64, n)),
                    None => {
                        assert(false);
                        Err("".to_owned())
                    },
                }
            },
        }
    }
}

// ── Laws ────────────────────────────────────────────────────────────────────

/// A sector that the first entry which holds it stores as it is reads as the bytes of the
/// image that many sectors behind the start of the entry's run; one of a run of zeros reads
/// as zeros.
pub proof fn a_stored_sector_is_read_from_its_run(
    image: Seq<u8>,
    entries: Seq<BlhrEntry>,
    size: u32,
    lba: u64,
    k: int,
    n: int,
)
    requires
        image.len() <= u64::MAX,
        size > 0,
        lba <= 0xFFFF_FFFF,
        0 <= k < entries.len(),
        entries[k].sector <= lba,
        lba < entries[k].sector + entries[k].size <= 0xFFFF_FFFF,
        forall|j: int|
            0 <= j < k ==> lba < (#[trigger] entries[j]).sector || entries[j].sector
                + entries[j].size <= lba,
        forall|j: int|
            0 <= j < k ==> (#[trigger] entries[j]).sector + entries[j].size <= 0xFFFF_FFFF,
        entries[k].size * size <= 0xFFFF_FFFF,
        entries[k].offset + entries[k].zsize <= image.len(),
        entries[k].typ == 1 ==> entries[k].zsize == entries[k].size * size,
        0 <= n <= size,
    ensures
        entries[k].typ == 1 ==> sector_read(source::reads_of(image), entries, size, lba, n) == Ok::<
            Seq<u8>,
            Seq<char>,
        >(
            image.subrange(
                entries[k].offset + (lba - entries[k].sector) * size,
                entries[k].offset + (lba - entries[k].sector) * size + n,
            ),
        ),
        entries[k].typ == 3 ==> sector_read(source::reads_of(image), entries, size, lba, n) == Ok::<
            Seq<u8>,
            Seq<char>,
        >(Seq::new(n as nat, |i: int| 0u8)),
{
    let e = entries[k];
    let reads = source::reads_of(image);
    assert forall|j: int| 0 <= j < k implies !#[trigger] holds(entries[j], lba as u32) by {
        assert(entries[j].sector + entries[j].size <= 0xFFFF_FFFF);
    }
    lemma_holder(entries, lba as u32, 0, k);
    let d = lba - e.sector;
    let at = d * size;
    assert(0 <= at && at + size <= e.size * size) by (nonlinear_arith)
        requires
            0 <= d < e.size,
            size > 0,
            at == d * size,
    ;
    assert(0 <= e.size * size);
    let run = run_of(reads, e, size)->Ok_0;
    assert(around(at) == at);
    if e.typ == 1 {
        assert(cso_reader::part(run, at, n) =~= image.subrange(e.offset + at, e.offset + at + n));
    }
    if e.typ == 3 {
        assert(cso_reader::part(run, at, n) =~= Seq::new(n as nat, |i: int| 0u8));
    }
}

proof fn lemma_holder(entries: Seq<BlhrEntry>, lba: u32, from: int, k: int)
    requires
        0 <= from <= k < entries.len(),
        holds(entries[k], lba),
        forall|j: int| from <= j < k ==> !#[trigger] holds(entries[j], lba),
    ensures
        holder_from(entries, lba, from) == Some(k),
    decreases k - from,
{
    if from < k {
        lemma_holder(entries, lba, from + 1, k);
    }
}

/// An entry of the table holds what was written into its record of 24 bytes.
pub proof fn an_entry_holds_what_was_written(table: Seq<u8>, k: int, e: BlhrEntry)
    requires
        0 <= k,
        24 * k + 24 <= table.len(),
        table.subrange(24 * k, 24 * k + 24) == bytes::le_bytes(e.offset as int, 8)
            + bytes::le_bytes(e.zsize as int, 4) + bytes::le_bytes(e.sector as int, 4)
            + bytes::le_bytes(e.size as int, 4) + bytes::le_bytes(e.typ as int, 4),
    ensures
        k < entries_of(table).len(),
        entries_of(table)[k] == e,
{
    reveal_with_fuel(bytes::le_bytes, 9);
    let r = table.subrange(24 * k, 24 * k + 24);
    let p = 24 * k;
    assert(table.subrange(p, p + 8) =~= r.subrange(0, 8));
    assert(r.subrange(0, 8) =~= bytes::le_bytes(e.offset as int, 8));
    assert(table.subrange(p + 8, p + 12) =~= r.subrange(8, 12));
    assert(r.subrange(8, 12) =~= bytes::le_bytes(e.zsize as int, 4));
    assert(table.subrange(p + 12, p + 16) =~= r.subrange(12, 16));
    assert(r.subrange(12, 16) =~= bytes::le_bytes(e.sector as int, 4));
    assert(table.subrange(p + 16, p + 20) =~= r.subrange(16, 20));
    assert(r.subrange(16, 20) =~= bytes::le_bytes(e.size as int, 4));
    assert(table.subrange(p + 20, p + 24) =~= r.subrange(20, 24));
    assert(r.subrange(20, 24) =~= bytes::le_bytes(e.typ as int, 4));
    bytes::fields_hold_what_was_written(table, p, e.offset as int);
    bytes::fields_hold_what_was_written(table, p + 8, e.zsize as int);
    bytes::fields_hold_what_was_written(table, p + 12, e.sector as int);
    bytes::fields_hold_what_was_written(table, p + 16, e.size as int);
    bytes::fields_hold_what_was_written(table, p + 20, e.typ as int);
}

/// The last 56 bytes of an image tell the length of a sector at 0x14 and where the table stands at
/// 0x1C; the table's header tells how long it is stored at 4, eight bytes more than its data, and
/// how many entries it has at 12.
pub proof fn the_footer_names_the_table(
    image: Seq<u8>,
    size: u32,
    at: int,
    stored: Seq<u8>,
    count: int,
    table: Seq<u8>,
)
    requires
        56 <= image.len() <= u64::MAX,
        size > 0,
        0 <= at,
        at + 16 + stored.len() <= image.len(),
        stored.len() + 8 <= 0xFFFF_FFFF,
        0 <= count <= 0xFFFF_FFFF,
        bytes::spells(image, image.len() - 56, "bbis"@),
        bytes::has_at(image, image.len() - 56 + 0x14, bytes::le_bytes(size as int, 4)),
        bytes::has_at(image, image.len() - 56 + 0x1C, bytes::le_bytes(at, 8)),
        bytes::spells(image, at, "blhr"@),
        bytes::has_at(image, at + 4, bytes::le_bytes(stored.len() as int + 8, 4)),
        bytes::has_at(image, at + 12, bytes::le_bytes(count, 4)),
        bytes::has_at(image, at + 16, stored),
        24 * count <= isize::MAX,
        codec::zlib_prefix(stored, (24 * count) as nat) == Ok::<Seq<u8>, Seq<char>>(table),
    ensures
        opened(source::reads_of(image), image.len() as u64) == Ok::<
            (u32, Seq<BlhrEntry>),
            Seq<char>,
        >((size, entries_of(table))),
{
    let f0 = image.len() - 56;
    let f = image.subrange(f0, f0 + 56);
    let h = image.subrange(at, at + 16);
    bytes::fields_hold_what_was_written(image, f0 + 0x14, size as int);
    bytes::fields_hold_what_was_written(image, f0 + 0x1C, at);
    bytes::fields_hold_what_was_written(image, at + 4, stored.len() as int + 8);
    bytes::fields_hold_what_was_written(image, at + 12, count);
    assert(bytes::le32_at(f, 0x14) == bytes::le32_at(image, f0 + 0x14));
    assert(bytes::le64_at(f, 0x1C) == bytes::le64_at(image, f0 + 0x1C));
    assert(bytes::le32_at(h, 4) == bytes::le32_at(image, at + 4));
    assert(bytes::le32_at(h, 12) == bytes::le32_at(image, at + 12));
    reveal_strlit("bbis");
    reveal_strlit("blhr");
    assert(bytes::spells(f, 0, "bbis"@)) by {
        assert forall|i: int| 0 <= i < "bbis"@.len() implies f[0 + i] as u32
            == #[trigger] "bbis"@[i] as u32 by {
            assert(f[0 + i] == image[f0 + i]);
        }
    }
    assert(bytes::spells(h, 0, "blhr"@)) by {
        assert forall|i: int| 0 <= i < "blhr"@.len() implies h[0 + i] as u32
            == #[trigger] "blhr"@[i] as u32 by {
            assert(h[0 + i] == image[at + i]);
        }
    }
    assert(image.subrange(at + 16, at + 16 + stored.len()) =~= stored);
    assert(count * 24 == 24 * count);
}

} // verus!
