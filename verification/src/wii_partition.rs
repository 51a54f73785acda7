//! The encrypted game partition of a Wii disc.
//!
//! Each cluster of 0x8000 bytes begins with 0x400 bytes of hashes, in which the
//! initialization vector of the data behind them stands. The key is in the
//! partition's ticket, encrypted with one of three common keys.
use vstd::prelude::*;
use vstd::slice::*;
use crate::bytes;
use crate::bytes::{cut, read_u32_be, spells_at, zeroes};
use crate::codec;
use crate::codec::aes_cbc_decrypt;
use crate::source;
use crate::source::{read_labelled, ByteSource, Reads};

verus! {

/// Encrypted bytes of a cluster.
pub const CLUSTER_ENC: u64 = 0x8000;

/// Data bytes of a cluster.
pub const CLUSTER_DATA: u64 = 0x7C00;

/// The limit on the partitions of one group.
pub const MAX_PARTS_PER_GROUP: u32 = 16;

/// The signature type that every ticket begins with.
pub const TICKET_SIG_TYPE: u32 = 0x0001_0001;

/// The common key that a ticket names: retail, Korean, or that of the Wii mode
/// of later consoles. An unknown one counts as retail.
pub open spec fn common_key(idx: int) -> Seq<u8> {
    if idx == 1 {
        seq![
            0x63u8, 0xB8, 0x2B, 0xB4, 0xF4, 0x61, 0x4E, 0x2E, 0x13, 0xF2, 0xFE, 0xFB, 0xBA, 0x4C,
            0x9B, 0x7E,
        ]
    } else if idx == 2 {
        seq![
            0x30u8, 0xBF, 0xC7, 0x6E, 0x7C, 0x19, 0xAF, 0xBB, 0x23, 0x16, 0x33, 0x30, 0xCE, 0xD7,
            0xC2, 0x8D,
        ]
    } else {
        seq![
            0xEBu8, 0xE4, 0x2A, 0x22, 0x5E, 0x85, 0x93, 0xE4, 0x48, 0xD9, 0xC5, 0x45, 0x73, 0x81,
            0xAA, 0xF7,
        ]
    }
}

/// The common key that a ticket names.
fn get_common_key(idx: u8) -> (r: [u8; 16])
    ensures
        r@ == common_key(idx as int),
{
    let r: [u8; 16] = if idx == 1 {
        [
            0x63, 0xB8, 0x2B, 0xB4, 0xF4, 0x61, 0x4E, 0x2E, 0x13, 0xF2, 0xFE, 0xFB, 0xBA, 0x4C,
            0x9B, 0x7E,
        ]
    } else if idx == 2 {
        [
            0x30, 0xBF, 0xC7, 0x6E, 0x7C, 0x19, 0xAF, 0xBB, 0x23, 0x16, 0x33, 0x30, 0xCE, 0xD7,
            0xC2, 0x8D,
        ]
    } else {
        [
            0xEB, 0xE4, 0x2A, 0x22, 0x5E, 0x85, 0x93, 0xE4, 0x48, 0xD9, 0xC5, 0x45, 0x73, 0x81,
            0xAA, 0xF7,
        ]
    };
    assert(r@ =~= common_key(idx as int));
    r
}

// ── The partition table ─────────────────────────────────────────────────────

/// Whether a ticket stands at `at` in a source of `len` bytes.
pub open spec fn is_ticket(reads: Reads, at: int, len: int) -> bool {
    &&& at + 0x2C0 <= len
    &&& reads(at, 4) matches Ok(sig) && bytes::be32_at(sig, 0) == TICKET_SIG_TYPE
    &&& reads(at + 0x140, 7) matches Ok(issuer) && bytes::spells(issuer, 0, "Root-CA"@)
}

/// The first data partition with a ticket, from entry `k` of a table on.
pub open spec fn partition_from(reads: Reads, len: int, t: Seq<u8>, k: int) -> Option<int>
    decreases t.len() - 8 * k,
{
    if k < 0 || 8 * k + 8 > t.len() {
        None
    } else if bytes::be32_at(t, 8 * k + 4) == 0 && is_ticket(
        reads,
        4 * bytes::be32_at(t, 8 * k),
        len,
    ) {
        Some(4 * bytes::be32_at(t, 8 * k))
    } else {
        partition_from(reads, len, t, k + 1)
    }
}

/// The data partition in the group `g`, where that has a table within the
/// source and of a credible length.
pub open spec fn partition_in(reads: Reads, len: int, hdr: Seq<u8>, g: int) -> Option<int> {
    let count = bytes::be32_at(hdr, 8 * g);
    let off = 4 * bytes::be32_at(hdr, 8 * g + 4);
    if count == 0 || count > MAX_PARTS_PER_GROUP || off + 8 * count > len {
        None
    } else {
        match reads(off, 8 * count) {
            Err(_) => None,
            Ok(t) => partition_from(reads, len, t, 0),
        }
    }
}

/// The data partition in the first group from `g` on that has one.
pub open spec fn partition_after(reads: Reads, len: int, hdr: Seq<u8>, g: int) -> Option<int>
    decreases 4 - g,
{
    if g < 0 || g >= 4 {
        None
    } else {
        match partition_in(reads, len, hdr, g) {
            Some(p) => Some(p),
            None => partition_after(reads, len, hdr, g + 1),
        }
    }
}

/// The data partition of a disc of `len` bytes.
pub open spec fn data_partition(reads: Reads, len: int) -> Option<int> {
    match reads(0x40000, 32) {
        Err(_) => None,
        Ok(hdr) => partition_after(reads, len, hdr, 0),
    }
}

/// Whether a ticket stands at `at`.
fn looks_like_ticket<S: ByteSource>(reader: &mut S, at: u64, len: u64) -> (r: bool)
    requires
        at <= 0x4_0000_0000,
    ensures
        final(reader).reads() == old(reader).reads(),
        r == is_ticket(old(reader).reads(), at as int, len as int),
{
    if at + 0x2C0 > len {
        return false;
    }
    match reader.read_exact_at(at, 4) {
        Err(_) => {
            return false;
        },
        Ok(sig) => {
            if read_u32_be(sig.as_slice(), 0) != TICKET_SIG_TYPE {
                return false;
            }
        },
    }
    match reader.read_exact_at(at + 0x140, 7) {
        Err(_) => false,
        Ok(issuer) => spells_at(issuer.as_slice(), 0, "Root-CA"),
    }
}

/// Finds the data partition in the group `g`.
#[verifier::loop_isolation(false)]
fn find_in_group<S: ByteSource>(reader: &mut S, len: u64, hdr: &[u8], g: usize) -> (r: Option<u64>)
    requires
        hdr@.len() == 32,
        g < 4,
    ensures
        final(reader).reads() == old(reader).reads(),
        match r {
            Some(p) => partition_in(old(reader).reads(), len as int, hdr@, g as int) == Some(
                p as int,
            ) && p <= 0x4_0000_0000,
            None => partition_in(old(reader).reads(), len as int, hdr@, g as int) is None,
        },
{
    let ghost reads = reader.reads();
    let count: u32 = read_u32_be(hdr, g * 8);
    let off: u64 = read_u32_be(hdr, g * 8 + 4) as u64 * 4;
    if count == 0 || count > MAX_PARTS_PER_GROUP || off + 8 * (count as u64) > len {
        return None;
    }
    let t: Vec<u8> = match reader.read_exact_at(off, 8 * (count as u64)) {
        Ok(b) => b,
        Err(_) => {
            return None;
        },
    };
    let mut k: usize = 0;
    while k < count as usize
        invariant
            k <= count,
            reader.reads() == reads,
            t@.len() == 8 * count,
            partition_from(reads, len as int, t@, 0) == partition_from(
                reads,
                len as int,
                t@,
                k as int,
            ),
        decreases count - k,
    {
        let part_off: u64 = read_u32_be(t.as_slice(), 8 * k) as u64 * 4;
        if read_u32_be(t.as_slice(), 8 * k + 4) == 0 && looks_like_ticket(reader, part_off, len) {
            return Some(part_off);
        }
        k += 1;
    }
    None
}

/// Finds the data partition of a disc of `len` bytes.
#[verifier::loop_isolation(false)]
pub fn find_data_partition<S: ByteSource>(reader: &mut S, len: u64) -> (r: Option<u64>)
    ensures
        final(reader).reads() == old(reader).reads(),
        match r {
            Some(p) => data_partition(old(reader).reads(), len as int) == Some(p as int) && p
                <= 0x4_0000_0000,
            None => data_partition(old(reader).reads(), len as int) is None,
        },
{
    let ghost reads = reader.reads();
    let hdr: Vec<u8> = match reader.read_exact_at(0x40000, 32) {
        Ok(b) => b,
        Err(_) => {
            return None;
        },
    };
    let mut g: usize = 0;
    while g < 4
        invariant
            g <= 4,
            reader.reads() == reads,
            data_partition(reads, len as int) == partition_after(
                reads,
                len as int,
                hdr@,
                g as int,
            ),
        decreases 4 - g,
    {
        match find_in_group(reader, len, hdr.as_slice(), g) {
            Some(p) => {
                return Some(p);
            },
            None => {},
        }
        g += 1;
    }
    None
}

// ── Decryption ──────────────────────────────────────────────────────────────

/// What is known of an opened partition.
#[verifier::ext_equal]
pub struct WiiView {
    pub data_start: int,
    pub virt_size: int,
    pub title_key: Seq<u8>,
}

/// The partition at `part`, as its ticket and header describe it.
pub open spec fn partition_at(reads: Reads, part: int) -> Result<WiiView, Seq<char>> {
    match source::labelled(reads(part + 0x1BF, 16), "Wii title key read: "@) {
        Err(e) => Err(e),
        Ok(key) => match source::labelled(reads(part + 0x1DC, 8), "Wii title ID read: "@) {
            Err(e) => Err(e),
            Ok(id) => match source::labelled(reads(part + 0x1F1, 1), "Wii key index read: "@) {
                Err(e) => Err(e),
                Ok(idx) => match source::labelled(
                    reads(part + 0x2B8, 8),
                    "Wii part header read: "@,
                ) {
                    Err(e) => Err(e),
                    Ok(h) => Ok(
                        WiiView {
                            data_start: part + 4 * bytes::be32_at(h, 0),
                            virt_size: 4 * bytes::be32_at(h, 4) / 0x8000 * 0x7C00,
                            title_key: codec::cbc_decrypted(
                                common_key(idx[0] as int),
                                id + bytes::zeros(8),
                                key,
                            ),
                        },
                    ),
                },
            },
        },
    }
}

/// The game partition of a disc of `len` bytes.
pub open spec fn wii_opened(reads: Reads, len: int) -> Result<WiiView, Seq<char>> {
    match data_partition(reads, len) {
        None => Err("Wii: no data partition found"@),
        Some(part) => partition_at(reads, part),
    }
}

/// The data of a cluster.
pub open spec fn cluster_data(reads: Reads, v: WiiView, idx: int) -> Result<Seq<u8>, Seq<char>> {
    match reads(v.data_start + idx * 0x8000, 0x8000) {
        Err(e) => Err(e),
        Ok(raw) => Ok(
            codec::cbc_decrypted(v.title_key, raw.subrange(0x3D0, 0x3E0), raw.subrange(0x400, 0x8000)),
        ),
    }
}

/// How many bytes of its cluster follow `pos`, up to `n` and to the end.
pub open spec fn run_len(v: WiiView, pos: int, n: int) -> int {
    let room = 0x7C00 - pos % 0x7C00;
    let rest = v.virt_size - pos;
    if n <= room && n <= rest {
        n
    } else if room <= rest {
        room
    } else {
        rest
    }
}

/// What a read of up to `n` bytes of the decrypted partition at `pos` gives: no
/// more than to the end of the cluster.
pub open spec fn wii_read(reads: Reads, v: WiiView, pos: int, n: int) -> Result<Seq<u8>, Seq<char>> {
    if n <= 0 || pos >= v.virt_size {
        Ok(seq![])
    } else {
        match cluster_data(reads, v, pos / 0x7C00) {
            Err(e) => Err(e),
            Ok(d) => Ok(d.subrange(pos % 0x7C00, pos % 0x7C00 + run_len(v, pos, n))),
        }
    }
}

/// Reads where the game partition of a disc starts, its decrypted length and its
/// title key.
fn read_partition<S: ByteSource>(inner: &mut S, len: u64) -> (r: Result<
    (u64, u64, Vec<u8>),
    String,
>)
    ensures
        final(inner).reads() == old(inner).reads(),
        match r {
            Ok((data_start, virt_size, key)) => wii_opened(old(inner).reads(), len as int) == Ok::<
                WiiView,
                Seq<char>,
            >(
                WiiView {
                    data_start: data_start as int,
                    virt_size: virt_size as int,
                    title_key: key@,
                },
            ) && key@.len() == 16 && data_start <= 0x8_0000_0000 && virt_size <= 0x4_0000_0000,
            Err(e) => wii_opened(old(inner).reads(), len as int) == Err::<WiiView, Seq<char>>(e@),
        },
{
    let part: u64 = match find_data_partition(inner, len) {
        Some(p) => p,
        None => {
            return Err("Wii: no data partition found".to_owned());
        },
    };
    let key: Vec<u8> = match read_labelled(
        inner,
        part + 0x1BF,
        16,
        "Wii title key read: ",
    ) {
        Ok(b) => b,
        Err(e) => {
            return Err(e);
        },
    };
    let mut iv: Vec<u8> = match read_labelled(
        inner,
        part + 0x1DC,
        8,
        "Wii title ID read: ",
    ) {
        Ok(b) => b,
        Err(e) => {
            return Err(e);
        },
    };
    let idx: Vec<u8> = match read_labelled(
        inner,
        part + 0x1F1,
        1,
        "Wii key index read: ",
    ) {
        Ok(b) => b,
        Err(e) => {
            return Err(e);
        },
    };
    let h: Vec<u8> = match read_labelled(
        inner,
        part + 0x2B8,
        8,
        "Wii part header read: ",
    ) {
        Ok(b) => b,
        Err(e) => {
            return Err(e);
        },
    };
    let mut rest: Vec<u8> = zeroes(8);
    iv.append(&mut rest);
    let common: [u8; 16] = get_common_key(idx[0]);
    let title_key: Vec<u8> = aes_cbc_decrypt(common.as_slice(), iv.as_slice(), key.as_slice());
    let data_start: u64 = part + read_u32_be(h.as_slice(), 0) as u64 * 4;
    let data_size: u64 = read_u32_be(h.as_slice(), 4) as u64 * 4;
    let virt_size: u64 = data_size / CLUSTER_ENC * CLUSTER_DATA;
    Ok((data_start, virt_size, title_key))
}

/// Whether a disc of `len` bytes has a game partition.
pub fn is_wii_disc<S: ByteSource>(source: &mut S, len: u64) -> (r: bool)
    ensures
        final(source).reads() == old(source).reads(),
        r == wii_opened(old(source).reads(), len as int) is Ok,
{
    read_partition(source, len).is_ok()
}

/// A reader over the decrypted game partition.
pub struct WiiPartReader<S: ByteSource> {
    inner: S,
    data_start: u64,
    virt_size: u64,
    title_key: Vec<u8>,
    cache: Option<(u64, Vec<u8>)>,
}

impl<S: ByteSource> WiiPartReader<S> {
    /// What is known of this partition.
    pub closed spec fn contents(&self) -> WiiView {
        WiiView {
            data_start: self.data_start as int,
            virt_size: self.virt_size as int,
            title_key: self.title_key@,
        }
    }

    /// What exact reads of the disc give.
    pub closed spec fn disc(&self) -> Reads {
        self.inner.reads()
    }

    /// Whether the cluster that was decrypted last holds what the disc does.
    pub closed spec fn wf(&self) -> bool {
        &&& self.title_key@.len() == 16
        &&& self.data_start <= 0x8_0000_0000
        &&& self.virt_size <= 0x4_0000_0000
        &&& self.cache matches Some(c) ==> c.1@.len() == 0x7C00 && cluster_data(
            self.inner.reads(),
            self.contents(),
            c.0 as int,
        ) == Ok::<Seq<u8>, Seq<char>>(c.1@)
    }

    /// Opens the game partition of a disc of `len` bytes.
    pub fn open(inner: S, len: u64) -> (r: Result<WiiPartReader<S>, String>)
        ensures
            match r {
                Ok(w) => w.wf() && w.disc() == inner.reads() && wii_opened(
                    inner.reads(),
                    len as int,
                ) == Ok::<WiiView, Seq<char>>(w.contents()),
                Err(e) => wii_opened(inner.reads(), len as int) == Err::<WiiView, Seq<char>>(e@),
            },
    {
        let mut inner: S = inner;
        match read_partition(&mut inner, len) {
            Ok((data_start, virt_size, title_key)) => Ok(
                WiiPartReader { inner, data_start, virt_size, title_key, cache: None },
            ),
            Err(e) => Err(e),
        }
    }

    /// The length of the decrypted partition.
    pub fn len(&self) -> (r: u64)
        ensures
            r == self.contents().virt_size,
    {
        self.virt_size
    }

    /// Decrypts a cluster, unless it is the one decrypted last.
    fn decrypt_cluster(&mut self, idx: u64) -> (r: Result<(), String>)
        requires
            old(self).wf(),
            idx <= 0x10_0000,
        ensures
            final(self).wf(),
            final(self).disc() == old(self).disc(),
            final(self).contents() == old(self).contents(),
            match r {
                Ok(_) => final(self).cache matches Some(c) && c.0 == idx,
                Err(e) => cluster_data(old(self).disc(), old(self).contents(), idx as int) == Err::<
                    Seq<u8>,
                    Seq<char>,
                >(e@),
            },
    {
        if let Some(c) = &self.cache {
            if c.0 == idx {
                return Ok(());
            }
        }
        let raw: Vec<u8> = match self.inner.read_exact_at(
            self.data_start + idx * CLUSTER_ENC,
            CLUSTER_ENC,
        ) {
            Ok(b) => b,
            Err(e) => {
                return Err(e);
            },
        };
        let data: Vec<u8> = aes_cbc_decrypt(
            self.title_key.as_slice(),
            slice_subrange(raw.as_slice(), 0x3D0, 0x3E0),
            slice_subrange(raw.as_slice(), 0x400, 0x8000),
        );
        self.cache = Some((idx, data));
        Ok(())
    }

    /// Reads up to `n` bytes of the decrypted partition at `pos`.
    pub fn read_at(&mut self, pos: u64, n: u64) -> (r: Result<Vec<u8>, String>)
        requires
            old(self).wf(),
        ensures
            final(self).wf(),
            final(self).disc() == old(self).disc(),
            final(self).contents() == old(self).contents(),
            source::outcome(r) == wii_read(
                old(self).disc(),
                old(self).contents(),
                pos as int,
                n as int,
            ),
    {
        if n == 0 || pos >= self.virt_size {
            let none: Vec<u8> = Vec::new();
            assert(none@ =~= seq![]);
            return Ok(none);
        }
        let idx: u64 = pos / CLUSTER_DATA;
        let within: u64 = pos % CLUSTER_DATA;
        match self.decrypt_cluster(idx) {
            Err(e) => {
                return Err(e);
            },
            Ok(_) => {},
        }
        let room: u64 = CLUSTER_DATA - within;
        let rest: u64 = self.virt_size - pos;
        let m: u64 = if n <= room && n <= rest {
            n
        } else if room <= rest {
            room
        } else {
            rest
        };
        match &self.cache {
            None => Err("no cluster is loaded".to_owned()),
            Some(c) => Ok(cut(c.1.as_slice(), within as usize, within as usize + m as usize)),
        }
    }
}

// ── Laws ────────────────────────────────────────────────────────────────────

/// Stored clusters are whole and follow each other: where the data of a partition are
/// clusters of 0x8000 bytes, each of which decrypts to the 0x7C00 bytes in `plain`, reading
/// the partition gives the bytes of `plain` one after the other, as many as are asked for
/// up to the end of a cluster.
pub proof fn a_partition_reads_as_its_clusters(
    v: WiiView,
    front: Seq<u8>,
    stored: Seq<Seq<u8>>,
    rest: Seq<u8>,
    plain: Seq<Seq<u8>>,
    pos: int,
    n: int,
)
    requires
        front.len() == v.data_start,
        plain.len() == stored.len(),
        v.virt_size == 0x7C00 * stored.len(),
        forall|k: int|
            0 <= k < stored.len() ==> (#[trigger] stored[k]).len() == 0x8000 && plain[k].len()
                == 0x7C00 && plain[k] == codec::cbc_decrypted(
                v.title_key,
                stored[k].subrange(0x3D0, 0x3E0),
                stored[k].subrange(0x400, 0x8000),
            ),
        0 <= pos <= v.virt_size,
        0 <= n,
    ensures
        wii_read(source::reads_of(source::image_of(front, stored, 0x8000, rest)), v, pos, n)
            matches Ok(b) && {
            &&& b.len() <= n && pos + b.len() <= v.virt_size
            &&& b == source::end_to_end(plain, 0x7C00).subrange(pos, pos + b.len())
            &&& pos % 0x7C00 + n <= 0x7C00 && pos + n <= v.virt_size ==> b.len() == n
            &&& n > 0 && pos < v.virt_size ==> b.len() > 0
        },
{
    let all = source::end_to_end(plain, 0x7C00);
    if n > 0 && pos < v.virt_size {
        let k = pos / 0x7C00;
        assert(stored[k].len() == 0x8000);
        source::parts_follow_each_other(front, stored, 0x8000, rest, k);
        let b = plain[k].subrange(pos % 0x7C00, pos % 0x7C00 + run_len(v, pos, n));
        assert forall|j: int| 0 <= j < b.len() implies b[j] == #[trigger] all.subrange(
            pos,
            pos + b.len(),
        )[j] by {
            source::lemma_within_part(k, 0x7C00, pos % 0x7C00 + j);
        }
        assert(b =~= all.subrange(pos, pos + b.len()));
    } else {
        assert(all.subrange(pos, pos) =~= seq![]);
    }
}

/// The decrypted length of a partition is that of its whole clusters, and its data and its
/// title key are where its ticket says: the key is decrypted from the title's number.
pub proof fn a_ticket_describes_its_partition(image: Seq<u8>, part: int)
    requires
        0 <= part,
        part + 0x2C0 <= image.len(),
    ensures
        partition_at(source::reads_of(image), part) matches Ok(v) && {
            let t = image.skip(part);
            let clusters = bytes::be32_at(t, 0x2BC) / 0x2000;
            &&& v.data_start - part == bytes::be32_at(t, 0x2B8) * 4
            &&& v.virt_size == 0x7C00 * clusters
            &&& v.title_key == codec::cbc_decrypted(
                common_key(t[0x1F1] as int),
                t.subrange(0x1DC, 0x1E4) + seq![0u8, 0, 0, 0, 0, 0, 0, 0],
                t.subrange(0x1BF, 0x1CF),
            )
        },
{
    let t = image.skip(part);
    assert(image.subrange(part + 0x1DC, part + 0x1E4) + bytes::zeros(8) =~= t.subrange(0x1DC, 0x1E4)
        + seq![0u8, 0, 0, 0, 0, 0, 0, 0]);
    assert(image.subrange(part + 0x1BF, part + 0x1CF) =~= t.subrange(0x1BF, 0x1CF));
}

/// The first of four groups of partitions tells their number at 0x40000, and a quarter of where
/// its table stands behind that. The game partition is the first of type zero with a ticket; its
/// entry of eight bytes tells a quarter of where it stands.
pub proof fn the_table_leads_to_the_partition(image: Seq<u8>, count: int, table: int, k: int, part: int)
    requires
        image.len() <= u64::MAX,
        0x40020 <= image.len(),
        0 <= k < count <= 16,
        0 <= table,
        table % 4 == 0,
        table / 4 <= 0xFFFF_FFFF,
        table + 8 * count <= image.len(),
        0 <= part,
        part % 4 == 0,
        part / 4 <= 0xFFFF_FFFF,
        part + 0x2C0 <= image.len(),
        bytes::has_at(image, 0x40000, bytes::be_bytes(count, 4)),
        bytes::has_at(image, 0x40004, bytes::be_bytes(table / 4, 4)),
        forall|i: int|
            0 <= i < k ==> {
                let kind = #[trigger] bytes::be32_at(image, table + 8 * i + 4);
                kind != 0
            },
        bytes::has_at(image, table + 8 * k, bytes::be_bytes(part / 4, 4)),
        bytes::has_at(image, table + 8 * k + 4, bytes::be_bytes(0, 4)),
        bytes::has_at(image, part, bytes::be_bytes(0x1_0001, 4)),
        bytes::spells(image, part + 0x140, "Root-CA"@),
    ensures
        data_partition(source::reads_of(image), image.len() as int) == Some(part),
{
    let reads = source::reads_of(image);
    let hdr = image.subrange(0x40000, 0x40020);
    bytes::fields_hold_what_was_written(image, 0x40000, count);
    bytes::fields_hold_what_was_written(image, 0x40004, table / 4);
    assert(bytes::be32_at(hdr, 0) == bytes::be32_at(image, 0x40000));
    assert(bytes::be32_at(hdr, 4) == bytes::be32_at(image, 0x40004));
    let t = image.subrange(table, table + 8 * count);
    bytes::fields_hold_what_was_written(image, table + 8 * k, part / 4);
    bytes::fields_hold_what_was_written(image, table + 8 * k + 4, 0);
    bytes::fields_hold_what_was_written(image, part, 0x1_0001);
    reveal_strlit("Root-CA");
    let issuer = image.subrange(part + 0x140, part + 0x147);
    assert(bytes::spells(issuer, 0, "Root-CA"@)) by {
        assert forall|i: int| 0 <= i < "Root-CA"@.len() implies issuer[0 + i] as u32
            == #[trigger] "Root-CA"@[i] as u32 by {
            assert(issuer[0 + i] == image[part + 0x140 + i]);
        }
    }
    let sig = image.subrange(part, part + 4);
    assert(bytes::be32_at(sig, 0) == bytes::be32_at(image, part));
    assert(is_ticket(reads, part, image.len() as int));
    lemma_partition_from(image, table, count, k, part, 0);
    assert(partition_in(reads, image.len() as int, hdr, 0) == Some(part));
}

/// The entries before the game partition's are passed over.
proof fn lemma_partition_from(image: Seq<u8>, table: int, count: int, k: int, part: int, i: int)
    requires
        0 <= i <= k < count <= 16,
        0 <= table,
        table + 8 * count <= image.len(),
        forall|i: int|
            0 <= i < k ==> {
                let kind = #[trigger] bytes::be32_at(image, table + 8 * i + 4);
                kind != 0
            },
        4 * bytes::be32_at(image, table + 8 * k) == part,
        bytes::be32_at(image, table + 8 * k + 4) == 0,
        is_ticket(source::reads_of(image), part, image.len() as int),
    ensures
        partition_from(
            source::reads_of(image),
            image.len() as int,
            image.subrange(table, table + 8 * count),
            i,
        ) == Some(part),
    decreases k - i,
{
    let t = image.subrange(table, table + 8 * count);
    assert(bytes::be32_at(t, 8 * i) == bytes::be32_at(image, table + 8 * i));
    assert(bytes::be32_at(t, 8 * i + 4) == bytes::be32_at(image, table + 8 * i + 4));
    if i < k {
        assert(bytes::be32_at(image, table + 8 * i + 4) != 0);
        lemma_partition_from(image, table, count, k, part, i + 1);
    }
}

} // verus!
