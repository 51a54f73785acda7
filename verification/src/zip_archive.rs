//! ZIP archives, read from their central directory.
use vstd::prelude::*;
use crate::bytes;
use crate::bytes::{cut, read_u16_le, read_u32_le, read_u64_le, write_le};
use crate::calendar;
use crate::calendar::write_stamp;
use crate::catalog;
use crate::catalog::{base_path, normalise, Catalog, CatalogView, Listed, Target};
use crate::codec;
use crate::codec::{bzip2_decode, deflate_decode, limit_block, lzma_decode, zstd_decompress};
use crate::entry;
use crate::entry::{DiscEntry, EntryView};
use crate::numbers;
use crate::numbers::decimal_string;
use crate::source;
use crate::source::{label_error, read_labelled, ByteSource, Reads};
use crate::text;
use crate::text::{chars_of, from_utf8_lossy, join2};

verus! {

pub const EOCD_SIG: u32 = 0x0605_4B50;

pub const EOCD64_SIG: u32 = 0x0606_4B50;

pub const EOCD64_LOCATOR_SIG: u32 = 0x0706_4B50;

pub const CENTRAL_SIG: u32 = 0x0201_4B50;

pub const LOCAL_SIG: u32 = 0x0403_4B50;

/// A size or offset that a Zip64 field holds in place of the 32-bit one.
pub const ZIP64_MARKER: u64 = 0xFFFF_FFFF;

/// Where and how a file is stored.
pub struct ZipEntry {
    pub size: u64,
    pub compressed_size: u64,
    pub method: u16,
    pub local_offset: u64,
    pub modified: String,
}

/// The contents of a `ZipEntry`.
#[verifier::ext_equal]
pub struct ZipRecord {
    pub size: u64,
    pub compressed_size: u64,
    pub method: u16,
    pub local_offset: u64,
    pub modified: Seq<char>,
}

impl View for ZipEntry {
    type V = ZipRecord;

    open spec fn view(&self) -> ZipRecord {
        ZipRecord {
            size: self.size,
            compressed_size: self.compressed_size,
            method: self.method,
            local_offset: self.local_offset,
            modified: self.modified@,
        }
    }
}

impl Listed for ZipEntry {
    open spec fn size_of(v: ZipRecord) -> int {
        v.size as int
    }

    open spec fn modified_of(v: ZipRecord) -> Seq<char> {
        v.modified
    }

    fn listed_size(&self) -> (r: u64) {
        self.size
    }

    fn listed_modified(&self) -> (r: String) {
        self.modified.clone()
    }
}

/// A ZIP archive and its index.
pub struct ZipArchive<S> {
    pub source: S,
    pub catalog: Catalog<ZipEntry>,
}

/// The text of an MS-DOS packed date and time; an unset date shows nothing.
pub open spec fn dos_stamp(time: int, date: int) -> Seq<char> {
    if date == 0 {
        seq![]
    } else {
        calendar::stamp(
            4,
            1980 + date / 512,
            (date / 32) % 16,
            date % 32,
            time / 2048,
            (time / 32) % 64,
            (time % 32) * 2,
        )
    }
}

/// The text of an MS-DOS packed date and time.
pub fn dos_datetime(time: u16, date: u16) -> (r: String)
    ensures
        r@ == dos_stamp(time as int, date as int),
{
    if date == 0 {
        let r: String = String::new();
        assert(r@ =~= seq![]);
        return r;
    }
    write_stamp(
        4,
        1980 + (date / 512) as u64,
        ((date / 32) % 16) as u64,
        (date % 32) as u64,
        (time / 2048) as u64,
        ((time / 32) % 64) as u64,
        ((time % 32) * 2) as u64,
    )
}

// ── Opening ─────────────────────────────────────────────────────────────────

/// The last index below `n` where the 32-bit value `sig` stands, or `-1`.
pub open spec fn last_sig(s: Seq<u8>, n: int, sig: int) -> int
    decreases n,
{
    if n <= 0 {
        -1
    } else if bytes::le32_at(s, n - 1) == sig {
        n - 1
    } else {
        last_sig(s, n - 1, sig)
    }
}

/// Where the central directory is, and how many entries it holds.
pub struct Directory {
    pub count: u64,
    pub size: u64,
    pub offset: u64,
}

/// The directory that the 32-bit end record at `eocd` describes.
pub open spec fn directory32(tail: Seq<u8>, eocd: int) -> Directory {
    Directory {
        count: bytes::le16_at(tail, eocd + 0x0A) as u64,
        size: bytes::le32_at(tail, eocd + 0x0C) as u64,
        offset: bytes::le32_at(tail, eocd + 0x10) as u64,
    }
}

/// The directory that a 64-bit end record describes.
pub open spec fn directory64(rec: Seq<u8>) -> Directory {
    Directory {
        count: bytes::le64_at(rec, 0x20) as u64,
        size: bytes::le64_at(rec, 0x28) as u64,
        offset: bytes::le64_at(rec, 0x30) as u64,
    }
}

/// The directory of the archive whose last bytes are `tail`.
pub open spec fn directory_of(reads: Reads, tail: Seq<u8>) -> Result<Directory, Seq<char>> {
    let eocd = last_sig(tail, tail.len() - 21, EOCD_SIG as int);
    let d = directory32(tail, eocd);
    if eocd < 0 {
        Err("Not a ZIP archive (no end of central directory record)"@)
    } else if d.offset != ZIP64_MARKER && d.size != ZIP64_MARKER && d.count != 0xFFFF {
        Ok(d)
    } else {
        let loc = last_sig(tail, eocd, EOCD64_LOCATOR_SIG as int);
        if loc < 0 {
            Err("ZIP: Zip64 sizes but no Zip64 locator"@)
        } else {
            match source::labelled(
                reads(bytes::le64_at(tail, loc + 8), 56),
                "ZIP Zip64 record: "@,
            ) {
                Err(e) => Err(e),
                Ok(rec) => if bytes::le32_at(rec, 0) != EOCD64_SIG {
                    Err("ZIP: Zip64 record signature is wrong"@)
                } else {
                    Ok(directory64(rec))
                },
            }
        }
    }
}

/// The bytes of the Zip64 extra field among the extra fields from `q` on.
pub open spec fn zip64_field(extra: Seq<u8>, q: int) -> Option<(int, int)>
    decreases extra.len() - q,
{
    if q < 0 || q + 4 > extra.len() {
        None
    } else {
        let end = q + 4 + bytes::le16_at(extra, q + 2);
        if end > extra.len() {
            None
        } else if bytes::le16_at(extra, q) == 1 {
            Some((q + 4, end))
        } else {
            zip64_field(extra, end)
        }
    }
}

/// A value that a Zip64 field widens where it is saturated and the field still
/// holds one, and where the next one stands.
pub open spec fn widened(extra: Seq<u8>, v: u64, r: int, end: int) -> (u64, int) {
    if v == ZIP64_MARKER && r + 8 <= end {
        (bytes::le64_at(extra, r) as u64, r + 8)
    } else {
        (v, r)
    }
}

/// The size, compressed size and local offset of the entry at `p`, given its extra fields.
pub open spec fn extents(cd: Seq<u8>, p: int, extra: Seq<u8>) -> (u64, u64, u64) {
    let size = bytes::le32_at(cd, p + 0x18) as u64;
    let packed = bytes::le32_at(cd, p + 0x14) as u64;
    let offset = bytes::le32_at(cd, p + 0x2A) as u64;
    if size != ZIP64_MARKER && packed != ZIP64_MARKER && offset != ZIP64_MARKER {
        (size, packed, offset)
    } else {
        match zip64_field(extra, 0) {
            None => (size, packed, offset),
            Some((start, end)) => {
                let (size2, r1) = widened(extra, size, start, end);
                let (packed2, r2) = widened(extra, packed, r1, end);
                let (offset2, r3) = widened(extra, offset, r2, end);
                (size2, packed2, offset2)
            },
        }
    }
}

/// The index with the entry at `p` of the central directory.
pub open spec fn with_entry(cd: Seq<u8>, p: int, c: CatalogView<ZipRecord>) -> CatalogView<
    ZipRecord,
> {
    let name_len = bytes::le16_at(cd, p + 0x1C);
    let extra_len = bytes::le16_at(cd, p + 0x1E);
    let raw = text::utf8_text(bytes::window(cd, p + 46, name_len));
    let extra = bytes::window(cd, p + 46 + name_len, extra_len);
    let (size, compressed_size, local_offset) = extents(cd, p, extra);
    match catalog::normalised(raw) {
        None => c,
        Some(path) => if raw.last() == '/' || raw.last() == '\\' {
            c.holding(path).with_dir(path)
        } else {
            c.holding(path).with_file(
                path,
                ZipRecord {
                    size,
                    compressed_size,
                    method: bytes::le16_at(cd, p + 0x0A) as u16,
                    local_offset,
                    modified: dos_stamp(
                        bytes::le16_at(cd, p + 0x0C),
                        bytes::le16_at(cd, p + 0x0E),
                    ),
                },
            )
        },
    }
}

/// The index with up to `count` entries of the central directory from `p` on.
pub open spec fn with_entries(cd: Seq<u8>, p: int, count: int, c: CatalogView<ZipRecord>) -> CatalogView<
    ZipRecord,
>
    decreases count,
{
    let next = p + 46 + bytes::le16_at(cd, p + 0x1C) + bytes::le16_at(cd, p + 0x1E)
        + bytes::le16_at(cd, p + 0x20);
    if count <= 0 || p + 46 > cd.len() || bytes::le32_at(cd, p) != CENTRAL_SIG || next > cd.len() {
        c
    } else {
        with_entries(cd, next, count - 1, with_entry(cd, p, c))
    }
}

/// An index of nothing.
pub open spec fn no_entries() -> CatalogView<ZipRecord> {
    CatalogView { dirs: seq![], files: seq![] }
}

/// The index of the archive of `len` bytes that `reads` gives, or the reason why
/// there is none.
pub open spec fn zip_index(reads: Reads, len: int) -> Result<CatalogView<ZipRecord>, Seq<char>> {
    let tail_len = if len < 67_584 {
        len
    } else {
        67_584
    };
    match source::labelled(reads(len - tail_len, tail_len), "ZIP: "@) {
        Err(e) => Err(e),
        Ok(tail) => match directory_of(reads, tail) {
            Err(e) => Err(e),
            Ok(d) => if d.offset + d.size > len {
                Err("ZIP: central directory runs past the end of the file"@)
            } else {
                match source::labelled(
                    reads(d.offset as int, d.size as int),
                    "ZIP central directory: "@,
                ) {
                    Err(e) => Err(e),
                    Ok(cd) => {
                        let c = with_entries(cd, 0, d.count as int, no_entries());
                        if c.files.len() == 0 && c.dirs.len() == 0 {
                            Err("ZIP: the central directory holds no usable entries"@)
                        } else {
                            Ok(c)
                        }
                    },
                }
            },
        },
    }
}

/// The last index below `n` where the 32-bit value `sig` stands.
fn find_last_sig(s: &[u8], n: usize, sig: u32) -> (r: Option<usize>)
    requires
        n + 3 <= s@.len(),
    ensures
        r is None <==> last_sig(s@, n as int, sig as int) == -1,
        r matches Some(i) ==> i == last_sig(s@, n as int, sig as int) && i < n,
{
    let mut k: usize = n;
    while k > 0
        invariant
            k <= n,
            n + 3 <= s@.len(),
            last_sig(s@, n as int, sig as int) == last_sig(s@, k as int, sig as int),
        decreases k,
    {
        if read_u32_le(s, k - 1) == sig {
            return Some(k - 1);
        }
        k -= 1;
    }
    None
}

/// Finds the central directory of the archive whose last bytes are `tail`.
fn find_directory<S: ByteSource>(source: &mut S, tail: &[u8]) -> (r: Result<Directory, String>)
    ensures
        final(source).reads() == old(source).reads(),
        match r {
            Ok(d) => directory_of(old(source).reads(), tail@) == Ok::<Directory, Seq<char>>(d),
            Err(e) => directory_of(old(source).reads(), tail@) == Err::<Directory, Seq<char>>(e@),
        },
{
    let n: usize = if tail.len() > 21 {
        tail.len() - 21
    } else {
        0
    };
    if n == 0 {
        return Err("Not a ZIP archive (no end of central directory record)".to_owned());
    }
    let eocd: usize = match find_last_sig(tail, n, EOCD_SIG) {
        Some(i) => i,
        None => {
            return Err("Not a ZIP archive (no end of central directory record)".to_owned());
        },
    };
    let d = Directory {
        count: read_u16_le(tail, eocd + 0x0A) as u64,
        size: read_u32_le(tail, eocd + 0x0C) as u64,
        offset: read_u32_le(tail, eocd + 0x10) as u64,
    };
    if d.offset != ZIP64_MARKER && d.size != ZIP64_MARKER && d.count != 0xFFFF {
        return Ok(d);
    }
    let loc: usize = match find_last_sig(tail, eocd, EOCD64_LOCATOR_SIG) {
        Some(i) => i,
        None => {
            return Err("ZIP: Zip64 sizes but no Zip64 locator".to_owned());
        },
    };
    let rec: Vec<u8> = match read_labelled(
        source,
        read_u64_le(tail, loc + 8),
        56,
        "ZIP Zip64 record: ",
    ) {
        Ok(rec) => rec,
        Err(e) => {
            return Err(e);
        },
    };
    if read_u32_le(rec.as_slice(), 0) != EOCD64_SIG {
        return Err("ZIP: Zip64 record signature is wrong".to_owned());
    }
    Ok(
        Directory {
            count: read_u64_le(rec.as_slice(), 0x20),
            size: read_u64_le(rec.as_slice(), 0x28),
            offset: read_u64_le(rec.as_slice(), 0x30),
        },
    )
}

/// The bytes of the Zip64 extra field.
fn find_zip64_field(extra: &[u8]) -> (r: Option<(usize, usize)>)
    ensures
        r is None <==> zip64_field(extra@, 0) is None,
        r matches Some(f) ==> zip64_field(extra@, 0) == Some((f.0 as int, f.1 as int)) && f.0 <= f.1
            <= extra@.len(),
{
    let n: usize = extra.len();
    let mut q: usize = 0;
    while n >= 4 && q <= n - 4
        invariant
            n == extra@.len(),
            zip64_field(extra@, 0) == zip64_field(extra@, q as int),
        decreases n - q,
    {
        let len: usize = read_u16_le(extra, q + 2) as usize;
        if read_u16_le(extra, q) == 1 && len <= n - 4 - q {
            return Some((q + 4, q + 4 + len));
        }
        if len > n - 4 - q {
            return None;
        }
        q = q + 4 + len;
    }
    None
}

/// The size, compressed size and local offset of the entry at `p`.
fn read_extents(cd: &[u8], p: usize, extra: &[u8]) -> (r: (u64, u64, u64))
    requires
        p + 46 <= cd@.len(),
    ensures
        r == extents(cd@, p as int, extra@),
{
    assert(p + 46 <= cd.len());
    let mut size: u64 = read_u32_le(cd, p + 0x18) as u64;
    let mut packed: u64 = read_u32_le(cd, p + 0x14) as u64;
    let mut offset: u64 = read_u32_le(cd, p + 0x2A) as u64;
    if size == ZIP64_MARKER || packed == ZIP64_MARKER || offset == ZIP64_MARKER {
        if let Some((start, end)) = find_zip64_field(extra) {
            assert(end <= extra.len());
            let mut r: usize = start;
            if size == ZIP64_MARKER && end - r >= 8 {
                size = read_u64_le(extra, r);
                r += 8;
            }
            if packed == ZIP64_MARKER && end - r >= 8 {
                packed = read_u64_le(extra, r);
                r += 8;
            }
            if offset == ZIP64_MARKER && end - r >= 8 {
                offset = read_u64_le(extra, r);
            }
        }
    }
    (size, packed, offset)
}

/// Adds the entry at `p` of the central directory to the index.
fn add_entry(cd: &[u8], p: usize, c: &mut Catalog<ZipEntry>)
    requires
        p + 46 + bytes::le16_at(cd@, p + 0x1C) + bytes::le16_at(cd@, p + 0x1E) <= cd@.len(),
        p + 46 <= cd@.len(),
    ensures
        final(c)@ == with_entry(cd@, p as int, old(c)@),
{
    assert(p + 46 <= cd.len());
    let name_len: usize = read_u16_le(cd, p + 0x1C) as usize;
    let extra_len: usize = read_u16_le(cd, p + 0x1E) as usize;
    let name: Vec<u8> = cut(cd, p + 46, p + 46 + name_len);
    let raw: String = from_utf8_lossy(name.as_slice());
    let extra: Vec<u8> = cut(cd, p + 46 + name_len, p + 46 + name_len + extra_len);
    let (size, compressed_size, local_offset) = read_extents(cd, p, extra.as_slice());
    let letters: Vec<char> = chars_of(raw.as_str());
    let is_dir = letters.len() > 0 && (letters[letters.len() - 1] == '/' || letters[letters.len() - 1]
        == '\\');
    match normalise(raw.as_str()) {
        None => {},
        Some(path) => {
            proof {
                catalog::lemma_named(raw@);
            }
            c.add_parents(path.as_str());
            if is_dir {
                c.add_dir(path);
            } else {
                let modified: String = dos_datetime(
                    read_u16_le(cd, p + 0x0C),
                    read_u16_le(cd, p + 0x0E),
                );
                c.add_file(
                    path,
                    ZipEntry {
                        size,
                        compressed_size,
                        method: read_u16_le(cd, p + 0x0A),
                        local_offset,
                        modified,
                    },
                );
            }
        },
    }
}

/// Adds up to `count` entries of the central directory to the index.
fn add_entries(cd: &[u8], count: u64, c: &mut Catalog<ZipEntry>)
    ensures
        final(c)@ == with_entries(cd@, 0, count as int, old(c)@),
{
    let n: usize = cd.len();
    let mut p: usize = 0;
    let mut left: u64 = count;
    while left > 0 && n >= 46 && p <= n - 46
        invariant
            n == cd@.len(),
            p <= n,
            with_entries(cd@, 0, count as int, old(c)@) == with_entries(
                cd@,
                p as int,
                left as int,
                c@,
            ),
        ensures
            c@ == with_entries(cd@, 0, count as int, old(c)@),
        decreases left,
    {
        if read_u32_le(cd, p) != CENTRAL_SIG {
            break;
        }
        let name_len: usize = read_u16_le(cd, p + 0x1C) as usize;
        let extra_len: usize = read_u16_le(cd, p + 0x1E) as usize;
        let comment_len: usize = read_u16_le(cd, p + 0x20) as usize;
        if name_len + extra_len + comment_len > n - 46 - p {
            break;
        }
        add_entry(cd, p, c);
        p = p + 46 + name_len + extra_len + comment_len;
        left -= 1;
    }
}

impl<S: ByteSource> ZipArchive<S> {
    /// Reads the index of the archive of `len` bytes.
    pub fn open(source: S, len: u64) -> (r: Result<ZipArchive<S>, String>)
        ensures
            match r {
                Ok(z) => zip_index(source.reads(), len as int) == Ok::<
                    CatalogView<ZipRecord>,
                    Seq<char>,
                >(z.catalog@) && z.source.reads() == source.reads(),
                Err(e) => zip_index(source.reads(), len as int) == Err::<
                    CatalogView<ZipRecord>,
                    Seq<char>,
                >(e@),
            },
    {
        let mut source: S = source;
        let tail_len: u64 = if len < 66 * 1024 {
            len
        } else {
            66 * 1024
        };
        let tail: Vec<u8> = match read_labelled(&mut source, len - tail_len, tail_len, "ZIP: ") {
            Ok(tail) => tail,
            Err(e) => {
                return Err(e);
            },
        };
        let d: Directory = match find_directory(&mut source, tail.as_slice()) {
            Ok(d) => d,
            Err(e) => {
                return Err(e);
            },
        };
        if d.size > len || d.offset > len - d.size {
            return Err("ZIP: central directory runs past the end of the file".to_owned());
        }
        let cd: Vec<u8> = match read_labelled(
            &mut source,
            d.offset,
            d.size,
            "ZIP central directory: ",
        ) {
            Ok(cd) => cd,
            Err(e) => {
                return Err(e);
            },
        };
        let mut catalog: Catalog<ZipEntry> = Catalog::new();
        assert(catalog@ =~= no_entries());
        add_entries(cd.as_slice(), d.count, &mut catalog);
        assert(catalog@.files.len() == catalog.files@.len());
        assert(catalog@.dirs.len() == catalog.dirs@.len());
        if catalog.files.len() == 0 && catalog.dirs.len() == 0 {
            return Err("ZIP: the central directory holds no usable entries".to_owned());
        }
        Ok(ZipArchive { source, catalog })
    }

    /// Lists a directory.
    pub fn list_directory(&self, dir_path: &str) -> (r: Result<Vec<DiscEntry>, String>)
        ensures
            match r {
                Ok(v) => catalog::listing_answer::<ZipEntry>(
                    self.catalog@,
                    catalog::base_of(dir_path@),
                    dir_path@,
                ) == Ok::<Seq<EntryView>, Seq<char>>(entry::listing(v@)),
                Err(e) => catalog::listing_answer::<ZipEntry>(
                    self.catalog@,
                    catalog::base_of(dir_path@),
                    dir_path@,
                ) == Err::<Seq<EntryView>, Seq<char>>(e@),
            },
    {
        let base: String = base_path(dir_path);
        self.catalog.answer_listing(base.as_str(), dir_path)
    }

    /// The bytes of the file stored under the path `e_path`.
    pub fn read_entry(&mut self, e_path: &str) -> (r: Result<Vec<u8>, String>)
        ensures
            final(self).catalog@ == old(self).catalog@,
            final(self).source.reads() == old(self).source.reads(),
            source::outcome(r) == entry_answer(
                old(self).source.reads(),
                old(self).catalog@,
                e_path@,
            ),
    {
        let i: usize = match self.catalog.find(e_path) {
            Some(i) => i,
            None => {
                return Err(join2("Not found: ", e_path));
            },
        };
        let offset: u64 = self.catalog.files[i].1.local_offset;
        let compressed_size: u64 = self.catalog.files[i].1.compressed_size;
        let size: u64 = self.catalog.files[i].1.size;
        let method: u16 = self.catalog.files[i].1.method;
        let header: Vec<u8> = match read_labelled(
            &mut self.source,
            offset,
            30,
            "ZIP local header: ",
        ) {
            Ok(h) => h,
            Err(e) => {
                return Err(e);
            },
        };
        if read_u32_le(header.as_slice(), 0) != LOCAL_SIG {
            return Err("ZIP: local header signature is wrong".to_owned());
        }
        let skip: u64 = read_u16_le(header.as_slice(), 26) as u64 + read_u16_le(
            header.as_slice(),
            28,
        ) as u64;
        let data_at: u64 = match (offset + 30).checked_add(skip) {
            Some(p) => p,
            None => {
                return Err(join2("ZIP read: ", "failed to fill whole buffer"));
            },
        };
        let raw: Vec<u8> = match read_labelled(
            &mut self.source,
            data_at,
            compressed_size,
            "ZIP read: ",
        ) {
            Ok(raw) => raw,
            Err(e) => {
                return Err(e);
            },
        };
        expand(method, size, raw)
    }

    /// The bytes of the file that a request names.
    pub fn extract_file(&mut self, file_path: &str) -> (r: Result<Vec<u8>, String>)
        ensures
            final(self).catalog@ == old(self).catalog@,
            final(self).source.reads() == old(self).source.reads(),
            source::outcome(r) == (match catalog::normalised(file_path@) {
                None => Err("Bad path: "@ + file_path@),
                Some(key) => entry_answer(old(self).source.reads(), old(self).catalog@, key),
            }),
    {
        match normalise(file_path) {
            None => Err(join2("Bad path: ", file_path)),
            Some(key) => self.read_entry(key.as_str()),
        }
    }

    /// The files below a directory and where they go below the destination.
    pub fn extract_directory(&self, dir_path: &str) -> (r: Result<Vec<Target>, String>)
        ensures
            match r {
                Ok(v) => catalog::extraction_answer(
                    self.catalog@,
                    catalog::base_of(dir_path@),
                    dir_path@,
                ) == Ok::<Seq<(Seq<char>, Seq<char>)>, Seq<char>>(catalog::targets_of(v@)),
                Err(e) => catalog::extraction_answer(
                    self.catalog@,
                    catalog::base_of(dir_path@),
                    dir_path@,
                ) == Err::<Seq<(Seq<char>, Seq<char>)>, Seq<char>>(e@),
            },
    {
        let base: String = base_path(dir_path);
        self.catalog.answer_extraction(base.as_str(), dir_path)
    }
}

// ── Reading a file ──────────────────────────────────────────────────────────

/// The LZMA stream of an entry: its five property bytes, its size, its data.
pub open spec fn lzma_input(raw: Seq<u8>, size: u64) -> Seq<u8> {
    raw.subrange(4, 9) + bytes::le_bytes(size as int, 8) + raw.skip(9)
}

/// What the stored bytes of an entry decode to.
pub open spec fn expanded(method: u16, size: u64, raw: Seq<u8>) -> Result<Seq<u8>, Seq<char>> {
    if method == 0 {
        Ok(raw)
    } else if method == 8 {
        source::labelled(codec::deflate_stream(raw), "ZIP: deflate failed: "@)
    } else if method == 12 {
        source::labelled(codec::bzip2_stream(raw), "ZIP: bzip2 failed: "@)
    } else if method == 93 {
        source::labelled(
            codec::zstd_block(raw, codec::block_limit(size as int)),
            "ZIP: zstd failed: "@,
        )
    } else if method == 14 {
        if raw.len() < 9 {
            Err("ZIP: LZMA entry is too short"@)
        } else {
            source::labelled(codec::lzma_stream(lzma_input(raw, size)), "ZIP: LZMA failed: "@)
        }
    } else {
        Err("ZIP: unsupported compression method "@ + numbers::decimal(method as int))
    }
}

/// The bytes of the entry `e`. Its local header says where they start.
pub open spec fn entry_bytes(reads: Reads, e: ZipRecord) -> Result<Seq<u8>, Seq<char>> {
    match source::labelled(reads(e.local_offset as int, 30), "ZIP local header: "@) {
        Err(t) => Err(t),
        Ok(h) => {
            let at = e.local_offset + 30 + bytes::le16_at(h, 26) + bytes::le16_at(h, 28);
            if bytes::le32_at(h, 0) != LOCAL_SIG {
                Err("ZIP: local header signature is wrong"@)
            } else if at > u64::MAX {
                Err("ZIP read: "@ + source::short_read())
            } else {
                match source::labelled(reads(at, e.compressed_size as int), "ZIP read: "@) {
                    Err(t) => Err(t),
                    Ok(raw) => expanded(e.method, e.size, raw),
                }
            }
        },
    }
}

/// The answer to a request for the file stored under `path`.
pub open spec fn entry_answer(
    reads: Reads,
    c: CatalogView<ZipRecord>,
    path: Seq<char>,
) -> Result<Seq<u8>, Seq<char>> {
    match catalog::record_at(c.files, path) {
        None => Err("Not found: "@ + path),
        Some(e) => entry_bytes(reads, e),
    }
}

/// Decodes the stored bytes of an entry.
pub fn expand(method: u16, size: u64, raw: Vec<u8>) -> (r: Result<Vec<u8>, String>)
    ensures
        source::outcome(r) == expanded(method, size, raw@),
{
    if method == 0 {
        Ok(raw)
    } else if method == 8 {
        label_error(deflate_decode(raw.as_slice()), "ZIP: deflate failed: ")
    } else if method == 12 {
        label_error(bzip2_decode(raw.as_slice()), "ZIP: bzip2 failed: ")
    } else if method == 93 {
        label_error(zstd_decompress(raw.as_slice(), limit_block(size)), "ZIP: zstd failed: ")
    } else if method == 14 {
        if raw.len() < 9 {
            return Err("ZIP: LZMA entry is too short".to_owned());
        }
        let mut stream: Vec<u8> = cut(raw.as_slice(), 4, 9);
        let mut count: Vec<u8> = write_le(size, 8);
        let mut rest: Vec<u8> = cut(raw.as_slice(), 9, raw.len());
        stream.append(&mut count);
        stream.append(&mut rest);
        assert(stream@ =~= lzma_input(raw@, size));
        label_error(lzma_decode(stream.as_slice()), "ZIP: LZMA failed: ")
    } else {
        let n: String = decimal_string(method as u64);
        Err(join2("ZIP: unsupported compression method ", n.as_str()))
    }
}

/// Whether the bytes at the start of a source mark a ZIP archive; an empty one
/// starts with the end record.
pub open spec fn zip_marked(reads: Reads) -> bool {
    match reads(0, 4) {
        Ok(m) => bytes::le32_at(m, 0) == LOCAL_SIG || bytes::le32_at(m, 0) == EOCD_SIG,
        Err(_) => false,
    }
}

/// Whether a source is a ZIP archive.
pub fn is_zip<S: ByteSource>(source: &mut S) -> (r: bool)
    ensures
        final(source).reads() == old(source).reads(),
        r == zip_marked(old(source).reads()),
{
    match source.read_exact_at(0, 4) {
        Ok(m) => {
            let sig: u32 = read_u32_le(m.as_slice(), 0);
            sig == LOCAL_SIG || sig == EOCD_SIG
        },
        Err(_) => false,
    }
}

// ── Laws ────────────────────────────────────────────────────────────────────

/// Indexing further entries keeps the index well rooted.
proof fn lemma_entries_rooted(cd: Seq<u8>, p: int, count: int, c: CatalogView<ZipRecord>)
    requires
        catalog::well_rooted(c),
    ensures
        catalog::well_rooted(with_entries(cd, p, count, c)),
    decreases count,
{
    let name_len = bytes::le16_at(cd, p + 0x1C);
    let next = p + 46 + name_len + bytes::le16_at(cd, p + 0x1E) + bytes::le16_at(cd, p + 0x20);
    if count > 0 && p + 46 <= cd.len() && bytes::le32_at(cd, p) == CENTRAL_SIG && next <= cd.len() {
        let raw = text::utf8_text(bytes::window(cd, p + 46, name_len));
        catalog::normalising_twice_is_normalising_once(raw);
        let d = with_entry(cd, p, c);
        if let Some(path) = catalog::normalised(raw) {
            catalog::adding_a_path_keeps_the_roots(c, path);
        }
        lemma_entries_rooted(cd, next, count - 1, d);
    }
}

/// Every path in the index of an archive is the one that it stands for, with a `/` in
/// front and no `..` in it, every directory on the way to it is in the index, whether or
/// not the archive has an entry for it, and the index is not empty.
pub proof fn indexed_paths_are_normal(reads: Reads, len: int)
    ensures
        zip_index(reads, len) matches Ok(c) ==> {
            &&& catalog::well_rooted(c)
            &&& forall|d: Seq<char>| #[trigger]
                c.dirs.contains(d) ==> catalog::normalised(d) == Some(d)
            &&& forall|k: int|
                0 <= k < c.files.len() ==> catalog::normalised((#[trigger] c.files[k]).0) == Some(
                    c.files[k].0,
                )
            &&& c.files.len() > 0 || c.dirs.len() > 0
        },
{
    if let Ok(c) = zip_index(reads, len) {
        let tail_len = if len < 67_584 {
            len
        } else {
            67_584
        };
        let tail = source::labelled(reads(len - tail_len, tail_len), "ZIP: "@)->Ok_0;
        let d = directory_of(reads, tail)->Ok_0;
        let cd = source::labelled(
            reads(d.offset as int, d.size as int),
            "ZIP central directory: "@,
        )->Ok_0;
        lemma_entries_rooted(cd, 0, d.count as int, no_entries());
        assert forall|x: Seq<char>| #[trigger] c.dirs.contains(x) implies catalog::normalised(x)
            == Some(x) by {
            catalog::normal_paths_stay(x);
        }
        assert forall|k: int| 0 <= k < c.files.len() implies catalog::normalised(
            (#[trigger] c.files[k]).0,
        ) == Some(c.files[k].0) by {
            catalog::normal_paths_stay(c.files[k].0);
        }
    }
}

/// What is stored behind a local header is read: whatever the lengths of the name and of
/// the extra fields between them, and without change where it is stored as it is.
pub proof fn an_entry_is_what_stands_behind_its_header(
    front: Seq<u8>,
    header: Seq<u8>,
    name: Seq<u8>,
    extra: Seq<u8>,
    data: Seq<u8>,
    rest: Seq<u8>,
    e: ZipRecord,
)
    requires
        header.len() == 30,
        header.take(4) == seq![0x50u8, 0x4B, 3, 4],
        header[26] + 256 * header[27] == name.len(),
        header[28] + 256 * header[29] == extra.len(),
        e.local_offset == front.len(),
        e.compressed_size == data.len(),
        (front + header + name + extra + data + rest).len() <= u64::MAX,
    ensures
        e.method == 0 ==> entry_bytes(
            source::reads_of(front + header + name + extra + data + rest),
            e,
        ) == Ok::<Seq<u8>, Seq<char>>(data),
        e.method == 8 ==> entry_bytes(
            source::reads_of(front + header + name + extra + data + rest),
            e,
        ) == source::labelled(codec::deflate_stream(data), "ZIP: deflate failed: "@),
        e.method == 12 ==> entry_bytes(
            source::reads_of(front + header + name + extra + data + rest),
            e,
        ) == source::labelled(codec::bzip2_stream(data), "ZIP: bzip2 failed: "@),
        e.method == 93 && 1 <= e.size <= 0x7FFF_FFFF ==> entry_bytes(
            source::reads_of(front + header + name + extra + data + rest),
            e,
        ) == source::labelled(codec::zstd_block(data, e.size as nat), "ZIP: zstd failed: "@),
{
    let image = front + header + name + extra + data + rest;
    let at = front.len() as int;
    let h = image.subrange(at, at + 30);
    assert(h =~= header);
    assert(header.take(4)[0] == header[0] && header.take(4)[1] == header[1] && header.take(4)[2]
        == header[2] && header.take(4)[3] == header[3]);
    let start = at + 30 + name.len() + extra.len();
    assert(image.subrange(start, start + data.len()) =~= data);
}

/// The last place of a signature is the one that no other follows.
proof fn lemma_last_sig(s: Seq<u8>, n: int, sig: int, p: int)
    requires
        0 <= p < n,
        bytes::le32_at(s, p) == sig,
        forall|i: int| p < i < n ==> #[trigger] bytes::le32_at(s, i) != sig,
    ensures
        last_sig(s, n, sig) == p,
    decreases n - p,
{
    if p < n - 1 {
        assert(bytes::le32_at(s, n - 1) != sig);
        lemma_last_sig(s, n - 1, sig, p);
    }
}

/// The index of an archive is made of the central directory that its end record names: as
/// many bytes at such a place, and so many entries.
pub proof fn the_end_record_names_the_directory(
    front: Seq<u8>,
    cd: Seq<u8>,
    end: Seq<u8>,
    count: int,
)
    requires
        22 <= end.len() <= 67_584,
        end.take(4) == seq![0x50u8, 0x4B, 5, 6],
        forall|i: int|
            0 < i <= end.len() - 22 ==> #[trigger] bytes::le32_at(end, i) != 0x0605_4B50,
        0 <= count < 0xFFFF,
        front.len() < 0xFFFF_FFFF,
        cd.len() < 0xFFFF_FFFF,
        bytes::has_at(end, 10, bytes::le_bytes(count, 2)),
        bytes::has_at(end, 12, bytes::le_bytes(cd.len() as int, 4)),
        bytes::has_at(end, 16, bytes::le_bytes(front.len() as int, 4)),
    ensures
        ({
            let image = front + cd + end;
            let c = with_entries(cd, 0, count, no_entries());
            let r = zip_index(source::reads_of(image), image.len() as int);
            if c.files.len() == 0 && c.dirs.len() == 0 {
                r is Err
            } else {
                r == Ok::<CatalogView<ZipRecord>, Seq<char>>(c)
            }
        }),
{
    let image = front + cd + end;
    let len = image.len() as int;
    let tail_len: int = if len < 67_584 {
        len
    } else {
        67_584
    };
    let tail = image.subrange(len - tail_len, len);
    let p = tail_len - end.len();
    assert(tail.subrange(p, p + end.len()) =~= end);
    lemma_directory(source::reads_of(image), tail, p, end, count, cd.len() as int, front.len() as int);
    let at = front.len() as int;
    assert(image.subrange(at, at + cd.len()) =~= cd);
}

/// The directory that the end record at `p` of the last bytes names.
proof fn lemma_directory(
    reads: Reads,
    tail: Seq<u8>,
    p: int,
    end: Seq<u8>,
    count: int,
    size: int,
    offset: int,
)
    requires
        22 <= end.len(),
        bytes::has_at(tail, p, end),
        p + end.len() == tail.len(),
        end.take(4) == seq![0x50u8, 0x4B, 5, 6],
        forall|i: int|
            0 < i <= end.len() - 22 ==> #[trigger] bytes::le32_at(end, i) != 0x0605_4B50,
        0 <= count < 0xFFFF,
        0 <= size < 0xFFFF_FFFF,
        0 <= offset < 0xFFFF_FFFF,
        bytes::has_at(end, 10, bytes::le_bytes(count, 2)),
        bytes::has_at(end, 12, bytes::le_bytes(size, 4)),
        bytes::has_at(end, 16, bytes::le_bytes(offset, 4)),
    ensures
        directory_of(reads, tail) == Ok::<Directory, Seq<char>>(
            Directory { count: count as u64, size: size as u64, offset: offset as u64 },
        ),
{
    let w = tail.subrange(p, p + end.len());
    assert forall|i: int| 0 <= i <= end.len() - 22 implies #[trigger] bytes::le32_at(end, i)
        == bytes::le32_at(tail, p + i) by {
        assert(w[i] == tail[p + i] && w[i + 1] == tail[p + i + 1] && w[i + 2] == tail[p + i + 2]
            && w[i + 3] == tail[p + i + 3]);
    }
    let t = end.take(4);
    assert(t[0] == end[0] && t[1] == end[1] && t[2] == end[2] && t[3] == end[3]);
    assert(bytes::le32_at(end, 0) == 0x0605_4B50);
    assert forall|i: int| p < i < tail.len() - 21 implies #[trigger] bytes::le32_at(tail, i)
        != EOCD_SIG as int by {
        assert(bytes::le32_at(end, i - p) != 0x0605_4B50);
    }
    lemma_last_sig(tail, tail.len() - 21, EOCD_SIG as int, p);
    bytes::lemma_has_in_part(tail, p, end, 10, bytes::le_bytes(count, 2));
    bytes::lemma_has_in_part(tail, p, end, 12, bytes::le_bytes(size, 4));
    bytes::lemma_has_in_part(tail, p, end, 16, bytes::le_bytes(offset, 4));
    bytes::fields_hold_what_was_written(tail, p + 10, count);
    bytes::fields_hold_what_was_written(tail, p + 12, size);
    bytes::fields_hold_what_was_written(tail, p + 16, offset);
}

/// An entry of the central directory adds the file that was written into it, and the next
/// one stands behind its name, its extra fields and its comment.
pub proof fn directory_entries_follow_each_other(
    cd: Seq<u8>,
    p: int,
    count: int,
    c: CatalogView<ZipRecord>,
    name: Seq<u8>,
    path: Seq<char>,
    extra_len: int,
    comment_len: int,
    e: ZipRecord,
    time: int,
    date: int,
)
    requires
        0 <= p,
        count > 0,
        name.len() <= 0xFFFF,
        0 <= extra_len <= 0xFFFF,
        0 <= comment_len <= 0xFFFF,
        p + 46 + name.len() + extra_len + comment_len <= cd.len(),
        bytes::has_at(cd, p, seq![0x50u8, 0x4B, 1, 2]),
        bytes::has_at(cd, p + 10, bytes::le_bytes(e.method as int, 2)),
        0 <= time <= 0xFFFF,
        0 <= date <= 0xFFFF,
        bytes::has_at(cd, p + 12, bytes::le_bytes(time, 2)),
        bytes::has_at(cd, p + 14, bytes::le_bytes(date, 2)),
        e.compressed_size < 0xFFFF_FFFF,
        e.size < 0xFFFF_FFFF,
        e.local_offset < 0xFFFF_FFFF,
        bytes::has_at(cd, p + 20, bytes::le_bytes(e.compressed_size as int, 4)),
        bytes::has_at(cd, p + 24, bytes::le_bytes(e.size as int, 4)),
        bytes::has_at(cd, p + 28, bytes::le_bytes(name.len() as int, 2)),
        bytes::has_at(cd, p + 30, bytes::le_bytes(extra_len, 2)),
        bytes::has_at(cd, p + 32, bytes::le_bytes(comment_len, 2)),
        bytes::has_at(cd, p + 42, bytes::le_bytes(e.local_offset as int, 4)),
        bytes::has_at(cd, p + 46, name),
        catalog::normalised(text::utf8_text(name)) == Some(path),
        text::utf8_text(name).last() != '/',
        text::utf8_text(name).last() != '\\',
        e.modified == dos_stamp(time, date),
    ensures
        with_entries(cd, p, count, c) == with_entries(
            cd,
            p + 46 + name.len() + extra_len + comment_len,
            count - 1,
            c.holding(path).with_file(path, e),
        ),
{
    let t = cd.subrange(p, p + 4);
    assert(t[0] == cd[p] && t[1] == cd[p + 1] && t[2] == cd[p + 2] && t[3] == cd[p + 3]);
    bytes::fields_hold_what_was_written(cd, p + 10, e.method as int);
    bytes::fields_hold_what_was_written(cd, p + 12, time);
    bytes::fields_hold_what_was_written(cd, p + 14, date);
    bytes::fields_hold_what_was_written(cd, p + 20, e.compressed_size as int);
    bytes::fields_hold_what_was_written(cd, p + 24, e.size as int);
    bytes::fields_hold_what_was_written(cd, p + 28, name.len() as int);
    bytes::fields_hold_what_was_written(cd, p + 30, extra_len);
    bytes::fields_hold_what_was_written(cd, p + 32, comment_len);
    bytes::fields_hold_what_was_written(cd, p + 42, e.local_offset as int);
    let d = with_entry(cd, p, c);
    assert(d == c.holding(path).with_file(path, e));
}

/// Sizes and an offset that do not fit 32 bits are read from the Zip64 field: the length, the
/// stored length and the offset, in that order, each where its own place is saturated.
pub proof fn a_zip64_field_widens_in_order(
    cd: Seq<u8>,
    p: int,
    extra: Seq<u8>,
    size: u64,
    packed: u64,
    offset: u64,
)
    requires
        0 <= p,
        p + 46 <= cd.len(),
        bytes::has_at(cd, p + 20, seq![0xFFu8, 0xFF, 0xFF, 0xFF]),
        bytes::has_at(cd, p + 24, seq![0xFFu8, 0xFF, 0xFF, 0xFF]),
        bytes::has_at(cd, p + 42, seq![0xFFu8, 0xFF, 0xFF, 0xFF]),
        extra == seq![1u8, 0, 24, 0] + bytes::le_bytes(size as int, 8) + bytes::le_bytes(
            packed as int,
            8,
        ) + bytes::le_bytes(offset as int, 8),
    ensures
        extents(cd, p, extra) == (size, packed, offset),
{
    reveal_with_fuel(bytes::le_bytes, 9);
    let a = cd.subrange(p + 20, p + 24);
    assert(a[0] == cd[p + 20] && a[1] == cd[p + 21] && a[2] == cd[p + 22] && a[3] == cd[p + 23]);
    let b = cd.subrange(p + 24, p + 28);
    assert(b[0] == cd[p + 24] && b[1] == cd[p + 25] && b[2] == cd[p + 26] && b[3] == cd[p + 27]);
    let d = cd.subrange(p + 42, p + 46);
    assert(d[0] == cd[p + 42] && d[1] == cd[p + 43] && d[2] == cd[p + 44] && d[3] == cd[p + 45]);
    assert(extra.subrange(4, 12) =~= bytes::le_bytes(size as int, 8));
    assert(extra.subrange(12, 20) =~= bytes::le_bytes(packed as int, 8));
    assert(extra.subrange(20, 28) =~= bytes::le_bytes(offset as int, 8));
    bytes::fields_hold_what_was_written(extra, 4, size as int);
    bytes::fields_hold_what_was_written(extra, 12, packed as int);
    bytes::fields_hold_what_was_written(extra, 20, offset as int);
    assert(zip64_field(extra, 0) == Some((4int, 28int)));
}

/// A packed date and time show as what was packed: years count from 1980, seconds in twos.
pub proof fn a_packed_time_is_shown(y: int, m: int, d: int, h: int, mi: int, s: int)
    requires
        1980 <= y < 2108,
        1 <= m <= 12,
        1 <= d <= 31,
        0 <= h < 24,
        0 <= mi < 60,
        0 <= s < 30,
    ensures
        dos_stamp(h * 2048 + mi * 32 + s, (y - 1980) * 512 + m * 32 + d) == calendar::stamp(
            4,
            y,
            m,
            d,
            h,
            mi,
            2 * s,
        ),
{
    lemma_packed(y - 1980, m, d, 512, 32, 16);
    lemma_packed(h, mi, s, 2048, 32, 64);
}

/// Three numbers packed into one are had back.
proof fn lemma_packed(a: int, b: int, c: int, wa: int, wb: int, n: int)
    requires
        (wa, wb, n) == (512int, 32int, 16int) || (wa, wb, n) == (2048int, 32int, 64int),
        0 <= a,
        0 <= b < n,
        0 <= c < wb,
    ensures
        (a * wa + b * wb + c) / wa == a,
        ((a * wa + b * wb + c) / wb) % n == b,
        (a * wa + b * wb + c) % wb == c,
{
    if wa == 512 {
        let v = a * 512 + b * 32 + c;
        assert(v / 512 == a);
        assert(v / 32 == a * 16 + b);
        assert(v % 32 == c);
    } else {
        let v = a * 2048 + b * 32 + c;
        assert(v / 2048 == a);
        assert(v / 32 == a * 64 + b);
        assert(v % 32 == c);
    }
}

} // verus!
