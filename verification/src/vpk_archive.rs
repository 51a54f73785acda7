//! VPK (Valve Pak) archives.
use vstd::prelude::*;
use crate::bytes;
use crate::bytes::{cut, find_byte_from, read_u16_le, read_u32_le};
use crate::catalog;
use crate::catalog::{Catalog, CatalogView, Listed, Target};
use crate::entry;
use crate::entry::{DiscEntry, EntryView};
use crate::numbers;
use crate::numbers::{decimal_string, write_padded};
use crate::path;
use crate::path::{join_path, split_leaf};
use crate::source;
use crate::source::{read_labelled, ByteSource, Reads};
use crate::text;
use crate::text::{
    chars_of,
    cut_chars,
    ends_with,
    from_utf8_lossy,
    is_text,
    join2,
    join3,
    starts_with,
    string_of,
    trim_end_of,
    trim_start_of,
};

verus! {

pub const SIGNATURE: u32 = 0x55AA_1234;

/// The archive index of data that stands in the directory file itself.
pub const IN_THIS_FILE: u16 = 0x7FFF;

pub const TERMINATOR: u16 = 0xFFFF;

/// Where a file is stored.
pub struct VpkEntry {
    pub preload: Vec<u8>,
    pub archive_index: u16,
    pub offset: u32,
    pub length: u32,
}

/// The contents of a `VpkEntry`.
#[verifier::ext_equal]
pub struct VpkRecord {
    pub preload: Seq<u8>,
    pub archive_index: u16,
    pub offset: u32,
    pub length: u32,
}

impl View for VpkEntry {
    type V = VpkRecord;

    open spec fn view(&self) -> VpkRecord {
        VpkRecord {
            preload: self.preload@,
            archive_index: self.archive_index,
            offset: self.offset,
            length: self.length,
        }
    }
}

impl VpkEntry {
    /// The length of the file: what the directory holds of it, and the rest.
    pub fn size(&self) -> (r: u64)
        ensures
            r == entry_size(self@),
    {
        (self.preload.len() as u64).saturating_add(self.length as u64)
    }
}

/// The length of a file, within 64 bits.
pub open spec fn entry_size(v: VpkRecord) -> int {
    let n = v.preload.len() + v.length;
    if n > u64::MAX {
        u64::MAX as int
    } else {
        n
    }
}

impl Listed for VpkEntry {
    open spec fn size_of(v: VpkRecord) -> int {
        entry_size(v)
    }

    open spec fn modified_of(v: VpkRecord) -> Seq<char> {
        Seq::empty()
    }

    fn listed_size(&self) -> (r: u64) {
        self.size()
    }

    fn listed_modified(&self) -> (r: String) {
        String::new()
    }
}

/// The directory of a VPK archive.
pub struct VpkArchive {
    /// The path of the file that holds the directory.
    pub dir_path: String,
    /// Where the data section of that file begins.
    pub data_start: u64,
    pub catalog: Catalog<VpkEntry>,
}

// ── The directory tree ──────────────────────────────────────────────────────

/// The text up to the NUL at or after `p`, and the index behind that NUL.
pub open spec fn string_at(d: Seq<u8>, p: int) -> Option<(Seq<char>, int)> {
    let end = bytes::find_byte(d, p, 0);
    if p <= end < d.len() {
        Some((text::utf8_text(d.subrange(p, end)), end + 1))
    } else {
        None
    }
}

/// Reads a NUL-terminated text and steps over its terminator.
pub fn cstring(d: &[u8], p: &mut usize) -> (r: Option<String>)
    requires
        *old(p) <= d@.len(),
    ensures
        match r {
            Some(s) => string_at(d@, *old(p) as int) == Some((s@, *final(p) as int)) && *old(p)
                < *final(p) <= d@.len(),
            None => string_at(d@, *old(p) as int) is None && *final(p) == *old(p),
        },
{
    let start: usize = *p;
    let end: usize = find_byte_from(d, start, 0);
    if end == d.len() {
        return None;
    }
    let raw: Vec<u8> = cut(d, start, end);
    *p = end + 1;
    Some(from_utf8_lossy(raw.as_slice()))
}

/// The path of a file; an extension or directory of one space stands for none.
pub open spec fn full_path(ext: Seq<char>, dir: Seq<char>, name: Seq<char>) -> Seq<char> {
    let leaf = if ext == " "@ {
        name
    } else {
        name + "."@ + ext
    };
    if dir == " "@ {
        "/"@ + leaf
    } else {
        "/"@ + text::strip_back(text::strip_front(dir, '/'), '/') + "/"@ + leaf
    }
}

/// The path of a file.
fn make_path(ext: &str, dir: &str, name: &str) -> (r: String)
    ensures
        r@ == full_path(ext@, dir@, name@),
{
    let e: Vec<char> = chars_of(ext);
    let d: Vec<char> = chars_of(dir);
    let leaf: String = if is_text(e.as_slice(), " ") {
        name.to_owned()
    } else {
        join3(name, ".", ext)
    };
    if is_text(d.as_slice(), " ") {
        join2("/", leaf.as_str())
    } else {
        let front: Vec<char> = trim_start_of(d.as_slice(), '/');
        let both: Vec<char> = trim_end_of(front.as_slice(), '/');
        let mid: String = string_of(both.as_slice());
        let head: String = join3("/", mid.as_str(), "/");
        join2(head.as_str(), leaf.as_str())
    }
}

/// The record whose 18 bytes stand at `p`, its preloaded bytes behind them.
pub open spec fn record_at(tree: Seq<u8>, p: int) -> VpkRecord {
    VpkRecord {
        preload: bytes::window(tree, p + 18, bytes::le16_at(tree, p + 4)),
        archive_index: bytes::le16_at(tree, p + 6) as u16,
        offset: bytes::le32_at(tree, p + 8) as u32,
        length: bytes::le32_at(tree, p + 12) as u32,
    }
}

/// The index with what the tree lists from `p` on, inside the extension `ext`
/// and the directory `dir` where those are given. Extensions, directories and
/// names are texts; an empty one closes its level.
pub open spec fn vpk_walk(
    tree: Seq<u8>,
    p: int,
    ext: Option<Seq<char>>,
    dir: Option<Seq<char>>,
    c: CatalogView<VpkRecord>,
) -> Result<CatalogView<VpkRecord>, Seq<char>>
    decreases tree.len() - p,
{
    match string_at(tree, p) {
        None => Ok(c),
        Some((s, next)) => if p < 0 || next <= p || next > tree.len() {
            Ok(c)
        } else {
            match (ext, dir) {
                (None, _) => if s.len() == 0 {
                    Ok(c)
                } else {
                    vpk_walk(tree, next, Some(s), None, c)
                },
                (Some(e), None) => if s.len() == 0 {
                    vpk_walk(tree, next, None, None, c)
                } else {
                    vpk_walk(tree, next, Some(e), Some(s), c)
                },
                (Some(e), Some(d)) => {
                    let after = next + 18 + bytes::le16_at(tree, next + 4);
                    let path = full_path(e, d, s);
                    if s.len() == 0 {
                        vpk_walk(tree, next, Some(e), None, c)
                    } else if next + 18 > tree.len() {
                        Ok(c)
                    } else if bytes::le16_at(tree, next + 16) != TERMINATOR {
                        Err("VPK: directory entry is missing its terminator"@)
                    } else if after > tree.len() {
                        Ok(c)
                    } else {
                        vpk_walk(
                            tree,
                            after,
                            Some(e),
                            Some(d),
                            c.holding(path).with_file(path, record_at(tree, next)),
                        )
                    }
                },
            }
        },
    }
}

/// A text that may be missing.
pub open spec fn maybe(t: Option<String>) -> Option<Seq<char>> {
    match t {
        Some(s) => Some(s@),
        None => None,
    }
}

/// Collects what the tree lists.
fn index_tree(tree: &[u8]) -> (r: Result<Catalog<VpkEntry>, String>)
    ensures
        match r {
            Ok(c) => vpk_walk(tree@, 0, None, None, no_entries()) == Ok::<
                CatalogView<VpkRecord>,
                Seq<char>,
            >(c@),
            Err(e) => vpk_walk(tree@, 0, None, None, no_entries()) == Err::<
                CatalogView<VpkRecord>,
                Seq<char>,
            >(e@),
        },
{
    let n: usize = tree.len();
    let mut c: Catalog<VpkEntry> = Catalog::new();
    assert(c@ =~= no_entries());
    let mut p: usize = 0;
    let mut ext: Option<String> = None;
    let mut dir: Option<String> = None;
    let ghost goal = vpk_walk(tree@, 0, None, None, no_entries());
    loop
        invariant
            n == tree@.len(),
            p <= n,
            goal == vpk_walk(tree@, 0, None, None, no_entries()),
            goal == vpk_walk(tree@, p as int, maybe(ext), maybe(dir), c@),
            ext is None ==> dir is None,
        decreases n - p,
    {
        let s: String = match cstring(tree, &mut p) {
            None => {
                return Ok(c);
            },
            Some(s) => s,
        };
        let empty = s.as_str().is_empty();
        if ext.is_none() {
            if empty {
                return Ok(c);
            }
            ext = Some(s);
        } else if dir.is_none() {
            if empty {
                ext = None;
            } else {
                dir = Some(s);
            }
        } else if empty {
            dir = None;
        } else {
            if n - p < 18 {
                return Ok(c);
            }
            let preload_len: usize = read_u16_le(tree, p + 4) as usize;
            if read_u16_le(tree, p + 16) != TERMINATOR {
                return Err("VPK: directory entry is missing its terminator".to_owned());
            }
            if preload_len > n - p - 18 {
                return Ok(c);
            }
            let preload: Vec<u8> = cut(tree, p + 18, p + 18 + preload_len);
            let e = VpkEntry {
                preload,
                archive_index: read_u16_le(tree, p + 6),
                offset: read_u32_le(tree, p + 8),
                length: read_u32_le(tree, p + 12),
            };
            assert(e@ =~= record_at(tree@, p as int));
            let path: String = match (&ext, &dir) {
                (Some(x), Some(d)) => make_path(x.as_str(), d.as_str(), s.as_str()),
                _ => s,
            };
            c.add_parents(path.as_str());
            c.add_file(path, e);
            p = p + 18 + preload_len;
        }
    }
}

// ── Opening ─────────────────────────────────────────────────────────────────

/// An index of nothing.
pub open spec fn no_entries() -> CatalogView<VpkRecord> {
    CatalogView { dirs: seq![], files: seq![] }
}

/// Where the data section begins and the index of the archive in a source of
/// `len` bytes, or the reason why there is none.
pub open spec fn vpk_index(reads: Reads, len: int) -> Result<
    (int, CatalogView<VpkRecord>),
    Seq<char>,
> {
    let n = if len < 28 {
        len
    } else {
        28
    };
    match source::labelled(reads(0, n), "VPK header: "@) {
        Err(e) => Err(e),
        Ok(head) => {
            let version = bytes::le32_at(head, 4);
            let header_len = if version == 1 {
                12int
            } else {
                28int
            };
            let tree_size = bytes::le32_at(head, 8);
            if n < 12 || bytes::le32_at(head, 0) != SIGNATURE {
                Err("Not a VPK archive"@)
            } else if version != 1 && version != 2 {
                Err("VPK: version "@ + numbers::decimal(version) + " is not supported"@)
            } else if version == 2 && n < 28 {
                Err("VPK: version 2 header is truncated"@)
            } else {
                match source::labelled(reads(header_len, tree_size), "VPK directory: "@) {
                    Err(e) => Err(e),
                    Ok(tree) => match vpk_walk(tree, 0, None, None, no_entries()) {
                        Err(e) => Err(e),
                        Ok(c) => if c.files.len() == 0 {
                            Err("VPK: the directory holds no files"@)
                        } else {
                            Ok((header_len + tree_size, c))
                        },
                    },
                }
            }
        },
    }
}

// ── Reading a file ──────────────────────────────────────────────────────────

/// The path of the numbered archive `index` beside the directory file: a
/// directory `pak01_dir.vpk` is served by `pak01_000.vpk` and so on.
pub open spec fn archive_name(dir_path: Seq<char>, index: int) -> Result<Seq<char>, Seq<char>> {
    match path::leaf(dir_path) {
        None => Err("VPK: cannot read the archive name"@),
        Some((parent, name)) => if !text::ends(name, ".vpk"@) {
            Err("VPK: archive name does not end in .vpk"@)
        } else {
            let stem = name.take(name.len() - ".vpk"@.len());
            let base = if text::ends(stem, "_dir"@) {
                stem.take(stem.len() - "_dir"@.len())
            } else {
                stem
            };
            Ok(
                path::joined(
                    parent,
                    base + "_"@ + numbers::zero_padded(numbers::decimal(index), 3) + ".vpk"@,
                ),
            )
        },
    }
}

/// The bytes of a file that the directory holds, and where the rest of them is.
pub struct VpkData {
    pub preload: Vec<u8>,
    pub rest: Option<VpkRest>,
}

/// A run of bytes in a file.
pub struct VpkRest {
    pub path: String,
    pub at: u64,
    pub length: u64,
}

/// Where the bytes of the entry `e` are: those in the directory, and the path,
/// position and number of the rest.
pub open spec fn located(dir_path: Seq<char>, data_start: int, e: VpkRecord) -> Result<
    (Seq<u8>, Option<(Seq<char>, int, int)>),
    Seq<char>,
> {
    if e.length == 0 {
        Ok((e.preload, None))
    } else if e.archive_index == IN_THIS_FILE {
        Ok((e.preload, Some((dir_path, data_start + e.offset, e.length as int))))
    } else {
        match archive_name(dir_path, e.archive_index as int) {
            Err(t) => Err(t),
            Ok(p) => Ok((e.preload, Some((p, e.offset as int, e.length as int)))),
        }
    }
}

/// The contents of a `VpkData`.
pub open spec fn data_of(d: VpkData) -> (Seq<u8>, Option<(Seq<char>, int, int)>) {
    (
        d.preload@,
        match d.rest {
            Some(r) => Some((r.path@, r.at as int, r.length as int)),
            None => None,
        },
    )
}

/// The directory that a request names, without the separators at its end.
pub open spec fn trimmed_dir(dir: Seq<char>) -> Seq<char> {
    text::strip_back(dir, '/')
}

/// The path of a file as the index knows it.
pub open spec fn rooted_path(p: Seq<char>) -> Seq<char> {
    if text::begins(p, "/"@) {
        p
    } else {
        "/"@ + p
    }
}

/// Where the bytes of the file under `key` are.
pub open spec fn entry_answer(a: VpkArchive, key: Seq<char>) -> Result<
    (Seq<u8>, Option<(Seq<char>, int, int)>),
    Seq<char>,
> {
    match catalog::record_at(a.catalog@.files, key) {
        None => Err("Not found: "@ + key),
        Some(e) => located(a.dir_path@, a.data_start as int, e),
    }
}

impl VpkArchive {
    /// Reads the directory of the archive at `path`, in a source of `len` bytes.
    pub fn open<S: ByteSource>(source: &mut S, len: u64, path: &str) -> (r: Result<VpkArchive, String>)
        ensures
            final(source).reads() == old(source).reads(),
            match r {
                Ok(a) => vpk_index(old(source).reads(), len as int) == Ok::<
                    (int, CatalogView<VpkRecord>),
                    Seq<char>,
                >((a.data_start as int, a.catalog@)) && a.dir_path@ == path@ && a.data_start
                    <= 0x1_0000_001c,
                Err(e) => vpk_index(old(source).reads(), len as int) == Err::<
                    (int, CatalogView<VpkRecord>),
                    Seq<char>,
                >(e@),
            },
    {
        let n: u64 = if len < 28 {
            len
        } else {
            28
        };
        let head: Vec<u8> = match read_labelled(source, 0, n, "VPK header: ") {
            Ok(b) => b,
            Err(e) => {
                return Err(e);
            },
        };
        if n < 12 || read_u32_le(head.as_slice(), 0) != SIGNATURE {
            return Err("Not a VPK archive".to_owned());
        }
        let version: u32 = read_u32_le(head.as_slice(), 4);
        let tree_size: u32 = read_u32_le(head.as_slice(), 8);
        if version != 1 && version != 2 {
            let v: String = decimal_string(version as u64);
            return Err(join3("VPK: version ", v.as_str(), " is not supported"));
        }
        if version == 2 && n < 28 {
            return Err("VPK: version 2 header is truncated".to_owned());
        }
        let header_len: u64 = if version == 1 {
            12
        } else {
            28
        };
        let tree: Vec<u8> = match read_labelled(
            source,
            header_len,
            tree_size as u64,
            "VPK directory: ",
        ) {
            Ok(b) => b,
            Err(e) => {
                return Err(e);
            },
        };
        let catalog: Catalog<VpkEntry> = match index_tree(tree.as_slice()) {
            Ok(c) => c,
            Err(e) => {
                return Err(e);
            },
        };
        assert(catalog@.files.len() == catalog.files@.len());
        if catalog.files.len() == 0 {
            return Err("VPK: the directory holds no files".to_owned());
        }
        Ok(
            VpkArchive {
                dir_path: path.to_owned(),
                data_start: header_len + tree_size as u64,
                catalog,
            },
        )
    }

    /// The path of the numbered archive `index`.
    pub fn archive_path(&self, index: u16) -> (r: Result<String, String>)
        ensures
            match r {
                Ok(p) => archive_name(self.dir_path@, index as int) == Ok::<Seq<char>, Seq<char>>(
                    p@,
                ),
                Err(e) => archive_name(self.dir_path@, index as int) == Err::<
                    Seq<char>,
                    Seq<char>,
                >(e@),
            },
    {
        let (parent, name) = match split_leaf(self.dir_path.as_str()) {
            None => {
                return Err("VPK: cannot read the archive name".to_owned());
            },
            Some(l) => l,
        };
        let letters: Vec<char> = chars_of(name.as_str());
        if !ends_with(letters.as_slice(), ".vpk") {
            return Err("VPK: archive name does not end in .vpk".to_owned());
        }
        let suffix: Vec<char> = chars_of(".vpk");
        let stem: Vec<char> = cut_chars(letters.as_slice(), 0, letters.len() - suffix.len());
        assert(stem@ =~= name@.take(name@.len() - ".vpk"@.len()));
        let base: Vec<char> = if ends_with(stem.as_slice(), "_dir") {
            let tail: Vec<char> = chars_of("_dir");
            let b: Vec<char> = cut_chars(stem.as_slice(), 0, stem.len() - tail.len());
            assert(b@ =~= stem@.take(stem@.len() - "_dir"@.len()));
            b
        } else {
            stem
        };
        let digits: Vec<char> = write_padded(index as u64, 10, 3);
        let base_text: String = string_of(base.as_slice());
        let number: String = string_of(digits.as_slice());
        let head: String = join3(base_text.as_str(), "_", number.as_str());
        let file: String = join2(head.as_str(), ".vpk");
        Ok(join_path(parent.as_str(), file.as_str()))
    }

    /// Lists a directory.
    pub fn list_directory(&self, dir_path: &str) -> (r: Result<Vec<DiscEntry>, String>)
        ensures
            match r {
                Ok(v) => catalog::listing_answer::<VpkEntry>(
                    self.catalog@,
                    trimmed_dir(dir_path@),
                    dir_path@,
                ) == Ok::<Seq<EntryView>, Seq<char>>(entry::listing(v@)),
                Err(e) => catalog::listing_answer::<VpkEntry>(
                    self.catalog@,
                    trimmed_dir(dir_path@),
                    dir_path@,
                ) == Err::<Seq<EntryView>, Seq<char>>(e@),
            },
    {
        let letters: Vec<char> = chars_of(dir_path);
        let t: Vec<char> = trim_end_of(letters.as_slice(), '/');
        let base: String = string_of(t.as_slice());
        self.catalog.answer_listing(base.as_str(), dir_path)
    }

    /// Where the bytes of the file under `key` are.
    pub fn read_entry(&self, key: &str) -> (r: Result<VpkData, String>)
        requires
            self.data_start <= 0x1_0000_001c,
        ensures
            match r {
                Ok(d) => entry_answer(*self, key@) == Ok::<
                    (Seq<u8>, Option<(Seq<char>, int, int)>),
                    Seq<char>,
                >(data_of(d)),
                Err(e) => entry_answer(*self, key@) == Err::<
                    (Seq<u8>, Option<(Seq<char>, int, int)>),
                    Seq<char>,
                >(e@),
            },
    {
        let i: usize = match self.catalog.find(key) {
            None => {
                return Err(join2("Not found: ", key));
            },
            Some(i) => i,
        };
        let e: &VpkEntry = &self.catalog.files[i].1;
        let preload: Vec<u8> = cut(e.preload.as_slice(), 0, e.preload.len());
        assert(preload@ =~= e.preload@);
        if e.length == 0 {
            return Ok(VpkData { preload, rest: None });
        }
        if e.archive_index == IN_THIS_FILE {
            return Ok(
                VpkData {
                    preload,
                    rest: Some(
                        VpkRest {
                            path: self.dir_path.clone(),
                            at: self.data_start + e.offset as u64,
                            length: e.length as u64,
                        },
                    ),
                },
            );
        }
        match self.archive_path(e.archive_index) {
            Err(t) => Err(t),
            Ok(path) => Ok(
                VpkData {
                    preload,
                    rest: Some(VpkRest { path, at: e.offset as u64, length: e.length as u64 }),
                },
            ),
        }
    }

    /// Where the bytes of the file that a request names are.
    pub fn extract_file(&self, file_path: &str) -> (r: Result<VpkData, String>)
        requires
            self.data_start <= 0x1_0000_001c,
        ensures
            match r {
                Ok(d) => entry_answer(*self, rooted_path(file_path@)) == Ok::<
                    (Seq<u8>, Option<(Seq<char>, int, int)>),
                    Seq<char>,
                >(data_of(d)),
                Err(e) => entry_answer(*self, rooted_path(file_path@)) == Err::<
                    (Seq<u8>, Option<(Seq<char>, int, int)>),
                    Seq<char>,
                >(e@),
            },
    {
        let letters: Vec<char> = chars_of(file_path);
        if starts_with(letters.as_slice(), "/") {
            self.read_entry(file_path)
        } else {
            let key: String = join2("/", file_path);
            self.read_entry(key.as_str())
        }
    }

    /// The files below a directory and where they go below the destination.
    pub fn extract_directory(&self, dir_path: &str) -> (r: Result<Vec<Target>, String>)
        ensures
            match r {
                Ok(v) => catalog::extraction_answer(
                    self.catalog@,
                    trimmed_dir(dir_path@),
                    dir_path@,
                ) == Ok::<Seq<(Seq<char>, Seq<char>)>, Seq<char>>(catalog::targets_of(v@)),
                Err(e) => catalog::extraction_answer(
                    self.catalog@,
                    trimmed_dir(dir_path@),
                    dir_path@,
                ) == Err::<Seq<(Seq<char>, Seq<char>)>, Seq<char>>(e@),
            },
    {
        let letters: Vec<char> = chars_of(dir_path);
        let t: Vec<char> = trim_end_of(letters.as_slice(), '/');
        let base: String = string_of(t.as_slice());
        self.catalog.answer_extraction(base.as_str(), dir_path)
    }
}

/// The bytes of a file: those that the directory holds, and then the rest, which
/// `source`, the file that holds it, gives.
pub fn complete_entry<S: ByteSource>(d: VpkData, source: &mut S) -> (r: Result<Vec<u8>, String>)
    ensures
        final(source).reads() == old(source).reads(),
        source::outcome(r) == (match d.rest {
            None => Ok(d.preload@),
            Some(x) => match source::labelled(
                (old(source).reads())(x.at as int, x.length as int),
                "VPK read: "@,
            ) {
                Ok(b) => Ok(d.preload@ + b),
                Err(e) => Err(e),
            },
        }),
{
    let mut out: Vec<u8> = d.preload;
    match d.rest {
        None => Ok(out),
        Some(x) => match read_labelled(source, x.at, x.length, "VPK read: ") {
            Ok(b) => {
                let mut b: Vec<u8> = b;
                out.append(&mut b);
                Ok(out)
            },
            Err(e) => Err(e),
        },
    }
}

/// Whether the bytes at the start of a source mark a VPK directory.
pub open spec fn vpk_marked(reads: Reads) -> bool {
    match reads(0, 8) {
        Ok(h) => bytes::le32_at(h, 0) == SIGNATURE,
        Err(_) => false,
    }
}

/// Whether a source is a VPK directory.
pub fn is_vpk<S: ByteSource>(source: &mut S) -> (r: bool)
    ensures
        final(source).reads() == old(source).reads(),
        r == vpk_marked(old(source).reads()),
{
    match source.read_exact_at(0, 8) {
        Ok(h) => read_u32_le(h.as_slice(), 0) == SIGNATURE,
        Err(_) => false,
    }
}

// ── Laws ────────────────────────────────────────────────────────────────────

/// A text that ends with a zero byte is read up to that, and what follows stands behind it.
pub proof fn a_text_ends_at_its_zero(d: Seq<u8>, p: int, s: Seq<u8>)
    requires
        0 <= p,
        p + s.len() < d.len(),
        bytes::has_at(d, p, s),
        forall|i: int| 0 <= i < s.len() ==> s[i] != 0,
        d[p + s.len()] == 0,
    ensures
        string_at(d, p) == Some((text::utf8_text(s), p + s.len() + 1)),
{
    bytes::lemma_find_byte(d, p, 0);
    let end = bytes::find_byte(d, p, 0);
    if end < p + s.len() {
        assert(d.subrange(p, p + s.len())[end - p] == d[end]);
    }
    assert(end == p + s.len());
}

/// The path of a file is made of its directory, its name and its extension, of which the
/// first and the last may be missing.
pub proof fn a_path_is_made_of_its_parts(ext: Seq<char>, dir: Seq<char>, name: Seq<char>)
    requires
        dir.len() > 0,
        dir[0] != '/',
        dir.last() != '/',
    ensures
        ext != " "@ && dir != " "@ ==> full_path(ext, dir, name) == "/"@ + dir + "/"@ + (name + "."@
            + ext),
        ext == " "@ && dir != " "@ ==> full_path(ext, dir, name) == "/"@ + dir + "/"@ + name,
        ext != " "@ ==> full_path(ext, " "@, name) == "/"@ + (name + "."@ + ext),
        full_path(" "@, " "@, name) == "/"@ + name,
{
    assert(text::strip_front(dir, '/') == dir);
    assert(text::strip_back(dir, '/') == dir);
}

/// A record of the tree adds the file that was written into it: the bytes that stand behind
/// it, the number of its archive, and where and how many the other bytes are; the next name
/// follows those bytes.
pub proof fn records_follow_each_other(
    tree: Seq<u8>,
    p: int,
    ext: Seq<char>,
    dir: Seq<char>,
    name: Seq<u8>,
    crc: Seq<u8>,
    r: VpkRecord,
    rest: Seq<u8>,
    c: CatalogView<VpkRecord>,
)
    requires
        0 <= p <= tree.len(),
        name.len() > 0,
        text::utf8_text(name).len() > 0,
        forall|i: int| 0 <= i < name.len() ==> name[i] != 0,
        crc.len() == 4,
        r.preload.len() <= 0xFFFF,
        tree.skip(p) == name + seq![0u8] + crc + bytes::le_bytes(r.preload.len() as int, 2)
            + bytes::le_bytes(r.archive_index as int, 2) + bytes::le_bytes(r.offset as int, 4)
            + bytes::le_bytes(r.length as int, 4) + seq![0xFFu8, 0xFF] + r.preload + rest,
    ensures
        ({
            let path = full_path(ext, dir, text::utf8_text(name));
            vpk_walk(tree, p, Some(ext), Some(dir), c) == vpk_walk(
                tree,
                tree.len() - rest.len(),
                Some(ext),
                Some(dir),
                c.holding(path).with_file(path, r),
            )
        }),
{
    reveal_with_fuel(bytes::le_bytes, 5);
    let s = tree.skip(p);
    let n = name.len() as int;
    let q = n + 1;
    let next = p + q;
    assert(s.len() == q + 18 + r.preload.len() + rest.len());
    assert(tree.subrange(p, p + n) =~= name) by {
        assert forall|i: int| 0 <= i < n implies tree.subrange(p, p + n)[i] == name[i] by {
            assert(s[i] == tree[p + i]);
        }
    }
    assert(s[n] == 0 && s[n] == tree[p + n]);
    a_text_ends_at_its_zero(tree, p, name);
    assert(tree.subrange(next + 4, next + 6) =~= s.subrange(q + 4, q + 6));
    assert(s.subrange(q + 4, q + 6) =~= bytes::le_bytes(r.preload.len() as int, 2));
    assert(tree.subrange(next + 6, next + 8) =~= s.subrange(q + 6, q + 8));
    assert(s.subrange(q + 6, q + 8) =~= bytes::le_bytes(r.archive_index as int, 2));
    assert(tree.subrange(next + 8, next + 12) =~= s.subrange(q + 8, q + 12));
    assert(s.subrange(q + 8, q + 12) =~= bytes::le_bytes(r.offset as int, 4));
    assert(tree.subrange(next + 12, next + 16) =~= s.subrange(q + 12, q + 16));
    assert(s.subrange(q + 12, q + 16) =~= bytes::le_bytes(r.length as int, 4));
    assert(tree[next + 16] == s[q + 16] && tree[next + 17] == s[q + 17]);
    assert(tree.subrange(next + 18, next + 18 + r.preload.len()) =~= s.subrange(
        q + 18,
        q + 18 + r.preload.len(),
    ));
    assert(s.subrange(q + 18, q + 18 + r.preload.len()) =~= r.preload);
    bytes::fields_hold_what_was_written(tree, next + 4, r.preload.len() as int);
    bytes::fields_hold_what_was_written(tree, next + 6, r.archive_index as int);
    bytes::fields_hold_what_was_written(tree, next + 8, r.offset as int);
    bytes::fields_hold_what_was_written(tree, next + 12, r.length as int);
    assert(record_at(tree, next) =~= r);
}

/// The data section begins behind the header, whose length its version tells, and the tree,
/// and a file in it is read from there.
pub proof fn the_data_follow_the_tree(head: Seq<u8>, tree: Seq<u8>, data: Seq<u8>, version: int)
    requires
        version == 1 || version == 2,
        version == 1 ==> head.len() == 12,
        version == 2 ==> head.len() == 28,
        tree.len() <= 0xFFFF_FFFF,
        bytes::has_at(head, 0, seq![0x34u8, 0x12, 0xAA, 0x55]),
        bytes::has_at(head, 4, bytes::le_bytes(version, 4)),
        bytes::has_at(head, 8, bytes::le_bytes(tree.len() as int, 4)),
        head.len() + tree.len() + data.len() >= 28,
    ensures
        ({
            let image = head + tree + data;
            vpk_index(source::reads_of(image), image.len() as int) matches Ok(r) ==> r.0
                == head.len() + tree.len() && vpk_walk(tree, 0, None, None, no_entries()) == Ok::<
                CatalogView<VpkRecord>,
                Seq<char>,
            >(r.1)
        }),
        forall|e: VpkRecord, at: int, dir_path: Seq<char>|
            e.length > 0 && e.archive_index == 0x7FFF && (#[trigger] located(dir_path, at, e)
                matches Ok(x)) ==> located(dir_path, at, e) == Ok::<
                (Seq<u8>, Option<(Seq<char>, int, int)>),
                Seq<char>,
            >((e.preload, Some((dir_path, at + e.offset, e.length as int)))),
{
    let image = head + tree + data;
    reveal_with_fuel(bytes::le_bytes, 5);
    let h = image.subrange(0, 28);
    assert(h.subrange(4, 8) =~= head.subrange(4, 8));
    assert(h.subrange(8, 12) =~= head.subrange(8, 12));
    bytes::fields_hold_what_was_written(h, 4, version);
    bytes::fields_hold_what_was_written(h, 8, tree.len() as int);
    let at = head.len() as int;
    assert(image.subrange(at, at + tree.len()) =~= tree);
}

} // verus!
