//! ZArchive: the directory tree of a Wii U title, with the data of its files in
//! compressed blocks.
//!
//! A footer at the end of the file locates the sections. Tree nodes are numbered
//! and a directory's children follow each other.
use vstd::prelude::*;
use vstd::slice::*;
use crate::bytes;
use crate::bytes::{bytes_at, cut, read_u16_be, read_u32_be, read_u64_be};
use crate::codec;
use crate::codec::zstd_fill;
use crate::entry;
use crate::entry::{clamp_u32, dir_entry, file_entry, DiscEntry, EntryView};
use crate::extract;
use crate::numbers;
use crate::numbers::decimal_string;
use crate::sanitize;
use crate::sanitize::sanitize_component;
use crate::source;
use crate::source::{label_error, read_labelled, read_wide, ByteSource, Reads};
use crate::text;
use crate::text::{chars_of, eq_ignore_case, from_utf8_lossy, join2, join3, segments};

verus! {

pub const FOOTER_SIZE: u64 = 144;

/// The name offset of the root directory.
pub const ROOT_NODE: u32 = 0x7FFF_FFFF;

/// Where sixteen blocks are stored: the first one's place, and the length of
/// each less one.
pub struct OffsetRecord {
    pub offset: u64,
    pub sizes: Vec<u16>,
}

/// The contents of an offset record.
#[verifier::ext_equal]
pub struct RecordView {
    pub offset: u64,
    pub sizes: Seq<u16>,
}

impl View for OffsetRecord {
    type V = RecordView;

    open spec fn view(&self) -> RecordView {
        RecordView { offset: self.offset, sizes: self.sizes@ }
    }
}

/// A node of the tree.
#[derive(Clone, Copy)]
pub enum Node {
    File { name_offset: u32, offset: u64, size: u64 },
    Dir { name_offset: u32, start: u32, count: u32 },
}

/// Where the name of a node stands.
pub open spec fn name_offset_of(n: Node) -> u32 {
    match n {
        Node::File { name_offset, .. } => name_offset,
        Node::Dir { name_offset, .. } => name_offset,
    }
}

/// The contents of an opened archive.
#[verifier::ext_equal]
pub struct ZView {
    pub data_offset: int,
    pub data_len: int,
    pub records: Seq<RecordView>,
    pub names: Seq<u8>,
    pub nodes: Seq<Node>,
}

/// The contents of a list of records.
pub open spec fn record_views(v: Seq<OffsetRecord>) -> Seq<RecordView> {
    Seq::new(v.len(), |i: int| v[i]@)
}

// ── Opening ─────────────────────────────────────────────────────────────────

/// The section number `i`: one that does not lie within the file, or is larger
/// than `limit`, is refused.
pub open spec fn section_at(footer: Seq<u8>, i: int, len: int, limit: int, what: Seq<char>) -> Result<
    (int, int),
    Seq<char>,
> {
    let off = bytes::be64_at(footer, 16 * i);
    let size = bytes::be64_at(footer, 16 * i + 8);
    if off + size > len {
        Err("ZArchive: "@ + what + " section runs past the end of the file"@)
    } else if size > limit {
        Err("ZArchive: "@ + what + " section is implausibly large"@)
    } else {
        Ok((off, size))
    }
}

/// The offset record number `i`.
pub open spec fn record_at(t: Seq<u8>, i: int) -> RecordView {
    RecordView {
        offset: bytes::be64_at(t, 40 * i) as u64,
        sizes: Seq::new(16, |k: int| bytes::be16_at(t, 40 * i + 8 + 2 * k) as u16),
    }
}

/// The node number `i`.
pub open spec fn node_at(t: Seq<u8>, i: int) -> Node {
    let p = 16 * i;
    let word = bytes::be32_at(t, p);
    if word >= 0x8000_0000 {
        Node::File {
            name_offset: (word - 0x8000_0000) as u32,
            offset: (bytes::be16_at(t, p + 14) * 0x1_0000_0000 + bytes::be32_at(t, p + 4)) as u64,
            size: (bytes::be16_at(t, p + 12) * 0x1_0000_0000 + bytes::be32_at(t, p + 8)) as u64,
        }
    } else {
        Node::Dir {
            name_offset: word as u32,
            start: bytes::be32_at(t, p + 4) as u32,
            count: bytes::be32_at(t, p + 8) as u32,
        }
    }
}

/// The nodes of the tree section.
pub open spec fn nodes_of(t: Seq<u8>) -> Seq<Node> {
    Seq::new(t.len() / 16, |i: int| node_at(t, i))
}

/// Whether the first node is the root directory.
pub open spec fn has_root(nodes: Seq<Node>) -> bool {
    nodes.len() > 0 && nodes[0] is Dir && name_offset_of(nodes[0]) == ROOT_NODE
}

/// The archive whose footer is `footer`, in a file of `len` bytes.
pub open spec fn archive_of(reads: Reads, len: int, footer: Seq<u8>) -> Result<ZView, Seq<char>> {
    match section_at(footer, 0, len, 0xffff_ffff_ffff_ffff, "data"@) {
        Err(e) => Err(e),
        Ok((data_offset, data_len)) => match section_at(
            footer,
            1,
            len,
            0xffff_ffff,
            "offset records"@,
        ) {
            Err(e) => Err(e),
            Ok((rec_off, rec_size)) => match section_at(
                footer,
                2,
                len,
                0x7fff_ffff,
                "name table"@,
            ) {
                Err(e) => Err(e),
                Ok((name_off, name_size)) => match section_at(
                    footer,
                    3,
                    len,
                    0x7fff_ffff,
                    "file tree"@,
                ) {
                    Err(e) => Err(e),
                    Ok((tree_off, tree_size)) => if rec_size % 40 != 0 {
                        Err("ZArchive: offset record section is not a whole number of records"@)
                    } else if tree_size % 16 != 0 {
                        Err("ZArchive: file tree is not a whole number of nodes"@)
                    } else {
                        match source::labelled(
                            reads(rec_off, rec_size),
                            "ZArchive offset records: "@,
                        ) {
                            Err(e) => Err(e),
                            Ok(rec) => match source::labelled(
                                reads(name_off, name_size),
                                "ZArchive name table: "@,
                            ) {
                                Err(e) => Err(e),
                                Ok(names) => match source::labelled(
                                    reads(tree_off, tree_size),
                                    "ZArchive file tree: "@,
                                ) {
                                    Err(e) => Err(e),
                                    Ok(tree) => if !has_root(nodes_of(tree)) {
                                        Err("ZArchive: first tree node is not the root directory"@)
                                    } else {
                                        Ok(
                                            ZView {
                                                data_offset,
                                                data_len,
                                                records: Seq::new(
                                                    rec.len() / 40,
                                                    |i: int| record_at(rec, i),
                                                ),
                                                names,
                                                nodes: nodes_of(tree),
                                            },
                                        )
                                    },
                                },
                            },
                        }
                    },
                },
            },
        },
    }
}

/// The archive that a file of `len` bytes holds.
pub open spec fn zarchive_opened(reads: Reads, len: int) -> Result<ZView, Seq<char>> {
    if len < FOOTER_SIZE {
        Err("Not a ZArchive (file is too small)"@)
    } else {
        match source::labelled(reads(len - 144, 144), "ZArchive footer: "@) {
            Err(e) => Err(e),
            Ok(f) => if !bytes::has_at(f, 0x8C, seq![0x16u8, 0x9F, 0x52, 0xD6]) {
                Err("Not a ZArchive (bad magic)"@)
            } else if !bytes::has_at(f, 0x88, seq![0x61u8, 0xBF, 0x3A, 0x01]) {
                Err("ZArchive: only version 1 is supported"@)
            } else if bytes::be64_at(f, 0x80) != len {
                Err("ZArchive: footer size does not match the file"@)
            } else {
                archive_of(reads, len, f)
            },
        }
    }
}

/// Reads where a section is.
fn read_section(footer: &[u8], i: usize, len: u64, limit: u64, what: &str) -> (r: Result<
    (u64, u64),
    String,
>)
    requires
        footer@.len() == 144,
        i < 6,
    ensures
        match r {
            Ok(p) => section_at(footer@, i as int, len as int, limit as int, what@) == Ok::<
                (int, int),
                Seq<char>,
            >((p.0 as int, p.1 as int)),
            Err(e) => section_at(footer@, i as int, len as int, limit as int, what@) == Err::<
                (int, int),
                Seq<char>,
            >(e@),
        },
{
    let off: u64 = read_u64_be(footer, i * 16);
    let size: u64 = read_u64_be(footer, i * 16 + 8);
    if off > len || size > len - off {
        return Err(join3("ZArchive: ", what, " section runs past the end of the file"));
    }
    if size > limit {
        return Err(join3("ZArchive: ", what, " section is implausibly large"));
    }
    Ok((off, size))
}

/// The records of the offset section.
fn parse_records(t: &[u8]) -> (r: Vec<OffsetRecord>)
    ensures
        record_views(r@) == Seq::new(t@.len() / 40, |i: int| record_at(t@, i)),
        forall|i: int| 0 <= i < r@.len() ==> (#[trigger] r@[i]).sizes@.len() == 16,
{
    let len: usize = t.len();
    let n: usize = len / 40;
    let mut out: Vec<OffsetRecord> = Vec::new();
    let mut i: usize = 0;
    while i < n
        invariant
            len == t@.len(),
            n == len / 40,
            i <= n,
            out@.len() == i,
            forall|j: int| 0 <= j < i ==> (#[trigger] out@[j])@ == record_at(t@, j),
            forall|j: int| 0 <= j < i ==> (#[trigger] out@[j]).sizes@.len() == 16,
        decreases n - i,
    {
        let mut sizes: Vec<u16> = Vec::new();
        let mut k: usize = 0;
        while k < 16
            invariant
                len == t@.len(),
                40 * i + 40 <= len,
                k <= 16,
                sizes@.len() == k,
                forall|q: int|
                    0 <= q < k ==> #[trigger] sizes@[q] == bytes::be16_at(t@, 40 * i + 8 + 2 * q),
            decreases 16 - k,
        {
            sizes.push(read_u16_be(t, 40 * i + 8 + 2 * k));
            k += 1;
        }
        let rec: OffsetRecord = OffsetRecord { offset: read_u64_be(t, 40 * i), sizes };
        assert(rec@ =~= record_at(t@, i as int));
        out.push(rec);
        i += 1;
    }
    assert(record_views(out@) =~= Seq::new(t@.len() / 40, |i: int| record_at(t@, i)));
    out
}

/// The nodes of the tree section.
fn parse_nodes(t: &[u8]) -> (r: Vec<Node>)
    ensures
        r@ == nodes_of(t@),
{
    let len: usize = t.len();
    let n: usize = len / 16;
    let mut out: Vec<Node> = Vec::new();
    let mut i: usize = 0;
    while i < n
        invariant
            len == t@.len(),
            n == len / 16,
            i <= n,
            out@.len() == i,
            forall|j: int| 0 <= j < i ==> #[trigger] out@[j] == node_at(t@, j),
        decreases n - i,
    {
        let p: usize = 16 * i;
        let word: u32 = read_u32_be(t, p);
        let node: Node = if word >= 0x8000_0000 {
            let offset_low: u64 = read_u32_be(t, p + 4) as u64;
            let size_low: u64 = read_u32_be(t, p + 8) as u64;
            let size_high: u64 = read_u16_be(t, p + 12) as u64;
            let offset_high: u64 = read_u16_be(t, p + 14) as u64;
            Node::File {
                name_offset: word - 0x8000_0000,
                offset: offset_high * 0x1_0000_0000 + offset_low,
                size: size_high * 0x1_0000_0000 + size_low,
            }
        } else {
            Node::Dir {
                name_offset: word,
                start: read_u32_be(t, p + 4),
                count: read_u32_be(t, p + 8),
            }
        };
        out.push(node);
        i += 1;
    }
    assert(out@ =~= nodes_of(t@));
    out
}

/// An opened archive.
pub struct ZArchive<S: ByteSource> {
    pub source: S,
    pub data_offset: u64,
    pub data_len: u64,
    pub records: Vec<OffsetRecord>,
    pub names: Vec<u8>,
    pub nodes: Vec<Node>,
}

impl<S: ByteSource> ZArchive<S> {
    /// The contents of this archive.
    pub open spec fn contents(&self) -> ZView {
        ZView {
            data_offset: self.data_offset as int,
            data_len: self.data_len as int,
            records: record_views(self.records@),
            names: self.names@,
            nodes: self.nodes@,
        }
    }

    /// Whether records have sixteen sizes each, and the nodes of files are
    /// within 48 bits.
    pub open spec fn wf(&self) -> bool {
        &&& self.nodes@.len() > 0
        &&& forall|i: int| 0 <= i < self.records@.len() ==> (#[trigger] self.records@[i]).sizes@.len()
            == 16
        &&& forall|i: int|
            0 <= i < self.nodes@.len() ==> (#[trigger] self.nodes@[i] matches Node::File {
                offset,
                size,
                ..
            } ==> offset <= 0xffff_ffff_ffff && size <= 0xffff_ffff_ffff)
    }

    /// Opens the archive that a file of `len` bytes holds.
    pub fn open(source: S, len: u64) -> (r: Result<ZArchive<S>, String>)
        ensures
            match r {
                Ok(z) => z.wf() && z.source.reads() == source.reads() && zarchive_opened(
                    source.reads(),
                    len as int,
                ) == Ok::<ZView, Seq<char>>(z.contents()),
                Err(e) => zarchive_opened(source.reads(), len as int) == Err::<ZView, Seq<char>>(
                    e@,
                ),
            },
    {
        if len < FOOTER_SIZE {
            return Err("Not a ZArchive (file is too small)".to_owned());
        }
        let mut source: S = source;
        let f: Vec<u8> = match read_labelled(&mut source, len - 144, 144, "ZArchive footer: ") {
            Ok(b) => b,
            Err(e) => {
                return Err(e);
            },
        };
        let magic: [u8; 4] = [0x16, 0x9F, 0x52, 0xD6];
        let version: [u8; 4] = [0x61, 0xBF, 0x3A, 0x01];
        assert(magic@ =~= seq![0x16u8, 0x9F, 0x52, 0xD6]);
        assert(version@ =~= seq![0x61u8, 0xBF, 0x3A, 0x01]);
        if !bytes_at(f.as_slice(), 0x8C, magic.as_slice()) {
            return Err("Not a ZArchive (bad magic)".to_owned());
        }
        if !bytes_at(f.as_slice(), 0x88, version.as_slice()) {
            return Err("ZArchive: only version 1 is supported".to_owned());
        }
        if read_u64_be(f.as_slice(), 0x80) != len {
            return Err("ZArchive: footer size does not match the file".to_owned());
        }
        let (data_offset, data_len): (u64, u64) = match read_section(
            f.as_slice(),
            0,
            len,
            0xffff_ffff_ffff_ffff,
            "data",
        ) {
            Ok(p) => p,
            Err(e) => {
                return Err(e);
            },
        };
        let (rec_off, rec_size): (u64, u64) = match read_section(
            f.as_slice(),
            1,
            len,
            0xffff_ffff,
            "offset records",
        ) {
            Ok(p) => p,
            Err(e) => {
                return Err(e);
            },
        };
        let (name_off, name_size): (u64, u64) = match read_section(
            f.as_slice(),
            2,
            len,
            0x7fff_ffff,
            "name table",
        ) {
            Ok(p) => p,
            Err(e) => {
                return Err(e);
            },
        };
        let (tree_off, tree_size): (u64, u64) = match read_section(
            f.as_slice(),
            3,
            len,
            0x7fff_ffff,
            "file tree",
        ) {
            Ok(p) => p,
            Err(e) => {
                return Err(e);
            },
        };
        if rec_size % 40 != 0 {
            return Err(
                "ZArchive: offset record section is not a whole number of records".to_owned(),
            );
        }
        if tree_size % 16 != 0 {
            return Err("ZArchive: file tree is not a whole number of nodes".to_owned());
        }
        let rec: Vec<u8> = match read_labelled(
            &mut source,
            rec_off,
            rec_size,
            "ZArchive offset records: ",
        ) {
            Ok(b) => b,
            Err(e) => {
                return Err(e);
            },
        };
        let names: Vec<u8> = match read_labelled(
            &mut source,
            name_off,
            name_size,
            "ZArchive name table: ",
        ) {
            Ok(b) => b,
            Err(e) => {
                return Err(e);
            },
        };
        let tree: Vec<u8> = match read_labelled(
            &mut source,
            tree_off,
            tree_size,
            "ZArchive file tree: ",
        ) {
            Ok(b) => b,
            Err(e) => {
                return Err(e);
            },
        };
        let records: Vec<OffsetRecord> = parse_records(rec.as_slice());
        let nodes: Vec<Node> = parse_nodes(tree.as_slice());
        let rooted: bool = if nodes.len() == 0 {
            false
        } else {
            match nodes[0] {
                Node::Dir { name_offset, .. } => name_offset == ROOT_NODE,
                Node::File { .. } => false,
            }
        };
        if !rooted {
            return Err("ZArchive: first tree node is not the root directory".to_owned());
        }
        Ok(ZArchive { source, data_offset, data_len, records, names, nodes })
    }
}

/// Whether a file of `len` bytes ends like an archive.
pub fn is_zarchive<S: ByteSource>(source: &mut S, len: u64) -> (r: bool)
    ensures
        final(source).reads() == old(source).reads(),
        r == (len >= 4 && (old(source).reads())(len - 4, 4) == Ok::<Seq<u8>, Seq<char>>(
            seq![0x16u8, 0x9F, 0x52, 0xD6],
        )),
{
    if len < 4 {
        return false;
    }
    match source.read_exact_at(len - 4, 4) {
        Err(_) => false,
        Ok(b) => {
            let magic: [u8; 4] = [0x16, 0x9F, 0x52, 0xD6];
            assert(magic@ =~= seq![0x16u8, 0x9F, 0x52, 0xD6]);
            bytes::same_bytes(b.as_slice(), magic.as_slice())
        },
    }
}

// ── The tree ────────────────────────────────────────────────────────────────

/// The name at an offset of the name table: a length of one byte or, where the
/// top bit of that is set, two, and as many bytes as the table has of them.
pub open spec fn name_at(names: Seq<u8>, offset: int) -> Seq<char> {
    if offset >= names.len() {
        seq![]
    } else if names[offset] < 128 {
        name_of(names, offset + 1, names[offset] as int)
    } else if offset + 1 >= names.len() {
        seq![]
    } else {
        name_of(names, offset + 2, names[offset] - 128 + names[offset + 1] * 128)
    }
}

/// The text of the `len` bytes at `from`, as far as there are any.
pub open spec fn name_of(names: Seq<u8>, from: int, len: int) -> Seq<char> {
    text::utf8_text(
        names.subrange(
            from,
            if from + len < names.len() {
                from + len
            } else {
                names.len() as int
            },
        ),
    )
}

/// The children of a node: from the first number up to the second, within the
/// tree. A file has none.
pub open spec fn kids(nodes: Seq<Node>, i: int) -> (int, int) {
    if i < 0 || i >= nodes.len() {
        (0, 0)
    } else {
        match nodes[i] {
            Node::File { .. } => (0, 0),
            Node::Dir { start, count, .. } => {
                let end = if start + count < nodes.len() {
                    start + count
                } else {
                    nodes.len() as int
                };
                if start >= nodes.len() {
                    (0, 0)
                } else {
                    (start as int, end)
                }
            },
        }
    }
}

/// The first child from `k` on, before `end`, that is named `name`, the case of
/// letters aside.
pub open spec fn child_named(v: ZView, k: int, end: int, name: Seq<char>) -> Option<int>
    decreases end - k,
{
    if k >= end {
        None
    } else if text::alike(name_at(v.names, name_offset_of(v.nodes[k]) as int), name) {
        Some(k)
    } else {
        child_named(v, k + 1, end, name)
    }
}

/// The node that `parts` from `k` on lead to, from the node `i`.
pub open spec fn resolved(v: ZView, parts: Seq<Seq<char>>, k: int, i: int) -> Option<int>
    decreases parts.len() - k,
{
    if k < 0 || k >= parts.len() {
        Some(i)
    } else {
        match child_named(v, kids(v.nodes, i).0, kids(v.nodes, i).1, parts[k]) {
            None => None,
            Some(c) => resolved(v, parts, k + 1, c),
        }
    }
}

/// The node that a path names.
pub open spec fn node_named(v: ZView, path: Seq<char>) -> Option<int> {
    resolved(v, text::segments_of(path), 0, 0)
}

/// The line for a node.
pub open spec fn node_line(v: ZView, n: Node) -> EntryView {
    let name = name_at(v.names, name_offset_of(n) as int);
    match n {
        Node::File { size, .. } => entry::file_line(name, 0, entry::clamped(size as int), seq![]),
        Node::Dir { .. } => entry::dir_line(name),
    }
}

/// The answer to a listing of a directory.
pub open spec fn listing_answer(v: ZView, path: Seq<char>) -> Result<Seq<EntryView>, Seq<char>> {
    match node_named(v, path) {
        None => Err("Not found: "@ + path),
        Some(i) => if v.nodes[i] is File {
            Err("Not a directory: "@ + path)
        } else {
            let (start, end) = kids(v.nodes, i);
            Ok(Seq::new((end - start) as nat, |k: int| node_line(v, v.nodes[start + k])))
        },
    }
}

// ── File data ───────────────────────────────────────────────────────────────

/// The bytes that the first `n` blocks of a record take.
pub open spec fn stored_before(sizes: Seq<u16>, n: int) -> int
    decreases n,
{
    if n <= 0 {
        0
    } else {
        stored_before(sizes, n - 1) + sizes[n - 1] + 1
    }
}

/// A block of data: one whose stored length is that of a block is stored as it
/// is.
pub open spec fn block_of(reads: Reads, v: ZView, block: int) -> Result<Seq<u8>, Seq<char>> {
    if block / 16 >= v.records.len() {
        Err("ZArchive: no offset record for block "@ + numbers::decimal(block))
    } else {
        let rec = v.records[block / 16];
        let at = rec.offset + stored_before(rec.sizes, block % 16);
        let stored = rec.sizes[block % 16] + 1;
        if at + stored > v.data_len {
            Err("ZArchive: block runs past the end of the data section"@)
        } else {
            match source::labelled(
                source::reach(reads, v.data_offset + at, stored),
                "ZArchive read: "@,
            ) {
                Err(e) => Err(e),
                Ok(comp) => if stored == 65_536 {
                    Ok(comp)
                } else {
                    match source::labelled(
                        codec::zstd_filled(comp, 65_536),
                        "ZArchive: block "@ + numbers::decimal(block) + " failed to decompress: "@,
                    ) {
                        Err(e) => Err(e),
                        Ok(b) => if b.len() != 65_536 {
                            Err(
                                "ZArchive: block "@ + numbers::decimal(block)
                                    + " decompressed to "@ + numbers::decimal(b.len() as int)
                                    + " bytes, expected 65536"@,
                            )
                        } else {
                            Ok(b)
                        },
                    }
                },
            }
        }
    }
}

/// The `n` bytes of data at `at`.
pub open spec fn range_of(reads: Reads, v: ZView, at: int, n: int) -> Result<Seq<u8>, Seq<char>>
    decreases n,
{
    if n <= 0 {
        Ok(seq![])
    } else {
        match block_of(reads, v, at / 65_536) {
            Err(e) => Err(e),
            Ok(b) => {
                let intra = at % 65_536;
                let m = if n < 65_536 - intra {
                    n
                } else {
                    65_536 - intra
                };
                source::after(b.subrange(intra, intra + m), range_of(reads, v, at + m, n - m))
            },
        }
    }
}

/// The answer to a request for a file.
pub open spec fn file_answer(reads: Reads, v: ZView, path: Seq<char>) -> Result<
    Seq<u8>,
    Seq<char>,
> {
    match node_named(v, path) {
        None => Err("Not found: "@ + path),
        Some(i) => match v.nodes[i] {
            Node::File { offset, size, .. } => range_of(reads, v, offset as int, size as int),
            Node::Dir { .. } => Err("Not a file: "@ + path),
        },
    }
}

proof fn lemma_stored_before(sizes: Seq<u16>, n: int)
    requires
        0 <= n <= sizes.len(),
    ensures
        0 <= stored_before(sizes, n) <= 65_536 * n,
    decreases n,
{
    if n > 0 {
        lemma_stored_before(sizes, n - 1);
    }
}

proof fn lemma_named(v: ZView, k: int, end: int, name: Seq<char>)
    ensures
        child_named(v, k, end, name) matches Some(c) ==> k <= c < end,
    decreases end - k,
{
    if k < end && !text::alike(name_at(v.names, name_offset_of(v.nodes[k]) as int), name) {
        lemma_named(v, k + 1, end, name);
    }
}

impl<S: ByteSource> ZArchive<S> {
    /// The name at an offset of the name table.
    fn read_name(&self, offset: u32) -> (r: String)
        ensures
            r@ == name_at(self.names@, offset as int),
    {
        let len: usize = self.names.len();
        let p: u64 = offset as u64;
        let none: String = String::new();
        assert(none@ =~= seq![]);
        if p >= len as u64 {
            return none;
        }
        let first: u8 = self.names[p as usize];
        let (from, n): (usize, usize) = if first < 128 {
            (p as usize + 1, first as usize)
        } else {
            if p + 1 >= len as u64 {
                return none;
            }
            let second: u8 = self.names[p as usize + 1];
            (p as usize + 2, first as usize - 128 + second as usize * 128)
        };
        let end: usize = if n < len - from {
            from + n
        } else {
            len
        };
        from_utf8_lossy(slice_subrange(self.names.as_slice(), from, end))
    }

    /// The children of a node.
    fn child_range(&self, i: usize) -> (r: (usize, usize))
        requires
            i < self.nodes@.len(),
        ensures
            kids(self.nodes@, i as int) == (r.0 as int, r.1 as int),
            r.0 <= r.1 <= self.nodes@.len(),
    {
        let len: usize = self.nodes.len();
        match self.nodes[i] {
            Node::File { .. } => (0, 0),
            Node::Dir { start, count, .. } => {
                if start as u64 >= len as u64 {
                    return (0, 0);
                }
                let s: usize = start as usize;
                let end: usize = if (count as u64) < (len - s) as u64 {
                    s + count as usize
                } else {
                    len
                };
                (s, end)
            },
        }
    }

    /// Finds a child by its name.
    #[verifier::loop_isolation(false)]
    fn child_index(&self, i: usize, name: &[char]) -> (r: Option<usize>)
        requires
            i < self.nodes@.len(),
        ensures
            ({
                let (start, end) = kids(self.nodes@, i as int);
                match r {
                    Some(c) => child_named(self.contents(), start, end, name@) == Some(c as int) && c
                        < self.nodes@.len(),
                    None => child_named(self.contents(), start, end, name@) is None,
                }
            }),
    {
        let (start, end): (usize, usize) = self.child_range(i);
        let ghost v = self.contents();
        let mut k: usize = start;
        while k < end
            invariant
                start <= k <= end,
                child_named(v, start as int, end as int, name@) == child_named(
                    v,
                    k as int,
                    end as int,
                    name@,
                ),
            decreases end - k,
        {
            let at: u32 = match self.nodes[k] {
                Node::File { name_offset, .. } => name_offset,
                Node::Dir { name_offset, .. } => name_offset,
            };
            let n: String = self.read_name(at);
            let letters: Vec<char> = chars_of(n.as_str());
            if eq_ignore_case(letters.as_slice(), name) {
                return Some(k);
            }
            k += 1;
        }
        None
    }

    /// Finds the node that a path names.
    #[verifier::loop_isolation(false)]
    fn resolve(&self, path: &str) -> (r: Option<usize>)
        requires
            self.wf(),
        ensures
            match r {
                Some(i) => node_named(self.contents(), path@) == Some(i as int) && i
                    < self.nodes@.len(),
                None => node_named(self.contents(), path@) is None,
            },
    {
        let ghost v = self.contents();
        let parts: Vec<Vec<char>> = segments(path);
        let ghost all = text::texts(parts@);
        let mut i: usize = 0;
        let mut k: usize = 0;
        while k < parts.len()
            invariant
                k <= parts@.len(),
                i < self.nodes@.len(),
                resolved(v, all, 0, 0) == resolved(v, all, k as int, i as int),
            decreases parts@.len() - k,
        {
            assert(all[k as int] == parts@[k as int]@);
            match self.child_index(i, parts[k].as_slice()) {
                None => {
                    return None;
                },
                Some(c) => {
                    i = c;
                },
            }
            k += 1;
        }
        Some(i)
    }

    /// Lists a directory.
    #[verifier::loop_isolation(false)]
    pub fn list_directory(&self, dir_path: &str) -> (r: Result<Vec<DiscEntry>, String>)
        requires
            self.wf(),
        ensures
            match r {
                Ok(v) => listing_answer(self.contents(), dir_path@) == Ok::<
                    Seq<EntryView>,
                    Seq<char>,
                >(entry::listing(v@)),
                Err(e) => listing_answer(self.contents(), dir_path@) == Err::<
                    Seq<EntryView>,
                    Seq<char>,
                >(e@),
            },
    {
        let i: usize = match self.resolve(dir_path) {
            None => {
                return Err(join2("Not found: ", dir_path));
            },
            Some(i) => i,
        };
        if let Node::File { .. } = self.nodes[i] {
            return Err(join2("Not a directory: ", dir_path));
        }
        let ghost v = self.contents();
        let (start, end): (usize, usize) = self.child_range(i);
        let ghost lines = Seq::new(
            (end - start) as nat,
            |k: int| node_line(v, v.nodes[start + k]),
        );
        let mut out: Vec<DiscEntry> = Vec::new();
        let mut k: usize = start;
        assert(entry::listing(out@) =~= lines.take(0));
        while k < end
            invariant
                start <= k <= end,
                entry::listing(out@) == lines.take(k - start),
            decreases end - k,
        {
            let ghost before = out@;
            let line: DiscEntry = match self.nodes[k] {
                Node::File { name_offset, size, .. } => {
                    let none: String = String::new();
                    assert(none@ =~= seq![]);
                    file_entry(self.read_name(name_offset), 0, clamp_u32(size), none)
                },
                Node::Dir { name_offset, .. } => dir_entry(self.read_name(name_offset)),
            };
            out.push(line);
            assert(line@ =~= lines[k - start]);
            assert(entry::listing(out@) =~= entry::listing(before).push(line@));
            assert(lines.take(k + 1 - start) =~= lines.take(k - start).push(lines[k - start]));
            k += 1;
        }
        assert(lines.take(k - start) =~= lines);
        Ok(out)
    }

    /// Reads a block of data.
    fn read_block(&mut self, block: u64) -> (r: Result<Vec<u8>, String>)
        requires
            old(self).wf(),
        ensures
            final(self).wf(),
            final(self).contents() == old(self).contents(),
            final(self).source.reads() == old(self).source.reads(),
            source::outcome(r) == block_of(
                old(self).source.reads(),
                old(self).contents(),
                block as int,
            ),
            r matches Ok(b) ==> b@.len() == 65_536,
    {
        let at: u64 = block / 16;
        let within: usize = (block % 16) as usize;
        let number: String = decimal_string(block);
        if at >= self.records.len() as u64 {
            return Err(join2("ZArchive: no offset record for block ", number.as_str()));
        }
        let (place, stored): (u128, u64) = {
            let rec: &OffsetRecord = &self.records[at as usize];
            assert(rec.sizes@.len() == 16);
            let mut sum: u128 = rec.offset as u128;
            let mut k: usize = 0;
            while k < within
                invariant
                    k <= within < 16,
                    rec.sizes@.len() == 16,
                    sum == rec.offset + stored_before(rec.sizes@, k as int),
                    sum <= rec.offset + 65_536 * k,
                decreases within - k,
            {
                sum += rec.sizes[k] as u128 + 1;
                k += 1;
            }
            (sum, rec.sizes[within] as u64 + 1)
        };
        if place + stored as u128 > self.data_len as u128 {
            return Err("ZArchive: block runs past the end of the data section".to_owned());
        }
        let comp: Vec<u8> = match read_wide(
            &mut self.source,
            self.data_offset as u128 + place,
            stored,
            "ZArchive read: ",
        ) {
            Ok(b) => b,
            Err(e) => {
                return Err(e);
            },
        };
        if stored == 65_536 {
            return Ok(comp);
        }
        let label: String = join3(
            "ZArchive: block ",
            number.as_str(),
            " failed to decompress: ",
        );
        let b: Vec<u8> = match label_error(zstd_fill(comp.as_slice(), 65_536), label.as_str()) {
            Ok(b) => b,
            Err(e) => {
                return Err(e);
            },
        };
        if b.len() != 65_536 {
            let n: String = decimal_string(b.len() as u64);
            let head: String = join3("ZArchive: block ", number.as_str(), " decompressed to ");
            return Err(join3(head.as_str(), n.as_str(), " bytes, expected 65536"));
        }
        Ok(b)
    }

    /// Reads `size` bytes of data at `offset`.
    #[verifier::loop_isolation(false)]
    pub fn read_range(&mut self, offset: u64, size: u64) -> (r: Result<Vec<u8>, String>)
        requires
            old(self).wf(),
            offset <= 0xffff_ffff_ffff,
            size <= 0xffff_ffff_ffff,
        ensures
            final(self).wf(),
            final(self).contents() == old(self).contents(),
            final(self).source.reads() == old(self).source.reads(),
            source::outcome(r) == range_of(
                old(self).source.reads(),
                old(self).contents(),
                offset as int,
                size as int,
            ),
    {
        let ghost reads = self.source.reads();
        let ghost v = self.contents();
        let ghost goal = range_of(reads, v, offset as int, size as int);
        let mut out: Vec<u8> = Vec::new();
        let mut at: u64 = offset;
        let mut left: u64 = size;
        assert(source::after(out@, goal) == goal) by {
            match goal {
                Ok(b) => {
                    assert(out@ + b =~= b);
                },
                Err(_) => {},
            }
        }
        while left > 0
            invariant
                self.wf(),
                self.contents() == v,
                self.source.reads() == reads,
                at + left == offset + size,
                source::after(out@, range_of(reads, v, at as int, left as int)) == goal,
            decreases left,
        {
            let b: Vec<u8> = match self.read_block(at / 65_536) {
                Ok(b) => b,
                Err(e) => {
                    return Err(e);
                },
            };
            let intra: usize = (at % 65_536) as usize;
            let m: u64 = if left < 65_536 - intra as u64 {
                left
            } else {
                65_536 - intra as u64
            };
            let mut run: Vec<u8> = cut(b.as_slice(), intra, intra + m as usize);
            let ghost before = out@;
            let ghost piece = run@;
            out.append(&mut run);
            proof {
                match range_of(reads, v, at + m, left - m) {
                    Ok(t) => {
                        assert(before + (piece + t) =~= (before + piece) + t);
                    },
                    Err(_) => {},
                }
            }
            at += m;
            left -= m;
        }
        assert(out@ + seq![] =~= out@);
        Ok(out)
    }

    /// The bytes of a file.
    pub fn extract_file(&mut self, file_path: &str) -> (r: Result<Vec<u8>, String>)
        requires
            old(self).wf(),
        ensures
            final(self).wf(),
            final(self).contents() == old(self).contents(),
            final(self).source.reads() == old(self).source.reads(),
            source::outcome(r) == file_answer(
                old(self).source.reads(),
                old(self).contents(),
                file_path@,
            ),
    {
        let i: usize = match self.resolve(file_path) {
            None => {
                return Err(join2("Not found: ", file_path));
            },
            Some(i) => i,
        };
        let node: Node = self.nodes[i];
        match node {
            Node::File { offset, size, .. } => self.read_range(offset, size),
            Node::Dir { .. } => Err(join2("Not a file: ", file_path)),
        }
    }
}

// ── Extracting a directory ──────────────────────────────────────────────────

/// Something that the extraction of a directory creates.
pub enum ZStep {
    Dir { dest: String },
    File { dest: String, offset: u64, size: u64 },
}

/// The contents of a step.
#[verifier::ext_equal]
pub enum ZStepView {
    Dir { dest: Seq<char> },
    File { dest: Seq<char>, offset: u64, size: u64 },
}

impl View for ZStep {
    type V = ZStepView;

    open spec fn view(&self) -> ZStepView {
        match self {
            ZStep::Dir { dest } => ZStepView::Dir { dest: dest@ },
            ZStep::File { dest, offset, size } => ZStepView::File {
                dest: dest@,
                offset: *offset,
                size: *size,
            },
        }
    }
}

/// The contents of a list of steps.
pub open spec fn step_views(v: Seq<ZStep>) -> Seq<ZStepView> {
    Seq::new(v.len(), |i: int| v[i]@)
}

/// A directory to walk over: its node, where it goes, and how many levels may
/// follow below it.
#[verifier::ext_equal]
pub struct Task {
    pub node: int,
    pub dest: Seq<char>,
    pub levels: int,
}

/// The host path of a node within the directory `dest`.
pub open spec fn host_path(v: ZView, dest: Seq<char>, n: Node) -> Seq<char> {
    dest + "/"@ + sanitize::sanitized(name_at(v.names, name_offset_of(n) as int))
}

/// What the children from `k` up to `end` create, in order.
pub open spec fn level_steps(v: ZView, dest: Seq<char>, k: int, end: int) -> Seq<ZStepView>
    decreases end - k,
{
    if k >= end {
        seq![]
    } else {
        seq![
            match v.nodes[k] {
                Node::Dir { .. } => ZStepView::Dir { dest: host_path(v, dest, v.nodes[k]) },
                Node::File { offset, size, .. } => ZStepView::File {
                    dest: host_path(v, dest, v.nodes[k]),
                    offset,
                    size,
                },
            },
        ] + level_steps(v, dest, k + 1, end)
    }
}

/// The directories among the children from `k` up to `end`.
pub open spec fn level_tasks(v: ZView, dest: Seq<char>, k: int, end: int, levels: int) -> Seq<Task>
    decreases end - k,
{
    if k >= end {
        seq![]
    } else {
        let rest = level_tasks(v, dest, k + 1, end, levels);
        if v.nodes[k] is Dir {
            seq![Task { node: k, dest: host_path(v, dest, v.nodes[k]), levels }] + rest
        } else {
            rest
        }
    }
}

/// How many directories are walked over from the node `i` on.
pub open spec fn cost(v: ZView, i: int, levels: int) -> nat
    decreases levels, 1int, 0int,
{
    if levels <= 0 {
        1
    } else {
        1 + cost_of(v, kids(v.nodes, i).0, kids(v.nodes, i).1, levels - 1)
    }
}

/// How many directories are walked over from the children from `k` up to `end`
/// on.
pub open spec fn cost_of(v: ZView, k: int, end: int, levels: int) -> nat
    decreases levels, 2int, end - k,
{
    if k >= end {
        0
    } else if v.nodes[k] is Dir {
        cost(v, k, levels) + cost_of(v, k + 1, end, levels)
    } else {
        cost_of(v, k + 1, end, levels)
    }
}

/// How many directories are walked over from all tasks on.
pub open spec fn total_cost(v: ZView, tasks: Seq<Task>) -> nat
    decreases tasks.len(),
{
    if tasks.len() == 0 {
        0
    } else {
        total_cost(v, tasks.drop_last()) + cost(v, tasks.last().node, tasks.last().levels)
    }
}

pub proof fn lemma_total_cost(v: ZView, a: Seq<Task>, b: Seq<Task>)
    ensures
        total_cost(v, a + b) == total_cost(v, a) + total_cost(v, b),
    decreases b.len(),
{
    if b.len() == 0 {
        assert(a + b =~= a);
    } else {
        assert((a + b).drop_last() =~= a + b.drop_last());
        lemma_total_cost(v, a, b.drop_last());
    }
}

pub proof fn lemma_level_cost(v: ZView, dest: Seq<char>, k: int, end: int, levels: int)
    ensures
        total_cost(v, level_tasks(v, dest, k, end, levels)) == cost_of(v, k, end, levels),
    decreases end - k,
{
    if k < end {
        lemma_level_cost(v, dest, k + 1, end, levels);
        if v.nodes[k] is Dir {
            let one = seq![Task { node: k, dest: host_path(v, dest, v.nodes[k]), levels }];
            lemma_total_cost(v, one, level_tasks(v, dest, k + 1, end, levels));
            assert(one.drop_last() =~= seq![]);
            assert(total_cost(v, one.drop_last()) == 0);
            assert(one.last() == one[0]);
        }
    }
}

/// What a walk creates: of the last task, what its children are, and then the
/// directories among them, the last one first. As many levels are walked over
/// as there are nodes; below that only directories that hold themselves are.
pub open spec fn walked(v: ZView, tasks: Seq<Task>) -> Seq<ZStepView>
    decreases total_cost(v, tasks),
{
    if tasks.len() == 0 {
        seq![]
    } else {
        let t = tasks.last();
        let rest = tasks.drop_last();
        if t.levels <= 0 {
            walked(v, rest)
        } else {
            let (start, end) = kids(v.nodes, t.node);
            let below = level_tasks(v, t.dest, start, end, t.levels - 1);
            proof {
                lemma_level_cost(v, t.dest, start, end, t.levels - 1);
                lemma_total_cost(v, rest, below);
            }
            level_steps(v, t.dest, start, end) + walked(v, rest + below)
        }
    }
}

/// The answer to a request for a directory.
pub open spec fn extraction_answer(v: ZView, path: Seq<char>, dest: Seq<char>) -> Result<
    Seq<ZStepView>,
    Seq<char>,
> {
    match node_named(v, path) {
        None => Err("Not found: "@ + path),
        Some(i) => if v.nodes[i] is File {
            Err("Not a directory: "@ + path)
        } else {
            Ok(walked(v, seq![Task { node: i, dest, levels: v.nodes.len() as int }]))
        },
    }
}

/// The contents of a stack of directories.
pub open spec fn task_views(s: Seq<(usize, String, usize)>) -> Seq<Task> {
    Seq::new(
        s.len(),
        |i: int| Task { node: s[i].0 as int, dest: s[i].1@, levels: s[i].2 as int },
    )
}

impl<S: ByteSource> ZArchive<S> {
    /// Adds what the children of a directory create to `steps`, and the
    /// directories among them to `stack`.
    #[verifier::loop_isolation(false)]
    fn enter(
        &self,
        node: usize,
        dest: &str,
        levels: usize,
        steps: &mut Vec<ZStep>,
        stack: &mut Vec<(usize, String, usize)>,
    )
        requires
            node < self.nodes@.len(),
            levels > 0,
            forall|j: int| 0 <= j < old(stack)@.len() ==> (#[trigger] old(stack)@[j]).0 < self.nodes@.len(),
        ensures
            ({
                let (start, end) = kids(self.nodes@, node as int);
                &&& step_views(final(steps)@) == step_views(old(steps)@) + level_steps(
                    self.contents(),
                    dest@,
                    start,
                    end,
                )
                &&& task_views(final(stack)@) == task_views(old(stack)@) + level_tasks(
                    self.contents(),
                    dest@,
                    start,
                    end,
                    levels - 1,
                )
            }),
            forall|j: int| 0 <= j < final(stack)@.len() ==> (#[trigger] final(stack)@[j]).0 < self.nodes@.len(),
    {
        let ghost v = self.contents();
        let (start, end): (usize, usize) = self.child_range(node);
        let ghost goal_steps = step_views(steps@) + level_steps(v, dest@, start as int, end as int);
        let ghost goal_tasks = task_views(stack@) + level_tasks(
            v,
            dest@,
            start as int,
            end as int,
            levels - 1,
        );
        let mut k: usize = start;
        while k < end
            invariant
                start <= k <= end,
                forall|j: int| 0 <= j < stack@.len() ==> (#[trigger] stack@[j]).0 < self.nodes@.len(),
                step_views(steps@) + level_steps(v, dest@, k as int, end as int) == goal_steps,
                task_views(stack@) + level_tasks(v, dest@, k as int, end as int, levels - 1)
                    == goal_tasks,
            decreases end - k,
        {
            let ghost s0 = steps@;
            let ghost t0 = stack@;
            let ghost rest_steps = level_steps(v, dest@, k + 1, end as int);
            let ghost rest_tasks = level_tasks(v, dest@, k + 1, end as int, levels - 1);
            match self.nodes[k] {
                Node::Dir { name_offset, .. } => {
                    let name: String = self.read_name(name_offset);
                    let safe: String = sanitize_component(name.as_str());
                    let child: String = join3(dest, "/", safe.as_str());
                    let step: ZStep = ZStep::Dir { dest: child.clone() };
                    steps.push(step);
                    stack.push((k, child, levels - 1));
                    assert(step_views(steps@) =~= step_views(s0).push(step@));
                    assert(step_views(s0).push(step@) + rest_steps =~= step_views(s0) + (seq![step@]
                        + rest_steps));
                    let ghost task = Task { node: k as int, dest: child@, levels: levels - 1 };
                    assert(task_views(stack@) =~= task_views(t0).push(task));
                    assert(task_views(t0).push(task) + rest_tasks =~= task_views(t0) + (seq![task]
                        + rest_tasks));
                },
                Node::File { name_offset, offset, size } => {
                    let name: String = self.read_name(name_offset);
                    let safe: String = sanitize_component(name.as_str());
                    let child: String = join3(dest, "/", safe.as_str());
                    let step: ZStep = ZStep::File { dest: child, offset, size };
                    steps.push(step);
                    assert(step_views(steps@) =~= step_views(s0).push(step@));
                    assert(step_views(s0).push(step@) + rest_steps =~= step_views(s0) + (seq![step@]
                        + rest_steps));
                },
            }
            k += 1;
        }
        assert(step_views(steps@) + seq![] =~= step_views(steps@));
        assert(task_views(stack@) + seq![] =~= task_views(stack@));
    }

    /// Plans the extraction of a directory to `dest_path`: what is created, in
    /// order.
    #[verifier::loop_isolation(false)]
    pub fn extract_directory(&self, dir_path: &str, dest_path: &str) -> (r: Result<
        Vec<ZStep>,
        String,
    >)
        requires
            self.wf(),
        ensures
            match r {
                Ok(p) => extraction_answer(self.contents(), dir_path@, dest_path@) == Ok::<
                    Seq<ZStepView>,
                    Seq<char>,
                >(step_views(p@)),
                Err(e) => extraction_answer(self.contents(), dir_path@, dest_path@) == Err::<
                    Seq<ZStepView>,
                    Seq<char>,
                >(e@),
            },
    {
        let i: usize = match self.resolve(dir_path) {
            None => {
                return Err(join2("Not found: ", dir_path));
            },
            Some(i) => i,
        };
        if let Node::File { .. } = self.nodes[i] {
            return Err(join2("Not a directory: ", dir_path));
        }
        let ghost v = self.contents();
        let mut steps: Vec<ZStep> = Vec::new();
        let mut stack: Vec<(usize, String, usize)> = Vec::new();
        stack.push((i, dest_path.to_owned(), self.nodes.len()));
        let ghost goal = walked(
            v,
            seq![Task { node: i as int, dest: dest_path@, levels: v.nodes.len() as int }],
        );
        assert(task_views(stack@) =~= seq![
            Task { node: i as int, dest: dest_path@, levels: v.nodes.len() as int },
        ]);
        assert(step_views(steps@) + goal =~= goal);
        while stack.len() > 0
            invariant
                forall|j: int| 0 <= j < stack@.len() ==> (#[trigger] stack@[j]).0 < self.nodes@.len(),
                step_views(steps@) + walked(v, task_views(stack@)) == goal,
            decreases total_cost(v, task_views(stack@)),
        {
            let ghost tasks = task_views(stack@);
            let ghost s0 = stack@;
            let (node, dest, levels) = stack.pop().unwrap();
            assert(s0.last().0 == node);
            assert(task_views(stack@) =~= tasks.drop_last());
            assert(tasks.last() == Task { node: node as int, dest: dest@, levels: levels as int });
            if levels > 0 {
                let ghost before = step_views(steps@);
                let ghost (start, end) = kids(v.nodes, node as int);
                let ghost below = level_tasks(v, dest@, start, end, levels - 1);
                proof {
                    lemma_level_cost(v, dest@, start, end, levels - 1);
                    lemma_total_cost(v, tasks.drop_last(), below);
                }
                self.enter(node, dest.as_str(), levels, &mut steps, &mut stack);
                proof {
                    let here = level_steps(v, dest@, start, end);
                    let rest = walked(v, task_views(stack@));
                    assert(before + (here + rest) =~= (before + here) + rest);
                }
            }
        }
        assert(task_views(stack@) =~= seq![]);
        assert(step_views(steps@) + seq![] =~= step_views(steps@));
        Ok(steps)
    }
}

// ── Where an extraction writes ──────────────────────────────────────────────

/// Where a step of an extraction writes.
pub open spec fn step_dest(s: ZStepView) -> Seq<char> {
    match s {
        ZStepView::Dir { dest } => dest,
        ZStepView::File { dest, .. } => dest,
    }
}

/// Whether each directory that is still to be walked over is `root` or below it.
pub open spec fn tasks_at(root: Seq<char>, tasks: Seq<Task>) -> bool {
    forall|i: int|
        0 <= i < tasks.len() ==> (#[trigger] tasks[i]).dest == root || extract::is_below(
            root,
            tasks[i].dest,
        )
}

/// Whether each step of an extraction writes below `root`.
pub open spec fn steps_below(root: Seq<char>, steps: Seq<ZStepView>) -> bool {
    forall|i: int| 0 <= i < steps.len() ==> extract::is_below(root, step_dest(#[trigger] steps[i]))
}

proof fn lemma_level_below(
    v: ZView,
    root: Seq<char>,
    dest: Seq<char>,
    k: int,
    end: int,
    levels: int,
)
    requires
        dest == root || extract::is_below(root, dest),
    ensures
        steps_below(root, level_steps(v, dest, k, end)),
        tasks_at(root, level_tasks(v, dest, k, end, levels)),
    decreases end - k,
{
    if k < end {
        lemma_level_below(v, root, dest, k + 1, end, levels);
        extract::lemma_entry_below(root, dest, name_at(v.names, name_offset_of(v.nodes[k]) as int));
        let rest = level_steps(v, dest, k + 1, end);
        let steps = level_steps(v, dest, k, end);
        assert forall|i: int| 0 <= i < steps.len() implies extract::is_below(
            root,
            step_dest(#[trigger] steps[i]),
        ) by {
            if i > 0 {
                assert(steps[i] == rest[i - 1]);
            }
        }
        let more = level_tasks(v, dest, k + 1, end, levels);
        let tasks = level_tasks(v, dest, k, end, levels);
        assert forall|i: int| 0 <= i < tasks.len() implies (#[trigger] tasks[i]).dest == root
            || extract::is_below(root, tasks[i].dest) by {
            if v.nodes[k] is Dir {
                if i > 0 {
                    assert(tasks[i] == more[i - 1]);
                }
            } else {
                assert(tasks[i] == more[i]);
            }
        }
    }
}

proof fn lemma_walk_below(v: ZView, root: Seq<char>, tasks: Seq<Task>)
    requires
        tasks_at(root, tasks),
    ensures
        steps_below(root, walked(v, tasks)),
    decreases total_cost(v, tasks),
{
    if tasks.len() > 0 {
        let t = tasks.last();
        let rest = tasks.drop_last();
        assert(tasks[tasks.len() - 1] == t);
        assert(tasks_at(root, rest)) by {
            assert forall|i: int| 0 <= i < rest.len() implies (#[trigger] rest[i]).dest == root
                || extract::is_below(root, rest[i].dest) by {
                assert(rest[i] == tasks[i]);
            }
        }
        if t.levels <= 0 {
            lemma_walk_below(v, root, rest);
        } else {
            let (start, end) = kids(v.nodes, t.node);
            let below = level_tasks(v, t.dest, start, end, t.levels - 1);
            lemma_level_cost(v, t.dest, start, end, t.levels - 1);
            lemma_total_cost(v, rest, below);
            lemma_level_below(v, root, t.dest, start, end, t.levels - 1);
            let next = rest + below;
            assert forall|i: int| 0 <= i < next.len() implies (#[trigger] next[i]).dest == root
                || extract::is_below(root, next[i].dest) by {
                if i < rest.len() {
                    assert(next[i] == rest[i]);
                } else {
                    assert(next[i] == below[i - rest.len()]);
                }
            }
            lemma_walk_below(v, root, next);
            let first = level_steps(v, t.dest, start, end);
            let then = walked(v, next);
            let all = walked(v, tasks);
            assert(all == first + then);
            assert forall|i: int| 0 <= i < all.len() implies extract::is_below(
                root,
                step_dest(#[trigger] all[i]),
            ) by {
                if i < first.len() {
                    assert(all[i] == first[i]);
                } else {
                    assert(all[i] == then[i - first.len()]);
                }
            }
        }
    }
}

/// Whatever names an archive holds, everything that is extracted from it is
/// written below the destination.
pub proof fn steps_stay_below_the_destination(v: ZView, path: Seq<char>, dest: Seq<char>)
    ensures
        extraction_answer(v, path, dest) matches Ok(steps) ==> steps_below(dest, steps),
{
    if let Some(i) = node_named(v, path) {
        lemma_walk_below(v, dest, seq![Task { node: i, dest, levels: v.nodes.len() as int }]);
    }
}

/// A file that is read is as long as a listing says, unless that shows the largest
/// value that it can.
pub proof fn a_file_is_as_long_as_its_entry(reads: Reads, v: ZView, at: int, n: int)
    requires
        source::exact(reads),
        0 <= at,
        0 <= n,
    ensures
        range_of(reads, v, at, n) matches Ok(b) ==> b.len() == n,
    decreases n,
{
    if n > 0 {
        let intra = at % 65_536;
        let m = if n < 65_536 - intra {
            n
        } else {
            65_536 - intra
        };
        a_file_is_as_long_as_its_entry(reads, v, at + m, n - m);
        if let Ok(b) = block_of(reads, v, at / 65_536) {
            assert(b.len() == 65_536);
        }
    }
}

/// The blocks of a record stand one after the other from its offset on, each as long as its
/// size says: one of 65536 bytes is stored as it is, another as what decompresses to it.
pub proof fn blocks_stand_one_after_the_other(
    image: Seq<u8>,
    v: ZView,
    rec: int,
    stored: Seq<Seq<u8>>,
    starts: Seq<int>,
    k: int,
)
    requires
        image.len() <= u64::MAX,
        0 <= rec < v.records.len(),
        v.records[rec].sizes.len() == 16,
        stored.len() == 16,
        starts.len() == 16,
        0 <= v.data_offset,
        starts[0] == v.records[rec].offset,
        forall|i: int| 0 <= i < 15 ==> #[trigger] starts[i + 1] == starts[i] + stored[i].len(),
        forall|i: int|
            0 <= i < 16 ==> (#[trigger] stored[i]).len() == v.records[rec].sizes[i] + 1 && starts[i]
                + stored[i].len() <= v.data_len && bytes::has_at(
                image,
                v.data_offset + starts[i],
                stored[i],
            ),
        0 <= k < 16,
    ensures
        stored[k].len() == 65536 ==> block_of(source::reads_of(image), v, 16 * rec + k) == Ok::<
            Seq<u8>,
            Seq<char>,
        >(stored[k]),
        stored[k].len() < 65536 ==> (codec::zstd_filled(stored[k], 65536) matches Ok(b) ==> b.len()
            == 65536 ==> block_of(source::reads_of(image), v, 16 * rec + k) == Ok::<
            Seq<u8>,
            Seq<char>,
        >(b)),
{
    let sizes = v.records[rec].sizes;
    assert forall|i: int| 0 <= i < 16 implies #[trigger] stored[i].len() == sizes[i] + 1 by {}
    lemma_starts(sizes, stored, starts, k);
    assert(stored[k].len() == sizes[k] + 1);
    let block = 16 * rec + k;
    assert(block / 16 == rec && block % 16 == k);
    assert(v.records[rec].offset + stored_before(sizes, k) == starts[k]);
}

proof fn lemma_starts(sizes: Seq<u16>, stored: Seq<Seq<u8>>, starts: Seq<int>, k: int)
    requires
        0 <= k < 16,
        sizes.len() == 16,
        stored.len() == 16,
        starts.len() == 16,
        forall|i: int| 0 <= i < 15 ==> #[trigger] starts[i + 1] == starts[i] + stored[i].len(),
        forall|i: int| 0 <= i < 16 ==> #[trigger] stored[i].len() == sizes[i] + 1,
    ensures
        starts[k] == starts[0] + stored_before(sizes, k),
    decreases k,
{
    if k > 0 {
        lemma_starts(sizes, stored, starts, k - 1);
        assert(starts[(k - 1) + 1] == starts[k - 1] + stored[k - 1].len());
        assert(stored[k - 1].len() == sizes[k - 1] + 1);
    }
}

/// A stretch of data is made of the blocks of 65536 bytes that hold it, one after the other.
pub proof fn data_are_made_of_their_blocks(
    reads: Reads,
    v: ZView,
    plain: Seq<Seq<u8>>,
    at: int,
    n: int,
)
    requires
        0 <= at,
        0 <= n,
        at + n <= 65536 * plain.len(),
        forall|k: int|
            0 <= k < plain.len() ==> (#[trigger] plain[k]).len() == 65536 && block_of(reads, v, k)
                == Ok::<Seq<u8>, Seq<char>>(plain[k]),
    ensures
        range_of(reads, v, at, n) == Ok::<Seq<u8>, Seq<char>>(
            source::end_to_end(plain, 65536).subrange(at, at + n),
        ),
    decreases n,
{
    let all = source::end_to_end(plain, 65536);
    if n > 0 {
        let k = at / 65536;
        let intra = at % 65536;
        let m = if n < 65536 - intra {
            n
        } else {
            65536 - intra
        };
        assert(plain[k].len() == 65536);
        data_are_made_of_their_blocks(reads, v, plain, at + m, n - m);
        let head = plain[k].subrange(intra, intra + m);
        let tail = all.subrange(at + m, at + n);
        assert forall|j: int| 0 <= j < n implies (head + tail)[j] == #[trigger] all.subrange(
            at,
            at + n,
        )[j] by {
            if j < m {
                source::lemma_within_part(k, 65536, intra + j);
            }
        }
        assert(head + tail =~= all.subrange(at, at + n));
    } else {
        assert(all.subrange(at, at) =~= seq![]);
    }
}

/// A node of a file holds the place of its name, its offset and its size, of 48 bits each,
/// as they were written; one of a directory holds the first of its children and their number.
pub proof fn a_node_holds_what_was_written(
    t: Seq<u8>,
    i: int,
    name: int,
    low_a: int,
    low_b: int,
    high_b: int,
    high_a: int,
)
    requires
        0 <= i,
        16 * i + 16 <= t.len(),
        0 <= name < 0x8000_0000,
        0 <= low_a <= 0xFFFF_FFFF,
        0 <= low_b <= 0xFFFF_FFFF,
        0 <= high_a <= 0xFFFF,
        0 <= high_b <= 0xFFFF,
        bytes::has_at(t, 16 * i + 4, bytes::be_bytes(low_a, 4)),
        bytes::has_at(t, 16 * i + 8, bytes::be_bytes(low_b, 4)),
        bytes::has_at(t, 16 * i + 12, bytes::be_bytes(high_b, 2)),
        bytes::has_at(t, 16 * i + 14, bytes::be_bytes(high_a, 2)),
    ensures
        i < nodes_of(t).len(),
        bytes::has_at(t, 16 * i, bytes::be_bytes(0x8000_0000 + name, 4)) ==> nodes_of(t)[i]
            == (Node::File {
            name_offset: name as u32,
            offset: (low_a + 0x1_0000_0000 * high_a) as u64,
            size: (low_b + 0x1_0000_0000 * high_b) as u64,
        }),
        bytes::has_at(t, 16 * i, bytes::be_bytes(name, 4)) ==> nodes_of(t)[i] == (Node::Dir {
            name_offset: name as u32,
            start: low_a as u32,
            count: low_b as u32,
        }),
{
    bytes::fields_hold_what_was_written(t, 16 * i, 0x8000_0000 + name);
    bytes::fields_hold_what_was_written(t, 16 * i, name);
    bytes::fields_hold_what_was_written(t, 16 * i + 4, low_a);
    bytes::fields_hold_what_was_written(t, 16 * i + 8, low_b);
    bytes::fields_hold_what_was_written(t, 16 * i + 12, high_b);
    bytes::fields_hold_what_was_written(t, 16 * i + 14, high_a);
}

/// An offset record holds the place of its first block and the lengths of its sixteen blocks,
/// less one, as they were written in its 40 bytes.
pub proof fn a_record_holds_what_was_written(t: Seq<u8>, i: int, offset: int, k: int, size: int)
    requires
        0 <= i,
        40 * i + 40 <= t.len(),
        0 <= offset <= u64::MAX,
        0 <= k < 16,
        0 <= size <= 0xFFFF,
        bytes::has_at(t, 40 * i, bytes::be_bytes(offset, 8)),
        bytes::has_at(t, 40 * i + 8 + 2 * k, bytes::be_bytes(size, 2)),
    ensures
        record_at(t, i).offset == offset,
        record_at(t, i).sizes.len() == 16,
        record_at(t, i).sizes[k] == size,
{
    bytes::fields_hold_what_was_written(t, 40 * i, offset);
    bytes::fields_hold_what_was_written(t, 40 * i + 8 + 2 * k, size);
}

/// A name stands behind its length, of one byte or of two.
pub proof fn a_name_stands_behind_its_length(names: Seq<u8>, at: int, name: Seq<u8>)
    requires
        0 <= at < names.len(),
    ensures
        name.len() < 128 && names[at] == name.len() && bytes::has_at(names, at + 1, name)
            ==> name_at(names, at) == text::utf8_text(name),
        at + 1 < names.len() && names[at] >= 128 && names[at] - 128 + 128 * names[at + 1]
            == name.len() && bytes::has_at(names, at + 2, name) ==> name_at(names, at)
            == text::utf8_text(name),
{
    if bytes::has_at(names, at + 1, name) {
        assert(names.subrange(at + 1, at + 1 + name.len()) == name);
    }
}

/// The footer tells, for each section in turn, where it starts and how long it is: the data,
/// the offset records, the names and the tree.
pub proof fn the_footer_names_the_sections(
    image: Seq<u8>,
    data: (int, int),
    rec: (int, int),
    names: (int, int),
    tree: (int, int),
    v: ZView,
)
    requires
        144 <= image.len(),
        zarchive_opened(source::reads_of(image), image.len() as int) == Ok::<ZView, Seq<char>>(v),
        ({
            let f = image.skip(image.len() - 144);
            &&& bytes::has_at(f, 0, bytes::be_bytes(data.0, 8) + bytes::be_bytes(data.1, 8))
            &&& bytes::has_at(f, 16, bytes::be_bytes(rec.0, 8) + bytes::be_bytes(rec.1, 8))
            &&& bytes::has_at(f, 32, bytes::be_bytes(names.0, 8) + bytes::be_bytes(names.1, 8))
            &&& bytes::has_at(f, 48, bytes::be_bytes(tree.0, 8) + bytes::be_bytes(tree.1, 8))
        }),
        0 <= data.0 <= u64::MAX,
        0 <= data.1 <= u64::MAX,
        0 <= rec.0 <= u64::MAX,
        0 <= rec.1 <= u64::MAX,
        0 <= names.0 <= u64::MAX,
        0 <= names.1 <= u64::MAX,
        0 <= tree.0 <= u64::MAX,
        0 <= tree.1 <= u64::MAX,
    ensures
        (v.data_offset, v.data_len) == data,
        v.names == image.subrange(names.0, names.0 + names.1),
        16 * v.nodes.len() == tree.1,
        40 * v.records.len() == rec.1,
        forall|i: int|
            0 <= i < v.nodes.len() ==> #[trigger] v.nodes[i] == node_at(
                image.subrange(tree.0, tree.0 + tree.1),
                i,
            ),
        forall|i: int|
            0 <= i < v.records.len() ==> #[trigger] v.records[i] == record_at(
                image.subrange(rec.0, rec.0 + rec.1),
                i,
            ),
{
    let len = image.len() as int;
    let f = image.subrange(len - 144, len);
    assert(f =~= image.skip(len - 144));
    lemma_pair(f, 0, data);
    lemma_pair(f, 16, rec);
    lemma_pair(f, 32, names);
    lemma_pair(f, 48, tree);
}

proof fn lemma_pair(f: Seq<u8>, at: int, p: (int, int))
    requires
        bytes::has_at(f, at, bytes::be_bytes(p.0, 8) + bytes::be_bytes(p.1, 8)),
        0 <= p.0 <= u64::MAX,
        0 <= p.1 <= u64::MAX,
    ensures
        bytes::be64_at(f, at) == p.0,
        bytes::be64_at(f, at + 8) == p.1,
{
    let a = bytes::be_bytes(p.0, 8);
    let b = bytes::be_bytes(p.1, 8);
    bytes::lemma_notation_len(p.0, 8);
    bytes::lemma_notation_len(p.1, 8);
    assert((a + b).subrange(0, 8) =~= a);
    assert((a + b).subrange(8, 16) =~= b);
    bytes::lemma_has_in_part(f, at, a + b, 0, a);
    bytes::lemma_has_in_part(f, at, a + b, 8, b);
    bytes::fields_hold_what_was_written(f, at, p.0);
    bytes::fields_hold_what_was_written(f, at + 8, p.1);
}

/// A file one directory down is found by its path, whatever the case of its letters: the nodes of
/// a directory are those that its own tells, and the file's bytes are the stretch that its node
/// tells.
pub proof fn a_file_is_found_by_its_path(
    reads: Reads,
    v: ZView,
    a: Seq<char>,
    b: Seq<char>,
    i: int,
    j: int,
    root: (u32, u32),
    dir: (u32, u32),
    offset: int,
    size: int,
)
    requires
        a.len() > 0 && !a.contains('/'),
        b.len() > 0 && !b.contains('/'),
        v.nodes.len() > 0,
        v.nodes[0] matches Node::Dir { start, count, .. } && start == root.0 && count == root.1,
        root.0 <= i < root.0 + root.1 <= v.nodes.len(),
        text::alike(name_at(v.names, name_offset_of(v.nodes[i]) as int), a),
        forall|m: int|
            root.0 <= m < i ==> !text::alike(
                name_at(v.names, name_offset_of(#[trigger] v.nodes[m]) as int),
                a,
            ),
        v.nodes[i] matches Node::Dir { start, count, .. } && start == dir.0 && count == dir.1,
        dir.0 <= j < dir.0 + dir.1 <= v.nodes.len(),
        text::alike(name_at(v.names, name_offset_of(v.nodes[j]) as int), b),
        forall|m: int|
            dir.0 <= m < j ==> !text::alike(
                name_at(v.names, name_offset_of(#[trigger] v.nodes[m]) as int),
                b,
            ),
        v.nodes[j] matches Node::File { offset: o, size: s, .. } && o == offset && s == size,
    ensures
        file_answer(reads, v, seq!['/'] + a + seq!['/'] + b) == range_of(reads, v, offset, size),
{
    text::names_stand_between_slashes(a, b);
    let parts = seq![a, b];
    assert(parts[0] == a && parts[1] == b);
    lemma_first_child(v, root.0 as int, root.0 + root.1, i, a);
    lemma_first_child(v, dir.0 as int, dir.0 + dir.1, j, b);
    assert(kids(v.nodes, 0) == (root.0 as int, root.0 + root.1));
    assert(kids(v.nodes, i) == (dir.0 as int, dir.0 + dir.1));
    reveal_with_fuel(resolved, 3);
    assert(node_named(v, seq!['/'] + a + seq!['/'] + b) == Some(j));
}

/// The first node of a name is the one that is found.
proof fn lemma_first_child(v: ZView, k: int, end: int, i: int, name: Seq<char>)
    requires
        0 <= k <= i < end <= v.nodes.len(),
        text::alike(name_at(v.names, name_offset_of(v.nodes[i]) as int), name),
        forall|m: int|
            k <= m < i ==> !text::alike(
                name_at(v.names, name_offset_of(#[trigger] v.nodes[m]) as int),
                name,
            ),
    ensures
        child_named(v, k, end, name) == Some(i),
    decreases i - k,
{
    if k < i {
        let n = v.nodes[k];
        lemma_first_child(v, k + 1, end, i, name);
    }
}

} // verus!
