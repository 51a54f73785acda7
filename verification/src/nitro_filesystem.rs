//! The Nitro file system inside a Nintendo DS ROM.
use vstd::prelude::*;
use vstd::slice::*;
use crate::bytes;
use crate::bytes::{find_byte_from, read_u16_le, read_u32_le};
use crate::entry;
use crate::entry::{dir_entry, file_entry, DiscEntry, EntryView};
use crate::extract;
use crate::numbers;
use crate::numbers::decimal_string;
use crate::path;
use crate::sanitize;
use crate::sanitize::sanitize_component;
use crate::source;
use crate::source::{read_labelled, ByteSource, Reads};
use crate::text;
use crate::text::{
    chars_of,
    cut_chars,
    eq_ignore_case,
    from_utf8_lossy,
    join2,
    join3,
    segments,
    string_of,
    trim,
    trim_start_of,
};

verus! {

pub const ROOT_DIR_ID: u16 = 0xF000;

/// The number of directory identifiers.
pub const ID_COUNT: usize = 0x1_0000;

/// A directory: its name, its parent, its files with their identifiers, and the
/// identifiers of the directories in it.
pub struct DirNode {
    pub name: String,
    pub parent: u16,
    pub files: Vec<(String, u16)>,
    pub subdirs: Vec<u16>,
}

/// The contents of a `DirNode`.
#[verifier::ext_equal]
pub struct NodeView {
    pub name: Seq<char>,
    pub parent: u16,
    pub files: Seq<(Seq<char>, u16)>,
    pub subdirs: Seq<u16>,
}

/// The contents of a list of files.
pub open spec fn files_of(v: Seq<(String, u16)>) -> Seq<(Seq<char>, u16)> {
    Seq::new(v.len(), |i: int| (v[i].0@, v[i].1))
}

impl View for DirNode {
    type V = NodeView;

    open spec fn view(&self) -> NodeView {
        NodeView {
            name: self.name@,
            parent: self.parent,
            files: files_of(self.files@),
            subdirs: self.subdirs@,
        }
    }
}

/// The directories by their identifiers.
pub open spec fn nodes_of(v: Seq<Option<DirNode>>) -> Seq<Option<NodeView>> {
    Seq::new(
        v.len(),
        |i: int|
            match v[i] {
                Some(n) => Some(n@),
                None => None,
            },
    )
}

/// The file system of a ROM.
pub struct NitroFs<S> {
    pub source: S,
    pub title: String,
    pub game_code: String,
    /// The directories, each at the index that is its identifier.
    pub dirs: Vec<Option<DirNode>>,
    /// The start and the end of each file.
    pub fat: Vec<(u32, u32)>,
}

/// The contents of a ROM's header and tables.
#[verifier::ext_equal]
pub struct NitroView {
    pub title: Seq<char>,
    pub game_code: Seq<char>,
    pub dirs: Seq<Option<NodeView>>,
    pub fat: Seq<(u32, u32)>,
}

impl<S> NitroFs<S> {
    pub open spec fn contents(&self) -> NitroView {
        NitroView {
            title: self.title@,
            game_code: self.game_code@,
            dirs: nodes_of(self.dirs@),
            fat: self.fat@,
        }
    }

    /// Every directory identifier has a place.
    pub open spec fn wf(&self) -> bool {
        self.dirs@.len() == ID_COUNT
    }
}

// ── Tables ──────────────────────────────────────────────────────────────────

/// The text of a field up to its first NUL, without the white space around it.
pub open spec fn field_text(b: Seq<u8>) -> Seq<char> {
    text::trimmed(text::utf8_text(b.take(bytes::find_byte(b, 0, 0))))
}

/// The text of a field up to its first NUL.
pub fn trim_nul(b: &[u8]) -> (r: String)
    ensures
        r@ == field_text(b@),
{
    let end: usize = find_byte_from(b, 0, 0);
    assert(b@.subrange(0, end as int) =~= b@.take(end as int));
    let t: String = from_utf8_lossy(slice_subrange(b, 0, end));
    let c: Vec<char> = chars_of(t.as_str());
    let c: Vec<char> = trim(c.as_slice());
    string_of(c.as_slice())
}

/// The start and end pairs that a file table holds.
pub open spec fn fat_of(raw: Seq<u8>) -> Seq<(u32, u32)> {
    Seq::new(
        raw.len() / 8,
        |i: int| (bytes::le32_at(raw, 8 * i) as u32, bytes::le32_at(raw, 8 * i + 4) as u32),
    )
}

/// What a name table collects: the directories met so far, and the files and
/// directories of the one it belongs to.
#[verifier::ext_equal]
pub struct Names {
    pub dirs: Seq<Option<NodeView>>,
    pub files: Seq<(Seq<char>, u16)>,
    pub subdirs: Seq<u16>,
}

/// The directories with the name of `child`, met in the directory `id`.
pub open spec fn with_child(
    dirs: Seq<Option<NodeView>>,
    child: u16,
    id: u16,
    name: Seq<char>,
) -> Seq<Option<NodeView>> {
    dirs.update(
        child as int,
        Some(
            match dirs[child as int] {
                Some(n) => NodeView { name, parent: n.parent, files: n.files, subdirs: n.subdirs },
                None => NodeView { name, parent: id, files: seq![], subdirs: seq![] },
            },
        ),
    )
}

/// What the name table of directory `id` from `p` on adds, its next file having
/// the identifier `file_id`. A zero byte ends it, and so does a record that
/// runs past the table's end.
pub open spec fn with_names(fnt: Seq<u8>, p: int, file_id: u16, id: u16, s: Names) -> Names
    decreases fnt.len() - p,
{
    let kind = fnt[p];
    let after = p + 1 + kind % 128;
    let name = text::utf8_text(fnt.subrange(p + 1, after));
    if p < 0 || p >= fnt.len() || kind == 0 || after > fnt.len() {
        s
    } else if kind < 128 {
        with_names(
            fnt,
            after,
            ((file_id + 1) % 0x1_0000) as u16,
            id,
            Names { dirs: s.dirs, files: s.files.push((name, file_id)), subdirs: s.subdirs },
        )
    } else if after + 2 > fnt.len() {
        s
    } else {
        let child = bytes::le16_at(fnt, after) as u16;
        with_names(
            fnt,
            after + 2,
            file_id,
            id,
            Names {
                dirs: with_child(s.dirs, child, id, name),
                files: s.files,
                subdirs: s.subdirs.push(child),
            },
        )
    }
}

/// The directories with directory `i` of the table, whose name comes from the
/// directory that holds it.
pub open spec fn with_dir(fnt: Seq<u8>, i: int, dirs: Seq<Option<NodeView>>) -> Seq<
    Option<NodeView>,
> {
    let id = (ROOT_DIR_ID + i) as u16;
    let n = with_names(
        fnt,
        bytes::le32_at(fnt, 8 * i),
        bytes::le16_at(fnt, 8 * i + 4) as u16,
        id,
        Names { dirs, files: seq![], subdirs: seq![] },
    );
    n.dirs.update(
        id as int,
        Some(
            NodeView {
                name: match n.dirs[id as int] {
                    Some(x) => x.name,
                    None => seq![],
                },
                parent: bytes::le16_at(fnt, 8 * i + 6) as u16,
                files: n.files,
                subdirs: n.subdirs,
            },
        ),
    )
}

/// The first `n` directories of the table.
pub open spec fn dirs_of(fnt: Seq<u8>, n: int) -> Seq<Option<NodeView>>
    decreases n,
{
    if n <= 0 {
        Seq::new(ID_COUNT as nat, |i: int| None)
    } else {
        with_dir(fnt, n - 1, dirs_of(fnt, n - 1))
    }
}

/// The number of directories in the table: the root's parent field holds it,
/// and the table limits it.
pub open spec fn dir_count(fnt: Seq<u8>) -> int {
    let given = bytes::le16_at(fnt, 6);
    let n = if given < 1 {
        1
    } else if given > 0x1000 {
        0x1000
    } else {
        given
    };
    if n > fnt.len() / 8 {
        fnt.len() as int / 8
    } else {
        n
    }
}

/// The file system of a ROM of `len` bytes, or the reason why there is none.
pub open spec fn nitro_index(reads: Reads, len: int) -> Result<NitroView, Seq<char>> {
    match source::labelled(reads(0, 0x160), "ROM header: "@) {
        Err(e) => Err(e),
        Ok(head) => {
            let fnt_at = bytes::le32_at(head, 0x40);
            let fnt_size = bytes::le32_at(head, 0x44);
            let fat_at = bytes::le32_at(head, 0x48);
            let fat_size = bytes::le32_at(head, 0x4C);
            if fnt_size < 8 || fat_size < 8 || fat_size % 8 != 0 {
                Err("Not a DS ROM (filesystem tables are missing or malformed)"@)
            } else if fnt_at + fnt_size > len || fat_at + fat_size > len {
                Err("DS ROM: filesystem tables run past the end of the file"@)
            } else {
                match source::labelled(reads(fnt_at, fnt_size), "ROM FNT: "@) {
                    Err(e) => Err(e),
                    Ok(fnt) => match source::labelled(reads(fat_at, fat_size), "ROM FAT: "@) {
                        Err(e) => Err(e),
                        Ok(fat) => Ok(
                            NitroView {
                                title: field_text(head.subrange(0, 0x0C)),
                                game_code: field_text(head.subrange(0x0C, 0x10)),
                                dirs: dirs_of(fnt, dir_count(fnt)),
                                fat: fat_of(fat),
                            },
                        ),
                    },
                }
            }
        },
    }
}

/// Whether the header of a source of `len` bytes is that of a DS ROM: it holds the
/// checksum of the boot logo, and tables inside the file.
pub open spec fn nds_marked(reads: Reads, len: int) -> bool {
    match reads(0, 0x160) {
        Err(_) => false,
        Ok(h) => {
            &&& bytes::le16_at(h, 0x15C) == 0x9E1A
            &&& bytes::le32_at(h, 0x40) >= 0x160
            &&& bytes::le32_at(h, 0x48) >= 0x160
            &&& bytes::le32_at(h, 0x40) + bytes::le32_at(h, 0x44) <= len
            &&& bytes::le32_at(h, 0x48) + bytes::le32_at(h, 0x4C) <= len
            &&& bytes::le32_at(h, 0x4C) % 8 == 0
            &&& bytes::le32_at(h, 0x4C) > 0
        },
    }
}

/// Whether a source of `len` bytes is a DS ROM.
pub fn is_nds_rom<S: ByteSource>(source: &mut S, len: u64) -> (r: bool)
    ensures
        final(source).reads() == old(source).reads(),
        r == nds_marked(old(source).reads(), len as int),
{
    match source.read_exact_at(0, 0x160) {
        Err(_) => false,
        Ok(b) => {
            let h: &[u8] = b.as_slice();
            let fnt: u64 = read_u32_le(h, 0x40) as u64;
            let fnt_size: u64 = read_u32_le(h, 0x44) as u64;
            let fat: u64 = read_u32_le(h, 0x48) as u64;
            let fat_size: u64 = read_u32_le(h, 0x4C) as u64;
            read_u16_le(h, 0x15C) == 0x9E1A && fnt >= 0x160 && fat >= 0x160 && fnt + fnt_size <= len
                && fat + fat_size <= len && fat_size % 8 == 0 && fat_size > 0
        },
    }
}

/// Reads the start and end pairs of a file table.
fn read_fat(raw: &[u8]) -> (r: Vec<(u32, u32)>)
    ensures
        r@ == fat_of(raw@),
{
    let n: usize = raw.len() / 8;
    let mut r: Vec<(u32, u32)> = Vec::new();
    let mut i: usize = 0;
    while i < n
        invariant
            n == raw@.len() / 8,
            i <= n,
            r@ == fat_of(raw@).take(i as int),
        decreases n - i,
    {
        assert(8 * i + 8 <= raw.len());
        r.push((read_u32_le(raw, 8 * i), read_u32_le(raw, 8 * i + 4)));
        assert(r@ =~= fat_of(raw@).take(i + 1));
        i += 1;
    }
    assert(fat_of(raw@).take(n as int) =~= fat_of(raw@));
    r
}

/// Gives directory `child`, met in the directory `id`, its name.
fn name_child(dirs: &mut Vec<Option<DirNode>>, child: u16, id: u16, name: String)
    requires
        old(dirs)@.len() == ID_COUNT,
    ensures
        final(dirs)@.len() == ID_COUNT,
        nodes_of(final(dirs)@) == with_child(nodes_of(old(dirs)@), child, id, name@),
{
    let mut slot: Option<DirNode> = None;
    let at: usize = child as usize;
    std::mem::swap(&mut slot, &mut dirs[at]);
    let node: DirNode = match slot {
        Some(n) => DirNode { name, parent: n.parent, files: n.files, subdirs: n.subdirs },
        None => DirNode { name, parent: id, files: Vec::new(), subdirs: Vec::new() },
    };
    proof {
        assert(nodes_of(old(dirs)@)[at as int] == (match old(dirs)@[at as int] {
            Some(n) => Some(n@),
            None => None,
        }));
        if old(dirs)@[at as int] is None {
            assert(node@.files =~= seq![]);
            assert(node@.subdirs =~= seq![]);
        }
    }
    dirs[at] = Some(node);
    assert(nodes_of(dirs@) =~= with_child(nodes_of(old(dirs)@), child, id, name@));
}

/// Adds directory `i` of the table.
fn add_dir(fnt: &[u8], i: usize, dirs: &mut Vec<Option<DirNode>>)
    requires
        8 * i + 8 <= fnt@.len(),
        i < 0x1000,
        old(dirs)@.len() == ID_COUNT,
    ensures
        final(dirs)@.len() == ID_COUNT,
        nodes_of(final(dirs)@) == with_dir(fnt@, i as int, nodes_of(old(dirs)@)),
{
    let n: usize = fnt.len();
    let id: u16 = ROOT_DIR_ID + i as u16;
    let start: usize = read_u32_le(fnt, 8 * i) as usize;
    let mut file_id: u16 = read_u16_le(fnt, 8 * i + 4);
    let parent: u16 = read_u16_le(fnt, 8 * i + 6);
    let mut files: Vec<(String, u16)> = Vec::new();
    let mut subdirs: Vec<u16> = Vec::new();
    let ghost goal = with_names(
        fnt@,
        start as int,
        file_id,
        id,
        Names { dirs: nodes_of(dirs@), files: seq![], subdirs: seq![] },
    );
    let mut p: usize = start;
    assert(files_of(files@) =~= seq![]);
    assert(subdirs@ =~= seq![]);
    while p < n
        invariant
            n == fnt@.len(),
            dirs@.len() == ID_COUNT,
            goal == with_names(
                fnt@,
                p as int,
                file_id,
                id,
                Names { dirs: nodes_of(dirs@), files: files_of(files@), subdirs: subdirs@ },
            ),
        ensures
            dirs@.len() == ID_COUNT,
            goal == (Names {
                dirs: nodes_of(dirs@),
                files: files_of(files@),
                subdirs: subdirs@,
            }),
        decreases n - p,
    {
        let kind: u8 = fnt[p];
        if kind == 0 {
            break;
        }
        let len: usize = (kind % 128) as usize;
        if len > n - p - 1 {
            break;
        }
        let after: usize = p + 1 + len;
        let name: String = from_utf8_lossy(slice_subrange(fnt, p + 1, after));
        if kind < 128 {
            let ghost before = files@;
            files.push((name, file_id));
            assert(files_of(files@) =~= files_of(before).push((name@, file_id)));
            let next: u16 = file_id.wrapping_add(1);
            assert(next == (file_id + 1) % 0x1_0000);
            file_id = next;
            p = after;
        } else {
            if n - after < 2 {
                break;
            }
            let child: u16 = read_u16_le(fnt, after);
            subdirs.push(child);
            name_child(dirs, child, id, name);
            p = after + 2;
        }
    }
    let mut slot: Option<DirNode> = None;
    let at: usize = id as usize;
    let ghost met = dirs@;
    std::mem::swap(&mut slot, &mut dirs[at]);
    let name: String = match slot {
        Some(x) => x.name,
        None => {
            let e: String = String::new();
            assert(e@ =~= seq![]);
            e
        },
    };
    assert(nodes_of(met)[at as int] == (match met[at as int] {
        Some(n) => Some(n@),
        None => None,
    }));
    dirs[at] = Some(DirNode { name, parent, files, subdirs });
    assert(nodes_of(dirs@) =~= with_dir(fnt@, i as int, nodes_of(old(dirs)@)));
}

impl<S: ByteSource> NitroFs<S> {
    /// Reads the tables of a ROM of `len` bytes.
    pub fn open(source: S, len: u64) -> (r: Result<NitroFs<S>, String>)
        ensures
            match r {
                Ok(f) => nitro_index(source.reads(), len as int) == Ok::<NitroView, Seq<char>>(
                    f.contents(),
                ) && f.source.reads() == source.reads() && f.wf(),
                Err(e) => nitro_index(source.reads(), len as int) == Err::<NitroView, Seq<char>>(
                    e@,
                ),
            },
    {
        let mut source: S = source;
        let head: Vec<u8> = match read_labelled(&mut source, 0, 0x160, "ROM header: ") {
            Ok(b) => b,
            Err(e) => {
                return Err(e);
            },
        };
        let h: &[u8] = head.as_slice();
        let title: String = trim_nul(slice_subrange(h, 0, 0x0C));
        let game_code: String = trim_nul(slice_subrange(h, 0x0C, 0x10));
        let fnt_at: u64 = read_u32_le(h, 0x40) as u64;
        let fnt_size: u64 = read_u32_le(h, 0x44) as u64;
        let fat_at: u64 = read_u32_le(h, 0x48) as u64;
        let fat_size: u64 = read_u32_le(h, 0x4C) as u64;
        if fnt_size < 8 || fat_size < 8 || fat_size % 8 != 0 {
            return Err("Not a DS ROM (filesystem tables are missing or malformed)".to_owned());
        }
        if fnt_at + fnt_size > len || fat_at + fat_size > len {
            return Err("DS ROM: filesystem tables run past the end of the file".to_owned());
        }
        let table: Vec<u8> = match read_labelled(&mut source, fnt_at, fnt_size, "ROM FNT: ") {
            Ok(b) => b,
            Err(e) => {
                return Err(e);
            },
        };
        let fat_raw: Vec<u8> = match read_labelled(&mut source, fat_at, fat_size, "ROM FAT: ") {
            Ok(b) => b,
            Err(e) => {
                return Err(e);
            },
        };
        let fat: Vec<(u32, u32)> = read_fat(fat_raw.as_slice());
        let fnt: &[u8] = table.as_slice();
        let given: usize = read_u16_le(fnt, 6) as usize;
        let limited: usize = if given < 1 {
            1
        } else if given > 0x1000 {
            0x1000
        } else {
            given
        };
        let count: usize = if limited > fnt.len() / 8 {
            fnt.len() / 8
        } else {
            limited
        };
        let mut dirs: Vec<Option<DirNode>> = Vec::new();
        let mut k: usize = 0;
        while k < ID_COUNT
            invariant
                k <= ID_COUNT,
                dirs@.len() == k,
                forall|j: int| 0 <= j < k ==> dirs@[j] is None,
            decreases ID_COUNT - k,
        {
            dirs.push(None);
            k += 1;
        }
        assert(nodes_of(dirs@) =~= dirs_of(fnt@, 0));
        let mut i: usize = 0;
        while i < count
            invariant
                i <= count <= 0x1000,
                count <= fnt@.len() / 8,
                dirs@.len() == ID_COUNT,
                nodes_of(dirs@) == dirs_of(fnt@, i as int),
            decreases count - i,
        {
            add_dir(fnt, i, &mut dirs);
            i += 1;
        }
        Ok(NitroFs { source, title, game_code, dirs, fat })
    }
}

// ── Finding ─────────────────────────────────────────────────────────────────

/// The first of the directories `subdirs` from `k` on that is named `name`, the
/// case of letters aside.
pub open spec fn child_named(
    dirs: Seq<Option<NodeView>>,
    subdirs: Seq<u16>,
    k: int,
    name: Seq<char>,
) -> Option<u16>
    decreases subdirs.len() - k,
{
    if k < 0 || k >= subdirs.len() {
        None
    } else {
        match dirs[subdirs[k] as int] {
            Some(n) => if text::alike(n.name, name) {
                Some(subdirs[k])
            } else {
                child_named(dirs, subdirs, k + 1, name)
            },
            None => child_named(dirs, subdirs, k + 1, name),
        }
    }
}

/// The directory that `parts` from `k` on lead to, from the directory `id`.
pub open spec fn resolved(
    dirs: Seq<Option<NodeView>>,
    parts: Seq<Seq<char>>,
    k: int,
    id: u16,
) -> Option<u16>
    decreases parts.len() - k,
{
    if k < 0 || k >= parts.len() {
        Some(id)
    } else {
        match dirs[id as int] {
            None => None,
            Some(n) => match child_named(dirs, n.subdirs, 0, parts[k]) {
                None => None,
                Some(c) => resolved(dirs, parts, k + 1, c),
            },
        }
    }
}

/// The directory that a path names.
pub open spec fn dir_at(dirs: Seq<Option<NodeView>>, path: Seq<char>) -> Option<u16> {
    resolved(dirs, text::segments_of(path), 0, ROOT_DIR_ID)
}

/// The first of the files from `k` on that is named `name`, the case of letters
/// aside.
pub open spec fn file_named(files: Seq<(Seq<char>, u16)>, k: int, name: Seq<char>) -> Option<u16>
    decreases files.len() - k,
{
    if k < 0 || k >= files.len() {
        None
    } else if text::alike(files[k].0, name) {
        Some(files[k].1)
    } else {
        file_named(files, k + 1, name)
    }
}

/// The identifier of the file that a path names.
pub open spec fn file_at(dirs: Seq<Option<NodeView>>, path: Seq<char>) -> Option<u16> {
    match dir_at(dirs, path::dir_part(path)) {
        None => None,
        Some(id) => match dirs[id as int] {
            None => None,
            Some(n) => file_named(n.files, 0, path::name_part(path)),
        },
    }
}

/// The length of a file; none where its identifier is out of range or its end
/// comes before its start.
pub open spec fn len_of(fat: Seq<(u32, u32)>, id: u16) -> u32 {
    if id < fat.len() && fat[id as int].1 >= fat[id as int].0 {
        (fat[id as int].1 - fat[id as int].0) as u32
    } else {
        0
    }
}

/// The lines for the first `k` directories.
pub open spec fn dir_lines(dirs: Seq<Option<NodeView>>, subdirs: Seq<u16>, k: int) -> Seq<EntryView>
    decreases k,
{
    if k <= 0 {
        seq![]
    } else {
        let head = dir_lines(dirs, subdirs, k - 1);
        match dirs[subdirs[k - 1] as int] {
            Some(n) => head.push(entry::dir_line(n.name)),
            None => head,
        }
    }
}

/// The line for a file.
pub open spec fn nitro_line(fat: Seq<(u32, u32)>, f: (Seq<char>, u16)) -> EntryView {
    entry::file_line(
        f.0,
        if f.1 < fat.len() {
            (fat[f.1 as int].0 / 2048) as u32
        } else {
            0
        },
        len_of(fat, f.1),
        seq![],
    )
}

/// The answer to a listing of a directory: its directories, then its files.
pub open spec fn listing_answer(v: NitroView, path: Seq<char>) -> Result<Seq<EntryView>, Seq<char>> {
    match dir_at(v.dirs, path) {
        None => Err("Not found: "@ + path),
        Some(id) => match v.dirs[id as int] {
            None => Err("DS ROM: directory is missing"@),
            Some(n) => Ok(
                dir_lines(v.dirs, n.subdirs, n.subdirs.len() as int) + Seq::new(
                    n.files.len(),
                    |i: int| nitro_line(v.fat, n.files[i]),
                ),
            ),
        },
    }
}

/// The bytes of the file with the identifier `id`.
pub open spec fn file_bytes(reads: Reads, fat: Seq<(u32, u32)>, id: u16) -> Result<
    Seq<u8>,
    Seq<char>,
> {
    if id >= fat.len() {
        Err("DS ROM: file ID "@ + numbers::decimal(id as int) + " is out of range"@)
    } else if fat[id as int].1 < fat[id as int].0 {
        Err("DS ROM: file has a negative length"@)
    } else {
        source::labelled(
            reads(fat[id as int].0 as int, fat[id as int].1 - fat[id as int].0),
            "ROM read: "@,
        )
    }
}

/// The answer to a request for a file.
pub open spec fn file_answer(reads: Reads, v: NitroView, path: Seq<char>) -> Result<
    Seq<u8>,
    Seq<char>,
> {
    match file_at(v.dirs, text::strip_front(path, '/')) {
        None => Err("Not found: "@ + path),
        Some(id) => file_bytes(reads, v.fat, id),
    }
}

impl<S: ByteSource> NitroFs<S> {
    /// Finds the directory among `subdirs` that is named `name`.
    fn find_child(&self, subdirs: &Vec<u16>, name: &[char]) -> (r: Option<u16>)
        requires
            self.wf(),
        ensures
            r == child_named(self.contents().dirs, subdirs@, 0, name@),
    {
        let mut k: usize = 0;
        while k < subdirs.len()
            invariant
                self.wf(),
                k <= subdirs@.len(),
                child_named(self.contents().dirs, subdirs@, 0, name@) == child_named(
                    self.contents().dirs,
                    subdirs@,
                    k as int,
                    name@,
                ),
            decreases subdirs@.len() - k,
        {
            let c: u16 = subdirs[k];
            if let Some(n) = &self.dirs[c as usize] {
                let letters: Vec<char> = chars_of(n.name.as_str());
                if eq_ignore_case(letters.as_slice(), name) {
                    return Some(c);
                }
            }
            k += 1;
        }
        None
    }

    /// Finds the directory that a path names.
    pub fn resolve(&self, path: &str) -> (r: Option<u16>)
        requires
            self.wf(),
        ensures
            r == dir_at(self.contents().dirs, path@),
    {
        let parts: Vec<Vec<char>> = segments(path);
        let ghost all = text::texts(parts@);
        let mut id: u16 = ROOT_DIR_ID;
        let mut k: usize = 0;
        while k < parts.len()
            invariant
                self.wf(),
                all == text::texts(parts@),
                all == text::segments_of(path@),
                k <= parts@.len(),
                resolved(self.contents().dirs, all, 0, ROOT_DIR_ID) == resolved(
                    self.contents().dirs,
                    all,
                    k as int,
                    id,
                ),
            decreases parts@.len() - k,
        {
            assert(all[k as int] == parts@[k as int]@);
            match &self.dirs[id as usize] {
                None => {
                    return None;
                },
                Some(n) => match self.find_child(&n.subdirs, parts[k].as_slice()) {
                    None => {
                        return None;
                    },
                    Some(c) => {
                        id = c;
                    },
                },
            }
            k += 1;
        }
        Some(id)
    }

    /// Finds the identifier of the file that a path names.
    #[verifier::loop_isolation(false)]
    pub fn find_file(&self, path: &str) -> (r: Option<u16>)
        requires
            self.wf(),
        ensures
            r == file_at(self.contents().dirs, path@),
    {
        let c: Vec<char> = chars_of(path);
        let mut e: usize = c.len();
        assert(c@.take(e as int) =~= c@);
        while e > 0 && c[e - 1] != '/'
            invariant
                e <= c@.len(),
                path::last_slash(c@) == path::last_slash(c@.take(e as int)),
            decreases e,
        {
            assert(c@.take(e as int).drop_last() =~= c@.take(e - 1));
            e -= 1;
        }
        let dir: Vec<char> = if e == 0 {
            let d: Vec<char> = Vec::new();
            assert(d@ =~= seq![]);
            d
        } else {
            let d: Vec<char> = cut_chars(c.as_slice(), 0, e - 1);
            assert(d@ =~= path@.take(e - 1));
            d
        };
        let name: Vec<char> = cut_chars(c.as_slice(), e, c.len());
        assert(name@ =~= path@.skip(e as int));
        let dir_text: String = string_of(dir.as_slice());
        let id: u16 = match self.resolve(dir_text.as_str()) {
            None => {
                return None;
            },
            Some(id) => id,
        };
        match &self.dirs[id as usize] {
            None => None,
            Some(n) => {
                let ghost files = files_of(n.files@);
                let mut k: usize = 0;
                while k < n.files.len()
                    invariant
                        files == files_of(n.files@),
                        k <= n.files@.len(),
                        file_named(files, 0, name@) == file_named(files, k as int, name@),
                    decreases n.files@.len() - k,
                {
                    let letters: Vec<char> = chars_of(n.files[k].0.as_str());
                    if eq_ignore_case(letters.as_slice(), name.as_slice()) {
                        return Some(n.files[k].1);
                    }
                    k += 1;
                }
                None
            },
        }
    }

    /// Lists a directory.
    pub fn list_directory(&self, dir_path: &str) -> (r: Result<Vec<DiscEntry>, String>)
        requires
            self.wf(),
        ensures
            match r {
                Ok(v) => listing_answer(self.contents(), dir_path@) == Ok::<
                    Seq<EntryView>,
                    Seq<char>,
                >(entry::listing(v@)),
                Err(e) => listing_answer(self.contents(), dir_path@) == Err::<
                    Seq<EntryView>,
                    Seq<char>,
                >(e@),
            },
    {
        let id: u16 = match self.resolve(dir_path) {
            None => {
                return Err(join2("Not found: ", dir_path));
            },
            Some(id) => id,
        };
        let n: &DirNode = match &self.dirs[id as usize] {
            None => {
                return Err("DS ROM: directory is missing".to_owned());
            },
            Some(n) => n,
        };
        let ghost dirs = self.contents().dirs;
        let ghost v = n@;
        let mut out: Vec<DiscEntry> = Vec::new();
        let mut k: usize = 0;
        assert(entry::listing(out@) =~= dir_lines(dirs, v.subdirs, 0));
        while k < n.subdirs.len()
            invariant
                self.wf(),
                dirs == self.contents().dirs,
                v == n@,
                k <= n.subdirs@.len(),
                entry::listing(out@) == dir_lines(dirs, v.subdirs, k as int),
            decreases n.subdirs@.len() - k,
        {
            let ghost before = out@;
            if let Some(c) = &self.dirs[n.subdirs[k] as usize] {
                out.push(dir_entry(c.name.clone()));
                assert(entry::listing(out@) =~= entry::listing(before).push(
                    entry::dir_line(c.name@),
                ));
            }
            k += 1;
        }
        let ghost head = entry::listing(out@);
        let ghost lines = Seq::new(v.files.len(), |i: int| nitro_line(self.fat@, v.files[i]));
        let mut i: usize = 0;
        assert(head + lines.take(0) =~= head);
        while i < n.files.len()
            invariant
                v == n@,
                i <= n.files@.len(),
                lines == Seq::new(v.files.len(), |i: int| nitro_line(self.fat@, v.files[i])),
                entry::listing(out@) == head + lines.take(i as int),
            decreases n.files@.len() - i,
        {
            let fid: u16 = n.files[i].1;
            let at: usize = fid as usize;
            let (lba, size): (u32, u32) = if at < self.fat.len() {
                let (start, end) = self.fat[at];
                (
                    start / 2048,
                    if end >= start {
                        end - start
                    } else {
                        0
                    },
                )
            } else {
                (0, 0)
            };
            let modified: String = String::new();
            assert(modified@ =~= seq![]);
            let ghost before = out@;
            out.push(file_entry(n.files[i].0.clone(), lba, size, modified));
            assert(v.files[i as int] == (n.files@[i as int].0@, fid));
            assert(entry::listing(out@) =~= entry::listing(before).push(lines[i as int]));
            assert(head + lines.take(i + 1) =~= (head + lines.take(i as int)).push(lines[i as int]));
            i += 1;
        }
        assert(lines.take(i as int) =~= lines);
        Ok(out)
    }

    /// The bytes of the file with the identifier `file_id`.
    pub fn read_file(&mut self, file_id: u16) -> (r: Result<Vec<u8>, String>)
        ensures
            final(self).contents() == old(self).contents(),
            final(self).wf() == old(self).wf(),
            final(self).source.reads() == old(self).source.reads(),
            source::outcome(r) == file_bytes(old(self).source.reads(), old(self).fat@, file_id),
    {
        let at: usize = file_id as usize;
        if at >= self.fat.len() {
            let n: String = decimal_string(file_id as u64);
            return Err(join3("DS ROM: file ID ", n.as_str(), " is out of range"));
        }
        let (start, end) = self.fat[at];
        if end < start {
            return Err("DS ROM: file has a negative length".to_owned());
        }
        read_labelled(&mut self.source, start as u64, (end - start) as u64, "ROM read: ")
    }

    /// The bytes of the file that a request names.
    pub fn extract_file(&mut self, file_path: &str) -> (r: Result<Vec<u8>, String>)
        requires
            old(self).wf(),
        ensures
            final(self).contents() == old(self).contents(),
            final(self).wf(),
            final(self).source.reads() == old(self).source.reads(),
            source::outcome(r) == file_answer(
                old(self).source.reads(),
                old(self).contents(),
                file_path@,
            ),
    {
        let c: Vec<char> = chars_of(file_path);
        let t: Vec<char> = trim_start_of(c.as_slice(), '/');
        let path: String = string_of(t.as_slice());
        match self.find_file(path.as_str()) {
            None => Err(join2("Not found: ", file_path)),
            Some(id) => self.read_file(id),
        }
    }
}

// ── Extracting a directory ──────────────────────────────────────────────────

/// The number of directories not yet visited.
pub open spec fn unseen(seen: Seq<bool>) -> nat
    decreases seen.len(),
{
    if seen.len() == 0 {
        0
    } else {
        unseen(seen.drop_last()) + (if seen.last() {
            0nat
        } else {
            1nat
        })
    }
}

pub proof fn lemma_unseen(seen: Seq<bool>, i: int)
    requires
        0 <= i < seen.len(),
        !seen[i],
    ensures
        unseen(seen.update(i, true)) + 1 == unseen(seen),
    decreases seen.len(),
{
    let t = seen.update(i, true);
    if i == seen.len() - 1 {
        assert(t.drop_last() =~= seen.drop_last());
    } else {
        assert(t.drop_last() =~= seen.drop_last().update(i, true));
        lemma_unseen(seen.drop_last(), i);
    }
}

/// The state of the walk: the directories still to visit with their
/// destinations, those visited, and what was found: directories to create,
/// files to write.
#[verifier::ext_equal]
pub struct Walk {
    pub stack: Seq<(u16, Seq<char>)>,
    pub seen: Seq<bool>,
    pub dirs: Seq<Seq<char>>,
    pub files: Seq<(Seq<char>, u16)>,
}

/// The host path of the entry `name` of the directory `dest`.
pub open spec fn host_path(dest: Seq<char>, name: Seq<char>) -> Seq<char> {
    dest + "/"@ + sanitize::sanitized(name)
}

/// The walk after meeting the first `k` directories of a node.
pub open spec fn met_dirs(
    dirs: Seq<Option<NodeView>>,
    n: NodeView,
    dest: Seq<char>,
    k: int,
    w: Walk,
) -> Walk
    decreases k,
{
    if k <= 0 {
        w
    } else {
        let v = met_dirs(dirs, n, dest, k - 1, w);
        let c = n.subdirs[k - 1];
        match dirs[c as int] {
            None => v,
            Some(d) => Walk {
                stack: v.stack.push((c, host_path(dest, d.name))),
                seen: v.seen,
                dirs: v.dirs.push(host_path(dest, d.name)),
                files: v.files,
            },
        }
    }
}

/// The files of a node and where they go.
pub open spec fn node_files(n: NodeView, dest: Seq<char>) -> Seq<(Seq<char>, u16)> {
    Seq::new(n.files.len(), |i: int| (host_path(dest, n.files[i].0), n.files[i].1))
}

pub proof fn lemma_met_dirs(
    dirs: Seq<Option<NodeView>>,
    n: NodeView,
    dest: Seq<char>,
    k: int,
    w: Walk,
)
    ensures
        met_dirs(dirs, n, dest, k, w).seen == w.seen,
        met_dirs(dirs, n, dest, k, w).files == w.files,
    decreases k,
{
    if k > 0 {
        lemma_met_dirs(dirs, n, dest, k - 1, w);
    }
}

/// The walk to its end. A directory is visited once, so that directories that
/// hold each other end it.
pub open spec fn walked(dirs: Seq<Option<NodeView>>, w: Walk) -> Walk
    decreases unseen(w.seen), w.stack.len(),
{
    if w.stack.len() == 0 || w.seen.len() != ID_COUNT {
        w
    } else {
        let (id, dest) = w.stack.last();
        let rest = Walk {
            stack: w.stack.drop_last(),
            seen: w.seen,
            dirs: w.dirs,
            files: w.files,
        };
        if w.seen[id as int] {
            walked(dirs, rest)
        } else {
            proof {
                lemma_unseen(w.seen, id as int);
            }
            let marked = Walk {
                stack: rest.stack,
                seen: w.seen.update(id as int, true),
                dirs: w.dirs,
                files: w.files,
            };
            match dirs[id as int] {
                None => walked(dirs, marked),
                Some(n) => {
                    let v = met_dirs(dirs, n, dest, n.subdirs.len() as int, marked);
                    proof {
                        lemma_met_dirs(dirs, n, dest, n.subdirs.len() as int, marked);
                    }
                    walked(
                        dirs,
                        Walk {
                            stack: v.stack,
                            seen: v.seen,
                            dirs: v.dirs,
                            files: v.files + node_files(n, dest),
                        },
                    )
                },
            }
        }
    }
}

/// The start of a walk from the directory `id`.
pub open spec fn walk_from(id: u16, dest: Seq<char>) -> Walk {
    Walk {
        stack: seq![(id, dest)],
        seen: Seq::new(ID_COUNT as nat, |i: int| false),
        dirs: seq![],
        files: seq![],
    }
}

/// What the extraction of a directory creates: directories, in the order in
/// which they are created, and files with their identifiers.
pub struct NitroPlan {
    pub dirs: Vec<String>,
    pub files: Vec<(String, u16)>,
}

/// The contents of a stack of directories.
pub open spec fn stack_of(v: Seq<(u16, String)>) -> Seq<(u16, Seq<char>)> {
    Seq::new(v.len(), |i: int| (v[i].0, v[i].1@))
}

/// The host path of the entry `name` of the directory `dest`.
fn make_host_path(dest: &str, name: &str) -> (r: String)
    ensures
        r@ == host_path(dest@, name@),
{
    let safe: String = sanitize_component(name);
    join3(dest, "/", safe.as_str())
}

impl<S: ByteSource> NitroFs<S> {
    /// Plans the extraction of a directory to `dest_path`.
    pub fn extract_directory(&self, dir_path: &str, dest_path: &str) -> (r: Result<
        NitroPlan,
        String,
    >)
        requires
            self.wf(),
        ensures
            match dir_at(self.contents().dirs, dir_path@) {
                None => r matches Err(e) && e@ == "Not found: "@ + dir_path@,
                Some(id) => r matches Ok(p) && ({
                    let w = walked(self.contents().dirs, walk_from(id, dest_path@));
                    text::views(p.dirs@) == w.dirs && files_of(p.files@) == w.files
                }),
            },
    {
        let root: u16 = match self.resolve(dir_path) {
            None => {
                return Err(join2("Not found: ", dir_path));
            },
            Some(id) => id,
        };
        let ghost all = self.contents().dirs;
        let mut seen: Vec<bool> = Vec::new();
        let mut i: usize = 0;
        while i < ID_COUNT
            invariant
                i <= ID_COUNT,
                seen@.len() == i,
                forall|j: int| 0 <= j < i ==> !seen@[j],
            decreases ID_COUNT - i,
        {
            seen.push(false);
            i += 1;
        }
        let mut stack: Vec<(u16, String)> = Vec::new();
        stack.push((root, dest_path.to_owned()));
        let mut dirs: Vec<String> = Vec::new();
        let mut files: Vec<(String, u16)> = Vec::new();
        let ghost goal = walked(all, walk_from(root, dest_path@));
        assert(Walk {
            stack: stack_of(stack@),
            seen: seen@,
            dirs: text::views(dirs@),
            files: files_of(files@),
        } =~= walk_from(root, dest_path@));
        while stack.len() > 0
            invariant
                self.wf(),
                all == self.contents().dirs,
                seen@.len() == ID_COUNT,
                walked(
                    all,
                    Walk {
                        stack: stack_of(stack@),
                        seen: seen@,
                        dirs: text::views(dirs@),
                        files: files_of(files@),
                    },
                ) == goal,
            decreases unseen(seen@), stack@.len(),
        {
            let ghost before = stack@;
            let (id, dest) = stack.pop().unwrap();
            assert(stack_of(stack@) =~= stack_of(before).drop_last());
            assert(stack_of(before).last() == (id, dest@));
            if seen[id as usize] {
                continue;
            }
            proof {
                lemma_unseen(seen@, id as int);
            }
            seen[id as usize] = true;
            match &self.dirs[id as usize] {
                None => {},
                Some(n) => {
                    let ghost start = Walk {
                        stack: stack_of(stack@),
                        seen: seen@,
                        dirs: text::views(dirs@),
                        files: files_of(files@),
                    };
                    proof {
                        lemma_met_dirs(all, n@, dest@, n.subdirs@.len() as int, start);
                    }
                    let mut k: usize = 0;
                    while k < n.subdirs.len()
                        invariant
                            self.wf(),
                            all == self.contents().dirs,
                            k <= n.subdirs@.len(),
                            (Walk {
                                stack: stack_of(stack@),
                                seen: seen@,
                                dirs: text::views(dirs@),
                                files: files_of(files@),
                            }) == met_dirs(all, n@, dest@, k as int, start),
                        decreases n.subdirs@.len() - k,
                    {
                        let c: u16 = n.subdirs[k];
                        if let Some(d) = &self.dirs[c as usize] {
                            let out: String = make_host_path(dest.as_str(), d.name.as_str());
                            let copy: String = out.clone();
                            let ghost s0 = stack@;
                            let ghost d0 = dirs@;
                            dirs.push(copy);
                            stack.push((c, out));
                            assert(stack_of(stack@) =~= stack_of(s0).push((c, out@)));
                            assert(text::views(dirs@) =~= text::views(d0).push(copy@));
                        }
                        k += 1;
                    }
                    let ghost f0 = files_of(files@);
                    let ghost add = node_files(n@, dest@);
                    let mut j: usize = 0;
                    assert(f0 + add.take(0) =~= f0);
                    while j < n.files.len()
                        invariant
                            j <= n.files@.len(),
                            add == node_files(n@, dest@),
                            files_of(files@) == f0 + add.take(j as int),
                        decreases n.files@.len() - j,
                    {
                        let out: String = make_host_path(dest.as_str(), n.files[j].0.as_str());
                        let ghost fb = files@;
                        files.push((out, n.files[j].1));
                        assert(files_of(files@) =~= files_of(fb).push((out@, n.files@[j as int].1)));
                        assert(n@.files[j as int] == (n.files@[j as int].0@, n.files@[j as int].1));
                        assert(f0 + add.take(j + 1) =~= (f0 + add.take(j as int)).push(
                            add[j as int],
                        ));
                        j += 1;
                    }
                    assert(add.take(j as int) =~= add);
                },
            }
        }
        assert(stack_of(stack@).len() == 0);
        Ok(NitroPlan { dirs, files })
    }
}

// ── Where an extraction writes ──────────────────────────────────────────────

/// Whether a walk goes no further than `root`, and all that it has planned is
/// below it.
pub open spec fn walk_at(root: Seq<char>, w: Walk) -> bool {
    &&& forall|i: int|
        0 <= i < w.stack.len() ==> (#[trigger] w.stack[i]).1 == root || extract::is_below(
            root,
            w.stack[i].1,
        )
    &&& forall|i: int| 0 <= i < w.dirs.len() ==> extract::is_below(root, #[trigger] w.dirs[i])
    &&& forall|i: int| 0 <= i < w.files.len() ==> extract::is_below(root, (#[trigger] w.files[i]).0)
}

proof fn lemma_met_below(
    dirs: Seq<Option<NodeView>>,
    n: NodeView,
    root: Seq<char>,
    dest: Seq<char>,
    k: int,
    w: Walk,
)
    requires
        walk_at(root, w),
        dest == root || extract::is_below(root, dest),
    ensures
        walk_at(root, met_dirs(dirs, n, dest, k, w)),
    decreases k,
{
    if k > 0 {
        lemma_met_below(dirs, n, root, dest, k - 1, w);
        if let Some(d) = dirs[n.subdirs[k - 1] as int] {
            extract::lemma_entry_below(root, dest, d.name);
        }
    }
}

proof fn lemma_walk_below(dirs: Seq<Option<NodeView>>, root: Seq<char>, w: Walk)
    requires
        walk_at(root, w),
    ensures
        walk_at(root, walked(dirs, w)),
    decreases unseen(w.seen), w.stack.len(),
{
    if w.stack.len() > 0 && w.seen.len() == ID_COUNT {
        let (id, dest) = w.stack.last();
        assert(w.stack[w.stack.len() - 1] == (id, dest));
        let rest = Walk {
            stack: w.stack.drop_last(),
            seen: w.seen,
            dirs: w.dirs,
            files: w.files,
        };
        assert forall|i: int| 0 <= i < rest.stack.len() implies (#[trigger] rest.stack[i]).1 == root
            || extract::is_below(root, rest.stack[i].1) by {
            assert(rest.stack[i] == w.stack[i]);
        }
        if w.seen[id as int] {
            lemma_walk_below(dirs, root, rest);
        } else {
            lemma_unseen(w.seen, id as int);
            let marked = Walk {
                stack: rest.stack,
                seen: w.seen.update(id as int, true),
                dirs: w.dirs,
                files: w.files,
            };
            match dirs[id as int] {
                None => lemma_walk_below(dirs, root, marked),
                Some(n) => {
                    let v = met_dirs(dirs, n, dest, n.subdirs.len() as int, marked);
                    lemma_met_dirs(dirs, n, dest, n.subdirs.len() as int, marked);
                    lemma_met_below(dirs, n, root, dest, n.subdirs.len() as int, marked);
                    let add = node_files(n, dest);
                    let next = Walk {
                        stack: v.stack,
                        seen: v.seen,
                        dirs: v.dirs,
                        files: v.files + add,
                    };
                    assert forall|i: int| 0 <= i < next.files.len() implies extract::is_below(
                        root,
                        (#[trigger] next.files[i]).0,
                    ) by {
                        if i < v.files.len() {
                            assert(next.files[i] == v.files[i]);
                        } else {
                            let j = i - v.files.len();
                            assert(next.files[i] == add[j]);
                            extract::lemma_entry_below(root, dest, n.files[j].0);
                        }
                    }
                    lemma_walk_below(dirs, root, next);
                },
            }
        }
    }
}

/// Whatever names a ROM holds, everything that is extracted from it is written
/// below the destination.
pub proof fn a_walk_stays_below_the_destination(
    dirs: Seq<Option<NodeView>>,
    id: u16,
    dest: Seq<char>,
)
    ensures
        ({
            let w = walked(dirs, walk_from(id, dest));
            &&& forall|i: int|
                0 <= i < w.dirs.len() ==> extract::is_below(dest, #[trigger] w.dirs[i])
            &&& forall|i: int|
                0 <= i < w.files.len() ==> extract::is_below(dest, (#[trigger] w.files[i]).0)
        }),
{
    lemma_walk_below(dirs, dest, walk_from(id, dest));
}

// ── Laws of tables ──────────────────────────────────────────────────────────

/// The bytes of a file are those of the ROM between the two numbers of its pair in the table.
pub proof fn a_file_is_the_stretch_of_its_pair(
    image: Seq<u8>,
    table: Seq<u8>,
    id: u16,
    start: int,
    end: int,
)
    requires
        8 * id + 8 <= table.len(),
        0 <= start <= end <= image.len(),
        end <= 0xFFFF_FFFF,
        bytes::has_at(table, 8 * id as int, bytes::le_bytes(start, 4)),
        bytes::has_at(table, 8 * id as int + 4, bytes::le_bytes(end, 4)),
    ensures
        file_bytes(source::reads_of(image), fat_of(table), id) == Ok::<Seq<u8>, Seq<char>>(
            image.subrange(start, end),
        ),
        len_of(fat_of(table), id) == end - start,
{
    bytes::fields_hold_what_was_written(table, 8 * id as int, start);
    bytes::fields_hold_what_was_written(table, 8 * id as int + 4, end);
}

/// Names follow each other: that of a file takes the next identifier, that of a directory is
/// followed by the directory's own.
pub proof fn names_follow_each_other(
    fnt: Seq<u8>,
    p: int,
    file_id: u16,
    id: u16,
    s: Names,
    name: Seq<u8>,
    child: int,
)
    requires
        0 <= p,
        0 < name.len() < 128,
        0 <= child <= 0xFFFF,
        file_id < 0xFFFF,
        bytes::has_at(fnt, p + 1, name),
    ensures
        fnt[p] == name.len() ==> with_names(fnt, p, file_id, id, s) == with_names(
            fnt,
            p + 1 + name.len(),
            (file_id + 1) as u16,
            id,
            Names {
                dirs: s.dirs,
                files: s.files.push((text::utf8_text(name), file_id)),
                subdirs: s.subdirs,
            },
        ),
        fnt[p] == 128 + name.len() && bytes::has_at(
            fnt,
            p + 1 + name.len(),
            bytes::le_bytes(child, 2),
        ) ==> with_names(fnt, p, file_id, id, s) == with_names(
            fnt,
            p + 3 + name.len(),
            file_id,
            id,
            Names {
                dirs: with_child(s.dirs, child as u16, id, text::utf8_text(name)),
                files: s.files,
                subdirs: s.subdirs.push(child as u16),
            },
        ),
{
    bytes::fields_hold_what_was_written(fnt, p + 1 + name.len(), child);
    bytes::lemma_notation_len(child, 2);
}

/// A directory of the table has the names that its part of the table lists, the first file
/// taking the identifier that the directory counts from, and the parent that is written
/// there.
pub proof fn a_directory_holds_its_names(
    fnt: Seq<u8>,
    i: int,
    dirs: Seq<Option<NodeView>>,
    at: int,
    first: int,
    parent: int,
)
    requires
        0 <= i < 0x1000,
        8 * i + 8 <= fnt.len(),
        dirs.len() == 0x10000,
        0 <= at <= 0xFFFF_FFFF,
        0 <= first <= 0xFFFF,
        0 <= parent <= 0xFFFF,
        bytes::has_at(fnt, 8 * i, bytes::le_bytes(at, 4)),
        bytes::has_at(fnt, 8 * i + 4, bytes::le_bytes(first, 2)),
        bytes::has_at(fnt, 8 * i + 6, bytes::le_bytes(parent, 2)),
        with_names(
            fnt,
            at,
            first as u16,
            (0xF000 + i) as u16,
            Names { dirs, files: seq![], subdirs: seq![] },
        ).dirs.len() == 0x10000,
    ensures
        with_dir(fnt, i, dirs)[0xF000 + i] matches Some(n) && {
            let names = with_names(
                fnt,
                at,
                first as u16,
                (0xF000 + i) as u16,
                Names { dirs, files: seq![], subdirs: seq![] },
            );
            n.parent == parent && n.files == names.files && n.subdirs == names.subdirs
        },
{
    bytes::fields_hold_what_was_written(fnt, 8 * i, at);
    bytes::fields_hold_what_was_written(fnt, 8 * i + 4, first);
    bytes::fields_hold_what_was_written(fnt, 8 * i + 6, parent);
}

/// The header of a ROM tells where its two tables start and how long they are.
pub proof fn the_header_names_the_tables(
    image: Seq<u8>,
    fnt: (int, int),
    fat: (int, int),
    v: NitroView,
)
    requires
        0x160 <= image.len(),
        nitro_index(source::reads_of(image), image.len() as int) == Ok::<NitroView, Seq<char>>(v),
        0 <= fnt.0 <= 0xFFFF_FFFF,
        0 <= fnt.1 <= 0xFFFF_FFFF,
        0 <= fat.0 <= 0xFFFF_FFFF,
        0 <= fat.1 <= 0xFFFF_FFFF,
        bytes::has_at(image, 0x40, bytes::le_bytes(fnt.0, 4)),
        bytes::has_at(image, 0x44, bytes::le_bytes(fnt.1, 4)),
        bytes::has_at(image, 0x48, bytes::le_bytes(fat.0, 4)),
        bytes::has_at(image, 0x4C, bytes::le_bytes(fat.1, 4)),
    ensures
        v.fat == fat_of(image.subrange(fat.0, fat.0 + fat.1)),
        v.dirs == dirs_of(
            image.subrange(fnt.0, fnt.0 + fnt.1),
            dir_count(image.subrange(fnt.0, fnt.0 + fnt.1)),
        ),
        v.title == field_text(image.subrange(0, 12)),
        v.game_code == field_text(image.subrange(12, 16)),
{
    let h = image.subrange(0, 0x160);
    assert(h.subrange(0, 12) =~= image.subrange(0, 12));
    assert(h.subrange(12, 16) =~= image.subrange(12, 16));
    bytes::fields_hold_what_was_written(image, 0x40, fnt.0);
    bytes::fields_hold_what_was_written(image, 0x44, fnt.1);
    bytes::fields_hold_what_was_written(image, 0x48, fat.0);
    bytes::fields_hold_what_was_written(image, 0x4C, fat.1);
}

/// A file two directories down is found by its path, whatever the case of its letters, and is the
/// stretch that its own number names.
pub proof fn a_file_is_found_by_its_path(
    reads: Reads,
    v: NitroView,
    a: Seq<char>,
    b: Seq<char>,
    name: Seq<char>,
    root: NodeView,
    na: NodeView,
    nb: NodeView,
    i: int,
    j: int,
    k: int,
)
    requires
        a.len() > 0 && !a.contains('/'),
        b.len() > 0 && !b.contains('/'),
        name.len() > 0 && !name.contains('/'),
        v.dirs[0xF000] == Some(root),
        0 <= i < root.subdirs.len(),
        v.dirs[root.subdirs[i] as int] == Some(na),
        text::alike(na.name, a),
        forall|m: int|
            0 <= m < i ==> (v.dirs[#[trigger] root.subdirs[m] as int] matches Some(n)
                ==> !text::alike(n.name, a)),
        0 <= j < na.subdirs.len(),
        v.dirs[na.subdirs[j] as int] == Some(nb),
        text::alike(nb.name, b),
        forall|m: int|
            0 <= m < j ==> (v.dirs[#[trigger] na.subdirs[m] as int] matches Some(n)
                ==> !text::alike(n.name, b)),
        0 <= k < nb.files.len(),
        text::alike(nb.files[k].0, name),
        forall|m: int| 0 <= m < k ==> !text::alike((#[trigger] nb.files[m]).0, name),
    ensures
        file_answer(reads, v, seq!['/'] + (a + seq!['/'] + b) + seq!['/'] + name) == file_bytes(
            reads,
            v.fat,
            nb.files[k].1,
        ),
{
    let d = a + seq!['/'] + b;
    assert(d[0] == a[0]);
    assert(a.contains(a[0]));
    path::a_path_is_split_at_its_last_slash(d, name);
    text::names_stand_between_slashes(a, b);
    let parts = seq![a, b];
    assert(parts[0] == a && parts[1] == b);
    lemma_child(v.dirs, root.subdirs, 0, i, a);
    lemma_child(v.dirs, na.subdirs, 0, j, b);
    lemma_file(nb.files, 0, k, name);
    reveal_with_fuel(resolved, 3);
    assert(dir_at(v.dirs, d) == Some(na.subdirs[j]));
}

/// The first directory of a name is the one that is found.
proof fn lemma_child(
    dirs: Seq<Option<NodeView>>,
    subdirs: Seq<u16>,
    k: int,
    i: int,
    name: Seq<char>,
)
    requires
        0 <= k <= i < subdirs.len(),
        dirs[subdirs[i] as int] matches Some(n) && text::alike(n.name, name),
        forall|m: int|
            0 <= m < i ==> (dirs[#[trigger] subdirs[m] as int] matches Some(n) ==> !text::alike(
                n.name,
                name,
            )),
    ensures
        child_named(dirs, subdirs, k, name) == Some(subdirs[i]),
    decreases i - k,
{
    if k < i {
        let s = subdirs[k];
        lemma_child(dirs, subdirs, k + 1, i, name);
    }
}

/// The first file of a name is the one that is found.
proof fn lemma_file(files: Seq<(Seq<char>, u16)>, k: int, i: int, name: Seq<char>)
    requires
        0 <= k <= i < files.len(),
        text::alike(files[i].0, name),
        forall|m: int| 0 <= m < i ==> !text::alike((#[trigger] files[m]).0, name),
    ensures
        file_named(files, k, name) == Some(files[i].1),
    decreases i - k,
{
    if k < i {
        assert(!text::alike(files[k].0, name));
        lemma_file(files, k + 1, i, name);
    }
}

} // verus!
