//! Optical drives of the host: how they are listed and ejected.
use vstd::prelude::*;
use crate::host;
use crate::host::{make_job, trimmed_text, Event, EventView, Job, JobKind, JobView, Platform};
use crate::text;
use crate::text::{
    chars_of, cut_chars, ends_with, find_char_from, is_text, join2, join3, lines,
    same_text, starts_with, string_of, trim, words,
};

verus! {

// ── Listing ─────────────────────────────────────────────────────────────────

/// An optical drive.
pub struct DriveInfo {
    pub name: String,
    pub device_path: String,
    pub raw_device_path: String,
    pub has_disc: bool,
    pub volume_name: Option<String>,
    pub mount_point: Option<String>,
}

/// The contents of a drive.
#[verifier::ext_equal]
pub struct DriveView {
    pub name: Seq<char>,
    pub device_path: Seq<char>,
    pub raw_device_path: Seq<char>,
    pub has_disc: bool,
    pub volume_name: Option<Seq<char>>,
    pub mount_point: Option<Seq<char>>,
}

/// The contents of a text that may be missing.
pub open spec fn maybe(t: Option<String>) -> Option<Seq<char>> {
    match t {
        Some(s) => Some(s@),
        None => None,
    }
}

impl View for DriveInfo {
    type V = DriveView;

    open spec fn view(&self) -> DriveView {
        DriveView {
            name: self.name@,
            device_path: self.device_path@,
            raw_device_path: self.raw_device_path@,
            has_disc: self.has_disc,
            volume_name: maybe(self.volume_name),
            mount_point: maybe(self.mount_point),
        }
    }
}

/// The contents of drives.
pub open spec fn drives(v: Seq<DriveInfo>) -> Seq<DriveView> {
    v.map_values(|d: DriveInfo| d@)
}

/// A text, unless it is missing or empty.
pub open spec fn filled(t: Option<Seq<char>>) -> Option<Seq<char>> {
    match t {
        Some(s) => if s.len() == 0 {
            None
        } else {
            Some(s)
        },
        None => None,
    }
}

/// A copy of a text that may be missing.
fn copy_of(t: &Option<String>) -> (r: Option<String>)
    ensures
        maybe(r) == maybe(*t),
{
    match t {
        Some(s) => Some(s.as_str().to_owned()),
        None => None,
    }
}

/// A text, unless it is missing or empty.
fn filled_copy(t: &Option<String>) -> (r: Option<String>)
    ensures
        maybe(r) == filled(maybe(*t)),
{
    match t {
        Some(s) => if chars_of(s.as_str()).len() == 0 {
            None
        } else {
            Some(s.as_str().to_owned())
        },
        None => None,
    }
}

/// A text, or another one where it is missing.
pub open spec fn or_else(t: Option<Seq<char>>, other: Seq<char>) -> Seq<char> {
    match t {
        Some(s) => s,
        None => other,
    }
}

/// A text, or another one where it is missing.
fn text_or(t: &Option<String>, other: &str) -> (r: String)
    ensures
        r@ == or_else(maybe(*t), other@),
{
    match t {
        Some(s) => s.as_str().to_owned(),
        None => other.to_owned(),
    }
}

/// A block device as the host reports it: the fields that are texts, and the texts
/// among its mount points.
pub struct BlockDevice {
    pub kind: Option<String>,
    pub name: Option<String>,
    pub model: Option<String>,
    pub label: Option<String>,
    pub mount_points: Vec<String>,
    pub mount_point: Option<String>,
    pub size: Option<String>,
}

/// The first text that is not empty, from `k` on.
pub open spec fn first_filled(v: Seq<Seq<char>>, k: int) -> Option<Seq<char>>
    decreases v.len() - k,
{
    if k < 0 || k >= v.len() {
        None
    } else if v[k].len() > 0 {
        Some(v[k])
    } else {
        first_filled(v, k + 1)
    }
}

/// Where a block device is mounted.
pub open spec fn device_mount(d: BlockDevice) -> Option<Seq<char>> {
    match first_filled(text::views(d.mount_points@), 0) {
        Some(m) => Some(m),
        None => filled(maybe(d.mount_point)),
    }
}

/// Whether a reported size is that of a disc: an empty drive has none.
pub open spec fn is_capacity(size: Seq<char>) -> bool {
    let t = text::trimmed(size);
    t.len() > 0 && t != "0"@ && t != "0B"@
}

/// The drive that a block device is; none for another kind of device, or one without
/// a name.
pub open spec fn block_drive(d: BlockDevice) -> Option<DriveView> {
    let name = or_else(maybe(d.name), ""@);
    if or_else(maybe(d.kind), ""@) != "rom"@ || name.len() == 0 {
        None
    } else {
        let label = filled(maybe(d.label));
        let mount = device_mount(d);
        Some(
            DriveView {
                name: text::trimmed(or_else(filled(maybe(d.model)), name)),
                device_path: "/dev/"@ + name,
                raw_device_path: "/dev/"@ + name,
                has_disc: is_capacity(or_else(maybe(d.size), ""@)) || label is Some || mount is Some,
                volume_name: label,
                mount_point: mount,
            },
        )
    }
}

/// The drives among block devices.
pub open spec fn block_drives(v: Seq<BlockDevice>) -> Seq<DriveView>
    decreases v.len(),
{
    if v.len() == 0 {
        seq![]
    } else {
        match block_drive(v.last()) {
            None => block_drives(v.drop_last()),
            Some(d) => block_drives(v.drop_last()).push(d),
        }
    }
}

/// The first text that is not empty.
fn find_filled(v: &Vec<String>) -> (r: Option<String>)
    ensures
        maybe(r) == first_filled(text::views(v@), 0),
{
    let ghost all = text::views(v@);
    let mut k: usize = 0;
    while k < v.len()
        invariant
            k <= v@.len(),
            all == text::views(v@),
            first_filled(all, k as int) == first_filled(all, 0),
        decreases v@.len() - k,
    {
        assert(all[k as int] == v@[k as int]@);
        if chars_of(v[k].as_str()).len() > 0 {
            return Some(v[k].as_str().to_owned());
        }
        k += 1;
    }
    None
}

/// The drive that a block device is.
pub fn drive_of_block(d: &BlockDevice) -> (r: Option<DriveInfo>)
    ensures
        match r {
            Some(i) => block_drive(*d) == Some(i@),
            None => block_drive(*d) is None,
        },
{
    proof {
        reveal_strlit("");
    }
    let kind: String = text_or(&d.kind, "");
    if !same_text(kind.as_str(), "rom") {
        return None;
    }
    let name: String = text_or(&d.name, "");
    if chars_of(name.as_str()).len() == 0 {
        return None;
    }
    let model: Option<String> = filled_copy(&d.model);
    let shown: String = text_or(&model, name.as_str());
    let label: Option<String> = filled_copy(&d.label);
    let mount: Option<String> = match find_filled(&d.mount_points) {
        Some(m) => Some(m),
        None => filled_copy(&d.mount_point),
    };
    let size: String = text_or(&d.size, "");
    let capacity: String = trimmed_text(size.as_str());
    let sized: bool = chars_of(capacity.as_str()).len() > 0 && !same_text(capacity.as_str(), "0")
        && !same_text(capacity.as_str(), "0B");
    let has_disc: bool = sized || label.is_some() || mount.is_some();
    Some(
        DriveInfo {
            name: trimmed_text(shown.as_str()),
            device_path: join2("/dev/", name.as_str()),
            raw_device_path: join2("/dev/", name.as_str()),
            has_disc,
            volume_name: label,
            mount_point: mount,
        },
    )
}

/// Lists the drives among block devices.
#[verifier::loop_isolation(false)]
pub fn list_optical_drives(v: &Vec<BlockDevice>) -> (r: Vec<DriveInfo>)
    ensures
        drives(r@) == block_drives(v@),
{
    let mut out: Vec<DriveInfo> = Vec::new();
    let mut i: usize = 0;
    assert(drives(out@) =~= block_drives(v@.take(0)));
    while i < v.len()
        invariant
            i <= v@.len(),
            drives(out@) == block_drives(v@.take(i as int)),
        decreases v@.len() - i,
    {
        let ghost part = v@.take(i + 1);
        assert(part.drop_last() =~= v@.take(i as int));
        let ghost before = drives(out@);
        match drive_of_block(&v[i]) {
            Some(d) => {
                out.push(d);
                assert(drives(out@) =~= before.push(d@));
            },
            None => {},
        }
        i += 1;
    }
    assert(v@.take(i as int) =~= v@);
    out
}

/// A drive as Windows reports it: the fields that are texts, and whether a disc is
/// in it.
pub struct CimDrive {
    pub name: Option<String>,
    pub letter: Option<String>,
    pub volume_name: Option<String>,
    pub media_loaded: bool,
}

/// A drive letter with its colon.
pub open spec fn with_colon(letter: Seq<char>) -> Seq<char> {
    if text::ends(letter, ":"@) {
        letter
    } else {
        letter + ":"@
    }
}

/// The drive that Windows reports; none without a letter.
pub open spec fn cim_drive(d: CimDrive) -> Option<DriveView> {
    let raw = text::trimmed(or_else(maybe(d.letter), ""@));
    if raw.len() == 0 {
        None
    } else {
        let letter = with_colon(raw);
        let root = letter + "\\"@;
        let path = if d.media_loaded {
            root
        } else {
            letter
        };
        Some(
            DriveView {
                name: or_else(maybe(d.name), "Optical Drive"@),
                device_path: path,
                raw_device_path: path,
                has_disc: d.media_loaded,
                volume_name: filled(maybe(d.volume_name)),
                mount_point: if d.media_loaded {
                    Some(root)
                } else {
                    None
                },
            },
        )
    }
}

/// The drive that Windows reports.
pub fn drive_of_cim(d: &CimDrive) -> (r: Option<DriveInfo>)
    ensures
        match r {
            Some(i) => cim_drive(*d) == Some(i@),
            None => cim_drive(*d) is None,
        },
{
    let given: String = text_or(&d.letter, "");
    let raw: String = trimmed_text(given.as_str());
    let c: Vec<char> = chars_of(raw.as_str());
    if c.len() == 0 {
        return None;
    }
    let letter: String = if ends_with(c.as_slice(), ":") {
        raw
    } else {
        join2(raw.as_str(), ":")
    };
    let root: String = join2(letter.as_str(), "\\");
    let path: String = if d.media_loaded {
        root.as_str().to_owned()
    } else {
        letter
    };
    let mount_point: Option<String> = if d.media_loaded {
        Some(root)
    } else {
        None
    };
    Some(
        DriveInfo {
            name: text_or(&d.name, "Optical Drive"),
            device_path: path.as_str().to_owned(),
            raw_device_path: path,
            has_disc: d.media_loaded,
            volume_name: filled_copy(&d.volume_name),
            mount_point,
        },
    )
}

/// What stands behind a prefix, without blanks at its ends.
pub open spec fn behind(row: Seq<char>, prefix: Seq<char>) -> Option<Seq<char>> {
    let t = text::trimmed(row);
    if text::begins(t, prefix) {
        Some(text::trimmed(t.skip(prefix.len() as int)))
    } else {
        None
    }
}

/// The disc in a drive of a Mac: the name of its volume, and where it is mounted.
pub struct MacDisc {
    pub volume_name: Option<String>,
    pub mount_point: Option<String>,
}

/// The last name of a volume that the first `k` rows tell.
pub open spec fn volume_before(rows: Seq<Seq<char>>, k: int) -> Option<Seq<char>>
    decreases k,
{
    if k <= 0 || k > rows.len() {
        None
    } else {
        match behind(rows[k - 1], "Volume Name:"@) {
            Some(n) => if n.len() > 0 && n != "Not applicable"@ && n != "(null)"@ {
                Some(n)
            } else {
                volume_before(rows, k - 1)
            },
            None => volume_before(rows, k - 1),
        }
    }
}

/// The last mount point that the first `k` rows tell.
pub open spec fn point_before(rows: Seq<Seq<char>>, k: int) -> Option<Seq<char>>
    decreases k,
{
    if k <= 0 || k > rows.len() {
        None
    } else {
        match behind(rows[k - 1], "Mount Point:"@) {
            Some(n) => if n.len() > 0 && n != "Not applicable"@ {
                Some(n)
            } else {
                point_before(rows, k - 1)
            },
            None => point_before(rows, k - 1),
        }
    }
}

/// What stands behind a prefix, without blanks at its ends.
fn read_behind(row: &[char], prefix: &str) -> (r: Option<Vec<char>>)
    ensures
        match r {
            Some(v) => behind(row@, prefix@) == Some(v@),
            None => behind(row@, prefix@) is None,
        },
{
    let t: Vec<char> = trim(row);
    if !starts_with(t.as_slice(), prefix) {
        return None;
    }
    let p: Vec<char> = chars_of(prefix);
    let n: usize = t.len();
    let rest: Vec<char> = cut_chars(t.as_slice(), p.len(), n);
    assert(rest@ =~= t@.skip(p@.len() as int));
    Some(trim(rest.as_slice()))
}

/// Reads which disc is in a drive of a Mac; without the name of a volume there is
/// none.
#[verifier::loop_isolation(false)]
pub fn check_disc_in_drive(info: &str) -> (r: Option<MacDisc>)
    ensures
        ({
            let rows = text::lines_of(info@);
            let volume = volume_before(rows, rows.len() as int);
            match r {
                Some(d) => volume is Some && maybe(d.volume_name) == volume && maybe(d.mount_point)
                    == point_before(rows, rows.len() as int),
                None => volume is None,
            }
        }),
{
    let c: Vec<char> = chars_of(info);
    let rows: Vec<Vec<char>> = lines(c.as_slice());
    let ghost all = text::lines_of(info@);
    let mut volume: Option<String> = None;
    let mut point: Option<String> = None;
    let mut k: usize = 0;
    while k < rows.len()
        invariant
            k <= rows@.len(),
            maybe(volume) == volume_before(all, k as int),
            maybe(point) == point_before(all, k as int),
        decreases rows@.len() - k,
    {
        assert(text::texts(rows@)[k as int] == rows@[k as int]@);
        match read_behind(rows[k].as_slice(), "Volume Name:") {
            Some(n) => {
                if n.len() > 0 && !is_text(n.as_slice(), "Not applicable") && !is_text(
                    n.as_slice(),
                    "(null)",
                ) {
                    volume = Some(string_of(n.as_slice()));
                }
            },
            None => {},
        }
        match read_behind(rows[k].as_slice(), "Mount Point:") {
            Some(n) => {
                if n.len() > 0 && !is_text(n.as_slice(), "Not applicable") {
                    point = Some(string_of(n.as_slice()));
                }
            },
            None => {},
        }
        k += 1;
    }
    if volume.is_some() {
        Some(MacDisc { volume_name: volume, mount_point: point })
    } else {
        None
    }
}

/// A drive of a Mac at a device: what is in it, by what the host tells of it.
pub open spec fn mac_drive(name: Seq<char>, node: Seq<char>, disc: Option<MacDisc>) -> DriveView {
    let path = if text::begins(node, "/dev/"@) {
        node
    } else {
        "/dev/"@ + node
    };
    let point = match disc {
        Some(d) => maybe(d.mount_point),
        None => None,
    };
    DriveView {
        name,
        device_path: or_else(point, path),
        raw_device_path: without_dev(path),
        has_disc: disc is Some,
        volume_name: match disc {
            Some(d) => maybe(d.volume_name),
            None => None,
        },
        mount_point: point,
    }
}

/// A path without `/dev/` before it, however often it stands there.
pub open spec fn without_dev(path: Seq<char>) -> Seq<char>
    decreases path.len(),
{
    if "/dev/"@.len() > 0 && text::begins(path, "/dev/"@) {
        without_dev(path.skip("/dev/"@.len() as int))
    } else {
        path
    }
}

/// A path without `/dev/` before it, however often it stands there.
fn cut_dev(path: &str) -> (r: String)
    ensures
        r@ == without_dev(path@),
{
    proof {
        reveal_strlit("/dev/");
    }
    let mut c: Vec<char> = chars_of(path);
    while starts_with(c.as_slice(), "/dev/")
        invariant
            without_dev(c@) == without_dev(path@),
            "/dev/"@.len() == 5,
        ensures
            without_dev(c@) == without_dev(path@),
            !text::begins(c@, "/dev/"@),
        decreases c@.len(),
    {
        let n: usize = c.len();
        let rest: Vec<char> = cut_chars(c.as_slice(), 5, n);
        assert(rest@ =~= c@.skip(5));
        c = rest;
    }
    string_of(c.as_slice())
}

/// The path of a node.
pub fn device_path(node: &str) -> (r: String)
    ensures
        r@ == (if text::begins(node@, "/dev/"@) {
            node@
        } else {
            "/dev/"@ + node@
        }),
{
    let c: Vec<char> = chars_of(node);
    if starts_with(c.as_slice(), "/dev/") {
        node.to_owned()
    } else {
        join2("/dev/", node)
    }
}

/// A drive of a Mac at a device.
pub fn drive_of_mac(name: &str, node: &str, disc: Option<MacDisc>) -> (r: DriveInfo)
    ensures
        r@ == mac_drive(name@, node@, disc),
{
    let path: String = device_path(node);
    let raw_device_path: String = cut_dev(path.as_str());
    match disc {
        Some(d) => {
            let shown: String = text_or(&d.mount_point, path.as_str());
            DriveInfo {
                name: name.to_owned(),
                device_path: shown,
                raw_device_path,
                has_disc: true,
                volume_name: d.volume_name,
                mount_point: d.mount_point,
            }
        },
        None => DriveInfo {
            name: name.to_owned(),
            device_path: path,
            raw_device_path,
            has_disc: false,
            volume_name: None,
            mount_point: None,
        },
    }
}

/// Whether the first word of a disk's first row is the type of a partition.
pub open spec fn is_partition_type(word: Seq<char>) -> bool {
    text::find_char(word, 0, '_') < word.len() || word == "Apple"@ || word == "EFI"@ || word
        == "FAT"@ || word == "Microsoft"@ || word == "Linux"@ || word == "FreeBSD"@
}

/// Whether the first row of a disk shows no partition type, as that of an optical
/// disc does.
pub open spec fn is_bare_row(row: Seq<char>) -> bool {
    let t = text::trim_front(row);
    if !text::begins(t, "0:"@) {
        false
    } else {
        let words = text::words_of(t.skip(2));
        !is_partition_type(
            if words.len() == 0 {
                ""@
            } else {
                words[0]
            },
        )
    }
}

/// The node that a row of a list of disks heads, if it does.
pub open spec fn headed_node(row: Seq<char>) -> Option<Seq<char>> {
    if text::begins(row, "/dev/disk"@) {
        let words = text::words_of(row);
        if words.len() == 0 {
            None
        } else {
            Some(without_dev(words[0]))
        }
    } else {
        None
    }
}

/// The nodes that may be optical discs in the rows of a list of disks from `k` on:
/// `node` is the disk whose rows are read, and `heading` says that its row of column
/// names comes next.
pub open spec fn bare_nodes(
    rows: Seq<Seq<char>>,
    k: int,
    node: Option<Seq<char>>,
    heading: bool,
) -> Seq<Seq<char>>
    decreases rows.len() - k,
{
    if k < 0 || k >= rows.len() {
        seq![]
    } else if text::begins(rows[k], "/dev/disk"@) {
        bare_nodes(rows, k + 1, headed_node(rows[k]), true)
    } else if heading {
        bare_nodes(rows, k + 1, node, false)
    } else {
        match node {
            Some(n) => if is_bare_row(rows[k]) {
                seq![n] + bare_nodes(rows, k + 1, None, false)
            } else {
                bare_nodes(rows, k + 1, None, false)
            },
            None => bare_nodes(rows, k + 1, None, false),
        }
    }
}

/// Whether a word is the type of a partition.
fn names_partition(word: &[char]) -> (r: bool)
    ensures
        r == is_partition_type(word@),
{
    find_char_from(word, 0, '_') < word.len() || is_text(word, "Apple") || is_text(word, "EFI")
        || is_text(word, "FAT") || is_text(word, "Microsoft") || is_text(word, "Linux") || is_text(
        word,
        "FreeBSD",
    )
}

/// A text without the blanks before it.
fn cut_front(row: &[char]) -> (r: Vec<char>)
    ensures
        r@ == text::trim_front(row@),
{
    let n: usize = row.len();
    let mut i: usize = 0;
    assert(row@.skip(0) =~= row@);
    while i < n && text::is_whitespace(row[i])
        invariant
            i <= n,
            n == row@.len(),
            text::trim_front(row@.skip(i as int)) == text::trim_front(row@),
        ensures
            i <= n,
            n == row@.len(),
            text::trim_front(row@.skip(i as int)) == text::trim_front(row@),
            i < n ==> !text::is_white(row@[i as int]),
        decreases n - i,
    {
        assert(row@.skip(i as int).skip(1) =~= row@.skip(i + 1));
        i += 1;
    }
    assert(row@.subrange(i as int, n as int) =~= row@.skip(i as int));
    cut_chars(row, i, n)
}

/// Whether the first row of a disk shows no partition type.
fn shows_no_partition(row: &[char]) -> (r: bool)
    ensures
        r == is_bare_row(row@),
{
    proof {
        reveal_strlit("0:");
        reveal_strlit("");
    }
    let t: Vec<char> = cut_front(row);
    if !starts_with(t.as_slice(), "0:") {
        return false;
    }
    let n: usize = t.len();
    let rest: Vec<char> = cut_chars(t.as_slice(), 2, n);
    assert(rest@ =~= t@.skip(2));
    let w: Vec<Vec<char>> = words(rest.as_slice());
    if w.len() == 0 {
        let none: Vec<char> = Vec::new();
        assert(none@ =~= ""@);
        return !names_partition(none.as_slice());
    }
    assert(text::texts(w@)[0] == w@[0]@);
    !names_partition(w[0].as_slice())
}

/// The node that a row of a list of disks heads.
fn read_headed(row: &[char]) -> (r: Option<String>)
    requires
        text::begins(row@, "/dev/disk"@),
    ensures
        maybe(r) == headed_node(row@),
{
    let w: Vec<Vec<char>> = words(row);
    if w.len() == 0 {
        return None;
    }
    assert(text::texts(w@)[0] == w@[0]@);
    let first: String = string_of(w[0].as_slice());
    Some(cut_dev(first.as_str()))
}

/// Lists the nodes that may be optical discs in a list of disks.
#[verifier::loop_isolation(false)]
pub fn scan_optical_nodes(list: &str) -> (r: Vec<String>)
    ensures
        text::views(r@) == bare_nodes(text::lines_of(list@), 0, None, false),
{
    let c: Vec<char> = chars_of(list);
    let rows: Vec<Vec<char>> = lines(c.as_slice());
    let ghost all = text::lines_of(list@);
    let ghost goal = bare_nodes(all, 0, None, false);
    let mut out: Vec<String> = Vec::new();
    let mut node: Option<String> = None;
    let mut heading: bool = false;
    let mut k: usize = 0;
    assert(text::views(out@) + goal =~= goal);
    while k < rows.len()
        invariant
            k <= rows@.len(),
            text::views(out@) + bare_nodes(all, k as int, maybe(node), heading) == goal,
        decreases rows@.len() - k,
    {
        assert(text::texts(rows@)[k as int] == rows@[k as int]@);
        let ghost before = text::views(out@);
        if starts_with(rows[k].as_slice(), "/dev/disk") {
            node = read_headed(rows[k].as_slice());
            heading = true;
        } else if heading {
            heading = false;
        } else {
            let taken: Option<String> = node;
            node = None;
            match taken {
                Some(n) => {
                    if shows_no_partition(rows[k].as_slice()) {
                        let ghost rest = bare_nodes(all, k + 1, None, false);
                        let ghost nv = n@;
                        out.push(n);
                        assert(text::views(out@) =~= before.push(nv));
                        assert(before + (seq![nv] + rest) =~= text::views(out@) + rest);
                    }
                },
                None => {},
            }
        }
        k += 1;
    }
    assert(text::views(out@) + bare_nodes(all, k as int, maybe(node), heading) =~= text::views(
        out@,
    ));
    out
}

/// Whether the first `k` rows tell of an optical drive.
pub open spec fn optical_before(rows: Seq<Seq<char>>, k: int) -> bool
    decreases k,
{
    if k <= 0 || k > rows.len() {
        false
    } else {
        text::begins(text::trimmed(rows[k - 1]), "Optical Drive Type:"@) || optical_before(
            rows,
            k - 1,
        )
    }
}

/// The last name of a medium that the first `k` rows tell.
pub open spec fn media_before(rows: Seq<Seq<char>>, k: int) -> Seq<char>
    decreases k,
{
    if k <= 0 || k > rows.len() {
        ""@
    } else {
        match behind(rows[k - 1], "Device / Media Name:"@) {
            Some(n) => n,
            None => media_before(rows, k - 1),
        }
    }
}

/// Reads the name of the optical drive that a description is about; none where it is
/// about something else.
#[verifier::loop_isolation(false)]
pub fn optical_media_name(info: &str) -> (r: Option<String>)
    ensures
        ({
            let rows = text::lines_of(info@);
            let name = media_before(rows, rows.len() as int);
            maybe(r) == (if optical_before(rows, rows.len() as int) && name.len() > 0 {
                Some(name)
            } else {
                None
            })
        }),
{
    let c: Vec<char> = chars_of(info);
    let rows: Vec<Vec<char>> = lines(c.as_slice());
    let ghost all = text::lines_of(info@);
    let mut optical: bool = false;
    let mut name: String = "".to_owned();
    let mut k: usize = 0;
    while k < rows.len()
        invariant
            k <= rows@.len(),
            optical == optical_before(all, k as int),
            name@ == media_before(all, k as int),
        decreases rows@.len() - k,
    {
        assert(text::texts(rows@)[k as int] == rows@[k as int]@);
        let t: Vec<char> = trim(rows[k].as_slice());
        if starts_with(t.as_slice(), "Optical Drive Type:") {
            optical = true;
        }
        match read_behind(rows[k].as_slice(), "Device / Media Name:") {
            Some(n) => {
                name = string_of(n.as_slice());
            },
            None => {},
        }
        k += 1;
    }
    if optical && chars_of(name.as_str()).len() > 0 {
        Some(name)
    } else {
        None
    }
}

/// A drive as a Mac reports it: its name, the texts in which it may name its node,
/// and whether it names one at all.
pub struct MacDrive {
    pub name: Option<String>,
    pub device_node: Option<String>,
    pub burning_device: Option<String>,
    pub bsd_name: Option<String>,
    pub names_node: bool,
}

/// Whether some drive names no node, so that the disks have to be searched.
pub open spec fn lacks_node(v: Seq<MacDrive>) -> bool {
    exists|i: int| 0 <= i < v.len() && !(#[trigger] v[i]).names_node
}

/// Whether some drive names no node, so that the disks have to be searched.
pub fn needs_search(v: &Vec<MacDrive>) -> (r: bool)
    ensures
        r == lacks_node(v@),
{
    let mut i: usize = 0;
    while i < v.len()
        invariant
            i <= v@.len(),
            forall|j: int| 0 <= j < i ==> (#[trigger] v@[j]).names_node,
        decreases v@.len() - i,
    {
        if !v[i].names_node {
            return true;
        }
        i += 1;
    }
    false
}

/// The node of a drive: the first that it names, else the one that a search found.
pub open spec fn node_of(d: MacDrive, found: Option<Seq<char>>) -> Option<Seq<char>> {
    if maybe(d.device_node) is Some {
        maybe(d.device_node)
    } else if maybe(d.burning_device) is Some {
        maybe(d.burning_device)
    } else if maybe(d.bsd_name) is Some {
        maybe(d.bsd_name)
    } else {
        found
    }
}

/// The node of a drive.
pub fn choose_node(d: &MacDrive, found: Option<String>) -> (r: Option<String>)
    ensures
        maybe(r) == node_of(*d, maybe(found)),
{
    if d.device_node.is_some() {
        copy_of(&d.device_node)
    } else if d.burning_device.is_some() {
        copy_of(&d.burning_device)
    } else if d.bsd_name.is_some() {
        copy_of(&d.bsd_name)
    } else {
        found
    }
}

// ── Ejecting ────────────────────────────────────────────────────────────────

/// What is under way while a disc is ejected.
#[derive(Clone, Copy, PartialEq, Eq, Structural)]
pub enum EjectStage {
    Diskutil,
    Shell,
    Eject,
    /// The second try, after `eject` failed.
    Udisks,
    /// The second try, where there is no `eject`.
    OnlyUdisks,
}

/// What follows a job while a disc is ejected; the text is what `eject` wrote.
pub enum EjectNext {
    Do(EjectStage, String, Job),
    Done,
    Fail(String),
}

/// The contents of what follows a job while a disc is ejected.
pub enum EjectNextView {
    Do(EjectStage, Seq<char>, JobView),
    Done,
    Fail(Seq<char>),
}

impl View for EjectNext {
    type V = EjectNextView;

    open spec fn view(&self) -> EjectNextView {
        match self {
            EjectNext::Do(s, t, j) => EjectNextView::Do(*s, t@, j@),
            EjectNext::Done => EjectNextView::Done,
            EjectNext::Fail(e) => EjectNextView::Fail(e@),
        }
    }
}

/// How ejecting a disc begins.
pub open spec fn eject_start(p: Platform, path: Seq<char>) -> EjectNextView {
    match p {
        Platform::Mac => EjectNextView::Do(
            EjectStage::Diskutil,
            ""@,
            host::job(JobKind::EjectDiskutil, path),
        ),
        Platform::Windows => EjectNextView::Do(
            EjectStage::Shell,
            ""@,
            host::job(JobKind::EjectShell, path),
        ),
        Platform::Linux => EjectNextView::Do(
            EjectStage::Eject,
            ""@,
            host::job(JobKind::Eject, path),
        ),
    }
}

/// What follows a job while a disc is ejected.
pub open spec fn eject_after(
    stage: EjectStage,
    first: Seq<char>,
    path: Seq<char>,
    e: EventView,
) -> EjectNextView {
    match stage {
        EjectStage::Diskutil => if !e.ran {
            EjectNextView::Fail("diskutil eject failed: "@ + e.err)
        } else if !e.success {
            EjectNextView::Fail(text::trimmed(e.err))
        } else {
            EjectNextView::Done
        },
        EjectStage::Shell => if !e.ran {
            EjectNextView::Fail("PowerShell eject failed: "@ + e.err)
        } else {
            EjectNextView::Done
        },
        EjectStage::Eject => if e.ran && e.success {
            EjectNextView::Done
        } else if e.ran {
            EjectNextView::Do(
                EjectStage::Udisks,
                text::trimmed(e.err),
                host::job(JobKind::EjectUdisks, path),
            )
        } else {
            EjectNextView::Do(
                EjectStage::OnlyUdisks,
                ""@,
                host::job(JobKind::EjectUdisks, path),
            )
        },
        EjectStage::Udisks => if e.ran && e.success {
            EjectNextView::Done
        } else if e.ran {
            EjectNextView::Fail(
                "eject: "@ + first + "; udisksctl: "@ + text::trimmed(e.err),
            )
        } else {
            EjectNextView::Fail(first)
        },
        EjectStage::OnlyUdisks => if e.ran && e.success {
            EjectNextView::Done
        } else if e.ran {
            EjectNextView::Fail(text::trimmed(e.err))
        } else {
            EjectNextView::Fail("Neither 'eject' nor 'udisksctl' is available on this system"@)
        },
    }
}

/// A second try is the last one.
pub proof fn ejecting_ends(
    stage: EjectStage,
    first: Seq<char>,
    path: Seq<char>,
    e: EventView,
    again: EventView,
)
    ensures
        eject_after(stage, first, path, e) matches EjectNextView::Do(s, t, _) ==> !(eject_after(
            s,
            t,
            path,
            again,
        ) is Do),
{
}

/// Begins to eject a disc.
pub fn begin_eject(p: Platform, path: &str) -> (r: EjectNext)
    ensures
        r@ == eject_start(p, path@),
{
    match p {
        Platform::Mac => EjectNext::Do(
            EjectStage::Diskutil,
            "".to_owned(),
            make_job(JobKind::EjectDiskutil, path),
        ),
        Platform::Windows => EjectNext::Do(
            EjectStage::Shell,
            "".to_owned(),
            make_job(JobKind::EjectShell, path),
        ),
        Platform::Linux => EjectNext::Do(
            EjectStage::Eject,
            "".to_owned(),
            make_job(JobKind::Eject, path),
        ),
    }
}

/// What follows a job while a disc is ejected.
pub fn eject_disc(stage: EjectStage, first: &str, path: &str, e: &Event) -> (r: EjectNext)
    ensures
        r@ == eject_after(stage, first@, path@, e@),
{
    match stage {
        EjectStage::Diskutil => if !e.ran {
            EjectNext::Fail(join2("diskutil eject failed: ", e.err.as_str()))
        } else if !e.success {
            EjectNext::Fail(trimmed_text(e.err.as_str()))
        } else {
            EjectNext::Done
        },
        EjectStage::Shell => if !e.ran {
            EjectNext::Fail(join2("PowerShell eject failed: ", e.err.as_str()))
        } else {
            EjectNext::Done
        },
        EjectStage::Eject => if e.ran && e.success {
            EjectNext::Done
        } else if e.ran {
            EjectNext::Do(
                EjectStage::Udisks,
                trimmed_text(e.err.as_str()),
                make_job(JobKind::EjectUdisks, path),
            )
        } else {
            EjectNext::Do(
                EjectStage::OnlyUdisks,
                "".to_owned(),
                make_job(JobKind::EjectUdisks, path),
            )
        },
        EjectStage::Udisks => if e.ran && e.success {
            EjectNext::Done
        } else if e.ran {
            let second: String = trimmed_text(e.err.as_str());
            let head: String = join3("eject: ", first, "; udisksctl: ");
            EjectNext::Fail(join2(head.as_str(), second.as_str()))
        } else {
            EjectNext::Fail(first.to_owned())
        },
        EjectStage::OnlyUdisks => if e.ran && e.success {
            EjectNext::Done
        } else if e.ran {
            EjectNext::Fail(trimmed_text(e.err.as_str()))
        } else {
            EjectNext::Fail(
                "Neither 'eject' nor 'udisksctl' is available on this system".to_owned(),
            )
        },
    }
}

} // verus!
