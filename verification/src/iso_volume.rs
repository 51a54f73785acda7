//! The sectors of an ISO 9660 volume, and what its descriptors show: name spaces,
//! boot images and the path table.
use vstd::prelude::*;
use crate::bytes;
use crate::bytes::{cut, read_u16_le, read_u32_le, spells_at};
use crate::entry;
use crate::entry::{DiscEntry, EntryView};
use crate::numbers;
use crate::numbers::decimal_string;
use crate::sector;
use crate::sector::data_position;
use crate::sanitize;
use crate::source;
use crate::source::{read_wide, ByteSource, Reads};
use crate::text;
use crate::text::{
    chars_of, from_utf8_lossy, join2, same_text, string_of, trim_end_of, trim_start_of,
};
use crate::track;
use crate::track::descramble_sector;

verus! {

/// How the sectors of a volume stand in a file.
#[derive(Clone, Copy)]
pub struct TrackLayout {
    pub track_offset: u64,
    pub user_data_offset: u64,
    pub stride: u64,
    pub lba_offset: u64,
    pub descramble: bool,
}

/// What the sectors of a volume hold: 2048 bytes each, or nothing where a sector
/// cannot be read.
pub type Sectors = spec_fn(int) -> Option<Seq<u8>>;

/// Whether the user data of scrambled sectors lies within them.
pub open spec fn layout_ok(l: TrackLayout) -> bool {
    l.descramble ==> l.user_data_offset <= 304
}

/// Where a sector stands in its track.
pub open spec fn in_track(l: TrackLayout, lba: int) -> int {
    if lba >= l.lba_offset {
        lba - l.lba_offset
    } else {
        lba
    }
}

/// The user data of a sector.
pub open spec fn logical(reads: Reads, l: TrackLayout, table: Seq<u8>, lba: int) -> Option<Seq<u8>> {
    let off = l.track_offset as int;
    let stride = l.stride as int;
    let data = l.user_data_offset as int;
    if l.descramble {
        match source::reach(reads, sector::data_pos(off, stride, 0, in_track(l, lba)), 2352) {
            Err(_) => None,
            Ok(s) => Some(track::descrambled(s, table).subrange(data, data + 2048)),
        }
    } else {
        match sector::data_at(reads, off, stride, data, in_track(l, lba)) {
            Err(_) => None,
            Ok(s) => Some(s),
        }
    }
}

/// The sectors of a volume in a track.
pub open spec fn sectors_of(reads: Reads, l: TrackLayout, table: Seq<u8>) -> Sectors {
    |lba: int| logical(reads, l, table, lba)
}

/// Reads the user data of a sector.
pub fn read_track_logical<S: ByteSource>(
    source: &mut S,
    l: &TrackLayout,
    table: &[u8],
    lba: u64,
) -> (r: Option<Vec<u8>>)
    requires
        layout_ok(*l),
    ensures
        final(source).reads() == old(source).reads(),
        match r {
            Some(b) => logical(old(source).reads(), *l, table@, lba as int) == Some(b@) && b@.len()
                == 2048,
            None => logical(old(source).reads(), *l, table@, lba as int) is None,
        },
{
    let n: u64 = if lba >= l.lba_offset {
        lba - l.lba_offset
    } else {
        lba
    };
    if l.descramble {
        let pos: u128 = data_position(l.track_offset, l.stride, 0, n);
        match read_wide(source, pos, 2352, "") {
            Err(_) => None,
            Ok(s) => {
                let d: Vec<u8> = descramble_sector(s.as_slice(), table);
                let at: usize = l.user_data_offset as usize;
                Some(cut(d.as_slice(), at, at + 2048))
            },
        }
    } else {
        let pos: u128 = data_position(l.track_offset, l.stride, l.user_data_offset, n);
        match read_wide(source, pos, 2048, "") {
            Err(_) => None,
            Ok(s) => Some(s),
        }
    }
}

// ── Name spaces and boot records ────────────────────────────────────────────

/// Whether one of the system use fields of `s` from `p` to `end` marks the use of
/// the sharing protocol.
pub open spec fn susp_from(s: Seq<u8>, p: int, end: int) -> bool
    decreases end - p,
{
    if p < 0 || p + 6 >= end {
        false
    } else if s[p + 2] < 4 || p + s[p + 2] > end {
        false
    } else if s[p] == 0x53 && s[p + 1] == 0x50 && s[p + 4] == 0xBE && s[p + 5] == 0xEF {
        true
    } else {
        susp_from(s, p + s[p + 2], end)
    }
}

/// Where the system use area of a directory record starts.
pub open spec fn system_use_start(s: Seq<u8>) -> int {
    33 + s[32] + if s[32] % 2 == 0 {
        1int
    } else {
        0
    }
}

/// Whether the directory record at the start of a sector marks the use of the
/// sharing protocol.
pub open spec fn has_susp(s: Seq<u8>) -> bool {
    s.len() >= 34 && system_use_start(s) <= s[0] <= s.len() && susp_from(
        s,
        system_use_start(s),
        s[0] as int,
    )
}

/// Whether the directory record at the start of a sector marks the use of the
/// sharing protocol.
#[verifier::loop_isolation(false)]
pub fn iso_dir_record_has_susp(s: &[u8]) -> (r: bool)
    ensures
        r == has_susp(s@),
{
    let len: usize = s.len();
    if len < 34 {
        return false;
    }
    let end: usize = s[0] as usize;
    let name: usize = s[32] as usize;
    let start: usize = 33 + name + if name % 2 == 0 {
        1
    } else {
        0
    };
    if end < start || end > len {
        return false;
    }
    let mut p: usize = start;
    while p + 6 < end
        invariant
            start <= p <= end,
            susp_from(s@, p as int, end as int) == susp_from(s@, start as int, end as int),
        decreases end - p,
    {
        let l: usize = s[p + 2] as usize;
        if l < 4 || p + l > end {
            return false;
        }
        if s[p] == 0x53 && s[p + 1] == 0x50 && s[p + 4] == 0xBE && s[p + 5] == 0xEF {
            return true;
        }
        p += l;
    }
    false
}

/// Whether a descriptor is a Joliet one.
pub open spec fn is_joliet(d: Seq<u8>) -> bool {
    d[0] == 2 && (bytes::spells(d, 88, "%/@"@) || bytes::spells(d, 88, "%/C"@) || bytes::spells(
        d,
        88,
        "%/E"@,
    ))
}

/// Whether a descriptor is an El Torito boot record.
pub open spec fn is_boot_record(d: Seq<u8>) -> bool {
    d[0] == 0 && bytes::spells(d, 1, "CD001"@) && bytes::spells(d, 7, "EL TORITO SPECIFICATION"@)
}

/// Whether a descriptor is a Joliet one.
pub fn joliet_descriptor(d: &[u8]) -> (r: bool)
    requires
        d@.len() > 0,
    ensures
        r == is_joliet(d@),
{
    d[0] == 2 && (spells_at(d, 88, "%/@") || spells_at(d, 88, "%/C") || spells_at(d, 88, "%/E"))
}

/// Whether a descriptor is an El Torito boot record.
pub fn boot_record(d: &[u8]) -> (r: bool)
    requires
        d@.len() > 0,
    ensures
        r == is_boot_record(d@),
{
    d[0] == 0 && spells_at(d, 1, "CD001") && spells_at(d, 7, "EL TORITO SPECIFICATION")
}

/// What the descriptors from `lba` on show, up to the last one or sector 32.
pub open spec fn descriptors_from(sectors: Sectors, lba: int) -> Seq<Seq<char>>
    decreases 32 - lba,
{
    if lba >= 32 {
        seq![]
    } else {
        match sectors(lba) {
            None => seq![],
            Some(d) => if d[0] == 0xFF {
                seq![]
            } else if is_boot_record(d) {
                seq!["El Torito"@] + descriptors_from(sectors, lba + 1)
            } else if is_joliet(d) {
                seq!["Joliet"@] + descriptors_from(sectors, lba + 1)
            } else {
                descriptors_from(sectors, lba + 1)
            },
        }
    }
}

/// Whether the root directory that a volume descriptor names uses the sharing
/// protocol, as Rock Ridge does.
pub open spec fn has_rock_ridge(pvd: Seq<u8>, sectors: Sectors) -> bool {
    pvd.len() >= 162 && (sectors(bytes::le32_at(pvd, 158)) matches Some(root) && has_susp(root))
}

/// The views that a volume offers beside the plain one.
pub open spec fn extra_views(pvd: Seq<u8>, sectors: Sectors) -> Seq<Seq<char>> {
    let first: Seq<Seq<char>> = if has_rock_ridge(pvd, sectors) {
        seq!["Rock Ridge"@]
    } else {
        seq![]
    };
    first + descriptors_from(sectors, 17) + seq!["Path Table"@]
}

/// Adds a text to a list.
pub fn push_text(out: &mut Vec<String>, t: &str)
    ensures
        text::views(final(out)@) == text::views(old(out)@).push(t@),
{
    let ghost before = text::views(out@);
    out.push(t.to_owned());
    assert(text::views(out@) =~= before.push(t@));
}

/// Adds what the descriptors of a volume show.
#[verifier::loop_isolation(false)]
fn add_descriptors<S: ByteSource>(
    source: &mut S,
    l: &TrackLayout,
    table: &[u8],
    out: &mut Vec<String>,
)
    requires
        layout_ok(*l),
    ensures
        final(source).reads() == old(source).reads(),
        text::views(final(out)@) == text::views(old(out)@) + descriptors_from(
            sectors_of(old(source).reads(), *l, table@),
            17,
        ),
{
    let ghost reads = source.reads();
    let ghost sectors = sectors_of(reads, *l, table@);
    let ghost goal = text::views(out@) + descriptors_from(sectors, 17);
    let mut lba: u64 = 17;
    while lba < 32
        invariant
            17 <= lba <= 32,
            source.reads() == reads,
            text::views(out@) + descriptors_from(sectors, lba as int) == goal,
        decreases 32 - lba,
    {
        let ghost before = text::views(out@);
        let ghost rest = descriptors_from(sectors, lba + 1);
        let d: Vec<u8> = match read_track_logical(source, l, table, lba) {
            Some(d) => d,
            None => {
                assert(before + seq![] =~= before);
                return ;
            },
        };
        assert(sectors(lba as int) == Some(d@));
        if d[0] == 0xFF {
            assert(before + seq![] =~= before);
            return ;
        }
        if boot_record(d.as_slice()) {
            push_text(out, "El Torito");
            assert(before + (seq!["El Torito"@] + rest) =~= before.push("El Torito"@) + rest);
        } else if joliet_descriptor(d.as_slice()) {
            push_text(out, "Joliet");
            assert(before + (seq!["Joliet"@] + rest) =~= before.push("Joliet"@) + rest);
        }
        lba += 1;
    }
    assert(text::views(out@) + seq![] =~= text::views(out@));
}

/// Adds the views that a volume offers beside the plain one: `pvd` is its
/// descriptor.
pub fn iso_extra_filesystems<S: ByteSource>(
    pvd: &[u8],
    source: &mut S,
    l: &TrackLayout,
    table: &[u8],
    out: &mut Vec<String>,
)
    requires
        layout_ok(*l),
    ensures
        final(source).reads() == old(source).reads(),
        text::views(final(out)@) == text::views(old(out)@) + extra_views(
            pvd@,
            sectors_of(old(source).reads(), *l, table@),
        ),
{
    let ghost head = text::views(out@);
    let ghost sectors = sectors_of(source.reads(), *l, table@);
    let ghost first: Seq<Seq<char>> = if has_rock_ridge(pvd@, sectors) {
        seq!["Rock Ridge"@]
    } else {
        seq![]
    };
    if pvd.len() >= 162 {
        let root: u32 = read_u32_le(pvd, 158);
        let found: Option<Vec<u8>> = read_track_logical(source, l, table, root as u64);
        if let Some(s) = found {
            assert(sectors(root as int) == Some(s@));
            if iso_dir_record_has_susp(s.as_slice()) {
                push_text(out, "Rock Ridge");
            }
        }
    }
    assert(text::views(out@) =~= head + first);
    add_descriptors(source, l, table, out);
    push_text(out, "Path Table");
    assert(text::views(out@) =~= head + extra_views(pvd@, sectors));
}

// ── El Torito ───────────────────────────────────────────────────────────────

/// A boot image: its name, first sector and length.
pub struct ElToritoImage {
    pub name: String,
    pub lba: u32,
    pub size: u32,
}

/// The contents of a boot image's description.
#[verifier::ext_equal]
pub struct ImageView {
    pub name: Seq<char>,
    pub lba: u32,
    pub size: u32,
}

impl View for ElToritoImage {
    type V = ImageView;

    open spec fn view(&self) -> ImageView {
        ImageView { name: self.name@, lba: self.lba, size: self.size }
    }
}

/// The contents of the descriptions of boot images.
pub open spec fn image_views(v: Seq<ElToritoImage>) -> Seq<ImageView> {
    v.map_values(|i: ElToritoImage| i@)
}

/// The name of the medium that a boot image stands for.
pub open spec fn media_name(media: u8) -> Seq<char> {
    let m = media % 16;
    if m == 0 {
        "No Emulation"@
    } else if m == 1 {
        "1.2MB Diskette"@
    } else if m == 2 {
        "1.44MB Diskette"@
    } else if m == 3 {
        "2.88MB Diskette"@
    } else if m == 4 {
        "Hard Disk"@
    } else {
        "Unknown"@
    }
}

/// The length of a boot image: that of the diskette, or of the sectors of 512
/// bytes that are counted, at least one.
pub open spec fn image_len(e: Seq<u8>, at: int) -> u32 {
    let m = e[at + 1] % 16;
    let n = bytes::le16_at(e, at + 6);
    if m == 1 {
        1_228_800
    } else if m == 2 {
        1_474_560
    } else if m == 3 {
        2_949_120
    } else if n == 0 {
        512
    } else {
        (n * 512) as u32
    }
}

/// The boot image of the catalog entry at `at`.
pub open spec fn image_at(e: Seq<u8>, at: int, label: Seq<char>, idx: int) -> Option<ImageView> {
    let lba = bytes::le32_at(e, at + 8);
    if lba == 0 {
        None
    } else {
        Some(
            ImageView {
                name: label + " Boot "@ + numbers::decimal(idx) + " ("@ + media_name(e[at + 1])
                    + ").img"@,
                lba: lba as u32,
                size: image_len(e, at),
            },
        )
    }
}

/// The name of the medium that a boot image stands for.
pub fn el_torito_media_name(media: u8) -> (r: String)
    ensures
        r@ == media_name(media),
{
    let m: u8 = media % 16;
    if m == 0 {
        "No Emulation".to_owned()
    } else if m == 1 {
        "1.2MB Diskette".to_owned()
    } else if m == 2 {
        "1.44MB Diskette".to_owned()
    } else if m == 3 {
        "2.88MB Diskette".to_owned()
    } else if m == 4 {
        "Hard Disk".to_owned()
    } else {
        "Unknown".to_owned()
    }
}

/// The boot image of the catalog entry at `at`.
pub fn parse_el_torito_entry(e: &[u8], at: usize, label: &str, idx: u64) -> (r: Option<
    ElToritoImage,
>)
    requires
        at + 12 <= e@.len(),
    ensures
        match r {
            Some(i) => image_at(e@, at as int, label@, idx as int) == Some(i@),
            None => image_at(e@, at as int, label@, idx as int) is None,
        },
{
    let len: usize = e.len();
    let media: u8 = e[at + 1];
    let m: u8 = media % 16;
    let n: u16 = read_u16_le(e, at + 6);
    let lba: u32 = read_u32_le(e, at + 8);
    if lba == 0 {
        return None;
    }
    let size: u32 = if m == 1 {
        1_228_800
    } else if m == 2 {
        1_474_560
    } else if m == 3 {
        2_949_120
    } else if n == 0 {
        512
    } else {
        n as u32 * 512
    };
    let number: String = decimal_string(idx);
    let medium: String = el_torito_media_name(media);
    let mut name: String = label.to_owned();
    name.append(" Boot ");
    name.append(number.as_str());
    name.append(" (");
    name.append(medium.as_str());
    name.append(").img");
    Some(ElToritoImage { name, lba, size })
}

/// The boot images of the catalog's sections from `at` on: `left` entries of the
/// present section follow, `last` says whether it is the last one, and `n` is the
/// number of the next image.
pub open spec fn section_images(cat: Seq<u8>, at: int, left: int, last: bool, n: int) -> Seq<
    ImageView,
>
    decreases cat.len() - at,
{
    if at < 0 || at + 32 > cat.len() {
        seq![]
    } else if left > 0 {
        match image_at(cat, at, "Section"@, n) {
            Some(i) => seq![i] + section_images(cat, at + 32, left - 1, last, n + 1),
            None => section_images(cat, at + 32, left - 1, last, n),
        }
    } else if last || (cat[at] != 0x90 && cat[at] != 0x91) {
        seq![]
    } else {
        section_images(cat, at + 32, bytes::le16_at(cat, at + 2), cat[at] == 0x91, n)
    }
}

/// The boot images of a catalog: the default one, then those of its sections.
pub open spec fn catalog_images(cat: Seq<u8>) -> Seq<ImageView> {
    match image_at(cat, 32, "Default"@, 1) {
        Some(i) => seq![i] + section_images(cat, 64, 0, false, 2),
        None => section_images(cat, 64, 0, false, 1),
    }
}

/// Where the boot catalog stands that a boot record from `lba` on names.
pub open spec fn catalog_from(sectors: Sectors, lba: int) -> Option<int>
    decreases 32 - lba,
{
    if lba >= 32 {
        None
    } else {
        match sectors(lba) {
            None => None,
            Some(d) => if d[0] == 0xFF {
                None
            } else if is_boot_record(d) {
                Some(bytes::le32_at(d, 71))
            } else {
                catalog_from(sectors, lba + 1)
            },
        }
    }
}

/// The boot images of a volume.
pub open spec fn boot_images(sectors: Sectors) -> Result<Seq<ImageView>, Seq<char>> {
    match catalog_from(sectors, 17) {
        None => Err("No El Torito boot record found"@),
        Some(lba) => match sectors(lba) {
            None => Err("Cannot read El Torito boot catalog"@),
            Some(cat) => if catalog_images(cat).len() == 0 {
                Err("El Torito catalog contains no boot images"@)
            } else {
                Ok(catalog_images(cat))
            },
        },
    }
}

/// Finds where the boot catalog stands.
#[verifier::loop_isolation(false)]
fn find_catalog<S: ByteSource>(source: &mut S, l: &TrackLayout, table: &[u8]) -> (r: Option<u32>)
    requires
        layout_ok(*l),
    ensures
        final(source).reads() == old(source).reads(),
        match r {
            Some(v) => catalog_from(sectors_of(old(source).reads(), *l, table@), 17) == Some(
                v as int,
            ),
            None => catalog_from(sectors_of(old(source).reads(), *l, table@), 17) is None,
        },
{
    let ghost reads = source.reads();
    let ghost sectors = sectors_of(reads, *l, table@);
    let mut lba: u64 = 17;
    while lba < 32
        invariant
            17 <= lba <= 32,
            source.reads() == reads,
            catalog_from(sectors, lba as int) == catalog_from(sectors, 17),
        decreases 32 - lba,
    {
        let d: Vec<u8> = match read_track_logical(source, l, table, lba) {
            Some(d) => d,
            None => {
                return None;
            },
        };
        assert(sectors(lba as int) == Some(d@));
        if d[0] == 0xFF {
            return None;
        }
        if boot_record(d.as_slice()) {
            return Some(read_u32_le(d.as_slice(), 71));
        }
        lba += 1;
    }
    None
}

/// The boot images of a catalog.
#[verifier::loop_isolation(false)]
pub fn parse_catalog(cat: &[u8]) -> (r: Vec<ElToritoImage>)
    requires
        cat@.len() == 2048,
    ensures
        image_views(r@) == catalog_images(cat@),
{
    let mut out: Vec<ElToritoImage> = Vec::new();
    let mut n: u64 = 1;
    let ghost goal = catalog_images(cat@);
    assert(image_views(out@) =~= seq![]);
    match parse_el_torito_entry(cat, 32, "Default", 1) {
        Some(i) => {
            let ghost iv = i@;
            out.push(i);
            assert(image_views(out@) =~= seq![iv]);
            n = 2;
        },
        None => {},
    }
    let mut at: usize = 64;
    let mut left: u16 = 0;
    let mut last: bool = false;
    let mut more: bool = true;
    assert(image_views(out@) + section_images(cat@, 64, 0, false, n as int) =~= goal);
    while more && at + 32 <= 2048
        invariant
            64 <= at <= 2048,
            n <= at,
            more ==> image_views(out@) + section_images(
                cat@,
                at as int,
                left as int,
                last,
                n as int,
            ) == goal,
            !more ==> image_views(out@) == goal,
        decreases 2048 - at + if more {
            1int
        } else {
            0
        },
    {
        let ghost before = image_views(out@);
        if left > 0 {
            match parse_el_torito_entry(cat, at, "Section", n) {
                Some(i) => {
                    let ghost iv = i@;
                    let ghost rest = section_images(cat@, at + 32, left - 1, last, n + 1);
                    out.push(i);
                    assert(image_views(out@) =~= before + seq![iv]);
                    assert(before + (seq![iv] + rest) =~= before + seq![iv] + rest);
                    n += 1;
                },
                None => {},
            }
            left -= 1;
            at += 32;
        } else if last || (cat[at] != 0x90 && cat[at] != 0x91) {
            assert(before + seq![] =~= before);
            more = false;
        } else {
            left = read_u16_le(cat, at + 2);
            last = cat[at] == 0x91;
            at += 32;
        }
    }
    assert(image_views(out@) + seq![] =~= image_views(out@));
    out
}

/// Reads the boot images of a volume.
pub fn parse_el_torito<S: ByteSource>(source: &mut S, l: &TrackLayout, table: &[u8]) -> (r: Result<
    Vec<ElToritoImage>,
    String,
>)
    requires
        layout_ok(*l),
    ensures
        final(source).reads() == old(source).reads(),
        match r {
            Ok(v) => boot_images(sectors_of(old(source).reads(), *l, table@)) == Ok::<
                Seq<ImageView>,
                Seq<char>,
            >(image_views(v@)),
            Err(e) => boot_images(sectors_of(old(source).reads(), *l, table@)) == Err::<
                Seq<ImageView>,
                Seq<char>,
            >(e@),
        },
{
    let ghost sectors = sectors_of(source.reads(), *l, table@);
    let lba: u32 = match find_catalog(source, l, table) {
        Some(v) => v,
        None => {
            return Err("No El Torito boot record found".to_owned());
        },
    };
    let cat: Vec<u8> = match read_track_logical(source, l, table, lba as u64) {
        Some(c) => c,
        None => {
            assert(sectors(lba as int) is None);
            return Err("Cannot read El Torito boot catalog".to_owned());
        },
    };
    assert(sectors(lba as int) == Some(cat@));
    let images: Vec<ElToritoImage> = parse_catalog(cat.as_slice());
    assert(image_views(images@).len() == images@.len());
    if images.len() == 0 {
        return Err("El Torito catalog contains no boot images".to_owned());
    }
    Ok(images)
}

/// Whether a path is that of the root.
pub open spec fn is_root(path: Seq<char>) -> bool {
    text::strip_back(text::strip_front(path, '/'), '/').len() == 0
}

/// Whether a path is that of the root.
pub fn at_root(path: &str) -> (r: bool)
    ensures
        r == is_root(path@),
{
    let c: Vec<char> = chars_of(path);
    let f: Vec<char> = trim_start_of(c.as_slice(), '/');
    let b: Vec<char> = trim_end_of(f.as_slice(), '/');
    b.len() == 0
}

/// The contents of the outcome of a listing.
pub open spec fn entries_outcome(r: Result<Vec<DiscEntry>, String>) -> Result<
    Seq<EntryView>,
    Seq<char>,
> {
    match r {
        Ok(v) => Ok(entry::listing(v@)),
        Err(e) => Err(e@),
    }
}

/// The boot images of a volume as a directory: all in the root.
pub open spec fn boot_listing(sectors: Sectors, dir: Seq<char>) -> Result<
    Seq<EntryView>,
    Seq<char>,
> {
    if !is_root(dir) {
        Ok(seq![])
    } else {
        match boot_images(sectors) {
            Err(e) => Err(e),
            Ok(v) => Ok(
                v.map_values(|i: ImageView| entry::file_line(i.name, i.lba, i.size, seq![])),
            ),
        }
    }
}

/// Lists the boot images of a volume.
pub fn el_torito_list<S: ByteSource>(source: &mut S, l: &TrackLayout, table: &[u8], dir: &str) -> (r:
    Result<Vec<DiscEntry>, String>)
    requires
        layout_ok(*l),
    ensures
        final(source).reads() == old(source).reads(),
        entries_outcome(r) == boot_listing(sectors_of(old(source).reads(), *l, table@), dir@),
{
    let mut out: Vec<DiscEntry> = Vec::new();
    if !at_root(dir) {
        assert(entry::listing(out@) =~= seq![]);
        return Ok(out);
    }
    let images: Vec<ElToritoImage> = match parse_el_torito(source, l, table) {
        Ok(v) => v,
        Err(e) => {
            return Err(e);
        },
    };
    let ghost iv = image_views(images@);
    let ghost goal = iv.map_values(
        |i: ImageView| entry::file_line(i.name, i.lba, i.size, seq![]),
    );
    let mut k: usize = 0;
    while k < images.len()
        invariant
            k <= images@.len(),
            iv == image_views(images@),
            goal == iv.map_values(
                |i: ImageView| entry::file_line(i.name, i.lba, i.size, seq![]),
            ),
            out@.len() == k,
            forall|j: int| 0 <= j < k ==> (#[trigger] out@[j])@ == goal[j],
        decreases images@.len() - k,
    {
        let i: &ElToritoImage = &images[k];
        assert(iv[k as int] == i@);
        let blank: String = String::new();
        assert(blank@ =~= seq![]);
        let e: DiscEntry = entry::file_entry(i.name.as_str().to_owned(), i.lba, i.size, blank);
        out.push(e);
        k += 1;
    }
    assert(entry::listing(out@) =~= goal);
    Ok(out)
}

/// The `n` bytes from a sector on.
pub open spec fn bytes_from(sectors: Sectors, lba: int, n: int, missing: Seq<char>) -> Result<
    Seq<u8>,
    Seq<char>,
>
    decreases n,
{
    if n <= 0 {
        Ok(seq![])
    } else {
        match sectors(lba) {
            None => Err(missing),
            Some(s) => if n <= 2048 {
                Ok(s.take(n))
            } else {
                source::after(s, bytes_from(sectors, lba + 1, n - 2048, missing))
            },
        }
    }
}

/// Reads the `n` bytes from a sector on.
#[verifier::loop_isolation(false)]
fn read_bytes_from<S: ByteSource>(
    source: &mut S,
    l: &TrackLayout,
    table: &[u8],
    lba: u32,
    n: u32,
    missing: &str,
) -> (r: Result<Vec<u8>, String>)
    requires
        layout_ok(*l),
    ensures
        final(source).reads() == old(source).reads(),
        source::outcome(r) == bytes_from(
            sectors_of(old(source).reads(), *l, table@),
            lba as int,
            n as int,
            missing@,
        ),
{
    let ghost reads = source.reads();
    let ghost sectors = sectors_of(reads, *l, table@);
    let ghost goal = bytes_from(sectors, lba as int, n as int, missing@);
    let mut out: Vec<u8> = Vec::new();
    let mut at: u64 = lba as u64;
    let mut left: u32 = n;
    proof {
        if let Ok(t) = goal {
            assert(out@ + t =~= t);
        }
    }
    while left > 0
        invariant
            left <= n,
            at + left <= lba + n,
            source.reads() == reads,
            source::after(
                out@,
                bytes_from(sectors, at as int, left as int, missing@),
            ) == goal,
        decreases left,
    {
        let s: Vec<u8> = match read_track_logical(source, l, table, at) {
            Some(s) => s,
            None => {
                assert(sectors(at as int) is None);
                return Err(missing.to_owned());
            },
        };
        assert(sectors(at as int) == Some(s@));
        let ghost before = out@;
        if left <= 2048 {
            let mut part: Vec<u8> = cut(s.as_slice(), 0, left as usize);
            assert(s@.subrange(0, left as int) =~= s@.take(left as int));
            out.append(&mut part);
            return Ok(out);
        }
        let ghost whole = s@;
        let ghost rest = bytes_from(sectors, at + 1, left - 2048, missing@);
        let mut s2: Vec<u8> = s;
        out.append(&mut s2);
        proof {
            if let Ok(t) = rest {
                assert(before + (whole + t) =~= (before + whole) + t);
            }
        }
        left -= 2048;
        at += 1;
    }
    assert(out@ + seq![] =~= out@);
    Ok(out)
}

/// The first boot image of a name.
pub open spec fn image_named(v: Seq<ImageView>, name: Seq<char>, k: int) -> Option<ImageView>
    decreases v.len() - k,
{
    if k < 0 || k >= v.len() {
        None
    } else if v[k].name == name {
        Some(v[k])
    } else {
        image_named(v, name, k + 1)
    }
}

/// The bytes of a boot image.
pub open spec fn boot_file(sectors: Sectors, path: Seq<char>) -> Result<Seq<u8>, Seq<char>> {
    let name = text::strip_front(path, '/');
    match boot_images(sectors) {
        Err(e) => Err(e),
        Ok(v) => match image_named(v, name, 0) {
            None => Err("Boot image not found: "@ + name),
            Some(i) => bytes_from(
                sectors,
                i.lba as int,
                i.size as int,
                "Read error while extracting boot image"@,
            ),
        },
    }
}

/// Reads a boot image.
#[verifier::loop_isolation(false)]
pub fn el_torito_extract<S: ByteSource>(
    source: &mut S,
    l: &TrackLayout,
    table: &[u8],
    path: &str,
) -> (r: Result<Vec<u8>, String>)
    requires
        layout_ok(*l),
    ensures
        final(source).reads() == old(source).reads(),
        source::outcome(r) == boot_file(sectors_of(old(source).reads(), *l, table@), path@),
{
    let c: Vec<char> = chars_of(path);
    let stripped: Vec<char> = trim_start_of(c.as_slice(), '/');
    let name: String = string_of(stripped.as_slice());
    let images: Vec<ElToritoImage> = match parse_el_torito(source, l, table) {
        Ok(v) => v,
        Err(e) => {
            return Err(e);
        },
    };
    let ghost iv = image_views(images@);
    let ghost reads = source.reads();
    let mut k: usize = 0;
    while k < images.len()
        invariant
            k <= images@.len(),
            source.reads() == reads,
            image_named(iv, name@, k as int) == image_named(iv, name@, 0),
        decreases images@.len() - k,
    {
        assert(iv[k as int] == images@[k as int]@);
        if same_text(images[k].name.as_str(), name.as_str()) {
            return read_bytes_from(
                source,
                l,
                table,
                images[k].lba,
                images[k].size,
                "Read error while extracting boot image",
            );
        }
        k += 1;
    }
    Err(join2("Boot image not found: ", name.as_str()))
}

/// Whether a boot image has the name of the one numbered `idx`.
pub open spec fn is_numbered(i: ImageView, label: Seq<char>, idx: int) -> bool {
    exists|m: Seq<char>|
        i.name == #[trigger] (label + " Boot "@ + numbers::decimal(idx) + " ("@ + m + ").img"@)
}

/// Two boot images of one label with different numbers have different names.
proof fn lemma_numbers_differ(a: ImageView, b: ImageView, label: Seq<char>, i: int, j: int)
    requires
        is_numbered(a, label, i),
        is_numbered(b, label, j),
        0 <= i,
        0 <= j,
        i != j,
    ensures
        a.name != b.name,
{
    reveal_strlit(" (");
    numbers::a_numeral_spells_its_number(i, 10);
    numbers::a_numeral_spells_its_number(j, 10);
    let ma = choose|m: Seq<char>|
        a.name == #[trigger] (label + " Boot "@ + numbers::decimal(i) + " ("@ + m + ").img"@);
    let mb = choose|m: Seq<char>|
        b.name == #[trigger] (label + " Boot "@ + numbers::decimal(j) + " ("@ + m + ").img"@);
    let at = (label + " Boot "@).len() as int;
    let da = numbers::decimal(i);
    let db = numbers::decimal(j);
    if a.name == b.name {
        if da.len() == db.len() {
            assert(da =~= a.name.subrange(at, at + da.len()));
            assert(db =~= b.name.subrange(at, at + db.len()));
        } else if da.len() < db.len() {
            assert(a.name[at + da.len()] == ' ');
            assert(b.name[at + da.len()] == db[da.len() as int]);
        } else {
            assert(b.name[at + db.len()] == ' ');
            assert(a.name[at + db.len()] == da[db.len() as int]);
        }
    }
}

/// The boot images of sections are numbered on from the first.
proof fn lemma_sections_are_numbered(cat: Seq<u8>, at: int, left: int, last: bool, n: int)
    ensures
        forall|k: int|
            0 <= k < section_images(cat, at, left, last, n).len() ==> is_numbered(
                #[trigger] section_images(cat, at, left, last, n)[k],
                "Section"@,
                n + k,
            ),
    decreases cat.len() - at,
{
    let v = section_images(cat, at, left, last, n);
    if 0 <= at && at + 32 <= cat.len() {
        if left > 0 {
            match image_at(cat, at, "Section"@, n) {
                Some(i) => {
                    let rest = section_images(cat, at + 32, left - 1, last, n + 1);
                    lemma_sections_are_numbered(cat, at + 32, left - 1, last, n + 1);
                    assert forall|k: int| 0 <= k < v.len() implies is_numbered(
                        #[trigger] v[k],
                        "Section"@,
                        n + k,
                    ) by {
                        if k == 0 {
                            let m = media_name(cat[at + 1]);
                            assert(i.name == "Section"@ + " Boot "@ + numbers::decimal(n) + " ("@ + m
                                + ").img"@);
                        } else {
                            assert(v[k] == rest[k - 1]);
                        }
                    }
                },
                None => {
                    lemma_sections_are_numbered(cat, at + 32, left - 1, last, n);
                    assert(v == section_images(cat, at + 32, left - 1, last, n));
                },
            }
        } else if !(last || (cat[at] != 0x90 && cat[at] != 0x91)) {
            lemma_sections_are_numbered(
                cat,
                at + 32,
                bytes::le16_at(cat, at + 2),
                cat[at] == 0x91,
                n,
            );
            assert(v == section_images(
                cat,
                at + 32,
                bytes::le16_at(cat, at + 2),
                cat[at] == 0x91,
                n,
            ));
        } else {
            assert(v.len() == 0);
        }
    } else {
        assert(v.len() == 0);
    }
}

/// No two boot images of a catalog share a name.
pub proof fn boot_images_have_names_of_their_own(cat: Seq<u8>, i: int, j: int)
    requires
        0 <= i < j < catalog_images(cat).len(),
    ensures
        catalog_images(cat)[i].name != catalog_images(cat)[j].name,
{
    let v = catalog_images(cat);
    match image_at(cat, 32, "Default"@, 1) {
        Some(d) => {
            let rest = section_images(cat, 64, 0, false, 2);
            lemma_sections_are_numbered(cat, 64, 0, false, 2);
            assert(is_numbered(rest[j - 1], "Section"@, 2 + (j - 1)));
            assert(v[j] == rest[j - 1]);
            if i == 0 {
                reveal_strlit("Default");
                reveal_strlit("Section");
                let m = choose|m: Seq<char>|
                    rest[j - 1].name == #[trigger] ("Section"@ + " Boot "@ + numbers::decimal(
                        2 + (j - 1),
                    ) + " ("@ + m + ").img"@);
                assert(v[j].name[0] == 'S');
                assert(v[0].name[0] == 'D');
            } else {
                assert(v[i] == rest[i - 1]);
                assert(is_numbered(rest[i - 1], "Section"@, 2 + (i - 1)));
                lemma_numbers_differ(v[i], v[j], "Section"@, 2 + (i - 1), 2 + (j - 1));
            }
        },
        None => {
            lemma_sections_are_numbered(cat, 64, 0, false, 1);
            assert(is_numbered(v[i], "Section"@, 1 + i));
            assert(is_numbered(v[j], "Section"@, 1 + j));
            lemma_numbers_differ(v[i], v[j], "Section"@, 1 + i, 1 + j);
        },
    }
}

proof fn lemma_image_named(v: Seq<ImageView>, i: int, k: int)
    requires
        0 <= k <= i < v.len(),
        forall|j: int| k <= j < i ==> (#[trigger] v[j]).name != v[i].name,
    ensures
        image_named(v, v[i].name, k) == Some(v[i]),
    decreases i - k,
{
    if k < i {
        lemma_image_named(v, i, k + 1);
    }
}

/// A boot image that a listing shows is the one that its name gives.
pub proof fn a_listed_boot_image_is_found(cat: Seq<u8>, i: int)
    requires
        0 <= i < catalog_images(cat).len(),
    ensures
        image_named(catalog_images(cat), catalog_images(cat)[i].name, 0) == Some(
            catalog_images(cat)[i],
        ),
{
    let v = catalog_images(cat);
    assert forall|j: int| 0 <= j < i implies (#[trigger] v[j]).name != v[i].name by {
        boot_images_have_names_of_their_own(cat, j, i);
    }
    lemma_image_named(v, i, 0);
}

/// Whether all characters of a text may stand in a host file name.
spec fn is_clean(s: Seq<char>) -> bool {
    forall|i: int| 0 <= i < s.len() ==> !sanitize::is_illegal(#[trigger] s[i])
}

proof fn lemma_clean_media(media: u8)
    ensures
        is_clean(media_name(media)),
{
    reveal_strlit("No Emulation");
    assert forall|i: int| 0 <= i < 12 implies !sanitize::is_illegal(#[trigger] "No Emulation"@[i]) by {
        assert(i == 0 || i == 1 || i == 2 || i == 3 || i == 4 || i == 5 || i == 6 || i == 7 || i == 8 || i == 9 || i == 10 || i == 11);
    }
    reveal_strlit("1.2MB Diskette");
    assert forall|i: int| 0 <= i < 14 implies !sanitize::is_illegal(#[trigger] "1.2MB Diskette"@[i]) by {
        assert(i == 0 || i == 1 || i == 2 || i == 3 || i == 4 || i == 5 || i == 6 || i == 7 || i == 8 || i == 9 || i == 10 || i == 11 || i == 12 || i == 13);
    }
    reveal_strlit("1.44MB Diskette");
    assert forall|i: int| 0 <= i < 15 implies !sanitize::is_illegal(#[trigger] "1.44MB Diskette"@[i]) by {
        assert(i == 0 || i == 1 || i == 2 || i == 3 || i == 4 || i == 5 || i == 6 || i == 7 || i == 8 || i == 9 || i == 10 || i == 11 || i == 12 || i == 13 || i == 14);
    }
    reveal_strlit("2.88MB Diskette");
    assert forall|i: int| 0 <= i < 15 implies !sanitize::is_illegal(#[trigger] "2.88MB Diskette"@[i]) by {
        assert(i == 0 || i == 1 || i == 2 || i == 3 || i == 4 || i == 5 || i == 6 || i == 7 || i == 8 || i == 9 || i == 10 || i == 11 || i == 12 || i == 13 || i == 14);
    }
    reveal_strlit("Hard Disk");
    assert forall|i: int| 0 <= i < 9 implies !sanitize::is_illegal(#[trigger] "Hard Disk"@[i]) by {
        assert(i == 0 || i == 1 || i == 2 || i == 3 || i == 4 || i == 5 || i == 6 || i == 7 || i == 8);
    }
    reveal_strlit("Unknown");
    assert forall|i: int| 0 <= i < 7 implies !sanitize::is_illegal(#[trigger] "Unknown"@[i]) by {
        assert(i == 0 || i == 1 || i == 2 || i == 3 || i == 4 || i == 5 || i == 6);
    }
}

proof fn lemma_clean_labels()
    ensures
        is_clean("Default"@) && "Default"@.len() == 7,
        is_clean("Section"@) && "Section"@.len() == 7,
        is_clean(" Boot "@),
        is_clean(" ("@),
        is_clean(").img"@) && ").img"@.len() > 0 && ").img"@.last() == 'g',
        forall|i: int| 0 <= i < 7 ==> #[trigger] "Default"@[i] != '.',
        forall|i: int| 0 <= i < 7 ==> #[trigger] "Section"@[i] != '.',
{
    reveal_strlit("Default");
    assert forall|i: int| 0 <= i < 7 implies !sanitize::is_illegal(#[trigger] "Default"@[i]) by {
        assert(i == 0 || i == 1 || i == 2 || i == 3 || i == 4 || i == 5 || i == 6);
    }
    reveal_strlit("Section");
    assert forall|i: int| 0 <= i < 7 implies !sanitize::is_illegal(#[trigger] "Section"@[i]) by {
        assert(i == 0 || i == 1 || i == 2 || i == 3 || i == 4 || i == 5 || i == 6);
    }
    reveal_strlit(" Boot ");
    assert forall|i: int| 0 <= i < 6 implies !sanitize::is_illegal(#[trigger] " Boot "@[i]) by {
        assert(i == 0 || i == 1 || i == 2 || i == 3 || i == 4 || i == 5);
    }
    reveal_strlit(" (");
    assert forall|i: int| 0 <= i < 2 implies !sanitize::is_illegal(#[trigger] " ("@[i]) by {
        assert(i == 0 || i == 1);
    }
    reveal_strlit(").img");
    assert forall|i: int| 0 <= i < 5 implies !sanitize::is_illegal(#[trigger] ").img"@[i]) by {
        assert(i == 0 || i == 1 || i == 2 || i == 3 || i == 4);
    }
    assert forall|i: int| 0 <= i < 7 implies #[trigger] "Default"@[i] != '.' by {
        assert(i == 0 || i == 1 || i == 2 || i == 3 || i == 4 || i == 5 || i == 6);
    }
    assert forall|i: int| 0 <= i < 7 implies #[trigger] "Section"@[i] != '.' by {
        assert(i == 0 || i == 1 || i == 2 || i == 3 || i == 4 || i == 5 || i == 6);
    }
}

/// The name of a boot image is a safe one.
proof fn lemma_safe_image(e: Seq<u8>, at: int, label: Seq<char>, idx: int)
    requires
        label == "Default"@ || label == "Section"@,
        0 <= idx,
    ensures
        image_at(e, at, label, idx) matches Some(i) ==> sanitize::sanitized(i.name) == i.name,
{
    if let Some(i) = image_at(e, at, label, idx) {
        let digits = numbers::decimal(idx);
        let media = media_name(e[at + 1]);
        lemma_clean_labels();
        lemma_clean_media(e[at + 1]);
        numbers::a_numeral_spells_its_number(idx, 10);
        assert(is_clean(digits)) by {
            assert forall|k: int| 0 <= k < digits.len() implies !sanitize::is_illegal(
                #[trigger] digits[k],
            ) by {
                assert(0 <= numbers::digit_value(digits[k]) < 10);
            }
        }
        let a = label + " Boot "@;
        let b = a + digits;
        let c = b + " ("@;
        let d = c + media;
        assert(is_clean(a));
        assert(is_clean(b));
        assert(is_clean(c));
        assert(is_clean(d));
        assert(is_clean(i.name));
        assert(i.name.last() == ").img"@.last());
        assert forall|k: int| 0 <= k < 5 implies #[trigger] i.name[k] != '.' by {
            assert(i.name[k] == label[k]);
        }
        sanitize::lemma_plain_name(i.name);
    }
}

proof fn lemma_safe_sections(cat: Seq<u8>, at: int, left: int, last: bool, n: int)
    requires
        0 <= n,
    ensures
        forall|k: int|
            0 <= k < section_images(cat, at, left, last, n).len() ==> sanitize::sanitized(
                (#[trigger] section_images(cat, at, left, last, n)[k]).name,
            ) == section_images(cat, at, left, last, n)[k].name,
    decreases cat.len() - at,
{
    let v = section_images(cat, at, left, last, n);
    if 0 <= at && at + 32 <= cat.len() {
        if left > 0 {
            lemma_safe_image(cat, at, "Section"@, n);
            match image_at(cat, at, "Section"@, n) {
                Some(i) => {
                    let rest = section_images(cat, at + 32, left - 1, last, n + 1);
                    lemma_safe_sections(cat, at + 32, left - 1, last, n + 1);
                    assert(v == seq![i] + rest);
                    assert forall|k: int| 0 <= k < v.len() implies sanitize::sanitized(
                        (#[trigger] v[k]).name,
                    ) == v[k].name by {
                        if k > 0 {
                            assert(v[k] == rest[k - 1]);
                        }
                    }
                },
                None => {
                    lemma_safe_sections(cat, at + 32, left - 1, last, n);
                    assert(v == section_images(cat, at + 32, left - 1, last, n));
                },
            }
        } else if !(last || (cat[at] != 0x90 && cat[at] != 0x91)) {
            let more = bytes::le16_at(cat, at + 2);
            lemma_safe_sections(cat, at + 32, more, cat[at] == 0x91, n);
            assert(v == section_images(cat, at + 32, more, cat[at] == 0x91, n));
        }
    }
}

/// The names of boot images are safe to create on the host's file system as they are.
pub proof fn boot_images_have_safe_names(cat: Seq<u8>, k: int)
    requires
        0 <= k < catalog_images(cat).len(),
    ensures
        sanitize::sanitized(catalog_images(cat)[k].name) == catalog_images(cat)[k].name,
{
    let v = catalog_images(cat);
    lemma_safe_image(cat, 32, "Default"@, 1);
    match image_at(cat, 32, "Default"@, 1) {
        Some(_) => {
            let rest = section_images(cat, 64, 0, false, 2);
            lemma_safe_sections(cat, 64, 0, false, 2);
            if k > 0 {
                assert(v[k] == rest[k - 1]);
            }
        },
        None => {
            lemma_safe_sections(cat, 64, 0, false, 1);
        },
    }
}

/// The sectors of a volume hold 2048 bytes each.
proof fn lemma_sector_len(reads: Reads, l: TrackLayout, table: Seq<u8>, lba: int)
    requires
        source::exact(reads),
        layout_ok(l),
    ensures
        sectors_of(reads, l, table)(lba) matches Some(s) ==> s.len() == 2048,
{
}

/// A boot image that is read is as long as a listing says.
pub proof fn a_boot_image_is_as_long_as_its_entry(
    reads: Reads,
    l: TrackLayout,
    table: Seq<u8>,
    lba: int,
    n: int,
    missing: Seq<char>,
)
    requires
        source::exact(reads),
        layout_ok(l),
        0 <= n,
    ensures
        bytes_from(sectors_of(reads, l, table), lba, n, missing) matches Ok(b) ==> b.len() == n,
    decreases n,
{
    if n > 0 {
        lemma_sector_len(reads, l, table, lba);
        if n > 2048 {
            a_boot_image_is_as_long_as_its_entry(reads, l, table, lba + 1, n - 2048, missing);
        }
    }
}

// ── The path table ──────────────────────────────────────────────────────────

/// A directory in the path table: its name, the number of its parent, and its
/// first sector.
pub struct PathRecord {
    pub name: String,
    pub parent: u16,
    pub extent: u32,
}

/// The contents of a path table record.
#[verifier::ext_equal]
pub struct RecordView {
    pub name: Seq<char>,
    pub parent: u16,
    pub extent: u32,
}

impl View for PathRecord {
    type V = RecordView;

    open spec fn view(&self) -> RecordView {
        RecordView { name: self.name@, parent: self.parent, extent: self.extent }
    }
}

/// The contents of path table records.
pub open spec fn record_views(v: Seq<PathRecord>) -> Seq<RecordView> {
    v.map_values(|r: PathRecord| r@)
}

/// The record at `p`.
pub open spec fn record_at(data: Seq<u8>, p: int) -> RecordView {
    RecordView {
        name: text::utf8_text(data.subrange(p + 8, p + 8 + data[p])),
        parent: bytes::le16_at(data, p + 6) as u16,
        extent: bytes::le32_at(data, p + 2) as u32,
    }
}

/// The records from `p` on; the first of a table is that of the root, and is left
/// out.
pub open spec fn records_from(data: Seq<u8>, p: int, first: bool) -> Seq<RecordView>
    decreases data.len() - p,
{
    let n = data[p] as int;
    let next = p + 8 + n + n % 2;
    if p < 0 || p + 8 > data.len() || n == 0 || p + 8 + n > data.len() {
        seq![]
    } else {
        let rest = if next > data.len() {
            seq![]
        } else {
            records_from(data, next, false)
        };
        if first {
            rest
        } else {
            seq![record_at(data, p)] + rest
        }
    }
}

/// The directories by their numbers: none has the number zero, and the root has
/// the number one.
pub open spec fn numbered(root: u32, records: Seq<RecordView>) -> Seq<RecordView> {
    seq![
        RecordView { name: seq![], parent: 0, extent: 0 },
        RecordView { name: "/"@, parent: 1, extent: root },
    ] + records
}

/// The path of a directory below the root: the names on the way to it, at most as
/// many as there are directories.
pub open spec fn path_below(dirs: Seq<RecordView>, k: int, steps: int) -> Seq<char>
    decreases dirs.len() - steps,
{
    if k <= 1 || steps >= dirs.len() {
        seq![]
    } else {
        let up = dirs[k].parent as int;
        let front = if up == 0 || up >= dirs.len() {
            seq![]
        } else {
            path_below(dirs, up, steps + 1)
        };
        front + "/"@ + dirs[k].name
    }
}

/// The path of a directory.
pub open spec fn full_path(dirs: Seq<RecordView>, k: int) -> Seq<char> {
    let p = path_below(dirs, k, 0);
    if p.len() == 0 {
        "/"@
    } else {
        p
    }
}

/// The line of a directory of the path table.
pub open spec fn dir_line(dirs: Seq<RecordView>, k: int) -> EntryView {
    EntryView { lba: dirs[k].extent, ..entry::dir_line(full_path(dirs, k)) }
}

/// The directories of a volume, the root first, by its path table.
pub open spec fn table_dirs(sectors: Sectors) -> Result<Seq<RecordView>, Seq<char>> {
    match sectors(16) {
        None => Err("No primary volume descriptor"@),
        Some(pvd) => {
            let size = bytes::le32_at(pvd, 132);
            match bytes_from(
                sectors,
                bytes::le32_at(pvd, 140),
                size,
                "Cannot read path table"@,
            ) {
                Err(e) => Err(e),
                Ok(data) => Ok(
                    if size == 0 {
                        seq![]
                    } else {
                        numbered(
                            bytes::le32_at(pvd, 158) as u32,
                            records_from(data, 0, true),
                        )
                    },
                ),
            }
        },
    }
}

/// The path table as a directory: all in the root.
pub open spec fn table_listing(sectors: Sectors, dir: Seq<char>) -> Result<
    Seq<EntryView>,
    Seq<char>,
> {
    if !is_root(dir) {
        Ok(seq![])
    } else {
        match table_dirs(sectors) {
            Err(e) => Err(e),
            Ok(dirs) => Ok(
                if dirs.len() == 0 {
                    seq![]
                } else {
                    Seq::new((dirs.len() - 1) as nat, |i: int| dir_line(dirs, i + 1))
                },
            ),
        }
    }
}

/// Reads the records of a path table.
#[verifier::loop_isolation(false)]
fn read_records(data: &[u8], root: u32) -> (r: Vec<PathRecord>)
    ensures
        record_views(r@) == numbered(root, records_from(data@, 0, true)),
{
    let len: usize = data.len();
    let mut out: Vec<PathRecord> = Vec::new();
    out.push(PathRecord { name: String::new(), parent: 0, extent: 0 });
    out.push(PathRecord { name: "/".to_owned(), parent: 1, extent: root });
    let ghost goal = numbered(root, records_from(data@, 0, true));
    let mut p: usize = 0;
    let mut first: bool = true;
    let mut more: bool = true;
    assert(out@[0].name@ =~= seq![]);
    assert(record_views(out@) =~= seq![
        RecordView { name: seq![], parent: 0, extent: 0 },
        RecordView { name: "/"@, parent: 1, extent: root },
    ]);
    while more
        invariant
            p <= len,
            more ==> record_views(out@) + records_from(data@, p as int, first) == goal,
            !more ==> record_views(out@) == goal,
        decreases len - p + if more {
            1int
        } else {
            0
        },
    {
        let ghost before = record_views(out@);
        if len - p < 8 || data[p] == 0 || (data[p] as usize) > len - p - 8 {
            assert(before + seq![] =~= before);
            more = false;
        } else {
            let n: usize = data[p] as usize;
            let next: usize = p + 8 + n;
            let odd: usize = n % 2;
            let ghost rest = if next + odd > len {
                seq![]
            } else {
                records_from(data@, next + odd, false)
            };
            if first {
                first = false;
            } else {
                let raw: Vec<u8> = cut(data, p + 8, next);
                let rec: PathRecord = PathRecord {
                    name: from_utf8_lossy(raw.as_slice()),
                    parent: read_u16_le(data, p + 6),
                    extent: read_u32_le(data, p + 2),
                };
                let ghost rv = rec@;
                assert(rv == record_at(data@, p as int));
                out.push(rec);
                assert(record_views(out@) =~= before + seq![rv]);
                assert(before + (seq![rv] + rest) =~= before + seq![rv] + rest);
            }
            if odd > len - next {
                assert(record_views(out@) + seq![] =~= record_views(out@));
                p = next;
                more = false;
            } else {
                p = next + odd;
            }
        }
    }
    out
}

/// The path of a directory below the root, behind what was found so far: the
/// names on the way are put in front.
#[verifier::loop_isolation(false)]
fn build_path(dirs: &Vec<PathRecord>, k: usize) -> (r: String)
    requires
        k < dirs@.len(),
    ensures
        r@ == full_path(record_views(dirs@), k as int),
{
    let ghost dv = record_views(dirs@);
    let n: usize = dirs.len();
    let mut tail: String = String::new();
    assert(tail@ =~= seq![]);
    let mut cur: usize = k;
    let mut steps: usize = 0;
    let ghost goal = path_below(dv, k as int, 0);
    assert(goal + tail@ =~= goal);
    let mut more: bool = true;
    while more && cur > 1 && steps < n
        invariant
            steps <= n,
            more ==> cur < n,
            more ==> path_below(dv, cur as int, steps as int) + tail@ == goal,
            !more ==> tail@ == goal,
        decreases n - steps,
    {
        assert(dv[cur as int] == dirs@[cur as int]@);
        let ghost before = tail@;
        let mut longer: String = "/".to_owned();
        longer.append(dirs[cur].name.as_str());
        longer.append(tail.as_str());
        tail = longer;
        let up: usize = dirs[cur].parent as usize;
        proof {
            let front = if up == 0 || up >= n {
                seq![]
            } else {
                path_below(dv, up as int, steps + 1)
            };
            assert(front + "/"@ + dv[cur as int].name + before =~= front + tail@);
        }
        steps += 1;
        if up == 0 || up >= n {
            assert(Seq::<char>::empty() + tail@ =~= tail@);
            more = false;
        } else {
            cur = up;
        }
    }
    assert(Seq::<char>::empty() + tail@ =~= tail@);
    let c: Vec<char> = chars_of(tail.as_str());
    if c.len() == 0 {
        "/".to_owned()
    } else {
        tail
    }
}

/// Reads the directories of a volume by its path table.
pub fn parse_path_table<S: ByteSource>(source: &mut S, l: &TrackLayout, table: &[u8]) -> (r: Result<
    Vec<PathRecord>,
    String,
>)
    requires
        layout_ok(*l),
    ensures
        final(source).reads() == old(source).reads(),
        match r {
            Ok(v) => table_dirs(sectors_of(old(source).reads(), *l, table@)) == Ok::<
                Seq<RecordView>,
                Seq<char>,
            >(record_views(v@)),
            Err(e) => table_dirs(sectors_of(old(source).reads(), *l, table@)) == Err::<
                Seq<RecordView>,
                Seq<char>,
            >(e@),
        },
{
    let ghost sectors = sectors_of(source.reads(), *l, table@);
    let pvd: Vec<u8> = match read_track_logical(source, l, table, 16) {
        Some(p) => p,
        None => {
            assert(sectors(16) is None);
            return Err("No primary volume descriptor".to_owned());
        },
    };
    assert(sectors(16) == Some(pvd@));
    let size: u32 = read_u32_le(pvd.as_slice(), 132);
    let lba: u32 = read_u32_le(pvd.as_slice(), 140);
    let root: u32 = read_u32_le(pvd.as_slice(), 158);
    let data: Vec<u8> = match read_bytes_from(
        source,
        l,
        table,
        lba,
        size,
        "Cannot read path table",
    ) {
        Ok(b) => b,
        Err(e) => {
            return Err(e);
        },
    };
    if size == 0 {
        let none: Vec<PathRecord> = Vec::new();
        assert(record_views(none@) =~= seq![]);
        return Ok(none);
    }
    Ok(read_records(data.as_slice(), root))
}

/// Lists the directories of a volume by its path table.
pub fn path_table_list<S: ByteSource>(source: &mut S, l: &TrackLayout, table: &[u8], dir: &str) -> (r:
    Result<Vec<DiscEntry>, String>)
    requires
        layout_ok(*l),
    ensures
        final(source).reads() == old(source).reads(),
        entries_outcome(r) == table_listing(sectors_of(old(source).reads(), *l, table@), dir@),
{
    let mut out: Vec<DiscEntry> = Vec::new();
    if !at_root(dir) {
        assert(entry::listing(out@) =~= seq![]);
        return Ok(out);
    }
    let dirs: Vec<PathRecord> = match parse_path_table(source, l, table) {
        Ok(v) => v,
        Err(e) => {
            return Err(e);
        },
    };
    let ghost dv = record_views(dirs@);
    assert(dv.len() == dirs@.len());
    let mut k: usize = 1;
    while k < dirs.len()
        invariant
            1 <= k,
            dirs@.len() > 0 ==> k <= dirs@.len(),
            dv == record_views(dirs@),
            dirs@.len() > 0 ==> out@.len() == k - 1,
            dirs@.len() == 0 ==> out@.len() == 0,
            forall|j: int| 0 <= j < out@.len() ==> (#[trigger] out@[j])@ == dir_line(dv, j + 1),
        decreases dirs@.len() - k,
    {
        let name: String = build_path(&dirs, k);
        assert(dv[k as int] == dirs@[k as int]@);
        let mut e: DiscEntry = entry::dir_entry(name);
        e.lba = dirs[k].extent;
        out.push(e);
        k += 1;
    }
    assert(entry::listing(out@) =~= (if dv.len() == 0 {
        seq![]
    } else {
        Seq::new((dv.len() - 1) as nat, |i: int| dir_line(dv, i + 1))
    }));
    Ok(out)
}

// ── Laws of sectors and catalogs ────────────────────────────────────────────

/// The sector `lba` of a volume is the user data of the raw or plain sector of its track that
/// stands that far behind the one which the track starts with; scrambled sectors give what
/// was scrambled.
pub proof fn a_sector_is_read_from_its_track(
    front: Seq<u8>,
    sectors: Seq<Seq<u8>>,
    rest: Seq<u8>,
    l: TrackLayout,
    table: Seq<u8>,
    plain: Seq<u8>,
    k: int,
)
    requires
        l.track_offset == front.len(),
        l.user_data_offset + 2048 <= l.stride,
        l.descramble ==> l.stride == 2352 && table.len() == 2340,
        0 <= k < sectors.len(),
        sectors[k].len() == l.stride,
        source::image_of(front, sectors, l.stride as int, rest).len() <= u64::MAX,
        plain.len() == l.stride,
        !l.descramble ==> plain == sectors[k],
        l.descramble ==> forall|i: int|
            0 <= i < 2352 ==> #[trigger] sectors[k][i] == (if i < 12 {
                plain[i]
            } else {
                plain[i] ^ table[i - 12]
            }),
    ensures
        logical(
            source::reads_of(source::image_of(front, sectors, l.stride as int, rest)),
            l,
            table,
            l.lba_offset + k,
        ) == Some(
            plain.subrange(l.user_data_offset as int, l.user_data_offset as int + 2048),
        ),
{
    let stride = l.stride as int;
    sector::sectors_follow_each_other(
        front,
        sectors,
        stride,
        rest,
        l.user_data_offset as int,
        k,
    );
    source::parts_follow_each_other(front, sectors, stride, rest, k);
    if l.descramble {
        track::scrambled_user_data_come_back(sectors[k], plain, table, 0, 0);
    }
}

/// The byte `i` of what is read from a sector on stands in the sector that many whole sectors
/// of 2048 bytes behind it.
pub proof fn bytes_are_read_from_their_sectors(
    sectors: Sectors,
    lba: int,
    n: int,
    missing: Seq<char>,
)
    requires
        0 <= n,
        forall|k: int|
            0 <= k && 2048 * k < n ==> ((#[trigger] sectors(lba + k)) matches Some(s) && s.len()
                == 2048),
    ensures
        bytes_from(sectors, lba, n, missing) matches Ok(b) && b.len() == n && forall|i: int|
            0 <= i < n ==> #[trigger] b[i] == sectors(lba + i / 2048)->0[i % 2048],
    decreases n,
{
    if n > 0 {
        assert(sectors(lba + 0) is Some);
        let s = sectors(lba)->0;
        if n > 2048 {
            assert forall|k: int| 0 <= k && 2048 * k < n - 2048 implies ((#[trigger] sectors(
                lba + 1 + k,
            )) matches Some(t) && t.len() == 2048) by {
                assert(sectors(lba + (k + 1)) is Some);
            }
            bytes_are_read_from_their_sectors(sectors, lba + 1, n - 2048, missing);
            let tail = bytes_from(sectors, lba + 1, n - 2048, missing)->Ok_0;
            let b = s + tail;
            assert forall|i: int| 0 <= i < n implies #[trigger] b[i] == sectors(lba + i / 2048)->0[i
                % 2048] by {
                if i >= 2048 {
                    assert(b[i] == tail[i - 2048]);
                    assert((i - 2048) / 2048 == i / 2048 - 1 && (i - 2048) % 2048 == i % 2048);
                }
            }
        }
    }
}

/// The boot catalog is the one whose sector the first boot record names, at its byte 0x47.
pub proof fn the_first_boot_record_names_the_catalog(sectors: Sectors, lba: int, at: int, cat: int)
    requires
        lba <= at < 32,
        forall|k: int|
            lba <= k < at ==> ((#[trigger] sectors(k)) matches Some(d) && d[0] != 0xFF && !(d[0] == 0
                && bytes::spells(d, 1, "CD001"@) && bytes::spells(d, 7, "EL TORITO SPECIFICATION"@))),
        sectors(at) matches Some(d) && d.len() == 2048 && d[0] == 0 && bytes::spells(d, 1, "CD001"@)
            && bytes::spells(d, 7, "EL TORITO SPECIFICATION"@) && bytes::has_at(
            d,
            0x47,
            bytes::le_bytes(cat, 4),
        ),
        0 <= cat <= 0xFFFF_FFFF,
    ensures
        catalog_from(sectors, lba) == Some(cat),
    decreases at - lba,
{
    if lba < at {
        assert(sectors(lba) is Some);
        the_first_boot_record_names_the_catalog(sectors, lba + 1, at, cat);
    } else {
        bytes::fields_hold_what_was_written(sectors(at)->0, 0x47, cat);
    }
}

/// An entry of the boot catalog names the image that was written into it: its first sector,
/// and as many sectors of 512 bytes as are counted, or as the diskette has.
pub proof fn a_boot_entry_names_its_image(
    e: Seq<u8>,
    at: int,
    label: Seq<char>,
    idx: int,
    lba: int,
    n: int,
)
    requires
        0 <= at,
        at + 32 <= e.len(),
        0 < lba <= 0xFFFF_FFFF,
        0 <= n <= 0xFFFF,
        bytes::has_at(e, at + 8, bytes::le_bytes(lba, 4)),
        bytes::has_at(e, at + 6, bytes::le_bytes(n, 2)),
    ensures
        image_at(e, at, label, idx) matches Some(i) && {
            let medium = e[at + 1] % 16;
            &&& i.lba == lba
            &&& medium == 1 ==> i.size == 512 * 80 * 2 * 15
            &&& medium == 2 ==> i.size == 512 * 80 * 2 * 18
            &&& medium == 3 ==> i.size == 512 * 80 * 2 * 36
            &&& (medium == 0 || medium >= 4) && n > 0 ==> i.size == 512 * n
            &&& (medium == 0 || medium >= 4) && n == 0 ==> i.size == 512
        },
{
    bytes::fields_hold_what_was_written(e, at + 8, lba);
    bytes::fields_hold_what_was_written(e, at + 6, n);
}

/// A catalog of a default entry and one last section lists the default image and then those
/// of the section, in their order: entries of 32 bytes follow each other behind the one that
/// validates the catalog.
pub proof fn a_catalog_lists_its_entries(cat: Seq<u8>, n: int)
    requires
        0 <= n,
        32 * (3 + n) <= cat.len() < 32 * (4 + n),
        n <= 0xFFFF,
        cat[64] == 0x91,
        bytes::has_at(cat, 66, bytes::le_bytes(n, 2)),
        forall|k: int| 1 <= k < 3 + n && k != 2 ==> #[trigger] bytes::le32_at(cat, 32 * k + 8) != 0,
    ensures
        catalog_images(cat).len() == 1 + n,
        catalog_images(cat)[0].lba == bytes::le32_at(cat, 40),
        forall|k: int|
            0 <= k < n ==> (#[trigger] catalog_images(cat)[1 + k]).lba == bytes::le32_at(
                cat,
                32 * (3 + k) + 8,
            ),
{
    bytes::fields_hold_what_was_written(cat, 66, n);
    assert(bytes::le32_at(cat, 32 * 1int + 8) != 0);
    let rest = section_images(cat, 96, n, true, 2);
    assert forall|k: int| 3 <= k < 3 + n implies #[trigger] bytes::le32_at(cat, 32 * k + 8) != 0 by {}
    lemma_section(cat, 3, n, 2);
    assert(section_images(cat, 64, 0, false, 2) == rest);
    let first = image_at(cat, 32, "Default"@, 1)->0;
    assert(catalog_images(cat) == seq![first] + rest);
    assert forall|k: int| 0 <= k < n implies (#[trigger] catalog_images(cat)[1 + k]).lba
        == bytes::le32_at(cat, 32 * (3 + k) + 8) by {
        assert(catalog_images(cat)[1 + k] == rest[k]);
    }
}

proof fn lemma_section(cat: Seq<u8>, e: int, left: int, idx: int)
    requires
        0 <= e,
        0 <= left,
        32 * (e + left) <= cat.len() < 32 * (e + left + 1),
        forall|k: int| e <= k < e + left ==> #[trigger] bytes::le32_at(cat, 32 * k + 8) != 0,
    ensures
        section_images(cat, 32 * e, left, true, idx).len() == left,
        forall|k: int|
            0 <= k < left ==> (#[trigger] section_images(cat, 32 * e, left, true, idx)[k]).lba
                == bytes::le32_at(cat, 32 * (e + k) + 8),
    decreases left,
{
    if left > 0 {
        assert(bytes::le32_at(cat, 32 * e + 8) != 0);
        lemma_section(cat, e + 1, left - 1, idx + 1);
        let all = section_images(cat, 32 * e, left, true, idx);
        let more = section_images(cat, 32 * (e + 1), left - 1, true, idx + 1);
        assert(32 * (e + 1) == 32 * e + 32);
        assert(all == seq![image_at(cat, 32 * e, "Section"@, idx)->0] + more);
        assert forall|k: int| 0 <= k < left implies (#[trigger] all[k]).lba == bytes::le32_at(
            cat,
            32 * (e + k) + 8,
        ) by {
            if k > 0 {
                assert(all[k] == more[k - 1]);
                assert(more[k - 1].lba == bytes::le32_at(cat, 32 * (e + 1 + (k - 1)) + 8));
            }
        }
    }
}

/// A record of the path table holds the directory that was written into it, and the next one
/// stands behind its name and the byte that makes its length even.
pub proof fn path_records_follow_each_other(
    data: Seq<u8>,
    p: int,
    name: Seq<u8>,
    extent: int,
    parent: int,
)
    requires
        0 <= p,
        0 < name.len() <= 255,
        p + 8 + name.len() + 1 <= data.len(),
        data[p] == name.len(),
        0 <= extent <= 0xFFFF_FFFF,
        0 <= parent <= 0xFFFF,
        bytes::has_at(data, p + 2, bytes::le_bytes(extent, 4)),
        bytes::has_at(data, p + 6, bytes::le_bytes(parent, 2)),
        bytes::has_at(data, p + 8, name),
    ensures
        records_from(data, p, false) == seq![
            RecordView {
                name: text::utf8_text(name),
                parent: parent as u16,
                extent: extent as u32,
            },
        ] + records_from(
            data,
            if name.len() % 2 == 0 {
                p + 8 + name.len()
            } else {
                p + 9 + name.len()
            },
            false,
        ),
        records_from(data, p, true) == records_from(
            data,
            if name.len() % 2 == 0 {
                p + 8 + name.len()
            } else {
                p + 9 + name.len()
            },
            false,
        ),
{
    bytes::fields_hold_what_was_written(data, p + 2, extent);
    bytes::fields_hold_what_was_written(data, p + 6, parent);
}

/// The path of a directory is that of its parent, a separator and its own name, in a table
/// where every directory comes behind its parent.
pub proof fn a_path_goes_through_its_parent(dirs: Seq<RecordView>, k: int)
    requires
        2 <= k < dirs.len(),
        forall|j: int| 2 <= j < dirs.len() ==> 1 <= (#[trigger] dirs[j]).parent < j,
    ensures
        full_path(dirs, k) == (if dirs[k].parent == 1 {
            seq![]
        } else {
            full_path(dirs, dirs[k].parent as int)
        }) + "/"@ + dirs[k].name,
        full_path(dirs, 1) == "/"@,
{
    let up = dirs[k].parent as int;
    assert(1 <= dirs[k].parent < k);
    lemma_steps(dirs, up, 1);
    reveal_strlit("/");
    if up > 1 {
        assert(1 <= dirs[up].parent < up);
        assert(path_below(dirs, up, 0).len() > 0);
    }
}

/// How many steps were made does not matter to a path that has room for more.
proof fn lemma_steps(dirs: Seq<RecordView>, k: int, steps: int)
    requires
        1 <= k < dirs.len(),
        0 <= steps,
        steps + k <= dirs.len(),
        forall|j: int| 2 <= j < dirs.len() ==> 1 <= (#[trigger] dirs[j]).parent < j,
    ensures
        path_below(dirs, k, steps) == path_below(dirs, k, 0),
    decreases k,
{
    if k > 1 {
        let up = dirs[k].parent as int;
        assert(1 <= dirs[k].parent < k);
        lemma_steps(dirs, up, steps + 1);
        lemma_steps(dirs, up, 1);
    }
}

/// A descriptor behind others that can be read and are not the last one is shown: a Joliet
/// one, or a boot record.
pub proof fn descriptors_are_shown(sectors: Sectors, lba: int, at: int)
    requires
        lba <= at < 32,
        forall|k: int|
            lba <= k < at ==> ((#[trigger] sectors(k)) matches Some(d) && d[0] != 0xFF),
        sectors(at) is Some,
    ensures
        sectors(at) matches Some(d) && d[0] == 2 && (bytes::spells(d, 88, "%/@"@) || bytes::spells(
            d,
            88,
            "%/C"@,
        ) || bytes::spells(d, 88, "%/E"@)) ==> descriptors_from(sectors, lba).contains("Joliet"@),
        sectors(at) matches Some(d) && d[0] == 0 && bytes::spells(d, 1, "CD001"@) && bytes::spells(
            d,
            7,
            "EL TORITO SPECIFICATION"@,
        ) ==> descriptors_from(sectors, lba).contains("El Torito"@),
    decreases at - lba,
{
    let v = descriptors_from(sectors, lba);
    if lba < at {
        assert(sectors(lba) is Some);
        descriptors_are_shown(sectors, lba + 1, at);
        let more = descriptors_from(sectors, lba + 1);
        let head = v.len() - more.len();
        assert forall|x: Seq<char>| #[trigger] more.contains(x) implies v.contains(x) by {
            let i = choose|i: int| 0 <= i < more.len() && more[i] == x;
            assert(v[i + head] == x);
        }
    } else {
        let d = sectors(at)->0;
        if is_boot_record(d) {
            assert(v[0] == "El Torito"@);
        } else if is_joliet(d) {
            assert(v[0] == "Joliet"@);
        }
    }
}

/// The system use area of a directory's own record stands behind its name and the byte that makes
/// the name's end even; it is one of Rock Ridge where its first field has the mark of sharing.
pub proof fn a_system_use_area_is_known_by_its_mark(s: Seq<u8>, name: int, pad: int, at: int)
    requires
        34 <= s.len(),
        s[32] == name,
        0 <= pad <= 1,
        (33 + name + pad) % 2 == 0,
        at == 33 + name + pad,
        at + 7 <= s[0] <= s.len(),
        s[at] == 0x53,
        s[at + 1] == 0x50,
        s[at + 2] == 7,
        s[at + 4] == 0xBE,
        s[at + 5] == 0xEF,
    ensures
        has_susp(s),
{
}

/// Fields of the area before the mark are passed over by their lengths.
pub proof fn fields_of_the_area_follow_each_other(s: Seq<u8>, p: int, end: int, len: int)
    requires
        0 <= p,
        4 <= len,
        p + 6 < end,
        p + len <= end <= s.len(),
        s[p + 2] == len,
        s[p] != 0x53 || s[p + 1] != 0x50,
    ensures
        susp_from(s, p, end) == susp_from(s, p + len, end),
{
}

/// A diskette's image is as long as the diskette, any other has as many sectors of 512 bytes as its
/// entry tells, and at least one.
pub proof fn a_boot_image_is_as_long_as_its_medium(e: Seq<u8>, at: int, n: int)
    requires
        0 <= at,
        at + 8 <= e.len(),
        0 <= n <= 0xFFFF,
        bytes::has_at(e, at + 6, bytes::le_bytes(n, 2)),
    ensures
        e[at + 1] % 16 == 1 ==> image_len(e, at) == 80 * 2 * 15 * 512,
        e[at + 1] % 16 == 2 ==> image_len(e, at) == 80 * 2 * 18 * 512,
        e[at + 1] % 16 == 3 ==> image_len(e, at) == 80 * 2 * 36 * 512,
        (e[at + 1] % 16 == 0 || e[at + 1] % 16 == 4) && n > 0 ==> image_len(e, at) == 512 * n,
        (e[at + 1] % 16 == 0 || e[at + 1] % 16 == 4) && n == 0 ==> image_len(e, at) == 512,
{
    bytes::fields_hold_what_was_written(e, at + 6, n);
}

/// A volume shows Rock Ridge where the record that its root begins with, in the sector told at 158,
/// has the area for it; the path table is always shown, and last.
pub proof fn the_root_tells_rock_ridge(pvd: Seq<u8>, sectors: Sectors, lba: int, root: Seq<u8>)
    requires
        pvd.len() == 2048,
        0 <= lba <= 0xFFFF_FFFF,
        bytes::has_at(pvd, 158, bytes::le_bytes(lba, 4)),
        sectors(lba) == Some(root),
    ensures
        has_susp(root) ==> extra_views(pvd, sectors).len() > 0 && extra_views(pvd, sectors)[0]
            == "Rock Ridge"@,
        extra_views(pvd, sectors).len() > 0 && extra_views(pvd, sectors).last() == "Path Table"@,
        extra_views(pvd, sectors).len() == descriptors_from(sectors, 17).len() + 1 + if has_susp(
            root,
        ) {
            1int
        } else {
            0
        },
{
    bytes::fields_hold_what_was_written(pvd, 158, lba);
}

} // verus!
