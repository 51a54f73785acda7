//! Which file systems an image holds.
use vstd::prelude::*;
use crate::bytes;
use crate::bytes::spells_at;
use crate::iso_volume;
use crate::iso_volume::{
    iso_extra_filesystems, joliet_descriptor, push_text, read_track_logical, TrackLayout,
};
use crate::pce_filesystem;
use crate::pce_filesystem::is_pce_disc;
use crate::plain_image;
use crate::redumper;
use crate::sector;
use crate::sector::RAW_SECTOR_SIZE;
use crate::source;
use crate::source::{ByteSource, Reads};
use crate::text;
use crate::threedo_filesystem;
use crate::threedo_filesystem::{is_threedo_disc, is_threedo_reader};
use crate::track;
use crate::track::{
    detect_raw_sector_offset, detect_sector_format_at, sector_lba_at, DataTrack, TrackView,
};
use crate::udf_filesystem;
use crate::udf_filesystem::{is_udf_disc, UdfFs};
use crate::wii_partition;
use crate::wii_partition::is_wii_disc;
use crate::xdvdfs_filesystem;
use crate::xdvdfs_filesystem::{is_xdvdfs_disc, is_xdvdfs_reader};

verus! {

/// What readers outside this library say of an image: whether it holds a CD-i, a
/// FATX or an HFS volume, and the kind of GameCube or Wii disc that it is.
pub struct Probes {
    pub cdi: bool,
    pub fatx: bool,
    pub hfs: bool,
    pub gcm: Option<GcmKind>,
}

/// A GameCube or a Wii disc.
#[derive(Clone, Copy, PartialEq, Eq, Structural)]
pub enum GcmKind {
    GameCube,
    Wii,
}

/// The name of a kind of disc.
pub open spec fn kind_name(kind: GcmKind) -> Seq<char> {
    match kind {
        GcmKind::GameCube => "GameCube GCM"@,
        GcmKind::Wii => "Wii GCM"@,
    }
}

/// The name of a kind of disc.
pub fn gcm_kind_label(kind: GcmKind) -> (r: String)
    ensures
        r@ == kind_name(kind),
{
    match kind {
        GcmKind::GameCube => "GameCube GCM".to_owned(),
        GcmKind::Wii => "Wii GCM".to_owned(),
    }
}

/// A list of one text, or of none.
pub open spec fn one_if(b: bool, t: Seq<char>) -> Seq<Seq<char>> {
    if b {
        seq![t]
    } else {
        seq![]
    }
}

/// A list of one text.
fn only(t: &str) -> (r: Vec<String>)
    ensures
        text::views(r@) == seq![t@],
{
    let mut out: Vec<String> = Vec::new();
    assert(text::views(out@) =~= seq![]);
    push_text(&mut out, t);
    assert(text::views(out@) =~= seq![t@]);
    out
}

/// Whether a track holds an OperaFS volume.
pub open spec fn is_opera(reads: Reads, track_offset: int, stride: int, user_data_offset: int) -> bool {
    sector::data_at(reads, track_offset, stride, user_data_offset, 0) matches Ok(s)
        && threedo_filesystem::is_volume(s)
}

/// The name of a track's UDF version.
pub open spec fn udf_name(reads: Reads, len: u64, l: TrackLayout) -> Seq<char> {
    match udf_filesystem::udf_opened(
        reads,
        len as int,
        l.track_offset as int,
        l.user_data_offset as int,
    ) {
        Ok(v) => v.udf_version,
        Err(_) => "UDF"@,
    }
}

/// The ISO 9660 views of a track.
pub open spec fn iso_views(reads: Reads, l: TrackLayout, table: Seq<u8>) -> Seq<Seq<char>> {
    let sectors = iso_volume::sectors_of(reads, l, table);
    match sectors(16) {
        Some(pvd) => if bytes::spells(pvd, 1, "CD001"@) {
            seq!["ISO 9660"@] + iso_volume::extra_views(pvd, sectors)
        } else {
            seq![]
        },
        None => seq![],
    }
}

/// The file systems that can stand beside each other on a track; plain ISO 9660
/// where none is found.
pub open spec fn layered(reads: Reads, len: u64, l: TrackLayout, table: Seq<u8>, hfs: bool) -> Seq<
    Seq<char>,
> {
    let all = one_if(
        l.user_data_offset == 0 && xdvdfs_filesystem::start_from(
            reads,
            l.track_offset as int,
            0,
        ) is Some,
        "XDVDFS"@,
    ) + one_if(hfs, "HFS"@) + one_if(
        udf_filesystem::is_udf(reads, l.track_offset as int, l.user_data_offset as int),
        udf_name(reads, len, l),
    ) + iso_views(reads, l, table);
    if all.len() == 0 {
        seq!["ISO 9660"@]
    } else {
        all
    }
}

/// Finds the ISO 9660 views of a track.
fn find_iso_views<S: ByteSource>(source: &mut S, l: &TrackLayout, table: &[u8]) -> (r: Vec<String>)
    requires
        iso_volume::layout_ok(*l),
    ensures
        final(source).reads() == old(source).reads(),
        text::views(r@) == iso_views(old(source).reads(), *l, table@),
{
    let ghost sectors = iso_volume::sectors_of(source.reads(), *l, table@);
    let mut out: Vec<String> = Vec::new();
    assert(text::views(out@) =~= seq![]);
    let found: Option<Vec<u8>> = read_track_logical(source, l, table, 16);
    match found {
        Some(pvd) => {
            assert(sectors(16) == Some(pvd@));
            if spells_at(pvd.as_slice(), 1, "CD001") {
                push_text(&mut out, "ISO 9660");
                assert(text::views(out@) =~= seq!["ISO 9660"@]);
                iso_extra_filesystems(pvd.as_slice(), source, l, table, &mut out);
            }
        },
        None => {
            assert(sectors(16) is None);
        },
    }
    out
}

/// Adds the texts of one list to another.
fn add_texts(out: &mut Vec<String>, more: &Vec<String>)
    ensures
        text::views(final(out)@) == text::views(old(out)@) + text::views(more@),
{
    let ghost head = text::views(out@);
    let mut i: usize = 0;
    assert(head + text::views(more@).take(0) =~= head);
    while i < more.len()
        invariant
            i <= more@.len(),
            text::views(out@) == head + text::views(more@).take(i as int),
        decreases more@.len() - i,
    {
        push_text(out, more[i].as_str());
        assert(text::views(more@).take(i + 1) =~= text::views(more@).take(i as int).push(
            more@[i as int]@,
        ));
        i += 1;
        assert(text::views(out@) =~= head + text::views(more@).take(i as int));
    }
    assert(text::views(more@).take(more@.len() as int) =~= text::views(more@));
}

/// Finds the file systems that can stand beside each other on a track.
fn find_layered<S: ByteSource>(source: S, len: u64, l: &TrackLayout, table: &[u8], hfs: bool) -> (r:
    Vec<String>)
    requires
        iso_volume::layout_ok(*l),
    ensures
        text::views(r@) == layered(source.reads(), len, *l, table@, hfs),
{
    let ghost reads = source.reads();
    let mut src: S = source;
    let xdvdfs: bool = l.user_data_offset == 0 && is_xdvdfs_disc(&mut src, l.track_offset);
    let iso: Vec<String> = find_iso_views(&mut src, l, table);
    let udf: bool = is_udf_disc(&mut src, l.track_offset, l.user_data_offset);
    let mut out: Vec<String> = Vec::new();
    assert(text::views(out@) =~= seq![]);
    if xdvdfs {
        push_text(&mut out, "XDVDFS");
    }
    assert(text::views(out@) =~= one_if(xdvdfs, "XDVDFS"@));
    if hfs {
        push_text(&mut out, "HFS");
    }
    assert(text::views(out@) =~= one_if(xdvdfs, "XDVDFS"@) + one_if(hfs, "HFS"@));
    if udf {
        match UdfFs::new(src, len, l.track_offset, l.user_data_offset) {
            Ok(fs) => {
                push_text(&mut out, fs.udf_version.as_str());
            },
            Err(_) => {
                push_text(&mut out, "UDF");
            },
        }
    }
    assert(text::views(out@) =~= one_if(xdvdfs, "XDVDFS"@) + one_if(hfs, "HFS"@) + one_if(
        udf,
        udf_name(reads, len, *l),
    ));
    add_texts(&mut out, &iso);
    assert(text::views(out@).len() == out@.len());
    if out.len() == 0 {
        return only("ISO 9660");
    }
    out
}

/// The file systems of a track: one that fills it, or those that can stand beside
/// each other.
pub open spec fn track_systems(
    reads: Reads,
    len: u64,
    l: TrackLayout,
    table: Seq<u8>,
    p: Probes,
) -> Seq<Seq<char>> {
    let off = l.track_offset as int;
    if p.cdi {
        seq!["CD-i"@]
    } else if pce_filesystem::boot_sector(reads, off, l.user_data_offset) is Some {
        seq!["PC Engine CD-ROM"@]
    } else if is_opera(
        reads,
        off,
        sector::stride_for(l.user_data_offset) as int,
        l.user_data_offset as int,
    ) {
        seq!["3DO OperaFS"@]
    } else if l.user_data_offset == 0 && p.gcm is Some {
        seq![kind_name(p.gcm->0)]
    } else if l.user_data_offset == 0 && off == 0 && p.fatx {
        seq!["FATX"@]
    } else {
        layered(reads, len, l, table, p.hfs)
    }
}

/// How the sectors of a track stand in its file, by where their user data starts.
pub open spec fn bin_layout(
    track_offset: u64,
    user_data_offset: u64,
    lba_offset: u64,
    descramble: bool,
) -> TrackLayout {
    TrackLayout {
        track_offset,
        user_data_offset,
        stride: if user_data_offset > 0 {
            2352
        } else {
            2048
        },
        lba_offset,
        descramble,
    }
}

/// Finds the file systems of a track.
pub fn detect_filesystems_in_bin<S: ByteSource>(
    source: S,
    len: u64,
    track_offset: u64,
    user_data_offset: u64,
    lba_offset: u64,
    descramble: bool,
    table: &[u8],
    p: &Probes,
) -> (r: Vec<String>)
    requires
        descramble ==> user_data_offset <= 304,
    ensures
        text::views(r@) == track_systems(
            source.reads(),
            len,
            bin_layout(track_offset, user_data_offset, lba_offset, descramble),
            table@,
            *p,
        ),
{
    let mut src: S = source;
    if p.cdi {
        return only("CD-i");
    }
    if is_pce_disc(&mut src, track_offset, user_data_offset) {
        return only("PC Engine CD-ROM");
    }
    if is_threedo_disc(&mut src, track_offset, user_data_offset) {
        return only("3DO OperaFS");
    }
    if user_data_offset == 0 {
        if let Some(kind) = p.gcm {
            let name: String = gcm_kind_label(kind);
            return only(name.as_str());
        }
        if track_offset == 0 && p.fatx {
            return only("FATX");
        }
    }
    let l: TrackLayout = TrackLayout {
        track_offset,
        user_data_offset,
        stride: if user_data_offset > 0 {
            RAW_SECTOR_SIZE
        } else {
            2048
        },
        lba_offset,
        descramble,
    };
    find_layered(src, len, &l, table, p.hfs)
}

/// How the sectors of an image without a sheet stand in it.
pub open spec fn raw_layout(reads: Reads) -> TrackLayout {
    bin_layout(0, plain_image::skeleton_offset(reads), 0, false)
}

/// The file systems of an image without a sheet.
pub open spec fn image_systems(reads: Reads, len: u64, p: Probes) -> Seq<Seq<char>> {
    let l = raw_layout(reads);
    if pce_filesystem::boot_sector(reads, 0, l.user_data_offset) is Some {
        seq!["PC Engine CD-ROM"@]
    } else if is_opera(
        reads,
        0,
        sector::stride_for(l.user_data_offset) as int,
        l.user_data_offset as int,
    ) {
        seq!["3DO OperaFS"@]
    } else if l.user_data_offset == 0 && p.gcm is Some {
        seq![kind_name(p.gcm->0)]
    } else if l.user_data_offset == 0 && wii_partition::wii_opened(reads, len as int) is Ok {
        seq!["Wii GCM"@]
    } else if l.user_data_offset == 0 && p.fatx {
        seq!["FATX"@]
    } else {
        layered(reads, len, l, seq![], p.hfs)
    }
}

/// Finds the file systems of an image without a sheet.
pub fn detect_filesystems_raw<S: ByteSource>(source: S, len: u64, p: &Probes) -> (r: Vec<String>)
    ensures
        text::views(r@) == image_systems(source.reads(), len, *p),
{
    let mut src: S = source;
    let user_data_offset: u64 = match detect_raw_sector_offset(&mut src) {
        Some(o) => o,
        None => 0,
    };
    if is_pce_disc(&mut src, 0, user_data_offset) {
        return only("PC Engine CD-ROM");
    }
    if is_threedo_disc(&mut src, 0, user_data_offset) {
        return only("3DO OperaFS");
    }
    if user_data_offset == 0 {
        if let Some(kind) = p.gcm {
            let name: String = gcm_kind_label(kind);
            return only(name.as_str());
        }
        if is_wii_disc(&mut src, len) {
            return only("Wii GCM");
        }
        if p.fatx {
            return only("FATX");
        }
    }
    let l: TrackLayout = TrackLayout {
        track_offset: 0,
        user_data_offset,
        stride: if user_data_offset > 0 {
            RAW_SECTOR_SIZE
        } else {
            2048
        },
        lba_offset: 0,
        descramble: false,
    };
    let none: [u8; 0] = [];
    assert(none@ =~= seq![]);
    find_layered(src, len, &l, none.as_slice(), p.hfs)
}

// ── Single-file images with a header ────────────────────────────────────────

/// Where the sectors of an MDX image start.
pub const MDX_DATA_OFFSET: u64 = 0x40;

/// The data track of an MDX image.
pub open spec fn mdx_track(reads: Reads, path: Seq<char>) -> TrackView {
    let format = track::format_at(reads, 0x40);
    TrackView {
        bin_path: path,
        track_offset: MDX_DATA_OFFSET,
        user_data_offset: format.1,
        stride: RAW_SECTOR_SIZE,
        lba_offset: if format.0 == 2352 {
            track::lba_at(reads, 0x40)
        } else {
            0
        },
        descramble: false,
        sector_count: 0,
    }
}

/// Finds the data track of an MDX image.
pub fn parse_mdx_as_data_track<S: ByteSource>(source: &mut S, path: &str) -> (r: DataTrack)
    ensures
        final(source).reads() == old(source).reads(),
        r@ == mdx_track(old(source).reads(), path@),
{
    let (size, user_data_offset): (u64, u64) = detect_sector_format_at(source, MDX_DATA_OFFSET);
    let lba_offset: u64 = if size == 2352 {
        sector_lba_at(source, MDX_DATA_OFFSET)
    } else {
        0
    };
    DataTrack {
        bin_path: path.to_owned(),
        track_offset: MDX_DATA_OFFSET,
        user_data_offset,
        stride: RAW_SECTOR_SIZE,
        lba_offset,
        descramble: false,
        sector_count: 0,
    }
}

/// How the plain sectors of an image stand from `start` on.
pub open spec fn plain_layout(start: u64, stride: u64, user_data_offset: u64) -> TrackLayout {
    TrackLayout { track_offset: start, user_data_offset, stride, lba_offset: 0, descramble: false }
}

/// Adds the Joliet descriptors of a volume.
#[verifier::loop_isolation(false)]
fn add_joliet<S: ByteSource>(source: &mut S, l: &TrackLayout, out: &mut Vec<String>)
    requires
        !l.descramble,
    ensures
        final(source).reads() == old(source).reads(),
        text::views(final(out)@) == text::views(old(out)@) + redumper::joliet_from(
            iso_volume::sectors_of(old(source).reads(), *l, seq![]),
            17,
        ),
{
    let ghost reads = source.reads();
    let ghost sectors = iso_volume::sectors_of(reads, *l, seq![]);
    let ghost goal = text::views(out@) + redumper::joliet_from(sectors, 17);
    let none: [u8; 0] = [];
    assert(none@ =~= seq![]);
    let mut lba: u64 = 17;
    while lba < 32
        invariant
            17 <= lba <= 32,
            source.reads() == reads,
            text::views(out@) + redumper::joliet_from(sectors, lba as int) == goal,
        decreases 32 - lba,
    {
        let ghost before = text::views(out@);
        let d: Vec<u8> = match read_track_logical(source, l, none.as_slice(), lba) {
            Some(d) => d,
            None => {
                assert(sectors(lba as int) is None);
                assert(before + seq![] =~= before);
                return ;
            },
        };
        assert(sectors(lba as int) == Some(d@));
        if d[0] == 0xFF {
            assert(before + seq![] =~= before);
            return ;
        }
        if joliet_descriptor(d.as_slice()) {
            let ghost rest = redumper::joliet_from(sectors, lba + 1);
            push_text(out, "Joliet");
            assert(before + (seq!["Joliet"@] + rest) =~= before.push("Joliet"@) + rest);
        }
        lba += 1;
    }
    assert(text::views(out@) + seq![] =~= text::views(out@));
}

/// The file systems of an MDX image: those of its track where its sectors are raw,
/// else ISO 9660 and Joliet.
pub open spec fn mdx_systems(reads: Reads, len: u64, p: Probes) -> Seq<Seq<char>> {
    let format = track::format_at(reads, 0x40);
    if format.0 == 2352 {
        track_systems(reads, len, bin_layout(MDX_DATA_OFFSET, format.1, 0, false), seq![], p)
    } else {
        seq!["ISO 9660"@] + redumper::joliet_from(
            iso_volume::sectors_of(reads, plain_layout(MDX_DATA_OFFSET, 2048, 0), seq![]),
            17,
        )
    }
}

/// Finds the file systems of an MDX image.
pub fn detect_filesystems_mdx<S: ByteSource>(source: S, len: u64, p: &Probes) -> (r: Vec<String>)
    ensures
        text::views(r@) == mdx_systems(source.reads(), len, *p),
{
    let mut src: S = source;
    let (size, user_data_offset): (u64, u64) = detect_sector_format_at(&mut src, MDX_DATA_OFFSET);
    if size == 2352 {
        let none: [u8; 0] = [];
        assert(none@ =~= seq![]);
        return detect_filesystems_in_bin(
            src,
            len,
            MDX_DATA_OFFSET,
            user_data_offset,
            0,
            false,
            none.as_slice(),
            p,
        );
    }
    let l: TrackLayout = TrackLayout {
        track_offset: MDX_DATA_OFFSET,
        user_data_offset: 0,
        stride: 2048,
        lba_offset: 0,
        descramble: false,
    };
    let mut out: Vec<String> = only("ISO 9660");
    add_joliet(&mut src, &l, &mut out);
    out
}

/// The name of an AaruFormat image, by the bytes that it begins with.
pub open spec fn aif_systems(reads: Reads) -> Seq<Seq<char>> {
    match reads(0, 8) {
        Ok(m) => one_if(
            bytes::spells(m, 0, "AARUFRMT"@) || bytes::spells(m, 0, "DICMFRMT"@),
            "AaruFormat image"@,
        ),
        Err(_) => seq![],
    }
}

/// Finds whether an image is of the AaruFormat.
pub fn detect_filesystems_aif<S: ByteSource>(source: &mut S) -> (r: Vec<String>)
    ensures
        final(source).reads() == old(source).reads(),
        text::views(r@) == aif_systems(old(source).reads()),
{
    match source.read_exact_at(0, 8) {
        Ok(m) => {
            if spells_at(m.as_slice(), 0, "AARUFRMT") || spells_at(m.as_slice(), 0, "DICMFRMT") {
                return only("AaruFormat image");
            }
        },
        Err(_) => {},
    }
    let out: Vec<String> = Vec::new();
    assert(text::views(out@) =~= seq![]);
    out
}

// ── Compressed hunks ────────────────────────────────────────────────────────

/// The length of the sectors in hunks of `hunk` bytes whose units take `unit`
/// bytes; zero where that is not known.
pub open spec fn hunk_stride(hunk: u64, unit: u64) -> u64 {
    if unit == 2448 || (unit == 0 && hunk % 2448 == 0 && hunk >= 2448) {
        2448
    } else if unit == 2352 || (unit == 0 && hunk % 2352 == 0 && hunk >= 2352) {
        2352
    } else {
        2048
    }
}

/// The length of the sectors in hunks.
pub fn chd_stride(hunk: u64, unit: u64) -> (r: u64)
    ensures
        r == hunk_stride(hunk, unit),
{
    if unit == 2448 || (unit == 0 && hunk % 2448 == 0 && hunk >= 2448) {
        2448
    } else if unit == 2352 || (unit == 0 && hunk % 2352 == 0 && hunk >= 2352) {
        2352
    } else {
        2048
    }
}

/// How the sectors of compressed hunks stand in what they unpack to.
#[derive(Clone, Copy)]
pub struct ChdLayout {
    pub stride: u64,
    pub user_data_offset: u64,
    pub track_byte_start: u64,
}

/// The pregap and the start of the user data that are tried as the `k`th: three
/// pregaps, each with two starts.
pub open spec fn trial(k: int) -> (u64, u64) {
    (
        if k < 2 {
            0
        } else if k < 4 {
            4
        } else {
            150
        },
        if k % 2 == 0 {
            16
        } else {
            24
        },
    )
}

/// The pregap and the start of the user data that are tried as the `k`th.
fn nth_trial(k: u64) -> (r: (u64, u64))
    ensures
        r == trial(k as int),
{
    (
        if k < 2 {
            0
        } else if k < 4 {
            4
        } else {
            150
        },
        if k % 2 == 0 {
            16
        } else {
            24
        },
    )
}

/// Whether a volume descriptor stands in the sixteenth sector of a trial, of which
/// `n` bytes are read.
pub open spec fn trial_volume(reads: Reads, stride: u64, k: int, n: int) -> bool {
    source::reach(
        reads,
        sector::data_pos(trial(k).0 * stride, stride as int, trial(k).1 as int, 16),
        n,
    ) matches Ok(b) && b[0] == 1 && bytes::spells(b, 1, "CD001"@)
}

/// The first trial from `k` on that finds a volume descriptor.
pub open spec fn volume_trial(reads: Reads, stride: u64, k: int, n: int) -> Option<int>
    decreases 6 - k,
{
    if k < 0 || k >= 6 {
        None
    } else if trial_volume(reads, stride, k, n) {
        Some(k)
    } else {
        volume_trial(reads, stride, k + 1, n)
    }
}

/// How the sectors of compressed hunks stand: raw ones where a volume descriptor
/// shows, or from the first on.
pub open spec fn chd_layout(reads: Reads, stride: u64) -> ChdLayout {
    if stride == 2048 {
        ChdLayout { stride, user_data_offset: 0, track_byte_start: 0 }
    } else {
        match volume_trial(reads, stride, 0, 6) {
            Some(k) => ChdLayout {
                stride,
                user_data_offset: trial(k).1,
                track_byte_start: (trial(k).0 * stride) as u64,
            },
            None => ChdLayout { stride, user_data_offset: 16, track_byte_start: 0 },
        }
    }
}

/// Finds the first trial that finds a volume descriptor.
#[verifier::loop_isolation(false)]
fn find_volume_trial<S: ByteSource>(source: &mut S, stride: u64, n: u64) -> (r: Option<u64>)
    requires
        stride <= 2448,
        n >= 6,
    ensures
        final(source).reads() == old(source).reads(),
        match r {
            Some(k) => k < 6 && volume_trial(old(source).reads(), stride, 0, n as int) == Some(
                k as int,
            ),
            None => volume_trial(old(source).reads(), stride, 0, n as int) is None,
        },
{
    let ghost reads = source.reads();
    let mut k: u64 = 0;
    while k < 6
        invariant
            k <= 6,
            source.reads() == reads,
            volume_trial(reads, stride, k as int, n as int) == volume_trial(
                reads,
                stride,
                0,
                n as int,
            ),
        decreases 6 - k,
    {
        let (pregap, offset): (u64, u64) = nth_trial(k);
        proof {
            let a = pregap as int;
            let b = stride as int;
            assert(0 <= a * b <= 150 * 2448) by (nonlinear_arith)
                requires
                    0 <= a <= 150,
                    0 <= b <= 2448,
            ;
        }
        let pos: u128 = sector::data_position(pregap * stride, stride, offset, 16);
        match source::read_wide(source, pos, n, "") {
            Ok(b) => {
                if b[0] == 1 && spells_at(b.as_slice(), 1, "CD001") {
                    return Some(k);
                }
            },
            Err(_) => {},
        }
        k += 1;
    }
    None
}

/// Finds how the sectors of compressed hunks stand: `source` gives what the hunks
/// unpack to.
pub fn open_chd<S: ByteSource>(source: &mut S, hunk: u64, unit: u64) -> (r: ChdLayout)
    ensures
        final(source).reads() == old(source).reads(),
        r == chd_layout(old(source).reads(), hunk_stride(hunk, unit)),
{
    let stride: u64 = chd_stride(hunk, unit);
    if stride == 2048 {
        return ChdLayout { stride, user_data_offset: 0, track_byte_start: 0 };
    }
    match find_volume_trial(source, stride, 6) {
        Some(k) => {
            let (pregap, offset): (u64, u64) = nth_trial(k);
            proof {
                let a = pregap as int;
                let b = stride as int;
                assert(0 <= a * b <= 150 * 2448) by (nonlinear_arith)
                    requires
                        0 <= a <= 150,
                        0 <= b <= 2448,
                ;
            }
            ChdLayout { stride, user_data_offset: offset, track_byte_start: pregap * stride }
        },
        None => ChdLayout { stride, user_data_offset: 16, track_byte_start: 0 },
    }
}

impl ChdLayout {
    /// Where the user data of a sector stands.
    pub fn data_place(&self, lba: u64) -> (r: u128)
        ensures
            r == sector::data_pos(
                self.track_byte_start as int,
                self.stride as int,
                self.user_data_offset as int,
                lba as int,
            ),
    {
        sector::data_position(self.track_byte_start, self.stride, self.user_data_offset, lba)
    }

    /// Where a whole raw sector stands; none where the sectors have no subheader.
    pub fn raw_place(&self, lba: u64) -> (r: Option<u128>)
        ensures
            match r {
                None => (self.stride != 2352 && self.stride != 2448) || self.user_data_offset != 24,
                Some(p) => (self.stride == 2352 || self.stride == 2448) && self.user_data_offset
                    == 24 && p == sector::data_pos(
                    self.track_byte_start as int,
                    self.stride as int,
                    0,
                    lba as int,
                ),
            },
    {
        if (self.stride != 2352 && self.stride != 2448) || self.user_data_offset != 24 {
            return None;
        }
        Some(sector::data_position(self.track_byte_start, self.stride, 0, lba))
    }
}

/// The first trial from `k` on that finds an OperaFS volume.
pub open spec fn opera_trial(reads: Reads, stride: u64, k: int) -> Option<int>
    decreases 6 - k,
{
    if k < 0 || k >= 6 {
        None
    } else if is_opera(reads, trial(k).0 * stride, stride as int, trial(k).1 as int) {
        Some(k)
    } else {
        opera_trial(reads, stride, k + 1)
    }
}

/// Finds the first trial that finds an OperaFS volume.
#[verifier::loop_isolation(false)]
pub fn find_opera_trial<S: ByteSource>(source: &mut S, stride: u64) -> (r: Option<(u64, u64)>)
    requires
        stride <= 2448,
    ensures
        final(source).reads() == old(source).reads(),
        match r {
            Some((start, offset)) => opera_trial(old(source).reads(), stride, 0) matches Some(k)
                && start == trial(k).0 * stride && offset == trial(k).1,
            None => opera_trial(old(source).reads(), stride, 0) is None,
        },
{
    let ghost reads = source.reads();
    let mut k: u64 = 0;
    while k < 6
        invariant
            k <= 6,
            source.reads() == reads,
            opera_trial(reads, stride, k as int) == opera_trial(reads, stride, 0),
        decreases 6 - k,
    {
        let (pregap, offset): (u64, u64) = nth_trial(k);
        proof {
            let a = pregap as int;
            let b = stride as int;
            assert(0 <= a * b <= 150 * 2448) by (nonlinear_arith)
                requires
                    0 <= a <= 150,
                    0 <= b <= 2448,
            ;
        }
        if is_threedo_reader(source, pregap * stride, offset, stride) {
            return Some((pregap * stride, offset));
        }
        k += 1;
    }
    None
}

/// Where an OperaFS volume in compressed hunks starts, and where the user data of
/// its sectors starts.
pub open spec fn opera_start(reads: Reads, stride: u64) -> (u64, u64) {
    if stride == 2048 {
        (0, 0)
    } else {
        match opera_trial(reads, stride, 0) {
            Some(k) => ((trial(k).0 * stride) as u64, trial(k).1),
            None => (0, 16),
        }
    }
}

/// Finds where an OperaFS volume in compressed hunks starts.
pub fn locate_opera<S: ByteSource>(source: &mut S, hunk: u64, unit: u64) -> (r: (u64, u64))
    ensures
        final(source).reads() == old(source).reads(),
        r == opera_start(old(source).reads(), hunk_stride(hunk, unit)),
{
    let stride: u64 = chd_stride(hunk, unit);
    if stride == 2048 {
        return (0, 0);
    }
    match find_opera_trial(source, stride) {
        Some(p) => p,
        None => (0, 16),
    }
}

/// Where the ISO 9660 volume of compressed hunks starts and where the user data of
/// its sectors starts, if there is one.
pub open spec fn chd_volume(reads: Reads, stride: u64) -> Option<TrackLayout> {
    if stride == 2048 {
        if source::reach(reads, sector::data_pos(0, 2048, 0, 16), 2048) matches Ok(b) && b[0] == 1
            && bytes::spells(b, 1, "CD001"@) {
            Some(plain_layout(0, 2048, 0))
        } else {
            None
        }
    } else {
        match volume_trial(reads, stride, 0, 2048) {
            Some(k) => Some(plain_layout((trial(k).0 * stride) as u64, stride, trial(k).1)),
            None => None,
        }
    }
}

/// The file systems of compressed hunks.
pub open spec fn chd_systems(reads: Reads, stride: u64, gcm: Option<GcmKind>) -> Seq<Seq<char>> {
    if stride != 2048 && opera_trial(reads, stride, 0) is Some {
        seq!["3DO OperaFS"@]
    } else if stride == 2048 && xdvdfs_filesystem::start_from(reads, 0, 0) is Some {
        seq!["XDVDFS"@]
    } else if stride == 2048 && gcm is Some {
        seq![kind_name(gcm->0)]
    } else {
        match chd_volume(reads, stride) {
            Some(l) => seq!["ISO 9660"@] + redumper::joliet_from(
                iso_volume::sectors_of(reads, l, seq![]),
                17,
            ),
            None => if stride != 2048 {
                seq!["3DO OperaFS"@]
            } else {
                seq!["ISO 9660"@]
            },
        }
    }
}

/// Finds the ISO 9660 volume of compressed hunks.
fn find_chd_volume<S: ByteSource>(source: &mut S, stride: u64) -> (r: Option<TrackLayout>)
    requires
        stride <= 2448,
    ensures
        final(source).reads() == old(source).reads(),
        r == chd_volume(old(source).reads(), stride),
{
    if stride == 2048 {
        let pos: u128 = sector::data_position(0, 2048, 0, 16);
        return match source::read_wide(source, pos, 2048, "") {
            Ok(b) => if b[0] == 1 && spells_at(b.as_slice(), 1, "CD001") {
                Some(
                    TrackLayout {
                        track_offset: 0,
                        user_data_offset: 0,
                        stride: 2048,
                        lba_offset: 0,
                        descramble: false,
                    },
                )
            } else {
                None
            },
            Err(_) => None,
        };
    }
    match find_volume_trial(source, stride, 2048) {
        Some(k) => {
            let (pregap, offset): (u64, u64) = nth_trial(k);
            proof {
                let a = pregap as int;
                let b = stride as int;
                assert(0 <= a * b <= 150 * 2448) by (nonlinear_arith)
                    requires
                        0 <= a <= 150,
                        0 <= b <= 2448,
                ;
            }
            Some(
                TrackLayout {
                    track_offset: pregap * stride,
                    user_data_offset: offset,
                    stride,
                    lba_offset: 0,
                    descramble: false,
                },
            )
        },
        None => None,
    }
}

/// Finds the file systems of compressed hunks: `source` gives what they unpack to,
/// and `gcm` is the kind of GameCube or Wii disc that it is.
pub fn detect_filesystems_chd<S: ByteSource>(
    source: &mut S,
    hunk: u64,
    unit: u64,
    gcm: Option<GcmKind>,
) -> (r: Vec<String>)
    ensures
        final(source).reads() == old(source).reads(),
        text::views(r@) == chd_systems(old(source).reads(), hunk_stride(hunk, unit), gcm),
{
    let stride: u64 = chd_stride(hunk, unit);
    if stride != 2048 {
        if find_opera_trial(source, stride).is_some() {
            return only("3DO OperaFS");
        }
    } else {
        if is_xdvdfs_reader(source, 0) {
            return only("XDVDFS");
        }
        if let Some(kind) = gcm {
            let name: String = gcm_kind_label(kind);
            return only(name.as_str());
        }
    }
    match find_chd_volume(source, stride) {
        Some(l) => {
            let mut out: Vec<String> = only("ISO 9660");
            add_joliet(source, &l, &mut out);
            out
        },
        None => if stride != 2048 {
            only("3DO OperaFS")
        } else {
            only("ISO 9660")
        },
    }
}

/// The length of the sectors in hunks is that of their units; where that is not told, a hunk of
/// whole raw sectors, with subchannel or without, holds such.
pub proof fn hunks_hold_whole_sectors(n: u64)
    requires
        0 < n < 0x1_0000_0000,
    ensures
        hunk_stride(n, 2448) == 2448,
        hunk_stride(n, 2352) == 2352,
        hunk_stride(n, 2048) == 2048,
        hunk_stride((2448 * n) as u64, 0) == 2448,
        (2352 * n) % 2448 != 0 ==> hunk_stride((2352 * n) as u64, 0) == 2352,
        (2048 * n) % 2448 != 0 && (2048 * n) % 2352 != 0 ==> hunk_stride((2048 * n) as u64, 0)
            == 2048,
{
}

/// The volume of raw hunks is looked for behind pregaps of none, four and 150 sectors, with user
/// data from byte 16 and from byte 24: the first place whose sixteenth sector begins with a
/// volume descriptor tells how the sectors stand.
pub proof fn a_volume_is_found_behind_its_pregap(
    image: Seq<u8>,
    stride: u64,
    places: Seq<(int, int)>,
    k: int,
)
    requires
        image.len() <= u64::MAX,
        stride == 2352 || stride == 2448,
        places == seq![(0int, 16int), (0, 24), (4, 16), (4, 24), (150, 16), (150, 24)],
        0 <= k < 6,
        stride * (places[5].0 + 16) + places[5].1 + 2048 <= image.len(),
        forall|j: int|
            0 <= j < k ==> !bytes::spells(
                image,
                stride * ((#[trigger] places[j]).0 + 16) + places[j].1,
                "\x01CD001"@,
            ),
        bytes::spells(image, stride * (places[k].0 + 16) + places[k].1, "\x01CD001"@),
    ensures
        chd_layout(source::reads_of(image), stride) == (ChdLayout {
            stride,
            user_data_offset: places[k].1 as u64,
            track_byte_start: (stride * places[k].0) as u64,
        }),
        chd_volume(source::reads_of(image), stride) == Some(
            plain_layout((stride * places[k].0) as u64, stride, places[k].1 as u64),
        ),
{
    lemma_trial(image, stride, places, k, 0, 6);
    lemma_trial(image, stride, places, k, 0, 2048);
    assert(trial(k).0 == places[k].0 && trial(k).1 == places[k].1);
    assert(trial(k).0 * stride == stride * places[k].0) by (nonlinear_arith)
        requires
            trial(k).0 == places[k].0,
    ;
}

/// The first trial that finds a volume descriptor, by the bytes of an image.
proof fn lemma_trial(
    image: Seq<u8>,
    stride: u64,
    places: Seq<(int, int)>,
    k: int,
    j: int,
    n: int,
)
    requires
        image.len() <= u64::MAX,
        stride == 2352 || stride == 2448,
        places == seq![(0int, 16int), (0, 24), (4, 16), (4, 24), (150, 16), (150, 24)],
        0 <= j <= k < 6,
        6 <= n <= 2048,
        stride * (places[5].0 + 16) + places[5].1 + 2048 <= image.len(),
        forall|j: int|
            0 <= j < k ==> !bytes::spells(
                image,
                stride * ((#[trigger] places[j]).0 + 16) + places[j].1,
                "\x01CD001"@,
            ),
        bytes::spells(image, stride * (places[k].0 + 16) + places[k].1, "\x01CD001"@),
    ensures
        volume_trial(source::reads_of(image), stride, j, n) == Some(k),
    decreases k - j,
{
    let at = stride * (places[j].0 + 16) + places[j].1;
    assert(trial(j).0 == places[j].0 && trial(j).1 == places[j].1);
    let p0 = places[j].0;
    let z = stride as int;
    assert(0 <= p0 <= 150);
    assert(z * (p0 + 16) <= z * (places[5].0 + 16) && 0 <= z * (p0 + 16) && p0 * z + 16 * z == z * (
    p0 + 16)) by (nonlinear_arith)
        requires
            0 <= p0 <= 150,
            places[5].0 == 150,
            0 <= z,
    ;
    assert(sector::data_pos(trial(j).0 * stride, z, trial(j).1 as int, 16) == at) by {
        assert(trial(j).0 * stride == p0 * z);
    }
    reveal_strlit("\x01CD001");
    reveal_strlit("CD001");
    let b = image.subrange(at, at + n);
    let long = "\x01CD001"@;
    let short = "CD001"@;
    assert(long.len() == 6 && short.len() == 5);
    assert(long[0] == '\x01');
    assert forall|i: int| 0 <= i < 5 implies short[i] == long[i + 1] by {}
    assert((b[0] == 1 && bytes::spells(b, 1, short)) == bytes::spells(image, at, long)) by {
        assert forall|i: int| 0 <= i < 6 implies b[i] == #[trigger] image[at + i] by {}
        if bytes::spells(image, at, long) {
            assert(image[at + 0] as u32 == long[0] as u32);
            assert forall|i: int| 0 <= i < short.len() implies b[1 + i] as u32
                == #[trigger] short[i] as u32 by {
                assert(image[at + (i + 1)] as u32 == long[i + 1] as u32);
                assert(b[i + 1] == image[at + (i + 1)]);
            }
        }
        if b[0] == 1 && bytes::spells(b, 1, short) {
            assert forall|i: int| 0 <= i < long.len() implies image[at + i] as u32
                == #[trigger] long[i] as u32 by {
                assert(b[i] == image[at + i]);
                if i > 0 {
                    assert(b[1 + (i - 1)] as u32 == short[i - 1] as u32);
                }
            }
        }
    }
    if j < k {
        lemma_trial(image, stride, places, k, j + 1, n);
    }
}

} // verus!
