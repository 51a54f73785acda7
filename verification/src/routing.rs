//! Which reader answers for an image: by its name, the view that is asked for and
//! what the image holds.
use vstd::prelude::*;
use crate::catalog;
use crate::catalog::less_name;
use crate::cue_sheet::CueTrack;
use crate::detection::Probes;
use crate::entry;
use crate::entry::{DiscEntry, EntryView};
use crate::extract;
use crate::extract::{plan_tree, ExtractFs, ExtractItem, ExtractPlan, PlanView};
use crate::iso_volume;
use crate::iso_volume::{
    el_torito_extract, el_torito_list, parse_el_torito, path_table_list, ElToritoImage, TrackLayout,
};
use crate::path;
use crate::path::{equal_files, HostDir, HostDirView};
use crate::pce_filesystem;
use crate::pce_filesystem::{is_pce_disc, PceFs};
use crate::sector;
use crate::source;
use crate::source::{ByteSource, Reads};
use crate::text;
use crate::text::{chars_of, ends_with, same_text, starts_with, to_lowercase};
use crate::threedo_filesystem;
use crate::threedo_filesystem::{is_threedo_disc, ThreeDOFs};
use crate::udf_filesystem;
use crate::udf_filesystem::{is_udf_disc, UdfFs};
use crate::xdvdfs_filesystem;
use crate::xdvdfs_filesystem::{is_xdvdfs_disc, XDVDFSFs};

verus! {

// ── Formats ─────────────────────────────────────────────────────────────────

/// The format of an image.
#[derive(Clone, Copy, PartialEq, Eq, Structural)]
pub enum ImageFormat {
    Cue,
    Mds,
    Nrg,
    Ccd,
    Cdi,
    Gdi,
    BlindWrite,
    Cif,
    Chd,
    Mdx,
    Cso,
    Ecm,
    Uif,
    Aif,
    Skeleton,
    Zst,
    Wbfs,
    WiiU,
    Scram,
    Sdram,
    Sbram,
    Plain,
}

/// The format of an image, by its name in lower case.
pub open spec fn format_of(lower: Seq<char>) -> ImageFormat {
    if text::ends(lower, ".cue"@) {
        ImageFormat::Cue
    } else if text::ends(lower, ".mds"@) {
        ImageFormat::Mds
    } else if text::ends(lower, ".nrg"@) {
        ImageFormat::Nrg
    } else if text::ends(lower, ".ccd"@) {
        ImageFormat::Ccd
    } else if text::ends(lower, ".cdi"@) {
        ImageFormat::Cdi
    } else if text::ends(lower, ".gdi"@) {
        ImageFormat::Gdi
    } else if text::ends(lower, ".b5t"@) || text::ends(lower, ".b6t"@) {
        ImageFormat::BlindWrite
    } else if text::ends(lower, ".cif"@) {
        ImageFormat::Cif
    } else if text::ends(lower, ".chd"@) {
        ImageFormat::Chd
    } else if text::ends(lower, ".mdx"@) {
        ImageFormat::Mdx
    } else if text::ends(lower, ".cso"@) || text::ends(lower, ".ciso"@) {
        ImageFormat::Cso
    } else if text::ends(lower, ".ecm"@) {
        ImageFormat::Ecm
    } else if text::ends(lower, ".uif"@) {
        ImageFormat::Uif
    } else if text::ends(lower, ".aif"@) {
        ImageFormat::Aif
    } else if text::ends(lower, ".skeleton"@) {
        ImageFormat::Skeleton
    } else if text::ends(lower, ".skeleton.zst"@) || text::ends(lower, ".iso.zst"@) || text::ends(
        lower,
        ".img.zst"@,
    ) {
        ImageFormat::Zst
    } else if text::ends(lower, ".wbfs"@) {
        ImageFormat::Wbfs
    } else if text::ends(lower, ".wux"@) || text::ends(lower, ".wud"@) {
        ImageFormat::WiiU
    } else if text::ends(lower, ".scram"@) {
        ImageFormat::Scram
    } else if text::ends(lower, ".sdram"@) {
        ImageFormat::Sdram
    } else if text::ends(lower, ".sbram"@) {
        ImageFormat::Sbram
    } else {
        ImageFormat::Plain
    }
}

/// The format of an image, by its name in lower case.
pub fn format_by_name(lower: &str) -> (r: ImageFormat)
    ensures
        r == format_of(lower@),
{
    let v: Vec<char> = chars_of(lower);
    let c: &[char] = v.as_slice();
    if ends_with(c, ".cue") {
        ImageFormat::Cue
    } else if ends_with(c, ".mds") {
        ImageFormat::Mds
    } else if ends_with(c, ".nrg") {
        ImageFormat::Nrg
    } else if ends_with(c, ".ccd") {
        ImageFormat::Ccd
    } else if ends_with(c, ".cdi") {
        ImageFormat::Cdi
    } else if ends_with(c, ".gdi") {
        ImageFormat::Gdi
    } else if ends_with(c, ".b5t") || ends_with(c, ".b6t") {
        ImageFormat::BlindWrite
    } else if ends_with(c, ".cif") {
        ImageFormat::Cif
    } else if ends_with(c, ".chd") {
        ImageFormat::Chd
    } else if ends_with(c, ".mdx") {
        ImageFormat::Mdx
    } else if ends_with(c, ".cso") || ends_with(c, ".ciso") {
        ImageFormat::Cso
    } else if ends_with(c, ".ecm") {
        ImageFormat::Ecm
    } else if ends_with(c, ".uif") {
        ImageFormat::Uif
    } else if ends_with(c, ".aif") {
        ImageFormat::Aif
    } else if ends_with(c, ".skeleton") {
        ImageFormat::Skeleton
    } else if ends_with(c, ".skeleton.zst") || ends_with(c, ".iso.zst") || ends_with(
        c,
        ".img.zst",
    ) {
        ImageFormat::Zst
    } else if ends_with(c, ".wbfs") {
        ImageFormat::Wbfs
    } else if ends_with(c, ".wux") || ends_with(c, ".wud") {
        ImageFormat::WiiU
    } else if ends_with(c, ".scram") {
        ImageFormat::Scram
    } else if ends_with(c, ".sdram") {
        ImageFormat::Sdram
    } else if ends_with(c, ".sbram") {
        ImageFormat::Sbram
    } else {
        ImageFormat::Plain
    }
}

/// The format of an image, by its name.
pub fn image_format(path: &str) -> (r: ImageFormat)
    ensures
        r == format_of(text::lowercase(path@)),
{
    let lower: String = to_lowercase(path);
    format_by_name(lower.as_str())
}

/// Whether a format describes the tracks of an image in a sheet or a descriptor.
pub open spec fn has_sheet(f: ImageFormat) -> bool {
    match f {
        ImageFormat::Cue => true,
        ImageFormat::Mds => true,
        ImageFormat::Nrg => true,
        ImageFormat::Ccd => true,
        ImageFormat::Cdi => true,
        ImageFormat::Gdi => true,
        ImageFormat::BlindWrite => true,
        ImageFormat::Cif => true,
        _ => false,
    }
}

/// Whether a format describes the tracks of an image in a sheet or a descriptor.
pub fn is_sheet(f: ImageFormat) -> (r: bool)
    ensures
        r == has_sheet(f),
{
    match f {
        ImageFormat::Cue => true,
        ImageFormat::Mds => true,
        ImageFormat::Nrg => true,
        ImageFormat::Ccd => true,
        ImageFormat::Cdi => true,
        ImageFormat::Gdi => true,
        ImageFormat::BlindWrite => true,
        ImageFormat::Cif => true,
        _ => false,
    }
}

// ── Views ───────────────────────────────────────────────────────────────────

/// Whether a view is asked for, or any will do.
pub open spec fn matches_view(fs: Option<Seq<char>>, target: Seq<char>) -> bool {
    fs matches Some(s) ==> s == target
}

/// Whether UDF of some version is asked for, or any view will do.
pub open spec fn matches_udf(fs: Option<Seq<char>>) -> bool {
    fs matches Some(s) ==> text::begins(s, "UDF"@)
}

/// Whether a GameCube or Wii disc is asked for, or any view will do.
pub open spec fn matches_gcm(fs: Option<Seq<char>>) -> bool {
    fs matches Some(s) ==> s == "GameCube GCM"@ || s == "Wii GCM"@
}

/// The text of an optional name.
pub open spec fn opt_view(fs: Option<&str>) -> Option<Seq<char>> {
    match fs {
        Some(s) => Some(s@),
        None => None,
    }
}

/// Whether a view is asked for, or any will do.
pub fn fs_matches(fs: Option<&str>, target: &str) -> (r: bool)
    ensures
        r == matches_view(opt_view(fs), target@),
{
    match fs {
        Some(s) => same_text(s, target),
        None => true,
    }
}

/// Whether UDF of some version is asked for, or any view will do.
pub fn fs_matches_udf(fs: Option<&str>) -> (r: bool)
    ensures
        r == matches_udf(opt_view(fs)),
{
    match fs {
        Some(s) => {
            let c: Vec<char> = chars_of(s);
            starts_with(c.as_slice(), "UDF")
        },
        None => true,
    }
}

/// Whether a GameCube or Wii disc is asked for, or any view will do.
pub fn fs_matches_gcm(fs: Option<&str>) -> (r: bool)
    ensures
        r == matches_gcm(opt_view(fs)),
{
    match fs {
        Some(s) => same_text(s, "GameCube GCM") || same_text(s, "Wii GCM"),
        None => true,
    }
}

/// Whether just this view is asked for.
fn asks_for(fs: Option<&str>, target: &str) -> (r: bool)
    ensures
        r == (opt_view(fs) == Some(target@)),
{
    match fs {
        Some(s) => same_text(s, target),
        None => false,
    }
}

/// The names of an ISO 9660 volume that are shown.
#[derive(Clone, Copy, PartialEq, Eq, Structural)]
pub enum NameSpace {
    Iso,
    Joliet,
    RockRidge,
}

/// The names that a view shows.
pub open spec fn names_of(fs: Option<Seq<char>>) -> NameSpace {
    if fs == Some("Joliet"@) {
        NameSpace::Joliet
    } else if fs == Some("Rock Ridge"@) {
        NameSpace::RockRidge
    } else {
        NameSpace::Iso
    }
}

/// The names that a view shows.
pub fn name_space(fs: Option<&str>) -> (r: NameSpace)
    ensures
        r == names_of(opt_view(fs)),
{
    if asks_for(fs, "Joliet") {
        NameSpace::Joliet
    } else if asks_for(fs, "Rock Ridge") {
        NameSpace::RockRidge
    } else {
        NameSpace::Iso
    }
}

/// What is asked of an image: a listing, a file, or a whole directory.
#[derive(Clone, Copy, PartialEq, Eq, Structural)]
pub enum Request {
    List,
    File,
    Tree,
}

/// A reader that can answer.
#[derive(Clone, Copy, PartialEq, Eq, Structural)]
pub enum Reader {
    ElTorito,
    PathTable,
    Cdi,
    Pce,
    Opera,
    Xdvdfs,
    Fatx,
    WiiGcm,
    Gcm,
    Hfs,
    Udf,
    Iso,
    IsoOfSheet,
    IsoOfMdx,
    WbfsGcm,
    WiiU,
}

/// What an image holds: which readers know it.
#[derive(Clone, Copy)]
pub struct Facts {
    pub cdi: bool,
    pub pce: bool,
    pub opera: bool,
    pub xdvdfs: bool,
    pub fatx: bool,
    pub wii_gcm: bool,
    pub gcm: bool,
    pub hfs: bool,
    pub udf: bool,
    pub udf_opens: bool,
}

/// The error for a directory of the path table.
pub open spec fn path_table_error() -> Seq<char> {
    "Path Table is a directory index; extract files via the ISO 9660 view"@
}

/// The error for an AaruFormat image.
pub open spec fn aaru_error() -> Seq<char> {
    "AaruFormat full browsing is not yet supported"@
}

/// The boot images and the path table, where they are asked for and can answer.
pub open spec fn special_reader(fs: Option<Seq<char>>, request: Request) -> Option<
    Result<Reader, Seq<char>>,
> {
    if fs == Some("El Torito"@) {
        Some(Ok(Reader::ElTorito))
    } else if fs == Some("Path Table"@) {
        match request {
            Request::List => Some(Ok(Reader::PathTable)),
            Request::Tree => Some(Err(path_table_error())),
            Request::File => None,
        }
    } else {
        None
    }
}

/// The reader for a track that a sheet describes.
pub open spec fn sheet_reader(
    f: ImageFormat,
    fs: Option<Seq<char>>,
    request: Request,
    plain: bool,
    x: Facts,
) -> Result<Reader, Seq<char>> {
    match special_reader(fs, request) {
        Some(r) => r,
        None => Ok(
            if x.cdi {
                Reader::Cdi
            } else if x.pce {
                Reader::Pce
            } else if x.opera {
                Reader::Opera
            } else if matches_view(fs, "XDVDFS"@) && plain && x.xdvdfs {
                Reader::Xdvdfs
            } else if matches_gcm(fs) && plain && x.gcm {
                Reader::Gcm
            } else if matches_view(fs, "HFS"@) && x.hfs {
                Reader::Hfs
            } else if matches_udf(fs) && x.udf {
                Reader::Udf
            } else if f == ImageFormat::Cue {
                Reader::IsoOfSheet
            } else {
                Reader::Iso
            },
        ),
    }
}

/// The reader for an image without a sheet.
pub open spec fn plain_reader(fs: Option<Seq<char>>, request: Request, plain: bool, x: Facts) -> Result<
    Reader,
    Seq<char>,
> {
    match special_reader(fs, request) {
        Some(r) => r,
        None => Ok(
            if x.pce {
                Reader::Pce
            } else if x.opera {
                Reader::Opera
            } else if matches_view(fs, "XDVDFS"@) && plain && x.xdvdfs {
                Reader::Xdvdfs
            } else if matches_view(fs, "FATX"@) && plain && x.fatx {
                Reader::Fatx
            } else if matches_gcm(fs) && plain && x.wii_gcm {
                Reader::WiiGcm
            } else if matches_gcm(fs) && plain && x.gcm {
                Reader::Gcm
            } else if matches_udf(fs) && x.udf && x.udf_opens {
                Reader::Udf
            } else if matches_view(fs, "HFS"@) && x.hfs {
                Reader::Hfs
            } else {
                Reader::Iso
            },
        ),
    }
}

/// The reader for a dump of scrambled sectors: for a listing the view that is asked
/// for counts.
pub open spec fn scram_reader(fs: Option<Seq<char>>, request: Request, x: Facts) -> Reader {
    if x.cdi {
        Reader::Cdi
    } else if x.pce {
        Reader::Pce
    } else if x.opera {
        Reader::Opera
    } else if (request != Request::List || matches_udf(fs)) && x.udf {
        Reader::Udf
    } else if (request != Request::List || matches_view(fs, "HFS"@)) && x.hfs {
        Reader::Hfs
    } else {
        Reader::Iso
    }
}

/// The reader for an MDX image.
pub open spec fn mdx_reader(plain: bool, x: Facts) -> Reader {
    if plain {
        Reader::IsoOfMdx
    } else if x.cdi {
        Reader::Cdi
    } else if x.pce {
        Reader::Pce
    } else if x.opera {
        Reader::Opera
    } else if x.hfs {
        Reader::Hfs
    } else if x.udf {
        Reader::Udf
    } else {
        Reader::Iso
    }
}

/// The reader for compressed hunks: by the view that is asked for.
pub open spec fn chd_reader(fs: Option<Seq<char>>) -> Reader {
    if fs == Some("3DO OperaFS"@) {
        Reader::Opera
    } else if fs == Some("XDVDFS"@) {
        Reader::Xdvdfs
    } else if fs == Some("GameCube GCM"@) || fs == Some("Wii GCM"@) {
        Reader::Gcm
    } else {
        Reader::Iso
    }
}

/// The reader that answers a request; `plain` says whether the image's sectors hold
/// user data only.
pub open spec fn reader_for(
    f: ImageFormat,
    fs: Option<Seq<char>>,
    request: Request,
    plain: bool,
    x: Facts,
) -> Result<Reader, Seq<char>> {
    if has_sheet(f) {
        sheet_reader(f, fs, request, plain, x)
    } else {
        match f {
            ImageFormat::Chd => Ok(chd_reader(fs)),
            ImageFormat::Aif => Err(aaru_error()),
            ImageFormat::Wbfs => Ok(Reader::WbfsGcm),
            ImageFormat::WiiU => Ok(Reader::WiiU),
            ImageFormat::Scram => Ok(scram_reader(fs, request, x)),
            ImageFormat::Mdx => Ok(mdx_reader(plain, x)),
            ImageFormat::Plain => plain_reader(fs, request, plain, x),
            _ => Ok(Reader::Iso),
        }
    }
}

/// The boot images and the path table, where they are asked for and can answer.
fn choose_special(fs: Option<&str>, request: Request) -> (r: Option<Result<Reader, String>>)
    ensures
        match r {
            None => special_reader(opt_view(fs), request) is None,
            Some(Ok(k)) => special_reader(opt_view(fs), request) == Some(
                Ok::<Reader, Seq<char>>(k),
            ),
            Some(Err(e)) => special_reader(opt_view(fs), request) == Some(
                Err::<Reader, Seq<char>>(e@),
            ),
        },
{
    if asks_for(fs, "El Torito") {
        Some(Ok(Reader::ElTorito))
    } else if asks_for(fs, "Path Table") {
        match request {
            Request::List => Some(Ok(Reader::PathTable)),
            Request::Tree => Some(
                Err(
                    "Path Table is a directory index; extract files via the ISO 9660 view".to_owned(),
                ),
            ),
            Request::File => None,
        }
    } else {
        None
    }
}

/// The contents of a choice.
pub open spec fn choice(r: Result<Reader, String>) -> Result<Reader, Seq<char>> {
    match r {
        Ok(k) => Ok(k),
        Err(e) => Err(e@),
    }
}

/// The reader for a track that a sheet describes.
fn choose_sheet(f: ImageFormat, fs: Option<&str>, request: Request, plain: bool, x: &Facts) -> (r:
    Result<Reader, String>)
    ensures
        choice(r) == sheet_reader(f, opt_view(fs), request, plain, *x),
{
    if let Some(r) = choose_special(fs, request) {
        return r;
    }
    if x.cdi {
        Ok(Reader::Cdi)
    } else if x.pce {
        Ok(Reader::Pce)
    } else if x.opera {
        Ok(Reader::Opera)
    } else if fs_matches(fs, "XDVDFS") && plain && x.xdvdfs {
        Ok(Reader::Xdvdfs)
    } else if fs_matches_gcm(fs) && plain && x.gcm {
        Ok(Reader::Gcm)
    } else if fs_matches(fs, "HFS") && x.hfs {
        Ok(Reader::Hfs)
    } else if fs_matches_udf(fs) && x.udf {
        Ok(Reader::Udf)
    } else if f == ImageFormat::Cue {
        Ok(Reader::IsoOfSheet)
    } else {
        Ok(Reader::Iso)
    }
}

/// The reader for an image without a sheet.
fn choose_plain(fs: Option<&str>, request: Request, plain: bool, x: &Facts) -> (r: Result<
    Reader,
    String,
>)
    ensures
        choice(r) == plain_reader(opt_view(fs), request, plain, *x),
{
    if let Some(r) = choose_special(fs, request) {
        return r;
    }
    if x.pce {
        Ok(Reader::Pce)
    } else if x.opera {
        Ok(Reader::Opera)
    } else if fs_matches(fs, "XDVDFS") && plain && x.xdvdfs {
        Ok(Reader::Xdvdfs)
    } else if fs_matches(fs, "FATX") && plain && x.fatx {
        Ok(Reader::Fatx)
    } else if fs_matches_gcm(fs) && plain && x.wii_gcm {
        Ok(Reader::WiiGcm)
    } else if fs_matches_gcm(fs) && plain && x.gcm {
        Ok(Reader::Gcm)
    } else if fs_matches_udf(fs) && x.udf && x.udf_opens {
        Ok(Reader::Udf)
    } else if fs_matches(fs, "HFS") && x.hfs {
        Ok(Reader::Hfs)
    } else {
        Ok(Reader::Iso)
    }
}

/// Chooses the reader that answers a request.
pub fn choose_reader(f: ImageFormat, fs: Option<&str>, request: Request, plain: bool, x: &Facts) -> (r:
    Result<Reader, String>)
    ensures
        choice(r) == reader_for(f, opt_view(fs), request, plain, *x),
{
    if is_sheet(f) {
        return choose_sheet(f, fs, request, plain, x);
    }
    match f {
        ImageFormat::Chd => if asks_for(fs, "3DO OperaFS") {
            Ok(Reader::Opera)
        } else if asks_for(fs, "XDVDFS") {
            Ok(Reader::Xdvdfs)
        } else if asks_for(fs, "GameCube GCM") || asks_for(fs, "Wii GCM") {
            Ok(Reader::Gcm)
        } else {
            Ok(Reader::Iso)
        },
        ImageFormat::Aif => Err("AaruFormat full browsing is not yet supported".to_owned()),
        ImageFormat::Wbfs => Ok(Reader::WbfsGcm),
        ImageFormat::WiiU => Ok(Reader::WiiU),
        ImageFormat::Scram => {
            let listing: bool = request == Request::List;
            if x.cdi {
                Ok(Reader::Cdi)
            } else if x.pce {
                Ok(Reader::Pce)
            } else if x.opera {
                Ok(Reader::Opera)
            } else if (!listing || fs_matches_udf(fs)) && x.udf {
                Ok(Reader::Udf)
            } else if (!listing || fs_matches(fs, "HFS")) && x.hfs {
                Ok(Reader::Hfs)
            } else {
                Ok(Reader::Iso)
            }
        },
        ImageFormat::Mdx => if plain {
            Ok(Reader::IsoOfMdx)
        } else if x.cdi {
            Ok(Reader::Cdi)
        } else if x.pce {
            Ok(Reader::Pce)
        } else if x.opera {
            Ok(Reader::Opera)
        } else if x.hfs {
            Ok(Reader::Hfs)
        } else if x.udf {
            Ok(Reader::Udf)
        } else {
            Ok(Reader::Iso)
        },
        ImageFormat::Plain => choose_plain(fs, request, plain, x),
        _ => Ok(Reader::Iso),
    }
}

// ── What an image holds ─────────────────────────────────────────────────────

/// What a track holds, with what readers outside this library say of it.
pub open spec fn facts_of(
    reads: Reads,
    len: u64,
    track_offset: u64,
    user_data_offset: u64,
    p: Probes,
    wii_gcm: bool,
) -> Facts {
    let off = track_offset as int;
    Facts {
        cdi: p.cdi,
        pce: pce_filesystem::boot_sector(reads, off, user_data_offset) is Some,
        opera: crate::detection::is_opera(
            reads,
            off,
            sector::stride_for(user_data_offset) as int,
            user_data_offset as int,
        ),
        xdvdfs: xdvdfs_filesystem::start_from(reads, off, 0) is Some,
        fatx: p.fatx,
        wii_gcm,
        gcm: p.gcm is Some,
        hfs: p.hfs,
        udf: udf_filesystem::is_udf(reads, off, user_data_offset as int),
        udf_opens: udf_filesystem::udf_opened(
            reads,
            len as int,
            off,
            user_data_offset as int,
        ) is Ok,
    }
}

/// Finds what a track holds.
pub fn gather_facts<S: ByteSource>(
    source: S,
    len: u64,
    track_offset: u64,
    user_data_offset: u64,
    p: &Probes,
    wii_gcm: bool,
) -> (r: Facts)
    ensures
        r == facts_of(source.reads(), len, track_offset, user_data_offset, *p, wii_gcm),
{
    let mut src: S = source;
    let pce: bool = is_pce_disc(&mut src, track_offset, user_data_offset);
    let opera: bool = is_threedo_disc(&mut src, track_offset, user_data_offset);
    let xdvdfs: bool = is_xdvdfs_disc(&mut src, track_offset);
    let udf: bool = is_udf_disc(&mut src, track_offset, user_data_offset);
    let udf_opens: bool = UdfFs::new(src, len, track_offset, user_data_offset).is_ok();
    Facts {
        cdi: p.cdi,
        pce,
        opera,
        xdvdfs,
        fatx: p.fatx,
        wii_gcm,
        gcm: p.gcm.is_some(),
        hfs: p.hfs,
        udf,
        udf_opens,
    }
}

// ── Answers ─────────────────────────────────────────────────────────────────

/// How the sectors of a track stand in its file for a reader: a 3DO disc is read with
/// the sectors that go with where their user data starts, except in a CHD image, whose
/// units say how far apart they are.
pub open spec fn layout_for(f: ImageFormat, k: Reader, l: TrackLayout) -> TrackLayout {
    if k == Reader::Opera && f != ImageFormat::Chd {
        TrackLayout { stride: sector::stride_for(l.user_data_offset), ..l }
    } else {
        l
    }
}

/// How the sectors of a track stand in its file for a reader.
pub fn reader_layout(f: ImageFormat, k: Reader, l: TrackLayout) -> (r: TrackLayout)
    ensures
        r == layout_for(f, k, l),
{
    if k == Reader::Opera && f != ImageFormat::Chd {
        TrackLayout {
            track_offset: l.track_offset,
            user_data_offset: l.user_data_offset,
            stride: sector::default_stride(l.user_data_offset),
            lba_offset: l.lba_offset,
            descramble: l.descramble,
        }
    } else {
        l
    }
}

/// What a PC Engine disc lists.
pub open spec fn pce_listing(reads: Reads, l: TrackLayout) -> Result<Seq<EntryView>, Seq<char>> {
    match pce_filesystem::boot_sector(reads, l.track_offset as int, l.user_data_offset) {
        None => Err("Not a PC Engine CD-ROM disc"@),
        Some(lba) => extract::boot_listing(pce_boot(reads, l, lba)),
    }
}

/// The boot block of a PC Engine disc.
pub open spec fn pce_boot(reads: Reads, l: TrackLayout, lba: int) -> Result<Seq<u8>, Seq<char>> {
    match pce_filesystem::sector_of(reads, l.track_offset as int, l.user_data_offset, lba) {
        Ok(s) => Ok(s),
        Err(_) => Err("Failed to read IPL sector"@),
    }
}

/// What the program of a PC Engine disc holds.
pub open spec fn pce_file(reads: Reads, l: TrackLayout) -> Result<Seq<u8>, Seq<char>> {
    match pce_filesystem::boot_sector(reads, l.track_offset as int, l.user_data_offset) {
        None => Err("Not a PC Engine CD-ROM disc"@),
        Some(lba) => match pce_boot(reads, l, lba) {
            Err(e) => Err(e),
            Ok(s) => pce_filesystem::sectors_from(
                reads,
                l.track_offset as int,
                l.user_data_offset,
                pce_filesystem::boot_line(s).lba as int,
                pce_filesystem::boot_line(s).size as int,
            ),
        },
    }
}

/// The listing of a directory by one of the readers of this library.
pub open spec fn listed_by(
    k: Reader,
    reads: Reads,
    len: u64,
    l: TrackLayout,
    table: Seq<u8>,
    dir: Seq<char>,
) -> Option<Result<Seq<EntryView>, Seq<char>>> {
    let off = l.track_offset as int;
    let data = l.user_data_offset as int;
    match k {
        Reader::ElTorito => Some(
            iso_volume::boot_listing(iso_volume::sectors_of(reads, l, table), dir),
        ),
        Reader::PathTable => Some(
            iso_volume::table_listing(iso_volume::sectors_of(reads, l, table), dir),
        ),
        Reader::Pce => Some(pce_listing(reads, l)),
        Reader::Opera => Some(
            match threedo_filesystem::opera_opened(
                reads,
                off,
                data,
                l.stride as int,
            ) {
                Err(e) => Err(e),
                Ok(v) => threedo_filesystem::listing_answer(reads, v, dir),
            },
        ),
        Reader::Xdvdfs => Some(
            match xdvdfs_filesystem::xdvdfs_opened(reads, off) {
                Err(e) => Err(e),
                Ok(v) => xdvdfs_filesystem::listing_answer(reads, v, dir),
            },
        ),
        Reader::Udf => Some(
            match udf_filesystem::udf_opened(reads, len as int, off, data) {
                Err(e) => Err(e),
                Ok(v) => udf_filesystem::listing_answer(reads, v, dir),
            },
        ),
        _ => None,
    }
}

/// The contents of a file by one of the readers of this library.
pub open spec fn read_by(
    k: Reader,
    reads: Reads,
    len: u64,
    l: TrackLayout,
    table: Seq<u8>,
    path: Seq<char>,
) -> Option<Result<Seq<u8>, Seq<char>>> {
    let off = l.track_offset as int;
    let data = l.user_data_offset as int;
    match k {
        Reader::ElTorito => Some(
            iso_volume::boot_file(iso_volume::sectors_of(reads, l, table), path),
        ),
        Reader::Pce => Some(pce_file(reads, l)),
        Reader::Opera => Some(
            match threedo_filesystem::opera_opened(
                reads,
                off,
                data,
                l.stride as int,
            ) {
                Err(e) => Err(e),
                Ok(v) => threedo_filesystem::file_answer(reads, v, path),
            },
        ),
        Reader::Xdvdfs => Some(
            match xdvdfs_filesystem::xdvdfs_opened(reads, off) {
                Err(e) => Err(e),
                Ok(v) => xdvdfs_filesystem::file_answer(reads, v, path),
            },
        ),
        Reader::Udf => Some(
            match udf_filesystem::udf_opened(reads, len as int, off, data) {
                Err(e) => Err(e),
                Ok(v) => udf_filesystem::file_answer(reads, v, path),
            },
        ),
        _ => None,
    }
}

/// Lists a directory by one of the readers of this library; none where another
/// reader has to answer.
pub fn list_disc_contents<S: ByteSource>(
    k: Reader,
    source: S,
    len: u64,
    l: &TrackLayout,
    table: &[u8],
    dir: &str,
) -> (r: Option<Result<Vec<DiscEntry>, String>>)
    requires
        iso_volume::layout_ok(*l),
    ensures
        match r {
            Some(a) => listed_by(k, source.reads(), len, *l, table@, dir@) == Some(
                iso_volume::entries_outcome(a),
            ),
            None => listed_by(k, source.reads(), len, *l, table@, dir@) is None,
        },
{
    let mut src: S = source;
    match k {
        Reader::ElTorito => Some(el_torito_list(&mut src, l, table, dir)),
        Reader::PathTable => Some(path_table_list(&mut src, l, table, dir)),
        Reader::Pce => Some(
            match PceFs::new(src, l.track_offset, l.user_data_offset) {
                Ok(fs) => {
                    let mut fs2: PceFs<S> = fs;
                    fs2.list_directory(dir)
                },
                Err(e) => Err(e),
            },
        ),
        Reader::Opera => Some(
            match ThreeDOFs::new(src, l.track_offset, l.user_data_offset, l.stride) {
                Ok(fs) => {
                    let mut fs2: ThreeDOFs<S> = fs;
                    fs2.list_directory(dir)
                },
                Err(e) => Err(e),
            },
        ),
        Reader::Xdvdfs => Some(
            match XDVDFSFs::new(src, l.track_offset) {
                Ok(fs) => {
                    let mut fs2: XDVDFSFs<S> = fs;
                    fs2.list_directory(dir)
                },
                Err(e) => Err(e),
            },
        ),
        Reader::Udf => Some(
            match UdfFs::new(src, len, l.track_offset, l.user_data_offset) {
                Ok(fs) => {
                    let mut fs2: UdfFs<S> = fs;
                    fs2.list_directory(dir)
                },
                Err(e) => Err(e),
            },
        ),
        _ => None,
    }
}

/// Reads a file by one of the readers of this library; none where another reader
/// has to answer.
pub fn save_file<S: ByteSource>(
    k: Reader,
    source: S,
    len: u64,
    l: &TrackLayout,
    table: &[u8],
    path: &str,
) -> (r: Option<Result<Vec<u8>, String>>)
    requires
        iso_volume::layout_ok(*l),
    ensures
        match r {
            Some(a) => read_by(k, source.reads(), len, *l, table@, path@) == Some(
                source::outcome(a),
            ),
            None => read_by(k, source.reads(), len, *l, table@, path@) is None,
        },
{
    let mut src: S = source;
    match k {
        Reader::ElTorito => Some(el_torito_extract(&mut src, l, table, path)),
        Reader::Pce => Some(
            match PceFs::new(src, l.track_offset, l.user_data_offset) {
                Ok(fs) => {
                    let mut fs2: PceFs<S> = fs;
                    fs2.extract_file(path)
                },
                Err(e) => Err(e),
            },
        ),
        Reader::Opera => Some(
            match ThreeDOFs::new(src, l.track_offset, l.user_data_offset, l.stride) {
                Ok(fs) => {
                    let mut fs2: ThreeDOFs<S> = fs;
                    fs2.extract_file(path)
                },
                Err(e) => Err(e),
            },
        ),
        Reader::Xdvdfs => Some(
            match XDVDFSFs::new(src, l.track_offset) {
                Ok(fs) => {
                    let mut fs2: XDVDFSFs<S> = fs;
                    fs2.extract_file(path)
                },
                Err(e) => Err(e),
            },
        ),
        Reader::Udf => Some(
            match UdfFs::new(src, len, l.track_offset, l.user_data_offset) {
                Ok(fs) => {
                    let mut fs2: UdfFs<S> = fs;
                    fs2.extract_file(path)
                },
                Err(e) => Err(e),
            },
        ),
        _ => None,
    }
}

/// What the directories of a track list by one of the readers of this library.
pub open spec fn listings_by(k: Reader, reads: Reads, len: u64, l: TrackLayout) -> Option<
    Result<extract::Listings, Seq<char>>,
> {
    let off = l.track_offset as int;
    let data = l.user_data_offset as int;
    match k {
        Reader::Pce => Some(
            match pce_filesystem::boot_sector(reads, off, l.user_data_offset) {
                None => Err("Not a PC Engine CD-ROM disc"@),
                Some(lba) => Ok(
                    |path: Seq<char>| extract::boot_listing(pce_boot(reads, l, lba)),
                ),
            },
        ),
        Reader::Opera => Some(
            match threedo_filesystem::opera_opened(
                reads,
                off,
                data,
                l.stride as int,
            ) {
                Err(e) => Err(e),
                Ok(v) => Ok(
                    |path: Seq<char>| threedo_filesystem::listing_answer(reads, v, path),
                ),
            },
        ),
        Reader::Xdvdfs => Some(
            match xdvdfs_filesystem::xdvdfs_opened(reads, off) {
                Err(e) => Err(e),
                Ok(v) => Ok(|path: Seq<char>| xdvdfs_filesystem::listing_answer(reads, v, path)),
            },
        ),
        Reader::Udf => Some(
            match udf_filesystem::udf_opened(reads, len as int, off, data) {
                Err(e) => Err(e),
                Ok(v) => Ok(|path: Seq<char>| udf_filesystem::listing_answer(reads, v, path)),
            },
        ),
        _ => None,
    }
}

/// The plan for the boot images of a volume: all go to the destination.
pub open spec fn boot_plan(images: Seq<iso_volume::ImageView>, dest: Seq<char>) -> PlanView {
    PlanView {
        dirs: seq![],
        files: images.map_values(
            |i: iso_volume::ImageView| (i.name, extract::child(dest, i.name)),
        ),
    }
}

/// The plan for the extraction of a directory by one of the readers of this
/// library.
pub open spec fn planned_by(
    k: Reader,
    reads: Reads,
    len: u64,
    l: TrackLayout,
    table: Seq<u8>,
    dir: Seq<char>,
    dest: Seq<char>,
) -> Option<Result<PlanView, Seq<char>>> {
    if k == Reader::ElTorito {
        Some(
            match iso_volume::boot_images(iso_volume::sectors_of(reads, l, table)) {
                Err(e) => Err(e),
                Ok(v) => Ok(boot_plan(v, dest)),
            },
        )
    } else {
        match listings_by(k, reads, len, l) {
            None => None,
            Some(Err(e)) => Some(Err(e)),
            Some(Ok(ls)) => Some(extract::tree(ls, dir, dest, 0)),
        }
    }
}

/// The contents of the outcome of a plan.
pub open spec fn plan_outcome(r: Result<ExtractPlan, String>) -> Result<PlanView, Seq<char>> {
    match r {
        Ok(p) => Ok(p@),
        Err(e) => Err(e@),
    }
}

/// Plans the extraction of the boot images of a volume.
fn plan_boot_images<S: ByteSource>(source: &mut S, l: &TrackLayout, table: &[u8], dest: &str) -> (r:
    Result<ExtractPlan, String>)
    requires
        iso_volume::layout_ok(*l),
    ensures
        final(source).reads() == old(source).reads(),
        plan_outcome(r) == (match iso_volume::boot_images(
            iso_volume::sectors_of(old(source).reads(), *l, table@),
        ) {
            Err(e) => Err(e),
            Ok(v) => Ok(boot_plan(v, dest@)),
        }),
{
    let images: Vec<ElToritoImage> = match parse_el_torito(source, l, table) {
        Ok(v) => v,
        Err(e) => {
            return Err(e);
        },
    };
    let ghost iv = iso_volume::image_views(images@);
    let ghost goal = boot_plan(iv, dest@);
    let mut plan: ExtractPlan = ExtractPlan { dirs: Vec::new(), files: Vec::new() };
    let mut k: usize = 0;
    while k < images.len()
        invariant
            k <= images@.len(),
            iv == iso_volume::image_views(images@),
            goal == boot_plan(iv, dest@),
            plan.dirs@.len() == 0,
            plan.files@.len() == k,
            forall|j: int|
                0 <= j < k ==> ((#[trigger] plan.files@[j]).src@, plan.files@[j].dest@)
                    == goal.files[j],
        decreases images@.len() - k,
    {
        let i: &ElToritoImage = &images[k];
        assert(iv[k as int] == i@);
        let to: String = text::join3(dest, "/", i.name.as_str());
        plan.files.push(ExtractItem { src: i.name.as_str().to_owned(), dest: to });
        k += 1;
    }
    assert(plan@.dirs =~= goal.dirs);
    assert(plan@.files =~= goal.files);
    assert(plan@ =~= goal);
    Ok(plan)
}

/// Plans the extraction of a directory by one of the readers of this library; none
/// where another reader has to answer.
pub fn save_directory<S: ByteSource>(
    k: Reader,
    source: S,
    len: u64,
    l: &TrackLayout,
    table: &[u8],
    dir: &str,
    dest: &str,
) -> (r: Option<Result<ExtractPlan, String>>)
    requires
        iso_volume::layout_ok(*l),
    ensures
        match r {
            Some(a) => planned_by(k, source.reads(), len, *l, table@, dir@, dest@) == Some(
                plan_outcome(a),
            ),
            None => planned_by(k, source.reads(), len, *l, table@, dir@, dest@) is None,
        },
{
    let ghost reads = source.reads();
    let ghost goal = listings_by(k, reads, len, *l);
    let mut src: S = source;
    match k {
        Reader::ElTorito => Some(plan_boot_images(&mut src, l, table, dest)),
        Reader::Pce => Some(
            match PceFs::new(src, l.track_offset, l.user_data_offset) {
                Ok(fs) => {
                    let mut fs2: PceFs<S> = fs;
                    assert(fs2.listings() =~= goal->0->Ok_0);
                    plan_tree(&mut fs2, dir, dest)
                },
                Err(e) => Err(e),
            },
        ),
        Reader::Opera => Some(
            match ThreeDOFs::new(src, l.track_offset, l.user_data_offset, l.stride) {
                Ok(fs) => {
                    let mut fs2: ThreeDOFs<S> = fs;
                    assert(fs2.listings() =~= goal->0->Ok_0);
                    plan_tree(&mut fs2, dir, dest)
                },
                Err(e) => Err(e),
            },
        ),
        Reader::Xdvdfs => Some(
            match XDVDFSFs::new(src, l.track_offset) {
                Ok(fs) => {
                    let mut fs2: XDVDFSFs<S> = fs;
                    assert(fs2.listings() =~= goal->0->Ok_0);
                    plan_tree(&mut fs2, dir, dest)
                },
                Err(e) => Err(e),
            },
        ),
        Reader::Udf => Some(
            match UdfFs::new(src, len, l.track_offset, l.user_data_offset) {
                Ok(fs) => {
                    let mut fs2: UdfFs<S> = fs;
                    assert(fs2.listings() =~= goal->0->Ok_0);
                    plan_tree(&mut fs2, dir, dest)
                },
                Err(e) => Err(e),
            },
        ),
        _ => None,
    }
}

/// Extraction of a directory by a reader of this library writes only below the
/// destination, whatever names the image holds.
pub proof fn planned_directories_stay_below_the_destination(
    k: Reader,
    reads: Reads,
    len: u64,
    l: TrackLayout,
    table: Seq<u8>,
    dir: Seq<char>,
    dest: Seq<char>,
)
    ensures
        planned_by(k, reads, len, l, table, dir, dest) matches Some(Ok(p)) ==> extract::stays_below(
            dest,
            p,
        ),
{
    if k == Reader::ElTorito {
        let sectors = iso_volume::sectors_of(reads, l, table);
        if let Ok(v) = iso_volume::boot_images(sectors) {
            let p = boot_plan(v, dest);
            let cat = sectors(iso_volume::catalog_from(sectors, 17)->0)->0;
            assert forall|i: int| 0 <= i < p.files.len() implies extract::is_below(
                dest,
                (#[trigger] p.files[i]).1,
            ) by {
                iso_volume::boot_images_have_safe_names(cat, i);
                extract::lemma_entry_below(dest, dest, v[i].name);
            }
        }
    } else if let Some(Ok(ls)) = listings_by(k, reads, len, l) {
        extract::extraction_stays_below_the_destination(ls, dir, dest, 0);
    }
}

// ── Sheets of several files ─────────────────────────────────────────────────

/// Whether two of the tracks that follow each other from `k` on are in different
/// files.
pub open spec fn files_differ(
    dir: HostDirView,
    v: Seq<crate::cue_sheet::CueTrackView>,
    k: int,
) -> bool
    decreases v.len() - k,
{
    if k < 0 || k + 1 >= v.len() {
        false
    } else {
        !path::same_file(dir, v[k].bin, v[k + 1].bin) || files_differ(dir, v, k + 1)
    }
}

/// Whether the volume of a sheet in the directory `dir` is spread over the files of its
/// tracks: where the last track holds no volume descriptor.
pub open spec fn is_spread(
    dir: HostDirView,
    v: Seq<crate::cue_sheet::CueTrackView>,
    last_has_pvd: bool,
) -> bool {
    v.len() > 1 && !last_has_pvd && files_differ(dir, v, 0)
}

/// Whether the volume of a sheet in the directory `dir` is spread over the files of its
/// tracks.
#[verifier::loop_isolation(false)]
pub fn uses_all_files(dir: &HostDir, tracks: &Vec<CueTrack>, last_has_pvd: bool) -> (r: bool)
    ensures
        r == is_spread(dir@, crate::cue_sheet::cue_tracks(tracks@), last_has_pvd),
{
    let ghost tv = crate::cue_sheet::cue_tracks(tracks@);
    let n: usize = tracks.len();
    if n <= 1 || last_has_pvd {
        return false;
    }
    let mut k: usize = 0;
    while k < n - 1
        invariant
            k <= n - 1,
            files_differ(dir@, tv, k as int) == files_differ(dir@, tv, 0),
        decreases n - k,
    {
        assert(tv[k as int] == tracks@[k as int]@);
        assert(tv[k + 1] == tracks@[k + 1]@);
        if !equal_files(dir, tracks[k].bin.as_str(), tracks[k + 1].bin.as_str()) {
            return true;
        }
        k += 1;
    }
    false
}

// ── Directories of the host ─────────────────────────────────────────────────

/// Whether a line of a host directory comes before another: directories first,
/// then by their names in lower case.
pub open spec fn line_before(a: EntryView, b: EntryView) -> bool {
    if a.is_dir != b.is_dir {
        a.is_dir
    } else {
        catalog::name_less(text::lowercase(a.name), text::lowercase(b.name))
    }
}

/// Lines in order with one more, behind those that it does not come before.
pub open spec fn line_added(v: Seq<EntryView>, e: EntryView) -> Seq<EntryView>
    decreases v.len(),
{
    if v.len() > 0 && line_before(e, v.last()) {
        line_added(v.drop_last(), e).push(v.last())
    } else {
        v.push(e)
    }
}

/// The first `n` lines in order; lines of which none comes before the other stay as
/// they were.
pub open spec fn lines_in_order(v: Seq<EntryView>, n: int) -> Seq<EntryView>
    decreases n,
{
    if n <= 0 {
        seq![]
    } else {
        line_added(lines_in_order(v, n - 1), v[n - 1])
    }
}

/// Of two lines at most one comes before the other, and a line that does not come
/// before one does not come before any that this one does not come before.
proof fn lemma_line_order(a: EntryView, b: EntryView, c: EntryView)
    ensures
        line_before(a, b) ==> !line_before(b, a),
        !line_before(a, b) && !line_before(b, c) ==> !line_before(a, c),
{
    let x = text::lowercase(a.name);
    let y = text::lowercase(b.name);
    let z = text::lowercase(c.name);
    catalog::names_are_totally_ordered(x, y);
    catalog::names_are_totally_ordered(y, z);
    catalog::names_are_totally_ordered(x, z);
    if catalog::name_less(z, y) && catalog::name_less(y, x) {
        catalog::name_order_is_transitive(z, y, x);
    }
}

/// Whether no line comes before one that stands before it.
pub open spec fn in_order(v: Seq<EntryView>) -> bool {
    forall|i: int, j: int| 0 <= i < j < v.len() ==> !line_before(#[trigger] v[j], #[trigger] v[i])
}

/// Adding a line to lines in order keeps them in order, and loses none.
proof fn lemma_line_added(v: Seq<EntryView>, e: EntryView)
    requires
        in_order(v),
    ensures
        in_order(line_added(v, e)),
        line_added(v, e).len() == v.len() + 1,
        line_added(v, e).to_multiset() == v.to_multiset().insert(e),
        forall|i: int|
            0 <= i < line_added(v, e).len() ==> #[trigger] line_added(v, e)[i] == e || v.contains(
                line_added(v, e)[i],
            ),
    decreases v.len(),
{
    broadcast use vstd::seq_lib::group_to_multiset_ensures;

    let r = line_added(v, e);
    if v.len() > 0 && line_before(e, v.last()) {
        let w = v.drop_last();
        let head = line_added(w, e);
        assert(in_order(w)) by {
            assert forall|i: int, j: int| 0 <= i < j < w.len() implies !line_before(
                #[trigger] w[j],
                #[trigger] w[i],
            ) by {
                assert(w[j] == v[j] && w[i] == v[i]);
            }
        }
        lemma_line_added(w, e);
        assert(r == head.push(v.last()));
        assert(v =~= w.push(v.last()));
        assert(r.to_multiset() =~= v.to_multiset().insert(e));
        lemma_line_order(e, v.last(), e);
        assert forall|i: int, j: int| 0 <= i < j < r.len() implies !line_before(
            #[trigger] r[j],
            #[trigger] r[i],
        ) by {
            if j < head.len() {
                assert(r[j] == head[j] && r[i] == head[i]);
            } else {
                assert(r[i] == head[i]);
                if head[i] != e {
                    let k = choose|k: int| 0 <= k < w.len() && w[k] == head[i];
                    assert(v[k] == head[i]);
                    assert(!line_before(v[v.len() - 1], v[k]));
                }
            }
        }
        assert forall|i: int| 0 <= i < r.len() implies #[trigger] r[i] == e || v.contains(r[i]) by {
            if i < head.len() {
                assert(r[i] == head[i]);
                if head[i] != e {
                    let k = choose|k: int| 0 <= k < w.len() && w[k] == head[i];
                    assert(v[k] == r[i]);
                }
            } else {
                assert(v[v.len() - 1] == r[i]);
            }
        }
    } else {
        assert(r == v.push(e));
        assert forall|i: int, j: int| 0 <= i < j < r.len() implies !line_before(
            #[trigger] r[j],
            #[trigger] r[i],
        ) by {
            if j < v.len() {
                assert(r[j] == v[j] && r[i] == v[i]);
            } else {
                assert(r[i] == v[i]);
                if i < v.len() - 1 {
                    assert(!line_before(v[v.len() - 1], v[i]));
                    lemma_line_order(e, v.last(), v[i]);
                }
            }
        }
        assert forall|i: int| 0 <= i < r.len() implies #[trigger] r[i] == e || v.contains(r[i]) by {
            if i < v.len() {
                assert(v[i] == r[i]);
            }
        }
    }
}

/// The lines of a host directory come out in order, directories first, and none is
/// lost or added.
pub proof fn host_lines_come_out_in_order(v: Seq<EntryView>, n: int)
    requires
        0 <= n <= v.len(),
    ensures
        in_order(lines_in_order(v, n)),
        lines_in_order(v, n).to_multiset() == v.take(n).to_multiset(),
    decreases n,
{
    broadcast use vstd::seq_lib::group_to_multiset_ensures;

    if n > 0 {
        host_lines_come_out_in_order(v, n - 1);
        lemma_line_added(lines_in_order(v, n - 1), v[n - 1]);
        assert(v.take(n) =~= v.take(n - 1).push(v[n - 1]));
    } else {
        assert(v.take(0) =~= seq![]);
        assert(lines_in_order(v, n) =~= seq![]);
    }
}

/// Whether a line comes before another, given their names in lower case.
fn comes_before(a: &DiscEntry, b: &DiscEntry) -> (r: bool)
    ensures
        r == line_before(a@, b@),
{
    if a.is_dir != b.is_dir {
        a.is_dir
    } else {
        let x: String = to_lowercase(a.name.as_str());
        let y: String = to_lowercase(b.name.as_str());
        less_name(x.as_str(), y.as_str())
    }
}

/// Adds a line to lines in order.
#[verifier::loop_isolation(false)]
fn add_line(v: &mut Vec<DiscEntry>, e: DiscEntry)
    ensures
        entry::listing(final(v)@) == line_added(entry::listing(old(v)@), e@),
{
    let ghost all = entry::listing(v@);
    let n: usize = v.len();
    let mut k: usize = n;
    assert(all.take(n as int) =~= all);
    assert(line_added(all, e@) + all.skip(n as int) =~= line_added(all, e@));
    while k > 0 && comes_before(&e, &v[k - 1])
        invariant
            k <= n,
            n == v@.len(),
            all == entry::listing(v@),
            line_added(all, e@) == line_added(all.take(k as int), e@) + all.skip(k as int),
        decreases k,
    {
        proof {
            let head = all.take(k as int);
            assert(head.last() == v@[k - 1]@);
            assert(head.drop_last() =~= all.take(k - 1));
            assert(line_added(all.take(k - 1), e@).push(v@[k - 1]@) + all.skip(k as int)
                =~= line_added(all.take(k - 1), e@) + all.skip(k - 1));
        }
        k -= 1;
    }
    proof {
        let head = all.take(k as int);
        if k > 0 {
            assert(head.last() == v@[k - 1]@);
        }
        assert(line_added(head, e@) == head.push(e@));
    }
    let ghost ev = e@;
    v.insert(k, e);
    assert(entry::listing(v@) =~= all.take(k as int).push(ev) + all.skip(k as int));
}

/// The lines of a host directory in order.
pub fn sort_host_lines(v: Vec<DiscEntry>) -> (r: Vec<DiscEntry>)
    ensures
        entry::listing(r@) == lines_in_order(entry::listing(v@), v@.len() as int),
{
    let mut rest: Vec<DiscEntry> = v;
    let mut out: Vec<DiscEntry> = Vec::new();
    let ghost all = entry::listing(v@);
    let ghost total = v@.len() as int;
    assert(entry::listing(out@) =~= seq![]);
    while rest.len() > 0
        invariant
            0 <= total - rest@.len(),
            all.len() == total,
            forall|j: int|
                0 <= j < rest@.len() ==> (#[trigger] rest@[j])@ == all[total - rest@.len() + j],
            entry::listing(out@) == lines_in_order(all, total - rest@.len()),
        decreases rest@.len(),
    {
        let e: DiscEntry = rest.remove(0);
        add_line(&mut out, e);
    }
    out
}

/// A host file's length as a listing shows it: its low 32 bits.
pub open spec fn shown_len(len: u64) -> u32 {
    (len % 0x1_0000_0000) as u32
}

/// The line of a host file or directory.
pub fn host_line(name: String, is_dir: bool, len: u64, modified: String) -> (r: DiscEntry)
    ensures
        r@ == (EntryView {
            is_dir,
            ..entry::file_line(
                name@,
                0,
                if is_dir {
                    0
                } else {
                    shown_len(len)
                },
                modified@,
            )
        }),
{
    let size: u32 = if is_dir {
        0
    } else {
        (len % 0x1_0000_0000) as u32
    };
    let mut e: DiscEntry = entry::file_entry(name, 0, size, modified);
    e.is_dir = is_dir;
    e
}

/// A reader is chosen only for what an image holds: of each file system that is looked for, the
/// reader is taken only where it was found, and only if it is asked for or any will do.
pub proof fn a_reader_is_chosen_for_what_is_there(
    f: ImageFormat,
    fs: Option<Seq<char>>,
    request: Request,
    plain: bool,
    x: Facts,
)
    requires
        f != ImageFormat::Chd,
    ensures
        reader_for(f, fs, request, plain, x) matches Ok(k) ==> {
            &&& k == Reader::Cdi ==> x.cdi
            &&& k == Reader::Pce ==> x.pce
            &&& k == Reader::Opera ==> x.opera
            &&& k == Reader::Xdvdfs ==> x.xdvdfs && plain && (fs is None || fs == Some("XDVDFS"@))
            &&& k == Reader::Fatx ==> x.fatx && plain && (fs is None || fs == Some("FATX"@))
            &&& k == Reader::WiiGcm ==> x.wii_gcm && plain
            &&& k == Reader::Gcm ==> x.gcm && plain
            &&& k == Reader::Hfs ==> x.hfs
            &&& k == Reader::Udf ==> x.udf
            &&& k == Reader::ElTorito <==> fs == Some("El Torito"@) && (has_sheet(f) || f
                == ImageFormat::Plain)
            &&& k == Reader::PathTable <==> fs == Some("Path Table"@) && request == Request::List
                && (has_sheet(f) || f == ImageFormat::Plain)
        },
{
    reveal_strlit("El Torito");
    reveal_strlit("Path Table");
    assert("El Torito"@.len() != "Path Table"@.len());
}

/// What is asked for and is there is what is read, where nothing that fills a track is.
pub proof fn what_is_asked_for_is_read(f: ImageFormat, request: Request, x: Facts)
    requires
        !x.cdi,
        !x.pce,
        !x.opera,
        has_sheet(f) || f == ImageFormat::Plain,
    ensures
        x.xdvdfs ==> reader_for(f, Some("XDVDFS"@), request, true, x) == Ok::<Reader, Seq<char>>(
            Reader::Xdvdfs,
        ),
        x.hfs ==> reader_for(f, Some("HFS"@), request, true, x) == Ok::<Reader, Seq<char>>(
            Reader::Hfs,
        ),
        x.udf && x.udf_opens ==> reader_for(f, Some("UDF"@), request, true, x) == Ok::<
            Reader,
            Seq<char>,
        >(Reader::Udf),
        x.gcm && !x.wii_gcm ==> reader_for(f, Some("GameCube GCM"@), request, true, x) == Ok::<
            Reader,
            Seq<char>,
        >(Reader::Gcm),
        f == ImageFormat::Plain && x.fatx ==> reader_for(f, Some("FATX"@), request, true, x)
            == Ok::<Reader, Seq<char>>(Reader::Fatx),
        f == ImageFormat::Cue ==> reader_for(f, Some("ISO 9660"@), request, true, x) == Ok::<
            Reader,
            Seq<char>,
        >(Reader::IsoOfSheet),
        f != ImageFormat::Cue ==> reader_for(f, Some("ISO 9660"@), request, true, x) == Ok::<
            Reader,
            Seq<char>,
        >(Reader::Iso),
{
    reveal_strlit("El Torito");
    reveal_strlit("Path Table");
    reveal_strlit("XDVDFS");
    reveal_strlit("HFS");
    reveal_strlit("UDF");
    reveal_strlit("FATX");
    reveal_strlit("GameCube GCM");
    reveal_strlit("Wii GCM");
    reveal_strlit("ISO 9660");
    assert("El Torito"@.len() == 9 && "Path Table"@.len() == 10 && "XDVDFS"@.len() == 6
        && "HFS"@.len() == 3 && "UDF"@.len() == 3 && "FATX"@.len() == 4 && "GameCube GCM"@.len()
        == 12 && "Wii GCM"@.len() == 7 && "ISO 9660"@.len() == 8);
    assert("HFS"@[0] == 'H' && "UDF"@[0] == 'U' && "XDVDFS"@[0] == 'X' && "FATX"@[0] == 'F'
        && "GameCube GCM"@[0] == 'G' && "ISO 9660"@[0] == 'I');
    assert("UDF"@.subrange(0, 3) =~= "UDF"@);
    if text::begins("HFS"@, "UDF"@) {
        assert("HFS"@.subrange(0, 3)[0] == "HFS"@[0]);
    }
    if text::begins("GameCube GCM"@, "UDF"@) {
        assert("GameCube GCM"@.subrange(0, 3)[0] == "GameCube GCM"@[0]);
    }
    if text::begins("ISO 9660"@, "UDF"@) {
        assert("ISO 9660"@.subrange(0, 3)[0] == "ISO 9660"@[0]);
    }
    if text::begins("FATX"@, "UDF"@) {
        assert("FATX"@.subrange(0, 3)[0] == "FATX"@[0]);
    }
    if text::begins("XDVDFS"@, "UDF"@) {
        assert("XDVDFS"@.subrange(0, 3)[0] == "XDVDFS"@[0]);
    }
}

} // verus!
