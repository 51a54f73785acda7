//! Single sectors of an image as they stand in it: what a view of one shows, what an
//! export of a range writes, and where two images differ.
use vstd::prelude::*;
use vstd::arithmetic::div_mod::*;
use crate::bytes;
use crate::bytes::{cut, patch, same_bytes, zeroes};
use crate::cso_reader;
use crate::cso_reader::{CsoReader, CsoView};
use crate::detection;
use crate::detection::{chd_stride, MDX_DATA_OFFSET};
use crate::ecm_reader;
use crate::ecm_reader::EcmReader;
use crate::numbers;
use crate::numbers::decimal_string;
use crate::plain_image;
use crate::plain_image::ZstReader;
use crate::redumper;
use crate::redumper::{SbramReader, SdramReader};
use crate::routing;
use crate::routing::{format_by_name, ImageFormat};
use crate::sector;
use crate::source;
use crate::source::{read_bare, ByteSource, Reads};
use crate::text;
use crate::text::{chars_of, ends_with, join2, join3};
use crate::track;
use crate::track::{descramble_sector, detect_raw_sector_offset, detect_sector_format_at, has_sync};
use crate::track::{DataTrack, TrackView};
use crate::uif_reader;
use crate::uif_reader::{BlhrEntry, UifReader};
use crate::wux_reader;
use crate::wux_reader::WuxReader;

verus! {

// ── Access ──────────────────────────────────────────────────────────────────

/// How the sectors of an image are reached.
#[derive(Clone, Copy, PartialEq, Eq, Structural)]
pub enum Access {
    /// In the file of a track that a sheet or a header names.
    Sheet,
    /// Behind the header of an MDX image.
    Mdx,
    /// In a file that holds nothing but sectors.
    Plain,
    Chd,
    Cso,
    Ecm,
    Uif,
    Wbfs,
    Zst,
    Wux,
    Wud,
    Scram,
    Sdram,
    Sbram,
    Refused,
}

/// Whether a format is that of a sheet or header that names a track's file.
pub open spec fn names_track(f: ImageFormat) -> bool {
    f == ImageFormat::Cue || f == ImageFormat::Mds || f == ImageFormat::Nrg || f
        == ImageFormat::Ccd || f == ImageFormat::Cdi || f == ImageFormat::Gdi || f
        == ImageFormat::BlindWrite || f == ImageFormat::Cif
}

/// How the sectors of an image are reached, where a view and an export agree.
pub open spec fn common_access(f: ImageFormat) -> Access {
    if names_track(f) {
        Access::Sheet
    } else {
        match f {
            ImageFormat::Chd => Access::Chd,
            ImageFormat::Mdx => Access::Mdx,
            ImageFormat::Cso => Access::Cso,
            ImageFormat::Ecm => Access::Ecm,
            ImageFormat::Uif => Access::Uif,
            ImageFormat::Wbfs => Access::Wbfs,
            ImageFormat::Zst => Access::Zst,
            _ => Access::Plain,
        }
    }
}

/// How a view reaches the sectors of an image, by its name in lower case.
pub open spec fn view_access(lower: Seq<char>) -> Access {
    match routing::format_of(lower) {
        ImageFormat::WiiU => if text::ends(lower, ".wux"@) {
            Access::Wux
        } else {
            Access::Plain
        },
        ImageFormat::Scram => Access::Scram,
        ImageFormat::Sdram => Access::Sdram,
        ImageFormat::Sbram => Access::Sbram,
        ImageFormat::Aif => Access::Refused,
        f => common_access(f),
    }
}

/// How an export reaches the sectors of an image, by its name in lower case.
pub open spec fn export_access(lower: Seq<char>) -> Access {
    match routing::format_of(lower) {
        ImageFormat::WiiU => if text::ends(lower, ".wux"@) {
            Access::Wux
        } else {
            Access::Wud
        },
        f => common_access(f),
    }
}

/// Whether the sectors of an image stand one behind another in a file, by its name
/// in lower case.
pub open spec fn is_flat(lower: Seq<char>) -> bool {
    let f = routing::format_of(lower);
    names_track(f) || f == ImageFormat::Mdx || f == ImageFormat::Skeleton || f
        == ImageFormat::Plain
}

/// Whether a format is that of a sheet or header that names a track's file.
fn has_track(f: ImageFormat) -> (r: bool)
    ensures
        r == names_track(f),
{
    f == ImageFormat::Cue || f == ImageFormat::Mds || f == ImageFormat::Nrg || f
        == ImageFormat::Ccd || f == ImageFormat::Cdi || f == ImageFormat::Gdi || f
        == ImageFormat::BlindWrite || f == ImageFormat::Cif
}

/// How the sectors of an image are reached, where a view and an export agree.
fn plain_access(f: ImageFormat) -> (r: Access)
    ensures
        r == common_access(f),
{
    if has_track(f) {
        return Access::Sheet;
    }
    match f {
        ImageFormat::Chd => Access::Chd,
        ImageFormat::Mdx => Access::Mdx,
        ImageFormat::Cso => Access::Cso,
        ImageFormat::Ecm => Access::Ecm,
        ImageFormat::Uif => Access::Uif,
        ImageFormat::Wbfs => Access::Wbfs,
        ImageFormat::Zst => Access::Zst,
        _ => Access::Plain,
    }
}

/// How a view reaches the sectors of an image, by its name in lower case.
pub fn access_for_view(lower: &str) -> (r: Access)
    ensures
        r == view_access(lower@),
{
    match format_by_name(lower) {
        ImageFormat::WiiU => {
            let c: Vec<char> = chars_of(lower);
            if ends_with(c.as_slice(), ".wux") {
                Access::Wux
            } else {
                Access::Plain
            }
        },
        ImageFormat::Scram => Access::Scram,
        ImageFormat::Sdram => Access::Sdram,
        ImageFormat::Sbram => Access::Sbram,
        ImageFormat::Aif => Access::Refused,
        f => plain_access(f),
    }
}

/// How an export reaches the sectors of an image, by its name in lower case.
pub fn access_for_export(lower: &str) -> (r: Access)
    ensures
        r == export_access(lower@),
{
    match format_by_name(lower) {
        ImageFormat::WiiU => {
            let c: Vec<char> = chars_of(lower);
            if ends_with(c.as_slice(), ".wux") {
                Access::Wux
            } else {
                Access::Wud
            }
        },
        f => plain_access(f),
    }
}

// ── Layout ──────────────────────────────────────────────────────────────────

/// How sectors stand in a file, one behind another.
pub struct FlatLayout {
    pub path: String,
    pub sector_size: u64,
    pub user_data_offset: u64,
    pub data_offset: u64,
}

/// The contents of a layout.
#[verifier::ext_equal]
pub struct LayoutView {
    pub path: Seq<char>,
    pub sector_size: u64,
    pub user_data_offset: u64,
    pub data_offset: u64,
}

impl View for FlatLayout {
    type V = LayoutView;

    open spec fn view(&self) -> LayoutView {
        LayoutView {
            path: self.path@,
            sector_size: self.sector_size,
            user_data_offset: self.user_data_offset,
            data_offset: self.data_offset,
        }
    }
}

/// The length of a track's sectors: that of raw sectors in the formats that hold
/// nothing else, else what the track says.
pub open spec fn track_sector_size(f: ImageFormat, t: TrackView, export: bool) -> u64 {
    match f {
        ImageFormat::Cue | ImageFormat::Mds | ImageFormat::Ccd => 2352,
        ImageFormat::Nrg => if t.user_data_offset > 0 {
            2352
        } else {
            2048
        },
        ImageFormat::BlindWrite => if export {
            2352
        } else {
            t.stride
        },
        _ => t.stride,
    }
}

/// How the sectors of a track stand in its file.
pub open spec fn track_layout(f: ImageFormat, t: TrackView, export: bool) -> LayoutView {
    LayoutView {
        path: t.bin_path,
        sector_size: track_sector_size(f, t, export),
        user_data_offset: t.user_data_offset,
        data_offset: t.track_offset,
    }
}

/// How the sectors of an MDX image stand in it.
pub open spec fn mdx_layout(reads: Reads, path: Seq<char>) -> LayoutView {
    let f = track::format_at(reads, MDX_DATA_OFFSET as int);
    LayoutView {
        path,
        sector_size: f.0,
        user_data_offset: f.1,
        data_offset: MDX_DATA_OFFSET,
    }
}

/// How the sectors of a file stand that holds nothing else.
pub open spec fn plain_layout(reads: Reads, path: Seq<char>) -> LayoutView {
    let f = track::format_at(reads, 0);
    LayoutView { path, sector_size: f.0, user_data_offset: f.1, data_offset: 0 }
}

/// How the sectors of a track stand in its file, for a view or for an export.
pub fn layout_of_track(f: ImageFormat, t: &DataTrack, export: bool) -> (r: FlatLayout)
    ensures
        r@ == track_layout(f, t@, export),
{
    let sector_size: u64 = match f {
        ImageFormat::Cue => 2352,
        ImageFormat::Mds => 2352,
        ImageFormat::Ccd => 2352,
        ImageFormat::Nrg => if t.user_data_offset > 0 {
            2352
        } else {
            2048
        },
        ImageFormat::BlindWrite => if export {
            2352
        } else {
            t.stride
        },
        _ => t.stride,
    };
    FlatLayout {
        path: t.bin_path.as_str().to_owned(),
        sector_size,
        user_data_offset: t.user_data_offset,
        data_offset: t.track_offset,
    }
}

/// How the sectors of an MDX image stand in it.
pub fn layout_of_mdx<S: ByteSource>(source: &mut S, path: &str) -> (r: FlatLayout)
    ensures
        final(source).reads() == old(source).reads(),
        r@ == mdx_layout(old(source).reads(), path@),
{
    let (sector_size, user_data_offset): (u64, u64) = detect_sector_format_at(
        source,
        MDX_DATA_OFFSET,
    );
    FlatLayout {
        path: path.to_owned(),
        sector_size,
        user_data_offset,
        data_offset: MDX_DATA_OFFSET,
    }
}

/// How the sectors of a file stand that holds nothing else.
pub fn layout_of_file<S: ByteSource>(source: &mut S, path: &str) -> (r: FlatLayout)
    ensures
        final(source).reads() == old(source).reads(),
        r@ == plain_layout(old(source).reads(), path@),
{
    match detect_raw_sector_offset(source) {
        Some(offset) => FlatLayout {
            path: path.to_owned(),
            sector_size: 2352,
            user_data_offset: offset,
            data_offset: 0,
        },
        None => FlatLayout {
            path: path.to_owned(),
            sector_size: 2048,
            user_data_offset: 0,
            data_offset: 0,
        },
    }
}

/// The data track of a CUE sheet whose sectors are shown: its first.
pub fn first_track(tracks: Vec<DataTrack>) -> (r: Result<DataTrack, String>)
    ensures
        match r {
            Ok(t) => tracks@.len() > 0 && t == tracks@[0],
            Err(e) => tracks@.len() == 0 && e@ == "No data track in CUE"@,
        },
{
    let mut v: Vec<DataTrack> = tracks;
    if v.len() == 0 {
        return Err("No data track in CUE".to_owned());
    }
    Ok(v.remove(0))
}

/// The whole sectors of `size` bytes in a file of `len` bytes from `offset` on.
pub open spec fn sectors_in(len: u64, offset: u64, size: u64) -> int {
    if len <= offset {
        0
    } else {
        (len - offset) / size as int
    }
}

/// The whole sectors of `size` bytes in a file of `len` bytes from `offset` on.
fn count_sectors(len: u64, offset: u64, size: u64) -> (r: u64)
    requires
        size > 0,
    ensures
        r == sectors_in(len, offset, size),
        offset + r * size <= len || r == 0,
{
    if len <= offset {
        return 0;
    }
    let r: u64 = (len - offset) / size;
    proof {
        lemma_fundamental_div_mod((len - offset) as int, size as int);
        assert(r * size == size * r) by (nonlinear_arith);
        lemma_mod_bound((len - offset) as int, size as int);
    }
    r
}

/// The product of two numbers, however large.
fn product(a: u64, b: u64) -> (r: u128)
    ensures
        r == a * b,
        r <= 0xffff_ffff_ffff_fffe_0000_0000_0000_0001,
{
    assert(a * b <= 0xffff_ffff_ffff_ffff * 0xffff_ffff_ffff_ffff) by (nonlinear_arith)
        requires
            0 <= a <= 0xffff_ffff_ffff_ffff,
            0 <= b <= 0xffff_ffff_ffff_ffff,
    ;
    a as u128 * b as u128
}

/// What a comparison of whole runs of sectors needs to know of an image.
pub struct FlatInfo {
    pub path: String,
    pub sector_size: u64,
    pub data_offset: u64,
    pub total_sectors: u64,
}

/// What a comparison needs to know of an image, where its sectors stand one behind
/// another in a file and it holds some.
pub fn flat_info(lower: &str, layout: &FlatLayout, file_len: u64) -> (r: Option<FlatInfo>)
    requires
        layout.sector_size > 0,
    ensures
        match r {
            Some(f) => is_flat(lower@) && f.total_sectors > 0 && f.total_sectors == sectors_in(
                file_len,
                layout.data_offset,
                layout.sector_size,
            ) && f.path@ == layout.path@ && f.sector_size == layout.sector_size && f.data_offset
                == layout.data_offset,
            None => !is_flat(lower@) || sectors_in(
                file_len,
                layout.data_offset,
                layout.sector_size,
            ) == 0,
        },
{
    let f: ImageFormat = format_by_name(lower);
    if !(has_track(f) || f == ImageFormat::Mdx || f == ImageFormat::Skeleton || f
        == ImageFormat::Plain) {
        return None;
    }
    let total_sectors: u64 = count_sectors(file_len, layout.data_offset, layout.sector_size);
    if total_sectors == 0 {
        return None;
    }
    Some(
        FlatInfo {
            path: layout.path.as_str().to_owned(),
            sector_size: layout.sector_size,
            data_offset: layout.data_offset,
            total_sectors,
        },
    )
}

// ── Images ──────────────────────────────────────────────────────────────────

/// An image whose sectors can be read one by one, and exported.
pub enum Stored<S: ByteSource> {
    /// A CHD image; the source is what it holds unpacked.
    Chd { source: S, stride: u64, total_bytes: u64 },
    Cso(CsoReader<S>),
    Ecm(EcmReader),
    Uif(UifReader<S>),
    /// A disc of 2048-byte sectors.
    Blocks { source: S, total_bytes: u64 },
    Wux { reader: WuxReader<S>, total_bytes: u64 },
    Zst(ZstReader),
    /// Sectors one behind another in a file.
    Flat { source: S, len: u64, sector_size: u64, user_data_offset: u64, data_offset: u64 },
}

/// What an image holds.
pub enum StoredView {
    Chd { reads: Reads, stride: u64, total_bytes: u64 },
    Cso { reads: Reads, told: CsoView },
    Ecm { sectors: Seq<Seq<u8>> },
    Uif { reads: Reads, entries: Seq<BlhrEntry>, size: u32 },
    Blocks { reads: Reads, total_bytes: u64 },
    Wux { reads: Reads, total_bytes: u64 },
    Zst { data: Seq<u8>, sector_size: u64, user_data_offset: u64 },
    Flat { reads: Reads, len: u64, sector_size: u64, user_data_offset: u64, data_offset: u64 },
}

impl<S: ByteSource> View for Stored<S> {
    type V = StoredView;

    open spec fn view(&self) -> StoredView {
        match self {
            Stored::Chd { source, stride, total_bytes } => StoredView::Chd {
                reads: source.reads(),
                stride: *stride,
                total_bytes: *total_bytes,
            },
            Stored::Cso(c) => StoredView::Cso { reads: c.source.reads(), told: c.told() },
            Stored::Ecm(e) => StoredView::Ecm { sectors: ecm_reader::contents(e.sectors@) },
            Stored::Uif(u) => StoredView::Uif {
                reads: u.source.reads(),
                entries: u.entries@,
                size: u.sector_size,
            },
            Stored::Blocks { source, total_bytes } => StoredView::Blocks {
                reads: source.reads(),
                total_bytes: *total_bytes,
            },
            Stored::Wux { reader, total_bytes } => StoredView::Wux {
                reads: reader.reads(),
                total_bytes: *total_bytes,
            },
            Stored::Zst(z) => StoredView::Zst {
                data: z.data@,
                sector_size: z.sector_size,
                user_data_offset: z.user_data_offset,
            },
            Stored::Flat { source, len, sector_size, user_data_offset, data_offset } =>
                StoredView::Flat {
                reads: source.reads(),
                len: *len,
                sector_size: *sector_size,
                user_data_offset: *user_data_offset,
                data_offset: *data_offset,
            },
        }
    }
}

/// The sectors of an image.
pub open spec fn total_of(v: StoredView) -> int {
    match v {
        StoredView::Chd { reads, stride, total_bytes } => if stride > 0 {
            total_bytes as int / stride as int
        } else {
            0
        },
        StoredView::Cso { reads, told } => told.total_bytes as int / 2048,
        StoredView::Ecm { sectors } => sectors.len() as int,
        StoredView::Uif { reads, entries, size } => uif_reader::sector_count(
            entries,
        ) as int,
        StoredView::Blocks { reads, total_bytes } => total_bytes as int / 2048,
        StoredView::Wux { reads, total_bytes } => total_bytes as int / 2048,
        StoredView::Zst { data, sector_size, user_data_offset } => data.len() as int
            / sector_size as int,
        StoredView::Flat { reads, len, sector_size, user_data_offset, data_offset } => sectors_in(
            len,
            data_offset,
            sector_size,
        ),
    }
}

/// The length of an image's sectors.
pub open spec fn unit_of(v: StoredView) -> int {
    match v {
        StoredView::Chd { reads, stride, total_bytes } => stride as int,
        StoredView::Cso { reads, told } => 2048,
        StoredView::Ecm { sectors } => 2352,
        StoredView::Uif { reads, entries, size } => size as int,
        StoredView::Blocks { reads, total_bytes } => 2048,
        StoredView::Wux { reads, total_bytes } => 2048,
        StoredView::Zst { data, sector_size, user_data_offset } => sector_size as int,
        StoredView::Flat { reads, len, sector_size, user_data_offset, data_offset } =>
            sector_size as int,
    }
}

/// What a read of one sector of an image gives: at most as many bytes as a sector has.
pub open spec fn piece_of(v: StoredView, lba: int) -> Result<Seq<u8>, Seq<char>> {
    match v {
        StoredView::Chd { reads, stride, total_bytes } => source::reach(
            reads,
            lba * stride,
            stride as int,
        ),
        StoredView::Cso { reads, told } => cso_reader::sector_read(reads, told, lba, 2048),
        StoredView::Ecm { sectors } => Ok(sectors[lba]),
        StoredView::Uif { reads, entries, size } => uif_reader::sector_read(
            reads,
            entries,
            size,
            lba as u64,
            size as int,
        ),
        StoredView::Blocks { reads, total_bytes } => source::reach(reads, lba * 2048, 2048),
        StoredView::Wux { reads, total_bytes } => source::reach(reads, lba * 2048, 2048),
        StoredView::Zst { data, sector_size, user_data_offset } => Ok(
            cso_reader::part(
                data,
                sector::data_pos(0, sector_size as int, user_data_offset as int, lba),
                sector_size as int,
            ),
        ),
        StoredView::Flat { reads, len, sector_size, user_data_offset, data_offset } =>
            source::reach(reads, data_offset + lba * sector_size, sector_size as int),
    }
}

/// Whether a sector of an image can be asked for: where the image has an index, the
/// index says where the sector's block stands.
pub open spec fn can_hold(v: StoredView, lba: int) -> bool {
    match v {
        StoredView::Cso { reads, told } => lba < total_of(v) ==> cso_reader::is_recorded(
            told,
            (lba * 2048) / told.block_size as int,
        ),
        _ => true,
    }
}

/// `buf` with `head` over its first bytes.
pub open spec fn overlaid(buf: Seq<u8>, head: Seq<u8>) -> Seq<u8> {
    bytes::patched(buf, 0, head)
}

impl<S: ByteSource> Stored<S> {
    /// Whether the readers are sound, and sectors have a length where their number
    /// is found by it.
    pub open spec fn wf(&self) -> bool {
        match self {
            Stored::Cso(c) => c.wf(),
            Stored::Ecm(e) => e.wf(),
            Stored::Uif(u) => u.wf(),
            Stored::Zst(z) => z.sector_size == 2048 || z.sector_size == 2352,
            Stored::Flat { source, len, sector_size, user_data_offset, data_offset } => *sector_size
                > 0,
            _ => true,
        }
    }

    /// The sectors of this image.
    pub fn total_sectors(&self) -> (r: u64)
        requires
            self.wf(),
        ensures
            r == total_of(self@),
    {
        match self {
            Stored::Chd { source: _, stride, total_bytes } => if *stride > 0 {
                *total_bytes / *stride
            } else {
                0
            },
            Stored::Cso(c) => c.total_bytes / 2048,
            Stored::Ecm(e) => e.sectors.len() as u64,
            Stored::Uif(u) => u.total_sectors(),
            Stored::Blocks { source: _, total_bytes } => *total_bytes / 2048,
            Stored::Wux { reader: _, total_bytes } => *total_bytes / 2048,
            Stored::Zst(z) => z.data.len() as u64 / z.sector_size,
            Stored::Flat { source: _, len, sector_size, user_data_offset: _, data_offset } =>
                count_sectors(*len, *data_offset, *sector_size),
        }
    }

    /// The length of this image's sectors.
    pub fn unit(&self) -> (r: u64)
        ensures
            r == unit_of(self@),
    {
        match self {
            Stored::Chd { source: _, stride, total_bytes: _ } => *stride,
            Stored::Cso(_) => 2048,
            Stored::Ecm(_) => 2352,
            Stored::Uif(u) => u.sector_size as u64,
            Stored::Blocks { source: _, total_bytes: _ } => 2048,
            Stored::Wux { reader: _, total_bytes: _ } => 2048,
            Stored::Zst(z) => z.sector_size,
            Stored::Flat { source: _, len: _, sector_size, user_data_offset: _, data_offset: _ } =>
                *sector_size,
        }
    }

    /// Whether a sector of this image can be asked for.
    pub fn holds(&self, lba: u64) -> (r: bool)
        requires
            self.wf(),
        ensures
            r == can_hold(self@, lba as int),
    {
        match self {
            Stored::Cso(c) => lba >= c.total_bytes / 2048 || c.has_sector(lba),
            _ => true,
        }
    }

    /// Whether each sector of a range can be asked for.
    pub fn holds_range(&self, from: u64, to: u64) -> (r: bool)
        requires
            self.wf(),
        ensures
            r == (forall|l: int| from <= l <= to ==> #[trigger] can_hold(self@, l)),
    {
        if from > to {
            return true;
        }
        let mut lba: u64 = from;
        loop
            invariant
                self.wf(),
                from <= lba <= to,
                forall|l: int| from <= l < lba ==> #[trigger] can_hold(self@, l),
            decreases to - lba,
        {
            if !self.holds(lba) {
                return false;
            }
            if lba == to {
                return true;
            }
            lba += 1;
        }
    }

    /// Reads one sector.
    pub fn read_piece(&mut self, lba: u64) -> (r: Result<Vec<u8>, String>)
        requires
            old(self).wf(),
            lba < total_of(old(self)@),
            can_hold(old(self)@, lba as int),
        ensures
            final(self).wf(),
            final(self)@ == old(self)@,
            source::outcome(r) == piece_of(old(self)@, lba as int),
            r matches Ok(b) ==> b@.len() <= unit_of(old(self)@),
    {
        match self {
            Stored::Chd { source, stride, total_bytes: _ } => {
                let pos: u128 = product(lba, *stride);
                read_bare(source, pos, *stride)
            },
            Stored::Cso(c) => c.read_at(lba, 2048),
            Stored::Ecm(e) => {
                let count: usize = e.sectors.len();
                assert(lba < count);
                let v: &Vec<u8> = &e.sectors[lba as usize];
                assert(v@.subrange(0, 2352) =~= v@);
                assert(ecm_reader::contents(e.sectors@)[lba as int] == v@);
                Ok(cut(v.as_slice(), 0, 2352))
            },
            Stored::Uif(u) => {
                let n: usize = u.sector_size as usize;
                u.read_at(lba, n)
            },
            Stored::Blocks { source, total_bytes: _ } => read_bare(source, lba as u128 * 2048, 2048),
            Stored::Wux { reader, total_bytes: _ } => read_bare(reader, lba as u128 * 2048, 2048),
            Stored::Zst(z) => Ok(z.read_at(lba, z.sector_size as usize)),
            Stored::Flat { source, len: _, sector_size, user_data_offset: _, data_offset } => {
                let pos: u128 = *data_offset as u128 + product(lba, *sector_size);
                read_bare(source, pos, *sector_size)
            },
        }
    }
}

/// The error of a reader behind its name.
fn named<T>(name: &str, e: String) -> (r: Result<T, String>)
    ensures
        r matches Err(t) && t@ == name@ + e@,
{
    Err(join2(name, e.as_str()))
}

/// What opening a packed image gives.
pub open spec fn packed_image(access: Access, reads: Reads, len: u64) -> Option<
    Result<StoredView, Seq<char>>,
> {
    match access {
        Access::Cso => Some(
            match cso_reader::opened(reads) {
                Ok(told) => Ok(StoredView::Cso { reads, told }),
                Err(e) => Err("CSO: "@ + e),
            },
        ),
        Access::Uif => Some(
            match uif_reader::opened(reads, len) {
                Ok(t) => Ok(StoredView::Uif { reads, entries: t.1, size: t.0 }),
                Err(e) => Err("UIF: "@ + e),
            },
        ),
        Access::Wux => Some(
            match wux_reader::wux_opened(reads) {
                Ok(v) => Ok(
                    StoredView::Wux {
                        reads: wux_reads(reads, v),
                        total_bytes: v.total_bytes as u64,
                    },
                ),
                Err(e) => Err("WUX: "@ + e),
            },
        ),
        Access::Wbfs | Access::Wud => Some(Ok(StoredView::Blocks { reads, total_bytes: len })),
        _ => None,
    }
}

/// The reads of the disc in a WUX image.
pub open spec fn wux_reads(reads: Reads, v: wux_reader::WuxView) -> Reads {
    |pos: int, n: int| wux_reader::wux_exact(reads, v, pos, n)
}

/// Opens a packed image in a source of `len` bytes; of a WBFS image, the source is
/// the disc in it.
pub fn open_packed<S: ByteSource>(access: Access, source: S, len: u64) -> (r: Option<
    Result<Stored<S>, String>,
>)
    ensures
        match r {
            None => packed_image(access, source.reads(), len) is None,
            Some(Ok(s)) => s.wf() && packed_image(access, source.reads(), len) == Some(
                Ok::<StoredView, Seq<char>>(s@),
            ),
            Some(Err(e)) => packed_image(access, source.reads(), len) == Some(
                Err::<StoredView, Seq<char>>(e@),
            ),
        },
{
    match access {
        Access::Cso => Some(
            match CsoReader::open(source) {
                Ok(c) => Ok(Stored::Cso(c)),
                Err(e) => named("CSO: ", e),
            },
        ),
        Access::Uif => Some(
            match UifReader::open(source, len) {
                Ok(u) => Ok(Stored::Uif(u)),
                Err(e) => named("UIF: ", e),
            },
        ),
        Access::Wux => {
            let ghost reads = source.reads();
            Some(
                match WuxReader::open(source) {
                    Ok(w) => {
                        let total_bytes: u64 = w.total_bytes();
                        assert(w.reads() =~= wux_reads(reads, w.contents()));
                        Ok(Stored::Wux { reader: w, total_bytes })
                    },
                    Err(e) => named("WUX: ", e),
                },
            )
        },
        Access::Wbfs => Some(Ok(Stored::Blocks { source, total_bytes: len })),
        Access::Wud => Some(Ok(Stored::Blocks { source, total_bytes: len })),
        _ => None,
    }
}

/// What opening an image that is unpacked as a whole gives.
pub open spec fn whole_image(access: Access, raw: Seq<u8>) -> Option<
    Result<StoredView, Seq<char>>,
> {
    match access {
        Access::Ecm => Some(
            match ecm_reader::sectors_of(raw) {
                Ok(sectors) => Ok(StoredView::Ecm { sectors }),
                Err(e) => Err("ECM: "@ + e),
            },
        ),
        Access::Zst => Some(
            match source::labelled(crate::codec::zstd_stream(raw), "ZST decompress: "@) {
                Ok(data) => Ok(unpacked_image(data)),
                Err(e) => Err("ZST: "@ + e),
            },
        ),
        _ => None,
    }
}

/// The sectors of an image that was unpacked as a whole.
pub open spec fn unpacked_image(data: Seq<u8>) -> StoredView {
    StoredView::Zst {
        data,
        sector_size: plain_image::format_of(data).0,
        user_data_offset: plain_image::format_of(data).1,
    }
}

/// Opens an image that is unpacked as a whole.
pub fn open_whole<S: ByteSource>(access: Access, raw: &[u8]) -> (r: Option<
    Result<Stored<S>, String>,
>)
    ensures
        match r {
            None => whole_image(access, raw@) is None,
            Some(Ok(s)) => s.wf() && whole_image(access, raw@) == Some(
                Ok::<StoredView, Seq<char>>(s@),
            ),
            Some(Err(e)) => whole_image(access, raw@) == Some(Err::<StoredView, Seq<char>>(e@)),
        },
{
    match access {
        Access::Ecm => Some(
            match EcmReader::open(raw) {
                Ok(e) => Ok(Stored::Ecm(e)),
                Err(e) => named("ECM: ", e),
            },
        ),
        Access::Zst => Some(
            match ZstReader::open(raw) {
                Ok(z) => Ok(Stored::Zst(z)),
                Err(e) => named("ZST: ", e),
            },
        ),
        _ => None,
    }
}

/// A CHD image; the source is what it holds unpacked.
pub fn open_chd_sectors<S: ByteSource>(source: S, hunk: u64, unit: u64, total_bytes: u64) -> (r:
    Stored<S>)
    ensures
        r.wf(),
        r@ == (StoredView::Chd {
            reads: source.reads(),
            stride: detection::hunk_stride(hunk, unit),
            total_bytes,
        }),
{
    let stride: u64 = chd_stride(hunk, unit);
    Stored::Chd { source, stride, total_bytes }
}

/// An image whose sectors stand one behind another in a file of `len` bytes.
pub fn open_flat<S: ByteSource>(source: S, len: u64, layout: &FlatLayout) -> (r: Stored<S>)
    requires
        layout.sector_size > 0,
    ensures
        r.wf(),
        r@ == (StoredView::Flat {
            reads: source.reads(),
            len,
            sector_size: layout.sector_size,
            user_data_offset: layout.user_data_offset,
            data_offset: layout.data_offset,
        }),
{
    Stored::Flat {
        source,
        len,
        sector_size: layout.sector_size,
        user_data_offset: layout.user_data_offset,
        data_offset: layout.data_offset,
    }
}

// ── Views ───────────────────────────────────────────────────────────────────

/// One sector of an image.
pub struct SectorData {
    pub bytes: Vec<u8>,
    pub sector_size: u32,
    pub user_data_offset: u32,
    pub total_sectors: u64,
    pub lba: u64,
}

/// The contents of a sector.
#[verifier::ext_equal]
pub struct SectorDataView {
    pub bytes: Seq<u8>,
    pub sector_size: u32,
    pub user_data_offset: u32,
    pub total_sectors: int,
    pub lba: int,
}

impl View for SectorData {
    type V = SectorDataView;

    open spec fn view(&self) -> SectorDataView {
        SectorDataView {
            bytes: self.bytes@,
            sector_size: self.sector_size,
            user_data_offset: self.user_data_offset,
            total_sectors: self.total_sectors as int,
            lba: self.lba as int,
        }
    }
}

/// The contents of the outcome of a view.
pub open spec fn view_outcome(r: Result<SectorData, String>) -> Result<SectorDataView, Seq<char>> {
    match r {
        Ok(d) => Ok(d@),
        Err(e) => Err(e@),
    }
}

/// An image whose sectors can be viewed.
pub enum SectorImage<S: ByteSource> {
    Stored(Stored<S>),
    /// A dump of a scrambled CD, whose track starts at `start`; `table` is the CD
    /// scrambler's.
    Scram { source: S, len: u64, start: u64, table: Vec<u8> },
    Sdram { dvd: SdramReader<S>, len: u64 },
    Sbram { bd: SbramReader<S>, len: u64 },
    Refused,
}

/// What an image whose sectors can be viewed holds.
pub enum ImageView {
    Stored(StoredView),
    Scram { reads: Reads, len: u64, start: u64, table: Seq<u8> },
    Sdram { reads: Reads, len: u64 },
    Sbram { reads: Reads, len: u64 },
    Refused,
}

impl<S: ByteSource> View for SectorImage<S> {
    type V = ImageView;

    open spec fn view(&self) -> ImageView {
        match self {
            SectorImage::Stored(s) => ImageView::Stored(s@),
            SectorImage::Scram { source, len, start, table } => ImageView::Scram {
                reads: source.reads(),
                len: *len,
                start: *start,
                table: table@,
            },
            SectorImage::Sdram { dvd, len } => ImageView::Sdram {
                reads: dvd.source.reads(),
                len: *len,
            },
            SectorImage::Sbram { bd, len } => ImageView::Sbram {
                reads: bd.source.reads(),
                len: *len,
            },
            SectorImage::Refused => ImageView::Refused,
        }
    }
}

/// The sectors of an image.
pub open spec fn image_total(v: ImageView) -> int {
    match v {
        ImageView::Stored(s) => total_of(s),
        ImageView::Scram { reads, len, start, table } => sectors_in(len, start, 2352),
        ImageView::Sdram { reads, len } => len as int / 2366,
        ImageView::Sbram { reads, len } => len as int / 2052,
        ImageView::Refused => 0,
    }
}

/// The error for an image without sectors.
pub open spec fn empty_text(v: ImageView) -> Seq<char> {
    match v {
        ImageView::Stored(StoredView::Chd { .. }) => "CHD is empty"@,
        ImageView::Stored(StoredView::Cso { .. }) => "CSO is empty"@,
        ImageView::Stored(StoredView::Ecm { .. }) => "ECM is empty"@,
        ImageView::Stored(StoredView::Uif { .. }) => "UIF is empty"@,
        ImageView::Stored(StoredView::Blocks { .. }) => "WBFS is empty"@,
        ImageView::Stored(StoredView::Wux { .. }) => "WUX is empty"@,
        ImageView::Stored(StoredView::Zst { .. }) => "ZST image is empty"@,
        ImageView::Stored(StoredView::Flat { .. }) => "Image file is empty"@,
        ImageView::Scram { .. } => "SCRAM image is empty"@,
        ImageView::Sdram { .. } => "SDRAM image is empty"@,
        ImageView::Sbram { .. } => "SBRAM image is empty"@,
        ImageView::Refused => "Sector view not supported for this format"@,
    }
}

/// The error for a sector that an image does not have.
pub open spec fn beyond_text(lba: int, total: int) -> Seq<char> {
    "Sector "@ + numbers::decimal(lba) + " out of range (0–"@ + numbers::decimal(total - 1)
        + ")"@
}

/// Where the user data of a sector starts, by its own header.
pub open spec fn own_offset(b: Seq<u8>) -> u32 {
    if b.len() >= 16 && track::is_synced(b) {
        track::raw_data_offset(b) as u32
    } else {
        0
    }
}

/// The bytes of a sector of an image, as they stand in it.
pub open spec fn image_bytes(v: ImageView, lba: int) -> Result<Seq<u8>, Seq<char>> {
    match v {
        ImageView::Stored(StoredView::Zst { data, sector_size, user_data_offset }) => Ok(
            data.subrange(lba * sector_size, lba * sector_size + sector_size),
        ),
        ImageView::Stored(s) => match piece_of(s, lba) {
            Ok(b) => Ok(overlaid(bytes::zeros(unit_of(s)), b)),
            Err(e) => Err(e),
        },
        ImageView::Scram { reads, len, start, table } => match source::reach(
            reads,
            start + lba * 2352,
            2352,
        ) {
            Ok(b) => Ok(track::descrambled(b, table)),
            Err(e) => Err(e),
        },
        ImageView::Sdram { reads, len } => redumper::dvd_sector(reads, lba),
        ImageView::Sbram { reads, len } => redumper::bd_sector(reads, 0x100000, lba),
        ImageView::Refused => Ok(seq![]),
    }
}

/// The length of a sector of an image, and where its user data starts, for a sector
/// of the bytes `b`.
pub open spec fn image_format(v: ImageView, b: Seq<u8>) -> (u32, u32) {
    match v {
        ImageView::Stored(StoredView::Chd { reads, stride, total_bytes }) => (
            stride as u32,
            if stride > 2048 {
                own_offset(b)
            } else {
                0
            },
        ),
        ImageView::Stored(StoredView::Ecm { sectors }) => (2352, own_offset(b)),
        ImageView::Stored(StoredView::Uif { reads, entries, size }) => (
            size,
            if size > 2048 {
                own_offset(b)
            } else {
                0
            },
        ),
        ImageView::Stored(StoredView::Zst { data, sector_size, user_data_offset }) => (
            sector_size as u32,
            user_data_offset as u32,
        ),
        ImageView::Stored(
            StoredView::Flat { reads, len, sector_size, user_data_offset, data_offset },
        ) => (sector_size as u32, user_data_offset as u32),
        ImageView::Scram { .. } => (2352, own_offset(b)),
        _ => (2048, 0),
    }
}

/// What a view of a sector of an image shows.
pub open spec fn sector_view(v: ImageView, lba: int) -> Result<SectorDataView, Seq<char>> {
    let total = image_total(v);
    if total == 0 {
        Err(empty_text(v))
    } else if lba >= total {
        Err(beyond_text(lba, total))
    } else {
        match source::labelled(image_bytes(v, lba), "Read error: "@) {
            Err(e) => Err(e),
            Ok(b) => Ok(
                SectorDataView {
                    bytes: b,
                    sector_size: image_format(v, b).0,
                    user_data_offset: image_format(v, b).1,
                    total_sectors: total,
                    lba,
                },
            ),
        }
    }
}

/// Whether a sector of an image can be asked for.
pub open spec fn can_show(v: ImageView, lba: int) -> bool {
    match v {
        ImageView::Stored(s) => can_hold(s, lba),
        _ => true,
    }
}

/// Where the user data of a sector starts, by its own header.
fn find_own_offset(b: &[u8]) -> (r: u32)
    ensures
        r == own_offset(b@),
{
    if b.len() >= 16 && has_sync(b) {
        if b[15] == 2 {
            24
        } else {
            16
        }
    } else {
        0
    }
}

/// The error for a sector that an image does not have.
fn beyond_error(lba: u64, total: u64) -> (r: String)
    requires
        total > 0,
    ensures
        r@ == beyond_text(lba as int, total as int),
{
    let a: String = decimal_string(lba);
    let b: String = decimal_string(total - 1);
    let head: String = join3("Sector ", a.as_str(), " out of range (0–");
    join3(head.as_str(), b.as_str(), ")")
}

impl<S: ByteSource> SectorImage<S> {
    /// Whether the readers are sound.
    pub open spec fn wf(&self) -> bool {
        match self {
            SectorImage::Stored(s) => s.wf(),
            SectorImage::Scram { source, len, start, table } => table@.len() == 2340,
            SectorImage::Sdram { dvd, len } => dvd.wf(),
            SectorImage::Sbram { bd, len } => bd.lba_base == 0x100000,
            SectorImage::Refused => true,
        }
    }

    /// The sectors of this image.
    pub fn total_sectors(&self) -> (r: u64)
        requires
            self.wf(),
        ensures
            r == image_total(self@),
    {
        match self {
            SectorImage::Stored(s) => s.total_sectors(),
            SectorImage::Scram { source: _, len, start, table: _ } => count_sectors(
                *len,
                *start,
                2352,
            ),
            SectorImage::Sdram { dvd: _, len } => *len / 2366,
            SectorImage::Sbram { bd: _, len } => *len / 2052,
            SectorImage::Refused => 0,
        }
    }

    /// Whether a sector of this image can be asked for.
    pub fn holds(&self, lba: u64) -> (r: bool)
        requires
            self.wf(),
        ensures
            r == can_show(self@, lba as int),
    {
        match self {
            SectorImage::Stored(s) => s.holds(lba),
            _ => true,
        }
    }

    /// The error for an image without sectors.
    fn empty_error(&self) -> (r: String)
        ensures
            r@ == empty_text(self@),
    {
        match self {
            SectorImage::Stored(Stored::Chd { .. }) => "CHD is empty".to_owned(),
            SectorImage::Stored(Stored::Cso(_)) => "CSO is empty".to_owned(),
            SectorImage::Stored(Stored::Ecm(_)) => "ECM is empty".to_owned(),
            SectorImage::Stored(Stored::Uif(_)) => "UIF is empty".to_owned(),
            SectorImage::Stored(Stored::Blocks { .. }) => "WBFS is empty".to_owned(),
            SectorImage::Stored(Stored::Wux { .. }) => "WUX is empty".to_owned(),
            SectorImage::Stored(Stored::Zst(_)) => "ZST image is empty".to_owned(),
            SectorImage::Stored(Stored::Flat { .. }) => "Image file is empty".to_owned(),
            SectorImage::Scram { .. } => "SCRAM image is empty".to_owned(),
            SectorImage::Sdram { .. } => "SDRAM image is empty".to_owned(),
            SectorImage::Sbram { .. } => "SBRAM image is empty".to_owned(),
            SectorImage::Refused => "Sector view not supported for this format".to_owned(),
        }
    }

    /// The length of a sector of this image, and where its user data starts, for a
    /// sector of the bytes `b`.
    fn format_for(&self, b: &[u8]) -> (r: (u32, u32))
        ensures
            r == image_format(self@, b@),
    {
        match self {
            SectorImage::Stored(Stored::Chd { source: _, stride, total_bytes: _ }) => (
                *stride as u32,
                if *stride > 2048 {
                    find_own_offset(b)
                } else {
                    0
                },
            ),
            SectorImage::Stored(Stored::Ecm(_)) => (2352, find_own_offset(b)),
            SectorImage::Stored(Stored::Uif(u)) => (
                u.sector_size,
                if u.sector_size > 2048 {
                    find_own_offset(b)
                } else {
                    0
                },
            ),
            SectorImage::Stored(Stored::Zst(z)) => (
                z.sector_size as u32,
                z.user_data_offset as u32,
            ),
            SectorImage::Stored(
                Stored::Flat { source: _, len: _, sector_size, user_data_offset, data_offset: _ },
            ) => (*sector_size as u32, *user_data_offset as u32),
            SectorImage::Scram { .. } => (2352, find_own_offset(b)),
            _ => (2048, 0),
        }
    }

    /// Reads the bytes of a sector.
    fn read_bytes(&mut self, lba: u64) -> (r: Result<Vec<u8>, String>)
        requires
            old(self).wf(),
            lba < image_total(old(self)@),
            can_show(old(self)@, lba as int),
        ensures
            final(self).wf(),
            final(self)@ == old(self)@,
            source::outcome(r) == image_bytes(old(self)@, lba as int),
    {
        match self {
            SectorImage::Stored(Stored::Zst(z)) => {
                let len: usize = z.data.len();
                let size: u64 = z.sector_size;
                proof {
                    let total = len as int / size as int;
                    lemma_fundamental_div_mod(len as int, size as int);
                    lemma_mod_bound(len as int, size as int);
                    assert(lba * size + size <= len) by (nonlinear_arith)
                        requires
                            lba + 1 <= total,
                            len == size * total + len as int % size as int,
                            len as int % size as int >= 0,
                            size > 0,
                    ;
                    assert(0 <= lba * size) by (nonlinear_arith)
                        requires
                            size > 0,
                            lba >= 0,
                    ;
                }
                let at: u64 = lba * size;
                Ok(cut(z.data.as_slice(), at as usize, (at + size) as usize))
            },
            SectorImage::Stored(s) => {
                let n: u64 = s.unit();
                match s.read_piece(lba) {
                    Err(e) => Err(e),
                    Ok(b) => {
                        let mut out: Vec<u8> = zeroes(n);
                        patch(&mut out, 0, b.as_slice());
                        Ok(out)
                    },
                }
            },
            SectorImage::Scram { source, len: _, start, table } => {
                let pos: u128 = *start as u128 + lba as u128 * 2352;
                match read_bare(source, pos, 2352) {
                    Err(e) => Err(e),
                    Ok(b) => Ok(descramble_sector(b.as_slice(), table.as_slice())),
                }
            },
            SectorImage::Sdram { dvd, len: _ } => {
                let ghost whole = redumper::dvd_sector(dvd.source.reads(), lba as int);
                assert(whole matches Ok(b) ==> b.take(2048) =~= b);
                dvd.read_at(lba, 2048)
            },
            SectorImage::Sbram { bd, len: _ } => {
                let ghost whole = redumper::bd_sector(bd.source.reads(), 0x100000, lba as int);
                assert(whole matches Ok(b) ==> b.len() == 2048 ==> b.take(2048) =~= b);
                bd.read_at(lba, 2048)
            },
            SectorImage::Refused => {
                let none: Vec<u8> = Vec::new();
                assert(none@ =~= seq![]);
                Ok(none)
            },
        }
    }
}

/// Reads a sector of an image for a view.
pub fn read_sector_impl<S: ByteSource>(image: &mut SectorImage<S>, lba: u64) -> (r: Result<
    SectorData,
    String,
>)
    requires
        old(image).wf(),
        can_show(old(image)@, lba as int),
    ensures
        final(image).wf(),
        final(image)@ == old(image)@,
        view_outcome(r) == sector_view(old(image)@, lba as int),
{
    let total_sectors: u64 = image.total_sectors();
    if total_sectors == 0 {
        return Err(image.empty_error());
    }
    if lba >= total_sectors {
        return Err(beyond_error(lba, total_sectors));
    }
    match image.read_bytes(lba) {
        Err(e) => Err(join2("Read error: ", e.as_str())),
        Ok(bytes) => {
            let (sector_size, user_data_offset): (u32, u32) = image.format_for(bytes.as_slice());
            Ok(SectorData { bytes, sector_size, user_data_offset, total_sectors, lba })
        },
    }
}

// ── Export ──────────────────────────────────────────────────────────────────

/// The error for an export past the last sector of an image.
pub open spec fn range_text(lba: int, total: int) -> Seq<char> {
    "LBA "@ + numbers::decimal(lba) + " out of range (0–"@ + numbers::decimal(
        if total > 0 {
            total - 1
        } else {
            0
        },
    ) + ")"@
}

/// The error that keeps a range from being exported.
pub open spec fn range_error(total: int, lba_start: int, lba_end: int) -> Option<Seq<char>> {
    if lba_end < lba_start {
        Some("End LBA must be >= start LBA"@)
    } else if lba_end >= total {
        Some(range_text(lba_end, total))
    } else {
        None
    }
}

/// What a read of a sector for an export gives.
pub open spec fn export_piece(v: StoredView, lba: int) -> Result<Seq<u8>, Seq<char>> {
    source::labelled(piece_of(v, lba), "Read error at LBA "@ + numbers::decimal(lba) + ": "@)
}

/// The bytes that an export writes from the sector `lba` on, where `buf` is what the
/// read before left: a short read leaves the rest of it.
pub open spec fn exported_from(v: StoredView, buf: Seq<u8>, lba: int, lba_end: int) -> Result<
    Seq<u8>,
    Seq<char>,
>
    decreases lba_end + 1 - lba,
{
    if lba > lba_end {
        Ok(seq![])
    } else {
        match export_piece(v, lba) {
            Err(e) => Err(e),
            Ok(b) => source::after(
                overlaid(buf, b),
                exported_from(v, overlaid(buf, b), lba + 1, lba_end),
            ),
        }
    }
}

/// The bytes that an export of a range writes.
pub open spec fn exported(v: StoredView, lba_start: int, lba_end: int) -> Result<
    Seq<u8>,
    Seq<char>,
> {
    match range_error(total_of(v), lba_start, lba_end) {
        Some(e) => Err(e),
        None => exported_from(v, bytes::zeros(unit_of(v)), lba_start, lba_end),
    }
}

/// Checks a range for an export and counts its sectors.
pub fn check_range<S: ByteSource>(image: &Stored<S>, lba_start: u64, lba_end: u64) -> (r: Result<
    u64,
    String,
>)
    requires
        image.wf(),
    ensures
        match r {
            Ok(n) => range_error(total_of(image@), lba_start as int, lba_end as int) is None && n
                == lba_end - lba_start + 1,
            Err(e) => range_error(total_of(image@), lba_start as int, lba_end as int) == Some(e@),
        },
{
    if lba_end < lba_start {
        return Err("End LBA must be >= start LBA".to_owned());
    }
    let total: u64 = image.total_sectors();
    if lba_end >= total {
        let last: u64 = if total > 0 {
            total - 1
        } else {
            0
        };
        let a: String = decimal_string(lba_end);
        let b: String = decimal_string(last);
        let head: String = join3("LBA ", a.as_str(), " out of range (0–");
        return Err(join3(head.as_str(), b.as_str(), ")"));
    }
    Ok(lba_end - lba_start + 1)
}

/// Reads the next sector of an export over what the read before left.
pub fn export_sector<S: ByteSource>(image: &mut Stored<S>, lba: u64, buf: &mut Vec<u8>) -> (r:
    Result<(), String>)
    requires
        old(image).wf(),
        lba < total_of(old(image)@),
        can_hold(old(image)@, lba as int),
        old(buf)@.len() == unit_of(old(image)@),
    ensures
        final(image).wf(),
        final(image)@ == old(image)@,
        match r {
            Ok(_) => export_piece(old(image)@, lba as int) matches Ok(b) && final(buf)@
                == overlaid(old(buf)@, b) && final(buf)@.len() == old(buf)@.len(),
            Err(e) => export_piece(old(image)@, lba as int) == Err::<Seq<u8>, Seq<char>>(e@)
                && final(buf)@ == old(buf)@,
        },
{
    match image.read_piece(lba) {
        Err(e) => {
            let n: String = decimal_string(lba);
            let head: String = join3("Read error at LBA ", n.as_str(), ": ");
            Err(join2(head.as_str(), e.as_str()))
        },
        Ok(b) => {
            patch(buf, 0, b.as_slice());
            Ok(())
        },
    }
}

/// Exports a range of sectors.
#[verifier::loop_isolation(false)]
pub fn export_sector_range<S: ByteSource>(image: &mut Stored<S>, lba_start: u64, lba_end: u64) -> (r:
    Result<Vec<u8>, String>)
    requires
        old(image).wf(),
        forall|l: int| lba_start <= l <= lba_end ==> #[trigger] can_hold(old(image)@, l),
    ensures
        final(image).wf(),
        final(image)@ == old(image)@,
        source::outcome(r) == exported(old(image)@, lba_start as int, lba_end as int),
{
    let ghost v = image@;
    let count: u64 = match check_range(image, lba_start, lba_end) {
        Ok(n) => n,
        Err(e) => {
            return Err(e);
        },
    };
    let n: u64 = image.unit();
    let mut buf: Vec<u8> = zeroes(n);
    let mut out: Vec<u8> = Vec::new();
    let mut done: u64 = 0;
    let ghost goal = exported_from(v, buf@, lba_start as int, lba_end as int);
    proof {
        if let Ok(b) = goal {
            assert(out@ + b =~= b);
        }
    }
    while done < count
        invariant
            done <= count,
            image.wf(),
            image@ == v,
            buf@.len() == n,
            source::after(out@, exported_from(v, buf@, lba_start + done, lba_end as int)) == goal,
        decreases count - done,
    {
        let lba: u64 = lba_start + done;
        assert(can_hold(v, lba as int));
        match export_sector(image, lba, &mut buf) {
            Err(e) => {
                return Err(e);
            },
            Ok(_) => {},
        }
        let ghost before = out@;
        push_all(&mut out, buf.as_slice());
        proof {
            if let Ok(b) = exported_from(v, buf@, lba + 1, lba_end as int) {
                assert(before + (buf@ + b) =~= out@ + b);
            }
        }
        done += 1;
    }
    assert(out@ + seq![] =~= out@);
    Ok(out)
}

/// Appends bytes.
fn push_all(v: &mut Vec<u8>, b: &[u8])
    ensures
        final(v)@ == old(v)@ + b@,
{
    let n: usize = b.len();
    let mut copy: Vec<u8> = cut(b, 0, n);
    assert(b@.subrange(0, n as int) =~= b@);
    v.append(&mut copy);
}

// ── Differences ─────────────────────────────────────────────────────────────

/// Sector `i` of a run of sectors of `size` bytes.
pub open spec fn sector_in(run: Seq<u8>, i: int, size: int) -> Seq<u8> {
    run.subrange(i * size, i * size + size)
}

/// The first sector from `i` on that differs between two runs of `n` sectors.
pub open spec fn first_in(a: Seq<u8>, b: Seq<u8>, size: int, i: int, n: int) -> Option<int>
    decreases n - i,
{
    if i >= n {
        None
    } else if sector_in(a, i, size) != sector_in(b, i, size) {
        Some(i)
    } else {
        first_in(a, b, size, i + 1, n)
    }
}

/// The last sector before `i` that differs between two runs.
pub open spec fn last_in(a: Seq<u8>, b: Seq<u8>, size: int, i: int) -> Option<int>
    decreases i,
{
    if i <= 0 {
        None
    } else if sector_in(a, i - 1, size) != sector_in(b, i - 1, size) {
        Some(i - 1)
    } else {
        last_in(a, b, size, i - 1)
    }
}

/// How many sectors of `size` bytes are compared at once: a mebibyte of them, and at
/// least one.
pub open spec fn chunk_of(size: int) -> int {
    if 0x100000int / size < 1 {
        1
    } else {
        0x100000int / size
    }
}

/// Two images that are compared: what they hold, where their sectors start, and how
/// long these are.
pub struct Pair {
    pub a: Reads,
    pub b: Reads,
    pub start_a: int,
    pub start_b: int,
    pub size: int,
}

/// The same run of `n` sectors of two images.
pub open spec fn runs_at(p: Pair, lba: int, n: int) -> Result<(Seq<u8>, Seq<u8>), Seq<char>> {
    match source::reach(p.a, p.start_a + lba * p.size, n * p.size) {
        Err(e) => Err(e),
        Ok(a) => match source::reach(p.b, p.start_b + lba * p.size, n * p.size) {
            Err(e) => Err(e),
            Ok(b) => Ok((a, b)),
        },
    }
}

/// The first sector from `lba` to `end` that differs between two images.
pub open spec fn first_diff(p: Pair, lba: int, end: int) -> Result<Option<int>, Seq<char>>
    decreases end + 1 - lba,
{
    let chunk = chunk_of(p.size);
    if lba > end {
        Ok(None)
    } else {
        let n = ecm_reader::lesser(chunk, end - lba + 1);
        match runs_at(p, lba, n) {
            Err(e) => Err(e),
            Ok((a, b)) => match first_in(a, b, p.size, 0, n) {
                Some(i) => Ok(Some(lba + i)),
                None => if n <= 0 {
                    Ok(None)
                } else {
                    first_diff(p, lba + n, end)
                },
            },
        }
    }
}

/// The last sector from `start` to `last` that differs between two images.
pub open spec fn last_diff(p: Pair, start: int, last: int) -> Result<Option<int>, Seq<char>>
    decreases last + 1 - start,
{
    let chunk = chunk_of(p.size);
    if last < start {
        Ok(None)
    } else {
        let n = ecm_reader::lesser(chunk, last - start + 1);
        match runs_at(p, last + 1 - n, n) {
            Err(e) => Err(e),
            Ok((a, b)) => match last_in(a, b, p.size, n) {
                Some(i) => Ok(Some(last + 1 - n + i)),
                None => if n <= 0 {
                    Ok(None)
                } else {
                    last_diff(p, start, last - n)
                },
            },
        }
    }
}

/// The contents of the outcome of a comparison.
pub open spec fn diff_outcome(r: Result<Option<u64>, String>) -> Result<Option<int>, Seq<char>> {
    match r {
        Ok(Some(l)) => Ok(Some(l as int)),
        Ok(None) => Ok(None),
        Err(e) => Err(e@),
    }
}

/// Whether sector `i` is the same in two runs of `n` sectors.
fn same_sector(a: &[u8], b: &[u8], size: u64, i: u64, n: u64) -> (r: bool)
    requires
        i < n,
        a@.len() == n * size,
        b@.len() == n * size,
    ensures
        r == (sector_in(a@, i as int, size as int) == sector_in(b@, i as int, size as int)),
{
    let len: usize = a.len();
    proof {
        assert(i * size + size <= n * size) by (nonlinear_arith)
            requires
                i + 1 <= n,
                size >= 0,
        ;
        assert(0 <= i * size) by (nonlinear_arith)
            requires
                i >= 0,
                size >= 0,
        ;
    }
    let at: u64 = i * size;
    let x: Vec<u8> = cut(a, at as usize, (at + size) as usize);
    let y: Vec<u8> = cut(b, at as usize, (at + size) as usize);
    same_bytes(x.as_slice(), y.as_slice())
}

/// The first sector that differs between two runs of `n` sectors.
fn find_first_in(a: &[u8], b: &[u8], size: u64, n: u64) -> (r: Option<u64>)
    requires
        a@.len() == n * size,
        b@.len() == n * size,
    ensures
        match r {
            Some(i) => i < n && first_in(a@, b@, size as int, 0, n as int) == Some(i as int),
            None => first_in(a@, b@, size as int, 0, n as int) is None,
        },
{
    let mut i: u64 = 0;
    while i < n
        invariant
            i <= n,
            a@.len() == n * size,
            b@.len() == n * size,
            first_in(a@, b@, size as int, i as int, n as int) == first_in(
                a@,
                b@,
                size as int,
                0,
                n as int,
            ),
        decreases n - i,
    {
        if !same_sector(a, b, size, i, n) {
            return Some(i);
        }
        i += 1;
    }
    None
}

/// The last sector that differs between two runs of `n` sectors.
fn find_last_in(a: &[u8], b: &[u8], size: u64, n: u64) -> (r: Option<u64>)
    requires
        a@.len() == n * size,
        b@.len() == n * size,
    ensures
        match r {
            Some(i) => i < n && last_in(a@, b@, size as int, n as int) == Some(i as int),
            None => last_in(a@, b@, size as int, n as int) is None,
        },
{
    let mut i: u64 = n;
    while i > 0
        invariant
            i <= n,
            a@.len() == n * size,
            b@.len() == n * size,
            last_in(a@, b@, size as int, i as int) == last_in(a@, b@, size as int, n as int),
        decreases i,
    {
        if !same_sector(a, b, size, i - 1, n) {
            return Some(i - 1);
        }
        i -= 1;
    }
    None
}

/// How many sectors of `size` bytes are compared at once.
fn chunk_sectors(size: u64) -> (r: u64)
    requires
        size > 0,
    ensures
        r == chunk_of(size as int),
        r >= 1,
        r * size <= u64::MAX,
{
    let n: u64 = 0x100000 / size;
    if n < 1 {
        1
    } else {
        proof {
            lemma_fundamental_div_mod(0x100000, size as int);
            lemma_mod_bound(0x100000, size as int);
            assert(n * size == size * n) by (nonlinear_arith);
        }
        n
    }
}

/// Reads the same run of `n` sectors of two images.
fn read_runs<S: ByteSource, T: ByteSource>(
    fa: &mut S,
    fb: &mut T,
    start_a: u64,
    start_b: u64,
    size: u64,
    lba: u64,
    n: u64,
) -> (r: Result<(Vec<u8>, Vec<u8>), String>)
    requires
        n * size <= u64::MAX,
    ensures
        final(fa).reads() == old(fa).reads(),
        final(fb).reads() == old(fb).reads(),
        ({
            let p = Pair {
                a: old(fa).reads(),
                b: old(fb).reads(),
                start_a: start_a as int,
                start_b: start_b as int,
                size: size as int,
            };
            match r {
                Ok((a, b)) => runs_at(p, lba as int, n as int) == Ok::<
                    (Seq<u8>, Seq<u8>),
                    Seq<char>,
                >((a@, b@)) && a@.len() == n * size && b@.len() == n * size,
                Err(e) => runs_at(p, lba as int, n as int) == Err::<
                    (Seq<u8>, Seq<u8>),
                    Seq<char>,
                >(e@),
            }
        }),
{
    assert(0 <= n * size) by (nonlinear_arith)
        requires
            n >= 0,
            size >= 0,
    ;
    let len: u64 = n * size;
    let off: u128 = product(lba, size);
    let a: Vec<u8> = match read_bare(fa, start_a as u128 + off, len) {
        Ok(a) => a,
        Err(e) => {
            return Err(e);
        },
    };
    match read_bare(fb, start_b as u128 + off, len) {
        Ok(b) => Ok((a, b)),
        Err(e) => Err(e),
    }
}

/// The first, or the last, sector of a range that differs between two images whose
/// sectors are of the same length.
#[verifier::loop_isolation(false)]
pub fn find_diff_flat<S: ByteSource, T: ByteSource>(
    fa: &mut S,
    fb: &mut T,
    a: &FlatInfo,
    b: &FlatInfo,
    scan_start: u64,
    scan_end: u64,
    forward: bool,
) -> (r: Result<Option<u64>, String>)
    requires
        a.sector_size > 0,
        a.sector_size == b.sector_size,
        scan_end < u64::MAX,
    ensures
        final(fa).reads() == old(fa).reads(),
        final(fb).reads() == old(fb).reads(),
        ({
            let p = Pair {
                a: old(fa).reads(),
                b: old(fb).reads(),
                start_a: a.data_offset as int,
                start_b: b.data_offset as int,
                size: a.sector_size as int,
            };
            diff_outcome(r) == (if forward {
                first_diff(p, scan_start as int, scan_end as int)
            } else {
                last_diff(p, scan_start as int, scan_end as int)
            })
        }),
{
    let ghost p = Pair {
        a: fa.reads(),
        b: fb.reads(),
        start_a: a.data_offset as int,
        start_b: b.data_offset as int,
        size: a.sector_size as int,
    };
    let size: u64 = a.sector_size;
    let chunk: u64 = chunk_sectors(size);
    if forward {
        let mut lba: u64 = scan_start;
        while lba <= scan_end
            invariant
                lba <= scan_end + 1 || lba == scan_start,
                fa.reads() == p.a,
                fb.reads() == p.b,
                first_diff(p, lba as int, scan_end as int) == first_diff(
                    p,
                    scan_start as int,
                    scan_end as int,
                ),
            decreases scan_end + 1 - lba,
        {
            let left: u64 = scan_end - lba + 1;
            let n: u64 = if chunk < left {
                chunk
            } else {
                left
            };
            assert(n * size <= chunk * size) by (nonlinear_arith)
                requires
                    n <= chunk,
                    size >= 0,
            ;
            match read_runs(fa, fb, a.data_offset, b.data_offset, size, lba, n) {
                Err(e) => {
                    return Err(e);
                },
                Ok((x, y)) => {
                    match find_first_in(x.as_slice(), y.as_slice(), size, n) {
                        Some(i) => {
                            return Ok(Some(lba + i));
                        },
                        None => {},
                    }
                },
            }
            lba += n;
        }
        Ok(None)
    } else {
        if scan_end < scan_start {
            return Ok(None);
        }
        let mut end: u64 = scan_end + 1;
        while end > scan_start
            invariant
                scan_start <= end <= scan_end + 1,
                fa.reads() == p.a,
                fb.reads() == p.b,
                last_diff(p, scan_start as int, end - 1) == last_diff(
                    p,
                    scan_start as int,
                    scan_end as int,
                ),
            decreases end - scan_start,
        {
            let left: u64 = end - scan_start;
            let n: u64 = if chunk < left {
                chunk
            } else {
                left
            };
            assert(n * size <= chunk * size) by (nonlinear_arith)
                requires
                    n <= chunk,
                    size >= 0,
            ;
            let from: u64 = end - n;
            match read_runs(fa, fb, a.data_offset, b.data_offset, size, from, n) {
                Err(e) => {
                    return Err(e);
                },
                Ok((x, y)) => {
                    match find_last_in(x.as_slice(), y.as_slice(), size, n) {
                        Some(i) => {
                            return Ok(Some(from + i));
                        },
                        None => {},
                    }
                },
            }
            end = from;
        }
        Ok(None)
    }
}

/// The bytes that a view of a sector shows; none where there is nothing to show.
pub open spec fn shown(v: Option<ImageView>, lba: int) -> Seq<u8> {
    match v {
        None => seq![],
        Some(i) => match sector_view(i, lba) {
            Ok(d) => d.bytes,
            Err(_) => seq![],
        },
    }
}

/// The first sector from `lba` to `end` whose views differ.
pub open spec fn first_shown(a: Option<ImageView>, b: Option<ImageView>, lba: int, end: int) -> Option<
    int,
>
    decreases end + 1 - lba,
{
    if lba > end {
        None
    } else if shown(a, lba) != shown(b, lba) {
        Some(lba)
    } else {
        first_shown(a, b, lba + 1, end)
    }
}

/// The last sector from `start` to `last` whose views differ.
pub open spec fn last_shown(a: Option<ImageView>, b: Option<ImageView>, start: int, last: int) -> Option<
    int,
>
    decreases last + 1 - start,
{
    if last < start {
        None
    } else if shown(a, last) != shown(b, last) {
        Some(last)
    } else {
        last_shown(a, b, start, last - 1)
    }
}

/// The sectors of an image whose first sector can be read.
pub open spec fn readable_total(v: Option<ImageView>) -> int {
    match v {
        None => 0,
        Some(i) => match sector_view(i, 0) {
            Ok(d) => d.total_sectors,
            Err(_) => 0,
        },
    }
}

/// The sectors that a search goes over: its first and its last.
pub open spec fn scan_range(total: int, from_lba: int, forward: bool, inclusive: bool) -> (int, int) {
    if forward {
        (
            if inclusive || from_lba == u64::MAX {
                from_lba
            } else {
                from_lba + 1
            },
            total - 1,
        )
    } else {
        (0, from_lba - 1)
    }
}

/// Two images whose sectors stand one behind another, of the same length.
pub open spec fn pair_of(a: Option<ImageView>, b: Option<ImageView>) -> Option<Pair> {
    match (a, b) {
        (
            Some(
                ImageView::Stored(
                    StoredView::Flat {
                        reads: ra,
                        len: _,
                        sector_size: sa,
                        user_data_offset: _,
                        data_offset: oa,
                    },
                ),
            ),
            Some(
                ImageView::Stored(
                    StoredView::Flat {
                        reads: rb,
                        len: _,
                        sector_size: sb,
                        user_data_offset: _,
                        data_offset: ob,
                    },
                ),
            ),
        ) => if sa == sb {
            Some(
                Pair {
                    a: ra,
                    b: rb,
                    start_a: oa as int,
                    start_b: ob as int,
                    size: sa as int,
                },
            )
        } else {
            None
        },
        _ => None,
    }
}

/// The first, or the last, sector of a range that differs between two images.
pub open spec fn range_diff(
    a: Option<ImageView>,
    b: Option<ImageView>,
    bulk: bool,
    start: int,
    end: int,
    forward: bool,
) -> Result<Option<int>, Seq<char>> {
    match pair_of(a, b) {
        Some(p) if bulk => if forward {
            first_diff(p, start, end)
        } else {
            last_diff(p, start, end)
        },
        _ => if forward {
            Ok(first_shown(a, b, start, end))
        } else {
            Ok(last_shown(a, b, start, end))
        },
    }
}

/// The next sector that differs between two images: behind `from_lba`, or with it, in
/// a search forward; before it in a search backward. Whole runs are compared where
/// `bulk` says so and both images allow it.
pub open spec fn next_diff(
    a: Option<ImageView>,
    b: Option<ImageView>,
    bulk: bool,
    from_lba: int,
    forward: bool,
    inclusive: bool,
) -> Result<Option<int>, Seq<char>> {
    let total = readable_total(a);
    let range = scan_range(total, from_lba, forward, inclusive);
    if total == 0 || range.0 > range.1 {
        Ok(None)
    } else {
        range_diff(a, b, bulk, range.0, range.1, forward)
    }
}

/// Whether two images can be compared by whole runs of sectors.
pub fn can_compare_runs(a: &Option<FlatInfo>, b: &Option<FlatInfo>) -> (r: bool)
    ensures
        r == (a matches Some(x) && b matches Some(y) && x.sector_size == y.sector_size),
{
    match (a, b) {
        (Some(x), Some(y)) => x.sector_size == y.sector_size,
        _ => false,
    }
}

/// What an image that may be missing holds.
pub open spec fn maybe<S: ByteSource>(i: Option<SectorImage<S>>) -> Option<ImageView> {
    match i {
        Some(i) => Some(i@),
        None => None,
    }
}

/// Whether an image that may be missing is sound, and a sector of it can be asked for.
pub open spec fn ready<S: ByteSource>(i: Option<SectorImage<S>>, lba: int) -> bool {
    i matches Some(i) ==> i.wf() && can_show(i@, lba)
}

/// The bytes that a view of a sector shows.
fn show<S: ByteSource>(image: &mut Option<SectorImage<S>>, lba: u64) -> (r: Vec<u8>)
    requires
        ready(*old(image), lba as int),
    ensures
        maybe(*final(image)) == maybe(*old(image)),
        *final(image) matches Some(i) ==> i.wf(),
        r@ == shown(maybe(*old(image)), lba as int),
{
    match image {
        None => {
            let none: Vec<u8> = Vec::new();
            assert(none@ =~= seq![]);
            none
        },
        Some(i) => match read_sector_impl(i, lba) {
            Ok(d) => d.bytes,
            Err(_) => {
                let none: Vec<u8> = Vec::new();
                assert(none@ =~= seq![]);
                none
            },
        },
    }
}

/// The sectors of an image whose first sector can be read.
fn count_readable<S: ByteSource>(image: &mut Option<SectorImage<S>>) -> (r: u64)
    requires
        ready(*old(image), 0),
    ensures
        maybe(*final(image)) == maybe(*old(image)),
        *final(image) matches Some(i) ==> i.wf(),
        r == readable_total(maybe(*old(image))),
{
    match image {
        None => 0,
        Some(i) => match read_sector_impl(i, 0) {
            Ok(d) => d.total_sectors,
            Err(_) => 0,
        },
    }
}

/// The first, or the last, sector of a range whose views differ.
#[verifier::loop_isolation(false)]
fn find_shown<S: ByteSource, T: ByteSource>(
    a: &mut Option<SectorImage<S>>,
    b: &mut Option<SectorImage<T>>,
    start: u64,
    end: u64,
    forward: bool,
) -> (r: Option<u64>)
    requires
        start <= end < u64::MAX,
        forall|l: int| start <= l <= end ==> #[trigger] ready(*old(a), l),
        forall|l: int| start <= l <= end ==> #[trigger] ready(*old(b), l),
    ensures
        diff_outcome(Ok(r)) == Ok::<Option<int>, Seq<char>>(
            if forward {
                first_shown(maybe(*old(a)), maybe(*old(b)), start as int, end as int)
            } else {
                last_shown(maybe(*old(a)), maybe(*old(b)), start as int, end as int)
            },
        ),
{
    let ghost va = maybe(*a);
    let ghost vb = maybe(*b);
    assert(ready(*old(a), start as int) && ready(*old(b), start as int));
    if forward {
        let mut lba: u64 = start;
        while lba <= end
            invariant
                start <= lba <= end + 1,
                maybe(*a) == va,
                maybe(*b) == vb,
                *a matches Some(i) ==> i.wf(),
                *b matches Some(i) ==> i.wf(),
                first_shown(va, vb, lba as int, end as int) == first_shown(
                    va,
                    vb,
                    start as int,
                    end as int,
                ),
            decreases end + 1 - lba,
        {
            assert(ready(*old(a), lba as int) && ready(*old(b), lba as int));
            let x: Vec<u8> = show(a, lba);
            let y: Vec<u8> = show(b, lba);
            if !same_bytes(x.as_slice(), y.as_slice()) {
                return Some(lba);
            }
            lba += 1;
        }
        None
    } else {
        let mut last: u64 = end + 1;
        while last > start
            invariant
                start <= last <= end + 1,
                maybe(*a) == va,
                maybe(*b) == vb,
                *a matches Some(i) ==> i.wf(),
                *b matches Some(i) ==> i.wf(),
                last_shown(va, vb, start as int, last - 1) == last_shown(
                    va,
                    vb,
                    start as int,
                    end as int,
                ),
            decreases last - start,
        {
            let lba: u64 = last - 1;
            assert(ready(*old(a), lba as int) && ready(*old(b), lba as int));
            let x: Vec<u8> = show(a, lba);
            let y: Vec<u8> = show(b, lba);
            if !same_bytes(x.as_slice(), y.as_slice()) {
                return Some(lba);
            }
            last = lba;
        }
        None
    }
}

/// The first, or the last, sector of a range that differs between two images whose
/// sectors stand one behind another; none at all where one of them is another image
/// or their sectors differ in length.
fn find_in_runs<S: ByteSource, T: ByteSource>(
    a: &mut Option<SectorImage<S>>,
    b: &mut Option<SectorImage<T>>,
    start: u64,
    end: u64,
    forward: bool,
) -> (r: Option<Result<Option<u64>, String>>)
    requires
        end < u64::MAX,
        *old(a) matches Some(i) ==> i.wf(),
        *old(b) matches Some(i) ==> i.wf(),
    ensures
        match r {
            None => pair_of(maybe(*old(a)), maybe(*old(b))) is None && *final(a) == *old(a)
                && *final(b) == *old(b),
            Some(d) => pair_of(maybe(*old(a)), maybe(*old(b))) matches Some(p) && diff_outcome(d)
                == (if forward {
                first_diff(p, start as int, end as int)
            } else {
                last_diff(p, start as int, end as int)
            }),
        },
{
    match a {
        Some(
            SectorImage::Stored(
                Stored::Flat {
                    source: fa,
                    len: _,
                    sector_size: sa,
                    user_data_offset: _,
                    data_offset: oa,
                },
            ),
        ) => match b {
            Some(
                SectorImage::Stored(
                    Stored::Flat {
                        source: fb,
                        len: _,
                        sector_size: sb,
                        user_data_offset: _,
                        data_offset: ob,
                    },
                ),
            ) => {
                if *sa != *sb {
                    return None;
                }
                let x: FlatInfo = FlatInfo {
                    path: "".to_owned(),
                    sector_size: *sa,
                    data_offset: *oa,
                    total_sectors: 0,
                };
                let y: FlatInfo = FlatInfo {
                    path: "".to_owned(),
                    sector_size: *sb,
                    data_offset: *ob,
                    total_sectors: 0,
                };
                Some(find_diff_flat(fa, fb, &x, &y, start, end, forward))
            },
            _ => None,
        },
        _ => None,
    }
}

/// The first, or the last, sector of a range that differs between two images.
fn find_in_range<S: ByteSource, T: ByteSource>(
    a: &mut Option<SectorImage<S>>,
    b: &mut Option<SectorImage<T>>,
    bulk: bool,
    start: u64,
    end: u64,
    forward: bool,
) -> (r: Result<Option<u64>, String>)
    requires
        start <= end < u64::MAX,
        forall|l: int| start <= l <= end ==> #[trigger] ready(*old(a), l),
        forall|l: int| start <= l <= end ==> #[trigger] ready(*old(b), l),
    ensures
        diff_outcome(r) == range_diff(
            maybe(*old(a)),
            maybe(*old(b)),
            bulk,
            start as int,
            end as int,
            forward,
        ),
{
    assert(ready(*old(a), start as int) && ready(*old(b), start as int));
    if bulk {
        match find_in_runs(a, b, start, end, forward) {
            Some(r) => {
                return r;
            },
            None => {},
        }
    }
    Ok(find_shown(a, b, start, end, forward))
}

/// The sectors that a search goes over, if there are any.
fn find_scan_range(total: u64, from_lba: u64, forward: bool, inclusive: bool) -> (r: Option<
    (u64, u64),
>)
    ensures
        ({
            let range = scan_range(total as int, from_lba as int, forward, inclusive);
            match r {
                None => total == 0 || range.0 > range.1,
                Some(t) => total > 0 && t.0 == range.0 && t.1 == range.1 && t.0 <= t.1 && t.1
                    < u64::MAX,
            }
        }),
{
    if total == 0 {
        return None;
    }
    let (start, end): (u64, u64) = if forward {
        let first: u64 = if inclusive || from_lba == 0xffff_ffff_ffff_ffff {
            from_lba
        } else {
            from_lba + 1
        };
        (first, total - 1)
    } else {
        if from_lba == 0 {
            return None;
        }
        (0, from_lba - 1)
    };
    if start > end {
        None
    } else {
        Some((start, end))
    }
}

/// Finds the next sector that differs between two images; one that cannot be opened
/// is missing, and shows nothing.
pub fn find_diff_sector<S: ByteSource, T: ByteSource>(
    a: Option<SectorImage<S>>,
    b: Option<SectorImage<T>>,
    bulk: bool,
    from_lba: u64,
    forward: bool,
    inclusive: bool,
) -> (r: Result<Option<u64>, String>)
    requires
        ready(a, 0),
        ready(b, 0),
        ({
            let range = scan_range(
                readable_total(maybe(a)),
                from_lba as int,
                forward,
                inclusive,
            );
            &&& forall|l: int| range.0 <= l <= range.1 ==> #[trigger] ready(a, l)
            &&& forall|l: int| range.0 <= l <= range.1 ==> #[trigger] ready(b, l)
        }),
    ensures
        diff_outcome(r) == next_diff(
            maybe(a),
            maybe(b),
            bulk,
            from_lba as int,
            forward,
            inclusive,
        ),
{
    let mut x: Option<SectorImage<S>> = a;
    let mut y: Option<SectorImage<T>> = b;
    let total: u64 = count_readable(&mut x);
    match find_scan_range(total, from_lba, forward, inclusive) {
        None => Ok(None),
        Some((start, end)) => {
            proof {
                assert forall|l: int| start <= l <= end implies #[trigger] ready(x, l) by {
                    assert(ready(a, l));
                }
                assert forall|l: int| start <= l <= end implies #[trigger] ready(y, l) by {
                    assert(ready(b, l));
                }
            }
            find_in_range(&mut x, &mut y, bulk, start, end, forward)
        },
    }
}

// ── Laws ────────────────────────────────────────────────────────────────────

/// Sector `k` of an image whose sectors of `size` bytes start at `start`.
pub open spec fn sector_of(image: Seq<u8>, start: int, size: int, k: int) -> Seq<u8> {
    image.subrange(start + k * size, start + k * size + size)
}

/// Two images in memory that are compared.
pub open spec fn memory_pair(a: Seq<u8>, b: Seq<u8>, start_a: int, start_b: int, size: int) -> Pair {
    Pair { a: source::reads_of(a), b: source::reads_of(b), start_a, start_b, size }
}

/// Whether an image holds the sectors up to `end`, and 64 bits reach them.
pub open spec fn holds_up_to(image: Seq<u8>, start: int, size: int, end: int) -> bool {
    &&& 0 <= start
    &&& 0 < size
    &&& start + (end + 1) * size <= image.len()
    &&& image.len() <= u64::MAX
}

/// A run of sectors that an image holds is read, and its sectors are the image's.
proof fn lemma_run(image: Seq<u8>, start: int, size: int, lba: int, n: int, end: int)
    requires
        holds_up_to(image, start, size, end),
        0 <= lba,
        0 <= n,
        lba + n <= end + 1,
    ensures
        ({
            let r = source::reach(source::reads_of(image), start + lba * size, n * size);
            &&& r matches Ok(run)
            &&& run == image.subrange(start + lba * size, start + lba * size + n * size)
            &&& run.len() == n * size
            &&& forall|i: int|
                0 <= i < n ==> #[trigger] sector_in(run, i, size) == sector_of(
                    image,
                    start,
                    size,
                    lba + i,
                )
        }),
{
    assert(lba * size + n * size <= (end + 1) * size && 0 <= lba * size && 0 <= n * size)
        by (nonlinear_arith)
        requires
            0 <= lba,
            0 <= n,
            lba + n <= end + 1,
            0 < size,
    ;
    let run = image.subrange(start + lba * size, start + lba * size + n * size);
    assert forall|i: int| 0 <= i < n implies #[trigger] sector_in(run, i, size) == sector_of(
        image,
        start,
        size,
        lba + i,
    ) by {
        assert(0 <= i * size && i * size + size <= n * size && (lba + i) * size == lba * size + i
            * size) by (nonlinear_arith)
            requires
                0 <= i < n,
                0 < size,
        ;
        assert(sector_in(run, i, size) =~= sector_of(image, start, size, lba + i));
    }
}

/// What the first difference between two runs is.
proof fn lemma_first_in(a: Seq<u8>, b: Seq<u8>, size: int, i: int, n: int)
    requires
        0 <= i <= n,
    ensures
        match first_in(a, b, size, i, n) {
            Some(k) => i <= k < n && sector_in(a, k, size) != sector_in(b, k, size) && forall|l: int|
                i <= l < k ==> #[trigger] sector_in(a, l, size) == sector_in(b, l, size),
            None => forall|l: int|
                i <= l < n ==> #[trigger] sector_in(a, l, size) == sector_in(b, l, size),
        },
    decreases n - i,
{
    if i < n {
        lemma_first_in(a, b, size, i + 1, n);
    }
}

/// What the last difference between two runs is.
proof fn lemma_last_in(a: Seq<u8>, b: Seq<u8>, size: int, i: int)
    requires
        0 <= i,
    ensures
        match last_in(a, b, size, i) {
            Some(k) => 0 <= k < i && sector_in(a, k, size) != sector_in(b, k, size) && forall|l: int|
                k < l < i ==> #[trigger] sector_in(a, l, size) == sector_in(b, l, size),
            None => forall|l: int|
                0 <= l < i ==> #[trigger] sector_in(a, l, size) == sector_in(b, l, size),
        },
    decreases i,
{
    if i > 0 {
        lemma_last_in(a, b, size, i - 1);
    }
}

/// At least one sector is compared at a time.
proof fn lemma_chunk(size: int)
    ensures
        chunk_of(size) >= 1,
{
}

/// A search forward over sectors that both images hold finds the first one that
/// differs, and none only if all are the same.
pub proof fn the_first_difference_is_found(
    a: Seq<u8>,
    b: Seq<u8>,
    start_a: int,
    start_b: int,
    size: int,
    lba: int,
    end: int,
)
    requires
        0 <= lba <= end + 1,
        holds_up_to(a, start_a, size, end),
        holds_up_to(b, start_b, size, end),
    ensures
        match first_diff(memory_pair(a, b, start_a, start_b, size), lba, end) {
            Ok(Some(k)) => lba <= k <= end && sector_of(a, start_a, size, k) != sector_of(
                b,
                start_b,
                size,
                k,
            ) && forall|l: int|
                lba <= l < k ==> #[trigger] sector_of(a, start_a, size, l) == sector_of(
                    b,
                    start_b,
                    size,
                    l,
                ),
            Ok(None) => forall|l: int|
                lba <= l <= end ==> #[trigger] sector_of(a, start_a, size, l) == sector_of(
                    b,
                    start_b,
                    size,
                    l,
                ),
            Err(_) => false,
        },
    decreases end + 1 - lba,
{
    if lba <= end {
        lemma_chunk(size);
        let n = ecm_reader::lesser(chunk_of(size), end - lba + 1);
        lemma_run(a, start_a, size, lba, n, end);
        lemma_run(b, start_b, size, lba, n, end);
        let p = memory_pair(a, b, start_a, start_b, size);
        let ra = source::reach(p.a, start_a + lba * size, n * size)->Ok_0;
        let rb = source::reach(p.b, start_b + lba * size, n * size)->Ok_0;
        assert(runs_at(p, lba, n) == Ok::<(Seq<u8>, Seq<u8>), Seq<char>>((ra, rb)));
        lemma_first_in(ra, rb, size, 0, n);
        let upto = match first_in(ra, rb, size, 0, n) {
            Some(i) => i,
            None => n,
        };
        assert forall|l: int| lba <= l < lba + upto implies #[trigger] sector_of(
            a,
            start_a,
            size,
            l,
        ) == sector_of(b, start_b, size, l) by {
            assert(sector_in(ra, l - lba, size) == sector_in(rb, l - lba, size));
        }
        if first_in(ra, rb, size, 0, n) is None {
            the_first_difference_is_found(a, b, start_a, start_b, size, lba + n, end);
        }
    }
}

/// A search backward over sectors that both images hold finds the last one that
/// differs, and none only if all are the same.
pub proof fn the_last_difference_is_found(
    a: Seq<u8>,
    b: Seq<u8>,
    start_a: int,
    start_b: int,
    size: int,
    start: int,
    last: int,
    end: int,
)
    requires
        0 <= start <= last + 1,
        last <= end,
        holds_up_to(a, start_a, size, end),
        holds_up_to(b, start_b, size, end),
    ensures
        match last_diff(memory_pair(a, b, start_a, start_b, size), start, last) {
            Ok(Some(k)) => start <= k <= last && sector_of(a, start_a, size, k) != sector_of(
                b,
                start_b,
                size,
                k,
            ) && forall|l: int|
                k < l <= last ==> #[trigger] sector_of(a, start_a, size, l) == sector_of(
                    b,
                    start_b,
                    size,
                    l,
                ),
            Ok(None) => forall|l: int|
                start <= l <= last ==> #[trigger] sector_of(a, start_a, size, l) == sector_of(
                    b,
                    start_b,
                    size,
                    l,
                ),
            Err(_) => false,
        },
    decreases last + 1 - start,
{
    if start <= last {
        lemma_chunk(size);
        let n = ecm_reader::lesser(chunk_of(size), last - start + 1);
        let from = last + 1 - n;
        lemma_run(a, start_a, size, from, n, end);
        lemma_run(b, start_b, size, from, n, end);
        let p = memory_pair(a, b, start_a, start_b, size);
        let ra = source::reach(p.a, start_a + from * size, n * size)->Ok_0;
        let rb = source::reach(p.b, start_b + from * size, n * size)->Ok_0;
        assert(runs_at(p, from, n) == Ok::<(Seq<u8>, Seq<u8>), Seq<char>>((ra, rb)));
        lemma_last_in(ra, rb, size, n);
        let above = match last_in(ra, rb, size, n) {
            Some(i) => i,
            None => -1,
        };
        assert forall|l: int| from + above < l <= last implies #[trigger] sector_of(
            a,
            start_a,
            size,
            l,
        ) == sector_of(b, start_b, size, l) by {
            assert(sector_in(ra, l - from, size) == sector_in(rb, l - from, size));
        }
        if last_in(ra, rb, size, n) is None {
            the_last_difference_is_found(
                a,
                b,
                start_a,
                start_b,
                size,
                start,
                last - n,
                end,
            );
        }
    }
}

/// An image in memory whose sectors stand one behind another.
pub open spec fn memory_image(image: Seq<u8>, start: u64, size: u64, user_data_offset: u64) -> StoredView {
    StoredView::Flat {
        reads: source::reads_of(image),
        len: image.len() as u64,
        sector_size: size,
        user_data_offset,
        data_offset: start,
    }
}

/// An export of sectors that stand one behind another writes the image's own bytes,
/// from the first of them to the last.
pub proof fn an_export_is_the_image(
    image: Seq<u8>,
    start: u64,
    size: u64,
    user_data_offset: u64,
    buf: Seq<u8>,
    lba: int,
    lba_end: int,
)
    requires
        0 <= lba <= lba_end + 1,
        buf.len() == size,
        holds_up_to(image, start as int, size as int, lba_end),
    ensures
        exported_from(memory_image(image, start, size, user_data_offset), buf, lba, lba_end) == Ok::<
            Seq<u8>,
            Seq<char>,
        >(image.subrange(start + lba * size, start + (lba_end + 1) * size)),
    decreases lba_end + 1 - lba,
{
    let v = memory_image(image, start, size, user_data_offset);
    let s = size as int;
    assert(lba * s <= (lba_end + 1) * s && 0 <= lba * s) by (nonlinear_arith)
        requires
            0 <= lba <= lba_end + 1,
            0 < s,
    ;
    if lba > lba_end {
        assert(image.subrange(start + lba * s, start + (lba_end + 1) * s) =~= seq![]);
    } else {
        lemma_run(image, start as int, s, lba, 1, lba_end);
        assert(1 * s == s);
        let b = image.subrange(start + lba * s, start + lba * s + s);
        assert(export_piece(v, lba) == Ok::<Seq<u8>, Seq<char>>(b));
        assert(overlaid(buf, b) =~= b);
        an_export_is_the_image(image, start, size, user_data_offset, b, lba + 1, lba_end);
        assert((lba + 1) * s == lba * s + s) by (nonlinear_arith);
        assert((lba + 1) * s <= (lba_end + 1) * s) by (nonlinear_arith)
            requires
                lba + 1 <= lba_end + 1,
                0 < s,
        ;
        assert(b + image.subrange(start + (lba + 1) * s, start + (lba_end + 1) * s)
            =~= image.subrange(start + lba * s, start + (lba_end + 1) * s));
    }
}

/// A sector of an image whose sectors stand one behind another is shown as it was written.
pub proof fn a_flat_sector_is_shown(
    front: Seq<u8>,
    sectors: Seq<Seq<u8>>,
    rest: Seq<u8>,
    size: u64,
    user_data_offset: u64,
    lba: int,
)
    requires
        0 < size <= u32::MAX,
        user_data_offset <= u32::MAX,
        forall|k: int| 0 <= k < sectors.len() ==> (#[trigger] sectors[k]).len() == size,
        rest.len() < size,
        source::image_of(front, sectors, size as int, rest).len() <= u64::MAX,
        0 <= lba < sectors.len(),
    ensures
        ({
            let v = memory_image(
                source::image_of(front, sectors, size as int, rest),
                front.len() as u64,
                size,
                user_data_offset,
            );
            &&& total_of(v) == sectors.len()
            &&& sector_view(ImageView::Stored(v), lba) == Ok::<SectorDataView, Seq<char>>(
                SectorDataView {
                    bytes: sectors[lba],
                    sector_size: size as u32,
                    user_data_offset: user_data_offset as u32,
                    total_sectors: sectors.len() as int,
                    lba,
                },
            )
        }),
{
    let z = size as int;
    let image = source::image_of(front, sectors, z, rest);
    let v = memory_image(image, front.len() as u64, size, user_data_offset);
    let n = sectors.len() as int;
    assert(sectors[lba].len() == size);
    lemma_row_of_sectors(front, sectors, rest, z, lba);
    let b = sectors[lba];
    assert(source::reach(source::reads_of(image), front.len() + lba * z, z) == Ok::<
        Seq<u8>,
        Seq<char>,
    >(b));
    assert(overlaid(bytes::zeros(z), b) =~= b);
    assert(total_of(v) == n) by {
        assert((image.len() - front.len()) / z == n) by (nonlinear_arith)
            requires
                image.len() - front.len() == n * z + rest.len(),
                0 <= rest.len() < z,
                z > 0,
        ;
        if n * z + rest.len() == 0 {
            assert(n * z >= z) by (nonlinear_arith)
                requires
                    n >= 1,
                    z > 0,
            ;
        }
    }
}

/// Where a sector stands in a row of sectors.
proof fn lemma_row_of_sectors(
    front: Seq<u8>,
    sectors: Seq<Seq<u8>>,
    rest: Seq<u8>,
    z: int,
    k: int,
)
    requires
        0 < z,
        forall|i: int| 0 <= i < sectors.len() ==> (#[trigger] sectors[i]).len() == z,
        0 <= k < sectors.len(),
    ensures
        ({
            let image = source::image_of(front, sectors, z, rest);
            let at = front.len() + k * z;
            &&& image.len() == front.len() + sectors.len() * z + rest.len()
            &&& 0 <= at
            &&& at + z <= image.len()
            &&& image.subrange(at, at + z) == sectors[k]
        }),
{
    let image = source::image_of(front, sectors, z, rest);
    let at = front.len() + k * z;
    let n = sectors.len() as int;
    assert(sectors[k].len() == z);
    assert(0 <= k * z && k * z + z <= n * z) by (nonlinear_arith)
        requires
            0 <= k < n,
            0 < z,
    ;
    assert(source::end_to_end(sectors, z).len() == n * z);
    assert forall|j: int| 0 <= j < z implies #[trigger] image.subrange(at, at + z)[j]
        == sectors[k][j] by {
        source::lemma_within_part(k, z, j);
        assert(image[at + j] == source::end_to_end(sectors, z)[k * z + j]);
    }
    assert(image.subrange(at, at + z) =~= sectors[k]);
}

/// A disc of 2048-byte sectors is shown by them.
pub proof fn a_block_is_shown(sectors: Seq<Seq<u8>>, lba: int)
    requires
        forall|k: int| 0 <= k < sectors.len() ==> (#[trigger] sectors[k]).len() == 2048,
        2048 * sectors.len() <= u64::MAX,
        0 <= lba < sectors.len(),
    ensures
        sector_view(
            ImageView::Stored(
                StoredView::Blocks {
                    reads: source::reads_of(source::end_to_end(sectors, 2048)),
                    total_bytes: (2048 * sectors.len()) as u64,
                },
            ),
            lba,
        ) == Ok::<SectorDataView, Seq<char>>(
            SectorDataView {
                bytes: sectors[lba],
                sector_size: 2048,
                user_data_offset: 0,
                total_sectors: sectors.len() as int,
                lba,
            },
        ),
{
    let none = Seq::<u8>::empty();
    assert(sectors[lba].len() == 2048);
    lemma_row_of_sectors(none, sectors, none, 2048, lba);
    assert(source::image_of(none, sectors, 2048, none) =~= source::end_to_end(sectors, 2048));
    assert(overlaid(bytes::zeros(2048), sectors[lba]) =~= sectors[lba]);
}

/// A sector of a scrambled dump is shown with its scrambling undone: it stands as many raw
/// sectors behind the start of the track as its number tells.
pub proof fn a_scrambled_sector_is_shown(
    front: Seq<u8>,
    sectors: Seq<Seq<u8>>,
    table: Seq<u8>,
    lba: int,
)
    requires
        forall|k: int| 0 <= k < sectors.len() ==> (#[trigger] sectors[k]).len() == 2352,
        front.len() + 2352 * sectors.len() <= u64::MAX,
        0 <= lba < sectors.len(),
    ensures
        ({
            let image = front + source::end_to_end(sectors, 2352);
            let v = ImageView::Scram {
                reads: source::reads_of(image),
                len: image.len() as u64,
                start: front.len() as u64,
                table,
            };
            sector_view(v, lba) matches Ok(d) && d.bytes == track::descrambled(sectors[lba], table)
                && d.sector_size == 2352 && d.total_sectors == sectors.len() && d.lba == lba
        }),
{
    let none = Seq::<u8>::empty();
    let image = front + source::end_to_end(sectors, 2352);
    assert(sectors[lba].len() == 2352);
    lemma_row_of_sectors(front, sectors, none, 2352, lba);
    assert(source::image_of(front, sectors, 2352, none) =~= image);
}

/// The next difference of two images is behind where the search starts, or there where that
/// sector is looked at too, and everything between is the same; a search backward finds the
/// last difference before.
pub proof fn the_next_difference_is_found(
    a: Seq<u8>,
    b: Seq<u8>,
    start_a: u64,
    start_b: u64,
    size: u64,
    total: int,
    from: int,
    inclusive: bool,
)
    requires
        0 < size,
        0 < total,
        total == total_of(memory_image(a, start_a, size, 0)),
        sector_view(ImageView::Stored(memory_image(a, start_a, size, 0)), 0) is Ok,
        holds_up_to(a, start_a as int, size as int, total - 1),
        holds_up_to(b, start_b as int, size as int, total - 1),
        0 <= from < total,
    ensures
        ({
            let va = Some(ImageView::Stored(memory_image(a, start_a, size, 0)));
            let vb = Some(ImageView::Stored(memory_image(b, start_b, size, 0)));
            let first = if inclusive {
                from
            } else {
                from + 1
            };
            &&& match next_diff(va, vb, true, from, true, inclusive) {
                Ok(Some(k)) => first <= k < total && sector_of(
                    a,
                    start_a as int,
                    size as int,
                    k,
                ) != sector_of(b, start_b as int, size as int, k) && forall|l: int|
                    first <= l < k ==> #[trigger] sector_of(a, start_a as int, size as int, l)
                        == sector_of(b, start_b as int, size as int, l),
                Ok(None) => forall|l: int|
                    first <= l < total ==> #[trigger] sector_of(a, start_a as int, size as int, l)
                        == sector_of(b, start_b as int, size as int, l),
                Err(_) => false,
            }
            &&& match next_diff(va, vb, true, from, false, inclusive) {
                Ok(Some(k)) => 0 <= k < from && sector_of(a, start_a as int, size as int, k)
                    != sector_of(b, start_b as int, size as int, k) && forall|l: int|
                    k < l < from ==> #[trigger] sector_of(a, start_a as int, size as int, l)
                        == sector_of(b, start_b as int, size as int, l),
                Ok(None) => forall|l: int|
                    0 <= l < from ==> #[trigger] sector_of(a, start_a as int, size as int, l)
                        == sector_of(b, start_b as int, size as int, l),
                Err(_) => false,
            }
        }),
{
    let sa = start_a as int;
    let sb = start_b as int;
    let z = size as int;
    let first = if inclusive {
        from
    } else {
        from + 1
    };
    assert(total <= total * z) by (nonlinear_arith)
        requires
            0 < z,
            0 < total,
    ;
    the_first_difference_is_found(a, b, sa, sb, z, first, total - 1);
    the_last_difference_is_found(a, b, sa, sb, z, 0, from - 1, total - 1);
}

} // verus!
