//! Which file systems an image holds, whatever its format is.
use vstd::prelude::*;
use crate::detection;
use crate::detection::{
    detect_filesystems_aif, detect_filesystems_chd, detect_filesystems_in_bin,
    detect_filesystems_mdx, detect_filesystems_raw, gcm_kind_label, Probes,
};
use crate::iso_volume::push_text;
use crate::redumper;
use crate::redumper::{detect_filesystems_redumper_bd, detect_filesystems_redumper_dvd};
use crate::routing;
use crate::routing::{image_format, ImageFormat};
use crate::source::{ByteSource, Reads};
use crate::text;
use crate::track::{DataTrack, TrackView};
use crate::wiiu;
use crate::wiiu::wux_disc_label;

verus! {

/// What has to be known of an image before its file systems can be found: the track
/// that its sheet or header names, what other readers say of it, whether one for
/// ISO 9660 opens it, and the lengths of the hunks and units of a CHD image.
pub struct ImageFacts {
    pub track: Result<DataTrack, String>,
    pub probes: Probes,
    pub iso_opens: bool,
    pub hunk: u64,
    pub unit: u64,
}

/// The name of ISO 9660, where a reader for it opens an image.
pub open spec fn iso_if(opens: bool) -> Seq<Seq<char>> {
    detection::one_if(opens, "ISO 9660"@)
}

/// The file systems of the track that a sheet or a header names.
pub open spec fn named_track_systems(
    reads: Reads,
    len: u64,
    t: TrackView,
    table: Seq<u8>,
    p: Probes,
) -> Seq<Seq<char>> {
    detection::track_systems(
        reads,
        len,
        detection::bin_layout(t.track_offset, t.user_data_offset, t.lba_offset, t.descramble),
        table,
        p,
    )
}

/// The file systems of an image of a format; `reads` is what the file that holds its
/// sectors gives, or what a packed image holds.
pub open spec fn systems_of(
    f: ImageFormat,
    reads: Reads,
    len: u64,
    facts: ImageFacts,
    table: Seq<u8>,
) -> Result<Seq<Seq<char>>, Seq<char>> {
    match f {
        ImageFormat::Cue
        | ImageFormat::Mds
        | ImageFormat::Nrg
        | ImageFormat::Ccd
        | ImageFormat::Cdi
        | ImageFormat::Gdi
        | ImageFormat::BlindWrite
        | ImageFormat::Cif
        | ImageFormat::Scram => match facts.track {
            Ok(t) => Ok(named_track_systems(reads, len, t@, table, facts.probes)),
            Err(e) => Err(e@),
        },
        ImageFormat::Chd => Ok(
            detection::chd_systems(
                reads,
                detection::hunk_stride(facts.hunk, facts.unit),
                facts.probes.gcm,
            ),
        ),
        ImageFormat::Mdx => Ok(detection::mdx_systems(reads, len, facts.probes)),
        ImageFormat::Cso
        | ImageFormat::Ecm
        | ImageFormat::Uif
        | ImageFormat::Skeleton
        | ImageFormat::Zst => Ok(iso_if(facts.iso_opens)),
        ImageFormat::Aif => Ok(detection::aif_systems(reads)),
        ImageFormat::Wbfs => Ok(
            match facts.probes.gcm {
                Some(kind) => seq![detection::kind_name(kind)],
                None => seq![],
            },
        ),
        ImageFormat::WiiU => Ok(
            match wiiu::disc_label(reads) {
                Some(label) => seq![label],
                None => seq![],
            },
        ),
        ImageFormat::Sdram => Ok(redumper::dump_systems(redumper::dvd_sectors(reads))),
        ImageFormat::Sbram => Ok(redumper::dump_systems(redumper::bd_sectors(reads))),
        ImageFormat::Plain => Ok(detection::image_systems(reads, len, facts.probes)),
    }
}

/// The contents of the outcome of a search for file systems.
pub open spec fn names_outcome(r: Result<Vec<String>, String>) -> Result<
    Seq<Seq<char>>,
    Seq<char>,
> {
    match r {
        Ok(v) => Ok(text::views(v@)),
        Err(e) => Err(e@),
    }
}

/// One name, or none.
fn name_or_none(name: Option<&str>) -> (r: Vec<String>)
    ensures
        text::views(r@) == (match name {
            Some(n) => seq![n@],
            None => seq![],
        }),
{
    let mut v: Vec<String> = Vec::new();
    if let Some(n) = name {
        push_text(&mut v, n);
    }
    assert(text::views(v@) =~= (match name {
        Some(n) => seq![n@],
        None => seq![],
    }));
    v
}

/// Finds the file systems of an image by its path; `source` is the file that holds its
/// sectors, or what a packed image holds, and `table` the CD scrambler's.
pub fn get_disc_filesystems<S: ByteSource>(
    path: &str,
    source: S,
    len: u64,
    facts: ImageFacts,
    table: &[u8],
) -> (r: Result<Vec<String>, String>)
    requires
        facts.track matches Ok(t) ==> t.descramble ==> t.user_data_offset <= 304,
    ensures
        names_outcome(r) == systems_of(
            routing::format_of(text::lowercase(path@)),
            source.reads(),
            len,
            facts,
            table@,
        ),
{
    let mut src: S = source;
    match image_format(path) {
        ImageFormat::Cue
        | ImageFormat::Mds
        | ImageFormat::Nrg
        | ImageFormat::Ccd
        | ImageFormat::Cdi
        | ImageFormat::Gdi
        | ImageFormat::BlindWrite
        | ImageFormat::Cif
        | ImageFormat::Scram => match facts.track {
            Err(e) => Err(e),
            Ok(t) => Ok(
                detect_filesystems_in_bin(
                    src,
                    len,
                    t.track_offset,
                    t.user_data_offset,
                    t.lba_offset,
                    t.descramble,
                    table,
                    &facts.probes,
                ),
            ),
        },
        ImageFormat::Chd => Ok(
            detect_filesystems_chd(&mut src, facts.hunk, facts.unit, facts.probes.gcm),
        ),
        ImageFormat::Mdx => Ok(detect_filesystems_mdx(src, len, &facts.probes)),
        ImageFormat::Cso
        | ImageFormat::Ecm
        | ImageFormat::Uif
        | ImageFormat::Skeleton
        | ImageFormat::Zst => Ok(
            if facts.iso_opens {
                name_or_none(Some("ISO 9660"))
            } else {
                name_or_none(None)
            },
        ),
        ImageFormat::Aif => Ok(detect_filesystems_aif(&mut src)),
        ImageFormat::Wbfs => match facts.probes.gcm {
            Some(kind) => {
                let name: String = gcm_kind_label(kind);
                Ok(name_or_none(Some(name.as_str())))
            },
            None => Ok(name_or_none(None)),
        },
        ImageFormat::WiiU => match wux_disc_label(&mut src) {
            Some(label) => Ok(name_or_none(Some(label.as_str()))),
            None => Ok(name_or_none(None)),
        },
        ImageFormat::Sdram => Ok(detect_filesystems_redumper_dvd(src)),
        ImageFormat::Sbram => Ok(detect_filesystems_redumper_bd(src)),
        ImageFormat::Plain => Ok(detect_filesystems_raw(src, len, &facts.probes)),
    }
}

} // verus!
