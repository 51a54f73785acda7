//! Disc images: what is in them, where it stands, and how it is taken out,
//! converted, mounted and compared.
use vstd::prelude::*;

pub mod audio;
pub mod blindwrite;
pub mod bytes;
pub mod calendar;
pub mod catalog;
pub mod ccd_image;
pub mod cdi_image;
pub mod cif_image;
pub mod codec;
pub mod conversion;
pub mod cso_reader;
pub mod cue_sheet;
pub mod detection;
pub mod dpm;
pub mod drives;
pub mod dump_tools;
pub mod ecm_reader;
pub mod emulation;
pub mod entry;
pub mod extract;
pub mod filesystems;
pub mod gdi_image;
pub mod host;
pub mod iso_listing;
pub mod iso_volume;
pub mod junk;
pub mod mds_image;
pub mod mounting;
pub mod nitro_filesystem;
pub mod nrg_image;
pub mod numbers;
pub mod path;
pub mod pce_filesystem;
pub mod plain_image;
pub mod ps3;
pub mod ps3_meta;
pub mod raw_volume;
pub mod redumper;
pub mod routing;
pub mod sanitize;
pub mod sector;
pub mod sector_view;
pub mod seek;
pub mod source;
pub mod tar_archive;
pub mod text;
pub mod threedo_filesystem;
pub mod track;
pub mod udf_filesystem;
pub mod uif_reader;
pub mod vpk_archive;
pub mod wia_reader;
pub mod wii_partition;
pub mod wiiu;
pub mod wux_reader;
pub mod wux_writer;
pub mod xdvdfs_filesystem;
pub mod xz_footer;
pub mod zarchive;
pub mod zip_archive;

verus! {

} // verus!
