# Disc Xplorer

A library that reads disc images: what is in them, where it stands, and how it is
taken out, converted, mounted and compared. Its functions state what they return
in `requires` and `ensures` clauses, which Verus proves.

- `src/` is the library. A `ByteSource` is anything that can be read at a position;
  images, volumes and archives are read from one. What a file on disk, a program
  or a drive answers is handed in as a plain value.
  - Images: `cue_sheet`, `mds_image`, `ccd_image`, `gdi_image`, `nrg_image`,
    `cdi_image`, `cif_image`, `blindwrite`, `track`, and the packed ones,
    `cso_reader`, `ecm_reader`, `uif_reader`, `plain_image`, `wux_reader`,
    `wux_writer`, `wia_reader`, `redumper`.
  - Volumes: `iso_volume`, `iso_listing`, `udf_filesystem`, `xdvdfs_filesystem`,
    `threedo_filesystem`, `pce_filesystem`, `nitro_filesystem`, `wiiu`,
    `wii_partition`, `ps3`, `ps3_meta`.
  - Archives: `zip_archive`, `tar_archive`, `vpk_archive`, `zarchive`, with their
    common `catalog`, and `xz_footer` for the end of an xz stream.
  - What is asked of an image: `detection`, `filesystems`, `routing`, `extract`,
    `sector_view`, `audio`, `dpm`, `conversion`.
  - The host: `host`, `mounting`, `drives`, `emulation`, `dump_tools`. These decide
    what the host is to do next from what came of the last job.
  - `codec` and `text` hold the calls of other crates and of std, with what is
    taken on trust of each.
- `tests/` runs the library on small images that are made up on the spot.
- `app/` is ordinary Rust around the library: files, processes, JSON, and the FLAC
  encoder.
