use disc_xplorer::blindwrite::{block_file, companion_ext, make_track, read_first_block};
use disc_xplorer::ccd_image::{parse_ccd_for_data_track, parse_int_ccd};
use disc_xplorer::cdi_image::{get_cdi_track_list, parse_cdi_for_data_track};
use disc_xplorer::cif_image::parse_cif_for_data_track;
use disc_xplorer::cso_reader::CsoReader;
use disc_xplorer::cue_sheet::{
    all_data_tracks, choose_data_track, get_cue_tracks, list_cue_tracks, msf_to_sectors,
    parse_cue_all_data_tracks, parse_cue_for_data_track, BinFacts,
};
use disc_xplorer::dpm::{get_dpm_data, DpmBlock, DpmData};
use disc_xplorer::ecm_reader::EcmReader;
use disc_xplorer::gdi_image::{
    get_gdi_tracks, parse_gdi_for_data_track, probe_file, read_rows, GdiFile, GdiProbe,
};
use disc_xplorer::mds_image::{get_mds_track_list, parse_mds_for_data_track};
use disc_xplorer::nrg_image::parse_nrg_for_data_track;
use disc_xplorer::plain_image::SkeletonReader;
use disc_xplorer::path::{equal_files, equal_paths, HostDir};
use disc_xplorer::redumper::{
    bd_descramble, dvd_descramble, dvd_scramble_table, locate_dump, parse_log_write_offset,
    parse_scram_for_data_track, AnchorCache,
};
use disc_xplorer::source::MemSource;
use disc_xplorer::track::{
    align_to_pvd, descramble_sector, from_bcd, has_pvd, raw_payload, read_scrambled, sector_lba_at,
    DataTrack, MultiTrackBinReader,
};
use disc_xplorer::uif_reader::UifReader;
use std::io::Write;

const SYNC: [u8; 12] = [0, 255, 255, 255, 255, 255, 255, 255, 255, 255, 255, 0];

fn chars(t: &str) -> Vec<char> {
    t.chars().collect()
}

/// A raw sector at minute 0, second `s` and frame `f`, filled with `fill`.
fn raw_sector(s: u8, f: u8, mode: u8, fill: u8) -> Vec<u8> {
    let mut v = SYNC.to_vec();
    v.extend([0, s, f, mode]);
    v.resize(2352, fill);
    v
}

fn put32(v: &mut [u8], at: usize, n: u32) {
    v[at..at + 4].copy_from_slice(&n.to_le_bytes());
}

fn put16(v: &mut [u8], at: usize, n: u16) {
    v[at..at + 2].copy_from_slice(&n.to_le_bytes());
}

fn no_track(r: Result<DataTrack, String>) -> String {
    r.err().expect("a track")
}

fn deflated(data: &[u8]) -> Vec<u8> {
    let mut e = flate2::write::ZlibEncoder::new(Vec::new(), flate2::Compression::default());
    e.write_all(data).unwrap();
    e.finish().unwrap()
}

// ── Sectors ─────────────────────────────────────────────────────────────────

#[test]
fn sector_headers_tell_their_place() {
    assert_eq!(from_bcd(0x59), 59);
    assert_eq!(sector_lba_at(&mut MemSource::new(raw_sector(2, 0x16, 1, 0)), 0), 16);
    assert_eq!(sector_lba_at(&mut MemSource::new(raw_sector(1, 0, 1, 0)), 0), 0);
    let mut track = Vec::new();
    for k in 0..17 {
        let mut s = raw_sector(2, k, 1, 0);
        if k == 16 {
            s[16..23].copy_from_slice(b"\x01CD001\x01");
        }
        track.extend(s);
    }
    assert!(has_pvd(&mut MemSource::new(track.clone()), 0, 16));
    assert!(!has_pvd(&mut MemSource::new(track.clone()), 0, 24));
    let mut shifted = vec![0; 2 * 2352];
    shifted.extend(&track);
    assert_eq!(align_to_pvd(&mut MemSource::new(shifted), 0, 2352, 16), Some(4704));
    assert_eq!(align_to_pvd(&mut MemSource::new(vec![0; 60000]), 0, 2352, 16), None);
}

#[test]
fn scrambling_again_gives_the_sector_back() {
    let table: Vec<u8> = (0..2340u32).map(|i| (i * 7 + 1) as u8).collect();
    let s = raw_sector(2, 0, 2, 9);
    let d = descramble_sector(&s, &table);
    assert_eq!(d[..12], s[..12]);
    assert_eq!(d[12], s[12] ^ 1);
    assert_eq!(descramble_sector(&d, &table), s);
    assert_eq!(read_scrambled(&d, &table, 24, 100), vec![9; 100]);
    assert_eq!(raw_payload(&d, true, &table, 2336), s[16..]);
    assert_eq!(raw_payload(&s, false, &table, 10), s[16..26]);
    let table = dvd_scramble_table();
    let df: Vec<u8> = (0..2064u32).map(|i| (i % 256) as u8).collect();
    let once = dvd_descramble(&df, &table);
    assert_ne!(once, df);
    assert_eq!(dvd_descramble(&once, &table), df);
    let s = vec![7; 2048];
    assert_eq!(bd_descramble(&bd_descramble(&s, 0x100005), 0x100005), s);
    assert_ne!(bd_descramble(&s, 0x100005), s);
}

#[test]
fn a_disc_in_several_files_is_read_by_track() {
    let t = |lba: u64, n: u64| DataTrack {
        bin_path: "x".to_string(),
        track_offset: 0,
        user_data_offset: 16,
        stride: 2352,
        lba_offset: lba,
        descramble: false,
        sector_count: n,
    };
    let r = MultiTrackBinReader::for_tracks(&vec![t(0, 100), t(1000, 50)]);
    assert_eq!(r.locate(20), (0, 20));
    assert_eq!(r.locate(1010), (1, 10));
    assert_eq!(r.locate(5000), (0, 5000));
    assert_eq!(r.read_place(1001), (1, 2352 + 16, false));
    let one = MultiTrackBinReader::single(64, 24, 2352, 150, false);
    assert_eq!(one.locate(160), (0, 10));
    assert_eq!(one.locate(5), (0, 5));
    assert_eq!(one.read_place(150), (0, 64 + 24, false));
}

// ── CUE ─────────────────────────────────────────────────────────────────────

const SHEET: &str = "FILE \"a.bin\" BINARY\n  TRACK 01 MODE1/2352\n    INDEX 01 00:00:00\n  TRACK 02 AUDIO\n    INDEX 00 00:02:00\n    INDEX 01 00:04:00\nREM SESSION 02\nFILE \"b.bin\" BINARY\n  TRACK 03 MODE2/2352\n    INDEX 01 00:00:10\n";

#[test]
fn times_are_counted_in_sectors() {
    assert_eq!(msf_to_sectors(&chars("01:02:03")), Some(4653));
    assert_eq!(msf_to_sectors(&chars("1:2")), None);
    assert_eq!(msf_to_sectors(&chars("a:0:0")), None);
    // Every sector of 64 bits has a time, and none beyond.
    assert_eq!(msf_to_sectors(&chars("0:0:7843003093840796")), Some(7843003093840796));
    assert_eq!(msf_to_sectors(&chars("0:0:18446744073709551615")), Some(u64::MAX));
    assert_eq!(msf_to_sectors(&chars("0:1:18446744073709551615")), None);
}

fn dir(path: &str) -> HostDir {
    HostDir { path: path.to_string(), backslash: false }
}

#[test]
fn late_tracks_are_listed_and_hold_no_data() {
    let late = "FILE \"a\" BINARY\nTRACK 01 MODE1/2352\nINDEX 01 0:0:7843003093840796\n";
    let raw = get_cue_tracks(late);
    assert_eq!(raw[0].start_lba, 7843003093840796);
    assert_eq!(list_cue_tracks(&dir("/d"), &raw, &[Some(4704)], &[])[0].start_lba, 7843003093840796);
    assert!(parse_cue_for_data_track(late).last.is_none());
    assert!(parse_cue_all_data_tracks(&dir("/d"), late).is_empty());
    let last = "FILE \"a\" BINARY\nTRACK 01 MODE1/2352\nINDEX 01 0:0:7843003093840795\n";
    assert_eq!(parse_cue_for_data_track(last).last.unwrap().index, 7843003093840795);
    let gap = "FILE \"a\" BINARY\nTRACK 01 AUDIO\nINDEX 00 0:0:1\nINDEX 01 0:0:7843003093840796\n";
    let scan = parse_cue_for_data_track(gap);
    assert_eq!((scan.pregaps[0].from, scan.pregaps[0].to), (1, 7843003093840796));
}

#[test]
fn files_are_the_same_by_their_components() {
    let d = dir("/d");
    assert!(equal_files(&d, "a.bin", "./a.bin"));
    assert!(equal_files(&d, "e//a.bin", "e/a.bin"));
    assert!(equal_files(&d, "e/./a.bin", "e/a.bin/"));
    assert!(equal_files(&d, "/d/a.bin", "a.bin"));
    assert!(!equal_files(&d, "a.bin", "A.bin"));
    assert!(!equal_files(&d, "e/../a.bin", "a.bin"));
    assert!(!equal_files(&d, "e\\a.bin", "e/a.bin"));
    // At the start of a path a dot is a component of its own.
    assert!(!equal_files(&dir(""), "a.bin", "./a.bin"));
    assert!(equal_files(&dir(""), "./a.bin", ".//a.bin"));
    let w = HostDir { path: "C:\\d".to_string(), backslash: true };
    assert!(equal_files(&w, "e\\a.bin", "e/a.bin"));
    assert!(equal_paths("/a//b/", "/a/./b"));
    assert!(!equal_paths("/a/b", "a/b"));
}

#[test]
fn a_file_under_two_names_is_one_file() {
    let sheet = "FILE \"a.bin\" BINARY\nTRACK 01 MODE1/2352\nINDEX 01 00:00:00\nFILE \"./a.bin\" BINARY\nTRACK 02 MODE1/2352\nINDEX 01 00:00:02\n";
    let none = BinFacts { lba_offset: 0, len: None };
    let scan = parse_cue_for_data_track(sheet);
    // The last track stands although it holds no volume: both are in one file.
    let t = choose_data_track(&dir("/d"), &scan, none, none, false, &[]).ok().unwrap();
    assert_eq!((t.bin_path.as_str(), t.track_offset), ("./a.bin", 4704));
    let t = choose_data_track(&dir(""), &scan, none, none, false, &[]).ok().unwrap();
    assert_eq!((t.bin_path.as_str(), t.track_offset), ("a.bin", 0));
    let raw = get_cue_tracks(sheet);
    assert_eq!(list_cue_tracks(&dir("/d"), &raw, &[Some(23520), Some(23520)], &[])[0].num_sectors, 2);
    assert_eq!(list_cue_tracks(&dir(""), &raw, &[Some(23520), Some(23520)], &[])[0].num_sectors, 10);
    let twice = "FILE \"a.bin\" BINARY\nTRACK 01 MODE1/2352\nINDEX 01 00:00:00\nFILE \"./a.bin\" BINARY\nTRACK 02 MODE1/2352\nINDEX 01 00:00:00\n";
    assert_eq!(parse_cue_all_data_tracks(&dir("/d"), twice).len(), 1);
    assert_eq!(parse_cue_all_data_tracks(&dir(""), twice).len(), 2);
}

#[test]
fn the_tracks_of_a_sheet_are_listed() {
    let raw = get_cue_tracks(SHEET);
    assert_eq!(raw.len(), 3);
    let v = list_cue_tracks(&dir("/d"), &raw, &[Some(705600), Some(705600), Some(4704)], &[false, true, false]);
    assert_eq!(v.len(), 4);
    assert_eq!((v[0].number, v[0].mode.as_str(), v[0].start_lba, v[0].num_sectors), (0, "CDI/PREGAP", 150, 150));
    assert_eq!((v[1].number, v[1].is_data, v[1].num_sectors, v[1].session), (1, true, 300, 1));
    assert_eq!((v[2].number, v[2].is_data, v[2].num_sectors, v[2].start_lba), (2, false, 300, 300));
    assert_eq!((v[3].number, v[3].bin_path.as_str(), v[3].num_sectors, v[3].session), (3, "b.bin", 2, 2));
}

#[test]
fn the_data_track_of_a_sheet_is_chosen() {
    let none = BinFacts { lba_offset: 0, len: None };
    let scan = parse_cue_for_data_track(SHEET);
    let t = choose_data_track(&dir("/d"), &scan, none, BinFacts { lba_offset: 7, len: Some(30 * 2352) }, true, &[]).ok().unwrap();
    assert_eq!((t.bin_path.as_str(), t.track_offset, t.user_data_offset, t.lba_offset), ("b.bin", 23520, 24, 7));
    assert_eq!(t.sector_count, 20);
    let t = choose_data_track(&dir("/d"), &scan, BinFacts { lba_offset: 0, len: None }, none, false, &[]).ok().unwrap();
    assert_eq!((t.bin_path.as_str(), t.track_offset, t.user_data_offset), ("a.bin", 0, 16));
    let audio = parse_cue_for_data_track("FILE \"a\" BINARY\nTRACK 01 AUDIO\nINDEX 01 00:00:00\n");
    assert_eq!(no_track(choose_data_track(&dir("/d"), &audio, none, none, false, &[])), "No data track found in CUE sheet");
    let found = parse_cue_all_data_tracks(&dir("/d"), SHEET);
    let all = all_data_tracks(&found, &[none, none]).ok().unwrap();
    assert_eq!(all.len(), 2);
    assert_eq!(all[1].track_offset, 23520);
    assert_eq!(all_data_tracks(&Vec::new(), &[]).err().unwrap(), "No data track found in CUE sheet");
}

// ── Other sheets and headers ────────────────────────────────────────────────

#[test]
fn a_nero_image_names_its_data_track() {
    let mut image = raw_sector(2, 5, 1, 3);
    let chunks = image.len() as u32;
    let mut dao = vec![0; 24];
    let mut entry = vec![0; 28];
    entry[14] = 2;
    dao.extend(&entry);
    entry[14] = 0;
    entry[20..24].copy_from_slice(&0u32.to_be_bytes());
    dao.extend(&entry);
    image.extend(b"DAOI");
    image.extend((dao.len() as u32).to_be_bytes());
    image.extend(&dao);
    image.extend(b"END!\0\0\0\0");
    image.extend(b"NERO");
    let at = image.len();
    image.splice(at - 4..at - 4, chunks.to_be_bytes());
    let t = parse_nrg_for_data_track(&mut MemSource::new(image.clone()), "n").ok().unwrap();
    assert_eq!((t.track_offset, t.user_data_offset, t.stride, t.lba_offset), (0, 16, 2352, 5));
    let fail = |v: Vec<u8>| no_track(parse_nrg_for_data_track(&mut MemSource::new(v), "n"));
    assert_eq!(fail(vec![0; 11]), "File too small for NRG");
    assert_eq!(fail(vec![0; 12]), "Not a Nero (.nrg) image");
    assert_eq!(fail([vec![0; 4], 99u32.to_be_bytes().to_vec(), b"NERO".to_vec()].concat()), "Invalid NRG chunk offset");
    let mut audio = image;
    let second = audio.len() - 8 - 8 - 28 + 14;
    audio[second] = 2;
    assert_eq!(fail(audio), "No data track found in NRG");
}

#[test]
fn an_easy_cd_creator_image_names_its_data_track() {
    let mut v = b"RIFF\0\0\0\0imag".to_vec();
    v.extend(b"skip\x01\0\0\0\0\0");
    v.extend(b"ofs ");
    v.extend(54u32.to_le_bytes());
    v.extend([0; 8]);
    v.extend(2u16.to_le_bytes());
    v.extend(b"aaaabbbbadio\0\0\0\0dddddd");
    v.extend(b"aaaabbbbinfo");
    let offset = v.len() as u32 + 10 - 12;
    v.extend(offset.to_le_bytes());
    v.extend(b"dddddd");
    v.extend(raw_sector(2, 0, 2, 0));
    let t = parse_cif_for_data_track(&mut MemSource::new(v.clone()), "c").ok().unwrap();
    assert_eq!((t.track_offset, t.user_data_offset, t.stride), (offset as u64 + 12, 24, 2352));
    let fail = |v: Vec<u8>| no_track(parse_cif_for_data_track(&mut MemSource::new(v), "c"));
    assert_eq!(fail(vec![0; 11]), "Not a CIF file");
    assert_eq!(fail(vec![0; 12]), "Not a CIF (Easy CD Creator) file");
    assert_eq!(fail(v[..22].to_vec()), "CIF: no data track found");
}

/// A descriptor with one session of two tracks: audio, then data.
fn descriptor() -> Vec<u8> {
    let mut d = vec![0; 0x60 + 24 + 160 + 16];
    d[..16].copy_from_slice(b"MEDIA DESCRIPTOR");
    put16(&mut d, 0x14, 1);
    put32(&mut d, 0x50, 0x60);
    d[0x60 + 0x0A] = 2;
    put32(&mut d, 0x60 + 0x14, 0x78);
    for (k, mode, number) in [(0, 0xA9, 2), (1, 0xAA, 1)] {
        let tb = 0x78 + k * 80;
        d[tb] = mode;
        d[tb + 4] = number;
        put16(&mut d, tb + 0x10, 2352);
        put32(&mut d, tb + 0x24, 10 * (k as u32 + 1));
        put32(&mut d, tb + 0x28, 2352);
        put32(&mut d, tb + 0x0C, 0x78 + 160);
    }
    put32(&mut d, 0x78 + 160 + 4, 77);
    d
}

#[test]
fn an_alcohol_descriptor_lists_its_tracks() {
    let d = descriptor();
    let mut mdf = raw_sector(2, 0, 1, 0);
    mdf.extend(raw_sector(2, 1, 1, 0));
    let t = parse_mds_for_data_track(&d, &mut MemSource::new(mdf), "m.mdf", true, None).ok().unwrap();
    assert_eq!((t.track_offset, t.user_data_offset, t.stride, t.lba_offset), (2352, 16, 2352, 1));
    let v = get_mds_track_list(&d, "m.mdf", None).ok().unwrap();
    assert_eq!(v.len(), 2);
    assert_eq!((v[0].number, v[0].is_data, v[0].mode.as_str(), v[0].start_lba), (1, true, "MODE1/2352", 20));
    assert_eq!((v[1].number, v[1].is_data, v[1].mode.as_str(), v[1].num_sectors), (2, false, "AUDIO", 77));
    let parse = |d: &[u8], exists: bool| {
        parse_mds_for_data_track(d, &mut MemSource::new(Vec::new()), "m.mdf", exists, Some(4096))
    };
    assert_eq!(no_track(parse(&[0; 96], true)), "Not a valid MDS file");
    assert_eq!(no_track(parse(&d, false)), "MDF file not found: m.mdf");
    let mut dvd = d.clone();
    dvd[0x12] = 0x10;
    let t = parse(&dvd, true).ok().unwrap();
    assert_eq!((t.stride, t.sector_count), (2048, 2));
    let mut bad = d.clone();
    put32(&mut bad, 0x50, 9999);
    assert_eq!(no_track(parse(&bad, true)), "Invalid MDS session offset");
    let mut audio = d;
    audio[0x78 + 80] = 0xA9;
    assert_eq!(no_track(parse(&audio, true)), "No data track found in MDS");
}

#[test]
fn a_clonecd_sheet_names_its_data_track() {
    assert_eq!(parse_int_ccd(&chars(" 0x1f ")), 31);
    assert_eq!(parse_int_ccd(&chars("-7")), -7);
    assert_eq!(parse_int_ccd(&chars("x")), 0);
    let sheet = "[CloneCD]\n[Entry 0]\nPoint=0xa0\nControl=0x04\nPLBA=9\n[Entry 1]\nPoint=0x01\nControl=0x00\nPLBA=0\n[Entry 2]\nPoint=0x02\nControl=0x04\nPLBA=1\n";
    let mut img = vec![0; 2352];
    img.extend(raw_sector(2, 1, 2, 0));
    let t = parse_ccd_for_data_track(sheet, &mut MemSource::new(img), "a.img", true).ok().unwrap();
    assert_eq!((t.track_offset, t.user_data_offset, t.lba_offset), (2352, 24, 1));
    let empty = || MemSource::new(Vec::new());
    assert_eq!(no_track(parse_ccd_for_data_track(sheet, &mut empty(), "a.img", false)), "IMG file not found: a.img");
    assert_eq!(no_track(parse_ccd_for_data_track("", &mut empty(), "a.img", true)), "No data track found in CCD");
}

#[test]
fn a_dreamcast_sheet_names_its_data_track() {
    let rows = read_rows("3\n1 0 4 2352 \"t1.bin\" 0\n2 600 0 2352 t2.raw 0\n3 45000 4 2048 t3.iso 0\nbad line\n").ok().unwrap();
    assert_eq!(rows.len(), 3);
    assert_eq!(rows[0].file, "t1.bin");
    let probe = |volume: Option<u64>| Some(GdiProbe { user_data_offset: 0, sector_count: 9, volume_start: volume });
    let t = parse_gdi_for_data_track(&rows, &[probe(Some(0)), None, probe(None)]).ok().unwrap();
    assert_eq!((t.bin_path.as_str(), t.lba_offset, t.stride), ("t1.bin", 0, 2352));
    let t = parse_gdi_for_data_track(&rows, &[probe(Some(0)), None, probe(Some(32))]).ok().unwrap();
    assert_eq!((t.bin_path.as_str(), t.lba_offset, t.stride, t.track_offset), ("t3.iso", 45000, 2048, 32));
    assert_eq!(no_track(parse_gdi_for_data_track(&rows, &[None, None, None])), "No data track found in GDI image");
    assert_eq!(read_rows(" \n").err().unwrap(), "GDI: missing track count");
    let p = probe_file(&mut MemSource::new(raw_sector(2, 0, 2, 0)), Some(2352 * 4), 2352);
    assert_eq!((p.user_data_offset, p.sector_count, p.volume_start), (24, 4, None));
    let file = |udo: u64| GdiFile { user_data_offset: udo, len: Some(2352 * 3) };
    let v = get_gdi_tracks(&rows, &[file(16), file(0), file(0)]).ok().unwrap();
    assert_eq!(v.len(), 3);
    assert_eq!((v[0].number, v[0].is_data, v[0].num_sectors), (1, true, 3));
    assert_eq!((v[1].is_data, v[1].mode.as_str(), v[1].start_lba), (false, "AUDIO", 0));
    assert_eq!((v[1].session, v[2].session, v[2].mode.as_str()), (1, 2, "MODE1/2048"));
    assert_eq!(get_gdi_tracks(&Vec::new(), &[]).err().unwrap(), "No tracks found in GDI");
}

/// A BlindWrite descriptor with one audio and one data block.
fn blind_descriptor(kind: u32) -> Vec<u8> {
    let mut d = vec![0; 260];
    d[..16].copy_from_slice(b"BWT5 STREAM SIGN");
    d.extend(1u32.to_le_bytes());
    d.extend([b'x', 0]);
    d.extend(2u32.to_le_bytes());
    for (k, at) in [(1u32, 0u32), (kind, 2352)] {
        let mut b = vec![0; 52];
        put32(&mut b, 0, k);
        put32(&mut b, 0x18, at);
        put32(&mut b, 0x30, 4);
        d.extend(b);
        d.extend([b'd', 0, 0, 0]);
        d.extend([0; 4]);
    }
    d
}

#[test]
fn a_blindwrite_descriptor_names_its_data_file() {
    let b = read_first_block(&blind_descriptor(2)).ok().unwrap();
    assert_eq!((b.offset, b.stride, b.user_data_offset), (2352, 2352, 16));
    assert_eq!(block_file(&b), Some("d".to_string()));
    assert_eq!(companion_ext("B5T"), "b5i");
    assert_eq!(companion_ext("b6t"), "b6i");
    let mut bin = vec![0; 2352];
    bin.extend(raw_sector(2, 3, 1, 0));
    let t = make_track(&b, &mut MemSource::new(bin), "d.b5i");
    assert_eq!((t.bin_path.as_str(), t.track_offset, t.lba_offset), ("d.b5i", 2352, 3));
    assert_eq!(read_first_block(&blind_descriptor(6)).ok().unwrap().stride, 2048);
    assert_eq!(read_first_block(&blind_descriptor(3)).ok().unwrap().user_data_offset, 24);
    let fail = |d: &[u8]| read_first_block(d).err().unwrap();
    assert_eq!(fail(&[0; 260]), "Not a BlindWrite 5/6 file");
    assert_eq!(fail(&blind_descriptor(2)[..262]), "BlindWrite: truncated after blobs");
    assert_eq!(fail(&blind_descriptor(2)[..268]), "BlindWrite: truncated before dataBlockCount");
    assert_eq!(fail(&blind_descriptor(0)), "BlindWrite: no data track found");
}

#[test]
fn a_file_that_is_no_disc_juggler_image_is_refused() {
    let list = get_cdi_track_list(&mut MemSource::new(vec![0; 100]), 100, "c.cdi");
    assert!(list.is_err());
    assert!(parse_cdi_for_data_track(&mut MemSource::new(vec![0; 4]), 4, "c.cdi").is_err());
}

/// The description of a track in an image of the oldest kind.
fn cdi_track(mode: u32, pregap: u32, n: u32, start: u32, size: u32) -> Vec<u8> {
    let mut v = vec![0; 4 + 20 + 4];
    v.push(3);
    v.extend(b"abc");
    v.extend([0; 19 + 4 + 2]);
    v.extend(pregap.to_le_bytes());
    v.extend(n.to_le_bytes());
    v.extend([0; 6]);
    v.extend(mode.to_le_bytes());
    v.extend([0; 12]);
    v.extend(start.to_le_bytes());
    v.extend((pregap + n).to_le_bytes());
    v.extend([0; 16]);
    v.extend(size.to_le_bytes());
    v.extend([0; 29]);
    v
}

#[test]
fn a_disc_juggler_image_lists_its_tracks() {
    let mut v = vec![0; 2 * 2352 + (1 + 20) * 2048];
    let pvd = 2 * 2352 + 2048 + 18 * 2048;
    v[pvd..pvd + 7].copy_from_slice(b"\x01CD001\x01");
    let at = v.len() as u32;
    v.extend([1, 0, 2, 0]);
    v.extend(cdi_track(0, 0, 2, 0, 2));
    v.extend(cdi_track(1, 1, 20, 3, 0));
    v.extend([0; 12]);
    v.extend(0x8000_0004u32.to_le_bytes());
    v.extend(at.to_le_bytes());
    let len = v.len() as u64;
    let t = get_cdi_track_list(&mut MemSource::new(v.clone()), len, "c.cdi").ok().unwrap();
    let lines: Vec<(u32, &str, u64, u64)> =
        t.iter().map(|t| (t.number, t.mode.as_str(), t.start_lba, t.num_sectors)).collect();
    assert_eq!(lines, [(1, "AUDIO", 0, 2), (2, "MODE1/2048", 3, 20)]);
    let d = parse_cdi_for_data_track(&mut MemSource::new(v.clone()), len, "c.cdi").ok().unwrap();
    assert_eq!(d.track_offset, 2 * 2352 + 2048 + 2 * 2048);
    assert_eq!((d.stride, d.user_data_offset, d.lba_offset, d.sector_count), (2048, 0, 3, 20));
    let n = v.len();
    v[n - 8] = 3;
    assert_eq!(
        parse_cdi_for_data_track(&mut MemSource::new(v.clone()), len, "c").err().unwrap(),
        "Not a CDI image (version 0x80000003)"
    );
    v[n - 8] = 4;
    v[n - 4..].fill(0);
    assert_eq!(
        parse_cdi_for_data_track(&mut MemSource::new(v), len, "c").err().unwrap(),
        "Bad CDI: zero header offset"
    );
}

// ── Packed images ───────────────────────────────────────────────────────────

/// The head of a chunk of `n` units.
fn ecm_head(kind: u8, n: u32) -> Vec<u8> {
    let mut c = n - 1;
    let mut out = vec![kind | ((c & 31) << 2) as u8];
    c >>= 5;
    while c > 0 {
        *out.last_mut().unwrap() |= 128;
        out.push((c & 127) as u8);
        c >>= 7;
    }
    out
}

#[test]
fn a_count_ends_with_the_byte_whose_high_bit_is_clear() {
    let e = EcmReader::open(b"ECM\0\x00\x41\xFF\xFF\xFF\xFF").ok().unwrap();
    assert_eq!(e.sectors.len(), 1);
    assert_eq!(e.sectors[0][0], 0x41);
    assert_eq!(e.sectors[0][1..], [0; 2351]);
    // Thirty-three bytes take a second byte of count.
    let mut raw = b"ECM\0\x80\x01".to_vec();
    raw.extend([7; 33]);
    let e = EcmReader::open(&raw).ok().unwrap();
    assert_eq!(e.sectors[0][..34], [&[7; 33][..], &[0]].concat());
}

#[test]
fn stripped_sectors_are_rebuilt() {
    let mut raw = b"ECM\0".to_vec();
    raw.extend(ecm_head(0, 2353));
    raw.extend(vec![5; 2353]);
    raw.extend(ecm_head(1, 1));
    raw.extend([1, 2, 3, 4]);
    raw.extend(vec![6; 2048]);
    raw.extend(ecm_head(2, 1));
    raw.extend([1, 2, 3, 4]);
    raw.extend(vec![7; 2048]);
    raw.extend(ecm_head(3, 1));
    raw.extend([1, 2, 3, 4]);
    raw.extend(vec![8; 2324]);
    raw.extend([255; 4]);
    let e = EcmReader::open(&raw).ok().unwrap();
    assert_eq!(e.sectors.len(), 5);
    assert_eq!(e.sectors[0], vec![5; 2352]);
    assert_eq!(e.sectors[1][..2], [5, 0]);
    assert_eq!(e.sectors[2][..17], [&SYNC[..], &[1, 2, 3, 1, 6]].concat());
    assert_eq!(e.sectors[3][..25], [&SYNC[..], &[0, 0, 0, 2, 1, 2, 3, 4, 1, 2, 3, 4, 7]].concat());
    assert_eq!(e.sectors[4][2351 - 4], 8);
    assert_eq!(e.sectors[4][2348..], [0; 4]);
    assert_eq!(e.read_at(2, 2048), Ok(vec![6; 2048]));
    assert_eq!(e.read_at(3, 10), Ok(vec![7; 10]));
    assert_eq!(e.read_at(5, 10), Err("ECM: LBA out of range".to_string()));
    assert_eq!(e.read_raw_sector(2, 9), Vec::<u8>::new());
    assert_eq!(e.read_raw_sector(3, 9), [1, 2, 3, 4, 1, 2, 3, 4, 7]);
    let fail = |v: &[u8]| EcmReader::open(v).err().unwrap();
    assert_eq!(fail(b"ECM1"), "Not an ECM file");
    assert_eq!(fail(b"ECM\0\x04"), "ECM: truncated type-0 data");
    assert_eq!(fail(b"ECM\0\x01abc"), "ECM: truncated type-1 header");
    assert_eq!(fail(b"ECM\0\x01abcde"), "ECM: truncated type-1 data");
    assert_eq!(fail(b"ECM\0\x02abc"), "ECM: truncated type-2 sub-hdr");
    assert_eq!(fail(b"ECM\0\x02abcde"), "ECM: truncated type-2 data");
    assert_eq!(fail(b"ECM\0\x03abc"), "ECM: truncated type-3 sub-hdr");
    assert_eq!(fail(b"ECM\0\x03abcde"), "ECM: truncated type-3 data");
}

/// A UIF image of one packed run of two sectors and one of zeros.
fn uif() -> Vec<u8> {
    let run: Vec<u8> = (0..4096u32).map(|i| (i % 253) as u8).collect();
    let packed = deflated(&run);
    let mut out = packed.clone();
    let mut table = Vec::new();
    for (offset, zsize, sector, size, typ) in
        [(0u64, packed.len() as u32, 0u32, 2u32, 5u32), (0, 0, 2, 1, 3)]
    {
        table.extend(offset.to_le_bytes());
        for n in [zsize, sector, size, typ] {
            table.extend(n.to_le_bytes());
        }
    }
    let stored = deflated(&table);
    let at = out.len() as u64;
    out.extend(b"blhr");
    out.extend((stored.len() as u32 + 8).to_le_bytes());
    out.extend([0; 4]);
    out.extend(2u32.to_le_bytes());
    out.extend(&stored);
    let mut f = vec![0; 56];
    f[..4].copy_from_slice(b"bbis");
    put32(&mut f, 0x14, 2048);
    f[0x1C..0x24].copy_from_slice(&at.to_le_bytes());
    out.extend(f);
    out
}

#[test]
fn runs_of_sectors_are_unpacked() {
    let image = uif();
    let len = image.len() as u64;
    let mut u = UifReader::open(MemSource::new(image.clone()), len).ok().unwrap();
    assert_eq!(u.total_sectors(), 3);
    assert_eq!(u.find_entry(2), Some(1));
    let want: Vec<u8> = (2048..4096u32).map(|i| (i % 253) as u8).collect();
    assert_eq!(u.read_at(1, 2048), Ok(want));
    assert_eq!(u.read_at(2, 2048), Ok(vec![0; 2048]));
    assert_eq!(u.read_at(3, 2048), Err("UIF: LBA not found".to_string()));
    let fail = |v: Vec<u8>| {
        let len = v.len() as u64;
        UifReader::open(MemSource::new(v), len).err().unwrap()
    };
    assert_eq!(fail(vec![0; 55]), "UIF: file too small");
    assert_eq!(fail(vec![0; 56]), "Not a UIF file");
    let mut bad = image.clone();
    let end = bad.len();
    put32(&mut bad, end - 56 + 0x14, 0);
    assert_eq!(fail(bad), "UIF: sector_size=0");
    let mut bad = image;
    put32(&mut bad, end - 56 + 0x1C, 0);
    assert_eq!(fail(bad), "UIF: invalid BLHR signature");
}

#[test]
fn compressed_images_are_refused_by_their_headers() {
    let fail = |v: Vec<u8>| CsoReader::open(MemSource::new(v)).err().unwrap();
    assert_eq!(fail(Vec::new()), "CSO header: failed to fill whole buffer");
    assert_eq!(fail(vec![0; 24]), "Not a CSO file");
    let mut v = vec![0; 24];
    v[..4].copy_from_slice(b"CISO");
    assert_eq!(fail(v.clone()), "Invalid CSO: block_size=0");
    v[16] = 1;
    v[8] = 1;
    assert_eq!(fail(v), "CSO index: failed to fill whole buffer");
}

#[test]
fn a_skeleton_reads_up_to_its_end() {
    let mut s = SkeletonReader::open(MemSource::new(vec![1; 3000]), 3000);
    assert_eq!((s.sector_size, s.user_data_offset), (2048, 0));
    assert_eq!(s.read_at(0, 2048), Ok(vec![1; 2048]));
    assert_eq!(s.read_at(1, 2048), Ok(vec![1; 952]));
    assert_eq!(s.read_at(5, 4), Ok(Vec::new()));
}

// ── Measurements ────────────────────────────────────────────────────────────

#[test]
fn the_finest_measurement_is_used() {
    let coarse = DpmBlock { start_sector: 0, resolution: 100, data: vec![1, 2, 3] };
    let fine = DpmBlock { start_sector: 100, resolution: 10, data: vec![7, 8] };
    assert_eq!(coarse.end_sector(), 300);
    assert!(coarse.covers(299) && !coarse.covers(300));
    assert_eq!(coarse.sample_at(150), Some(2));
    let d = DpmData { blocks: vec![coarse, fine] };
    assert_eq!(d.sample_at(115), Some(8));
    assert_eq!(d.sample_at(120), Some(2));
    assert_eq!(d.sample_at(300), None);
    let mut raw = vec![0; 0x58];
    raw[..16].copy_from_slice(b"MEDIA DESCRIPTOR");
    put32(&mut raw, 0x54, 0x58);
    for n in [1u32, 0x60, 0, 5, 50, 2, 11, 12] {
        raw.extend(n.to_le_bytes());
    }
    let d = get_dpm_data("a.mds", &raw).unwrap();
    assert_eq!(d.blocks.len(), 1);
    assert_eq!((d.blocks[0].start_sector, d.blocks[0].resolution, d.blocks[0].data.clone()), (5, 50, vec![11, 12]));
    assert!(get_dpm_data("a.mds", &[0; 99]).is_none());
    assert!(get_dpm_data("a.iso", &raw).is_none());
}

// ── Scrambled dumps ─────────────────────────────────────────────────────────

#[test]
fn a_dump_is_found_by_its_sectors_or_its_log() {
    assert_eq!(parse_log_write_offset("x\ndisc write offset: -12\n"), -12);
    assert_eq!(parse_log_write_offset("nothing"), 0);
    let table: Vec<u8> = (0..2340u32).map(|i| (i * 5 + 3) as u8).collect();
    let mut dump = vec![0; 1000];
    for k in 0..20u8 {
        let bcd = k / 10 * 16 + k % 10;
        let plain = raw_sector(2, bcd, 1, 0);
        dump.extend(descramble_sector(&plain, &table));
    }
    let len = dump.len() as u64;
    let mut source = MemSource::new(dump);
    assert_eq!(locate_dump(&mut source, len, &table, ""), (1000, 16));
    let mut cache = AnchorCache::new();
    let t = parse_scram_for_data_track(&mut source, len, "d.scram", &table, "", &mut cache);
    assert_eq!((t.track_offset, t.user_data_offset, t.descramble), (1000, 16, true));
    assert_eq!(cache.get("d.scram", len), Some((1000, 16)));
    assert_eq!(cache.get("d.scram", len + 1), None);
    assert_eq!(cache.get("d.scram/.", len), Some((1000, 16)));
    assert_eq!(cache.get("/d.scram", len), None);
    // Without sectors to go by, the log says by how much the dump is shifted.
    let (start, offset) = locate_dump(&mut MemSource::new(vec![0; 10000]), 10000, &table, "");
    assert_eq!((start, offset), (45150 * 2352, 16));
}
