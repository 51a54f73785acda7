use disc_xplorer::detection::{
    chd_stride, detect_filesystems_chd, detect_filesystems_in_bin, detect_filesystems_raw,
    gcm_kind_label, locate_opera, open_chd, parse_mdx_as_data_track, GcmKind, Probes,
};
use disc_xplorer::extract::{plan_tree, take_file, ExtractCancelState};
use disc_xplorer::filesystems::{get_disc_filesystems, ImageFacts};
use disc_xplorer::iso_listing::{
    check_file, collect_entries, streamed_sectors, xa_aware_size, IsoFound, IsoItem,
};
use disc_xplorer::iso_volume::{el_torito_extract, el_torito_list, path_table_list, TrackLayout};
use disc_xplorer::path::HostDir;
use disc_xplorer::ps3::eboot_lba;
use disc_xplorer::routing::{
    choose_reader, fs_matches, fs_matches_gcm, fs_matches_udf, gather_facts, host_line, image_format,
    list_disc_contents, name_space, save_directory, save_file, sort_host_lines, uses_all_files,
    Facts, ImageFormat, NameSpace, Reader, Request,
};
use disc_xplorer::cue_sheet::CueTrack;
use disc_xplorer::source::MemSource;
use disc_xplorer::track::DataTrack;
use disc_xplorer::wiiu::{
    find_gm_partition_base, list_partitions, listing_place, load_title_key, make_label,
    parse_wiiu_fst, plan_wiiu_dir, source_place, unknown_place, unwrap_title_key,
    wiiu_fst_extract_file, wiiu_fst_list_dir, wux_disc_label, Place,
};
use disc_xplorer::xdvdfs_filesystem::{find_node, list_dir_table, XDVDFSFs};

fn put32(v: &mut [u8], at: usize, n: u32) {
    v[at..at + 4].copy_from_slice(&n.to_le_bytes());
}

fn put32_be(v: &mut [u8], at: usize, n: u32) {
    v[at..at + 4].copy_from_slice(&n.to_be_bytes());
}

fn plain() -> TrackLayout {
    TrackLayout { track_offset: 0, user_data_offset: 0, stride: 2048, lba_offset: 0, descramble: false }
}

fn none() -> Probes {
    Probes { cdi: false, fatx: false, hfs: false, gcm: None }
}

/// A volume with a Joliet descriptor, a boot record, a boot catalog and a path table.
fn iso() -> Vec<u8> {
    let mut v = vec![0; 40 * 2048];
    let pvd = 16 * 2048;
    v[pvd..pvd + 7].copy_from_slice(b"\x01CD001\x01");
    put32(&mut v, pvd + 132, 28);
    put32(&mut v, pvd + 140, 20);
    put32(&mut v, pvd + 158, 22);
    let boot = 17 * 2048;
    v[boot..boot + 6].copy_from_slice(b"\0CD001");
    v[boot + 7..boot + 30].copy_from_slice(b"EL TORITO SPECIFICATION");
    put32(&mut v, boot + 71, 21);
    let svd = 18 * 2048;
    v[svd..svd + 6].copy_from_slice(b"\x02CD001");
    v[svd + 88..svd + 91].copy_from_slice(b"%/E");
    v[19 * 2048..19 * 2048 + 6].copy_from_slice(b"\xffCD001");
    let table = 20 * 2048;
    v[table] = 1;
    put32(&mut v, table + 2, 22);
    v[table + 6] = 1;
    let second = table + 10;
    v[second] = 3;
    put32(&mut v, second + 2, 23);
    v[second + 6] = 1;
    v[second + 8..second + 11].copy_from_slice(b"SUB");
    let cat = 21 * 2048;
    v[cat] = 1;
    v[cat + 30..cat + 32].copy_from_slice(&[0x55, 0xAA]);
    v[cat + 32] = 0x88;
    v[cat + 38] = 5;
    put32(&mut v, cat + 40, 25);
    for k in 0..2560 {
        v[25 * 2048 + k] = (k % 256) as u8;
    }
    v
}

#[test]
fn the_views_of_a_volume_are_found() {
    let image = iso();
    let len = image.len() as u64;
    assert_eq!(
        detect_filesystems_raw(MemSource::new(image.clone()), len, &none()),
        ["ISO 9660", "El Torito", "Joliet", "Path Table"]
    );
    let mut p = none();
    p.hfs = true;
    assert!(detect_filesystems_raw(MemSource::new(image.clone()), len, &p).contains(&"HFS".to_string()));
    p.cdi = true;
    assert_eq!(detect_filesystems_in_bin(MemSource::new(image.clone()), len, 0, 0, 0, false, &[], &p), ["CD-i"]);
    p.cdi = false;
    p.gcm = Some(GcmKind::Wii);
    assert_eq!(detect_filesystems_in_bin(MemSource::new(image.clone()), len, 0, 0, 0, false, &[], &p), ["Wii GCM"]);
    assert_eq!(gcm_kind_label(GcmKind::GameCube), "GameCube GCM");
    assert_eq!(detect_filesystems_chd(&mut MemSource::new(image), 2048, 2048, None)[0], "ISO 9660");
}

#[test]
fn boot_images_are_listed_and_read() {
    let image = iso();
    let v = el_torito_list(&mut MemSource::new(image.clone()), &plain(), &[], "/").ok().unwrap();
    assert_eq!(v.len(), 1);
    assert_eq!((v[0].lba, v[0].size), (25, 2560));
    assert!(v[0].name.ends_with("(No Emulation).img"));
    let path = format!("/{}", v[0].name);
    let b = el_torito_extract(&mut MemSource::new(image.clone()), &plain(), &[], &path).unwrap();
    assert_eq!(b, image[25 * 2048..25 * 2048 + 2560]);
    assert_eq!(
        el_torito_extract(&mut MemSource::new(image.clone()), &plain(), &[], "/x").unwrap_err(),
        "Boot image not found: x"
    );
    assert!(el_torito_list(&mut MemSource::new(image.clone()), &plain(), &[], "/sub").ok().unwrap().is_empty());
    let mut bare = image.clone();
    bare[17 * 2048] = 9;
    assert_eq!(
        el_torito_list(&mut MemSource::new(bare), &plain(), &[], "/").err().unwrap(),
        "No El Torito boot record found"
    );
    let mut empty = image;
    put32(&mut empty, 21 * 2048 + 40, 0);
    assert_eq!(
        el_torito_list(&mut MemSource::new(empty), &plain(), &[], "/").err().unwrap(),
        "El Torito catalog contains no boot images"
    );
}

#[test]
fn a_path_table_lists_directories() {
    let v = path_table_list(&mut MemSource::new(iso()), &plain(), &[], "/").ok().unwrap();
    let lines: Vec<(&str, bool, u32)> = v.iter().map(|e| (e.name.as_str(), e.is_dir, e.lba)).collect();
    assert_eq!(lines, [("/", true, 22), ("/SUB", true, 23)]);
    assert_eq!(
        path_table_list(&mut MemSource::new(vec![0; 100]), &plain(), &[], "/").err().unwrap(),
        "No primary volume descriptor"
    );
}

#[test]
fn any_image_is_asked_for_its_file_systems() {
    let facts = |track: Result<DataTrack, String>| ImageFacts { track, probes: none(), iso_opens: true, hunk: 0, unit: 0 };
    let ask = |path: &str, image: Vec<u8>, f: ImageFacts| {
        let len = image.len() as u64;
        get_disc_filesystems(path, MemSource::new(image), len, f, &[])
    };
    let no = || facts(Err("no track".to_string()));
    assert_eq!(ask("a.CUE", Vec::new(), no()), Err("no track".to_string()));
    let t = DataTrack {
        bin_path: "b".to_string(),
        track_offset: 0,
        user_data_offset: 0,
        stride: 2048,
        lba_offset: 0,
        descramble: false,
        sector_count: 0,
    };
    assert_eq!(ask("a.cue", iso(), facts(Ok(t))).unwrap()[0], "ISO 9660");
    assert_eq!(ask("a.cso", Vec::new(), no()).unwrap(), ["ISO 9660"]);
    let mut shut = no();
    shut.iso_opens = false;
    assert!(ask("a.ecm", Vec::new(), shut).unwrap().is_empty());
    let mut game = no();
    game.probes.gcm = Some(GcmKind::GameCube);
    assert_eq!(ask("a.wbfs", Vec::new(), game).unwrap(), ["GameCube GCM"]);
    let mut disc = vec![0; 0x60];
    disc[0x20..0x24].copy_from_slice(b" ab ");
    assert_eq!(ask("a.wux", disc, no()).unwrap(), ["Wii U — ab"]);
    assert!(ask("a.wud", Vec::new(), no()).unwrap().is_empty());
    assert_eq!(ask("a.aif", b"AARUFRMT".to_vec(), no()).unwrap(), ["AaruFormat image"]);
    assert!(ask("a.aif", b"AARUFRM".to_vec(), no()).unwrap().is_empty());
    assert_eq!(ask("a.iso", iso(), no()).unwrap()[0], "ISO 9660");
    let mut mdx = vec![0; 64];
    mdx.extend(iso());
    assert_eq!(ask("a.mdx", mdx.clone(), no()).unwrap()[0], "ISO 9660");
    assert_eq!(parse_mdx_as_data_track(&mut MemSource::new(mdx), "m").track_offset, 64);
}

#[test]
fn hunks_say_how_long_sectors_are() {
    assert_eq!(chd_stride(19584, 2448), 2448);
    assert_eq!(chd_stride(4096, 2048), 2048);
    let mut chd = vec![0; 2448 * 20];
    let pvd = 16 * 2448 + 16;
    chd[pvd..pvd + 7].copy_from_slice(b"\x01CD001\x01");
    let l = open_chd(&mut MemSource::new(chd.clone()), 19584, 2448);
    assert_eq!((l.stride, l.user_data_offset, l.track_byte_start), (2448, 16, 0));
    assert_eq!(l.data_place(2), 2 * 2448 + 16);
    assert_eq!(l.raw_place(2), None);
    assert_eq!(locate_opera(&mut MemSource::new(chd), 19584, 2448), (0, 16));
}

// ── XDVDFS ──────────────────────────────────────────────────────────────────

fn node(left: u16, right: u16, sector: u32, size: u32, dir: bool, name: &str) -> Vec<u8> {
    let mut v = Vec::new();
    v.extend(left.to_le_bytes());
    v.extend(right.to_le_bytes());
    v.extend(sector.to_le_bytes());
    v.extend(size.to_le_bytes());
    v.push(if dir { 16 } else { 0 });
    v.push(name.len() as u8);
    v.extend(name.as_bytes());
    while v.len() % 4 != 0 {
        v.push(255);
    }
    v
}

/// A volume with `B.TXT` and `DIR/A` in it.
fn xbox() -> Vec<u8> {
    let mut v = vec![0; 40 * 2048];
    let root = [node(5, 10, 36, 5, false, "B.TXT"), node(0, 0, 37, 3, false, "A.X"), node(0, 0, 38, 2048, true, "DIR")].concat();
    v[32 * 2048..32 * 2048 + 20].copy_from_slice(b"MICROSOFT*XBOX*MEDIA");
    put32(&mut v, 32 * 2048 + 20, 33);
    put32(&mut v, 32 * 2048 + 24, root.len() as u32);
    v[33 * 2048..33 * 2048 + root.len()].copy_from_slice(&root);
    v[36 * 2048..36 * 2048 + 5].copy_from_slice(b"hello");
    v[37 * 2048..37 * 2048 + 3].copy_from_slice(b"abc");
    let sub = node(0, 0, 39, 4, false, "C:D");
    v[38 * 2048..38 * 2048 + sub.len()].copy_from_slice(&sub);
    v[38 * 2048 + sub.len()..39 * 2048].fill(255);
    v[39 * 2048..39 * 2048 + 4].copy_from_slice(b"deep");
    v
}

#[test]
fn an_xbox_volume_is_listed_and_read() {
    let mut fs = XDVDFSFs::new(MemSource::new(xbox()), 0).ok().unwrap();
    let names: Vec<String> = fs.list_directory("/").ok().unwrap().into_iter().map(|e| e.name).collect();
    assert_eq!(names, ["A.X", "B.TXT", "DIR"]);
    assert_eq!(fs.extract_file("/b.txt").unwrap(), b"hello");
    assert_eq!(fs.extract_file("/DIR/C:D").unwrap(), b"deep");
    assert_eq!(fs.extract_file("/nope").unwrap_err(), "File not found: /nope");
    assert_eq!(fs.extract_file("/DIR").unwrap_err(), "Not a file: /DIR");
    assert_eq!(fs.list_directory("/zip").err().unwrap(), "Directory not found: zip");
    assert_eq!(fs.list_directory("/B.TXT").err().unwrap(), "Not a directory: B.TXT");
    assert_eq!(XDVDFSFs::new(MemSource::new(vec![0; 99]), 0).err().unwrap(), "Not an XDVDFS disc");
}

#[test]
fn a_search_tree_is_listed_in_the_order_of_its_names() {
    let none = 0xFFFF;
    let t = [
        node(4, 9, 1, 1, false, "m"),
        node(none, none, 2, 2, false, "A.TXT"),
        node(none, none, 3, 3, true, "Z"),
    ]
    .concat();
    let listed: Vec<String> = list_dir_table(&t).into_iter().map(|e| e.name).collect();
    assert_eq!(listed, ["A.TXT", "m", "Z"]);
}

#[test]
fn a_tree_out_of_order_is_searched_on_both_sides() {
    let none = 0xFFFF;
    let t = [
        node(4, 9, 1, 1, false, "M"),
        node(none, none, 2, 2, false, "Z.TXT"),
        node(none, none, 3, 3, true, "a"),
    ]
    .concat();
    let listed: Vec<String> = list_dir_table(&t).into_iter().map(|e| e.name).collect();
    assert_eq!(listed, ["Z.TXT", "M", "a"]);
    for (name, sector) in [("m", 1), ("z.txt", 2), ("A", 3)] {
        assert_eq!(find_node(&t, name).unwrap().sector, sector);
    }
    assert!(find_node(&t, "b").is_none());
}

#[test]
fn a_tree_is_planned_below_its_destination() {
    let mut fs = XDVDFSFs::new(MemSource::new(xbox()), 0).ok().unwrap();
    let p = plan_tree(&mut fs, "/", "/out").ok().unwrap();
    assert_eq!(p.dirs, ["/out/DIR"]);
    let files: Vec<(&str, &str)> = p.files.iter().map(|i| (i.src.as_str(), i.dest.as_str())).collect();
    assert_eq!(files, [("/A.X", "/out/A.X"), ("/B.TXT", "/out/B.TXT"), ("/DIR/C:D", "/out/DIR/C_D")]);
    let mut cancel = ExtractCancelState { cancelled: true };
    cancel.reset();
    assert_eq!(take_file(&mut fs, &p, 2, &cancel), Ok(Some(b"deep".to_vec())));
    assert_eq!(take_file(&mut fs, &p, 3, &cancel), Ok(None));
    cancel.extract_cancel();
    assert_eq!(take_file(&mut fs, &p, 0, &cancel), Err("__cancelled__".to_string()));
}

// ── Routing ─────────────────────────────────────────────────────────────────

fn nothing() -> Facts {
    Facts {
        cdi: false,
        pce: false,
        opera: false,
        xdvdfs: false,
        fatx: false,
        wii_gcm: false,
        gcm: false,
        hfs: false,
        udf: false,
        udf_opens: false,
    }
}

fn pick(f: ImageFormat, fs: Option<&str>, r: Request, x: &Facts) -> Result<Reader, String> {
    choose_reader(f, fs, r, false, x)
}

#[test]
fn readers_answer_by_format_and_view() {
    assert!(image_format("A.CHD") == ImageFormat::Chd);
    assert!(image_format("a.bin") == ImageFormat::Plain);
    assert!(matches!(pick(ImageFormat::Chd, Some("XDVDFS"), Request::List, &nothing()), Ok(Reader::Xdvdfs)));
    assert!(matches!(pick(ImageFormat::Chd, None, Request::List, &nothing()), Ok(Reader::Iso)));
    assert!(matches!(pick(ImageFormat::WiiU, None, Request::File, &nothing()), Ok(Reader::WiiU)));
    assert_eq!(
        pick(ImageFormat::Aif, None, Request::List, &nothing()).err().unwrap(),
        "AaruFormat full browsing is not yet supported"
    );
    assert!(matches!(pick(ImageFormat::Cue, Some("El Torito"), Request::File, &nothing()), Ok(Reader::ElTorito)));
    assert!(matches!(pick(ImageFormat::Cue, Some("Path Table"), Request::List, &nothing()), Ok(Reader::PathTable)));
    assert_eq!(
        pick(ImageFormat::Cue, Some("Path Table"), Request::Tree, &nothing()).err().unwrap(),
        "Path Table is a directory index; extract files via the ISO 9660 view"
    );
    let mut x = nothing();
    x.cdi = true;
    assert!(matches!(pick(ImageFormat::Cue, None, Request::List, &x), Ok(Reader::Cdi)));
    let mut x = nothing();
    x.pce = true;
    assert!(matches!(pick(ImageFormat::Scram, None, Request::List, &x), Ok(Reader::Pce)));
    assert!(fs_matches(None, "HFS") && fs_matches(Some("HFS"), "HFS") && !fs_matches(Some("UDF"), "HFS"));
    assert!(fs_matches_udf(Some("UDF 2.50")) && !fs_matches_udf(Some("HFS")));
    assert!(fs_matches_gcm(Some("Wii GCM")) && !fs_matches_gcm(Some("HFS")));
    assert!(name_space(Some("Joliet")) == NameSpace::Joliet);
    assert!(name_space(Some("Rock Ridge")) == NameSpace::RockRidge);
    assert!(name_space(None) == NameSpace::Iso);
}

#[test]
fn a_chosen_reader_answers_requests() {
    let image = xbox();
    let len = image.len() as u64;
    let source = || MemSource::new(image.clone());
    let x = gather_facts(source(), len, 0, 0, &none(), false);
    assert!(x.xdvdfs && !x.udf && !x.pce && !x.opera);
    let v = list_disc_contents(Reader::Xdvdfs, source(), len, &plain(), &[], "/").unwrap().ok().unwrap();
    assert_eq!(v.len(), 3);
    let b = save_file(Reader::Xdvdfs, source(), len, &plain(), &[], "/A.X").unwrap();
    assert_eq!(b, Ok(b"abc".to_vec()));
    let p = save_directory(Reader::Xdvdfs, source(), len, &plain(), &[], "/DIR", "/o").unwrap().ok().unwrap();
    assert_eq!(p.files[0].dest, "/o/C_D");
    assert!(list_disc_contents(Reader::Hfs, source(), len, &plain(), &[], "/").is_none());
    let tracks = |a: &str, b: &str| {
        vec![
            CueTrack { bin: a.to_string(), index: 0, user_data_offset: 16 },
            CueTrack { bin: b.to_string(), index: 0, user_data_offset: 16 },
        ]
    };
    let here = HostDir { path: "/d".to_string(), backslash: false };
    assert!(uses_all_files(&here, &tracks("a", "b"), false));
    assert!(!uses_all_files(&here, &tracks("a", "b"), true));
    assert!(!uses_all_files(&here, &tracks("a", "a"), false));
    assert!(!uses_all_files(&here, &tracks("a", "./a"), false));
    let nowhere = HostDir { path: String::new(), backslash: false };
    assert!(uses_all_files(&nowhere, &tracks("a", "./a"), false));
}

#[test]
fn host_directories_come_first() {
    let line = |n: &str, d: bool| host_line(n.to_string(), d, 9, String::new());
    let v = sort_host_lines(vec![line("b", false), line("Z", true), line("a", false), line("y", true)]);
    let names: Vec<&str> = v.iter().map(|e| e.name.as_str()).collect();
    assert_eq!(names, ["y", "Z", "a", "b"]);
    assert_eq!((v[2].size, v[0].size), (9, 0));
}

// ── ISO 9660 listings ───────────────────────────────────────────────────────

fn item(name: &str, dir: bool, lba: u32, size: u32, probe: Vec<u8>) -> IsoItem {
    IsoItem {
        name: name.to_string(),
        is_dir: dir,
        lba,
        size,
        year: 1999,
        month: 12,
        day: 3,
        hour: 4,
        minute: 5,
        second: 6,
        probe,
    }
}

#[test]
fn a_directory_lists_each_record_once() {
    let stream = vec![0, 0, 0x40, 0, 0, 0, 0, 0];
    let items = vec![
        item("\0", true, 1, 0, Vec::new()),
        item("\x01", true, 1, 0, Vec::new()),
        item("A", false, 2, 2049, stream),
        item("A", false, 2, 1, Vec::new()),
        item("A", false, 3, 7, Vec::new()),
        item("D", true, 4, 2048, Vec::new()),
    ];
    let v = collect_entries(IsoFound::Directory, "/", &items).ok().unwrap();
    let lines: Vec<(&str, u32, u32)> = v.iter().map(|e| (e.name.as_str(), e.lba, e.size)).collect();
    assert_eq!(lines, [("A", 2, 4672), ("A", 3, 7), ("D", 4, 0)]);
    assert_eq!(v[0].modified, "1999-12-03 04:05:06");
    assert_eq!(collect_entries(IsoFound::File, "/f", &items).err().unwrap(), "/f is not a directory");
    assert_eq!(collect_entries(IsoFound::Nothing, "/f", &items).err().unwrap(), "Directory not found: /f");
    assert_eq!(check_file(IsoFound::File, "/f"), Ok(()));
    assert_eq!(check_file(IsoFound::Directory, "/f"), Err("/f is not a file".to_string()));
    assert_eq!(check_file(IsoFound::Nothing, "/f"), Err("File not found: /f".to_string()));
}

#[test]
fn streaming_files_are_longer_than_they_say() {
    assert_eq!(xa_aware_size(2048, &[0, 0, 0x20, 0, 0, 0, 0, 0]), 2336);
    assert_eq!(xa_aware_size(2048, &[0, 0, 0x20, 0, 0, 0, 0]), 2048);
    assert_eq!(xa_aware_size(2048, &[0, 0, 0x08, 0, 0, 0, 0, 0]), 2048);
    assert_eq!(xa_aware_size(u32::MAX, &[0, 0, 0x20, 0, 0, 0, 0, 0]), u32::MAX);
    assert_eq!(streamed_sectors(4097), 3);
    let v = vec![("x".to_string(), 1), ("eboot.bin;1".to_string(), 77), ("EBOOT.BIN".to_string(), 78)];
    assert_eq!(eboot_lba(&v), Some(77));
    assert_eq!(eboot_lba(&Vec::new()), None);
}

// ── Wii U ───────────────────────────────────────────────────────────────────

/// A file table: `/code/app`, and `/readme`.
fn fst() -> Vec<u8> {
    let mut v = vec![0; 0x20 + 0x20 + 4 * 16];
    v[..4].copy_from_slice(b"FST\0");
    put32_be(&mut v, 4, 1);
    put32_be(&mut v, 8, 1);
    put32_be(&mut v, 0x20, 1);
    let names = b"\0code\0a/pp\0readme\0";
    for (k, flags, name, data, size) in
        [(0, 1u8, 0u32, 0u32, 4u32), (1, 1, 1, 0, 3), (2, 0, 6, 0x10, 5), (3, 0, 11, 0x40, 6)]
    {
        let at = 0x40 + k * 16;
        put32_be(&mut v, at, name);
        v[at] = flags;
        put32_be(&mut v, at + 4, data);
        put32_be(&mut v, at + 8, size);
    }
    v.extend(names);
    v
}

#[test]
fn a_file_table_is_listed_and_planned() {
    let t = parse_wiiu_fst(&fst(), 0x8000, 0).ok().unwrap();
    let v = wiiu_fst_list_dir(&t, "/").ok().unwrap();
    let lines: Vec<(&str, bool, u32)> = v.iter().map(|e| (e.name.as_str(), e.is_dir, e.size)).collect();
    assert_eq!(lines, [("code", true, 0), ("readme", false, 6)]);
    assert_eq!(wiiu_fst_list_dir(&t, "/none").err().unwrap(), "WUX: directory not found: /none");
    assert_eq!(wiiu_fst_list_dir(&t, "/readme").err().unwrap(), "WUX: not a directory: /readme");
    let mut disc: Vec<u8> = vec![0; 0x80];
    disc[0x40..0x46].copy_from_slice(b"manual");
    assert_eq!(wiiu_fst_extract_file(&mut MemSource::new(disc), &t, None, "/readme"), Ok(b"manual".to_vec()));
    let empty = || MemSource::new(Vec::new());
    assert_eq!(
        wiiu_fst_extract_file(&mut empty(), &t, None, "/none").unwrap_err(),
        "WiiU: file not found: /none"
    );
    assert_eq!(wiiu_fst_extract_file(&mut empty(), &t, None, "/code").unwrap_err(), "WiiU: /code is a directory");
    assert!(wiiu_fst_extract_file(&mut empty(), &t, None, "/readme").unwrap_err().starts_with("WiiU file read: "));
    let p = plan_wiiu_dir(&t, "WiiU GM", "/", "/out").ok().unwrap();
    assert_eq!(p.dirs, ["/out", "/out/code"]);
    assert_eq!(plan_wiiu_dir(&t, "WiiU GM", "/x", "/o").err().unwrap(), "WiiU GM: directory not found: /x");
    assert_eq!(plan_wiiu_dir(&t, "WiiU", "/readme", "/o").err().unwrap(), "WiiU: /readme is not a directory");
    let fail = |b: &[u8]| parse_wiiu_fst(b, 0x8000, 0).err().unwrap();
    assert_eq!(fail(&[0; 31]), "WUX FST: buffer too small");
    assert_eq!(fail(&[0; 32]), "WUX FST: bad magic 00000000");
    assert_eq!(fail(&fst()[..0x48]), "WUX FST: buffer too small for section headers");
    assert_eq!(fail(&fst()[..0x60]), "WUX FST: buffer too small for 4 entries");
}

#[test]
fn paths_name_a_partition() {
    assert!(matches!(listing_place("/"), Place::Root));
    assert!(matches!(listing_place("/SI/a"), Place::System(p) if p == "/a"));
    assert!(matches!(listing_place("GM"), Place::Game(p) if p.is_empty()));
    assert!(matches!(listing_place("/GMX"), Place::Unknown));
    assert!(matches!(source_place("/GM/a/b"), Place::Game(p) if p == "/a/b"));
    assert!(matches!(source_place("/other"), Place::System(p) if p == "/other"));
    let names: Vec<String> = list_partitions().into_iter().map(|e| e.name).collect();
    assert_eq!(names, ["SI", "GM"]);
    assert_eq!(unknown_place("/x"), "WiiU: unknown partition path: /x");
}

#[test]
fn keys_and_labels_are_read() {
    assert_eq!(load_title_key(&[7; 20]), Some(vec![7; 16]));
    assert_eq!(load_title_key(&[7; 15]), None);
    assert_eq!(make_label("  "), "Wii U disc");
    assert_eq!(make_label(" T "), "Wii U — T");
    let mut disc = vec![0; 0x60];
    assert_eq!(wux_disc_label(&mut MemSource::new(disc.clone())), Some("Wii U disc".to_string()));
    disc.pop();
    assert_eq!(wux_disc_label(&mut MemSource::new(disc)), None);
    assert_eq!(find_gm_partition_base(&mut MemSource::new(vec![0; 0x50000])), None);
    assert_eq!(
        unwrap_title_key(&[0; 0x1E3], true).unwrap_err(),
        "WiiU GM: title.tik too small to contain title key"
    );
    assert_eq!(
        unwrap_title_key(&[0; 0x1E4], true).unwrap_err(),
        "WiiU GM: title.tik is not available in this disc (sparse sector) — GM partition inaccessible"
    );
    let mut tik = vec![0; 0x1E4];
    tik[0x1BF..0x1CF].copy_from_slice(&[9; 16]);
    assert_ne!(unwrap_title_key(&tik, true).unwrap(), vec![9; 16]);
}
