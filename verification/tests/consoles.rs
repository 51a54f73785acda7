use disc_xplorer::junk::JunkGenerator;
use disc_xplorer::nitro_filesystem::{is_nds_rom, NitroFs, ROOT_DIR_ID};
use disc_xplorer::ps3_meta::{
    disc_title, parse_sfb, parse_sfo, sfb_content_length, SfoValue, FORMAT_INTEGER, FORMAT_UTF8,
};
use disc_xplorer::source::MemSource;
use disc_xplorer::threedo_filesystem::{
    entry_size, parse_entry, DirEntry, EntryKind, DIR_ENTRY_FIXED, DIR_HDR_SIZE, ENTRY_AVATAR0_OFF,
    ENTRY_LAST_AVATAR_OFF, ENTRY_NAME_OFF,
};
use disc_xplorer::wia_reader::{
    purge_decode, skip_exception_lists, WiaReader, EXCEPTION_SIZE, WII_SECTOR, WII_SECTOR_DATA,
};
use disc_xplorer::wii_partition::{find_data_partition, TICKET_SIG_TYPE};
use disc_xplorer::wux_reader::WuxReader;
use disc_xplorer::wux_writer::{compress, WuxScan};

// ── PlayStation 3 metadata ──────────────────────────────────────────────────

fn build_sfo(entries: &[(&str, SfoValue)]) -> Vec<u8> {
    let mut keys = Vec::new();
    let mut values = Vec::new();
    let mut index = Vec::new();
    for (k, v) in entries {
        let key_off = keys.len() as u16;
        keys.extend_from_slice(k.as_bytes());
        keys.push(0);
        let val_off = values.len() as u32;
        let (format, bytes) = match v {
            SfoValue::Text(s) => {
                let mut b = s.as_bytes().to_vec();
                b.push(0);
                (FORMAT_UTF8, b)
            }
            SfoValue::Integer(n) => (FORMAT_INTEGER, n.to_le_bytes().to_vec()),
        };
        let len = bytes.len() as u32;
        values.extend_from_slice(&bytes);
        index.extend_from_slice(&key_off.to_le_bytes());
        index.extend_from_slice(&format.to_le_bytes());
        index.extend_from_slice(&len.to_le_bytes());
        index.extend_from_slice(&len.to_le_bytes());
        index.extend_from_slice(&val_off.to_le_bytes());
    }
    let key_start = 20 + index.len() as u32;
    let data_start = key_start + keys.len() as u32;
    let mut out = Vec::new();
    out.extend_from_slice(b"\0PSF");
    out.extend_from_slice(&0x0101_0000u32.to_le_bytes());
    out.extend_from_slice(&key_start.to_le_bytes());
    out.extend_from_slice(&data_start.to_le_bytes());
    out.extend_from_slice(&(entries.len() as u32).to_le_bytes());
    out.extend_from_slice(&index);
    out.extend_from_slice(&keys);
    out.extend_from_slice(&values);
    out
}

#[test]
fn reads_title_and_version_out_of_an_sfo() {
    let sfo = build_sfo(&[
        ("APP_VER", SfoValue::Text("01.00".into())),
        ("PARENTAL_LEVEL", SfoValue::Integer(5)),
        ("TITLE", SfoValue::Text("Demon's Souls".into())),
        ("TITLE_ID", SfoValue::Text("BLES00932".into())),
    ]);
    let m = parse_sfo(&sfo).unwrap();
    assert_eq!(m.get("TITLE").unwrap().as_text(), "Demon's Souls");
    assert_eq!(m.get("TITLE_ID").unwrap().as_text(), "BLES00932");
    assert_eq!(m.get("PARENTAL_LEVEL"), Some(&SfoValue::Integer(5)));
    assert_eq!(disc_title(Some(&m), None), "Demon's Souls");
}

#[test]
fn parameters_stand_in_the_order_of_their_keys() {
    let sfo = build_sfo(&[
        ("TITLE", SfoValue::Text("First".into())),
        ("APP_VER", SfoValue::Integer(1)),
        ("TITLE_ID", SfoValue::Integer(2)),
        ("TITLE", SfoValue::Text("Last".into())),
        ("CATEGORY", SfoValue::Integer(3)),
    ]);
    let m = parse_sfo(&sfo).unwrap();
    let keys: Vec<&str> = m.table.files.iter().map(|r| r.0.as_str()).collect();
    assert_eq!(keys, ["APP_VER", "CATEGORY", "TITLE", "TITLE_ID"]);
    assert_eq!(m.get("TITLE").unwrap().as_text(), "Last");
}

#[test]
fn rejects_what_is_not_an_sfo() {
    assert!(parse_sfo(b"nope").is_err());
    let mut bad = build_sfo(&[("TITLE", SfoValue::Text("X".into()))]);
    bad[16..20].copy_from_slice(&9999u32.to_le_bytes());
    assert!(parse_sfo(&bad).err().unwrap().contains("does not fit"));
}

#[test]
fn survives_entries_pointing_outside_the_file() {
    let sfo = build_sfo(&[
        ("TITLE", SfoValue::Text("Good".into())),
        ("OTHER", SfoValue::Text("Also good".into())),
    ]);
    let cut = &sfo[..sfo.len() - 5];
    let m = parse_sfo(cut).unwrap();
    assert_eq!(m.get("TITLE").unwrap().as_text(), "Good");
    assert!(!m.contains_key("OTHER"), "the entry that ran off the end is dropped");
}

#[test]
fn reads_an_sfb() {
    let mut d = vec![0u8; 0x240];
    d[0..4].copy_from_slice(b".SFB");
    d[0x220..0x229].copy_from_slice(b"BLES00932");
    d[0x230..0x235].copy_from_slice(b"01.00");
    let sfb = parse_sfb(&d).unwrap();
    assert_eq!(sfb.title_id, "BLES00932");
    assert_eq!(sfb.version, "01.00");
    assert_eq!(disc_title(None, Some(&sfb)), "BLES00932");

    d[0] = b'X';
    assert!(parse_sfb(&d).is_err());
    assert!(parse_sfb(&d[..0x100]).is_err(), "too short to hold the fields");
}

#[test]
fn the_content_length_is_big_endian() {
    let mut d = vec![0u8; 0x3C];
    d[0x38..0x3C].copy_from_slice(&0x0102_0304u32.to_be_bytes());
    assert_eq!(sfb_content_length(&d), Some(0x0102_0304));
    assert_eq!(sfb_content_length(&d[..0x3B]), None);
}

// ── 3DO ─────────────────────────────────────────────────────────────────────

fn dir_block(entries: &[(&str, u32, u32, &[u32])]) -> [u8; 2048] {
    let mut b = [0u8; 2048];
    b[0..4].copy_from_slice(&0xFFFF_FFFFu32.to_be_bytes());
    b[4..8].copy_from_slice(&0xFFFF_FFFFu32.to_be_bytes());
    let mut off = DIR_HDR_SIZE;
    for (name, flags, type_tag, avatars) in entries {
        b[off..off + 4].copy_from_slice(&flags.to_be_bytes());
        b[off + 8..off + 12].copy_from_slice(&type_tag.to_be_bytes());
        b[off + 16..off + 20].copy_from_slice(&64u32.to_be_bytes());
        let n = name.as_bytes();
        b[off + ENTRY_NAME_OFF..off + ENTRY_NAME_OFF + n.len()].copy_from_slice(n);
        b[off + ENTRY_LAST_AVATAR_OFF..off + ENTRY_LAST_AVATAR_OFF + 4]
            .copy_from_slice(&((avatars.len() - 1) as u32).to_be_bytes());
        for (i, a) in avatars.iter().enumerate() {
            let at = off + ENTRY_AVATAR0_OFF + i * 4;
            b[at..at + 4].copy_from_slice(&a.to_be_bytes());
        }
        off += DIR_ENTRY_FIXED + 4 * avatars.len();
    }
    b[12..16].copy_from_slice(&(off as u32).to_be_bytes());
    b[16..20].copy_from_slice(&(DIR_HDR_SIZE as u32).to_be_bytes());
    b
}

fn be_u32(b: &[u8], at: usize) -> u32 {
    u32::from_be_bytes([b[at], b[at + 1], b[at + 2], b[at + 3]])
}

fn walk(block: &[u8; 2048]) -> Vec<DirEntry> {
    let first_free = (be_u32(block, 12) as usize).min(2048);
    let mut off = (be_u32(block, 16) as usize).clamp(DIR_HDR_SIZE, 2048);
    let mut out = Vec::new();
    while off + DIR_ENTRY_FIXED + 4 <= first_free {
        let Some(size) = entry_size(&block[off..]) else { break };
        if off + size > first_free {
            break;
        }
        if let Some(e) = parse_entry(&block[off..off + size]) {
            out.push(e);
        }
        off += size;
    }
    out
}

#[test]
fn entries_with_several_avatars_do_not_derail_the_walk() {
    let block = dir_block(&[
        ("Disc label", 0x0006, 0x2A6C626C, &[0, 225]),
        ("AppStartup", 0x0002, 0x2020_2020, &[63]),
        ("rom_tags", 0x0002, 0x2020_2020, &[1, 226]),
        ("System", 0xC000_0007, 0x2A64_6972, &[329742, 329806, 329870]),
    ]);
    let got = walk(&block);
    let names: Vec<&str> = got.iter().map(|e| e.name.as_str()).collect();
    assert_eq!(names, ["Disc label", "AppStartup", "rom_tags", "System"]);
    assert_eq!(got[0].lba, 0);
    assert_eq!(got[2].lba, 1, "rom_tags reads its first avatar");
    assert_eq!(got[3].lba, 329742);
    let again = disc_xplorer::threedo_filesystem::walk_block(&block);
    assert_eq!(again.len(), 4);
    assert_eq!(again[3].name, "System");
}

#[test]
fn the_disc_label_is_a_file() {
    let block = dir_block(&[("Disc label", 0x0006, 0x2A6C626C, &[0, 225])]);
    assert!(matches!(walk(&block)[0].kind, EntryKind::File));
    let block = dir_block(&[("odd", 0x0006, 0x1234_5678, &[7])]);
    assert!(matches!(walk(&block)[0].kind, EntryKind::File));
    let block = dir_block(&[("adir", 0x0007, 0x1234_5678, &[7])]);
    assert!(matches!(walk(&block)[0].kind, EntryKind::Directory));
}

#[test]
fn an_absurd_avatar_count_stops_the_walk() {
    let mut block = dir_block(&[("x", 0x0002, 0x2020_2020, &[5])]);
    block[DIR_HDR_SIZE + ENTRY_LAST_AVATAR_OFF..DIR_HDR_SIZE + ENTRY_LAST_AVATAR_OFF + 4]
        .copy_from_slice(&9_999u32.to_be_bytes());
    assert!(walk(&block).is_empty());
}

// ── WIA and RVZ ─────────────────────────────────────────────────────────────

#[test]
fn purge_fills_the_gaps_with_zeroes() {
    let mut input = Vec::new();
    input.extend_from_slice(&4u32.to_be_bytes());
    input.extend_from_slice(&3u32.to_be_bytes());
    input.extend_from_slice(b"abc");
    input.extend_from_slice(&[0u8; 20]);
    let out = purge_decode(&input, 10).unwrap();
    assert_eq!(out, vec![0, 0, 0, 0, b'a', b'b', b'c', 0, 0, 0]);
}

#[test]
fn purge_rejects_segments_outside_the_chunk() {
    let mut input = Vec::new();
    input.extend_from_slice(&8u32.to_be_bytes());
    input.extend_from_slice(&8u32.to_be_bytes());
    input.extend_from_slice(&[1u8; 8]);
    input.extend_from_slice(&[0u8; 20]);
    assert!(purge_decode(&input, 10).is_err());
}

#[test]
fn junk_generator_is_deterministic_and_continues_past_a_buffer() {
    let seed: Vec<u8> = (0..68u8).collect();
    let mut a = vec![0u8; 5000];
    let mut b = vec![0u8; 5000];
    JunkGenerator::new(&seed).fill(&mut a);
    JunkGenerator::new(&seed).fill(&mut b);
    assert_eq!(a, b, "same seed must give the same stream");
    assert!(a[2084..].iter().any(|&x| x != 0), "output continues past one buffer");

    let other: Vec<u8> = (0..68u8).map(|i| i.wrapping_add(1)).collect();
    let mut c = vec![0u8; 64];
    JunkGenerator::new(&other).fill(&mut c);
    assert_ne!(&a[..64], &c[..], "a different seed gives a different stream");
}

#[test]
fn exception_lists_are_stepped_over_by_count() {
    let mut group = Vec::new();
    group.extend_from_slice(&2u16.to_be_bytes());
    group.extend_from_slice(&[0xAA; 2 * EXCEPTION_SIZE as usize]);
    group.extend_from_slice(b"PAYLOAD");
    let at = skip_exception_lists(&group, 1).unwrap();
    assert_eq!(&group[at..], b"PAYLOAD");
    assert_eq!(at, 2 + 2 * EXCEPTION_SIZE as usize);
}

#[test]
fn group_payload_excludes_the_hash_blocks() {
    let chunk = 0x20000u32;
    let sectors = chunk / WII_SECTOR;
    assert_eq!(sectors, 4);
    assert_eq!(sectors * WII_SECTOR_DATA, 126_976);
    assert!(sectors * WII_SECTOR_DATA < chunk, "hashes are removed, so it is smaller");
}

#[test]
fn rejects_files_that_are_not_wia_or_rvz() {
    let err = WiaReader::open(MemSource::new(vec![0u8; 200])).err().expect("should reject");
    assert!(err.contains("Not a WIA or RVZ"), "{err}");
}

// ── Wii partitions ──────────────────────────────────────────────────────────

const PS4_BDROM_AT_0X40000: [u8; 32] = [
    0x6a, 0x00, 0x8e, 0x85, 0x0c, 0x00, 0x00, 0x0c, 0x85, 0x8e, 0xa9, 0x3b, 0x12, 0x00, 0x00, 0x12,
    0x3b, 0xa9, 0x73, 0x0c, 0x13, 0x0f, 0x0a, 0x22, 0xe0, 0x00, 0x00, 0x00, 0x01, 0x00, 0x00, 0x01,
];

fn image_with_header(hdr: &[u8; 32], size: usize) -> MemSource {
    let mut v = vec![0u8; size];
    v[0x40000..0x40000 + 32].copy_from_slice(hdr);
    MemSource::new(v)
}

#[test]
fn garbage_at_the_partition_table_is_not_a_wii_disc() {
    let mut img = image_with_header(&PS4_BDROM_AT_0X40000, 0x8_0000);
    assert_eq!(find_data_partition(&mut img, 0x8_0000), None);
}

#[test]
fn a_plausible_table_without_a_ticket_is_rejected() {
    let mut hdr = [0u8; 32];
    hdr[0..4].copy_from_slice(&2u32.to_be_bytes());
    hdr[4..8].copy_from_slice(&(0x40020u32 >> 2).to_be_bytes());
    let mut img = image_with_header(&hdr, 0x8_0000);
    assert_eq!(find_data_partition(&mut img, 0x8_0000), None);
}

#[test]
fn a_table_pointing_at_a_real_ticket_is_accepted() {
    let part_off = 0x50000u64;
    let mut v = vec![0u8; 0x8_0000];
    v[0x40000..0x40004].copy_from_slice(&1u32.to_be_bytes());
    v[0x40004..0x40008].copy_from_slice(&((0x40020u32) >> 2).to_be_bytes());
    v[0x40020..0x40024].copy_from_slice(&((part_off as u32) >> 2).to_be_bytes());
    v[0x40024..0x40028].copy_from_slice(&0u32.to_be_bytes());
    let at = part_off as usize;
    v[at..at + 4].copy_from_slice(&TICKET_SIG_TYPE.to_be_bytes());
    v[at + 0x140..at + 0x147].copy_from_slice(b"Root-CA");
    assert_eq!(find_data_partition(&mut MemSource::new(v), 0x8_0000), Some(part_off));
}

#[test]
fn an_absurd_partition_count_is_refused() {
    let mut hdr = [0u8; 32];
    hdr[0..4].copy_from_slice(&1_000_000u32.to_be_bytes());
    hdr[4..8].copy_from_slice(&(0x40020u32 >> 2).to_be_bytes());
    let mut img = image_with_header(&hdr, 0x8_0000);
    assert_eq!(find_data_partition(&mut img, 0x8_0000), None);
}

// ── WUX ─────────────────────────────────────────────────────────────────────

#[test]
fn synthetic_roundtrip_and_dedup() {
    let ss: u64 = 4096;
    let block_a: Vec<u8> = (0..ss).map(|i| (i % 251) as u8).collect();
    let block_b: Vec<u8> = (0..ss).map(|i| (i.wrapping_mul(7) % 251) as u8).collect();
    let block_z: Vec<u8> = vec![0u8; ss as usize];
    let tail: Vec<u8> = vec![0xAB; 100];
    let mut raw = Vec::new();
    raw.extend_from_slice(&block_a);
    raw.extend_from_slice(&block_b);
    raw.extend_from_slice(&block_a);
    raw.extend_from_slice(&block_z);
    raw.extend_from_slice(&block_a);
    raw.extend_from_slice(&tail);

    let out = compress(&mut MemSource::new(raw.clone()), raw.len() as u64, ss).unwrap();
    assert!(out.len() < raw.len(), "dedup should shrink output");

    let mut rdr = WuxReader::open(MemSource::new(out)).unwrap();
    assert_eq!(rdr.total_bytes(), raw.len() as u64);
    assert_eq!(rdr.sector_size(), ss);
    let mut got = Vec::new();
    loop {
        let b = rdr.read_at(got.len() as u64, 1 << 20).unwrap();
        if b.is_empty() {
            break;
        }
        got.extend_from_slice(&b);
    }
    assert_eq!(got, raw, "round-trip mismatch");
}

#[test]
fn a_scan_knows_how_long_its_output_will_be() {
    let raw = [vec![1; 4096], vec![2; 4096], vec![1; 4096], vec![3; 10]].concat();
    let mut source = MemSource::new(raw.clone());
    let mut scan = WuxScan::new(raw.len() as u64, 4096).ok().unwrap();
    while !scan.is_done() {
        scan.step(&mut source).unwrap();
    }
    assert_eq!((scan.scanned_bytes(), scan.unique_count()), (raw.len() as u64, 3));
    assert_eq!(scan.out_size(), 4096 + 3 * 4096);
    let mut out = scan.head();
    for k in 0..scan.unique_count() {
        out.extend(scan.stored_block(&mut source, k).unwrap());
    }
    assert_eq!(out, compress(&mut source, raw.len() as u64, 4096).unwrap());
    assert_eq!(out.len() as u128, scan.out_size());
}

#[test]
fn wux_refuses_odd_sector_sizes_and_empty_images() {
    let mut src = MemSource::new(vec![1u8; 10]);
    assert_eq!(compress(&mut src, 10, 3).err().unwrap(), "WUX: invalid sector_size=3");
    assert_eq!(compress(&mut src, 10, 0).err().unwrap(), "WUX: invalid sector_size=0");
    assert_eq!(compress(&mut src, 0, 4).err().unwrap(), "WUX: input image is empty");
    assert_eq!(WuxReader::open(MemSource::new(vec![0u8; 64])).err().unwrap(), "Not a WUX file");
}

// ── Nintendo DS ─────────────────────────────────────────────────────────────

fn synth() -> (MemSource, u64, Vec<Vec<u8>>) {
    let contents: Vec<Vec<u8>> =
        vec![b"banner contents".to_vec(), b"level one payload".to_vec(), vec![0xAB; 300]];
    let data_start = 0x4000usize;
    let mut data = Vec::new();
    let mut fat = Vec::new();
    for c in &contents {
        let start = data_start + data.len();
        data.extend_from_slice(c);
        fat.extend_from_slice(&(start as u32).to_le_bytes());
        fat.extend_from_slice(&((start + c.len()) as u32).to_le_bytes());
    }
    let mut subtables: Vec<Vec<u8>> = Vec::new();
    let mut t0 = Vec::new();
    t0.push(10);
    t0.extend_from_slice(b"banner.bin");
    t0.push(0x80 | 4);
    t0.extend_from_slice(b"data");
    t0.extend_from_slice(&0xF001u16.to_le_bytes());
    t0.push(0);
    subtables.push(t0);
    let mut t1 = Vec::new();
    t1.push(10);
    t1.extend_from_slice(b"level1.bin");
    t1.push(0x80 | 3);
    t1.extend_from_slice(b"sub");
    t1.extend_from_slice(&0xF002u16.to_le_bytes());
    t1.push(0);
    subtables.push(t1);
    let mut t2 = Vec::new();
    t2.push(8);
    t2.extend_from_slice(b"deep.bin");
    t2.push(0);
    subtables.push(t2);
    let header_len = 3 * 8;
    let mut fnt = vec![0u8; header_len];
    let mut offsets = Vec::new();
    for t in &subtables {
        offsets.push(fnt.len());
        fnt.extend_from_slice(t);
    }
    let first_ids = [0u16, 1, 2];
    let parents = [3u16, ROOT_DIR_ID, ROOT_DIR_ID | 1];
    for i in 0..3 {
        let b = i * 8;
        fnt[b..b + 4].copy_from_slice(&(offsets[i] as u32).to_le_bytes());
        fnt[b + 4..b + 6].copy_from_slice(&first_ids[i].to_le_bytes());
        fnt[b + 6..b + 8].copy_from_slice(&parents[i].to_le_bytes());
    }
    let fnt_offset = 0x1000usize;
    let fat_offset = 0x2000usize;
    let mut rom = vec![0u8; data_start + data.len()];
    rom[0x00..0x0C].copy_from_slice(b"TESTROM\0\0\0\0\0");
    rom[0x0C..0x10].copy_from_slice(b"ATSE");
    rom[0x15C..0x15E].copy_from_slice(&0x9E1Au16.to_le_bytes());
    rom[0x40..0x44].copy_from_slice(&(fnt_offset as u32).to_le_bytes());
    rom[0x44..0x48].copy_from_slice(&(fnt.len() as u32).to_le_bytes());
    rom[0x48..0x4C].copy_from_slice(&(fat_offset as u32).to_le_bytes());
    rom[0x4C..0x50].copy_from_slice(&(fat.len() as u32).to_le_bytes());
    rom[fnt_offset..fnt_offset + fnt.len()].copy_from_slice(&fnt);
    rom[fat_offset..fat_offset + fat.len()].copy_from_slice(&fat);
    rom[data_start..].copy_from_slice(&data);
    let len = rom.len() as u64;
    (MemSource::new(rom), len, contents)
}

#[test]
fn walks_the_tree_and_reads_files() {
    let (mut src, len, contents) = synth();
    assert!(is_nds_rom(&mut src, len));
    let mut fs = NitroFs::open(src, len).unwrap();
    assert_eq!(fs.title, "TESTROM");
    assert_eq!(fs.game_code, "ATSE");
    let root = fs.list_directory("/").unwrap();
    let names: Vec<_> = root.iter().map(|e| (e.name.as_str(), e.is_dir)).collect();
    assert_eq!(names, vec![("data", true), ("banner.bin", false)]);
    assert_eq!(
        root.iter().find(|e| e.name == "banner.bin").unwrap().size_bytes as usize,
        contents[0].len()
    );
    let sub = fs.list_directory("/data/sub").unwrap();
    assert_eq!(sub.len(), 1);
    assert_eq!(sub[0].name, "deep.bin");
    assert_eq!(fs.extract_file("/data/sub/deep.bin").unwrap(), contents[2]);
    assert_eq!(fs.extract_file("/nope").err().unwrap(), "Not found: /nope");
    assert_eq!(fs.list_directory("/nope").err().unwrap(), "Not found: /nope");
    assert_eq!(fs.read_file(9).err().unwrap(), "DS ROM: file ID 9 is out of range");
}

#[test]
fn extracts_the_whole_tree() {
    let (src, len, contents) = synth();
    let mut fs = NitroFs::open(src, len).unwrap();
    let plan = fs.extract_directory("/", "out").unwrap();
    assert_eq!(plan.dirs, vec!["out/data".to_string(), "out/data/sub".to_string()]);
    let got: Vec<(String, Vec<u8>)> = plan
        .files
        .iter()
        .map(|(dest, id)| (dest.clone(), *id))
        .collect::<Vec<_>>()
        .into_iter()
        .map(|(dest, id)| (dest, fs.read_file(id).unwrap()))
        .collect();
    let find = |name: &str| got.iter().find(|(d, _)| d == name).unwrap().1.clone();
    assert_eq!(find("out/banner.bin"), contents[0]);
    assert_eq!(find("out/data/level1.bin"), contents[1]);
    assert_eq!(find("out/data/sub/deep.bin"), contents[2]);
}

#[test]
fn rejects_files_that_are_not_ds_roms() {
    let mut src = MemSource::new(vec![0u8; 0x400]);
    assert!(!is_nds_rom(&mut src, 0x400), "a blank file has no logo CRC");
    assert!(NitroFs::open(src, 0x400).is_err());
}
