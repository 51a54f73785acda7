use aes::cipher::generic_array::GenericArray;
use aes::cipher::{BlockDecryptMut, BlockEncryptMut, KeyIvInit};
use aes::Aes128;
use disc_xplorer::pce_filesystem::{is_pce_disc, PceFs};
use disc_xplorer::ps3::{
    convert, convert_chunk, convert_sector, detect, find_key_file, load_key, parse_regions, prepare,
    Ps3Job, Ps3Step, Region,
};
use disc_xplorer::iso_volume::TrackLayout;
use disc_xplorer::routing::{
    list_disc_contents, reader_layout, save_directory, save_file, ImageFormat, Reader,
};
use disc_xplorer::seek::{seek_saturating, seek_target, Whence};
use disc_xplorer::source::MemSource;
use disc_xplorer::tar_archive::{find_wrapper, is_tar, unwrap_archive, TarArchive, Wrapper};
use disc_xplorer::threedo_filesystem::{is_threedo_disc, ThreeDOFs};
use disc_xplorer::udf_filesystem::{format_udf_version, is_udf_disc, UdfFs};
use disc_xplorer::vpk_archive::is_vpk;
use disc_xplorer::wia_reader::{
    decompress, WiaReader, COMPRESSION_BZIP2, COMPRESSION_LZMA, COMPRESSION_LZMA2, COMPRESSION_NONE,
    COMPRESSION_ZSTD,
};
use disc_xplorer::wii_partition::{is_wii_disc, WiiPartReader};
use disc_xplorer::wux_writer::{compress, WuxJob, WuxStep};
use disc_xplorer::wiiu::{
    open_wiiu_gm_fst, open_wiiu_si_fst, plan_wiiu_dir, unwrap_title_key, wiiu_fst_extract_file,
    wiiu_fst_list_dir, wiiu_gm_fst_extract_file,
};
use disc_xplorer::zip_archive::{expand, is_zip, ZipArchive};
use std::io::Write;

const PLAIN: &[u8] = b"disc disc disc disc disc disc disc disc ";

const BZ2: [u8; 48] = [
    66, 90, 104, 57, 49, 65, 89, 38, 83, 89, 139, 249, 116, 199, 0, 0, 11, 145, 128, 64, 0, 12, 32, 8, 0,
    32, 0, 48, 205, 0, 85, 52, 105, 5, 26, 56, 81, 226, 238, 72, 167, 10, 18, 17, 127, 46, 152, 224,
];

const XZ: [u8; 68] = [
    253, 55, 122, 88, 90, 0, 0, 1, 105, 34, 222, 54, 2, 0, 33, 1, 22, 0, 0, 0, 116, 47, 229, 163, 224, 0,
    39, 0, 11, 93, 0, 50, 26, 74, 204, 188, 102, 128, 95, 243, 64, 0, 0, 0, 134, 63, 99, 80, 0, 1, 35, 40,
    176, 106, 154, 171, 144, 66, 153, 13, 1, 0, 0, 0, 0, 1, 89, 90,
];

const LZMA2: [u8; 19] =
    [224, 0, 39, 0, 11, 93, 0, 50, 26, 74, 204, 188, 102, 128, 95, 243, 64, 0, 0];

/// The properties of a stream, and the stream.
const LZMA: ([u8; 5], [u8; 18]) = (
    [93, 0, 0, 1, 0],
    [0, 50, 26, 74, 204, 188, 102, 128, 96, 147, 236, 159, 255, 255, 180, 118, 0, 0],
);

fn gzip(data: &[u8]) -> Vec<u8> {
    let mut e = flate2::write::GzEncoder::new(Vec::new(), flate2::Compression::default());
    e.write_all(data).unwrap();
    e.finish().unwrap()
}

fn deflate(data: &[u8]) -> Vec<u8> {
    let mut e = flate2::write::DeflateEncoder::new(Vec::new(), flate2::Compression::default());
    e.write_all(data).unwrap();
    e.finish().unwrap()
}

fn encrypted(key: &[u8], iv: &[u8], data: &[u8]) -> Vec<u8> {
    let mut c = cbc::Encryptor::<Aes128>::new_from_slices(key, iv).ok().unwrap();
    let mut v = data.to_vec();
    for b in v.chunks_exact_mut(16) {
        c.encrypt_block_mut(GenericArray::from_mut_slice(b));
    }
    v
}

fn decrypted(key: &[u8], iv: &[u8], data: &[u8]) -> Vec<u8> {
    let mut c = cbc::Decryptor::<Aes128>::new_from_slices(key, iv).ok().unwrap();
    let mut v = data.to_vec();
    for b in v.chunks_exact_mut(16) {
        c.decrypt_block_mut(GenericArray::from_mut_slice(b));
    }
    v
}

#[test]
fn a_footer_that_gives_all_ones_is_refused() {
    let mut bad = XZ;
    bad[60..64].fill(0xFF);
    assert_eq!(
        unwrap_archive(Wrapper::Xz, &bad).unwrap_err(),
        "xz: xz error: Invalid index size: expected 0 but got 8"
    );
    bad[60..64].copy_from_slice(&[2, 0, 0, 0]);
    assert_eq!(
        unwrap_archive(Wrapper::Xz, &bad).unwrap_err(),
        "xz: xz error: Invalid index size: expected 12 but got 8"
    );
    // Other sizes that come to zero.
    bad[60..64].copy_from_slice(&[0xFF, 0xFF, 0xFF, 0x7F]);
    assert_eq!(
        unwrap_archive(Wrapper::Xz, &bad).unwrap_err(),
        "xz: xz error: Invalid index size: expected 0 but got 8"
    );
    // An index that fails before the footer is looked at.
    bad[60..64].fill(0xFF);
    bad[53] ^= 1;
    assert!(unwrap_archive(Wrapper::Xz, &bad).unwrap_err().starts_with("xz: xz error: Invalid index CRC32"));
    // The same bytes elsewhere are no footer.
    let mut late = XZ.to_vec();
    late.extend([0xFF; 12]);
    assert_eq!(
        unwrap_archive(Wrapper::Xz, &late).unwrap_err(),
        "xz: xz error: Unexpected data after last XZ block"
    );
}

/// A stream with one block that holds `body` as it is, without a check.
fn stored_xz(body: &[u8]) -> Vec<u8> {
    let n = body.len() - 1;
    let mut v = vec![253, 55, 122, 88, 90, 0, 0, 0];
    v.extend(crc32(&v[6..8]).to_le_bytes());
    let head = [2u8, 0, 33, 1, 22, 0, 0, 0];
    v.extend(head);
    v.extend(crc32(&head).to_le_bytes());
    v.extend([1, (n >> 8) as u8, n as u8]);
    v.extend(body);
    v.push(0);
    let unpadded = v.len() - 12;
    while v.len() % 4 != 0 {
        v.push(0);
    }
    let start = v.len();
    assert!(unpadded < 128 && body.len() < 128);
    v.extend([0, 1, unpadded as u8, body.len() as u8]);
    let index = crc32(&v[start..]);
    v.extend(index.to_le_bytes());
    let footer = [1u8, 0, 0, 0, 0, 0];
    v.extend(crc32(&footer).to_le_bytes());
    v.extend(footer);
    v.extend(b"YZ");
    v
}

fn crc32(data: &[u8]) -> u32 {
    let mut c = u32::MAX;
    for b in data {
        c ^= *b as u32;
        for _ in 0..8 {
            c = if c & 1 == 1 { (c >> 1) ^ 0xEDB8_8320 } else { c >> 1 };
        }
    }
    !c
}

#[test]
fn what_looks_like_a_footer_inside_a_block_is_unpacked() {
    // An index of no blocks and a size of all ones, on either side of a word.
    for lead in 0..4 {
        let mut body = vec![7u8; lead];
        body.extend([0, 0, 0, 0, 9, 9, 9, 9, 8, 8, 8, 8, 255, 255, 255, 255, 255, 255, 255, 255]);
        assert_eq!(unwrap_archive(Wrapper::Xz, &stored_xz(&body)), Ok(body));
    }
    // All ones behind the end of a sound stream.
    let mut late = stored_xz(&[1, 2, 3, 4]);
    late.extend([255; 8]);
    assert_eq!(
        unwrap_archive(Wrapper::Xz, &late).unwrap_err(),
        "xz: xz error: Unexpected data after last XZ block"
    );
    // All ones in the footer of a stream whose block holds all ones.
    let mut bad = stored_xz(&[255; 16]);
    let at = bad.len() - 8;
    bad[at..at + 4].fill(255);
    assert_eq!(
        unwrap_archive(Wrapper::Xz, &bad).unwrap_err(),
        "xz: xz error: Invalid index size: expected 0 but got 8"
    );
}

#[test]
fn wrapped_archives_are_unwrapped() {
    let plain = Ok(PLAIN.to_vec());
    assert_eq!(unwrap_archive(Wrapper::Gzip, &gzip(PLAIN)), plain);
    assert_eq!(unwrap_archive(Wrapper::Bzip2, &BZ2), plain);
    assert_eq!(unwrap_archive(Wrapper::Xz, &XZ), plain);
    let z = zstd::stream::encode_all(PLAIN, 3).unwrap();
    assert_eq!(unwrap_archive(Wrapper::Zstd, &z), plain);
    assert!(matches!(find_wrapper(&gzip(PLAIN)), Some(Wrapper::Gzip)));
    assert!(matches!(find_wrapper(&BZ2), Some(Wrapper::Bzip2)));
    assert!(matches!(find_wrapper(&XZ), Some(Wrapper::Xz)));
    assert!(matches!(find_wrapper(&z), Some(Wrapper::Zstd)));
    assert!(find_wrapper(PLAIN).is_none());
    assert!(unwrap_archive(Wrapper::Gzip, b"no").unwrap_err().starts_with("gzip: "));
    assert!(unwrap_archive(Wrapper::Bzip2, b"no").unwrap_err().starts_with("bzip2: "));
    assert!(unwrap_archive(Wrapper::Xz, b"no").unwrap_err().starts_with("xz: "));
    assert!(unwrap_archive(Wrapper::Zstd, b"no").unwrap_err().starts_with("zstd: "));
}

#[test]
fn chunks_are_decompressed_by_method() {
    let n = PLAIN.len() as u64;
    let plain = Ok(PLAIN.to_vec());
    assert_eq!(decompress(COMPRESSION_NONE, &[], PLAIN, n), plain);
    assert_eq!(decompress(COMPRESSION_BZIP2, &[], &BZ2, n), plain);
    assert_eq!(decompress(COMPRESSION_LZMA, &LZMA.0, &LZMA.1, n), plain);
    assert_eq!(decompress(COMPRESSION_LZMA2, &[24], &LZMA2, n), plain);
    let z = zstd::bulk::compress(PLAIN, 3).unwrap();
    assert_eq!(decompress(COMPRESSION_ZSTD, &[], &z, n), plain);
    assert_eq!(
        decompress(COMPRESSION_LZMA, &[], &LZMA.1, n).unwrap_err(),
        "WIA: LZMA properties missing from the header"
    );
    assert_eq!(decompress(9, &[], &[], n).unwrap_err(), "WIA: unsupported compression method 9");
    assert!(decompress(COMPRESSION_ZSTD, &[], &z, 8).unwrap_err().starts_with("WIA: zstd chunk failed: "));
}

#[test]
fn archived_files_are_expanded_by_method() {
    let n = PLAIN.len() as u64;
    let plain = Ok(PLAIN.to_vec());
    assert_eq!(expand(0, n, PLAIN.to_vec()), plain);
    assert_eq!(expand(8, n, deflate(PLAIN)), plain);
    assert_eq!(expand(12, n, BZ2.to_vec()), plain);
    assert_eq!(expand(93, n, zstd::bulk::compress(PLAIN, 3).unwrap()), plain);
    let mut lzma = vec![9, 20, 5, 0];
    lzma.extend(LZMA.0);
    lzma.extend(LZMA.1);
    assert_eq!(expand(14, n, lzma), plain);
    assert_eq!(expand(14, n, vec![0; 8]).unwrap_err(), "ZIP: LZMA entry is too short");
    assert_eq!(expand(97, n, Vec::new()).unwrap_err(), "ZIP: unsupported compression method 97");
}

fn put_be(v: &mut [u8], at: usize, n: u32) {
    v[at..at + 4].copy_from_slice(&n.to_be_bytes());
}

/// An image with its tables and groups behind the two headers.
fn rvz(disc: &[u8], chunk: usize) -> Vec<u8> {
    let count = disc.len().div_ceil(chunk);
    let mut raw = vec![0; 24];
    put_be(&mut raw, 4, 0x80);
    put_be(&mut raw, 12, disc.len() as u32 - 0x80);
    put_be(&mut raw, 20, count as u32);
    let raw = zstd::bulk::compress(&raw, 3).unwrap();
    let mut body: Vec<u8> = Vec::new();
    let mut table: Vec<u8> = Vec::new();
    for (k, piece) in disc.chunks(chunk).enumerate() {
        body.resize(body.len().next_multiple_of(4), 0);
        let at = (0x200 + body.len()) / 4;
        // Every other group is stored as it is.
        let (data, flag) = if k % 2 == 0 {
            (zstd::bulk::compress(piece, 3).unwrap(), 0x8000_0000)
        } else {
            (piece.to_vec(), 0)
        };
        table.extend((at as u32).to_be_bytes());
        table.extend((data.len() as u32 | flag).to_be_bytes());
        table.extend([0; 4]);
        body.extend(data);
    }
    let table = zstd::bulk::compress(&table, 3).unwrap();
    let mut v = vec![0; 0x200];
    v[..4].copy_from_slice(b"RVZ\x01");
    put_be(&mut v, 0x0C, 0xDC);
    put_be(&mut v, 0x28, disc.len() as u32);
    put_be(&mut v, 0x48 + 4, COMPRESSION_ZSTD);
    put_be(&mut v, 0x48 + 0x0C, chunk as u32);
    v[0x58..0xD8].copy_from_slice(&disc[..0x80]);
    v.extend(body);
    put_be(&mut v, 0x48 + 0xB4, 1);
    let at = v.len() as u32;
    put_be(&mut v, 0x48 + 0xBC, at);
    put_be(&mut v, 0x48 + 0xC0, raw.len() as u32);
    v.extend(raw);
    put_be(&mut v, 0x48 + 0xC4, count as u32);
    let at = v.len() as u32;
    put_be(&mut v, 0x48 + 0xCC, at);
    put_be(&mut v, 0x48 + 0xD0, table.len() as u32);
    v.extend(table);
    v
}

/// The image of a disc with a gap in its middle and one at its end.
fn gappy() -> (Vec<u8>, Vec<u8>) {
    let mut disc: Vec<u8> = (0..0x40000).map(|k| (k % 241) as u8 + 1).collect();
    disc[0x10000..0x20000].fill(0);
    disc[0x30000..].fill(0);
    let mut v = rvz(&disc, 0x10000);
    // Two ranges of one group each.
    let mut raw = vec![0; 48];
    put_be(&mut raw, 4, 0x80);
    put_be(&mut raw, 12, 0x10000 - 0x80);
    put_be(&mut raw, 20, 1);
    put_be(&mut raw, 24 + 4, 0x20000);
    put_be(&mut raw, 24 + 12, 0x10000);
    put_be(&mut raw, 24 + 16, 2);
    put_be(&mut raw, 24 + 20, 1);
    let raw = zstd::bulk::compress(&raw, 3).unwrap();
    put_be(&mut v, 0x48 + 0xB4, 2);
    let at = v.len() as u32;
    put_be(&mut v, 0x48 + 0xBC, at);
    put_be(&mut v, 0x48 + 0xC0, raw.len() as u32);
    v.extend(raw);
    (disc, v)
}

#[test]
fn gaps_of_a_console_disc_are_zeros_up_to_the_next_range() {
    let (disc, v) = gappy();
    let mut r = WiaReader::open(MemSource::new(v)).ok().unwrap();
    let b = r.read_at(0x18000, 0x10000).unwrap();
    assert!(b == disc[0x18000..0x28000]);
    let b = r.read_at(0x3F000, 0x10000).unwrap();
    assert_eq!(b, vec![0; 0x1000]);
    let b = r.read_at(0, 0x100000).unwrap();
    assert!(b == disc);
}

#[test]
fn a_compressed_console_disc_is_read() {
    let disc: Vec<u8> = (0..0x28000).map(|k| (k % 241) as u8).collect();
    let mut r = WiaReader::open(MemSource::new(rvz(&disc, 0x10000))).ok().unwrap();
    assert_eq!((r.total_bytes(), r.partition_count()), (0x28000, 0));
    let mut out = Vec::new();
    loop {
        let b = r.read_at(out.len() as u64, 0x7000).unwrap();
        if b.is_empty() {
            break;
        }
        out.extend(b);
    }
    assert!(out == disc);
    let mut v = rvz(&disc, 0x10000);
    put_be(&mut v, 0x48 + 0x0C, 0);
    assert_eq!(WiaReader::open(MemSource::new(v)).err().unwrap(), "WIA: chunk size is zero");
}

fn local(name: &str, method: u16, raw: &[u8], size: u32) -> Vec<u8> {
    let mut v = b"PK\x03\x04\x14\0\0\0".to_vec();
    v.extend(method.to_le_bytes());
    v.extend([0; 8]);
    v.extend((raw.len() as u32).to_le_bytes());
    v.extend(size.to_le_bytes());
    v.extend((name.len() as u16).to_le_bytes());
    v.extend([0; 2]);
    v.extend(name.as_bytes());
    v.extend(raw);
    v
}

fn central(name: &str, method: u16, raw: &[u8], size: u32, at: u32) -> Vec<u8> {
    let mut v = b"PK\x01\x02\x14\0\x14\0\0\0".to_vec();
    v.extend(method.to_le_bytes());
    v.extend([0, 0, 0x21, 0]);
    v.extend([0; 4]);
    v.extend((raw.len() as u32).to_le_bytes());
    v.extend(size.to_le_bytes());
    v.extend((name.len() as u16).to_le_bytes());
    v.extend([0; 12]);
    v.extend(at.to_le_bytes());
    v.extend(name.as_bytes());
    v
}

#[test]
fn a_zip_archive_is_listed_and_read() {
    let packed = deflate(PLAIN);
    let n = PLAIN.len() as u32;
    let mut v = local("dir/a.txt", 8, &packed, n);
    let second = v.len() as u32;
    v.extend(local("b", 0, b"bee", 3));
    let dir = v.len() as u32;
    v.extend(central("dir/a.txt", 8, &packed, n, 0));
    v.extend(central("b", 0, b"bee", 3, second));
    let size = v.len() as u32 - dir;
    v.extend(b"PK\x05\x06\0\0\0\0\x02\0\x02\0");
    v.extend(size.to_le_bytes());
    v.extend(dir.to_le_bytes());
    v.extend([0; 2]);
    let len = v.len() as u64;
    assert!(is_zip(&mut MemSource::new(v.clone())));
    assert!(!is_zip(&mut MemSource::new(b"PK".to_vec())));
    let mut z = ZipArchive::open(MemSource::new(v), len).ok().unwrap();
    let names: Vec<String> = z.list_directory("/").ok().unwrap().into_iter().map(|e| e.name).collect();
    assert_eq!(names, ["dir", "b"]);
    assert_eq!(z.extract_file("/dir/a.txt").unwrap(), PLAIN);
    assert_eq!(z.extract_file("/b").unwrap(), b"bee");
    assert_eq!(z.extract_directory("/dir").ok().unwrap().len(), 1);
    assert!(z.extract_file("/c").is_err());
}

fn member(name: &str, kind: u8, data: &[u8]) -> Vec<u8> {
    let mut v = vec![0; 512];
    v[..name.len()].copy_from_slice(name.as_bytes());
    v[124..135].copy_from_slice(format!("{:011o}", data.len()).as_bytes());
    v[136..147].copy_from_slice(b"00000000000");
    v[148..156].fill(b' ');
    v[156] = kind;
    v[257..263].copy_from_slice(b"ustar\0");
    let sum: u32 = v.iter().map(|&b| b as u32).sum();
    v[148..155].copy_from_slice(format!("{sum:06o}\0").as_bytes());
    v.extend(data);
    v.resize(v.len().next_multiple_of(512), 0);
    v
}

#[test]
fn a_tar_archive_is_read_in_any_wrapper() {
    let mut v = member("d/one", b'0', PLAIN);
    v.extend(member("d/two", b'0', b"2"));
    v.extend([0; 1024]);
    assert!(is_tar(&mut MemSource::new(v.clone())));
    assert!(!is_tar(&mut MemSource::new(vec![0; 100])));
    for image in [v.clone(), gzip(&v), zstd::stream::encode_all(&v[..], 3).unwrap()] {
        let len = image.len() as u64;
        let mut t = TarArchive::open(MemSource::new(image), len).ok().unwrap();
        let names: Vec<String> = t.list_directory("/d").ok().unwrap().into_iter().map(|e| e.name).collect();
        assert_eq!(names, ["one", "two"]);
        assert_eq!(t.extract_file("/d/one").unwrap(), PLAIN);
        assert_eq!(t.extract_directory("/d").ok().unwrap().len(), 2);
    }
}

#[test]
fn a_size_in_a_pax_record_is_the_length_of_the_data() {
    let mut v = member("x", b'x', b"12 size=600\n");
    let mut big = member("long", b'0', &[7; 600]);
    big[124..135].copy_from_slice(b"00000000000");
    v.extend(big);
    v.extend(member("next", b'0', b"n"));
    v.extend([0; 1024]);
    let len = v.len() as u64;
    let mut t = TarArchive::open(MemSource::new(v), len).ok().unwrap();
    let lines: Vec<(String, u32)> =
        t.list_directory("/").ok().unwrap().into_iter().map(|e| (e.name, e.size)).collect();
    assert_eq!(lines, [("long".to_string(), 600), ("next".to_string(), 1)]);
    assert_eq!(t.extract_file("/long").unwrap(), vec![7; 600]);
    assert_eq!(t.extract_file("/next").unwrap(), b"n");
}

#[test]
fn archives_are_known_by_their_first_bytes() {
    let mut v = 0x55AA_1234u32.to_le_bytes().to_vec();
    v.extend(1u32.to_le_bytes());
    assert!(is_vpk(&mut MemSource::new(v)));
    assert!(!is_vpk(&mut MemSource::new(vec![0; 8])));
}

// ── Encryption ──────────────────────────────────────────────────────────────

#[test]
fn a_sector_is_encrypted_with_its_number() {
    let key: Vec<u8> = (0..16).collect();
    let regions = vec![
        Region { first: 0, last: 1, encrypted: false },
        Region { first: 2, last: 5, encrypted: true },
    ];
    let plain: Vec<u8> = (0..2048).map(|k| (k % 251) as u8).collect();
    assert_eq!(convert_sector(&key, &regions, true, 1, &plain), plain);
    let mut iv = [0; 16];
    iv[15] = 3;
    let e = convert_sector(&key, &regions, true, 3, &plain);
    assert_eq!(e, encrypted(&key, &iv, &plain));
    assert_eq!(convert_sector(&key, &regions, false, 3, &e), plain);
    let two = [plain.clone(), plain.clone()].concat();
    let c = convert_chunk(&key, &regions, true, 1, &two);
    assert_eq!(c[..2048], plain);
    assert_eq!(convert_chunk(&key, &regions, false, 1, &c), two);
}

#[test]
fn a_conversion_reports_its_chunks_and_stops() {
    let mut image: Vec<u8> = (0..4100 * 2048).map(|k| (k % 249) as u8).collect();
    image[..24].fill(0);
    image[3] = 2;
    image[15] = 1;
    image[19] = 4;
    image[23] = 5;
    let len = image.len() as u64;
    let key = [5; 16];
    let mut source = MemSource::new(image.clone());
    let mut job = Ps3Job::begin(&mut source, len, &key, true).ok().unwrap();
    let mut reports = Vec::new();
    let mut out = Vec::new();
    loop {
        match job.next(&mut source, true) {
            Ps3Step::Write { piece, done, total } => {
                reports.push((done, total));
                out.extend(piece);
            }
            Ps3Step::Done => break,
            Ps3Step::Stop { error, .. } => panic!("{error}"),
        }
    }
    assert_eq!(reports, [(2048, 4100), (4096, 4100), (4100, 4100)]);
    assert!(out == convert(&mut MemSource::new(image.clone()), len, &key, true).unwrap());
    let mut job = Ps3Job::begin(&mut source, len, &key, true).ok().unwrap();
    assert!(matches!(job.next(&mut source, true), Ps3Step::Write { done: 2048, .. }));
    match job.next(&mut source, false) {
        Ps3Step::Stop { error, remove } => assert_eq!((error.as_str(), remove), ("__cancelled__", true)),
        _ => panic!("not stopped"),
    }
    // The image is shorter than it says.
    let mut short = MemSource::new(image[..3000 * 2048].to_vec());
    let mut job = Ps3Job::begin(&mut short, len, &key, true).ok().unwrap();
    assert!(matches!(job.next(&mut short, true), Ps3Step::Write { .. }));
    match job.next(&mut short, true) {
        Ps3Step::Stop { error, remove } => assert!(error.starts_with("Read error: ") && !remove),
        _ => panic!("not stopped"),
    }
}

#[test]
fn a_wux_file_is_made_step_by_step() {
    // Two blocks of which the second is there twice, and a short one.
    let image = [vec![1; 512], vec![2; 512], vec![2; 512], vec![3; 100]].concat();
    let total = image.len() as u64;
    let mut source = MemSource::new(image.clone());
    let mut job = WuxJob::begin(total, 512).ok().unwrap();
    let mut reports = Vec::new();
    let mut out = Vec::new();
    let mut closed = false;
    loop {
        // The answer to the last report does not matter.
        match job.next(&mut source, !closed) {
            WuxStep::Report { done, total } => reports.push((done, total)),
            WuxStep::Head { bytes, size } => {
                assert_eq!(size, 512 + 3 * 512);
                out.extend(bytes);
            }
            WuxStep::Block { bytes, done, total } => {
                reports.push((done, total));
                out.extend(bytes);
            }
            WuxStep::Close { done, total } => {
                reports.push((done, total));
                closed = true;
            }
            WuxStep::Done => break,
            WuxStep::Stop { error, .. } => panic!("{error}"),
        }
    }
    let done: Vec<u64> = reports.iter().map(|r| r.0).collect();
    assert_eq!(done, [512, 1024, 1536, 1636, 2148, 2660, 3172, 3272]);
    assert!(reports.iter().all(|r| r.1 == 2 * total));
    assert_eq!(out, compress(&mut source, total, 512).unwrap());
    let stopped = |steps: usize| {
        let mut source = MemSource::new(image.clone());
        let mut job = WuxJob::begin(total, 512).ok().unwrap();
        for _ in 0..steps {
            job.next(&mut source, true);
        }
        match job.next(&mut source, false) {
            WuxStep::Stop { error, remove } => (error, remove),
            _ => panic!("not stopped"),
        }
    };
    // There is an output only once its head is written.
    assert_eq!(stopped(1), ("__cancelled__".to_string(), false));
    assert_eq!(stopped(6), ("__cancelled__".to_string(), true));
    assert_eq!(WuxJob::begin(0, 512).err().unwrap(), "WUX: input image is empty");
    assert_eq!(WuxJob::begin(9, 511).err().unwrap(), "WUX: invalid sector_size=511");
}

#[test]
fn a_whole_disc_is_converted_there_and_back() {
    let mut image: Vec<u8> = (0..6 * 2048).map(|k| (k % 249) as u8).collect();
    image[..24].fill(0);
    image[3] = 2;
    image[15] = 1;
    image[19] = 4;
    image[23] = 5;
    let len = image.len() as u64;
    let regions = parse_regions(&image[..4096], 6).unwrap();
    let bounds: Vec<(u64, u64, bool)> = regions.iter().map(|r| (r.first, r.last, r.encrypted)).collect();
    assert_eq!(bounds, [(0, 1, false), (2, 3, true), (4, 5, false)]);
    let key = [5; 16];
    let e = convert(&mut MemSource::new(image.clone()), len, &key, true).unwrap();
    assert!(e != image);
    assert_eq!(e[..4096], image[..4096]);
    assert_eq!(convert(&mut MemSource::new(e), len, &key, false).unwrap(), image);
    assert_eq!(
        prepare(&mut MemSource::new(image.clone()), len - 1).err().unwrap(),
        "Image size is not a multiple of 2048"
    );
    assert_eq!(
        prepare(&mut MemSource::new(vec![0; 4096]), 4096).err().unwrap(),
        "Not a recognizable PS3 region table"
    );
    let d = detect(&mut MemSource::new(image.clone()), len, None).unwrap();
    assert!(d.encrypted && d.total_sectors == 6);
    image[2 * 2048..2 * 2048 + 4].copy_from_slice(b"SCE\0");
    assert!(!detect(&mut MemSource::new(image.clone()), len, Some(2)).unwrap().encrypted);
    image[0xF70..0xF80].copy_from_slice(b"Encrypted 3K BLD");
    assert!(detect(&mut MemSource::new(image), len, Some(2)).unwrap().encrypted);
}

#[test]
fn a_key_stands_beside_its_image() {
    assert_eq!(find_key_file("/d/game.iso", true, true).unwrap(), "/d/game.dkey");
    assert_eq!(find_key_file("/d/game.iso", false, true).unwrap(), "/d/game.key");
    assert!(find_key_file("/d/game.iso", false, false).is_none());
    assert_eq!(find_key_file("/d/Game v1.1.iso", true, false).unwrap(), "/d/Game v1.1.dkey");
    assert_eq!(load_key(&[7; 16]).unwrap(), [7; 16]);
    let hex = b"00 01 02 03 04 05 06 07\n08 09 0a 0B 0c 0D 0e FF";
    assert_eq!(load_key(hex).unwrap(), [0, 1, 2, 3, 4, 5, 6, 7, 8, 9, 10, 11, 12, 13, 14, 255]);
    assert_eq!(
        load_key(b"abc").unwrap_err(),
        "Key must be 16 raw bytes or 32 hex chars (got 3 usable hex chars)"
    );
}

#[test]
fn a_wii_partition_is_decrypted() {
    let korean = [
        0x63, 0xB8, 0x2B, 0xB4, 0xF4, 0x61, 0x4E, 0x2E, 0x13, 0xF2, 0xFE, 0xFB, 0xBA, 0x4C, 0x9B, 0x7E,
    ];
    let at = 0x50000;
    let data = at + 0x8000;
    let mut v = vec![0; data + 0x8000];
    v[0x40000..0x40004].copy_from_slice(&1u32.to_be_bytes());
    v[0x40004..0x40008].copy_from_slice(&(0x40020u32 >> 2).to_be_bytes());
    v[0x40020..0x40024].copy_from_slice(&(0x50000u32 >> 2).to_be_bytes());
    v[at..at + 4].copy_from_slice(&0x0001_0001u32.to_be_bytes());
    v[at + 0x140..at + 0x147].copy_from_slice(b"Root-CA");
    v[at + 0x1BF..at + 0x1CF].copy_from_slice(&[9; 16]);
    v[at + 0x1DC..at + 0x1E4].copy_from_slice(b"titleids");
    v[at + 0x1F1] = 1;
    v[at + 0x2B8..at + 0x2BC].copy_from_slice(&(0x8000u32 >> 2).to_be_bytes());
    v[at + 0x2BC..at + 0x2C0].copy_from_slice(&(0x8000u32 >> 2).to_be_bytes());
    let mut id = b"titleids".to_vec();
    id.resize(16, 0);
    let key = decrypted(&korean, &id, &[9; 16]);
    let plain: Vec<u8> = (0..0x7C00).map(|k| (k % 253) as u8).collect();
    v[data + 0x3D0..data + 0x3E0].copy_from_slice(&[3; 16]);
    v[data + 0x400..].copy_from_slice(&encrypted(&key, &[3; 16], &plain));
    let len = v.len() as u64;
    assert!(is_wii_disc(&mut MemSource::new(v.clone()), len));
    let mut w = WiiPartReader::open(MemSource::new(v), len).ok().unwrap();
    assert_eq!(w.len(), 0x7C00);
    assert_eq!(w.read_at(100, 50).unwrap(), plain[100..150]);
    assert_eq!(w.read_at(0x7C00, 5).unwrap(), []);
    assert_eq!(
        WiiPartReader::open(MemSource::new(vec![0; 0x50000]), 0x50000).err().unwrap(),
        "Wii: no data partition found"
    );
}

#[test]
fn a_title_key_depends_on_the_common_key() {
    let mut tik = vec![0; 0x1E4];
    tik[0x1BF..0x1CF].copy_from_slice(&[9; 16]);
    let a = unwrap_title_key(&tik, true).unwrap();
    let b = unwrap_title_key(&tik, false).unwrap();
    assert_eq!(a.len(), 16);
    assert!(a != b);
}

/// A file table: for each entry whether it is a directory, its name, what its data
/// and size fields hold, and its content.
fn file_table(sections: &[u32], entries: &[(bool, &str, u32, u32, u16)]) -> Vec<u8> {
    let mut v = vec![0; 0x20];
    v[..4].copy_from_slice(b"FST\0");
    put_be(&mut v, 4, 1);
    put_be(&mut v, 8, sections.len() as u32);
    for at in sections {
        v.extend(at.to_be_bytes());
        v.extend([0; 0x1C]);
    }
    let mut names: Vec<u8> = Vec::new();
    for (dir, name, data, size, content) in entries {
        let mut e = vec![0; 16];
        put_be(&mut e, 0, names.len() as u32);
        e[0] = u8::from(*dir);
        put_be(&mut e, 4, *data);
        put_be(&mut e, 8, *size);
        e[14..].copy_from_slice(&content.to_be_bytes());
        v.extend(e);
        names.extend(name.as_bytes());
        names.push(0);
    }
    v.extend(names);
    v
}

#[test]
fn both_partitions_of_a_wii_u_disc_are_read() {
    let mut tik = vec![0; 0x1E4];
    tik[0x1BF..0x1CF].copy_from_slice(&[9; 16]);
    let key = unwrap_title_key(&tik, false).unwrap();
    // Of two contents, the second is stored with the hashes of its blocks.
    let mut tmd = vec![0; 0xB40];
    tmd[0x1DF] = 2;
    tmd[0xAC0 + 0x35] = 1;
    tmd[0xAC0 + 0x37] = 2;
    let mut v = vec![0; 0x70000];
    let si = file_table(
        &[1],
        &[
            (true, "", 0, 4, 0),
            (true, "02", 0, 4, 0),
            (false, "title.tik", 0x1000, tik.len() as u32, 0),
            (false, "title.tmd", 0x2000, tmd.len() as u32, 0),
        ],
    );
    v[0x28000..0x28000 + si.len()].copy_from_slice(&si);
    v[0x29000..0x29000 + tik.len()].copy_from_slice(&tik);
    v[0x2A000..0x2A000 + tmd.len()].copy_from_slice(&tmd);
    put_be(&mut v, 0x48000, 0xCC93_A4F5);
    put_be(&mut v, 0x48004, 0x8000);
    let mut gm = file_table(&[1, 3], &[(true, "", 0, 2, 0), (false, "data", 0, 10, 1)]);
    put_be(&mut v, 0x48014, gm.len() as u32);
    put_be(&mut v, 0x48018, 1);
    gm.resize(0x8000, 0);
    v[0x50000..0x58000].copy_from_slice(&encrypted(&key, &[0; 16], &gm));
    let hashes: Vec<u8> = (0..0x400).map(|k| (k % 239) as u8).collect();
    let mut data = vec![0; 0xFC00];
    data[..10].copy_from_slice(b"game data!");
    v[0x60000..0x60400].copy_from_slice(&encrypted(&key, &[0; 16], &hashes));
    v[0x60400..0x70000].copy_from_slice(&encrypted(&key, &hashes[..16], &data));
    let len = v.len() as u64;
    let disc = || MemSource::new(v.clone());
    let (t, closed) = open_wiiu_si_fst(&mut disc(), len, 0x8000, None).ok().unwrap();
    assert!(!closed);
    assert_eq!(wiiu_fst_list_dir(&t, "/02").ok().unwrap().len(), 2);
    assert_eq!(wiiu_fst_extract_file(&mut disc(), &t, None, "/02/title.tik").unwrap(), tik);
    let (t, found) = open_wiiu_gm_fst(&mut disc(), len, 0x8000, None).ok().unwrap();
    assert_eq!(found, key);
    assert_eq!(wiiu_fst_list_dir(&t, "/").ok().unwrap()[0].name, "data");
    assert_eq!(wiiu_gm_fst_extract_file(&mut disc(), &t, &key, "/data").unwrap(), b"game data!");
    assert_eq!(plan_wiiu_dir(&t, "WiiU GM", "/", "/o").ok().unwrap().files[0].dest, "/o/data");
    let mut closed = v.clone();
    closed[0x28000] = 0;
    assert_eq!(
        open_wiiu_si_fst(&mut MemSource::new(closed.clone()), len, 0x8000, None).err().unwrap(),
        "Wii U disc is encrypted; place a matching .key file alongside it"
    );
    assert_eq!(
        open_wiiu_si_fst(&mut MemSource::new(closed), len, 0x8000, Some(&[1; 16])).err().unwrap(),
        "Wii U SI FST decryption failed — wrong title key?"
    );
    let mut gone = v.clone();
    gone[0x48000] = 0;
    assert_eq!(
        open_wiiu_gm_fst(&mut MemSource::new(gone), len, 0x8000, None).err().unwrap(),
        "WiiU: GM partition not found at known offsets"
    );
}

#[test]
fn an_encrypted_system_partition_is_read_with_its_key() {
    let key = [6; 16];
    let mut si = file_table(&[1], &[(true, "", 0, 2, 0), (false, "f", 0x4000, 4, 0)]);
    si.resize(0x8000, 0);
    si[0x4000..0x4004].copy_from_slice(b"open");
    let mut v = vec![0; 0x28000];
    v.extend(encrypted(&key, &[0; 16], &si));
    let len = v.len() as u64;
    let (t, closed) = open_wiiu_si_fst(&mut MemSource::new(v.clone()), len, 0x8000, Some(&key)).ok().unwrap();
    assert!(closed);
    assert_eq!(wiiu_fst_extract_file(&mut MemSource::new(v), &t, Some(&key), "/f").unwrap(), b"open");
}

// ── File systems ────────────────────────────────────────────────────────────

#[test]
fn a_pc_engine_disc_has_one_program() {
    let mut v = vec![0; 6 * 2048];
    v[2..4].copy_from_slice(&[4, 2]);
    v[0x20..0x37].copy_from_slice(b"PC Engine CD-ROM SYSTEM");
    v[0x38..0x3B].copy_from_slice(b"(c)");
    v[0x3C..0x3C + 22].copy_from_slice(b"MY GAME         ABC   ");
    v[4 * 2048..].fill(7);
    assert!(is_pce_disc(&mut MemSource::new(v.clone()), 0, 0));
    let mut fs = PceFs::new(MemSource::new(v), 0, 0).ok().unwrap();
    let e = fs.list_directory("/").ok().unwrap();
    assert_eq!((e[0].name.as_str(), e[0].lba, e[0].size, e[0].size_bytes), ("MY GAME ABC", 4, 2, 4096));
    assert_eq!(fs.extract_file("/x").unwrap(), vec![7; 4096]);
    assert_eq!(
        PceFs::new(MemSource::new(vec![0; 4096]), 0, 0).err().unwrap(),
        "Not a PC Engine CD-ROM disc"
    );
}

fn opera_entry(tag: &[u8; 4], name: &str, size: u32, lba: u32) -> Vec<u8> {
    let mut v = vec![0; 72];
    v[8..12].copy_from_slice(tag);
    v[16..20].copy_from_slice(&size.to_be_bytes());
    v[32..32 + name.len()].copy_from_slice(name.as_bytes());
    v[68..72].copy_from_slice(&lba.to_be_bytes());
    v
}

fn opera_block(v: &mut [u8], lba: usize, entries: &[Vec<u8>], next: u32) {
    let body = entries.concat();
    let at = lba * 2048;
    v[at..at + 4].copy_from_slice(&next.to_be_bytes());
    v[at + 12..at + 16].copy_from_slice(&(20 + body.len() as u32).to_be_bytes());
    v[at + 16..at + 20].copy_from_slice(&20u32.to_be_bytes());
    v[at + 20..at + 20 + body.len()].copy_from_slice(&body);
}

#[test]
fn a_3do_disc_in_a_chd_image_is_read_by_its_units() {
    let mut v = vec![0; 8 * 2048];
    v[..7].copy_from_slice(&[1, 0x5A, 0x5A, 0x5A, 0x5A, 0x5A, 1]);
    v[100..104].copy_from_slice(&2u32.to_be_bytes());
    opera_block(&mut v, 2, &[opera_entry(b"    ", "f", 5, 5)], 0xFFFF_FFFF);
    v[5 * 2048..5 * 2048 + 5].copy_from_slice(b"hello");
    let mut units = Vec::new();
    for sector in v.chunks(2048) {
        units.extend([0; 16]);
        units.extend(sector);
        units.extend([0; 384]);
    }
    let len = units.len() as u64;
    let source = || MemSource::new(units.clone());
    let l = TrackLayout {
        track_offset: 0,
        user_data_offset: 16,
        stride: 2448,
        lba_offset: 0,
        descramble: false,
    };
    let v = list_disc_contents(Reader::Opera, source(), len, &l, &[], "/").unwrap().ok().unwrap();
    assert_eq!(v[0].name, "f");
    assert_eq!(save_file(Reader::Opera, source(), len, &l, &[], "/f").unwrap(), Ok(b"hello".to_vec()));
    let p = save_directory(Reader::Opera, source(), len, &l, &[], "/", "/o").unwrap().ok().unwrap();
    assert_eq!(p.files[0].dest, "/o/f");
    assert_eq!(reader_layout(ImageFormat::Chd, Reader::Opera, l).stride, 2448);
    assert_eq!(reader_layout(ImageFormat::Cue, Reader::Opera, l).stride, 2352);
    assert_eq!(reader_layout(ImageFormat::Cue, Reader::Iso, l).stride, 2448);
}

#[test]
fn a_3do_disc_is_listed_and_read() {
    let mut v = vec![0; 8 * 2048];
    v[..7].copy_from_slice(&[1, 0x5A, 0x5A, 0x5A, 0x5A, 0x5A, 1]);
    v[100..104].copy_from_slice(&2u32.to_be_bytes());
    opera_block(&mut v, 2, &[opera_entry(b"*dir", "sub", 2048, 4)], 1);
    opera_block(&mut v, 3, &[opera_entry(b"    ", "late", 3, 6)], 0xFFFF_FFFF);
    opera_block(&mut v, 4, &[opera_entry(b"Lvl ", "f", 5, 5)], 0xFFFF_FFFF);
    v[5 * 2048..5 * 2048 + 5].copy_from_slice(b"hello");
    v[6 * 2048..6 * 2048 + 3].copy_from_slice(b"end");
    assert!(is_threedo_disc(&mut MemSource::new(v.clone()), 0, 0));
    let mut fs = ThreeDOFs::new(MemSource::new(v), 0, 0, 2048).ok().unwrap();
    let names: Vec<String> = fs.list_directory("/").ok().unwrap().into_iter().map(|e| e.name).collect();
    assert_eq!(names, ["sub", "late"]);
    assert_eq!(fs.extract_file("/sub/f").unwrap(), b"hello");
    assert_eq!(fs.extract_file("/late").unwrap(), b"end");
    assert_eq!(fs.list_directory("/none").err().unwrap(), "Directory not found: none");
    assert_eq!(
        ThreeDOFs::new(MemSource::new(vec![0; 2048]), 0, 0, 2048).err().unwrap(),
        "Not a 3DO OperaFS disc"
    );
    assert_eq!(
        ThreeDOFs::new(MemSource::new(Vec::new()), 0, 0, 2048).err().unwrap(),
        "Cannot read 3DO volume header"
    );
}

fn tag(v: &mut [u8], at: usize, id: u16) {
    v[at..at + 2].copy_from_slice(&id.to_le_bytes());
    v[at + 4] = v[at].wrapping_add(v[at + 1]);
}

fn put(v: &mut [u8], at: usize, n: u32) {
    v[at..at + 4].copy_from_slice(&n.to_le_bytes());
}

fn identifier(kind: u8, lbn: u32, name: &[u8]) -> Vec<u8> {
    let mut v = vec![0; 38];
    tag(&mut v, 0, 257);
    v[18] = kind;
    v[19] = name.len() as u8;
    put(&mut v, 24, lbn);
    v.extend(name);
    v.resize(v.len().next_multiple_of(4), 0);
    v
}

/// The entry of a file whose data stands behind it.
fn embedded(v: &mut [u8], at: usize, data: &[u8]) {
    tag(v, at, 261);
    v[at + 34] = 3;
    put(v, at + 56, data.len() as u32);
    v[at + 86..at + 88].copy_from_slice(&2001u16.to_le_bytes());
    v[at + 88..at + 93].copy_from_slice(&[2, 3, 4, 5, 6]);
    put(v, at + 172, data.len() as u32);
    v[at + 176..at + 176 + data.len()].copy_from_slice(data);
}

#[test]
fn a_udf_volume_is_listed_and_read() {
    let mut v = vec![0; 310 * 2048];
    let s = |lba: usize| lba * 2048;
    tag(&mut v, s(256), 2);
    put(&mut v, s(256) + 16, 4 * 2048);
    put(&mut v, s(256) + 20, 257);
    v[s(256) + 4] = v[s(256)..s(256) + 16]
        .iter()
        .enumerate()
        .filter(|(k, _)| *k != 4)
        .fold(0u8, |a, (_, b)| a.wrapping_add(*b));
    tag(&mut v, s(257), 5);
    put(&mut v, s(257) + 188, 270);
    tag(&mut v, s(258), 6);
    v[s(258) + 84..s(258) + 88].copy_from_slice(b"\x08VOL");
    v[s(258) + 84 + 127] = 4;
    put(&mut v, s(258) + 436, 262);
    tag(&mut v, s(259), 8);
    tag(&mut v, s(262), 9);
    put(&mut v, s(262) + 76, 46);
    v[s(262) + 120..s(262) + 122].copy_from_slice(&0x0260u16.to_le_bytes());
    tag(&mut v, s(270), 256);
    put(&mut v, s(270) + 404, 1);
    let root = [
        identifier(10, 1, b""),
        identifier(2, 2, b"\x08Dir"),
        identifier(0, 3, b"\x10\0\xE9\0b"),
    ]
    .concat();
    embedded(&mut v, s(271), &root);
    embedded(&mut v, s(272), &identifier(0, 4, b"\x08in"));
    embedded(&mut v, s(273), b"short");
    tag(&mut v, s(274), 261);
    put(&mut v, s(274) + 56, 2500);
    put(&mut v, s(274) + 172, 8);
    put(&mut v, s(274) + 176, 2500);
    put(&mut v, s(274) + 180, 10);
    v[s(280)..s(280) + 2500].fill(6);
    let len = v.len() as u64;
    assert!(is_udf_disc(&mut MemSource::new(v.clone()), 0, 0));
    let mut fs = UdfFs::new(MemSource::new(v.clone()), len, 0, 0).ok().unwrap();
    assert_eq!((fs.volume_name.as_str(), fs.udf_version.as_str()), ("VOL", "UDF 2.60"));
    let e = fs.list_directory("/").ok().unwrap();
    let lines: Vec<(&str, bool, u32)> = e.iter().map(|e| (e.name.as_str(), e.is_dir, e.size)).collect();
    assert_eq!(lines, [("Dir", true, 0), ("\u{e9}b", false, 5)]);
    assert_eq!(e[1].modified, "2001-02-03 04:05:06");
    assert_eq!(fs.extract_file("/\u{e9}B").unwrap(), b"short");
    assert_eq!(fs.extract_file("/dir/in").unwrap(), vec![6; 2500]);
    assert_eq!(fs.extract_file("/none").unwrap_err(), "UDF: 'none' not found");
    tag(&mut v, s(270), 1);
    assert_eq!(
        UdfFs::new(MemSource::new(v.clone()), len, 0, 0).err().unwrap(),
        "UDF: File Set Descriptor not found"
    );
    tag(&mut v, s(257), 1);
    assert_eq!(
        UdfFs::new(MemSource::new(v), len, 0, 0).err().unwrap(),
        "UDF: no Partition Descriptor found"
    );
    assert_eq!(format_udf_version(0x0102), "UDF 1.02");
}

#[test]
fn a_file_set_is_found_anywhere_on_the_disc() {
    let far = 131_100;
    let mut v = vec![0; (far + 4) * 2048];
    let s = |lba: usize| lba * 2048;
    tag(&mut v, s(256), 2);
    put(&mut v, s(256) + 16, 3 * 2048);
    put(&mut v, s(256) + 20, 257);
    tag(&mut v, s(257), 5);
    put(&mut v, s(257) + 188, 270);
    tag(&mut v, s(258), 6);
    put(&mut v, s(258) + 264, 64);
    put(&mut v, s(258) + 268, 1);
    v[s(258) + 440] = 2;
    v[s(258) + 441] = 64;
    v[s(258) + 445..s(258) + 468].copy_from_slice(b"*UDF Metadata Partition");
    put(&mut v, s(258) + 480, 5);
    tag(&mut v, s(259), 8);
    tag(&mut v, s(275), 261);
    put(&mut v, s(275) + 56, 100);
    tag(&mut v, s(far), 256);
    put(&mut v, s(far) + 404, 1);
    embedded(&mut v, s(far + 1), &identifier(0, 2, b"\x08far"));
    embedded(&mut v, s(far + 2), b"away");
    let len = v.len() as u64;
    let mut fs = UdfFs::new(MemSource::new(v), len, 0, 0).ok().unwrap();
    assert_eq!(fs.extract_file("/far").unwrap(), b"away");
}

#[test]
fn a_move_leads_to_a_position() {
    assert_eq!(seek_target(5, 10, Whence::Current(-5)), Some(0));
    assert_eq!(seek_target(5, 10, Whence::Current(-6)), None);
    assert_eq!(seek_target(5, 10, Whence::End(3)), Some(13));
    assert_eq!(seek_target(5, 10, Whence::Start(u64::MAX)), None);
    assert_eq!(seek_saturating(5, 10, Whence::Current(-6)), 0);
    assert_eq!(seek_saturating(u64::MAX, 0, Whence::Current(1)), u64::MAX);
}
