use std::io::Write;
use disc_xplorer::audio::{
    add_reply, audio_format, find_audio_track, interleaved_samples, save_audio_as_mp3, save_audio_as_wav,
    stereo_channels, track_list, wav_header, AudioFormat, AudioReader, TrackList,
};
use disc_xplorer::codec::Mp3Stream;
use disc_xplorer::conversion::{
    check_room, ps3_check_space, ps3_iso_info, verify_wux, wiiu_conv_info, wiiu_convert,
    ConvCancelState, Throttle, WiiUKeyState,
};
use disc_xplorer::plain_image::ZstReader;
use disc_xplorer::redumper::{SbramReader, SdramReader};
use disc_xplorer::routing::ImageFormat;
use disc_xplorer::sector_view::{
    access_for_export, access_for_view, can_compare_runs, export_sector_range, find_diff_sector,
    first_track, flat_info, layout_of_file, layout_of_mdx, layout_of_track, open_chd_sectors,
    open_flat, open_packed, open_whole, read_sector_impl, Access, FlatLayout, SectorImage, Stored,
};
use disc_xplorer::source::MemSource;
use disc_xplorer::track::{DataTrack, TrackInfo};
use disc_xplorer::wux_reader::WuxReader;
use disc_xplorer::wux_writer::compress;

const SYNC: [u8; 12] = [0, 255, 255, 255, 255, 255, 255, 255, 255, 255, 255, 0];

fn numbered(n: usize) -> Vec<u8> {
    (0..n).map(|i| (i / 2048 * 7 + i % 251) as u8).collect()
}

fn raw_sector(k: u8, mode: u8) -> Vec<u8> {
    let mut s = SYNC.to_vec();
    s.extend([0, 2, k, mode]);
    s.resize(2352, k);
    s
}

fn layout(size: u64, udo: u64, at: u64) -> FlatLayout {
    FlatLayout { path: "x".to_string(), sector_size: size, user_data_offset: udo, data_offset: at }
}

fn flat(image: Vec<u8>, l: &FlatLayout) -> Stored<MemSource> {
    let len = image.len() as u64;
    open_flat(MemSource::new(image), len, l)
}

fn data_track(stride: u64, udo: u64) -> DataTrack {
    DataTrack {
        bin_path: "t.bin".to_string(),
        track_offset: 32,
        user_data_offset: udo,
        stride,
        lba_offset: 0,
        descramble: false,
        sector_count: 0,
    }
}

// ── Views ───────────────────────────────────────────────────────────────────

#[test]
fn a_name_says_how_sectors_are_reached() {
    assert!(access_for_view("a.cue") == Access::Sheet);
    assert!(access_for_view("a.mdx") == Access::Mdx);
    assert!(access_for_view("a.wux") == Access::Wux);
    assert!(access_for_view("a.wud") == Access::Plain);
    assert!(access_for_view("a.scram") == Access::Scram);
    assert!(access_for_view("a.aif") == Access::Refused);
    assert!(access_for_view("a.skeleton") == Access::Plain);
    assert!(access_for_view("a.iso.zst") == Access::Zst);
    assert!(access_for_export("a.wud") == Access::Wud);
    assert!(access_for_export("a.scram") == Access::Plain);
    assert!(access_for_export("a.aif") == Access::Plain);
}

#[test]
fn a_track_says_how_its_sectors_stand() {
    let t = data_track(2336, 0);
    assert_eq!(layout_of_track(ImageFormat::Cue, &t, false).sector_size, 2352);
    assert_eq!(layout_of_track(ImageFormat::Nrg, &t, false).sector_size, 2048);
    assert_eq!(layout_of_track(ImageFormat::Nrg, &data_track(2336, 16), false).sector_size, 2352);
    assert_eq!(layout_of_track(ImageFormat::Cdi, &t, true).sector_size, 2336);
    assert_eq!(layout_of_track(ImageFormat::BlindWrite, &t, false).sector_size, 2336);
    assert_eq!(layout_of_track(ImageFormat::BlindWrite, &t, true).sector_size, 2352);
    let l = layout_of_track(ImageFormat::Gdi, &t, false);
    assert_eq!((l.path.as_str(), l.data_offset), ("t.bin", 32));
    assert_eq!(first_track(Vec::new()).err().unwrap(), "No data track in CUE");
    assert_eq!(first_track(vec![t]).ok().unwrap().stride, 2336);
    let l = layout_of_file(&mut MemSource::new(raw_sector(1, 2)), "f");
    assert_eq!((l.sector_size, l.user_data_offset, l.data_offset), (2352, 24, 0));
    let l = layout_of_file(&mut MemSource::new(vec![0; 16]), "f");
    assert_eq!((l.sector_size, l.user_data_offset), (2048, 0));
    let mut mdx = vec![0; 64];
    mdx.extend(raw_sector(1, 1));
    let l = layout_of_mdx(&mut MemSource::new(mdx), "m");
    assert_eq!((l.sector_size, l.user_data_offset, l.data_offset), (2352, 16, 64));
}

#[test]
fn a_flat_sector_is_shown_as_it_stands() {
    let image = numbered(64 + 3 * 2048 + 100);
    let mut i = SectorImage::Stored(flat(image.clone(), &layout(2048, 0, 64)));
    let d = read_sector_impl(&mut i, 2).ok().unwrap();
    assert_eq!(d.bytes, image[64 + 4096..64 + 6144]);
    assert_eq!((d.sector_size, d.user_data_offset, d.total_sectors, d.lba), (2048, 0, 3, 2));
    assert_eq!(read_sector_impl(&mut i, 3).err().unwrap(), "Sector 3 out of range (0–2)");
    let mut none = SectorImage::Stored(flat(vec![0; 100], &layout(2048, 0, 64)));
    assert_eq!(read_sector_impl(&mut none, 0).err().unwrap(), "Image file is empty");
    let short = open_flat(MemSource::new(vec![0; 2048]), 4096, &layout(2048, 0, 0));
    assert_eq!(
        read_sector_impl(&mut SectorImage::Stored(short), 1).err().unwrap(),
        "Read error: failed to fill whole buffer"
    );
}

#[test]
fn raw_sectors_say_where_their_data_starts() {
    let mut chd = vec![0; 2448 * 8];
    chd[..2352].copy_from_slice(&raw_sector(1, 2));
    chd[2448..2448 + 2352].copy_from_slice(&raw_sector(2, 1));
    let total = chd.len() as u64;
    let mut i = SectorImage::Stored(open_chd_sectors(MemSource::new(chd), 19584, 2448, total));
    let d = read_sector_impl(&mut i, 0).ok().unwrap();
    assert_eq!((d.sector_size, d.user_data_offset, d.total_sectors), (2448, 24, 8));
    assert_eq!(read_sector_impl(&mut i, 1).ok().unwrap().user_data_offset, 16);
    assert_eq!(read_sector_impl(&mut i, 2).ok().unwrap().user_data_offset, 0);
    let mut none = SectorImage::Stored(open_chd_sectors(MemSource::new(Vec::new()), 2048, 2048, 0));
    assert_eq!(read_sector_impl(&mut none, 0).err().unwrap(), "CHD is empty");
}

#[test]
fn packed_images_show_what_they_unpack_to() {
    let image = numbered(6 * 2048);
    let packed = zstd::stream::encode_all(&image[..], 3).unwrap();
    let mut z: SectorImage<MemSource> =
        SectorImage::Stored(open_whole(Access::Zst, &packed).unwrap().ok().unwrap());
    let d = read_sector_impl(&mut z, 5).ok().unwrap();
    assert_eq!(d.bytes, image[5 * 2048..]);
    assert_eq!(d.total_sectors, 6);
    let bad: Option<Result<Stored<MemSource>, String>> = open_whole(Access::Zst, b"nothing");
    assert!(bad.unwrap().err().unwrap().starts_with("ZST: ZST decompress: "));
    let bad: Option<Result<Stored<MemSource>, String>> = open_whole(Access::Ecm, b"nothing");
    assert!(bad.unwrap().err().unwrap().starts_with("ECM: "));
    assert!(open_whole::<MemSource>(Access::Plain, b"").is_none());
    let mut empty: SectorImage<MemSource> = SectorImage::Stored(Stored::Zst(ZstReader::from_image(vec![1; 9])));
    assert_eq!(read_sector_impl(&mut empty, 0).err().unwrap(), "ZST image is empty");
    let bad = open_packed(Access::Cso, MemSource::new(vec![0; 24]), 24);
    assert_eq!(bad.unwrap().err().unwrap(), "CSO: Not a CSO file");
    assert!(open_packed(Access::Uif, MemSource::new(vec![0; 24]), 24).unwrap().err().unwrap().starts_with("UIF: "));
    assert_eq!(open_packed(Access::Wux, MemSource::new(vec![0; 32]), 32).unwrap().err().unwrap(), "WUX: Not a WUX file");
    assert!(open_packed(Access::Plain, MemSource::new(Vec::new()), 0).is_none());
    let mut w = SectorImage::Stored(open_packed(Access::Wbfs, MemSource::new(image.clone()), 12288).unwrap().ok().unwrap());
    assert_eq!(read_sector_impl(&mut w, 1).ok().unwrap().bytes, image[2048..4096]);
    let mut w = SectorImage::Stored(open_packed(Access::Wbfs, MemSource::new(Vec::new()), 0).unwrap().ok().unwrap());
    assert_eq!(read_sector_impl(&mut w, 0).err().unwrap(), "WBFS is empty");
}

/// A compressed image of two blocks: the first deflated, the second stored.
fn cso(image: &[u8]) -> Vec<u8> {
    let mut e = flate2::write::DeflateEncoder::new(Vec::new(), flate2::Compression::default());
    e.write_all(&image[..2048]).unwrap();
    let first = e.finish().unwrap();
    let mut out = b"CISO".to_vec();
    out.extend(24u32.to_le_bytes());
    out.extend((image.len() as u64).to_le_bytes());
    out.extend(2048u32.to_le_bytes());
    out.extend([1, 0, 0, 0]);
    // The low bit of an entry marks a stored block, so positions are even.
    let start = 24 + 12u32;
    let second = (start + first.len() as u32 + 1) & !1;
    out.extend(start.to_le_bytes());
    out.extend((second | 1).to_le_bytes());
    out.extend((second + 2048).to_le_bytes());
    out.extend(first);
    out.resize(second as usize, 0);
    out.extend(&image[2048..4096]);
    out
}

#[test]
fn compressed_blocks_are_shown_and_exported() {
    let image = numbered(4096);
    let file = cso(&image);
    let len = file.len() as u64;
    let mut c = open_packed(Access::Cso, MemSource::new(file), len).unwrap().ok().unwrap();
    assert!(c.holds_range(0, 1));
    assert_eq!(export_sector_range(&mut c, 0, 1).unwrap(), image);
    assert_eq!(export_sector_range(&mut c, 0, 2).unwrap_err(), "LBA 2 out of range (0–1)");
    let mut i = SectorImage::Stored(c);
    let d = read_sector_impl(&mut i, 0).ok().unwrap();
    assert_eq!(d.bytes, image[..2048]);
    assert_eq!(read_sector_impl(&mut i, 2).err().unwrap(), "Sector 2 out of range (0–1)");
}

#[test]
fn wii_u_images_are_shown_and_exported() {
    let mut image = numbered(0x8000 * 2);
    image.extend(vec![5; 0x8000]);
    let file = compress(&mut MemSource::new(image.clone()), image.len() as u64, 0x8000).unwrap();
    let len = file.len() as u64;
    let mut w = open_packed(Access::Wux, MemSource::new(file), len).unwrap().ok().unwrap();
    assert_eq!(export_sector_range(&mut w, 1, 40).unwrap(), image[2048..41 * 2048]);
    let mut i = SectorImage::Stored(w);
    assert_eq!(read_sector_impl(&mut i, 47).ok().unwrap().bytes, vec![5; 2048]);
    let mut wud = open_packed(Access::Wud, MemSource::new(image.clone()), image.len() as u64).unwrap().ok().unwrap();
    assert_eq!(export_sector_range(&mut wud, 0, 0).unwrap(), image[..2048]);
}

#[test]
fn dumps_are_descrambled_for_a_view() {
    let table: Vec<u8> = (0..2340).map(|i| (i * 3) as u8).collect();
    let plain = raw_sector(7, 2);
    let mut stored = plain.clone();
    for i in 12..2352 {
        stored[i] ^= table[i - 12];
    }
    let mut file = vec![0; 10];
    file.extend(&stored);
    let mut i = SectorImage::Scram { source: MemSource::new(file), len: 2362, start: 10, table: table.clone() };
    let d = read_sector_impl(&mut i, 0).ok().unwrap();
    assert_eq!(d.bytes, plain);
    assert_eq!((d.sector_size, d.user_data_offset, d.total_sectors), (2352, 24, 1));
    let mut none = SectorImage::Scram { source: MemSource::new(Vec::new()), len: 9, start: 10, table };
    assert_eq!(read_sector_impl(&mut none, 0).err().unwrap(), "SCRAM image is empty");
    let mut dvd = SectorImage::Sdram { dvd: SdramReader::new(MemSource::new(vec![0; 2366])), len: 2366 };
    assert_eq!(read_sector_impl(&mut dvd, 0).err().unwrap(), "Read error: failed to fill whole buffer");
    assert_eq!(read_sector_impl(&mut dvd, 1).err().unwrap(), "Sector 1 out of range (0–0)");
    let mut dvd = SectorImage::Sdram { dvd: SdramReader::new(MemSource::new(Vec::new())), len: 0 };
    assert_eq!(read_sector_impl(&mut dvd, 0).err().unwrap(), "SDRAM image is empty");
    let bd = SbramReader { source: MemSource::new(Vec::new()), lba_base: 0x100000 };
    let mut bd = SectorImage::Sbram { bd, len: 2051 };
    assert_eq!(read_sector_impl(&mut bd, 0).err().unwrap(), "SBRAM image is empty");
    let mut refused: SectorImage<MemSource> = SectorImage::Refused;
    assert_eq!(read_sector_impl(&mut refused, 0).err().unwrap(), "Sector view not supported for this format");
}

// ── Export and differences ──────────────────────────────────────────────────

#[test]
fn an_export_writes_the_image_itself() {
    let image = numbered(16 + 5 * 2352);
    let mut s = flat(image.clone(), &layout(2352, 16, 16));
    assert_eq!(export_sector_range(&mut s, 1, 3).unwrap(), image[16 + 2352..16 + 4 * 2352]);
    assert_eq!(export_sector_range(&mut s, 2, 1).unwrap_err(), "End LBA must be >= start LBA");
    assert_eq!(export_sector_range(&mut s, 0, 5).unwrap_err(), "LBA 5 out of range (0–4)");
    let mut none = flat(Vec::new(), &layout(2352, 16, 16));
    assert_eq!(export_sector_range(&mut none, 0, 0).unwrap_err(), "LBA 0 out of range (0–0)");
    let mut short = open_flat(MemSource::new(vec![1; 2048]), 4096, &layout(2048, 0, 0));
    assert_eq!(
        export_sector_range(&mut short, 0, 1).unwrap_err(),
        "Read error at LBA 1: failed to fill whole buffer"
    );
}

#[test]
fn a_short_read_of_an_export_keeps_what_was_there() {
    // Raw sectors in an unpacked image: each is read from its user data on.
    let mut image = raw_sector(1, 2);
    image.extend(raw_sector(2, 2));
    let mut z: Stored<MemSource> = Stored::Zst(ZstReader::from_image(image.clone()));
    let out = export_sector_range(&mut z, 0, 1).unwrap();
    let first = image[24..24 + 2352].to_vec();
    let mut second = image[2352 + 24..].to_vec();
    second.extend(&first[2352 - 24..]);
    assert_eq!(out[..2352], first);
    assert_eq!(out[2352..], second);
}

#[test]
fn differences_are_found_in_both_directions() {
    let a = numbered(700 * 2048);
    let mut b = vec![0; 8];
    b.extend(&a);
    b[8 + 3 * 2048 + 5] ^= 1;
    b[8 + 650 * 2048] ^= 1;
    let find = |from: u64, forward: bool, inclusive: bool, bulk: bool| {
        let x = SectorImage::Stored(flat(a.clone(), &layout(2048, 0, 0)));
        let y = SectorImage::Stored(flat(b.clone(), &layout(2048, 0, 8)));
        find_diff_sector(Some(x), Some(y), bulk, from, forward, inclusive)
    };
    for bulk in [true, false] {
        assert_eq!(find(0, true, false, bulk), Ok(Some(3)));
        assert_eq!(find(3, true, true, bulk), Ok(Some(3)));
        assert_eq!(find(3, true, false, bulk), Ok(Some(650)));
        assert_eq!(find(650, true, false, bulk), Ok(None));
        assert_eq!(find(700, false, false, bulk), Ok(Some(650)));
        assert_eq!(find(650, false, false, bulk), Ok(Some(3)));
        assert_eq!(find(3, false, false, bulk), Ok(None));
        assert_eq!(find(0, false, false, bulk), Ok(None));
    }
    assert_eq!(find(701, false, false, true), Err("failed to fill whole buffer".to_string()));
    assert_eq!(find(701, false, false, false), Ok(Some(650)));
    let x = SectorImage::Stored(flat(a.clone(), &layout(2048, 0, 0)));
    assert_eq!(find_diff_sector(Some(x), None::<SectorImage<MemSource>>, true, 5, true, false), Ok(Some(6)));
    let y = SectorImage::Stored(flat(a, &layout(2048, 0, 0)));
    assert_eq!(find_diff_sector(None::<SectorImage<MemSource>>, Some(y), true, 5, true, false), Ok(None));
}

#[test]
fn whole_runs_are_compared_where_both_images_are_flat() {
    let l = layout(2048, 0, 0);
    let a = flat_info("a.iso", &l, 4096);
    assert_eq!(a.as_ref().unwrap().total_sectors, 2);
    assert!(flat_info("a.chd", &l, 4096).is_none());
    assert!(flat_info("a.wud", &l, 4096).is_none());
    assert!(flat_info("a.skeleton", &l, 4096).is_some());
    assert!(flat_info("a.iso", &l, 2047).is_none());
    let raw = flat_info("a.bin", &layout(2352, 16, 0), 4704);
    assert!(can_compare_runs(&a, &flat_info("b.iso", &l, 9999)));
    assert!(!can_compare_runs(&a, &raw));
    assert!(!can_compare_runs(&a, &None));
}

// ── Audio ───────────────────────────────────────────────────────────────────

fn audio_track(start: u64, sectors: u64) -> TrackInfo {
    TrackInfo {
        number: 2,
        is_data: false,
        mode: "AUDIO".to_string(),
        start_lba: start,
        num_sectors: sectors,
        session: 1,
        bin_path: "a.bin".to_string(),
    }
}

#[test]
fn a_wav_file_has_its_header_and_the_samples() {
    let h = wav_header(8);
    assert_eq!(
        h,
        [
            b"RIFF".as_slice(), &44u32.to_le_bytes(), b"WAVEfmt ", &16u32.to_le_bytes(), &1u16.to_le_bytes(),
            &2u16.to_le_bytes(), &44100u32.to_le_bytes(), &176400u32.to_le_bytes(), &4u16.to_le_bytes(),
            &16u16.to_le_bytes(), b"data", &8u32.to_le_bytes(),
        ]
        .concat()
    );
    let image = numbered(5 * 2352);
    let wav = save_audio_as_wav(MemSource::new(image.clone()), image.len() as u64, &audio_track(2, 5)).unwrap();
    assert_eq!(wav[..44], wav_header(3 * 2352));
    assert_eq!(wav[44..], image[2 * 2352..]);
    // The file ends before the track does.
    let wav = save_audio_as_wav(MemSource::new(image[..5000].to_vec()), 5000, &audio_track(2, 5)).unwrap();
    assert_eq!(wav[..44], wav_header(3 * 2352));
    assert_eq!(wav[44..], image[4704..5000]);
    let wav = save_audio_as_wav(MemSource::new(image), 11760, &audio_track(5, 5)).unwrap();
    assert_eq!(wav, wav_header(0));
}

#[test]
fn replies_follow_each_other() {
    assert_eq!(add_reply(vec![1, 2], Ok(vec![3])), Ok(vec![1, 2, 3]));
    assert_eq!(add_reply(vec![1, 2], Ok(Vec::new())), Ok(vec![1, 2]));
    let e = "MP3 encode error: NoMem".to_string();
    assert_eq!(add_reply(vec![1, 2], Err(e.clone())), Err(e));
}

#[test]
fn an_mp3_file_holds_frames() {
    let image = numbered(75 * 2352);
    let mut stream = Mp3Stream::open().ok().unwrap();
    let mp3 = save_audio_as_mp3(MemSource::new(image.clone()), &audio_track(0, 75), &mut stream).unwrap();
    // 320 kbit/s are 40000 bytes per second, in frames with a sync word of eleven bits.
    assert!(mp3.len() > 40000 && mp3.len() < 46000);
    assert_eq!((mp3[0], mp3[1] & 0xE0), (0xFF, 0xE0));
    assert_ne!(mp3[..2352], image[..2352]);
    // A track that goes on behind the end of the file.
    let mut stream = Mp3Stream::open().ok().unwrap();
    let e = save_audio_as_mp3(MemSource::new(image), &audio_track(0, 76), &mut stream).err().unwrap();
    assert!(e.starts_with("Read error: "));
}

#[test]
fn long_tracks_are_read_in_pieces() {
    let image = numbered(0x100000 + 4704);
    let mut t = audio_track(0, (0x100000 + 4704) / 2352);
    t.num_sectors = 447;
    let mut r = AudioReader::open(MemSource::new(image.clone()), &t);
    let first = r.next_piece().unwrap().unwrap();
    assert_eq!(first.len(), 0x100000);
    let second = r.next_piece().unwrap().unwrap();
    assert_eq!([first, second].concat(), image[..447 * 2352]);
    assert_eq!(r.next_piece(), Ok(None));
    let mut r = AudioReader::open(MemSource::new(vec![0; 10]), &audio_track(0, 1));
    assert_eq!(r.next_piece(), Err("Read error: failed to fill whole buffer".to_string()));
}

#[test]
fn samples_are_handed_on_by_channel() {
    let raw = [1, 0, 255, 255, 0, 128, 2, 1, 9];
    assert_eq!(interleaved_samples(&raw), [1, -1, -32768, 258]);
    assert_eq!(stereo_channels(&raw), (vec![1, 0x8000], vec![0xffff, 0x0102]));
}

#[test]
fn audio_tracks_are_found_by_number() {
    let mut data = audio_track(0, 1);
    data.is_data = true;
    let v = vec![data, audio_track(0, 9)];
    assert_eq!(find_audio_track(&v, 2), Ok(1));
    assert_eq!(find_audio_track(&v, 3), Err("Audio track 3 not found".to_string()));
    assert!(audio_format("flac") == AudioFormat::Flac);
    assert!(audio_format("mp3") == AudioFormat::Mp3);
    assert!(audio_format("ogg") == AudioFormat::Wav);
    assert!(track_list("a.gdi") == TrackList::Gdi);
    assert!(track_list("a.mds") == TrackList::Mds);
    assert!(track_list("a.cue") == TrackList::Cue);
}

// ── Conversions ─────────────────────────────────────────────────────────────

#[test]
fn room_is_checked_before_a_conversion() {
    assert_eq!(ps3_check_space(Some(10), 10), Ok(()));
    let short = Err("Not enough free space: need 11 bytes, only 10 available".to_string());
    assert_eq!(ps3_check_space(Some(10), 11), short);
    assert_eq!(ps3_check_space(None, 1), Err("Could not determine available disk space".to_string()));
    assert_eq!(check_room(Some(10), 11), short);
    assert_eq!(check_room(None, 11), Ok(()));
    assert_eq!(check_room(Some(11), 11), Ok(()));
}

#[test]
fn progress_is_reported_now_and_then() {
    let mut t = Throttle { last: 0 };
    assert!(!t.tick(10, 1000));
    assert!(t.tick(11, 1000));
    assert!(!t.tick(21, 1000));
    assert!(t.tick(22, 1000));
    assert!(t.tick(1000, 1000));
    assert_eq!(t.last, 1000);
}

#[test]
fn conversions_can_be_told_to_stop() {
    let mut c = ConvCancelState { cancelled: true };
    c.reset();
    assert_eq!(c.check(), Ok(()));
    c.conv_cancel();
    assert_eq!(c.check(), Err("__cancelled__".to_string()));
    let mut k = WiiUKeyState { path: None };
    assert_eq!(k.get_wiiu_key_path(), None);
    k.set_wiiu_key_path(Some("k".to_string()));
    assert_eq!(k.get_wiiu_key_path(), Some("k".to_string()));
}

#[test]
fn images_say_what_they_can_become() {
    let i = wiiu_conv_info("A.WUX", None::<MemSource>, true);
    assert_eq!((i.is_wiiu, i.is_wux, i.is_raw, i.has_key), (true, true, false, true));
    let i = wiiu_conv_info("a.wud", None::<MemSource>, false);
    assert_eq!((i.is_wiiu, i.is_wux, i.is_raw, i.has_key), (true, false, true, false));
    let i = wiiu_conv_info("a.iso", Some(MemSource::new(vec![0; 9])), true);
    assert_eq!((i.is_wiiu, i.is_wux, i.is_raw, i.has_key), (false, false, false, false));
    let mut disc = vec![0; 0x48004];
    disc[0x48000..].copy_from_slice(&[0xCC, 0x93, 0xA4, 0xF5]);
    let i = wiiu_conv_info("a.iso", Some(MemSource::new(disc)), true);
    assert_eq!((i.is_wiiu, i.is_wux, i.is_raw, i.has_key), (true, false, true, true));
    let i = ps3_iso_info(None, Some("k".to_string()));
    assert_eq!((i.is_ps3, i.encrypted, i.has_key, i.key_path), (false, false, false, None));
    let i = ps3_iso_info(Some(true), Some("k".to_string()));
    assert_eq!((i.is_ps3, i.encrypted, i.has_key, i.key_path), (true, true, true, Some("k".to_string())));
}

#[test]
fn a_packed_disc_is_unpacked_and_checked() {
    let image = numbered(0x8000 * 3 + 100);
    let len = image.len() as u64;
    let file = compress(&mut MemSource::new(image.clone()), len, 0x8000).unwrap();
    let open = || WuxReader::open(MemSource::new(file.clone())).ok().unwrap();
    assert_eq!(wiiu_convert(open(), len).unwrap(), image);
    assert_eq!(wiiu_convert(open(), len + 1).unwrap_err(), "Read: failed to fill whole buffer");
    assert_eq!(verify_wux(&mut MemSource::new(image.clone()), len, &mut open()), Ok(()));
    let mut other = image.clone();
    other[0x9000] ^= 1;
    assert_eq!(
        verify_wux(&mut MemSource::new(other), len, &mut open()),
        Err("Verify failed: WUX does not round-trip to source".to_string())
    );
    let mut longer = image.clone();
    longer.push(0);
    assert_eq!(
        verify_wux(&mut MemSource::new(longer), len + 1, &mut open()),
        Err("Verify failed: WUX is shorter than source".to_string())
    );
    assert_eq!(
        verify_wux(&mut MemSource::new(image.clone()), len + 1, &mut open()),
        Err("Verify read input: failed to fill whole buffer".to_string())
    );
    let mut torn = WuxReader::open(MemSource::new(file[..file.len() - 0x8000].to_vec())).ok().unwrap();
    assert!(verify_wux(&mut MemSource::new(image), len, &mut torn).unwrap_err().starts_with("Verify read wux: "));
}
