//! Nero images: the chunks behind the tracks' data.
use vstd::prelude::*;
use crate::bytes;
use crate::bytes::{read_u32_be, read_u32_le, read_u64_be, read_u64_le, spells_at};
use crate::sector::RAW_SECTOR_SIZE;
use crate::source;
use crate::source::{ByteSource, MemSource};
use crate::track;
use crate::track::{detect_sector_format_at, sector_lba_at, DataTrack, TrackView};

verus! {

/// Whether an image has the footer of the second version, and where its chunks
/// start.
pub open spec fn footer(data: Seq<u8>) -> Result<(bool, int), Seq<char>> {
    let len = data.len() as int;
    if len < 12 {
        Err("File too small for NRG"@)
    } else if bytes::spells(data, len - 4, "NER5"@) {
        Ok((true, bytes::le64_at(data, len - 12)))
    } else if bytes::spells(data, len - 4, "NERO"@) {
        Ok((false, bytes::be32_at(data, len - 8)))
    } else {
        Err("Not a Nero (.nrg) image"@)
    }
}

/// The length of a chunk's contents.
pub open spec fn chunk_len(data: Seq<u8>, v2: bool, pos: int) -> int {
    if v2 {
        bytes::le32_at(data, pos + 4)
    } else {
        bytes::be32_at(data, pos + 4)
    }
}

/// The first of two numbers.
pub open spec fn lesser(a: int, b: int) -> int {
    if a < b {
        a
    } else {
        b
    }
}

/// The length of a track entry: with wide positions or without.
pub open spec fn entry_len(wide: bool) -> int {
    if wide {
        40
    } else {
        28
    }
}

/// Where the track of the entry at `tp` starts.
pub open spec fn entry_start(data: Seq<u8>, wide: bool, tp: int) -> int {
    if wide {
        bytes::be64_at(data, tp + 24)
    } else {
        bytes::be32_at(data, tp + 20)
    }
}

/// The start of the first track from the entry at `tp` on that is not an audio
/// track and lies within the image. The entries end at `end`.
pub open spec fn entry_from(data: Seq<u8>, wide: bool, tp: int, end: int) -> Option<int>
    decreases end - tp,
{
    if tp + entry_len(wide) > end {
        None
    } else if data[tp + 14] != 2 && entry_start(data, wide, tp) < data.len() {
        Some(entry_start(data, wide, tp))
    } else {
        entry_from(data, wide, tp + entry_len(wide), end)
    }
}

/// The start of the data track that the chunk at `pos` describes.
pub open spec fn chunk_track(data: Seq<u8>, v2: bool, pos: int) -> Option<int> {
    let wide = bytes::spells(data, pos, "DAOX"@);
    let end = lesser(pos + 8 + chunk_len(data, v2, pos), data.len() as int);
    if (wide || bytes::spells(data, pos, "DAOI"@)) && end - (pos + 8) >= 24 {
        entry_from(data, wide, pos + 32, end)
    } else {
        None
    }
}

/// The start of the data track that the chunks from `pos` on describe.
pub open spec fn track_from(data: Seq<u8>, v2: bool, pos: int) -> Option<int>
    decreases data.len() - pos,
{
    if pos < 0 || pos + 8 > data.len() {
        None
    } else if bytes::spells(data, pos, "END!"@) || chunk_len(data, v2, pos) <= 0 {
        None
    } else {
        match chunk_track(data, v2, pos) {
            Some(start) => Some(start),
            None => if pos + 8 + chunk_len(data, v2, pos) > data.len() {
                None
            } else {
                track_from(data, v2, pos + 8 + chunk_len(data, v2, pos))
            },
        }
    }
}

/// The data track that starts at a position of an image.
pub open spec fn track_at(data: Seq<u8>, path: Seq<char>, start: int) -> TrackView {
    let reads = source::reads_of(data);
    let offset = track::format_at(reads, start).1;
    TrackView {
        bin_path: path,
        track_offset: start as u64,
        user_data_offset: offset,
        stride: RAW_SECTOR_SIZE,
        lba_offset: if offset > 0 {
            track::lba_at(reads, start)
        } else {
            0
        },
        descramble: false,
        sector_count: 0,
    }
}

/// The data track of an image.
pub open spec fn chosen_track(data: Seq<u8>, path: Seq<char>) -> Result<TrackView, Seq<char>> {
    match footer(data) {
        Err(e) => Err(e),
        Ok((v2, chunks)) => if chunks >= data.len() {
            Err("Invalid NRG chunk offset"@)
        } else {
            match track_from(data, v2, chunks) {
                None => Err("No data track found in NRG"@),
                Some(start) => Ok(track_at(data, path, start)),
            }
        },
    }
}

/// The start of the data track among the entries of a chunk.
#[verifier::loop_isolation(false)]
fn find_entry(data: &[u8], wide: bool, from: usize, end: usize) -> (r: Option<u64>)
    requires
        end <= data@.len(),
        from <= end,
    ensures
        match r {
            Some(s) => entry_from(data@, wide, from as int, end as int) == Some(s as int) && s
                < data@.len(),
            None => entry_from(data@, wide, from as int, end as int) is None,
        },
{
    let len: usize = data.len();
    let size: usize = if wide {
        40
    } else {
        28
    };
    let mut tp: usize = from;
    while end - tp >= size
        invariant
            from <= tp <= end,
            entry_from(data@, wide, tp as int, end as int) == entry_from(
                data@,
                wide,
                from as int,
                end as int,
            ),
        decreases end - tp,
    {
        if data[tp + 14] != 2 {
            let start: u64 = if wide {
                read_u64_be(data, tp + 24)
            } else {
                read_u32_be(data, tp + 20) as u64
            };
            if start < len as u64 {
                return Some(start);
            }
        }
        tp += size;
    }
    None
}

/// The start of the data track that the chunks of an image describe.
#[verifier::loop_isolation(false)]
fn find_track(data: &[u8], v2: bool, chunks: usize) -> (r: Option<u64>)
    requires
        chunks < data@.len(),
    ensures
        match r {
            Some(s) => track_from(data@, v2, chunks as int) == Some(s as int) && s < data@.len(),
            None => track_from(data@, v2, chunks as int) is None,
        },
{
    let len: usize = data.len();
    let mut pos: usize = chunks;
    while len - pos >= 8
        invariant
            pos <= len,
            track_from(data@, v2, pos as int) == track_from(data@, v2, chunks as int),
        decreases len - pos,
    {
        let n: u32 = if v2 {
            read_u32_le(data, pos + 4)
        } else {
            read_u32_be(data, pos + 4)
        };
        if spells_at(data, pos, "END!") || n == 0 {
            return None;
        }
        let room: usize = len - pos - 8;
        let whole: bool = n as u64 <= room as u64;
        let end: usize = if whole {
            pos + 8 + n as usize
        } else {
            len
        };
        let wide: bool = spells_at(data, pos, "DAOX");
        if (wide || spells_at(data, pos, "DAOI")) && end - (pos + 8) >= 24 {
            match find_entry(data, wide, pos + 32, end) {
                Some(s) => {
                    return Some(s);
                },
                None => {},
            }
        }
        if !whole {
            return None;
        }
        pos = end;
    }
    None
}

/// Finds the data track of an image.
pub fn parse_nrg_for_data_track(image: &mut MemSource, path: &str) -> (r: Result<
    DataTrack,
    String,
>)
    ensures
        final(image).reads() == old(image).reads(),
        track::track_outcome(r) == chosen_track(old(image).image@, path@),
{
    let data: &[u8] = image.image.as_slice();
    let len: usize = data.len();
    if len < 12 {
        return Err("File too small for NRG".to_owned());
    }
    let (v2, chunks): (bool, u64) = if spells_at(data, len - 4, "NER5") {
        (true, read_u64_le(data, len - 12))
    } else if spells_at(data, len - 4, "NERO") {
        (false, read_u32_be(data, len - 8) as u64)
    } else {
        return Err("Not a Nero (.nrg) image".to_owned());
    };
    if chunks >= len as u64 {
        return Err("Invalid NRG chunk offset".to_owned());
    }
    let start: u64 = match find_track(data, v2, chunks as usize) {
        Some(s) => s,
        None => {
            return Err("No data track found in NRG".to_owned());
        },
    };
    let (_, offset): (u64, u64) = detect_sector_format_at(image, start);
    let lba_offset: u64 = if offset > 0 {
        sector_lba_at(image, start)
    } else {
        0
    };
    Ok(
        DataTrack {
            bin_path: path.to_owned(),
            track_offset: start,
            user_data_offset: offset,
            stride: RAW_SECTOR_SIZE,
            lba_offset,
            descramble: false,
            sector_count: 0,
        },
    )
}

/// The last bytes of an image tell where its chunks start: eight before the mark of the second
/// version, four before that of the first.
pub proof fn the_footer_names_the_chunks(data: Seq<u8>, at: int)
    requires
        data.len() >= 12,
        0 <= at,
    ensures
        bytes::spells(data, data.len() - 4, "NER5"@) && at <= u64::MAX && bytes::has_at(
            data,
            data.len() - 12,
            bytes::le_bytes(at, 8),
        ) ==> footer(data) == Ok::<(bool, int), Seq<char>>((true, at)),
        bytes::spells(data, data.len() - 4, "NERO"@) && at <= 0xFFFF_FFFF && bytes::has_at(
            data,
            data.len() - 8,
            bytes::be_bytes(at, 4),
        ) ==> footer(data) == Ok::<(bool, int), Seq<char>>((false, at)),
{
    bytes::fields_hold_what_was_written(data, data.len() - 12, at);
    bytes::fields_hold_what_was_written(data, data.len() - 8, at);
    reveal_strlit("NER5");
    reveal_strlit("NERO");
    assert("NER5"@[3] == '5' && "NERO"@[3] == 'O');
}

/// A chunk that describes no tracks is passed over: its contents are as long as it tells.
pub proof fn chunks_follow_each_other(data: Seq<u8>, v2: bool, pos: int, len: int)
    requires
        0 <= pos,
        0 < len <= 0xFFFF_FFFF,
        pos + 8 + len <= data.len(),
        !bytes::spells(data, pos, "END!"@),
        !bytes::spells(data, pos, "DAOX"@),
        !bytes::spells(data, pos, "DAOI"@),
        v2 ==> bytes::has_at(data, pos + 4, bytes::le_bytes(len, 4)),
        !v2 ==> bytes::has_at(data, pos + 4, bytes::be_bytes(len, 4)),
    ensures
        track_from(data, v2, pos) == track_from(data, v2, pos + 8 + len),
{
    bytes::fields_hold_what_was_written(data, pos + 4, len);
}

/// The first data track of a chunk is found by its entry: entries stand behind the first 24
/// bytes of the chunk's contents, each of 40 bytes with a start of eight bytes at 24, or of 28
/// with one of four at 20.
pub proof fn a_chunk_names_its_track(
    data: Seq<u8>,
    v2: bool,
    pos: int,
    len: int,
    k: int,
    start: int,
    wide: bool,
    size: int,
)
    requires
        0 <= pos,
        wide ==> bytes::spells(data, pos, "DAOX"@) && size == 40,
        !wide ==> bytes::spells(data, pos, "DAOI"@) && size == 28,
        24 <= len <= 0xFFFF_FFFF,
        pos + 8 + len <= data.len(),
        v2 ==> bytes::has_at(data, pos + 4, bytes::le_bytes(len, 4)),
        !v2 ==> bytes::has_at(data, pos + 4, bytes::be_bytes(len, 4)),
        0 <= k,
        24 + size * k + size <= len,
        forall|i: int| 0 <= i < k ==> data[pos + 32 + #[trigger] (size * i) + 14] == 2,
        data[pos + 32 + size * k + 14] != 2,
        0 <= start < data.len(),
        start <= 0xFFFF_FFFF,
        wide ==> bytes::has_at(data, pos + 32 + size * k + 24, bytes::be_bytes(start, 8)),
        !wide ==> bytes::has_at(data, pos + 32 + size * k + 20, bytes::be_bytes(start, 4)),
    ensures
        track_from(data, v2, pos) == Some(start),
{
    bytes::fields_hold_what_was_written(data, pos + 4, len);
    reveal_strlit("DAOX");
    reveal_strlit("DAOI");
    reveal_strlit("END!");
    assert("DAOX"@[0] == 'D' && "DAOI"@[0] == 'D' && "END!"@[0] == 'E');
    assert("DAOX"@[3] == 'X' && "DAOI"@[3] == 'I');
    bytes::fields_hold_what_was_written(data, pos + 32 + size * k + 24, start);
    bytes::fields_hold_what_was_written(data, pos + 32 + size * k + 20, start);
    lemma_entry(data, wide, pos + 32, pos + 8 + len, k, 0, start, size);
}

/// The entries before the first data track are passed over.
proof fn lemma_entry(
    data: Seq<u8>,
    wide: bool,
    first: int,
    end: int,
    k: int,
    i: int,
    start: int,
    size: int,
)
    requires
        size == entry_len(wide),
        0 <= i <= k,
        0 <= first,
        first + size * k + size <= end,
        forall|i: int| 0 <= i < k ==> data[first + #[trigger] (size * i) + 14] == 2,
        data[first + size * k + 14] != 2,
        entry_start(data, wide, first + size * k) == start,
        start < data.len(),
    ensures
        entry_from(data, wide, first + size * i, end) == Some(start),
    decreases k - i,
{
    if i < k {
        assert(size * i + size <= size * k && size * (i + 1) == size * i + size)
            by (nonlinear_arith)
            requires
                i < k,
                size > 0,
        ;
        assert(data[first + size * i + 14] == 2);
        lemma_entry(data, wide, first, end, k, i + 1, start, size);
    }
}

} // verus!
