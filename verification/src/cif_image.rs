//! Easy CD Creator images: a RIFF file with a table of the tracks in it.
use vstd::prelude::*;
use crate::bytes;
use crate::bytes::{read_u16_le, read_u32_le, spells_at};
use crate::source;
use crate::source::{ByteSource, MemSource};
use crate::track;
use crate::track::{detect_sector_format_at, DataTrack, TrackView};

verus! {

/// The offset in the first entry of kind `info` among `n` entries from `at` on.
pub open spec fn info_from(data: Seq<u8>, at: int, n: int) -> Option<int>
    decreases n,
{
    if n <= 0 || at + 22 > data.len() {
        None
    } else if bytes::spells(data, at + 8, "info"@) {
        Some(bytes::le32_at(data, at + 12))
    } else {
        info_from(data, at + 22, n - 1)
    }
}

/// The offset of the data track in the table of the chunk at `at`.
pub open spec fn table_entry(data: Seq<u8>, at: int) -> Option<int> {
    if at + 18 > data.len() {
        None
    } else {
        info_from(data, at + 18, bytes::le16_at(data, at + 16))
    }
}

/// The offset of the data track in the first table among the chunks from `at` on;
/// a chunk takes an even number of bytes.
pub open spec fn entry_from(data: Seq<u8>, at: int) -> Option<int>
    decreases data.len() - at,
{
    let n = bytes::le32_at(data, at + 4);
    if at < 0 || n < 0 || at + 8 > data.len() {
        None
    } else if bytes::spells(data, at, "ofs "@) && n >= 14 {
        table_entry(data, at)
    } else if at + 8 + n + n % 2 > data.len() {
        None
    } else {
        entry_from(data, at + 8 + n + n % 2)
    }
}

/// The data track of an image: its sectors start twelve bytes behind the offset
/// in the table.
pub open spec fn chosen_track(data: Seq<u8>, path: Seq<char>) -> Result<TrackView, Seq<char>> {
    if data.len() < 12 {
        Err("Not a CIF file"@)
    } else if !bytes::spells(data, 0, "RIFF"@) || !bytes::spells(data, 8, "imag"@) {
        Err("Not a CIF (Easy CD Creator) file"@)
    } else {
        match entry_from(data, 12) {
            None => Err("CIF: no data track found"@),
            Some(offset) => {
                let format = track::format_at(source::reads_of(data), offset + 12);
                Ok(
                    TrackView {
                        bin_path: path,
                        track_offset: (offset + 12) as u64,
                        user_data_offset: format.1,
                        stride: format.0,
                        lba_offset: 0,
                        descramble: false,
                        sector_count: 0,
                    },
                )
            },
        }
    }
}

/// Finds the offset of the data track in the table of a chunk.
#[verifier::loop_isolation(false)]
fn find_info(data: &[u8], at: usize) -> (r: Option<u32>)
    requires
        at + 8 <= data@.len(),
    ensures
        match r {
            Some(v) => table_entry(data@, at as int) == Some(v as int),
            None => table_entry(data@, at as int) is None,
        },
{
    let len: usize = data.len();
    if len - at < 18 {
        return None;
    }
    let n: u16 = read_u16_le(data, at + 16);
    let mut left: u16 = n;
    let mut ep: usize = at + 18;
    while left > 0
        invariant
            ep <= len,
            info_from(data@, ep as int, left as int) == info_from(data@, at + 18, n as int),
        decreases left,
    {
        if len - ep < 22 {
            return None;
        }
        if spells_at(data, ep + 8, "info") {
            return Some(read_u32_le(data, ep + 12));
        }
        ep += 22;
        left -= 1;
    }
    None
}

/// Finds the offset of the data track among the chunks of an image.
#[verifier::loop_isolation(false)]
fn find_entry(data: &[u8]) -> (r: Option<u32>)
    requires
        data@.len() >= 12,
    ensures
        match r {
            Some(v) => entry_from(data@, 12) == Some(v as int),
            None => entry_from(data@, 12) is None,
        },
{
    let len: usize = data.len();
    let mut at: usize = 12;
    while len - at >= 8
        invariant
            12 <= at <= len,
            entry_from(data@, at as int) == entry_from(data@, 12),
        decreases len - at,
    {
        let n: u32 = read_u32_le(data, at + 4);
        if spells_at(data, at, "ofs ") && n >= 14 {
            return find_info(data, at);
        }
        let padded: u64 = n as u64 + (n % 2) as u64;
        if padded > (len - at - 8) as u64 {
            return None;
        }
        at = at + 8 + padded as usize;
    }
    None
}

/// Finds the data track of an image.
pub fn parse_cif_for_data_track(image: &mut MemSource, path: &str) -> (r: Result<
    DataTrack,
    String,
>)
    ensures
        final(image).reads() == old(image).reads(),
        track::track_outcome(r) == chosen_track(old(image).image@, path@),
{
    let data: &[u8] = image.image.as_slice();
    if data.len() < 12 {
        return Err("Not a CIF file".to_owned());
    }
    if !spells_at(data, 0, "RIFF") || !spells_at(data, 8, "imag") {
        return Err("Not a CIF (Easy CD Creator) file".to_owned());
    }
    match find_entry(data) {
        None => Err("CIF: no data track found".to_owned()),
        Some(offset) => {
            let start: u64 = offset as u64 + 12;
            let (stride, user_data_offset): (u64, u64) = detect_sector_format_at(image, start);
            Ok(
                DataTrack {
                    bin_path: path.to_owned(),
                    track_offset: start,
                    user_data_offset,
                    stride,
                    lba_offset: 0,
                    descramble: false,
                    sector_count: 0,
                },
            )
        },
    }
}

/// Chunks follow each other; a chunk with an odd number of bytes is followed by one more.
pub proof fn chunks_follow_each_other(data: Seq<u8>, at: int, n: int, pad: int)
    requires
        0 <= at,
        0 <= n <= 0xFFFF_FFFF,
        0 <= pad <= 1,
        (n + pad) % 2 == 0,
        at + 8 + n + pad <= data.len(),
        !bytes::spells(data, at, "ofs "@),
        bytes::has_at(data, at + 4, bytes::le_bytes(n, 4)),
    ensures
        entry_from(data, at) == entry_from(data, at + 8 + n + pad),
{
    bytes::fields_hold_what_was_written(data, at + 4, n);
}

/// A table holds the number of its entries at 16 and the entries of 22 bytes from 18 on; the
/// data track is that of the first entry of kind `info`, and its sectors start twelve bytes
/// behind the offset that the entry tells.
pub proof fn a_table_names_its_track(
    data: Seq<u8>,
    at: int,
    n: int,
    count: int,
    k: int,
    offset: int,
    path: Seq<char>,
)
    requires
        0 <= at,
        14 <= n <= 0xFFFF_FFFF,
        at + 18 + 22 * k + 22 <= data.len(),
        0 <= k < count <= 0xFFFF,
        0 <= offset <= 0xFFFF_FFFF,
        bytes::spells(data, at, "ofs "@),
        bytes::has_at(data, at + 4, bytes::le_bytes(n, 4)),
        bytes::has_at(data, at + 16, bytes::le_bytes(count, 2)),
        forall|i: int| 0 <= i < k ==> !#[trigger] bytes::spells(data, at + 26 + 22 * i, "info"@),
        bytes::spells(data, at + 26 + 22 * k, "info"@),
        bytes::has_at(data, at + 30 + 22 * k, bytes::le_bytes(offset, 4)),
    ensures
        entry_from(data, at) == Some(offset),
        at == 12 && bytes::spells(data, 0, "RIFF"@) && bytes::spells(data, 8, "imag"@)
            ==> (chosen_track(data, path) matches Ok(t) && t.track_offset == offset + 12
            && t.bin_path == path),
{
    bytes::fields_hold_what_was_written(data, at + 4, n);
    bytes::fields_hold_what_was_written(data, at + 16, count);
    bytes::fields_hold_what_was_written(data, at + 30 + 22 * k, offset);
    lemma_info(data, at + 18, count, k, 0, offset);
}

/// The entries before the first of kind `info` are passed over.
proof fn lemma_info(data: Seq<u8>, first: int, count: int, k: int, i: int, offset: int)
    requires
        0 <= first,
        0 <= i <= k < count,
        first + 22 * k + 22 <= data.len(),
        forall|i: int| 0 <= i < k ==> !#[trigger] bytes::spells(data, first + 8 + 22 * i, "info"@),
        bytes::spells(data, first + 8 + 22 * k, "info"@),
        bytes::le32_at(data, first + 22 * k + 12) == offset,
    ensures
        info_from(data, first + 22 * i, count - i) == Some(offset),
    decreases k - i,
{
    if i < k {
        assert(!bytes::spells(data, first + 8 + 22 * i, "info"@));
        assert(first + 22 * i + 8 == first + 8 + 22 * i);
        lemma_info(data, first, count, k, i + 1, offset);
        assert(first + 22 * i + 22 == first + 22 * (i + 1));
    } else {
        assert(first + 22 * i + 8 == first + 8 + 22 * k);
    }
}

} // verus!
