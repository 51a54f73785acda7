//! Images of plain or raw sectors, on disk or unpacked into memory.
use vstd::prelude::*;
use crate::codec;
use crate::codec::zstd_decode_all;
use crate::cso_reader;
use crate::cso_reader::take_part;
use crate::sector;
use crate::sector::{data_position, RAW_SECTOR_SIZE};
use crate::source;
use crate::source::{label_error, ByteSource, Reads};
use crate::track;
use crate::track::{detect_raw_sector_offset, has_sync};

verus! {

/// The length of the sectors of an image that begins with `data`, and where their
/// user data starts.
pub open spec fn format_of(data: Seq<u8>) -> (u64, u64) {
    if data.len() >= 16 && track::is_synced(data) {
        (2352, track::raw_data_offset(data))
    } else {
        (2048, 0)
    }
}

/// An image that was unpacked into memory.
pub struct ZstReader {
    pub data: Vec<u8>,
    pub sector_size: u64,
    pub user_data_offset: u64,
}

impl ZstReader {
    /// The image that was unpacked to `data`.
    pub fn from_image(data: Vec<u8>) -> (r: ZstReader)
        ensures
            r.data@ == data@,
            (r.sector_size, r.user_data_offset) == format_of(data@),
    {
        if data.len() >= 16 && has_sync(data.as_slice()) {
            let user_data_offset: u64 = if data[15] == 2 {
                24
            } else {
                16
            };
            ZstReader { data, sector_size: 2352, user_data_offset }
        } else {
            ZstReader { data, sector_size: 2048, user_data_offset: 0 }
        }
    }

    /// Unpacks an image.
    pub fn open(packed: &[u8]) -> (r: Result<ZstReader, String>)
        ensures
            match r {
                Ok(z) => codec::zstd_stream(packed@) == Ok::<Seq<u8>, Seq<char>>(z.data@) && (
                z.sector_size, z.user_data_offset) == format_of(z.data@),
                Err(e) => source::labelled(codec::zstd_stream(packed@), "ZST decompress: "@)
                    == Err::<Seq<u8>, Seq<char>>(e@),
            },
    {
        match label_error(zstd_decode_all(packed), "ZST decompress: ") {
            Ok(data) => Ok(ZstReader::from_image(data)),
            Err(e) => Err(e),
        }
    }

    /// Reads up to `n` bytes from the user data of the sector `lba` on.
    pub fn read_at(&self, lba: u64, n: usize) -> (r: Vec<u8>)
        ensures
            r@ == cso_reader::part(
                self.data@,
                sector::data_pos(
                    0,
                    self.sector_size as int,
                    self.user_data_offset as int,
                    lba as int,
                ),
                n as int,
            ),
    {
        let len: usize = self.data.len();
        let pos: u128 = data_position(0, self.sector_size, self.user_data_offset, lba);
        if pos >= len as u128 {
            let none: Vec<u8> = Vec::new();
            assert(none@ =~= seq![]);
            return none;
        }
        take_part(self.data.as_slice(), pos as u64, n)
    }
}

/// Where the user data of an image's sectors starts, zero for plain ones.
pub open spec fn skeleton_offset(reads: Reads) -> u64 {
    if track::format_at(reads, 0).0 == 2352 {
        track::format_at(reads, 0).1
    } else {
        0
    }
}

/// Up to `n` bytes from the user data of the sector `lba` on, of an image of `len`
/// bytes.
pub open spec fn skeleton_read(
    reads: Reads,
    len: u64,
    sector_size: u64,
    user_data_offset: u64,
    lba: int,
    n: int,
) -> Result<Seq<u8>, Seq<char>> {
    let pos = sector::data_pos(0, sector_size as int, user_data_offset as int, lba);
    if pos >= len {
        Ok(seq![])
    } else {
        reads(
            pos,
            if n < len - pos {
                n
            } else {
                len - pos
            },
        )
    }
}

/// An image without the contents of its files.
pub struct SkeletonReader<S> {
    pub source: S,
    pub file_len: u64,
    pub sector_size: u64,
    pub user_data_offset: u64,
}

impl<S: ByteSource> SkeletonReader<S> {
    /// Opens an image of `len` bytes.
    pub fn open(source: S, len: u64) -> (r: SkeletonReader<S>)
        ensures
            r.source.reads() == source.reads(),
            r.file_len == len,
            r.user_data_offset == skeleton_offset(source.reads()),
            r.sector_size == (if r.user_data_offset > 0 {
                2352u64
            } else {
                2048u64
            }),
    {
        let mut src: S = source;
        let user_data_offset: u64 = match detect_raw_sector_offset(&mut src) {
            Some(o) => o,
            None => 0,
        };
        let sector_size: u64 = if user_data_offset > 0 {
            RAW_SECTOR_SIZE
        } else {
            2048
        };
        SkeletonReader { source: src, file_len: len, sector_size, user_data_offset }
    }

    /// Reads up to `n` bytes from the user data of the sector `lba` on.
    pub fn read_at(&mut self, lba: u64, n: usize) -> (r: Result<Vec<u8>, String>)
        ensures
            final(self).source.reads() == old(self).source.reads(),
            source::outcome(r) == skeleton_read(
                old(self).source.reads(),
                old(self).file_len,
                old(self).sector_size,
                old(self).user_data_offset,
                lba as int,
                n as int,
            ),
    {
        let pos: u128 = data_position(0, self.sector_size, self.user_data_offset, lba);
        if pos >= self.file_len as u128 {
            let none: Vec<u8> = Vec::new();
            assert(none@ =~= seq![]);
            return Ok(none);
        }
        let at: u64 = pos as u64;
        let room: u64 = self.file_len - at;
        let m: u64 = if (n as u64) < room {
            n as u64
        } else {
            room
        };
        self.source.read_exact_at(at, m)
    }
}

// ── Laws ────────────────────────────────────────────────────────────────────

/// An unpacked image of raw sectors is read by its sectors, from their user data on: those
/// of the second mode stand behind a subheader. One of plain sectors is read by those.
pub proof fn an_image_is_read_by_its_sectors(sectors: Seq<Seq<u8>>, raw: bool, lba: int, n: int)
    requires
        sectors.len() > 0,
        forall|k: int|
            0 <= k < sectors.len() ==> (#[trigger] sectors[k]).len() == (if raw {
                2352
            } else {
                2048int
            }),
        raw <==> sectors[0].take(12) == seq![
            0u8,
            255,
            255,
            255,
            255,
            255,
            255,
            255,
            255,
            255,
            255,
            0,
        ],
        0 <= lba < sectors.len(),
        0 <= n <= 2048,
    ensures
        ({
            let image = source::end_to_end(sectors, if raw { 2352 } else { 2048 });
            let (size, from) = format_of(image);
            let start: int = if !raw {
                0
            } else if sectors[0][15] == 2 {
                24
            } else {
                16
            };
            &&& cso_reader::part(image, sector::data_pos(0, size as int, from as int, lba), n)
                == sectors[lba].subrange(start, start + n)
            &&& image.len() <= u64::MAX && raw ==> skeleton_offset(source::reads_of(image)) == start
            &&& image.len() <= u64::MAX ==> skeleton_read(
                source::reads_of(image),
                image.len() as u64,
                if raw {
                    2352
                } else {
                    2048
                },
                start as u64,
                lba,
                n,
            ) == Ok::<Seq<u8>, Seq<char>>(sectors[lba].subrange(start, start + n))
        }),
{
    let stride: int = if raw {
        2352
    } else {
        2048
    };
    let image = source::end_to_end(sectors, stride);
    let none: Seq<u8> = seq![];
    assert(sectors[0].len() == stride && sectors[lba].len() == stride);
    assert(source::image_of(none, sectors, stride, none) =~= image);
    source::parts_follow_each_other(none, sectors, stride, none, 0);
    source::parts_follow_each_other(none, sectors, stride, none, lba);
    assert(image.subrange(0, stride) == sectors[0]);
    assert(image.subrange(lba * stride, lba * stride + stride) == sectors[lba]);
    assert(image.subrange(0, 12) =~= sectors[0].take(12));
    assert(image.subrange(0, 16).subrange(0, 12) =~= image.subrange(0, 12));
    assert(image[15] == sectors[0][15]);
    let start: int = if !raw {
        0
    } else if sectors[0][15] == 2 {
        24
    } else {
        16
    };
    let pos = lba * stride + start;
    assert(image.subrange(pos, pos + n) =~= sectors[lba].subrange(start, start + n));
    assert(cso_reader::part(image, pos, n) =~= image.subrange(pos, pos + n));
}

} // verus!
