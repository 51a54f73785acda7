//! Sectors of a disc image: where their user data stands and how they are read.
use vstd::prelude::*;
use crate::source;
use crate::source::{read_wide, ByteSource, Reads};

verus! {

/// The bytes of a raw sector.
pub const RAW_SECTOR_SIZE: u64 = 2352;

/// The bytes from one sector to the next, for images whose user data begins
/// `user_data_offset` bytes into the sector.
pub open spec fn stride_for(user_data_offset: u64) -> u64 {
    if user_data_offset > 0 {
        2352
    } else {
        2048
    }
}

/// The bytes from one sector to the next.
pub fn default_stride(user_data_offset: u64) -> (r: u64)
    ensures
        r == stride_for(user_data_offset),
{
    if user_data_offset > 0 {
        2352
    } else {
        2048
    }
}

/// Where the user data of a sector stands.
pub open spec fn data_pos(track_offset: int, stride: int, user_data_offset: int, lba: int) -> int {
    track_offset + lba * stride + user_data_offset
}

/// The 2048 bytes of user data of a sector.
pub open spec fn data_at(
    reads: Reads,
    track_offset: int,
    stride: int,
    user_data_offset: int,
    lba: int,
) -> Result<Seq<u8>, Seq<char>> {
    source::reach(reads, data_pos(track_offset, stride, user_data_offset, lba), 2048)
}

/// The position of a sector's user data.
pub fn data_position(track_offset: u64, stride: u64, user_data_offset: u64, lba: u64) -> (r: u128)
    ensures
        r == data_pos(track_offset as int, stride as int, user_data_offset as int, lba as int),
{
    proof {
        let a = lba as int;
        let b = stride as int;
        assert(0 <= a * b <= 0xffff_ffff_ffff_ffff * 0xffff_ffff_ffff_ffff) by (nonlinear_arith)
            requires
                0 <= a <= 0xffff_ffff_ffff_ffff,
                0 <= b <= 0xffff_ffff_ffff_ffff,
        ;
    }
    track_offset as u128 + lba as u128 * stride as u128 + user_data_offset as u128
}

/// Reads the user data of a sector; an error carries the label in front.
pub fn read_data<S: ByteSource>(
    source: &mut S,
    track_offset: u64,
    stride: u64,
    user_data_offset: u64,
    lba: u64,
    label: &str,
) -> (r: Result<Vec<u8>, String>)
    ensures
        final(source).reads() == old(source).reads(),
        source::outcome(r) == source::labelled(
            data_at(
                old(source).reads(),
                track_offset as int,
                stride as int,
                user_data_offset as int,
                lba as int,
            ),
            label@,
        ),
        r matches Ok(b) ==> b@.len() == 2048,
{
    let pos: u128 = data_position(track_offset, stride, user_data_offset, lba);
    read_wide(source, pos, 2048, label)
}

/// Sectors follow each other: in a track of sectors of `stride` bytes behind `front`, the
/// user data of the sector `lba` are those that stand `user_data_offset` bytes into it.
pub proof fn sectors_follow_each_other(
    front: Seq<u8>,
    sectors: Seq<Seq<u8>>,
    stride: int,
    rest: Seq<u8>,
    user_data_offset: int,
    lba: int,
)
    requires
        0 <= lba < sectors.len(),
        sectors[lba].len() == stride,
        0 <= user_data_offset,
        user_data_offset + 2048 <= stride,
        source::image_of(front, sectors, stride, rest).len() <= u64::MAX,
    ensures
        data_at(
            source::reads_of(source::image_of(front, sectors, stride, rest)),
            front.len() as int,
            stride,
            user_data_offset,
            lba,
        ) == Ok::<Seq<u8>, Seq<char>>(
            sectors[lba].subrange(user_data_offset, user_data_offset + 2048),
        ),
{
    let image = source::image_of(front, sectors, stride, rest);
    source::parts_follow_each_other(front, sectors, stride, rest, lba);
    let at = front.len() + lba * stride;
    let whole = image.subrange(at, at + stride);
    assert(whole == sectors[lba]);
    assert(image.subrange(at + user_data_offset, at + user_data_offset + 2048) =~= whole.subrange(
        user_data_offset,
        user_data_offset + 2048,
    ));
}

/// Sectors with something before their user data are raw ones, others are plain.
pub proof fn raw_sectors_are_longer(user_data_offset: u64)
    ensures
        user_data_offset == 0 ==> stride_for(user_data_offset) == 2048,
        user_data_offset > 0 ==> stride_for(user_data_offset) == 2352,
{
}

} // verus!
