//! BlindWrite images: the descriptor file that goes with the tracks' data.
use vstd::prelude::*;
use crate::bytes;
use crate::bytes::{cut, read_u16_le, read_u32_le, spells_at};
use crate::codec;
use crate::codec::decode_utf16le;
use crate::source::{ByteSource, Reads};
use crate::text;
use crate::text::{chars_of, eq_ignore_case, string_of, trim_end_of};
use crate::track;
use crate::track::{sector_lba_at, DataTrack, TrackView};

verus! {

/// A data block of a descriptor: where its data starts, the length of its sectors
/// and where their user data starts, and the stored name of its file.
pub struct DataBlock {
    pub offset: u64,
    pub stride: u64,
    pub user_data_offset: u64,
    pub name: Vec<u8>,
}

/// The contents of a data block.
#[verifier::ext_equal]
pub struct BlockView {
    pub offset: u64,
    pub stride: u64,
    pub user_data_offset: u64,
    pub name: Seq<u8>,
}

impl View for DataBlock {
    type V = BlockView;

    open spec fn view(&self) -> BlockView {
        BlockView {
            offset: self.offset,
            stride: self.stride,
            user_data_offset: self.user_data_offset,
            name: self.name@,
        }
    }
}

/// The bytes of the parts between the header and the name of the image.
pub open spec fn parts_len(data: Seq<u8>) -> int {
    bytes::le32_at(data, 0xF2) + bytes::le32_at(data, 0xF6) + bytes::le16_at(data, 0x62)
        + bytes::le16_at(data, 0x64) + bytes::le16_at(data, 0x66) + bytes::le32_at(data, 0x6A)
        + bytes::le32_at(data, 0x7A) + if bytes::le16_at(data, 0x30) <= 8 {
        bytes::le16_at(data, 0x68)
    } else {
        bytes::le32_at(data, 0x7E)
    }
}

/// The length of the sectors of a kind, and where their user data starts.
pub open spec fn kind_format(kind: int) -> (u64, u64) {
    if kind == 6 {
        (2048, 0)
    } else if kind == 2 || kind == 4 {
        (2352, 16)
    } else {
        (2352, 24)
    }
}

/// The first data block among `n` records from `pos` on.
pub open spec fn block_from(data: Seq<u8>, pos: int, n: int) -> Option<BlockView>
    decreases n,
{
    let kind = bytes::le32_at(data, pos);
    let name = bytes::le32_at(data, pos + 0x30);
    if n <= 0 || pos + 52 > data.len() || pos + 52 + name > data.len() {
        None
    } else if kind == 0 || kind == 1 {
        block_from(data, pos + 52 + name + 4, n - 1)
    } else {
        Some(
            BlockView {
                offset: bytes::le32_at(data, pos + 0x18) as u64,
                stride: kind_format(kind).0,
                user_data_offset: kind_format(kind).1,
                name: data.subrange(pos + 52, pos + 52 + name),
            },
        )
    }
}

/// The first data block of a descriptor.
pub open spec fn first_block(data: Seq<u8>) -> Result<BlockView, Seq<char>> {
    let path = 260 + parts_len(data);
    let blocks = path + 4 + bytes::le32_at(data, path) * 2;
    if data.len() < 260 || !bytes::spells(data, 0, "BWT5 STREAM SIGN"@) {
        Err("Not a BlindWrite 5/6 file"@)
    } else if path + 4 > data.len() {
        Err("BlindWrite: truncated after blobs"@)
    } else if blocks + 4 > data.len() {
        Err("BlindWrite: truncated before dataBlockCount"@)
    } else {
        match block_from(data, blocks + 4, bytes::le32_at(data, blocks)) {
            Some(b) => Ok(b),
            None => Err("BlindWrite: no data track found"@),
        }
    }
}

/// Finds the first data block among the records from `start` on.
#[verifier::loop_isolation(false)]
fn find_block(data: &[u8], start: usize, n: u32) -> (r: Option<DataBlock>)
    requires
        start <= data@.len(),
    ensures
        match r {
            Some(b) => block_from(data@, start as int, n as int) == Some(b@),
            None => block_from(data@, start as int, n as int) is None,
        },
{
    let len: usize = data.len();
    let mut pos: usize = start;
    let mut left: u32 = n;
    while left > 0 && len - pos >= 52
        invariant
            start <= pos <= len,
            block_from(data@, pos as int, left as int) == block_from(
                data@,
                start as int,
                n as int,
            ),
        decreases left,
    {
        let kind: u32 = read_u32_le(data, pos);
        let offset: u32 = read_u32_le(data, pos + 0x18);
        let name: u32 = read_u32_le(data, pos + 0x30);
        let room: usize = len - pos - 52;
        if name as u64 > room as u64 {
            return None;
        }
        let at: usize = pos + 52;
        let end: usize = at + name as usize;
        if kind != 0 && kind != 1 {
            let (stride, user_data_offset): (u64, u64) = match kind {
                6 => (2048, 0),
                2 => (2352, 16),
                4 => (2352, 16),
                _ => (2352, 24),
            };
            return Some(
                DataBlock {
                    offset: offset as u64,
                    stride,
                    user_data_offset,
                    name: cut(data, at, end),
                },
            );
        }
        if len - end < 4 {
            assert(block_from(data@, end + 4, left - 1) is None);
            return None;
        }
        pos = end + 4;
        left -= 1;
    }
    None
}

/// Finds the first data block of a descriptor.
pub fn read_first_block(data: &[u8]) -> (r: Result<DataBlock, String>)
    ensures
        match r {
            Ok(b) => first_block(data@) == Ok::<BlockView, Seq<char>>(b@),
            Err(e) => first_block(data@) == Err::<BlockView, Seq<char>>(e@),
        },
{
    let len: usize = data.len();
    if len < 260 || !spells_at(data, 0, "BWT5 STREAM SIGN") {
        return Err("Not a BlindWrite 5/6 file".to_owned());
    }
    let info: u64 = if read_u16_le(data, 0x30) <= 8 {
        read_u16_le(data, 0x68) as u64
    } else {
        read_u32_le(data, 0x7E) as u64
    };
    let path: u64 = 260 + read_u32_le(data, 0xF2) as u64 + read_u32_le(data, 0xF6) as u64
        + read_u16_le(data, 0x62) as u64 + read_u16_le(data, 0x64) as u64 + read_u16_le(
        data,
        0x66,
    ) as u64 + read_u32_le(data, 0x6A) as u64 + read_u32_le(data, 0x7A) as u64 + info;
    if path + 4 > len as u64 {
        return Err("BlindWrite: truncated after blobs".to_owned());
    }
    let chars: u32 = read_u32_le(data, path as usize);
    let blocks: u64 = path + 4 + chars as u64 * 2;
    if blocks + 4 > len as u64 {
        return Err("BlindWrite: truncated before dataBlockCount".to_owned());
    }
    let at: usize = blocks as usize;
    match find_block(data, at + 4, read_u32_le(data, at)) {
        Some(b) => Ok(b),
        None => Err("BlindWrite: no data track found".to_owned()),
    }
}

/// The name of a file out of its decoded form, without the zeros behind it; none
/// where nothing is left.
pub open spec fn bare_name(decoded: Seq<char>) -> Option<Seq<char>> {
    let t = text::strip_back(decoded, '\0');
    if t.len() == 0 {
        None
    } else {
        Some(t)
    }
}

/// The name of a file out of its decoded form.
pub fn strip_name(decoded: &str) -> (r: Option<String>)
    ensures
        match r {
            Some(t) => bare_name(decoded@) == Some(t@),
            None => bare_name(decoded@) is None,
        },
{
    let c: Vec<char> = chars_of(decoded);
    let t: Vec<char> = trim_end_of(c.as_slice(), '\0');
    if t.len() == 0 {
        None
    } else {
        Some(string_of(t.as_slice()))
    }
}

/// The name of the file that holds a data block.
pub fn block_file(b: &DataBlock) -> (r: Option<String>)
    ensures
        match r {
            Some(t) => bare_name(codec::utf16le_text(b.name@)) == Some(t@),
            None => bare_name(codec::utf16le_text(b.name@)) is None,
        },
{
    let decoded: String = decode_utf16le(b.name.as_slice());
    strip_name(decoded.as_str())
}

/// The extension of the data file that goes with a descriptor of some extension.
pub open spec fn data_extension(ext: Seq<char>) -> Seq<char> {
    if text::alike(ext, "b5t"@) {
        "b5i"@
    } else {
        "b6i"@
    }
}

/// The extension of the data file that goes with a descriptor of some extension.
pub fn companion_ext(ext: &str) -> (r: String)
    ensures
        r@ == data_extension(ext@),
{
    let c: Vec<char> = chars_of(ext);
    let b5t: Vec<char> = chars_of("b5t");
    if eq_ignore_case(c.as_slice(), b5t.as_slice()) {
        "b5i".to_owned()
    } else {
        "b6i".to_owned()
    }
}

/// The data track of a data block.
pub open spec fn block_track(b: BlockView, bin: Reads, bin_path: Seq<char>) -> TrackView {
    TrackView {
        bin_path,
        track_offset: b.offset,
        user_data_offset: b.user_data_offset,
        stride: b.stride,
        lba_offset: if b.user_data_offset > 0 {
            track::lba_at(bin, b.offset as int)
        } else {
            0
        },
        descramble: false,
        sector_count: 0,
    }
}

/// The data track of a data block: `bin` is the file that holds it.
pub fn make_track<S: ByteSource>(b: &DataBlock, bin: &mut S, bin_path: &str) -> (r: DataTrack)
    ensures
        final(bin).reads() == old(bin).reads(),
        r@ == block_track(b@, old(bin).reads(), bin_path@),
{
    let lba_offset: u64 = if b.user_data_offset > 0 {
        sector_lba_at(bin, b.offset)
    } else {
        0
    };
    DataTrack {
        bin_path: bin_path.to_owned(),
        track_offset: b.offset,
        user_data_offset: b.user_data_offset,
        stride: b.stride,
        lba_offset,
        descramble: false,
        sector_count: 0,
    }
}

/// Records of blocks without data are passed over: 52 bytes, a name and four bytes more.
pub proof fn records_follow_each_other(data: Seq<u8>, pos: int, n: int, kind: int, name: int)
    requires
        0 < n,
        0 <= pos,
        kind == 0 || kind == 1,
        0 <= name <= 0xFFFF_FFFF,
        pos + 52 + name <= data.len(),
        bytes::has_at(data, pos, bytes::le_bytes(kind, 4)),
        bytes::has_at(data, pos + 0x30, bytes::le_bytes(name, 4)),
    ensures
        block_from(data, pos, n) == block_from(data, pos + 56 + name, n - 1),
{
    bytes::fields_hold_what_was_written(data, pos, kind);
    bytes::fields_hold_what_was_written(data, pos + 0x30, name);
}

/// A record of a block with data tells its kind first, where the data start at 0x18 and the
/// name of their file, which stands behind its 52 bytes. Blocks of the sixth kind have plain
/// sectors; of the others, the second and the fourth are of the first mode.
pub proof fn a_record_tells_its_block(
    data: Seq<u8>,
    pos: int,
    n: int,
    kind: int,
    offset: int,
    name: Seq<u8>,
)
    requires
        0 < n,
        0 <= pos,
        2 <= kind <= 0xFFFF_FFFF,
        0 <= offset <= 0xFFFF_FFFF,
        name.len() <= 0xFFFF_FFFF,
        bytes::has_at(data, pos, bytes::le_bytes(kind, 4)),
        bytes::has_at(data, pos + 0x18, bytes::le_bytes(offset, 4)),
        bytes::has_at(data, pos + 0x30, bytes::le_bytes(name.len() as int, 4)),
        bytes::has_at(data, pos + 52, name),
    ensures
        block_from(data, pos, n) matches Some(b) && {
            &&& b.offset == offset
            &&& b.name == name
            &&& kind == 6 ==> b.stride == 2048 && b.user_data_offset == 0
            &&& kind == 2 || kind == 4 ==> b.stride == 2352 && b.user_data_offset == 16
            &&& kind == 3 || kind == 5 ==> b.stride == 2352 && b.user_data_offset == 24
        },
{
    bytes::fields_hold_what_was_written(data, pos, kind);
    bytes::fields_hold_what_was_written(data, pos + 0x18, offset);
    bytes::fields_hold_what_was_written(data, pos + 0x30, name.len() as int);
    assert(data.subrange(pos + 52, pos + 52 + name.len()) =~= name);
}

/// The blocks of a descriptor stand behind its header of 260 bytes, its parts, whose lengths
/// the header holds, and the name of the image, of two bytes to a character; their number
/// stands before them.
pub proof fn the_header_leads_to_the_blocks(
    data: Seq<u8>,
    a: int,
    b: int,
    c: int,
    d: int,
    e: int,
    f: int,
    g: int,
    h: int,
    version: int,
    chars: int,
    n: int,
)
    requires
        data.len() >= 260,
        bytes::spells(data, 0, "BWT5 STREAM SIGN"@),
        0 <= version <= 0xFFFF,
        0 <= c <= 0xFFFF,
        0 <= d <= 0xFFFF,
        0 <= e <= 0xFFFF,
        0 <= a <= 0xFFFF_FFFF,
        0 <= b <= 0xFFFF_FFFF,
        0 <= f <= 0xFFFF_FFFF,
        0 <= g <= 0xFFFF_FFFF,
        0 <= h <= 0xFFFF_FFFF,
        0 <= chars <= 0xFFFF_FFFF,
        0 <= n <= 0xFFFF_FFFF,
        bytes::has_at(data, 0x30, bytes::le_bytes(version, 2)),
        bytes::has_at(data, 0xF2, bytes::le_bytes(a, 4)),
        bytes::has_at(data, 0xF6, bytes::le_bytes(b, 4)),
        bytes::has_at(data, 0x62, bytes::le_bytes(c, 2)),
        bytes::has_at(data, 0x64, bytes::le_bytes(d, 2)),
        bytes::has_at(data, 0x66, bytes::le_bytes(e, 2)),
        bytes::has_at(data, 0x6A, bytes::le_bytes(f, 4)),
        bytes::has_at(data, 0x7A, bytes::le_bytes(g, 4)),
        version <= 8 ==> h <= 0xFFFF && bytes::has_at(data, 0x68, bytes::le_bytes(h, 2)),
        version > 8 ==> bytes::has_at(data, 0x7E, bytes::le_bytes(h, 4)),
        ({
            let path = 260 + a + b + c + d + e + f + g + h;
            &&& bytes::has_at(data, path, bytes::le_bytes(chars, 4))
            &&& bytes::has_at(data, path + 4 + 2 * chars, bytes::le_bytes(n, 4))
            &&& block_from(data, path + 8 + 2 * chars, n) is Some
        }),
    ensures
        ({
            let path = 260 + a + b + c + d + e + f + g + h;
            first_block(data) == Ok::<BlockView, Seq<char>>(
                block_from(data, path + 8 + 2 * chars, n)->0,
            )
        }),
{
    let path = 260 + a + b + c + d + e + f + g + h;
    bytes::fields_hold_what_was_written(data, 0x30, version);
    bytes::fields_hold_what_was_written(data, 0xF2, a);
    bytes::fields_hold_what_was_written(data, 0xF6, b);
    bytes::fields_hold_what_was_written(data, 0x62, c);
    bytes::fields_hold_what_was_written(data, 0x64, d);
    bytes::fields_hold_what_was_written(data, 0x66, e);
    bytes::fields_hold_what_was_written(data, 0x6A, f);
    bytes::fields_hold_what_was_written(data, 0x7A, g);
    bytes::fields_hold_what_was_written(data, 0x68, h);
    bytes::fields_hold_what_was_written(data, 0x7E, h);
    bytes::fields_hold_what_was_written(data, path, chars);
    bytes::fields_hold_what_was_written(data, path + 4 + 2 * chars, n);
    bytes::lemma_notation_len(chars, 4);
    bytes::lemma_notation_len(n, 4);
}

/// The zeros behind a name are not part of it.
pub proof fn zeros_behind_a_name_go(name: Seq<char>, zeros: Seq<char>)
    requires
        name.len() > 0,
        name.last() != '\0',
        forall|i: int| 0 <= i < zeros.len() ==> #[trigger] zeros[i] == '\0',
    ensures
        bare_name(name + zeros) == Some(name),
    decreases zeros.len(),
{
    let s = name + zeros;
    if zeros.len() > 0 {
        assert(s.last() == zeros.last());
        assert(s.drop_last() =~= name + zeros.drop_last());
        zeros_behind_a_name_go(name, zeros.drop_last());
    } else {
        assert(s =~= name);
    }
}

} // verus!
