//! NEC PC Engine CD-ROM: a data track that begins with a boot block instead of
//! a directory.
use vstd::prelude::*;
use vstd::slice::*;
use crate::bytes;
use crate::bytes::{find_byte_from, read_u24_be, spells_at};
use crate::entry;
use crate::entry::{DiscEntry, EntryView};
use crate::numbers;
use crate::numbers::decimal_string;
use crate::sector;
use crate::sector::{default_stride, read_data};
use crate::source;
use crate::source::{ByteSource, Reads};
use crate::text;
use crate::text::{chars_of, cut_chars, from_utf8_lossy, join2, join3, string_of};

verus! {

/// Whether a character pads a name.
pub open spec fn is_pad(c: char) -> bool {
    c == ' ' || c == '\0'
}

/// `s` without the padding at its end.
pub open spec fn unpadded_back(s: Seq<char>) -> Seq<char>
    decreases s.len(),
{
    if s.len() > 0 && is_pad(s.last()) {
        unpadded_back(s.drop_last())
    } else {
        s
    }
}

/// `s` without the padding at its beginning.
pub open spec fn unpadded_front(s: Seq<char>) -> Seq<char>
    decreases s.len(),
{
    if s.len() > 0 && is_pad(s[0]) {
        unpadded_front(s.skip(1))
    } else {
        s
    }
}

/// The text of a padded field.
pub open spec fn padded_text(b: Seq<u8>) -> Seq<char> {
    unpadded_front(unpadded_back(text::utf8_text(b)))
}

fn space_padded(b: &[u8]) -> (r: String)
    ensures
        r@ == padded_text(b@),
{
    let whole: String = from_utf8_lossy(b);
    let c: Vec<char> = chars_of(whole.as_str());
    let mut e: usize = c.len();
    assert(c@.take(e as int) =~= c@);
    while e > 0 && (c[e - 1] == ' ' || c[e - 1] == '\0')
        invariant
            e <= c@.len(),
            unpadded_back(c@) == unpadded_back(c@.take(e as int)),
        decreases e,
    {
        assert(c@.take(e as int).drop_last() =~= c@.take(e - 1));
        e -= 1;
    }
    let ghost back = c@.take(e as int);
    assert(unpadded_back(c@) == back);
    let mut i: usize = 0;
    assert(back.skip(0) =~= back);
    while i < e && (c[i] == ' ' || c[i] == '\0')
        invariant
            i <= e <= c@.len(),
            back == c@.take(e as int),
            unpadded_front(back) == unpadded_front(back.skip(i as int)),
        decreases e - i,
    {
        assert(back.skip(i as int).skip(1) =~= back.skip(i + 1));
        i += 1;
    }
    let kept: Vec<char> = cut_chars(c.as_slice(), i, e);
    assert(kept@ =~= back.skip(i as int));
    string_of(kept.as_slice())
}

/// Whether a sector holds a boot block.
pub open spec fn is_boot_block(s: Seq<u8>) -> bool {
    bytes::spells(s, 0x20, "PC Engine CD-ROM SYSTEM"@)
}

/// A sector of the track, if it can be read.
pub open spec fn sector_of(reads: Reads, track_offset: int, user_data_offset: u64, lba: int) -> Result<
    Seq<u8>,
    Seq<char>,
> {
    sector::data_at(
        reads,
        track_offset,
        sector::stride_for(user_data_offset) as int,
        user_data_offset as int,
        lba,
    )
}

/// The sector with the boot block: the first or the second of the track.
pub open spec fn boot_sector(reads: Reads, track_offset: int, user_data_offset: u64) -> Option<int> {
    if sector_of(reads, track_offset, user_data_offset, 0) matches Ok(s) && is_boot_block(s) {
        Some(0)
    } else if sector_of(reads, track_offset, user_data_offset, 1) matches Ok(s) && is_boot_block(s) {
        Some(1)
    } else {
        None
    }
}

/// The name in a boot block: two fields behind the signature and a copyright
/// notice that ends with a zero byte.
pub open spec fn boot_name(s: Seq<u8>) -> Seq<char> {
    let zero = bytes::find_byte(s, 0x38, 0);
    let start = if zero < s.len() {
        zero + 1
    } else {
        116int
    };
    let name = if start + 22 <= 2048 {
        let p1 = padded_text(s.subrange(start, start + 16));
        let p2 = padded_text(s.subrange(start + 16, start + 22));
        if p2.len() == 0 {
            p1
        } else {
            p1 + " "@ + p2
        }
    } else {
        seq![]
    };
    if name.len() == 0 {
        "PC Engine Program"@
    } else {
        name
    }
}

/// The line for the boot program.
pub open spec fn boot_line(s: Seq<u8>) -> EntryView {
    EntryView {
        name: boot_name(s),
        is_dir: false,
        lba: bytes::be24_at(s, 0) as u32,
        size: s[3] as u32,
        size_bytes: (s[3] * 2048) as u32,
        modified: seq![],
        deleted: false,
        is_xa: false,
    }
}

/// The line for the boot program.
fn parse_ipl(s: &[u8]) -> (r: DiscEntry)
    requires
        s@.len() == 2048,
    ensures
        r@ == boot_line(s@),
{
    proof {
        bytes::lemma_find_byte(s@, 0x38, 0);
    }
    let zero: usize = find_byte_from(s, 0x38, 0);
    let start: usize = if zero < 2048 {
        zero + 1
    } else {
        116
    };
    let name: String = if start + 22 <= 2048 {
        let p1: String = space_padded(slice_subrange(s, start, start + 16));
        let p2: String = space_padded(slice_subrange(s, start + 16, start + 22));
        let tail: Vec<char> = chars_of(p2.as_str());
        if tail.len() == 0 {
            p1
        } else {
            join3(p1.as_str(), " ", p2.as_str())
        }
    } else {
        let none: String = String::new();
        assert(none@ =~= seq![]);
        none
    };
    let letters: Vec<char> = chars_of(name.as_str());
    let name: String = if letters.len() == 0 {
        "PC Engine Program".to_owned()
    } else {
        name
    };
    let modified: String = String::new();
    assert(modified@ =~= seq![]);
    DiscEntry {
        name,
        is_dir: false,
        lba: read_u24_be(s, 0),
        size: s[3] as u32,
        size_bytes: s[3] as u32 * 2048,
        modified,
        deleted: false,
        is_xa: false,
    }
}

/// Finds the sector with the boot block.
fn find_boot<S: ByteSource>(source: &mut S, track_offset: u64, user_data_offset: u64) -> (r: Option<
    u64,
>)
    ensures
        final(source).reads() == old(source).reads(),
        match r {
            Some(n) => boot_sector(old(source).reads(), track_offset as int, user_data_offset)
                == Some(n as int),
            None => boot_sector(old(source).reads(), track_offset as int, user_data_offset) is None,
        },
{
    let stride: u64 = default_stride(user_data_offset);
    if let Ok(s) = read_data(source, track_offset, stride, user_data_offset, 0, "") {
        if spells_at(s.as_slice(), 0x20, "PC Engine CD-ROM SYSTEM") {
            return Some(0);
        }
    }
    if let Ok(s) = read_data(source, track_offset, stride, user_data_offset, 1, "") {
        if spells_at(s.as_slice(), 0x20, "PC Engine CD-ROM SYSTEM") {
            return Some(1);
        }
    }
    None
}

/// Whether a track begins with a boot block.
pub fn is_pce_disc<S: ByteSource>(source: &mut S, track_offset: u64, user_data_offset: u64) -> (r:
    bool)
    ensures
        final(source).reads() == old(source).reads(),
        r == boot_sector(old(source).reads(), track_offset as int, user_data_offset) is Some,
{
    find_boot(source, track_offset, user_data_offset).is_some()
}

/// A PC Engine disc.
pub struct PceFs<S: ByteSource> {
    pub source: S,
    pub track_offset: u64,
    pub user_data_offset: u64,
    pub ipl_lba: u64,
}

/// The sectors from `lba` on, `n` of them.
pub open spec fn sectors_from(
    reads: Reads,
    track_offset: int,
    user_data_offset: u64,
    lba: int,
    n: int,
) -> Result<Seq<u8>, Seq<char>>
    decreases n,
{
    if n <= 0 {
        Ok(seq![])
    } else {
        match sector_of(reads, track_offset, user_data_offset, lba) {
            Err(_) => Err("Failed to read sector "@ + numbers::decimal(lba)),
            Ok(s) => source::after(
                s,
                sectors_from(reads, track_offset, user_data_offset, lba + 1, n - 1),
            ),
        }
    }
}

impl<S: ByteSource> PceFs<S> {
    /// The boot block of this disc.
    pub open spec fn boot(&self) -> Result<Seq<u8>, Seq<char>> {
        match sector_of(
            self.source.reads(),
            self.track_offset as int,
            self.user_data_offset,
            self.ipl_lba as int,
        ) {
            Ok(s) => Ok(s),
            Err(_) => Err("Failed to read IPL sector"@),
        }
    }

    /// Opens the disc whose data track begins at `track_offset`.
    pub fn new(source: S, track_offset: u64, user_data_offset: u64) -> (r: Result<PceFs<S>, String>)
        ensures
            match r {
                Ok(fs) => fs.source.reads() == source.reads() && fs.track_offset == track_offset
                    && fs.user_data_offset == user_data_offset && boot_sector(
                    source.reads(),
                    track_offset as int,
                    user_data_offset,
                ) == Some(fs.ipl_lba as int),
                Err(e) => boot_sector(source.reads(), track_offset as int, user_data_offset) is None
                    && e@ == "Not a PC Engine CD-ROM disc"@,
            },
    {
        let mut source: S = source;
        match find_boot(&mut source, track_offset, user_data_offset) {
            Some(ipl_lba) => Ok(PceFs { source, track_offset, user_data_offset, ipl_lba }),
            None => Err("Not a PC Engine CD-ROM disc".to_owned()),
        }
    }

    /// Reads the boot block.
    fn read_boot(&mut self) -> (r: Result<Vec<u8>, String>)
        ensures
            final(self).source.reads() == old(self).source.reads(),
            final(self).track_offset == old(self).track_offset,
            final(self).user_data_offset == old(self).user_data_offset,
            final(self).ipl_lba == old(self).ipl_lba,
            source::outcome(r) == old(self).boot(),
            r matches Ok(b) ==> b@.len() == 2048,
    {
        match read_data(
            &mut self.source,
            self.track_offset,
            default_stride(self.user_data_offset),
            self.user_data_offset,
            self.ipl_lba,
            "",
        ) {
            Ok(b) => Ok(b),
            Err(_) => Err("Failed to read IPL sector".to_owned()),
        }
    }

    /// Lists the one program that the boot block names, whatever the directory.
    pub fn list_directory(&mut self, _dir_path: &str) -> (r: Result<Vec<DiscEntry>, String>)
        ensures
            final(self).source.reads() == old(self).source.reads(),
            final(self).track_offset == old(self).track_offset,
            final(self).user_data_offset == old(self).user_data_offset,
            final(self).ipl_lba == old(self).ipl_lba,
            match old(self).boot() {
                Ok(s) => r matches Ok(v) && entry::listing(v@) == seq![boot_line(s)],
                Err(e) => r matches Err(t) && t@ == e,
            },
    {
        match self.read_boot() {
            Ok(s) => {
                let mut out: Vec<DiscEntry> = Vec::new();
                let line: DiscEntry = parse_ipl(s.as_slice());
                out.push(line);
                assert(entry::listing(out@) =~= seq![line@]);
                Ok(out)
            },
            Err(e) => Err(e),
        }
    }

    /// The bytes of the boot program, whatever the path.
    #[verifier::loop_isolation(false)]
    pub fn extract_file(&mut self, _file_path: &str) -> (r: Result<Vec<u8>, String>)
        ensures
            final(self).source.reads() == old(self).source.reads(),
            final(self).track_offset == old(self).track_offset,
            final(self).user_data_offset == old(self).user_data_offset,
            final(self).ipl_lba == old(self).ipl_lba,
            source::outcome(r) == (match old(self).boot() {
                Err(e) => Err(e),
                Ok(s) => sectors_from(
                    old(self).source.reads(),
                    old(self).track_offset as int,
                    old(self).user_data_offset,
                    boot_line(s).lba as int,
                    boot_line(s).size as int,
                ),
            }),
    {
        let ghost reads = self.source.reads();
        let boot: Vec<u8> = match self.read_boot() {
            Ok(s) => s,
            Err(e) => {
                return Err(e);
            },
        };
        let line: DiscEntry = parse_ipl(boot.as_slice());
        let stride: u64 = default_stride(self.user_data_offset);
        let mut lba: u64 = line.lba as u64;
        let mut left: u64 = line.size as u64;
        let mut out: Vec<u8> = Vec::new();
        let ghost goal = sectors_from(
            reads,
            self.track_offset as int,
            self.user_data_offset,
            lba as int,
            left as int,
        );
        assert(source::after(out@, goal) == goal) by {
            match goal {
                Ok(b) => {
                    assert(out@ + b =~= b);
                },
                Err(_) => {},
            }
        }
        while left > 0
            invariant
                self.source.reads() == reads,
                self.track_offset == old(self).track_offset,
                self.user_data_offset == old(self).user_data_offset,
                self.ipl_lba == old(self).ipl_lba,
                lba + left <= 0x2_0000_0000,
                source::after(
                    out@,
                    sectors_from(
                        reads,
                        self.track_offset as int,
                        self.user_data_offset,
                        lba as int,
                        left as int,
                    ),
                ) == goal,
            decreases left,
        {
            let mut s: Vec<u8> = match read_data(
                &mut self.source,
                self.track_offset,
                stride,
                self.user_data_offset,
                lba,
                "",
            ) {
                Ok(s) => s,
                Err(_) => {
                    let n: String = decimal_string(lba);
                    return Err(join2("Failed to read sector ", n.as_str()));
                },
            };
            let ghost before = out@;
            let ghost piece = s@;
            out.append(&mut s);
            proof {
                match sectors_from(
                    reads,
                    self.track_offset as int,
                    self.user_data_offset,
                    lba + 1,
                    left - 1,
                ) {
                    Ok(t) => {
                        assert(before + (piece + t) =~= (before + piece) + t);
                    },
                    Err(_) => {},
                }
            }
            lba += 1;
            left -= 1;
        }
        assert(out@ + seq![] =~= out@);
        Ok(out)
    }
}

/// The boot program is as long as a listing says.
pub proof fn a_program_is_as_long_as_its_entry(
    reads: Reads,
    track_offset: int,
    user_data_offset: u64,
    lba: int,
    n: int,
)
    requires
        source::exact(reads),
        0 <= n,
    ensures
        sectors_from(reads, track_offset, user_data_offset, lba, n) matches Ok(b) ==> b.len() == 2048
            * n,
    decreases n,
{
    if n > 0 {
        a_program_is_as_long_as_its_entry(reads, track_offset, user_data_offset, lba + 1, n - 1);
        if let Ok(s) = sector_of(reads, track_offset, user_data_offset, lba) {
            assert(s.len() == 2048);
        }
    }
}

/// The byte `i` of a program that is read stands in the user data of the sector that many
/// whole sectors of 2048 bytes behind its first one.
pub proof fn a_program_is_read_from_its_sectors(
    front: Seq<u8>,
    sectors: Seq<Seq<u8>>,
    rest: Seq<u8>,
    data: u64,
    stride: int,
    lba: int,
    n: int,
)
    requires
        data <= 304,
        data > 0 ==> stride == 2352,
        data == 0 ==> stride == 2048,
        forall|k: int| 0 <= k < sectors.len() ==> (#[trigger] sectors[k]).len() == stride,
        source::image_of(front, sectors, stride, rest).len() <= u64::MAX,
        0 <= lba,
        0 <= n,
        lba + n <= sectors.len(),
    ensures
        sectors_from(
            source::reads_of(source::image_of(front, sectors, stride, rest)),
            front.len() as int,
            data,
            lba,
            n,
        ) matches Ok(b) && b.len() == 2048 * n && forall|i: int|
            0 <= i < 2048 * n ==> #[trigger] b[i] == sectors[lba + i / 2048][data + i % 2048],
    decreases n,
{
    if n > 0 {
        let reads = source::reads_of(source::image_of(front, sectors, stride, rest));
        assert(sectors[lba].len() == stride);
        sector::sectors_follow_each_other(front, sectors, stride, rest, data as int, lba);
        a_program_is_read_from_its_sectors(front, sectors, rest, data, stride, lba + 1, n - 1);
        let head = sector_of(reads, front.len() as int, data, lba)->Ok_0;
        let tail = sectors_from(reads, front.len() as int, data, lba + 1, n - 1)->Ok_0;
        let b = head + tail;
        assert forall|i: int| 0 <= i < 2048 * n implies #[trigger] b[i] == sectors[lba + i / 2048][
        data + i % 2048] by {
            if i >= 2048 {
                assert(b[i] == tail[i - 2048]);
                assert((i - 2048) / 2048 == i / 2048 - 1 && (i - 2048) % 2048 == i % 2048);
            }
        }
    }
}

/// The line of a boot program shows the first sector and the number of sectors that its
/// block was written with.
pub proof fn a_boot_block_names_its_program(s: Seq<u8>, lba: int, n: u8)
    requires
        s.len() == 2048,
        0 <= lba <= 0xFF_FFFF,
        bytes::has_at(s, 0, bytes::be_bytes(lba, 3).push(n)),
    ensures
        boot_line(s).lba == lba,
        boot_line(s).size == n,
        boot_line(s).size_bytes == 2048 * n,
        !boot_line(s).is_dir,
{
    reveal_with_fuel(bytes::be_bytes, 4);
    let all = bytes::be_bytes(lba, 3).push(n);
    assert(s.subrange(0, 4) == all);
    assert(s[3] == s.subrange(0, 4)[3]);
    assert(s.subrange(0, 3) =~= bytes::be_bytes(lba, 3)) by {
        assert forall|i: int| 0 <= i < 3 implies s.subrange(0, 3)[i] == bytes::be_bytes(lba, 3)[i] by {
            assert(s.subrange(0, 4)[i] == all[i]);
        }
    }
    bytes::fields_hold_what_was_written(s, 0, lba);
}

/// The boot block is the first or the second sector, whichever first has the mark at 0x20.
pub proof fn the_boot_block_has_its_mark(reads: Reads, track_offset: int, user_data_offset: u64, a: Seq<u8>, b: Seq<u8>)
    requires
        sector::data_at(
            reads,
            track_offset,
            sector::stride_for(user_data_offset) as int,
            user_data_offset as int,
            0,
        ) == Ok::<Seq<u8>, Seq<char>>(a),
        sector::data_at(
            reads,
            track_offset,
            sector::stride_for(user_data_offset) as int,
            user_data_offset as int,
            1,
        ) == Ok::<Seq<u8>, Seq<char>>(b),
    ensures
        bytes::spells(a, 0x20, "PC Engine CD-ROM SYSTEM"@) ==> boot_sector(
            reads,
            track_offset,
            user_data_offset,
        ) == Some(0int),
        !bytes::spells(a, 0x20, "PC Engine CD-ROM SYSTEM"@) && bytes::spells(
            b,
            0x20,
            "PC Engine CD-ROM SYSTEM"@,
        ) ==> boot_sector(reads, track_offset, user_data_offset) == Some(1int),
        !bytes::spells(a, 0x20, "PC Engine CD-ROM SYSTEM"@) && !bytes::spells(
            b,
            0x20,
            "PC Engine CD-ROM SYSTEM"@,
        ) ==> boot_sector(reads, track_offset, user_data_offset) is None,
{
}

} // verus!
