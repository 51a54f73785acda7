//! Listings of ISO 9660 directories, and files of which the disc holds more than
//! their directory tells.
use vstd::prelude::*;
use crate::calendar;
use crate::calendar::write_stamp;
use crate::entry;
use crate::entry::{clamp_u32, DiscEntry, EntryView};
use crate::text::{chars_of, is_text, join2, same_text};

verus! {

/// What a path leads to.
#[derive(Clone, Copy, PartialEq, Eq, Structural)]
pub enum IsoFound {
    Directory,
    File,
    Nothing,
}

/// A record of a directory: its name, where its extent starts, its size, when it was
/// written, and what a raw read of its first sector gives (nothing where the image
/// holds no raw sectors).
pub struct IsoItem {
    pub name: String,
    pub is_dir: bool,
    pub lba: u32,
    pub size: u32,
    pub year: u64,
    pub month: u64,
    pub day: u64,
    pub hour: u64,
    pub minute: u64,
    pub second: u64,
    pub probe: Vec<u8>,
}

// ── Streaming files ─────────────────────────────────────────────────────────

/// Whether a raw sector is one of a streaming file: its subheader says that it is
/// real-time, or of form 2.
pub open spec fn is_streaming(probe: Seq<u8>) -> bool {
    probe.len() >= 8 && probe[2] & 0x60 != 0
}

/// The sectors that a file of `size` bytes takes.
pub open spec fn sectors_for(size: int) -> int {
    (size + 2047) / 2048
}

/// The size of a file as it is extracted: a streaming file has 2336 bytes in each
/// sector, where its directory counts 2048.
pub open spec fn extracted_size(size: u32, probe: Seq<u8>) -> u32 {
    if is_streaming(probe) {
        entry::clamped(sectors_for(size as int) * 2336)
    } else {
        size
    }
}

/// Whether a raw sector is one of a streaming file.
pub fn streams(probe: &[u8]) -> (r: bool)
    ensures
        r == is_streaming(probe@),
{
    probe.len() >= 8 && probe[2] & 0x60 != 0
}

/// The raw sectors that are extracted of a streaming file.
pub fn streamed_sectors(size: u32) -> (r: u64)
    ensures
        r == sectors_for(size as int),
{
    (size as u64 + 2047) / 2048
}

/// The size of a file as it is extracted.
pub fn xa_aware_size(size: u32, probe: &[u8]) -> (r: u32)
    ensures
        r == extracted_size(size, probe@),
{
    if streams(probe) {
        clamp_u32(streamed_sectors(size) * 2336)
    } else {
        size
    }
}

/// A file is never extracted to fewer bytes than its directory tells.
pub proof fn extraction_loses_nothing(size: u32, probe: Seq<u8>)
    ensures
        extracted_size(size, probe) >= size,
{
}

// ── Directories ─────────────────────────────────────────────────────────────

/// Whether a name stands for a directory itself, or for the one above it.
pub open spec fn is_link(name: Seq<char>) -> bool {
    name == "\0"@ || name == "\x01"@ || name == "."@ || name == ".."@
}

/// The line of a record.
pub open spec fn line_of(i: IsoItem) -> EntryView {
    let size = if i.is_dir {
        0
    } else {
        extracted_size(i.size, i.probe@)
    };
    EntryView {
        name: i.name@,
        is_dir: i.is_dir,
        lba: i.lba,
        size,
        size_bytes: size,
        modified: calendar::stamp(
            1,
            i.year as int,
            i.month as int,
            i.day as int,
            i.hour as int,
            i.minute as int,
            i.second as int,
        ),
        deleted: false,
        is_xa: false,
    }
}

/// Whether one of the first `k` records has a name and an extent.
pub open spec fn is_seen(items: Seq<IsoItem>, k: int, name: Seq<char>, lba: u32) -> bool {
    exists|j: int| 0 <= j < k && (#[trigger] items[j]).name@ == name && items[j].lba == lba
}

/// The lines of the first `n` records: without links, and each name and extent once.
pub open spec fn lines_of(items: Seq<IsoItem>, n: int) -> Seq<EntryView>
    decreases n,
{
    if n <= 0 || n > items.len() {
        seq![]
    } else {
        let i = items[n - 1];
        if is_link(i.name@) || is_seen(items, n - 1, i.name@, i.lba) {
            lines_of(items, n - 1)
        } else {
            lines_of(items, n - 1).push(line_of(i))
        }
    }
}

/// The error for a path that leads to no directory.
pub open spec fn directory_error(found: IsoFound, path: Seq<char>) -> Option<Seq<char>> {
    match found {
        IsoFound::Directory => None,
        IsoFound::File => Some(path + " is not a directory"@),
        IsoFound::Nothing => Some("Directory not found: "@ + path),
    }
}

/// The error for a path that leads to no file.
pub open spec fn file_error(found: IsoFound, path: Seq<char>) -> Option<Seq<char>> {
    match found {
        IsoFound::File => None,
        IsoFound::Directory => Some(path + " is not a file"@),
        IsoFound::Nothing => Some("File not found: "@ + path),
    }
}

/// Whether a name stands for a directory itself, or for the one above it.
fn links(name: &str) -> (r: bool)
    ensures
        r == is_link(name@),
{
    let c: Vec<char> = chars_of(name);
    let s: &[char] = c.as_slice();
    is_text(s, "\0") || is_text(s, "\x01") || is_text(s, ".") || is_text(s, "..")
}

/// Whether one of the first `k` records has a name and an extent.
fn seen_before(items: &Vec<IsoItem>, k: usize, name: &str, lba: u32) -> (r: bool)
    requires
        k <= items@.len(),
    ensures
        r == is_seen(items@, k as int, name@, lba),
{
    let mut j: usize = 0;
    while j < k
        invariant
            j <= k <= items@.len(),
            forall|i: int|
                0 <= i < j ==> !((#[trigger] items@[i]).name@ == name@ && items@[i].lba == lba),
        decreases k - j,
    {
        if items[j].lba == lba && same_text(items[j].name.as_str(), name) {
            return true;
        }
        j += 1;
    }
    false
}

/// The line of a record.
fn make_line(i: &IsoItem) -> (r: DiscEntry)
    ensures
        r@ == line_of(*i),
{
    let size: u32 = if i.is_dir {
        0
    } else {
        xa_aware_size(i.size, i.probe.as_slice())
    };
    DiscEntry {
        name: i.name.as_str().to_owned(),
        is_dir: i.is_dir,
        lba: i.lba,
        size,
        size_bytes: size,
        modified: write_stamp(1, i.year, i.month, i.day, i.hour, i.minute, i.second),
        deleted: false,
        is_xa: false,
    }
}

/// Lists a directory.
#[verifier::loop_isolation(false)]
pub fn collect_entries(found: IsoFound, path: &str, items: &Vec<IsoItem>) -> (r: Result<
    Vec<DiscEntry>,
    String,
>)
    ensures
        match r {
            Ok(v) => directory_error(found, path@) is None && entry::listing(v@) == lines_of(
                items@,
                items@.len() as int,
            ),
            Err(e) => directory_error(found, path@) == Some(e@),
        },
{
    match found {
        IsoFound::Directory => {},
        IsoFound::File => {
            return Err(join2(path, " is not a directory"));
        },
        IsoFound::Nothing => {
            return Err(join2("Directory not found: ", path));
        },
    }
    let mut out: Vec<DiscEntry> = Vec::new();
    let mut n: usize = 0;
    assert(entry::listing(out@) =~= lines_of(items@, 0));
    while n < items.len()
        invariant
            n <= items@.len(),
            entry::listing(out@) == lines_of(items@, n as int),
        decreases items@.len() - n,
    {
        let i: &IsoItem = &items[n];
        let ghost before = entry::listing(out@);
        if !links(i.name.as_str()) && !seen_before(items, n, i.name.as_str(), i.lba) {
            out.push(make_line(i));
            assert(entry::listing(out@) =~= before.push(line_of(*i)));
        }
        n += 1;
    }
    Ok(out)
}

/// Checks that a path leads to a file.
pub fn check_file(found: IsoFound, path: &str) -> (r: Result<(), String>)
    ensures
        match r {
            Ok(_) => file_error(found, path@) is None,
            Err(e) => file_error(found, path@) == Some(e@),
        },
{
    match found {
        IsoFound::File => Ok(()),
        IsoFound::Directory => Err(join2(path, " is not a file")),
        IsoFound::Nothing => Err(join2("File not found: ", path)),
    }
}

/// Every record that is no link has a line in the listing, and no line stands for
/// anything else.
pub proof fn a_listing_shows_every_record(items: Seq<IsoItem>, n: int)
    requires
        0 <= n <= items.len(),
    ensures
        forall|j: int|
            0 <= j < n && !is_link(items[j].name@) ==> exists|k: int|
                0 <= k < lines_of(items, n).len() && (#[trigger] lines_of(items, n)[k]).name
                    == (#[trigger] items[j]).name@ && lines_of(items, n)[k].lba == items[j].lba,
        forall|k: int|
            0 <= k < lines_of(items, n).len() ==> exists|j: int|
                0 <= j < n && !is_link(items[j].name@) && #[trigger] line_of(items[j])
                    == #[trigger] lines_of(items, n)[k],
    decreases n,
{
    if n > 0 {
        a_listing_shows_every_record(items, n - 1);
        let i = items[n - 1];
        let before = lines_of(items, n - 1);
        let all = lines_of(items, n);
        assert forall|j: int| 0 <= j < n && !is_link(items[j].name@) implies exists|k: int|
            0 <= k < all.len() && (#[trigger] all[k]).name == (#[trigger] items[j]).name@
                && all[k].lba == items[j].lba by {
            if j < n - 1 {
                let k = choose|k: int|
                    0 <= k < before.len() && (#[trigger] before[k]).name == items[j].name@
                        && before[k].lba == items[j].lba;
                assert(all[k] == before[k]);
            } else if is_seen(items, n - 1, i.name@, i.lba) {
                let m = choose|m: int|
                    0 <= m < n - 1 && (#[trigger] items[m]).name@ == i.name@ && items[m].lba
                        == i.lba;
                let k = choose|k: int|
                    0 <= k < before.len() && (#[trigger] before[k]).name == items[m].name@
                        && before[k].lba == items[m].lba;
                assert(all[k] == before[k]);
            } else {
                assert(all[before.len() as int] == line_of(i));
            }
        }
        assert forall|k: int| 0 <= k < all.len() implies exists|j: int|
            0 <= j < n && !is_link(items[j].name@) && #[trigger] line_of(items[j])
                == #[trigger] all[k] by {
            if k < before.len() {
                assert(all[k] == before[k]);
                let j = choose|j: int|
                    0 <= j < n - 1 && !is_link(items[j].name@) && #[trigger] line_of(items[j])
                        == before[k];
                assert(line_of(items[j]) == all[k]);
            } else {
                assert(line_of(items[n - 1]) == all[k]);
            }
        }
    }
}

/// A streaming file has 2336 bytes for each sector that it takes, the last one included; the
/// sixth or the seventh bit of the third byte of its subheader tells that it is one.
pub proof fn a_streaming_file_has_longer_sectors(size: u32, probe: Seq<u8>, n: int)
    requires
        probe.len() >= 8,
        2048 * n - 2048 < size <= 2048 * n,
        2336 * n <= u32::MAX,
    ensures
        (probe[2] / 32) % 2 == 1 || (probe[2] / 64) % 2 == 1 ==> extracted_size(size, probe)
            == 2336 * n,
        (probe[2] / 32) % 2 == 0 && (probe[2] / 64) % 2 == 0 ==> extracted_size(size, probe)
            == size,
        sectors_for(size as int) == n,
{
    let b = probe[2];
    assert((b & 0x60 != 0) == ((b / 32) % 2 == 1 || (b / 64) % 2 == 1)) by (bit_vector);
}

/// A file without a raw sector has the size that its directory tells.
pub proof fn a_plain_file_keeps_its_size(size: u32, probe: Seq<u8>)
    requires
        probe.len() < 8,
    ensures
        extracted_size(size, probe) == size,
{
}

/// No name is shown twice for one extent, and links are not shown.
pub proof fn no_record_is_shown_twice(items: Seq<IsoItem>, n: int)
    requires
        0 <= n <= items.len(),
    ensures
        forall|j: int, k: int|
            0 <= j < k < lines_of(items, n).len() ==> (#[trigger] lines_of(items, n)[j]).name
                != (#[trigger] lines_of(items, n)[k]).name || lines_of(items, n)[j].lba != lines_of(
                items,
                n,
            )[k].lba,
    decreases n,
{
    if n > 0 {
        no_record_is_shown_twice(items, n - 1);
        a_listing_shows_every_record(items, n - 1);
        let i = items[n - 1];
        let before = lines_of(items, n - 1);
        if !is_link(i.name@) && !is_seen(items, n - 1, i.name@, i.lba) {
            assert forall|j: int| 0 <= j < before.len() implies (#[trigger] before[j]).name
                != i.name@ || before[j].lba != i.lba by {
                let m = choose|m: int|
                    0 <= m < n - 1 && !is_link(items[m].name@) && #[trigger] line_of(items[m])
                        == before[j];
                assert(before[j].name == items[m].name@ && before[j].lba == items[m].lba);
            }
        }
    }
}

} // verus!
