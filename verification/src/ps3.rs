//! Encryption of PlayStation 3 disc images.
//!
//! An image is split into regions, of which every second one is encrypted. Each
//! sector of an encrypted region is encrypted on its own, with its number in the
//! initialization vector.
use vstd::prelude::*;
use vstd::slice::*;
use crate::bytes;
use crate::bytes::{read_u32_be, spells_at, write_be, zeroes};
use crate::codec;
use crate::codec::{aes_cbc_decrypt, aes_cbc_encrypt};
use crate::numbers;
use crate::numbers::decimal_string;
use crate::path;
use crate::path::{join_path, split_leaf};
use crate::source;
use crate::source::{read_labelled, ByteSource, Reads};
use crate::text;
use crate::text::{chars_of, cut_chars, eq_ignore_case, join3, string_of};

verus! {

/// The bytes of a sector.
pub const SECTOR: u64 = 2048;

/// The sectors converted at once.
pub const CHUNK_SECTORS: u64 = 2048;

/// A run of sectors, both ends included.
#[derive(Clone, Copy)]
pub struct Region {
    pub first: u64,
    pub last: u64,
    pub encrypted: bool,
}

/// What is known of an image.
pub struct Ps3Detection {
    pub encrypted: bool,
    pub regions: Vec<Region>,
    pub total_sectors: u64,
}

// ── Regions ─────────────────────────────────────────────────────────────────

/// The last sector of the region number `i`: the boundary of an encrypted one is
/// the first sector behind it.
pub open spec fn region_last(h: Seq<u8>, i: int) -> int {
    let b = bytes::be32_at(h, 12 + 4 * i);
    if i % 2 == 1 && b > 0 {
        b - 1
    } else {
        b
    }
}

/// The regions from the one numbered `i` on, behind those in `done`.
pub open spec fn regions_from(h: Seq<u8>, i: int, total: int, done: Seq<Region>) -> Option<
    Seq<Region>,
>
    decreases total - i,
{
    if i < 0 || i >= total {
        Some(done)
    } else {
        let first = if done.len() == 0 {
            0
        } else {
            done.last().last + 1
        };
        let last = region_last(h, i);
        if last < first {
            None
        } else {
            regions_from(
                h,
                i + 1,
                total,
                done.push(Region { first: first as u64, last: last as u64, encrypted: i % 2 == 1 }),
            )
        }
    }
}

/// The regions that the table in the first sector describes, for an image of
/// `total_sectors`. A header that cannot be such a table has none.
pub open spec fn regions_of(h: Seq<u8>, total_sectors: int) -> Option<Seq<Region>> {
    if h.len() < 16 {
        None
    } else {
        let plain = bytes::be32_at(h, 0);
        let total = plain * 2 - 1;
        if plain == 0 || plain >= 32 || h.len() < 12 + total * 4 {
            None
        } else {
            match regions_from(h, 0, total, seq![]) {
                None => None,
                Some(r) => if r.last().last > total_sectors {
                    None
                } else {
                    Some(r)
                },
            }
        }
    }
}

/// Whether the region number `i` begins where the one before it ends, and is
/// encrypted where its number is odd.
pub open spec fn is_link(r: Seq<Region>, i: int) -> bool {
    &&& r[i].first <= r[i].last
    &&& r[i].encrypted == (i % 2 == 1)
    &&& r[i].first == (if i == 0 {
        0
    } else {
        r[i - 1].last + 1
    })
}

/// Whether regions follow each other from the first sector on, those with odd
/// numbers encrypted.
pub open spec fn is_chain(r: Seq<Region>) -> bool {
    forall|i: int| 0 <= i < r.len() ==> #[trigger] is_link(r, i)
}

proof fn lemma_chain(h: Seq<u8>, i: int, total: int, done: Seq<Region>)
    requires
        i == done.len(),
        is_chain(done),
        i <= total,
        done.len() > 0 ==> done.last().last <= u32::MAX,
    ensures
        regions_from(h, i, total, done) matches Some(r) ==> is_chain(r) && r.len() == total,
    decreases total - i,
{
    if i < total {
        let first = if done.len() == 0 {
            0
        } else {
            done.last().last + 1
        };
        let last = region_last(h, i);
        if last >= first {
            let next = done.push(
                Region { first: first as u64, last: last as u64, encrypted: i % 2 == 1 },
            );
            assert forall|k: int| 0 <= k < next.len() implies #[trigger] is_link(next, k) by {
                if k < done.len() {
                    assert(is_link(done, k));
                } else if k > 0 {
                    assert(next[k - 1] == done.last());
                }
            }
            lemma_chain(h, i + 1, total, next);
        }
    }
}

/// The regions of an image follow each other from its first sector on, an odd
/// number of them, and those with odd numbers are encrypted.
pub proof fn regions_follow_each_other(h: Seq<u8>, total_sectors: int)
    ensures
        regions_of(h, total_sectors) matches Some(r) ==> is_chain(r) && r.len() % 2 == 1
            && r.last().last <= total_sectors,
{
    if h.len() >= 16 {
        let plain = bytes::be32_at(h, 0);
        if plain > 0 && plain < 32 {
            lemma_chain(h, 0, plain * 2 - 1, seq![]);
        }
    }
}

proof fn lemma_ascending(r: Seq<Region>, i: int, j: int)
    requires
        is_chain(r),
        0 <= i < j < r.len(),
    ensures
        r[i].last < r[j].first,
    decreases j - i,
{
    assert(is_link(r, j));
    if i < j - 1 {
        lemma_ascending(r, i, j - 1);
        assert(is_link(r, j - 1));
    }
}

/// No sector belongs to two regions.
pub proof fn regions_do_not_overlap(r: Seq<Region>, i: int, j: int, lba: int)
    requires
        is_chain(r),
        0 <= i < r.len(),
        0 <= j < r.len(),
        r[i].first <= lba <= r[i].last,
        r[j].first <= lba <= r[j].last,
    ensures
        i == j,
{
    if i < j {
        lemma_ascending(r, i, j);
    } else if j < i {
        lemma_ascending(r, j, i);
    }
}

/// Reads the region table.
#[verifier::loop_isolation(false)]
pub fn parse_regions(header: &[u8], total_sectors: u64) -> (r: Option<Vec<Region>>)
    ensures
        match r {
            Some(v) => regions_of(header@, total_sectors as int) == Some(v@),
            None => regions_of(header@, total_sectors as int) is None,
        },
{
    let len: usize = header.len();
    if len < 16 {
        return None;
    }
    let plain: u32 = read_u32_be(header, 0);
    if plain == 0 || plain >= 32 {
        return None;
    }
    let total: usize = plain as usize * 2 - 1;
    if len < 12 + total * 4 {
        return None;
    }
    let mut out: Vec<Region> = Vec::new();
    assert(out@ =~= seq![]);
    let ghost goal = regions_from(header@, 0, total as int, seq![]);
    proof {
        lemma_chain(header@, 0, total as int, seq![]);
    }
    let mut i: usize = 0;
    let mut prev_last: u64 = 0;
    while i < total
        invariant
            i <= total,
            out@.len() == i,
            i > 0 ==> out@.last().last == prev_last && prev_last <= u32::MAX,
            regions_from(header@, i as int, total as int, out@) == goal,
        decreases total - i,
    {
        let encrypted: bool = i % 2 == 1;
        let boundary: u64 = read_u32_be(header, 12 + i * 4) as u64;
        let last: u64 = if encrypted && boundary > 0 {
            boundary - 1
        } else {
            boundary
        };
        let first: u64 = if i == 0 {
            0
        } else {
            prev_last + 1
        };
        if last < first {
            return None;
        }
        out.push(Region { first, last, encrypted });
        prev_last = last;
        i += 1;
    }
    if prev_last > total_sectors {
        return None;
    }
    Some(out)
}

/// Whether a sector is in an encrypted region.
pub open spec fn in_encrypted(r: Seq<Region>, lba: int) -> bool {
    exists|i: int| 0 <= i < r.len() && (#[trigger] r[i]).encrypted && r[i].first <= lba <= r[i].last
}

/// Whether a sector is in an encrypted region.
pub fn is_encrypted_sector(regions: &Vec<Region>, lba: u64) -> (r: bool)
    ensures
        r == in_encrypted(regions@, lba as int),
{
    let mut i: usize = 0;
    while i < regions.len()
        invariant
            i <= regions@.len(),
            forall|j: int|
                0 <= j < i ==> !((#[trigger] regions@[j]).encrypted && regions@[j].first <= lba
                    <= regions@[j].last),
        decreases regions@.len() - i,
    {
        let g: Region = regions[i];
        if g.encrypted && lba >= g.first && lba <= g.last {
            assert(regions@[i as int] == g);
            return true;
        }
        i += 1;
    }
    false
}

// ── Detection ───────────────────────────────────────────────────────────────

/// Whether the program at the sector `eboot` shows that an image is decrypted:
/// nothing is shown by one outside the encrypted regions.
pub open spec fn shows_decrypted(reads: Reads, r: Seq<Region>, eboot: Option<u64>) -> Option<bool> {
    match eboot {
        None => None,
        Some(lba) => if !in_encrypted(r, lba as int) {
            None
        } else {
            match source::reach(reads, lba * 2048, 4) {
                Err(_) => None,
                Ok(b) => Some(b == seq![0x53u8, 0x43, 0x45, 0x00]),
            }
        },
    }
}

/// Whether an image is encrypted: its watermark tells, or else its program.
pub open spec fn is_encrypted(reads: Reads, h: Seq<u8>, r: Seq<Region>, eboot: Option<u64>) -> bool {
    if bytes::spells(h, 0xF70, "Encrypted 3K BLD"@) {
        true
    } else if bytes::spells(h, 0xF70, "Dncrypted 3K BLD"@) {
        false
    } else {
        shows_decrypted(reads, r, eboot) != Some(true)
    }
}

/// Whether a name in a directory is that of the disc's main program.
pub open spec fn is_eboot(name: Seq<char>) -> bool {
    text::alike(name, "EBOOT.BIN"@) || text::alike(name, "EBOOT.BIN;1"@)
}

/// The sector of the first main program from record `k` on.
pub open spec fn eboot_from(records: Seq<(String, u32)>, k: int) -> Option<u64>
    decreases records.len() - k,
{
    if k < 0 || k >= records.len() {
        None
    } else if is_eboot(records[k].0@) {
        Some(records[k].1 as u64)
    } else {
        eboot_from(records, k + 1)
    }
}

/// Finds the sector of the disc's main program among the names and sectors in its
/// directory.
pub fn eboot_lba(records: &Vec<(String, u32)>) -> (r: Option<u64>)
    ensures
        r == eboot_from(records@, 0),
{
    let a: Vec<char> = chars_of("EBOOT.BIN");
    let b: Vec<char> = chars_of("EBOOT.BIN;1");
    let mut k: usize = 0;
    while k < records.len()
        invariant
            k <= records@.len(),
            a@ == "EBOOT.BIN"@,
            b@ == "EBOOT.BIN;1"@,
            eboot_from(records@, k as int) == eboot_from(records@, 0),
        decreases records@.len() - k,
    {
        let name: Vec<char> = chars_of(records[k].0.as_str());
        if eq_ignore_case(name.as_slice(), a.as_slice()) || eq_ignore_case(
            name.as_slice(),
            b.as_slice(),
        ) {
            return Some(records[k].1 as u64);
        }
        k += 1;
    }
    None
}

/// Tells whether an image of `total` bytes is one of a PlayStation 3 disc, and
/// whether it is encrypted. `eboot` is the sector of the disc's main program,
/// where its directory names one.
pub fn detect<S: ByteSource>(source: &mut S, total: u64, eboot: Option<u64>) -> (r: Option<
    Ps3Detection,
>)
    ensures
        final(source).reads() == old(source).reads(),
        ({
            let reads = old(source).reads();
            let found = if total < 4096 || total % 2048 != 0 {
                None
            } else {
                match reads(0, 4096) {
                    Err(_) => None,
                    Ok(h) => match regions_of(h, total as int / 2048) {
                        None => None,
                        Some(g) => Some((is_encrypted(reads, h, g, eboot), g)),
                    },
                }
            };
            match r {
                None => found is None,
                Some(d) => found == Some((d.encrypted, d.regions@)) && d.total_sectors == total
                    / 2048,
            }
        }),
{
    let ghost reads = source.reads();
    if total < 4096 || total % 2048 != 0 {
        return None;
    }
    let total_sectors: u64 = total / 2048;
    let h: Vec<u8> = match source.read_exact_at(0, 4096) {
        Ok(b) => b,
        Err(_) => {
            return None;
        },
    };
    let regions: Vec<Region> = match parse_regions(h.as_slice(), total_sectors) {
        Some(v) => v,
        None => {
            return None;
        },
    };
    if spells_at(h.as_slice(), 0xF70, "Encrypted 3K BLD") {
        return Some(Ps3Detection { encrypted: true, regions, total_sectors });
    }
    if spells_at(h.as_slice(), 0xF70, "Dncrypted 3K BLD") {
        return Some(Ps3Detection { encrypted: false, regions, total_sectors });
    }
    let shown: Option<bool> = probe_decrypted(source, &regions, eboot);
    let encrypted: bool = match shown {
        Some(d) => !d,
        None => true,
    };
    Some(Ps3Detection { encrypted, regions, total_sectors })
}

/// Reads whether the program at the sector `eboot` is decrypted.
fn probe_decrypted<S: ByteSource>(source: &mut S, regions: &Vec<Region>, eboot: Option<u64>) -> (r:
    Option<bool>)
    ensures
        final(source).reads() == old(source).reads(),
        r == shows_decrypted(old(source).reads(), regions@, eboot),
{
    let lba: u64 = match eboot {
        Some(n) => n,
        None => {
            return None;
        },
    };
    if !is_encrypted_sector(regions, lba) {
        return None;
    }
    match source::read_wide(source, lba as u128 * 2048, 4, "") {
        Err(_) => None,
        Ok(b) => {
            let magic: [u8; 4] = [0x53, 0x43, 0x45, 0x00];
            assert(magic@ =~= seq![0x53u8, 0x43, 0x45, 0x00]);
            Some(bytes::same_bytes(b.as_slice(), magic.as_slice()))
        },
    }
}

// ── Keys ────────────────────────────────────────────────────────────────────

/// The index of the last `.` of a name, or `-1`.
pub open spec fn last_dot(s: Seq<char>) -> int
    decreases s.len(),
{
    if s.len() == 0 {
        -1
    } else if s.last() == '.' {
        s.len() - 1
    } else {
        last_dot(s.drop_last())
    }
}

/// A file name without its extension.
pub open spec fn stem(name: Seq<char>) -> Seq<char> {
    if last_dot(name) <= 0 || name == seq!['.', '.'] {
        name
    } else {
        name.take(last_dot(name))
    }
}

/// The path of the key beside an image: one of the same stem, with an extension of
/// its own.
pub open spec fn key_path(image: Seq<char>, ext: Seq<char>) -> Option<Seq<char>> {
    match path::leaf(image) {
        None => None,
        Some((dir, name)) => Some(path::joined(dir, stem(name)) + "."@ + ext),
    }
}

/// A file name without its extension.
fn file_stem(name: &str) -> (r: String)
    ensures
        r@ == stem(name@),
{
    let c: Vec<char> = chars_of(name);
    let mut e: usize = c.len();
    assert(c@.take(e as int) =~= c@);
    while e > 0 && c[e - 1] != '.'
        invariant
            e <= c@.len(),
            last_dot(c@) == last_dot(c@.take(e as int)),
        decreases e,
    {
        assert(c@.take(e as int).drop_last() =~= c@.take(e - 1));
        e -= 1;
    }
    let parent: bool = c.len() == 2 && c[0] == '.' && c[1] == '.';
    assert(parent == (c@ =~= seq!['.', '.']));
    if e <= 1 || parent {
        return name.to_owned();
    }
    let head: Vec<char> = cut_chars(c.as_slice(), 0, e - 1);
    assert(head@ =~= name@.take(e - 1));
    string_of(head.as_slice())
}

/// The path of the key beside an image.
pub fn key_candidate(image: &str, ext: &str) -> (r: Option<String>)
    ensures
        match r {
            Some(p) => key_path(image@, ext@) == Some(p@),
            None => key_path(image@, ext@) is None,
        },
{
    match split_leaf(image) {
        None => None,
        Some((dir, name)) => {
            let s: String = file_stem(name.as_str());
            let base: String = join_path(dir.as_str(), s.as_str());
            Some(join3(base.as_str(), ".", ext))
        },
    }
}

/// The key beside an image, given which of the two names a file has: a `.dkey`
/// comes before a `.key`.
pub fn find_key_file(image: &str, has_dkey: bool, has_key: bool) -> (r: Option<String>)
    ensures
        match r {
            Some(p) => Some(p@) == (if has_dkey {
                key_path(image@, "dkey"@)
            } else {
                key_path(image@, "key"@)
            }) && (has_dkey || has_key),
            None => path::leaf(image@) is None || (!has_dkey && !has_key),
        },
{
    if has_dkey {
        key_candidate(image, "dkey")
    } else if has_key {
        key_candidate(image, "key")
    } else {
        None
    }
}

/// The values of the hexadecimal digits among `d`, in order.
pub open spec fn hex_digits(d: Seq<u8>) -> Seq<int>
    decreases d.len(),
{
    if d.len() == 0 {
        seq![]
    } else {
        let head = hex_digits(d.drop_last());
        let v = numbers::digit_value(d.last() as char);
        if v >= 0 {
            head.push(v)
        } else {
            head
        }
    }
}

/// The bytes that pairs of hexadecimal digits spell.
pub open spec fn paired(v: Seq<int>) -> Seq<u8> {
    Seq::new(v.len() / 2, |i: int| (16 * v[2 * i] + v[2 * i + 1]) as u8)
}

/// The key in a key file: sixteen bytes as they are, or else 32 hexadecimal
/// digits, whatever stands between them.
pub open spec fn key_in(d: Seq<u8>) -> Result<Seq<u8>, Seq<char>> {
    if d.len() == 16 {
        Ok(d)
    } else if hex_digits(d).len() != 32 {
        Err(
            "Key must be 16 raw bytes or 32 hex chars (got "@ + numbers::decimal(
                hex_digits(d).len() as int,
            ) + " usable hex chars)"@,
        )
    } else {
        Ok(paired(hex_digits(d)))
    }
}

/// The value of a hexadecimal digit.
fn hex_value(b: u8) -> (r: Option<u8>)
    ensures
        match r {
            Some(v) => v == numbers::digit_value(b as char) && v < 16,
            None => numbers::digit_value(b as char) < 0,
        },
{
    if 48 <= b && b <= 57 {
        Some(b - 48)
    } else if 65 <= b && b <= 70 {
        Some(b - 55)
    } else if 97 <= b && b <= 102 {
        Some(b - 87)
    } else {
        None
    }
}

/// The key in the contents of a key file.
pub fn load_key(data: &[u8]) -> (r: Result<Vec<u8>, String>)
    ensures
        source::outcome(r) == key_in(data@),
        r matches Ok(k) ==> k@.len() == 16,
{
    if data.len() == 16 {
        return Ok(slice_to_vec(data));
    }
    let mut v: Vec<u8> = Vec::new();
    let mut i: usize = 0;
    assert(data@.take(0) =~= seq![]);
    while i < data.len()
        invariant
            i <= data@.len(),
            v@.len() == hex_digits(data@.take(i as int)).len(),
            forall|j: int|
                0 <= j < v@.len() ==> #[trigger] v@[j] == hex_digits(data@.take(i as int))[j]
                    && v@[j] < 16,
        decreases data@.len() - i,
    {
        assert(data@.take(i + 1).drop_last() =~= data@.take(i as int));
        assert(data@.take(i + 1).last() == data@[i as int]);
        if let Some(d) = hex_value(data[i]) {
            v.push(d);
        }
        i += 1;
    }
    assert(data@.take(i as int) =~= data@);
    if v.len() != 32 {
        let n: String = decimal_string(v.len() as u64);
        return Err(
            join3(
                "Key must be 16 raw bytes or 32 hex chars (got ",
                n.as_str(),
                " usable hex chars)",
            ),
        );
    }
    let mut k: Vec<u8> = Vec::new();
    let mut q: usize = 0;
    while q < 16
        invariant
            q <= 16,
            v@.len() == 32,
            v@.len() == hex_digits(data@).len(),
            forall|j: int| 0 <= j < 32 ==> #[trigger] v@[j] == hex_digits(data@)[j] && v@[j] < 16,
            k@.len() == q,
            forall|j: int| 0 <= j < q ==> k@[j] == #[trigger] paired(hex_digits(data@))[j],
        decreases 16 - q,
    {
        let b: u8 = v[2 * q] * 16 + v[2 * q + 1];
        assert(paired(hex_digits(data@))[q as int] == b);
        k.push(b);
        q += 1;
    }
    assert(k@ =~= paired(hex_digits(data@)));
    Ok(k)
}

// ── Conversion ──────────────────────────────────────────────────────────────

/// The initialization vector of a sector.
pub open spec fn sector_iv(lba: int) -> Seq<u8> {
    bytes::zeros(12) + bytes::be_bytes(lba % 0x1_0000_0000, 4)
}

/// A sector once converted: encrypted, or decrypted, where it is in an
/// encrypted region.
pub open spec fn converted_sector(
    key: Seq<u8>,
    r: Seq<Region>,
    encrypt: bool,
    lba: int,
    s: Seq<u8>,
) -> Seq<u8> {
    if !in_encrypted(r, lba) {
        s
    } else if encrypt {
        codec::cbc_encrypted(key, sector_iv(lba), s)
    } else {
        codec::cbc_decrypted(key, sector_iv(lba), s)
    }
}

/// The sectors `b` once converted, of which the first is numbered `lba`.
pub open spec fn converted(key: Seq<u8>, r: Seq<Region>, encrypt: bool, lba: int, b: Seq<u8>) -> Seq<
    u8,
>
    decreases b.len(),
{
    if b.len() < 2048 {
        seq![]
    } else {
        converted_sector(key, r, encrypt, lba, b.take(2048)) + converted(
            key,
            r,
            encrypt,
            lba + 1,
            b.skip(2048),
        )
    }
}

/// The sector number `i` of some bytes.
pub open spec fn sector_of(b: Seq<u8>, i: int) -> Seq<u8> {
    b.subrange(2048 * i, 2048 * i + 2048)
}

/// Whether each sector of `out` is the one of `b` in the same place, once converted,
/// of which the first is numbered `lba`.
pub open spec fn each_converted(
    key: Seq<u8>,
    r: Seq<Region>,
    encrypt: bool,
    lba: int,
    b: Seq<u8>,
    out: Seq<u8>,
) -> bool {
    &&& out.len() == b.len()
    &&& forall|i: int|
        0 <= i < b.len() / 2048 ==> #[trigger] sector_of(out, i) == converted_sector(
            key,
            r,
            encrypt,
            lba + i,
            sector_of(b, i),
        )
}

/// The initialization vector of a sector.
fn make_iv(lba: u64) -> (r: Vec<u8>)
    ensures
        r@ == sector_iv(lba as int),
        r@.len() == 16,
{
    let mut iv: Vec<u8> = zeroes(12);
    let mut n: Vec<u8> = write_be(lba % 0x1_0000_0000, 4);
    assert(n@.len() == 4) by {
        reveal_with_fuel(bytes::be_bytes, 5);
    }
    iv.append(&mut n);
    iv
}

/// Converts a sector. Converting the result the other way gives it back.
pub fn convert_sector(
    key: &[u8],
    regions: &Vec<Region>,
    encrypt: bool,
    lba: u64,
    sector: &[u8],
) -> (r: Vec<u8>)
    requires
        key@.len() == 16,
        sector@.len() == 2048,
    ensures
        r@.len() == 2048,
        r@ == converted_sector(key@, regions@, encrypt, lba as int, sector@),
        converted_sector(key@, regions@, !encrypt, lba as int, r@) == sector@,
{
    if !is_encrypted_sector(regions, lba) {
        return slice_to_vec(sector);
    }
    let iv: Vec<u8> = make_iv(lba);
    if encrypt {
        aes_cbc_encrypt(key, iv.as_slice(), sector)
    } else {
        aes_cbc_decrypt(key, iv.as_slice(), sector)
    }
}

proof fn lemma_each(
    key: Seq<u8>,
    r: Seq<Region>,
    encrypt: bool,
    lba: int,
    a: Seq<u8>,
    out_a: Seq<u8>,
    b: Seq<u8>,
    out_b: Seq<u8>,
    n: int,
)
    requires
        0 <= n,
        a.len() == 2048 * n,
        each_converted(key, r, encrypt, lba, a, out_a),
        each_converted(key, r, encrypt, lba + n, b, out_b),
    ensures
        each_converted(key, r, encrypt, lba, a + b, out_a + out_b),
{
    let all = a + b;
    let out = out_a + out_b;
    assert forall|i: int| 0 <= i < all.len() / 2048 implies #[trigger] sector_of(out, i)
        == converted_sector(key, r, encrypt, lba + i, sector_of(all, i)) by {
        if i < n {
            assert(sector_of(out, i) =~= sector_of(out_a, i));
            assert(sector_of(all, i) =~= sector_of(a, i));
        } else {
            assert(sector_of(out, i) =~= sector_of(out_b, i - n));
            assert(sector_of(all, i) =~= sector_of(b, i - n));
        }
    }
}

proof fn lemma_converted(
    key: Seq<u8>,
    r: Seq<Region>,
    encrypt: bool,
    lba: int,
    done: Seq<u8>,
    s: Seq<u8>,
    n: int,
)
    requires
        0 <= n,
        done.len() == 2048 * n,
        s.len() == 2048,
    ensures
        converted(key, r, encrypt, lba, done + s) == converted(key, r, encrypt, lba, done)
            + converted_sector(key, r, encrypt, lba + n, s),
    decreases n,
{
    let all = done + s;
    if n == 0 {
        assert(done =~= seq![]);
        assert(all.take(2048) =~= s);
        assert(all.skip(2048) =~= seq![]);
        assert(converted(key, r, encrypt, lba + 1, all.skip(2048)) =~= seq![]);
        assert(converted(key, r, encrypt, lba, done) =~= seq![]);
        assert(seq![] + converted_sector(key, r, encrypt, lba, s) =~= converted_sector(
            key,
            r,
            encrypt,
            lba,
            s,
        ));
        assert(converted_sector(key, r, encrypt, lba, s) + seq![] =~= converted_sector(
            key,
            r,
            encrypt,
            lba,
            s,
        ));
    } else {
        assert(all.take(2048) =~= done.take(2048));
        assert(all.skip(2048) =~= done.skip(2048) + s);
        lemma_converted(key, r, encrypt, lba + 1, done.skip(2048), s, n - 1);
        let head = converted_sector(key, r, encrypt, lba, done.take(2048));
        let mid = converted(key, r, encrypt, lba + 1, done.skip(2048));
        let tail = converted_sector(key, r, encrypt, lba + n, s);
        assert(head + (mid + tail) =~= (head + mid) + tail);
    }
}

/// Converts a run of whole sectors, of which the first is numbered `lba`.
/// Converting the result the other way gives it back.
pub fn convert_chunk(
    key: &[u8],
    regions: &Vec<Region>,
    encrypt: bool,
    lba: u64,
    chunk: &[u8],
) -> (r: Vec<u8>)
    requires
        key@.len() == 16,
        chunk@.len() % 2048 == 0,
        lba + chunk@.len() / 2048 <= u64::MAX,
    ensures
        r@.len() == chunk@.len(),
        r@ == converted(key@, regions@, encrypt, lba as int, chunk@),
        each_converted(key@, regions@, encrypt, lba as int, chunk@, r@),
        converted(key@, regions@, !encrypt, lba as int, r@) == chunk@,
{
    let n: usize = chunk.len() / 2048;
    let mut out: Vec<u8> = Vec::new();
    let mut i: usize = 0;
    assert(chunk@.take(0) =~= seq![]);
    while i < n
        invariant
            i <= n,
            n == chunk@.len() / 2048,
            chunk@.len() == 2048 * n,
            key@.len() == 16,
            lba + n <= u64::MAX,
            out@.len() == 2048 * i,
            out@ == converted(key@, regions@, encrypt, lba as int, chunk@.take(2048 * i)),
            each_converted(
                key@,
                regions@,
                encrypt,
                lba as int,
                chunk@.take(2048 * i),
                out@,
            ),
            converted(key@, regions@, !encrypt, lba as int, out@) == chunk@.take(2048 * i),
        decreases n - i,
    {
        assert(2048 * i + 2048 <= chunk.len());
        let s: &[u8] = slice_subrange(chunk, 2048 * i, 2048 * i + 2048);
        let mut c: Vec<u8> = convert_sector(key, regions, encrypt, lba + i as u64, s);
        let ghost before = out@;
        let ghost piece = c@;
        out.append(&mut c);
        proof {
            assert(chunk@.take(2048 * i) + s@ =~= chunk@.take(2048 * (i + 1)));
            lemma_converted(
                key@,
                regions@,
                encrypt,
                lba as int,
                chunk@.take(2048 * i),
                s@,
                i as int,
            );
            lemma_converted(key@, regions@, !encrypt, lba as int, before, piece, i as int);
            assert(sector_of(s@, 0) =~= s@);
            assert(sector_of(piece, 0) =~= piece);
            lemma_each(
                key@,
                regions@,
                encrypt,
                lba as int,
                chunk@.take(2048 * i),
                before,
                s@,
                piece,
                i as int,
            );
        }
        i += 1;
    }
    assert(chunk@.take(2048 * i) =~= chunk@);
    out
}

/// Whether a whole image can be converted, and its regions.
pub open spec fn convertible(reads: Reads, total: int) -> Result<Seq<Region>, Seq<char>> {
    if total % 2048 != 0 {
        Err("Image size is not a multiple of 2048"@)
    } else {
        match reads(
            0,
            if total < 4096 {
                total
            } else {
                4096
            },
        ) {
            Err(e) => Err(e),
            Ok(h) => match regions_of(h, total / 2048) {
                None => Err("Not a recognizable PS3 region table"@),
                Some(r) => Ok(r),
            },
        }
    }
}

/// Prepares the conversion of an image of `total` bytes: reads its regions.
pub fn prepare<S: ByteSource>(source: &mut S, total: u64) -> (r: Result<Vec<Region>, String>)
    ensures
        final(source).reads() == old(source).reads(),
        match r {
            Ok(v) => convertible(old(source).reads(), total as int) == Ok::<Seq<Region>, Seq<char>>(
                v@,
            ),
            Err(e) => convertible(old(source).reads(), total as int) == Err::<
                Seq<Region>,
                Seq<char>,
            >(e@),
        },
{
    if total % 2048 != 0 {
        return Err("Image size is not a multiple of 2048".to_owned());
    }
    let n: u64 = if total < 4096 {
        total
    } else {
        4096
    };
    let h: Vec<u8> = match source.read_exact_at(0, n) {
        Ok(b) => b,
        Err(e) => {
            return Err(e);
        },
    };
    match parse_regions(h.as_slice(), total / 2048) {
        Some(v) => Ok(v),
        None => Err("Not a recognizable PS3 region table".to_owned()),
    }
}

/// The sectors of an image from `lba` on, read in chunks.
pub open spec fn image_from(reads: Reads, total_sectors: int, lba: int) -> Result<
    Seq<u8>,
    Seq<char>,
>
    decreases total_sectors - lba,
{
    if lba >= total_sectors {
        Ok(seq![])
    } else {
        let n = if total_sectors - lba < 2048 {
            total_sectors - lba
        } else {
            2048
        };
        match source::labelled(reads(lba * 2048, n * 2048), "Read error: "@) {
            Err(e) => Err(e),
            Ok(b) => source::after(b, image_from(reads, total_sectors, lba + n)),
        }
    }
}

proof fn lemma_appended(
    key: Seq<u8>,
    r: Seq<Region>,
    encrypt: bool,
    lba: int,
    a: Seq<u8>,
    b: Seq<u8>,
    n: int,
)
    requires
        0 <= n,
        a.len() == 2048 * n,
    ensures
        converted(key, r, encrypt, lba, a + b) == converted(key, r, encrypt, lba, a) + converted(
            key,
            r,
            encrypt,
            lba + n,
            b,
        ),
    decreases n,
{
    if n == 0 {
        assert(a =~= seq![]);
        assert(a + b =~= b);
        assert(seq![] + converted(key, r, encrypt, lba, b) =~= converted(key, r, encrypt, lba, b));
    } else {
        assert((a + b).take(2048) =~= a.take(2048));
        assert((a + b).skip(2048) =~= a.skip(2048) + b);
        lemma_appended(key, r, encrypt, lba + 1, a.skip(2048), b, n - 1);
        let head = converted_sector(key, r, encrypt, lba, a.take(2048));
        let mid = converted(key, r, encrypt, lba + 1, a.skip(2048));
        let tail = converted(key, r, encrypt, lba + n, b);
        assert(head + (mid + tail) =~= (head + mid) + tail);
    }
}

/// A conversion that is under way: `lba` sectors of `total_sectors` are done.
pub struct Ps3Job {
    pub regions: Vec<Region>,
    pub key: Vec<u8>,
    pub encrypt: bool,
    pub total_sectors: u64,
    pub lba: u64,
}

/// What a conversion does next: it writes a piece and reports the sectors that are done
/// of all, or has come to its end, or gives up, after which the output is removed or
/// left.
pub enum Ps3Step {
    Write { piece: Vec<u8>, done: u64, total: u64 },
    Done,
    Stop { error: String, remove: bool },
}

/// A step of a conversion, with what it holds.
#[verifier::ext_equal]
pub enum Ps3StepView {
    Write { piece: Seq<u8>, done: int, total: int },
    Done,
    Stop { error: Seq<char>, remove: bool },
}

impl View for Ps3Step {
    type V = Ps3StepView;

    open spec fn view(&self) -> Ps3StepView {
        match self {
            Ps3Step::Write { piece, done, total } => Ps3StepView::Write {
                piece: piece@,
                done: *done as int,
                total: *total as int,
            },
            Ps3Step::Done => Ps3StepView::Done,
            Ps3Step::Stop { error, remove } => Ps3StepView::Stop { error: error@, remove: *remove },
        }
    }
}

/// The sectors that are done behind the chunk at `lba`.
pub open spec fn done_next(total_sectors: int, lba: int) -> int {
    if total_sectors - lba < CHUNK_SECTORS {
        total_sectors
    } else {
        lba + CHUNK_SECTORS
    }
}

/// What a conversion with `lba` sectors done does next, where `go_on` is the answer to
/// its last report: an answer of no ends it, and removes the output.
pub open spec fn next_step(
    reads: Reads,
    key: Seq<u8>,
    r: Seq<Region>,
    encrypt: bool,
    total_sectors: int,
    lba: int,
    go_on: bool,
) -> Ps3StepView {
    let done = done_next(total_sectors, lba);
    if !go_on {
        Ps3StepView::Stop { error: "__cancelled__"@, remove: true }
    } else if lba >= total_sectors {
        Ps3StepView::Done
    } else {
        match source::labelled(reads(lba * 2048, (done - lba) * 2048), "Read error: "@) {
            Err(error) => Ps3StepView::Stop { error, remove: false },
            Ok(b) => Ps3StepView::Write {
                piece: converted(key, r, encrypt, lba, b),
                done,
                total: total_sectors,
            },
        }
    }
}

impl Ps3Job {
    /// Whether the key has its length, and the sectors can be counted in bytes.
    pub open spec fn wf(&self) -> bool {
        &&& self.key@.len() == 16
        &&& self.lba <= self.total_sectors
        &&& self.total_sectors * 2048 <= u64::MAX
    }

    /// Begins the conversion of an image of `total` bytes.
    pub fn begin<S: ByteSource>(source: &mut S, total: u64, key: &[u8], encrypt: bool) -> (r: Result<
        Ps3Job,
        String,
    >)
        requires
            key@.len() == 16,
        ensures
            final(source).reads() == old(source).reads(),
            match convertible(old(source).reads(), total as int) {
                Err(e) => r matches Err(t) && t@ == e,
                Ok(g) => r matches Ok(j) && j.wf() && j.regions@ == g && j.key@ == key@ && j.encrypt
                    == encrypt && j.total_sectors == total / 2048 && j.lba == 0,
            },
    {
        match prepare(source, total) {
            Err(e) => Err(e),
            Ok(regions) => Ok(
                Ps3Job {
                    regions,
                    key: slice_to_vec(key),
                    encrypt,
                    total_sectors: total / 2048,
                    lba: 0,
                },
            ),
        }
    }

    /// Does the next step, where `go_on` is the answer to the last report. What a
    /// piece was made of comes back where the piece is converted the other way.
    pub fn next<S: ByteSource>(&mut self, source: &mut S, go_on: bool) -> (r: Ps3Step)
        requires
            old(self).wf(),
        ensures
            final(source).reads() == old(source).reads(),
            final(self).wf(),
            final(self).regions@ == old(self).regions@,
            final(self).key@ == old(self).key@,
            final(self).encrypt == old(self).encrypt,
            final(self).total_sectors == old(self).total_sectors,
            r@ == next_step(
                old(source).reads(),
                old(self).key@,
                old(self).regions@,
                old(self).encrypt,
                old(self).total_sectors as int,
                old(self).lba as int,
                go_on,
            ),
            final(self).lba == match r {
                Ps3Step::Write { done, .. } => done,
                _ => old(self).lba,
            },
            r matches Ps3Step::Write { piece, done, .. } ==> {
                let n = (done - old(self).lba) * 2048;
                let chunk = old(source).reads()(old(self).lba * 2048, n)->Ok_0;
                &&& old(self).lba < done
                &&& chunk.len() == n
                &&& each_converted(
                    old(self).key@,
                    old(self).regions@,
                    old(self).encrypt,
                    old(self).lba as int,
                    chunk,
                    piece@,
                )
                &&& converted(
                    old(self).key@,
                    old(self).regions@,
                    !old(self).encrypt,
                    old(self).lba as int,
                    piece@,
                ) == chunk
            },
    {
        if !go_on {
            return Ps3Step::Stop { error: "__cancelled__".to_owned(), remove: true };
        }
        let total: u64 = self.total_sectors;
        let lba: u64 = self.lba;
        if lba >= total {
            return Ps3Step::Done;
        }
        let n: u64 = if total - lba < CHUNK_SECTORS {
            total - lba
        } else {
            CHUNK_SECTORS
        };
        let chunk: Vec<u8> = match read_labelled(source, lba * 2048, n * 2048, "Read error: ") {
            Ok(b) => b,
            Err(error) => {
                return Ps3Step::Stop { error, remove: false };
            },
        };
        let piece: Vec<u8> = convert_chunk(
            self.key.as_slice(),
            &self.regions,
            self.encrypt,
            lba,
            chunk.as_slice(),
        );
        self.lba = lba + n;
        Ps3Step::Write { piece, done: lba + n, total }
    }
}

/// Converts an image of `total` bytes. Converting the result the other way gives
/// the image back.
#[verifier::loop_isolation(false)]
pub fn convert<S: ByteSource>(source: &mut S, total: u64, key: &[u8], encrypt: bool) -> (r: Result<
    Vec<u8>,
    String,
>)
    requires
        key@.len() == 16,
    ensures
        final(source).reads() == old(source).reads(),
        match convertible(old(source).reads(), total as int) {
            Err(e) => r matches Err(t) && t@ == e,
            Ok(g) => match image_from(old(source).reads(), total as int / 2048, 0) {
                Err(e) => r matches Err(t) && t@ == e,
                Ok(image) => r matches Ok(out) && out@.len() == total && out@ == converted(
                    key@,
                    g,
                    encrypt,
                    0,
                    image,
                ) && each_converted(key@, g, encrypt, 0, image, out@) && converted(
                    key@,
                    g,
                    !encrypt,
                    0,
                    out@,
                ) == image,
            },
        },
{
    let ghost reads = source.reads();
    let mut job: Ps3Job = match Ps3Job::begin(source, total, key, encrypt) {
        Ok(j) => j,
        Err(e) => {
            return Err(e);
        },
    };
    let ghost regions = job.regions@;
    let total_sectors: u64 = total / 2048;
    let ghost whole = image_from(reads, total_sectors as int, 0);
    let mut out: Vec<u8> = Vec::new();
    let ghost mut done: Seq<u8> = seq![];
    assert(source::after(done, whole) == whole) by {
        match whole {
            Ok(b) => {
                assert(done + b =~= b);
            },
            Err(_) => {},
        }
    }
    while job.lba < total_sectors
        invariant
            source.reads() == reads,
            job.wf(),
            job.regions@ == regions,
            job.key@ == key@,
            job.encrypt == encrypt,
            job.total_sectors == total_sectors,
            done.len() == 2048 * job.lba,
            out@.len() == done.len(),
            out@ == converted(key@, regions, encrypt, 0, done),
            each_converted(key@, regions, encrypt, 0, done, out@),
            converted(key@, regions, !encrypt, 0, out@) == done,
            source::after(done, image_from(reads, total_sectors as int, job.lba as int)) == whole,
        decreases total_sectors - job.lba,
    {
        let ghost lba = job.lba as int;
        match job.next(source, true) {
            Ps3Step::Write { piece, .. } => {
                let mut c: Vec<u8> = piece;
                let ghost before = out@;
                let ghost piece = c@;
                out.append(&mut c);
                proof {
                    let chunk = reads(lba * 2048, (job.lba - lba) * 2048)->Ok_0;
                    lemma_appended(key@, regions, encrypt, 0, done, chunk, lba);
                    lemma_appended(key@, regions, !encrypt, 0, before, piece, lba);
                    lemma_each(key@, regions, encrypt, 0, done, before, chunk, piece, lba);
                    match image_from(reads, total_sectors as int, job.lba as int) {
                        Ok(t) => {
                            assert(done + (chunk + t) =~= (done + chunk) + t);
                        },
                        Err(_) => {},
                    }
                    done = done + chunk;
                }
            },
            Ps3Step::Stop { error, .. } => {
                return Err(error);
            },
            Ps3Step::Done => {},
        }
    }
    assert(done + seq![] =~= done);
    Ok(out)
}

/// Converting an image leaves its first sector, and with it the region table,
/// as it is.
pub proof fn conversion_keeps_the_table(key: Seq<u8>, r: Seq<Region>, encrypt: bool, image: Seq<u8>)
    requires
        is_chain(r),
        r.len() > 0,
        image.len() >= 2048,
    ensures
        converted(key, r, encrypt, 0, image).take(2048) == image.take(2048),
{
    assert(!in_encrypted(r, 0)) by {
        assert(is_link(r, 0));
        if in_encrypted(r, 0) {
            let i = choose|i: int|
                0 <= i < r.len() && (#[trigger] r[i]).encrypted && r[i].first <= 0 <= r[i].last;
            regions_do_not_overlap(r, 0, i, 0);
        }
    }
    let head = image.take(2048);
    let tail = converted(key, r, encrypt, 1, image.skip(2048));
    assert((head + tail).take(2048) =~= head);
}

/// The sectors that are done when a conversion reports for the `j`-th time, where it
/// is always told to go on.
pub open spec fn done_after(total_sectors: int, j: int) -> int
    decreases j,
{
    if j <= 0 {
        0
    } else {
        done_next(total_sectors, done_after(total_sectors, j - 1))
    }
}

/// The `j`-th report of a conversion tells of `j` chunks of 2048 sectors, or of all
/// sectors where there are fewer.
pub proof fn reports_count_whole_chunks(total_sectors: int, j: int)
    requires
        0 <= total_sectors,
        0 <= j,
    ensures
        done_after(total_sectors, j) == (if 2048 * j < total_sectors {
            2048 * j
        } else {
            total_sectors
        }),
    decreases j,
{
    if j > 0 {
        reports_count_whole_chunks(total_sectors, j - 1);
    }
}

/// A table is read from the first sector alone.
proof fn lemma_same_regions(h: Seq<u8>, g: Seq<u8>, i: int, total: int, done: Seq<Region>)
    requires
        h.len() == g.len(),
        h.len() >= 12 + 4 * total,
        12 + 4 * total <= 2048,
        0 <= i,
        forall|k: int| 0 <= k < h.len() && k < 2048 ==> h[k] == g[k],
    ensures
        regions_from(h, i, total, done) == regions_from(g, i, total, done),
    decreases total - i,
{
    if i < total {
        let first = if done.len() == 0 {
            0
        } else {
            done.last().last + 1
        };
        let last = region_last(h, i);
        assert(region_last(g, i) == last);
        if last >= first {
            lemma_same_regions(
                h,
                g,
                i + 1,
                total,
                done.push(Region { first: first as u64, last: last as u64, encrypted: i % 2 == 1 }),
            );
        }
    }
}

/// An image in memory is read whole.
proof fn lemma_image_from(image: Seq<u8>, lba: int)
    requires
        image.len() % 2048 == 0,
        0 <= lba <= image.len() / 2048,
    ensures
        image_from(source::reads_of(image), image.len() as int / 2048, lba) == Ok::<
            Seq<u8>,
            Seq<char>,
        >(image.skip(2048 * lba)),
    decreases image.len() / 2048 - lba,
{
    let total = image.len() as int / 2048;
    if lba < total {
        let n = if total - lba < 2048 {
            total - lba
        } else {
            2048
        };
        lemma_image_from(image, lba + n);
        assert(image.subrange(lba * 2048, lba * 2048 + n * 2048) + image.skip(2048 * (lba + n))
            =~= image.skip(2048 * lba));
    } else {
        assert(image.skip(2048 * lba) =~= seq![]);
    }
}

/// Converting an image and then the result the other way gives the image back: the
/// second run finds the same regions, and every sector that lies in no encrypted
/// region stands in the first result as in the image. What is asked for of `out` is
/// what a conversion ensures.
pub proof fn converting_back_gives_the_image(
    key: Seq<u8>,
    g: Seq<Region>,
    encrypt: bool,
    image: Seq<u8>,
    out: Seq<u8>,
)
    requires
        convertible(source::reads_of(image), image.len() as int) == Ok::<Seq<Region>, Seq<char>>(g),
        out == converted(key, g, encrypt, 0, image),
        each_converted(key, g, encrypt, 0, image, out),
        converted(key, g, !encrypt, 0, out) == image,
    ensures
        out.len() == image.len(),
        convertible(source::reads_of(out), out.len() as int) == Ok::<Seq<Region>, Seq<char>>(g),
        image_from(source::reads_of(out), out.len() as int / 2048, 0) matches Ok(b) && converted(
            key,
            g,
            !encrypt,
            0,
            b,
        ) == image,
        forall|i: int|
            0 <= i < image.len() / 2048 && !in_encrypted(g, i) ==> #[trigger] sector_of(out, i)
                == sector_of(image, i),
{
    let total = image.len() as int;
    let n = if total < 4096 {
        total
    } else {
        4096
    };
    let h = image.subrange(0, n);
    let h2 = out.subrange(0, n);
    regions_follow_each_other(h, total / 2048);
    conversion_keeps_the_table(key, g, encrypt, image);
    assert forall|k: int| 0 <= k < h.len() && k < 2048 implies h[k] == h2[k] by {
        assert(out.take(2048)[k] == image.take(2048)[k]);
    }
    assert(bytes::be32_at(h, 0) == bytes::be32_at(h2, 0));
    let count = bytes::be32_at(h, 0) * 2 - 1;
    lemma_same_regions(h, h2, 0, count, seq![]);
    lemma_image_from(out, 0);
    assert(out.skip(0) =~= out);
}

// ── Laws of the table and of sectors ────────────────────────────────────────

/// The plain regions of an image are those whose first and last sectors stand in pairs in the
/// table, and what lies between two of them is encrypted.
pub proof fn the_table_tells_the_regions(h: Seq<u8>, total_sectors: int, r: Seq<Region>, k: int)
    requires
        regions_of(h, total_sectors) == Some(r),
        0 <= k,
        2 * k < r.len(),
    ensures
        r.len() == 2 * bytes::be32_at(h, 0) - 1,
        !r[2 * k].encrypted,
        r[2 * k].last == bytes::be32_at(h, 12 + 8 * k),
        k == 0 ==> r[0].first == 0,
        k > 0 ==> r[2 * k].first == bytes::be32_at(h, 8 + 8 * k),
        k > 0 ==> r[2 * k - 1].encrypted && r[2 * k - 1].first == bytes::be32_at(
            h,
            12 + 8 * (k - 1),
        ) + 1 && r[2 * k - 1].last == bytes::be32_at(h, 8 + 8 * k) - 1,
{
    let total = bytes::be32_at(h, 0) * 2 - 1;
    let none: Seq<Region> = seq![];
    lemma_regions(h, 0, total, none, r);
    let i = 2 * k;
    assert(told(h, r, i));
    assert(region_last(h, i) == bytes::be32_at(h, 12 + 8 * k)) by {
        assert(i % 2 == 0);
        assert(12 + 4 * i == 12 + 8 * k);
    }
    if k > 0 {
        let j = 2 * k - 1;
        assert(told(h, r, j));
        assert(told(h, r, j - 1));
        assert(r[j - 1].last == bytes::be32_at(h, 12 + 8 * (k - 1))) by {
            assert((j - 1) % 2 == 0);
            assert(12 + 4 * (j - 1) == 12 + 8 * (k - 1));
        }
        let b = bytes::be32_at(h, 8 + 8 * k);
        assert(j % 2 == 1);
        assert(12 + 4 * j == 8 + 8 * k);
        assert(r[j].first == r[j - 1].last + 1);
        assert(r[j].last == region_last(h, j));
        assert(r[i].first == r[j].last + 1);
        assert(r[j].last == b - 1);
    }
}

/// Whether the region `j` is the one that the table tells of.
spec fn told(h: Seq<u8>, r: Seq<Region>, j: int) -> bool {
    &&& r[j].last == region_last(h, j)
    &&& r[j].encrypted == (j % 2 == 1)
    &&& r[j].first == (if j == 0 {
        0
    } else {
        r[j - 1].last + 1
    })
    &&& r[j].first <= r[j].last
}

proof fn lemma_regions(h: Seq<u8>, i: int, total: int, done: Seq<Region>, r: Seq<Region>)
    requires
        0 <= i <= total,
        done.len() == i,
        regions_from(h, i, total, done) == Some(r),
        forall|j: int| 0 <= j < i ==> #[trigger] told(h, done, j),
    ensures
        r.len() == total,
        forall|j: int| 0 <= j < total ==> #[trigger] told(h, r, j),
    decreases total - i,
{
    if i < total {
        let first = if done.len() == 0 {
            0
        } else {
            done.last().last + 1
        };
        let last = region_last(h, i);
        let more = done.push(
            Region { first: first as u64, last: last as u64, encrypted: i % 2 == 1 },
        );
        assert forall|j: int| 0 <= j < i + 1 implies #[trigger] told(h, more, j) by {
            if j < i {
                assert(told(h, done, j));
                assert(more[j] == done[j]);
                if j > 0 {
                    assert(more[j - 1] == done[j - 1]);
                }
            } else if i > 0 {
                assert(told(h, done, i - 1));
                assert(more[i - 1] == done[i - 1]);
            }
        }
        lemma_regions(h, i + 1, total, more, r);
    }
}

/// An image is converted sector by sector: each of an encrypted region is decrypted, or
/// encrypted, from its own number in the last four bytes, and all others stay.
pub proof fn sectors_are_converted_from_their_numbers(
    key: Seq<u8>,
    r: Seq<Region>,
    encrypt: bool,
    lba: int,
    sectors: Seq<Seq<u8>>,
    starts: Seq<Seq<u8>>,
    out: Seq<Seq<u8>>,
    k: int,
)
    requires
        0 <= lba,
        lba + sectors.len() <= 0x1_0000_0000,
        out.len() == sectors.len(),
        starts.len() == sectors.len(),
        0 <= k <= sectors.len(),
        forall|i: int|
            0 <= i < sectors.len() ==> {
                &&& (#[trigger] sectors[i]).len() == 2048
                &&& out[i].len() == 2048
                &&& starts[i].len() == 16
                &&& forall|j: int| 0 <= j < 12 ==> starts[i][j] == 0
                &&& bytes::has_at(starts[i], 12, bytes::be_bytes(lba + i, 4))
                &&& out[i] == (if !(exists|g: int|
                    0 <= g < r.len() && (#[trigger] r[g]).encrypted && r[g].first <= lba + i
                        <= r[g].last) {
                    sectors[i]
                } else if encrypt {
                    codec::cbc_encrypted(key, starts[i], sectors[i])
                } else {
                    codec::cbc_decrypted(key, starts[i], sectors[i])
                })
            },
    ensures
        converted(
            key,
            r,
            encrypt,
            lba + k,
            source::end_to_end(sectors, 2048).skip(2048 * k),
        ) == source::end_to_end(out, 2048).skip(2048 * k),
    decreases sectors.len() - k,
{
    let all = source::end_to_end(sectors, 2048);
    let done = source::end_to_end(out, 2048);
    let b = all.skip(2048 * k);
    if k < sectors.len() {
        assert(sectors[k].len() == 2048);
        sectors_are_converted_from_their_numbers(
            key,
            r,
            encrypt,
            lba,
            sectors,
            starts,
            out,
            k + 1,
        );
        assert(b.skip(2048) =~= all.skip(2048 * (k + 1)));
        assert forall|j: int| 0 <= j < 2048 implies b.take(2048)[j] == sectors[k][j] by {
            source::lemma_within_part(k, 2048, j);
        }
        assert(b.take(2048) =~= sectors[k]);
        bytes::lemma_notation_len(lba + k, 4);
        assert(starts[k] =~= sector_iv(lba + k)) by {
            let tail = starts[k].subrange(12, 16);
            assert forall|j: int| 0 <= j < 16 implies starts[k][j] == sector_iv(lba + k)[j] by {
                if j >= 12 {
                    assert(starts[k][j] == tail[j - 12]);
                }
            }
        }
        assert(converted_sector(key, r, encrypt, lba + k, sectors[k]) == out[k]);
        let rest = done.skip(2048 * (k + 1));
        assert forall|j: int| 0 <= j < done.len() - 2048 * k implies (out[k] + rest)[j]
            == #[trigger] done.skip(2048 * k)[j] by {
            if j < 2048 {
                source::lemma_within_part(k, 2048, j);
            }
        }
        assert(out[k] + rest =~= done.skip(2048 * k));
    } else {
        assert(done.skip(2048 * k) =~= seq![]);
    }
}

/// A key that is written in hexadecimal digits is read, two digits for each byte.
pub proof fn a_hexadecimal_key_is_read(d: Seq<u8>, key: Seq<u8>)
    requires
        d.len() == 32,
        key.len() == 16,
        forall|i: int|
            0 <= i < 16 ==> numbers::digit_value(d[2 * i] as char) == (#[trigger] key[i]) / 16
                && numbers::digit_value(d[2 * i + 1] as char) == key[i] % 16,
    ensures
        key_in(d) == Ok::<Seq<u8>, Seq<char>>(key),
{
    lemma_hex(d, key, 32);
    assert(d.take(32) =~= d);
    let v = hex_digits(d);
    assert forall|i: int| 0 <= i < 16 implies paired(v)[i] == key[i] by {
        assert(numbers::digit_value(d[2 * i] as char) == key[i] / 16);
        assert(v[2 * i] == numbers::digit_value(d[2 * i] as char));
        assert(v[2 * i + 1] == numbers::digit_value(d[2 * i + 1] as char));
    }
    assert(paired(v) =~= key);
}

proof fn lemma_hex(d: Seq<u8>, key: Seq<u8>, n: int)
    requires
        0 <= n <= 32,
        d.len() == 32,
        key.len() == 16,
        forall|i: int|
            0 <= i < 16 ==> numbers::digit_value(d[2 * i] as char) == (#[trigger] key[i]) / 16
                && numbers::digit_value(d[2 * i + 1] as char) == key[i] % 16,
    ensures
        hex_digits(d.take(n)).len() == n,
        forall|i: int|
            0 <= i < n ==> #[trigger] hex_digits(d.take(n))[i] == numbers::digit_value(
                d[i] as char,
            ),
    decreases n,
{
    if n > 0 {
        lemma_hex(d, key, n - 1);
        let t = d.take(n);
        assert(t.drop_last() =~= d.take(n - 1));
        assert(t.last() == d[n - 1]);
        let i = (n - 1) / 2;
        assert(numbers::digit_value(d[2 * i] as char) == key[i] / 16);
        assert(n - 1 == 2 * i || n - 1 == 2 * i + 1);
    }
}

/// The initialization vector of a sector is its number in sixteen bytes, the highest first.
pub proof fn a_sector_is_numbered_in_its_vector(lba: int)
    requires
        0 <= lba <= 0xFFFF_FFFF,
    ensures
        sector_iv(lba).len() == 16,
        forall|i: int| 0 <= i < 12 ==> #[trigger] sector_iv(lba)[i] == 0,
        bytes::be32_at(sector_iv(lba), 12) == lba,
{
    let v = sector_iv(lba);
    bytes::lemma_notation_len(lba, 4);
    assert(lba % 0x1_0000_0000 == lba);
    assert(v.subrange(12, 16) =~= bytes::be_bytes(lba, 4));
    assert(bytes::has_at(v, 12, bytes::be_bytes(lba, 4))) by {
        assert forall|k: int| 0 <= k < 4 implies #[trigger] v[12 + k] == bytes::be_bytes(
            lba,
            4,
        )[k] by {
            assert(v.subrange(12, 16)[k] == v[12 + k]);
        }
    }
    bytes::fields_hold_what_was_written(v, 12, lba);
}

/// An image says itself whether it is encrypted; where it does not, it is unless its program, in an
/// encrypted region, begins with the mark of a decrypted one.
pub proof fn an_image_tells_whether_it_is_encrypted(
    image: Seq<u8>,
    h: Seq<u8>,
    r: Seq<Region>,
    lba: u64,
)
    requires
        2048 * lba + 4 <= image.len() <= u64::MAX,
        in_encrypted(r, lba as int),
    ensures
        bytes::spells(h, 0xF70, "Encrypted 3K BLD"@) ==> is_encrypted(
            source::reads_of(image),
            h,
            r,
            Some(lba),
        ),
        bytes::spells(h, 0xF70, "Dncrypted 3K BLD"@) ==> !is_encrypted(
            source::reads_of(image),
            h,
            r,
            Some(lba),
        ),
        !bytes::spells(h, 0xF70, "Encrypted 3K BLD"@) && !bytes::spells(
            h,
            0xF70,
            "Dncrypted 3K BLD"@,
        ) ==> is_encrypted(source::reads_of(image), h, r, Some(lba)) == !(image[2048 * lba] == 0x53
            && image[2048 * lba + 1] == 0x43 && image[2048 * lba + 2] == 0x45 && image[2048 * lba
            + 3] == 0),
{
    reveal_strlit("Encrypted 3K BLD");
    reveal_strlit("Dncrypted 3K BLD");
    assert("Encrypted 3K BLD"@[0] == 'E' && "Dncrypted 3K BLD"@[0] == 'D');
    let at = 2048 * lba;
    let b = image.subrange(at, at + 4);
    let m = seq![0x53u8, 0x43, 0x45, 0x00];
    assert(b[0] == image[at] && b[1] == image[at + 1] && b[2] == image[at + 2] && b[3] == image[at
        + 3]);
    if image[at] == 0x53 && image[at + 1] == 0x43 && image[at + 2] == 0x45 && image[at + 3] == 0 {
        assert(b =~= m);
    } else {
        if b == m {
            assert(m[0] == 0x53 && m[1] == 0x43 && m[2] == 0x45 && m[3] == 0);
        }
    }
}

} // verus!
