//! TAR archives, plain or wrapped in gzip, bzip2, xz or Zstandard.
use vstd::prelude::*;
use vstd::slice::*;
use vstd::utf8::*;
use crate::bytes;
use crate::bytes::{bytes_at, cut, find_byte_from};
use crate::calendar;
use crate::calendar::{civil_from_days, write_stamp};
use crate::catalog;
use crate::catalog::{base_path, normalise, Catalog, CatalogView, Listed, Target};
use crate::codec;
use crate::codec::{bzip2_decode, gzip_decode, zstd_decode_all};
use crate::entry;
use crate::entry::{DiscEntry, EntryView};
use crate::numbers;
use crate::numbers::{decimal_string, parse_unsigned};
use crate::source;
use crate::source::{label_error, read_labelled, ByteSource, Reads};
use crate::text;
use crate::text::{chars_of, from_utf8, from_utf8_lossy, is_text, join2, join3, trim};
use crate::xz_footer;
use crate::xz_footer::unpack_xz;

verus! {

/// The largest compressed archive that is decompressed for indexing.
pub const MAX_IN_MEMORY: u64 = 0x8000_0000;

/// Where a file is stored.
pub struct TarEntry {
    pub offset: u64,
    pub size: u64,
    pub modified: String,
}

/// The contents of a `TarEntry`.
#[verifier::ext_equal]
pub struct TarRecord {
    pub offset: u64,
    pub size: u64,
    pub modified: Seq<char>,
}

impl View for TarEntry {
    type V = TarRecord;

    open spec fn view(&self) -> TarRecord {
        TarRecord { offset: self.offset, size: self.size, modified: self.modified@ }
    }
}

impl Listed for TarEntry {
    open spec fn size_of(v: TarRecord) -> int {
        v.size as int
    }

    open spec fn modified_of(v: TarRecord) -> Seq<char> {
        v.modified
    }

    fn listed_size(&self) -> (r: u64) {
        self.size
    }

    fn listed_modified(&self) -> (r: String) {
        self.modified.clone()
    }
}

/// The bytes of an archive: in a source, or decompressed in memory.
pub enum TarSource<S> {
    OnDisk(S),
    InMemory(Vec<u8>),
}

/// A TAR archive and its index.
pub struct TarArchive<S> {
    pub source: TarSource<S>,
    pub catalog: Catalog<TarEntry>,
}

// ── Header fields ───────────────────────────────────────────────────────────

/// The value of a field in base 256, the top bit of its first byte left out, modulo
/// 2^64.
pub open spec fn base256(s: Seq<u8>) -> int
    decreases s.len(),
{
    if s.len() == 0 {
        0
    } else if s.len() == 1 {
        s[0] as int % 128
    } else {
        (base256(s.drop_last()) % 0x100_0000_0000_0000) * 0x100 + s.last()
    }
}

/// The length of what stands before the first NUL or space.
pub open spec fn field_len(s: Seq<u8>) -> int
    decreases s.len(),
{
    if s.len() == 0 || s[0] == 0 || s[0] == 0x20 {
        0
    } else {
        1 + field_len(s.skip(1))
    }
}

/// Bytes as the characters with those code points.
pub open spec fn latin1(s: Seq<u8>) -> Seq<char> {
    Seq::new(s.len(), |i: int| s[i] as char)
}

/// The value of a numeric field: octal digits up to a NUL or a space, or, where
/// the top bit of the first byte is set, a binary number.
pub open spec fn number_of(field: Seq<u8>) -> u64 {
    if field.len() > 0 && field[0] >= 128 {
        base256(field) as u64
    } else {
        match numbers::parsed_unsigned(
            text::trimmed(latin1(field.take(field_len(field)))),
            8,
            u64::MAX as int,
        ) {
            Some(v) => v as u64,
            None => 0,
        }
    }
}

/// The text of a field up to its first NUL.
pub open spec fn string_field(field: Seq<u8>) -> Seq<char> {
    text::utf8_text(field.take(bytes::find_byte(field, 0, 0)))
}

proof fn lemma_field_len(s: Seq<u8>)
    ensures
        0 <= field_len(s) <= s.len(),
    decreases s.len(),
{
    if s.len() > 0 && s[0] != 0 && s[0] != 0x20 {
        lemma_field_len(s.skip(1));
    }
}

/// Bytes as the characters with those code points.
pub fn latin1_chars(s: &[u8]) -> (r: Vec<char>)
    ensures
        r@ == latin1(s@),
{
    let mut r: Vec<char> = Vec::new();
    let mut i: usize = 0;
    while i < s.len()
        invariant
            i <= s@.len(),
            r@ == latin1(s@).take(i as int),
        decreases s@.len() - i,
    {
        r.push(s[i] as char);
        assert(r@ =~= latin1(s@).take(i + 1));
        i += 1;
    }
    assert(latin1(s@).take(i as int) =~= latin1(s@));
    r
}

/// The value of a numeric field.
pub fn parse_number(field: &[u8]) -> (r: u64)
    ensures
        r == number_of(field@),
{
    let n: usize = field.len();
    if n > 0 && field[0] >= 128 {
        let mut acc: u64 = (field[0] % 128) as u64;
        let mut i: usize = 1;
        while i < n
            invariant
                n == field@.len(),
                1 <= i <= n,
                acc == base256(field@.take(i as int)),
            decreases n - i,
        {
            assert(field@.take(i + 1).drop_last() =~= field@.take(i as int));
            acc = (acc % 0x100_0000_0000_0000) * 0x100 + field[i] as u64;
            i += 1;
        }
        assert(field@.take(n as int) =~= field@);
        return acc;
    }
    let mut e: usize = 0;
    assert(field@.skip(0) =~= field@);
    while e < n && field[e] != 0 && field[e] != 0x20
        invariant
            n == field@.len(),
            e <= n,
            field_len(field@) == e + field_len(field@.skip(e as int)),
        decreases n - e,
    {
        assert(field@.skip(e as int).skip(1) =~= field@.skip(e + 1));
        e += 1;
    }
    let letters: Vec<char> = latin1_chars(slice_subrange(field, 0, e));
    assert(field@.subrange(0, e as int) =~= field@.take(e as int));
    let t: Vec<char> = trim(letters.as_slice());
    match parse_unsigned(t.as_slice(), 8, u64::MAX) {
        Some(v) => v,
        None => 0,
    }
}

/// The text of a field up to its first NUL.
pub fn parse_string(field: &[u8]) -> (r: String)
    ensures
        r@ == string_field(field@),
{
    let end: usize = find_byte_from(field, 0, 0);
    assert(field@.subrange(0, end as int) =~= field@.take(end as int));
    from_utf8_lossy(slice_subrange(field, 0, end))
}

/// The modification time that a listing shows: the Gregorian date and time of
/// day of `secs` seconds after 1970-01-01, and nothing for no time at all.
pub open spec fn is_mtime(r: Seq<char>, secs: int) -> bool {
    if secs == 0 {
        r == Seq::<char>::empty()
    } else {
        exists|y: int, m: int, d: int|
            #![trigger calendar::clock_stamp(4, y, m, d, secs)]
            calendar::is_date(y, m, d) && calendar::day_number(y, m, d) == secs / 86400 && r
                == calendar::clock_stamp(4, y, m, d, secs)
    }
}

/// The modification time that a listing shows.
pub open spec fn mtime_text(secs: int) -> Seq<char> {
    choose|r: Seq<char>| is_mtime(r, secs)
}

proof fn lemma_mtime(a: Seq<char>, b: Seq<char>, secs: int)
    requires
        is_mtime(a, secs),
        is_mtime(b, secs),
    ensures
        a == b,
{
    if secs != 0 {
        let (y1, m1, d1) = choose|y: int, m: int, d: int|
            #![trigger calendar::clock_stamp(4, y, m, d, secs)]
            calendar::is_date(y, m, d) && calendar::day_number(y, m, d) == secs / 86400 && a
                == calendar::clock_stamp(4, y, m, d, secs);
        let (y2, m2, d2) = choose|y: int, m: int, d: int|
            #![trigger calendar::clock_stamp(4, y, m, d, secs)]
            calendar::is_date(y, m, d) && calendar::day_number(y, m, d) == secs / 86400 && b
                == calendar::clock_stamp(4, y, m, d, secs);
        calendar::day_numbers_are_unique(y1, m1, d1, y2, m2, d2);
    }
}

#[verifier::spinoff_prover]
proof fn lemma_time_of_day(secs: int)
    ensures
        (secs / 3600) % 24 == (secs % 86_400) / 3600,
        (secs / 60) % 60 == ((secs % 86_400) % 3600) / 60,
        secs % 60 == (secs % 86_400) % 60,
{
    let q = secs / 86_400;
    let rem = secs % 86_400;
    assert(secs == 86_400 * q + rem);
    assert(secs / 3600 == 24 * q + rem / 3600);
    let h = rem / 3600;
    let t = rem % 3600;
    assert(secs / 60 == 1440 * q + 60 * h + t / 60);
    assert(secs % 60 == rem % 60);
}

/// The modification time that a listing shows.
pub fn format_mtime(secs: u64) -> (r: String)
    ensures
        is_mtime(r@, secs as int),
        r@ == mtime_text(secs as int),
{
    let r: String = if secs == 0 {
        String::new()
    } else {
        let (y, m, d) = civil_from_days(secs / 86_400);
        let rem: u64 = secs % 86_400;
        let t: String = write_stamp(4, y, m, d, rem / 3600, (rem % 3600) / 60, rem % 60);
        proof {
            lemma_time_of_day(secs as int);
            assert(t@ == calendar::clock_stamp(4, y as int, m as int, d as int, secs as int));
        }
        t
    };
    proof {
        assert(is_mtime(r@, secs as int));
        lemma_mtime(r@, mtime_text(secs as int), secs as int);
    }
    r
}

// ── Extended headers ────────────────────────────────────────────────────────

/// What the records before an entry say of it.
#[verifier::ext_equal]
pub struct Pending {
    pub name: Option<Seq<char>>,
    pub size: Option<u64>,
}

/// The text of a record's value without the line feeds at its end.
pub open spec fn without_feeds(s: Seq<u8>) -> Seq<u8>
    decreases s.len(),
{
    if s.len() > 0 && s.last() == 10 {
        without_feeds(s.drop_last())
    } else {
        s
    }
}

/// What a key and its value add to what is pending.
pub open spec fn with_pair(k: Seq<u8>, v: Seq<u8>, p: Pending) -> Pending {
    let key = decode_utf8(k);
    let value = decode_utf8(v);
    if key == "path"@ {
        Pending { name: Some(value), size: p.size }
    } else if key == "size"@ {
        Pending {
            name: p.name,
            size: match numbers::parsed_unsigned(value, 10, u64::MAX as int) {
                Some(n) => Some(n as u64),
                None => None,
            },
        }
    } else {
        p
    }
}

/// What the `length key=value` records of an extended header add to what is
/// pending. The first record that is malformed, or that would end inside a
/// character, ends the header.
pub open spec fn with_pax(rest: Seq<u8>, p: Pending) -> Pending
    decreases rest.len(),
{
    let sp = bytes::find_byte(rest, 0, 0x20);
    if !(0 <= sp < rest.len()) {
        p
    } else {
        match numbers::parsed_unsigned(latin1(rest.take(sp)), 10, u64::MAX as int) {
            None => p,
            Some(len) => if len > rest.len() || len <= sp {
                p
            } else {
                let kv = without_feeds(rest.subrange(sp + 1, len));
                let eq = bytes::find_byte(kv, 0, 0x3d);
                if !valid_utf8(rest.subrange(sp + 1, len)) {
                    p
                } else if 0 <= eq < kv.len() {
                    with_pax(rest.skip(len), with_pair(kv.take(eq), kv.skip(eq + 1), p))
                } else {
                    with_pax(rest.skip(len), p)
                }
            },
        }
    }
}

/// What is pending, as values.
struct Carried {
    name: Option<String>,
    size: Option<u64>,
}

impl Carried {
    spec fn contents(self) -> Pending {
        Pending {
            name: match self.name {
                Some(n) => Some(n@),
                None => None,
            },
            size: self.size,
        }
    }
}

/// Adds a key and its value to what is pending.
fn add_pair(k: &[u8], v: &[u8], c: Carried) -> (r: Carried)
    requires
        valid_utf8(k@),
        valid_utf8(v@),
    ensures
        r.contents() == with_pair(k@, v@, c.contents()),
{
    match (from_utf8(k), from_utf8(v)) {
        (Some(key), Some(value)) => {
            let letters: Vec<char> = chars_of(key.as_str());
            if is_text(letters.as_slice(), "path") {
                Carried { name: Some(value), size: c.size }
            } else if is_text(letters.as_slice(), "size") {
                let digits: Vec<char> = chars_of(value.as_str());
                Carried { name: c.name, size: parse_unsigned(digits.as_slice(), 10, u64::MAX) }
            } else {
                c
            }
        },
        _ => c,
    }
}

/// A valid text is valid on both sides of one of its ASCII characters.
proof fn lemma_split_at_ascii(s: Seq<u8>, i: int)
    requires
        valid_utf8(s),
        0 <= i < s.len(),
        s[i] < 128,
    ensures
        valid_utf8(s.take(i)),
        valid_utf8(s.skip(i + 1)),
{
    broadcast use vstd::utf8::group_utf8_lib;

    let c = s[i];
    assert(!is_continuation_byte(c));
    assert(is_char_boundary(s, i)) by {
        is_char_boundary_iff_not_is_continuation_byte(s, i);
    }
    valid_utf8_split(s, i);
    assert(s.subrange(0, i) =~= s.take(i));
    let t = s.subrange(i, s.len() as int);
    assert(t[0] == c);
    assert(valid_utf8(t));
    assert(length_of_first_scalar(t) == 1);
    assert(pop_first_scalar(t) =~= s.skip(i + 1));
}

/// A valid text without the line feeds at its end is valid.
proof fn lemma_without_feeds(s: Seq<u8>)
    requires
        valid_utf8(s),
    ensures
        valid_utf8(without_feeds(s)),
    decreases s.len(),
{
    if s.len() > 0 && s.last() == 10 {
        lemma_split_at_ascii(s, s.len() - 1);
        assert(s.take(s.len() - 1) =~= s.drop_last());
        lemma_without_feeds(s.drop_last());
    }
}

/// Adds the records of an extended header to what is pending.
fn add_pax(b: &[u8], carried: Carried) -> (r: Carried)
    ensures
        r.contents() == with_pax(b@, carried.contents()),
{
    let n: usize = b.len();
    let mut c: Carried = carried;
    let mut a: usize = 0;
    let ghost goal = with_pax(b@, c.contents());
    assert(b@.skip(0) =~= b@);
    loop
        invariant
            n == b@.len(),
            a <= n,
            with_pax(b@.skip(a as int), c.contents()) == goal,
            goal == with_pax(b@, carried.contents()),
        decreases n - a,
    {
        let rest: &[u8] = slice_subrange(b, a, n);
        assert(rest@ =~= b@.skip(a as int));
        let m: usize = rest.len();
        let sp: usize = find_byte_from(rest, 0, 0x20);
        if sp == m {
            return c;
        }
        let digits: Vec<char> = latin1_chars(slice_subrange(rest, 0, sp));
        assert(rest@.subrange(0, sp as int) =~= rest@.take(sp as int));
        let len: u64 = match parse_unsigned(digits.as_slice(), 10, u64::MAX) {
            Some(len) => len,
            None => {
                return c;
            },
        };
        if len > m as u64 || len <= sp as u64 {
            return c;
        }
        let len: usize = len as usize;
        let body: &[u8] = slice_subrange(rest, sp + 1, len);
        if from_utf8(body).is_none() {
            return c;
        }
        let mut e: usize = body.len();
        assert(body@.take(e as int) =~= body@);
        while e > 0 && body[e - 1] == 10
            invariant
                e <= body@.len(),
                without_feeds(body@) == without_feeds(body@.take(e as int)),
            decreases e,
        {
            assert(body@.take(e as int).drop_last() =~= body@.take(e - 1));
            e -= 1;
        }
        let kv: &[u8] = slice_subrange(body, 0, e);
        assert(kv@ =~= body@.take(e as int));
        assert(kv@ == without_feeds(body@));
        let eq: usize = find_byte_from(kv, 0, 0x3d);
        if eq < kv.len() {
            let k: &[u8] = slice_subrange(kv, 0, eq);
            let v: &[u8] = slice_subrange(kv, eq + 1, kv.len());
            proof {
                lemma_without_feeds(body@);
                bytes::lemma_find_byte(kv@, 0, 0x3d);
                lemma_split_at_ascii(kv@, eq as int);
                assert(k@ =~= kv@.take(eq as int));
                assert(v@ =~= kv@.skip(eq + 1));
            }
            c = add_pair(k, v, c);
        }
        assert(b@.skip(a as int).skip(len as int) =~= b@.skip(a + len));
        a += len;
    }
}

// ── The walk over the archive ───────────────────────────────────────────────

/// The bytes of an archive: what its source gives, or what is in memory.
pub ghost enum TarData {
    OnDisk(Reads),
    InMemory(Seq<u8>),
}

/// What a read of `n` bytes at `at` gives; in memory, the end cuts it short.
pub open spec fn tar_read(d: TarData, at: int, n: int) -> Result<Seq<u8>, Seq<char>> {
    match d {
        TarData::OnDisk(reads) => source::labelled(reads(at, n), "TAR read: "@),
        TarData::InMemory(v) => if at >= v.len() {
            Err("TAR: read past the end of the archive"@)
        } else if at + n < v.len() {
            Ok(v.subrange(at, at + n))
        } else {
            Ok(v.skip(at))
        },
    }
}

/// The name that a header gives.
pub open spec fn header_name(h: Seq<u8>) -> Seq<char> {
    let name = string_field(h.subrange(0, 100));
    let prefix = string_field(h.subrange(345, 500));
    if prefix.len() == 0 {
        name
    } else {
        prefix + "/"@ + name
    }
}

/// How many bytes of data follow the header `h`: what is pending, or else what the
/// header says.
pub open spec fn data_size(h: Seq<u8>, p: Pending) -> u64 {
    match p.size {
        Some(n) => n,
        None => number_of(h.subrange(124, 136)),
    }
}

/// The index with the entry that the header `h` and what is pending describe.
pub open spec fn with_entry(
    h: Seq<u8>,
    data_at: int,
    p: Pending,
    c: CatalogView<TarRecord>,
) -> CatalogView<TarRecord> {
    let name = match p.name {
        Some(n) => n,
        None => header_name(h),
    };
    match catalog::normalised(name) {
        None => c,
        Some(path) => if h[156] == 0x35 || name.last() == '/' {
            c.holding(path).with_dir(path)
        } else if h[156] == 0x30 || h[156] == 0 {
            c.holding(path).with_file(
                path,
                TarRecord {
                    offset: data_at as u64,
                    size: data_size(h, p),
                    modified: mtime_text(number_of(h.subrange(136, 148)) as int),
                },
            )
        } else {
            c.holding(path)
        },
    }
}

/// Nothing pending.
pub open spec fn nothing() -> Pending {
    Pending { name: None, size: None }
}

/// Whether a block holds zeros only.
pub open spec fn is_blank(h: Seq<u8>) -> bool {
    forall|i: int| 0 <= i < h.len() ==> h[i] == 0
}

/// `size` rounded up to whole blocks.
pub open spec fn padded(size: int) -> int {
    (size + 511) / 512 * 512
}

/// The index with the entries from `pos` on, of an archive of `total` bytes.
pub open spec fn tar_walk(
    d: TarData,
    total: int,
    pos: int,
    p: Pending,
    c: CatalogView<TarRecord>,
) -> Result<CatalogView<TarRecord>, Seq<char>>
    decreases total - pos,
{
    if pos + 512 > total {
        Ok(c)
    } else {
        match tar_read(d, pos, 512) {
            Err(e) => Err(e),
            Ok(h) => {
                let size = number_of(h.subrange(124, 136));
                let next = pos + 512 + padded(size as int);
                if is_blank(h) {
                    Ok(c)
                } else if h[156] == 0x4c {
                    match tar_read(d, pos + 512, size as int) {
                        Err(e) => Err(e),
                        Ok(raw) => if next > total {
                            Ok(c)
                        } else {
                            tar_walk(
                                d,
                                total,
                                next,
                                Pending { name: Some(string_field(raw)), size: p.size },
                                c,
                            )
                        },
                    }
                } else if h[156] == 0x78 || h[156] == 0x67 {
                    match tar_read(d, pos + 512, size as int) {
                        Err(e) => Err(e),
                        Ok(raw) => if next > total {
                            Ok(c)
                        } else {
                            tar_walk(
                                d,
                                total,
                                next,
                                with_pax(encode_utf8(text::utf8_text(raw)), p),
                                c,
                            )
                        },
                    }
                } else {
                    let c2 = with_entry(h, pos + 512, p, c);
                    let behind = pos + 512 + padded(data_size(h, p) as int);
                    if behind > total {
                        Ok(c2)
                    } else {
                        tar_walk(d, total, behind, nothing(), c2)
                    }
                }
            },
        }
    }
}

impl<S: ByteSource> TarSource<S> {
    pub open spec fn data(&self) -> TarData {
        match self {
            TarSource::OnDisk(s) => TarData::OnDisk(s.reads()),
            TarSource::InMemory(v) => TarData::InMemory(v@),
        }
    }

    /// Reads `n` bytes at `at`; in memory, the end cuts the read short.
    fn read_at(&mut self, at: u64, n: u64) -> (r: Result<Vec<u8>, String>)
        ensures
            final(self).data() == old(self).data(),
            source::outcome(r) == tar_read(old(self).data(), at as int, n as int),
            *old(self) is OnDisk ==> (r matches Ok(b) ==> b@.len() == n),
    {
        match self {
            TarSource::OnDisk(s) => read_labelled(s, at, n, "TAR read: "),
            TarSource::InMemory(v) => {
                let len: u64 = v.len() as u64;
                if at >= len {
                    return Err("TAR: read past the end of the archive".to_owned());
                }
                if n < len - at {
                    Ok(cut(v.as_slice(), at as usize, (at + n) as usize))
                } else {
                    let r: Vec<u8> = cut(v.as_slice(), at as usize, v.len());
                    assert(r@ =~= v@.skip(at as int));
                    Ok(r)
                }
            },
        }
    }
}

/// Whether a block holds zeros only.
fn blank(h: &[u8]) -> (r: bool)
    ensures
        r == is_blank(h@),
{
    let mut i: usize = 0;
    while i < h.len()
        invariant
            i <= h@.len(),
            forall|j: int| 0 <= j < i ==> h@[j] == 0,
        decreases h@.len() - i,
    {
        if h[i] != 0 {
            return false;
        }
        i += 1;
    }
    true
}

/// Adds the entry that the header `h` and what is pending describe.
fn add_entry(h: &[u8], data_at: u64, p: Carried, c: &mut Catalog<TarEntry>)
    requires
        h@.len() == 512,
    ensures
        final(c)@ == with_entry(h@, data_at as int, p.contents(), old(c)@),
{
    let name: String = match p.name {
        Some(n) => n,
        None => {
            let name: String = parse_string(slice_subrange(h, 0, 100));
            let prefix: String = parse_string(slice_subrange(h, 345, 500));
            if prefix.as_str().is_empty() {
                name
            } else {
                join3(prefix.as_str(), "/", name.as_str())
            }
        },
    };
    let size: u64 = match p.size {
        Some(n) => n,
        None => parse_number(slice_subrange(h, 124, 136)),
    };
    let mtime: u64 = parse_number(slice_subrange(h, 136, 148));
    let flag: u8 = h[156];
    let letters: Vec<char> = chars_of(name.as_str());
    let is_dir = flag == 0x35 || (letters.len() > 0 && letters[letters.len() - 1] == '/');
    match normalise(name.as_str()) {
        None => {},
        Some(path) => {
            proof {
                catalog::lemma_named(name@);
            }
            c.add_parents(path.as_str());
            if is_dir {
                c.add_dir(path);
            } else if flag == 0x30 || flag == 0 {
                let modified: String = format_mtime(mtime);
                c.add_file(path, TarEntry { offset: data_at, size, modified });
            }
        },
    }
}

/// The position behind `size` bytes of data at `at`, rounded up to whole blocks,
/// if it is at most `total`.
fn next_block(at: u64, size: u64, total: u64) -> (r: Option<u64>)
    requires
        at <= total,
    ensures
        r is None <==> at + padded(size as int) > total,
        r matches Some(n) ==> n == at + padded(size as int),
{
    if size > total - at {
        return None;
    }
    let blocks: u64 = size / 512 + (if size % 512 == 0 {
        0u64
    } else {
        1u64
    });
    assert(blocks as int == (size as int + 511) / 512);
    if blocks > (total - at) / 512 {
        return None;
    }
    Some(at + blocks * 512)
}

impl<S: ByteSource> TarSource<S> {
    /// Walks the archive once and collects what it holds.
    fn index(&mut self, total: u64) -> (r: Result<Catalog<TarEntry>, String>)
        requires
            *old(self) matches TarSource::InMemory(v) ==> total == v@.len(),
        ensures
            final(self).data() == old(self).data(),
            match r {
                Ok(c) => tar_walk(old(self).data(), total as int, 0, nothing(), no_entries()) == Ok::<
                    CatalogView<TarRecord>,
                    Seq<char>,
                >(c@),
                Err(e) => tar_walk(old(self).data(), total as int, 0, nothing(), no_entries())
                    == Err::<CatalogView<TarRecord>, Seq<char>>(e@),
            },
    {
        let mut c: Catalog<TarEntry> = Catalog::new();
        assert(c@ =~= no_entries());
        let mut pos: u64 = 0;
        let mut p: Carried = Carried { name: None, size: None };
        let ghost d = self.data();
        let ghost goal = tar_walk(d, total as int, 0, nothing(), no_entries());
        loop
            invariant
                self.data() == d,
                d == old(self).data(),
                d matches TarData::InMemory(v) ==> total == v.len(),
                pos <= total,
                goal == tar_walk(d, total as int, 0, nothing(), no_entries()),
                tar_walk(d, total as int, pos as int, p.contents(), c@) == goal,
            decreases total - pos,
        {
            if total - pos < 512 {
                return Ok(c);
            }
            let header: Vec<u8> = match self.read_at(pos, 512) {
                Ok(h) => h,
                Err(e) => {
                    return Err(e);
                },
            };
            let h: &[u8] = header.as_slice();
            assert(h@.len() == 512);
            if blank(h) {
                return Ok(c);
            }
            let size: u64 = parse_number(slice_subrange(h, 124, 136));
            let flag: u8 = h[156];
            let data_at: u64 = pos + 512;
            let mut next: Option<u64> = next_block(data_at, size, total);
            if flag == 0x4c {
                let raw: Vec<u8> = match self.read_at(data_at, size) {
                    Ok(raw) => raw,
                    Err(e) => {
                        return Err(e);
                    },
                };
                let name: String = parse_string(raw.as_slice());
                p = Carried { name: Some(name), size: p.size };
            } else if flag == 0x78 || flag == 0x67 {
                let raw: Vec<u8> = match self.read_at(data_at, size) {
                    Ok(raw) => raw,
                    Err(e) => {
                        return Err(e);
                    },
                };
                let t: String = from_utf8_lossy(raw.as_slice());
                p = add_pax(t.as_str().as_bytes(), p);
            } else {
                if let Some(n) = p.size {
                    next = next_block(data_at, n, total);
                }
                add_entry(h, data_at, p, &mut c);
                p = Carried { name: None, size: None };
            }
            match next {
                None => {
                    return Ok(c);
                },
                Some(n) => {
                    pos = n;
                },
            }
        }
    }
}

// ── Opening ─────────────────────────────────────────────────────────────────

/// An index of nothing.
pub open spec fn no_entries() -> CatalogView<TarRecord> {
    CatalogView { dirs: seq![], files: seq![] }
}

/// The compression that an archive is wrapped in.
#[derive(Clone, Copy)]
pub enum Wrapper {
    Gzip,
    Bzip2,
    Xz,
    Zstd,
}

/// The compression that a file starting with `magic` is wrapped in.
pub open spec fn wrapper_of(magic: Seq<u8>) -> Option<Wrapper> {
    if bytes::has_at(magic, 0, seq![0x1Fu8, 0x8B]) {
        Some(Wrapper::Gzip)
    } else if bytes::has_at(magic, 0, seq![0x42u8, 0x5A, 0x68]) {
        Some(Wrapper::Bzip2)
    } else if bytes::has_at(magic, 0, seq![0xFDu8, 0x37, 0x7A, 0x58, 0x5A, 0x00]) {
        Some(Wrapper::Xz)
    } else if bytes::has_at(magic, 0, seq![0x28u8, 0xB5, 0x2F, 0xFD]) {
        Some(Wrapper::Zstd)
    } else {
        None
    }
}

/// The compression that a file starting with `magic` is wrapped in.
pub fn find_wrapper(magic: &[u8]) -> (r: Option<Wrapper>)
    ensures
        r == wrapper_of(magic@),
{
    let gzip: [u8; 2] = [0x1F, 0x8B];
    let bzip2: [u8; 3] = [0x42, 0x5A, 0x68];
    let xz: [u8; 6] = [0xFD, 0x37, 0x7A, 0x58, 0x5A, 0x00];
    let zstd: [u8; 4] = [0x28, 0xB5, 0x2F, 0xFD];
    proof {
        assert(gzip@ =~= seq![0x1Fu8, 0x8B]);
        assert(bzip2@ =~= seq![0x42u8, 0x5A, 0x68]);
        assert(xz@ =~= seq![0xFDu8, 0x37, 0x7A, 0x58, 0x5A, 0x00]);
        assert(zstd@ =~= seq![0x28u8, 0xB5, 0x2F, 0xFD]);
    }
    if bytes_at(magic, 0, gzip.as_slice()) {
        Some(Wrapper::Gzip)
    } else if bytes_at(magic, 0, bzip2.as_slice()) {
        Some(Wrapper::Bzip2)
    } else if bytes_at(magic, 0, xz.as_slice()) {
        Some(Wrapper::Xz)
    } else if bytes_at(magic, 0, zstd.as_slice()) {
        Some(Wrapper::Zstd)
    } else {
        None
    }
}

/// What a wrapped archive unpacks to.
pub open spec fn unwrapped(w: Wrapper, data: Seq<u8>) -> Result<Seq<u8>, Seq<char>> {
    match w {
        Wrapper::Gzip => codec::gzip_stream(data),
        Wrapper::Bzip2 => codec::bzip2_stream(data),
        Wrapper::Xz => xz_footer::decoded(data),
        Wrapper::Zstd => codec::zstd_stream(data),
    }
}

/// The label of a decoder's errors.
pub open spec fn wrapper_label(w: Wrapper) -> Seq<char> {
    match w {
        Wrapper::Gzip => "gzip: "@,
        Wrapper::Bzip2 => "bzip2: "@,
        Wrapper::Xz => "xz: "@,
        Wrapper::Zstd => "zstd: "@,
    }
}

/// Unpacks a wrapped archive.
pub fn unwrap_archive(w: Wrapper, data: &[u8]) -> (r: Result<Vec<u8>, String>)
    requires
        data@.len() <= MAX_IN_MEMORY,
    ensures
        source::outcome(r) == source::labelled(unwrapped(w, data@), wrapper_label(w)),
{
    match w {
        Wrapper::Gzip => label_error(gzip_decode(data), "gzip: "),
        Wrapper::Bzip2 => label_error(bzip2_decode(data), "bzip2: "),
        Wrapper::Xz => label_error(unpack_xz(data), "xz: "),
        Wrapper::Zstd => label_error(zstd_decode_all(data), "zstd: "),
    }
}

/// The first six bytes of a source, zeros standing for those that it lacks.
pub open spec fn first_six(start: Seq<u8>) -> Seq<u8> {
    Seq::new(
        6,
        |i: int|
            if i < start.len() {
                start[i]
            } else {
                0
            },
    )
}

/// The bytes of the archive in a source of `len` bytes: the source itself, or
/// what it unpacks to.
pub open spec fn tar_data(reads: Reads, len: int) -> Result<TarData, Seq<char>> {
    let n = if len < 6 {
        len
    } else {
        6
    };
    match source::labelled(reads(0, n), "Read error: "@) {
        Err(e) => Err(e),
        Ok(start) => if len < 4 {
            Err("Archive is too small"@)
        } else {
            match wrapper_of(first_six(start)) {
                None => Ok(TarData::OnDisk(reads)),
                Some(w) => if len > MAX_IN_MEMORY {
                    Err(
                        "Compressed archive is too large to index ("@ + numbers::decimal(len)
                            + " bytes); decompress it first"@,
                    )
                } else {
                    match source::labelled(reads(0, len), wrapper_label(w)) {
                        Err(e) => Err(e),
                        Ok(data) => match source::labelled(unwrapped(w, data), wrapper_label(w)) {
                            Err(e) => Err(e),
                            Ok(out) => Ok(TarData::InMemory(out)),
                        },
                    }
                },
            }
        },
    }
}

/// The length of an archive.
pub open spec fn tar_len(d: TarData, len: int) -> int {
    match d {
        TarData::OnDisk(_) => len,
        TarData::InMemory(v) => v.len() as int,
    }
}

/// The bytes and the index of the archive in a source of `len` bytes, or the
/// reason why there is none.
pub open spec fn tar_index(reads: Reads, len: int) -> Result<
    (TarData, CatalogView<TarRecord>),
    Seq<char>,
> {
    match tar_data(reads, len) {
        Err(e) => Err(e),
        Ok(d) => match tar_walk(d, tar_len(d, len), 0, nothing(), no_entries()) {
            Err(e) => Err(e),
            Ok(c) => if c.files.len() == 0 && c.dirs.len() == 0 {
                Err("Not a TAR archive (no usable entries)"@)
            } else {
                Ok((d, c))
            },
        },
    }
}

/// The bytes of a stored file.
pub open spec fn file_answer(d: TarData, c: CatalogView<TarRecord>, path: Seq<char>) -> Result<
    Seq<u8>,
    Seq<char>,
> {
    match catalog::normalised(path) {
        None => Err("Bad path: "@ + path),
        Some(key) => match catalog::record_at(c.files, key) {
            None => Err("Not found: "@ + path),
            Some(e) => tar_read(d, e.offset as int, e.size as int),
        },
    }
}

/// Finds the bytes of the archive: by its signature, not by its name, as wrapped
/// archives go by many.
fn decompress_if_needed<S: ByteSource>(source: S, len: u64) -> (r: Result<TarSource<S>, String>)
    ensures
        match r {
            Ok(t) => tar_data(source.reads(), len as int) == Ok::<TarData, Seq<char>>(t.data()),
            Err(e) => tar_data(source.reads(), len as int) == Err::<TarData, Seq<char>>(e@),
        },
{
    let mut source: S = source;
    let n: u64 = if len < 6 {
        len
    } else {
        6
    };
    let start: Vec<u8> = match read_labelled(&mut source, 0, n, "Read error: ") {
        Ok(b) => b,
        Err(e) => {
            return Err(e);
        },
    };
    if len < 4 {
        return Err("Archive is too small".to_owned());
    }
    let ghost given = start@;
    let mut magic: Vec<u8> = start;
    magic.resize(6, 0);
    assert(magic@ =~= first_six(given));
    let w: Wrapper = match find_wrapper(magic.as_slice()) {
        None => {
            return Ok(TarSource::OnDisk(source));
        },
        Some(w) => w,
    };
    if len > MAX_IN_MEMORY {
        let size: String = decimal_string(len);
        return Err(
            join3(
                "Compressed archive is too large to index (",
                size.as_str(),
                " bytes); decompress it first",
            ),
        );
    }
    let label: &str = match w {
        Wrapper::Gzip => "gzip: ",
        Wrapper::Bzip2 => "bzip2: ",
        Wrapper::Xz => "xz: ",
        Wrapper::Zstd => "zstd: ",
    };
    let data: Vec<u8> = match read_labelled(&mut source, 0, len, label) {
        Ok(b) => b,
        Err(e) => {
            return Err(e);
        },
    };
    match unwrap_archive(w, data.as_slice()) {
        Ok(out) => Ok(TarSource::InMemory(out)),
        Err(e) => Err(e),
    }
}

impl<S: ByteSource> TarArchive<S> {
    /// Indexes the archive in a source of `len` bytes.
    pub fn open(source: S, len: u64) -> (r: Result<TarArchive<S>, String>)
        ensures
            match r {
                Ok(t) => tar_index(source.reads(), len as int) == Ok::<
                    (TarData, CatalogView<TarRecord>),
                    Seq<char>,
                >((t.source.data(), t.catalog@)),
                Err(e) => tar_index(source.reads(), len as int) == Err::<
                    (TarData, CatalogView<TarRecord>),
                    Seq<char>,
                >(e@),
            },
    {
        let mut source: TarSource<S> = match decompress_if_needed(source, len) {
            Ok(t) => t,
            Err(e) => {
                return Err(e);
            },
        };
        let total: u64 = match &source {
            TarSource::OnDisk(_) => len,
            TarSource::InMemory(v) => v.len() as u64,
        };
        let catalog: Catalog<TarEntry> = match source.index(total) {
            Ok(c) => c,
            Err(e) => {
                return Err(e);
            },
        };
        assert(catalog@.files.len() == catalog.files@.len());
        assert(catalog@.dirs.len() == catalog.dirs@.len());
        if catalog.files.len() == 0 && catalog.dirs.len() == 0 {
            return Err("Not a TAR archive (no usable entries)".to_owned());
        }
        Ok(TarArchive { source, catalog })
    }

    /// Lists a directory.
    pub fn list_directory(&self, dir_path: &str) -> (r: Result<Vec<DiscEntry>, String>)
        ensures
            match r {
                Ok(v) => catalog::listing_answer::<TarEntry>(
                    self.catalog@,
                    catalog::base_of(dir_path@),
                    dir_path@,
                ) == Ok::<Seq<EntryView>, Seq<char>>(entry::listing(v@)),
                Err(e) => catalog::listing_answer::<TarEntry>(
                    self.catalog@,
                    catalog::base_of(dir_path@),
                    dir_path@,
                ) == Err::<Seq<EntryView>, Seq<char>>(e@),
            },
    {
        let base: String = base_path(dir_path);
        self.catalog.answer_listing(base.as_str(), dir_path)
    }

    /// The bytes of the file that a request names.
    pub fn extract_file(&mut self, file_path: &str) -> (r: Result<Vec<u8>, String>)
        ensures
            final(self).catalog@ == old(self).catalog@,
            final(self).source.data() == old(self).source.data(),
            source::outcome(r) == file_answer(
                old(self).source.data(),
                old(self).catalog@,
                file_path@,
            ),
    {
        let key: String = match normalise(file_path) {
            None => {
                return Err(join2("Bad path: ", file_path));
            },
            Some(key) => key,
        };
        match self.catalog.find(key.as_str()) {
            None => Err(join2("Not found: ", file_path)),
            Some(i) => {
                let offset: u64 = self.catalog.files[i].1.offset;
                let size: u64 = self.catalog.files[i].1.size;
                self.source.read_at(offset, size)
            },
        }
    }

    /// The files below a directory and where they go below the destination.
    pub fn extract_directory(&self, dir_path: &str) -> (r: Result<Vec<Target>, String>)
        ensures
            match r {
                Ok(v) => catalog::extraction_answer(
                    self.catalog@,
                    catalog::base_of(dir_path@),
                    dir_path@,
                ) == Ok::<Seq<(Seq<char>, Seq<char>)>, Seq<char>>(catalog::targets_of(v@)),
                Err(e) => catalog::extraction_answer(
                    self.catalog@,
                    catalog::base_of(dir_path@),
                    dir_path@,
                ) == Err::<Seq<(Seq<char>, Seq<char>)>, Seq<char>>(e@),
            },
    {
        let base: String = base_path(dir_path);
        self.catalog.answer_extraction(base.as_str(), dir_path)
    }
}

/// Whether the bytes at the start of a source mark a TAR archive: the `ustar`
/// marker of its first header, or a known wrapper.
pub open spec fn tar_marked(reads: Reads) -> bool {
    match reads(0, 265) {
        Ok(h) => bytes::has_at(h, 257, seq![0x75u8, 0x73, 0x74, 0x61, 0x72]) || wrapper_of(
            h,
        ) is Some,
        Err(_) => false,
    }
}

/// Whether a source is a TAR archive.
pub fn is_tar<S: ByteSource>(source: &mut S) -> (r: bool)
    ensures
        final(source).reads() == old(source).reads(),
        r == tar_marked(old(source).reads()),
{
    match source.read_exact_at(0, 265) {
        Ok(h) => {
            let ustar: [u8; 5] = [0x75, 0x73, 0x74, 0x61, 0x72];
            assert(ustar@ =~= seq![0x75u8, 0x73, 0x74, 0x61, 0x72]);
            bytes_at(h.as_slice(), 257, ustar.as_slice()) || find_wrapper(h.as_slice()).is_some()
        },
        Err(_) => false,
    }
}

// ── Laws ────────────────────────────────────────────────────────────────────

/// Indexing an entry keeps the index well rooted.
proof fn lemma_entry_rooted(h: Seq<u8>, data_at: int, p: Pending, c: CatalogView<TarRecord>)
    requires
        catalog::well_rooted(c),
    ensures
        catalog::well_rooted(with_entry(h, data_at, p, c)),
{
    let name = match p.name {
        Some(n) => n,
        None => header_name(h),
    };
    catalog::normalising_twice_is_normalising_once(name);
    if let Some(path) = catalog::normalised(name) {
        catalog::adding_a_path_keeps_the_roots(c, path);
    }
}

/// Every path in the index of an archive is in its normal form, and every directory on
/// the way to it is in the index, whether or not the archive has an entry for it.
pub proof fn indexed_paths_are_normal(
    d: TarData,
    total: int,
    pos: int,
    p: Pending,
    c: CatalogView<TarRecord>,
)
    requires
        catalog::well_rooted(c),
    ensures
        tar_walk(d, total, pos, p, c) matches Ok(r) ==> catalog::well_rooted(r),
    decreases total - pos,
{
    if pos + 512 <= total {
        if let Ok(h) = tar_read(d, pos, 512) {
            let size = number_of(h.subrange(124, 136));
            let next = pos + 512 + padded(size as int);
            if !is_blank(h) {
                if h[156] == 0x4c || h[156] == 0x78 || h[156] == 0x67 {
                    if let Ok(raw) = tar_read(d, pos + 512, size as int) {
                        if next <= total {
                            let q = if h[156] == 0x4c {
                                Pending { name: Some(string_field(raw)), size: p.size }
                            } else {
                                with_pax(encode_utf8(text::utf8_text(raw)), p)
                            };
                            indexed_paths_are_normal(d, total, next, q, c);
                        }
                    }
                } else {
                    let c2 = with_entry(h, pos + 512, p, c);
                    lemma_entry_rooted(h, pos + 512, p, c);
                    let behind = pos + 512 + padded(data_size(h, p) as int);
                    if behind <= total {
                        indexed_paths_are_normal(d, total, behind, nothing(), c2);
                    }
                }
            }
        }
    }
}

// ── Laws of records ─────────────────────────────────────────────────────────

/// A field of octal digits that a zero byte or a space ends holds the number that they spell.
pub proof fn an_octal_field_holds_its_number(field: Seq<u8>, digits: Seq<u8>, n: int)
    requires
        0 < digits.len() < field.len(),
        field.take(digits.len() as int) == digits,
        forall|i: int| 0 <= i < digits.len() ==> 48 <= #[trigger] digits[i] <= 55,
        field[digits.len() as int] == 0 || field[digits.len() as int] == 0x20,
        numbers::spelled(latin1(digits), 8) == n,
        n <= u64::MAX,
    ensures
        number_of(field) == n,
{
    let m = digits.len() as int;
    assert forall|i: int| 0 <= i < m implies field[i] != 0 && field[i] != 0x20 by {
        assert(field.take(m)[i] == digits[i]);
    }
    assert(field[0] < 128) by {
        assert(field.take(m)[0] == digits[0]);
    }
    lemma_field_ends(field, m);
    let t = latin1(digits);
    assert forall|i: int| 0 <= i < t.len() implies 0 <= numbers::digit_value(#[trigger] t[i]) < 8
        && !text::is_white(t[i]) by {
        assert(48 <= digits[i] <= 55);
    }
    assert(t.len() > 0);
    assert(!text::is_white(t[0]) && !text::is_white(t.last()));
    assert(text::trimmed(t) == t);
    assert(48 <= digits[0] <= 55);
    assert(t[0] != '+');
    lemma_spelled(t);
}

proof fn lemma_spelled(t: Seq<char>)
    requires
        forall|i: int| 0 <= i < t.len() ==> 0 <= numbers::digit_value(#[trigger] t[i]) < 8,
    ensures
        numbers::spelled(t, 8) >= 0,
    decreases t.len(),
{
    if t.len() > 0 {
        let d = t.drop_last();
        assert forall|i: int| 0 <= i < d.len() implies 0 <= numbers::digit_value(#[trigger] d[i])
            < 8 by {
            assert(d[i] == t[i]);
        }
        lemma_spelled(d);
        assert(0 <= numbers::digit_value(t[t.len() - 1]));
    }
}

proof fn lemma_field_ends(field: Seq<u8>, m: int)
    requires
        0 <= m < field.len(),
        forall|i: int| 0 <= i < m ==> field[i] != 0 && field[i] != 0x20,
        field[m] == 0 || field[m] == 0x20,
    ensures
        field_len(field) == m,
    decreases m,
{
    if m > 0 {
        let f = field.skip(1);
        assert forall|i: int| 0 <= i < m - 1 implies f[i] != 0 && f[i] != 0x20 by {
            assert(f[i] == field[i + 1]);
        }
        lemma_field_ends(f, m - 1);
    }
}

/// A size that does not fit octal digits is a binary number behind a marked byte.
pub proof fn a_binary_field_holds_its_number(field: Seq<u8>, n: int)
    requires
        field.len() == 12,
        field[0] == 0x80,
        field[1] == 0 && field[2] == 0 && field[3] == 0,
        0 <= n <= u64::MAX,
        bytes::has_at(field, 4, bytes::be_bytes(n, 8)),
    ensures
        number_of(field) == n,
{
    bytes::fields_hold_what_was_written(field, 4, n);
    let f = field;
    assert(base256(f.take(1)) == 0);
    lemma_base256(f, 1);
    lemma_base256(f, 2);
    lemma_base256(f, 3);
    assert(base256(f.take(4)) == 0);
    lemma_base256(f, 4);
    let x4 = f[4] as int;
    assert(base256(f.take(5)) == x4);
    lemma_base256(f, 5);
    let x5 = x4 * 0x100 + f[5];
    assert(base256(f.take(6)) == x5);
    lemma_base256(f, 6);
    let x6 = x5 * 0x100 + f[6];
    assert(base256(f.take(7)) == x6);
    lemma_base256(f, 7);
    let x7 = x6 * 0x100 + f[7];
    assert(base256(f.take(8)) == x7);
    lemma_base256(f, 8);
    let x8 = x7 * 0x100 + f[8];
    assert(base256(f.take(9)) == x8);
    lemma_base256(f, 9);
    let x9 = x8 * 0x100 + f[9];
    assert(base256(f.take(10)) == x9);
    lemma_base256(f, 10);
    let x10 = x9 * 0x100 + f[10];
    assert(base256(f.take(11)) == x10);
    lemma_base256(f, 11);
    let x11 = x10 * 0x100 + f[11];
    assert(base256(f.take(12)) == x11);
    assert(f.take(12) =~= f);
    assert(x7 == bytes::be32_at(f, 4));
    assert(x11 == 0x1_0000_0000 * x7 + bytes::be32_at(f, 8));
}

proof fn lemma_base256(f: Seq<u8>, k: int)
    requires
        1 <= k < f.len(),
    ensures
        base256(f.take(k + 1)) == (base256(f.take(k)) % 0x100_0000_0000_0000) * 0x100 + f[k],
{
    let t = f.take(k + 1);
    assert(t.drop_last() =~= f.take(k));
    assert(t.last() == f[k]);
}

/// A file is stored behind its header of 512 bytes, and the next header stands behind it at
/// the next whole block: the index goes on there with the file added, and the bytes that are
/// read under its path are those behind the header.
pub proof fn a_file_stands_behind_its_header(
    image: Seq<u8>,
    pos: int,
    path: Seq<char>,
    size: int,
    next: int,
    c: CatalogView<TarRecord>,
)
    requires
        image.len() <= u64::MAX,
        0 <= pos,
        pos + 512 <= next <= image.len(),
        0 <= size,
        size <= next - pos - 512 < size + 512,
        (next - pos) % 512 == 0,
        image[pos + 156] == 0x30,
        number_of(image.subrange(pos + 124, pos + 136)) == size,
        catalog::ascending(catalog::keys(c.files)),
        ({
            let name = string_field(image.subrange(pos, pos + 100));
            let prefix = string_field(image.subrange(pos + 345, pos + 500));
            let whole = if prefix.len() == 0 {
                name
            } else {
                prefix + "/"@ + name
            };
            catalog::normalised(whole) == Some(path) && whole.last() != '/'
        }),
        catalog::normalised(path) == Some(path),
    ensures
        ({
            let d = TarData::OnDisk(source::reads_of(image));
            let e = TarRecord {
                offset: (pos + 512) as u64,
                size: size as u64,
                modified: mtime_text(number_of(image.subrange(pos + 136, pos + 148)) as int),
            };
            let more = c.holding(path).with_file(path, e);
            &&& tar_walk(d, image.len() as int, pos, nothing(), c) == tar_walk(
                d,
                image.len() as int,
                next,
                nothing(),
                more,
            )
            &&& file_answer(d, more, path) == Ok::<Seq<u8>, Seq<char>>(
                image.subrange(pos + 512, pos + 512 + size),
            )
        }),
{
    let d = TarData::OnDisk(source::reads_of(image));
    let h = image.subrange(pos, pos + 512);
    assert(h.subrange(124, 136) =~= image.subrange(pos + 124, pos + 136));
    assert(h.subrange(136, 148) =~= image.subrange(pos + 136, pos + 148));
    assert(h.subrange(0, 100) =~= image.subrange(pos, pos + 100));
    assert(h.subrange(345, 500) =~= image.subrange(pos + 345, pos + 500));
    assert(h[156] == 0x30);
    assert(!is_blank(h));
    assert(pos + 512 + padded(size) == next);
    let e = TarRecord {
        offset: (pos + 512) as u64,
        size: size as u64,
        modified: mtime_text(number_of(image.subrange(pos + 136, pos + 148)) as int),
    };
    let more = c.holding(path).with_file(path, e);
    assert(with_entry(h, pos + 512, nothing(), c) == more);
    catalog::stored_records_are_found(c.files, path, e, path);
}

/// The name in a header stands behind its prefix, with a slash between; each is the text up to the
/// first zero byte of its field.
pub proof fn a_name_stands_behind_its_prefix(
    h: Seq<u8>,
    name: Seq<char>,
    prefix: Seq<char>,
)
    requires
        h.len() == 512,
        string_field(h.subrange(0, 100)) == name,
        string_field(h.subrange(345, 500)) == prefix,
    ensures
        prefix.len() == 0 ==> header_name(h) == name,
        prefix.len() > 0 ==> header_name(h) == prefix + "/"@ + name,
{
}

/// Data take whole blocks of 512 bytes, and no block more than they need.
pub proof fn data_take_whole_blocks(size: int)
    requires
        0 <= size,
    ensures
        padded(size) % 512 == 0,
        size <= padded(size) < size + 512,
{
}

/// A packed archive is known by the bytes that it begins with.
pub proof fn a_wrapper_is_known_by_its_mark(rest: Seq<u8>)
    requires
        rest.len() >= 6,
    ensures
        wrapper_of(seq![0x1Fu8, 0x8B] + rest) == Some(Wrapper::Gzip),
        wrapper_of(seq![0x42u8, 0x5A, 0x68] + rest) == Some(Wrapper::Bzip2),
        wrapper_of(seq![0xFDu8, 0x37, 0x7A, 0x58, 0x5A, 0x00] + rest) == Some(Wrapper::Xz),
        wrapper_of(seq![0x28u8, 0xB5, 0x2F, 0xFD] + rest) == Some(Wrapper::Zstd),
{
    let g = seq![0x1Fu8, 0x8B] + rest;
    let b = seq![0x42u8, 0x5A, 0x68] + rest;
    let x = seq![0xFDu8, 0x37, 0x7A, 0x58, 0x5A, 0x00] + rest;
    let z = seq![0x28u8, 0xB5, 0x2F, 0xFD] + rest;
    assert(g[0] == 0x1F && g[1] == 0x8B);
    assert(g.subrange(0, 2) =~= seq![0x1Fu8, 0x8B]);
    assert(b[0] == 0x42 && b.subrange(0, 3) =~= seq![0x42u8, 0x5A, 0x68]);
    assert(b.subrange(0, 2)[0] == 0x42);
    assert(x[0] == 0xFD && x.subrange(0, 6) =~= seq![0xFDu8, 0x37, 0x7A, 0x58, 0x5A, 0x00]);
    assert(x.subrange(0, 2)[0] == 0xFD);
    assert(x.subrange(0, 3)[0] == 0xFD);
    assert(z[0] == 0x28 && z.subrange(0, 4) =~= seq![0x28u8, 0xB5, 0x2F, 0xFD]);
    assert(z.subrange(0, 2)[0] == 0x28);
    assert(z.subrange(0, 3)[0] == 0x28);
    assert(z.subrange(0, 6)[0] == 0x28);
}

} // verus!
