//! Conversions of whole images: what can be done with one, whether there is room for
//! the result, how the work goes on piece by piece, and how it is checked.
use vstd::prelude::*;
use crate::bytes::same_bytes;
use crate::numbers;
use crate::numbers::decimal_string;
use crate::source;
use crate::source::{read_labelled, ByteSource, Reads};
use crate::text;
use crate::text::{chars_of, ends_with, join2, join3, to_lowercase};
use crate::wiiu;
use crate::wiiu::find_gm_partition_base;
use crate::wux_reader;
use crate::wux_reader::{WuxReader, WuxView};
use crate::wux_writer;

verus! {

// ── What an image is ────────────────────────────────────────────────────────

/// What is known of a PS3 image: whether it is one, whether it is encrypted, and the
/// key file beside it.
pub struct Ps3IsoInfo {
    pub is_ps3: bool,
    pub encrypted: bool,
    pub has_key: bool,
    pub key_path: Option<String>,
}

/// What is known of an image, by whether it was found to be an encrypted or a plain
/// PS3 image, and by the key file beside it.
pub fn ps3_iso_info(encrypted: Option<bool>, key: Option<String>) -> (r: Ps3IsoInfo)
    ensures
        match encrypted {
            None => !r.is_ps3 && !r.encrypted && !r.has_key && r.key_path is None,
            Some(e) => r.is_ps3 && r.encrypted == e && r.has_key == (key is Some) && r.key_path
                == key,
        },
{
    match encrypted {
        None => Ps3IsoInfo { is_ps3: false, encrypted: false, has_key: false, key_path: None },
        Some(e) => {
            let has_key: bool = key.is_some();
            Ps3IsoInfo { is_ps3: true, encrypted: e, has_key, key_path: key }
        },
    }
}

/// What is known of a Wii U image: whether it is one, packed or raw, and whether
/// there is a key beside it.
#[derive(Clone, Copy, PartialEq, Eq, Structural)]
pub struct WiiuConvInfo {
    pub is_wiiu: bool,
    pub is_wux: bool,
    pub is_raw: bool,
    pub has_key: bool,
}

/// What is known of an image, by its name in lower case, where its game partition
/// starts, if it has one, and whether there is a title key beside it.
pub open spec fn conv_info(lower: Seq<char>, base: Option<u64>, key: bool) -> WiiuConvInfo {
    let is_wux = text::ends(lower, ".wux"@);
    let is_raw = text::ends(lower, ".wud"@) || (text::ends(lower, ".iso"@) && base is Some);
    WiiuConvInfo {
        is_wiiu: is_wux || is_raw,
        is_wux,
        is_raw,
        has_key: (is_wux || is_raw) && key,
    }
}

/// What is known of an image; `image` is the file itself, where it can be opened.
pub fn wiiu_conv_info<S: ByteSource>(path: &str, image: Option<S>, key: bool) -> (r: WiiuConvInfo)
    ensures
        r == conv_info(
            text::lowercase(path@),
            match image {
                Some(s) => wiiu::gm_base(s.reads()),
                None => None,
            },
            key,
        ),
{
    let lower: String = to_lowercase(path);
    let c: Vec<char> = chars_of(lower.as_str());
    let is_wux: bool = ends_with(c.as_slice(), ".wux");
    let is_wud: bool = ends_with(c.as_slice(), ".wud");
    let is_iso: bool = ends_with(c.as_slice(), ".iso");
    let holds_game: bool = match image {
        Some(s) => {
            let mut source: S = s;
            find_gm_partition_base(&mut source).is_some()
        },
        None => false,
    };
    let is_raw: bool = is_wud || (is_iso && holds_game);
    let is_wiiu: bool = is_wux || is_raw;
    WiiuConvInfo { is_wiiu, is_wux, is_raw, has_key: is_wiiu && key }
}

// ── Room and progress ───────────────────────────────────────────────────────

/// The error for a volume without enough room.
pub open spec fn no_room(needed: int, available: int) -> Seq<char> {
    "Not enough free space: need "@ + numbers::decimal(needed) + " bytes, only "@
        + numbers::decimal(available) + " available"@
}

/// The error for a volume without enough room.
fn no_room_error(needed: u64, available: u64) -> (r: String)
    ensures
        r@ == no_room(needed as int, available as int),
{
    let a: String = decimal_string(needed);
    let b: String = decimal_string(available);
    let head: String = join3("Not enough free space: need ", a.as_str(), " bytes, only ");
    join3(head.as_str(), b.as_str(), " available")
}

/// Checks that a volume has room for some bytes.
pub fn ps3_check_space(available: Option<u64>, needed: u64) -> (r: Result<(), String>)
    ensures
        match r {
            Ok(_) => available matches Some(a) && a >= needed,
            Err(e) => match available {
                Some(a) => a < needed && e@ == no_room(needed as int, a as int),
                None => e@ == "Could not determine available disk space"@,
            },
        },
{
    match available {
        Some(a) => if a >= needed {
            Ok(())
        } else {
            Err(no_room_error(needed, a))
        },
        None => Err("Could not determine available disk space".to_owned()),
    }
}

/// Checks before a conversion that its volume has room, where that is known.
pub fn check_room(available: Option<u64>, needed: u64) -> (r: Result<(), String>)
    ensures
        match r {
            Ok(_) => available matches Some(a) ==> a >= needed,
            Err(e) => available matches Some(a) && a < needed && e@ == no_room(
                needed as int,
                a as int,
            ),
        },
{
    match available {
        Some(a) => if a < needed {
            Err(no_room_error(needed, a))
        } else {
            Ok(())
        },
        None => Ok(()),
    }
}

/// Whether progress is reported: at the end, and else about once in a hundredth.
pub open spec fn is_due(done: int, last: int, total: int) -> bool {
    done == total || done - last >= total / 100 + 1
}

/// How often progress is reported: what was done at the last report.
pub struct Throttle {
    pub last: u64,
}

impl Throttle {
    /// Notes what is done, and says whether that is to be reported.
    pub fn tick(&mut self, done: u64, total: u64) -> (r: bool)
        requires
            old(self).last <= done,
        ensures
            r == is_due(done as int, old(self).last as int, total as int),
            final(self).last == (if r {
                done
            } else {
                old(self).last
            }),
    {
        if done == total || done - self.last >= total / 100 + 1 {
            self.last = done;
            true
        } else {
            false
        }
    }
}

/// A flag by which a conversion is told to stop.
pub struct ConvCancelState {
    pub cancelled: bool,
}

impl ConvCancelState {
    /// A conversion begins.
    pub fn reset(&mut self)
        ensures
            !final(self).cancelled,
    {
        self.cancelled = false;
    }

    /// Tells a conversion to stop.
    pub fn conv_cancel(&mut self)
        ensures
            final(self).cancelled,
    {
        self.cancelled = true;
    }

    /// The error of a conversion that was told to stop.
    pub fn check(&self) -> (r: Result<(), String>)
        ensures
            match r {
                Ok(_) => !self.cancelled,
                Err(e) => self.cancelled && e@ == "__cancelled__"@,
            },
    {
        if self.cancelled {
            Err("__cancelled__".to_owned())
        } else {
            Ok(())
        }
    }
}

/// The path of the key for Wii U discs, where one was set.
pub struct WiiUKeyState {
    pub path: Option<String>,
}

impl WiiUKeyState {
    /// Sets the path, or takes it away.
    pub fn set_wiiu_key_path(&mut self, path: Option<String>)
        ensures
            final(self).path == path,
    {
        self.path = path;
    }

    /// The path that was set.
    pub fn get_wiiu_key_path(&self) -> (r: Option<String>)
        ensures
            match r {
                Some(p) => self.path matches Some(q) && p@ == q@,
                None => self.path is None,
            },
    {
        match &self.path {
            Some(p) => Some(p.as_str().to_owned()),
            None => None,
        }
    }
}

// ── Raw images ──────────────────────────────────────────────────────────────

/// The bytes that are copied at once.
pub const COPY_CHUNK: u64 = 0x100_0000;

/// The lesser of two numbers.
pub open spec fn lesser(a: int, b: int) -> int {
    if a < b {
        a
    } else {
        b
    }
}

/// The bytes of a disc from `pos` on, copied piece by piece.
pub open spec fn copied_from(reads: Reads, pos: int, total: int) -> Result<Seq<u8>, Seq<char>>
    decreases total - pos,
{
    if pos >= total {
        Ok(seq![])
    } else {
        let n = lesser(COPY_CHUNK as int, total - pos);
        match source::labelled(reads(pos, n), "Read: "@) {
            Err(e) => Err(e),
            Ok(b) => source::after(b, copied_from(reads, pos + n, total)),
        }
    }
}

/// A copy of a disc under way.
pub struct RawCopy<S> {
    pub source: S,
    pub done: u64,
    pub total: u64,
}

impl<S: ByteSource> RawCopy<S> {
    /// Whether no more is done than there is.
    pub open spec fn wf(&self) -> bool {
        self.done <= self.total
    }

    /// A copy that begins.
    pub fn new(source: S, total: u64) -> (r: RawCopy<S>)
        ensures
            r.wf(),
            r.source.reads() == source.reads(),
            r.done == 0,
            r.total == total,
    {
        RawCopy { source, done: 0, total }
    }

    /// Reads the next piece; none is left at the end.
    pub fn next_piece(&mut self) -> (r: Result<Option<Vec<u8>>, String>)
        requires
            old(self).wf(),
        ensures
            final(self).wf(),
            final(self).source.reads() == old(self).source.reads(),
            final(self).total == old(self).total,
            ({
                let n = lesser(COPY_CHUNK as int, old(self).total - old(self).done);
                let read = source::labelled(
                    (old(self).source.reads())(old(self).done as int, n),
                    "Read: "@,
                );
                match r {
                    Ok(None) => old(self).done == old(self).total && final(self).done == old(
                        self,
                    ).done,
                    Ok(Some(b)) => old(self).done < old(self).total && read == Ok::<
                        Seq<u8>,
                        Seq<char>,
                    >(b@) && b@.len() == n && final(self).done == old(self).done + n,
                    Err(e) => old(self).done < old(self).total && read == Err::<
                        Seq<u8>,
                        Seq<char>,
                    >(e@) && final(self).done == old(self).done,
                }
            }),
    {
        if self.done == self.total {
            return Ok(None);
        }
        let left: u64 = self.total - self.done;
        let n: u64 = if COPY_CHUNK < left {
            COPY_CHUNK
        } else {
            left
        };
        match read_labelled(&mut self.source, self.done, n, "Read: ") {
            Err(e) => Err(e),
            Ok(b) => {
                self.done = self.done + n;
                Ok(Some(b))
            },
        }
    }
}

/// Makes the raw image of a disc of `total` bytes.
#[verifier::loop_isolation(false)]
pub fn wiiu_convert<S: ByteSource>(source: S, total: u64) -> (r: Result<Vec<u8>, String>)
    ensures
        source::outcome(r) == copied_from(source.reads(), 0, total as int),
{
    let ghost reads = source.reads();
    let ghost goal = copied_from(reads, 0, total as int);
    let mut copy: RawCopy<S> = RawCopy::new(source, total);
    let mut out: Vec<u8> = Vec::new();
    proof {
        if let Ok(b) = goal {
            assert(out@ + b =~= b);
        }
    }
    let mut more: bool = true;
    while more
        invariant
            copy.wf(),
            copy.total == total,
            copy.source.reads() == reads,
            source::after(out@, copied_from(reads, copy.done as int, total as int)) == goal,
            !more ==> copy.done == total,
        decreases total - copy.done + if more {
            1int
        } else {
            0
        },
    {
        let ghost before = out@;
        match copy.next_piece() {
            Err(e) => {
                return Err(e);
            },
            Ok(None) => {
                more = false;
            },
            Ok(Some(b)) => {
                let mut piece: Vec<u8> = b;
                let ghost p = piece@;
                out.append(&mut piece);
                proof {
                    if let Ok(t) = copied_from(reads, copy.done as int, total as int) {
                        assert(before + (p + t) =~= (before + p) + t);
                    }
                }
            },
        }
    }
    assert(out@ + seq![] =~= out@);
    Ok(out)
}

/// The raw image of a disc in memory is the disc.
pub proof fn a_raw_image_is_the_disc(image: Seq<u8>, pos: int)
    requires
        0 <= pos <= image.len(),
    ensures
        copied_from(source::reads_of(image), pos, image.len() as int) == Ok::<Seq<u8>, Seq<char>>(
            image.skip(pos),
        ),
    decreases image.len() - pos,
{
    if pos == image.len() {
        assert(image.skip(pos) =~= seq![]);
    } else {
        let n = lesser(COPY_CHUNK as int, image.len() - pos);
        a_raw_image_is_the_disc(image, pos + n);
        assert(image.subrange(pos, pos + n) + image.skip(pos + n) =~= image.skip(pos));
    }
}

// ── Checking ────────────────────────────────────────────────────────────────

/// The bytes that are compared at once.
pub const VERIFY_CHUNK: u64 = 0x80_0000;

/// What reading `n` bytes of the disc in a WUX image at `pos` gives, block by block;
/// nothing where the disc ends before.
pub open spec fn disc_run(reads: Reads, v: WuxView, pos: int, n: int) -> Result<
    Option<Seq<u8>>,
    Seq<char>,
>
    decreases n,
{
    if n <= 0 {
        Ok(Some(seq![]))
    } else if pos < 0 || pos >= v.total_bytes {
        Ok(None)
    } else {
        match wux_reader::wux_read(reads, v, pos, n) {
            Err(e) => Err(e),
            Ok(b) => {
                let m = wux_reader::piece_len(v, pos, n);
                if m <= 0 {
                    Ok(None)
                } else {
                    match disc_run(reads, v, pos + m, n - m) {
                        Err(e) => Err(e),
                        Ok(None) => Ok(None),
                        Ok(Some(rest)) => Ok(Some(b + rest)),
                    }
                }
            },
        }
    }
}

/// The error that the `n` bytes at `pos` give when a WUX image is checked against the
/// image that it was made from.
pub open spec fn piece_error(image: Reads, stored: Reads, v: WuxView, pos: int, n: int) -> Option<
    Seq<char>,
> {
    match image(pos, n) {
        Err(e) => Some("Verify read input: "@ + e),
        Ok(a) => match disc_run(stored, v, pos, n) {
            Err(e) => Some("Verify read wux: "@ + e),
            Ok(None) => Some("Verify failed: WUX is shorter than source"@),
            Ok(Some(b)) => if a != b {
                Some("Verify failed: WUX does not round-trip to source"@)
            } else {
                None
            },
        },
    }
}

/// The first error from `pos` on, when a WUX image is checked against an image of
/// `len` bytes.
pub open spec fn verify_error(image: Reads, len: int, stored: Reads, v: WuxView, pos: int) -> Option<
    Seq<char>,
>
    decreases len - pos,
{
    if pos >= len {
        None
    } else {
        let n = lesser(VERIFY_CHUNK as int, len - pos);
        match piece_error(image, stored, v, pos, n) {
            Some(e) => Some(e),
            None => verify_error(image, len, stored, v, pos + n),
        }
    }
}

/// Reads `n` bytes of the disc in a WUX image.
#[verifier::loop_isolation(false)]
fn read_run<S: ByteSource>(wux: &mut WuxReader<S>, pos: u64, n: u64) -> (r: Result<
    Option<Vec<u8>>,
    String,
>)
    requires
        pos + n <= u64::MAX,
    ensures
        final(wux).stored() == old(wux).stored(),
        final(wux).contents() == old(wux).contents(),
        match r {
            Ok(Some(b)) => disc_run(
                old(wux).stored(),
                old(wux).contents(),
                pos as int,
                n as int,
            ) == Ok::<Option<Seq<u8>>, Seq<char>>(Some(b@)),
            Ok(None) => disc_run(old(wux).stored(), old(wux).contents(), pos as int, n as int)
                == Ok::<Option<Seq<u8>>, Seq<char>>(None),
            Err(e) => disc_run(old(wux).stored(), old(wux).contents(), pos as int, n as int)
                == Err::<Option<Seq<u8>>, Seq<char>>(e@),
        },
{
    let ghost stored = wux.stored();
    let ghost v = wux.contents();
    let ghost goal = disc_run(stored, v, pos as int, n as int);
    let total: u64 = wux.total_bytes();
    let mut out: Vec<u8> = Vec::new();
    let mut at: u64 = pos;
    let mut left: u64 = n;
    proof {
        if let Ok(Some(b)) = goal {
            assert(out@ + b =~= b);
        }
    }
    while left > 0
        invariant
            wux.stored() == stored,
            wux.contents() == v,
            at + left == pos + n,
            match disc_run(stored, v, at as int, left as int) {
                Err(e) => goal == Err::<Option<Seq<u8>>, Seq<char>>(e),
                Ok(None) => goal == Ok::<Option<Seq<u8>>, Seq<char>>(None),
                Ok(Some(b)) => goal == Ok::<Option<Seq<u8>>, Seq<char>>(Some(out@ + b)),
            },
        decreases left,
    {
        if at >= total {
            return Ok(None);
        }
        let mut b: Vec<u8> = match wux.read_at(at, left) {
            Ok(b) => b,
            Err(e) => {
                return Err(e);
            },
        };
        let m: u64 = b.len() as u64;
        let ghost before = out@;
        let ghost piece = b@;
        out.append(&mut b);
        proof {
            if let Ok(Some(t)) = disc_run(stored, v, at + m, left - m) {
                assert(before + (piece + t) =~= (before + piece) + t);
            }
        }
        at += m;
        left -= m;
    }
    assert(out@ + seq![] =~= out@);
    Ok(Some(out))
}

/// Checks the next piece of a WUX image against the image that it was made from, and
/// says where the one behind it starts; nothing at the end.
pub fn verify_piece<S: ByteSource, T: ByteSource>(
    image: &mut S,
    len: u64,
    wux: &mut WuxReader<T>,
    pos: u64,
) -> (r: Result<Option<u64>, String>)
    ensures
        final(image).reads() == old(image).reads(),
        final(wux).stored() == old(wux).stored(),
        final(wux).contents() == old(wux).contents(),
        ({
            let n = lesser(VERIFY_CHUNK as int, len - pos);
            let error = piece_error(
                old(image).reads(),
                old(wux).stored(),
                old(wux).contents(),
                pos as int,
                n,
            );
            match r {
                Ok(None) => pos >= len,
                Ok(Some(next)) => pos < len && next == pos + n && error is None,
                Err(e) => pos < len && error == Some(e@),
            }
        }),
{
    if pos >= len {
        return Ok(None);
    }
    let left: u64 = len - pos;
    let n: u64 = if VERIFY_CHUNK < left {
        VERIFY_CHUNK
    } else {
        left
    };
    let a: Vec<u8> = match read_labelled(image, pos, n, "Verify read input: ") {
        Ok(a) => a,
        Err(e) => {
            return Err(e);
        },
    };
    match read_run(wux, pos, n) {
        Err(e) => Err(join2("Verify read wux: ", e.as_str())),
        Ok(None) => Err("Verify failed: WUX is shorter than source".to_owned()),
        Ok(Some(b)) => if same_bytes(a.as_slice(), b.as_slice()) {
            Ok(Some(pos + n))
        } else {
            Err("Verify failed: WUX does not round-trip to source".to_owned())
        },
    }
}

/// Checks a WUX image against the image of `len` bytes that it was made from.
#[verifier::loop_isolation(false)]
pub fn verify_wux<S: ByteSource, T: ByteSource>(
    image: &mut S,
    len: u64,
    wux: &mut WuxReader<T>,
) -> (r: Result<(), String>)
    ensures
        ({
            let error = verify_error(
                old(image).reads(),
                len as int,
                old(wux).stored(),
                old(wux).contents(),
                0,
            );
            match r {
                Ok(_) => error is None,
                Err(e) => error == Some(e@),
            }
        }),
{
    let ghost reads = image.reads();
    let ghost stored = wux.stored();
    let ghost v = wux.contents();
    let mut pos: u64 = 0;
    let mut more: bool = true;
    while more
        invariant
            image.reads() == reads,
            wux.stored() == stored,
            wux.contents() == v,
            pos <= len,
            verify_error(reads, len as int, stored, v, pos as int) == verify_error(
                reads,
                len as int,
                stored,
                v,
                0,
            ),
            !more ==> pos >= len,
        decreases len - pos + if more {
            1int
        } else {
            0
        },
    {
        match verify_piece(image, len, wux, pos) {
            Err(e) => {
                return Err(e);
            },
            Ok(None) => {
                more = false;
            },
            Ok(Some(next)) => {
                pos = next;
            },
        }
    }
    Ok(())
}

/// Where exact reads of the disc in a WUX image succeed, reading block by block gives
/// the same.
proof fn lemma_run_is_exact(reads: Reads, v: WuxView, pos: int, n: int)
    ensures
        wux_reader::wux_exact(reads, v, pos, n) matches Ok(b) ==> disc_run(reads, v, pos, n)
            == Ok::<Option<Seq<u8>>, Seq<char>>(Some(b)),
    decreases n,
{
    if n > 0 && 0 <= pos < v.total_bytes {
        if let Ok(_) = wux_reader::wux_read(reads, v, pos, n) {
            let m = wux_reader::piece_len(v, pos, n);
            if m > 0 {
                lemma_run_is_exact(reads, v, pos + m, n - m);
            }
        }
    }
}

/// A WUX image that was just made from an image passes the check against it, wherever
/// blocks that differ have digests that do.
pub proof fn a_new_wux_image_passes_the_check(image: Seq<u8>, size: int, pos: int)
    requires
        wux_reader::power_of_two(size),
        size <= u32::MAX,
        0 < image.len(),
        wux_writer::distinct_blocks(image, size) <= 0x1_0000_0000,
        32 + 4 * wux_reader::pieces(image.len() as int, size) + 2 * size + image.len() <= u64::MAX,
        wux_writer::told_apart(image, size),
        0 <= pos,
    ensures
        wux_writer::wux_file(source::reads_of(image), image.len() as int, size) matches Ok(file)
            && wux_reader::wux_opened(source::reads_of(file)) matches Ok(v) && verify_error(
            source::reads_of(image),
            image.len() as int,
            source::reads_of(file),
            v,
            pos,
        ) is None,
    decreases image.len() - pos,
{
    wux_writer::reading_gives_back_what_was_written(image, size, 0, 0);
    if pos < image.len() {
        let n = lesser(VERIFY_CHUNK as int, image.len() - pos);
        wux_writer::reading_gives_back_what_was_written(image, size, pos, n);
        let file = wux_writer::wux_file(source::reads_of(image), image.len() as int, size)->Ok_0;
        let v = wux_reader::wux_opened(source::reads_of(file))->Ok_0;
        lemma_run_is_exact(source::reads_of(file), v, pos, n);
        a_new_wux_image_passes_the_check(image, size, pos + n);
    }
}

/// A WUX image that passes the check holds the image that it was made from, in every stretch
/// that is compared.
pub proof fn a_checked_image_holds_its_source(
    image: Seq<u8>,
    stored: Reads,
    v: WuxView,
    k: int,
    n: int,
)
    requires
        0 <= k,
        0x80_0000 * k < image.len(),
        n == if image.len() - 0x80_0000 * k < 0x80_0000 {
            image.len() - 0x80_0000 * k
        } else {
            0x80_0000
        },
        verify_error(source::reads_of(image), image.len() as int, stored, v, 0) is None,
    ensures
        disc_run(stored, v, 0x80_0000 * k, n) == Ok::<Option<Seq<u8>>, Seq<char>>(
            Some(image.subrange(0x80_0000 * k, 0x80_0000 * k + n)),
        ),
{
    lemma_checked(image, stored, v, k, 0, n);
}

/// What passed the check from one stretch on passed it from a later one on.
proof fn lemma_checked(image: Seq<u8>, stored: Reads, v: WuxView, k: int, j: int, n: int)
    requires
        0 <= j <= k,
        0x80_0000 * k < image.len(),
        n == if image.len() - 0x80_0000 * k < 0x80_0000 {
            image.len() - 0x80_0000 * k
        } else {
            0x80_0000
        },
        verify_error(source::reads_of(image), image.len() as int, stored, v, 0x80_0000 * j) is None,
    ensures
        disc_run(stored, v, 0x80_0000 * k, n) == Ok::<Option<Seq<u8>>, Seq<char>>(
            Some(image.subrange(0x80_0000 * k, 0x80_0000 * k + n)),
        ),
    decreases k - j,
{
    if j < k {
        lemma_checked(image, stored, v, k, j + 1, n);
    }
}

/// Progress is reported at the end, and in between whenever more than a hundredth was done since
/// the last report.
pub proof fn progress_is_reported_in_hundredths(last: int, done: int, total: int)
    requires
        0 <= last <= done <= total,
    ensures
        done == total ==> is_due(done, last, total),
        100 * (done - last) > total ==> (is_due(done, last, total) || done - last == total / 100),
        done < total && 100 * (done - last) <= total - 100 ==> !is_due(done, last, total),
{
}

} // verus!
