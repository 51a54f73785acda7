//! Reading a device that serves whole sectors at aligned positions only.
//!
//! `AlignedReader` turns reads of any length at any position into reads of
//! windows of the device.
use vstd::prelude::*;
use crate::bytes::cut;
use crate::seek;
use crate::seek::Whence;
use crate::source;
use crate::source::{ByteSource, Reads};

verus! {

/// The bytes read from the device at once: a multiple of the sector size.
pub const WINDOW: u64 = 65_536;

/// Where the window that holds `pos` starts.
pub open spec fn window_start(pos: int) -> int {
    pos / 65_536 * 65_536
}

/// How long the window that starts at `start` is: the last one of a device of
/// `len` bytes is short.
pub open spec fn window_len(len: int, start: int) -> int {
    if start >= len {
        0
    } else if len - start < 65_536 {
        len - start
    } else {
        65_536
    }
}

/// The window that starts at `start`.
pub open spec fn window_at(reads: Reads, len: int, start: int) -> Result<Seq<u8>, Seq<char>> {
    if window_len(len, start) == 0 {
        Ok(seq![])
    } else {
        reads(start, window_len(len, start))
    }
}

/// What a read of up to `n` bytes at `pos` gives: no more than to the end of
/// the window.
pub open spec fn aligned_read(reads: Reads, len: int, pos: int, n: int) -> Result<
    Seq<u8>,
    Seq<char>,
> {
    if n <= 0 || pos >= len {
        Ok(seq![])
    } else {
        match window_at(reads, len, window_start(pos)) {
            Err(e) => Err(e),
            Ok(w) => {
                let within = pos - window_start(pos);
                let room = window_len(len, window_start(pos)) - within;
                Ok(
                    w.subrange(
                        within,
                        within + if n < room {
                            n
                        } else {
                            room
                        },
                    ),
                )
            },
        }
    }
}

/// What a read of exactly `n` bytes at `pos` gives.
pub open spec fn aligned_exact(reads: Reads, len: int, pos: int, n: int) -> Result<
    Seq<u8>,
    Seq<char>,
>
    decreases n,
{
    if n <= 0 {
        Ok(seq![])
    } else if pos < 0 || pos >= len {
        Err(source::short_read())
    } else {
        match aligned_read(reads, len, pos, n) {
            Err(e) => Err(e),
            Ok(b) => {
                let room = window_start(pos) + window_len(len, window_start(pos)) - pos;
                let m = if n < room {
                    n
                } else {
                    room
                };
                if m <= 0 {
                    Err(source::short_read())
                } else {
                    source::after(b, aligned_exact(reads, len, pos + m, n - m))
                }
            },
        }
    }
}

/// The device is read at positions that are multiples of the window's length,
/// and in whole sectors where its own length is in whole sectors.
pub proof fn windows_are_aligned(len: int, pos: int)
    requires
        0 <= pos < len,
        len % 2048 == 0,
    ensures
        window_start(pos) % 65_536 == 0,
        window_len(len, window_start(pos)) % 2048 == 0,
        window_start(pos) <= pos < window_start(pos) + window_len(len, window_start(pos)),
{
}

/// Reading through windows gives the bytes that the device holds.
pub proof fn windows_show_the_device(image: Seq<u8>, pos: int, n: int)
    requires
        0 <= pos,
        0 <= n,
    ensures
        aligned_exact(source::reads_of(image), image.len() as int, pos, n) == if n == 0 {
            Ok::<Seq<u8>, Seq<char>>(seq![])
        } else {
            source::reads_of(image)(pos, n)
        },
    decreases n,
{
    let reads = source::reads_of(image);
    let len = image.len() as int;
    if n > 0 && pos < len {
        let start = window_start(pos);
        let room = start + window_len(len, start) - pos;
        let m = if n < room {
            n
        } else {
            room
        };
        let w = image.subrange(start, start + window_len(len, start));
        assert(window_at(reads, len, start) == Ok::<Seq<u8>, Seq<char>>(w));
        assert(w.subrange(pos - start, pos - start + m) =~= image.subrange(pos, pos + m));
        windows_show_the_device(image, pos + m, n - m);
        if pos + n <= len {
            if n == m {
                assert(image.subrange(pos, pos + m) + seq![] =~= image.subrange(pos, pos + n));
            } else {
                assert(image.subrange(pos, pos + m) + image.subrange(pos + m, pos + n)
                    =~= image.subrange(pos, pos + n));
            }
        }
    }
}

/// A reader over a device of known length.
pub struct AlignedReader<S: ByteSource> {
    inner: S,
    pos: u64,
    len: u64,
    cache: Option<(u64, Vec<u8>)>,
}

impl<S: ByteSource> AlignedReader<S> {
    /// What exact reads of the device give.
    pub closed spec fn device(&self) -> Reads {
        self.inner.reads()
    }

    /// The length of the device.
    pub closed spec fn size(&self) -> int {
        self.len as int
    }

    /// The position of the next read.
    pub closed spec fn at(&self) -> int {
        self.pos as int
    }

    /// The start of the window that was read last.
    pub closed spec fn held(&self) -> Option<u64> {
        match self.cache {
            Some(c) => Some(c.0),
            None => None,
        }
    }

    /// Whether the window that was read last holds what the device does.
    pub closed spec fn wf(&self) -> bool {
        self.cache matches Some(c) ==> window_at(self.inner.reads(), self.len as int, c.0 as int)
            == Ok::<Seq<u8>, Seq<char>>(c.1@) && c.1@.len() == window_len(
            self.len as int,
            c.0 as int,
        )
    }

    pub fn new(inner: S, len: u64) -> (r: AlignedReader<S>)
        ensures
            r.wf(),
            r.device() == inner.reads(),
            r.size() == len,
            r.at() == 0,
            r.held() is None,
    {
        AlignedReader { inner, pos: 0, len, cache: None }
    }

    pub fn len(&self) -> (r: u64)
        ensures
            r == self.size(),
    {
        self.len
    }

    /// The start of the window that was read last.
    pub fn held_window(&self) -> (r: Option<u64>)
        ensures
            r == self.held(),
    {
        match &self.cache {
            Some(c) => Some(c.0),
            None => None,
        }
    }

    /// Reads the window that holds `pos`, unless it is the one read last.
    fn load(&mut self, pos: u64) -> (r: Result<(), String>)
        requires
            old(self).wf(),
        ensures
            final(self).wf(),
            final(self).device() == old(self).device(),
            final(self).size() == old(self).size(),
            final(self).at() == old(self).at(),
            match r {
                Ok(_) => final(self).cache matches Some(c) && c.0 == window_start(pos as int),
                Err(e) => window_at(old(self).device(), old(self).size(), window_start(pos as int))
                    == Err::<Seq<u8>, Seq<char>>(e@) && final(self).held() == old(self).held(),
            },
    {
        let start: u64 = pos / WINDOW * WINDOW;
        if let Some(c) = &self.cache {
            if c.0 == start {
                return Ok(());
            }
        }
        let want: u64 = if start >= self.len {
            0
        } else if self.len - start < WINDOW {
            self.len - start
        } else {
            WINDOW
        };
        if want == 0 {
            let none: Vec<u8> = Vec::new();
            assert(none@ =~= seq![]);
            self.cache = Some((start, none));
            return Ok(());
        }
        match self.inner.read_exact_at(start, want) {
            Ok(b) => {
                self.cache = Some((start, b));
                Ok(())
            },
            Err(e) => Err(e),
        }
    }

    /// Reads up to `n` bytes at the current position, and moves it behind them.
    pub fn read(&mut self, n: u64) -> (r: Result<Vec<u8>, String>)
        requires
            old(self).wf(),
        ensures
            final(self).wf(),
            final(self).device() == old(self).device(),
            final(self).size() == old(self).size(),
            source::outcome(r) == aligned_read(
                old(self).device(),
                old(self).size(),
                old(self).at(),
                n as int,
            ),
            match r {
                Ok(b) => final(self).at() == old(self).at() + b@.len(),
                Err(_) => final(self).at() == old(self).at(),
            },
            r matches Ok(b) ==> 0 < n && old(self).at() < old(self).size() ==> 0 < b@.len() <= n
                && final(self).held() == Some(window_start(old(self).at()) as u64) && b@.len() == ({
                let room = window_start(old(self).at()) + window_len(
                    old(self).size(),
                    window_start(old(self).at()),
                ) - old(self).at();
                if n < room {
                    n as int
                } else {
                    room
                }
            }),
    {
        if n == 0 || self.pos >= self.len {
            let none: Vec<u8> = Vec::new();
            assert(none@ =~= seq![]);
            return Ok(none);
        }
        match self.load(self.pos) {
            Err(e) => {
                return Err(e);
            },
            Ok(_) => {},
        }
        let pos: u64 = self.pos;
        match &self.cache {
            None => Err("no window is loaded".to_owned()),
            Some(c) => {
                let within: u64 = pos - c.0;
                let room: u64 = c.1.len() as u64 - within;
                let m: u64 = if n < room {
                    n
                } else {
                    room
                };
                let out: Vec<u8> = cut(
                    c.1.as_slice(),
                    within as usize,
                    within as usize + m as usize,
                );
                self.pos = pos + m;
                Ok(out)
            },
        }
    }

    /// Reads exactly `n` bytes at the current position.
    #[verifier::loop_isolation(false)]
    pub fn read_exact(&mut self, n: u64) -> (r: Result<Vec<u8>, String>)
        requires
            old(self).wf(),
        ensures
            final(self).wf(),
            final(self).device() == old(self).device(),
            final(self).size() == old(self).size(),
            source::outcome(r) == aligned_exact(
                old(self).device(),
                old(self).size(),
                old(self).at(),
                n as int,
            ),
            r is Ok ==> final(self).at() == old(self).at() + n,
    {
        let ghost reads = self.device();
        let ghost size = self.size();
        let ghost goal = aligned_exact(reads, size, self.at(), n as int);
        let mut out: Vec<u8> = Vec::new();
        let mut left: u64 = n;
        assert(source::after(out@, goal) == goal) by {
            match goal {
                Ok(b) => {
                    assert(out@ + b =~= b);
                },
                Err(_) => {},
            }
        }
        while left > 0
            invariant
                self.wf(),
                self.device() == reads,
                self.size() == size,
                self.at() + left == old(self).at() + n,
                source::after(out@, aligned_exact(reads, size, self.at(), left as int)) == goal,
            decreases left,
        {
            if self.pos >= self.len {
                return Err("failed to fill whole buffer".to_owned());
            }
            let ghost at = self.at();
            let mut b: Vec<u8> = match self.read(left) {
                Ok(b) => b,
                Err(e) => {
                    return Err(e);
                },
            };
            let m: u64 = b.len() as u64;
            let ghost before = out@;
            let ghost piece = b@;
            out.append(&mut b);
            proof {
                match aligned_exact(reads, size, at + m, left - m) {
                    Ok(t) => {
                        assert(before + (piece + t) =~= (before + piece) + t);
                    },
                    Err(_) => {},
                }
            }
            left -= m;
        }
        assert(out@ + seq![] =~= out@);
        Ok(out)
    }

    /// Moves the position. One before the start is refused; one past the end is
    /// not, and reads there give nothing.
    pub fn seek(&mut self, to: Whence) -> (r: Result<u64, String>)
        ensures
            final(self).wf() == old(self).wf(),
            final(self).device() == old(self).device(),
            final(self).size() == old(self).size(),
            final(self).held() == old(self).held(),
            ({
                let t = seek::target(old(self).at(), old(self).size(), to);
                if t < 0 {
                    r matches Err(e) && e@ == "seek before start"@ && final(self).at() == old(
                        self,
                    ).at()
                } else {
                    r matches Ok(p) && p == t % 0x1_0000_0000_0000_0000 && final(self).at() == p
                }
            }),
    {
        let t: i128 = match to {
            Whence::Start(n) => n as i128,
            Whence::Current(n) => self.pos as i128 + n as i128,
            Whence::End(n) => self.len as i128 + n as i128,
        };
        if t < 0 {
            return Err("seek before start".to_owned());
        }
        let p: u64 = (t as u128 % 0x1_0000_0000_0000_0000) as u64;
        self.pos = p;
        Ok(p)
    }
}

} // verus!
