//! Random-access byte sources: disc images, files, partitions inside them.
use vstd::prelude::*;
use vstd::slice::*;

verus! {

/// What exact reads of a source give: for a position and a length, the bytes
/// or the text of the error.
pub type Reads = spec_fn(int, int) -> Result<Seq<u8>, Seq<char>>;

/// The error that a read past the end of a source reports.
pub open spec fn short_read() -> Seq<char> {
    "failed to fill whole buffer"@
}

/// The reads of a source that holds exactly the bytes `image`.
pub open spec fn reads_of(image: Seq<u8>) -> Reads {
    |pos: int, n: int|
        if 0 <= pos && 0 <= n && pos + n <= image.len() {
            Ok(image.subrange(pos, pos + n))
        } else {
            Err(short_read())
        }
}

/// The contents of a result: the bytes, or the text of the error.
pub open spec fn outcome(r: Result<Vec<u8>, String>) -> Result<Seq<u8>, Seq<char>> {
    match r {
        Ok(b) => Ok(b@),
        Err(e) => Err(e@),
    }
}

/// A result whose error carries a label in front.
pub open spec fn labelled<T>(r: Result<T, Seq<char>>, label: Seq<char>) -> Result<T, Seq<char>> {
    match r {
        Ok(b) => Ok(b),
        Err(e) => Err(label + e),
    }
}

/// A source of bytes that can be read at any position.
pub trait ByteSource {
    /// What exact reads of this source give: nothing, unless the source says
    /// what it holds.
    open spec fn reads(&self) -> Reads {
        |pos: int, n: int| Err(short_read())
    }

    /// Reads exactly `n` bytes at `pos`; reading changes nothing that a later read shows.
    fn read_exact_at(&mut self, pos: u64, n: u64) -> (r: Result<Vec<u8>, String>)
        ensures
            final(self).reads() == old(self).reads(),
            r matches Ok(b) ==> (old(self).reads())(pos as int, n as int) == Ok::<Seq<u8>, Seq<char>>(b@)
                && b@.len() == n && pos + n <= u64::MAX,
            r matches Err(e) ==> (old(self).reads())(pos as int, n as int) == Err::<Seq<u8>, Seq<char>>(e@),
    ;
}

/// A source held in memory.
pub struct MemSource {
    pub image: Vec<u8>,
}

impl MemSource {
    pub fn new(image: Vec<u8>) -> (r: MemSource)
        ensures
            r.image@ == image@,
            r.reads() == reads_of(image@),
    {
        MemSource { image }
    }
}

impl ByteSource for MemSource {
    open spec fn reads(&self) -> Reads {
        reads_of(self.image@)
    }

    fn read_exact_at(&mut self, pos: u64, n: u64) -> (r: Result<Vec<u8>, String>) {
        let len: u64 = self.image.len() as u64;
        if n <= len && pos <= len - n {
            let at: usize = pos as usize;
            Ok(slice_to_vec(slice_subrange(self.image.as_slice(), at, at + n as usize)))
        } else {
            Err("failed to fill whole buffer".to_owned())
        }
    }
}

/// Reads exactly `n` bytes at `pos`; an error carries the label in front.
pub fn read_labelled<S: ByteSource>(source: &mut S, pos: u64, n: u64, label: &str) -> (r: Result<
    Vec<u8>,
    String,
>)
    ensures
        final(source).reads() == old(source).reads(),
        outcome(r) == labelled((old(source).reads())(pos as int, n as int), label@),
        r matches Ok(b) ==> b@.len() == n && pos + n <= u64::MAX,
{
    match source.read_exact_at(pos, n) {
        Ok(b) => Ok(b),
        Err(e) => Err(crate::text::join2(label, e.as_str())),
    }
}

/// A read at any position: one that a 64-bit position cannot reach lies past
/// the end.
pub open spec fn reach(reads: Reads, pos: int, n: int) -> Result<Seq<u8>, Seq<char>> {
    if pos + n > u64::MAX {
        Err(short_read())
    } else {
        reads(pos, n)
    }
}

/// Reads exactly `n` bytes at `pos`, wherever that is.
pub fn read_wide<S: ByteSource>(source: &mut S, pos: u128, n: u64, label: &str) -> (r: Result<
    Vec<u8>,
    String,
>)
    ensures
        final(source).reads() == old(source).reads(),
        outcome(r) == labelled(reach(old(source).reads(), pos as int, n as int), label@),
        r matches Ok(b) ==> b@.len() == n && pos + n <= u64::MAX,
{
    if pos > (0xffff_ffff_ffff_ffff - n) as u128 {
        return Err(crate::text::join2(label, "failed to fill whole buffer"));
    }
    read_labelled(source, pos as u64, n, label)
}

/// Reads exactly `n` bytes at `pos`, wherever that is; an error stays as it is.
pub fn read_bare<S: ByteSource>(source: &mut S, pos: u128, n: u64) -> (r: Result<Vec<u8>, String>)
    ensures
        final(source).reads() == old(source).reads(),
        outcome(r) == reach(old(source).reads(), pos as int, n as int),
        r matches Ok(b) ==> b@.len() == n && pos + n <= u64::MAX,
{
    if pos > (0xffff_ffff_ffff_ffff - n) as u128 {
        return Err("failed to fill whole buffer".to_owned());
    }
    source.read_exact_at(pos as u64, n)
}

/// A result with bytes in front.
pub open spec fn after(head: Seq<u8>, r: Result<Seq<u8>, Seq<char>>) -> Result<Seq<u8>, Seq<char>> {
    match r {
        Ok(b) => Ok(head + b),
        Err(e) => Err(e),
    }
}

/// Puts a label in front of a decoder's error.
pub fn label_error(r: Result<Vec<u8>, String>, label: &str) -> (l: Result<Vec<u8>, String>)
    ensures
        outcome(l) == labelled(outcome(r), label@),
{
    match r {
        Ok(b) => Ok(b),
        Err(e) => Err(crate::text::join2(label, e.as_str())),
    }
}

/// Whether each read that succeeds gives as many bytes as were asked for.
pub open spec fn exact(reads: Reads) -> bool {
    forall|pos: int, n: int| (#[trigger] reads(pos, n)) matches Ok(b) ==> b.len() == n
}

/// The reads of a source in memory give as many bytes as are asked for.
pub proof fn memory_is_exact(image: Seq<u8>)
    ensures
        exact(reads_of(image)),
{
}

/// Parts of `size` bytes each, one after the other.
pub open spec fn end_to_end(parts: Seq<Seq<u8>>, size: int) -> Seq<u8> {
    Seq::new((parts.len() * size) as nat, |i: int| parts[i / size][i % size])
}

/// An image of parts of one size, with bytes in front and behind.
pub open spec fn image_of(front: Seq<u8>, parts: Seq<Seq<u8>>, size: int, rest: Seq<u8>) -> Seq<u8> {
    front + end_to_end(parts, size) + rest
}

/// Each part of an image is read where those before it end.
pub proof fn parts_follow_each_other(
    front: Seq<u8>,
    parts: Seq<Seq<u8>>,
    size: int,
    rest: Seq<u8>,
    k: int,
)
    requires
        size > 0,
        0 <= k < parts.len(),
        parts[k].len() == size,
    ensures
        0 <= k * size,
        k * size + size <= parts.len() * size,
        image_of(front, parts, size, rest).len() == front.len() + parts.len() * size + rest.len(),
        reads_of(image_of(front, parts, size, rest))(front.len() + k * size, size) == Ok::<
            Seq<u8>,
            Seq<char>,
        >(parts[k]),
{
    let image = image_of(front, parts, size, rest);
    let n = parts.len() as int;
    assert(0 <= k * size && k * size + size <= n * size) by (nonlinear_arith)
        requires
            0 <= k < n,
            size > 0,
    ;
    let at = front.len() + k * size;
    assert forall|j: int| 0 <= j < size implies image.subrange(at, at + size)[j] == parts[k][j] by {
        lemma_within_part(k, size, j);
    }
    assert(image.subrange(at, at + size) =~= parts[k]);
}

/// The byte `j` of the part `k` among parts of `size` bytes.
pub proof fn lemma_within_part(k: int, size: int, j: int)
    requires
        0 <= k,
        0 <= j < size,
    ensures
        (k * size + j) / size == k,
        (k * size + j) % size == j,
{
    vstd::arithmetic::div_mod::lemma_fundamental_div_mod_converse(k * size + j, size, k, j);
}

} // verus!
