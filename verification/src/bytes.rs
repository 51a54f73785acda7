//! Fixed-width integers and byte patterns inside byte slices.
use vstd::prelude::*;
use vstd::slice::*;

verus! {

/// The 16-bit little-endian value whose first byte is at `off`.
pub open spec fn le16_at(s: Seq<u8>, off: int) -> int {
    s[off] + 0x100 * s[off + 1]
}

/// The 32-bit little-endian value whose first byte is at `off`.
pub open spec fn le32_at(s: Seq<u8>, off: int) -> int {
    s[off] + 0x100 * s[off + 1] + 0x1_0000 * s[off + 2] + 0x100_0000 * s[off + 3]
}

/// The 64-bit little-endian value whose first byte is at `off`.
pub open spec fn le64_at(s: Seq<u8>, off: int) -> int {
    le32_at(s, off) + 0x1_0000_0000 * le32_at(s, off + 4)
}

/// The 16-bit big-endian value whose first byte is at `off`.
pub open spec fn be16_at(s: Seq<u8>, off: int) -> int {
    0x100 * s[off] + s[off + 1]
}

/// The 24-bit big-endian value whose first byte is at `off`.
pub open spec fn be24_at(s: Seq<u8>, off: int) -> int {
    0x1_0000 * s[off] + 0x100 * s[off + 1] + s[off + 2]
}

/// The 32-bit big-endian value whose first byte is at `off`.
pub open spec fn be32_at(s: Seq<u8>, off: int) -> int {
    0x100_0000 * s[off] + 0x1_0000 * s[off + 1] + 0x100 * s[off + 2] + s[off + 3]
}

/// The 64-bit big-endian value whose first byte is at `off`.
pub open spec fn be64_at(s: Seq<u8>, off: int) -> int {
    0x1_0000_0000 * be32_at(s, off) + be32_at(s, off + 4)
}

/// Whether the bytes `pat` stand in `s` at `off`.
pub open spec fn has_at(s: Seq<u8>, off: int, pat: Seq<u8>) -> bool {
    0 <= off && off + pat.len() <= s.len() && s.subrange(off, off + pat.len()) == pat
}

/// The bytes of `s` from `off` on, `n` of them.
pub open spec fn window(s: Seq<u8>, off: int, n: int) -> Seq<u8> {
    s.subrange(off, off + n)
}

/// The first index at or after `from` whose byte is `b`, or the length of `s`.
pub open spec fn find_byte(s: Seq<u8>, from: int, b: u8) -> int
    decreases s.len() - from,
{
    if from >= s.len() {
        s.len() as int
    } else if s[from] == b {
        from
    } else {
        find_byte(s, from + 1, b)
    }
}

/// Reads the 16-bit little-endian value at `off`.
pub fn read_u16_le(data: &[u8], off: usize) -> (v: u16)
    requires
        off + 2 <= data@.len(),
    ensures
        v == le16_at(data@, off as int),
{
    data[off] as u16 + 0x100u16 * (data[off + 1] as u16)
}

/// Reads the 32-bit little-endian value at `off`.
pub fn read_u32_le(data: &[u8], off: usize) -> (v: u32)
    requires
        off + 4 <= data@.len(),
    ensures
        v == le32_at(data@, off as int),
{
    data[off] as u32 + 0x100u32 * (data[off + 1] as u32) + 0x1_0000u32 * (data[off + 2] as u32)
        + 0x100_0000u32 * (data[off + 3] as u32)
}

/// Reads the 64-bit little-endian value at `off`.
pub fn read_u64_le(data: &[u8], off: usize) -> (v: u64)
    requires
        off + 8 <= data@.len(),
    ensures
        v == le64_at(data@, off as int),
{
    assert(off + 8 <= data.len());
    read_u32_le(data, off) as u64 + 0x1_0000_0000u64 * (read_u32_le(data, off + 4) as u64)
}

/// Reads the 16-bit big-endian value at `off`.
pub fn read_u16_be(data: &[u8], off: usize) -> (v: u16)
    requires
        off + 2 <= data@.len(),
    ensures
        v == be16_at(data@, off as int),
{
    0x100u16 * (data[off] as u16) + data[off + 1] as u16
}

/// Reads the 24-bit big-endian value at `off`.
pub fn read_u24_be(data: &[u8], off: usize) -> (v: u32)
    requires
        off + 3 <= data@.len(),
    ensures
        v == be24_at(data@, off as int),
{
    0x1_0000u32 * (data[off] as u32) + 0x100u32 * (data[off + 1] as u32) + data[off + 2] as u32
}

/// Reads the 32-bit big-endian value at `off`.
pub fn read_u32_be(data: &[u8], off: usize) -> (v: u32)
    requires
        off + 4 <= data@.len(),
    ensures
        v == be32_at(data@, off as int),
{
    0x100_0000u32 * (data[off] as u32) + 0x1_0000u32 * (data[off + 1] as u32) + 0x100u32 * (
    data[off + 2] as u32) + data[off + 3] as u32
}

/// Reads the 64-bit big-endian value at `off`.
pub fn read_u64_be(data: &[u8], off: usize) -> (v: u64)
    requires
        off + 8 <= data@.len(),
    ensures
        v == be64_at(data@, off as int),
{
    assert(off + 8 <= data.len());
    0x1_0000_0000u64 * (read_u32_be(data, off) as u64) + read_u32_be(data, off + 4) as u64
}

/// The bytes of `data` from `from` up to `to`.
pub fn cut(data: &[u8], from: usize, to: usize) -> (r: Vec<u8>)
    requires
        from <= to <= data@.len(),
    ensures
        r@ == data@.subrange(from as int, to as int),
{
    slice_to_vec(slice_subrange(data, from, to))
}

/// Whether two byte slices hold the same bytes.
pub fn same_bytes(a: &[u8], b: &[u8]) -> (r: bool)
    ensures
        r == (a@ == b@),
{
    if a.len() != b.len() {
        return false;
    }
    let mut i: usize = 0;
    while i < a.len()
        invariant
            a@.len() == b@.len(),
            0 <= i <= a@.len(),
            forall|j: int| 0 <= j < i ==> a@[j] == b@[j],
        decreases a@.len() - i,
    {
        if a[i] != b[i] {
            return false;
        }
        i += 1;
    }
    assert(a@ =~= b@);
    true
}

/// Whether the bytes `pat` stand in `data` at `off`.
pub fn bytes_at(data: &[u8], off: usize, pat: &[u8]) -> (r: bool)
    ensures
        r == has_at(data@, off as int, pat@),
{
    if pat.len() > data.len() || off > data.len() - pat.len() {
        return false;
    }
    same_bytes(slice_subrange(data, off, off + pat.len()), pat)
}

/// The first index at or after `from` whose byte is `b`, or the length of `data`.
pub fn find_byte_from(data: &[u8], from: usize, b: u8) -> (r: usize)
    requires
        from <= data@.len(),
    ensures
        r == find_byte(data@, from as int, b),
        from <= r <= data@.len(),
{
    let mut i: usize = from;
    while i < data.len()
        invariant
            from <= i <= data@.len(),
            find_byte(data@, from as int, b) == find_byte(data@, i as int, b),
        decreases data@.len() - i,
    {
        if data[i] == b {
            return i;
        }
        i += 1;
    }
    i
}

/// `n` zero bytes.
pub open spec fn zeros(n: int) -> Seq<u8> {
    Seq::new(n as nat, |i: int| 0u8)
}

/// `s` cut or filled up with zeros to `n` bytes.
pub open spec fn resized(s: Seq<u8>, n: int) -> Seq<u8> {
    if s.len() >= n {
        s.take(n)
    } else {
        s + zeros(n - s.len())
    }
}

/// `s` with the bytes `b` in place of those at `at`.
pub open spec fn patched(s: Seq<u8>, at: int, b: Seq<u8>) -> Seq<u8> {
    s.take(at) + b + s.skip(at + b.len())
}

/// `n` zero bytes.
pub fn zeroes(n: u64) -> (r: Vec<u8>)
    ensures
        r@ == zeros(n as int),
{
    let mut r: Vec<u8> = Vec::new();
    let mut i: u64 = 0;
    while i < n
        invariant
            i <= n,
            r@ == zeros(i as int),
        decreases n - i,
    {
        r.push(0);
        i += 1;
        assert(r@ =~= zeros(i as int));
    }
    r
}

/// Cuts `v` to `n` bytes, or fills it up with zeros.
pub fn resize(v: Vec<u8>, n: u64) -> (r: Vec<u8>)
    ensures
        r@ == resized(v@, n as int),
{
    let ghost start = v@;
    let mut r: Vec<u8> = v;
    if r.len() as u64 >= n {
        r.truncate(n as usize);
        assert(r@ =~= start.take(n as int));
        return r;
    }
    assert(r@ =~= start + zeros(r@.len() - start.len()));
    while (r.len() as u64) < n
        invariant
            start.len() <= r@.len() <= n,
            r@ == start + zeros(r@.len() - start.len()),
        decreases n - r@.len(),
    {
        let ghost before = r@;
        r.push(0);
        assert(r@ =~= start + zeros(r@.len() - start.len()));
    }
    r
}

/// Puts the bytes `b` in place of those of `v` at `at`.
pub fn patch(v: &mut Vec<u8>, at: usize, b: &[u8])
    requires
        at + b@.len() <= old(v)@.len(),
    ensures
        final(v)@ == patched(old(v)@, at as int, b@),
{
    let ghost start = v@;
    let end: usize = v.len();
    let mut i: usize = 0;
    assert(v@ =~= patched(start, at as int, b@.take(0)));
    while i < b.len()
        invariant
            i <= b@.len(),
            end == start.len(),
            at + b@.len() <= end,
            v@ == patched(start, at as int, b@.take(i as int)),
        decreases b@.len() - i,
    {
        v[at + i] = b[i];
        assert(v@ =~= patched(start, at as int, b@.take(i + 1)));
        i += 1;
    }
    assert(b@.take(i as int) =~= b@);
}

/// What `find_byte` finds: the first `b` at or after `from`.
pub proof fn lemma_find_byte(s: Seq<u8>, from: int, b: u8)
    requires
        0 <= from <= s.len(),
    ensures
        from <= find_byte(s, from, b) <= s.len(),
        find_byte(s, from, b) < s.len() ==> s[find_byte(s, from, b)] == b,
        forall|j: int| from <= j < find_byte(s, from, b) ==> s[j] != b,
    decreases s.len() - from,
{
    if from < s.len() && s[from] != b {
        lemma_find_byte(s, from + 1, b);
    }
}

/// The little-endian notation of `v` in `n` bytes.
pub open spec fn le_bytes(v: int, n: nat) -> Seq<u8>
    decreases n,
{
    if n == 0 {
        seq![]
    } else {
        seq![(v % 0x100) as u8] + le_bytes(v / 0x100, (n - 1) as nat)
    }
}

/// The little-endian notation of `v` in `n` bytes.
pub fn write_le(v: u64, n: usize) -> (r: Vec<u8>)
    ensures
        r@ == le_bytes(v as int, n as nat),
{
    let mut r: Vec<u8> = Vec::new();
    let mut left: usize = n;
    let mut x: u64 = v;
    assert(r@ + le_bytes(x as int, left as nat) =~= le_bytes(v as int, n as nat));
    while left > 0
        invariant
            r@ + le_bytes(x as int, left as nat) == le_bytes(v as int, n as nat),
        decreases left,
    {
        let ghost before = r@;
        r.push((x % 0x100) as u8);
        assert(r@ + le_bytes(x as int / 0x100, (left - 1) as nat) =~= before + (seq![
            (x as int % 0x100) as u8,
        ] + le_bytes(x as int / 0x100, (left - 1) as nat)));
        x = x / 0x100;
        left -= 1;
    }
    assert(r@ + le_bytes(x as int, 0) =~= r@);
    r
}

/// The big-endian notation of `v` in `n` bytes.
pub open spec fn be_bytes(v: int, n: nat) -> Seq<u8>
    decreases n,
{
    if n == 0 {
        seq![]
    } else {
        be_bytes(v / 0x100, (n - 1) as nat).push((v % 0x100) as u8)
    }
}

/// The big-endian notation of `v` in `n` bytes.
pub fn write_be(v: u64, n: usize) -> (r: Vec<u8>)
    ensures
        r@ == be_bytes(v as int, n as nat),
    decreases n,
{
    if n == 0 {
        Vec::new()
    } else {
        let mut r: Vec<u8> = write_be(v / 0x100, n - 1);
        r.push((v % 0x100) as u8);
        r
    }
}

/// A little-endian field holds the value that was written into it.
pub proof fn lemma_le_bytes(v: int, s: Seq<u8>)
    requires
        0 <= v,
    ensures
        v <= u32::MAX && s == le_bytes(v, 4) ==> s.len() == 4 && le32_at(s, 0) == v,
        v <= u64::MAX && s == le_bytes(v, 8) ==> s.len() == 8 && le64_at(s, 0) == v,
{
    reveal_with_fuel(le_bytes, 9);
}

/// Whether the characters of `t` stand in `s` at `off`, one byte each.
pub open spec fn spells(s: Seq<u8>, off: int, t: Seq<char>) -> bool {
    &&& 0 <= off
    &&& off + t.len() <= s.len()
    &&& forall|i: int| 0 <= i < t.len() ==> s[off + i] as u32 == #[trigger] t[i] as u32
}

/// Whether the characters of `t` stand in `data` at `off`, one byte each.
pub fn spells_at(data: &[u8], off: usize, t: &str) -> (r: bool)
    ensures
        r == spells(data@, off as int, t@),
{
    let c: Vec<char> = crate::text::chars_of(t);
    if off > data.len() || c.len() > data.len() - off {
        return false;
    }
    let size: usize = data.len();
    let mut i: usize = 0;
    while i < c.len()
        invariant
            size == data@.len(),
            c@ == t@,
            i <= c@.len(),
            off + c@.len() <= data@.len(),
            forall|j: int| 0 <= j < i ==> data@[off + j] as u32 == #[trigger] c@[j] as u32,
        decreases c@.len() - i,
    {
        if data[off + i] as u32 != c[i] as u32 {
            assert(data@[off + i as int] as u32 != t@[i as int] as u32);
            return false;
        }
        i += 1;
    }
    true
}

/// A field holds the number that was written into it, whichever byte comes first.
pub proof fn fields_hold_what_was_written(s: Seq<u8>, off: int, v: int)
    requires
        0 <= v,
    ensures
        v <= 0xFFFF && has_at(s, off, le_bytes(v, 2)) ==> le16_at(s, off) == v,
        v <= 0xFFFF_FFFF && has_at(s, off, le_bytes(v, 4)) ==> le32_at(s, off) == v,
        v <= 0xFFFF_FFFF_FFFF_FFFF && has_at(s, off, le_bytes(v, 8)) ==> le64_at(s, off) == v,
        v <= 0xFFFF && has_at(s, off, be_bytes(v, 2)) ==> be16_at(s, off) == v,
        v <= 0xFF_FFFF && has_at(s, off, be_bytes(v, 3)) ==> be24_at(s, off) == v,
        v <= 0xFFFF_FFFF && has_at(s, off, be_bytes(v, 4)) ==> be32_at(s, off) == v,
        v <= 0xFFFF_FFFF_FFFF_FFFF && has_at(s, off, be_bytes(v, 8)) ==> be64_at(s, off) == v,
{
    lemma_le_field(s, off, v);
    lemma_be_field(s, off, v);
}

proof fn lemma_le_field(s: Seq<u8>, off: int, v: int)
    requires
        0 <= v,
    ensures
        v <= 0xFFFF && has_at(s, off, le_bytes(v, 2)) ==> le16_at(s, off) == v,
        v <= 0xFFFF_FFFF && has_at(s, off, le_bytes(v, 4)) ==> le32_at(s, off) == v,
        v <= 0xFFFF_FFFF_FFFF_FFFF && has_at(s, off, le_bytes(v, 8)) ==> le64_at(s, off) == v,
{
    reveal_with_fuel(le_bytes, 9);
    if has_at(s, off, le_bytes(v, 2)) {
        let t = s.subrange(off, off + 2);
        assert(t[0] == s[off] && t[1] == s[off + 1]);
    }
    if has_at(s, off, le_bytes(v, 4)) {
        let t = s.subrange(off, off + 4);
        lemma_le_bytes(v, t);
        assert(t[0] == s[off] && t[1] == s[off + 1] && t[2] == s[off + 2] && t[3] == s[off + 3]);
    }
    if has_at(s, off, le_bytes(v, 8)) {
        let t = s.subrange(off, off + 8);
        lemma_le_bytes(v, t);
        assert(t[0] == s[off] && t[1] == s[off + 1] && t[2] == s[off + 2] && t[3] == s[off + 3]);
        assert(t[4] == s[off + 4] && t[5] == s[off + 5] && t[6] == s[off + 6] && t[7] == s[off
            + 7]);
    }
}

proof fn lemma_be_field(s: Seq<u8>, off: int, v: int)
    requires
        0 <= v,
    ensures
        v <= 0xFFFF && has_at(s, off, be_bytes(v, 2)) ==> be16_at(s, off) == v,
        v <= 0xFF_FFFF && has_at(s, off, be_bytes(v, 3)) ==> be24_at(s, off) == v,
        v <= 0xFFFF_FFFF && has_at(s, off, be_bytes(v, 4)) ==> be32_at(s, off) == v,
        v <= 0xFFFF_FFFF_FFFF_FFFF && has_at(s, off, be_bytes(v, 8)) ==> be64_at(s, off) == v,
{
    reveal_with_fuel(be_bytes, 9);
    if has_at(s, off, be_bytes(v, 2)) {
        let t = s.subrange(off, off + 2);
        assert(t[0] == s[off] && t[1] == s[off + 1]);
    }
    if has_at(s, off, be_bytes(v, 3)) {
        let t = s.subrange(off, off + 3);
        assert(t[0] == s[off] && t[1] == s[off + 1] && t[2] == s[off + 2]);
    }
    if has_at(s, off, be_bytes(v, 4)) {
        let t = s.subrange(off, off + 4);
        assert(t[0] == s[off] && t[1] == s[off + 1] && t[2] == s[off + 2] && t[3] == s[off + 3]);
    }
    if has_at(s, off, be_bytes(v, 8)) {
        let t = s.subrange(off, off + 8);
        assert(t[0] == s[off] && t[1] == s[off + 1] && t[2] == s[off + 2] && t[3] == s[off + 3]);
        assert(t[4] == s[off + 4] && t[5] == s[off + 5] && t[6] == s[off + 6] && t[7] == s[off
            + 7]);
    }
}

/// A number is written in as many bytes as it is given.
pub proof fn lemma_notation_len(v: int, n: nat)
    ensures
        le_bytes(v, n).len() == n,
        be_bytes(v, n).len() == n,
    decreases n,
{
    if n > 0 {
        lemma_notation_len(v / 0x100, (n - 1) as nat);
    }
}

/// What stands in a part of a sequence stands in the whole at that place.
pub proof fn lemma_has_in_part(s: Seq<u8>, p: int, part: Seq<u8>, off: int, pat: Seq<u8>)
    requires
        has_at(s, p, part),
        has_at(part, off, pat),
    ensures
        has_at(s, p + off, pat),
{
    let w = s.subrange(p, p + part.len());
    assert(s.subrange(p + off, p + off + pat.len()) =~= w.subrange(off, off + pat.len()));
}

} // verus!
