//! Text as sequences of characters: splitting, trimming, numbers.
use vstd::prelude::*;
use crate::bytes;
use vstd::slice::*;
use vstd::utf8::*;

verus! {

// ── Outside functions ───────────────────────────────────────────────────────

/// `String::push` appends one character to the end of the string.
pub assume_specification[ String::push ](s: &mut String, c: char)
    ensures
        final(s)@ == old(s)@.push(c),
;

/// What `str::to_lowercase` makes of a text.
pub uninterp spec fn lowercase(s: Seq<char>) -> Seq<char>;

/// What `str::to_uppercase` makes of a text.
pub uninterp spec fn uppercase(s: Seq<char>) -> Seq<char>;

/// What `String::from_utf8_lossy` makes of bytes.
pub uninterp spec fn utf8_lossy(b: Seq<u8>) -> Seq<char>;

/// The text of bytes: valid UTF-8 is decoded, and of other bytes the ill-formed ones
/// are replaced.
pub open spec fn utf8_text(b: Seq<u8>) -> Seq<char> {
    if valid_utf8(b) {
        decode_utf8(b)
    } else {
        utf8_lossy(b)
    }
}

/// `str::to_lowercase`: the result is a function of the text alone.
#[verifier::external_body]
pub(crate) fn to_lowercase(s: &str) -> (r: String)
    ensures
        r@ == lowercase(s@),
{
    s.to_lowercase()
}

/// `str::to_uppercase`: the result is a function of the text alone.
#[verifier::external_body]
pub(crate) fn to_uppercase(s: &str) -> (r: String)
    ensures
        r@ == uppercase(s@),
{
    s.to_uppercase()
}

/// `String::from_utf8_lossy`: valid UTF-8 is decoded; what ill-formed bytes
/// become is a function of the bytes alone.
#[verifier::external_body]
pub(crate) fn from_utf8_lossy(b: &[u8]) -> (r: String)
    ensures
        r@ == utf8_lossy(b@),
        valid_utf8(b@) ==> r@ == decode_utf8(b@),
{
    String::from_utf8_lossy(b).into_owned()
}

/// `std::str::from_utf8`: the decoded text of valid UTF-8, nothing for other bytes.
#[verifier::external_body]
pub(crate) fn from_utf8(b: &[u8]) -> (r: Option<String>)
    ensures
        r is Some <==> valid_utf8(b@),
        r matches Some(t) ==> t@ == decode_utf8(b@),
{
    match std::str::from_utf8(b) {
        Ok(t) => Some(t.to_string()),
        Err(_) => None,
    }
}

// ── Characters and strings ──────────────────────────────────────────────────

/// The texts that a list of character vectors holds.
pub open spec fn texts(v: Seq<Vec<char>>) -> Seq<Seq<char>> {
    Seq::new(v.len(), |i: int| v[i]@)
}

/// The texts that a list of strings holds.
pub open spec fn views(v: Seq<String>) -> Seq<Seq<char>> {
    Seq::new(v.len(), |i: int| v[i]@)
}

/// The characters of a string, one by one.
pub fn chars_of(s: &str) -> (r: Vec<char>)
    ensures
        r@ == s@,
{
    let mut r: Vec<char> = Vec::new();
    for c in it: s.chars()
        invariant
            it.seq() == s@,
            r@ == s@.take(it.index() as int),
    {
        r.push(c);
        assert(s@.take(it.index() + 1) =~= s@.take(it.index() as int).push(c));
    }
    assert(s@.take(s@.len() as int) =~= s@);
    r
}

/// The string made of the given characters.
pub fn string_of(v: &[char]) -> (r: String)
    ensures
        r@ == v@,
{
    let mut r: String = String::new();
    let mut i: usize = 0;
    while i < v.len()
        invariant
            i <= v@.len(),
            r@ == v@.take(i as int),
        decreases v@.len() - i,
    {
        r.push(v[i]);
        assert(v@.take(i + 1) =~= v@.take(i as int).push(v@[i as int]));
        i += 1;
    }
    assert(v@.take(v@.len() as int) =~= v@);
    r
}

/// The characters of `s` from `from` up to `to`.
pub fn cut_chars(s: &[char], from: usize, to: usize) -> (r: Vec<char>)
    requires
        from <= to <= s@.len(),
    ensures
        r@ == s@.subrange(from as int, to as int),
{
    slice_to_vec(slice_subrange(s, from, to))
}

/// Whether two character slices hold the same text.
pub fn same_chars(a: &[char], b: &[char]) -> (r: bool)
    ensures
        r == (a@ == b@),
{
    if a.len() != b.len() {
        return false;
    }
    let mut i: usize = 0;
    while i < a.len()
        invariant
            a@.len() == b@.len(),
            0 <= i <= a@.len(),
            forall|j: int| 0 <= j < i ==> a@[j] == b@[j],
        decreases a@.len() - i,
    {
        if a[i] != b[i] {
            return false;
        }
        i += 1;
    }
    assert(a@ =~= b@);
    true
}

/// Whether the characters of `s` are the text `t`.
pub fn is_text(s: &[char], t: &str) -> (r: bool)
    ensures
        r == (s@ == t@),
{
    let c: Vec<char> = chars_of(t);
    same_chars(s, c.as_slice())
}

/// Whether two strings hold the same text.
pub fn same_text(a: &str, b: &str) -> (r: bool)
    ensures
        r == (a@ == b@),
{
    let c: Vec<char> = chars_of(a);
    is_text(c.as_slice(), b)
}

/// Whether `s` begins with `p`.
pub open spec fn begins(s: Seq<char>, p: Seq<char>) -> bool {
    p.len() <= s.len() && s.subrange(0, p.len() as int) == p
}

/// Whether `s` ends with `p`.
pub open spec fn ends(s: Seq<char>, p: Seq<char>) -> bool {
    p.len() <= s.len() && s.subrange(s.len() - p.len(), s.len() as int) == p
}

/// Whether `s` begins with the text `p`.
pub fn starts_with(s: &[char], p: &str) -> (r: bool)
    ensures
        r == begins(s@, p@),
{
    let c: Vec<char> = chars_of(p);
    if c.len() > s.len() {
        return false;
    }
    same_chars(slice_subrange(s, 0, c.len()), c.as_slice())
}

/// Whether `s` ends with the text `p`.
pub fn ends_with(s: &[char], p: &str) -> (r: bool)
    ensures
        r == ends(s@, p@),
{
    let c: Vec<char> = chars_of(p);
    if c.len() > s.len() {
        return false;
    }
    same_chars(slice_subrange(s, s.len() - c.len(), s.len()), c.as_slice())
}

/// The texts `a` and `b` one after the other.
pub fn join2(a: &str, b: &str) -> (r: String)
    ensures
        r@ == a@ + b@,
{
    let mut r: String = a.to_owned();
    r.append(b);
    r
}

/// The texts `a`, `b` and `c` one after the other.
pub fn join3(a: &str, b: &str, c: &str) -> (r: String)
    ensures
        r@ == a@ + b@ + c@,
{
    let mut r: String = a.to_owned();
    r.append(b);
    r.append(c);
    r
}

/// `s` with `/` for every `\`.
pub open spec fn with_slashes(s: Seq<char>) -> Seq<char> {
    Seq::new(
        s.len(),
        |i: int|
            if s[i] == '\\' {
                '/'
            } else {
                s[i]
            },
    )
}

/// `s` with `/` for every `\`.
pub fn turn_slashes(s: &[char]) -> (r: Vec<char>)
    ensures
        r@ == with_slashes(s@),
{
    let mut t: Vec<char> = Vec::new();
    let mut i: usize = 0;
    while i < s.len()
        invariant
            i <= s@.len(),
            t@ == with_slashes(s@).take(i as int),
        decreases s@.len() - i,
    {
        let x: char = s[i];
        t.push(
            if x == '\\' {
                '/'
            } else {
                x
            },
        );
        assert(t@ =~= with_slashes(s@).take(i + 1));
        i += 1;
    }
    assert(t@ =~= with_slashes(s@));
    t
}

// ── Searching ───────────────────────────────────────────────────────────────

/// The first index at or after `from` whose character is `c`, or the length of `s`.
pub open spec fn find_char(s: Seq<char>, from: int, c: char) -> int
    decreases s.len() - from,
{
    if from >= s.len() {
        s.len() as int
    } else if s[from] == c {
        from
    } else {
        find_char(s, from + 1, c)
    }
}

/// What `find_char` finds: the first `c` at or after `from`.
pub proof fn lemma_find_char(s: Seq<char>, from: int, c: char)
    requires
        0 <= from <= s.len(),
    ensures
        from <= find_char(s, from, c) <= s.len(),
        find_char(s, from, c) < s.len() ==> s[find_char(s, from, c)] == c,
        forall|j: int| from <= j < find_char(s, from, c) ==> s[j] != c,
    decreases s.len() - from,
{
    if from < s.len() && s[from] != c {
        lemma_find_char(s, from + 1, c);
    }
}

/// The first index at or after `from` whose character is `c`, or the length of `s`.
pub fn find_char_from(s: &[char], from: usize, c: char) -> (r: usize)
    requires
        from <= s@.len(),
    ensures
        r == find_char(s@, from as int, c),
        from <= r <= s@.len(),
{
    let mut i: usize = from;
    while i < s.len()
        invariant
            from <= i <= s@.len(),
            find_char(s@, from as int, c) == find_char(s@, i as int, c),
        decreases s@.len() - i,
    {
        if s[i] == c {
            return i;
        }
        i += 1;
    }
    i
}

/// The first index at or after `from` where the text `p` stands in `s`, or `-1`.
pub open spec fn find_text(s: Seq<char>, p: Seq<char>, from: int) -> int
    decreases s.len() - from,
{
    if from < 0 || from + p.len() > s.len() {
        -1
    } else if s.subrange(from, from + p.len()) == p {
        from
    } else if from == s.len() {
        -1
    } else {
        find_text(s, p, from + 1)
    }
}

/// The first index where the text `p` stands in `s`.
pub fn find_str(s: &[char], p: &str) -> (r: Option<usize>)
    ensures
        r is None <==> find_text(s@, p@, 0) == -1,
        r matches Some(i) ==> i == find_text(s@, p@, 0) && i + p@.len() <= s@.len(),
{
    let c: Vec<char> = chars_of(p);
    let mut i: usize = 0;
    loop
        invariant
            c@ == p@,
            i <= s@.len(),
            find_text(s@, p@, 0) == find_text(s@, p@, i as int),
        decreases s@.len() - i,
    {
        if c.len() > s.len() - i {
            return None;
        }
        if same_chars(slice_subrange(s, i, i + c.len()), c.as_slice()) {
            return Some(i);
        }
        if i == s.len() {
            return None;
        }
        i += 1;
    }
}

// ── Trimming ────────────────────────────────────────────────────────────────

/// Whether a character has the Unicode property `White_Space`.
pub open spec fn is_white(c: char) -> bool {
    let v = c as u32;
    ||| 0x9 <= v <= 0xd
    ||| v == 0x20
    ||| v == 0x85
    ||| v == 0xa0
    ||| v == 0x1680
    ||| 0x2000 <= v <= 0x200a
    ||| v == 0x2028
    ||| v == 0x2029
    ||| v == 0x202f
    ||| v == 0x205f
    ||| v == 0x3000
}

/// Whether a character has the Unicode property `White_Space`.
pub fn is_whitespace(c: char) -> (r: bool)
    ensures
        r == is_white(c),
{
    let v: u32 = c as u32;
    (0x9 <= v && v <= 0xd) || v == 0x20 || v == 0x85 || v == 0xa0 || v == 0x1680 || (0x2000 <= v
        && v <= 0x200a) || v == 0x2028 || v == 0x2029 || v == 0x202f || v == 0x205f || v == 0x3000
}

/// `s` without the white space at its start.
pub open spec fn trim_front(s: Seq<char>) -> Seq<char>
    decreases s.len(),
{
    if s.len() > 0 && is_white(s[0]) {
        trim_front(s.skip(1))
    } else {
        s
    }
}

/// `s` without the white space at its end.
pub open spec fn trim_back(s: Seq<char>) -> Seq<char>
    decreases s.len(),
{
    if s.len() > 0 && is_white(s.last()) {
        trim_back(s.drop_last())
    } else {
        s
    }
}

/// `s` without the white space at either end.
pub open spec fn trimmed(s: Seq<char>) -> Seq<char> {
    trim_back(trim_front(s))
}

/// `s` without the characters `c` at its start.
pub open spec fn strip_front(s: Seq<char>, c: char) -> Seq<char>
    decreases s.len(),
{
    if s.len() > 0 && s[0] == c {
        strip_front(s.skip(1), c)
    } else {
        s
    }
}

/// `s` without the characters `c` at its end.
pub open spec fn strip_back(s: Seq<char>, c: char) -> Seq<char>
    decreases s.len(),
{
    if s.len() > 0 && s.last() == c {
        strip_back(s.drop_last(), c)
    } else {
        s
    }
}

/// `s` without the white space at either end.
pub fn trim(s: &[char]) -> (r: Vec<char>)
    ensures
        r@ == trimmed(s@),
{
    let n: usize = s.len();
    let mut a: usize = 0;
    assert(s@.skip(0) =~= s@);
    while a < n && is_whitespace(s[a])
        invariant
            n == s@.len(),
            a <= n,
            trim_front(s@) == trim_front(s@.skip(a as int)),
        decreases n - a,
    {
        assert(s@.skip(a as int).skip(1) =~= s@.skip(a + 1));
        a += 1;
    }
    let mut b: usize = n;
    assert(s@.subrange(a as int, n as int) =~= s@.skip(a as int));
    while b > a && is_whitespace(s[b - 1])
        invariant
            n == s@.len(),
            a <= b <= n,
            trim_back(s@.skip(a as int)) == trim_back(s@.subrange(a as int, b as int)),
        decreases b,
    {
        assert(s@.subrange(a as int, b as int).drop_last() =~= s@.subrange(a as int, b - 1));
        b -= 1;
    }
    cut_chars(s, a, b)
}

/// `s` without the characters `c` at its start.
pub fn trim_start_of(s: &[char], c: char) -> (r: Vec<char>)
    ensures
        r@ == strip_front(s@, c),
{
    let n: usize = s.len();
    let mut a: usize = 0;
    assert(s@.skip(0) =~= s@);
    while a < n && s[a] == c
        invariant
            n == s@.len(),
            a <= n,
            strip_front(s@, c) == strip_front(s@.skip(a as int), c),
        decreases n - a,
    {
        assert(s@.skip(a as int).skip(1) =~= s@.skip(a + 1));
        a += 1;
    }
    assert(s@.subrange(a as int, n as int) =~= s@.skip(a as int));
    cut_chars(s, a, n)
}

/// `s` without the characters `c` at its end.
pub fn trim_end_of(s: &[char], c: char) -> (r: Vec<char>)
    ensures
        r@ == strip_back(s@, c),
{
    let mut b: usize = s.len();
    assert(s@.take(b as int) =~= s@);
    while b > 0 && s[b - 1] == c
        invariant
            b <= s@.len(),
            strip_back(s@, c) == strip_back(s@.take(b as int), c),
        decreases b,
    {
        assert(s@.take(b as int).drop_last() =~= s@.take(b - 1));
        b -= 1;
    }
    assert(s@.subrange(0, b as int) =~= s@.take(b as int));
    cut_chars(s, 0, b)
}

// ── Splitting ───────────────────────────────────────────────────────────────

/// The pieces of `s` between the separators `c`; an empty text is one empty piece.
pub open spec fn split_on(s: Seq<char>, c: char) -> Seq<Seq<char>>
    decreases s.len(),
{
    let i = find_char(s, 0, c);
    if 0 <= i < s.len() {
        seq![s.take(i)] + split_on(s.skip(i + 1), c)
    } else {
        seq![s]
    }
}

/// The pieces of `s` between the separators `c`.
pub fn split(s: &[char], c: char) -> (r: Vec<Vec<char>>)
    ensures
        texts(r@) == split_on(s@, c),
        r@.len() > 0,
{
    let n: usize = s.len();
    let mut r: Vec<Vec<char>> = Vec::new();
    let mut a: usize = 0;
    assert(s@.skip(0) =~= s@);
    assert(texts(r@) + split_on(s@, c) =~= split_on(s@, c));
    loop
        invariant
            n == s@.len(),
            a <= n,
            texts(r@) + split_on(s@.skip(a as int), c) == split_on(s@, c),
        decreases n - a,
    {
        let e: usize = find_char_from(s, a, c);
        let ghost rest = s@.skip(a as int);
        proof {
            lemma_find_char(s@, a as int, c);
            lemma_find_char(rest, 0, c);
            let i = find_char(rest, 0, c);
            if i < e - a {
                assert(rest[i] == s@[a + i]);
                assert(false);
            }
            if i > e - a {
                assert(rest[e - a] == s@[e as int]);
                assert(false);
            }
        }
        let piece: Vec<char> = cut_chars(s, a, e);
        assert(piece@ =~= rest.take(e - a));
        let ghost before = r@;
        r.push(piece);
        assert(texts(r@) =~= texts(before) + seq![piece@]);
        if e == n {
            assert(piece@ =~= rest);
            return r;
        }
        assert(rest.skip(e - a + 1) =~= s@.skip(e + 1));
        assert(texts(r@) + split_on(s@.skip(e + 1), c) =~= texts(before) + (seq![piece@] + split_on(
            s@.skip(e + 1),
            c,
        )));
        a = e + 1;
    }
}

/// A line without the carriage return that may end it.
pub open spec fn without_cr(s: Seq<char>) -> Seq<char> {
    if s.len() > 0 && s.last() == '\r' {
        s.drop_last()
    } else {
        s
    }
}

/// The lines of a text: what stands between line feeds, each without a carriage
/// return at its end; nothing follows a final line feed.
pub open spec fn lines_of(s: Seq<char>) -> Seq<Seq<char>>
    decreases s.len(),
{
    let i = find_char(s, 0, '\n');
    if s.len() == 0 {
        seq![]
    } else if 0 <= i < s.len() {
        seq![without_cr(s.take(i))] + lines_of(s.skip(i + 1))
    } else {
        seq![s]
    }
}

/// The lines of a text.
pub fn lines(s: &[char]) -> (r: Vec<Vec<char>>)
    ensures
        texts(r@) == lines_of(s@),
{
    let n: usize = s.len();
    let mut r: Vec<Vec<char>> = Vec::new();
    let mut a: usize = 0;
    assert(s@.skip(0) =~= s@);
    assert(texts(r@) + lines_of(s@) =~= lines_of(s@));
    while a < n
        invariant
            n == s@.len(),
            a <= n,
            texts(r@) + lines_of(s@.skip(a as int)) == lines_of(s@),
        decreases n - a,
    {
        let e: usize = find_char_from(s, a, '\n');
        let ghost rest = s@.skip(a as int);
        proof {
            lemma_find_char(s@, a as int, '\n');
            lemma_find_char(rest, 0, '\n');
            let i = find_char(rest, 0, '\n');
            if i < e - a {
                assert(rest[i] == s@[a + i]);
                assert(false);
            }
            if i > e - a {
                assert(rest[e - a] == s@[e as int]);
                assert(false);
            }
        }
        let ghost before = r@;
        if e == n {
            let piece: Vec<char> = cut_chars(s, a, n);
            assert(piece@ =~= rest);
            r.push(piece);
            assert(texts(r@) =~= texts(before) + seq![piece@]);
            return r;
        }
        let end: usize = if e > a && s[e - 1] == '\r' {
            e - 1
        } else {
            e
        };
        let piece: Vec<char> = cut_chars(s, a, end);
        assert(piece@ =~= without_cr(rest.take(e - a)));
        r.push(piece);
        assert(texts(r@) =~= texts(before) + seq![piece@]);
        assert(rest.skip(e - a + 1) =~= s@.skip(e + 1));
        assert(texts(r@) + lines_of(s@.skip(e + 1)) =~= texts(before) + (seq![piece@] + lines_of(
            s@.skip(e + 1),
        )));
        a = e + 1;
    }
    assert(s@.skip(n as int).len() == 0);
    assert(texts(r@) + lines_of(s@.skip(n as int)) =~= texts(r@));
    r
}

/// The length of the run of non-white characters that starts `s`.
pub open spec fn word_len(s: Seq<char>) -> int
    decreases s.len(),
{
    if s.len() == 0 || is_white(s[0]) {
        0
    } else {
        1 + word_len(s.skip(1))
    }
}

pub proof fn lemma_word_len(s: Seq<char>)
    ensures
        0 <= word_len(s) <= s.len(),
        forall|j: int| 0 <= j < word_len(s) ==> !is_white(s[j]),
        word_len(s) < s.len() ==> is_white(s[word_len(s)]),
    decreases s.len(),
{
    if s.len() > 0 && !is_white(s[0]) {
        lemma_word_len(s.skip(1));
        assert forall|j: int| 0 <= j < word_len(s) implies !is_white(s[j]) by {
            if j > 0 {
                assert(s[j] == s.skip(1)[j - 1]);
            }
        }
    }
}

/// The maximal runs of characters that are not white space.
pub open spec fn words_of(s: Seq<char>) -> Seq<Seq<char>>
    decreases s.len(),
{
    if s.len() == 0 {
        seq![]
    } else if is_white(s[0]) {
        words_of(s.skip(1))
    } else if 0 < word_len(s) <= s.len() {
        seq![s.take(word_len(s))] + words_of(s.skip(word_len(s)))
    } else {
        seq![]
    }
}

/// The maximal runs of characters that are not white space.
pub fn words(s: &[char]) -> (r: Vec<Vec<char>>)
    ensures
        texts(r@) == words_of(s@),
{
    let n: usize = s.len();
    let mut r: Vec<Vec<char>> = Vec::new();
    let mut a: usize = 0;
    assert(s@.skip(0) =~= s@);
    assert(texts(r@) + words_of(s@) =~= words_of(s@));
    while a < n
        invariant
            n == s@.len(),
            a <= n,
            texts(r@) + words_of(s@.skip(a as int)) == words_of(s@),
        decreases n - a,
    {
        let ghost rest = s@.skip(a as int);
        if is_whitespace(s[a]) {
            assert(rest.skip(1) =~= s@.skip(a + 1));
            a += 1;
        } else {
            let mut e: usize = a + 1;
            while e < n && !is_whitespace(s[e])
                invariant
                    n == s@.len(),
                    a < e <= n,
                    forall|j: int| a <= j < e ==> !is_white(s@[j]),
                decreases n - e,
            {
                e += 1;
            }
            proof {
                lemma_word_len(rest);
                let w = word_len(rest);
                if w < e - a {
                    assert(rest[w] == s@[a + w]);
                    assert(false);
                }
                if w > e - a {
                    assert(rest[e - a] == s@[e as int]);
                    assert(false);
                }
            }
            let piece: Vec<char> = cut_chars(s, a, e);
            assert(piece@ =~= rest.take(e - a));
            let ghost before = r@;
            r.push(piece);
            assert(texts(r@) =~= texts(before) + seq![piece@]);
            assert(rest.skip(e - a) =~= s@.skip(e as int));
            assert(texts(r@) + words_of(s@.skip(e as int)) =~= texts(before) + (seq![piece@]
                + words_of(s@.skip(e as int))));
            a = e;
        }
    }
    assert(s@.skip(n as int).len() == 0);
    assert(texts(r@) + words_of(s@.skip(n as int)) =~= texts(r@));
    r
}

// ── ASCII case ──────────────────────────────────────────────────────────────

/// A letter from `a` to `z` in upper case, another character as it is.
pub open spec fn upper(c: char) -> char {
    if 97 <= c as u32 <= 122 {
        ((c as u32) - 32) as char
    } else {
        c
    }
}

/// A letter from `a` to `z` in upper case, another character as it is.
pub fn ascii_upper(c: char) -> (r: char)
    ensures
        r == upper(c),
{
    let v: u32 = c as u32;
    if 97 <= v && v <= 122 {
        (v as u8 - 32) as char
    } else {
        c
    }
}

/// A letter from `A` to `Z` in lower case, another character as it is.
pub open spec fn lower(c: char) -> char {
    if 65 <= c as u32 <= 90 {
        ((c as u32) + 32) as char
    } else {
        c
    }
}

/// A text with its ASCII letters in lower case.
pub open spec fn lowered(s: Seq<char>) -> Seq<char> {
    Seq::new(s.len(), |i: int| lower(s[i]))
}

/// Whether two texts are the same but for the case of ASCII letters.
pub open spec fn alike(a: Seq<char>, b: Seq<char>) -> bool {
    a.len() == b.len() && forall|i: int| 0 <= i < a.len() ==> lower(#[trigger] a[i]) == lower(b[i])
}

/// A letter from `A` to `Z` in lower case, another character as it is.
pub fn ascii_lower(c: char) -> (r: char)
    ensures
        r == lower(c),
{
    let v: u32 = c as u32;
    if 65 <= v && v <= 90 {
        (v as u8 + 32) as char
    } else {
        c
    }
}

/// A text with its ASCII letters in lower case.
pub fn to_ascii_lower(s: &[char]) -> (r: Vec<char>)
    ensures
        r@ == lowered(s@),
{
    let mut r: Vec<char> = Vec::new();
    let mut i: usize = 0;
    while i < s.len()
        invariant
            i <= s@.len(),
            r@ == lowered(s@).take(i as int),
        decreases s@.len() - i,
    {
        r.push(ascii_lower(s[i]));
        assert(r@ =~= lowered(s@).take(i + 1));
        i += 1;
    }
    assert(lowered(s@).take(i as int) =~= lowered(s@));
    r
}

/// Whether two texts are the same but for the case of ASCII letters.
pub fn eq_ignore_case(a: &[char], b: &[char]) -> (r: bool)
    ensures
        r == alike(a@, b@),
{
    if a.len() != b.len() {
        return false;
    }
    let mut i: usize = 0;
    while i < a.len()
        invariant
            a@.len() == b@.len(),
            i <= a@.len(),
            forall|j: int| 0 <= j < i ==> lower(#[trigger] a@[j]) == lower(b@[j]),
        decreases a@.len() - i,
    {
        if ascii_lower(a[i]) != ascii_lower(b[i]) {
            return false;
        }
        i += 1;
    }
    true
}

// ── Path segments ───────────────────────────────────────────────────────────

/// The texts that are not empty.
pub open spec fn non_empty(parts: Seq<Seq<char>>) -> Seq<Seq<char>>
    decreases parts.len(),
{
    if parts.len() == 0 {
        seq![]
    } else if parts.last().len() > 0 {
        non_empty(parts.drop_last()).push(parts.last())
    } else {
        non_empty(parts.drop_last())
    }
}

/// The names in a path, from its first directory to its last component.
pub open spec fn segments_of(s: Seq<char>) -> Seq<Seq<char>> {
    non_empty(split_on(s, '/'))
}

/// The names in a path.
pub fn segments(s: &str) -> (r: Vec<Vec<char>>)
    ensures
        texts(r@) == segments_of(s@),
{
    let c: Vec<char> = chars_of(s);
    let parts: Vec<Vec<char>> = split(c.as_slice(), '/');
    let ghost all = texts(parts@);
    let mut r: Vec<Vec<char>> = Vec::new();
    let mut i: usize = 0;
    assert(texts(r@) =~= non_empty(all.take(0)));
    while i < parts.len()
        invariant
            all == texts(parts@),
            i <= parts@.len(),
            texts(r@) == non_empty(all.take(i as int)),
        decreases parts@.len() - i,
    {
        assert(all.take(i + 1).drop_last() =~= all.take(i as int));
        assert(all.take(i + 1).last() == parts@[i as int]@);
        if parts[i].len() > 0 {
            let ghost before = r@;
            let piece: Vec<char> = cut_chars(parts[i].as_slice(), 0, parts[i].len());
            assert(piece@ =~= parts@[i as int]@);
            r.push(piece);
            assert(texts(r@) =~= texts(before).push(piece@));
        }
        i += 1;
    }
    assert(all.take(i as int) =~= all);
    r
}

// ── Fields that end with a zero byte ────────────────────────────────────────

/// The text of `b` up to the first zero byte.
pub open spec fn text_to_zero(b: Seq<u8>) -> Seq<char> {
    utf8_text(b.take(bytes::find_byte(b, 0, 0)))
}

/// The text of `b` up to the first zero byte.
pub fn read_to_zero(b: &[u8]) -> (r: String)
    ensures
        r@ == text_to_zero(b@),
{
    proof {
        bytes::lemma_find_byte(b@, 0, 0);
    }
    let end: usize = bytes::find_byte_from(b, 0, 0);
    let head: &[u8] = slice_subrange(b, 0, end);
    assert(head@ =~= b@.take(end as int));
    from_utf8_lossy(head)
}

/// The first of a character in a text is where a part without it ends.
proof fn lemma_find_behind(a: Seq<char>, c: char, b: Seq<char>, from: int)
    requires
        !a.contains(c),
        0 <= from <= a.len(),
    ensures
        find_char(a + seq![c] + b, from, c) == a.len(),
        find_char(a, from, c) == a.len(),
    decreases a.len() - from,
{
    let s = a + seq![c] + b;
    if from < a.len() {
        assert(s[from] == a[from]);
        assert(a.contains(a[from]));
        lemma_find_behind(a, c, b, from + 1);
    } else {
        assert(s[from] == c);
    }
}

/// A text is split at each separator: what stands before the first is the first piece.
pub proof fn pieces_stand_between_separators(a: Seq<char>, c: char, b: Seq<char>)
    requires
        !a.contains(c),
    ensures
        split_on(a, c) == seq![a],
        split_on(a + seq![c] + b, c) == seq![a] + split_on(b, c),
{
    lemma_find_behind(a, c, b, 0);
    let s = a + seq![c] + b;
    assert(s.take(a.len() as int) =~= a);
    assert(s.skip(a.len() as int + 1) =~= b);
}

/// A line ends at its line feed, or at the carriage return before it; a line feed at the end
/// starts no further line.
pub proof fn lines_end_at_their_feeds(a: Seq<char>, b: Seq<char>)
    requires
        !a.contains('\n'),
        a.len() > 0 ==> a.last() != '\r',
    ensures
        lines_of(a + seq!['\n'] + b) == seq![a] + lines_of(b),
        lines_of(a + seq!['\r', '\n'] + b) == seq![a] + lines_of(b),
        a.len() > 0 ==> lines_of(a) == seq![a],
        lines_of(Seq::<char>::empty()) == Seq::<Seq<char>>::empty(),
{
    lemma_find_behind(a, '\n', b, 0);
    let s = a + seq!['\n'] + b;
    assert(s.take(a.len() as int) =~= a);
    assert(s.skip(a.len() as int + 1) =~= b);
    let d = a + seq!['\r'];
    assert(!d.contains('\n')) by {
        assert forall|i: int| 0 <= i < d.len() implies d[i] != '\n' by {
            if i < a.len() {
                assert(a.contains(a[i]));
            }
        }
    }
    lemma_find_behind(d, '\n', b, 0);
    let t = a + seq!['\r', '\n'] + b;
    assert(t =~= d + seq!['\n'] + b);
    assert(t.take(d.len() as int) =~= d);
    assert(t.skip(d.len() as int + 1) =~= b);
    assert(d.drop_last() =~= a);
}

/// A run of characters that are not white is as long as it is before white space.
proof fn lemma_run_len(a: Seq<char>, b: Seq<char>)
    requires
        forall|i: int| 0 <= i < a.len() ==> !is_white(#[trigger] a[i]),
        b.len() > 0 ==> is_white(b[0]),
    ensures
        word_len(a + b) == a.len(),
    decreases a.len(),
{
    let s = a + b;
    if a.len() > 0 {
        assert(s[0] == a[0]);
        assert(s.skip(1) =~= a.skip(1) + b);
        assert forall|i: int| 0 <= i < a.skip(1).len() implies !is_white(
            #[trigger] a.skip(1)[i],
        ) by {
            assert(a.skip(1)[i] == a[i + 1]);
        }
        lemma_run_len(a.skip(1), b);
    } else {
        assert(s =~= b);
    }
}

/// The words of a text are what stands between its white space.
pub proof fn words_stand_between_white_space(white: char, a: Seq<char>, b: Seq<char>)
    requires
        is_white(white),
        a.len() > 0,
        forall|i: int| 0 <= i < a.len() ==> !is_white(#[trigger] a[i]),
    ensures
        words_of(a) == seq![a],
        words_of(a + seq![white] + b) == seq![a] + words_of(b),
        words_of(seq![white] + b) == words_of(b),
{
    let none = Seq::<char>::empty();
    lemma_run_len(a, none);
    assert(a + none =~= a);
    assert(a.take(a.len() as int) =~= a);
    assert(a.skip(a.len() as int) =~= none);
    assert(words_of(none) =~= Seq::<Seq<char>>::empty());
    assert(seq![a] + Seq::<Seq<char>>::empty() =~= seq![a]);
    assert(!is_white(a[0]));
    assert(words_of(a) == seq![a.take(word_len(a))] + words_of(a.skip(word_len(a))));
    let rest = seq![white] + b;
    assert(rest[0] == white);
    assert(rest.skip(1) =~= b);
    lemma_run_len(a, rest);
    let s = a + seq![white] + b;
    assert(s =~= a + rest);
    assert(s[0] == a[0]);
    assert(s.take(a.len() as int) =~= a);
    assert(s.skip(a.len() as int) =~= rest);
    assert(words_of(rest) == words_of(b));
    assert(words_of(s) == seq![s.take(word_len(s))] + words_of(s.skip(word_len(s))));
}

/// White space in front goes.
proof fn lemma_front(front: Seq<char>, t: Seq<char>)
    requires
        forall|i: int| 0 <= i < front.len() ==> is_white(#[trigger] front[i]),
        t.len() > 0 ==> !is_white(t[0]),
    ensures
        trim_front(front + t) == t,
    decreases front.len(),
{
    let s = front + t;
    if front.len() > 0 {
        assert(s[0] == front[0]);
        assert(s.skip(1) =~= front.skip(1) + t);
        assert forall|i: int| 0 <= i < front.skip(1).len() implies is_white(
            #[trigger] front.skip(1)[i],
        ) by {
            assert(front.skip(1)[i] == front[i + 1]);
        }
        lemma_front(front.skip(1), t);
    } else {
        assert(s =~= t);
    }
}

/// White space behind goes.
proof fn lemma_back(t: Seq<char>, back: Seq<char>)
    requires
        forall|i: int| 0 <= i < back.len() ==> is_white(#[trigger] back[i]),
        t.len() > 0 ==> !is_white(t.last()),
    ensures
        trim_back(t + back) == t,
    decreases back.len(),
{
    let s = t + back;
    if back.len() > 0 {
        assert(s.last() == back.last());
        assert(s.drop_last() =~= t + back.drop_last());
        lemma_back(t, back.drop_last());
    } else {
        assert(s =~= t);
    }
}

/// A text is trimmed of the white space on both sides, and of nothing else.
pub proof fn trimming_takes_the_white_space(front: Seq<char>, t: Seq<char>, back: Seq<char>)
    requires
        forall|i: int| 0 <= i < front.len() ==> is_white(#[trigger] front[i]),
        forall|i: int| 0 <= i < back.len() ==> is_white(#[trigger] back[i]),
        t.len() > 0,
        !is_white(t[0]),
        !is_white(t.last()),
    ensures
        trimmed(front + t + back) == t,
        trimmed(t) == t,
{
    let none = Seq::<char>::empty();
    assert(front + t + back =~= front + (t + back));
    assert((t + back)[0] == t[0]);
    lemma_front(front, t + back);
    lemma_back(t, back);
    assert(none + t =~= t);
    assert(t + none =~= t);
    lemma_front(none, t);
    lemma_back(t, none);
}

/// A text is found where it stands first.
pub proof fn the_first_of_a_text_is_found(s: Seq<char>, p: Seq<char>, from: int)
    requires
        0 <= from <= s.len(),
    ensures
        ({
            let at = find_text(s, p, from);
            &&& at == -1 || from <= at
            &&& at >= 0 ==> at + p.len() <= s.len() && s.subrange(at, at + p.len()) == p
            &&& at >= 0 ==> forall|k: int|
                from <= k < at ==> #[trigger] s.subrange(k, k + p.len()) != p
            &&& at == -1 ==> forall|k: int|
                from <= k && k + p.len() <= s.len() ==> #[trigger] s.subrange(k, k + p.len()) != p
        }),
    decreases s.len() - from,
{
    if from + p.len() <= s.len() && s.subrange(from, from + p.len()) != p && from < s.len() {
        the_first_of_a_text_is_found(s, p, from + 1);
    }
}

/// The names in a path are what stands between its slashes.
pub proof fn names_stand_between_slashes(a: Seq<char>, b: Seq<char>)
    requires
        a.len() > 0,
        b.len() > 0,
        !a.contains('/'),
        !b.contains('/'),
    ensures
        segments_of(seq![]) == Seq::<Seq<char>>::empty(),
        segments_of(a) == seq![a],
        segments_of(seq!['/'] + a) == seq![a],
        segments_of(a + seq!['/']) == seq![a],
        segments_of(a + seq!['/'] + b) == seq![a, b],
        segments_of(seq!['/'] + a + seq!['/'] + b) == seq![a, b],
{
    let none = Seq::<char>::empty();
    pieces_stand_between_separators(none, '/', a);
    pieces_stand_between_separators(a, '/', none);
    pieces_stand_between_separators(a, '/', b);
    pieces_stand_between_separators(b, '/', none);
    let ab = a + seq!['/'] + b;
    pieces_stand_between_separators(none, '/', ab);
    assert(none + seq!['/'] + a =~= seq!['/'] + a);
    assert(a + seq!['/'] + none =~= a + seq!['/']);
    assert(none + seq!['/'] + ab =~= seq!['/'] + a + seq!['/'] + b);
    reveal_with_fuel(non_empty, 4);
    let no = Seq::<Seq<char>>::empty();
    assert(split_on(none, '/') =~= seq![none]);
    assert(seq![none].drop_last() =~= no);
    assert(seq![a].drop_last() =~= no);
    assert(non_empty(seq![a]) =~= seq![a]);
    assert(split_on(seq!['/'] + a, '/') =~= seq![none, a]);
    assert(seq![none, a].drop_last() =~= seq![none]);
    assert(non_empty(seq![none, a]) =~= seq![a]);
    assert(split_on(a + seq!['/'], '/') =~= seq![a, none]);
    assert(seq![a, none].drop_last() =~= seq![a]);
    assert(non_empty(seq![a, none]) =~= seq![a]);
    assert(split_on(ab, '/') =~= seq![a, b]);
    assert(seq![a, b].drop_last() =~= seq![a]);
    assert(non_empty(seq![a, b]) =~= seq![a, b]);
    assert(split_on(seq!['/'] + a + seq!['/'] + b, '/') =~= seq![none, a, b]);
    assert(seq![none, a, b].drop_last() =~= seq![none, a]);
    assert(non_empty(seq![none, a, b]) =~= seq![a, b]);
}

} // verus!
