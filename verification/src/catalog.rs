//! The tree of an archive: files under their full paths, and the directories
//! that hold them.
use vstd::prelude::*;
use vstd::utf8::*;
use crate::entry;
use crate::entry::{clamp_u32, dir_entry, file_entry, DiscEntry, EntryView};
use crate::sanitize;
use crate::sanitize::sanitize_component;
use crate::text;
use crate::text::{chars_of, cut_chars, join2, same_chars, same_text, split, string_of, turn_slashes};

verus! {

// ── Order of names ──────────────────────────────────────────────────────────

/// Whether `a` comes before `b` in lexicographic order.
pub open spec fn bytes_less(a: Seq<u8>, b: Seq<u8>) -> bool
    decreases a.len(),
{
    if b.len() == 0 {
        false
    } else if a.len() == 0 {
        true
    } else if a[0] != b[0] {
        a[0] < b[0]
    } else {
        bytes_less(a.skip(1), b.skip(1))
    }
}

/// Whether the name `a` comes before `b`: names are ordered by their bytes.
pub open spec fn name_less(a: Seq<char>, b: Seq<char>) -> bool {
    bytes_less(encode_utf8(a), encode_utf8(b))
}

/// Whether `a` comes before `b` in lexicographic order.
fn less_bytes(a: &[u8], b: &[u8]) -> (r: bool)
    ensures
        r == bytes_less(a@, b@),
{
    let mut i: usize = 0;
    assert(a@.skip(0) =~= a@);
    assert(b@.skip(0) =~= b@);
    loop
        invariant
            i <= a@.len(),
            i <= b@.len(),
            bytes_less(a@, b@) == bytes_less(a@.skip(i as int), b@.skip(i as int)),
        decreases a@.len() - i,
    {
        if i == b.len() {
            return false;
        }
        if i == a.len() {
            return true;
        }
        if a[i] != b[i] {
            return a[i] < b[i];
        }
        assert(a@.skip(i as int).skip(1) =~= a@.skip(i + 1));
        assert(b@.skip(i as int).skip(1) =~= b@.skip(i + 1));
        i += 1;
    }
}

/// Whether the name `a` comes before `b`.
pub fn less_name(a: &str, b: &str) -> (r: bool)
    ensures
        r == name_less(a@, b@),
{
    less_bytes(a.as_bytes(), b.as_bytes())
}

pub proof fn lemma_bytes_less(a: Seq<u8>, b: Seq<u8>)
    ensures
        bytes_less(a, b) ==> !bytes_less(b, a) && a != b,
        !bytes_less(a, b) && !bytes_less(b, a) ==> a == b,
    decreases a.len(),
{
    if a.len() > 0 && b.len() > 0 && a[0] == b[0] {
        lemma_bytes_less(a.skip(1), b.skip(1));
        if a.skip(1) == b.skip(1) {
            assert(a =~= seq![a[0]] + a.skip(1));
            assert(b =~= seq![b[0]] + b.skip(1));
        }
    } else if a.len() == 0 && b.len() == 0 {
        assert(a =~= b);
    }
}

proof fn lemma_bytes_less_chain(a: Seq<u8>, b: Seq<u8>, c: Seq<u8>)
    requires
        bytes_less(a, b),
        bytes_less(b, c),
    ensures
        bytes_less(a, c),
    decreases a.len(),
{
    if a.len() > 0 && a[0] == b[0] && b[0] == c[0] {
        lemma_bytes_less_chain(a.skip(1), b.skip(1), c.skip(1));
    }
}

/// Of two different names exactly one comes first.
pub proof fn names_are_totally_ordered(a: Seq<char>, b: Seq<char>)
    ensures
        name_less(a, b) ==> !name_less(b, a) && a != b,
        a != b ==> name_less(a, b) || name_less(b, a),
{
    lemma_bytes_less(encode_utf8(a), encode_utf8(b));
    encode_utf8_decode_utf8(a);
    encode_utf8_decode_utf8(b);
}

/// Names are ordered transitively.
pub proof fn name_order_is_transitive(a: Seq<char>, b: Seq<char>, c: Seq<char>)
    requires
        name_less(a, b),
        name_less(b, c),
    ensures
        name_less(a, c),
{
    lemma_bytes_less_chain(encode_utf8(a), encode_utf8(b), encode_utf8(c));
}

// ── Sorted names and sorted records ─────────────────────────────────────────

/// The sorted names `s` with `x` among them.
pub open spec fn with_name(s: Seq<Seq<char>>, x: Seq<char>) -> Seq<Seq<char>>
    decreases s.len(),
{
    if s.len() == 0 {
        seq![x]
    } else if s[0] == x {
        s
    } else if name_less(x, s[0]) {
        seq![x] + s
    } else {
        seq![s[0]] + with_name(s.skip(1), x)
    }
}

/// The records `s`, sorted by key, with `e` under the key `k` in place of what was there.
pub open spec fn with_record<V>(s: Seq<(Seq<char>, V)>, k: Seq<char>, e: V) -> Seq<
    (Seq<char>, V),
>
    decreases s.len(),
{
    if s.len() == 0 {
        seq![(k, e)]
    } else if s[0].0 == k {
        seq![(k, e)] + s.skip(1)
    } else if name_less(k, s[0].0) {
        seq![(k, e)] + s
    } else {
        seq![s[0]] + with_record(s.skip(1), k, e)
    }
}

/// The record under the key `k`.
pub open spec fn record_at<V>(s: Seq<(Seq<char>, V)>, k: Seq<char>) -> Option<V>
    decreases s.len(),
{
    if s.len() == 0 {
        None
    } else if s[0].0 == k {
        Some(s[0].1)
    } else {
        record_at(s.skip(1), k)
    }
}

/// Whether names stand in strictly ascending order.
pub open spec fn ascending(s: Seq<Seq<char>>) -> bool {
    forall|i: int, j: int| 0 <= i < j < s.len() ==> name_less(#[trigger] s[i], #[trigger] s[j])
}

/// Adding a name keeps the names in order, adds that name and loses none.
pub proof fn adding_a_name_keeps_the_order(s: Seq<Seq<char>>, x: Seq<char>)
    requires
        ascending(s),
    ensures
        ascending(with_name(s, x)),
        forall|y: Seq<char>|
            #[trigger] with_name(s, x).contains(y) <==> s.contains(y) || y == x,
    decreases s.len(),
{
    let r = with_name(s, x);
    if s.len() == 0 {
        assert(r =~= seq![x]);
        assert(r[0] == x);
    } else if s[0] == x {
        assert(s.contains(x));
    } else if name_less(x, s[0]) {
        assert forall|i: int, j: int| 0 <= i < j < r.len() implies name_less(
            #[trigger] r[i],
            #[trigger] r[j],
        ) by {
            if i == 0 {
                if j > 1 {
                    assert(name_less(s[0], s[j - 1]));
                    name_order_is_transitive(x, s[0], s[j - 1]);
                }
            } else {
                assert(r[i] == s[i - 1] && r[j] == s[j - 1]);
            }
        }
        assert forall|y: Seq<char>| #[trigger] r.contains(y) <==> s.contains(y) || y == x by {
            if s.contains(y) {
                let i = choose|i: int| 0 <= i < s.len() && s[i] == y;
                assert(r[i + 1] == y);
            }
            if y == x {
                assert(r[0] == y);
            }
            if r.contains(y) {
                let i = choose|i: int| 0 <= i < r.len() && r[i] == y;
                if i > 0 {
                    assert(s[i - 1] == y);
                }
            }
        }
    } else {
        let t = s.skip(1);
        assert(ascending(t)) by {
            assert forall|i: int, j: int| 0 <= i < j < t.len() implies name_less(
                #[trigger] t[i],
                #[trigger] t[j],
            ) by {
                assert(t[i] == s[i + 1] && t[j] == s[j + 1]);
            }
        }
        adding_a_name_keeps_the_order(t, x);
        names_are_totally_ordered(x, s[0]);
        let w = with_name(t, x);
        assert(r =~= seq![s[0]] + w);
        assert forall|i: int, j: int| 0 <= i < j < r.len() implies name_less(
            #[trigger] r[i],
            #[trigger] r[j],
        ) by {
            assert(r[j] == w[j - 1]);
            if i == 0 {
                assert(w.contains(w[j - 1]));
                if w[j - 1] != x {
                    let k = choose|k: int| 0 <= k < t.len() && t[k] == w[j - 1];
                    assert(s[k + 1] == w[j - 1]);
                }
            } else {
                assert(r[i] == w[i - 1]);
            }
        }
        assert forall|y: Seq<char>| #[trigger] r.contains(y) <==> s.contains(y) || y == x by {
            if s.contains(y) {
                let i = choose|i: int| 0 <= i < s.len() && s[i] == y;
                if i == 0 {
                    assert(r[0] == y);
                } else {
                    assert(t[i - 1] == y);
                    assert(w.contains(y));
                    let k = choose|k: int| 0 <= k < w.len() && w[k] == y;
                    assert(r[k + 1] == y);
                }
            }
            if y == x {
                assert(w.contains(y));
                let k = choose|k: int| 0 <= k < w.len() && w[k] == y;
                assert(r[k + 1] == y);
            }
            if r.contains(y) {
                let i = choose|i: int| 0 <= i < r.len() && r[i] == y;
                if i > 0 {
                    assert(w[i - 1] == y);
                    assert(w.contains(y));
                    if y != x {
                        let k = choose|k: int| 0 <= k < t.len() && t[k] == y;
                        assert(s[k + 1] == y);
                    }
                } else {
                    assert(s[0] == y);
                }
            }
        }
    }
}

/// A record is found under the key it was stored under, and storing it leaves
/// the records under other keys as they were.
pub proof fn stored_records_are_found<V>(s: Seq<(Seq<char>, V)>, k: Seq<char>, e: V, q: Seq<char>)
    requires
        ascending(keys(s)),
    ensures
        record_at(with_record(s, k, e), q) == (if q == k {
            Some(e)
        } else {
            record_at(s, q)
        }),
    decreases s.len(),
{
    let r = with_record(s, k, e);
    if s.len() == 0 {
        assert(r[0] == (k, e));
        assert(r.skip(1) =~= seq![]);
        assert(record_at(r.skip(1), q) == record_at(s, q));
    } else if s[0].0 == k {
        assert(r[0] == (k, e));
        assert(r.skip(1) =~= s.skip(1));
    } else if name_less(k, s[0].0) {
        assert(r[0] == (k, e));
        assert(r.skip(1) =~= s);
    } else {
        let t = s.skip(1);
        assert forall|i: int, j: int| 0 <= i < j < t.len() implies name_less(
            #[trigger] keys(t)[i],
            #[trigger] keys(t)[j],
        ) by {
            assert(keys(t)[i] == keys(s)[i + 1] && keys(t)[j] == keys(s)[j + 1]);
        }
        stored_records_are_found(t, k, e, q);
        assert(r[0] == s[0]);
        assert(r.skip(1) =~= with_record(t, k, e));
    }
}

/// The keys of records.
pub open spec fn keys<V>(s: Seq<(Seq<char>, V)>) -> Seq<Seq<char>> {
    s.map_values(|r: (Seq<char>, V)| r.0)
}

/// Storing a record keeps the records in order of their keys, adds its key and loses
/// none.
pub proof fn storing_a_record_keeps_the_order<V>(s: Seq<(Seq<char>, V)>, k: Seq<char>, e: V)
    requires
        ascending(keys(s)),
    ensures
        ascending(keys(with_record(s, k, e))),
        forall|y: Seq<char>| #[trigger]
            keys(with_record(s, k, e)).contains(y) <==> keys(s).contains(y) || y == k,
{
    lemma_keys_with_record(s, k, e);
    adding_a_name_keeps_the_order(keys(s), k);
}

/// The keys behind a store are those before it with the record's own among them.
proof fn lemma_keys_with_record<V>(s: Seq<(Seq<char>, V)>, k: Seq<char>, e: V)
    ensures
        keys(with_record(s, k, e)) == with_name(keys(s), k),
    decreases s.len(),
{
    let r = with_record(s, k, e);
    let t = s.skip(1);
    if s.len() == 0 {
        assert(keys(r) =~= seq![k]);
    } else {
        assert(keys(s)[0] == s[0].0);
        if s[0].0 == k {
            assert(keys(r) =~= keys(s));
        } else if name_less(k, s[0].0) {
            assert(keys(r) =~= seq![k] + keys(s));
        } else {
            lemma_keys_with_record(t, k, e);
            assert(keys(t) =~= keys(s).skip(1));
            assert(keys(r) =~= seq![s[0].0] + keys(with_record(t, k, e)));
        }
    }
}

// ── Paths inside an archive ─────────────────────────────────────────────────

/// The parts, each behind a `/`, of those that name something: neither empty nor `.`.
pub open spec fn rooted(parts: Seq<Seq<char>>) -> Seq<char>
    decreases parts.len(),
{
    if parts.len() == 0 {
        seq![]
    } else if parts[0].len() == 0 || parts[0] == seq!['.'] {
        rooted(parts.skip(1))
    } else {
        seq!['/'] + parts[0] + rooted(parts.skip(1))
    }
}

/// A stored name as a path from the archive's root; none where it climbs by
/// `..` or names nothing.
pub open spec fn normalised(name: Seq<char>) -> Option<Seq<char>> {
    let parts = text::split_on(text::with_slashes(name), '/');
    let r = rooted(parts);
    if parts.contains(seq!['.', '.']) || r.len() == 0 {
        None
    } else {
        Some(r)
    }
}

/// A name that has a path is not empty.
pub proof fn lemma_named(raw: Seq<char>)
    requires
        normalised(raw) is Some,
    ensures
        raw.len() > 0,
{
    if raw.len() == 0 {
        let s = text::with_slashes(raw);
        assert(s =~= seq![]);
        assert(text::find_char(s, 0, '/') == 0);
        let parts = text::split_on(s, '/');
        assert(parts =~= seq![s]);
        assert(parts.skip(1) =~= seq![]);
        assert(rooted(parts.skip(1)) =~= seq![]);
    }
}

/// A stored name as a path from the archive's root.
pub fn normalise(name: &str) -> (r: Option<String>)
    ensures
        r is None <==> normalised(name@) is None,
        r matches Some(p) ==> normalised(name@) == Some(p@),
{
    let src: Vec<char> = chars_of(name);
    let c: Vec<char> = turn_slashes(src.as_slice());
    let parts: Vec<Vec<char>> = split(c.as_slice(), '/');
    let ghost all = text::texts(parts@);
    let mut out: Vec<char> = Vec::new();
    let mut k: usize = 0;
    assert(all.skip(0) =~= all);
    while k < parts.len()
        invariant
            all == text::texts(parts@),
            all == text::split_on(text::with_slashes(name@), '/'),
            k <= parts@.len(),
            out@ + rooted(all.skip(k as int)) == rooted(all),
            forall|j: int| 0 <= j < k ==> all[j] != seq!['.', '.'],
        decreases parts@.len() - k,
    {
        let p: &Vec<char> = &parts[k];
        assert(all[k as int] == p@);
        let ghost before = out@;
        let ghost rest = all.skip(k as int);
        assert(rest[0] == p@);
        assert(rest.skip(1) =~= all.skip(k + 1));
        if p.len() == 2 && p[0] == '.' && p[1] == '.' {
            assert(p@ =~= seq!['.', '.']);
            assert(all.contains(seq!['.', '.']));
            return None;
        }
        assert(p@ != seq!['.', '.']) by {
            if p@ == seq!['.', '.'] {
                assert(p@[0] == '.' && p@[1] == '.');
            }
        }
        if p.len() == 0 || (p.len() == 1 && p[0] == '.') {
            assert(p@.len() == 1 ==> p@ =~= seq!['.']);
        } else {
            assert(p@ != seq!['.']) by {
                if p@ == seq!['.'] {
                    assert(p@[0] == '.');
                }
            }
            out.push('/');
            let mut copy: Vec<char> = cut_chars(p.as_slice(), 0, p.len());
            assert(copy@ =~= p@);
            out.append(&mut copy);
            assert(out@ =~= before + (seq!['/'] + p@));
            assert(out@ + rooted(all.skip(k + 1)) =~= before + (seq!['/'] + p@ + rooted(
                all.skip(k + 1),
            )));
        }
        k += 1;
    }
    assert(all.skip(parts@.len() as int).len() == 0);
    assert(out@ =~= rooted(all));
    assert(!all.contains(seq!['.', '.']));
    if out.len() == 0 {
        None
    } else {
        Some(string_of(out.as_slice()))
    }
}

/// The directories of `dirs` and those that hold the path `p`: its beginnings
/// up to each `/` below index `n`, the root left out.
pub open spec fn with_parents(dirs: Seq<Seq<char>>, p: Seq<char>, n: int) -> Seq<Seq<char>>
    decreases n,
{
    if n <= 1 {
        dirs
    } else if p[n - 1] == '/' {
        with_parents(with_name(dirs, p.take(n - 1)), p, n - 1)
    } else {
        with_parents(dirs, p, n - 1)
    }
}

/// The name of `full` directly below the directory `prefix`, which ends in `/`.
pub open spec fn child_of(full: Seq<char>, prefix: Seq<char>) -> Option<Seq<char>> {
    let rest = full.skip(prefix.len() as int);
    if text::begins(full, prefix) && rest.len() > 0 && !rest.contains('/') {
        Some(rest)
    } else {
        None
    }
}

/// The name of `full` directly below the directory `prefix`.
fn child(full: &str, prefix: &str) -> (r: Option<String>)
    ensures
        r is None <==> child_of(full@, prefix@) is None,
        r matches Some(c) ==> child_of(full@, prefix@) == Some(c@),
{
    let f: Vec<char> = chars_of(full);
    let p: Vec<char> = chars_of(prefix);
    if p.len() > f.len() {
        return None;
    }
    let head: Vec<char> = cut_chars(f.as_slice(), 0, p.len());
    if !same_chars(head.as_slice(), p.as_slice()) {
        return None;
    }
    let rest: Vec<char> = cut_chars(f.as_slice(), p.len(), f.len());
    assert(rest@ =~= full@.skip(prefix@.len() as int));
    let mut i: usize = 0;
    while i < rest.len()
        invariant
            rest@ == full@.skip(prefix@.len() as int),
            i <= rest@.len(),
            forall|j: int| 0 <= j < i ==> rest@[j] != '/',
        decreases rest@.len() - i,
    {
        if rest[i] == '/' {
            return None;
        }
        i += 1;
    }
    if rest.len() == 0 {
        None
    } else {
        Some(string_of(rest.as_slice()))
    }
}

// ── The catalog ─────────────────────────────────────────────────────────────

/// What a listing shows of a stored file.
pub trait Listed: View {
    spec fn size_of(v: Self::V) -> int;

    spec fn modified_of(v: Self::V) -> Seq<char>;

    fn listed_size(&self) -> (r: u64)
        ensures
            r == Self::size_of(self@),
    ;

    fn listed_modified(&self) -> (r: String)
        ensures
            r@ == Self::modified_of(self@),
    ;
}

/// The directories of an archive and its files, each in the order of their paths.
pub struct Catalog<E> {
    pub dirs: Vec<String>,
    pub files: Vec<(String, E)>,
}

/// The contents of a catalog.
#[verifier::ext_equal]
pub struct CatalogView<V> {
    pub dirs: Seq<Seq<char>>,
    pub files: Seq<(Seq<char>, V)>,
}

/// The records of a list, by the contents of their parts.
pub open spec fn records<E: View>(v: Seq<(String, E)>) -> Seq<(Seq<char>, E::V)> {
    Seq::new(v.len(), |i: int| (v[i].0@, v[i].1@))
}

impl<E: View> View for Catalog<E> {
    type V = CatalogView<E::V>;

    open spec fn view(&self) -> CatalogView<E::V> {
        CatalogView { dirs: text::views(self.dirs@), files: records(self.files@) }
    }
}

impl<V> CatalogView<V> {
    /// The catalog with the directories that hold the path `p`.
    pub open spec fn holding(self, p: Seq<char>) -> CatalogView<V> {
        CatalogView { dirs: with_parents(self.dirs, p, p.len() as int), files: self.files }
    }

    /// The catalog with the directory `p`.
    pub open spec fn with_dir(self, p: Seq<char>) -> CatalogView<V> {
        CatalogView { dirs: with_name(self.dirs, p), files: self.files }
    }

    /// The catalog with the file `p`.
    pub open spec fn with_file(self, p: Seq<char>, e: V) -> CatalogView<V> {
        CatalogView { dirs: self.dirs, files: with_record(self.files, p, e) }
    }
}

/// The lines for the directories directly below `prefix`.
pub open spec fn dir_lines(dirs: Seq<Seq<char>>, prefix: Seq<char>) -> Seq<EntryView>
    decreases dirs.len(),
{
    if dirs.len() == 0 {
        seq![]
    } else {
        let head = dir_lines(dirs.drop_last(), prefix);
        match child_of(dirs.last(), prefix) {
            Some(name) => head.push(entry::dir_line(name)),
            None => head,
        }
    }
}

/// The lines for the files directly below `prefix`.
pub open spec fn file_lines<E: Listed>(files: Seq<(Seq<char>, E::V)>, prefix: Seq<char>) -> Seq<
    EntryView,
>
    decreases files.len(),
{
    if files.len() == 0 {
        seq![]
    } else {
        let head = file_lines::<E>(files.drop_last(), prefix);
        let (path, e) = files.last();
        match child_of(path, prefix) {
            Some(name) => head.push(
                entry::file_line(name, 0, entry::clamped(E::size_of(e)), E::modified_of(e)),
            ),
            None => head,
        }
    }
}

/// The listing of the directory `base`, the empty path standing for the root:
/// its directories, then its files. There is none where nothing is below
/// `base` and no such directory is known.
pub open spec fn list_of<E: Listed>(c: CatalogView<E::V>, base: Seq<char>) -> Option<
    Seq<EntryView>,
> {
    let prefix = base + seq!['/'];
    let lines = dir_lines(c.dirs, prefix) + file_lines::<E>(c.files, prefix);
    if lines.len() == 0 && base.len() > 0 && !c.dirs.contains(base) {
        None
    } else {
        Some(lines)
    }
}

/// The paths of the files anywhere below `prefix`.
pub open spec fn paths_below<V>(files: Seq<(Seq<char>, V)>, prefix: Seq<char>) -> Seq<Seq<char>>
    decreases files.len(),
{
    if files.len() == 0 {
        seq![]
    } else {
        let head = paths_below(files.drop_last(), prefix);
        if text::begins(files.last().0, prefix) {
            head.push(files.last().0)
        } else {
            head
        }
    }
}

/// The parts, each made safe for the host, with `/` between them.
pub open spec fn safe_path(parts: Seq<Seq<char>>) -> Seq<char>
    decreases parts.len(),
{
    if parts.len() == 0 {
        seq![]
    } else if parts.len() == 1 {
        sanitize::sanitized(parts[0])
    } else {
        safe_path(parts.drop_last()) + seq!['/'] + sanitize::sanitized(parts.last())
    }
}

/// Where below the destination a file goes, `path` standing below `prefix`.
pub open spec fn target_of(path: Seq<char>, prefix: Seq<char>) -> Seq<char> {
    safe_path(text::split_on(path.skip(prefix.len() as int), '/'))
}

impl<E: View> Catalog<E> {
    pub fn new() -> (r: Self)
        ensures
            r@.dirs == Seq::<Seq<char>>::empty(),
            r@.files == Seq::<(Seq<char>, E::V)>::empty(),
    {
        let r = Catalog { dirs: Vec::new(), files: Vec::new() };
        assert(r@.dirs =~= Seq::<Seq<char>>::empty());
        assert(r@.files =~= Seq::<(Seq<char>, E::V)>::empty());
        r
    }

    /// Adds the directory `p`.
    pub fn add_dir(&mut self, p: String)
        ensures
            final(self)@ == old(self)@.with_dir(p@),
    {
        let n: usize = self.dirs.len();
        let ghost all = text::views(self.dirs@);
        let mut i: usize = 0;
        assert(all.skip(0) =~= all);
        while i < n
            invariant
                *self == *old(self),
                n == self.dirs@.len(),
                all == text::views(self.dirs@),
                i <= n,
                with_name(all, p@) == all.take(i as int) + with_name(all.skip(i as int), p@),
            decreases n - i,
        {
            assert(all.skip(i as int)[0] == self.dirs@[i as int]@);
            if same_text(self.dirs[i].as_str(), p.as_str()) {
                assert(with_name(all, p@) =~= all);
                assert(self@ =~= old(self)@.with_dir(p@));
                return;
            }
            if less_name(p.as_str(), self.dirs[i].as_str()) {
                self.dirs.insert(i, p);
                assert(text::views(self.dirs@) =~= all.take(i as int) + (seq![p@] + all.skip(
                    i as int,
                )));
                assert(self@ =~= old(self)@.with_dir(p@));
                return;
            }
            assert(all.skip(i as int).skip(1) =~= all.skip(i + 1));
            assert(all.take(i as int) + (seq![all[i as int]] + with_name(all.skip(i + 1), p@))
                =~= all.take(i + 1) + with_name(all.skip(i + 1), p@));
            i += 1;
        }
        self.dirs.push(p);
        assert(all.skip(n as int).len() == 0);
        assert(text::views(self.dirs@) =~= all.take(n as int) + seq![p@]);
        assert(self@ =~= old(self)@.with_dir(p@));
    }

    /// Adds the file `p`, in place of one that stands under that path.
    pub fn add_file(&mut self, p: String, e: E)
        ensures
            final(self)@ == old(self)@.with_file(p@, e@),
    {
        let n: usize = self.files.len();
        let ghost all = records(self.files@);
        let mut i: usize = 0;
        assert(all.skip(0) =~= all);
        while i < n
            invariant
                *self == *old(self),
                n == self.files@.len(),
                all == records(self.files@),
                i <= n,
                with_record(all, p@, e@) == all.take(i as int) + with_record(
                    all.skip(i as int),
                    p@,
                    e@,
                ),
            decreases n - i,
        {
            assert(all.skip(i as int)[0] == all[i as int]);
            if same_text(self.files[i].0.as_str(), p.as_str()) {
                assert(all.skip(i as int).skip(1) =~= all.skip(i + 1));
                let _ = self.files.remove(i);
                self.files.insert(i, (p, e));
                assert(records(self.files@) =~= all.take(i as int) + (seq![(p@, e@)] + all.skip(
                    i + 1,
                )));
                assert(self@ =~= old(self)@.with_file(p@, e@));
                return;
            }
            if less_name(p.as_str(), self.files[i].0.as_str()) {
                self.files.insert(i, (p, e));
                assert(records(self.files@) =~= all.take(i as int) + (seq![(p@, e@)] + all.skip(
                    i as int,
                )));
                assert(self@ =~= old(self)@.with_file(p@, e@));
                return;
            }
            assert(all.skip(i as int).skip(1) =~= all.skip(i + 1));
            assert(all.take(i as int) + (seq![all[i as int]] + with_record(
                all.skip(i + 1),
                p@,
                e@,
            )) =~= all.take(i + 1) + with_record(all.skip(i + 1), p@, e@));
            i += 1;
        }
        self.files.push((p, e));
        assert(all.skip(n as int).len() == 0);
        assert(records(self.files@) =~= all.take(n as int) + seq![(p@, e@)]);
        assert(self@ =~= old(self)@.with_file(p@, e@));
    }

    /// Adds the directories that hold the path `p`.
    pub fn add_parents(&mut self, p: &str)
        ensures
            final(self)@ == old(self)@.holding(p@),
    {
        let c: Vec<char> = chars_of(p);
        let mut n: usize = c.len();
        while n > 1
            invariant
                c@ == p@,
                n <= c@.len(),
                self@.files == old(self)@.files,
                with_parents(self@.dirs, p@, n as int) == with_parents(
                    old(self)@.dirs,
                    p@,
                    p@.len() as int,
                ),
            decreases n,
        {
            if c[n - 1] == '/' {
                let dir: Vec<char> = cut_chars(c.as_slice(), 0, n - 1);
                assert(dir@ =~= p@.take(n - 1));
                self.add_dir(string_of(dir.as_slice()));
            }
            n -= 1;
        }
        assert(self@ =~= old(self)@.holding(p@));
    }

    /// Whether the directory `p` is known.
    pub fn has_dir(&self, p: &str) -> (r: bool)
        ensures
            r == self@.dirs.contains(p@),
    {
        let mut i: usize = 0;
        while i < self.dirs.len()
            invariant
                i <= self.dirs@.len(),
                forall|j: int| 0 <= j < i ==> self@.dirs[j] != p@,
            decreases self.dirs@.len() - i,
        {
            assert(self@.dirs[i as int] == self.dirs@[i as int]@);
            if same_text(self.dirs[i].as_str(), p) {
                return true;
            }
            i += 1;
        }
        false
    }

    /// The index of the file under the path `p`.
    pub fn find(&self, p: &str) -> (r: Option<usize>)
        ensures
            r is None <==> record_at(self@.files, p@) is None,
            r matches Some(i) ==> i < self.files@.len() && record_at(self@.files, p@) == Some(
                self.files@[i as int].1@,
            ) && self.files@[i as int].0@ == p@,
    {
        let ghost all = self@.files;
        let n: usize = self.files.len();
        let mut i: usize = 0;
        assert(all.skip(0) =~= all);
        while i < n
            invariant
                n == self.files@.len(),
                all == self@.files,
                i <= n,
                record_at(all, p@) == record_at(all.skip(i as int), p@),
            decreases n - i,
        {
            assert(all.skip(i as int)[0] == all[i as int]);
            if same_text(self.files[i].0.as_str(), p) {
                return Some(i);
            }
            assert(all.skip(i as int).skip(1) =~= all.skip(i + 1));
            i += 1;
        }
        None
    }
}

impl<E: Listed> Catalog<E> {
    /// The listing of the directory `base`, the empty path standing for the root.
    pub fn list(&self, base: &str) -> (r: Option<Vec<DiscEntry>>)
        ensures
            r is None <==> list_of::<E>(self@, base@) is None,
            r matches Some(v) ==> list_of::<E>(self@, base@) == Some(entry::listing(v@)),
    {
        let mut prefix: String = base.to_owned();
        prefix.push('/');
        assert(prefix@ =~= base@ + seq!['/']);
        let ghost dirs = self@.dirs;
        let ghost files = self@.files;
        let mut out: Vec<DiscEntry> = Vec::new();
        let mut i: usize = 0;
        assert(entry::listing(out@) =~= dir_lines(dirs.take(0), prefix@));
        while i < self.dirs.len()
            invariant
                dirs == self@.dirs,
                i <= self.dirs@.len(),
                entry::listing(out@) == dir_lines(dirs.take(i as int), prefix@),
            decreases self.dirs@.len() - i,
        {
            let ghost before = out@;
            assert(dirs.take(i + 1).drop_last() =~= dirs.take(i as int));
            assert(dirs.take(i + 1).last() == self.dirs@[i as int]@);
            if let Some(name) = child(self.dirs[i].as_str(), prefix.as_str()) {
                out.push(dir_entry(name));
                assert(entry::listing(out@) =~= entry::listing(before).push(
                    entry::dir_line(name@),
                ));
            }
            i += 1;
        }
        assert(dirs.take(i as int) =~= dirs);
        let ghost head = entry::listing(out@);
        let mut k: usize = 0;
        assert(entry::listing(out@) =~= head + file_lines::<E>(files.take(0), prefix@));
        while k < self.files.len()
            invariant
                files == self@.files,
                k <= self.files@.len(),
                entry::listing(out@) == head + file_lines::<E>(files.take(k as int), prefix@),
            decreases self.files@.len() - k,
        {
            let ghost before = out@;
            assert(files.take(k + 1).drop_last() =~= files.take(k as int));
            assert(files.take(k + 1).last() == (self.files@[k as int].0@, self.files@[k as int].1@));
            if let Some(name) = child(self.files[k].0.as_str(), prefix.as_str()) {
                let size: u32 = clamp_u32(self.files[k].1.listed_size());
                let modified: String = self.files[k].1.listed_modified();
                out.push(file_entry(name, 0, size, modified));
                assert(entry::listing(out@) =~= entry::listing(before).push(
                    entry::file_line(name@, 0, size, modified@),
                ));
                assert(entry::listing(out@) =~= head + file_lines::<E>(
                    files.take(k + 1),
                    prefix@,
                ));
            }
            k += 1;
        }
        assert(files.take(k as int) =~= files);
        if out.len() == 0 && !base.is_empty() && !self.has_dir(base) {
            assert(entry::listing(out@).len() == 0);
            return None;
        }
        assert(entry::listing(out@).len() == out@.len());
        Some(out)
    }

    /// The paths of the files anywhere below `prefix`.
    pub fn below(&self, prefix: &str) -> (r: Vec<String>)
        ensures
            text::views(r@) == paths_below(self@.files, prefix@),
    {
        let ghost files = self@.files;
        let mut out: Vec<String> = Vec::new();
        let mut k: usize = 0;
        assert(text::views(out@) =~= paths_below(files.take(0), prefix@));
        while k < self.files.len()
            invariant
                files == self@.files,
                k <= self.files@.len(),
                text::views(out@) == paths_below(files.take(k as int), prefix@),
            decreases self.files@.len() - k,
        {
            let ghost before = out@;
            assert(files.take(k + 1).drop_last() =~= files.take(k as int));
            assert(files.take(k + 1).last() == (self.files@[k as int].0@, self.files@[k as int].1@));
            let c: Vec<char> = chars_of(self.files[k].0.as_str());
            if text::starts_with(c.as_slice(), prefix) {
                out.push(string_of(c.as_slice()));
                assert(text::views(out@) =~= text::views(before).push(c@));
            }
            k += 1;
        }
        assert(files.take(k as int) =~= files);
        out
    }
}

/// Where below the destination a file goes, `path` standing below `prefix`.
pub fn target_path(path: &str, prefix: &str) -> (r: String)
    requires
        text::begins(path@, prefix@),
    ensures
        r@ == target_of(path@, prefix@),
{
    let c: Vec<char> = chars_of(path);
    let p: Vec<char> = chars_of(prefix);
    let rest: Vec<char> = cut_chars(c.as_slice(), p.len(), c.len());
    assert(rest@ =~= path@.skip(prefix@.len() as int));
    let parts: Vec<Vec<char>> = split(rest.as_slice(), '/');
    let ghost all = text::texts(parts@);
    let first: String = string_of(parts[0].as_slice());
    let mut out: String = sanitize_component(first.as_str());
    let mut i: usize = 1;
    assert(all.take(1)[0] == parts@[0]@);
    while i < parts.len()
        invariant
            all == text::texts(parts@),
            1 <= i <= parts@.len(),
            out@ == safe_path(all.take(i as int)),
        decreases parts@.len() - i,
    {
        let part: String = string_of(parts[i].as_slice());
        let safe: String = sanitize_component(part.as_str());
        let ghost before = out@;
        out.push('/');
        out.append(safe.as_str());
        assert(all.take(i + 1).drop_last() =~= all.take(i as int));
        assert(all.take(i + 1).last() == parts@[i as int]@);
        assert(out@ =~= before + seq!['/'] + safe@);
        i += 1;
    }
    assert(all.take(i as int) =~= all);
    out
}

// ── Requests ────────────────────────────────────────────────────────────────

/// The directory that a request names, as a path from the root; what has no
/// such path stands for the root itself.
pub open spec fn base_of(dir: Seq<char>) -> Seq<char> {
    match normalised(dir) {
        Some(p) => p,
        None => seq![],
    }
}

/// The directory that a request names.
pub fn base_path(dir: &str) -> (r: String)
    ensures
        r@ == base_of(dir@),
{
    match normalise(dir) {
        Some(p) => p,
        None => {
            let r: String = String::new();
            assert(r@ =~= seq![]);
            r
        },
    }
}

/// The answer to a listing of `base`, requested as `dir`.
pub open spec fn listing_answer<E: Listed>(
    c: CatalogView<E::V>,
    base: Seq<char>,
    dir: Seq<char>,
) -> Result<Seq<EntryView>, Seq<char>> {
    match list_of::<E>(c, base) {
        Some(lines) => Ok(lines),
        None => Err("Not found: "@ + dir),
    }
}

/// A file to extract and where it goes below the destination.
pub struct Target {
    pub path: String,
    pub target: String,
}

/// The paths and destinations of a list of targets.
pub open spec fn targets_of(v: Seq<Target>) -> Seq<(Seq<char>, Seq<char>)> {
    Seq::new(v.len(), |i: int| (v[i].path@, v[i].target@))
}

/// The files below `prefix` and where they go.
pub open spec fn targets_below(paths: Seq<Seq<char>>, prefix: Seq<char>) -> Seq<
    (Seq<char>, Seq<char>),
> {
    Seq::new(paths.len(), |i: int| (paths[i], target_of(paths[i], prefix)))
}

/// The answer to an extraction of `base`, requested as `dir`: every file below
/// it with its destination, or an error where there is none and no such
/// directory is known.
pub open spec fn extraction_answer<V>(
    c: CatalogView<V>,
    base: Seq<char>,
    dir: Seq<char>,
) -> Result<Seq<(Seq<char>, Seq<char>)>, Seq<char>> {
    let prefix = base + seq!['/'];
    let t = targets_below(paths_below(c.files, prefix), prefix);
    if t.len() == 0 && base.len() > 0 && !c.dirs.contains(base) {
        Err("Not found: "@ + dir)
    } else {
        Ok(t)
    }
}

proof fn lemma_paths_below<V>(files: Seq<(Seq<char>, V)>, prefix: Seq<char>)
    ensures
        forall|i: int|
            0 <= i < paths_below(files, prefix).len() ==> text::begins(
                #[trigger] paths_below(files, prefix)[i],
                prefix,
            ),
    decreases files.len(),
{
    if files.len() > 0 {
        lemma_paths_below(files.drop_last(), prefix);
        let head = paths_below(files.drop_last(), prefix);
        let all = paths_below(files, prefix);
        assert forall|i: int| 0 <= i < all.len() implies text::begins(#[trigger] all[i], prefix) by {
            if i < head.len() {
                assert(all[i] == head[i]);
            }
        }
    }
}

/// A file that is extracted stays below the destination: no part of its path
/// there is empty, `.` or `..`, or holds a separator.
pub proof fn targets_stay_below_the_destination(path: Seq<char>, prefix: Seq<char>, i: int)
    requires
        0 <= i < text::split_on(path.skip(prefix.len() as int), '/').len(),
    ensures
        ({
            let part = sanitize::sanitized(text::split_on(path.skip(prefix.len() as int), '/')[i]);
            &&& part.len() > 0
            &&& part != seq!['.']
            &&& part != seq!['.', '.']
            &&& forall|k: int| 0 <= k < part.len() ==> part[k] != '/' && part[k] != '\\'
        }),
{
    let raw = text::split_on(path.skip(prefix.len() as int), '/')[i];
    sanitize::sanitized_name_stays_in_its_directory(raw);
    let part = sanitize::sanitized(raw);
    assert forall|k: int| 0 <= k < part.len() implies part[k] != '/' && part[k] != '\\' by {
        assert(!sanitize::is_illegal(part[k]));
    }
}

impl<E: Listed> Catalog<E> {
    /// Answers a listing of `base`, requested as `dir`.
    pub fn answer_listing(&self, base: &str, dir: &str) -> (r: Result<Vec<DiscEntry>, String>)
        ensures
            match r {
                Ok(v) => listing_answer::<E>(self@, base@, dir@) == Ok::<
                    Seq<EntryView>,
                    Seq<char>,
                >(entry::listing(v@)),
                Err(e) => listing_answer::<E>(self@, base@, dir@) == Err::<
                    Seq<EntryView>,
                    Seq<char>,
                >(e@),
            },
    {
        match self.list(base) {
            Some(v) => Ok(v),
            None => Err(join2("Not found: ", dir)),
        }
    }

    /// Answers an extraction of `base`, requested as `dir`.
    pub fn answer_extraction(&self, base: &str, dir: &str) -> (r: Result<Vec<Target>, String>)
        ensures
            match r {
                Ok(v) => extraction_answer(self@, base@, dir@) == Ok::<
                    Seq<(Seq<char>, Seq<char>)>,
                    Seq<char>,
                >(targets_of(v@)),
                Err(e) => extraction_answer(self@, base@, dir@) == Err::<
                    Seq<(Seq<char>, Seq<char>)>,
                    Seq<char>,
                >(e@),
            },
    {
        let mut prefix: String = base.to_owned();
        prefix.push('/');
        assert(prefix@ =~= base@ + seq!['/']);
        let paths: Vec<String> = self.below(prefix.as_str());
        let ghost all = text::views(paths@);
        proof {
            lemma_paths_below(self@.files, prefix@);
        }
        let mut out: Vec<Target> = Vec::new();
        let mut i: usize = 0;
        while i < paths.len()
            invariant
                all == text::views(paths@),
                forall|j: int| 0 <= j < all.len() ==> text::begins(#[trigger] all[j], prefix@),
                i <= paths@.len(),
                targets_of(out@) == targets_below(all, prefix@).take(i as int),
            decreases paths@.len() - i,
        {
            assert(all[i as int] == paths@[i as int]@);
            let target: String = target_path(paths[i].as_str(), prefix.as_str());
            let path: String = paths[i].clone();
            let ghost before = out@;
            out.push(Target { path, target });
            assert(targets_of(out@) =~= targets_of(before).push((path@, target@)));
            assert(targets_of(out@) =~= targets_below(all, prefix@).take(i + 1));
            i += 1;
        }
        assert(targets_below(all, prefix@).take(i as int) =~= targets_below(all, prefix@));
        assert(targets_of(out@).len() == out@.len());
        if out.len() == 0 && !base.is_empty() && !self.has_dir(base) {
            return Err(join2("Not found: ", dir));
        }
        Ok(out)
    }
}

// ── Normal paths ────────────────────────────────────────────────────────────

/// Whether the part of a path that begins at `at` is `.` or `..`.
pub open spec fn dots_at(p: Seq<char>, at: int) -> bool {
    ||| at < p.len() && p[at] == '.' && (at + 1 == p.len() || p[at + 1] == '/')
    ||| at + 1 < p.len() && p[at] == '.' && p[at + 1] == '.' && (at + 2 == p.len() || p[at + 2]
        == '/')
}

/// Whether a path is in its normal form: it starts with a `/` and does not end with one,
/// no two of them stand together, none of its parts is `.` or `..`, and it has no `\`.
pub open spec fn is_normal(p: Seq<char>) -> bool {
    &&& p.len() > 0
    &&& p[0] == '/'
    &&& p.last() != '/'
    &&& forall|i: int| 0 <= i < p.len() ==> #[trigger] p[i] != '\\'
    &&& forall|i: int|
        0 <= i < p.len() && #[trigger] p[i] == '/' ==> i + 1 < p.len() && p[i + 1] != '/'
            && !dots_at(p, i + 1)
}

/// A path in its normal form, cut before one of its slashes, is in its normal form.
proof fn lemma_normal_parent(p: Seq<char>, i: int)
    requires
        is_normal(p),
        0 < i < p.len(),
        p[i] == '/',
    ensures
        is_normal(p.take(i)),
{
    let q = p.take(i);
    assert(q.last() == p[i - 1]);
    assert forall|k: int| 0 <= k < q.len() && #[trigger] q[k] == '/' implies k + 1 < q.len() && q[k
        + 1] != '/' && !dots_at(q, k + 1) by {
        assert(p[k] == '/');
    }
}

/// The pieces of a text hold no separator, and nothing that the text does not hold.
proof fn lemma_pieces(s: Seq<char>, c: char, x: char)
    requires
        !s.contains(x),
    ensures
        forall|k: int|
            0 <= k < text::split_on(s, c).len() ==> !(#[trigger] text::split_on(s, c)[k]).contains(
                c,
            ) && !text::split_on(s, c)[k].contains(x),
    decreases s.len(),
{
    text::lemma_find_char(s, 0, c);
    let i = text::find_char(s, 0, c);
    let parts = text::split_on(s, c);
    if 0 <= i < s.len() {
        let rest = s.skip(i + 1);
        assert(!rest.contains(x)) by {
            if rest.contains(x) {
                let j = choose|j: int| 0 <= j < rest.len() && rest[j] == x;
                assert(s[j + i + 1] == x);
            }
        }
        lemma_pieces(rest, c, x);
        assert forall|k: int| 0 <= k < parts.len() implies !(#[trigger] parts[k]).contains(c)
            && !parts[k].contains(x) by {
            if k == 0 {
                assert(parts[0] == s.take(i));
                assert forall|j: int| 0 <= j < i implies #[trigger] s.take(i)[j] != c && s.take(i)[j]
                    != x by {
                    assert(s[j] == s.take(i)[j]);
                }
            } else {
                assert(parts[k] == text::split_on(rest, c)[k - 1]);
            }
        }
    } else {
        assert(parts =~= seq![s]);
        assert(!s.contains(c));
    }
}

/// Parts behind slashes make up a path in its normal form.
proof fn lemma_rooted(parts: Seq<Seq<char>>)
    requires
        forall|k: int|
            0 <= k < parts.len() ==> !(#[trigger] parts[k]).contains('/') && !parts[k].contains(
                '\\',
            ) && parts[k] != seq!['.', '.'],
    ensures
        rooted(parts).len() == 0 || is_normal(rooted(parts)),
        rooted(parts).len() == 0 <==> forall|k: int|
            0 <= k < parts.len() ==> (#[trigger] parts[k]).len() == 0 || parts[k] == seq!['.'],
    decreases parts.len(),
{
    if parts.len() > 0 {
        let part = parts[0];
        let more = parts.skip(1);
        assert forall|k: int| 0 <= k < more.len() implies !(#[trigger] more[k]).contains('/')
            && !more[k].contains('\\') && more[k] != seq!['.', '.'] by {
            assert(more[k] == parts[k + 1]);
        }
        lemma_rooted(more);
        let tail = rooted(more);
        if part.len() == 0 || part == seq!['.'] {
            assert(rooted(parts) == tail);
            if tail.len() == 0 {
                assert forall|k: int| 0 <= k < parts.len() implies (#[trigger] parts[k]).len() == 0
                    || parts[k] == seq!['.'] by {
                    if k > 0 {
                        assert(more[k - 1] == parts[k]);
                    }
                }
            } else {
                let k = choose|k: int|
                    0 <= k < more.len() && (#[trigger] more[k]).len() != 0 && more[k] != seq!['.'];
                assert(parts[k + 1] == more[k]);
            }
        } else {
            let p = seq!['/'] + part + tail;
            assert(rooted(parts) == p);
            assert(parts[0] == part);
            assert(forall|i: int| 1 <= i < 1 + part.len() ==> #[trigger] p[i] == part[i - 1]);
            assert(forall|i: int| 0 <= i < part.len() ==> part.contains(#[trigger] part[i]));
            assert forall|i: int| 0 <= i < p.len() && #[trigger] p[i] == '/' implies i + 1 < p.len()
                && p[i + 1] != '/' && !dots_at(p, i + 1) by {
                if i == 0 {
                    assert(p[1] == part[0]);
                    if dots_at(p, 1) {
                        if part.len() == 1 {
                            assert(part =~= seq!['.']);
                        } else if part.len() == 2 {
                            assert(p[2] == part[1]);
                            assert(part =~= seq!['.', '.']);
                        } else {
                            assert(p[2] == part[1] && p[3] == part[2]);
                        }
                    }
                } else {
                    let j = i - 1 - part.len();
                    assert(i >= 1 + part.len());
                    assert(tail[j] == '/');
                    assert(p[i + 1] == tail[j + 1]);
                }
            }
            assert(is_normal(p)) by {
                assert forall|i: int| 0 <= i < p.len() implies #[trigger] p[i] != '\\' by {
                    if i > part.len() {
                        assert(p[i] == tail[i - 1 - part.len()]);
                    }
                }
                if tail.len() > 0 {
                    assert(p.last() == tail.last());
                } else {
                    assert(p.last() == part.last());
                }
            }
        }
    }
}

/// What stands behind a slash of a path in its normal form has parts that all name
/// something, and they make up the path.
proof fn lemma_normal_parts(s: Seq<char>)
    requires
        is_normal(seq!['/'] + s),
    ensures
        rooted(text::split_on(s, '/')) == seq!['/'] + s,
        !text::split_on(s, '/').contains(seq!['.', '.']),
    decreases s.len(),
{
    let p = seq!['/'] + s;
    text::lemma_find_char(s, 0, '/');
    let i = text::find_char(s, 0, '/');
    let parts = text::split_on(s, '/');
    assert(p[0] == '/');
    assert(forall|k: int| 0 <= k < s.len() ==> #[trigger] s[k] == p[k + 1]);
    assert(s.len() > 0 && s[0] != '/' && !dots_at(p, 1));
    if i < s.len() {
        let part = s.take(i);
        let rest = s.skip(i + 1);
        assert(part.len() > 0);
        assert(part != seq!['.']) by {
            if part == seq!['.'] {
                assert(part[0] == '.');
                assert(p[1] == '.' && p[2] == '/');
            }
        }
        assert(part != seq!['.', '.']) by {
            if part == seq!['.', '.'] {
                assert(part[0] == '.' && part[1] == '.');
                assert(p[1] == '.' && p[2] == '.' && p[3] == '/');
            }
        }
        let q = seq!['/'] + rest;
        assert(p[i + 1] == '/');
        assert(is_normal(q)) by {
            assert(forall|k: int| 0 <= k < q.len() ==> #[trigger] q[k] == p[k + i + 1]);
            assert(q.last() == p.last());
            assert forall|k: int| 0 <= k < q.len() && #[trigger] q[k] == '/' implies k + 1 < q.len()
                && q[k + 1] != '/' && !dots_at(q, k + 1) by {
                assert(p[k + i + 1] == '/');
                assert(!dots_at(p, k + i + 2));
            }
        }
        lemma_normal_parts(rest);
        let more = text::split_on(rest, '/');
        assert(parts == seq![part] + more);
        assert(parts[0] == part);
        assert(parts.skip(1) =~= more);
        assert(seq!['/'] + part + (seq!['/'] + rest) =~= p) by {
            assert(s[i] == '/');
        }
        assert(!parts.contains(seq!['.', '.'])) by {
            if parts.contains(seq!['.', '.']) {
                let k = choose|k: int| 0 <= k < parts.len() && parts[k] == seq!['.', '.'];
                assert(parts[k] == more[k - 1]);
            }
        }
    } else {
        assert(parts =~= seq![s]);
        assert(parts.skip(1) =~= seq![]);
        assert(rooted(parts.skip(1)) =~= seq![]);
        assert(s != seq!['.']) by {
            if s == seq!['.'] {
                assert(s[0] == '.');
                assert(p[1] == '.');
            }
        }
        assert(s != seq!['.', '.']) by {
            if s == seq!['.', '.'] {
                assert(s[0] == '.' && s[1] == '.');
                assert(p[1] == '.' && p[2] == '.');
            }
        }
        assert(parts[0] == s);
        assert(seq!['/'] + s + seq![] =~= p);
    }
}

/// A path in its normal form is the one that it stands for.
pub proof fn normal_paths_stay(p: Seq<char>)
    requires
        is_normal(p),
    ensures
        normalised(p) == Some(p),
{
    let s = p.skip(1);
    assert(text::with_slashes(p) =~= p);
    assert(seq!['/'] + s =~= p);
    text::lemma_find_char(p, 0, '/');
    assert(p.take(0) =~= seq![]);
    let parts = text::split_on(p, '/');
    let more = text::split_on(s, '/');
    lemma_normal_parts(s);
    assert(p.skip(1) =~= s);
    assert(parts == seq![p.take(0)] + more);
    assert(parts[0].len() == 0);
    assert(parts.skip(1) =~= more);
    assert(rooted(parts) == p);
    assert(!parts.contains(seq!['.', '.'])) by {
        if parts.contains(seq!['.', '.']) {
            let k = choose|k: int| 0 <= k < parts.len() && parts[k] == seq!['.', '.'];
            assert(parts[k] == more[k - 1]);
        }
    }
}

/// A stored name has no path just where one of its parts is `..`, or none of them names
/// anything. Its path is in its normal form, which stays as it is when it is read as a
/// name again.
pub proof fn normalising_twice_is_normalising_once(name: Seq<char>)
    ensures
        ({
            let parts = text::split_on(text::with_slashes(name), '/');
            normalised(name) is None <==> parts.contains(seq!['.', '.']) || forall|k: int|
                0 <= k < parts.len() ==> (#[trigger] parts[k]).len() == 0 || parts[k] == seq!['.']
        }),
        normalised(name) matches Some(p) ==> is_normal(p) && normalised(p) == Some(p),
{
    let s = text::with_slashes(name);
    let parts = text::split_on(s, '/');
    assert(!s.contains('\\'));
    lemma_pieces(s, '/', '\\');
    if !parts.contains(seq!['.', '.']) {
        assert forall|k: int| 0 <= k < parts.len() implies !(#[trigger] parts[k]).contains('/')
            && !parts[k].contains('\\') && parts[k] != seq!['.', '.'] by {
            assert(parts.contains(parts[k]));
        }
        lemma_rooted(parts);
        if let Some(p) = normalised(name) {
            normal_paths_stay(p);
        }
    }
}

/// Whether all directories on the way to `p`, the root aside, are among `dirs`.
pub open spec fn ways_known(dirs: Seq<Seq<char>>, p: Seq<char>) -> bool {
    forall|i: int| 0 < i < p.len() && #[trigger] p[i] == '/' ==> dirs.contains(p.take(i))
}

/// Whether the directories of a catalog and its files stand in the order of their paths,
/// every path is in its normal form, and every directory on the way to it is among the
/// directories.
pub open spec fn well_rooted<V>(c: CatalogView<V>) -> bool {
    &&& ascending(c.dirs)
    &&& ascending(keys(c.files))
    &&& forall|d: Seq<char>| #[trigger]
        c.dirs.contains(d) ==> is_normal(d) && ways_known(c.dirs, d)
    &&& forall|k: int|
        0 <= k < c.files.len() ==> is_normal((#[trigger] c.files[k]).0) && ways_known(
            c.dirs,
            c.files[k].0,
        )
}

/// The directories on the way to a path are added, and no others.
proof fn lemma_parents(dirs: Seq<Seq<char>>, p: Seq<char>, n: int)
    requires
        ascending(dirs),
        n <= p.len(),
    ensures
        ascending(with_parents(dirs, p, n)),
        forall|y: Seq<char>| #[trigger]
            with_parents(dirs, p, n).contains(y) ==> dirs.contains(y) || exists|i: int|
                0 < i < n && p[i] == '/' && y == #[trigger] p.take(i),
        forall|y: Seq<char>| dirs.contains(y) ==> #[trigger] with_parents(dirs, p, n).contains(y),
        forall|i: int|
            0 < i < n && p[i] == '/' ==> with_parents(dirs, p, n).contains(#[trigger] p.take(i)),
    decreases n,
{
    if n > 1 {
        if p[n - 1] == '/' {
            let more = with_name(dirs, p.take(n - 1));
            adding_a_name_keeps_the_order(dirs, p.take(n - 1));
            lemma_parents(more, p, n - 1);
            let r = with_parents(dirs, p, n);
            assert forall|y: Seq<char>| #[trigger] r.contains(y) implies dirs.contains(y)
                || exists|i: int| 0 < i < n && p[i] == '/' && y == #[trigger] p.take(i) by {
                assert(with_parents(more, p, n - 1).contains(y));
                if more.contains(y) && !dirs.contains(y) {
                    assert(y == p.take(n - 1));
                }
            }
            assert forall|y: Seq<char>| dirs.contains(y) implies #[trigger] r.contains(y) by {
                assert(more.contains(y));
                assert(with_parents(more, p, n - 1).contains(y));
            }
            assert forall|i: int| 0 < i < n && p[i] == '/' implies r.contains(
                #[trigger] p.take(i),
            ) by {
                if i == n - 1 {
                    assert(more.contains(p.take(i)));
                    assert(with_parents(more, p, n - 1).contains(p.take(i)));
                }
            }
        } else {
            lemma_parents(dirs, p, n - 1);
        }
    }
}

/// A record that is added is the only one that was not there.
proof fn lemma_record_added<V>(s: Seq<(Seq<char>, V)>, k: Seq<char>, e: V, j: int)
    requires
        0 <= j < with_record(s, k, e).len(),
    ensures
        with_record(s, k, e)[j].0 == k || exists|i: int|
            0 <= i < s.len() && #[trigger] s[i] == with_record(s, k, e)[j],
    decreases s.len(),
{
    let r = with_record(s, k, e);
    if s.len() > 0 {
        if s[0].0 == k {
            if j > 0 {
                assert(r[j] == s[j]);
            }
        } else if name_less(k, s[0].0) {
            if j > 0 {
                assert(r[j] == s[j - 1]);
            }
        } else {
            if j == 0 {
                assert(r[0] == s[0]);
            } else {
                let t = s.skip(1);
                lemma_record_added(t, k, e, j - 1);
                assert(r[j] == with_record(t, k, e)[j - 1]);
                if r[j].0 != k {
                    let i = choose|i: int| 0 <= i < t.len() && #[trigger] t[i] == r[j];
                    assert(s[i + 1] == r[j]);
                }
            }
        }
    }
}

/// A catalog stays well rooted when a path in its normal form is added, with the
/// directories on the way to it, as a directory or as a file.
pub proof fn adding_a_path_keeps_the_roots<V>(c: CatalogView<V>, p: Seq<char>)
    requires
        well_rooted(c),
        is_normal(p),
    ensures
        well_rooted(c.holding(p)),
        well_rooted(c.holding(p).with_dir(p)),
        forall|e: V| well_rooted(#[trigger] c.holding(p).with_file(p, e)),
{
    let n = p.len() as int;
    lemma_parents(c.dirs, p, n);
    let h = c.holding(p);
    assert forall|d: Seq<char>| #[trigger] h.dirs.contains(d) implies is_normal(d) && ways_known(
        h.dirs,
        d,
    ) by {
        if c.dirs.contains(d) {
            assert forall|i: int| 0 < i < d.len() && #[trigger] d[i] == '/' implies h.dirs.contains(
                d.take(i),
            ) by {
                assert(c.dirs.contains(d.take(i)));
            }
        } else {
            let m = choose|i: int| 0 < i < n && p[i] == '/' && d == #[trigger] p.take(i);
            lemma_normal_parent(p, m);
            assert forall|i: int| 0 < i < d.len() && #[trigger] d[i] == '/' implies h.dirs.contains(
                d.take(i),
            ) by {
                assert(d.take(i) =~= p.take(i));
                assert(p[i] == '/');
            }
        }
    }
    assert(ways_known(h.dirs, p)) by {
        assert forall|i: int| 0 < i < p.len() && #[trigger] p[i] == '/' implies h.dirs.contains(
            p.take(i),
        ) by {}
    }
    assert forall|k: int| 0 <= k < h.files.len() implies is_normal((#[trigger] h.files[k]).0)
        && ways_known(h.dirs, h.files[k].0) by {
        let q = c.files[k].0;
        assert(is_normal(q) && ways_known(c.dirs, q));
        assert forall|i: int| 0 < i < q.len() && #[trigger] q[i] == '/' implies h.dirs.contains(
            q.take(i),
        ) by {
            assert(c.dirs.contains(q.take(i)));
        }
    }
    assert(well_rooted(h));
    adding_a_name_keeps_the_order(h.dirs, p);
    let d = h.with_dir(p);
    assert forall|x: Seq<char>| #[trigger] d.dirs.contains(x) implies is_normal(x) && ways_known(
        d.dirs,
        x,
    ) by {
        assert forall|i: int| 0 < i < x.len() && #[trigger] x[i] == '/' implies d.dirs.contains(
            x.take(i),
        ) by {
            if x == p {
                assert(h.dirs.contains(p.take(i)));
            } else {
                assert(h.dirs.contains(x));
                assert(h.dirs.contains(x.take(i)));
            }
        }
    }
    assert forall|k: int| 0 <= k < d.files.len() implies is_normal((#[trigger] d.files[k]).0)
        && ways_known(d.dirs, d.files[k].0) by {
        let q = h.files[k].0;
        assert(is_normal(q) && ways_known(h.dirs, q));
        assert forall|i: int| 0 < i < q.len() && #[trigger] q[i] == '/' implies d.dirs.contains(
            q.take(i),
        ) by {
            assert(h.dirs.contains(q.take(i)));
        }
    }
    assert forall|e: V| well_rooted(#[trigger] c.holding(p).with_file(p, e)) by {
        let f = h.with_file(p, e);
        storing_a_record_keeps_the_order(h.files, p, e);
        assert forall|k: int| 0 <= k < f.files.len() implies is_normal((#[trigger] f.files[k]).0)
            && ways_known(f.dirs, f.files[k].0) by {
            lemma_record_added(h.files, p, e, k);
            if f.files[k].0 != p {
                let i = choose|i: int|
                    0 <= i < h.files.len() && #[trigger] h.files[i] == f.files[k];
                assert(is_normal(h.files[i].0));
            }
        }
    }
}

/// A name stands directly below a directory if nothing but the name follows the directory's path.
pub proof fn a_child_stands_below_its_directory(base: Seq<char>, name: Seq<char>)
    requires
        name.len() > 0,
        !name.contains('/'),
    ensures
        child_of(base + seq!['/'] + name, base + seq!['/']) == Some(name),
        forall|rest: Seq<char>|
            child_of(#[trigger] (base + seq!['/'] + name + seq!['/'] + rest), base + seq!['/'])
                is None,
{
    let prefix = base + seq!['/'];
    let full = prefix + name;
    assert(full.subrange(0, prefix.len() as int) =~= prefix);
    assert(full.skip(prefix.len() as int) =~= name);
    assert forall|rest: Seq<char>|
        child_of(#[trigger] (base + seq!['/'] + name + seq!['/'] + rest), prefix) is None by {
        let deep = base + seq!['/'] + name + seq!['/'] + rest;
        let tail = deep.skip(prefix.len() as int);
        assert(tail[name.len() as int] == '/');
        assert(tail.contains('/'));
    }
}

/// Every file directly below a directory is listed under its name, with its size and its time, and
/// so is every directory.
pub proof fn a_listing_holds_what_is_below<E: Listed>(
    c: CatalogView<E::V>,
    base: Seq<char>,
    name: Seq<char>,
    i: int,
)
    requires
        name.len() > 0,
        !name.contains('/'),
    ensures
        0 <= i < c.files.len() && c.files[i].0 == base + seq!['/'] + name ==> (list_of::<E>(c, base)
            matches Some(l) && l.contains(
            entry::file_line(
                name,
                0,
                entry::clamped(E::size_of(c.files[i].1)),
                E::modified_of(c.files[i].1),
            ),
        )),
        0 <= i < c.dirs.len() && c.dirs[i] == base + seq!['/'] + name ==> (list_of::<E>(c, base)
            matches Some(l) && l.contains(entry::dir_line(name))),
{
    let prefix = base + seq!['/'];
    a_child_stands_below_its_directory(base, name);
    let d = dir_lines(c.dirs, prefix);
    let f = file_lines::<E>(c.files, prefix);
    if 0 <= i < c.files.len() && c.files[i].0 == prefix + name {
        lemma_file_line::<E>(c.files, prefix, i, name);
        let line = entry::file_line(
            name,
            0,
            entry::clamped(E::size_of(c.files[i].1)),
            E::modified_of(c.files[i].1),
        );
        let k = choose|k: int| 0 <= k < f.len() && f[k] == line;
        assert((d + f)[d.len() + k] == line);
    }
    if 0 <= i < c.dirs.len() && c.dirs[i] == prefix + name {
        lemma_dir_line(c.dirs, prefix, i, name);
        let k = choose|k: int| 0 <= k < d.len() && d[k] == entry::dir_line(name);
        assert((d + f)[k] == entry::dir_line(name));
    }
}

/// A file below a directory has its line.
proof fn lemma_file_line<E: Listed>(
    files: Seq<(Seq<char>, E::V)>,
    prefix: Seq<char>,
    i: int,
    name: Seq<char>,
)
    requires
        0 <= i < files.len(),
        child_of(files[i].0, prefix) == Some(name),
    ensures
        file_lines::<E>(files, prefix).contains(
            entry::file_line(
                name,
                0,
                entry::clamped(E::size_of(files[i].1)),
                E::modified_of(files[i].1),
            ),
        ),
    decreases files.len(),
{
    let line = entry::file_line(
        name,
        0,
        entry::clamped(E::size_of(files[i].1)),
        E::modified_of(files[i].1),
    );
    let v = file_lines::<E>(files, prefix);
    if i == files.len() - 1 {
        assert(files.last() == files[i]);
        assert(v[v.len() - 1] == line);
    } else {
        let rest = files.drop_last();
        assert(rest[i] == files[i]);
        lemma_file_line::<E>(rest, prefix, i, name);
        let head = file_lines::<E>(rest, prefix);
        let k = choose|k: int| 0 <= k < head.len() && head[k] == line;
        assert(v[k] == line);
    }
}

/// A directory below another has its line.
proof fn lemma_dir_line(dirs: Seq<Seq<char>>, prefix: Seq<char>, i: int, name: Seq<char>)
    requires
        0 <= i < dirs.len(),
        child_of(dirs[i], prefix) == Some(name),
    ensures
        dir_lines(dirs, prefix).contains(entry::dir_line(name)),
    decreases dirs.len(),
{
    let line = entry::dir_line(name);
    let v = dir_lines(dirs, prefix);
    if i == dirs.len() - 1 {
        assert(dirs.last() == dirs[i]);
        assert(v[v.len() - 1] == line);
    } else {
        let rest = dirs.drop_last();
        assert(rest[i] == dirs[i]);
        lemma_dir_line(rest, prefix, i, name);
        let head = dir_lines(rest, prefix);
        let k = choose|k: int| 0 <= k < head.len() && head[k] == line;
        assert(v[k] == line);
    }
}

/// An extraction takes every file that is anywhere below its directory, and no other.
pub proof fn an_extraction_takes_what_is_below<V>(
    files: Seq<(Seq<char>, V)>,
    base: Seq<char>,
    i: int,
)
    requires
        0 <= i < files.len(),
    ensures
        paths_below(files, base + seq!['/']).contains(files[i].0) <== exists|rest: Seq<char>|
            files[i].0 == #[trigger] (base + seq!['/'] + rest),
        forall|k: int|
            0 <= k < paths_below(files, base + seq!['/']).len() ==> text::begins(
                #[trigger] paths_below(files, base + seq!['/'])[k],
                base + seq!['/'],
            ),
    decreases files.len(),
{
    let prefix = base + seq!['/'];
    let rest = files.drop_last();
    let v = paths_below(files, prefix);
    if rest.len() > 0 {
        an_extraction_takes_what_is_below(
            rest,
            base,
            if i < rest.len() {
                i
            } else {
                0
            },
        );
    } else {
        assert(paths_below(rest, prefix) =~= seq![]);
    }
    let head = paths_below(rest, prefix);
    assert forall|k: int| 0 <= k < v.len() implies text::begins(#[trigger] v[k], prefix) by {
        if k < head.len() {
            assert(v[k] == head[k]);
        }
    }
    if exists|tail: Seq<char>| files[i].0 == #[trigger] (base + seq!['/'] + tail) {
        let tail = choose|tail: Seq<char>| files[i].0 == #[trigger] (base + seq!['/'] + tail);
        assert(files[i].0.subrange(0, prefix.len() as int) =~= prefix);
        if i < rest.len() {
            assert(rest[i] == files[i]);
            let k = choose|k: int| 0 <= k < head.len() && head[k] == files[i].0;
            assert(v[k] == files[i].0);
        } else {
            assert(v[v.len() - 1] == files[i].0);
        }
    }
}

/// Names are ordered by the first byte that differs, and a name comes before those that it begins.
pub proof fn the_first_difference_decides(same: Seq<u8>, a: u8, x: Seq<u8>, b: u8, y: Seq<u8>)
    requires
        a < b,
    ensures
        bytes_less(same + seq![a] + x, same + seq![b] + y),
        bytes_less(same, same + seq![b] + y),
    decreases same.len(),
{
    let s = same + seq![a] + x;
    let t = same + seq![b] + y;
    if same.len() > 0 {
        let tail = same.skip(1);
        assert(s.skip(1) =~= tail + seq![a] + x);
        assert(t.skip(1) =~= tail + seq![b] + y);
        assert(s[0] == same[0] && t[0] == same[0]);
        the_first_difference_decides(tail, a, x, b, y);
    } else {
        assert(s[0] == a && t[0] == b);
    }
}

} // verus!
