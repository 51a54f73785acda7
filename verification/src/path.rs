//! Paths of the host and of images. Where nothing else is said, `/` stands between their
//! components.
use vstd::prelude::*;
use crate::text;
use crate::text::{chars_of, cut_chars, same_chars, split, string_of, turn_slashes};

verus! {

/// A path without what its end does not need: separators after its last
/// component, and components `.` behind a separator.
pub open spec fn tidy(s: Seq<char>) -> Seq<char>
    decreases s.len(),
{
    if s.len() > 1 && s.last() == '/' {
        tidy(s.drop_last())
    } else if s.len() > 1 && s.last() == '.' && s[s.len() - 2] == '/' {
        tidy(s.drop_last())
    } else {
        s
    }
}

/// The index behind the last separator of a path, or zero.
pub open spec fn leaf_start(s: Seq<char>) -> int
    decreases s.len(),
{
    if s.len() == 0 {
        0
    } else if s.last() == '/' {
        s.len() as int
    } else {
        leaf_start(s.drop_last())
    }
}

/// The directory part and the name of the last component of a path. There is
/// none where the path is empty, a root, or ends in `.` or `..`.
pub open spec fn leaf(s: Seq<char>) -> Option<(Seq<char>, Seq<char>)> {
    let t = tidy(s);
    let at = leaf_start(t);
    let name = t.skip(at);
    if name.len() == 0 || name == seq!['.'] || name == seq!['.', '.'] {
        None
    } else {
        Some((tidy(t.take(at)), name))
    }
}

/// The path of `name` as seen from the directory `dir`: an absolute `name` stands
/// for itself.
pub open spec fn joined(dir: Seq<char>, name: Seq<char>) -> Seq<char> {
    if name.len() > 0 && name[0] == '/' {
        name
    } else if dir.len() == 0 || dir.last() == '/' {
        dir + name
    } else {
        dir + seq!['/'] + name
    }
}

/// Drops what the end of a path does not need.
fn tidy_chars(s: Vec<char>) -> (r: Vec<char>)
    ensures
        r@ == tidy(s@),
{
    let mut r: Vec<char> = s;
    while r.len() > 1 && (r[r.len() - 1] == '/' || (r[r.len() - 1] == '.' && r[r.len() - 2] == '/'))
        invariant
            tidy(r@) == tidy(s@),
        decreases r@.len(),
    {
        let ghost before = r@;
        let _ = r.pop();
        assert(r@ =~= before.drop_last());
    }
    r
}

/// Splits a path into its directory part and the name of its last component.
pub fn split_leaf(path: &str) -> (r: Option<(String, String)>)
    ensures
        r is None <==> leaf(path@) is None,
        r matches Some(p) ==> leaf(path@) == Some((p.0@, p.1@)),
{
    let t: Vec<char> = tidy_chars(chars_of(path));
    let mut at: usize = t.len();
    assert(t@.take(at as int) =~= t@);
    while at > 0 && t[at - 1] != '/'
        invariant
            at <= t@.len(),
            leaf_start(t@) == leaf_start(t@.take(at as int)),
        decreases at,
    {
        assert(t@.take(at as int).drop_last() =~= t@.take(at - 1));
        at -= 1;
    }
    let n: usize = t.len();
    let name: Vec<char> = cut_chars(t.as_slice(), at, n);
    assert(name@ =~= t@.skip(at as int));
    if name.len() == 0 {
        return None;
    }
    if name.len() == 1 && name[0] == '.' {
        assert(name@ =~= seq!['.']);
        return None;
    }
    if name.len() == 2 && name[0] == '.' && name[1] == '.' {
        assert(name@ =~= seq!['.', '.']);
        return None;
    }
    let head: Vec<char> = cut_chars(t.as_slice(), 0, at);
    assert(head@ =~= t@.take(at as int));
    let parent: Vec<char> = tidy_chars(head);
    Some((string_of(parent.as_slice()), string_of(name.as_slice())))
}

/// The path of `name` as seen from the directory `dir`.
pub fn join_path(dir: &str, name: &str) -> (r: String)
    ensures
        r@ == joined(dir@, name@),
{
    let d: Vec<char> = chars_of(dir);
    let n: Vec<char> = chars_of(name);
    if n.len() > 0 && n[0] == '/' {
        return name.to_owned();
    }
    let mut r: String = dir.to_owned();
    if d.len() > 0 && d[d.len() - 1] != '/' {
        r.push('/');
        assert(dir@.push('/') =~= dir@ + seq!['/']);
    }
    r.append(name);
    r
}

// ── Equality ────────────────────────────────────────────────────────────────

/// Whether a path starts at the root.
pub open spec fn is_rooted(s: Seq<char>) -> bool {
    s.len() > 0 && s[0] == '/'
}

/// Whether the piece `i` of a path between separators is a component: an empty one
/// is not, and `.` only at the start of a path.
pub open spec fn is_component(parts: Seq<Seq<char>>, i: int) -> bool {
    parts[i].len() > 0 && (i == 0 || parts[i] != seq!['.'])
}

/// The components among the first `n` pieces of a path.
pub open spec fn components_to(parts: Seq<Seq<char>>, n: int) -> Seq<Seq<char>>
    decreases n,
{
    if n <= 0 {
        seq![]
    } else if is_component(parts, n - 1) {
        components_to(parts, n - 1).push(parts[n - 1])
    } else {
        components_to(parts, n - 1)
    }
}

/// The components of a path.
pub open spec fn components(s: Seq<char>) -> Seq<Seq<char>> {
    let parts = text::split_on(s, '/');
    components_to(parts, parts.len() as int)
}

/// What makes out a path: whether it starts at the root, and its components.
pub open spec fn path_key(s: Seq<char>) -> (bool, Seq<Seq<char>>) {
    (is_rooted(s), components(s))
}

/// Whether two paths are equal: both start at the root or neither does, and they have
/// the same components.
pub open spec fn same_path(a: Seq<char>, b: Seq<char>) -> bool {
    path_key(a) == path_key(b)
}

/// A directory of the host, and whether `\` separates components there as `/` does.
pub struct HostDir {
    pub path: String,
    pub backslash: bool,
}

/// The contents of a directory of the host.
#[verifier::ext_equal]
pub struct HostDirView {
    pub path: Seq<char>,
    pub backslash: bool,
}

impl View for HostDir {
    type V = HostDirView;

    open spec fn view(&self) -> HostDirView {
        HostDirView { path: self.path@, backslash: self.backslash }
    }
}

/// Whether two names stand for the same path as seen from a directory.
pub open spec fn same_file(dir: HostDirView, a: Seq<char>, b: Seq<char>) -> bool {
    if dir.backslash {
        same_path(
            joined(text::with_slashes(dir.path), text::with_slashes(a)),
            joined(text::with_slashes(dir.path), text::with_slashes(b)),
        )
    } else {
        same_path(joined(dir.path, a), joined(dir.path, b))
    }
}

/// Finds the components of a path.
fn find_components(s: &[char]) -> (r: Vec<Vec<char>>)
    ensures
        text::texts(r@) == components(s@),
{
    let parts: Vec<Vec<char>> = split(s, '/');
    let ghost all = text::texts(parts@);
    let mut r: Vec<Vec<char>> = Vec::new();
    let mut i: usize = 0;
    assert(text::texts(r@) =~= components_to(all, 0));
    while i < parts.len()
        invariant
            i <= parts@.len(),
            all == text::texts(parts@),
            text::texts(r@) == components_to(all, i as int),
        decreases parts@.len() - i,
    {
        let p: &[char] = parts[i].as_slice();
        assert(all[i as int] == p@);
        let dot: bool = p.len() == 1 && p[0] == '.';
        proof {
            if dot {
                assert(p@ =~= seq!['.']);
            }
            assert(seq!['.'].len() == 1 && seq!['.'][0] == '.');
        }
        if p.len() > 0 && (i == 0 || !dot) {
            let ghost before = text::texts(r@);
            assert(p@.subrange(0, p@.len() as int) =~= p@);
            r.push(cut_chars(p, 0, p.len()));
            assert(text::texts(r@) =~= before.push(p@));
        }
        i += 1;
    }
    r
}

/// Whether two paths are equal.
pub fn equal_paths(a: &str, b: &str) -> (r: bool)
    ensures
        r == same_path(a@, b@),
{
    let x: Vec<char> = chars_of(a);
    let y: Vec<char> = chars_of(b);
    if (x.len() > 0 && x[0] == '/') != (y.len() > 0 && y[0] == '/') {
        return false;
    }
    let v: Vec<Vec<char>> = find_components(x.as_slice());
    let w: Vec<Vec<char>> = find_components(y.as_slice());
    assert(components(a@).len() == v@.len() && components(b@).len() == w@.len());
    if v.len() != w.len() {
        return false;
    }
    let mut i: usize = 0;
    while i < v.len()
        invariant
            i <= v@.len(),
            v@.len() == w@.len(),
            text::texts(v@) == components(a@),
            text::texts(w@) == components(b@),
            forall|j: int| 0 <= j < i ==> components(a@)[j] == components(b@)[j],
        decreases v@.len() - i,
    {
        assert(components(a@)[i as int] == v@[i as int]@);
        assert(components(b@)[i as int] == w@[i as int]@);
        if !same_chars(v[i].as_slice(), w[i].as_slice()) {
            return false;
        }
        i += 1;
    }
    assert(components(a@) =~= components(b@));
    true
}

/// A text with `/` for every `\`.
fn turned(s: &str) -> (r: String)
    ensures
        r@ == text::with_slashes(s@),
{
    string_of(turn_slashes(chars_of(s).as_slice()).as_slice())
}

/// Whether two names stand for the same path as seen from a directory.
pub fn equal_files(dir: &HostDir, a: &str, b: &str) -> (r: bool)
    ensures
        r == same_file(dir@, a@, b@),
{
    if dir.backslash {
        let d: String = turned(dir.path.as_str());
        let m: String = turned(a);
        let n: String = turned(b);
        let x: String = join_path(d.as_str(), m.as_str());
        let y: String = join_path(d.as_str(), n.as_str());
        equal_paths(x.as_str(), y.as_str())
    } else {
        let x: String = join_path(dir.path.as_str(), a);
        let y: String = join_path(dir.path.as_str(), b);
        equal_paths(x.as_str(), y.as_str())
    }
}

/// That two names stand for the same path is an equivalence.
pub proof fn equality_of_files_is_an_equivalence(
    dir: HostDirView,
    a: Seq<char>,
    b: Seq<char>,
    c: Seq<char>,
)
    ensures
        same_file(dir, a, a),
        same_file(dir, a, b) == same_file(dir, b, a),
        same_file(dir, a, b) && same_file(dir, b, c) ==> same_file(dir, a, c),
{
}

// ── Windows ─────────────────────────────────────────────────────────────────

/// Whether a character separates components on Windows.
pub open spec fn is_separator(c: char) -> bool {
    c == '/' || c == '\\'
}

/// The first separator from `i` on, or the end.
pub open spec fn next_separator(s: Seq<char>, i: int) -> int
    decreases s.len() - i,
{
    if i < 0 || i >= s.len() || is_separator(s[i]) {
        i
    } else {
        next_separator(s, i + 1)
    }
}

/// Whether a path begins with the letter of a drive and a colon.
pub open spec fn has_drive(s: Seq<char>) -> bool {
    s.len() >= 2 && s[1] == ':' && (65 <= s[0] as u32 <= 90 || 97 <= s[0] as u32 <= 122)
}

/// How many characters of a Windows path name its volume: a drive, or behind two
/// separators a server and what it shares.
pub open spec fn volume_len(s: Seq<char>) -> int {
    if has_drive(s) {
        2
    } else if s.len() >= 2 && is_separator(s[0]) && is_separator(s[1]) {
        let server = next_separator(s, 2);
        if server < s.len() {
            next_separator(s, server + 1)
        } else {
            server
        }
    } else {
        0
    }
}

/// The directory part and the name of the last component of a Windows path. There is
/// none where nothing stands behind the volume, and where the path ends in `.` or `..`.
pub open spec fn windows_leaf(s: Seq<char>) -> Option<(Seq<char>, Seq<char>)> {
    let v = volume_len(s);
    match leaf(text::with_slashes(s.skip(v))) {
        None => None,
        Some((dir, name)) => Some((s.take(v + dir.len()), name)),
    }
}

/// The path of `name`, which is one component, in the directory `dir` of Windows. A
/// drive without a root takes no separator.
pub open spec fn windows_joined(dir: Seq<char>, name: Seq<char>) -> Seq<char> {
    if dir.len() == 0 || is_separator(dir.last()) || (dir.len() == 2 && has_drive(dir)) {
        dir + name
    } else {
        dir + seq!['\\'] + name
    }
}

fn separator(c: char) -> (r: bool)
    ensures
        r == is_separator(c),
{
    c == '/' || c == '\\'
}

fn find_separator(s: &[char], i: usize) -> (r: usize)
    requires
        i <= s@.len(),
    ensures
        r == next_separator(s@, i as int),
        i <= r <= s@.len(),
{
    let mut k: usize = i;
    while k < s.len() && !separator(s[k])
        invariant
            i <= k <= s@.len(),
            next_separator(s@, k as int) == next_separator(s@, i as int),
        decreases s@.len() - k,
    {
        k += 1;
    }
    k
}

fn drive(s: &[char]) -> (r: bool)
    ensures
        r == has_drive(s@),
{
    if s.len() < 2 {
        return false;
    }
    let d: u32 = s[0] as u32;
    s[1] == ':' && ((65 <= d && d <= 90) || (97 <= d && d <= 122))
}

fn find_volume_len(s: &[char]) -> (r: usize)
    ensures
        r == volume_len(s@),
        r <= s@.len(),
{
    if drive(s) {
        2
    } else if s.len() >= 2 && separator(s[0]) && separator(s[1]) {
        let server: usize = find_separator(s, 2);
        if server < s.len() {
            find_separator(s, server + 1)
        } else {
            server
        }
    } else {
        0
    }
}

proof fn lemma_tidy_len(s: Seq<char>)
    ensures
        tidy(s).len() <= s.len(),
    decreases s.len(),
{
    if s.len() > 1 && (s.last() == '/' || (s.last() == '.' && s[s.len() - 2] == '/')) {
        lemma_tidy_len(s.drop_last());
    }
}

proof fn lemma_leaf_start(s: Seq<char>)
    ensures
        0 <= leaf_start(s) <= s.len(),
    decreases s.len(),
{
    if s.len() > 0 && s.last() != '/' {
        lemma_leaf_start(s.drop_last());
    }
}

/// Splits a Windows path into its directory part and the name of its last component.
pub fn split_windows_leaf(path: &str) -> (r: Option<(String, String)>)
    ensures
        r is None <==> windows_leaf(path@) is None,
        r matches Some(p) ==> windows_leaf(path@) == Some((p.0@, p.1@)),
{
    let c: Vec<char> = chars_of(path);
    let v: usize = find_volume_len(c.as_slice());
    let ghost body = text::with_slashes(c@.skip(v as int));
    let tail: Vec<char> = cut_chars(c.as_slice(), v, c.len());
    assert(tail@ =~= c@.skip(v as int));
    let rest: String = string_of(turn_slashes(tail.as_slice()).as_slice());
    match split_leaf(rest.as_str()) {
        None => None,
        Some((dir, name)) => {
            let n: usize = chars_of(dir.as_str()).len();
            proof {
                let t = tidy(body);
                lemma_tidy_len(body);
                lemma_leaf_start(t);
                lemma_tidy_len(t.take(leaf_start(t)));
            }
            let head: Vec<char> = cut_chars(c.as_slice(), 0, v + n);
            assert(head@ =~= path@.take(v + n));
            Some((string_of(head.as_slice()), name))
        },
    }
}

/// The path of `name`, which is one component, in the directory `dir` of Windows.
pub fn join_windows(dir: &str, name: &str) -> (r: String)
    ensures
        r@ == windows_joined(dir@, name@),
{
    let d: Vec<char> = chars_of(dir);
    let mut r: String = dir.to_owned();
    if d.len() > 0 && !separator(d[d.len() - 1]) && !(d.len() == 2 && drive(d.as_slice())) {
        r.push('\\');
        assert(dir@.push('\\') =~= dir@ + seq!['\\']);
    }
    r.append(name);
    r
}

// ── Paths inside an image ───────────────────────────────────────────────────

/// The index of the last `/` of a path, or `-1`.
pub open spec fn last_slash(s: Seq<char>) -> int
    decreases s.len(),
{
    if s.len() == 0 {
        -1
    } else if s.last() == '/' {
        s.len() - 1
    } else {
        last_slash(s.drop_last())
    }
}

/// What stands before the last `/` of a path.
pub open spec fn dir_part(s: Seq<char>) -> Seq<char> {
    if last_slash(s) < 0 {
        seq![]
    } else {
        s.take(last_slash(s))
    }
}

/// What stands behind the last `/` of a path.
pub open spec fn name_part(s: Seq<char>) -> Seq<char> {
    s.skip(last_slash(s) + 1)
}

/// Splits a path, without the slashes in front of it, at its last `/`.
pub fn split_path(path: &str) -> (r: (String, String))
    ensures
        r.0@ == dir_part(text::strip_front(path@, '/')),
        r.1@ == name_part(text::strip_front(path@, '/')),
{
    let all: Vec<char> = crate::text::chars_of(path);
    let c: Vec<char> = crate::text::trim_start_of(all.as_slice(), '/');
    let mut e: usize = c.len();
    assert(c@.take(e as int) =~= c@);
    while e > 0 && c[e - 1] != '/'
        invariant
            e <= c@.len(),
            last_slash(c@) == last_slash(c@.take(e as int)),
        decreases e,
    {
        assert(c@.take(e as int).drop_last() =~= c@.take(e - 1));
        e -= 1;
    }
    let dir: Vec<char> = if e == 0 {
        let d: Vec<char> = Vec::new();
        assert(d@ =~= seq![]);
        d
    } else {
        let d: Vec<char> = crate::text::cut_chars(c.as_slice(), 0, e - 1);
        assert(d@ =~= c@.take(e - 1));
        d
    };
    let name: Vec<char> = crate::text::cut_chars(c.as_slice(), e, c.len());
    assert(name@ =~= c@.skip(e as int));
    (crate::text::string_of(dir.as_slice()), crate::text::string_of(name.as_slice()))
}

/// A path is split at its last slash.
pub proof fn a_path_is_split_at_its_last_slash(dir: Seq<char>, name: Seq<char>)
    requires
        !name.contains('/'),
    ensures
        dir_part(dir + seq!['/'] + name) == dir,
        name_part(dir + seq!['/'] + name) == name,
        dir_part(name) == Seq::<char>::empty(),
        name_part(name) == name,
        name.len() > 0 ==> text::strip_front(seq!['/'] + name, '/') == name,
        dir.len() > 0 && dir[0] != '/' ==> text::strip_front(
            seq!['/'] + dir + seq!['/'] + name,
            '/',
        ) == dir + seq!['/'] + name,
{
    let front = dir + seq!['/'];
    lemma_last_slash(front, name);
    lemma_last_slash(seq![], name);
    let s = dir + seq!['/'] + name;
    assert(Seq::<char>::empty() + name =~= name);
    assert(s.take(dir.len() as int) =~= dir);
    assert(s.skip(dir.len() as int + 1) =~= name);
    assert(name.skip(0) =~= name);
    let t = seq!['/'] + name;
    assert(t.skip(1) =~= name);
    if name.len() > 0 {
        assert(name.contains(name[0]));
        assert(text::strip_front(name, '/') == name);
    }
    let u = seq!['/'] + dir + seq!['/'] + name;
    assert(u.skip(1) =~= s);
    if dir.len() > 0 && dir[0] != '/' {
        assert(s[0] == dir[0]);
        assert(text::strip_front(s, '/') == s);
    }
}

/// The last slash of a path stands before its name.
proof fn lemma_last_slash(front: Seq<char>, name: Seq<char>)
    requires
        !name.contains('/'),
        front.len() > 0 ==> front.last() == '/',
    ensures
        last_slash(front + name) == front.len() - 1,
    decreases name.len(),
{
    let s = front + name;
    if name.len() > 0 {
        assert(s.last() == name.last());
        assert(name.contains(name.last()));
        assert(s.drop_last() =~= front + name.drop_last());
        assert(!name.drop_last().contains('/')) by {
            if name.drop_last().contains('/') {
                let i = choose|i: int|
                    0 <= i < name.drop_last().len() && name.drop_last()[i] == '/';
                assert(name[i] == '/');
            }
        }
        lemma_last_slash(front, name.drop_last());
    } else {
        assert(s =~= front);
    }
}

/// A name is looked for in its directory, unless it is a path of its own.
pub proof fn a_name_stands_in_its_directory(dir: Seq<char>, name: Seq<char>)
    requires
        dir.len() > 0,
        name.len() > 0,
    ensures
        name[0] == '/' ==> joined(dir, name) == name,
        name[0] != '/' && dir.last() != '/' ==> joined(dir, name) == dir + seq!['/'] + name,
        name[0] != '/' && dir.last() == '/' ==> joined(dir, name) == dir + name,
        name[0] != '/' ==> joined(seq![], name) == name,
{
    assert(Seq::<char>::empty() + name =~= name);
}

/// The last component of a path, and the directory before it.
pub proof fn a_leaf_stands_in_its_directory(dir: Seq<char>, name: Seq<char>)
    requires
        name.len() > 0,
        !name.contains('/'),
        name != seq!['.'],
        name != seq!['.', '.'],
        dir.len() > 0,
        dir.last() != '/',
        dir.last() != '.',
    ensures
        leaf(dir + seq!['/'] + name) == Some((dir, name)),
        leaf(dir + seq!['/'] + name + seq!['/']) == Some((dir, name)),
        leaf(name) == Some((Seq::<char>::empty(), name)),
{
    let front = dir + seq!['/'];
    let s = front + name;
    assert(name.contains(name.last()));
    assert(s.last() == name.last());
    assert(s == dir + seq!['/'] + name);
    if name.last() == '.' {
        if name.len() == 1 {
            assert(name =~= seq!['.']);
        } else {
            assert(name.contains(name[name.len() - 2]));
            assert(s[s.len() - 2] == name[name.len() - 2]);
        }
    }
    assert(tidy(s) == s);
    lemma_name_start(front, name);
    assert(s.skip(front.len() as int) =~= name);
    assert(s.take(front.len() as int) =~= front);
    assert(front.last() == '/');
    assert(front.drop_last() =~= dir);
    assert(tidy(dir) == dir);
    assert(tidy(front) == dir);
    let t = s + seq!['/'];
    assert(t.last() == '/');
    assert(t.drop_last() =~= s);
    assert(tidy(t) == tidy(s));
    let none = Seq::<char>::empty();
    lemma_name_start(none, name);
    assert(none + name =~= name);
    assert(tidy(name) == name);
    assert(name.skip(0) =~= name);
    assert(name.take(0) =~= none);
    assert(tidy(none) == none);
}

/// A name starts behind the last separator.
proof fn lemma_name_start(front: Seq<char>, name: Seq<char>)
    requires
        !name.contains('/'),
        front.len() > 0 ==> front.last() == '/',
    ensures
        leaf_start(front + name) == front.len(),
    decreases name.len(),
{
    let s = front + name;
    if name.len() > 0 {
        assert(s.last() == name.last());
        assert(name.contains(name.last()));
        assert(s.drop_last() =~= front + name.drop_last());
        assert(!name.drop_last().contains('/')) by {
            if name.drop_last().contains('/') {
                let i = choose|i: int|
                    0 <= i < name.drop_last().len() && name.drop_last()[i] == '/';
                assert(name[i] == '/');
            }
        }
        lemma_name_start(front, name.drop_last());
    } else {
        assert(s =~= front);
    }
}

} // verus!
