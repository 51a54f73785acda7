//! Names that are safe to create on the host's file system.
use vstd::prelude::*;
use crate::path;
use crate::path::{join_path, join_windows, split_leaf, split_windows_leaf};
use crate::text;
use crate::text::{ascii_upper, chars_of, find_char_from, string_of};

verus! {

/// Whether a character may not stand in a host file name: the path separators,
/// what Windows refuses, and control characters.
pub open spec fn is_illegal(c: char) -> bool {
    ||| c == '<'
    ||| c == '>'
    ||| c == ':'
    ||| c == '"'
    ||| c == '/'
    ||| c == '\\'
    ||| c == '|'
    ||| c == '?'
    ||| c == '*'
    ||| (c as u32) < 0x20
}

/// `s` with an underscore for every illegal character.
pub open spec fn scrubbed(s: Seq<char>) -> Seq<char> {
    Seq::new(
        s.len(),
        |i: int|
            if is_illegal(s[i]) {
                '_'
            } else {
                s[i]
            },
    )
}

/// `s` without the dots and spaces at its end.
pub open spec fn without_tail(s: Seq<char>) -> Seq<char>
    decreases s.len(),
{
    if s.len() > 0 && (s.last() == ' ' || s.last() == '.') {
        without_tail(s.drop_last())
    } else {
        s
    }
}

/// What stands before the first dot of a name.
pub open spec fn stem(s: Seq<char>) -> Seq<char> {
    s.take(text::find_char(s, 0, '.'))
}

/// Whether `s`, letters in upper case, is a device name that Windows reserves.
pub open spec fn is_device(s: Seq<char>) -> bool {
    let u = s.map_values(|c: char| text::upper(c));
    ||| u == seq!['C', 'O', 'N']
    ||| u == seq!['P', 'R', 'N']
    ||| u == seq!['A', 'U', 'X']
    ||| u == seq!['N', 'U', 'L']
    ||| u.len() == 4 && (u.take(3) == seq!['C', 'O', 'M'] || u.take(3) == seq!['L', 'P', 'T']) && 49 <= u[3] as u32
        <= 57
}

/// The host name for a name found on a disc.
pub open spec fn sanitized(s: Seq<char>) -> Seq<char> {
    let t = without_tail(scrubbed(s));
    if t.len() == 0 {
        seq!['_']
    } else if is_device(stem(t)) {
        seq!['_'] + t
    } else {
        t
    }
}

/// The destination path with its last component made safe.
pub open spec fn sanitized_leaf(dest: Seq<char>) -> Seq<char> {
    match path::leaf(dest) {
        Some((parent, name)) => if parent.len() == 0 {
            sanitized(name)
        } else {
            path::joined(parent, sanitized(name))
        },
        None => dest,
    }
}

/// The destination path on Windows with its last component made safe.
pub open spec fn sanitized_windows_leaf(dest: Seq<char>) -> Seq<char> {
    match path::windows_leaf(dest) {
        Some((parent, name)) => path::windows_joined(parent, sanitized(name)),
        None => dest,
    }
}

proof fn lemma_without_tail(s: Seq<char>)
    ensures
        without_tail(s).len() <= s.len(),
        without_tail(s) == s.take(without_tail(s).len() as int),
        without_tail(s).len() > 0 ==> without_tail(s).last() != ' ' && without_tail(s).last() != '.',
    decreases s.len(),
{
    if s.len() > 0 && (s.last() == ' ' || s.last() == '.') {
        lemma_without_tail(s.drop_last());
        assert(s.drop_last().take(without_tail(s).len() as int) =~= s.take(
            without_tail(s).len() as int,
        ));
    } else {
        assert(s.take(s.len() as int) =~= s);
    }
}

/// A sanitized name is not the name of a device.
proof fn lemma_no_device(s: Seq<char>)
    ensures
        !is_device(stem(sanitized(s))),
{
    let r = sanitized(s);
    let t = without_tail(scrubbed(s));
    if t.len() > 0 && is_device(stem(t)) {
        text::lemma_find_char(r, 0, '.');
        let m = stem(r);
        if is_device(m) {
            let u = m.map_values(|c: char| text::upper(c));
            assert(m.len() > 0);
            assert(m[0] == r[0]);
            assert(u[0] == '_');
            assert(seq!['C', 'O', 'N'][0] == 'C');
            assert(u.take(3)[0] == u[0] || u.len() < 3);
            assert(seq!['P', 'R', 'N'][0] == 'P');
            assert(seq!['A', 'U', 'X'][0] == 'A');
            assert(seq!['N', 'U', 'L'][0] == 'N');
            assert(seq!['C', 'O', 'M'][0] == 'C');
            assert(seq!['L', 'P', 'T'][0] == 'L');
            assert(false);
        }
    } else if t.len() == 0 {
        let m = stem(r);
        text::lemma_find_char(r, 0, '.');
        let u = m.map_values(|c: char| text::upper(c));
        assert(u.len() <= 1);
        assert(!is_device(m));
    }
}

/// A name without illegal characters stays as it is, where it is too long for a device
/// and does not end in a dot or a space.
pub proof fn lemma_plain_name(s: Seq<char>)
    requires
        s.len() > 4,
        forall|i: int| 0 <= i < s.len() ==> !is_illegal(#[trigger] s[i]),
        forall|i: int| 0 <= i < 5 ==> #[trigger] s[i] != '.',
        s.last() != '.',
        s.last() != ' ',
    ensures
        sanitized(s) == s,
{
    assert(scrubbed(s) =~= s);
    text::lemma_find_char(s, 0, '.');
    let u = stem(s).map_values(|c: char| text::upper(c));
    assert(stem(s).len() > 4) by {
        let i = text::find_char(s, 0, '.');
        if i < 5 {
            assert(s[i] == '.');
        }
    }
    assert(u.len() > 4);
    assert(seq!['C', 'O', 'N'].len() == 3 && seq!['P', 'R', 'N'].len() == 3 && seq![
        'A',
        'U',
        'X',
    ].len() == 3 && seq!['N', 'U', 'L'].len() == 3);
}

/// A sanitized name holds no path separator, no character that Windows refuses
/// and no control character; it is not empty, and it does not end in a dot or
/// a space, so it is neither `.` nor `..`, and it is not the name of a device:
/// created below a directory, it names an entry of that directory.
pub proof fn sanitized_name_stays_in_its_directory(s: Seq<char>)
    ensures
        sanitized(s).len() > 0,
        forall|i: int| 0 <= i < sanitized(s).len() ==> !is_illegal(#[trigger] sanitized(s)[i]),
        sanitized(s).last() != '.',
        sanitized(s).last() != ' ',
        sanitized(s) != seq!['.'],
        sanitized(s) != seq!['.', '.'],
        !is_device(stem(sanitized(s))),
{
    let t = without_tail(scrubbed(s));
    lemma_without_tail(scrubbed(s));
    lemma_no_device(s);
    assert forall|i: int| 0 <= i < t.len() implies !is_illegal(t[i]) by {
        assert(t[i] == scrubbed(s)[i]);
    }
    assert(seq!['.'].last() == '.');
    assert(seq!['.', '.'].last() == '.');
}

/// Sanitizing a sanitized name changes nothing.
pub proof fn sanitizing_twice_is_sanitizing_once(s: Seq<char>)
    ensures
        sanitized(sanitized(s)) == sanitized(s),
{
    let r = sanitized(s);
    sanitized_name_stays_in_its_directory(s);
    assert(scrubbed(r) =~= r);
    assert(without_tail(r) == r);
}

/// Whether a character may not stand in a host file name.
fn illegal(c: char) -> (r: bool)
    ensures
        r == is_illegal(c),
{
    c == '<' || c == '>' || c == ':' || c == '"' || c == '/' || c == '\\' || c == '|' || c == '?'
        || c == '*' || (c as u32) < 0x20
}

/// Whether the name up to index `end` is a reserved device name.
fn device(s: &[char], end: usize) -> (r: bool)
    requires
        end <= s@.len(),
    ensures
        r == is_device(s@.take(end as int)),
{
    let mut u: Vec<char> = Vec::new();
    let mut i: usize = 0;
    while i < end
        invariant
            i <= end <= s@.len(),
            u@.len() == i,
            forall|j: int| 0 <= j < i ==> u@[j] == text::upper(s@[j]),
        decreases end - i,
    {
        u.push(ascii_upper(s[i]));
        i += 1;
    }
    let ghost m = s@.take(end as int).map_values(|c: char| text::upper(c));
    assert(u@ =~= m);
    if end == 3 {
        let r = (u[0] == 'C' && u[1] == 'O' && u[2] == 'N') || (u[0] == 'P' && u[1] == 'R' && u[2]
            == 'N') || (u[0] == 'A' && u[1] == 'U' && u[2] == 'X') || (u[0] == 'N' && u[1] == 'U'
            && u[2] == 'L');
        proof {
            if m[0] == 'C' && m[1] == 'O' && m[2] == 'N' {
                assert(m =~= seq!['C', 'O', 'N']);
            }
            if m[0] == 'P' && m[1] == 'R' && m[2] == 'N' {
                assert(m =~= seq!['P', 'R', 'N']);
            }
            if m[0] == 'A' && m[1] == 'U' && m[2] == 'X' {
                assert(m =~= seq!['A', 'U', 'X']);
            }
            if m[0] == 'N' && m[1] == 'U' && m[2] == 'L' {
                assert(m =~= seq!['N', 'U', 'L']);
            }
        }
        r
    } else if end == 4 {
        let com = u[0] == 'C' && u[1] == 'O' && u[2] == 'M';
        let lpt = u[0] == 'L' && u[1] == 'P' && u[2] == 'T';
        let d: u32 = u[3] as u32;
        proof {
            assert(m.take(3)[0] == m[0] && m.take(3)[1] == m[1] && m.take(3)[2] == m[2]);
            if com {
                assert(m.take(3) =~= seq!['C', 'O', 'M']);
            }
            if lpt {
                assert(m.take(3) =~= seq!['L', 'P', 'T']);
            }
        }
        (com || lpt) && 49 <= d && d <= 57
    } else {
        false
    }
}

/// Makes one path component safe for the host's file system: characters that
/// are illegal there become underscores, dots and spaces at the end go, a
/// reserved device name gets an underscore in front, and nothing at all
/// becomes one underscore.
pub fn sanitize_component(name: &str) -> (r: String)
    ensures
        r@ == sanitized(name@),
{
    let src: Vec<char> = chars_of(name);
    let mut out: Vec<char> = Vec::new();
    let mut i: usize = 0;
    while i < src.len()
        invariant
            src@ == name@,
            i <= src@.len(),
            out@ == scrubbed(name@).take(i as int),
        decreases src@.len() - i,
    {
        let ghost before = out@;
        if illegal(src[i]) {
            out.push('_');
        } else {
            out.push(src[i]);
        }
        assert(out@ =~= scrubbed(name@).take(i + 1));
        i += 1;
    }
    let ghost full = scrubbed(name@);
    assert(full.take(full.len() as int) =~= full);
    while out.len() > 0 && (out[out.len() - 1] == ' ' || out[out.len() - 1] == '.')
        invariant
            without_tail(out@) == without_tail(full),
        decreases out@.len(),
    {
        let ghost before = out@;
        let _ = out.pop();
        assert(out@ =~= before.drop_last());
    }
    if out.len() == 0 {
        let one: Vec<char> = vec!['_'];
        assert(one@ =~= seq!['_']);
        return string_of(one.as_slice());
    }
    let dot: usize = find_char_from(out.as_slice(), 0, '.');
    if device(out.as_slice(), dot) {
        let ghost before = out@;
        out.insert(0, '_');
        assert(out@ =~= seq!['_'] + before);
    }
    string_of(out.as_slice())
}

/// Makes the last component of a destination path safe and leaves the
/// directories before it alone. A path without such a component is returned
/// as it is.
pub fn sanitize_dest_leaf(dest_path: &str) -> (r: String)
    ensures
        r@ == sanitized_leaf(dest_path@),
{
    match split_leaf(dest_path) {
        Some((parent, name)) => {
            let safe: String = sanitize_component(name.as_str());
            if parent.as_str().is_empty() {
                safe
            } else {
                join_path(parent.as_str(), safe.as_str())
            }
        },
        None => dest_path.to_owned(),
    }
}

/// Does the same for a path of Windows, where `\` separates components as `/` does.
pub fn sanitize_windows_dest_leaf(dest_path: &str) -> (r: String)
    ensures
        r@ == sanitized_windows_leaf(dest_path@),
{
    match split_windows_leaf(dest_path) {
        Some((parent, name)) => {
            let safe: String = sanitize_component(name.as_str());
            join_windows(parent.as_str(), safe.as_str())
        },
        None => dest_path.to_owned(),
    }
}

/// A safe name has none of the characters that a host refuses.
pub proof fn a_safe_name_has_no_refused_character(s: Seq<char>, i: int)
    requires
        0 <= i < sanitized(s).len(),
    ensures
        ({
            let c = sanitized(s)[i];
            &&& c != '<' && c != '>' && c != ':' && c != '"' && c != '/' && c != '\\' && c != '|'
                && c != '?' && c != '*'
            &&& c as u32 >= 0x20
        }),
{
    sanitized_name_stays_in_its_directory(s);
    assert(!is_illegal(sanitized(s)[i]));
}

/// The characters that a host takes stay as they are and where they are; each other becomes an
/// underscore.
pub proof fn other_characters_stay(s: Seq<char>)
    requires
        s.len() > 0,
        s.last() != '.',
        s.last() != ' ',
        !is_device(stem(scrubbed(s))),
    ensures
        sanitized(s).len() == s.len(),
        forall|i: int|
            0 <= i < s.len() ==> {
                let c = #[trigger] s[i];
                if c == '<' || c == '>' || c == ':' || c == '"' || c == '/' || c == '\\' || c == '|'
                    || c == '?' || c == '*' || (c as u32) < 0x20 {
                    sanitized(s)[i] == '_'
                } else {
                    sanitized(s)[i] == c
                }
            },
{
    let t = scrubbed(s);
    assert(t.last() == if is_illegal(s.last()) {
        '_'
    } else {
        s.last()
    });
    assert(without_tail(t) == t);
}

/// Dots and spaces at the end of a name go.
pub proof fn dots_and_spaces_behind_go(s: Seq<char>, c: char)
    requires
        c == '.' || c == ' ',
    ensures
        sanitized(s.push(c)) == sanitized(s),
{
    let t = scrubbed(s.push(c));
    assert(t.drop_last() =~= scrubbed(s));
    assert(t.last() == c);
}

/// The name of a device, with an extension or without, gets a mark in front.
pub proof fn a_device_name_gets_a_mark(name: Seq<char>, ext: Seq<char>)
    requires
        forall|i: int| 0 <= i < ext.len() ==> !is_illegal(#[trigger] ext[i]),
        ext.len() > 0,
        ext.last() != '.',
        ext.last() != ' ',
        ({
            let u = name.map_values(|c: char| text::upper(c));
            ||| u == "CON"@
            ||| u == "PRN"@
            ||| u == "AUX"@
            ||| u == "NUL"@
            ||| exists|d: char| '1' <= d <= '9' && u == #[trigger] "COM"@.push(d)
            ||| exists|d: char| '1' <= d <= '9' && u == #[trigger] "LPT"@.push(d)
        }),
    ensures
        sanitized(name) == seq!['_'] + name,
        sanitized(name + seq!['.'] + ext) == seq!['_'] + name + seq!['.'] + ext,
{
    reveal_strlit("CON");
    reveal_strlit("PRN");
    reveal_strlit("AUX");
    reveal_strlit("NUL");
    reveal_strlit("COM");
    reveal_strlit("LPT");
    let u = name.map_values(|c: char| text::upper(c));
    assert("CON"@ =~= seq!['C', 'O', 'N']);
    assert("PRN"@ =~= seq!['P', 'R', 'N']);
    assert("AUX"@ =~= seq!['A', 'U', 'X']);
    assert("NUL"@ =~= seq!['N', 'U', 'L']);
    assert("COM"@ =~= seq!['C', 'O', 'M']);
    assert("LPT"@ =~= seq!['L', 'P', 'T']);
    if exists|d: char| '1' <= d <= '9' && u == #[trigger] "COM"@.push(d) {
        let d = choose|d: char| '1' <= d <= '9' && u == #[trigger] "COM"@.push(d);
        assert(u.take(3) =~= "COM"@);
        assert(u[3] == d);
    }
    if exists|d: char| '1' <= d <= '9' && u == #[trigger] "LPT"@.push(d) {
        let d = choose|d: char| '1' <= d <= '9' && u == #[trigger] "LPT"@.push(d);
        assert(u.take(3) =~= "LPT"@);
        assert(u[3] == d);
    }
    assert(is_device(name));
    assert(name.len() == u.len());
    assert(3 <= u.len() <= 4);
    assert forall|i: int| 0 <= i < name.len() implies !is_illegal(#[trigger] name[i]) && name[i]
        != '.' && name[i] != ' ' by {
        assert(u[i] == text::upper(name[i]));
        assert('A' <= u[i] <= 'Z' || '1' <= u[i] <= '9');
    }
    assert(scrubbed(name) =~= name);
    assert(without_tail(name) == name);
    assert(!name.contains('.'));
    text::lemma_find_char(name, 0, '.');
    assert(text::find_char(name, 0, '.') == name.len());
    assert(stem(name) =~= name);
    let full = name + seq!['.'] + ext;
    assert forall|i: int| 0 <= i < full.len() implies !is_illegal(#[trigger] full[i]) by {
        if i < name.len() {
            assert(full[i] == name[i]);
        } else if i > name.len() {
            assert(full[i] == ext[i - name.len() - 1]);
        }
    }
    assert(scrubbed(full) =~= full);
    assert(full.last() == ext.last());
    assert(without_tail(full) == full);
    text::lemma_find_char(full, 0, '.');
    let f = text::find_char(full, 0, '.');
    assert(full[name.len() as int] == '.');
    assert(f == name.len()) by {
        if f < name.len() {
            assert(full[f] == name[f]);
        }
    }
    assert(stem(full) =~= name);
    assert(seq!['_'] + full =~= seq!['_'] + name + seq!['.'] + ext);
}

} // verus!
