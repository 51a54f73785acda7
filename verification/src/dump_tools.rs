//! Dumping discs with redumper: how it is called, what it tells of itself, and which
//! of the files that it leaves are logs.
use vstd::prelude::*;
use crate::text;
use crate::text::{chars_of, is_text, join2, lines, same_text, string_of, to_ascii_lower, trim};

verus! {

/// Which redumper is called: the one that comes with the program, or another one.
pub enum RedumperSource {
    Bundled,
    External(String),
}

/// Chooses which redumper is called.
pub fn redumper_cmd(source: &str, external_path: Option<String>) -> (r: Result<
    RedumperSource,
    String,
>)
    ensures
        match r {
            Ok(RedumperSource::Bundled) => source@ != "external"@,
            Ok(RedumperSource::External(p)) => source@ == "external"@ && external_path == Some(p),
            Err(e) => source@ == "external"@ && external_path is None && e@
                == "No external redumper path configured"@,
        },
{
    if same_text(source, "external") {
        match external_path {
            Some(p) => Ok(RedumperSource::External(p)),
            None => Err("No external redumper path configured".to_owned()),
        }
    } else {
        Ok(RedumperSource::Bundled)
    }
}

/// What redumper is called with to dump a disc.
pub open spec fn dump_args(drive: Seq<char>, output: Seq<char>) -> Seq<Seq<char>> {
    seq![
        "dump"@,
        "--drive="@ + drive,
        "--image-path="@ + output,
        "--drive-type=GENERIC"@,
        "--force-split"@,
        "--leave-unchanged"@,
    ]
}

/// What redumper is called with to dump a disc.
pub fn start_redumper_dump(drive: &str, output: &str) -> (r: Vec<String>)
    ensures
        text::views(r@) == dump_args(drive@, output@),
{
    let mut v: Vec<String> = Vec::new();
    v.push("dump".to_owned());
    v.push(join2("--drive=", drive));
    v.push(join2("--image-path=", output));
    v.push("--drive-type=GENERIC".to_owned());
    v.push("--force-split".to_owned());
    v.push("--leave-unchanged".to_owned());
    assert(text::views(v@) =~= dump_args(drive@, output@));
    v
}

/// The first row from `k` on that is not blank.
pub open spec fn first_row(rows: Seq<Seq<char>>, k: int) -> Seq<char>
    decreases rows.len() - k,
{
    if k < 0 || k >= rows.len() {
        "unknown"@
    } else if text::trimmed(rows[k]).len() > 0 {
        rows[k]
    } else {
        first_row(rows, k + 1)
    }
}

/// The version that redumper tells, by what it wrote to its two outputs.
#[verifier::loop_isolation(false)]
pub fn get_redumper_version(out: &str, err: &str) -> (r: String)
    ensures
        r@ == first_row(text::lines_of(out@ + err@), 0),
{
    let whole: String = join2(out, err);
    let c: Vec<char> = chars_of(whole.as_str());
    let rows: Vec<Vec<char>> = lines(c.as_slice());
    let ghost all = text::lines_of(out@ + err@);
    let mut k: usize = 0;
    while k < rows.len()
        invariant
            k <= rows@.len(),
            first_row(all, k as int) == first_row(all, 0),
        decreases rows@.len() - k,
    {
        assert(text::texts(rows@)[k as int] == rows@[k as int]@);
        let t: Vec<char> = trim(rows[k].as_slice());
        if t.len() > 0 {
            return string_of(rows[k].as_slice());
        }
        k += 1;
    }
    "unknown".to_owned()
}

/// Where the last dot of a name stands before `n`, or `-1`.
pub open spec fn last_dot(name: Seq<char>, n: int) -> int
    decreases n,
{
    if n <= 0 || n > name.len() {
        -1
    } else if name[n - 1] == '.' {
        n - 1
    } else {
        last_dot(name, n - 1)
    }
}

/// The extension of a file's name: none where its only dot stands before it.
pub open spec fn extension(name: Seq<char>) -> Seq<char> {
    let i = last_dot(name, name.len() as int);
    if i <= 0 || name == ".."@ {
        seq![]
    } else {
        name.skip(i + 1)
    }
}

/// Whether a file is a log of a dump, not one of its images.
pub open spec fn is_log(name: Seq<char>) -> bool {
    let ext = text::lowered(extension(name));
    ext != "iso"@ && ext != "bin"@ && ext != "cue"@
}

/// The extension of a file's name.
fn read_extension(name: &str) -> (r: Vec<char>)
    ensures
        r@ == extension(name@),
{
    let c: Vec<char> = chars_of(name);
    let len: usize = c.len();
    let mut n: usize = len;
    while n > 0 && c[n - 1] != '.'
        invariant
            n <= len,
            len == c@.len(),
            last_dot(c@, n as int) == last_dot(c@, len as int),
        ensures
            n <= len,
            len == c@.len(),
            last_dot(c@, n as int) == last_dot(c@, len as int),
            n > 0 ==> c@[n - 1] == '.',
        decreases n,
    {
        n -= 1;
    }
    if n <= 1 || is_text(c.as_slice(), "..") {
        let none: Vec<char> = Vec::new();
        assert(none@ =~= seq![]);
        return none;
    }
    assert(c@.subrange(n as int, len as int) =~= c@.skip(n as int));
    text::cut_chars(c.as_slice(), n, len)
}

/// Whether a file is a log of a dump, not one of its images.
pub fn is_dump_log(name: &str) -> (r: bool)
    ensures
        r == is_log(name@),
{
    let ext: Vec<char> = read_extension(name);
    let low: Vec<char> = to_ascii_lower(ext.as_slice());
    !is_text(low.as_slice(), "iso") && !is_text(low.as_slice(), "bin") && !is_text(
        low.as_slice(),
        "cue",
    )
}

/// The logs among files.
pub open spec fn logs(names: Seq<Seq<char>>) -> Seq<Seq<char>>
    decreases names.len(),
{
    if names.len() == 0 {
        seq![]
    } else if is_log(names.last()) {
        logs(names.drop_last()).push(names.last())
    } else {
        logs(names.drop_last())
    }
}

/// Chooses the files of a dump that go into its directory of logs.
#[verifier::loop_isolation(false)]
pub fn organize_dump_logs(names: &Vec<String>) -> (r: Vec<String>)
    ensures
        text::views(r@) == logs(text::views(names@)),
{
    let ghost all = text::views(names@);
    let mut out: Vec<String> = Vec::new();
    let mut i: usize = 0;
    assert(text::views(out@) =~= logs(all.take(0)));
    while i < names.len()
        invariant
            i <= names@.len(),
            text::views(out@) == logs(all.take(i as int)),
        decreases names@.len() - i,
    {
        let ghost part = all.take(i + 1);
        assert(part.drop_last() =~= all.take(i as int));
        assert(part.last() == names@[i as int]@);
        let ghost before = text::views(out@);
        if is_dump_log(names[i].as_str()) {
            out.push(names[i].as_str().to_owned());
            assert(text::views(out@) =~= before.push(part.last()));
        }
        i += 1;
    }
    assert(all.take(i as int) =~= all);
    out
}

/// The extension of a name is what stands behind its last dot.
pub proof fn an_extension_stands_behind_the_last_dot(stem: Seq<char>, ext: Seq<char>)
    requires
        stem.len() > 0,
        !ext.contains('.'),
        stem + seq!['.'] + ext != ".."@,
    ensures
        extension(stem + seq!['.'] + ext) == ext,
{
    let name = stem + seq!['.'] + ext;
    lemma_last_dot(stem, ext, name.len() as int);
    assert(name.skip(stem.len() as int + 1) =~= ext);
}

/// The last dot of a name.
proof fn lemma_last_dot(stem: Seq<char>, ext: Seq<char>, n: int)
    requires
        !ext.contains('.'),
        stem.len() < n <= stem.len() + 1 + ext.len(),
    ensures
        last_dot(stem + seq!['.'] + ext, n) == stem.len(),
    decreases n,
{
    let name = stem + seq!['.'] + ext;
    if n > stem.len() + 1 {
        assert(name[n - 1] == ext[n - 2 - stem.len()]);
        assert(ext.contains(ext[n - 2 - stem.len()]));
        lemma_last_dot(stem, ext, n - 1);
    }
}

/// The images of a dump are not among its logs, whatever the case of their extensions; all else
/// is.
pub proof fn images_are_no_logs(stem: Seq<char>, ext: Seq<char>)
    requires
        stem.len() > 0,
        !ext.contains('.'),
        stem + seq!['.'] + ext != ".."@,
    ensures
        is_log(stem + seq!['.'] + ext) <==> !text::alike(ext, "iso"@) && !text::alike(ext, "bin"@)
            && !text::alike(ext, "cue"@),
{
    an_extension_stands_behind_the_last_dot(stem, ext);
    reveal_strlit("iso");
    reveal_strlit("bin");
    reveal_strlit("cue");
    let l = text::lowered(ext);
    assert forall|t: Seq<char>| #[trigger] text::lowered(t) == t implies (l == t)
        == text::alike(ext, t) by {
        if text::alike(ext, t) {
            assert forall|i: int| 0 <= i < l.len() implies l[i] == t[i] by {
                assert(text::lower(ext[i]) == text::lower(t[i]));
                assert(text::lowered(t)[i] == t[i]);
            }
            assert(l =~= t);
        }
        if l == t {
            assert forall|i: int| 0 <= i < ext.len() implies text::lower(#[trigger] ext[i])
                == text::lower(t[i]) by {
                assert(text::lowered(t)[i] == t[i]);
                assert(l[i] == text::lower(ext[i]));
            }
        }
    }
    assert(text::lowered("iso"@) =~= "iso"@);
    assert(text::lowered("bin"@) =~= "bin"@);
    assert(text::lowered("cue"@) =~= "cue"@);
}

/// The logs of a dump are those of its files that are logs, each in its turn.
pub proof fn logs_are_all_kept(names: Seq<Seq<char>>, i: int)
    requires
        0 <= i < names.len(),
    ensures
        logs(names).contains(names[i]) <== is_log(names[i]),
        forall|j: int| 0 <= j < logs(names).len() ==> is_log(#[trigger] logs(names)[j]),
    decreases names.len(),
{
    let rest = names.drop_last();
    if rest.len() > 0 {
        logs_are_all_kept(rest, if i < rest.len() {
            i
        } else {
            0
        });
    } else {
        assert(logs(rest) =~= seq![]);
    }
    let v = logs(names);
    assert forall|j: int| 0 <= j < v.len() implies is_log(#[trigger] v[j]) by {
        if j < logs(rest).len() {
            assert(v[j] == logs(rest)[j]);
        }
    }
    if is_log(names[i]) {
        if i < rest.len() {
            assert(rest[i] == names[i]);
            let j = choose|j: int| 0 <= j < logs(rest).len() && logs(rest)[j] == names[i];
            assert(v[j] == names[i]);
        } else {
            assert(v[v.len() - 1] == names[i]);
        }
    }
}

} // verus!
