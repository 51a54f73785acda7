//! Extraction of directory trees: what is read where, and where it is written.
use vstd::prelude::*;
use crate::entry;
use crate::entry::{DiscEntry, EntryView};
use crate::iso_volume;
use crate::pce_filesystem;
use crate::pce_filesystem::PceFs;
use crate::sanitize;
use crate::sanitize::sanitize_component;
use crate::source;
use crate::source::ByteSource;
use crate::text;
use crate::text::{chars_of, is_text, join3, string_of, trim_end_of};
use crate::threedo_filesystem;
use crate::threedo_filesystem::ThreeDOFs;
use crate::udf_filesystem;
use crate::udf_filesystem::UdfFs;
use crate::xdvdfs_filesystem;
use crate::xdvdfs_filesystem::XDVDFSFs;

verus! {

/// What the directories of a file system list.
pub type Listings = spec_fn(Seq<char>) -> Result<Seq<EntryView>, Seq<char>>;

/// What the files of a file system hold.
pub type Files = spec_fn(Seq<char>) -> Result<Seq<u8>, Seq<char>>;

/// A file system whose directories can be listed and whose files can be read.
pub trait ExtractFs {
    /// What its directories list: nothing, unless it says so.
    open spec fn listings(&self) -> Listings {
        |path: Seq<char>| Err(source::short_read())
    }

    /// What its files hold: nothing, unless it says so.
    open spec fn files(&self) -> Files {
        |path: Seq<char>| Err(source::short_read())
    }

    /// Whether it can be used.
    open spec fn ready(&self) -> bool {
        true
    }

    /// Lists a directory.
    fn ls(&mut self, path: &str) -> (r: Result<Vec<DiscEntry>, String>)
        requires
            old(self).ready(),
        ensures
            final(self).ready(),
            final(self).listings() == old(self).listings(),
            final(self).files() == old(self).files(),
            iso_volume::entries_outcome(r) == (old(self).listings())(path@),
    ;

    /// Reads a file.
    fn get(&mut self, path: &str) -> (r: Result<Vec<u8>, String>)
        requires
            old(self).ready(),
        ensures
            final(self).ready(),
            final(self).listings() == old(self).listings(),
            final(self).files() == old(self).files(),
            source::outcome(r) == (old(self).files())(path@),
    ;
}

impl<S: ByteSource> ExtractFs for UdfFs<S> {
    open spec fn listings(&self) -> Listings {
        |path: Seq<char>|
            udf_filesystem::listing_answer(self.source.reads(), self.contents(), path)
    }

    open spec fn files(&self) -> Files {
        |path: Seq<char>| udf_filesystem::file_answer(self.source.reads(), self.contents(), path)
    }

    open spec fn ready(&self) -> bool {
        true
    }

    fn ls(&mut self, path: &str) -> (r: Result<Vec<DiscEntry>, String>) {
        self.list_directory(path)
    }

    fn get(&mut self, path: &str) -> (r: Result<Vec<u8>, String>) {
        self.extract_file(path)
    }
}

impl<S: ByteSource> ExtractFs for XDVDFSFs<S> {
    open spec fn listings(&self) -> Listings {
        |path: Seq<char>|
            xdvdfs_filesystem::listing_answer(self.source.reads(), self.contents(), path)
    }

    open spec fn files(&self) -> Files {
        |path: Seq<char>|
            xdvdfs_filesystem::file_answer(self.source.reads(), self.contents(), path)
    }

    open spec fn ready(&self) -> bool {
        true
    }

    fn ls(&mut self, path: &str) -> (r: Result<Vec<DiscEntry>, String>) {
        self.list_directory(path)
    }

    fn get(&mut self, path: &str) -> (r: Result<Vec<u8>, String>) {
        self.extract_file(path)
    }
}

impl<S: ByteSource> ExtractFs for ThreeDOFs<S> {
    open spec fn listings(&self) -> Listings {
        |path: Seq<char>|
            threedo_filesystem::listing_answer(self.source.reads(), self.contents(), path)
    }

    open spec fn files(&self) -> Files {
        |path: Seq<char>|
            threedo_filesystem::file_answer(self.source.reads(), self.contents(), path)
    }

    open spec fn ready(&self) -> bool {
        self.wf()
    }

    fn ls(&mut self, path: &str) -> (r: Result<Vec<DiscEntry>, String>) {
        self.list_directory(path)
    }

    fn get(&mut self, path: &str) -> (r: Result<Vec<u8>, String>) {
        self.extract_file(path)
    }
}

/// What every directory of a PC Engine disc lists.
pub open spec fn boot_listing(boot: Result<Seq<u8>, Seq<char>>) -> Result<
    Seq<EntryView>,
    Seq<char>,
> {
    match boot {
        Ok(s) => Ok(seq![pce_filesystem::boot_line(s)]),
        Err(e) => Err(e),
    }
}

impl<S: ByteSource> ExtractFs for PceFs<S> {
    open spec fn listings(&self) -> Listings {
        |path: Seq<char>| boot_listing(self.boot())
    }

    open spec fn files(&self) -> Files {
        |path: Seq<char>|
            match self.boot() {
                Err(e) => Err(e),
                Ok(s) => pce_filesystem::sectors_from(
                    self.source.reads(),
                    self.track_offset as int,
                    self.user_data_offset,
                    pce_filesystem::boot_line(s).lba as int,
                    pce_filesystem::boot_line(s).size as int,
                ),
            }
    }

    open spec fn ready(&self) -> bool {
        true
    }

    fn ls(&mut self, path: &str) -> (r: Result<Vec<DiscEntry>, String>) {
        self.list_directory(path)
    }

    fn get(&mut self, path: &str) -> (r: Result<Vec<u8>, String>) {
        self.extract_file(path)
    }
}

// ── Plans ───────────────────────────────────────────────────────────────────

/// A file to extract: its path in the image and where it goes.
pub struct ExtractItem {
    pub src: String,
    pub dest: String,
}

/// The directories to make and the files to extract.
pub struct ExtractPlan {
    pub dirs: Vec<String>,
    pub files: Vec<ExtractItem>,
}

/// The contents of a plan.
#[verifier::ext_equal]
pub struct PlanView {
    pub dirs: Seq<Seq<char>>,
    pub files: Seq<(Seq<char>, Seq<char>)>,
}

/// The paths of items.
pub open spec fn item_views(v: Seq<ExtractItem>) -> Seq<(Seq<char>, Seq<char>)> {
    v.map_values(|i: ExtractItem| (i.src@, i.dest@))
}

impl View for ExtractPlan {
    type V = PlanView;

    open spec fn view(&self) -> PlanView {
        PlanView { dirs: text::views(self.dirs@), files: item_views(self.files@) }
    }
}

/// A plan for nothing.
pub open spec fn no_plan() -> PlanView {
    PlanView { dirs: seq![], files: seq![] }
}

/// One plan and then another.
pub open spec fn both(a: PlanView, b: PlanView) -> PlanView {
    PlanView { dirs: a.dirs + b.dirs, files: a.files + b.files }
}

/// One plan and then another, if there is another.
pub open spec fn with(a: PlanView, r: Result<PlanView, Seq<char>>) -> Result<PlanView, Seq<char>> {
    match r {
        Err(e) => Err(e),
        Ok(b) => Ok(both(a, b)),
    }
}

/// Whether a name stands for no entry of its own.
pub open spec fn is_skipped(name: Seq<char>) -> bool {
    name == ""@ || name == "."@ || name == ".."@
}

/// A path below a directory.
pub open spec fn child(dir: Seq<char>, name: Seq<char>) -> Seq<char> {
    dir + "/"@ + name
}

/// The plan for the directory `src` that goes to `dest`; directories more than 128
/// deep are left out.
pub open spec fn tree(ls: Listings, src: Seq<char>, dest: Seq<char>, depth: int) -> Result<
    PlanView,
    Seq<char>,
>
    decreases 129 - depth, 1int, 0int,
{
    if depth > 128 {
        Ok(no_plan())
    } else {
        match ls(src) {
            Err(e) => Err(e),
            Ok(entries) => items(ls, entries, 0, text::strip_back(src, '/'), dest, depth),
        }
    }
}

/// The plan for the entries of a directory from `k` on.
pub open spec fn items(
    ls: Listings,
    entries: Seq<EntryView>,
    k: int,
    base: Seq<char>,
    dest: Seq<char>,
    depth: int,
) -> Result<PlanView, Seq<char>>
    decreases 129 - depth, 0int, entries.len() - k,
{
    if k < 0 || k >= entries.len() || depth > 128 {
        Ok(no_plan())
    } else {
        let name = entries[k].name;
        let from = child(base, name);
        let to = child(dest, sanitize::sanitized(name));
        if is_skipped(name) {
            items(ls, entries, k + 1, base, dest, depth)
        } else if entries[k].is_dir {
            match tree(ls, from, to, depth + 1) {
                Err(e) => Err(e),
                Ok(sub) => with(
                    both(PlanView { dirs: seq![to], files: seq![] }, sub),
                    items(ls, entries, k + 1, base, dest, depth),
                ),
            }
        } else {
            with(
                PlanView { dirs: seq![], files: seq![(from, to)] },
                items(ls, entries, k + 1, base, dest, depth),
            )
        }
    }
}

/// Whether `d` is `n` directories below `root`, all of them with safe names.
pub open spec fn below(root: Seq<char>, d: Seq<char>, n: int) -> bool
    decreases n,
{
    if n <= 0 {
        false
    } else if n == 1 {
        exists|c: Seq<char>| d == #[trigger] child(root, sanitize::sanitized(c))
    } else {
        exists|c: Seq<char>| below(#[trigger] child(root, sanitize::sanitized(c)), d, n - 1)
    }
}

/// Whether `d` is below `root`, all names on the way being safe.
pub open spec fn is_below(root: Seq<char>, d: Seq<char>) -> bool {
    exists|n: int| #[trigger] below(root, d, n)
}

/// Whether everything that a plan writes is below `root`.
pub open spec fn stays_below(root: Seq<char>, p: PlanView) -> bool {
    &&& forall|i: int| 0 <= i < p.dirs.len() ==> is_below(root, #[trigger] p.dirs[i])
    &&& forall|i: int| 0 <= i < p.files.len() ==> is_below(root, (#[trigger] p.files[i]).1)
}

/// What is below a directory of safe name is below the one that holds it.
pub proof fn lemma_deeper(root: Seq<char>, c: Seq<char>, d: Seq<char>)
    requires
        is_below(child(root, sanitize::sanitized(c)), d),
    ensures
        is_below(root, d),
{
    let n = choose|n: int| #[trigger] below(child(root, sanitize::sanitized(c)), d, n);
    assert(below(root, d, n + 1));
}

proof fn lemma_below_further(root: Seq<char>, d: Seq<char>, c: Seq<char>, n: int)
    requires
        below(root, d, n),
    ensures
        below(root, child(d, sanitize::sanitized(c)), n + 1),
    decreases n,
{
    if n == 1 {
        let b = choose|b: Seq<char>| d == #[trigger] child(root, sanitize::sanitized(b));
        assert(below(d, child(d, sanitize::sanitized(c)), 1));
        assert(below(child(root, sanitize::sanitized(b)), child(d, sanitize::sanitized(c)), 1));
    } else {
        let b = choose|b: Seq<char>|
            below(#[trigger] child(root, sanitize::sanitized(b)), d, n - 1);
        lemma_below_further(child(root, sanitize::sanitized(b)), d, c, n - 1);
    }
}

/// An entry of safe name, of a directory or of one below it, is below the
/// directory.
pub proof fn lemma_entry_below(root: Seq<char>, d: Seq<char>, c: Seq<char>)
    requires
        d == root || is_below(root, d),
    ensures
        is_below(root, child(d, sanitize::sanitized(c))),
{
    let e = child(d, sanitize::sanitized(c));
    if d == root {
        assert(below(root, e, 1));
    } else {
        let n = choose|n: int| #[trigger] below(root, d, n);
        lemma_below_further(root, d, c, n);
        assert(below(root, e, n + 1));
    }
}

/// Two plans that stay below a directory do so together.
proof fn lemma_both_below(root: Seq<char>, a: PlanView, b: PlanView)
    requires
        stays_below(root, a),
        stays_below(root, b),
    ensures
        stays_below(root, both(a, b)),
{
    let p = both(a, b);
    assert forall|i: int| 0 <= i < p.dirs.len() implies is_below(root, #[trigger] p.dirs[i]) by {
        if i < a.dirs.len() {
            assert(p.dirs[i] == a.dirs[i]);
        } else {
            assert(p.dirs[i] == b.dirs[i - a.dirs.len()]);
        }
    }
    assert forall|i: int| 0 <= i < p.files.len() implies is_below(
        root,
        (#[trigger] p.files[i]).1,
    ) by {
        if i < a.files.len() {
            assert(p.files[i] == a.files[i]);
        } else {
            assert(p.files[i] == b.files[i - a.files.len()]);
        }
    }
}

/// Whatever names an image holds, everything that is extracted from it is written
/// below the destination.
pub proof fn extraction_stays_below_the_destination(
    ls: Listings,
    src: Seq<char>,
    dest: Seq<char>,
    depth: int,
)
    ensures
        tree(ls, src, dest, depth) matches Ok(p) ==> stays_below(dest, p),
    decreases 129 - depth, 1int, 0int,
{
    if depth <= 128 {
        if let Ok(entries) = ls(src) {
            lemma_items_below(ls, entries, 0, text::strip_back(src, '/'), dest, depth);
        }
    }
}

/// The plan for the entries of a directory stays below it.
proof fn lemma_items_below(
    ls: Listings,
    entries: Seq<EntryView>,
    k: int,
    base: Seq<char>,
    dest: Seq<char>,
    depth: int,
)
    ensures
        items(ls, entries, k, base, dest, depth) matches Ok(p) ==> stays_below(dest, p),
    decreases 129 - depth, 0int, entries.len() - k,
{
    if 0 <= k < entries.len() && depth <= 128 {
        let name = entries[k].name;
        let from = child(base, name);
        let to = child(dest, sanitize::sanitized(name));
        lemma_items_below(ls, entries, k + 1, base, dest, depth);
        assert(below(dest, to, 1));
        assert(is_below(dest, to));
        if let Ok(rest) = items(ls, entries, k + 1, base, dest, depth) {
            if !is_skipped(name) {
                if entries[k].is_dir {
                    extraction_stays_below_the_destination(ls, from, to, depth + 1);
                    if let Ok(sub) = tree(ls, from, to, depth + 1) {
                        let one = PlanView { dirs: seq![to], files: seq![] };
                        assert forall|i: int| 0 <= i < sub.dirs.len() implies is_below(
                            dest,
                            #[trigger] sub.dirs[i],
                        ) by {
                            lemma_deeper(dest, name, sub.dirs[i]);
                        }
                        assert forall|i: int| 0 <= i < sub.files.len() implies is_below(
                            dest,
                            (#[trigger] sub.files[i]).1,
                        ) by {
                            lemma_deeper(dest, name, sub.files[i].1);
                        }
                        lemma_both_below(dest, one, sub);
                        lemma_both_below(dest, both(one, sub), rest);
                    }
                } else {
                    let one = PlanView { dirs: seq![], files: seq![(from, to)] };
                    lemma_both_below(dest, one, rest);
                }
            }
        }
    }
}

/// Adds to a plan what extracting a directory takes.
#[verifier::loop_isolation(false)]
pub fn enumerate_tree<F: ExtractFs>(
    fs: &mut F,
    src: &str,
    dest: &str,
    plan: &mut ExtractPlan,
    depth: u32,
) -> (r: Result<(), String>)
    requires
        old(fs).ready(),
        depth <= 129,
    ensures
        final(fs).ready(),
        final(fs).listings() == old(fs).listings(),
        final(fs).files() == old(fs).files(),
        match r {
            Ok(_) => tree(old(fs).listings(), src@, dest@, depth as int) matches Ok(p)
                && final(plan)@ == both(old(plan)@, p),
            Err(e) => tree(old(fs).listings(), src@, dest@, depth as int) == Err::<
                PlanView,
                Seq<char>,
            >(e@),
        },
    decreases 129 - depth,
{
    let ghost ls = fs.listings();
    let ghost fl = fs.files();
    let ghost start = plan@;
    if depth > 128 {
        assert(both(start, no_plan()) =~= start);
        return Ok(());
    }
    let entries: Vec<DiscEntry> = match fs.ls(src) {
        Ok(v) => v,
        Err(e) => {
            return Err(e);
        },
    };
    let ghost ev = entry::listing(entries@);
    let sc: Vec<char> = chars_of(src);
    let trimmed: Vec<char> = trim_end_of(sc.as_slice(), '/');
    let base: String = string_of(trimmed.as_slice());
    let ghost goal = items(ls, ev, 0, base@, dest@, depth as int);
    let mut k: usize = 0;
    while k < entries.len()
        invariant
            k <= entries@.len(),
            fs.ready(),
            fs.listings() == ls,
            fs.files() == fl,
            goal is Err <==> items(ls, ev, k as int, base@, dest@, depth as int) is Err,
            goal matches Err(e) ==> items(ls, ev, k as int, base@, dest@, depth as int) == goal,
            goal matches Ok(p) ==> both(
                plan@,
                items(ls, ev, k as int, base@, dest@, depth as int)->Ok_0,
            ) == both(start, p),
        decreases entries@.len() - k,
    {
        let e: &DiscEntry = &entries[k];
        assert(ev[k as int] == e@);
        let name: Vec<char> = chars_of(e.name.as_str());
        let ghost before = plan@;
        let ghost rest = items(ls, ev, k + 1, base@, dest@, depth as int);
        if !(is_text(name.as_slice(), "") || is_text(name.as_slice(), ".") || is_text(
            name.as_slice(),
            "..",
        )) {
            let from: String = join3(base.as_str(), "/", e.name.as_str());
            let safe: String = sanitize_component(e.name.as_str());
            let to: String = join3(dest, "/", safe.as_str());
            if e.is_dir {
                iso_volume::push_text(&mut plan.dirs, to.as_str());
                let ghost one = PlanView { dirs: seq![to@], files: seq![] };
                assert(plan@ =~= both(before, one));
                match enumerate_tree(fs, from.as_str(), to.as_str(), plan, depth + 1) {
                    Err(err) => {
                        return Err(err);
                    },
                    Ok(_) => {},
                }
                proof {
                    let sub = tree(ls, from@, to@, depth + 1)->Ok_0;
                    assert(plan@ == both(both(before, one), sub));
                    if let Ok(t) = rest {
                        assert(both(before, both(both(one, sub), t)) =~= both(plan@, t));
                    }
                }
            } else {
                let ghost one = PlanView { dirs: seq![], files: seq![(from@, to@)] };
                plan.files.push(ExtractItem { src: from, dest: to });
                proof {
                    assert(plan@ =~= both(before, one));
                    if let Ok(t) = rest {
                        assert(both(before, both(one, t)) =~= both(plan@, t));
                    }
                }
            }
        }
        k += 1;
    }
    assert(both(plan@, no_plan()) =~= plan@);
    Ok(())
}

/// Plans the extraction of a directory.
pub fn plan_tree<F: ExtractFs>(fs: &mut F, src: &str, dest: &str) -> (r: Result<
    ExtractPlan,
    String,
>)
    requires
        old(fs).ready(),
    ensures
        final(fs).ready(),
        final(fs).listings() == old(fs).listings(),
        final(fs).files() == old(fs).files(),
        match r {
            Ok(p) => tree(old(fs).listings(), src@, dest@, 0) == Ok::<PlanView, Seq<char>>(p@),
            Err(e) => tree(old(fs).listings(), src@, dest@, 0) == Err::<PlanView, Seq<char>>(e@),
        },
{
    let mut plan: ExtractPlan = ExtractPlan { dirs: Vec::new(), files: Vec::new() };
    assert(plan@ =~= no_plan());
    match enumerate_tree(fs, src, dest, &mut plan, 0) {
        Err(e) => Err(e),
        Ok(_) => {
            proof {
                let p = tree(old(fs).listings(), src@, dest@, 0)->Ok_0;
                assert(both(no_plan(), p) =~= p);
            }
            Ok(plan)
        },
    }
}

/// A flag by which an extraction is told to stop.
pub struct ExtractCancelState {
    pub cancelled: bool,
}

impl ExtractCancelState {
    /// An extraction begins.
    pub fn reset(&mut self)
        ensures
            !final(self).cancelled,
    {
        self.cancelled = false;
    }

    /// Tells an extraction to stop.
    pub fn extract_cancel(&mut self)
        ensures
            final(self).cancelled,
    {
        self.cancelled = true;
    }
}

/// Reads the next file of a plan; nothing is left at its end. An extraction that was
/// told to stop does so before the next file.
pub fn take_file<F: ExtractFs>(
    fs: &mut F,
    plan: &ExtractPlan,
    k: usize,
    cancel: &ExtractCancelState,
) -> (r: Result<Option<Vec<u8>>, String>)
    requires
        old(fs).ready(),
    ensures
        final(fs).ready(),
        final(fs).listings() == old(fs).listings(),
        final(fs).files() == old(fs).files(),
        match r {
            Ok(None) => k >= plan@.files.len(),
            Ok(Some(b)) => k < plan@.files.len() && !cancel.cancelled && (old(fs).files())(
                plan@.files[k as int].0,
            ) == Ok::<Seq<u8>, Seq<char>>(b@),
            Err(e) => k < plan@.files.len() && (if cancel.cancelled {
                e@ == "__cancelled__"@
            } else {
                (old(fs).files())(plan@.files[k as int].0) == Err::<Seq<u8>, Seq<char>>(e@)
            }),
        },
{
    if k >= plan.files.len() {
        return Ok(None);
    }
    if cancel.cancelled {
        return Err("__cancelled__".to_owned());
    }
    match fs.get(plan.files[k].src.as_str()) {
        Ok(b) => Ok(Some(b)),
        Err(e) => Err(e),
    }
}

/// Every file of a directory is planned for, under its own name, and what is planned for a
/// directory in it is planned for as well; nothing else is.
pub proof fn everything_listed_is_planned(
    ls: Listings,
    src: Seq<char>,
    dest: Seq<char>,
    depth: int,
    entries: Seq<EntryView>,
    p: PlanView,
    i: int,
)
    requires
        0 <= depth <= 128,
        ls(src) == Ok::<Seq<EntryView>, Seq<char>>(entries),
        tree(ls, src, dest, depth) == Ok::<PlanView, Seq<char>>(p),
        0 <= i < entries.len(),
        entries[i].name != ""@,
        entries[i].name != "."@,
        entries[i].name != ".."@,
    ensures
        ({
            let from = text::strip_back(src, '/') + "/"@ + entries[i].name;
            let to = dest + "/"@ + sanitize::sanitized(entries[i].name);
            &&& !entries[i].is_dir ==> p.files.contains((from, to))
            &&& entries[i].is_dir ==> p.dirs.contains(to)
            &&& entries[i].is_dir ==> (tree(ls, from, to, depth + 1) matches Ok(sub) && (forall|j: int|
                0 <= j < sub.files.len() ==> p.files.contains(#[trigger] sub.files[j])) && (forall|
                j: int,
            |
                0 <= j < sub.dirs.len() ==> p.dirs.contains(#[trigger] sub.dirs[j])))
        }),
{
    lemma_planned(ls, entries, 0, text::strip_back(src, '/'), dest, depth, p, i);
}

/// What a plan made of two holds.
proof fn lemma_in_both(a: PlanView, b: PlanView)
    ensures
        forall|j: int| 0 <= j < a.files.len() ==> both(a, b).files.contains(#[trigger] a.files[j]),
        forall|j: int| 0 <= j < b.files.len() ==> both(a, b).files.contains(#[trigger] b.files[j]),
        forall|j: int| 0 <= j < a.dirs.len() ==> both(a, b).dirs.contains(#[trigger] a.dirs[j]),
        forall|j: int| 0 <= j < b.dirs.len() ==> both(a, b).dirs.contains(#[trigger] b.dirs[j]),
{
    let p = both(a, b);
    assert forall|j: int| 0 <= j < a.files.len() implies p.files.contains(
        #[trigger] a.files[j],
    ) by {
        assert(p.files[j] == a.files[j]);
    }
    assert forall|j: int| 0 <= j < b.files.len() implies p.files.contains(
        #[trigger] b.files[j],
    ) by {
        assert(p.files[a.files.len() + j] == b.files[j]);
    }
    assert forall|j: int| 0 <= j < a.dirs.len() implies p.dirs.contains(#[trigger] a.dirs[j]) by {
        assert(p.dirs[j] == a.dirs[j]);
    }
    assert forall|j: int| 0 <= j < b.dirs.len() implies p.dirs.contains(#[trigger] b.dirs[j]) by {
        assert(p.dirs[a.dirs.len() + j] == b.dirs[j]);
    }
}

/// An entry of a directory is planned for.
proof fn lemma_planned(
    ls: Listings,
    entries: Seq<EntryView>,
    k: int,
    base: Seq<char>,
    dest: Seq<char>,
    depth: int,
    p: PlanView,
    i: int,
)
    requires
        0 <= depth <= 128,
        items(ls, entries, k, base, dest, depth) == Ok::<PlanView, Seq<char>>(p),
        0 <= k <= i < entries.len(),
        !is_skipped(entries[i].name),
    ensures
        ({
            let from = base + "/"@ + entries[i].name;
            let to = dest + "/"@ + sanitize::sanitized(entries[i].name);
            &&& !entries[i].is_dir ==> p.files.contains((from, to))
            &&& entries[i].is_dir ==> p.dirs.contains(to)
            &&& entries[i].is_dir ==> (tree(ls, from, to, depth + 1) matches Ok(sub) && (forall|j: int|
                0 <= j < sub.files.len() ==> p.files.contains(#[trigger] sub.files[j])) && (forall|
                j: int,
            |
                0 <= j < sub.dirs.len() ==> p.dirs.contains(#[trigger] sub.dirs[j])))
        }),
    decreases entries.len() - k,
{
    let name = entries[k].name;
    let from = child(base, name);
    let to = child(dest, sanitize::sanitized(name));
    if is_skipped(name) {
        lemma_planned(ls, entries, k + 1, base, dest, depth, p, i);
    } else {
        let rest = items(ls, entries, k + 1, base, dest, depth)->Ok_0;
        let head = if entries[k].is_dir {
            both(
                PlanView { dirs: seq![to], files: seq![] },
                tree(ls, from, to, depth + 1)->Ok_0,
            )
        } else {
            PlanView { dirs: seq![], files: seq![(from, to)] }
        };
        assert(p == both(head, rest));
        lemma_in_both(head, rest);
        if i == k {
            if entries[k].is_dir {
                let one = PlanView { dirs: seq![to], files: seq![] };
                let sub = tree(ls, from, to, depth + 1)->Ok_0;
                lemma_in_both(one, sub);
                assert(one.dirs[0] == to);
                assert forall|j: int| 0 <= j < sub.files.len() implies p.files.contains(
                    #[trigger] sub.files[j],
                ) by {
                    assert(head.files.contains(sub.files[j]));
                    let m = choose|m: int|
                        0 <= m < head.files.len() && head.files[m] == sub.files[j];
                    assert(p.files.contains(head.files[m]));
                }
                assert forall|j: int| 0 <= j < sub.dirs.len() implies p.dirs.contains(
                    #[trigger] sub.dirs[j],
                ) by {
                    assert(head.dirs.contains(sub.dirs[j]));
                    let m = choose|m: int| 0 <= m < head.dirs.len() && head.dirs[m] == sub.dirs[j];
                    assert(p.dirs.contains(head.dirs[m]));
                }
                assert(head.dirs.contains(one.dirs[0]));
                let m = choose|m: int| 0 <= m < head.dirs.len() && head.dirs[m] == to;
                assert(p.dirs.contains(head.dirs[m]));
            } else {
                assert(head.files[0] == (from, to));
            }
        } else {
            lemma_planned(ls, entries, k + 1, base, dest, depth, rest, i);
            let f = base + "/"@ + entries[i].name;
            let t = dest + "/"@ + sanitize::sanitized(entries[i].name);
            if entries[i].is_dir {
                let sub = tree(ls, f, t, depth + 1)->Ok_0;
                assert forall|j: int| 0 <= j < sub.files.len() implies p.files.contains(
                    #[trigger] sub.files[j],
                ) by {
                    assert(rest.files.contains(sub.files[j]));
                    let m = choose|m: int|
                        0 <= m < rest.files.len() && rest.files[m] == sub.files[j];
                    assert(p.files.contains(rest.files[m]));
                }
                assert forall|j: int| 0 <= j < sub.dirs.len() implies p.dirs.contains(
                    #[trigger] sub.dirs[j],
                ) by {
                    assert(rest.dirs.contains(sub.dirs[j]));
                    let m = choose|m: int| 0 <= m < rest.dirs.len() && rest.dirs[m] == sub.dirs[j];
                    assert(p.dirs.contains(rest.dirs[m]));
                }
                let m = choose|m: int| 0 <= m < rest.dirs.len() && rest.dirs[m] == t;
                assert(p.dirs.contains(rest.dirs[m]));
            } else {
                let m = choose|m: int| 0 <= m < rest.files.len() && rest.files[m] == (f, t);
                assert(p.files.contains(rest.files[m]));
            }
        }
    }
}

} // verus!
