//! Mounting disc images on the host, and taking them off again: which job follows
//! which, and what comes of it.
use vstd::prelude::*;
use crate::host;
use crate::host::{
    cdemu_device_for_slot, ensure_cdemu_daemon, first_daemon_job, make_job, read_slot, trimmed_text,
    DaemonNext, DaemonStage, Event, EventView, Job, JobKind, JobView, Platform,
};
use crate::text;
use crate::text::{
    chars_of, cut_chars, ends_with, find_char_from, find_str, join2, join3, lines, same_text,
    starts_with, string_of, to_lowercase, trim, trim_end_of,
};

verus! {

/// Where an image is mounted, and what it is taken off by.
pub struct MountResult {
    pub mount_point: String,
    pub device: String,
}

/// The contents of a mount.
pub struct MountView {
    pub mount_point: Seq<char>,
    pub device: Seq<char>,
}

impl View for MountResult {
    type V = MountView;

    open spec fn view(&self) -> MountView {
        MountView { mount_point: self.mount_point@, device: self.device@ }
    }
}

/// The devices of the images that are mounted.
pub struct MountedImages {
    pub devices: Vec<String>,
}

/// Devices without one.
pub open spec fn others(v: Seq<Seq<char>>, device: Seq<char>) -> Seq<Seq<char>>
    decreases v.len(),
{
    if v.len() == 0 {
        seq![]
    } else if v.last() == device {
        others(v.drop_last(), device)
    } else {
        others(v.drop_last(), device).push(v.last())
    }
}

impl MountedImages {
    /// The devices in their order.
    pub open spec fn listed(&self) -> Seq<Seq<char>> {
        text::views(self.devices@)
    }

    /// No image is mounted.
    pub fn new() -> (r: MountedImages)
        ensures
            r.listed() == Seq::<Seq<char>>::empty(),
    {
        let r: MountedImages = MountedImages { devices: Vec::new() };
        assert(r.listed() =~= Seq::<Seq<char>>::empty());
        r
    }

    /// Notes the device of an image that was mounted.
    pub fn note(&mut self, device: &str)
        ensures
            final(self).listed() == old(self).listed().push(device@),
    {
        let ghost before = self.listed();
        self.devices.push(device.to_owned());
        assert(self.listed() =~= before.push(device@));
    }

    /// Forgets a device.
    #[verifier::loop_isolation(false)]
    pub fn forget(&mut self, device: &str)
        ensures
            final(self).listed() == others(old(self).listed(), device@),
    {
        let ghost all = self.listed();
        let mut kept: Vec<String> = Vec::new();
        let mut i: usize = 0;
        assert(text::views(kept@) =~= others(all.take(0), device@));
        while i < self.devices.len()
            invariant
                i <= self.devices@.len(),
                self.listed() == all,
                text::views(kept@) == others(all.take(i as int), device@),
            decreases self.devices@.len() - i,
        {
            let ghost part = all.take(i + 1);
            assert(part.drop_last() =~= all.take(i as int));
            assert(part.last() == self.devices@[i as int]@);
            let ghost before = text::views(kept@);
            if !same_text(self.devices[i].as_str(), device) {
                kept.push(self.devices[i].as_str().to_owned());
                assert(text::views(kept@) =~= before.push(part.last()));
            }
            i += 1;
        }
        assert(all.take(i as int) =~= all);
        self.devices = kept;
    }
}

/// A device that was forgotten is not listed, and no other is lost or added.
pub proof fn a_forgotten_device_is_gone(v: Seq<Seq<char>>, device: Seq<char>)
    ensures
        !others(v, device).contains(device),
        forall|d: Seq<char>|
            d != device ==> (#[trigger] others(v, device).contains(d) <==> v.contains(d)),
    decreases v.len(),
{
    if v.len() > 0 {
        let rest = v.drop_last();
        a_forgotten_device_is_gone(rest, device);
        let o = others(rest, device);
        assert(v =~= rest.push(v.last()));
        if v.last() != device {
            let all = o.push(v.last());
            assert forall|d: Seq<char>| all.contains(d) <==> o.contains(d) || d == v.last() by {
                if o.contains(d) {
                    let i = choose|i: int| 0 <= i < o.len() && o[i] == d;
                    assert(all[i] == d);
                }
                if d == v.last() {
                    assert(all[o.len() as int] == d);
                }
            }
        }
        assert forall|d: Seq<char>| v.contains(d) <==> rest.contains(d) || d == v.last() by {
            if rest.contains(d) {
                let i = choose|i: int| 0 <= i < rest.len() && rest[i] == d;
                assert(v[i] == d);
            }
            if v.contains(d) {
                let i = choose|i: int| 0 <= i < v.len() && v[i] == d;
                if i < rest.len() {
                    assert(rest[i] == d);
                }
            }
            if d == v.last() {
                assert(v[v.len() - 1] == d);
            }
        }
    }
}

// ── What programs write ─────────────────────────────────────────────────────

/// Whether an image is mounted through CDemu, by its name in lower case.
pub open spec fn needs_cdemu(lower: Seq<char>) -> bool {
    text::ends(lower, ".cue"@) || text::ends(lower, ".mds"@) || text::ends(lower, ".mdx"@)
        || text::ends(lower, ".nrg"@) || text::ends(lower, ".ccd"@) || text::ends(lower, ".toc"@)
        || text::ends(lower, ".b6t"@) || text::ends(lower, ".bwt"@) || text::ends(lower, ".c2d"@)
        || text::ends(lower, ".pdi"@) || text::ends(lower, ".gi"@) || text::ends(lower, ".daa"@)
}

/// Whether an image is mounted through CDemu, by its name in lower case.
pub fn use_cdemu(lower: &str) -> (r: bool)
    ensures
        r == needs_cdemu(lower@),
{
    let v: Vec<char> = chars_of(lower);
    let c: &[char] = v.as_slice();
    ends_with(c, ".cue") || ends_with(c, ".mds") || ends_with(c, ".mdx") || ends_with(c, ".nrg")
        || ends_with(c, ".ccd") || ends_with(c, ".toc") || ends_with(c, ".b6t") || ends_with(
        c,
        ".bwt",
    ) || ends_with(c, ".c2d") || ends_with(c, ".pdi") || ends_with(c, ".gi") || ends_with(c, ".daa")
}

/// What stands behind the first ` at ` of a text, up to the next one.
pub open spec fn behind_at(out: Seq<char>) -> Seq<char> {
    let i = text::find_text(out, " at "@, 0);
    if i == -1 {
        seq![]
    } else {
        let rest = out.skip(i + 4);
        let j = text::find_text(rest, " at "@, 0);
        if j == -1 {
            rest
        } else {
            rest.take(j)
        }
    }
}

/// The mount point that a text names.
pub open spec fn point_in(out: Seq<char>) -> Seq<char> {
    text::strip_back(text::trimmed(behind_at(out)), '.')
}

/// The mount point that a text names.
fn read_point(out: &str) -> (r: String)
    ensures
        r@ == point_in(out@),
{
    proof {
        reveal_strlit(" at ");
    }
    let c: Vec<char> = chars_of(out);
    let n: usize = c.len();
    let piece: Vec<char> = match find_str(c.as_slice(), " at ") {
        None => {
            let none: Vec<char> = Vec::new();
            assert(none@ =~= seq![]);
            none
        },
        Some(i) => {
            let rest: Vec<char> = cut_chars(c.as_slice(), i + 4, n);
            assert(rest@ =~= out@.skip(i + 4));
            match find_str(rest.as_slice(), " at ") {
                None => rest,
                Some(j) => {
                    assert(rest@.subrange(0, j as int) =~= rest@.take(j as int));
                    cut_chars(rest.as_slice(), 0, j)
                },
            }
        },
    };
    let t: Vec<char> = trim(piece.as_slice());
    let v: Vec<char> = trim_end_of(t.as_slice(), '.');
    string_of(v.as_slice())
}

/// The loop device that a text names at its end.
pub open spec fn loop_device_in(out: Seq<char>) -> Seq<char> {
    let words = text::words_of(out);
    if words.len() == 0 {
        seq![]
    } else {
        text::strip_back(words.last(), '.')
    }
}

/// The loop device that a text names at its end.
fn read_loop_device(out: &str) -> (r: Vec<char>)
    ensures
        r@ == loop_device_in(out@),
{
    let c: Vec<char> = chars_of(out);
    let words: Vec<Vec<char>> = text::words(c.as_slice());
    let n: usize = words.len();
    if n == 0 {
        let none: Vec<char> = Vec::new();
        assert(none@ =~= seq![]);
        return none;
    }
    assert(text::texts(words@).last() == words@[n - 1]@);
    trim_end_of(words[n - 1].as_slice(), '.')
}

/// The device and the mount point in a row of three columns between tabs; the third
/// goes on to the end of the row.
pub open spec fn attached_in(row: Seq<char>) -> Option<MountView> {
    let i = text::find_char(row, 0, '\t');
    let j = text::find_char(row, i + 1, '\t');
    if i >= row.len() || j >= row.len() {
        None
    } else {
        let point = text::trimmed(row.skip(j + 1));
        if point.len() == 0 {
            None
        } else {
            Some(MountView { mount_point: point, device: text::trimmed(row.take(i)) })
        }
    }
}

/// The last of the first `k` rows that tells a mount.
pub open spec fn attached_before(rows: Seq<Seq<char>>, k: int) -> Option<MountView>
    decreases k,
{
    if k <= 0 || k > rows.len() {
        None
    } else {
        match attached_in(rows[k - 1]) {
            Some(m) => Some(m),
            None => attached_before(rows, k - 1),
        }
    }
}

/// The device and the mount point in a row.
fn read_attached(row: &[char]) -> (r: Option<MountResult>)
    ensures
        match r {
            Some(m) => attached_in(row@) == Some(m@),
            None => attached_in(row@) is None,
        },
{
    let n: usize = row.len();
    let i: usize = find_char_from(row, 0, '\t');
    proof {
        text::lemma_find_char(row@, 0, '\t');
    }
    if i >= n {
        return None;
    }
    let j: usize = find_char_from(row, i + 1, '\t');
    proof {
        text::lemma_find_char(row@, i + 1, '\t');
    }
    if j >= n {
        return None;
    }
    let third: Vec<char> = cut_chars(row, j + 1, n);
    assert(third@ =~= row@.skip(j + 1));
    let point: Vec<char> = trim(third.as_slice());
    if point.len() == 0 {
        return None;
    }
    let first: Vec<char> = cut_chars(row, 0, i);
    assert(first@ =~= row@.take(i as int));
    let device: Vec<char> = trim(first.as_slice());
    Some(
        MountResult {
            mount_point: string_of(point.as_slice()),
            device: string_of(device.as_slice()),
        },
    )
}

/// The mount that an attachment wrote.
#[verifier::loop_isolation(false)]
fn find_attached(out: &str) -> (r: Option<MountResult>)
    ensures
        match r {
            Some(m) => attached_before(
                text::lines_of(out@),
                text::lines_of(out@).len() as int,
            ) == Some(m@),
            None => attached_before(
                text::lines_of(out@),
                text::lines_of(out@).len() as int,
            ) is None,
        },
{
    let c: Vec<char> = chars_of(out);
    let rows: Vec<Vec<char>> = lines(c.as_slice());
    let ghost all = text::lines_of(out@);
    let mut k: usize = rows.len();
    while k > 0
        invariant
            k <= rows@.len(),
            attached_before(all, k as int) == attached_before(all, all.len() as int),
        decreases k,
    {
        assert(text::texts(rows@)[k - 1] == rows@[k - 1]@);
        match read_attached(rows[k - 1].as_slice()) {
            Some(m) => {
                return Some(m);
            },
            None => {},
        }
        k -= 1;
    }
    None
}

// ── Mounting ────────────────────────────────────────────────────────────────

/// What is under way while an image is mounted.
#[derive(Clone, Copy, PartialEq, Eq, Structural)]
pub enum MountStage {
    Daemon(DaemonStage),
    Load,
    Mapping,
    Mount,
    Query,
    LoopSetup,
    LoopMount,
    Attach,
    MountImage,
}

/// How far the mounting of an image has come: what was found so far.
pub struct MountState {
    pub stage: MountStage,
    pub image: String,
    pub slot: String,
    pub device: String,
}

/// The contents of a state.
pub struct MountStateView {
    pub stage: MountStage,
    pub image: Seq<char>,
    pub slot: Seq<char>,
    pub device: Seq<char>,
}

impl View for MountState {
    type V = MountStateView;

    open spec fn view(&self) -> MountStateView {
        MountStateView {
            stage: self.stage,
            image: self.image@,
            slot: self.slot@,
            device: self.device@,
        }
    }
}

/// What follows a job: another one, or the end.
pub enum MountNext {
    Do(MountState, Job),
    Done(MountResult),
    Fail(String),
}

/// The contents of what follows a job.
pub enum MountNextView {
    Do(MountStateView, JobView),
    Done(MountView),
    Fail(Seq<char>),
}

impl View for MountNext {
    type V = MountNextView;

    open spec fn view(&self) -> MountNextView {
        match self {
            MountNext::Do(s, j) => MountNextView::Do(s@, j@),
            MountNext::Done(m) => MountNextView::Done(m@),
            MountNext::Fail(e) => MountNextView::Fail(e@),
        }
    }
}

/// A state and the job that it waits for.
pub open spec fn then_do(
    s: MountStateView,
    stage: MountStage,
    kind: JobKind,
    arg: Seq<char>,
) -> MountNextView {
    MountNextView::Do(MountStateView { stage, ..s }, host::job(kind, arg))
}

/// How the mounting of an image begins.
pub open spec fn mount_start(p: Platform, image: Seq<char>) -> MountNextView {
    let s = MountStateView { stage: MountStage::Attach, image, slot: ""@, device: ""@ };
    match p {
        Platform::Mac => then_do(s, MountStage::Attach, JobKind::Attach, image),
        Platform::Windows => then_do(s, MountStage::MountImage, JobKind::MountImage, image),
        Platform::Linux => if needs_cdemu(text::lowercase(image)) {
            MountNextView::Do(
                MountStateView { stage: MountStage::Daemon(DaemonStage::Find), ..s },
                host::daemon_job(),
            )
        } else {
            then_do(s, MountStage::LoopSetup, JobKind::LoopSetup, image)
        },
    }
}

/// What an image is taken off by that was mounted through CDemu.
pub open spec fn cdemu_key(slot: Seq<char>, device: Seq<char>) -> Seq<char> {
    "cdemu:"@ + slot + ":"@ + device
}

/// The end of mounting through CDemu.
pub open spec fn cdemu_end(s: MountStateView, point: Seq<char>) -> MountNextView {
    if point.len() == 0 {
        MountNextView::Fail("CDemu: could not determine mount point"@)
    } else {
        MountNextView::Done(
            MountView { mount_point: point, device: cdemu_key(s.slot, s.device) },
        )
    }
}

/// What follows a job while an image is mounted.
pub open spec fn mount_after(s: MountStateView, e: EventView) -> MountNextView {
    match s.stage {
        MountStage::Daemon(d) => match host::daemon_after(d, e) {
            host::DaemonNextView::Do(next, j) => MountNextView::Do(
                MountStateView { stage: MountStage::Daemon(next), ..s },
                j,
            ),
            host::DaemonNextView::Ready => then_do(
                s,
                MountStage::Load,
                JobKind::CdemuLoad,
                s.image,
            ),
            host::DaemonNextView::Fail(t) => MountNextView::Fail(t),
        },
        MountStage::Load => if !e.ran {
            MountNextView::Fail(
                if e.missing {
                    "CDemu is not installed. Install the 'cdemu' package to mount this image type."@
                } else {
                    "cdemu load failed: "@ + e.err
                },
            )
        } else if !e.success {
            MountNextView::Fail(text::trimmed(e.err))
        } else {
            then_do(
                MountStateView { slot: host::slot_of(e.out), ..s },
                MountStage::Mapping,
                JobKind::CdemuMapping,
                ""@,
            )
        },
        MountStage::Mapping => match host::mapped_device(e, s.slot) {
            None => MountNextView::Fail("CDemu: could not find device for slot "@ + s.slot),
            Some(d) => then_do(
                MountStateView { device: d, ..s },
                MountStage::Mount,
                JobKind::MountDevice,
                d,
            ),
        },
        MountStage::Mount => if !e.ran {
            MountNextView::Fail("udisksctl mount failed: "@ + e.err)
        } else if e.success {
            cdemu_end(s, point_in(e.out))
        } else {
            then_do(s, MountStage::Query, JobKind::MountPoint, s.device)
        },
        MountStage::Query => if !e.ran {
            MountNextView::Fail("lsblk failed: "@ + e.err)
        } else {
            cdemu_end(s, text::trimmed(e.out))
        },
        MountStage::LoopSetup => if !e.ran {
            MountNextView::Fail("udisksctl loop-setup failed: "@ + e.err)
        } else if !e.success {
            MountNextView::Fail(text::trimmed(e.err))
        } else {
            let d = loop_device_in(e.out);
            if text::begins(d, "/dev/loop"@) {
                then_do(
                    MountStateView { device: d, ..s },
                    MountStage::LoopMount,
                    JobKind::MountDevice,
                    d,
                )
            } else {
                MountNextView::Fail("Unexpected loop-setup output: "@ + e.out)
            }
        },
        MountStage::LoopMount => if !e.ran {
            MountNextView::Fail("udisksctl mount failed: "@ + e.err)
        } else if !e.success {
            MountNextView::Fail(text::trimmed(e.err))
        } else if point_in(e.out).len() == 0 {
            MountNextView::Fail("Could not determine mount point"@)
        } else {
            MountNextView::Done(MountView { mount_point: point_in(e.out), device: s.device })
        },
        MountStage::Attach => if !e.ran {
            MountNextView::Fail("hdiutil failed: "@ + e.err)
        } else if !e.success {
            MountNextView::Fail(text::trimmed(e.err))
        } else {
            match attached_before(text::lines_of(e.out), text::lines_of(e.out).len() as int) {
                Some(m) => MountNextView::Done(m),
                None => MountNextView::Fail("Could not determine mount point"@),
            }
        },
        MountStage::MountImage => if !e.ran {
            MountNextView::Fail("Mount-DiskImage failed: "@ + e.err)
        } else if !e.success {
            MountNextView::Fail(text::trimmed(e.err))
        } else {
            let letter = text::trimmed(e.out);
            if letter.len() == 0 {
                MountNextView::Fail("Could not determine drive letter"@)
            } else {
                MountNextView::Done(
                    MountView { mount_point: letter + ":\\"@, device: s.image },
                )
            }
        },
    }
}

/// How many stages can still follow one.
pub open spec fn mount_rank(stage: MountStage) -> int {
    match stage {
        MountStage::Daemon(d) => 4 + host::daemon_rank(d),
        MountStage::Load => 3,
        MountStage::Mapping => 2,
        MountStage::Mount => 1,
        MountStage::LoopSetup => 1,
        _ => 0,
    }
}

/// Mounting an image ends after a bounded number of jobs.
pub proof fn mounting_ends(s: MountStateView, e: EventView)
    ensures
        mount_after(s, e) matches MountNextView::Do(next, _) ==> 0 <= mount_rank(next.stage)
            < mount_rank(s.stage),
{
    if let MountStage::Daemon(d) = s.stage {
        host::starting_the_daemon_ends(d, e);
    }
}

/// An empty text has no characters.
fn is_empty(t: &str) -> (r: bool)
    ensures
        r == (t@.len() == 0),
{
    chars_of(t).len() == 0
}

/// A state and the job that it waits for.
fn next_job(s: MountState, stage: MountStage, kind: JobKind, arg: &str) -> (r: MountNext)
    ensures
        r@ == then_do(s@, stage, kind, arg@),
{
    MountNext::Do(
        MountState { stage, image: s.image, slot: s.slot, device: s.device },
        make_job(kind, arg),
    )
}

/// Begins to mount an image.
pub fn begin_mount(p: Platform, image: &str) -> (r: MountNext)
    ensures
        r@ == mount_start(p, image@),
{
    let s: MountState = MountState {
        stage: MountStage::Attach,
        image: image.to_owned(),
        slot: "".to_owned(),
        device: "".to_owned(),
    };
    match p {
        Platform::Mac => next_job(s, MountStage::Attach, JobKind::Attach, image),
        Platform::Windows => next_job(s, MountStage::MountImage, JobKind::MountImage, image),
        Platform::Linux => {
            let lower: String = to_lowercase(image);
            if use_cdemu(lower.as_str()) {
                MountNext::Do(
                    MountState {
                        stage: MountStage::Daemon(DaemonStage::Find),
                        image: s.image,
                        slot: s.slot,
                        device: s.device,
                    },
                    first_daemon_job(),
                )
            } else {
                next_job(s, MountStage::LoopSetup, JobKind::LoopSetup, image)
            }
        },
    }
}

/// The end of mounting through CDemu.
fn end_cdemu(s: MountState, point: String) -> (r: MountNext)
    ensures
        r@ == cdemu_end(s@, point@),
{
    if is_empty(point.as_str()) {
        return MountNext::Fail("CDemu: could not determine mount point".to_owned());
    }
    let head: String = join3("cdemu:", s.slot.as_str(), ":");
    let device: String = join2(head.as_str(), s.device.as_str());
    MountNext::Done(MountResult { mount_point: point, device })
}

/// What follows a job while an image is mounted.
pub fn mount_disc_image(s: MountState, e: &Event) -> (r: MountNext)
    ensures
        r@ == mount_after(s@, e@),
{
    match s.stage {
        MountStage::Daemon(d) => match ensure_cdemu_daemon(d, e) {
            DaemonNext::Do(next, j) => MountNext::Do(
                MountState {
                    stage: MountStage::Daemon(next),
                    image: s.image,
                    slot: s.slot,
                    device: s.device,
                },
                j,
            ),
            DaemonNext::Ready => {
                let image: String = s.image.as_str().to_owned();
                next_job(s, MountStage::Load, JobKind::CdemuLoad, image.as_str())
            },
            DaemonNext::Fail(t) => MountNext::Fail(t),
        },
        MountStage::Load => if !e.ran {
            MountNext::Fail(
                if e.missing {
                    "CDemu is not installed. Install the 'cdemu' package to mount this image type.".to_owned()
                } else {
                    join2("cdemu load failed: ", e.err.as_str())
                },
            )
        } else if !e.success {
            MountNext::Fail(trimmed_text(e.err.as_str()))
        } else {
            let slot: String = read_slot(e.out.as_str());
            next_job(
                MountState { stage: s.stage, image: s.image, slot, device: s.device },
                MountStage::Mapping,
                JobKind::CdemuMapping,
                "",
            )
        },
        MountStage::Mapping => match cdemu_device_for_slot(e, s.slot.as_str()) {
            None => MountNext::Fail(
                join2("CDemu: could not find device for slot ", s.slot.as_str()),
            ),
            Some(d) => {
                let device: String = d.as_str().to_owned();
                next_job(
                    MountState { stage: s.stage, image: s.image, slot: s.slot, device },
                    MountStage::Mount,
                    JobKind::MountDevice,
                    d.as_str(),
                )
            },
        },
        MountStage::Mount => if !e.ran {
            MountNext::Fail(join2("udisksctl mount failed: ", e.err.as_str()))
        } else if e.success {
            let point: String = read_point(e.out.as_str());
            end_cdemu(s, point)
        } else {
            let device: String = s.device.as_str().to_owned();
            next_job(s, MountStage::Query, JobKind::MountPoint, device.as_str())
        },
        MountStage::Query => if !e.ran {
            MountNext::Fail(join2("lsblk failed: ", e.err.as_str()))
        } else {
            let point: String = trimmed_text(e.out.as_str());
            end_cdemu(s, point)
        },
        MountStage::LoopSetup => if !e.ran {
            MountNext::Fail(join2("udisksctl loop-setup failed: ", e.err.as_str()))
        } else if !e.success {
            MountNext::Fail(trimmed_text(e.err.as_str()))
        } else {
            let d: Vec<char> = read_loop_device(e.out.as_str());
            if starts_with(d.as_slice(), "/dev/loop") {
                let device: String = string_of(d.as_slice());
                let arg: String = string_of(d.as_slice());
                next_job(
                    MountState { stage: s.stage, image: s.image, slot: s.slot, device },
                    MountStage::LoopMount,
                    JobKind::MountDevice,
                    arg.as_str(),
                )
            } else {
                MountNext::Fail(join2("Unexpected loop-setup output: ", e.out.as_str()))
            }
        },
        MountStage::LoopMount => if !e.ran {
            MountNext::Fail(join2("udisksctl mount failed: ", e.err.as_str()))
        } else if !e.success {
            MountNext::Fail(trimmed_text(e.err.as_str()))
        } else {
            let point: String = read_point(e.out.as_str());
            if is_empty(point.as_str()) {
                MountNext::Fail("Could not determine mount point".to_owned())
            } else {
                MountNext::Done(MountResult { mount_point: point, device: s.device })
            }
        },
        MountStage::Attach => if !e.ran {
            MountNext::Fail(join2("hdiutil failed: ", e.err.as_str()))
        } else if !e.success {
            MountNext::Fail(trimmed_text(e.err.as_str()))
        } else {
            match find_attached(e.out.as_str()) {
                Some(m) => MountNext::Done(m),
                None => MountNext::Fail("Could not determine mount point".to_owned()),
            }
        },
        MountStage::MountImage => if !e.ran {
            MountNext::Fail(join2("Mount-DiskImage failed: ", e.err.as_str()))
        } else if !e.success {
            MountNext::Fail(trimmed_text(e.err.as_str()))
        } else {
            let letter: String = trimmed_text(e.out.as_str());
            if is_empty(letter.as_str()) {
                MountNext::Fail("Could not determine drive letter".to_owned())
            } else {
                MountNext::Done(
                    MountResult { mount_point: join2(letter.as_str(), ":\\"), device: s.image },
                )
            }
        },
    }
}

// ── Taking off ──────────────────────────────────────────────────────────────

/// What is under way while an image is taken off.
#[derive(Clone, Copy, PartialEq, Eq, Structural)]
pub enum UnmountStage {
    Detach,
    Dismount,
    CdemuUnmount,
    CdemuUnload,
    LoopUnmount,
    LoopDelete,
}

/// What follows a job while an image is taken off.
pub enum UnmountNext {
    Do(UnmountStage, Job),
    Done,
    Fail(String),
}

/// The contents of what follows a job while an image is taken off.
pub enum UnmountNextView {
    Do(UnmountStage, JobView),
    Done,
    Fail(Seq<char>),
}

impl View for UnmountNext {
    type V = UnmountNextView;

    open spec fn view(&self) -> UnmountNextView {
        match self {
            UnmountNext::Do(s, j) => UnmountNextView::Do(*s, j@),
            UnmountNext::Done => UnmountNextView::Done,
            UnmountNext::Fail(e) => UnmountNextView::Fail(e@),
        }
    }
}

/// The slot and the device in the key of an image that was mounted through CDemu:
/// what stands behind its first colon, parted at the next one.
pub open spec fn key_parts(key: Seq<char>) -> (Seq<char>, Seq<char>) {
    let rest = key.skip(6);
    let i = text::find_char(rest, 0, ':');
    if i >= rest.len() {
        (rest, seq![])
    } else {
        (rest.take(i), rest.skip(i + 1))
    }
}

/// How taking an image off begins.
pub open spec fn unmount_start(p: Platform, device: Seq<char>) -> UnmountNextView {
    match p {
        Platform::Mac => UnmountNextView::Do(
            UnmountStage::Detach,
            host::job(JobKind::Detach, device),
        ),
        Platform::Windows => UnmountNextView::Do(
            UnmountStage::Dismount,
            host::job(JobKind::DismountImage, device),
        ),
        Platform::Linux => if text::begins(device, "cdemu:"@) {
            UnmountNextView::Do(
                UnmountStage::CdemuUnmount,
                host::job(JobKind::Unmount, key_parts(device).1),
            )
        } else {
            UnmountNextView::Do(
                UnmountStage::LoopUnmount,
                host::job(JobKind::Unmount, device),
            )
        },
    }
}

/// The end of taking an image off: the last job has to succeed.
pub open spec fn unmount_end(e: EventView, label: Seq<char>) -> UnmountNextView {
    if !e.ran {
        UnmountNextView::Fail(label + e.err)
    } else if !e.success {
        UnmountNextView::Fail(text::trimmed(e.err))
    } else {
        UnmountNextView::Done
    }
}

/// What follows a job while an image is taken off.
pub open spec fn unmount_after(stage: UnmountStage, device: Seq<char>, e: EventView) -> UnmountNextView {
    match stage {
        UnmountStage::Detach => unmount_end(e, "hdiutil detach failed: "@),
        UnmountStage::Dismount => unmount_end(e, "Dismount-DiskImage failed: "@),
        UnmountStage::CdemuUnmount => UnmountNextView::Do(
            UnmountStage::CdemuUnload,
            host::job(JobKind::CdemuUnload, key_parts(device).0),
        ),
        UnmountStage::CdemuUnload => unmount_end(e, "cdemu unload failed: "@),
        UnmountStage::LoopUnmount => UnmountNextView::Do(
            UnmountStage::LoopDelete,
            host::job(JobKind::LoopDelete, device),
        ),
        UnmountStage::LoopDelete => unmount_end(e, "udisksctl loop-delete failed: "@),
    }
}

/// The key of an image that was mounted through CDemu is recognised, and names its
/// slot and its device, as long as the slot is a number.
pub proof fn a_key_names_its_slot_and_device(slot: Seq<char>, device: Seq<char>)
    requires
        host::is_digits(slot),
    ensures
        text::begins(cdemu_key(slot, device), "cdemu:"@),
        key_parts(cdemu_key(slot, device)) == (slot, device),
{
    reveal_strlit("cdemu:");
    reveal_strlit(":");
    let key = cdemu_key(slot, device);
    assert(key.subrange(0, 6) =~= "cdemu:"@);
    let rest = key.skip(6);
    assert(rest =~= slot + seq![':'] + device);
    text::lemma_find_char(rest, 0, ':');
    let i = text::find_char(rest, 0, ':');
    assert(rest[slot.len() as int] == ':');
    assert(i == slot.len()) by {
        if i < slot.len() {
            assert(rest[i] == slot[i]);
        }
    }
    assert(rest.take(i) =~= slot);
    assert(rest.skip(i + 1) =~= device);
}

/// The slot and the device in the key of an image that was mounted through CDemu.
fn split_key(key: &[char]) -> (r: (String, String))
    requires
        key@.len() >= 6,
    ensures
        r.0@ == key_parts(key@).0,
        r.1@ == key_parts(key@).1,
{
    let n: usize = key.len();
    let rest: Vec<char> = cut_chars(key, 6, n);
    assert(rest@ =~= key@.skip(6));
    let i: usize = find_char_from(rest.as_slice(), 0, ':');
    proof {
        text::lemma_find_char(rest@, 0, ':');
    }
    let len: usize = rest.len();
    if i >= len {
        let none: Vec<char> = Vec::new();
        assert(none@ =~= seq![]);
        return (string_of(rest.as_slice()), string_of(none.as_slice()));
    }
    let a: Vec<char> = cut_chars(rest.as_slice(), 0, i);
    let b: Vec<char> = cut_chars(rest.as_slice(), i + 1, len);
    assert(a@ =~= rest@.take(i as int));
    assert(b@ =~= rest@.skip(i + 1));
    (string_of(a.as_slice()), string_of(b.as_slice()))
}

/// The device of a mounted image, and its slot where it was mounted through CDemu.
fn cdemu_parts(device: &str) -> (r: Option<(String, String)>)
    ensures
        match r {
            Some(t) => text::begins(device@, "cdemu:"@) && t.0@ == key_parts(device@).0 && t.1@
                == key_parts(device@).1,
            None => !text::begins(device@, "cdemu:"@),
        },
{
    proof {
        reveal_strlit("cdemu:");
    }
    let c: Vec<char> = chars_of(device);
    if starts_with(c.as_slice(), "cdemu:") {
        Some(split_key(c.as_slice()))
    } else {
        None
    }
}

/// Begins to take an image off.
pub fn begin_unmount(p: Platform, device: &str) -> (r: UnmountNext)
    ensures
        r@ == unmount_start(p, device@),
{
    match p {
        Platform::Mac => UnmountNext::Do(
            UnmountStage::Detach,
            make_job(JobKind::Detach, device),
        ),
        Platform::Windows => UnmountNext::Do(
            UnmountStage::Dismount,
            make_job(JobKind::DismountImage, device),
        ),
        Platform::Linux => match cdemu_parts(device) {
            Some((_, dev)) => UnmountNext::Do(
                UnmountStage::CdemuUnmount,
                make_job(JobKind::Unmount, dev.as_str()),
            ),
            None => UnmountNext::Do(
                UnmountStage::LoopUnmount,
                make_job(JobKind::Unmount, device),
            ),
        },
    }
}

/// The end of taking an image off.
fn end_unmount(e: &Event, label: &str) -> (r: UnmountNext)
    ensures
        r@ == unmount_end(e@, label@),
{
    if !e.ran {
        UnmountNext::Fail(join2(label, e.err.as_str()))
    } else if !e.success {
        UnmountNext::Fail(trimmed_text(e.err.as_str()))
    } else {
        UnmountNext::Done
    }
}

/// What follows a job while an image is taken off.
pub fn unmount_disc_image(stage: UnmountStage, device: &str, e: &Event) -> (r: UnmountNext)
    requires
        stage == UnmountStage::CdemuUnmount ==> text::begins(device@, "cdemu:"@),
    ensures
        r@ == unmount_after(stage, device@, e@),
{
    match stage {
        UnmountStage::Detach => end_unmount(e, "hdiutil detach failed: "),
        UnmountStage::Dismount => end_unmount(e, "Dismount-DiskImage failed: "),
        UnmountStage::CdemuUnmount => match cdemu_parts(device) {
            Some((slot, _)) => UnmountNext::Do(
                UnmountStage::CdemuUnload,
                make_job(JobKind::CdemuUnload, slot.as_str()),
            ),
            None => UnmountNext::Done,
        },
        UnmountStage::CdemuUnload => end_unmount(e, "cdemu unload failed: "),
        UnmountStage::LoopUnmount => UnmountNext::Do(
            UnmountStage::LoopDelete,
            make_job(JobKind::LoopDelete, device),
        ),
        UnmountStage::LoopDelete => end_unmount(e, "udisksctl loop-delete failed: "),
    }
}

/// The jobs that take a device off when the program ends.
pub open spec fn detach_jobs(p: Platform, device: Seq<char>) -> Seq<JobView> {
    match p {
        Platform::Mac => seq![host::job(JobKind::DetachForce, device)],
        Platform::Windows => seq![host::job(JobKind::DismountImage, device)],
        Platform::Linux => if text::begins(device, "cdemu:"@) {
            seq![host::job(JobKind::Unmount, key_parts(device).1)]
        } else {
            seq![host::job(JobKind::Unmount, device), host::job(JobKind::LoopDelete, device)]
        },
    }
}

/// The jobs that take devices off, one after another.
pub open spec fn all_detach_jobs(p: Platform, devices: Seq<Seq<char>>) -> Seq<JobView>
    decreases devices.len(),
{
    if devices.len() == 0 {
        seq![]
    } else {
        all_detach_jobs(p, devices.drop_last()) + detach_jobs(p, devices.last())
    }
}

/// The contents of jobs.
pub open spec fn jobs(v: Seq<Job>) -> Seq<JobView> {
    v.map_values(|j: Job| j@)
}

/// The jobs that take a device off when the program ends, behind others.
fn push_detach_jobs(out: &mut Vec<Job>, p: Platform, device: &str)
    ensures
        jobs(final(out)@) == jobs(old(out)@) + detach_jobs(p, device@),
{
    let ghost before = jobs(out@);
    match p {
        Platform::Mac => {
            out.push(make_job(JobKind::DetachForce, device));
        },
        Platform::Windows => {
            out.push(make_job(JobKind::DismountImage, device));
        },
        Platform::Linux => match cdemu_parts(device) {
            Some((_, dev)) => {
                out.push(make_job(JobKind::Unmount, dev.as_str()));
            },
            None => {
                out.push(make_job(JobKind::Unmount, device));
                out.push(make_job(JobKind::LoopDelete, device));
            },
        },
    }
    assert(jobs(out@) =~= before + detach_jobs(p, device@));
}

/// The jobs that take all devices off when the program ends.
#[verifier::loop_isolation(false)]
pub fn detach_all(p: Platform, devices: &Vec<String>) -> (r: Vec<Job>)
    ensures
        jobs(r@) == all_detach_jobs(p, text::views(devices@)),
{
    let ghost all = text::views(devices@);
    let mut out: Vec<Job> = Vec::new();
    let mut i: usize = 0;
    assert(jobs(out@) =~= all_detach_jobs(p, all.take(0)));
    while i < devices.len()
        invariant
            i <= devices@.len(),
            jobs(out@) == all_detach_jobs(p, all.take(i as int)),
        decreases devices@.len() - i,
    {
        let ghost part = all.take(i + 1);
        assert(part.drop_last() =~= all.take(i as int));
        push_detach_jobs(&mut out, p, devices[i].as_str());
        i += 1;
    }
    assert(all.take(i as int) =~= all);
    out
}

/// The last word of what attaching an image prints is its device, without the full stop.
pub proof fn the_last_word_is_the_device(front: Seq<char>, device: Seq<char>)
    requires
        front.len() > 0,
        device.len() > 0,
        device.last() != '.',
        forall|i: int| 0 <= i < device.len() ==> !text::is_white(#[trigger] device[i]),
        forall|i: int| 0 <= i < front.len() ==> !text::is_white(#[trigger] front[i]),
    ensures
        loop_device_in(front + seq![' '] + device) == device,
        loop_device_in(front + seq![' '] + (device + seq!['.'])) == device,
{
    let dotted = device + seq!['.'];
    assert forall|i: int| 0 <= i < dotted.len() implies !text::is_white(#[trigger] dotted[i]) by {
        if i < device.len() {
            assert(dotted[i] == device[i]);
        }
    }
    text::words_stand_between_white_space(' ', front, device);
    text::words_stand_between_white_space(' ', device, seq![]);
    text::words_stand_between_white_space(' ', front, dotted);
    text::words_stand_between_white_space(' ', dotted, seq![]);
    assert(text::words_of(front + seq![' '] + device) =~= seq![front, device]);
    assert(text::words_of(front + seq![' '] + dotted) =~= seq![front, dotted]);
    assert(text::strip_back(device, '.') == device);
    assert(dotted.last() == '.');
    assert(dotted.drop_last() =~= device);
}

/// A row of an attached image holds its device first and, behind two tabs, where it is mounted.
pub proof fn a_row_tells_device_and_place(device: Seq<char>, kind: Seq<char>, place: Seq<char>)
    requires
        device.len() > 0,
        place.len() > 0,
        !device.contains('\t'),
        !kind.contains('\t'),
        !text::is_white(device[0]),
        !text::is_white(device.last()),
        !text::is_white(place[0]),
        !text::is_white(place.last()),
    ensures
        attached_in(device + seq!['\t'] + kind + seq!['\t'] + place) == Some(
            MountView { mount_point: place, device },
        ),
{
    let row = device + seq!['\t'] + kind + seq!['\t'] + place;
    let none = Seq::<char>::empty();
    text::lemma_find_char(row, 0, '\t');
    let i = text::find_char(row, 0, '\t');
    assert(row[device.len() as int] == '\t');
    assert(i == device.len()) by {
        if i < device.len() {
            assert(row[i] == device[i]);
            assert(device.contains(device[i]));
        }
    }
    text::lemma_find_char(row, i + 1, '\t');
    let j = text::find_char(row, i + 1, '\t');
    let e = device.len() as int + 1 + kind.len();
    assert(row[e] == '\t');
    assert(j == e) by {
        if j < e {
            assert(row[j] == kind[j - i - 1]);
            assert(kind.contains(kind[j - i - 1]));
        }
    }
    assert(row.take(i) =~= device);
    assert(row.skip(j + 1) =~= place);
    text::trimming_takes_the_white_space(none, device, none);
    text::trimming_takes_the_white_space(none, place, none);
}

} // verus!
