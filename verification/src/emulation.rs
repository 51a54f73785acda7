//! Drives that CDemu stands in for, and how CDemu is installed.
use vstd::prelude::*;
use crate::host;
use crate::host::{
    cdemu_device_for_slot, ensure_cdemu_daemon, first_daemon_job, make_job, read_slot, trimmed_text,
    DaemonNext, DaemonStage, Event, EventView, Job, JobKind, JobView, Platform,
};
use crate::text;
use crate::text::{chars_of, find_str, join2, same_text};

verus! {

/// A drive that CDemu stands in for, and the image in it.
pub struct EmulatedDrive {
    pub slot: String,
    pub device: String,
    pub image_path: String,
}

/// The contents of a drive.
#[verifier::ext_equal]
pub struct EmulatedView {
    pub slot: Seq<char>,
    pub device: Seq<char>,
    pub image_path: Seq<char>,
}

impl View for EmulatedDrive {
    type V = EmulatedView;

    open spec fn view(&self) -> EmulatedView {
        EmulatedView { slot: self.slot@, device: self.device@, image_path: self.image_path@ }
    }
}

/// A copy of a drive.
fn copy_drive(d: &EmulatedDrive) -> (r: EmulatedDrive)
    ensures
        r@ == d@,
{
    EmulatedDrive {
        slot: d.slot.as_str().to_owned(),
        device: d.device.as_str().to_owned(),
        image_path: d.image_path.as_str().to_owned(),
    }
}

/// The drives that CDemu stands in for.
pub struct EmulatedDrives {
    pub drives: Vec<EmulatedDrive>,
}

/// The contents of drives.
pub open spec fn contents(v: Seq<EmulatedDrive>) -> Seq<EmulatedView> {
    v.map_values(|d: EmulatedDrive| d@)
}

/// Drives without those of a slot.
pub open spec fn outside_slot(v: Seq<EmulatedView>, slot: Seq<char>) -> Seq<EmulatedView>
    decreases v.len(),
{
    if v.len() == 0 {
        seq![]
    } else if v.last().slot == slot {
        outside_slot(v.drop_last(), slot)
    } else {
        outside_slot(v.drop_last(), slot).push(v.last())
    }
}

/// No drive of a slot is left that was emptied, and those of other slots stay.
pub proof fn an_emptied_slot_is_gone(v: Seq<EmulatedView>, slot: Seq<char>)
    ensures
        forall|i: int|
            0 <= i < outside_slot(v, slot).len() ==> (#[trigger] outside_slot(v, slot)[i]).slot
                != slot,
        forall|d: EmulatedView|
            d.slot != slot ==> (#[trigger] outside_slot(v, slot).contains(d) <==> v.contains(d)),
    decreases v.len(),
{
    if v.len() > 0 {
        let rest = v.drop_last();
        an_emptied_slot_is_gone(rest, slot);
        let o = outside_slot(rest, slot);
        assert forall|d: EmulatedView| v.contains(d) <==> rest.contains(d) || d == v.last() by {
            if rest.contains(d) {
                let i = choose|i: int| 0 <= i < rest.len() && rest[i] == d;
                assert(v[i] == d);
            }
            if v.contains(d) {
                let i = choose|i: int| 0 <= i < v.len() && v[i] == d;
                if i < rest.len() {
                    assert(rest[i] == d);
                }
            }
            if d == v.last() {
                assert(v[v.len() - 1] == d);
            }
        }
        if v.last().slot != slot {
            let all = o.push(v.last());
            assert forall|d: EmulatedView| all.contains(d) <==> o.contains(d) || d == v.last() by {
                if o.contains(d) {
                    let i = choose|i: int| 0 <= i < o.len() && o[i] == d;
                    assert(all[i] == d);
                }
                if d == v.last() {
                    assert(all[o.len() as int] == d);
                }
            }
        }
    }
}

impl EmulatedDrives {
    /// The drives in their order.
    pub open spec fn listed(&self) -> Seq<EmulatedView> {
        contents(self.drives@)
    }

    /// There are none.
    pub fn new() -> (r: EmulatedDrives)
        ensures
            r.listed() == Seq::<EmulatedView>::empty(),
    {
        let r: EmulatedDrives = EmulatedDrives { drives: Vec::new() };
        assert(r.listed() =~= Seq::<EmulatedView>::empty());
        r
    }

    /// Notes a drive.
    pub fn note(&mut self, d: &EmulatedDrive)
        ensures
            final(self).listed() == old(self).listed().push(d@),
    {
        let ghost before = self.listed();
        self.drives.push(copy_drive(d));
        assert(self.listed() =~= before.push(d@));
    }

    /// Forgets the drives of a slot.
    #[verifier::loop_isolation(false)]
    pub fn forget(&mut self, slot: &str)
        ensures
            final(self).listed() == outside_slot(old(self).listed(), slot@),
    {
        let ghost all = self.listed();
        let mut kept: Vec<EmulatedDrive> = Vec::new();
        let mut i: usize = 0;
        assert(contents(kept@) =~= outside_slot(all.take(0), slot@));
        while i < self.drives.len()
            invariant
                i <= self.drives@.len(),
                self.listed() == all,
                contents(kept@) == outside_slot(all.take(i as int), slot@),
            decreases self.drives@.len() - i,
        {
            let ghost part = all.take(i + 1);
            assert(part.drop_last() =~= all.take(i as int));
            assert(part.last() == self.drives@[i as int]@);
            let ghost before = contents(kept@);
            if !same_text(self.drives[i].slot.as_str(), slot) {
                kept.push(copy_drive(&self.drives[i]));
                assert(contents(kept@) =~= before.push(part.last()));
            }
            i += 1;
        }
        assert(all.take(i as int) =~= all);
        self.drives = kept;
    }

    /// Lists the drives.
    #[verifier::loop_isolation(false)]
    pub fn list_emulated_drives(&self) -> (r: Vec<EmulatedDrive>)
        ensures
            contents(r@) == self.listed(),
    {
        let mut out: Vec<EmulatedDrive> = Vec::new();
        while out.len() < self.drives.len()
            invariant
                out@.len() <= self.drives@.len(),
                forall|j: int| 0 <= j < out@.len() ==> (#[trigger] out@[j])@ == self.drives@[j]@,
            decreases self.drives@.len() - out@.len(),
        {
            let i: usize = out.len();
            out.push(copy_drive(&self.drives[i]));
        }
        assert(contents(out@) =~= self.listed());
        out
    }
}

// ── Loading ─────────────────────────────────────────────────────────────────

/// What is under way while an image is loaded.
#[derive(Clone, Copy, PartialEq, Eq, Structural)]
pub enum LoadStage {
    Daemon(DaemonStage),
    Load,
    AddDevice,
    LoadAgain,
    Mapping,
}

/// What follows a job while an image is loaded; the text is the slot that was found.
pub enum LoadNext {
    Do(LoadStage, String, Job),
    Done(EmulatedDrive),
    Fail(String),
}

/// The contents of what follows a job while an image is loaded.
pub enum LoadNextView {
    Do(LoadStage, Seq<char>, JobView),
    Done(EmulatedView),
    Fail(Seq<char>),
}

impl View for LoadNext {
    type V = LoadNextView;

    open spec fn view(&self) -> LoadNextView {
        match self {
            LoadNext::Do(s, t, j) => LoadNextView::Do(*s, t@, j@),
            LoadNext::Done(d) => LoadNextView::Done(d@),
            LoadNext::Fail(e) => LoadNextView::Fail(e@),
        }
    }
}

/// How loading an image begins.
pub open spec fn load_start(p: Platform) -> LoadNextView {
    if p == Platform::Linux {
        LoadNextView::Do(LoadStage::Daemon(DaemonStage::Find), ""@, host::daemon_job())
    } else {
        LoadNextView::Fail("Drive emulation via CDemu is only available on Linux."@)
    }
}

/// Whether a load failed because every drive holds an image.
pub open spec fn is_full(e: EventView) -> bool {
    e.ran && !e.success && text::find_text(e.err, "No empty device found"@, 0) != -1
}

/// What follows a load that is the last try.
pub open spec fn load_end(e: EventView) -> LoadNextView {
    if !e.ran {
        LoadNextView::Fail(
            if e.missing {
                "CDemu is not installed. Install the 'cdemu' package to emulate drives."@
            } else {
                "cdemu load failed: "@ + e.err
            },
        )
    } else if !e.success {
        LoadNextView::Fail(text::trimmed(e.err))
    } else {
        LoadNextView::Do(
            LoadStage::Mapping,
            host::slot_of(e.out),
            host::job(JobKind::CdemuMapping, ""@),
        )
    }
}

/// What follows a job while an image is loaded: where every drive is full, one is
/// added and the load tried once more.
pub open spec fn load_after(
    stage: LoadStage,
    slot: Seq<char>,
    image: Seq<char>,
    e: EventView,
) -> LoadNextView {
    match stage {
        LoadStage::Daemon(d) => match host::daemon_after(d, e) {
            host::DaemonNextView::Do(next, j) => LoadNextView::Do(
                LoadStage::Daemon(next),
                slot,
                j,
            ),
            host::DaemonNextView::Ready => LoadNextView::Do(
                LoadStage::Load,
                slot,
                host::job(JobKind::CdemuLoad, image),
            ),
            host::DaemonNextView::Fail(t) => LoadNextView::Fail(t),
        },
        LoadStage::Load => if is_full(e) {
            LoadNextView::Do(LoadStage::AddDevice, slot, host::job(JobKind::CdemuAddDevice, ""@))
        } else {
            load_end(e)
        },
        LoadStage::AddDevice => LoadNextView::Do(
            LoadStage::LoadAgain,
            slot,
            host::job(JobKind::CdemuLoad, image),
        ),
        LoadStage::LoadAgain => load_end(e),
        LoadStage::Mapping => match host::mapped_device(e, slot) {
            None => LoadNextView::Fail("CDemu: could not find device for slot "@ + slot),
            Some(device) => LoadNextView::Done(EmulatedView { slot, device, image_path: image }),
        },
    }
}

/// How many stages can still follow one.
pub open spec fn load_rank(stage: LoadStage) -> int {
    match stage {
        LoadStage::Daemon(d) => 4 + host::daemon_rank(d),
        LoadStage::Load => 3,
        LoadStage::AddDevice => 2,
        LoadStage::LoadAgain => 1,
        LoadStage::Mapping => 0,
    }
}

/// Loading an image ends after a bounded number of jobs.
pub proof fn loading_ends(stage: LoadStage, slot: Seq<char>, image: Seq<char>, e: EventView)
    ensures
        load_after(stage, slot, image, e) matches LoadNextView::Do(next, _, _) ==> 0 <= load_rank(
            next,
        ) < load_rank(stage),
{
    if let LoadStage::Daemon(d) = stage {
        host::starting_the_daemon_ends(d, e);
    }
}

/// Begins to load an image.
pub fn begin_emulation(p: Platform) -> (r: LoadNext)
    ensures
        r@ == load_start(p),
{
    if p == Platform::Linux {
        LoadNext::Do(
            LoadStage::Daemon(DaemonStage::Find),
            "".to_owned(),
            first_daemon_job(),
        )
    } else {
        LoadNext::Fail("Drive emulation via CDemu is only available on Linux.".to_owned())
    }
}

/// What follows a load that is the last try.
fn end_load(e: &Event) -> (r: LoadNext)
    ensures
        r@ == load_end(e@),
{
    if !e.ran {
        LoadNext::Fail(
            if e.missing {
                "CDemu is not installed. Install the 'cdemu' package to emulate drives.".to_owned()
            } else {
                join2("cdemu load failed: ", e.err.as_str())
            },
        )
    } else if !e.success {
        LoadNext::Fail(trimmed_text(e.err.as_str()))
    } else {
        LoadNext::Do(
            LoadStage::Mapping,
            read_slot(e.out.as_str()),
            make_job(JobKind::CdemuMapping, ""),
        )
    }
}

/// What follows a job while an image is loaded.
pub fn emulate_drive(stage: LoadStage, slot: String, image: &str, e: &Event) -> (r: LoadNext)
    ensures
        r@ == load_after(stage, slot@, image@, e@),
{
    match stage {
        LoadStage::Daemon(d) => match ensure_cdemu_daemon(d, e) {
            DaemonNext::Do(next, j) => LoadNext::Do(LoadStage::Daemon(next), slot, j),
            DaemonNext::Ready => LoadNext::Do(
                LoadStage::Load,
                slot,
                make_job(JobKind::CdemuLoad, image),
            ),
            DaemonNext::Fail(t) => LoadNext::Fail(t),
        },
        LoadStage::Load => {
            let err: Vec<char> = chars_of(e.err.as_str());
            if e.ran && !e.success && find_str(err.as_slice(), "No empty device found").is_some() {
                LoadNext::Do(
                    LoadStage::AddDevice,
                    slot,
                    make_job(JobKind::CdemuAddDevice, ""),
                )
            } else {
                end_load(e)
            }
        },
        LoadStage::AddDevice => LoadNext::Do(
            LoadStage::LoadAgain,
            slot,
            make_job(JobKind::CdemuLoad, image),
        ),
        LoadStage::LoadAgain => end_load(e),
        LoadStage::Mapping => match cdemu_device_for_slot(e, slot.as_str()) {
            None => LoadNext::Fail(
                join2("CDemu: could not find device for slot ", slot.as_str()),
            ),
            Some(device) => LoadNext::Done(
                EmulatedDrive { slot, device, image_path: image.to_owned() },
            ),
        },
    }
}

/// The job that empties a slot.
pub fn begin_emptying(p: Platform, slot: &str) -> (r: Result<Job, String>)
    ensures
        match r {
            Ok(j) => p == Platform::Linux && j@ == host::job(JobKind::CdemuUnload, slot@),
            Err(e) => p != Platform::Linux && e@
                == "Drive emulation via CDemu is only available on Linux."@,
        },
{
    if p == Platform::Linux {
        Ok(make_job(JobKind::CdemuUnload, slot))
    } else {
        Err("Drive emulation via CDemu is only available on Linux.".to_owned())
    }
}

/// The error of a slot that could not be emptied.
pub open spec fn emptying_error(e: EventView) -> Option<Seq<char>> {
    if !e.ran {
        Some("cdemu unload failed: "@ + e.err)
    } else if !e.success {
        Some(text::trimmed(e.err))
    } else {
        None
    }
}

/// Empties a slot: where the job for it succeeded, its drives are forgotten.
pub fn eject_emulated_drive(drives: &mut EmulatedDrives, slot: &str, e: &Event) -> (r: Result<
    (),
    String,
>)
    ensures
        match r {
            Ok(_) => emptying_error(e@) is None && final(drives).listed() == outside_slot(
                old(drives).listed(),
                slot@,
            ),
            Err(t) => emptying_error(e@) == Some(t@) && final(drives).listed() == old(
                drives,
            ).listed(),
        },
{
    if !e.ran {
        return Err(join2("cdemu unload failed: ", e.err.as_str()));
    }
    if !e.success {
        return Err(trimmed_text(e.err.as_str()));
    }
    drives.forget(slot);
    Ok(())
}

// ── Installing ──────────────────────────────────────────────────────────────

/// The package managers that can install CDemu, in the order in which they are
/// looked for: the program of manager `k`.
pub open spec fn manager_name(k: int) -> Option<Seq<char>> {
    if k == 0 {
        Some("pacman"@)
    } else if k == 1 {
        Some("apt-get"@)
    } else if k == 2 {
        Some("dnf"@)
    } else if k == 3 {
        Some("zypper"@)
    } else if k == 4 {
        Some("eopkg"@)
    } else {
        None
    }
}

/// The job by which manager `k` installs CDemu.
pub open spec fn install_kind(k: int) -> JobKind {
    if k == 0 {
        JobKind::InstallPacman
    } else if k == 1 {
        JobKind::InstallApt
    } else if k == 2 {
        JobKind::InstallDnf
    } else if k == 3 {
        JobKind::InstallZypper
    } else {
        JobKind::InstallEopkg
    }
}

/// What is under way while CDemu is installed.
#[derive(Clone, Copy, PartialEq, Eq, Structural)]
pub enum InstallStage {
    /// Manager `k` is looked for.
    Search(u8),
    Install,
}

/// What follows a job while CDemu is installed.
pub enum InstallNext {
    Do(InstallStage, Job),
    Done(String),
    Fail(String),
}

/// The contents of what follows a job while CDemu is installed.
pub enum InstallNextView {
    Do(InstallStage, JobView),
    Done(Seq<char>),
    Fail(Seq<char>),
}

impl View for InstallNext {
    type V = InstallNextView;

    open spec fn view(&self) -> InstallNextView {
        match self {
            InstallNext::Do(s, j) => InstallNextView::Do(*s, j@),
            InstallNext::Done(t) => InstallNextView::Done(t@),
            InstallNext::Fail(t) => InstallNextView::Fail(t@),
        }
    }
}

/// Looks for manager `k`, if there is one.
pub open spec fn search_manager(k: int) -> InstallNextView {
    match manager_name(k) {
        Some(name) => InstallNextView::Do(
            InstallStage::Search(k as u8),
            host::job(JobKind::FindProgram, name),
        ),
        None => InstallNextView::Fail(
            "Could not detect a supported package manager. Install cdemu-client manually."@,
        ),
    }
}

/// How installing CDemu begins.
pub open spec fn install_start(p: Platform) -> InstallNextView {
    if p == Platform::Linux {
        search_manager(0)
    } else {
        InstallNextView::Fail("Not supported on this platform."@)
    }
}

/// What follows a job while CDemu is installed.
pub open spec fn install_after(stage: InstallStage, e: EventView) -> InstallNextView {
    match stage {
        InstallStage::Search(k) => if e.ran && e.success {
            InstallNextView::Do(InstallStage::Install, host::job(install_kind(k as int), ""@))
        } else {
            search_manager(k + 1)
        },
        InstallStage::Install => if !e.ran {
            InstallNextView::Fail(
                if e.missing {
                    "pkexec not found. Install cdemu-client manually using your package manager."@
                } else {
                    "Installation failed: "@ + e.err
                },
            )
        } else if e.success {
            InstallNextView::Done("cdemu-client installed successfully."@)
        } else if text::trimmed(e.err).len() == 0 {
            InstallNextView::Fail("Installation cancelled or failed."@)
        } else {
            InstallNextView::Fail(text::trimmed(e.err))
        },
    }
}

/// Looks for manager `k`, if there is one.
fn look_for(k: u8) -> (r: InstallNext)
    ensures
        r@ == search_manager(k as int),
{
    let name: &str = if k == 0 {
        "pacman"
    } else if k == 1 {
        "apt-get"
    } else if k == 2 {
        "dnf"
    } else if k == 3 {
        "zypper"
    } else if k == 4 {
        "eopkg"
    } else {
        return InstallNext::Fail(
            "Could not detect a supported package manager. Install cdemu-client manually.".to_owned(),
        );
    };
    InstallNext::Do(InstallStage::Search(k), make_job(JobKind::FindProgram, name))
}

/// Begins to install CDemu.
pub fn begin_install(p: Platform) -> (r: InstallNext)
    ensures
        r@ == install_start(p),
{
    if p == Platform::Linux {
        look_for(0)
    } else {
        InstallNext::Fail("Not supported on this platform.".to_owned())
    }
}

/// What follows a job while CDemu is installed.
pub fn install_cdemu(stage: InstallStage, e: &Event) -> (r: InstallNext)
    requires
        stage matches InstallStage::Search(k) ==> manager_name(k as int) is Some,
    ensures
        r@ == install_after(stage, e@),
{
    match stage {
        InstallStage::Search(k) => if e.ran && e.success {
            let kind: JobKind = if k == 0 {
                JobKind::InstallPacman
            } else if k == 1 {
                JobKind::InstallApt
            } else if k == 2 {
                JobKind::InstallDnf
            } else if k == 3 {
                JobKind::InstallZypper
            } else {
                JobKind::InstallEopkg
            };
            InstallNext::Do(InstallStage::Install, make_job(kind, ""))
        } else {
            look_for(k + 1)
        },
        InstallStage::Install => if !e.ran {
            InstallNext::Fail(
                if e.missing {
                    "pkexec not found. Install cdemu-client manually using your package manager.".to_owned()
                } else {
                    join2("Installation failed: ", e.err.as_str())
                },
            )
        } else if e.success {
            InstallNext::Done("cdemu-client installed successfully.".to_owned())
        } else {
            let t: String = trimmed_text(e.err.as_str());
            if chars_of(t.as_str()).len() == 0 {
                InstallNext::Fail("Installation cancelled or failed.".to_owned())
            } else {
                InstallNext::Fail(t)
            }
        },
    }
}

} // verus!
