//! What is asked of the host: programs that it runs, things that it looks up, and
//! what comes back.
use vstd::prelude::*;
use crate::text;
use crate::text::{from_utf8_lossy, join2, join3, string_of};

verus! {

/// The systems that the host may run.
#[derive(Clone, Copy, PartialEq, Eq, Structural)]
pub enum Platform {
    Linux,
    Mac,
    Windows,
}

/// The name of a system.
pub open spec fn platform_name(p: Platform) -> Seq<char> {
    match p {
        Platform::Linux => "linux"@,
        Platform::Mac => "macos"@,
        Platform::Windows => "windows"@,
    }
}

/// The name of a system.
pub fn get_platform(p: Platform) -> (r: String)
    ensures
        r@ == platform_name(p),
{
    match p {
        Platform::Linux => "linux".to_owned(),
        Platform::Mac => "macos".to_owned(),
        Platform::Windows => "windows".to_owned(),
    }
}

/// The kinds of jobs for the host.
#[derive(Clone, Copy, PartialEq, Eq, Structural)]
pub enum JobKind {
    /// Whether the path exists.
    PathExists,
    /// Whether the path can be opened for reading.
    PathOpens,
    /// The name of the user, if it is known.
    UserName,
    /// Waits for a second.
    Pause,
    GrantAccess,
    JoinGroup,
    DaemonState,
    DaemonReset,
    DaemonStart,
    FindProgram,
    CdemuLoad,
    CdemuAddDevice,
    CdemuMapping,
    CdemuUnload,
    MountDevice,
    MountPoint,
    LoopSetup,
    LoopDelete,
    Unmount,
    Eject,
    EjectUdisks,
    Attach,
    Detach,
    DetachForce,
    EjectDiskutil,
    MountImage,
    DismountImage,
    EjectShell,
    InstallPacman,
    InstallApt,
    InstallDnf,
    InstallZypper,
    InstallEopkg,
}

/// A job for the host: its kind, and what it is about.
pub struct Job {
    pub kind: JobKind,
    pub arg: String,
}

/// The contents of a job.
pub struct JobView {
    pub kind: JobKind,
    pub arg: Seq<char>,
}

impl View for Job {
    type V = JobView;

    open spec fn view(&self) -> JobView {
        JobView { kind: self.kind, arg: self.arg@ }
    }
}

/// A job.
pub open spec fn job(kind: JobKind, arg: Seq<char>) -> JobView {
    JobView { kind, arg }
}

/// A job.
pub fn make_job(kind: JobKind, arg: &str) -> (r: Job)
    ensures
        r@ == job(kind, arg@),
{
    Job { kind, arg: arg.to_owned() }
}

/// What came of a job. Where a program could not be run, `err` is the reason, and
/// `missing` says whether there is no such program. Of something looked up,
/// `success` says whether it is so, and `out` is what was found.
pub struct Event {
    pub ran: bool,
    pub success: bool,
    pub missing: bool,
    pub out: String,
    pub err: String,
}

/// The contents of what came of a job.
pub struct EventView {
    pub ran: bool,
    pub success: bool,
    pub missing: bool,
    pub out: Seq<char>,
    pub err: Seq<char>,
}

impl View for Event {
    type V = EventView;

    open spec fn view(&self) -> EventView {
        EventView {
            ran: self.ran,
            success: self.success,
            missing: self.missing,
            out: self.out@,
            err: self.err@,
        }
    }
}

/// What came of a program that ran, by what it wrote.
pub fn program_ran(success: bool, stdout: &[u8], stderr: &[u8]) -> (r: Event)
    ensures
        r@ == (EventView {
            ran: true,
            success,
            missing: false,
            out: text::utf8_text(stdout@),
            err: text::utf8_text(stderr@),
        }),
{
    Event {
        ran: true,
        success,
        missing: false,
        out: from_utf8_lossy(stdout),
        err: from_utf8_lossy(stderr),
    }
}

/// What came of a program that could not be run.
pub fn program_failed(missing: bool, reason: &str) -> (r: Event)
    ensures
        r@ == (EventView { ran: false, success: false, missing, out: ""@, err: reason@ }),
{
    Event {
        ran: false,
        success: false,
        missing,
        out: "".to_owned(),
        err: reason.to_owned(),
    }
}

/// What came of a look-up.
pub fn looked_up(success: bool, found: &str) -> (r: Event)
    ensures
        r@ == (EventView { ran: true, success, missing: false, out: found@, err: ""@ }),
{
    Event {
        ran: true,
        success,
        missing: false,
        out: found.to_owned(),
        err: "".to_owned(),
    }
}

/// A text without the blanks at its ends.
pub fn trimmed_text(t: &str) -> (r: String)
    ensures
        r@ == text::trimmed(t@),
{
    let c: Vec<char> = text::chars_of(t);
    let v: Vec<char> = text::trim(c.as_slice());
    string_of(v.as_slice())
}

/// A program and what it is called with.
pub struct HostCommand {
    pub program: String,
    pub args: Vec<String>,
}

/// The contents of a command.
#[verifier::ext_equal]
pub struct CommandView {
    pub program: Seq<char>,
    pub args: Seq<Seq<char>>,
}

impl View for HostCommand {
    type V = CommandView;

    open spec fn view(&self) -> CommandView {
        CommandView { program: self.program@, args: text::views(self.args@) }
    }
}

/// A command.
pub open spec fn command(program: Seq<char>, args: Seq<Seq<char>>) -> CommandView {
    CommandView { program, args }
}

/// A text with each single quote doubled.
pub open spec fn quoted(s: Seq<char>) -> Seq<char>
    decreases s.len(),
{
    if s.len() == 0 {
        seq![]
    } else if s[0] == '\'' {
        seq!['\'', '\''] + quoted(s.skip(1))
    } else {
        seq![s[0]] + quoted(s.skip(1))
    }
}

/// The script that mounts an image.
pub open spec fn mount_script(image: Seq<char>) -> Seq<char> {
    "$d = Mount-DiskImage -ImagePath '"@ + quoted(image)
        + "' -PassThru; ($d | Get-Volume).DriveLetter"@
}

/// The script that takes an image off.
pub open spec fn dismount_script(image: Seq<char>) -> Seq<char> {
    "Dismount-DiskImage -ImagePath '"@ + quoted(image) + "'"@
}

/// A path without the slashes at its end, of either kind.
pub open spec fn without_slashes(s: Seq<char>) -> Seq<char>
    decreases s.len(),
{
    if s.len() > 0 && (s.last() == '\\' || s.last() == '/') {
        without_slashes(s.drop_last())
    } else {
        s
    }
}

/// The script that ejects a drive.
pub open spec fn eject_script(path: Seq<char>) -> Seq<char> {
    "(New-Object -ComObject Shell.Application).NameSpace(17).ParseName('"@ + without_slashes(path)
        + "').InvokeVerb('Eject')"@
}

/// The command of a job; none for one that the host looks up itself.
pub open spec fn command_text(j: JobView) -> Option<CommandView> {
    match j.kind {
        JobKind::PathExists | JobKind::PathOpens | JobKind::UserName | JobKind::Pause => None,
        JobKind::GrantAccess => Some(command("pkexec"@, seq!["chmod"@, "a+rw"@, j.arg])),
        JobKind::JoinGroup => Some(
            command("pkexec"@, seq!["usermod"@, "-aG"@, "cdemu"@, j.arg]),
        ),
        JobKind::DaemonState => Some(
            command("systemctl"@, seq!["--user"@, "is-active"@, "cdemu-daemon"@]),
        ),
        JobKind::DaemonReset => Some(
            command("systemctl"@, seq!["--user"@, "reset-failed"@, "cdemu-daemon"@]),
        ),
        JobKind::DaemonStart => Some(
            command("systemctl"@, seq!["--user"@, "start"@, "cdemu-daemon"@]),
        ),
        JobKind::FindProgram => Some(command("which"@, seq![j.arg])),
        JobKind::CdemuLoad => Some(command("cdemu"@, seq!["load"@, "any"@, j.arg])),
        JobKind::CdemuAddDevice => Some(command("cdemu"@, seq!["add-device"@])),
        JobKind::CdemuMapping => Some(command("cdemu"@, seq!["device-mapping"@])),
        JobKind::CdemuUnload => Some(command("cdemu"@, seq!["unload"@, j.arg])),
        JobKind::MountDevice => Some(command("udisksctl"@, seq!["mount"@, "-b"@, j.arg])),
        JobKind::MountPoint => Some(command("lsblk"@, seq!["-no"@, "MOUNTPOINT"@, j.arg])),
        JobKind::LoopSetup => Some(command("udisksctl"@, seq!["loop-setup"@, "-f"@, j.arg])),
        JobKind::LoopDelete => Some(command("udisksctl"@, seq!["loop-delete"@, "-b"@, j.arg])),
        JobKind::Unmount => Some(command("udisksctl"@, seq!["unmount"@, "-b"@, j.arg])),
        JobKind::Eject => Some(command("eject"@, seq![j.arg])),
        JobKind::EjectUdisks => Some(command("udisksctl"@, seq!["eject"@, "-b"@, j.arg])),
        JobKind::Attach => Some(command("hdiutil"@, seq!["attach"@, j.arg])),
        JobKind::Detach => Some(command("hdiutil"@, seq!["detach"@, j.arg, "-quiet"@])),
        JobKind::DetachForce => Some(
            command("hdiutil"@, seq!["detach"@, j.arg, "-quiet"@, "-force"@]),
        ),
        JobKind::EjectDiskutil => Some(command("diskutil"@, seq!["eject"@, j.arg])),
        JobKind::MountImage => Some(
            command("powershell"@, seq!["-NoProfile"@, "-Command"@, mount_script(j.arg)]),
        ),
        JobKind::DismountImage => Some(
            command("powershell"@, seq!["-NoProfile"@, "-Command"@, dismount_script(j.arg)]),
        ),
        JobKind::EjectShell => Some(
            command(
                "powershell"@,
                seq!["-NoProfile"@, "-NonInteractive"@, "-Command"@, eject_script(j.arg)],
            ),
        ),
        JobKind::InstallPacman => Some(
            command("pkexec"@, seq!["pacman"@, "-S"@, "--noconfirm"@, "cdemu-client"@]),
        ),
        JobKind::InstallApt => Some(
            command("pkexec"@, seq!["apt-get"@, "install"@, "-y"@, "cdemu-client"@]),
        ),
        JobKind::InstallDnf => Some(
            command("pkexec"@, seq!["dnf"@, "install"@, "-y"@, "cdemu-client"@]),
        ),
        JobKind::InstallZypper => Some(
            command("pkexec"@, seq!["zypper"@, "install"@, "-y"@, "cdemu-client"@]),
        ),
        JobKind::InstallEopkg => Some(
            command("pkexec"@, seq!["eopkg"@, "install"@, "cdemu-client"@]),
        ),
    }
}

/// A command with one argument.
fn command1(program: &str, a: &str) -> (r: HostCommand)
    ensures
        r@ == command(program@, seq![a@]),
{
    let mut args: Vec<String> = Vec::new();
    args.push(a.to_owned());
    assert(text::views(args@) =~= seq![a@]);
    HostCommand { program: program.to_owned(), args }
}

/// A command with two arguments.
fn command2(program: &str, a: &str, b: &str) -> (r: HostCommand)
    ensures
        r@ == command(program@, seq![a@, b@]),
{
    let mut args: Vec<String> = Vec::new();
    args.push(a.to_owned());
    args.push(b.to_owned());
    assert(text::views(args@) =~= seq![a@, b@]);
    HostCommand { program: program.to_owned(), args }
}

/// A command with three arguments.
fn command3(program: &str, a: &str, b: &str, c: &str) -> (r: HostCommand)
    ensures
        r@ == command(program@, seq![a@, b@, c@]),
{
    let mut args: Vec<String> = Vec::new();
    args.push(a.to_owned());
    args.push(b.to_owned());
    args.push(c.to_owned());
    assert(text::views(args@) =~= seq![a@, b@, c@]);
    HostCommand { program: program.to_owned(), args }
}

/// A command with four arguments.
fn command4(program: &str, a: &str, b: &str, c: &str, d: &str) -> (r: HostCommand)
    ensures
        r@ == command(program@, seq![a@, b@, c@, d@]),
{
    let mut args: Vec<String> = Vec::new();
    args.push(a.to_owned());
    args.push(b.to_owned());
    args.push(c.to_owned());
    args.push(d.to_owned());
    assert(text::views(args@) =~= seq![a@, b@, c@, d@]);
    HostCommand { program: program.to_owned(), args }
}

/// A text with each single quote doubled.
fn double_quotes(s: &str) -> (r: String)
    ensures
        r@ == quoted(s@),
{
    let c: Vec<char> = text::chars_of(s);
    let n: usize = c.len();
    let mut out: Vec<char> = Vec::new();
    let mut i: usize = 0;
    assert(c@.skip(0) =~= c@);
    assert(out@ + quoted(c@) =~= quoted(c@));
    while i < n
        invariant
            i <= n,
            n == c@.len(),
            out@ + quoted(c@.skip(i as int)) == quoted(c@),
        decreases n - i,
    {
        let ghost before = out@;
        let ghost rest = c@.skip(i as int);
        assert(rest.skip(1) =~= c@.skip(i + 1));
        if c[i] == '\'' {
            out.push('\'');
            out.push('\'');
            assert(out@ + quoted(c@.skip(i + 1)) =~= before + (seq!['\'', '\''] + quoted(
                c@.skip(i + 1),
            )));
        } else {
            out.push(c[i]);
            assert(out@ + quoted(c@.skip(i + 1)) =~= before + (seq![rest[0]] + quoted(
                c@.skip(i + 1),
            )));
        }
        i += 1;
    }
    assert(out@ + quoted(c@.skip(n as int)) =~= out@);
    string_of(out.as_slice())
}

/// A path without the slashes at its end, of either kind.
fn cut_slashes(s: &str) -> (r: String)
    ensures
        r@ == without_slashes(s@),
{
    let c: Vec<char> = text::chars_of(s);
    let mut n: usize = c.len();
    assert(c@.take(n as int) =~= c@);
    while n > 0 && (c[n - 1] == '\\' || c[n - 1] == '/')
        invariant
            n <= c@.len(),
            without_slashes(c@.take(n as int)) == without_slashes(c@),
        decreases n,
    {
        assert(c@.take(n as int).drop_last() =~= c@.take(n - 1));
        n -= 1;
    }
    let v: Vec<char> = text::cut_chars(c.as_slice(), 0, n);
    assert(c@.subrange(0, n as int) =~= c@.take(n as int));
    string_of(v.as_slice())
}

/// The command of a job; none for one that the host looks up itself.
pub fn command_of(j: &Job) -> (r: Option<HostCommand>)
    ensures
        match r {
            Some(c) => command_text(j@) == Some(c@),
            None => command_text(j@) is None,
        },
{
    let arg: &str = j.arg.as_str();
    match j.kind {
        JobKind::PathExists => None,
        JobKind::PathOpens => None,
        JobKind::UserName => None,
        JobKind::Pause => None,
        JobKind::GrantAccess => Some(command3("pkexec", "chmod", "a+rw", arg)),
        JobKind::JoinGroup => Some(command4("pkexec", "usermod", "-aG", "cdemu", arg)),
        JobKind::DaemonState => Some(
            command3("systemctl", "--user", "is-active", "cdemu-daemon"),
        ),
        JobKind::DaemonReset => Some(
            command3("systemctl", "--user", "reset-failed", "cdemu-daemon"),
        ),
        JobKind::DaemonStart => Some(command3("systemctl", "--user", "start", "cdemu-daemon")),
        JobKind::FindProgram => Some(command1("which", arg)),
        JobKind::CdemuLoad => Some(command3("cdemu", "load", "any", arg)),
        JobKind::CdemuAddDevice => Some(command1("cdemu", "add-device")),
        JobKind::CdemuMapping => Some(command1("cdemu", "device-mapping")),
        JobKind::CdemuUnload => Some(command2("cdemu", "unload", arg)),
        JobKind::MountDevice => Some(command3("udisksctl", "mount", "-b", arg)),
        JobKind::MountPoint => Some(command3("lsblk", "-no", "MOUNTPOINT", arg)),
        JobKind::LoopSetup => Some(command3("udisksctl", "loop-setup", "-f", arg)),
        JobKind::LoopDelete => Some(command3("udisksctl", "loop-delete", "-b", arg)),
        JobKind::Unmount => Some(command3("udisksctl", "unmount", "-b", arg)),
        JobKind::Eject => Some(command1("eject", arg)),
        JobKind::EjectUdisks => Some(command3("udisksctl", "eject", "-b", arg)),
        JobKind::Attach => Some(command2("hdiutil", "attach", arg)),
        JobKind::Detach => Some(command3("hdiutil", "detach", arg, "-quiet")),
        JobKind::DetachForce => Some(command4("hdiutil", "detach", arg, "-quiet", "-force")),
        JobKind::EjectDiskutil => Some(command2("diskutil", "eject", arg)),
        JobKind::MountImage => {
            let q: String = double_quotes(arg);
            let script: String = join3(
                "$d = Mount-DiskImage -ImagePath '",
                q.as_str(),
                "' -PassThru; ($d | Get-Volume).DriveLetter",
            );
            Some(command3("powershell", "-NoProfile", "-Command", script.as_str()))
        },
        JobKind::DismountImage => {
            let q: String = double_quotes(arg);
            let script: String = join3("Dismount-DiskImage -ImagePath '", q.as_str(), "'");
            Some(command3("powershell", "-NoProfile", "-Command", script.as_str()))
        },
        JobKind::EjectShell => {
            let drive: String = cut_slashes(arg);
            let script: String = join3(
                "(New-Object -ComObject Shell.Application).NameSpace(17).ParseName('",
                drive.as_str(),
                "').InvokeVerb('Eject')",
            );
            Some(
                command4(
                    "powershell",
                    "-NoProfile",
                    "-NonInteractive",
                    "-Command",
                    script.as_str(),
                ),
            )
        },
        JobKind::InstallPacman => Some(
            command4("pkexec", "pacman", "-S", "--noconfirm", "cdemu-client"),
        ),
        JobKind::InstallApt => Some(
            command4("pkexec", "apt-get", "install", "-y", "cdemu-client"),
        ),
        JobKind::InstallDnf => Some(command4("pkexec", "dnf", "install", "-y", "cdemu-client")),
        JobKind::InstallZypper => Some(
            command4("pkexec", "zypper", "install", "-y", "cdemu-client"),
        ),
        JobKind::InstallEopkg => Some(command3("pkexec", "eopkg", "install", "cdemu-client")),
    }
}

// ── The CDemu daemon ────────────────────────────────────────────────────────

/// What is under way before CDemu can be used.
#[derive(Clone, Copy, PartialEq, Eq, Structural)]
pub enum DaemonStage {
    Find,
    Open,
    Grant,
    User,
    Join,
    Ask,
    Reset,
    Start,
    Pause,
}

/// What follows a job for the daemon.
pub enum DaemonNext {
    Do(DaemonStage, Job),
    Ready,
    Fail(String),
}

/// The contents of what follows a job for the daemon.
pub enum DaemonNextView {
    Do(DaemonStage, JobView),
    Ready,
    Fail(Seq<char>),
}

impl View for DaemonNext {
    type V = DaemonNextView;

    open spec fn view(&self) -> DaemonNextView {
        match self {
            DaemonNext::Do(s, j) => DaemonNextView::Do(*s, j@),
            DaemonNext::Ready => DaemonNextView::Ready,
            DaemonNext::Fail(e) => DaemonNextView::Fail(e@),
        }
    }
}

/// The first job for the daemon: the kernel's device has to be there.
pub open spec fn daemon_job() -> JobView {
    job(JobKind::PathExists, "/dev/vhba_ctl"@)
}

/// Asks for the state of the daemon.
pub open spec fn ask_daemon() -> DaemonNextView {
    DaemonNextView::Do(DaemonStage::Ask, job(JobKind::DaemonState, ""@))
}

/// Starts the daemon.
pub open spec fn start_daemon() -> DaemonNextView {
    DaemonNextView::Do(DaemonStage::Start, job(JobKind::DaemonStart, ""@))
}

/// What follows a job for the daemon.
pub open spec fn daemon_after(stage: DaemonStage, e: EventView) -> DaemonNextView {
    match stage {
        DaemonStage::Find => if e.success {
            DaemonNextView::Do(DaemonStage::Open, job(JobKind::PathOpens, "/dev/vhba_ctl"@))
        } else {
            DaemonNextView::Fail(
                "The vhba kernel module is not loaded. Install the vhba-module package."@,
            )
        },
        DaemonStage::Open => if e.success {
            ask_daemon()
        } else {
            DaemonNextView::Do(DaemonStage::Grant, job(JobKind::GrantAccess, "/dev/vhba_ctl"@))
        },
        DaemonStage::Grant => if !e.ran {
            DaemonNextView::Fail("pkexec not found: "@ + e.err)
        } else if !e.success {
            DaemonNextView::Fail(
                "Administrator access is required to configure CDEmu device permissions."@,
            )
        } else {
            DaemonNextView::Do(DaemonStage::User, job(JobKind::UserName, ""@))
        },
        DaemonStage::User => if e.success {
            DaemonNextView::Do(DaemonStage::Join, job(JobKind::JoinGroup, e.out))
        } else {
            ask_daemon()
        },
        DaemonStage::Join => ask_daemon(),
        DaemonStage::Ask => {
            let state = text::trimmed(e.out);
            if e.ran && state == "active"@ {
                DaemonNextView::Ready
            } else if e.ran && state == "failed"@ {
                DaemonNextView::Do(DaemonStage::Reset, job(JobKind::DaemonReset, ""@))
            } else {
                start_daemon()
            }
        },
        DaemonStage::Reset => start_daemon(),
        DaemonStage::Start => if e.ran && e.success {
            DaemonNextView::Do(DaemonStage::Pause, job(JobKind::Pause, ""@))
        } else {
            DaemonNextView::Fail(
                "CDEmu daemon could not be started. Please check that cdemu-daemon is installed."@,
            )
        },
        DaemonStage::Pause => DaemonNextView::Ready,
    }
}

/// How many stages can still follow one.
pub open spec fn daemon_rank(stage: DaemonStage) -> int {
    match stage {
        DaemonStage::Find => 8,
        DaemonStage::Open => 7,
        DaemonStage::Grant => 6,
        DaemonStage::User => 5,
        DaemonStage::Join => 4,
        DaemonStage::Ask => 3,
        DaemonStage::Reset => 2,
        DaemonStage::Start => 1,
        DaemonStage::Pause => 0,
    }
}

/// The daemon is ready, or fails, after a bounded number of jobs.
pub proof fn starting_the_daemon_ends(stage: DaemonStage, e: EventView)
    ensures
        daemon_after(stage, e) matches DaemonNextView::Do(s, _) ==> 0 <= daemon_rank(s)
            < daemon_rank(stage),
{
}

/// The first job for the daemon.
pub fn first_daemon_job() -> (r: Job)
    ensures
        r@ == daemon_job(),
{
    make_job(JobKind::PathExists, "/dev/vhba_ctl")
}

/// What follows a job for the daemon.
pub fn ensure_cdemu_daemon(stage: DaemonStage, e: &Event) -> (r: DaemonNext)
    ensures
        r@ == daemon_after(stage, e@),
{
    match stage {
        DaemonStage::Find => if e.success {
            DaemonNext::Do(DaemonStage::Open, make_job(JobKind::PathOpens, "/dev/vhba_ctl"))
        } else {
            DaemonNext::Fail(
                "The vhba kernel module is not loaded. Install the vhba-module package.".to_owned(),
            )
        },
        DaemonStage::Open => if e.success {
            DaemonNext::Do(DaemonStage::Ask, make_job(JobKind::DaemonState, ""))
        } else {
            DaemonNext::Do(DaemonStage::Grant, make_job(JobKind::GrantAccess, "/dev/vhba_ctl"))
        },
        DaemonStage::Grant => if !e.ran {
            DaemonNext::Fail(join2("pkexec not found: ", e.err.as_str()))
        } else if !e.success {
            DaemonNext::Fail(
                "Administrator access is required to configure CDEmu device permissions.".to_owned(),
            )
        } else {
            DaemonNext::Do(DaemonStage::User, make_job(JobKind::UserName, ""))
        },
        DaemonStage::User => if e.success {
            DaemonNext::Do(DaemonStage::Join, make_job(JobKind::JoinGroup, e.out.as_str()))
        } else {
            DaemonNext::Do(DaemonStage::Ask, make_job(JobKind::DaemonState, ""))
        },
        DaemonStage::Join => DaemonNext::Do(
            DaemonStage::Ask,
            make_job(JobKind::DaemonState, ""),
        ),
        DaemonStage::Ask => {
            let state: String = trimmed_text(e.out.as_str());
            if e.ran && text::same_text(state.as_str(), "active") {
                DaemonNext::Ready
            } else if e.ran && text::same_text(state.as_str(), "failed") {
                DaemonNext::Do(DaemonStage::Reset, make_job(JobKind::DaemonReset, ""))
            } else {
                DaemonNext::Do(DaemonStage::Start, make_job(JobKind::DaemonStart, ""))
            }
        },
        DaemonStage::Reset => DaemonNext::Do(
            DaemonStage::Start,
            make_job(JobKind::DaemonStart, ""),
        ),
        DaemonStage::Start => if e.ran && e.success {
            DaemonNext::Do(DaemonStage::Pause, make_job(JobKind::Pause, ""))
        } else {
            DaemonNext::Fail(
                "CDEmu daemon could not be started. Please check that cdemu-daemon is installed.".to_owned(),
            )
        },
        DaemonStage::Pause => DaemonNext::Ready,
    }
}

// ── CDemu slots ─────────────────────────────────────────────────────────────

/// Whether a text is made of decimal digits.
pub open spec fn is_digits(s: Seq<char>) -> bool {
    forall|i: int| 0 <= i < s.len() ==> 48 <= (#[trigger] s[i]) as u32 <= 57
}

/// The slot that a load names at the end of what it wrote; `0` where it names none.
pub open spec fn slot_of(out: Seq<char>) -> Seq<char> {
    let words = text::words_of(out);
    if words.len() == 0 {
        "0"@
    } else {
        let w = text::strip_back(words.last(), '.');
        if is_digits(w) {
            w
        } else {
            "0"@
        }
    }
}

/// The device of a slot in the rows of a mapping from `k` on; the search ends at a
/// row without words.
pub open spec fn mapped_from(rows: Seq<Seq<char>>, slot: Seq<char>, k: int) -> Option<Seq<char>>
    decreases rows.len() - k,
{
    if k < 0 || k >= rows.len() {
        None
    } else {
        let words = text::words_of(rows[k]);
        if words.len() == 0 {
            None
        } else if words[0] == slot {
            if words.len() > 1 {
                Some(words[1])
            } else {
                None
            }
        } else {
            mapped_from(rows, slot, k + 1)
        }
    }
}

/// The device of a slot, by what the mapping wrote.
pub open spec fn mapped_device(e: EventView, slot: Seq<char>) -> Option<Seq<char>> {
    if e.ran {
        mapped_from(text::lines_of(e.out), slot, 0)
    } else {
        None
    }
}

/// The slot that a load names at the end of what it wrote.
pub fn read_slot(out: &str) -> (r: String)
    ensures
        r@ == slot_of(out@),
{
    let c: Vec<char> = text::chars_of(out);
    let words: Vec<Vec<char>> = text::words(c.as_slice());
    let n: usize = words.len();
    if n == 0 {
        return "0".to_owned();
    }
    let w: Vec<char> = text::trim_end_of(words[n - 1].as_slice(), '.');
    assert(text::texts(words@).last() == words@[n - 1]@);
    let mut i: usize = 0;
    while i < w.len()
        invariant
            i <= w@.len(),
            n > 0,
            words@.len() == n,
            text::texts(words@) == text::words_of(out@),
            w@ == text::strip_back(text::words_of(out@).last(), '.'),
            forall|j: int| 0 <= j < i ==> 48 <= (#[trigger] w@[j]) as u32 <= 57,
        decreases w@.len() - i,
    {
        let v: u32 = w[i] as u32;
        if v < 48 || v > 57 {
            return "0".to_owned();
        }
        i += 1;
    }
    string_of(w.as_slice())
}

/// The device of a slot, by what the mapping wrote.
#[verifier::loop_isolation(false)]
pub fn cdemu_device_for_slot(e: &Event, slot: &str) -> (r: Option<String>)
    ensures
        match r {
            Some(d) => mapped_device(e@, slot@) == Some(d@),
            None => mapped_device(e@, slot@) is None,
        },
{
    if !e.ran {
        return None;
    }
    let c: Vec<char> = text::chars_of(e.out.as_str());
    let rows: Vec<Vec<char>> = text::lines(c.as_slice());
    let ghost all = text::lines_of(e.out@);
    let mut k: usize = 0;
    while k < rows.len()
        invariant
            k <= rows@.len(),
            mapped_from(all, slot@, k as int) == mapped_from(all, slot@, 0),
        decreases rows@.len() - k,
    {
        assert(text::texts(rows@)[k as int] == rows@[k as int]@);
        let words: Vec<Vec<char>> = text::words(rows[k].as_slice());
        if words.len() == 0 {
            return None;
        }
        assert(text::texts(words@)[0] == words@[0]@);
        if text::is_text(words[0].as_slice(), slot) {
            if words.len() > 1 {
                assert(text::texts(words@)[1] == words@[1]@);
                return Some(string_of(words[1].as_slice()));
            }
            return None;
        }
        k += 1;
    }
    None
}

/// Each quotation mark in a text is doubled, and everything else stays.
pub proof fn quoting_doubles_the_marks(a: Seq<char>, b: Seq<char>)
    ensures
        quoted(a + b) == quoted(a) + quoted(b),
        quoted(seq!['\'']) == seq!['\'', '\''],
        !a.contains('\'') ==> quoted(a) == a,
    decreases a.len(),
{
    let none = Seq::<char>::empty();
    assert(quoted(none) =~= none);
    assert(seq!['\''].skip(1) =~= none);
    assert(quoted(seq!['\'']) =~= seq!['\'', '\'']);
    if a.len() == 0 {
        assert(a + b =~= b);
        assert(quoted(a) + quoted(b) =~= quoted(b));
        assert(quoted(a) =~= a);
    } else {
        let t = a.skip(1);
        quoting_doubles_the_marks(t, b);
        assert((a + b).skip(1) =~= t + b);
        assert((a + b)[0] == a[0]);
        assert(quoted(a + b) =~= quoted(a) + quoted(b));
        if !a.contains('\'') {
            assert(a.contains(a[0]));
            assert(!t.contains('\'')) by {
                if t.contains('\'') {
                    let i = choose|i: int| 0 <= i < t.len() && t[i] == '\'';
                    assert(a[i + 1] == '\'');
                }
            }
            assert(seq![a[0]] + t =~= a);
        }
    }
}

} // verus!
