use disc_xplorer::drives::{
    begin_eject, check_disc_in_drive, choose_node, device_path, drive_of_cim, drive_of_mac,
    eject_disc, list_optical_drives, needs_search, optical_media_name, scan_optical_nodes,
    BlockDevice, CimDrive, EjectNext, MacDrive,
};
use disc_xplorer::dump_tools::{
    get_redumper_version, is_dump_log, organize_dump_logs, redumper_cmd, start_redumper_dump,
    RedumperSource,
};
use disc_xplorer::emulation::{
    begin_emptying, begin_emulation, begin_install, eject_emulated_drive, emulate_drive,
    install_cdemu, EmulatedDrive, EmulatedDrives, InstallNext, LoadNext,
};
use disc_xplorer::host::{
    command_of, get_platform, looked_up, make_job, program_failed, program_ran, read_slot, Event,
    Job, JobKind, Platform,
};
use disc_xplorer::mounting::{
    begin_mount, begin_unmount, detach_all, mount_disc_image, unmount_disc_image, MountNext,
    MountResult, MountedImages, UnmountNext,
};

fn ran(out: &str) -> Event {
    program_ran(true, out.as_bytes(), b"")
}

fn refused(err: &str) -> Event {
    program_ran(false, b"", err.as_bytes())
}

fn yes() -> Event {
    looked_up(true, "")
}

fn no() -> Event {
    looked_up(false, "")
}

fn line(j: &Job) -> String {
    match command_of(j) {
        Some(c) => format!("{} {}", c.program, c.args.join(" ")),
        None => format!("({})", j.arg),
    }
}

/// Mounts an image: hands out the events one by one and notes the jobs.
fn mount(p: Platform, image: &str, events: Vec<Event>) -> (Vec<String>, Result<MountResult, String>) {
    let mut jobs = Vec::new();
    let mut next = begin_mount(p, image);
    let mut events = events.into_iter();
    loop {
        match next {
            MountNext::Do(state, job) => {
                jobs.push(line(&job));
                let e = events.next().expect("no event left");
                next = mount_disc_image(state, &e);
            }
            MountNext::Done(m) => return (jobs, Ok(m)),
            MountNext::Fail(e) => return (jobs, Err(e)),
        }
    }
}

fn failure(p: Platform, image: &str, events: Vec<Event>) -> String {
    mount(p, image, events).1.err().expect("mounted")
}

#[test]
fn platforms_have_names() {
    assert_eq!(get_platform(Platform::Linux), "linux");
    assert_eq!(get_platform(Platform::Mac), "macos");
    assert_eq!(get_platform(Platform::Windows), "windows");
}

#[test]
fn an_iso_is_mounted_through_a_loop_device() {
    let (jobs, r) = mount(
        Platform::Linux,
        "/a/b.iso",
        vec![ran("Mapped file /a/b.iso as /dev/loop0.\n"), ran("Mounted /dev/loop0 at /media/me/B.\n")],
    );
    assert_eq!(jobs, ["udisksctl loop-setup -f /a/b.iso", "udisksctl mount -b /dev/loop0"]);
    let m = r.ok().unwrap();
    assert_eq!(m.mount_point, "/media/me/B");
    assert_eq!(m.device, "/dev/loop0");
}

#[test]
fn a_cue_sheet_is_mounted_through_cdemu() {
    let (jobs, r) = mount(
        Platform::Linux,
        "/a/B.CUE",
        vec![
            yes(),
            yes(),
            ran("active\n"),
            ran("loaded image to device 3.\n"),
            ran("0 /dev/sr0 /dev/sg0\n3 /dev/sr2 /dev/sg2\n"),
            ran("Mounted /dev/sr2 at /run/media/x at y.\n"),
        ],
    );
    assert_eq!(
        jobs,
        [
            "(/dev/vhba_ctl)",
            "(/dev/vhba_ctl)",
            "systemctl --user is-active cdemu-daemon",
            "cdemu load any /a/B.CUE",
            "cdemu device-mapping",
            "udisksctl mount -b /dev/sr2",
        ]
    );
    let m = r.ok().unwrap();
    assert_eq!(m.mount_point, "/run/media/x");
    assert_eq!(m.device, "cdemu:3:/dev/sr2");
}

#[test]
fn the_daemon_is_set_up_before_it_is_used() {
    let (jobs, r) = mount(
        Platform::Linux,
        "x.mds",
        vec![
            yes(),
            no(),
            ran(""),
            looked_up(true, "me"),
            refused("ignored"),
            program_ran(false, b"failed\n", b""),
            ran(""),
            ran(""),
            yes(),
            ran("device 0."),
            ran("0 /dev/sr1"),
            refused("busy"),
            ran(" /mnt/cd \n"),
        ],
    );
    assert_eq!(
        jobs[2..9],
        [
            "pkexec chmod a+rw /dev/vhba_ctl",
            "()",
            "pkexec usermod -aG cdemu me",
            "systemctl --user is-active cdemu-daemon",
            "systemctl --user reset-failed cdemu-daemon",
            "systemctl --user start cdemu-daemon",
            "()",
        ]
    );
    assert_eq!(jobs[12], "lsblk -no MOUNTPOINT /dev/sr1");
    assert_eq!(r.ok().unwrap().mount_point, "/mnt/cd");
}

#[test]
fn mounting_tells_what_went_wrong() {
    let l = Platform::Linux;
    assert_eq!(
        failure(l, "a.nrg", vec![no()]),
        "The vhba kernel module is not loaded. Install the vhba-module package."
    );
    assert_eq!(failure(l, "a.nrg", vec![yes(), no(), program_failed(true, "gone")]), "pkexec not found: gone");
    assert_eq!(
        failure(l, "a.nrg", vec![yes(), no(), refused("")]),
        "Administrator access is required to configure CDEmu device permissions."
    );
    assert_eq!(
        failure(l, "a.nrg", vec![yes(), yes(), program_failed(true, "x"), refused("")]),
        "CDEmu daemon could not be started. Please check that cdemu-daemon is installed."
    );
    let up = || vec![yes(), yes(), ran("active")];
    let with = |mut v: Vec<Event>, e: Vec<Event>| {
        v.extend(e);
        v
    };
    assert_eq!(
        failure(l, "a.nrg", with(up(), vec![program_failed(true, "x")])),
        "CDemu is not installed. Install the 'cdemu' package to mount this image type."
    );
    assert_eq!(failure(l, "a.nrg", with(up(), vec![program_failed(false, "x")])), "cdemu load failed: x");
    assert_eq!(failure(l, "a.nrg", with(up(), vec![refused(" bad image \n")])), "bad image");
    assert_eq!(
        failure(l, "a.nrg", with(up(), vec![ran("device 7."), ran("0 /dev/sr0\n\n7 /dev/sr7\n")])),
        "CDemu: could not find device for slot 7"
    );
    let mapped = || with(up(), vec![ran("device 0."), ran("0 /dev/sr0")]);
    assert_eq!(failure(l, "a.nrg", with(mapped(), vec![program_failed(true, "x")])), "udisksctl mount failed: x");
    assert_eq!(
        failure(l, "a.nrg", with(mapped(), vec![refused("x"), program_failed(true, "y")])),
        "lsblk failed: y"
    );
    assert_eq!(
        failure(l, "a.nrg", with(mapped(), vec![refused("x"), ran(" \n")])),
        "CDemu: could not determine mount point"
    );
    assert_eq!(failure(l, "a.iso", vec![program_failed(true, "x")]), "udisksctl loop-setup failed: x");
    assert_eq!(failure(l, "a.iso", vec![refused(" no \n")]), "no");
    assert_eq!(
        failure(l, "a.iso", vec![ran("something else\n")]),
        "Unexpected loop-setup output: something else\n"
    );
    let looped = || vec![ran("as /dev/loop4.")];
    assert_eq!(failure(l, "a.iso", with(looped(), vec![program_failed(true, "x")])), "udisksctl mount failed: x");
    assert_eq!(failure(l, "a.iso", with(looped(), vec![refused(" no \n")])), "no");
    assert_eq!(failure(l, "a.iso", with(looped(), vec![ran("Mounted.")])), "Could not determine mount point");
    assert_eq!(failure(Platform::Mac, "a.iso", vec![program_failed(true, "x")]), "hdiutil failed: x");
    assert_eq!(failure(Platform::Mac, "a.iso", vec![refused("e\n")]), "e");
    assert_eq!(failure(Platform::Mac, "a.iso", vec![ran("/dev/disk4\t \t\n")]), "Could not determine mount point");
    assert_eq!(failure(Platform::Windows, "a.iso", vec![program_failed(true, "x")]), "Mount-DiskImage failed: x");
    assert_eq!(failure(Platform::Windows, "a.iso", vec![refused("e\n")]), "e");
    assert_eq!(failure(Platform::Windows, "a.iso", vec![ran(" \r\n")]), "Could not determine drive letter");
}

#[test]
fn a_mac_attaches_an_image() {
    let (jobs, r) = mount(
        Platform::Mac,
        "a.iso",
        vec![ran("/dev/disk4 \tCD_partition\t\n/dev/disk4s1\tx\t/Volumes/A\n/dev/disk4s2\ty\t \n")],
    );
    assert_eq!(jobs, ["hdiutil attach a.iso"]);
    let m = r.ok().unwrap();
    assert_eq!(m.device, "/dev/disk4s1");
    assert_eq!(m.mount_point, "/Volumes/A");
}

#[test]
fn windows_mounts_an_image_by_a_script() {
    let (jobs, r) = mount(Platform::Windows, "C:\\it's.iso", vec![ran("E\r\n")]);
    assert_eq!(
        jobs,
        ["powershell -NoProfile -Command $d = Mount-DiskImage -ImagePath 'C:\\it''s.iso' -PassThru; ($d | Get-Volume).DriveLetter"]
    );
    let m = r.ok().unwrap();
    assert_eq!(m.device, "C:\\it's.iso");
    assert_eq!(m.mount_point, "E:\\");
}

fn unmount(p: Platform, device: &str, events: Vec<Event>) -> (Vec<String>, Result<(), String>) {
    let mut jobs = Vec::new();
    let mut next = begin_unmount(p, device);
    let mut events = events.into_iter();
    loop {
        match next {
            UnmountNext::Do(stage, job) => {
                jobs.push(line(&job));
                next = unmount_disc_image(stage, device, &events.next().expect("no event left"));
            }
            UnmountNext::Done => return (jobs, Ok(())),
            UnmountNext::Fail(e) => return (jobs, Err(e)),
        }
    }
}

#[test]
fn an_image_is_taken_off_by_what_it_was_mounted_as() {
    let (jobs, r) = unmount(Platform::Linux, "cdemu:3:/dev/sr2", vec![refused("x"), ran("")]);
    assert_eq!(jobs, ["udisksctl unmount -b /dev/sr2", "cdemu unload 3"]);
    assert_eq!(r, Ok(()));
    let (jobs, r) = unmount(Platform::Linux, "/dev/loop0", vec![ran(""), refused(" busy\n")]);
    assert_eq!(jobs, ["udisksctl unmount -b /dev/loop0", "udisksctl loop-delete -b /dev/loop0"]);
    assert_eq!(r, Err("busy".to_string()));
    let gone = || program_failed(true, "x");
    assert_eq!(
        unmount(Platform::Linux, "/dev/loop0", vec![ran(""), gone()]).1,
        Err("udisksctl loop-delete failed: x".to_string())
    );
    assert_eq!(
        unmount(Platform::Linux, "cdemu:0:d", vec![ran(""), gone()]).1,
        Err("cdemu unload failed: x".to_string())
    );
    let (jobs, r) = unmount(Platform::Mac, "/dev/disk4", vec![gone()]);
    assert_eq!(jobs, ["hdiutil detach /dev/disk4 -quiet"]);
    assert_eq!(r, Err("hdiutil detach failed: x".to_string()));
    let (jobs, r) = unmount(Platform::Windows, "a'b", vec![gone()]);
    assert_eq!(jobs, ["powershell -NoProfile -Command Dismount-DiskImage -ImagePath 'a''b'"]);
    assert_eq!(r, Err("Dismount-DiskImage failed: x".to_string()));
}

#[test]
fn devices_are_noted_and_forgotten() {
    let mut m = MountedImages::new();
    m.note("a");
    m.note("b");
    m.note("a");
    m.forget("a");
    assert_eq!(m.devices, ["b"]);
}

#[test]
fn all_devices_are_taken_off_at_the_end() {
    let devices = vec!["cdemu:1:/dev/sr1".to_string(), "/dev/loop2".to_string()];
    let lines = |p: Platform| -> Vec<String> { detach_all(p, &devices).iter().map(line).collect() };
    assert_eq!(
        lines(Platform::Linux),
        ["udisksctl unmount -b /dev/sr1", "udisksctl unmount -b /dev/loop2", "udisksctl loop-delete -b /dev/loop2"]
    );
    assert_eq!(lines(Platform::Mac)[0], "hdiutil detach cdemu:1:/dev/sr1 -quiet -force");
    assert_eq!(
        lines(Platform::Windows)[1],
        "powershell -NoProfile -Command Dismount-DiskImage -ImagePath '/dev/loop2'"
    );
}

#[test]
fn slots_are_read_off_the_end_of_a_line() {
    assert_eq!(read_slot("loaded to device 12."), "12");
    assert_eq!(read_slot("loaded to device x."), "0");
    assert_eq!(read_slot(" \n"), "0");
    assert_eq!(read_slot("..."), "");
}

// ── Emulated drives ─────────────────────────────────────────────────────────

fn load(image: &str, events: Vec<Event>) -> (Vec<String>, Result<EmulatedDrive, String>) {
    let mut jobs = Vec::new();
    let mut next = begin_emulation(Platform::Linux);
    let mut events = events.into_iter();
    loop {
        match next {
            LoadNext::Do(stage, slot, job) => {
                jobs.push(line(&job));
                next = emulate_drive(stage, slot, image, &events.next().expect("no event left"));
            }
            LoadNext::Done(d) => return (jobs, Ok(d)),
            LoadNext::Fail(e) => return (jobs, Err(e)),
        }
    }
}

#[test]
fn a_full_set_of_drives_gets_one_more() {
    let (jobs, r) = load(
        "x.cue",
        vec![
            yes(),
            yes(),
            ran("active"),
            refused("Error: No empty device found.\n"),
            refused(""),
            ran("to device 1."),
            ran("1 /dev/sr1"),
        ],
    );
    assert_eq!(jobs[3..6], ["cdemu load any x.cue", "cdemu add-device", "cdemu load any x.cue"]);
    let d = r.ok().unwrap();
    assert_eq!((d.slot.as_str(), d.device.as_str(), d.image_path.as_str()), ("1", "/dev/sr1", "x.cue"));
}

#[test]
fn loading_tells_what_went_wrong() {
    let fail = |e: Vec<Event>| {
        let mut v = vec![yes(), yes(), ran("active")];
        v.extend(e);
        load("x.cue", v).1.err().expect("loaded")
    };
    assert_eq!(
        fail(vec![program_failed(true, "")]),
        "CDemu is not installed. Install the 'cdemu' package to emulate drives."
    );
    assert_eq!(fail(vec![program_failed(false, "e")]), "cdemu load failed: e");
    assert_eq!(fail(vec![refused(" e ")]), "e");
    assert_eq!(
        fail(vec![refused("No empty device found"), ran(""), refused("No empty device found")]),
        "No empty device found"
    );
    assert_eq!(fail(vec![ran("device 5."), program_failed(true, "")]), "CDemu: could not find device for slot 5");
    let other = match begin_emulation(Platform::Mac) {
        LoadNext::Fail(e) => e,
        _ => panic!("began"),
    };
    assert_eq!(other, "Drive emulation via CDemu is only available on Linux.");
}

#[test]
fn an_emptied_slot_is_forgotten() {
    let mut v = EmulatedDrives::new();
    for slot in ["0", "1", "0"] {
        v.note(&EmulatedDrive { slot: slot.to_string(), device: "d".to_string(), image_path: "i".to_string() });
    }
    assert_eq!(eject_emulated_drive(&mut v, "0", &refused(" no ")), Err("no".to_string()));
    assert_eq!(
        eject_emulated_drive(&mut v, "0", &program_failed(true, "x")),
        Err("cdemu unload failed: x".to_string())
    );
    assert_eq!(v.list_emulated_drives().len(), 3);
    assert_eq!(eject_emulated_drive(&mut v, "0", &ran("")), Ok(()));
    let left = v.list_emulated_drives();
    assert_eq!(left.len(), 1);
    assert_eq!(left[0].slot, "1");
    assert_eq!(line(&begin_emptying(Platform::Linux, "4").ok().unwrap()), "cdemu unload 4");
    assert!(begin_emptying(Platform::Windows, "4").is_err());
}

#[test]
fn cdemu_is_installed_by_the_first_manager_there_is() {
    let mut jobs = Vec::new();
    let mut next = begin_install(Platform::Linux);
    let mut events = vec![refused(""), program_failed(true, ""), ran("/usr/bin/dnf"), ran("")].into_iter();
    let done = loop {
        match next {
            InstallNext::Do(stage, job) => {
                jobs.push(line(&job));
                next = install_cdemu(stage, &events.next().expect("no event left"));
            }
            InstallNext::Done(t) => break t,
            InstallNext::Fail(e) => panic!("{}", e),
        }
    };
    assert_eq!(done, "cdemu-client installed successfully.");
    assert_eq!(jobs, ["which pacman", "which apt-get", "which dnf", "pkexec dnf install -y cdemu-client"]);
}

#[test]
fn installing_tells_what_went_wrong() {
    let fail = |found: usize, last: Option<Event>| -> String {
        let mut next = begin_install(Platform::Linux);
        let mut k = 0;
        let mut last = last;
        loop {
            match next {
                InstallNext::Do(stage, _) => {
                    let e = if k < found {
                        refused("")
                    } else if k == found {
                        ran("")
                    } else {
                        last.take().expect("no event left")
                    };
                    k += 1;
                    next = install_cdemu(stage, &e);
                }
                InstallNext::Done(_) => panic!("installed"),
                InstallNext::Fail(e) => return e,
            }
        }
    };
    assert_eq!(
        fail(9, None),
        "Could not detect a supported package manager. Install cdemu-client manually."
    );
    assert_eq!(
        fail(0, Some(program_failed(true, ""))),
        "pkexec not found. Install cdemu-client manually using your package manager."
    );
    assert_eq!(fail(1, Some(program_failed(false, "e"))), "Installation failed: e");
    assert_eq!(fail(3, Some(refused(" \n"))), "Installation cancelled or failed.");
    assert_eq!(fail(4, Some(refused(" why \n"))), "why");
    assert_eq!(line(&make_job(JobKind::InstallPacman, "")), "pkexec pacman -S --noconfirm cdemu-client");
    assert_eq!(line(&make_job(JobKind::InstallApt, "")), "pkexec apt-get install -y cdemu-client");
    assert_eq!(line(&make_job(JobKind::InstallZypper, "")), "pkexec zypper install -y cdemu-client");
    assert_eq!(line(&make_job(JobKind::InstallEopkg, "")), "pkexec eopkg install cdemu-client");
    match begin_install(Platform::Windows) {
        InstallNext::Fail(e) => assert_eq!(e, "Not supported on this platform."),
        _ => panic!("began"),
    }
}

// ── Optical drives ──────────────────────────────────────────────────────────

fn some(t: &str) -> Option<String> {
    Some(t.to_string())
}

fn rom(name: &str) -> BlockDevice {
    BlockDevice {
        kind: some("rom"),
        name: some(name),
        model: None,
        label: None,
        mount_points: Vec::new(),
        mount_point: None,
        size: None,
    }
}

#[test]
fn block_devices_that_are_drives_are_listed() {
    let mut disk = rom("sda");
    disk.kind = some("disk");
    let mut nameless = rom("");
    nameless.name = None;
    let mut loaded = rom("sr1");
    loaded.model = some(" BD-RE  ");
    loaded.label = some("GAME");
    loaded.size = some("700M");
    loaded.mount_points = vec!["".to_string(), "/media/g".to_string()];
    loaded.mount_point = some("/other");
    let mut empty = rom("sr0");
    empty.model = some("");
    empty.size = some(" 0B ");
    let v = list_optical_drives(&vec![disk, empty, nameless, loaded]);
    assert_eq!(v.len(), 2);
    assert_eq!(v[0].name, "sr0");
    assert_eq!(v[0].device_path, "/dev/sr0");
    assert!(!v[0].has_disc);
    assert_eq!(v[0].volume_name, None);
    assert_eq!(v[1].name, "BD-RE");
    assert_eq!(v[1].raw_device_path, "/dev/sr1");
    assert!(v[1].has_disc);
    assert_eq!(v[1].volume_name, some("GAME"));
    assert_eq!(v[1].mount_point, some("/media/g"));
    let mut old = rom("sr2");
    old.mount_point = some("/m");
    let v = list_optical_drives(&vec![old]);
    assert!(v[0].has_disc);
    assert_eq!(v[0].mount_point, some("/m"));
}

#[test]
fn windows_drives_are_known_by_their_letters() {
    let d = CimDrive { name: None, letter: some(" D "), volume_name: some(""), media_loaded: true };
    let i = drive_of_cim(&d).unwrap();
    assert_eq!(i.name, "Optical Drive");
    assert_eq!(i.device_path, "D:\\");
    assert_eq!(i.mount_point, some("D:\\"));
    assert_eq!(i.volume_name, None);
    let d = CimDrive { name: some("X"), letter: some("E:"), volume_name: some("V"), media_loaded: false };
    let i = drive_of_cim(&d).unwrap();
    assert_eq!((i.device_path.as_str(), i.raw_device_path.as_str()), ("E:", "E:"));
    assert_eq!(i.mount_point, None);
    assert_eq!(i.volume_name, some("V"));
    let d = CimDrive { name: some("X"), letter: some(" "), volume_name: None, media_loaded: true };
    assert!(drive_of_cim(&d).is_none());
}

#[test]
fn mac_drives_are_read_off_listings() {
    let info = "   Volume Name:  DISC  \n   Mount Point: /Volumes/DISC\n";
    let disc = check_disc_in_drive(info).unwrap();
    assert_eq!(disc.volume_name, some("DISC"));
    assert_eq!(disc.mount_point, some("/Volumes/DISC"));
    assert!(check_disc_in_drive("Volume Name: Not applicable\nMount Point: /x\n").is_none());
    assert!(check_disc_in_drive("Volume Name: (null)\n").is_none());
    let d = drive_of_mac("BURNER", "disk4", Some(disc));
    assert_eq!(d.device_path, "/Volumes/DISC");
    assert_eq!(d.raw_device_path, "disk4");
    assert!(d.has_disc);
    let d = drive_of_mac("BURNER", "/dev/disk4", None);
    assert_eq!(d.device_path, "/dev/disk4");
    assert_eq!(d.raw_device_path, "disk4");
    assert_eq!(device_path("disk9"), "/dev/disk9");
    let list = "/dev/disk0 (internal):\n   #: TYPE\n   0: GUID_partition_scheme\n/dev/disk4 (external):\n   #: TYPE\n   0:   GAME  *700 MB\n   1: x\n/dev/disk5:\n   #:\n   0: Apple x\n";
    assert_eq!(scan_optical_nodes(list), ["disk4"]);
    assert_eq!(
        optical_media_name(" Device / Media Name:  DRIVE \n Optical Drive Type: CD-ROM\n"),
        some("DRIVE")
    );
    assert_eq!(optical_media_name("Device / Media Name: DRIVE\n"), None);
    let named = MacDrive {
        name: some("A"),
        device_node: None,
        burning_device: some("disk7"),
        bsd_name: some("disk8"),
        names_node: true,
    };
    let bare = MacDrive { name: some("B"), device_node: None, burning_device: None, bsd_name: None, names_node: false };
    assert_eq!(choose_node(&named, some("disk1")), some("disk7"));
    assert_eq!(choose_node(&bare, some("disk1")), some("disk1"));
    assert!(!needs_search(&vec![named]));
    assert!(needs_search(&vec![bare]));
}

fn eject(p: Platform, events: Vec<Event>) -> (Vec<String>, Result<(), String>) {
    let mut jobs = Vec::new();
    let mut next = begin_eject(p, "D:\\/");
    let mut events = events.into_iter();
    loop {
        match next {
            EjectNext::Do(stage, first, job) => {
                jobs.push(line(&job));
                next = eject_disc(stage, &first, "D:\\/", &events.next().expect("no event left"));
            }
            EjectNext::Done => return (jobs, Ok(())),
            EjectNext::Fail(e) => return (jobs, Err(e)),
        }
    }
}

#[test]
fn ejecting_falls_back_once() {
    let gone = || program_failed(true, "x");
    let err = |t: &str| Err(t.to_string());
    assert_eq!(eject(Platform::Linux, vec![ran("")]).1, Ok(()));
    let (jobs, r) = eject(Platform::Linux, vec![refused(" a "), ran("")]);
    assert_eq!(jobs, ["eject D:\\/", "udisksctl eject -b D:\\/"]);
    assert_eq!(r, Ok(()));
    assert_eq!(eject(Platform::Linux, vec![refused(" a "), refused(" b ")]).1, err("eject: a; udisksctl: b"));
    assert_eq!(eject(Platform::Linux, vec![refused(" a "), gone()]).1, err("a"));
    assert_eq!(eject(Platform::Linux, vec![gone(), refused(" b ")]).1, err("b"));
    assert_eq!(
        eject(Platform::Linux, vec![gone(), gone()]).1,
        err("Neither 'eject' nor 'udisksctl' is available on this system")
    );
    assert_eq!(eject(Platform::Mac, vec![gone()]).1, err("diskutil eject failed: x"));
    assert_eq!(eject(Platform::Mac, vec![refused("e ")]).1, err("e"));
    let (jobs, r) = eject(Platform::Windows, vec![refused("ignored")]);
    assert_eq!(
        jobs,
        ["powershell -NoProfile -NonInteractive -Command (New-Object -ComObject Shell.Application).NameSpace(17).ParseName('D:').InvokeVerb('Eject')"]
    );
    assert_eq!(r, Ok(()));
    assert_eq!(eject(Platform::Windows, vec![gone()]).1, err("PowerShell eject failed: x"));
}

// ── Dumps ───────────────────────────────────────────────────────────────────

#[test]
fn redumper_is_called_by_its_source() {
    assert!(matches!(redumper_cmd("bundled", some("x")), Ok(RedumperSource::Bundled)));
    assert!(matches!(redumper_cmd("external", some("x")), Ok(RedumperSource::External(p)) if p == "x"));
    assert_eq!(redumper_cmd("external", None).err().unwrap(), "No external redumper path configured");
    assert_eq!(
        start_redumper_dump("/dev/sr0", "/out"),
        ["dump", "--drive=/dev/sr0", "--image-path=/out", "--drive-type=GENERIC", "--force-split", "--leave-unchanged"]
    );
    assert_eq!(get_redumper_version("\n  \n", "redumper v2\nmore"), "redumper v2");
    assert_eq!(get_redumper_version("", " \n"), "unknown");
}

#[test]
fn only_images_stay_beside_the_logs() {
    assert!(!is_dump_log("a.ISO"));
    assert!(!is_dump_log("a.log.bin"));
    assert!(is_dump_log("a.bin.log"));
    assert!(is_dump_log(".cue"));
    assert!(is_dump_log("iso"));
    let v: Vec<String> = ["a.cue", "a.log", "a.bin", "a.subcode"].iter().map(|s| s.to_string()).collect();
    assert_eq!(organize_dump_logs(&v), ["a.log", "a.subcode"]);
}
