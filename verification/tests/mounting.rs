//! Mounting and unmounting, and the optical drives.
use disc_xplorer::drives::{check_disc_in_drive, list_optical_drives, make_node, optical_drives};
use disc_xplorer::mount::{
    detach_all, mount_disc_image, platform_name, release_commands, sr_devices, unmount_disc_image,
    use_cdemu, Cmd, Event, MountResult, MountStep, MountedImages, Platform, UnmountStep,
};

fn ok(stdout: &str) -> Event {
    Event::Ended { success: true, stdout: stdout.to_string(), stderr: String::new() }
}

fn bad(stderr: &str) -> Event {
    Event::Ended { success: false, stdout: String::new(), stderr: stderr.to_string() }
}

fn failed(why: &str) -> Event {
    Event::Failed(why.to_string())
}

fn devices(names: &[&str]) -> Event {
    Event::Devices(names.iter().map(|s| s.to_string()).collect())
}

fn cmd(words: &[&str]) -> Cmd {
    Cmd { program: words[0].to_string(), args: words[1..].iter().map(|s| s.to_string()).collect() }
}

fn run(words: &[&str]) -> MountStep {
    MountStep::Run(cmd(words))
}

fn mounted(mount_point: &str, device: &str) -> MountStep {
    MountStep::Done(Ok(MountResult { mount_point: mount_point.to_string(), device: device.to_string() }))
}

fn refused(why: &str) -> MountStep {
    MountStep::Done(Err(why.to_string()))
}

#[test]
fn platforms() {
    assert_eq!(platform_name(Platform::Linux), "linux");
    assert_eq!(platform_name(Platform::MacOs), "macos");
    assert_eq!(platform_name(Platform::Windows), "windows");
}

#[test]
fn mount_on_macos() {
    let step = |ev: Vec<Event>| mount_disc_image(Platform::MacOs, "/a/x.iso", &ev);
    assert_eq!(step(vec![]), run(&["hdiutil", "attach", "/a/x.iso"]));
    let out = "/dev/disk4          \tGUID\t\n/dev/disk4s1 \tApple_HFS \t/Volumes/My Disc\t1 \n/dev/disk5\tx\t \n";
    assert_eq!(step(vec![ok(out)]), mounted("/Volumes/My Disc\t1", "/dev/disk4s1"));
    assert_eq!(step(vec![ok("nothing here\n")]), refused("Could not determine mount point"));
    assert_eq!(step(vec![bad(" no mountable file systems \n")]), refused("no mountable file systems"));
    assert_eq!(step(vec![failed("not found")]), refused("hdiutil failed: not found"));
}

#[test]
fn mount_on_windows() {
    let step = |ev: Vec<Event>| mount_disc_image(Platform::Windows, "C:\\it's.iso", &ev);
    assert_eq!(
        step(vec![]),
        run(&[
            "powershell",
            "-NoProfile",
            "-Command",
            "$d = Mount-DiskImage -ImagePath 'C:\\it''s.iso' -PassThru; ($d | Get-Volume).DriveLetter",
        ])
    );
    assert_eq!(step(vec![ok("E\r\n")]), mounted("E:\\", "C:\\it's.iso"));
    assert_eq!(step(vec![ok(" \r\n")]), refused("Could not determine drive letter"));
    assert_eq!(step(vec![bad("denied\r\n")]), refused("denied"));
    assert_eq!(step(vec![failed("x")]), refused("Mount-DiskImage failed: x"));
}

#[test]
fn mount_through_a_loop_device() {
    let step = |ev: Vec<Event>| mount_disc_image(Platform::Linux, "/a/x.ISO", &ev);
    assert_eq!(step(vec![]), run(&["udisksctl", "loop-setup", "-f", "/a/x.ISO"]));
    let set = || ok("Mapped file /a/x.ISO as /dev/loop7.\n");
    assert_eq!(step(vec![set()]), run(&["udisksctl", "mount", "-b", "/dev/loop7"]));
    assert_eq!(
        step(vec![set(), ok("Mounted /dev/loop7 at /media/me/My Disc.\n")]),
        mounted("/media/me/My Disc", "/dev/loop7")
    );
    assert_eq!(step(vec![set(), ok("Mounted\n")]), refused("Could not determine mount point"));
    assert_eq!(step(vec![set(), bad("busy\n")]), refused("busy"));
    assert_eq!(step(vec![set(), failed("x")]), refused("udisksctl mount failed: x"));
    assert_eq!(step(vec![ok("what?\n")]), refused("Unexpected loop-setup output: what?\n"));
    assert_eq!(step(vec![ok("")]), refused("Unexpected loop-setup output: "));
    assert_eq!(step(vec![bad(" no\n")]), refused("no"));
    assert_eq!(step(vec![failed("x")]), refused("udisksctl loop-setup failed: x"));
}

#[test]
fn mount_through_cdemu() {
    let step = |ev: Vec<Event>| mount_disc_image(Platform::Linux, "/a/x.Cue", &ev);
    assert_eq!(step(vec![]), MountStep::ListDevices);
    let before = || devices(&["sr0", "tty"]);
    assert_eq!(step(vec![before()]), run(&["cdemu", "load", "any", "/a/x.Cue"]));
    let load = || ok("Successfully loaded image '/a/x.Cue' to device 2.\n");
    assert_eq!(step(vec![before(), load()]), MountStep::Wait(1500));
    assert_eq!(step(vec![before(), load(), Event::Waited]), MountStep::ListDevices);
    let after = || devices(&["sr0", "sr1", "sr2"]);
    let four = || vec![before(), load(), Event::Waited, after()];
    assert_eq!(step(four()), run(&["udisksctl", "mount", "-b", "/dev/sr1"]));
    let with = |more: Vec<Event>| {
        let mut ev = four();
        ev.extend(more);
        step(ev)
    };
    assert_eq!(with(vec![ok("Mounted /dev/sr1 at /media/x.\n")]), mounted("/media/x", "cdemu:2:/dev/sr1"));
    assert_eq!(with(vec![bad("already mounted")]), run(&["lsblk", "-no", "MOUNTPOINT", "/dev/sr1"]));
    assert_eq!(with(vec![bad(""), ok("/media/y \n")]), mounted("/media/y", "cdemu:2:/dev/sr1"));
    assert_eq!(with(vec![bad(""), failed("z")]), refused("lsblk failed: z"));
    assert_eq!(with(vec![bad(""), ok("\n")]), run(&["cdemu", "unload", "2"]));
    assert_eq!(with(vec![bad(""), ok("\n"), failed("")]), refused("CDemu: could not determine mount point"));
    assert_eq!(with(vec![ok("?")]), run(&["cdemu", "unload", "2"]));
    assert_eq!(with(vec![ok("?"), ok("")]), refused("CDemu: could not determine mount point"));
    assert_eq!(with(vec![failed("u")]), refused("udisksctl mount failed: u"));
    assert_eq!(
        step(vec![before(), load(), Event::Waited, before()]),
        refused("CDemu: virtual drive did not appear as /dev/srN")
    );
    assert_eq!(step(vec![before(), bad(" full \n")]), refused("full"));
    assert_eq!(step(vec![before(), failed("y")]), refused("cdemu load failed: y"));
    let odd = vec![before(), ok("loaded\n"), Event::Waited, after(), ok("a at b.")];
    assert_eq!(step(odd), mounted("b", "cdemu:0:/dev/sr1"));
}

#[test]
fn formats_of_cdemu() {
    for name in ["a.cue", "a.mds", "a.mdx", "a.nrg", "a.ccd", "a.toc", "a.b6t", "a.bwt", "a.c2d", "a.pdi", "a.gi", "a.daa"] {
        assert!(use_cdemu(name), "{name}");
    }
    assert!(!use_cdemu("a.iso") && !use_cdemu("a.CUE") && !use_cdemu("a.chd"));
}

#[test]
fn drives_among_devices() {
    let names: Vec<String> = ["sda", "sr0", "tty", "sr12"].iter().map(|s| s.to_string()).collect();
    assert_eq!(sr_devices(&names), vec!["/dev/sr0", "/dev/sr12"]);
}

#[test]
fn unmount_on_linux() {
    let step = |d: &str, ev: Vec<Event>| unmount_disc_image(Platform::Linux, d, &ev);
    let go = |w: &[&str]| UnmountStep::Run(cmd(w));
    assert_eq!(step("/dev/loop1", vec![]), go(&["udisksctl", "unmount", "-b", "/dev/loop1"]));
    assert_eq!(step("/dev/loop1", vec![failed("")]), go(&["udisksctl", "loop-delete", "-b", "/dev/loop1"]));
    assert_eq!(step("/dev/loop1", vec![bad(""), ok("")]), UnmountStep::Done(Ok(())));
    assert_eq!(step("/dev/loop1", vec![ok(""), bad("no \n")]), UnmountStep::Done(Err("no".to_string())));
    assert_eq!(
        step("/dev/loop1", vec![ok(""), failed("q")]),
        UnmountStep::Done(Err("udisksctl loop-delete failed: q".to_string()))
    );
    assert_eq!(step("cdemu:3:/dev/sr1", vec![]), go(&["udisksctl", "unmount", "-b", "/dev/sr1"]));
    assert_eq!(step("cdemu:3:/dev/sr1", vec![ok("")]), go(&["cdemu", "unload", "3"]));
    assert_eq!(
        step("cdemu:3:/dev/sr1", vec![ok(""), failed("q")]),
        UnmountStep::Done(Err("cdemu unload failed: q".to_string()))
    );
    assert_eq!(step("cdemu:4", vec![]), go(&["udisksctl", "unmount", "-b", ""]));
    assert_eq!(step("cdemu:4", vec![ok("")]), go(&["cdemu", "unload", "4"]));
}

#[test]
fn unmount_elsewhere() {
    assert_eq!(
        unmount_disc_image(Platform::MacOs, "/dev/disk4", &vec![]),
        UnmountStep::Run(cmd(&["hdiutil", "detach", "/dev/disk4", "-quiet"]))
    );
    assert_eq!(
        unmount_disc_image(Platform::MacOs, "d", &vec![failed("e")]),
        UnmountStep::Done(Err("hdiutil detach failed: e".to_string()))
    );
    assert_eq!(
        unmount_disc_image(Platform::Windows, "a'b", &vec![]),
        UnmountStep::Run(cmd(&["powershell", "-NoProfile", "-Command", "Dismount-DiskImage -ImagePath 'a''b'"]))
    );
    assert_eq!(
        unmount_disc_image(Platform::Windows, "d", &vec![failed("e")]),
        UnmountStep::Done(Err("Dismount-DiskImage failed: e".to_string()))
    );
}

#[test]
fn everything_is_freed_at_the_end() {
    let all = vec!["/dev/loop1".to_string(), "cdemu:0:/dev/sr3".to_string()];
    assert_eq!(
        detach_all(Platform::Linux, &all),
        vec![
            cmd(&["udisksctl", "unmount", "-b", "/dev/loop1"]),
            cmd(&["udisksctl", "loop-delete", "-b", "/dev/loop1"]),
            cmd(&["udisksctl", "unmount", "-b", "/dev/sr3"]),
            cmd(&["cdemu", "unload", "0"]),
        ]
    );
    assert_eq!(
        release_commands(Platform::MacOs, "d", true),
        vec![cmd(&["hdiutil", "detach", "d", "-quiet", "-force"])]
    );
}

#[test]
fn unmounting_undoes_mounting() {
    let mut m = MountedImages::new();
    m.register("a");
    m.register("b");
    m.register("a");
    assert_eq!(m.0, vec!["a", "b", "a"]);
    m.register("c");
    m.forget("c");
    assert_eq!(m.0, vec!["a", "b", "a"]);
    m.forget("a");
    assert_eq!(m.0, vec!["b"]);
    m.forget("x");
    assert_eq!(m.0, vec!["b"]);
}

#[test]
fn disc_in_a_drive() {
    let info = |s: &str| check_disc_in_drive(&Some(s.to_string()));
    assert_eq!(info("   Volume Name:    My Disc \n"), (true, Some("My Disc".to_string())));
    assert_eq!(info("Volume Name: Not applicable\nVolume Name: (null)\nVolume Name:\n"), (false, None));
    assert_eq!(info("Volume Name: (null)\n Volume Name: B\n"), (true, Some("B".to_string())));
    assert_eq!(info("Name: x\n"), (false, None));
    assert_eq!(check_disc_in_drive(&None), (false, None));
}

#[test]
fn drives_in_json() {
    let json = br#"{"SPDiscBurningDataType":[
        {"_name":"One","bsd_name":"disk9","spdisc_burning_device":"disk2"},
        {"_name":"No node"},
        {"bsd_name":"disk3"},
        {"_name":"Two","spdisc_burner-devicenode":"disk4","bsd_name":"disk5"},
        {"_name":7,"bsd_name":"disk6"},
        {"_name":"Three","spdisc_burner-devicenode":1,"bsd_name":"disk7"}]}"#;
    let nodes = optical_drives(json);
    let got: Vec<(&str, &str)> = nodes.iter().map(|n| (n.name.as_str(), n.device_path.as_str())).collect();
    assert_eq!(got, vec![("One", "/dev/disk2"), ("Two", "/dev/disk4"), ("Three", "/dev/disk7")]);
    let infos = vec![Some("Volume Name: V\n".to_string()), None, Some(String::new())];
    let list = list_optical_drives(&nodes, &infos);
    assert_eq!((list[0].has_disc, list[0].volume_name.as_deref()), (true, Some("V")));
    assert_eq!((list[1].has_disc, list[1].volume_name.as_deref()), (false, None));
    assert_eq!((list[2].name.as_str(), list[2].has_disc), ("Three", false));
    assert!(optical_drives(b"not json").is_empty());
    assert!(optical_drives(b"{\"SPDiscBurningDataType\":3}").is_empty());
    assert!(optical_drives(b"[]").is_empty());
}

#[test]
fn drive_needs_a_name_and_a_node() {
    let s = |t: &str| Some(t.to_string());
    assert_eq!(make_node(s("n"), None, s("b"), s("c")).unwrap().device_path, "/dev/b");
    assert_eq!(make_node(s("n"), s("a"), s("b"), None).unwrap().device_path, "/dev/a");
    assert!(make_node(None, s("a"), None, None).is_none());
    assert!(make_node(s("n"), None, None, None).is_none());
}
