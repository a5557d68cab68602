//! Mounting an image through the tools of the system. The tools are run by the
//! caller: a function takes what has happened so far and tells what to do next.
use crate::text;
use vstd::prelude::*;

verus! {

/// The system that the program runs on.
#[derive(Clone, Copy, PartialEq, Eq, Structural, Debug)]
pub enum Platform {
    Linux,
    MacOs,
    Windows,
}

/// The name of a system.
pub fn platform_name(p: Platform) -> (r: String)
    ensures
        r@ == match p {
            Platform::Linux => "linux"@,
            Platform::MacOs => "macos"@,
            Platform::Windows => "windows"@,
        },
{
    match p {
        Platform::Linux => "linux".to_owned(),
        Platform::MacOs => "macos".to_owned(),
        Platform::Windows => "windows".to_owned(),
    }
}

// ── What is mounted ──────────────────────────────────────────────────────────

/// A mounted image.
#[derive(PartialEq, Eq, Debug)]
pub struct MountResult {
    pub mount_point: String,
    pub device: String,
}

/// What a mounted image holds.
pub struct MountView {
    pub mount_point: Seq<char>,
    pub device: Seq<char>,
}

impl View for MountResult {
    type V = MountView;

    open spec fn view(&self) -> MountView {
        MountView { mount_point: self.mount_point@, device: self.device@ }
    }
}

/// The devices of the images that are mounted.
#[derive(PartialEq, Eq, Debug)]
pub struct MountedImages(pub Vec<String>);

/// The devices but `device`.
pub open spec fn without(devices: Seq<Seq<char>>, device: Seq<char>) -> Seq<Seq<char>>
    decreases devices.len(),
{
    if devices.len() == 0 {
        devices
    } else if devices.last() == device {
        without(devices.drop_last(), device)
    } else {
        without(devices.drop_last(), device).push(devices.last())
    }
}

impl MountedImages {
    /// The devices, in the order in which they were mounted.
    pub open spec fn devices(self) -> Seq<Seq<char>> {
        text::string_views(self.0@)
    }

    /// No image is mounted.
    pub fn new() -> (r: MountedImages)
        ensures
            r.devices() == Seq::<Seq<char>>::empty(),
    {
        let r = MountedImages(Vec::new());
        assert(r.devices() =~= Seq::empty());
        r
    }

    /// An image was mounted.
    pub fn register(&mut self, device: &str)
        ensures
            final(self).devices() == old(self).devices().push(device@),
    {
        self.0.push(device.to_owned());
        assert(self.devices() =~= old(self).devices().push(device@));
    }

    /// An image was unmounted.
    pub fn forget(&mut self, device: &str)
        ensures
            final(self).devices() == without(old(self).devices(), device@),
    {
        let ghost before = self.devices();
        let mut kept: Vec<String> = Vec::new();
        let mut i: usize = 0;
        assert(text::string_views(kept@) =~= without(before.take(0), device@));
        while i < self.0.len()
            invariant
                i <= self.0@.len(),
                before == self.devices(),
                text::string_views(kept@) == without(before.take(i as int), device@),
            decreases self.0@.len() - i,
        {
            assert(before[i as int] == self.0@[i as int]@);
            assert(before.take(i + 1).drop_last() =~= before.take(i as int));
            if !text::same_str(self.0[i].as_str(), device) {
                let ghost prior = kept@;
                let s = self.0[i].clone();
                kept.push(s);
                assert(text::string_views(kept@) =~= text::string_views(prior).push(s@));
            }
            i += 1;
        }
        assert(before.take(i as int) =~= before);
        self.0 = kept;
    }
}

/// A device that is unmounted is mounted no more; the others stay.
pub proof fn lemma_forgotten(devices: Seq<Seq<char>>, device: Seq<char>, other: Seq<char>)
    ensures
        !without(devices, device).contains(device),
        other != device ==> (without(devices, device).contains(other) <==> devices.contains(
            other,
        )),
    decreases devices.len(),
{
    if devices.len() > 0 {
        let rest = devices.drop_last();
        lemma_forgotten(rest, device, other);
        let w = without(rest, device);
        assert(devices =~= rest.push(devices.last()));
        assert forall|x: Seq<char>| devices.contains(x) <==> rest.contains(x) || x
            == devices.last() by {
            if rest.contains(x) {
                let k = choose|k: int| 0 <= k < rest.len() && rest[k] == x;
                assert(devices[k] == x);
            }
            if x == devices.last() {
                assert(devices[devices.len() - 1] == x);
            }
        }
        assert forall|x: Seq<char>| w.push(devices.last()).contains(x) <==> w.contains(x) || x
            == devices.last() by {
            if w.contains(x) {
                let k = choose|k: int| 0 <= k < w.len() && w[k] == x;
                assert(w.push(devices.last())[k] == x);
            }
            if x == devices.last() {
                assert(w.push(devices.last())[w.len() as int] == x);
            }
        }
    }
}

/// Unmounting undoes mounting: what is then mounted is what would be without
/// either.
pub proof fn lemma_unmount_undoes_mount(devices: Seq<Seq<char>>, device: Seq<char>)
    requires
        !devices.contains(device),
    ensures
        without(devices.push(device), device) == devices,
{
    assert(devices.push(device).drop_last() =~= devices);
    lemma_without_absent(devices, device);
}

proof fn lemma_without_absent(devices: Seq<Seq<char>>, device: Seq<char>)
    requires
        !devices.contains(device),
    ensures
        without(devices, device) == devices,
    decreases devices.len(),
{
    if devices.len() > 0 {
        assert(devices[devices.len() - 1] != device);
        assert(!devices.drop_last().contains(device)) by {
            if devices.drop_last().contains(device) {
                let k = choose|k: int|
                    0 <= k < devices.drop_last().len() && devices.drop_last()[k] == device;
                assert(devices[k] == device);
            }
        }
        lemma_without_absent(devices.drop_last(), device);
        assert(devices.drop_last().push(devices.last()) =~= devices);
    }
}

// ── Commands and what they give ──────────────────────────────────────────────

/// A command to run.
#[derive(PartialEq, Eq, Debug)]
pub struct Cmd {
    pub program: String,
    pub args: Vec<String>,
}

/// What a command holds.
pub struct CmdView {
    pub program: Seq<char>,
    pub args: Seq<Seq<char>>,
}

impl View for Cmd {
    type V = CmdView;

    open spec fn view(&self) -> CmdView {
        CmdView { program: self.program@, args: text::string_views(self.args@) }
    }
}

/// What a list of commands holds.
pub open spec fn cmd_views(v: Seq<Cmd>) -> Seq<CmdView> {
    v.map_values(|c: Cmd| c@)
}

/// What has happened.
#[derive(PartialEq, Eq, Debug)]
pub enum Event {
    /// The command ended: whether it succeeded, and what it wrote.
    Ended { success: bool, stdout: String, stderr: String },
    /// The command could not be run, for this reason.
    Failed(String),
    /// The names in the device directory.
    Devices(Vec<String>),
    /// The wait is over.
    Waited,
}

/// What an event holds.
pub enum EventView {
    Ended { success: bool, stdout: Seq<char>, stderr: Seq<char> },
    Failed(Seq<char>),
    Devices(Seq<Seq<char>>),
    Waited,
}

impl View for Event {
    type V = EventView;

    open spec fn view(&self) -> EventView {
        match self {
            Event::Ended { success, stdout, stderr } => EventView::Ended {
                success: *success,
                stdout: stdout@,
                stderr: stderr@,
            },
            Event::Failed(e) => EventView::Failed(e@),
            Event::Devices(v) => EventView::Devices(text::string_views(v@)),
            Event::Waited => EventView::Waited,
        }
    }
}

/// What a list of events holds.
pub open spec fn event_views(v: Seq<Event>) -> Seq<EventView> {
    v.map_values(|e: Event| e@)
}

impl EventView {
    /// Why the command could not be run, behind `label`; any event but the end
    /// of a command counts as that.
    pub open spec fn failure(self, label: Seq<char>) -> Option<Seq<char>> {
        match self {
            EventView::Ended { .. } => None,
            EventView::Failed(e) => Some(label + e),
            _ => Some(label),
        }
    }

    /// The command ended and succeeded.
    pub open spec fn success(self) -> bool {
        match self {
            EventView::Ended { success, .. } => success,
            _ => false,
        }
    }

    /// What the command wrote.
    pub open spec fn stdout(self) -> Seq<char> {
        match self {
            EventView::Ended { stdout, .. } => stdout,
            _ => Seq::empty(),
        }
    }

    /// What the command wrote of errors, without the white space around it.
    pub open spec fn complaint(self) -> Seq<char> {
        match self {
            EventView::Ended { stderr, .. } => text::trim(stderr),
            _ => Seq::empty(),
        }
    }

    /// The optical drives among the devices.
    pub open spec fn drives(self) -> Seq<Seq<char>> {
        match self {
            EventView::Devices(names) => drive_paths(names, names.len() as int),
            _ => Seq::empty(),
        }
    }
}

/// The paths of the optical drives among the first `n` names.
pub open spec fn drive_paths(names: Seq<Seq<char>>, n: int) -> Seq<Seq<char>>
    decreases n,
{
    if n <= 0 {
        Seq::empty()
    } else if text::starts_with(names[n - 1], "sr"@) {
        drive_paths(names, n - 1).push("/dev/"@ + names[n - 1])
    } else {
        drive_paths(names, n - 1)
    }
}

/// The paths of the optical drives among the names in the device directory.
pub fn sr_devices(names: &Vec<String>) -> (r: Vec<String>)
    ensures
        text::string_views(r@) == drive_paths(text::string_views(names@), names@.len() as int),
{
    let ghost ns = text::string_views(names@);
    let mut r: Vec<String> = Vec::new();
    let mut i: usize = 0;
    assert(text::string_views(r@) =~= Seq::empty());
    while i < names.len()
        invariant
            i <= names@.len(),
            ns == text::string_views(names@),
            text::string_views(r@) == drive_paths(ns, i as int),
        decreases names@.len() - i,
    {
        assert(ns[i as int] == names@[i as int]@);
        if text::str_begins(names[i].as_str(), "sr") {
            let ghost before = r@;
            let path = joined("/dev/", names[i].as_str());
            r.push(path);
            assert(text::string_views(r@) =~= text::string_views(before).push(path@));
        }
        i += 1;
    }
    r
}

fn joined(a: &str, b: &str) -> (r: String)
    ensures
        r@ == a@ + b@,
{
    let mut s = a.to_owned();
    s.append(b);
    s
}

impl Event {
    fn why_failed(&self, label: &str) -> (r: Option<String>)
        ensures
            text::opt_view(r) == self@.failure(label@),
    {
        match self {
            Event::Ended { .. } => None,
            Event::Failed(e) => Some(joined(label, e.as_str())),
            _ => Some(label.to_owned()),
        }
    }

    fn succeeded(&self) -> (r: bool)
        ensures
            r == self@.success(),
    {
        match self {
            Event::Ended { success, .. } => *success,
            _ => false,
        }
    }

    fn output(&self) -> (r: Vec<char>)
        ensures
            r@ == self@.stdout(),
    {
        match self {
            Event::Ended { stdout, .. } => text::chars_of(stdout.as_str()),
            _ => {
                let v: Vec<char> = Vec::new();
                assert(v@ =~= Seq::empty());
                v
            },
        }
    }

    fn complains(&self) -> (r: String)
        ensures
            r@ == self@.complaint(),
    {
        match self {
            Event::Ended { stderr, .. } => {
                let c = text::chars_of(stderr.as_str());
                let t = text::trimmed(c.as_slice());
                text::string_of(t.as_slice())
            },
            _ => {
                let s = String::new();
                assert(s@ =~= Seq::empty());
                s
            },
        }
    }

    fn found_drives(&self) -> (r: Vec<String>)
        ensures
            text::string_views(r@) == self@.drives(),
    {
        match self {
            Event::Devices(names) => sr_devices(names),
            _ => {
                let v: Vec<String> = Vec::new();
                assert(text::string_views(v@) =~= Seq::empty());
                v
            },
        }
    }
}

fn cmd(program: &str, a: &str, b: &str) -> (r: Cmd)
    ensures
        r@ == (CmdView { program: program@, args: seq![a@, b@] }),
{
    let mut args: Vec<String> = Vec::new();
    args.push(a.to_owned());
    args.push(b.to_owned());
    assert(text::string_views(args@) =~= seq![a@, b@]);
    Cmd { program: program.to_owned(), args }
}

fn cmd3(program: &str, a: &str, b: &str, c: &str) -> (r: Cmd)
    ensures
        r@ == (CmdView { program: program@, args: seq![a@, b@, c@] }),
{
    let mut args: Vec<String> = Vec::new();
    args.push(a.to_owned());
    args.push(b.to_owned());
    args.push(c.to_owned());
    assert(text::string_views(args@) =~= seq![a@, b@, c@]);
    Cmd { program: program.to_owned(), args }
}

fn cmd4(program: &str, a: &str, b: &str, c: &str, d: &str) -> (r: Cmd)
    ensures
        r@ == (CmdView { program: program@, args: seq![a@, b@, c@, d@] }),
{
    let mut args: Vec<String> = Vec::new();
    args.push(a.to_owned());
    args.push(b.to_owned());
    args.push(c.to_owned());
    args.push(d.to_owned());
    assert(text::string_views(args@) =~= seq![a@, b@, c@, d@]);
    Cmd { program: program.to_owned(), args }
}

// ── Mounting ─────────────────────────────────────────────────────────────────

/// What to do next.
#[derive(PartialEq, Eq, Debug)]
pub enum MountStep {
    /// Run a command.
    Run(Cmd),
    /// List the names in the device directory.
    ListDevices,
    /// Wait for so many milliseconds.
    Wait(u64),
    /// Nothing: this is the result.
    Done(Result<MountResult, String>),
}

/// What a step holds.
pub enum MountStepView {
    Run(CmdView),
    ListDevices,
    Wait(u64),
    Done(Result<MountView, Seq<char>>),
}

impl View for MountStep {
    type V = MountStepView;

    open spec fn view(&self) -> MountStepView {
        match self {
            MountStep::Run(c) => MountStepView::Run(c@),
            MountStep::ListDevices => MountStepView::ListDevices,
            MountStep::Wait(ms) => MountStepView::Wait(*ms),
            MountStep::Done(Ok(m)) => MountStepView::Done(Ok(m@)),
            MountStep::Done(Err(e)) => MountStepView::Done(Err(e@)),
        }
    }
}

/// The image was mounted.
pub open spec fn mounted(mount_point: Seq<char>, device: Seq<char>) -> MountStepView {
    MountStepView::Done(Ok(MountView { mount_point, device }))
}

/// The image was not mounted.
pub open spec fn refused(why: Seq<char>) -> MountStepView {
    MountStepView::Done(Err(why))
}

fn done(mount_point: String, device: String) -> (r: MountStep)
    ensures
        r@ == mounted(mount_point@, device@),
{
    MountStep::Done(Ok(MountResult { mount_point, device }))
}

fn refuse(why: &str) -> (r: MountStep)
    ensures
        r@ == refused(why@),
{
    MountStep::Done(Err(why.to_owned()))
}

// macOS

/// The device and the mount point in the first `n` lines of what `hdiutil`
/// wrote: those of the last line with a device, a type and a mount point,
/// parted by tabs.
pub open spec fn attached(lines: Seq<Seq<char>>, n: int) -> Option<(Seq<char>, Seq<char>)>
    decreases n,
{
    if n <= 0 {
        None
    } else {
        match text::outer_pieces(lines[n - 1], '\t') {
            Some((device, point)) => if text::trim(point).len() > 0 {
                Some((text::trim(device), text::trim(point)))
            } else {
                attached(lines, n - 1)
            },
            None => attached(lines, n - 1),
        }
    }
}

/// Mounting by `hdiutil`.
pub open spec fn mount_macos(path: Seq<char>, ev: Seq<EventView>) -> MountStepView {
    if ev.len() == 0 {
        MountStepView::Run(CmdView { program: "hdiutil"@, args: seq!["attach"@, path] })
    } else {
        let lines = text::lines(ev[0].stdout());
        match ev[0].failure("hdiutil failed: "@) {
            Some(why) => refused(why),
            None => if !ev[0].success() {
                refused(ev[0].complaint())
            } else {
                match attached(lines, lines.len() as int) {
                    Some((device, point)) => mounted(point, device),
                    None => refused("Could not determine mount point"@),
                }
            },
        }
    }
}

fn find_attached(output: &[char]) -> (r: Option<(String, String)>)
    ensures
        r is Some <==> attached(text::lines(output@), text::lines(output@).len() as int) is Some,
        r matches Some(p) ==> attached(text::lines(output@), text::lines(output@).len() as int)
            == Some((p.0@, p.1@)),
{
    let lines = text::split_lines(output);
    let ghost ls = text::lines(output@);
    assert(ls.len() == lines@.len());
    let mut n: usize = lines.len();
    while n > 0
        invariant
            n <= lines@.len(),
            ls == text::views(lines@),
            ls.len() == lines@.len(),
            attached(ls, ls.len() as int) == attached(ls, n as int),
            ls == text::lines(output@),
        decreases n,
    {
        assert(ls[n - 1] == lines@[n - 1]@);
        if let Some((device, point)) = text::split_outer(lines[n - 1].as_slice(), '\t') {
            let p = text::trimmed(point.as_slice());
            if p.len() > 0 {
                let d = text::trimmed(device.as_slice());
                return Some((text::string_of(d.as_slice()), text::string_of(p.as_slice())));
            }
        }
        n -= 1;
    }
    None
}

fn step_macos(path: &str, ev: &Vec<Event>) -> (r: MountStep)
    ensures
        r@ == mount_macos(path@, event_views(ev@)),
{
    if ev.len() == 0 {
        return MountStep::Run(cmd("hdiutil", "attach", path));
    }
    assert(event_views(ev@)[0] == ev@[0]@);
    if let Some(why) = ev[0].why_failed("hdiutil failed: ") {
        return MountStep::Done(Err(why));
    }
    if !ev[0].succeeded() {
        return MountStep::Done(Err(ev[0].complains()));
    }
    let out = ev[0].output();
    match find_attached(out.as_slice()) {
        Some((device, point)) => done(point, device),
        None => refuse("Could not determine mount point"),
    }
}

// Windows

/// The command that mounts an image.
pub open spec fn mount_script(path: Seq<char>) -> Seq<char> {
    "$d = Mount-DiskImage -ImagePath '"@ + text::doubled(path, '\'')
        + "' -PassThru; ($d | Get-Volume).DriveLetter"@
}

/// The command that unmounts an image.
pub open spec fn unmount_script(path: Seq<char>) -> Seq<char> {
    "Dismount-DiskImage -ImagePath '"@ + text::doubled(path, '\'') + "'"@
}

/// A PowerShell command.
pub open spec fn powershell(script: Seq<char>) -> CmdView {
    CmdView { program: "powershell"@, args: seq!["-NoProfile"@, "-Command"@, script] }
}

/// Mounting by `Mount-DiskImage`, which writes the letter of the drive.
pub open spec fn mount_windows(path: Seq<char>, ev: Seq<EventView>) -> MountStepView {
    if ev.len() == 0 {
        MountStepView::Run(powershell(mount_script(path)))
    } else {
        let letter = text::trim(ev[0].stdout());
        match ev[0].failure("Mount-DiskImage failed: "@) {
            Some(why) => refused(why),
            None => if !ev[0].success() {
                refused(ev[0].complaint())
            } else if letter.len() == 0 {
                refused("Could not determine drive letter"@)
            } else {
                mounted(letter + ":\\"@, path)
            },
        }
    }
}

fn script_of(before: &str, path: &str, after: &str) -> (r: String)
    ensures
        r@ == before@ + text::doubled(path@, '\'') + after@,
{
    let mut s = before.to_owned();
    let p = text::double_char(path, '\'');
    s.append(p.as_str());
    s.append(after);
    s
}

fn step_windows(path: &str, ev: &Vec<Event>) -> (r: MountStep)
    ensures
        r@ == mount_windows(path@, event_views(ev@)),
{
    if ev.len() == 0 {
        let script = script_of(
            "$d = Mount-DiskImage -ImagePath '",
            path,
            "' -PassThru; ($d | Get-Volume).DriveLetter",
        );
        return MountStep::Run(cmd3("powershell", "-NoProfile", "-Command", script.as_str()));
    }
    assert(event_views(ev@)[0] == ev@[0]@);
    if let Some(why) = ev[0].why_failed("Mount-DiskImage failed: ") {
        return MountStep::Done(Err(why));
    }
    if !ev[0].succeeded() {
        return MountStep::Done(Err(ev[0].complains()));
    }
    let letter = text::trimmed(ev[0].output().as_slice());
    if letter.len() == 0 {
        return refuse("Could not determine drive letter");
    }
    let mut point = text::string_of(letter.as_slice());
    point.append(":\\");
    done(point, path.to_owned())
}

// Linux

/// The image is in a format that only CDemu can mount, by its name in lower
/// case.
pub open spec fn needs_cdemu(lower: Seq<char>) -> bool {
    text::ends_with(lower, ".cue"@) || text::ends_with(lower, ".mds"@) || text::ends_with(
        lower,
        ".mdx"@,
    ) || text::ends_with(lower, ".nrg"@) || text::ends_with(lower, ".ccd"@) || text::ends_with(
        lower,
        ".toc"@,
    ) || text::ends_with(lower, ".b6t"@) || text::ends_with(lower, ".bwt"@) || text::ends_with(
        lower,
        ".c2d"@,
    ) || text::ends_with(lower, ".pdi"@) || text::ends_with(lower, ".gi"@) || text::ends_with(
        lower,
        ".daa"@,
    )
}

/// Whether an image is in a format that only CDemu can mount.
pub fn use_cdemu(lower: &str) -> (r: bool)
    ensures
        r == needs_cdemu(lower@),
{
    let c = text::chars_of(lower);
    let s = c.as_slice();
    text::ends(s, ".cue") || text::ends(s, ".mds") || text::ends(s, ".mdx") || text::ends(s, ".nrg")
        || text::ends(s, ".ccd") || text::ends(s, ".toc") || text::ends(s, ".b6t") || text::ends(
        s,
        ".bwt",
    ) || text::ends(s, ".c2d") || text::ends(s, ".pdi") || text::ends(s, ".gi") || text::ends(
        s,
        ".daa",
    )
}

/// The mount point in what `udisksctl mount` wrote, `Mounted ... at ....`
pub open spec fn point_in(output: Seq<char>) -> Seq<char> {
    text::trim_back(text::trim(text::second_piece(output, " at "@)), '.')
}

fn find_point(output: &[char]) -> (r: Vec<char>)
    ensures
        r@ == point_in(output@),
{
    let piece = text::piece_behind(output, " at ");
    let t = text::trimmed(piece.as_slice());
    text::trimmed_back(t.as_slice(), '.')
}

/// The slot in what `cdemu load` wrote: its last word, where that is a number
/// but for the full stops behind it; else slot 0.
pub open spec fn slot_in(output: Seq<char>) -> Seq<char> {
    match text::last_word(output) {
        Some(w) => if text::all_digits(text::trim_back(w, '.')) {
            text::trim_back(w, '.')
        } else {
            "0"@
        },
        None => "0"@,
    }
}

fn find_slot(output: &[char]) -> (r: String)
    ensures
        r@ == slot_in(output@),
{
    match text::find_last_word(output) {
        Some(w) => {
            let t = text::trimmed_back(w.as_slice(), '.');
            if text::only_digits(t.as_slice()) {
                text::string_of(t.as_slice())
            } else {
                "0".to_owned()
            }
        },
        None => "0".to_owned(),
    }
}

/// The first of the drives from `i` on that was not there before, or the
/// number of drives.
pub open spec fn new_drive(after: Seq<Seq<char>>, before: Seq<Seq<char>>, i: int) -> int
    decreases after.len() - i,
{
    if 0 <= i < after.len() && before.contains(after[i]) {
        new_drive(after, before, i + 1)
    } else {
        i
    }
}

fn is_among(list: &Vec<String>, s: &str) -> (r: bool)
    ensures
        r == text::string_views(list@).contains(s@),
{
    let ghost vs = text::string_views(list@);
    let mut i: usize = 0;
    while i < list.len()
        invariant
            i <= list@.len(),
            vs == text::string_views(list@),
            forall|k: int| 0 <= k < i ==> vs[k] != s@,
        decreases list@.len() - i,
    {
        assert(vs[i as int] == list@[i as int]@);
        if text::same_str(list[i].as_str(), s) {
            return true;
        }
        i += 1;
    }
    false
}

fn find_new_drive(after: &Vec<String>, before: &Vec<String>) -> (r: Option<String>)
    ensures
        ({
            let a = text::string_views(after@);
            let n = new_drive(a, text::string_views(before@), 0);
            &&& r is Some <==> n < a.len()
            &&& r matches Some(d) ==> d@ == a[n]
        }),
{
    let ghost a = text::string_views(after@);
    let ghost b = text::string_views(before@);
    let mut i: usize = 0;
    while i < after.len()
        invariant
            i <= after@.len(),
            a == text::string_views(after@),
            b == text::string_views(before@),
            new_drive(a, b, 0) == new_drive(a, b, i as int),
        decreases after@.len() - i,
    {
        assert(a[i as int] == after@[i as int]@);
        if !is_among(before, after[i].as_str()) {
            return Some(after[i].clone());
        }
        i += 1;
    }
    None
}

/// The key under which a drive of CDemu is kept: its slot and its path.
pub open spec fn cdemu_key(slot: Seq<char>, drive: Seq<char>) -> Seq<char> {
    "cdemu:"@ + slot + ":"@ + drive
}

/// The end of mounting by CDemu, where the mount point is known. Without one
/// the image is unloaded again, whatever comes of that.
pub open spec fn cdemu_end(
    slot: Seq<char>,
    drive: Seq<char>,
    point: Seq<char>,
    unloaded: bool,
) -> MountStepView {
    if point.len() > 0 {
        mounted(point, cdemu_key(slot, drive))
    } else if !unloaded {
        MountStepView::Run(CmdView { program: "cdemu"@, args: seq!["unload"@, slot] })
    } else {
        refused("CDemu: could not determine mount point"@)
    }
}

/// Mounting the new drive. Where that fails, the desktop may have mounted the
/// drive already, and is asked for the mount point.
pub open spec fn cdemu_drive(
    slot: Seq<char>,
    drive: Seq<char>,
    ev: Seq<EventView>,
) -> MountStepView {
    if ev.len() == 4 {
        MountStepView::Run(
            CmdView { program: "udisksctl"@, args: seq!["mount"@, "-b"@, drive] },
        )
    } else {
        match ev[4].failure("udisksctl mount failed: "@) {
            Some(why) => refused(why),
            None => if ev[4].success() {
                cdemu_end(slot, drive, point_in(ev[4].stdout()), ev.len() > 5)
            } else if ev.len() == 5 {
                MountStepView::Run(
                    CmdView { program: "lsblk"@, args: seq!["-no"@, "MOUNTPOINT"@, drive] },
                )
            } else {
                match ev[5].failure("lsblk failed: "@) {
                    Some(why) => refused(why),
                    None => cdemu_end(slot, drive, text::trim(ev[5].stdout()), ev.len() > 6),
                }
            },
        }
    }
}

/// Mounting by CDemu: the drives are listed, the image is loaded, the system
/// gets time to show the drive, and the drives are listed again. A drive that
/// was not there before is the image's.
pub open spec fn mount_cdemu(path: Seq<char>, ev: Seq<EventView>) -> MountStepView {
    let slot = slot_in(ev[1].stdout());
    let drives = ev[3].drives();
    let n = new_drive(drives, ev[0].drives(), 0);
    if ev.len() == 0 {
        MountStepView::ListDevices
    } else if ev.len() == 1 {
        MountStepView::Run(CmdView { program: "cdemu"@, args: seq!["load"@, "any"@, path] })
    } else {
        match ev[1].failure("cdemu load failed: "@) {
            Some(why) => refused(why),
            None => if !ev[1].success() {
                refused(ev[1].complaint())
            } else if ev.len() == 2 {
                MountStepView::Wait(1500)
            } else if ev.len() == 3 {
                MountStepView::ListDevices
            } else if n >= drives.len() {
                refused("CDemu: virtual drive did not appear as /dev/srN"@)
            } else {
                cdemu_drive(slot, drives[n], ev)
            },
        }
    }
}

fn end_cdemu(slot: &str, drive: &str, point: &[char], unloaded: bool) -> (r: MountStep)
    ensures
        r@ == cdemu_end(slot@, drive@, point@, unloaded),
{
    if point.len() > 0 {
        let mut key = joined("cdemu:", slot);
        key.append(":");
        key.append(drive);
        return done(text::string_of(point), key);
    }
    if !unloaded {
        return MountStep::Run(cmd("cdemu", "unload", slot));
    }
    refuse("CDemu: could not determine mount point")
}

fn step_cdemu_drive(slot: &str, drive: &str, ev: &Vec<Event>) -> (r: MountStep)
    requires
        ev@.len() >= 4,
    ensures
        r@ == cdemu_drive(slot@, drive@, event_views(ev@)),
{
    let ghost es = event_views(ev@);
    if ev.len() == 4 {
        return MountStep::Run(cmd3("udisksctl", "mount", "-b", drive));
    }
    assert(es[4] == ev@[4]@);
    if let Some(why) = ev[4].why_failed("udisksctl mount failed: ") {
        return MountStep::Done(Err(why));
    }
    if ev[4].succeeded() {
        let out = ev[4].output();
        let point = find_point(out.as_slice());
        return end_cdemu(slot, drive, point.as_slice(), ev.len() > 5);
    }
    if ev.len() == 5 {
        return MountStep::Run(cmd3("lsblk", "-no", "MOUNTPOINT", drive));
    }
    assert(es[5] == ev@[5]@);
    if let Some(why) = ev[5].why_failed("lsblk failed: ") {
        return MountStep::Done(Err(why));
    }
    let out = ev[5].output();
    let point = text::trimmed(out.as_slice());
    end_cdemu(slot, drive, point.as_slice(), ev.len() > 6)
}

fn step_cdemu(path: &str, ev: &Vec<Event>) -> (r: MountStep)
    ensures
        r@ == mount_cdemu(path@, event_views(ev@)),
{
    let ghost es = event_views(ev@);
    if ev.len() == 0 {
        return MountStep::ListDevices;
    }
    if ev.len() == 1 {
        return MountStep::Run(cmd3("cdemu", "load", "any", path));
    }
    assert(es[0] == ev@[0]@ && es[1] == ev@[1]@);
    if let Some(why) = ev[1].why_failed("cdemu load failed: ") {
        return MountStep::Done(Err(why));
    }
    if !ev[1].succeeded() {
        return MountStep::Done(Err(ev[1].complains()));
    }
    if ev.len() == 2 {
        return MountStep::Wait(1500);
    }
    if ev.len() == 3 {
        return MountStep::ListDevices;
    }
    assert(es[3] == ev@[3]@);
    let slot = find_slot(ev[1].output().as_slice());
    let before = ev[0].found_drives();
    let after = ev[3].found_drives();
    match find_new_drive(&after, &before) {
        None => refuse("CDemu: virtual drive did not appear as /dev/srN"),
        Some(drive) => step_cdemu_drive(slot.as_str(), drive.as_str(), ev),
    }
}

/// The loop device in what `udisksctl loop-setup` wrote, `Mapped file ... as
/// /dev/loop0.`
pub open spec fn loop_in(output: Seq<char>) -> Seq<char> {
    match text::last_word(output) {
        Some(w) => text::trim_back(w, '.'),
        None => Seq::empty(),
    }
}

fn find_loop(output: &[char]) -> (r: String)
    ensures
        r@ == loop_in(output@),
{
    match text::find_last_word(output) {
        Some(w) => {
            let t = text::trimmed_back(w.as_slice(), '.');
            text::string_of(t.as_slice())
        },
        None => {
            let s = String::new();
            assert(s@ =~= Seq::empty());
            s
        },
    }
}

/// Mounting through a loop device.
pub open spec fn mount_loop(path: Seq<char>, ev: Seq<EventView>) -> MountStepView {
    let device = loop_in(ev[0].stdout());
    let point = point_in(ev[1].stdout());
    if ev.len() == 0 {
        MountStepView::Run(
            CmdView { program: "udisksctl"@, args: seq!["loop-setup"@, "-f"@, path] },
        )
    } else {
        match ev[0].failure("udisksctl loop-setup failed: "@) {
            Some(why) => refused(why),
            None => if !ev[0].success() {
                refused(ev[0].complaint())
            } else if !text::starts_with(device, "/dev/loop"@) {
                refused("Unexpected loop-setup output: "@ + ev[0].stdout())
            } else if ev.len() == 1 {
                MountStepView::Run(
                    CmdView { program: "udisksctl"@, args: seq!["mount"@, "-b"@, device] },
                )
            } else {
                match ev[1].failure("udisksctl mount failed: "@) {
                    Some(why) => refused(why),
                    None => if !ev[1].success() {
                        refused(ev[1].complaint())
                    } else if point.len() == 0 {
                        refused("Could not determine mount point"@)
                    } else {
                        mounted(point, device)
                    },
                }
            },
        }
    }
}

fn step_loop(path: &str, ev: &Vec<Event>) -> (r: MountStep)
    ensures
        r@ == mount_loop(path@, event_views(ev@)),
{
    let ghost es = event_views(ev@);
    if ev.len() == 0 {
        return MountStep::Run(cmd3("udisksctl", "loop-setup", "-f", path));
    }
    assert(es[0] == ev@[0]@);
    if let Some(why) = ev[0].why_failed("udisksctl loop-setup failed: ") {
        return MountStep::Done(Err(why));
    }
    if !ev[0].succeeded() {
        return MountStep::Done(Err(ev[0].complains()));
    }
    let out = ev[0].output();
    let device = find_loop(out.as_slice());
    if !text::str_begins(device.as_str(), "/dev/loop") {
        let all = text::string_of(out.as_slice());
        return MountStep::Done(Err(joined("Unexpected loop-setup output: ", all.as_str())));
    }
    if ev.len() == 1 {
        return MountStep::Run(cmd3("udisksctl", "mount", "-b", device.as_str()));
    }
    assert(es[1] == ev@[1]@);
    if let Some(why) = ev[1].why_failed("udisksctl mount failed: ") {
        return MountStep::Done(Err(why));
    }
    if !ev[1].succeeded() {
        return MountStep::Done(Err(ev[1].complains()));
    }
    let point = find_point(ev[1].output().as_slice());
    if point.len() == 0 {
        return refuse("Could not determine mount point");
    }
    done(text::string_of(point.as_slice()), device)
}

/// Mounting an image: what to do next, after `ev`. `lower` is the path of the
/// image in lower case.
pub open spec fn mounting(
    platform: Platform,
    path: Seq<char>,
    lower: Seq<char>,
    ev: Seq<EventView>,
) -> MountStepView {
    match platform {
        Platform::MacOs => mount_macos(path, ev),
        Platform::Windows => mount_windows(path, ev),
        Platform::Linux => if needs_cdemu(lower) {
            mount_cdemu(path, ev)
        } else {
            mount_loop(path, ev)
        },
    }
}

/// Mounts an image: tells what to do next, after what has happened so far.
/// `lower` is the path of the image in lower case.
pub fn mount_next(platform: Platform, path: &str, lower: &str, ev: &Vec<Event>) -> (r: MountStep)
    ensures
        r@ == mounting(platform, path@, lower@, event_views(ev@)),
{
    match platform {
        Platform::MacOs => step_macos(path, ev),
        Platform::Windows => step_windows(path, ev),
        Platform::Linux => if use_cdemu(lower) {
            step_cdemu(path, ev)
        } else {
            step_loop(path, ev)
        },
    }
}

/// Mounts an image: tells what to do next, after what has happened so far. The
/// device of the result is to be registered.
pub fn mount_disc_image(platform: Platform, image_path: &str, ev: &Vec<Event>) -> (r: MountStep)
    ensures
        r@ == mounting(
            platform,
            image_path@,
            text::unicode_lower(image_path@),
            event_views(ev@),
        ),
{
    let lower = image_path.to_lowercase();
    mount_next(platform, image_path, lower.as_str(), ev)
}

// ── Unmounting ───────────────────────────────────────────────────────────────

/// What to do next.
#[derive(PartialEq, Eq, Debug)]
pub enum UnmountStep {
    /// Run a command.
    Run(Cmd),
    /// Nothing: this is the result.
    Done(Result<(), String>),
}

/// What a step holds.
pub enum UnmountStepView {
    Run(CmdView),
    Done(Result<(), Seq<char>>),
}

impl View for UnmountStep {
    type V = UnmountStepView;

    open spec fn view(&self) -> UnmountStepView {
        match self {
            UnmountStep::Run(c) => UnmountStepView::Run(c@),
            UnmountStep::Done(Ok(())) => UnmountStepView::Done(Ok(())),
            UnmountStep::Done(Err(e)) => UnmountStepView::Done(Err(e@)),
        }
    }
}

/// The slot and the path in the key of a drive of CDemu.
pub open spec fn key_parts(device: Seq<char>) -> (Seq<char>, Seq<char>) {
    let a = text::next(device, ':', 0);
    let b = text::next(device, ':', a + 1);
    if a >= device.len() {
        ("0"@, Seq::empty())
    } else if b >= device.len() {
        (device.skip(a + 1), Seq::empty())
    } else {
        (device.subrange(a + 1, b), device.skip(b + 1))
    }
}

fn read_key(device: &str) -> (r: (String, String))
    ensures
        (r.0@, r.1@) == key_parts(device@),
{
    let c = text::chars_of(device);
    let a: usize = text::find_from(c.as_slice(), ':', 0);
    if a >= c.len() {
        let e = String::new();
        assert(e@ =~= Seq::empty());
        return ("0".to_owned(), e);
    }
    let b: usize = text::find_from(c.as_slice(), ':', a + 1);
    if b >= c.len() {
        let slot = text::part(c.as_slice(), a + 1, c.len());
        assert(slot@ =~= c@.skip(a + 1));
        let e = String::new();
        assert(e@ =~= Seq::empty());
        return (text::string_of(slot.as_slice()), e);
    }
    let slot = text::part(c.as_slice(), a + 1, b);
    let path = text::part(c.as_slice(), b + 1, c.len());
    assert(path@ =~= c@.skip(b + 1));
    (text::string_of(slot.as_slice()), text::string_of(path.as_slice()))
}

/// The key of a drive of CDemu.
pub open spec fn is_cdemu(device: Seq<char>) -> bool {
    text::starts_with(device, "cdemu:"@)
}

/// The commands that free a device, in their order; what comes of any but the
/// last is passed over. `forced` lets `hdiutil` detach a device in use.
pub open spec fn release(platform: Platform, device: Seq<char>, forced: bool) -> Seq<CmdView> {
    let unmount = |d: Seq<char>|
        CmdView { program: "udisksctl"@, args: seq!["unmount"@, "-b"@, d] };
    match platform {
        Platform::MacOs => seq![
            CmdView {
                program: "hdiutil"@,
                args: if forced {
                    seq!["detach"@, device, "-quiet"@, "-force"@]
                } else {
                    seq!["detach"@, device, "-quiet"@]
                },
            },
        ],
        Platform::Windows => seq![powershell(unmount_script(device))],
        Platform::Linux => if is_cdemu(device) {
            seq![
                unmount(key_parts(device).1),
                CmdView { program: "cdemu"@, args: seq!["unload"@, key_parts(device).0] },
            ]
        } else {
            seq![
                unmount(device),
                CmdView { program: "udisksctl"@, args: seq!["loop-delete"@, "-b"@, device] },
            ]
        },
    }
}

/// Lists the commands that free a device, in their order.
pub fn release_commands(platform: Platform, device: &str, forced: bool) -> (r: Vec<Cmd>)
    ensures
        cmd_views(r@) == release(platform, device@, forced),
{
    let mut r: Vec<Cmd> = Vec::new();
    match platform {
        Platform::MacOs => {
            if forced {
                r.push(cmd4("hdiutil", "detach", device, "-quiet", "-force"));
            } else {
                r.push(cmd3("hdiutil", "detach", device, "-quiet"));
            }
        },
        Platform::Windows => {
            let script = script_of("Dismount-DiskImage -ImagePath '", device, "'");
            r.push(cmd3("powershell", "-NoProfile", "-Command", script.as_str()));
        },
        Platform::Linux => {
            if text::str_begins(device, "cdemu:") {
                let (slot, path) = read_key(device);
                r.push(cmd3("udisksctl", "unmount", "-b", path.as_str()));
                r.push(cmd("cdemu", "unload", slot.as_str()));
            } else {
                r.push(cmd3("udisksctl", "unmount", "-b", device));
                r.push(cmd3("udisksctl", "loop-delete", "-b", device));
            }
        },
    }
    assert(cmd_views(r@) =~= release(platform, device@, forced));
    r
}

/// What stands before the reason why the last command could not be run.
pub open spec fn release_label(platform: Platform, device: Seq<char>) -> Seq<char> {
    match platform {
        Platform::MacOs => "hdiutil detach failed: "@,
        Platform::Windows => "Dismount-DiskImage failed: "@,
        Platform::Linux => if is_cdemu(device) {
            "cdemu unload failed: "@
        } else {
            "udisksctl loop-delete failed: "@
        },
    }
}

fn label_of(platform: Platform, device: &str) -> (r: String)
    ensures
        r@ == release_label(platform, device@),
{
    match platform {
        Platform::MacOs => "hdiutil detach failed: ".to_owned(),
        Platform::Windows => "Dismount-DiskImage failed: ".to_owned(),
        Platform::Linux => if text::str_begins(device, "cdemu:") {
            "cdemu unload failed: ".to_owned()
        } else {
            "udisksctl loop-delete failed: ".to_owned()
        },
    }
}

/// Unmounting an image: what to do next, after `ev`.
pub open spec fn unmounting(
    platform: Platform,
    device: Seq<char>,
    ev: Seq<EventView>,
) -> UnmountStepView {
    let cmds = release(platform, device, false);
    let last = ev[cmds.len() - 1];
    if ev.len() < cmds.len() {
        UnmountStepView::Run(cmds[ev.len() as int])
    } else {
        match last.failure(release_label(platform, device)) {
            Some(why) => UnmountStepView::Done(Err(why)),
            None => if last.success() {
                UnmountStepView::Done(Ok(()))
            } else {
                UnmountStepView::Done(Err(last.complaint()))
            },
        }
    }
}

/// Unmounts an image: tells what to do next, after what has happened so far.
/// On success the device is to be forgotten.
pub fn unmount_disc_image(platform: Platform, device: &str, ev: &Vec<Event>) -> (r: UnmountStep)
    ensures
        r@ == unmounting(platform, device@, event_views(ev@)),
{
    let mut cmds = release_commands(platform, device, false);
    let ghost cs = release(platform, device@, false);
    assert(cs.len() == cmds@.len());
    assert(cs.len() >= 1);
    if ev.len() < cmds.len() {
        assert(cs[ev@.len() as int] == cmds@[ev@.len() as int]@);
        let c = cmds.swap_remove(ev.len());
        return UnmountStep::Run(c);
    }
    let n: usize = cmds.len() - 1;
    assert(event_views(ev@)[n as int] == ev@[n as int]@);
    let label = label_of(platform, device);
    if let Some(why) = ev[n].why_failed(label.as_str()) {
        return UnmountStep::Done(Err(why));
    }
    if ev[n].succeeded() {
        UnmountStep::Done(Ok(()))
    } else {
        UnmountStep::Done(Err(ev[n].complains()))
    }
}

/// The commands that free the first `n` devices.
pub open spec fn release_all(platform: Platform, devices: Seq<Seq<char>>, n: int) -> Seq<CmdView>
    decreases n,
{
    if n <= 0 {
        Seq::empty()
    } else {
        release_all(platform, devices, n - 1) + release(platform, devices[n - 1], true)
    }
}

/// Lists the commands that free all devices, when the program ends. What comes
/// of them is passed over.
pub fn detach_all(platform: Platform, devices: &Vec<String>) -> (r: Vec<Cmd>)
    ensures
        cmd_views(r@) == release_all(
            platform,
            text::string_views(devices@),
            devices@.len() as int,
        ),
{
    let ghost ds = text::string_views(devices@);
    let mut r: Vec<Cmd> = Vec::new();
    let mut i: usize = 0;
    assert(cmd_views(r@) =~= Seq::empty());
    while i < devices.len()
        invariant
            i <= devices@.len(),
            ds == text::string_views(devices@),
            cmd_views(r@) == release_all(platform, ds, i as int),
        decreases devices@.len() - i,
    {
        assert(ds[i as int] == devices@[i as int]@);
        let mut own = release_commands(platform, devices[i].as_str(), true);
        let ghost before = r@;
        let ghost more = own@;
        r.append(&mut own);
        assert(cmd_views(r@) =~= cmd_views(before) + cmd_views(more));
        i += 1;
    }
    r
}

/// The slot and the path of a drive of CDemu are found again in its key, where
/// the slot holds no colon.
pub proof fn lemma_key_reads_back(slot: Seq<char>, drive: Seq<char>)
    requires
        !slot.contains(':'),
    ensures
        is_cdemu(cdemu_key(slot, drive)),
        key_parts(cdemu_key(slot, drive)) == (slot, drive),
{
    reveal_strlit("cdemu:");
    reveal_strlit(":");
    let k = cdemu_key(slot, drive);
    let a = text::next(k, ':', 0);
    text::lemma_next(k, ':', 0);
    assert(k[5] == ':');
    assert(k[0] == 'c' && k[1] == 'd' && k[2] == 'e' && k[3] == 'm' && k[4] == 'u');
    assert(a == 5);
    let b = text::next(k, ':', 6);
    text::lemma_next(k, ':', 6);
    let m = 6 + slot.len() as int;
    assert(k[m] == ':');
    assert(b <= m);
    if b < m {
        assert(slot[b - 6] == k[b]);
        assert(slot.contains(':'));
    }
    assert(k.subrange(6, b) =~= slot);
    assert(k.skip(b + 1) =~= drive);
    assert(k.subrange(0, 6) =~= "cdemu:"@);
}

/// A slot that CDemu names can stand in a key.
pub proof fn lemma_slot_has_no_colon(output: Seq<char>)
    ensures
        !slot_in(output).contains(':'),
{
    reveal_strlit("0");
    let s = slot_in(output);
    if s.contains(':') {
        let k = choose|k: int| 0 <= k < s.len() && s[k] == ':';
        assert('0' <= s[k] <= '9');
    }
}

} // verus!
