//! Mounting and unmounting of images.
use crate::laws;
use crate::mount;
use crate::mount::{
    CmdView, EventView, MountStepView, MountView, Platform, UnmountStepView,
};
use crate::text;
use vstd::prelude::*;

verus! {

// ── What commands write ──────────────────────────────────────────────────────

/// A number of full stops.
pub open spec fn stops(n: nat) -> Seq<char> {
    Seq::new(n, |i: int| '.')
}

proof fn lemma_run_start(s: Seq<char>, c: char, i: int, j: int)
    requires
        0 <= i <= j <= s.len(),
        forall|k: int| i <= k < j ==> #[trigger] s[k] == c,
        i > 0 ==> s[i - 1] != c,
    ensures
        text::run_start(s, c, j) == i,
    decreases j - i,
{
    if i < j {
        assert(s[j - 1] == c);
        lemma_run_start(s, c, i, j - 1);
    }
}

proof fn lemma_stops(w: Seq<char>, n: nat)
    requires
        w.len() > 0 ==> w.last() != '.',
    ensures
        text::trim_back(w + stops(n), '.') == w,
{
    let s = w + stops(n);
    if w.len() > 0 {
        assert(s[w.len() - 1] == w.last());
    }
    lemma_run_start(s, '.', w.len() as int, s.len() as int);
    assert(s.take(w.len() as int) =~= w);
}

/// The device that `udisksctl loop-setup` tells is its last word, without the full
/// stops behind it.
pub proof fn lemma_loop(a: Seq<char>, device: Seq<char>, n: nat, b: Seq<char>)
    requires
        laws::text::is_word(device),
        device.last() != '.',
        a.len() > 0 ==> laws::text::is_white(a.last()),
        laws::text::all_white(b),
    ensures
        mount::loop_in(a + (device + stops(n)) + b) == device,
{
    let w = device + stops(n);
    lemma_word(device, n);
    laws::text::lemma_last_word(a, w, b);
    lemma_stops(device, n);
}

proof fn lemma_word(w: Seq<char>, n: nat)
    requires
        laws::text::is_word(w),
    ensures
        laws::text::is_word(w + stops(n)),
{
    let s = w + stops(n);
    assert forall|k: int| 0 <= k < s.len() implies !laws::text::is_white(#[trigger] s[k]) by {
        if k < w.len() {
            assert(s[k] == w[k]);
        }
    }
}

/// The slot that `cdemu load` tells is its last word, without the full stops behind
/// it, where that is a number; else it is slot 0.
pub proof fn lemma_slot(a: Seq<char>, w: Seq<char>, n: nat, b: Seq<char>)
    requires
        laws::text::is_word(w),
        w.last() != '.',
        a.len() > 0 ==> laws::text::is_white(a.last()),
        laws::text::all_white(b),
    ensures
        (forall|k: int| 0 <= k < w.len() ==> '0' <= #[trigger] w[k] <= '9') ==> mount::slot_in(
            a + (w + stops(n)) + b,
        ) == w,
        (exists|k: int| 0 <= k < w.len() && !('0' <= #[trigger] w[k] <= '9')) ==> mount::slot_in(
            a + (w + stops(n)) + b,
        ) == seq!['0'],
{
    reveal_strlit("0");
    assert("0"@ =~= seq!['0']);
    lemma_word(w, n);
    laws::text::lemma_last_word(a, w + stops(n), b);
    lemma_stops(w, n);
}

/// The word `at` between blanks.
pub open spec fn at() -> Seq<char> {
    seq![' ', 'a', 't', ' ']
}

/// The mount point that `udisksctl mount` tells stands behind ` at `, without the
/// white space and the full stops behind it.
pub proof fn lemma_point(a: Seq<char>, point: Seq<char>, n: nat, b: Seq<char>)
    requires
        point.len() > 0,
        !laws::text::is_white(point[0]),
        !laws::text::is_white(point.last()),
        point.last() != '.',
        laws::text::all_white(b),
        ({
            let s = a + at() + (point + stops(n) + b);
            forall|k: int|
                0 <= k < s.len() && k != a.len() ==> #[trigger] laws::text::absent(s, at(), k)
        }),
    ensures
        mount::point_in(a + at() + (point + stops(n) + b)) == point,
{
    let p = at();
    reveal_strlit(" at ");
    assert(" at "@ =~= p);
    let rest = point + stops(n) + b;
    let s = a + p + rest;
    let i = a.len() as int;
    assert(s.subrange(i, i + 4) =~= p);
    laws::text::lemma_second_piece(s, p, i, s.len() as int);
    assert(s.subrange(i + 4, s.len() as int) =~= rest);
    let w = point + stops(n);
    assert(w[0] == point[0]);
    assert(!laws::text::is_white(w.last()));
    assert(Seq::<char>::empty() + w + b =~= rest);
    laws::text::lemma_trim(Seq::empty(), w, b);
    lemma_stops(point, n);
}

/// `hdiutil attach` tells the device and the mount point in the last line that has
/// both, at line `k`: the first and the third piece between tabs.
pub proof fn lemma_attached(
    lines: Seq<Seq<char>>,
    k: int,
    device: Seq<char>,
    kind: Seq<char>,
    point: Seq<char>,
    n: int,
)
    requires
        0 <= k < n <= lines.len(),
        lines[k] == device + seq!['\t'] + kind + seq!['\t'] + point,
        laws::text::lacks(device, '\t'),
        laws::text::lacks(kind, '\t'),
        text::trim(point).len() > 0,
        forall|j: int|
            k < j < n ==> (text::outer_pieces(#[trigger] lines[j], '\t') matches Some(x)
                ==> text::trim(x.1).len() == 0),
    ensures
        mount::attached(lines, n) == Some((text::trim(device), text::trim(point))),
    decreases n,
{
    if n == k + 1 {
        laws::text::lemma_outer(device, kind, point, '\t');
    } else {
        assert(text::outer_pieces(lines[n - 1], '\t') matches Some(x) ==> text::trim(x.1).len()
            == 0);
        lemma_attached(lines, k, device, kind, point, n - 1);
    }
}

// ── Which way an image is mounted ────────────────────────────────────────────

/// The name closes with a full stop and these letters.
pub open spec fn is_dot3(s: Seq<char>, a: char, b: char, c: char) -> bool {
    laws::closes(s, seq!['.', a, b, c])
}

/// Images in these formats are mounted by CDemu, all others through a loop device.
pub proof fn lemma_formats(lower: Seq<char>)
    ensures
        mount::needs_cdemu(lower) <==> is_dot3(lower, 'c', 'u', 'e') || is_dot3(lower, 'm', 'd', 's')
            || is_dot3(lower, 'm', 'd', 'x') || is_dot3(lower, 'n', 'r', 'g') || is_dot3(
            lower,
            'c',
            'c',
            'd',
        ) || is_dot3(lower, 't', 'o', 'c') || is_dot3(lower, 'b', '6', 't') || is_dot3(
            lower,
            'b',
            'w',
            't',
        ) || is_dot3(lower, 'c', '2', 'd') || is_dot3(lower, 'p', 'd', 'i') || laws::closes(
            lower,
            seq!['.', 'g', 'i'],
        ) || is_dot3(lower, 'd', 'a', 'a'),
{
    reveal_strlit(".cue");
    reveal_strlit(".mds");
    reveal_strlit(".mdx");
    reveal_strlit(".nrg");
    reveal_strlit(".ccd");
    reveal_strlit(".toc");
    reveal_strlit(".b6t");
    reveal_strlit(".bwt");
    reveal_strlit(".c2d");
    reveal_strlit(".pdi");
    reveal_strlit(".gi");
    reveal_strlit(".daa");
    assert(".cue"@ =~= seq!['.', 'c', 'u', 'e']);
    assert(".mds"@ =~= seq!['.', 'm', 'd', 's']);
    assert(".mdx"@ =~= seq!['.', 'm', 'd', 'x']);
    assert(".nrg"@ =~= seq!['.', 'n', 'r', 'g']);
    assert(".ccd"@ =~= seq!['.', 'c', 'c', 'd']);
    assert(".toc"@ =~= seq!['.', 't', 'o', 'c']);
    assert(".b6t"@ =~= seq!['.', 'b', '6', 't']);
    assert(".bwt"@ =~= seq!['.', 'b', 'w', 't']);
    assert(".c2d"@ =~= seq!['.', 'c', '2', 'd']);
    assert(".pdi"@ =~= seq!['.', 'p', 'd', 'i']);
    assert(".gi"@ =~= seq!['.', 'g', 'i']);
    assert(".daa"@ =~= seq!['.', 'd', 'a', 'a']);
    laws::lemma_closes(lower, ".cue"@);
    laws::lemma_closes(lower, ".mds"@);
    laws::lemma_closes(lower, ".mdx"@);
    laws::lemma_closes(lower, ".nrg"@);
    laws::lemma_closes(lower, ".ccd"@);
    laws::lemma_closes(lower, ".toc"@);
    laws::lemma_closes(lower, ".b6t"@);
    laws::lemma_closes(lower, ".bwt"@);
    laws::lemma_closes(lower, ".c2d"@);
    laws::lemma_closes(lower, ".pdi"@);
    laws::lemma_closes(lower, ".gi"@);
    laws::lemma_closes(lower, ".daa"@);
}

// ── From start to end ────────────────────────────────────────────────────────

/// The command ended well, and wrote this.
pub open spec fn wrote(e: EventView, s: Seq<char>) -> bool {
    e matches EventView::Ended { success, stdout, .. } && success && stdout == s
}

/// The command ended badly, and complained about this.
pub open spec fn complained(e: EventView, s: Seq<char>) -> bool {
    e matches EventView::Ended { success, stderr, .. } && !success && stderr == s
}

/// An image is mounted through a loop device: the device is set up, and then mounted;
/// it is unmounted by the same device.
pub proof fn lemma_loop_mount(
    path: Seq<char>,
    lower: Seq<char>,
    ev: Seq<EventView>,
    out: Seq<char>,
    device: Seq<char>,
    out2: Seq<char>,
    point: Seq<char>,
)
    requires
        !mount::needs_cdemu(lower),
        ev.len() == 2,
        wrote(ev[0], out),
        mount::loop_in(out) == device,
        laws::opens(device, seq!['/', 'd', 'e', 'v', '/', 'l', 'o', 'o', 'p']),
        wrote(ev[1], out2),
        mount::point_in(out2) == point,
        point.len() > 0,
    ensures
        mount::mounting(Platform::Linux, path, lower, ev.take(0)) == MountStepView::Run(
            CmdView { program: "udisksctl"@, args: seq!["loop-setup"@, "-f"@, path] },
        ),
        mount::mounting(Platform::Linux, path, lower, ev.take(1)) == MountStepView::Run(
            CmdView { program: "udisksctl"@, args: seq!["mount"@, "-b"@, device] },
        ),
        mount::mounting(Platform::Linux, path, lower, ev) == MountStepView::Done(
            Ok(MountView { mount_point: point, device }),
        ),
        mount::release(Platform::Linux, device, false) == seq![
            (CmdView { program: "udisksctl"@, args: seq!["unmount"@, "-b"@, device] }),
            (CmdView { program: "udisksctl"@, args: seq!["loop-delete"@, "-b"@, device] }),
        ],
{
    reveal_strlit("/dev/loop");
    let p = seq!['/', 'd', 'e', 'v', '/', 'l', 'o', 'o', 'p'];
    assert("/dev/loop"@ =~= p);
    laws::lemma_opens(device, p);
    assert(ev.take(1)[0] == ev[0]);
    lemma_not_cdemu(device);
}

proof fn lemma_not_cdemu(device: Seq<char>)
    requires
        device.len() > 0,
        device[0] == '/',
    ensures
        !mount::is_cdemu(device),
{
    reveal_strlit("cdemu:");
    let c = seq!['c', 'd', 'e', 'm', 'u', ':'];
    assert("cdemu:"@ =~= c);
    laws::lemma_opens(device, c);
    assert(laws::opens(device, c) ==> device[0] == c[0]);
}

/// What goes wrong on the way through a loop device is told.
pub proof fn lemma_loop_fails(path: Seq<char>, lower: Seq<char>, ev: Seq<EventView>, why: Seq<char>)
    requires
        !mount::needs_cdemu(lower),
        ev.len() > 0,
    ensures
        ev[0] == EventView::Failed(why) ==> mount::mounting(Platform::Linux, path, lower, ev)
            == MountStepView::Done(Err("udisksctl loop-setup failed: "@ + why)),
        complained(ev[0], why) ==> mount::mounting(Platform::Linux, path, lower, ev)
            == MountStepView::Done(Err(text::trim(why))),
        wrote(ev[0], why) && !laws::opens(
            mount::loop_in(why),
            seq!['/', 'd', 'e', 'v', '/', 'l', 'o', 'o', 'p'],
        ) ==> mount::mounting(Platform::Linux, path, lower, ev) == MountStepView::Done(
            Err("Unexpected loop-setup output: "@ + why),
        ),
        ev.len() > 1 && wrote(ev[0], ev[0].stdout()) && laws::opens(
            mount::loop_in(ev[0].stdout()),
            seq!['/', 'd', 'e', 'v', '/', 'l', 'o', 'o', 'p'],
        ) ==> {
            &&& ev[1] == EventView::Failed(why) ==> mount::mounting(
                Platform::Linux,
                path,
                lower,
                ev,
            ) == MountStepView::Done(Err("udisksctl mount failed: "@ + why))
            &&& complained(ev[1], why) ==> mount::mounting(Platform::Linux, path, lower, ev)
                == MountStepView::Done(Err(text::trim(why)))
            &&& wrote(ev[1], why) && mount::point_in(why).len() == 0 ==> mount::mounting(
                Platform::Linux,
                path,
                lower,
                ev,
            ) == MountStepView::Done(Err("Could not determine mount point"@))
        },
{
    reveal_strlit("/dev/loop");
    let p = seq!['/', 'd', 'e', 'v', '/', 'l', 'o', 'o', 'p'];
    assert("/dev/loop"@ =~= p);
    laws::lemma_opens(mount::loop_in(ev[0].stdout()), p);
}

/// An image is mounted by `hdiutil`, and detached by the device that it told.
pub proof fn lemma_macos_mount(
    path: Seq<char>,
    lower: Seq<char>,
    ev: Seq<EventView>,
    out: Seq<char>,
    device: Seq<char>,
    point: Seq<char>,
    why: Seq<char>,
)
    requires
        ev.len() == 1,
    ensures
        mount::mounting(Platform::MacOs, path, lower, ev.take(0)) == MountStepView::Run(
            CmdView { program: "hdiutil"@, args: seq!["attach"@, path] },
        ),
        wrote(ev[0], out) && mount::attached(text::lines(out), text::lines(out).len() as int)
            == Some((device, point)) ==> mount::mounting(Platform::MacOs, path, lower, ev)
            == MountStepView::Done(Ok(MountView { mount_point: point, device })),
        wrote(ev[0], out) && mount::attached(text::lines(out), text::lines(out).len() as int) is None
            ==> mount::mounting(Platform::MacOs, path, lower, ev) == MountStepView::Done(
            Err("Could not determine mount point"@),
        ),
        complained(ev[0], why) ==> mount::mounting(Platform::MacOs, path, lower, ev)
            == MountStepView::Done(Err(text::trim(why))),
        ev[0] == EventView::Failed(why) ==> mount::mounting(Platform::MacOs, path, lower, ev)
            == MountStepView::Done(Err("hdiutil failed: "@ + why)),
        mount::release(Platform::MacOs, device, false) == seq![
            (CmdView { program: "hdiutil"@, args: seq!["detach"@, device, "-quiet"@] }),
        ],
        mount::release(Platform::MacOs, device, true) == seq![
            (CmdView { program: "hdiutil"@, args: seq!["detach"@, device, "-quiet"@, "-force"@] }),
        ],
{
}

/// An image is mounted by PowerShell, its path within single quotes and those in it
/// doubled; it has the letter of the drive, and is unmounted by its path.
pub proof fn lemma_windows_mount(
    path: Seq<char>,
    lower: Seq<char>,
    ev: Seq<EventView>,
    letter: Seq<char>,
    a: Seq<char>,
    b: Seq<char>,
    why: Seq<char>,
)
    requires
        ev.len() == 1,
        laws::text::all_white(a),
        laws::text::all_white(b),
        letter.len() > 0,
        !laws::text::is_white(letter[0]),
        !laws::text::is_white(letter.last()),
    ensures
        mount::mounting(Platform::Windows, path, lower, ev.take(0)) == MountStepView::Run(
            CmdView {
                program: "powershell"@,
                args: seq![
                    "-NoProfile"@,
                    "-Command"@,
                    "$d = Mount-DiskImage -ImagePath '"@ + text::doubled(path, '\'')
                        + "' -PassThru; ($d | Get-Volume).DriveLetter"@,
                ],
            },
        ),
        wrote(ev[0], a + letter + b) ==> mount::mounting(Platform::Windows, path, lower, ev)
            == MountStepView::Done(
            Ok(MountView { mount_point: letter + seq![':', '\\'], device: path }),
        ),
        wrote(ev[0], a) ==> mount::mounting(Platform::Windows, path, lower, ev)
            == MountStepView::Done(Err("Could not determine drive letter"@)),
        complained(ev[0], why) ==> mount::mounting(Platform::Windows, path, lower, ev)
            == MountStepView::Done(Err(text::trim(why))),
        ev[0] == EventView::Failed(why) ==> mount::mounting(Platform::Windows, path, lower, ev)
            == MountStepView::Done(Err("Mount-DiskImage failed: "@ + why)),
        mount::release(Platform::Windows, path, false) == seq![
            (CmdView {
                program: "powershell"@,
                args: seq![
                    "-NoProfile"@,
                    "-Command"@,
                    "Dismount-DiskImage -ImagePath '"@ + text::doubled(path, '\'') + "'"@,
                ],
            }),
        ],
{
    reveal_strlit(":\\");
    assert(":\\"@ =~= seq![':', '\\']);
    laws::text::lemma_trim(a, letter, b);
    laws::text::lemma_trim(a, Seq::empty(), Seq::empty());
    assert(a + Seq::<char>::empty() + Seq::<char>::empty() =~= a);
}

// ── CDemu ────────────────────────────────────────────────────────────────────

/// The name of an optical drive.
pub open spec fn is_drive(name: Seq<char>) -> bool {
    laws::opens(name, seq!['s', 'r'])
}

/// The paths are those of the names `of`: all of the first `n` that are of an optical
/// drive, in their order, below `/dev`.
pub open spec fn are_paths(
    names: Seq<Seq<char>>,
    n: int,
    paths: Seq<Seq<char>>,
    of: Seq<int>,
) -> bool {
    &&& paths.len() == of.len()
    &&& forall|k: int|
        0 <= k < of.len() ==> 0 <= #[trigger] of[k] < n && is_drive(names[of[k]]) && paths[k]
            == seq!['/', 'd', 'e', 'v', '/'] + names[of[k]]
    &&& forall|j: int, k: int| 0 <= j < k < of.len() ==> of[j] < of[k]
    &&& forall|i: int| 0 <= i < n && is_drive(#[trigger] names[i]) ==> of.contains(i)
}

/// The optical drives among the devices.
pub proof fn lemma_drives(names: Seq<Seq<char>>, n: int) -> (of: Seq<int>)
    requires
        0 <= n <= names.len(),
    ensures
        are_paths(names, n, mount::drive_paths(names, n), of),
    decreases n,
{
    if n == 0 {
        Seq::empty()
    } else {
        let of = lemma_drives(names, n - 1);
        reveal_strlit("sr");
        reveal_strlit("/dev/");
        assert("sr"@ =~= seq!['s', 'r']);
        assert("/dev/"@ =~= seq!['/', 'd', 'e', 'v', '/']);
        laws::lemma_opens(names[n - 1], seq!['s', 'r']);
        if is_drive(names[n - 1]) {
            let next = of.push(n - 1);
            assert forall|i: int| 0 <= i < n && is_drive(#[trigger] names[i]) implies next.contains(
            i) by {
                if i == n - 1 {
                    assert(next[of.len() as int] == i);
                } else {
                    let k = choose|k: int| 0 <= k < of.len() && of[k] == i;
                    assert(next[k] == i);
                }
            }
            next
        } else {
            of
        }
    }
}

proof fn lemma_new(after: Seq<Seq<char>>, before: Seq<Seq<char>>, i: int, k: int)
    requires
        0 <= i <= k <= after.len(),
        forall|j: int| i <= j < k ==> before.contains(#[trigger] after[j]),
        k < after.len() ==> !before.contains(after[k]),
    ensures
        mount::new_drive(after, before, i) == k,
    decreases k - i,
{
    if i < k {
        assert(before.contains(after[i]));
        lemma_new(after, before, i + 1, k);
    }
}

/// The steps up to the new drive: the drives are listed, the image is loaded, time
/// passes, and the drives are listed again.
pub proof fn lemma_cdemu_load(path: Seq<char>, lower: Seq<char>, ev: Seq<EventView>, why: Seq<char>)
    requires
        mount::needs_cdemu(lower),
    ensures
        ev.len() == 0 ==> mount::mounting(Platform::Linux, path, lower, ev)
            == MountStepView::ListDevices,
        ev.len() == 1 ==> mount::mounting(Platform::Linux, path, lower, ev) == MountStepView::Run(
            CmdView { program: "cdemu"@, args: seq!["load"@, "any"@, path] },
        ),
        ev.len() > 1 && ev[1] == EventView::Failed(why) ==> mount::mounting(
            Platform::Linux,
            path,
            lower,
            ev,
        ) == MountStepView::Done(Err("cdemu load failed: "@ + why)),
        ev.len() > 1 && complained(ev[1], why) ==> mount::mounting(Platform::Linux, path, lower, ev)
            == MountStepView::Done(Err(text::trim(why))),
        ev.len() == 2 && wrote(ev[1], why) ==> mount::mounting(Platform::Linux, path, lower, ev)
            == MountStepView::Wait(1500),
        ev.len() == 3 && wrote(ev[1], why) ==> mount::mounting(Platform::Linux, path, lower, ev)
            == MountStepView::ListDevices,
{
}

/// The drive of the image is the first one that was not there before; it is mounted,
/// and the image has the mount point that was told. It is kept under its slot and its
/// drive.
pub proof fn lemma_cdemu_mount(
    path: Seq<char>,
    lower: Seq<char>,
    ev: Seq<EventView>,
    before: Seq<Seq<char>>,
    after: Seq<Seq<char>>,
    out: Seq<char>,
    k: int,
)
    requires
        mount::needs_cdemu(lower),
        ev.len() >= 4,
        ev[0] == EventView::Devices(before),
        wrote(ev[1], out),
        ev[3] == EventView::Devices(after),
        ({
            let old_paths = mount::drive_paths(before, before.len() as int);
            let paths = mount::drive_paths(after, after.len() as int);
            &&& 0 <= k <= paths.len()
            &&& forall|j: int| 0 <= j < k ==> old_paths.contains(#[trigger] paths[j])
            &&& k < paths.len() ==> !old_paths.contains(paths[k])
        }),
    ensures
        ({
            let paths = mount::drive_paths(after, after.len() as int);
            let drive = paths[k];
            let slot = mount::slot_in(out);
            let key = seq!['c', 'd', 'e', 'm', 'u', ':'] + slot + seq![':'] + drive;
            let next = mount::mounting(Platform::Linux, path, lower, ev);
            &&& k == paths.len() ==> next == MountStepView::Done(
                Err("CDemu: virtual drive did not appear as /dev/srN"@),
            )
            &&& k < paths.len() && ev.len() == 4 ==> next == MountStepView::Run(
                CmdView { program: "udisksctl"@, args: seq!["mount"@, "-b"@, drive] },
            )
            &&& k < paths.len() && ev.len() > 4 ==> {
                &&& ev[4] matches EventView::Failed(why) ==> next == MountStepView::Done(
                    Err("udisksctl mount failed: "@ + why),
                )
                &&& wrote(ev[4], ev[4].stdout()) && mount::point_in(ev[4].stdout()).len() > 0
                    ==> next == MountStepView::Done(
                    Ok(MountView { mount_point: mount::point_in(ev[4].stdout()), device: key }),
                )
                &&& wrote(ev[4], ev[4].stdout()) && mount::point_in(ev[4].stdout()).len() == 0 ==> {
                    &&& ev.len() == 5 ==> next == MountStepView::Run(
                        CmdView { program: "cdemu"@, args: seq!["unload"@, slot] },
                    )
                    &&& ev.len() > 5 ==> next == MountStepView::Done(
                        Err("CDemu: could not determine mount point"@),
                    )
                }
                &&& (ev[4] is Ended && !ev[4].success()) ==> {
                    &&& ev.len() == 5 ==> next == MountStepView::Run(
                        CmdView { program: "lsblk"@, args: seq!["-no"@, "MOUNTPOINT"@, drive] },
                    )
                    &&& ev.len() > 5 && ev[5] is Ended && text::trim(
                        ev[5].stdout(),
                    ).len() > 0 ==> next == MountStepView::Done(
                        Ok(MountView { mount_point: text::trim(ev[5].stdout()), device: key }),
                    )
                    &&& ev.len() == 6 && ev[5] is Ended && text::trim(
                        ev[5].stdout(),
                    ).len() == 0 ==> next == MountStepView::Run(
                        CmdView { program: "cdemu"@, args: seq!["unload"@, slot] },
                    )
                    &&& ev.len() > 6 && ev[5] is Ended && text::trim(
                        ev[5].stdout(),
                    ).len() == 0 ==> next == MountStepView::Done(
                        Err("CDemu: could not determine mount point"@),
                    )
                }
            }
        }),
{
    reveal_strlit("cdemu:");
    reveal_strlit(":");
    assert("cdemu:"@ =~= seq!['c', 'd', 'e', 'm', 'u', ':']);
    assert(":"@ =~= seq![':']);
    let old_paths = mount::drive_paths(before, before.len() as int);
    let paths = mount::drive_paths(after, after.len() as int);
    lemma_new(paths, old_paths, 0, k);
    assert(ev[3].drives() == paths);
    assert(ev[0].drives() == old_paths);
    assert(ev[1].stdout() == out);
}

/// What CDemu mounted is unmounted by its drive, and unloaded by its slot.
pub proof fn lemma_cdemu_unmount(slot: Seq<char>, drive: Seq<char>, forced: bool)
    requires
        laws::text::lacks(slot, ':'),
    ensures
        mount::release(
            Platform::Linux,
            seq!['c', 'd', 'e', 'm', 'u', ':'] + slot + seq![':'] + drive,
            forced,
        ) == seq![
            (CmdView { program: "udisksctl"@, args: seq!["unmount"@, "-b"@, drive] }),
            (CmdView { program: "cdemu"@, args: seq!["unload"@, slot] }),
        ],
{
    let c = seq!['c', 'd', 'e', 'm', 'u', ':'];
    reveal_strlit("cdemu:");
    assert("cdemu:"@ =~= c);
    let key = c + slot + seq![':'] + drive;
    laws::lemma_opens(key, c);
    assert forall|k: int| 0 <= k < c.len() implies #[trigger] key[k] == c[k] by {}
    assert(key[5] == ':');
    lemma_colon(key, 0, 5);
    let b = 6 + slot.len() as int;
    assert(key[b] == ':');
    assert forall|k: int| 6 <= k < b implies #[trigger] key[k] != ':' by {
        assert(key[k] == slot[k - 6]);
    }
    lemma_colon(key, 6, b);
    assert(key.subrange(6, b) =~= slot);
    assert(key.skip(b + 1) =~= drive);
}

proof fn lemma_colon(s: Seq<char>, i: int, j: int)
    requires
        0 <= i <= j < s.len(),
        forall|k: int| i <= k < j ==> #[trigger] s[k] != ':',
        s[j] == ':',
    ensures
        text::next(s, ':', i) == j,
    decreases j - i,
{
    if i < j {
        assert(s[i] != ':');
        lemma_colon(s, i + 1, j);
    }
}

// ── Unmounting ───────────────────────────────────────────────────────────────

/// The commands that free a device are run one after another, and the last one decides.
pub proof fn lemma_unmount(
    platform: Platform,
    device: Seq<char>,
    ev: Seq<EventView>,
    why: Seq<char>,
)
    ensures
        ({
            let cmds = mount::release(platform, device, false);
            let next = mount::unmounting(platform, device, ev);
            let last = ev[cmds.len() - 1];
            &&& cmds.len() >= 1
            &&& ev.len() < cmds.len() ==> next == UnmountStepView::Run(cmds[ev.len() as int])
            &&& ev.len() >= cmds.len() && wrote(last, why) ==> next == UnmountStepView::Done(Ok(()))
            &&& ev.len() >= cmds.len() && complained(last, why) ==> next == UnmountStepView::Done(
                Err(text::trim(why)),
            )
            &&& ev.len() >= cmds.len() && last == EventView::Failed(why) ==> next
                == UnmountStepView::Done(
                Err(
                    (match platform {
                        Platform::MacOs => "hdiutil detach failed: "@,
                        Platform::Windows => "Dismount-DiskImage failed: "@,
                        Platform::Linux => if laws::opens(
                            device,
                            seq!['c', 'd', 'e', 'm', 'u', ':'],
                        ) {
                            "cdemu unload failed: "@
                        } else {
                            "udisksctl loop-delete failed: "@
                        },
                    }) + why,
                ),
            )
        }),
{
    let c = seq!['c', 'd', 'e', 'm', 'u', ':'];
    reveal_strlit("cdemu:");
    assert("cdemu:"@ =~= c);
    laws::lemma_opens(device, c);
}

/// When the program ends, all devices are freed in the order in which they were
/// mounted, by force where that can be had.
pub proof fn lemma_detach_all(platform: Platform, devices: Seq<Seq<char>>, device: Seq<char>)
    ensures
        mount::release_all(platform, Seq::empty(), 0) == Seq::<CmdView>::empty(),
        mount::release_all(platform, devices.push(device), devices.len() as int + 1)
            == mount::release_all(platform, devices, devices.len() as int) + mount::release(
            platform,
            device,
            true,
        ),
{
    let all = devices.push(device);
    lemma_same_prefix(platform, all, devices, devices.len() as int);
    assert(all[devices.len() as int] == device);
}

proof fn lemma_same_prefix(
    platform: Platform,
    a: Seq<Seq<char>>,
    b: Seq<Seq<char>>,
    n: int,
)
    requires
        0 <= n <= a.len(),
        n <= b.len(),
        forall|k: int| 0 <= k < n ==> #[trigger] a[k] == b[k],
    ensures
        mount::release_all(platform, a, n) == mount::release_all(platform, b, n),
    decreases n,
{
    if n > 0 {
        assert(a[n - 1] == b[n - 1]);
        lemma_same_prefix(platform, a, b, n - 1);
    }
}

/// A device that is unmounted is no longer among those that are mounted, and all others
/// are, in their order.
pub proof fn lemma_forgotten(a: Seq<Seq<char>>, b: Seq<Seq<char>>, device: Seq<char>)
    ensures
        mount::without(a + b, device) == mount::without(a, device) + mount::without(b, device),
        mount::without(seq![device], device) == Seq::<Seq<char>>::empty(),
        !a.contains(device) ==> mount::without(a, device) == a,
    decreases a.len() + b.len(),
{
    reveal_with_fuel(mount::without, 2);
    assert(seq![device].drop_last() =~= Seq::<Seq<char>>::empty());
    if b.len() == 0 {
        assert(a + b =~= a);
        assert(mount::without(a, device) + mount::without(b, device) =~= mount::without(a, device));
        if a.len() > 0 {
            lemma_forgotten(a.drop_last(), Seq::empty(), device);
            if !a.contains(device) {
                assert(a[a.len() - 1] == a.last());
                assert(!a.drop_last().contains(device)) by {
                    if a.drop_last().contains(device) {
                        let k = choose|k: int|
                            0 <= k < a.drop_last().len() && a.drop_last()[k] == device;
                        assert(a[k] == device);
                    }
                }
                assert(a.drop_last().push(a.last()) =~= a);
            }
        }
    } else {
        assert((a + b).drop_last() =~= a + b.drop_last());
        assert((a + b).last() == b.last());
        lemma_forgotten(a, b.drop_last(), device);
        assert(mount::without(a + b, device) =~= mount::without(a, device) + mount::without(
            b,
            device,
        ));
    }
}

} // verus!
