//! Directories and drives.
use crate::calendar;
use crate::drives;
use crate::drives::DriveNodeView;
use crate::laws;
use crate::listing;
use crate::listing::{DiscEntryView, HostEntryView, IsoItemView};
use crate::sort;
use crate::text;
use vstd::prelude::*;

verus! {

// ── Directories of a volume ──────────────────────────────────────────────────

/// The name of the directory itself or of its parent: a zero or a one, or one or two
/// full stops.
pub open spec fn is_dot(name: Seq<char>) -> bool {
    ||| name.len() == 1 && (name[0] as int == 0 || name[0] as int == 1 || name[0] == '.')
    ||| name.len() == 2 && name[0] == '.' && name[1] == '.'
}

proof fn lemma_dot(name: Seq<char>)
    ensures
        listing::is_dot_name(name) == is_dot(name),
{
    reveal_strlit("\0");
    reveal_strlit("\x01");
    reveal_strlit(".");
    reveal_strlit("..");
    assert("\0"@ =~= seq!['\0']);
    assert("\x01"@ =~= seq!['\x01']);
    assert("."@ =~= seq!['.']);
    assert(".."@ =~= seq!['.', '.']);
    if is_dot(name) {
        if name.len() == 2 {
            assert(name =~= ".."@);
        } else if name[0] == '.' {
            assert(name =~= "."@);
        } else if name[0] as int == 0 {
            assert(name =~= "\0"@);
        } else {
            assert(name =~= "\x01"@);
        }
    }
}

/// Record `i` is listed: it is not the directory itself or its parent, and no record
/// before it has both its name and its first sector.
pub open spec fn is_new(items: Seq<IsoItemView>, i: int) -> bool {
    &&& !is_dot(items[i].name)
    &&& forall|j: int|
        0 <= j < i ==> (#[trigger] items[j]).name != items[i].name || items[j].lba != items[i].lba
}

/// `e` shows a record; a directory is shown without a size.
pub open spec fn shows(item: IsoItemView, e: DiscEntryView) -> bool {
    &&& e.name == item.name
    &&& e.is_dir == item.is_dir
    &&& e.lba == item.lba
    &&& item.is_dir ==> e.size == 0
    &&& !item.is_dir ==> e.size == item.size
    &&& e.size_bytes == item.size_bytes
    &&& e.modified == calendar::stamp_text(item.time)
}

/// The entries show the records `of`: all of the first `n` that are listed, in their
/// order.
pub open spec fn are_shown(
    items: Seq<IsoItemView>,
    n: int,
    entries: Seq<DiscEntryView>,
    of: Seq<int>,
) -> bool {
    &&& entries.len() == of.len()
    &&& forall|k: int|
        0 <= k < of.len() ==> 0 <= #[trigger] of[k] < n && is_new(items, of[k]) && shows(
            items[of[k]],
            entries[k],
        )
    &&& forall|j: int, k: int| 0 <= j < k < of.len() ==> of[j] < of[k]
    &&& forall|i: int| 0 <= i < n && #[trigger] is_new(items, i) ==> of.contains(i)
}

/// A directory of a volume shows each of its records once, in their order, but the
/// directory itself and its parent.
pub proof fn lemma_listed(items: Seq<IsoItemView>, n: int) -> (of: Seq<int>)
    requires
        0 <= n <= items.len(),
    ensures
        are_shown(items, n, listing::listed(items, n), of),
    decreases n,
{
    if n == 0 {
        Seq::empty()
    } else {
        let of = lemma_listed(items, n - 1);
        lemma_dot(items[n - 1].name);
        if listing::is_listed(items, n - 1) {
            assert(is_new(items, n - 1));
            let next = of.push(n - 1);
            assert forall|i: int| 0 <= i < n && #[trigger] is_new(items, i) implies next.contains(
            i) by {
                if i == n - 1 {
                    assert(next[of.len() as int] == i);
                } else {
                    let k = choose|k: int| 0 <= k < of.len() && of[k] == i;
                    assert(next[k] == i);
                }
            }
            next
        } else {
            assert(!is_new(items, n - 1)) by {
                if listing::seen_before(items, n - 1) {
                    let j = choose|j: int|
                        0 <= j < n - 1 && (#[trigger] items[j]).name == items[n - 1].name
                            && items[j].lba == items[n - 1].lba;
                    assert(items[j].name == items[n - 1].name);
                }
            }
            of
        }
    }
}

// ── Directories of the host ──────────────────────────────────────────────────

/// An entry of the host as it is shown: without a sector; a directory without a size,
/// a file with the lowest 32 bits of its length; the time where it is known.
pub proof fn lemma_host_entry(e: HostEntryView)
    ensures
        ({
            let s = listing::host_entry(e);
            &&& s.name == e.name
            &&& s.is_dir == e.is_dir
            &&& s.lba == 0
            &&& e.is_dir ==> s.size == 0
            &&& !e.is_dir && e.len <= u32::MAX ==> s.size == e.len
            &&& s.size_bytes == s.size
            &&& e.modified is None ==> s.modified.len() == 0
            &&& e.modified matches Some(secs) ==> s.modified == calendar::stamp_text(
                calendar::date_of(secs),
            )
        }),
{
}

/// `a` comes before `b`: at the first place where they differ it has the smaller
/// character, or it ends there.
pub open spec fn sorts_before(a: Seq<char>, b: Seq<char>) -> bool {
    exists|i: int|
        {
            &&& 0 <= i <= a.len()
            &&& i < b.len()
            &&& forall|k: int| 0 <= k < i ==> #[trigger] a[k] == b[k]
            &&& #[trigger] differs(a, b, i)
        }
}

/// `a` ends at `i`, or has a smaller character there.
pub open spec fn differs(a: Seq<char>, b: Seq<char>, i: int) -> bool {
    i == a.len() || (a[i] as int) < (b[i] as int)
}

proof fn lemma_lex(a: Seq<u32>, b: Seq<u32>, i: int) -> (j: int)
    requires
        0 <= i <= a.len(),
        i <= b.len(),
        sort::lex_lt(a, b, i),
    ensures
        i <= j <= a.len(),
        j < b.len(),
        forall|k: int| i <= k < j ==> #[trigger] a[k] == b[k],
        j == a.len() || a[j] < b[j],
    decreases b.len() - i,
{
    if i < a.len() && a[i] == b[i] {
        let j = lemma_lex(a, b, i + 1);
        j
    } else {
        i
    }
}

proof fn lemma_char(c: char)
    ensures
        (c as u32) as int == c as int,
{
}

proof fn lemma_key_order(x: bool, a: Seq<char>, y: bool, b: Seq<char>)
    ensures
        sort::lex_lt(listing::entry_key(x, a), listing::entry_key(y, b), 0) ==> (x && !y) || (x == y
            && sorts_before(a, b)),
        listing::entry_key(x, a) == listing::entry_key(y, b) ==> x == y && a == b,
{
    let p = listing::entry_key(x, a);
    let q = listing::entry_key(y, b);
    assert(p.len() == a.len() + 1 && q.len() == b.len() + 1);
    assert forall|k: int| 0 <= k < a.len() implies #[trigger] p[k + 1] == a[k] as u32 by {}
    assert forall|k: int| 0 <= k < b.len() implies #[trigger] q[k + 1] == b[k] as u32 by {}
    if sort::lex_lt(p, q, 0) {
        let j = lemma_lex(p, q, 0);
        if j > 0 {
            assert(p[0] == q[0]);
            assert forall|k: int| 0 <= k < j - 1 implies #[trigger] a[k] == b[k] by {
                assert(p[k + 1] == q[k + 1]);
                lemma_char(a[k]);
                lemma_char(b[k]);
            }
            if j < p.len() {
                assert(p[j - 1 + 1] == a[j - 1] as u32 && q[j - 1 + 1] == b[j - 1] as u32);
                lemma_char(a[j - 1]);
                lemma_char(b[j - 1]);
            }
            assert(differs(a, b, j - 1));
            assert(sorts_before(a, b));
        }
    }
    if p == q {
        assert(p[0] == q[0]);
        assert(a.len() == b.len());
        assert forall|k: int| 0 <= k < a.len() implies a[k] == b[k] by {
            assert(p[k + 1] == q[k + 1]);
            lemma_char(a[k]);
            lemma_char(b[k]);
        }
        assert(a =~= b);
    }
}

/// Entry `x` is shown before entry `y`: a directory before a file, else by the names
/// in lower case, and in the order of the directory where those are equal.
pub open spec fn shown_before(
    entries: Seq<DiscEntryView>,
    lower: Seq<Seq<char>>,
    x: int,
    y: int,
) -> bool {
    ||| entries[x].is_dir && !entries[y].is_dir
    ||| entries[x].is_dir == entries[y].is_dir && sorts_before(lower[x], lower[y])
    ||| entries[x].is_dir == entries[y].is_dir && lower[x] == lower[y] && x < y
}

/// A list of entries is sorted without loss: it shows the entries `of`, each of them
/// once, each before those that come behind it.
pub proof fn lemma_sorted(entries: Seq<DiscEntryView>, lower: Seq<Seq<char>>) -> (of: Seq<int>)
    requires
        entries.len() == lower.len() <= usize::MAX,
    ensures
        ({
            let out = listing::in_order(entries, lower);
            &&& out.len() == entries.len()
            &&& of.len() == out.len()
            &&& forall|k: int|
                0 <= k < of.len() ==> 0 <= #[trigger] of[k] < entries.len() && out[k]
                    == entries[of[k]]
            &&& forall|x: int| 0 <= x < entries.len() ==> #[trigger] of.contains(x)
            &&& forall|j: int, k: int|
                #![trigger of[j], of[k]]
                0 <= j < k < of.len() ==> shown_before(entries, lower, of[j], of[k])
        }),
{
    let keys = listing::entry_keys(entries, lower);
    let order = sort::the_order(keys);
    sort::lemma_stable_order_exists(keys);
    let of = Seq::new(order.len(), |k: int| order[k] as int);
    assert forall|x: int| 0 <= x < entries.len() implies #[trigger] of.contains(x) by {
        assert(order.contains(x as usize));
        let k = choose|k: int| 0 <= k < order.len() && order[k] == x as usize;
        assert(of[k] == x);
    }
    assert forall|k: int| 0 <= k < of.len() implies 0 <= #[trigger] of[k] < entries.len()
        && listing::in_order(entries, lower)[k] == entries[of[k]] by {
        assert(order[k] < keys.len());
    }
    assert forall|j: int, k: int|
        #![trigger of[j], of[k]]
        0 <= j < k < of.len() implies shown_before(entries, lower, of[j], of[k]) by {
        let x = order[j] as int;
        let y = order[k] as int;
        assert(sort::comes_before(keys, order[j] as int, order[k] as int));
        lemma_key_order(entries[x].is_dir, lower[x], entries[y].is_dir, lower[y]);
    }
    of
}

/// The path of an entry below the root: without the slashes that it begins with, and
/// with all others.
pub proof fn lemma_below(n: nat, rest: Seq<char>)
    requires
        rest.len() > 0 ==> rest[0] != '/',
    ensures
        text::trim_front(Seq::new(n, |i: int| '/') + rest, '/') == rest,
{
    let s = Seq::new(n, |i: int| '/') + rest;
    lemma_run(s, '/', 0, n as int);
    assert(s.skip(n as int) =~= rest);
}

proof fn lemma_run(s: Seq<char>, c: char, i: int, j: int)
    requires
        0 <= i <= j <= s.len(),
        forall|k: int| i <= k < j ==> #[trigger] s[k] == c,
        j < s.len() ==> s[j] != c,
    ensures
        text::run_end(s, c, i) == j,
    decreases j - i,
{
    if i < j {
        assert(s[i] == c);
        lemma_run(s, c, i + 1, j);
    }
}

// ── Drives ───────────────────────────────────────────────────────────────────

/// A line names the volume `v`: it stands behind `Volume Name:`, and is not one of the
/// words for none.
pub open spec fn names_volume(line: Seq<char>, v: Seq<char>) -> bool {
    let t = text::trim(line);
    &&& laws::opens(t, seq!['V', 'o', 'l', 'u', 'm', 'e', ' ', 'N', 'a', 'm', 'e', ':'])
    &&& v == text::trim(t.skip(12))
    &&& v.len() > 0
    &&& v != seq!['N', 'o', 't', ' ', 'a', 'p', 'p', 'l', 'i', 'c', 'a', 'b', 'l', 'e']
    &&& v != seq!['(', 'n', 'u', 'l', 'l', ')']
}

proof fn lemma_line(line: Seq<char>, v: Seq<char>)
    ensures
        names_volume(line, v) <==> drives::volume_in_line(line) == Some(v),
{
    reveal_strlit("Volume Name:");
    reveal_strlit("Not applicable");
    reveal_strlit("(null)");
    let p = seq!['V', 'o', 'l', 'u', 'm', 'e', ' ', 'N', 'a', 'm', 'e', ':'];
    assert("Volume Name:"@ =~= p);
    assert("Not applicable"@ =~= seq![
        'N',
        'o',
        't',
        ' ',
        'a',
        'p',
        'p',
        'l',
        'i',
        'c',
        'a',
        'b',
        'l',
        'e',
    ]);
    assert("(null)"@ =~= seq!['(', 'n', 'u', 'l', 'l', ')']);
    laws::lemma_opens(text::trim(line), p);
}

proof fn lemma_volume_from(lines: Seq<Seq<char>>, i: int, k: int, v: Seq<char>)
    requires
        0 <= i <= k <= lines.len(),
        forall|j: int, w: Seq<char>| i <= j < k ==> !#[trigger] names_volume(lines[j], w),
        k < lines.len() ==> names_volume(lines[k], v),
    ensures
        k < lines.len() ==> drives::volume_in(lines, i) == Some(v),
        k == lines.len() ==> drives::volume_in(lines, i) is None,
    decreases k - i,
{
    if i < k {
        match drives::volume_in_line(lines[i]) {
            Some(w) => {
                lemma_line(lines[i], w);
            },
            None => {},
        }
        lemma_volume_from(lines, i + 1, k, v);
    } else if k < lines.len() {
        lemma_line(lines[k], v);
    }
}

/// The volume in a drive is the one that the first line names that names one; without
/// such a line there is no disc.
pub proof fn lemma_volume(s: Seq<char>, k: int, v: Seq<char>, node: DriveNodeView)
    requires
        ({
            let lines = text::lines(s);
            &&& 0 <= k <= lines.len()
            &&& forall|j: int, w: Seq<char>| 0 <= j < k ==> !#[trigger] names_volume(lines[j], w)
            &&& k < lines.len() ==> names_volume(lines[k], v)
        }),
    ensures
        ({
            let d = drives::drive_info(node, Some(s));
            &&& d.name == node.name
            &&& d.device_path == node.device_path
            &&& k < text::lines(s).len() ==> d.has_disc && d.volume_name == Some(v)
            &&& k == text::lines(s).len() ==> !d.has_disc && d.volume_name is None
        }),
        !drives::drive_info(node, None).has_disc,
{
    lemma_volume_from(text::lines(s), 0, k, v);
}

/// A drive has a name and a device: the burner's node where it is given, else the
/// burning device, else the BSD name, below `/dev`.
pub proof fn lemma_drive(
    name: Option<Seq<char>>,
    a: Option<Seq<char>>,
    b: Option<Seq<char>>,
    c: Option<Seq<char>>,
)
    ensures
        ({
            let d = drives::drive_node(name, a, b, c);
            &&& d is Some <==> name is Some && (a is Some || b is Some || c is Some)
            &&& d matches Some(x) ==> {
                &&& name == Some(x.name)
                &&& x.device_path.len() >= 5
                &&& laws::opens(x.device_path, seq!['/', 'd', 'e', 'v', '/'])
                &&& a is Some ==> x.device_path.skip(5) == a->0
                &&& a is None && b is Some ==> x.device_path.skip(5) == b->0
                &&& a is None && b is None ==> x.device_path.skip(5) == c->0
            }
        }),
{
    reveal_strlit("/dev/");
    assert("/dev/"@ =~= seq!['/', 'd', 'e', 'v', '/']);
    if let Some(x) = drives::drive_node(name, a, b, c) {
        let node = if a is Some {
            a->0
        } else if b is Some {
            b->0
        } else {
            c->0
        };
        assert(x.device_path == "/dev/"@ + node);
        assert(x.device_path.skip(5) =~= node);
    }
}

/// The drives are the items `of`: all of the first `n` that are drives, in their order.
pub open spec fn are_drives(data: Seq<u8>, n: int, out: Seq<DriveNodeView>, of: Seq<int>) -> bool {
    &&& out.len() == of.len()
    &&& forall|k: int|
        0 <= k < of.len() ==> 0 <= #[trigger] of[k] < n && drives::drive_at(data, of[k]) == Some(
            out[k],
        )
    &&& forall|j: int, k: int| 0 <= j < k < of.len() ==> of[j] < of[k]
    &&& forall|i: int| 0 <= i < n && #[trigger] drives::drive_at(data, i) is Some ==> of.contains(i)
}

/// All drives of the profiler's list are listed.
pub proof fn lemma_drives(data: Seq<u8>, n: int) -> (of: Seq<int>)
    requires
        0 <= n,
    ensures
        are_drives(data, n, drives::drives_in(data, n), of),
    decreases n,
{
    if n == 0 {
        Seq::empty()
    } else {
        let of = lemma_drives(data, n - 1);
        match drives::drive_at(data, n - 1) {
            Some(d) => {
                let next = of.push(n - 1);
                assert forall|i: int|
                    0 <= i < n && #[trigger] drives::drive_at(data, i) is Some implies next.contains(
                i) by {
                    if i == n - 1 {
                        assert(next[of.len() as int] == i);
                    } else {
                        let k = choose|k: int| 0 <= k < of.len() && of[k] == i;
                        assert(next[k] == i);
                    }
                }
                next
            },
            None => of,
        }
    }
}

} // verus!
