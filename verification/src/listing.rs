//! The entries of a directory, on a disc or on the host.
use crate::calendar;
use crate::calendar::Stamp;
use crate::error::DiscError;
use crate::sort;
use crate::text;
use vstd::prelude::*;

verus! {

/// An entry of a directory, as it is listed to the user.
#[derive(PartialEq, Eq, Debug)]
pub struct DiscEntry {
    pub name: String,
    pub is_dir: bool,
    pub lba: u32,
    pub size: u32,
    pub size_bytes: u32,
    pub modified: String,
}

/// What an entry holds.
pub struct DiscEntryView {
    pub name: Seq<char>,
    pub is_dir: bool,
    pub lba: u32,
    pub size: u32,
    pub size_bytes: u32,
    pub modified: Seq<char>,
}

impl View for DiscEntry {
    type V = DiscEntryView;

    open spec fn view(&self) -> DiscEntryView {
        DiscEntryView {
            name: self.name@,
            is_dir: self.is_dir,
            lba: self.lba,
            size: self.size,
            size_bytes: self.size_bytes,
            modified: self.modified@,
        }
    }
}

/// What a list of entries holds.
pub open spec fn entry_views(v: Seq<DiscEntry>) -> Seq<DiscEntryView> {
    v.map_values(|e: DiscEntry| e@)
}

fn copy_entry(e: &DiscEntry) -> (r: DiscEntry)
    ensures
        r == *e,
{
    DiscEntry {
        name: e.name.clone(),
        is_dir: e.is_dir,
        lba: e.lba,
        size: e.size,
        size_bytes: e.size_bytes,
        modified: e.modified.clone(),
    }
}

// ── Paths ────────────────────────────────────────────────────────────────────

/// The path of a file below the root of a directory tree: without the slashes
/// that it begins with.
pub fn file_below(path: &str) -> (r: String)
    ensures
        r@ == text::trim_front(path@, '/'),
{
    let c = text::chars_of(path);
    let t = text::trimmed_front(c.as_slice(), '/');
    text::string_of(t.as_slice())
}

/// The path of a directory below the root of a directory tree: `None` for the
/// root, which is `/`.
pub fn directory_below(path: &str) -> (r: Option<String>)
    ensures
        r is None <==> path@ == "/"@,
        r matches Some(s) ==> s@ == text::trim_front(path@, '/'),
{
    if text::same_str(path, "/") {
        None
    } else {
        Some(file_below(path))
    }
}

// ── A directory of an ISO 9660 volume ────────────────────────────────────────

/// What stands at a path of a volume.
#[derive(Clone, Copy, PartialEq, Eq, Structural, Debug)]
pub enum Found {
    File,
    Directory,
    Nothing,
}

/// Whether a directory stands at a path.
pub fn expect_directory(found: Found) -> (r: Result<(), DiscError>)
    ensures
        r is Ok <==> found is Directory,
        found is File <==> r == Err::<(), DiscError>(DiscError::NotADirectory),
        found is Nothing <==> r == Err::<(), DiscError>(DiscError::DirectoryMissing),
{
    match found {
        Found::Directory => Ok(()),
        Found::File => Err(DiscError::NotADirectory),
        Found::Nothing => Err(DiscError::DirectoryMissing),
    }
}

/// Whether a file stands at a path.
pub fn expect_file(found: Found) -> (r: Result<(), DiscError>)
    ensures
        r is Ok <==> found is File,
        found is Directory <==> r == Err::<(), DiscError>(DiscError::NotAFile),
        found is Nothing <==> r == Err::<(), DiscError>(DiscError::FileMissing),
{
    match found {
        Found::File => Ok(()),
        Found::Directory => Err(DiscError::NotAFile),
        Found::Nothing => Err(DiscError::FileMissing),
    }
}

/// A record of a directory.
#[derive(PartialEq, Eq, Debug)]
pub struct IsoItem {
    pub name: String,
    pub is_dir: bool,
    /// First sector.
    pub lba: u32,
    /// Length of the extent.
    pub size_bytes: u32,
    /// Length of the file.
    pub size: u32,
    pub time: Stamp,
}

/// What a record holds.
pub struct IsoItemView {
    pub name: Seq<char>,
    pub is_dir: bool,
    pub lba: u32,
    pub size_bytes: u32,
    pub size: u32,
    pub time: Stamp,
}

impl View for IsoItem {
    type V = IsoItemView;

    open spec fn view(&self) -> IsoItemView {
        IsoItemView {
            name: self.name@,
            is_dir: self.is_dir,
            lba: self.lba,
            size_bytes: self.size_bytes,
            size: self.size,
            time: self.time,
        }
    }
}

/// What a list of records holds.
pub open spec fn item_views(v: Seq<IsoItem>) -> Seq<IsoItemView> {
    v.map_values(|e: IsoItem| e@)
}

/// The name of the directory itself or of its parent.
pub open spec fn is_dot_name(name: Seq<char>) -> bool {
    name == "\0"@ || name == "\x01"@ || name == "."@ || name == ".."@
}

/// Whether a name is that of the directory itself or of its parent.
pub fn dot_name(name: &str) -> (r: bool)
    ensures
        r == is_dot_name(name@),
{
    text::same_str(name, "\0") || text::same_str(name, "\x01") || text::same_str(name, ".")
        || text::same_str(name, "..")
}

/// An item with the name and the first sector of item `i` comes before it.
pub open spec fn seen_before(items: Seq<IsoItemView>, i: int) -> bool {
    exists|j: int|
        0 <= j < i && (#[trigger] items[j]).name == items[i].name && items[j].lba == items[i].lba
}

/// Item `i` is listed: it is neither the directory itself nor its parent, and
/// not a repetition.
pub open spec fn is_listed(items: Seq<IsoItemView>, i: int) -> bool {
    !is_dot_name(items[i].name) && !seen_before(items, i)
}

/// A record, as it is listed. A directory has no size.
pub open spec fn item_entry(item: IsoItemView) -> DiscEntryView {
    DiscEntryView {
        name: item.name,
        is_dir: item.is_dir,
        lba: item.lba,
        size: if item.is_dir {
            0
        } else {
            item.size
        },
        size_bytes: item.size_bytes,
        modified: calendar::stamp_text(item.time),
    }
}

/// The first `n` records, as they are listed.
pub open spec fn listed(items: Seq<IsoItemView>, n: int) -> Seq<DiscEntryView>
    decreases n,
{
    if n <= 0 {
        Seq::empty()
    } else if is_listed(items, n - 1) {
        listed(items, n - 1).push(item_entry(items[n - 1]))
    } else {
        listed(items, n - 1)
    }
}

fn repeated(items: &Vec<IsoItem>, i: usize) -> (r: bool)
    requires
        i < items@.len(),
    ensures
        r == seen_before(item_views(items@), i as int),
{
    let ghost vs = item_views(items@);
    let mut j: usize = 0;
    while j < i
        invariant
            j <= i < items@.len(),
            vs == item_views(items@),
            forall|k: int|
                0 <= k < j ==> !((#[trigger] vs[k]).name == vs[i as int].name && vs[k].lba
                    == vs[i as int].lba),
        decreases i - j,
    {
        assert(vs[j as int] == items@[j as int]@ && vs[i as int] == items@[i as int]@);
        if items[j].lba == items[i].lba && text::same_str(
            items[j].name.as_str(),
            items[i].name.as_str(),
        ) {
            return true;
        }
        j += 1;
    }
    false
}

/// Lists the records of a directory, in their order.
pub fn collect_entries(items: &Vec<IsoItem>) -> (r: Vec<DiscEntry>)
    ensures
        entry_views(r@) == listed(item_views(items@), items@.len() as int),
{
    let ghost vs = item_views(items@);
    let mut out: Vec<DiscEntry> = Vec::new();
    let mut i: usize = 0;
    assert(entry_views(out@) =~= Seq::empty());
    while i < items.len()
        invariant
            i <= items@.len(),
            vs == item_views(items@),
            entry_views(out@) == listed(vs, i as int),
        decreases items@.len() - i,
    {
        assert(vs[i as int] == items@[i as int]@);
        let item = &items[i];
        if !dot_name(item.name.as_str()) && !repeated(items, i) {
            let size: u32 = if item.is_dir {
                0
            } else {
                item.size
            };
            let e = DiscEntry {
                name: item.name.clone(),
                is_dir: item.is_dir,
                lba: item.lba,
                size,
                size_bytes: item.size_bytes,
                modified: calendar::format_stamp(item.time),
            };
            let ghost before = out@;
            out.push(e);
            assert(entry_views(out@) =~= entry_views(before).push(e@));
        }
        i += 1;
    }
    out
}

/// No entry is listed twice.
pub proof fn lemma_entries_differ(items: Seq<IsoItemView>, n: int, a: int, b: int)
    requires
        0 <= n <= items.len(),
        0 <= a < b < listed(items, n).len(),
    ensures
        listed(items, n)[a].name != listed(items, n)[b].name || listed(items, n)[a].lba != listed(
            items,
            n,
        )[b].lba,
    decreases n,
{
    if b < listed(items, n - 1).len() {
        lemma_entries_differ(items, n - 1, a, b);
    } else {
        let j = lemma_entry_has_item(items, n - 1, a);
        assert(items[j].name == listed(items, n)[a].name);
    }
}

proof fn lemma_entry_has_item(items: Seq<IsoItemView>, n: int, a: int) -> (j: int)
    requires
        0 <= n <= items.len(),
        0 <= a < listed(items, n).len(),
    ensures
        0 <= j < n,
        listed(items, n)[a] == item_entry(items[j]),
        is_listed(items, j),
    decreases n,
{
    if a < listed(items, n - 1).len() {
        lemma_entry_has_item(items, n - 1, a)
    } else {
        n - 1
    }
}

/// Every record but the directory itself and its parent has an entry.
pub proof fn lemma_item_has_entry(items: Seq<IsoItemView>, n: int, j: int) -> (a: int)
    requires
        0 <= j < n <= items.len(),
        !is_dot_name(items[j].name),
    ensures
        0 <= a < listed(items, n).len(),
        listed(items, n)[a].name == items[j].name,
        listed(items, n)[a].lba == items[j].lba,
    decreases n, j,
{
    if j < n - 1 {
        lemma_item_has_entry(items, n - 1, j)
    } else if !seen_before(items, j) {
        listed(items, n - 1).len() as int
    } else {
        let k = choose|k: int|
            0 <= k < j && (#[trigger] items[k]).name == items[j].name && items[k].lba
                == items[j].lba;
        lemma_item_has_entry(items, n - 1, k)
    }
}

// ── A directory of the host ──────────────────────────────────────────────────

/// An entry of a directory of the host.
#[derive(PartialEq, Eq, Debug)]
pub struct HostEntry {
    pub name: String,
    pub is_dir: bool,
    pub len: u64,
    /// Seconds since 1970-01-01 00:00:00; `None` where they are not known.
    pub modified: Option<u64>,
}

/// What an entry of the host holds.
pub struct HostEntryView {
    pub name: Seq<char>,
    pub is_dir: bool,
    pub len: u64,
    pub modified: Option<u64>,
}

impl View for HostEntry {
    type V = HostEntryView;

    open spec fn view(&self) -> HostEntryView {
        HostEntryView {
            name: self.name@,
            is_dir: self.is_dir,
            len: self.len,
            modified: self.modified,
        }
    }
}

/// What a list of entries of the host holds.
pub open spec fn host_views(v: Seq<HostEntry>) -> Seq<HostEntryView> {
    v.map_values(|e: HostEntry| e@)
}

/// An entry of the host, as it is listed. Of a length the lowest 32 bits are
/// shown; a directory has none.
pub open spec fn host_entry(e: HostEntryView) -> DiscEntryView {
    let size = if e.is_dir {
        0
    } else {
        e.len as u32
    };
    DiscEntryView {
        name: e.name,
        is_dir: e.is_dir,
        lba: 0,
        size,
        size_bytes: size,
        modified: match e.modified {
            Some(secs) => calendar::stamp_text(calendar::date_of(secs)),
            None => Seq::empty(),
        },
    }
}

/// All entries of the host, as they are listed.
pub open spec fn host_entries(v: Seq<HostEntryView>) -> Seq<DiscEntryView> {
    v.map_values(|e: HostEntryView| host_entry(e))
}

/// The sort key of an entry: directories first, then by the name in lower
/// case, character by character.
pub open spec fn entry_key(is_dir: bool, lower: Seq<char>) -> Seq<u32> {
    seq![
        if is_dir {
            0u32
        } else {
            1u32
        },
    ] + lower.map_values(|c: char| c as u32)
}

/// The sort keys of entries.
pub open spec fn entry_keys(entries: Seq<DiscEntryView>, lower: Seq<Seq<char>>) -> Seq<Seq<u32>> {
    Seq::new(entries.len(), |i: int| entry_key(entries[i].is_dir, lower[i]))
}

/// The order in which entries are listed is a stable order by their keys.
pub open spec fn is_ordered(entries: Seq<DiscEntryView>, lower: Seq<Seq<char>>) -> bool {
    let keys = entry_keys(entries, lower);
    sort::is_stable_order(keys, sort::the_order(keys))
}

/// The entries in the order in which they are listed; `lower` holds their
/// names in lower case.
pub open spec fn in_order(entries: Seq<DiscEntryView>, lower: Seq<Seq<char>>) -> Seq<
    DiscEntryView,
> {
    sort::arranged(entries, sort::the_order(entry_keys(entries, lower)))
}

fn key_of(is_dir: bool, lower: &str) -> (r: Vec<u32>)
    ensures
        r@ == entry_key(is_dir, lower@),
{
    let c = text::chars_of(lower);
    let ghost want = lower@.map_values(|c: char| c as u32);
    let mut k: Vec<u32> = Vec::new();
    let first: u32 = if is_dir {
        0
    } else {
        1
    };
    k.push(first);
    let mut i: usize = 0;
    assert(k@ =~= seq![first] + want.take(0));
    while i < c.len()
        invariant
            i <= c@.len(),
            c@ == lower@,
            want == lower@.map_values(|c: char| c as u32),
            k@ == seq![first] + want.take(i as int),
        decreases c@.len() - i,
    {
        k.push(c[i] as u32);
        assert(want.take(i + 1) =~= want.take(i as int).push(want[i as int]));
        assert(k@ =~= seq![first] + want.take(i + 1));
        i += 1;
    }
    assert(want.take(i as int) =~= want);
    k
}

/// Sorts entries: directories first, then by name without regard to letter
/// case; equal names keep their order. `lower` holds the names in lower case.
pub fn sort_entries(entries: &Vec<DiscEntry>, lower: &Vec<String>) -> (r: Vec<DiscEntry>)
    requires
        lower@.len() == entries@.len(),
    ensures
        entry_views(r@) == in_order(entry_views(entries@), text::string_views(lower@)),
        is_ordered(entry_views(entries@), text::string_views(lower@)),
{
    let ghost vs = entry_views(entries@);
    let ghost ls = text::string_views(lower@);
    let ghost want = entry_keys(vs, ls);
    let mut keys: Vec<Vec<u32>> = Vec::new();
    let mut i: usize = 0;
    while i < entries.len()
        invariant
            i <= entries@.len(),
            lower@.len() == entries@.len(),
            vs == entry_views(entries@),
            ls == text::string_views(lower@),
            want == entry_keys(vs, ls),
            sort::key_views(keys@) == want.take(i as int),
        decreases entries@.len() - i,
    {
        assert(ls[i as int] == lower@[i as int]@);
        assert(vs[i as int] == entries@[i as int]@);
        let k = key_of(entries[i].is_dir, lower[i].as_str());
        let ghost before = keys@;
        keys.push(k);
        assert(sort::key_views(keys@) =~= sort::key_views(before).push(k@));
        assert(want.take(i + 1) =~= want.take(i as int).push(want[i as int]));
        i += 1;
    }
    assert(want.take(i as int) =~= want);
    let order = sort::stable_order(&keys);
    let mut r: Vec<DiscEntry> = Vec::new();
    let mut j: usize = 0;
    while j < order.len()
        invariant
            j <= order@.len(),
            vs == entry_views(entries@),
            forall|i: int| 0 <= i < order@.len() ==> (#[trigger] order@[i]) < entries@.len(),
            entry_views(r@) == sort::arranged(vs, order@).take(j as int),
        decreases order@.len() - j,
    {
        let e = copy_entry(&entries[order[j]]);
        let ghost before = r@;
        r.push(e);
        assert(entry_views(r@) =~= entry_views(before).push(e@));
        assert(sort::arranged(vs, order@).take(j + 1) =~= sort::arranged(vs, order@).take(
            j as int,
        ).push(sort::arranged(vs, order@)[j as int]));
        j += 1;
    }
    assert(sort::arranged(vs, order@).take(j as int) =~= sort::arranged(vs, order@));
    r
}

fn entry_of(e: &HostEntry) -> (r: DiscEntry)
    ensures
        r@ == host_entry(e@),
{
    let size: u32 = if e.is_dir {
        0
    } else {
        #[verifier::truncate] (e.len as u32)
    };
    let modified: String = match e.modified {
        Some(secs) => calendar::unix_secs_to_string(secs),
        None => String::new(),
    };
    assert(e.modified is None ==> modified@ =~= Seq::empty());
    DiscEntry {
        name: e.name.clone(),
        is_dir: e.is_dir,
        lba: 0,
        size,
        size_bytes: size,
        modified,
    }
}

/// Lists the entries of a directory of the host: directories first, then by
/// name without regard to letter case.
pub fn list_host_directory(host: &Vec<HostEntry>) -> (r: Vec<DiscEntry>)
    ensures
        entry_views(r@) == in_order(
            host_entries(host_views(host@)),
            host_views(host@).map_values(|e: HostEntryView| text::unicode_lower(e.name)),
        ),
        is_ordered(
            host_entries(host_views(host@)),
            host_views(host@).map_values(|e: HostEntryView| text::unicode_lower(e.name)),
        ),
{
    let ghost hs = host_views(host@);
    let ghost want = host_entries(hs);
    let ghost names = hs.map_values(|e: HostEntryView| text::unicode_lower(e.name));
    let mut entries: Vec<DiscEntry> = Vec::new();
    let mut lower: Vec<String> = Vec::new();
    let mut i: usize = 0;
    while i < host.len()
        invariant
            i <= host@.len(),
            hs == host_views(host@),
            want == host_entries(hs),
            names == hs.map_values(|e: HostEntryView| text::unicode_lower(e.name)),
            entry_views(entries@) == want.take(i as int),
            text::string_views(lower@) == names.take(i as int),
            entries@.len() == i,
            lower@.len() == i,
        decreases host@.len() - i,
    {
        assert(hs[i as int] == host@[i as int]@);
        let e = entry_of(&host[i]);
        let l = host[i].name.as_str().to_lowercase();
        let ghost before = entries@;
        let ghost lower_before = lower@;
        entries.push(e);
        lower.push(l);
        assert(entry_views(entries@) =~= entry_views(before).push(e@));
        assert(text::string_views(lower@) =~= text::string_views(lower_before).push(l@));
        assert(want.take(i + 1) =~= want.take(i as int).push(want[i as int]));
        assert(names.take(i + 1) =~= names.take(i as int).push(names[i as int]));
        i += 1;
    }
    assert(want.take(i as int) =~= want);
    assert(names.take(i as int) =~= names);
    sort_entries(&entries, &lower)
}

/// Directories are listed before files.
pub proof fn lemma_directories_first(
    entries: Seq<DiscEntryView>,
    lower: Seq<Seq<char>>,
    order: Seq<usize>,
    i: int,
    j: int,
)
    requires
        sort::is_stable_order(entry_keys(entries, lower), order),
        0 <= i < j < order.len(),
        entries[order[j] as int].is_dir,
    ensures
        entries[order[i] as int].is_dir,
{
    let keys = entry_keys(entries, lower);
    let x = order[i] as int;
    let y = order[j] as int;
    assert(sort::comes_before(keys, order[i] as int, order[j] as int));
    assert(keys[x] == entry_key(entries[x].is_dir, lower[x]));
    assert(keys[y] == entry_key(entries[y].is_dir, lower[y]));
    assert(keys[x][0] <= keys[y][0]);
}

} // verus!
