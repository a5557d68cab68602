//! Optical drives, as the system's profiler lists them in JSON.
use crate::text;
use vstd::prelude::*;

verus! {

/// An optical drive.
#[derive(PartialEq, Eq, Debug)]
pub struct DriveInfo {
    pub name: String,
    pub device_path: String,
    pub has_disc: bool,
    pub volume_name: Option<String>,
}

/// What a drive holds.
pub struct DriveInfoView {
    pub name: Seq<char>,
    pub device_path: Seq<char>,
    pub has_disc: bool,
    pub volume_name: Option<Seq<char>>,
}

impl View for DriveInfo {
    type V = DriveInfoView;

    open spec fn view(&self) -> DriveInfoView {
        DriveInfoView {
            name: self.name@,
            device_path: self.device_path@,
            has_disc: self.has_disc,
            volume_name: text::opt_view(self.volume_name),
        }
    }
}

/// What a list of drives holds.
pub open spec fn info_views(v: Seq<DriveInfo>) -> Seq<DriveInfoView> {
    v.map_values(|d: DriveInfo| d@)
}

// ── The disc in a drive ──────────────────────────────────────────────────────

/// The volume that a line of `diskutil info` names, where it names one.
pub open spec fn volume_in_line(line: Seq<char>) -> Option<Seq<char>> {
    let t = text::trim(line);
    let name = text::trim(t.skip(12));
    if text::starts_with(t, "Volume Name:"@) && name.len() > 0 && name != "Not applicable"@ && name
        != "(null)"@ {
        Some(name)
    } else {
        None
    }
}

/// The volume that the lines from `i` on name first.
pub open spec fn volume_in(lines: Seq<Seq<char>>, i: int) -> Option<Seq<char>>
    decreases lines.len() - i,
{
    if i < 0 || i >= lines.len() {
        None
    } else if volume_in_line(lines[i]) is Some {
        volume_in_line(lines[i])
    } else {
        volume_in(lines, i + 1)
    }
}

/// The volume in a drive, by what `diskutil info` wrote; `None` where it could
/// not be run.
pub open spec fn volume_of(info: Option<Seq<char>>) -> Option<Seq<char>> {
    match info {
        Some(s) => volume_in(text::lines(s), 0),
        None => None,
    }
}

fn line_volume(line: &[char]) -> (r: Option<String>)
    ensures
        text::opt_view(r) == volume_in_line(line@),
{
    let t = text::trimmed(line);
    if !text::begins(t.as_slice(), "Volume Name:") {
        return None;
    }
    proof {
        reveal_strlit("Volume Name:");
    }
    let rest = text::part(t.as_slice(), 12, t.len());
    assert(rest@ =~= t@.skip(12));
    let name = text::trimmed(rest.as_slice());
    if name.len() == 0 || text::same(name.as_slice(), "Not applicable") || text::same(
        name.as_slice(),
        "(null)",
    ) {
        return None;
    }
    Some(text::string_of(name.as_slice()))
}

/// Tells whether there is a disc in a drive, and its volume, by what
/// `diskutil info` wrote; `None` stands for a command that could not be run.
pub fn check_disc_in_drive(info: &Option<String>) -> (r: (bool, Option<String>))
    ensures
        r.0 == volume_of(text::opt_view(*info)) is Some,
        text::opt_view(r.1) == volume_of(text::opt_view(*info)),
{
    let s: &String = match info {
        Some(s) => s,
        None => {
            return (false, None);
        },
    };
    let chars = text::chars_of(s.as_str());
    let lines = text::split_lines(chars.as_slice());
    let ghost ls = text::lines(s@);
    assert(ls.len() == lines@.len());
    let mut i: usize = 0;
    while i < lines.len()
        invariant
            i <= lines@.len(),
            ls == text::views(lines@),
            ls.len() == lines@.len(),
            volume_in(ls, 0) == volume_in(ls, i as int),
            volume_of(text::opt_view(*info)) == volume_in(ls, 0),
        decreases lines@.len() - i,
    {
        assert(ls[i as int] == lines@[i as int]@);
        let v = line_volume(lines[i].as_slice());
        if v.is_some() {
            return (true, v);
        }
        i += 1;
    }
    (false, None)
}

// ── The drives in the profiler's JSON ────────────────────────────────────────

/// The number of items in the array that a JSON object holds under a key: 0
/// where the data is no JSON, or holds no array there.
pub uninterp spec fn json_items(data: Seq<u8>, key: Seq<char>) -> nat;

/// The string that item `i` of the array under a key holds under a field.
pub uninterp spec fn json_string(data: Seq<u8>, key: Seq<char>, i: int, field: Seq<char>) -> Option<
    Seq<char>,
>;

/// `serde_json::from_slice` and `serde_json::Value::get`: the length of the
/// array under a key. Data that is no JSON counts as null, which holds nothing.
/// The result depends on the two arguments alone.
#[verifier::external_body]
fn count_items(data: &[u8], key: &str) -> (r: usize)
    ensures
        r == json_items(data@, key@),
{
    let v: serde_json::Value = serde_json::from_slice(data).unwrap_or_default();
    v.get(key).and_then(|a| a.as_array()).map_or(0, |a| a.len())
}

/// `serde_json::from_slice` and `serde_json::Value::get`: the string under a
/// field of item `i` of the array under a key. There is none where the array
/// has no such item, or the item no such string. The result depends on the
/// four arguments alone.
#[verifier::external_body]
fn string_in(data: &[u8], key: &str, i: usize, field: &str) -> (r: Option<String>)
    ensures
        text::opt_view(r) == json_string(data@, key@, i as int, field@),
        r.is_some() ==> i < json_items(data@, key@),
{
    let v: serde_json::Value = serde_json::from_slice(data).unwrap_or_default();
    v.get(key)?.as_array()?.get(i)?.get(field)?.as_str().map(|s| s.to_string())
}

/// A drive and its device.
#[derive(PartialEq, Eq, Debug)]
pub struct DriveNode {
    pub name: String,
    pub device_path: String,
}

/// What a drive and its device hold.
pub struct DriveNodeView {
    pub name: Seq<char>,
    pub device_path: Seq<char>,
}

impl View for DriveNode {
    type V = DriveNodeView;

    open spec fn view(&self) -> DriveNodeView {
        DriveNodeView { name: self.name@, device_path: self.device_path@ }
    }
}

/// What a list of drives and their devices holds.
pub open spec fn node_views(v: Seq<DriveNode>) -> Seq<DriveNodeView> {
    v.map_values(|d: DriveNode| d@)
}

/// A drive with a name and one of three device nodes; the first node that is
/// given counts.
pub open spec fn drive_node(
    name: Option<Seq<char>>,
    burner: Option<Seq<char>>,
    burning: Option<Seq<char>>,
    bsd: Option<Seq<char>>,
) -> Option<DriveNodeView> {
    let node = if burner is Some {
        burner
    } else if burning is Some {
        burning
    } else {
        bsd
    };
    match (name, node) {
        (Some(name), Some(node)) => Some(DriveNodeView { name, device_path: "/dev/"@ + node }),
        _ => None,
    }
}

/// Makes a drive of its name and its device nodes.
pub fn make_node(
    name: Option<String>,
    burner: Option<String>,
    burning: Option<String>,
    bsd: Option<String>,
) -> (r: Option<DriveNode>)
    ensures
        r is Some <==> drive_node(
            text::opt_view(name),
            text::opt_view(burner),
            text::opt_view(burning),
            text::opt_view(bsd),
        ) is Some,
        r matches Some(n) ==> drive_node(
            text::opt_view(name),
            text::opt_view(burner),
            text::opt_view(burning),
            text::opt_view(bsd),
        ) == Some(n@),
{
    let node: Option<String> = if burner.is_some() {
        burner
    } else if burning.is_some() {
        burning
    } else {
        bsd
    };
    match (name, node) {
        (Some(name), Some(node)) => {
            let mut device_path = "/dev/".to_owned();
            device_path.append(node.as_str());
            Some(DriveNode { name, device_path })
        },
        _ => None,
    }
}

/// Drive `i` of the profiler's JSON, where it has a name and a device.
pub open spec fn drive_at(data: Seq<u8>, i: int) -> Option<DriveNodeView> {
    let key = "SPDiscBurningDataType"@;
    drive_node(
        json_string(data, key, i, "_name"@),
        json_string(data, key, i, "spdisc_burner-devicenode"@),
        json_string(data, key, i, "spdisc_burning_device"@),
        json_string(data, key, i, "bsd_name"@),
    )
}

/// The first `n` drives of the profiler's JSON that have a name and a device.
pub open spec fn drives_in(data: Seq<u8>, n: int) -> Seq<DriveNodeView>
    decreases n,
{
    if n <= 0 {
        Seq::empty()
    } else {
        match drive_at(data, n - 1) {
            Some(d) => drives_in(data, n - 1).push(d),
            None => drives_in(data, n - 1),
        }
    }
}

/// Lists the drives of the profiler's JSON.
pub fn optical_drives(data: &[u8]) -> (r: Vec<DriveNode>)
    ensures
        node_views(r@) == drives_in(
            data@,
            json_items(data@, "SPDiscBurningDataType"@) as int,
        ),
{
    let n: usize = count_items(data, "SPDiscBurningDataType");
    let mut r: Vec<DriveNode> = Vec::new();
    let mut i: usize = 0;
    assert(node_views(r@) =~= Seq::empty());
    while i < n
        invariant
            i <= n,
            n == json_items(data@, "SPDiscBurningDataType"@),
            node_views(r@) == drives_in(data@, i as int),
        decreases n - i,
    {
        let name = string_in(data, "SPDiscBurningDataType", i, "_name");
        let burner = string_in(data, "SPDiscBurningDataType", i, "spdisc_burner-devicenode");
        let burning = string_in(data, "SPDiscBurningDataType", i, "spdisc_burning_device");
        let bsd = string_in(data, "SPDiscBurningDataType", i, "bsd_name");
        if let Some(node) = make_node(name, burner, burning, bsd) {
            let ghost before = r@;
            r.push(node);
            assert(node_views(r@) =~= node_views(before).push(node@));
        }
        i += 1;
    }
    r
}

/// A drive with what `diskutil info` wrote of it.
pub open spec fn drive_info(node: DriveNodeView, info: Option<Seq<char>>) -> DriveInfoView {
    DriveInfoView {
        name: node.name,
        device_path: node.device_path,
        has_disc: volume_of(info) is Some,
        volume_name: volume_of(info),
    }
}

/// Lists the drives with the discs in them. `infos` holds what `diskutil info`
/// wrote of each; `None` stands for a command that could not be run.
pub fn list_optical_drives(nodes: &Vec<DriveNode>, infos: &Vec<Option<String>>) -> (r: Vec<
    DriveInfo,
>)
    requires
        infos@.len() == nodes@.len(),
    ensures
        info_views(r@) == Seq::new(
            nodes@.len(),
            |i: int| drive_info(nodes@[i]@, text::opt_view(infos@[i])),
        ),
{
    let ghost want = Seq::new(
        nodes@.len(),
        |i: int| drive_info(nodes@[i]@, text::opt_view(infos@[i])),
    );
    let mut r: Vec<DriveInfo> = Vec::new();
    let mut i: usize = 0;
    while i < nodes.len()
        invariant
            i <= nodes@.len(),
            infos@.len() == nodes@.len(),
            want == Seq::new(
                nodes@.len(),
                |i: int| drive_info(nodes@[i]@, text::opt_view(infos@[i])),
            ),
            info_views(r@) == want.take(i as int),
        decreases nodes@.len() - i,
    {
        let (has_disc, volume_name) = check_disc_in_drive(&infos[i]);
        let d = DriveInfo {
            name: nodes[i].name.clone(),
            device_path: nodes[i].device_path.clone(),
            has_disc,
            volume_name,
        };
        let ghost before = r@;
        r.push(d);
        assert(info_views(r@) =~= info_views(before).push(d@));
        assert(want.take(i + 1) =~= want.take(i as int).push(want[i as int]));
        i += 1;
    }
    assert(want.take(i as int) =~= want);
    r
}

/// A drive has a disc exactly where its volume is known.
pub proof fn lemma_disc_has_volume(node: DriveNodeView, info: Option<Seq<char>>)
    ensures
        drive_info(node, info).has_disc <==> drive_info(node, info).volume_name is Some,
        drive_info(node, info).volume_name matches Some(v) ==> v.len() > 0,
{
    match info {
        Some(s) => lemma_volume_is_named(text::lines(s), 0),
        None => {},
    }
}

proof fn lemma_volume_is_named(lines: Seq<Seq<char>>, i: int)
    ensures
        volume_in(lines, i) matches Some(v) ==> v.len() > 0,
    decreases lines.len() - i,
{
    if 0 <= i < lines.len() {
        lemma_volume_is_named(lines, i + 1);
    }
}

} // verus!
