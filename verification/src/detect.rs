//! The filesystems on a disc, by the names that are shown to the user.
use crate::chd;
use crate::chd::ChdHeader;
use crate::device::{DiscKind, Log, Probe, Query, Spot, Step};
use crate::device;
use crate::mdx;
use crate::sector;
use crate::text;
use crate::volume;
use vstd::prelude::*;

verus! {

/// The name of a GCM disc.
pub open spec fn gcm_name(kind: DiscKind) -> Seq<char> {
    match kind {
        DiscKind::GameCube => "GameCube GCM"@,
        DiscKind::Wii => "Wii GCM"@,
    }
}

/// The name of a GCM disc.
pub fn gcm_kind_label(kind: DiscKind) -> (r: String)
    ensures
        r@ == gcm_name(kind),
{
    match kind {
        DiscKind::GameCube => "GameCube GCM".to_owned(),
        DiscKind::Wii => "Wii GCM".to_owned(),
    }
}

/// What a step to a list of names holds.
pub open spec fn labels_view(s: Step<Vec<String>>) -> Step<Seq<Seq<char>>> {
    match s {
        Step::Ask(q) => Step::Ask(q),
        Step::Fault => Step::Fault,
        Step::Done(v) => Step::Done(text::string_views(v@)),
    }
}

/// `n` times the name of a Joliet volume.
pub open spec fn joliet_names(n: u64) -> Seq<Seq<char>> {
    Seq::new(n as nat, |i: int| "Joliet"@)
}

/// The names of an ISO 9660 volume and `n` Joliet volumes.
pub open spec fn iso_names(n: u64) -> Seq<Seq<char>> {
    seq!["ISO 9660"@] + joliet_names(n)
}

fn push_name(out: &mut Vec<String>, name: &str)
    ensures
        text::string_views(final(out)@) == text::string_views(old(out)@).push(name@),
{
    let s = name.to_owned();
    out.push(s);
    assert(text::string_views(out@) =~= text::string_views(old(out)@).push(name@));
}

fn one_name(name: &str) -> (r: Vec<String>)
    ensures
        text::string_views(r@) == seq![name@],
{
    let mut out: Vec<String> = Vec::new();
    push_name(&mut out, name);
    assert(text::string_views(out@) =~= seq![name@]);
    out
}

fn push_iso(out: &mut Vec<String>, n: u64)
    ensures
        text::string_views(final(out)@) == text::string_views(old(out)@) + iso_names(n),
{
    let ghost before = text::string_views(out@);
    push_name(out, "ISO 9660");
    let mut i: u64 = 0;
    assert(text::string_views(out@) =~= before + iso_names(0));
    while i < n
        invariant
            i <= n,
            before == text::string_views(old(out)@),
            text::string_views(out@) == before + iso_names(i),
        decreases n - i,
    {
        push_name(out, "Joliet");
        i += 1;
        assert(text::string_views(out@) =~= before + iso_names(i));
    }
}

// ── One track of a file ──────────────────────────────────────────────────────

/// The names of the volumes at the end of the search, behind the names `acc`:
/// an ISO 9660 volume with its Joliet volumes. Where nothing at all was found,
/// the disc is taken to be ISO 9660.
pub open spec fn iso_end(log: Log, file: usize, spot: Spot, acc: Seq<Seq<char>>) -> Step<
    Seq<Seq<char>>,
> {
    match volume::iso_volume(log, file, spot, false) {
        Step::Ask(q) => Step::Ask(q),
        Step::Fault => Step::Fault,
        Step::Done(Some(n)) => Step::Done(acc + iso_names(n)),
        Step::Done(None) => Step::Done(
            if acc.len() == 0 {
                seq!["ISO 9660"@]
            } else {
                acc
            },
        ),
    }
}

fn end_with_iso(
    log: &Log,
    cur: &mut usize,
    file: usize,
    spot: Spot,
    acc: Vec<String>,
) -> (r: Step<Vec<String>>)
    requires
        log.wf(),
    ensures
        labels_view(r) == iso_end(*log, file, spot, text::string_views(acc@)),
{
    match volume::find_iso_volume(log, cur, file, spot, false) {
        Step::Ask(q) => Step::Ask(q),
        Step::Fault => Step::Fault,
        Step::Done(Some(n)) => {
            let mut out = acc;
            push_iso(&mut out, n);
            Step::Done(out)
        },
        Step::Done(None) => if acc.len() == 0 {
            Step::Done(one_name("ISO 9660"))
        } else {
            Step::Done(acc)
        },
    }
}

/// The volumes of a track behind the names `acc`: a UDF volume ends the
/// search, and is named by its version.
pub open spec fn udf_or_iso(
    log: Log,
    file: usize,
    offset: u64,
    udo: u64,
    lba_offset: u64,
    acc: Seq<Seq<char>>,
) -> Step<Seq<Seq<char>>> {
    let spot = Spot::plain(offset, udo);
    let version = Query::Probe { file, probe: Probe::UdfVersion, spot };
    match device::probed(log, file, Probe::UdfDisc, spot) {
        Step::Ask(q) => Step::Ask(q),
        Step::Fault => Step::Fault,
        Step::Done(true) => match log.known(version) {
            None => Step::Ask(version),
            Some(r) => Step::Done(
                acc.push(
                    match r.label() {
                        Some(v) => v,
                        None => "UDF"@,
                    },
                ),
            ),
        },
        Step::Done(false) => iso_end(
            log,
            file,
            Spot { stride: data_stride(udo), lba_offset, ..spot },
            acc,
        ),
    }
}

/// The bytes per sector of a track, by where the user data begins.
pub open spec fn data_stride(udo: u64) -> u64 {
    if udo > 0 {
        sector::RAW_SECTOR_SIZE
    } else {
        sector::DATA_SECTOR_SIZE
    }
}

/// The volumes of a track that can stand beside each other: an Xbox volume on
/// a track of plain sectors, an HFS volume, then a UDF or an ISO 9660 volume.
pub open spec fn shared_names(
    log: Log,
    file: usize,
    offset: u64,
    udo: u64,
    lba_offset: u64,
    xbox: bool,
) -> Step<Seq<Seq<char>>> {
    let acc: Seq<Seq<char>> = if xbox {
        seq!["XDVDFS"@]
    } else {
        Seq::empty()
    };
    match device::probed(log, file, Probe::HfsDisc, Spot::plain(offset, udo)) {
        Step::Ask(q) => Step::Ask(q),
        Step::Fault => Step::Fault,
        Step::Done(hfs) => udf_or_iso(
            log,
            file,
            offset,
            udo,
            lba_offset,
            if hfs {
                acc.push("HFS"@)
            } else {
                acc
            },
        ),
    }
}

/// The volumes of a track that is neither a PC Engine nor a 3DO track.
pub open spec fn common_names(
    log: Log,
    file: usize,
    offset: u64,
    udo: u64,
    lba_offset: u64,
) -> Step<Seq<Seq<char>>> {
    if udo != 0 {
        shared_names(log, file, offset, udo, lba_offset, false)
    } else {
        match device::gcm_kind(log, file) {
            Step::Ask(q) => Step::Ask(q),
            Step::Fault => Step::Fault,
            Step::Done(Some(kind)) => Step::Done(seq![gcm_name(kind)]),
            Step::Done(None) => match device::probed(
                log,
                file,
                Probe::XdvdfsDisc,
                Spot::plain(offset, 0),
            ) {
                Step::Ask(q) => Step::Ask(q),
                Step::Fault => Step::Fault,
                Step::Done(xbox) => shared_names(log, file, offset, udo, lba_offset, xbox),
            },
        }
    }
}

/// The volumes of a track: a PC Engine, a 3DO or a GCM disc has no other; else
/// there can be an Xbox, an HFS, and a UDF or an ISO 9660 volume.
pub open spec fn track_names(
    log: Log,
    file: usize,
    offset: u64,
    udo: u64,
    lba_offset: u64,
) -> Step<Seq<Seq<char>>> {
    let spot = Spot::plain(offset, udo);
    match device::probed(log, file, Probe::PceDisc, spot) {
        Step::Ask(q) => Step::Ask(q),
        Step::Fault => Step::Fault,
        Step::Done(true) => Step::Done(seq!["PC Engine CD-ROM"@]),
        Step::Done(false) => match device::probed(log, file, Probe::ThreeDoDisc, spot) {
            Step::Ask(q) => Step::Ask(q),
            Step::Fault => Step::Fault,
            Step::Done(true) => Step::Done(seq!["3DO OperaFS"@]),
            Step::Done(false) => common_names(log, file, offset, udo, lba_offset),
        },
    }
}

/// The volumes of a data track: a CD-i disc has no other.
pub open spec fn bin_names(
    log: Log,
    file: usize,
    offset: u64,
    udo: u64,
    lba_offset: u64,
    descramble: bool,
) -> Step<Seq<Seq<char>>> {
    let spot = Spot {
        track_offset: offset,
        user_data_offset: udo,
        stride: 0,
        lba_offset,
        descramble,
    };
    match device::probed(log, file, Probe::CdiDisc, spot) {
        Step::Ask(q) => Step::Ask(q),
        Step::Fault => Step::Fault,
        Step::Done(true) => Step::Done(seq!["CD-i"@]),
        Step::Done(false) => track_names(log, file, offset, udo, lba_offset),
    }
}

fn name_udf_or_iso(
    log: &Log,
    cur: &mut usize,
    file: usize,
    offset: u64,
    udo: u64,
    lba_offset: u64,
    acc: Vec<String>,
) -> (r: Step<Vec<String>>)
    requires
        log.wf(),
    ensures
        labels_view(r) == udf_or_iso(
            *log,
            file,
            offset,
            udo,
            lba_offset,
            text::string_views(acc@),
        ),
{
    let spot = Spot::at(offset, udo);
    match device::ask_probe(log, cur, file, Probe::UdfDisc, spot) {
        Step::Ask(q) => Step::Ask(q),
        Step::Fault => Step::Fault,
        Step::Done(true) => {
            let version = Query::Probe { file, probe: Probe::UdfVersion, spot };
            match log.label(version, cur) {
                None => Step::Ask(version),
                Some(name) => {
                    let mut out = acc;
                    match name {
                        Some(v) => push_name(&mut out, v),
                        None => push_name(&mut out, "UDF"),
                    }
                    Step::Done(out)
                },
            }
        },
        Step::Done(false) => {
            let stride: u64 = if udo > 0 {
                sector::RAW_SECTOR_SIZE
            } else {
                sector::DATA_SECTOR_SIZE
            };
            end_with_iso(log, cur, file, Spot { stride, lba_offset, ..spot }, acc)
        },
    }
}

fn name_shared(
    log: &Log,
    cur: &mut usize,
    file: usize,
    offset: u64,
    udo: u64,
    lba_offset: u64,
    xbox: bool,
) -> (r: Step<Vec<String>>)
    requires
        log.wf(),
    ensures
        labels_view(r) == shared_names(*log, file, offset, udo, lba_offset, xbox),
{
    let mut acc: Vec<String> = if xbox {
        one_name("XDVDFS")
    } else {
        Vec::new()
    };
    assert(!xbox ==> text::string_views(acc@) =~= Seq::empty());
    match device::ask_probe(log, cur, file, Probe::HfsDisc, Spot::at(offset, udo)) {
        Step::Ask(q) => Step::Ask(q),
        Step::Fault => Step::Fault,
        Step::Done(hfs) => {
            if hfs {
                push_name(&mut acc, "HFS");
            }
            name_udf_or_iso(log, cur, file, offset, udo, lba_offset, acc)
        },
    }
}

fn name_track(
    log: &Log,
    cur: &mut usize,
    file: usize,
    offset: u64,
    udo: u64,
    lba_offset: u64,
) -> (r: Step<Vec<String>>)
    requires
        log.wf(),
    ensures
        labels_view(r) == track_names(*log, file, offset, udo, lba_offset),
{
    let spot = Spot::at(offset, udo);
    match device::ask_probe(log, cur, file, Probe::PceDisc, spot) {
        Step::Ask(q) => {
            return Step::Ask(q);
        },
        Step::Fault => {
            return Step::Fault;
        },
        Step::Done(found) => {
            if found {
                return Step::Done(one_name("PC Engine CD-ROM"));
            }
        },
    }
    match device::ask_probe(log, cur, file, Probe::ThreeDoDisc, spot) {
        Step::Ask(q) => {
            return Step::Ask(q);
        },
        Step::Fault => {
            return Step::Fault;
        },
        Step::Done(found) => {
            if found {
                return Step::Done(one_name("3DO OperaFS"));
            }
        },
    }
    let mut xbox: bool = false;
    if udo == 0 {
        match device::ask_gcm(log, cur, file) {
            Step::Ask(q) => {
                return Step::Ask(q);
            },
            Step::Fault => {
                return Step::Fault;
            },
            Step::Done(Some(kind)) => {
                return Step::Done(one_name(gcm_kind_label(kind).as_str()));
            },
            Step::Done(None) => {},
        }
        xbox = match device::ask_probe(log, cur, file, Probe::XdvdfsDisc, Spot::at(offset, 0)) {
            Step::Ask(q) => {
                return Step::Ask(q);
            },
            Step::Fault => {
                return Step::Fault;
            },
            Step::Done(found) => found,
        };
    }
    name_shared(log, cur, file, offset, udo, lba_offset, xbox)
}

/// Names the volumes of a data track.
pub fn detect_filesystems_in_bin(
    log: &Log,
    cur: &mut usize,
    file: usize,
    track_offset: u64,
    user_data_offset: u64,
    lba_offset: u64,
    descramble: bool,
) -> (r: Step<Vec<String>>)
    requires
        log.wf(),
    ensures
        labels_view(r) == bin_names(
            *log,
            file,
            track_offset,
            user_data_offset,
            lba_offset,
            descramble,
        ),
{
    let spot = Spot { track_offset, user_data_offset, stride: 0, lba_offset, descramble };
    match device::ask_probe(log, cur, file, Probe::CdiDisc, spot) {
        Step::Ask(q) => Step::Ask(q),
        Step::Fault => Step::Fault,
        Step::Done(true) => Step::Done(one_name("CD-i")),
        Step::Done(false) => name_track(
            log,
            cur,
            file,
            track_offset,
            user_data_offset,
            lba_offset,
        ),
    }
}

// ── Whole images ─────────────────────────────────────────────────────────────

/// The volumes of an image that is one track of sectors.
pub open spec fn raw_names(log: Log) -> Step<Seq<Seq<char>>> {
    match sector::raw_offset(log, 0) {
        Step::Ask(q) => Step::Ask(q),
        Step::Fault => Step::Fault,
        Step::Done(udo) => track_names(log, 0, 0, udo, 0),
    }
}

/// Names the volumes of an image that is one track of sectors.
pub fn detect_filesystems_raw(log: &Log, cur: &mut usize) -> (r: Step<Vec<String>>)
    requires
        log.wf(),
    ensures
        labels_view(r) == raw_names(*log),
{
    match sector::ask_raw_offset(log, cur, 0) {
        Step::Ask(q) => Step::Ask(q),
        Step::Fault => Step::Fault,
        Step::Done(udo) => name_track(log, cur, 0, 0, udo, 0),
    }
}

/// The volumes of a single-file media descriptor. Plain sectors are taken to
/// be ISO 9660, and only Joliet volumes are looked for.
pub open spec fn mdx_names(log: Log) -> Step<Seq<Seq<char>>> {
    match sector::format_at(log, 0, mdx::MDX_DATA_OFFSET) {
        Step::Ask(q) => Step::Ask(q),
        Step::Fault => Step::Fault,
        Step::Done(f) => if f.0 == sector::RAW_SECTOR_SIZE {
            bin_names(log, 0, mdx::MDX_DATA_OFFSET, f.1, 0, false)
        } else {
            match volume::joliet_count(
                log,
                0,
                Spot { stride: 2048, ..Spot::plain(mdx::MDX_DATA_OFFSET, 0) },
                17,
                0,
            ) {
                Step::Ask(q) => Step::Ask(q),
                Step::Fault => Step::Fault,
                Step::Done(n) => Step::Done(iso_names(n)),
            }
        },
    }
}

/// Names the volumes of a single-file media descriptor.
pub fn detect_filesystems_mdx(log: &Log, cur: &mut usize) -> (r: Step<Vec<String>>)
    requires
        log.wf(),
    ensures
        labels_view(r) == mdx_names(*log),
{
    match mdx::mdx_sector_format(log, cur) {
        Step::Ask(q) => Step::Ask(q),
        Step::Fault => Step::Fault,
        Step::Done(f) => if f.0 == sector::RAW_SECTOR_SIZE {
            detect_filesystems_in_bin(log, cur, 0, mdx::MDX_DATA_OFFSET, f.1, 0, false)
        } else {
            let spot = Spot { stride: 2048, ..Spot::at(mdx::MDX_DATA_OFFSET, 0) };
            match volume::count_joliet(log, cur, 0, spot) {
                Step::Ask(q) => Step::Ask(q),
                Step::Fault => Step::Fault,
                Step::Done(n) => {
                    let mut out: Vec<String> = Vec::new();
                    push_iso(&mut out, n);
                    assert(text::string_views(out@) =~= iso_names(n));
                    Step::Done(out)
                },
            }
        },
    }
}

/// The volumes of raw sectors in a compressed image, by the ISO 9660 volume
/// that is found first from place `k` on; without one the disc is taken to be
/// a 3DO disc.
pub open spec fn chd_iso_names(log: Log, stride: u64, k: int) -> Step<Seq<Seq<char>>>
    decreases chd::CHD_PLACES - k,
{
    if k >= chd::CHD_PLACES {
        Step::Done(seq!["3DO OperaFS"@])
    } else {
        match volume::iso_volume(log, 0, chd::threedo_spot(stride, k), true) {
            Step::Ask(q) => Step::Ask(q),
            Step::Fault => Step::Fault,
            Step::Done(Some(n)) => Step::Done(iso_names(n)),
            Step::Done(None) => chd_iso_names(log, stride, k + 1),
        }
    }
}

/// The volumes of plain sectors in a compressed image.
pub open spec fn chd_plain_names(log: Log) -> Step<Seq<Seq<char>>> {
    match device::probed(log, 0, Probe::XdvdfsDisc, Spot::plain(0, 0)) {
        Step::Ask(q) => Step::Ask(q),
        Step::Fault => Step::Fault,
        Step::Done(true) => Step::Done(seq!["XDVDFS"@]),
        Step::Done(false) => match device::gcm_kind(log, 0) {
            Step::Ask(q) => Step::Ask(q),
            Step::Fault => Step::Fault,
            Step::Done(Some(kind)) => Step::Done(seq![gcm_name(kind)]),
            Step::Done(None) => match volume::iso_volume(
                log,
                0,
                Spot { stride: 2048, ..Spot::plain(0, 0) },
                true,
            ) {
                Step::Ask(q) => Step::Ask(q),
                Step::Fault => Step::Fault,
                Step::Done(Some(n)) => Step::Done(iso_names(n)),
                Step::Done(None) => Step::Done(seq!["ISO 9660"@]),
            },
        },
    }
}

/// The volumes of a compressed image; one that cannot be opened is taken to be
/// ISO 9660.
pub open spec fn chd_names(log: Log, header: Option<ChdHeader>) -> Step<Seq<Seq<char>>> {
    match header {
        None => Step::Done(seq!["ISO 9660"@]),
        Some(h) => {
            let stride = chd::chd_sector_size(h.hunk_size, h.unit_bytes);
            if stride == 2048 {
                chd_plain_names(log)
            } else {
                match chd::threedo_place(log, stride, 0) {
                    Step::Ask(q) => Step::Ask(q),
                    Step::Fault => Step::Fault,
                    Step::Done(Some(_)) => Step::Done(seq!["3DO OperaFS"@]),
                    Step::Done(None) => chd_iso_names(log, stride, 0),
                }
            }
        },
    }
}

fn only_iso(n: u64) -> (r: Vec<String>)
    ensures
        text::string_views(r@) == iso_names(n),
{
    let mut out: Vec<String> = Vec::new();
    push_iso(&mut out, n);
    assert(text::string_views(out@) =~= iso_names(n));
    out
}

fn name_chd_iso(log: &Log, cur: &mut usize, stride: u64) -> (r: Step<Vec<String>>)
    requires
        log.wf(),
        stride <= 2448,
    ensures
        labels_view(r) == chd_iso_names(*log, stride, 0),
{
    let mut k: u64 = 0;
    while k < chd::CHD_PLACES
        invariant
            k <= chd::CHD_PLACES,
            stride <= 2448,
            log.wf(),
            chd_iso_names(*log, stride, 0) == chd_iso_names(*log, stride, k as int),
        decreases chd::CHD_PLACES - k,
    {
        let (pregap, udo) = chd::place(k);
        assert(pregap * stride <= 150 * 2448) by (nonlinear_arith)
            requires
                0 <= pregap <= 150,
                0 <= stride <= 2448,
        ;
        let spot = Spot {
            track_offset: pregap * stride,
            user_data_offset: udo,
            stride,
            lba_offset: 0,
            descramble: false,
        };
        match volume::find_iso_volume(log, cur, 0, spot, true) {
            Step::Ask(q) => {
                return Step::Ask(q);
            },
            Step::Fault => {
                return Step::Fault;
            },
            Step::Done(Some(n)) => {
                return Step::Done(only_iso(n));
            },
            Step::Done(None) => {},
        }
        k += 1;
    }
    Step::Done(one_name("3DO OperaFS"))
}

/// Names the volumes of a compressed image. `header` is `None` where the image
/// could not be opened.
pub fn detect_filesystems_chd(log: &Log, cur: &mut usize, header: Option<ChdHeader>) -> (r: Step<
    Vec<String>,
>)
    requires
        log.wf(),
    ensures
        labels_view(r) == chd_names(*log, header),
{
    let h = match header {
        None => {
            return Step::Done(one_name("ISO 9660"));
        },
        Some(h) => h,
    };
    let stride: u64 = chd::chd_stride(h.hunk_size, h.unit_bytes);
    if stride != 2048 {
        return match chd::find_threedo(log, cur, stride) {
            Step::Ask(q) => Step::Ask(q),
            Step::Fault => Step::Fault,
            Step::Done(Some(_)) => Step::Done(one_name("3DO OperaFS")),
            Step::Done(None) => name_chd_iso(log, cur, stride),
        };
    }
    match device::ask_probe(log, cur, 0, Probe::XdvdfsDisc, Spot::at(0, 0)) {
        Step::Ask(q) => {
            return Step::Ask(q);
        },
        Step::Fault => {
            return Step::Fault;
        },
        Step::Done(found) => {
            if found {
                return Step::Done(one_name("XDVDFS"));
            }
        },
    }
    match device::ask_gcm(log, cur, 0) {
        Step::Ask(q) => {
            return Step::Ask(q);
        },
        Step::Fault => {
            return Step::Fault;
        },
        Step::Done(Some(kind)) => {
            return Step::Done(one_name(gcm_kind_label(kind).as_str()));
        },
        Step::Done(None) => {},
    }
    match volume::find_iso_volume(
        log,
        cur,
        0,
        Spot { stride: 2048, ..Spot::at(0, 0) },
        true,
    ) {
        Step::Ask(q) => Step::Ask(q),
        Step::Fault => Step::Fault,
        Step::Done(Some(n)) => Step::Done(only_iso(n)),
        Step::Done(None) => Step::Done(one_name("ISO 9660")),
    }
}

/// A disc always has a filesystem: no search ends without a name.
pub proof fn lemma_some_filesystem(
    log: Log,
    file: usize,
    offset: u64,
    udo: u64,
    lba_offset: u64,
    descramble: bool,
)
    ensures
        bin_names(log, file, offset, udo, lba_offset, descramble) matches Step::Done(names)
            ==> names.len() > 0,
{
}

/// A disc for two systems shows both: an HFS volume beside an ISO 9660 volume
/// with its Joliet volumes.
pub proof fn lemma_hybrid_disc(
    log: Log,
    file: usize,
    offset: u64,
    udo: u64,
    lba_offset: u64,
    xbox: bool,
    n: u64,
)
    requires
        device::probed(log, file, Probe::HfsDisc, Spot::plain(offset, udo)) == Step::Done(true),
        device::probed(log, file, Probe::UdfDisc, Spot::plain(offset, udo)) == Step::Done(false),
        volume::iso_volume(
            log,
            file,
            Spot { stride: data_stride(udo), lba_offset, ..Spot::plain(offset, udo) },
            false,
        ) == Step::Done(Some(n)),
    ensures
        shared_names(log, file, offset, udo, lba_offset, xbox) == Step::Done(
            (if xbox {
                seq!["XDVDFS"@]
            } else {
                Seq::empty()
            }) + seq!["HFS"@] + iso_names(n),
        ),
{
    let acc: Seq<Seq<char>> = if xbox {
        seq!["XDVDFS"@]
    } else {
        Seq::empty()
    };
    assert(acc.push("HFS"@) =~= acc + seq!["HFS"@]);
}

} // verus!
