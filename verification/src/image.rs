//! Disc images of all formats: which format a file is in, where its data track
//! lies, which filesystem a request is served from, and its raw sectors.
use crate::ccd;
use crate::cdi;
use crate::chd;
use crate::chd::ChdHeader;
use crate::cue;
use crate::cue::CueLine;
use crate::detect;
use crate::device::{Log, Probe, Query, Spot, Step};
use crate::device;
use crate::error::DiscError;
use crate::gdi;
use crate::gdi::GdiRow;
use crate::mds;
use crate::mdx;
use crate::nrg;
use crate::sector;
use crate::text;
use crate::track::DataTrack;
use vstd::prelude::*;

verus! {

// ── Formats ──────────────────────────────────────────────────────────────────

/// The format of an image.
#[derive(Clone, Copy, PartialEq, Eq, Structural, Debug)]
pub enum ImageKind {
    Cue,
    Mds,
    Nrg,
    Ccd,
    Cdi,
    Gdi,
    Chd,
    Mdx,
    /// Any other file: its sectors, one after another.
    Plain,
}

/// The format of the file with this name in lower case.
pub open spec fn kind_of_name(lower: Seq<char>) -> ImageKind {
    if text::ends_with(lower, ".cue"@) {
        ImageKind::Cue
    } else if text::ends_with(lower, ".mds"@) {
        ImageKind::Mds
    } else if text::ends_with(lower, ".nrg"@) {
        ImageKind::Nrg
    } else if text::ends_with(lower, ".ccd"@) {
        ImageKind::Ccd
    } else if text::ends_with(lower, ".cdi"@) {
        ImageKind::Cdi
    } else if text::ends_with(lower, ".gdi"@) {
        ImageKind::Gdi
    } else if text::ends_with(lower, ".chd"@) {
        ImageKind::Chd
    } else if text::ends_with(lower, ".mdx"@) {
        ImageKind::Mdx
    } else {
        ImageKind::Plain
    }
}

/// Tells the format of the file with this name in lower case.
pub fn kind_of_lower(lower: &str) -> (r: ImageKind)
    ensures
        r == kind_of_name(lower@),
{
    let c = text::chars_of(lower);
    let s = c.as_slice();
    if text::ends(s, ".cue") {
        ImageKind::Cue
    } else if text::ends(s, ".mds") {
        ImageKind::Mds
    } else if text::ends(s, ".nrg") {
        ImageKind::Nrg
    } else if text::ends(s, ".ccd") {
        ImageKind::Ccd
    } else if text::ends(s, ".cdi") {
        ImageKind::Cdi
    } else if text::ends(s, ".gdi") {
        ImageKind::Gdi
    } else if text::ends(s, ".chd") {
        ImageKind::Chd
    } else if text::ends(s, ".mdx") {
        ImageKind::Mdx
    } else {
        ImageKind::Plain
    }
}

/// Tells the format of a file by its name, without regard to letter case.
pub fn image_kind(path: &str) -> (r: ImageKind)
    ensures
        r == kind_of_name(text::unicode_lower(path@)),
{
    let lower = path.to_lowercase();
    kind_of_lower(lower.as_str())
}

/// An image, with what has been read of its description.
#[derive(Debug)]
pub enum Image {
    /// The lines of a sheet, and a number for each of its files: two files
    /// have the same number where they are one.
    Cue { lines: Vec<CueLine>, same: Vec<usize> },
    /// The bytes of a descriptor. File 0 is its `.mdf` file.
    Mds(Vec<u8>),
    /// The bytes of the image, which is file 0.
    Nrg(Vec<u8>),
    /// The text of a control file. File 0 is its `.img` file.
    Ccd(String),
    /// File 0 is the image.
    Cdi,
    /// The rows of an index, whose files are numbered like the rows.
    Gdi(Vec<GdiRow>),
    /// The header. File 0 is the stream of decompressed bytes.
    Chd(ChdHeader),
    /// File 0 is the image.
    Mdx,
    /// File 0 is the image.
    Plain,
}

impl Image {
    /// Each file of a sheet has a number.
    pub open spec fn wf(self) -> bool {
        match self {
            Image::Cue { lines, same } => same@.len() == cue::cue_names(
                cue::line_views(lines@),
                0,
            ).len(),
            _ => true,
        }
    }

    /// The data track. An image that does not describe its tracks is one
    /// track.
    pub open spec fn data(self, log: Log) -> Step<Result<DataTrack, DiscError>> {
        match self {
            Image::Cue { lines, same } => cue::cue_image(log, cue::line_views(lines@), same@),
            Image::Mds(d) => mds::mds_image(log, d@),
            Image::Nrg(d) => nrg::nrg_image(log, d@),
            Image::Ccd(s) => ccd::ccd_image(log, s@),
            Image::Cdi => cdi::cdi_image(log),
            Image::Gdi(rows) => gdi::gdi_choice(log, gdi::row_views(rows@), 0, None),
            Image::Chd(_) => Step::Done(Ok(whole_track(0))),
            Image::Mdx => match mdx::mdx_image(log) {
                Step::Ask(q) => Step::Ask(q),
                Step::Fault => Step::Fault,
                Step::Done(t) => Step::Done(Ok(t)),
            },
            Image::Plain => match sector::raw_offset(log, 0) {
                Step::Ask(q) => Step::Ask(q),
                Step::Fault => Step::Fault,
                Step::Done(udo) => Step::Done(Ok(whole_track(udo))),
            },
        }
    }

    /// Finds the data track.
    pub fn data_track(&self, log: &Log, cur: &mut usize) -> (r: Step<Result<DataTrack, DiscError>>)
        requires
            log.wf(),
            self.wf(),
        ensures
            r == self.data(*log),
    {
        match self {
            Image::Cue { lines, same } => cue::parse_cue_for_data_track(log, cur, lines, same),
            Image::Mds(d) => mds::parse_mds_for_data_track(log, cur, d.as_slice()),
            Image::Nrg(d) => nrg::parse_nrg_for_data_track(log, cur, d.as_slice()),
            Image::Ccd(s) => ccd::parse_ccd_for_data_track(log, cur, s.as_str()),
            Image::Cdi => cdi::parse_cdi_for_data_track(log, cur),
            Image::Gdi(rows) => gdi::parse_gdi_for_data_track(log, cur, rows),
            Image::Chd(_) => Step::Done(Ok(whole(0))),
            Image::Mdx => match mdx::parse_mdx_as_data_track(log, cur) {
                Step::Ask(q) => Step::Ask(q),
                Step::Fault => Step::Fault,
                Step::Done(t) => Step::Done(Ok(t)),
            },
            Image::Plain => match sector::ask_raw_offset(log, cur, 0) {
                Step::Ask(q) => Step::Ask(q),
                Step::Fault => Step::Fault,
                Step::Done(udo) => Step::Done(Ok(whole(udo))),
            },
        }
    }
}

/// All sectors of a file, as one data track.
pub open spec fn whole_track(udo: u64) -> DataTrack {
    DataTrack {
        bin: 0,
        track_offset: 0,
        user_data_offset: udo,
        stride: sector::RAW_SECTOR_SIZE,
        lba_offset: 0,
        descramble: false,
        sector_count: 0,
    }
}

fn whole(udo: u64) -> (r: DataTrack)
    ensures
        r == whole_track(udo),
{
    DataTrack {
        bin: 0,
        track_offset: 0,
        user_data_offset: udo,
        stride: sector::RAW_SECTOR_SIZE,
        lba_offset: 0,
        descramble: false,
        sector_count: 0,
    }
}

// ── The filesystems of an image ──────────────────────────────────────────────

/// What a step to names or an error holds.
pub open spec fn names_view(s: Step<Result<Vec<String>, DiscError>>) -> Step<
    Result<Seq<Seq<char>>, DiscError>,
> {
    match s {
        Step::Ask(q) => Step::Ask(q),
        Step::Fault => Step::Fault,
        Step::Done(Ok(v)) => Step::Done(Ok(text::string_views(v@))),
        Step::Done(Err(e)) => Step::Done(Err(e)),
    }
}

/// A step that cannot fail, as one that can.
pub open spec fn always_ok<T>(s: Step<T>) -> Step<Result<T, DiscError>> {
    match s {
        Step::Ask(q) => Step::Ask(q),
        Step::Fault => Step::Fault,
        Step::Done(v) => Step::Done(Ok(v)),
    }
}

fn ok_names(s: Step<Vec<String>>) -> (r: Step<Result<Vec<String>, DiscError>>)
    ensures
        names_view(r) == always_ok(detect::labels_view(s)),
{
    match s {
        Step::Ask(q) => Step::Ask(q),
        Step::Fault => Step::Fault,
        Step::Done(v) => Step::Done(Ok(v)),
    }
}

/// The names of the filesystems of an image.
pub open spec fn disc_filesystems(log: Log, image: Image) -> Step<
    Result<Seq<Seq<char>>, DiscError>,
> {
    match image {
        Image::Chd(h) => always_ok(detect::chd_names(log, Some(h))),
        Image::Mdx => always_ok(detect::mdx_names(log)),
        Image::Plain => always_ok(detect::raw_names(log)),
        _ => match image.data(log) {
            Step::Ask(q) => Step::Ask(q),
            Step::Fault => Step::Fault,
            Step::Done(Err(e)) => Step::Done(Err(e)),
            Step::Done(Ok(t)) => always_ok(
                detect::bin_names(
                    log,
                    t.bin,
                    t.track_offset,
                    t.user_data_offset,
                    t.lba_offset,
                    t.descramble,
                ),
            ),
        },
    }
}

/// Names the filesystems of an image.
pub fn get_disc_filesystems(log: &Log, cur: &mut usize, image: &Image) -> (r: Step<
    Result<Vec<String>, DiscError>,
>)
    requires
        log.wf(),
        image.wf(),
    ensures
        names_view(r) == disc_filesystems(*log, *image),
{
    match image {
        Image::Chd(h) => ok_names(detect::detect_filesystems_chd(log, cur, Some(*h))),
        Image::Mdx => ok_names(detect::detect_filesystems_mdx(log, cur)),
        Image::Plain => ok_names(detect::detect_filesystems_raw(log, cur)),
        _ => match image.data_track(log, cur) {
            Step::Ask(q) => Step::Ask(q),
            Step::Fault => Step::Fault,
            Step::Done(Err(e)) => Step::Done(Err(e)),
            Step::Done(Ok(t)) => ok_names(
                detect::detect_filesystems_in_bin(
                    log,
                    cur,
                    t.bin,
                    t.track_offset,
                    t.user_data_offset,
                    t.lba_offset,
                    t.descramble,
                ),
            ),
        },
    }
}

// ── The filesystem of a request ──────────────────────────────────────────────

/// A filesystem that a request is served from.
#[derive(Clone, Copy, PartialEq, Eq, Structural, Debug)]
pub enum Filesystem {
    Cdi,
    Pce,
    ThreeDo,
    Xdvdfs,
    Gcm,
    Hfs,
    Udf,
    Iso,
}

/// Where a request is served from.
#[derive(Clone, Copy, PartialEq, Eq, Structural, Debug)]
pub enum Source {
    /// A filesystem on a data track.
    Track { fs: Filesystem, track: DataTrack },
    /// The ISO 9660 volume of a sheet, which may span several files.
    Sheet,
    /// A filesystem in the stream of a compressed image.
    Stream(Filesystem),
    /// The ISO 9660 volume in the plain sectors of a single-file media
    /// descriptor.
    Mdx,
    /// The ISO 9660 volume in the plain sectors of a file.
    Plain,
}

/// The request names no filesystem, or this one.
pub open spec fn matches_fs(fs: Option<Seq<char>>, target: Seq<char>) -> bool {
    fs matches Some(s) ==> s == target
}

/// The request names no filesystem, or a version of UDF.
pub open spec fn matches_udf(fs: Option<Seq<char>>) -> bool {
    fs matches Some(s) ==> text::starts_with(s, "UDF"@)
}

/// The request names no filesystem, or a GCM disc.
pub open spec fn matches_gcm(fs: Option<Seq<char>>) -> bool {
    fs matches Some(s) ==> s == "GameCube GCM"@ || s == "Wii GCM"@
}

/// Whether a request names no filesystem, or this one.
pub fn fs_matches(fs: &Option<String>, target: &str) -> (r: bool)
    ensures
        r == matches_fs(text::opt_view(*fs), target@),
{
    match fs {
        Some(s) => text::same_str(s.as_str(), target),
        None => true,
    }
}

/// Whether a request names no filesystem, or a version of UDF.
pub fn fs_matches_udf(fs: &Option<String>) -> (r: bool)
    ensures
        r == matches_udf(text::opt_view(*fs)),
{
    match fs {
        Some(s) => text::str_begins(s.as_str(), "UDF"),
        None => true,
    }
}

/// Whether a request names no filesystem, or a GCM disc.
pub fn fs_matches_gcm(fs: &Option<String>) -> (r: bool)
    ensures
        r == matches_gcm(text::opt_view(*fs)),
{
    match fs {
        Some(s) => text::same_str(s.as_str(), "GameCube GCM") || text::same_str(
            s.as_str(),
            "Wii GCM",
        ),
        None => true,
    }
}

/// The probes that a search runs through, in its order.
pub open spec fn track_order() -> Seq<Filesystem> {
    seq![
        Filesystem::Cdi,
        Filesystem::Pce,
        Filesystem::ThreeDo,
        Filesystem::Xdvdfs,
        Filesystem::Gcm,
        Filesystem::Hfs,
        Filesystem::Udf,
    ]
}

/// The order for a single-file media descriptor.
pub open spec fn mdx_order() -> Seq<Filesystem> {
    seq![
        Filesystem::Cdi,
        Filesystem::Pce,
        Filesystem::ThreeDo,
        Filesystem::Hfs,
        Filesystem::Udf,
    ]
}

/// The order for a file that is one track.
pub open spec fn plain_order() -> Seq<Filesystem> {
    seq![
        Filesystem::Pce,
        Filesystem::ThreeDo,
        Filesystem::Xdvdfs,
        Filesystem::Gcm,
        Filesystem::Udf,
        Filesystem::Hfs,
    ]
}

/// Where a filesystem is looked for on a track.
pub open spec fn spot_of(fs: Filesystem, t: DataTrack) -> Spot {
    match fs {
        Filesystem::Cdi => Spot {
            track_offset: t.track_offset,
            user_data_offset: t.user_data_offset,
            stride: 0,
            lba_offset: t.lba_offset,
            descramble: t.descramble,
        },
        _ => Spot::plain(t.track_offset, t.user_data_offset),
    }
}

/// A filesystem is on a track. CD-i, PC Engine and 3DO tracks are recognised
/// whatever the request names; another filesystem only where the request names
/// it or none. Xbox and GCM discs have plain sectors.
pub open spec fn is_on(log: Log, fs: Filesystem, t: DataTrack, request: Option<Seq<char>>) -> Step<
    bool,
> {
    let spot = spot_of(fs, t);
    match fs {
        Filesystem::Cdi => device::probed(log, t.bin, Probe::CdiDisc, spot),
        Filesystem::Pce => device::probed(log, t.bin, Probe::PceDisc, spot),
        Filesystem::ThreeDo => device::probed(log, t.bin, Probe::ThreeDoDisc, spot),
        Filesystem::Xdvdfs => if matches_fs(request, "XDVDFS"@) && t.user_data_offset == 0 {
            device::probed(log, t.bin, Probe::XdvdfsDisc, spot)
        } else {
            Step::Done(false)
        },
        Filesystem::Gcm => if matches_gcm(request) && t.user_data_offset == 0 {
            match device::gcm_kind(log, t.bin) {
                Step::Ask(q) => Step::Ask(q),
                Step::Fault => Step::Fault,
                Step::Done(kind) => Step::Done(kind is Some),
            }
        } else {
            Step::Done(false)
        },
        Filesystem::Hfs => if matches_fs(request, "HFS"@) {
            device::probed(log, t.bin, Probe::HfsDisc, spot)
        } else {
            Step::Done(false)
        },
        Filesystem::Udf => if matches_udf(request) {
            device::probed(log, t.bin, Probe::UdfDisc, spot)
        } else {
            Step::Done(false)
        },
        Filesystem::Iso => Step::Done(true),
    }
}

fn probe_of(fs: Filesystem, t: DataTrack) -> (r: Spot)
    ensures
        r == spot_of(fs, t),
{
    match fs {
        Filesystem::Cdi => Spot {
            track_offset: t.track_offset,
            user_data_offset: t.user_data_offset,
            stride: 0,
            lba_offset: t.lba_offset,
            descramble: t.descramble,
        },
        _ => Spot::at(t.track_offset, t.user_data_offset),
    }
}

fn ask_on(
    log: &Log,
    cur: &mut usize,
    fs: Filesystem,
    t: DataTrack,
    request: &Option<String>,
) -> (r: Step<bool>)
    requires
        log.wf(),
    ensures
        r == is_on(*log, fs, t, text::opt_view(*request)),
{
    let spot = probe_of(fs, t);
    match fs {
        Filesystem::Cdi => device::ask_probe(log, cur, t.bin, Probe::CdiDisc, spot),
        Filesystem::Pce => device::ask_probe(log, cur, t.bin, Probe::PceDisc, spot),
        Filesystem::ThreeDo => device::ask_probe(log, cur, t.bin, Probe::ThreeDoDisc, spot),
        Filesystem::Xdvdfs => if fs_matches(request, "XDVDFS") && t.user_data_offset == 0 {
            device::ask_probe(log, cur, t.bin, Probe::XdvdfsDisc, spot)
        } else {
            Step::Done(false)
        },
        Filesystem::Gcm => if fs_matches_gcm(request) && t.user_data_offset == 0 {
            match device::ask_gcm(log, cur, t.bin) {
                Step::Ask(q) => Step::Ask(q),
                Step::Fault => Step::Fault,
                Step::Done(kind) => Step::Done(kind.is_some()),
            }
        } else {
            Step::Done(false)
        },
        Filesystem::Hfs => if fs_matches(request, "HFS") {
            device::ask_probe(log, cur, t.bin, Probe::HfsDisc, spot)
        } else {
            Step::Done(false)
        },
        Filesystem::Udf => if fs_matches_udf(request) {
            device::ask_probe(log, cur, t.bin, Probe::UdfDisc, spot)
        } else {
            Step::Done(false)
        },
        Filesystem::Iso => Step::Done(true),
    }
}

/// The first filesystem of `order` from `i` on that is on the track; ISO 9660
/// where none is. With `opened`, a UDF volume counts only where it can be
/// opened.
pub open spec fn first_on(
    log: Log,
    order: Seq<Filesystem>,
    i: int,
    t: DataTrack,
    request: Option<Seq<char>>,
    opened: bool,
) -> Step<Filesystem>
    decreases order.len() - i,
{
    if i < 0 || i >= order.len() {
        Step::Done(Filesystem::Iso)
    } else {
        let version = Query::Probe {
            file: t.bin,
            probe: Probe::UdfVersion,
            spot: spot_of(Filesystem::Udf, t),
        };
        match is_on(log, order[i], t, request) {
            Step::Ask(q) => Step::Ask(q),
            Step::Fault => Step::Fault,
            Step::Done(false) => first_on(log, order, i + 1, t, request, opened),
            Step::Done(true) => if opened && order[i] == Filesystem::Udf {
                match log.known(version) {
                    None => Step::Ask(version),
                    Some(r) => if r.label() is Some {
                        Step::Done(order[i])
                    } else {
                        first_on(log, order, i + 1, t, request, opened)
                    },
                }
            } else {
                Step::Done(order[i])
            },
        }
    }
}

fn find_on(
    log: &Log,
    cur: &mut usize,
    order: &[Filesystem],
    t: DataTrack,
    request: &Option<String>,
    opened: bool,
) -> (r: Step<Filesystem>)
    requires
        log.wf(),
    ensures
        r == first_on(*log, order@, 0, t, text::opt_view(*request), opened),
{
    let ghost req = text::opt_view(*request);
    let mut i: usize = 0;
    while i < order.len()
        invariant
            i <= order@.len(),
            log.wf(),
            req == text::opt_view(*request),
            first_on(*log, order@, 0, t, req, opened) == first_on(
                *log,
                order@,
                i as int,
                t,
                req,
                opened,
            ),
        decreases order@.len() - i,
    {
        match ask_on(log, cur, order[i], t, request) {
            Step::Ask(q) => {
                return Step::Ask(q);
            },
            Step::Fault => {
                return Step::Fault;
            },
            Step::Done(false) => {},
            Step::Done(true) => {
                if !(opened && order[i] == Filesystem::Udf) {
                    return Step::Done(order[i]);
                }
                let version = Query::Probe {
                    file: t.bin,
                    probe: Probe::UdfVersion,
                    spot: probe_of(Filesystem::Udf, t),
                };
                match log.label(version, cur) {
                    None => {
                        return Step::Ask(version);
                    },
                    Some(Some(_)) => {
                        return Step::Done(order[i]);
                    },
                    Some(None) => {},
                }
            },
        }
        i += 1;
    }
    Step::Done(Filesystem::Iso)
}

/// The filesystem of a compressed image, by the name in the request alone.
pub open spec fn stream_fs(request: Option<Seq<char>>) -> Filesystem {
    match request {
        Some(s) => if s == "3DO OperaFS"@ {
            Filesystem::ThreeDo
        } else if s == "XDVDFS"@ {
            Filesystem::Xdvdfs
        } else if s == "GameCube GCM"@ || s == "Wii GCM"@ {
            Filesystem::Gcm
        } else {
            Filesystem::Iso
        },
        None => Filesystem::Iso,
    }
}

fn stream_of(request: &Option<String>) -> (r: Filesystem)
    ensures
        r == stream_fs(text::opt_view(*request)),
{
    match request {
        Some(s) => if text::same_str(s.as_str(), "3DO OperaFS") {
            Filesystem::ThreeDo
        } else if text::same_str(s.as_str(), "XDVDFS") {
            Filesystem::Xdvdfs
        } else if text::same_str(s.as_str(), "GameCube GCM") || text::same_str(
            s.as_str(),
            "Wii GCM",
        ) {
            Filesystem::Gcm
        } else {
            Filesystem::Iso
        },
        None => Filesystem::Iso,
    }
}

/// Where a request on the data track `t` of an image is served from.
pub open spec fn source_on(
    log: Log,
    image: Image,
    t: DataTrack,
    request: Option<Seq<char>>,
) -> Step<Source> {
    let found = match image {
        Image::Mdx => first_on(log, mdx_order(), 0, t, None, false),
        Image::Plain => first_on(log, plain_order(), 0, t, request, true),
        _ => first_on(log, track_order(), 0, t, request, false),
    };
    if image is Mdx && t.user_data_offset == 0 {
        Step::Done(Source::Mdx)
    } else {
        match found {
            Step::Ask(q) => Step::Ask(q),
            Step::Fault => Step::Fault,
            Step::Done(fs) => Step::Done(
                if fs == Filesystem::Iso && image is Cue {
                    Source::Sheet
                } else if fs == Filesystem::Iso && image is Plain && t.user_data_offset == 0 {
                    Source::Plain
                } else {
                    Source::Track { fs, track: t }
                },
            ),
        }
    }
}

/// Where a request is served from. A compressed image goes by the request
/// alone; any other image by what is on its data track.
pub open spec fn request_source(log: Log, image: Image, request: Option<Seq<char>>) -> Step<
    Result<Source, DiscError>,
> {
    match image {
        Image::Chd(_) => Step::Done(Ok(Source::Stream(stream_fs(request)))),
        _ => match image.data(log) {
            Step::Ask(q) => Step::Ask(q),
            Step::Fault => Step::Fault,
            Step::Done(Err(e)) => Step::Done(Err(e)),
            Step::Done(Ok(t)) => always_ok(source_on(log, image, t, request)),
        },
    }
}

/// Finds out where a request on an image is served from: the listing of a
/// directory, the saving of a file and the saving of a directory alike.
/// `filesystem` is the filesystem that the request names.
pub fn choose_source(log: &Log, cur: &mut usize, image: &Image, filesystem: &Option<String>) -> (r:
    Step<Result<Source, DiscError>>)
    requires
        log.wf(),
        image.wf(),
    ensures
        r == request_source(*log, *image, text::opt_view(*filesystem)),
{
    if let Image::Chd(_) = image {
        return Step::Done(Ok(Source::Stream(stream_of(filesystem))));
    }
    let t: DataTrack = match image.data_track(log, cur) {
        Step::Ask(q) => {
            return Step::Ask(q);
        },
        Step::Fault => {
            return Step::Fault;
        },
        Step::Done(Err(e)) => {
            return Step::Done(Err(e));
        },
        Step::Done(Ok(t)) => t,
    };
    let found: Step<Filesystem> = match image {
        Image::Mdx => {
            if t.user_data_offset == 0 {
                return Step::Done(Ok(Source::Mdx));
            }
            let order: [Filesystem; 5] = [
                Filesystem::Cdi,
                Filesystem::Pce,
                Filesystem::ThreeDo,
                Filesystem::Hfs,
                Filesystem::Udf,
            ];
            assert(order@ =~= mdx_order());
            find_on(log, cur, &order, t, &None, false)
        },
        Image::Plain => {
            let order: [Filesystem; 6] = [
                Filesystem::Pce,
                Filesystem::ThreeDo,
                Filesystem::Xdvdfs,
                Filesystem::Gcm,
                Filesystem::Udf,
                Filesystem::Hfs,
            ];
            assert(order@ =~= plain_order());
            find_on(log, cur, &order, t, filesystem, true)
        },
        _ => {
            let order: [Filesystem; 7] = [
                Filesystem::Cdi,
                Filesystem::Pce,
                Filesystem::ThreeDo,
                Filesystem::Xdvdfs,
                Filesystem::Gcm,
                Filesystem::Hfs,
                Filesystem::Udf,
            ];
            assert(order@ =~= track_order());
            find_on(log, cur, &order, t, filesystem, false)
        },
    };
    match found {
        Step::Ask(q) => Step::Ask(q),
        Step::Fault => Step::Fault,
        Step::Done(fs) => {
            let source = match image {
                Image::Cue { .. } => if fs == Filesystem::Iso {
                    Source::Sheet
                } else {
                    Source::Track { fs, track: t }
                },
                Image::Plain => if fs == Filesystem::Iso && t.user_data_offset == 0 {
                    Source::Plain
                } else {
                    Source::Track { fs, track: t }
                },
                _ => Source::Track { fs, track: t },
            };
            Step::Done(Ok(source))
        },
    }
}

/// A request is served from the filesystem that it names, where it names one
/// of those that a search passes over unless they are asked for: a source
/// other than CD-i, PC Engine, 3DO and ISO 9660 is one that the request
/// admits.
pub proof fn lemma_source_is_admitted(
    log: Log,
    order: Seq<Filesystem>,
    i: int,
    t: DataTrack,
    request: Option<Seq<char>>,
    opened: bool,
)
    ensures
        first_on(log, order, i, t, request, opened) matches Step::Done(fs) ==> {
            &&& fs == Filesystem::Xdvdfs ==> matches_fs(request, "XDVDFS"@)
            &&& fs == Filesystem::Gcm ==> matches_gcm(request)
            &&& fs == Filesystem::Hfs ==> matches_fs(request, "HFS"@)
            &&& fs == Filesystem::Udf ==> matches_udf(request)
        },
    decreases order.len() - i,
{
    if 0 <= i < order.len() {
        lemma_source_is_admitted(log, order, i + 1, t, request, opened);
    }
}

/// What a request is served from was found on the track: ISO 9660, or a
/// filesystem whose probe found something.
pub proof fn lemma_source_was_found(
    log: Log,
    order: Seq<Filesystem>,
    i: int,
    t: DataTrack,
    request: Option<Seq<char>>,
    opened: bool,
)
    ensures
        first_on(log, order, i, t, request, opened) matches Step::Done(fs) ==> fs
            == Filesystem::Iso || is_on(log, fs, t, request) == Step::Done(true),
    decreases order.len() - i,
{
    if 0 <= i < order.len() {
        lemma_source_was_found(log, order, i + 1, t, request, opened);
    }
}

/// A request that is served from a track is served from the image's data
/// track, and from a filesystem that is on it and that the request admits;
/// ISO 9660 is taken where no other is found. A single-file media descriptor
/// is searched without regard to the request.
pub proof fn lemma_source_of_request(
    log: Log,
    image: Image,
    request: Option<Seq<char>>,
    fs: Filesystem,
    track: DataTrack,
)
    requires
        request_source(log, image, request) == Step::Done(
            Ok::<Source, DiscError>(Source::Track { fs, track }),
        ),
    ensures
        image.data(log) == Step::Done(Ok::<DataTrack, DiscError>(track)),
        fs == Filesystem::Iso || is_on(
            log,
            fs,
            track,
            if image is Mdx {
                None
            } else {
                request
            },
        ) == Step::Done(true),
{
    lemma_source_was_found(log, mdx_order(), 0, track, None, false);
    lemma_source_was_found(log, plain_order(), 0, track, request, true);
    lemma_source_was_found(log, track_order(), 0, track, request, false);
}

// ── Raw sectors ──────────────────────────────────────────────────────────────

/// A sector of an image, as it is shown to the user.
#[derive(PartialEq, Eq, Debug)]
pub struct SectorData {
    pub bytes: Vec<u8>,
    pub sector_size: u32,
    pub user_data_offset: u32,
    pub total_sectors: u64,
    pub lba: u64,
}

/// What a sector holds.
pub struct SectorDataView {
    pub bytes: Seq<u8>,
    pub sector_size: u32,
    pub user_data_offset: u32,
    pub total_sectors: u64,
    pub lba: u64,
}

impl View for SectorData {
    type V = SectorDataView;

    open spec fn view(&self) -> SectorDataView {
        SectorDataView {
            bytes: self.bytes@,
            sector_size: self.sector_size,
            user_data_offset: self.user_data_offset,
            total_sectors: self.total_sectors,
            lba: self.lba,
        }
    }
}

/// What a step to a sector holds.
pub open spec fn sector_view(s: Step<Result<SectorData, DiscError>>) -> Step<
    Result<SectorDataView, DiscError>,
> {
    match s {
        Step::Ask(q) => Step::Ask(q),
        Step::Fault => Step::Fault,
        Step::Done(Ok(d)) => Step::Done(Ok(d@)),
        Step::Done(Err(e)) => Step::Done(Err(e)),
    }
}

/// How the sectors of an image are numbered for viewing.
#[derive(Clone, Copy, PartialEq, Eq, Structural, Debug)]
pub struct Geometry {
    pub file: usize,
    pub sector_size: u64,
    pub user_data_offset: u64,
    /// Byte offset of sector 0.
    pub data_offset: u64,
}

/// The numbering by the data track `t`. Sheets and media descriptors are
/// viewed from the first byte of the track's file on, the other formats from
/// the first byte of the track on. The `.mdf` file of a DVD holds plain sectors,
/// that of a CD raw ones.
pub open spec fn geometry_of(image: Image, t: DataTrack) -> Geometry {
    Geometry {
        file: t.bin,
        user_data_offset: t.user_data_offset,
        sector_size: match image {
            Image::Cdi => t.stride,
            Image::Gdi(_) => t.stride,
            Image::Cue { .. } => sector::RAW_SECTOR_SIZE,
            Image::Mds(_) => t.stride,
            Image::Ccd(_) => sector::RAW_SECTOR_SIZE,
            _ => detect::data_stride(t.user_data_offset),
        },
        data_offset: match image {
            Image::Cue { .. } => 0,
            Image::Mds(_) => 0,
            _ => t.track_offset,
        },
    }
}

fn geometry(image: &Image, t: DataTrack) -> (r: Geometry)
    ensures
        r == geometry_of(*image, t),
{
    let by_offset: u64 = if t.user_data_offset > 0 {
        sector::RAW_SECTOR_SIZE
    } else {
        sector::DATA_SECTOR_SIZE
    };
    let (sector_size, data_offset): (u64, u64) = match image {
        Image::Cdi => (t.stride, t.track_offset),
        Image::Gdi(_) => (t.stride, t.track_offset),
        Image::Cue { .. } => (sector::RAW_SECTOR_SIZE, 0),
        Image::Mds(_) => (t.stride, 0),
        Image::Ccd(_) => (sector::RAW_SECTOR_SIZE, t.track_offset),
        _ => (by_offset, t.track_offset),
    };
    Geometry { file: t.bin, sector_size, user_data_offset: t.user_data_offset, data_offset }
}

/// Sector `lba` of `total` sectors, of which `empty` says that there is none.
pub open spec fn in_range(lba: u64, total: u64, empty: DiscError) -> Result<(), DiscError> {
    if total == 0 {
        Err(empty)
    } else if lba >= total {
        Err(DiscError::SectorRange { lba, last: (total - 1) as u64 })
    } else {
        Ok(())
    }
}

fn check_range(lba: u64, total: u64, empty: DiscError) -> (r: Result<(), DiscError>)
    ensures
        r == in_range(lba, total, empty),
{
    if total == 0 {
        Err(empty)
    } else if lba >= total {
        Err(DiscError::SectorRange { lba, last: total - 1 })
    } else {
        Ok(())
    }
}

/// Sector `lba` by a numbering.
pub open spec fn sector_by(log: Log, g: Geometry, lba: u64) -> Step<
    Result<SectorDataView, DiscError>,
> {
    let size = Query::Size { file: g.file };
    match log.known(size) {
        None => Step::Ask(size),
        Some(n) => match n.size() {
            None => Step::Done(Err(DiscError::ImageStat)),
            Some(n) => if g.sector_size == 0 {
                Step::Fault
            } else {
                let total = cue::less(n, g.data_offset) / g.sector_size;
                match in_range(lba, total, DiscError::ImageEmpty) {
                    Err(e) => Step::Done(Err(e)),
                    Ok(()) => {
                        let q = Query::Read {
                            file: g.file,
                            offset: (g.data_offset + lba * g.sector_size) as u64,
                            len: g.sector_size,
                        };
                        match log.known(q) {
                            None => Step::Ask(q),
                            Some(r) => if r.bytes().len() < g.sector_size {
                                Step::Done(Err(DiscError::Read))
                            } else {
                                Step::Done(
                                    Ok(
                                        SectorDataView {
                                            bytes: r.bytes(),
                                            sector_size: g.sector_size as u32,
                                            user_data_offset: g.user_data_offset as u32,
                                            total_sectors: total,
                                            lba,
                                        },
                                    ),
                                )
                            },
                        }
                    },
                }
            },
        },
    }
}

/// Sector `lba` of the stream of a compressed image. Where its user data
/// begins is told by the sector itself.
pub open spec fn sector_of_stream(log: Log, h: ChdHeader, lba: u64) -> Step<
    Result<SectorDataView, DiscError>,
> {
    let stride = chd::chd_sector_size(h.hunk_size, h.unit_bytes);
    let total = h.logical_bytes / stride;
    match in_range(lba, total, DiscError::ChdEmpty) {
        Err(e) => Step::Done(Err(e)),
        Ok(()) => {
            let q = Query::Read { file: 0, offset: (lba * stride) as u64, len: stride };
            match log.known(q) {
                None => Step::Ask(q),
                Some(r) => if r.bytes().len() < stride {
                    Step::Done(Err(DiscError::Read))
                } else {
                    Step::Done(
                        Ok(
                            SectorDataView {
                                bytes: r.bytes(),
                                sector_size: stride as u32,
                                user_data_offset: if stride > 2048 {
                                    sector::sector_format(r.bytes()).1 as u32
                                } else {
                                    0
                                },
                                total_sectors: total,
                                lba,
                            },
                        ),
                    )
                },
            }
        },
    }
}

/// Sector `lba` of an image.
pub open spec fn image_sector(log: Log, image: Image, lba: u64) -> Step<
    Result<SectorDataView, DiscError>,
> {
    match image {
        Image::Chd(h) => sector_of_stream(log, h, lba),
        _ => match image.data(log) {
            Step::Ask(q) => Step::Ask(q),
            Step::Fault => Step::Fault,
            Step::Done(Err(e)) => Step::Done(Err(e)),
            Step::Done(Ok(t)) => sector_by(log, geometry_of(image, t), lba),
        },
    }
}

proof fn lemma_sector_is_inside(n: int, offset: int, size: int, lba: int)
    requires
        0 <= offset,
        0 < size,
        offset <= n,
        0 <= lba < (n - offset) / size,
    ensures
        offset + lba * size + size <= n,
        0 <= lba * size,
{
    let q = (n - offset) / size;
    vstd::arithmetic::div_mod::lemma_fundamental_div_mod(n - offset, size);
    vstd::arithmetic::div_mod::lemma_mod_bound(n - offset, size);
    vstd::arithmetic::mul::lemma_mul_inequality(lba + 1, q, size);
    assert((lba + 1) * size == lba * size + size && q * size == size * q && 0 <= lba * size)
        by (nonlinear_arith)
        requires
            0 <= lba,
            0 < size,
    ;
}

fn read_by(log: &Log, cur: &mut usize, g: Geometry, lba: u64) -> (r: Step<
    Result<SectorData, DiscError>,
>)
    requires
        log.wf(),
    ensures
        sector_view(r) == sector_by(*log, g, lba),
{
    let size = Query::Size { file: g.file };
    let n: u64 = match log.size(size, cur) {
        None => {
            return Step::Ask(size);
        },
        Some(None) => {
            return Step::Done(Err(DiscError::ImageStat));
        },
        Some(Some(n)) => n,
    };
    if g.sector_size == 0 {
        return Step::Fault;
    }
    let total: u64 = n.saturating_sub(g.data_offset) / g.sector_size;
    match check_range(lba, total, DiscError::ImageEmpty) {
        Err(e) => {
            return Step::Done(Err(e));
        },
        Ok(()) => {},
    }
    proof {
        if n < g.data_offset {
            assert(0int / (g.sector_size as int) == 0) by (nonlinear_arith)
                requires
                    g.sector_size > 0,
            ;
        }
        lemma_sector_is_inside(
            n as int,
            g.data_offset as int,
            g.sector_size as int,
            lba as int,
        );
    }
    let offset: u64 = g.data_offset + lba * g.sector_size;
    let q = Query::Read { file: g.file, offset, len: g.sector_size };
    match log.bytes(q, cur) {
        None => Step::Ask(q),
        Some(b) => {
            if (b.len() as u64) < g.sector_size {
                return Step::Done(Err(DiscError::Read));
            }
            let bytes = crate::bytes::copy_range(b, 0, b.len());
            assert(bytes@ =~= b@);
            Step::Done(
                Ok(
                    SectorData {
                        bytes,
                        sector_size: #[verifier::truncate] (g.sector_size as u32),
                        user_data_offset: #[verifier::truncate] (g.user_data_offset as u32),
                        total_sectors: total,
                        lba,
                    },
                ),
            )
        },
    }
}

fn read_stream(log: &Log, cur: &mut usize, h: ChdHeader, lba: u64) -> (r: Step<
    Result<SectorData, DiscError>,
>)
    requires
        log.wf(),
    ensures
        sector_view(r) == sector_of_stream(*log, h, lba),
{
    let stride: u64 = chd::chd_stride(h.hunk_size, h.unit_bytes);
    let total: u64 = h.logical_bytes / stride;
    match check_range(lba, total, DiscError::ChdEmpty) {
        Err(e) => {
            return Step::Done(Err(e));
        },
        Ok(()) => {},
    }
    proof {
        lemma_sector_is_inside(h.logical_bytes as int, 0, stride as int, lba as int);
    }
    let q = Query::Read { file: 0, offset: lba * stride, len: stride };
    match log.bytes(q, cur) {
        None => Step::Ask(q),
        Some(b) => {
            if (b.len() as u64) < stride {
                return Step::Done(Err(DiscError::Read));
            }
            let udo: u64 = if stride > 2048 {
                sector::detect_sector_format_at(b).1
            } else {
                0
            };
            let bytes = crate::bytes::copy_range(b, 0, b.len());
            assert(bytes@ =~= b@);
            Step::Done(
                Ok(
                    SectorData {
                        bytes,
                        sector_size: stride as u32,
                        user_data_offset: #[verifier::truncate] (udo as u32),
                        total_sectors: total,
                        lba,
                    },
                ),
            )
        },
    }
}

/// Reads sector `lba` of an image.
pub fn read_sector(log: &Log, cur: &mut usize, image: &Image, lba: u64) -> (r: Step<
    Result<SectorData, DiscError>,
>)
    requires
        log.wf(),
        image.wf(),
    ensures
        sector_view(r) == image_sector(*log, *image, lba),
{
    if let Image::Chd(h) = image {
        return read_stream(log, cur, *h, lba);
    }
    match image.data_track(log, cur) {
        Step::Ask(q) => Step::Ask(q),
        Step::Fault => Step::Fault,
        Step::Done(Err(e)) => Step::Done(Err(e)),
        Step::Done(Ok(t)) => read_by(log, cur, geometry(image, t), lba),
    }
}

/// The sectors of an image lie end to end: sector `lba + 1` begins where sector
/// `lba` ends, and the last one ends inside the file.
pub proof fn lemma_sectors_meet(n: u64, g: Geometry, lba: u64)
    requires
        g.sector_size > 0,
        in_range(lba, cue::less(n, g.data_offset) / g.sector_size, DiscError::ImageEmpty) is Ok,
    ensures
        g.data_offset + (lba + 1) * g.sector_size == (g.data_offset + lba * g.sector_size)
            + g.sector_size,
        g.data_offset + (lba + 1) * g.sector_size <= n,
{
    if n < g.data_offset {
        assert(0int / (g.sector_size as int) == 0) by (nonlinear_arith)
            requires
                g.sector_size > 0,
        ;
    }
    lemma_sector_is_inside(n as int, g.data_offset as int, g.sector_size as int, lba as int);
    assert((lba + 1) * g.sector_size == lba * g.sector_size + g.sector_size) by (nonlinear_arith);
}

/// A sector is shown as it stands in the file: where the file holds `content`
/// and the sector was read in full, its bytes are those at its place.
pub proof fn lemma_sector_is_content(
    log: Log,
    g: Geometry,
    lba: u64,
    content: Seq<u8>,
    sector: SectorDataView,
)
    requires
        device::tells(log, g.file, content),
        sector_by(log, g, lba) == Step::Done(Ok::<SectorDataView, DiscError>(sector)),
        sector.bytes.len() == g.sector_size,
    ensures
        sector.bytes == content.subrange(
            g.data_offset + lba * g.sector_size,
            g.data_offset + (lba + 1) * g.sector_size,
        ),
{
    let n = log.known(Query::Size { file: g.file })->0.size()->0;
    lemma_sectors_meet(n, g, lba);
    let q = Query::Read {
        file: g.file,
        offset: (g.data_offset + lba * g.sector_size) as u64,
        len: g.sector_size,
    };
    assert(log.known(q)->0.bytes() == sector.bytes);
    assert(0 <= lba * g.sector_size) by (nonlinear_arith);
}

} // verus!
