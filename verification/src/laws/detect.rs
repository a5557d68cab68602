//! The names of filesystems.
use crate::chd::ChdHeader;
use crate::detect;
use crate::device::{DiscKind, Log, Probe, Query, Spot, Step};
use crate::error::DiscError;
use crate::image;
use crate::image::{Filesystem, Image, Source};
use crate::laws;
use crate::laws::{chd, sector, volume};
use crate::track::DataTrack;
use vstd::prelude::*;

verus! {

/// The probe finds something on the track at `offset` of a file.
pub open spec fn found(log: Log, file: usize, probe: Probe, offset: u64, udo: u64) -> bool {
    let spot = Spot {
        track_offset: offset,
        user_data_offset: udo,
        stride: 0,
        lba_offset: 0,
        descramble: false,
    };
    log.known(Query::Probe { file, probe, spot }) matches Some(r) && r.flag()
}

/// The reader of CD-i discs finds one. It is told where the sectors are numbered
/// from and whether they are scrambled.
pub open spec fn found_cdi(
    log: Log,
    file: usize,
    offset: u64,
    udo: u64,
    lba_offset: u64,
    descramble: bool,
) -> bool {
    let spot = Spot {
        track_offset: offset,
        user_data_offset: udo,
        stride: 0,
        lba_offset,
        descramble,
    };
    log.known(Query::Probe { file, probe: Probe::CdiDisc, spot }) matches Some(r) && r.flag()
}

/// The kind of the GCM disc that the file is.
pub open spec fn gcm(log: Log, file: usize) -> Option<DiscKind> {
    let spot = Spot {
        track_offset: 0,
        user_data_offset: 0,
        stride: 0,
        lba_offset: 0,
        descramble: false,
    };
    match log.known(Query::Probe { file, probe: Probe::GcmDisc, spot }) {
        Some(r) => r.disc(),
        None => None,
    }
}

/// The version of UDF that the reader tells.
pub open spec fn version(log: Log, file: usize, offset: u64, udo: u64) -> Option<Seq<char>> {
    let spot = Spot {
        track_offset: offset,
        user_data_offset: udo,
        stride: 0,
        lba_offset: 0,
        descramble: false,
    };
    match log.known(Query::Probe { file, probe: Probe::UdfVersion, spot }) {
        Some(r) => r.label(),
        None => None,
    }
}

/// Where the descriptors of an ISO 9660 volume on a track stand: in raw sectors
/// of 2352 bytes, or in plain ones of 2048.
pub open spec fn descriptors(offset: u64, udo: u64, lba_offset: u64) -> Spot {
    Spot {
        track_offset: offset,
        user_data_offset: udo,
        stride: if udo == 0 {
            2048
        } else {
            2352
        },
        lba_offset,
        descramble: false,
    }
}

/// The names of an ISO 9660 volume with as many Joliet volumes beside it as its
/// descriptors name.
pub open spec fn volume_names(d: Seq<u8>, spot: Spot, end: int) -> Seq<Seq<char>> {
    seq!["ISO 9660"@] + Seq::new(volume::joliet_sectors(d, spot, 17, end).len(), |i: int| "Joliet"@)
}

/// There is an ISO 9660 volume.
pub open spec fn has_volume(d: Seq<u8>, spot: Spot) -> bool {
    volume::place(spot, 16) + 2048 <= d.len() && volume::marked(d, volume::place(spot, 16))
}

/// The names of the volumes that can stand beside each other on a track of a file
/// with the bytes `d`.
pub open spec fn beside(
    log: Log,
    file: usize,
    d: Seq<u8>,
    offset: u64,
    udo: u64,
    lba_offset: u64,
    end: int,
) -> Seq<Seq<char>> {
    let xbox = udo == 0 && found(log, file, Probe::XdvdfsDisc, offset, udo);
    let hfs = found(log, file, Probe::HfsDisc, offset, udo);
    let udf = found(log, file, Probe::UdfDisc, offset, udo);
    let spot = descriptors(offset, udo, lba_offset);
    let iso = !udf && (has_volume(d, spot) || (!xbox && !hfs));
    (if xbox {
        seq!["XDVDFS"@]
    } else {
        Seq::empty()
    }) + (if hfs {
        seq!["HFS"@]
    } else {
        Seq::empty()
    }) + (if udf {
        seq![
            match version(log, file, offset, udo) {
                Some(v) => v,
                None => "UDF"@,
            },
        ]
    } else if iso && has_volume(d, spot) {
        volume_names(d, spot, end)
    } else if iso {
        seq!["ISO 9660"@]
    } else {
        Seq::empty()
    })
}

/// The names of the volumes of a track that is no CD-i track.
pub open spec fn names(
    log: Log,
    file: usize,
    d: Seq<u8>,
    offset: u64,
    udo: u64,
    lba_offset: u64,
    end: int,
) -> Seq<Seq<char>> {
    if found(log, file, Probe::PceDisc, offset, udo) {
        seq!["PC Engine CD-ROM"@]
    } else if found(log, file, Probe::ThreeDoDisc, offset, udo) {
        seq!["3DO OperaFS"@]
    } else if udo == 0 && gcm(log, file) == Some(DiscKind::GameCube) {
        seq!["GameCube GCM"@]
    } else if udo == 0 && gcm(log, file) == Some(DiscKind::Wii) {
        seq!["Wii GCM"@]
    } else {
        beside(log, file, d, offset, udo, lba_offset, end)
    }
}

/// The descriptors of a track can be looked at up to sector `end`.
pub open spec fn in_reach(d: Seq<u8>, offset: u64, udo: u64, lba_offset: u64, end: int) -> bool {
    let spot = descriptors(offset, udo, lba_offset);
    volume::ends_at(d, spot, end) && volume::place(spot, 16) <= u64::MAX
}

/// Which names a track gets, by what the probes find and what its descriptors say.
pub proof fn lemma_track_names(
    log: Log,
    file: usize,
    d: Seq<u8>,
    offset: u64,
    udo: u64,
    lba_offset: u64,
    end: int,
)
    requires
        laws::shows(log, file, d),
        in_reach(d, offset, udo, lba_offset, end),
    ensures
        detect::track_names(log, file, offset, udo, lba_offset) !is Fault,
        detect::track_names(log, file, offset, udo, lba_offset) matches Step::Done(out) ==> out
            == names(log, file, d, offset, udo, lba_offset, end),
{
    let spot = descriptors(offset, udo, lba_offset);
    volume::lemma_iso_volume(log, file, d, spot, end, false);
    if let Step::Done(out) = detect::track_names(log, file, offset, udo, lba_offset) {
        assert(out =~= names(log, file, d, offset, udo, lba_offset, end));
    }
}

/// Which names a data track gets: a CD-i track has no other.
pub proof fn lemma_bin_names(
    log: Log,
    file: usize,
    d: Seq<u8>,
    offset: u64,
    udo: u64,
    lba_offset: u64,
    descramble: bool,
    end: int,
)
    requires
        laws::shows(log, file, d),
        in_reach(d, offset, udo, lba_offset, end),
    ensures
        detect::bin_names(log, file, offset, udo, lba_offset, descramble) !is Fault,
        detect::bin_names(log, file, offset, udo, lba_offset, descramble) matches Step::Done(out)
            ==> out == (if found_cdi(log, file, offset, udo, lba_offset, descramble) {
            seq!["CD-i"@]
        } else {
            names(log, file, d, offset, udo, lba_offset, end)
        }),
{
    lemma_track_names(log, file, d, offset, udo, lba_offset, end);
}

/// Which names an image gets that has a data track: those of that track.
pub proof fn lemma_image_names(log: Log, image: Image, t: DataTrack, d: Seq<u8>, end: int)
    requires
        image !is Chd,
        image !is Mdx,
        image !is Plain,
        image.data(log) == Step::Done(Ok::<DataTrack, DiscError>(t)),
        laws::shows(log, t.bin, d),
        in_reach(d, t.track_offset, t.user_data_offset, t.lba_offset, end),
    ensures
        image::disc_filesystems(log, image) !is Fault,
        image::disc_filesystems(log, image) matches Step::Done(r) ==> (r matches Ok(out) && out
            == (if found_cdi(
            log,
            t.bin,
            t.track_offset,
            t.user_data_offset,
            t.lba_offset,
            t.descramble,
        ) {
            seq!["CD-i"@]
        } else {
            names(log, t.bin, d, t.track_offset, t.user_data_offset, t.lba_offset, end)
        })),
{
    lemma_bin_names(
        log,
        t.bin,
        d,
        t.track_offset,
        t.user_data_offset,
        t.lba_offset,
        t.descramble,
        end,
    );
}

/// Which names a file of sectors gets: those of the track that it is, whose user
/// data begins where its first sector shows it.
pub proof fn lemma_plain_names(log: Log, d: Seq<u8>, udo: u64, end: int)
    requires
        laws::shows(log, 0, d),
        udo == (if d.len() < 16 || !sector::syncs(d, 0) {
            0u64
        } else if d[15] == 2 {
            24
        } else {
            16
        }),
        in_reach(d, 0, udo, 0, end),
    ensures
        image::disc_filesystems(log, Image::Plain) !is Fault,
        image::disc_filesystems(log, Image::Plain) matches Step::Done(r) ==> (r matches Ok(out)
            && out == names(log, 0, d, 0, udo, 0, end)),
{
    sector::lemma_format(log, 0, d, 0);
    lemma_track_names(log, 0, d, 0, udo, 0, end);
}

/// Which names a single-file media descriptor gets. Its sectors begin behind 64
/// bytes. Raw ones are a data track; plain ones are an ISO 9660 volume with the
/// Joliet volumes that its descriptors name.
pub proof fn lemma_mdx_names(log: Log, d: Seq<u8>, end: int)
    requires
        laws::shows(log, 0, d),
    ensures
        ({
            let raw = d.len() >= 80 && sector::syncs(d, 64);
            let udo: u64 = if !raw {
                0
            } else if d[79] == 2 {
                24
            } else {
                16
            };
            in_reach(d, 64, udo, 0, end) ==> {
                &&& image::disc_filesystems(log, Image::Mdx) !is Fault
                &&& image::disc_filesystems(log, Image::Mdx) matches Step::Done(r) ==> (
                r matches Ok(out) && out == (if !raw {
                    volume_names(d, descriptors(64, 0, 0), end)
                } else if found_cdi(log, 0, 64, udo, 0, false) {
                    seq!["CD-i"@]
                } else {
                    names(log, 0, d, 64, udo, 0, end)
                }))
            }
        }),
{
    let raw = d.len() >= 80 && sector::syncs(d, 64);
    let udo: u64 = if !raw {
        0
    } else if d[79] == 2 {
        24
    } else {
        16
    };
    sector::lemma_format(log, 0, d, 64);
    if in_reach(d, 64, udo, 0, end) {
        lemma_bin_names(log, 0, d, 64, udo, 0, false, end);
        if !raw {
            volume::lemma_joliet_sectors(log, 0, d, descriptors(64, 0, 0), end);
            if let Step::Done(Ok(out)) = image::disc_filesystems(log, Image::Mdx) {
                assert(out =~= volume_names(d, descriptors(64, 0, 0), end));
            }
        }
    }
}

// ── Compressed images ────────────────────────────────────────────────────────

/// The descriptors of the volume of a track behind `pregap` raw sectors.
pub open spec fn behind(stride: u64, pregap: int, udo: int) -> Spot {
    Spot {
        track_offset: (pregap * stride) as u64,
        user_data_offset: udo as u64,
        stride,
        lba_offset: 0,
        descramble: false,
    }
}

/// A data track behind `pregap` sectors can be read as one with an ISO 9660
/// volume.
pub open spec fn volume_behind(d: Seq<u8>, stride: u64, pregap: int, udo: int) -> bool {
    let p = (pregap + 16) * stride + udo;
    p + 2048 <= d.len() && volume::marked(d, p) && d[p] == 1
}

proof fn lemma_behind(log: Log, d: Seq<u8>, stride: u64, pregap: int, udo: int, end: int)
    requires
        laws::shows(log, 0, d),
        stride == 2352 || stride == 2448,
        chd::is_pregap(pregap),
        chd::is_user_data(udo),
        volume::ends_at(d, behind(stride, pregap, udo), end),
    ensures
        ({
            let v = crate::volume::iso_volume(log, 0, behind(stride, pregap, udo), true);
            &&& v !is Fault
            &&& v matches Step::Done(r) ==> {
                &&& r is Some <==> volume_behind(d, stride, pregap, udo)
                &&& r matches Some(n) ==> n == volume::joliet_sectors(
                    d,
                    behind(stride, pregap, udo),
                    17,
                    end,
                ).len()
            }
        }),
{
    let spot = behind(stride, pregap, udo);
    assert(0 <= pregap * stride <= 150 * 2448) by (nonlinear_arith)
        requires
            0 <= pregap <= 150,
            0 <= stride <= 2448,
    ;
    assert((pregap + 16) * stride == pregap * stride + 16 * stride) by (nonlinear_arith);
    assert(volume::place(spot, 16) == (pregap + 16) * stride + udo);
    volume::lemma_iso_volume(log, 0, d, spot, end, true);
}

/// Which names a compressed image of raw sectors gets. A 3DO volume at any of the
/// places where a track may begin is the only name. Without one the image has the
/// ISO 9660 volume of the first of those places that has one, with its Joliet volumes;
/// without that too it is taken to be a 3DO disc.
pub proof fn lemma_chd_names(
    log: Log,
    d: Seq<u8>,
    h: ChdHeader,
    stride: u64,
    pregap: int,
    udo: int,
    end: spec_fn(int, int) -> int,
)
    requires
        laws::shows(log, 0, d),
        chd::is_raw(h, stride),
        chd::is_pregap(pregap),
        chd::is_user_data(udo),
        forall|a: int, b: int|
            chd::is_pregap(a) && chd::is_user_data(b) ==> volume::ends_at(
                d,
                #[trigger] behind(stride, a, b),
                end(a, b),
            ),
        forall|a: int, b: int|
            chd::is_pregap(a) && chd::is_user_data(b) && #[trigger] volume_behind(d, stride, a, b)
                ==> (a == pregap && b == udo) || (volume_behind(d, stride, pregap, udo)
                && chd::comes_first(pregap, udo, a, b)),
    ensures
        ({
            let opera = exists|a: int, b: int|
                chd::is_pregap(a) && chd::is_user_data(b) && #[trigger] chd::has_opera(
                    log,
                    stride,
                    a,
                    b,
                );
            let s = image::disc_filesystems(log, Image::Chd(h));
            &&& s !is Fault
            &&& s matches Step::Done(r) ==> (r matches Ok(out) && out == (if !opera
                && volume_behind(d, stride, pregap, udo) {
                volume_names(d, behind(stride, pregap, udo), end(pregap, udo))
            } else {
                seq!["3DO OperaFS"@]
            }))
        }),
{
    reveal_with_fuel(crate::chd::threedo_place, 7);
    reveal_with_fuel(detect::chd_iso_names, 7);
    assert(crate::chd::chd_place(0) == (0u64, 16u64));
    assert(crate::chd::chd_place(1) == (0u64, 24u64));
    assert(crate::chd::chd_place(2) == (4u64, 16u64));
    assert(crate::chd::chd_place(3) == (4u64, 24u64));
    assert(crate::chd::chd_place(4) == (150u64, 16u64));
    assert(crate::chd::chd_place(5) == (150u64, 24u64));
    lemma_behind(log, d, stride, 0, 16, end(0, 16));
    lemma_behind(log, d, stride, 0, 24, end(0, 24));
    lemma_behind(log, d, stride, 4, 16, end(4, 16));
    lemma_behind(log, d, stride, 4, 24, end(4, 24));
    lemma_behind(log, d, stride, 150, 16, end(150, 16));
    lemma_behind(log, d, stride, 150, 24, end(150, 24));
    assert(crate::chd::threedo_spot(stride, 0) == behind(stride, 0, 16));
    assert(crate::chd::threedo_spot(stride, 1) == behind(stride, 0, 24));
    assert(crate::chd::threedo_spot(stride, 2) == behind(stride, 4, 16));
    assert(crate::chd::threedo_spot(stride, 3) == behind(stride, 4, 24));
    assert(crate::chd::threedo_spot(stride, 4) == behind(stride, 150, 16));
    assert(crate::chd::threedo_spot(stride, 5) == behind(stride, 150, 24));
    let opera = chd::has_opera(log, stride, 0, 16) || chd::has_opera(log, stride, 0, 24)
        || chd::has_opera(log, stride, 4, 16) || chd::has_opera(log, stride, 4, 24)
        || chd::has_opera(log, stride, 150, 16) || chd::has_opera(log, stride, 150, 24);
    assert(opera == exists|a: int, b: int|
        chd::is_pregap(a) && chd::is_user_data(b) && #[trigger] chd::has_opera(log, stride, a, b));
    if let Step::Done(Ok(out)) = image::disc_filesystems(log, Image::Chd(h)) {
        let place = crate::chd::threedo_place(log, stride, 0);
        assert(place is Done);
        assert(place->Done_0 is Some <==> opera);
        if !opera && volume_behind(d, stride, pregap, udo) {
            assert(out =~= volume_names(d, behind(stride, pregap, udo), end(pregap, udo)));
        }
    }
}

/// Which names a compressed image of plain sectors gets.
pub proof fn lemma_chd_plain_names(log: Log, d: Seq<u8>, h: ChdHeader, end: int)
    requires
        laws::shows(log, 0, d),
        !chd::is_raw(h, 2352),
        !chd::is_raw(h, 2448),
        in_reach(d, 0, 0, 0, end),
    ensures
        image::disc_filesystems(log, Image::Chd(h)) !is Fault,
        image::disc_filesystems(log, Image::Chd(h)) matches Step::Done(r) ==> (r matches Ok(out)
            && out == (if found(log, 0, Probe::XdvdfsDisc, 0, 0) {
            seq!["XDVDFS"@]
        } else if gcm(log, 0) == Some(DiscKind::GameCube) {
            seq!["GameCube GCM"@]
        } else if gcm(log, 0) == Some(DiscKind::Wii) {
            seq!["Wii GCM"@]
        } else if has_volume(d, descriptors(0, 0, 0)) && d[32768] == 1 {
            volume_names(d, descriptors(0, 0, 0), end)
        } else {
            seq!["ISO 9660"@]
        })),
{
    let spot = descriptors(0, 0, 0);
    volume::lemma_iso_volume(log, 0, d, spot, end, true);
    if let Step::Done(Ok(out)) = image::disc_filesystems(log, Image::Chd(h)) {
        if !found(log, 0, Probe::XdvdfsDisc, 0, 0) && gcm(log, 0) is None && has_volume(d, spot)
            && d[32768] == 1 {
            assert(out =~= volume_names(d, spot, end));
        }
    }
}

// ── Where a request is served from ───────────────────────────────────────────

/// The request names no filesystem or `name`.
pub open spec fn admits(request: Option<Seq<char>>, name: Seq<char>) -> bool {
    request is None || request == Some(name)
}

/// A request can be served from a filesystem: its reader finds it on the track,
/// and the request does not name another one. Xbox and GCM discs have plain
/// sectors. CD-i, PC Engine and 3DO tracks have nothing else to serve, and where
/// there is nothing else there is ISO 9660.
pub open spec fn can_serve(
    log: Log,
    t: DataTrack,
    request: Option<Seq<char>>,
    opened: bool,
    fs: Filesystem,
) -> bool {
    let plain = t.user_data_offset == 0;
    match fs {
        Filesystem::Cdi => found_cdi(
            log,
            t.bin,
            t.track_offset,
            t.user_data_offset,
            t.lba_offset,
            t.descramble,
        ),
        Filesystem::Pce => found(log, t.bin, Probe::PceDisc, t.track_offset, t.user_data_offset),
        Filesystem::ThreeDo => found(
            log,
            t.bin,
            Probe::ThreeDoDisc,
            t.track_offset,
            t.user_data_offset,
        ),
        Filesystem::Xdvdfs => plain && admits(request, "XDVDFS"@) && found(
            log,
            t.bin,
            Probe::XdvdfsDisc,
            t.track_offset,
            t.user_data_offset,
        ),
        Filesystem::Gcm => plain && (admits(request, "GameCube GCM"@) || admits(
            request,
            "Wii GCM"@,
        )) && gcm(log, t.bin) is Some,
        Filesystem::Hfs => admits(request, "HFS"@) && found(
            log,
            t.bin,
            Probe::HfsDisc,
            t.track_offset,
            t.user_data_offset,
        ),
        Filesystem::Udf => (request matches Some(s) ==> laws::opens(s, seq!['U', 'D', 'F']))
            && found(log, t.bin, Probe::UdfDisc, t.track_offset, t.user_data_offset) && (opened
            ==> version(log, t.bin, t.track_offset, t.user_data_offset) is Some),
        Filesystem::Iso => true,
    }
}

/// The place of a filesystem in the order in which those of an image are looked
/// for; 0 where it is not looked for.
pub open spec fn rank(image: Image, fs: Filesystem) -> int {
    match image {
        Image::Mdx => match fs {
            Filesystem::Cdi => 1,
            Filesystem::Pce => 2,
            Filesystem::ThreeDo => 3,
            Filesystem::Hfs => 4,
            Filesystem::Udf => 5,
            Filesystem::Iso => 9,
            _ => 0,
        },
        Image::Plain => match fs {
            Filesystem::Pce => 1,
            Filesystem::ThreeDo => 2,
            Filesystem::Xdvdfs => 3,
            Filesystem::Gcm => 4,
            Filesystem::Udf => 5,
            Filesystem::Hfs => 6,
            Filesystem::Iso => 9,
            _ => 0,
        },
        _ => match fs {
            Filesystem::Cdi => 1,
            Filesystem::Pce => 2,
            Filesystem::ThreeDo => 3,
            Filesystem::Xdvdfs => 4,
            Filesystem::Gcm => 5,
            Filesystem::Hfs => 6,
            Filesystem::Udf => 7,
            Filesystem::Iso => 9,
        },
    }
}

/// A filesystem is the one that a request is served from: it can serve, and none
/// that is looked for before it can.
pub open spec fn serves(
    log: Log,
    image: Image,
    t: DataTrack,
    request: Option<Seq<char>>,
    fs: Filesystem,
) -> bool {
    let named = if image is Mdx {
        None
    } else {
        request
    };
    &&& rank(image, fs) > 0
    &&& can_serve(log, t, named, image is Plain, fs)
    &&& forall|other: Filesystem|
        0 < #[trigger] rank(image, other) < rank(image, fs) ==> !can_serve(
            log,
            t,
            named,
            image is Plain,
            other,
        )
}

/// The filesystem that a source serves.
pub open spec fn fs_of(source: Source) -> Filesystem {
    match source {
        Source::Track { fs, .. } => fs,
        Source::Stream(fs) => fs,
        Source::Sheet => Filesystem::Iso,
        Source::Mdx => Filesystem::Iso,
        Source::Plain => Filesystem::Iso,
    }
}

proof fn lemma_can_serve(
    log: Log,
    t: DataTrack,
    request: Option<Seq<char>>,
    fs: Filesystem,
)
    ensures
        image::is_on(log, fs, t, request) !is Fault,
        image::is_on(log, fs, t, request) matches Step::Done(b) ==> b == can_serve(
            log,
            t,
            request,
            false,
            fs,
        ),
{
    if let Some(s) = request {
        reveal_strlit("UDF");
        assert("UDF"@ =~= seq!['U', 'D', 'F']);
        laws::lemma_opens(s, "UDF"@);
    }
}

proof fn lemma_first(
    log: Log,
    order: Seq<Filesystem>,
    i: int,
    t: DataTrack,
    request: Option<Seq<char>>,
    opened: bool,
) -> (j: int)
    requires
        0 <= i <= order.len(),
    ensures
        image::first_on(log, order, i, t, request, opened) !is Fault,
        i <= j <= order.len(),
        image::first_on(log, order, i, t, request, opened) matches Step::Done(fs) ==> {
            &&& j < order.len() ==> fs == order[j] && can_serve(log, t, request, opened, fs)
            &&& j == order.len() ==> fs == Filesystem::Iso
            &&& forall|k: int|
                i <= k < j ==> !can_serve(log, t, request, opened, #[trigger] order[k])
        },
    decreases order.len() - i,
{
    if i < order.len() {
        lemma_can_serve(log, t, request, order[i]);
        let j = lemma_first(log, order, i + 1, t, request, opened);
        match image::is_on(log, order[i], t, request) {
            Step::Done(true) => if opened && order[i] == Filesystem::Udf && version(
                log,
                t.bin,
                t.track_offset,
                t.user_data_offset,
            ) is None {
                j
            } else {
                i
            },
            _ => j,
        }
    } else {
        i
    }
}

proof fn lemma_serves(
    log: Log,
    image: Image,
    t: DataTrack,
    request: Option<Seq<char>>,
    order: Seq<Filesystem>,
    j: int,
    fs: Filesystem,
)
    requires
        0 <= j <= order.len() < 9,
        forall|k: int| 0 <= k < order.len() ==> rank(image, #[trigger] order[k]) == k + 1,
        forall|other: Filesystem|
            0 < #[trigger] rank(image, other) && other != Filesystem::Iso ==> order.contains(other),
        rank(image, Filesystem::Iso) == 9,
        ({
            let named = if image is Mdx {
                None
            } else {
                request
            };
            &&& j < order.len() ==> fs == order[j] && can_serve(log, t, named, image is Plain, fs)
            &&& j == order.len() ==> fs == Filesystem::Iso
            &&& forall|k: int|
                0 <= k < j ==> !can_serve(log, t, named, image is Plain, #[trigger] order[k])
        }),
    ensures
        serves(log, image, t, request, fs),
{
    let named = if image is Mdx {
        None
    } else {
        request
    };
    assert forall|other: Filesystem|
        0 < #[trigger] rank(image, other) < rank(image, fs) implies !can_serve(
        log,
        t,
        named,
        image is Plain,
        other,
    ) by {
        assert(order.contains(other));
        let k = choose|k: int| 0 <= k < order.len() && order[k] == other;
        assert(rank(image, order[k]) == k + 1);
        if j < order.len() {
            assert(rank(image, order[j]) == j + 1);
        }
    }
}

/// A request on an image with a data track is served from the first filesystem,
/// in the order of its format, that is on the track and that the request does not
/// rule out. The ISO 9660 volume of a sheet and the plain sectors of a file and of
/// a single-file media descriptor are read by readers of their own.
pub proof fn lemma_request(log: Log, image: Image, t: DataTrack, request: Option<Seq<char>>)
    requires
        image !is Chd,
        image.data(log) == Step::Done(Ok::<DataTrack, DiscError>(t)),
    ensures
        image::request_source(log, image, request) !is Fault,
        image::request_source(log, image, request) matches Step::Done(r) ==> (r matches Ok(source)
            && {
            &&& image is Mdx && t.user_data_offset == 0 ==> source == Source::Mdx
            &&& !(image is Mdx && t.user_data_offset == 0) ==> {
                &&& serves(log, image, t, request, fs_of(source))
                &&& source matches Source::Track { track, .. } ==> track == t
                &&& source == Source::Sheet <==> image is Cue && fs_of(source) == Filesystem::Iso
                &&& source == Source::Plain <==> image is Plain && t.user_data_offset == 0 && fs_of(
                    source,
                ) == Filesystem::Iso
                &&& source != Source::Mdx
                &&& source !is Stream
            }
        }),
{
    match image {
        Image::Mdx => {
            let o = image::mdx_order();
            assert(o[0] == Filesystem::Cdi && o[1] == Filesystem::Pce && o[2] == Filesystem::ThreeDo
                && o[3] == Filesystem::Hfs && o[4] == Filesystem::Udf);
            let j = lemma_first(log, o, 0, t, None, false);
            if let Step::Done(fs) = image::first_on(log, o, 0, t, None, false) {
                lemma_serves(log, image, t, request, o, j, fs);
            }
        },
        Image::Plain => {
            let o = image::plain_order();
            assert(o[0] == Filesystem::Pce && o[1] == Filesystem::ThreeDo && o[2]
                == Filesystem::Xdvdfs && o[3] == Filesystem::Gcm && o[4] == Filesystem::Udf && o[5]
                == Filesystem::Hfs);
            let j = lemma_first(log, o, 0, t, request, true);
            if let Step::Done(fs) = image::first_on(log, o, 0, t, request, true) {
                lemma_serves(log, image, t, request, o, j, fs);
            }
        },
        _ => {
            let o = image::track_order();
            assert(o[0] == Filesystem::Cdi && o[1] == Filesystem::Pce && o[2] == Filesystem::ThreeDo
                && o[3] == Filesystem::Xdvdfs && o[4] == Filesystem::Gcm && o[5] == Filesystem::Hfs
                && o[6] == Filesystem::Udf);
            let j = lemma_first(log, o, 0, t, request, false);
            if let Step::Done(fs) = image::first_on(log, o, 0, t, request, false) {
                lemma_serves(log, image, t, request, o, j, fs);
            }
        },
    }
}

/// A request on a compressed image is served from the filesystem that it names,
/// and from ISO 9660 where it names none of the others that such an image can
/// have.
pub proof fn lemma_stream_request(log: Log, h: ChdHeader, request: Option<Seq<char>>)
    ensures
        image::request_source(log, Image::Chd(h), request) matches Step::Done(r) && (
        r matches Ok(source) && source == Source::Stream(
            if request == Some("3DO OperaFS"@) {
                Filesystem::ThreeDo
            } else if request == Some("XDVDFS"@) {
                Filesystem::Xdvdfs
            } else if request == Some("GameCube GCM"@) || request == Some("Wii GCM"@) {
                Filesystem::Gcm
            } else {
                Filesystem::Iso
            },
        )),
{
    reveal_strlit("3DO OperaFS");
    reveal_strlit("XDVDFS");
    reveal_strlit("GameCube GCM");
    reveal_strlit("Wii GCM");
    assert("3DO OperaFS"@.len() == 11 && "XDVDFS"@.len() == 6 && "GameCube GCM"@.len() == 12
        && "Wii GCM"@.len() == 7);
}

} // verus!
