//! What has been found out stays: a function that has a result keeps it when
//! more answers come in.
use crate::cdi;
use crate::chd;
use crate::cue;
use crate::cue::CueLineView;
use crate::detect;
use crate::device::{Log, Query, Step};
use crate::device;
use crate::gdi;
use crate::image;
use crate::image::{Filesystem, Image};
use crate::mds;
use crate::sector;
use crate::track::DataTrack;
use crate::volume;
use crate::wbfs_reader;
use crate::wii_partition;
use vstd::prelude::*;

verus! {

/// One log knows all that another knows.
pub open spec fn extends(big: Log, small: Log) -> bool {
    forall|q: Query| (#[trigger] small.known(q)) is Some ==> big.known(q) == small.known(q)
}

/// A result stays.
pub open spec fn settled<T>(before: Step<T>, after: Step<T>) -> bool {
    before is Ask || after == before
}

proof fn lemma_search(a: Log, b: Log, file: usize, base: u64, stride: u64, udo: u64, d: int)
    requires
        extends(b, a),
    ensures
        settled(
            volume::pvd_search(a, file, base, stride, udo, d),
            volume::pvd_search(b, file, base, stride, udo, d),
        ),
    decreases volume::MAX_SCAN - d,
{
    if d < volume::MAX_SCAN {
        lemma_search(a, b, file, base, stride, udo, d + 1);
    }
}

proof fn lemma_joliet(a: Log, b: Log, file: usize, spot: device::Spot, lba: int, n: u64)
    requires
        extends(b, a),
    ensures
        settled(
            volume::joliet_count(a, file, spot, lba, n),
            volume::joliet_count(b, file, spot, lba, n),
        ),
    decreases 32 - lba,
{
    if lba < 32 {
        lemma_joliet(a, b, file, spot, lba + 1, n);
        lemma_joliet(a, b, file, spot, lba + 1, (n + 1) as u64);
    }
}

proof fn lemma_iso(a: Log, b: Log, file: usize, spot: device::Spot, primary: bool)
    requires
        extends(b, a),
    ensures
        settled(
            volume::iso_volume(a, file, spot, primary),
            volume::iso_volume(b, file, spot, primary),
        ),
{
    lemma_joliet(a, b, file, spot, 17, 0);
}

proof fn lemma_cue_scan(
    a: Log,
    b: Log,
    lines: Seq<CueLineView>,
    i: int,
    st: cue::CueState,
    first: Option<DataTrack>,
    last: Option<DataTrack>,
)
    requires
        extends(b, a),
    ensures
        settled(
            cue::cue_scan(a, lines, i, st, first, last),
            cue::cue_scan(b, lines, i, st, first, last),
        ),
    decreases lines.len() - i,
{
    if 0 <= i < lines.len() {
        let next = cue::cue_state(st, lines[i]);
        match cue::state_data(next) {
            None => lemma_cue_scan(a, b, lines, i + 1, next, first, last),
            Some((bin, udo, idx)) => match cue::cue_data_at(a, bin, udo, idx) {
                Step::Done(t) => lemma_cue_scan(
                    a,
                    b,
                    lines,
                    i + 1,
                    next,
                    if first is None {
                        Some(t)
                    } else {
                        first
                    },
                    Some(t),
                ),
                _ => {},
            },
        }
    }
}

proof fn lemma_cue_ready(a: Log, b: Log, gaps: Seq<cue::CueGap>, i: int)
    requires
        extends(b, a),
    ensures
        settled(cue::cue_ready(a, gaps, i), cue::cue_ready(b, gaps, i)),
    decreases gaps.len() - i,
{
    if 0 <= i < gaps.len() {
        lemma_cue_ready(a, b, gaps, i + 1);
    }
}

proof fn lemma_cdi(
    a: Log,
    b: Log,
    spans: Seq<cdi::CdiSpan>,
    i: int,
    first: Option<DataTrack>,
    fits: bool,
    whole: bool,
)
    requires
        extends(b, a),
    ensures
        settled(
            cdi::cdi_choice(a, spans, i, first, fits, whole),
            cdi::cdi_choice(b, spans, i, first, fits, whole),
        ),
    decreases spans.len() - i,
{
    if 0 <= i < spans.len() {
        let span = spans[i];
        match cdi::cdi_udo(a, span) {
            Step::Done(udo) => {
                lemma_search(a, b, 0, span.base, span.stride, udo, 0);
                let next = match first {
                    Some(t) => Some(t),
                    None => Some(cdi::cdi_data_track(span, udo, span.base)),
                };
                lemma_cdi(a, b, spans, i + 1, next, fits, whole);
            },
            _ => {},
        }
    }
}

proof fn lemma_gdi(
    a: Log,
    b: Log,
    rows: Seq<gdi::GdiRowView>,
    i: int,
    best: Option<(DataTrack, bool)>,
)
    requires
        extends(b, a),
    ensures
        settled(gdi::gdi_choice(a, rows, i, best), gdi::gdi_choice(b, rows, i, best)),
    decreases rows.len() - i,
{
    if 0 <= i < rows.len() {
        match gdi::gdi_udo(a, i as usize, rows[i].sector_size) {
            Step::Done(udo) => lemma_search(a, b, i as usize, 0, rows[i].sector_size, udo, 0),
            _ => {},
        }
        match gdi::gdi_candidate(a, rows[i], i as usize) {
            Step::Done(Some(c)) => {
                lemma_gdi(a, b, rows, i + 1, Some(c));
                lemma_gdi(a, b, rows, i + 1, best);
            },
            _ => lemma_gdi(a, b, rows, i + 1, best),
        }
    }
}

/// The data track of an image stays, once it is found.
pub proof fn lemma_data_track_stability(a: Log, b: Log, img: Image)
    requires
        extends(b, a),
    ensures
        settled(img.data(a), img.data(b)),
{
    match img {
        Image::Cue { lines, same } => {
            let ls = cue::line_views(lines@);
            lemma_cue_scan(a, b, ls, 0, cue::cue_fresh(), None, None);
            lemma_cue_ready(a, b, cue::cue_gaps(ls, 0, cue::cue_fresh()), 0);
        },
        Image::Cdi => {
            match a.known(device::Query::Size { file: 0 }) {
                Some(n) => match n.size() {
                    Some(n) => lemma_cdi_image(a, b, n),
                    None => {},
                },
                None => {},
            }
        },
        Image::Gdi(rows) => lemma_gdi(a, b, gdi::row_views(rows@), 0, None),
        _ => {},
    }
}

proof fn lemma_cdi_image(a: Log, b: Log, n: u64)
    requires
        extends(b, a),
    ensures
        settled(cdi::cdi_image_of(a, n), cdi::cdi_image_of(b, n)),
{
    let tail = device::Query::Read { file: 0, offset: (n - 8) as u64, len: 8 };
    match a.known(tail) {
        Some(t) => match cdi::cdi_footer(n, t.bytes()) {
            Ok(f) => {
                let body = device::Query::Read {
                    file: 0,
                    offset: f.descriptor,
                    len: (if f.descriptor <= n {
                        n - f.descriptor
                    } else {
                        0
                    }) as u64,
                };
                match a.known(body) {
                    Some(d) => {
                        let (tracks, whole) = cdi::cdi_tracks(
                            d.bytes(),
                            f.version == cdi::CDI_V2,
                        );
                        let (spans, fits) = cdi::cdi_spans(tracks);
                        lemma_cdi(a, b, spans, 0, None, fits, whole);
                    },
                    None => {},
                }
            },
            Err(_) => {},
        },
        None => {},
    }
}

proof fn lemma_track_names(a: Log, b: Log, file: usize, offset: u64, udo: u64, lba_offset: u64)
    requires
        extends(b, a),
    ensures
        settled(
            detect::track_names(a, file, offset, udo, lba_offset),
            detect::track_names(b, file, offset, udo, lba_offset),
        ),
{
    let spot = device::Spot {
        stride: detect::data_stride(udo),
        lba_offset,
        ..device::Spot::plain(offset, udo)
    };
    lemma_iso(a, b, file, spot, false);
}

proof fn lemma_threedo(a: Log, b: Log, stride: u64, k: int)
    requires
        extends(b, a),
    ensures
        settled(chd::threedo_place(a, stride, k), chd::threedo_place(b, stride, k)),
    decreases chd::CHD_PLACES - k,
{
    if k < chd::CHD_PLACES {
        lemma_threedo(a, b, stride, k + 1);
    }
}

proof fn lemma_chd_iso(a: Log, b: Log, stride: u64, k: int)
    requires
        extends(b, a),
    ensures
        settled(detect::chd_iso_names(a, stride, k), detect::chd_iso_names(b, stride, k)),
    decreases chd::CHD_PLACES - k,
{
    if k < chd::CHD_PLACES {
        lemma_iso(a, b, 0, chd::threedo_spot(stride, k), true);
        lemma_chd_iso(a, b, stride, k + 1);
    }
}

proof fn lemma_chd_volume(a: Log, b: Log, stride: u64, k: int)
    requires
        extends(b, a),
    ensures
        settled(chd::chd_volume(a, stride, k), chd::chd_volume(b, stride, k)),
    decreases chd::CHD_PLACES - k,
{
    if k < chd::CHD_PLACES {
        lemma_chd_volume(a, b, stride, k + 1);
    }
}

/// The layout of a compressed image stays, once it is found.
pub proof fn lemma_chd_stability(a: Log, b: Log, h: chd::ChdHeader)
    requires
        extends(b, a),
    ensures
        settled(chd::chd_iso(a, h), chd::chd_iso(b, h)),
        settled(chd::chd_threedo(a, h), chd::chd_threedo(b, h)),
{
    let stride = chd::chd_sector_size(h.hunk_size, h.unit_bytes);
    lemma_chd_volume(a, b, stride, 0);
    lemma_threedo(a, b, stride, 0);
}

/// The names of the filesystems of an image stay, once they are found.
pub proof fn lemma_filesystems_stability(a: Log, b: Log, img: Image)
    requires
        extends(b, a),
    ensures
        settled(image::disc_filesystems(a, img), image::disc_filesystems(b, img)),
{
    match img {
        Image::Chd(h) => {
            let stride = chd::chd_sector_size(h.hunk_size, h.unit_bytes);
            lemma_threedo(a, b, stride, 0);
            lemma_chd_iso(a, b, stride, 0);
            lemma_iso(
                a,
                b,
                0,
                device::Spot { stride: 2048, ..device::Spot::plain(0, 0) },
                true,
            );
        },
        Image::Mdx => {
            let offset = crate::mdx::MDX_DATA_OFFSET;
            lemma_joliet(
                a,
                b,
                0,
                device::Spot { stride: 2048, ..device::Spot::plain(offset, 0) },
                17,
                0,
            );
            match sector::format_at(a, 0, offset) {
                Step::Done(f) => lemma_track_names(a, b, 0, offset, f.1, 0),
                _ => {},
            }
        },
        Image::Plain => match sector::raw_offset(a, 0) {
            Step::Done(udo) => lemma_track_names(a, b, 0, 0, udo, 0),
            _ => {},
        },
        _ => {
            lemma_data_track_stability(a, b, img);
            match img.data(a) {
                Step::Done(Ok(t)) => lemma_track_names(
                    a,
                    b,
                    t.bin,
                    t.track_offset,
                    t.user_data_offset,
                    t.lba_offset,
                ),
                _ => {},
            }
        },
    }
}

proof fn lemma_first_on(
    a: Log,
    b: Log,
    order: Seq<Filesystem>,
    i: int,
    t: DataTrack,
    request: Option<Seq<char>>,
    opened: bool,
)
    requires
        extends(b, a),
    ensures
        settled(
            image::first_on(a, order, i, t, request, opened),
            image::first_on(b, order, i, t, request, opened),
        ),
    decreases order.len() - i,
{
    if 0 <= i < order.len() {
        lemma_first_on(a, b, order, i + 1, t, request, opened);
    }
}

/// The source of a request stays, once it is found.
pub proof fn lemma_source_stability(a: Log, b: Log, img: Image, request: Option<Seq<char>>)
    requires
        extends(b, a),
    ensures
        settled(image::request_source(a, img, request), image::request_source(b, img, request)),
{
    lemma_data_track_stability(a, b, img);
    match img.data(a) {
        Step::Done(Ok(t)) => {
            lemma_first_on(a, b, image::mdx_order(), 0, t, None, false);
            lemma_first_on(a, b, image::plain_order(), 0, t, request, true);
            lemma_first_on(a, b, image::track_order(), 0, t, request, false);
        },
        _ => {},
    }
}

/// A sector stays as it was read.
pub proof fn lemma_sector_stability(a: Log, b: Log, img: Image, lba: u64)
    requires
        extends(b, a),
    ensures
        settled(image::image_sector(a, img, lba), image::image_sector(b, img, lba)),
{
    lemma_data_track_stability(a, b, img);
}

proof fn lemma_cue_all(
    a: Log,
    b: Log,
    lines: Seq<CueLineView>,
    same: Seq<usize>,
    i: int,
    st: cue::CueState,
    acc: Seq<DataTrack>,
)
    requires
        extends(b, a),
    ensures
        settled(cue::cue_all(a, lines, same, i, st, acc), cue::cue_all(b, lines, same, i, st, acc)),
    decreases lines.len() - i,
{
    if 0 <= i < lines.len() {
        let next = cue::all_state(st, lines[i]);
        lemma_cue_all(a, b, lines, same, i + 1, next, acc);
        match cue::state_data(next) {
            Some((bin, udo, idx)) => match cue::cue_data_at(a, bin, udo, idx) {
                Step::Done(t) => lemma_cue_all(a, b, lines, same, i + 1, next, acc.push(t)),
                _ => {},
            },
            None => {},
        }
    }
}

/// The reader of the volume of a sheet stays, once it is found.
pub proof fn lemma_cue_reader_stability(a: Log, b: Log, lines: Seq<CueLineView>, same: Seq<usize>)
    requires
        extends(b, a),
    ensures
        settled(cue::cue_reader(a, lines, same), cue::cue_reader(b, lines, same)),
{
    lemma_cue_all(a, b, lines, same, 0, cue::cue_fresh(), Seq::empty());
}

proof fn lemma_list_tracks(
    a: Log,
    b: Log,
    raw: Seq<cue::RawCueTrackView>,
    same: Seq<usize>,
    paths: Seq<Seq<char>>,
    i: int,
    acc: Seq<crate::track::TrackInfoView>,
)
    requires
        extends(b, a),
    ensures
        settled(
            cue::list_tracks(a, raw, same, paths, i, acc),
            cue::list_tracks(b, raw, same, paths, i, acc),
        ),
    decreases raw.len() - i,
{
    if 0 <= i < raw.len() {
        match cue::raw_sectors(a, raw, same, i) {
            Step::Done(n) => lemma_list_tracks(
                a,
                b,
                raw,
                same,
                paths,
                i + 1,
                acc.push(cue::raw_listed(raw[i], n, paths[raw[i].bin as int])),
            ),
            _ => {},
        }
    }
}

proof fn lemma_list_gaps(
    a: Log,
    b: Log,
    raw: Seq<cue::RawCueTrackView>,
    paths: Seq<Seq<char>>,
    i: int,
    acc: Seq<crate::track::TrackInfoView>,
)
    requires
        extends(b, a),
    ensures
        settled(cue::list_gaps(a, raw, paths, i, acc), cue::list_gaps(b, raw, paths, i, acc)),
    decreases raw.len() - i,
{
    if 0 <= i < raw.len() {
        lemma_list_gaps(a, b, raw, paths, i + 1, acc);
        lemma_list_gaps(
            a,
            b,
            raw,
            paths,
            i + 1,
            acc.push(cue::gap_listed(raw[i], paths[raw[i].bin as int])),
        );
    }
}

proof fn lemma_gdi_tracks(
    a: Log,
    b: Log,
    rows: Seq<gdi::GdiRowView>,
    paths: Seq<Seq<char>>,
    i: int,
    acc: Seq<crate::track::TrackInfoView>,
)
    requires
        extends(b, a),
    ensures
        settled(
            gdi::gdi_tracks_from(a, rows, paths, i, acc),
            gdi::gdi_tracks_from(b, rows, paths, i, acc),
        ),
    decreases rows.len() - i,
{
    if 0 <= i < rows.len() {
        match rows[i].number {
            None => lemma_gdi_tracks(a, b, rows, paths, i + 1, acc),
            Some(number) => match gdi::gdi_sectors(a, i as usize, rows[i].sector_size) {
                Step::Done(n) => match gdi::gdi_mode(a, rows[i], i as usize) {
                    Step::Done(mode) => lemma_gdi_tracks(
                        a,
                        b,
                        rows,
                        paths,
                        i + 1,
                        acc.push(gdi::gdi_track(rows[i], number, mode, n, paths[i])),
                    ),
                    _ => {},
                },
                _ => {},
            },
        }
    }
}

/// A list of tracks stays, once it is found.
pub proof fn lemma_tracks_stability(
    a: Log,
    b: Log,
    lines: Seq<CueLineView>,
    same: Seq<usize>,
    rows: Seq<gdi::GdiRowView>,
    paths: Seq<Seq<char>>,
    d: Seq<u8>,
    path: Seq<char>,
)
    requires
        extends(b, a),
    ensures
        settled(cue::cue_tracks(a, lines, same, paths), cue::cue_tracks(b, lines, same, paths)),
        settled(
            gdi::gdi_tracks_from(a, rows, paths, 0, Seq::empty()),
            gdi::gdi_tracks_from(b, rows, paths, 0, Seq::empty()),
        ),
        settled(mds::mds_tracks(a, d, path), mds::mds_tracks(b, d, path)),
{
    let raw = cue::raw_tracks(lines, 0, cue::list_fresh());
    lemma_list_tracks(a, b, raw, same, paths, 0, Seq::empty());
    lemma_list_gaps(a, b, raw, paths, 0, Seq::empty());
    lemma_gdi_tracks(a, b, rows, paths, 0, Seq::empty());
}

proof fn lemma_table(a: Log, b: Log, at: int, n: int, k: int)
    requires
        extends(b, a),
    ensures
        settled(wii_partition::table_search(a, at, n, k), wii_partition::table_search(b, at, n, k)),
    decreases n - k,
{
    if k < n {
        lemma_table(a, b, at, n, k + 1);
    }
}

proof fn lemma_group(a: Log, b: Log, hdr: Seq<u8>, g: int)
    requires
        extends(b, a),
    ensures
        settled(wii_partition::group_search(a, hdr, g), wii_partition::group_search(b, hdr, g)),
    decreases 4 - g,
{
    if g < 4 {
        lemma_table(
            a,
            b,
            crate::bytes::be32(hdr, 8 * g + 4) * 4,
            crate::bytes::be32(hdr, 8 * g),
            0,
        );
        lemma_group(a, b, hdr, g + 1);
    }
}

/// An opened container or partition, and what was read from one, stay.
pub proof fn lemma_reader_stability(
    a: Log,
    b: Log,
    wbfs: wbfs_reader::WbfsView,
    wii: wii_partition::WiiView,
    len: u64,
)
    requires
        extends(b, a),
    ensures
        settled(wbfs_reader::wbfs_image(a), wbfs_reader::wbfs_image(b)),
        settled(wii_partition::wii_disc(a), wii_partition::wii_disc(b)),
        settled(wbfs.read_step(a, len), wbfs.read_step(b, len)),
        settled(wii.read_step(a, len).0, wii.read_step(b, len).0),
{
    match a.known(device::Query::Read { file: 0, offset: 0x40000, len: 32 }) {
        Some(r) => lemma_group(a, b, r.bytes(), 0),
        None => {},
    }
}

} // verus!
