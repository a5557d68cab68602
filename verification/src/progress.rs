//! No question is asked whose answer is known: each answer brings a function
//! nearer to its result.
use crate::cdi;
use crate::chd;
use crate::cue;
use crate::cue::CueLineView;
use crate::detect;
use crate::device::{Log, Step};
use crate::device;
use crate::gdi;
use crate::image;
use crate::image::{Filesystem, Image};
use crate::mds;
use crate::sector;
use crate::track::DataTrack;
use crate::volume;
use crate::wbfs_reader;
use crate::wii_partition;
use vstd::prelude::*;

verus! {

/// A step asks nothing that the log knows.
pub open spec fn is_new<T>(log: Log, s: Step<T>) -> bool {
    s matches Step::Ask(q) ==> log.known(q) is None
}

proof fn lemma_search(log: Log, file: usize, base: u64, stride: u64, udo: u64, d: int)
    ensures
        is_new(log, volume::pvd_search(log, file, base, stride, udo, d)),
    decreases volume::MAX_SCAN - d,
{
    if d < volume::MAX_SCAN {
        lemma_search(log, file, base, stride, udo, d + 1);
    }
}

proof fn lemma_joliet(log: Log, file: usize, spot: device::Spot, lba: int, n: u64)
    ensures
        is_new(log, volume::joliet_count(log, file, spot, lba, n)),
    decreases 32 - lba,
{
    if lba < 32 {
        lemma_joliet(log, file, spot, lba + 1, n);
        lemma_joliet(log, file, spot, lba + 1, (n + 1) as u64);
    }
}

proof fn lemma_iso(log: Log, file: usize, spot: device::Spot, primary: bool)
    ensures
        is_new(log, volume::iso_volume(log, file, spot, primary)),
{
    lemma_joliet(log, file, spot, 17, 0);
}

proof fn lemma_cue_scan(
    log: Log,
    lines: Seq<CueLineView>,
    i: int,
    st: cue::CueState,
    first: Option<DataTrack>,
    last: Option<DataTrack>,
)
    ensures
        is_new(log, cue::cue_scan(log, lines, i, st, first, last)),
    decreases lines.len() - i,
{
    if 0 <= i < lines.len() {
        let next = cue::cue_state(st, lines[i]);
        match cue::state_data(next) {
            None => lemma_cue_scan(log, lines, i + 1, next, first, last),
            Some((bin, udo, idx)) => match cue::cue_data_at(log, bin, udo, idx) {
                Step::Done(t) => lemma_cue_scan(
                    log,
                    lines,
                    i + 1,
                    next,
                    if first is None {
                        Some(t)
                    } else {
                        first
                    },
                    Some(t),
                ),
                _ => {},
            },
        }
    }
}

proof fn lemma_cue_ready(log: Log, gaps: Seq<cue::CueGap>, i: int)
    ensures
        is_new(log, cue::cue_ready(log, gaps, i)),
    decreases gaps.len() - i,
{
    if 0 <= i < gaps.len() {
        lemma_cue_ready(log, gaps, i + 1);
    }
}

proof fn lemma_cdi(
    log: Log,
    spans: Seq<cdi::CdiSpan>,
    i: int,
    first: Option<DataTrack>,
    fits: bool,
    whole: bool,
)
    ensures
        is_new(log, cdi::cdi_choice(log, spans, i, first, fits, whole)),
    decreases spans.len() - i,
{
    if 0 <= i < spans.len() {
        let span = spans[i];
        match cdi::cdi_udo(log, span) {
            Step::Done(udo) => {
                lemma_search(log, 0, span.base, span.stride, udo, 0);
                let next = match first {
                    Some(t) => Some(t),
                    None => Some(cdi::cdi_data_track(span, udo, span.base)),
                };
                lemma_cdi(log, spans, i + 1, next, fits, whole);
            },
            _ => {},
        }
    }
}

proof fn lemma_gdi(
    log: Log,
    rows: Seq<gdi::GdiRowView>,
    i: int,
    best: Option<(DataTrack, bool)>,
)
    ensures
        is_new(log, gdi::gdi_choice(log, rows, i, best)),
    decreases rows.len() - i,
{
    if 0 <= i < rows.len() {
        match gdi::gdi_udo(log, i as usize, rows[i].sector_size) {
            Step::Done(udo) => lemma_search(log, i as usize, 0, rows[i].sector_size, udo, 0),
            _ => {},
        }
        match gdi::gdi_candidate(log, rows[i], i as usize) {
            Step::Done(Some(c)) => {
                lemma_gdi(log, rows, i + 1, Some(c));
                lemma_gdi(log, rows, i + 1, best);
            },
            _ => lemma_gdi(log, rows, i + 1, best),
        }
    }
}

/// The search for a data track asks nothing twice.
pub proof fn lemma_data_track_progress(log: Log, img: Image)
    ensures
        is_new(log, img.data(log)),
{
    match img {
        Image::Cue { lines, same } => {
            let ls = cue::line_views(lines@);
            lemma_cue_scan(log, ls, 0, cue::cue_fresh(), None, None);
            lemma_cue_ready(log, cue::cue_gaps(ls, 0, cue::cue_fresh()), 0);
        },
        Image::Cdi => {
            match log.known(device::Query::Size { file: 0 }) {
                Some(n) => match n.size() {
                    Some(n) => lemma_cdi_image(log, n),
                    None => {},
                },
                None => {},
            }
        },
        Image::Gdi(rows) => lemma_gdi(log, gdi::row_views(rows@), 0, None),
        _ => {},
    }
}

proof fn lemma_cdi_image(log: Log, n: u64)
    ensures
        is_new(log, cdi::cdi_image_of(log, n)),
{
    let tail = device::Query::Read { file: 0, offset: (n - 8) as u64, len: 8 };
    match log.known(tail) {
        Some(t) => match cdi::cdi_footer(n, t.bytes()) {
            Ok(f) => {
                let body = device::Query::Read {
                    file: 0,
                    offset: f.descriptor,
                    len: (if f.descriptor <= n {
                        n - f.descriptor
                    } else {
                        0
                    }) as u64,
                };
                match log.known(body) {
                    Some(d) => {
                        let (tracks, whole) = cdi::cdi_tracks(
                            d.bytes(),
                            f.version == cdi::CDI_V2,
                        );
                        let (spans, fits) = cdi::cdi_spans(tracks);
                        lemma_cdi(log, spans, 0, None, fits, whole);
                    },
                    None => {},
                }
            },
            Err(_) => {},
        },
        None => {},
    }
}

proof fn lemma_track_names(log: Log, file: usize, offset: u64, udo: u64, lba_offset: u64)
    ensures
        is_new(log, detect::track_names(log, file, offset, udo, lba_offset)),
{
    let spot = device::Spot {
        stride: detect::data_stride(udo),
        lba_offset,
        ..device::Spot::plain(offset, udo)
    };
    lemma_iso(log, file, spot, false);
}

proof fn lemma_threedo(log: Log, stride: u64, k: int)
    ensures
        is_new(log, chd::threedo_place(log, stride, k)),
    decreases chd::CHD_PLACES - k,
{
    if k < chd::CHD_PLACES {
        lemma_threedo(log, stride, k + 1);
    }
}

proof fn lemma_chd_iso(log: Log, stride: u64, k: int)
    ensures
        is_new(log, detect::chd_iso_names(log, stride, k)),
    decreases chd::CHD_PLACES - k,
{
    if k < chd::CHD_PLACES {
        lemma_iso(log, 0, chd::threedo_spot(stride, k), true);
        lemma_chd_iso(log, stride, k + 1);
    }
}

proof fn lemma_chd_volume(log: Log, stride: u64, k: int)
    ensures
        is_new(log, chd::chd_volume(log, stride, k)),
    decreases chd::CHD_PLACES - k,
{
    if k < chd::CHD_PLACES {
        lemma_chd_volume(log, stride, k + 1);
    }
}

/// The search for the layout of a compressed image asks nothing twice.
pub proof fn lemma_chd_progress(log: Log, h: chd::ChdHeader)
    ensures
        is_new(log, chd::chd_iso(log, h)),
        is_new(log, chd::chd_threedo(log, h)),
{
    let stride = chd::chd_sector_size(h.hunk_size, h.unit_bytes);
    lemma_chd_volume(log, stride, 0);
    lemma_threedo(log, stride, 0);
}

/// The naming of filesystems asks nothing twice.
pub proof fn lemma_filesystems_progress(log: Log, img: Image)
    ensures
        is_new(log, image::disc_filesystems(log, img)),
{
    match img {
        Image::Chd(h) => {
            let stride = chd::chd_sector_size(h.hunk_size, h.unit_bytes);
            lemma_threedo(log, stride, 0);
            lemma_chd_iso(log, stride, 0);
            lemma_iso(
                log,
                0,
                device::Spot { stride: 2048, ..device::Spot::plain(0, 0) },
                true,
            );
        },
        Image::Mdx => {
            let offset = crate::mdx::MDX_DATA_OFFSET;
            lemma_joliet(
                log,
                0,
                device::Spot { stride: 2048, ..device::Spot::plain(offset, 0) },
                17,
                0,
            );
            match sector::format_at(log, 0, offset) {
                Step::Done(f) => lemma_track_names(log, 0, offset, f.1, 0),
                _ => {},
            }
        },
        Image::Plain => match sector::raw_offset(log, 0) {
            Step::Done(udo) => lemma_track_names(log, 0, 0, udo, 0),
            _ => {},
        },
        _ => {
            lemma_data_track_progress(log, img);
            match img.data(log) {
                Step::Done(Ok(t)) => lemma_track_names(
                    log,
                    t.bin,
                    t.track_offset,
                    t.user_data_offset,
                    t.lba_offset,
                ),
                _ => {},
            }
        },
    }
}

proof fn lemma_first_on(
    log: Log,
    order: Seq<Filesystem>,
    i: int,
    t: DataTrack,
    request: Option<Seq<char>>,
    opened: bool,
)
    ensures
        is_new(log, image::first_on(log, order, i, t, request, opened)),
    decreases order.len() - i,
{
    if 0 <= i < order.len() {
        lemma_first_on(log, order, i + 1, t, request, opened);
    }
}

/// The search for the source of a request asks nothing twice.
pub proof fn lemma_source_progress(log: Log, img: Image, request: Option<Seq<char>>)
    ensures
        is_new(log, image::request_source(log, img, request)),
{
    lemma_data_track_progress(log, img);
    match img.data(log) {
        Step::Done(Ok(t)) => {
            lemma_first_on(log, image::mdx_order(), 0, t, None, false);
            lemma_first_on(log, image::plain_order(), 0, t, request, true);
            lemma_first_on(log, image::track_order(), 0, t, request, false);
        },
        _ => {},
    }
}

/// The reading of a sector asks nothing twice.
pub proof fn lemma_sector_progress(log: Log, img: Image, lba: u64)
    ensures
        is_new(log, image::image_sector(log, img, lba)),
{
    lemma_data_track_progress(log, img);
}

proof fn lemma_cue_all(
    log: Log,
    lines: Seq<CueLineView>,
    same: Seq<usize>,
    i: int,
    st: cue::CueState,
    acc: Seq<DataTrack>,
)
    ensures
        is_new(log, cue::cue_all(log, lines, same, i, st, acc)),
    decreases lines.len() - i,
{
    if 0 <= i < lines.len() {
        let next = cue::all_state(st, lines[i]);
        lemma_cue_all(log, lines, same, i + 1, next, acc);
        match cue::state_data(next) {
            Some((bin, udo, idx)) => match cue::cue_data_at(log, bin, udo, idx) {
                Step::Done(t) => lemma_cue_all(log, lines, same, i + 1, next, acc.push(t)),
                _ => {},
            },
            None => {},
        }
    }
}

/// The search for the volume of a sheet asks nothing twice.
pub proof fn lemma_cue_reader_progress(log: Log, lines: Seq<CueLineView>, same: Seq<usize>)
    ensures
        is_new(log, cue::cue_reader(log, lines, same)),
{
    lemma_cue_all(log, lines, same, 0, cue::cue_fresh(), Seq::empty());
}

proof fn lemma_list_tracks(
    log: Log,
    raw: Seq<cue::RawCueTrackView>,
    same: Seq<usize>,
    paths: Seq<Seq<char>>,
    i: int,
    acc: Seq<crate::track::TrackInfoView>,
)
    ensures
        is_new(log, cue::list_tracks(log, raw, same, paths, i, acc)),
    decreases raw.len() - i,
{
    if 0 <= i < raw.len() {
        match cue::raw_sectors(log, raw, same, i) {
            Step::Done(n) => lemma_list_tracks(
                log,
                raw,
                same,
                paths,
                i + 1,
                acc.push(cue::raw_listed(raw[i], n, paths[raw[i].bin as int])),
            ),
            _ => {},
        }
    }
}

proof fn lemma_list_gaps(
    log: Log,
    raw: Seq<cue::RawCueTrackView>,
    paths: Seq<Seq<char>>,
    i: int,
    acc: Seq<crate::track::TrackInfoView>,
)
    ensures
        is_new(log, cue::list_gaps(log, raw, paths, i, acc)),
    decreases raw.len() - i,
{
    if 0 <= i < raw.len() {
        lemma_list_gaps(log, raw, paths, i + 1, acc);
        lemma_list_gaps(
            log,
            raw,
            paths,
            i + 1,
            acc.push(cue::gap_listed(raw[i], paths[raw[i].bin as int])),
        );
    }
}

proof fn lemma_gdi_tracks(
    log: Log,
    rows: Seq<gdi::GdiRowView>,
    paths: Seq<Seq<char>>,
    i: int,
    acc: Seq<crate::track::TrackInfoView>,
)
    ensures
        is_new(log, gdi::gdi_tracks_from(log, rows, paths, i, acc)),
    decreases rows.len() - i,
{
    if 0 <= i < rows.len() {
        match rows[i].number {
            None => lemma_gdi_tracks(log, rows, paths, i + 1, acc),
            Some(number) => match gdi::gdi_sectors(log, i as usize, rows[i].sector_size) {
                Step::Done(n) => match gdi::gdi_mode(log, rows[i], i as usize) {
                    Step::Done(mode) => lemma_gdi_tracks(
                        log,
                        rows,
                        paths,
                        i + 1,
                        acc.push(gdi::gdi_track(rows[i], number, mode, n, paths[i])),
                    ),
                    _ => {},
                },
                _ => {},
            },
        }
    }
}

/// The listing of tracks asks nothing twice.
pub proof fn lemma_tracks_progress(
    log: Log,
    lines: Seq<CueLineView>,
    same: Seq<usize>,
    rows: Seq<gdi::GdiRowView>,
    paths: Seq<Seq<char>>,
    d: Seq<u8>,
    path: Seq<char>,
)
    ensures
        is_new(log, cue::cue_tracks(log, lines, same, paths)),
        is_new(log, gdi::gdi_tracks_from(log, rows, paths, 0, Seq::empty())),
        is_new(log, mds::mds_tracks(log, d, path)),
{
    let raw = cue::raw_tracks(lines, 0, cue::list_fresh());
    lemma_list_tracks(log, raw, same, paths, 0, Seq::empty());
    lemma_list_gaps(log, raw, paths, 0, Seq::empty());
    lemma_gdi_tracks(log, rows, paths, 0, Seq::empty());
}

proof fn lemma_table(log: Log, at: int, n: int, k: int)
    ensures
        is_new(log, wii_partition::table_search(log, at, n, k)),
    decreases n - k,
{
    if k < n {
        lemma_table(log, at, n, k + 1);
    }
}

proof fn lemma_group(log: Log, hdr: Seq<u8>, g: int)
    ensures
        is_new(log, wii_partition::group_search(log, hdr, g)),
    decreases 4 - g,
{
    if g < 4 {
        lemma_table(
            log,
            crate::bytes::be32(hdr, 8 * g + 4) * 4,
            crate::bytes::be32(hdr, 8 * g),
            0,
        );
        lemma_group(log, hdr, g + 1);
    }
}

/// The opening of a container and of a partition, and reading from them, ask
/// nothing twice.
pub proof fn lemma_reader_progress(
    log: Log,
    wbfs: wbfs_reader::WbfsView,
    wii: wii_partition::WiiView,
    len: u64,
)
    ensures
        is_new(log, wbfs_reader::wbfs_image(log)),
        is_new(log, wii_partition::wii_disc(log)),
        is_new(log, wbfs.read_step(log, len)),
        is_new(log, wii.read_step(log, len).0),
{
    match log.known(device::Query::Read { file: 0, offset: 0x40000, len: 32 }) {
        Some(r) => lemma_group(log, r.bytes(), 0),
        None => {},
    }
}

} // verus!
