//! Readers of the volume of a sheet, and tracks in the gaps of a sheet.
use crate::cue;
use crate::cue::{CueGap, CueLineView, CueState};
use crate::device::{Log, Probe, Query, Spot, Step};
use crate::error::DiscError;
use crate::laws;
use crate::laws::sheet;
use crate::laws::volume;
use crate::text;
use crate::track::{DataTrack, MultiTrackBinReader, TrackFile};
use vstd::prelude::*;

verus! {

// ── Sectors by number ────────────────────────────────────────────────────────

/// Sector `lba` is one of those of a track: not before its first one, and, where
/// their number is known, not behind its last one.
pub open spec fn covers(t: TrackFile, lba: int) -> bool {
    t.start_lba <= lba && (t.sector_count == 0 || lba < t.start_lba + t.sector_count)
}

/// Where the user data of the sector `n` sectors behind the first one of a track
/// stands.
pub open spec fn user_data(t: TrackFile, n: int) -> int {
    t.track_offset + t.user_data_offset + n * t.stride
}

/// Where a reader of one track reads a sector: as many sectors behind the start of
/// the track as the sector is behind the number that the track counts from; a
/// sector before that number is counted from the start of the track.
pub proof fn lemma_one_track(r: MultiTrackBinReader, lba: u64)
    requires
        r.wf(),
        !r.multi_bin,
    ensures
        r.target(lba).0 == r.root_idx,
        ({
            let t = r.tracks@[r.root_idx as int];
            &&& lba >= t.lba_offset ==> r.target_position(lba) == user_data(t, lba - t.lba_offset)
            &&& lba < t.lba_offset ==> r.target_position(lba) == user_data(t, lba as int)
        }),
{
}

proof fn lemma_holder(tracks: Seq<TrackFile>, lba: u64, i: int, k: int)
    requires
        0 <= i <= k <= tracks.len(),
        forall|j: int| i <= j < k ==> !covers(#[trigger] tracks[j], lba as int),
        k < tracks.len() ==> covers(tracks[k], lba as int),
    ensures
        crate::track::first_holder(tracks, lba, i) == k,
    decreases k - i,
{
    if i < k {
        assert(!covers(tracks[i], lba as int));
        lemma_holder(tracks, lba, i + 1, k);
    }
}

/// Where a reader of several tracks reads a sector: the first 32 sectors in the
/// root track, any other in the first track that has it; a sector that none has
/// in the root track, counted from its start.
pub proof fn lemma_many_tracks(r: MultiTrackBinReader, lba: u64, k: int)
    requires
        r.wf(),
        r.multi_bin,
        0 <= k <= r.tracks@.len(),
        forall|j: int| 0 <= j < k ==> !covers(#[trigger] r.tracks@[j], lba as int),
        k < r.tracks@.len() ==> covers(r.tracks@[k], lba as int),
    ensures
        lba < 32 || k == r.tracks@.len() ==> r.target(lba).0 == r.root_idx && r.target_position(lba)
            == user_data(r.tracks@[r.root_idx as int], lba as int),
        lba >= 32 && k < r.tracks@.len() ==> r.target(lba).0 == k && r.target_position(lba)
            == user_data(r.tracks@[k], lba - r.tracks@[k].start_lba),
{
    lemma_holder(r.tracks@, lba, 0, k);
}

// ── The reader of a sheet ────────────────────────────────────────────────────

/// A track of a reader is a data track of the sheet.
pub open spec fn reads(f: TrackFile, t: DataTrack) -> bool {
    &&& f.bin == t.bin
    &&& f.track_offset == t.track_offset
    &&& f.user_data_offset == t.user_data_offset
    &&& f.stride == t.stride
    &&& f.lba_offset == t.lba_offset
    &&& f.start_lba == t.lba_offset
}

proof fn lemma_differ(tracks: Seq<DataTrack>, same: Seq<usize>, i: int)
    requires
        0 <= i < tracks.len(),
    ensures
        cue::files_differ(tracks, same, i) <==> exists|k: int|
            i <= k < tracks.len() && same[(#[trigger] tracks[k]).bin as int]
                != same[tracks[i].bin as int],
    decreases tracks.len() - i,
{
    if i + 1 < tracks.len() {
        lemma_differ(tracks, same, i + 1);
        if same[tracks[i].bin as int] != same[tracks[i + 1].bin as int] {
            assert(same[tracks[i + 1].bin as int] != same[tracks[i].bin as int]);
        }
    }
}

/// The reader of a sheet with the data tracks `tracks`, the last of which is in a
/// file with the bytes `d`. Where they are in more than one file and the last of
/// them has no volume descriptor, the reader has them all; else it has the last
/// one alone, without an end.
pub proof fn lemma_reader(log: Log, tracks: Seq<DataTrack>, same: Seq<usize>, d: Seq<u8>)
    requires
        tracks.len() > 0,
        laws::shows(log, tracks.last().bin, d),
        tracks.last().track_offset + 16 * 2352 + tracks.last().user_data_offset <= u64::MAX,
    ensures
        ({
            let last = tracks.last();
            let several = exists|k: int|
                0 <= k < tracks.len() && same[(#[trigger] tracks[k]).bin as int]
                    != same[tracks[0].bin as int];
            let whole = several && !volume::marked(
                d,
                last.track_offset + 16 * 2352 + last.user_data_offset,
            );
            let s = cue::cue_volume(log, tracks, same);
            &&& s !is Fault
            &&& s matches Step::Done(r) ==> {
                &&& r.root_idx == 0
                &&& r.multi_bin == whole
                &&& whole ==> r.tracks.len() == tracks.len() && forall|k: int|
                    0 <= k < tracks.len() ==> reads(#[trigger] r.tracks[k], tracks[k])
                        && r.tracks[k].sector_count == tracks[k].sector_count
                &&& !whole ==> r.tracks.len() == 1 && reads(r.tracks[0], last)
                    && r.tracks[0].sector_count == 0
            }
        }),
{
    lemma_differ(tracks, same, 0);
    volume::lemma_pvd_check(log, d, tracks.last());
}

/// The reader of a sheet is that of all its data tracks; a sheet without one has none.
pub proof fn lemma_sheet_reader(log: Log, lines: Seq<CueLineView>, same: Seq<usize>)
    ensures
        cue::cue_reader(log, lines, same) matches Step::Done(r) ==> {
            let all = cue::cue_all(log, lines, same, 0, cue::cue_fresh(), Seq::empty());
            match r {
                Ok(v) => all matches Step::Done(Ok(tracks)) && cue::cue_volume(log, tracks, same)
                    == Step::Done(v),
                Err(e) => all == Step::Done(Err::<Seq<DataTrack>, DiscError>(e)),
            }
        },
{
}

// ── All data tracks ──────────────────────────────────────────────────────────

/// The line gives the start `t` of a track: `INDEX 01` and a time.
pub open spec fn start_line(l: CueLineView, t: u64) -> bool {
    laws::opens(l.upper, seq!['I', 'N', 'D', 'E', 'X', ' ', '0', '1', ' ']) && (text::msf(
        text::trim(l.upper.skip(9)),
    ) matches Some(v) && v == t)
}

proof fn lemma_start_line(l: CueLineView, t: u64)
    requires
        start_line(l, t),
    ensures
        cue::is_start(l),
        cue::start_time(l) == Some(t as nat),
        !cue::is_file(l),
        !cue::is_track(l),
{
    let p = seq!['I', 'N', 'D', 'E', 'X', ' ', '0', '1', ' '];
    reveal_strlit("INDEX 01 ");
    assert("INDEX 01 "@ =~= p);
    laws::lemma_opens(l.upper, p);
    sheet::lemma_line(l);
    assert(l.upper[0] == p[0]);
    let file = seq!['F', 'I', 'L', 'E', ' '];
    let track = seq!['T', 'R', 'A', 'C', 'K', ' '];
    assert(laws::opens(l.upper, file) ==> l.upper[0] == file[0]);
    assert(laws::opens(l.upper, track) ==> l.upper[0] == track[0]);
    assert(file[0] == 'F' && track[0] == 'T');
}

proof fn lemma_all_files(lines: Seq<CueLineView>, n: int)
    requires
        0 <= n <= lines.len() <= usize::MAX,
    ensures
        cue::state_behind(lines, n).files == sheet::files(lines, n).len(),
    decreases n,
{
    sheet::lemma_files_are_few(lines, n);
    if n > 0 {
        lemma_all_files(lines, n - 1);
        sheet::lemma_line(lines[n - 1]);
        sheet::lemma_files_are_few(lines, n - 1);
        if sheet::names_file(lines[n - 1]) {
            assert(sheet::files(lines, n) =~= sheet::files(lines, n - 1).insert(n - 1));
        } else {
            assert(sheet::files(lines, n) =~= sheet::files(lines, n - 1));
        }
    } else {
        assert(sheet::files(lines, n) =~= Set::empty());
    }
}

proof fn lemma_all_bin(lines: Seq<CueLineView>, f: int, n: int)
    requires
        sheet::file_of(lines, n, f),
        n <= lines.len() <= usize::MAX,
    ensures
        cue::state_behind(lines, n).bin matches Some(b) && b == sheet::files(lines, f).len(),
    decreases n,
{
    sheet::lemma_line(lines[n - 1]);
    if n == f + 1 {
        lemma_all_files(lines, f);
    } else {
        lemma_all_bin(lines, f, n - 1);
        assert(!sheet::names_file(lines[n - 1]));
    }
}

proof fn lemma_all_inside(lines: Seq<CueLineView>, i: int, f: int, udo: int, n: int)
    requires
        sheet::data_at(lines, i, f, udo),
        lines.len() <= usize::MAX,
        i < n <= lines.len(),
        forall|k: int| i < k < n ==> !sheet::leaves(#[trigger] lines[k]),
    ensures
        cue::state_behind(lines, n).kind matches Some(kind) && cue::kind_offset(kind) == Some(
            udo as u64,
        ),
        cue::state_behind(lines, n).bin matches Some(b) && b == sheet::files(lines, f).len(),
    decreases n - i,
{
    sheet::lemma_line(lines[n - 1]);
    if n == i + 1 {
        lemma_all_bin(lines, f, i);
        laws::cue::lemma_modes(lines[i].mode->0);
    } else {
        lemma_all_inside(lines, i, f, udo, n - 1);
        assert(!sheet::leaves(lines[n - 1]));
    }
}

proof fn lemma_all_to(log: Log, lines: Seq<CueLineView>, same: Seq<usize>, n: int) -> (acc: Seq<
    DataTrack,
>)
    requires
        0 <= n <= lines.len(),
    ensures
        ({
            let all = cue::cue_all(log, lines, same, 0, cue::cue_fresh(), Seq::empty());
            all is Done ==> {
                &&& all == cue::cue_all(log, lines, same, n, cue::state_behind(lines, n), acc)
                &&& n > 0 ==> (cue::data_behind(lines, n) matches Some(x) ==> acc.len() > 0
                    && same[acc.last().bin as int] == same[x.0 as int] && acc.last().track_offset
                    == x.2 * 2352)
            }
        }),
    decreases n,
{
    if n == 0 {
        Seq::empty()
    } else {
        let acc = lemma_all_to(log, lines, same, n - 1);
        match cue::data_behind(lines, n) {
            None => acc,
            Some(x) => if cue::is_listed(acc, same, x.0, x.2 * 2352) {
                acc
            } else {
                match cue::cue_data_at(log, x.0, x.1, x.2) {
                    Step::Done(t) => acc.push(t),
                    _ => acc,
                }
            },
        }
    }
}

proof fn lemma_all_keeps(
    log: Log,
    lines: Seq<CueLineView>,
    same: Seq<usize>,
    n: int,
    st: CueState,
    acc: Seq<DataTrack>,
)
    requires
        0 <= n <= lines.len(),
    ensures
        cue::cue_all(log, lines, same, n, st, acc) matches Step::Done(Ok(d)) ==> acc.len() <= d.len()
            && forall|k: int| 0 <= k < acc.len() ==> #[trigger] d[k] == acc[k],
        acc.len() > 0 ==> !(cue::cue_all(log, lines, same, n, st, acc) matches Step::Done(Err(_))),
    decreases lines.len() - n,
{
    if n < lines.len() {
        let next = cue::all_state(st, lines[n]);
        match cue::state_data(next) {
            None => lemma_all_keeps(log, lines, same, n + 1, next, acc),
            Some(x) => {
                lemma_all_keeps(log, lines, same, n + 1, next, acc);
                match cue::cue_data_at(log, x.0, x.1, x.2) {
                    Step::Done(t) => {
                        lemma_all_keeps(log, lines, same, n + 1, next, acc.push(t));
                        if let Step::Done(Ok(d)) = cue::cue_all(
                            log,
                            lines,
                            same,
                            n + 1,
                            next,
                            acc.push(t),
                        ) {
                            assert forall|k: int| 0 <= k < acc.len() implies #[trigger] d[k]
                                == acc[k] by {
                                assert(acc.push(t)[k] == acc[k]);
                            }
                        }
                    },
                    _ => {},
                }
            },
        }
    }
}

/// Each track of data sectors with a start is among all data tracks of a sheet: one
/// of them begins at that sector of that file.
pub proof fn lemma_among_all(
    log: Log,
    lines: Seq<CueLineView>,
    same: Seq<usize>,
    i: int,
    f: int,
    udo: int,
    p: int,
    start: u64,
)
    requires
        lines.len() <= usize::MAX,
        sheet::data_at(lines, i, f, udo),
        i < p < lines.len(),
        start_line(lines[p], start),
        forall|k: int| i < k < p ==> !sheet::leaves(#[trigger] lines[k]),
    ensures
        cue::cue_all(log, lines, same, 0, cue::cue_fresh(), Seq::empty()) matches Step::Done(r) ==> (
        r matches Ok(d) && exists|k: int|
            0 <= k < d.len() && same[(#[trigger] d[k]).bin as int] == same[sheet::files(
                lines,
                f,
            ).len() as int] && d[k].track_offset == start * 2352),
{
    sheet::lemma_files_are_few(lines, f);
    lemma_all_inside(lines, i, f, udo, p);
    lemma_start_line(lines[p], start);
    let st = cue::state_behind(lines, p + 1);
    assert(st == cue::all_state(cue::state_behind(lines, p), lines[p]));
    assert(cue::data_behind(lines, p + 1) is Some);
    let acc = lemma_all_to(log, lines, same, p + 1);
    let all = cue::cue_all(log, lines, same, 0, cue::cue_fresh(), Seq::empty());
    if all is Done {
        lemma_all_keeps(log, lines, same, p + 1, st, acc);
        if let Step::Done(Ok(d)) = all {
            let k = acc.len() - 1;
            assert(d[k] == acc[k]);
        }
    }
}

/// The track `t` begins at the `INDEX 01` line `p` of the track of data sectors at line
/// `i`.
pub open spec fn from_line(
    log: Log,
    lines: Seq<CueLineView>,
    t: DataTrack,
    i: int,
    f: int,
    udo: int,
    p: int,
    start: u64,
) -> bool {
    &&& sheet::data_at(lines, i, f, udo)
    &&& i < p < lines.len()
    &&& start_line(lines[p], start)
    &&& forall|k: int| i < k < p ==> !sheet::leaves(#[trigger] lines[k])
    &&& sheet::is_at(log, t, sheet::files(lines, f).len(), udo, start)
}

/// The track is one of data sectors with a start.
pub open spec fn is_of_sheet(log: Log, lines: Seq<CueLineView>, t: DataTrack) -> bool {
    exists|i: int, f: int, udo: int, p: int, start: u64|
        from_line(log, lines, t, i, f, udo, p, start)
}

proof fn lemma_all_bin_exists(lines: Seq<CueLineView>, n: int) -> (f: int)
    requires
        0 <= n <= lines.len() <= usize::MAX,
        cue::state_behind(lines, n).bin is Some,
    ensures
        sheet::file_of(lines, n, f),
        cue::state_behind(lines, n).bin == Some(sheet::files(lines, f).len() as usize),
    decreases n,
{
    sheet::lemma_line(lines[n - 1]);
    lemma_all_files(lines, n - 1);
    if sheet::names_file(lines[n - 1]) {
        n - 1
    } else {
        let f = lemma_all_bin_exists(lines, n - 1);
        f
    }
}

proof fn lemma_all_origin(lines: Seq<CueLineView>, n: int) -> (r: (int, int))
    requires
        0 <= n <= lines.len(),
    ensures
        ({
            let st = cue::state_behind(lines, n);
            st.kind matches Some(kind) ==> {
                &&& 0 <= r.0 < n
                &&& sheet::track_line(lines[r.0])
                &&& lines[r.0].mode matches Some(m) && kind == cue::cue_kind(m)
                &&& forall|k: int| r.0 < k < n ==> !sheet::leaves(#[trigger] lines[k])
                &&& st.bin == cue::state_behind(lines, r.0).bin
                &&& st.index01 is Some ==> r.0 < r.1 < n && cue::is_start(lines[r.1])
                    && cue::start_time(lines[r.1]) is Some && st.index01 == Some(
                    cue::start_time(lines[r.1])->0 as u64,
                )
            }
        }),
    decreases n,
{
    if n == 0 {
        (0, 0)
    } else {
        let (i, p) = lemma_all_origin(lines, n - 1);
        let l = lines[n - 1];
        sheet::lemma_line(l);
        if sheet::track_line(l) {
            (n - 1, 0)
        } else if cue::is_start(l) {
            (i, n - 1)
        } else {
            (i, p)
        }
    }
}

proof fn lemma_started(l: CueLineView)
    requires
        cue::is_start(l),
        cue::start_time(l) is Some,
        !sheet::leaves(l),
        !cue::start_fault(l),
    ensures
        start_line(l, cue::start_time(l)->0 as u64),
{
    sheet::lemma_line(l);
    let p = seq!['I', 'N', 'D', 'E', 'X', ' ', '0', '1', ' '];
    reveal_strlit("INDEX 01 ");
    assert("INDEX 01 "@ =~= p);
    laws::lemma_opens(l.upper, p);
}

proof fn lemma_data_line(lines: Seq<CueLineView>, i: int, udo: u64) -> (f: int)
    requires
        0 <= i < lines.len() <= usize::MAX,
        sheet::track_line(lines[i]),
        lines[i].mode matches Some(m) && cue::kind_offset(cue::cue_kind(m)) == Some(udo),
        cue::state_behind(lines, i).bin is Some,
    ensures
        sheet::data_at(lines, i, f, udo as int),
        cue::state_behind(lines, i).bin matches Some(b) && b == sheet::files(lines, f).len(),
{
    laws::cue::lemma_modes(lines[i].mode->0);
    let f = lemma_all_bin_exists(lines, i);
    sheet::lemma_files_are_few(lines, f);
    f
}

proof fn lemma_of_sheet(log: Log, lines: Seq<CueLineView>, n: int, t: DataTrack)
    requires
        0 <= n <= lines.len() <= usize::MAX,
        forall|k: int| 0 <= k < n ==> !cue::start_fault(#[trigger] lines[k]),
        cue::data_behind(lines, n) matches Some(x) && cue::cue_data_at(log, x.0, x.1, x.2)
            == Step::Done(t),
    ensures
        is_of_sheet(log, lines, t),
{
    let x = cue::data_behind(lines, n)->0;
    let (i, p) = lemma_all_origin(lines, n);
    let f = lemma_data_line(lines, i, x.1);
    sheet::lemma_is_at(log, x.0, x.1, x.2, t);
    lemma_started(lines[p]);
    assert(from_line(log, lines, t, i, f, x.1 as int, p, x.2));
}

proof fn lemma_all_from(
    log: Log,
    lines: Seq<CueLineView>,
    same: Seq<usize>,
    n: int,
    acc: Seq<DataTrack>,
)
    requires
        0 <= n <= lines.len() <= usize::MAX,
        forall|k: int| 0 <= k < n ==> !cue::start_fault(#[trigger] lines[k]),
        forall|k: int| 0 <= k < acc.len() ==> is_of_sheet(log, lines, #[trigger] acc[k]),
        forall|k: int|
            0 < k < acc.len() ==> same[acc[k - 1].bin as int] != same[(#[trigger] acc[k]).bin as int]
                || acc[k - 1].track_offset != acc[k].track_offset,
    ensures
        cue::cue_all(log, lines, same, n, cue::state_behind(lines, n), acc) matches Step::Done(
            Ok(d),
        ) ==> {
            &&& d.len() > 0
            &&& forall|k: int| 0 <= k < d.len() ==> is_of_sheet(log, lines, #[trigger] d[k])
            &&& forall|k: int|
                0 < k < d.len() ==> same[d[k - 1].bin as int] != same[(#[trigger] d[k]).bin as int]
                    || d[k - 1].track_offset != d[k].track_offset
        },
        cue::cue_all(log, lines, same, n, cue::state_behind(lines, n), acc) matches Step::Done(
            Err(e),
        ) ==> e == DiscError::CueNoDataTrack,
    decreases lines.len() - n,
{
    if n < lines.len() && !cue::start_fault(lines[n]) {
        let next = cue::state_behind(lines, n + 1);
        assert(next == cue::all_state(cue::state_behind(lines, n), lines[n]));
        match cue::state_data(next) {
            None => lemma_all_from(log, lines, same, n + 1, acc),
            Some(x) => if cue::is_listed(acc, same, x.0, x.2 * 2352) {
                lemma_all_from(log, lines, same, n + 1, acc)
            } else {
                match cue::cue_data_at(log, x.0, x.1, x.2) {
                    Step::Done(t) => {
                        lemma_of_sheet(log, lines, n + 1, t);
                        lemma_all_from(log, lines, same, n + 1, acc.push(t));
                    },
                    _ => {},
                }
            },
        }
    }
}

/// What all data tracks of a sheet are: tracks of data sectors, each at a start of
/// its own line, no two in a row at the same place of the same file. A sheet without
/// one is an error.
pub proof fn lemma_all_are_data(log: Log, lines: Seq<CueLineView>, same: Seq<usize>)
    requires
        lines.len() <= usize::MAX,
    ensures
        cue::cue_all(log, lines, same, 0, cue::cue_fresh(), Seq::empty()) matches Step::Done(Ok(d))
            ==> {
            &&& d.len() > 0
            &&& forall|k: int| 0 <= k < d.len() ==> is_of_sheet(log, lines, #[trigger] d[k])
            &&& forall|k: int|
                0 < k < d.len() ==> same[d[k - 1].bin as int] != same[(#[trigger] d[k]).bin as int]
                    || d[k - 1].track_offset != d[k].track_offset
        },
        cue::cue_all(log, lines, same, 0, cue::cue_fresh(), Seq::empty()) matches Step::Done(Err(e))
            ==> e == DiscError::CueNoDataTrack,
{
    lemma_all_from(log, lines, same, 0, Seq::empty());
}

// ── Tracks in gaps ───────────────────────────────────────────────────────────

/// The answers say that a scrambled CD-i track begins at this gap.
pub open spec fn begins_track(log: Log, g: CueGap) -> bool {
    let q = Query::Probe {
        file: g.bin,
        probe: Probe::CdiReadyPregap,
        spot: Spot {
            track_offset: (g.start * 2352) as u64,
            user_data_offset: 0,
            stride: 0,
            lba_offset: 0,
            descramble: false,
        },
    };
    log.known(q) matches Some(r) && r.flag()
}

proof fn lemma_gap_from(log: Log, gaps: Seq<CueGap>, i: int)
    requires
        0 <= i <= gaps.len(),
    ensures
        cue::cue_ready(log, gaps, i) matches Step::Done(Err(e)) ==> e == DiscError::CueNoDataTrack
            && forall|k: int| i <= k < gaps.len() ==> !begins_track(log, #[trigger] gaps[k]),
        cue::cue_ready(log, gaps, i) matches Step::Done(Ok(t)) ==> exists|k: int|
            {
                &&& i <= k < gaps.len()
                &&& begins_track(log, #[trigger] gaps[k])
                &&& forall|j: int| i <= j < k ==> !begins_track(log, #[trigger] gaps[j])
                &&& t.bin == gaps[k].bin
                &&& t.track_offset == gaps[k].start * 2352
                &&& t.user_data_offset == 24
                &&& t.stride == 2352
                &&& t.lba_offset == 0
                &&& t.descramble
                &&& t.sector_count == 0
            },
    decreases gaps.len() - i,
{
    if i < gaps.len() {
        lemma_gap_from(log, gaps, i + 1);
        if gaps[i].start * 2352 <= u64::MAX && !begins_track(log, gaps[i]) {
            if let Step::Done(Ok(t)) = cue::cue_ready(log, gaps, i) {
                let k = choose|k: int|
                    {
                        &&& i + 1 <= k < gaps.len()
                        &&& begins_track(log, #[trigger] gaps[k])
                        &&& forall|j: int| i + 1 <= j < k ==> !begins_track(log, #[trigger] gaps[j])
                        &&& t.bin == gaps[k].bin
                        &&& t.track_offset == gaps[k].start * 2352
                        &&& t.user_data_offset == 24
                        &&& t.stride == 2352
                        &&& t.lba_offset == 0
                        &&& t.descramble
                        &&& t.sector_count == 0
                    };
                assert(begins_track(log, gaps[k]));
            }
        }
    }
}

/// A sheet without data sectors has the scrambled CD-i track of the first of its
/// gaps that holds one, and no data track where none does.
pub proof fn lemma_gap_track(log: Log, lines: Seq<CueLineView>, same: Seq<usize>)
    requires
        cue::cue_scan(log, lines, 0, cue::cue_fresh(), None, None) matches Step::Done((None, _)),
    ensures
        ({
            let gaps = cue::cue_gaps(lines, 0, cue::cue_fresh());
            &&& cue::cue_image(log, lines, same) matches Step::Done(Err(e)) ==> e
                == DiscError::CueNoDataTrack && forall|k: int|
                0 <= k < gaps.len() ==> !begins_track(log, #[trigger] gaps[k])
            &&& cue::cue_image(log, lines, same) matches Step::Done(Ok(t)) ==> exists|k: int|
                {
                    &&& 0 <= k < gaps.len()
                    &&& begins_track(log, #[trigger] gaps[k])
                    &&& forall|j: int| 0 <= j < k ==> !begins_track(log, #[trigger] gaps[j])
                    &&& t.bin == gaps[k].bin
                    &&& t.track_offset == gaps[k].start * 2352
                    &&& t.user_data_offset == 24
                    &&& t.stride == 2352
                    &&& t.lba_offset == 0
                    &&& t.descramble
                    &&& t.sector_count == 0
                }
        }),
{
    let gaps = cue::cue_gaps(lines, 0, cue::cue_fresh());
    lemma_gap_from(log, gaps, 0);
}

} // verus!
