//! Sheets whose times are in range have a result.
use crate::cue;
use crate::cue::{CueGap, CueLineView, CueState, ListState, RawCueTrackView};
use crate::device::{Log, Step};
use crate::laws;
use crate::laws::sheet;
use crate::text;
use crate::track::{DataTrack, TrackInfoView};
use vstd::prelude::*;

verus! {

/// The sectors up to 17 behind this one are within 64 bits, counted in bytes.
pub open spec fn is_small(v: int) -> bool {
    (v + 17) * 2352 <= u64::MAX
}

/// The times of a line are in range.
pub open spec fn fits(l: CueLineView) -> bool {
    &&& sheet::index_line(l, '0', '0') || sheet::index_line(l, '0', '1') ==> (sheet::time_of(
        l,
    ) matches Some(v) ==> is_small(v as int))
    &&& laws::opens(l.upper, seq!['I', 'N', 'D', 'E', 'X', ' ', '0', '1', ' ']) ==> (text::msf(
        text::trim(l.upper.skip(9)),
    ) matches Some(v) ==> is_small(v as int))
}

/// The times of all lines are in range.
pub open spec fn all_fit(lines: Seq<CueLineView>) -> bool {
    forall|k: int| 0 <= k < lines.len() ==> fits(#[trigger] lines[k])
}

proof fn lemma_line_fits(l: CueLineView)
    requires
        fits(l),
    ensures
        !cue::index_fault(l),
        !cue::line_fault(l),
        !cue::start_fault(l),
        cue::is_index00(l) || cue::is_index01(l) ==> (cue::index_time(l) matches Some(v)
            ==> is_small(v as int)),
        cue::is_start(l) ==> (cue::start_time(l) matches Some(v) ==> is_small(v as int)),
{
    sheet::lemma_line(l);
    let p = seq!['I', 'N', 'D', 'E', 'X', ' ', '0', '1', ' '];
    reveal_strlit("INDEX 01 ");
    assert("INDEX 01 "@ =~= p);
    laws::lemma_opens(l.upper, p);
}

// ── The list of tracks ───────────────────────────────────────────────────────

proof fn lemma_list(lines: Seq<CueLineView>, i: int, st: ListState)
    requires
        all_fit(lines),
        0 <= i <= lines.len(),
        is_small(st.index00 as int),
    ensures
        !cue::list_fault(lines, i),
        forall|k: int|
            0 <= k < cue::raw_tracks(lines, i, st).len() ==> is_small(
                (#[trigger] cue::raw_tracks(lines, i, st)[k]).index00_lba as int,
            ),
    decreases lines.len() - i,
{
    let all = cue::raw_tracks(lines, i, st);
    let flush = cue::list_flush(st);
    if i < lines.len() {
        let l = lines[i];
        assert(fits(l));
        lemma_line_fits(l);
        let next = cue::list_state(st, l);
        lemma_list(lines, i + 1, next);
        let rest = cue::raw_tracks(lines, i + 1, next);
        assert forall|k: int| 0 <= k < all.len() implies is_small(
            (#[trigger] all[k]).index00_lba as int,
        ) by {
            if cue::ends_track(l) {
                if k < flush.len() {
                    assert(all[k] == flush[k]);
                } else {
                    assert(all[k] == rest[k - flush.len()]);
                }
            }
        }
    }
}

proof fn lemma_tracks(
    log: Log,
    raw: Seq<RawCueTrackView>,
    same: Seq<usize>,
    paths: Seq<Seq<char>>,
    i: int,
    acc: Seq<TrackInfoView>,
)
    requires
        0 <= i <= raw.len(),
    ensures
        cue::list_tracks(log, raw, same, paths, i, acc) !is Fault,
    decreases raw.len() - i,
{
    if i < raw.len() {
        match cue::raw_sectors(log, raw, same, i) {
            Step::Done(n) => lemma_tracks(
                log,
                raw,
                same,
                paths,
                i + 1,
                acc.push(cue::raw_listed(raw[i], n, paths[raw[i].bin as int])),
            ),
            _ => {},
        }
    }
}

proof fn lemma_gaps(
    log: Log,
    raw: Seq<RawCueTrackView>,
    paths: Seq<Seq<char>>,
    i: int,
    acc: Seq<TrackInfoView>,
)
    requires
        0 <= i <= raw.len(),
        forall|k: int| 0 <= k < raw.len() ==> is_small((#[trigger] raw[k]).index00_lba as int),
    ensures
        cue::list_gaps(log, raw, paths, i, acc) !is Fault,
    decreases raw.len() - i,
{
    if i < raw.len() {
        assert(is_small(raw[i].index00_lba as int));
        lemma_gaps(log, raw, paths, i + 1, acc);
        lemma_gaps(
            log,
            raw,
            paths,
            i + 1,
            acc.push(cue::gap_listed(raw[i], paths[raw[i].bin as int])),
        );
    }
}

/// The tracks of a sheet whose times are in range can be listed.
pub proof fn lemma_list_has_result(
    log: Log,
    lines: Seq<CueLineView>,
    same: Seq<usize>,
    paths: Seq<Seq<char>>,
)
    requires
        all_fit(lines),
    ensures
        cue::cue_tracks(log, lines, same, paths) !is Fault,
{
    lemma_list(lines, 0, cue::list_fresh());
    let raw = cue::raw_tracks(lines, 0, cue::list_fresh());
    lemma_tracks(log, raw, same, paths, 0, Seq::empty());
    lemma_gaps(log, raw, paths, 0, Seq::empty());
}

// ── The data track ───────────────────────────────────────────────────────────

spec fn state_fits(st: CueState) -> bool {
    is_small(st.index00 as int) && (st.index01 matches Some(v) ==> is_small(v as int))
}

spec fn track_fits(t: Option<DataTrack>) -> bool {
    t matches Some(t) ==> t.track_offset + 17 * 2352 <= u64::MAX && t.user_data_offset <= 24
}

proof fn lemma_at(log: Log, st: CueState)
    requires
        state_fits(st),
    ensures
        cue::state_data(st) matches Some(x) ==> {
            &&& cue::cue_data_at(log, x.0, x.1, x.2) !is Fault
            &&& cue::cue_data_at(log, x.0, x.1, x.2) matches Step::Done(t) ==> track_fits(Some(t))
        },
{
}

proof fn lemma_scan(
    log: Log,
    lines: Seq<CueLineView>,
    i: int,
    st: CueState,
    first: Option<DataTrack>,
    last: Option<DataTrack>,
)
    requires
        all_fit(lines),
        0 <= i <= lines.len(),
        state_fits(st),
        track_fits(first),
        track_fits(last),
    ensures
        cue::cue_scan(log, lines, i, st, first, last) !is Fault,
        cue::cue_scan(log, lines, i, st, first, last) matches Step::Done(r) ==> track_fits(r.0)
            && track_fits(r.1),
    decreases lines.len() - i,
{
    if i < lines.len() {
        let l = lines[i];
        assert(fits(l));
        lemma_line_fits(l);
        let next = cue::cue_state(st, l);
        lemma_at(log, next);
        match cue::state_data(next) {
            None => lemma_scan(log, lines, i + 1, next, first, last),
            Some(x) => match cue::cue_data_at(log, x.0, x.1, x.2) {
                Step::Done(t) => lemma_scan(
                    log,
                    lines,
                    i + 1,
                    next,
                    if first is None {
                        Some(t)
                    } else {
                        first
                    },
                    Some(t),
                ),
                _ => {},
            },
        }
    }
}

proof fn lemma_cue_gaps(lines: Seq<CueLineView>, i: int, st: CueState)
    requires
        all_fit(lines),
        0 <= i <= lines.len(),
        state_fits(st),
    ensures
        forall|k: int|
            0 <= k < cue::cue_gaps(lines, i, st).len() ==> is_small(
                (#[trigger] cue::cue_gaps(lines, i, st)[k]).start as int,
            ),
    decreases lines.len() - i,
{
    let all = cue::cue_gaps(lines, i, st);
    let own = cue::state_gap(st);
    if i < lines.len() {
        let l = lines[i];
        assert(fits(l));
        lemma_line_fits(l);
        let next = cue::cue_state(st, l);
        lemma_cue_gaps(lines, i + 1, next);
        let rest = cue::cue_gaps(lines, i + 1, next);
        assert forall|k: int| 0 <= k < all.len() implies is_small(
            (#[trigger] all[k]).start as int,
        ) by {
            if cue::is_file(l) || cue::is_track(l) {
                if k < own.len() {
                    assert(all[k] == own[k]);
                } else {
                    assert(all[k] == rest[k - own.len()]);
                }
            }
        }
    }
}

proof fn lemma_ready(log: Log, gaps: Seq<CueGap>, i: int)
    requires
        0 <= i <= gaps.len(),
        forall|k: int| 0 <= k < gaps.len() ==> is_small((#[trigger] gaps[k]).start as int),
    ensures
        cue::cue_ready(log, gaps, i) !is Fault,
    decreases gaps.len() - i,
{
    if i < gaps.len() {
        assert(is_small(gaps[i].start as int));
        lemma_ready(log, gaps, i + 1);
    }
}

/// The data track of a sheet whose times are in range is found, or found to be missing.
pub proof fn lemma_data_track_has_result(log: Log, lines: Seq<CueLineView>, same: Seq<usize>)
    requires
        all_fit(lines),
    ensures
        cue::cue_image(log, lines, same) !is Fault,
{
    let fresh = cue::cue_fresh();
    lemma_scan(log, lines, 0, fresh, None, None);
    lemma_cue_gaps(lines, 0, fresh);
    lemma_ready(log, cue::cue_gaps(lines, 0, fresh), 0);
}

proof fn lemma_all(
    log: Log,
    lines: Seq<CueLineView>,
    same: Seq<usize>,
    i: int,
    st: CueState,
    acc: Seq<DataTrack>,
)
    requires
        all_fit(lines),
        0 <= i <= lines.len(),
        state_fits(st),
        acc.len() > 0 ==> track_fits(Some(acc.last())),
    ensures
        cue::cue_all(log, lines, same, i, st, acc) !is Fault,
        cue::cue_all(log, lines, same, i, st, acc) matches Step::Done(Ok(d)) ==> d.len() > 0
            && track_fits(Some(d.last())),
    decreases lines.len() - i,
{
    if i < lines.len() {
        let l = lines[i];
        assert(fits(l));
        lemma_line_fits(l);
        let next = cue::all_state(st, l);
        lemma_at(log, next);
        lemma_all(log, lines, same, i + 1, next, acc);
        match cue::state_data(next) {
            None => {},
            Some(x) => match cue::cue_data_at(log, x.0, x.1, x.2) {
                Step::Done(t) => lemma_all(log, lines, same, i + 1, next, acc.push(t)),
                _ => {},
            },
        }
    }
}

/// The reader of a sheet whose times are in range is found, or found to be missing.
pub proof fn lemma_reader_has_result(log: Log, lines: Seq<CueLineView>, same: Seq<usize>)
    requires
        all_fit(lines),
    ensures
        cue::cue_reader(log, lines, same) !is Fault,
{
    lemma_all(log, lines, same, 0, cue::cue_fresh(), Seq::empty());
}

} // verus!
