//! Cue sheets.
use crate::cue;
use crate::cue::{CueKind, CueLineView, RawCueTrackView};
use crate::device::{Log, Step};
use crate::laws;
use crate::track::TrackInfoView;
use vstd::prelude::*;

verus! {

/// A mode of data sectors: one of the `MODE` modes or one of the `CDI` modes.
pub open spec fn is_data_mode(mode: Seq<char>) -> bool {
    laws::opens(mode, seq!['M', 'O', 'D', 'E']) || laws::opens(mode, seq!['C', 'D', 'I'])
}

proof fn lemma_letters()
    ensures
        "MODE"@ == seq!['M', 'O', 'D', 'E'],
        "MODE1"@ == seq!['M', 'O', 'D', 'E', '1'],
        "MODE2"@ == seq!['M', 'O', 'D', 'E', '2'],
        "CDI"@ == seq!['C', 'D', 'I'],
        "AUDIO"@ == seq!['A', 'U', 'D', 'I', 'O'],
        "CDI/PREGAP"@ == seq!['C', 'D', 'I', '/', 'P', 'R', 'E', 'G', 'A', 'P'],
{
    reveal_strlit("MODE");
    reveal_strlit("MODE1");
    reveal_strlit("MODE2");
    reveal_strlit("CDI");
    reveal_strlit("AUDIO");
    reveal_strlit("CDI/PREGAP");
    assert("MODE"@ =~= seq!['M', 'O', 'D', 'E']);
    assert("MODE1"@ =~= seq!['M', 'O', 'D', 'E', '1']);
    assert("MODE2"@ =~= seq!['M', 'O', 'D', 'E', '2']);
    assert("CDI"@ =~= seq!['C', 'D', 'I']);
    assert("AUDIO"@ =~= seq!['A', 'U', 'D', 'I', 'O']);
    assert("CDI/PREGAP"@ =~= seq!['C', 'D', 'I', '/', 'P', 'R', 'E', 'G', 'A', 'P']);
}

/// What a mode says: the user data of a track of mode 1 begins behind 16 bytes,
/// that of a track of mode 2 or of CD-i behind 24; an audio track has none.
pub proof fn lemma_modes(mode: Seq<char>)
    ensures
        laws::opens(mode, seq!['M', 'O', 'D', 'E', '1']) ==> cue::cue_kind(mode) == CueKind::Mode1,
        laws::opens(mode, seq!['M', 'O', 'D', 'E', '2']) || laws::opens(mode, seq!['C', 'D', 'I'])
            ==> cue::cue_kind(mode) == CueKind::Mode2,
        mode == seq!['A', 'U', 'D', 'I', 'O'] ==> cue::cue_kind(mode) == CueKind::Audio,
        cue::cue_kind(mode) == CueKind::Mode1 || cue::cue_kind(mode) == CueKind::Mode2
            ==> is_data_mode(mode),
        cue::cue_kind(mode) == CueKind::Mode1 ==> laws::opens(mode, seq!['M', 'O', 'D', 'E', '1']),
        cue::cue_kind(mode) == CueKind::Mode2 ==> laws::opens(mode, seq!['M', 'O', 'D', 'E', '2'])
            || laws::opens(mode, seq!['C', 'D', 'I']),
        cue::cue_kind(mode) == CueKind::Audio ==> mode == seq!['A', 'U', 'D', 'I', 'O'],
        cue::kind_offset(CueKind::Mode1) == Some(16u64),
        cue::kind_offset(CueKind::Mode2) == Some(24u64),
        cue::kind_offset(CueKind::Audio) is None,
        cue::kind_offset(CueKind::Other) is None,
{
    lemma_letters();
    laws::lemma_opens(mode, "MODE1"@);
    laws::lemma_opens(mode, "MODE2"@);
    laws::lemma_opens(mode, "CDI"@);
    let one = seq!['M', 'O', 'D', 'E', '1'];
    let two = seq!['M', 'O', 'D', 'E', '2'];
    let cdi = seq!['C', 'D', 'I'];
    let audio = seq!['A', 'U', 'D', 'I', 'O'];
    let data = seq!['M', 'O', 'D', 'E'];
    assert(one[0] == 'M' && two[0] == 'M' && cdi[0] == 'C' && audio[0] == 'A' && one[4] == '1'
        && two[4] == '2');
    assert(laws::opens(mode, one) ==> mode[0] == 'M' && mode[4] == '1');
    assert(laws::opens(mode, two) ==> mode[0] == 'M' && mode[4] == '2');
    assert(laws::opens(mode, cdi) ==> mode[0] == 'C');
    if laws::opens(mode, one) || laws::opens(mode, two) {
        assert forall|k: int| 0 <= k < data.len() implies #[trigger] mode[k] == data[k] by {
            assert(one[k] == data[k] && two[k] == data[k]);
        }
        assert(laws::opens(mode, data));
    }
}

/// How many sectors a track of a sheet has: up to the next track where that is
/// in the same file, and up to the end of the file else.
pub open spec fn sectors_of(
    log: Log,
    raw: Seq<RawCueTrackView>,
    same: Seq<usize>,
    k: int,
    n: u64,
) -> bool {
    let start = raw[k].start_lba as int;
    if k + 1 < raw.len() && same[raw[k].bin as int] == same[raw[k + 1].bin as int] {
        let next = raw[k + 1].start_lba as int;
        (start <= next ==> start + n == next) && (start > next ==> n == 0)
    } else {
        log.known(crate::device::Query::Size { file: raw[k].bin }) matches Some(r) && {
            let size = match r.size() {
                Some(s) => s as int,
                None => 0,
            };
            (start * 2352 <= size ==> (start + n) * 2352 <= size < (start + n + 1) * 2352) && (start
                * 2352 > size ==> n == 0)
        }
    }
}

/// Track `k` of a sheet, as `t` lists it.
pub open spec fn lists(
    log: Log,
    raw: Seq<RawCueTrackView>,
    same: Seq<usize>,
    paths: Seq<Seq<char>>,
    k: int,
    t: TrackInfoView,
) -> bool {
    &&& t.number == raw[k].number
    &&& t.mode == raw[k].mode
    &&& t.is_data == is_data_mode(raw[k].mode)
    &&& t.start_lba == raw[k].start_lba
    &&& t.session == raw[k].session
    &&& t.bin_path == paths[raw[k].bin as int]
    &&& sectors_of(log, raw, same, k, t.num_sectors)
}

proof fn lemma_listed(
    log: Log,
    raw: Seq<RawCueTrackView>,
    same: Seq<usize>,
    paths: Seq<Seq<char>>,
    i: int,
    acc: Seq<TrackInfoView>,
)
    requires
        0 <= i <= raw.len(),
        acc.len() == i,
        forall|k: int| 0 <= k < i ==> lists(log, raw, same, paths, k, #[trigger] acc[k]),
    ensures
        cue::list_tracks(log, raw, same, paths, i, acc) !is Fault,
        cue::list_tracks(log, raw, same, paths, i, acc) matches Step::Ask(q) ==> log.known(
            q,
        ) is None,
        cue::list_tracks(log, raw, same, paths, i, acc) matches Step::Done(out) ==> out.len()
            == raw.len() && forall|k: int|
            0 <= k < raw.len() ==> lists(log, raw, same, paths, k, #[trigger] out[k]),
    decreases raw.len() - i,
{
    if i < raw.len() {
        match cue::raw_sectors(log, raw, same, i) {
            Step::Done(n) => {
                let t = cue::raw_listed(raw[i], n, paths[raw[i].bin as int]);
                lemma_letters();
                laws::lemma_opens(raw[i].mode, "MODE"@);
                laws::lemma_opens(raw[i].mode, "CDI"@);
                let q = crate::device::Query::Size { file: raw[i].bin };
                if log.known(q) is Some {
                    let size = match log.known(q)->0.size() {
                        Some(s) => s as int,
                        None => 0,
                    };
                    let start = raw[i].start_lba as int;
                    assert(size / 2352 >= start <==> start * 2352 <= size);
                }
                assert(lists(log, raw, same, paths, i, t));
                let next = acc.push(t);
                assert forall|k: int| 0 <= k < i + 1 implies lists(
                    log,
                    raw,
                    same,
                    paths,
                    k,
                    #[trigger] next[k],
                ) by {
                    if k < i {
                        assert(next[k] == acc[k]);
                    }
                }
                lemma_listed(log, raw, same, paths, i + 1, next);
            },
            _ => {},
        }
    }
}

/// A gap is listed as a track of its own: it is CD-i data with the number 0, and
/// reaches up to the audio track `k` that it stands before.
pub open spec fn lists_gap(
    raw: Seq<RawCueTrackView>,
    paths: Seq<Seq<char>>,
    k: int,
    t: TrackInfoView,
) -> bool {
    &&& 0 <= k < raw.len()
    &&& raw[k].mode == seq!['A', 'U', 'D', 'I', 'O']
    &&& raw[k].index00_lba < raw[k].start_lba
    &&& t.number == 0
    &&& t.is_data
    &&& t.mode == seq!['C', 'D', 'I', '/', 'P', 'R', 'E', 'G', 'A', 'P']
    &&& t.start_lba == raw[k].index00_lba
    &&& t.start_lba + t.num_sectors == raw[k].start_lba
    &&& t.session == raw[k].session
    &&& t.bin_path == paths[raw[k].bin as int]
}

/// The answers say that a scrambled CD-i track begins in the gap before track `k`.
pub open spec fn gap_is_data(log: Log, raw: Seq<RawCueTrackView>, k: int) -> bool {
    let q = crate::device::Query::Probe {
        file: raw[k].bin,
        probe: crate::device::Probe::CdiReadyPregap,
        spot: crate::device::Spot {
            track_offset: (raw[k].index00_lba * 2352) as u64,
            user_data_offset: 0,
            stride: 0,
            lba_offset: 0,
            descramble: false,
        },
    };
    log.known(q) matches Some(r) && r.flag()
}

/// Track `k` is an audio track with scrambled CD-i data in the gap before it.
pub open spec fn has_data_gap(log: Log, raw: Seq<RawCueTrackView>, k: int) -> bool {
    raw[k].mode == seq!['A', 'U', 'D', 'I', 'O'] && raw[k].index00_lba < raw[k].start_lba
        && gap_is_data(log, raw, k)
}

/// `out` lists the gaps before the tracks `of`: all those before track `end` that
/// hold data, each once and in the order of the sheet.
pub open spec fn are_gaps(
    log: Log,
    raw: Seq<RawCueTrackView>,
    paths: Seq<Seq<char>>,
    end: int,
    out: Seq<TrackInfoView>,
    of: Seq<int>,
) -> bool {
    &&& out.len() == of.len()
    &&& forall|j: int|
        0 <= j < of.len() ==> 0 <= #[trigger] of[j] < end && has_data_gap(log, raw, of[j])
            && lists_gap(raw, paths, of[j], out[j])
    &&& forall|i: int, j: int| 0 <= i < j < of.len() ==> of[i] < of[j]
    &&& forall|k: int| 0 <= k < end && #[trigger] has_data_gap(log, raw, k) ==> of.contains(k)
}

proof fn lemma_gaps(
    log: Log,
    raw: Seq<RawCueTrackView>,
    paths: Seq<Seq<char>>,
    i: int,
    acc: Seq<TrackInfoView>,
    of: Seq<int>,
) -> (all: Seq<int>)
    requires
        0 <= i <= raw.len(),
        are_gaps(log, raw, paths, i, acc, of),
    ensures
        cue::list_gaps(log, raw, paths, i, acc) matches Step::Ask(q) ==> log.known(q) is None,
        cue::list_gaps(log, raw, paths, i, acc) matches Step::Done(out) ==> are_gaps(
            log,
            raw,
            paths,
            raw.len() as int,
            out,
            all,
        ),
    decreases raw.len() - i,
{
    lemma_letters();
    if i < raw.len() {
        let t = cue::gap_listed(raw[i], paths[raw[i].bin as int]);
        if raw[i].mode != "AUDIO"@ || raw[i].index00_lba >= raw[i].start_lba {
            lemma_gaps(log, raw, paths, i + 1, acc, of)
        } else {
            let offset = raw[i].index00_lba * 2352;
            let q = cue::gap_query(raw[i].bin, offset as u64);
            if offset <= u64::MAX && log.known(q) is Some {
                if log.known(q)->0.flag() {
                    assert(lists_gap(raw, paths, i, t));
                    assert(has_data_gap(log, raw, i));
                    let next = of.push(i);
                    assert forall|k: int|
                        0 <= k < i + 1 && #[trigger] has_data_gap(
                            log,
                            raw,
                            k,
                        ) implies next.contains(k) by {
                        if k < i {
                            let j = choose|j: int| 0 <= j < of.len() && of[j] == k;
                            assert(next[j] == k);
                        } else {
                            assert(next[of.len() as int] == k);
                        }
                    }
                    assert(are_gaps(log, raw, paths, i + 1, acc.push(t), next));
                    lemma_gaps(log, raw, paths, i + 1, acc.push(t), next)
                } else {
                    assert(!has_data_gap(log, raw, i));
                    lemma_gaps(log, raw, paths, i + 1, acc, of)
                }
            } else {
                of
            }
        }
    } else {
        of
    }
}

/// What the list of a sheet shows. Behind the gaps that hold scrambled CD-i data
/// stand the tracks of the sheet in its order, each with its number, mode,
/// session, file, first sector and number of sectors, and as data exactly where
/// its mode is a data mode: so is every track whose mode is of mode 1 or mode 2,
/// and no audio track.
pub proof fn lemma_listed_tracks(
    log: Log,
    lines: Seq<CueLineView>,
    same: Seq<usize>,
    paths: Seq<Seq<char>>,
) -> (of: Seq<int>)
    ensures
        cue::cue_tracks(log, lines, same, paths) matches Step::Ask(q) ==> log.known(q) is None,
        cue::cue_tracks(log, lines, same, paths) matches Step::Done(out) ==> {
            let raw = cue::raw_tracks(lines, 0, cue::list_fresh());
            let gaps = of.len() as int;
            &&& out.len() == gaps + raw.len()
            &&& are_gaps(log, raw, paths, raw.len() as int, out.take(gaps), of)
            &&& forall|k: int|
                0 <= k < raw.len() ==> lists(log, raw, same, paths, k, #[trigger] out[gaps + k])
            &&& forall|k: int|
                #![trigger out[gaps + k]]
                0 <= k < raw.len() ==> {
                    &&& cue::cue_kind(raw[k].mode) == CueKind::Mode1 || cue::cue_kind(raw[k].mode)
                        == CueKind::Mode2 ==> out[gaps + k].is_data
                    &&& cue::cue_kind(raw[k].mode) == CueKind::Audio ==> !out[gaps + k].is_data
                }
        },
{
    let raw = cue::raw_tracks(lines, 0, cue::list_fresh());
    lemma_listed(log, raw, same, paths, 0, Seq::empty());
    let of = lemma_gaps(log, raw, paths, 0, Seq::empty(), Seq::empty());
    if let Step::Done(out) = cue::cue_tracks(log, lines, same, paths) {
        let tracks = cue::list_tracks(log, raw, same, paths, 0, Seq::empty())->Done_0;
        let gap = cue::list_gaps(log, raw, paths, 0, Seq::empty())->Done_0;
        let gaps = of.len() as int;
        assert(out == gap + tracks);
        assert(out.take(gaps) =~= gap);
        assert forall|k: int| 0 <= k < raw.len() implies lists(
            log,
            raw,
            same,
            paths,
            k,
            #[trigger] out[gaps + k],
        ) by {
            assert(out[gaps + k] == tracks[k]);
        }
        assert forall|k: int|
            #![trigger out[gaps + k]]
            0 <= k < raw.len() implies (cue::cue_kind(raw[k].mode) == CueKind::Mode1
            || cue::cue_kind(raw[k].mode) == CueKind::Mode2 ==> out[gaps + k].is_data) && (
        cue::cue_kind(raw[k].mode) == CueKind::Audio ==> !out[gaps + k].is_data) by {
            lemma_modes(raw[k].mode);
            assert(lists(log, raw, same, paths, k, out[gaps + k]));
            let audio = seq!['A', 'U', 'D', 'I', 'O'];
            let data = seq!['M', 'O', 'D', 'E'];
            let cdi = seq!['C', 'D', 'I'];
            assert(audio[0] == 'A' && data[0] == 'M' && cdi[0] == 'C');
            assert(laws::opens(raw[k].mode, data) ==> raw[k].mode[0] == data[0]);
            assert(laws::opens(raw[k].mode, cdi) ==> raw[k].mode[0] == cdi[0]);
        }
    }
    of
}

} // verus!
