//! What the lines of a cue sheet say.
use crate::cue;
use crate::cue::{CueGap, CueKind, CueLineView, CueState, ListState, RawCueTrackView};
use crate::device::{Log, Query, Step};
use crate::laws;
use crate::laws::volume;
use crate::sector;
use crate::text;
use crate::track::DataTrack;
use vstd::prelude::*;

verus! {

/// The line begins with `FILE`.
pub open spec fn file_line(l: CueLineView) -> bool {
    laws::opens(l.upper, seq!['F', 'I', 'L', 'E', ' '])
}

/// The line begins with `FILE` and quotes a name.
pub open spec fn names_file(l: CueLineView) -> bool {
    file_line(l) && text::quoted(l.text) is Some
}

/// The line begins with `TRACK`.
pub open spec fn track_line(l: CueLineView) -> bool {
    laws::opens(l.upper, seq!['T', 'R', 'A', 'C', 'K', ' '])
}

/// The line begins with `REM SESSION`.
pub open spec fn session_line(l: CueLineView) -> bool {
    laws::opens(l.upper, seq!['R', 'E', 'M', ' ', 'S', 'E', 'S', 'S', 'I', 'O', 'N', ' '])
}

/// The line begins with `INDEX`, and its next word is these two digits.
pub open spec fn index_line(l: CueLineView, a: char, b: char) -> bool {
    let w = text::words(l.upper.skip(6));
    laws::opens(l.upper, seq!['I', 'N', 'D', 'E', 'X', ' ']) && w.len() > 0 && w[0] == seq![a, b]
}

/// The time behind the number of an index.
pub open spec fn time_of(l: CueLineView) -> Option<nat> {
    let w = text::words(l.upper.skip(6));
    if w.len() > 1 {
        text::msf(w[1])
    } else {
        None
    }
}

pub(crate) proof fn lemma_line(l: CueLineView)
    ensures
        cue::is_file(l) == file_line(l),
        cue::is_track(l) == track_line(l),
        cue::is_session(l) == session_line(l),
        cue::is_index00(l) == index_line(l, '0', '0'),
        cue::is_index01(l) == index_line(l, '0', '1'),
        cue::index_time(l) == time_of(l),
        file_line(l) ==> !track_line(l) && !session_line(l),
        track_line(l) ==> !session_line(l),
        index_line(l, '0', '1') ==> !index_line(l, '0', '0') && !file_line(l) && !track_line(l)
            && !session_line(l),
        index_line(l, '0', '0') ==> !file_line(l) && !track_line(l) && !session_line(l),
{
    reveal_strlit("FILE ");
    reveal_strlit("TRACK ");
    reveal_strlit("INDEX ");
    reveal_strlit("REM SESSION ");
    reveal_strlit("00");
    reveal_strlit("01");
    let file = seq!['F', 'I', 'L', 'E', ' '];
    let track = seq!['T', 'R', 'A', 'C', 'K', ' '];
    let index = seq!['I', 'N', 'D', 'E', 'X', ' '];
    let session = seq!['R', 'E', 'M', ' ', 'S', 'E', 'S', 'S', 'I', 'O', 'N', ' '];
    assert("FILE "@ =~= file);
    assert("TRACK "@ =~= track);
    assert("INDEX "@ =~= index);
    assert("REM SESSION "@ =~= session);
    assert("00"@ =~= seq!['0', '0']);
    assert("01"@ =~= seq!['0', '1']);
    laws::lemma_opens(l.upper, file);
    laws::lemma_opens(l.upper, track);
    laws::lemma_opens(l.upper, index);
    laws::lemma_opens(l.upper, session);
    assert(file[0] == 'F' && track[0] == 'T' && index[0] == 'I' && session[0] == 'R');
    assert(laws::opens(l.upper, file) ==> l.upper[0] == file[0]);
    assert(laws::opens(l.upper, track) ==> l.upper[0] == track[0]);
    assert(laws::opens(l.upper, index) ==> l.upper[0] == index[0]);
    assert(laws::opens(l.upper, session) ==> l.upper[0] == session[0]);
    assert(seq!['0', '0'][1] == '0' && seq!['0', '1'][1] == '1');
}

// ── The list of tracks ───────────────────────────────────────────────────────

/// The line ends the track before it.
pub open spec fn ends(l: CueLineView) -> bool {
    file_line(l) || track_line(l) || session_line(l)
}

/// The lines before `n` that name a file.
pub open spec fn files(lines: Seq<CueLineView>, n: int) -> Set<int> {
    Set::new(|i: int| 0 <= i < n && names_file(lines[i]))
}

spec fn list_behind(lines: Seq<CueLineView>, n: int) -> ListState
    decreases n,
{
    if n <= 0 {
        cue::list_fresh()
    } else {
        cue::list_state(list_behind(lines, n - 1), lines[n - 1])
    }
}

proof fn lemma_files(lines: Seq<CueLineView>, n: int)
    requires
        0 <= n <= lines.len(),
    ensures
        files(lines, n).finite(),
        files(lines, n).len() <= n,
        list_behind(lines, n).files == files(lines, n).len(),
    decreases n,
{
    if n == 0 {
        assert(files(lines, n) =~= Set::empty());
    } else {
        lemma_files(lines, n - 1);
        lemma_line(lines[n - 1]);
        if names_file(lines[n - 1]) {
            assert(files(lines, n) =~= files(lines, n - 1).insert(n - 1));
        } else {
            assert(files(lines, n) =~= files(lines, n - 1));
        }
    }
}

/// Only finitely many lines name a file.
pub proof fn lemma_files_are_few(lines: Seq<CueLineView>, n: int)
    requires
        0 <= n <= lines.len(),
    ensures
        files(lines, n).finite(),
        files(lines, n).len() <= n,
{
    lemma_files(lines, n);
}

spec fn listed_before(lines: Seq<CueLineView>, n: int) -> Seq<RawCueTrackView>
    decreases n,
{
    if n <= 0 {
        Seq::empty()
    } else if cue::ends_track(lines[n - 1]) {
        listed_before(lines, n - 1) + cue::list_flush(list_behind(lines, n - 1))
    } else {
        listed_before(lines, n - 1)
    }
}

proof fn lemma_split(lines: Seq<CueLineView>, n: int)
    requires
        0 <= n <= lines.len(),
    ensures
        cue::raw_tracks(lines, 0, cue::list_fresh()) == listed_before(lines, n) + cue::raw_tracks(
            lines,
            n,
            list_behind(lines, n),
        ),
    decreases n,
{
    if n == 0 {
        assert(Seq::<RawCueTrackView>::empty() + cue::raw_tracks(lines, 0, cue::list_fresh())
            =~= cue::raw_tracks(lines, 0, cue::list_fresh()));
    } else {
        lemma_split(lines, n - 1);
        let st = list_behind(lines, n - 1);
        let rest = cue::raw_tracks(lines, n, list_behind(lines, n));
        assert(listed_before(lines, n - 1) + (cue::list_flush(st) + rest) =~= (listed_before(
            lines,
            n - 1,
        ) + cue::list_flush(st)) + rest);
    }
}

/// The line is an index 01 with a time.
pub open spec fn is_timed(l: CueLineView) -> bool {
    index_line(l, '0', '1') && time_of(l) is Some
}

/// The time `t` is that of the last index 01 with a time between `from` and `end`;
/// without one it is 0.
pub open spec fn start_at(lines: Seq<CueLineView>, from: int, end: int, t: u64) -> bool {
    ||| t == 0 && forall|k: int| from < k < end ==> !is_timed(#[trigger] lines[k])
    ||| exists|p: int|
        {
            &&& from < p < end
            &&& is_timed(#[trigger] lines[p])
            &&& t == time_of(lines[p])->0 as u64
            &&& forall|k: int| p < k < end ==> !is_timed(#[trigger] lines[k])
        }
}

/// The time `t` is that of the last index 00 between `from` and `end`; where that has
/// no time, and where there is none, it is 0.
pub open spec fn gap_at(lines: Seq<CueLineView>, from: int, end: int, t: u64) -> bool {
    ||| t == 0 && forall|k: int| from < k < end ==> !index_line(#[trigger] lines[k], '0', '0')
    ||| exists|p: int|
        {
            &&& from < p < end
            &&& index_line(#[trigger] lines[p], '0', '0')
            &&& t == (match time_of(lines[p]) {
                Some(v) => v as u64,
                None => 0,
            })
            &&& forall|k: int| p < k < end ==> !index_line(#[trigger] lines[k], '0', '0')
        }
}

proof fn lemma_stretch(lines: Seq<CueLineView>, from: int, end: int)
    requires
        0 <= from < end <= lines.len(),
        forall|k: int| from < k < end ==> !ends(#[trigger] lines[k]),
    ensures
        ({
            let a = list_behind(lines, from + 1);
            let b = list_behind(lines, end);
            &&& a.number == b.number
            &&& a.mode == b.mode
            &&& a.bin == b.bin
            &&& a.session == b.session
            &&& (forall|k: int| from < k < end ==> !is_timed(#[trigger] lines[k])) ==> a.lba
                == b.lba
            &&& (forall|k: int| from < k < end ==> !index_line(#[trigger] lines[k], '0', '0'))
                ==> a.index00 == b.index00
        }),
    decreases end - from,
{
    if end > from + 1 {
        lemma_stretch(lines, from, end - 1);
        assert(!ends(lines[end - 1]));
        lemma_line(lines[end - 1]);
    }
}

proof fn lemma_start(lines: Seq<CueLineView>, from: int, end: int, t: u64)
    requires
        0 <= from < end <= lines.len(),
        forall|k: int| from < k < end ==> !ends(#[trigger] lines[k]),
        track_line(lines[from]),
    ensures
        start_at(lines, from, end, t) ==> list_behind(lines, end).lba == t,
        start_at(lines, from, end, list_behind(lines, end).lba),
{
    lemma_line(lines[from]);
    lemma_stretch(lines, from, end);
    assert(list_behind(lines, from + 1) == cue::list_state(list_behind(lines, from), lines[from]));
    if exists|k: int| from < k < end && is_timed(#[trigger] lines[k]) {
        let p = lemma_last_timed(lines, from, end);
        lemma_line(lines[p]);
        assert(list_behind(lines, p + 1) == cue::list_state(list_behind(lines, p), lines[p]));
        lemma_stretch(lines, p, end);
        assert(list_behind(lines, end).lba == time_of(lines[p])->0 as u64);
        assert(is_timed(lines[p]));
        if start_at(lines, from, end, t) {
            let q = choose|q: int|
                {
                    &&& from < q < end
                    &&& is_timed(#[trigger] lines[q])
                    &&& t == time_of(lines[q])->0 as u64
                    &&& forall|k: int| q < k < end ==> !is_timed(#[trigger] lines[k])
                };
            assert(p == q);
        }
    }
}

proof fn lemma_last_timed(lines: Seq<CueLineView>, from: int, end: int) -> (p: int)
    requires
        0 <= from < end <= lines.len(),
        exists|k: int| from < k < end && is_timed(#[trigger] lines[k]),
    ensures
        from < p < end,
        is_timed(lines[p]),
        forall|k: int| p < k < end ==> !is_timed(#[trigger] lines[k]),
    decreases end - from,
{
    if is_timed(lines[end - 1]) {
        end - 1
    } else {
        lemma_last_timed(lines, from, end - 1)
    }
}

proof fn lemma_last_gap(lines: Seq<CueLineView>, from: int, end: int) -> (p: int)
    requires
        0 <= from < end <= lines.len(),
        exists|k: int| from < k < end && index_line(#[trigger] lines[k], '0', '0'),
    ensures
        from < p < end,
        index_line(lines[p], '0', '0'),
        forall|k: int| p < k < end ==> !index_line(#[trigger] lines[k], '0', '0'),
    decreases end - from,
{
    if index_line(lines[end - 1], '0', '0') {
        end - 1
    } else {
        lemma_last_gap(lines, from, end - 1)
    }
}

proof fn lemma_gap(lines: Seq<CueLineView>, from: int, end: int, t: u64)
    requires
        0 <= from < end <= lines.len(),
        forall|k: int| from < k < end ==> !ends(#[trigger] lines[k]),
        track_line(lines[from]),
    ensures
        gap_at(lines, from, end, t) ==> list_behind(lines, end).index00 == t,
        gap_at(lines, from, end, list_behind(lines, end).index00),
{
    lemma_line(lines[from]);
    lemma_stretch(lines, from, end);
    assert(list_behind(lines, from + 1) == cue::list_state(list_behind(lines, from), lines[from]));
    if exists|k: int| from < k < end && index_line(#[trigger] lines[k], '0', '0') {
        let p = lemma_last_gap(lines, from, end);
        lemma_line(lines[p]);
        assert(list_behind(lines, p + 1) == cue::list_state(list_behind(lines, p), lines[p]));
        lemma_stretch(lines, p, end);
        assert(index_line(lines[p], '0', '0'));
        if gap_at(lines, from, end, t) {
            let q = choose|q: int|
                {
                    &&& from < q < end
                    &&& index_line(#[trigger] lines[q], '0', '0')
                    &&& t == (match time_of(lines[q]) {
                        Some(v) => v as u64,
                        None => 0,
                    })
                    &&& forall|k: int| q < k < end ==> !index_line(#[trigger] lines[k], '0', '0')
                };
            assert(p == q);
        }
    }
}

/// Line `f` is the last before `n` that names a file.
pub open spec fn file_of(lines: Seq<CueLineView>, n: int, f: int) -> bool {
    0 <= f < n && names_file(lines[f]) && forall|k: int|
        f < k < n ==> !names_file(#[trigger] lines[k])
}

/// The number that word `k` of a line is.
pub open spec fn number_at(l: CueLineView, k: int) -> Option<u32> {
    let w = text::words(l.text);
    if k >= w.len() {
        None
    } else {
        match text::parse_unsigned(w[k], 0xffff_ffff) {
            Some(n) => Some(n as u32),
            None => None,
        }
    }
}

/// The line begins a session and tells its number.
pub open spec fn numbers_session(l: CueLineView) -> bool {
    session_line(l) && number_at(l, 2) is Some
}

/// The session of line `n`: that of the last line before it that tells one, or
/// session 1.
pub open spec fn session_of(lines: Seq<CueLineView>, n: int, session: u32) -> bool {
    ||| session == 1 && forall|k: int| 0 <= k < n ==> !numbers_session(#[trigger] lines[k])
    ||| exists|r: int|
        {
            &&& 0 <= r < n
            &&& numbers_session(#[trigger] lines[r])
            &&& number_at(lines[r], 2) == Some(session)
            &&& forall|k: int| r < k < n ==> !numbers_session(#[trigger] lines[k])
        }
}

proof fn lemma_file_stays(lines: Seq<CueLineView>, f: int, n: int)
    requires
        file_of(lines, n, f),
        n <= lines.len() <= usize::MAX,
    ensures
        list_behind(lines, n).bin matches Some(b) && b == files(lines, f).len(),
    decreases n,
{
    lemma_line(lines[n - 1]);
    if n == f + 1 {
        lemma_files(lines, f);
    } else {
        lemma_file_stays(lines, f, n - 1);
        assert(!names_file(lines[n - 1]));
    }
}

proof fn lemma_file_exists(lines: Seq<CueLineView>, n: int) -> (f: int)
    requires
        0 <= n <= lines.len() <= usize::MAX,
        list_behind(lines, n).bin is Some,
    ensures
        file_of(lines, n, f),
        list_behind(lines, n).bin == Some(files(lines, f).len() as usize),
        files(lines, f).len() <= usize::MAX,
    decreases n,
{
    lemma_line(lines[n - 1]);
    lemma_files(lines, n - 1);
    if names_file(lines[n - 1]) {
        n - 1
    } else {
        let f = lemma_file_exists(lines, n - 1);
        f
    }
}

proof fn lemma_session(lines: Seq<CueLineView>, n: int, session: u32)
    requires
        0 <= n <= lines.len(),
    ensures
        session_of(lines, n, session) ==> list_behind(lines, n).session == session,
        session_of(lines, n, list_behind(lines, n).session),
    decreases n,
{
    if n > 0 {
        let l = lines[n - 1];
        lemma_line(l);
        assert(cue::word_number(l, 2) == number_at(l, 2));
        let own = list_behind(lines, n - 1).session;
        if numbers_session(l) {
            assert(list_behind(lines, n).session == number_at(l, 2)->0);
            assert(numbers_session(lines[n - 1]));
            if session_of(lines, n, session) {
                let r = choose|r: int|
                    {
                        &&& 0 <= r < n
                        &&& numbers_session(#[trigger] lines[r])
                        &&& number_at(lines[r], 2) == Some(session)
                        &&& forall|k: int| r < k < n ==> !numbers_session(#[trigger] lines[k])
                    };
                assert(r == n - 1);
            }
        } else {
            lemma_session(lines, n - 1, session);
            assert(list_behind(lines, n).session == own);
            if session_of(lines, n, session) && !(session == 1 && forall|k: int|
                0 <= k < n ==> !numbers_session(#[trigger] lines[k])) {
                let r = choose|r: int|
                    {
                        &&& 0 <= r < n
                        &&& numbers_session(#[trigger] lines[r])
                        &&& number_at(lines[r], 2) == Some(session)
                        &&& forall|k: int| r < k < n ==> !numbers_session(#[trigger] lines[k])
                    };
                assert(r < n - 1);
                assert(session_of(lines, n - 1, session));
            }
            if !(own == 1 && forall|k: int| 0 <= k < n - 1 ==> !numbers_session(#[trigger] lines[k])) {
                let r = choose|r: int|
                    {
                        &&& 0 <= r < n - 1
                        &&& numbers_session(#[trigger] lines[r])
                        &&& number_at(lines[r], 2) == Some(own)
                        &&& forall|k: int| r < k < n - 1 ==> !numbers_session(#[trigger] lines[k])
                    };
                assert(numbers_session(lines[r]));
            }
        }
    }
}

/// The track that begins at line `i` ends at line `end`.
pub open spec fn runs_to(lines: Seq<CueLineView>, i: int, end: int) -> bool {
    &&& 0 <= i < end <= lines.len()
    &&& forall|k: int| i < k < end ==> !ends(#[trigger] lines[k])
    &&& end < lines.len() ==> ends(lines[end])
}

/// Line `i` is the `TRACK` line of the track `t`: it has its number and its mode, and
/// stands behind the line that names its file; the session is the one it is in, and
/// the times are those of its indices up to the line that ends it.
pub open spec fn begins(lines: Seq<CueLineView>, i: int, t: RawCueTrackView) -> bool {
    &&& 0 <= i < lines.len()
    &&& track_line(lines[i])
    &&& number_at(lines[i], 1) == Some(t.number)
    &&& lines[i].mode == Some(t.mode)
    &&& exists|f: int| #[trigger] file_of(lines, i, f) && t.bin == files(lines, f).len()
    &&& session_of(lines, i, t.session)
    &&& exists|end: int| #[trigger]
        runs_to(lines, i, end) && start_at(lines, i, end, t.start_lba) && gap_at(
            lines,
            i,
            end,
            t.index00_lba,
        )
}

/// A `TRACK` line with a number and a mode, behind a line that names a file, is listed.
pub proof fn lemma_track_line_is_listed(lines: Seq<CueLineView>, i: int, t: RawCueTrackView)
    requires
        lines.len() <= usize::MAX,
        begins(lines, i, t),
    ensures
        cue::raw_tracks(lines, 0, cue::list_fresh()).contains(t),
{
    let f = choose|f: int| #[trigger] file_of(lines, i, f) && t.bin == files(lines, f).len();
    let end = choose|end: int| #[trigger]
        runs_to(lines, i, end) && start_at(lines, i, end, t.start_lba) && gap_at(
            lines,
            i,
            end,
            t.index00_lba,
        );
    lemma_line(lines[i]);
    lemma_file_stays(lines, f, i);
    lemma_session(lines, i, t.session);
    assert(cue::word_number(lines[i], 1) == number_at(lines[i], 1));
    assert(list_behind(lines, i + 1) == cue::list_state(list_behind(lines, i), lines[i]));
    lemma_stretch(lines, i, end);
    lemma_start(lines, i, end, t.start_lba);
    lemma_gap(lines, i, end, t.index00_lba);
    let st = list_behind(lines, end);
    let flush = cue::list_flush(st);
    assert(flush =~= seq![t]);
    assert(flush[0] == t);
    lemma_split(lines, end);
    let before = listed_before(lines, end);
    let all = cue::raw_tracks(lines, 0, cue::list_fresh());
    let rest = cue::raw_tracks(lines, end, st);
    if end < lines.len() {
        lemma_line(lines[end]);
        assert(rest[0] == t);
    }
    assert(all[before.len() as int] == t);
}

/// The tracks `raw` come from the `TRACK` lines `at`, in their order.
pub open spec fn come_from(
    lines: Seq<CueLineView>,
    raw: Seq<RawCueTrackView>,
    at: Seq<int>,
) -> bool {
    &&& raw.len() == at.len()
    &&& forall|k: int| 0 <= k < at.len() ==> begins(lines, #[trigger] at[k], raw[k])
    &&& forall|j: int, k: int| 0 <= j < k < at.len() ==> at[j] < at[k]
}

proof fn lemma_pending(lines: Seq<CueLineView>, n: int) -> (i: int)
    requires
        0 <= n <= lines.len(),
    ensures
        list_behind(lines, n).number is Some && list_behind(lines, n).mode is Some ==> {
            &&& 0 <= i < n
            &&& track_line(lines[i])
            &&& number_at(lines[i], 1) == list_behind(lines, n).number
            &&& lines[i].mode == list_behind(lines, n).mode
            &&& forall|k: int| i < k < n ==> !ends(#[trigger] lines[k])
        },
    decreases n,
{
    if n > 0 {
        let i = lemma_pending(lines, n - 1);
        lemma_line(lines[n - 1]);
        assert(cue::word_number(lines[n - 1], 1) == number_at(lines[n - 1], 1));
        if track_line(lines[n - 1]) {
            n - 1
        } else {
            i
        }
    } else {
        0
    }
}

proof fn lemma_flushed(lines: Seq<CueLineView>, n: int) -> (i: int)
    requires
        0 <= n <= lines.len() <= usize::MAX,
        n < lines.len() ==> ends(lines[n]),
        cue::list_flush(list_behind(lines, n)).len() > 0,
    ensures
        0 <= i < n,
        begins(lines, i, cue::list_flush(list_behind(lines, n))[0]),
        forall|k: int| i < k < n ==> !ends(#[trigger] lines[k]),
{
    let st = list_behind(lines, n);
    let t = cue::list_flush(st)[0];
    let i = lemma_pending(lines, n);
    lemma_line(lines[i]);
    assert(list_behind(lines, i + 1) == cue::list_state(list_behind(lines, i), lines[i]));
    lemma_stretch(lines, i, n);
    let f = lemma_file_exists(lines, i);
    assert(file_of(lines, i, f));
    lemma_session(lines, i, t.session);
    lemma_start(lines, i, n, t.start_lba);
    lemma_gap(lines, i, n, t.index00_lba);
    assert(runs_to(lines, i, n));
    i
}

/// A track from a line behind `at` comes last.
proof fn lemma_one_more(
    lines: Seq<CueLineView>,
    raw: Seq<RawCueTrackView>,
    at: Seq<int>,
    t: RawCueTrackView,
    i: int,
    n: int,
)
    requires
        come_from(lines, raw, at),
        begins(lines, i, t),
        at.len() > 0 ==> exists|k: int| at.last() < k < n && ends(#[trigger] lines[k]),
        0 <= i < n <= lines.len(),
        forall|k: int| i < k < n ==> !ends(#[trigger] lines[k]),
    ensures
        come_from(lines, raw.push(t), at.push(i)),
{
    if at.len() > 0 {
        let k = choose|k: int| at.last() < k < n && ends(#[trigger] lines[k]);
        assert(!(i < k < n));
        assert(at.last() < i);
        assert forall|j: int| 0 <= j < at.len() implies at[j] < i by {
            if j < at.len() - 1 {
                assert(at[j] < at[at.len() - 1]);
            }
        }
    }
    let next = at.push(i);
    let all = raw.push(t);
    assert forall|k: int| 0 <= k < next.len() implies begins(lines, #[trigger] next[k], all[k]) by {
        if k < at.len() {
            assert(begins(lines, at[k], raw[k]));
        }
    }
}

proof fn lemma_come_from(lines: Seq<CueLineView>, n: int) -> (at: Seq<int>)
    requires
        0 <= n <= lines.len() <= usize::MAX,
    ensures
        come_from(lines, listed_before(lines, n), at),
        at.len() > 0 ==> exists|k: int| at.last() < k < n && ends(#[trigger] lines[k]),
    decreases n,
{
    if n == 0 {
        Seq::empty()
    } else {
        let at = lemma_come_from(lines, n - 1);
        lemma_line(lines[n - 1]);
        let flush = cue::list_flush(list_behind(lines, n - 1));
        let before = listed_before(lines, n - 1);
        if cue::ends_track(lines[n - 1]) && flush.len() > 0 {
            assert(ends(lines[n - 1]));
            let i = lemma_flushed(lines, n - 1);
            lemma_one_more(lines, before, at, flush[0], i, n - 1);
            assert(listed_before(lines, n) =~= before.push(flush[0]));
            at.push(i)
        } else {
            assert(listed_before(lines, n) =~= before);
            at
        }
    }
}

/// Nothing else is listed: each track of the list comes from a `TRACK` line of its own,
/// and they stand in the order of the lines.
pub proof fn lemma_listed_come_from_lines(lines: Seq<CueLineView>) -> (at: Seq<int>)
    requires
        lines.len() <= usize::MAX,
    ensures
        come_from(lines, cue::raw_tracks(lines, 0, cue::list_fresh()), at),
{
    let n = lines.len() as int;
    let at = lemma_come_from(lines, n);
    lemma_split(lines, n);
    let flush = cue::list_flush(list_behind(lines, n));
    let before = listed_before(lines, n);
    let raw = cue::raw_tracks(lines, 0, cue::list_fresh());
    assert(raw == before + flush);
    if flush.len() > 0 {
        let i = lemma_flushed(lines, n);
        lemma_one_more(lines, before, at, flush[0], i, n);
        assert(raw =~= before.push(flush[0]));
        at.push(i)
    } else {
        assert(raw =~= before);
        at
    }
}

// ── The data track ───────────────────────────────────────────────────────────

/// A mode of mode 1 sectors.
pub open spec fn is_mode1(mode: Seq<char>) -> bool {
    laws::opens(mode, seq!['M', 'O', 'D', 'E', '1'])
}

/// A mode of mode 2 sectors.
pub open spec fn is_mode2(mode: Seq<char>) -> bool {
    laws::opens(mode, seq!['M', 'O', 'D', 'E', '2']) || laws::opens(mode, seq!['C', 'D', 'I'])
}

/// The line begins a track of data sectors.
pub open spec fn data_line(l: CueLineView) -> bool {
    track_line(l) && (l.mode matches Some(m) && (is_mode1(m) || is_mode2(m)))
}

/// The line is of another track or another file.
pub open spec fn leaves(l: CueLineView) -> bool {
    file_line(l) || track_line(l)
}

spec fn behind(lines: Seq<CueLineView>, n: int) -> CueState
    decreases n,
{
    if n <= 0 {
        cue::cue_fresh()
    } else {
        cue::cue_state(behind(lines, n - 1), lines[n - 1])
    }
}

spec fn is_data(st: CueState) -> bool {
    st.kind == Some(CueKind::Mode1) || st.kind == Some(CueKind::Mode2)
}

proof fn lemma_counted(lines: Seq<CueLineView>, n: int)
    requires
        0 <= n <= lines.len() <= usize::MAX,
    ensures
        behind(lines, n).files == files(lines, n).len(),
    decreases n,
{
    lemma_files(lines, n);
    if n > 0 {
        lemma_counted(lines, n - 1);
        lemma_line(lines[n - 1]);
        lemma_files(lines, n - 1);
        if names_file(lines[n - 1]) {
            assert(files(lines, n) =~= files(lines, n - 1).insert(n - 1));
        } else {
            assert(files(lines, n) =~= files(lines, n - 1));
        }
    } else {
        assert(files(lines, n) =~= Set::empty());
    }
}

proof fn lemma_bin(lines: Seq<CueLineView>, f: int, n: int)
    requires
        file_of(lines, n, f),
        n <= lines.len() <= usize::MAX,
    ensures
        behind(lines, n).bin matches Some(b) && b == files(lines, f).len(),
    decreases n,
{
    lemma_line(lines[n - 1]);
    if n == f + 1 {
        lemma_counted(lines, f);
    } else {
        lemma_bin(lines, f, n - 1);
        assert(!names_file(lines[n - 1]));
    }
}

/// A track of data sectors begins at line `i`, in the file that line `f` names;
/// its user data begins at `udo`.
pub open spec fn data_at(lines: Seq<CueLineView>, i: int, f: int, udo: int) -> bool {
    &&& 0 <= i < lines.len()
    &&& data_line(lines[i])
    &&& file_of(lines, i, f)
    &&& udo == (if is_mode1(lines[i].mode->0) {
        16int
    } else {
        24
    })
}

/// The mode of the track at line `k` is `m`, from the `TRACK` line `j`: a `TRACK` line
/// without a mode leaves the mode as it is, and a `FILE` line ends it.
pub open spec fn sets_mode(lines: Seq<CueLineView>, j: int, k: int, m: Seq<char>) -> bool {
    &&& 0 <= j <= k < lines.len()
    &&& track_line(lines[j])
    &&& track_line(lines[k])
    &&& lines[j].mode == Some(m)
    &&& forall|q: int|
        j < q <= k ==> !file_line(#[trigger] lines[q]) && (track_line(lines[q])
            ==> lines[q].mode is None)
}

/// The track at line `i` is one of data sectors, in the file that line `f` names; its
/// user data begins at `udo`.
pub open spec fn data_track(lines: Seq<CueLineView>, i: int, f: int, udo: int) -> bool {
    &&& file_of(lines, i, f)
    &&& exists|j: int, m: Seq<char>| #[trigger]
        sets_mode(lines, j, i, m) && (if is_mode1(m) {
            udo == 16
        } else {
            is_mode2(m) && udo == 24
        })
}

/// A track of data sectors with an index 01 begins at line `i`.
pub open spec fn has_data(lines: Seq<CueLineView>, i: int) -> bool {
    &&& exists|f: int, udo: int| #[trigger] data_track(lines, i, f, udo)
    &&& exists|q: int|
        {
            &&& i < q < lines.len()
            &&& is_timed(#[trigger] lines[q])
            &&& forall|k: int| i < k < q ==> !leaves(#[trigger] lines[k])
        }
}

proof fn lemma_mode(lines: Seq<CueLineView>, j: int, k: int, m: Seq<char>, n: int)
    requires
        sets_mode(lines, j, k, m),
        j < n <= k + 1,
    ensures
        behind(lines, n).kind == Some(cue::cue_kind(m)),
    decreases n,
{
    lemma_line(lines[n - 1]);
    if n > j + 1 {
        lemma_mode(lines, j, k, m, n - 1);
        assert(!file_line(lines[n - 1]));
    }
}

proof fn lemma_bin_exists(lines: Seq<CueLineView>, n: int) -> (f: int)
    requires
        0 <= n <= lines.len() <= usize::MAX,
        behind(lines, n).bin is Some,
    ensures
        file_of(lines, n, f),
        behind(lines, n).bin == Some(files(lines, f).len() as usize),
    decreases n,
{
    lemma_line(lines[n - 1]);
    lemma_counted(lines, n - 1);
    if names_file(lines[n - 1]) {
        n - 1
    } else {
        let f = lemma_bin_exists(lines, n - 1);
        f
    }
}

/// The track that line `n` stands in.
proof fn lemma_origin(lines: Seq<CueLineView>, n: int) -> (r: (int, int, Seq<char>))
    requires
        0 <= n <= lines.len(),
    ensures
        behind(lines, n).kind matches Some(kind) ==> {
            &&& 0 <= r.0 < n
            &&& sets_mode(lines, r.1, r.0, r.2)
            &&& kind == cue::cue_kind(r.2)
            &&& forall|k: int| r.0 < k < n ==> !leaves(#[trigger] lines[k])
            &&& behind(lines, n).bin == behind(lines, r.0).bin
            &&& behind(lines, n).index01 is Some ==> exists|q: int|
                r.0 < q < n && is_timed(#[trigger] lines[q])
        },
    decreases n,
{
    if n == 0 {
        (0, 0, Seq::empty())
    } else {
        let (i, j, m) = lemma_origin(lines, n - 1);
        let l = lines[n - 1];
        lemma_line(l);
        if track_line(l) {
            if l.mode is Some {
                assert(sets_mode(lines, n - 1, n - 1, l.mode->0));
                (n - 1, n - 1, l.mode->0)
            } else {
                if behind(lines, n).kind is Some {
                    assert(sets_mode(lines, j, n - 1, m));
                }
                (n - 1, j, m)
            }
        } else {
            if index_line(l, '0', '1') && time_of(l) is Some {
                assert(is_timed(lines[n - 1]));
            }
            (i, j, m)
        }
    }
}

proof fn lemma_data_from(lines: Seq<CueLineView>, n: int) -> (i: int)
    requires
        0 <= n <= lines.len() <= usize::MAX,
        cue::state_data(behind(lines, n)) is Some,
    ensures
        0 <= i < n,
        track_line(lines[i]),
        forall|k: int| i < k < n ==> !leaves(#[trigger] lines[k]),
        exists|q: int| i < q < n && is_timed(#[trigger] lines[q]),
        has_data(lines, i),
{
    let (i, j, m) = lemma_origin(lines, n);
    laws::cue::lemma_modes(m);
    let f = lemma_bin_exists(lines, i);
    assert(data_track(lines, i, f, if is_mode1(m) {
        16
    } else {
        24
    }));
    i
}

proof fn lemma_inside(lines: Seq<CueLineView>, i: int, f: int, udo: int, n: int)
    requires
        data_track(lines, i, f, udo),
        lines.len() <= usize::MAX,
        i < n <= lines.len(),
        forall|k: int| i < k < n ==> !leaves(#[trigger] lines[k]),
    ensures
        is_data(behind(lines, n)),
        cue::kind_offset(behind(lines, n).kind->0) == Some(udo as u64),
        behind(lines, n).bin matches Some(b) && b == files(lines, f).len(),
    decreases n - i,
{
    lemma_line(lines[n - 1]);
    if n == i + 1 {
        lemma_bin(lines, f, i);
        let (j, m) = choose|j: int, m: Seq<char>| #[trigger]
            sets_mode(lines, j, i, m) && (if is_mode1(m) {
                udo == 16
            } else {
                is_mode2(m) && udo == 24
            });
        lemma_mode(lines, j, i, m, i + 1);
        laws::cue::lemma_modes(m);
    } else {
        lemma_inside(lines, i, f, udo, n - 1);
        assert(!leaves(lines[n - 1]));
    }
}

/// Line `p` is an index 01 with the time `t`.
pub open spec fn starts(l: CueLineView, t: u64) -> bool {
    index_line(l, '0', '1') && (time_of(l) matches Some(v) && v == t)
}

proof fn lemma_at(lines: Seq<CueLineView>, i: int, f: int, udo: int, p: int, t: u64, n: int)
    requires
        data_track(lines, i, f, udo),
        lines.len() <= usize::MAX,
        i < p < n <= lines.len(),
        starts(lines[p], t),
        forall|k: int| i < k < n ==> !leaves(#[trigger] lines[k]),
        forall|k: int| p < k < n ==> !is_timed(#[trigger] lines[k]),
    ensures
        cue::state_data(behind(lines, n)) matches Some(x) && x.0 == files(lines, f).len() && x.1
            == udo && x.2 == t,
    decreases n - p,
{
    lemma_inside(lines, i, f, udo, n);
    lemma_line(lines[n - 1]);
    if n > p + 1 {
        lemma_at(lines, i, f, udo, p, t, n - 1);
        assert(!leaves(lines[n - 1]));
        assert(!is_timed(lines[n - 1]));
    }
}

proof fn lemma_scan_to(log: Log, lines: Seq<CueLineView>, n: int) -> (r: (
    Option<DataTrack>,
    Option<DataTrack>,
))
    requires
        0 <= n <= lines.len(),
    ensures
        ({
            let all = cue::cue_scan(log, lines, 0, cue::cue_fresh(), None, None);
            all is Done ==> {
                &&& all == cue::cue_scan(log, lines, n, behind(lines, n), r.0, r.1)
                &&& (forall|m: int|
                    0 < m <= n ==> cue::state_data(#[trigger] behind(lines, m)) is None)
                    ==> r.0 is None
                &&& forall|m: int|
                    #![trigger behind(lines, m)]
                    0 < m <= n && cue::state_data(behind(lines, m)) is Some && (forall|j: int|
                        0 < j < m ==> cue::state_data(#[trigger] behind(lines, j)) is None) ==> {
                        let x = cue::state_data(behind(lines, m))->0;
                        r.0 is Some && cue::cue_data_at(log, x.0, x.1, x.2) == Step::Done(r.0->0)
                    }
                &&& n > 0 && cue::state_data(behind(lines, n)) is Some ==> {
                    let x = cue::state_data(behind(lines, n))->0;
                    r.1 is Some && cue::cue_data_at(log, x.0, x.1, x.2) == Step::Done(r.1->0)
                }
            }
        }),
    decreases n,
{
    if n == 0 {
        (None, None)
    } else {
        let (a, b) = lemma_scan_to(log, lines, n - 1);
        let next = behind(lines, n);
        match cue::state_data(next) {
            None => (a, b),
            Some(x) => match cue::cue_data_at(log, x.0, x.1, x.2) {
                Step::Done(t) => {
                    let first = if a is None {
                        Some(t)
                    } else {
                        a
                    };
                    assert forall|m: int|
                        #![trigger behind(lines, m)]
                        0 < m <= n && cue::state_data(behind(lines, m)) is Some && (forall|j: int|
                            0 < j < m ==> cue::state_data(#[trigger] behind(lines, j)) is None)
                            && cue::cue_scan(log, lines, 0, cue::cue_fresh(), None, None) is Done implies {
                        let x = cue::state_data(behind(lines, m))->0;
                        first is Some && cue::cue_data_at(log, x.0, x.1, x.2) == Step::Done(first->0)
                    } by {
                        if m < n {
                            assert(0 < m <= n - 1);
                        } else {
                            assert(a is None);
                        }
                    }
                    (first, Some(t))
                },
                _ => (a, b),
            },
        }
    }
}

proof fn lemma_scan_rest(
    log: Log,
    lines: Seq<CueLineView>,
    n: int,
    first: Option<DataTrack>,
    last: Option<DataTrack>,
)
    requires
        0 <= n <= lines.len(),
        forall|m: int| n < m <= lines.len() ==> cue::state_data(#[trigger] behind(lines, m)) is None,
    ensures
        cue::cue_scan(log, lines, n, behind(lines, n), first, last) matches Step::Done(r) ==> r == (
            first,
            last,
        ),
    decreases lines.len() - n,
{
    if n < lines.len() {
        assert(behind(lines, n + 1) == cue::cue_state(behind(lines, n), lines[n]));
        assert(cue::state_data(behind(lines, n + 1)) is None);
        lemma_scan_rest(log, lines, n + 1, first, last);
    }
}

/// `t` is the track of raw sectors that begins at sector `start` of file `bin`.
pub open spec fn is_at(log: Log, t: DataTrack, bin: nat, udo: int, start: u64) -> bool {
    &&& t.bin == bin
    &&& t.track_offset == start * 2352
    &&& t.user_data_offset == udo
    &&& t.stride == 2352
    &&& !t.descramble
    &&& sector::lba_at(log, t.bin, t.track_offset) == Step::Done(t.lba_offset)
    &&& log.known(Query::Size { file: t.bin }) matches Some(r)
    &&& r.size() matches Some(n) ==> (if n < t.track_offset {
        t.sector_count == 0
    } else {
        t.track_offset + t.sector_count * 2352 <= n < t.track_offset + (t.sector_count + 1) * 2352
    })
}

pub(crate) proof fn lemma_is_at(log: Log, bin: usize, udo: u64, start: u64, t: DataTrack)
    requires
        cue::cue_data_at(log, bin, udo, start) == Step::Done(t),
    ensures
        is_at(log, t, bin as nat, udo as int, start),
{
}

proof fn lemma_first_data(
    lines: Seq<CueLineView>,
    i: int,
    f: int,
    udo: int,
    p: int,
    start: u64,
)
    requires
        lines.len() <= usize::MAX,
        data_track(lines, i, f, udo),
        forall|k: int| 0 <= k < i ==> !#[trigger] has_data(lines, k),
        i < p < lines.len(),
        starts(lines[p], start),
        forall|k: int| i < k < p ==> !leaves(#[trigger] lines[k]) && !is_timed(lines[k]),
    ensures
        cue::state_data(behind(lines, p + 1)) matches Some(x) && x.0 == files(lines, f).len()
            && x.1 == udo && x.2 == start,
        forall|m: int| 0 < m < p + 1 ==> cue::state_data(#[trigger] behind(lines, m)) is None,
{
    lemma_line(lines[p]);
    assert forall|k: int| i < k < p + 1 implies !leaves(#[trigger] lines[k]) by {}
    lemma_at(lines, i, f, udo, p, start, p + 1);
    assert forall|m: int| 0 < m < p + 1 implies cue::state_data(#[trigger] behind(lines, m)) is None by {
        if cue::state_data(behind(lines, m)) is Some {
            let o = lemma_data_from(lines, m);
            assert(o >= i);
            if o > i {
                assert(leaves(lines[o]));
            }
            let q = choose|q: int| o < q < m && is_timed(#[trigger] lines[q]);
            assert(false);
        }
    }
}

proof fn lemma_after_data(lines: Seq<CueLineView>, i: int, end: int)
    requires
        lines.len() <= usize::MAX,
        0 <= i < end <= lines.len(),
        track_line(lines[i]),
        forall|k: int| i < k < lines.len() ==> !#[trigger] has_data(lines, k),
        end < lines.len() ==> leaves(lines[end]),
    ensures
        forall|m: int|
            end < m <= lines.len() ==> cue::state_data(#[trigger] behind(lines, m)) is None,
{
    assert forall|m: int| end < m <= lines.len() implies cue::state_data(
        #[trigger] behind(lines, m),
    ) is None by {
        if cue::state_data(behind(lines, m)) is Some {
            let o = lemma_data_from(lines, m);
            assert(o <= i);
            assert(leaves(lines[end]));
            assert(leaves(lines[i]));
            assert(false);
        }
    }
}

proof fn lemma_ends_of_scan(
    log: Log,
    lines: Seq<CueLineView>,
    m: int,
    end: int,
) -> (r: (DataTrack, DataTrack))
    requires
        0 < m <= end <= lines.len(),
        cue::state_data(behind(lines, m)) is Some,
        cue::state_data(behind(lines, end)) is Some,
        forall|j: int| 0 < j < m ==> cue::state_data(#[trigger] behind(lines, j)) is None,
        forall|j: int|
            end < j <= lines.len() ==> cue::state_data(#[trigger] behind(lines, j)) is None,
    ensures
        ({
            let x = cue::state_data(behind(lines, m))->0;
            let y = cue::state_data(behind(lines, end))->0;
            let all = cue::cue_scan(log, lines, 0, cue::cue_fresh(), None, None);
            all is Done ==> {
                &&& all == Step::Done((Some(r.0), Some(r.1)))
                &&& is_at(log, r.0, x.0 as nat, x.1 as int, x.2)
                &&& is_at(log, r.1, y.0 as nat, y.1 as int, y.2)
            }
        }),
{
    let (first, last) = lemma_scan_to(log, lines, end);
    let x = cue::state_data(behind(lines, m))->0;
    let y = cue::state_data(behind(lines, end))->0;
    if cue::cue_scan(log, lines, 0, cue::cue_fresh(), None, None) is Done {
        lemma_scan_rest(log, lines, end, first, last);
        lemma_is_at(log, x.0, x.1, x.2, first->0);
        lemma_is_at(log, y.0, y.1, y.2, last->0);
    }
    (first->0, last->0)
}

/// The data track of a sheet. Take its first and its last track of data sectors with
/// an index 01; each begins at that index, the first of the one and the last of the
/// other, in the file named before it. The data track is the last one where both
/// are in one file, and where it has a volume descriptor at its sector 16; else it
/// is the first.
pub proof fn lemma_data_track(
    log: Log,
    lines: Seq<CueLineView>,
    same: Seq<usize>,
    i: int,
    f: int,
    udo: int,
    p: int,
    start: u64,
    i2: int,
    f2: int,
    udo2: int,
    p2: int,
    start2: u64,
    end2: int,
    d: Seq<u8>,
)
    requires
        lines.len() <= usize::MAX,
        data_track(lines, i, f, udo),
        forall|k: int| 0 <= k < i ==> !#[trigger] has_data(lines, k),
        i < p < lines.len(),
        starts(lines[p], start),
        forall|k: int| i < k < p ==> !leaves(#[trigger] lines[k]) && !is_timed(lines[k]),
        data_track(lines, i2, f2, udo2),
        forall|k: int| i2 < k < lines.len() ==> !#[trigger] has_data(lines, k),
        i2 < p2 < end2 <= lines.len(),
        starts(lines[p2], start2),
        forall|k: int| i2 < k < end2 ==> !leaves(#[trigger] lines[k]),
        forall|k: int| p2 < k < end2 ==> !is_timed(#[trigger] lines[k]),
        end2 < lines.len() ==> leaves(lines[end2]),
        laws::shows(log, files(lines, f2).len() as usize, d),
        start2 * 2352 + 16 * 2352 + udo2 <= u64::MAX,
    ensures
        ({
            let b = files(lines, f).len();
            let b2 = files(lines, f2).len();
            let kept = same[b as int] == same[b2 as int] || volume::marked(
                d,
                (start2 + 16) * 2352 + udo2,
            );
            cue::cue_image(log, lines, same) matches Step::Done(r) ==> (r matches Ok(t) && (if kept {
                is_at(log, t, b2, udo2, start2)
            } else {
                is_at(log, t, b, udo, start)
            }))
        }),
{
    let b = files(lines, f).len();
    let b2 = files(lines, f2).len();
    lemma_files(lines, f);
    lemma_files(lines, f2);
    lemma_first_data(lines, i, f, udo, p, start);
    lemma_at(lines, i2, f2, udo2, p2, start2, end2);
    lemma_after_data(lines, i2, end2);
    if p >= end2 {
        assert(has_data(lines, i)) by {
            assert(is_timed(lines[p]));
        }
        assert(has_data(lines, i2)) by {
            assert(is_timed(lines[p2]));
        }
        assert(i <= i2);
        if i < i2 {
            assert(leaves(lines[i2]));
        } else {
            assert(is_timed(lines[p2]));
            assert(is_timed(lines[p]));
            assert(leaves(lines[end2]));
            lemma_line(lines[p]);
        }
        assert(false);
    }
    let (first, last) = lemma_ends_of_scan(log, lines, p + 1, end2);
    if cue::cue_scan(log, lines, 0, cue::cue_fresh(), None, None) is Done {
        volume::lemma_pvd_check(log, d, last);
        assert((start2 + 16) * 2352 + udo2 == start2 * 2352 + 16 * 2352 + udo2);
    }
}

/// A sheet without a track of data sectors has none.
pub proof fn lemma_no_data(log: Log, lines: Seq<CueLineView>)
    requires
        lines.len() <= usize::MAX,
        forall|k: int| 0 <= k < lines.len() ==> !#[trigger] has_data(lines, k),
    ensures
        cue::cue_scan(log, lines, 0, cue::cue_fresh(), None, None) matches Step::Done(r) ==> r == (
            None::<DataTrack>,
            None::<DataTrack>,
        ),
{
    assert forall|m: int| 0 < m <= lines.len() implies cue::state_data(
        #[trigger] behind(lines, m),
    ) is None by {
        if cue::state_data(behind(lines, m)) is Some {
            let o = lemma_data_from(lines, m);
        }
    }
    lemma_scan_rest(log, lines, 0, None, None);
}

// ── Gaps before audio tracks ─────────────────────────────────────────────────

proof fn lemma_block(lines: Seq<CueLineView>, from: int, end: int)
    requires
        0 <= from < end <= lines.len(),
        forall|k: int| from < k < end ==> !leaves(#[trigger] lines[k]),
    ensures
        ({
            let a = behind(lines, from + 1);
            let b = behind(lines, end);
            &&& a.kind == b.kind
            &&& a.bin == b.bin
            &&& (forall|k: int| from < k < end ==> !is_timed(#[trigger] lines[k])) ==> a.index01
                == b.index01
            &&& (forall|k: int| from < k < end ==> !index_line(#[trigger] lines[k], '0', '0'))
                ==> a.index00 == b.index00
        }),
    decreases end - from,
{
    if end > from + 1 {
        lemma_block(lines, from, end - 1);
        assert(!leaves(lines[end - 1]));
        lemma_line(lines[end - 1]);
    }
}

spec fn gaps_before(lines: Seq<CueLineView>, n: int) -> Seq<CueGap>
    decreases n,
{
    if n <= 0 {
        Seq::empty()
    } else if cue::is_file(lines[n - 1]) || cue::is_track(lines[n - 1]) {
        gaps_before(lines, n - 1) + cue::state_gap(behind(lines, n - 1))
    } else {
        gaps_before(lines, n - 1)
    }
}

proof fn lemma_gaps_split(lines: Seq<CueLineView>, n: int)
    requires
        0 <= n <= lines.len(),
    ensures
        cue::cue_gaps(lines, 0, cue::cue_fresh()) == gaps_before(lines, n) + cue::cue_gaps(
            lines,
            n,
            behind(lines, n),
        ),
    decreases n,
{
    if n == 0 {
        assert(Seq::<CueGap>::empty() + cue::cue_gaps(lines, 0, cue::cue_fresh())
            =~= cue::cue_gaps(lines, 0, cue::cue_fresh()));
    } else {
        lemma_gaps_split(lines, n - 1);
        let st = behind(lines, n - 1);
        let rest = cue::cue_gaps(lines, n, behind(lines, n));
        assert(gaps_before(lines, n - 1) + (cue::state_gap(st) + rest) =~= (gaps_before(
            lines,
            n - 1,
        ) + cue::state_gap(st)) + rest);
    }
}

proof fn lemma_gap_start(lines: Seq<CueLineView>, i: int, end: int, t: u64)
    requires
        0 <= i < end <= lines.len(),
        track_line(lines[i]),
        forall|k: int| i < k < end ==> !leaves(#[trigger] lines[k]),
        gap_at(lines, i, end, t),
    ensures
        behind(lines, end).index00 == t,
{
    lemma_line(lines[i]);
    lemma_block(lines, i, end);
    assert(behind(lines, i + 1) == cue::cue_state(behind(lines, i), lines[i]));
    if exists|k: int| i < k < end && index_line(#[trigger] lines[k], '0', '0') {
        let q = choose|q: int|
            {
                &&& i < q < end
                &&& index_line(#[trigger] lines[q], '0', '0')
                &&& t == (match time_of(lines[q]) {
                    Some(v) => v as u64,
                    None => 0,
                })
                &&& forall|k: int| q < k < end ==> !index_line(#[trigger] lines[k], '0', '0')
            };
        lemma_line(lines[q]);
        assert(behind(lines, q + 1) == cue::cue_state(behind(lines, q), lines[q]));
        lemma_block(lines, q, end);
    }
}

/// The letters `AUDIO`.
pub open spec fn audio() -> Seq<char> {
    seq!['A', 'U', 'D', 'I', 'O']
}

/// The audio track at line `i` has the gap `gap`: its last index 01 is behind its last
/// index 00, where the gap begins; without an index 00 the gap begins at sector 0.
pub open spec fn has_gap(lines: Seq<CueLineView>, i: int, gap: CueGap) -> bool {
    &&& exists|j: int| #[trigger] sets_mode(lines, j, i, audio())
    &&& exists|f: int| #[trigger] file_of(lines, i, f) && gap.bin == files(lines, f).len()
    &&& exists|end: int, p: int|
        {
            &&& i < p < end <= lines.len()
            &&& is_timed(#[trigger] lines[p])
            &&& gap.start < time_of(lines[p])->0 as u64
            &&& forall|k: int| p < k < end ==> !is_timed(#[trigger] lines[k])
            &&& #[trigger] gap_at(lines, i, end, gap.start)
            &&& forall|k: int| i < k < end ==> !leaves(#[trigger] lines[k])
            &&& end < lines.len() ==> leaves(lines[end])
        }
}

proof fn lemma_gap_state(
    lines: Seq<CueLineView>,
    i: int,
    j: int,
    f: int,
    p: int,
    end: int,
    gap: CueGap,
)
    requires
        lines.len() <= usize::MAX,
        sets_mode(lines, j, i, audio()),
        file_of(lines, i, f),
        gap.bin == files(lines, f).len(),
        i < p < end <= lines.len(),
        is_timed(lines[p]),
        gap.start < time_of(lines[p])->0 as u64,
        forall|k: int| p < k < end ==> !is_timed(#[trigger] lines[k]),
        gap_at(lines, i, end, gap.start),
        forall|k: int| i < k < end ==> !leaves(#[trigger] lines[k]),
    ensures
        cue::state_gap(behind(lines, end)) == seq![gap],
{
    lemma_line(lines[i]);
    lemma_line(lines[p]);
    lemma_bin(lines, f, i);
    lemma_mode(lines, j, i, audio(), i + 1);
    laws::cue::lemma_modes(audio());
    assert(behind(lines, i + 1) == cue::cue_state(behind(lines, i), lines[i]));
    lemma_block(lines, i, end);
    assert(behind(lines, p + 1) == cue::cue_state(behind(lines, p), lines[p]));
    lemma_block(lines, p, end);
    lemma_gap_start(lines, i, end, gap.start);
    assert(cue::state_gap(behind(lines, end)) =~= seq![gap]);
}

proof fn lemma_gap_among(lines: Seq<CueLineView>, end: int, gap: CueGap)
    requires
        0 <= end <= lines.len(),
        end < lines.len() ==> leaves(lines[end]),
        cue::state_gap(behind(lines, end)) == seq![gap],
    ensures
        cue::cue_gaps(lines, 0, cue::cue_fresh()).contains(gap),
{
    let st = behind(lines, end);
    assert(cue::state_gap(st)[0] == gap);
    lemma_gaps_split(lines, end);
    let rest = cue::cue_gaps(lines, end, st);
    if end < lines.len() {
        lemma_line(lines[end]);
    }
    assert(rest[0] == gap);
    assert(cue::cue_gaps(lines, 0, cue::cue_fresh())[gaps_before(lines, end).len() as int] == gap);
}

/// The gap of an audio track is looked at.
pub proof fn lemma_gap_is_looked_at(lines: Seq<CueLineView>, i: int, gap: CueGap)
    requires
        lines.len() <= usize::MAX,
        has_gap(lines, i, gap),
    ensures
        cue::cue_gaps(lines, 0, cue::cue_fresh()).contains(gap),
{
    let j = choose|j: int| #[trigger] sets_mode(lines, j, i, audio());
    let f = choose|f: int| #[trigger] file_of(lines, i, f) && gap.bin == files(lines, f).len();
    let (end, p) = choose|end: int, p: int|
        {
            &&& i < p < end <= lines.len()
            &&& is_timed(#[trigger] lines[p])
            &&& gap.start < time_of(lines[p])->0 as u64
            &&& forall|k: int| p < k < end ==> !is_timed(#[trigger] lines[k])
            &&& #[trigger] gap_at(lines, i, end, gap.start)
            &&& forall|k: int| i < k < end ==> !leaves(#[trigger] lines[k])
            &&& end < lines.len() ==> leaves(lines[end])
        };
    lemma_gap_state(lines, i, j, f, p, end, gap);
    lemma_gap_among(lines, end, gap);
}

proof fn lemma_start01(lines: Seq<CueLineView>, i: int, end: int)
    requires
        0 <= i < end <= lines.len(),
        track_line(lines[i]),
        forall|k: int| i < k < end ==> !leaves(#[trigger] lines[k]),
        behind(lines, end).index01 is Some,
    ensures
        exists|p: int|
            {
                &&& i < p < end
                &&& is_timed(#[trigger] lines[p])
                &&& behind(lines, end).index01 == Some(time_of(lines[p])->0 as u64)
                &&& forall|k: int| p < k < end ==> !is_timed(#[trigger] lines[k])
            },
{
    lemma_line(lines[i]);
    lemma_block(lines, i, end);
    assert(behind(lines, i + 1) == cue::cue_state(behind(lines, i), lines[i]));
    assert(exists|k: int| i < k < end && is_timed(#[trigger] lines[k]));
    let p = lemma_last_timed(lines, i, end);
    lemma_line(lines[p]);
    assert(behind(lines, p + 1) == cue::cue_state(behind(lines, p), lines[p]));
    lemma_block(lines, p, end);
    assert(is_timed(lines[p]));
}

proof fn lemma_start00(lines: Seq<CueLineView>, i: int, end: int)
    requires
        0 <= i < end <= lines.len(),
        track_line(lines[i]),
        forall|k: int| i < k < end ==> !leaves(#[trigger] lines[k]),
    ensures
        gap_at(lines, i, end, behind(lines, end).index00),
{
    lemma_line(lines[i]);
    lemma_block(lines, i, end);
    assert(behind(lines, i + 1) == cue::cue_state(behind(lines, i), lines[i]));
    if exists|k: int| i < k < end && index_line(#[trigger] lines[k], '0', '0') {
        let p = lemma_last_gap(lines, i, end);
        lemma_line(lines[p]);
        assert(behind(lines, p + 1) == cue::cue_state(behind(lines, p), lines[p]));
        lemma_block(lines, p, end);
        assert(index_line(lines[p], '0', '0'));
    }
}

proof fn lemma_gap_of(lines: Seq<CueLineView>, n: int) -> (i: int)
    requires
        0 <= n <= lines.len() <= usize::MAX,
        n < lines.len() ==> leaves(lines[n]),
        cue::state_gap(behind(lines, n)).len() > 0,
    ensures
        has_gap(lines, i, cue::state_gap(behind(lines, n))[0]),
{
    let st = behind(lines, n);
    let gap = cue::state_gap(st)[0];
    let (i, j, m) = lemma_origin(lines, n);
    laws::cue::lemma_modes(m);
    assert(m == audio());
    assert(sets_mode(lines, j, i, audio()));
    let f = lemma_bin_exists(lines, i);
    lemma_files(lines, f);
    assert(file_of(lines, i, f) && gap.bin == files(lines, f).len());
    lemma_start01(lines, i, n);
    lemma_start00(lines, i, n);
    let p = choose|p: int|
        {
            &&& i < p < n
            &&& is_timed(#[trigger] lines[p])
            &&& st.index01 == Some(time_of(lines[p])->0 as u64)
            &&& forall|k: int| p < k < n ==> !is_timed(#[trigger] lines[k])
        };
    assert(is_timed(lines[p]) && gap_at(lines, i, n, gap.start));
    i
}

spec fn of_a_track(lines: Seq<CueLineView>, gap: CueGap) -> bool {
    exists|i: int| has_gap(lines, i, gap)
}

proof fn lemma_gaps_before(lines: Seq<CueLineView>, n: int, k: int)
    requires
        0 <= n <= lines.len() <= usize::MAX,
        0 <= k < gaps_before(lines, n).len(),
    ensures
        of_a_track(lines, gaps_before(lines, n)[k]),
    decreases n,
{
    lemma_line(lines[n - 1]);
    let had = gaps_before(lines, n - 1);
    if k < had.len() {
        lemma_gaps_before(lines, n - 1, k);
    } else {
        assert(leaves(lines[n - 1]));
        let i = lemma_gap_of(lines, n - 1);
    }
}

/// No other gap is looked at.
pub proof fn lemma_gaps_are_of_tracks(lines: Seq<CueLineView>, k: int) -> (i: int)
    requires
        lines.len() <= usize::MAX,
        0 <= k < cue::cue_gaps(lines, 0, cue::cue_fresh()).len(),
    ensures
        has_gap(lines, i, cue::cue_gaps(lines, 0, cue::cue_fresh())[k]),
{
    let n = lines.len() as int;
    lemma_gaps_split(lines, n);
    let had = gaps_before(lines, n);
    let all = cue::cue_gaps(lines, 0, cue::cue_fresh());
    let flush = cue::state_gap(behind(lines, n));
    assert(all == had + flush);
    if k < had.len() {
        assert(all[k] == had[k]);
        lemma_gaps_before(lines, n, k);
        choose|i: int| has_gap(lines, i, had[k])
    } else {
        assert(all[k] == flush[0]);
        lemma_gap_of(lines, n)
    }
}

// ── Lines and files ──────────────────────────────────────────────────────────

/// What a line of three words is, with white space around it: its text is without that
/// space, its second word can be read as a number, and its mode is its third word in
/// upper case. A line of fewer words has no mode.
pub proof fn lemma_track_words(
    a: Seq<char>,
    first: Seq<char>,
    second: Seq<char>,
    third: Seq<char>,
    b: Seq<char>,
    n: u32,
)
    requires
        laws::text::all_white(a),
        laws::text::all_white(b),
        laws::text::is_word(first),
        laws::text::is_word(second),
        laws::text::is_word(third),
        text::parse_unsigned(second, 0xffff_ffff) == Some(n as nat),
    ensures
        ({
            let t = first + seq![' '] + (second + seq![' '] + third);
            let l = cue::cue_line(a + t + b);
            &&& l.text == t
            &&& l.upper == text::unicode_upper(t)
            &&& l.mode == Some(text::unicode_upper(third))
            &&& number_at(l, 1) == Some(n)
        }),
        ({
            let t = first + seq![' '] + second;
            cue::cue_line(a + t + b).mode is None
        }),
{
    let inner = second + seq![' '] + third;
    let t = first + seq![' '] + inner;
    assert(t[0] == first[0]);
    assert(t.last() == third.last());
    assert(third.last() == third[third.len() - 1]);
    laws::text::lemma_trim(a, t, b);
    laws::text::lemma_first_word(first, ' ', inner);
    laws::text::lemma_first_word(second, ' ', third);
    laws::text::lemma_first_word(third, ' ', Seq::empty());
    let w = text::words(t);
    assert(w =~= seq![first, second, third]);
    assert(w[1] == second && w[2] == third);
    let u = first + seq![' '] + second;
    assert(u[0] == first[0]);
    assert(u.last() == second.last());
    assert(second.last() == second[second.len() - 1]);
    laws::text::lemma_trim(a, u, b);
    laws::text::lemma_first_word(first, ' ', second);
    assert(text::words(u) =~= seq![first, second]);
}

/// The names are those of the lines `of`: all from `from` on that name a file, in their
/// order.
pub open spec fn are_names(
    lines: Seq<CueLineView>,
    from: int,
    names: Seq<Seq<char>>,
    of: Seq<int>,
) -> bool {
    &&& names.len() == of.len()
    &&& forall|k: int|
        0 <= k < of.len() ==> from <= #[trigger] of[k] < lines.len() && names_file(lines[of[k]])
            && text::quoted(lines[of[k]].text) == Some(names[k])
    &&& forall|j: int, k: int| 0 <= j < k < of.len() ==> of[j] < of[k]
    &&& forall|i: int|
        from <= i < lines.len() && names_file(#[trigger] lines[i]) ==> of.contains(i)
}

/// The files of a sheet are those that its `FILE` lines quote, in their order.
pub proof fn lemma_names(lines: Seq<CueLineView>, from: int) -> (of: Seq<int>)
    requires
        0 <= from <= lines.len(),
    ensures
        are_names(lines, from, cue::cue_names(lines, from), of),
    decreases lines.len() - from,
{
    if from == lines.len() {
        Seq::empty()
    } else {
        let rest = lemma_names(lines, from + 1);
        let later = cue::cue_names(lines, from + 1);
        let all = cue::cue_names(lines, from);
        lemma_line(lines[from]);
        if names_file(lines[from]) {
            let of = seq![from] + rest;
            assert forall|k: int| 0 <= k < of.len() implies from <= #[trigger] of[k] < lines.len()
                && names_file(lines[of[k]]) && text::quoted(lines[of[k]].text) == Some(all[k]) by {
                if k > 0 {
                    assert(of[k] == rest[k - 1]);
                    assert(all[k] == later[k - 1]);
                }
            }
            assert forall|i: int|
                from <= i < lines.len() && names_file(#[trigger] lines[i]) implies of.contains(i) by {
                if i == from {
                    assert(of[0] == i);
                } else {
                    let k = choose|k: int| 0 <= k < rest.len() && rest[k] == i;
                    assert(of[k + 1] == i);
                }
            }
            of
        } else {
            rest
        }
    }
}

} // verus!
