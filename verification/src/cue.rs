//! Cue sheets (`.cue`): a text that lists the tracks of a disc and the files
//! that hold them.
//!
//! The files of a sheet are numbered from 0 on in the order of its `FILE`
//! lines. Two numbers can stand for the same file; `same` gives equal numbers
//! to them.
use crate::device::{Log, Probe, Query, Spot, Step};
use crate::error::DiscError;
use crate::sector;
use crate::text;
use crate::track;
use crate::track::{DataTrack, MultiTrackBinReader, TrackFile, TrackInfo, TrackInfoView};
use crate::volume;
use vstd::prelude::*;

verus! {

// ── Lines ────────────────────────────────────────────────────────────────────

/// A line of a sheet, in the forms in which it is read.
#[derive(PartialEq, Eq, Debug)]
pub struct CueLine {
    /// The line without the white space around it.
    pub text: String,
    /// The same in upper case.
    pub upper: Vec<char>,
    /// Its third word in upper case.
    pub mode: Option<String>,
}

/// What a line holds.
pub struct CueLineView {
    pub text: Seq<char>,
    pub upper: Seq<char>,
    pub mode: Option<Seq<char>>,
}

impl View for CueLine {
    type V = CueLineView;

    open spec fn view(&self) -> CueLineView {
        CueLineView { text: self.text@, upper: self.upper@, mode: text::opt_view(self.mode) }
    }
}

/// What a list of lines holds.
pub open spec fn line_views(lines: Seq<CueLine>) -> Seq<CueLineView> {
    lines.map_values(|l: CueLine| l@)
}

/// The forms of one line.
pub open spec fn cue_line(line: Seq<char>) -> CueLineView {
    let t = text::trim(line);
    CueLineView {
        text: t,
        upper: text::unicode_upper(t),
        mode: if text::words(t).len() > 2 {
            Some(text::unicode_upper(text::words(t)[2]))
        } else {
            None
        },
    }
}

/// Splits a sheet into lines.
pub fn cue_lines(s: &str) -> (r: Vec<CueLine>)
    ensures
        line_views(r@) == text::lines(s@).map_values(|l: Seq<char>| cue_line(l)),
{
    let chars = text::chars_of(s);
    let lines = text::split_lines(chars.as_slice());
    let ghost ls = text::lines(s@);
    let ghost want = ls.map_values(|l: Seq<char>| cue_line(l));
    assert(ls.len() == lines@.len());
    let mut out: Vec<CueLine> = Vec::new();
    let mut i: usize = 0;
    while i < lines.len()
        invariant
            i <= lines@.len(),
            ls == text::views(lines@),
            ls.len() == lines@.len(),
            want == ls.map_values(|l: Seq<char>| cue_line(l)),
            line_views(out@) == want.take(i as int),
        decreases lines@.len() - i,
    {
        assert(ls[i as int] == lines@[i as int]@);
        let t = text::trimmed(lines[i].as_slice());
        let line = text::string_of(t.as_slice());
        let upper = text::chars_of(line.as_str().to_uppercase().as_str());
        let words = text::split_words(t.as_slice());
        assert(text::words(t@).len() == words@.len());
        let mode: Option<String> = if words.len() > 2 {
            assert(text::words(t@)[2] == words@[2]@);
            let w = text::string_of(words[2].as_slice());
            Some(w.as_str().to_uppercase())
        } else {
            None
        };
        let l = CueLine { text: line, upper, mode };
        let ghost before = out@;
        out.push(l);
        assert(line_views(out@) =~= line_views(before).push(l@));
        assert(want.take(i + 1) =~= want.take(i as int).push(want[i as int]));
        i += 1;
    }
    assert(want.take(i as int) =~= want);
    out
}

/// The line names a file.
pub open spec fn is_file(l: CueLineView) -> bool {
    text::starts_with(l.upper, "FILE "@)
}

/// The line begins a track.
pub open spec fn is_track(l: CueLineView) -> bool {
    text::starts_with(l.upper, "TRACK "@)
}

/// The line gives an index of a track.
pub open spec fn is_index(l: CueLineView) -> bool {
    text::starts_with(l.upper, "INDEX "@)
}

/// The words behind `INDEX`.
pub open spec fn index_words(l: CueLineView) -> Seq<Seq<char>> {
    text::words(l.upper.skip(6))
}

/// The time of an index, where it is one.
pub open spec fn index_time(l: CueLineView) -> Option<nat> {
    let w = index_words(l);
    if w.len() > 1 {
        text::msf(w[1])
    } else {
        None
    }
}

/// The line is index 00, where the gap before a track begins.
pub open spec fn is_index00(l: CueLineView) -> bool {
    is_index(l) && index_words(l).len() > 0 && index_words(l)[0] == "00"@
}

/// The line is index 01, where a track begins.
pub open spec fn is_index01(l: CueLineView) -> bool {
    is_index(l) && index_words(l).len() > 0 && index_words(l)[0] == "01"@
}

/// What a line tells of an index.
#[derive(Clone, Copy, PartialEq, Eq, Structural, Debug)]
enum Index {
    /// Index 00.
    Gap(Option<u64>),
    /// Index 01.
    Start(Option<u64>),
    /// Another index.
    Other,
    /// A time beyond 64 bits.
    Fault,
}

/// The time of index 00 or 01 is beyond 64 bits.
pub open spec fn index_fault(l: CueLineView) -> bool {
    (is_index00(l) || is_index01(l)) && (index_time(l) matches Some(t) && t > u64::MAX)
}

spec fn small(t: Option<nat>) -> Option<u64> {
    match t {
        Some(v) => Some(v as u64),
        None => None,
    }
}

fn read_index(l: &CueLine) -> (r: Index)
    requires
        is_index(l@),
    ensures
        index_fault(l@) ==> r == Index::Fault,
        !index_fault(l@) && is_index00(l@) ==> r == Index::Gap(small(index_time(l@))),
        !index_fault(l@) && is_index01(l@) ==> r == Index::Start(small(index_time(l@))),
        !is_index00(l@) && !is_index01(l@) ==> r == Index::Other,
{
    proof {
        reveal_strlit("INDEX ");
        reveal_strlit("00");
        reveal_strlit("01");
        assert("00"@[1] != "01"@[1]);
    }
    let rest = text::part(l.upper.as_slice(), 6, l.upper.len());
    assert(rest@ =~= l@.upper.skip(6));
    let w = text::split_words(rest.as_slice());
    let ghost ws = index_words(l@);
    assert(ws.len() == w@.len());
    if w.len() == 0 {
        return Index::Other;
    }
    assert(ws[0] == w@[0]@);
    let gap: bool = text::same(w[0].as_slice(), "00");
    let start: bool = text::same(w[0].as_slice(), "01");
    if !gap && !start {
        return Index::Other;
    }
    let time: Option<u64> = if w.len() > 1 {
        assert(ws[1] == w@[1]@);
        if !text::time_fits(w[1].as_slice()) {
            return Index::Fault;
        }
        text::read_time(w[1].as_slice())
    } else {
        None
    };
    if gap {
        Index::Gap(time)
    } else {
        Index::Start(time)
    }
}

// ── Files ────────────────────────────────────────────────────────────────────

/// The names of the files of the lines from `i` on. A `FILE` line without a
/// quoted name names none.
pub open spec fn cue_names(lines: Seq<CueLineView>, i: int) -> Seq<Seq<char>>
    decreases lines.len() - i,
{
    if i < 0 || i >= lines.len() {
        Seq::empty()
    } else if is_file(lines[i]) {
        match text::quoted(lines[i].text) {
            Some(name) => seq![name] + cue_names(lines, i + 1),
            None => cue_names(lines, i + 1),
        }
    } else {
        cue_names(lines, i + 1)
    }
}

/// Lists the names of the files of a sheet.
pub fn cue_files(lines: &Vec<CueLine>) -> (r: Vec<String>)
    ensures
        text::string_views(r@) == cue_names(line_views(lines@), 0),
{
    let ghost ls = line_views(lines@);
    let ghost whole = cue_names(ls, 0);
    let mut out: Vec<String> = Vec::new();
    let mut i: usize = 0;
    assert(text::string_views(out@) + whole =~= whole);
    while i < lines.len()
        invariant
            i <= lines@.len(),
            ls == line_views(lines@),
            whole == text::string_views(out@) + cue_names(ls, i as int),
        decreases lines@.len() - i,
    {
        assert(ls[i as int] == lines@[i as int]@);
        if text::begins(lines[i].upper.as_slice(), "FILE ") {
            if let Some(name) = text::extract_quoted(lines[i].text.as_str()) {
                let ghost before = out@;
                let n = name.to_owned();
                out.push(n);
                proof {
                    let rest = cue_names(ls, i + 1);
                    assert(text::string_views(out@) =~= text::string_views(before).push(n@));
                    assert(text::string_views(before) + (seq![n@] + rest) == text::string_views(
                        out@,
                    ) + rest);
                }
            }
        }
        i += 1;
    }
    assert(text::string_views(out@) + Seq::<Seq<char>>::empty() == text::string_views(out@));
    out
}

/// How many files the lines before `i` name.
pub open spec fn files_before(lines: Seq<CueLineView>, i: int) -> int {
    cue_names(lines, 0).len() - cue_names(lines, i).len()
}

// ── The data track ───────────────────────────────────────────────────────────

/// What the mode of a track says of its sectors.
#[derive(Clone, Copy, PartialEq, Eq, Structural, Debug)]
pub enum CueKind {
    Audio,
    Mode1,
    Mode2,
    Other,
}

/// The kind of a mode. CD-i sectors are mode 2 sectors.
pub open spec fn cue_kind(mode: Seq<char>) -> CueKind {
    if text::starts_with(mode, "MODE1"@) {
        CueKind::Mode1
    } else if text::starts_with(mode, "MODE2"@) || text::starts_with(mode, "CDI"@) {
        CueKind::Mode2
    } else if mode == "AUDIO"@ {
        CueKind::Audio
    } else {
        CueKind::Other
    }
}

fn kind_of(mode: &str) -> (r: CueKind)
    ensures
        r == cue_kind(mode@),
{
    if text::str_begins(mode, "MODE1") {
        CueKind::Mode1
    } else if text::str_begins(mode, "MODE2") || text::str_begins(mode, "CDI") {
        CueKind::Mode2
    } else if text::same_str(mode, "AUDIO") {
        CueKind::Audio
    } else {
        CueKind::Other
    }
}

/// What has been read of the current file and track.
#[derive(Clone, Copy, PartialEq, Eq, Structural, Debug)]
pub struct CueState {
    /// The number of files named so far.
    pub files: usize,
    pub bin: Option<usize>,
    pub kind: Option<CueKind>,
    /// First sector of the gap before the track.
    pub index00: u64,
    /// First sector of the track.
    pub index01: Option<u64>,
}

/// The start of a sheet.
pub open spec fn cue_fresh() -> CueState {
    CueState { files: 0, bin: None, kind: None, index00: 0, index01: None }
}

/// The state behind a `FILE` line. Without a quoted name the file stays.
pub open spec fn file_state(st: CueState, l: CueLineView) -> CueState {
    let named = text::quoted(l.text) is Some;
    CueState {
        files: (st.files + (if named {
            1int
        } else {
            0
        })) as usize,
        bin: if named {
            Some(st.files)
        } else {
            st.bin
        },
        kind: None,
        index00: 0,
        index01: None,
    }
}

/// The state behind a line. A `TRACK` line without a mode leaves the kind as
/// it is.
pub open spec fn cue_state(st: CueState, l: CueLineView) -> CueState {
    if is_file(l) {
        file_state(st, l)
    } else if is_track(l) {
        CueState {
            kind: match l.mode {
                Some(m) => Some(cue_kind(m)),
                None => st.kind,
            },
            index00: 0,
            index01: None,
            ..st
        }
    } else if is_index00(l) {
        CueState {
            index00: match index_time(l) {
                Some(t) => t as u64,
                None => 0,
            },
            ..st
        }
    } else if is_index01(l) {
        CueState {
            index01: match index_time(l) {
                Some(t) => Some(t as u64),
                None => st.index01,
            },
            ..st
        }
    } else {
        st
    }
}

/// The line has no state behind it: it is no `FILE` or `TRACK` line and holds
/// a time beyond 64 bits.
pub open spec fn line_fault(l: CueLineView) -> bool {
    !is_file(l) && !is_track(l) && index_fault(l)
}

/// The data track that begins at sector `idx` of file `bin`.
pub open spec fn cue_data_at(log: Log, bin: usize, udo: u64, idx: u64) -> Step<DataTrack> {
    let offset = idx * sector::RAW_SECTOR_SIZE;
    let q = Query::Size { file: bin };
    if offset > u64::MAX {
        Step::Fault
    } else {
        match sector::lba_at(log, bin, offset as u64) {
            Step::Ask(q) => Step::Ask(q),
            Step::Fault => Step::Fault,
            Step::Done(lba) => match log.known(q) {
                None => Step::Ask(q),
                Some(n) => Step::Done(
                    DataTrack {
                        bin,
                        track_offset: offset as u64,
                        user_data_offset: udo,
                        stride: sector::RAW_SECTOR_SIZE,
                        lba_offset: lba,
                        descramble: false,
                        sector_count: sectors_behind(n.size(), offset as u64),
                    },
                ),
            },
        }
    }
}

/// How many raw sectors lie behind `offset` in a file; 0 where its length is
/// not known.
pub open spec fn sectors_behind(size: Option<u64>, offset: u64) -> u64 {
    match size {
        Some(n) => if n >= offset {
            ((n - offset) / sector::RAW_SECTOR_SIZE as int) as u64
        } else {
            0
        },
        None => 0,
    }
}

fn ask_data_at(log: &Log, cur: &mut usize, bin: usize, udo: u64, idx: u64) -> (r: Step<DataTrack>)
    requires
        log.wf(),
    ensures
        r == cue_data_at(*log, bin, udo, idx),
{
    let offset: u128 = idx as u128 * sector::RAW_SECTOR_SIZE as u128;
    if offset > u64::MAX as u128 {
        return Step::Fault;
    }
    let offset: u64 = offset as u64;
    let lba: u64 = match sector::ask_lba(log, cur, bin, offset) {
        Step::Ask(q) => {
            return Step::Ask(q);
        },
        Step::Fault => {
            return Step::Fault;
        },
        Step::Done(n) => n,
    };
    let q = Query::Size { file: bin };
    match log.size(q, cur) {
        None => Step::Ask(q),
        Some(n) => {
            let sector_count: u64 = match n {
                Some(n) => n.saturating_sub(offset) / sector::RAW_SECTOR_SIZE,
                None => 0,
            };
            Step::Done(
                DataTrack {
                    bin,
                    track_offset: offset,
                    user_data_offset: udo,
                    stride: sector::RAW_SECTOR_SIZE,
                    lba_offset: lba,
                    descramble: false,
                    sector_count,
                },
            )
        },
    }
}

/// Where the user data of a data sector begins; `None` for another kind.
pub open spec fn kind_offset(kind: CueKind) -> Option<u64> {
    match kind {
        CueKind::Mode1 => Some(16),
        CueKind::Mode2 => Some(24),
        _ => None,
    }
}

/// The data track that a state describes, where it is complete and of data:
/// its file, the offset of its user data and its first sector.
pub open spec fn state_data(st: CueState) -> Option<(usize, u64, u64)> {
    match (st.bin, st.kind, st.index01) {
        (Some(bin), Some(kind), Some(idx)) => match kind_offset(kind) {
            Some(udo) => Some((bin, udo, idx)),
            None => None,
        },
        _ => None,
    }
}

fn data_of(st: CueState) -> (r: Option<(usize, u64, u64)>)
    ensures
        r == state_data(st),
{
    match (st.bin, st.kind, st.index01) {
        (Some(bin), Some(kind), Some(idx)) => match kind {
            CueKind::Mode1 => Some((bin, 16, idx)),
            CueKind::Mode2 => Some((bin, 24, idx)),
            _ => None,
        },
        _ => None,
    }
}

/// The first and the last data track of the lines from `i` on, where `first`
/// and `last` are those of the lines before.
pub open spec fn cue_scan(
    log: Log,
    lines: Seq<CueLineView>,
    i: int,
    st: CueState,
    first: Option<DataTrack>,
    last: Option<DataTrack>,
) -> Step<(Option<DataTrack>, Option<DataTrack>)>
    decreases lines.len() - i,
{
    if i < 0 || i >= lines.len() {
        Step::Done((first, last))
    } else if line_fault(lines[i]) {
        Step::Fault
    } else {
        let next = cue_state(st, lines[i]);
        match state_data(next) {
            None => cue_scan(log, lines, i + 1, next, first, last),
            Some((bin, udo, idx)) => match cue_data_at(log, bin, udo, idx) {
                Step::Ask(q) => Step::Ask(q),
                Step::Fault => Step::Fault,
                Step::Done(t) => cue_scan(
                    log,
                    lines,
                    i + 1,
                    next,
                    if first is None {
                        Some(t)
                    } else {
                        first
                    },
                    Some(t),
                ),
            },
        }
    }
}

/// A gap before an audio track.
#[derive(Clone, Copy, PartialEq, Eq, Structural, Debug)]
pub struct CueGap {
    pub bin: usize,
    /// First sector of the gap.
    pub start: u64,
}

/// The gap of the track that ends here, where it is an audio track with one.
pub open spec fn state_gap(st: CueState) -> Seq<CueGap> {
    match (st.bin, st.kind, st.index01) {
        (Some(bin), Some(CueKind::Audio), Some(idx)) => if st.index00 < idx {
            seq![CueGap { bin, start: st.index00 }]
        } else {
            Seq::empty()
        },
        _ => Seq::empty(),
    }
}

/// The gaps of the audio tracks of the lines from `i` on.
pub open spec fn cue_gaps(lines: Seq<CueLineView>, i: int, st: CueState) -> Seq<CueGap>
    decreases lines.len() - i,
{
    if i < 0 || i >= lines.len() {
        state_gap(st)
    } else if is_file(lines[i]) || is_track(lines[i]) {
        state_gap(st) + cue_gaps(lines, i + 1, cue_state(st, lines[i]))
    } else {
        cue_gaps(lines, i + 1, cue_state(st, lines[i]))
    }
}

/// The question whether a scrambled CD-i track begins at `offset`.
pub open spec fn gap_query(bin: usize, offset: u64) -> Query {
    Query::Probe {
        file: bin,
        probe: Probe::CdiReadyPregap,
        spot: Spot {
            track_offset: offset,
            user_data_offset: 0,
            stride: 0,
            lba_offset: 0,
            descramble: false,
        },
    }
}

fn ask_gap(bin: usize, offset: u64) -> (r: Query)
    ensures
        r == gap_query(bin, offset),
{
    Query::Probe {
        file: bin,
        probe: Probe::CdiReadyPregap,
        spot: Spot {
            track_offset: offset,
            user_data_offset: 0,
            stride: 0,
            lba_offset: 0,
            descramble: false,
        },
    }
}

/// The first gap from `i` on that holds a scrambled CD-i track.
pub open spec fn cue_ready(log: Log, gaps: Seq<CueGap>, i: int) -> Step<
    Result<DataTrack, DiscError>,
>
    decreases gaps.len() - i,
{
    if i < 0 || i >= gaps.len() {
        Step::Done(Err(DiscError::CueNoDataTrack))
    } else {
        let offset = gaps[i].start * sector::RAW_SECTOR_SIZE;
        let q = gap_query(gaps[i].bin, offset as u64);
        if offset > u64::MAX {
            Step::Fault
        } else {
            match log.known(q) {
                None => Step::Ask(q),
                Some(r) => if r.flag() {
                    Step::Done(
                        Ok(
                            DataTrack {
                                bin: gaps[i].bin,
                                track_offset: offset as u64,
                                user_data_offset: 24,
                                stride: sector::RAW_SECTOR_SIZE,
                                lba_offset: 0,
                                descramble: true,
                                sector_count: 0,
                            },
                        ),
                    )
                } else {
                    cue_ready(log, gaps, i + 1)
                },
            }
        }
    }
}

/// The data track of a sheet: the last one; but the first one where the last
/// lies in another file and has no volume descriptor, as on a Photo CD. A
/// sheet without a data track can have a scrambled CD-i track in the gap
/// before an audio track.
pub open spec fn cue_image(log: Log, lines: Seq<CueLineView>, same: Seq<usize>) -> Step<
    Result<DataTrack, DiscError>,
> {
    match cue_scan(log, lines, 0, cue_fresh(), None, None) {
        Step::Ask(q) => Step::Ask(q),
        Step::Fault => Step::Fault,
        Step::Done((Some(first), Some(last))) => if same[first.bin as int]
            == same[last.bin as int] {
            Step::Done(Ok(last))
        } else {
            match volume::pvd_check(log, last) {
                Step::Ask(q) => Step::Ask(q),
                Step::Fault => Step::Fault,
                Step::Done(found) => Step::Done(
                    Ok(
                        if found {
                            last
                        } else {
                            first
                        },
                    ),
                ),
            }
        },
        Step::Done(_) => cue_ready(log, cue_gaps(lines, 0, cue_fresh()), 0),
    }
}

fn name_file(st: CueState, l: &CueLine) -> (r: CueState)
    requires
        st.files < usize::MAX,
    ensures
        r == file_state(st, l@),
{
    match text::extract_quoted(l.text.as_str()) {
        Some(_) => CueState {
            files: st.files + 1,
            bin: Some(st.files),
            kind: None,
            index00: 0,
            index01: None,
        },
        None => CueState {
            files: st.files,
            bin: st.bin,
            kind: None,
            index00: 0,
            index01: None,
        },
    }
}

fn next_state(st: CueState, l: &CueLine) -> (r: Option<CueState>)
    requires
        st.files < usize::MAX,
    ensures
        r is None <==> line_fault(l@),
        r matches Some(n) ==> n == cue_state(st, l@),
{
    if text::begins(l.upper.as_slice(), "FILE ") {
        return Some(name_file(st, l));
    }
    if text::begins(l.upper.as_slice(), "TRACK ") {
        let kind: Option<CueKind> = match &l.mode {
            Some(m) => Some(kind_of(m.as_str())),
            None => st.kind,
        };
        return Some(CueState { kind, index00: 0, index01: None, ..st });
    }
    if text::begins(l.upper.as_slice(), "INDEX ") {
        return match read_index(l) {
            Index::Fault => None,
            Index::Gap(t) => {
                let index00: u64 = match t {
                    Some(v) => v,
                    None => 0,
                };
                Some(CueState { index00, ..st })
            },
            Index::Start(t) => {
                let index01: Option<u64> = match t {
                    Some(v) => Some(v),
                    None => st.index01,
                };
                Some(CueState { index01, ..st })
            },
            Index::Other => Some(st),
        };
    }
    Some(st)
}

fn push_gap(st: CueState, gaps: &mut Vec<CueGap>)
    ensures
        final(gaps)@ == old(gaps)@ + state_gap(st),
{
    match (st.bin, st.kind, st.index01) {
        (Some(bin), Some(CueKind::Audio), Some(idx)) => {
            if st.index00 < idx {
                gaps.push(CueGap { bin, start: st.index00 });
            }
        },
        _ => {},
    }
    assert(gaps@ =~= old(gaps)@ + state_gap(st));
}

fn find_ready(log: &Log, cur: &mut usize, gaps: &Vec<CueGap>) -> (r: Step<
    Result<DataTrack, DiscError>,
>)
    requires
        log.wf(),
    ensures
        r == cue_ready(*log, gaps@, 0),
{
    let mut i: usize = 0;
    while i < gaps.len()
        invariant
            i <= gaps@.len(),
            log.wf(),
            cue_ready(*log, gaps@, 0) == cue_ready(*log, gaps@, i as int),
        decreases gaps@.len() - i,
    {
        let offset: u128 = gaps[i].start as u128 * sector::RAW_SECTOR_SIZE as u128;
        if offset > u64::MAX as u128 {
            return Step::Fault;
        }
        let offset: u64 = offset as u64;
        let q = ask_gap(gaps[i].bin, offset);
        match log.flag(q, cur) {
            None => {
                return Step::Ask(q);
            },
            Some(found) => {
                if found {
                    return Step::Done(
                        Ok(
                            DataTrack {
                                bin: gaps[i].bin,
                                track_offset: offset,
                                user_data_offset: 24,
                                stride: sector::RAW_SECTOR_SIZE,
                                lba_offset: 0,
                                descramble: true,
                                sector_count: 0,
                            },
                        ),
                    );
                }
            },
        }
        i += 1;
    }
    Step::Done(Err(DiscError::CueNoDataTrack))
}

/// Finds the data track of a sheet. `same` has a number for each file of the
/// sheet.
pub fn parse_cue_for_data_track(
    log: &Log,
    cur: &mut usize,
    lines: &Vec<CueLine>,
    same: &Vec<usize>,
) -> (r: Step<Result<DataTrack, DiscError>>)
    requires
        log.wf(),
        same@.len() == cue_names(line_views(lines@), 0).len(),
    ensures
        r == cue_image(*log, line_views(lines@), same@),
{
    let ghost ls = line_views(lines@);
    let mut st = CueState { files: 0, bin: None, kind: None, index00: 0, index01: None };
    let mut first: Option<DataTrack> = None;
    let mut last: Option<DataTrack> = None;
    let mut gaps: Vec<CueGap> = Vec::new();
    let ghost all_gaps = cue_gaps(ls, 0, cue_fresh());
    assert(gaps@ + all_gaps =~= all_gaps);
    let mut i: usize = 0;
    while i < lines.len()
        invariant
            i <= lines@.len(),
            log.wf(),
            ls == line_views(lines@),
            st.files <= i,
            st.files == files_before(ls, i as int),
            same@.len() == cue_names(ls, 0).len(),
            st.bin matches Some(b) ==> b < st.files,
            first matches Some(t) ==> t.bin < same@.len(),
            last matches Some(t) ==> t.bin < same@.len(),
            first is None <==> last is None,
            all_gaps == cue_gaps(ls, 0, cue_fresh()),
            all_gaps == gaps@ + cue_gaps(ls, i as int, st),
            cue_scan(*log, ls, 0, cue_fresh(), None, None) == cue_scan(
                *log,
                ls,
                i as int,
                st,
                first,
                last,
            ),
        decreases lines@.len() - i,
    {
        assert(ls[i as int] == lines@[i as int]@);
        let ghost prior = gaps@;
        let ghost before = st;
        if text::begins(lines[i].upper.as_slice(), "FILE ") || text::begins(
            lines[i].upper.as_slice(),
            "TRACK ",
        ) {
            push_gap(st, &mut gaps);
        }
        st = match next_state(st, &lines[i]) {
            None => {
                return Step::Fault;
            },
            Some(n) => n,
        };
        proof {
            let rest = cue_gaps(ls, i + 1, st);
            assert(prior + (state_gap(before) + rest) =~= (prior + state_gap(before)) + rest);
        }
        if let Some((bin, udo, idx)) = data_of(st) {
            match ask_data_at(log, cur, bin, udo, idx) {
                Step::Ask(q) => {
                    return Step::Ask(q);
                },
                Step::Fault => {
                    return Step::Fault;
                },
                Step::Done(t) => {
                    if first.is_none() {
                        first = Some(t);
                    }
                    last = Some(t);
                },
            }
        }
        i += 1;
    }
    push_gap(st, &mut gaps);
    match (first, last) {
        (Some(f), Some(l)) => {
            if same[f.bin] == same[l.bin] {
                return Step::Done(Ok(l));
            }
            match volume::has_pvd(log, cur, &l) {
                Step::Ask(q) => Step::Ask(q),
                Step::Fault => Step::Fault,
                Step::Done(found) => Step::Done(
                    Ok(
                        if found {
                            l
                        } else {
                            f
                        },
                    ),
                ),
            }
        },
        _ => find_ready(log, cur, &gaps),
    }
}

// ── All data tracks ──────────────────────────────────────────────────────────

/// The line gives index 01 in the form that a reader of all tracks takes.
pub open spec fn is_start(l: CueLineView) -> bool {
    text::starts_with(l.upper, "INDEX 01 "@)
}

/// The time behind `INDEX 01`.
pub open spec fn start_time(l: CueLineView) -> Option<nat> {
    text::msf(text::trim(l.upper.skip(9)))
}

/// The state behind a line, for a reader of all tracks: a `TRACK` line without
/// a mode clears the kind, and an `INDEX 01` line without a time clears the
/// start.
pub open spec fn all_state(st: CueState, l: CueLineView) -> CueState {
    if is_file(l) {
        file_state(st, l)
    } else if is_track(l) {
        CueState {
            kind: match l.mode {
                Some(m) => Some(cue_kind(m)),
                None => None,
            },
            index01: None,
            ..st
        }
    } else if is_start(l) {
        CueState {
            index01: match start_time(l) {
                Some(t) => Some(t as u64),
                None => None,
            },
            ..st
        }
    } else {
        st
    }
}

/// The line has no state behind it: its time is beyond 64 bits.
pub open spec fn start_fault(l: CueLineView) -> bool {
    !is_file(l) && !is_track(l) && is_start(l) && (start_time(l) matches Some(t) && t > u64::MAX)
}

/// The last track of `acc` begins at the same place of the same file.
pub open spec fn is_listed(acc: Seq<DataTrack>, same: Seq<usize>, bin: usize, offset: int) -> bool {
    acc.len() > 0 && same[acc.last().bin as int] == same[bin as int] && acc.last().track_offset
        == offset
}

/// The data tracks of the lines from `i` on, behind the tracks `acc`. A track
/// that the line before gave already is not listed twice.
pub open spec fn cue_all(
    log: Log,
    lines: Seq<CueLineView>,
    same: Seq<usize>,
    i: int,
    st: CueState,
    acc: Seq<DataTrack>,
) -> Step<Result<Seq<DataTrack>, DiscError>>
    decreases lines.len() - i,
{
    if i < 0 || i >= lines.len() {
        if acc.len() == 0 {
            Step::Done(Err(DiscError::CueNoDataTrack))
        } else {
            Step::Done(Ok(acc))
        }
    } else if start_fault(lines[i]) {
        Step::Fault
    } else {
        let next = all_state(st, lines[i]);
        match state_data(next) {
            None => cue_all(log, lines, same, i + 1, next, acc),
            Some((bin, udo, idx)) => if is_listed(
                acc,
                same,
                bin,
                idx * sector::RAW_SECTOR_SIZE,
            ) {
                cue_all(log, lines, same, i + 1, next, acc)
            } else {
                match cue_data_at(log, bin, udo, idx) {
                    Step::Ask(q) => Step::Ask(q),
                    Step::Fault => Step::Fault,
                    Step::Done(t) => cue_all(log, lines, same, i + 1, next, acc.push(t)),
                }
            },
        }
    }
}

/// What a step to a list of data tracks holds.
pub open spec fn data_tracks(s: Step<Result<Vec<DataTrack>, DiscError>>) -> Step<
    Result<Seq<DataTrack>, DiscError>,
> {
    match s {
        Step::Ask(q) => Step::Ask(q),
        Step::Fault => Step::Fault,
        Step::Done(Ok(v)) => Step::Done(Ok(v@)),
        Step::Done(Err(e)) => Step::Done(Err(e)),
    }
}

fn next_all_state(st: CueState, l: &CueLine) -> (r: Option<CueState>)
    requires
        st.files < usize::MAX,
    ensures
        r is None <==> start_fault(l@),
        r matches Some(n) ==> n == all_state(st, l@),
{
    if text::begins(l.upper.as_slice(), "FILE ") {
        return Some(name_file(st, l));
    }
    if text::begins(l.upper.as_slice(), "TRACK ") {
        let kind: Option<CueKind> = match &l.mode {
            Some(m) => Some(kind_of(m.as_str())),
            None => None,
        };
        return Some(CueState { kind, index01: None, ..st });
    }
    if text::begins(l.upper.as_slice(), "INDEX 01 ") {
        proof {
            reveal_strlit("INDEX 01 ");
        }
        let rest = text::part(l.upper.as_slice(), 9, l.upper.len());
        assert(rest@ =~= l@.upper.skip(9));
        let t = text::trimmed(rest.as_slice());
        if !text::time_fits(t.as_slice()) {
            return None;
        }
        let index01: Option<u64> = text::read_time(t.as_slice());
        return Some(CueState { index01, ..st });
    }
    Some(st)
}

/// Lists all data tracks of a sheet, in its order. `same` has a number for
/// each file of the sheet.
pub fn parse_cue_all_data_tracks(
    log: &Log,
    cur: &mut usize,
    lines: &Vec<CueLine>,
    same: &Vec<usize>,
) -> (r: Step<Result<Vec<DataTrack>, DiscError>>)
    requires
        log.wf(),
        same@.len() == cue_names(line_views(lines@), 0).len(),
    ensures
        data_tracks(r) == cue_all(
            *log,
            line_views(lines@),
            same@,
            0,
            cue_fresh(),
            Seq::empty(),
        ),
        r matches Step::Done(Ok(v)) ==> v@.len() > 0 && forall|k: int|
            0 <= k < v@.len() ==> (#[trigger] v@[k]).bin < same@.len(),
{
    let ghost ls = line_views(lines@);
    let mut st = CueState { files: 0, bin: None, kind: None, index00: 0, index01: None };
    let mut acc: Vec<DataTrack> = Vec::new();
    assert(acc@ =~= Seq::empty());
    let mut i: usize = 0;
    while i < lines.len()
        invariant
            i <= lines@.len(),
            log.wf(),
            ls == line_views(lines@),
            st.files <= i,
            st.files == files_before(ls, i as int),
            same@.len() == cue_names(ls, 0).len(),
            st.bin matches Some(b) ==> b < st.files,
            forall|k: int| 0 <= k < acc@.len() ==> (#[trigger] acc@[k]).bin < same@.len(),
            cue_all(*log, ls, same@, 0, cue_fresh(), Seq::empty()) == cue_all(
                *log,
                ls,
                same@,
                i as int,
                st,
                acc@,
            ),
        decreases lines@.len() - i,
    {
        assert(ls[i as int] == lines@[i as int]@);
        st = match next_all_state(st, &lines[i]) {
            None => {
                return Step::Fault;
            },
            Some(n) => n,
        };
        if let Some((bin, udo, idx)) = data_of(st) {
            let listed: bool = acc.len() > 0 && same[acc[acc.len() - 1].bin] == same[bin]
                && acc[acc.len() - 1].track_offset as u128 == idx as u128
                * sector::RAW_SECTOR_SIZE as u128;
            if !listed {
                match ask_data_at(log, cur, bin, udo, idx) {
                    Step::Ask(q) => {
                        return Step::Ask(q);
                    },
                    Step::Fault => {
                        return Step::Fault;
                    },
                    Step::Done(t) => {
                        acc.push(t);
                    },
                }
            }
        }
        i += 1;
    }
    if acc.len() == 0 {
        Step::Done(Err(DiscError::CueNoDataTrack))
    } else {
        Step::Done(Ok(acc))
    }
}

// ── The two readings of a sheet ──────────────────────────────────────────────

/// An index line: `INDEX`, the number of the index and its time, a blank
/// between each.
pub open spec fn is_index_line(l: CueLineView, number: Seq<char>, time: Seq<char>) -> bool {
    &&& l.upper == "INDEX "@ + (number + seq![' '] + time)
    &&& text::is_word(number)
    &&& text::is_word(time)
    &&& text::msf(time) matches Some(t)
    &&& t <= u64::MAX
}

/// The line is as a sheet should have it: a `FILE` line quotes its name, a
/// `TRACK` line has a mode, and an `INDEX` line a number and a time.
pub open spec fn well_formed(l: CueLineView) -> bool {
    &&& is_file(l) ==> text::quoted(l.text) is Some
    &&& is_track(l) ==> l.mode is Some
    &&& is_index(l) ==> exists|number: Seq<char>, time: Seq<char>| is_index_line(l, number, time)
}

/// The state of a reader of all tracks behind the first `n` lines.
pub open spec fn state_behind(lines: Seq<CueLineView>, n: int) -> CueState
    decreases n,
{
    if n <= 0 {
        cue_fresh()
    } else {
        all_state(state_behind(lines, n - 1), lines[n - 1])
    }
}

/// The data track that the first `n` lines end in, where they end in one.
pub open spec fn data_behind(lines: Seq<CueLineView>, n: int) -> Option<(usize, u64, u64)> {
    state_data(state_behind(lines, n))
}

/// Two data tracks begin at the same place of the same file.
pub open spec fn same_start(a: (usize, u64, u64), b: (usize, u64, u64), same: Seq<usize>) -> bool {
    same[a.0 as int] == same[b.0 as int] && a.2 == b.2
}

/// No two data tracks of a sheet share both file and start: where two parts of
/// it end in data tracks at the same place, these are one track.
pub open spec fn tracks_apart(lines: Seq<CueLineView>, same: Seq<usize>) -> bool {
    forall|m: int, n: int|
        #![trigger data_behind(lines, m), data_behind(lines, n)]
        0 < m < n <= lines.len() && data_behind(lines, m) is Some && data_behind(lines, n) is Some
            && same_start(data_behind(lines, m)->0, data_behind(lines, n)->0, same)
            ==> data_behind(lines, m) == data_behind(lines, n)
}

/// The states of both readings agree but for the gap, which only one of them
/// reads.
spec fn agree(a: CueState, b: CueState) -> bool {
    a.files == b.files && a.bin == b.bin && a.kind == b.kind && a.index01 == b.index01
}

/// On a well-formed line both readings find the same.
proof fn lemma_states_agree(l: CueLineView, a: CueState, b: CueState)
    requires
        well_formed(l),
        agree(a, b),
    ensures
        !line_fault(l),
        !start_fault(l),
        agree(cue_state(a, l), all_state(b, l)),
{
    reveal_strlit("INDEX ");
    reveal_strlit("INDEX 01 ");
    reveal_strlit("00");
    reveal_strlit("01");
    let head = "INDEX "@;
    let start = "INDEX 01 "@;
    assert(head.len() == 6 && start.len() == 9 && "01"@.len() == 2 && "00"@.len() == 2);
    assert(start.subrange(0, 6) =~= head);
    if is_start(l) {
        assert(l.upper.subrange(0, 6) =~= l.upper.subrange(0, 9).subrange(0, 6));
        assert(is_index(l));
    }
    if is_index(l) {
        let (number, time) = choose|number: Seq<char>, time: Seq<char>|
            is_index_line(l, number, time);
        let rest = number + seq![' '] + time;
        text::lemma_two_words(number, time);
        assert(l.upper.skip(6) =~= rest);
        assert(index_words(l) == seq![number, time]);
        if number == "01"@ {
            assert(l.upper.subrange(0, 9) =~= start) by {
                assert(l.upper[6] == number[0] && l.upper[7] == number[1] && l.upper[8] == ' ');
            }
            assert(l.upper.skip(9) =~= time);
        } else if is_start(l) {
            let t = l.upper.subrange(0, 9);
            assert(t[6] == '0' && t[7] == '1' && t[8] == ' ');
            assert(rest[0] == '0' && rest[1] == '1' && rest[2] == ' ');
            assert(text::is_space(' '));
            if number.len() == 1 {
                assert(rest[1] == ' ');
            } else if number.len() > 2 {
                assert(rest[2] == number[2]);
            }
            assert(number =~= "01"@);
        }
        assert("00"@[1] == '0' && "01"@[1] == '1');
    }
}

/// What one reading has of the tracks that the other has listed: the first and
/// the last of them. The last one is that of the first `m` lines.
spec fn ends_of(
    log: Log,
    lines: Seq<CueLineView>,
    m: int,
    acc: Seq<DataTrack>,
    first: Option<DataTrack>,
    last: Option<DataTrack>,
) -> bool {
    if acc.len() == 0 {
        first is None && last is None
    } else {
        &&& first == Some(acc[0])
        &&& last == Some(acc.last())
        &&& 0 < m
        &&& data_behind(lines, m) matches Some(t)
        &&& cue_data_at(log, t.0, t.1, t.2) == Step::Done(acc.last())
    }
}

/// From line `i` on, both readings come to the same ends.
proof fn lemma_scan_agrees(
    log: Log,
    lines: Seq<CueLineView>,
    same: Seq<usize>,
    i: int,
    m: int,
    st: CueState,
    acc: Seq<DataTrack>,
    first: Option<DataTrack>,
    last: Option<DataTrack>,
)
    requires
        0 <= i <= lines.len(),
        m <= i,
        forall|k: int| 0 <= k < lines.len() ==> well_formed(#[trigger] lines[k]),
        tracks_apart(lines, same),
        agree(st, state_behind(lines, i)),
        ends_of(log, lines, m, acc, first, last),
    ensures
        cue_all(log, lines, same, i, state_behind(lines, i), acc) matches Step::Done(Ok(d))
            ==> d.len() > 0 && cue_scan(log, lines, i, st, first, last) == Step::Done(
            (Some(d[0]), Some(d.last())),
        ),
        cue_all(log, lines, same, i, state_behind(lines, i), acc) matches Step::Done(Err(_))
            ==> cue_scan(log, lines, i, st, first, last) == Step::Done(
            (None::<DataTrack>, None::<DataTrack>),
        ),
    decreases lines.len() - i,
{
    if i < lines.len() {
        let l = lines[i];
        lemma_states_agree(l, st, state_behind(lines, i));
        let next = cue_state(st, l);
        let other = state_behind(lines, i + 1);
        assert(other == all_state(state_behind(lines, i), l));
        assert(state_data(next) == state_data(other));
        assert(data_behind(lines, i + 1) == state_data(other));
        match state_data(other) {
            None => lemma_scan_agrees(log, lines, same, i + 1, m, next, acc, first, last),
            Some((bin, udo, idx)) => {
                if is_listed(acc, same, bin, idx * sector::RAW_SECTOR_SIZE) {
                    let t = data_behind(lines, m)->0;
                    assert(same_start(t, (bin, udo, idx), same));
                    assert(data_behind(lines, m) == data_behind(lines, i + 1));
                    lemma_scan_agrees(log, lines, same, i + 1, m, next, acc, first, last);
                } else {
                    match cue_data_at(log, bin, udo, idx) {
                        Step::Done(t) => {
                            let begun = if first is None {
                                Some(t)
                            } else {
                                first
                            };
                            assert(acc.push(t).last() == t);
                            lemma_scan_agrees(
                                log,
                                lines,
                                same,
                                i + 1,
                                i + 1,
                                next,
                                acc.push(t),
                                begun,
                                Some(t),
                            );
                        },
                        _ => {},
                    }
                }
            },
        }
    }
}

/// The data track of a well-formed sheet is among all its data tracks: the
/// first of them where the last lies in another file and has no volume
/// descriptor, else the last. Where the sheet has no data track, the gaps before
/// its audio tracks decide.
pub proof fn lemma_data_track_among_all(log: Log, lines: Seq<CueLineView>, same: Seq<usize>)
    requires
        forall|k: int| 0 <= k < lines.len() ==> well_formed(#[trigger] lines[k]),
        tracks_apart(lines, same),
    ensures
        cue_all(log, lines, same, 0, cue_fresh(), Seq::empty()) matches Step::Done(Ok(d)) ==> {
            &&& d.len() > 0
            &&& same[d[0].bin as int] == same[d.last().bin as int] ==> cue_image(log, lines, same)
                == Step::Done(Ok::<DataTrack, DiscError>(d.last()))
            &&& same[d[0].bin as int] != same[d.last().bin as int] ==> cue_image(log, lines, same)
                == (match volume::pvd_check(log, d.last()) {
                Step::Ask(q) => Step::Ask(q),
                Step::Fault => Step::Fault,
                Step::Done(found) => Step::Done(
                    Ok::<DataTrack, DiscError>(
                        if found {
                            d.last()
                        } else {
                            d[0]
                        },
                    ),
                ),
            })
        },
        cue_all(log, lines, same, 0, cue_fresh(), Seq::empty()) matches Step::Done(Err(_))
            ==> cue_image(log, lines, same) == cue_ready(
            log,
            cue_gaps(lines, 0, cue_fresh()),
            0,
        ),
{
    lemma_scan_agrees(log, lines, same, 0, 0, cue_fresh(), Seq::empty(), None, None);
}

// ── The reader of the volume ─────────────────────────────────────────────────

/// Two tracks in a row from `i` on lie in different files.
pub open spec fn files_differ(tracks: Seq<DataTrack>, same: Seq<usize>, i: int) -> bool
    decreases tracks.len() - i,
{
    if i < 0 || i + 1 >= tracks.len() {
        false
    } else {
        same[tracks[i].bin as int] != same[tracks[i + 1].bin as int] || files_differ(
            tracks,
            same,
            i + 1,
        )
    }
}

/// A data track as a track of a reader.
pub open spec fn track_file(t: DataTrack) -> TrackFile {
    TrackFile {
        bin: t.bin,
        track_offset: t.track_offset,
        user_data_offset: t.user_data_offset,
        stride: t.stride,
        lba_offset: t.lba_offset,
        start_lba: t.lba_offset,
        sector_count: t.sector_count,
    }
}

/// What a reader holds.
pub struct ReaderView {
    pub tracks: Seq<TrackFile>,
    pub root_idx: usize,
    pub multi_bin: bool,
}

/// The reader of the volume in `tracks`. Data tracks in different files make up
/// one volume where the last of them has no volume descriptor of its own; else
/// the last data track is the volume.
pub open spec fn cue_volume(log: Log, tracks: Seq<DataTrack>, same: Seq<usize>) -> Step<
    ReaderView,
> {
    let all = tracks.map_values(|t: DataTrack| track_file(t));
    let one = seq![TrackFile { sector_count: 0, ..track_file(tracks.last()) }];
    let single = ReaderView { tracks: one, root_idx: 0, multi_bin: false };
    if tracks.len() <= 1 {
        Step::Done(single)
    } else {
        match volume::pvd_check(log, tracks.last()) {
            Step::Ask(q) => Step::Ask(q),
            Step::Fault => Step::Fault,
            Step::Done(found) => if !found && files_differ(tracks, same, 0) {
                Step::Done(ReaderView { tracks: all, root_idx: 0, multi_bin: true })
            } else {
                Step::Done(single)
            },
        }
    }
}

/// The reader of the volume of a sheet.
pub open spec fn cue_reader(log: Log, lines: Seq<CueLineView>, same: Seq<usize>) -> Step<
    Result<ReaderView, DiscError>,
> {
    match cue_all(log, lines, same, 0, cue_fresh(), Seq::empty()) {
        Step::Ask(q) => Step::Ask(q),
        Step::Fault => Step::Fault,
        Step::Done(Err(e)) => Step::Done(Err(e)),
        Step::Done(Ok(tracks)) => match cue_volume(log, tracks, same) {
            Step::Ask(q) => Step::Ask(q),
            Step::Fault => Step::Fault,
            Step::Done(v) => Step::Done(Ok(v)),
        },
    }
}

/// What a step to a reader holds.
pub open spec fn reader_view(s: Step<Result<MultiTrackBinReader, DiscError>>) -> Step<
    Result<ReaderView, DiscError>,
> {
    match s {
        Step::Ask(q) => Step::Ask(q),
        Step::Fault => Step::Fault,
        Step::Done(Ok(r)) => Step::Done(
            Ok(ReaderView { tracks: r.tracks@, root_idx: r.root_idx, multi_bin: r.multi_bin }),
        ),
        Step::Done(Err(e)) => Step::Done(Err(e)),
    }
}

fn differ(tracks: &Vec<DataTrack>, same: &Vec<usize>) -> (r: bool)
    requires
        forall|k: int| 0 <= k < tracks@.len() ==> (#[trigger] tracks@[k]).bin < same@.len(),
    ensures
        r == files_differ(tracks@, same@, 0),
{
    let n: usize = tracks.len();
    let mut i: usize = 0;
    while i < n && i + 1 < n
        invariant
            i <= n,
            n == tracks@.len(),
            forall|k: int| 0 <= k < tracks@.len() ==> (#[trigger] tracks@[k]).bin < same@.len(),
            files_differ(tracks@, same@, 0) == files_differ(tracks@, same@, i as int),
        decreases n - i,
    {
        if same[tracks[i].bin] != same[tracks[i + 1].bin] {
            return true;
        }
        i += 1;
    }
    false
}

fn all_files(tracks: &Vec<DataTrack>) -> (r: Vec<TrackFile>)
    ensures
        r@ == tracks@.map_values(|t: DataTrack| track_file(t)),
{
    let ghost want = tracks@.map_values(|t: DataTrack| track_file(t));
    let mut r: Vec<TrackFile> = Vec::new();
    let mut i: usize = 0;
    while i < tracks.len()
        invariant
            i <= tracks@.len(),
            want == tracks@.map_values(|t: DataTrack| track_file(t)),
            r@ == want.take(i as int),
        decreases tracks@.len() - i,
    {
        let t = tracks[i];
        r.push(
            TrackFile {
                bin: t.bin,
                track_offset: t.track_offset,
                user_data_offset: t.user_data_offset,
                stride: t.stride,
                lba_offset: t.lba_offset,
                start_lba: t.lba_offset,
                sector_count: t.sector_count,
            },
        );
        assert(want.take(i + 1) =~= want.take(i as int).push(want[i as int]));
        i += 1;
    }
    assert(want.take(i as int) =~= want);
    r
}

/// Builds the reader of the volume of a sheet. `same` has a number for each
/// file of the sheet.
pub fn open_iso_fs_for_cue(
    log: &Log,
    cur: &mut usize,
    lines: &Vec<CueLine>,
    same: &Vec<usize>,
) -> (r: Step<Result<MultiTrackBinReader, DiscError>>)
    requires
        log.wf(),
        same@.len() == cue_names(line_views(lines@), 0).len(),
    ensures
        reader_view(r) == cue_reader(*log, line_views(lines@), same@),
        r matches Step::Done(Ok(reader)) ==> reader.wf(),
{
    let tracks: Vec<DataTrack> = match parse_cue_all_data_tracks(log, cur, lines, same) {
        Step::Ask(q) => {
            return Step::Ask(q);
        },
        Step::Fault => {
            return Step::Fault;
        },
        Step::Done(Err(e)) => {
            return Step::Done(Err(e));
        },
        Step::Done(Ok(v)) => v,
    };
    let n: usize = tracks.len();
    let last = tracks[n - 1];
    if n > 1 {
        let found: bool = match volume::has_pvd(log, cur, &last) {
            Step::Ask(q) => {
                return Step::Ask(q);
            },
            Step::Fault => {
                return Step::Fault;
            },
            Step::Done(b) => b,
        };
        if !found && differ(&tracks, same) {
            return Step::Done(
                Ok(
                    MultiTrackBinReader {
                        tracks: all_files(&tracks),
                        root_idx: 0,
                        multi_bin: true,
                    },
                ),
            );
        }
    }
    Step::Done(
        Ok(
            MultiTrackBinReader::single(
                last.bin,
                last.track_offset,
                last.user_data_offset,
                last.stride,
                last.lba_offset,
            ),
        ),
    )
}

// ── The track list ───────────────────────────────────────────────────────────

/// A track of a sheet.
#[derive(PartialEq, Eq, Debug)]
pub struct RawCueTrack {
    pub number: u32,
    pub mode: String,
    /// First sector of the gap before the track.
    pub index00_lba: u64,
    /// First sector of the track.
    pub start_lba: u64,
    pub bin: usize,
    pub session: u32,
}

/// What a track of a sheet holds.
pub struct RawCueTrackView {
    pub number: u32,
    pub mode: Seq<char>,
    pub index00_lba: u64,
    pub start_lba: u64,
    pub bin: usize,
    pub session: u32,
}

impl View for RawCueTrack {
    type V = RawCueTrackView;

    open spec fn view(&self) -> RawCueTrackView {
        RawCueTrackView {
            number: self.number,
            mode: self.mode@,
            index00_lba: self.index00_lba,
            start_lba: self.start_lba,
            bin: self.bin,
            session: self.session,
        }
    }
}

/// What a list of tracks of a sheet holds.
pub open spec fn raw_views(v: Seq<RawCueTrack>) -> Seq<RawCueTrackView> {
    v.map_values(|t: RawCueTrack| t@)
}

/// What has been read of the current track.
pub struct ListState {
    pub files: int,
    pub session: u32,
    pub bin: Option<usize>,
    pub number: Option<u32>,
    pub mode: Option<Seq<char>>,
    pub index00: u64,
    pub lba: u64,
}

/// The start of a sheet.
pub open spec fn list_fresh() -> ListState {
    ListState { files: 0, session: 1, bin: None, number: None, mode: None, index00: 0, lba: 0 }
}

/// The line begins a session.
pub open spec fn is_session(l: CueLineView) -> bool {
    text::starts_with(l.upper, "REM SESSION "@)
}

/// Word `k` of a line as a number of 32 bits.
pub open spec fn word_number(l: CueLineView, k: int) -> Option<u32> {
    let w = text::words(l.text);
    if k < w.len() {
        match text::parse_unsigned(w[k], u32::MAX as nat) {
            Some(n) => Some(n as u32),
            None => None,
        }
    } else {
        None
    }
}

/// The track that ends here, where its file, its number and its mode are
/// known.
pub open spec fn list_flush(st: ListState) -> Seq<RawCueTrackView> {
    match (st.number, st.mode, st.bin) {
        (Some(number), Some(mode), Some(bin)) => seq![
            RawCueTrackView {
                number,
                mode,
                index00_lba: st.index00,
                start_lba: st.lba,
                bin,
                session: st.session,
            },
        ],
        _ => Seq::empty(),
    }
}

/// No track has begun.
pub open spec fn list_cleared(st: ListState) -> ListState {
    ListState { number: None, mode: None, index00: 0, lba: 0, ..st }
}

/// The line ends the current track.
pub open spec fn ends_track(l: CueLineView) -> bool {
    is_session(l) || is_file(l) || is_track(l)
}

/// The state behind a line.
pub open spec fn list_state(st: ListState, l: CueLineView) -> ListState {
    if is_session(l) {
        ListState {
            session: match word_number(l, 2) {
                Some(n) => n,
                None => st.session,
            },
            ..list_cleared(st)
        }
    } else if is_file(l) {
        if text::quoted(l.text) is Some {
            ListState { files: st.files + 1, bin: Some(st.files as usize), ..list_cleared(st) }
        } else {
            list_cleared(st)
        }
    } else if is_track(l) {
        ListState { number: word_number(l, 1), mode: l.mode, ..list_cleared(st) }
    } else if is_index00(l) {
        ListState {
            index00: match index_time(l) {
                Some(t) => t as u64,
                None => 0,
            },
            ..st
        }
    } else if is_index01(l) {
        ListState {
            lba: match index_time(l) {
                Some(t) => t as u64,
                None => st.lba,
            },
            ..st
        }
    } else {
        st
    }
}

/// The tracks of the lines from `i` on, after `st`.
pub open spec fn raw_tracks(lines: Seq<CueLineView>, i: int, st: ListState) -> Seq<RawCueTrackView>
    decreases lines.len() - i,
{
    if i < 0 || i >= lines.len() {
        list_flush(st)
    } else if ends_track(lines[i]) {
        list_flush(st) + raw_tracks(lines, i + 1, list_state(st, lines[i]))
    } else {
        raw_tracks(lines, i + 1, list_state(st, lines[i]))
    }
}

/// A line from `i` on holds a time beyond 64 bits.
pub open spec fn list_fault(lines: Seq<CueLineView>, i: int) -> bool
    decreases lines.len() - i,
{
    if i < 0 || i >= lines.len() {
        false
    } else {
        (!ends_track(lines[i]) && index_fault(lines[i])) || list_fault(lines, i + 1)
    }
}

/// The number of sectors of track `i`: up to the next track where that lies in
/// the same file, else up to the end of the file.
pub open spec fn raw_sectors(log: Log, raw: Seq<RawCueTrackView>, same: Seq<usize>, i: int) -> Step<
    u64,
> {
    let q = Query::Size { file: raw[i].bin };
    if i + 1 < raw.len() && same[raw[i + 1].bin as int] == same[raw[i].bin as int] {
        Step::Done(less(raw[i + 1].start_lba, raw[i].start_lba))
    } else {
        match log.known(q) {
            None => Step::Ask(q),
            Some(n) => Step::Done(
                less(
                    match n.size() {
                        Some(n) => n / sector::RAW_SECTOR_SIZE,
                        None => 0,
                    },
                    raw[i].start_lba,
                ),
            ),
        }
    }
}

/// `a - b`, and 0 where `b` is greater.
pub open spec fn less(a: u64, b: u64) -> u64 {
    if a >= b {
        (a - b) as u64
    } else {
        0
    }
}

/// A track of a sheet, as it is listed.
pub open spec fn raw_listed(t: RawCueTrackView, sectors: u64, path: Seq<char>) -> TrackInfoView {
    TrackInfoView {
        number: t.number,
        is_data: text::starts_with(t.mode, "MODE"@) || text::starts_with(t.mode, "CDI"@),
        mode: t.mode,
        start_lba: t.start_lba,
        num_sectors: sectors,
        session: t.session,
        bin_path: path,
    }
}

/// The tracks from `i` on as they are listed, behind `acc`.
pub open spec fn list_tracks(
    log: Log,
    raw: Seq<RawCueTrackView>,
    same: Seq<usize>,
    paths: Seq<Seq<char>>,
    i: int,
    acc: Seq<TrackInfoView>,
) -> Step<Seq<TrackInfoView>>
    decreases raw.len() - i,
{
    if i < 0 || i >= raw.len() {
        Step::Done(acc)
    } else {
        match raw_sectors(log, raw, same, i) {
            Step::Ask(q) => Step::Ask(q),
            Step::Fault => Step::Fault,
            Step::Done(n) => list_tracks(
                log,
                raw,
                same,
                paths,
                i + 1,
                acc.push(raw_listed(raw[i], n, paths[raw[i].bin as int])),
            ),
        }
    }
}

/// A scrambled CD-i track in the gap before a track, as it is listed.
pub open spec fn gap_listed(t: RawCueTrackView, path: Seq<char>) -> TrackInfoView {
    TrackInfoView {
        number: 0,
        is_data: true,
        mode: "CDI/PREGAP"@,
        start_lba: t.index00_lba,
        num_sectors: (t.start_lba - t.index00_lba) as u64,
        session: t.session,
        bin_path: path,
    }
}

/// The scrambled CD-i tracks in the gaps before the audio tracks from `i` on,
/// behind `acc`.
pub open spec fn list_gaps(
    log: Log,
    raw: Seq<RawCueTrackView>,
    paths: Seq<Seq<char>>,
    i: int,
    acc: Seq<TrackInfoView>,
) -> Step<Seq<TrackInfoView>>
    decreases raw.len() - i,
{
    if i < 0 || i >= raw.len() {
        Step::Done(acc)
    } else if raw[i].mode != "AUDIO"@ || raw[i].index00_lba >= raw[i].start_lba {
        list_gaps(log, raw, paths, i + 1, acc)
    } else {
        let offset = raw[i].index00_lba * sector::RAW_SECTOR_SIZE;
        let q = gap_query(raw[i].bin, offset as u64);
        if offset > u64::MAX {
            Step::Fault
        } else {
            match log.known(q) {
                None => Step::Ask(q),
                Some(r) => list_gaps(
                    log,
                    raw,
                    paths,
                    i + 1,
                    if r.flag() {
                        acc.push(gap_listed(raw[i], paths[raw[i].bin as int]))
                    } else {
                        acc
                    },
                ),
            }
        }
    }
}

/// The tracks of a sheet as they are listed: the scrambled CD-i tracks first,
/// with the number 0, then the tracks of the sheet in its order.
pub open spec fn cue_tracks(
    log: Log,
    lines: Seq<CueLineView>,
    same: Seq<usize>,
    paths: Seq<Seq<char>>,
) -> Step<Seq<TrackInfoView>> {
    let raw = raw_tracks(lines, 0, list_fresh());
    if list_fault(lines, 0) {
        Step::Fault
    } else {
        match list_tracks(log, raw, same, paths, 0, Seq::empty()) {
            Step::Ask(q) => Step::Ask(q),
            Step::Fault => Step::Fault,
            Step::Done(tracks) => match list_gaps(log, raw, paths, 0, Seq::empty()) {
                Step::Ask(q) => Step::Ask(q),
                Step::Fault => Step::Fault,
                Step::Done(gaps) => Step::Done(gaps + tracks),
            },
        }
    }
}

/// What has been read of the current track.
struct Pending {
    files: usize,
    session: u32,
    bin: Option<usize>,
    number: Option<u32>,
    mode: Option<String>,
    index00: u64,
    lba: u64,
}

impl Pending {
    spec fn state(self) -> ListState {
        ListState {
            files: self.files as int,
            session: self.session,
            bin: self.bin,
            number: self.number,
            mode: text::opt_view(self.mode),
            index00: self.index00,
            lba: self.lba,
        }
    }

    fn flush(&mut self, out: &mut Vec<RawCueTrack>)
        ensures
            final(self).state() == list_cleared(old(self).state()),
            raw_views(final(out)@) == raw_views(old(out)@) + list_flush(old(self).state()),
            old(self).bin is None ==> final(out)@ == old(out)@,
            old(self).bin matches Some(b) ==> final(out)@ == old(out)@ || (final(out)@.len()
                == old(out)@.len() + 1 && final(out)@.drop_last() == old(out)@
                && final(out)@.last().bin == b),
    {
        let number: Option<u32> = self.number;
        let bin: Option<usize> = self.bin;
        let mode: Option<String> = self.mode.take();
        self.number = None;
        match (number, mode, bin) {
            (Some(number), Some(mode), Some(bin)) => {
                let t = RawCueTrack {
                    number,
                    mode,
                    index00_lba: self.index00,
                    start_lba: self.lba,
                    bin,
                    session: self.session,
                };
                out.push(t);
                assert(raw_views(out@) =~= raw_views(old(out)@).push(t@));
                assert(raw_views(out@) =~= raw_views(old(out)@) + seq![t@]);
                assert(out@.drop_last() =~= old(out)@);
            },
            _ => {
                assert(raw_views(out@) =~= raw_views(old(out)@) + Seq::empty());
            },
        }
        self.index00 = 0;
        self.lba = 0;
    }
}

fn read_word_number(l: &CueLine, k: usize) -> (r: Option<u32>)
    ensures
        r == word_number(l@, k as int),
{
    let chars = text::chars_of(l.text.as_str());
    let w = text::split_words(chars.as_slice());
    let ghost ws = text::words(l@.text);
    assert(ws.len() == w@.len());
    if k < w.len() {
        assert(ws[k as int] == w@[k as int]@);
        text::read_u32(w[k].as_slice())
    } else {
        None
    }
}

/// Reads the tracks of a sheet; `None` where it holds a time beyond 64 bits.
pub fn read_raw_tracks(lines: &Vec<CueLine>) -> (r: Option<Vec<RawCueTrack>>)
    ensures
        r is None <==> list_fault(line_views(lines@), 0),
        r matches Some(v) ==> raw_views(v@) == raw_tracks(line_views(lines@), 0, list_fresh())
            && forall|k: int|
            0 <= k < v@.len() ==> (#[trigger] v@[k]).bin < cue_names(line_views(lines@), 0).len(),
{
    let ghost ls = line_views(lines@);
    let ghost whole = raw_tracks(ls, 0, list_fresh());
    let ghost total = cue_names(ls, 0).len();
    let mut out: Vec<RawCueTrack> = Vec::new();
    let mut st = Pending {
        files: 0,
        session: 1,
        bin: None,
        number: None,
        mode: None,
        index00: 0,
        lba: 0,
    };
    assert(raw_views(out@) + whole =~= whole);
    let mut i: usize = 0;
    while i < lines.len()
        invariant
            i <= lines@.len(),
            ls == line_views(lines@),
            total == cue_names(ls, 0).len(),
            st.files <= i,
            st.files == files_before(ls, i as int),
            st.bin matches Some(b) ==> b < st.files,
            forall|k: int| 0 <= k < out@.len() ==> (#[trigger] out@[k]).bin < total,
            whole == raw_tracks(ls, 0, list_fresh()),
            whole == raw_views(out@) + raw_tracks(ls, i as int, st.state()),
            list_fault(ls, 0) == list_fault(ls, i as int),
        decreases lines@.len() - i,
    {
        assert(ls[i as int] == lines@[i as int]@);
        let l = &lines[i];
        let ghost prior = out@;
        let ghost before = st.state();
        let session = text::begins(l.upper.as_slice(), "REM SESSION ");
        let file = text::begins(l.upper.as_slice(), "FILE ");
        let track = text::begins(l.upper.as_slice(), "TRACK ");
        assert(!(session && file)) by {
            reveal_strlit("REM SESSION ");
            reveal_strlit("FILE ");
            if session && file {
                let u = l@.upper;
                assert(u.subrange(0, 12)[0] == u.subrange(0, 5)[0]);
            }
        }
        if session || file || track {
            st.flush(&mut out);
            assert forall|k: int| 0 <= k < out@.len() implies (#[trigger] out@[k]).bin < total by {
                if k < prior.len() && out@ != prior {
                    assert(out@.drop_last()[k] == out@[k]);
                }
            }
        }
        if session {
            if let Some(n) = read_word_number(l, 2) {
                st.session = n;
            }
        } else if file {
            if text::extract_quoted(l.text.as_str()).is_some() {
                st.bin = Some(st.files);
                st.files = st.files + 1;
            }
        } else if track {
            st.number = read_word_number(l, 1);
            st.mode = match &l.mode {
                Some(m) => Some(m.clone()),
                None => None,
            };
        } else if text::begins(l.upper.as_slice(), "INDEX ") {
            match read_index(l) {
                Index::Fault => {
                    return None;
                },
                Index::Gap(t) => {
                    st.index00 = match t {
                        Some(v) => v,
                        None => 0,
                    };
                },
                Index::Start(t) => {
                    if let Some(v) = t {
                        st.lba = v;
                    }
                },
                Index::Other => {},
            }
        }
        proof {
            assert(st.state() == list_state(before, ls[i as int]));
            let rest = raw_tracks(ls, i + 1, st.state());
            assert(raw_views(prior) + (list_flush(before) + rest) =~= (raw_views(prior)
                + list_flush(before)) + rest);
        }
        i += 1;
    }
    let ghost prior = out@;
    st.flush(&mut out);
    assert forall|k: int| 0 <= k < out@.len() implies (#[trigger] out@[k]).bin < total by {
        if k < prior.len() && out@ != prior {
            assert(out@.drop_last()[k] == out@[k]);
        }
    }
    Some(out)
}

fn ask_raw_sectors(
    log: &Log,
    cur: &mut usize,
    raw: &Vec<RawCueTrack>,
    same: &Vec<usize>,
    i: usize,
) -> (r: Step<u64>)
    requires
        log.wf(),
        i < raw@.len(),
        forall|k: int| 0 <= k < raw@.len() ==> (#[trigger] raw@[k]).bin < same@.len(),
    ensures
        r == raw_sectors(*log, raw_views(raw@), same@, i as int),
{
    let n: usize = raw.len();
    if i < n - 1 && same[raw[i + 1].bin] == same[raw[i].bin] {
        return Step::Done(raw[i + 1].start_lba.saturating_sub(raw[i].start_lba));
    }
    let q = Query::Size { file: raw[i].bin };
    match log.size(q, cur) {
        None => Step::Ask(q),
        Some(n) => {
            let total: u64 = match n {
                Some(n) => n / sector::RAW_SECTOR_SIZE,
                None => 0,
            };
            Step::Done(total.saturating_sub(raw[i].start_lba))
        },
    }
}

/// What a step to tracks holds.
pub open spec fn tracks_view(s: Step<Vec<TrackInfo>>) -> Step<Seq<TrackInfoView>> {
    match s {
        Step::Ask(q) => Step::Ask(q),
        Step::Fault => Step::Fault,
        Step::Done(v) => Step::Done(track::track_views(v@)),
    }
}

fn list_all(
    log: &Log,
    cur: &mut usize,
    raw: &Vec<RawCueTrack>,
    same: &Vec<usize>,
    paths: &Vec<String>,
) -> (r: Step<Vec<TrackInfo>>)
    requires
        log.wf(),
        same@.len() == paths@.len(),
        forall|k: int| 0 <= k < raw@.len() ==> (#[trigger] raw@[k]).bin < same@.len(),
    ensures
        tracks_view(r) == list_tracks(
            *log,
            raw_views(raw@),
            same@,
            text::string_views(paths@),
            0,
            Seq::empty(),
        ),
{
    let ghost rs = raw_views(raw@);
    let ghost ps = text::string_views(paths@);
    let mut out: Vec<TrackInfo> = Vec::new();
    assert(track::track_views(out@) =~= Seq::empty());
    let mut i: usize = 0;
    while i < raw.len()
        invariant
            i <= raw@.len(),
            log.wf(),
            rs == raw_views(raw@),
            ps == text::string_views(paths@),
            same@.len() == paths@.len(),
            forall|k: int| 0 <= k < raw@.len() ==> (#[trigger] raw@[k]).bin < same@.len(),
            list_tracks(*log, rs, same@, ps, 0, Seq::empty()) == list_tracks(
                *log,
                rs,
                same@,
                ps,
                i as int,
                track::track_views(out@),
            ),
        decreases raw@.len() - i,
    {
        assert(rs[i as int] == raw@[i as int]@);
        let num_sectors: u64 = match ask_raw_sectors(log, cur, raw, same, i) {
            Step::Ask(q) => {
                return Step::Ask(q);
            },
            Step::Fault => {
                return Step::Fault;
            },
            Step::Done(n) => n,
        };
        let rt = &raw[i];
        let is_data: bool = text::str_begins(rt.mode.as_str(), "MODE") || text::str_begins(
            rt.mode.as_str(),
            "CDI",
        );
        assert(ps[rt.bin as int] == paths@[rt.bin as int]@);
        let t = TrackInfo {
            number: rt.number,
            is_data,
            mode: rt.mode.clone(),
            start_lba: rt.start_lba,
            num_sectors,
            session: rt.session,
            bin_path: paths[rt.bin].clone(),
        };
        let ghost before = out@;
        out.push(t);
        assert(track::track_views(out@) =~= track::track_views(before).push(t@));
        i += 1;
    }
    Step::Done(out)
}

fn list_ready(log: &Log, cur: &mut usize, raw: &Vec<RawCueTrack>, paths: &Vec<String>) -> (r: Step<
    Vec<TrackInfo>,
>)
    requires
        log.wf(),
        forall|k: int| 0 <= k < raw@.len() ==> (#[trigger] raw@[k]).bin < paths@.len(),
    ensures
        tracks_view(r) == list_gaps(
            *log,
            raw_views(raw@),
            text::string_views(paths@),
            0,
            Seq::empty(),
        ),
{
    let ghost rs = raw_views(raw@);
    let ghost ps = text::string_views(paths@);
    let mut out: Vec<TrackInfo> = Vec::new();
    assert(track::track_views(out@) =~= Seq::empty());
    let mut i: usize = 0;
    while i < raw.len()
        invariant
            i <= raw@.len(),
            log.wf(),
            rs == raw_views(raw@),
            ps == text::string_views(paths@),
            forall|k: int| 0 <= k < raw@.len() ==> (#[trigger] raw@[k]).bin < paths@.len(),
            list_gaps(*log, rs, ps, 0, Seq::empty()) == list_gaps(
                *log,
                rs,
                ps,
                i as int,
                track::track_views(out@),
            ),
        decreases raw@.len() - i,
    {
        assert(rs[i as int] == raw@[i as int]@);
        let rt = &raw[i];
        if text::same_str(rt.mode.as_str(), "AUDIO") && rt.index00_lba < rt.start_lba {
            let offset: u128 = rt.index00_lba as u128 * sector::RAW_SECTOR_SIZE as u128;
            if offset > u64::MAX as u128 {
                return Step::Fault;
            }
            let q = ask_gap(rt.bin, offset as u64);
            match log.flag(q, cur) {
                None => {
                    return Step::Ask(q);
                },
                Some(found) => {
                    if found {
                        assert(ps[rt.bin as int] == paths@[rt.bin as int]@);
                        let t = TrackInfo {
                            number: 0,
                            is_data: true,
                            mode: "CDI/PREGAP".to_owned(),
                            start_lba: rt.index00_lba,
                            num_sectors: rt.start_lba - rt.index00_lba,
                            session: rt.session,
                            bin_path: paths[rt.bin].clone(),
                        };
                        let ghost before = out@;
                        out.push(t);
                        assert(track::track_views(out@) =~= track::track_views(before).push(t@));
                    }
                },
            }
        }
        i += 1;
    }
    Step::Done(out)
}

/// Lists the tracks of a sheet. `same` has a number for each file of the
/// sheet, `paths` its path.
pub fn get_cue_tracks(
    log: &Log,
    cur: &mut usize,
    lines: &Vec<CueLine>,
    same: &Vec<usize>,
    paths: &Vec<String>,
) -> (r: Step<Vec<TrackInfo>>)
    requires
        log.wf(),
        same@.len() == cue_names(line_views(lines@), 0).len(),
        paths@.len() == cue_names(line_views(lines@), 0).len(),
    ensures
        tracks_view(r) == cue_tracks(
            *log,
            line_views(lines@),
            same@,
            text::string_views(paths@),
        ),
{
    let raw: Vec<RawCueTrack> = match read_raw_tracks(lines) {
        None => {
            return Step::Fault;
        },
        Some(v) => v,
    };
    let tracks: Vec<TrackInfo> = match list_all(log, cur, &raw, same, paths) {
        Step::Ask(q) => {
            return Step::Ask(q);
        },
        Step::Fault => {
            return Step::Fault;
        },
        Step::Done(v) => v,
    };
    let mut out: Vec<TrackInfo> = match list_ready(log, cur, &raw, paths) {
        Step::Ask(q) => {
            return Step::Ask(q);
        },
        Step::Fault => {
            return Step::Fault;
        },
        Step::Done(v) => v,
    };
    let ghost gaps = track::track_views(out@);
    let ghost ts = track::track_views(tracks@);
    let mut i: usize = 0;
    while i < tracks.len()
        invariant
            i <= tracks@.len(),
            ts == track::track_views(tracks@),
            track::track_views(out@) == gaps + ts.take(i as int),
        decreases tracks@.len() - i,
    {
        let t = track::copy_track(&tracks[i]);
        let ghost before = out@;
        out.push(t);
        assert(track::track_views(out@) =~= track::track_views(before).push(t@));
        assert(ts.take(i + 1) =~= ts.take(i as int).push(ts[i as int]));
        assert(gaps + ts.take(i + 1) =~= (gaps + ts.take(i as int)).push(ts[i as int]));
        i += 1;
    }
    assert(ts.take(i as int) =~= ts);
    Step::Done(out)
}

/// A track reaches up to the next one in its file: no sector between them is
/// left out or listed twice.
pub proof fn lemma_tracks_meet(log: Log, raw: Seq<RawCueTrackView>, same: Seq<usize>, i: int)
    requires
        0 <= i,
        i + 1 < raw.len(),
        same[raw[i].bin as int] == same[raw[i + 1].bin as int],
        raw[i].start_lba <= raw[i + 1].start_lba,
    ensures
        raw_sectors(log, raw, same, i) matches Step::Done(n) && raw[i].start_lba + n
            == raw[i + 1].start_lba,
{
}

/// Each track of a sheet is listed once, in the order of the sheet, behind
/// what was listed before.
pub proof fn lemma_list_keeps_order(
    log: Log,
    raw: Seq<RawCueTrackView>,
    same: Seq<usize>,
    paths: Seq<Seq<char>>,
    i: int,
    acc: Seq<TrackInfoView>,
)
    requires
        0 <= i <= raw.len(),
    ensures
        list_tracks(log, raw, same, paths, i, acc) matches Step::Done(out) ==> out.len()
            == acc.len() + raw.len() - i && acc == out.take(acc.len() as int) && forall|k: int|
            i <= k < raw.len() ==> (#[trigger] out[acc.len() + k - i]).number == raw[k].number
                && out[acc.len() + k - i].start_lba == raw[k].start_lba
                && out[acc.len() + k - i].mode == raw[k].mode,
    decreases raw.len() - i,
{
    if i < raw.len() {
        match raw_sectors(log, raw, same, i) {
            Step::Done(n) => {
                let t = raw_listed(raw[i], n, paths[raw[i].bin as int]);
                lemma_list_keeps_order(log, raw, same, paths, i + 1, acc.push(t));
                match list_tracks(log, raw, same, paths, i, acc) {
                    Step::Done(out) => {
                        assert(out.take(acc.len() as int + 1)[acc.len() as int] == t);
                        assert(acc.push(t).take(acc.len() as int) =~= acc);
                        assert(out.take(acc.len() as int + 1).take(acc.len() as int) =~= out.take(
                            acc.len() as int,
                        ));
                        assert forall|k: int| i <= k < raw.len() implies (#[trigger] out[acc.len()
                            + k - i]).number == raw[k].number && out[acc.len() + k - i].start_lba
                            == raw[k].start_lba && out[acc.len() + k - i].mode == raw[k].mode by {
                            if k > i {
                                assert(out[acc.push(t).len() + k - (i + 1)].number == raw[k].number);
                            }
                        }
                    },
                    _ => {},
                }
            },
            _ => {},
        }
    } else {
        assert(acc.take(acc.len() as int) =~= acc);
    }
}

} // verus!
