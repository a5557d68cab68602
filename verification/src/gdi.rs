//! GD-ROM index files (`.gdi`): a text that lists the tracks of a disc, each
//! in a file of its own. The file of a listed track has the number of the
//! track's row, from 0 on.
use crate::device::{Log, Query, Step};
use crate::error::DiscError;
use crate::sector;
use crate::text;
use crate::track;
use crate::track::{DataTrack, TrackInfo, TrackInfoView};
use crate::volume;
use vstd::prelude::*;

verus! {

/// One row of an index.
#[derive(PartialEq, Eq, Debug)]
pub struct GdiRow {
    /// The track number, where the row has one.
    pub number: Option<u32>,
    /// Sector number of the track on the disc.
    pub start_lba: u64,
    /// 0 for audio.
    pub kind: u32,
    /// Bytes per sector.
    pub sector_size: u64,
    /// The name of the track's file.
    pub file: String,
}

/// What a row holds.
pub struct GdiRowView {
    pub number: Option<u32>,
    pub start_lba: u64,
    pub kind: u32,
    pub sector_size: u64,
    pub file: Seq<char>,
}

impl View for GdiRow {
    type V = GdiRowView;

    open spec fn view(&self) -> GdiRowView {
        GdiRowView {
            number: self.number,
            start_lba: self.start_lba,
            kind: self.kind,
            sector_size: self.sector_size,
            file: self.file@,
        }
    }
}

/// What a list of rows holds.
pub open spec fn row_views(rows: Seq<GdiRow>) -> Seq<GdiRowView> {
    rows.map_values(|r: GdiRow| r@)
}

/// The row that a line holds: track number, sector number, kind, sector size
/// and file name, the name without the quotes around it. A line with fewer
/// words, or without a number in the second to fourth place, is none.
pub open spec fn gdi_row(line: Seq<char>) -> Option<GdiRowView> {
    let w = text::words(line);
    if w.len() < 5 {
        None
    } else {
        match (
            text::parse_unsigned(w[1], u64::MAX as nat),
            text::parse_unsigned(w[2], u32::MAX as nat),
            text::parse_unsigned(w[3], u64::MAX as nat),
        ) {
            (Some(lba), Some(kind), Some(size)) => Some(
                GdiRowView {
                    number: match text::parse_unsigned(w[0], u32::MAX as nat) {
                        Some(n) => Some(n as u32),
                        None => None,
                    },
                    start_lba: lba as u64,
                    kind: kind as u32,
                    sector_size: size as u64,
                    file: text::trim_both(w[4], '"'),
                },
            ),
            _ => None,
        }
    }
}

/// The rows of the lines from `i` on.
pub open spec fn gdi_rows_from(lines: Seq<Seq<char>>, i: int) -> Seq<GdiRowView>
    decreases lines.len() - i,
{
    if i < 0 || i >= lines.len() {
        Seq::empty()
    } else {
        match gdi_row(lines[i]) {
            Some(r) => seq![r] + gdi_rows_from(lines, i + 1),
            None => gdi_rows_from(lines, i + 1),
        }
    }
}

/// The first line from `i` on that is not blank, or the number of lines.
pub open spec fn first_line(lines: Seq<Seq<char>>, i: int) -> int
    decreases lines.len() - i,
{
    if 0 <= i < lines.len() && text::trim(lines[i]).len() == 0 {
        first_line(lines, i + 1)
    } else {
        i
    }
}

/// The rows of an index: those behind its first line that is not blank, which
/// holds the number of tracks.
pub open spec fn gdi_rows(s: Seq<char>) -> Result<Seq<GdiRowView>, DiscError> {
    let lines = text::lines(s);
    let first = first_line(lines, 0);
    if first >= lines.len() {
        Err(DiscError::GdiNoCount)
    } else {
        Ok(gdi_rows_from(lines, first + 1))
    }
}

fn read_row(line: &[char]) -> (r: Option<GdiRow>)
    ensures
        r is Some <==> gdi_row(line@) is Some,
        r matches Some(row) ==> gdi_row(line@) == Some(row@),
{
    let w = text::split_words(line);
    let ghost ws = text::words(line@);
    assert(ws.len() == w@.len());
    if w.len() < 5 {
        return None;
    }
    assert(ws[0] == w@[0]@ && ws[1] == w@[1]@ && ws[2] == w@[2]@ && ws[3] == w@[3]@ && ws[4]
        == w@[4]@);
    let start_lba: u64 = match text::read_u64(w[1].as_slice()) {
        Some(v) => v,
        None => {
            return None;
        },
    };
    let kind: u32 = match text::read_u32(w[2].as_slice()) {
        Some(v) => v,
        None => {
            return None;
        },
    };
    let sector_size: u64 = match text::read_u64(w[3].as_slice()) {
        Some(v) => v,
        None => {
            return None;
        },
    };
    let number: Option<u32> = text::read_u32(w[0].as_slice());
    let name = text::trimmed_both(w[4].as_slice(), '"');
    let file = text::string_of(name.as_slice());
    Some(GdiRow { number, start_lba, kind, sector_size, file })
}

/// Reads the rows of an index.
pub fn read_gdi_rows(s: &str) -> (r: Result<Vec<GdiRow>, DiscError>)
    ensures
        r matches Ok(rows) ==> gdi_rows(s@) == Ok::<Seq<GdiRowView>, DiscError>(row_views(rows@)),
        r matches Err(e) ==> gdi_rows(s@) == Err::<Seq<GdiRowView>, DiscError>(e),
{
    let chars = text::chars_of(s);
    let lines = text::split_lines(chars.as_slice());
    let ghost ls = text::lines(s@);
    assert(ls.len() == lines@.len());
    let mut i: usize = 0;
    while i < lines.len() && text::trimmed(lines[i].as_slice()).len() == 0
        invariant
            i <= lines@.len(),
            ls == text::views(lines@),
            ls.len() == lines@.len(),
            first_line(ls, 0) == first_line(ls, i as int),
        decreases lines@.len() - i,
    {
        assert(ls[i as int] == lines@[i as int]@);
        i += 1;
    }
    if i >= lines.len() {
        return Err(DiscError::GdiNoCount);
    }
    assert(ls[i as int] == lines@[i as int]@);
    i += 1;
    let ghost whole = gdi_rows_from(ls, i as int);
    let mut out: Vec<GdiRow> = Vec::new();
    assert(row_views(out@) + whole =~= whole);
    while i < lines.len()
        invariant
            i <= lines@.len(),
            ls == text::views(lines@),
            ls.len() == lines@.len(),
            whole == row_views(out@) + gdi_rows_from(ls, i as int),
        decreases lines@.len() - i,
    {
        assert(ls[i as int] == lines@[i as int]@);
        match read_row(lines[i].as_slice()) {
            Some(row) => {
                let ghost before = out@;
                out.push(row);
                proof {
                    let rest = gdi_rows_from(ls, i + 1);
                    assert(row_views(out@) =~= row_views(before).push(row@));
                    assert(row_views(before) + (seq![row@] + rest) == row_views(out@) + rest);
                }
            },
            None => {},
        }
        i += 1;
    }
    assert(row_views(out@) + Seq::<GdiRowView>::empty() == row_views(out@));
    Ok(out)
}

// ── The data track ───────────────────────────────────────────────────────────

/// Where the user data of the sectors of file `i` begins.
pub open spec fn gdi_udo(log: Log, i: usize, sector_size: u64) -> Step<u64> {
    if sector_size == 2048 {
        Step::Done(0)
    } else {
        match sector::format_at(log, i, 0) {
            Step::Ask(q) => Step::Ask(q),
            Step::Fault => Step::Fault,
            Step::Done(f) => Step::Done(f.1),
        }
    }
}

/// The number of sectors in file `i`; 0 where its length is not known.
pub open spec fn gdi_sectors(log: Log, i: usize, sector_size: u64) -> Step<u64> {
    let q = Query::Size { file: i };
    match log.known(q) {
        None => Step::Ask(q),
        Some(n) => match n.size() {
            None => Step::Done(0),
            Some(n) => if sector_size == 0 {
                Step::Fault
            } else {
                Step::Done(n / sector_size)
            },
        },
    }
}

/// The data track of row `i`, and whether it has a primary volume descriptor;
/// `None` for an audio track and where the file is missing.
pub open spec fn gdi_candidate(log: Log, row: GdiRowView, i: usize) -> Step<
    Option<(DataTrack, bool)>,
> {
    let q = Query::Exists { file: i };
    if row.kind == 0 {
        Step::Done(None)
    } else {
        match log.known(q) {
            None => Step::Ask(q),
            Some(there) => if !there.flag() {
                Step::Done(None)
            } else {
                match gdi_udo(log, i, row.sector_size) {
                    Step::Ask(q) => Step::Ask(q),
                    Step::Fault => Step::Fault,
                    Step::Done(udo) => match gdi_sectors(log, i, row.sector_size) {
                        Step::Ask(q) => Step::Ask(q),
                        Step::Fault => Step::Fault,
                        Step::Done(n) => match volume::pvd_search(
                            log,
                            i,
                            0,
                            row.sector_size,
                            udo,
                            0,
                        ) {
                            Step::Ask(q) => Step::Ask(q),
                            Step::Fault => Step::Fault,
                            Step::Done(pvd) => Step::Done(
                                Some(
                                    (
                                        DataTrack {
                                            bin: i,
                                            track_offset: match pvd {
                                                Some(o) => o,
                                                None => 0,
                                            },
                                            user_data_offset: udo,
                                            stride: row.sector_size,
                                            lba_offset: row.start_lba,
                                            descramble: false,
                                            sector_count: n,
                                        },
                                        pvd is Some,
                                    ),
                                ),
                            ),
                        },
                    },
                }
            },
        }
    }
}

/// Candidate `b` is preferred to the earlier candidate `a`: a track with a
/// volume descriptor to one without, and among equals the one further out.
pub open spec fn gdi_better(a: Option<(DataTrack, bool)>, b: (DataTrack, bool)) -> bool {
    match a {
        None => true,
        Some(a) => (b.1 && !a.1) || (b.1 == a.1 && b.0.lba_offset > a.0.lba_offset),
    }
}

/// The preferred data track of the rows from `i` on, after `best`.
pub open spec fn gdi_choice(
    log: Log,
    rows: Seq<GdiRowView>,
    i: int,
    best: Option<(DataTrack, bool)>,
) -> Step<Result<DataTrack, DiscError>>
    decreases rows.len() - i,
{
    if i < 0 || i >= rows.len() {
        match best {
            Some(b) => Step::Done(Ok(b.0)),
            None => Step::Done(Err(DiscError::GdiNoDataTrack)),
        }
    } else {
        match gdi_candidate(log, rows[i], i as usize) {
            Step::Ask(q) => Step::Ask(q),
            Step::Fault => Step::Fault,
            Step::Done(None) => gdi_choice(log, rows, i + 1, best),
            Step::Done(Some(c)) => gdi_choice(
                log,
                rows,
                i + 1,
                if gdi_better(best, c) {
                    Some(c)
                } else {
                    best
                },
            ),
        }
    }
}

fn ask_udo(log: &Log, cur: &mut usize, i: usize, sector_size: u64) -> (r: Step<u64>)
    requires
        log.wf(),
    ensures
        r == gdi_udo(*log, i, sector_size),
{
    if sector_size == 2048 {
        Step::Done(0)
    } else {
        match sector::ask_format(log, cur, i, 0) {
            Step::Ask(q) => Step::Ask(q),
            Step::Fault => Step::Fault,
            Step::Done(f) => Step::Done(f.1),
        }
    }
}

fn ask_sectors(log: &Log, cur: &mut usize, i: usize, sector_size: u64) -> (r: Step<u64>)
    requires
        log.wf(),
    ensures
        r == gdi_sectors(*log, i, sector_size),
{
    let q = Query::Size { file: i };
    match log.size(q, cur) {
        None => Step::Ask(q),
        Some(None) => Step::Done(0),
        Some(Some(n)) => if sector_size == 0 {
            Step::Fault
        } else {
            Step::Done(n / sector_size)
        },
    }
}

fn ask_candidate(log: &Log, cur: &mut usize, row: &GdiRow, i: usize) -> (r: Step<
    Option<(DataTrack, bool)>,
>)
    requires
        log.wf(),
    ensures
        r == gdi_candidate(*log, row@, i),
{
    if row.kind == 0 {
        return Step::Done(None);
    }
    let q = Query::Exists { file: i };
    match log.flag(q, cur) {
        None => {
            return Step::Ask(q);
        },
        Some(there) => {
            if !there {
                return Step::Done(None);
            }
        },
    }
    let udo: u64 = match ask_udo(log, cur, i, row.sector_size) {
        Step::Ask(q) => {
            return Step::Ask(q);
        },
        Step::Fault => {
            return Step::Fault;
        },
        Step::Done(u) => u,
    };
    let n: u64 = match ask_sectors(log, cur, i, row.sector_size) {
        Step::Ask(q) => {
            return Step::Ask(q);
        },
        Step::Fault => {
            return Step::Fault;
        },
        Step::Done(n) => n,
    };
    match volume::cdi_align_to_pvd(log, cur, i, 0, row.sector_size, udo) {
        Step::Ask(q) => Step::Ask(q),
        Step::Fault => Step::Fault,
        Step::Done(pvd) => {
            let track_offset: u64 = match pvd {
                Some(o) => o,
                None => 0,
            };
            let t = DataTrack {
                bin: i,
                track_offset,
                user_data_offset: udo,
                stride: row.sector_size,
                lba_offset: row.start_lba,
                descramble: false,
                sector_count: n,
            };
            Step::Done(Some((t, pvd.is_some())))
        },
    }
}

/// Finds the data track of an index with these rows.
pub fn parse_gdi_for_data_track(log: &Log, cur: &mut usize, rows: &Vec<GdiRow>) -> (r: Step<
    Result<DataTrack, DiscError>,
>)
    requires
        log.wf(),
    ensures
        r == gdi_choice(*log, row_views(rows@), 0, None),
{
    let ghost rs = row_views(rows@);
    let mut best: Option<(DataTrack, bool)> = None;
    let mut i: usize = 0;
    while i < rows.len()
        invariant
            i <= rows@.len(),
            log.wf(),
            rs == row_views(rows@),
            gdi_choice(*log, rs, 0, None) == gdi_choice(*log, rs, i as int, best),
        decreases rows@.len() - i,
    {
        assert(rs[i as int] == rows@[i as int]@);
        match ask_candidate(log, cur, &rows[i], i) {
            Step::Ask(q) => {
                return Step::Ask(q);
            },
            Step::Fault => {
                return Step::Fault;
            },
            Step::Done(None) => {},
            Step::Done(Some(c)) => {
                let better: bool = match best {
                    None => true,
                    Some(a) => (c.1 && !a.1) || (c.1 == a.1 && c.0.lba_offset > a.0.lba_offset),
                };
                if better {
                    best = Some(c);
                }
            },
        }
        i += 1;
    }
    match best {
        Some(b) => Step::Done(Ok(b.0)),
        None => Step::Done(Err(DiscError::GdiNoDataTrack)),
    }
}

/// What the data track of an index is: a candidate with a volume descriptor
/// where there is one, and none of its kind lies further out. `best` is the
/// preferred candidate of the rows before `i`; the result tells the preferred
/// one of all.
pub proof fn lemma_gdi_choice(
    log: Log,
    rows: Seq<GdiRowView>,
    i: int,
    best: Option<(DataTrack, bool)>,
    track: DataTrack,
) -> (won: (DataTrack, bool))
    requires
        0 <= i <= rows.len(),
        rows.len() <= usize::MAX,
        gdi_choice(log, rows, i, best) == Step::Done(Ok::<DataTrack, DiscError>(track)),
    ensures
        won.0 == track,
        best == Some(won) || exists|k: int|
            i <= k < rows.len() && gdi_candidate(log, #[trigger] rows[k], k as usize)
                == Step::Done(Some(won)),
        best is Some ==> !gdi_better(Some(won), best->0),
        forall|k: int|
            i <= k < rows.len() ==> (gdi_candidate(log, #[trigger] rows[k], k as usize) matches (
            Step::Done(c)) && (c matches Some(c) ==> !gdi_better(Some(won), c))),
    decreases rows.len() - i,
{
    if i >= rows.len() {
        best->0
    } else {
        match gdi_candidate(log, rows[i], i as usize) {
            Step::Done(Some(c)) => {
                let next = if gdi_better(best, c) {
                    Some(c)
                } else {
                    best
                };
                let won = lemma_gdi_choice(log, rows, i + 1, next, track);
                assert(rows[i] == rows[i]);
                won
            },
            _ => {
                let won = lemma_gdi_choice(log, rows, i + 1, best, track);
                assert(rows[i] == rows[i]);
                won
            },
        }
    }
}

// ── The track list ───────────────────────────────────────────────────────────

/// The first sector of the high-density area, which is session 2.
pub const HIGH_DENSITY_LBA: u64 = 45000;

/// The mode of the track in file `i`.
pub open spec fn gdi_mode(log: Log, row: GdiRowView, i: usize) -> Step<Seq<char>> {
    if row.kind == 0 {
        Step::Done("AUDIO"@)
    } else if row.sector_size == 2048 {
        Step::Done("MODE1/2048"@)
    } else {
        match sector::format_at(log, i, 0) {
            Step::Ask(q) => Step::Ask(q),
            Step::Fault => Step::Fault,
            Step::Done(f) => Step::Done(
                if f.1 == 24 {
                    "MODE2/2352"@
                } else {
                    "MODE1/2352"@
                },
            ),
        }
    }
}

/// The track of row `i`, whose file is at `path`. Each track begins at the
/// first byte of its file.
pub open spec fn gdi_track(
    row: GdiRowView,
    number: u32,
    mode: Seq<char>,
    sectors: u64,
    path: Seq<char>,
) -> TrackInfoView {
    TrackInfoView {
        number,
        is_data: row.kind != 0,
        mode,
        start_lba: 0,
        num_sectors: sectors,
        session: if row.start_lba < HIGH_DENSITY_LBA {
            1
        } else {
            2
        },
        bin_path: path,
    }
}

/// The tracks of the rows from `i` on, behind the tracks `acc`. A row without
/// a track number is passed over.
pub open spec fn gdi_tracks_from(
    log: Log,
    rows: Seq<GdiRowView>,
    paths: Seq<Seq<char>>,
    i: int,
    acc: Seq<TrackInfoView>,
) -> Step<Result<Seq<TrackInfoView>, DiscError>>
    decreases rows.len() - i,
{
    if i < 0 || i >= rows.len() {
        if acc.len() == 0 {
            Step::Done(Err(DiscError::GdiNoTracks))
        } else {
            Step::Done(Ok(acc))
        }
    } else {
        match rows[i].number {
            None => gdi_tracks_from(log, rows, paths, i + 1, acc),
            Some(number) => match gdi_sectors(log, i as usize, rows[i].sector_size) {
                Step::Ask(q) => Step::Ask(q),
                Step::Fault => Step::Fault,
                Step::Done(n) => match gdi_mode(log, rows[i], i as usize) {
                    Step::Ask(q) => Step::Ask(q),
                    Step::Fault => Step::Fault,
                    Step::Done(mode) => gdi_tracks_from(
                        log,
                        rows,
                        paths,
                        i + 1,
                        acc.push(gdi_track(rows[i], number, mode, n, paths[i])),
                    ),
                },
            },
        }
    }
}

fn ask_mode(log: &Log, cur: &mut usize, row: &GdiRow, i: usize) -> (r: Step<String>)
    requires
        log.wf(),
    ensures
        match r {
            Step::Ask(q) => gdi_mode(*log, row@, i) == Step::<Seq<char>>::Ask(q),
            Step::Fault => gdi_mode(*log, row@, i) == Step::<Seq<char>>::Fault,
            Step::Done(m) => gdi_mode(*log, row@, i) == Step::Done(m@),
        },
{
    if row.kind == 0 {
        Step::Done("AUDIO".to_owned())
    } else if row.sector_size == 2048 {
        Step::Done("MODE1/2048".to_owned())
    } else {
        match sector::ask_format(log, cur, i, 0) {
            Step::Ask(q) => Step::Ask(q),
            Step::Fault => Step::Fault,
            Step::Done(f) => if f.1 == 24 {
                Step::Done("MODE2/2352".to_owned())
            } else {
                Step::Done("MODE1/2352".to_owned())
            },
        }
    }
}

/// Lists the tracks of an index with these rows, whose files are at `paths`.
pub fn get_gdi_tracks(log: &Log, cur: &mut usize, rows: &Vec<GdiRow>, paths: &Vec<String>) -> (r:
    Step<Result<Vec<TrackInfo>, DiscError>>)
    requires
        log.wf(),
        paths@.len() == rows@.len(),
    ensures
        track::listed(r) == gdi_tracks_from(
            *log,
            row_views(rows@),
            text::string_views(paths@),
            0,
            Seq::empty(),
        ),
{
    let ghost rs = row_views(rows@);
    let ghost ps = text::string_views(paths@);
    let mut out: Vec<TrackInfo> = Vec::new();
    let mut i: usize = 0;
    assert(track::track_views(out@) =~= Seq::empty());
    while i < rows.len()
        invariant
            i <= rows@.len(),
            paths@.len() == rows@.len(),
            log.wf(),
            rs == row_views(rows@),
            ps == text::string_views(paths@),
            gdi_tracks_from(*log, rs, ps, 0, Seq::empty()) == gdi_tracks_from(
                *log,
                rs,
                ps,
                i as int,
                track::track_views(out@),
            ),
        decreases rows@.len() - i,
    {
        assert(rs[i as int] == rows@[i as int]@);
        assert(ps[i as int] == paths@[i as int]@);
        let row = &rows[i];
        if let Some(number) = row.number {
            let num_sectors: u64 = match ask_sectors(log, cur, i, row.sector_size) {
                Step::Ask(q) => {
                    return Step::Ask(q);
                },
                Step::Fault => {
                    return Step::Fault;
                },
                Step::Done(n) => n,
            };
            let mode: String = match ask_mode(log, cur, row, i) {
                Step::Ask(q) => {
                    return Step::Ask(q);
                },
                Step::Fault => {
                    return Step::Fault;
                },
                Step::Done(m) => m,
            };
            let session: u32 = if row.start_lba < HIGH_DENSITY_LBA {
                1
            } else {
                2
            };
            let t = TrackInfo {
                number,
                is_data: row.kind != 0,
                mode,
                start_lba: 0,
                num_sectors,
                session,
                bin_path: paths[i].clone(),
            };
            let ghost before = out@;
            out.push(t);
            assert(track::track_views(out@) =~= track::track_views(before).push(t@));
        }
        i += 1;
    }
    if out.len() == 0 {
        Step::Done(Err(DiscError::GdiNoTracks))
    } else {
        Step::Done(Ok(out))
    }
}

} // verus!
