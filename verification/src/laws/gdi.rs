//! GD-ROM index files.
use crate::device::{Log, Step};
use crate::error::DiscError;
use crate::gdi;
use crate::gdi::GdiRowView;
use crate::laws;
use crate::laws::{sector, volume};
use crate::text;
use crate::track::{DataTrack, TrackInfoView};
use vstd::prelude::*;

verus! {

// ── Rows ─────────────────────────────────────────────────────────────────────

/// The word is a number of at most `max`.
pub open spec fn is_number(w: Seq<char>, max: nat) -> bool {
    text::parse_unsigned(w, max) is Some
}

/// A line of fewer than five words is no row, nor is one where start, kind or sector
/// size are no numbers. A row whose first word is no number has none.
pub proof fn lemma_no_row(line: Seq<char>, w: Seq<Seq<char>>)
    requires
        text::words(line) == w,
    ensures
        gdi::gdi_row(line) is Some <==> {
            &&& w.len() >= 5
            &&& is_number(w[1], 0xffff_ffff_ffff_ffff)
            &&& is_number(w[2], 0xffff_ffff)
            &&& is_number(w[3], 0xffff_ffff_ffff_ffff)
        },
        gdi::gdi_row(line) matches Some(r) ==> (r.number is Some <==> is_number(w[0], 0xffff_ffff)),
{
}

/// A line with these five words is a row: the number of the track, its sector, 4
/// for data or 0 for audio, the bytes of a sector, and the name of its file.
pub proof fn lemma_row(
    line: Seq<char>,
    w: Seq<Seq<char>>,
    number: u32,
    lba: u64,
    kind: u32,
    size: u64,
    name: Seq<char>,
)
    requires
        text::words(line) == w,
        w.len() >= 5,
        text::parse_unsigned(w[0], 0xffff_ffff) == Some(number as nat),
        text::parse_unsigned(w[1], 0xffff_ffff_ffff_ffff) == Some(lba as nat),
        text::parse_unsigned(w[2], 0xffff_ffff) == Some(kind as nat),
        text::parse_unsigned(w[3], 0xffff_ffff_ffff_ffff) == Some(size as nat),
        w[4] == name || w[4] == seq!['"'] + name + seq!['"'],
        name.len() > 0,
        name[0] != '"',
        name.last() != '"',
    ensures
        gdi::gdi_row(line) matches Some(r) && r.number == Some(number) && r.start_lba == lba
            && r.kind == kind && r.sector_size == size && r.file == name,
{
    let s = w[4];
    reveal_with_fuel(text::run_end, 3);
    reveal_with_fuel(text::run_start, 3);
    let front = text::trim_front(s, '"');
    if w[4] == name {
        assert(front =~= name);
        assert(text::trim_back(front, '"') =~= name);
    } else {
        assert(s[0] == '"' && s[1] == name[0]);
        assert(front =~= name + seq!['"']);
        assert(front.last() == '"' && front[front.len() - 2] == name.last());
        assert(text::trim_back(front, '"') =~= name);
    }
}

proof fn lemma_rows_from(lines: Seq<Seq<char>>, i: int) -> (of: Seq<int>)
    requires
        0 <= i <= lines.len(),
    ensures
        are_rows(lines, i, gdi::gdi_rows_from(lines, i), of),
    decreases lines.len() - i,
{
    if i == lines.len() {
        Seq::empty()
    } else {
        let rest = lemma_rows_from(lines, i + 1);
        let later = gdi::gdi_rows_from(lines, i + 1);
        let all = gdi::gdi_rows_from(lines, i);
        match gdi::gdi_row(lines[i]) {
            Some(r) => {
                let of = seq![i] + rest;
                assert forall|j: int| 0 <= j < of.len() implies i <= #[trigger] of[j] < lines.len()
                    && gdi::gdi_row(lines[of[j]]) == Some(all[j]) by {
                    if j > 0 {
                        assert(of[j] == rest[j - 1]);
                        assert(all[j] == later[j - 1]);
                    }
                }
                assert forall|k: int|
                    i <= k < lines.len() && gdi::gdi_row(#[trigger] lines[k]) is Some implies of.contains(
                k) by {
                    if k == i {
                        assert(of[0] == k);
                    } else {
                        let j = choose|j: int| 0 <= j < rest.len() && rest[j] == k;
                        assert(of[j + 1] == k);
                    }
                }
                of
            },
            None => rest,
        }
    }
}

/// The rows are the lines `of`: all from `from` on that are rows, in their order.
pub open spec fn are_rows(
    lines: Seq<Seq<char>>,
    from: int,
    rows: Seq<GdiRowView>,
    of: Seq<int>,
) -> bool {
    &&& rows.len() == of.len()
    &&& forall|j: int|
        0 <= j < of.len() ==> from <= #[trigger] of[j] < lines.len() && gdi::gdi_row(lines[of[j]])
            == Some(rows[j])
    &&& forall|i: int, j: int| 0 <= i < j < of.len() ==> of[i] < of[j]
    &&& forall|k: int|
        from <= k < lines.len() && gdi::gdi_row(#[trigger] lines[k]) is Some ==> of.contains(k)
}

proof fn lemma_first_line(lines: Seq<Seq<char>>, i: int, first: int)
    requires
        0 <= i <= first <= lines.len(),
        forall|k: int| i <= k < first ==> text::trim(#[trigger] lines[k]).len() == 0,
        first < lines.len() ==> text::trim(lines[first]).len() > 0,
    ensures
        gdi::first_line(lines, i) == first,
    decreases first - i,
{
    if i < first {
        lemma_first_line(lines, i + 1, first);
    }
}

/// An index has the rows of all its lines but the first one that is not blank,
/// which tells their number; one of blank lines alone is no index.
pub proof fn lemma_rows(s: Seq<char>, first: int) -> (of: Seq<int>)
    requires
        ({
            let lines = text::lines(s);
            &&& 0 <= first <= lines.len()
            &&& forall|k: int| 0 <= k < first ==> text::trim(#[trigger] lines[k]).len() == 0
            &&& first < lines.len() ==> text::trim(lines[first]).len() > 0
        }),
    ensures
        first == text::lines(s).len() ==> gdi::gdi_rows(s) == Err::<Seq<GdiRowView>, DiscError>(
            DiscError::GdiNoCount,
        ),
        first < text::lines(s).len() ==> (gdi::gdi_rows(s) matches Ok(rows) && are_rows(
            text::lines(s),
            first + 1,
            rows,
            of,
        )),
{
    let lines = text::lines(s);
    lemma_first_line(lines, 0, first);
    if first < lines.len() {
        lemma_rows_from(lines, first + 1)
    } else {
        Seq::empty()
    }
}

// ── The data track ───────────────────────────────────────────────────────────

/// Where the user data of the sectors of a track begins.
pub open spec fn user_data(d: Seq<u8>, size: u64) -> u64 {
    if size == 2048 || d.len() < 16 || !sector::syncs(d, 0) {
        0
    } else if d[15] == 2 {
        24
    } else {
        16
    }
}

/// The file of a row has its primary volume descriptor `n` sectors behind sector
/// 16.
pub open spec fn primary(d: Seq<u8>, row: GdiRowView, n: int) -> bool {
    volume::opens_primary(d, 0, row.sector_size, user_data(d, row.sector_size), 16 + n)
}

/// The file of a row has a primary volume descriptor where one is looked for.
pub open spec fn has_primary(d: Seq<u8>, row: GdiRowView) -> bool {
    exists|n: int| 0 <= n < 512 && #[trigger] primary(d, row, n)
}

/// The sectors that are looked at for a descriptor are within 64 bits.
pub open spec fn in_reach(row: GdiRowView) -> bool {
    24 + 528 * row.sector_size <= u64::MAX
}

/// `t` is the track of row `i`, whose file has the bytes `d`: sector 16 of it is
/// its first primary volume descriptor, where it has one.
pub open spec fn is_track(d: Seq<u8>, row: GdiRowView, i: int, t: DataTrack) -> bool {
    &&& t.bin == i
    &&& t.user_data_offset == user_data(d, row.sector_size)
    &&& t.stride == row.sector_size
    &&& t.lba_offset == row.start_lba
    &&& !t.descramble
    &&& t.sector_count * row.sector_size <= d.len() < (t.sector_count + 1) * row.sector_size
    &&& has_primary(d, row) ==> exists|n: int|
        {
            &&& 0 <= n < 512
            &&& #[trigger] primary(d, row, n)
            &&& forall|m: int| 0 <= m < n ==> !#[trigger] primary(d, row, m)
            &&& t.track_offset == n * row.sector_size
        }
    &&& !has_primary(d, row) ==> t.track_offset == 0
}

proof fn lemma_least(d: Seq<u8>, row: GdiRowView, n: int) -> (m: int)
    requires
        0 <= n < 512,
        primary(d, row, n),
    ensures
        0 <= m <= n,
        primary(d, row, m),
        forall|k: int| 0 <= k < m ==> !#[trigger] primary(d, row, k),
    decreases n,
{
    if exists|k: int| 0 <= k < n && #[trigger] primary(d, row, k) {
        let k = choose|k: int| 0 <= k < n && #[trigger] primary(d, row, k);
        lemma_least(d, row, k)
    } else {
        n
    }
}

proof fn lemma_candidate(log: Log, d: Seq<u8>, row: GdiRowView, i: usize)
    requires
        laws::shows(log, i, d),
        row.sector_size > 0,
    ensures
        gdi::gdi_candidate(log, row, i) matches Step::Done(c) ==> {
            &&& c is Some <==> row.kind != 0
            &&& c matches Some(c) ==> is_track(d, row, i as int, c.0) && c.1 == has_primary(d, row)
        },
        in_reach(row) ==> gdi::gdi_candidate(log, row, i) !is Fault,
{
    sector::lemma_format(log, i, d, 0);
    let u = user_data(d, row.sector_size);
    let size = row.sector_size;
    if row.kind != 0 && !(gdi::gdi_candidate(log, row, i) is Ask) {
        assert(gdi::gdi_udo(log, i, size) == Step::Done(u));
        assert(u <= 24);
        let n = d.len() as u64 / size;
        assert(n * size <= d.len() < (n + 1) * size) by (nonlinear_arith)
            requires
                n == d.len() as u64 / size,
                size > 0,
                d.len() <= u64::MAX,
        ;
        if has_primary(d, row) {
            let k = choose|k: int| 0 <= k < 512 && #[trigger] primary(d, row, k);
            let m = lemma_least(d, row, k);
            assert forall|j: int| 0 <= j < m implies !#[trigger] volume::opens_primary(
                d,
                0,
                size,
                u,
                16 + j,
            ) by {
                assert(!primary(d, row, j));
            }
            volume::lemma_search_finds(log, i, d, 0, size, u, m);
        } else {
            assert forall|j: int| 0 <= j < 512 implies !#[trigger] volume::opens_primary(
                d,
                0,
                size,
                u,
                16 + j,
            ) by {
                assert(!primary(d, row, j));
            }
            volume::lemma_search_finds_nothing(log, i, d, 0, size, u);
        }
    }
}

/// The data track of an index whose files have the bytes `files`. It is the track
/// of a data row; a row with a primary volume descriptor where any data row has
/// one; and the one furthest out among those, the first of them in the index where
/// two are at the same sector. Without a data row there is none.
pub proof fn lemma_data_track(log: Log, rows: Seq<GdiRowView>, files: Seq<Seq<u8>>)
    requires
        rows.len() == files.len() <= usize::MAX,
        forall|k: int|
            0 <= k < rows.len() ==> laws::shows(log, k as usize, #[trigger] files[k])
                && rows[k].sector_size > 0,
    ensures
        gdi::gdi_choice(log, rows, 0, None) matches Step::Done(Ok(t)) ==> {
            let i = t.bin as int;
            &&& 0 <= i < rows.len()
            &&& rows[i].kind != 0
            &&& is_track(files[i], rows[i], i, t)
            &&& forall|k: int|
                0 <= k < rows.len() && (#[trigger] rows[k]).kind != 0 && has_primary(
                    files[k],
                    rows[k],
                ) ==> has_primary(files[i], rows[i])
            &&& forall|k: int|
                0 <= k < rows.len() && (#[trigger] rows[k]).kind != 0 && has_primary(
                    files[k],
                    rows[k],
                ) == has_primary(files[i], rows[i]) ==> rows[k].start_lba <= rows[i].start_lba && (k
                    < i ==> rows[k].start_lba < rows[i].start_lba)
        },
        gdi::gdi_choice(log, rows, 0, None) matches Step::Done(Err(e)) ==> e
            == DiscError::GdiNoDataTrack && forall|k: int|
            0 <= k < rows.len() ==> (#[trigger] rows[k]).kind == 0,
        (forall|k: int| 0 <= k < rows.len() ==> in_reach(#[trigger] rows[k])) ==> gdi::gdi_choice(
            log,
            rows,
            0,
            None,
        ) !is Fault,
{
    let primary = lemma_choice(log, rows, files, 0, None);
}

spec fn is_best(
    rows: Seq<GdiRowView>,
    files: Seq<Seq<u8>>,
    n: int,
    best: Option<(DataTrack, bool)>,
) -> bool {
    match best {
        None => forall|k: int| 0 <= k < n ==> (#[trigger] rows[k]).kind == 0,
        Some(b) => {
            let i = b.0.bin as int;
            &&& 0 <= i < n
            &&& rows[i].kind != 0
            &&& is_track(files[i], rows[i], i, b.0)
            &&& b.1 == has_primary(files[i], rows[i])
            &&& forall|k: int|
                0 <= k < n && (#[trigger] rows[k]).kind != 0 && has_primary(files[k], rows[k])
                    ==> b.1
            &&& forall|k: int|
                0 <= k < n && (#[trigger] rows[k]).kind != 0 && has_primary(files[k], rows[k]) == b.1
                    ==> rows[k].start_lba <= rows[i].start_lba && (k < i ==> rows[k].start_lba
                    < rows[i].start_lba)
        },
    }
}

proof fn lemma_choice(
    log: Log,
    rows: Seq<GdiRowView>,
    files: Seq<Seq<u8>>,
    i: int,
    best: Option<(DataTrack, bool)>,
) -> (primary: bool)
    requires
        rows.len() == files.len() <= usize::MAX,
        forall|k: int|
            0 <= k < rows.len() ==> laws::shows(log, k as usize, #[trigger] files[k])
                && rows[k].sector_size > 0,
        0 <= i <= rows.len(),
        is_best(rows, files, i, best),
    ensures
        gdi::gdi_choice(log, rows, i, best) matches Step::Done(Ok(t)) ==> is_best(
            rows,
            files,
            rows.len() as int,
            Some((t, primary)),
        ),
        gdi::gdi_choice(log, rows, i, best) matches Step::Done(Err(e)) ==> e
            == DiscError::GdiNoDataTrack && is_best(rows, files, rows.len() as int, None),
        (forall|k: int| 0 <= k < rows.len() ==> in_reach(#[trigger] rows[k])) ==> gdi::gdi_choice(
            log,
            rows,
            i,
            best,
        ) !is Fault,
    decreases rows.len() - i,
{
    if i < rows.len() {
        let row = rows[i];
        assert(laws::shows(log, i as usize, files[i]));
        lemma_candidate(log, files[i], row, i as usize);
        assert(rows[i] == row);
        match gdi::gdi_candidate(log, row, i as usize) {
            Step::Done(Some(c)) => {
                let next = if gdi::gdi_better(best, c) {
                    Some(c)
                } else {
                    best
                };
                assert(is_best(rows, files, i + 1, next));
                lemma_choice(log, rows, files, i + 1, next)
            },
            Step::Done(None) => {
                assert(is_best(rows, files, i + 1, best));
                lemma_choice(log, rows, files, i + 1, best)
            },
            _ => false,
        }
    } else {
        match best {
            Some((t, primary)) => primary,
            None => false,
        }
    }
}

// ── The list of tracks ───────────────────────────────────────────────────────

/// Row `i`, whose file has the bytes `d`, as `t` lists it: a data track unless its
/// kind is 0, in session 2 from sector 45000 on, from the first sector of its file
/// to the last whole one.
pub open spec fn lists(
    d: Seq<u8>,
    row: GdiRowView,
    path: Seq<char>,
    t: TrackInfoView,
) -> bool {
    &&& row.number == Some(t.number)
    &&& t.is_data == (row.kind != 0)
    &&& t.mode == (if row.kind == 0 {
        "AUDIO"@
    } else if row.sector_size == 2048 {
        "MODE1/2048"@
    } else if d.len() >= 16 && sector::syncs(d, 0) && d[15] == 2 {
        "MODE2/2352"@
    } else {
        "MODE1/2352"@
    })
    &&& t.start_lba == 0
    &&& t.num_sectors * row.sector_size <= d.len() < (t.num_sectors + 1) * row.sector_size
    &&& t.session == (if row.start_lba < 45000 {
        1u32
    } else {
        2
    })
    &&& t.bin_path == path
}

/// `out` lists the rows `of`: all before `end` that have a number, in their order.
pub open spec fn are_listed(
    rows: Seq<GdiRowView>,
    files: Seq<Seq<u8>>,
    paths: Seq<Seq<char>>,
    end: int,
    out: Seq<TrackInfoView>,
    of: Seq<int>,
) -> bool {
    &&& out.len() == of.len()
    &&& forall|j: int|
        0 <= j < of.len() ==> 0 <= #[trigger] of[j] < end && lists(
            files[of[j]],
            rows[of[j]],
            paths[of[j]],
            out[j],
        )
    &&& forall|i: int, j: int| 0 <= i < j < of.len() ==> of[i] < of[j]
    &&& forall|k: int| 0 <= k < end && (#[trigger] rows[k]).number is Some ==> of.contains(k)
}

proof fn lemma_listed(
    log: Log,
    rows: Seq<GdiRowView>,
    files: Seq<Seq<u8>>,
    paths: Seq<Seq<char>>,
    i: int,
    acc: Seq<TrackInfoView>,
    of: Seq<int>,
) -> (all: Seq<int>)
    requires
        rows.len() == files.len() <= usize::MAX,
        forall|k: int|
            0 <= k < rows.len() ==> laws::shows(log, k as usize, #[trigger] files[k])
                && rows[k].sector_size > 0,
        0 <= i <= rows.len(),
        are_listed(rows, files, paths, i, acc, of),
    ensures
        gdi::gdi_tracks_from(log, rows, paths, i, acc) !is Fault,
        gdi::gdi_tracks_from(log, rows, paths, i, acc) matches Step::Done(r) ==> match r {
            Ok(out) => out.len() > 0 && are_listed(
                rows,
                files,
                paths,
                rows.len() as int,
                out,
                all,
            ),
            Err(e) => e == DiscError::GdiNoTracks && are_listed(
                rows,
                files,
                paths,
                rows.len() as int,
                Seq::empty(),
                all,
            ),
        },
    decreases rows.len() - i,
{
    if i < rows.len() {
        let row = rows[i];
        let d = files[i];
        match row.number {
            None => lemma_listed(log, rows, files, paths, i + 1, acc, of),
            Some(number) => {
                assert(laws::shows(log, i as usize, files[i]));
                sector::lemma_format(log, i as usize, d, 0);
                match gdi::gdi_sectors(log, i as usize, row.sector_size) {
                    Step::Done(n) => match gdi::gdi_mode(log, row, i as usize) {
                        Step::Done(mode) => {
                            let t = gdi::gdi_track(row, number, mode, n, paths[i]);
                            let size = row.sector_size;
                            assert(n * size <= d.len() < (n + 1) * size) by (nonlinear_arith)
                                requires
                                    n == d.len() as u64 / size,
                                    size > 0,
                                    d.len() <= u64::MAX,
                            ;
                            assert(lists(d, row, paths[i], t));
                            let next = of.push(i);
                            assert forall|k: int|
                                0 <= k < i + 1 && (#[trigger] rows[k]).number is Some implies next.contains(
                            k) by {
                                if k < i {
                                    let j = choose|j: int| 0 <= j < of.len() && of[j] == k;
                                    assert(next[j] == k);
                                } else {
                                    assert(next[of.len() as int] == k);
                                }
                            }
                            lemma_listed(log, rows, files, paths, i + 1, acc.push(t), next)
                        },
                        _ => of,
                    },
                    _ => of,
                }
            },
        }
    } else {
        if acc.len() == 0 {
            assert(acc =~= Seq::empty());
        }
        of
    }
}

/// The tracks of an index are listed: each row with a number, once and in the order
/// of the index. An index without one is an error.
pub proof fn lemma_listed_tracks(
    log: Log,
    rows: Seq<GdiRowView>,
    files: Seq<Seq<u8>>,
    paths: Seq<Seq<char>>,
) -> (of: Seq<int>)
    requires
        rows.len() == files.len() <= usize::MAX,
        forall|k: int|
            0 <= k < rows.len() ==> laws::shows(log, k as usize, #[trigger] files[k])
                && rows[k].sector_size > 0,
    ensures
        gdi::gdi_tracks_from(log, rows, paths, 0, Seq::empty()) !is Fault,
        gdi::gdi_tracks_from(log, rows, paths, 0, Seq::empty()) matches Step::Done(r) ==> match r {
            Ok(out) => out.len() > 0 && are_listed(
                rows,
                files,
                paths,
                rows.len() as int,
                out,
                of,
            ),
            Err(e) => e == DiscError::GdiNoTracks && are_listed(
                rows,
                files,
                paths,
                rows.len() as int,
                Seq::empty(),
                of,
            ),
        },
{
    lemma_listed(log, rows, files, paths, 0, Seq::empty(), Seq::empty())
}

} // verus!
