//! Media descriptors (`.mds`), which describe the sectors of an `.mdf` file.
//! The `.mdf` file is file 0.
use crate::bytes;
use crate::device::{Log, Query, Step};
use crate::error::DiscError;
use crate::sector;
use crate::sort;
use crate::track::{DataTrack, TrackInfo, TrackInfoView, copy_track};
use crate::track;
use vstd::prelude::*;

verus! {

/// Bytes that describe one track.
pub const MDS_TRACK_BLOCK_SIZE: u64 = 80;

/// Bytes that describe one session.
pub const MDS_SESSION_BLOCK_SIZE: u64 = 24;

/// The letters `MEDIA DESCRIPTOR`.
pub open spec fn media_descriptor() -> Seq<u8> {
    seq![
        0x4du8,
        0x45,
        0x44,
        0x49,
        0x41,
        0x20,
        0x44,
        0x45,
        0x53,
        0x43,
        0x52,
        0x49,
        0x50,
        0x54,
        0x4f,
        0x52,
    ]
}

/// Whether `d` begins with the letters `MEDIA DESCRIPTOR`.
pub fn has_signature(d: &[u8]) -> (r: bool)
    ensures
        r == bytes::bytes_at(d@, 0, media_descriptor()),
{
    let p: [u8; 16] = [
        0x4d,
        0x45,
        0x44,
        0x49,
        0x41,
        0x20,
        0x44,
        0x45,
        0x53,
        0x43,
        0x52,
        0x49,
        0x50,
        0x54,
        0x4f,
        0x52,
    ];
    assert(p@ =~= media_descriptor());
    bytes::has_bytes(d, 0, &p)
}

/// `d` can be a media descriptor: it is long enough and has the signature.
pub open spec fn is_mds(d: Seq<u8>) -> bool {
    d.len() >= 0x60 && bytes::bytes_at(d, 0, media_descriptor())
}

/// The medium is a DVD: its `.mdf` file holds plain 2048-byte sectors.
pub open spec fn is_dvd(d: Seq<u8>) -> bool {
    d[0x12] >= 0x10
}

/// Where track block `i` of the blocks at `at` begins.
pub open spec fn block_at(at: int, i: int) -> int {
    at + i * MDS_TRACK_BLOCK_SIZE
}

/// The block at `b` is of a track: its point is 1 to 99.
pub open spec fn is_track_block(d: Seq<u8>, b: int) -> bool {
    1 <= d[b + 4] <= 99
}

/// A mode byte of a track in mode 2.
pub open spec fn is_mode2(mode: u8) -> bool {
    mode == 2 || mode == 3 || mode == 4
}

/// How many of `n` bytes of a file make whole sectors; 0 where the length is
/// not known.
pub open spec fn whole_sectors(size: Option<u64>, sector: int) -> int {
    match size {
        Some(n) => n as int / sector,
        None => 0,
    }
}

/// Among the `n` track blocks at `at`, from block `i` on: the offset in the
/// `.mdf` file of the first data track, and where the user data of its sectors
/// begins. Blocks beyond the descriptor's end are not looked at.
pub open spec fn mds_data_block(d: Seq<u8>, at: int, n: int, i: int) -> Option<(u64, u64)>
    decreases n - i,
{
    let b = block_at(at, i);
    if i >= n || b + MDS_TRACK_BLOCK_SIZE > d.len() {
        None
    } else if !is_track_block(d, b) || d[b] == 0 {
        mds_data_block(d, at, n, i + 1)
    } else {
        Some(
            (
                bytes::le64(d, b + 0x20) as u64,
                if is_mode2(d[b]) {
                    24
                } else {
                    16
                },
            ),
        )
    }
}

/// A data track that begins at `offset`.
pub open spec fn raw_track(offset: u64, udo: u64, lba: u64) -> DataTrack {
    DataTrack {
        bin: 0,
        track_offset: offset,
        user_data_offset: udo,
        stride: sector::RAW_SECTOR_SIZE,
        lba_offset: lba,
        descramble: false,
        sector_count: 0,
    }
}

/// The one track of a DVD.
pub open spec fn dvd_track(sectors: u64) -> DataTrack {
    DataTrack {
        bin: 0,
        track_offset: 0,
        user_data_offset: 0,
        stride: sector::DATA_SECTOR_SIZE,
        lba_offset: 0,
        descramble: false,
        sector_count: sectors,
    }
}

/// The data track of a descriptor: all of a DVD, else the first data track of
/// the first session.
pub open spec fn mds_image(log: Log, d: Seq<u8>) -> Step<Result<DataTrack, DiscError>> {
    let exists_q = Query::Exists { file: 0 };
    let size_q = Query::Size { file: 0 };
    let session = bytes::le32(d, 0x4c);
    if !is_mds(d) {
        Step::Done(Err(DiscError::MdsInvalid))
    } else {
        match log.known(exists_q) {
            None => Step::Ask(exists_q),
            Some(there) => if !there.flag() {
                Step::Done(Err(DiscError::MdsMdfMissing))
            } else if is_dvd(d) {
                match log.known(size_q) {
                    None => Step::Ask(size_q),
                    Some(n) => Step::Done(Ok(dvd_track(whole_sectors(n.size(), 2048) as u64))),
                }
            } else if session + 0x18 > d.len() {
                Step::Done(Err(DiscError::MdsSessionOffset))
            } else {
                match mds_data_block(
                    d,
                    bytes::le32(d, session + 0x14),
                    d[session + 0x0a] as int,
                    0,
                ) {
                    None => Step::Done(Err(DiscError::MdsNoDataTrack)),
                    Some((offset, udo)) => match sector::lba_at(log, 0, offset) {
                        Step::Ask(q) => Step::Ask(q),
                        Step::Fault => Step::Fault,
                        Step::Done(lba) => Step::Done(Ok(raw_track(offset, udo, lba))),
                    },
                }
            },
        }
    }
}

fn mode2(mode: u8) -> (r: bool)
    ensures
        r == is_mode2(mode),
{
    mode == 2 || mode == 3 || mode == 4
}

fn find_data_block(d: &[u8], at: u32, n: u8) -> (r: Option<(u64, u64)>)
    ensures
        r == mds_data_block(d@, at as int, n as int, 0),
{
    let len: u64 = d.len() as u64;
    assert(d@.len() == d.len());
    let mut i: u8 = 0;
    while i < n
        invariant
            i <= n,
            len == d@.len(),
            d@.len() <= usize::MAX,
            mds_data_block(d@, at as int, n as int, 0) == mds_data_block(
                d@,
                at as int,
                n as int,
                i as int,
            ),
        decreases n - i,
    {
        let b: u64 = at as u64 + i as u64 * MDS_TRACK_BLOCK_SIZE;
        if b + MDS_TRACK_BLOCK_SIZE > len {
            return None;
        }
        let b: usize = b as usize;
        let point: u8 = d[b + 4];
        if 1 <= point && point <= 99 && d[b] != 0 {
            let udo: u64 = if mode2(d[b]) {
                24
            } else {
                16
            };
            return Some((bytes::read_u64_le(d, b + 0x20), udo));
        }
        i += 1;
    }
    None
}

fn valid(d: &[u8]) -> (r: bool)
    ensures
        r == is_mds(d@),
{
    d.len() >= 0x60 && has_signature(d)
}

/// Finds the data track of a descriptor.
pub fn parse_mds_for_data_track(log: &Log, cur: &mut usize, d: &[u8]) -> (r: Step<
    Result<DataTrack, DiscError>,
>)
    requires
        log.wf(),
    ensures
        r == mds_image(*log, d@),
{
    if !valid(d) {
        return Step::Done(Err(DiscError::MdsInvalid));
    }
    let exists_q = Query::Exists { file: 0 };
    match log.flag(exists_q, cur) {
        None => {
            return Step::Ask(exists_q);
        },
        Some(there) => {
            if !there {
                return Step::Done(Err(DiscError::MdsMdfMissing));
            }
        },
    }
    if d[0x12] >= 0x10 {
        let size_q = Query::Size { file: 0 };
        return match log.size(size_q, cur) {
            None => Step::Ask(size_q),
            Some(n) => {
                let sectors: u64 = match n {
                    Some(n) => n / 2048,
                    None => 0,
                };
                Step::Done(
                    Ok(
                        DataTrack {
                            bin: 0,
                            track_offset: 0,
                            user_data_offset: 0,
                            stride: sector::DATA_SECTOR_SIZE,
                            lba_offset: 0,
                            descramble: false,
                            sector_count: sectors,
                        },
                    ),
                )
            },
        };
    }
    let session: u32 = bytes::read_u32_le(d, 0x4c);
    if session as u64 + 0x18 > d.len() as u64 {
        return Step::Done(Err(DiscError::MdsSessionOffset));
    }
    let at: u32 = bytes::read_u32_le(d, session as usize + 0x14);
    match find_data_block(d, at, d[session as usize + 0x0a]) {
        None => Step::Done(Err(DiscError::MdsNoDataTrack)),
        Some((offset, udo)) => match sector::ask_lba(log, cur, 0, offset) {
            Step::Ask(q) => Step::Ask(q),
            Step::Fault => Step::Fault,
            Step::Done(lba) => Step::Done(
                Ok(
                    DataTrack {
                        bin: 0,
                        track_offset: offset,
                        user_data_offset: udo,
                        stride: sector::RAW_SECTOR_SIZE,
                        lba_offset: lba,
                        descramble: false,
                        sector_count: 0,
                    },
                ),
            ),
        },
    }
}

// ── The track list ───────────────────────────────────────────────────────────

/// The name of a mode.
pub open spec fn mode_name(mode: u8) -> Seq<char> {
    if mode == 0 {
        "AUDIO"@
    } else if is_mode2(mode) {
        "MODE2/2352"@
    } else {
        "MODE1/2352"@
    }
}

fn mode_string(mode: u8) -> (r: String)
    ensures
        r@ == mode_name(mode),
{
    if mode == 0 {
        "AUDIO".to_owned()
    } else if mode2(mode) {
        "MODE2/2352".to_owned()
    } else {
        "MODE1/2352".to_owned()
    }
}

/// The sector number that the time in the block at `b` stands for.
pub open spec fn block_lba(d: Seq<u8>, b: int) -> int {
    (d[b + 8] * 60 + d[b + 9]) * 75 + d[b + 10]
}

/// The number of sectors of the track whose block is at `b`: as the block
/// tells, else up to the end of the `.mdf` file of `total` sectors.
pub open spec fn block_sectors(d: Seq<u8>, b: int, total: int) -> int {
    let n = bytes::le32(d, b + 0x28);
    if n > 0 {
        n
    } else if total > block_lba(d, b) {
        total - block_lba(d, b)
    } else {
        0
    }
}

/// The track that the block at `b` describes.
pub open spec fn block_track(
    d: Seq<u8>,
    b: int,
    session: u32,
    total: int,
    path: Seq<char>,
) -> TrackInfoView {
    TrackInfoView {
        number: d[b + 4] as u32,
        is_data: d[b] != 0,
        mode: mode_name(d[b]),
        start_lba: block_lba(d, b) as u64,
        num_sectors: block_sectors(d, b, total) as u64,
        session,
        bin_path: path,
    }
}

/// The tracks among the `n` blocks at `at`, from block `i` on.
pub open spec fn session_tracks(
    d: Seq<u8>,
    at: int,
    n: int,
    i: int,
    session: u32,
    total: int,
    path: Seq<char>,
) -> Seq<TrackInfoView>
    decreases n - i,
{
    let b = block_at(at, i);
    if i >= n || b + MDS_TRACK_BLOCK_SIZE > d.len() {
        Seq::empty()
    } else {
        let rest = session_tracks(d, at, n, i + 1, session, total, path);
        if is_track_block(d, b) {
            seq![block_track(d, b, session, total, path)] + rest
        } else {
            rest
        }
    }
}

/// The number of session `s` whose block is at `p`: as the block tells, else
/// by its place.
pub open spec fn session_number(d: Seq<u8>, p: int, s: int) -> u32 {
    if bytes::le16(d, p + 6) > 0 {
        bytes::le16(d, p + 6) as u32
    } else {
        (s + 1) as u32
    }
}

/// The tracks of the sessions from `s` on, of `n` sessions whose blocks begin
/// at `first`. Blocks beyond the descriptor's end are not looked at.
pub open spec fn all_tracks(
    d: Seq<u8>,
    first: int,
    n: int,
    s: int,
    total: int,
    path: Seq<char>,
) -> Seq<TrackInfoView>
    decreases n - s,
{
    let p = first + s * MDS_SESSION_BLOCK_SIZE;
    if s >= n || p + MDS_SESSION_BLOCK_SIZE > d.len() {
        Seq::empty()
    } else {
        session_tracks(
            d,
            bytes::le32(d, p + 0x14),
            d[p + 0x0a] as int,
            0,
            session_number(d, p, s),
            total,
            path,
        ) + all_tracks(d, first, n, s + 1, total, path)
    }
}

/// The number of sessions: one where the descriptor names none.
pub open spec fn session_count(d: Seq<u8>) -> int {
    if bytes::le16(d, 0x14) == 0 {
        1
    } else {
        bytes::le16(d, 0x14)
    }
}

/// The track numbers, as sort keys.
pub open spec fn number_keys(tracks: Seq<TrackInfoView>) -> Seq<Seq<u32>> {
    tracks.map_values(|t: TrackInfoView| seq![t.number])
}

/// The order of tracks by their numbers is a stable order.
pub open spec fn is_ordered(tracks: Seq<TrackInfoView>) -> bool {
    sort::is_stable_order(number_keys(tracks), sort::the_order(number_keys(tracks)))
}

/// The tracks, sorted by their numbers.
pub open spec fn by_number(tracks: Seq<TrackInfoView>) -> Seq<TrackInfoView> {
    sort::arranged(tracks, sort::the_order(number_keys(tracks)))
}

/// The one track of a DVD, as it is listed.
pub open spec fn dvd_listed(sectors: u64, path: Seq<char>) -> TrackInfoView {
    TrackInfoView {
        number: 1,
        is_data: true,
        mode: "MODE1/2048"@,
        start_lba: 0,
        num_sectors: sectors,
        session: 1,
        bin_path: path,
    }
}

/// The tracks of all sessions of a CD, session by session.
pub open spec fn cd_tracks(d: Seq<u8>, size: Option<u64>, path: Seq<char>) -> Seq<TrackInfoView> {
    all_tracks(
        d,
        bytes::le32(d, 0x4c),
        session_count(d),
        0,
        whole_sectors(size, 2352),
        path,
    )
}

/// The tracks of a descriptor whose `.mdf` file is at `path`: one for a DVD,
/// else those of all sessions sorted by their numbers.
pub open spec fn mds_tracks(log: Log, d: Seq<u8>, path: Seq<char>) -> Step<
    Result<Seq<TrackInfoView>, DiscError>,
> {
    let q = Query::Size { file: 0 };
    if !is_mds(d) {
        Step::Done(Err(DiscError::MdsInvalid))
    } else {
        match log.known(q) {
            None => Step::Ask(q),
            Some(n) => Step::Done(
                Ok(
                    if is_dvd(d) {
                        seq![dvd_listed(whole_sectors(n.size(), 2048) as u64, path)]
                    } else {
                        by_number(cd_tracks(d, n.size(), path))
                    },
                ),
            ),
        }
    }
}

fn read_session(
    d: &[u8],
    at: u32,
    n: u8,
    session: u32,
    total: u64,
    path: &str,
    out: &mut Vec<TrackInfo>,
)
    ensures
        track::track_views(final(out)@) == track::track_views(old(out)@) + session_tracks(
            d@,
            at as int,
            n as int,
            0,
            session,
            total as int,
            path@,
        ),
{
    let len: u64 = d.len() as u64;
    assert(d@.len() == d.len());
    let ghost whole = session_tracks(d@, at as int, n as int, 0, session, total as int, path@);
    let ghost before = track::track_views(out@);
    let mut i: u8 = 0;
    while i < n
        invariant
            i <= n,
            len == d@.len(),
            d@.len() <= usize::MAX,
            whole == session_tracks(d@, at as int, n as int, 0, session, total as int, path@),
            before == track::track_views(old(out)@),
            before + whole == track::track_views(out@) + session_tracks(
                d@,
                at as int,
                n as int,
                i as int,
                session,
                total as int,
                path@,
            ),
        decreases n - i,
    {
        let b: u64 = at as u64 + i as u64 * MDS_TRACK_BLOCK_SIZE;
        if b + MDS_TRACK_BLOCK_SIZE > len {
            assert(track::track_views(out@) + Seq::<TrackInfoView>::empty() == track::track_views(
                out@,
            ));
            return;
        }
        let b: usize = b as usize;
        let point: u8 = d[b + 4];
        if 1 <= point && point <= 99 {
            let lba: u64 = (d[b + 8] as u64 * 60 + d[b + 9] as u64) * 75 + d[b + 10] as u64;
            let told: u32 = bytes::read_u32_le(d, b + 0x28);
            let num_sectors: u64 = if told > 0 {
                told as u64
            } else {
                total.saturating_sub(lba)
            };
            let t = TrackInfo {
                number: point as u32,
                is_data: d[b] != 0,
                mode: mode_string(d[b]),
                start_lba: lba,
                num_sectors,
                session,
                bin_path: path.to_owned(),
            };
            let ghost prior = out@;
            let ghost rest = session_tracks(
                d@,
                at as int,
                n as int,
                i + 1,
                session,
                total as int,
                path@,
            );
            out.push(t);
            assert(track::track_views(out@) =~= track::track_views(prior).push(t@));
            assert(t@ == block_track(d@, b as int, session, total as int, path@));
            assert(track::track_views(prior) + (seq![t@] + rest) == track::track_views(out@)
                + rest);
        }
        i += 1;
    }
    assert(track::track_views(out@) + Seq::<TrackInfoView>::empty() == track::track_views(out@));
}

fn read_sessions(d: &[u8], first: u32, n: u16, total: u64, path: &str) -> (out: Vec<TrackInfo>)
    ensures
        track::track_views(out@) == all_tracks(d@, first as int, n as int, 0, total as int, path@),
{
    let len: u64 = d.len() as u64;
    assert(d@.len() == d.len());
    let mut out: Vec<TrackInfo> = Vec::new();
    let ghost whole = all_tracks(d@, first as int, n as int, 0, total as int, path@);
    let mut s: u16 = 0;
    assert(track::track_views(out@) + whole =~= whole);
    while s < n
        invariant
            s <= n,
            len == d@.len(),
            d@.len() <= usize::MAX,
            whole == all_tracks(d@, first as int, n as int, 0, total as int, path@),
            whole == track::track_views(out@) + all_tracks(
                d@,
                first as int,
                n as int,
                s as int,
                total as int,
                path@,
            ),
        decreases n - s,
    {
        let p: u64 = first as u64 + s as u64 * MDS_SESSION_BLOCK_SIZE;
        if p + MDS_SESSION_BLOCK_SIZE > len {
            assert(track::track_views(out@) + Seq::<TrackInfoView>::empty() == track::track_views(
                out@,
            ));
            return out;
        }
        let p: usize = p as usize;
        let told: u16 = bytes::read_u16_le(d, p + 6);
        let session: u32 = if told > 0 {
            told as u32
        } else {
            s as u32 + 1
        };
        let at: u32 = bytes::read_u32_le(d, p + 0x14);
        let ghost prior = track::track_views(out@);
        read_session(d, at, d[p + 0x0a], session, total, path, &mut out);
        proof {
            let own = session_tracks(
                d@,
                at as int,
                d@[p + 0x0a] as int,
                0,
                session,
                total as int,
                path@,
            );
            let rest = all_tracks(d@, first as int, n as int, s + 1, total as int, path@);
            assert(prior + (own + rest) == (prior + own) + rest);
        }
        s += 1;
    }
    assert(track::track_views(out@) + Seq::<TrackInfoView>::empty() == track::track_views(out@));
    out
}

/// Sorts tracks by their numbers; tracks with equal numbers keep their order.
pub fn sort_by_number(tracks: &Vec<TrackInfo>) -> (r: Vec<TrackInfo>)
    ensures
        track::track_views(r@) == by_number(track::track_views(tracks@)),
        is_ordered(track::track_views(tracks@)),
{
    let ghost views = track::track_views(tracks@);
    let mut keys: Vec<Vec<u32>> = Vec::new();
    let mut i: usize = 0;
    while i < tracks.len()
        invariant
            i <= tracks@.len(),
            views == track::track_views(tracks@),
            sort::key_views(keys@) == number_keys(views).take(i as int),
        decreases tracks@.len() - i,
    {
        let mut k: Vec<u32> = Vec::new();
        k.push(tracks[i].number);
        assert(k@ =~= seq![views[i as int].number]);
        let ghost prior = keys@;
        keys.push(k);
        assert(sort::key_views(keys@) =~= sort::key_views(prior).push(k@));
        assert(number_keys(views).take(i + 1) =~= number_keys(views).take(i as int).push(
            number_keys(views)[i as int],
        ));
        i += 1;
    }
    assert(number_keys(views).take(i as int) =~= number_keys(views));
    let order = sort::stable_order(&keys);
    let mut r: Vec<TrackInfo> = Vec::new();
    let mut j: usize = 0;
    while j < order.len()
        invariant
            j <= order@.len(),
            views == track::track_views(tracks@),
            forall|i: int| 0 <= i < order@.len() ==> (#[trigger] order@[i]) < tracks@.len(),
            track::track_views(r@) == sort::arranged(views, order@).take(j as int),
        decreases order@.len() - j,
    {
        let t = copy_track(&tracks[order[j]]);
        let ghost prior = r@;
        r.push(t);
        assert(track::track_views(r@) =~= track::track_views(prior).push(t@));
        assert(sort::arranged(views, order@).take(j + 1) =~= sort::arranged(views, order@).take(
            j as int,
        ).push(sort::arranged(views, order@)[j as int]));
        j += 1;
    }
    assert(sort::arranged(views, order@).take(j as int) =~= sort::arranged(views, order@));
    r
}

/// Lists the tracks of a descriptor whose `.mdf` file is at `path`.
pub fn get_mds_track_list(log: &Log, cur: &mut usize, d: &[u8], path: &str) -> (r: Step<
    Result<Vec<TrackInfo>, DiscError>,
>)
    requires
        log.wf(),
    ensures
        track::listed(r) == mds_tracks(*log, d@, path@),
        r matches Step::Done(Ok(_)) ==> is_dvd(d@) || is_ordered(
            cd_tracks(d@, log.known(Query::Size { file: 0 })->0.size(), path@),
        ),
{
    if !valid(d) {
        return Step::Done(Err(DiscError::MdsInvalid));
    }
    let q = Query::Size { file: 0 };
    let size: Option<u64> = match log.size(q, cur) {
        None => {
            return Step::Ask(q);
        },
        Some(n) => n,
    };
    if d[0x12] >= 0x10 {
        let sectors: u64 = match size {
            Some(n) => n / 2048,
            None => 0,
        };
        let t = TrackInfo {
            number: 1,
            is_data: true,
            mode: "MODE1/2048".to_owned(),
            start_lba: 0,
            num_sectors: sectors,
            session: 1,
            bin_path: path.to_owned(),
        };
        let mut out: Vec<TrackInfo> = Vec::new();
        out.push(t);
        assert(track::track_views(out@) =~= seq![dvd_listed(sectors, path@)]);
        return Step::Done(Ok(out));
    }
    let total: u64 = match size {
        Some(n) => n / 2352,
        None => 0,
    };
    let told: u16 = bytes::read_u16_le(d, 0x14);
    let n: u16 = if told == 0 {
        1
    } else {
        told
    };
    let all = read_sessions(d, bytes::read_u32_le(d, 0x4c), n, total, path);
    Step::Done(Ok(sort_by_number(&all)))
}

} // verus!
