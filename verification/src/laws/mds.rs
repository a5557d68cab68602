//! Media descriptors.
use crate::bytes;
use crate::device::{Log, Query, Step};
use crate::error::DiscError;
use crate::laws;
use crate::laws::sector;
use crate::mds;
use crate::mdx;
use crate::sort;
use crate::track::{DataTrack, TrackInfoView};
use vstd::prelude::*;

verus! {

/// The bytes open with `MEDIA DESCRIPTOR`.
pub open spec fn is_named(d: Seq<u8>) -> bool {
    &&& laws::letters(d, 0, 0x4d, 0x45, 0x44, 0x49)
    &&& laws::letters(d, 4, 0x41, 0x20, 0x44, 0x45)
    &&& laws::letters(d, 8, 0x53, 0x43, 0x52, 0x49)
    &&& laws::letters(d, 12, 0x50, 0x54, 0x4f, 0x52)
}

proof fn lemma_named(d: Seq<u8>)
    ensures
        is_named(d) == bytes::bytes_at(d, 0, mds::media_descriptor()),
{
    let m = mds::media_descriptor();
    assert(m.len() == 16 && m[0] == 0x4d && m[1] == 0x45 && m[2] == 0x44 && m[3] == 0x49 && m[4]
        == 0x41 && m[5] == 0x20 && m[6] == 0x44 && m[7] == 0x45 && m[8] == 0x53 && m[9] == 0x43
        && m[10] == 0x52 && m[11] == 0x49 && m[12] == 0x50 && m[13] == 0x54 && m[14] == 0x4f
        && m[15] == 0x52);
    if d.len() >= 16 {
        let t = d.subrange(0, 16);
        assert(forall|k: int| 0 <= k < 16 ==> #[trigger] t[k] == d[k]);
        if is_named(d) {
            assert(t =~= m);
        }
        if t == m {
            assert(d[0] == t[0] && d[1] == t[1] && d[2] == t[2] && d[3] == t[3] && d[4] == t[4]
                && d[5] == t[5] && d[6] == t[6] && d[7] == t[7] && d[8] == t[8] && d[9] == t[9]
                && d[10] == t[10] && d[11] == t[11] && d[12] == t[12] && d[13] == t[13] && d[14]
                == t[14] && d[15] == t[15]);
        }
    }
}

// ── The data track ───────────────────────────────────────────────────────────

/// Where block `i` of the session block at `p` stands: 80 bytes each, behind the
/// offset that the session tells.
pub open spec fn block(d: Seq<u8>, p: int, i: int) -> int {
    bytes::le32(d, p + 20) + 80 * i
}

/// The session block at `p` has block `i`, and it is of a track.
pub open spec fn has_track(d: Seq<u8>, p: int, i: int) -> bool {
    &&& 0 <= i < d[p + 10]
    &&& block(d, p, i) + 80 <= d.len()
    &&& d[block(d, p, i) + 4] != 0
    &&& d[block(d, p, i) + 4] < 100
}

/// It is of a data track.
pub open spec fn has_data(d: Seq<u8>, p: int, i: int) -> bool {
    has_track(d, p, i) && d[block(d, p, i)] != 0
}

proof fn lemma_block(d: Seq<u8>, p: int, i: int, k: int)
    requires
        0 <= i <= k,
        forall|j: int| i <= j < k ==> !#[trigger] has_data(d, p, j),
    ensures
        has_data(d, p, k) ==> mds::mds_data_block(
            d,
            bytes::le32(d, p + 20),
            d[p + 10] as int,
            i,
        ) == Some(
            (
                bytes::le64(d, block(d, p, k) + 32) as u64,
                if d[block(d, p, k)] == 2 || d[block(d, p, k)] == 3 || d[block(d, p, k)] == 4 {
                    24u64
                } else {
                    16
                },
            ),
        ),
        k >= d[p + 10] ==> mds::mds_data_block(d, bytes::le32(d, p + 20), d[p + 10] as int, i) is None,
    decreases k - i,
{
    assert(mds::block_at(bytes::le32(d, p + 20), i) == block(d, p, i));
    if i < k {
        assert(!has_data(d, p, i));
        lemma_block(d, p, i + 1, k);
    }
}

/// The data track of a CD: the first data track of its first session. Its offset
/// is told by its block; the user data of its sectors begins behind 24 bytes where
/// the mode of the block is a mode 2 and behind 16 bytes else.
pub proof fn lemma_cd_track(log: Log, d: Seq<u8>, p: int, k: int)
    requires
        d.len() >= 96,
        is_named(d),
        d[18] < 16,
        p == bytes::le32(d, 76),
        p + 24 <= d.len(),
        log.known(Query::Exists { file: 0 }) matches Some(r) ==> r.flag(),
        has_data(d, p, k),
        forall|j: int| 0 <= j < k ==> !#[trigger] has_data(d, p, j),
    ensures
        mds::mds_image(log, d) !is Fault,
        mds::mds_image(log, d) matches Step::Done(r) ==> (r matches Ok(t) && {
            let b = block(d, p, k);
            &&& t.bin == 0
            &&& t.track_offset == bytes::le64(d, b + 32)
            &&& d[b] == 2 || d[b] == 3 || d[b] == 4 ==> t.user_data_offset == 24
            &&& d[b] == 1 || d[b] > 4 ==> t.user_data_offset == 16
            &&& t.stride == 2352
            &&& sector_number(log, t)
            &&& !t.descramble
            &&& t.sector_count == 0
        }),
{
    lemma_named(d);
    lemma_block(d, p, 0, k);
    let b = block(d, p, k);
    assert(0 <= bytes::le64(d, b + 32) <= u64::MAX);
}

/// The first sector of a track tells its number.
pub open spec fn sector_number(log: Log, t: DataTrack) -> bool {
    crate::sector::lba_at(log, t.bin, t.track_offset) == Step::Done(t.lba_offset)
}

/// A CD whose first session has no data track has none.
pub proof fn lemma_no_cd_track(log: Log, d: Seq<u8>, p: int)
    requires
        d.len() >= 96,
        is_named(d),
        d[18] < 16,
        p == bytes::le32(d, 76),
        p + 24 <= d.len(),
        log.known(Query::Exists { file: 0 }) matches Some(r) && r.flag(),
        forall|j: int| 0 <= j ==> !#[trigger] has_data(d, p, j),
    ensures
        mds::mds_image(log, d) == Step::Done(
            Err::<DataTrack, DiscError>(DiscError::MdsNoDataTrack),
        ),
{
    lemma_named(d);
    lemma_block(d, p, 0, d[p + 10] as int);
}

/// The data track of a DVD: the plain sectors of the whole `.mdf` file.
pub proof fn lemma_dvd_track(log: Log, d: Seq<u8>, content: Seq<u8>)
    requires
        d.len() >= 96,
        is_named(d),
        d[18] >= 16,
        laws::shows(log, 0, content),
    ensures
        mds::mds_image(log, d) matches Step::Done(r) ==> (r matches Ok(t) && {
            &&& t.bin == 0
            &&& t.track_offset == 0
            &&& t.user_data_offset == 0
            &&& t.stride == 2048
            &&& t.lba_offset == 0
            &&& !t.descramble
            &&& t.sector_count * 2048 <= content.len() < (t.sector_count + 1) * 2048
        }),
{
    lemma_named(d);
}

/// What is no descriptor, what has no `.mdf` file, and what has no session.
pub proof fn lemma_no_descriptor(log: Log, d: Seq<u8>)
    ensures
        d.len() < 96 || !is_named(d) ==> mds::mds_image(log, d) == Step::Done(
            Err::<DataTrack, DiscError>(DiscError::MdsInvalid),
        ),
        d.len() >= 96 && is_named(d) && (log.known(Query::Exists { file: 0 }) matches Some(r)
            && !r.flag()) ==> mds::mds_image(log, d) == Step::Done(
            Err::<DataTrack, DiscError>(DiscError::MdsMdfMissing),
        ),
        d.len() >= 96 && is_named(d) && d[18] < 16 && bytes::le32(d, 76) + 24 > d.len() && (
        log.known(Query::Exists { file: 0 }) matches Some(r) && r.flag()) ==> mds::mds_image(log, d)
            == Step::Done(Err::<DataTrack, DiscError>(DiscError::MdsSessionOffset)),
{
    lemma_named(d);
}

// ── The list of tracks ───────────────────────────────────────────────────────

/// The sessions that a descriptor tells; at least one.
pub open spec fn sessions(d: Seq<u8>) -> int {
    if bytes::le16(d, 20) > 0 {
        bytes::le16(d, 20)
    } else {
        1
    }
}

/// Where the block of session `s` stands: 24 bytes each.
pub open spec fn session(d: Seq<u8>, s: int) -> int {
    bytes::le32(d, 76) + 24 * s
}

/// The descriptor has block `at.1` in session `at.0`, and it is of a track.
pub open spec fn describes(d: Seq<u8>, at: (int, int)) -> bool {
    &&& 0 <= at.0 < sessions(d)
    &&& session(d, at.0) + 24 <= d.len()
    &&& has_track(d, session(d, at.0), at.1)
}

/// `t` is the track of a block: its number, its mode, the time where it begins,
/// and its sectors, where the block tells none up to the end of the `.mdf` file of
/// `total` sectors.
pub open spec fn lists(
    d: Seq<u8>,
    at: (int, int),
    total: int,
    path: Seq<char>,
    t: TrackInfoView,
) -> bool {
    let p = session(d, at.0);
    let b = block(d, p, at.1);
    let start = d[b + 8] * 60 * 75 + d[b + 9] * 75 + d[b + 10];
    let told = bytes::le32(d, b + 40);
    &&& t.number == d[b + 4]
    &&& t.is_data == (d[b] != 0)
    &&& t.mode == (if d[b] == 0 {
        "AUDIO"@
    } else if d[b] == 2 || d[b] == 3 || d[b] == 4 {
        "MODE2/2352"@
    } else {
        "MODE1/2352"@
    })
    &&& t.start_lba == start
    &&& told > 0 ==> t.num_sectors == told
    &&& told == 0 && start <= total ==> start + t.num_sectors == total
    &&& told == 0 && start > total ==> t.num_sectors == 0
    &&& bytes::le16(d, p + 6) > 0 ==> t.session == bytes::le16(d, p + 6)
    &&& bytes::le16(d, p + 6) == 0 ==> t.session == at.0 + 1
    &&& t.bin_path == path
}

/// Block `a` stands before block `b`.
pub open spec fn earlier(a: (int, int), b: (int, int)) -> bool {
    a.0 < b.0 || (a.0 == b.0 && a.1 < b.1)
}

spec fn in_session(
    d: Seq<u8>,
    s: int,
    from: int,
    total: int,
    path: Seq<char>,
    out: Seq<TrackInfoView>,
    of: Seq<int>,
) -> bool {
    &&& out.len() == of.len()
    &&& forall|k: int|
        0 <= k < of.len() ==> from <= #[trigger] of[k] && has_track(d, session(d, s), of[k])
            && lists(d, (s, of[k]), total, path, out[k])
    &&& forall|j: int, k: int| 0 <= j < k < of.len() ==> of[j] < of[k]
    &&& forall|i: int| from <= i && #[trigger] has_track(d, session(d, s), i) ==> of.contains(i)
}

proof fn lemma_session(d: Seq<u8>, s: int, i: int, total: int, path: Seq<char>) -> (of: Seq<int>)
    requires
        0 <= i,
        0 <= s < 0xffff_ffff,
        0 <= total <= u64::MAX,
    ensures
        ({
            let p = session(d, s);
            in_session(
                d,
                s,
                i,
                total,
                path,
                mds::session_tracks(
                    d,
                    bytes::le32(d, p + 20),
                    d[p + 10] as int,
                    i,
                    mds::session_number(d, p, s),
                    total,
                    path,
                ),
                of,
            )
        }),
    decreases d[session(d, s) + 10] - i,
{
    let p = session(d, s);
    let at = bytes::le32(d, p + 20);
    let n = d[p + 10] as int;
    let number = mds::session_number(d, p, s);
    let b = mds::block_at(at, i);
    assert(b == block(d, p, i));
    if i >= n || b + 80 > d.len() {
        assert forall|j: int| i <= j && #[trigger] has_track(d, p, j) implies false by {
            assert(block(d, p, j) >= block(d, p, i));
        }
        Seq::empty()
    } else {
        let rest = lemma_session(d, s, i + 1, total, path);
        let later = mds::session_tracks(d, at, n, i + 1, number, total, path);
        let all = mds::session_tracks(d, at, n, i, number, total, path);
        if mds::is_track_block(d, b) {
            let t = mds::block_track(d, b, number, total, path);
            let of = seq![i] + rest;
            assert(lists(d, (s, i), total, path, t));
            assert forall|k: int| 0 <= k < of.len() implies i <= #[trigger] of[k] && has_track(
                d,
                p,
                of[k],
            ) && lists(d, (s, of[k]), total, path, all[k]) by {
                if k > 0 {
                    assert(of[k] == rest[k - 1]);
                    assert(all[k] == later[k - 1]);
                }
            }
            assert forall|j: int| i <= j && #[trigger] has_track(d, p, j) implies of.contains(j) by {
                if j == i {
                    assert(of[0] == j);
                } else {
                    let k = choose|k: int| 0 <= k < rest.len() && rest[k] == j;
                    assert(of[k + 1] == j);
                }
            }
            of
        } else {
            assert(!has_track(d, p, i));
            rest
        }
    }
}

/// `out` lists the blocks `of`, in the order in which they stand: all those of the
/// sessions from `from` on that are of a track.
spec fn in_order(
    d: Seq<u8>,
    from: int,
    total: int,
    path: Seq<char>,
    out: Seq<TrackInfoView>,
    of: Seq<(int, int)>,
) -> bool {
    &&& out.len() == of.len()
    &&& forall|k: int|
        0 <= k < of.len() ==> from <= (#[trigger] of[k]).0 && describes(d, of[k]) && lists(
            d,
            of[k],
            total,
            path,
            out[k],
        )
    &&& forall|j: int, k: int| 0 <= j < k < of.len() ==> earlier(of[j], of[k])
    &&& forall|at: (int, int)| from <= at.0 && #[trigger] describes(d, at) ==> of.contains(at)
}

proof fn lemma_all(d: Seq<u8>, s: int, total: int, path: Seq<char>) -> (of: Seq<(int, int)>)
    requires
        0 <= s,
        0 <= total <= u64::MAX,
    ensures
        in_order(
            d,
            s,
            total,
            path,
            mds::all_tracks(d, bytes::le32(d, 76), sessions(d), s, total, path),
            of,
        ),
    decreases sessions(d) - s,
{
    let first = bytes::le32(d, 76);
    let n = sessions(d);
    let p = first + s * mds::MDS_SESSION_BLOCK_SIZE;
    assert(p == session(d, s));
    if s >= n || p + 24 > d.len() {
        assert forall|at: (int, int)| s <= at.0 && #[trigger] describes(d, at) implies false by {
            assert(session(d, at.0) >= session(d, s));
        }
        Seq::empty()
    } else {
        let own = lemma_session(d, s, 0, total, path);
        let rest = lemma_all(d, s + 1, total, path);
        let mine = mds::session_tracks(
            d,
            bytes::le32(d, p + 20),
            d[p + 10] as int,
            0,
            mds::session_number(d, p, s),
            total,
            path,
        );
        let later = mds::all_tracks(d, first, n, s + 1, total, path);
        let all = mds::all_tracks(d, first, n, s, total, path);
        let here = Seq::new(own.len(), |k: int| (s, own[k]));
        let of = here + rest;
        assert(all == mine + later);
        assert forall|k: int| 0 <= k < of.len() implies s <= (#[trigger] of[k]).0 && describes(
            d,
            of[k],
        ) && lists(d, of[k], total, path, all[k]) by {
            if k < own.len() {
                assert(of[k] == (s, own[k]));
                assert(all[k] == mine[k]);
            } else {
                assert(of[k] == rest[k - own.len()]);
                assert(all[k] == later[k - own.len()]);
            }
        }
        assert forall|j: int, k: int| 0 <= j < k < of.len() implies earlier(of[j], of[k]) by {
            if j < own.len() {
                assert(of[j] == (s, own[j]));
            } else {
                assert(of[j] == rest[j - own.len()]);
            }
            if k < own.len() {
                assert(of[k] == (s, own[k]));
            } else {
                assert(of[k] == rest[k - own.len()]);
            }
        }
        assert forall|at: (int, int)| s <= at.0 && #[trigger] describes(d, at) implies of.contains(
        at) by {
            if at.0 == s {
                assert(has_track(d, session(d, s), at.1));
                let k = choose|k: int| 0 <= k < own.len() && own[k] == at.1;
                assert(of[k] == at);
            } else {
                let k = choose|k: int| 0 <= k < rest.len() && rest[k] == at;
                assert(of[own.len() + k] == at);
            }
        }
        of
    }
}

/// `out` lists the blocks `of`: all that are of a track, each once, by the numbers
/// of their tracks, and those with the same number as they stand.
pub open spec fn are_listed(
    d: Seq<u8>,
    total: int,
    path: Seq<char>,
    out: Seq<TrackInfoView>,
    of: Seq<(int, int)>,
) -> bool {
    &&& out.len() == of.len()
    &&& forall|k: int|
        0 <= k < of.len() ==> describes(d, #[trigger] of[k]) && lists(
            d,
            of[k],
            total,
            path,
            out[k],
        )
    &&& forall|j: int, k: int|
        #![trigger of[j], of[k]]
        0 <= j < k < of.len() ==> out[j].number < out[k].number || (out[j].number == out[k].number
            && earlier(of[j], of[k]))
    &&& forall|at: (int, int)| #[trigger] describes(d, at) ==> of.contains(at)
}

/// The tracks of a CD are listed by their numbers: every block of every session that
/// is of a track, and nothing else.
pub proof fn lemma_listed_tracks(
    log: Log,
    d: Seq<u8>,
    content: Seq<u8>,
    path: Seq<char>,
    total: int,
) -> (of: Seq<(int, int)>)
    requires
        d.len() >= 96,
        is_named(d),
        d[18] < 16,
        laws::shows(log, 0, content),
        mds::cd_tracks(d, Some(content.len() as u64), path).len() <= usize::MAX,
        total * 2352 <= content.len() < (total + 1) * 2352,
    ensures
        mds::mds_tracks(log, d, path) !is Fault,
        mds::mds_tracks(log, d, path) matches Step::Done(r) ==> (r matches Ok(out) && are_listed(
            d,
            total,
            path,
            out,
            of,
        )),
{
    lemma_named(d);
    assert(total == content.len() as int / 2352);
    let flat = mds::cd_tracks(d, Some(content.len() as u64), path);
    let at = lemma_all(d, 0, total, path);
    let keys = mds::number_keys(flat);
    let order = sort::the_order(keys);
    sort::lemma_stable_order_exists(keys);
    let of = Seq::new(order.len(), |k: int| at[order[k] as int]);
    let out = mds::by_number(flat);
    assert(mds::session_count(d) == sessions(d));
    assert(flat == mds::all_tracks(d, bytes::le32(d, 76), sessions(d), 0, total, path));
    assert(order.len() == flat.len());
    assert forall|k: int| 0 <= k < of.len() implies describes(d, #[trigger] of[k]) && lists(
        d,
        of[k],
        total,
        path,
        out[k],
    ) by {
        assert(order[k] < keys.len());
        assert(out[k] == flat[order[k] as int]);
        assert(of[k] == at[order[k] as int]);
    }
    assert forall|j: int, k: int|
        #![trigger of[j], of[k]]
        0 <= j < k < of.len() implies out[j].number < out[k].number || (out[j].number
        == out[k].number && earlier(of[j], of[k])) by {
        let x = order[j] as int;
        let y = order[k] as int;
        assert(sort::comes_before(keys, order[j] as int, order[k] as int));
        assert(keys[x] == seq![flat[x].number] && keys[y] == seq![flat[y].number]);
        reveal_with_fuel(sort::lex_lt, 2);
        assert(keys[x][0] == flat[x].number && keys[y][0] == flat[y].number);
        if x < y {
            assert(earlier(at[x], at[y]));
        }
    }
    assert forall|b: (int, int)| #[trigger] describes(d, b) implies of.contains(b) by {
        assert(0 <= b.0);
        let x = choose|x: int| 0 <= x < at.len() && at[x] == b;
        assert(order.contains(x as usize));
        let k = choose|k: int| 0 <= k < order.len() && order[k] == x as usize;
        assert(of[k] == b);
    }
    assert(are_listed(d, total, path, out, of));
    if let Step::Done(r) = mds::mds_tracks(log, d, path) {
        assert(log.known(Query::Size { file: 0 })->0.size() == Some(content.len() as u64));
        assert(r == Ok::<Seq<TrackInfoView>, DiscError>(out));
    }
    of
}

/// The one track of a DVD, as it is listed.
pub proof fn lemma_listed_dvd(log: Log, d: Seq<u8>, content: Seq<u8>, path: Seq<char>)
    requires
        d.len() >= 96,
        is_named(d),
        d[18] >= 16,
        laws::shows(log, 0, content),
    ensures
        mds::mds_tracks(log, d, path) matches Step::Done(r) ==> (r matches Ok(out) && out.len() == 1
            && {
            let t = out[0];
            &&& t.number == 1
            &&& t.is_data
            &&& t.mode == "MODE1/2048"@
            &&& t.start_lba == 0
            &&& t.num_sectors * 2048 <= content.len() < (t.num_sectors + 1) * 2048
            &&& t.session == 1
            &&& t.bin_path == path
        }),
{
    lemma_named(d);
}

// ── Single-file media descriptors ────────────────────────────────────────────

/// A file is a single-file media descriptor where `MEDIA DESCRIPTOR` and a 2 open
/// it.
pub proof fn lemma_is_mdx(head: Seq<u8>)
    ensures
        mdx::is_mdx(head) <==> head.len() >= 17 && is_named(head) && head[16] == 2,
{
    lemma_named(head);
}

/// The data track of a single-file media descriptor: all that stands behind its
/// first 64 bytes, with the user data where the first sector shows it; a raw
/// sector tells the number of the first one.
pub proof fn lemma_mdx_track(log: Log, d: Seq<u8>)
    requires
        laws::shows(log, 0, d),
    ensures
        mdx::mdx_image(log) !is Fault,
        mdx::mdx_image(log) matches Step::Done(t) ==> {
            let raw = d.len() >= 80 && sector::syncs(d, 64);
            &&& t.bin == 0
            &&& t.track_offset == 64
            &&& t.stride == 2352
            &&& !t.descramble
            &&& t.sector_count == 0
            &&& raw && d[79] == 2 ==> t.user_data_offset == 24
            &&& raw && d[79] != 2 ==> t.user_data_offset == 16
            &&& !raw ==> t.user_data_offset == 0 && t.lba_offset == 0
            &&& raw ==> sector_number(log, t)
        },
{
    sector::lemma_format(log, 0, d, 64);
}

/// The sectors of an image without descriptor stand one behind the other, 2048 bytes
/// each, from byte 64 on.
pub proof fn lemma_mdx_place(lba: u64)
    ensures
        64 + lba * 2048 <= 0xffff_ffff_ffff_ffff <==> mdx::mdx_place(lba) is Some,
        mdx::mdx_place(lba) matches Some(p) ==> p == 64 + lba * 2048,
{
}

} // verus!
