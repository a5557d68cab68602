//! DiscJuggler images.
use crate::bytes;
use crate::cdi;
use crate::cdi::{CdiSpan, CdiTrack};
use crate::device::{Log, Query, Step};
use crate::error::DiscError;
use crate::laws;
use crate::laws::{sector, volume};
use crate::track::DataTrack;
use vstd::prelude::*;

verus! {

// ── The descriptor ───────────────────────────────────────────────────────────

/// A descriptor has the track `t` from `p` up to `next`. With two markers that
/// take no room and no file name the pregap stands 54 bytes behind `p`.
pub open spec fn laid(d: Seq<u8>, v2: bool, p: int, t: CdiTrack, next: int) -> bool {
    let long = bytes::le32(d, p) != 0;
    let name = p + (if long {
        36int
    } else {
        28
    });
    let second = name + d[name] + 20;
    let gap = second + (if bytes::le32(d, second) == 0x8000_0000 {
        14int
    } else {
        6
    });
    &&& 0 <= p
    &&& gap + (if v2 {
        58int
    } else {
        96
    }) <= d.len()
    &&& t.pregap == bytes::le32(d, gap)
    &&& t.length == bytes::le32(d, gap + 4)
    &&& t.mode == bytes::le32(d, gap + 14)
    &&& t.start_lba == bytes::le32(d, gap + 30)
    &&& t.total == bytes::le32(d, gap + 34)
    &&& bytes::le32(d, gap + 54) == 0 ==> t.stride == 2048
    &&& bytes::le32(d, gap + 54) == 1 ==> t.stride == 2336
    &&& bytes::le32(d, gap + 54) > 1 ==> t.stride == 2352
    &&& next == gap + (if v2 {
        87int
    } else if bytes::le32(d, gap + 92) == 0xffff_ffff {
        174
    } else {
        96
    })
}

proof fn lemma_laid(d: Seq<u8>, v2: bool, p: int, t: CdiTrack, next: int)
    requires
        laid(d, v2, p, t, next),
    ensures
        cdi::cdi_track(d, p, v2) == Some((t, next)),
        next > p,
{
}

/// A session of a descriptor: where it stands, its tracks, and where each of
/// them begins and the last one ends.
pub struct Session {
    pub at: int,
    pub tracks: Seq<CdiTrack>,
    pub places: Seq<int>,
}

/// A descriptor has the session: the number of its tracks, then the tracks.
pub open spec fn holds(d: Seq<u8>, v2: bool, s: Session) -> bool {
    &&& 0 <= s.at
    &&& s.at + 2 <= d.len()
    &&& bytes::le16(d, s.at) == s.tracks.len()
    &&& s.places.len() == s.tracks.len() + 1
    &&& s.places[0] == s.at + 2
    &&& forall|k: int|
        0 <= k < s.tracks.len() ==> laid(d, v2, s.places[k], #[trigger] s.tracks[k], s.places[k + 1])
}

/// The tracks of all sessions.
pub open spec fn joined(sessions: Seq<Session>) -> Seq<CdiTrack>
    decreases sessions.len(),
{
    if sessions.len() == 0 {
        Seq::empty()
    } else {
        joined(sessions.drop_last()) + sessions.last().tracks
    }
}

proof fn lemma_session(d: Seq<u8>, v2: bool, s: Session, k: int)
    requires
        holds(d, v2, s),
        0 <= k <= s.tracks.len(),
    ensures
        cdi::cdi_session(d, s.places[k], (s.tracks.len() - k) as nat, v2) == (
            s.tracks.skip(k),
            Some(s.places[s.tracks.len() as int]),
        ),
    decreases s.tracks.len() - k,
{
    if k < s.tracks.len() {
        lemma_laid(d, v2, s.places[k], s.tracks[k], s.places[k + 1]);
        lemma_session(d, v2, s, k + 1);
        assert(seq![s.tracks[k]] + s.tracks.skip(k + 1) =~= s.tracks.skip(k));
    } else {
        assert(s.tracks.skip(k) =~= Seq::empty());
    }
}

/// A descriptor has these sessions one after another: each begins behind the one
/// before, with 12 bytes between them, or 13 in the versions behind the second.
pub open spec fn chained(d: Seq<u8>, v2: bool, sessions: Seq<Session>) -> bool {
    &&& d.len() >= 2
    &&& bytes::le16(d, 0) == sessions.len()
    &&& sessions.len() > 0 ==> sessions[0].at == 2
    &&& forall|k: int| 0 <= k < sessions.len() ==> holds(d, v2, #[trigger] sessions[k])
    &&& forall|k: int|
        0 < k < sessions.len() ==> (#[trigger] sessions[k]).at == sessions[k - 1].places.last() + (
        if v2 {
            12int
        } else {
            13
        })
}

proof fn lemma_joined(sessions: Seq<Session>, k: int)
    requires
        0 <= k < sessions.len(),
    ensures
        joined(sessions.skip(k)) == sessions[k].tracks + joined(sessions.skip(k + 1)),
    decreases sessions.len() - k,
{
    let s = sessions.skip(k);
    let r = sessions.skip(k + 1);
    if k == sessions.len() - 1 {
        assert(s.drop_last() =~= Seq::<Session>::empty());
        assert(s.last() == sessions[k]);
        reveal_with_fuel(joined, 2);
        assert(joined(s) =~= sessions[k].tracks);
        assert(r =~= Seq::<Session>::empty());
        assert(joined(r) =~= Seq::empty());
        assert(sessions[k].tracks + joined(r) =~= sessions[k].tracks);
    } else {
        let shorter = sessions.drop_last();
        lemma_joined(shorter, k);
        assert(s.drop_last() =~= shorter.skip(k));
        assert(r.drop_last() =~= shorter.skip(k + 1));
        assert(s.last() == sessions.last() && r.last() == sessions.last());
        assert(joined(s) =~= sessions[k].tracks + joined(r));
    }
}

proof fn lemma_sessions(d: Seq<u8>, v2: bool, sessions: Seq<Session>, k: int)
    requires
        chained(d, v2, sessions),
        0 <= k < sessions.len(),
    ensures
        cdi::cdi_sessions(d, sessions[k].at, (sessions.len() - k) as nat, v2) == (
            joined(sessions.skip(k)),
            true,
        ),
    decreases sessions.len() - k,
{
    let s = sessions[k];
    lemma_session(d, v2, s, 0);
    assert(s.tracks.skip(0) =~= s.tracks);
    lemma_joined(sessions, k);
    let next = s.places.last() + (if v2 {
        12int
    } else {
        13
    });
    if k + 1 < sessions.len() {
        assert(sessions[k + 1].at == next);
        lemma_sessions(d, v2, sessions, k + 1);
    } else {
        assert(sessions.skip(k + 1) =~= Seq::<Session>::empty());
        assert(joined(sessions.skip(k + 1)) =~= Seq::<CdiTrack>::empty());
    }
    assert(s.places.last() == s.places[s.tracks.len() as int]);
    assert(cdi::cdi_session(d, s.at + 2, bytes::le16(d, s.at) as nat, v2) == (
        s.tracks,
        Some(s.places.last()),
    ));
    let n = (sessions.len() - k) as nat;
    assert((n - 1) as nat == (sessions.len() - (k + 1)) as nat);
    assert(cdi::cdi_sessions(d, next, (n - 1) as nat, v2) == (joined(sessions.skip(k + 1)), true));
    assert(cdi::cdi_sessions(d, s.at, n, v2) == (s.tracks + joined(sessions.skip(k + 1)), true));
}

/// All tracks of a descriptor are read: those of its sessions, in their order.
pub proof fn lemma_tracks(d: Seq<u8>, v2: bool, sessions: Seq<Session>)
    requires
        chained(d, v2, sessions),
    ensures
        cdi::cdi_tracks(d, v2) == (joined(sessions), true),
{
    if sessions.len() > 0 {
        lemma_sessions(d, v2, sessions, 0);
        assert(sessions.skip(0) =~= sessions);
    }
}

/// A descriptor ends, or ends in the track at `p`.
pub open spec fn breaks_off(d: Seq<u8>, v2: bool, p: int) -> bool {
    forall|t: CdiTrack, next: int| !#[trigger] laid(d, v2, p, t, next)
}

proof fn lemma_breaks_off(d: Seq<u8>, v2: bool, p: int)
    requires
        0 <= p,
        breaks_off(d, v2, p),
    ensures
        cdi::cdi_track(d, p, v2) is None,
{
    if let Some((t, next)) = cdi::cdi_track(d, p, v2) {
        assert(laid(d, v2, p, t, next));
    }
}

/// A session of which only the first tracks are complete: `places` says where each of
/// them begins, and where the next one breaks off.
pub open spec fn holds_part(d: Seq<u8>, v2: bool, s: Session) -> bool {
    &&& 0 <= s.at
    &&& s.at + 2 <= d.len()
    &&& bytes::le16(d, s.at) > s.tracks.len()
    &&& s.places.len() == s.tracks.len() + 1
    &&& s.places[0] == s.at + 2
    &&& forall|k: int|
        0 <= k < s.tracks.len() ==> laid(d, v2, s.places[k], #[trigger] s.tracks[k], s.places[k + 1])
    &&& breaks_off(d, v2, s.places.last())
}

proof fn lemma_part(d: Seq<u8>, v2: bool, s: Session, k: int)
    requires
        holds_part(d, v2, s),
        0 <= k <= s.tracks.len(),
        s.places[k] >= 0,
    ensures
        cdi::cdi_session(d, s.places[k], (bytes::le16(d, s.at) - k) as nat, v2) == (
            s.tracks.skip(k),
            None::<int>,
        ),
    decreases s.tracks.len() - k,
{
    if k < s.tracks.len() {
        lemma_laid(d, v2, s.places[k], s.tracks[k], s.places[k + 1]);
        lemma_part(d, v2, s, k + 1);
        assert(seq![s.tracks[k]] + s.tracks.skip(k + 1) =~= s.tracks.skip(k));
    } else {
        lemma_breaks_off(d, v2, s.places[k]);
        assert(s.tracks.skip(k) =~= Seq::empty());
    }
}

/// A descriptor announces more sessions than it has: behind the complete ones stands
/// `part`, which breaks off.
pub open spec fn cut_off(d: Seq<u8>, v2: bool, sessions: Seq<Session>, part: Session) -> bool {
    let gap: int = if v2 {
        12
    } else {
        13
    };
    &&& d.len() >= 2
    &&& bytes::le16(d, 0) > sessions.len()
    &&& sessions.len() > 0 ==> sessions[0].at == 2
    &&& forall|k: int| 0 <= k < sessions.len() ==> holds(d, v2, #[trigger] sessions[k])
    &&& forall|k: int|
        0 < k < sessions.len() ==> (#[trigger] sessions[k]).at == sessions[k - 1].places.last()
            + gap
    &&& part.at == (if sessions.len() == 0 {
        2
    } else {
        sessions.last().places.last() + gap
    })
    &&& holds_part(d, v2, part) || (part.at + 2 > d.len() && part.tracks.len() == 0)
}

proof fn lemma_last(d: Seq<u8>, v2: bool, part: Session, n: nat)
    requires
        n > 0,
        holds_part(d, v2, part) || (part.at + 2 > d.len() && part.tracks.len() == 0),
    ensures
        cdi::cdi_sessions(d, part.at, n, v2) == (part.tracks, false),
{
    if part.at + 2 > d.len() {
        assert(part.tracks =~= Seq::empty());
    } else {
        lemma_part(d, v2, part, 0);
        assert(part.tracks.skip(0) =~= part.tracks);
    }
}

proof fn lemma_cut_from(d: Seq<u8>, v2: bool, sessions: Seq<Session>, part: Session, k: int)
    requires
        cut_off(d, v2, sessions, part),
        0 <= k < sessions.len(),
    ensures
        cdi::cdi_sessions(d, sessions[k].at, (bytes::le16(d, 0) - k) as nat, v2) == (
            joined(sessions.skip(k)) + part.tracks,
            false,
        ),
    decreases sessions.len() - k,
{
    let s = sessions[k];
    lemma_session(d, v2, s, 0);
    assert(s.tracks.skip(0) =~= s.tracks);
    lemma_joined(sessions, k);
    let next = s.places.last() + (if v2 {
        12int
    } else {
        13
    });
    let n = (bytes::le16(d, 0) - k) as nat;
    let rest = joined(sessions.skip(k + 1)) + part.tracks;
    if k + 1 < sessions.len() {
        assert(sessions[k + 1].at == next);
        lemma_cut_from(d, v2, sessions, part, k + 1);
    } else {
        assert(sessions.skip(k + 1) =~= Seq::<Session>::empty());
        assert(joined(sessions.skip(k + 1)) =~= Seq::<CdiTrack>::empty());
        assert(rest =~= part.tracks);
        lemma_last(d, v2, part, (n - 1) as nat);
    }
    assert(s.places.last() == s.places[s.tracks.len() as int]);
    assert(cdi::cdi_session(d, s.at + 2, bytes::le16(d, s.at) as nat, v2) == (
        s.tracks,
        Some(s.places.last()),
    ));
    assert(cdi::cdi_sessions(d, next, (n - 1) as nat, v2) == (rest, false));
    assert(s.tracks + rest =~= joined(sessions.skip(k)) + part.tracks);
}

/// Of a descriptor that is cut off the tracks before the break are read.
pub proof fn lemma_cut_tracks(d: Seq<u8>, v2: bool, sessions: Seq<Session>, part: Session)
    requires
        cut_off(d, v2, sessions, part),
    ensures
        cdi::cdi_tracks(d, v2) == (joined(sessions) + part.tracks, false),
{
    if sessions.len() > 0 {
        lemma_cut_from(d, v2, sessions, part, 0);
        assert(sessions.skip(0) =~= sessions);
    } else {
        lemma_last(d, v2, part, bytes::le16(d, 0) as nat);
        assert(joined(sessions) + part.tracks =~= part.tracks);
    }
}

/// A descriptor of fewer than two bytes holds nothing.
pub proof fn lemma_no_tracks(d: Seq<u8>, v2: bool)
    requires
        d.len() < 2,
    ensures
        cdi::cdi_tracks(d, v2) == (Seq::<CdiTrack>::empty(), false),
{
}

// ── Where the tracks lie ─────────────────────────────────────────────────────

/// The bytes that the first `k` tracks take up.
pub open spec fn room(tracks: Seq<CdiTrack>, k: int) -> int
    decreases k,
{
    if k <= 0 {
        0
    } else {
        room(tracks, k - 1) + tracks[k - 1].total * tracks[k - 1].stride
    }
}

/// The spans `spans` are the data tracks `of`: all of `tracks` from `from` on that
/// are not of audio, each behind the room of the tracks before it and its own
/// pregap.
pub open spec fn are_data(
    tracks: Seq<CdiTrack>,
    from: int,
    spans: Seq<CdiSpan>,
    of: Seq<int>,
) -> bool {
    &&& spans.len() == of.len()
    &&& forall|j: int|
        0 <= j < of.len() ==> {
            let t = tracks[#[trigger] of[j]];
            &&& from <= of[j] < tracks.len()
            &&& t.mode != 0
            &&& spans[j].base == room(tracks, of[j]) + t.pregap * t.stride
            &&& spans[j].stride == t.stride
            &&& spans[j].start_lba == t.start_lba
            &&& spans[j].length == t.length
        }
    &&& forall|i: int, j: int| 0 <= i < j < of.len() ==> of[i] < of[j]
    &&& forall|k: int|
        from <= k < tracks.len() && (#[trigger] tracks[k]).mode != 0 ==> of.contains(k)
}

/// All offsets of an image are below 64 bits.
pub open spec fn fits(tracks: Seq<CdiTrack>) -> bool {
    forall|k: int|
        0 <= k < tracks.len() ==> room(tracks, k) + (#[trigger] tracks[k]).pregap * tracks[k].stride
            <= u64::MAX && room(tracks, k + 1) <= u64::MAX
}

proof fn lemma_spans_from(tracks: Seq<CdiTrack>, i: int) -> (of: Seq<int>)
    requires
        0 <= i <= tracks.len(),
        fits(tracks),
    ensures
        cdi::cdi_spans_from(tracks, i, room(tracks, i)).1,
        are_data(tracks, i, cdi::cdi_spans_from(tracks, i, room(tracks, i)).0, of),
    decreases tracks.len() - i,
{
    if i == tracks.len() {
        Seq::empty()
    } else {
        let t = tracks[i];
        let rest = lemma_spans_from(tracks, i + 1);
        assert(t.stride * t.total == t.total * t.stride) by (nonlinear_arith);
        assert(room(tracks, i + 1) == room(tracks, i) + t.stride * t.total);
        lemma_room(tracks, i);
        assert(0 <= t.pregap * t.stride) by (nonlinear_arith);
        let all = cdi::cdi_spans_from(tracks, i, room(tracks, i)).0;
        let later = cdi::cdi_spans_from(tracks, i + 1, room(tracks, i + 1)).0;
        if t.mode != 0 {
            let of = seq![i] + rest;
            assert(all.len() == later.len() + 1);
            assert forall|j: int| 0 <= j < of.len() implies ({
                let t = tracks[#[trigger] of[j]];
                &&& i <= of[j] < tracks.len()
                &&& t.mode != 0
                &&& all[j].base == room(tracks, of[j]) + t.pregap * t.stride
                &&& all[j].stride == t.stride
                &&& all[j].start_lba == t.start_lba
                &&& all[j].length == t.length
            }) by {
                if j > 0 {
                    assert(of[j] == rest[j - 1]);
                    assert(all[j] == later[j - 1]);
                }
            }
            assert forall|k: int|
                i <= k < tracks.len() && (#[trigger] tracks[k]).mode != 0 implies of.contains(k) by {
                if k == i {
                    assert(of[0] == k);
                } else {
                    let j = choose|j: int| 0 <= j < rest.len() && rest[j] == k;
                    assert(of[j + 1] == k);
                }
            }
            of
        } else {
            assert(all =~= later);
            rest
        }
    }
}

proof fn lemma_room(tracks: Seq<CdiTrack>, k: int)
    requires
        0 <= k <= tracks.len(),
    ensures
        room(tracks, k) >= 0,
    decreases k,
{
    if k > 0 {
        lemma_room(tracks, k - 1);
        let t = tracks[k - 1];
        assert(0 <= t.total * t.stride) by (nonlinear_arith);
    }
}

/// The data tracks of an image are all those that are not of audio, in their
/// order, each behind the sectors of all tracks before it and its own pregap.
pub proof fn lemma_spans(tracks: Seq<CdiTrack>) -> (of: Seq<int>)
    requires
        fits(tracks),
    ensures
        cdi::cdi_spans(tracks).1,
        are_data(tracks, 0, cdi::cdi_spans(tracks).0, of),
{
    lemma_spans_from(tracks, 0)
}

// ── The choice ───────────────────────────────────────────────────────────────

/// Where the user data of the sectors of a span begins: nowhere but at the start
/// of a sector of 2048 bytes, behind the subheader of one of 2336 bytes, and where
/// its first sector shows it else.
pub open spec fn user_data(d: Seq<u8>, s: CdiSpan) -> u64 {
    if s.stride == 2048 {
        0
    } else if s.stride == 2336 {
        8
    } else if s.base + 16 > d.len() || !sector::syncs(d, s.base as int) {
        0
    } else if d[s.base + 15] == 2 {
        24
    } else {
        16
    }
}

/// A span has a primary volume descriptor `n` sectors behind its sector 16.
pub open spec fn primary(d: Seq<u8>, s: CdiSpan, n: int) -> bool {
    volume::opens_primary(d, s.base, s.stride, user_data(d, s), 16 + n)
}

/// A span has no primary volume descriptor where it is looked for.
pub open spec fn without(d: Seq<u8>, s: CdiSpan) -> bool {
    forall|n: int| 0 <= n < 512 ==> !#[trigger] primary(d, s, n)
}

/// The sectors that are looked at for a descriptor are within 64 bits.
pub open spec fn in_reach(s: CdiSpan) -> bool {
    s.base + 24 + 528 * s.stride <= u64::MAX
}

/// `t` is the track of a span, begun `n` sectors later.
pub open spec fn is_track(d: Seq<u8>, s: CdiSpan, n: int, t: DataTrack) -> bool {
    &&& t.bin == 0
    &&& t.track_offset == s.base + n * s.stride
    &&& t.user_data_offset == user_data(d, s)
    &&& t.stride == s.stride
    &&& t.lba_offset == s.start_lba
    &&& !t.descramble
    &&& t.sector_count == s.length
}

proof fn lemma_udo(log: Log, d: Seq<u8>, s: CdiSpan)
    requires
        laws::shows(log, 0, d),
    ensures
        cdi::cdi_udo(log, s) !is Fault,
        cdi::cdi_udo(log, s) matches Step::Done(u) ==> u == user_data(d, s),
{
    sector::lemma_format(log, 0, d, s.base);
}

proof fn lemma_passes(
    log: Log,
    d: Seq<u8>,
    spans: Seq<CdiSpan>,
    i: int,
    k: int,
    first: Option<DataTrack>,
    fits: bool,
    whole: bool,
) -> (f: Option<DataTrack>)
    requires
        laws::shows(log, 0, d),
        0 <= i <= k <= spans.len(),
        forall|j: int| 0 <= j < k ==> without(d, #[trigger] spans[j]),
        i == 0 ==> first is None,
        i > 0 ==> (first matches Some(t) && is_track(d, spans[0], 0, t)),
    ensures
        k == 0 ==> f is None,
        cdi::cdi_choice(log, spans, i, first, fits, whole) is Done ==> {
            &&& cdi::cdi_choice(log, spans, i, first, fits, whole) == cdi::cdi_choice(
                log,
                spans,
                k,
                f,
                fits,
                whole,
            )
            &&& k > 0 ==> (f matches Some(t) && is_track(d, spans[0], 0, t))
        },
        (forall|j: int| 0 <= j < k ==> in_reach(#[trigger] spans[j])) && cdi::cdi_choice(
            log,
            spans,
            i,
            first,
            fits,
            whole,
        ) is Fault ==> cdi::cdi_choice(log, spans, k, f, fits, whole) is Fault,
    decreases k - i,
{
    if i == k {
        first
    } else {
        let s = spans[i];
        assert(without(d, s));
        lemma_udo(log, d, s);
        let u = user_data(d, s);
        assert forall|j: int| 0 <= j < 512 implies !#[trigger] volume::opens_primary(
            d,
            s.base,
            s.stride,
            u,
            16 + j,
        ) by {
            assert(!primary(d, s, j));
        }
        volume::lemma_search_finds_nothing(log, 0, d, s.base, s.stride, u);
        let own = cdi::cdi_data_track(s, u, s.base);
        let next = match first {
            Some(t) => Some(t),
            None => Some(own),
        };
        if i == 0 {
            assert(0 * s.stride == 0);
            assert(is_track(d, spans[0], 0, own));
        }
        assert(u <= 24);
        let f = lemma_passes(log, d, spans, i + 1, k, next, fits, whole);
        if forall|j: int| 0 <= j < k ==> in_reach(#[trigger] spans[j]) {
            assert(in_reach(spans[i]));
        }
        f
    }
}

/// The data track is the first one with a primary volume descriptor, wherever in
/// its first 512 sectors behind sector 16 that is: the track is taken to begin so
/// many sectors later that the descriptor is its sector 16.
pub proof fn lemma_chosen(
    log: Log,
    d: Seq<u8>,
    spans: Seq<CdiSpan>,
    fits: bool,
    whole: bool,
    k: int,
    n: int,
)
    requires
        laws::shows(log, 0, d),
        0 <= k < spans.len(),
        forall|j: int| 0 <= j < k ==> without(d, #[trigger] spans[j]),
        0 <= n < 512,
        primary(d, spans[k], n),
        forall|m: int| 0 <= m < n ==> !#[trigger] primary(d, spans[k], m),
    ensures
        cdi::cdi_choice(log, spans, 0, None, fits, whole) matches Step::Done(r) ==> (r matches Ok(t)
            && is_track(d, spans[k], n, t)),
        (forall|j: int| 0 <= j < k ==> in_reach(#[trigger] spans[j])) ==> cdi::cdi_choice(
            log,
            spans,
            0,
            None,
            fits,
            whole,
        ) !is Fault,
{
    let f = lemma_passes(log, d, spans, 0, k, None, fits, whole);
    let s = spans[k];
    let u = user_data(d, s);
    lemma_udo(log, d, s);
    assert forall|j: int| 0 <= j < n implies !#[trigger] volume::opens_primary(
        d,
        s.base,
        s.stride,
        u,
        16 + j,
    ) by {
        assert(!primary(d, s, j));
    }
    volume::lemma_search_finds(log, 0, d, s.base, s.stride, u, n);
}

/// Where no data track has a primary volume descriptor, the data track is the
/// first one; an image without data tracks has none.
pub proof fn lemma_none_chosen(log: Log, d: Seq<u8>, spans: Seq<CdiSpan>, whole: bool)
    requires
        laws::shows(log, 0, d),
        forall|j: int| 0 <= j < spans.len() ==> without(d, #[trigger] spans[j]),
    ensures
        cdi::cdi_choice(log, spans, 0, None, true, whole) matches Step::Done(r) ==> {
            &&& !whole ==> r == Err::<DataTrack, DiscError>(DiscError::CdiRead)
            &&& whole && spans.len() == 0 ==> r == Err::<DataTrack, DiscError>(
                DiscError::CdiNoDataTrack,
            )
            &&& whole && spans.len() > 0 ==> (r matches Ok(t) && is_track(d, spans[0], 0, t))
        },
        (forall|j: int| 0 <= j < spans.len() ==> in_reach(#[trigger] spans[j]))
            ==> cdi::cdi_choice(log, spans, 0, None, true, whole) !is Fault,
{
    let f = lemma_passes(log, d, spans, 0, spans.len() as int, None, true, whole);
}

// ── The image ────────────────────────────────────────────────────────────────

/// Where the descriptor of an image stands: its last four bytes tell how far
/// behind the start, or, in version 3.5, how far before the end, which is at the
/// start at most.
pub open spec fn descriptor_at(d: Seq<u8>, at: int) -> bool {
    let n = d.len() as int;
    let offset = bytes::le32(d, n - 4);
    &&& n >= 8
    &&& offset > 0
    &&& bytes::le32(d, n - 8) == 0x8000_0004 || bytes::le32(d, n - 8) == 0x8000_0005 ==> at == offset
    &&& bytes::le32(d, n - 8) == 0x8000_0006 ==> at == (if offset > n {
        0
    } else {
        n - offset
    })
    &&& 0x8000_0004 <= bytes::le32(d, n - 8) <= 0x8000_0006
    &&& 0 <= at <= n
}

/// The data track of an image is chosen among the data tracks of its descriptor.
pub proof fn lemma_image(log: Log, d: Seq<u8>, at: int)
    requires
        laws::shows(log, 0, d),
        descriptor_at(d, at),
    ensures
        ({
            let n = d.len() as int;
            let v2 = bytes::le32(d, n - 8) == 0x8000_0004;
            let tracks = cdi::cdi_tracks(d.subrange(at, n), v2);
            let spans = cdi::cdi_spans(tracks.0);
            cdi::cdi_image(log) is Done || cdi::cdi_image(log) is Fault ==> cdi::cdi_image(log)
                == cdi::cdi_choice(log, spans.0, 0, None, spans.1, tracks.1)
        }),
{
    let n = d.len() as int;
    let q = Query::Read { file: 0, offset: (n - 8) as u64, len: 8 };
    if log.known(Query::Size { file: 0 }) is Some && log.known(q) is Some {
        let t = log.known(q)->0.bytes();
        assert(t == d.subrange(n - 8, n));
        assert(t[0] == d[n - 8] && t[1] == d[n - 7] && t[2] == d[n - 6] && t[3] == d[n - 5] && t[4]
            == d[n - 4] && t[5] == d[n - 3] && t[6] == d[n - 2] && t[7] == d[n - 1]);
        assert(bytes::le32(t, 0) == bytes::le32(d, n - 8));
        assert(bytes::le32(t, 4) == bytes::le32(d, n - 4));
    }
}

/// Images that have no descriptor: those shorter than eight bytes, those of
/// another version, those that do not tell where it is, and those where it would be
/// behind the end.
pub proof fn lemma_not_an_image(log: Log, d: Seq<u8>)
    requires
        laws::shows(log, 0, d),
    ensures
        cdi::cdi_image(log) matches Step::Done(r) ==> {
            let n = d.len() as int;
            let version = bytes::le32(d, n - 8);
            &&& n < 8 ==> r == Err::<DataTrack, DiscError>(DiscError::CdiTooShort)
            &&& n >= 8 && (version < 0x8000_0004 || version > 0x8000_0006) ==> r == Err::<
                DataTrack,
                DiscError,
            >(DiscError::CdiVersion(version as u32))
            &&& n >= 8 && 0x8000_0004 <= version <= 0x8000_0006 && bytes::le32(d, n - 4) == 0 ==> r
                == Err::<DataTrack, DiscError>(DiscError::CdiZeroOffset)
            &&& n >= 8 && (version == 0x8000_0004 || version == 0x8000_0005) && bytes::le32(d, n - 4)
                > n ==> r == Err::<DataTrack, DiscError>(DiscError::CdiRead)
        },
{
    let n = d.len() as int;
    if n >= 8 {
        let q = Query::Read { file: 0, offset: (n - 8) as u64, len: 8 };
        if log.known(Query::Size { file: 0 }) is Some && log.known(q) is Some {
            let t = log.known(q)->0.bytes();
            assert(t == d.subrange(n - 8, n));
            assert(t[0] == d[n - 8] && t[1] == d[n - 7] && t[2] == d[n - 6] && t[3] == d[n - 5]
                && t[4] == d[n - 4] && t[5] == d[n - 3] && t[6] == d[n - 2] && t[7] == d[n - 1]);
            assert(bytes::le32(t, 0) == bytes::le32(d, n - 8));
            assert(bytes::le32(t, 4) == bytes::le32(d, n - 4));
        }
    }
}

} // verus!
