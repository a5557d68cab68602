//! Compressed images.
use crate::chd;
use crate::chd::{ChdHeader, ChdSectorReader};
use crate::device::{Log, Probe, Query, Spot, Step};
use crate::laws;
use crate::laws::volume;
use vstd::prelude::*;

verus! {

/// A data track may begin behind this many sectors.
pub open spec fn is_pregap(pregap: int) -> bool {
    pregap == 0 || pregap == 4 || pregap == 150
}

/// The user data of a raw sector may begin here: behind the header of a sector
/// of mode 1, or behind that of one of mode 2.
pub open spec fn is_user_data(udo: int) -> bool {
    udo == 16 || udo == 24
}

/// One place is tried before another: fewer sectors come first, and then a sector of
/// mode 1.
pub open spec fn comes_first(pregap: int, udo: int, a: int, b: int) -> bool {
    pregap < a || pregap == a && udo < b
}

/// Each start of a data track is tried with each sector mode.
pub proof fn lemma_places_cover(pregap: u64, udo: u64) -> (k: int)
    requires
        is_pregap(pregap as int),
        is_user_data(udo as int),
    ensures
        0 <= k < chd::CHD_PLACES,
        chd::chd_place(k) == (pregap, udo),
{
    let a: int = if pregap == 0 {
        0
    } else if pregap == 4 {
        2
    } else {
        4
    };
    if udo == 16 {
        a
    } else {
        a + 1
    }
}

/// Nothing else is tried.
pub proof fn lemma_places_are_few(k: int)
    requires
        0 <= k < chd::CHD_PLACES,
    ensures
        is_pregap(chd::chd_place(k).0 as int),
        is_user_data(chd::chd_place(k).1 as int),
{
}

/// An image is of raw sectors of `stride` bytes: it says so, or it does not
/// say, and a hunk is some number of such sectors.
pub open spec fn is_raw(h: ChdHeader, stride: u64) -> bool {
    ||| (stride == 2448 || stride == 2352) && h.unit_bytes == stride
    ||| stride == 2448 && h.unit_bytes == 0 && h.hunk_size > 0 && h.hunk_size % 2448 == 0
    ||| stride == 2352 && h.unit_bytes == 0 && h.hunk_size > 0 && h.hunk_size % 2352 == 0
        && h.hunk_size % 2448 != 0
}

/// An image of raw sectors is read as such; an image of neither kind has plain
/// sectors of 2048 bytes.
pub proof fn lemma_sector_size(h: ChdHeader)
    ensures
        forall|stride: u64| #[trigger]
            is_raw(h, stride) ==> chd::chd_sector_size(h.hunk_size, h.unit_bytes) == stride,
        !is_raw(h, 2448) && !is_raw(h, 2352) ==> chd::chd_sector_size(h.hunk_size, h.unit_bytes)
            == 2048,
{
}

/// A data track behind `pregap` sectors whose user data begins at `udo` has a
/// primary volume descriptor at its sector 16.
pub open spec fn has_volume(d: Seq<u8>, stride: u64, pregap: int, udo: int) -> bool {
    let p = (pregap + 16) * stride + udo;
    volume::marked(d, p) && d[p] == 1
}

proof fn lemma_at(log: Log, d: Seq<u8>, stride: u64, k: int)
    requires
        laws::shows(log, 0, d),
        stride == 2352 || stride == 2448,
        0 <= k < chd::CHD_PLACES,
    ensures
        ({
            let l = chd::chd_layout(stride, k);
            let pregap = chd::chd_place(k).0;
            let udo = chd::chd_place(k).1;
            let p = (pregap + 16) * stride + udo;
            let q = Query::Read { file: 0, offset: p as u64, len: 6 };
            &&& l == (ChdSectorReader {
                stride,
                user_data_offset: udo,
                track_byte_start: (pregap * stride) as u64,
            })
            &&& 0 <= pregap * stride <= 150 * 2448
            &&& crate::volume::sector_at(l.track_byte_start, 16, stride, l.user_data_offset) == p
            &&& 0 <= p <= 166 * 2448 + 24
            &&& log.known(q) matches Some(r) ==> ((r.bytes().len() >= 6 && r.bytes()[0] == 1
                && crate::volume::is_descriptor(r.bytes())) <==> has_volume(
                d,
                stride,
                pregap as int,
                udo as int,
            ))
        }),
{
    let pregap = chd::chd_place(k).0;
    let udo = chd::chd_place(k).1;
    let p = (pregap + 16) * stride + udo;
    assert(0 <= pregap * stride <= 150 * 2448) by (nonlinear_arith)
        requires
            0 <= pregap <= 150,
            0 <= stride <= 2448,
    ;
    assert((pregap + 16) * stride == pregap * stride + 16 * stride) by (nonlinear_arith);
    let q = Query::Read { file: 0, offset: p as u64, len: 6 };
    if log.known(q) is Some && p + 6 <= d.len() {
        let b = log.known(q)->0.bytes();
        assert(b == d.subrange(p, p + 6));
        let t = b.subrange(1, 6);
        assert(b[0] == d[p]);
        assert(t[0] == d[p + 1] && t[1] == d[p + 2] && t[2] == d[p + 3] && t[3] == d[p + 4] && t[4]
            == d[p + 5]);
        if volume::marked(d, p) {
            assert(t =~= seq![0x43u8, 0x44, 0x30, 0x30, 0x31]);
        }
    }
}

/// What the reader of an image of raw sectors is: sector 16 of its track is a
/// primary volume descriptor, where any of the places where a track may begin
/// has one there; the reader is at the first of those places, which is the only one
/// where only one has. Without one the reader is at the start of the stream, with
/// sectors of mode 1.
pub proof fn lemma_volume_is_found(log: Log, d: Seq<u8>, h: ChdHeader, stride: u64)
    requires
        laws::shows(log, 0, d),
        is_raw(h, stride),
    ensures
        chd::chd_iso(log, h) !is Fault,
        chd::chd_iso(log, h) matches Step::Ask(q) ==> log.known(q) is None,
        chd::chd_iso(log, h) matches Step::Done(r) ==> {
            &&& r.stride == stride
            &&& forall|pregap: int, udo: int|
                is_pregap(pregap) && is_user_data(udo) && #[trigger] has_volume(
                    d,
                    stride,
                    pregap,
                    udo,
                ) && (forall|a: int, b: int|
                    is_pregap(a) && is_user_data(b) && #[trigger] has_volume(d, stride, a, b)
                        ==> !comes_first(a, b, pregap, udo)) ==> r.track_byte_start == pregap
                    * stride && r.user_data_offset == udo
            &&& (exists|pregap: int, udo: int|
                is_pregap(pregap) && is_user_data(udo) && #[trigger] has_volume(
                    d,
                    stride,
                    pregap,
                    udo,
                )) ==> {
                let p = r.track_byte_start + 16 * r.stride + r.user_data_offset;
                volume::marked(d, p) && d[p] == 1
            }
            &&& (forall|pregap: int, udo: int|
                is_pregap(pregap) && is_user_data(udo) ==> !#[trigger] has_volume(
                    d,
                    stride,
                    pregap,
                    udo,
                )) ==> r.track_byte_start == 0 && r.user_data_offset == 16
        },
{
    lemma_at(log, d, stride, 0);
    lemma_at(log, d, stride, 1);
    lemma_at(log, d, stride, 2);
    lemma_at(log, d, stride, 3);
    lemma_at(log, d, stride, 4);
    lemma_at(log, d, stride, 5);
    reveal_with_fuel(chd::chd_volume, 7);
    assert(chd::chd_place(0) == (0u64, 16u64));
    assert(chd::chd_place(1) == (0u64, 24u64));
    assert(chd::chd_place(2) == (4u64, 16u64));
    assert(chd::chd_place(3) == (4u64, 24u64));
    assert(chd::chd_place(4) == (150u64, 16u64));
    assert(chd::chd_place(5) == (150u64, 24u64));
    if chd::chd_iso(log, h) is Done {
        let r = chd::chd_iso(log, h)->Done_0;
        assert forall|pregap: int, udo: int|
            is_pregap(pregap) && is_user_data(udo) && #[trigger] has_volume(
                d,
                stride,
                pregap,
                udo,
            ) && (forall|a: int, b: int|
                is_pregap(a) && is_user_data(b) && #[trigger] has_volume(d, stride, a, b)
                    ==> !comes_first(a, b, pregap, udo)) implies r.track_byte_start == pregap
            * stride && r.user_data_offset == udo by {
            assert(has_volume(d, stride, 0, 16) ==> !comes_first(0, 16, pregap, udo));
            assert(has_volume(d, stride, 0, 24) ==> !comes_first(0, 24, pregap, udo));
            assert(has_volume(d, stride, 4, 16) ==> !comes_first(4, 16, pregap, udo));
            assert(has_volume(d, stride, 4, 24) ==> !comes_first(4, 24, pregap, udo));
            assert(has_volume(d, stride, 150, 16) ==> !comes_first(150, 16, pregap, udo));
            assert(has_volume(d, stride, 150, 24) ==> !comes_first(150, 24, pregap, udo));
        }
    }
}

/// An image of plain sectors is read from its start, 2048 bytes a sector.
pub proof fn lemma_plain_image(log: Log, h: ChdHeader)
    requires
        !is_raw(h, 2448),
        !is_raw(h, 2352),
    ensures
        chd::chd_iso(log, h) == Step::Done(
            ChdSectorReader { stride: 2048, user_data_offset: 0, track_byte_start: 0 },
        ),
        chd::chd_threedo(log, h) == Step::Done(
            ChdSectorReader { stride: 2048, user_data_offset: 0, track_byte_start: 0 },
        ),
{
}

/// The question whether a 3DO volume begins behind `pregap` sectors.
pub open spec fn opera_at(stride: u64, pregap: int, udo: int) -> Query {
    Query::Probe {
        file: 0,
        probe: Probe::ThreeDoDisc,
        spot: Spot {
            track_offset: (pregap * stride) as u64,
            user_data_offset: udo as u64,
            stride,
            lba_offset: 0,
            descramble: false,
        },
    }
}

/// The answer is that a 3DO volume begins there.
pub open spec fn has_opera(log: Log, stride: u64, pregap: int, udo: int) -> bool {
    log.known(opera_at(stride, pregap, udo)) matches Some(r) && r.flag()
}

/// A 3DO volume is found at the first place where there is one; where there is
/// none, the reader is at the start of the stream, with sectors of mode 1.
pub proof fn lemma_opera_is_found(log: Log, h: ChdHeader, stride: u64, pregap: int, udo: int)
    requires
        is_raw(h, stride),
        is_pregap(pregap),
        is_user_data(udo),
        forall|a: int, b: int|
            is_pregap(a) && is_user_data(b) && #[trigger] has_opera(log, stride, a, b) ==> (a
                == pregap && b == udo) || (has_opera(log, stride, pregap, udo) && comes_first(
                pregap,
                udo,
                a,
                b,
            )),
    ensures
        chd::chd_threedo(log, h) !is Fault,
        chd::chd_threedo(log, h) matches Step::Ask(q) ==> log.known(q) is None,
        chd::chd_threedo(log, h) matches Step::Done(r) ==> {
            &&& r.stride == stride
            &&& has_opera(log, stride, pregap, udo) ==> r.track_byte_start == pregap * stride
                && r.user_data_offset == udo
            &&& !has_opera(log, stride, pregap, udo) ==> r.track_byte_start == 0
                && r.user_data_offset == 16
        },
{
    reveal_with_fuel(chd::threedo_place, 7);
    assert(chd::chd_place(0) == (0u64, 16u64));
    assert(chd::chd_place(1) == (0u64, 24u64));
    assert(chd::chd_place(2) == (4u64, 16u64));
    assert(chd::chd_place(3) == (4u64, 24u64));
    assert(chd::chd_place(4) == (150u64, 16u64));
    assert(chd::chd_place(5) == (150u64, 24u64));
    assert(has_opera(log, stride, 0, 16) ==> has_opera(log, stride, pregap, udo)
        && !comes_first(0, 16, pregap, udo));
    assert(has_opera(log, stride, 0, 24) ==> has_opera(log, stride, pregap, udo)
        && !comes_first(0, 24, pregap, udo));
    assert(has_opera(log, stride, 4, 16) ==> has_opera(log, stride, pregap, udo)
        && !comes_first(4, 16, pregap, udo));
    assert(has_opera(log, stride, 4, 24) ==> has_opera(log, stride, pregap, udo)
        && !comes_first(4, 24, pregap, udo));
    assert(has_opera(log, stride, 150, 16) ==> has_opera(log, stride, pregap, udo)
        && !comes_first(150, 16, pregap, udo));
    assert(has_opera(log, stride, 150, 24) ==> has_opera(log, stride, pregap, udo)
        && !comes_first(150, 24, pregap, udo));
}

} // verus!
