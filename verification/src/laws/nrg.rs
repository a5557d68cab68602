//! Nero images.
use crate::bytes;
use crate::device::{Log, Step};
use crate::error::DiscError;
use crate::laws;
use crate::nrg;
use crate::sector;
use crate::track::DataTrack;
use vstd::prelude::*;

verus! {

/// The length that the chunk at `p` tells.
pub open spec fn told(d: Seq<u8>, v2: bool, p: int) -> int {
    if v2 {
        bytes::le32(d, p + 4)
    } else {
        bytes::be32(d, p + 4)
    }
}

/// Where chunk `k` of the chain that begins at `first` stands: eight bytes and
/// the told length behind the one before, whatever that one is.
pub open spec fn link(d: Seq<u8>, v2: bool, first: int, k: int) -> int
    decreases k,
{
    if k <= 0 {
        first
    } else {
        let p = link(d, v2, first, k - 1);
        p + 8 + told(d, v2, p)
    }
}

/// The chain does not end at `p`: there is a chunk, it is not `END!` and it is
/// not empty.
pub open spec fn goes_on(d: Seq<u8>, v2: bool, p: int) -> bool {
    0 <= p && p + 8 <= d.len() && !laws::letters(d, p, 0x45, 0x4e, 0x44, 0x21) && told(d, v2, p) > 0
}

/// Entry `j` of the chunk at `p` is of a data track at `offset`: the chunk is
/// `DAOI` or `DAOX`, the entry lies inside it and inside the image, its mode is
/// not audio, and its offset is inside the image.
pub open spec fn has_track(d: Seq<u8>, v2: bool, p: int, j: int, offset: int) -> bool {
    let narrow = p + 32 + 28 * j;
    let wide = p + 32 + 40 * j;
    let end = p + 8 + told(d, v2, p);
    &&& 0 <= j
    &&& 0 <= offset < d.len()
    &&& (laws::letters(d, p, 0x44, 0x41, 0x4f, 0x49) && narrow + 28 <= end && narrow + 28 <= d.len()
        && d[narrow + 14] != 2 && offset == bytes::be32(d, narrow + 20)) || (laws::letters(
        d,
        p,
        0x44,
        0x41,
        0x4f,
        0x58,
    ) && wide + 40 <= end && wide + 40 <= d.len() && d[wide + 14] != 2 && offset == bytes::be64(
        d,
        wide + 24,
    ))
}

/// The chunk at `p` has no data track.
pub open spec fn no_track(d: Seq<u8>, v2: bool, p: int) -> bool {
    forall|j: int, offset: int| !#[trigger] has_track(d, v2, p, j, offset)
}

proof fn lemma_letters(d: Seq<u8>, p: int, a: u8, b: u8, c: u8, e: u8)
    requires
        0 <= p,
    ensures
        laws::letters(d, p, a, b, c, e) == bytes::bytes_at(d, p, seq![a, b, c, e]),
{
    let s = seq![a, b, c, e];
    if p + 4 <= d.len() {
        let t = d.subrange(p, p + 4);
        assert(t[0] == d[p] && t[1] == d[p + 1] && t[2] == d[p + 2] && t[3] == d[p + 3]);
        if laws::letters(d, p, a, b, c, e) {
            assert(t =~= s);
        }
    }
}

proof fn lemma_entries(d: Seq<u8>, v2: bool, p: int, wide: bool, i: int, j: int, offset: int)
    requires
        0 <= p,
        p + 8 <= d.len(),
        laws::letters(d, p, 0x44, 0x41, 0x4f, 0x49) == !wide,
        laws::letters(d, p, 0x44, 0x41, 0x4f, 0x58) == wide,
        0 <= i <= j,
        has_track(d, v2, p, j, offset),
        forall|k: int, o: int| i <= k < j ==> !#[trigger] has_track(d, v2, p, k, o),
    ensures
        ({
            let size: int = if wide {
                40
            } else {
                28
            };
            let stop = p + 8 + told(d, v2, p);
            let end = if stop <= d.len() {
                stop
            } else {
                d.len() as int
            };
            nrg::nrg_entries(d, wide, p + 32 + size * i, end) == Some(offset as u64)
        }),
    decreases j - i,
{
    if i < j {
        lemma_entries(d, v2, p, wide, i + 1, j, offset);
        let e = p + 32 + (if wide {
            40 * i
        } else {
            28 * i
        });
        let o = if wide {
            bytes::be64(d, e + 24)
        } else {
            bytes::be32(d, e + 20)
        };
        assert(!has_track(d, v2, p, i, o));
    }
}

proof fn lemma_no_entries(d: Seq<u8>, v2: bool, p: int, wide: bool, i: int, end: int)
    requires
        0 <= p,
        p + 8 <= d.len(),
        0 <= i,
        laws::letters(d, p, 0x44, 0x41, 0x4f, 0x49) == !wide,
        laws::letters(d, p, 0x44, 0x41, 0x4f, 0x58) == wide,
        no_track(d, v2, p),
        end <= p + 8 + told(d, v2, p),
        end <= d.len(),
    ensures
        wide ==> nrg::nrg_entries(d, true, p + 32 + 40 * i, end) is None,
        !wide ==> nrg::nrg_entries(d, false, p + 32 + 28 * i, end) is None,
    decreases end - 28 * i,
{
    let e = p + 32 + (if wide {
        40 * i
    } else {
        28 * i
    });
    if e + 28 <= end {
        let o = if wide {
            bytes::be64(d, e + 24)
        } else {
            bytes::be32(d, e + 20)
        };
        assert(!has_track(d, v2, p, i, o));
        lemma_no_entries(d, v2, p, wide, i + 1, end);
    }
}

proof fn lemma_step(d: Seq<u8>, v2: bool, p: int)
    requires
        goes_on(d, v2, p),
        no_track(d, v2, p),
    ensures
        p + 8 + told(d, v2, p) <= d.len() ==> nrg::nrg_chunks(d, v2, p) == nrg::nrg_chunks(
            d,
            v2,
            p + 8 + told(d, v2, p),
        ),
        p + 8 + told(d, v2, p) > d.len() ==> nrg::nrg_chunks(d, v2, p) is None,
{
    lemma_letters(d, p, 0x45, 0x4e, 0x44, 0x21);
    lemma_letters(d, p, 0x44, 0x41, 0x4f, 0x49);
    lemma_letters(d, p, 0x44, 0x41, 0x4f, 0x58);
    let stop = p + 8 + told(d, v2, p);
    let end = if stop <= d.len() {
        stop
    } else {
        d.len() as int
    };
    if laws::letters(d, p, 0x44, 0x41, 0x4f, 0x49) {
        lemma_no_entries(d, v2, p, false, 0, end);
    }
    if laws::letters(d, p, 0x44, 0x41, 0x4f, 0x58) {
        lemma_no_entries(d, v2, p, true, 0, end);
    }
}

proof fn lemma_walk(d: Seq<u8>, v2: bool, first: int, i: int, k: int, j: int, offset: int)
    requires
        0 <= i <= k,
        forall|n: int| i <= n <= k ==> goes_on(d, v2, #[trigger] link(d, v2, first, n)),
        forall|n: int| i <= n < k ==> no_track(d, v2, #[trigger] link(d, v2, first, n)),
        has_track(d, v2, link(d, v2, first, k), j, offset),
        forall|m: int, o: int|
            0 <= m < j ==> !#[trigger] has_track(d, v2, link(d, v2, first, k), m, o),
    ensures
        nrg::nrg_chunks(d, v2, link(d, v2, first, i)) == Some(offset as u64),
    decreases k - i,
{
    let p = link(d, v2, first, i);
    assert(goes_on(d, v2, p));
    if i < k {
        assert(no_track(d, v2, p));
        lemma_step(d, v2, p);
        assert(link(d, v2, first, i + 1) == p + 8 + told(d, v2, p));
        assert(goes_on(d, v2, link(d, v2, first, i + 1)));
        lemma_walk(d, v2, first, i + 1, k, j, offset);
    } else {
        lemma_letters(d, p, 0x45, 0x4e, 0x44, 0x21);
        lemma_letters(d, p, 0x44, 0x41, 0x4f, 0x49);
        lemma_letters(d, p, 0x44, 0x41, 0x4f, 0x58);
        let wide = laws::letters(d, p, 0x44, 0x41, 0x4f, 0x58);
        lemma_entries(d, v2, p, wide, 0, j, offset);
    }
}

/// The image ends in a footer that puts the first chunk at `first`: `NER5` and
/// a little-endian number of 64 bits, or `NERO` and a big-endian one of 32 bits.
pub open spec fn begins_at(d: Seq<u8>, v2: bool, first: int) -> bool {
    let n = d.len() as int;
    &&& n >= 12
    &&& 0 <= first < n
    &&& v2 ==> laws::letters(d, n - 4, 0x4e, 0x45, 0x52, 0x35) && bytes::le64(d, n - 12) == first
    &&& !v2 ==> laws::letters(d, n - 4, 0x4e, 0x45, 0x52, 0x4f) && bytes::be32(d, n - 8) == first
}

proof fn lemma_footer(d: Seq<u8>, v2: bool, first: int)
    requires
        begins_at(d, v2, first),
    ensures
        nrg::nrg_footer(d) == Ok::<(bool, u64), DiscError>((v2, first as u64)),
{
    let n = d.len() as int;
    lemma_letters(d, n - 4, 0x4e, 0x45, 0x52, 0x35);
    lemma_letters(d, n - 4, 0x4e, 0x45, 0x52, 0x4f);
}

/// The walk over the chunks is complete. Take the chain of chunks from the one
/// that the footer names, each eight bytes and its told length behind the one
/// before, whatever their tags are. Where chunk `k` is the first of them with an
/// entry of a data track, and entry `j` is its first such entry, the data track
/// begins at the offset of that entry; where its user data begins and the number
/// of its first sector are read there.
pub proof fn lemma_first_track_of_chain(
    log: Log,
    d: Seq<u8>,
    v2: bool,
    first: int,
    k: int,
    j: int,
    offset: int,
)
    requires
        begins_at(d, v2, first),
        0 <= k,
        forall|n: int| 0 <= n <= k ==> goes_on(d, v2, #[trigger] link(d, v2, first, n)),
        forall|n: int| 0 <= n < k ==> no_track(d, v2, #[trigger] link(d, v2, first, n)),
        has_track(d, v2, link(d, v2, first, k), j, offset),
        forall|m: int, o: int|
            0 <= m < j ==> !#[trigger] has_track(d, v2, link(d, v2, first, k), m, o),
    ensures
        nrg::nrg_image(log, d) !is Fault,
        nrg::nrg_image(log, d) matches Step::Done(r) ==> (r matches Ok(t) && {
            &&& t.track_offset == offset
            &&& t.bin == 0
            &&& t.stride == 2352
            &&& !t.descramble
            &&& t.sector_count == 0
            &&& sector::format_at(log, 0, offset as u64) matches Step::Done(f)
            &&& t.user_data_offset == f.1
            &&& f.1 == 0 ==> t.lba_offset == 0
            &&& f.1 != 0 ==> sector::lba_at(log, 0, offset as u64) == Step::Done(t.lba_offset)
        }),
{
    lemma_footer(d, v2, first);
    assert(link(d, v2, first, 0) == first);
    lemma_walk(d, v2, first, 0, k, j, offset);
}

proof fn lemma_walk_ends(d: Seq<u8>, v2: bool, first: int, i: int, n: int)
    requires
        0 <= i <= n,
        0 <= first,
        forall|m: int| i <= m < n ==> goes_on(d, v2, #[trigger] link(d, v2, first, m)),
        forall|m: int| i <= m < n ==> no_track(d, v2, #[trigger] link(d, v2, first, m)),
        !goes_on(d, v2, link(d, v2, first, n)),
        0 <= link(d, v2, first, i),
    ensures
        link(d, v2, first, i) <= d.len() ==> nrg::nrg_chunks(d, v2, link(d, v2, first, i)) is None,
    decreases n - i,
{
    let p = link(d, v2, first, i);
    lemma_letters(d, p, 0x45, 0x4e, 0x44, 0x21);
    if i < n {
        assert(goes_on(d, v2, p));
        assert(no_track(d, v2, p));
        lemma_step(d, v2, p);
        assert(link(d, v2, first, i + 1) == p + 8 + told(d, v2, p));
        lemma_walk_ends(d, v2, first, i + 1, n);
    }
}

/// Where no chunk of the chain has an entry of a data track, there is none.
pub proof fn lemma_no_track_on_chain(log: Log, d: Seq<u8>, v2: bool, first: int, n: int)
    requires
        begins_at(d, v2, first),
        0 <= n,
        forall|m: int| 0 <= m < n ==> goes_on(d, v2, #[trigger] link(d, v2, first, m)),
        forall|m: int| 0 <= m < n ==> no_track(d, v2, #[trigger] link(d, v2, first, m)),
        !goes_on(d, v2, link(d, v2, first, n)),
    ensures
        nrg::nrg_image(log, d) == Step::Done(
            Err::<DataTrack, DiscError>(DiscError::NrgNoDataTrack),
        ),
{
    lemma_footer(d, v2, first);
    assert(link(d, v2, first, 0) == first);
    lemma_walk_ends(d, v2, first, 0, n);
}

/// What is no Nero image: a file shorter than twelve bytes, one that closes with
/// neither tag, and one whose first chunk would be behind its end.
pub proof fn lemma_not_nero(log: Log, d: Seq<u8>)
    ensures
        ({
            let n = d.len() as int;
            let ner5 = laws::letters(d, n - 4, 0x4e, 0x45, 0x52, 0x35);
            let nero = laws::letters(d, n - 4, 0x4e, 0x45, 0x52, 0x4f);
            &&& n < 12 ==> nrg::nrg_image(log, d) == Step::Done(
                Err::<DataTrack, DiscError>(DiscError::NrgTooSmall),
            )
            &&& n >= 12 && !ner5 && !nero ==> nrg::nrg_image(log, d) == Step::Done(
                Err::<DataTrack, DiscError>(DiscError::NrgNotNero),
            )
            &&& n >= 12 && ner5 && bytes::le64(d, n - 12) >= n ==> nrg::nrg_image(log, d)
                == Step::Done(Err::<DataTrack, DiscError>(DiscError::NrgChunkOffset))
            &&& n >= 12 && nero && bytes::be32(d, n - 8) >= n ==> nrg::nrg_image(log, d)
                == Step::Done(Err::<DataTrack, DiscError>(DiscError::NrgChunkOffset))
        }),
{
    let n = d.len() as int;
    if n >= 12 {
        lemma_letters(d, n - 4, 0x4e, 0x45, 0x52, 0x35);
        lemma_letters(d, n - 4, 0x4e, 0x45, 0x52, 0x4f);
    }
}

} // verus!
