//! Volume descriptors.
use crate::device::{Log, Query, Spot, Step};
use crate::laws;
use crate::track::DataTrack;
use crate::volume;
use vstd::prelude::*;

verus! {

/// `CD001` stands behind the byte at `p`.
pub open spec fn marked(d: Seq<u8>, p: int) -> bool {
    0 <= p && p + 6 <= d.len() && d[p + 1] == 0x43 && d[p + 2] == 0x44 && d[p + 3] == 0x30 && d[p
        + 4] == 0x30 && d[p + 5] == 0x31
}

/// Where the descriptor of the absolute sector `lba` stands: the first sector of
/// the track is sector `lba_offset`, where `lba` is not before it.
pub open spec fn place(spot: Spot, lba: int) -> int {
    spot.track_offset + spot.user_data_offset + (if lba < spot.lba_offset {
        lba
    } else {
        lba - spot.lba_offset
    }) * spot.stride
}

/// The descriptors end at `lba`: sector `lba` cannot be read whole, or is of
/// type 255.
pub open spec fn last(d: Seq<u8>, spot: Spot, lba: int) -> bool {
    place(spot, lba) + 2048 > d.len() || d[place(spot, lba)] == 255
}

/// Sector `lba` is a supplementary descriptor with one of the three escape
/// sequences of Joliet.
pub open spec fn names_joliet(d: Seq<u8>, spot: Spot, lba: int) -> bool {
    let p = place(spot, lba);
    d[p] == 2 && d[p + 88] == 0x25 && d[p + 89] == 0x2f && (d[p + 90] == 0x40 || d[p + 90] == 0x43
        || d[p + 90] == 0x45)
}

/// The sectors from `from` on and before `end` that name a Joliet volume.
pub open spec fn joliet_sectors(d: Seq<u8>, spot: Spot, from: int, end: int) -> Set<int> {
    Set::new(|l: int| from <= l < end && names_joliet(d, spot, l))
}

/// Sector `end` is where the descriptors behind the primary one end: it is the
/// first sector from 17 on that ends them, or 32.
pub open spec fn ends_at(d: Seq<u8>, spot: Spot, end: int) -> bool {
    &&& 17 <= end <= 32
    &&& end < 32 ==> last(d, spot, end)
    &&& forall|l: int| 17 <= l < end ==> !#[trigger] last(d, spot, l)
    &&& forall|l: int| 17 <= l <= end && l < 32 ==> #[trigger] place(spot, l) <= u64::MAX
}

proof fn lemma_finite(d: Seq<u8>, spot: Spot, from: int, end: int)
    requires
        from <= end,
    ensures
        joliet_sectors(d, spot, from, end).finite(),
        joliet_sectors(d, spot, from, end).len() <= end - from,
    decreases end - from,
{
    let s = joliet_sectors(d, spot, from, end);
    if from == end {
        assert(s =~= Set::empty());
    } else {
        let t = joliet_sectors(d, spot, from + 1, end);
        lemma_finite(d, spot, from + 1, end);
        if names_joliet(d, spot, from) {
            assert(s =~= t.insert(from));
        } else {
            assert(s =~= t);
        }
    }
}

proof fn lemma_place(spot: Spot, lba: int)
    ensures
        volume::descriptor_at(spot, lba) == place(spot, lba),
{
}

proof fn lemma_count(
    log: Log,
    file: usize,
    d: Seq<u8>,
    spot: Spot,
    end: int,
    lba: int,
    n: u64,
)
    requires
        laws::shows(log, file, d),
        ends_at(d, spot, end),
        17 <= lba <= end,
        n <= lba,
    ensures
        volume::joliet_count(log, file, spot, lba, n) !is Fault,
        volume::joliet_count(log, file, spot, lba, n) matches Step::Ask(q) ==> log.known(q) is None,
        volume::joliet_count(log, file, spot, lba, n) matches Step::Done(c) ==> c == n
            + joliet_sectors(d, spot, lba, end).len(),
    decreases end - lba,
{
    lemma_finite(d, spot, lba, end);
    if lba < 32 {
        lemma_place(spot, lba);
        let p = place(spot, lba);
        assert(0 <= p) by (nonlinear_arith)
            requires
                p == spot.track_offset + spot.user_data_offset + (if lba < spot.lba_offset {
                    lba
                } else {
                    lba - spot.lba_offset
                }) * spot.stride,
                lba >= 17,
        ;
        assert(p <= u64::MAX);
        let q = Query::Read { file, offset: p as u64, len: 2048 };
        if log.known(q) is Some {
            let b = log.known(q)->0.bytes();
            if p + 2048 <= d.len() {
                assert(b == d.subrange(p, p + 2048));
                assert(b[0] == d[p] && b[88] == d[p + 88] && b[89] == d[p + 89] && b[90] == d[p
                    + 90]);
            }
            if lba < end {
                assert(!last(d, spot, lba));
                let s = joliet_sectors(d, spot, lba, end);
                let t = joliet_sectors(d, spot, lba + 1, end);
                lemma_finite(d, spot, lba + 1, end);
                if names_joliet(d, spot, lba) {
                    assert(s =~= t.insert(lba));
                    lemma_count(log, file, d, spot, end, lba + 1, (n + 1) as u64);
                } else {
                    assert(s =~= t);
                    lemma_count(log, file, d, spot, end, lba + 1, n);
                }
            } else {
                assert(joliet_sectors(d, spot, lba, end) =~= Set::empty());
            }
        }
    } else {
        assert(joliet_sectors(d, spot, lba, end) =~= Set::empty());
    }
}

/// The count of Joliet volumes is the number of sectors that name one, among
/// those from 17 up to the first that ends the descriptors: what other
/// descriptors stand between them makes no difference.
pub proof fn lemma_joliet_sectors(log: Log, file: usize, d: Seq<u8>, spot: Spot, end: int)
    requires
        laws::shows(log, file, d),
        ends_at(d, spot, end),
    ensures
        volume::joliet_count(log, file, spot, 17, 0) !is Fault,
        volume::joliet_count(log, file, spot, 17, 0) matches Step::Ask(q) ==> log.known(q) is None,
        volume::joliet_count(log, file, spot, 17, 0) matches Step::Done(n) ==> n == joliet_sectors(
            d,
            spot,
            17,
            end,
        ).len(),
{
    lemma_count(log, file, d, spot, end, 17, 0);
}

/// There is an ISO 9660 volume exactly where sector 16 can be read and is marked
/// as a descriptor, of type 1 where a primary one is asked for; beside it stand
/// as many Joliet volumes as the sectors behind it name.
pub proof fn lemma_iso_volume(
    log: Log,
    file: usize,
    d: Seq<u8>,
    spot: Spot,
    end: int,
    primary: bool,
)
    requires
        laws::shows(log, file, d),
        ends_at(d, spot, end),
        place(spot, 16) <= u64::MAX,
    ensures
        volume::iso_volume(log, file, spot, primary) !is Fault,
        volume::iso_volume(log, file, spot, primary) matches Step::Ask(q) ==> log.known(q) is None,
        volume::iso_volume(log, file, spot, primary) matches Step::Done(r) ==> {
            &&& r is Some <==> place(spot, 16) + 2048 <= d.len() && marked(d, place(spot, 16)) && (
            primary ==> d[place(spot, 16)] == 1)
            &&& r matches Some(n) ==> n == joliet_sectors(d, spot, 17, end).len()
        },
{
    lemma_joliet_sectors(log, file, d, spot, end);
    lemma_place(spot, 16);
    let p = place(spot, 16);
    assert(0 <= p) by (nonlinear_arith)
        requires
            p == spot.track_offset + spot.user_data_offset + (if 16 < spot.lba_offset {
                16
            } else {
                16 - spot.lba_offset
            }) * spot.stride,
    ;
    let q = Query::Read { file, offset: p as u64, len: 2048 };
    if log.known(q) is Some && p + 2048 <= d.len() {
        let b = log.known(q)->0.bytes();
        assert(b == d.subrange(p, p + 2048));
        lemma_marked(d, p, 2048);
    }
}

proof fn lemma_marked(d: Seq<u8>, p: int, n: int)
    requires
        0 <= p,
        6 <= n,
        p + n <= d.len(),
    ensures
        volume::is_descriptor(d.subrange(p, p + n)) == marked(d, p),
        d.subrange(p, p + n)[0] == d[p],
        d.subrange(p, p + n).len() == n,
        n >= 8 ==> d.subrange(p, p + n)[6] == d[p + 6],
{
    let b = d.subrange(p, p + n);
    let t = b.subrange(1, 6);
    assert(t[0] == d[p + 1] && t[1] == d[p + 2] && t[2] == d[p + 3] && t[3] == d[p + 4] && t[4]
        == d[p + 5]);
    if marked(d, p) {
        assert(t =~= seq![0x43u8, 0x44, 0x30, 0x30, 0x31]);
    }
}

/// A raw track has a volume descriptor exactly where `CD001` stands behind the
/// first byte of the user data of its sector 16.
pub proof fn lemma_pvd_check(log: Log, d: Seq<u8>, t: DataTrack)
    requires
        laws::shows(log, t.bin, d),
        t.track_offset + 16 * 2352 + t.user_data_offset <= u64::MAX,
    ensures
        volume::pvd_check(log, t) !is Fault,
        volume::pvd_check(log, t) matches Step::Ask(q) ==> log.known(q) is None,
        volume::pvd_check(log, t) matches Step::Done(b) ==> b == marked(
            d,
            t.track_offset + 16 * 2352 + t.user_data_offset,
        ),
{
    let p = t.track_offset + 16 * 2352 + t.user_data_offset;
    let q = Query::Read { file: t.bin, offset: p as u64, len: 6 };
    if log.known(q) is Some && p + 6 <= d.len() {
        let b = log.known(q)->0.bytes();
        assert(b == d.subrange(p, p + 6));
        lemma_marked(d, p, 6);
    }
}

/// The eight bytes at the user data of sector `n` open a primary volume
/// descriptor.
pub open spec fn opens_primary(d: Seq<u8>, base: u64, stride: u64, udo: u64, n: int) -> bool {
    let p = base + udo + n * stride;
    p + 8 <= d.len() && d[p] == 1 && marked(d, p) && d[p + 6] == 1
}

proof fn lemma_search(
    log: Log,
    file: usize,
    d: Seq<u8>,
    base: u64,
    stride: u64,
    udo: u64,
    k: int,
    from: int,
)
    requires
        laws::shows(log, file, d),
        0 <= from <= k < 512,
        opens_primary(d, base, stride, udo, 16 + k),
        forall|j: int| from <= j < k ==> !#[trigger] opens_primary(d, base, stride, udo, 16 + j),
    ensures
        volume::pvd_search(log, file, base, stride, udo, from) !is Fault,
        volume::pvd_search(log, file, base, stride, udo, from) matches Step::Ask(q) ==> log.known(
            q,
        ) is None,
        volume::pvd_search(log, file, base, stride, udo, from) matches Step::Done(r) ==> (r matches Some(
            o,
        ) && o == base + k * stride),
    decreases k - from,
{
    let p = volume::sector_at(base, volume::PVD_LBA + from, stride, udo);
    assert(0 <= from * stride <= k * stride) by (nonlinear_arith)
        requires
            0 <= from <= k,
            0 <= stride,
    ;
    assert((16 + from) * stride == 16 * stride + from * stride) by (nonlinear_arith);
    assert((16 + k) * stride == 16 * stride + k * stride) by (nonlinear_arith);
    assert(0 <= p);
    assert(p + 8 <= d.len());
    assert(opens_primary(d, base, stride, udo, 16 + from) || from < k);
    let q = Query::Read { file, offset: p as u64, len: 8 };
    if log.known(q) is Some {
        assert(log.known(q)->0.bytes() == d.subrange(p, p + 8));
        lemma_marked(d, p, 8);
        if from < k {
            assert(!opens_primary(d, base, stride, udo, 16 + from));
            lemma_search(log, file, d, base, stride, udo, k, from + 1);
        }
    }
}

/// The search for the primary descriptor finds it wherever it is among the 512
/// sectors from 16 on: the track is moved by as many sectors as the first such
/// descriptor is behind sector 16.
pub proof fn lemma_search_finds(
    log: Log,
    file: usize,
    d: Seq<u8>,
    base: u64,
    stride: u64,
    udo: u64,
    k: int,
)
    requires
        laws::shows(log, file, d),
        0 <= k < 512,
        opens_primary(d, base, stride, udo, 16 + k),
        forall|j: int| 0 <= j < k ==> !#[trigger] opens_primary(d, base, stride, udo, 16 + j),
    ensures
        volume::pvd_search(log, file, base, stride, udo, 0) !is Fault,
        volume::pvd_search(log, file, base, stride, udo, 0) matches Step::Ask(q) ==> log.known(
            q,
        ) is None,
        volume::pvd_search(log, file, base, stride, udo, 0) matches Step::Done(r) ==> (r matches Some(
            o,
        ) && o == base + k * stride),
{
    lemma_search(log, file, d, base, stride, udo, k, 0);
}

proof fn lemma_search_none(
    log: Log,
    file: usize,
    d: Seq<u8>,
    base: u64,
    stride: u64,
    udo: u64,
    from: int,
)
    requires
        laws::shows(log, file, d),
        0 <= from,
        forall|j: int| from <= j < 512 ==> !#[trigger] opens_primary(d, base, stride, udo, 16 + j),
    ensures
        volume::pvd_search(log, file, base, stride, udo, from) matches Step::Done(r) ==> r is None,
        base + udo + 528 * stride <= u64::MAX ==> volume::pvd_search(
            log,
            file,
            base,
            stride,
            udo,
            from,
        ) !is Fault,
    decreases 512 - from,
{
    if from < 512 {
        let p = volume::sector_at(base, volume::PVD_LBA + from, stride, udo);
        assert((16 + from) * stride <= 528 * stride) by (nonlinear_arith)
            requires
                from < 512,
                0 <= stride,
        ;
        assert(0 <= (16 + from) * stride) by (nonlinear_arith)
            requires
                0 <= from,
                0 <= stride,
        ;
        let q = Query::Read { file, offset: p as u64, len: 8 };
        if p <= u64::MAX && log.known(q) is Some {
            assert(!opens_primary(d, base, stride, udo, 16 + from));
            if p + 8 <= d.len() {
                assert(log.known(q)->0.bytes() == d.subrange(p, p + 8));
                lemma_marked(d, p, 8);
            }
            lemma_search_none(log, file, d, base, stride, udo, from + 1);
        }
    }
}

/// The search for the primary descriptor finds nothing where none of the 512
/// sectors from 16 on opens one; where all of them are within 64 bits it has a
/// result.
pub proof fn lemma_search_finds_nothing(
    log: Log,
    file: usize,
    d: Seq<u8>,
    base: u64,
    stride: u64,
    udo: u64,
)
    requires
        laws::shows(log, file, d),
        forall|j: int| 0 <= j < 512 ==> !#[trigger] opens_primary(d, base, stride, udo, 16 + j),
    ensures
        volume::pvd_search(log, file, base, stride, udo, 0) matches Step::Done(r) ==> r is None,
        base + udo + 528 * stride <= u64::MAX ==> volume::pvd_search(
            log,
            file,
            base,
            stride,
            udo,
            0,
        ) !is Fault,
{
    lemma_search_none(log, file, d, base, stride, udo, 0);
}

} // verus!
