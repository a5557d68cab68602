//! Sectors and their headers.
use crate::device::{Log, Query, Step};
use crate::laws;
use crate::sector;
use vstd::prelude::*;

verus! {

/// A sector with the sync pattern begins at `p`: a zero, ten times 255, a zero.
pub open spec fn syncs(d: Seq<u8>, p: int) -> bool {
    &&& 0 <= p
    &&& p + 12 <= d.len()
    &&& d[p] == 0
    &&& d[p + 11] == 0
    &&& forall|k: int| 1 <= k <= 10 ==> #[trigger] d[p + k] == 255
}

/// Two digits in one byte.
pub open spec fn packed(b: u8, n: int) -> bool {
    exists|high: int, low: int|
        0 <= high < 16 && 0 <= low < 16 && b == #[trigger] (high * 16 + low) && n == high * 10 + low
}

proof fn lemma_syncs(d: Seq<u8>, p: int, n: int)
    requires
        0 <= p,
        12 <= n,
        p + n <= d.len(),
    ensures
        sector::is_synced(d.subrange(p, p + n)) == syncs(d, p),
{
    let b = d.subrange(p, p + n);
    let t = b.subrange(0, 12);
    assert(forall|k: int| 0 <= k < 12 ==> #[trigger] t[k] == d[p + k]);
    let s = seq![0x00u8, 0xff, 0xff, 0xff, 0xff, 0xff, 0xff, 0xff, 0xff, 0xff, 0xff, 0x00];
    if syncs(d, p) {
        assert forall|k: int| 0 <= k < 12 implies #[trigger] t[k] == s[k] by {
            if 1 <= k <= 10 {
                assert(d[p + k] == 255);
            }
        }
        assert(t =~= s);
    }
    if t == s {
        assert(d[p] == t[0] && d[p + 11] == t[11]);
        assert forall|k: int| 1 <= k <= 10 implies #[trigger] d[p + k] == 255 by {
            assert(t[k] == s[k]);
        }
    }
}

/// The number of a sector is its address less two seconds: an address of `m`
/// minutes, `s` seconds and `f` frames, each in two digits of one byte behind the
/// sync pattern, is sector `(m * 60 + s) * 75 + f - 150`, and sector 0 where it
/// is before that. A sector without the pattern has the number 0.
pub proof fn lemma_address(log: Log, file: usize, d: Seq<u8>, p: u64, m: int, s: int, f: int)
    requires
        laws::shows(log, file, d),
    ensures
        sector::lba_at(log, file, p) !is Fault,
        sector::lba_at(log, file, p) matches Step::Ask(q) ==> log.known(q) is None,
        p + 15 <= d.len() && syncs(d, p as int) && packed(d[p + 12], m) && packed(d[p + 13], s)
            && packed(d[p + 14], f) && (m * 60 + s) * 75 + f >= 150 ==> (sector::lba_at(
            log,
            file,
            p,
        ) matches Step::Done(n) ==> n + 150 == (m * 60 + s) * 75 + f),
        p + 15 <= d.len() && syncs(d, p as int) && packed(d[p + 12], m) && packed(d[p + 13], s)
            && packed(d[p + 14], f) && (m * 60 + s) * 75 + f < 150 ==> (sector::lba_at(
            log,
            file,
            p,
        ) matches Step::Done(n) ==> n == 0),
        !syncs(d, p as int) || p + 15 > d.len() ==> (sector::lba_at(log, file, p) matches Step::Done(
            n,
        ) ==> n == 0),
{
    let q = Query::Read { file, offset: p, len: 15 };
    if log.known(q) is Some {
        let b = log.known(q)->0.bytes();
        if p + 15 <= d.len() {
            assert(b == d.subrange(p as int, p + 15));
            lemma_syncs(d, p as int, 15);
            assert(b[12] == d[p + 12] && b[13] == d[p + 13] && b[14] == d[p + 14]);
            if packed(d[p + 12], m) && packed(d[p + 13], s) && packed(d[p + 14], f) {
                lemma_packed(d[p + 12], m);
                lemma_packed(d[p + 13], s);
                lemma_packed(d[p + 14], f);
                let n = (m * 60 + s) * 75 + f;
                assert(0 <= n <= 1000000);
            }
        }
    }
}

proof fn lemma_packed(b: u8, n: int)
    requires
        packed(b, n),
    ensures
        sector::bcd(b) == n,
        0 <= n <= 165,
{
    let (high, low) = choose|high: int, low: int|
        0 <= high < 16 && 0 <= low < 16 && b == #[trigger] (high * 16 + low) && n == high * 10
            + low;
    assert(b / 16 == high && b % 16 == low) by (nonlinear_arith)
        requires
            b == high * 16 + low,
            0 <= low < 16,
            0 <= high < 16,
    ;
}

/// What a sector of a file shows of itself: with the sync pattern it is raw, 2352
/// bytes, and its user data begins behind 24 bytes where its mode byte is 2 and
/// behind 16 bytes else; without the pattern it is 2048 bytes of user data.
pub proof fn lemma_format(log: Log, file: usize, d: Seq<u8>, p: u64)
    requires
        laws::shows(log, file, d),
    ensures
        sector::format_at(log, file, p) !is Fault,
        sector::format_at(log, file, p) matches Step::Ask(q) ==> log.known(q) is None,
        sector::format_at(log, file, p) matches Step::Done(f) ==> {
            &&& p + 16 <= d.len() && syncs(d, p as int) && d[p + 15] == 2 ==> f == (2352u64, 24u64)
            &&& p + 16 <= d.len() && syncs(d, p as int) && d[p + 15] != 2 ==> f == (2352u64, 16u64)
            &&& p + 16 > d.len() || !syncs(d, p as int) ==> f == (2048u64, 0u64)
        },
        p == 0 ==> (sector::raw_offset(log, file) matches Step::Done(o) ==> {
            &&& 16 <= d.len() && syncs(d, 0) && d[15] == 2 ==> o == 24
            &&& 16 <= d.len() && syncs(d, 0) && d[15] != 2 ==> o == 16
            &&& 16 > d.len() || !syncs(d, 0) ==> o == 0
        }),
        sector::raw_offset(log, file) !is Fault,
        sector::raw_offset(log, file) matches Step::Ask(q) ==> log.known(q) is None,
{
    let q = Query::Read { file, offset: p, len: 16 };
    if log.known(q) is Some {
        let b = log.known(q)->0.bytes();
        if p + 16 <= d.len() {
            assert(b == d.subrange(p as int, p + 16));
            lemma_syncs(d, p as int, 16);
            assert(b[15] == d[p + 15]);
        }
    }
}

/// The same, of the bytes of a sector that was read.
pub proof fn lemma_sector_format(b: Seq<u8>)
    ensures
        b.len() >= 16 && syncs(b, 0) && b[15] == 2 ==> sector::sector_format(b) == (2352u64, 24u64),
        b.len() >= 16 && syncs(b, 0) && b[15] != 2 ==> sector::sector_format(b) == (2352u64, 16u64),
        b.len() < 16 || !syncs(b, 0) ==> sector::sector_format(b) == (2048u64, 0u64),
{
    if b.len() >= 16 {
        lemma_syncs(b, 0, b.len() as int);
        assert(b.subrange(0, b.len() as int) =~= b);
    }
}

} // verus!
