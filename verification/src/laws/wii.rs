//! Wii discs and their containers.
use crate::bytes;
use crate::device::{Log, Query, Step};
use crate::error::DiscError;
use crate::laws;
use crate::seek;
use crate::seek::SeekTo;
use crate::wbfs_reader;
use crate::wbfs_reader::{WbfsHeader, WbfsView};
use crate::wii_partition;
use crate::wii_partition::WiiView;
use vstd::arithmetic::power2::pow2;
use vstd::prelude::*;

verus! {

// ── Positions ────────────────────────────────────────────────────────────────

/// Where a seek goes: so many bytes behind the start, the end or the current
/// position, but not before the start and not beyond 64 bits.
pub proof fn lemma_seek(n: u64, by: i64, pos: u64, end: u64)
    ensures
        seek::seek_position(SeekTo::Start(n), pos, end) == n,
        0 <= end + by <= u64::MAX ==> seek::seek_position(SeekTo::End(by), pos, end) == end + by,
        end + by < 0 ==> seek::seek_position(SeekTo::End(by), pos, end) == 0,
        end + by > u64::MAX ==> seek::seek_position(SeekTo::End(by), pos, end) == u64::MAX,
        0 <= pos + by <= u64::MAX ==> seek::seek_position(SeekTo::Current(by), pos, end) == pos + by,
        pos + by < 0 ==> seek::seek_position(SeekTo::Current(by), pos, end) == 0,
        pos + by > u64::MAX ==> seek::seek_position(SeekTo::Current(by), pos, end) == u64::MAX,
{
}

// ── Containers ───────────────────────────────────────────────────────────────

/// The bytes per sector of the medium of a container.
pub open spec fn medium_sector(d: Seq<u8>) -> int {
    if d[8] > 30 {
        pow2(30) as int
    } else {
        pow2(d[8] as nat) as int
    }
}

/// A container: the letters `WBFS`, and sizes that are in range.
pub open spec fn is_container(d: Seq<u8>) -> bool {
    &&& d.len() >= 12
    &&& laws::letters(d, 0, 0x57, 0x42, 0x46, 0x53)
    &&& 15 <= d[9] <= 30
    &&& medium_sector(d) >= 12
}

/// A disc of a container is `n` chunks: as many as 286864 sectors fill, each of two
/// to the power of 15 bytes.
pub open spec fn is_chunks(d: Seq<u8>, n: int) -> bool {
    let per = pow2((d[9] - 15) as nat) as int;
    0 <= n && n * per <= 286864 < (n + 1) * per
}

/// What describes a disc takes `info` bytes: a header of 256 bytes and two bytes for
/// each of `n` chunks, in whole sectors of the medium.
pub open spec fn is_info(d: Seq<u8>, n: int, info: int) -> bool {
    let hd = medium_sector(d);
    info % hd == 0 && 256 + 2 * n <= info < 256 + 2 * n + hd
}

/// The slots that a container has for discs: one for each byte of the rest of its
/// first sector, and 512 at most.
pub open spec fn slots(d: Seq<u8>) -> int {
    let hd = medium_sector(d);
    if hd < 524 {
        hd - 12
    } else {
        512
    }
}

/// The first disc of a container is in slot `slot`.
pub open spec fn is_first_disc(d: Seq<u8>, slot: int) -> bool {
    &&& 0 <= slot < slots(d)
    &&& d[12 + slot] != 0
    &&& forall|k: int| 0 <= k < slot ==> #[trigger] d[12 + k] == 0
}

proof fn lemma_magic(d: Seq<u8>)
    ensures
        laws::letters(d, 0, 0x57, 0x42, 0x46, 0x53) == bytes::bytes_at(
            d,
            0,
            wbfs_reader::wbfs_magic(),
        ),
{
    let m = wbfs_reader::wbfs_magic();
    assert(m.len() == 4 && m[0] == 0x57 && m[1] == 0x42 && m[2] == 0x46 && m[3] == 0x53);
    if d.len() >= 4 {
        let t = d.subrange(0, 4);
        assert(t[0] == d[0] && t[1] == d[1] && t[2] == d[2] && t[3] == d[3]);
        if laws::letters(d, 0, 0x57, 0x42, 0x46, 0x53) {
            assert(t =~= m);
        }
    }
}

proof fn lemma_slot(table: Seq<u8>, i: int, slot: int)
    requires
        0 <= i <= slot < table.len(),
        table[slot] != 0,
        forall|k: int| 0 <= k < slot ==> #[trigger] table[k] == 0,
    ensures
        wbfs_reader::first_disc(table, i) == slot,
    decreases slot - i,
{
    if i < slot {
        assert(table[i] == 0);
        lemma_slot(table, i + 1, slot);
    }
}

proof fn lemma_quotient(a: int, b: int, q: int)
    requires
        0 < b,
        0 <= a,
        q * b <= a < (q + 1) * b,
    ensures
        a / b == q,
{
    assert((q + 1) * b == q * b + b) by (nonlinear_arith);
    assert(b * q == q * b) by (nonlinear_arith);
    vstd::arithmetic::div_mod::lemma_fundamental_div_mod_converse(a, b, q, a - q * b);
}

proof fn lemma_round_up(a: int, b: int, info: int)
    requires
        0 < b,
        0 <= a,
        info % b == 0,
        a <= info < a + b,
    ensures
        (a + b - 1) / b * b == info,
{
    let q = info / b;
    vstd::arithmetic::div_mod::lemma_fundamental_div_mod(info, b);
    assert(b * q == q * b) by (nonlinear_arith);
    assert((q + 1) * b == q * b + b) by (nonlinear_arith);
    lemma_quotient(a + b - 1, b, q);
}

proof fn lemma_sizes(d: Seq<u8>, h: WbfsHeader, n: int, info: int)
    requires
        is_container(d),
        is_chunks(d, n),
        is_info(d, n, info),
        h.hd_sec_sz == medium_sector(d),
        h.wbfs_sec_sz_s == d[9],
    ensures
        h.chunks() == n,
        h.info_size() == info,
        h.chunk_size() == pow2(d[9] as nat),
        0 < n <= 286864,
{
    let per = pow2((d[9] - 15) as nat) as int;
    vstd::arithmetic::power2::lemma_pow2_pos((d[9] - 15) as nat);
    lemma_quotient(286864, per, n);
    lemma_round_up(256 + 2 * n, medium_sector(d), info);
    vstd::arithmetic::power2::lemma2_to64();
    if d[9] < 30 {
        vstd::arithmetic::power2::lemma_pow2_strictly_increases((d[9] - 15) as nat, 15);
    }
    assert(0 < n) by (nonlinear_arith)
        requires
            286864 < (n + 1) * per,
            0 < per <= 32768,
    ;
    assert(n <= n * per) by (nonlinear_arith)
        requires
            0 <= n,
            1 <= per,
    ;
}

proof fn lemma_medium(d: Seq<u8>)
    ensures
        1 <= medium_sector(d) <= 0x4000_0000,
{
    vstd::arithmetic::power2::lemma2_to64();
    let s: nat = if d[8] > 30 {
        30
    } else {
        d[8] as nat
    };
    vstd::arithmetic::power2::lemma_pow2_pos(s);
    if s < 30 {
        vstd::arithmetic::power2::lemma_pow2_strictly_increases(s, 30);
    }
}

/// What the reader of a container with the bytes `d` has: the chunks of its first
/// disc, as its table of chunks places them.
pub proof fn lemma_container(log: Log, d: Seq<u8>, n: int, info: int, slot: int)
    requires
        laws::shows(log, 0, d),
        is_container(d),
        is_chunks(d, n),
        is_info(d, n, info),
        is_first_disc(d, slot),
        12 + slots(d) <= d.len(),
        medium_sector(d) + slot * info + 256 + 2 * n <= d.len(),
    ensures
        wbfs_reader::wbfs_image(log) !is Fault,
        wbfs_reader::wbfs_image(log) matches Step::Done(r) ==> (r matches Ok(v) && {
            let at = medium_sector(d) + slot * info + 256;
            &&& v.wbfs_sec_sz == pow2(d[9] as nat)
            &&& v.disc_size == n * pow2(d[9] as nat)
            &&& v.pos == 0
            &&& v.wlba_table.len() == n
            &&& forall|i: int|
                0 <= i < n ==> #[trigger] v.wlba_table[i] == 256 * d[at + 2 * i] + d[at + 2 * i + 1]
        }),
{
    lemma_magic(d);
    lemma_medium(d);
    let hd = medium_sector(d);
    let h = WbfsHeader { hd_sec_sz: hd as u64, wbfs_sec_sz_s: d[9] as u32 };
    lemma_sizes(d, h, n, info);
    let head = Query::Read { file: 0, offset: 0, len: 12 };
    if log.known(head) is Some {
        let b = log.known(head)->0.bytes();
        assert(b == d.subrange(0, 12));
        lemma_magic(b);
        assert(b[8] == d[8] && b[9] == d[9] && b[0] == d[0] && b[1] == d[1] && b[2] == d[2] && b[3]
            == d[3]);
        assert(wbfs_reader::wbfs_header(b) == Ok::<WbfsHeader, DiscError>(h));
        let tb = h.table_bytes();
        let q = Query::Read { file: 0, offset: 12, len: tb as u64 };
        if log.known(q) is Some {
            let t = log.known(q)->0.bytes();
            assert(t == d.subrange(12, 12 + tb));
            assert(t[slot] == d[12 + slot]);
            assert forall|k: int| 0 <= k < slot implies #[trigger] t[k] == 0 by {
                assert(t[k] == d[12 + k]);
            }
            lemma_slot(t, 0, slot);
            let at = hd + slot * info + 256;
            assert(0 <= slot * info) by (nonlinear_arith)
                requires
                    0 <= slot,
                    0 <= info,
            ;
            assert(h.chunk_table(slot) == at);
            let p = Query::Read { file: 0, offset: at as u64, len: (n * 2) as u64 };
            if log.known(p) is Some {
                let c = log.known(p)->0.bytes();
                assert(c == d.subrange(at, at + n * 2));
                vstd::arithmetic::power2::lemma_pow2_pos(d[9] as nat);
                lemma_disc_fits(d, n);
                assert forall|i: int| 0 <= i < n implies #[trigger] wbfs_reader::chunk_entries(c)[i]
                    == 256 * d[at + 2 * i] + d[at + 2 * i + 1] by {
                    assert(c[2 * i] == d[at + 2 * i] && c[2 * i + 1] == d[at + 2 * i + 1]);
                }
            }
        }
    }
}

proof fn lemma_disc_fits(d: Seq<u8>, n: int)
    requires
        is_container(d),
        is_chunks(d, n),
    ensures
        0 <= n * pow2(d[9] as nat) <= u64::MAX,
        pow2(d[9] as nat) <= u64::MAX,
{
    let per = pow2((d[9] - 15) as nat) as int;
    vstd::arithmetic::power2::lemma2_to64();
    vstd::arithmetic::power2::lemma_pow2_adds((d[9] - 15) as nat, 15);
    assert(pow2(d[9] as nat) == per * 32768);
    vstd::arithmetic::power2::lemma_pow2_pos((d[9] - 15) as nat);
    assert(n * (per * 32768) == (n * per) * 32768) by (nonlinear_arith);
    if d[9] < 30 {
        vstd::arithmetic::power2::lemma_pow2_strictly_increases(d[9] as nat, 30);
    }
}

/// What is no container.
pub proof fn lemma_no_container(log: Log, d: Seq<u8>)
    requires
        laws::shows(log, 0, d),
    ensures
        wbfs_reader::wbfs_image(log) matches Step::Done(r) ==> {
            &&& d.len() < 12 ==> r == Err::<WbfsView, DiscError>(DiscError::WbfsHeaderRead)
            &&& d.len() >= 12 && !laws::letters(d, 0, 0x57, 0x42, 0x46, 0x53) ==> r == Err::<
                WbfsView,
                DiscError,
            >(DiscError::WbfsMagic)
            &&& d.len() >= 12 && laws::letters(d, 0, 0x57, 0x42, 0x46, 0x53) && !(15 <= d[9] <= 30)
                ==> r == Err::<WbfsView, DiscError>(DiscError::WbfsSectorShift(d[9] as u32))
            &&& d.len() >= 12 && laws::letters(d, 0, 0x57, 0x42, 0x46, 0x53) && 15 <= d[9] <= 30
                && medium_sector(d) < 12 ==> r == Err::<WbfsView, DiscError>(
                DiscError::WbfsHdSector(medium_sector(d) as u64),
            )
        },
{
    let head = Query::Read { file: 0, offset: 0, len: 12 };
    if d.len() >= 12 && log.known(head) is Some {
        let b = log.known(head)->0.bytes();
        assert(b == d.subrange(0, 12));
        lemma_magic(b);
        assert(b[8] == d[8] && b[9] == d[9] && b[0] == d[0] && b[1] == d[1] && b[2] == d[2] && b[3]
            == d[3]);
    }
}

proof fn lemma_no_slot(table: Seq<u8>, i: int)
    requires
        0 <= i <= table.len(),
        forall|k: int| 0 <= k < table.len() ==> #[trigger] table[k] == 0,
    ensures
        wbfs_reader::first_disc(table, i) == table.len(),
    decreases table.len() - i,
{
    if i < table.len() {
        assert(table[i] == 0);
        lemma_no_slot(table, i + 1);
    }
}

proof fn lemma_header(d: Seq<u8>, b: Seq<u8>)
    requires
        is_container(d),
        d.len() >= 12,
        b == d.subrange(0, 12),
    ensures
        wbfs_reader::wbfs_header(b) == Ok::<WbfsHeader, DiscError>(
            WbfsHeader { hd_sec_sz: medium_sector(d) as u64, wbfs_sec_sz_s: d[9] as u32 },
        ),
{
    lemma_magic(d);
    lemma_magic(b);
    lemma_medium(d);
    assert(b[8] == d[8] && b[9] == d[9] && b[0] == d[0] && b[1] == d[1] && b[2] == d[2] && b[3]
        == d[3]);
}

/// A container that is cut off in its table of discs, or has no disc, has no reader.
pub proof fn lemma_no_disc(log: Log, d: Seq<u8>)
    requires
        laws::shows(log, 0, d),
        is_container(d),
        d.len() >= 12,
    ensures
        wbfs_reader::wbfs_image(log) matches Step::Done(r) ==> {
            &&& d.len() < 12 + slots(d) ==> r == Err::<WbfsView, DiscError>(DiscError::WbfsTableRead)
            &&& d.len() >= 12 + slots(d) && (forall|k: int|
                0 <= k < slots(d) ==> #[trigger] d[12 + k] == 0) ==> r == Err::<WbfsView, DiscError>(
                DiscError::WbfsNoDisc,
            )
        },
{
    lemma_medium(d);
    let head = Query::Read { file: 0, offset: 0, len: 12 };
    if log.known(head) is Some {
        lemma_header(d, log.known(head)->0.bytes());
        let n = slots(d);
        let q = Query::Read { file: 0, offset: 12, len: n as u64 };
        if log.known(q) is Some && d.len() >= 12 + n {
            let t = log.known(q)->0.bytes();
            assert(t == d.subrange(12, 12 + n));
            if forall|k: int| 0 <= k < n ==> #[trigger] d[12 + k] == 0 {
                assert forall|k: int| 0 <= k < t.len() implies #[trigger] t[k] == 0 by {
                    assert(t[k] == d[12 + k]);
                }
                lemma_no_slot(t, 0);
            }
        }
    }
}

/// A container that is cut off in the table of chunks of its first disc has no reader.
pub proof fn lemma_no_chunks(log: Log, d: Seq<u8>, n: int, info: int, slot: int)
    requires
        laws::shows(log, 0, d),
        is_container(d),
        is_chunks(d, n),
        is_info(d, n, info),
        is_first_disc(d, slot),
        12 + slots(d) <= d.len() < medium_sector(d) + slot * info + 256 + 2 * n,
    ensures
        wbfs_reader::wbfs_image(log) matches Step::Done(r) ==> r == Err::<WbfsView, DiscError>(
            DiscError::WbfsChunkRead,
        ),
{
    lemma_medium(d);
    let h = WbfsHeader { hd_sec_sz: medium_sector(d) as u64, wbfs_sec_sz_s: d[9] as u32 };
    lemma_sizes(d, h, n, info);
    let head = Query::Read { file: 0, offset: 0, len: 12 };
    if log.known(head) is Some {
        lemma_header(d, log.known(head)->0.bytes());
        let q = Query::Read { file: 0, offset: 12, len: slots(d) as u64 };
        if log.known(q) is Some {
            let t = log.known(q)->0.bytes();
            assert(t == d.subrange(12, 12 + slots(d)));
            assert(t[slot] == d[12 + slot]);
            assert forall|k: int| 0 <= k < slot implies #[trigger] t[k] == 0 by {
                assert(t[k] == d[12 + k]);
            }
            lemma_slot(t, 0, slot);
            assert(0 <= slot * info <= 512 * 0x1_0000_0000) by (nonlinear_arith)
                requires
                    0 <= slot < 512,
                    0 <= info <= 0x1_0000_0000,
            ;
            assert(h.chunk_table(slot) == medium_sector(d) + slot * info + 256);
        }
    }
}

/// What a read from a disc gives at byte `r` of chunk `q`: the bytes up to the end of
/// the chunk, as many as were asked for at most; they stand in the container where
/// the table places the chunk, and are zeros where it places it nowhere.
pub proof fn lemma_container_read(log: Log, v: WbfsView, d: Seq<u8>, q: int, r: int, len: u64)
    requires
        v.wf(),
        laws::shows(log, 0, d),
        0 <= q < v.wlba_table.len(),
        0 <= r < v.wbfs_sec_sz,
        v.pos == q * v.wbfs_sec_sz + r,
        v.wlba_table[q] > 0 ==> (v.wlba_table[q] + 1) * v.wbfs_sec_sz <= d.len(),
    ensures
        v.read_step(log, len) !is Fault,
        v.read_step(log, len) matches Step::Done(s) ==> (s matches Ok(got) && {
            &&& len <= v.wbfs_sec_sz - r ==> got.len() == len
            &&& len > v.wbfs_sec_sz - r ==> got.len() == v.wbfs_sec_sz - r
            &&& forall|k: int|
                0 <= k < got.len() ==> #[trigger] got[k] == (if v.wlba_table[q] == 0 {
                    0u8
                } else {
                    d[v.wlba_table[q] * v.wbfs_sec_sz + r + k]
                })
        }),
{
    let s = v.wbfs_sec_sz as int;
    let n = v.wlba_table.len() as int;
    vstd::arithmetic::div_mod::lemma_fundamental_div_mod_converse(v.pos as int, s, q, r);
    assert(v.pos < v.disc_size) by (nonlinear_arith)
        requires
            v.pos == q * s + r,
            r < s,
            q + 1 <= n,
            v.disc_size == n * s,
            0 < s,
            0 <= q,
    ;
    let w = v.wlba_table[q] as int;
    assert((w + 1) * s == w * s + s) by (nonlinear_arith);
    assert(0 <= w * s) by (nonlinear_arith)
        requires
            0 <= w,
            0 < s,
    ;
    if w > 0 && v.read_len(len) > 0 {
        let m = v.read_len(len);
        let offset = w * s + r;
        let p = Query::Read { file: 0, offset: offset as u64, len: m as u64 };
        if log.known(p) is Some {
            let got = log.known(p)->0.bytes();
            assert(got == d.subrange(offset, offset + m));
        }
    }
}

/// A read from a chunk that the container is cut off in is an error.
pub proof fn lemma_container_cut(log: Log, v: WbfsView, d: Seq<u8>, q: int, r: int, len: u64)
    requires
        v.wf(),
        laws::shows(log, 0, d),
        0 <= q < v.wlba_table.len(),
        0 <= r < v.wbfs_sec_sz,
        v.pos == q * v.wbfs_sec_sz + r,
        v.wlba_table[q] > 0,
        0 < len <= v.wbfs_sec_sz - r,
        v.wlba_table[q] * v.wbfs_sec_sz + r + len > d.len(),
    ensures
        v.read_step(log, len) matches Step::Done(s) ==> s == Err::<Seq<u8>, DiscError>(
            DiscError::Read,
        ),
{
    let s = v.wbfs_sec_sz as int;
    let n = v.wlba_table.len() as int;
    vstd::arithmetic::div_mod::lemma_fundamental_div_mod_converse(v.pos as int, s, q, r);
    assert(v.pos < v.disc_size) by (nonlinear_arith)
        requires
            v.pos == q * s + r,
            r < s,
            q + 1 <= n,
            v.disc_size == n * s,
            0 < s,
            0 <= q,
    ;
    let w = v.wlba_table[q] as int;
    assert(0 <= w * s <= 0xffff * 0x4000_0000) by (nonlinear_arith)
        requires
            0 <= w <= 0xffff,
            0 < s <= 0x4000_0000,
    ;
}

/// At the end of a disc a read gives nothing.
pub proof fn lemma_container_end(log: Log, v: WbfsView, len: u64)
    requires
        v.pos >= v.disc_size,
    ensures
        v.read_step(log, len) matches Step::Done(Ok(got)) && got.len() == 0,
{
}

// ── Partitions ───────────────────────────────────────────────────────────────

/// The partitions that group `g` of a disc has.
pub open spec fn partitions(d: Seq<u8>, g: int) -> int {
    bytes::be32(d, 0x40000 + 8 * g)
}

/// Where entry `k` of the table of group `g` stands. Offsets are told in words of
/// four bytes.
pub open spec fn entry(d: Seq<u8>, g: int, k: int) -> int {
    4 * bytes::be32(d, 0x40004 + 8 * g) + 8 * k
}

/// Group `g` has entry `k`, and it is of a data partition, or beyond the end of the
/// disc.
pub open spec fn ends_search(d: Seq<u8>, g: int, k: int) -> bool {
    &&& 0 <= g < 4
    &&& 0 <= k < partitions(d, g)
    &&& entry(d, g, k) + 8 <= d.len() ==> bytes::be32(d, entry(d, g, k) + 4) == 0
}

/// Where the partition of this entry begins; an entry beyond the end tells nothing.
pub open spec fn told(d: Seq<u8>, g: int, k: int) -> Option<u64> {
    if entry(d, g, k) + 8 <= d.len() {
        Some((4 * bytes::be32(d, entry(d, g, k))) as u64)
    } else {
        None
    }
}

proof fn lemma_table(log: Log, d: Seq<u8>, g: int, k: int, j: int)
    requires
        laws::shows(log, 0, d),
        d.len() >= 0x40020,
        0 <= g < 4,
        0 <= k <= j <= partitions(d, g),
        forall|i: int| k <= i < j ==> !#[trigger] ends_search(d, g, i),
        j < partitions(d, g) ==> ends_search(d, g, j),
    ensures
        ({
            let s = wii_partition::table_search(
                log,
                bytes::be32(d, 0x40004 + 8 * g) * 4,
                partitions(d, g),
                k,
            );
            &&& s !is Fault
            &&& s matches Step::Done(r) ==> r == (if j < partitions(d, g) {
                match told(d, g, j) {
                    Some(p) => Some(Some(p)),
                    None => None,
                }
            } else {
                Some(None)
            })
        }),
    decreases j - k,
{
    if k < partitions(d, g) {
        let p = entry(d, g, k);
        if k < j {
            assert(!ends_search(d, g, k));
        }
        let q = Query::Read { file: 0, offset: p as u64, len: 8 };
        if log.known(q) is Some && p + 8 <= d.len() {
            let b = log.known(q)->0.bytes();
            assert(b == d.subrange(p, p + 8));
            assert(b[0] == d[p] && b[1] == d[p + 1] && b[2] == d[p + 2] && b[3] == d[p + 3] && b[4]
                == d[p + 4] && b[5] == d[p + 5] && b[6] == d[p + 6] && b[7] == d[p + 7]);
            assert(bytes::be32(b, 0) == bytes::be32(d, p));
            assert(bytes::be32(b, 4) == bytes::be32(d, p + 4));
            if k < j {
                lemma_table(log, d, g, k + 1, j);
            }
        }
    }
}

proof fn lemma_group(log: Log, d: Seq<u8>, hdr: Seq<u8>, i: int, g: int, k: int)
    requires
        laws::shows(log, 0, d),
        d.len() >= 0x40020,
        hdr == d.subrange(0x40000, 0x40020),
        0 <= i <= g <= 4,
        forall|a: int, b: int| i <= a < g ==> !#[trigger] ends_search(d, a, b),
        g < 4 ==> ends_search(d, g, k),
        forall|b: int| 0 <= b < k ==> !#[trigger] ends_search(d, g, b),
    ensures
        wii_partition::group_search(log, hdr, i) !is Fault,
        wii_partition::group_search(log, hdr, i) matches Step::Done(r) ==> r == (if g < 4 {
            told(d, g, k)
        } else {
            None
        }),
    decreases g - i,
{
    if i < 4 {
        assert(hdr[8 * i] == d[0x40000 + 8 * i] && hdr[8 * i + 1] == d[0x40000 + 8 * i + 1]
            && hdr[8 * i + 2] == d[0x40000 + 8 * i + 2] && hdr[8 * i + 3] == d[0x40000 + 8 * i + 3]
            && hdr[8 * i + 4] == d[0x40004 + 8 * i] && hdr[8 * i + 5] == d[0x40004 + 8 * i + 1]
            && hdr[8 * i + 6] == d[0x40004 + 8 * i + 2] && hdr[8 * i + 7] == d[0x40004 + 8 * i
            + 3]);
        assert(bytes::be32(hdr, 8 * i) == partitions(d, i));
        assert(bytes::be32(hdr, 8 * i + 4) == bytes::be32(d, 0x40004 + 8 * i));
        if i < g {
            lemma_table(log, d, i, 0, partitions(d, i));
            lemma_group(log, d, hdr, i + 1, g, k);
        } else {
            lemma_table(log, d, g, 0, k);
        }
    }
}

/// The data partition of a disc is the first one of type 0 in the tables of its four
/// groups, one group behind the other; without one there is none, and none is looked
/// for behind an entry beyond the end of the disc.
pub proof fn lemma_data_partition(log: Log, d: Seq<u8>, g: int, k: int)
    requires
        laws::shows(log, 0, d),
        d.len() >= 0x40020,
        0 <= g <= 4,
        forall|a: int, b: int| 0 <= a < g ==> !#[trigger] ends_search(d, a, b),
        g < 4 ==> ends_search(d, g, k),
        forall|b: int| 0 <= b < k ==> !#[trigger] ends_search(d, g, b),
    ensures
        wii_partition::data_partition(log) !is Fault,
        wii_partition::data_partition(log) matches Step::Done(r) ==> {
            &&& g < 4 && entry(d, g, k) + 8 <= d.len() ==> (r matches Some(p) && p == 4
                * bytes::be32(d, entry(d, g, k)))
            &&& g < 4 && entry(d, g, k) + 8 > d.len() ==> r is None
            &&& g == 4 ==> r is None
        },
{
    let q = Query::Read { file: 0, offset: 0x40000, len: 32 };
    if log.known(q) is Some {
        let b = log.known(q)->0.bytes();
        assert(b == d.subrange(0x40000, 0x40020));
        lemma_group(log, d, b, 0, g, k);
    }
}

/// A disc that ends before its tables has no data partition, and a disc without one
/// has no reader.
pub proof fn lemma_no_partition(log: Log, d: Seq<u8>)
    requires
        laws::shows(log, 0, d),
    ensures
        d.len() < 0x40020 ==> (wii_partition::data_partition(log) matches Step::Done(r) ==> r is None),
        wii_partition::data_partition(log) == Step::Done(None::<u64>) ==> wii_partition::wii_disc(log)
            == Step::Done(Err::<WiiView, DiscError>(DiscError::WiiNoPartition)),
        forall|p: u64|
            wii_partition::data_partition(log) == Step::Done(Some(p)) ==> wii_partition::wii_disc(log)
                == #[trigger] wii_partition::wii_partition(log, p),
{
}

/// A partition that is cut off in its header has no reader.
pub proof fn lemma_partition_cut(log: Log, d: Seq<u8>, part: u64)
    requires
        laws::shows(log, 0, d),
        part <= 0x4_0000_0000,
    ensures
        wii_partition::wii_partition(log, part) matches Step::Done(r) ==> {
            &&& d.len() < part + 463 ==> r == Err::<WiiView, DiscError>(DiscError::WiiKeyRead)
            &&& part + 463 <= d.len() < part + 484 ==> r == Err::<WiiView, DiscError>(
                DiscError::WiiTitleRead,
            )
            &&& part + 484 <= d.len() < part + 704 ==> r == Err::<WiiView, DiscError>(
                DiscError::WiiHeaderRead,
            )
        },
{
}

/// The key that all discs share.
pub open spec fn shared_key(k: Seq<u8>) -> bool {
    &&& k.len() == 16
    &&& laws::letters(k, 0, 0xeb, 0xe4, 0x2a, 0x22)
    &&& laws::letters(k, 4, 0x5e, 0x85, 0x93, 0xe4)
    &&& laws::letters(k, 8, 0x48, 0xd9, 0xc5, 0x45)
    &&& laws::letters(k, 12, 0x73, 0x81, 0xaa, 0xf7)
}

/// What the reader of the partition at `part` of a disc with the bytes `d` has: the
/// title key that stands encrypted 447 bytes behind its start, decrypted under the
/// shared key from the title number on, which stands at 476; where its data begins,
/// by the word at 696; and for each whole cluster of 32768 bytes, as the word at 700
/// tells their number, 31744 bytes.
pub proof fn lemma_partition(log: Log, d: Seq<u8>, part: u64, key: Seq<u8>, iv: Seq<u8>, n: int)
    requires
        laws::shows(log, 0, d),
        part + 704 <= d.len(),
        part <= 0x4_0000_0000,
        shared_key(key),
        iv.len() == 16,
        forall|k: int| 0 <= k < 8 ==> #[trigger] iv[k] == d[part + 476 + k],
        forall|k: int| 8 <= k < 16 ==> #[trigger] iv[k] == 0,
        n * 32768 <= 4 * bytes::be32(d, part + 700) < (n + 1) * 32768,
    ensures
        wii_partition::wii_partition(log, part) !is Fault,
        wii_partition::wii_partition(log, part) matches Step::Done(r) ==> (r matches Ok(v) && {
            &&& v.title_key == wii_partition::aes128_cbc(
                key,
                iv,
                d.subrange(part + 447, part + 463),
            )
            &&& v.data_start == part + 4 * bytes::be32(d, part + 696)
            &&& v.virt_size == n * 31744
            &&& v.pos == 0
            &&& v.cache_idx is None
        }),
{
    let a = Query::Read { file: 0, offset: (part + 447) as u64, len: 16 };
    let b = Query::Read { file: 0, offset: (part + 476) as u64, len: 8 };
    let c = Query::Read { file: 0, offset: (part + 696) as u64, len: 8 };
    assert(key =~= wii_partition::common_key());
    if log.known(a) is Some && log.known(b) is Some && log.known(c) is Some {
        let enc = log.known(a)->0.bytes();
        let id = log.known(b)->0.bytes();
        let head = log.known(c)->0.bytes();
        assert(enc == d.subrange(part + 447, part + 463));
        assert(id == d.subrange(part + 476, part + 484));
        assert(head == d.subrange(part + 696, part + 704));
        assert(iv =~= wii_partition::title_iv(id)) by {
            assert forall|k: int| 0 <= k < 16 implies #[trigger] iv[k] == wii_partition::title_iv(
                id,
            )[k] by {
                if k < 8 {
                    assert(id[k] == d[part + 476 + k]);
                }
            }
        }
        assert(head[0] == d[part + 696] && head[1] == d[part + 697] && head[2] == d[part + 698]
            && head[3] == d[part + 699] && head[4] == d[part + 700] && head[5] == d[part + 701]
            && head[6] == d[part + 702] && head[7] == d[part + 703]);
        assert(bytes::be32(head, 0) == bytes::be32(d, part + 696));
        assert(bytes::be32(head, 4) == bytes::be32(d, part + 700));
        assert((bytes::be32(d, part + 700) * 4) / 32768 == n);
    }
}

/// What a read from a partition gives at byte `r` of cluster `c`, where that cluster is
/// not held yet: the bytes up to the end of the cluster and of the partition, as many
/// as were asked for at most, of the data behind the 1024 bytes of hashes of the
/// cluster, decrypted under the title key from the 16 bytes at 976 on. The reader
/// then stands behind them, and holds the cluster.
pub proof fn lemma_partition_read(log: Log, v: WiiView, d: Seq<u8>, c: int, r: int, len: u64)
    requires
        v.wf(),
        laws::shows(log, 0, d),
        0 <= c,
        0 <= r < 31744,
        v.pos == c * 31744 + r,
        v.pos < v.virt_size,
        v.cache_idx != Some(c as u64),
        v.data_start + (c + 1) * 32768 <= d.len(),
        v.read_step(log, len).1.wf(),
    ensures
        ({
            let (s, after) = v.read_step(log, len);
            let at = v.data_start + c * 32768;
            let data = wii_partition::aes128_cbc(
                v.title_key,
                d.subrange(at + 976, at + 992),
                d.subrange(at + 1024, at + 32768),
            );
            &&& s !is Fault
            &&& s is Done && len > 0 ==> (s matches Step::Done(Ok(got)) && {
                &&& got.len() <= len
                &&& got.len() == len || r + got.len() == 31744 || v.pos + got.len() == v.virt_size
                &&& r + got.len() <= 31744
                &&& v.pos + got.len() <= v.virt_size
                &&& forall|k: int| 0 <= k < got.len() ==> #[trigger] got[k] == data[r + k]
                &&& after.pos == v.pos + got.len()
                &&& after.cache_idx == Some(c as u64)
                &&& after.cache_buf == data
                &&& after.data_start == v.data_start
                &&& after.virt_size == v.virt_size
                &&& after.title_key == v.title_key
            })
        }),
{
    let at = v.data_start + c * 32768;
    assert(v.pos as int / 31744 == c && v.pos as int % 31744 == r);
    let q = Query::Read { file: 0, offset: at as u64, len: 32768 };
    if log.known(q) is Some {
        let raw = log.known(q)->0.bytes();
        assert(raw == d.subrange(at, at + 32768));
        assert(raw.subrange(976, 992) =~= d.subrange(at + 976, at + 992));
        assert(raw.skip(1024) =~= d.subrange(at + 1024, at + 32768));
    }
}

/// A read from a cluster that the disc is cut off in is an error, and the reader stays
/// as it is.
pub proof fn lemma_cluster_cut(log: Log, v: WiiView, d: Seq<u8>, c: int, r: int, len: u64)
    requires
        v.wf(),
        laws::shows(log, 0, d),
        0 <= c,
        0 <= r < 31744,
        v.pos == c * 31744 + r,
        v.pos < v.virt_size,
        v.cache_idx != Some(c as u64),
        d.len() < v.data_start + (c + 1) * 32768 <= u64::MAX,
        len > 0,
    ensures
        v.read_step(log, len).0 matches Step::Done(s) ==> s == Err::<Seq<u8>, DiscError>(
            DiscError::WiiClusterRead,
        ),
        v.read_step(log, len).1 == v,
{
    assert(v.pos as int / 31744 == c && v.pos as int % 31744 == r);
}

/// What a read gives from a cluster that is held, without a look at the disc.
pub proof fn lemma_held_read(log: Log, v: WiiView, c: int, r: int, len: u64)
    requires
        v.wf(),
        0 <= c,
        0 <= r < 31744,
        v.pos == c * 31744 + r,
        v.pos < v.virt_size,
        v.cache_idx == Some(c as u64),
    ensures
        ({
            let (s, after) = v.read_step(log, len);
            s matches Step::Done(Ok(got)) && {
                &&& got.len() <= len
                &&& got.len() == len || r + got.len() == 31744 || v.pos + got.len() == v.virt_size
                &&& r + got.len() <= 31744
                &&& v.pos + got.len() <= v.virt_size
                &&& forall|k: int| 0 <= k < got.len() ==> #[trigger] got[k] == v.cache_buf[r + k]
                &&& after.pos == v.pos + got.len()
            }
        }),
{
    assert(v.pos as int / 31744 == c && v.pos as int % 31744 == r);
}

/// At the end of a partition a read gives nothing.
pub proof fn lemma_partition_end(log: Log, v: WiiView, len: u64)
    requires
        v.pos >= v.virt_size,
    ensures
        v.read_step(log, len).0 matches Step::Done(Ok(got)) && got.len() == 0,
        v.read_step(log, len).1 == v,
{
}

} // verus!
