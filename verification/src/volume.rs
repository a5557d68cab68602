//! Volume descriptors of ISO 9660 volumes.
use crate::bytes;
use crate::device;
use crate::device::{Log, Query, Spot, Step};
use crate::sector;
use crate::track::DataTrack;
use vstd::prelude::*;

verus! {

/// The letters `CD001`.
pub open spec fn cd001() -> Seq<u8> {
    seq![0x43u8, 0x44, 0x30, 0x30, 0x31]
}

/// `buf` is a volume descriptor: its bytes 1 to 5 are `CD001`.
pub open spec fn is_descriptor(buf: Seq<u8>) -> bool {
    bytes::bytes_at(buf, 1, cd001())
}

/// `buf` opens a primary volume descriptor: type 1, `CD001`, version 1.
pub open spec fn is_pvd_head(buf: Seq<u8>) -> bool {
    buf.len() >= 8 && buf[0] == 1 && is_descriptor(buf) && buf[6] == 1
}

/// Whether `buf` is a volume descriptor; a short buffer stands for a failed
/// read.
pub fn descriptor(buf: &[u8]) -> (r: bool)
    ensures
        r == is_descriptor(buf@),
{
    let p: [u8; 5] = [0x43, 0x44, 0x30, 0x30, 0x31];
    assert(p@ =~= cd001());
    bytes::has_bytes(buf, 1, &p)
}

/// Whether `buf` opens a primary volume descriptor.
pub fn pvd_head(buf: &[u8]) -> (r: bool)
    ensures
        r == is_pvd_head(buf@),
{
    buf.len() >= 8 && buf[0] == 1 && descriptor(buf) && buf[6] == 1
}

// ── Positions ────────────────────────────────────────────────────────────────

/// The byte position of sector `n` of a run of sectors that begins at `base`.
pub open spec fn sector_at(base: u64, n: int, stride: u64, udo: u64) -> int {
    base + n * stride + udo
}

/// The byte position of sector `n`; `None` where it is beyond 64 bits.
pub fn sector_position(base: u64, n: u64, stride: u64, udo: u64) -> (r: Option<u64>)
    ensures
        r is Some <==> sector_at(base, n as int, stride, udo) <= u64::MAX,
        r matches Some(p) ==> p == sector_at(base, n as int, stride, udo),
{
    assert(0 <= n * stride <= 0xffff_ffff_ffff_ffff * 0xffff_ffff_ffff_ffff) by (nonlinear_arith)
        requires
            0 <= n <= 0xffff_ffff_ffff_ffff,
            0 <= stride <= 0xffff_ffff_ffff_ffff,
    ;
    let p: u128 = n as u128 * stride as u128;
    if p > u64::MAX as u128 {
        return None;
    }
    let p: u128 = base as u128 + p + udo as u128;
    if p > u64::MAX as u128 {
        None
    } else {
        Some(p as u64)
    }
}

/// The sector of a track that stands for the absolute sector `lba`.
pub open spec fn adjusted(lba: int, lba_offset: u64) -> int {
    if lba >= lba_offset {
        lba - lba_offset
    } else {
        lba
    }
}

/// The byte position of the volume descriptor at sector `lba`.
pub open spec fn descriptor_at(spot: Spot, lba: int) -> int {
    sector_at(
        spot.track_offset,
        adjusted(lba, spot.lba_offset),
        spot.stride,
        spot.user_data_offset,
    )
}

fn descriptor_position(spot: Spot, lba: u64) -> (r: Option<u64>)
    ensures
        r is Some <==> descriptor_at(spot, lba as int) <= u64::MAX,
        r matches Some(p) ==> p == descriptor_at(spot, lba as int),
{
    let n: u64 = if lba >= spot.lba_offset {
        lba - spot.lba_offset
    } else {
        lba
    };
    sector_position(spot.track_offset, n, spot.stride, spot.user_data_offset)
}

// ── The primary volume descriptor ────────────────────────────────────────────

/// The sector, counted from the start of a volume, of its primary descriptor.
pub const PVD_LBA: u64 = 16;

/// How many sectors a search for the primary descriptor covers.
pub const MAX_SCAN: u64 = 512;

/// A raw track has a volume descriptor at its sector 16; a missing file has
/// none.
pub open spec fn pvd_check(log: Log, track: DataTrack) -> Step<bool> {
    let pos = sector_at(track.track_offset, 16, 2352, track.user_data_offset);
    let q = Query::Read { file: track.bin, offset: pos as u64, len: 6 };
    if pos > u64::MAX {
        device::out_of_reach(log, track.bin, false)
    } else {
        match log.known(q) {
            None => Step::Ask(q),
            Some(r) => Step::Done(is_descriptor(r.bytes())),
        }
    }
}

/// Whether a raw track has a volume descriptor at its sector 16.
pub fn has_pvd(log: &Log, cur: &mut usize, track: &DataTrack) -> (r: Step<bool>)
    requires
        log.wf(),
    ensures
        r == pvd_check(*log, *track),
{
    let pos: u64 = match sector_position(
        track.track_offset,
        PVD_LBA,
        sector::RAW_SECTOR_SIZE,
        track.user_data_offset,
    ) {
        Some(p) => p,
        None => {
            return device::ask_out_of_reach(log, cur, track.bin, false);
        },
    };
    let q = Query::Read { file: track.bin, offset: pos, len: 6 };
    match log.bytes(q, cur) {
        None => Step::Ask(q),
        Some(b) => Step::Done(descriptor(b)),
    }
}

/// The search for a primary volume descriptor in a track that begins at
/// `base`: sectors 16, 17 and so on are read, 512 in all, until one opens such
/// a descriptor; `d` of them have been looked at. The result is the track
/// offset at which sector 16 is that descriptor, or `None` where a read fails
/// first, the file is missing or none of the sectors opens one.
pub open spec fn pvd_search(
    log: Log,
    file: usize,
    base: u64,
    stride: u64,
    udo: u64,
    d: int,
) -> Step<Option<u64>>
    decreases MAX_SCAN - d,
{
    let pos = sector_at(base, PVD_LBA + d, stride, udo);
    let q = Query::Read { file, offset: pos as u64, len: 8 };
    if d >= MAX_SCAN {
        Step::Done(None)
    } else if pos > u64::MAX {
        device::out_of_reach(log, file, None)
    } else {
        match log.known(q) {
            None => Step::Ask(q),
            Some(r) => if r.bytes().len() < 8 {
                Step::Done(None)
            } else if is_pvd_head(r.bytes()) {
                Step::Done(Some((base + d * stride) as u64))
            } else {
                pvd_search(log, file, base, stride, udo, d + 1)
            },
        }
    }
}

/// Looks for the primary volume descriptor near the start of a track and
/// returns the track offset at which sector 16 is that descriptor.
pub fn cdi_align_to_pvd(
    log: &Log,
    cur: &mut usize,
    file: usize,
    base: u64,
    stride: u64,
    udo: u64,
) -> (r: Step<Option<u64>>)
    requires
        log.wf(),
    ensures
        r == pvd_search(*log, file, base, stride, udo, 0),
{
    let mut d: u64 = 0;
    while d < MAX_SCAN
        invariant
            d <= MAX_SCAN,
            log.wf(),
            pvd_search(*log, file, base, stride, udo, 0) == pvd_search(
                *log,
                file,
                base,
                stride,
                udo,
                d as int,
            ),
        decreases MAX_SCAN - d,
    {
        let pos: u64 = match sector_position(base, PVD_LBA + d, stride, udo) {
            Some(p) => p,
            None => {
                return device::ask_out_of_reach(log, cur, file, None);
            },
        };
        let q = Query::Read { file, offset: pos, len: 8 };
        match log.bytes(q, cur) {
            None => {
                return Step::Ask(q);
            },
            Some(b) => {
                if b.len() < 8 {
                    return Step::Done(None);
                }
                if pvd_head(b) {
                    assert(0 <= d * stride <= (PVD_LBA + d) * stride) by (nonlinear_arith)
                        requires
                            0 <= d,
                            0 <= stride,
                    ;
                    return Step::Done(Some(base + d * stride));
                }
            },
        }
        d += 1;
    }
    Step::Done(None)
}

/// What a search finds: sector 16 of a track at the offset found is a primary
/// volume descriptor, no sector before it is one, and each of them was read.
pub proof fn lemma_pvd_search_aligns(
    log: Log,
    file: usize,
    base: u64,
    stride: u64,
    udo: u64,
    from: int,
) -> (d: int)
    requires
        0 <= from,
        pvd_search(log, file, base, stride, udo, from) matches Step::Done(Some(_)),
    ensures
        from <= d < MAX_SCAN,
        pvd_search(log, file, base, stride, udo, from) == Step::Done(
            Some((base + d * stride) as u64),
        ),
        base + d * stride <= u64::MAX,
        sector_at((base + d * stride) as u64, PVD_LBA as int, stride, udo) == sector_at(
            base,
            PVD_LBA + d,
            stride,
            udo,
        ),
        ({
            let q = Query::Read {
                file,
                offset: sector_at(base, PVD_LBA + d, stride, udo) as u64,
                len: 8,
            };
            log.known(q) matches Some(r) && is_pvd_head(r.bytes())
        }),
        forall|e: int|
            from <= e < d ==> {
                let q = Query::Read {
                    file,
                    offset: #[trigger] sector_at(base, PVD_LBA + e, stride, udo) as u64,
                    len: 8,
                };
                log.known(q) matches Some(r) && r.bytes().len() >= 8 && !is_pvd_head(r.bytes())
            },
    decreases MAX_SCAN - from,
{
    let pos = sector_at(base, PVD_LBA + from, stride, udo);
    let q = Query::Read { file, offset: pos as u64, len: 8 };
    let r = log.known(q)->0;
    if is_pvd_head(r.bytes()) {
        assert(0 <= from * stride <= (PVD_LBA + from) * stride) by (nonlinear_arith)
            requires
                0 <= from,
                0 <= stride,
        ;
        assert(from * stride + PVD_LBA * stride == (PVD_LBA + from) * stride) by (nonlinear_arith);
        from
    } else {
        lemma_pvd_search_aligns(log, file, base, stride, udo, from + 1)
    }
}

// ── Supplementary descriptors ────────────────────────────────────────────────

/// A supplementary descriptor names a Joliet volume: its escape sequence is
/// `%/@`, `%/C` or `%/E`.
pub open spec fn is_joliet(buf: Seq<u8>) -> bool {
    buf.len() >= 120 && buf[88] == 0x25 && buf[89] == 0x2f && (buf[90] == 0x40 || buf[90] == 0x43
        || buf[90] == 0x45)
}

fn joliet(buf: &[u8]) -> (r: bool)
    ensures
        r == is_joliet(buf@),
{
    buf.len() >= 120 && buf[88] == 0x25 && buf[89] == 0x2f && (buf[90] == 0x40 || buf[90] == 0x43
        || buf[90] == 0x45)
}

/// How many Joliet volumes the descriptors at sectors `lba` to 31 name, added
/// to `n`. The descriptors end at a failed read and at one of type 255; a
/// missing file has none.
pub open spec fn joliet_count(log: Log, file: usize, spot: Spot, lba: int, n: u64) -> Step<u64>
    decreases 32 - lba,
{
    let pos = descriptor_at(spot, lba);
    let q = Query::Read { file, offset: pos as u64, len: 2048 };
    if lba >= 32 {
        Step::Done(n)
    } else if pos > u64::MAX {
        device::out_of_reach(log, file, n)
    } else {
        match log.known(q) {
            None => Step::Ask(q),
            Some(r) => {
                let b = r.bytes();
                if b.len() < 2048 || b[0] == 0xff {
                    Step::Done(n)
                } else if b[0] == 2 && is_joliet(b) {
                    joliet_count(log, file, spot, lba + 1, (n + 1) as u64)
                } else {
                    joliet_count(log, file, spot, lba + 1, n)
                }
            },
        }
    }
}

/// Counts the Joliet volumes that the descriptors at sectors 17 to 31 name.
pub fn count_joliet(log: &Log, cur: &mut usize, file: usize, spot: Spot) -> (r: Step<u64>)
    requires
        log.wf(),
    ensures
        r == joliet_count(*log, file, spot, 17, 0),
{
    let mut n: u64 = 0;
    let mut lba: u64 = 17;
    while lba < 32
        invariant
            17 <= lba <= 32,
            n <= lba,
            log.wf(),
            joliet_count(*log, file, spot, 17, 0) == joliet_count(*log, file, spot, lba as int, n),
        decreases 32 - lba,
    {
        let pos: u64 = match descriptor_position(spot, lba) {
            Some(p) => p,
            None => {
                return device::ask_out_of_reach(log, cur, file, n);
            },
        };
        let q = Query::Read { file, offset: pos, len: 2048 };
        match log.bytes(q, cur) {
            None => {
                return Step::Ask(q);
            },
            Some(b) => {
                if b.len() < 2048 || b[0] == 0xff {
                    return Step::Done(n);
                }
                if b[0] == 2 && joliet(b) {
                    n += 1;
                }
            },
        }
        lba += 1;
    }
    Step::Done(n)
}

/// An ISO 9660 volume: `None` where sector 16 holds no volume descriptor, of
/// type 1 where `primary` asks for that, else the number of Joliet volumes
/// beside it.
pub open spec fn iso_volume(log: Log, file: usize, spot: Spot, primary: bool) -> Step<Option<u64>> {
    let pos = descriptor_at(spot, 16);
    let q = Query::Read { file, offset: pos as u64, len: 2048 };
    if pos > u64::MAX {
        device::out_of_reach(log, file, None)
    } else {
        match log.known(q) {
            None => Step::Ask(q),
            Some(r) => {
                let b = r.bytes();
                if b.len() < 2048 || !is_descriptor(b) || (primary && b[0] != 1) {
                    Step::Done(None)
                } else {
                    match joliet_count(log, file, spot, 17, 0) {
                        Step::Ask(q) => Step::Ask(q),
                        Step::Done(n) => Step::Done(Some(n)),
                        Step::Fault => Step::Fault,
                    }
                }
            },
        }
    }
}

/// Looks for an ISO 9660 volume and counts the Joliet volumes beside it.
pub fn find_iso_volume(log: &Log, cur: &mut usize, file: usize, spot: Spot, primary: bool) -> (r:
    Step<Option<u64>>)
    requires
        log.wf(),
    ensures
        r == iso_volume(*log, file, spot, primary),
{
    let pos: u64 = match descriptor_position(spot, PVD_LBA) {
        Some(p) => p,
        None => {
            return device::ask_out_of_reach(log, cur, file, None);
        },
    };
    let q = Query::Read { file, offset: pos, len: 2048 };
    match log.bytes(q, cur) {
        None => Step::Ask(q),
        Some(b) => {
            if b.len() < 2048 || !descriptor(b) || (primary && b[0] != 1) {
                return Step::Done(None);
            }
            match count_joliet(log, cur, file, spot) {
                Step::Ask(q) => Step::Ask(q),
                Step::Done(n) => Step::Done(Some(n)),
                Step::Fault => Step::Fault,
            }
        },
    }
}

} // verus!
