//! Compressed hunks of data (`.chd`): sectors that are read through a
//! decompressor. File 0 is the stream of decompressed bytes.
use crate::device::{Log, Probe, Query, Spot, Step};
use crate::device;
use crate::volume;
use vstd::prelude::*;

verus! {

/// The header fields of an image that tell how its sectors lie.
#[derive(Clone, Copy, PartialEq, Eq, Structural, Debug)]
pub struct ChdHeader {
    /// Bytes per hunk.
    pub hunk_size: u64,
    /// Bytes per unit; 0 where the header does not tell.
    pub unit_bytes: u64,
    /// Length of the stream.
    pub logical_bytes: u64,
}

/// A hunk is made of sectors of `size` bytes.
pub open spec fn hunk_holds(hunk_size: u64, size: u64) -> bool {
    hunk_size >= size && hunk_size % size == 0
}

/// The bytes per sector: 2448 for raw sectors with subchannel data, 2352 for
/// raw sectors, else 2048. Where the unit size is not given, the hunk size
/// decides.
pub open spec fn chd_sector_size(hunk_size: u64, unit_b: u64) -> u64 {
    if unit_b == 2448 || (unit_b == 0 && hunk_holds(hunk_size, 2448)) {
        2448
    } else if unit_b == 2352 || (unit_b == 0 && hunk_holds(hunk_size, 2352)) {
        2352
    } else {
        2048
    }
}

/// The bytes per sector of an image.
pub fn chd_stride(hunk_size: u64, unit_b: u64) -> (r: u64)
    ensures
        r == chd_sector_size(hunk_size, unit_b),
        r == 2048 || r == 2352 || r == 2448,
{
    if unit_b == 2448 || (unit_b == 0 && hunk_size % 2448 == 0 && hunk_size >= 2448) {
        2448
    } else if unit_b == 2352 || (unit_b == 0 && hunk_size % 2352 == 0 && hunk_size >= 2352) {
        2352
    } else {
        2048
    }
}

/// How the sectors of a volume lie in the stream.
#[derive(Clone, Copy, PartialEq, Eq, Structural, Debug)]
pub struct ChdSectorReader {
    pub stride: u64,
    pub user_data_offset: u64,
    pub track_byte_start: u64,
}

impl ChdSectorReader {
    /// Where sector `lba` is read; `None` where that is beyond 64 bits.
    pub fn read_at(&self, lba: u64) -> (r: Option<u64>)
        ensures
            r is Some <==> volume::sector_at(
                self.track_byte_start,
                lba as int,
                self.stride,
                self.user_data_offset,
            ) <= u64::MAX,
            r matches Some(p) ==> p == volume::sector_at(
                self.track_byte_start,
                lba as int,
                self.stride,
                self.user_data_offset,
            ),
    {
        volume::sector_position(self.track_byte_start, lba, self.stride, self.user_data_offset)
    }
}

/// How many places a data track is looked for at.
pub const CHD_PLACES: u64 = 6;

/// Place `k` where a data track may begin: the sectors before it, and where
/// the user data of its sectors begins. Both sector modes are tried behind 0,
/// 4 and 150 sectors.
pub open spec fn chd_place(k: int) -> (u64, u64) {
    (
        if k < 2 {
            0
        } else if k < 4 {
            4
        } else {
            150
        },
        if k % 2 == 0 {
            16
        } else {
            24
        },
    )
}

/// Place `k` where a data track may begin.
pub fn place(k: u64) -> (r: (u64, u64))
    ensures
        r == chd_place(k as int),
        r.0 <= 150,
        r.1 <= 24,
{
    let pregap: u64 = if k < 2 {
        0
    } else if k < 4 {
        4
    } else {
        150
    };
    let udo: u64 = if k % 2 == 0 {
        16
    } else {
        24
    };
    (pregap, udo)
}

/// The layout of a data track at place `k`.
pub open spec fn chd_layout(stride: u64, k: int) -> ChdSectorReader {
    ChdSectorReader {
        stride,
        user_data_offset: chd_place(k).1,
        track_byte_start: (chd_place(k).0 * stride) as u64,
    }
}

fn layout(stride: u64, k: u64) -> (r: ChdSectorReader)
    requires
        stride <= 2448,
    ensures
        r == chd_layout(stride, k as int),
        r.track_byte_start <= 150 * 2448,
{
    let (pregap, udo) = place(k);
    assert(pregap * stride <= 150 * 2448) by (nonlinear_arith)
        requires
            0 <= pregap <= 150,
            0 <= stride <= 2448,
    ;
    ChdSectorReader { stride, user_data_offset: udo, track_byte_start: pregap * stride }
}

/// The layout of an image of plain 2048-byte sectors.
pub open spec fn chd_plain() -> ChdSectorReader {
    ChdSectorReader { stride: 2048, user_data_offset: 0, track_byte_start: 0 }
}

/// The first place from `k` on with a primary volume descriptor at sector 16;
/// else the first place of all.
pub open spec fn chd_volume(log: Log, stride: u64, k: int) -> Step<ChdSectorReader>
    decreases CHD_PLACES - k,
{
    let l = chd_layout(stride, k);
    let q = Query::Read {
        file: 0,
        offset: volume::sector_at(l.track_byte_start, 16, stride, l.user_data_offset) as u64,
        len: 6,
    };
    if k >= CHD_PLACES {
        Step::Done(chd_layout(stride, 0))
    } else {
        match log.known(q) {
            None => Step::Ask(q),
            Some(r) => if r.bytes().len() >= 6 && r.bytes()[0] == 1 && volume::is_descriptor(
                r.bytes(),
            ) {
                Step::Done(l)
            } else {
                chd_volume(log, stride, k + 1)
            },
        }
    }
}

/// How the sectors of the ISO 9660 volume of an image lie.
pub open spec fn chd_iso(log: Log, h: ChdHeader) -> Step<ChdSectorReader> {
    let stride = chd_sector_size(h.hunk_size, h.unit_bytes);
    if stride == 2048 {
        Step::Done(chd_plain())
    } else {
        chd_volume(log, stride, 0)
    }
}

/// Finds out how the sectors of the ISO 9660 volume of an image lie.
pub fn open_chd(log: &Log, cur: &mut usize, h: ChdHeader) -> (r: Step<ChdSectorReader>)
    requires
        log.wf(),
    ensures
        r == chd_iso(*log, h),
{
    let stride: u64 = chd_stride(h.hunk_size, h.unit_bytes);
    if stride == 2048 {
        return Step::Done(
            ChdSectorReader { stride: 2048, user_data_offset: 0, track_byte_start: 0 },
        );
    }
    let mut k: u64 = 0;
    while k < CHD_PLACES
        invariant
            k <= CHD_PLACES,
            stride <= 2448,
            stride != 2048,
            stride == chd_sector_size(h.hunk_size, h.unit_bytes),
            log.wf(),
            chd_volume(*log, stride, 0) == chd_volume(*log, stride, k as int),
        decreases CHD_PLACES - k,
    {
        let l = layout(stride, k);
        assert(0 <= 16 * stride <= 16 * 2448);
        let offset: u64 = l.track_byte_start + 16 * stride + l.user_data_offset;
        let q = Query::Read { file: 0, offset, len: 6 };
        match log.bytes(q, cur) {
            None => {
                return Step::Ask(q);
            },
            Some(b) => {
                if b.len() >= 6 && b[0] == 1 && volume::descriptor(b) {
                    return Step::Done(l);
                }
            },
        }
        k += 1;
    }
    Step::Done(layout(stride, 0))
}

/// The question about a 3DO volume at place `k`.
pub open spec fn threedo_spot(stride: u64, k: int) -> Spot {
    Spot {
        track_offset: (chd_place(k).0 * stride) as u64,
        user_data_offset: chd_place(k).1,
        stride,
        lba_offset: 0,
        descramble: false,
    }
}

/// The first place from `k` on with a 3DO volume.
pub open spec fn threedo_place(log: Log, stride: u64, k: int) -> Step<Option<ChdSectorReader>>
    decreases CHD_PLACES - k,
{
    if k >= CHD_PLACES {
        Step::Done(None)
    } else {
        match device::probed(log, 0, Probe::ThreeDoDisc, threedo_spot(stride, k)) {
            Step::Ask(q) => Step::Ask(q),
            Step::Fault => Step::Fault,
            Step::Done(found) => if found {
                Step::Done(Some(chd_layout(stride, k)))
            } else {
                threedo_place(log, stride, k + 1)
            },
        }
    }
}

/// Looks for a 3DO volume.
pub fn find_threedo(log: &Log, cur: &mut usize, stride: u64) -> (r: Step<Option<ChdSectorReader>>)
    requires
        log.wf(),
        stride <= 2448,
    ensures
        r == threedo_place(*log, stride, 0),
{
    let mut k: u64 = 0;
    while k < CHD_PLACES
        invariant
            k <= CHD_PLACES,
            stride <= 2448,
            log.wf(),
            threedo_place(*log, stride, 0) == threedo_place(*log, stride, k as int),
        decreases CHD_PLACES - k,
    {
        let l = layout(stride, k);
        let spot = Spot {
            track_offset: l.track_byte_start,
            user_data_offset: l.user_data_offset,
            stride,
            lba_offset: 0,
            descramble: false,
        };
        match device::ask_probe(log, cur, 0, Probe::ThreeDoDisc, spot) {
            Step::Ask(q) => {
                return Step::Ask(q);
            },
            Step::Fault => {
                return Step::Fault;
            },
            Step::Done(found) => {
                if found {
                    return Step::Done(Some(l));
                }
            },
        }
        k += 1;
    }
    Step::Done(None)
}

/// How the sectors of the 3DO volume of an image lie: at the place where one
/// is found, else at the first place.
pub open spec fn chd_threedo(log: Log, h: ChdHeader) -> Step<ChdSectorReader> {
    let stride = chd_sector_size(h.hunk_size, h.unit_bytes);
    if stride == 2048 {
        Step::Done(chd_plain())
    } else {
        match threedo_place(log, stride, 0) {
            Step::Ask(q) => Step::Ask(q),
            Step::Fault => Step::Fault,
            Step::Done(Some(l)) => Step::Done(l),
            Step::Done(None) => Step::Done(chd_layout(stride, 0)),
        }
    }
}

/// Finds out how the sectors of the 3DO volume of an image lie.
pub fn open_threedo_chd(log: &Log, cur: &mut usize, h: ChdHeader) -> (r: Step<ChdSectorReader>)
    requires
        log.wf(),
    ensures
        r == chd_threedo(*log, h),
{
    let stride: u64 = chd_stride(h.hunk_size, h.unit_bytes);
    if stride == 2048 {
        return Step::Done(
            ChdSectorReader { stride: 2048, user_data_offset: 0, track_byte_start: 0 },
        );
    }
    match find_threedo(log, cur, stride) {
        Step::Ask(q) => Step::Ask(q),
        Step::Fault => Step::Fault,
        Step::Done(Some(l)) => Step::Done(l),
        Step::Done(None) => Step::Done(layout(stride, 0)),
    }
}

} // verus!
