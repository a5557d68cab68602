//! Nero images (`.nrg`): sector data first, then a list of chunks that
//! describe the disc, then a footer that tells where the chunks begin.
use crate::bytes;
use crate::device::{Log, Step};
use crate::error::DiscError;
use crate::sector;
use crate::track::DataTrack;
use vstd::prelude::*;

verus! {

/// The tag at `at`: four letters.
pub open spec fn is_tag(d: Seq<u8>, at: int, tag: Seq<u8>) -> bool {
    bytes::bytes_at(d, at, tag)
}

/// The letters `NER5`: the footer of version 2.
pub open spec fn ner5() -> Seq<u8> {
    seq![0x4eu8, 0x45, 0x52, 0x35]
}

/// The letters `NERO`: the footer of version 1.
pub open spec fn nero() -> Seq<u8> {
    seq![0x4eu8, 0x45, 0x52, 0x4f]
}

/// The letters `END!`: the last chunk.
pub open spec fn end_tag() -> Seq<u8> {
    seq![0x45u8, 0x4e, 0x44, 0x21]
}

/// The letters `DAOI`: disc-at-once information with 32-bit offsets.
pub open spec fn daoi() -> Seq<u8> {
    seq![0x44u8, 0x41, 0x4f, 0x49]
}

/// The letters `DAOX`: disc-at-once information with 64-bit offsets.
pub open spec fn daox() -> Seq<u8> {
    seq![0x44u8, 0x41, 0x4f, 0x58]
}

fn has_tag(d: &[u8], at: usize, tag: [u8; 4]) -> (r: bool)
    ensures
        r == is_tag(d@, at as int, tag@),
{
    bytes::has_bytes(d, at, &tag)
}

/// The version of an image, and where its chunks begin.
///
/// Version 2 ends in a little-endian 64-bit offset and `NER5`, version 1 in a
/// big-endian 32-bit offset and `NERO`.
pub open spec fn nrg_footer(d: Seq<u8>) -> Result<(bool, u64), DiscError> {
    let n = d.len() as int;
    if n < 12 {
        Err(DiscError::NrgTooSmall)
    } else {
        let v2 = is_tag(d, n - 4, ner5());
        let offset = if v2 {
            bytes::le64(d, n - 12)
        } else {
            bytes::be32(d, n - 8)
        };
        if !v2 && !is_tag(d, n - 4, nero()) {
            Err(DiscError::NrgNotNero)
        } else if offset >= n {
            Err(DiscError::NrgChunkOffset)
        } else {
            Ok((v2, offset as u64))
        }
    }
}

/// The bytes of one track in a chunk of disc-at-once information.
pub open spec fn entry_size(wide: bool) -> int {
    if wide {
        40
    } else {
        28
    }
}

/// The offset of the first data track among the entries from `p` on of a chunk
/// that ends at `end`. Byte 14 of an entry is 2 for audio. An offset beyond
/// the image is passed over.
pub open spec fn nrg_entries(d: Seq<u8>, wide: bool, p: int, end: int) -> Option<u64>
    decreases end - p,
{
    if p + entry_size(wide) > end {
        None
    } else {
        let offset = if wide {
            bytes::be64(d, p + 24)
        } else {
            bytes::be32(d, p + 20)
        };
        if d[p + 14] != 2 && offset < d.len() {
            Some(offset as u64)
        } else {
            nrg_entries(d, wide, p + entry_size(wide), end)
        }
    }
}

/// The length of the chunk at `p`.
pub open spec fn chunk_len(d: Seq<u8>, v2: bool, p: int) -> int {
    if v2 {
        bytes::le32(d, p + 4)
    } else {
        bytes::be32(d, p + 4)
    }
}

/// The offset of the first data track in the chunks from `p` on. A chunk is a
/// tag, a length and so many bytes, cut off at the end of the image; the list
/// ends at `END!`, at an empty chunk and at the end of the image. Of a chunk
/// of disc-at-once information the first 24 bytes are passed over.
pub open spec fn nrg_chunks(d: Seq<u8>, v2: bool, p: int) -> Option<u64>
    decreases d.len() - p,
{
    let len = chunk_len(d, v2, p);
    let stop = p + 8 + len;
    let end = if stop <= d.len() {
        stop
    } else {
        d.len() as int
    };
    let wide = is_tag(d, p, daox());
    let own = if (wide || is_tag(d, p, daoi())) && end - (p + 8) >= 24 {
        nrg_entries(d, wide, p + 8 + 24, end)
    } else {
        None
    };
    if p + 8 > d.len() || is_tag(d, p, end_tag()) || len <= 0 {
        None
    } else if own is Some || stop > d.len() {
        own
    } else {
        nrg_chunks(d, v2, stop)
    }
}

fn find_entry(d: &[u8], wide: bool, from: usize, end: usize) -> (r: Option<u64>)
    requires
        from <= end <= d@.len(),
    ensures
        r == nrg_entries(d@, wide, from as int, end as int),
{
    let size: usize = if wide {
        40
    } else {
        28
    };
    let mut p: usize = from;
    while end - p >= size
        invariant
            p <= end <= d@.len(),
            size == entry_size(wide),
            nrg_entries(d@, wide, from as int, end as int) == nrg_entries(
                d@,
                wide,
                p as int,
                end as int,
            ),
        decreases end - p,
    {
        let offset: u64 = if wide {
            bytes::read_u64_be(d, p + 24)
        } else {
            bytes::read_u32_be(d, p + 20) as u64
        };
        if d[p + 14] != 2 && offset < d.len() as u64 {
            return Some(offset);
        }
        p += size;
    }
    None
}

fn find_chunk(d: &[u8], v2: bool, from: usize) -> (r: Option<u64>)
    ensures
        r == nrg_chunks(d@, v2, from as int),
{
    let n: usize = d.len();
    let mut p: usize = from;
    while p <= n && n - p >= 8
        invariant
            n == d@.len(),
            nrg_chunks(d@, v2, from as int) == nrg_chunks(d@, v2, p as int),
        decreases n - p,
    {
        let len: u32 = if v2 {
            bytes::read_u32_le(d, p + 4)
        } else {
            bytes::read_u32_be(d, p + 4)
        };
        let over: bool = len as u64 > (n - p - 8) as u64;
        let end: usize = if over {
            n
        } else {
            p + 8 + len as usize
        };
        let last = has_tag(d, p, [0x45, 0x4e, 0x44, 0x21]);
        assert([0x45u8, 0x4e, 0x44, 0x21]@ =~= end_tag());
        if last || len == 0 {
            return None;
        }
        let wide = has_tag(d, p, [0x44, 0x41, 0x4f, 0x58]);
        assert([0x44u8, 0x41, 0x4f, 0x58]@ =~= daox());
        let narrow = has_tag(d, p, [0x44, 0x41, 0x4f, 0x49]);
        assert([0x44u8, 0x41, 0x4f, 0x49]@ =~= daoi());
        if (wide || narrow) && end - (p + 8) >= 24 {
            let r = find_entry(d, wide, p + 32, end);
            if r.is_some() {
                return r;
            }
        }
        if over {
            return None;
        }
        p = end;
    }
    None
}

/// The data track of an image: the first track of the chunks that is not audio.
/// `d` is the image, which is file 0.
pub open spec fn nrg_image(log: Log, d: Seq<u8>) -> Step<Result<DataTrack, DiscError>> {
    match nrg_footer(d) {
        Err(e) => Step::Done(Err(e)),
        Ok((v2, p)) => match nrg_chunks(d, v2, p as int) {
            None => Step::Done(Err(DiscError::NrgNoDataTrack)),
            Some(offset) => match sector::format_at(log, 0, offset) {
                Step::Ask(q) => Step::Ask(q),
                Step::Fault => Step::Fault,
                Step::Done(f) => if f.1 == 0 {
                    Step::Done(Ok(nrg_track(offset, 0, 0)))
                } else {
                    match sector::lba_at(log, 0, offset) {
                        Step::Ask(q) => Step::Ask(q),
                        Step::Fault => Step::Fault,
                        Step::Done(lba) => Step::Done(Ok(nrg_track(offset, f.1, lba))),
                    }
                },
            },
        },
    }
}

/// A data track at `offset` whose first sector has the number `lba`.
pub open spec fn nrg_track(offset: u64, udo: u64, lba: u64) -> DataTrack {
    DataTrack {
        bin: 0,
        track_offset: offset,
        user_data_offset: udo,
        stride: sector::RAW_SECTOR_SIZE,
        lba_offset: lba,
        descramble: false,
        sector_count: 0,
    }
}

fn track_at(offset: u64, udo: u64, lba: u64) -> (r: DataTrack)
    ensures
        r == nrg_track(offset, udo, lba),
{
    DataTrack {
        bin: 0,
        track_offset: offset,
        user_data_offset: udo,
        stride: sector::RAW_SECTOR_SIZE,
        lba_offset: lba,
        descramble: false,
        sector_count: 0,
    }
}

fn read_footer(d: &[u8]) -> (r: Result<(bool, usize), DiscError>)
    ensures
        r matches Ok(f) ==> nrg_footer(d@) == Ok::<(bool, u64), DiscError>((f.0, f.1 as u64)),
        r matches Err(e) ==> nrg_footer(d@) == Err::<(bool, u64), DiscError>(e),
{
    let n: usize = d.len();
    if n < 12 {
        return Err(DiscError::NrgTooSmall);
    }
    let v2 = has_tag(d, n - 4, [0x4e, 0x45, 0x52, 0x35]);
    assert([0x4eu8, 0x45, 0x52, 0x35]@ =~= ner5());
    let v1 = has_tag(d, n - 4, [0x4e, 0x45, 0x52, 0x4f]);
    assert([0x4eu8, 0x45, 0x52, 0x4f]@ =~= nero());
    if !v2 && !v1 {
        return Err(DiscError::NrgNotNero);
    }
    let offset: u64 = if v2 {
        bytes::read_u64_le(d, n - 12)
    } else {
        bytes::read_u32_be(d, n - 8) as u64
    };
    if offset >= n as u64 {
        return Err(DiscError::NrgChunkOffset);
    }
    Ok((v2, offset as usize))
}

/// Finds the data track of an image. `d` is the image, which is file 0.
pub fn parse_nrg_for_data_track(log: &Log, cur: &mut usize, d: &[u8]) -> (r: Step<
    Result<DataTrack, DiscError>,
>)
    requires
        log.wf(),
    ensures
        r == nrg_image(*log, d@),
{
    let (v2, p) = match read_footer(d) {
        Err(e) => {
            return Step::Done(Err(e));
        },
        Ok(f) => f,
    };
    let offset: u64 = match find_chunk(d, v2, p) {
        None => {
            return Step::Done(Err(DiscError::NrgNoDataTrack));
        },
        Some(o) => o,
    };
    match sector::ask_format(log, cur, 0, offset) {
        Step::Ask(q) => Step::Ask(q),
        Step::Fault => Step::Fault,
        Step::Done(f) => if f.1 == 0 {
            Step::Done(Ok(track_at(offset, 0, 0)))
        } else {
            match sector::ask_lba(log, cur, 0, offset) {
                Step::Ask(q) => Step::Ask(q),
                Step::Fault => Step::Fault,
                Step::Done(lba) => Step::Done(Ok(track_at(offset, f.1, lba))),
            }
        },
    }
}

/// A data track that is found lies inside the image.
pub proof fn lemma_nrg_track_is_inside(d: Seq<u8>, v2: bool, p: int)
    ensures
        nrg_chunks(d, v2, p) matches Some(offset) ==> offset < d.len(),
    decreases d.len() - p,
{
    let len = chunk_len(d, v2, p);
    let stop = p + 8 + len;
    let end = if stop <= d.len() {
        stop
    } else {
        d.len() as int
    };
    if p + 8 <= d.len() && len > 0 {
        lemma_entry_is_inside(d, is_tag(d, p, daox()), p + 8 + 24, end);
        if stop <= d.len() {
            lemma_nrg_track_is_inside(d, v2, stop);
        }
    }
}

proof fn lemma_entry_is_inside(d: Seq<u8>, wide: bool, p: int, end: int)
    ensures
        nrg_entries(d, wide, p, end) matches Some(offset) ==> offset < d.len(),
    decreases end - p,
{
    if p + entry_size(wide) <= end {
        lemma_entry_is_inside(d, wide, p + entry_size(wide), end);
        assert(bytes::be32(d, p + 20) >= 0);
        assert(bytes::be64(d, p + 24) >= 0);
    }
}

} // verus!
