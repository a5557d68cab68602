//! DiscJuggler images (`.cdi`): sector data first, then a descriptor of the
//! sessions and tracks, then a footer that tells where the descriptor begins.
use crate::bytes;
use crate::device::{Log, Query, Step};
use crate::error::DiscError;
use crate::sector;
use crate::track::DataTrack;
use crate::volume;
use vstd::prelude::*;

verus! {

/// Descriptor version 2.
pub const CDI_V2: u32 = 0x8000_0004;

/// Descriptor version 3.5.
pub const CDI_V35: u32 = 0x8000_0006;

/// What the last eight bytes of an image tell.
#[derive(Clone, Copy, PartialEq, Eq, Structural, Debug)]
pub struct CdiFooter {
    pub version: u32,
    /// Byte offset of the descriptor.
    pub descriptor: u64,
}

/// Where the descriptor of an image of `file_size` bytes begins, by the last
/// eight bytes of the image. Version 3.5 counts from the end of the image, the
/// versions before it from the start.
pub open spec fn cdi_footer(file_size: u64, tail: Seq<u8>) -> Result<CdiFooter, DiscError> {
    let version = bytes::le32(tail, 0);
    let offset = bytes::le32(tail, 4);
    if file_size < 8 {
        Err(DiscError::CdiTooShort)
    } else if tail.len() < 8 {
        Err(DiscError::CdiRead)
    } else if version < CDI_V2 || version > CDI_V35 {
        Err(DiscError::CdiVersion(version as u32))
    } else if offset == 0 {
        Err(DiscError::CdiZeroOffset)
    } else {
        Ok(
            CdiFooter {
                version: version as u32,
                descriptor: (if version != CDI_V35 {
                    offset
                } else if offset > file_size {
                    0
                } else {
                    file_size - offset
                }) as u64,
            },
        )
    }
}

/// Reads the footer of an image. `tail` holds the last eight bytes of the
/// image; fewer bytes stand for a failed read.
pub fn read_cdi_footer(file_size: u64, tail: &[u8]) -> (r: Result<CdiFooter, DiscError>)
    ensures
        r == cdi_footer(file_size, tail@),
{
    if file_size < 8 {
        return Err(DiscError::CdiTooShort);
    }
    if tail.len() < 8 {
        return Err(DiscError::CdiRead);
    }
    let version = bytes::read_u32_le(tail, 0);
    let offset = bytes::read_u32_le(tail, 4);
    if version < CDI_V2 || version > CDI_V35 {
        return Err(DiscError::CdiVersion(version));
    }
    if offset == 0 {
        return Err(DiscError::CdiZeroOffset);
    }
    let descriptor: u64 = if version == CDI_V35 {
        file_size.saturating_sub(offset as u64)
    } else {
        offset as u64
    };
    Ok(CdiFooter { version, descriptor })
}

// ── The descriptor ───────────────────────────────────────────────────────────

/// One track of the descriptor.
#[derive(Clone, Copy, PartialEq, Eq, Structural, Debug)]
pub struct CdiTrack {
    /// Sectors before the track's data.
    pub pregap: u32,
    /// Sectors of data.
    pub length: u32,
    /// 0 for audio.
    pub mode: u32,
    /// Absolute number of the first data sector.
    pub start_lba: u32,
    /// Sectors that the track takes up in the image.
    pub total: u32,
    /// Bytes per sector: 2048, 2336 or 2352.
    pub stride: u64,
}

/// The sector size that a size code stands for.
pub open spec fn cdi_stride(code: int) -> u64 {
    if code == 0 {
        2048
    } else if code == 1 {
        2336
    } else {
        2352
    }
}

/// The track that the descriptor `d` holds at `p`, and where the next one
/// begins; `None` where the descriptor ends before it is complete.
///
/// In order: a marker, and eight bytes where it is not zero; 24 bytes; a file
/// name after its length; 19 bytes; a second marker, and eight bytes where it
/// is `0x80000000`; two bytes; pregap and length; six bytes; the mode; twelve
/// bytes; first sector and total; 16 bytes; the size code; 29 bytes; and,
/// after version 2, five bytes and a third marker with 78 bytes where it is
/// `0xffffffff`.
pub open spec fn cdi_track(d: Seq<u8>, p: int, v2: bool) -> Option<(CdiTrack, int)> {
    let name = p + 4 + (if bytes::le32(d, p) != 0 {
        8int
    } else {
        0
    }) + 24;
    let marker = name + 1 + d[name] + 19;
    let gap = marker + 4 + (if bytes::le32(d, marker) == 0x8000_0000 {
        8int
    } else {
        0
    }) + 2;
    let mode = gap + 8 + 6;
    let lba = mode + 4 + 12;
    let code = lba + 8 + 16;
    let end = code + 4 + 29;
    let extra = end + 5;
    if p + 4 > d.len() || name + 1 > d.len() || marker + 4 > d.len() || code + 4 > d.len() {
        None
    } else if !v2 && extra + 4 > d.len() {
        None
    } else {
        Some(
            (
                CdiTrack {
                    pregap: bytes::le32(d, gap) as u32,
                    length: bytes::le32(d, gap + 4) as u32,
                    mode: bytes::le32(d, mode) as u32,
                    start_lba: bytes::le32(d, lba) as u32,
                    total: bytes::le32(d, lba + 4) as u32,
                    stride: cdi_stride(bytes::le32(d, code)),
                },
                if v2 {
                    end
                } else if bytes::le32(d, extra) == 0xffff_ffff {
                    extra + 4 + 78
                } else {
                    extra + 4
                },
            ),
        )
    }
}

/// Up to `n` tracks of the descriptor from `p` on, and where they end: `None`
/// where the descriptor ends among them.
pub open spec fn cdi_session(d: Seq<u8>, p: int, n: nat, v2: bool) -> (Seq<CdiTrack>, Option<int>)
    decreases n,
{
    if n == 0 {
        (Seq::empty(), Some(p))
    } else {
        match cdi_track(d, p, v2) {
            None => (Seq::empty(), None),
            Some((t, q)) => {
                let (rest, end) = cdi_session(d, q, (n - 1) as nat, v2);
                (seq![t] + rest, end)
            },
        }
    }
}

/// The tracks of up to `n` sessions from `p` on, and whether the descriptor
/// held all of them. A session opens with its number of tracks and closes with
/// twelve bytes, thirteen after version 2.
pub open spec fn cdi_sessions(d: Seq<u8>, p: int, n: nat, v2: bool) -> (Seq<CdiTrack>, bool)
    decreases n,
{
    if n == 0 {
        (Seq::empty(), true)
    } else if p + 2 > d.len() {
        (Seq::empty(), false)
    } else {
        let (tracks, end) = cdi_session(d, p + 2, bytes::le16(d, p) as nat, v2);
        match end {
            None => (tracks, false),
            Some(q) => {
                let next = q + 12 + (if v2 {
                    0int
                } else {
                    1
                });
                let (rest, whole) = cdi_sessions(d, next, (n - 1) as nat, v2);
                (tracks + rest, whole)
            },
        }
    }
}

/// All tracks of a descriptor, and whether the descriptor held all that it
/// announces. The number of sessions comes first.
pub open spec fn cdi_tracks(d: Seq<u8>, v2: bool) -> (Seq<CdiTrack>, bool) {
    if d.len() < 2 {
        (Seq::empty(), false)
    } else {
        cdi_sessions(d, 2, bytes::le16(d, 0) as nat, v2)
    }
}

fn read_track(d: &[u8], at: u128, v2: bool) -> (r: Option<(CdiTrack, u128)>)
    requires
        at <= 0x1_0000_0000_0000_0400,
    ensures
        r is Some <==> cdi_track(d@, at as int, v2) is Some,
        r matches Some(t) ==> cdi_track(d@, at as int, v2) == Some((t.0, t.1 as int)) && at < t.1
            <= d@.len() + 0x200,
{
    let n: u128 = d.len() as u128;
    if at + 4 > n {
        return None;
    }
    let p: usize = at as usize;
    let name: u128 = at + 4 + (if bytes::read_u32_le(d, p) != 0 {
        8u128
    } else {
        0
    }) + 24;
    if name + 1 > n {
        return None;
    }
    let marker: u128 = name + 1 + d[name as usize] as u128 + 19;
    if marker + 4 > n {
        return None;
    }
    let gap: u128 = marker + 4 + (if bytes::read_u32_le(d, marker as usize) == 0x8000_0000 {
        8u128
    } else {
        0
    }) + 2;
    let mode: u128 = gap + 14;
    let lba: u128 = mode + 16;
    let code: u128 = lba + 24;
    let end: u128 = code + 33;
    let extra: u128 = end + 5;
    if code + 4 > n || (!v2 && extra + 4 > n) {
        return None;
    }
    let c: u32 = bytes::read_u32_le(d, code as usize);
    let stride: u64 = if c == 0 {
        2048
    } else if c == 1 {
        2336
    } else {
        2352
    };
    let t = CdiTrack {
        pregap: bytes::read_u32_le(d, gap as usize),
        length: bytes::read_u32_le(d, gap as usize + 4),
        mode: bytes::read_u32_le(d, mode as usize),
        start_lba: bytes::read_u32_le(d, lba as usize),
        total: bytes::read_u32_le(d, lba as usize + 4),
        stride,
    };
    let next: u128 = if v2 {
        end
    } else if bytes::read_u32_le(d, extra as usize) == 0xffff_ffff {
        extra + 82
    } else {
        extra + 4
    };
    Some((t, next))
}

/// Lists the tracks of a descriptor, and tells whether the descriptor held all
/// that it announces.
pub fn read_cdi_tracks(d: &[u8], v2: bool) -> (r: (Vec<CdiTrack>, bool))
    ensures
        r.0@ == cdi_tracks(d@, v2).0,
        r.1 == cdi_tracks(d@, v2).1,
{
    let mut out: Vec<CdiTrack> = Vec::new();
    if d.len() < 2 {
        return (out, false);
    }
    let sessions: u16 = bytes::read_u16_le(d, 0);
    let ghost all = cdi_tracks(d@, v2);
    let n: u128 = d.len() as u128;
    let mut p: u128 = 2;
    let mut s: u16 = 0;
    while s < sessions
        invariant
            s <= sessions,
            n == d@.len(),
            d@.len() <= usize::MAX,
            p <= d@.len() + 0x300,
            all == cdi_tracks(d@, v2),
            all.0 == out@ + cdi_sessions(d@, p as int, (sessions - s) as nat, v2).0,
            all.1 == cdi_sessions(d@, p as int, (sessions - s) as nat, v2).1,
        decreases sessions - s,
    {
        let ghost p0 = p as int;
        let ghost out0 = out@;
        if p + 2 > n {
            assert(out@ + Seq::<CdiTrack>::empty() == out@);
            return (out, false);
        }
        let count: u16 = bytes::read_u16_le(d, p as usize);
        p = p + 2;
        let ghost sess = cdi_session(d@, p0 + 2, count as nat, v2);
        let mut t: u16 = 0;
        while t < count
            invariant
                t <= count,
                all == cdi_tracks(d@, v2),
                d@.len() <= usize::MAX,
                p <= d@.len() + 0x200,
                sess == cdi_session(d@, p0 + 2, count as nat, v2),
                out0 + sess.0 == out@ + cdi_session(d@, p as int, (count - t) as nat, v2).0,
                sess.1 == cdi_session(d@, p as int, (count - t) as nat, v2).1,
                all.1 == cdi_sessions(d@, p0, (sessions - s) as nat, v2).1,
                all.0 == out0 + cdi_sessions(d@, p0, (sessions - s) as nat, v2).0,
                s < sessions,
                p0 + 2 <= d@.len(),
                count == bytes::le16(d@, p0),
            decreases count - t,
        {
            match read_track(d, p, v2) {
                None => {
                    assert(out@ + Seq::<CdiTrack>::empty() == out@);
                    return (out, false);
                },
                Some((track, next)) => {
                    let ghost before = out@;
                    let ghost rest = cdi_session(d@, next as int, (count - t - 1) as nat, v2).0;
                    out.push(track);
                    assert(before + (seq![track] + rest) == out@ + rest);
                    p = next;
                },
            }
            t += 1;
        }
        assert(out@ + Seq::<CdiTrack>::empty() == out@);
        p = p + 12;
        if !v2 {
            p = p + 1;
        }
        proof {
            let rest = cdi_sessions(d@, p as int, (sessions - s - 1) as nat, v2).0;
            assert(out0 + (sess.0 + rest) == out@ + rest);
        }
        s += 1;
    }
    assert(out@ + Seq::<CdiTrack>::empty() == out@);
    (out, true)
}

// ── The data track ───────────────────────────────────────────────────────────

/// A data track of the descriptor, with its place in the image.
#[derive(Clone, Copy, PartialEq, Eq, Structural, Debug)]
pub struct CdiSpan {
    /// Byte offset of the first data sector.
    pub base: u64,
    pub stride: u64,
    pub start_lba: u64,
    pub length: u64,
}

/// The data tracks among `tracks[i..]`, where the sectors of track `i` begin
/// at `start`. The second part is false where an offset is beyond 64 bits; the
/// list then ends there.
pub open spec fn cdi_spans_from(tracks: Seq<CdiTrack>, i: int, start: int) -> (Seq<CdiSpan>, bool)
    decreases tracks.len() - i,
{
    if i < 0 || i >= tracks.len() {
        (Seq::empty(), true)
    } else {
        let t = tracks[i];
        let base = start + t.pregap * t.stride;
        let next = start + t.stride * t.total;
        let own = if t.mode != 0 {
            seq![
                CdiSpan {
                    base: base as u64,
                    stride: t.stride,
                    start_lba: t.start_lba as u64,
                    length: t.length as u64,
                },
            ]
        } else {
            Seq::empty()
        };
        if t.mode != 0 && base > u64::MAX {
            (Seq::empty(), false)
        } else if next > u64::MAX {
            (own, false)
        } else {
            let (rest, fits) = cdi_spans_from(tracks, i + 1, next);
            (own + rest, fits)
        }
    }
}

/// The data tracks of an image whose tracks lie one after another from its
/// first byte on.
pub open spec fn cdi_spans(tracks: Seq<CdiTrack>) -> (Seq<CdiSpan>, bool) {
    cdi_spans_from(tracks, 0, 0)
}

/// Lists the data tracks; the second part is false where an offset is beyond
/// 64 bits, and the list ends there.
pub fn place_cdi_tracks(tracks: &Vec<CdiTrack>) -> (r: (Vec<CdiSpan>, bool))
    ensures
        r.0@ == cdi_spans(tracks@).0,
        r.1 == cdi_spans(tracks@).1,
{
    let mut out: Vec<CdiSpan> = Vec::new();
    let mut start: u64 = 0;
    let mut i: usize = 0;
    let ghost all = cdi_spans(tracks@);
    while i < tracks.len()
        invariant
            i <= tracks@.len(),
            all == cdi_spans(tracks@),
            all.0 == out@ + cdi_spans_from(tracks@, i as int, start as int).0,
            all.1 == cdi_spans_from(tracks@, i as int, start as int).1,
        decreases tracks@.len() - i,
    {
        let t = tracks[i];
        assert(0 <= t.pregap * t.stride <= 0xffff_ffff * 0xffff_ffff_ffff_ffff) by (nonlinear_arith)
            requires
                0 <= t.pregap <= 0xffff_ffff,
                0 <= t.stride <= 0xffff_ffff_ffff_ffff,
        ;
        assert(0 <= t.stride * t.total <= 0xffff_ffff * 0xffff_ffff_ffff_ffff) by (nonlinear_arith)
            requires
                0 <= t.total <= 0xffff_ffff,
                0 <= t.stride <= 0xffff_ffff_ffff_ffff,
        ;
        let base: u128 = start as u128 + t.pregap as u128 * t.stride as u128;
        let next: u128 = start as u128 + t.stride as u128 * t.total as u128;
        let ghost before = out@;
        if t.mode != 0 {
            if base > u64::MAX as u128 {
                assert(out@ + Seq::<CdiSpan>::empty() == out@);
                return (out, false);
            }
            out.push(
                CdiSpan {
                    base: base as u64,
                    stride: t.stride,
                    start_lba: t.start_lba as u64,
                    length: t.length as u64,
                },
            );
        }
        if next > u64::MAX as u128 {
            assert(out@ == all.0);
            return (out, false);
        }
        proof {
            let rest = cdi_spans_from(tracks@, i + 1, next as int).0;
            let own = cdi_spans_from(tracks@, i as int, start as int).0;
            assert(before + own == out@ + rest);
        }
        start = next as u64;
        i += 1;
    }
    assert(out@ + Seq::<CdiSpan>::empty() == out@);
    (out, true)
}

/// Where the user data of a span's sectors begins: fixed for sectors of 2048
/// and 2336 bytes, by the first sector's header for raw ones.
pub open spec fn cdi_udo(log: Log, span: CdiSpan) -> Step<u64> {
    if span.stride == 2048 {
        Step::Done(0)
    } else if span.stride == 2336 {
        Step::Done(8)
    } else {
        match sector::format_at(log, 0, span.base) {
            Step::Ask(q) => Step::Ask(q),
            Step::Done(f) => Step::Done(f.1),
            Step::Fault => Step::Fault,
        }
    }
}

fn ask_udo(log: &Log, cur: &mut usize, span: CdiSpan) -> (r: Step<u64>)
    requires
        log.wf(),
    ensures
        r == cdi_udo(*log, span),
{
    if span.stride == 2048 {
        Step::Done(0)
    } else if span.stride == 2336 {
        Step::Done(8)
    } else {
        match sector::ask_format(log, cur, 0, span.base) {
            Step::Ask(q) => Step::Ask(q),
            Step::Done(f) => Step::Done(f.1),
            Step::Fault => Step::Fault,
        }
    }
}

/// The data track of a span whose first sector is taken to be at `offset`.
pub open spec fn cdi_data_track(span: CdiSpan, udo: u64, offset: u64) -> DataTrack {
    DataTrack {
        bin: 0,
        track_offset: offset,
        user_data_offset: udo,
        stride: span.stride,
        lba_offset: span.start_lba,
        descramble: false,
        sector_count: span.length,
    }
}

fn data_track(span: CdiSpan, udo: u64, offset: u64) -> (r: DataTrack)
    ensures
        r == cdi_data_track(span, udo, offset),
{
    DataTrack {
        bin: 0,
        track_offset: offset,
        user_data_offset: udo,
        stride: span.stride,
        lba_offset: span.start_lba,
        descramble: false,
        sector_count: span.length,
    }
}

/// The choice among the data tracks `spans[i..]`: the first one with a primary
/// volume descriptor, and nothing behind it is looked at. Where there is none,
/// the descriptor must be `whole` and its offsets must `fit`; the first data
/// track, `first` where one came before `i`, is then taken.
pub open spec fn cdi_choice(
    log: Log,
    spans: Seq<CdiSpan>,
    i: int,
    first: Option<DataTrack>,
    fits: bool,
    whole: bool,
) -> Step<Result<DataTrack, DiscError>>
    decreases spans.len() - i,
{
    if i < 0 || i >= spans.len() {
        if !fits {
            Step::Fault
        } else if !whole {
            Step::Done(Err(DiscError::CdiRead))
        } else {
            match first {
                Some(t) => Step::Done(Ok(t)),
                None => Step::Done(Err(DiscError::CdiNoDataTrack)),
            }
        }
    } else {
        let span = spans[i];
        match cdi_udo(log, span) {
            Step::Ask(q) => Step::Ask(q),
            Step::Fault => Step::Fault,
            Step::Done(udo) => match volume::pvd_search(log, 0, span.base, span.stride, udo, 0) {
                Step::Ask(q) => Step::Ask(q),
                Step::Fault => Step::Fault,
                Step::Done(Some(offset)) => Step::Done(Ok(cdi_data_track(span, udo, offset))),
                Step::Done(None) => cdi_choice(
                    log,
                    spans,
                    i + 1,
                    match first {
                        Some(t) => Some(t),
                        None => Some(cdi_data_track(span, udo, span.base)),
                    },
                    fits,
                    whole,
                ),
            },
        }
    }
}

fn choose_track(
    log: &Log,
    cur: &mut usize,
    spans: &Vec<CdiSpan>,
    fits: bool,
    whole: bool,
) -> (r: Step<Result<DataTrack, DiscError>>)
    requires
        log.wf(),
    ensures
        r == cdi_choice(*log, spans@, 0, None, fits, whole),
{
    let mut first: Option<DataTrack> = None;
    let mut i: usize = 0;
    while i < spans.len()
        invariant
            i <= spans@.len(),
            log.wf(),
            cdi_choice(*log, spans@, 0, None, fits, whole) == cdi_choice(
                *log,
                spans@,
                i as int,
                first,
                fits,
                whole,
            ),
        decreases spans@.len() - i,
    {
        let span = spans[i];
        let udo: u64 = match ask_udo(log, cur, span) {
            Step::Ask(q) => {
                return Step::Ask(q);
            },
            Step::Fault => {
                return Step::Fault;
            },
            Step::Done(u) => u,
        };
        match volume::cdi_align_to_pvd(log, cur, 0, span.base, span.stride, udo) {
            Step::Ask(q) => {
                return Step::Ask(q);
            },
            Step::Fault => {
                return Step::Fault;
            },
            Step::Done(Some(offset)) => {
                return Step::Done(Ok(data_track(span, udo, offset)));
            },
            Step::Done(None) => {
                if first.is_none() {
                    first = Some(data_track(span, udo, span.base));
                }
            },
        }
        i += 1;
    }
    if !fits {
        Step::Fault
    } else if !whole {
        Step::Done(Err(DiscError::CdiRead))
    } else {
        match first {
            Some(t) => Step::Done(Ok(t)),
            None => Step::Done(Err(DiscError::CdiNoDataTrack)),
        }
    }
}

/// The data track of the image in file 0: the length of the file is asked for
/// first, then its last eight bytes, then the descriptor, then what the data
/// tracks hold.
pub open spec fn cdi_image(log: Log) -> Step<Result<DataTrack, DiscError>> {
    let size = Query::Size { file: 0 };
    match log.known(size) {
        None => Step::Ask(size),
        Some(n) => match n.size() {
            None => Step::Done(Err(DiscError::CdiOpen)),
            Some(n) => if n < 8 {
                Step::Done(Err(DiscError::CdiTooShort))
            } else {
                cdi_image_of(log, n)
            },
        },
    }
}

/// The data track of an image of `n` bytes.
pub open spec fn cdi_image_of(log: Log, n: u64) -> Step<Result<DataTrack, DiscError>> {
    let tail = Query::Read { file: 0, offset: (n - 8) as u64, len: 8 };
    match log.known(tail) {
        None => Step::Ask(tail),
        Some(t) => match cdi_footer(n, t.bytes()) {
            Err(e) => Step::Done(Err(e)),
            Ok(f) => {
                let body = Query::Read {
                    file: 0,
                    offset: f.descriptor,
                    len: (if f.descriptor <= n {
                        n - f.descriptor
                    } else {
                        0
                    }) as u64,
                };
                match log.known(body) {
                    None => Step::Ask(body),
                    Some(d) => {
                        let (tracks, whole) = cdi_tracks(d.bytes(), f.version == CDI_V2);
                        let (spans, fits) = cdi_spans(tracks);
                        cdi_choice(log, spans, 0, None, fits, whole)
                    },
                }
            },
        },
    }
}

/// Finds the data track of the image in file 0.
pub fn parse_cdi_for_data_track(log: &Log, cur: &mut usize) -> (r: Step<
    Result<DataTrack, DiscError>,
>)
    requires
        log.wf(),
    ensures
        r == cdi_image(*log),
{
    let size = Query::Size { file: 0 };
    let n: u64 = match log.size(size, cur) {
        None => {
            return Step::Ask(size);
        },
        Some(None) => {
            return Step::Done(Err(DiscError::CdiOpen));
        },
        Some(Some(n)) => n,
    };
    if n < 8 {
        return Step::Done(Err(DiscError::CdiTooShort));
    }
    let tail = Query::Read { file: 0, offset: n - 8, len: 8 };
    let footer: CdiFooter = match log.bytes(tail, cur) {
        None => {
            return Step::Ask(tail);
        },
        Some(t) => match read_cdi_footer(n, t) {
            Err(e) => {
                return Step::Done(Err(e));
            },
            Ok(f) => f,
        },
    };
    let len: u64 = n.saturating_sub(footer.descriptor);
    let body = Query::Read { file: 0, offset: footer.descriptor, len };
    match log.bytes(body, cur) {
        None => Step::Ask(body),
        Some(d) => {
            let (tracks, whole) = read_cdi_tracks(d, footer.version == CDI_V2);
            let (spans, fits) = place_cdi_tracks(&tracks);
            choose_track(log, cur, &spans, fits, whole)
        },
    }
}

/// What a chosen track is: sector 16 behind its offset opens a primary volume
/// descriptor, or it is the first data track and no data track has one.
pub proof fn lemma_cdi_choice(
    log: Log,
    spans: Seq<CdiSpan>,
    i: int,
    first: Option<DataTrack>,
    fits: bool,
    whole: bool,
    track: DataTrack,
)
    requires
        0 <= i,
        cdi_choice(log, spans, i, first, fits, whole) == Step::Done(
            Ok::<DataTrack, DiscError>(track),
        ),
    ensures
        ({
            let q = Query::Read {
                file: 0,
                offset: volume::sector_at(
                    track.track_offset,
                    volume::PVD_LBA as int,
                    track.stride,
                    track.user_data_offset,
                ) as u64,
                len: 8,
            };
            log.known(q) matches Some(r) && volume::is_pvd_head(r.bytes())
        }) || ((first == Some(track) || (first is None && i < spans.len() && track.track_offset
            == spans[i].base)) && forall|k: int|
            i <= k < spans.len() ==> (cdi_udo(log, #[trigger] spans[k]) matches Step::Done(u)
                && volume::pvd_search(log, 0, spans[k].base, spans[k].stride, u, 0) == Step::Done(
                None::<u64>,
            ))),
    decreases spans.len() - i,
{
    if i < spans.len() {
        let span = spans[i];
        let udo = cdi_udo(log, span)->Done_0;
        match volume::pvd_search(log, 0, span.base, span.stride, udo, 0) {
            Step::Done(Some(offset)) => {
                let d = volume::lemma_pvd_search_aligns(
                    log,
                    0,
                    span.base,
                    span.stride,
                    udo,
                    0,
                );
            },
            _ => {
                let next = match first {
                    Some(t) => Some(t),
                    None => Some(cdi_data_track(span, udo, span.base)),
                };
                lemma_cdi_choice(log, spans, i + 1, next, fits, whole, track);
            },
        }
    }
}

} // verus!
