//! Raw CD sectors: the sync pattern, the address in a sector header, and where
//! the user data of a sector begins.
use crate::bytes;
use crate::device::{Log, Query, Step};
use vstd::prelude::*;

verus! {

/// Bytes in a raw CD sector.
pub const RAW_SECTOR_SIZE: u64 = 2352;

/// Bytes of user data in a sector.
pub const DATA_SECTOR_SIZE: u64 = 2048;

/// The sync pattern that opens a raw sector.
pub open spec fn sync_pattern() -> Seq<u8> {
    seq![0x00u8, 0xff, 0xff, 0xff, 0xff, 0xff, 0xff, 0xff, 0xff, 0xff, 0xff, 0x00]
}

/// `s` opens with the sync pattern.
pub open spec fn is_synced(s: Seq<u8>) -> bool {
    bytes::bytes_at(s, 0, sync_pattern())
}

/// Whether `s` opens with the sync pattern.
pub fn synced(s: &[u8]) -> (r: bool)
    ensures
        r == is_synced(s@),
{
    let p: [u8; 12] = [0x00, 0xff, 0xff, 0xff, 0xff, 0xff, 0xff, 0xff, 0xff, 0xff, 0xff, 0x00];
    assert(p@ =~= sync_pattern());
    bytes::has_bytes(s, 0, &p)
}

/// The value of a byte in binary-coded decimal: ten times the upper half plus
/// the lower one.
pub open spec fn bcd(b: u8) -> int {
    (b / 16) * 10 + b % 16
}

/// The sector number that the address in a sector header stands for: minutes,
/// seconds and frames, less the 150 sectors before sector 0. Zero where the
/// header is short, opens without the sync pattern, or lies in those sectors.
pub open spec fn header_lba(hdr: Seq<u8>) -> int {
    if hdr.len() < 15 || !is_synced(hdr) {
        0
    } else {
        let n = (bcd(hdr[12]) * 60 + bcd(hdr[13])) * 75 + bcd(hdr[14]);
        if n < 150 {
            0
        } else {
            n - 150
        }
    }
}

fn bcd_value(b: u8) -> (r: u64)
    ensures
        r == bcd(b),
        r <= 165,
{
    (b / 16) as u64 * 10 + (b % 16) as u64
}

/// The absolute sector number in the header of a sector, given the first 15
/// bytes of the sector; fewer bytes stand for a failed read.
pub fn sector_lba_at(hdr: &[u8]) -> (r: u64)
    ensures
        r == header_lba(hdr@),
{
    if hdr.len() < 15 || !synced(hdr) {
        return 0;
    }
    let n: u64 = (bcd_value(hdr[12]) * 60 + bcd_value(hdr[13])) * 75 + bcd_value(hdr[14]);
    n.saturating_sub(150)
}

/// Where the user data of a raw sector begins, by the mode byte of its header:
/// 24 in mode 2, else 16.
pub open spec fn mode_offset(mode: u8) -> u64 {
    if mode == 2 {
        24
    } else {
        16
    }
}

/// `head`, the first 16 bytes of a sector, shows a raw sector.
pub open spec fn is_raw(head: Seq<u8>) -> bool {
    head.len() >= 16 && is_synced(head)
}

/// Where the user data of a raw sector begins; `None` for a sector of 2048
/// bytes. `head` holds the first 16 bytes of the image; fewer bytes stand for
/// a failed read.
pub fn detect_raw_sector_offset(head: &[u8]) -> (r: Option<u64>)
    ensures
        r == (if is_raw(head@) {
            Some(mode_offset(head@[15]))
        } else {
            None
        }),
{
    if head.len() < 16 || !synced(head) {
        return None;
    }
    Some(
        if head[15] == 2 {
            24
        } else {
            16
        },
    )
}

/// Sector size and start of the user data, by the first 16 bytes of a sector.
pub open spec fn sector_format(head: Seq<u8>) -> (u64, u64) {
    if is_raw(head) {
        (2352, mode_offset(head[15]))
    } else {
        (2048, 0)
    }
}

/// Sector size and start of the user data, by the first 16 bytes of a sector;
/// fewer bytes stand for a failed read.
pub fn detect_sector_format_at(head: &[u8]) -> (r: (u64, u64))
    ensures
        r == sector_format(head@),
{
    match detect_raw_sector_offset(head) {
        Some(o) => (2352, o),
        None => (2048, 0),
    }
}

// ── Looking at a sector of a file ────────────────────────────────────────────

/// The absolute number in the header of the sector at `offset` of a file.
pub open spec fn lba_at(log: Log, file: usize, offset: u64) -> Step<u64> {
    let q = Query::Read { file, offset, len: 15 };
    match log.known(q) {
        None => Step::Ask(q),
        Some(r) => Step::Done(header_lba(r.bytes()) as u64),
    }
}

/// Looks up the absolute number in the header of the sector at `offset`.
pub fn ask_lba(log: &Log, cur: &mut usize, file: usize, offset: u64) -> (r: Step<u64>)
    requires
        log.wf(),
    ensures
        r == lba_at(*log, file, offset),
{
    let q = Query::Read { file, offset, len: 15 };
    match log.bytes(q, cur) {
        None => Step::Ask(q),
        Some(b) => Step::Done(sector_lba_at(b)),
    }
}

/// The size of the sectors at `offset` of a file, and where their user data
/// begins.
pub open spec fn format_at(log: Log, file: usize, offset: u64) -> Step<(u64, u64)> {
    let q = Query::Read { file, offset, len: 16 };
    match log.known(q) {
        None => Step::Ask(q),
        Some(r) => Step::Done(sector_format(r.bytes())),
    }
}

/// Looks up the size of the sectors at `offset` of a file, and where their
/// user data begins.
pub fn ask_format(log: &Log, cur: &mut usize, file: usize, offset: u64) -> (r: Step<(u64, u64)>)
    requires
        log.wf(),
    ensures
        r == format_at(*log, file, offset),
{
    let q = Query::Read { file, offset, len: 16 };
    match log.bytes(q, cur) {
        None => Step::Ask(q),
        Some(b) => Step::Done(detect_sector_format_at(b)),
    }
}

/// Where the user data of the sectors of a whole-disc file begins: 0 in a file
/// of plain 2048-byte sectors.
pub open spec fn raw_offset(log: Log, file: usize) -> Step<u64> {
    let q = Query::Read { file, offset: 0, len: 16 };
    match log.known(q) {
        None => Step::Ask(q),
        Some(r) => Step::Done(sector_format(r.bytes()).1),
    }
}

/// Looks up where the user data of the sectors of a whole-disc file begins.
pub fn ask_raw_offset(log: &Log, cur: &mut usize, file: usize) -> (r: Step<u64>)
    requires
        log.wf(),
    ensures
        r == raw_offset(*log, file),
{
    let q = Query::Read { file, offset: 0, len: 16 };
    match log.bytes(q, cur) {
        None => Step::Ask(q),
        Some(b) => Step::Done(
            match detect_raw_sector_offset(b) {
                Some(o) => o,
                None => 0,
            },
        ),
    }
}

} // verus!
