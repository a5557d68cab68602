//! Single-file media descriptors (`.mdx`): a header, then the sectors. The
//! image is file 0.
use crate::device::{Log, Step};
use crate::mds;
use crate::sector;
use crate::track::DataTrack;
use crate::bytes;
use vstd::prelude::*;

verus! {

/// Byte offset of the first sector.
pub const MDX_DATA_OFFSET: u64 = 0x40;

/// The first 17 bytes of an image: the signature and version 2.
pub open spec fn is_mdx(head: Seq<u8>) -> bool {
    head.len() >= 17 && bytes::bytes_at(head, 0, mds::media_descriptor()) && head[16] == 2
}

/// Whether a file is an image, by its first 17 bytes; fewer bytes stand for a
/// failed read.
pub fn is_mdx_file(head: &[u8]) -> (r: bool)
    ensures
        r == is_mdx(head@),
{
    head.len() >= 17 && mds::has_signature(head) && head[16] == 2
}

/// The size of the sectors of an image, and where their user data begins.
pub fn mdx_sector_format(log: &Log, cur: &mut usize) -> (r: Step<(u64, u64)>)
    requires
        log.wf(),
    ensures
        r == sector::format_at(*log, 0, MDX_DATA_OFFSET),
{
    sector::ask_format(log, cur, 0, MDX_DATA_OFFSET)
}

/// All sectors of an image, as one data track.
pub open spec fn mdx_track(udo: u64, lba: u64) -> DataTrack {
    DataTrack {
        bin: 0,
        track_offset: MDX_DATA_OFFSET,
        user_data_offset: udo,
        stride: sector::RAW_SECTOR_SIZE,
        lba_offset: lba,
        descramble: false,
        sector_count: 0,
    }
}

/// The data track of an image. Only raw sectors tell the number of the first
/// one.
pub open spec fn mdx_image(log: Log) -> Step<DataTrack> {
    match sector::format_at(log, 0, MDX_DATA_OFFSET) {
        Step::Ask(q) => Step::Ask(q),
        Step::Fault => Step::Fault,
        Step::Done(f) => if f.0 != sector::RAW_SECTOR_SIZE {
            Step::Done(mdx_track(f.1, 0))
        } else {
            match sector::lba_at(log, 0, MDX_DATA_OFFSET) {
                Step::Ask(q) => Step::Ask(q),
                Step::Fault => Step::Fault,
                Step::Done(lba) => Step::Done(mdx_track(f.1, lba)),
            }
        },
    }
}

fn track_of(udo: u64, lba: u64) -> (r: DataTrack)
    ensures
        r == mdx_track(udo, lba),
{
    DataTrack {
        bin: 0,
        track_offset: MDX_DATA_OFFSET,
        user_data_offset: udo,
        stride: sector::RAW_SECTOR_SIZE,
        lba_offset: lba,
        descramble: false,
        sector_count: 0,
    }
}

/// Describes the sectors of an image as one data track.
pub fn parse_mdx_as_data_track(log: &Log, cur: &mut usize) -> (r: Step<DataTrack>)
    requires
        log.wf(),
    ensures
        r == mdx_image(*log),
{
    match mdx_sector_format(log, cur) {
        Step::Ask(q) => Step::Ask(q),
        Step::Fault => Step::Fault,
        Step::Done(f) => if f.0 != sector::RAW_SECTOR_SIZE {
            Step::Done(track_of(f.1, 0))
        } else {
            match sector::ask_lba(log, cur, 0, MDX_DATA_OFFSET) {
                Step::Ask(q) => Step::Ask(q),
                Step::Fault => Step::Fault,
                Step::Done(lba) => Step::Done(track_of(f.1, lba)),
            }
        },
    }
}

/// Where sector `lba` of an image of 2048-byte sectors is read: `None` where
/// that is beyond 64 bits.
pub open spec fn mdx_place(lba: u64) -> Option<u64> {
    let p = MDX_DATA_OFFSET + lba * 2048;
    if p <= u64::MAX {
        Some(p as u64)
    } else {
        None
    }
}

/// Where sector `lba` of an image of 2048-byte sectors is read: `None` where
/// that is beyond 64 bits.
pub fn mdx_position(lba: u64) -> (r: Option<u64>)
    ensures
        r == mdx_place(lba),
        r is Some <==> MDX_DATA_OFFSET + lba * 2048 <= u64::MAX,
        r matches Some(p) ==> p == MDX_DATA_OFFSET + lba * 2048,
{
    let p: u128 = MDX_DATA_OFFSET as u128 + lba as u128 * 2048;
    if p > u64::MAX as u128 {
        None
    } else {
        Some(p as u64)
    }
}

} // verus!
