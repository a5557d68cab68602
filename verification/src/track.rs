//! Tracks of a disc image, and where the sectors of a track lie in its files.
use crate::device::Step;
use crate::error::DiscError;
use vstd::prelude::*;

verus! {

/// A data track: the file that holds it, and how its sectors lie there.
///
/// The files of an image are numbered in the order in which the image names
/// them; an image with one data file numbers it 0.
#[derive(Clone, Copy, PartialEq, Eq, Structural, Debug)]
pub struct DataTrack {
    /// The file that holds the track.
    pub bin: usize,
    /// Byte offset of the first sector.
    pub track_offset: u64,
    /// Byte offset of the user data within a sector.
    pub user_data_offset: u64,
    /// Bytes per sector.
    pub stride: u64,
    /// Absolute sector number of the first sector.
    pub lba_offset: u64,
    /// The sectors are scrambled.
    pub descramble: bool,
    /// Number of sectors; 0 where it is not known.
    pub sector_count: u64,
}

/// A track as it is listed to the user.
#[derive(PartialEq, Eq, Debug)]
pub struct TrackInfo {
    pub number: u32,
    pub is_data: bool,
    pub mode: String,
    pub start_lba: u64,
    pub num_sectors: u64,
    pub session: u32,
    pub bin_path: String,
}

/// What a `TrackInfo` holds.
pub struct TrackInfoView {
    pub number: u32,
    pub is_data: bool,
    pub mode: Seq<char>,
    pub start_lba: u64,
    pub num_sectors: u64,
    pub session: u32,
    pub bin_path: Seq<char>,
}

impl View for TrackInfo {
    type V = TrackInfoView;

    open spec fn view(&self) -> TrackInfoView {
        TrackInfoView {
            number: self.number,
            is_data: self.is_data,
            mode: self.mode@,
            start_lba: self.start_lba,
            num_sectors: self.num_sectors,
            session: self.session,
            bin_path: self.bin_path@,
        }
    }
}

/// What a list of tracks holds.
pub open spec fn track_views(v: Seq<TrackInfo>) -> Seq<TrackInfoView> {
    v.map_values(|t: TrackInfo| t@)
}

/// What a step to a list of tracks holds.
pub open spec fn listed(s: Step<Result<Vec<TrackInfo>, DiscError>>) -> Step<
    Result<Seq<TrackInfoView>, DiscError>,
> {
    match s {
        Step::Ask(q) => Step::Ask(q),
        Step::Fault => Step::Fault,
        Step::Done(Ok(v)) => Step::Done(Ok(track_views(v@))),
        Step::Done(Err(e)) => Step::Done(Err(e)),
    }
}

/// A copy of a listed track.
pub fn copy_track(t: &TrackInfo) -> (r: TrackInfo)
    ensures
        r == *t,
{
    TrackInfo {
        number: t.number,
        is_data: t.is_data,
        mode: t.mode.clone(),
        start_lba: t.start_lba,
        num_sectors: t.num_sectors,
        session: t.session,
        bin_path: t.bin_path.clone(),
    }
}

/// One track of a reader that may span several files.
#[derive(Clone, Copy, PartialEq, Eq, Structural, Debug)]
pub struct TrackFile {
    /// The file that holds the track.
    pub bin: usize,
    pub track_offset: u64,
    pub user_data_offset: u64,
    /// Bytes per sector: 2048, 2336 or 2352.
    pub stride: u64,
    /// Sector number that a reader of one file subtracts.
    pub lba_offset: u64,
    /// Absolute sector number of the first sector.
    pub start_lba: u64,
    /// Number of sectors; 0 where it is not known.
    pub sector_count: u64,
}

impl TrackFile {
    /// The track holds the sector with the absolute number `lba`.
    pub open spec fn holds(self, lba: u64) -> bool {
        lba >= self.start_lba && (self.sector_count == 0 || lba < self.start_lba
            + self.sector_count)
    }

    /// The byte position of the user data of the track's sector `n`.
    pub open spec fn position(self, n: int) -> int {
        self.track_offset + n * self.stride + self.user_data_offset
    }

    /// The byte position of the user data of the track's sector `n`; `None`
    /// where it is beyond 64 bits.
    fn byte_position(&self, n: u64) -> (r: Option<u64>)
        ensures
            r is Some <==> self.position(n as int) <= u64::MAX,
            r matches Some(p) ==> p == self.position(n as int),
    {
        assert(0 <= n * self.stride <= 0xffff_ffff_ffff_ffff * 0xffff_ffff_ffff_ffff)
            by (nonlinear_arith)
            requires
                0 <= n <= 0xffff_ffff_ffff_ffff,
                0 <= self.stride <= 0xffff_ffff_ffff_ffff,
        ;
        let p: u128 = n as u128 * self.stride as u128;
        let p: u128 = match p.checked_add(self.track_offset as u128) {
            Some(p) => p,
            None => {
                return None;
            },
        };
        let p: u128 = match p.checked_add(self.user_data_offset as u128) {
            Some(p) => p,
            None => {
                return None;
            },
        };
        if p > u64::MAX as u128 {
            None
        } else {
            Some(p as u64)
        }
    }
}

/// Reads an ISO 9660 volume by sector number from one track, or from several
/// tracks that lie in different files.
#[derive(PartialEq, Eq, Debug)]
pub struct MultiTrackBinReader {
    pub tracks: Vec<TrackFile>,
    /// The track that holds the volume's first sectors.
    pub root_idx: usize,
    /// Sectors are looked up among all tracks.
    pub multi_bin: bool,
}

/// The first track from `i` on that holds sector `lba`, or the number of
/// tracks.
pub open spec fn first_holder(tracks: Seq<TrackFile>, lba: u64, i: int) -> int
    decreases tracks.len() - i,
{
    if 0 <= i < tracks.len() && !tracks[i].holds(lba) {
        first_holder(tracks, lba, i + 1)
    } else {
        i
    }
}

impl MultiTrackBinReader {
    /// The root track exists.
    pub open spec fn wf(self) -> bool {
        self.root_idx < self.tracks@.len()
    }

    /// The track that sector `lba` is read from, and the number of the sector
    /// within it.
    ///
    /// A reader of one track subtracts the track's first sector number where
    /// it can. A reader of several tracks takes the sectors below 32, the
    /// volume descriptors among them, from the root track; any other sector
    /// from the first track that holds it, else from the root track.
    pub open spec fn target(self, lba: u64) -> (int, int) {
        let root = self.tracks@[self.root_idx as int];
        let i = first_holder(self.tracks@, lba, 0);
        if !self.multi_bin {
            (
                self.root_idx as int,
                if lba >= root.lba_offset {
                    lba - root.lba_offset
                } else {
                    lba as int
                },
            )
        } else if lba < 32 || i >= self.tracks@.len() {
            (self.root_idx as int, lba as int)
        } else {
            (i, lba - self.tracks@[i].start_lba)
        }
    }

    /// The byte position that sector `lba` is read from.
    pub open spec fn target_position(self, lba: u64) -> int {
        let (i, n) = self.target(lba);
        self.tracks@[i].position(n)
    }

    /// A reader of one track.
    pub fn single(
        bin: usize,
        track_offset: u64,
        user_data_offset: u64,
        stride: u64,
        lba_offset: u64,
    ) -> (r: Self)
        ensures
            r.wf(),
            r.tracks@ == seq![
                (TrackFile {
                    bin,
                    track_offset,
                    user_data_offset,
                    stride,
                    lba_offset,
                    start_lba: lba_offset,
                    sector_count: 0,
                }),
            ],
            r.root_idx == 0,
            !r.multi_bin,
    {
        let t = TrackFile {
            bin,
            track_offset,
            user_data_offset,
            stride,
            lba_offset,
            start_lba: lba_offset,
            sector_count: 0,
        };
        let mut tracks: Vec<TrackFile> = Vec::new();
        tracks.push(t);
        assert(tracks@ =~= seq![t]);
        MultiTrackBinReader { tracks, root_idx: 0, multi_bin: false }
    }

    /// Where sector `lba` is read: the track, and the byte position in the
    /// track's file. `None` where that position is beyond 64 bits.
    pub fn read_at(&self, lba: u64) -> (r: Option<(usize, u64)>)
        requires
            self.wf(),
        ensures
            r is Some <==> self.target_position(lba) <= u64::MAX,
            r matches Some(p) ==> p.0 == self.target(lba).0 && p.0 < self.tracks@.len() && p.1
                == self.target_position(lba),
    {
        let root = self.tracks[self.root_idx];
        if !self.multi_bin {
            let n: u64 = if lba >= root.lba_offset {
                lba - root.lba_offset
            } else {
                lba
            };
            return match root.byte_position(n) {
                Some(p) => Some((self.root_idx, p)),
                None => None,
            };
        }
        if lba >= 32 {
            let mut i: usize = 0;
            while i < self.tracks.len()
                invariant
                    i <= self.tracks@.len(),
                    lba >= 32,
                    self.multi_bin,
                    first_holder(self.tracks@, lba, 0) == first_holder(self.tracks@, lba, i as int),
                decreases self.tracks@.len() - i,
            {
                let t = self.tracks[i];
                if lba >= t.start_lba && (t.sector_count == 0 || lba - t.start_lba
                    < t.sector_count) {
                    return match t.byte_position(lba - t.start_lba) {
                        Some(p) => Some((i, p)),
                        None => None,
                    };
                }
                i += 1;
            }
        }
        match root.byte_position(lba) {
            Some(p) => Some((self.root_idx, p)),
            None => None,
        }
    }
}

/// A reader of one track reads the sectors behind the track's first one end to
/// end.
pub proof fn lemma_single_is_contiguous(r: MultiTrackBinReader, lba: u64)
    requires
        r.wf(),
        !r.multi_bin,
        r.tracks@[r.root_idx as int].lba_offset <= lba < u64::MAX,
    ensures
        r.target_position((lba + 1) as u64) == r.target_position(lba)
            + r.tracks@[r.root_idx as int].stride,
{
    let t = r.tracks@[r.root_idx as int];
    let n = lba - t.lba_offset;
    assert((n + 1) * t.stride == n * t.stride + t.stride) by (nonlinear_arith);
}

/// A reader of several tracks reads a sector from a track that holds it, where
/// there is one, and never from a later one.
pub proof fn lemma_holder_is_first(tracks: Seq<TrackFile>, lba: u64, i: int)
    requires
        0 <= i <= tracks.len(),
    ensures
        i <= first_holder(tracks, lba, i) <= tracks.len(),
        first_holder(tracks, lba, i) < tracks.len() ==> tracks[first_holder(
            tracks,
            lba,
            i,
        )].holds(lba),
        forall|k: int|
            i <= k < first_holder(tracks, lba, i) ==> !(#[trigger] tracks[k]).holds(lba),
    decreases tracks.len() - i,
{
    if i < tracks.len() && !tracks[i].holds(lba) {
        lemma_holder_is_first(tracks, lba, i + 1);
    }
}

} // verus!
