//! Errors, and the texts that tell them to the user.
use crate::text;
use vstd::prelude::*;

verus! {

/// Why an image or a request is refused.
#[derive(Clone, Copy, PartialEq, Eq, Structural, Debug)]
pub enum DiscError {
    CueNoDataTrack,
    NrgTooSmall,
    NrgNotNero,
    NrgChunkOffset,
    NrgNoDataTrack,
    CcdImgMissing,
    CcdNoDataTrack,
    CdiOpen,
    CdiTooShort,
    CdiRead,
    CdiVersion(u32),
    CdiZeroOffset,
    CdiNoDataTrack,
    GdiNoCount,
    GdiNoDataTrack,
    GdiNoTracks,
    MdsInvalid,
    MdsMdfMissing,
    MdsSessionOffset,
    MdsNoDataTrack,
    ChdEmpty,
    ImageStat,
    ImageEmpty,
    SectorRange { lba: u64, last: u64 },
    Read,
    AudioTrackMissing(u32),
    NotADirectory,
    DirectoryMissing,
    NotAFile,
    FileMissing,
    WbfsHeaderRead,
    WbfsMagic,
    WbfsSectorShift(u32),
    WbfsHdSector(u64),
    WbfsTableRead,
    WbfsNoDisc,
    WbfsChunkRead,
    WiiNoPartition,
    WiiKeyRead,
    WiiTitleRead,
    WiiKeyDecrypt,
    WiiHeaderRead,
    WiiClusterRead,
    WiiDataDecrypt,
}

impl DiscError {
    /// The text of the error. `detail` is what the error is about: the path of
    /// the file, or what the system said of a failed call.
    pub open spec fn text(self, detail: Seq<char>) -> Seq<char> {
        match self {
            DiscError::CueNoDataTrack => "No data track found in CUE sheet"@,
            DiscError::NrgTooSmall => "File too small for NRG"@,
            DiscError::NrgNotNero => "Not a Nero (.nrg) image"@,
            DiscError::NrgChunkOffset => "Invalid NRG chunk offset"@,
            DiscError::NrgNoDataTrack => "No data track found in NRG"@,
            DiscError::CcdImgMissing => "IMG file not found: "@ + detail,
            DiscError::CcdNoDataTrack => "No data track found in CCD"@,
            DiscError::CdiOpen => "Cannot open CDI: "@ + detail,
            DiscError::CdiTooShort => "CDI file too short"@,
            DiscError::CdiRead => "CDI read: "@ + detail,
            DiscError::CdiVersion(v) => "Not a CDI image (version 0x"@ + text::hex_digits(
                v as nat,
                8,
            ) + ")"@,
            DiscError::CdiZeroOffset => "Bad CDI: zero header offset"@,
            DiscError::CdiNoDataTrack => "No data track found in CDI image"@,
            DiscError::GdiNoCount => "GDI: missing track count"@,
            DiscError::GdiNoDataTrack => "No data track found in GDI image"@,
            DiscError::GdiNoTracks => "No tracks found in GDI"@,
            DiscError::MdsInvalid => "Not a valid MDS file"@,
            DiscError::MdsMdfMissing => "MDF file not found: "@ + detail,
            DiscError::MdsSessionOffset => "Invalid MDS session offset"@,
            DiscError::MdsNoDataTrack => "No data track found in MDS"@,
            DiscError::ChdEmpty => "CHD is empty"@,
            DiscError::ImageStat => "Cannot stat image: "@ + detail,
            DiscError::ImageEmpty => "Image file is empty"@,
            DiscError::SectorRange { lba, last } => "Sector "@ + text::decimal(lba as nat)
                + " out of range (0–"@ + text::decimal(last as nat) + ")"@,
            DiscError::Read => "Read error: "@ + detail,
            DiscError::AudioTrackMissing(n) => "Audio track "@ + text::decimal(n as nat)
                + " not found"@,
            DiscError::NotADirectory => detail + " is not a directory"@,
            DiscError::DirectoryMissing => "Directory not found: "@ + detail,
            DiscError::NotAFile => detail + " is not a file"@,
            DiscError::FileMissing => "File not found: "@ + detail,
            DiscError::WbfsHeaderRead => "WBFS header read: "@ + detail,
            DiscError::WbfsMagic => "Not a WBFS file"@,
            DiscError::WbfsSectorShift(n) => "WBFS: unsupported wbfs_sec_sz_s="@ + text::decimal(
                n as nat,
            ) + " (expected 15–30)"@,
            DiscError::WbfsHdSector(n) => "WBFS: hd_sec_sz="@ + text::decimal(n as nat)
                + " is too small"@,
            DiscError::WbfsTableRead => "WBFS disc_table read: "@ + detail,
            DiscError::WbfsNoDisc => "WBFS: no disc found in file"@,
            DiscError::WbfsChunkRead => "WBFS wlba read: "@ + detail,
            DiscError::WiiNoPartition => "Wii: no data partition found"@,
            DiscError::WiiKeyRead => "Wii title key read: "@ + detail,
            DiscError::WiiTitleRead => "Wii title ID read: "@ + detail,
            DiscError::WiiKeyDecrypt => "Wii: title key decrypt failed"@,
            DiscError::WiiHeaderRead => "Wii part header read: "@ + detail,
            DiscError::WiiClusterRead => detail,
            DiscError::WiiDataDecrypt => "data decrypt failed"@,
        }
    }

    /// The text of the error. `detail` is what the error is about: the path of
    /// the file, or what the system said of a failed call.
    pub fn message(self, detail: &str) -> (r: String)
        ensures
            r@ == self.text(detail@),
    {
        let mut s = String::new();
        match self {
            DiscError::CueNoDataTrack => s.append("No data track found in CUE sheet"),
            DiscError::NrgTooSmall => s.append("File too small for NRG"),
            DiscError::NrgNotNero => s.append("Not a Nero (.nrg) image"),
            DiscError::NrgChunkOffset => s.append("Invalid NRG chunk offset"),
            DiscError::NrgNoDataTrack => s.append("No data track found in NRG"),
            DiscError::CcdImgMissing => {
                s.append("IMG file not found: ");
                s.append(detail);
            },
            DiscError::CcdNoDataTrack => s.append("No data track found in CCD"),
            DiscError::CdiOpen => {
                s.append("Cannot open CDI: ");
                s.append(detail);
            },
            DiscError::CdiTooShort => s.append("CDI file too short"),
            DiscError::CdiRead => {
                s.append("CDI read: ");
                s.append(detail);
            },
            DiscError::CdiVersion(v) => {
                s.append("Not a CDI image (version 0x");
                text::push_hex(&mut s, v, 8);
                s.append(")");
            },
            DiscError::CdiZeroOffset => s.append("Bad CDI: zero header offset"),
            DiscError::CdiNoDataTrack => s.append("No data track found in CDI image"),
            DiscError::GdiNoCount => s.append("GDI: missing track count"),
            DiscError::GdiNoDataTrack => s.append("No data track found in GDI image"),
            DiscError::GdiNoTracks => s.append("No tracks found in GDI"),
            DiscError::MdsInvalid => s.append("Not a valid MDS file"),
            DiscError::MdsMdfMissing => {
                s.append("MDF file not found: ");
                s.append(detail);
            },
            DiscError::MdsSessionOffset => s.append("Invalid MDS session offset"),
            DiscError::MdsNoDataTrack => s.append("No data track found in MDS"),
            DiscError::ChdEmpty => s.append("CHD is empty"),
            DiscError::ImageStat => {
                s.append("Cannot stat image: ");
                s.append(detail);
            },
            DiscError::ImageEmpty => s.append("Image file is empty"),
            DiscError::SectorRange { lba, last } => {
                s.append("Sector ");
                text::push_decimal(&mut s, lba);
                s.append(" out of range (0–");
                text::push_decimal(&mut s, last);
                s.append(")");
            },
            DiscError::Read => {
                s.append("Read error: ");
                s.append(detail);
            },
            DiscError::AudioTrackMissing(n) => {
                s.append("Audio track ");
                text::push_decimal(&mut s, n as u64);
                s.append(" not found");
            },
            DiscError::NotADirectory => {
                s.append(detail);
                s.append(" is not a directory");
            },
            DiscError::DirectoryMissing => {
                s.append("Directory not found: ");
                s.append(detail);
            },
            DiscError::NotAFile => {
                s.append(detail);
                s.append(" is not a file");
            },
            DiscError::FileMissing => {
                s.append("File not found: ");
                s.append(detail);
            },
            DiscError::WbfsHeaderRead => {
                s.append("WBFS header read: ");
                s.append(detail);
            },
            DiscError::WbfsMagic => s.append("Not a WBFS file"),
            DiscError::WbfsSectorShift(n) => {
                s.append("WBFS: unsupported wbfs_sec_sz_s=");
                text::push_decimal(&mut s, n as u64);
                s.append(" (expected 15–30)");
            },
            DiscError::WbfsHdSector(n) => {
                s.append("WBFS: hd_sec_sz=");
                text::push_decimal(&mut s, n as u64);
                s.append(" is too small");
            },
            DiscError::WbfsTableRead => {
                s.append("WBFS disc_table read: ");
                s.append(detail);
            },
            DiscError::WbfsNoDisc => s.append("WBFS: no disc found in file"),
            DiscError::WbfsChunkRead => {
                s.append("WBFS wlba read: ");
                s.append(detail);
            },
            DiscError::WiiNoPartition => s.append("Wii: no data partition found"),
            DiscError::WiiKeyRead => {
                s.append("Wii title key read: ");
                s.append(detail);
            },
            DiscError::WiiTitleRead => {
                s.append("Wii title ID read: ");
                s.append(detail);
            },
            DiscError::WiiKeyDecrypt => s.append("Wii: title key decrypt failed"),
            DiscError::WiiHeaderRead => {
                s.append("Wii part header read: ");
                s.append(detail);
            },
            DiscError::WiiClusterRead => s.append(detail),
            DiscError::WiiDataDecrypt => s.append("data decrypt failed"),
        }
        assert(s@ =~= self.text(detail@));
        s
    }
}

} // verus!
