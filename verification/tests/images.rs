//! Binary images: their data tracks, their track lists and their sectors.
use disc_xplorer::cdi::{parse_cdi_for_data_track, read_cdi_tracks};
use disc_xplorer::chd::{chd_stride, open_chd, open_threedo_chd, ChdHeader, ChdSectorReader};
use disc_xplorer::cue::cue_lines;
use disc_xplorer::device::{DiscKind, Log, Probe, Query, Reply, Spot, Step};
use disc_xplorer::error::DiscError;
use disc_xplorer::image::{image_kind, kind_of_lower, read_sector, Image, ImageKind};
use disc_xplorer::mds::{get_mds_track_list, parse_mds_for_data_track};
use disc_xplorer::mdx::{is_mdx_file, mdx_position, mdx_sector_format, parse_mdx_as_data_track};
use disc_xplorer::nrg::parse_nrg_for_data_track;
use disc_xplorer::sector::{detect_raw_sector_offset, detect_sector_format_at, sector_lba_at};
use disc_xplorer::track::DataTrack;
use disc_xplorer::volume::{cdi_align_to_pvd, count_joliet, find_iso_volume, has_pvd};

/// Files in memory, and what the probes of a test find.
struct Disk {
    files: Vec<Option<Vec<u8>>>,
    probes: Vec<Probe>,
    gcm: Option<DiscKind>,
    udf: Option<String>,
}

fn disk_of(files: Vec<Option<Vec<u8>>>) -> Disk {
    Disk { files, probes: vec![], gcm: None, udf: None }
}

impl Disk {
    fn answer(&self, q: Query) -> Reply {
        match q {
            Query::Size { file } => Reply::Size(self.files[file].as_ref().map(|f| f.len() as u64)),
            Query::Exists { file } => Reply::Flag(self.files[file].is_some()),
            Query::Read { file, offset, len } => {
                let empty = Vec::new();
                let f = self.files[file].as_ref().unwrap_or(&empty);
                let end = offset.saturating_add(len);
                if end <= f.len() as u64 {
                    Reply::Bytes(f[offset as usize..end as usize].to_vec())
                } else {
                    Reply::Bytes(Vec::new())
                }
            }
            Query::Probe { probe: Probe::GcmDisc, .. } => Reply::Disc(self.gcm),
            Query::Probe { probe: Probe::UdfVersion, .. } => Reply::Label(self.udf.clone()),
            Query::Probe { probe, .. } => Reply::Flag(self.probes.contains(&probe)),
        }
    }

    fn run<T>(&self, f: impl Fn(&Log, &mut usize) -> Step<T>) -> Option<T> {
        let mut log = Log::new();
        let mut asked: Vec<Query> = Vec::new();
        loop {
            let mut cur = 0;
            match f(&log, &mut cur) {
                Step::Ask(q) => {
                    assert!(!asked.contains(&q), "asked twice");
                    asked.push(q);
                    log.answer(q, self.answer(q));
                }
                Step::Done(v) => return Some(v),
                Step::Fault => return None,
            }
        }
    }
}

fn bcd(n: u64) -> u8 {
    ((n / 10) * 16 + n % 10) as u8
}

/// A raw sector with the number `lba`, mode `mode` and the given user data.
fn raw_sector(lba: u64, mode: u8, data: &[u8]) -> Vec<u8> {
    let mut s = vec![0u8; 2352];
    for b in &mut s[1..11] {
        *b = 0xff;
    }
    let abs = lba + 150;
    s[12] = bcd(abs / 75 / 60);
    s[13] = bcd(abs / 75 % 60);
    s[14] = bcd(abs % 75);
    s[15] = mode;
    let at = if mode == 2 { 24 } else { 16 };
    s[at..at + data.len()].copy_from_slice(data);
    s
}

/// `n` raw sectors from number `lba` on; sector `pvd` opens a primary volume
/// descriptor.
fn raw_track(lba: u64, mode: u8, n: u64, pvd: Option<u64>) -> Vec<u8> {
    let mut v = Vec::new();
    for i in 0..n {
        if Some(i) == pvd {
            v.extend(raw_sector(lba + i, mode, b"\x01CD001\x01"));
        } else {
            v.extend(raw_sector(lba + i, mode, b""));
        }
    }
    v
}

// ── Sectors ──

#[test]
fn sector_headers() {
    let s = raw_sector(16, 1, b"");
    assert_eq!(sector_lba_at(&s[..15]), 16);
    assert_eq!(detect_raw_sector_offset(&s[..16]), Some(16));
    assert_eq!(detect_sector_format_at(&s[..16]), (2352, 16));
    let s = raw_sector(45000, 2, b"");
    assert_eq!(sector_lba_at(&s[..15]), 45000);
    assert_eq!(detect_raw_sector_offset(&s[..16]), Some(24));
    let zeros = vec![0u8; 16];
    assert_eq!(sector_lba_at(&zeros[..15]), 0);
    assert_eq!(detect_raw_sector_offset(&zeros), None);
    assert_eq!(detect_sector_format_at(&zeros), (2048, 0));
    // Too short: the read failed.
    assert_eq!(detect_sector_format_at(&s[..15]), (2048, 0));
    // An address below 150 stands for sector 0.
    let mut early = raw_sector(0, 1, b"");
    early[13] = 0;
    early[14] = 0x10;
    assert_eq!(sector_lba_at(&early[..15]), 0);
}

#[test]
fn descriptor_is_found_behind_a_bootstrap() {
    let disk = disk_of(vec![Some(raw_track(0, 1, 200, Some(166)))]);
    let got = disk.run(|l, c| cdi_align_to_pvd(l, c, 0, 0, 2352, 16)).unwrap();
    assert_eq!(got, Some(150 * 2352));
    let none = disk_of(vec![Some(raw_track(0, 1, 20, None))]);
    assert_eq!(none.run(|l, c| cdi_align_to_pvd(l, c, 0, 0, 2352, 16)).unwrap(), None);
    assert_eq!(none.run(|l, c| cdi_align_to_pvd(l, c, 0, u64::MAX, 2352, 16)), None);
}

#[test]
fn descriptor_beyond_the_search_is_not_found() {
    let mut img = vec![0u8; 2048 * 530];
    img[2048 * 528..2048 * 528 + 7].copy_from_slice(b"\x01CD001\x01");
    let disk = disk_of(vec![Some(img)]);
    assert_eq!(disk.run(|l, c| cdi_align_to_pvd(l, c, 0, 0, 2048, 0)).unwrap(), None);
    assert_eq!(disk.run(|l, c| cdi_align_to_pvd(l, c, 0, 2048, 2048, 0)).unwrap(), Some(2048 * 512));
}

// ── NRG ──

fn nrg(v2: bool, modes: &[u8], offset: u64) -> Vec<u8> {
    let mut d = raw_track(7, 2, 3, None);
    let start = d.len() as u64;
    let mut chunk = vec![0u8; 24];
    for m in modes {
        let mut e = vec![0u8; if v2 { 40 } else { 28 }];
        e[14] = *m;
        if v2 {
            e[24..32].copy_from_slice(&offset.to_be_bytes());
        } else {
            e[20..24].copy_from_slice(&(offset as u32).to_be_bytes());
        }
        chunk.extend(e);
    }
    d.extend(if v2 { b"DAOX" } else { b"DAOI" });
    let len = chunk.len() as u32;
    d.extend(if v2 { len.to_le_bytes() } else { len.to_be_bytes() });
    d.extend(chunk);
    d.extend(b"END!\0\0\0\0");
    if v2 {
        d.extend(start.to_le_bytes());
        d.extend(b"NER5");
    } else {
        d.extend((start as u32).to_be_bytes());
        d.extend(b"NERO");
    }
    d
}

#[test]
fn nrg_first_track_that_is_not_audio() {
    for v2 in [false, true] {
        let d = nrg(v2, &[2, 0], 2352);
        let disk = disk_of(vec![Some(d.clone())]);
        let got = disk.run(|l, c| parse_nrg_for_data_track(l, c, &d)).unwrap().unwrap();
        assert_eq!((got.track_offset, got.user_data_offset, got.lba_offset), (2352, 24, 8));
    }
    let d = nrg(true, &[0], 100);
    let disk = disk_of(vec![Some(d.clone())]);
    let got = disk.run(|l, c| parse_nrg_for_data_track(l, c, &d)).unwrap().unwrap();
    assert_eq!((got.track_offset, got.user_data_offset, got.lba_offset), (100, 0, 0));
}

#[test]
fn nrg_errors() {
    let run = |d: Vec<u8>| {
        let disk = disk_of(vec![Some(d.clone())]);
        disk.run(|l, c| parse_nrg_for_data_track(l, c, &d)).unwrap()
    };
    assert_eq!(run(vec![0; 11]), Err(DiscError::NrgTooSmall));
    assert_eq!(run(vec![0; 12]), Err(DiscError::NrgNotNero));
    let mut d = vec![0xffu8; 16];
    d[12..].copy_from_slice(b"NER5");
    assert_eq!(run(d), Err(DiscError::NrgChunkOffset));
    assert_eq!(run(nrg(true, &[2, 2], 0)), Err(DiscError::NrgNoDataTrack));
    // An offset beyond the image is passed over.
    assert_eq!(run(nrg(false, &[0], 0xffff_ffff)), Err(DiscError::NrgNoDataTrack));
}

// ── MDS ──

fn mds(medium: u8, blocks: &[(u8, u8, u64, u32, [u8; 3])]) -> Vec<u8> {
    let mut d = vec![0u8; 0x60];
    d[..16].copy_from_slice(b"MEDIA DESCRIPTOR");
    d[0x12] = medium;
    d[0x14] = 1;
    d[0x4c..0x50].copy_from_slice(&0x60u32.to_le_bytes());
    let mut s = vec![0u8; 24];
    s[6] = 3;
    s[0x0a] = blocks.len() as u8;
    s[0x14..0x18].copy_from_slice(&0x78u32.to_le_bytes());
    d.extend(s);
    for (mode, point, offset, len, msf) in blocks {
        let mut b = vec![0u8; 80];
        b[0] = *mode;
        b[4] = *point;
        b[8..11].copy_from_slice(msf);
        b[0x20..0x28].copy_from_slice(&offset.to_le_bytes());
        b[0x28..0x2c].copy_from_slice(&len.to_le_bytes());
        d.extend(b);
    }
    d
}

#[test]
fn mds_first_data_block() {
    let d = mds(0, &[(0, 0xa0, 1, 0, [0; 3]), (0, 1, 2, 0, [0; 3]), (2, 2, 2352, 0, [0, 2, 0])]);
    let disk = disk_of(vec![Some(raw_track(9, 2, 4, None))]);
    let got = disk.run(|l, c| parse_mds_for_data_track(l, c, &d)).unwrap().unwrap();
    assert_eq!((got.track_offset, got.user_data_offset, got.lba_offset, got.stride), (2352, 24, 10, 2352));
    let d = mds(0, &[(1, 5, 0, 0, [0; 3])]);
    let got = disk.run(|l, c| parse_mds_for_data_track(l, c, &d)).unwrap().unwrap();
    assert_eq!((got.track_offset, got.user_data_offset, got.lba_offset), (0, 16, 9));
}

#[test]
fn mds_dvd_is_one_track() {
    let d = mds(0x10, &[]);
    let disk = disk_of(vec![Some(vec![0; 2048 * 5 + 100])]);
    let got = disk.run(|l, c| parse_mds_for_data_track(l, c, &d)).unwrap().unwrap();
    assert_eq!((got.stride, got.user_data_offset, got.sector_count), (2048, 0, 5));
    let list = disk.run(|l, c| get_mds_track_list(l, c, &d, "x.mdf")).unwrap().unwrap();
    assert_eq!(list.len(), 1);
    assert_eq!((list[0].number, list[0].mode.as_str(), list[0].num_sectors), (1, "MODE1/2048", 5));
}

#[test]
fn mds_errors() {
    let disk = disk_of(vec![Some(vec![])]);
    let run = |d: Vec<u8>| disk.run(|l, c| parse_mds_for_data_track(l, c, &d)).unwrap();
    assert_eq!(run(vec![0; 0x60]), Err(DiscError::MdsInvalid));
    assert_eq!(run(b"MEDIA DESCRIPTOR".to_vec()), Err(DiscError::MdsInvalid));
    assert_eq!(run(mds(0, &[(0, 1, 0, 0, [0; 3])])), Err(DiscError::MdsNoDataTrack));
    let mut d = mds(0, &[]);
    d[0x4c..0x50].copy_from_slice(&0xffff_ffffu32.to_le_bytes());
    assert_eq!(run(d), Err(DiscError::MdsSessionOffset));
    let missing = disk_of(vec![None]);
    let d = mds(0, &[]);
    assert_eq!(
        missing.run(|l, c| parse_mds_for_data_track(l, c, &d)).unwrap(),
        Err(DiscError::MdsMdfMissing)
    );
    assert_eq!(
        missing.run(|l, c| get_mds_track_list(l, c, b"nothing", "x")).unwrap(),
        Err(DiscError::MdsInvalid)
    );
}

#[test]
fn mds_tracks_are_sorted_by_number() {
    let d = mds(
        0,
        &[(0, 3, 0, 11, [0, 4, 1]), (2, 1, 0, 0, [0, 0, 5]), (0, 2, 0, 7, [1, 0, 0]), (0, 1, 0, 8, [0; 3])],
    );
    let disk = disk_of(vec![Some(vec![0; 2352 * 30])]);
    let got = disk.run(|l, c| get_mds_track_list(l, c, &d, "m.mdf")).unwrap().unwrap();
    let numbers: Vec<u32> = got.iter().map(|t| t.number).collect();
    assert_eq!(numbers, vec![1, 1, 2, 3]);
    // The two tracks with the number 1 keep their order.
    assert_eq!((got[0].mode.as_str(), got[0].start_lba, got[0].num_sectors), ("MODE2/2352", 5, 25));
    assert_eq!((got[1].mode.as_str(), got[1].num_sectors), ("AUDIO", 8));
    assert_eq!((got[2].start_lba, got[2].num_sectors), (60 * 75, 7));
    assert_eq!((got[3].start_lba, got[3].session), (4 * 75 + 1, 3));
    assert_eq!(got[3].bin_path, "m.mdf");
}

// ── MDX ──

#[test]
fn mdx_images() {
    let mut head = b"MEDIA DESCRIPTOR\x02".to_vec();
    assert!(is_mdx_file(&head));
    head[16] = 1;
    assert!(!is_mdx_file(&head));
    let mut img = vec![0u8; 0x40];
    img.extend(raw_track(33, 1, 2, None));
    let disk = disk_of(vec![Some(img)]);
    assert_eq!(disk.run(|l, c| mdx_sector_format(l, c)).unwrap(), (2352, 16));
    let t = disk.run(|l, c| parse_mdx_as_data_track(l, c)).unwrap();
    assert_eq!((t.track_offset, t.user_data_offset, t.lba_offset), (0x40, 16, 33));
    let plain = disk_of(vec![Some(vec![0; 8192])]);
    let t = plain.run(|l, c| parse_mdx_as_data_track(l, c)).unwrap();
    assert_eq!((t.track_offset, t.user_data_offset, t.lba_offset, t.stride), (0x40, 0, 0, 2352));
    assert_eq!(mdx_position(17), Some(0x40 + 17 * 2048));
    assert_eq!(mdx_position(u64::MAX), None);
}

// ── CDI ──

struct CdiSpec {
    pregap: u32,
    length: u32,
    mode: u32,
    lba: u32,
    total: u32,
    code: u32,
}

fn cdi_track_bytes(t: &CdiSpec, v2: bool) -> Vec<u8> {
    let mut d = Vec::new();
    d.extend(0u32.to_le_bytes());
    d.extend(vec![0u8; 24]);
    d.push(3);
    d.extend(b"a.b");
    d.extend(vec![0u8; 19]);
    d.extend(0x8000_0000u32.to_le_bytes());
    d.extend(vec![0u8; 8]);
    d.extend(vec![0u8; 2]);
    d.extend(t.pregap.to_le_bytes());
    d.extend(t.length.to_le_bytes());
    d.extend(vec![0u8; 6]);
    d.extend(t.mode.to_le_bytes());
    d.extend(vec![0u8; 12]);
    d.extend(t.lba.to_le_bytes());
    d.extend(t.total.to_le_bytes());
    d.extend(vec![0u8; 16]);
    d.extend(t.code.to_le_bytes());
    d.extend(vec![0u8; 29]);
    if !v2 {
        d.extend(vec![0u8; 5]);
        d.extend(0xffff_ffffu32.to_le_bytes());
        d.extend(vec![0u8; 78]);
    }
    d
}

fn cdi_descriptor(sessions: &[Vec<CdiSpec>], v2: bool) -> Vec<u8> {
    let mut d = (sessions.len() as u16).to_le_bytes().to_vec();
    for s in sessions {
        d.extend((s.len() as u16).to_le_bytes());
        for t in s {
            d.extend(cdi_track_bytes(t, v2));
        }
        d.extend(vec![0u8; if v2 { 12 } else { 13 }]);
    }
    d
}

fn cdi_image(body: Vec<u8>, desc: Vec<u8>, version: u32) -> Vec<u8> {
    let mut img = body;
    let at = img.len() as u32;
    img.extend(&desc);
    img.extend(version.to_le_bytes());
    if version == 0x8000_0006 {
        img.extend((desc.len() as u32 + 8).to_le_bytes());
    } else {
        img.extend(at.to_le_bytes());
    }
    img
}

fn two_sessions() -> Vec<Vec<CdiSpec>> {
    vec![
        vec![CdiSpec { pregap: 0, length: 2, mode: 0, lba: 0, total: 2, code: 2 }],
        vec![CdiSpec { pregap: 1, length: 20, mode: 2, lba: 11702, total: 21, code: 1 }],
    ]
}

fn cdi_body(pvd: Option<u64>) -> Vec<u8> {
    let mut body = vec![0u8; 2 * 2352 + 21 * 2336];
    if let Some(p) = pvd {
        let at = 2 * 2352 + 2336 + p as usize * 2336 + 8;
        body[at..at + 7].copy_from_slice(b"\x01CD001\x01");
    }
    body
}

#[test]
fn cdi_track_with_a_descriptor() {
    for version in [0x8000_0004u32, 0x8000_0005, 0x8000_0006] {
        let desc = cdi_descriptor(&two_sessions(), version == 0x8000_0004);
        let (tracks, whole) = read_cdi_tracks(&desc, version == 0x8000_0004);
        assert!(whole);
        assert_eq!(tracks.len(), 2);
        assert_eq!((tracks[1].pregap, tracks[1].length, tracks[1].stride), (1, 20, 2336));
        let disk = disk_of(vec![Some(cdi_image(cdi_body(Some(18)), desc, version))]);
        let got = disk.run(|l, c| parse_cdi_for_data_track(l, c)).unwrap().unwrap();
        assert_eq!(got.track_offset, 2 * 2352 + 2336 + 2 * 2336);
        assert_eq!((got.user_data_offset, got.stride, got.lba_offset, got.sector_count), (8, 2336, 11702, 20));
    }
}

#[test]
fn cdi_falls_back_to_the_first_data_track() {
    let desc = cdi_descriptor(&two_sessions(), false);
    let disk = disk_of(vec![Some(cdi_image(cdi_body(None), desc, 0x8000_0006))]);
    let got = disk.run(|l, c| parse_cdi_for_data_track(l, c)).unwrap().unwrap();
    assert_eq!((got.track_offset, got.stride), (2 * 2352 + 2336, 2336));
}

#[test]
fn cdi_broken_tail_matters_only_without_a_descriptor() {
    let mut desc = cdi_descriptor(&two_sessions(), false);
    desc[0] = 3;
    let img = |pvd| cdi_image(cdi_body(pvd), desc.clone(), 0x8000_0005);
    let found = disk_of(vec![Some(img(Some(16)))]);
    assert!(found.run(|l, c| parse_cdi_for_data_track(l, c)).unwrap().is_ok());
    let not = disk_of(vec![Some(img(None))]);
    assert_eq!(not.run(|l, c| parse_cdi_for_data_track(l, c)).unwrap(), Err(DiscError::CdiRead));
}

#[test]
fn cdi_errors() {
    let run = |f: Option<Vec<u8>>| disk_of(vec![f]).run(|l, c| parse_cdi_for_data_track(l, c)).unwrap();
    assert_eq!(run(None), Err(DiscError::CdiOpen));
    assert_eq!(run(Some(vec![0; 7])), Err(DiscError::CdiTooShort));
    assert_eq!(run(Some(vec![0; 8])), Err(DiscError::CdiVersion(0)));
    assert_eq!(run(Some(vec![4, 0, 0, 0x80, 0, 0, 0, 0])), Err(DiscError::CdiZeroOffset));
    assert_eq!(run(Some(cdi_image(vec![0; 9], cdi_descriptor(&[], false), 0x8000_0005))), Err(DiscError::CdiNoDataTrack));
}

// ── CHD ──

#[test]
fn chd_sector_sizes() {
    assert_eq!(chd_stride(0, 2448), 2448);
    assert_eq!(chd_stride(19584, 0), 2448);
    assert_eq!(chd_stride(2352 * 8, 0), 2352);
    assert_eq!(chd_stride(9, 2352), 2352);
    assert_eq!(chd_stride(4096, 0), 2048);
    assert_eq!(chd_stride(0, 0), 2048);
    assert_eq!(chd_stride(19584, 512), 2048);
}

fn chd_head(unit: u64, logical: u64) -> ChdHeader {
    ChdHeader { hunk_size: unit * 8, unit_bytes: unit, logical_bytes: logical }
}

#[test]
fn chd_volume_is_probed_behind_pregaps() {
    let mut stream = vec![0u8; 2448 * 30];
    let at = (4 + 16) * 2448 + 24;
    stream[at..at + 6].copy_from_slice(b"\x01CD001");
    let disk = disk_of(vec![Some(stream)]);
    let got = disk.run(|l, c| open_chd(l, c, chd_head(2448, 0))).unwrap();
    assert_eq!(got, ChdSectorReader { stride: 2448, user_data_offset: 24, track_byte_start: 4 * 2448 });
    assert_eq!(got.read_at(16), Some(at as u64));
    let none = disk_of(vec![Some(vec![0; 2448])]);
    let got = none.run(|l, c| open_chd(l, c, chd_head(2448, 0))).unwrap();
    assert_eq!(got, ChdSectorReader { stride: 2448, user_data_offset: 16, track_byte_start: 0 });
    let got = none.run(|l, c| open_chd(l, c, chd_head(2048, 0))).unwrap();
    assert_eq!(got, ChdSectorReader { stride: 2048, user_data_offset: 0, track_byte_start: 0 });
    assert_eq!(got.read_at(u64::MAX), None);
    let mut threedo = disk_of(vec![Some(vec![])]);
    threedo.probes.push(Probe::ThreeDoDisc);
    let got = threedo.run(|l, c| open_threedo_chd(l, c, chd_head(2352, 0))).unwrap();
    assert_eq!((got.stride, got.user_data_offset, got.track_byte_start), (2352, 16, 0));
}

// ── Formats and sectors ──

#[test]
fn formats_by_name() {
    assert_eq!(image_kind("/a/B.CUE"), ImageKind::Cue);
    assert_eq!(image_kind("x.Mds"), ImageKind::Mds);
    assert_eq!(image_kind("x.nrg"), ImageKind::Nrg);
    assert_eq!(image_kind("x.CCD"), ImageKind::Ccd);
    assert_eq!(image_kind("x.cdi"), ImageKind::Cdi);
    assert_eq!(image_kind("x.gdi"), ImageKind::Gdi);
    assert_eq!(image_kind("x.cHd"), ImageKind::Chd);
    assert_eq!(image_kind("x.mdx"), ImageKind::Mdx);
    assert_eq!(image_kind("cue"), ImageKind::Plain);
    assert_eq!(kind_of_lower("\u{e9}.iso"), ImageKind::Plain);
    assert_eq!(kind_of_lower("X.CUE"), ImageKind::Plain);
}

#[test]
fn sectors_of_a_plain_image() {
    let mut img = vec![0u8; 2048 * 3];
    img[2048] = 9;
    let disk = disk_of(vec![Some(img)]);
    let got = disk.run(|l, c| read_sector(l, c, &Image::Plain, 1)).unwrap().unwrap();
    assert_eq!((got.bytes[0], got.bytes.len(), got.sector_size), (9, 2048, 2048));
    assert_eq!((got.user_data_offset, got.total_sectors, got.lba), (0, 3, 1));
    assert_eq!(
        disk.run(|l, c| read_sector(l, c, &Image::Plain, 3)).unwrap(),
        Err(DiscError::SectorRange { lba: 3, last: 2 })
    );
    let empty = disk_of(vec![Some(vec![0; 2047])]);
    assert_eq!(empty.run(|l, c| read_sector(l, c, &Image::Plain, 0)).unwrap(), Err(DiscError::ImageEmpty));
    let gone = disk_of(vec![None]);
    assert_eq!(gone.run(|l, c| read_sector(l, c, &Image::Plain, 0)).unwrap(), Err(DiscError::ImageStat));
}

#[test]
fn sectors_of_raw_and_track_images() {
    let disk = disk_of(vec![Some(raw_track(0, 2, 4, None))]);
    let got = disk.run(|l, c| read_sector(l, c, &Image::Plain, 3)).unwrap().unwrap();
    assert_eq!((got.sector_size, got.user_data_offset, got.total_sectors), (2352, 24, 4));
    // A sheet is viewed from the start of the file, whatever its track offset.
    let text = "FILE \"a.bin\" BINARY\nTRACK 01 MODE1/2352\nINDEX 01 00:00:02\n";
    let cue = Image::Cue { lines: cue_lines(text), same: vec![0] };
    let got = disk.run(|l, c| read_sector(l, c, &cue, 0)).unwrap().unwrap();
    assert_eq!((got.total_sectors, got.user_data_offset), (4, 16));
    let d = nrg(true, &[0], 2352);
    let image = Image::Nrg(d.clone());
    let disk = disk_of(vec![Some(d.clone())]);
    let got = disk.run(|l, c| read_sector(l, c, &image, 0)).unwrap().unwrap();
    assert_eq!(got.bytes[..], d[2352..4704]);
    let mut img = vec![0u8; 0x40];
    img.extend(vec![5u8; 4096]);
    let disk = disk_of(vec![Some(img)]);
    let got = disk.run(|l, c| read_sector(l, c, &Image::Mdx, 1)).unwrap().unwrap();
    assert_eq!((got.bytes[0], got.total_sectors, got.sector_size), (5, 2, 2048));
}

#[test]
fn sectors_of_a_compressed_image() {
    let disk = disk_of(vec![Some(raw_track(0, 2, 3, None))]);
    let image = Image::Chd(chd_head(2352, 2352 * 3));
    let got = disk.run(|l, c| read_sector(l, c, &image, 2)).unwrap().unwrap();
    assert_eq!((got.sector_size, got.user_data_offset, got.total_sectors), (2352, 24, 3));
    assert_eq!(
        disk.run(|l, c| read_sector(l, c, &image, 7)).unwrap(),
        Err(DiscError::SectorRange { lba: 7, last: 2 })
    );
    let empty = Image::Chd(chd_head(2352, 100));
    assert_eq!(disk.run(|l, c| read_sector(l, c, &empty, 0)).unwrap(), Err(DiscError::ChdEmpty));
    let cut = Image::Chd(chd_head(2352, 2352 * 9));
    assert_eq!(disk.run(|l, c| read_sector(l, c, &cut, 8)).unwrap(), Err(DiscError::Read));
}

#[test]
fn raw_track_has_a_descriptor() {
    let disk = disk_of(vec![Some(raw_track(0, 1, 20, Some(16)))]);
    let text = "FILE \"a.bin\" BINARY\nTRACK 01 MODE1/2352\nINDEX 01 00:00:00\n";
    let image = Image::Cue { lines: cue_lines(text), same: vec![0] };
    let track = disk.run(|l, c| image.data_track(l, c)).unwrap().unwrap();
    assert_eq!(disk.run(|l, c| has_pvd(l, c, &track)), Some(true));
    let other = disk_of(vec![Some(raw_track(0, 1, 20, None))]);
    assert_eq!(other.run(|l, c| has_pvd(l, c, &track)), Some(false));
}

#[test]
fn sectors_of_a_dvd_media_descriptor() {
    let mdf: Vec<u8> = (0..5 * 2048 + 100).map(|i| (i / 7) as u8).collect();
    let disk = disk_of(vec![Some(mdf.clone())]);
    let image = Image::Mds(mds(0x10, &[]));
    for lba in 0..5u64 {
        let d = disk.run(|l, c| read_sector(l, c, &image, lba)).unwrap().unwrap();
        assert_eq!((d.sector_size, d.user_data_offset), (2048, 0));
        assert_eq!((d.total_sectors, d.lba), (5, lba));
        let at = lba as usize * 2048;
        assert_eq!(d.bytes, mdf[at..at + 2048]);
    }
    let beyond = disk.run(|l, c| read_sector(l, c, &image, 5)).unwrap();
    assert_eq!(beyond, Err(DiscError::SectorRange { lba: 5, last: 4 }));
    let cd = Image::Mds(mds(0, &[(0xaa, 1, 0, 0, [0, 2, 0])]));
    let d = disk.run(|l, c| read_sector(l, c, &cd, 1)).unwrap().unwrap();
    assert_eq!((d.sector_size, d.total_sectors), (2352, 4));
    assert_eq!(d.bytes, mdf[2352..2 * 2352]);
}

#[test]
fn positions_beyond_64_bits() {
    let track = DataTrack {
        bin: 0,
        track_offset: u64::MAX - 100,
        user_data_offset: 16,
        stride: 2352,
        lba_offset: 0,
        descramble: false,
        sector_count: 0,
    };
    let spot = Spot { stride: 2352, ..Spot::at(u64::MAX - 100, 16) };
    let missing = disk_of(vec![None]);
    assert_eq!(missing.run(|l, c| has_pvd(l, c, &track)), Some(false));
    let search = |l: &Log, c: &mut usize| cdi_align_to_pvd(l, c, 0, u64::MAX - 100, 2352, 16);
    assert_eq!(missing.run(search), Some(None));
    assert_eq!(missing.run(|l, c| find_iso_volume(l, c, 0, spot, false)), Some(None));
    assert_eq!(missing.run(|l, c| count_joliet(l, c, 0, spot)), Some(0));
    let there = disk_of(vec![Some(vec![0; 100])]);
    assert_eq!(there.run(|l, c| has_pvd(l, c, &track)), None);
    assert_eq!(there.run(search), None);
    assert_eq!(there.run(|l, c| find_iso_volume(l, c, 0, spot, false)), None);
    assert_eq!(there.run(|l, c| count_joliet(l, c, 0, spot)), None);
}
