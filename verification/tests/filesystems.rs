//! The filesystems of a disc, and where a request is served from.
use disc_xplorer::chd::ChdHeader;
use disc_xplorer::cue::cue_lines;
use disc_xplorer::detect::{
    detect_filesystems_chd, detect_filesystems_in_bin, detect_filesystems_mdx,
    detect_filesystems_raw, gcm_kind_label,
};
use disc_xplorer::device::{DiscKind, Log, Probe, Query, Reply, Step};
use disc_xplorer::error::DiscError;
use disc_xplorer::image::{
    choose_source, fs_matches, fs_matches_gcm, fs_matches_udf, get_disc_filesystems, Filesystem,
    Image, Source,
};

/// Files in memory, and what the probes of a test find.
struct Disk {
    files: Vec<Option<Vec<u8>>>,
    probes: Vec<Probe>,
    gcm: Option<DiscKind>,
    udf: Option<String>,
}

fn disk_of(files: Vec<Option<Vec<u8>>>) -> Disk {
    Disk { files, probes: vec![], gcm: None, udf: None }
}

impl Disk {
    fn answer(&self, q: Query) -> Reply {
        match q {
            Query::Size { file } => Reply::Size(self.files[file].as_ref().map(|f| f.len() as u64)),
            Query::Exists { file } => Reply::Flag(self.files[file].is_some()),
            Query::Read { file, offset, len } => {
                let empty = Vec::new();
                let f = self.files[file].as_ref().unwrap_or(&empty);
                let end = offset.saturating_add(len);
                if end <= f.len() as u64 {
                    Reply::Bytes(f[offset as usize..end as usize].to_vec())
                } else {
                    Reply::Bytes(Vec::new())
                }
            }
            Query::Probe { probe: Probe::GcmDisc, .. } => Reply::Disc(self.gcm),
            Query::Probe { probe: Probe::UdfVersion, .. } => Reply::Label(self.udf.clone()),
            Query::Probe { probe, .. } => Reply::Flag(self.probes.contains(&probe)),
        }
    }

    fn run<T>(&self, f: impl Fn(&Log, &mut usize) -> Step<T>) -> Option<T> {
        let mut log = Log::new();
        let mut asked: Vec<Query> = Vec::new();
        loop {
            let mut cur = 0;
            match f(&log, &mut cur) {
                Step::Ask(q) => {
                    assert!(!asked.contains(&q), "asked twice");
                    asked.push(q);
                    log.answer(q, self.answer(q));
                }
                Step::Done(v) => return Some(v),
                Step::Fault => return None,
            }
        }
    }
}

fn bcd(n: u64) -> u8 {
    ((n / 10) * 16 + n % 10) as u8
}

/// A raw sector with the number `lba`, mode `mode` and the given user data.
fn raw_sector(lba: u64, mode: u8, data: &[u8]) -> Vec<u8> {
    let mut s = vec![0u8; 2352];
    for b in &mut s[1..11] {
        *b = 0xff;
    }
    let abs = lba + 150;
    s[12] = bcd(abs / 75 / 60);
    s[13] = bcd(abs / 75 % 60);
    s[14] = bcd(abs % 75);
    s[15] = mode;
    let at = if mode == 2 { 24 } else { 16 };
    s[at..at + data.len()].copy_from_slice(data);
    s
}

/// `n` raw sectors from number `lba` on; sector `pvd` opens a primary volume
/// descriptor.
fn raw_track(lba: u64, mode: u8, n: u64, pvd: Option<u64>) -> Vec<u8> {
    let mut v = Vec::new();
    for i in 0..n {
        if Some(i) == pvd {
            v.extend(raw_sector(lba + i, mode, b"\x01CD001\x01"));
        } else {
            v.extend(raw_sector(lba + i, mode, b""));
        }
    }
    v
}

/// `n` plain sectors with a volume descriptor at 16 and Joliet descriptors
/// behind it.
fn iso(n: usize, joliet: usize) -> Vec<u8> {
    let mut v = vec![0u8; n * 2048];
    v[16 * 2048..16 * 2048 + 7].copy_from_slice(b"\x01CD001\x01");
    for k in 0..joliet {
        let at = (17 + k) * 2048;
        v[at] = 2;
        v[at + 88..at + 91].copy_from_slice([b"%/@", b"%/C", b"%/E"][k % 3]);
    }
    let end = (17 + joliet) * 2048;
    v[end] = 0xff;
    // Behind the end of the descriptors nothing counts.
    v[end + 2048] = 2;
    v[end + 2048 + 88..end + 2048 + 91].copy_from_slice(b"%/E");
    v
}

fn names(disk: &Disk) -> Vec<String> {
    disk.run(|l, c| detect_filesystems_raw(l, c)).unwrap()
}

#[test]
fn plain_image_with_joliet() {
    assert_eq!(names(&disk_of(vec![Some(iso(40, 0))])), vec!["ISO 9660"]);
    assert_eq!(names(&disk_of(vec![Some(iso(40, 2))])), vec!["ISO 9660", "Joliet", "Joliet"]);
    assert_eq!(names(&disk_of(vec![Some(vec![])])), vec!["ISO 9660"]);
}

#[test]
fn discs_with_one_filesystem() {
    let with = |p: Probe| Disk { files: vec![Some(iso(40, 1))], probes: vec![p], gcm: None, udf: None };
    assert_eq!(names(&with(Probe::PceDisc)), vec!["PC Engine CD-ROM"]);
    assert_eq!(names(&with(Probe::ThreeDoDisc)), vec!["3DO OperaFS"]);
    assert_eq!(names(&with(Probe::XdvdfsDisc)), vec!["XDVDFS", "ISO 9660", "Joliet"]);
    assert_eq!(names(&with(Probe::HfsDisc)), vec!["HFS", "ISO 9660", "Joliet"]);
    assert_eq!(names(&with(Probe::UdfDisc)), vec!["UDF"]);
    let mut udf = with(Probe::UdfDisc);
    udf.udf = Some("UDF 2.50".to_string());
    udf.probes.push(Probe::HfsDisc);
    assert_eq!(names(&udf), vec!["HFS", "UDF 2.50"]);
    let mut gcm = disk_of(vec![Some(iso(40, 0))]);
    gcm.gcm = Some(DiscKind::Wii);
    assert_eq!(names(&gcm), vec!["Wii GCM"]);
    assert_eq!(gcm_kind_label(DiscKind::GameCube), "GameCube GCM");
}

#[test]
fn hfs_alone_is_no_iso() {
    let disk = Disk { files: vec![Some(vec![0; 2048 * 40])], probes: vec![Probe::HfsDisc], gcm: None, udf: None };
    assert_eq!(names(&disk), vec!["HFS"]);
}

#[test]
fn raw_track_filesystems() {
    let img = raw_track(0, 1, 40, Some(16));
    let mut disk = disk_of(vec![Some(img)]);
    let run = |d: &Disk| d.run(|l, c| detect_filesystems_in_bin(l, c, 0, 0, 16, 0, false)).unwrap();
    assert_eq!(run(&disk), vec!["ISO 9660"]);
    // Raw sectors are never asked for GCM or Xbox volumes.
    disk.gcm = Some(DiscKind::Wii);
    disk.probes.push(Probe::XdvdfsDisc);
    assert_eq!(run(&disk), vec!["ISO 9660"]);
    disk.probes.push(Probe::CdiDisc);
    assert_eq!(run(&disk), vec!["CD-i"]);
    let far = disk_of(vec![Some(vec![])]);
    assert_eq!(far.run(|l, c| detect_filesystems_in_bin(l, c, 0, u64::MAX, 16, 0, false)), None);
}

#[test]
fn descriptors_behind_the_first_sector_of_a_session() {
    // Sector 16 of the track is sector 116 of the disc: numbers below the
    // first one are taken as they are.
    let disk = disk_of(vec![Some(raw_track(100, 1, 40, Some(16)))]);
    let got = disk.run(|l, c| detect_filesystems_in_bin(l, c, 0, 0, 16, 100, false)).unwrap();
    assert_eq!(got, vec!["ISO 9660"]);
}

#[test]
fn mdx_filesystems() {
    let mut img = vec![0u8; 0x40];
    img.extend(iso(40, 1));
    let disk = disk_of(vec![Some(img)]);
    assert_eq!(disk.run(|l, c| detect_filesystems_mdx(l, c)).unwrap(), vec!["ISO 9660", "Joliet"]);
    let mut raw = vec![0u8; 0x40];
    raw.extend(raw_track(0, 2, 20, None));
    let mut disk = disk_of(vec![Some(raw)]);
    disk.probes.push(Probe::CdiDisc);
    assert_eq!(disk.run(|l, c| detect_filesystems_mdx(l, c)).unwrap(), vec!["CD-i"]);
}

#[test]
fn chd_filesystems() {
    let raw = ChdHeader { hunk_size: 2352 * 8, unit_bytes: 2352, logical_bytes: 0 };
    let plain = ChdHeader { hunk_size: 4096, unit_bytes: 2048, logical_bytes: 0 };
    let run = |d: &Disk, h: Option<ChdHeader>| d.run(|l, c| detect_filesystems_chd(l, c, h)).unwrap();
    let mut stream = vec![0u8; 4 * 2352];
    for i in 0..30u64 {
        let mut s = raw_sector(i, 1, if i == 16 { b"\x01CD001\x01" } else { b"" });
        if i == 17 {
            s[16] = 2;
            s[16 + 88..16 + 91].copy_from_slice(b"%/E");
        }
        stream.extend(s);
    }
    let disk = disk_of(vec![Some(stream)]);
    assert_eq!(run(&disk, Some(raw)), vec!["ISO 9660", "Joliet"]);
    assert_eq!(run(&disk_of(vec![Some(vec![])]), Some(raw)), vec!["3DO OperaFS"]);
    assert_eq!(run(&disk_of(vec![Some(vec![])]), Some(plain)), vec!["ISO 9660"]);
    assert_eq!(run(&disk_of(vec![Some(iso(40, 1))]), Some(plain)), vec!["ISO 9660", "Joliet"]);
    assert_eq!(run(&disk_of(vec![]), None), vec!["ISO 9660"]);
    let mut d = disk_of(vec![Some(vec![])]);
    d.probes.push(Probe::ThreeDoDisc);
    assert_eq!(run(&d, Some(raw)), vec!["3DO OperaFS"]);
    d.gcm = Some(DiscKind::GameCube);
    assert_eq!(run(&d, Some(plain)), vec!["GameCube GCM"]);
    d.probes.push(Probe::XdvdfsDisc);
    assert_eq!(run(&d, Some(plain)), vec!["XDVDFS"]);
}

fn sheet() -> Image {
    let text = "FILE \"a.bin\" BINARY\nTRACK 01 MODE1/2352\nINDEX 01 00:00:00\n";
    Image::Cue { lines: cue_lines(text), same: vec![0] }
}

#[test]
fn filesystems_of_images() {
    let disk = disk_of(vec![Some(raw_track(0, 1, 40, Some(16)))]);
    let got = disk.run(|l, c| get_disc_filesystems(l, c, &sheet())).unwrap();
    assert_eq!(got, Ok(vec!["ISO 9660".to_string()]));
    let bad = Image::Nrg(vec![0; 4]);
    assert_eq!(disk.run(|l, c| get_disc_filesystems(l, c, &bad)).unwrap(), Err(DiscError::NrgTooSmall));
}

#[test]
fn requests_match_names() {
    let udf = Some("UDF 1.02".to_string());
    let hfs = Some("HFS".to_string());
    assert!(fs_matches(&None, "HFS") && fs_matches(&hfs, "HFS") && !fs_matches(&udf, "HFS"));
    assert!(fs_matches_udf(&None) && fs_matches_udf(&udf) && !fs_matches_udf(&hfs));
    assert!(fs_matches_gcm(&None) && fs_matches_gcm(&Some("Wii GCM".to_string())) && !fs_matches_gcm(&hfs));
}

#[test]
fn requests_on_a_track() {
    let files = vec![Some(raw_track(0, 1, 40, Some(16)))];
    let image = sheet();
    let run = |d: &Disk, r: Option<&str>| {
        let r = r.map(|s| s.to_string());
        d.run(|l, c| choose_source(l, c, &image, &r)).unwrap().unwrap()
    };
    let fs = |s: Source| match s {
        Source::Track { fs, .. } => Some(fs),
        _ => None,
    };
    let mut disk = disk_of(files);
    assert_eq!(run(&disk, None), Source::Sheet);
    disk.probes.push(Probe::UdfDisc);
    assert_eq!(fs(run(&disk, None)), Some(Filesystem::Udf));
    disk.probes.push(Probe::HfsDisc);
    assert_eq!(fs(run(&disk, None)), Some(Filesystem::Hfs));
    assert_eq!(fs(run(&disk, Some("UDF 2.01"))), Some(Filesystem::Udf));
    assert_eq!(run(&disk, Some("ISO 9660")), Source::Sheet);
    disk.probes.push(Probe::CdiDisc);
    assert_eq!(fs(run(&disk, Some("ISO 9660"))), Some(Filesystem::Cdi));
}

#[test]
fn requests_on_a_plain_image() {
    let run = |d: &Disk, r: Option<&str>| {
        let r = r.map(|s| s.to_string());
        d.run(|l, c| choose_source(l, c, &Image::Plain, &r)).unwrap().unwrap()
    };
    let mut disk = disk_of(vec![Some(iso(40, 0))]);
    assert_eq!(run(&disk, None), Source::Plain);
    disk.probes = vec![Probe::UdfDisc, Probe::HfsDisc];
    // A UDF volume that cannot be opened is passed over.
    match run(&disk, None) {
        Source::Track { fs, track } => assert_eq!((fs, track.user_data_offset), (Filesystem::Hfs, 0)),
        other => panic!("{other:?}"),
    }
    disk.udf = Some("UDF 1.50".to_string());
    assert!(matches!(run(&disk, None), Source::Track { fs: Filesystem::Udf, .. }));
    let raw = disk_of(vec![Some(raw_track(0, 2, 20, None))]);
    match run(&raw, None) {
        Source::Track { fs, track } => assert_eq!((fs, track.user_data_offset, track.stride), (Filesystem::Iso, 24, 2352)),
        other => panic!("{other:?}"),
    }
}

#[test]
fn requests_on_streams_and_descriptors() {
    let chd = Image::Chd(ChdHeader { hunk_size: 0, unit_bytes: 2048, logical_bytes: 0 });
    let disk = disk_of(vec![Some(vec![0; 9000])]);
    let run = |i: &Image, r: Option<&str>| {
        let r = r.map(|s| s.to_string());
        disk.run(|l, c| choose_source(l, c, i, &r)).unwrap().unwrap()
    };
    assert_eq!(run(&chd, None), Source::Stream(Filesystem::Iso));
    assert_eq!(run(&chd, Some("3DO OperaFS")), Source::Stream(Filesystem::ThreeDo));
    assert_eq!(run(&chd, Some("XDVDFS")), Source::Stream(Filesystem::Xdvdfs));
    assert_eq!(run(&chd, Some("Wii GCM")), Source::Stream(Filesystem::Gcm));
    assert_eq!(run(&Image::Mdx, None), Source::Mdx);
}
