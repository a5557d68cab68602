//! Cue sheets, control files and index files, against files in memory.
use disc_xplorer::ccd::parse_ccd_for_data_track;
use disc_xplorer::cue::{
    cue_files, cue_lines, get_cue_tracks, open_iso_fs_for_cue, parse_cue_all_data_tracks,
    parse_cue_for_data_track,
};
use disc_xplorer::device::{Log, Probe, Query, Reply, Step};
use disc_xplorer::error::DiscError;
use disc_xplorer::gdi::{get_gdi_tracks, parse_gdi_for_data_track, read_gdi_rows};
use disc_xplorer::track::DataTrack;

/// Files in memory, and what the probes of a test find.
struct Disk {
    files: Vec<Option<Vec<u8>>>,
    probes: Vec<(Probe, usize, u64)>,
}

impl Disk {
    fn answer(&self, q: Query) -> Reply {
        match q {
            Query::Size { file } => Reply::Size(self.files[file].as_ref().map(|f| f.len() as u64)),
            Query::Exists { file } => Reply::Flag(self.files[file].is_some()),
            Query::Read { file, offset, len } => {
                let empty = Vec::new();
                let f = self.files[file].as_ref().unwrap_or(&empty);
                let end = offset.saturating_add(len);
                if end <= f.len() as u64 {
                    Reply::Bytes(f[offset as usize..end as usize].to_vec())
                } else {
                    Reply::Bytes(Vec::new())
                }
            }
            Query::Probe { file, probe, spot } => {
                Reply::Flag(self.probes.contains(&(probe, file, spot.track_offset)))
            }
        }
    }

    fn run<T>(&self, f: impl Fn(&Log, &mut usize) -> Step<T>) -> Option<T> {
        let mut log = Log::new();
        let mut asked: Vec<Query> = Vec::new();
        loop {
            let mut cur = 0;
            match f(&log, &mut cur) {
                Step::Ask(q) => {
                    assert!(!asked.contains(&q), "asked twice");
                    asked.push(q);
                    log.answer(q, self.answer(q));
                }
                Step::Done(v) => return Some(v),
                Step::Fault => return None,
            }
        }
    }
}

fn bcd(n: u64) -> u8 {
    ((n / 10) * 16 + n % 10) as u8
}

/// A raw sector with the number `lba`, mode `mode` and the given user data.
fn raw_sector(lba: u64, mode: u8, data: &[u8]) -> Vec<u8> {
    let mut s = vec![0u8; 2352];
    for b in &mut s[1..11] {
        *b = 0xff;
    }
    let abs = lba + 150;
    s[12] = bcd(abs / 75 / 60);
    s[13] = bcd(abs / 75 % 60);
    s[14] = bcd(abs % 75);
    s[15] = mode;
    let at = if mode == 2 { 24 } else { 16 };
    s[at..at + data.len()].copy_from_slice(data);
    s
}

/// `n` raw sectors from number `lba` on; sector `pvd` opens a primary volume
/// descriptor.
fn raw_track(lba: u64, mode: u8, n: u64, pvd: Option<u64>) -> Vec<u8> {
    let mut v = Vec::new();
    for i in 0..n {
        if Some(i) == pvd {
            v.extend(raw_sector(lba + i, mode, b"\x01CD001\x01"));
        } else {
            v.extend(raw_sector(lba + i, mode, b""));
        }
    }
    v
}

const SHEET: &str = "FILE \"game.bin\" BINARY\r\n  TRACK 01 MODE1/2352\r\n    INDEX 01 00:00:00\r\n  TRACK 02 AUDIO\r\n    INDEX 00 00:00:20\r\n    INDEX 01 00:00:22\r\n";

#[test]
fn cue_data_track_is_the_last_one() {
    let disk = Disk { files: vec![Some(raw_track(0, 1, 30, Some(16)))], probes: vec![] };
    let lines = cue_lines(SHEET);
    assert_eq!(cue_files(&lines), vec!["game.bin".to_string()]);
    let got = disk.run(|l, c| parse_cue_for_data_track(l, c, &lines, &vec![0])).unwrap();
    assert_eq!(
        got,
        Ok(DataTrack {
            bin: 0,
            track_offset: 0,
            user_data_offset: 16,
            stride: 2352,
            lba_offset: 0,
            descramble: false,
            sector_count: 30,
        })
    );
}

#[test]
fn cue_tracks_meet_and_reach_the_end() {
    let disk = Disk { files: vec![Some(raw_track(0, 1, 30, None))], probes: vec![] };
    let lines = cue_lines(SHEET);
    let got = disk
        .run(|l, c| get_cue_tracks(l, c, &lines, &vec![0], &vec!["/x/game.bin".to_string()]))
        .unwrap();
    assert_eq!(got.len(), 2);
    assert_eq!((got[0].number, got[0].is_data, got[0].start_lba, got[0].num_sectors), (1, true, 0, 22));
    assert_eq!(got[0].mode, "MODE1/2352");
    assert_eq!((got[1].number, got[1].is_data, got[1].start_lba, got[1].num_sectors), (2, false, 22, 8));
    assert_eq!(got[1].mode, "AUDIO");
    assert_eq!(got[1].session, 1);
    assert_eq!(got[1].bin_path, "/x/game.bin");
}

#[test]
fn cue_pregap_with_cdi_comes_first() {
    let disk = Disk {
        files: vec![Some(raw_track(0, 1, 30, None))],
        probes: vec![(Probe::CdiReadyPregap, 0, 20 * 2352)],
    };
    let lines = cue_lines(SHEET);
    let got = disk
        .run(|l, c| get_cue_tracks(l, c, &lines, &vec![0], &vec!["g".to_string()]))
        .unwrap();
    assert_eq!(got.len(), 3);
    assert_eq!((got[0].number, got[0].is_data, got[0].start_lba, got[0].num_sectors), (0, true, 20, 2));
    assert_eq!(got[0].mode, "CDI/PREGAP");
    assert_eq!(got[1].number, 1);
}

#[test]
fn cue_ready_disc_without_data_track() {
    let text = "file \"a.bin\" binary\ntrack 01 audio\nindex 00 00:00:04\nindex 01 00:00:09\n";
    let lines = cue_lines(text);
    let none = Disk { files: vec![Some(raw_track(0, 1, 12, None))], probes: vec![] };
    let got = none.run(|l, c| parse_cue_for_data_track(l, c, &lines, &vec![0])).unwrap();
    assert_eq!(got, Err(DiscError::CueNoDataTrack));
    let disk = Disk { files: none.files, probes: vec![(Probe::CdiReadyPregap, 0, 4 * 2352)] };
    let got = disk.run(|l, c| parse_cue_for_data_track(l, c, &lines, &vec![0])).unwrap().unwrap();
    assert_eq!((got.track_offset, got.user_data_offset, got.descramble), (4 * 2352, 24, true));
}

const TWO_FILES: &str = "FILE \"one.bin\" BINARY\nTRACK 01 MODE2/2352\nINDEX 01 00:00:00\nFILE \"two.bin\" BINARY\nTRACK 02 MODE2/2352\nINDEX 01 00:00:00\n";

#[test]
fn cue_photo_cd_uses_the_first_file() {
    let lines = cue_lines(TWO_FILES);
    let one = raw_track(0, 2, 20, Some(16));
    let two = raw_track(500, 2, 20, None);
    let disk = Disk { files: vec![Some(one), Some(two)], probes: vec![] };
    let got = disk.run(|l, c| parse_cue_for_data_track(l, c, &lines, &vec![0, 1])).unwrap().unwrap();
    assert_eq!((got.bin, got.user_data_offset, got.lba_offset), (0, 24, 0));
    // The same file under two names is one file: the last track is taken.
    let got = disk.run(|l, c| parse_cue_for_data_track(l, c, &lines, &vec![0, 0])).unwrap().unwrap();
    assert_eq!((got.bin, got.lba_offset), (1, 500));
}

#[test]
fn cue_last_track_with_descriptor_wins() {
    let lines = cue_lines(TWO_FILES);
    let disk = Disk {
        files: vec![Some(raw_track(0, 2, 20, None)), Some(raw_track(500, 2, 20, Some(16)))],
        probes: vec![],
    };
    let got = disk.run(|l, c| parse_cue_for_data_track(l, c, &lines, &vec![0, 1])).unwrap().unwrap();
    assert_eq!(got.bin, 1);
}

#[test]
fn cue_reader_spans_files() {
    let lines = cue_lines(TWO_FILES);
    let disk = Disk {
        files: vec![Some(raw_track(0, 2, 20, Some(16))), Some(raw_track(500, 2, 20, None))],
        probes: vec![],
    };
    let reader = disk.run(|l, c| open_iso_fs_for_cue(l, c, &lines, &vec![0, 1])).unwrap().unwrap();
    assert!(reader.multi_bin);
    assert_eq!(reader.tracks.len(), 2);
    assert_eq!(reader.read_at(16), Some((0, 16 * 2352 + 24)));
    assert_eq!(reader.read_at(505), Some((1, 5 * 2352 + 24)));
    // No track holds sector 300: it is read from the root track.
    assert_eq!(reader.read_at(300), Some((0, 300 * 2352 + 24)));
    let all = disk.run(|l, c| parse_cue_all_data_tracks(l, c, &lines, &vec![0, 1])).unwrap().unwrap();
    assert_eq!(all.len(), 2);
    assert_eq!(all[1].sector_count, 20);
}

#[test]
fn cue_reader_of_one_file_subtracts_its_first_sector() {
    let text = "FILE \"one.bin\" BINARY\nTRACK 01 MODE1/2352\nINDEX 01 00:00:00\n";
    let lines = cue_lines(text);
    let disk = Disk { files: vec![Some(raw_track(100, 1, 20, None))], probes: vec![] };
    let reader = disk.run(|l, c| open_iso_fs_for_cue(l, c, &lines, &vec![0])).unwrap().unwrap();
    assert!(!reader.multi_bin);
    assert_eq!(reader.read_at(116), Some((0, 16 * 2352 + 16)));
    assert_eq!(reader.read_at(117), Some((0, 17 * 2352 + 16)));
    assert_eq!(reader.read_at(16), Some((0, 16 * 2352 + 16)));
    assert_eq!(reader.read_at(u64::MAX), None);
}

#[test]
fn cue_without_tracks() {
    let disk = Disk { files: vec![], probes: vec![] };
    let lines = cue_lines("REM nothing\n");
    assert_eq!(
        disk.run(|l, c| parse_cue_all_data_tracks(l, c, &lines, &vec![])).unwrap(),
        Err(DiscError::CueNoDataTrack)
    );
    let got = disk.run(|l, c| get_cue_tracks(l, c, &lines, &vec![], &vec![])).unwrap();
    assert!(got.is_empty());
}

#[test]
fn cue_sessions_and_missing_file() {
    let text = "REM SESSION 01\nFILE \"a.bin\" BINARY\nTRACK 01 AUDIO\nINDEX 01 00:00:00\nREM SESSION 02\nFILE \"b.bin\" BINARY\nTRACK 02 MODE1/2352\nINDEX 01 00:01:00\n";
    let lines = cue_lines(text);
    let disk = Disk { files: vec![Some(vec![0; 2352 * 5]), None], probes: vec![] };
    let paths = vec!["a".to_string(), "b".to_string()];
    let got = disk.run(|l, c| get_cue_tracks(l, c, &lines, &vec![0, 1], &paths)).unwrap();
    assert_eq!((got[0].session, got[0].num_sectors), (1, 5));
    assert_eq!((got[1].session, got[1].start_lba, got[1].num_sectors), (2, 75, 0));
}

#[test]
fn cue_time_beyond_64_bits_is_a_fault() {
    let text = "FILE \"a.bin\" BINARY\nTRACK 01 MODE1/2352\nINDEX 01 18446744073709551615:00:00\n";
    let lines = cue_lines(text);
    let disk = Disk { files: vec![Some(vec![])], probes: vec![] };
    assert_eq!(disk.run(|l, c| parse_cue_for_data_track(l, c, &lines, &vec![0])), None);
}

const CONTROL: &str = "[CloneCD]\nVersion=3\n[Entry 0]\nPoint=0xa0\nControl=0x04\nPLBA=1\n[ENTRY 1]\npoint = 0x01\nCONTROL=0x00\nplba=0\n[Entry 2]\nPoint=0x02\nControl=0x04\nPLBA=2\n";

#[test]
fn ccd_first_data_entry() {
    let mut img = raw_track(0, 1, 2, None);
    img.extend(raw_track(2, 2, 3, None));
    let disk = Disk { files: vec![Some(img)], probes: vec![] };
    let got = disk.run(|l, c| parse_ccd_for_data_track(l, c, CONTROL)).unwrap().unwrap();
    assert_eq!((got.track_offset, got.user_data_offset, got.lba_offset), (2 * 2352, 24, 2));
}

#[test]
fn ccd_plain_sector_counts_as_mode_1() {
    let disk = Disk { files: vec![Some(vec![0; 2352 * 8])], probes: vec![] };
    let got = disk.run(|l, c| parse_ccd_for_data_track(l, c, CONTROL)).unwrap().unwrap();
    assert_eq!((got.user_data_offset, got.lba_offset), (16, 0));
}

#[test]
fn ccd_errors() {
    let missing = Disk { files: vec![None], probes: vec![] };
    assert_eq!(
        missing.run(|l, c| parse_ccd_for_data_track(l, c, CONTROL)).unwrap(),
        Err(DiscError::CcdImgMissing)
    );
    let disk = Disk { files: vec![Some(vec![0; 100])], probes: vec![] };
    assert_eq!(
        disk.run(|l, c| parse_ccd_for_data_track(l, c, "[Entry 0]\nPoint=1\nControl=0\nPLBA=0\n")).unwrap(),
        Err(DiscError::CcdNoDataTrack)
    );
    assert_eq!(
        disk.run(|l, c| parse_ccd_for_data_track(l, c, "[Entry 0]\nPoint=1\nControl=4\nPLBA=-5\n")).unwrap(),
        Err(DiscError::CcdNoDataTrack)
    );
    assert_eq!(
        disk.run(|l, c| parse_ccd_for_data_track(
            l,
            c,
            "[Entry 0]\nPoint=1\nControl=4\nPLBA=9223372036854775807\n"
        )),
        None
    );
}

const INDEX: &str = "\n3\n1 0 4 2352 track01.bin 0\n2 450 0 2352 track02.raw 0\n3 45000 4 2048 \"track03.iso\" 0\nx 99 4 2352 t.bin 0\n";

#[test]
fn gdi_rows_and_files() {
    let rows = read_gdi_rows(INDEX).unwrap();
    assert_eq!(rows.len(), 4);
    assert_eq!(rows[2].file, "track03.iso");
    assert_eq!((rows[2].number, rows[2].start_lba, rows[2].kind, rows[2].sector_size), (Some(3), 45000, 4, 2048));
    assert_eq!(rows[3].number, None);
    assert_eq!(read_gdi_rows(" \n\n"), Err(DiscError::GdiNoCount));
}

fn cooked(n: u64, pvd: Option<u64>) -> Vec<u8> {
    let mut v = vec![0u8; (n * 2048) as usize];
    if let Some(p) = pvd {
        v[(p * 2048) as usize..(p * 2048) as usize + 7].copy_from_slice(b"\x01CD001\x01");
    }
    v
}

#[test]
fn gdi_prefers_a_descriptor_then_the_outer_track() {
    let rows = read_gdi_rows(INDEX).unwrap();
    let with = |one: Option<u64>, three: Option<u64>| Disk {
        files: vec![
            Some(raw_track(0, 1, 40, one)),
            Some(vec![0; 2352]),
            Some(cooked(200, three)),
            None,
        ],
        probes: vec![],
    };
    let got = with(Some(16), Some(166)).run(|l, c| parse_gdi_for_data_track(l, c, &rows)).unwrap().unwrap();
    assert_eq!((got.bin, got.track_offset, got.stride, got.sector_count), (2, 150 * 2048, 2048, 200));
    let got = with(Some(17), None).run(|l, c| parse_gdi_for_data_track(l, c, &rows)).unwrap().unwrap();
    assert_eq!((got.bin, got.track_offset, got.user_data_offset), (0, 2352, 16));
    let got = with(None, None).run(|l, c| parse_gdi_for_data_track(l, c, &rows)).unwrap().unwrap();
    assert_eq!((got.bin, got.track_offset, got.lba_offset), (2, 0, 45000));
}

#[test]
fn gdi_without_data_track() {
    let rows = read_gdi_rows("1\n1 0 0 2352 a.raw 0\n").unwrap();
    let disk = Disk { files: vec![Some(vec![])], probes: vec![] };
    assert_eq!(
        disk.run(|l, c| parse_gdi_for_data_track(l, c, &rows)).unwrap(),
        Err(DiscError::GdiNoDataTrack)
    );
}

#[test]
fn gdi_track_list() {
    let rows = read_gdi_rows(INDEX).unwrap();
    let disk = Disk {
        files: vec![Some(raw_track(0, 2, 4, None)), Some(vec![0; 2352 * 3]), Some(cooked(7, None)), None],
        probes: vec![],
    };
    let paths: Vec<String> = ["a", "b", "c", "d"].iter().map(|s| s.to_string()).collect();
    let got = disk.run(|l, c| get_gdi_tracks(l, c, &rows, &paths)).unwrap().unwrap();
    assert_eq!(got.len(), 3);
    assert_eq!((got[0].mode.as_str(), got[0].num_sectors, got[0].session), ("MODE2/2352", 4, 1));
    assert_eq!((got[1].mode.as_str(), got[1].is_data, got[1].num_sectors), ("AUDIO", false, 3));
    assert_eq!((got[2].mode.as_str(), got[2].session, got[2].start_lba), ("MODE1/2048", 2, 0));
    assert_eq!(got[2].bin_path, "c");
    let none = read_gdi_rows("1\n").unwrap();
    assert_eq!(
        disk.run(|l, c| get_gdi_tracks(l, c, &none, &vec![])).unwrap(),
        Err(DiscError::GdiNoTracks)
    );
}

#[test]
fn gdi_sector_size_zero_is_a_fault() {
    let rows = read_gdi_rows("1\n1 0 4 0 a.bin 0\n").unwrap();
    let disk = Disk { files: vec![Some(vec![0; 64])], probes: vec![] };
    assert_eq!(disk.run(|l, c| parse_gdi_for_data_track(l, c, &rows)), None);
}

#[test]
fn cue_data_track_is_the_first_or_the_last_of_all() {
    let text = "FILE \"a.bin\" BINARY\n  TRACK 01 MODE1/2352\n    INDEX 01 00:00:00\nREM X\n\
                FILE \"b.bin\" BINARY\n  TRACK 02 MODE2/2352\n    INDEX 00 00:00:00\n    \
                INDEX 01 00:00:02\nFILE \"c.bin\" BINARY\n  TRACK 03 AUDIO\n    INDEX 01 00:00:00\n";
    for (last_has, expected) in [(None, 0), (Some(18), 1)] {
        let disk = Disk {
            files: vec![
                Some(raw_track(0, 1, 20, Some(16))),
                Some(raw_track(20, 2, 30, last_has)),
                Some(vec![0; 2352]),
            ],
            probes: vec![],
        };
        let lines = cue_lines(text);
        let same = vec![0, 1, 2];
        let all = disk.run(|l, c| parse_cue_all_data_tracks(l, c, &lines, &same)).unwrap().unwrap();
        assert_eq!(all.len(), 2);
        let one = disk.run(|l, c| parse_cue_for_data_track(l, c, &lines, &same)).unwrap().unwrap();
        assert_eq!(one, all[expected]);
    }
}
