//! Directory listings, dates, texts and sorting.
use disc_xplorer::bytes::{read_u32_le, read_u64_le};
use disc_xplorer::calendar::{format_stamp, stamp_of, unix_secs_to_string, Stamp};
use disc_xplorer::error::DiscError;
use disc_xplorer::listing::{
    collect_entries, directory_below, dot_name, expect_directory, expect_file, file_below,
    list_host_directory, sort_entries, DiscEntry, Found, HostEntry, IsoItem,
};
use disc_xplorer::sort::stable_order;
use disc_xplorer::text::{
    chars_of, extract_quoted, msf_to_sectors, read_i64, read_u32, read_u64, split_fields,
    split_lines, split_words, string_of, trimmed,
};

#[test]
fn times_to_sectors() {
    assert_eq!(msf_to_sectors("00:02:00"), Some(150));
    assert_eq!(msf_to_sectors("1:2:3"), Some((60 + 2) * 75 + 3));
    assert_eq!(msf_to_sectors("+1:0:0"), Some(4500));
    assert_eq!(msf_to_sectors("00:02"), None);
    assert_eq!(msf_to_sectors("00:02:00:00"), None);
    assert_eq!(msf_to_sectors("a:0:0"), None);
    assert_eq!(msf_to_sectors("::"), None);
}

#[test]
fn quotes() {
    assert_eq!(extract_quoted("FILE \"a b.bin\" BINARY"), Some("a b.bin"));
    assert_eq!(extract_quoted("FILE \"\u{e9}\u{4e2d}\" X \"y\""), Some("\u{e9}\u{4e2d}"));
    assert_eq!(extract_quoted("\"\""), Some(""));
    assert_eq!(extract_quoted("FILE \"a"), None);
    assert_eq!(extract_quoted("FILE a"), None);
}

#[test]
fn little_endian_numbers() {
    let d = [9, 1, 2, 3, 4, 5, 6, 7, 8];
    assert_eq!(read_u32_le(&d, 1), 0x0403_0201);
    assert_eq!(read_u64_le(&d, 1), 0x0807_0605_0403_0201);
}

fn strings(v: Vec<Vec<char>>) -> Vec<String> {
    v.iter().map(|c| string_of(c)).collect()
}

#[test]
fn pieces_of_text() {
    let c = |s: &str| chars_of(s);
    assert_eq!(strings(split_lines(&c("a\r\nb\n\nc"))), vec!["a", "b", "", "c"]);
    assert_eq!(strings(split_lines(&c("a\n"))), vec!["a"]);
    assert_eq!(strings(split_words(&c("  a \t b\u{3000}c "))), vec!["a", "b", "c"]);
    assert_eq!(strings(split_fields(&c("a::b"), ':')), vec!["a", "", "b"]);
    assert_eq!(string_of(&trimmed(&c("\u{a0} x y\t"))), "x y");
    for s in ["", "\n", "a", "a\nb", "a\r", "a\r\n\r\n", " \u{2003}x\u{85}y "] {
        let lines: Vec<String> = s.lines().map(|l| l.to_string()).collect();
        assert_eq!(strings(split_lines(&c(s))), lines, "{s:?}");
        let words: Vec<String> = s.split_whitespace().map(|l| l.to_string()).collect();
        assert_eq!(strings(split_words(&c(s))), words, "{s:?}");
        assert_eq!(string_of(&trimmed(&c(s))), s.trim(), "{s:?}");
    }
}

#[test]
fn numbers_in_text() {
    for s in ["0", "+7", "-7", "", "+", "-", "18446744073709551615", "18446744073709551616", "4294967296", "1 ", "0x1"] {
        let c = chars_of(s);
        assert_eq!(read_u64(&c), s.parse::<u64>().ok(), "{s:?}");
        assert_eq!(read_u32(&c), s.parse::<u32>().ok(), "{s:?}");
        assert_eq!(read_i64(&c, 10), s.parse::<i64>().ok(), "{s:?}");
        assert_eq!(read_i64(&c, 16), i64::from_str_radix(s, 16).ok(), "{s:?}");
    }
    assert_eq!(read_i64(&chars_of("-9223372036854775808"), 10), Some(i64::MIN));
    assert_eq!(read_i64(&chars_of("fF"), 16), Some(255));
}

#[test]
fn dates() {
    assert_eq!(unix_secs_to_string(0), "1970-01-01 00:00:00");
    assert_eq!(unix_secs_to_string(951_782_400), "2000-02-29 00:00:00");
    assert_eq!(unix_secs_to_string(951_868_799), "2000-02-29 23:59:59");
    assert_eq!(unix_secs_to_string(1_700_000_000), "2023-11-14 22:13:20");
    assert_eq!(unix_secs_to_string(4_102_444_800), "2100-01-01 00:00:00");
    assert_eq!(unix_secs_to_string(4_107_542_400), "2100-03-01 00:00:00");
    assert_eq!(
        stamp_of(86_399 + 86_400 * 364),
        Stamp { year: 1970, month: 12, day: 31, hour: 23, minute: 59, second: 59 }
    );
    let t = Stamp { year: 0, month: 1, day: 1, hour: 0, minute: 0, second: 9 };
    assert_eq!(format_stamp(t), "0-01-01 00:00:09");
}

#[test]
fn stable_sort_of_keys() {
    let keys = vec![vec![2], vec![1, 5], vec![1], vec![2], vec![], vec![1, 5]];
    assert_eq!(stable_order(&keys), vec![4, 2, 1, 5, 0, 3]);
    assert_eq!(stable_order(&vec![]), Vec::<usize>::new());
}

fn item(name: &str, is_dir: bool, lba: u32) -> IsoItem {
    IsoItem {
        name: name.to_string(),
        is_dir,
        lba,
        size_bytes: 2048,
        size: 100,
        time: Stamp { year: 1999, month: 3, day: 4, hour: 5, minute: 6, second: 7 },
    }
}

#[test]
fn records_of_a_directory() {
    let items = vec![
        item("\0", true, 1),
        item("\x01", true, 1),
        item("B.TXT", false, 20),
        item(".", true, 1),
        item("..", true, 1),
        item("A", true, 30),
        item("B.TXT", false, 20),
        item("B.TXT", false, 21),
    ];
    let got = collect_entries(&items);
    let names: Vec<(&str, u32)> = got.iter().map(|e| (e.name.as_str(), e.lba)).collect();
    assert_eq!(names, vec![("B.TXT", 20), ("A", 30), ("B.TXT", 21)]);
    assert_eq!((got[0].size, got[0].size_bytes, got[0].is_dir), (100, 2048, false));
    assert_eq!((got[1].size, got[1].size_bytes, got[1].is_dir), (0, 2048, true));
    assert_eq!(got[0].modified, "1999-03-04 05:06:07");
    assert!(dot_name("..") && dot_name("\0") && !dot_name("...") && !dot_name(""));
}

#[test]
fn what_stands_at_a_path() {
    assert_eq!(expect_directory(Found::Directory), Ok(()));
    assert_eq!(expect_directory(Found::File), Err(DiscError::NotADirectory));
    assert_eq!(expect_directory(Found::Nothing), Err(DiscError::DirectoryMissing));
    assert_eq!(expect_file(Found::File), Ok(()));
    assert_eq!(expect_file(Found::Directory), Err(DiscError::NotAFile));
    assert_eq!(expect_file(Found::Nothing), Err(DiscError::FileMissing));
}

#[test]
fn paths_below_a_root() {
    assert_eq!(directory_below("/"), None);
    assert_eq!(directory_below("//a/b/"), Some("a/b/".to_string()));
    assert_eq!(directory_below(""), Some(String::new()));
    assert_eq!(file_below("/a/b"), "a/b");
    assert_eq!(file_below("/"), "");
}

fn host(name: &str, is_dir: bool, len: u64) -> HostEntry {
    HostEntry { name: name.to_string(), is_dir, len, modified: Some(0) }
}

#[test]
fn directory_of_the_host() {
    let mut entries = vec![host("b", false, 5), host("Z", true, 7), host("A", false, 0x1_0000_0002), host("y", true, 0), host("B", false, 6)];
    entries[0].modified = None;
    let got = list_host_directory(&entries);
    let names: Vec<&str> = got.iter().map(|e| e.name.as_str()).collect();
    assert_eq!(names, vec!["y", "Z", "A", "b", "B"]);
    assert_eq!((got[1].size, got[1].size_bytes, got[1].lba), (0, 0, 0));
    assert_eq!((got[2].size, got[2].size_bytes), (2, 2));
    assert_eq!(got[2].modified, "1970-01-01 00:00:00");
    assert_eq!(got[3].modified, "");
}

#[test]
fn entries_sorted_by_given_names() {
    let e = |name: &str, is_dir: bool| DiscEntry {
        name: name.to_string(),
        is_dir,
        lba: 0,
        size: 0,
        size_bytes: 0,
        modified: String::new(),
    };
    let entries = vec![e("1", false), e("2", false), e("3", true)];
    let lower = vec!["b".to_string(), "a\u{e9}".to_string(), "z".to_string()];
    let names: Vec<String> = sort_entries(&entries, &lower).into_iter().map(|e| e.name).collect();
    assert_eq!(names, vec!["3", "2", "1"]);
}

#[test]
fn error_texts() {
    let all = vec![
        (DiscError::CueNoDataTrack, "No data track found in CUE sheet"),
        (DiscError::NrgTooSmall, "File too small for NRG"),
        (DiscError::NrgNotNero, "Not a Nero (.nrg) image"),
        (DiscError::NrgChunkOffset, "Invalid NRG chunk offset"),
        (DiscError::NrgNoDataTrack, "No data track found in NRG"),
        (DiscError::CcdImgMissing, "IMG file not found: D"),
        (DiscError::CcdNoDataTrack, "No data track found in CCD"),
        (DiscError::CdiOpen, "Cannot open CDI: D"),
        (DiscError::CdiTooShort, "CDI file too short"),
        (DiscError::CdiRead, "CDI read: D"),
        (DiscError::CdiVersion(0xab), "Not a CDI image (version 0x000000AB)"),
        (DiscError::CdiZeroOffset, "Bad CDI: zero header offset"),
        (DiscError::CdiNoDataTrack, "No data track found in CDI image"),
        (DiscError::GdiNoCount, "GDI: missing track count"),
        (DiscError::GdiNoDataTrack, "No data track found in GDI image"),
        (DiscError::GdiNoTracks, "No tracks found in GDI"),
        (DiscError::MdsInvalid, "Not a valid MDS file"),
        (DiscError::MdsMdfMissing, "MDF file not found: D"),
        (DiscError::MdsSessionOffset, "Invalid MDS session offset"),
        (DiscError::MdsNoDataTrack, "No data track found in MDS"),
        (DiscError::ChdEmpty, "CHD is empty"),
        (DiscError::ImageStat, "Cannot stat image: D"),
        (DiscError::ImageEmpty, "Image file is empty"),
        (DiscError::SectorRange { lba: 12, last: 9 }, "Sector 12 out of range (0\u{2013}9)"),
        (DiscError::Read, "Read error: D"),
        (DiscError::AudioTrackMissing(7), "Audio track 7 not found"),
        (DiscError::NotADirectory, "D is not a directory"),
        (DiscError::DirectoryMissing, "Directory not found: D"),
        (DiscError::NotAFile, "D is not a file"),
        (DiscError::FileMissing, "File not found: D"),
        (DiscError::WbfsHeaderRead, "WBFS header read: D"),
        (DiscError::WbfsMagic, "Not a WBFS file"),
        (DiscError::WbfsSectorShift(31), "WBFS: unsupported wbfs_sec_sz_s=31 (expected 15\u{2013}30)"),
        (DiscError::WbfsHdSector(8), "WBFS: hd_sec_sz=8 is too small"),
        (DiscError::WbfsTableRead, "WBFS disc_table read: D"),
        (DiscError::WbfsNoDisc, "WBFS: no disc found in file"),
        (DiscError::WbfsChunkRead, "WBFS wlba read: D"),
        (DiscError::WiiNoPartition, "Wii: no data partition found"),
        (DiscError::WiiKeyRead, "Wii title key read: D"),
        (DiscError::WiiTitleRead, "Wii title ID read: D"),
        (DiscError::WiiKeyDecrypt, "Wii: title key decrypt failed"),
        (DiscError::WiiHeaderRead, "Wii part header read: D"),
        (DiscError::WiiClusterRead, "D"),
        (DiscError::WiiDataDecrypt, "data decrypt failed"),
    ];
    for (error, text) in all {
        assert_eq!(error.message("D"), text);
    }
}
