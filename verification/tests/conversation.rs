//! The questions that the library asks, and its results.
use disc_xplorer::cue::{cue_lines, CueLine};
use disc_xplorer::device::{Log, Probe, Query, Reply, Spot, Step};
use disc_xplorer::image::{choose_source, get_disc_filesystems, Filesystem, Image, Source};

/// A raw sheet image of 40 sectors whose sector 16 is a volume descriptor.
fn disc() -> Vec<u8> {
    let mut d = vec![0u8; 40 * 2352];
    for n in 0..40usize {
        d[n * 2352 + 1..n * 2352 + 11].fill(0xff);
        d[n * 2352 + 12..n * 2352 + 16].copy_from_slice(&[0, 2, n as u8, 1]);
    }
    let pvd = 16 * 2352 + 16;
    d[pvd] = 1;
    d[pvd + 1..pvd + 6].copy_from_slice(b"CD001");
    d
}

fn answer(d: &[u8], q: Query) -> Reply {
    match q {
        Query::Size { .. } => Reply::Size(Some(d.len() as u64)),
        Query::Exists { .. } => Reply::Flag(true),
        Query::Read { offset, len, .. } => {
            let end = offset.saturating_add(len).min(d.len() as u64);
            Reply::Bytes(d[offset.min(end) as usize..end as usize].to_vec())
        }
        Query::Probe { .. } => Reply::Flag(false),
    }
}

fn sheet() -> Image {
    let lines: Vec<CueLine> =
        cue_lines("FILE \"a.bin\" BINARY\n  TRACK 01 MODE1/2352\n    INDEX 01 00:00:00\n");
    Image::Cue { lines, same: vec![0] }
}

#[test]
fn nothing_is_asked_twice() {
    let d = disc();
    let image = sheet();
    let mut log = Log::new();
    let mut asked: Vec<Query> = Vec::new();
    loop {
        let mut cur = 0;
        match get_disc_filesystems(&log, &mut cur, &image) {
            Step::Ask(q) => {
                assert!(!asked.contains(&q), "{q:?}");
                asked.push(q);
                log.answer(q, answer(&d, q));
            }
            Step::Done(names) => {
                assert_eq!(names.unwrap(), vec!["ISO 9660"]);
                break;
            }
            Step::Fault => panic!("fault"),
        }
    }
    assert!(asked.contains(&Query::Read { file: 0, offset: 0, len: 15 }));
}

#[test]
fn results_stay() {
    let d = disc();
    let image = sheet();
    let mut log = Log::new();
    let first = loop {
        let mut cur = 0;
        match choose_source(&log, &mut cur, &image, &None) {
            Step::Ask(q) => log.answer(q, answer(&d, q)),
            Step::Done(source) => break source,
            Step::Fault => panic!("fault"),
        }
    };
    assert_eq!(first, Ok(Source::Sheet));
    // Answers to other questions, and second answers, change nothing.
    for file in 0..3 {
        log.answer(Query::Exists { file }, Reply::Flag(true));
        log.answer(Query::Size { file }, Reply::Size(None));
        let spot = Spot::at(0, 16);
        log.answer(Query::Probe { file, probe: Probe::HfsDisc, spot }, Reply::Flag(true));
    }
    let mut cur = 0;
    assert_eq!(choose_source(&log, &mut cur, &image, &None), Step::Done(first));
}

#[test]
fn a_first_answer_counts() {
    let image = Image::Plain;
    let mut log = Log::new();
    let hfs = Query::Probe { file: 0, probe: Probe::HfsDisc, spot: Spot::at(0, 0) };
    log.answer(hfs, Reply::Flag(true));
    log.answer(hfs, Reply::Flag(false));
    let source = loop {
        let mut cur = 7;
        match choose_source(&log, &mut cur, &image, &None) {
            Step::Ask(q) => log.answer(q, answer(&[], q)),
            Step::Done(source) => break source,
            Step::Fault => panic!("fault"),
        }
    };
    assert!(matches!(source, Ok(Source::Track { fs: Filesystem::Hfs, .. })));
}

#[test]
fn named_filesystems_are_served() {
    let d = disc();
    let image = sheet();
    let mut log = Log::new();
    let hybrid = |q: Query| match q {
        Query::Probe { probe: Probe::HfsDisc, .. } => Reply::Flag(true),
        _ => answer(&d, q),
    };
    let names = loop {
        let mut cur = 0;
        match get_disc_filesystems(&log, &mut cur, &image) {
            Step::Ask(q) => log.answer(q, hybrid(q)),
            Step::Done(names) => break names.unwrap(),
            Step::Fault => panic!("fault"),
        }
    };
    assert_eq!(names, vec!["HFS", "ISO 9660"]);
    let mut cur = 0;
    let source = choose_source(&log, &mut cur, &image, &Some(names[0].clone()));
    assert!(matches!(source, Step::Done(Ok(Source::Track { fs: Filesystem::Hfs, .. }))));
    let source = choose_source(&log, &mut cur, &image, &Some(names[1].clone()));
    assert_eq!(source, Step::Done(Ok(Source::Sheet)));
}
