//! CloneCD control files (`.ccd`), which describe the raw sectors of an `.img`
//! file. The `.img` file is file 0.
use crate::device::{Log, Query, Step};
use crate::error::DiscError;
use crate::sector;
use crate::text;
use crate::track::DataTrack;
use vstd::prelude::*;

verus! {

/// A track of the table of contents.
#[derive(Clone, Copy, PartialEq, Eq, Structural, Debug)]
pub struct CcdEntry {
    pub control: u32,
    pub plba: i64,
}

/// What has been read of one section.
#[derive(Clone, Copy, PartialEq, Eq, Structural, Debug)]
pub struct CcdState {
    /// The section is an entry of the table of contents.
    pub inside: bool,
    pub point: Option<i32>,
    pub control: Option<u32>,
    pub plba: Option<i64>,
}

/// A number: hexadecimal after `0x`, else decimal; 0 where it is none.
pub open spec fn ccd_int(s: Seq<char>) -> i64 {
    let t = text::trim(s);
    if text::starts_with(t, "0x"@) || text::starts_with(t, "0X"@) {
        match text::parse_signed(t.skip(2), 16) {
            Some(v) => v as i64,
            None => 0,
        }
    } else {
        ccd_decimal(t)
    }
}

/// A decimal number; 0 where it is none.
pub open spec fn ccd_decimal(s: Seq<char>) -> i64 {
    match text::parse_signed(s, 10) {
        Some(v) => v as i64,
        None => 0,
    }
}

/// The start of a section.
pub open spec fn ccd_fresh(inside: bool) -> CcdState {
    CcdState { inside, point: None, control: None, plba: None }
}

/// The track that a section describes: one with a point from 1 to 99, where
/// point, control and first sector are given.
pub open spec fn ccd_flush(st: CcdState) -> Seq<CcdEntry> {
    match (st.point, st.control, st.plba) {
        (Some(point), Some(control), Some(plba)) => if st.inside && 1 <= point <= 99 {
            seq![CcdEntry { control, plba }]
        } else {
            Seq::empty()
        },
        _ => Seq::empty(),
    }
}

/// What a line `key=value` changes. Keys are told apart without regard to
/// letter case; a key that comes again replaces the earlier value.
pub open spec fn ccd_set(st: CcdState, t: Seq<char>) -> CcdState {
    let eq = text::next(t, '=', 0);
    let key = text::ascii_lower(text::trim(t.subrange(0, eq)));
    let val = t.skip(eq + 1);
    if eq >= t.len() {
        st
    } else if key == "point"@ {
        CcdState { point: Some(ccd_int(val) as i32), ..st }
    } else if key == "control"@ {
        CcdState { control: Some(ccd_int(val) as u32), ..st }
    } else if key == "plba"@ {
        CcdState { plba: Some(ccd_decimal(text::trim(val))), ..st }
    } else {
        st
    }
}

/// The tracks of the lines from `i` on, after `st`.
pub open spec fn ccd_entries(lines: Seq<Seq<char>>, i: int, st: CcdState) -> Seq<CcdEntry>
    decreases lines.len() - i,
{
    if i < 0 || i >= lines.len() {
        ccd_flush(st)
    } else {
        let t = text::trim(lines[i]);
        if t.len() > 0 && t[0] == '[' {
            ccd_flush(st) + ccd_entries(
                lines,
                i + 1,
                ccd_fresh(text::starts_with(text::ascii_lower(t), "[entry"@)),
            )
        } else if !st.inside {
            ccd_entries(lines, i + 1, st)
        } else {
            ccd_entries(lines, i + 1, ccd_set(st, t))
        }
    }
}

/// The first sector of the first data track from entry `i` on. Bit 2 of the
/// control field marks data; a negative first sector is passed over.
pub open spec fn ccd_data(entries: Seq<CcdEntry>, i: int) -> Option<i64>
    decreases entries.len() - i,
{
    if i < 0 || i >= entries.len() {
        None
    } else if (entries[i].control & 4u32) != 0 && entries[i].plba >= 0 {
        Some(entries[i].plba)
    } else {
        ccd_data(entries, i + 1)
    }
}

/// The data track at `offset`. The sectors of an `.img` file are always raw,
/// so a first sector that is none is taken to be in mode 1.
pub open spec fn ccd_track(offset: u64, udo: u64, lba: u64) -> DataTrack {
    DataTrack {
        bin: 0,
        track_offset: offset,
        user_data_offset: if udo == 0 {
            16
        } else {
            udo
        },
        stride: sector::RAW_SECTOR_SIZE,
        lba_offset: lba,
        descramble: false,
        sector_count: 0,
    }
}

/// The data track of a control file with the text `s`.
pub open spec fn ccd_image(log: Log, s: Seq<char>) -> Step<Result<DataTrack, DiscError>> {
    let q = Query::Exists { file: 0 };
    match log.known(q) {
        None => Step::Ask(q),
        Some(there) => if !there.flag() {
            Step::Done(Err(DiscError::CcdImgMissing))
        } else {
            match ccd_data(ccd_entries(text::lines(s), 0, ccd_fresh(false)), 0) {
                None => Step::Done(Err(DiscError::CcdNoDataTrack)),
                Some(plba) => {
                    let offset = plba * sector::RAW_SECTOR_SIZE;
                    if offset > u64::MAX {
                        Step::Fault
                    } else {
                        match sector::format_at(log, 0, offset as u64) {
                            Step::Ask(q) => Step::Ask(q),
                            Step::Fault => Step::Fault,
                            Step::Done(f) => match sector::lba_at(log, 0, offset as u64) {
                                Step::Ask(q) => Step::Ask(q),
                                Step::Fault => Step::Fault,
                                Step::Done(lba) => Step::Done(
                                    Ok(ccd_track(offset as u64, f.1, lba)),
                                ),
                            },
                        }
                    }
                },
            }
        },
    }
}

fn read_decimal(s: &[char]) -> (r: i64)
    ensures
        r == ccd_decimal(s@),
{
    match text::read_i64(s, 10) {
        Some(v) => v,
        None => 0,
    }
}

fn parse_int_ccd(s: &[char]) -> (r: i64)
    ensures
        r == ccd_int(s@),
{
    let t = text::trimmed(s);
    if text::begins(t.as_slice(), "0x") || text::begins(t.as_slice(), "0X") {
        proof {
            reveal_strlit("0x");
            reveal_strlit("0X");
        }
        let h = text::part(t.as_slice(), 2, t.len());
        assert(h@ =~= t@.skip(2));
        match text::read_i64(h.as_slice(), 16) {
            Some(v) => v,
            None => 0,
        }
    } else {
        read_decimal(t.as_slice())
    }
}

fn flush(st: CcdState, out: &mut Vec<CcdEntry>)
    ensures
        final(out)@ == old(out)@ + ccd_flush(st),
{
    match (st.point, st.control, st.plba) {
        (Some(point), Some(control), Some(plba)) => {
            if st.inside && 1 <= point && point <= 99 {
                out.push(CcdEntry { control, plba });
            }
        },
        _ => {},
    }
    assert(out@ =~= old(out)@ + ccd_flush(st));
}

fn set(st: CcdState, t: &[char]) -> (r: CcdState)
    ensures
        r == ccd_set(st, t@),
{
    let eq: usize = text::find_from(t, '=', 0);
    if eq >= t.len() {
        return st;
    }
    let name = text::part(t, 0, eq);
    let key = text::lower_ascii(text::trimmed(name.as_slice()).as_slice());
    let val = text::part(t, eq + 1, t.len());
    assert(val@ =~= t@.skip(eq + 1));
    if text::same(key.as_slice(), "point") {
        let v: i64 = parse_int_ccd(val.as_slice());
        CcdState { point: Some(#[verifier::truncate] (v as i32)), ..st }
    } else if text::same(key.as_slice(), "control") {
        let v: i64 = parse_int_ccd(val.as_slice());
        CcdState { control: Some(#[verifier::truncate] (v as u32)), ..st }
    } else if text::same(key.as_slice(), "plba") {
        CcdState { plba: Some(read_decimal(text::trimmed(val.as_slice()).as_slice())), ..st }
    } else {
        st
    }
}

fn read_entries(s: &str) -> (out: Vec<CcdEntry>)
    ensures
        out@ == ccd_entries(text::lines(s@), 0, ccd_fresh(false)),
{
    let chars = text::chars_of(s);
    let lines = text::split_lines(chars.as_slice());
    let ghost ls = text::lines(s@);
    let ghost whole = ccd_entries(ls, 0, ccd_fresh(false));
    let mut out: Vec<CcdEntry> = Vec::new();
    let mut st = CcdState { inside: false, point: None, control: None, plba: None };
    let mut i: usize = 0;
    assert(out@ + whole =~= whole);
    assert(ls.len() == lines@.len());
    while i < lines.len()
        invariant
            i <= lines@.len(),
            ls == text::views(lines@),
            ls.len() == lines@.len(),
            whole == out@ + ccd_entries(ls, i as int, st),
        decreases lines@.len() - i,
    {
        assert(ls[i as int] == lines@[i as int]@);
        let t = text::trimmed(lines[i].as_slice());
        if t.len() > 0 && t[0] == '[' {
            let ghost before = out@;
            let ghost old_st = st;
            flush(st, &mut out);
            let low = text::lower_ascii(t.as_slice());
            let inside = text::begins(low.as_slice(), "[entry");
            st = CcdState { inside, point: None, control: None, plba: None };
            proof {
                let rest = ccd_entries(ls, i + 1, st);
                assert(before + (ccd_flush(old_st) + rest) == out@ + rest);
            }
        } else if st.inside {
            st = set(st, t.as_slice());
        }
        i += 1;
    }
    flush(st, &mut out);
    out
}

fn find_data(entries: &Vec<CcdEntry>) -> (r: Option<i64>)
    ensures
        r == ccd_data(entries@, 0),
{
    let mut i: usize = 0;
    while i < entries.len()
        invariant
            i <= entries@.len(),
            ccd_data(entries@, 0) == ccd_data(entries@, i as int),
        decreases entries@.len() - i,
    {
        if (entries[i].control & 4u32) != 0 && entries[i].plba >= 0 {
            return Some(entries[i].plba);
        }
        i += 1;
    }
    None
}

proof fn lemma_data_is_not_negative(entries: Seq<CcdEntry>, i: int)
    ensures
        ccd_data(entries, i) matches Some(p) ==> p >= 0,
    decreases entries.len() - i,
{
    if 0 <= i < entries.len() {
        lemma_data_is_not_negative(entries, i + 1);
    }
}

/// Finds the data track of a control file with the text `s`.
pub fn parse_ccd_for_data_track(log: &Log, cur: &mut usize, s: &str) -> (r: Step<
    Result<DataTrack, DiscError>,
>)
    requires
        log.wf(),
    ensures
        r == ccd_image(*log, s@),
{
    let q = Query::Exists { file: 0 };
    match log.flag(q, cur) {
        None => {
            return Step::Ask(q);
        },
        Some(there) => {
            if !there {
                return Step::Done(Err(DiscError::CcdImgMissing));
            }
        },
    }
    let entries = read_entries(s);
    proof {
        lemma_data_is_not_negative(entries@, 0);
    }
    let plba: i64 = match find_data(&entries) {
        None => {
            return Step::Done(Err(DiscError::CcdNoDataTrack));
        },
        Some(p) => p,
    };
    let offset: u128 = plba as u128 * sector::RAW_SECTOR_SIZE as u128;
    if offset > u64::MAX as u128 {
        return Step::Fault;
    }
    let offset: u64 = offset as u64;
    let udo: u64 = match sector::ask_format(log, cur, 0, offset) {
        Step::Ask(q) => {
            return Step::Ask(q);
        },
        Step::Fault => {
            return Step::Fault;
        },
        Step::Done(f) => f.1,
    };
    match sector::ask_lba(log, cur, 0, offset) {
        Step::Ask(q) => Step::Ask(q),
        Step::Fault => Step::Fault,
        Step::Done(lba) => Step::Done(
            Ok(
                DataTrack {
                    bin: 0,
                    track_offset: offset,
                    user_data_offset: if udo == 0 {
                        16
                    } else {
                        udo
                    },
                    stride: sector::RAW_SECTOR_SIZE,
                    lba_offset: lba,
                    descramble: false,
                    sector_count: 0,
                },
            ),
        ),
    }
}

} // verus!
