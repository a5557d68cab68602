//! CloneCD control files.
use crate::ccd;
use crate::ccd::{CcdEntry, CcdState};
use crate::device::{Log, Query, Step};
use crate::error::DiscError;
use crate::laws;
use crate::laws::sector;
use crate::text;
use crate::track::DataTrack;
use vstd::prelude::*;

verus! {

/// The line opens a section.
pub open spec fn heads(l: Seq<char>) -> bool {
    let t = text::trim(l);
    t.len() > 0 && t[0] == '['
}

/// The line opens a section of the table of contents, in whatever letter case.
pub open spec fn heads_entry(l: Seq<char>) -> bool {
    heads(l) && laws::opens(
        text::ascii_lower(text::trim(l)),
        seq!['[', 'e', 'n', 't', 'r', 'y'],
    )
}

/// The line gives `val` to the key `key`, in whatever letter case: they stand on
/// both sides of its first `=`.
pub open spec fn gives(l: Seq<char>, key: Seq<char>, val: Seq<char>) -> bool {
    let t = text::trim(l);
    exists|eq: int|
        {
            &&& 0 <= eq < t.len()
            &&& #[trigger] t[eq] == '='
            &&& forall|k: int| 0 <= k < eq ==> #[trigger] t[k] != '='
            &&& text::ascii_lower(text::trim(t.take(eq))) == key
            &&& val == t.skip(eq + 1)
        }
}

/// The letters `point`.
pub open spec fn point() -> Seq<char> {
    seq!['p', 'o', 'i', 'n', 't']
}

/// The letters `control`.
pub open spec fn control() -> Seq<char> {
    seq!['c', 'o', 'n', 't', 'r', 'o', 'l']
}

/// The letters `plba`.
pub open spec fn plba() -> Seq<char> {
    seq!['p', 'l', 'b', 'a']
}

proof fn lemma_next(s: Seq<char>, c: char, i: int, j: int)
    requires
        0 <= i <= j < s.len(),
        forall|k: int| i <= k < j ==> #[trigger] s[k] != c,
        s[j] == c,
    ensures
        text::next(s, c, i) == j,
    decreases j - i,
{
    if i < j {
        assert(s[i] != c);
        lemma_next(s, c, i + 1, j);
    }
}

proof fn lemma_keys()
    ensures
        "point"@ == point(),
        "control"@ == control(),
        "plba"@ == plba(),
        "[entry"@ == seq!['[', 'e', 'n', 't', 'r', 'y'],
        "0x"@ == seq!['0', 'x'],
        "0X"@ == seq!['0', 'X'],
{
    reveal_strlit("point");
    reveal_strlit("control");
    reveal_strlit("plba");
    reveal_strlit("[entry");
    reveal_strlit("0x");
    reveal_strlit("0X");
    assert("point"@ =~= point());
    assert("control"@ =~= control());
    assert("plba"@ =~= plba());
    assert("[entry"@ =~= seq!['[', 'e', 'n', 't', 'r', 'y']);
    assert("0x"@ =~= seq!['0', 'x']);
    assert("0X"@ =~= seq!['0', 'X']);
}

proof fn lemma_set(st: CcdState, l: Seq<char>, key: Seq<char>, val: Seq<char>)
    requires
        gives(l, key, val),
    ensures
        ({
            let next = ccd::ccd_set(st, text::trim(l));
            &&& next.inside == st.inside
            &&& key == point() ==> next == (CcdState {
                point: Some(ccd::ccd_int(val) as i32),
                ..st
            })
            &&& key == control() ==> next == (CcdState {
                control: Some(ccd::ccd_int(val) as u32),
                ..st
            })
            &&& key == plba() ==> next == (CcdState {
                plba: Some(ccd::ccd_decimal(text::trim(val))),
                ..st
            })
            &&& key != point() && key != control() && key != plba() ==> next == st
        }),
{
    lemma_keys();
    let t = text::trim(l);
    let eq = choose|eq: int|
        {
            &&& 0 <= eq < t.len()
            &&& #[trigger] t[eq] == '='
            &&& forall|k: int| 0 <= k < eq ==> #[trigger] t[k] != '='
            &&& text::ascii_lower(text::trim(t.take(eq))) == key
            &&& val == t.skip(eq + 1)
        };
    lemma_next(t, '=', 0, eq);
    assert(t.subrange(0, eq) =~= t.take(eq));
    assert(point().len() == 5 && control().len() == 7 && plba().len() == 4);
}

/// No line of the stretch gives anything to the key.
pub open spec fn silent(lines: Seq<Seq<char>>, from: int, end: int, key: Seq<char>) -> bool {
    forall|k: int, val: Seq<char>| from < k < end ==> !#[trigger] gives(lines[k], key, val)
}

proof fn lemma_unset(st: CcdState, l: Seq<char>, key: Seq<char>)
    requires
        forall|val: Seq<char>| !#[trigger] gives(l, key, val),
    ensures
        ({
            let next = ccd::ccd_set(st, text::trim(l));
            &&& next.inside == st.inside
            &&& key == point() ==> next.point == st.point
            &&& key == control() ==> next.control == st.control
            &&& key == plba() ==> next.plba == st.plba
        }),
{
    lemma_keys();
    let t = text::trim(l);
    let eq = text::next(t, '=', 0);
    text::lemma_next(t, '=', 0);
    assert(point().len() == 5 && control().len() == 7 && plba().len() == 4);
    if eq < t.len() {
        assert(t.subrange(0, eq) =~= t.take(eq));
        let k = text::ascii_lower(text::trim(t.take(eq)));
        assert(t[eq] == '=');
        assert(gives(l, k, t.skip(eq + 1)));
    }
}

spec fn behind(lines: Seq<Seq<char>>, n: int) -> CcdState
    decreases n,
{
    if n <= 0 {
        ccd::ccd_fresh(false)
    } else {
        let st = behind(lines, n - 1);
        let t = text::trim(lines[n - 1]);
        if t.len() > 0 && t[0] == '[' {
            ccd::ccd_fresh(text::starts_with(text::ascii_lower(t), "[entry"@))
        } else if !st.inside {
            st
        } else {
            ccd::ccd_set(st, t)
        }
    }
}

spec fn before(lines: Seq<Seq<char>>, n: int) -> Seq<CcdEntry>
    decreases n,
{
    if n <= 0 {
        Seq::empty()
    } else if heads(lines[n - 1]) {
        before(lines, n - 1) + ccd::ccd_flush(behind(lines, n - 1))
    } else {
        before(lines, n - 1)
    }
}

proof fn lemma_split(lines: Seq<Seq<char>>, n: int)
    requires
        0 <= n <= lines.len(),
    ensures
        ccd::ccd_entries(lines, 0, ccd::ccd_fresh(false)) == before(lines, n) + ccd::ccd_entries(
            lines,
            n,
            behind(lines, n),
        ),
    decreases n,
{
    if n == 0 {
        assert(Seq::<CcdEntry>::empty() + ccd::ccd_entries(lines, 0, ccd::ccd_fresh(false))
            =~= ccd::ccd_entries(lines, 0, ccd::ccd_fresh(false)));
    } else {
        lemma_split(lines, n - 1);
        let st = behind(lines, n - 1);
        let rest = ccd::ccd_entries(lines, n, behind(lines, n));
        assert(before(lines, n - 1) + (ccd::ccd_flush(st) + rest) =~= (before(lines, n - 1)
            + ccd::ccd_flush(st)) + rest);
    }
}

proof fn lemma_inside(lines: Seq<Seq<char>>, h: int, n: int)
    requires
        0 <= h < n <= lines.len(),
        heads_entry(lines[h]),
        forall|k: int| h < k < n ==> !heads(#[trigger] lines[k]),
    ensures
        behind(lines, n).inside,
    decreases n - h,
{
    if n == h + 1 {
        lemma_keys();
        laws::lemma_opens(text::ascii_lower(text::trim(lines[h])), "[entry"@);
    } else {
        lemma_inside(lines, h, n - 1);
        assert(!heads(lines[n - 1]));
    }
}

proof fn lemma_value(
    lines: Seq<Seq<char>>,
    h: int,
    p: int,
    n: int,
    key: Seq<char>,
    val: Seq<char>,
)
    requires
        0 <= h < p < n <= lines.len(),
        heads_entry(lines[h]),
        forall|k: int| h < k < n ==> !heads(#[trigger] lines[k]),
        gives(lines[p], key, val),
        silent(lines, p, n, key),
    ensures
        key == point() ==> behind(lines, n).point == Some(ccd::ccd_int(val) as i32),
        key == control() ==> behind(lines, n).control == Some(ccd::ccd_int(val) as u32),
        key == plba() ==> behind(lines, n).plba == Some(ccd::ccd_decimal(text::trim(val))),
    decreases n - p,
{
    lemma_inside(lines, h, n - 1);
    assert(!heads(lines[n - 1]));
    if n == p + 1 {
        lemma_set(behind(lines, p), lines[p], key, val);
    } else {
        lemma_value(lines, h, p, n - 1, key, val);
        lemma_unset(behind(lines, n - 1), lines[n - 1], key);
    }
}

/// The section that opens at line `h` goes to line `end`.
pub open spec fn section(lines: Seq<Seq<char>>, h: int, end: int) -> bool {
    &&& 0 <= h < end <= lines.len()
    &&& forall|k: int| h < k < end ==> !heads(#[trigger] lines[k])
    &&& end < lines.len() ==> heads(lines[end])
}

/// The last line between `h` and `end` that gives anything to the key gives `val`.
pub open spec fn holds(
    lines: Seq<Seq<char>>,
    h: int,
    end: int,
    key: Seq<char>,
    val: Seq<char>,
) -> bool {
    exists|p: int|
        h < p < end && #[trigger] gives(lines[p], key, val) && silent(lines, p, end, key)
}

/// The section of the table of contents that opens at line `h` describes the track
/// `e`: it gives a point from 1 to 99, and control and first sector are those of `e`.
/// Where a key is given more than once, its last value counts.
pub open spec fn describes(lines: Seq<Seq<char>>, h: int, e: CcdEntry) -> bool {
    &&& 0 <= h < lines.len()
    &&& heads_entry(lines[h])
    &&& exists|end: int, pv: Seq<char>, cv: Seq<char>, sv: Seq<char>|
        {
            &&& section(lines, h, end)
            &&& #[trigger] holds(lines, h, end, point(), pv)
            &&& #[trigger] holds(lines, h, end, control(), cv)
            &&& #[trigger] holds(lines, h, end, plba(), sv)
            &&& 1 <= ccd::ccd_int(pv) as i32 <= 99
            &&& e.control == ccd::ccd_int(cv) as u32
            &&& e.plba == ccd::ccd_decimal(text::trim(sv))
        }
}

proof fn lemma_holds(lines: Seq<Seq<char>>, h: int, end: int, key: Seq<char>, val: Seq<char>)
    requires
        0 <= h < end <= lines.len(),
        heads_entry(lines[h]),
        forall|k: int| h < k < end ==> !heads(#[trigger] lines[k]),
        holds(lines, h, end, key, val),
    ensures
        key == point() ==> behind(lines, end).point == Some(ccd::ccd_int(val) as i32),
        key == control() ==> behind(lines, end).control == Some(ccd::ccd_int(val) as u32),
        key == plba() ==> behind(lines, end).plba == Some(ccd::ccd_decimal(text::trim(val))),
{
    let p = choose|p: int|
        h < p < end && #[trigger] gives(lines[p], key, val) && silent(lines, p, end, key);
    lemma_value(lines, h, p, end, key, val);
}

proof fn lemma_given(lines: Seq<Seq<char>>, h: int, n: int, key: Seq<char>) -> (val: Seq<char>)
    requires
        0 <= h < n <= lines.len(),
        heads_entry(lines[h]),
        forall|k: int| h < k < n ==> !heads(#[trigger] lines[k]),
    ensures
        key == point() && behind(lines, n).point is Some ==> holds(lines, h, n, key, val),
        key == control() && behind(lines, n).control is Some ==> holds(lines, h, n, key, val),
        key == plba() && behind(lines, n).plba is Some ==> holds(lines, h, n, key, val),
    decreases n - h,
{
    if n == h + 1 {
        Seq::empty()
    } else if exists|val: Seq<char>| #[trigger] gives(lines[n - 1], key, val) {
        let val = choose|val: Seq<char>| #[trigger] gives(lines[n - 1], key, val);
        assert(silent(lines, n - 1, n, key));
        val
    } else {
        let val = lemma_given(lines, h, n - 1, key);
        lemma_inside(lines, h, n - 1);
        assert(!heads(lines[n - 1]));
        lemma_unset(behind(lines, n - 1), lines[n - 1], key);
        if holds(lines, h, n - 1, key, val) {
            let p = choose|p: int|
                h < p < n - 1 && #[trigger] gives(lines[p], key, val) && silent(
                    lines,
                    p,
                    n - 1,
                    key,
                );
            assert(silent(lines, p, n, key));
        }
        val
    }
}

proof fn lemma_flushed(lines: Seq<Seq<char>>, h: int, n: int)
    requires
        section(lines, h, n),
        heads_entry(lines[h]),
        ccd::ccd_flush(behind(lines, n)).len() > 0,
    ensures
        describes(lines, h, ccd::ccd_flush(behind(lines, n))[0]),
{
    let pv = lemma_given(lines, h, n, point());
    let cv = lemma_given(lines, h, n, control());
    let sv = lemma_given(lines, h, n, plba());
    lemma_holds(lines, h, n, point(), pv);
    lemma_holds(lines, h, n, control(), cv);
    lemma_holds(lines, h, n, plba(), sv);
}

/// A section of the table of contents with a point from 1 to 99 is an entry.
pub proof fn lemma_section_is_entry(lines: Seq<Seq<char>>, h: int, e: CcdEntry)
    requires
        describes(lines, h, e),
    ensures
        ccd::ccd_entries(lines, 0, ccd::ccd_fresh(false)).contains(e),
{
    let (end, pv, cv, sv) = choose|end: int, pv: Seq<char>, cv: Seq<char>, sv: Seq<char>|
        {
            &&& section(lines, h, end)
            &&& #[trigger] holds(lines, h, end, point(), pv)
            &&& #[trigger] holds(lines, h, end, control(), cv)
            &&& #[trigger] holds(lines, h, end, plba(), sv)
            &&& 1 <= ccd::ccd_int(pv) as i32 <= 99
            &&& e.control == ccd::ccd_int(cv) as u32
            &&& e.plba == ccd::ccd_decimal(text::trim(sv))
        };
    lemma_inside(lines, h, end);
    lemma_holds(lines, h, end, point(), pv);
    lemma_holds(lines, h, end, control(), cv);
    lemma_holds(lines, h, end, plba(), sv);
    let st = behind(lines, end);
    assert(ccd::ccd_flush(st) =~= seq![e]);
    assert(ccd::ccd_flush(st)[0] == e);
    lemma_split(lines, end);
    let rest = ccd::ccd_entries(lines, end, st);
    assert(rest[0] == e);
    assert(ccd::ccd_entries(lines, 0, ccd::ccd_fresh(false))[before(lines, end).len() as int] == e);
}

proof fn lemma_last_head(lines: Seq<Seq<char>>, n: int) -> (h: int)
    requires
        0 <= n <= lines.len(),
    ensures
        behind(lines, n).inside ==> 0 <= h < n && heads_entry(lines[h]) && forall|k: int|
            h < k < n ==> !heads(#[trigger] lines[k]),
    decreases n,
{
    if n == 0 {
        0
    } else {
        let h = lemma_last_head(lines, n - 1);
        if heads(lines[n - 1]) {
            lemma_keys();
            laws::lemma_opens(text::ascii_lower(text::trim(lines[n - 1])), "[entry"@);
            n - 1
        } else {
            if behind(lines, n - 1).inside {
                lemma_kept(behind(lines, n - 1), text::trim(lines[n - 1]));
            }
            h
        }
    }
}

proof fn lemma_kept(st: CcdState, t: Seq<char>)
    ensures
        ccd::ccd_set(st, t).inside == st.inside,
{
}

/// The entries are those that the sections at the lines `at` describe, at most one
/// for each section, in their order.
pub open spec fn come_from(
    lines: Seq<Seq<char>>,
    entries: Seq<CcdEntry>,
    at: Seq<int>,
    n: int,
) -> bool {
    &&& entries.len() == at.len()
    &&& forall|k: int|
        0 <= k < at.len() ==> 0 <= #[trigger] at[k] < n && describes(lines, at[k], entries[k])
    &&& forall|j: int, k: int| 0 <= j < k < at.len() ==> at[j] < at[k]
}

proof fn lemma_come_from(lines: Seq<Seq<char>>, n: int) -> (at: Seq<int>)
    requires
        0 <= n <= lines.len(),
    ensures
        come_from(lines, before(lines, n), at, n),
        at.len() > 0 ==> exists|k: int| at.last() < k < n && heads(#[trigger] lines[k]),
    decreases n,
{
    if n == 0 {
        Seq::empty()
    } else {
        let at = lemma_come_from(lines, n - 1);
        let flush = ccd::ccd_flush(behind(lines, n - 1));
        if heads(lines[n - 1]) && flush.len() > 0 {
            let h = lemma_last_head(lines, n - 1);
            if at.len() > 0 {
                let k = choose|k: int| at.last() < k < n - 1 && heads(#[trigger] lines[k]);
                assert(!(h < k < n - 1));
                assert(at.last() < h);
            }
            assert(heads(lines[n - 1]));
            lemma_flushed(lines, h, n - 1);
            assert(before(lines, n) =~= before(lines, n - 1).push(flush[0]));
            at.push(h)
        } else {
            if heads(lines[n - 1]) {
                assert(before(lines, n) =~= before(lines, n - 1));
                assert(heads(lines[n - 1]));
            }
            at
        }
    }
}

/// Nothing else is an entry.
pub proof fn lemma_entries_come_from_sections(lines: Seq<Seq<char>>) -> (at: Seq<int>)
    ensures
        come_from(
            lines,
            ccd::ccd_entries(lines, 0, ccd::ccd_fresh(false)),
            at,
            lines.len() as int,
        ),
{
    let n = lines.len() as int;
    let at = lemma_come_from(lines, n);
    lemma_split(lines, n);
    let flush = ccd::ccd_flush(behind(lines, n));
    let all = ccd::ccd_entries(lines, 0, ccd::ccd_fresh(false));
    assert(all == before(lines, n) + flush);
    if flush.len() > 0 {
        let h = lemma_last_head(lines, n);
        if at.len() > 0 {
            let k = choose|k: int| at.last() < k < n && heads(#[trigger] lines[k]);
            assert(!(h < k < n));
            assert(at.last() < h);
        }
        lemma_flushed(lines, h, n);
        assert(all =~= before(lines, n).push(flush[0]));
        at.push(h)
    } else {
        assert(all =~= before(lines, n));
        at
    }
}

/// A value is a decimal number, or behind `0x` a hexadecimal one; the white space
/// around it does not count, and what is no number is 0.
pub proof fn lemma_values(t: Seq<char>)
    ensures
        laws::opens(text::trim(t), seq!['0', 'x']) || laws::opens(text::trim(t), seq!['0', 'X'])
            ==> ccd::ccd_int(t) == (match text::parse_signed(text::trim(t).skip(2), 16) {
            Some(v) => v as i64,
            None => 0i64,
        }),
        !laws::opens(text::trim(t), seq!['0', 'x']) && !laws::opens(text::trim(t), seq!['0', 'X'])
            ==> ccd::ccd_int(t) == (match text::parse_signed(text::trim(t), 10) {
            Some(v) => v as i64,
            None => 0i64,
        }),
        ccd::ccd_decimal(t) == (match text::parse_signed(t, 10) {
            Some(v) => v as i64,
            None => 0i64,
        }),
{
    lemma_keys();
    laws::lemma_opens(text::trim(t), "0x"@);
    laws::lemma_opens(text::trim(t), "0X"@);
}

/// The entry is of a data track that is on the disc: the third bit of its control
/// field is set, and its first sector is not negative.
pub open spec fn is_data(e: CcdEntry) -> bool {
    (e.control / 4) % 2 == 1 && e.plba >= 0
}

proof fn lemma_bit(c: u32)
    ensures
        ((c & 4u32) != 0) == ((c / 4) % 2 == 1),
{
    assert(((c & 4u32) != 0) == ((c / 4) % 2 == 1)) by (bit_vector);
}

proof fn lemma_data(entries: Seq<CcdEntry>, i: int, k: int)
    requires
        0 <= i <= k <= entries.len(),
        forall|j: int| i <= j < k ==> !is_data(#[trigger] entries[j]),
        k < entries.len() ==> is_data(entries[k]),
    ensures
        k < entries.len() ==> ccd::ccd_data(entries, i) == Some(entries[k].plba),
        k == entries.len() ==> ccd::ccd_data(entries, i) is None,
    decreases k - i,
{
    if i < entries.len() {
        lemma_bit(entries[i].control);
    }
    if i < k {
        assert(!is_data(entries[i]));
        lemma_data(entries, i + 1, k);
    }
}

/// The data track of a control file: that of the first entry of a data track. Its
/// first sector is counted in raw sectors from the start of the `.img` file; the user
/// data of its sectors begins behind 24 bytes where that sector is of mode 2, and
/// behind 16 bytes else. Without such an entry there is none.
pub proof fn lemma_data_track(log: Log, s: Seq<char>, d: Seq<u8>, k: int)
    requires
        laws::shows(log, 0, d),
        ({
            let entries = ccd::ccd_entries(text::lines(s), 0, ccd::ccd_fresh(false));
            &&& 0 <= k <= entries.len()
            &&& forall|j: int| 0 <= j < k ==> !is_data(#[trigger] entries[j])
            &&& k < entries.len() ==> is_data(entries[k]) && entries[k].plba * 2352 <= u64::MAX
        }),
    ensures
        ({
            let entries = ccd::ccd_entries(text::lines(s), 0, ccd::ccd_fresh(false));
            &&& ccd::ccd_image(log, s) !is Fault
            &&& ccd::ccd_image(log, s) matches Step::Done(r) ==> {
                &&& k == entries.len() ==> r == Err::<DataTrack, DiscError>(
                    DiscError::CcdNoDataTrack,
                )
                &&& k < entries.len() ==> (r matches Ok(t) && {
                    let p = entries[k].plba * 2352;
                    &&& t.bin == 0
                    &&& t.track_offset == p
                    &&& t.user_data_offset == (if p + 16 <= d.len() && sector::syncs(d, p) && d[p
                        + 15] == 2 {
                        24u64
                    } else {
                        16
                    })
                    &&& t.stride == 2352
                    &&& crate::sector::lba_at(log, 0, t.track_offset) == Step::Done(t.lba_offset)
                    &&& !t.descramble
                    &&& t.sector_count == 0
                })
            }
        }),
{
    let entries = ccd::ccd_entries(text::lines(s), 0, ccd::ccd_fresh(false));
    lemma_data(entries, 0, k);
    if k < entries.len() {
        sector::lemma_format(log, 0, d, (entries[k].plba * 2352) as u64);
    }
}

/// A control file without its `.img` file has no data track.
pub proof fn lemma_no_img(log: Log, s: Seq<char>)
    requires
        log.known(Query::Exists { file: 0 }) matches Some(r) && !r.flag(),
    ensures
        ccd::ccd_image(log, s) == Step::Done(Err::<DataTrack, DiscError>(DiscError::CcdImgMissing)),
{
}

} // verus!
