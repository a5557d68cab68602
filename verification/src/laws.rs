//! What the operations are for, stated of the bytes, lines and answers that go
//! in and of the results that come out.
use crate::device::{Log, Query};
use vstd::prelude::*;

pub mod audio;
pub mod calendar;
pub mod ccd;
pub mod cdi;
pub mod chd;
pub mod cue;
pub mod detect;
pub mod gdi;
pub mod image;
pub mod limits;
pub mod listing;
pub mod mds;
pub mod mount;
pub mod nrg;
pub mod reader;
pub mod sector;
pub mod sheet;
pub mod text;
pub mod volume;
pub mod wii;

verus! {

/// The answers about a file are those of a file with the bytes `content`: a
/// read inside it gives its bytes, a read beyond its end falls short, and its
/// length is told right.
pub open spec fn shows(log: Log, file: usize, content: Seq<u8>) -> bool {
    &&& content.len() <= u64::MAX
    &&& forall|offset: u64, len: u64|
        #[trigger] log.known(Query::Read { file, offset, len }) matches Some(r) ==> (if offset + len
            <= content.len() {
            r.bytes() == content.subrange(offset as int, offset + len)
        } else if len == 0 {
            r.bytes().len() == 0
        } else {
            r.bytes().len() < len
        })
    &&& log.known(Query::Size { file }) matches Some(r) ==> (r.size() matches Some(n) && n
        == content.len())
    &&& log.known(Query::Exists { file }) matches Some(r) ==> r.flag()
}

/// The four letters `a`, `b`, `c`, `e` stand at `p`.
pub open spec fn letters(d: Seq<u8>, p: int, a: u8, b: u8, c: u8, e: u8) -> bool {
    0 <= p && p + 4 <= d.len() && d[p] == a && d[p + 1] == b && d[p + 2] == c && d[p + 3] == e
}

/// `s` opens with the characters of `p`.
pub open spec fn opens(s: Seq<char>, p: Seq<char>) -> bool {
    p.len() <= s.len() && forall|k: int| 0 <= k < p.len() ==> #[trigger] s[k] == p[k]
}

/// To open with some characters is to begin with them.
pub proof fn lemma_opens(s: Seq<char>, p: Seq<char>)
    ensures
        opens(s, p) == crate::text::starts_with(s, p),
{
    if p.len() <= s.len() {
        let t = s.subrange(0, p.len() as int);
        if opens(s, p) {
            assert(t =~= p);
        }
        if t == p {
            assert forall|k: int| 0 <= k < p.len() implies #[trigger] s[k] == p[k] by {
                assert(t[k] == s[k]);
            }
        }
    }
}

/// `s` closes with the characters of `p`.
pub open spec fn closes(s: Seq<char>, p: Seq<char>) -> bool {
    p.len() <= s.len() && forall|k: int|
        0 <= k < p.len() ==> #[trigger] p[k] == s[s.len() - p.len() + k]
}

/// To close with some characters is to end with them.
pub proof fn lemma_closes(s: Seq<char>, p: Seq<char>)
    ensures
        closes(s, p) == crate::text::ends_with(s, p),
{
    if p.len() <= s.len() {
        let n = s.len() - p.len();
        let t = s.subrange(n, s.len() as int);
        if closes(s, p) {
            assert forall|k: int| 0 <= k < p.len() implies t[k] == p[k] by {
                assert(p[k] == s[n + k]);
            }
            assert(t =~= p);
        }
        if t == p {
            assert forall|k: int| 0 <= k < p.len() implies #[trigger] p[k] == s[n + k] by {
                assert(t[k] == s[n + k]);
            }
        }
    }
}

} // verus!
