//! Questions about the files of an image, and the answers received so far.
//!
//! A function that has to look into the files of an image takes the answers
//! received so far and returns a `Step`: the next question, or its result.
//! The caller answers the question, adds the answer to the log and calls the
//! function again. A function asks its questions in a fixed order.
use vstd::prelude::*;

verus! {

/// The console that a disc in the GCM format is for.
#[derive(Clone, Copy, PartialEq, Eq, Structural, Debug)]
pub enum DiscKind {
    GameCube,
    Wii,
}

/// What the reader of one filesystem can be asked about a track.
#[derive(Clone, Copy, PartialEq, Eq, Structural, Debug)]
pub enum Probe {
    /// Is it a CD-i disc?
    CdiDisc,
    /// Does a scrambled CD-i track begin here?
    CdiReadyPregap,
    /// Is it a PC Engine disc?
    PceDisc,
    /// Is it a 3DO disc?
    ThreeDoDisc,
    /// Is it a GameCube or Wii disc?
    GcmDisc,
    /// Is it an Xbox disc?
    XdvdfsDisc,
    /// Is there an HFS volume?
    HfsDisc,
    /// Is there a UDF volume?
    UdfDisc,
    /// Which version of UDF is it?
    UdfVersion,
}

/// Where a probe looks.
#[derive(Clone, Copy, PartialEq, Eq, Structural, Debug)]
pub struct Spot {
    pub track_offset: u64,
    pub user_data_offset: u64,
    pub stride: u64,
    pub lba_offset: u64,
    pub descramble: bool,
}

/// A question about one file of an image.
#[derive(Clone, Copy, PartialEq, Eq, Structural, Debug)]
pub enum Query {
    /// How long is the file?
    Size { file: usize },
    /// Is there such a file?
    Exists { file: usize },
    /// Which `len` bytes stand at `offset`?
    Read { file: usize, offset: u64, len: u64 },
    /// What does the reader of a filesystem find?
    Probe { file: usize, probe: Probe, spot: Spot },
}

/// An answer.
#[derive(Debug)]
pub enum Reply {
    /// Bytes that were read; fewer than asked for where the read failed.
    Bytes(Vec<u8>),
    /// A length; `None` where it could not be found out.
    Size(Option<u64>),
    /// Yes or no.
    Flag(bool),
    /// The kind of a GCM disc; `None` where it is none.
    Disc(Option<DiscKind>),
    /// A name; `None` where there is none.
    Label(Option<String>),
}

impl Reply {
    /// The bytes of the answer; none for an answer of another sort.
    pub open spec fn bytes(self) -> Seq<u8> {
        match self {
            Reply::Bytes(b) => b@,
            _ => Seq::empty(),
        }
    }

    /// The length; `None` for an answer of another sort.
    pub open spec fn size(self) -> Option<u64> {
        match self {
            Reply::Size(n) => n,
            _ => None,
        }
    }

    /// Whether the answer is yes.
    pub open spec fn flag(self) -> bool {
        match self {
            Reply::Flag(b) => b,
            _ => false,
        }
    }

    /// The kind of disc; `None` for an answer of another sort.
    pub open spec fn disc(self) -> Option<DiscKind> {
        match self {
            Reply::Disc(k) => k,
            _ => None,
        }
    }

    /// The name; `None` for an answer of another sort.
    pub open spec fn label(self) -> Option<Seq<char>> {
        match self {
            Reply::Label(Some(s)) => Some(s@),
            _ => None,
        }
    }
}

/// The next question of a function, or its result.
#[derive(PartialEq, Eq, Debug)]
pub enum Step<T> {
    /// The answer to this question is needed.
    Ask(Query),
    /// The result.
    Done(T),
    /// A number beyond 64 bits or a division by zero came up: there is no
    /// result.
    Fault,
}

/// A question with its answer.
#[derive(Debug)]
struct Entry {
    query: Query,
    reply: Reply,
}

/// The answers received so far, at most one to each question.
#[derive(Debug)]
pub struct Log {
    entries: Vec<Entry>,
}

impl Log {
    /// No question has two answers.
    pub closed spec fn wf(self) -> bool {
        forall|i: int, j: int|
            0 <= i < j < self.entries@.len() ==> (#[trigger] self.entries@[i]).query != (
            #[trigger] self.entries@[j]).query
    }

    spec fn at(self, q: Query, i: int) -> bool {
        0 <= i < self.entries@.len() && self.entries@[i].query == q
    }

    /// The answer to `q`, where it is in.
    pub closed spec fn known(self, q: Query) -> Option<Reply> {
        if exists|i: int| self.at(q, i) {
            Some(self.entries@[choose|i: int| self.at(q, i)].reply)
        } else {
            None
        }
    }

    proof fn lemma_known(self, q: Query, i: int)
        requires
            self.wf(),
            self.at(q, i),
        ensures
            self.known(q) == Some(self.entries@[i].reply),
    {
        let k = choose|i: int| self.at(q, i);
        assert(self.at(q, k));
        if k < i {
            assert(self.entries@[k].query != self.entries@[i].query);
        } else if i < k {
            assert(self.entries@[i].query != self.entries@[k].query);
        }
    }

    /// A log without answers.
    pub fn new() -> (r: Log)
        ensures
            r.wf(),
            forall|q: Query| r.known(q) is None,
    {
        let r = Log { entries: Vec::new() };
        assert forall|q: Query| r.known(q) is None by {
            assert(forall|i: int| !r.at(q, i));
        }
        r
    }

    /// Adds the answer to `q`; an answer that is in already stays.
    pub fn answer(&mut self, q: Query, reply: Reply)
        requires
            old(self).wf(),
        ensures
            final(self).wf(),
            old(self).known(q) is Some ==> *final(self) == *old(self),
            old(self).known(q) is None ==> final(self).known(q) == Some(reply),
            forall|p: Query| p != q ==> final(self).known(p) == old(self).known(p),
    {
        let mut cur: usize = 0;
        if self.find(q, &mut cur).is_some() {
            return;
        }
        self.entries.push(Entry { query: q, reply });
        let ghost n = old(self).entries@.len() as int;
        assert forall|i: int| 0 <= i < n implies self.entries@[i] == old(self).entries@[i] by {}
        assert forall|i: int, j: int| 0 <= i < j < self.entries@.len() implies (
        #[trigger] self.entries@[i]).query != (#[trigger] self.entries@[j]).query by {
            if j == n {
                assert(!old(self).at(q, i));
            }
        }
        proof {
            assert(self.at(q, n));
            self.lemma_known(q, n);
        }
        assert forall|p: Query| p != q implies self.known(p) == old(self).known(p) by {
            if exists|i: int| old(self).at(p, i) {
                let k = choose|i: int| old(self).at(p, i);
                assert(self.at(p, k));
                self.lemma_known(p, k);
                old(self).lemma_known(p, k);
            } else {
                assert forall|i: int| !self.at(p, i) by {
                    assert(!old(self).at(p, i));
                }
            }
        }
    }

    /// Finds the answer to `q`. The search begins at `cur`, which moves behind
    /// what was found.
    fn find(&self, q: Query, cur: &mut usize) -> (r: Option<usize>)
        requires
            self.wf(),
        ensures
            r is Some <==> self.known(q) is Some,
            r matches Some(i) ==> self.at(q, i as int) && self.known(q) == Some(
                self.entries@[i as int].reply,
            ),
    {
        let n: usize = self.entries.len();
        let start: usize = if *cur < n {
            *cur
        } else {
            0
        };
        let mut i: usize = start;
        while i < n
            invariant
                start <= i <= n,
                n == self.entries@.len(),
                self.wf(),
                forall|k: int| start <= k < i ==> !self.at(q, k),
            decreases n - i,
        {
            if self.entries[i].query == q {
                *cur = i + 1;
                proof {
                    assert(self.at(q, i as int));
                    self.lemma_known(q, i as int);
                }
                return Some(i);
            }
            i += 1;
        }
        i = 0;
        while i < start
            invariant
                i <= start <= n,
                n == self.entries@.len(),
                self.wf(),
                forall|k: int| start <= k < n ==> !self.at(q, k),
                forall|k: int| 0 <= k < i ==> !self.at(q, k),
            decreases start - i,
        {
            if self.entries[i].query == q {
                *cur = i + 1;
                proof {
                    assert(self.at(q, i as int));
                    self.lemma_known(q, i as int);
                }
                return Some(i);
            }
            i += 1;
        }
        assert(forall|k: int| !self.at(q, k));
        None
    }

    /// The bytes that were read, where the answer to `q` is in.
    pub fn bytes(&self, q: Query, cur: &mut usize) -> (r: Option<&[u8]>)
        requires
            self.wf(),
        ensures
            r is Some <==> self.known(q) is Some,
            r matches Some(b) ==> b@ == self.known(q)->0.bytes(),
    {
        match self.find(q, cur) {
            Some(i) => match &self.entries[i].reply {
                Reply::Bytes(b) => Some(b.as_slice()),
                _ => {
                    let none: &[u8] = &[];
                    assert(none@ =~= Seq::<u8>::empty());
                    Some(none)
                },
            },
            None => None,
        }
    }

    /// The length, where the answer to `q` is in.
    pub fn size(&self, q: Query, cur: &mut usize) -> (r: Option<Option<u64>>)
        requires
            self.wf(),
        ensures
            r is Some <==> self.known(q) is Some,
            r matches Some(n) ==> n == self.known(q)->0.size(),
    {
        match self.find(q, cur) {
            Some(i) => match &self.entries[i].reply {
                Reply::Size(n) => Some(*n),
                _ => Some(None),
            },
            None => None,
        }
    }

    /// Yes or no, where the answer to `q` is in.
    pub fn flag(&self, q: Query, cur: &mut usize) -> (r: Option<bool>)
        requires
            self.wf(),
        ensures
            r is Some <==> self.known(q) is Some,
            r matches Some(b) ==> b == self.known(q)->0.flag(),
    {
        match self.find(q, cur) {
            Some(i) => match &self.entries[i].reply {
                Reply::Flag(b) => Some(*b),
                _ => Some(false),
            },
            None => None,
        }
    }

    /// The kind of disc, where the answer to `q` is in.
    pub fn disc(&self, q: Query, cur: &mut usize) -> (r: Option<Option<DiscKind>>)
        requires
            self.wf(),
        ensures
            r is Some <==> self.known(q) is Some,
            r matches Some(k) ==> k == self.known(q)->0.disc(),
    {
        match self.find(q, cur) {
            Some(i) => match &self.entries[i].reply {
                Reply::Disc(k) => Some(*k),
                _ => Some(None),
            },
            None => None,
        }
    }

    /// The name, where the answer to `q` is in.
    pub fn label(&self, q: Query, cur: &mut usize) -> (r: Option<Option<&str>>)
        requires
            self.wf(),
        ensures
            r is Some <==> self.known(q) is Some,
            r matches Some(Some(s)) ==> self.known(q)->0.label() == Some(s@),
            r matches Some(None) ==> self.known(q)->0.label() is None,
    {
        match self.find(q, cur) {
            Some(i) => match &self.entries[i].reply {
                Reply::Label(Some(s)) => Some(Some(s.as_str())),
                _ => Some(None),
            },
            None => None,
        }
    }
}

impl Spot {
    /// A track at `track_offset` whose sectors have their user data at
    /// `user_data_offset`; nothing else is told of it.
    pub open spec fn plain(track_offset: u64, user_data_offset: u64) -> Spot {
        Spot { track_offset, user_data_offset, stride: 0, lba_offset: 0, descramble: false }
    }

    /// A track at `track_offset` whose sectors have their user data at
    /// `user_data_offset`.
    pub fn at(track_offset: u64, user_data_offset: u64) -> (r: Spot)
        ensures
            r == Spot::plain(track_offset, user_data_offset),
    {
        Spot { track_offset, user_data_offset, stride: 0, lba_offset: 0, descramble: false }
    }
}

/// Whether the answer to `q` is yes.
pub open spec fn asked(log: Log, q: Query) -> Step<bool> {
    match log.known(q) {
        None => Step::Ask(q),
        Some(r) => Step::Done(r.flag()),
    }
}

/// Whether a probe finds something.
pub open spec fn probed(log: Log, file: usize, probe: Probe, spot: Spot) -> Step<bool> {
    asked(log, Query::Probe { file, probe, spot })
}

/// Asks whether a probe finds something.
pub fn ask_probe(log: &Log, cur: &mut usize, file: usize, probe: Probe, spot: Spot) -> (r: Step<
    bool,
>)
    requires
        log.wf(),
    ensures
        r == probed(*log, file, probe, spot),
{
    let q = Query::Probe { file, probe, spot };
    match log.flag(q, cur) {
        None => Step::Ask(q),
        Some(b) => Step::Done(b),
    }
}

/// The kind of the GCM disc in a file.
pub open spec fn gcm_kind(log: Log, file: usize) -> Step<Option<DiscKind>> {
    let q = Query::Probe { file, probe: Probe::GcmDisc, spot: Spot::plain(0, 0) };
    match log.known(q) {
        None => Step::Ask(q),
        Some(r) => Step::Done(r.disc()),
    }
}

/// Asks for the kind of the GCM disc in a file.
pub fn ask_gcm(log: &Log, cur: &mut usize, file: usize) -> (r: Step<Option<DiscKind>>)
    requires
        log.wf(),
    ensures
        r == gcm_kind(*log, file),
{
    let q = Query::Probe { file, probe: Probe::GcmDisc, spot: Spot::at(0, 0) };
    match log.disc(q, cur) {
        None => Step::Ask(q),
        Some(k) => Step::Done(k),
    }
}

/// What becomes of a position beyond 64 bits: there is no result where the file
/// is there, and `missing` where it is not.
pub open spec fn out_of_reach<T>(log: Log, file: usize, missing: T) -> Step<T> {
    let q = Query::Exists { file };
    match log.known(q) {
        None => Step::Ask(q),
        Some(r) => if r.flag() {
            Step::Fault
        } else {
            Step::Done(missing)
        },
    }
}

/// Asks whether the file of a position beyond 64 bits is there.
pub fn ask_out_of_reach<T>(log: &Log, cur: &mut usize, file: usize, missing: T) -> (r: Step<T>)
    requires
        log.wf(),
    ensures
        r == out_of_reach(*log, file, missing),
{
    let q = Query::Exists { file };
    match log.flag(q, cur) {
        None => Step::Ask(q),
        Some(there) => if there {
            Step::Fault
        } else {
            Step::Done(missing)
        },
    }
}

/// Every read of a file that was answered in full was answered with its bytes:
/// the file holds `content`.
pub open spec fn tells(log: Log, file: usize, content: Seq<u8>) -> bool {
    forall|offset: u64, len: u64|
        #[trigger] log.known(Query::Read { file, offset, len }) matches Some(r) ==> (
        r.bytes().len() == len ==> offset + len <= content.len() && r.bytes() == content.subrange(
            offset as int,
            offset + len,
        ))
}

} // verus!
