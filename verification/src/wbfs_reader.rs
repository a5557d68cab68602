//! Wii backup containers (WBFS): a disc cut into chunks of which only the used
//! ones are stored. The container is file 0.
//!
//! The container begins with a header, a table of discs and, for each disc, a
//! table that gives the place of each chunk of the disc, or 0 for a chunk of
//! zeros.
use crate::bytes;
use crate::device;
use crate::device::{Log, Query, Step};
use crate::error::DiscError;
use crate::seek;
use crate::seek::SeekTo;
use vstd::arithmetic::power2::{lemma_pow2_pos, pow2};
use vstd::bits;
use vstd::prelude::*;

verus! {

/// Sectors of a double-layer Wii disc.
pub const WII_MAX_SECTORS: u64 = 286_864;

/// The size of a Wii sector is 2 to this power.
pub const WII_SEC_SZ_S: u32 = 15;

/// The letters `WBFS`.
pub open spec fn wbfs_magic() -> Seq<u8> {
    seq![0x57u8, 0x42, 0x46, 0x53]
}

/// The sizes that the header gives: of a sector of the medium, and of a chunk
/// as a power of two.
#[derive(Clone, Copy, PartialEq, Eq, Structural, Debug)]
pub struct WbfsHeader {
    /// Bytes per sector of the medium.
    pub hd_sec_sz: u64,
    /// The size of a chunk is 2 to this power: 15 to 30.
    pub wbfs_sec_sz_s: u32,
}

/// The header in the first twelve bytes of a container.
pub open spec fn wbfs_header(d: Seq<u8>) -> Result<WbfsHeader, DiscError> {
    let hd = pow2(
        (if d[8] < 30 {
            d[8]
        } else {
            30
        }) as nat,
    );
    if d.len() < 12 {
        Err(DiscError::WbfsHeaderRead)
    } else if !bytes::bytes_at(d, 0, wbfs_magic()) {
        Err(DiscError::WbfsMagic)
    } else if d[9] < WII_SEC_SZ_S || d[9] > 30 {
        Err(DiscError::WbfsSectorShift(d[9] as u32))
    } else if hd < 12 {
        Err(DiscError::WbfsHdSector(hd as u64))
    } else {
        Ok(WbfsHeader { hd_sec_sz: hd as u64, wbfs_sec_sz_s: d[9] as u32 })
    }
}

impl WbfsHeader {
    /// The sizes are in range.
    pub open spec fn wf(self) -> bool {
        12 <= self.hd_sec_sz <= 0x4000_0000 && WII_SEC_SZ_S <= self.wbfs_sec_sz_s <= 30
    }

    /// Bytes per chunk.
    pub open spec fn chunk_size(self) -> int {
        pow2(self.wbfs_sec_sz_s as nat) as int
    }

    /// Chunks per disc.
    pub open spec fn chunks(self) -> int {
        WII_MAX_SECTORS as int / pow2((self.wbfs_sec_sz_s - WII_SEC_SZ_S) as nat) as int
    }

    /// How many bytes of the table of discs are read.
    pub open spec fn table_bytes(self) -> int {
        if self.hd_sec_sz - 12 < 512 {
            self.hd_sec_sz - 12
        } else {
            512
        }
    }

    /// Bytes that describe one disc: a copy of its header and its table of
    /// chunks, rounded up to whole sectors of the medium.
    pub open spec fn info_size(self) -> int {
        (256 + self.chunks() * 2 + self.hd_sec_sz - 1) / self.hd_sec_sz as int * self.hd_sec_sz
    }

    /// Where the table of chunks of the disc in `slot` begins.
    pub open spec fn chunk_table(self, slot: int) -> int {
        self.hd_sec_sz + slot * self.info_size() + 0x100
    }
}

/// The first slot from `i` on that holds a disc, or the number of slots.
pub open spec fn first_disc(table: Seq<u8>, i: int) -> int
    decreases table.len() - i,
{
    if 0 <= i < table.len() && table[i] == 0 {
        first_disc(table, i + 1)
    } else {
        i
    }
}

/// A table of chunks: big-endian numbers of 16 bits.
pub open spec fn chunk_entries(d: Seq<u8>) -> Seq<u16> {
    Seq::new((d.len() / 2) as nat, |i: int| bytes::be16(d, 2 * i) as u16)
}

/// Reads the first disc of a container.
#[derive(PartialEq, Eq, Debug)]
pub struct WbfsReader {
    pub wbfs_sec_sz: u64,
    pub wlba_table: Vec<u16>,
    pub disc_size: u64,
    pub pos: u64,
}

/// What a reader holds.
pub struct WbfsView {
    pub wbfs_sec_sz: u64,
    pub wlba_table: Seq<u16>,
    pub disc_size: u64,
    pub pos: u64,
}

impl View for WbfsReader {
    type V = WbfsView;

    open spec fn view(&self) -> WbfsView {
        WbfsView {
            wbfs_sec_sz: self.wbfs_sec_sz,
            wlba_table: self.wlba_table@,
            disc_size: self.disc_size,
            pos: self.pos,
        }
    }
}

/// A container with this header whose table of discs has been read.
pub open spec fn wbfs_disc(log: Log, h: WbfsHeader, table: Seq<u8>) -> Step<
    Result<WbfsView, DiscError>,
> {
    let slot = first_disc(table, 0);
    if slot >= table.len() {
        Step::Done(Err(DiscError::WbfsNoDisc))
    } else {
        let q = Query::Read {
            file: 0,
            offset: h.chunk_table(slot) as u64,
            len: (h.chunks() * 2) as u64,
        };
        match log.known(q) {
            None => Step::Ask(q),
            Some(r) => if r.bytes().len() != h.chunks() * 2 {
                Step::Done(Err(DiscError::WbfsChunkRead))
            } else {
                Step::Done(
                    Ok(
                        WbfsView {
                            wbfs_sec_sz: h.chunk_size() as u64,
                            wlba_table: chunk_entries(r.bytes()),
                            disc_size: (h.chunks() * h.chunk_size()) as u64,
                            pos: 0,
                        },
                    ),
                )
            },
        }
    }
}

/// The first disc of a container.
pub open spec fn wbfs_image(log: Log) -> Step<Result<WbfsView, DiscError>> {
    let head = Query::Read { file: 0, offset: 0, len: 12 };
    match log.known(head) {
        None => Step::Ask(head),
        Some(d) => match wbfs_header(d.bytes()) {
            Err(e) => Step::Done(Err(e)),
            Ok(h) => {
                let q = Query::Read { file: 0, offset: 12, len: h.table_bytes() as u64 };
                match log.known(q) {
                    None => Step::Ask(q),
                    Some(t) => if t.bytes().len() != h.table_bytes() {
                        Step::Done(Err(DiscError::WbfsTableRead))
                    } else {
                        wbfs_disc(log, h, t.bytes())
                    },
                }
            },
        },
    }
}

/// What a step to a reader holds.
pub open spec fn opened(s: Step<Result<WbfsReader, DiscError>>) -> Step<
    Result<WbfsView, DiscError>,
> {
    match s {
        Step::Ask(q) => Step::Ask(q),
        Step::Fault => Step::Fault,
        Step::Done(Ok(r)) => Step::Done(Ok(r@)),
        Step::Done(Err(e)) => Step::Done(Err(e)),
    }
}

/// `n` zeros.
pub open spec fn zero_bytes(n: int) -> Seq<u8> {
    Seq::new(n as nat, |i: int| 0u8)
}

/// What a read of up to `len` bytes at the current position gives.
pub enum WbfsPlan {
    /// So many zeros, of a chunk that is not stored.
    Zeros(int),
    /// The bytes from `offset` on of the container.
    Stored { offset: int, n: int },
}

impl WbfsView {
    /// The chunks fill the disc.
    pub open spec fn wf(self) -> bool {
        &&& 0 < self.wbfs_sec_sz <= 0x4000_0000
        &&& self.disc_size == self.wlba_table.len() * self.wbfs_sec_sz
    }

    /// The place of the chunk that holds byte `p` of the disc, in chunks from
    /// the start of the container; 0 for a chunk that is not stored.
    pub open spec fn chunk_place(self, p: int) -> int {
        self.wlba_table[p / self.wbfs_sec_sz as int] as int
    }

    /// Byte `p` of the disc, where the container holds the bytes `file`.
    pub open spec fn disc_byte(self, file: Seq<u8>, p: int) -> u8 {
        if self.chunk_place(p) == 0 {
            0
        } else {
            file[self.chunk_place(p) * self.wbfs_sec_sz + p % self.wbfs_sec_sz as int]
        }
    }

    /// How many bytes a read of up to `len` bytes gives: it ends at the end of
    /// the chunk, which is not beyond the end of the disc.
    pub open spec fn read_len(self, len: u64) -> int {
        let rest = self.wbfs_sec_sz - self.pos as int % self.wbfs_sec_sz as int;
        if self.pos >= self.disc_size {
            0
        } else if len < rest {
            len as int
        } else {
            rest
        }
    }

    /// What a read of up to `len` bytes gives.
    pub open spec fn plan(self, len: u64) -> WbfsPlan {
        let n = self.read_len(len);
        if n == 0 || self.chunk_place(self.pos as int) == 0 {
            WbfsPlan::Zeros(n)
        } else {
            WbfsPlan::Stored {
                offset: self.chunk_place(self.pos as int) * self.wbfs_sec_sz + self.pos as int
                    % self.wbfs_sec_sz as int,
                n,
            }
        }
    }

    /// The bytes that a read of up to `len` bytes gives.
    pub open spec fn read_step(self, log: Log, len: u64) -> Step<Result<Seq<u8>, DiscError>> {
        match self.plan(len) {
            WbfsPlan::Zeros(n) => Step::Done(Ok(zero_bytes(n))),
            WbfsPlan::Stored { offset, n } => {
                let q = Query::Read { file: 0, offset: offset as u64, len: n as u64 };
                match log.known(q) {
                    None => Step::Ask(q),
                    Some(r) => if r.bytes().len() != n {
                        Step::Done(Err(DiscError::Read))
                    } else {
                        Step::Done(Ok(r.bytes()))
                    },
                }
            },
        }
    }
}

/// The bytes `got` are those of the disc from the current position on, where
/// the container holds the bytes `file`.
pub open spec fn gives_disc(v: WbfsView, got: Seq<u8>, file: Seq<u8>) -> bool {
    forall|k: int| 0 <= k < got.len() ==> got[k] == #[trigger] v.disc_byte(file, v.pos + k)
}

/// What a step to bytes holds.
pub open spec fn bytes_view(s: Step<Result<Vec<u8>, DiscError>>) -> Step<
    Result<Seq<u8>, DiscError>,
> {
    match s {
        Step::Ask(q) => Step::Ask(q),
        Step::Fault => Step::Fault,
        Step::Done(Ok(v)) => Step::Done(Ok(v@)),
        Step::Done(Err(e)) => Step::Done(Err(e)),
    }
}

fn power(s: u32) -> (r: u64)
    requires
        s <= 30,
    ensures
        r == pow2(s as nat),
        1 <= r <= 0x4000_0000,
{
    proof {
        vstd::arithmetic::power2::lemma2_to64();
        lemma_pow2_pos(s as nat);
        if s < 30 {
            vstd::arithmetic::power2::lemma_pow2_strictly_increases(s as nat, 30);
        }
        assert(1u64 * pow2(s as nat) <= u64::MAX);
        bits::lemma_u64_shl_is_mul(1u64, s as u64);
    }
    1u64 << (s as u64)
}

fn read_header(d: &[u8]) -> (r: Result<WbfsHeader, DiscError>)
    ensures
        r == wbfs_header(d@),
        r matches Ok(h) ==> h.wf(),
{
    if d.len() < 12 {
        return Err(DiscError::WbfsHeaderRead);
    }
    let p: [u8; 4] = [0x57, 0x42, 0x46, 0x53];
    assert(p@ =~= wbfs_magic());
    if !bytes::has_bytes(d, 0, &p) {
        return Err(DiscError::WbfsMagic);
    }
    let wbfs_sec_sz_s: u32 = d[9] as u32;
    if wbfs_sec_sz_s < WII_SEC_SZ_S || wbfs_sec_sz_s > 30 {
        return Err(DiscError::WbfsSectorShift(wbfs_sec_sz_s));
    }
    let s: u32 = if d[8] < 30 {
        d[8] as u32
    } else {
        30
    };
    let hd_sec_sz: u64 = power(s);
    if hd_sec_sz < 12 {
        return Err(DiscError::WbfsHdSector(hd_sec_sz));
    }
    Ok(WbfsHeader { hd_sec_sz, wbfs_sec_sz_s })
}

fn count_chunks(h: WbfsHeader) -> (r: u64)
    requires
        h.wf(),
    ensures
        r == h.chunks(),
        r <= WII_MAX_SECTORS,
{
    let by: u64 = power(h.wbfs_sec_sz_s - WII_SEC_SZ_S);
    proof {
        vstd::arithmetic::div_mod::lemma_div_is_ordered_by_denominator(
            WII_MAX_SECTORS as int,
            1,
            by as int,
        );
    }
    WII_MAX_SECTORS / by
}

fn find_disc(table: &[u8]) -> (r: Option<usize>)
    ensures
        r is Some <==> first_disc(table@, 0) < table@.len(),
        r matches Some(i) ==> i == first_disc(table@, 0) && i < table@.len(),
{
    let mut i: usize = 0;
    while i < table.len()
        invariant
            i <= table@.len(),
            first_disc(table@, 0) == first_disc(table@, i as int),
        decreases table@.len() - i,
    {
        if table[i] != 0 {
            return Some(i);
        }
        i += 1;
    }
    None
}

fn read_entries(d: &[u8]) -> (r: Vec<u16>)
    ensures
        r@ == chunk_entries(d@),
{
    let n: usize = d.len() / 2;
    let mut r: Vec<u16> = Vec::with_capacity(n);
    let mut i: usize = 0;
    while i < n
        invariant
            i <= n,
            n == d@.len() / 2,
            d@.len() <= usize::MAX,
            r@ == chunk_entries(d@).take(i as int),
        decreases n - i,
    {
        r.push(bytes::read_u16_be(d, 2 * i));
        assert(chunk_entries(d@).take(i + 1) =~= chunk_entries(d@).take(i as int).push(
            chunk_entries(d@)[i as int],
        ));
        i += 1;
    }
    assert(chunk_entries(d@).take(i as int) =~= chunk_entries(d@));
    r
}

fn table_position(h: WbfsHeader, n: u64, slot: u64) -> (r: u64)
    requires
        h.wf(),
        n == h.chunks(),
        n <= WII_MAX_SECTORS,
        slot < 512,
    ensures
        r == h.chunk_table(slot as int),
{
    let raw: u64 = 256 + n * 2;
    let up: u64 = raw + h.hd_sec_sz - 1;
    proof {
        vstd::arithmetic::div_mod::lemma_fundamental_div_mod(up as int, h.hd_sec_sz as int);
        vstd::arithmetic::mul::lemma_mul_is_commutative(
            up as int / h.hd_sec_sz as int,
            h.hd_sec_sz as int,
        );
        vstd::arithmetic::div_mod::lemma_mod_bound(up as int, h.hd_sec_sz as int);
        vstd::arithmetic::div_mod::lemma_div_pos_is_pos(up as int, h.hd_sec_sz as int);
        assert(0 <= up as int / h.hd_sec_sz as int * h.hd_sec_sz <= up);
    }
    let info: u64 = up / h.hd_sec_sz * h.hd_sec_sz;
    assert(0 <= slot * info <= 512 * info) by (nonlinear_arith)
        requires
            0 <= slot < 512,
            0 <= info,
    ;
    h.hd_sec_sz + slot * info + 0x100
}

impl WbfsReader {
    /// Finds the first disc of the container.
    pub fn open(log: &Log, cur: &mut usize) -> (r: Step<Result<WbfsReader, DiscError>>)
        requires
            log.wf(),
        ensures
            opened(r) == wbfs_image(*log),
            r matches Step::Done(Ok(reader)) ==> reader@.wf() && reader.pos == 0,
    {
        let head = Query::Read { file: 0, offset: 0, len: 12 };
        let h: WbfsHeader = match log.bytes(head, cur) {
            None => {
                return Step::Ask(head);
            },
            Some(d) => match read_header(d) {
                Err(e) => {
                    return Step::Done(Err(e));
                },
                Ok(h) => h,
            },
        };
        let table_bytes: u64 = if h.hd_sec_sz - 12 < 512 {
            h.hd_sec_sz - 12
        } else {
            512
        };
        let q = Query::Read { file: 0, offset: 12, len: table_bytes };
        let slot: usize = match log.bytes(q, cur) {
            None => {
                return Step::Ask(q);
            },
            Some(t) => {
                if t.len() as u64 != table_bytes {
                    return Step::Done(Err(DiscError::WbfsTableRead));
                }
                match find_disc(t) {
                    None => {
                        return Step::Done(Err(DiscError::WbfsNoDisc));
                    },
                    Some(i) => i,
                }
            },
        };
        let n: u64 = count_chunks(h);
        let offset: u64 = table_position(h, n, slot as u64);
        let q = Query::Read { file: 0, offset, len: n * 2 };
        match log.bytes(q, cur) {
            None => Step::Ask(q),
            Some(d) => {
                if d.len() as u64 != n * 2 {
                    return Step::Done(Err(DiscError::WbfsChunkRead));
                }
                let wbfs_sec_sz: u64 = power(h.wbfs_sec_sz_s);
                assert(0 <= n * wbfs_sec_sz <= 286_864 * 0x4000_0000) by (nonlinear_arith)
                    requires
                        0 <= n <= 286_864,
                        0 <= wbfs_sec_sz <= 0x4000_0000,
                ;
                let wlba_table = read_entries(d);
                assert(wlba_table@.len() == n);
                Step::Done(
                    Ok(
                        WbfsReader {
                            wbfs_sec_sz,
                            wlba_table,
                            disc_size: n * wbfs_sec_sz,
                            pos: 0,
                        },
                    ),
                )
            },
        }
    }

    /// The size of the disc.
    pub fn disc_size(&self) -> (r: u64)
        ensures
            r == self@.disc_size,
    {
        self.disc_size
    }

    /// Reads up to `len` bytes and moves behind them. Where every answer is
    /// true of one container, the bytes are those of its disc at their places.
    pub fn read(&mut self, log: &Log, cur: &mut usize, len: u64) -> (r: Step<
        Result<Vec<u8>, DiscError>,
    >)
        requires
            log.wf(),
            old(self)@.wf(),
        ensures
            bytes_view(r) == old(self)@.read_step(*log, len),
            final(self)@ == (WbfsView {
                pos: match r {
                    Step::Done(Ok(v)) => (old(self).pos + v@.len()) as u64,
                    _ => old(self).pos,
                },
                ..old(self)@
            }),
            final(self)@.wf(),
            r matches Step::Done(Ok(v)) ==> old(self).pos + v@.len() <= u64::MAX && v@.len()
                == old(self)@.read_len(len) && forall|file: Seq<u8>|
                device::tells(*log, 0, file) ==> #[trigger] gives_disc(old(self)@, v@, file),
    {
        let ghost before = self@;
        if len == 0 || self.pos >= self.disc_size {
            let v: Vec<u8> = Vec::new();
            assert(v@ =~= zero_bytes(0));
            return Step::Done(Ok(v));
        }
        let chunk: u64 = self.pos / self.wbfs_sec_sz;
        let off: u64 = self.pos % self.wbfs_sec_sz;
        proof {
            lemma_chunk_is_inside(self@, self.pos as int);
        }
        assert(chunk == self@.pos as int / self@.wbfs_sec_sz as int);
        assert(off == self@.pos as int % self@.wbfs_sec_sz as int);
        assert(chunk < self.wlba_table@.len() == self.wlba_table.len());
        let rest: u64 = self.wbfs_sec_sz - off;
        let n: u64 = if len < rest {
            len
        } else {
            rest
        };
        let place: u16 = self.wlba_table[chunk as usize];
        assert(n == self@.read_len(len));
        assert(place == self@.chunk_place(self.pos as int));
        let v: Vec<u8> = if place == 0 {
            zeros(n)
        } else {
            assert(0 <= place * self.wbfs_sec_sz <= 0xffff * 0x4000_0000) by (nonlinear_arith)
                requires
                    0 <= place <= 0xffff,
                    0 <= self.wbfs_sec_sz <= 0x4000_0000,
            ;
            let q = Query::Read { file: 0, offset: place as u64 * self.wbfs_sec_sz + off, len: n };
            match log.bytes(q, cur) {
                None => {
                    return Step::Ask(q);
                },
                Some(b) => {
                    if b.len() as u64 != n {
                        return Step::Done(Err(DiscError::Read));
                    }
                    let v = bytes::copy_range(b, 0, b.len());
                    assert(v@ =~= b@);
                    v
                },
            }
        };
        self.pos = self.pos + n;
        proof {
            assert forall|file: Seq<u8>| device::tells(*log, 0, file) implies #[trigger] gives_disc(
                before,
                v@,
                file,
            ) by {
                lemma_read_is_disc(before, file, len);
                match before.plan(len) {
                    WbfsPlan::Zeros(_) => {},
                    WbfsPlan::Stored { offset, n } => {
                        let q = Query::Read { file: 0, offset: offset as u64, len: n as u64 };
                        assert(log.known(q) is Some);
                        assert(v@ == file.subrange(offset, offset + n));
                    },
                }
                assert forall|k: int| 0 <= k < v@.len() implies v@[k]
                    == #[trigger] before.disc_byte(file, before.pos + k) by {}
            }
        }
        Step::Done(Ok(v))
    }

    /// Moves to another position and returns it.
    pub fn seek(&mut self, to: SeekTo) -> (r: u64)
        requires
            seek::can_seek(to),
        ensures
            r == seek::seek_position(to, old(self).pos, old(self).disc_size),
            final(self)@ == (WbfsView { pos: r, ..old(self)@ }),
    {
        let p: u64 = seek::seek_target(to, self.pos, self.disc_size);
        self.pos = p;
        p
    }
}

/// `n` zeros.
pub fn zeros(n: u64) -> (v: Vec<u8>)
    requires
        n <= 0x4000_0000,
    ensures
        v@ == zero_bytes(n as int),
{
    let mut v: Vec<u8> = Vec::new();
    let mut i: u64 = 0;
    while i < n
        invariant
            i <= n,
            v@ == zero_bytes(i as int),
        decreases n - i,
    {
        v.push(0);
        i += 1;
        assert(v@ =~= zero_bytes(i as int));
    }
    v
}

proof fn lemma_chunk_is_inside(v: WbfsView, p: int)
    requires
        v.wf(),
        0 <= p < v.disc_size,
    ensures
        0 <= p / v.wbfs_sec_sz as int,
        0 <= p % v.wbfs_sec_sz as int,
        p % (v.wbfs_sec_sz as int) < v.wbfs_sec_sz,
        p / (v.wbfs_sec_sz as int) < v.wlba_table.len(),
        p + (v.wbfs_sec_sz - p % v.wbfs_sec_sz as int) <= v.disc_size,
{
    let s = v.wbfs_sec_sz as int;
    let n = v.wlba_table.len() as int;
    let q = p / s;
    vstd::arithmetic::div_mod::lemma_fundamental_div_mod(p, s);
    vstd::arithmetic::div_mod::lemma_mod_bound(p, s);
    vstd::arithmetic::div_mod::lemma_div_pos_is_pos(p, s);
    assert(n * s == s * n) by (nonlinear_arith);
    if q >= n {
        vstd::arithmetic::mul::lemma_mul_inequality(n, q, s);
        assert(q * s == s * q) by (nonlinear_arith);
    }
    vstd::arithmetic::mul::lemma_mul_inequality(q + 1, n, s);
    assert((q + 1) * s == s * q + s) by (nonlinear_arith);
}

/// What a read gives is the disc: each byte of a plan is the byte of the disc
/// at its place, the plan is empty only at the end of the disc or where
/// nothing is asked for, and it does not reach beyond the disc.
pub proof fn lemma_read_is_disc(v: WbfsView, file: Seq<u8>, len: u64)
    requires
        v.wf(),
    ensures
        v.read_len(len) == 0 <==> len == 0 || v.pos >= v.disc_size,
        v.read_len(len) > 0 ==> v.pos + v.read_len(len) <= v.disc_size,
        forall|k: int|
            0 <= k < v.read_len(len) ==> #[trigger] v.disc_byte(file, v.pos + k) == match v.plan(
                len,
            ) {
                WbfsPlan::Zeros(n) => 0u8,
                WbfsPlan::Stored { offset, n } => file[offset + k],
            },
{
    if v.pos < v.disc_size {
        lemma_chunk_is_inside(v, v.pos as int);
        assert forall|k: int| 0 <= k < v.read_len(len) implies #[trigger] v.disc_byte(
            file,
            v.pos + k,
        ) == match v.plan(len) {
            WbfsPlan::Zeros(n) => 0u8,
            WbfsPlan::Stored { offset, n } => file[offset + k],
        } by {
            lemma_same_chunk(v.pos as int, k, v.wbfs_sec_sz as int);
        }
    }
}

proof fn lemma_same_chunk(p: int, k: int, s: int)
    requires
        0 < s,
        0 <= p,
        0 <= k < s - p % s,
    ensures
        (p + k) / s == p / s,
        (p + k) % s == p % s + k,
{
    let q = p / s;
    let r = p % s;
    assert(p == s * q + r) by {
        vstd::arithmetic::div_mod::lemma_fundamental_div_mod(p, s);
    }
    assert(0 <= r < s) by {
        vstd::arithmetic::div_mod::lemma_mod_bound(p, s);
    }
    vstd::arithmetic::div_mod::lemma_fundamental_div_mod_converse(p + k, s, q, r + k);
}

} // verus!
