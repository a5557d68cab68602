//! The data partition of a Wii disc, which is encrypted cluster by cluster.
//! The disc is file 0.
//!
//! A cluster of 0x8000 bytes holds 0x400 bytes of hashes and 0x7C00 bytes of
//! data. The data is encrypted with AES-128 in CBC mode under the title key,
//! and its initialisation vector stands among the hashes. The title key stands
//! in the partition's ticket, encrypted under a key that all discs share.
use crate::bytes;
use crate::device;
use crate::device::{Log, Query, Step};
use crate::error::DiscError;
use crate::seek;
use crate::seek::SeekTo;
use crate::wbfs_reader;
use aes::cipher::block_padding::NoPadding;
use aes::cipher::{BlockDecryptMut, KeyIvInit};
use vstd::prelude::*;

verus! {

/// Bytes of a cluster.
pub const CLUSTER_ENC: u64 = 0x8000;

/// Bytes of data in a cluster.
pub const CLUSTER_DATA: u64 = 0x7c00;

/// Bytes of hashes at the start of a cluster.
pub const HASH_SIZE: usize = 0x400;

/// Where the initialisation vector stands in a cluster.
pub const DATA_IV_OFF: usize = 0x3d0;

/// The key that title keys are encrypted under.
pub open spec fn common_key() -> Seq<u8> {
    seq![
        0xebu8,
        0xe4,
        0x2a,
        0x22,
        0x5e,
        0x85,
        0x93,
        0xe4,
        0x48,
        0xd9,
        0xc5,
        0x45,
        0x73,
        0x81,
        0xaa,
        0xf7,
    ]
}

/// What AES-128 in CBC mode decrypts `data` to, under `key` and from the
/// initialisation vector `iv` on.
pub uninterp spec fn aes128_cbc(key: Seq<u8>, iv: Seq<u8>, data: Seq<u8>) -> Seq<u8>;

/// `cbc::Decryptor<aes::Aes128>` without padding: `new_from_slices`, then
/// `decrypt_padded_mut::<NoPadding>`. The key and the initialisation vector
/// must have 16 bytes each, and the data must be whole blocks of 16 bytes;
/// nothing else makes it fail. The result is as long as the data and depends
/// on the three arguments alone. Which bytes it holds is not said.
#[verifier::external_body]
fn decrypt(key: &[u8], iv: &[u8], data: &[u8]) -> (r: Option<Vec<u8>>)
    ensures
        r.is_some() == (key@.len() == 16 && iv@.len() == 16 && data@.len() % 16 == 0),
        r.is_some() ==> r.unwrap()@ == aes128_cbc(key@, iv@, data@),
        r.is_some() ==> r.unwrap()@.len() == data@.len(),
{
    let cipher = cbc::Decryptor::<aes::Aes128>::new_from_slices(key, iv).ok()?;
    let mut out = data.to_vec();
    cipher.decrypt_padded_mut::<NoPadding>(&mut out).ok()?;
    Some(out)
}

// ── The partition table ──────────────────────────────────────────────────────

/// The offset of the data partition among the entries from `k` on of a table
/// of `n` entries at `at`. An entry is an offset in units of four bytes and a
/// type, which is 0 for data. A failed read ends the search with `None`; the
/// end of the table with `Some(None)`.
pub open spec fn table_search(log: Log, at: int, n: int, k: int) -> Step<Option<Option<u64>>>
    decreases n - k,
{
    let q = Query::Read { file: 0, offset: (at + 8 * k) as u64, len: 8 };
    if k >= n {
        Step::Done(Some(None))
    } else {
        match log.known(q) {
            None => Step::Ask(q),
            Some(r) => if r.bytes().len() < 8 {
                Step::Done(None)
            } else if bytes::be32(r.bytes(), 4) == 0 {
                Step::Done(Some(Some((bytes::be32(r.bytes(), 0) * 4) as u64)))
            } else {
                table_search(log, at, n, k + 1)
            },
        }
    }
}

/// The offset of the data partition in the tables from group `g` on. `hdr`
/// gives for each of the four groups the number of its entries and the offset
/// of its table in units of four bytes.
pub open spec fn group_search(log: Log, hdr: Seq<u8>, g: int) -> Step<Option<u64>>
    decreases 4 - g,
{
    if g >= 4 {
        Step::Done(None)
    } else {
        match table_search(
            log,
            bytes::be32(hdr, 8 * g + 4) * 4,
            bytes::be32(hdr, 8 * g),
            0,
        ) {
            Step::Ask(q) => Step::Ask(q),
            Step::Fault => Step::Fault,
            Step::Done(None) => Step::Done(None),
            Step::Done(Some(Some(offset))) => Step::Done(Some(offset)),
            Step::Done(Some(None)) => group_search(log, hdr, g + 1),
        }
    }
}

/// The offset of the data partition of a disc.
pub open spec fn data_partition(log: Log) -> Step<Option<u64>> {
    let q = Query::Read { file: 0, offset: 0x40000, len: 32 };
    match log.known(q) {
        None => Step::Ask(q),
        Some(r) => if r.bytes().len() < 32 {
            Step::Done(None)
        } else {
            group_search(log, r.bytes(), 0)
        },
    }
}

fn search_table(log: &Log, cur: &mut usize, at: u64, n: u32) -> (r: Step<Option<Option<u64>>>)
    requires
        log.wf(),
        at <= 0x4_0000_0000,
    ensures
        r == table_search(*log, at as int, n as int, 0),
        r matches Step::Done(Some(Some(o))) ==> o <= 0x4_0000_0000,
{
    let mut k: u32 = 0;
    while k < n
        invariant
            k <= n,
            at <= 0x4_0000_0000,
            log.wf(),
            table_search(*log, at as int, n as int, 0) == table_search(
                *log,
                at as int,
                n as int,
                k as int,
            ),
        decreases n - k,
    {
        let q = Query::Read { file: 0, offset: at + 8 * k as u64, len: 8 };
        match log.bytes(q, cur) {
            None => {
                return Step::Ask(q);
            },
            Some(b) => {
                if b.len() < 8 {
                    return Step::Done(None);
                }
                if bytes::read_u32_be(b, 4) == 0 {
                    return Step::Done(Some(Some(bytes::read_u32_be(b, 0) as u64 * 4)));
                }
            },
        }
        k += 1;
    }
    Step::Done(Some(None))
}

/// Finds the data partition of a disc.
pub fn find_data_partition(log: &Log, cur: &mut usize) -> (r: Step<Option<u64>>)
    requires
        log.wf(),
    ensures
        r == data_partition(*log),
        r matches Step::Done(Some(o)) ==> o <= 0x4_0000_0000,
{
    let q = Query::Read { file: 0, offset: 0x40000, len: 32 };
    let hdr: &[u8] = match log.bytes(q, cur) {
        None => {
            return Step::Ask(q);
        },
        Some(b) => b,
    };
    if hdr.len() < 32 {
        return Step::Done(None);
    }
    let mut g: usize = 0;
    while g < 4
        invariant
            g <= 4,
            hdr@.len() >= 32,
            log.wf(),
            group_search(*log, hdr@, 0) == group_search(*log, hdr@, g as int),
            data_partition(*log) == group_search(*log, hdr@, 0),
        decreases 4 - g,
    {
        let n: u32 = bytes::read_u32_be(hdr, 8 * g);
        let at: u64 = bytes::read_u32_be(hdr, 8 * g + 4) as u64 * 4;
        match search_table(log, cur, at, n) {
            Step::Ask(q) => {
                return Step::Ask(q);
            },
            Step::Fault => {
                return Step::Fault;
            },
            Step::Done(None) => {
                return Step::Done(None);
            },
            Step::Done(Some(Some(offset))) => {
                return Step::Done(Some(offset));
            },
            Step::Done(Some(None)) => {},
        }
        g += 1;
    }
    Step::Done(None)
}

// ── The reader ───────────────────────────────────────────────────────────────

/// Reads the data partition of a disc, decrypted.
#[derive(PartialEq, Eq, Debug)]
pub struct WiiPartReader {
    /// Byte offset of the first cluster.
    pub data_start: u64,
    /// Bytes of decrypted data.
    pub virt_size: u64,
    pub title_key: Vec<u8>,
    pub pos: u64,
    /// The cluster that `cache_buf` holds the data of.
    pub cache_idx: Option<u64>,
    pub cache_buf: Vec<u8>,
}

/// What a reader holds.
pub struct WiiView {
    pub data_start: u64,
    pub virt_size: u64,
    pub title_key: Seq<u8>,
    pub pos: u64,
    pub cache_idx: Option<u64>,
    pub cache_buf: Seq<u8>,
}

impl View for WiiPartReader {
    type V = WiiView;

    open spec fn view(&self) -> WiiView {
        WiiView {
            data_start: self.data_start,
            virt_size: self.virt_size,
            title_key: self.title_key@,
            pos: self.pos,
            cache_idx: self.cache_idx,
            cache_buf: self.cache_buf@,
        }
    }
}

/// The initialisation vector of a title key: the title's number, then zeros.
pub open spec fn title_iv(id: Seq<u8>) -> Seq<u8> {
    id.take(8) + wbfs_reader::zero_bytes(8)
}

/// A reader of the partition at `part`, whose ticket and header have been
/// read. The header gives the offset and the size of the data in units of four
/// bytes.
pub open spec fn wii_reader(part: u64, enc_key: Seq<u8>, id: Seq<u8>, head: Seq<u8>) -> WiiView {
    WiiView {
        data_start: (part + bytes::be32(head, 0) * 4) as u64,
        virt_size: (bytes::be32(head, 4) * 4 / CLUSTER_ENC as int * CLUSTER_DATA) as u64,
        title_key: aes128_cbc(common_key(), title_iv(id), enc_key),
        pos: 0,
        cache_idx: None,
        cache_buf: wbfs_reader::zero_bytes(CLUSTER_DATA as int),
    }
}

/// The bytes at `offset` of the disc; `error` where the read fails.
pub open spec fn disc_bytes(log: Log, offset: u64, len: u64, error: DiscError) -> Step<
    Result<Seq<u8>, DiscError>,
> {
    let q = Query::Read { file: 0, offset, len };
    match log.known(q) {
        None => Step::Ask(q),
        Some(r) => if r.bytes().len() != len {
            Step::Done(Err(error))
        } else {
            Step::Done(Ok(r.bytes()))
        },
    }
}

fn ask_bytes<'a>(log: &'a Log, cur: &mut usize, offset: u64, len: u64, error: DiscError) -> (r:
    Step<Result<&'a [u8], DiscError>>)
    requires
        log.wf(),
    ensures
        match r {
            Step::Ask(q) => disc_bytes(*log, offset, len, error) == Step::<
                Result<Seq<u8>, DiscError>,
            >::Ask(q),
            Step::Fault => false,
            Step::Done(Ok(b)) => disc_bytes(*log, offset, len, error) == Step::Done(
                Ok::<Seq<u8>, DiscError>(b@),
            ) && b@.len() == len,
            Step::Done(Err(e)) => disc_bytes(*log, offset, len, error) == Step::Done(
                Err::<Seq<u8>, DiscError>(e),
            ),
        },
{
    let q = Query::Read { file: 0, offset, len };
    match log.bytes(q, cur) {
        None => Step::Ask(q),
        Some(b) => if b.len() as u64 != len {
            Step::Done(Err(error))
        } else {
            Step::Done(Ok(b))
        },
    }
}

/// A reader of the partition at `part`: the encrypted title key is read first,
/// then the title's number, then the partition's header.
pub open spec fn wii_partition(log: Log, part: u64) -> Step<Result<WiiView, DiscError>> {
    match disc_bytes(log, (part + 0x1bf) as u64, 16, DiscError::WiiKeyRead) {
        Step::Ask(q) => Step::Ask(q),
        Step::Fault => Step::Fault,
        Step::Done(Err(e)) => Step::Done(Err(e)),
        Step::Done(Ok(key)) => match disc_bytes(
            log,
            (part + 0x1dc) as u64,
            8,
            DiscError::WiiTitleRead,
        ) {
            Step::Ask(q) => Step::Ask(q),
            Step::Fault => Step::Fault,
            Step::Done(Err(e)) => Step::Done(Err(e)),
            Step::Done(Ok(id)) => match disc_bytes(
                log,
                (part + 0x2b8) as u64,
                8,
                DiscError::WiiHeaderRead,
            ) {
                Step::Ask(q) => Step::Ask(q),
                Step::Fault => Step::Fault,
                Step::Done(Err(e)) => Step::Done(Err(e)),
                Step::Done(Ok(head)) => Step::Done(Ok(wii_reader(part, key, id, head))),
            },
        },
    }
}

/// A reader of the data partition of a disc.
pub open spec fn wii_disc(log: Log) -> Step<Result<WiiView, DiscError>> {
    match data_partition(log) {
        Step::Ask(q) => Step::Ask(q),
        Step::Fault => Step::Fault,
        Step::Done(None) => Step::Done(Err(DiscError::WiiNoPartition)),
        Step::Done(Some(part)) => wii_partition(log, part),
    }
}

/// What a step to a reader holds.
pub open spec fn opened(s: Step<Result<WiiPartReader, DiscError>>) -> Step<
    Result<WiiView, DiscError>,
> {
    match s {
        Step::Ask(q) => Step::Ask(q),
        Step::Fault => Step::Fault,
        Step::Done(Ok(r)) => Step::Done(Ok(r@)),
        Step::Done(Err(e)) => Step::Done(Err(e)),
    }
}

/// The data of a cluster, decrypted.
pub open spec fn cluster_data(key: Seq<u8>, raw: Seq<u8>) -> Seq<u8> {
    aes128_cbc(
        key,
        raw.subrange(DATA_IV_OFF as int, DATA_IV_OFF + 16),
        raw.skip(HASH_SIZE as int),
    )
}

/// Decrypts the data of a cluster under a title key. `None` where the key does
/// not have 16 bytes.
pub fn decrypt_data(key: &[u8], raw: &[u8]) -> (r: Option<Vec<u8>>)
    requires
        raw@.len() == CLUSTER_ENC,
    ensures
        r is Some <==> key@.len() == 16,
        r matches Some(v) ==> v@ == cluster_data(key@, raw@) && v@.len() == CLUSTER_DATA,
{
    let iv = bytes::copy_range(raw, DATA_IV_OFF, DATA_IV_OFF + 16);
    let data = bytes::copy_range(raw, HASH_SIZE, raw.len());
    assert(data@ =~= raw@.skip(HASH_SIZE as int));
    decrypt(key, iv.as_slice(), data.as_slice())
}

impl WiiView {
    /// The sizes are in range.
    pub open spec fn wf(self) -> bool {
        &&& self.data_start <= 0x8_0000_0000
        &&& self.virt_size <= 0x4_0000_0000
        &&& self.title_key.len() == 16
        &&& self.cache_buf.len() == CLUSTER_DATA
    }

    /// The cluster that holds the current position.
    pub open spec fn cluster(self) -> int {
        self.pos as int / CLUSTER_DATA as int
    }

    /// How many bytes a read of up to `len` bytes gives: it ends at the end of
    /// the cluster and at the end of the partition.
    pub open spec fn read_len(self, len: u64) -> int {
        let rest = CLUSTER_DATA - self.pos as int % CLUSTER_DATA as int;
        let left = self.virt_size - self.pos;
        if self.pos >= self.virt_size {
            0
        } else if len <= rest && len <= left {
            len as int
        } else if rest <= left {
            rest
        } else {
            left
        }
    }

    /// The data of cluster `c`: as it is held, else decrypted from the disc.
    pub open spec fn cluster_step(self, log: Log, c: int) -> Step<Result<Seq<u8>, DiscError>> {
        if self.cache_idx == Some(c as u64) {
            Step::Done(Ok(self.cache_buf))
        } else {
            match disc_bytes(
                log,
                (self.data_start + c * CLUSTER_ENC) as u64,
                CLUSTER_ENC,
                DiscError::WiiClusterRead,
            ) {
                Step::Ask(q) => Step::Ask(q),
                Step::Fault => Step::Fault,
                Step::Done(Err(e)) => Step::Done(Err(e)),
                Step::Done(Ok(raw)) => Step::Done(Ok(cluster_data(self.title_key, raw))),
            }
        }
    }

    /// A read of up to `len` bytes: the bytes, and the reader behind them. A
    /// reader that gives no bytes stays as it is.
    pub open spec fn read_step(self, log: Log, len: u64) -> (
        Step<Result<Seq<u8>, DiscError>>,
        WiiView,
    ) {
        let n = self.read_len(len);
        let off = self.pos as int % CLUSTER_DATA as int;
        if n == 0 {
            (Step::Done(Ok(Seq::empty())), self)
        } else {
            match self.cluster_step(log, self.cluster()) {
                Step::Done(Ok(data)) => (
                    Step::Done(Ok(data.subrange(off, off + n))),
                    WiiView {
                        pos: (self.pos + n) as u64,
                        cache_idx: Some(self.cluster() as u64),
                        cache_buf: data,
                        ..self
                    },
                ),
                s => (s, self),
            }
        }
    }

    /// Byte `p` of the partition, where the disc holds the bytes `disc`.
    pub open spec fn part_byte(self, disc: Seq<u8>, p: int) -> u8 {
        let c = p / CLUSTER_DATA as int;
        let at = self.data_start + c * CLUSTER_ENC;
        cluster_data(self.title_key, disc.subrange(at, at + CLUSTER_ENC))[p % CLUSTER_DATA as int]
    }

    /// What is held of a cluster is what the disc holds.
    pub open spec fn cache_is(self, disc: Seq<u8>) -> bool {
        self.cache_idx matches Some(c) ==> {
            let at = self.data_start + c * CLUSTER_ENC;
            self.cache_buf == cluster_data(
                self.title_key,
                disc.subrange(at, at + CLUSTER_ENC),
            )
        }
    }
}

/// The bytes `got` are those of the partition from the current position on,
/// and what is held of a cluster afterwards is what the disc holds.
pub open spec fn gives_partition(v: WiiView, after: WiiView, got: Seq<u8>, disc: Seq<u8>) -> bool {
    &&& after.cache_is(disc)
    &&& forall|k: int| 0 <= k < got.len() ==> got[k] == #[trigger] v.part_byte(disc, v.pos + k)
}

proof fn lemma_read_is_partition(v: WiiView, log: Log, disc: Seq<u8>, len: u64)
    requires
        v.wf(),
        v.cache_is(disc),
        device::tells(log, 0, disc),
        v.read_step(log, len).1.wf(),
    ensures
        v.read_step(log, len).1.cache_is(disc),
        v.read_step(log, len).0 matches Step::Done(Ok(got)) ==> got.len() == v.read_len(len)
            && forall|k: int|
            0 <= k < got.len() ==> got[k] == #[trigger] v.part_byte(disc, v.pos + k),
{
    let n = v.read_len(len);
    let c = v.cluster();
    let off = v.pos as int % CLUSTER_DATA as int;
    if n > 0 {
        assert(0 <= c <= 0x10_0000 && 0 <= off);
        let at = v.data_start + c * CLUSTER_ENC;
        assert(at + CLUSTER_ENC <= u64::MAX);
        match v.cluster_step(log, c) {
            Step::Done(Ok(data)) => {
                if v.cache_idx != Some(c as u64) {
                    let q = Query::Read { file: 0, offset: at as u64, len: CLUSTER_ENC };
                    assert(log.known(q) is Some);
                    assert(data == cluster_data(
                        v.title_key,
                        disc.subrange(at, at + CLUSTER_ENC),
                    ));
                }
                let got = data.subrange(off, off + n);
                assert forall|k: int| 0 <= k < n implies got[k] == #[trigger] v.part_byte(
                    disc,
                    v.pos + k,
                ) by {
                    assert((v.pos + k) / (CLUSTER_DATA as int) == c);
                    assert((v.pos + k) % (CLUSTER_DATA as int) == off + k);
                }
            },
            _ => {},
        }
    }
}

impl WiiPartReader {
    /// Opens the data partition of a disc.
    pub fn open(log: &Log, cur: &mut usize) -> (r: Step<Result<WiiPartReader, DiscError>>)
        requires
            log.wf(),
        ensures
            opened(r) == wii_disc(*log),
            r matches Step::Done(Ok(reader)) ==> reader@.wf(),
    {
        let part: u64 = match find_data_partition(log, cur) {
            Step::Ask(q) => {
                return Step::Ask(q);
            },
            Step::Fault => {
                return Step::Fault;
            },
            Step::Done(None) => {
                return Step::Done(Err(DiscError::WiiNoPartition));
            },
            Step::Done(Some(p)) => p,
        };
        let enc_key: &[u8] = match ask_bytes(log, cur, part + 0x1bf, 16, DiscError::WiiKeyRead) {
            Step::Ask(q) => {
                return Step::Ask(q);
            },
            Step::Fault => {
                return Step::Fault;
            },
            Step::Done(Err(e)) => {
                return Step::Done(Err(e));
            },
            Step::Done(Ok(b)) => b,
        };
        let id: &[u8] = match ask_bytes(log, cur, part + 0x1dc, 8, DiscError::WiiTitleRead) {
            Step::Ask(q) => {
                return Step::Ask(q);
            },
            Step::Fault => {
                return Step::Fault;
            },
            Step::Done(Err(e)) => {
                return Step::Done(Err(e));
            },
            Step::Done(Ok(b)) => b,
        };
        let head: &[u8] = match ask_bytes(log, cur, part + 0x2b8, 8, DiscError::WiiHeaderRead) {
            Step::Ask(q) => {
                return Step::Ask(q);
            },
            Step::Fault => {
                return Step::Fault;
            },
            Step::Done(Err(e)) => {
                return Step::Done(Err(e));
            },
            Step::Done(Ok(b)) => b,
        };
        let key: [u8; 16] = [
            0xeb,
            0xe4,
            0x2a,
            0x22,
            0x5e,
            0x85,
            0x93,
            0xe4,
            0x48,
            0xd9,
            0xc5,
            0x45,
            0x73,
            0x81,
            0xaa,
            0xf7,
        ];
        assert(key@ =~= common_key());
        let iv: [u8; 16] = [
            id[0],
            id[1],
            id[2],
            id[3],
            id[4],
            id[5],
            id[6],
            id[7],
            0,
            0,
            0,
            0,
            0,
            0,
            0,
            0,
        ];
        assert(iv@ =~= title_iv(id@));
        let title_key: Vec<u8> = match decrypt(&key, &iv, enc_key) {
            None => {
                return Step::Done(Err(DiscError::WiiKeyDecrypt));
            },
            Some(k) => k,
        };
        let data_start: u64 = part + bytes::read_u32_be(head, 0) as u64 * 4;
        let data_size: u64 = bytes::read_u32_be(head, 4) as u64 * 4;
        let virt_size: u64 = data_size / CLUSTER_ENC * CLUSTER_DATA;
        let cache_buf = wbfs_reader::zeros(CLUSTER_DATA);
        Step::Done(
            Ok(
                WiiPartReader {
                    data_start,
                    virt_size,
                    title_key,
                    pos: 0,
                    cache_idx: None,
                    cache_buf,
                },
            ),
        )
    }

    fn decrypt_cluster(&mut self, log: &Log, cur: &mut usize, idx: u64) -> (r: Step<
        Result<(), DiscError>,
    >)
        requires
            log.wf(),
            old(self)@.wf(),
            old(self).cache_idx != Some(idx),
            idx <= 0x10_0000,
        ensures
            match r {
                Step::Ask(q) => old(self)@.cluster_step(*log, idx as int) == Step::<
                    Result<Seq<u8>, DiscError>,
                >::Ask(q) && final(self)@ == old(self)@,
                Step::Fault => false,
                Step::Done(Err(e)) => old(self)@.cluster_step(*log, idx as int) == Step::Done(
                    Err::<Seq<u8>, DiscError>(e),
                ) && final(self)@ == old(self)@,
                Step::Done(Ok(())) => old(self)@.cluster_step(*log, idx as int) == Step::Done(
                    Ok::<Seq<u8>, DiscError>(final(self).cache_buf@),
                ) && final(self)@ == (WiiView {
                    cache_idx: Some(idx),
                    cache_buf: final(self).cache_buf@,
                    ..old(self)@
                }) && final(self)@.wf(),
            },
    {
        let raw: &[u8] = match ask_bytes(
            log,
            cur,
            self.data_start + idx * CLUSTER_ENC,
            CLUSTER_ENC,
            DiscError::WiiClusterRead,
        ) {
            Step::Ask(q) => {
                return Step::Ask(q);
            },
            Step::Fault => {
                return Step::Fault;
            },
            Step::Done(Err(e)) => {
                return Step::Done(Err(e));
            },
            Step::Done(Ok(b)) => b,
        };
        match decrypt_data(self.title_key.as_slice(), raw) {
            None => Step::Done(Err(DiscError::WiiDataDecrypt)),
            Some(data) => {
                self.cache_buf = data;
                self.cache_idx = Some(idx);
                Step::Done(Ok(()))
            },
        }
    }

    /// Reads up to `len` bytes and moves behind them. Whatever was read before,
    /// the bytes are those of the partition at their places: where what is held
    /// of a cluster and every answer are true of one disc, what is read is true
    /// of that disc.
    pub fn read(&mut self, log: &Log, cur: &mut usize, len: u64) -> (r: Step<
        Result<Vec<u8>, DiscError>,
    >)
        requires
            log.wf(),
            old(self)@.wf(),
        ensures
            wbfs_reader::bytes_view(r) == old(self)@.read_step(*log, len).0,
            final(self)@ == old(self)@.read_step(*log, len).1,
            final(self)@.wf(),
            r matches Step::Done(Ok(got)) ==> got@.len() == old(self)@.read_len(len) && forall|
                disc: Seq<u8>,
            |
                old(self)@.cache_is(disc) && device::tells(*log, 0, disc) ==> #[trigger] gives_partition(
                    old(self)@,
                    final(self)@,
                    got@,
                    disc,
                ),
    {
        let ghost before = self@;
        if len == 0 || self.pos >= self.virt_size {
            let v: Vec<u8> = Vec::new();
            assert(v@ =~= Seq::empty());
            return Step::Done(Ok(v));
        }
        let c: u64 = self.pos / CLUSTER_DATA;
        let off: u64 = self.pos % CLUSTER_DATA;
        let held: bool = match self.cache_idx {
            Some(i) => i == c,
            None => false,
        };
        if !held {
            match self.decrypt_cluster(log, cur, c) {
                Step::Ask(q) => {
                    return Step::Ask(q);
                },
                Step::Fault => {
                    return Step::Fault;
                },
                Step::Done(Err(e)) => {
                    return Step::Done(Err(e));
                },
                Step::Done(Ok(())) => {},
            }
        }
        let rest: u64 = CLUSTER_DATA - off;
        let left: u64 = self.virt_size - self.pos;
        let n: u64 = if len <= rest && len <= left {
            len
        } else if rest <= left {
            rest
        } else {
            left
        };
        let v = bytes::copy_range(self.cache_buf.as_slice(), off as usize, (off + n) as usize);
        self.pos = self.pos + n;
        proof {
            assert(self@ == before.read_step(*log, len).1);
            assert forall|disc: Seq<u8>|
                before.cache_is(disc) && device::tells(*log, 0, disc) implies #[trigger] gives_partition(
                before,
                self@,
                v@,
                disc,
            ) by {
                lemma_read_is_partition(before, *log, disc, len);
            }
        }
        Step::Done(Ok(v))
    }

    /// Moves to another position and returns it.
    pub fn seek(&mut self, to: SeekTo) -> (r: u64)
        requires
            seek::can_seek(to),
        ensures
            r == seek::seek_position(to, old(self).pos, old(self).virt_size),
            final(self)@ == (WiiView { pos: r, ..old(self)@ }),
    {
        let p: u64 = seek::seek_target(to, self.pos, self.virt_size);
        self.pos = p;
        p
    }
}

} // verus!
