//! Wii containers and partitions.
use aes::cipher::block_padding::NoPadding;
use aes::cipher::{BlockEncryptMut, KeyIvInit};
use disc_xplorer::device::{Log, Query, Reply, Step};
use disc_xplorer::error::DiscError;
use disc_xplorer::seek::SeekTo;
use disc_xplorer::wbfs_reader::WbfsReader;
use disc_xplorer::wii_partition::{decrypt_data, find_data_partition, WiiPartReader};

fn answer(file: &[u8], q: Query) -> Reply {
    match q {
        Query::Read { offset, len, .. } => {
            let end = offset.saturating_add(len);
            if end <= file.len() as u64 {
                Reply::Bytes(file[offset as usize..end as usize].to_vec())
            } else {
                Reply::Bytes(Vec::new())
            }
        }
        _ => Reply::Flag(false),
    }
}

fn run<T>(file: &[u8], mut f: impl FnMut(&Log, &mut usize) -> Step<T>) -> T {
    let mut log = Log::new();
    loop {
        let mut cur = 0;
        match f(&log, &mut cur) {
            Step::Ask(q) => log.answer(q, answer(file, q)),
            Step::Done(v) => return v,
            Step::Fault => panic!("fault"),
        }
    }
}

/// A container with 32 KiB chunks: chunk 0 of the disc is stored at place 40,
/// chunk 2 at place 41, the rest is not stored.
fn container() -> Vec<u8> {
    let mut d = vec![0u8; 42 * 0x8000];
    d[..4].copy_from_slice(b"WBFS");
    d[8] = 9;
    d[9] = 15;
    d[12 + 1] = 1;
    let chunks = 286_864usize;
    let info = (256 + chunks * 2 + 511) / 512 * 512;
    let table = 512 + info + 0x100;
    d[table..table + 2].copy_from_slice(&40u16.to_be_bytes());
    d[table + 4..table + 6].copy_from_slice(&41u16.to_be_bytes());
    for i in 0..0x8000 {
        d[40 * 0x8000 + i] = (i % 251) as u8;
        d[41 * 0x8000 + i] = 0xaa;
    }
    d
}

#[test]
fn wbfs_reads_stored_and_sparse_chunks() {
    let file = container();
    let mut r = run(&file, |l, c| WbfsReader::open(l, c)).unwrap();
    assert_eq!(r.disc_size(), 286_864 * 0x8000);
    let got = run(&file, |l, c| r.read(l, c, 10)).unwrap();
    assert_eq!(got, vec![0, 1, 2, 3, 4, 5, 6, 7, 8, 9]);
    assert_eq!(r.pos, 10);
    // A read ends at the end of a chunk.
    let got = run(&file, |l, c| r.read(l, c, 0x10000)).unwrap();
    assert_eq!(got.len(), 0x8000 - 10);
    assert_eq!(got[0], 10);
    let got = run(&file, |l, c| r.read(l, c, 5)).unwrap();
    assert_eq!(got, vec![0; 5]);
    assert_eq!(r.seek(SeekTo::Start(0x10000 + 7)), 0x10000 + 7);
    let got = run(&file, |l, c| r.read(l, c, 3)).unwrap();
    assert_eq!(got, vec![0xaa; 3]);
}

#[test]
fn wbfs_ends_at_the_disc() {
    let file = container();
    let mut r = run(&file, |l, c| WbfsReader::open(l, c)).unwrap();
    assert_eq!(r.seek(SeekTo::End(-2)), r.disc_size() - 2);
    assert_eq!(run(&file, |l, c| r.read(l, c, 9)).unwrap(), vec![0, 0]);
    assert_eq!(run(&file, |l, c| r.read(l, c, 9)).unwrap(), Vec::<u8>::new());
    assert_eq!(r.seek(SeekTo::Current(5)), r.disc_size() + 5);
    assert_eq!(run(&file, |l, c| r.read(l, c, 9)).unwrap(), Vec::<u8>::new());
    assert_eq!(r.seek(SeekTo::Current(i64::MIN + 1)), 0);
    assert_eq!(run(&file, |l, c| r.read(l, c, 0)).unwrap(), Vec::<u8>::new());
    assert_eq!(r.seek(SeekTo::Start(u64::MAX)), u64::MAX);
    assert_eq!(r.seek(SeekTo::Current(1)), u64::MAX);
}

#[test]
fn wbfs_errors() {
    let open = |d: &[u8]| run(d, |l, c| WbfsReader::open(l, c));
    assert_eq!(open(&[0; 4]), Err(DiscError::WbfsHeaderRead));
    assert_eq!(open(&[0; 12]), Err(DiscError::WbfsMagic));
    let head = |hd: u8, s: u8| {
        let mut d = vec![0u8; 600];
        d[..4].copy_from_slice(b"WBFS");
        d[8] = hd;
        d[9] = s;
        d
    };
    assert_eq!(open(&head(9, 14)), Err(DiscError::WbfsSectorShift(14)));
    assert_eq!(open(&head(9, 31)), Err(DiscError::WbfsSectorShift(31)));
    assert_eq!(open(&head(3, 18)), Err(DiscError::WbfsHdSector(8)));
    assert_eq!(open(&head(9, 18)[..100]), Err(DiscError::WbfsTableRead));
    assert_eq!(open(&head(9, 18)), Err(DiscError::WbfsNoDisc));
    let mut d = head(9, 18);
    d[12] = 1;
    assert_eq!(open(&d), Err(DiscError::WbfsChunkRead));
    let mut file = container();
    let mut r = run(&file, |l, c| WbfsReader::open(l, c)).unwrap();
    file.truncate(41 * 0x8000);
    r.seek(SeekTo::Start(0x10000));
    assert_eq!(run(&file, |l, c| r.read(l, c, 4)), Err(DiscError::Read));
    assert_eq!(r.pos, 0x10000);
}

const COMMON: [u8; 16] = [
    0xeb, 0xe4, 0x2a, 0x22, 0x5e, 0x85, 0x93, 0xe4, 0x48, 0xd9, 0xc5, 0x45, 0x73, 0x81, 0xaa, 0xf7,
];

fn encrypt(key: &[u8], iv: &[u8], data: &[u8]) -> Vec<u8> {
    let mut buf = data.to_vec();
    let n = buf.len();
    cbc::Encryptor::<aes::Aes128>::new_from_slices(key, iv)
        .unwrap()
        .encrypt_padded_mut::<NoPadding>(&mut buf, n)
        .unwrap();
    buf
}

fn plain_byte(p: usize) -> u8 {
    (p * 7 + p / 256) as u8
}

/// A disc with a data partition at 0x50000 whose two clusters begin at 0x58000.
fn disc() -> Vec<u8> {
    let mut d = vec![0u8; 0x58000 + 2 * 0x8000];
    let key: Vec<u8> = (1..17).collect();
    let mut iv = [0u8; 16];
    iv[..8].copy_from_slice(b"TITLE001");
    // The second group has two partitions, of which the second holds data.
    d[0x40008..0x4000c].copy_from_slice(&2u32.to_be_bytes());
    d[0x4000c..0x40010].copy_from_slice(&(0x40020u32 / 4).to_be_bytes());
    d[0x40020..0x40024].copy_from_slice(&9u32.to_be_bytes());
    d[0x40024..0x40028].copy_from_slice(&1u32.to_be_bytes());
    d[0x40028..0x4002c].copy_from_slice(&(0x50000u32 / 4).to_be_bytes());
    d[0x501bf..0x501cf].copy_from_slice(&encrypt(&COMMON, &iv, &key));
    d[0x501dc..0x501e4].copy_from_slice(b"TITLE001");
    d[0x502b8..0x502bc].copy_from_slice(&(0x8000u32 / 4).to_be_bytes());
    d[0x502bc..0x502c0].copy_from_slice(&((2 * 0x8000u32 + 100) / 4).to_be_bytes());
    for c in 0..2usize {
        let at = 0x58000 + c * 0x8000;
        let iv: Vec<u8> = (0..16).map(|i| (i * 3 + c) as u8).collect();
        d[at + 0x3d0..at + 0x3e0].copy_from_slice(&iv);
        let data: Vec<u8> = (0..0x7c00).map(|i| plain_byte(c * 0x7c00 + i)).collect();
        d[at + 0x400..at + 0x8000].copy_from_slice(&encrypt(&key, &iv, &data));
    }
    d
}

#[test]
fn wii_partition_reads_decrypted_bytes() {
    let file = disc();
    assert_eq!(run(&file, |l, c| find_data_partition(l, c)), Some(0x50000));
    let mut r = run(&file, |l, c| WiiPartReader::open(l, c)).unwrap();
    assert_eq!((r.data_start, r.virt_size), (0x58000, 2 * 0x7c00));
    assert_eq!(r.title_key, (1..17).collect::<Vec<u8>>());
    let mut all = Vec::new();
    loop {
        let got = run(&file, |l, c| r.read(l, c, 1000)).unwrap();
        if got.is_empty() {
            break;
        }
        all.extend(got);
    }
    assert_eq!(all.len(), 2 * 0x7c00);
    for (p, b) in all.iter().enumerate() {
        assert_eq!(*b, plain_byte(p));
    }
    assert_eq!(r.cache_idx, Some(1));
    assert_eq!(r.seek(SeekTo::Start(0x7bff)), 0x7bff);
    let got = run(&file, |l, c| r.read(l, c, 10)).unwrap();
    assert_eq!(got, vec![plain_byte(0x7bff)]);
    assert_eq!(r.seek(SeekTo::End(-1)), 2 * 0x7c00 - 1);
    assert_eq!(r.seek(SeekTo::Current(-1)), 2 * 0x7c00 - 2);
    assert_eq!(r.seek(SeekTo::End(-100_000_000)), 0);
}

#[test]
fn wii_errors() {
    let open = |d: &[u8]| run(d, |l, c| WiiPartReader::open(l, c));
    assert_eq!(open(&[0; 100]), Err(DiscError::WiiNoPartition));
    let file = disc();
    let mut none = file.clone();
    none[0x4002c] = 1;
    assert_eq!(open(&none), Err(DiscError::WiiNoPartition));
    assert_eq!(open(&file[..0x501c0]), Err(DiscError::WiiKeyRead));
    assert_eq!(open(&file[..0x501e0]), Err(DiscError::WiiTitleRead));
    assert_eq!(open(&file[..0x502b9]), Err(DiscError::WiiHeaderRead));
    let mut r = open(&file).unwrap();
    r.seek(SeekTo::Start(0x7c00));
    let cut = &file[..0x58000 + 0x9000];
    assert_eq!(run(cut, |l, c| r.read(l, c, 1)), Err(DiscError::WiiClusterRead));
    assert_eq!((r.pos, r.cache_idx), (0x7c00, None));
}

#[test]
fn wii_cluster_needs_a_whole_key() {
    let raw = vec![0u8; 0x8000];
    assert_eq!(decrypt_data(&[0; 15], &raw), None);
    let data = decrypt_data(&[0; 16], &raw).unwrap();
    assert_eq!(data.len(), 0x7c00);
    // AES-128 of a block of zeros under a key of zeros, undone.
    assert_eq!(encrypt(&[0; 16], &[0; 16], &data[..16]), vec![0u8; 16]);
    assert_ne!(data[..16], raw[..16]);
}
