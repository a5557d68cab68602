//! Audio tracks and their samples.
use crate::audio;
use crate::audio::AudioFormat;
use crate::bytes;
use crate::laws;
use crate::track::TrackInfoView;
use vstd::prelude::*;

verus! {

proof fn lemma_index(tracks: Seq<TrackInfoView>, number: u32, i: int, k: int)
    requires
        0 <= i <= k <= tracks.len(),
        forall|j: int|
            i <= j < k ==> (#[trigger] tracks[j]).number != number || tracks[j].is_data,
        k < tracks.len() ==> tracks[k].number == number && !tracks[k].is_data,
    ensures
        audio::audio_index(tracks, number, i) == k,
    decreases k - i,
{
    if i < k {
        lemma_index(tracks, number, i + 1, k);
    }
}

/// The audio track with a number is the first track of the list with that number
/// that is no data track, at `k`; where `k` is the end of the list there is none.
pub proof fn lemma_audio_track(tracks: Seq<TrackInfoView>, number: u32, k: int)
    requires
        0 <= k <= tracks.len(),
        forall|j: int|
            0 <= j < k ==> (#[trigger] tracks[j]).number != number || tracks[j].is_data,
        k < tracks.len() ==> tracks[k].number == number && !tracks[k].is_data,
    ensures
        audio::audio_index(tracks, number, 0) == k,
{
    lemma_index(tracks, number, 0, k);
}

/// A sector holds 2352 bytes of samples: track `u` begins so many bytes behind track
/// `t` as there are sectors between them, and a track that follows another on the disc
/// follows it in the file. A track has a place exactly where both are within 64 bits.
pub proof fn lemma_spans(t: TrackInfoView, u: TrackInfoView)
    ensures
        audio::source_span(t) is Some <==> t.start_lba * 2352 <= 0xffff_ffff_ffff_ffff
            && t.num_sectors * 2352 <= 0xffff_ffff_ffff_ffff,
        audio::source_span(t) matches Some(a) ==> a.0 == t.start_lba * 2352 && a.1 == t.num_sectors
            * 2352,
        audio::source_span(t) matches Some(a) ==> (audio::source_span(u) matches Some(b) ==> {
            &&& b.0 - a.0 == (u.start_lba - t.start_lba) * 2352
            &&& u.start_lba == t.start_lba + t.num_sectors ==> b.0 == a.0 + a.1
        }),
{
}

/// The formats have these names and no others; what has another name is WAV.
pub proof fn lemma_formats(name: Seq<char>)
    ensures
        audio::format_named(name) == AudioFormat::Flac <==> name == seq!['f', 'l', 'a', 'c'],
        audio::format_named(name) == AudioFormat::Mp3 <==> name == seq!['m', 'p', '3'],
        audio::format_named(name) == AudioFormat::Wav <==> name != seq!['f', 'l', 'a', 'c'] && name
            != seq!['m', 'p', '3'],
{
    reveal_strlit("flac");
    reveal_strlit("mp3");
    assert("flac"@ =~= seq!['f', 'l', 'a', 'c']);
    assert("mp3"@ =~= seq!['m', 'p', '3']);
    assert("flac"@.len() != "mp3"@.len());
}

/// The header gives the number of bytes of samples modulo 2 to the 32nd, where 36 more
/// still fit in 32 bits.
pub proof fn lemma_size(total: u64)
    ensures
        ({
            let n = total as int % 0x1_0000_0000;
            &&& n + 36 <= 0xffff_ffff ==> (audio::header_size(total) matches Some(m) && m == n)
            &&& n + 36 > 0xffff_ffff ==> audio::header_size(total) is None
        }),
{
    assert(total as u32 == total % 0x1_0000_0000u64) by (bit_vector);
}

/// The samples are read in chunks of 1048576 bytes, and what is left at the end.
pub proof fn lemma_chunks(total: u64, k: int)
    requires
        0 <= k < audio::chunk_lengths(total).len(),
    ensures
        k + 1 < audio::chunk_lengths(total).len() ==> audio::chunk_lengths(total)[k] == 1048576,
        k + 1 == audio::chunk_lengths(total).len() ==> audio::chunk_lengths(total)[k] + k * 1048576
            == total && 0 < audio::chunk_lengths(total)[k] <= 1048576,
    decreases total,
{
    if total > 0 {
        let n = audio::next_len(total);
        let rest = (total - n) as u64;
        let all = audio::chunk_lengths(total);
        let later = audio::chunk_lengths(rest);
        assert(all =~= seq![n] + later);
        if k > 0 {
            lemma_chunks(rest, k - 1);
            assert(all[k] == later[k - 1]);
            assert(rest > 0);
        } else if later.len() > 0 {
            assert(rest > 0);
        } else {
            assert(rest == 0) by {
                if rest > 0 {
                    assert(audio::chunk_lengths(rest).len() > 0);
                }
            }
        }
    }
}

/// The header of a WAV file: its tags, and what it tells of the samples.
pub proof fn lemma_wav(size: u32)
    requires
        size <= u32::MAX - 36,
    ensures
        ({
            let h = audio::wav_header(size);
            &&& h.len() == 44
            &&& laws::letters(h, 0, 0x52, 0x49, 0x46, 0x46)
            &&& bytes::le32(h, 4) == size + 36
            &&& laws::letters(h, 8, 0x57, 0x41, 0x56, 0x45)
            &&& laws::letters(h, 12, 0x66, 0x6d, 0x74, 0x20)
            &&& bytes::le32(h, 16) == 16
            &&& bytes::le16(h, 20) == 1
            &&& bytes::le16(h, 22) == 2
            &&& bytes::le32(h, 24) == 44100
            &&& bytes::le32(h, 28) == 44100 * bytes::le16(h, 32)
            &&& bytes::le16(h, 32) * 8 == bytes::le16(h, 22) * bytes::le16(h, 34)
            &&& bytes::le16(h, 34) == 16
            &&& laws::letters(h, 36, 0x64, 0x61, 0x74, 0x61)
            &&& bytes::le32(h, 40) == size
        }),
{
    let h = audio::wav_header(size);
    audio::lemma_wav_header(size);
    let a = bytes::le32_bytes(16);
    let b = bytes::le16_bytes(1);
    let c = bytes::le16_bytes(2);
    let d = bytes::le32_bytes(44100);
    let e = bytes::le32_bytes(176400);
    let f = bytes::le16_bytes(4);
    let g = bytes::le16_bytes(16);
    bytes::lemma_le32_reads_back(16, h.take(16), h.skip(20));
    assert(h =~= h.take(16) + a + h.skip(20));
    bytes::lemma_le32_reads_back(44100, h.take(24), h.skip(28));
    assert(h =~= h.take(24) + d + h.skip(28));
    bytes::lemma_le32_reads_back(176400, h.take(28), h.skip(32));
    assert(h =~= h.take(28) + e + h.skip(32));
    assert(h[20] == b[0] && h[21] == b[1] && h[22] == c[0] && h[23] == c[1]);
    assert(h[32] == f[0] && h[33] == f[1] && h[34] == g[0] && h[35] == g[1]);
    assert(176400 == 44100 * 4);
}

/// The bytes of a number, the least significant one first.
pub proof fn lemma_bytes(v: u32, w: u16)
    ensures
        bytes::le32_bytes(v).len() == 4,
        bytes::le32_bytes(v)[0] + 256 * (bytes::le32_bytes(v)[1] + 256 * (bytes::le32_bytes(v)[2]
            + 256 * bytes::le32_bytes(v)[3])) == v,
        bytes::le16_bytes(w).len() == 2,
        bytes::le16_bytes(w)[0] + 256 * bytes::le16_bytes(w)[1] == w,
{
}

/// What the bytes of a number are worth, in both orders.
pub proof fn lemma_orders(s: Seq<u8>, o: int)
    ensures
        bytes::le16(s, o) == s[o] + 256 * s[o + 1],
        bytes::be16(s, o) == s[o + 1] + 256 * s[o],
        bytes::le32(s, o) == bytes::le16(s, o) + 65536 * bytes::le16(s, o + 2),
        bytes::be32(s, o) == bytes::be16(s, o + 2) + 65536 * bytes::be16(s, o),
        bytes::le64(s, o) == bytes::le32(s, o) + 4294967296 * bytes::le32(s, o + 4),
        bytes::be64(s, o) == bytes::be32(s, o + 4) + 4294967296 * bytes::be32(s, o),
{
}

/// Each two bytes are a signed sample in two's complement, the least significant
/// byte first, and each four a frame of a left and a right one.
pub proof fn lemma_samples(raw: Seq<u8>, i: int)
    ensures
        audio::samples(raw).len() == raw.len() / 2,
        audio::frames(raw).len() == raw.len() / 4,
        0 <= i < raw.len() / 2 ==> {
            let v = audio::samples(raw)[i] as int;
            &&& -32768 <= v < 32768
            &&& v % 65536 == raw[2 * i] + 256 * raw[2 * i + 1]
        },
        0 <= i < raw.len() / 4 ==> {
            let f = audio::frames(raw)[i];
            &&& f.0 == raw[4 * i] + 256 * raw[4 * i + 1]
            &&& f.1 == raw[4 * i + 2] + 256 * raw[4 * i + 3]
        },
{
}

} // verus!
