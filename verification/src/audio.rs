//! Audio tracks: which one is saved, in which format, and its samples. A track
//! holds frames of two 16-bit samples, left and right.
use crate::bytes;
use crate::error::DiscError;
use crate::sector;
use crate::text;
use crate::track;
use crate::track::{TrackInfo, TrackInfoView};
use mp3lame_encoder::{
    Bitrate, BuildError, Builder, DualPcm, EncodeError, Encoder, FlushNoGap, Quality,
};
use vstd::prelude::*;

verus! {

// ── The track ────────────────────────────────────────────────────────────────

/// The first audio track with this number from `i` on, or the number of
/// tracks.
pub open spec fn audio_index(tracks: Seq<TrackInfoView>, number: u32, i: int) -> int
    decreases tracks.len() - i,
{
    if 0 <= i < tracks.len() && !(tracks[i].number == number && !tracks[i].is_data) {
        audio_index(tracks, number, i + 1)
    } else {
        i
    }
}

/// Finds the audio track with a number.
pub fn find_audio_track(tracks: &Vec<TrackInfo>, number: u32) -> (r: Result<usize, DiscError>)
    ensures
        r is Ok <==> audio_index(track::track_views(tracks@), number, 0) < tracks@.len(),
        r matches Ok(i) ==> i == audio_index(track::track_views(tracks@), number, 0) && i
            < tracks@.len(),
        r matches Err(e) ==> e == DiscError::AudioTrackMissing(number),
{
    let ghost ts = track::track_views(tracks@);
    let mut i: usize = 0;
    while i < tracks.len()
        invariant
            i <= tracks@.len(),
            ts == track::track_views(tracks@),
            audio_index(ts, number, 0) == audio_index(ts, number, i as int),
        decreases tracks@.len() - i,
    {
        assert(ts[i as int] == tracks@[i as int]@);
        if tracks[i].number == number && !tracks[i].is_data {
            return Ok(i);
        }
        i += 1;
    }
    Err(DiscError::AudioTrackMissing(number))
}

/// Where the samples of a track begin, and how many bytes they take up; `None` where
/// either is beyond 64 bits.
pub open spec fn source_span(t: TrackInfoView) -> Option<(u64, u64)> {
    let start = t.start_lba * sector::RAW_SECTOR_SIZE;
    let len = t.num_sectors * sector::RAW_SECTOR_SIZE;
    if start <= u64::MAX && len <= u64::MAX {
        Some((start as u64, len as u64))
    } else {
        None
    }
}

/// Where the samples of a track lie in its file: the offset of the first byte
/// and the number of bytes. `None` where one of them is beyond 64 bits.
pub fn open_audio_src(t: &TrackInfo) -> (r: Option<(u64, u64)>)
    ensures
        r == source_span(t@),
        r is Some <==> t@.start_lba * sector::RAW_SECTOR_SIZE <= u64::MAX && t@.num_sectors
            * sector::RAW_SECTOR_SIZE <= u64::MAX,
        r matches Some(s) ==> s.0 == t@.start_lba * sector::RAW_SECTOR_SIZE && s.1
            == t@.num_sectors * sector::RAW_SECTOR_SIZE,
{
    let offset: u128 = t.start_lba as u128 * sector::RAW_SECTOR_SIZE as u128;
    let total: u128 = t.num_sectors as u128 * sector::RAW_SECTOR_SIZE as u128;
    if offset > u64::MAX as u128 || total > u64::MAX as u128 {
        None
    } else {
        Some((offset as u64, total as u64))
    }
}

/// A format that a track is saved in.
#[derive(Clone, Copy, PartialEq, Eq, Structural, Debug)]
pub enum AudioFormat {
    Flac,
    Mp3,
    Wav,
}

/// The format with this name; WAV for any other name.
pub open spec fn format_named(name: Seq<char>) -> AudioFormat {
    if name == "flac"@ {
        AudioFormat::Flac
    } else if name == "mp3"@ {
        AudioFormat::Mp3
    } else {
        AudioFormat::Wav
    }
}

/// The format with this name; WAV for any other name.
pub fn audio_format(name: &str) -> (r: AudioFormat)
    ensures
        r == format_named(name@),
        r == (if name@ == "flac"@ {
            AudioFormat::Flac
        } else if name@ == "mp3"@ {
            AudioFormat::Mp3
        } else {
            AudioFormat::Wav
        }),
{
    if text::same_str(name, "flac") {
        AudioFormat::Flac
    } else if text::same_str(name, "mp3") {
        AudioFormat::Mp3
    } else {
        AudioFormat::Wav
    }
}

// ── Chunks ───────────────────────────────────────────────────────────────────

/// Bytes of a chunk in which samples are read: whole frames.
pub const AUDIO_CHUNK: u64 = 1_048_576;

/// The bytes of the next chunk, where `remaining` bytes are left.
pub open spec fn next_len(remaining: u64) -> u64 {
    if remaining < AUDIO_CHUNK {
        remaining
    } else {
        AUDIO_CHUNK
    }
}

/// The copying of the samples of a track, chunk by chunk.
#[derive(Clone, Copy, PartialEq, Eq, Structural, Debug)]
pub struct AudioCopy {
    /// Bytes that are left.
    pub remaining: u64,
}

impl AudioCopy {
    /// The copying of `total` bytes.
    pub fn new(total: u64) -> (r: AudioCopy)
        ensures
            r.remaining == total,
    {
        AudioCopy { remaining: total }
    }

    /// How many bytes to read next; `None` at the end.
    pub fn next_chunk(&self) -> (r: Option<u64>)
        ensures
            r is None <==> self.remaining == 0,
            r matches Some(n) ==> n == next_len(self.remaining) && 0 < n <= self.remaining,
    {
        if self.remaining == 0 {
            None
        } else if self.remaining < AUDIO_CHUNK {
            Some(self.remaining)
        } else {
            Some(AUDIO_CHUNK)
        }
    }

    /// `n` bytes were read and written. Where the file has no more bytes, the
    /// copying ends.
    pub fn took(&mut self, n: u64)
        requires
            n <= next_len(old(self).remaining),
        ensures
            final(self).remaining == (if n == 0 {
                0
            } else {
                old(self).remaining - n
            }),
    {
        if n == 0 {
            self.remaining = 0;
        } else {
            self.remaining = self.remaining - n;
        }
    }
}

/// The lengths of all chunks of `total` bytes.
pub open spec fn chunk_lengths(total: u64) -> Seq<u64>
    decreases total,
{
    if total == 0 {
        Seq::empty()
    } else {
        seq![next_len(total)] + chunk_lengths((total - next_len(total)) as u64)
    }
}

/// The sum of lengths.
pub open spec fn sum(lengths: Seq<u64>) -> int
    decreases lengths.len(),
{
    if lengths.len() == 0 {
        0
    } else {
        lengths[0] + sum(lengths.skip(1))
    }
}

/// The chunks make up the whole: nothing is left out or read twice.
pub proof fn lemma_chunks_cover(total: u64)
    ensures
        sum(chunk_lengths(total)) == total,
    decreases total,
{
    if total > 0 {
        let rest = (total - next_len(total)) as u64;
        lemma_chunks_cover(rest);
        assert(chunk_lengths(total).skip(1) =~= chunk_lengths(rest));
    }
}

/// A chunk of whole sectors holds whole frames.
pub proof fn lemma_chunks_are_frames(sectors: u64, remaining: u64)
    requires
        remaining % 4 == 0,
    ensures
        next_len(remaining) % 4 == 0,
        (remaining - next_len(remaining)) % 4 == 0,
        (sectors * sector::RAW_SECTOR_SIZE) % 4 == 0,
{
    assert(sectors * sector::RAW_SECTOR_SIZE == 4 * (588 * sectors));
}

// ── WAV ──────────────────────────────────────────────────────────────────────

/// The header of a WAV file with `size` bytes of samples: PCM, stereo, 44100
/// frames of four bytes a second, 16 bits a sample.
pub open spec fn wav_header(size: u32) -> Seq<u8> {
    seq![0x52u8, 0x49, 0x46, 0x46] + bytes::le32_bytes((size + 36) as u32) + seq![
        0x57u8,
        0x41,
        0x56,
        0x45,
    ] + seq![0x66u8, 0x6d, 0x74, 0x20] + bytes::le32_bytes(16) + bytes::le16_bytes(1)
        + bytes::le16_bytes(2) + bytes::le32_bytes(44100) + bytes::le32_bytes(176400)
        + bytes::le16_bytes(4) + bytes::le16_bytes(16) + seq![0x64u8, 0x61, 0x74, 0x61]
        + bytes::le32_bytes(size)
}

/// Writes the header of a WAV file with `data_size` bytes of samples.
pub fn write_wav_header(data_size: u32) -> (r: Vec<u8>)
    requires
        data_size <= u32::MAX - 36,
    ensures
        r@ == wav_header(data_size),
{
    let mut v: Vec<u8> = Vec::with_capacity(44);
    bytes::push_tag(&mut v, [0x52, 0x49, 0x46, 0x46]);
    bytes::push_u32_le(&mut v, data_size + 36);
    bytes::push_tag(&mut v, [0x57, 0x41, 0x56, 0x45]);
    bytes::push_tag(&mut v, [0x66, 0x6d, 0x74, 0x20]);
    bytes::push_u32_le(&mut v, 16);
    bytes::push_u16_le(&mut v, 1);
    bytes::push_u16_le(&mut v, 2);
    bytes::push_u32_le(&mut v, 44100);
    bytes::push_u32_le(&mut v, 176400);
    bytes::push_u16_le(&mut v, 4);
    bytes::push_u16_le(&mut v, 16);
    bytes::push_tag(&mut v, [0x64, 0x61, 0x74, 0x61]);
    bytes::push_u32_le(&mut v, data_size);
    assert(v@ =~= wav_header(data_size));
    v
}

/// The size that the header of a WAV file of `total` bytes of samples gives:
/// the lowest 32 bits. `None` where the length of the whole file, which the
/// header gives too, is then beyond 32 bits.
pub open spec fn header_size(total: u64) -> Option<u32> {
    let n = total as u32;
    if n <= u32::MAX - 36 {
        Some(n)
    } else {
        None
    }
}

/// The size that the header of a WAV file of `total` bytes of samples gives.
pub fn wav_size(total: u64) -> (r: Option<u32>)
    ensures
        r == header_size(total),
        r is Some <==> total as u32 <= u32::MAX - 36,
        r matches Some(n) ==> n == total as u32,
{
    let n: u32 = #[verifier::truncate] (total as u32);
    if n > u32::MAX - 36 {
        None
    } else {
        Some(n)
    }
}

/// The header of a WAV file has 44 bytes and tells the length of the samples
/// and of what stands behind the length itself.
pub proof fn lemma_wav_header(size: u32)
    requires
        size <= u32::MAX - 36,
    ensures
        wav_header(size).len() == 44,
        bytes::le32(wav_header(size), 40) == size,
        bytes::le32(wav_header(size), 4) == 44 + size - 8,
{
    let h = wav_header(size);
    bytes::lemma_le32_reads_back(size, h.take(40), Seq::empty());
    assert(h =~= h.take(40) + bytes::le32_bytes(size) + Seq::empty());
    let total = (size + 36) as u32;
    bytes::lemma_le32_reads_back(total, h.take(4), h.skip(8));
    assert(h =~= h.take(4) + bytes::le32_bytes(total) + h.skip(8));
}

// ── Samples ──────────────────────────────────────────────────────────────────

/// A signed sample of 16 bits, from its unsigned form.
pub open spec fn signed(v: int) -> i32 {
    if v < 0x8000 {
        v as i32
    } else {
        (v - 0x1_0000) as i32
    }
}

/// All samples of a chunk, left and right in turn.
pub open spec fn samples(raw: Seq<u8>) -> Seq<i32> {
    Seq::new((raw.len() / 2) as nat, |i: int| signed(bytes::le16(raw, 2 * i)))
}

/// Reads all samples of a chunk, left and right in turn.
pub fn interleaved_samples(raw: &[u8]) -> (r: Vec<i32>)
    ensures
        r@ == samples(raw@),
{
    let n: usize = raw.len() / 2;
    let mut r: Vec<i32> = Vec::with_capacity(n);
    let mut i: usize = 0;
    while i < n
        invariant
            i <= n,
            n == raw@.len() / 2,
            raw@.len() <= usize::MAX,
            r@ == samples(raw@).take(i as int),
        decreases n - i,
    {
        let v: u16 = bytes::read_u16_le(raw, 2 * i);
        let s: i32 = if v < 0x8000 {
            v as i32
        } else {
            v as i32 - 0x1_0000
        };
        r.push(s);
        assert(samples(raw@).take(i + 1) =~= samples(raw@).take(i as int).push(
            samples(raw@)[i as int],
        ));
        i += 1;
    }
    assert(samples(raw@).take(i as int) =~= samples(raw@));
    r
}

/// The frames of a chunk: a left and a right sample each.
pub open spec fn frames(raw: Seq<u8>) -> Seq<(u16, u16)> {
    Seq::new(
        (raw.len() / 4) as nat,
        |i: int| (bytes::le16(raw, 4 * i) as u16, bytes::le16(raw, 4 * i + 2) as u16),
    )
}

/// Two channels, frame by frame.
pub open spec fn pairs(left: Seq<u16>, right: Seq<u16>) -> Seq<(u16, u16)> {
    Seq::new(left.len(), |i: int| (left[i], right[i]))
}

/// Parts the frames of a chunk into a left and a right channel.
pub fn split_channels(raw: &[u8]) -> (r: (Vec<u16>, Vec<u16>))
    ensures
        r.0@.len() == raw@.len() / 4,
        r.1@.len() == raw@.len() / 4,
        pairs(r.0@, r.1@) == frames(raw@),
{
    let n: usize = raw.len() / 4;
    let mut left: Vec<u16> = Vec::with_capacity(n);
    let mut right: Vec<u16> = Vec::with_capacity(n);
    let mut i: usize = 0;
    while i < n
        invariant
            i <= n,
            n == raw@.len() / 4,
            raw@.len() <= usize::MAX,
            left@.len() == i,
            right@.len() == i,
            pairs(left@, right@) == frames(raw@).take(i as int),
        decreases n - i,
    {
        let ghost l0 = left@;
        let ghost r0 = right@;
        left.push(bytes::read_u16_le(raw, 4 * i));
        right.push(bytes::read_u16_le(raw, 4 * i + 2));
        assert(pairs(left@, right@) =~= pairs(l0, r0).push(frames(raw@)[i as int]));
        assert(frames(raw@).take(i + 1) =~= frames(raw@).take(i as int).push(
            frames(raw@)[i as int],
        ));
        i += 1;
    }
    assert(frames(raw@).take(i as int) =~= frames(raw@));
    (left, right)
}

// ── MP3 ──────────────────────────────────────────────────────────────────────

/// Why a track cannot be encoded; the text tells what the encoder said.
#[derive(PartialEq, Eq, Debug)]
pub enum Mp3Error {
    Alloc,
    Channels(String),
    SampleRate(String),
    Bitrate(String),
    Quality(String),
    Init(String),
    Encode(String),
    Flush(String),
}

impl Mp3Error {
    /// The text of the error.
    pub open spec fn text(self) -> Seq<char> {
        match self {
            Mp3Error::Alloc => "MP3 encoder allocation failed"@,
            Mp3Error::Channels(e) => "MP3 set channels: "@ + e@,
            Mp3Error::SampleRate(e) => "MP3 set sample rate: "@ + e@,
            Mp3Error::Bitrate(e) => "MP3 set bitrate: "@ + e@,
            Mp3Error::Quality(e) => "MP3 set quality: "@ + e@,
            Mp3Error::Init(e) => "MP3 encoder init failed: "@ + e@,
            Mp3Error::Encode(e) => "MP3 encode error: "@ + e@,
            Mp3Error::Flush(e) => "MP3 flush error: "@ + e@,
        }
    }

    /// The text of the error.
    pub fn message(&self) -> (r: String)
        ensures
            r@ == self.text(),
    {
        let mut s = String::new();
        match self {
            Mp3Error::Alloc => s.append("MP3 encoder allocation failed"),
            Mp3Error::Channels(e) => {
                s.append("MP3 set channels: ");
                s.append(e.as_str());
            },
            Mp3Error::SampleRate(e) => {
                s.append("MP3 set sample rate: ");
                s.append(e.as_str());
            },
            Mp3Error::Bitrate(e) => {
                s.append("MP3 set bitrate: ");
                s.append(e.as_str());
            },
            Mp3Error::Quality(e) => {
                s.append("MP3 set quality: ");
                s.append(e.as_str());
            },
            Mp3Error::Init(e) => {
                s.append("MP3 encoder init failed: ");
                s.append(e.as_str());
            },
            Mp3Error::Encode(e) => {
                s.append("MP3 encode error: ");
                s.append(e.as_str());
            },
            Mp3Error::Flush(e) => {
                s.append("MP3 flush error: ");
                s.append(e.as_str());
            },
        }
        assert(s@ =~= self.text());
        s
    }
}

/// `mp3lame_encoder::Builder`, an encoder of the LAME library that is being set
/// up.
#[verifier::external_type_specification]
#[verifier::external_body]
pub struct ExBuilder(Builder);

/// `mp3lame_encoder::Encoder`, an encoder of the LAME library.
#[verifier::external_type_specification]
#[verifier::external_body]
pub struct ExEncoder(Encoder);

/// `mp3lame_encoder::Bitrate`.
#[verifier::external_type_specification]
pub struct ExBitrate(Bitrate);

/// `mp3lame_encoder::Quality`.
#[verifier::external_type_specification]
pub struct ExQuality(Quality);

/// `mp3lame_encoder::BuildError`.
#[verifier::external_type_specification]
pub struct ExBuildError(BuildError);

/// `mp3lame_encoder::EncodeError`.
#[verifier::external_type_specification]
pub struct ExEncodeError(EncodeError);

/// What an encoder is set to.
pub struct Mp3Settings {
    pub channels: u8,
    /// Frames a second.
    pub rate: u32,
    pub bitrate: Bitrate,
    pub quality: Quality,
}

/// What an encoder is set to while it is being set up.
pub uninterp spec fn settings(b: Builder) -> Mp3Settings;

/// What an encoder was set to when it was made.
pub uninterp spec fn made_with(enc: Encoder) -> Mp3Settings;

/// The frames that an encoder has taken in so far.
pub uninterp spec fn taken(enc: Encoder) -> Seq<(u16, u16)>;

/// The bytes that an encoder has given out so far.
pub uninterp spec fn given(enc: Encoder) -> Seq<u8>;

/// The MP3 data that an encoder has given out is complete: no part of an MP3
/// frame that it has made is held back.
pub uninterp spec fn complete(enc: Encoder) -> bool;

/// `Builder::new`: `None` where there is no memory for an encoder. Nothing is
/// said of what it is set to.
pub assume_specification[ Builder::new ]() -> (r: Option<Builder>)
;

/// `Builder::with_num_channels`: sets the number of channels, which is 1 or 2,
/// and nothing else.
pub assume_specification[ Builder::with_num_channels ](b: Builder, num: u8) -> (r: Result<
    Builder,
    BuildError,
>)
    ensures
        r.is_ok() == (1 <= num <= 2),
        r.is_ok() ==> settings(r.unwrap()) == (Mp3Settings { channels: num, ..settings(b) }),
;

/// `Builder::with_sample_rate`: sets the number of frames a second, which is
/// not 0, and nothing else. Of a number beyond 31 bits only that it is accepted
/// is said.
pub assume_specification[ Builder::with_sample_rate ](b: Builder, rate: u32) -> (r: Result<
    Builder,
    BuildError,
>)
    ensures
        r.is_ok() == (rate >= 1),
        r.is_ok() && rate <= 0x7fff_ffff ==> settings(r.unwrap()) == (Mp3Settings {
            rate,
            ..settings(b)
        }),
;

/// `Builder::with_brate`: sets the bitrate and nothing else.
pub assume_specification[ Builder::with_brate ](b: Builder, brate: Bitrate) -> (r: Result<
    Builder,
    BuildError,
>)
    ensures
        r.is_ok(),
        r.is_ok() ==> settings(r.unwrap()) == (Mp3Settings { bitrate: brate, ..settings(b) }),
;

/// `Builder::with_quality`: sets the quality and nothing else.
pub assume_specification[ Builder::with_quality ](b: Builder, quality: Quality) -> (r: Result<
    Builder,
    BuildError,
>)
    ensures
        r.is_ok(),
        r.is_ok() ==> settings(r.unwrap()) == (Mp3Settings { quality, ..settings(b) }),
;

/// `Builder::build`: makes an encoder, which has taken in and given out nothing
/// yet. Whether one can be made, the LAME library decides.
pub assume_specification[ Builder::build ](b: Builder) -> (r: Result<Encoder, BuildError>)
    ensures
        r.is_ok() ==> made_with(r.unwrap()) == settings(b),
        r.is_ok() ==> taken(r.unwrap()) == Seq::<(u16, u16)>::empty(),
        r.is_ok() ==> given(r.unwrap()) == Seq::<u8>::empty(),
;

/// `mp3lame_encoder::max_required_buffer_size`: a quarter more than the number
/// of frames, and 7200.
pub assume_specification[ mp3lame_encoder::max_required_buffer_size ](sample_number: usize) -> (r:
    usize)
    ensures
        sample_number <= 0x7fff_ffff ==> r == sample_number + (sample_number + 3) / 4 + 7200,
;

/// `Encoder::encode_to_vec` on `DualPcm` of unsigned 16-bit samples, with room
/// for `room` bytes: takes in the frames of two channels of equal length, behind
/// those it has taken in before, and gives out the bytes that are ready, all of
/// which are returned. Which bytes these are is not said: they come from
/// floating-point computations of the LAME library. The room is what the crate
/// gives as enough for so many frames, at the least.
#[verifier::external_body]
fn encode_frames(enc: &mut Encoder, left: &[u16], right: &[u16], room: usize) -> (r: Result<
    Vec<u8>,
    EncodeError,
>)
    requires
        left@.len() == right@.len(),
        left@.len() + (left@.len() + 3) / 4 + 7200 <= room <= 0x7fff_ffff,
    ensures
        r.is_ok() ==> taken(*final(enc)) == taken(*old(enc)) + pairs(left@, right@),
        r.is_ok() ==> given(*final(enc)) == given(*old(enc)) + r.unwrap()@,
        made_with(*final(enc)) == made_with(*old(enc)),
{
    let mut out = Vec::with_capacity(room);
    enc.encode_to_vec(DualPcm { left, right }, &mut out)?;
    Ok(out)
}

/// `Encoder::flush_to_vec` with `FlushNoGap`, with room for `room` bytes: pads
/// the last MP3 frame that was made and gives out what is held back of it, all
/// of which is returned; the MP3 data given out is then complete. Samples that
/// do not fill an MP3 frame yet stay in the encoder. Which bytes are given out
/// is not said. The crate asks for room for 7200 bytes at the least.
#[verifier::external_body]
fn flush_frames(enc: &mut Encoder, room: usize) -> (r: Result<Vec<u8>, EncodeError>)
    requires
        7200 <= room <= 0x7fff_ffff,
    ensures
        r.is_ok() ==> taken(*final(enc)) == taken(*old(enc)),
        r.is_ok() ==> given(*final(enc)) == given(*old(enc)) + r.unwrap()@,
        r.is_ok() ==> complete(*final(enc)),
        made_with(*final(enc)) == made_with(*old(enc)),
{
    let mut out = Vec::with_capacity(room);
    enc.flush_to_vec::<FlushNoGap>(&mut out)?;
    Ok(out)
}

/// A code of the LAME library, in brackets.
pub open spec fn code_text(code: i32) -> Seq<char> {
    "Other("@ + (if code < 0 {
        "-"@ + text::decimal((-code) as nat)
    } else {
        text::decimal(code as nat)
    }) + ")"@
}

fn code_name(code: i32) -> (r: String)
    ensures
        r@ == code_text(code),
{
    let mut s = String::new();
    s.append("Other(");
    if code < 0 {
        s.append("-");
        text::push_decimal(&mut s, (-(code as i64)) as u64);
    } else {
        text::push_decimal(&mut s, code as u64);
    }
    s.append(")");
    assert(s@ =~= code_text(code));
    s
}

/// The name of an error in setting up an encoder.
pub open spec fn build_error_text(e: BuildError) -> Seq<char> {
    match e {
        BuildError::Generic => "Generic"@,
        BuildError::NoMem => "NoMem"@,
        BuildError::BadBRate => "BadBRate"@,
        BuildError::BadSampleFreq => "BadSampleFreq"@,
        BuildError::InternalError => "InternalError"@,
        BuildError::Other(code) => code_text(code),
    }
}

/// Names an error in setting up an encoder.
pub fn build_error_name(e: BuildError) -> (r: String)
    ensures
        r@ == build_error_text(e),
{
    match e {
        BuildError::Generic => "Generic".to_string(),
        BuildError::NoMem => "NoMem".to_string(),
        BuildError::BadBRate => "BadBRate".to_string(),
        BuildError::BadSampleFreq => "BadSampleFreq".to_string(),
        BuildError::InternalError => "InternalError".to_string(),
        BuildError::Other(code) => code_name(code),
    }
}

/// The name of an error in encoding.
pub open spec fn encode_error_text(e: EncodeError) -> Seq<char> {
    match e {
        EncodeError::BufferTooSmall => "BufferTooSmall"@,
        EncodeError::NoMem => "NoMem"@,
        EncodeError::InvalidState => "InvalidState"@,
        EncodeError::PsychoAcoustic => "PsychoAcoustic"@,
        EncodeError::Other(code) => code_text(code),
    }
}

/// Names an error in encoding.
pub fn encode_error_name(e: EncodeError) -> (r: String)
    ensures
        r@ == encode_error_text(e),
{
    match e {
        EncodeError::BufferTooSmall => "BufferTooSmall".to_string(),
        EncodeError::NoMem => "NoMem".to_string(),
        EncodeError::InvalidState => "InvalidState".to_string(),
        EncodeError::PsychoAcoustic => "PsychoAcoustic".to_string(),
        EncodeError::Other(code) => code_name(code),
    }
}

/// Bytes that the end of a track can take up.
pub const TAIL_ROOM: usize = 7200;

/// Encodes a track as MP3.
pub struct Mp3Track {
    enc: Encoder,
}

impl Mp3Track {
    /// The frames that have been encoded so far.
    pub closed spec fn encoded(self) -> Seq<(u16, u16)> {
        taken(self.enc)
    }

    /// The bytes of the track that have been given out so far.
    pub closed spec fn written(self) -> Seq<u8> {
        given(self.enc)
    }

    /// The MP3 data that has been given out is complete.
    pub closed spec fn is_complete(self) -> bool {
        complete(self.enc)
    }

    /// What the encoder is set to.
    pub closed spec fn settings(self) -> Mp3Settings {
        made_with(self.enc)
    }

    /// A new track: stereo, 44100 frames a second, 320 kilobits a second and
    /// the best quality. It fails where there is no memory for an encoder, or
    /// where the LAME library refuses to make it.
    pub fn new() -> (r: Result<Mp3Track, Mp3Error>)
        ensures
            r matches Ok(t) ==> t.encoded() == Seq::<(u16, u16)>::empty() && t.written()
                == Seq::<u8>::empty() && t.settings() == (Mp3Settings {
                channels: 2,
                rate: 44100,
                bitrate: Bitrate::Kbps320,
                quality: Quality::Best,
            }),
            r matches Err(e) ==> e is Alloc || e is Init,
            r matches Err(Mp3Error::Init(s)) ==> exists|x: BuildError|
                s@ == #[trigger] build_error_text(x),
    {
        let b = match Builder::new() {
            Some(b) => b,
            None => {
                return Err(Mp3Error::Alloc);
            },
        };
        let b = match b.with_num_channels(2) {
            Ok(b) => b,
            Err(e) => {
                return Err(Mp3Error::Channels(build_error_name(e)));
            },
        };
        let b = match b.with_sample_rate(44_100) {
            Ok(b) => b,
            Err(e) => {
                return Err(Mp3Error::SampleRate(build_error_name(e)));
            },
        };
        let b = match b.with_brate(Bitrate::Kbps320) {
            Ok(b) => b,
            Err(e) => {
                return Err(Mp3Error::Bitrate(build_error_name(e)));
            },
        };
        let b = match b.with_quality(Quality::Best) {
            Ok(b) => b,
            Err(e) => {
                return Err(Mp3Error::Quality(build_error_name(e)));
            },
        };
        match b.build() {
            Ok(enc) => Ok(Mp3Track { enc }),
            Err(e) => Err(Mp3Error::Init(build_error_name(e))),
        }
    }

    /// Encodes the frames of a chunk behind those before it, and gives the
    /// bytes of the track that are ready.
    pub fn encode(&mut self, raw: &[u8]) -> (r: Result<Vec<u8>, Mp3Error>)
        requires
            raw@.len() <= AUDIO_CHUNK,
        ensures
            r is Ok ==> final(self).encoded() == old(self).encoded() + frames(raw@),
            r matches Ok(out) ==> final(self).written() == old(self).written() + out@,
            r matches Err(e) ==> e is Encode,
            r matches Err(Mp3Error::Encode(s)) ==> exists|x: EncodeError|
                s@ == #[trigger] encode_error_text(x),
            final(self).settings() == old(self).settings(),
    {
        let (left, right) = split_channels(raw);
        let room: usize = mp3lame_encoder::max_required_buffer_size(left.len());
        match encode_frames(&mut self.enc, left.as_slice(), right.as_slice(), room) {
            Ok(out) => Ok(out),
            Err(e) => Err(Mp3Error::Encode(encode_error_name(e))),
        }
    }

    /// Gives the last bytes of the track: with them, the MP3 data that has been
    /// given out is complete.
    pub fn finish(&mut self) -> (r: Result<Vec<u8>, Mp3Error>)
        ensures
            r is Ok ==> final(self).encoded() == old(self).encoded(),
            r matches Ok(out) ==> final(self).written() == old(self).written() + out@,
            r is Ok ==> final(self).is_complete(),
            r matches Err(e) ==> e is Flush,
            r matches Err(Mp3Error::Flush(s)) ==> exists|x: EncodeError|
                s@ == #[trigger] encode_error_text(x),
            final(self).settings() == old(self).settings(),
    {
        match flush_frames(&mut self.enc, TAIL_ROOM) {
            Ok(out) => Ok(out),
            Err(e) => Err(Mp3Error::Flush(encode_error_name(e))),
        }
    }
}

/// Two chunks of whole frames hold the frames of the two taken together.
pub proof fn lemma_frames_join(a: Seq<u8>, b: Seq<u8>)
    requires
        a.len() % 4 == 0,
    ensures
        frames(a + b) == frames(a) + frames(b),
{
    let n = a.len() as int / 4;
    assert((a.len() + b.len()) / 4 == a.len() / 4 + b.len() / 4);
    assert(frames(a + b).len() == (frames(a) + frames(b)).len());
    assert forall|i: int| 0 <= i < frames(a + b).len() implies frames(a + b)[i] == (frames(a)
        + frames(b))[i] by {
        if i >= n {
            assert(4 * i - a.len() == 4 * (i - n));
        }
    }
    assert(frames(a + b) =~= frames(a) + frames(b));
}

} // verus!
