//! Audio tracks and their formats.
use disc_xplorer::audio::{
    audio_format, build_error_name, encode_error_name, find_audio_track, interleaved_samples, open_audio_src, split_channels, wav_size,
    write_wav_header, AudioCopy, AudioFormat, Mp3Error, Mp3Track,
};
use disc_xplorer::error::DiscError;
use disc_xplorer::track::TrackInfo;
use mp3lame_encoder::{BuildError, EncodeError};

fn track(number: u32, is_data: bool, start_lba: u64, num_sectors: u64) -> TrackInfo {
    TrackInfo {
        number,
        is_data,
        mode: "AUDIO".to_string(),
        start_lba,
        num_sectors,
        session: 1,
        bin_path: "a.bin".to_string(),
    }
}

#[test]
fn audio_track_by_number() {
    let tracks = vec![track(1, true, 0, 5), track(1, false, 5, 5), track(2, false, 10, 5)];
    assert_eq!(find_audio_track(&tracks, 1), Ok(1));
    assert_eq!(find_audio_track(&tracks, 2), Ok(2));
    assert_eq!(find_audio_track(&tracks, 3), Err(DiscError::AudioTrackMissing(3)));
    assert_eq!(open_audio_src(&tracks[2]), Some((23520, 11760)));
    assert_eq!(open_audio_src(&track(1, false, u64::MAX, 0)), None);
}

#[test]
fn audio_formats() {
    assert_eq!(audio_format("flac"), AudioFormat::Flac);
    assert_eq!(audio_format("mp3"), AudioFormat::Mp3);
    assert_eq!(audio_format("wav"), AudioFormat::Wav);
    assert_eq!(audio_format("FLAC"), AudioFormat::Wav);
}

#[test]
fn wav_header_bytes() {
    let h = write_wav_header(1000);
    assert_eq!(h.len(), 44);
    assert_eq!(&h[..4], b"RIFF");
    assert_eq!(h[4..8], 1036u32.to_le_bytes());
    assert_eq!(&h[8..16], b"WAVEfmt ");
    assert_eq!(h[16..20], 16u32.to_le_bytes());
    assert_eq!(h[20..22], 1u16.to_le_bytes());
    assert_eq!(h[22..24], 2u16.to_le_bytes());
    assert_eq!(h[24..28], 44100u32.to_le_bytes());
    assert_eq!(h[28..32], 176400u32.to_le_bytes());
    assert_eq!(h[32..34], 4u16.to_le_bytes());
    assert_eq!(h[34..36], 16u16.to_le_bytes());
    assert_eq!(&h[36..40], b"data");
    assert_eq!(h[40..44], 1000u32.to_le_bytes());
    assert_eq!(wav_size(1000), Some(1000));
    assert_eq!(wav_size(0x1_0000_0005), Some(5));
    assert_eq!(wav_size(0xffff_ffff), None);
}

#[test]
fn chunks_cover_a_track() {
    let mut copy = AudioCopy::new(2 * 1_048_576 + 6);
    let mut lengths = Vec::new();
    while let Some(n) = copy.next_chunk() {
        lengths.push(n);
        copy.took(n);
    }
    assert_eq!(lengths, vec![1_048_576, 1_048_576, 6]);
    let mut short = AudioCopy::new(100);
    short.took(40);
    assert_eq!(short.next_chunk(), Some(60));
    short.took(0);
    assert_eq!(short.next_chunk(), None);
}

#[test]
fn samples_and_channels() {
    let raw = [0x01, 0x00, 0xff, 0xff, 0x00, 0x80, 0xff, 0x7f, 0x55];
    assert_eq!(interleaved_samples(&raw), vec![1, -1, -32768, 32767]);
    let (left, right) = split_channels(&raw);
    assert_eq!(left, vec![1, 0x8000]);
    assert_eq!(right, vec![0xffff, 0x7fff]);
    let (a, b) = split_channels(&raw[..4]);
    let (c, d) = split_channels(&raw[4..8]);
    assert_eq!((vec![a, c].concat(), vec![b, d].concat()), (left, right));
}

#[test]
fn mp3_of_a_tone() {
    let mut raw = Vec::new();
    for i in 0..44100i32 {
        let v = ((i % 100) * 300 - 15000) as i16;
        raw.extend(v.to_le_bytes());
        raw.extend((-v).to_le_bytes());
    }
    let mut mp3 = Mp3Track::new().unwrap();
    let mut out = mp3.encode(&raw).unwrap();
    out.extend(mp3.finish().unwrap());
    // One second at 320 kilobits a second.
    assert!(out.len() > 35_000 && out.len() < 50_000, "{}", out.len());
    // The first frame begins with the sync bits of MPEG 1, layer 3.
    assert_eq!((out[0], out[1] & 0xfe), (0xff, 0xfa));
    // 320 kilobits a second, 44100 frames a second.
    assert_eq!(out[2] & 0xfc, 0xe0);
}

#[test]
fn mp3_error_texts() {
    let e = || "X".to_string();
    let all = vec![
        (Mp3Error::Alloc, "MP3 encoder allocation failed"),
        (Mp3Error::Channels(e()), "MP3 set channels: X"),
        (Mp3Error::SampleRate(e()), "MP3 set sample rate: X"),
        (Mp3Error::Bitrate(e()), "MP3 set bitrate: X"),
        (Mp3Error::Quality(e()), "MP3 set quality: X"),
        (Mp3Error::Init(e()), "MP3 encoder init failed: X"),
        (Mp3Error::Encode(e()), "MP3 encode error: X"),
        (Mp3Error::Flush(e()), "MP3 flush error: X"),
    ];
    for (error, text) in all {
        assert_eq!(error.message(), text);
    }
}

#[test]
fn names_of_encoder_errors() {
    let build = [
        BuildError::Generic,
        BuildError::NoMem,
        BuildError::BadBRate,
        BuildError::BadSampleFreq,
        BuildError::InternalError,
        BuildError::Other(-5),
        BuildError::Other(i32::MIN),
        BuildError::Other(17),
    ];
    for e in build {
        assert_eq!(build_error_name(e), format!("{e:?}"));
    }
    let encode = [
        EncodeError::BufferTooSmall,
        EncodeError::NoMem,
        EncodeError::InvalidState,
        EncodeError::PsychoAcoustic,
        EncodeError::Other(-9),
        EncodeError::Other(0),
    ];
    for e in encode {
        assert_eq!(encode_error_name(e), format!("{e:?}"));
    }
}

#[test]
fn mp3_ends_with_a_whole_frame() {
    let mut mp3 = Mp3Track::new().unwrap();
    let mut out = Vec::new();
    for k in 0..3i32 {
        let mut raw = Vec::new();
        for i in 0..20_000i32 {
            let v = ((i * (k + 3) * 37) % 20_000 - 10_000) as i16;
            raw.extend(v.to_le_bytes());
            raw.extend(v.to_le_bytes());
        }
        out.extend(mp3.encode(&raw).unwrap());
    }
    let last = mp3.finish().unwrap();
    assert!(!last.is_empty());
    out.extend(last);
    // At 320 kilobits and 44100 frames a second, an MP3 frame has 1044 bytes,
    // and one more where its padding bit is set.
    let mut at = 0;
    while at < out.len() {
        assert_eq!((out[at], out[at + 1] & 0xfe, out[at + 2] & 0xfc), (0xff, 0xfa, 0xe0));
        at += 1044 + ((out[at + 2] >> 1) & 1) as usize;
    }
    assert_eq!(at, out.len());
}
