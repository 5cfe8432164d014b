use std::io::Cursor;

use dublette::audio::{
    encoding_hash_of, fingerprint_from_pcm, fingerprint_outcome, keep_best, outranks, pcm_samples,
    quality_from, quality_of, AudioFileType, AudioQuality, Fingerprint,
};
use dublette::skip::SkipReason;
use lofty::config::WriteOptions;
use lofty::tag::{Accessor, Tag, TagExt, TagType};

#[test]
fn lossless_outranks_any_lossy_bitrate() {
    let flac = AudioQuality {
        lossless: true,
        bitrate: 400,
    };
    let mp3 = AudioQuality {
        lossless: false,
        bitrate: 320,
    };
    assert!(flac > mp3);
    assert!(outranks(&flac, &mp3));
    let low_flac = AudioQuality {
        lossless: true,
        bitrate: 1,
    };
    assert!(outranks(&low_flac, &mp3));
}

#[test]
fn higher_bitrate_wins_within_same_fidelity_class() {
    let high = AudioQuality {
        lossless: false,
        bitrate: 320,
    };
    let low = AudioQuality {
        lossless: false,
        bitrate: 128,
    };
    assert!(high > low);
    assert!(outranks(&high, &low));
    assert!(!outranks(&low, &high));
    assert!(!outranks(&high, &high));
}

#[test]
fn quality_from_metadata() {
    assert_eq!(
        quality_from(None),
        AudioQuality {
            lossless: false,
            bitrate: 0
        }
    );
    assert_eq!(
        quality_from(Some((AudioFileType::Wav, Some(1411)))),
        AudioQuality {
            lossless: true,
            bitrate: 1411
        }
    );
    assert_eq!(
        quality_from(Some((AudioFileType::Mpeg, None))),
        AudioQuality {
            lossless: false,
            bitrate: 0
        }
    );
    assert!(quality_from(Some((AudioFileType::Flac, Some(900)))).lossless);
    assert!(quality_from(Some((AudioFileType::Aiff, Some(900)))).lossless);
    assert!(!quality_from(Some((AudioFileType::Opus, Some(900)))).lossless);
}

fn q(lossless: bool, bitrate: u32) -> AudioQuality {
    AudioQuality { lossless, bitrate }
}

#[test]
fn keep_best_prefers_lossless_over_alphabetical_order() {
    let members = vec!["a.mp3".to_string(), "z.flac".to_string()];
    let (keep, duplicates) = keep_best(members, &vec![q(false, 320), q(true, 900)]);
    assert_eq!(keep, "z.flac");
    assert_eq!(duplicates, vec!["a.mp3"]);
}

#[test]
fn keep_best_falls_back_to_first_on_equal_quality() {
    let members = vec!["a.wav".to_string(), "z.wav".to_string()];
    let (keep, duplicates) = keep_best(members, &vec![q(true, 705), q(true, 705)]);
    assert_eq!(keep, "a.wav");
    assert_eq!(duplicates, vec!["z.wav"]);
}

#[test]
fn keep_best_takes_highest_bitrate() {
    let members = vec!["a".to_string(), "b".to_string(), "c".to_string()];
    let (keep, duplicates) = keep_best(members, &vec![q(false, 128), q(false, 320), q(false, 192)]);
    assert_eq!(keep, "b");
    assert_eq!(duplicates, vec!["a", "c"]);
}

#[test]
fn pcm_is_little_endian_signed() {
    let pcm = vec![0x01, 0x00, 0xff, 0xff, 0x00, 0x80, 0xff, 0x7f, 0x42];
    assert_eq!(pcm_samples(&pcm), vec![1i16, -1, -32768, 32767]);
}

#[test]
fn failed_decode_is_skipped() {
    let r = fingerprint_from_pcm("x.mp3", false, &vec![1, 2, 3, 4]);
    let e = r.unwrap_err();
    assert_eq!(e.reason, SkipReason::DecodeFailed);
    assert_eq!(e.detail, "ffmpeg could not decode audio from x.mp3");
}

#[test]
fn silence_too_short_to_fingerprint() {
    let r = fingerprint_from_pcm("short.wav", true, &vec![0u8; 200]);
    let e = r.unwrap_err();
    assert_eq!(e.reason, SkipReason::TooShort);
    assert_eq!(e.detail, "audio in short.wav is too short to fingerprint");
}

#[test]
fn fingerprint_outcome_cases() {
    let e = fingerprint_outcome("a.mp3", Ok(vec![])).unwrap_err();
    assert_eq!(e.reason, SkipReason::TooShort);
    let e = fingerprint_outcome("a.mp3", Err("bad rate".to_string())).unwrap_err();
    assert_eq!(e.reason, SkipReason::DecodeFailed);
    assert_eq!(e.detail, "fingerprinter rejected PCM stream: bad rate");
    let Fingerprint(items) = fingerprint_outcome("a.mp3", Ok(vec![5, 6])).unwrap();
    assert_eq!(items, vec![5, 6]);
}

#[test]
fn long_tone_yields_fingerprint() {
    let mut pcm = Vec::new();
    for i in 0..(11025 * 10) {
        let t = i as f64 / 11025.0;
        let v = ((t * 440.0 * 2.0 * std::f64::consts::PI).sin() * 20000.0) as i16;
        pcm.extend_from_slice(&v.to_le_bytes());
    }
    let Fingerprint(items) = fingerprint_from_pcm("tone.wav", true, &pcm).unwrap();
    assert!(!items.is_empty());
}

fn tone_pcm(samples: usize) -> Vec<u8> {
    let mut pcm = Vec::new();
    for i in 0..samples {
        let t = i as f64 / 11025.0;
        let v = ((t * 330.0 * 2.0 * std::f64::consts::PI).sin() * 12000.0) as i16;
        pcm.extend_from_slice(&v.to_le_bytes());
    }
    pcm
}

#[test]
fn item_count_follows_sample_count() {
    let e = fingerprint_from_pcm("a.wav", true, &tone_pcm(30030)).unwrap_err();
    assert_eq!(e.reason, SkipReason::TooShort);
    let Fingerprint(one) = fingerprint_from_pcm("a.wav", true, &tone_pcm(30031)).unwrap();
    assert_eq!(one.len(), 1);
    let Fingerprint(two) = fingerprint_from_pcm("a.wav", true, &tone_pcm(31396)).unwrap();
    assert_eq!(two.len(), 2);
    let Fingerprint(many) = fingerprint_from_pcm("a.wav", true, &tone_pcm(110250)).unwrap();
    assert_eq!(many.len(), 59);
}

fn wav(samples: &[i16]) -> Vec<u8> {
    let data_len = (samples.len() * 2) as u32;
    let mut bytes = Vec::new();
    bytes.extend_from_slice(b"RIFF");
    bytes.extend_from_slice(&(36 + data_len).to_le_bytes());
    bytes.extend_from_slice(b"WAVE");
    bytes.extend_from_slice(b"fmt ");
    bytes.extend_from_slice(&16u32.to_le_bytes());
    bytes.extend_from_slice(&1u16.to_le_bytes());
    bytes.extend_from_slice(&1u16.to_le_bytes());
    bytes.extend_from_slice(&44100u32.to_le_bytes());
    bytes.extend_from_slice(&(44100u32 * 2).to_le_bytes());
    bytes.extend_from_slice(&2u16.to_le_bytes());
    bytes.extend_from_slice(&16u16.to_le_bytes());
    bytes.extend_from_slice(b"data");
    bytes.extend_from_slice(&data_len.to_le_bytes());
    for sample in samples {
        bytes.extend_from_slice(&sample.to_le_bytes());
    }
    bytes
}

fn tone(frequency: f64, len: usize) -> Vec<i16> {
    (0..len)
        .map(|i| {
            let t = i as f64 / 44100.0;
            ((t * frequency * 2.0 * std::f64::consts::PI).sin() * 20000.0) as i16
        })
        .collect()
}

fn retag(bytes: &[u8], title: &str) -> Vec<u8> {
    let mut tag = Tag::new(TagType::Id3v2);
    tag.set_title(title.to_string());
    let mut cursor = Cursor::new(bytes.to_vec());
    tag.save_to(&mut cursor, WriteOptions::default()).unwrap();
    cursor.into_inner()
}

#[test]
fn quality_of_wav_is_lossless() {
    let bytes = wav(&tone(440.0, 4410));
    assert!(quality_of("/m/a.wav", &bytes).lossless);
}

#[test]
fn quality_of_unparseable_file_is_bottom_rank() {
    let q = quality_of("/m/bad.mp3", b"not-audio-at-all");
    assert!(!q.lossless);
    assert_eq!(q.bitrate, 0);
}

#[test]
fn quality_without_extension_is_bottom_rank() {
    let q = quality_of("/m/noext", &wav(&tone(440.0, 4410)));
    assert!(!q.lossless);
    assert_eq!(q.bitrate, 0);
}

#[test]
fn retagged_copy_has_same_encoding_hash() {
    let original = wav(&tone(440.0, 4410));
    let retagged = retag(&original, "renamed");

    assert_ne!(original, retagged, "test setup expects tag to change file bytes");
    assert_eq!(
        encoding_hash_of("a.wav", &original).unwrap(),
        encoding_hash_of("b.wav", &retagged).unwrap()
    );
}

#[test]
fn different_audio_has_different_encoding_hash() {
    let a = wav(&tone(440.0, 4410));
    let b = wav(&tone(880.0, 4410));
    assert_ne!(encoding_hash_of("a.wav", &a).unwrap(), encoding_hash_of("b.wav", &b).unwrap());
}

#[test]
fn unparseable_file_errors() {
    let err = encoding_hash_of("bad.mp3", b"not-audio-at-all").unwrap_err();
    assert_eq!(err.reason, SkipReason::UnsupportedContainer);
    assert!(err.detail.starts_with("failed to parse audio container bad.mp3: "));
}

#[test]
fn keep_best_sorts_members_itself() {
    let members = vec!["z.flac".to_string(), "c.mp3".to_string(), "a.mp3".to_string(), "b.flac".to_string()];
    let (keep, duplicates) =
        keep_best(members, &vec![q(true, 900), q(false, 320), q(false, 320), q(true, 900)]);
    assert_eq!(keep, "b.flac");
    assert_eq!(duplicates, vec!["a.mp3", "c.mp3", "z.flac"]);
}

#[test]
fn fingerprint_describes_its_size() {
    assert_eq!(Fingerprint(vec![1, 2, 3]).describe(), "Fingerprint(3 items)");
    assert_eq!(Fingerprint(Vec::new()).describe(), "Fingerprint(0 items)");
}
