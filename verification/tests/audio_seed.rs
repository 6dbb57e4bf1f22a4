use amberol_glass_lyrics::audio_seed::{
    audio_pattern_seed, fnv_update, sample_offset, AudioFile, AudioSamples, FNV_OFFSET,
};
use amberol_glass_lyrics::pattern::make_seed;

fn song(byte: u8) -> AudioFile {
    let mut chunks: Vec<Option<Vec<u8>>> = (0..8).map(|i| Some(vec![i; 768])).collect();
    chunks[3] = None;
    chunks[5] = Some(vec![byte, 2, 3]);
    AudioFile {
        path: b"/m/a.flac".to_vec(),
        samples: Some(AudioSamples { length: 7_768, chunks }),
    }
}

#[test]
fn fnv_gives_the_published_values() {
    assert_eq!(fnv_update(FNV_OFFSET, b""), 0xcbf2_9ce4_8422_2325);
    assert_eq!(fnv_update(FNV_OFFSET, b"a"), 0xaf63_dc4c_8601_ec8c);
    assert_eq!(fnv_update(FNV_OFFSET, b"foobar"), 0x8594_4171_f739_67e8);
    assert_eq!(
        fnv_update(fnv_update(FNV_OFFSET, b"foo"), b"bar"),
        0x8594_4171_f739_67e8
    );
}

#[test]
fn samples_are_spread_over_the_file() {
    let starts: Vec<u64> = (0..8).map(|i| sample_offset(7_768, i)).collect();
    assert_eq!(starts, vec![0, 1_000, 2_000, 3_000, 4_000, 5_000, 6_000, 7_000]);
    assert_eq!(sample_offset(768, 7), 0);
    assert_eq!(sample_offset(10, 7), 0);
    assert_eq!(sample_offset(u64::MAX, 1), (u64::MAX - 768) / 7);
    assert_eq!(sample_offset(u64::MAX, 7), u64::MAX / 7);
}

#[test]
fn seed_hashes_path_length_and_samples() {
    let mut bytes: Vec<u8> = b"/m/a.flac".to_vec();
    bytes.extend_from_slice(&7_768_u64.to_le_bytes());
    for i in 0..8_u64 {
        if i == 3 {
            continue;
        }
        bytes.extend_from_slice(&(i * 1_000).to_le_bytes());
        if i == 5 {
            bytes.extend_from_slice(&[1, 2, 3]);
        } else {
            bytes.extend_from_slice(&[i as u8; 768]);
        }
    }
    let file = song(1);
    assert_eq!(
        audio_pattern_seed(Some(&file), Some(b"ignored".as_slice())),
        fnv_update(FNV_OFFSET, &bytes)
    );
}

#[test]
fn same_song_same_seed_and_one_byte_changes_it() {
    assert_eq!(
        audio_pattern_seed(Some(&song(1)), None),
        audio_pattern_seed(Some(&song(1)), None)
    );
    assert_ne!(
        audio_pattern_seed(Some(&song(1)), None),
        audio_pattern_seed(Some(&song(2)), None)
    );
}

#[test]
fn one_byte_of_path_or_identifier_changes_the_seed() {
    let seed = |path: &[u8], uuid: &[u8]| {
        let file = AudioFile { path: path.to_vec(), samples: None };
        audio_pattern_seed(Some(&file), Some(uuid))
    };
    assert_ne!(seed(b"/a", b"id"), seed(b"/b", b"id"));
    assert_ne!(seed(b"/a", b"id"), seed(b"/a", b"ie"));
}

#[test]
fn same_song_same_picture() {
    let first = make_seed(audio_pattern_seed(Some(&song(1)), Some(b"one".as_slice())));
    let again = make_seed(audio_pattern_seed(Some(&song(1)), None));
    let other = make_seed(audio_pattern_seed(Some(&song(2)), None));
    assert!(first == again);
    assert!(first != other);
}

#[test]
fn identifier_stands_in_for_a_file_that_cannot_be_read() {
    let closed = AudioFile {
        path: b"foo".to_vec(),
        samples: None,
    };
    assert_eq!(
        audio_pattern_seed(Some(&closed), Some(b"bar".as_slice())),
        0x8594_4171_f739_67e8
    );
    assert_eq!(
        audio_pattern_seed(Some(&closed), None),
        fnv_update(FNV_OFFSET, b"foo")
    );
    assert_eq!(
        audio_pattern_seed(None, Some(b"foobar".as_slice())),
        0x8594_4171_f739_67e8
    );
    assert_eq!(audio_pattern_seed(None, None), FNV_OFFSET);
}
