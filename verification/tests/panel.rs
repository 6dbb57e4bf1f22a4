use amberol_glass_lyrics::audio_seed::{audio_pattern_seed, AudioFile, AudioSamples};
use amberol_glass_lyrics::lyrics::LyricsTrack;
use amberol_glass_lyrics::lyrics_panel::{
    CueChange, CueDisplay, LoadedSong, LyricsPanel, SongDisplay,
};
use amberol_glass_lyrics::reaction_diffusion_view::{
    LyricRequest, ReactionDiffusionView, DEFAULT_SEED,
};

fn song(lrc: &str) -> Option<LoadedSong> {
    Some(LoadedSong {
        title: "Title".to_string(),
        track: LyricsTrack::parse_lrc(lrc),
        file: Some(AudioFile {
            path: b"foo".to_vec(),
            samples: None,
        }),
        uuid: Some("bar".to_string()),
    })
}

fn shown(change: CueChange) -> CueDisplay {
    match change {
        CueChange::Shown(display) => display,
        other => panic!("{:?}", other),
    }
}

fn words(d: &CueDisplay) -> [&str; 5] {
    let l = &d.labels;
    [
        l.older.as_str(),
        l.previous.as_str(),
        l.current.as_str(),
        l.next.as_str(),
        l.later.as_str(),
    ]
}

#[test]
fn loading_nothing_empties_the_panel() {
    let mut panel = LyricsPanel::default();
    let mut view = ReactionDiffusionView::default();
    let change = panel.load_song(&mut view, None);
    assert_eq!(change.title, "Lyrics");
    assert_eq!(change.intro_ms, None);
    match change.display {
        SongDisplay::Empty(labels) => {
            assert_eq!(labels.current, "No synced lyrics found");
            assert!(labels.older.is_empty() && labels.previous.is_empty());
            assert!(labels.next.is_empty() && labels.later.is_empty());
        }
        other => panic!("{:?}", other),
    }
    let mask = view.pending_mask.as_ref().unwrap();
    assert!(mask.pixels.iter().all(|p| *p == 0));
    assert_eq!(mask.pixels.len(), 4 * 768 * 1024);
    assert_eq!(view.pattern_seed, DEFAULT_SEED);
}

#[test]
fn loading_a_song_without_lyrics_starts_it() {
    let mut panel = LyricsPanel::default();
    let mut view = ReactionDiffusionView::default();
    let change = panel.load_song(&mut view, song("nothing here"));
    assert_eq!(change.title, "Title");
    assert_eq!(change.intro_ms, Some(3_000));
    assert!(matches!(change.display, SongDisplay::Empty(_)));
    assert_eq!(view.pattern_seed, 0x8594_4171_f739_67e8);
    assert!(view.reset_pattern);
    assert!(matches!(
        panel.update_position_ms(&mut view, 1_234),
        CueChange::Unchanged
    ));
    assert_eq!(view.pending_position_ms, Some(1_234));
}

#[test]
fn intro_is_the_time_before_the_first_line() {
    let mut view = ReactionDiffusionView::default();
    for (lrc, intro) in [
        ("[00:00.500]a", 500),
        ("[00:00.499]a", 3_000),
        ("[00:00]a", 3_000),
        ("[00:07.25]a", 7_250),
    ] {
        let mut panel = LyricsPanel::default();
        assert_eq!(panel.load_song(&mut view, song(lrc)).intro_ms, Some(intro));
    }
}

#[test]
fn first_line_is_shown_at_once_when_it_starts_the_song() {
    let mut panel = LyricsPanel::default();
    let mut view = ReactionDiffusionView::default();
    match panel.load_song(&mut view, song("[00:00]a\n[00:02]b")).display {
        SongDisplay::Lyrics(change) => {
            let display = shown(change);
            assert_eq!(words(&display), ["", "", "a", "b", ""]);
            assert_eq!((display.start_ms, display.duration_ms), (0, 2_000));
            assert_eq!(
                display.request,
                LyricRequest::Render { cue_start_ms: 0, duration_ms: 2_000 }
            );
        }
        other => panic!("{:?}", other),
    }
    let mut panel = LyricsPanel::default();
    match panel.load_song(&mut view, song("[00:01]a")).display {
        SongDisplay::Lyrics(change) => assert!(matches!(change, CueChange::Unchanged)),
        other => panic!("{:?}", other),
    }
}

#[test]
fn lines_come_and_go_with_the_position() {
    let mut panel = LyricsPanel::default();
    let mut view = ReactionDiffusionView::default();
    panel.load_song(
        &mut view,
        song("[00:01]a\n[00:02]b\n[00:02.020]c\n[00:05]d\n[00:06]e"),
    );
    assert!(matches!(panel.update_position_ms(&mut view, 999), CueChange::Unchanged));
    let d = shown(panel.update_position_ms(&mut view, 1_000));
    assert_eq!(words(&d), ["", "", "a", "b", "c"]);
    assert_eq!((d.start_ms, d.duration_ms), (1_000, 1_000));
    assert!(matches!(panel.update_position_ms(&mut view, 1_000), CueChange::Unchanged));
    assert!(matches!(panel.update_position_ms(&mut view, 1_999), CueChange::Unchanged));
    let d = shown(panel.update_position_ms(&mut view, 2_000));
    assert_eq!((d.start_ms, d.duration_ms), (2_000, 50));
    let d = shown(panel.update_position_ms(&mut view, 3_000));
    assert_eq!(words(&d), ["a", "b", "c", "d", "e"]);
    assert_eq!((d.start_ms, d.duration_ms), (2_020, 2_980));
    let d = shown(panel.update_position_ms(&mut view, u64::MAX));
    assert_eq!(words(&d), ["c", "d", "e", "", ""]);
    assert_eq!((d.start_ms, d.duration_ms), (6_000, 5_000));
    assert!(matches!(panel.update_position_ms(&mut view, 0), CueChange::Cleared));
    assert_eq!(view.pending_position_ms, Some(0));
    assert!(matches!(panel.update_position_ms(&mut view, 0), CueChange::Unchanged));
    assert_eq!(panel.current_index, None);
}

#[test]
fn playing_reaches_the_canvas() {
    let panel = LyricsPanel::default();
    let mut view = ReactionDiffusionView::default();
    panel.set_playing(&mut view, true);
    assert!(view.playing);
    panel.set_playing(&mut view, false);
    assert!(!view.playing);
}

#[test]
fn loading_starts_the_picture_of_the_song() {
    let sampled = |byte: u8| AudioFile {
        path: b"/m/a.flac".to_vec(),
        samples: Some(AudioSamples {
            length: 7_768,
            chunks: (0..8).map(|_| Some(vec![byte; 768])).collect(),
        }),
    };
    let load = |file: Option<AudioFile>, uuid: Option<&str>| {
        let mut view = ReactionDiffusionView::default();
        let song = LoadedSong {
            title: String::new(),
            track: LyricsTrack::default(),
            file,
            uuid: uuid.map(str::to_string),
        };
        LyricsPanel::default().load_song(&mut view, Some(song));
        let inputs = view.take_inputs();
        assert!(inputs.reset);
        inputs.pattern_seed
    };
    let seed = load(Some(sampled(1)), Some("one"));
    assert_eq!(seed, audio_pattern_seed(Some(&sampled(1)), None));
    assert_eq!(seed, load(Some(sampled(1)), Some("two")));
    assert_ne!(seed, load(Some(sampled(2)), Some("one")));
    assert_eq!(
        load(None, Some("é")),
        audio_pattern_seed(None, Some("é".as_bytes()))
    );
    assert_eq!(load(None, None), audio_pattern_seed(None, None));
}
