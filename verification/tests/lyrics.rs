use amberol_glass_lyrics::lyrics::{LoadStep, LyricsTrack, Sidecar, SidecarFile};
use std::path::PathBuf;

fn file(path: &str, content: &str) -> Option<SidecarFile> {
    Some(SidecarFile {
        path: PathBuf::from(path),
        content: content.to_string(),
    })
}

fn starts(t: &LyricsTrack) -> Vec<u64> {
    t.lines.iter().map(|l| l.start_ms).collect()
}

fn texts(t: &LyricsTrack) -> Vec<&str> {
    t.lines.iter().map(|l| l.text.as_str()).collect()
}

#[test]
fn parses_lrc_and_multiple_timestamps() {
    let t = LyricsTrack::parse_lrc("[00:01.20]One\n[00:02.50][00:03.00]Two");
    assert_eq!(t.lines.len(), 3);
    assert_eq!(t.lines[0].start_ms, 1200);
    assert_eq!(t.current_index(2600), Some(1));
}

#[test]
fn applies_offset() {
    let t = LyricsTrack::parse_lrc("[offset:-500]\n[00:01.00]One");
    assert_eq!(t.lines[0].start_ms, 500);
}

#[test]
fn switches_on_exact_subsecond_boundaries() {
    let t = LyricsTrack::parse_lrc("[00:00.500]First\n[00:01.001]Second\n[00:01.250]Third");
    assert_eq!(t.current_index(499), None);
    assert_eq!(t.current_index(500), Some(0));
    assert_eq!(t.current_index(1_000), Some(0));
    assert_eq!(t.current_index(1_001), Some(1));
    assert_eq!(t.current_index(1_249), Some(1));
    assert_eq!(t.current_index(1_250), Some(2));
}

#[test]
fn loads_synced_embedded_lyrics_when_sidecar_is_absent() {
    let track = LyricsTrack::load_for_audio_with_embedded(
        None,
        Some("[00:00.500]Embedded first\n[00:02.250]Embedded second"),
        None,
    );

    assert!(track.synced);
    assert_eq!(track.lines.len(), 2);
    assert_eq!(track.lines[0].text, "Embedded first");
    assert_eq!(track.lines[1].start_ms, 2_250);
    assert!(track.source.is_none());
}

#[test]
fn reads_every_form_of_fraction() {
    let t = LyricsTrack::parse_lrc("[00:01.5]a\n[00:02.05]b\n[00:03:007]c\n[123:04]d\n[1:05]e");
    assert_eq!(starts(&t), vec![1_500, 2_050, 3_007, 65_000, 7_384_000]);
    assert_eq!(texts(&t), vec!["a", "b", "c", "e", "d"]);
}

#[test]
fn leaves_malformed_tags_in_the_text() {
    let t = LyricsTrack::parse_lrc("[00:01][1234:00][00:1][00:02.1234][00:99.999]x");
    assert_eq!(starts(&t), vec![1_000, 99_999]);
    assert_eq!(t.lines[0].text, "[1234:00][00:1][00:02.1234]x");
    assert_eq!(t.lines[1].text, "[1234:00][00:1][00:02.1234]x");
}

#[test]
fn a_tag_may_start_inside_a_broken_one() {
    let t = LyricsTrack::parse_lrc("[00:[00:01.00]x [[00:02]]y");
    assert_eq!(starts(&t), vec![1_000, 2_000]);
    assert_eq!(t.lines[0].text, "[00:x []y");
}

#[test]
fn skips_lines_without_words_or_tags() {
    let t = LyricsTrack::parse_lrc("[ti:Title]\n[00:01.00]\n[00:02.00]   \nplain\n");
    assert!(t.lines.is_empty());
    assert!(!t.synced);
    assert!(t.source.is_none());
    let t = LyricsTrack::parse_lrc("");
    assert!(t.lines.is_empty() && !t.synced);
}

#[test]
fn offset_holds_until_the_next_one() {
    let t = LyricsTrack::parse_lrc(
        "[00:10.00]a\n[OFFSET:+250]\r\n[00:01.00]b\n[off\u{17f}et:-2000]\n[00:01.00]c\n[offset:x]\n[00:05.00]d",
    );
    assert_eq!(starts(&t), vec![0, 1_250, 3_000, 10_000]);
    assert_eq!(texts(&t), vec!["c", "b", "d", "a"]);
}

#[test]
fn an_offset_beyond_64_bits_counts_as_zero() {
    let t = LyricsTrack::parse_lrc(
        "[offset:700]\n[offset:99999999999999999999]\n[00:01.00]a\n[offset:\u{661}]\n[00:02.00]b\n[offset:-9223372036854775808]\n[00:03.00]c",
    );
    assert_eq!(starts(&t), vec![0, 1_000, 2_000]);
    assert_eq!(texts(&t), vec!["c", "a", "b"]);
}

#[test]
fn an_offset_line_is_no_lyric() {
    let t = LyricsTrack::parse_lrc("[offset:100][00:01.00]x\n [offset:50]\n[00:02.00]y");
    assert_eq!(starts(&t), vec![2_050]);
    let t = LyricsTrack::parse_lrc("\u{feff} [offset:100]\n[00:02.00]y");
    assert_eq!(starts(&t), vec![2_000]);
    let t = LyricsTrack::parse_lrc("\u{feff}\u{feff}[offset:100]\n[00:02.00]y");
    assert_eq!(starts(&t), vec![2_100]);
}

#[test]
fn digits_beyond_ascii_match_and_count_for_nothing() {
    let t = LyricsTrack::parse_lrc("[\u{661}\u{662}:05.\u{663}]a\n[00:\u{ff11}\u{ff12}]b\n[1\u{661}:03]c");
    assert_eq!(starts(&t), vec![0, 3_000, 5_000]);
    assert_eq!(texts(&t), vec!["b", "c", "a"]);
}

#[test]
fn unreadable_tags_are_told() {
    assert!(LyricsTrack::try_parse_lrc("[00:01.\u{661}\u{662}]a").is_none());
    assert!(LyricsTrack::try_parse_lrc("[00:01.\u{661}\u{662}]").is_some());
    assert!(LyricsTrack::try_parse_lrc("[00:01.\u{661}12]a").is_some());
    assert!(LyricsTrack::try_parse_lrc("[offset:9223372036854775807]\n[00:01]a").is_none());
    assert!(LyricsTrack::try_parse_lrc("[offset:9223372036854774807]\n[00:01]a").is_some());
    assert!(LyricsTrack::try_parse_lrc("[00:01]a").is_some());
}

#[test]
fn lines_that_start_together_keep_their_order() {
    let t = LyricsTrack::parse_lrc("[00:02]a\n[00:01]b\n[00:02]c\n[00:01]d\n[00:00]e\n[00:02]f");
    assert_eq!(texts(&t), vec!["e", "b", "d", "a", "c", "f"]);
}

#[test]
fn current_index_of_an_empty_track() {
    let t = LyricsTrack::default();
    assert_eq!(t.current_index(0), None);
    assert_eq!(t.current_index(u64::MAX), None);
}

#[test]
fn lrc_file_wins_over_embedded_and_text() {
    let t = LyricsTrack::load_for_audio_with_embedded(
        file("/m/a.lrc", "[00:01]lrc"),
        Some("[00:02]embedded"),
        file("/m/a.txt", "text"),
    );
    assert_eq!(texts(&t), vec!["lrc"]);
    assert!(t.synced);
    assert_eq!(t.source, Some(PathBuf::from("/m/a.lrc")));
}

#[test]
fn lrc_file_without_cues_gives_way() {
    let t = LyricsTrack::load_for_audio_with_embedded(
        file("/m/a.lrc", "no tags"),
        Some("[00:02]embedded"),
        file("/m/a.txt", "text"),
    );
    assert_eq!(texts(&t), vec!["embedded"]);
    assert!(t.source.is_none());
}

#[test]
fn text_file_is_the_last_resort() {
    let t = LyricsTrack::load_for_audio(None, file("/m/a.txt", " one \r\n\n\u{3000}\ntwo\rthree\n"));
    assert_eq!(starts(&t), vec![0, 5_000]);
    assert_eq!(texts(&t), vec!["one", "two\rthree"]);
    assert!(!t.synced);
    assert_eq!(t.source, Some(PathBuf::from("/m/a.txt")));
    let t = LyricsTrack::load_for_audio(None, None);
    assert!(t.lines.is_empty() && !t.synced && t.source.is_none());
}

#[test]
fn loading_asks_for_the_text_file_only_when_needed() {
    assert!(matches!(
        LyricsTrack::after_lrc(file("/m/a.lrc", "[00:01]x"), None),
        LoadStep::Finished(_)
    ));
    assert!(matches!(
        LyricsTrack::after_lrc(None, Some("nothing")),
        LoadStep::ReadText
    ));
    assert!(matches!(
        LyricsTrack::after_lrc(None, Some("[00:00.\u{661}\u{661}]x")),
        LoadStep::Unreadable
    ));
    assert!(LyricsTrack::after_txt(None).is_some());
    assert_eq!(Sidecar::Lrc.extension(), "lrc");
    assert_eq!(Sidecar::Txt.extension(), "txt");
}

#[test]
fn the_current_line_never_moves_back_as_time_goes_on() {
    let t = LyricsTrack::parse_lrc("[00:03]c\n[00:01]a\n[00:02]b\n[00:02]b2");
    assert_eq!(starts(&t), vec![1_000, 2_000, 2_000, 3_000]);
    let mut last = None;
    for position in 0..4_000 {
        let index = t.current_index(position);
        assert!(index >= last);
        assert_eq!(index.is_none(), position < 1_000);
        if let Some(i) = index {
            assert!(t.lines[i].start_ms <= position);
            assert!(i + 1 == t.lines.len() || t.lines[i + 1].start_ms > position);
        }
        last = index;
    }
    assert_eq!(last, Some(3));
}

#[test]
fn an_offset_moves_every_cue_but_not_before_the_start() {
    let still = LyricsTrack::parse_lrc("[00:00.1]a\n[00:02][00:05]b");
    let moved = LyricsTrack::parse_lrc("[offset:-500]\n[00:00.1]a\n[00:02][00:05]b");
    assert_eq!(starts(&still), vec![100, 2_000, 5_000]);
    assert_eq!(starts(&moved), vec![0, 1_500, 4_500]);
    assert_eq!(texts(&still), texts(&moved));
}

#[test]
fn joined_texts_merge() {
    let a = "[00:03]a3\n[00:01]a1";
    let b = "[00:02]b2\n[00:03]b3\n[00:01]b1";
    for end in ["", "\r", "\n", "\n\n"] {
        let joined = LyricsTrack::parse_lrc(&format!("{a}{end}\n{b}"));
        assert_eq!(starts(&joined), vec![1_000, 1_000, 2_000, 3_000, 3_000]);
        assert_eq!(texts(&joined), vec!["a1", "b1", "b2", "a3", "b3"]);
    }
    let joined = LyricsTrack::parse_lrc(&format!("[offset:500]\n{a}\n{b}"));
    assert_eq!(starts(&joined), vec![1_500, 1_500, 2_500, 3_500, 3_500]);
    assert_eq!(
        LyricsTrack::try_parse_lrc("[00:01.12٠]x").is_none(),
        LyricsTrack::try_parse_lrc("[00:01]a\n[00:01.12٠]x").is_none()
    );
}

#[test]
fn an_offset_line_in_front_moves_the_track() {
    let rest = "[00:03]c\n[00:01]a\n[00:02]b";
    for offset in [-1_500_i64, -999, 0, 250] {
        let still = LyricsTrack::parse_lrc(rest);
        let moved = LyricsTrack::parse_lrc(&format!("[offset:{offset}]\n{rest}"));
        let expected: Vec<u64> = starts(&still)
            .iter()
            .map(|start| (*start as i64 + offset).max(0) as u64)
            .collect();
        assert_eq!(starts(&moved), expected);
        assert_eq!(texts(&moved), texts(&still));
    }
}

#[test]
fn lines_that_meet_at_the_start_keep_the_order_of_the_file() {
    let rest = "[00:00.3]A\n[00:00.1]B";
    assert_eq!(texts(&LyricsTrack::parse_lrc(rest)), vec!["B", "A"]);
    let moved = LyricsTrack::parse_lrc(&format!("[offset:-500]\n{rest}"));
    assert_eq!(starts(&moved), vec![0, 0]);
    assert_eq!(texts(&moved), vec!["A", "B"]);
}

#[test]
fn words_are_trimmed_and_fit_in_one_line() {
    let t = LyricsTrack::parse_lrc(" [00:01] \t one  two \u{3000}\r\n[00:02]\n[00:03]x[00:04] y ");
    assert_eq!(texts(&t), vec!["one  two", "x y", "x y"]);
    for line in &t.lines {
        assert_eq!(line.text, line.text.trim());
        assert!(!line.text.is_empty() && !line.text.contains('\n'));
    }
}

#[test]
fn plain_files_can_be_read_up_to_the_largest_offset() {
    let largest = i64::MAX - 60_039_999;
    let latest = "[999:99.999]x";
    let t = LyricsTrack::try_parse_lrc(&format!("[offset:{largest}]\n{latest}")).unwrap();
    assert_eq!(starts(&t), vec![i64::MAX as u64]);
    let beyond = largest + 1;
    assert!(LyricsTrack::try_parse_lrc(&format!("[offset:{beyond}]\n{latest}")).is_none());
    assert!(LyricsTrack::try_parse_lrc(&format!("[offset:{}]\n{latest}", i64::MIN)).is_some());
}
