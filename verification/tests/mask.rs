use std::collections::hash_map::DefaultHasher;
use std::hash::{Hash, Hasher};

use amberol_glass_lyrics::mask::{
    build_mask_field, glyph_coverage, initial_font_size, next_font_size, place_lyric, place_text,
    text_mask, try_place_text, MaskRect,
};

fn rect(x: i32, y: i32, width: i32, height: i32) -> MaskRect {
    MaskRect { x, y, width, height }
}

#[test]
fn overlap_is_a_part_of_the_first_rectangle() {
    let a = rect(100, 100, 100, 50);
    assert_eq!(a.overlap_ratio(rect(150, 120, 100, 100)), (50 * 30, 5_000));
    assert_eq!(a.overlap_ratio(rect(200, 100, 10, 10)), (0, 1));
    assert_eq!(a.overlap_ratio(a), (5_000, 5_000));
    assert!(a.is_mostly_clear_of(rect(150, 120, 100, 100)));
    assert!(!a.is_mostly_clear_of(rect(132, 100, 68, 50)));
    assert!(!a.is_mostly_clear_of(rect(168, 100, 68, 50)));
    assert!(a.is_mostly_clear_of(rect(169, 100, 68, 50)));
    assert_eq!(MaskRect::default(), rect(0, 0, 0, 0));
}

#[test]
fn the_limit_of_overlap_agrees_with_floating_point() {
    for whole in 1..=517_440_i32 {
        let near = whole * 8 / 25;
        for part in [near - 1, near, near + 1, near + 2] {
            if 0 <= part && part <= whole {
                let ratio = part as f32 / whole as f32;
                assert_eq!(ratio < 0.32, part * 25 < whole * 8, "{} of {}", part, whole);
            }
        }
    }
}

#[test]
fn places_follow_the_hash() {
    assert_eq!(place_text(300, 100, 0, None), rect(234, 462, 300, 100));
    assert_eq!(place_text(300, 100, 1, None), rect(54, 132, 300, 100));
    assert_eq!(place_text(300, 100, 2, None), rect(414, 792, 300, 100));
    assert_eq!(place_text(300, 100, 3, None), rect(414, 228, 300, 100));
    assert_eq!(place_text(300, 100, 4, None), rect(54, 696, 300, 100));
    assert_eq!(place_text(300, 100, 5, None), rect(234, 462, 300, 100));
}

#[test]
fn layouts_are_cut_to_the_canvas() {
    assert_eq!(place_text(5_000, 5_000, 0, None), rect(54, 120, 660, 784));
    assert_eq!(place_text(5_000, 5_000, 1, None), rect(54, 108, 660, 784));
    assert_eq!(place_text(5_000, 5_000, 2, None), rect(54, 132, 660, 784));
    assert_eq!(place_text(5_000, 5_000, 3, None), rect(54, 108, 660, 784));
    assert_eq!(place_text(5_000, 5_000, 4, None), rect(54, 54, 660, 784));
    assert_eq!(place_text(-3, 0, 0, None), rect(383, 511, 1, 1));
}

#[test]
fn text_keeps_clear_of_the_previous_one() {
    let first = place_text(300, 100, 0, None);
    assert_eq!(place_text(300, 100, 0, Some(first)), rect(54, 132, 300, 100));
    let wide = place_text(660, 784, 2, None);
    assert_eq!(place_text(660, 784, 2, Some(wide)), wide);
}

#[test]
fn empty_and_distant_rectangles_do_not_overlap() {
    let none = MaskRect::default();
    assert_eq!(none.overlap_ratio(none), (0, 1));
    assert_eq!(none.overlap_ratio(rect(0, 0, 5, 5)), (0, 1));
    assert_eq!(rect(0, 0, 5, 5).overlap_ratio(rect(-9, -9, 4, 40)), (0, 1));
    assert_eq!(rect(-10, -10, 20, 20).overlap_ratio(rect(0, 0, 100, 5)), (50, 400));
}

#[test]
fn places_follow_the_characters_of_the_text() {
    let mut seen = Vec::new();
    for text in ["", "a", "b", "Hello", "Hello ", "Größe", "歌詞", "one two three", "x", "yz"] {
        let mut hasher = DefaultHasher::new();
        text.hash(&mut hasher);
        let hash = hasher.finish() as usize;
        let here = place_lyric(text, 300, 100, None);
        assert_eq!(here, try_place_text(300, 100, hash, None));
        assert_eq!(
            place_lyric(text, 300, 100, here),
            try_place_text(300, 100, hash, here)
        );
        if !seen.contains(&here) {
            seen.push(here);
        }
    }
    assert!(seen.len() > 1);
}

#[test]
fn hashes_at_the_end_of_their_range_are_told() {
    let max = usize::MAX;
    assert!(try_place_text(300, 100, max, None).is_some());
    let here = try_place_text(300, 100, max, None).unwrap();
    assert!(try_place_text(300, 100, max, Some(here)).is_none());
    assert!(try_place_text(300, 100, max - 4, Some(here)).is_some());
    assert!(try_place_text(660, 784, max, Some(rect(54, 120, 660, 784))).is_none());
}

#[test]
fn font_sizes_follow_the_visible_characters() {
    assert_eq!(initial_font_size(""), 84);
    assert_eq!(initial_font_size(&"a ".repeat(20)), 84);
    assert_eq!(initial_font_size(&"a ".repeat(21)), 74);
    assert_eq!(initial_font_size(&"a\u{3000}".repeat(34)), 74);
    assert_eq!(initial_font_size(&"a".repeat(35)), 62);
}

#[test]
fn font_sizes_shrink_until_the_text_fits() {
    assert_eq!(next_font_size(84, 660, 300), None);
    assert_eq!(next_font_size(84, 661, 300), Some(82));
    assert_eq!(next_font_size(84, 660, 301), Some(82));
    assert_eq!(next_font_size(42, 9_999, 9_999), None);
    let mut size = initial_font_size("x");
    let mut steps = 0;
    while let Some(next) = next_font_size(size, 9_999, 9_999) {
        size = next;
        steps += 1;
    }
    assert_eq!((size, steps), (42, 21));
}

#[test]
fn mask_field_fills_the_first_channel_only() {
    assert_eq!(
        build_mask_field(&[9, 8, 7], 2, 2),
        vec![9, 0, 0, 0, 8, 0, 0, 0, 7, 0, 0, 0, 0, 0, 0, 0]
    );
    assert_eq!(build_mask_field(&[], 0, 5), Vec::<u8>::new());
}

#[test]
fn coverage_is_turned_upside_down() {
    let stride = 768 * 4 + 8;
    let mut data = vec![0_u8; stride * 1024];
    data[2] = 11;
    data[1023 * stride + 5 * 4 + 2] = 22;
    data[3] = 99;
    let coverage = glyph_coverage(&data, stride);
    assert_eq!(coverage.len(), 768 * 1024);
    assert_eq!(coverage[1023 * 768], 11);
    assert_eq!(coverage[5], 22);
    assert_eq!(coverage.iter().filter(|c| **c != 0).count(), 2);
    let mask = text_mask(&data, stride, rect(54, 132, 300, 100));
    assert_eq!(mask.pixels.len(), 4 * 768 * 1024);
    assert_eq!(mask.pixels[4 * 5], 22);
    assert_eq!(mask.pixels[4 * 1023 * 768], 11);
    assert_eq!(mask.pixels.iter().filter(|c| **c != 0).count(), 2);
    assert_eq!(mask.bounds, rect(54, 132, 300, 100));
    assert_eq!((mask.cue_start_ms, mask.duration_ms), (0, 0));
}

#[test]
fn shared_pixels_are_those_in_both_rectangles() {
    let rects = [rect(54, 132, 3, 4), rect(55, 130, 6, 5), rect(57, 132, 1, 1), rect(50, 100, 20, 60)];
    for a in rects {
        for b in rects {
            let mut both = 0;
            for x in 0..120 {
                for y in 80..200 {
                    let holds = |r: MaskRect| {
                        r.x <= x && x < r.x + r.width && r.y <= y && y < r.y + r.height
                    };
                    if holds(a) && holds(b) {
                        both += 1;
                    }
                }
            }
            assert_eq!(a.overlap_ratio(b).0, both);
            assert_eq!(b.overlap_ratio(a).0, both);
        }
    }
}

#[test]
fn the_whole_is_shared_exactly_with_what_holds_it() {
    let outer = rect(-1_000, -1_000, 5_000, 5_000);
    let inner = rect(-999, 20, 30, 40);
    assert_eq!(inner.overlap_ratio(outer), (1_200, 1_200));
    assert_eq!(outer.overlap_ratio(inner), (1_200, 25_000_000));
    assert_eq!(rect(-1_001, 20, 30, 40).overlap_ratio(outer), (1_160, 1_200));
}

#[test]
fn places_keep_away_from_the_lower_edge() {
    let mut lowest = 0;
    for height in 1..=784 {
        for hash in 0..5 {
            let r = place_text(300, height, hash, None);
            lowest = lowest.max(r.y + r.height);
        }
    }
    assert_eq!(lowest, 916);
}
