use amberol_glass_lyrics::pattern::{
    make_seed, random_bits, splitmix64, DISTURB_FROM, LARGE_FROM, SIM_HEIGHT, SIM_PIXELS,
    SIM_WIDTH,
};

fn unit(bits: u64) -> f32 {
    bits as f32 / ((1_u32 << 24) - 1) as f32
}

/// The same pattern drawn with floating-point radii.
fn float_seed(pattern_seed: u64) -> Vec<f32> {
    let mut pixels = vec![0.0_f32; (SIM_WIDTH * SIM_HEIGHT * 2) as usize];
    for pair in pixels.chunks_exact_mut(2) {
        pair[0] = 1.0;
        pair[1] = 0.0;
    }
    let mut random = pattern_seed ^ 0x6A09_E667_F3BC_C909;
    let cell = 12;
    let cells_x = (SIM_WIDTH + cell - 1) / cell;
    let cells_y = (SIM_HEIGHT + cell - 1) / cell;
    for cell_y in 0..cells_y {
        for cell_x in 0..cells_x {
            if unit(random_bits(&mut random)) < 0.965 {
                continue;
            }
            let center_x = (cell_x * cell + cell / 2).min(SIM_WIDTH - 1) as f32;
            let center_y = (cell_y * cell + cell / 2).min(SIM_HEIGHT - 1) as f32;
            let radius = 2.6 + unit(random_bits(&mut random)) * 0.8;
            let min_x = (center_x - radius).floor().max(0.0) as i32;
            let max_x = (center_x + radius).ceil().min((SIM_WIDTH - 1) as f32) as i32;
            let min_y = (center_y - radius).floor().max(0.0) as i32;
            let max_y = (center_y + radius).ceil().min((SIM_HEIGHT - 1) as f32) as i32;
            for y in min_y..=max_y {
                for x in min_x..=max_x {
                    let dx = x as f32 + 0.5 - center_x;
                    let dy = y as f32 + 0.5 - center_y;
                    if dx * dx + dy * dy <= radius * radius {
                        let index = ((y * SIM_WIDTH + x) * 2) as usize;
                        pixels[index] = 0.45;
                        pixels[index + 1] = 0.95;
                    }
                }
            }
        }
    }
    pixels
}

#[test]
fn audio_seed_is_deterministic_two_channel_gray_scott_state() {
    let first = make_seed(0x1234_5678);
    let again = make_seed(0x1234_5678);
    let other = make_seed(0x8765_4321);
    assert_eq!(first, again);
    assert_ne!(first, other);
    assert_eq!(first.len(), (SIM_WIDTH * SIM_HEIGHT * 2) as usize);
    let disturbed = first
        .chunks_exact(2)
        .filter(|pair| pair[1] as f32 / 100.0 > 0.5 && (pair[0] as f32 / 100.0) < 0.9)
        .count();
    assert!(disturbed > 1_000);
}

#[test]
fn states_agree_with_floating_point_radii() {
    for seed in [0, 1, 0x1234_5678, 0xA6D1_35C7_94E2_8B01, u64::MAX] {
        let ours: Vec<f32> = make_seed(seed).iter().map(|v| *v as f32 / 100.0).collect();
        assert!(ours == float_seed(seed));
    }
}

#[test]
fn every_draw_falls_on_the_right_side_of_the_thresholds() {
    for bits in 0..(1_u64 << 24) {
        let u = unit(bits);
        assert!((u < 0.965) == (bits < DISTURB_FROM));
        let radius = 2.6 + u * 0.8;
        let square = radius * radius;
        assert!(6.5 <= square && square < 12.5);
        assert!((8.5 <= square) == (bits >= LARGE_FROM));
    }
}

#[test]
fn splitmix64_gives_the_published_sequence() {
    let mut state = 1234567;
    assert_eq!(splitmix64(&mut state), 6457827717110365317);
    assert_eq!(splitmix64(&mut state), 3203168211198807973);
    assert_eq!(splitmix64(&mut state), 9817491932198370423);
    let mut state = 1234567;
    assert_eq!(random_bits(&mut state), 6457827717110365317 >> 40);
}

#[test]
fn disturbances_stay_in_their_cells() {
    let state = make_seed(7);
    for p in 0..SIM_PIXELS {
        let pair = (state[2 * p], state[2 * p + 1]);
        assert!(pair == (100, 0) || pair == (45, 95));
        let (x, y) = (p % 768 % 12, p / 768);
        if pair == (45, 95) {
            assert!((3..=8).contains(&x));
            assert!((3..=8).contains(&(y % 12)) || y >= 1020);
        }
    }
}

#[test]
fn cells_hold_one_dot() {
    for seed in [3, 0x1234_5678] {
        let state = make_seed(seed);
        let mut seen = [0; 5];
        let sizes = [0, 24, 32, 18, 22];
        for row in 0..86 {
            for column in 0..64 {
                let mut size = 0;
                for y in row * 12..((row + 1) * 12).min(1024) {
                    for x in column * 12..(column + 1) * 12 {
                        if state[2 * (y * 768 + x)] == 45 {
                            let dx = 2 * (x as i32 - (column * 12 + 6) as i32) + 1;
                            let dy = 2 * (y as i32 - ((row * 12 + 6).min(1023)) as i32) + 1;
                            assert!(dx * dx + dy * dy <= 34);
                            size += 1;
                        }
                    }
                }
                let kind = sizes.iter().position(|s| *s == size).expect("a dot");
                assert!(kind == 0 || (kind > 2) == (row == 85));
                seen[kind] += 1;
            }
        }
        assert!(seen[0] > 5_000 && seen[1] > 20 && seen[2] > 20);
    }
}
