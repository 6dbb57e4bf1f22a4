use amberol_glass_lyrics::mask::{MaskRect, MaskUpdate};
use amberol_glass_lyrics::pattern::make_seed;
use amberol_glass_lyrics::reaction_diffusion_view::{
    viewport_length, FrameDelta, FrameStart, LyricRequest, ReactionDiffusionView, DEFAULT_SEED,
};
use amberol_glass_lyrics::renderer::{
    after_format, first_format, FormatStep, Pass, Renderer, StateFormat,
};

fn mask(value: u8) -> MaskUpdate {
    MaskUpdate {
        pixels: vec![value; 4 * 768 * 1024],
        bounds: MaskRect { x: 54, y: 132, width: 300, height: 100 },
        cue_start_ms: 0,
        duration_ms: 0,
    }
}

#[test]
fn a_blank_text_clears_the_canvas() {
    let mut view = ReactionDiffusionView::default();
    assert_eq!(
        view.set_lyric("words", 10, 20),
        LyricRequest::Render { cue_start_ms: 10, duration_ms: 20 }
    );
    assert!(view.pending_mask.is_none());
    view.accept_mask(mask(3), 10, 20);
    assert_eq!(view.last_bounds, Some(mask(3).bounds));
    let pending = view.pending_mask.as_ref().unwrap();
    assert_eq!((pending.cue_start_ms, pending.duration_ms), (10, 50));
    assert_eq!(pending.pixels[7], 3);
    assert_eq!(view.set_lyric(" \u{3000}\n", 1_500, 9), LyricRequest::Cleared);
    assert!(view.last_bounds.is_none());
    let pending = view.pending_mask.as_ref().unwrap();
    assert_eq!((pending.cue_start_ms, pending.duration_ms), (1_500, 0));
    assert!(pending.pixels.iter().all(|p| *p == 0));
    assert_eq!(pending.bounds, MaskRect::default());
}

#[test]
fn a_text_is_drawn_at_its_time() {
    for (length, drawn) in [(0, 50), (49, 50), (50, 50), (51, 51), (4_000, 4_000)] {
        let mut view = ReactionDiffusionView::default();
        match view.set_lyric("words", 1_234, length) {
            LyricRequest::Render { cue_start_ms, duration_ms } => {
                view.accept_mask(mask(3), cue_start_ms, duration_ms)
            }
            LyricRequest::Cleared => panic!("no text"),
        }
        let pending = view.pending_mask.as_ref().unwrap();
        assert_eq!((pending.cue_start_ms, pending.duration_ms), (1_234, drawn));
    }
}

#[test]
fn the_last_mask_wins() {
    let mut view = ReactionDiffusionView::default();
    view.accept_mask(mask(1), 1, 100);
    view.accept_mask(mask(2), 2, 200);
    let inputs = view.take_inputs();
    let taken = inputs.mask.unwrap();
    assert_eq!((taken.pixels[0], taken.cue_start_ms, taken.duration_ms), (2, 2, 200));
    assert!(view.take_inputs().mask.is_none());
}

#[test]
fn a_song_starts_anew() {
    let mut view = ReactionDiffusionView::default();
    assert_eq!(view.pattern_seed, DEFAULT_SEED);
    view.take_inputs();
    view.accept_mask(mask(1), 1, 100);
    view.set_playback_position(5_000);
    view.set_playing(true);
    assert!(view.finish_frame(true));
    view.begin_song(3_000, 42);
    let inputs = view.take_inputs();
    assert_eq!((inputs.pattern_seed, inputs.reset), (42, true));
    assert_eq!((inputs.position_ms, inputs.playing), (Some(0), true));
    assert!(inputs.mask.unwrap().pixels.iter().all(|p| *p == 0));
    let inputs = view.take_inputs();
    assert_eq!((inputs.reset, inputs.position_ms), (false, None));
}

#[test]
fn a_pattern_is_announced_once() {
    let mut view = ReactionDiffusionView::default();
    let told: Vec<bool> = [false, false, true, true, false, true]
        .iter()
        .map(|ready| view.finish_frame(*ready))
        .collect();
    assert_eq!(told, vec![false, false, true, false, false, false]);
    view.begin_song(500, 1);
    view.take_inputs();
    assert!(view.finish_frame(true));
}

#[test]
fn a_song_announces_its_pattern_once_whatever_comes_between() {
    let mut view = ReactionDiffusionView::default();
    for seed in [1, 2] {
        view.begin_song(3_000, seed);
        let mut told = Vec::new();
        for (frame, ready) in [false, false, true, true, false, true].into_iter().enumerate() {
            view.set_playback_position(frame as u64 * 40);
            view.tick((seed as i64 * 10 + frame as i64) * 40_000);
            view.set_lyric(" ", 0, 0);
            view.accept_mask(mask(1), 5, 60);
            view.set_playing(frame % 2 == 0);
            view.unrealize();
            view.renderer_created(true);
            view.take_inputs();
            told.push(view.finish_frame(ready));
        }
        assert_eq!(told, vec![false, false, true, false, false, false]);
    }
}

#[test]
fn a_frame_needs_a_renderer() {
    let mut view = ReactionDiffusionView::default();
    assert_eq!(view.begin_frame(), FrameStart::CreateRenderer);
    view.renderer_created(true);
    assert_eq!(view.begin_frame(), FrameStart::Draw);
    view.unrealize();
    assert_eq!(view.begin_frame(), FrameStart::CreateRenderer);
    view.renderer_created(false);
    assert_eq!(view.begin_frame(), FrameStart::Skip);
}

#[test]
fn frames_keep_their_distance() {
    let mut view = ReactionDiffusionView::default();
    assert!(!view.tick(32_999));
    assert!(view.tick(33_000));
    assert_eq!(view.frame_delta, FrameDelta::Nominal);
    assert!(!view.tick(65_999));
    assert!(view.tick(66_000));
    assert_eq!(view.frame_delta, FrameDelta::Micros(33_000));
    assert!(view.tick(106_000));
    assert_eq!(view.frame_delta, FrameDelta::Micros(40_000));
    assert!(view.tick(1_000_000));
    assert_eq!(view.frame_delta, FrameDelta::Micros(50_000));
    assert_eq!(view.last_frame_us, 1_000_000);
}

#[test]
fn steps_agree_with_floating_point() {
    for step in 33_000..60_000_i64 {
        let mut view = ReactionDiffusionView::default();
        view.last_frame_us = 1;
        assert!(view.tick(1 + step));
        let expected = (step as f32 / 1_000_000.0).clamp(0.001, 0.05);
        match view.frame_delta {
            FrameDelta::Micros(us) => assert!(us as f32 / 1_000_000.0 == expected),
            FrameDelta::Nominal => panic!("no step"),
        }
    }
}

#[test]
fn viewports_are_scaled_and_never_empty() {
    for (length, scale) in [(0, 1), (640, 2), (-5, 2), (i32::MAX, 2), (i32::MIN, 3), (7, 0)] {
        assert_eq!(viewport_length(length, scale), length.saturating_mul(scale).max(1));
    }
}

#[test]
fn initialization_takes_75_frames() {
    let mut renderer = Renderer::default();
    renderer.playback_running = true;
    for frame in 0..75 {
        assert!(!renderer.pattern_ready());
        let plan = renderer.plan_frame();
        assert_eq!((plan.passes, plan.carve), (48, false));
        assert_eq!(plan.advance, frame == 74);
    }
    assert!(renderer.pattern_ready());
    let plan = renderer.plan_frame();
    assert_eq!((plan.passes, plan.carve, plan.advance), (48, false, true));
    renderer.playback_running = false;
    let plan = renderer.plan_frame();
    assert_eq!((plan.passes, plan.carve, plan.advance), (0, false, false));
    assert_eq!(renderer.pattern_iterations, 3_600);
}

#[test]
fn cue_replacement_is_immediate() {
    let mut renderer = Renderer::default();
    renderer.pattern_iterations = 3_600;
    renderer.playback_running = true;
    let mut first = mask(1);
    first.cue_start_ms = 1_000;
    first.duration_ms = 2_000;
    renderer.set_text_mask(first);
    let plan = renderer.plan_frame();
    assert!(plan.carve);
    assert_eq!(plan.mask.unwrap()[0], 1);
    assert_eq!((renderer.lyric_start_ms, renderer.lyric_duration_ms), (1_000, 2_000));
    assert!(renderer.plan_frame().mask.is_none());
    renderer.set_text_mask(mask(0));
    let plan = renderer.plan_frame();
    assert!(!plan.carve && !renderer.has_current_mask);
    assert!(plan.mask.is_some());
}

#[test]
fn inputs_reset_and_queue() {
    let mut view = ReactionDiffusionView::default();
    view.begin_song(3_000, 9);
    view.accept_mask(mask(5), 3, 400);
    view.set_playing(true);
    let mut renderer = Renderer::default();
    renderer.pattern_iterations = 3_600;
    renderer.front = 1;
    let state = renderer.apply(view.take_inputs());
    assert!(state == Some(make_seed(9)));
    assert_eq!((renderer.front, renderer.pattern_iterations), (0, 0));
    assert!(renderer.playback_running && renderer.queued_mask.is_some());
    assert_eq!(renderer.pattern_seed, 9);
    assert!(renderer.apply(view.take_inputs()).is_none());
    assert!(renderer.queued_mask.is_some());
}

#[test]
fn passes_alternate_between_the_textures() {
    let mut renderer = Renderer::default();
    assert_eq!(renderer.run_simulation_pass(), Pass { source: 0, target: 1 });
    assert_eq!(renderer.run_simulation_pass(), Pass { source: 1, target: 0 });
    for _ in 0..47 {
        renderer.run_simulation_pass();
    }
    assert_eq!(renderer.front, 1);
}

#[test]
fn formats_are_tried_from_the_finest() {
    assert_eq!(first_format(), StateFormat::Rg32F);
    assert_eq!(after_format(StateFormat::Rg32F, true), FormatStep::Done);
    assert_eq!(
        after_format(StateFormat::Rg32F, false),
        FormatStep::Try(StateFormat::Rg16F)
    );
    assert_eq!(
        after_format(StateFormat::Rg16F, false),
        FormatStep::Try(StateFormat::Rg8)
    );
    assert_eq!(after_format(StateFormat::Rg8, false), FormatStep::Unsupported);
    assert_eq!(after_format(StateFormat::Rg8, true), FormatStep::Done);
}
