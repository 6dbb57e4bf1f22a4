//! The canvas behind the lyrics: what waits to be drawn, and the course of a
//! frame.

use vstd::prelude::*;

use crate::mask::{MaskRect, MaskUpdate};
use crate::pattern::SIM_PIXELS;
use crate::text;

verus! {

/// The seed of the pattern before the first song.
pub const DEFAULT_SEED: u64 = 0xA6D1_35C7_94E2_8B01;

/// The shortest time, in microseconds, between two frames.
pub const FRAME_US: i64 = 33_000;

/// The shortest step, in microseconds, that a frame moves the song by.
pub const MIN_STEP_US: i64 = 1_000;

/// The longest step, in microseconds, that a frame moves the song by.
pub const MAX_STEP_US: i64 = 50_000;

/// The shortest time, in milliseconds, for which a text is carved.
pub const MIN_CUE_MS: u64 = 50;

/// The time that a frame moves the song by.
#[derive(Debug, Clone, Copy, PartialEq, Eq, Structural)]
pub enum FrameDelta {
    /// A thirtieth of a second.
    Nominal,
    /// A number of microseconds.
    Micros(i64),
}

/// What a new text asks for.
#[derive(Debug, Clone, Copy, PartialEq, Eq, Structural)]
pub enum LyricRequest {
    /// Nothing: the text is blank, and an empty mask waits to be drawn.
    Cleared,
    /// A mask of the text, away from the last one, for this time.
    Render { cue_start_ms: u64, duration_ms: u64 },
}

/// How a frame starts.
#[derive(Debug, Clone, Copy, PartialEq, Eq, Structural)]
pub enum FrameStart {
    /// The canvas is out of use.
    Skip,
    /// The renderer has to be made first.
    CreateRenderer,
    /// The frame can be drawn.
    Draw,
}

/// What a frame hands to the renderer.
#[derive(Debug)]
pub struct FrameInputs {
    pub pattern_seed: u64,
    pub reset: bool,
    pub mask: Option<MaskUpdate>,
    pub position_ms: Option<u64>,
    pub playing: bool,
}

/// The state of the canvas.
#[derive(Debug)]
pub struct ReactionDiffusionView {
    pub has_renderer: bool,
    pub pending_mask: Option<MaskUpdate>,
    pub last_bounds: Option<MaskRect>,
    pub pending_position_ms: Option<u64>,
    pub reset_pattern: bool,
    pub pattern_seed: u64,
    pub playing: bool,
    pub pattern_ready_emitted: bool,
    pub last_frame_us: i64,
    pub frame_delta: FrameDelta,
    pub init_failed: bool,
}

/// Whether a text is white space alone.
pub open spec fn blank(s: Seq<char>) -> bool {
    text::trimmed(s).len() == 0
}

/// Whether a mask holds no text.
pub open spec fn is_empty_mask(m: MaskUpdate, cue_start_ms: u64) -> bool {
    &&& m.pixels@.len() == 4 * SIM_PIXELS
    &&& forall|i: int| 0 <= i < m.pixels@.len() ==> #[trigger] m.pixels@[i] == 0
    &&& m.bounds == (MaskRect { x: 0, y: 0, width: 0, height: 0 })
    &&& m.cue_start_ms == cue_start_ms
    &&& m.duration_ms == 0
}

/// What taking a text does: a blank one leaves an empty mask to be drawn and
/// no last text; any other changes nothing until its mask comes, and asks for
/// it with the time of the text.
pub open spec fn lyric_taken(
    before: ReactionDiffusionView,
    after: ReactionDiffusionView,
    text: Seq<char>,
    cue_start_ms: u64,
    duration_ms: u64,
    request: LyricRequest,
) -> bool {
    if blank(text) {
        &&& request == LyricRequest::Cleared
        &&& after.pending_mask matches Some(m)
        &&& is_empty_mask(m, cue_start_ms)
        &&& after == (ReactionDiffusionView {
            last_bounds: None,
            pending_mask: after.pending_mask,
            ..before
        })
    } else {
        &&& request == (LyricRequest::Render { cue_start_ms, duration_ms })
        &&& after == before
    }
}

/// What taking the mask of a text does.
pub open spec fn mask_taken(
    before: ReactionDiffusionView,
    update: MaskUpdate,
    cue_start_ms: u64,
    duration_ms: u64,
) -> ReactionDiffusionView {
    ReactionDiffusionView {
        last_bounds: Some(update.bounds),
        pending_mask: Some(
            MaskUpdate {
                cue_start_ms,
                duration_ms: if duration_ms < MIN_CUE_MS {
                    MIN_CUE_MS
                } else {
                    duration_ms
                },
                ..update
            },
        ),
        ..before
    }
}

/// What starting a song does.
pub open spec fn song_begun(
    before: ReactionDiffusionView,
    after: ReactionDiffusionView,
    pattern_seed: u64,
) -> bool {
    &&& after.pending_mask matches Some(m)
    &&& is_empty_mask(m, 0)
    &&& after == (ReactionDiffusionView {
        last_bounds: None,
        pending_mask: after.pending_mask,
        pattern_seed,
        pending_position_ms: Some(0),
        reset_pattern: true,
        pattern_ready_emitted: false,
        ..before
    })
}

/// The canvas with the song at a position.
pub open spec fn positioned(
    before: ReactionDiffusionView,
    position_ms: u64,
) -> ReactionDiffusionView {
    ReactionDiffusionView { pending_position_ms: Some(position_ms), ..before }
}

/// The canvas after a tick of the frame clock. A frame is due once the last
/// one is long enough ago.
pub open spec fn ticked(v: ReactionDiffusionView, now_us: i64) -> ReactionDiffusionView {
    if now_us - v.last_frame_us >= FRAME_US {
        ReactionDiffusionView {
            last_frame_us: now_us,
            frame_delta: step_between(v.last_frame_us, now_us),
            ..v
        }
    } else {
        v
    }
}

/// The canvas once the renderer is made, or could not be.
pub open spec fn with_renderer(v: ReactionDiffusionView, ok: bool) -> ReactionDiffusionView {
    if ok {
        ReactionDiffusionView { has_renderer: true, ..v }
    } else {
        ReactionDiffusionView { init_failed: true, ..v }
    }
}

/// What waits for the next frame.
pub open spec fn inputs_of(v: ReactionDiffusionView) -> FrameInputs {
    FrameInputs {
        pattern_seed: v.pattern_seed,
        reset: v.reset_pattern,
        mask: v.pending_mask,
        position_ms: v.pending_position_ms,
        playing: v.playing,
    }
}

/// The canvas once what waits is handed over.
pub open spec fn inputs_taken(v: ReactionDiffusionView) -> ReactionDiffusionView {
    ReactionDiffusionView {
        reset_pattern: false,
        pattern_ready_emitted: v.pattern_ready_emitted && !v.reset_pattern,
        pending_mask: None,
        pending_position_ms: None,
        ..v
    }
}

/// The canvas after a frame that ends with the pattern ready or not.
pub open spec fn frame_finished(v: ReactionDiffusionView, ready: bool) -> ReactionDiffusionView {
    ReactionDiffusionView { pattern_ready_emitted: v.pattern_ready_emitted || ready, ..v }
}

/// Whether the end of a frame announces the pattern.
pub open spec fn announces(v: ReactionDiffusionView, ready: bool) -> bool {
    ready && !v.pattern_ready_emitted
}

/// The mask without text.
fn empty_mask(cue_start_ms: u64) -> (r: MaskUpdate)
    ensures
        is_empty_mask(r, cue_start_ms),
{
    let mut pixels: Vec<u8> = Vec::new();
    while pixels.len() < 4 * SIM_PIXELS
        invariant
            pixels@.len() <= 4 * SIM_PIXELS,
            forall|i: int| 0 <= i < pixels@.len() ==> #[trigger] pixels@[i] == 0,
        decreases 4 * SIM_PIXELS - pixels@.len(),
    {
        pixels.push(0);
    }
    MaskUpdate { pixels, bounds: MaskRect::default(), cue_start_ms, duration_ms: 0 }
}

/// A length of the widget in pixels of the screen, as far as 32 bits hold it,
/// and no less than one.
pub open spec fn scaled_length(length: i32, scale: i32) -> int {
    if length * scale < 1 {
        1
    } else if length * scale > i32::MAX {
        i32::MAX as int
    } else {
        length * scale
    }
}

/// Lengths are scaled; a length that is not positive becomes one, and one
/// beyond 32 bits the largest.
pub proof fn law_lengths_are_scaled(length: i32, scale: i32)
    ensures
        1 <= length * scale <= 0x7fff_ffff ==> scaled_length(length, scale) == length * scale,
        length * scale <= 0 ==> scaled_length(length, scale) == 1,
        length * scale > 0x7fff_ffff ==> scaled_length(length, scale) == 0x7fff_ffff,
{
}

/// A length of the widget in pixels of the screen, no less than one.
pub fn viewport_length(length: i32, scale: i32) -> (r: i32)
    ensures
        r == if length * scale < 1 {
            1
        } else if length * scale > i32::MAX {
            i32::MAX as int
        } else {
            length * scale
        },
        r == scaled_length(length, scale),
{
    assert(-0x4000_0000_0000_0000 <= length * scale <= 0x4000_0000_0000_0000) by (nonlinear_arith)
        requires
            -0x8000_0000 <= length <= 0x7fff_ffff,
            -0x8000_0000 <= scale <= 0x7fff_ffff,
    ;
    let product: i64 = length as i64 * scale as i64;
    if product < 1 {
        1
    } else if product > i32::MAX as i64 {
        i32::MAX
    } else {
        product as i32
    }
}

impl Default for ReactionDiffusionView {
    fn default() -> (r: Self)
        ensures
            r.wf(),
            !r.has_renderer,
            r.pending_mask is None,
            r.last_bounds is None,
            r.pending_position_ms == Some(0u64),
            r.reset_pattern,
            r.pattern_seed == DEFAULT_SEED,
            !r.playing,
            !r.pattern_ready_emitted,
            r.last_frame_us == 0,
            r.frame_delta == FrameDelta::Nominal,
            !r.init_failed,
    {
        ReactionDiffusionView {
            has_renderer: false,
            pending_mask: None,
            last_bounds: None,
            pending_position_ms: Some(0),
            reset_pattern: true,
            pattern_seed: DEFAULT_SEED,
            playing: false,
            pattern_ready_emitted: false,
            last_frame_us: 0,
            frame_delta: FrameDelta::Nominal,
            init_failed: false,
        }
    }
}

impl ReactionDiffusionView {
    /// The last text lies on the canvas, and a mask that waits has the size
    /// of the canvas.
    pub open spec fn wf(&self) -> bool {
        &&& self.last_bounds matches Some(rect) ==> rect.wf()
        &&& self.pending_mask matches Some(m) ==> m.pixels@.len() == 4 * SIM_PIXELS
    }

    /// Takes a text. A blank one is cleared at once; any other asks for a
    /// mask, which `accept_mask` then takes.
    pub fn set_lyric(&mut self, text: &str, cue_start_ms: u64, duration_ms: u64) -> (r: LyricRequest)
        requires
            old(self).wf(),
        ensures
            final(self).wf(),
            lyric_taken(*old(self), *final(self), text@, cue_start_ms, duration_ms, r),
    {
        let chars: Vec<char> = text::chars_of(text);
        if text::trim(chars.as_slice()).len() == 0 {
            self.last_bounds = None;
            self.pending_mask = Some(empty_mask(cue_start_ms));
            LyricRequest::Cleared
        } else {
            LyricRequest::Render { cue_start_ms, duration_ms }
        }
    }

    /// Takes the mask that a text asked for, with the time that it asked for
    /// it. It waits to be drawn from now on.
    pub fn accept_mask(&mut self, update: MaskUpdate, cue_start_ms: u64, duration_ms: u64)
        requires
            old(self).wf(),
            update.bounds.wf(),
            update.pixels@.len() == 4 * SIM_PIXELS,
        ensures
            final(self).wf(),
            *final(self) == mask_taken(*old(self), update, cue_start_ms, duration_ms),
    {
        self.last_bounds = Some(update.bounds);
        self.pending_mask = Some(
            MaskUpdate {
                pixels: update.pixels,
                bounds: update.bounds,
                cue_start_ms,
                duration_ms: if duration_ms < MIN_CUE_MS {
                    MIN_CUE_MS
                } else {
                    duration_ms
                },
            },
        );
    }

    /// Starts a song: its pattern grows anew from its seed, and no text is
    /// left of the song before. The length of the intro, in milliseconds,
    /// changes nothing.
    pub fn begin_song(&mut self, _intro_ms: u64, pattern_seed: u64)
        requires
            old(self).wf(),
        ensures
            final(self).wf(),
            song_begun(*old(self), *final(self), pattern_seed),
    {
        self.last_bounds = None;
        self.pattern_seed = pattern_seed;
        self.pending_position_ms = Some(0);
        self.reset_pattern = true;
        self.pattern_ready_emitted = false;
        proof {
            reveal_strlit("");
        }
        let _request: LyricRequest = self.set_lyric("", 0, 0);
    }

    /// Sets the position of the song, in milliseconds.
    pub fn set_playback_position(&mut self, position_ms: u64)
        ensures
            *final(self) == positioned(*old(self), position_ms),
    {
        self.pending_position_ms = Some(position_ms);
    }

    /// Starts or stops the song.
    pub fn set_playing(&mut self, playing: bool)
        ensures
            *final(self) == (ReactionDiffusionView { playing, ..*old(self) }),
    {
        self.playing = playing;
    }

    /// Takes a tick of the frame clock, in microseconds. Tells whether a
    /// frame is due.
    pub fn tick(&mut self, now_us: i64) -> (due: bool)
        requires
            i64::MIN <= now_us - old(self).last_frame_us <= i64::MAX,
        ensures
            due == (now_us - old(self).last_frame_us >= FRAME_US),
            *final(self) == ticked(*old(self), now_us),
    {
        let previous: i64 = self.last_frame_us;
        if now_us - previous >= FRAME_US {
            self.frame_delta = if previous > 0 {
                let step: i64 = now_us - previous;
                FrameDelta::Micros(
                    if step < MIN_STEP_US {
                        MIN_STEP_US
                    } else if step > MAX_STEP_US {
                        MAX_STEP_US
                    } else {
                        step
                    },
                )
            } else {
                FrameDelta::Nominal
            };
            self.last_frame_us = now_us;
            true
        } else {
            false
        }
    }

    /// Tells how the next frame starts.
    pub fn begin_frame(&self) -> (r: FrameStart)
        ensures
            r == if self.init_failed {
                FrameStart::Skip
            } else if !self.has_renderer {
                FrameStart::CreateRenderer
            } else {
                FrameStart::Draw
            },
            r == frame_start(*self),
    {
        if self.init_failed {
            FrameStart::Skip
        } else if !self.has_renderer {
            FrameStart::CreateRenderer
        } else {
            FrameStart::Draw
        }
    }

    /// Takes the outcome of making the renderer. A failure puts the canvas
    /// out of use.
    pub fn renderer_created(&mut self, ok: bool)
        ensures
            *final(self) == with_renderer(*old(self), ok),
    {
        if ok {
            self.has_renderer = true;
        } else {
            self.init_failed = true;
        }
    }

    /// Forgets the renderer.
    pub fn unrealize(&mut self)
        ensures
            *final(self) == (ReactionDiffusionView { has_renderer: false, ..*old(self) }),
    {
        self.has_renderer = false;
    }

    /// Hands over what waits for the next frame.
    pub fn take_inputs(&mut self) -> (r: FrameInputs)
        requires
            old(self).wf(),
        ensures
            final(self).wf(),
            r == inputs_of(*old(self)),
            *final(self) == inputs_taken(*old(self)),
    {
        let reset: bool = self.reset_pattern;
        self.reset_pattern = false;
        if reset {
            self.pattern_ready_emitted = false;
        }
        let mask: Option<MaskUpdate> = self.pending_mask.take();
        let position_ms: Option<u64> = self.pending_position_ms.take();
        FrameInputs {
            pattern_seed: self.pattern_seed,
            reset,
            mask,
            position_ms,
            playing: self.playing,
        }
    }

    /// Ends a frame after which the pattern is ready or not. Tells whether to
    /// announce that it is.
    pub fn finish_frame(&mut self, ready: bool) -> (announce: bool)
        ensures
            announce == announces(*old(self), ready),
            *final(self) == frame_finished(*old(self), ready),
    {
        let announce: bool = ready && !self.pattern_ready_emitted;
        if ready {
            self.pattern_ready_emitted = true;
        }
        announce
    }
}

/// The step of a frame that comes at `now_us` after one at `previous`. The
/// first frame steps by a thirtieth of a second.
pub open spec fn step_between(previous: i64, now_us: i64) -> FrameDelta {
    if previous > 0 {
        let step = now_us - previous;
        FrameDelta::Micros(
            if step < MIN_STEP_US {
                MIN_STEP_US
            } else if step > MAX_STEP_US {
                MAX_STEP_US
            } else {
                step as i64
            },
        )
    } else {
        FrameDelta::Nominal
    }
}

/// The first frame of a song starts the pattern anew from the seed of the
/// song, at its start and without text.
pub proof fn law_song_starts_anew(
    before: ReactionDiffusionView,
    after: ReactionDiffusionView,
    pattern_seed: u64,
)
    requires
        song_begun(before, after, pattern_seed),
    ensures
        inputs_of(after).reset,
        inputs_of(after).pattern_seed == pattern_seed,
        inputs_of(after).position_ms == Some(0u64),
        inputs_of(after).mask matches Some(m) && is_empty_mask(m, 0),
        inputs_of(after).playing == before.playing,
        !inputs_taken(after).pattern_ready_emitted,
{
}

/// A text that is not blank is drawn at its own time: the mask that it asks
/// for waits from the start of its cue on, and for as long as the cue lasts,
/// but no shorter than a moment. Nothing else changes.
pub proof fn law_text_is_drawn_at_its_time(
    before: ReactionDiffusionView,
    asked: ReactionDiffusionView,
    text: Seq<char>,
    start_ms: u64,
    length_ms: u64,
    request: LyricRequest,
    update: MaskUpdate,
)
    requires
        !blank(text),
        lyric_taken(before, asked, text, start_ms, length_ms, request),
    ensures
        request is Render,
        ({
            let drawn = mask_taken(
                asked,
                update,
                request->Render_cue_start_ms,
                request->Render_duration_ms,
            );
            &&& drawn.last_bounds == Some(update.bounds)
            &&& drawn == (ReactionDiffusionView {
                last_bounds: drawn.last_bounds,
                pending_mask: drawn.pending_mask,
                ..before
            })
            &&& drawn.pending_mask matches Some(m)
            &&& m.pixels == update.pixels
            &&& m.bounds == update.bounds
            &&& m.cue_start_ms == start_ms
            &&& m.duration_ms == if length_ms < MIN_CUE_MS {
                MIN_CUE_MS
            } else {
                length_ms
            }
        }),
{
}

/// What one frame takes, the next does not find again.
pub proof fn law_inputs_are_taken_once(v: ReactionDiffusionView)
    ensures
        !inputs_of(inputs_taken(v)).reset,
        inputs_of(inputs_taken(v)).mask is None,
        inputs_of(inputs_taken(v)).position_ms is None,
        inputs_of(inputs_taken(v)).playing == inputs_of(v).playing,
        inputs_of(inputs_taken(v)).pattern_seed == inputs_of(v).pattern_seed,
{
}

/// Of the masks that come between two frames the last is drawn.
pub proof fn law_last_mask_wins(
    v: ReactionDiffusionView,
    first: MaskUpdate,
    second: MaskUpdate,
    start_1: u64,
    duration_1: u64,
    start_2: u64,
    duration_2: u64,
)
    ensures
        mask_taken(mask_taken(v, first, start_1, duration_1), second, start_2, duration_2)
            == mask_taken(v, second, start_2, duration_2),
        inputs_of(mask_taken(v, second, start_2, duration_2)).mask matches Some(m) && m.pixels
            == second.pixels && m.cue_start_ms == start_2 && m.duration_ms >= MIN_CUE_MS,
{
}

/// What can happen to the canvas while a song lasts.
pub enum Step {
    /// A frame that ends with the pattern ready or not.
    Frame(bool),
    /// The song moves to a position.
    Position(u64),
    /// A text comes, with its start and its length.
    Lyric(Seq<char>, u64, u64, LyricRequest),
    /// The mask of a text comes, with its start and its length.
    Mask(MaskUpdate, u64, u64),
    /// The song starts or stops.
    Playing(bool),
    /// The frame clock ticks.
    Tick(i64),
    /// The renderer is made, or could not be.
    Created(bool),
    /// The renderer is forgotten.
    Unrealized,
}

/// Whether a step leads from one state of the canvas to another. A frame takes
/// what waits and then finishes.
pub open spec fn leads(before: ReactionDiffusionView, step: Step, after: ReactionDiffusionView) -> bool {
    match step {
        Step::Frame(ready) => after == frame_finished(inputs_taken(before), ready),
        Step::Position(position_ms) => after == positioned(before, position_ms),
        Step::Lyric(text, cue_start_ms, duration_ms, request) => lyric_taken(
            before,
            after,
            text,
            cue_start_ms,
            duration_ms,
            request,
        ),
        Step::Mask(update, cue_start_ms, duration_ms) => after == mask_taken(
            before,
            update,
            cue_start_ms,
            duration_ms,
        ),
        Step::Playing(playing) => after == (ReactionDiffusionView { playing, ..before }),
        Step::Tick(now_us) => after == ticked(before, now_us),
        Step::Created(ok) => after == with_renderer(before, ok),
        Step::Unrealized => after == (ReactionDiffusionView { has_renderer: false, ..before }),
    }
}

/// Whether each step leads from the state of its number to the next one.
pub open spec fn is_run(states: Seq<ReactionDiffusionView>, steps: Seq<Step>) -> bool {
    &&& states.len() == steps.len() + 1
    &&& forall|i: int| 0 <= i < steps.len() ==> leads(states[i], #[trigger] steps[i], states[i + 1])
}

/// Whether a step is a frame that ends with the pattern ready.
pub open spec fn is_ready_frame(step: Step) -> bool {
    step == Step::Frame(true)
}

/// Whether a step, taken in a state of the canvas, announces the pattern.
pub open spec fn step_announces(v: ReactionDiffusionView, step: Step) -> bool {
    step matches Step::Frame(ready) && announces(inputs_taken(v), ready)
}

/// How often a run announces the pattern.
pub open spec fn announcements(states: Seq<ReactionDiffusionView>, steps: Seq<Step>) -> nat
    decreases steps.len(),
{
    if steps.len() == 0 {
        0
    } else {
        announcements(states.drop_last(), steps.drop_last()) + (if step_announces(
            states[steps.len() - 1],
            steps.last(),
        ) {
            1nat
        } else {
            0nat
        })
    }
}

/// Whether the canvas still has a pattern to announce.
pub open spec fn announcement_due(v: ReactionDiffusionView) -> bool {
    v.reset_pattern || !v.pattern_ready_emitted
}

/// Whether one of the first `n` steps is a frame that ends with the pattern
/// ready.
pub open spec fn was_ready(steps: Seq<Step>, n: int) -> bool {
    exists|j: int| 0 <= j < n && is_ready_frame(#[trigger] steps[j])
}

/// An announcement is due until the first frame that ends with the pattern
/// ready, and then no more.
proof fn lemma_due_until_ready(states: Seq<ReactionDiffusionView>, steps: Seq<Step>, n: int)
    requires
        is_run(states, steps),
        0 <= n <= steps.len(),
    ensures
        announcement_due(states[n]) == (announcement_due(states[0]) && !was_ready(steps, n)),
    decreases n,
{
    if n > 0 {
        lemma_due_until_ready(states, steps, n - 1);
        assert(leads(states[n - 1], steps[n - 1], states[n - 1 + 1]));
        assert(was_ready(steps, n) == (was_ready(steps, n - 1) || is_ready_frame(steps[n - 1]))) by {
            if was_ready(steps, n - 1) {
                let j = choose|j: int| 0 <= j < n - 1 && is_ready_frame(#[trigger] steps[j]);
                assert(is_ready_frame(steps[j]));
            }
        }
    }
}

/// Over any run of steps without another song, a pattern that is still to be
/// announced is announced in the first frame that ends with it ready, and in
/// no other; one that is announced already is not announced again.
pub proof fn law_pattern_is_announced_once(
    states: Seq<ReactionDiffusionView>,
    steps: Seq<Step>,
)
    requires
        is_run(states, steps),
    ensures
        forall|i: int|
            0 <= i < steps.len() ==> step_announces(states[i], #[trigger] steps[i]) == (
            announcement_due(states[0]) && is_ready_frame(steps[i]) && !was_ready(steps, i)),
        announcements(states, steps) == if announcement_due(states[0]) && was_ready(
            steps,
            steps.len() as int,
        ) {
            1nat
        } else {
            0nat
        },
    decreases steps.len(),
{
    assert forall|i: int| 0 <= i < steps.len() implies step_announces(
        states[i],
        #[trigger] steps[i],
    ) == (announcement_due(states[0]) && is_ready_frame(steps[i]) && !was_ready(steps, i)) by {
        lemma_due_until_ready(states, steps, i);
    }
    if steps.len() > 0 {
        let n = steps.len() - 1;
        let front = steps.drop_last();
        let before = states.drop_last();
        assert(is_run(before, front)) by {
            assert forall|i: int| 0 <= i < front.len() implies leads(
                before[i],
                #[trigger] front[i],
                before[i + 1],
            ) by {
                assert(leads(states[i], steps[i], states[i + 1]));
            }
        }
        law_pattern_is_announced_once(before, front);
        assert(was_ready(front, n) == was_ready(steps, n)) by {
            if was_ready(steps, n) {
                let j = choose|j: int| 0 <= j < n && is_ready_frame(#[trigger] steps[j]);
                assert(is_ready_frame(front[j]));
            }
            if was_ready(front, n) {
                let j = choose|j: int| 0 <= j < n && is_ready_frame(#[trigger] front[j]);
                assert(is_ready_frame(steps[j]));
            }
        }
        assert(was_ready(steps, n + 1) == (was_ready(steps, n) || is_ready_frame(steps[n]))) by {
            if was_ready(steps, n) {
                let j = choose|j: int| 0 <= j < n && is_ready_frame(#[trigger] steps[j]);
                assert(is_ready_frame(steps[j]));
            }
        }
        assert(step_announces(states[n], steps[n]) == (announcement_due(states[0])
            && is_ready_frame(steps[n]) && !was_ready(steps, n)));
    }
}

/// Once a song begins, its pattern is announced at most once while no other
/// song does: in the first frame that ends with it ready, and not at all where
/// there is none.
pub proof fn law_song_announces_its_pattern_once(
    before: ReactionDiffusionView,
    pattern_seed: u64,
    states: Seq<ReactionDiffusionView>,
    steps: Seq<Step>,
)
    requires
        is_run(states, steps),
        song_begun(before, states[0], pattern_seed),
    ensures
        announcements(states, steps) <= 1,
        announcements(states, steps) == 1 <==> was_ready(steps, steps.len() as int),
        forall|i: int|
            0 <= i < steps.len() ==> step_announces(states[i], #[trigger] steps[i]) == (
            is_ready_frame(steps[i]) && !was_ready(steps, i)),
{
    law_pattern_is_announced_once(states, steps);
}

/// How the next frame of the canvas starts.
pub open spec fn frame_start(v: ReactionDiffusionView) -> FrameStart {
    if v.init_failed {
        FrameStart::Skip
    } else if !v.has_renderer {
        FrameStart::CreateRenderer
    } else {
        FrameStart::Draw
    }
}

/// A frame asks for a renderer until there is one, is drawn from then on, and
/// is asked for again once the renderer is forgotten; after a failure nothing
/// is drawn any more.
pub proof fn law_frames_need_a_renderer(v: ReactionDiffusionView)
    ensures
        frame_start(v) == FrameStart::Draw <==> v.has_renderer && !v.init_failed,
        frame_start(with_renderer(v, false)) == FrameStart::Skip,
        frame_start(v) == FrameStart::CreateRenderer ==> frame_start(with_renderer(v, true))
            == FrameStart::Draw,
        frame_start(v) == FrameStart::Draw ==> frame_start(
            ReactionDiffusionView { has_renderer: false, ..v },
        ) == FrameStart::CreateRenderer,
        frame_start(v) == FrameStart::Skip ==> frame_start(with_renderer(v, true))
            == FrameStart::Skip,
{
}

/// A text counts as blank exactly where it holds nothing but white space.
pub proof fn law_blank_text_is_white_space(s: Seq<char>)
    ensures
        blank(s) <==> forall|i: int| 0 <= i < s.len() ==> text::white_space(#[trigger] s[i]),
{
    text::law_nothing_is_left_of_white_space(s);
}

/// The next frame is handed what waits, each thing as it is, and then only the
/// seed and whether the song plays are left.
pub proof fn law_frames_are_handed_what_waits(v: ReactionDiffusionView)
    ensures
        inputs_of(v).position_ms == v.pending_position_ms,
        inputs_of(v).mask == v.pending_mask,
        inputs_of(v).reset == v.reset_pattern,
        inputs_of(v).pattern_seed == v.pattern_seed,
        inputs_of(v).playing == v.playing,
        inputs_taken(v).pending_position_ms is None,
        inputs_taken(v).pending_mask is None,
        !inputs_taken(v).reset_pattern,
        inputs_taken(v).pattern_seed == v.pattern_seed,
        inputs_taken(v).playing == v.playing,
        inputs_taken(v).last_bounds == v.last_bounds,
        inputs_taken(v).last_frame_us == v.last_frame_us,
        inputs_taken(v).frame_delta == v.frame_delta,
        inputs_taken(v).has_renderer == v.has_renderer,
        inputs_taken(v).init_failed == v.init_failed,
        inputs_taken(v).pattern_ready_emitted <==> v.pattern_ready_emitted && !v.reset_pattern,
{
}

/// Each thing that happens to the canvas is what the next frame is handed: the
/// position that the song is moved to, whether it plays, the mask of a text
/// with its time, and an empty mask for a blank text. Nothing else that waits
/// is touched.
pub proof fn law_what_happens_reaches_the_frame(
    before: ReactionDiffusionView,
    step: Step,
    after: ReactionDiffusionView,
)
    requires
        leads(before, step, after),
        !(step is Frame),
    ensures
        step matches Step::Position(position_ms) ==> inputs_of(after).position_ms == Some(
            position_ms,
        ),
        !(step is Position) ==> inputs_of(after).position_ms == inputs_of(before).position_ms,
        step matches Step::Playing(playing) ==> inputs_of(after).playing == playing,
        !(step is Playing) ==> inputs_of(after).playing == inputs_of(before).playing,
        step matches Step::Mask(update, cue_start_ms, duration_ms) ==> {
            &&& after.last_bounds == Some(update.bounds)
            &&& inputs_of(after).mask matches Some(m)
            &&& m.pixels == update.pixels
            &&& m.bounds == update.bounds
            &&& m.cue_start_ms == cue_start_ms
            &&& duration_ms < 50 ==> m.duration_ms == 50
            &&& duration_ms >= 50 ==> m.duration_ms == duration_ms
        },
        step matches Step::Lyric(words, cue_start_ms, duration_ms, request) ==> if (forall|i: int|
            0 <= i < words.len() ==> text::white_space(#[trigger] words[i])) {
            &&& request == LyricRequest::Cleared
            &&& after.last_bounds is None
            &&& inputs_of(after).mask matches Some(m)
            &&& m.pixels@.len() == 3_145_728
            &&& forall|k: int| 0 <= k < 3_145_728 ==> #[trigger] m.pixels@[k] == 0
            &&& m.bounds.x == 0 && m.bounds.y == 0 && m.bounds.width == 0 && m.bounds.height == 0
            &&& m.cue_start_ms == cue_start_ms
            &&& m.duration_ms == 0
        } else {
            &&& request == (LyricRequest::Render { cue_start_ms, duration_ms })
            &&& inputs_of(after).mask == inputs_of(before).mask
            &&& after.last_bounds == before.last_bounds
        },
        !(step is Mask) && !(step is Lyric) ==> inputs_of(after).mask == inputs_of(before).mask
            && after.last_bounds == before.last_bounds,
        inputs_of(after).pattern_seed == inputs_of(before).pattern_seed,
        inputs_of(after).reset == inputs_of(before).reset,
        after.pattern_ready_emitted == before.pattern_ready_emitted,
        !(step is Tick) ==> after.last_frame_us == before.last_frame_us && after.frame_delta
            == before.frame_delta,
{
    if let Step::Lyric(words, _, _, _) = step {
        law_blank_text_is_white_space(words);
    }
}

/// The frame after the song is moved to a position is handed exactly that
/// position, whatever else happens in between; of several positions the last.
pub proof fn law_frames_are_handed_the_last_position(
    states: Seq<ReactionDiffusionView>,
    steps: Seq<Step>,
    at: int,
    position_ms: u64,
)
    requires
        is_run(states, steps),
        0 <= at < steps.len(),
        steps[at] == Step::Position(position_ms),
        forall|j: int| at < j < steps.len() ==> !((#[trigger] steps[j]) is Position || steps[j] is Frame),
    ensures
        inputs_of(states[steps.len() as int]).position_ms == Some(position_ms),
{
    lemma_position_waits(states, steps, at, position_ms, steps.len() as int);
}

proof fn lemma_position_waits(
    states: Seq<ReactionDiffusionView>,
    steps: Seq<Step>,
    at: int,
    position_ms: u64,
    n: int,
)
    requires
        is_run(states, steps),
        0 <= at < n <= steps.len(),
        steps[at] == Step::Position(position_ms),
        forall|j: int| at < j < steps.len() ==> !((#[trigger] steps[j]) is Position || steps[j] is Frame),
    ensures
        inputs_of(states[n]).position_ms == Some(position_ms),
    decreases n,
{
    assert(leads(states[n - 1], steps[n - 1], states[n - 1 + 1]));
    if n - 1 > at {
        lemma_position_waits(states, steps, at, position_ms, n - 1);
        law_what_happens_reaches_the_frame(states[n - 1], steps[n - 1], states[n]);
    } else {
        law_what_happens_reaches_the_frame(states[at], steps[at], states[at + 1]);
    }
}

/// The frame after the mask of a text comes is handed that mask, whatever else
/// happens in between, unless another text or mask comes.
pub proof fn law_frames_are_handed_the_last_mask(
    states: Seq<ReactionDiffusionView>,
    steps: Seq<Step>,
    at: int,
)
    requires
        is_run(states, steps),
        0 <= at < steps.len(),
        steps[at] is Mask,
        forall|j: int|
            at < j < steps.len() ==> !((#[trigger] steps[j]) is Mask || steps[j] is Lyric
                || steps[j] is Frame),
    ensures
        ({
            let update = steps[at]->Mask_0;
            &&& inputs_of(states[steps.len() as int]).mask matches Some(m)
            &&& m.pixels == update.pixels
            &&& m.cue_start_ms == steps[at]->Mask_1
            &&& steps[at]->Mask_2 >= 50 ==> m.duration_ms == steps[at]->Mask_2
            &&& steps[at]->Mask_2 < 50 ==> m.duration_ms == 50
        }),
{
    lemma_mask_waits(states, steps, at, steps.len() as int);
}

proof fn lemma_mask_waits(
    states: Seq<ReactionDiffusionView>,
    steps: Seq<Step>,
    at: int,
    n: int,
)
    requires
        is_run(states, steps),
        0 <= at < n <= steps.len(),
        steps[at] is Mask,
        forall|j: int|
            at < j < steps.len() ==> !((#[trigger] steps[j]) is Mask || steps[j] is Lyric
                || steps[j] is Frame),
    ensures
        ({
            let update = steps[at]->Mask_0;
            &&& inputs_of(states[n]).mask matches Some(m)
            &&& m.pixels == update.pixels
            &&& m.cue_start_ms == steps[at]->Mask_1
            &&& steps[at]->Mask_2 >= 50 ==> m.duration_ms == steps[at]->Mask_2
            &&& steps[at]->Mask_2 < 50 ==> m.duration_ms == 50
        }),
    decreases n,
{
    assert(leads(states[n - 1], steps[n - 1], states[n - 1 + 1]));
    if n - 1 > at {
        lemma_mask_waits(states, steps, at, n - 1);
        law_what_happens_reaches_the_frame(states[n - 1], steps[n - 1], states[n]);
    } else {
        law_what_happens_reaches_the_frame(states[at], steps[at], states[at + 1]);
    }
}

/// A frame is due 33 ms after the last one. It moves the song by the time
/// since then, but by 50 ms at most; the first moves it by a thirtieth of a
/// second. A tick that comes earlier changes nothing.
pub proof fn law_frames_are_due_in_time(v: ReactionDiffusionView, now_us: i64)
    ensures
        now_us - v.last_frame_us < 33_000 ==> ticked(v, now_us) == v,
        now_us - v.last_frame_us >= 33_000 ==> {
            let after = ticked(v, now_us);
            &&& after.last_frame_us == now_us
            &&& v.last_frame_us <= 0 ==> after.frame_delta is Nominal
            &&& v.last_frame_us > 0 && now_us - v.last_frame_us <= 50_000 ==> after.frame_delta
                == FrameDelta::Micros((now_us - v.last_frame_us) as i64)
            &&& v.last_frame_us > 0 && now_us - v.last_frame_us > 50_000 ==> after.frame_delta
                == FrameDelta::Micros(50_000)
            &&& after == (ReactionDiffusionView {
                last_frame_us: after.last_frame_us,
                frame_delta: after.frame_delta,
                ..v
            })
        },
{
}

/// What the first frame of a song is handed, field by field: the seed of the
/// song, a fresh start at position zero, and a mask of zeros; the canvas goes
/// on playing or not as before.
pub proof fn law_first_frame_of_a_song(
    before: ReactionDiffusionView,
    after: ReactionDiffusionView,
    pattern_seed: u64,
)
    requires
        song_begun(before, after, pattern_seed),
    ensures
        after.pattern_seed == pattern_seed,
        after.reset_pattern,
        after.pending_position_ms == Some(0u64),
        after.last_bounds is None,
        !after.pattern_ready_emitted,
        after.playing == before.playing,
        after.has_renderer == before.has_renderer,
        after.init_failed == before.init_failed,
        after.last_frame_us == before.last_frame_us,
        after.frame_delta == before.frame_delta,
        ({
            &&& after.pending_mask matches Some(m)
            &&& m.pixels@.len() == 3_145_728
            &&& forall|k: int| 0 <= k < 3_145_728 ==> #[trigger] m.pixels@[k] == 0
            &&& m.cue_start_ms == 0
            &&& m.duration_ms == 0
        }),
{
}

/// The end of a frame marks a ready pattern as announced and touches nothing
/// else; it announces the pattern if it was not marked before.
pub proof fn law_end_of_a_frame(v: ReactionDiffusionView, ready: bool)
    ensures
        frame_finished(v, ready).pattern_ready_emitted <==> v.pattern_ready_emitted || ready,
        frame_finished(v, ready) == (ReactionDiffusionView {
            pattern_ready_emitted: frame_finished(v, ready).pattern_ready_emitted,
            ..v
        }),
        announces(v, ready) <==> ready && !v.pattern_ready_emitted,
{
}

} // verus!
