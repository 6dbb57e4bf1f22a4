//! The course of the simulation: which passes a frame runs, between which
//! textures, and under which text.

use vstd::prelude::*;

use crate::mask::MaskUpdate;
use crate::pattern;
use crate::pattern::SIM_PIXELS;
use crate::reaction_diffusion_view::{FrameInputs, DEFAULT_SEED};

verus! {

/// The number of passes after which a pattern is ready.
pub const INITIALIZATION_PASSES: u32 = 3_600;

/// The number of passes that a frame runs until then.
pub const INITIALIZATION_STEPS_PER_FRAME: u32 = 48;

/// The number of passes that a frame runs while the song plays.
pub const PLAYBACK_STEPS_PER_FRAME: u32 = 48;

/// A texture format for the two chemicals.
#[derive(Debug, Clone, Copy, PartialEq, Eq, Structural)]
pub enum StateFormat {
    Rg32F,
    Rg16F,
    Rg8,
}

/// What comes after the attempt to allocate the textures in a format.
#[derive(Debug, Clone, Copy, PartialEq, Eq, Structural)]
pub enum FormatStep {
    /// The textures are there.
    Done,
    /// Try this format next.
    Try(StateFormat),
    /// No format is supported.
    Unsupported,
}

/// The format to start with: the finest.
pub fn first_format() -> (r: StateFormat)
    ensures
        r == StateFormat::Rg32F,
{
    StateFormat::Rg32F
}

/// Goes on after the attempt to allocate the textures in a format, the finer
/// before the coarser.
pub fn after_format(tried: StateFormat, complete: bool) -> (r: FormatStep)
    ensures
        r == if complete {
            FormatStep::Done
        } else {
            match tried {
                StateFormat::Rg32F => FormatStep::Try(StateFormat::Rg16F),
                StateFormat::Rg16F => FormatStep::Try(StateFormat::Rg8),
                StateFormat::Rg8 => FormatStep::Unsupported,
            }
        },
{
    if complete {
        FormatStep::Done
    } else {
        match tried {
            StateFormat::Rg32F => FormatStep::Try(StateFormat::Rg16F),
            StateFormat::Rg16F => FormatStep::Try(StateFormat::Rg8),
            StateFormat::Rg8 => FormatStep::Unsupported,
        }
    }
}

/// What a frame runs.
#[derive(Debug)]
pub struct FramePlan {
    /// A mask to upload before the passes.
    pub mask: Option<Vec<u8>>,
    /// The number of passes.
    pub passes: u32,
    /// Whether the passes carve the text of the mask.
    pub carve: bool,
    /// Whether the song moves on with the frame.
    pub advance: bool,
}

/// The textures of a pass, each by its number.
#[derive(Debug, Clone, Copy, PartialEq, Eq, Structural)]
pub struct Pass {
    pub source: usize,
    pub target: usize,
}

/// The state of the simulation.
#[derive(Debug)]
pub struct Renderer {
    pub front: usize,
    pub pattern_iterations: u32,
    pub queued_mask: Option<MaskUpdate>,
    pub has_current_mask: bool,
    pub lyric_start_ms: u64,
    pub lyric_duration_ms: u64,
    pub playback_running: bool,
    pub pattern_seed: u64,
}

/// A renderer whose pattern starts anew. What is queued stays.
pub open spec fn reset(r: Renderer) -> Renderer {
    Renderer {
        front: 0,
        pattern_iterations: 0,
        has_current_mask: false,
        lyric_start_ms: 0,
        lyric_duration_ms: 0,
        ..r
    }
}

/// The renderer with the queued mask, if there is one, in place of the
/// current one.
pub open spec fn with_queued_mask(r: Renderer) -> Renderer {
    match r.queued_mask {
        Some(m) => Renderer {
            queued_mask: None,
            has_current_mask: m.duration_ms > 0,
            lyric_start_ms: m.cue_start_ms,
            lyric_duration_ms: m.duration_ms,
            ..r
        },
        None => r,
    }
}

/// Whether so many passes make a pattern ready.
pub open spec fn enough(iterations: u32) -> bool {
    iterations >= INITIALIZATION_PASSES
}

/// The number of passes of a frame.
pub open spec fn passes_of(r: Renderer) -> int {
    if !enough(r.pattern_iterations) {
        let missing = INITIALIZATION_PASSES - r.pattern_iterations;
        if missing < INITIALIZATION_STEPS_PER_FRAME {
            missing
        } else {
            INITIALIZATION_STEPS_PER_FRAME as int
        }
    } else if r.playback_running {
        PLAYBACK_STEPS_PER_FRAME as int
    } else {
        0
    }
}

/// The number of passes that have initialized the pattern after a frame.
pub open spec fn iterations_after(r: Renderer) -> u32 {
    if enough(r.pattern_iterations) {
        r.pattern_iterations
    } else {
        (r.pattern_iterations + passes_of(r)) as u32
    }
}

/// Whether the passes of a frame carve text: only into a pattern that was ready
/// before, and while the song plays.
pub open spec fn carves(r: Renderer) -> bool {
    enough(r.pattern_iterations) && r.playback_running && with_queued_mask(r).has_current_mask
}

/// Whether the song moves on with a frame: while it plays, from the frame on
/// that makes the pattern ready.
pub open spec fn advances(r: Renderer) -> bool {
    r.playback_running && enough(iterations_after(r))
}

impl Default for Renderer {
    fn default() -> (r: Self)
        ensures
            r == (Renderer {
                front: 0,
                pattern_iterations: 0,
                queued_mask: None,
                has_current_mask: false,
                lyric_start_ms: 0,
                lyric_duration_ms: 0,
                playback_running: false,
                pattern_seed: DEFAULT_SEED,
            }),
            r.wf(),
    {
        Renderer {
            front: 0,
            pattern_iterations: 0,
            queued_mask: None,
            has_current_mask: false,
            lyric_start_ms: 0,
            lyric_duration_ms: 0,
            playback_running: false,
            pattern_seed: DEFAULT_SEED,
        }
    }
}

impl Renderer {
    /// There are two textures, the pattern is never initialized beyond what
    /// makes it ready, and a queued mask has the size of the canvas.
    pub open spec fn wf(&self) -> bool {
        &&& self.front < 2
        &&& self.pattern_iterations <= INITIALIZATION_PASSES
        &&& self.queued_mask matches Some(m) ==> m.pixels@.len() == 4 * SIM_PIXELS
    }

    /// Whether the pattern is ready.
    pub fn pattern_ready(&self) -> (r: bool)
        ensures
            r == enough(self.pattern_iterations),
    {
        self.pattern_iterations >= INITIALIZATION_PASSES
    }

    /// Queues a mask in place of one that is still queued.
    pub fn set_text_mask(&mut self, update: MaskUpdate)
        requires
            old(self).wf(),
            update.pixels@.len() == 4 * SIM_PIXELS,
        ensures
            final(self).wf(),
            *final(self) == (Renderer { queued_mask: Some(update), ..*old(self) }),
    {
        self.queued_mask = Some(update);
    }

    /// Lets the pattern start anew. Gives the state to put in the textures.
    pub fn reset_pattern(&mut self) -> (state: Vec<u8>)
        requires
            old(self).wf(),
        ensures
            final(self).wf(),
            *final(self) == reset(*old(self)),
            pattern::is_seed_state(state@, old(self).pattern_seed),
    {
        let state: Vec<u8> = pattern::make_seed(self.pattern_seed);
        self.front = 0;
        self.pattern_iterations = 0;
        self.has_current_mask = false;
        self.lyric_start_ms = 0;
        self.lyric_duration_ms = 0;
        state
    }

    /// Takes what a frame brings: first the seed, then a fresh start, then a
    /// mask. Gives the state to put in the textures on a fresh start.
    pub fn apply(&mut self, inputs: FrameInputs) -> (state: Option<Vec<u8>>)
        requires
            old(self).wf(),
            inputs.mask matches Some(m) ==> m.pixels@.len() == 4 * SIM_PIXELS,
        ensures
            final(self).wf(),
            state is Some == inputs.reset,
            state matches Some(pixels) ==> pattern::is_seed_state(pixels@, inputs.pattern_seed),
            *final(self) == ({
                let seeded = Renderer { pattern_seed: inputs.pattern_seed, ..*old(self) };
                let started = if inputs.reset {
                    reset(seeded)
                } else {
                    seeded
                };
                let masked = match inputs.mask {
                    Some(m) => Renderer { queued_mask: Some(m), ..started },
                    None => started,
                };
                Renderer { playback_running: inputs.playing, ..masked }
            }),
            *final(self) == applied(*old(self), inputs),
    {
        self.pattern_seed = inputs.pattern_seed;
        let state: Option<Vec<u8>> = if inputs.reset {
            Some(self.reset_pattern())
        } else {
            None
        };
        if let Some(mask) = inputs.mask {
            self.set_text_mask(mask);
        }
        self.playback_running = inputs.playing;
        state
    }

    /// Plans a frame: a queued mask takes the place of the current one at
    /// once; the passes initialize the pattern until it is ready, and then
    /// let it move while the song plays.
    pub fn plan_frame(&mut self) -> (plan: FramePlan)
        requires
            old(self).wf(),
        ensures
            final(self).wf(),
            *final(self) == (Renderer {
                pattern_iterations: iterations_after(*old(self)),
                ..with_queued_mask(*old(self))
            }),
            *final(self) == planned(*old(self)),
            plan.mask == (match old(self).queued_mask {
                Some(m) => Some(m.pixels),
                None => None,
            }),
            plan.mask matches Some(pixels) ==> pixels@.len() == 4 * SIM_PIXELS,
            plan.passes == passes_of(*old(self)),
            plan.carve == carves(*old(self)),
            plan.advance == advances(*old(self)),
    {
        let mask: Option<Vec<u8>> = match self.queued_mask.take() {
            Some(update) => {
                self.has_current_mask = update.duration_ms > 0;
                self.lyric_start_ms = update.cue_start_ms;
                self.lyric_duration_ms = update.duration_ms;
                Some(update.pixels)
            },
            None => None,
        };
        let mut passes: u32 = 0;
        let mut carve: bool = false;
        if !self.pattern_ready() {
            let missing: u32 = INITIALIZATION_PASSES - self.pattern_iterations;
            passes = if missing < INITIALIZATION_STEPS_PER_FRAME {
                missing
            } else {
                INITIALIZATION_STEPS_PER_FRAME
            };
            self.pattern_iterations = self.pattern_iterations + passes;
        } else if self.playback_running {
            passes = PLAYBACK_STEPS_PER_FRAME;
            carve = self.has_current_mask;
        }
        let advance: bool = self.playback_running && self.pattern_ready();
        FramePlan { mask, passes, carve, advance }
    }

    /// Runs one pass: it reads the front texture and writes the other, which
    /// is the front one from then on.
    pub fn run_simulation_pass(&mut self) -> (pass: Pass)
        requires
            old(self).wf(),
        ensures
            final(self).wf(),
            pass == (Pass { source: old(self).front, target: (1 - old(self).front) as usize }),
            *final(self) == (Renderer { front: pass.target, ..*old(self) }),
            final(self).front == front_after(old(self).front, 1),
            pass.source + pass.target == 1,
    {
        proof {
            law_passes_alternate(self.front, 1);
        }
        let pass = Pass { source: self.front, target: 1 - self.front };
        self.front = pass.target;
        pass
    }
}

/// The initialization of a pattern after so many frames.
pub open spec fn initialized_after(iterations: u32, playing: Seq<bool>) -> u32
    decreases playing.len(),
{
    if playing.len() == 0 {
        iterations
    } else {
        let before = initialized_after(iterations, playing.drop_last());
        iterations_after(
            Renderer {
                front: 0,
                pattern_iterations: before,
                queued_mask: None,
                has_current_mask: false,
                lyric_start_ms: 0,
                lyric_duration_ms: 0,
                playback_running: playing.last(),
                pattern_seed: 0,
            },
        )
    }
}

/// A new pattern takes 75 frames to be ready, whether the song plays or not,
/// and is ready from then on.
pub proof fn law_initialization_takes_75_frames(playing: Seq<bool>)
    ensures
        initialized_after(0, playing) == if playing.len() < 75 {
            playing.len() * INITIALIZATION_STEPS_PER_FRAME
        } else {
            INITIALIZATION_PASSES as int
        },
        enough(initialized_after(0, playing)) == (playing.len() >= 75),
    decreases playing.len(),
{
    if playing.len() > 0 {
        law_initialization_takes_75_frames(playing.drop_last());
    }
}

/// While a pattern is not ready, no text is carved and the song does not move
/// on before the frame that makes it ready.
pub proof fn law_pattern_is_ready_before_playback(r: Renderer)
    requires
        r.wf(),
        !enough(r.pattern_iterations),
    ensures
        !carves(r),
        advances(r) ==> r.pattern_iterations + INITIALIZATION_STEPS_PER_FRAME
            >= INITIALIZATION_PASSES,
{
}

/// A mask that comes to a frame is current after it, whatever was before.
pub proof fn law_cue_replacement_is_immediate(r: Renderer, m: MaskUpdate)
    requires
        r.queued_mask == Some(m),
    ensures
        with_queued_mask(r).has_current_mask == (m.duration_ms > 0),
        with_queued_mask(r).lyric_start_ms == m.cue_start_ms,
        with_queued_mask(r).lyric_duration_ms == m.duration_ms,
        with_queued_mask(r).queued_mask is None,
{
}

/// The front texture after so many passes.
pub open spec fn front_after(front: usize, passes: nat) -> usize
    decreases passes,
{
    if passes == 0 {
        front
    } else {
        (1 - front_after(front, (passes - 1) as nat)) as usize
    }
}

/// An even number of passes ends in the texture that it started from, an odd
/// one in the other.
pub proof fn law_passes_alternate(front: usize, passes: nat)
    requires
        front < 2,
    ensures
        front_after(front, passes) == if passes % 2 == 0 {
            front as int
        } else {
            1 - front
        },
    decreases passes,
{
    if passes > 0 {
        law_passes_alternate(front, (passes - 1) as nat);
    }
}

/// The renderer once it has taken what a frame brings.
pub open spec fn applied(r: Renderer, inputs: FrameInputs) -> Renderer {
    let seeded = Renderer { pattern_seed: inputs.pattern_seed, ..r };
    let started = if inputs.reset {
        reset(seeded)
    } else {
        seeded
    };
    let masked = match inputs.mask {
        Some(m) => Renderer { queued_mask: Some(m), ..started },
        None => started,
    };
    Renderer { playback_running: inputs.playing, ..masked }
}

/// The renderer once a frame is planned.
pub open spec fn planned(r: Renderer) -> Renderer {
    Renderer { pattern_iterations: iterations_after(r), ..with_queued_mask(r) }
}

/// The renderer after frames that bring what is given.
pub open spec fn after_frames(r: Renderer, frames: Seq<FrameInputs>) -> Renderer
    decreases frames.len(),
{
    if frames.len() == 0 {
        r
    } else {
        planned(applied(after_frames(r, frames.drop_last()), frames.last()))
    }
}

/// Whether a frame brings neither a mask nor a fresh start.
pub open spec fn is_quiet(inputs: FrameInputs) -> bool {
    !inputs.reset && inputs.mask is None
}

/// A frame to which a mask comes makes it the current one, with its own times;
/// a mask without duration carves nothing.
pub proof fn law_masks_are_taken_with_their_times(r: Renderer, inputs: FrameInputs)
    ensures
        inputs.mask matches Some(m) ==> {
            let after = planned(applied(r, inputs));
            &&& after.has_current_mask <==> m.duration_ms > 0
            &&& after.lyric_start_ms == m.cue_start_ms
            &&& after.lyric_duration_ms == m.duration_ms
            &&& after.queued_mask is None
            &&& carves(applied(r, inputs)) <==> inputs.playing && m.duration_ms > 0
                && !inputs.reset && r.pattern_iterations >= 3_600
        },
{
}

/// Frames that bring neither a mask nor a fresh start leave the current mask
/// and its times as they are. So a text is carved in every frame of a ready
/// pattern in playback, until another mask or a fresh start comes.
pub proof fn law_text_is_carved_until_replaced(
    r: Renderer,
    frames: Seq<FrameInputs>,
    next: FrameInputs,
)
    requires
        r.queued_mask is None,
        forall|k: int| 0 <= k < frames.len() ==> is_quiet(#[trigger] frames[k]),
        is_quiet(next),
    ensures
        after_frames(r, frames).queued_mask is None,
        after_frames(r, frames).has_current_mask == r.has_current_mask,
        after_frames(r, frames).lyric_start_ms == r.lyric_start_ms,
        after_frames(r, frames).lyric_duration_ms == r.lyric_duration_ms,
        r.pattern_iterations >= 3_600 ==> after_frames(r, frames).pattern_iterations
            == r.pattern_iterations,
        r.pattern_iterations >= 3_600 ==> (carves(applied(after_frames(r, frames), next))
            <==> r.has_current_mask && next.playing),
    decreases frames.len(),
{
    if frames.len() > 0 {
        let less = frames.drop_last();
        assert forall|k: int| 0 <= k < less.len() implies is_quiet(#[trigger] less[k]) by {
            assert(less[k] == frames[k]);
        }
        assert(is_quiet(frames[frames.len() - 1]));
        law_text_is_carved_until_replaced(r, less, next);
    }
}

/// A pattern grows by 48 passes in a frame, by less only to stop at 3600. Once
/// it is there, a frame runs 48 passes while the song plays and none else, and
/// the count stays.
pub proof fn law_passes_of_a_frame(r: Renderer)
    requires
        r.pattern_iterations <= 3_600,
    ensures
        r.pattern_iterations <= 3_552 ==> passes_of(r) == 48 && planned(r).pattern_iterations
            == r.pattern_iterations + 48,
        3_552 < r.pattern_iterations < 3_600 ==> passes_of(r) + r.pattern_iterations == 3_600
            && planned(r).pattern_iterations == 3_600,
        r.pattern_iterations == 3_600 && r.playback_running ==> passes_of(r) == 48,
        r.pattern_iterations == 3_600 && !r.playback_running ==> passes_of(r) == 0,
        r.pattern_iterations == 3_600 ==> planned(r).pattern_iterations == 3_600,
        enough(r.pattern_iterations) <==> r.pattern_iterations == 3_600,
        advances(r) <==> r.playback_running && r.pattern_iterations + 48 >= 3_600,
        planned(r).front == r.front,
        planned(r).playback_running == r.playback_running,
        planned(r).pattern_seed == r.pattern_seed,
{
}

/// A frame brings its seed and whether the song plays in any case. A fresh
/// start takes the pattern and the current text back to nothing, and leaves a
/// queued mask unless the frame brings one. Without it the pattern goes on.
pub proof fn law_what_a_frame_brings(r: Renderer, inputs: FrameInputs)
    ensures
        ({
            let after = applied(r, inputs);
            &&& after.pattern_seed == inputs.pattern_seed
            &&& after.playback_running == inputs.playing
            &&& inputs.mask is Some ==> after.queued_mask == inputs.mask
            &&& inputs.mask is None ==> after.queued_mask == r.queued_mask
            &&& inputs.reset ==> {
                &&& after.front == 0
                &&& after.pattern_iterations == 0
                &&& !after.has_current_mask
                &&& after.lyric_start_ms == 0
                &&& after.lyric_duration_ms == 0
            }
            &&& !inputs.reset ==> {
                &&& after.front == r.front
                &&& after.pattern_iterations == r.pattern_iterations
                &&& after.has_current_mask == r.has_current_mask
                &&& after.lyric_start_ms == r.lyric_start_ms
                &&& after.lyric_duration_ms == r.lyric_duration_ms
            }
        }),
{
}

} // verus!
