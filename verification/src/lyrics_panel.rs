//! The lyrics panel: which lines it shows at a moment of a song.

use vstd::prelude::*;

use crate::audio_seed;
use crate::audio_seed::AudioFile;
use crate::cues;
use crate::cues::Cue;
use crate::lyrics;
use crate::lyrics::{LyricsLine, LyricsTrack};
use crate::pattern;
use crate::reaction_diffusion_view;
use crate::text;
use crate::reaction_diffusion_view::{LyricRequest, ReactionDiffusionView};

verus! {

/// The title of the panel while no song is loaded.
pub const NO_SONG_TITLE: &'static str = "Lyrics";

/// What the panel shows for a song without lyrics.
pub const NO_LYRICS_MESSAGE: &'static str = "No synced lyrics found";

/// How long, in milliseconds, the last line of a song is shown.
pub const LAST_LINE_MS: u64 = 5_000;

/// The shortest time, in milliseconds, for which a line is shown.
pub const MIN_LINE_MS: u64 = 50;

/// The shortest intro, in milliseconds, that counts as one.
pub const MIN_INTRO_MS: u64 = 500;

/// The intro, in milliseconds, of a song that has none.
pub const DEFAULT_INTRO_MS: u64 = 3_000;

/// The five lines of the panel.
#[derive(Debug, Clone)]
pub struct Labels {
    pub older: String,
    pub previous: String,
    pub current: String,
    pub next: String,
    pub later: String,
}

/// A line that becomes the current one, with its neighbours and its time.
#[derive(Debug, Clone)]
pub struct CueDisplay {
    pub labels: Labels,
    pub start_ms: u64,
    pub duration_ms: u64,
    /// What the words ask of the canvas.
    pub request: LyricRequest,
}

/// What a new position changes.
#[derive(Debug, Clone)]
pub enum CueChange {
    /// Nothing.
    Unchanged,
    /// No line is current any more.
    Cleared,
    /// Another line is current.
    Shown(CueDisplay),
}

/// What the panel shows once a song is loaded.
#[derive(Debug, Clone)]
pub enum SongDisplay {
    /// There are no lyrics: the lines to show, the middle one being the
    /// status message too.
    Empty(Labels),
    /// There are lyrics: what the start of the song shows of them.
    Lyrics(CueChange),
}

/// A song whose lyrics are read and whose audio is sampled.
#[derive(Debug)]
pub struct LoadedSong {
    pub title: String,
    pub track: LyricsTrack,
    /// The audio file, where the song has a path.
    pub file: Option<AudioFile>,
    /// The identifier of the song.
    pub uuid: Option<String>,
}

/// What loading a song changes.
#[derive(Debug)]
pub struct SongChange {
    pub title: String,
    /// The time before the first line, for a pattern that starts anew.
    pub intro_ms: Option<u64>,
    pub display: SongDisplay,
}

/// The state of the panel.
#[derive(Debug)]
pub struct LyricsPanel {
    pub track: LyricsTrack,
    pub current_index: Option<usize>,
}

impl LoadedSong {
    /// The lyrics are in the order of time, and the samples are of the right
    /// number and size.
    pub open spec fn wf(&self) -> bool {
        &&& cues::in_time_order(self.track@.cues)
        &&& self.file matches Some(AudioFile { samples: Some(samples), .. }) ==> samples.wf()
    }

    /// The bytes of the identifier.
    pub open spec fn uuid_bytes(&self) -> Option<Seq<u8>> {
        match self.uuid {
            Some(id) => Some(vstd::utf8::encode_utf8(id@)),
            None => None,
        }
    }

    /// The number that stands for the content of the song.
    pub open spec fn seed(&self) -> u64 {
        audio_seed::fnv(
            audio_seed::FNV_OFFSET,
            audio_seed::song_bytes(self.file, self.uuid_bytes()),
        )
    }
}

/// The words of a cue; none outside the track.
pub open spec fn words_at(s: Seq<Cue>, i: int) -> Seq<char> {
    if 0 <= i < s.len() {
        s[i].text
    } else {
        Seq::empty()
    }
}

/// How long a cue is shown: until the next one starts, or five seconds for
/// the last, but no shorter than a moment.
pub open spec fn shown_for(s: Seq<Cue>, i: int) -> int {
    let until_next = if i + 1 < s.len() {
        if s[i + 1].start_ms < s[i].start_ms {
            0
        } else {
            s[i + 1].start_ms - s[i].start_ms
        }
    } else {
        LAST_LINE_MS as int
    };
    if until_next < MIN_LINE_MS {
        MIN_LINE_MS as int
    } else {
        until_next
    }
}

impl Labels {
    /// Whether the labels show the cue of number `i` and its neighbours.
    pub open spec fn show(&self, s: Seq<Cue>, i: int) -> bool {
        &&& self.older@ == words_at(s, i - 2)
        &&& self.previous@ == words_at(s, i - 1)
        &&& self.current@ == words_at(s, i)
        &&& self.next@ == words_at(s, i + 1)
        &&& self.later@ == words_at(s, i + 2)
    }

    /// Whether the labels show a message alone.
    pub open spec fn show_message(&self, message: Seq<char>) -> bool {
        &&& self.older@.len() == 0
        &&& self.previous@.len() == 0
        &&& self.current@ == message
        &&& self.next@.len() == 0
        &&& self.later@.len() == 0
    }
}

/// The current cue after a new position. Without cues it stays as it was.
pub open spec fn index_after(s: Seq<Cue>, before: Option<usize>, position_ms: u64) -> Option<usize> {
    if s.len() == 0 {
        before
    } else {
        cues::index_at(s, position_ms)
    }
}

/// What words ask of the canvas for a time.
pub open spec fn request_for(
    words: Seq<char>,
    cue_start_ms: u64,
    duration_ms: u64,
) -> LyricRequest {
    if reaction_diffusion_view::blank(words) {
        LyricRequest::Cleared
    } else {
        LyricRequest::Render { cue_start_ms, duration_ms }
    }
}

/// Whether `change` is what the step from one current cue to another shows.
pub open spec fn is_change(
    s: Seq<Cue>,
    before: Option<usize>,
    after: Option<usize>,
    change: CueChange,
) -> bool {
    if before == after {
        change is Unchanged
    } else {
        match after {
            None => change is Cleared,
            Some(i) => {
                &&& change matches CueChange::Shown(display)
                &&& display.labels.show(s, i as int)
                &&& display.start_ms == s[i as int].start_ms
                &&& display.duration_ms == shown_for(s, i as int)
                &&& display.request == request_for(
                    words_at(s, i as int),
                    display.start_ms,
                    display.duration_ms,
                )
            },
        }
    }
}

/// Whether the canvas takes what a change shows, where the song is at a
/// position: the position in any case, and then the words that are shown.
pub open spec fn canvas_follows(
    before: ReactionDiffusionView,
    after: ReactionDiffusionView,
    position_ms: u64,
    change: CueChange,
) -> bool {
    let here = reaction_diffusion_view::positioned(before, position_ms);
    match change {
        CueChange::Unchanged => after == here,
        CueChange::Cleared => reaction_diffusion_view::lyric_taken(
            here,
            after,
            Seq::empty(),
            0,
            0,
            LyricRequest::Cleared,
        ),
        CueChange::Shown(display) => reaction_diffusion_view::lyric_taken(
            here,
            after,
            display.labels.current@,
            display.start_ms,
            display.duration_ms,
            display.request,
        ),
    }
}

/// The intro of a track: the time before its first line, if that is half a
/// second or more.
pub open spec fn intro_of(s: Seq<Cue>) -> u64 {
    if s.len() > 0 && s[0].start_ms >= MIN_INTRO_MS {
        s[0].start_ms
    } else {
        DEFAULT_INTRO_MS
    }
}

/// The words of the line of number `i`; none outside the track.
fn text_at(lines: &Vec<LyricsLine>, i: Option<usize>) -> (r: String)
    ensures
        r@ == match i {
            Some(i) => words_at(lyrics::cues_of(lines@), i as int),
            None => Seq::empty(),
        },
{
    match i {
        Some(i) => if i < lines.len() {
            lines[i].text.clone()
        } else {
            String::new()
        },
        None => String::new(),
    }
}

/// The number that stands for the content of a song.
fn seed_of(song: &LoadedSong) -> (r: u64)
    requires
        song.wf(),
    ensures
        r == song.seed(),
{
    let uuid: Option<&[u8]> = match &song.uuid {
        Some(id) => Some(id.as_str().as_bytes()),
        None => None,
    };
    audio_seed::audio_pattern_seed(song.file.as_ref(), uuid)
}

/// The labels that show a message alone.
pub fn show_empty(message: &str) -> (r: Labels)
    ensures
        r.show_message(message@),
{
    Labels {
        older: String::new(),
        previous: String::new(),
        current: message.to_owned(),
        next: String::new(),
        later: String::new(),
    }
}

impl Default for LyricsPanel {
    fn default() -> (r: Self)
        ensures
            r.track@ == lyrics::no_track(),
            r.current_index is None,
            r.wf(),
    {
        LyricsPanel { track: LyricsTrack::default(), current_index: None }
    }
}

impl LyricsPanel {
    /// The lines are in the order of time, and the current one is among them.
    pub open spec fn wf(&self) -> bool {
        &&& cues::in_time_order(self.track@.cues)
        &&& self.current_index matches Some(i) ==> i < self.track@.cues.len()
    }

    /// Takes over a song, or the absence of one. The canvas starts the song
    /// too, from the number that stands for its content; without a song it
    /// loses its text.
    pub fn load_song(
        &mut self,
        background: &mut ReactionDiffusionView,
        song: Option<LoadedSong>,
    ) -> (r: SongChange)
        requires
            old(background).wf(),
            song matches Some(s) ==> s.wf(),
        ensures
            final(self).wf(),
            final(background).wf(),
            match song {
                None => {
                    &&& reaction_diffusion_view::lyric_taken(
                        *old(background),
                        *final(background),
                        Seq::empty(),
                        0,
                        0,
                        LyricRequest::Cleared,
                    )
                    &&& r.title@ == NO_SONG_TITLE@
                    &&& r.intro_ms is None
                    &&& final(self).track@ == lyrics::no_track()
                    &&& final(self).current_index is None
                    &&& r.display matches SongDisplay::Empty(labels)
                    &&& labels.show_message(NO_LYRICS_MESSAGE@)
                },
                Some(s) => {
                    let lines = s.track@.cues;
                    &&& reaction_diffusion_view::song_begun(
                        *old(background),
                        *final(background),
                        s.seed(),
                    )
                    &&& r.title@ == s.title@
                    &&& r.intro_ms == Some(intro_of(lines))
                    &&& final(self).track == s.track
                    &&& final(self).current_index == index_after(lines, None, 0)
                    &&& if lines.len() == 0 {
                        &&& r.display matches SongDisplay::Empty(labels)
                        &&& labels.show_message(NO_LYRICS_MESSAGE@)
                    } else {
                        &&& r.display matches SongDisplay::Lyrics(change)
                        &&& is_change(lines, None, final(self).current_index, change)
                    }
                },
            },
    {
        self.current_index = None;
        proof {
            reveal_strlit("");
            assert(""@ == Seq::<char>::empty());
        }
        match song {
            None => {
                self.track = LyricsTrack::default();
                let _request: LyricRequest = background.set_lyric("", 0, 0);
                SongChange {
                    title: NO_SONG_TITLE.to_owned(),
                    intro_ms: None,
                    display: SongDisplay::Empty(show_empty(NO_LYRICS_MESSAGE)),
                }
            },
            Some(song) => {
                let pattern_seed: u64 = seed_of(&song);
                self.track = song.track;
                let intro_ms: u64 = if self.track.lines.len() > 0 && self.track.lines[0].start_ms
                    >= MIN_INTRO_MS {
                    self.track.lines[0].start_ms
                } else {
                    DEFAULT_INTRO_MS
                };
                background.begin_song(intro_ms, pattern_seed);
                let display: SongDisplay = if self.track.lines.len() == 0 {
                    let _request: LyricRequest = background.set_lyric("", 0, 0);
                    SongDisplay::Empty(show_empty(NO_LYRICS_MESSAGE))
                } else {
                    proof {
                        cues::lemma_cues_until(self.track@.cues, 0);
                    }
                    SongDisplay::Lyrics(self.update_position_ms(background, 0))
                };
                SongChange { title: song.title, intro_ms: Some(intro_ms), display }
            },
        }
    }

    /// Starts or stops the song on the canvas.
    pub fn set_playing(&self, background: &mut ReactionDiffusionView, playing: bool)
        ensures
            *final(background) == (ReactionDiffusionView { playing, ..*old(background) }),
    {
        background.set_playing(playing);
    }

    /// Moves to a position of the song. The canvas follows.
    pub fn update_position_ms(
        &mut self,
        background: &mut ReactionDiffusionView,
        position_ms: u64,
    ) -> (r: CueChange)
        requires
            old(self).wf(),
            old(background).wf(),
        ensures
            final(self).wf(),
            final(background).wf(),
            canvas_follows(*old(background), *final(background), position_ms, r),
            final(self).track == old(self).track,
            final(self).current_index == index_after(
                old(self).track@.cues,
                old(self).current_index,
                position_ms,
            ),
            is_change(
                old(self).track@.cues,
                old(self).current_index,
                final(self).current_index,
                r,
            ),
    {
        background.set_playback_position(position_ms);
        if self.track.lines.len() == 0 {
            return CueChange::Unchanged;
        }
        proof {
            reveal_strlit("");
            assert(""@ == Seq::<char>::empty());
        }
        let ghost s = self.track@.cues;
        match self.track.current_index(position_ms) {
            None => {
                let had: bool = self.current_index.is_some();
                self.current_index = None;
                if had {
                    let _request: LyricRequest = background.set_lyric("", 0, 0);
                    CueChange::Cleared
                } else {
                    CueChange::Unchanged
                }
            },
            Some(index) => {
                let same: bool = match self.current_index {
                    Some(before) => before == index,
                    None => false,
                };
                self.current_index = Some(index);
                if same {
                    return CueChange::Unchanged;
                }
                let lines: &Vec<LyricsLine> = &self.track.lines;
                assert(s[index as int] == lines@[index as int]@);
                let labels = Labels {
                    older: text_at(lines, index.checked_sub(2)),
                    previous: text_at(lines, index.checked_sub(1)),
                    current: text_at(lines, Some(index)),
                    next: text_at(lines, index.checked_add(1)),
                    later: text_at(lines, index.checked_add(2)),
                };
                let start_ms: u64 = lines[index].start_ms;
                let until_next: u64 = if index + 1 < lines.len() {
                    assert(s[index + 1] == lines@[index + 1]@);
                    lines[index + 1].start_ms.saturating_sub(start_ms)
                } else {
                    LAST_LINE_MS
                };
                let duration_ms: u64 = if until_next < MIN_LINE_MS {
                    MIN_LINE_MS
                } else {
                    until_next
                };
                let request: LyricRequest = background.set_lyric(
                    labels.current.as_str(),
                    start_ms,
                    duration_ms,
                );
                CueChange::Shown(CueDisplay { labels, start_ms, duration_ms, request })
            },
        }
    }
}

/// Moving twice to the same position changes nothing the second time.
pub proof fn law_same_position_changes_nothing(
    s: Seq<Cue>,
    before: Option<usize>,
    position_ms: u64,
    change: CueChange,
)
    requires
        is_change(
            s,
            index_after(s, before, position_ms),
            index_after(s, index_after(s, before, position_ms), position_ms),
            change,
        ),
    ensures
        index_after(s, index_after(s, before, position_ms), position_ms) == index_after(
            s,
            before,
            position_ms,
        ),
        change is Unchanged,
{
}

/// A line is shown exactly when it becomes the current one, and it is shown
/// from the moment at which it starts.
pub proof fn law_lines_are_shown_when_they_start(
    s: Seq<Cue>,
    before: Option<usize>,
    position_ms: u64,
    change: CueChange,
)
    requires
        cues::in_time_order(s),
        s.len() <= usize::MAX,
        is_change(s, before, index_after(s, before, position_ms), change),
    ensures
        change is Shown == (index_after(s, before, position_ms) is Some && index_after(
            s,
            before,
            position_ms,
        ) != before),
        change matches CueChange::Shown(display) ==> display.start_ms <= position_ms,
        change matches CueChange::Shown(display) ==> display.duration_ms >= MIN_LINE_MS,
{
    if s.len() > 0 {
        cues::law_current_cue(s, position_ms);
    }
}

/// A line that is not the last is shown until the next one starts, unless
/// that comes within a moment.
pub proof fn law_lines_are_shown_until_the_next(s: Seq<Cue>, i: int)
    requires
        cues::in_time_order(s),
        0 <= i < s.len(),
    ensures
        i + 1 < s.len() && s[i + 1].start_ms - s[i].start_ms >= MIN_LINE_MS ==> s[i].start_ms
            + shown_for(s, i) == s[i + 1].start_ms,
        i + 1 == s.len() ==> shown_for(s, i) == LAST_LINE_MS,
{
}

/// A song that is loaded again, from the same file and under the same
/// identifier, starts from the same picture, whatever the canvas showed
/// before.
pub proof fn law_loading_again_starts_the_same_picture(
    a: LoadedSong,
    b: LoadedSong,
    canvas_a: ReactionDiffusionView,
    canvas_b: ReactionDiffusionView,
    started_a: ReactionDiffusionView,
    started_b: ReactionDiffusionView,
    state_a: Seq<u8>,
    state_b: Seq<u8>,
)
    requires
        a.file is Some == b.file is Some,
        a.file is Some ==> audio_seed::same_file(a.file->0, b.file->0),
        a.uuid_bytes() == b.uuid_bytes(),
        reaction_diffusion_view::song_begun(canvas_a, started_a, a.seed()),
        reaction_diffusion_view::song_begun(canvas_b, started_b, b.seed()),
        pattern::is_seed_state(
            state_a,
            reaction_diffusion_view::inputs_of(started_a).pattern_seed,
        ),
        pattern::is_seed_state(
            state_b,
            reaction_diffusion_view::inputs_of(started_b).pattern_seed,
        ),
    ensures
        reaction_diffusion_view::inputs_of(started_a).reset,
        reaction_diffusion_view::inputs_of(started_b).reset,
        state_a == state_b,
{
    match (a.file, b.file) {
        (Some(x), Some(y)) => {
            audio_seed::law_same_song_same_picture(x, y, a.uuid_bytes(), state_a, state_b);
        },
        _ => {
            pattern::law_seed_gives_one_state(state_a, state_b, a.seed());
        },
    }
}

/// What a new position shows. Without lines nothing changes. Before the first
/// line nothing is shown, and a line that was is cleared. Else the line is
/// current that has started while the next has not; it is shown unless it was
/// current before, between the two lines on either side, until the next line
/// starts or for 5000 ms where it is the last, but for 50 ms at least.
pub proof fn law_what_a_position_shows(
    s: Seq<Cue>,
    before: Option<usize>,
    position_ms: u64,
    i: int,
    change: CueChange,
)
    requires
        forall|a: int, b: int| 0 <= a < b < s.len() ==> s[a].start_ms <= s[b].start_ms,
        s.len() <= usize::MAX,
        is_change(s, before, index_after(s, before, position_ms), change),
    ensures
        s.len() == 0 ==> change is Unchanged && index_after(s, before, position_ms) == before,
        s.len() > 0 && s[0].start_ms > position_ms ==> {
            &&& index_after(s, before, position_ms) is None
            &&& before is None ==> change is Unchanged
            &&& before is Some ==> change is Cleared
        },
        0 <= i < s.len() && s[i].start_ms <= position_ms && (i + 1 < s.len() ==> s[i + 1].start_ms
            > position_ms) ==> {
            &&& index_after(s, before, position_ms) == Some(i as usize)
            &&& before == Some(i as usize) ==> change is Unchanged
            &&& before != Some(i as usize) ==> {
                &&& change matches CueChange::Shown(shown)
                &&& shown.labels.current@ == s[i].text
                &&& shown.labels.previous@ == if i >= 1 {
                    s[i - 1].text
                } else {
                    Seq::empty()
                }
                &&& shown.labels.older@ == if i >= 2 {
                    s[i - 2].text
                } else {
                    Seq::empty()
                }
                &&& shown.labels.next@ == if i + 1 < s.len() {
                    s[i + 1].text
                } else {
                    Seq::empty()
                }
                &&& shown.labels.later@ == if i + 2 < s.len() {
                    s[i + 2].text
                } else {
                    Seq::empty()
                }
                &&& shown.start_ms == s[i].start_ms
                &&& i + 1 == s.len() ==> shown.duration_ms == 5_000
                &&& i + 1 < s.len() && s[i + 1].start_ms - s[i].start_ms < 50
                    ==> shown.duration_ms == 50
                &&& i + 1 < s.len() && s[i + 1].start_ms - s[i].start_ms >= 50
                    ==> shown.duration_ms == s[i + 1].start_ms - s[i].start_ms
                &&& (forall|k: int|
                    0 <= k < s[i].text.len() ==> text::white_space(#[trigger] s[i].text[k]))
                    ==> shown.request is Cleared
                &&& !(forall|k: int|
                    0 <= k < s[i].text.len() ==> text::white_space(#[trigger] s[i].text[k]))
                    ==> shown.request == (LyricRequest::Render {
                    cue_start_ms: shown.start_ms,
                    duration_ms: shown.duration_ms,
                })
            }
        },
{
    assert(cues::in_time_order(s));
    if s.len() > 0 {
        cues::law_current_cue(s, position_ms);
        if s[0].start_ms > position_ms {
            assert forall|k: int| 0 <= k < s.len() implies (#[trigger] s[k]).start_ms
                > position_ms by {
                if k > 0 {
                    assert(s[0].start_ms <= s[k].start_ms);
                }
            }
        }
        if 0 <= i < s.len() && s[i].start_ms <= position_ms && (i + 1 < s.len() ==> s[i
            + 1].start_ms > position_ms) {
            let n = i as usize;
            assert(s[n as int].start_ms <= position_ms);
            assert(index_after(s, before, position_ms) == Some(n));
            text::law_nothing_is_left_of_white_space(s[i].text);
        }
    }
}

/// The intro is the time before the first line, if that is half a second or
/// more, and three seconds else.
pub proof fn law_intro_is_the_time_before_the_first_line(s: Seq<Cue>)
    ensures
        s.len() > 0 && s[0].start_ms >= 500 ==> intro_of(s) == s[0].start_ms,
        s.len() == 0 || s[0].start_ms < 500 ==> intro_of(s) == 3_000,
{
}

/// A message stands in the middle, with nothing around it.
pub proof fn law_messages_stand_alone(labels: Labels, message: Seq<char>)
    ensures
        labels.show_message(message) <==> labels.current@ == message && labels.older@.len() == 0
            && labels.previous@.len() == 0 && labels.next@.len() == 0 && labels.later@.len() == 0,
{
}

/// The canvas is told every position. It keeps what it shows until a line
/// comes or goes, and loses its text when a line goes. A line that has words
/// waits for its mask.
pub proof fn law_canvas_follows_the_panel(
    before: ReactionDiffusionView,
    after: ReactionDiffusionView,
    position_ms: u64,
    change: CueChange,
)
    requires
        canvas_follows(before, after, position_ms, change),
    ensures
        after.pending_position_ms == Some(position_ms),
        after.playing == before.playing,
        after.pattern_seed == before.pattern_seed,
        after.reset_pattern == before.reset_pattern,
        after.pattern_ready_emitted == before.pattern_ready_emitted,
        after.last_frame_us == before.last_frame_us,
        after.frame_delta == before.frame_delta,
        after.has_renderer == before.has_renderer,
        after.init_failed == before.init_failed,
        change is Unchanged ==> after.pending_mask == before.pending_mask && after.last_bounds
            == before.last_bounds,
        change is Cleared ==> {
            &&& after.last_bounds is None
            &&& after.pending_mask matches Some(m)
            &&& m.pixels@.len() == 3_145_728
            &&& forall|k: int| 0 <= k < 3_145_728 ==> #[trigger] m.pixels@[k] == 0
            &&& m.duration_ms == 0
        },
        change matches CueChange::Shown(shown) ==> {
            let words = shown.labels.current@;
            if (forall|k: int| 0 <= k < words.len() ==> text::white_space(#[trigger] words[k])) {
                &&& shown.request is Cleared
                &&& after.last_bounds is None
                &&& after.pending_mask matches Some(m)
                &&& m.pixels@.len() == 3_145_728
                &&& forall|k: int| 0 <= k < 3_145_728 ==> #[trigger] m.pixels@[k] == 0
                &&& m.cue_start_ms == shown.start_ms
                &&& m.duration_ms == 0
            } else {
                &&& shown.request == (LyricRequest::Render {
                    cue_start_ms: shown.start_ms,
                    duration_ms: shown.duration_ms,
                })
                &&& after.pending_mask == before.pending_mask
                &&& after.last_bounds == before.last_bounds
            }
        },
{
    text::law_nothing_is_left_of_white_space(Seq::empty());
    if let CueChange::Shown(shown) = change {
        text::law_nothing_is_left_of_white_space(shown.labels.current@);
    }
}

/// The number that stands for a song is the hash of its file and identifier,
/// the identifier by its UTF-8 bytes.
pub proof fn law_seed_of_a_song(song: LoadedSong)
    ensures
        song.uuid is None ==> song.seed() == audio_seed::fnv(
            0xCBF2_9CE4_8422_2325,
            audio_seed::song_bytes(song.file, None),
        ),
        song.uuid is Some ==> song.seed() == audio_seed::fnv(
            0xCBF2_9CE4_8422_2325,
            audio_seed::song_bytes(song.file, Some(vstd::utf8::encode_utf8(song.uuid->0@))),
        ),
{
}

} // verus!
