//! Lyrics tracks: reading them, and finding the line of a moment.

use regex::Regex;
use std::path::PathBuf;
use vstd::prelude::*;

use crate::cues;
use crate::cues::Cue;
use crate::lrc;
use crate::lrc::TagCapture;
use crate::text;

verus! {

/// A path of the file system. It is carried, never looked into.
#[verifier::external_type_specification]
#[verifier::external_body]
pub struct ExPathBuf(PathBuf);

/// A line of lyrics.
#[derive(Debug, Clone, PartialEq, Eq)]
pub struct LyricsLine {
    pub start_ms: u64,
    pub text: String,
}

impl View for LyricsLine {
    type V = Cue;

    open spec fn view(&self) -> Cue {
        Cue { start_ms: self.start_ms, text: self.text@ }
    }
}

/// The cues of a sequence of lines.
pub open spec fn cues_of(lines: Seq<LyricsLine>) -> Seq<Cue> {
    lines.map_values(|line: LyricsLine| line@)
}

/// The lyrics of a song.
#[derive(Debug, Clone)]
pub struct LyricsTrack {
    pub lines: Vec<LyricsLine>,
    pub synced: bool,
    pub source: Option<PathBuf>,
}

/// What a lyrics track stands for.
pub struct Track {
    pub cues: Seq<Cue>,
    pub synced: bool,
    pub source: Option<PathBuf>,
}

impl View for LyricsTrack {
    type V = Track;

    open spec fn view(&self) -> Track {
        Track { cues: cues_of(self.lines@), synced: self.synced, source: self.source }
    }
}

/// The track of a song without lyrics.
pub open spec fn no_track() -> Track {
    Track { cues: Seq::empty(), synced: false, source: None }
}

impl Default for LyricsTrack {
    fn default() -> (r: Self)
        ensures
            r@ == no_track(),
    {
        let r = LyricsTrack { lines: Vec::new(), synced: false, source: None };
        assert(r@.cues == Seq::<Cue>::empty());
        r
    }
}

/// A line of an LRC file without the white space around it and without the
/// byte order marks in front.
pub open spec fn cleaned(raw: Seq<char>) -> Seq<char> {
    text::without_leading(text::trimmed(raw), '\u{feff}')
}

/// The words of a cleaned line: what is left of it beside its time tags.
pub open spec fn lyric_text(line: Seq<char>) -> Seq<char> {
    text::trimmed(lrc::without_tags(line))
}

/// The moment that a tag sets its line to: its time moved by the offset, but
/// not before the start of the song.
pub open spec fn cue_start(t: lrc::TagFields, offset: int) -> u64 {
    let at = lrc::tag_millis(t) + offset;
    if at < 0 {
        0
    } else {
        at as u64
    }
}

/// The cues of one line of words: one for each time tag.
pub open spec fn line_cues(tags: Seq<lrc::TagFields>, offset: int, words: Seq<char>) -> Seq<Cue> {
    tags.map_values(|t: lrc::TagFields| Cue { start_ms: cue_start(t, offset), text: words })
}

/// The cues of the lines of an LRC file in the order of the file, where
/// `offset` is in force at the first line. An offset tag is in force until
/// the next one.
pub open spec fn cues_from(lines: Seq<Seq<char>>, offset: int) -> Seq<Cue>
    decreases lines.len(),
{
    if lines.len() == 0 {
        Seq::empty()
    } else {
        let line = cleaned(lines[0]);
        let rest = lines.drop_first();
        match lrc::offset_field(line) {
            Some(field) => cues_from(rest, lrc::offset_millis(field)),
            None => {
                let words = lyric_text(line);
                if words.len() == 0 {
                    cues_from(rest, offset)
                } else {
                    line_cues(lrc::tags_in(line), offset, words) + cues_from(rest, offset)
                }
            },
        }
    }
}

/// The cues of an LRC file in the order of the file.
pub open spec fn lrc_cues(input: Seq<char>) -> Seq<Cue> {
    cues_from(text::lines_of(input), 0)
}

/// Whether a tag can be read under an offset: its fraction splits cleanly,
/// and the sum with the offset fits in 64 bits.
pub open spec fn tag_readable(t: lrc::TagFields, offset: int) -> bool {
    lrc::splits_cleanly(t.fraction) && lrc::tag_millis(t) + offset <= i64::MAX
}

/// Whether every tag that `cues_from` makes a cue of can be read.
pub open spec fn readable_from(lines: Seq<Seq<char>>, offset: int) -> bool
    decreases lines.len(),
{
    if lines.len() == 0 {
        true
    } else {
        let line = cleaned(lines[0]);
        let rest = lines.drop_first();
        match lrc::offset_field(line) {
            Some(field) => readable_from(rest, lrc::offset_millis(field)),
            None => {
                &&& lyric_text(line).len() > 0 ==> forall|k: int|
                    0 <= k < lrc::tags_in(line).len() ==> tag_readable(
                        #[trigger] lrc::tags_in(line)[k],
                        offset,
                    )
                &&& readable_from(rest, offset)
            },
        }
    }
}

/// Whether every tag of an LRC file can be read.
pub open spec fn lrc_readable(input: Seq<char>) -> bool {
    readable_from(text::lines_of(input), 0)
}

/// The track of an LRC file: its cues in the order of time.
pub open spec fn lrc_track(input: Seq<char>) -> Track {
    Track {
        cues: cues::time_ordered(lrc_cues(input)),
        synced: lrc_cues(input).len() > 0,
        source: None,
    }
}

/// The lines of a text that hold more than white space, without the white
/// space around them.
pub open spec fn plain_lines(input: Seq<char>) -> Seq<Seq<char>> {
    text::lines_of(input).map_values(|line: Seq<char>| text::trimmed(line)).filter(
        |line: Seq<char>| line.len() > 0,
    )
}

/// How long, in milliseconds, a line of plain text stays.
pub const PLAIN_LINE_MS: u64 = 5_000;

/// The cues of plain text: its lines, one every five seconds.
pub open spec fn plain_cues(lines: Seq<Seq<char>>) -> Seq<Cue> {
    lines.map(|i: int, line: Seq<char>| Cue { start_ms: (i * PLAIN_LINE_MS) as u64, text: line })
}

/// Whether the start of the last of `n` lines of plain text fits in 64 bits.
pub open spec fn plain_fits(n: nat) -> bool {
    n == 0 || (n - 1) * PLAIN_LINE_MS <= u64::MAX
}

/// The number of the first `count` lines that start at `t` or earlier, where
/// those lines split at `t`.
fn lines_until(lines: &Vec<LyricsLine>, count: usize, t: u64) -> (n: usize)
    requires
        count <= lines@.len(),
    ensures
        n <= count,
        cues::splits_at(
            cues_of(lines@).take(count as int),
            t,
            cues::cues_until(cues_of(lines@).take(count as int), t),
        ) ==> n == cues::cues_until(cues_of(lines@).take(count as int), t),
{
    let ghost front = cues_of(lines@).take(count as int);
    let ghost split = cues::cues_until(front, t);
    let mut low: usize = 0;
    let mut high: usize = count;
    while low < high
        invariant
            low <= high <= count <= lines@.len(),
            front == cues_of(lines@).take(count as int),
            cues::splits_at(front, t, split) ==> low <= split <= high,
        decreases high - low,
    {
        let middle: usize = low + (high - low) / 2;
        assert(front[middle as int].start_ms == lines@[middle as int].start_ms);
        if lines[middle].start_ms <= t {
            low = middle + 1;
        } else {
            high = middle;
        }
    }
    low
}

/// Puts lines in the order of time; lines that start together keep their
/// order.
fn sort_by_start(lines: &mut Vec<LyricsLine>)
    ensures
        cues_of(final(lines)@) == cues::time_ordered(cues_of(old(lines)@)),
{
    let ghost all = cues_of(lines@);
    let mut i: usize = 0;
    proof {
        assert(all.take(0) == Seq::<Cue>::empty());
        assert(cues_of(lines@).take(0) == Seq::<Cue>::empty());
    }
    while i < lines.len()
        invariant
            i <= lines@.len(),
            lines@.len() == all.len(),
            cues_of(lines@).take(i as int) == cues::time_ordered(all.take(i as int)),
            cues_of(lines@).skip(i as int) == all.skip(i as int),
        decreases lines@.len() - i,
    {
        let ghost before = lines@;
        let ghost front = cues_of(before).take(i as int);
        let start_ms: u64 = lines[i].start_ms;
        let at: usize = lines_until(lines, i, start_ms);
        proof {
            cues::lemma_time_ordered(all.take(i as int));
            cues::lemma_time_order_splits(front, start_ms);
            assert(all.take(i + 1).drop_last() == all.take(i as int));
            assert(all.skip(i as int)[0] == all[i as int]);
            assert(cues_of(before).skip(i as int)[0] == before[i as int]@);
            assert(all.take(i + 1).last() == before[i as int]@);
        }
        if at < i {
            let line: LyricsLine = lines.remove(i);
            lines.insert(at, line);
        }
        proof {
            assert(lines@ == before.remove(i as int).insert(at as int, before[i as int]));
            assert(cues_of(lines@).take(i + 1) == front.insert(at as int, before[i as int]@));
            let tail = all.skip(i + 1);
            assert forall|k: int| 0 <= k < tail.len() implies #[trigger] tail[k] == cues_of(
                lines@,
            ).skip(i + 1)[k] by {
                assert(lines@[i + 1 + k] == before[i + 1 + k]);
                assert(cues_of(before).skip(i as int)[k + 1] == all.skip(i as int)[k + 1]);
            }
            assert(cues_of(lines@).skip(i + 1) == all.skip(i + 1));
        }
        i += 1;
    }
    proof {
        assert(all.take(i as int) == all);
        assert(cues_of(lines@).take(i as int) == cues_of(lines@));
    }
}

/// Adds the cues of one line of words: one for each captured tag. Stops with
/// `false` at a tag that cannot be read.
fn push_cues(
    lines: &mut Vec<LyricsLine>,
    tags: &Vec<TagCapture>,
    offset: i64,
    words: &String,
) -> (ok: bool)
    requires
        forall|k: int| 0 <= k < tags@.len() ==> lrc::tag_shape((#[trigger] tags@[k])@),
    ensures
        ok == forall|k: int|
            0 <= k < lrc::fields_of(tags@).len() ==> tag_readable(
                #[trigger] lrc::fields_of(tags@)[k],
                offset as int,
            ),
        ok ==> cues_of(final(lines)@) == cues_of(old(lines)@) + line_cues(
            lrc::fields_of(tags@),
            offset as int,
            words@,
        ),
{
    let ghost before = cues_of(lines@);
    let ghost fields = lrc::fields_of(tags@);
    let ghost added = line_cues(fields, offset as int, words@);
    let mut k: usize = 0;
    proof {
        assert(before + added.take(0) == before);
    }
    while k < tags.len()
        invariant
            k <= tags@.len(),
            fields == lrc::fields_of(tags@),
            added == line_cues(fields, offset as int, words@),
            forall|k: int| 0 <= k < tags@.len() ==> lrc::tag_shape((#[trigger] tags@[k])@),
            forall|j: int| 0 <= j < k ==> tag_readable(#[trigger] fields[j], offset as int),
            cues_of(lines@) == before + added.take(k as int),
        decreases tags@.len() - k,
    {
        let tag: &TagCapture = &tags[k];
        let base: u64 = lrc::read_tag(tag);
        assert(fields[k as int] == tag@);
        if !lrc::fraction_splits_cleanly(&tag.fraction) || offset > i64::MAX - base as i64 {
            assert(!tag_readable(fields[k as int], offset as int));
            return false;
        }
        let at: i64 = base as i64 + offset;
        let start_ms: u64 = if at < 0 {
            0
        } else {
            at as u64
        };
        let ghost so_far = lines@;
        let line = LyricsLine { start_ms, text: words.clone() };
        lines.push(line);
        proof {
            assert(cues_of(lines@) == cues_of(so_far).push(line@));
            assert(added[k as int] == line@);
            assert(added.take(k + 1) == added.take(k as int).push(added[k as int]));
        }
        k += 1;
    }
    proof {
        assert(added.take(k as int) == added);
    }
    true
}

/// One more line adds itself, unless it is blank.
proof fn lemma_filter_take(s: Seq<Seq<char>>, i: int, p: spec_fn(Seq<char>) -> bool)
    requires
        0 <= i < s.len(),
    ensures
        s.take(i + 1).filter(p) == if p(s[i]) {
            s.take(i).filter(p).push(s[i])
        } else {
            s.take(i).filter(p)
        },
{
    reveal(Seq::filter);
    assert(s.take(i + 1).drop_last() == s.take(i));
}

/// The lines of a plain text, one every five seconds. Gives `None` where a
/// start does not fit in 64 bits.
fn plain_text(input: &str) -> (r: Option<Vec<LyricsLine>>)
    ensures
        r is Some == plain_fits(plain_lines(input@).len()),
        r matches Some(lines) ==> cues_of(lines@) == plain_cues(plain_lines(input@)),
{
    let chars: Vec<char> = text::chars_of(input);
    let raws: Vec<&[char]> = text::lines(chars.as_slice());
    let ghost all = text::lines_of(input@).map_values(|line: Seq<char>| text::trimmed(line));
    let ghost kept = |line: Seq<char>| line.len() > 0;
    let ghost total = all.filter(kept);
    let mut lines: Vec<LyricsLine> = Vec::new();
    let mut i: usize = 0;
    proof {
        reveal(Seq::filter);
        assert(all.take(0).filter(kept) == Seq::<Seq<char>>::empty());
        assert(cues_of(lines@) == plain_cues(Seq::empty()));
    }
    while i < raws.len()
        invariant
            i <= raws@.len(),
            text::slice_views(raws@) == text::lines_of(input@),
            all == text::lines_of(input@).map_values(|line: Seq<char>| text::trimmed(line)),
            kept == (|line: Seq<char>| line.len() > 0),
            total == all.filter(kept),
            total == plain_lines(input@),
            cues_of(lines@) == plain_cues(all.take(i as int).filter(kept)),
            plain_fits(lines@.len()),
        decreases raws@.len() - i,
    {
        let words: &[char] = text::trim(raws[i]);
        let ghost so_far = all.take(i as int).filter(kept);
        proof {
            assert(text::slice_views(raws@)[i as int] == raws@[i as int]@);
            assert(all[i as int] == words@);
            lemma_filter_take(all, i as int, kept);
        }
        if words.len() > 0 {
            let count: usize = lines.len();
            proof {
                assert(cues_of(lines@).len() == so_far.len());
                assert(all == all.take(i + 1) + all.skip(i + 1));
                Seq::filter_distributes_over_add(all.take(i + 1), all.skip(i + 1), kept);
            }
            if count as u64 > u64::MAX / PLAIN_LINE_MS {
                return None;
            }
            let ghost before = lines@;
            let line = LyricsLine {
                start_ms: count as u64 * PLAIN_LINE_MS,
                text: text::string_of(words),
            };
            lines.push(line);
            proof {
                assert(cues_of(lines@) == cues_of(before).push(line@));
                assert(plain_cues(so_far.push(words@)) == plain_cues(so_far).push(line@));
            }
        }
        i += 1;
    }
    proof {
        assert(all.take(i as int) == all);
        assert(cues_of(lines@).len() == total.len());
    }
    Some(lines)
}

/// A lyrics file beside an audio file.
#[derive(Debug, Clone, Copy, PartialEq, Eq, Structural)]
pub enum Sidecar {
    Lrc,
    Txt,
}

impl Sidecar {
    /// The extension that takes the place of the audio file's.
    pub fn extension(self) -> (r: &'static str)
        ensures
            r@ == match self {
                Sidecar::Lrc => "lrc"@,
                Sidecar::Txt => "txt"@,
            },
    {
        match self {
            Sidecar::Lrc => "lrc",
            Sidecar::Txt => "txt",
        }
    }
}

/// The path and the text of a lyrics file that could be read.
#[derive(Debug)]
pub struct SidecarFile {
    pub path: PathBuf,
    pub content: String,
}

/// What comes after the attempt to read the LRC file.
#[derive(Debug)]
pub enum LoadStep {
    /// The lyrics are found.
    Finished(LyricsTrack),
    /// Read the text file next.
    ReadText,
    /// A time tag cannot be read.
    Unreadable,
}

/// The characters of an optional string.
pub open spec fn optional_text(s: Option<&str>) -> Option<Seq<char>> {
    match s {
        Some(t) => Some(t@),
        None => None,
    }
}

/// Whether the LRC file is there and holds a cue.
pub open spec fn lrc_has_cues(lrc: Option<SidecarFile>) -> bool {
    lrc matches Some(file) && lrc_cues(file.content@).len() > 0
}

/// The synced track of a song: that of its LRC file or else of the lyrics
/// embedded in its audio file, the first of these that holds a cue. Embedded
/// lyrics have no source.
pub open spec fn synced_track(lrc: Option<SidecarFile>, embedded: Option<Seq<char>>) -> Option<
    Track,
> {
    if lrc_has_cues(lrc) {
        Some(Track { source: Some(lrc->0.path), ..lrc_track(lrc->0.content@) })
    } else {
        match embedded {
            Some(content) => if lrc_cues(content).len() > 0 {
                Some(lrc_track(content))
            } else {
                None
            },
            None => None,
        }
    }
}

/// Whether what `synced_track` looks at can be read.
pub open spec fn synced_readable(lrc: Option<SidecarFile>, embedded: Option<Seq<char>>) -> bool {
    &&& lrc matches Some(file) ==> lrc_readable(file.content@)
    &&& embedded matches Some(content) ==> lrc_has_cues(lrc) || lrc_readable(content)
}

/// The track of a song without synced lyrics: that of its text file, if it
/// has one.
pub open spec fn text_track(txt: Option<SidecarFile>) -> Track {
    match txt {
        Some(file) => Track {
            cues: plain_cues(plain_lines(file.content@)),
            synced: false,
            source: Some(file.path),
        },
        None => no_track(),
    }
}

/// Whether the lines of the text file can all be given a start.
pub open spec fn text_fits(txt: Option<SidecarFile>) -> bool {
    txt matches Some(file) ==> plain_fits(plain_lines(file.content@).len())
}

/// The track of a song.
pub open spec fn loaded_track(
    lrc: Option<SidecarFile>,
    embedded: Option<Seq<char>>,
    txt: Option<SidecarFile>,
) -> Track {
    match synced_track(lrc, embedded) {
        Some(track) => track,
        None => text_track(txt),
    }
}

/// Whatever a song's lyrics come from, they are in the order of time.
pub proof fn lemma_loaded_track_is_ordered(
    lrc: Option<SidecarFile>,
    embedded: Option<Seq<char>>,
    txt: Option<SidecarFile>,
)
    requires
        synced_track(lrc, embedded) is None ==> text_fits(txt),
    ensures
        cues::in_time_order(loaded_track(lrc, embedded, txt).cues),
{
    if let Some(file) = lrc {
        cues::lemma_time_ordered(lrc_cues(file.content@));
    }
    if let Some(content) = embedded {
        cues::lemma_time_ordered(lrc_cues(content));
    }
}

impl LyricsTrack {
    /// Reads an LRC file. Gives `None` where a time tag cannot be read.
    pub fn try_parse_lrc(input: &str) -> (r: Option<Self>)
        ensures
            r is Some == lrc_readable(input@),
            r matches Some(track) ==> track@ == lrc_track(input@),
    {
        let tag: Regex = lrc::compile(lrc::TAG_PATTERN);
        let offset_re: Regex = lrc::compile(lrc::OFFSET_PATTERN);
        let mut offset: i64 = 0;
        let mut lines: Vec<LyricsLine> = Vec::new();
        let chars: Vec<char> = text::chars_of(input);
        let raws: Vec<&[char]> = text::lines(chars.as_slice());
        let ghost all = text::lines_of(input@);
        let mut i: usize = 0;
        proof {
            assert(all.skip(0) == all);
            assert(cues_of(lines@) + cues_from(all, 0) == cues_from(all, 0));
        }
        while i < raws.len()
            invariant
                i <= raws@.len(),
                tag == lrc::compiled(lrc::TAG_PATTERN@),
                offset_re == lrc::compiled(lrc::OFFSET_PATTERN@),
                text::slice_views(raws@) == all,
                all == text::lines_of(input@),
                cues_of(lines@) + cues_from(all.skip(i as int), offset as int) == cues_from(all, 0),
                readable_from(all.skip(i as int), offset as int) == readable_from(all, 0),
            decreases raws@.len() - i,
        {
            let ghost here = all.skip(i as int);
            proof {
                assert(here[0] == raws@[i as int]@);
                assert(here.drop_first() == all.skip(i + 1));
                reveal_strlit("");
            }
            let line: String = text::string_of(
                text::trim_start_matches(text::trim(raws[i]), '\u{feff}'),
            );
            match lrc::capture_offset(&offset_re, line.as_str()) {
                Some(field) => {
                    offset = lrc::read_offset(field.as_str());
                },
                None => {
                    let rest: Vec<char> = text::chars_of(
                        lrc::remove_tags(&tag, line.as_str(), "").as_str(),
                    );
                    let words: String = text::string_of(text::trim(rest.as_slice()));
                    if !words.as_str().is_empty() {
                        let tags: Vec<TagCapture> = lrc::capture_tags(&tag, line.as_str());
                        proof {
                            lrc::lemma_tag_shapes(line@, 0);
                            assert forall|k: int| 0 <= k < tags@.len() implies lrc::tag_shape(
                                (#[trigger] tags@[k])@,
                            ) by {
                                assert(lrc::fields_of(tags@)[k] == tags@[k]@);
                            }
                        }
                        let ghost before = cues_of(lines@);
                        if !push_cues(&mut lines, &tags, offset, &words) {
                            return None;
                        }
                        proof {
                            let later = cues_from(all.skip(i + 1), offset as int);
                            let added = line_cues(lrc::tags_in(line@), offset as int, words@);
                            assert(cues_of(lines@) + later == before + (added + later));
                        }
                    }
                },
            }
            i += 1;
        }
        proof {
            assert(cues_of(lines@) + Seq::<Cue>::empty() == cues_of(lines@));
            cues::lemma_time_ordered(lrc_cues(input@));
        }
        sort_by_start(&mut lines);
        let synced: bool = lines.len() > 0;
        Some(LyricsTrack { lines, synced, source: None })
    }

    /// Reads an LRC file: its lines in the order of time.
    pub fn parse_lrc(input: &str) -> (r: Self)
        requires
            lrc_readable(input@),
        ensures
            r@ == lrc_track(input@),
            cues::in_time_order(r@.cues),
    {
        proof {
            cues::lemma_time_ordered(lrc_cues(input@));
        }
        Self::try_parse_lrc(input).unwrap()
    }

    /// Goes on after the attempt to read the LRC file: takes its lyrics, or
    /// else those embedded in the audio file.
    pub fn after_lrc(lrc: Option<SidecarFile>, embedded: Option<&str>) -> (r: LoadStep)
        ensures
            r is Unreadable == !synced_readable(lrc, optional_text(embedded)),
            r is ReadText == (synced_readable(lrc, optional_text(embedded)) && synced_track(
                lrc,
                optional_text(embedded),
            ) is None),
            r matches LoadStep::Finished(track) ==> Some(track@) == synced_track(
                lrc,
                optional_text(embedded),
            ),
    {
        if let Some(file) = lrc {
            proof {
                cues::lemma_time_ordered(lrc_cues(file.content@));
            }
            match Self::try_parse_lrc(file.content.as_str()) {
                None => {
                    return LoadStep::Unreadable;
                },
                Some(track) => {
                    if track.lines.len() > 0 {
                        let track = LyricsTrack { source: Some(file.path), ..track };
                        return LoadStep::Finished(track);
                    }
                },
            }
        }
        if let Some(content) = embedded {
            proof {
                cues::lemma_time_ordered(lrc_cues(content@));
            }
            match Self::try_parse_lrc(content) {
                None => {
                    return LoadStep::Unreadable;
                },
                Some(track) => {
                    if track.lines.len() > 0 {
                        return LoadStep::Finished(track);
                    }
                },
            }
        }
        LoadStep::ReadText
    }

    /// Goes on after the attempt to read the text file. Gives `None` where
    /// its lines are too many.
    pub fn after_txt(txt: Option<SidecarFile>) -> (r: Option<Self>)
        ensures
            r is Some == text_fits(txt),
            r matches Some(track) ==> track@ == text_track(txt),
    {
        match txt {
            Some(file) => match plain_text(file.content.as_str()) {
                Some(lines) => Some(LyricsTrack { lines, synced: false, source: Some(file.path) }),
                None => None,
            },
            None => Some(Self::default()),
        }
    }

    /// Loads the lyrics of a song from the files beside its audio file, each
    /// absent where it could not be read, and from the lyrics embedded in it.
    pub fn load_for_audio_with_embedded(
        lrc: Option<SidecarFile>,
        embedded: Option<&str>,
        txt: Option<SidecarFile>,
    ) -> (r: Self)
        requires
            synced_readable(lrc, optional_text(embedded)),
            synced_track(lrc, optional_text(embedded)) is None ==> text_fits(txt),
        ensures
            r@ == loaded_track(lrc, optional_text(embedded), txt),
            cues::in_time_order(r@.cues),
    {
        proof {
            lemma_loaded_track_is_ordered(lrc, optional_text(embedded), txt);
        }
        match Self::after_lrc(lrc, embedded) {
            LoadStep::Finished(track) => track,
            _ => Self::after_txt(txt).unwrap(),
        }
    }

    /// Loads the lyrics of a song from the files beside its audio file.
    pub fn load_for_audio(lrc: Option<SidecarFile>, txt: Option<SidecarFile>) -> (r: Self)
        requires
            synced_readable(lrc, None),
            synced_track(lrc, None) is None ==> text_fits(txt),
        ensures
            r@ == loaded_track(lrc, None, txt),
            cues::in_time_order(r@.cues),
    {
        Self::load_for_audio_with_embedded(lrc, None, txt)
    }

    /// The line that is current at a moment: the last one that starts no
    /// later. Where the lines are not in the order of time, only that it is
    /// one of them is promised.
    pub fn current_index(&self, position_ms: u64) -> (r: Option<usize>)
        ensures
            cues::splits_at(
                self@.cues,
                position_ms,
                cues::cues_until(self@.cues, position_ms),
            ) ==> r == cues::index_at(self@.cues, position_ms),
            cues::in_time_order(self@.cues) ==> r == cues::index_at(self@.cues, position_ms),
            r matches Some(i) ==> i < self@.cues.len(),
    {
        proof {
            assert(self@.cues.take(self.lines@.len() as int) == self@.cues);
            if cues::in_time_order(self@.cues) {
                cues::lemma_time_order_splits(self@.cues, position_ms);
            }
        }
        let next: usize = lines_until(&self.lines, self.lines.len(), position_ms);
        next.checked_sub(1)
    }
}

/// An LRC file loses no cue and gains none by being put in the order of time,
/// and cues that start together keep the order of the file.
pub proof fn law_lrc_track_is_ordered(input: Seq<char>)
    ensures
        cues::in_time_order(lrc_track(input).cues),
        lrc_track(input).cues.to_multiset() == lrc_cues(input).to_multiset(),
        forall|t: u64| cues::at_time(lrc_track(input).cues, t) == cues::at_time(lrc_cues(input), t),
        lrc_track(input).synced == (lrc_track(input).cues.len() > 0),
{
    cues::lemma_time_ordered(lrc_cues(input));
    assert forall|t: u64|
        cues::at_time(lrc_track(input).cues, t) == cues::at_time(lrc_cues(input), t) by {
        cues::lemma_time_ordered_is_stable(lrc_cues(input), t);
    }
}

/// Whether words are there, with no white space around them, and fit in one
/// line.
pub open spec fn neat(words: Seq<char>) -> bool {
    &&& words.len() > 0
    &&& text::trimmed(words) == words
    &&& !words.contains('\n')
}

proof fn lemma_cues_are_neat(lines: Seq<Seq<char>>, offset: int)
    requires
        forall|k: int|
            0 <= k < lines.len() ==> text::every(#[trigger] lines[k], |c: char| c != '\n'),
    ensures
        forall|i: int|
            0 <= i < cues_from(lines, offset).len() ==> neat(
                (#[trigger] cues_from(lines, offset)[i]).text,
            ),
    decreases lines.len(),
{
    if lines.len() > 0 {
        let line = cleaned(lines[0]);
        let rest = lines.drop_first();
        assert forall|k: int| 0 <= k < rest.len() implies text::every(
            #[trigger] rest[k],
            |c: char| c != '\n',
        ) by {
            assert(rest[k] == lines[k + 1]);
        }
        match lrc::offset_field(line) {
            Some(field) => {
                lemma_cues_are_neat(rest, lrc::offset_millis(field));
                assert(cues_from(lines, offset) == cues_from(rest, lrc::offset_millis(field)));
            },
            None => {
                lemma_cues_are_neat(rest, offset);
                let words = lyric_text(line);
                if words.len() > 0 {
                    let own = line_cues(lrc::tags_in(line), offset, words);
                    let later = cues_from(rest, offset);
                    let no_feed = |c: char| c != '\n';
                    lemma_cleaned(lines[0], no_feed);
                    lrc::lemma_untagged(line, 0, no_feed);
                    text::lemma_trimmed(lrc::without_tags(line), no_feed);
                    assert(neat(words));
                    assert(cues_from(lines, offset) == own + later);
                } else {
                    assert(cues_from(lines, offset) == cues_from(rest, offset));
                }
            },
        }
    }
}

/// Cleaning a line leaves only what was there.
proof fn lemma_cleaned(raw: Seq<char>, p: spec_fn(char) -> bool)
    requires
        text::every(raw, p),
    ensures
        text::every(cleaned(raw), p),
{
    text::lemma_trimmed(raw, p);
    text::lemma_without_leading(text::trimmed(raw), '\u{feff}', p);
}

/// Every cue of an LRC file, and every line of its track, has words: they are
/// trimmed and hold no line feed.
pub proof fn law_cues_have_words(input: Seq<char>)
    ensures
        forall|i: int| 0 <= i < lrc_cues(input).len() ==> neat((#[trigger] lrc_cues(input)[i]).text),
        forall|i: int|
            0 <= i < lrc_track(input).cues.len() ==> neat(
                (#[trigger] lrc_track(input).cues[i]).text,
            ),
{
    text::lemma_lines(input, |c: char| true);
    lemma_cues_are_neat(text::lines_of(input), 0);
    assert forall|i: int| 0 <= i < lrc_track(input).cues.len() implies neat(
        (#[trigger] lrc_track(input).cues[i]).text,
    ) by {
        cues::lemma_cue_comes_from(lrc_cues(input), i);
        let k = choose|k: int|
            0 <= k < lrc_cues(input).len() && lrc_cues(input)[k] == lrc_track(input).cues[i];
        assert(neat(lrc_cues(input)[k].text));
    }
}

/// Whether the digits of a text are those of ASCII.
pub open spec fn plain_digits(s: Seq<char>) -> bool {
    text::every(s, |c: char| lrc::digit(c) ==> '0' <= c <= '9')
}

/// The largest offset under which every time tag can be read.
pub open spec fn largest_offset() -> int {
    i64::MAX - lrc::LATEST_MS
}

/// Whether no line sets an offset so large that a tag could not be read.
pub open spec fn modest_offsets(lines: Seq<Seq<char>>) -> bool {
    forall|k: int|
        0 <= k < lines.len() ==> (lrc::offset_field(cleaned(#[trigger] lines[k])) matches Some(field)
            ==> lrc::offset_millis(field) <= largest_offset())
}

proof fn lemma_plain_lines_are_readable(lines: Seq<Seq<char>>, offset: int)
    requires
        offset <= largest_offset(),
        modest_offsets(lines),
        forall|k: int| 0 <= k < lines.len() ==> plain_digits(#[trigger] lines[k]),
    ensures
        readable_from(lines, offset),
    decreases lines.len(),
{
    if lines.len() > 0 {
        let line = cleaned(lines[0]);
        let rest = lines.drop_first();
        assert forall|k: int| 0 <= k < rest.len() implies plain_digits(#[trigger] rest[k]) by {
            assert(rest[k] == lines[k + 1]);
        }
        assert(modest_offsets(rest)) by {
            assert forall|k: int| 0 <= k < rest.len() implies (lrc::offset_field(
                cleaned(#[trigger] rest[k]),
            ) matches Some(field) ==> lrc::offset_millis(field) <= largest_offset()) by {
                assert(rest[k] == lines[k + 1]);
            }
        }
        match lrc::offset_field(line) {
            Some(field) => {
                assert(lrc::offset_field(cleaned(lines[0])) == Some(field));
                lemma_plain_lines_are_readable(rest, lrc::offset_millis(field));
            },
            None => {
                lemma_plain_lines_are_readable(rest, offset);
                let plain = |c: char| lrc::digit(c) ==> '0' <= c <= '9';
                lemma_cleaned(lines[0], plain);
                lrc::lemma_tag_shapes(line, 0);
                lrc::lemma_fractions(line, 0, plain);
                let tags = lrc::tags_in(line);
                assert forall|k: int| 0 <= k < tags.len() implies tag_readable(
                    #[trigger] tags[k],
                    offset,
                ) by {
                    assert(lrc::tag_shape(tags[k]));
                    lrc::lemma_tag_millis_bound(tags[k]);
                    if let Some(f) = tags[k].fraction {
                        assert forall|i: int| 0 <= i < f.len() implies '0' <= #[trigger] f[i]
                            <= '9' by {
                            assert(plain(f[i]));
                        }
                        lrc::lemma_ascii_splits_cleanly(f);
                    }
                }
            },
        }
    }
}

/// An LRC file can be read whenever its digits are those of ASCII and its
/// offsets leave room for the latest time that a tag can name.
pub proof fn law_plain_lrc_is_readable(input: Seq<char>)
    requires
        plain_digits(input),
        modest_offsets(text::lines_of(input)),
    ensures
        lrc_readable(input),
{
    text::lemma_lines(input, |c: char| lrc::digit(c) ==> '0' <= c <= '9');
    lemma_plain_lines_are_readable(text::lines_of(input), 0);
}

/// A line with words and no offset tag gives one cue for each of its time
/// tags, all with the same words.
pub proof fn law_one_cue_per_tag(raw: Seq<char>, offset: int)
    requires
        lrc::offset_field(cleaned(raw)) is None,
        lyric_text(cleaned(raw)).len() > 0,
    ensures
        cues_from(seq![raw], offset).len() == lrc::tags_in(cleaned(raw)).len(),
        forall|i: int|
            0 <= i < cues_from(seq![raw], offset).len() ==> (#[trigger] cues_from(
                seq![raw],
                offset,
            )[i]) == (Cue {
                start_ms: cue_start(lrc::tags_in(cleaned(raw))[i], offset),
                text: lyric_text(cleaned(raw)),
            }),
{
    let rest = seq![raw].drop_first();
    assert(seq![raw][0] == raw);
    assert(rest.len() == 0);
    assert(cues_from(rest, offset) == Seq::<Cue>::empty());
    assert(cues_from(seq![raw], offset) == line_cues(
        lrc::tags_in(cleaned(raw)),
        offset,
        lyric_text(cleaned(raw)),
    ) + Seq::<Cue>::empty());
}

/// An offset tag sets the offset of all the lines behind it, up to the next
/// offset tag.
pub proof fn law_offset_tag_sets_the_offset(raw: Seq<char>, lines: Seq<Seq<char>>, offset: int)
    requires
        lrc::offset_field(cleaned(raw)) is Some,
    ensures
        cues_from(seq![raw] + lines, offset) == cues_from(
            lines,
            lrc::offset_millis(lrc::offset_field(cleaned(raw))->0),
        ),
{
    let all = seq![raw] + lines;
    assert(all[0] == raw);
    assert(all.drop_first() == lines);
}

/// Whether no line sets an offset.
pub open spec fn no_offsets(lines: Seq<Seq<char>>) -> bool {
    forall|i: int| 0 <= i < lines.len() ==> lrc::offset_field(cleaned(#[trigger] lines[i])) is None
}

/// In lines without an offset tag, an offset moves every cue by as much, but
/// not before the start of the song, and changes nothing else.
pub proof fn law_offset_moves_every_cue(lines: Seq<Seq<char>>, offset: int)
    requires
        i64::MIN <= offset <= i64::MAX,
        no_offsets(lines),
    ensures
        cues_from(lines, offset) == cues::all_moved(cues_from(lines, 0), offset),
        forall|i: int|
            0 <= i < cues_from(lines, 0).len() ==> (#[trigger] cues_from(lines, 0)[i]).start_ms
                <= lrc::LATEST_MS,
    decreases lines.len(),
{
    if lines.len() == 0 {
        assert(cues::all_moved(cues_from(lines, 0), offset) == Seq::<Cue>::empty());
    } else {
        let line = cleaned(lines[0]);
        let rest = lines.drop_first();
        let words = lyric_text(line);
        let tags = lrc::tags_in(line);
        assert(no_offsets(rest)) by {
            assert forall|i: int| 0 <= i < rest.len() implies lrc::offset_field(
                cleaned(#[trigger] rest[i]),
            ) is None by {
                assert(rest[i] == lines[i + 1]);
            }
        }
        assert(lrc::offset_field(cleaned(lines[0])) is None);
        law_offset_moves_every_cue(rest, offset);
        lrc::lemma_tag_shapes(line, 0);
        if words.len() == 0 {
            assert(cues_from(lines, 0) == cues_from(rest, 0));
            assert(cues_from(lines, offset) == cues_from(rest, offset));
        } else {
            let own = line_cues(tags, 0, words);
            let own_moved = line_cues(tags, offset, words);
            let later = cues_from(rest, 0);
            assert forall|i: int| 0 <= i < own.len() implies (#[trigger] own[i]).start_ms
                <= lrc::LATEST_MS && own_moved[i] == cues::moved(own[i], offset) by {
                assert(lrc::tag_shape(tags[i]));
                lrc::lemma_tag_millis_bound(tags[i]);
            }
            assert(cues_from(lines, 0) == own + later);
            assert(cues_from(lines, offset) == own_moved + cues::all_moved(later, offset));
            assert(cues::all_moved(own + later, offset) == own_moved + cues::all_moved(
                later,
                offset,
            ));
        }
    }
}

/// The offset in force behind lines, where `offset` is in force at the first:
/// that of the last offset tag.
pub open spec fn offset_after(lines: Seq<Seq<char>>, offset: int) -> int
    decreases lines.len(),
{
    if lines.len() == 0 {
        offset
    } else {
        match lrc::offset_field(cleaned(lines[0])) {
            Some(field) => offset_after(lines.drop_first(), lrc::offset_millis(field)),
            None => offset_after(lines.drop_first(), offset),
        }
    }
}

/// An empty line counts for nothing.
proof fn lemma_empty_line(lines: Seq<Seq<char>>, offset: int)
    ensures
        cues_from(seq![Seq::<char>::empty()] + lines, offset) == cues_from(lines, offset),
        readable_from(seq![Seq::<char>::empty()] + lines, offset) == readable_from(lines, offset),
{
    let empty = Seq::<char>::empty();
    let all = seq![empty] + lines;
    assert(all.drop_first() == lines);
    assert(all[0] == empty);
    assert(cleaned(empty) == empty);
    assert(lyric_text(empty).len() == 0);
}

/// Lines that clean to the same count for the same.
proof fn lemma_same_when_cleaned(
    a: Seq<char>,
    b: Seq<char>,
    lines: Seq<Seq<char>>,
    offset: int,
)
    requires
        cleaned(a) == cleaned(b),
    ensures
        cues_from(seq![a] + lines, offset) == cues_from(seq![b] + lines, offset),
        readable_from(seq![a] + lines, offset) == readable_from(seq![b] + lines, offset),
{
    assert((seq![a] + lines).drop_first() == lines);
    assert((seq![b] + lines).drop_first() == lines);
    assert((seq![a] + lines)[0] == a);
    assert((seq![b] + lines)[0] == b);
}

/// The cues of lines in front come first, under their own offsets.
proof fn lemma_one_line_in_front(raw: Seq<char>, lines: Seq<Seq<char>>, offset: int)
    ensures
        ({
            let next = offset_after(seq![raw], offset);
            &&& cues_from(seq![raw] + lines, offset) == cues_from(seq![raw], offset) + cues_from(
                lines,
                next,
            )
            &&& readable_from(seq![raw] + lines, offset) == (readable_from(seq![raw], offset)
                && readable_from(lines, next))
            &&& offset_after(seq![raw] + lines, offset) == offset_after(lines, next)
        }),
{
    let all = seq![raw] + lines;
    let one = seq![raw];
    let none = one.drop_first();
    assert(all[0] == raw && one[0] == raw);
    assert(all.drop_first() == lines);
    assert(none.len() == 0);
    let line = cleaned(raw);
    match lrc::offset_field(line) {
        Some(field) => {
            let next = lrc::offset_millis(field);
            assert(offset_after(one, offset) == offset_after(none, next));
            assert(cues_from(one, offset) == cues_from(none, next));
            assert(readable_from(none, next));
            assert(cues_from(all, offset) == cues_from(one, offset) + cues_from(lines, next));
        },
        None => {
            assert(offset_after(one, offset) == offset_after(none, offset));
            assert(readable_from(none, offset));
            assert(cues_from(none, offset) == Seq::<Cue>::empty());
            assert(cues_from(all, offset) == cues_from(one, offset) + cues_from(lines, offset));
        },
    }
}

proof fn lemma_joined(a: Seq<char>, b: Seq<char>, offset: int)
    ensures
        ({
            let lines = text::lines_of(a + seq!['\n'] + b);
            let front = text::lines_of(a);
            let back = text::lines_of(b);
            let next = offset_after(front, offset);
            &&& cues_from(lines, offset) == cues_from(front, offset) + cues_from(back, next)
            &&& readable_from(lines, offset) == (readable_from(front, offset) && readable_from(
                back,
                next,
            ))
        }),
    decreases a.len(),
{
    let joined = a + seq!['\n'] + b;
    let lines = text::lines_of(joined);
    let front = text::lines_of(a);
    let back = text::lines_of(b);
    text::lemma_joined_lines(a, b);
    text::lemma_line_end(a);
    let first = text::first_line(joined);
    assert(lines == seq![first] + text::lines_of(text::after_first_line(joined)));
    if a.len() == 0 {
        assert(first == Seq::<char>::empty());
        lemma_empty_line(back, offset);
        assert(cues_from(lines, offset) == cues_from(front, offset) + cues_from(back, offset));
    } else if text::line_end(a) < a.len() {
        let rest = text::after_first_line(a);
        let middle = offset_after(seq![first], offset);
        lemma_joined(rest, b, middle);
        assert(front == seq![first] + text::lines_of(rest));
        lemma_one_line_in_front(first, text::lines_of(rest), offset);
        lemma_one_line_in_front(
            first,
            text::lines_of(text::after_first_line(joined)),
            offset,
        );
        assert(cues_from(lines, offset) == cues_from(front, offset) + cues_from(
            back,
            offset_after(front, offset),
        ));
    } else {
        assert(text::lines_of(text::after_first_line(a)) == Seq::<Seq<char>>::empty());
        assert(front == seq![a]);
        if first != a {
            text::lemma_trimmed_push(a.drop_last(), '\r');
            assert(a.drop_last().push('\r') == a);
        }
        assert(cleaned(first) == cleaned(a));
        lemma_same_when_cleaned(first, a, back, offset);
        lemma_one_line_in_front(a, back, offset);
    }
}

/// A text joined to another by a line feed gives the cues of both, the second
/// under the offset that the first ends with. Its track is the stable merge of
/// theirs, and it can be read exactly where both can.
pub proof fn law_joined_texts_merge(a: Seq<char>, b: Seq<char>)
    ensures
        ({
            let joined = a + seq!['\n'] + b;
            let offset = offset_after(text::lines_of(a), 0);
            let second = cues_from(text::lines_of(b), offset);
            &&& lrc_cues(joined) == lrc_cues(a) + second
            &&& lrc_track(joined).cues == cues::merged(
                lrc_track(a).cues,
                cues::time_ordered(second),
            )
            &&& offset == 0 ==> lrc_track(joined).cues == cues::merged(
                lrc_track(a).cues,
                lrc_track(b).cues,
            )
            &&& lrc_track(joined).synced == (lrc_track(a).synced || second.len() > 0)
            &&& lrc_readable(joined) == (lrc_readable(a) && readable_from(
                text::lines_of(b),
                offset,
            ))
        }),
{
    let offset = offset_after(text::lines_of(a), 0);
    lemma_joined(a, b, 0);
    cues::law_merging_orders_both(lrc_cues(a), cues_from(text::lines_of(b), offset));
}

/// An offset line in front of a text without offsets moves every line of its
/// track, but not before the start of the song. The lines keep their order,
/// unless lines that stand in the file in front of earlier ones meet these at
/// the start of the song.
pub proof fn law_offset_line_moves_the_track(raw: Seq<char>, rest: Seq<char>)
    requires
        !raw.contains('\n'),
        lrc::offset_field(cleaned(raw)) is Some,
        no_offsets(text::lines_of(rest)),
    ensures
        ({
            let offset = lrc::offset_millis(lrc::offset_field(cleaned(raw))->0);
            let still = lrc_track(rest).cues;
            let shifted = lrc_track(raw + seq!['\n'] + rest).cues;
            &&& lrc_cues(raw + seq!['\n'] + rest) == cues::all_moved(lrc_cues(rest), offset)
            &&& shifted.len() == still.len()
            &&& forall|i: int|
                0 <= i < still.len() ==> (#[trigger] shifted[i]).start_ms == cues::moved(
                    still[i],
                    offset,
                ).start_ms
            &&& cues::keeps_apart(lrc_cues(rest), offset) ==> shifted == cues::all_moved(
                still,
                offset,
            )
        }),
{
    let offset = lrc::offset_millis(lrc::offset_field(cleaned(raw))->0);
    let lines = text::lines_of(rest);
    text::lemma_line_end(raw);
    if text::line_end(raw) < raw.len() {
        assert(raw.contains(raw[text::line_end(raw)]));
    }
    if raw.len() == 0 {
        assert(cleaned(raw) == raw);
    }
    assert(text::first_line(raw) == raw);
    assert(text::lines_of(text::after_first_line(raw)) == Seq::<Seq<char>>::empty());
    assert(text::lines_of(raw) == seq![raw]);
    let none = seq![raw].drop_first();
    assert(seq![raw][0] == raw);
    assert(none.len() == 0);
    assert(offset_after(seq![raw], 0) == offset_after(none, offset));
    assert(cues_from(seq![raw], 0) == cues_from(none, offset));
    lemma_joined(raw, rest, 0);
    assert(lrc_cues(raw + seq!['\n'] + rest) == cues_from(lines, offset));
    law_offset_moves_every_cue(lines, offset);
    cues::law_moving_keeps_the_order(lrc_cues(rest), offset);
}

/// The LRC file comes before the embedded lyrics, these before the text file;
/// each is passed over where it gives no cue, and only a file is a source.
pub proof fn law_order_of_sources(
    lrc: Option<SidecarFile>,
    embedded: Option<Seq<char>>,
    txt: Option<SidecarFile>,
)
    ensures
        ({
            let track = loaded_track(lrc, embedded, txt);
            let from_file = lrc is Some && lrc_cues(lrc->0.content@).len() > 0;
            let from_tag = embedded is Some && lrc_cues(embedded->0).len() > 0;
            &&& from_file ==> {
                &&& track.cues == cues::time_ordered(lrc_cues(lrc->0.content@))
                &&& track.synced
                &&& track.source == Some(lrc->0.path)
            }
            &&& !from_file && from_tag ==> {
                &&& track.cues == cues::time_ordered(lrc_cues(embedded->0))
                &&& track.synced
                &&& track.source is None
            }
            &&& !from_file && !from_tag ==> {
                &&& !track.synced
                &&& txt is None ==> track.cues.len() == 0 && track.source is None
                &&& txt is Some ==> track.source == Some(txt->0.path) && track.cues
                    == text_track(txt).cues
            }
        }),
{
}

/// Lyrics that are looked at have to be readable; embedded lyrics behind an
/// LRC file with cues are not looked at.
pub proof fn law_lyrics_that_are_looked_at(lrc: Option<SidecarFile>, embedded: Option<Seq<char>>)
    ensures
        synced_readable(lrc, embedded) == ({
            let from_file = lrc is Some && lrc_cues(lrc->0.content@).len() > 0;
            &&& lrc is Some ==> lrc_readable(lrc->0.content@)
            &&& embedded is Some && !from_file ==> lrc_readable(embedded->0)
        }),
{
}

/// The lines of a plain text are those that hold more than white space,
/// without the white space around them; a line feed ends each.
pub proof fn law_plain_text_is_read_by_lines(line: Seq<char>, rest: Seq<char>)
    requires
        forall|i: int| 0 <= i < line.len() ==> #[trigger] line[i] != '\n',
    ensures
        plain_lines(Seq::empty()).len() == 0,
        ({
            let own = if text::trimmed(line).len() > 0 {
                seq![text::trimmed(line)]
            } else {
                Seq::<Seq<char>>::empty()
            };
            &&& plain_lines(line) == own
            &&& plain_lines(line + seq!['\n'] + rest) == own + plain_lines(rest)
        }),
{
    let kept = |l: Seq<char>| l.len() > 0;
    let trim = |l: Seq<char>| text::trimmed(l);
    let none = Seq::<Seq<char>>::empty();
    text::law_line_feeds_end_lines(line, rest);
    let joined = line + seq!['\n'] + rest;
    let first = if line.len() > 0 && line[line.len() - 1] == '\r' {
        line.subrange(0, line.len() - 1)
    } else {
        line
    };
    assert(text::trimmed(first) == text::trimmed(line)) by {
        if first != line {
            text::lemma_trimmed_push(first, '\r');
            assert(first.push('\r') == line);
        }
    }
    let all = text::lines_of(rest).map_values(trim);
    assert(text::lines_of(joined).map_values(trim) == seq![text::trimmed(line)] + all);
    Seq::filter_distributes_over_add(seq![text::trimmed(line)], all, kept);
    reveal_with_fuel(Seq::filter, 2);
    assert(seq![text::trimmed(line)].drop_last() == none);
    assert(none.filter(kept) == none);
    assert(none.map_values(trim) == none);
    assert(text::lines_of(Seq::empty()).map_values(trim) == none);
    if line.len() > 0 {
        assert(seq![line].map_values(trim) == seq![text::trimmed(line)]);
    } else {
        assert(text::trimmed(line) == line);
        assert(line == Seq::<char>::empty());
    }
}

/// In the track of a text file the first line starts with the song, each
/// other one 5000 ms after the line in front of it, and every line has its
/// own words.
pub proof fn law_plain_lines_come_every_five_seconds(file: SidecarFile)
    requires
        text_fits(Some(file)),
    ensures
        ({
            let lines = plain_lines(file.content@);
            let track = text_track(Some(file)).cues;
            &&& track.len() == lines.len()
            &&& track.len() > 0 ==> track[0].start_ms == 0
            &&& forall|i: int, j: int|
                0 <= i < track.len() && j == i + 1 && j < track.len() ==> (
                #[trigger] track[j]).start_ms == (#[trigger] track[i]).start_ms + 5_000
            &&& forall|i: int| 0 <= i < track.len() ==> (#[trigger] track[i]).text == lines[i]
        }),
{
    let lines = plain_lines(file.content@);
    let track = text_track(Some(file)).cues;
    assert forall|i: int| 0 <= i < track.len() implies (#[trigger] track[i]).start_ms == i
        * 5_000 by {
        assert(i * 5_000 <= (lines.len() - 1) * 5_000);
    }
}

/// The lines of a text file all get a start exactly as long as 64 bits hold
/// that of the last.
pub proof fn law_plain_lines_fit(file: SidecarFile)
    ensures
        text_fits(None),
        text_fits(Some(file)) == (plain_lines(file.content@).len() == 0 || 5_000 * (plain_lines(
            file.content@,
        ).len() - 1) <= 0xffff_ffff_ffff_ffff),
{
}

/// A track stands for its lines, each with its start and its words, and for
/// whether they are synced and where they come from.
pub proof fn law_tracks_stand_for_their_lines(track: LyricsTrack)
    ensures
        track@.cues.len() == track.lines@.len(),
        forall|i: int|
            0 <= i < track.lines@.len() ==> {
                &&& (#[trigger] track@.cues[i]).start_ms == track.lines@[i].start_ms
                &&& track@.cues[i].text == track.lines@[i].text@
            },
        track@.synced == track.synced,
        track@.source == track.source,
{
}

/// White space around a line, and byte order marks in front of what it leaves,
/// count for nothing.
pub proof fn law_lines_are_cleaned(
    before: Seq<char>,
    marks: Seq<char>,
    core: Seq<char>,
    after: Seq<char>,
)
    requires
        forall|i: int| 0 <= i < before.len() ==> text::white_space(#[trigger] before[i]),
        forall|i: int| 0 <= i < after.len() ==> text::white_space(#[trigger] after[i]),
        forall|i: int| 0 <= i < marks.len() ==> #[trigger] marks[i] == '\u{feff}',
        core.len() > 0 ==> core[0] != '\u{feff}' && !text::white_space(core[core.len() - 1]),
        core.len() > 0 && marks.len() == 0 ==> !text::white_space(core[0]),
    ensures
        cleaned(before + marks + core + after) == core,
{
    let middle = marks + core;
    assert(before + marks + core + after == before + middle + after);
    if middle.len() > 0 {
        if marks.len() > 0 {
            assert(middle[0] == marks[0]);
        } else {
            assert(middle[0] == core[0]);
        }
        if core.len() > 0 {
            assert(middle[middle.len() - 1] == core[core.len() - 1]);
        } else {
            assert(middle[middle.len() - 1] == marks[marks.len() - 1]);
        }
    }
    text::law_trimming_leaves_the_core(before, middle, after);
    text::law_leading_characters_are_taken_off(marks, '\u{feff}', core);
}

/// What a line does in front of other lines. A line with an offset tag sets
/// the offset and gives no cue. A line without words gives none either. Any
/// other gives a cue for each of its tags, with the words of the line, at the
/// time of the tag moved by the offset, but not before zero.
pub proof fn law_what_a_line_gives(raw: Seq<char>, rest: Seq<Seq<char>>, offset: int)
    requires
        -0x8000_0000_0000_0000 <= offset <= 0x7fff_ffff_ffff_ffff,
    ensures
        ({
            let line = cleaned(raw);
            let all = cues_from(seq![raw] + rest, offset);
            let words = text::trimmed(lrc::without_tags(line));
            let tags = lrc::tags_in(line);
            match lrc::offset_field(line) {
                Some(field) => {
                    &&& all == cues_from(rest, lrc::offset_millis(field))
                    &&& readable_from(seq![raw] + rest, offset) == readable_from(
                        rest,
                        lrc::offset_millis(field),
                    )
                },
                None => if words.len() == 0 {
                    &&& all == cues_from(rest, offset)
                    &&& readable_from(seq![raw] + rest, offset) == readable_from(rest, offset)
                } else {
                    &&& all.len() == tags.len() + cues_from(rest, offset).len()
                    &&& all.skip(tags.len() as int) == cues_from(rest, offset)
                    &&& forall|k: int|
                        0 <= k < tags.len() ==> {
                            let at = lrc::tag_millis(#[trigger] tags[k]) + offset;
                            &&& at < 0 ==> all[k].start_ms == 0
                            &&& at >= 0 ==> all[k].start_ms == at
                            &&& all[k].text == words
                        }
                    &&& readable_from(seq![raw] + rest, offset) == (readable_from(rest, offset)
                        && forall|k: int|
                        0 <= k < tags.len() ==> lrc::splits_cleanly(
                            (#[trigger] tags[k]).fraction,
                        ) && lrc::tag_millis(tags[k]) + offset <= 0x7fff_ffff_ffff_ffff)
                },
            }
        }),
{
    let line = cleaned(raw);
    let lines = seq![raw] + rest;
    let words = lyric_text(line);
    let tags = lrc::tags_in(line);
    assert(lines[0] == raw);
    assert(lines.drop_first() == rest);
    if lrc::offset_field(line) is None && words.len() > 0 {
        let own = line_cues(tags, offset, words);
        let all = cues_from(lines, offset);
        assert(all == own + cues_from(rest, offset));
        assert(all.skip(tags.len() as int) == cues_from(rest, offset));
        lrc::lemma_tag_shapes(line, 0);
        assert forall|k: int| 0 <= k < tags.len() implies {
            let at = lrc::tag_millis(#[trigger] tags[k]) + offset;
            &&& at < 0 ==> all[k].start_ms == 0
            &&& at >= 0 ==> all[k].start_ms == at
            &&& all[k].text == words
        } by {
            assert(lrc::tag_shape(tags[k]));
            lrc::lemma_tag_millis_bound(tags[k]);
            assert(all[k] == own[k]);
        }
        let each = forall|k: int|
            0 <= k < tags.len() ==> lrc::splits_cleanly((#[trigger] tags[k]).fraction)
                && lrc::tag_millis(tags[k]) + offset <= 0x7fff_ffff_ffff_ffff;
        assert(each == forall|k: int|
            0 <= k < tags.len() ==> tag_readable(#[trigger] tags[k], offset)) by {
            if each {
                assert forall|k: int| 0 <= k < tags.len() implies tag_readable(
                    #[trigger] tags[k],
                    offset,
                ) by {}
            }
            if forall|k: int| 0 <= k < tags.len() ==> tag_readable(#[trigger] tags[k], offset) {
                assert forall|k: int| 0 <= k < tags.len() implies lrc::splits_cleanly(
                    (#[trigger] tags[k]).fraction,
                ) && lrc::tag_millis(tags[k]) + offset <= 0x7fff_ffff_ffff_ffff by {
                    assert(tag_readable(tags[k], offset));
                }
            }
        }
    }
}

/// Time tags as they are written one behind the other.
pub open spec fn written_tags(tags: Seq<lrc::TagFields>, points: Seq<char>) -> Seq<char>
    decreases tags.len(),
{
    if tags.len() == 0 {
        Seq::empty()
    } else {
        lrc::written_tag(tags[0], points[0]) + written_tags(tags.drop_first(), points.drop_first())
    }
}

/// Whether tags are written in ASCII digits.
pub open spec fn plain_tags(tags: Seq<lrc::TagFields>, points: Seq<char>) -> bool {
    &&& points.len() == tags.len()
    &&& forall|k: int|
        0 <= k < tags.len() ==> {
            &&& lrc::makes_tag(#[trigger] tags[k], points[k])
            &&& lrc::ascii(tags[k].minutes)
            &&& lrc::ascii(tags[k].seconds)
            &&& tags[k].fraction matches Some(f) ==> lrc::ascii(f)
        }
}

proof fn lemma_written_tags(tags: Seq<lrc::TagFields>, points: Seq<char>, words: Seq<char>)
    requires
        plain_tags(tags, points),
        forall|i: int| 0 <= i < words.len() ==> #[trigger] words[i] != '[',
    ensures
        lrc::tags_in(written_tags(tags, points) + words) == tags,
        lrc::without_tags(written_tags(tags, points) + words) == words,
        text::every(written_tags(tags, points), |c: char| c != '\n'),
    decreases tags.len(),
{
    if tags.len() == 0 {
        assert(written_tags(tags, points) + words == words);
        lrc::law_text_without_brackets_stays(words);
        assert(tags == Seq::<lrc::TagFields>::empty());
    } else {
        let rest = tags.drop_first();
        let others = points.drop_first();
        assert(plain_tags(rest, others)) by {
            assert forall|k: int| 0 <= k < rest.len() implies {
                &&& lrc::makes_tag(#[trigger] rest[k], others[k])
                &&& lrc::ascii(rest[k].minutes)
                &&& lrc::ascii(rest[k].seconds)
                &&& rest[k].fraction matches Some(f) ==> lrc::ascii(f)
            } by {
                assert(rest[k] == tags[k + 1]);
            }
        }
        lemma_written_tags(rest, others, words);
        let t = tags[0];
        let w = lrc::written_tag(t, points[0]);
        assert(lrc::makes_tag(tags[0], points[0]));
        lrc::law_tags_in_front_add_up(t, points[0], written_tags(rest, others) + words);
        assert(w + (written_tags(rest, others) + words) == written_tags(tags, points) + words);
        assert(seq![t] + rest == tags);
        assert forall|i: int| 0 <= i < w.len() implies #[trigger] w[i] != '\n' by {
            let m = t.minutes.len() as int;
            if 1 <= i < 1 + m {
                assert(w[i] == t.minutes[i - 1]);
            } else if 2 + m <= i < 4 + m {
                assert(w[i] == t.seconds[i - 2 - m]);
            } else if let Some(f) = t.fraction {
                if 5 + m <= i < 5 + m + f.len() {
                    assert(w[i] == f[i - 5 - m]);
                }
            }
        }
        assert forall|i: int| 0 <= i < written_tags(tags, points).len() implies (
        #[trigger] written_tags(tags, points)[i]) != '\n' by {
            if i < w.len() {
                assert(written_tags(tags, points)[i] == w[i]);
            } else {
                assert(written_tags(tags, points)[i] == written_tags(rest, others)[i - w.len()]);
            }
        }
    }
}

/// A line of time tags with words behind them gives these words at each of the
/// times that are written: a minute is 60000 ms, a second 1000 ms, and a
/// fraction counts by its length. An offset moves the times, but not before
/// zero.
pub proof fn law_written_lines_are_read(
    tags: Seq<lrc::TagFields>,
    points: Seq<char>,
    words: Seq<char>,
    offset: int,
)
    requires
        -0x8000_0000_0000_0000 <= offset <= 0x7fff_ffff_ffff_ffff,
        tags.len() > 0,
        plain_tags(tags, points),
        words.len() > 0,
        forall|i: int|
            0 <= i < words.len() ==> #[trigger] words[i] != '[' && words[i] != '\n',
        !text::white_space(words[0]),
        !text::white_space(words[words.len() - 1]),
    ensures
        ({
            let line = written_tags(tags, points) + words;
            let given = cues_from(text::lines_of(line), offset);
            &&& given.len() == tags.len()
            &&& forall|k: int|
                0 <= k < tags.len() ==> {
                    let t = #[trigger] tags[k];
                    let at = 60_000 * text::decimal_value(t.minutes) + 1_000
                        * text::decimal_value(t.seconds) + (match t.fraction {
                        None => 0,
                        Some(f) => if f.len() == 1 {
                            100 * text::decimal_value(f)
                        } else if f.len() == 2 {
                            10 * text::decimal_value(f)
                        } else {
                            text::decimal_value(f)
                        },
                    }) + offset;
                    &&& given[k].text == words
                    &&& at < 0 ==> given[k].start_ms == 0
                    &&& at >= 0 ==> given[k].start_ms == at
                }
        }),
{
    let front = written_tags(tags, points);
    let line = front + words;
    lemma_written_tags(tags, points, words);
    assert(lrc::makes_tag(tags[0], points[0]));
    let w = lrc::written_tag(tags[0], points[0]);
    assert(w[0] == '[');
    assert(w[1] == tags[0].minutes[0]);
    assert(front[0] == w[0] && front[1] == w[1]);
    assert(line[0] == '[' && line[1] == tags[0].minutes[0]);
    assert(line[line.len() - 1] == words[words.len() - 1]);
    assert forall|i: int| 0 <= i < line.len() implies #[trigger] line[i] != '\n' by {
        if i < front.len() {
            assert(line[i] == front[i]);
        } else {
            assert(line[i] == words[i - front.len()]);
        }
    }
    text::law_line_feeds_end_lines(line, Seq::empty());
    let none = Seq::<char>::empty();
    law_lines_are_cleaned(none, none, line, none);
    assert(none + none + line + none == line);
    lrc::law_found_offsets_are_written(line);
    if lrc::offset_field(line) is Some {
        assert(line.take(8)[1] == line[1]);
        assert('0' <= tags[0].minutes[0] <= '9');
        assert(false);
    }
    text::law_trimming_leaves_the_core(none, words, none);
    assert(none + words + none == words);
    let lines = Seq::<Seq<char>>::empty();
    assert(seq![line] + lines == seq![line]);
    law_what_a_line_gives(line, lines, offset);
    let given = cues_from(text::lines_of(line), offset);
    assert forall|k: int| 0 <= k < tags.len() implies {
        let t = #[trigger] tags[k];
        let at = 60_000 * text::decimal_value(t.minutes) + 1_000 * text::decimal_value(t.seconds)
            + (match t.fraction {
            None => 0,
            Some(f) => if f.len() == 1 {
                100 * text::decimal_value(f)
            } else if f.len() == 2 {
                10 * text::decimal_value(f)
            } else {
                text::decimal_value(f)
            },
        }) + offset;
        &&& given[k].text == words
        &&& at < 0 ==> given[k].start_ms == 0
        &&& at >= 0 ==> given[k].start_ms == at
    } by {
        lrc::law_time_of_a_tag(tags[k]);
        assert(lrc::tags_in(line)[k] == tags[k]);
    }
}

/// The track of an LRC file holds its cues as a stable sort by their starts
/// leaves them; it is synced exactly where there is a cue, and has no source.
pub proof fn law_track_of_an_lrc_file(input: Seq<char>, t: u64)
    ensures
        lrc_track(input).cues.to_multiset() == cues_from(text::lines_of(input), 0).to_multiset(),
        forall|i: int, j: int|
            0 <= i < j < lrc_track(input).cues.len() ==> lrc_track(input).cues[i].start_ms
                <= lrc_track(input).cues[j].start_ms,
        lrc_track(input).cues.filter(|c: Cue| c.start_ms == t) == cues_from(
            text::lines_of(input),
            0,
        ).filter(|c: Cue| c.start_ms == t),
        lrc_track(input).synced <==> cues_from(text::lines_of(input), 0).len() > 0,
        lrc_track(input).source is None,
        lrc_readable(input) == readable_from(text::lines_of(input), 0),
        cues_from(Seq::empty(), 0).len() == 0,
        readable_from(Seq::empty(), 0),
{
    cues::law_ordering_is_a_stable_sort(lrc_cues(input), t);
}

} // verus!
