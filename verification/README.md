# Amberol Glass Lyrics

Synced lyrics over an audio-seeded reaction-diffusion canvas. The lines of a
song are carved into a Gray-Scott pattern while they are sung; the pattern
grows from a hash of the audio file, so a song always starts from the same
picture.

## Layout

- `src/` is the library, written in Verus. It holds no input or output and no
  floating point.
  - `text`: white space, lines and decimal numbers.
  - `lrc`: the grammar of LRC tags, and the regular expressions that find them.
  - `cues`: sequences of cues in the order of time.
  - `lyrics`: reading and loading lyrics, and the line of a moment.
  - `lyrics_panel`: what the panel shows at a position of a song.
  - `audio_seed`: the hash of an audio file.
  - `pattern`: the state that the simulation starts from.
  - `mask`: the size, the place and the bytes of a lyric text.
  - `reaction_diffusion_view`: what waits for the next frame of the canvas.
  - `renderer`: the passes of a frame.
  - `app_id`: development builds.
- `tests/` runs the library.
- `app/` is the program: widgets, OpenGL, files, and what is floating point.

Times are milliseconds, frame steps are microseconds, and the concentrations
of the two chemicals are hundredths.

## What is trusted

Each trusted item names in its doc comment the function that it stands for:
the functions of `regex` in `lrc`, `String::push` in `text`, hashing a string
in `mask`, and the type `PathBuf` in `lyrics`. Everything else in `src/` is
proved.

Functions named `law_...` state what holds of the library as a whole.
