//! Masks of lyric text: the size of the letters, the place of the text on the
//! canvas, and the bytes of the mask.

use std::collections::hash_map::DefaultHasher;
use std::hash::{Hash, Hasher};
use vstd::prelude::*;
use vstd::std_specs::hash::DefaultHasherAdditionalSpecFns;

use crate::pattern::{SIM_HEIGHT, SIM_PIXELS, SIM_WIDTH};
use crate::text;

verus! {

/// The widest text that a mask holds.
pub const MASK_MAX_WIDTH: i32 = 660;

/// The highest text that a mask holds.
pub const MASK_MAX_HEIGHT: i32 = 784;

/// The height from which on text is set in smaller letters.
pub const TEXT_MAX_HEIGHT: i32 = 300;

/// The smallest size of letters.
pub const FONT_MIN: i32 = 42;

/// The number of places that a text can take.
pub const PLACES: usize = 5;

/// A rectangle on the canvas.
#[derive(Debug, Clone, Copy, PartialEq, Eq, Structural)]
pub struct MaskRect {
    pub x: i32,
    pub y: i32,
    pub width: i32,
    pub height: i32,
}

impl Default for MaskRect {
    fn default() -> (r: Self)
        ensures
            r == (MaskRect { x: 0, y: 0, width: 0, height: 0 }),
    {
        MaskRect { x: 0, y: 0, width: 0, height: 0 }
    }
}

/// The text of a cue as bytes, with its place and its time.
#[derive(Debug, Clone)]
pub struct MaskUpdate {
    pub pixels: Vec<u8>,
    pub bounds: MaskRect,
    pub cue_start_ms: u64,
    pub duration_ms: u64,
}

/// How far two spans overlap; negative where there is a gap.
pub open spec fn span_overlap(a: int, a_len: int, b: int, b_len: int) -> int {
    (if a + a_len < b + b_len {
        a + a_len
    } else {
        b + b_len
    }) - (if a > b {
        a
    } else {
        b
    })
}

impl MaskRect {
    /// Whether the rectangle is one of text: of a size that a mask holds, and
    /// on the canvas.
    pub open spec fn wf(self) -> bool {
        &&& 1 <= self.width <= MASK_MAX_WIDTH
        &&& 1 <= self.height <= MASK_MAX_HEIGHT
        &&& 0 <= self.x && self.x + self.width <= SIM_WIDTH
        &&& 0 <= self.y && self.y + self.height <= SIM_HEIGHT
    }

    /// The number of pixels of the rectangle.
    pub open spec fn area(self) -> int {
        self.width * self.height
    }

    /// How far two rectangles overlap from left to right; negative where
    /// there is a gap.
    pub open spec fn shared_width(self, other: MaskRect) -> int {
        span_overlap(self.x as int, self.width as int, other.x as int, other.width as int)
    }

    /// How far two rectangles overlap from top to bottom; negative where
    /// there is a gap.
    pub open spec fn shared_height(self, other: MaskRect) -> int {
        span_overlap(self.y as int, self.height as int, other.y as int, other.height as int)
    }

    /// Whether the edges of the rectangle fit in 32 bits.
    pub open spec fn edges_fit(self) -> bool {
        &&& i32::MIN <= self.x + self.width <= i32::MAX
        &&& i32::MIN <= self.y + self.height <= i32::MAX
    }

    /// Whether the overlap with another rectangle can be measured in 32 bits.
    pub open spec fn can_be_measured(self, other: MaskRect) -> bool {
        &&& self.edges_fit()
        &&& other.edges_fit()
        &&& i32::MIN <= self.shared_width(other) <= i32::MAX
        &&& i32::MIN <= self.shared_height(other) <= i32::MAX
        &&& self.shared_width(other) > 0 && self.shared_height(other) > 0 ==> self.area()
            <= i32::MAX
    }

    /// The number of pixels that two rectangles share.
    pub open spec fn shared(self, other: MaskRect) -> int {
        let w = self.shared_width(other);
        let h = self.shared_height(other);
        if w <= 0 || h <= 0 {
            0
        } else {
            w * h
        }
    }

    /// Whether a pixel lies in the rectangle.
    pub open spec fn holds(self, px: int, py: int) -> bool {
        self.x <= px < self.x + self.width && self.y <= py < self.y + self.height
    }

    /// Whether every pixel of the rectangle lies in another.
    pub open spec fn lies_in(self, other: MaskRect) -> bool {
        forall|px: int, py: int| #[trigger] self.holds(px, py) ==> other.holds(px, py)
    }

    /// Whether less than 0.32 of the rectangle lies in another.
    pub open spec fn mostly_clear_of(self, other: MaskRect) -> bool {
        self.shared(other) * 25 < self.area() * 8
    }

    /// The part of the rectangle that lies in another, as the numerator and
    /// the denominator of a ratio: none of one where they do not overlap.
    pub fn overlap_ratio(self, other: Self) -> (r: (i32, i32))
        requires
            self.can_be_measured(other),
        ensures
            r.0 == self.shared(other),
            r.1 == if self.shared(other) > 0 {
                self.area()
            } else {
                1
            },
            0 <= r.0 <= r.1,
    {
        let x: i32 = if self.x > other.x {
            self.x
        } else {
            other.x
        };
        let y: i32 = if self.y > other.y {
            self.y
        } else {
            other.y
        };
        let right: i32 = if self.x + self.width < other.x + other.width {
            self.x + self.width
        } else {
            other.x + other.width
        };
        let bottom: i32 = if self.y + self.height < other.y + other.height {
            self.y + self.height
        } else {
            other.y + other.height
        };
        let w: i32 = right - x;
        let h: i32 = bottom - y;
        let ghost width = self.width as int;
        let ghost height = self.height as int;
        if w <= 0 || h <= 0 {
            (0, 1)
        } else {
            assert(0 < w * h <= width * height) by (nonlinear_arith)
                requires
                    1 <= w <= width,
                    1 <= h <= height,
            ;
            (w * h, self.width * self.height)
        }
    }

    /// Whether less than 0.32 of the rectangle lies in another.
    pub fn is_mostly_clear_of(self, other: Self) -> (r: bool)
        requires
            self.wf(),
            other.wf(),
        ensures
            r == self.mostly_clear_of(other),
    {
        proof {
            lemma_areas_on_the_canvas(self);
        }
        let (part, whole): (i32, i32) = self.overlap_ratio(other);
        part * 25 < whole * 8
    }
}

/// A rectangle of text has a pixel, and no more than the canvas.
proof fn lemma_areas_on_the_canvas(a: MaskRect)
    requires
        a.wf(),
    ensures
        1 <= a.area() <= SIM_PIXELS,
{
    let width = a.width as int;
    let height = a.height as int;
    assert(1 <= width * height <= 768 * 1024) by (nonlinear_arith)
        requires
            1 <= width <= 768,
            1 <= height <= 1024,
    ;
}

/// `v` brought into the range from `low` to `high`.
pub open spec fn clamped(v: int, low: int, high: int) -> int {
    if v < low {
        low
    } else if v > high {
        high
    } else {
        v
    }
}

fn clamp(v: i32, low: i32, high: i32) -> (r: i32)
    requires
        low <= high,
    ensures
        r == clamped(v as int, low as int, high as int),
{
    if v < low {
        low
    } else if v > high {
        high
    } else {
        v
    }
}

/// The larger of two numbers.
pub open spec fn larger(a: int, b: int) -> int {
    if a < b {
        b
    } else {
        a
    }
}

/// The smaller of two numbers.
pub open spec fn smaller(a: int, b: int) -> int {
    if a < b {
        a
    } else {
        b
    }
}

/// The rectangle of a text of a given size at one of its places: the middle,
/// the upper left, the lower right, the upper part of the right and the lower
/// part of the left.
pub open spec fn place(width: int, height: int, k: int) -> MaskRect {
    let right = larger(SIM_WIDTH - width - 54, 54);
    let (x, y) = if k == 0 {
        ((SIM_WIDTH - width) / 2, (SIM_HEIGHT - height) / 2)
    } else if k == 1 {
        (54int, larger(smaller(132, SIM_HEIGHT - height - 132), 54))
    } else if k == 2 {
        (right, larger(SIM_HEIGHT - height - 132, 132))
    } else if k == 3 {
        (right, larger(smaller(228, SIM_HEIGHT - height - 132), 54))
    } else {
        (54int, larger(SIM_HEIGHT - height - 228, 54))
    };
    MaskRect { x: x as i32, y: y as i32, width: width as i32, height: height as i32 }
}

/// Whether the place that comes `k` places behind that of a hash keeps clear
/// of the previous text.
pub open spec fn place_is_clear(
    width: int,
    height: int,
    hash: usize,
    k: int,
    previous: Option<MaskRect>,
) -> bool {
    match previous {
        Some(old) => place(width, height, (hash + k) % (PLACES as int)).mostly_clear_of(old),
        None => true,
    }
}

/// The place of a text: the first that keeps clear of the previous text,
/// counted from the place of a hash; that of the hash where there is none.
pub open spec fn placed_from(
    width: int,
    height: int,
    hash: usize,
    k: int,
    previous: Option<MaskRect>,
) -> MaskRect
    decreases PLACES - k,
{
    if k >= PLACES {
        place(width, height, hash as int % (PLACES as int))
    } else if place_is_clear(width, height, hash, k, previous) {
        place(width, height, (hash + k) % (PLACES as int))
    } else {
        placed_from(width, height, hash, k + 1, previous)
    }
}

/// The rectangle of a text whose layout measures `logical_width` by
/// `logical_height`.
pub open spec fn placed(
    logical_width: int,
    logical_height: int,
    hash: usize,
    previous: Option<MaskRect>,
) -> MaskRect {
    placed_from(
        clamped(logical_width, 1, MASK_MAX_WIDTH as int),
        clamped(logical_height, 1, MASK_MAX_HEIGHT as int),
        hash,
        0,
        previous,
    )
}

/// Whether the places that are tried, from the one that comes `k` places
/// behind that of the hash on, can all be counted from the hash.
pub open spec fn hash_counts(
    width: int,
    height: int,
    hash: usize,
    k: int,
    previous: Option<MaskRect>,
) -> bool
    decreases PLACES - k,
{
    k >= PLACES || (hash + k <= usize::MAX && (place_is_clear(width, height, hash, k, previous)
        || hash_counts(width, height, hash, k + 1, previous)))
}

/// Every place keeps a text on the canvas, away from its edges and twice as
/// far from the lower one.
pub proof fn law_places_are_on_the_canvas(width: int, height: int, k: int)
    requires
        1 <= width <= MASK_MAX_WIDTH,
        1 <= height <= MASK_MAX_HEIGHT,
    ensures
        place(width, height, k).wf(),
        place(width, height, k).width == width,
        place(width, height, k).height == height,
        54 <= place(width, height, k).x,
        54 <= place(width, height, k).y,
        place(width, height, k).x + width <= SIM_WIDTH - 54,
        place(width, height, k).y + height <= SIM_HEIGHT - 108,
{
}

/// The place of a text.
fn place_at(width: i32, height: i32, k: usize) -> (r: MaskRect)
    requires
        1 <= width <= MASK_MAX_WIDTH,
        1 <= height <= MASK_MAX_HEIGHT,
    ensures
        r == place(width as int, height as int, k as int),
        r.wf(),
{
    let right: i32 = if SIM_WIDTH - width - 54 < 54 {
        54
    } else {
        SIM_WIDTH - width - 54
    };
    let room: i32 = SIM_HEIGHT - height - 132;
    let (x, y): (i32, i32) = if k == 0 {
        ((SIM_WIDTH - width) / 2, (SIM_HEIGHT - height) / 2)
    } else if k == 1 {
        (54, clamp(room, 54, 132))
    } else if k == 2 {
        (
            right,
            if room < 132 {
                132
            } else {
                room
            },
        )
    } else if k == 3 {
        (right, clamp(room, 54, 228))
    } else {
        (
            54,
            if room - 96 < 54 {
                54
            } else {
                room - 96
            },
        )
    };
    MaskRect { x, y, width, height }
}

/// Places a text on the canvas: the layout's size, a hash of the text, and
/// the rectangle of the previous text. Gives `None` where the places to try
/// cannot be counted from the hash.
pub fn try_place_text(
    logical_width: i32,
    logical_height: i32,
    hash: usize,
    previous: Option<MaskRect>,
) -> (r: Option<MaskRect>)
    requires
        previous matches Some(old) ==> old.wf(),
    ensures
        r is Some == hash_counts(
            clamped(logical_width as int, 1, MASK_MAX_WIDTH as int),
            clamped(logical_height as int, 1, MASK_MAX_HEIGHT as int),
            hash,
            0,
            previous,
        ),
        r matches Some(rect) ==> rect == placed(
            logical_width as int,
            logical_height as int,
            hash,
            previous,
        ) && rect.wf(),
{
    let width: i32 = clamp(logical_width, 1, MASK_MAX_WIDTH);
    let height: i32 = clamp(logical_height, 1, MASK_MAX_HEIGHT);
    let mut offset: usize = 0;
    while offset < PLACES
        invariant
            offset <= PLACES,
            width == clamped(logical_width as int, 1, MASK_MAX_WIDTH as int),
            height == clamped(logical_height as int, 1, MASK_MAX_HEIGHT as int),
            previous matches Some(old) ==> old.wf(),
            hash_counts(width as int, height as int, hash, 0, previous) == hash_counts(
                width as int,
                height as int,
                hash,
                offset as int,
                previous,
            ),
            placed_from(width as int, height as int, hash, 0, previous) == placed_from(
                width as int,
                height as int,
                hash,
                offset as int,
                previous,
            ),
        decreases PLACES - offset,
    {
        let count: usize = match hash.checked_add(offset) {
            Some(count) => count,
            None => {
                return None;
            },
        };
        let bounds: MaskRect = place_at(width, height, count % PLACES);
        let clear: bool = match previous {
            Some(old) => bounds.is_mostly_clear_of(old),
            None => true,
        };
        if clear {
            return Some(bounds);
        }
        offset += 1;
    }
    Some(place_at(width, height, hash % PLACES))
}

/// Places a text on the canvas.
pub fn place_text(
    logical_width: i32,
    logical_height: i32,
    hash: usize,
    previous: Option<MaskRect>,
) -> (r: MaskRect)
    requires
        previous matches Some(old) ==> old.wf(),
        hash_counts(
            clamped(logical_width as int, 1, MASK_MAX_WIDTH as int),
            clamped(logical_height as int, 1, MASK_MAX_HEIGHT as int),
            hash,
            0,
            previous,
        ),
    ensures
        r == placed(logical_width as int, logical_height as int, hash, previous),
        r.wf(),
{
    try_place_text(logical_width, logical_height, hash, previous).unwrap()
}

/// What `<str as Hash>::hash` leaves written in a hasher, of what is written
/// in it before and of a text.
pub uninterp spec fn hashed(before: Seq<Seq<u8>>, text: Seq<char>) -> Seq<Seq<u8>>;

/// `<str as Hash>::hash` into a `DefaultHasher`: what is written then depends
/// on nothing but what was written before and the text.
#[verifier::external_body]
fn hash_text(text: &str, hasher: &mut DefaultHasher)
    ensures
        final(hasher)@ == hashed(old(hasher)@, text@),
{
    text.hash(hasher);
}

/// The hash that sets the first place of a text.
pub open spec fn hash_of(text: Seq<char>) -> usize {
    DefaultHasher::spec_finish(hashed(Seq::empty(), text)) as usize
}

/// Places a text on the canvas by a hash of its characters. Gives `None`
/// where the places to try cannot be counted from the hash.
pub fn place_lyric(
    text: &str,
    logical_width: i32,
    logical_height: i32,
    previous: Option<MaskRect>,
) -> (r: Option<MaskRect>)
    requires
        previous matches Some(old) ==> old.wf(),
    ensures
        r is Some == hash_counts(
            clamped(logical_width as int, 1, MASK_MAX_WIDTH as int),
            clamped(logical_height as int, 1, MASK_MAX_HEIGHT as int),
            hash_of(text@),
            0,
            previous,
        ),
        previous is None ==> r is Some,
        r matches Some(rect) ==> rect == placed(
            logical_width as int,
            logical_height as int,
            hash_of(text@),
            previous,
        ) && rect.wf(),
{
    let mut hasher: DefaultHasher = DefaultHasher::new();
    hash_text(text, &mut hasher);
    let hash: usize = hasher.finish() as usize;
    try_place_text(logical_width, logical_height, hash, previous)
}

/// A text keeps clear of the previous one whenever one of the places does.
pub proof fn law_text_keeps_clear(
    width: int,
    height: int,
    hash: usize,
    previous: MaskRect,
    k: int,
    from: int,
)
    requires
        0 <= from <= k < PLACES,
        place_is_clear(width, height, hash, k, Some(previous)),
    ensures
        placed_from(width, height, hash, from, Some(previous)).mostly_clear_of(previous),
    decreases k - from,
{
    if !place_is_clear(width, height, hash, from, Some(previous)) {
        law_text_keeps_clear(width, height, hash, previous, k, from + 1);
    }
}

/// The number of characters that are not white space.
pub open spec fn visible_count(s: Seq<char>) -> nat {
    s.filter(|c: char| !text::white_space(c)).len()
}

/// The size of letters that the layout of a text starts with.
pub open spec fn first_font_size(s: Seq<char>) -> int {
    if visible_count(s) > 34 {
        62
    } else if visible_count(s) > 20 {
        74
    } else {
        84
    }
}

/// The size of letters that the layout of a text starts with.
pub fn initial_font_size(text: &str) -> (r: i32)
    ensures
        r == first_font_size(text@),
{
    let chars: Vec<char> = text::chars_of(text);
    let ghost visible = |c: char| !text::white_space(c);
    let mut count: usize = 0;
    let mut i: usize = 0;
    proof {
        reveal(Seq::filter);
        assert(text@.take(0).filter(visible).len() == 0);
    }
    while i < chars.len()
        invariant
            i <= chars@.len(),
            chars@ == text@,
            visible == (|c: char| !text::white_space(c)),
            count <= i,
            count == text@.take(i as int).filter(visible).len(),
        decreases chars@.len() - i,
    {
        proof {
            reveal(Seq::filter);
            assert(text@.take(i + 1).drop_last() == text@.take(i as int));
            assert(text@.take(i + 1).last() == text@[i as int]);
        }
        if !text::is_white_space(chars[i]) {
            count += 1;
        }
        i += 1;
    }
    assert(text@.take(text@.len() as int) == text@);
    if count > 34 {
        62
    } else if count > 20 {
        74
    } else {
        84
    }
}

/// The size of letters to try next, where there is one.
pub open spec fn smaller_font(font_size: i32, width: i32, height: i32) -> Option<i32> {
    if (width <= MASK_MAX_WIDTH && height <= TEXT_MAX_HEIGHT) || font_size <= FONT_MIN {
        None
    } else {
        Some((font_size - 2) as i32)
    }
}

/// Letters shrink by two exactly while the text is wider than 660 or higher
/// than 300 pixels and the letters are larger than 42.
pub proof fn law_letters_shrink_while_the_text_is_too_large(size: i32, width: i32, height: i32)
    ensures
        smaller_font(size, width, height) is Some <==> size > 42 && (width > 660 || height > 300),
        smaller_font(size, width, height) matches Some(next) ==> next + 2 == size,
{
}

/// The size of letters to try next, where a layout came out as large as this;
/// `None` where it fits or the letters are as small as they get.
pub fn next_font_size(font_size: i32, logical_width: i32, logical_height: i32) -> (r: Option<i32>)
    ensures
        r is None == ((logical_width <= MASK_MAX_WIDTH && logical_height <= TEXT_MAX_HEIGHT)
            || font_size <= FONT_MIN),
        r matches Some(size) ==> size == font_size - 2,
        r == smaller_font(font_size, logical_width, logical_height),
{
    if (logical_width <= MASK_MAX_WIDTH && logical_height <= TEXT_MAX_HEIGHT) || font_size
        <= FONT_MIN {
        None
    } else {
        Some(font_size - 2)
    }
}

/// The size of letters after `n` reductions.
pub open spec fn font_size_after(s: Seq<char>, n: int) -> int {
    first_font_size(s) - 2 * n
}

/// A size that asks for a reduction is even and above the smallest, so the
/// reductions reach the smallest and never go below it.
pub proof fn law_font_sizes_stop_at_the_smallest(s: Seq<char>, n: int)
    requires
        0 <= n,
        font_size_after(s, n) > FONT_MIN,
    ensures
        font_size_after(s, n + 1) >= FONT_MIN,
        font_size_after(s, n + 1) % 2 == 0,
        n < 21,
{
}

/// The coverage of each pixel by glyphs, row by row from the bottom: the
/// third of the four bytes of a pixel in image data whose rows run from the
/// top, `stride` bytes apart.
pub fn glyph_coverage(data: &[u8], stride: usize) -> (r: Vec<u8>)
    requires
        (SIM_HEIGHT - 1) * stride + (SIM_WIDTH - 1) * 4 + 2 < data@.len(),
    ensures
        r@.len() == SIM_PIXELS,
        forall|p: int|
            0 <= p < SIM_PIXELS ==> #[trigger] r@[p] == data@[(SIM_HEIGHT - 1 - p / (
            SIM_WIDTH as int)) * stride + p % (SIM_WIDTH as int) * 4 + 2],
{
    let length: usize = data.len();
    let mut out: Vec<u8> = Vec::new();
    let mut y: usize = 0;
    while y < 1024
        invariant
            y <= 1024,
            length == data@.len(),
            1023 * stride + 767 * 4 + 2 < length,
            out@.len() == y * 768,
            forall|p: int|
                0 <= p < out@.len() ==> #[trigger] out@[p] == data@[(1023 - p / 768) * stride + p
                    % 768 * 4 + 2],
        decreases 1024 - y,
    {
        assert((1023 - y) * stride <= 1023 * stride) by (nonlinear_arith)
            requires
                0 <= y <= 1023,
                0 <= stride,
        ;
        assert(0 <= (1023 - y) * stride) by (nonlinear_arith)
            requires
                0 <= y <= 1023,
                0 <= stride,
        ;
        let row: usize = (1023 - y) * stride;
        let mut x: usize = 0;
        while x < 768
            invariant
                x <= 768,
                y < 1024,
                row == (1023 - y) * stride,
                length == data@.len(),
                row + 767 * 4 + 2 < length,
                out@.len() == y * 768 + x,
                forall|p: int|
                    0 <= p < out@.len() ==> #[trigger] out@[p] == data@[(1023 - p / 768) * stride
                        + p % 768 * 4 + 2],
            decreases 768 - x,
        {
            assert((y * 768 + x) / 768 == y && (y * 768 + x) % 768 == x);
            out.push(data[row + x * 4 + 2]);
            x += 1;
        }
        y += 1;
    }
    out
}

/// A chemical mask of four bytes for each pixel. Only the first of them is
/// populated, with the coverage of the pixel by glyphs.
pub fn build_mask_field(coverage: &[u8], width: usize, height: usize) -> (r: Vec<u8>)
    requires
        width * height * 4 <= usize::MAX,
        coverage@.len() <= width * height,
    ensures
        r@.len() == width * height * 4,
        forall|i: int|
            0 <= i < r@.len() ==> #[trigger] r@[i] == if i % 4 == 0 && i / 4 < coverage@.len() {
                coverage@[i / 4]
            } else {
                0
            },
{
    assert(0 <= width * height) by (nonlinear_arith);
    let pixels: usize = width * height;
    let mut field: Vec<u8> = Vec::new();
    let mut i: usize = 0;
    while i < pixels
        invariant
            i <= pixels,
            pixels * 4 <= usize::MAX,
            coverage@.len() <= pixels,
            field@.len() == i * 4,
            forall|k: int|
                0 <= k < field@.len() ==> #[trigger] field@[k] == if k % 4 == 0 && k / 4
                    < coverage@.len() {
                    coverage@[k / 4]
                } else {
                    0
                },
        decreases pixels - i,
    {
        field.push(
            if i < coverage.len() {
                coverage[i]
            } else {
                0
            },
        );
        field.push(0);
        field.push(0);
        field.push(0);
        i += 1;
    }
    field
}

/// The mask of a text that is drawn into image data: its bytes and its place,
/// not yet timed.
pub fn text_mask(data: &[u8], stride: usize, bounds: MaskRect) -> (r: MaskUpdate)
    requires
        (SIM_HEIGHT - 1) * stride + (SIM_WIDTH - 1) * 4 + 2 < data@.len(),
    ensures
        is_text_mask(r.pixels@, data@, stride as int),
        r.bounds == bounds,
        r.cue_start_ms == 0,
        r.duration_ms == 0,
{
    let coverage: Vec<u8> = glyph_coverage(data, stride);
    let pixels: Vec<u8> = build_mask_field(coverage.as_slice(), 768, 1024);
    MaskUpdate { pixels, bounds, cue_start_ms: 0, duration_ms: 0 }
}

/// Whether `pixels` is the mask of image data whose rows are `stride` bytes
/// apart: the third byte of each pixel of the data is the first of that pixel
/// of the mask, upside down, and the other bytes of the mask are zero.
pub open spec fn is_text_mask(pixels: Seq<u8>, data: Seq<u8>, stride: int) -> bool {
    &&& pixels.len() == 4 * SIM_PIXELS
    &&& forall|i: int|
        0 <= i < pixels.len() ==> #[trigger] pixels[i] == if i % 4 == 0 {
            let p = i / 4;
            data[(SIM_HEIGHT - 1 - p / (SIM_WIDTH as int)) * stride + p % (SIM_WIDTH as int) * 4
                + 2]
        } else {
            0
        }
}

/// Two rectangles share pixels exactly where some pixel lies in both, and as
/// many one way as the other. They share all of the first exactly where it
/// lies inside the second, unless a negative side gives the first an area
/// that it has no pixels for.
pub proof fn law_shared_pixels(a: MaskRect, b: MaskRect)
    ensures
        (a.shared(b) > 0) == exists|px: int, py: int| a.holds(px, py) && b.holds(px, py),
        a.shared(b) == b.shared(a),
        (a.width >= 0 && a.height >= 0) || a.area() == 0 ==> (a.shared(b) == a.area())
            == a.lies_in(b),
{
    let w = a.shared_width(b);
    let h = a.shared_height(b);
    let px = larger(a.x as int, b.x as int);
    let py = larger(a.y as int, b.y as int);
    assert(w > 0 && h > 0 ==> w * h > 0) by (nonlinear_arith);
    if w > 0 && h > 0 {
        assert(a.holds(px, py) && b.holds(px, py));
    }
    if a.width > 0 && a.height > 0 {
        let width = a.width as int;
        let height = a.height as int;
        assert(width * height > 0) by (nonlinear_arith)
            requires
                width > 0,
                height > 0,
        ;
        if w > 0 && h > 0 {
            assert(w * h == width * height ==> w == width && h == height) by (nonlinear_arith)
                requires
                    0 < w <= width,
                    0 < h <= height,
            ;
        }
        if a.shared(b) == a.area() {
            assert(a.lies_in(b));
        }
        if a.lies_in(b) {
            assert(a.holds(a.x as int, a.y as int));
            assert(a.holds(a.x + width - 1, a.y + height - 1));
            assert(w == width && h == height);
        }
    } else {
        assert(a.width == 0 || a.height == 0 ==> a.area() == 0) by {
            assert(a.width == 0 || a.height == 0 ==> a.width as int * a.height as int == 0)
                by (nonlinear_arith);
        }
        assert(a.lies_in(b));
    }
}

/// The pixels of a rectangle.
pub open spec fn pixels_of(r: MaskRect) -> Set<(int, int)> {
    Set::new(
        |q: (int, int)|
            r.x <= q.0 && q.0 < r.x + r.width && r.y <= q.1 && q.1 < r.y + r.height,
    )
}

spec fn row_of_pixels(x: int, y: int, w: int) -> Set<(int, int)> {
    Set::new(|q: (int, int)| q.1 == y && x <= q.0 && q.0 < x + w)
}

spec fn block_of_pixels(x: int, y: int, w: int, h: int) -> Set<(int, int)> {
    Set::new(|q: (int, int)| x <= q.0 && q.0 < x + w && y <= q.1 && q.1 < y + h)
}

proof fn lemma_row_of_pixels(x: int, y: int, w: int)
    requires
        0 <= w,
    ensures
        row_of_pixels(x, y, w).finite(),
        row_of_pixels(x, y, w).len() == w,
    decreases w,
{
    if w == 0 {
        assert(row_of_pixels(x, y, w) =~= Set::empty());
    } else {
        lemma_row_of_pixels(x, y, w - 1);
        assert(row_of_pixels(x, y, w) =~= row_of_pixels(x, y, w - 1).insert((x + w - 1, y)));
    }
}

proof fn lemma_block_of_pixels(x: int, y: int, w: int, h: int)
    requires
        0 <= w,
        0 <= h,
    ensures
        block_of_pixels(x, y, w, h).finite(),
        block_of_pixels(x, y, w, h).len() == w * h,
    decreases h,
{
    if h == 0 {
        assert(block_of_pixels(x, y, w, h) =~= Set::empty());
    } else {
        let above = block_of_pixels(x, y, w, h - 1);
        let row = row_of_pixels(x, y + h - 1, w);
        lemma_block_of_pixels(x, y, w, h - 1);
        lemma_row_of_pixels(x, y + h - 1, w);
        assert(block_of_pixels(x, y, w, h) =~= above + row);
        assert(above.disjoint(row));
        vstd::set_lib::lemma_set_disjoint_lens(above, row);
        assert(w * (h - 1) + w == w * h) by (nonlinear_arith);
    }
}

/// The area of a rectangle is the number of its pixels, and what two
/// rectangles share is the number of pixels in both.
pub proof fn law_shared_counts_pixels(a: MaskRect, b: MaskRect)
    ensures
        pixels_of(a).finite(),
        a.width >= 0 && a.height >= 0 ==> a.area() == pixels_of(a).len(),
        pixels_of(a).intersect(pixels_of(b)).finite(),
        a.shared(b) == pixels_of(a).intersect(pixels_of(b)).len(),
{
    if a.width >= 0 && a.height >= 0 {
        lemma_block_of_pixels(a.x as int, a.y as int, a.width as int, a.height as int);
        assert(pixels_of(a) =~= block_of_pixels(
            a.x as int,
            a.y as int,
            a.width as int,
            a.height as int,
        ));
    } else {
        assert(pixels_of(a) =~= Set::empty());
    }
    let both = pixels_of(a).intersect(pixels_of(b));
    let w = a.shared_width(b);
    let h = a.shared_height(b);
    let x = larger(a.x as int, b.x as int);
    let y = larger(a.y as int, b.y as int);
    if w > 0 && h > 0 {
        lemma_block_of_pixels(x, y, w, h);
        assert(both =~= block_of_pixels(x, y, w, h));
    } else {
        assert(both =~= Set::empty());
    }
}

/// Whether less than 0.32 of the pixels of a rectangle are pixels of another.
pub open spec fn few_shared_pixels(a: MaskRect, b: MaskRect) -> bool {
    25 * pixels_of(a).intersect(pixels_of(b)).len() < 8 * pixels_of(a).len()
}

/// A rectangle is mostly clear of another exactly where less than 0.32 of its
/// pixels are pixels of the other, whatever its size.
pub proof fn law_clear_means_few_shared_pixels(a: MaskRect, b: MaskRect)
    requires
        a.width >= 0,
        a.height >= 0,
    ensures
        a.mostly_clear_of(b) <==> 25 * pixels_of(a).intersect(pixels_of(b)).len() < 8 * pixels_of(
            a,
        ).len(),
{
    law_shared_counts_pixels(a, b);
}

/// The size of a text on the canvas: that of its layout, but from one pixel to
/// 660 by 784.
pub open spec fn fitted(logical: int, most: int) -> int {
    if logical < 1 {
        1
    } else if logical > most {
        most
    } else {
        logical
    }
}

/// A text takes the first of its five places, counted from that of the hash
/// on, at which it shares less than 0.32 of its pixels with the previous text;
/// a place is passed over only where it shares more. Where all are passed
/// over, and without a previous text, it takes the place of the hash.
pub proof fn law_text_takes_the_first_clear_place(
    logical_width: int,
    logical_height: int,
    hash: usize,
    previous: MaskRect,
)
    ensures
        ({
            let w = fitted(logical_width, 660);
            let h = fitted(logical_height, 784);
            let taken = placed(logical_width, logical_height, hash, Some(previous));
            let at = |k: int| place(w, h, (hash + k) % 5);
            &&& placed(logical_width, logical_height, hash, None) == at(0)
            &&& few_shared_pixels(at(0), previous) ==> taken == at(0)
            &&& !few_shared_pixels(at(0), previous) && few_shared_pixels(at(1), previous)
                ==> taken == at(1)
            &&& !few_shared_pixels(at(0), previous) && !few_shared_pixels(at(1), previous)
                && few_shared_pixels(at(2), previous) ==> taken == at(2)
            &&& !few_shared_pixels(at(0), previous) && !few_shared_pixels(at(1), previous)
                && !few_shared_pixels(at(2), previous) && few_shared_pixels(at(3), previous)
                ==> taken == at(3)
            &&& !few_shared_pixels(at(0), previous) && !few_shared_pixels(at(1), previous)
                && !few_shared_pixels(at(2), previous) && !few_shared_pixels(at(3), previous)
                && few_shared_pixels(at(4), previous) ==> taken == at(4)
            &&& !few_shared_pixels(at(0), previous) && !few_shared_pixels(at(1), previous)
                && !few_shared_pixels(at(2), previous) && !few_shared_pixels(at(3), previous)
                && !few_shared_pixels(at(4), previous) ==> taken == at(0)
        }),
{
    let w = fitted(logical_width, 660);
    let h = fitted(logical_height, 784);
    reveal_with_fuel(placed_from, 6);
    assert forall|k: int| 0 <= k < 5 implies place_is_clear(w, h, hash, k, Some(previous))
        == few_shared_pixels(#[trigger] place(w, h, (hash + k) % 5), previous) by {
        let spot = place(w, h, (hash + k) % 5);
        law_places_are_on_the_canvas(w, h, (hash + k) % 5);
        law_clear_means_few_shared_pixels(spot, previous);
    }
    assert(place_is_clear(w, h, hash, 0, Some(previous)) == few_shared_pixels(
        place(w, h, (hash + 0) % 5),
        previous,
    ));
    assert(place_is_clear(w, h, hash, 1, Some(previous)) == few_shared_pixels(
        place(w, h, (hash + 1) % 5),
        previous,
    ));
    assert(place_is_clear(w, h, hash, 2, Some(previous)) == few_shared_pixels(
        place(w, h, (hash + 2) % 5),
        previous,
    ));
    assert(place_is_clear(w, h, hash, 3, Some(previous)) == few_shared_pixels(
        place(w, h, (hash + 3) % 5),
        previous,
    ));
    assert(place_is_clear(w, h, hash, 4, Some(previous)) == few_shared_pixels(
        place(w, h, (hash + 4) % 5),
        previous,
    ));
    assert(hash as int % 5 == (hash + 0) % 5);
    assert(clamped(logical_width, 1, MASK_MAX_WIDTH as int) == w);
    assert(clamped(logical_height, 1, MASK_MAX_HEIGHT as int) == h);
}

/// Where the five places of a text are: in the middle; 54 pixels from the left
/// or the right edge; and from the top 132 pixels, 228 pixels, or as many from
/// the bottom, as far as the room allows.
pub proof fn law_where_the_places_are(w: int, h: int)
    requires
        1 <= w <= 660,
        1 <= h <= 784,
    ensures
        ({
            let middle = place(w, h, 0);
            &&& 2 * middle.x + w == 768 || 2 * middle.x + w == 767
            &&& 2 * middle.y + h == 1024 || 2 * middle.y + h == 1023
        }),
        place(w, h, 1).x == 54,
        h <= 760 ==> place(w, h, 1).y == 132,
        h >= 760 ==> place(w, h, 1).y + h == 892,
        place(w, h, 2).x + w == 714,
        h <= 760 ==> place(w, h, 2).y + h == 892,
        h >= 760 ==> place(w, h, 2).y == 132,
        place(w, h, 3).x + w == 714,
        h <= 664 ==> place(w, h, 3).y == 228,
        h >= 664 ==> place(w, h, 3).y + h == 892,
        place(w, h, 4).x == 54,
        h <= 742 ==> place(w, h, 4).y + h == 796,
        h >= 742 ==> place(w, h, 4).y == 54,
        forall|k: int|
            0 <= k < 5 ==> (#[trigger] place(w, h, k)).width == w && place(w, h, k).height == h,
{
}

/// The places can be counted from a hash exactly where none that is tried lies
/// beyond the largest number: a place that keeps clear ends the trial.
pub proof fn law_places_are_counted_from_the_hash(
    w: int,
    h: int,
    hash: usize,
    previous: Option<MaskRect>,
)
    requires
        1 <= w <= 660,
        1 <= h <= 784,
    ensures
        previous is None ==> hash_counts(w, h, hash, 0, previous),
        hash + 4 <= usize::MAX ==> hash_counts(w, h, hash, 0, previous),
        hash + 4 > usize::MAX && previous is Some ==> (hash_counts(w, h, hash, 0, previous)
            <==> exists|k: int|
            0 <= k < 4 && hash + k <= usize::MAX && few_shared_pixels(
                #[trigger] place(w, h, (hash + k) % 5),
                previous->0,
            )),
{
    reveal_with_fuel(hash_counts, 6);
    if let Some(old) = previous {
        assert forall|k: int| 0 <= k < 5 implies place_is_clear(w, h, hash, k, previous)
            == few_shared_pixels(#[trigger] place(w, h, (hash + k) % 5), old) by {
            law_places_are_on_the_canvas(w, h, (hash + k) % 5);
            law_clear_means_few_shared_pixels(place(w, h, (hash + k) % 5), old);
        }
        assert(place_is_clear(w, h, hash, 0, previous) == few_shared_pixels(
            place(w, h, (hash + 0) % 5),
            old,
        ));
        assert(place_is_clear(w, h, hash, 1, previous) == few_shared_pixels(
            place(w, h, (hash + 1) % 5),
            old,
        ));
        assert(place_is_clear(w, h, hash, 2, previous) == few_shared_pixels(
            place(w, h, (hash + 2) % 5),
            old,
        ));
        assert(place_is_clear(w, h, hash, 3, previous) == few_shared_pixels(
            place(w, h, (hash + 3) % 5),
            old,
        ));
    }
}

/// Of a text the characters that are not white space count, each once.
pub proof fn law_visible_characters_count(a: Seq<char>, b: Seq<char>, c: char)
    ensures
        visible_count(Seq::empty()) == 0,
        visible_count(seq![c]) == if text::white_space(c) {
            0nat
        } else {
            1nat
        },
        visible_count(a + b) == visible_count(a) + visible_count(b),
{
    let visible = |c: char| !text::white_space(c);
    Seq::filter_distributes_over_add(a, b, visible);
    reveal_with_fuel(Seq::filter, 2);
    assert(seq![c].drop_last() == Seq::<char>::empty());
}

/// Text of up to 20 visible characters starts in letters of size 84, of up to
/// 34 in 74, and longer text in 62.
pub proof fn law_longer_text_starts_smaller(s: Seq<char>)
    ensures
        visible_count(s) <= 20 ==> first_font_size(s) == 84,
        20 < visible_count(s) <= 34 ==> first_font_size(s) == 74,
        34 < visible_count(s) ==> first_font_size(s) == 62,
{
}

/// The first byte of a pixel of a mask is the third byte of the pixel in the
/// same column of the image, as far from the bottom as that is from the top;
/// the other bytes are zero.
pub proof fn law_masks_are_images_upside_down(
    pixels: Seq<u8>,
    data: Seq<u8>,
    stride: int,
    x: int,
    y: int,
)
    requires
        is_text_mask(pixels, data, stride),
        0 <= x < 768,
        0 <= y < 1024,
    ensures
        pixels.len() == 768 * 1024 * 4,
        pixels[4 * (768 * y + x)] == data[(1023 - y) * stride + 4 * x + 2],
        pixels[4 * (768 * y + x) + 1] == 0,
        pixels[4 * (768 * y + x) + 2] == 0,
        pixels[4 * (768 * y + x) + 3] == 0,
{
    let p = 768 * y + x;
    assert(p / 768 == y && p % 768 == x);
    assert((4 * p) / 4 == p && (4 * p) % 4 == 0);
    assert((4 * p + 1) % 4 == 1 && (4 * p + 2) % 4 == 2 && (4 * p + 3) % 4 == 3);
}

} // verus!
