//! The state that the reaction-diffusion simulation starts from: two
//! chemicals on a grid, with disturbances that a seed scatters.

use vstd::prelude::*;

verus! {

/// The width of the simulation, in pixels.
pub const SIM_WIDTH: i32 = 768;

/// The height of the simulation, in pixels.
pub const SIM_HEIGHT: i32 = 1024;

/// The number of pixels of the simulation.
pub const SIM_PIXELS: usize = 786_432;

/// The side of the cells that hold at most one disturbance each.
pub const CELL: i32 = 12;

/// The number of cells in a row.
pub const CELLS_X: i32 = 64;

/// The number of rows of cells. The last row is cut by the edge.
pub const CELLS_Y: i32 = 86;

/// Of the 2^24 values of a draw, those from here on disturb their cell: this
/// is the first that is not below 0.965 of the largest.
pub const DISTURB_FROM: u64 = 16_190_012;

/// From this draw on the radius 2.6 + 0.8 * draw / (2^24 - 1) reaches pixels
/// whose centre is at a squared distance of 8.5. No draw reaches the next
/// farther ones, at 12.5, and every draw reaches the next nearer ones, at 6.5.
pub const LARGE_FROM: u64 = 6_616_013;

/// The state of the generator after one more draw.
pub open spec fn advanced(state: u64) -> u64 {
    state.wrapping_add(0x9E37_79B9_7F4A_7C15)
}

/// The number that the generator gives in a state.
pub open spec fn mixed(state: u64) -> u64 {
    let a = (state ^ (state >> 30)).wrapping_mul(0xBF58_476D_1CE4_E5B9);
    let b = (a ^ (a >> 27)).wrapping_mul(0x94D0_49BB_1331_11EB);
    b ^ (b >> 31)
}

/// A draw of 24 bits from the generator in a state.
pub open spec fn drawn(state: u64) -> u64 {
    mixed(advanced(state)) >> 40
}

/// Draws the next number of a SplitMix64 generator.
pub fn splitmix64(state: &mut u64) -> (r: u64)
    ensures
        *final(state) == advanced(*old(state)),
        r == mixed(*final(state)),
{
    *state = state.wrapping_add(0x9E37_79B9_7F4A_7C15);
    let mut value: u64 = *state;
    value = (value ^ (value >> 30)).wrapping_mul(0xBF58_476D_1CE4_E5B9);
    value = (value ^ (value >> 27)).wrapping_mul(0x94D0_49BB_1331_11EB);
    value ^ (value >> 31)
}

/// Draws 24 random bits. Divided by 2^24 - 1 they are a number from zero to
/// one.
pub fn random_bits(state: &mut u64) -> (r: u64)
    ensures
        *final(state) == advanced(*old(state)),
        r == drawn(*old(state)),
        r < 0x100_0000,
{
    let value: u64 = splitmix64(state);
    assert(value >> 40 < 0x100_0000) by (bit_vector);
    value >> 40
}

/// Four times the squared radius of the disturbance that a draw makes, cut to
/// what pixel centres can tell apart.
pub open spec fn reach_of(draw: u64) -> int {
    if draw < LARGE_FROM {
        26
    } else {
        34
    }
}

/// The reach of the disturbance of the cell that the generator comes to in a
/// state; zero for a cell that is left alone.
pub open spec fn cell_reach(state: u64) -> int {
    if drawn(state) < DISTURB_FROM {
        0
    } else {
        reach_of(drawn(advanced(state)))
    }
}

/// The state of the generator behind a cell: a disturbed one takes two draws.
pub open spec fn after_cell(state: u64) -> u64 {
    if drawn(state) < DISTURB_FROM {
        advanced(state)
    } else {
        advanced(advanced(state))
    }
}

/// The state of the generator before the cell of number `n`, row by row.
pub open spec fn cell_state(start: u64, n: int) -> u64
    decreases n,
{
    if n <= 0 {
        start
    } else {
        after_cell(cell_state(start, n - 1))
    }
}

/// The state that the generator starts from.
pub open spec fn start_state(pattern_seed: u64) -> u64 {
    pattern_seed ^ 0x6A09_E667_F3BC_C909
}

/// The column of the centre of a cell.
pub open spec fn cell_x(n: int) -> int {
    n % (CELLS_X as int) * CELL + 6
}

/// The row of the centre of a cell, which the edge cuts.
pub open spec fn cell_y(n: int) -> int {
    let y = n / (CELLS_X as int) * CELL + 6;
    if y < SIM_HEIGHT {
        y
    } else {
        SIM_HEIGHT - 1
    }
}

/// Whether the centre of the pixel of number `p` lies within the reach of a
/// disturbance. Distances are doubled, so that pixel centres are integers.
pub open spec fn covers(x: int, y: int, reach: int, p: int) -> bool {
    let dx = 2 * (p % (SIM_WIDTH as int) - x) + 1;
    let dy = 2 * (p / (SIM_WIDTH as int) - y) + 1;
    dx * dx + dy * dy <= reach
}

/// Whether the cell of number `n` disturbs the pixel of number `p`.
pub open spec fn cell_disturbs(pattern_seed: u64, n: int, p: int) -> bool {
    covers(cell_x(n), cell_y(n), cell_reach(cell_state(start_state(pattern_seed), n)), p)
}

/// Whether one of the first `n` cells disturbs the pixel of number `p`.
pub open spec fn disturbed_by(pattern_seed: u64, n: int, p: int) -> bool {
    exists|k: int| 0 <= k < n && #[trigger] cell_disturbs(pattern_seed, k, p)
}

/// Whether the pixel of number `p` is disturbed.
pub open spec fn disturbed(pattern_seed: u64, p: int) -> bool {
    disturbed_by(pattern_seed, CELLS_X * CELLS_Y, p)
}

/// The two chemicals of a pixel, in hundredths.
pub open spec fn chemistry(is_disturbed: bool) -> (u8, u8) {
    if is_disturbed {
        (45, 95)
    } else {
        (100, 0)
    }
}

/// The two chemicals of the pixel of number `p` in a state of the simulation.
pub open spec fn pixel(state: Seq<u8>, p: int) -> (u8, u8) {
    (state[2 * p], state[2 * p + 1])
}

proof fn lemma_far_pixels_are_not_covered(x: int, y: int, reach: int, p: int)
    requires
        reach <= 34,
    ensures
        covers(x, y, reach, p) ==> x - 3 <= p % (SIM_WIDTH as int) <= x + 2,
        covers(x, y, reach, p) ==> y - 3 <= p / (SIM_WIDTH as int) <= y + 2,
{
    let dx = 2 * (p % (SIM_WIDTH as int) - x) + 1;
    let dy = 2 * (p / (SIM_WIDTH as int) - y) + 1;
    assert(dx * dx + dy * dy <= 34 ==> -7 < dx < 7 && -7 < dy < 7) by (nonlinear_arith);
}

/// Marks the pixels within the reach of one disturbance.
fn mark_disk(marks: &mut Vec<bool>, x: i32, y: i32, reach: i32)
    requires
        old(marks)@.len() == SIM_PIXELS,
        0 <= x < SIM_WIDTH,
        0 <= y < SIM_HEIGHT,
        0 <= reach <= 34,
    ensures
        final(marks)@.len() == SIM_PIXELS,
        forall|p: int|
            0 <= p < SIM_PIXELS ==> #[trigger] final(marks)@[p] == (old(marks)@[p] || covers(
                x as int,
                y as int,
                reach as int,
                p,
            )),
{
    let ghost before = marks@;
    let x_from: i32 = if x < 3 {
        0
    } else {
        x - 3
    };
    let x_to: i32 = if x + 3 < SIM_WIDTH {
        x + 3
    } else {
        SIM_WIDTH
    };
    let y_to: i32 = if y + 3 < SIM_HEIGHT {
        y + 3
    } else {
        SIM_HEIGHT
    };
    let mut py: i32 = if y < 3 {
        0
    } else {
        y - 3
    };
    proof {
        assert forall|p: int| 0 <= p < SIM_PIXELS && p / 768 < py implies !covers(
            x as int,
            y as int,
            reach as int,
            p,
        ) by {
            lemma_far_pixels_are_not_covered(x as int, y as int, reach as int, p);
        }
    }
    while py < y_to
        invariant
            marks@.len() == SIM_PIXELS,
            before.len() == SIM_PIXELS,
            0 <= x < SIM_WIDTH,
            0 <= y < SIM_HEIGHT,
            0 <= reach <= 34,
            0 <= py <= y_to <= SIM_HEIGHT,
            y - 3 <= py,
            y_to <= y + 3,
            x_to <= x + 3,
            x_from == x - 3 || (x_from == 0 && x < 3),
            x_to == x + 3 || x_to == SIM_WIDTH,
            0 <= x_from <= x_to <= SIM_WIDTH,
            forall|p: int|
                0 <= p < SIM_PIXELS ==> #[trigger] marks@[p] == (before[p] || (p / 768 < py
                    && covers(x as int, y as int, reach as int, p))),
        decreases y_to - py,
    {
        let mut px: i32 = x_from;
        proof {
            assert forall|p: int|
                0 <= p < SIM_PIXELS && p / 768 == py && p % 768 < px implies !covers(
                x as int,
                y as int,
                reach as int,
                p,
            ) by {
                lemma_far_pixels_are_not_covered(x as int, y as int, reach as int, p);
            }
        }
        while px < x_to
            invariant
                marks@.len() == SIM_PIXELS,
                before.len() == SIM_PIXELS,
                0 <= x < SIM_WIDTH,
                0 <= y < SIM_HEIGHT,
                0 <= reach <= 34,
                0 <= py < y_to <= SIM_HEIGHT,
                y - 3 <= py,
                y_to <= y + 3,
                x_to <= x + 3,
                x_from == x - 3 || (x_from == 0 && x < 3),
                x_from <= px <= x_to,
                0 <= x_from <= x_to <= SIM_WIDTH,
                forall|p: int|
                    0 <= p < SIM_PIXELS ==> #[trigger] marks@[p] == (before[p] || ((p / 768 < py
                        || (p / 768 == py && p % 768 < px)) && covers(
                        x as int,
                        y as int,
                        reach as int,
                        p,
                    ))),
            decreases x_to - px,
        {
            let dx: i32 = 2 * (px - x) + 1;
            let dy: i32 = 2 * (py - y) + 1;
            let index: usize = (py * SIM_WIDTH + px) as usize;
            assert(index as int / 768 == py && index as int % 768 == px);
            assert(0 <= dx * dx <= 49 && 0 <= dy * dy <= 49) by (nonlinear_arith)
                requires
                    -7 <= dx <= 7,
                    -7 <= dy <= 7,
            ;
            if dx * dx + dy * dy <= reach {
                marks.set(index, true);
            }
            px += 1;
        }
        proof {
            assert forall|p: int|
                0 <= p < SIM_PIXELS && p / 768 == py && p % 768 >= px implies !covers(
                x as int,
                y as int,
                reach as int,
                p,
            ) by {
                lemma_far_pixels_are_not_covered(x as int, y as int, reach as int, p);
            }
        }
        py += 1;
    }
    proof {
        assert forall|p: int| 0 <= p < SIM_PIXELS && p / 768 >= py implies !covers(
            x as int,
            y as int,
            reach as int,
            p,
        ) by {
            lemma_far_pixels_are_not_covered(x as int, y as int, reach as int, p);
        }
    }
}

/// The state that a seed gives the simulation: for each pixel, row by row,
/// the two chemicals in hundredths. The same seed gives the same state.
pub fn make_seed(pattern_seed: u64) -> (r: Vec<u8>)
    ensures
        is_seed_state(r@, pattern_seed),
{
    let mut marks: Vec<bool> = Vec::new();
    while marks.len() < SIM_PIXELS
        invariant
            marks@.len() <= SIM_PIXELS,
            forall|p: int| 0 <= p < marks@.len() ==> !(#[trigger] marks@[p]),
        decreases SIM_PIXELS - marks@.len(),
    {
        marks.push(false);
    }
    let mut random: u64 = pattern_seed ^ 0x6A09_E667_F3BC_C909;
    let mut row: i32 = 0;
    while row < CELLS_Y
        invariant
            0 <= row <= CELLS_Y,
            marks@.len() == SIM_PIXELS,
            random == cell_state(start_state(pattern_seed), row * CELLS_X),
            forall|p: int|
                0 <= p < SIM_PIXELS ==> #[trigger] marks@[p] == disturbed_by(
                    pattern_seed,
                    row * CELLS_X,
                    p,
                ),
        decreases CELLS_Y - row,
    {
        let mut column: i32 = 0;
        while column < CELLS_X
            invariant
                0 <= row < CELLS_Y,
                0 <= column <= CELLS_X,
                marks@.len() == SIM_PIXELS,
                random == cell_state(start_state(pattern_seed), row * CELLS_X + column),
                forall|p: int|
                    0 <= p < SIM_PIXELS ==> #[trigger] marks@[p] == disturbed_by(
                        pattern_seed,
                        row * CELLS_X + column,
                        p,
                    ),
            decreases CELLS_X - column,
        {
            let ghost n: int = row * CELLS_X + column;
            let ghost before = marks@;
            assert(n / (CELLS_X as int) == row && n % (CELLS_X as int) == column);
            let mut reach: i32 = 0;
            if random_bits(&mut random) >= DISTURB_FROM {
                let draw: u64 = random_bits(&mut random);
                reach = if draw < LARGE_FROM {
                    26
                } else {
                    34
                };
                let x: i32 = column * CELL + CELL / 2;
                let y: i32 = row * CELL + CELL / 2;
                mark_disk(
                    &mut marks,
                    x,
                    if y < SIM_HEIGHT {
                        y
                    } else {
                        SIM_HEIGHT - 1
                    },
                    reach,
                );
            }
            proof {
                assert forall|p: int| 0 <= p < SIM_PIXELS implies #[trigger] marks@[p]
                    == disturbed_by(pattern_seed, n + 1, p) by {
                    lemma_one_more_cell(pattern_seed, n, p);
                    if reach == 0 {
                        lemma_nothing_is_covered(cell_x(n), cell_y(n), p);
                    }
                }
            }
            column += 1;
        }
        row += 1;
    }
    let mut out: Vec<u8> = Vec::new();
    let mut i: usize = 0;
    while i < SIM_PIXELS
        invariant
            i <= SIM_PIXELS,
            marks@.len() == SIM_PIXELS,
            forall|p: int|
                0 <= p < SIM_PIXELS ==> #[trigger] marks@[p] == disturbed(pattern_seed, p),
            out@.len() == 2 * i,
            forall|p: int|
                0 <= p < i ==> #[trigger] pixel(out@, p) == chemistry(disturbed(pattern_seed, p)),
        decreases SIM_PIXELS - i,
    {
        let ghost before = out@;
        if marks[i] {
            out.push(45);
            out.push(95);
        } else {
            out.push(100);
            out.push(0);
        }
        proof {
            assert forall|p: int| 0 <= p < i + 1 implies #[trigger] pixel(out@, p) == chemistry(
                disturbed(pattern_seed, p),
            ) by {
                if p < i {
                    assert(pixel(out@, p) == pixel(before, p));
                }
            }
        }
        i += 1;
    }
    out
}

proof fn lemma_one_more_cell(pattern_seed: u64, n: int, p: int)
    requires
        0 <= n,
    ensures
        disturbed_by(pattern_seed, n + 1, p) == (disturbed_by(pattern_seed, n, p) || cell_disturbs(
            pattern_seed,
            n,
            p,
        )),
{
    if cell_disturbs(pattern_seed, n, p) {
    } else if disturbed_by(pattern_seed, n, p) {
        let k = choose|k: int| 0 <= k < n && #[trigger] cell_disturbs(pattern_seed, k, p);
        assert(cell_disturbs(pattern_seed, k, p));
    }
}

proof fn lemma_nothing_is_covered(x: int, y: int, p: int)
    ensures
        !covers(x, y, 0, p),
{
    let dx = 2 * (p % (SIM_WIDTH as int) - x) + 1;
    let dy = 2 * (p / (SIM_WIDTH as int) - y) + 1;
    assert(dx % 2 == 1);
    assert(dx != 0 ==> dx * dx > 0) by (nonlinear_arith);
    assert(dy * dy >= 0) by (nonlinear_arith);
}

/// A disturbance stays in its own cell: a cell disturbs only pixels that lie
/// in it.
pub proof fn law_disturbances_stay_in_their_cells(pattern_seed: u64, n: int, p: int)
    requires
        0 <= n < CELLS_X * CELLS_Y,
        0 <= p < SIM_PIXELS,
        cell_disturbs(pattern_seed, n, p),
    ensures
        p % (SIM_WIDTH as int) / (CELL as int) == n % (CELLS_X as int),
        p / (SIM_WIDTH as int) / (CELL as int) == n / (CELLS_X as int),
{
    let reach = cell_reach(cell_state(start_state(pattern_seed), n));
    lemma_far_pixels_are_not_covered(cell_x(n), cell_y(n), reach, p);
}

/// A cell that is drawn to be disturbed disturbs the pixel at its centre; one
/// that is not disturbs none.
pub proof fn law_drawn_cells_are_disturbed(pattern_seed: u64, n: int)
    requires
        0 <= n < CELLS_X * CELLS_Y,
    ensures
        drawn(cell_state(start_state(pattern_seed), n)) >= DISTURB_FROM ==> cell_disturbs(
            pattern_seed,
            n,
            cell_y(n) * SIM_WIDTH + cell_x(n),
        ),
        drawn(cell_state(start_state(pattern_seed), n)) < DISTURB_FROM ==> forall|p: int|
            !#[trigger] cell_disturbs(pattern_seed, n, p),
{
    let p = cell_y(n) * SIM_WIDTH + cell_x(n);
    assert(p % (SIM_WIDTH as int) == cell_x(n) && p / (SIM_WIDTH as int) == cell_y(n));
    if drawn(cell_state(start_state(pattern_seed), n)) < DISTURB_FROM {
        assert forall|p: int| !#[trigger] cell_disturbs(pattern_seed, n, p) by {
            lemma_nothing_is_covered(cell_x(n), cell_y(n), p);
        }
    }
}

/// Whether the pixel of number `p` lies in the cell of number `n`.
pub open spec fn in_cell(n: int, p: int) -> bool {
    &&& 0 <= p < SIM_PIXELS
    &&& p % (SIM_WIDTH as int) / (CELL as int) == n % (CELLS_X as int)
    &&& p / (SIM_WIDTH as int) / (CELL as int) == n / (CELLS_X as int)
}

/// The disturbed pixels of a cell.
pub open spec fn dot(pattern_seed: u64, n: int) -> Set<int> {
    Set::new(|p: int| in_cell(n, p) && disturbed(pattern_seed, p))
}

/// Whether the edge leaves a cell whole.
pub open spec fn whole_cell(n: int) -> bool {
    (n / (CELLS_X as int) + 1) * CELL <= SIM_HEIGHT
}

/// The disturbed pixels of a cell are those that the cell itself disturbs.
proof fn lemma_cells_disturb_their_own(pattern_seed: u64, n: int, p: int)
    requires
        0 <= n < CELLS_X * CELLS_Y,
    ensures
        dot(pattern_seed, n).contains(p) == (0 <= p < SIM_PIXELS && cell_disturbs(
            pattern_seed,
            n,
            p,
        )),
{
    if 0 <= p < SIM_PIXELS && cell_disturbs(pattern_seed, n, p) {
        law_disturbances_stay_in_their_cells(pattern_seed, n, p);
        assert(disturbed(pattern_seed, p));
    }
    if dot(pattern_seed, n).contains(p) {
        let k = choose|k: int|
            0 <= k < CELLS_X * CELLS_Y && #[trigger] cell_disturbs(pattern_seed, k, p);
        law_disturbances_stay_in_their_cells(pattern_seed, k, p);
        assert(k == n);
    }
}

/// The half width of a disk in the row that lies `row` rows below its centre.
spec fn half_width(reach: int, row: int) -> int {
    if reach == 26 {
        if row == -3 || row == 2 {
            1
        } else if row == -2 || row == 1 {
            2
        } else {
            3
        }
    } else {
        if row == -3 || row == 2 {
            2
        } else {
            3
        }
    }
}

/// The pixels of a row of a disk.
spec fn disk_row(x: int, y: int, reach: int, row: int) -> Set<int> {
    let middle = (y + row) * SIM_WIDTH + x;
    vstd::set_lib::set_int_range(
        middle - half_width(reach, row),
        middle + half_width(reach, row),
    )
}

/// The pixels of the rows of a disk from its top to the row in front of `row`.
spec fn disk_rows(x: int, y: int, reach: int, row: int) -> Set<int>
    decreases row + 3,
{
    if row <= -3 {
        Set::empty()
    } else {
        disk_rows(x, y, reach, row - 1) + disk_row(x, y, reach, row - 1)
    }
}

/// The number of pixels of those rows.
spec fn disk_count(reach: int, row: int) -> int
    decreases row + 3,
{
    if row <= -3 {
        0
    } else {
        disk_count(reach, row - 1) + 2 * half_width(reach, row - 1)
    }
}

proof fn lemma_disk_rows(x: int, y: int, reach: int, row: int)
    requires
        3 <= x <= SIM_WIDTH - 3,
        3 <= y,
        reach == 26 || reach == 34,
        -3 <= row <= 3,
    ensures
        disk_rows(x, y, reach, row).finite(),
        disk_rows(x, y, reach, row).len() == disk_count(reach, row),
        forall|p: int| #[trigger]
            disk_rows(x, y, reach, row).contains(p) == (p / (SIM_WIDTH as int) < y + row && covers(
                x,
                y,
                reach,
                p,
            )),
    decreases row + 3,
{
    if row == -3 {
        assert forall|p: int|
            !(p / (SIM_WIDTH as int) < y - 3 && #[trigger] covers(x, y, reach, p)) by {
            lemma_far_pixels_are_not_covered(x, y, reach, p);
        }
    } else {
        let last = row - 1;
        let before = disk_rows(x, y, reach, last);
        let here = disk_row(x, y, reach, last);
        let half = half_width(reach, last);
        let middle = (y + last) * SIM_WIDTH + x;
        lemma_disk_rows(x, y, reach, last);
        vstd::set_lib::lemma_int_range(middle - half, middle + half);
        assert forall|p: int| #[trigger]
            here.contains(p) == (p / (SIM_WIDTH as int) == y + last && covers(x, y, reach, p)) by {
            lemma_row_of_disk(x, y, reach, last, p);
        }
        assert(before.disjoint(here));
        vstd::set_lib::lemma_set_disjoint_lens(before, here);
    }
}

proof fn lemma_row_of_disk(x: int, y: int, reach: int, row: int, p: int)
    requires
        3 <= x <= SIM_WIDTH - 3,
        3 <= y,
        reach == 26 || reach == 34,
        -3 <= row < 3,
    ensures
        disk_row(x, y, reach, row).contains(p) == (p / (SIM_WIDTH as int) == y + row && covers(
            x,
            y,
            reach,
            p,
        )),
{
    let column = p % (SIM_WIDTH as int);
    let half = half_width(reach, row);
    let middle = (y + row) * SIM_WIDTH + x;
    let dx = 2 * (column - x) + 1;
    let dy = 2 * row + 1;
    assert(disk_row(x, y, reach, row).contains(p) == (middle - half <= p < middle + half));
    if middle - half <= p < middle + half {
        assert(p / (SIM_WIDTH as int) == y + row);
    }
    if p / (SIM_WIDTH as int) == y + row {
        assert(p == (y + row) * SIM_WIDTH + column);
        lemma_small_squares(dx);
        lemma_small_squares(dy);
        lemma_far_pixels_are_not_covered(x, y, reach, p);
        assert(dx % 2 == 1);
        if -2 * half <= dx <= 2 * half {
            assert(dx == -5 || dx == -3 || dx == -1 || dx == 1 || dx == 3 || dx == 5);
        }
        if dx * dx + dy * dy <= reach {
            assert(dx == -5 || dx == -3 || dx == -1 || dx == 1 || dx == 3 || dx == 5);
        }
    }
}

proof fn lemma_small_squares(d: int)
    ensures
        d == 1 || d == -1 ==> d * d == 1,
        d == 3 || d == -3 ==> d * d == 9,
        d == 5 || d == -5 ==> d * d == 25,
{
    assert(d == 1 || d == -1 ==> d * d == 1) by (nonlinear_arith);
    assert(d == 3 || d == -3 ==> d * d == 9) by (nonlinear_arith);
    assert(d == 5 || d == -5 ==> d * d == 25) by (nonlinear_arith);
}

/// A cell holds one dot of 24 or 32 pixels around its centre, or none; where
/// the edge cuts the cell, the dot has 18 or 22. It is the smaller one for the
/// draws below `LARGE_FROM`. No pixel of it lies farther from the centre than
/// the square root of 8.5.
pub proof fn law_cells_hold_one_dot(pattern_seed: u64, n: int)
    requires
        0 <= n < CELLS_X * CELLS_Y,
    ensures
        dot(pattern_seed, n).finite(),
        dot(pattern_seed, n).len() == ({
            let state = cell_state(start_state(pattern_seed), n);
            if drawn(state) < DISTURB_FROM {
                0int
            } else if drawn(advanced(state)) < LARGE_FROM {
                if whole_cell(n) {
                    24
                } else {
                    18
                }
            } else {
                if whole_cell(n) {
                    32
                } else {
                    22
                }
            }
        }),
        forall|p: int| #[trigger]
            dot(pattern_seed, n).contains(p) ==> covers(cell_x(n), cell_y(n), 34, p),
{
    let state = cell_state(start_state(pattern_seed), n);
    let reach = cell_reach(state);
    let rows: int = if whole_cell(n) {
        3
    } else {
        1
    };
    assert forall|p: int| #[trigger]
        dot(pattern_seed, n).contains(p) == (0 <= p < SIM_PIXELS && covers(
            cell_x(n),
            cell_y(n),
            reach,
            p,
        )) by {
        lemma_cells_disturb_their_own(pattern_seed, n, p);
    }
    if reach == 0 {
        assert forall|p: int| !#[trigger] dot(pattern_seed, n).contains(p) by {
            lemma_nothing_is_covered(cell_x(n), cell_y(n), p);
        }
        assert(dot(pattern_seed, n) =~= Set::empty());
    } else {
        lemma_disk_rows(cell_x(n), cell_y(n), reach, rows);
        assert forall|p: int| #[trigger]
            dot(pattern_seed, n).contains(p) == disk_rows(
                cell_x(n),
                cell_y(n),
                reach,
                rows,
            ).contains(p) by {
            lemma_far_pixels_are_not_covered(cell_x(n), cell_y(n), reach, p);
        }
        assert(dot(pattern_seed, n) =~= disk_rows(cell_x(n), cell_y(n), reach, rows));
        reveal_with_fuel(disk_count, 7);
    }
}

/// Whether `state` is the state of the simulation that a seed gives.
pub open spec fn is_seed_state(state: Seq<u8>, pattern_seed: u64) -> bool {
    &&& state.len() == 2 * SIM_PIXELS
    &&& forall|p: int|
        0 <= p < SIM_PIXELS ==> #[trigger] pixel(state, p) == chemistry(disturbed(pattern_seed, p))
}

/// A seed gives one state only, so the same song always starts from the same
/// picture.
pub proof fn law_seed_gives_one_state(a: Seq<u8>, b: Seq<u8>, pattern_seed: u64)
    requires
        is_seed_state(a, pattern_seed),
        is_seed_state(b, pattern_seed),
    ensures
        a == b,
{
    assert forall|i: int| 0 <= i < a.len() implies a[i] == b[i] by {
        let p = i / 2;
        assert(pixel(a, p) == pixel(b, p));
    }
    assert(a =~= b);
}

/// The generator moves on by a fixed step modulo the 64-bit range, mixes by two
/// multiplications, and a draw is the upper 24 bits of what comes out.
pub proof fn law_generator(state: u64)
    ensures
        advanced(state) as int == (state + 0x9E37_79B9_7F4A_7C15) % 0x1_0000_0000_0000_0000,
        ({
            let first = (state ^ (state >> 30)).wrapping_mul(0xBF58_476D_1CE4_E5B9u64);
            let second = (first ^ (first >> 27)).wrapping_mul(0x94D0_49BB_1331_11EBu64);
            mixed(state) == second ^ (second >> 31)
        }),
        drawn(state) < 0x100_0000,
        drawn(state) * 0x100_0000_0000 <= mixed(advanced(state)),
        mixed(advanced(state)) < (drawn(state) + 1) * 0x100_0000_0000,
{
    let v = mixed(advanced(state));
    assert(v >> 40 < 0x100_0000 && (v >> 40) * 0x100_0000_0000 <= v && v < ((v >> 40) + 1)
        * 0x100_0000_0000) by (bit_vector);
}

/// The cells draw in turn from one generator: one draw for a cell that is left
/// alone, two for one that is disturbed.
pub proof fn law_cells_draw_in_turn(pattern_seed: u64, n: int)
    requires
        0 <= n,
    ensures
        cell_state(start_state(pattern_seed), 0) == pattern_seed ^ 0x6A09_E667_F3BC_C909u64,
        ({
            let here = cell_state(start_state(pattern_seed), n);
            let next = cell_state(start_state(pattern_seed), n + 1);
            &&& drawn(here) < 16_190_012 ==> next == advanced(here)
            &&& drawn(here) >= 16_190_012 ==> next == advanced(advanced(here))
        }),
{
}

/// What a state holds at a pixel: 45 and 95 hundredths where the draw of its
/// cell disturbs it and the pixel lies near enough to the centre of the cell,
/// 100 and 0 everywhere else. A cell is 12 pixels wide and high, and the edge
/// cuts the last row of centres.
pub proof fn law_pixels_of_a_state(state: Seq<u8>, pattern_seed: u64, x: int, y: int)
    requires
        is_seed_state(state, pattern_seed),
        0 <= x < 768,
        0 <= y < 1024,
    ensures
        state.len() == 1_572_864,
        ({
            let here = cell_state(start_state(pattern_seed), y / 12 * 64 + x / 12);
            let dx = 2 * (x % 12) - 11;
            let dy = if y < 1_020 {
                2 * (y % 12) - 11
            } else {
                2 * (y - 1_023) + 1
            };
            let p = 768 * y + x;
            if drawn(here) >= 16_190_012 && (dx * dx + dy * dy <= 26 || (dx * dx + dy * dy <= 34
                && drawn(advanced(here)) >= 6_616_013)) {
                state[2 * p] == 45 && state[2 * p + 1] == 95
            } else {
                state[2 * p] == 100 && state[2 * p + 1] == 0
            }
        }),
{
    let p = 768 * y + x;
    let n = y / 12 * 64 + x / 12;
    assert(p % 768 == x && p / 768 == y);
    assert(n % 64 == x / 12 && n / 64 == y / 12);
    assert(0 <= n < 64 * 86);
    let here = cell_state(start_state(pattern_seed), n);
    let reach = cell_reach(here);
    assert(in_cell(n, p));
    lemma_cells_disturb_their_own(pattern_seed, n, p);
    assert(dot(pattern_seed, n).contains(p) == disturbed(pattern_seed, p));
    if reach == 0 {
        lemma_nothing_is_covered(cell_x(n), cell_y(n), p);
    }
    let dx = 2 * (x % 12) - 11;
    let dy = if y < 1_020 {
        2 * (y % 12) - 11
    } else {
        2 * (y - 1_023) + 1
    };
    assert(2 * (p % 768 - cell_x(n)) + 1 == dx);
    assert(2 * (p / 768 - cell_y(n)) + 1 == dy);
    assert(pixel(state, p) == chemistry(disturbed(pattern_seed, p)));
}

} // verus!
