//! Laying a grid over a screen.
//!
//! The visible frame of a screen is divided into columns and rows of equal
//! size, and the target rectangle covers a range of both. A cell is as wide
//! as the frame divided by the number of columns, in double precision; each
//! of the four numbers of the rectangle is computed from that and rounded
//! by itself, a tie away from zero. Neighbouring rectangles may therefore
//! overlap or leave a gap, though of no more than a pixel. No grid is
//! turned down: one of no columns, or a range that ends before it starts,
//! gives a rectangle all the same, though not a useful one.

use vstd::prelude::*;
use vstd::arithmetic::div_mod::{
    lemma_div_multiples_vanish,
    lemma_fundamental_div_mod,
    lemma_mod_multiples_basic,
};
use vstd::arithmetic::power2::{
    lemma2_to64,
    lemma2_to64_rest,
    lemma_pow2_adds,
    lemma_pow2_pos,
    lemma_pow2_unfold,
    pow2,
};
use crate::binary64::{
    clamped,
    excess_bits,
    lemma_nearest_pixel_of_whole,
    lemma_plus_whole,
    lemma_quotient_without_remainder,
    lemma_round_half_away_error,
    lemma_round_significant_error,
    lemma_times_whole,
    magnitude,
    nearest_pixel,
    plus,
    quotient,
    round_half_away,
    round_significant,
    signed,
    times,
    whole,
    Number,
};
use crate::double::{divide, offset, scale, to_pixel};
use crate::command::MoveParameters;
use crate::geometry::{Rect, Screen};
use crate::screens::{locate, refusal, selects, ResolveError};

verus! {

/// Where the cell numbered `start` begins, on an axis that begins at
/// `origin` and is divided into `ratio` cells over `extent` pixels.
pub open spec fn edge(origin: int, extent: int, ratio: int, start: int) -> int {
    nearest_pixel(plus(origin, times(quotient(extent, ratio), start)))
}

/// How many pixels the cells from `start` to `end` cover, both included.
pub open spec fn span(extent: int, ratio: int, start: int, end: int) -> int {
    nearest_pixel(times(quotient(extent, ratio), end - start + 1))
}

/// The rectangle that `params` asks for on `screen`.
pub open spec fn target(screen: Screen, params: MoveParameters) -> Rect {
    let frame = screen.visible_frame;
    Rect {
        x: edge(frame.x as int, frame.width as int, params.x_ratio as int, params.x_start as int)
            as i32,
        y: edge(frame.y as int, frame.height as int, params.y_ratio as int, params.y_start as int)
            as i32,
        width: span(
            frame.width as int,
            params.x_ratio as int,
            params.x_start as int,
            params.x_end as int,
        ) as i32,
        height: span(
            frame.height as int,
            params.y_ratio as int,
            params.y_start as int,
            params.y_end as int,
        ) as i32,
    }
}

/// Computes where a range of cells begins and how far it reaches, along
/// one axis.
fn along(origin: i32, extent: i32, ratio: i32, start: i32, end: i32) -> (r: (i32, i32))
    ensures
        r.0 == edge(origin as int, extent as int, ratio as int, start as int),
        r.1 == span(extent as int, ratio as int, start as int, end as int),
{
    let cell = divide(extent, ratio);
    let cells: i64 = end as i64 - start as i64 + 1;
    (to_pixel(offset(origin, scale(cell, start as i64))), to_pixel(scale(cell, cells)))
}

/// Computes the rectangle that `params` asks for on `screen`.
pub fn compute(screen: &Screen, params: &MoveParameters) -> (r: Rect)
    ensures
        r == target(*screen, *params),
{
    let frame = &screen.visible_frame;
    let (x, width) = along(frame.x, frame.width, params.x_ratio, params.x_start, params.x_end);
    let (y, height) = along(frame.y, frame.height, params.y_ratio, params.y_start, params.y_end);
    Rect { x, y, width, height }
}

/// Computes the rectangle that `params` asks for on the screen that they
/// name among `screens`.
pub fn compute_among(params: &MoveParameters, screens: &[Screen]) -> (r: Result<
    Rect,
    ResolveError,
>)
    ensures
        match r {
            Ok(rect) => {
                &&& refusal(screens@, params.screen) is None
                &&& exists|i: int|
                    selects(screens@, params.screen, i) && rect == target(screens@[i], *params)
            },
            Err(e) => refusal(screens@, params.screen) == Some(e),
        },
{
    match locate(params.screen, screens) {
        Ok(i) => Ok(compute(&screens[i], params)),
        Err(e) => Err(e),
    }
}

/// The same screen and the same parameters give the same rectangle,
/// however often it is computed.
pub proof fn lemma_target_is_determined(
    first: Screen,
    second: Screen,
    params: MoveParameters,
    again: MoveParameters,
)
    requires
        first == second,
        params == again,
    ensures
        target(first, params) == target(second, again),
{
}

/// A grid of one column and one row, of which the one cell is taken, gives
/// the visible frame of the screen as it is.
pub proof fn lemma_whole_screen_is_the_visible_frame(screen: Screen, params: MoveParameters)
    requires
        params.x_ratio == 1,
        params.y_ratio == 1,
        params.x_start == 0,
        params.x_end == 0,
        params.y_start == 0,
        params.y_end == 0,
    ensures
        target(screen, params) == screen.visible_frame,
{
    let frame = screen.visible_frame;
    lemma_one_cell(frame.x as int, frame.width as int);
    lemma_one_cell(frame.y as int, frame.height as int);
}

/// An axis of one cell begins at its origin, and the cell covers it all.
proof fn lemma_one_cell(origin: int, extent: int)
    requires
        i32::MIN <= origin <= i32::MAX,
        i32::MIN <= extent <= i32::MAX,
    ensures
        edge(origin, extent, 1, 0) == origin,
        span(extent, 1, 0, 0) == extent,
{
    lemma_cells_of_whole_pixels(origin, extent, 1, 0, 0);
    let cell = extent / 1;
    assert(cell == extent);
    assert(cell * (0 - 0 + 1) == cell && cell * 0 == 0) by (nonlinear_arith);
}

/// Where the cells are whole pixels wide, nothing is rounded: a range
/// begins and reaches exactly where the cells do, as far as a coordinate
/// can say.
pub proof fn lemma_cells_of_whole_pixels(origin: int, extent: int, ratio: int, start: int, end: int)
    requires
        i32::MIN <= origin <= i32::MAX,
        i32::MIN <= extent <= i32::MAX,
        0 < ratio <= i32::MAX,
        extent % ratio == 0,
        -0x10_0000 <= start <= 0x10_0000,
        -0x10_0000 <= end <= 0x10_0000,
    ensures
        edge(origin, extent, ratio, start) == clamped(origin + (extent / ratio) * start),
        span(extent, ratio, start, end) == clamped((extent / ratio) * (end - start + 1)),
{
    let cell = extent / ratio;
    let size = magnitude(extent) / magnitude(ratio);
    lemma_fundamental_div_mod(extent, ratio);
    // The magnitudes divide as the numbers do.
    assert(magnitude(extent) == ratio * magnitude(cell) && -0x8000_0000 <= cell <= 0x8000_0000)
        by (nonlinear_arith)
        requires
            extent == ratio * cell,
            ratio > 0,
            -0x8000_0000 <= extent <= 0x8000_0000,
    ;
    lemma_div_multiples_vanish(magnitude(cell) as int, ratio);
    lemma_mod_multiples_basic(magnitude(cell) as int, ratio);
    assert(magnitude(extent) == magnitude(cell) * ratio) by (nonlinear_arith)
        requires
            magnitude(extent) == ratio * magnitude(cell),
    ;
    assert(size == magnitude(cell));
    assert((extent < 0) == (cell < 0) || cell == 0) by (nonlinear_arith)
        requires
            extent == ratio * cell,
            ratio > 0,
    ;
    lemma_quotient_without_remainder(extent, ratio);
    assert(quotient(extent, ratio) == whole(cell));
    let cells = end - start + 1;
    assert(magnitude(cell * start) < 0x20_0000_0000_0000 && magnitude(cell * cells)
        < 0x20_0000_0000_0000 && magnitude(origin + cell * start) < 0x20_0000_0000_0000)
        by (nonlinear_arith)
        requires
            -0x8000_0000 <= cell <= 0x8000_0000,
            -0x8000_0000 <= origin <= 0x8000_0000,
            -0x10_0000 <= start <= 0x10_0000,
            -0x20_0000 <= cells <= 0x20_0001,
    ;
    lemma_times_whole(cell, start);
    lemma_plus_whole(origin, cell * start);
    lemma_nearest_pixel_of_whole(origin + cell * start);
    lemma_times_whole(cell, cells);
    lemma_nearest_pixel_of_whole(cell * cells);
}

/// On a proper frame, a grid of at least one column and one row and ranges
/// that do not end before they start give a proper rectangle.
pub proof fn lemma_target_is_proper(screen: Screen, params: MoveParameters)
    requires
        screen.visible_frame.is_proper(),
        params.x_ratio > 0,
        params.y_ratio > 0,
        params.x_start <= params.x_end,
        params.y_start <= params.y_end,
    ensures
        target(screen, params).is_proper(),
{
    lemma_pow2_pos(83);
}

/// Within the grid, a range of cells ends no further than a pixel from
/// where the cell behind it begins: neighbouring rectangles overlap by a
/// pixel or leave a gap of one at most.
pub proof fn lemma_neighbours_meet_within_a_pixel(
    origin: int,
    extent: int,
    ratio: int,
    start: int,
    end: int,
)
    requires
        i32::MIN <= origin,
        0 <= extent <= i32::MAX,
        origin + extent <= i32::MAX,
        1 <= ratio <= i32::MAX,
        0 <= start <= end < ratio,
    ensures
        -1 <= edge(origin, extent, ratio, start) + span(extent, ratio, start, end) - edge(
            origin,
            extent,
            ratio,
            end + 1,
        ) <= 1,
{
    let one = pow2(83);
    let from = edge(origin, extent, ratio, start);
    let reach = span(extent, ratio, start, end);
    let next = edge(origin, extent, ratio, end + 1);
    lemma_edge_is_near(origin, extent, ratio, start);
    lemma_span_is_near(extent, ratio, start, end);
    lemma_edge_is_near(origin, extent, ratio, end + 1);
    lemma_pow2_values();
    // The three numbers are each little more than half a pixel from the
    // true ones, which add up: with `k` for a pixel times the ratio, and
    // `e` for the extent in multiples of `2^-83`.
    let gap = from + reach - next;
    let k = one * ratio;
    let e = extent * one;
    let slack = ratio * (pow2(82) + pow2(64));
    assert(from * one * ratio == from * k && reach * one * ratio == reach * k && next * one
        * ratio == next * k && origin * one * ratio == origin * k) by (nonlinear_arith)
        requires
            k == one * ratio,
    ;
    assert(e * (end - start + 1) + e * start == e * (end + 1)) by (nonlinear_arith);
    assert(gap * k == from * k + reach * k - next * k) by (nonlinear_arith)
        requires
            gap == from + reach - next,
    ;
    assert(ratio * (pow2(82) + pow2(63)) <= slack) by (nonlinear_arith)
        requires
            slack == ratio * (pow2(82) + pow2(64)),
            pow2(63) <= pow2(64),
            ratio >= 1,
    ;
    assert(-(3 * slack) <= gap * k <= 3 * slack);
    assert(3 * slack < 2 * k) by (nonlinear_arith)
        requires
            slack == ratio * (pow2(82) + pow2(64)),
            k == one * ratio,
            one == 2 * pow2(82),
            pow2(82) == 0x8_0000 * pow2(63),
            pow2(64) == 2 * pow2(63),
            pow2(63) > 0,
            ratio >= 1,
    ;
    assert(-1 <= gap <= 1) by (nonlinear_arith)
        requires
            -(2 * k) < gap * k < 2 * k,
            k > 0,
    ;
}

/// The grid covers the frame: its first cell begins where the frame
/// begins, the cell behind its last would begin where the frame ends, and
/// all its cells together are as wide as the frame.
pub proof fn lemma_grid_covers_the_frame(origin: int, extent: int, ratio: int)
    requires
        i32::MIN <= origin,
        0 <= extent <= i32::MAX,
        origin + extent <= i32::MAX,
        1 <= ratio <= i32::MAX,
    ensures
        edge(origin, extent, ratio, 0) == origin,
        edge(origin, extent, ratio, ratio) == origin + extent,
        span(extent, ratio, 0, ratio - 1) == extent,
{
    let one = pow2(83);
    let first = edge(origin, extent, ratio, 0);
    let last = edge(origin, extent, ratio, ratio);
    let all = span(extent, ratio, 0, ratio - 1);
    lemma_edge_is_near(origin, extent, ratio, 0);
    lemma_edge_is_near(origin, extent, ratio, ratio);
    lemma_span_is_near(extent, ratio, 0, ratio - 1);
    lemma_pow2_values();
    let slack = pow2(82) + pow2(64);
    assert(first == origin && last == origin + extent && all == extent) by (nonlinear_arith)
        requires
            -(ratio * slack) <= first * one * ratio - (origin * one * ratio + extent * one * 0)
                <= ratio * slack,
            -(ratio * slack) <= last * one * ratio - (origin * one * ratio + extent * one * ratio)
                <= ratio * slack,
            -(ratio * (pow2(82) + pow2(63))) <= all * one * ratio - extent * one * (ratio - 1 - 0
                + 1) <= ratio * (pow2(82) + pow2(63)),
            slack == pow2(82) + pow2(64),
            one == 2 * pow2(82),
            pow2(82) == 0x8_0000 * pow2(63),
            pow2(64) == 2 * pow2(63),
            pow2(63) > 0,
            ratio >= 1,
    ;
}

/// The width of `cells` cells in double precision, for cells that lie
/// within the grid: it is within `2^-20` of a pixel of the true width.
proof fn lemma_width_is_near(extent: int, ratio: int, cells: int) -> (width: int)
    requires
        0 <= extent <= i32::MAX,
        1 <= ratio <= i32::MAX,
        0 <= cells <= ratio,
    ensures
        times(quotient(extent, ratio), cells) == (Number::Finite { scaled: width }),
        0 <= width <= extent * pow2(83) + pow2(63),
        -(ratio * pow2(63)) <= width * ratio - extent * pow2(83) * cells <= ratio * pow2(63),
{
    let one = pow2(83);
    let top = (extent * one) as nat;
    let r = ratio as nat;
    let cell = round_significant(magnitude(extent) * one, magnitude(ratio));
    lemma_pow2_pos(83);
    lemma_pow2_values();
    assert(magnitude(extent) * one == top);
    // The cell is within 2^61 of the quotient, taken times the ratio.
    let unit = pow2(excess_bits(top / r));
    lemma_pow2_pos(excess_bits(top / r));
    lemma_round_significant_error(top, r);
    assert(top <= pow2(114)) by (nonlinear_arith)
        requires
            top == extent * one,
            one == pow2(83),
            pow2(114) == pow2(83) * 0x8000_0000,
            0 <= extent <= 0x8000_0000,
    ;
    assert(unit * r <= pow2(62)) by (nonlinear_arith)
        requires
            unit == 1 || unit * r * 0x10_0000_0000_0000 <= top,
            top <= pow2(114),
            pow2(114) == pow2(62) * 0x10_0000_0000_0000,
            r <= 0x8000_0000,
            pow2(62) >= 0x8000_0000,
            unit > 0,
            r > 0,
    ;
    // So is its product with the number of cells, and what that rounds to.
    let product = (cell * cells) as nat;
    assert(product == cell * cells && product * r <= (top + pow2(61)) * r && (cell * r - top)
        * cells <= pow2(61) * r && (cell * r - top) * cells >= -(pow2(61) * r))
        by (nonlinear_arith)
        requires
            product == cell * cells,
            -(unit * r) <= 2 * (cell * r - top) <= unit * r,
            unit * r <= pow2(62),
            pow2(62) == 2 * pow2(61),
            0 <= cells <= r,
            cell >= 0,
    ;
    assert(product <= top + pow2(61)) by (nonlinear_arith)
        requires
            product * r <= (top + pow2(61)) * r,
            r > 0,
    ;
    let fine = pow2(excess_bits(product / 1));
    lemma_pow2_pos(excess_bits(product / 1));
    lemma_round_significant_error(product, 1);
    let width = round_significant(product, 1);
    assert(fine <= pow2(63)) by (nonlinear_arith)
        requires
            fine == 1 || fine * 1 * 0x10_0000_0000_0000 <= product,
            product <= top + pow2(61),
            top <= pow2(114),
            pow2(114) == pow2(62) * 0x10_0000_0000_0000,
            pow2(61) <= pow2(62),
        pow2(63) <= pow2(64),
            pow2(63) == 2 * pow2(62),
            pow2(62) > 0,
    ;
    assert(-(r * pow2(63)) <= width * r - top * cells <= r * pow2(63)) by (nonlinear_arith)
        requires
            -(fine * 1) <= 2 * (width * 1 - product) <= fine * 1,
            fine <= pow2(63),
            product == cell * cells,
            (cell * r - top) * cells <= pow2(61) * r,
            (cell * r - top) * cells >= -(pow2(61) * r),
            pow2(63) == 4 * pow2(61),
            r > 0,
    ;
    assert(magnitude((cell as int) * cells) == product);
    width as int
}

/// How far a range of cells within the grid reaches: within little more
/// than half a pixel of the true width, and no further than the frame.
proof fn lemma_span_is_near(extent: int, ratio: int, start: int, end: int)
    requires
        0 <= extent <= i32::MAX,
        1 <= ratio <= i32::MAX,
        0 <= end - start + 1 <= ratio,
    ensures
        0 <= span(extent, ratio, start, end) <= extent,
        -(ratio * (pow2(82) + pow2(63))) <= span(extent, ratio, start, end) * pow2(83) * ratio
            - extent * pow2(83) * (end - start + 1) <= ratio * (pow2(82) + pow2(63)),
{
    let one = pow2(83);
    let cells = end - start + 1;
    let width = lemma_width_is_near(extent, ratio, cells);
    let n = round_half_away(width);
    lemma_round_half_away_error(width);
    lemma_pow2_values();
    assert(0 <= n <= extent) by (nonlinear_arith)
        requires
            -pow2(82) <= n * one - width <= pow2(82),
            0 <= width <= extent * one + pow2(63),
            one == 2 * pow2(82),
            pow2(82) == 0x8_0000 * pow2(63),
            pow2(63) > 0,
    ;
    assert(-(ratio * (pow2(82) + pow2(63))) <= n * one * ratio - extent * one * cells <= ratio * (
        pow2(82) + pow2(63))) by (nonlinear_arith)
        requires
            -pow2(82) <= n * one - width <= pow2(82),
            -(ratio * pow2(63)) <= width * ratio - extent * one * cells <= ratio * pow2(63),
            ratio >= 1,
    ;
}

/// Where a cell of the grid begins: within little more than half a pixel
/// of the true place, and within the frame.
proof fn lemma_edge_is_near(origin: int, extent: int, ratio: int, start: int)
    requires
        i32::MIN <= origin,
        0 <= extent <= i32::MAX,
        origin + extent <= i32::MAX,
        1 <= ratio <= i32::MAX,
        0 <= start <= ratio,
    ensures
        origin <= edge(origin, extent, ratio, start) <= origin + extent,
        -(ratio * (pow2(82) + pow2(64))) <= edge(origin, extent, ratio, start) * pow2(83) * ratio
            - (origin * pow2(83) * ratio + extent * pow2(83) * start) <= ratio * (pow2(82) + pow2(
            64,
        )),
{
    let one = pow2(83);
    let width = lemma_width_is_near(extent, ratio, start);
    let sum = origin * one + width;
    let size = magnitude(sum);
    let rounded = signed(sum < 0, round_significant(size, 1));
    let x = round_half_away(rounded);
    lemma_pow2_values();
    lemma_pow2_pos(83);
    // The sum is of the size of a coordinate, so it loses little when it
    // is rounded.
    assert(-pow2(114) <= sum <= pow2(114)) by (nonlinear_arith)
        requires
            sum == origin * one + width,
            0 <= width <= extent * one + pow2(63),
            -0x8000_0000 <= origin,
            origin + extent <= 0x7fff_ffff,
            pow2(114) == one * 0x8000_0000,
            one == 0x10_0000 * pow2(63),
            pow2(63) > 0,
    ;
    let fine = pow2(excess_bits(size / 1));
    lemma_pow2_pos(excess_bits(size / 1));
    lemma_round_significant_error(size, 1);
    assert(fine <= pow2(62)) by (nonlinear_arith)
        requires
            fine == 1 || fine * 1 * 0x10_0000_0000_0000 <= size,
            size <= pow2(114),
            pow2(114) == pow2(62) * 0x10_0000_0000_0000,
            pow2(62) >= 1,
    ;
    assert(-pow2(61) <= rounded - sum <= pow2(61)) by (nonlinear_arith)
        requires
            -(fine * 1) <= 2 * (round_significant(size, 1) * 1 - size) <= fine * 1,
            fine <= pow2(62),
            pow2(62) == 2 * pow2(61),
            size == magnitude(sum),
            rounded == signed(sum < 0, round_significant(size, 1)),
    ;
    lemma_round_half_away_error(rounded);
    assert(origin <= x <= origin + extent) by (nonlinear_arith)
        requires
            -pow2(82) <= x * one - rounded <= pow2(82),
            -pow2(61) <= rounded - sum <= pow2(61),
            sum == origin * one + width,
            0 <= width <= extent * one + pow2(63),
            one == 2 * pow2(82),
            pow2(82) == 0x8_0000 * pow2(63),
            pow2(63) == 4 * pow2(61),
            pow2(61) > 0,
    ;
    assert(-(ratio * (pow2(82) + pow2(64))) <= x * one * ratio - (origin * one * ratio + extent
        * one * start) <= ratio * (pow2(82) + pow2(64))) by (nonlinear_arith)
        requires
            -pow2(82) <= x * one - rounded <= pow2(82),
            -pow2(61) <= rounded - sum <= pow2(61),
            sum == origin * one + width,
            -(ratio * pow2(63)) <= width * ratio - extent * one * start <= ratio * pow2(63),
            pow2(64) == 2 * pow2(63),
            pow2(63) == 4 * pow2(61),
            pow2(61) > 0,
            ratio >= 1,
    ;
}

/// How the powers of two that the bounds above are made of compare.
proof fn lemma_pow2_values()
    ensures
        pow2(62) >= 0x8000_0000,
        pow2(62) == 2 * pow2(61),
        pow2(63) == 2 * pow2(62),
        pow2(63) == 4 * pow2(61),
        pow2(61) <= pow2(62),
        pow2(63) <= pow2(64),
        pow2(64) == 2 * pow2(63),
        pow2(82) == 0x8_0000 * pow2(63),
        pow2(83) == 0x10_0000 * pow2(63),
        pow2(83) == 2 * pow2(82),
        pow2(63) > 0,
        pow2(62) >= 1,
        pow2(114) == pow2(83) * 0x8000_0000,
        pow2(114) == pow2(62) * 0x10_0000_0000_0000,
        pow2(61) > 0,
{
    lemma2_to64();
    lemma2_to64_rest();
    lemma_pow2_unfold(62);
    lemma_pow2_unfold(63);
    lemma_pow2_unfold(83);
    lemma_pow2_adds(63, 19);
    lemma_pow2_adds(63, 20);
    lemma_pow2_unfold(64);
    lemma_pow2_pos(62);
    lemma_pow2_pos(63);
    lemma_pow2_adds(83, 31);
    lemma_pow2_adds(62, 52);
    lemma_pow2_pos(61);
}

} // verus!
