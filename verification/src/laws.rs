//! Laws of the simulation: what holds of every vector, every segment and
//! every state, proved from the model.

use vstd::prelude::*;
use crate::error::GameError;
use crate::collinear::{lemma_length_symmetric, lemma_multiple_length, lemma_triangle};
use crate::fixed::{
    abs, are_equal_spec, div_round, fixed_mul, lemma_div_round_error, EPSILON, LENGTH_LIMIT, SCALE,
};
use crate::food::{
    cell_center, centers, chosen_cell, covers, free_cells, free_of, lemma_free_cells_are_free,
};
use crate::model::{
    eats, movement_direction, path_length, pending_direction, retract_tail, step_food,
    step_movement, GameModel, Movement,
};
use crate::vector::{lemma_coordinate_within_length, Point};

verus! {

/// Adding a vector and taking it off again gives the first vector back,
/// exactly and so also under the tolerance.
pub proof fn law_add_then_subtract(a: Point, b: Point)
    ensures
        a.add(b).subtract(b) == a,
        a.add(b).subtract(b).equal_to(a),
{
}

/// Equality under the tolerance holds of a vector and itself, and of a
/// vector and one that is half the tolerance away; it does not hold of a
/// vector and one that is a whole cell away.
pub proof fn law_equal_to_tolerant(v: Point)
    ensures
        v.equal_to(v),
        v.equal_to(v.add(Point { x: EPSILON / 2, y: 0 })),
        !v.equal_to(v.add(Point { x: SCALE as int, y: 0 })),
{
}

/// One coordinate of a vector, normalized and scaled back by the length, is
/// within half the tolerance of what it was.
proof fn lemma_round_trip_coordinate(c: int, len: int)
    requires
        0 < len <= LENGTH_LIMIT,
    ensures
        2 * abs(fixed_mul(div_round(c * SCALE, len), len) - c) <= EPSILON + 1,
{
    let unit = div_round(c * SCALE, len);
    let back = fixed_mul(unit, len);
    lemma_div_round_error(c * SCALE, len);
    lemma_div_round_error(unit * len, SCALE as int);
    assert(2 * SCALE * abs(back - c) <= len + SCALE) by (nonlinear_arith)
        requires
            2 * abs(c * SCALE - unit * len) <= len,
            2 * abs(unit * len - back * SCALE) <= SCALE,
    ;
}

/// Normalizing keeps the direction: a vector that is not degenerate and no
/// longer than `LENGTH_LIMIT`, normalized and scaled by its length, is the
/// vector again under the tolerance.
pub proof fn law_normalize_round_trip(v: Point)
    requires
        !v.is_degenerate(),
        v.length() <= LENGTH_LIMIT,
    ensures
        v.normalize().scale_by(v.length()).equal_to(v),
{
    lemma_round_trip_coordinate(v.x, v.length());
    lemma_round_trip_coordinate(v.y, v.length());
}

/// Normalizing gives a vector of length one: the normalized form of a
/// vector that is not degenerate is one whole long, under the tolerance.
pub proof fn law_normalize_unit_length(v: Point)
    requires
        !v.is_degenerate(),
    ensures
        are_equal_spec(v.normalize().length(), SCALE as int),
{
    let len = v.length();
    let unit = v.normalize();
    let scaled_unit = Point { x: len * unit.x, y: len * unit.y };
    let scaled = Point { x: SCALE * v.x, y: SCALE * v.y };
    let error = scaled_unit.subtract(scaled);
    let back = Point { x: -error.x, y: -error.y };
    lemma_div_round_error(v.x * SCALE, len);
    lemma_div_round_error(v.y * SCALE, len);
    assert(error.x == unit.x * len - v.x * SCALE && error.y == unit.y * len - v.y * SCALE)
        by (nonlinear_arith)
        requires
            error.x == len * unit.x - SCALE * v.x,
            error.y == len * unit.y - SCALE * v.y,
    ;
    lemma_coordinate_within_length(error);
    lemma_coordinate_within_length(back);
    lemma_multiple_length(unit, len);
    lemma_multiple_length(v, SCALE as int);
    assert(scaled.add(error) == scaled_unit);
    lemma_triangle(scaled, error);
    assert(scaled_unit.add(back) == scaled);
    lemma_triangle(scaled_unit, back);
    let long = unit.length();
    assert(long - SCALE <= 102 && SCALE - long <= 2) by (nonlinear_arith)
        requires
            len >= EPSILON,
            len * long <= SCALE * len + SCALE + len + 1,
            SCALE * len <= len * long + len + len + 1,
    ;
}

/// Equality under the tolerance is symmetric.
pub proof fn law_equal_to_symmetric(a: Point, b: Point)
    ensures
        a.equal_to(b) == b.equal_to(a),
{
}

/// The state after a run of steps without a command, one for each time span.
/// A step that fails leaves the state as it was.
pub open spec fn coast(state: GameModel, timespans: Seq<int>) -> GameModel
    decreases timespans.len(),
{
    if timespans.len() == 0 {
        state
    } else {
        let before = coast(state, timespans.drop_last());
        match step_movement(before, timespans.last(), None) {
            Ok(after) => after,
            Err(_) => before,
        }
    }
}

/// A step never takes a turn straight back: where the pending direction is
/// opposite to the direction of travel, the direction stays, and the pending
/// direction stays pending.
pub proof fn law_no_reversal_in_a_step(
    state: GameModel,
    timespan: int,
    movement: Option<Movement>,
)
    requires
        state.direction.is_opposite(pending_direction(state.next_direction, movement)),
    ensures
        match step_movement(state, timespan, movement) {
            Ok(after) => after.direction == state.direction && after.next_direction
                == pending_direction(state.next_direction, movement),
            Err(_) => true,
        },
{
}

/// A turn straight back is never taken, however long the snake goes on: after
/// a command opposite to the direction of travel, and any number of further
/// steps without a command, the direction is what it was.
pub proof fn law_reversal_rejected(
    state: GameModel,
    timespan: int,
    command: Movement,
    timespans: Seq<int>,
)
    requires
        state.direction.is_opposite(movement_direction(command)),
    ensures
        match step_movement(state, timespan, Some(command)) {
            Ok(after) => coast(after, timespans).direction == state.direction,
            Err(_) => true,
        },
    decreases timespans.len(),
{
    if let Ok(after) = step_movement(state, timespan, Some(command)) {
        law_no_reversal_in_a_step(state, timespan, Some(command));
        lemma_coast_keeps_opposite(after, timespans);
    }
}

/// While the pending direction is opposite to the direction of travel, steps
/// without a command change neither.
pub proof fn lemma_coast_keeps_opposite(state: GameModel, timespans: Seq<int>)
    requires
        state.direction.is_opposite(state.next_direction),
    ensures
        coast(state, timespans).direction == state.direction,
        coast(state, timespans).next_direction == state.next_direction,
    decreases timespans.len(),
{
    if timespans.len() > 0 {
        lemma_coast_keeps_opposite(state, timespans.drop_last());
        let before = coast(state, timespans.drop_last());
        law_no_reversal_in_a_step(before, timespans.last(), None);
    }
}

/// The direction opposite to each command is the command the other way.
pub proof fn law_commands_oppose()
    ensures
        movement_direction(Movement::RIGHT).is_opposite(movement_direction(Movement::LEFT)),
        movement_direction(Movement::LEFT).is_opposite(movement_direction(Movement::RIGHT)),
        movement_direction(Movement::UP).is_opposite(movement_direction(Movement::DOWN)),
        movement_direction(Movement::DOWN).is_opposite(movement_direction(Movement::UP)),
{
}

/// The length of a path is never negative.
pub proof fn lemma_path_length_nonnegative(body: Seq<Point>)
    ensures
        0 <= path_length(body),
    decreases body.len(),
{
    if body.len() >= 2 {
        lemma_path_length_nonnegative(body.skip(1));
    }
}

/// The tail can retract by any distance up to the length of the body and by
/// no more: on a body with a tail and a head, retraction fails with
/// `InvalidTimespan` exactly where the budget exceeds the path length.
pub proof fn law_retraction_outlasts(body: Seq<Point>, budget: int)
    requires
        body.len() >= 2,
    ensures
        retract_tail(body, budget) == Err::<Seq<Point>, GameError>(GameError::InvalidTimespan)
            <==> budget > path_length(body),
    decreases body.len(),
{
    let length = body[1].subtract(body[0]).length();
    lemma_path_length_nonnegative(body.skip(1));
    if body.len() >= 3 {
        law_retraction_outlasts(body.skip(1), budget - length);
    } else {
        assert(path_length(body.skip(1)) == 0);
        assert(retract_tail(body.skip(1), budget - length) == Err::<Seq<Point>, GameError>(
            GameError::InvalidTimespan,
        ));
    }
}

/// Whether no segment of a body is too short to have a direction.
pub open spec fn no_degenerate_segment(body: Seq<Point>) -> bool {
    forall|i: int|
        0 <= i < body.len() - 1 ==> !(#[trigger] body[i + 1]).subtract(body[i]).is_degenerate()
}

/// Retraction fails with `DegenerateVector` only on a segment that is too
/// short to have a direction: a body without one retracts by every budget
/// that does not outlast it.
pub proof fn law_retraction_needs_a_direction(body: Seq<Point>, budget: int)
    requires
        no_degenerate_segment(body),
    ensures
        retract_tail(body, budget) != Err::<Seq<Point>, GameError>(GameError::DegenerateVector),
    decreases body.len(),
{
    if body.len() >= 2 {
        let rest = body.skip(1);
        assert(!body[0int + 1].subtract(body[0]).is_degenerate());
        assert forall|i: int| 0 <= i < rest.len() - 1 implies !(#[trigger] rest[i + 1]).subtract(
            rest[i],
        ).is_degenerate() by {
            assert(rest[i + 1] == body[i + 1 + 1]);
            assert(rest[i] == body[i + 1]);
        }
        law_retraction_needs_a_direction(rest, budget - body[1].subtract(body[0]).length());
    }
}

/// What is left after a retraction has a tail and a head, the head and all
/// but the tip of the tail taken from the body as it was.
pub proof fn law_retraction_keeps_head(body: Seq<Point>, budget: int)
    ensures
        match retract_tail(body, budget) {
            Ok(tail) => 2 <= tail.len() <= body.len() && tail.last() == body.last() && tail.skip(1)
                == body.skip(body.len() - tail.len() + 1),
            Err(_) => true,
        },
    decreases body.len(),
{
    if body.len() >= 2 {
        let length = body[1].subtract(body[0]).length();
        if length < budget {
            law_retraction_keeps_head(body.skip(1), budget - length);
            if let Ok(tail) = retract_tail(body, budget) {
                assert(body.skip(1).skip(body.len() - 1 - tail.len() + 1) =~= body.skip(
                    body.len() - tail.len() + 1,
                ));
            }
        } else if let Ok(tail) = retract_tail(body, budget) {
            assert(tail.skip(1) =~= body.skip(1));
        }
    }
}

/// Food lands on a free cell: after a meal it lies at the center of a cell
/// of the board, on no segment of the grown snake.
pub proof fn law_food_lands_free(state: GameModel, pick: int)
    requires
        0 <= state.width,
        0 <= state.height,
        0 <= pick,
        eats(state),
    ensures
        match step_food(state, pick) {
            Ok(after) => !covers(after.body, after.food) && exists|x: int, y: int|
                0 <= x < state.width && 0 <= y < state.height && after.food
                    == #[trigger] cell_center(x, y),
            Err(_) => true,
        },
{
    if let Ok(after) = step_food(state, pick) {
        let free = free_cells(state.width, state.height, after.body);
        assert(chosen_cell(free, pick) == Ok::<Point, GameError>(after.food));
        let i = pick % (free.len() as int);
        if state.height == 0 {
            assert(state.width * state.height == 0) by (nonlinear_arith)
                requires
                    state.height == 0,
            ;
            centers(state.height, 0).lemma_filter_len(free_of(after.body));
        }
        lemma_free_cells_are_free(state.width, state.height, after.body, i);
    }
}

/// The length of a path whose first point is moved.
pub proof fn lemma_path_length_update_first(body: Seq<Point>, tip: Point)
    requires
        body.len() >= 2,
    ensures
        path_length(body.update(0, tip)) == path_length(body) - body[1].subtract(body[0]).length()
            + body[1].subtract(tip).length(),
{
    let moved = body.update(0, tip);
    assert(moved.skip(1) =~= body.skip(1));
}

/// A meal makes the snake one cell longer, within the tolerance: whatever the
/// direction of the tail, the path through the body grows by one whole, give
/// or take what the rounding of the new tip can add or take, and the score
/// goes up by one.
pub proof fn law_meal_grows_within_tolerance(state: GameModel, pick: int)
    requires
        state.body.len() >= 2,
        eats(state),
    ensures
        match step_food(state, pick) {
            Ok(after) => {
                let growth = path_length(after.body) - path_length(state.body);
                -EPSILON < growth - SCALE < EPSILON && after.score == state.score + 1
            },
            Err(_) => true,
        },
{
    if let Ok(after) = step_food(state, pick) {
        let body = state.body;
        let outward = body[0].subtract(body[1]);
        let unit = outward.normalize();
        let tip = body[0].add(unit);
        let len = outward.length();
        assert(after.body == body.update(0, tip));
        lemma_path_length_update_first(body, tip);
        lemma_length_symmetric(body[0], body[1]);
        lemma_length_symmetric(tip, body[1]);
        let grown = tip.subtract(body[1]);
        assert(grown == outward.add(unit));
        // `len` times the grown segment is `len + SCALE` times the old one,
        // but for the rounding of the unit vector.
        let whole = Point { x: len * grown.x, y: len * grown.y };
        let exact = Point { x: (len + SCALE) * outward.x, y: (len + SCALE) * outward.y };
        let error = whole.subtract(exact);
        lemma_div_round_error(outward.x * SCALE, len);
        lemma_div_round_error(outward.y * SCALE, len);
        assert(error.x == unit.x * len - outward.x * SCALE && error.y == unit.y * len - outward.y
            * SCALE) by (nonlinear_arith)
            requires
                error.x == len * (outward.x + unit.x) - (len + SCALE) * outward.x,
                error.y == len * (outward.y + unit.y) - (len + SCALE) * outward.y,
        ;
        let back = Point { x: -error.x, y: -error.y };
        lemma_coordinate_within_length(error);
        lemma_coordinate_within_length(back);
        lemma_multiple_length(grown, len);
        lemma_multiple_length(outward, len + SCALE);
        assert(exact.add(error) == whole);
        lemma_triangle(exact, error);
        assert(whole.add(back) == exact);
        lemma_triangle(whole, back);
        let longer = grown.length();
        assert(longer - len - SCALE <= 102 && len + SCALE - longer <= 2) by (nonlinear_arith)
            requires
                len >= EPSILON,
                len * longer <= (len + SCALE) * len + (len + SCALE) + len + 1,
                (len + SCALE) * len <= len * longer + len + len + 1,
        ;
    }
}

} // verus!
