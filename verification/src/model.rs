//! The mathematical model of the game: its state as unbounded values, and
//! each step of the simulation as a function from state to state.

use vstd::prelude::*;
use crate::error::GameError;
use crate::fixed::{abs, div_round, fixed_mul, COORD_LIMIT, SCALE};
use crate::food::{all_in_range, chosen_cell, free_cells};
use crate::segment::on_segment;
use crate::vector::Point;

verus! {

/// A command to turn.
#[allow(non_camel_case_types)]
#[derive(Clone, Copy, Debug, PartialEq, Eq, Structural)]
pub enum Movement {
    UP,
    DOWN,
    RIGHT,
    LEFT,
}

/// The unit vector that a command stands for. The y axis points down.
pub open spec fn movement_direction(movement: Movement) -> Point {
    match movement {
        Movement::UP => Point { x: 0, y: -(SCALE as int) },
        Movement::DOWN => Point { x: 0, y: SCALE as int },
        Movement::RIGHT => Point { x: SCALE as int, y: 0 },
        Movement::LEFT => Point { x: -(SCALE as int), y: 0 },
    }
}

/// The state of a game as mathematical values.
pub struct GameModel {
    /// Number of columns of the board.
    pub width: int,
    /// Number of rows of the board.
    pub height: int,
    /// Cells per millisecond, as a fixed-point number.
    pub speed: int,
    /// Number of meals so far.
    pub score: int,
    /// The direction in which the head moves.
    pub direction: Point,
    /// The direction that the head is to take at the next cell boundary.
    pub next_direction: Point,
    /// Where the food lies.
    pub food: Point,
    /// The snake, from the tip of its tail to its head.
    pub body: Seq<Point>,
}

impl GameModel {
    /// What every operation expects of a state and leaves in place: the body
    /// has a tail and a head, the snake and the directions are in range, and
    /// the food is in reach.
    pub open spec fn well_formed(self) -> bool {
        &&& self.body.len() >= 2
        &&& all_in_range(self.body)
        &&& self.direction.in_range()
        &&& self.next_direction.in_range()
        &&& self.food.in_reach()
    }
}

/// The length of the path through the points of `body`, each segment's length
/// rounded down to a whole unit.
pub open spec fn path_length(body: Seq<Point>) -> int
    decreases body.len(),
{
    if body.len() < 2 {
        0
    } else {
        body[1].subtract(body[0]).length() + path_length(body.skip(1))
    }
}

/// The body with `budget` units taken off its tail. Segments shorter than
/// what is left of the budget go whole; the first one that is not gives the
/// new tip, `budget` units from its start towards its end.
///
/// Fails with `InvalidTimespan` where the budget outlasts the body, and with
/// `DegenerateVector` where the segment that is to hold the new tip is too
/// short to have a direction.
pub open spec fn retract_tail(body: Seq<Point>, budget: int) -> Result<Seq<Point>, GameError>
    decreases body.len(),
{
    if body.len() < 2 {
        Err(GameError::InvalidTimespan)
    } else {
        let segment = body[1].subtract(body[0]);
        if segment.length() < budget {
            retract_tail(body.skip(1), budget - segment.length())
        } else if segment.is_degenerate() {
            Err(GameError::DegenerateVector)
        } else {
            Ok(seq![body[0].add(segment.normalize().scale_by(budget))] + body.skip(1))
        }
    }
}

/// The index of the cell that a coordinate lies in: the nearest whole
/// number of cells, a tie going away from zero.
pub open spec fn cell_index(coordinate: int) -> int {
    div_round(coordinate, SCALE as int)
}

/// Whether the head may turn from `direction` to `next`: only where the two
/// differ, and never straight back.
pub open spec fn turn_admissible(direction: Point, next: Point) -> bool {
    !direction.is_opposite(next) && !direction.equal_to(next)
}

/// Whether the way from `from` to `to` changes the cell index on some axis.
pub open spec fn crosses_boundary(from: Point, to: Point) -> bool {
    cell_index(from.x) != cell_index(to.x) || cell_index(from.y) != cell_index(to.y)
}

/// The coordinate of the cell boundary that is crossed on the way from the
/// coordinate `from` to the coordinate `to`: half a cell off the cell index
/// of `from`, on the side of `to`.
pub open spec fn boundary_coordinate(from: int, to: int) -> int {
    if cell_index(to) > cell_index(from) {
        cell_index(from) * SCALE + SCALE / 2
    } else {
        cell_index(from) * SCALE - SCALE / 2
    }
}

/// The point where the way from `from` to `to` leaves the cell of `from`. The
/// x axis decides where the index changes on both; the other coordinate is
/// that of `from`.
pub open spec fn breakpoint(from: Point, to: Point) -> Point {
    if cell_index(from.x) != cell_index(to.x) {
        Point { x: boundary_coordinate(from.x, to.x), y: from.y }
    } else {
        Point { x: from.x, y: boundary_coordinate(from.y, to.y) }
    }
}

/// The distance from `from` to the breakpoint on the way to `to`.
pub open spec fn distance_to_breakpoint(from: Point, to: Point) -> int {
    if cell_index(from.x) != cell_index(to.x) {
        abs(from.x - boundary_coordinate(from.x, to.x))
    } else {
        abs(from.y - boundary_coordinate(from.y, to.y))
    }
}

/// Whether a step of `distance` from `head` in `direction` takes the pending
/// turn to `next`.
pub open spec fn turns(head: Point, direction: Point, next: Point, distance: int) -> bool {
    turn_admissible(direction, next) && crosses_boundary(
        head,
        head.add(direction.scale_by(distance)),
    )
}

/// The points that replace the head `head` after a step of `distance`:
/// the new head alone where the snake goes straight on, the breakpoint and
/// the new head where it turns. In a turn, what is left of the distance at
/// the breakpoint is traveled in the direction `next`.
pub open spec fn head_points(head: Point, direction: Point, next: Point, distance: int) -> Seq<
    Point,
> {
    let straight = head.add(direction.scale_by(distance));
    if turns(head, direction, next, distance) {
        let corner = breakpoint(head, straight);
        let rest = distance - distance_to_breakpoint(head, straight);
        seq![corner, corner.add(next.scale_by(rest))]
    } else {
        seq![straight]
    }
}

/// The pending direction after a command, if there was one.
pub open spec fn pending_direction(next: Point, movement: Option<Movement>) -> Point {
    match movement {
        Some(m) => movement_direction(m),
        None => next,
    }
}

/// The distance that a snake of speed `speed` covers in `timespan`.
pub open spec fn step_distance(speed: int, timespan: int) -> int {
    fixed_mul(speed, timespan)
}

/// One step of movement: the tail retracts by the distance covered, the head
/// advances by it, and a pending turn is taken if the head crosses a cell
/// boundary.
///
/// Fails with `InvalidTimespan` on a negative time span or distance and
/// where the distance outlasts the body; with `DegenerateVector` where the
/// new tip of the tail falls on a segment too short to have a direction;
/// with `OutOfRange` where the distance, or a new point, is beyond
/// `COORD_LIMIT`.
pub open spec fn step_movement(state: GameModel, timespan: int, movement: Option<Movement>) -> Result<
    GameModel,
    GameError,
> {
    let distance = step_distance(state.speed, timespan);
    if timespan < 0 || distance < 0 {
        Err(GameError::InvalidTimespan)
    } else if distance > COORD_LIMIT {
        Err(GameError::OutOfRange)
    } else {
        match retract_tail(state.body, distance) {
            Err(e) => Err(e),
            Ok(tail) => {
                let next = pending_direction(state.next_direction, movement);
                let body = tail.drop_last() + head_points(
                    tail.last(),
                    state.direction,
                    next,
                    distance,
                );
                if !all_in_range(body) {
                    Err(GameError::OutOfRange)
                } else {
                    Ok(
                        GameModel {
                            direction: if turns(tail.last(), state.direction, next, distance) {
                                next
                            } else {
                                state.direction
                            },
                            next_direction: next,
                            body,
                            ..state
                        },
                    )
                }
            },
        }
    }
}

/// Whether the food lies on the segment that ends in the head.
pub open spec fn eats(state: GameModel) -> bool {
    on_segment(state.body[state.body.len() - 2], state.body.last(), state.food)
}

/// The body with its tail one cell longer: the tip moves one cell away from
/// the point that follows it.
///
/// Fails with `DegenerateVector` where the tip and the point that follows it
/// are too close to tell the direction, and with `OutOfRange` where the new
/// tip is beyond `COORD_LIMIT`.
pub open spec fn grow_tail(body: Seq<Point>) -> Result<Seq<Point>, GameError> {
    let outward = body[0].subtract(body[1]);
    if outward.is_degenerate() {
        Err(GameError::DegenerateVector)
    } else {
        let tip = body[0].add(outward.normalize());
        if !tip.in_range() {
            Err(GameError::OutOfRange)
        } else {
            Ok(body.update(0, tip))
        }
    }
}

/// The meal, if the head has reached the food: the tail grows by one cell,
/// the food moves to the free cell that `pick` stands for, and the score
/// goes up by one. Without a meal nothing changes.
///
/// Fails as `grow_tail` does, with `BoardFull` where the grown snake leaves
/// no cell free, and with `OutOfRange` where the score cannot go up.
pub open spec fn step_food(state: GameModel, pick: int) -> Result<GameModel, GameError> {
    if !eats(state) {
        Ok(state)
    } else {
        match grow_tail(state.body) {
            Err(e) => Err(e),
            Ok(body) => match chosen_cell(free_cells(state.width, state.height, body), pick) {
                Err(e) => Err(e),
                Ok(food) => if state.score >= u32::MAX {
                    Err(GameError::OutOfRange)
                } else {
                    Ok(GameModel { body, food, score: state.score + 1, ..state })
                },
            },
        }
    }
}

/// Where the head starts: half a cell before the middle of the board, the
/// middle rounded up to a whole cell.
pub open spec fn initial_head(width: int, height: int) -> Point {
    Point {
        x: div_round(width, 2) * SCALE - SCALE / 2,
        y: div_round(height, 2) * SCALE - SCALE / 2,
    }
}

/// The body of a new snake: the head, and the tip of the tail `length` cells
/// behind it.
pub open spec fn initial_body(width: int, height: int, length: int, direction: Point) -> Seq<
    Point,
> {
    let head = initial_head(width, height);
    seq![head.subtract(direction.scale_by(length * SCALE)), head]
}

/// The state of a new game, its food at the free cell that `pick` stands
/// for.
///
/// Fails with `OutOfRange` where the direction, the head or the tip of the
/// tail is beyond `COORD_LIMIT`, and with `BoardFull` where the snake leaves
/// no cell free.
pub open spec fn initial_state(
    width: int,
    height: int,
    speed: int,
    length: int,
    direction: Point,
    pick: int,
) -> Result<GameModel, GameError> {
    let body = initial_body(width, height, length, direction);
    if !direction.in_range() || !all_in_range(body) {
        Err(GameError::OutOfRange)
    } else {
        match chosen_cell(free_cells(width, height, body), pick) {
            Err(e) => Err(e),
            Ok(food) => Ok(
                GameModel {
                    width,
                    height,
                    speed,
                    score: 0,
                    direction,
                    next_direction: direction,
                    food,
                    body,
                },
            ),
        }
    }
}

/// What a call is to leave behind, given what the model says of it: the new
/// state on success, the error and the state as it was on failure.
pub open spec fn outcome_matches(
    expected: Result<GameModel, GameError>,
    before: GameModel,
    result: Result<(), GameError>,
    after: GameModel,
) -> bool {
    match expected {
        Ok(state) => result.is_ok() && after == state,
        Err(e) => result == Err::<(), GameError>(e) && after == before,
    }
}

/// What a whole step leaves behind: movement, then the meal. Where movement
/// fails nothing changes; where the meal fails the snake has moved.
pub open spec fn step_matches(
    before: GameModel,
    timespan: int,
    movement: Option<Movement>,
    pick: int,
    result: Result<(), GameError>,
    after: GameModel,
) -> bool {
    match step_movement(before, timespan, movement) {
        Err(e) => result == Err::<(), GameError>(e) && after == before,
        Ok(moved) => outcome_matches(step_food(moved, pick), moved, result, after),
    }
}

} // verus!
