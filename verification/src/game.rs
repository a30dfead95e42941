//! The game state and its steps.

use vstd::prelude::*;
use crate::error::GameError;
use crate::fixed::{
    abs, div_round, div_round_exec, fixed_mul, fixed_mul_exec, lemma_div_round_error, COORD_LIMIT,
    SCALE,
};
use crate::food::{
    all_in_range, chosen_cell, free_cells, free_positions, get_food, lemma_chosen_cell_in_reach,
    points, select_food,
};
use crate::model::{
    boundary_coordinate, breakpoint, cell_index, distance_to_breakpoint, eats, grow_tail,
    head_points, initial_body, initial_head, initial_state, movement_direction, outcome_matches,
    pending_direction, retract_tail, step_food, step_matches, step_movement, turns, GameModel,
    Movement,
};
use crate::segment::Segment;
use crate::vector::{lemma_difference_in_range, lemma_normalize_bounded, Point, Vector};

verus! {

impl Movement {
    /// The unit vector that the command stands for.
    pub fn direction(&self) -> (v: Vector)
        ensures
            v@ == movement_direction(*self),
    {
        match self {
            Movement::UP => Vector::new(0, -SCALE),
            Movement::DOWN => Vector::new(0, SCALE),
            Movement::RIGHT => Vector::new(SCALE, 0),
            Movement::LEFT => Vector::new(-SCALE, 0),
        }
    }
}

/// A game in progress: the board, the snake on it, the food and the score.
#[derive(Debug)]
pub struct Game {
    /// Number of columns of the board.
    pub width: u32,
    /// Number of rows of the board.
    pub height: u32,
    /// Cells per millisecond, as a fixed-point number.
    pub speed: i64,
    /// Number of meals so far.
    pub score: u32,
    /// The direction in which the head moves.
    pub direction: Vector,
    /// The direction that the head is to take at the next cell boundary.
    pub next_direction: Vector,
    /// Where the food lies.
    pub food: Vector,
    snake: Vec<Vector>,
}

impl View for Game {
    type V = GameModel;

    closed spec fn view(&self) -> GameModel {
        GameModel {
            width: self.width as int,
            height: self.height as int,
            speed: self.speed as int,
            score: self.score as int,
            direction: self.direction@,
            next_direction: self.next_direction@,
            food: self.food@,
            body: points(self.snake@),
        }
    }
}

/// The vector with the given coordinates, if both are in range.
fn point_in_range(x: i128, y: i128) -> (res: Option<Vector>)
    ensures
        (Point { x: x as int, y: y as int }).in_range() <==> res.is_some(),
        res.is_some() ==> res.unwrap()@ == (Point { x: x as int, y: y as int }),
{
    let limit: i128 = COORD_LIMIT as i128;
    if -limit <= x && x <= limit && -limit <= y && y <= limit {
        Some(Vector { x: x as i64, y: y as i64 })
    } else {
        None
    }
}

/// One coordinate of the point that lies `distance` from the coordinate
/// `from`, along the coordinate `direction` of a direction.
fn travel(from: i64, direction: i64, distance: i64) -> (to: i128)
    requires
        -COORD_LIMIT <= from <= COORD_LIMIT,
        -COORD_LIMIT <= direction <= COORD_LIMIT,
        -COORD_LIMIT <= distance <= COORD_LIMIT,
    ensures
        to == from + fixed_mul(direction as int, distance as int),
        -0x1000_0000_0000_0000_0000_0000_0000_0000 <= to
            <= 0x1000_0000_0000_0000_0000_0000_0000_0000,
{
    assert(abs(direction as int * distance as int) <= COORD_LIMIT * COORD_LIMIT)
        by (nonlinear_arith)
        requires
            -COORD_LIMIT <= direction <= COORD_LIMIT,
            -COORD_LIMIT <= distance <= COORD_LIMIT,
    ;
    from as i128 + fixed_mul_exec(direction, distance)
}

/// The index of the cell that a coordinate lies in.
fn cell_of(coordinate: i128) -> (index: i128)
    requires
        -0x1000_0000_0000_0000_0000_0000_0000_0000 <= coordinate
            <= 0x1000_0000_0000_0000_0000_0000_0000_0000,
    ensures
        index == cell_index(coordinate as int),
        abs(index as int) <= abs(coordinate as int),
{
    div_round_exec(coordinate, SCALE as i128)
}

/// The coordinate of the cell boundary crossed on the way from `from` to
/// `to`, and the distance to it.
fn boundary(from: i64, to: i128) -> (res: (i128, i64))
    requires
        -COORD_LIMIT <= from <= COORD_LIMIT,
        -0x1000_0000_0000_0000_0000_0000_0000_0000 <= to
            <= 0x1000_0000_0000_0000_0000_0000_0000_0000,
    ensures
        res.0 == boundary_coordinate(from as int, to as int),
        res.1 == abs(from - boundary_coordinate(from as int, to as int)),
        0 <= res.1 <= SCALE,
{
    let here: i128 = cell_of(from as i128);
    let there: i128 = cell_of(to);
    proof {
        lemma_div_round_error(from as int, SCALE as int);
    }
    let side: i128 = if there > here {
        SCALE as i128 / 2
    } else {
        -(SCALE as i128 / 2)
    };
    assert(-COORD_LIMIT * SCALE <= here * SCALE <= COORD_LIMIT * SCALE) by (nonlinear_arith)
        requires
            -COORD_LIMIT <= here <= COORD_LIMIT,
    ;
    let line: i128 = here * SCALE as i128 + side;
    let gap: i128 = if from as i128 >= line {
        from as i128 - line
    } else {
        line - from as i128
    };
    (line, gap as i64)
}

/// The snake with `distance` units taken off its tail.
fn retracted(snake: &Vec<Vector>, distance: i64) -> (res: Result<Vec<Vector>, GameError>)
    requires
        all_in_range(points(snake@)),
        0 <= distance <= COORD_LIMIT,
    ensures
        match retract_tail(points(snake@), distance as int) {
            Err(e) => res == Err::<Vec<Vector>, GameError>(e),
            Ok(tail) => tail.len() >= 2 && if tail[0].in_range() {
                res.is_ok() && points(res.unwrap()@) == tail
            } else {
                res == Err::<Vec<Vector>, GameError>(GameError::OutOfRange)
            },
        },
        res.is_ok() ==> res.unwrap()@.len() >= 2 && all_in_range(points(res.unwrap()@)),
{
    let ghost body = points(snake@);
    let count: usize = snake.len();
    if count < 2 {
        return Err(GameError::InvalidTimespan);
    }
    let mut first: usize = 0;
    let mut budget: i64 = distance;
    let mut found: bool = false;
    assert(body.skip(0) =~= body);
    while !found && first + 1 < count
        invariant
            count == snake@.len(),
            body == points(snake@),
            all_in_range(body),
            first < count,
            0 <= budget <= distance,
            retract_tail(body, distance as int) == retract_tail(body.skip(first as int), budget as int),
            found ==> first + 1 < count && body[first as int + 1].subtract(
                body[first as int],
            ).length() >= budget,
        decreases count - first + if found { 0int } else { 1int },
    {
        assert(body[first as int].in_range() && body[first as int + 1].in_range());
        let segment = Segment::new(&snake[first], &snake[first + 1]);
        let length: i64 = segment.length();
        proof {
            lemma_difference_in_range(body[first as int], body[first as int + 1]);
            assert(body.skip(first as int).skip(1) =~= body.skip(first as int + 1));
            assert(body.skip(first as int)[0] == body[first as int]);
            assert(body.skip(first as int)[1] == body[first as int + 1]);
        }
        if length < budget {
            budget -= length;
            first += 1;
        } else {
            found = true;
        }
    }
    if !found {
        assert(body.skip(first as int).len() < 2);
        return Err(GameError::InvalidTimespan);
    }
    assert(body[first as int].in_range() && body[first as int + 1].in_range());
    proof {
        lemma_difference_in_range(body[first as int], body[first as int + 1]);
        assert(body.skip(first as int).skip(1) =~= body.skip(first as int + 1));
        assert(body.skip(first as int)[0] == body[first as int]);
        assert(body.skip(first as int)[1] == body[first as int + 1]);
    }
    let segment = Segment::new(&snake[first], &snake[first + 1]);
    let unit: Vector = match segment.get_vector().normalize() {
        Ok(u) => u,
        Err(e) => {
            return Err(e);
        },
    };
    proof {
        lemma_normalize_bounded(body[first as int + 1].subtract(body[first as int]));
    }
    let x: i128 = travel(snake[first].x, unit.x, budget);
    let y: i128 = travel(snake[first].y, unit.y, budget);
    let ghost tail = seq![body[first as int].add(unit@.scale_by(budget as int))] + body.skip(
        first as int + 1,
    );
    assert(retract_tail(body, distance as int) == Ok::<Seq<Point>, GameError>(tail));
    let tip: Vector = match point_in_range(x, y) {
        Some(p) => p,
        None => {
            return Err(GameError::OutOfRange);
        },
    };
    let mut out: Vec<Vector> = Vec::new();
    out.push(tip);
    let mut next: usize = first + 1;
    while next < count
        invariant
            count == snake@.len(),
            body == points(snake@),
            all_in_range(body),
            first + 1 <= next <= count,
            out@.len() == 1 + next - (first + 1),
            out@[0] == tip,
            forall|j: int| 1 <= j < out@.len() ==> out@[j] == snake@[first + j],
        decreases count - next,
    {
        out.push(snake[next]);
        next += 1;
    }
    proof {
        assert(points(out@) =~= tail);
        assert forall|j: int| 0 <= j < points(out@).len() implies (#[trigger] points(
            out@,
        )[j]).in_range() by {
            if j >= 1 {
                assert(points(out@)[j] == body[first + j]);
            }
        }
    }
    Ok(out)
}

/// The snake with its tail one cell longer.
fn grown(snake: &Vec<Vector>) -> (res: Result<Vec<Vector>, GameError>)
    requires
        snake@.len() >= 2,
        all_in_range(points(snake@)),
    ensures
        match grow_tail(points(snake@)) {
            Err(e) => res == Err::<Vec<Vector>, GameError>(e),
            Ok(body) => res.is_ok() && points(res.unwrap()@) == body && all_in_range(body),
        },
{
    let ghost body = points(snake@);
    assert(body[0].in_range() && body[1].in_range());
    proof {
        lemma_difference_in_range(body[1], body[0]);
    }
    let tail_segment = Segment::new(&snake[1], &snake[0]);
    let outward: Vector = match tail_segment.get_vector().normalize() {
        Ok(u) => u,
        Err(e) => {
            return Err(e);
        },
    };
    let x: i128 = snake[0].x as i128 + outward.x as i128;
    let y: i128 = snake[0].y as i128 + outward.y as i128;
    let tip: Vector = match point_in_range(x, y) {
        Some(p) => p,
        None => {
            return Err(GameError::OutOfRange);
        },
    };
    let mut out: Vec<Vector> = Vec::new();
    out.push(tip);
    let mut next: usize = 1;
    while next < snake.len()
        invariant
            1 <= next <= snake@.len(),
            out@.len() == next,
            out@[0] == tip,
            forall|j: int| 1 <= j < out@.len() ==> out@[j] == snake@[j],
        decreases snake@.len() - next,
    {
        out.push(snake[next]);
        next += 1;
    }
    proof {
        assert(points(out@) =~= body.update(0, tip@));
        assert forall|j: int| 0 <= j < points(out@).len() implies (#[trigger] points(
            out@,
        )[j]).in_range() by {
            if j >= 1 {
                assert(points(out@)[j] == body[j]);
            }
        }
    }
    Ok(out)
}

/// The two points of a new snake, if they are in range.
fn first_body(width: u32, height: u32, snake_length: u32, direction: &Vector) -> (res: Option<
    Vec<Vector>,
>)
    requires
        direction@.in_range(),
    ensures
        all_in_range(initial_body(width as int, height as int, snake_length as int, direction@))
            <==> res.is_some(),
        res.is_some() ==> points(res.unwrap()@) == initial_body(
            width as int,
            height as int,
            snake_length as int,
            direction@,
        ),
{
    let half: i64 = SCALE / 2;
    let middle_x: i128 = div_round_exec(width as i128, 2);
    let middle_y: i128 = div_round_exec(height as i128, 2);
    assert(0 <= middle_x * SCALE <= 0x1_0000_0000 * SCALE && 0 <= middle_y * SCALE <= 0x1_0000_0000
        * SCALE) by (nonlinear_arith)
        requires
            -0x1_0000_0000 <= middle_x <= 0x1_0000_0000,
            -0x1_0000_0000 <= middle_y <= 0x1_0000_0000,
            middle_x == div_round(width as int, 2),
            middle_y == div_round(height as int, 2),
            width >= 0,
            height >= 0,
    ;
    let head_x: i128 = middle_x * SCALE as i128 - half as i128;
    let head_y: i128 = middle_y * SCALE as i128 - half as i128;
    let length: i64 = snake_length as i64 * SCALE;
    assert(abs(direction.x as int * length as int) <= COORD_LIMIT * 0x1_0000_0000_0000_0000)
        by (nonlinear_arith)
        requires
            -COORD_LIMIT <= direction.x <= COORD_LIMIT,
            0 <= length <= 0x1_0000_0000_0000_0000,
    ;
    assert(abs(direction.y as int * length as int) <= COORD_LIMIT * 0x1_0000_0000_0000_0000)
        by (nonlinear_arith)
        requires
            -COORD_LIMIT <= direction.y <= COORD_LIMIT,
            0 <= length <= 0x1_0000_0000_0000_0000,
    ;
    let tip_x: i128 = head_x - fixed_mul_exec(direction.x, length);
    let tip_y: i128 = head_y - fixed_mul_exec(direction.y, length);
    let ghost body = initial_body(width as int, height as int, snake_length as int, direction@);
    assert(body[1] == initial_head(width as int, height as int));
    assert(body[1] == Point { x: head_x as int, y: head_y as int });
    assert(body[0] == Point { x: tip_x as int, y: tip_y as int });
    let head: Vector = match point_in_range(head_x, head_y) {
        Some(p) => p,
        None => {
            assert(!body[1].in_range());
            return None;
        },
    };
    match point_in_range(tip_x, tip_y) {
        Some(tip) => {
            let mut snake: Vec<Vector> = Vec::new();
            snake.push(tip);
            snake.push(head);
            assert(points(snake@) =~= body);
            Some(snake)
        },
        None => {
            assert(!body[0].in_range());
            None
        },
    }
}

/// What a constructor is to return, given what the model says of it: a
/// well-formed game in the state it names, or the error it names.
pub open spec fn creation_matches(
    expected: Result<GameModel, GameError>,
    result: Result<Game, GameError>,
) -> bool {
    match (expected, result) {
        (Ok(state), Ok(game)) => game@ == state && game.well_formed(),
        (Err(e), Err(f)) => e == f,
        _ => false,
    }
}

impl Game {
    /// What every operation expects of a game and leaves in place.
    pub open spec fn well_formed(&self) -> bool {
        self@.well_formed()
    }

    /// A new game on a board of `width` by `height` cells. The head of the
    /// snake lies half a cell before the middle of the board, the tip of its
    /// tail `snake_length` cells behind it, against `direction`; the food lies
    /// in the free cell that `pick` stands for.
    pub fn new_with(
        width: u32,
        height: u32,
        speed: i64,
        snake_length: u32,
        direction: Vector,
        pick: usize,
    ) -> (res: Result<Game, GameError>)
        ensures
            creation_matches(
                initial_state(
                    width as int,
                    height as int,
                    speed as int,
                    snake_length as int,
                    direction@,
                    pick as int,
                ),
                res,
            ),
    {
        if point_in_range(direction.x as i128, direction.y as i128).is_none() {
            return Err(GameError::OutOfRange);
        }
        let snake: Vec<Vector> = match first_body(width, height, snake_length, &direction) {
            Some(s) => s,
            None => {
                return Err(GameError::OutOfRange);
            },
        };
        let free = free_positions(width, height, snake.as_slice());
        let food: Vector = match select_food(&free, pick) {
            Ok(f) => f,
            Err(e) => {
                return Err(e);
            },
        };
        proof {
            lemma_chosen_cell_in_reach(
                width as int,
                height as int,
                points(snake@),
                pick as int,
            );
        }
        Ok(
            Game {
                width,
                height,
                speed,
                score: 0,
                direction,
                next_direction: direction,
                food,
                snake,
            },
        )
    }

    /// A new game as `new_with` makes it, its food in a free cell drawn at
    /// random.
    pub fn new(width: u32, height: u32, speed: i64, snake_length: u32, direction: Vector) -> (res:
        Result<Game, GameError>)
        ensures
            exists|pick: int|
                0 <= pick <= usize::MAX && creation_matches(
                    #[trigger] initial_state(
                        width as int,
                        height as int,
                        speed as int,
                        snake_length as int,
                        direction@,
                        pick,
                    ),
                    res,
                ),
    {
        let ghost expected = |pick: int|
            initial_state(
                width as int,
                height as int,
                speed as int,
                snake_length as int,
                direction@,
                pick,
            );
        if point_in_range(direction.x as i128, direction.y as i128).is_none() {
            assert(expected(0) == Err::<GameModel, GameError>(GameError::OutOfRange));
            return Err(GameError::OutOfRange);
        }
        let snake: Vec<Vector> = match first_body(width, height, snake_length, &direction) {
            Some(s) => s,
            None => {
                assert(expected(0) == Err::<GameModel, GameError>(GameError::OutOfRange));
                return Err(GameError::OutOfRange);
            },
        };
        let ghost free = free_cells(width as int, height as int, points(snake@));
        let food: Vector = match get_food(width, height, snake.as_slice()) {
            Ok(f) => f,
            Err(e) => {
                assert(expected(0) == Err::<GameModel, GameError>(GameError::BoardFull));
                return Err(e);
            },
        };
        let ghost pick = choose|pick: int|
            0 <= pick <= usize::MAX && #[trigger] chosen_cell(free, pick) == Ok::<
                Point,
                GameError,
            >(food@);
        proof {
            lemma_chosen_cell_in_reach(width as int, height as int, points(snake@), pick);
        }
        let game = Game {
            width,
            height,
            speed,
            score: 0,
            direction,
            next_direction: direction,
            food,
            snake,
        };
        assert(expected(pick) == Ok::<GameModel, GameError>(game@));
        Ok(game)
    }

    /// Number of columns of the board.
    pub fn width(&self) -> (width: u32)
        ensures
            width == self@.width,
    {
        self.width
    }

    /// Number of rows of the board.
    pub fn height(&self) -> (height: u32)
        ensures
            height == self@.height,
    {
        self.height
    }

    /// Cells per millisecond, as a fixed-point number.
    pub fn speed(&self) -> (speed: i64)
        ensures
            speed == self@.speed,
    {
        self.speed
    }

    /// Number of meals so far.
    pub fn score(&self) -> (score: u32)
        ensures
            score == self@.score,
    {
        self.score
    }

    /// Where the food lies.
    pub fn food(&self) -> (food: Vector)
        ensures
            food@ == self@.food,
    {
        self.food
    }

    /// The direction in which the head moves.
    pub fn direction(&self) -> (direction: Vector)
        ensures
            direction@ == self@.direction,
    {
        self.direction
    }

    /// The direction that the head is to take at the next cell boundary.
    pub fn next_direction(&self) -> (direction: Vector)
        ensures
            direction@ == self@.next_direction,
    {
        self.next_direction
    }

    /// Puts the food at `food`.
    pub fn set_food(&mut self, food: Vector)
        requires
            old(self).well_formed(),
            food@.in_reach(),
        ensures
            final(self).well_formed(),
            final(self)@ == (GameModel { food: food@, ..old(self)@ }),
    {
        self.food = food;
    }

    /// Sets the speed, in cells per millisecond.
    pub fn set_speed(&mut self, speed: i64)
        requires
            old(self).well_formed(),
        ensures
            final(self).well_formed(),
            final(self)@ == (GameModel { speed: speed as int, ..old(self)@ }),
    {
        self.speed = speed;
    }

    /// Sets the score.
    pub fn set_score(&mut self, score: u32)
        requires
            old(self).well_formed(),
        ensures
            final(self).well_formed(),
            final(self)@ == (GameModel { score: score as int, ..old(self)@ }),
    {
        self.score = score;
    }

    /// Sets the direction in which the head moves.
    pub fn set_direction(&mut self, direction: Vector)
        requires
            old(self).well_formed(),
            direction@.in_range(),
        ensures
            final(self).well_formed(),
            final(self)@ == (GameModel { direction: direction@, ..old(self)@ }),
    {
        self.direction = direction;
    }

    /// Sets the direction that the head is to take at the next cell boundary.
    pub fn set_next_direction(&mut self, direction: Vector)
        requires
            old(self).well_formed(),
            direction@.in_range(),
        ensures
            final(self).well_formed(),
            final(self)@ == (GameModel { next_direction: direction@, ..old(self)@ }),
    {
        self.next_direction = direction;
    }

    /// The snake, from the tip of its tail to its head.
    pub fn get_snake(&self) -> (snake: Vec<Vector>)
        ensures
            points(snake@) == self@.body,
    {
        let mut snake: Vec<Vector> = Vec::new();
        let mut i: usize = 0;
        while i < self.snake.len()
            invariant
                i <= self.snake@.len(),
                snake@ == self.snake@.take(i as int),
            decreases self.snake@.len() - i,
        {
            snake.push(self.snake[i]);
            assert(self.snake@.take(i as int).push(self.snake@[i as int]) =~= self.snake@.take(
                i as int + 1,
            ));
            i += 1;
        }
        assert(self.snake@.take(i as int) =~= self.snake@);
        snake
    }

    /// Moves the snake by what it covers in `timespan`, and takes note of a
    /// command to turn. The turn itself waits for the head to cross a cell
    /// boundary; a turn straight back is never taken.
    pub fn process_movement(&mut self, timespan: i64, movement: Option<Movement>) -> (res: Result<
        (),
        GameError,
    >)
        requires
            old(self).well_formed(),
        ensures
            final(self).well_formed(),
            outcome_matches(
                step_movement(old(self)@, timespan as int, movement),
                old(self)@,
                res,
                final(self)@,
            ),
    {
        if timespan < 0 {
            return Err(GameError::InvalidTimespan);
        }
        let covered: i128 = fixed_mul_exec(self.speed, timespan);
        if covered < 0 {
            return Err(GameError::InvalidTimespan);
        }
        if covered > COORD_LIMIT as i128 {
            return Err(GameError::OutOfRange);
        }
        let distance: i64 = covered as i64;
        let mut body: Vec<Vector> = match retracted(&self.snake, distance) {
            Ok(b) => b,
            Err(e) => {
                proof {
                    if let Ok(tail) = retract_tail(self@.body, distance as int) {
                        let next = pending_direction(self.next_direction@, movement);
                        let whole = tail.drop_last() + head_points(
                            tail.last(),
                            self.direction@,
                            next,
                            distance as int,
                        );
                        assert(whole[0] == tail[0]);
                        assert(!all_in_range(whole));
                    }
                }
                return Err(e);
            },
        };
        let ghost tail = points(body@);
        assert(retract_tail(self@.body, distance as int) == Ok::<Seq<Point>, GameError>(tail));
        let head: Vector = body[body.len() - 1];
        body.pop();
        assert(points(body@) =~= tail.drop_last());
        assert(head@ == tail.last());
        let next: Vector = match movement {
            Some(m) => m.direction(),
            None => self.next_direction,
        };
        assert(next@ == pending_direction(self.next_direction@, movement));
        let straight_x: i128 = travel(head.x, self.direction.x, distance);
        let straight_y: i128 = travel(head.y, self.direction.y, distance);
        let ghost straight = head@.add(self.direction@.scale_by(distance as int));
        assert(straight == Point { x: straight_x as int, y: straight_y as int });
        let admissible: bool = !self.direction.is_opposite(&next) && !self.direction.equal_to(
            &next,
        );
        let x_changed: bool = cell_of(head.x as i128) != cell_of(straight_x);
        let y_changed: bool = cell_of(head.y as i128) != cell_of(straight_y);
        let ghost added = head_points(head@, self.direction@, next@, distance as int);
        if admissible && (x_changed || y_changed) {
            assert(turns(head@, self.direction@, next@, distance as int));
            let corner_x: i128;
            let corner_y: i128;
            let used: i64;
            if x_changed {
                let (line, gap) = boundary(head.x, straight_x);
                corner_x = line;
                corner_y = head.y as i128;
                used = gap;
            } else {
                let (line, gap) = boundary(head.y, straight_y);
                corner_x = head.x as i128;
                corner_y = line;
                used = gap;
            }
            assert(breakpoint(head@, straight) == Point { x: corner_x as int, y: corner_y as int });
            assert(used == distance_to_breakpoint(head@, straight));
            assert(tail.len() >= 2);
            let corner: Vector = match point_in_range(corner_x, corner_y) {
                Some(p) => p,
                None => {
                    proof {
                        let whole = tail.drop_last() + added;
                        assert(whole[tail.len() - 1] == added[0]);
                        assert(!all_in_range(whole));
                    }
                    return Err(GameError::OutOfRange);
                },
            };
            let rest: i64 = distance - used;
            let turned_x: i128 = travel(corner.x, next.x, rest);
            let turned_y: i128 = travel(corner.y, next.y, rest);
            let turned: Vector = match point_in_range(turned_x, turned_y) {
                Some(p) => p,
                None => {
                    proof {
                        let whole = tail.drop_last() + added;
                        assert(whole[tail.len() as int] == added[1]);
                        assert(!all_in_range(whole));
                    }
                    return Err(GameError::OutOfRange);
                },
            };
            body.push(corner);
            body.push(turned);
            assert(points(body@) =~= tail.drop_last() + added);
            assert(all_in_range(points(body@))) by {
                assert forall|j: int| 0 <= j < points(body@).len() implies (#[trigger] points(
                    body@,
                )[j]).in_range() by {
                    if j < tail.len() - 1 {
                        assert(points(body@)[j] == tail[j]);
                    }
                }
            }
            self.direction = next;
        } else {
            assert(!turns(head@, self.direction@, next@, distance as int));
            let advanced: Vector = match point_in_range(straight_x, straight_y) {
                Some(p) => p,
                None => {
                    proof {
                        let whole = tail.drop_last() + added;
                        assert(whole[tail.len() - 1] == added[0]);
                        assert(!all_in_range(whole));
                    }
                    return Err(GameError::OutOfRange);
                },
            };
            body.push(advanced);
            assert(points(body@) =~= tail.drop_last() + added);
            assert(all_in_range(points(body@))) by {
                assert forall|j: int| 0 <= j < points(body@).len() implies (#[trigger] points(
                    body@,
                )[j]).in_range() by {
                    if j < tail.len() - 1 {
                        assert(points(body@)[j] == tail[j]);
                    }
                }
            }
        }
        self.next_direction = next;
        self.snake = body;
        Ok(())
    }

    /// Whether the food lies on the segment that ends in the head.
    pub fn reaches_food(&self) -> (r: bool)
        requires
            self.well_formed(),
        ensures
            r == eats(self@),
    {
        let count: usize = self.snake.len();
        assert(points(self.snake@)[count - 2].in_range() && points(self.snake@)[count
            - 1].in_range());
        let head_segment = Segment::new(&self.snake[count - 2], &self.snake[count - 1]);
        head_segment.is_point_inside(&self.food)
    }

    /// Lets the snake eat if its head has reached the food: the tail grows by
    /// one cell, the food moves to the free cell that `pick` stands for, and
    /// the score goes up by one. Without a meal nothing changes.
    pub fn process_food_with(&mut self, pick: usize) -> (res: Result<(), GameError>)
        requires
            old(self).well_formed(),
        ensures
            final(self).well_formed(),
            outcome_matches(step_food(old(self)@, pick as int), old(self)@, res, final(self)@),
    {
        if !self.reaches_food() {
            return Ok(());
        }
        let body: Vec<Vector> = match grown(&self.snake) {
            Ok(b) => b,
            Err(e) => {
                return Err(e);
            },
        };
        let free = free_positions(self.width, self.height, body.as_slice());
        let food: Vector = match select_food(&free, pick) {
            Ok(f) => f,
            Err(e) => {
                return Err(e);
            },
        };
        if self.score == u32::MAX {
            return Err(GameError::OutOfRange);
        }
        proof {
            lemma_chosen_cell_in_reach(
                self.width as int,
                self.height as int,
                points(body@),
                pick as int,
            );
        }
        self.snake = body;
        self.food = food;
        self.score = self.score + 1;
        Ok(())
    }

    /// Lets the snake eat as `process_food_with` does, the new place of the
    /// food drawn at random among the free cells.
    pub fn process_food(&mut self) -> (res: Result<(), GameError>)
        requires
            old(self).well_formed(),
        ensures
            final(self).well_formed(),
            exists|pick: int|
                0 <= pick <= usize::MAX && #[trigger] outcome_matches(
                    step_food(old(self)@, pick),
                    old(self)@,
                    res,
                    final(self)@,
                ),
    {
        let ghost before = self@;
        if !self.reaches_food() {
            assert(outcome_matches(step_food(before, 0), before, Ok(()), self@));
            return Ok(());
        }
        let body: Vec<Vector> = match grown(&self.snake) {
            Ok(b) => b,
            Err(e) => {
                assert(outcome_matches(step_food(before, 0), before, Err(e), self@));
                return Err(e);
            },
        };
        let ghost free = free_cells(self.width as int, self.height as int, points(body@));
        let food: Vector = match get_food(self.width, self.height, body.as_slice()) {
            Ok(f) => f,
            Err(e) => {
                assert(outcome_matches(step_food(before, 0), before, Err(e), self@));
                return Err(e);
            },
        };
        let ghost pick = choose|pick: int|
            0 <= pick <= usize::MAX && #[trigger] chosen_cell(free, pick) == Ok::<
                Point,
                GameError,
            >(food@);
        if self.score == u32::MAX {
            assert(outcome_matches(
                step_food(before, pick),
                before,
                Err(GameError::OutOfRange),
                self@,
            ));
            return Err(GameError::OutOfRange);
        }
        proof {
            lemma_chosen_cell_in_reach(
                self.width as int,
                self.height as int,
                points(body@),
                pick,
            );
        }
        self.snake = body;
        self.food = food;
        self.score = self.score + 1;
        assert(outcome_matches(step_food(before, pick), before, Ok(()), self@));
        Ok(())
    }

    /// One step of the game: the snake moves by what it covers in `timespan`,
    /// then eats if its head has reached the food, which then moves to the
    /// free cell that `pick` stands for.
    pub fn process_with(&mut self, timespan: i64, movement: Option<Movement>, pick: usize) -> (res:
        Result<(), GameError>)
        requires
            old(self).well_formed(),
        ensures
            final(self).well_formed(),
            step_matches(old(self)@, timespan as int, movement, pick as int, res, final(self)@),
    {
        match self.process_movement(timespan, movement) {
            Ok(()) => self.process_food_with(pick),
            Err(e) => Err(e),
        }
    }

    /// One step of the game as `process_with` makes it, the new place of the
    /// food, if it is eaten, drawn at random among the free cells.
    pub fn process(&mut self, timespan: i64, movement: Option<Movement>) -> (res: Result<
        (),
        GameError,
    >)
        requires
            old(self).well_formed(),
        ensures
            final(self).well_formed(),
            exists|pick: int|
                0 <= pick <= usize::MAX && #[trigger] step_matches(
                    old(self)@,
                    timespan as int,
                    movement,
                    pick,
                    res,
                    final(self)@,
                ),
    {
        let ghost before = self@;
        match self.process_movement(timespan, movement) {
            Ok(()) => {
                let ghost moved = self@;
                let res = self.process_food();
                proof {
                    let pick = choose|pick: int|
                        0 <= pick <= usize::MAX && #[trigger] outcome_matches(
                            step_food(moved, pick),
                            moved,
                            res,
                            self@,
                        );
                    assert(step_matches(before, timespan as int, movement, pick, res, self@));
                }
                res
            },
            Err(e) => {
                assert(step_matches(before, timespan as int, movement, 0, Err(e), self@));
                Err(e)
            },
        }
    }
}

} // verus!
