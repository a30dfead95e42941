//! Snakes whose head moves along an axis.
//!
//! A state is regular where every segment of the snake runs along an axis
//! and the head moves in one of the four directions, along its segment.
//! Every state that a game reaches from a start in one of the four directions
//! is regular, and on such states no rounding occurs: the laws on them hold
//! to the unit. Where only the head's segment runs along an axis, the new tip
//! of the tail is rounded, and the laws hold under the tolerance.

use vstd::prelude::*;
use crate::error::GameError;
use crate::collinear::{lemma_multiple_length, lemma_triangle};
use crate::fixed::{
    abs, are_equal_spec, div_round, fixed_mul, lemma_div_round_error, lemma_div_round_exact,
    lemma_div_round_monotone, COORD_LIMIT, EPSILON, SCALE,
};
use crate::laws::law_retraction_keeps_head;
use crate::model::{
    boundary_coordinate, breakpoint, cell_index, crosses_boundary, distance_to_breakpoint, eats,
    head_points, initial_head, initial_state, movement_direction, path_length, pending_direction,
    retract_tail, step_distance, step_food, step_movement, turn_admissible, turns, GameModel,
    Movement,
};
use crate::vector::{lemma_axis_length, lemma_coordinate_within_length, Point};

verus! {

/// Whether a vector is one of the four directions that a command can stand
/// for.
pub open spec fn is_cardinal(direction: Point) -> bool {
    ||| direction == movement_direction(Movement::UP)
    ||| direction == movement_direction(Movement::DOWN)
    ||| direction == movement_direction(Movement::RIGHT)
    ||| direction == movement_direction(Movement::LEFT)
}

/// Whether the vector `v` points the way of `direction`: the two are
/// parallel and do not oppose each other. The zero vector points every way.
pub open spec fn points_along(v: Point, direction: Point) -> bool {
    v.x * direction.y == v.y * direction.x && v.x * direction.x + v.y * direction.y >= 0
}

/// Whether every segment of a body runs along an axis.
pub open spec fn rectilinear(body: Seq<Point>) -> bool {
    forall|i: int|
        0 <= i < body.len() - 1 ==> (#[trigger] body[i]).x == body[i + 1].x || body[i].y
            == body[i + 1].y
}

/// Whether the segment that ends in the head points the way of `direction`.
pub open spec fn heads_along(body: Seq<Point>, direction: Point) -> bool {
    points_along(body.last().subtract(body[body.len() - 2]), direction)
}

/// Whether a state is regular: the body has a tail and a head and runs along
/// the axes, the head moves in one of the four directions, which is the way
/// its segment points, and the pending direction is one of the four.
pub open spec fn regular(state: GameModel) -> bool {
    &&& state.body.len() >= 2
    &&& rectilinear(state.body)
    &&& is_cardinal(state.direction)
    &&& is_cardinal(state.next_direction)
    &&& heads_along(state.body, state.direction)
}

/// A whole number of units times one whole is that number of units.
pub proof fn lemma_fixed_mul_unit(distance: int)
    ensures
        fixed_mul(SCALE as int, distance) == distance,
        fixed_mul(-(SCALE as int), distance) == -distance,
        fixed_mul(0, distance) == 0,
{
    lemma_div_round_exact(distance, SCALE as int);
    lemma_div_round_exact(-distance, SCALE as int);
    lemma_div_round_exact(0, SCALE as int);
    assert(0 * SCALE == 0) by (nonlinear_arith);
    assert(SCALE * distance == distance * SCALE) by (nonlinear_arith);
    assert((-(SCALE as int)) * distance == (-distance) * SCALE) by (nonlinear_arith);
    assert(0 * distance == 0) by (nonlinear_arith);
}

/// In one of the four directions, a distance is traveled to the unit.
pub proof fn lemma_travel_cardinal(from: Point, direction: Point, distance: int)
    requires
        is_cardinal(direction),
    ensures
        from.add(direction.scale_by(distance)) == (Point {
            x: from.x + (direction.x / (SCALE as int)) * distance,
            y: from.y + (direction.y / (SCALE as int)) * distance,
        }),
{
    lemma_fixed_mul_unit(distance);
    assert(1 * distance == distance && (-1) * distance == -distance && 0 * distance == 0)
        by (nonlinear_arith);
}

/// A vector along an axis, normalized, is one of the four directions: the
/// one that it points in.
pub proof fn lemma_normalize_axis(v: Point)
    requires
        v.x == 0 || v.y == 0,
        !v.is_degenerate(),
    ensures
        is_cardinal(v.normalize()),
        v.normalize().x == if v.x > 0 {
            SCALE as int
        } else if v.x < 0 {
            -(SCALE as int)
        } else {
            0
        },
        v.normalize().y == if v.y > 0 {
            SCALE as int
        } else if v.y < 0 {
            -(SCALE as int)
        } else {
            0
        },
{
    lemma_axis_length(v);
    let len = v.length();
    assert(0 * SCALE == 0 && 0 * len == 0) by (nonlinear_arith);
    lemma_div_round_exact(0, len);
    assert(div_round(0, len) == 0);
    if v.y == 0 {
        if v.x > 0 {
            lemma_div_round_exact(SCALE as int, len);
            assert(v.x * SCALE == SCALE * len) by (nonlinear_arith)
                requires
                    len == v.x,
            ;
        } else {
            lemma_div_round_exact(-(SCALE as int), len);
            assert(v.x * SCALE == (-(SCALE as int)) * len) by (nonlinear_arith)
                requires
                    len == -v.x,
            ;
        }
    } else {
        if v.y > 0 {
            lemma_div_round_exact(SCALE as int, len);
            assert(v.y * SCALE == SCALE * len) by (nonlinear_arith)
                requires
                    len == v.y,
            ;
        } else {
            lemma_div_round_exact(-(SCALE as int), len);
            assert(v.y * SCALE == (-(SCALE as int)) * len) by (nonlinear_arith)
                requires
                    len == -v.y,
            ;
        }
    }
}

/// A vector along an axis that points the way of `direction` still does so
/// when it is shortened.
pub proof fn lemma_shorter_points_along(v: Point, shorter: Point, direction: Point)
    requires
        points_along(v, direction),
        v.x == 0 || v.y == 0,
        v.x >= 0 ==> 0 <= shorter.x <= v.x,
        v.x <= 0 ==> v.x <= shorter.x <= 0,
        v.y >= 0 ==> 0 <= shorter.y <= v.y,
        v.y <= 0 ==> v.y <= shorter.y <= 0,
    ensures
        points_along(shorter, direction),
{
    if v.x != 0 {
        assert(direction.y == 0) by (nonlinear_arith)
            requires
                v.x * direction.y == v.y * direction.x,
                v.y == 0,
                v.x != 0,
        ;
        assert(shorter.x * direction.x >= 0) by (nonlinear_arith)
            requires
                v.x * direction.x + v.y * direction.y >= 0,
                v.y == 0,
                v.x != 0,
                v.x > 0 ==> 0 <= shorter.x,
                v.x < 0 ==> shorter.x <= 0,
        ;
        assert(shorter.x * direction.y == 0 && shorter.y * direction.x == 0 && shorter.y
            * direction.y == 0) by (nonlinear_arith)
            requires
                direction.y == 0,
                shorter.y == 0,
        ;
    } else if v.y != 0 {
        assert(direction.x == 0) by (nonlinear_arith)
            requires
                v.x * direction.y == v.y * direction.x,
                v.x == 0,
                v.y != 0,
        ;
        assert(shorter.y * direction.y >= 0) by (nonlinear_arith)
            requires
                v.x * direction.x + v.y * direction.y >= 0,
                v.x == 0,
                v.y != 0,
                v.y > 0 ==> 0 <= shorter.y,
                v.y < 0 ==> shorter.y <= 0,
        ;
        assert(shorter.y * direction.x == 0 && shorter.x * direction.y == 0 && shorter.x
            * direction.x == 0) by (nonlinear_arith)
            requires
                direction.x == 0,
                shorter.x == 0,
        ;
    } else {
        assert(shorter.x * direction.y == 0 && shorter.y * direction.x == 0 && shorter.y
            * direction.y == 0 && shorter.x * direction.x == 0) by (nonlinear_arith)
            requires
                shorter.x == 0,
                shorter.y == 0,
        ;
    }
}

/// The length of a path with one more point at its end.
pub proof fn lemma_path_length_push(body: Seq<Point>, p: Point)
    requires
        body.len() >= 1,
    ensures
        path_length(body.push(p)) == path_length(body) + p.subtract(body.last()).length(),
    decreases body.len(),
{
    let longer = body.push(p);
    if body.len() == 1 {
        assert(path_length(longer.skip(1)) == 0);
        assert(path_length(body) == 0);
    } else {
        assert(longer.skip(1) =~= body.skip(1).push(p));
        lemma_path_length_push(body.skip(1), p);
    }
}

/// On a body that runs along the axes, retraction takes the budget off the
/// path to the unit, and what is left runs along the axes, its head heading
/// as before.
pub proof fn lemma_retraction_exact(body: Seq<Point>, budget: int, direction: Point)
    requires
        rectilinear(body),
        0 <= budget,
        body.len() >= 2,
        heads_along(body, direction),
    ensures
        match retract_tail(body, budget) {
            Ok(tail) => path_length(tail) == path_length(body) - budget && rectilinear(tail)
                && heads_along(tail, direction),
            Err(_) => true,
        },
    decreases body.len(),
{
    let segment = body[1].subtract(body[0]);
    let rest = body.skip(1);
    assert(body[0].x == body[1].x || body[0].y == body[1].y);
    lemma_axis_length(segment);
    if segment.length() < budget {
        if body.len() >= 3 {
            assert(rectilinear(rest)) by {
                assert forall|i: int| 0 <= i < rest.len() - 1 implies (#[trigger] rest[i]).x
                    == rest[i + 1].x || rest[i].y == rest[i + 1].y by {
                    assert(rest[i] == body[i + 1]);
                    assert(rest[i + 1] == body[i + 2]);
                }
            }
            assert(rest.last() == body.last());
            assert(rest[rest.len() - 2] == body[body.len() - 2]);
            lemma_retraction_exact(rest, budget - segment.length(), direction);
        } else {
            assert(retract_tail(rest, budget - segment.length()).is_err());
        }
    } else if !segment.is_degenerate() {
        lemma_normalize_axis(segment);
        lemma_fixed_mul_unit(budget);
        let tip = body[0].add(segment.normalize().scale_by(budget));
        let tail = seq![tip] + rest;
        assert(retract_tail(body, budget) == Ok::<Seq<Point>, GameError>(tail));
        assert(tail.skip(1) =~= rest);
        assert(tail[0] == tip && tail[1] == body[1]);
        let shorter = body[1].subtract(tip);
        lemma_axis_length(shorter);
        assert(shorter.length() == segment.length() - budget);
        assert(rectilinear(tail)) by {
            assert forall|i: int| 0 <= i < tail.len() - 1 implies (#[trigger] tail[i]).x == tail[i
                + 1].x || tail[i].y == tail[i + 1].y by {
                if i >= 1 {
                    assert(tail[i] == body[i]);
                    assert(tail[i + 1] == body[i + 1]);
                }
            }
        }
        assert(tail.last() == body.last());
        if body.len() == 2 {
            assert(tail.last().subtract(tail[tail.len() - 2]) == shorter);
            lemma_shorter_points_along(segment, shorter, direction);
        } else {
            assert(tail[tail.len() - 2] == body[body.len() - 2]);
        }
    }
}

/// The boundary that is crossed between two coordinates in different cells
/// lies between them.
pub proof fn lemma_boundary_between(from: int, to: int)
    requires
        cell_index(from) != cell_index(to),
    ensures
        from <= to ==> from <= boundary_coordinate(from, to) <= to,
        to <= from ==> to <= boundary_coordinate(from, to) <= from,
{
    lemma_div_round_error(from, SCALE as int);
    lemma_div_round_error(to, SCALE as int);
    if from <= to {
        lemma_div_round_monotone(from, to, SCALE as int);
    } else {
        lemma_div_round_monotone(to, from, SCALE as int);
    }
}

/// On a step in one of the four directions that crosses a cell boundary, the
/// breakpoint lies on the way, no further from the head than the step is
/// long.
pub proof fn lemma_breakpoint_on_the_way(head: Point, direction: Point, distance: int)
    requires
        is_cardinal(direction),
        0 <= distance,
        crosses_boundary(head, head.add(direction.scale_by(distance))),
    ensures
        0 <= distance_to_breakpoint(head, head.add(direction.scale_by(distance))) <= distance,
        breakpoint(head, head.add(direction.scale_by(distance))) == (Point {
            x: head.x + (direction.x / (SCALE as int)) * distance_to_breakpoint(
                head,
                head.add(direction.scale_by(distance)),
            ),
            y: head.y + (direction.y / (SCALE as int)) * distance_to_breakpoint(
                head,
                head.add(direction.scale_by(distance)),
            ),
        }),
{
    let straight = head.add(direction.scale_by(distance));
    let used = distance_to_breakpoint(head, straight);
    lemma_travel_cardinal(head, direction, distance);
    assert(1 * distance == distance && (-1) * distance == -distance && 0 * distance == 0)
        by (nonlinear_arith);
    assert(1 * used == used && (-1) * used == -used && 0 * used == 0) by (nonlinear_arith);
    if cell_index(head.x) != cell_index(straight.x) {
        lemma_boundary_between(head.x, straight.x);
    } else {
        lemma_boundary_between(head.y, straight.y);
    }
}

/// A segment that points the way of one of the four directions, made longer
/// that way, is longer by just as much and points the same way.
pub proof fn lemma_extend_segment(from: Point, to: Point, direction: Point, by: int)
    requires
        is_cardinal(direction),
        points_along(to.subtract(from), direction),
        0 <= by,
    ensures
        ({
            let further = Point {
                x: to.x + (direction.x / (SCALE as int)) * by,
                y: to.y + (direction.y / (SCALE as int)) * by,
            };
            &&& further.subtract(from).length() == to.subtract(from).length() + by
            &&& points_along(further.subtract(from), direction)
            &&& (from.x == to.x || from.y == to.y)
            &&& (further.x == from.x || further.y == from.y)
            &&& (further.x == to.x || further.y == to.y)
        }),
{
    let further = Point {
        x: to.x + (direction.x / (SCALE as int)) * by,
        y: to.y + (direction.y / (SCALE as int)) * by,
    };
    assert(1 * by == by && (-1) * by == -by && 0 * by == 0) by (nonlinear_arith);
    let v = to.subtract(from);
    let w = further.subtract(from);
    if direction.x != 0 {
        assert(v.y == 0) by (nonlinear_arith)
            requires
                v.x * direction.y == v.y * direction.x,
                direction.y == 0,
                direction.x != 0,
        ;
        lemma_axis_length(v);
        assert(direction.x > 0 ==> v.x >= 0) by (nonlinear_arith)
            requires
                v.x * direction.x + v.y * direction.y >= 0,
                v.y == 0,
        ;
        assert(direction.x < 0 ==> v.x <= 0) by (nonlinear_arith)
            requires
                v.x * direction.x + v.y * direction.y >= 0,
                v.y == 0,
        ;
        assert(w.x * direction.x >= 0) by (nonlinear_arith)
            requires
                direction.x > 0 ==> w.x >= 0,
                direction.x < 0 ==> w.x <= 0,
        ;
        assert(w.x * direction.y == 0 && w.y * direction.x == 0 && w.y * direction.y == 0)
            by (nonlinear_arith)
            requires
                w.y == 0,
                direction.y == 0,
        ;
    } else {
        assert(v.x == 0) by (nonlinear_arith)
            requires
                v.x * direction.y == v.y * direction.x,
                direction.x == 0,
                direction.y != 0,
        ;
        lemma_axis_length(v);
        assert(direction.y > 0 ==> v.y >= 0) by (nonlinear_arith)
            requires
                v.x * direction.x + v.y * direction.y >= 0,
                v.x == 0,
        ;
        assert(direction.y < 0 ==> v.y <= 0) by (nonlinear_arith)
            requires
                v.x * direction.x + v.y * direction.y >= 0,
                v.x == 0,
        ;
        assert(w.y * direction.y >= 0) by (nonlinear_arith)
            requires
                direction.y > 0 ==> w.y >= 0,
                direction.y < 0 ==> w.y <= 0,
        ;
        assert(w.y * direction.x == 0 && w.x * direction.y == 0 && w.x * direction.x == 0)
            by (nonlinear_arith)
            requires
                w.x == 0,
                direction.x == 0,
        ;
    }
    lemma_axis_length(w);
}

/// With the head heading in one of the four directions, along its segment,
/// the head's advance puts the distance on the path to the unit, turn or no
/// turn, and the head then heads in the direction that the step ends in.
pub proof fn lemma_advance_length(tail: Seq<Point>, direction: Point, next: Point, distance: int)
    requires
        tail.len() >= 2,
        heads_along(tail, direction),
        is_cardinal(direction),
        is_cardinal(next),
        0 <= distance,
    ensures
        ({
            let body = tail.drop_last() + head_points(tail.last(), direction, next, distance);
            let heading = if turns(tail.last(), direction, next, distance) {
                next
            } else {
                direction
            };
            &&& body.len() >= 2
            &&& path_length(body) == path_length(tail) + distance
            &&& heads_along(body, heading)
            &&& forall|i: int|
                tail.len() - 2 <= i < body.len() - 1 ==> (#[trigger] body[i]).x == body[i + 1].x
                    || body[i].y == body[i + 1].y
        }),
{
    let head = tail.last();
    let base = tail.drop_last();
    let neck = base.last();
    let straight = head.add(direction.scale_by(distance));
    let body = base + head_points(head, direction, next, distance);
    assert(tail =~= base.push(head));
    assert(neck == tail[tail.len() - 2]);
    lemma_path_length_push(base, head);
    lemma_travel_cardinal(head, direction, distance);
    if turns(head, direction, next, distance) {
        let corner = breakpoint(head, straight);
        let used = distance_to_breakpoint(head, straight);
        let rest = distance - used;
        let turned = corner.add(next.scale_by(rest));
        lemma_breakpoint_on_the_way(head, direction, distance);
        lemma_extend_segment(neck, head, direction, used);
        lemma_travel_cardinal(corner, next, rest);
        assert(points_along(corner.subtract(corner), next)) by (nonlinear_arith)
            requires
                corner.subtract(corner).x == 0,
                corner.subtract(corner).y == 0,
        ;
        lemma_extend_segment(corner, corner, next, rest);
        lemma_axis_length(corner.subtract(corner));
        assert(body =~= base.push(corner).push(turned));
        lemma_path_length_push(base, corner);
        lemma_path_length_push(base.push(corner), turned);
        assert(body.last() == turned && body[body.len() - 2] == corner);
        assert(body[tail.len() - 2] == neck);
    } else {
        lemma_extend_segment(neck, head, direction, distance);
        assert(body =~= base.push(straight));
        lemma_path_length_push(base, straight);
        assert(body.last() == straight && body[body.len() - 2] == neck);
    }
}

/// On a body that runs along the axes, with the head heading in one of the
/// four directions, the head's advance puts the distance on the path to the
/// unit, turn or no turn, and what comes of it runs along the axes, its head
/// heading in the direction that the step ends in.
pub proof fn lemma_advance_exact(tail: Seq<Point>, direction: Point, next: Point, distance: int)
    requires
        tail.len() >= 2,
        rectilinear(tail),
        heads_along(tail, direction),
        is_cardinal(direction),
        is_cardinal(next),
        0 <= distance,
    ensures
        ({
            let body = tail.drop_last() + head_points(tail.last(), direction, next, distance);
            let heading = if turns(tail.last(), direction, next, distance) {
                next
            } else {
                direction
            };
            &&& body.len() >= 2
            &&& path_length(body) == path_length(tail) + distance
            &&& rectilinear(body)
            &&& heads_along(body, heading)
        }),
{
    let body = tail.drop_last() + head_points(tail.last(), direction, next, distance);
    lemma_advance_length(tail, direction, next, distance);
    assert forall|i: int| 0 <= i < body.len() - 1 implies (#[trigger] body[i]).x == body[i + 1].x
        || body[i].y == body[i + 1].y by {
        if i < tail.len() - 2 {
            assert(body[i] == tail[i]);
            assert(body[i + 1] == tail[i + 1]);
        }
    }
}

/// Movement conserves the length of a regular snake: after a step that
/// succeeds, turn or no turn, the path through the body is as long as it
/// was, to the unit, and the state is regular again.
pub proof fn law_movement_conserves_length(
    state: GameModel,
    timespan: int,
    movement: Option<Movement>,
)
    requires
        regular(state),
    ensures
        match step_movement(state, timespan, movement) {
            Ok(after) => path_length(after.body) == path_length(state.body) && regular(after),
            Err(_) => true,
        },
{
    if let Ok(after) = step_movement(state, timespan, movement) {
        let distance = step_distance(state.speed, timespan);
        let tail = retract_tail(state.body, distance).unwrap();
        let next = pending_direction(state.next_direction, movement);
        lemma_retraction_exact(state.body, distance, state.direction);
        law_retraction_keeps_head(state.body, distance);
        lemma_advance_exact(tail, state.direction, next, distance);
    }
}

/// A meal makes a regular snake one cell longer: the path through the body
/// grows by one whole, to the unit, the score goes up by one, and the state
/// is regular again. Without a meal nothing changes.
pub proof fn law_meal_grows_one_cell(state: GameModel, pick: int)
    requires
        regular(state),
    ensures
        match step_food(state, pick) {
            Ok(after) => if eats(state) {
                &&& path_length(after.body) == path_length(state.body) + SCALE
                &&& after.score == state.score + 1
                &&& regular(after)
            } else {
                after == state
            },
            Err(_) => true,
        },
{
    if let Ok(after) = step_food(state, pick) {
        if eats(state) {
            let body = state.body;
            let outward = body[0].subtract(body[1]);
            assert(body[0].x == body[1].x || body[0].y == body[1].y);
            lemma_normalize_axis(outward);
            let tip = body[0].add(outward.normalize());
            let grown = body.update(0, tip);
            assert(after.body == grown);
            assert(grown.skip(1) =~= body.skip(1));
            lemma_axis_length(body[1].subtract(body[0]));
            lemma_axis_length(grown[1].subtract(grown[0]));
            assert forall|i: int| 0 <= i < grown.len() - 1 implies (#[trigger] grown[i]).x
                == grown[i + 1].x || grown[i].y == grown[i + 1].y by {
                if i >= 1 {
                    assert(grown[i] == body[i]);
                    assert(grown[i + 1] == body[i + 1]);
                }
            }
            if body.len() == 2 {
                let v = body[1].subtract(body[0]);
                let w = grown[1].subtract(grown[0]);
                lemma_longer_points_along(v, w, state.direction);
            } else {
                assert(grown.last() == body.last());
                assert(grown[grown.len() - 2] == body[body.len() - 2]);
            }
        }
    }
}

/// A vector along an axis that points the way of `direction` still does so
/// when it is made longer.
pub proof fn lemma_longer_points_along(v: Point, longer: Point, direction: Point)
    requires
        points_along(v, direction),
        v.x != 0 || v.y != 0,
        v.x == 0 || v.y == 0,
        v.x > 0 ==> longer.x >= v.x,
        v.x < 0 ==> longer.x <= v.x,
        v.x == 0 ==> longer.x == 0,
        v.y > 0 ==> longer.y >= v.y,
        v.y < 0 ==> longer.y <= v.y,
        v.y == 0 ==> longer.y == 0,
    ensures
        points_along(longer, direction),
{
    if v.x != 0 {
        assert(direction.y == 0) by (nonlinear_arith)
            requires
                v.x * direction.y == v.y * direction.x,
                v.y == 0,
                v.x != 0,
        ;
        assert(longer.x * direction.x >= 0) by (nonlinear_arith)
            requires
                v.x * direction.x + v.y * direction.y >= 0,
                v.y == 0,
                v.x != 0,
                v.x > 0 ==> longer.x >= v.x,
                v.x < 0 ==> longer.x <= v.x,
        ;
        assert(longer.x * direction.y == 0 && longer.y * direction.x == 0 && longer.y
            * direction.y == 0) by (nonlinear_arith)
            requires
                direction.y == 0,
                longer.y == 0,
        ;
    } else {
        assert(direction.x == 0) by (nonlinear_arith)
            requires
                v.x * direction.y == v.y * direction.x,
                v.x == 0,
                v.y != 0,
        ;
        assert(longer.y * direction.y >= 0) by (nonlinear_arith)
            requires
                v.x * direction.x + v.y * direction.y >= 0,
                v.x == 0,
                v.y != 0,
                v.y > 0 ==> longer.y >= v.y,
                v.y < 0 ==> longer.y <= v.y,
        ;
        assert(longer.y * direction.x == 0 && longer.x * direction.y == 0 && longer.x
            * direction.x == 0) by (nonlinear_arith)
            requires
                direction.x == 0,
                longer.x == 0,
        ;
    }
}

/// A turn waits for the boundary. With the head moving right and a turn up
/// or down pending, a step that succeeds takes the turn exactly where the
/// head's cell index on the x axis changes. The body then gains the
/// breakpoint: on the boundary after the head's old cell, level with the
/// head, and on the way that the step covers; what is left of the distance
/// is traveled in the new direction. Right of the origin the breakpoint's
/// own cell index is the next one. Where the index does not change, the head
/// goes straight on and the turn stays pending.
pub proof fn law_turn_waits_for_boundary(
    state: GameModel,
    timespan: int,
    movement: Option<Movement>,
)
    requires
        state.body.len() >= 2,
        state.direction == movement_direction(Movement::RIGHT),
        pending_direction(state.next_direction, movement) == movement_direction(Movement::UP)
            || pending_direction(state.next_direction, movement) == movement_direction(
            Movement::DOWN,
        ),
    ensures
        match step_movement(state, timespan, movement) {
            Ok(after) => {
                let head = state.body.last();
                let distance = step_distance(state.speed, timespan);
                let next = pending_direction(state.next_direction, movement);
                let corner_x = cell_index(head.x) * SCALE + SCALE / 2;
                let rest = distance - (corner_x - head.x);
                if cell_index(head.x + distance) != cell_index(head.x) {
                    &&& after.direction == next
                    &&& after.body.len() >= 3
                    &&& after.body[after.body.len() - 2] == Point { x: corner_x, y: head.y }
                    &&& after.body.last() == Point {
                        x: corner_x,
                        y: head.y + (next.y / (SCALE as int)) * rest,
                    }
                    &&& head.x <= corner_x <= head.x + distance
                    &&& corner_x >= 0 ==> cell_index(corner_x) == cell_index(head.x) + 1
                } else {
                    &&& after.direction == state.direction
                    &&& after.next_direction == next
                    &&& after.body.last() == Point { x: head.x + distance, y: head.y }
                }
            },
            Err(_) => true,
        },
{
    if let Ok(after) = step_movement(state, timespan, movement) {
        let head = state.body.last();
        let distance = step_distance(state.speed, timespan);
        let next = pending_direction(state.next_direction, movement);
        let tail = retract_tail(state.body, distance).unwrap();
        law_retraction_keeps_head(state.body, distance);
        assert(tail.last() == head);
        lemma_travel_cardinal(head, state.direction, distance);
        assert(1 * distance == distance && 0 * distance == 0) by (nonlinear_arith);
        let straight = head.add(state.direction.scale_by(distance));
        assert(straight == Point { x: head.x + distance, y: head.y });
        assert(turn_admissible(state.direction, next));
        let added = head_points(head, state.direction, next, distance);
        let base = tail.drop_last();
        if cell_index(head.x + distance) != cell_index(head.x) {
            assert(turns(head, state.direction, next, distance));
            lemma_breakpoint_on_the_way(head, state.direction, distance);
            lemma_boundary_between(head.x, straight.x);
            lemma_div_round_monotone(head.x, straight.x, SCALE as int);
            let corner = breakpoint(head, straight);
            let used = distance_to_breakpoint(head, straight);
            assert(1 * used == used && 0 * used == 0) by (nonlinear_arith);
            assert(corner == Point { x: cell_index(head.x) * SCALE + SCALE / 2, y: head.y });
            lemma_travel_cardinal(corner, next, distance - used);
            assert(after.body =~= base.push(added[0]).push(added[1]));
            let index = cell_index(head.x);
            if corner.x >= 0 {
                assert(index >= 0);
                assert((2 * (index * SCALE + SCALE / 2) + SCALE) / (2 * SCALE) == index + 1)
                    by (nonlinear_arith)
                    requires
                        index >= 0,
                ;
            }
        } else {
            assert(!turns(head, state.direction, next, distance));
            assert(after.body =~= base.push(straight));
        }
    }
}

/// A game that starts in one of the four directions starts regular.
pub proof fn law_new_game_regular(
    width: int,
    height: int,
    speed: int,
    length: int,
    direction: Point,
    pick: int,
)
    requires
        is_cardinal(direction),
        0 <= length,
    ensures
        match initial_state(width, height, speed, length, direction, pick) {
            Ok(state) => regular(state) && path_length(state.body) == length * SCALE,
            Err(_) => true,
        },
{
    if let Ok(state) = initial_state(width, height, speed, length, direction, pick) {
        let head = initial_head(width, height);
        let reach = length * SCALE;
        assert(0 <= reach) by (nonlinear_arith)
            requires
                0 <= length,
                reach == length * SCALE,
        ;
        lemma_fixed_mul_unit(reach);
        let tip = head.subtract(direction.scale_by(reach));
        assert(state.body =~= seq![tip, head]);
        let v = head.subtract(tip);
        assert(v == direction.scale_by(reach));
        lemma_axis_length(v);
        assert(points_along(v, direction)) by (nonlinear_arith)
            requires
                is_cardinal(direction),
                0 <= reach,
                direction.x == SCALE ==> v.x == reach && v.y == 0,
                direction.x == -SCALE ==> v.x == -reach && v.y == 0,
                direction.y == SCALE ==> v.y == reach && v.x == 0,
                direction.y == -SCALE ==> v.y == -reach && v.x == 0,
        ;
        assert(path_length(state.body.skip(1)) == 0);
    }
}

/// A vector that points the way of one of the four directions runs along an
/// axis.
pub proof fn lemma_along_cardinal_is_axis(v: Point, direction: Point)
    requires
        is_cardinal(direction),
        points_along(v, direction),
    ensures
        v.x == 0 || v.y == 0,
{
    if direction.x != 0 {
        assert(v.y == 0) by (nonlinear_arith)
            requires
                v.x * direction.y == v.y * direction.x,
                direction.y == 0,
                direction.x != 0,
        ;
    } else {
        assert(v.x == 0) by (nonlinear_arith)
            requires
                v.x * direction.y == v.y * direction.x,
                direction.x == 0,
                direction.y != 0,
        ;
    }
}

/// Retraction leaves the head heading as before: where the segment that ends
/// in the head points the way of one of the four directions, it still does
/// after the tail has retracted, also where the new tip has come to lie on
/// it.
pub proof fn lemma_retraction_keeps_heading(body: Seq<Point>, budget: int, direction: Point)
    requires
        body.len() >= 2,
        0 <= budget,
        is_cardinal(direction),
        heads_along(body, direction),
    ensures
        match retract_tail(body, budget) {
            Ok(tail) => tail.len() >= 2 && heads_along(tail, direction),
            Err(_) => true,
        },
    decreases body.len(),
{
    let segment = body[1].subtract(body[0]);
    let rest = body.skip(1);
    if segment.length() < budget {
        if body.len() >= 3 {
            assert(rest.last() == body.last());
            assert(rest[rest.len() - 2] == body[body.len() - 2]);
            lemma_retraction_keeps_heading(rest, budget - segment.length(), direction);
        } else {
            assert(retract_tail(rest, budget - segment.length()).is_err());
        }
    } else if !segment.is_degenerate() {
        let tip = body[0].add(segment.normalize().scale_by(budget));
        let tail = seq![tip] + rest;
        assert(retract_tail(body, budget) == Ok::<Seq<Point>, GameError>(tail));
        assert(tail.last() == body.last());
        if body.len() == 2 {
            lemma_along_cardinal_is_axis(segment, direction);
            lemma_axis_length(segment);
            lemma_normalize_axis(segment);
            lemma_fixed_mul_unit(budget);
            let shorter = body[1].subtract(tip);
            assert(tail.last().subtract(tail[tail.len() - 2]) == shorter);
            lemma_shorter_points_along(segment, shorter, direction);
        } else {
            assert(tail[tail.len() - 2] == body[body.len() - 2]);
        }
    }
}

/// Where the new tip of the tail is put on a segment, what is left of the
/// segment is shorter by the budget, but for rounding: `SCALE` times the
/// difference is at most the budget and three wholes.
pub proof fn lemma_tip_within(segment: Point, budget: int)
    requires
        !segment.is_degenerate(),
        0 <= budget <= segment.length(),
    ensures
        SCALE * abs(
            segment.subtract(segment.normalize().scale_by(budget)).length() - (segment.length()
                - budget),
        ) <= budget + 3 * SCALE,
{
    let len = segment.length();
    let unit = segment.normalize();
    let step = unit.scale_by(budget);
    let left = segment.subtract(step);
    let k = len * SCALE;
    let j = SCALE * (len - budget);
    assert(0 <= k && 0 <= j) by (nonlinear_arith)
        requires
            k == len * SCALE,
            j == SCALE * (len - budget),
            0 <= budget <= len,
    ;
    let scaled_left = Point { x: k * left.x, y: k * left.y };
    let exact = Point { x: j * segment.x, y: j * segment.y };
    let error = exact.subtract(scaled_left);
    let back = Point { x: -error.x, y: -error.y };
    lemma_div_round_error(segment.x * SCALE, len);
    lemma_div_round_error(segment.y * SCALE, len);
    lemma_div_round_error(unit.x * budget, SCALE as int);
    lemma_div_round_error(unit.y * budget, SCALE as int);
    lemma_tip_error(segment.x, unit.x, step.x, len, budget);
    lemma_tip_error(segment.y, unit.y, step.y, len, budget);
    assert(error.x == len * SCALE * step.x - SCALE * budget * segment.x) by (nonlinear_arith)
        requires
            error.x == j * segment.x - k * (segment.x - step.x),
            k == len * SCALE,
            j == SCALE * (len - budget),
    ;
    assert(error.y == len * SCALE * step.y - SCALE * budget * segment.y) by (nonlinear_arith)
        requires
            error.y == j * segment.y - k * (segment.y - step.y),
            k == len * SCALE,
            j == SCALE * (len - budget),
    ;
    lemma_coordinate_within_length(error);
    lemma_coordinate_within_length(back);
    lemma_multiple_length(left, k);
    lemma_multiple_length(segment, j);
    assert(scaled_left.add(error) == exact);
    lemma_triangle(scaled_left, error);
    assert(exact.add(back) == scaled_left);
    lemma_triangle(exact, back);
    let shorter = left.length();
    let slack = len * budget + len * SCALE;
    assert(SCALE * (shorter - (len - budget)) <= budget + 3 * SCALE && SCALE * ((len - budget)
        - shorter) <= budget + 3 * SCALE) by (nonlinear_arith)
        requires
            len >= EPSILON,
            0 <= budget <= len,
            k == len * SCALE,
            j == SCALE * (len - budget),
            slack == len * budget + len * SCALE,
            k * shorter <= j * len + j + slack + 1,
            j * len <= k * shorter + k + slack + 1,
    {
        assert(k * (len - budget) == j * len);
        assert(j <= k);
        assert(k * (shorter - (len - budget)) <= len * (budget + 2 * SCALE) + 1);
        assert(k * ((len - budget) - shorter) <= len * (budget + 2 * SCALE) + 1);
    }
}

/// The rounding in one coordinate of the new tip: the unit vector is rounded
/// once, and its multiple by the budget once more.
proof fn lemma_tip_error(c: int, unit: int, step: int, len: int, budget: int)
    requires
        0 <= budget <= len,
        2 * abs(c * SCALE - unit * len) <= len,
        2 * abs(unit * budget - step * SCALE) <= SCALE,
    ensures
        2 * abs(len * SCALE * step - SCALE * budget * c) <= len * budget + len * SCALE,
{
    let first = unit * len - c * SCALE;
    let second = step * SCALE - unit * budget;
    assert(len * SCALE * step - SCALE * budget * c == budget * first + len * second)
        by (nonlinear_arith)
        requires
            first == unit * len - c * SCALE,
            second == step * SCALE - unit * budget,
    ;
    assert(2 * abs(budget * first) <= len * budget) by (nonlinear_arith)
        requires
            0 <= budget,
            2 * abs(first) <= len,
    ;
    assert(2 * abs(len * second) <= len * SCALE) by (nonlinear_arith)
        requires
            0 <= len,
            2 * abs(second) <= SCALE,
    ;
}

/// Retraction takes the budget off the path, but for the rounding of the new
/// tip: `SCALE` times the difference is at most the budget and three wholes,
/// whichever way the segments run.
pub proof fn lemma_retraction_within(body: Seq<Point>, budget: int)
    requires
        0 <= budget,
    ensures
        match retract_tail(body, budget) {
            Ok(tail) => SCALE * abs(path_length(tail) - (path_length(body) - budget)) <= budget + 3
                * SCALE,
            Err(_) => true,
        },
    decreases body.len(),
{
    if body.len() >= 2 {
        let segment = body[1].subtract(body[0]);
        let rest = body.skip(1);
        lemma_coordinate_within_length(segment);
        if segment.length() < budget {
            lemma_retraction_within(rest, budget - segment.length());
        } else if !segment.is_degenerate() {
            let tip = body[0].add(segment.normalize().scale_by(budget));
            let tail = seq![tip] + rest;
            assert(retract_tail(body, budget) == Ok::<Seq<Point>, GameError>(tail));
            assert(tail.skip(1) =~= rest);
            assert(tail[1].subtract(tail[0]) == segment.subtract(
                segment.normalize().scale_by(budget),
            ));
            lemma_tip_within(segment, budget);
        }
    }
}

/// Movement conserves the length of the snake, whichever way its tail runs:
/// where the head moves in one of the four directions, along its segment,
/// the path through the body is after a step that succeeds as long as it
/// was, under the tolerance, and the head moves on as it did. On a snake that
/// runs along the axes nothing is rounded
/// (`law_movement_conserves_length`).
pub proof fn law_movement_conserves_within_tolerance(
    state: GameModel,
    timespan: int,
    movement: Option<Movement>,
)
    requires
        state.body.len() >= 2,
        is_cardinal(state.direction),
        is_cardinal(state.next_direction),
        heads_along(state.body, state.direction),
    ensures
        match step_movement(state, timespan, movement) {
            Ok(after) => {
                &&& are_equal_spec(path_length(after.body), path_length(state.body))
                &&& after.body.len() >= 2
                &&& is_cardinal(after.direction)
                &&& is_cardinal(after.next_direction)
                &&& heads_along(after.body, after.direction)
            },
            Err(_) => true,
        },
{
    if let Ok(after) = step_movement(state, timespan, movement) {
        let distance = step_distance(state.speed, timespan);
        let tail = retract_tail(state.body, distance).unwrap();
        let next = pending_direction(state.next_direction, movement);
        lemma_retraction_within(state.body, distance);
        lemma_retraction_keeps_heading(state.body, distance, state.direction);
        lemma_advance_length(tail, state.direction, next, distance);
        let change = path_length(tail) - (path_length(state.body) - distance);
        assert(abs(change) < EPSILON) by (nonlinear_arith)
            requires
                SCALE * abs(change) <= distance + 3 * SCALE,
                0 <= distance <= COORD_LIMIT,
        ;
    }
}

/// The point that lies `by` units from `from` in one of the four
/// directions.
pub open spec fn further(from: Point, direction: Point, by: int) -> Point {
    Point {
        x: from.x + (direction.x / (SCALE as int)) * by,
        y: from.y + (direction.y / (SCALE as int)) * by,
    }
}

/// Two vectors along an axis that point the same way have the same
/// normalized form.
proof fn lemma_same_unit(v: Point, w: Point)
    requires
        v.x == 0 || v.y == 0,
        !v.is_degenerate(),
        !w.is_degenerate(),
        v.x > 0 ==> w.x > 0,
        v.x < 0 ==> w.x < 0,
        v.x == 0 ==> w.x == 0,
        v.y > 0 ==> w.y > 0,
        v.y < 0 ==> w.y < 0,
        v.y == 0 ==> w.y == 0,
    ensures
        v.normalize() == w.normalize(),
{
    lemma_axis_length(v);
    lemma_normalize_axis(v);
    lemma_normalize_axis(w);
}

/// A vector along an axis that is not degenerate, made longer the way it
/// points or shorter without taking all of it, keeps its normalized form.
proof fn lemma_resized_unit(v: Point, direction: Point, w: Point)
    requires
        is_cardinal(direction),
        points_along(v, direction),
        points_along(w, direction),
        !v.is_degenerate(),
        !w.is_degenerate(),
    ensures
        v.normalize() == w.normalize(),
{
    lemma_along_cardinal_is_axis(v, direction);
    lemma_along_cardinal_is_axis(w, direction);
    lemma_axis_length(v);
    lemma_axis_length(w);
    if direction.x != 0 {
        assert(v.y == 0 && w.y == 0) by (nonlinear_arith)
            requires
                v.x * direction.y == v.y * direction.x,
                w.x * direction.y == w.y * direction.x,
                direction.y == 0,
                direction.x != 0,
        ;
        assert((direction.x > 0 ==> v.x >= 0 && w.x >= 0) && (direction.x < 0 ==> v.x <= 0 && w.x
            <= 0)) by (nonlinear_arith)
            requires
                v.x * direction.x + v.y * direction.y >= 0,
                w.x * direction.x + w.y * direction.y >= 0,
                v.y == 0,
                w.y == 0,
        ;
    } else {
        assert(v.x == 0 && w.x == 0) by (nonlinear_arith)
            requires
                v.x * direction.y == v.y * direction.x,
                w.x * direction.y == w.y * direction.x,
                direction.x == 0,
                direction.y != 0,
        ;
        assert((direction.y > 0 ==> v.y >= 0 && w.y >= 0) && (direction.y < 0 ==> v.y <= 0 && w.y
            <= 0)) by (nonlinear_arith)
            requires
                v.x * direction.x + v.y * direction.y >= 0,
                w.x * direction.x + w.y * direction.y >= 0,
                v.x == 0,
                w.x == 0,
        ;
    }
    lemma_same_unit(v, w);
}

/// Retraction does not look at the head: with the head moved on the way it
/// heads, the tail retracts to the same points.
pub proof fn lemma_retraction_ignores_head(
    body: Seq<Point>,
    budget: int,
    direction: Point,
    extra: int,
)
    requires
        body.len() >= 2,
        is_cardinal(direction),
        heads_along(body, direction),
        0 <= extra,
    ensures
        match (
            retract_tail(body, budget),
            retract_tail(body.drop_last().push(further(body.last(), direction, extra)), budget),
        ) {
            (Ok(tail), Ok(other)) => tail.drop_last() == other.drop_last(),
            _ => true,
        },
    decreases body.len(),
{
    let head = further(body.last(), direction, extra);
    let moved = body.drop_last().push(head);
    let segment = body[1].subtract(body[0]);
    let rest = body.skip(1);
    if body.len() == 2 {
        let longer = moved[1].subtract(moved[0]);
        assert(moved[0] == body[0] && moved[1] == head);
        assert(retract_tail(rest, budget - segment.length()).is_err());
        assert(retract_tail(moved.skip(1), budget - longer.length()).is_err());
        if let (Ok(tail), Ok(other)) = (retract_tail(body, budget), retract_tail(moved, budget)) {
            lemma_extend_segment(body[0], body[1], direction, extra);
            lemma_resized_unit(segment, direction, longer);
            assert(tail.drop_last() =~= other.drop_last());
        }
    } else {
        assert(moved[0] == body[0] && moved[1] == body[1]);
        assert(moved.skip(1) =~= rest.drop_last().push(head));
        assert(rest.last() == body.last());
        assert(rest[rest.len() - 2] == body[body.len() - 2]);
        if segment.length() < budget {
            lemma_retraction_ignores_head(rest, budget - segment.length(), direction, extra);
        } else if let (Ok(tail), Ok(other)) = (
            retract_tail(body, budget),
            retract_tail(moved, budget),
        ) {
            assert(tail.drop_last() =~= other.drop_last());
        }
    }
}

/// Retraction can be cut in two: on a body that runs along the axes, the
/// tail retracted by one budget, the head moved on, and the tail retracted
/// by a second budget comes to the same points as the tail retracted by
/// both at once.
pub proof fn lemma_retraction_splits(
    body: Seq<Point>,
    first: int,
    second: int,
    direction: Point,
    extra: int,
)
    requires
        body.len() >= 2,
        rectilinear(body),
        is_cardinal(direction),
        heads_along(body, direction),
        0 <= first,
        0 <= second,
        0 <= extra,
    ensures
        match retract_tail(body, first) {
            Ok(tail) => match (
                retract_tail(
                    tail.drop_last().push(further(body.last(), direction, extra)),
                    second,
                ),
                retract_tail(body, first + second),
            ) {
                (Ok(other), Ok(whole)) => other.drop_last() == whole.drop_last(),
                _ => true,
            },
            Err(_) => true,
        },
    decreases body.len(),
{
    let head = further(body.last(), direction, extra);
    let segment = body[1].subtract(body[0]);
    let rest = body.skip(1);
    let len = segment.length();
    assert(body[0].x == body[1].x || body[0].y == body[1].y);
    lemma_axis_length(segment);
    if len < first {
        if body.len() >= 3 {
            assert(rectilinear(rest)) by {
                assert forall|i: int| 0 <= i < rest.len() - 1 implies (#[trigger] rest[i]).x
                    == rest[i + 1].x || rest[i].y == rest[i + 1].y by {
                    assert(rest[i] == body[i + 1]);
                    assert(rest[i + 1] == body[i + 2]);
                }
            }
            assert(rest.last() == body.last());
            assert(rest[rest.len() - 2] == body[body.len() - 2]);
            lemma_retraction_splits(rest, first - len, second, direction, extra);
        } else {
            assert(retract_tail(rest, first - len).is_err());
        }
    } else if !segment.is_degenerate() {
        lemma_normalize_axis(segment);
        lemma_fixed_mul_unit(first);
        lemma_fixed_mul_unit(second);
        lemma_fixed_mul_unit(first + second);
        let tip = body[0].add(segment.normalize().scale_by(first));
        let tail = seq![tip] + rest;
        assert(retract_tail(body, first) == Ok::<Seq<Point>, GameError>(tail));
        let moved = tail.drop_last().push(head);
        assert(moved[0] == tip);
        let left = moved[1].subtract(moved[0]);
        if let (Ok(other), Ok(whole)) = (
            retract_tail(moved, second),
            retract_tail(body, first + second),
        ) {
            if body.len() == 2 {
                assert(moved =~= seq![tip, head]);
                assert(retract_tail(moved.skip(1), second - left.length()).is_err());
                assert(retract_tail(rest, first + second - len).is_err());
                let shorter = body[1].subtract(tip);
                lemma_shorter_points_along(segment, shorter, direction);
                lemma_extend_segment(tip, body[1], direction, extra);
                lemma_resized_unit(segment, direction, left);
                assert(other.drop_last() =~= whole.drop_last());
            } else {
                assert(moved[1] == body[1]);
                assert(moved.skip(1) =~= rest.drop_last().push(head));
                assert(rest.last() == body.last());
                assert(rest[rest.len() - 2] == body[body.len() - 2]);
                lemma_axis_length(left);
                assert(left.length() == len - first);
                if left.length() < second {
                    lemma_retraction_ignores_head(rest, first + second - len, direction, extra);
                } else {
                    lemma_same_unit(segment, left);
                    assert(other.drop_last() =~= whole.drop_last());
                }
            }
        }
    }
}

/// A step can be cut in two. On a regular snake with no turn to take, where
/// the distances of two time spans add up to the distance of their sum, the
/// two steps one after the other, if they succeed, leave the state that the
/// one step over the whole time leaves, if it succeeds.
pub proof fn law_step_can_be_split(state: GameModel, first: int, second: int)
    requires
        regular(state),
        !turn_admissible(state.direction, state.next_direction),
        step_distance(state.speed, first) + step_distance(state.speed, second) == step_distance(
            state.speed,
            first + second,
        ),
    ensures
        match step_movement(state, first, None) {
            Ok(middle) => match (
                step_movement(middle, second, None),
                step_movement(state, first + second, None),
            ) {
                (Ok(end), Ok(whole)) => end == whole,
                _ => true,
            },
            Err(_) => true,
        },
{
    if let Ok(middle) = step_movement(state, first, None) {
        if let (Ok(end), Ok(whole)) = (
            step_movement(middle, second, None),
            step_movement(state, first + second, None),
        ) {
            let one = step_distance(state.speed, first);
            let two = step_distance(state.speed, second);
            let head = state.body.last();
            let tail = retract_tail(state.body, one).unwrap();
            law_retraction_keeps_head(state.body, one);
            law_retraction_keeps_head(state.body, one + two);
            lemma_travel_cardinal(head, state.direction, one);
            lemma_travel_cardinal(head, state.direction, one + two);
            let mid_head = further(head, state.direction, one);
            assert(middle.body =~= tail.drop_last().push(mid_head));
            law_retraction_keeps_head(middle.body, two);
            lemma_travel_cardinal(mid_head, state.direction, two);
            assert((state.direction.x / (SCALE as int)) * one + (state.direction.x / (SCALE as int))
                * two == (state.direction.x / (SCALE as int)) * (one + two)
                && (state.direction.y / (SCALE as int)) * one + (state.direction.y / (
            SCALE as int)) * two == (state.direction.y / (SCALE as int)) * (one + two))
                by (nonlinear_arith);
            lemma_retraction_splits(state.body, one, two, state.direction, one);
            let other = retract_tail(middle.body, two).unwrap();
            let all = retract_tail(state.body, one + two).unwrap();
            assert(end.body =~= other.drop_last().push(further(mid_head, state.direction, two)));
            assert(whole.body =~= all.drop_last().push(further(head, state.direction, one + two)));
        }
    }
}

} // verus!
