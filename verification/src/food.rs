//! Food placement: which cells of the board the snake leaves free, and the
//! choice of one of them.

use rand::Rng;
use vstd::prelude::*;
use vstd::arithmetic::div_mod::{lemma_fundamental_div_mod_converse, lemma_small_mod};
use crate::error::GameError;
use crate::fixed::SCALE;
use crate::segment::{on_segment, Segment};
use crate::vector::{Point, Vector};

verus! {

/// The mathematical values of a sequence of vectors.
pub open spec fn points(vectors: Seq<Vector>) -> Seq<Point> {
    Seq::new(vectors.len(), |i: int| vectors[i]@)
}

/// Whether every point of a sequence is in range.
pub open spec fn all_in_range(body: Seq<Point>) -> bool {
    forall|i: int| 0 <= i < body.len() ==> (#[trigger] body[i]).in_range()
}

/// Whether every point of a sequence is in reach.
pub open spec fn all_in_reach(body: Seq<Point>) -> bool {
    forall|i: int| 0 <= i < body.len() ==> (#[trigger] body[i]).in_reach()
}

/// The center of the cell in column `x` and row `y`.
pub open spec fn cell_center(x: int, y: int) -> Point {
    Point { x: x * SCALE + SCALE / 2, y: y * SCALE + SCALE / 2 }
}

/// Whether `p` lies on one of the segments between consecutive points of
/// `body`.
pub open spec fn covers(body: Seq<Point>, p: Point) -> bool {
    exists|i: int| 0 <= i < body.len() - 1 && #[trigger] on_segment(body[i], body[i + 1], p)
}

/// The test that a point is not covered by `body`.
pub open spec fn free_of(body: Seq<Point>) -> spec_fn(Point) -> bool {
    |p: Point| !covers(body, p)
}

/// The centers of the first `count` cells of a board with `height` rows, column
/// after column, each column from row 0 up.
pub open spec fn centers(height: int, count: nat) -> Seq<Point> {
    Seq::new(count, |k: int| cell_center(k / height, k % height))
}

/// The centers of the cells that `body` leaves free, in the order of
/// `centers`.
pub open spec fn free_cells(width: int, height: int, body: Seq<Point>) -> Seq<Point> {
    centers(height, (width * height) as nat).filter(free_of(body))
}

/// The choice among the free cells that the number `pick` stands for: none
/// where no cell is free, else the one at `pick` modulo their count.
pub open spec fn chosen_cell(free: Seq<Point>, pick: int) -> Result<Point, GameError> {
    if free.len() == 0 {
        Err(GameError::BoardFull)
    } else {
        Ok(free[pick % (free.len() as int)])
    }
}

/// Every free cell is the center of a cell of the board that `body` does not
/// cover.
pub proof fn lemma_free_cells_are_free(width: int, height: int, body: Seq<Point>, i: int)
    requires
        0 <= width,
        0 < height,
        0 <= i < free_cells(width, height, body).len(),
    ensures
        !covers(body, free_cells(width, height, body)[i]),
        exists|x: int, y: int|
            0 <= x < width && 0 <= y < height && free_cells(width, height, body)[i]
                == #[trigger] cell_center(x, y),
{
    let all = centers(height, (width * height) as nat);
    let free = free_cells(width, height, body);
    all.lemma_filter_pred(free_of(body), i);
    all.lemma_filter_contains_rev(free_of(body), free[i]);
    let k = choose|k: int| 0 <= k < all.len() && all[k] == free[i];
    assert(0 <= k / height < width && 0 <= k % height < height) by (nonlinear_arith)
        requires
            0 <= k < width * height,
            0 < height,
            0 <= width,
    ;
    assert(free[i] == cell_center(k / height, k % height));
}

/// The cell that a number picks among the free cells is in reach.
pub proof fn lemma_chosen_cell_in_reach(width: int, height: int, body: Seq<Point>, pick: int)
    requires
        0 <= width <= u32::MAX,
        0 <= height <= u32::MAX,
        0 <= pick,
    ensures
        match chosen_cell(free_cells(width, height, body), pick) {
            Ok(p) => p.in_reach(),
            Err(e) => e == GameError::BoardFull,
        },
{
    let free = free_cells(width, height, body);
    if free.len() > 0 {
        let i = pick % (free.len() as int);
        if height > 0 {
            lemma_free_cells_are_free(width, height, body, i);
            let (x, y) = choose|x: int, y: int|
                0 <= x < width && 0 <= y < height && free[i] == #[trigger] cell_center(x, y);
            assert(free[i].in_reach());
        } else {
            assert(width * height == 0) by (nonlinear_arith)
                requires
                    height == 0,
            ;
            centers(height, 0).lemma_filter_len(free_of(body));
        }
    }
}

/// A cell of the board whose center `body` does not cover is among the free
/// cells.
pub proof fn law_uncovered_cell_is_free(width: int, height: int, body: Seq<Point>, x: int, y: int)
    requires
        0 <= x < width,
        0 <= y < height,
        !covers(body, cell_center(x, y)),
    ensures
        free_cells(width, height, body).contains(cell_center(x, y)),
{
    let k = x * height + y;
    lemma_fundamental_div_mod_converse(k, height, x, y);
    assert(0 <= k < width * height) by (nonlinear_arith)
        requires
            k == x * height + y,
            0 <= x < width,
            0 <= y < height,
    ;
    let all = centers(height, (width * height) as nat);
    assert(all[k] == cell_center(x, y));
    all.lemma_filter_contains(free_of(body), k);
}

/// The segments between consecutive points, first to last.
pub fn get_segments_from_vectors<'a>(vectors: &'a [Vector]) -> (segments: Vec<Segment<'a>>)
    requires
        vectors@.len() >= 1,
    ensures
        segments@.len() == vectors@.len() - 1,
        forall|i: int|
            0 <= i < segments@.len() ==> *(#[trigger] segments@[i]).start == vectors@[i]
                && *segments@[i].end == vectors@[i + 1],
{
    let mut segments: Vec<Segment<'a>> = Vec::new();
    let count: usize = vectors.len();
    let mut i: usize = 0;
    while i + 1 < count
        invariant
            count == vectors@.len(),
            i < count,
            segments@.len() == i,
            forall|j: int|
                0 <= j < i ==> *(#[trigger] segments@[j]).start == vectors@[j] && *segments@[j].end
                    == vectors@[j + 1],
        decreases vectors@.len() - i,
    {
        segments.push(Segment::new(&vectors[i], &vectors[i + 1]));
        i += 1;
    }
    segments
}

/// Whether `point` lies on the snake.
pub fn is_covered(snake: &[Vector], point: &Vector) -> (r: bool)
    requires
        all_in_reach(points(snake@)),
        point@.in_reach(),
    ensures
        r == covers(points(snake@), point@),
{
    if snake.len() == 0 {
        return false;
    }
    let segments = get_segments_from_vectors(snake);
    let mut i: usize = 0;
    while i < segments.len()
        invariant
            i <= segments@.len(),
            segments@.len() == snake@.len() - 1,
            all_in_reach(points(snake@)),
            point@.in_reach(),
            forall|j: int|
                0 <= j < segments@.len() ==> *(#[trigger] segments@[j]).start == snake@[j]
                    && *segments@[j].end == snake@[j + 1],
            forall|j: int|
                0 <= j < i ==> !#[trigger] on_segment(
                    points(snake@)[j],
                    points(snake@)[j + 1],
                    point@,
                ),
        decreases segments@.len() - i,
    {
        assert(points(snake@)[i as int].in_reach() && points(snake@)[i as int + 1].in_reach());
        if segments[i].is_point_inside(point) {
            assert(on_segment(points(snake@)[i as int], points(snake@)[i as int + 1], point@));
            return true;
        }
        i += 1;
    }
    false
}

/// The centers of the cells of a `width` by `height` board that the snake
/// leaves free, column after column.
pub fn free_positions(width: u32, height: u32, snake: &[Vector]) -> (free: Vec<Vector>)
    requires
        all_in_reach(points(snake@)),
    ensures
        points(free@) == free_cells(width as int, height as int, points(snake@)),
{
    let mut free: Vec<Vector> = Vec::new();
    let ghost body = points(snake@);
    proof {
        reveal(Seq::filter);
        assert(points(free@) =~= centers(height as int, 0).filter(free_of(body)));
    }
    let mut x: u32 = 0;
    while x < width
        invariant
            x <= width,
            body == points(snake@),
            all_in_reach(body),
            points(free@) == centers(height as int, (x * height) as nat).filter(free_of(body)),
        decreases width - x,
    {
        let mut y: u32 = 0;
        while y < height
            invariant
                x < width,
                y <= height,
                body == points(snake@),
                all_in_reach(body),
                points(free@) == centers(height as int, (x * height + y) as nat).filter(
                    free_of(body),
                ),
            decreases height - y,
        {
            let point = Vector::new(
                x as i64 * SCALE + SCALE / 2,
                y as i64 * SCALE + SCALE / 2,
            );
            let covered = is_covered(snake, &point);
            proof {
                let k = x * height + y;
                assert(0 <= k) by (nonlinear_arith)
                    requires
                        k == x * height + y,
                        0 <= x,
                        0 <= height,
                        0 <= y,
                ;
                lemma_fundamental_div_mod_converse(k, height as int, x as int, y as int);
                let longer = centers(height as int, (k + 1) as nat);
                assert(longer.drop_last() =~= centers(height as int, k as nat));
                assert(longer.last() == point@);
                reveal(Seq::filter);
                assert(longer.filter(free_of(body)) == if covered {
                    centers(height as int, k as nat).filter(free_of(body))
                } else {
                    centers(height as int, k as nat).filter(free_of(body)).push(point@)
                });
            }
            let ghost before = free@;
            if !covered {
                free.push(point);
                assert(points(free@) =~= points(before).push(point@));
            }
            y += 1;
        }
        proof {
            assert(x * height + height == (x + 1) * height) by (nonlinear_arith);
        }
        x += 1;
    }
    free
}

/// The cell among `free` that the number `pick` stands for; `BoardFull` where
/// there is none to choose from.
pub fn select_food(free: &Vec<Vector>, pick: usize) -> (res: Result<Vector, GameError>)
    ensures
        match chosen_cell(points(free@), pick as int) {
            Ok(p) => res.is_ok() && res.unwrap()@ == p,
            Err(e) => res == Err::<Vector, GameError>(e),
        },
{
    if free.len() == 0 {
        return Err(GameError::BoardFull);
    }
    let index: usize = pick % free.len();
    Ok(free[index])
}

/// A number below `bound`, drawn from the thread's random number generator
/// by `rand::Rng::gen_range` with 0 as the lower end. Nothing is claimed of
/// the draw but its range; the generator refuses an empty range, which
/// `bound > 0` rules out.
#[verifier::external_body]
fn random_index(bound: usize) -> (index: usize)
    requires
        bound > 0,
    ensures
        index < bound,
{
    rand::thread_rng().gen_range(0, bound)
}

/// A free cell for the food, drawn at random among those that the snake does
/// not cover; `BoardFull` where it covers them all.
pub fn get_food(width: u32, height: u32, snake: &[Vector]) -> (res: Result<Vector, GameError>)
    requires
        all_in_reach(points(snake@)),
    ensures
        match res {
            Ok(food) => free_cells(width as int, height as int, points(snake@)).contains(food@)
                && exists|pick: int|
                0 <= pick <= usize::MAX && #[trigger] chosen_cell(
                    free_cells(width as int, height as int, points(snake@)),
                    pick,
                ) == Ok::<Point, GameError>(food@),
            Err(e) => e == GameError::BoardFull && free_cells(
                width as int,
                height as int,
                points(snake@),
            ).len() == 0,
        },
{
    let free = free_positions(width, height, snake);
    if free.len() == 0 {
        return Err(GameError::BoardFull);
    }
    let index: usize = random_index(free.len());
    proof {
        lemma_small_mod(index as nat, free@.len());
        assert(points(free@)[index as int] == free@[index as int]@);
        assert(chosen_cell(points(free@), index as int) == Ok::<Point, GameError>(
            free@[index as int]@,
        ));
    }
    Ok(free[index])
}

} // verus!
