use snake_core::game::Game;
use snake_core::model::Movement;
use snake_core::segment::Segment;
use snake_core::vector::Vector;

const EPSILON: f64 = 0.01;

fn fx(value: f64) -> i64 {
    (value * 1_000_000.0).round() as i64
}

fn are_equal(a: f64, b: f64) -> bool {
    (a - b).abs() < EPSILON
}

/// The same snake in floating point: a body, a direction and a pending one.
struct FloatSnake {
    body: Vec<(f64, f64)>,
    direction: (f64, f64),
    next_direction: (f64, f64),
}

fn float_direction(movement: Movement) -> (f64, f64) {
    match movement {
        Movement::UP => (0.0, -1.0),
        Movement::DOWN => (0.0, 1.0),
        Movement::RIGHT => (1.0, 0.0),
        Movement::LEFT => (-1.0, 0.0),
    }
}

impl FloatSnake {
    fn step(&mut self, distance: f64, movement: Option<Movement>) {
        let mut budget = distance;
        let mut tail: Vec<(f64, f64)> = Vec::new();
        while self.body.len() > 1 {
            let point = self.body.remove(0);
            let next = self.body[0];
            let (dx, dy) = (next.0 - point.0, next.1 - point.1);
            let length = dx.hypot(dy);
            if length < budget {
                budget -= length;
            } else {
                tail.push((point.0 + dx / length * budget, point.1 + dy / length * budget));
                break;
            }
        }
        tail.append(&mut self.body);
        self.body = tail;
        let old = self.body.pop().unwrap();
        let straight = (old.0 + self.direction.0 * distance, old.1 + self.direction.1 * distance);
        if let Some(m) = movement {
            self.next_direction = float_direction(m);
        }
        let (d, n) = (self.direction, self.next_direction);
        let opposite = are_equal(d.0 + n.0, 0.0) && are_equal(d.1 + n.1, 0.0);
        let same = are_equal(d.0, n.0) && are_equal(d.1, n.1);
        let x_changed = old.0.round() != straight.0.round();
        let y_changed = old.1.round() != straight.1.round();
        if !opposite && !same && (x_changed || y_changed) {
            let (from, to) = if x_changed { (old.0, straight.0) } else { (old.1, straight.1) };
            let line = from.round() + if to.round() > from.round() { 0.5 } else { -0.5 };
            let corner = if x_changed { (line, old.1) } else { (old.0, line) };
            let rest = distance - (from - line).abs();
            self.body.push(corner);
            self.body.push((corner.0 + n.0 * rest, corner.1 + n.1 * rest));
            self.direction = n;
        } else {
            self.body.push(straight);
        }
    }
}

fn assert_agree(game: &Game, float: &FloatSnake, step: usize) {
    let snake = game.get_snake();
    assert_eq!(snake.len(), float.body.len(), "step {}", step);
    for (fixed, (x, y)) in snake.iter().zip(float.body.iter()) {
        assert!((fixed.x as f64 / 1e6 - x).abs() < 1e-6, "step {}: x {} {}", step, fixed.x, x);
        assert!((fixed.y as f64 / 1e6 - y).abs() < 1e-6, "step {}: y {} {}", step, fixed.y, y);
    }
    assert_eq!(game.direction().x as f64 / 1e6, float.direction.0, "step {}", step);
    assert_eq!(game.direction().y as f64 / 1e6, float.direction.1, "step {}", step);
}

fn run(seed: u64, speed: i64, timespan: i64, steps: usize) {
    let mut game = Game::new_with(10, 10, speed, 3, Vector::new(fx(1.0), 0), 0).unwrap();
    // The food is out of the way: this is about movement alone.
    game.food = Vector::new(fx(-1000.5), fx(-1000.5));
    let mut float = FloatSnake {
        body: vec![(1.5, 4.5), (4.5, 4.5)],
        direction: (1.0, 0.0),
        next_direction: (1.0, 0.0),
    };
    let distance = (speed as i128 * timespan as i128 + 500_000) / 1_000_000;
    let commands = [Movement::UP, Movement::DOWN, Movement::RIGHT, Movement::LEFT];
    let mut state = seed;
    for step in 0..steps {
        state = state.wrapping_mul(6364136223846793005).wrapping_add(1442695040888963407);
        let draw = (state >> 33) % 40;
        let movement = if draw < 4 { Some(commands[draw as usize]) } else { None };
        assert_eq!(game.process_with(timespan, movement, 0), Ok(()), "step {}", step);
        float.step(distance as f64 / 1e6, movement);
        assert_agree(&game, &float, step);
    }
    let mut total = 0;
    let snake = game.get_snake();
    for i in 1..snake.len() {
        total += Segment::new(&snake[i - 1], &snake[i]).length();
    }
    assert_eq!(total, fx(3.0));
}

#[test]
fn the_fixed_point_snake_moves_as_the_floating_point_one() {
    // 0.073113 cells a step: no head ever comes to lie on a boundary.
    run(1, 7_311, 10_000_300, 3000);
}

#[test]
fn the_two_snakes_agree_on_long_steps() {
    // 1.618033 cells a step: more than one boundary is crossed in a step.
    run(7, 161_803, 10_000_020, 2000);
}

#[test]
fn the_two_snakes_agree_on_steps_just_above_the_tolerance() {
    // 0.01234 cells a step.
    run(42, 1_234, 10_000_300, 5000);
}
