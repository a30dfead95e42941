use snake_core::error::GameError;
use snake_core::food::is_covered;
use snake_core::game::Game;
use snake_core::model::Movement;
use snake_core::segment::Segment;
use snake_core::vector::Vector;

fn fx(value: f64) -> i64 {
    (value * 1_000_000.0).round() as i64
}

fn vector(x: f64, y: f64) -> Vector {
    Vector::new(fx(x), fx(y))
}

fn right() -> Vector {
    vector(1.0, 0.0)
}

fn path_length(snake: &[Vector]) -> i64 {
    let mut total: i64 = 0;
    for i in 1..snake.len() {
        total += Segment::new(&snake[i - 1], &snake[i]).length();
    }
    total
}

/// A 10 by 10 board, the snake three cells long and heading right, at one
/// hundredth of a cell per millisecond.
fn ten_by_ten() -> Game {
    Game::new_with(10, 10, fx(0.01), 3, right(), 0).unwrap()
}

#[test]
fn commands_stand_for_unit_vectors() {
    assert_eq!(Movement::UP.direction(), vector(0.0, -1.0));
    assert_eq!(Movement::DOWN.direction(), vector(0.0, 1.0));
    assert_eq!(Movement::RIGHT.direction(), vector(1.0, 0.0));
    assert_eq!(Movement::LEFT.direction(), vector(-1.0, 0.0));
}

#[test]
fn a_new_game_has_its_snake_in_the_middle() {
    let game = ten_by_ten();
    assert_eq!(game.width(), 10);
    assert_eq!(game.height(), 10);
    assert_eq!(game.speed(), fx(0.01));
    assert_eq!(game.score(), 0);
    assert_eq!(game.direction(), right());
    assert_eq!(game.next_direction(), right());
    assert_eq!(game.get_snake(), vec![vector(1.5, 4.5), vector(4.5, 4.5)]);
    assert_eq!(game.food(), vector(0.5, 0.5));
}

#[test]
fn the_fields_and_the_accessors_agree() {
    let game = ten_by_ten();
    assert_eq!(game.width, game.width());
    assert_eq!(game.height, game.height());
    assert_eq!(game.speed, game.speed());
    assert_eq!(game.score, game.score());
    assert_eq!(game.direction, game.direction());
    assert_eq!(game.next_direction, game.next_direction());
    assert_eq!(game.food, game.food());
}

#[test]
fn the_head_starts_half_a_cell_before_the_rounded_middle() {
    // Half of 5 is 2.5, which rounds to 3; half of 7 rounds to 4.
    let game = Game::new_with(5, 7, fx(0.01), 1, vector(0.0, 1.0), 0).unwrap();
    assert_eq!(game.get_snake(), vec![vector(2.5, 2.5), vector(2.5, 3.5)]);
    // The width decides the column and the height the row.
    let wide = Game::new_with(20, 4, fx(0.01), 2, vector(-1.0, 0.0), 0).unwrap();
    assert_eq!(wide.get_snake(), vec![vector(11.5, 1.5), vector(9.5, 1.5)]);
}

#[test]
fn the_first_food_is_the_free_cell_that_was_picked() {
    // Column 0 comes first, rows 0 to 9; then column 1, whose row 4 the
    // snake covers.
    assert_eq!(Game::new_with(10, 10, 1, 3, right(), 9).unwrap().food(), vector(0.5, 9.5));
    assert_eq!(Game::new_with(10, 10, 1, 3, right(), 10).unwrap().food(), vector(1.5, 0.5));
    assert_eq!(Game::new_with(10, 10, 1, 3, right(), 14).unwrap().food(), vector(1.5, 5.5));
    // 96 cells are free.
    assert_eq!(Game::new_with(10, 10, 1, 3, right(), 96).unwrap().food(), vector(0.5, 0.5));
}

#[test]
fn a_new_game_draws_its_food_among_the_free_cells() {
    for _ in 0..100 {
        let game = Game::new(4, 4, fx(0.01), 2, right()).unwrap();
        let food = game.food();
        assert!(!is_covered(&game.get_snake(), &food));
        assert!(0 < food.x && food.x < fx(4.0) && 0 < food.y && food.y < fx(4.0));
        assert_eq!((food.x - fx(0.5)) % fx(1.0), 0);
        assert_eq!((food.y - fx(0.5)) % fx(1.0), 0);
    }
}

#[test]
fn a_new_game_fails_on_a_board_that_the_snake_fills() {
    assert_eq!(
        Game::new_with(1, 1, fx(0.01), 1, right(), 0).err(),
        Some(GameError::BoardFull)
    );
    assert_eq!(Game::new(1, 1, fx(0.01), 1, right()).err(), Some(GameError::BoardFull));
}

#[test]
fn a_new_game_fails_beyond_the_range_of_coordinates() {
    let huge = Vector::new(i64::MAX, 0);
    assert_eq!(
        Game::new_with(10, 10, fx(0.01), 3, huge, 0).err(),
        Some(GameError::OutOfRange)
    );
    assert_eq!(Game::new(10, 10, fx(0.01), 3, huge).err(), Some(GameError::OutOfRange));
    let beyond = vector(2500.000001, 0.0);
    assert_eq!(
        Game::new_with(10, 10, fx(0.01), 0, beyond, 0).err(),
        Some(GameError::OutOfRange)
    );
    // The direction is in range, the tip of the tail is not.
    let long = vector(2500.0, 0.0);
    assert!(Game::new_with(10, 10, fx(0.01), 0, long, 0).is_ok());
    assert_eq!(
        Game::new_with(10, 10, fx(0.01), 3, long, 0).err(),
        Some(GameError::OutOfRange)
    );
}

#[test]
fn a_new_game_fails_on_a_board_whose_middle_is_out_of_range() {
    // The head would lie at 2500.5 cells.
    assert_eq!(
        Game::new_with(5002, 4, fx(0.01), 3, right(), 0).err(),
        Some(GameError::OutOfRange)
    );
    assert_eq!(
        Game::new_with(4, 5002, fx(0.01), 3, right(), 0).err(),
        Some(GameError::OutOfRange)
    );
    let game = Game::new_with(5000, 2, fx(0.01), 3, right(), 0).unwrap();
    assert_eq!(game.get_snake(), vec![vector(2496.5, 0.5), vector(2499.5, 0.5)]);
}

#[test]
fn a_step_out_of_the_range_of_the_snake_is_refused() {
    let mut game = Game::new_with(5000, 2, fx(1.0), 3, right(), 0).unwrap();
    // The head is at 2499.5 cells: half a cell is left, and the tip of the
    // tail follows.
    assert_eq!(game.process_movement(fx(0.5), None), Ok(()));
    assert_eq!(game.get_snake(), vec![vector(2497.0, 0.5), vector(2500.0, 0.5)]);
    assert_eq!(game.process_movement(fx(0.000001), None), Err(GameError::OutOfRange));
    assert_eq!(game.get_snake(), vec![vector(2497.0, 0.5), vector(2500.0, 0.5)]);
}

#[test]
fn a_step_cut_in_two_leaves_the_same_state() {
    let mut whole = ten_by_ten();
    let mut parts = ten_by_ten();
    // Round a corner first, so that the tail has more than one segment.
    assert_eq!(whole.process_movement(fx(150.0), Some(Movement::DOWN)), Ok(()));
    assert_eq!(parts.process_movement(fx(150.0), Some(Movement::DOWN)), Ok(()));
    let cuts = [(30.0, 20.0), (0.1, 99.9), (249.0, 1.0), (125.0, 125.0), (7.0, 0.5)];
    for (first, second) in cuts {
        assert_eq!(whole.process_movement(fx(first + second), None), Ok(()));
        assert_eq!(parts.process_movement(fx(first), None), Ok(()));
        assert_eq!(parts.process_movement(fx(second), None), Ok(()));
        assert_eq!(parts.get_snake(), whole.get_snake(), "{} + {}", first, second);
        assert_eq!(parts.direction(), whole.direction());
    }
    assert_eq!(whole.get_snake(), vec![vector(5.5, 8.575), vector(5.5, 11.575)]);
}

#[test]
fn the_setters_change_one_value_each() {
    let mut game = ten_by_ten();
    game.set_food(vector(7.5, 2.5));
    game.set_speed(fx(0.25));
    game.set_score(41);
    game.set_direction(vector(0.0, 1.0));
    game.set_next_direction(vector(-1.0, 0.0));
    assert_eq!(game.food(), vector(7.5, 2.5));
    assert_eq!(game.speed(), fx(0.25));
    assert_eq!(game.score(), 41);
    assert_eq!(game.direction(), vector(0.0, 1.0));
    assert_eq!(game.next_direction(), vector(-1.0, 0.0));
    assert_eq!(game.width(), 10);
    assert_eq!(game.height(), 10);
    assert_eq!(game.get_snake(), vec![vector(1.5, 4.5), vector(4.5, 4.5)]);
}

#[test]
fn food_that_is_set_on_the_head_segment_is_eaten() {
    let mut game = ten_by_ten();
    game.set_food(vector(3.0, 4.5));
    game.set_score(7);
    assert!(game.reaches_food());
    assert_eq!(game.process_food_with(0), Ok(()));
    assert_eq!(game.score(), 8);
    assert_eq!(game.get_snake(), vec![vector(0.5, 4.5), vector(4.5, 4.5)]);
    assert_eq!(game.food(), vector(0.5, 0.5));
}

#[test]
fn movement_conserves_the_length_of_a_snake_whose_tail_runs_off_the_axes() {
    // The snake starts askew, three cells long, and turns up at the first
    // boundary: from then on its head moves along an axis, its tail does not.
    let mut game = Game::new_with(10, 10, fx(0.01), 3, vector(0.6, 0.8), 0).unwrap();
    assert_eq!(game.get_snake(), vec![vector(2.7, 2.1), vector(4.5, 4.5)]);
    // A step of 1.5 cells, to (5.4, 5.7) were it straight: the row changes.
    assert_eq!(game.process_movement(fx(150.0), Some(Movement::UP)), Ok(()));
    assert_eq!(game.direction(), vector(0.0, -1.0));
    let snake = game.get_snake();
    assert_eq!(snake, vec![vector(3.6, 3.3), vector(4.5, 5.5), vector(4.5, 5.0)]);
    let mut length = path_length(&snake);
    for step in 0..30 {
        assert_eq!(game.process_movement(fx(7.3), None), Ok(()), "step {}", step);
        let after = path_length(&game.get_snake());
        assert!((after - length).abs() < 10_000, "step {}: {} {}", step, length, after);
        // A step of 0.073 cells: what rounding does is far below the bound.
        assert!((after - length).abs() <= 3, "step {}: {} {}", step, length, after);
        length = after;
    }
}

#[test]
fn the_snake_moves_by_speed_times_timespan() {
    let mut game = ten_by_ten();
    // 0.01 cells per millisecond for 20 milliseconds: 0.2 cells.
    assert_eq!(game.process_movement(fx(20.0), None), Ok(()));
    assert_eq!(game.get_snake(), vec![vector(1.7, 4.5), vector(4.7, 4.5)]);
    assert_eq!(game.process_movement(fx(12.5), None), Ok(()));
    assert_eq!(game.get_snake(), vec![vector(1.825, 4.5), vector(4.825, 4.5)]);
    assert_eq!(game.direction(), right());
    assert_eq!(game.score(), 0);
}

#[test]
fn a_step_of_no_time_moves_nothing() {
    let mut game = ten_by_ten();
    assert_eq!(game.process_movement(0, None), Ok(()));
    assert_eq!(game.get_snake(), vec![vector(1.5, 4.5), vector(4.5, 4.5)]);
}

#[test]
fn movement_conserves_the_length_of_the_snake() {
    let mut game = ten_by_ten();
    let before = path_length(&game.get_snake());
    assert_eq!(before, fx(3.0));
    let commands = [
        None,
        Some(Movement::UP),
        None,
        None,
        Some(Movement::LEFT),
        None,
        None,
        Some(Movement::DOWN),
        None,
        Some(Movement::RIGHT),
        None,
        None,
    ];
    for round in 0..20 {
        for command in commands {
            assert_eq!(game.process_movement(fx(37.0), command), Ok(()));
            assert_eq!(path_length(&game.get_snake()), before, "round {}", round);
        }
    }
}

#[test]
fn a_step_as_long_as_the_snake_brings_the_tail_to_the_old_head() {
    let mut game = ten_by_ten();
    assert_eq!(game.process_movement(fx(300.0), None), Ok(()));
    assert_eq!(game.get_snake(), vec![vector(4.5, 4.5), vector(7.5, 4.5)]);
}

#[test]
fn a_negative_timespan_is_refused() {
    let mut game = ten_by_ten();
    assert_eq!(game.process_movement(-1, None), Err(GameError::InvalidTimespan));
    assert_eq!(game.process_movement(fx(-20.0), Some(Movement::UP)), Err(GameError::InvalidTimespan));
    assert_eq!(game.process_with(fx(-20.0), None, 0), Err(GameError::InvalidTimespan));
    assert_eq!(game.process(fx(-20.0), None), Err(GameError::InvalidTimespan));
    assert_eq!(game.get_snake(), vec![vector(1.5, 4.5), vector(4.5, 4.5)]);
    assert_eq!(game.next_direction(), right());
}

#[test]
fn a_negative_speed_is_refused() {
    let mut game = Game::new_with(10, 10, fx(-0.01), 3, right(), 0).unwrap();
    assert_eq!(game.process_movement(fx(20.0), None), Err(GameError::InvalidTimespan));
    assert_eq!(game.process_movement(0, None), Ok(()));
}

#[test]
fn a_step_longer_than_the_snake_is_refused() {
    let mut game = ten_by_ten();
    assert_eq!(game.process_movement(fx(300.0) + 100, None), Err(GameError::InvalidTimespan));
    assert_eq!(game.process_movement(fx(5000.0), None), Err(GameError::InvalidTimespan));
    assert_eq!(game.get_snake(), vec![vector(1.5, 4.5), vector(4.5, 4.5)]);
}

#[test]
fn a_step_beyond_the_range_of_coordinates_is_refused() {
    let mut game = Game::new_with(10, 10, i64::MAX, 3, right(), 0).unwrap();
    assert_eq!(game.process_movement(i64::MAX, None), Err(GameError::OutOfRange));
    assert_eq!(game.get_snake(), vec![vector(1.5, 4.5), vector(4.5, 4.5)]);
}

#[test]
fn a_tail_too_short_to_have_a_direction_is_refused() {
    let mut game = Game::new_with(10, 10, fx(0.01), 0, right(), 0).unwrap();
    assert_eq!(game.get_snake(), vec![vector(4.5, 4.5), vector(4.5, 4.5)]);
    assert_eq!(game.process_movement(0, None), Err(GameError::DegenerateVector));
    assert_eq!(game.get_snake(), vec![vector(4.5, 4.5), vector(4.5, 4.5)]);
}

#[test]
fn a_turn_waits_for_the_cell_boundary() {
    let mut game = ten_by_ten();
    // Steps of 0.3 cells. The head, at 4.5, is in cell 5 already.
    assert_eq!(game.process_movement(fx(30.0), Some(Movement::UP)), Ok(()));
    assert_eq!(game.direction(), right());
    assert_eq!(game.next_direction(), vector(0.0, -1.0));
    assert_eq!(game.get_snake(), vec![vector(1.8, 4.5), vector(4.8, 4.5)]);
    assert_eq!(game.process_movement(fx(30.0), None), Ok(()));
    assert_eq!(game.process_movement(fx(30.0), None), Ok(()));
    assert_eq!(game.direction(), right());
    assert_eq!(game.get_snake(), vec![vector(2.4, 4.5), vector(5.4, 4.5)]);
    // From 5.4 to 5.7 the head enters cell 6, at 5.5.
    assert_eq!(game.process_movement(fx(30.0), None), Ok(()));
    assert_eq!(game.direction(), vector(0.0, -1.0));
    assert_eq!(game.next_direction(), vector(0.0, -1.0));
    assert_eq!(
        game.get_snake(),
        vec![vector(2.7, 4.5), vector(5.5, 4.5), vector(5.5, 4.3)]
    );
    // The breakpoint rounds to the new cell, and lies level with the old head.
    let breakpoint = game.get_snake()[1];
    assert_eq!((breakpoint.x as f64 / 1_000_000.0).round(), 6.0);
    assert_eq!(breakpoint.y, fx(4.5));
}

#[test]
fn a_turn_is_taken_in_the_step_that_commands_it_if_it_crosses() {
    let mut game = ten_by_ten();
    assert_eq!(game.process_movement(fx(150.0), Some(Movement::DOWN)), Ok(()));
    assert_eq!(game.direction(), vector(0.0, 1.0));
    assert_eq!(
        game.get_snake(),
        vec![vector(3.0, 4.5), vector(5.5, 4.5), vector(5.5, 5.0)]
    );
}

#[test]
fn a_turn_at_the_boundary_itself_leaves_the_whole_distance() {
    let mut game = ten_by_ten();
    // The head comes to lie on the boundary at 5.5, which belongs to cell 6.
    assert_eq!(game.process_movement(fx(100.0), None), Ok(()));
    assert_eq!(game.get_snake(), vec![vector(2.5, 4.5), vector(5.5, 4.5)]);
    assert_eq!(game.process_movement(fx(20.0), Some(Movement::UP)), Ok(()));
    assert_eq!(game.direction(), right());
    // The next boundary is at 6.5.
    assert_eq!(game.process_movement(fx(100.0), None), Ok(()));
    assert_eq!(game.direction(), vector(0.0, -1.0));
    assert_eq!(
        game.get_snake(),
        vec![vector(3.7, 4.5), vector(6.5, 4.5), vector(6.5, 4.3)]
    );
}

#[test]
fn a_turn_left_of_the_origin_goes_by_the_boundary_on_the_way() {
    let mut game = Game::new_with(10, 10, fx(0.01), 3, vector(-1.0, 0.0), 0).unwrap();
    assert_eq!(game.get_snake(), vec![vector(7.5, 4.5), vector(4.5, 4.5)]);
    // From 4.5 (cell 5) to 4.4 (cell 4): the boundary is at 4.5 itself.
    assert_eq!(game.process_movement(fx(10.0), Some(Movement::DOWN)), Ok(()));
    assert_eq!(game.direction(), vector(0.0, 1.0));
    assert_eq!(
        game.get_snake(),
        vec![vector(7.4, 4.5), vector(4.5, 4.5), vector(4.5, 4.6)]
    );
}

#[test]
fn a_long_step_turns_at_the_first_boundary() {
    let mut game = ten_by_ten();
    // From 4.5 to 7.0: three boundaries are crossed, the turn is at 5.5.
    assert_eq!(game.process_movement(fx(250.0), Some(Movement::UP)), Ok(()));
    assert_eq!(
        game.get_snake(),
        vec![vector(4.0, 4.5), vector(5.5, 4.5), vector(5.5, 3.0)]
    );
    assert_eq!(path_length(&game.get_snake()), fx(3.0));
}

#[test]
fn the_x_axis_decides_where_both_cell_indices_change() {
    // A diagonal heading is not one of the four directions; the step from
    // (4.5, 4.5) to (5.5, 5.5) changes the cell on both axes.
    let mut game = Game::new_with(10, 10, fx(0.01), 3, vector(1.0, 1.0), 0).unwrap();
    assert_eq!(game.get_snake(), vec![vector(1.5, 1.5), vector(4.5, 4.5)]);
    assert_eq!(game.process_movement(fx(100.0), Some(Movement::UP)), Ok(()));
    assert_eq!(game.direction(), vector(0.0, -1.0));
    let snake = game.get_snake();
    assert_eq!(snake.len(), 3);
    // The breakpoint is on the x boundary, level with the old head: a whole
    // cell away, which leaves nothing of the distance.
    assert_eq!(snake[1], vector(5.5, 4.5));
    assert_eq!(snake[2], vector(5.5, 4.5));
}

#[test]
fn a_turn_straight_back_is_never_taken() {
    let mut game = ten_by_ten();
    assert_eq!(game.process_movement(fx(30.0), Some(Movement::LEFT)), Ok(()));
    assert_eq!(game.direction(), right());
    assert_eq!(game.next_direction(), vector(-1.0, 0.0));
    for step in 1..200 {
        assert_eq!(game.process_movement(fx(30.0), None), Ok(()));
        assert_eq!(game.direction(), right(), "step {}", step);
        assert_eq!(game.next_direction(), vector(-1.0, 0.0));
        assert_eq!(game.get_snake().len(), 2);
    }
    assert_eq!(game.get_snake(), vec![vector(61.5, 4.5), vector(64.5, 4.5)]);
}

#[test]
fn a_command_in_the_direction_of_travel_changes_nothing() {
    let mut game = ten_by_ten();
    for _ in 0..10 {
        assert_eq!(game.process_movement(fx(30.0), Some(Movement::RIGHT)), Ok(()));
        assert_eq!(game.direction(), right());
        assert_eq!(game.get_snake().len(), 2);
    }
}

#[test]
fn a_later_command_replaces_a_pending_one() {
    let mut game = ten_by_ten();
    assert_eq!(game.process_movement(fx(30.0), Some(Movement::UP)), Ok(()));
    assert_eq!(game.process_movement(fx(30.0), Some(Movement::DOWN)), Ok(()));
    assert_eq!(game.next_direction(), vector(0.0, 1.0));
    assert_eq!(game.process_movement(fx(60.0), None), Ok(()));
    assert_eq!(game.direction(), vector(0.0, 1.0));
    assert_eq!(
        game.get_snake(),
        vec![vector(2.7, 4.5), vector(5.5, 4.5), vector(5.5, 4.7)]
    );
}

#[test]
fn the_tail_follows_round_the_corner() {
    let mut game = ten_by_ten();
    assert_eq!(game.process_movement(fx(150.0), Some(Movement::DOWN)), Ok(()));
    // The body is 2.5 cells to the corner and 0.5 cells after it.
    assert_eq!(game.process_movement(fx(250.0), None), Ok(()));
    // The tip reaches the corner: the first segment is spent to the unit.
    assert_eq!(
        game.get_snake(),
        vec![vector(5.5, 4.5), vector(5.5, 4.5), vector(5.5, 7.5)]
    );
    assert_eq!(game.process_movement(fx(50.0), None), Ok(()));
    assert_eq!(game.get_snake(), vec![vector(5.5, 5.0), vector(5.5, 8.0)]);
}

#[test]
fn a_spent_segment_at_the_tail_refuses_a_step_of_no_time() {
    let mut game = ten_by_ten();
    assert_eq!(game.process_movement(fx(150.0), Some(Movement::DOWN)), Ok(()));
    assert_eq!(game.process_movement(fx(250.0), None), Ok(()));
    assert_eq!(game.process_movement(0, None), Err(GameError::DegenerateVector));
    assert_eq!(game.process_movement(fx(1.0), None), Ok(()));
    assert_eq!(game.get_snake(), vec![vector(5.5, 4.51), vector(5.5, 7.51)]);
}

#[test]
fn a_step_shorter_than_the_tolerance_stops_at_a_tail_segment_shorter_still() {
    let mut game = ten_by_ten();
    assert_eq!(game.process_movement(fx(150.0), Some(Movement::DOWN)), Ok(()));
    assert_eq!(game.process_movement(fx(249.5), None), Ok(()));
    // The first segment is 0.005 cells long: shorter than the tolerance.
    assert_eq!(
        game.get_snake(),
        vec![vector(5.495, 4.5), vector(5.5, 4.5), vector(5.5, 7.495)]
    );
    // A step of 0.002 cells would put the tip on it, in a direction that it
    // is too short to have.
    assert_eq!(game.process_movement(fx(0.2), None), Err(GameError::DegenerateVector));
    assert_eq!(game.process_movement(fx(0.5), None), Err(GameError::DegenerateVector));
    // A step of 0.01 cells passes over it.
    assert_eq!(game.process_movement(fx(1.0), None), Ok(()));
    assert_eq!(game.get_snake(), vec![vector(5.5, 4.505), vector(5.5, 7.505)]);
}

#[test]
fn the_snake_eats_the_food_on_its_head_segment() {
    let mut game = ten_by_ten();
    game.food = vector(3.0, 4.5);
    assert!(game.reaches_food());
    let before = path_length(&game.get_snake());
    assert_eq!(game.process_food_with(0), Ok(()));
    assert_eq!(game.score(), 1);
    assert_eq!(game.get_snake(), vec![vector(0.5, 4.5), vector(4.5, 4.5)]);
    assert_eq!(path_length(&game.get_snake()), before + fx(1.0));
    assert_eq!(game.food(), vector(0.5, 0.5));
    assert!(!is_covered(&game.get_snake(), &game.food()));
}

#[test]
fn the_new_food_is_the_free_cell_that_was_picked() {
    // The grown snake covers row 4 of the columns 0 to 4. Column 0 has the
    // free rows 0 to 3 and 5 to 9.
    let expected = [
        (0, vector(0.5, 0.5)),
        (3, vector(0.5, 3.5)),
        (4, vector(0.5, 5.5)),
        (9, vector(1.5, 0.5)),
        (94, vector(9.5, 9.5)),
        (95, vector(0.5, 0.5)),
    ];
    for (pick, food) in expected {
        let mut game = ten_by_ten();
        game.food = vector(3.0, 4.5);
        assert_eq!(game.process_food_with(pick), Ok(()));
        assert_eq!(game.food(), food, "pick {}", pick);
    }
}

#[test]
fn the_new_food_is_drawn_among_the_free_cells() {
    for _ in 0..50 {
        let mut game = ten_by_ten();
        game.food = vector(3.0, 4.5);
        assert_eq!(game.process_food(), Ok(()));
        assert_eq!(game.score(), 1);
        assert_eq!(game.get_snake(), vec![vector(0.5, 4.5), vector(4.5, 4.5)]);
        assert!(game.food() != vector(3.0, 4.5));
        assert!(!is_covered(&game.get_snake(), &game.food()));
    }
}

#[test]
fn food_off_the_head_segment_is_left_alone() {
    let mut game = ten_by_ten();
    game.food = vector(5.5, 4.5);
    assert!(!game.reaches_food());
    assert_eq!(game.process_food_with(3), Ok(()));
    assert_eq!(game.process_food(), Ok(()));
    assert_eq!(game.score(), 0);
    assert_eq!(game.food(), vector(5.5, 4.5));
    assert_eq!(game.get_snake(), vec![vector(1.5, 4.5), vector(4.5, 4.5)]);
}

#[test]
fn only_the_head_segment_eats() {
    let mut game = ten_by_ten();
    assert_eq!(game.process_movement(fx(150.0), Some(Movement::DOWN)), Ok(()));
    // On the first segment, behind the corner.
    game.food = vector(4.5, 4.5);
    assert!(!game.reaches_food());
    assert_eq!(game.process_food_with(0), Ok(()));
    assert_eq!(game.score(), 0);
    // The corner itself is an end of the head segment.
    game.food = vector(5.5, 4.5);
    assert!(game.reaches_food());
}

#[test]
fn the_tail_grows_away_from_the_body() {
    let mut game = ten_by_ten();
    assert_eq!(game.process_movement(fx(150.0), Some(Movement::DOWN)), Ok(()));
    assert_eq!(
        game.get_snake(),
        vec![vector(3.0, 4.5), vector(5.5, 4.5), vector(5.5, 5.0)]
    );
    game.food = vector(5.5, 4.75);
    assert_eq!(game.process_food_with(0), Ok(()));
    assert_eq!(
        game.get_snake(),
        vec![vector(2.0, 4.5), vector(5.5, 4.5), vector(5.5, 5.0)]
    );
    assert_eq!(path_length(&game.get_snake()), fx(4.0));
}

#[test]
fn a_meal_fails_where_the_tail_has_no_direction() {
    let mut game = Game::new_with(10, 10, fx(0.01), 0, right(), 0).unwrap();
    game.food = vector(4.5, 4.5);
    assert_eq!(game.process_food_with(0), Err(GameError::DegenerateVector));
    assert_eq!(game.process_food(), Err(GameError::DegenerateVector));
    assert_eq!(game.score(), 0);
    assert_eq!(game.food(), vector(4.5, 4.5));
}

#[test]
fn a_meal_fails_on_a_board_that_the_grown_snake_fills() {
    // Two cells side by side; the snake covers the right one, and the left
    // one once it has grown.
    let mut game = Game::new_with(2, 1, fx(0.01), 0, right(), 0).unwrap();
    assert_eq!(game.get_snake(), vec![vector(0.5, 0.5), vector(0.5, 0.5)]);
    let mut game = Game::new_with(2, 1, fx(0.01), 1, right(), 0).unwrap();
    assert_eq!(game.get_snake(), vec![vector(-0.5, 0.5), vector(0.5, 0.5)]);
    assert_eq!(game.food(), vector(1.5, 0.5));
    assert_eq!(game.process_movement(fx(100.0), None), Ok(()));
    assert_eq!(game.get_snake(), vec![vector(0.5, 0.5), vector(1.5, 0.5)]);
    assert_eq!(game.process_food_with(0), Err(GameError::BoardFull));
    assert_eq!(game.process_food(), Err(GameError::BoardFull));
    assert_eq!(game.score(), 0);
    assert_eq!(game.food(), vector(1.5, 0.5));
    assert_eq!(game.get_snake(), vec![vector(0.5, 0.5), vector(1.5, 0.5)]);
}

#[test]
fn a_meal_fails_where_the_score_cannot_go_up() {
    let mut game = ten_by_ten();
    game.score = u32::MAX;
    game.food = vector(3.0, 4.5);
    assert_eq!(game.process_food_with(0), Err(GameError::OutOfRange));
    assert_eq!(game.process_food(), Err(GameError::OutOfRange));
    assert_eq!(game.score(), u32::MAX);
    assert_eq!(game.get_snake(), vec![vector(1.5, 4.5), vector(4.5, 4.5)]);
}

#[test]
fn a_step_moves_and_then_eats() {
    let mut game = ten_by_ten();
    game.food = vector(5.5, 4.5);
    assert_eq!(game.process_with(fx(50.0), None, 7), Ok(()));
    assert_eq!(game.score(), 0);
    assert_eq!(game.get_snake(), vec![vector(2.0, 4.5), vector(5.0, 4.5)]);
    assert_eq!(game.process_with(fx(50.0), None, 7), Ok(()));
    assert_eq!(game.score(), 1);
    assert_eq!(game.get_snake(), vec![vector(1.5, 4.5), vector(5.5, 4.5)]);
    assert_eq!(game.food(), vector(0.5, 7.5));
    // The growth is spent by the tail in the steps that follow.
    assert_eq!(game.process_with(fx(50.0), None, 7), Ok(()));
    assert_eq!(game.get_snake(), vec![vector(2.0, 4.5), vector(6.0, 4.5)]);
}

#[test]
fn a_step_with_food_drawn_at_random_moves_and_then_eats() {
    let mut game = ten_by_ten();
    game.food = vector(5.5, 4.5);
    assert_eq!(game.process(fx(100.0), None), Ok(()));
    assert_eq!(game.score(), 1);
    assert_eq!(game.get_snake(), vec![vector(1.5, 4.5), vector(5.5, 4.5)]);
    assert!(!is_covered(&game.get_snake(), &game.food()));
}

#[test]
fn a_step_whose_meal_fails_has_moved() {
    let mut game = Game::new_with(2, 1, fx(0.01), 1, right(), 0).unwrap();
    assert_eq!(game.process_with(fx(100.0), None, 0), Err(GameError::BoardFull));
    assert_eq!(game.get_snake(), vec![vector(0.5, 0.5), vector(1.5, 0.5)]);
    assert_eq!(game.score(), 0);
}

/// Plays 4000 steps round a square and holds every step to what a step may
/// do. `step` makes one step and says how it ended.
fn play(game: &mut Game, step: &mut dyn FnMut(&mut Game, Option<Movement>) -> Result<(), GameError>) {
    let commands = [
        Movement::DOWN,
        Movement::LEFT,
        Movement::UP,
        Movement::RIGHT,
    ];
    let mut length = path_length(&game.get_snake());
    let mut score = 0;
    for round in 0..4000 {
        let command = if round % 300 == 0 { Some(commands[(round / 300) % 4]) } else { None };
        let food = game.food();
        let result = step(game, command);
        let snake = game.get_snake();
        assert!(snake.len() >= 2);
        match result {
            Ok(()) => {
                if game.score() != score {
                    assert_eq!(game.score(), score + 1);
                    score = game.score();
                    length += fx(1.0);
                    assert!(game.food() != food);
                    assert!(!is_covered(&snake, &game.food()));
                } else {
                    assert_eq!(game.food(), food);
                }
            }
            Err(error) => {
                // The one way for such a step to fail: the head has reached
                // the food while the tip of the tail lies on a corner, where
                // the tail has no direction to grow in. The snake has moved
                // and the meal has to wait.
                assert_eq!(error, GameError::DegenerateVector, "round {}", round);
                assert!(game.reaches_food());
                assert!(Segment::new(&snake[0], &snake[1]).length() < 10_000);
                assert_eq!(game.score(), score);
                assert_eq!(game.food(), food);
            }
        }
        assert_eq!(path_length(&snake), length, "round {}", round);
    }
}

#[test]
fn a_game_played_for_a_while_keeps_score() {
    for seed in 0..40u64 {
        let mut state = seed.wrapping_mul(0x9E37_79B9_7F4A_7C15).wrapping_add(12_345);
        let mut game = Game::new_with(12, 12, fx(0.005), 3, right(), seed as usize).unwrap();
        play(&mut game, &mut |game, command| {
            state = state.wrapping_mul(6364136223846793005).wrapping_add(1442695040888963407);
            game.process_with(fx(16.0), command, (state >> 20) as usize)
        });
    }
}

#[test]
fn a_game_with_food_drawn_at_random_keeps_score() {
    for _ in 0..10 {
        let mut game = Game::new(12, 12, fx(0.005), 3, right()).unwrap();
        play(&mut game, &mut |game, command| game.process(fx(16.0), command));
    }
}

#[test]
fn a_meal_waits_while_the_tip_of_the_tail_lies_on_a_corner() {
    let mut game = ten_by_ten();
    assert_eq!(game.process_movement(fx(150.0), Some(Movement::DOWN)), Ok(()));
    assert_eq!(
        game.get_snake(),
        vec![vector(3.0, 4.5), vector(5.5, 4.5), vector(5.5, 5.0)]
    );
    // The step that brings the head to the food brings the tip to the corner.
    game.food = vector(5.5, 7.5);
    assert_eq!(game.process_with(fx(250.0), None, 0), Err(GameError::DegenerateVector));
    assert_eq!(
        game.get_snake(),
        vec![vector(5.5, 4.5), vector(5.5, 4.5), vector(5.5, 7.5)]
    );
    assert_eq!(game.score(), 0);
    assert_eq!(game.food(), vector(5.5, 7.5));
    assert!(game.reaches_food());
    // A step later the tail has a direction again, and the food is still on
    // the head's segment.
    assert_eq!(game.process_with(fx(10.0), None, 0), Ok(()));
    assert_eq!(game.get_snake(), vec![vector(5.5, 3.6), vector(5.5, 7.6)]);
    assert_eq!(game.score(), 1);
    assert_eq!(game.food(), vector(0.5, 0.5));
}
