use snake_core::{Direction, GameContext, GameState, Point};

fn assert_valid_snake(g: &GameContext) {
    assert!(g.snake.len() >= 3);
    for p in g.snake.iter() {
        assert!(0 <= p.0 && p.0 < g.width, "column out of bounds: {:?}", p);
        assert!(0 <= p.1 && p.1 < g.height, "row out of bounds: {:?}", p);
    }
    for w in g.snake.windows(2) {
        let dx = (w[0].0 - w[1].0).abs();
        let dy = (w[0].1 - w[1].1).abs();
        assert_eq!(dx + dy, 1, "segments not adjacent: {:?} {:?}", w[0], w[1]);
    }
    for i in 0..g.snake.len() {
        for j in (i + 1)..g.snake.len() {
            assert_ne!(g.snake[i], g.snake[j], "segment repeated");
        }
    }
}

#[test]
fn new_session_is_initial() {
    let g = GameContext::new(20, 15, None);
    assert_eq!(g.snake, vec![Point(2, 0), Point(1, 0), Point(0, 0)]);
    assert_eq!(g.snake_dir, Direction::Right);
    assert_eq!(g.score, 0);
    assert_eq!(g.state, GameState::Paused);
    assert_eq!(g.highscore, None);
    assert!(0 <= g.food.0 && g.food.0 < 20);
    assert!(0 <= g.food.1 && g.food.1 < 15);
    assert!(!g.snake.contains(&g.food));
    assert_valid_snake(&g);
}

#[test]
fn plain_move_advances_and_drops_tail() {
    let mut g = GameContext::new(20, 15, None);
    g.food = Point(5, 5);
    g.state = GameState::Running;
    let persist = g.update();
    assert_eq!(persist, None);
    assert_eq!(g.snake, vec![Point(3, 0), Point(2, 0), Point(1, 0)]);
    assert_eq!(g.score, 0);
    assert_eq!(g.food, Point(5, 5));
    assert_eq!(g.state, GameState::Running);
    assert_valid_snake(&g);
}

#[test]
fn fatal_out_of_bounds_persists_new_highscore() {
    let mut g = GameContext::new(20, 15, Some(3));
    g.snake = vec![
        Point(0, 5),
        Point(1, 5),
        Point(2, 5),
        Point(3, 5),
        Point(4, 5),
        Point(5, 5),
        Point(6, 5),
        Point(7, 5),
        Point(8, 5),
        Point(9, 5),
    ];
    g.snake_dir = Direction::Left;
    g.score = 7;
    g.food = Point(0, 0);
    g.state = GameState::Running;
    let persist = g.update();
    assert_eq!(g.state, GameState::GameOver);
    assert_eq!(persist, Some(7));
    assert_eq!(g.highscore, Some(7));
    assert_eq!(g.score, 7);
    assert_eq!(g.snake.len(), 10);
    assert_eq!(g.snake[0], Point(0, 5));
}

#[test]
fn fatal_without_new_highscore_persists_nothing() {
    let mut g = GameContext::new(20, 15, Some(9));
    g.snake = vec![
        Point(0, 5),
        Point(1, 5),
        Point(2, 5),
        Point(3, 5),
        Point(4, 5),
        Point(5, 5),
        Point(6, 5),
        Point(7, 5),
        Point(8, 5),
        Point(9, 5),
    ];
    g.snake_dir = Direction::Left;
    g.score = 7;
    g.food = Point(0, 0);
    g.state = GameState::Running;
    let persist = g.update();
    assert_eq!(g.state, GameState::GameOver);
    assert_eq!(persist, None);
    assert_eq!(g.highscore, Some(9));
}

#[test]
fn self_collision_is_fatal() {
    let mut g = GameContext::new(20, 15, None);
    g.snake_dir = Direction::Left;
    g.state = GameState::Running;
    let persist = g.update();
    assert_eq!(g.state, GameState::GameOver);
    assert_eq!(persist, None);
    assert_eq!(g.snake, vec![Point(2, 0), Point(1, 0), Point(0, 0)]);
}

#[test]
fn eating_grows_scores_and_replaces_food() {
    let mut g = GameContext::new(20, 15, None);
    g.food = Point(3, 0);
    g.state = GameState::Running;
    let persist = g.update();
    assert_eq!(persist, None);
    assert_eq!(g.score, 1);
    assert_eq!(g.snake, vec![Point(3, 0), Point(2, 0), Point(1, 0), Point(0, 0)]);
    assert!(!g.snake.contains(&g.food));
    assert!(0 <= g.food.0 && g.food.0 < 20);
    assert!(0 <= g.food.1 && g.food.1 < 15);
    assert_eq!(g.state, GameState::Running);
    assert_valid_snake(&g);
}

#[test]
fn reversal_turn_is_ignored() {
    let mut g = GameContext::new(20, 15, None);
    assert_eq!(g.snake_dir, Direction::Right);
    g.move_left();
    assert_eq!(g.snake_dir, Direction::Right);
}

#[test]
fn all_reversals_are_ignored() {
    let mut g = GameContext::new(20, 15, None);
    g.snake_dir = Direction::Up;
    g.move_down();
    assert_eq!(g.snake_dir, Direction::Up);
    g.snake_dir = Direction::Down;
    g.move_up();
    assert_eq!(g.snake_dir, Direction::Down);
    g.snake_dir = Direction::Left;
    g.move_right();
    assert_eq!(g.snake_dir, Direction::Left);
    g.snake_dir = Direction::Right;
    g.move_left();
    assert_eq!(g.snake_dir, Direction::Right);
}

#[test]
fn neck_collision_turn_is_ignored() {
    let mut g = GameContext::new(20, 15, None);
    // Head (2,0), second segment (1,0): stepping left would land on the neck.
    g.snake_dir = Direction::Up;
    g.move_left();
    assert_eq!(g.snake_dir, Direction::Up);
}

#[test]
fn valid_turn_is_applied() {
    let mut g = GameContext::new(20, 15, None);
    g.move_down();
    assert_eq!(g.snake_dir, Direction::Down);
    g.move_right();
    assert_eq!(g.snake_dir, Direction::Right);
}

#[test]
fn tick_is_noop_while_paused() {
    let mut g = GameContext::new(20, 15, Some(4));
    g.food = Point(9, 9);
    let before_snake = g.snake.clone();
    let persist = g.update();
    assert_eq!(persist, None);
    assert_eq!(g.snake, before_snake);
    assert_eq!(g.food, Point(9, 9));
    assert_eq!(g.score, 0);
    assert_eq!(g.state, GameState::Paused);
    assert_eq!(g.highscore, Some(4));
}

#[test]
fn tick_is_noop_while_game_over() {
    let mut g = GameContext::new(20, 15, Some(4));
    g.food = Point(9, 9);
    g.state = GameState::GameOver;
    let before_snake = g.snake.clone();
    let persist = g.update();
    assert_eq!(persist, None);
    assert_eq!(g.snake, before_snake);
    assert_eq!(g.food, Point(9, 9));
    assert_eq!(g.score, 0);
    assert_eq!(g.state, GameState::GameOver);
}

#[test]
fn toggle_swaps_paused_and_running() {
    let mut g = GameContext::new(20, 15, None);
    assert_eq!(g.state, GameState::Paused);
    g.toggle_pause(None);
    assert_eq!(g.state, GameState::Running);
    g.toggle_pause(None);
    assert_eq!(g.state, GameState::Paused);
}

#[test]
fn toggle_from_game_over_resets_session() {
    let mut g = GameContext::new(20, 15, Some(3));
    g.food = Point(9, 9);
    g.score = 0;
    g.snake_dir = Direction::Left;
    g.state = GameState::Running;
    let _ = g.update();
    assert_eq!(g.state, GameState::GameOver);
    g.toggle_pause(Some(42));
    assert_eq!(g.state, GameState::Paused);
    assert_eq!(g.snake, vec![Point(2, 0), Point(1, 0), Point(0, 0)]);
    assert_eq!(g.snake_dir, Direction::Right);
    assert_eq!(g.score, 0);
    assert_eq!(g.highscore, Some(42));
    assert!(!g.snake.contains(&g.food));
    assert!(0 <= g.food.0 && g.food.0 < 20);
    assert!(0 <= g.food.1 && g.food.1 < 15);
}

#[test]
fn length_never_shrinks_over_many_ticks() {
    let mut g = GameContext::new(20, 15, None);
    g.food = Point(9, 9);
    g.state = GameState::Running;
    let mut len = g.snake.len();
    for _ in 0..12 {
        let _ = g.update();
        if g.state != GameState::Running {
            break;
        }
        assert!(g.snake.len() >= len);
        assert!(g.snake.len() <= len + 1);
        len = g.snake.len();
        assert_valid_snake(&g);
    }
}

#[test]
fn nearly_saturated_board_places_only_free_cell() {
    // Four cells, three of them covered by the snake: the one free cell
    // must be chosen deterministically.
    let g = GameContext::new(4, 1, None);
    assert_eq!(g.food, Point(3, 0));
}

#[test]
fn eating_on_full_board_keeps_running_then_dies_at_wall() {
    let mut g = GameContext::new(4, 1, None);
    assert_eq!(g.food, Point(3, 0));
    g.state = GameState::Running;
    let persist = g.update();
    assert_eq!(persist, None);
    assert_eq!(g.score, 1);
    assert_eq!(g.snake.len(), 4);
    assert_eq!(g.state, GameState::Running);
    let persist = g.update();
    assert_eq!(persist, Some(1));
    assert_eq!(g.state, GameState::GameOver);
}
