use snork::env::Direction::{Down, Left, Right, Up};
use snork::env::{Direction, Vec2D};
use snork::game::simulator::{Game, Snake, DEFAULT_HAZARD_DAMAGE};
use snork::game::state::Outcome;

fn cells(list: &[(i16, i16)]) -> Vec<Vec2D> {
    list.iter().map(|&(x, y)| Vec2D::new(x, y)).collect()
}

fn lone(body: &[(i16, i16)], health: u8, food: &[(i16, i16)]) -> Game {
    Game::new(11, 11, vec![Snake::new(0, cells(body), health)], cells(food), vec![])
}

#[test]
fn loop_in_open_space_comes_back() {
    let start = [(6, 2), (5, 2), (4, 2), (4, 3), (4, 4), (5, 4), (6, 4)];
    let mut game = lone(&start, 100, &[]);
    for d in [Up, Up, Left, Left, Down, Down, Right, Right] {
        assert!(game.valid_moves(0).contains(&d));
        game.step(&[d]);
        assert!(game.snake_is_alive(0));
    }
    assert_eq!(game.snakes[0].body, cells(&start));
    assert_eq!(game.turn, 8);
    assert_eq!(game.snakes[0].health, 92);
    assert_eq!(game.outcome(), Outcome::Winner(0));
}

#[test]
fn closed_loop_follows_its_tail() {
    let start = [(4, 8), (4, 7), (4, 6), (5, 6), (6, 6), (6, 7), (6, 8), (5, 8)];
    let mut game = lone(&start, 100, &[]);
    for d in [Right, Right, Down, Down, Left, Left, Up, Up] {
        game.step(&[d]);
        assert!(game.snake_is_alive(0));
    }
    assert_eq!(game.snakes[0].body, cells(&start));
}

#[test]
fn head_to_head_tie_kills_both() {
    let a = Snake::new(0, cells(&[(4, 5), (3, 5), (2, 5)]), 100);
    let b = Snake::new(1, cells(&[(6, 5), (7, 5), (8, 5)]), 100);
    let mut game = Game::new(11, 11, vec![a, b], vec![], vec![]);
    assert_eq!(game.outcome(), Outcome::InProgress);
    game.step(&[Direction::Right, Direction::Left]);
    assert_eq!(game.snakes[0].body[0], Vec2D::new(5, 5));
    assert_eq!(game.snakes[1].body[0], Vec2D::new(5, 5));
    assert!(!game.snake_is_alive(0));
    assert!(!game.snake_is_alive(1));
    assert_eq!(game.outcome(), Outcome::Match);
    assert_eq!(game.live_count(), 0);
}

#[test]
fn head_to_head_mismatch_kills_the_shorter() {
    let a = Snake::new(0, cells(&[(4, 5), (3, 5), (2, 5), (1, 5), (0, 5)]), 100);
    let b = Snake::new(1, cells(&[(6, 5), (7, 5), (8, 5)]), 100);
    let mut game = Game::new(11, 11, vec![a, b], vec![], vec![]);
    game.step(&[Direction::Right, Direction::Left]);
    assert!(game.snake_is_alive(0));
    assert!(!game.snake_is_alive(1));
    assert_eq!(game.snakes[0].body.len(), 5);
    assert_eq!(game.snakes[0].health, 99);
    assert_eq!(game.outcome(), Outcome::Winner(0));
}

#[test]
fn winner_is_the_survivor_whatever_its_id() {
    let a = Snake::new(0, cells(&[(4, 5), (3, 5), (2, 5)]), 100);
    let b = Snake::new(1, cells(&[(6, 5), (7, 5), (8, 5), (9, 5)]), 100);
    let mut game = Game::new(11, 11, vec![a, b], vec![], vec![]);
    game.step(&[Direction::Right, Direction::Left]);
    assert_eq!(game.outcome(), Outcome::Winner(1));
    // the dead snake takes no move any more
    game.step(&[Direction::Left]);
    assert_eq!(game.snakes[1].body[0], Vec2D::new(4, 5));
    assert_eq!(game.outcome(), Outcome::Winner(1));
    assert_eq!(game.turn, 2);
}

#[test]
fn forced_corner_leaves_the_tail_cell() {
    let game = lone(&[(0, 0), (0, 1), (1, 1), (1, 0)], 100, &[]);
    assert_eq!(game.valid_moves(0), vec![Direction::Right]);
    assert!(game.lethal(Vec2D::new(-1, 0)));
    assert!(game.lethal(Vec2D::new(0, -1)));
    assert!(game.lethal(Vec2D::new(0, 1)));
    assert!(!game.lethal(Vec2D::new(1, 0)));
    for d in [Direction::Up, Direction::Down, Direction::Left] {
        let mut next = game.clone();
        next.step(&[d]);
        assert!(!next.snake_is_alive(0));
        assert_eq!(next.outcome(), Outcome::Match);
    }
    let mut next = game.clone();
    next.step(&[Direction::Right]);
    assert!(next.snake_is_alive(0));
    assert_eq!(next.snakes[0].body, cells(&[(1, 0), (0, 0), (0, 1), (1, 1)]));
}

#[test]
fn boxed_in_snake_has_no_valid_move() {
    let game = lone(&[(0, 0), (1, 0), (1, 1), (0, 1), (0, 2)], 100, &[]);
    assert_eq!(game.valid_moves(0), Vec::<Direction>::new());
}

#[test]
fn food_grab_grows_and_heals() {
    let mut game = lone(&[(7, 8), (7, 7), (7, 6)], 40, &[(7, 9), (1, 0)]);
    game.step(&[Direction::Up]);
    assert_eq!(game.snakes[0].body, cells(&[(7, 9), (7, 8), (7, 7), (7, 6)]));
    assert_eq!(game.snakes[0].health, 100);
    assert_eq!(game.food, cells(&[(1, 0)]));
    assert_eq!(game.turn, 1);
}

#[test]
fn food_saves_a_starving_snake() {
    let mut game = lone(&[(7, 8), (7, 7), (7, 6)], 1, &[(7, 9)]);
    game.step(&[Direction::Up]);
    assert!(game.snake_is_alive(0));
    assert_eq!(game.snakes[0].health, 100);
}

#[test]
fn health_runs_out() {
    let mut game = lone(&[(7, 8), (7, 7), (7, 6)], 1, &[]);
    game.step(&[Direction::Up]);
    assert!(!game.snake_is_alive(0));
    assert_eq!(game.snakes[0].health, 0);
    assert_eq!(game.outcome(), Outcome::Match);
    // a drawn game stays drawn
    game.step(&[]);
    assert_eq!(game.outcome(), Outcome::Match);
    assert_eq!(game.turn, 2);
}

#[test]
fn hazard_takes_its_toll() {
    let snake = Snake::new(0, cells(&[(3, 3), (3, 2), (3, 1)]), 50);
    let mut game = Game::new(11, 11, vec![snake], vec![], cells(&[(3, 4)]));
    assert_eq!(game.hazard_damage, DEFAULT_HAZARD_DAMAGE);
    assert_eq!(DEFAULT_HAZARD_DAMAGE, 15);
    game.step(&[Direction::Up]);
    assert_eq!(game.snakes[0].health, 34);
    game.step(&[Direction::Up]);
    assert_eq!(game.snakes[0].health, 33);

    let snake = Snake::new(0, cells(&[(3, 3), (3, 2), (3, 1)]), 16);
    let mut game = Game::new(11, 11, vec![snake], vec![], cells(&[(3, 4)]));
    game.step(&[Direction::Up]);
    assert!(!game.snake_is_alive(0));
}

#[test]
fn move_onto_the_neck_goes_straight_on() {
    let mut game = lone(&[(5, 5), (5, 4), (5, 3)], 100, &[]);
    game.step(&[Direction::Down]);
    assert_eq!(game.snakes[0].body, cells(&[(5, 6), (5, 5), (5, 4)]));
    assert!(game.snake_is_alive(0));
}

#[test]
fn leaving_the_board_is_deadly() {
    let mut game = lone(&[(0, 5), (1, 5), (2, 5)], 100, &[]);
    assert_eq!(game.valid_moves(0), vec![Direction::Up, Direction::Down]);
    game.step(&[Direction::Left]);
    assert!(!game.snake_is_alive(0));
}

#[test]
fn running_into_a_body_is_deadly() {
    let a = Snake::new(0, cells(&[(4, 5), (3, 5), (2, 5)]), 100);
    let b = Snake::new(1, cells(&[(5, 4), (5, 5), (5, 6), (5, 7)]), 100);
    let mut game = Game::new(11, 11, vec![a, b], vec![], vec![]);
    assert_eq!(game.valid_moves(0), vec![Direction::Up, Direction::Down]);
    assert_eq!(
        game.valid_moves(1),
        vec![Direction::Down, Direction::Left, Direction::Right]
    );
    game.step(&[Direction::Right, Direction::Down]);
    assert!(!game.snake_is_alive(0));
    assert!(game.snake_is_alive(1));
    assert_eq!(game.outcome(), Outcome::Winner(1));
}

#[test]
fn both_snakes_eat_the_same_food() {
    let a = Snake::new(0, cells(&[(4, 5), (3, 5), (2, 5), (1, 5)]), 10);
    let b = Snake::new(1, cells(&[(6, 5), (7, 5), (8, 5)]), 10);
    let mut game = Game::new(11, 11, vec![a, b], cells(&[(5, 5), (0, 0)]), vec![]);
    game.step(&[Direction::Right, Direction::Left]);
    assert_eq!(game.food, cells(&[(0, 0)]));
    assert_eq!(game.snakes[0].body.len(), 5);
    assert_eq!(game.snakes[1].body.len(), 4);
    assert!(game.snake_is_alive(0));
    assert!(!game.snake_is_alive(1));
    assert_eq!(game.snakes[0].health, 100);
}

#[test]
fn unknown_snake_is_not_alive() {
    let game = lone(&[(5, 5)], 100, &[]);
    assert!(game.snake_is_alive(0));
    assert!(!game.snake_is_alive(1));
    assert!(!game.snake_is_alive(255));
    assert!(game.has(Vec2D::new(10, 10)));
    assert!(!game.has(Vec2D::new(11, 10)));
    assert!(!game.has(Vec2D::new(-1, 0)));
}

#[test]
fn a_dead_snake_has_no_moves_and_is_no_wall() {
    let a = Snake::new(0, cells(&[(4, 5), (3, 5), (2, 5)]), 100);
    let b = Snake::new(1, cells(&[(5, 4), (5, 5), (5, 6), (5, 7)]), 0);
    let game = Game::new(11, 11, vec![a, b], vec![], vec![]);
    assert_eq!(game.valid_moves(1), Vec::<Direction>::new());
    assert_eq!(
        game.valid_moves(0),
        vec![Direction::Up, Direction::Down, Direction::Right]
    );
    assert_eq!(game.outcome(), Outcome::Winner(0));
    assert_eq!(game.live_count(), 1);
}

#[test]
fn validity_is_told_at_run_time() {
    let game = lone(&[(5, 5), (5, 4)], 100, &[]);
    assert!(game.is_valid());
    let mut wrong = game.clone();
    wrong.snakes[0].id = 3;
    assert!(!wrong.is_valid());
    let mut wrong = game.clone();
    wrong.snakes[0].health = 101;
    assert!(!wrong.is_valid());
    let mut wrong = game.clone();
    wrong.snakes[0].body.clear();
    assert!(!wrong.is_valid());
    let mut wrong = game.clone();
    wrong.snakes[0].body[0] = Vec2D::new(11, 5);
    assert!(!wrong.is_valid());
    wrong.snakes[0].health = 0;
    assert!(wrong.is_valid());
    let mut wrong = game.clone();
    wrong.width = 40000;
    assert!(!wrong.is_valid());
}
