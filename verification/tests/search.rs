use snork::agents::flood::{FloodConfig, FloodEvaluator, BEST_OPEN, LOST, WON};
use snork::agents::tree::{
    best_direction, heuristic, move_for_draw, next_move, random_move, Deepening, Leaf, Step,
    DEPTH_LIMIT, FIRST_DEPTH,
};
use snork::agents::{agent_for, AgentKind, MAX_BOARD_SIDE};
use snork::env::{Direction, Vec2D};
use snork::game::flood::{FloodFill, WallModel};
use snork::game::search::{max_n, Comparable, Evaluator};
use snork::game::simulator::{Game, Snake};
use snork::game::state::GameState;

fn cells(list: &[(i16, i16)]) -> Vec<Vec2D> {
    list.iter().map(|&(x, y)| Vec2D::new(x, y)).collect()
}

/// Scores a game by where the head of snake 0 is, so that every leaf can be told
/// from every other.
struct HeadProbe;

impl Evaluator<i64> for HeadProbe {
    fn value(&self, _: GameState) -> i64 {
        unreachable!()
    }

    fn evaluate(&self, game: &Game) -> i64 {
        let head = game.snakes[0].body[0];
        let alive = if game.snake_is_alive(0) { 1000 } else { 0 };
        alive + head.x as i64 * 20 + head.y as i64
    }
}

/// Scores a game by the health of snake 0 minus that of snake 1.
struct HealthGap;

impl Evaluator<i64> for HealthGap {
    fn value(&self, _: GameState) -> i64 {
        unreachable!()
    }

    fn evaluate(&self, game: &Game) -> i64 {
        game.snakes[0].health as i64 - game.snakes[1].health as i64
    }
}

#[test]
fn depth_zero_scores_the_game_after_each_move() {
    let game = Game::new(
        11,
        11,
        vec![Snake::new(0, cells(&[(5, 5), (5, 4), (5, 3)]), 100)],
        vec![],
        vec![],
    );
    let scores = max_n(&game, 0, &HeadProbe);
    for d in Direction::all() {
        let expected = if game.valid_moves(0).contains(&d) {
            let mut next = game.clone();
            next.step(&[d]);
            HeadProbe.evaluate(&next)
        } else {
            i64::MIN
        };
        assert_eq!(scores[d.index()], expected);
    }
    assert_eq!(scores[Direction::Up.index()], 1000 + 100 + 6);
    assert_eq!(scores[Direction::Down.index()], i64::MIN);
    assert_eq!(scores[Direction::Left.index()], 1000 + 80 + 5);
    assert_eq!(scores[Direction::Right.index()], 1000 + 120 + 5);
}

#[test]
fn a_dead_snake_has_only_least_scores() {
    let a = Snake::new(0, cells(&[(5, 5)]), 0);
    let b = Snake::new(1, cells(&[(1, 1)]), 100);
    let game = Game::new(11, 11, vec![a, b], vec![], vec![]);
    assert_eq!(max_n(&game, 3, &HeadProbe), [i64::MIN; 4]);
}

#[test]
fn the_enemy_does_its_worst() {
    // snake 1 can eat (health 100) or not (health 49): it eats, which is worst for snake 0
    let a = Snake::new(0, cells(&[(1, 1), (1, 0)]), 80);
    let b = Snake::new(1, cells(&[(8, 8), (8, 7)]), 50);
    let game = Game::new(11, 11, vec![a, b], cells(&[(9, 8)]), vec![]);
    let scores = max_n(&game, 0, &HealthGap);
    assert_eq!(scores[Direction::Up.index()], 79 - 100);
    assert_eq!(scores[Direction::Left.index()], 79 - 100);
    assert_eq!(scores[Direction::Right.index()], 79 - 100);
    assert_eq!(scores[Direction::Down.index()], i64::MIN);
}

#[test]
fn deeper_search_sees_the_dead_end() {
    // snake 0 comes down the second column; the corner to its left is a pocket that
    // the stacked tail of snake 1 keeps shut
    let me = Snake::new(0, cells(&[(1, 0), (1, 1), (1, 2)]), 100);
    let other = Snake::new(1, cells(&[(0, 3), (0, 2), (0, 1), (0, 1), (0, 1)]), 100);
    let game = Game::new(5, 5, vec![me, other], vec![], vec![]);
    assert_eq!(game.valid_moves(0), vec![Direction::Left, Direction::Right]);
    let shallow = max_n(&game, 0, &HeadProbe);
    assert_eq!(shallow[Direction::Up.index()], i64::MIN);
    assert_eq!(shallow[Direction::Down.index()], i64::MIN);
    assert_eq!(shallow[Direction::Left.index()], 1000);
    assert_eq!(shallow[Direction::Right.index()], 1040);
    let deep = max_n(&game, 1, &HeadProbe);
    // in the pocket every move is death: the forced move is Up, onto snake 1
    assert_eq!(deep[Direction::Left.index()], 1);
    // in the open snake 0 goes on to the right
    assert_eq!(deep[Direction::Right.index()], 1060);
    assert_eq!(best_direction(&deep, 0), Some(Direction::Right));
}

#[test]
fn flood_evaluator_scores_draw_win_and_loss() {
    let eval = FloodEvaluator::new(FloodConfig { food_bonus: 10 });
    let dead = |id| Snake::new(id, cells(&[(0, 0)]), 0);
    let live = |id, x| Snake::new(id, cells(&[(x, 3)]), 100);
    let game = Game::new(7, 7, vec![dead(0), dead(1)], vec![], vec![]);
    assert_eq!(eval.evaluate(&game), 0);
    let game = Game::new(7, 7, vec![live(0, 1), dead(1)], vec![], vec![]);
    assert_eq!(eval.evaluate(&game), WON);
    assert_eq!(WON, i64::MAX);
    let game = Game::new(7, 7, vec![dead(0), live(1, 1)], vec![], vec![]);
    assert_eq!(eval.evaluate(&game), LOST);
    assert_eq!(LOST, i64::MIN);
    let game = Game::new(7, 7, vec![dead(0), live(1, 1), live(2, 5)], vec![], vec![]);
    assert_eq!(eval.evaluate(&game), LOST);
    assert_eq!(BEST_OPEN, i64::MAX - 1);
}

#[test]
fn flood_evaluator_counts_space_and_food() {
    let a = Snake::new(0, cells(&[(0, 0)]), 100);
    let b = Snake::new(1, cells(&[(4, 0)]), 100);
    // (1,0) is snake 0's, (2,0) contested, (3,0) snake 1's
    let game = Game::new(5, 1, vec![a, b], cells(&[(1, 0), (2, 0), (3, 0), (1, 0)]), vec![]);
    assert_eq!(FloodEvaluator::new(FloodConfig { food_bonus: 0 }).evaluate(&game), 1);
    assert_eq!(FloodEvaluator::new(FloodConfig { food_bonus: 7 }).evaluate(&game), 1 + 2 * 7);
}

#[test]
fn tree_leaf_kinds() {
    let mut flood = FloodFill::new(7, 7);
    let dead = |id| Snake::new(id, cells(&[(0, 0)]), 0);
    let live = |id, x| Snake::new(id, cells(&[(x, 3)]), 100);
    let game = Game::new(7, 7, vec![dead(0), dead(1)], vec![], vec![]);
    assert_eq!(heuristic(&[], &mut flood, &game), Leaf::Draw);
    let game = Game::new(7, 7, vec![live(0, 1), dead(1)], vec![], vec![]);
    assert_eq!(heuristic(&[], &mut flood, &game), Leaf::Win);
    let game = Game::new(7, 7, vec![dead(0), live(1, 1)], vec![], vec![]);
    assert_eq!(heuristic(&[], &mut flood, &game), Leaf::Loss);
    let game = Game::new(7, 7, vec![dead(0), live(1, 1), live(2, 5)], vec![], vec![]);
    assert_eq!(heuristic(&[], &mut flood, &game), Leaf::Loss);
}

#[test]
fn tree_features_of_an_open_game() {
    let me = Snake::new(0, cells(&[(1, 1), (1, 0)]), 77);
    let big = Snake::new(1, cells(&[(9, 9), (9, 8), (9, 7), (9, 6), (9, 5)]), 100);
    let small = Snake::new(2, cells(&[(5, 9)]), 100);
    let gone = Snake::new(3, cells(&[(3, 3), (3, 4), (3, 5), (3, 6), (3, 7), (3, 8), (3, 9)]), 0);
    let game = Game::new(11, 11, vec![me, big, small, gone], vec![], vec![]);
    let mut flood = FloodFill::new(11, 11);
    let food = cells(&[(0, 0), (10, 10), (1, 2), (20, 20)]);
    match heuristic(&food, &mut flood, &game) {
        Leaf::Open(f) => {
            assert_eq!(f.cells, 121);
            assert_eq!(f.width, 11);
            assert_eq!(f.health, 77);
            assert_eq!(f.own_len, 2);
            assert_eq!(f.max_enemy_len, 5);
            assert_eq!(f.center_distance, 8);
            assert_eq!(f.owned_food, 2);
            assert_eq!(f.space, flood.count_space(0));
            assert_eq!(f.space, flood.count_space_of(true));
            assert!(f.space > 10 && f.space < 121);
        }
        other => panic!("not an open leaf: {:?}", other),
    }
    // without enemies the longest enemy counts as 1
    let me = Snake::new(0, cells(&[(5, 5), (5, 4)]), 100);
    let other = Snake::new(1, cells(&[(0, 0)]), 100);
    let mut game = Game::new(11, 11, vec![me, other], vec![], vec![]);
    game.snakes[1].health = 0;
    let game2 = Game::new(
        11,
        11,
        vec![
            Snake::new(0, cells(&[(5, 5), (5, 4)]), 100),
            Snake::new(1, cells(&[(0, 0)]), 0),
            Snake::new(2, cells(&[(9, 9)]), 0),
        ],
        vec![],
        vec![],
    );
    assert_eq!(heuristic(&[], &mut flood, &game), Leaf::Win);
    assert_eq!(heuristic(&[], &mut flood, &game2), Leaf::Win);
}

#[test]
fn best_direction_prefers_the_lower_of_equals() {
    assert_eq!(best_direction(&[5i64, 9, 9, 1], 0), Some(Direction::Down));
    assert_eq!(best_direction(&[5i64, 5, 5, 5], 0), Some(Direction::Up));
    assert_eq!(best_direction(&[-3i64, -2, -9, -2], 0), None);
    assert_eq!(best_direction(&[-3i64, -2, -9, -2], -2), Some(Direction::Down));
    assert_eq!(best_direction(&[0i64, -1, -1, 7], 0), Some(Direction::Right));
    assert_eq!(best_direction(&[i64::MIN; 4], 0), None);
}

#[test]
fn comparable_integers() {
    assert!(3i64.less(&4));
    assert!(!4i64.less(&4));
    assert!(!5i64.less(&4));
    assert_eq!(<i64 as Comparable>::min(), i64::MIN);
    assert_eq!(<i64 as Comparable>::max(), i64::MAX);
}

#[test]
fn next_move_of_a_boxed_in_snake_is_none() {
    let game = Game::new(
        11,
        11,
        vec![Snake::new(0, cells(&[(0, 0), (1, 0), (1, 1), (0, 1), (0, 2)]), 100)],
        vec![],
        vec![],
    );
    let eval = FloodEvaluator::new(FloodConfig { food_bonus: 0 });
    assert_eq!(next_move(&game, 1, &eval, 0), None);
    assert_eq!(random_move(&game.valid_moves(0)), Direction::Up);
}

#[test]
fn next_move_takes_the_open_side() {
    // on a 3x3 board the snake in the corner: the stacked tail of snake 1 blocks the right
    let game = Game::new(
        3,
        3,
        vec![
            Snake::new(0, cells(&[(0, 0)]), 100),
            Snake::new(1, cells(&[(2, 2), (2, 1), (2, 0), (1, 0), (1, 0)]), 100),
        ],
        vec![],
        vec![],
    );
    let eval = FloodEvaluator::new(FloodConfig { food_bonus: 0 });
    assert_eq!(game.valid_moves(0), vec![Direction::Up]);
    assert_eq!(max_n(&game, 0, &eval), [1, i64::MIN, i64::MIN, i64::MIN]);
    assert_eq!(next_move(&game, 0, &eval, 0), Some(Direction::Up));
    assert_eq!(next_move(&game, 0, &eval, 2), None);
}

#[test]
fn random_move_is_one_of_the_valid() {
    let valid = vec![Direction::Down, Direction::Right];
    for _ in 0..50 {
        let d = random_move(&valid);
        assert!(valid.contains(&d));
    }
    assert_eq!(random_move(&vec![]), Direction::Up);
    assert_eq!(random_move(&vec![Direction::Left]), Direction::Left);
}

#[test]
fn move_for_draw_covers_every_draw() {
    let valid = vec![Direction::Down, Direction::Right];
    assert_eq!(move_for_draw(&valid, Some(0)), Direction::Down);
    assert_eq!(move_for_draw(&valid, Some(1)), Direction::Right);
    assert_eq!(move_for_draw(&valid, Some(2)), Direction::Up);
    assert_eq!(move_for_draw(&valid, None), Direction::Up);
    assert_eq!(move_for_draw(&vec![], Some(0)), Direction::Up);
}

#[test]
fn deepening_goes_on_while_time_is_left() {
    let mut search = Deepening::new(500, 4);
    assert_eq!(search.depth, FIRST_DEPTH);
    assert_eq!(search.remaining(120), 380);
    assert_eq!(search.remaining(500), 0);
    assert_eq!(search.remaining(700), 0);
    // 10 ms * 3 * 4 = 120 <= 490
    assert_eq!(search.record(Some(Direction::Left), 10, 10), Step::Search(2));
    assert_eq!(search.best, Some(Direction::Left));
    // 30 ms * 3 * 4 = 360 <= 460
    assert_eq!(search.record(Some(Direction::Up), 30, 40), Step::Search(3));
    assert_eq!(search.best, Some(Direction::Up));
    // 38 * 12 = 456 > 500 - 78 = 422
    assert_eq!(search.record(Some(Direction::Down), 38, 78), Step::Stop);
    assert_eq!(search.best, Some(Direction::Down));
    assert!(search.stopped);
    assert_eq!(search.depth, 3);
    // stopped for good
    assert_eq!(search.record(Some(Direction::Right), 0, 0), Step::Stop);
    assert_eq!(search.best, Some(Direction::Down));
    assert_eq!(search.answer(&vec![Direction::Right], Some(0)), Direction::Down);
}

#[test]
fn deepening_stops_on_the_exact_bound() {
    let mut search = Deepening::new(100, 1);
    // 20 * 3 * 1 = 60 is not more than 100 - 40 = 60
    assert_eq!(search.record(Some(Direction::Up), 20, 40), Step::Search(2));
    // 20 * 3 * 1 = 60 is more than 100 - 41 = 59
    assert_eq!(search.record(Some(Direction::Up), 20, 41), Step::Stop);
}

#[test]
fn deepening_stops_without_a_move_and_falls_back() {
    let mut search = Deepening::new(500, 2);
    assert_eq!(search.record(None, 1, 1), Step::Stop);
    assert_eq!(search.best, None);
    let valid = vec![Direction::Down, Direction::Right];
    assert_eq!(search.answer(&valid, Some(1)), Direction::Right);
    assert_eq!(search.answer(&valid, None), Direction::Up);
    assert_eq!(search.answer(&vec![], Some(0)), Direction::Up);

    // a move found earlier survives a later depth without one
    let mut search = Deepening::new(500, 2);
    assert_eq!(search.record(Some(Direction::Left), 1, 1), Step::Search(2));
    assert_eq!(search.record(None, 1, 2), Step::Stop);
    assert_eq!(search.answer(&valid, Some(1)), Direction::Left);
}

#[test]
fn deepening_stops_below_the_depth_limit() {
    let mut search = Deepening::new(u64::MAX, 1);
    let mut depth = FIRST_DEPTH;
    loop {
        match search.record(Some(Direction::Up), 0, 0) {
            Step::Search(next) => {
                assert_eq!(next, depth + 1);
                depth = next;
            }
            Step::Stop => break,
        }
    }
    assert_eq!(depth, DEPTH_LIMIT - 1);
    assert_eq!(DEPTH_LIMIT, 20);
}

#[test]
fn deepening_with_huge_times_does_not_overflow() {
    let mut search = Deepening::new(u64::MAX, u32::MAX);
    assert_eq!(search.record(Some(Direction::Up), u64::MAX, 0), Step::Stop);
}

#[test]
fn large_boards_get_the_random_agent() {
    assert_eq!(MAX_BOARD_SIDE, 19);
    assert_eq!(agent_for(AgentKind::Tree, 19, 19), AgentKind::Tree);
    assert_eq!(agent_for(AgentKind::Tree, 20, 19), AgentKind::Random);
    assert_eq!(agent_for(AgentKind::Flood, 11, 25), AgentKind::Random);
    assert_eq!(agent_for(AgentKind::Mobility, 11, 11), AgentKind::Mobility);
    assert_eq!(agent_for(AgentKind::Random, 11, 11), AgentKind::Random);
}

#[test]
fn wall_model_is_kept_by_the_heuristic() {
    let me = Snake::new(0, cells(&[(0, 0), (1, 0)]), 100);
    let other = Snake::new(1, cells(&[(4, 4)]), 100);
    let game = Game::new(5, 5, vec![me, other], vec![], vec![]);
    let mut flood = FloodFill::new(5, 5);
    flood.set_model(WallModel::Dissolving);
    match heuristic(&[], &mut flood, &game) {
        Leaf::Open(f) => assert_eq!(f.space, flood.count_space(0)),
        other => panic!("not an open leaf: {:?}", other),
    }
    assert!(flood.is_you(Vec2D::new(1, 0)));
}
