use snork::env::Vec2D;
use snork::game::flood::{FloodFill, Owner, WallModel};
use snork::game::simulator::{Game, Snake};

fn cells(list: &[(i16, i16)]) -> Vec<Vec2D> {
    list.iter().map(|&(x, y)| Vec2D::new(x, y)).collect()
}

fn filled(game: &Game, model: WallModel) -> FloodFill {
    let mut flood = FloodFill::new(game.width, game.height);
    flood.set_model(model);
    flood.flood_snakes(game, 0);
    flood
}

fn check_partition(game: &Game, flood: &FloodFill) {
    let mut owned = 0;
    for id in 0..=255u8 {
        owned += flood.count_space(id);
    }
    assert_eq!(owned, flood.count_owned());
    assert_eq!(
        owned + flood.count(Owner::Unowned) + flood.count(Owner::Contested),
        game.width * game.height - flood.count(Owner::Wall)
    );
}

#[test]
fn lone_snake_owns_all_but_its_body() {
    let game = Game::new(
        11,
        11,
        vec![Snake::new(0, cells(&[(5, 5), (5, 4), (5, 3)]), 100)],
        vec![],
        vec![],
    );
    let flood = filled(&game, WallModel::Static);
    assert_eq!(flood.count(Owner::Wall), 3);
    assert_eq!(flood.count_space(0), 118);
    assert_eq!(flood.count_space_of(true), 118);
    assert_eq!(flood.count_space_of(false), 0);
    assert_eq!(flood.count(Owner::Unowned), 0);
    assert_eq!(flood.count(Owner::Contested), 0);
    assert_eq!(flood.owner_of(Vec2D::new(5, 5)), Owner::Wall);
    assert!(flood.is_you(Vec2D::new(0, 0)));
    assert!(!flood.is_you(Vec2D::new(5, 4)));
    check_partition(&game, &flood);
}

#[test]
fn equal_snakes_contest_the_middle() {
    let a = Snake::new(0, cells(&[(0, 0)]), 100);
    let b = Snake::new(1, cells(&[(4, 0)]), 100);
    let game = Game::new(5, 1, vec![a, b], vec![], vec![]);
    let flood = filled(&game, WallModel::Static);
    assert_eq!(flood.owner_of(Vec2D::new(0, 0)), Owner::Wall);
    assert_eq!(flood.owner_of(Vec2D::new(1, 0)), Owner::Snake(0));
    assert_eq!(flood.owner_of(Vec2D::new(2, 0)), Owner::Contested);
    assert_eq!(flood.owner_of(Vec2D::new(3, 0)), Owner::Snake(1));
    assert_eq!(flood.owner_of(Vec2D::new(4, 0)), Owner::Wall);
    assert_eq!(flood.count(Owner::Contested), 1);
    check_partition(&game, &flood);
}

#[test]
fn the_longer_snake_takes_the_tie() {
    let a = Snake::new(0, cells(&[(0, 0), (0, 1)]), 100);
    let b = Snake::new(1, cells(&[(4, 0)]), 100);
    let game = Game::new(5, 2, vec![a, b], vec![], vec![]);
    let flood = filled(&game, WallModel::Static);
    assert_eq!(flood.owner_of(Vec2D::new(2, 0)), Owner::Snake(0));
    // the second row: (1,1) at 1 from the body cell is not a head, so snake 0 comes by (1,0)
    assert_eq!(flood.owner_of(Vec2D::new(1, 1)), Owner::Snake(0));
    assert_eq!(flood.owner_of(Vec2D::new(4, 1)), Owner::Snake(1));
    assert_eq!(flood.owner_of(Vec2D::new(3, 1)), Owner::Snake(1));
    assert_eq!(flood.owner_of(Vec2D::new(2, 1)), Owner::Snake(0));
    assert_eq!(flood.count_space(0), 4);
    assert_eq!(flood.count_space(1), 3);
    assert_eq!(flood.count_space_of(false), 3);
    check_partition(&game, &flood);
}

#[test]
fn a_contested_cell_stops_the_fronts() {
    // a corridor of width 1 with the two heads at its ends and a side room in the middle
    //   . . # . .      y = 1: only (2,1) is free
    //   a . . . b      y = 0
    let a = Snake::new(0, cells(&[(0, 0)]), 100);
    let b = Snake::new(1, cells(&[(4, 0)]), 100);
    let wall = Snake::new(2, cells(&[(0, 1), (1, 1), (1, 1)]), 100);
    let wall2 = Snake::new(3, cells(&[(4, 1), (3, 1), (3, 1)]), 100);
    let game = Game::new(5, 2, vec![a, b, wall, wall2], vec![], vec![]);
    let flood = filled(&game, WallModel::Static);
    assert_eq!(flood.owner_of(Vec2D::new(2, 0)), Owner::Contested);
    assert_eq!(flood.owner_of(Vec2D::new(2, 1)), Owner::Unowned);
    assert_eq!(flood.count(Owner::Wall), 6);
    check_partition(&game, &flood);
}

#[test]
fn dead_snakes_are_neither_walls_nor_seeds() {
    let a = Snake::new(0, cells(&[(0, 0)]), 100);
    let b = Snake::new(1, cells(&[(2, 0), (3, 0)]), 0);
    let game = Game::new(5, 1, vec![a, b], vec![], vec![]);
    let flood = filled(&game, WallModel::Static);
    assert_eq!(flood.count_space(0), 4);
    assert_eq!(flood.count(Owner::Wall), 1);
    check_partition(&game, &flood);
}

#[test]
fn walled_in_cells_stay_unowned() {
    let a = Snake::new(0, cells(&[(0, 0)]), 100);
    let b = Snake::new(1, cells(&[(2, 0), (2, 0), (2, 0)]), 100);
    let game = Game::new(5, 1, vec![a, b], vec![], vec![]);
    let flood = filled(&game, WallModel::Static);
    assert_eq!(flood.owner_of(Vec2D::new(1, 0)), Owner::Snake(1));
    assert_eq!(flood.owner_of(Vec2D::new(3, 0)), Owner::Snake(1));
    assert_eq!(flood.owner_of(Vec2D::new(4, 0)), Owner::Snake(1));
    check_partition(&game, &flood);

    let a = Snake::new(0, cells(&[(0, 0), (1, 0)]), 100);
    let game = Game::new(5, 1, vec![a], vec![], vec![]);
    let flood = filled(&game, WallModel::Static);
    assert_eq!(flood.count(Owner::Unowned), 3);
    assert_eq!(flood.count_space(0), 0);
    check_partition(&game, &flood);
}

#[test]
fn dissolving_walls_let_the_front_pass_behind_a_tail() {
    // the snake's own tail is gone by the time its front comes round
    let a = Snake::new(0, cells(&[(0, 0), (1, 0)]), 100);
    let game = Game::new(5, 1, vec![a], vec![], vec![]);
    let flood = filled(&game, WallModel::Dissolving);
    // (1,0) is one cell behind the head of a snake of 2: a wall for 1 tick, so free in layer 1
    assert_eq!(flood.owner_of(Vec2D::new(1, 0)), Owner::Snake(0));
    assert_eq!(flood.owner_of(Vec2D::new(4, 0)), Owner::Snake(0));
    // and the cell under the head is free again in layer 2
    assert_eq!(flood.owner_of(Vec2D::new(0, 0)), Owner::Snake(0));
    assert_eq!(flood.count_space(0), 5);
    assert_eq!(flood.count(Owner::Wall), 0);
    check_partition(&game, &flood);

    // a longer body still blocks: the neck of a snake of 3 is a wall for 2 ticks
    let a = Snake::new(0, cells(&[(1, 0), (2, 0), (3, 0)]), 100);
    let game = Game::new(5, 1, vec![a], vec![], vec![]);
    let flood = filled(&game, WallModel::Dissolving);
    assert_eq!(flood.owner_of(Vec2D::new(0, 0)), Owner::Snake(0));
    assert_eq!(flood.owner_of(Vec2D::new(2, 0)), Owner::Wall);
    assert_eq!(flood.owner_of(Vec2D::new(4, 0)), Owner::Unowned);
    check_partition(&game, &flood);
}

#[test]
fn buffers_are_reused_for_another_board() {
    let a = Snake::new(0, cells(&[(0, 0)]), 100);
    let game = Game::new(3, 3, vec![a], vec![], vec![]);
    let mut flood = FloodFill::new(11, 11);
    flood.flood_snakes(&game, 0);
    assert_eq!(flood.count_space(0), 8);
    let b = Snake::new(0, cells(&[(1, 1)]), 100);
    let c = Snake::new(1, cells(&[(3, 1), (3, 0)]), 100);
    let game = Game::new(4, 2, vec![b, c], vec![], vec![]);
    flood.flood_snakes(&game, 1);
    assert!(flood.is_you(Vec2D::new(2, 1)));
    assert_eq!(flood.owner_of(Vec2D::new(2, 0)), Owner::Snake(1));
    assert_eq!(flood.owner_of(Vec2D::new(0, 0)), Owner::Snake(0));
    assert_eq!(flood.count_space_of(true), 2);
    assert_eq!(flood.count_space_of(false), 3);
    check_partition(&game, &flood);
}

fn counts(flood: &FloodFill) -> (usize, usize, usize, [usize; 4]) {
    (
        flood.count(Owner::Wall),
        flood.count(Owner::Unowned),
        flood.count(Owner::Contested),
        [
            flood.count_space(0),
            flood.count_space(1),
            flood.count_space(2),
            flood.count_space(3),
        ],
    )
}

#[test]
fn three_snakes_of_different_lengths() {
    let snakes = || {
        vec![
            Snake::new(0, cells(&[(5, 5), (5, 4), (5, 3), (4, 3)]), 100),
            Snake::new(1, cells(&[(7, 5), (7, 6), (7, 7), (6, 7), (5, 7)]), 100),
            Snake::new(2, cells(&[(2, 8), (2, 9)]), 100),
            Snake::new(3, cells(&[(0, 0), (0, 1)]), 0),
        ]
    };
    let game = Game::new(11, 11, snakes(), vec![], vec![]);
    let flood = filled(&game, WallModel::Static);
    assert_eq!(counts(&flood), (11, 0, 0, [30, 54, 26, 0]));
    check_partition(&game, &flood);
    let flood = filled(&game, WallModel::Dissolving);
    assert_eq!(counts(&flood), (0, 0, 0, [38, 61, 22, 0]));
    check_partition(&game, &flood);
}

#[test]
fn four_equal_snakes_contest_the_lines_between_them() {
    let snakes = vec![
        Snake::new(0, cells(&[(1, 1), (1, 2), (1, 3)]), 100),
        Snake::new(1, cells(&[(9, 9), (9, 8), (9, 7)]), 100),
        Snake::new(2, cells(&[(1, 9), (2, 9), (3, 9)]), 100),
        Snake::new(3, cells(&[(9, 1), (8, 1), (7, 1)]), 100),
    ];
    let game = Game::new(11, 11, snakes, vec![], vec![]);
    let flood = filled(&game, WallModel::Static);
    assert_eq!(counts(&flood), (12, 1, 20, [22, 22, 22, 22]));
    assert_eq!(flood.owner_of(Vec2D::new(5, 5)), Owner::Unowned);
    check_partition(&game, &flood);
    let flood = filled(&game, WallModel::Dissolving);
    assert_eq!(counts(&flood), (0, 1, 20, [25, 25, 25, 25]));
    check_partition(&game, &flood);
}
