use snork::agents::util::{
    CSnake, Grid, BOARD_FOOD, BOARD_FREE, BOARD_OBSTACLE,
};
use snork::env::{Direction, Vec2D};

#[test]
fn test_flood_fill() {
    let mut grid = Grid::new();
    grid.flood_fill(&[(0, Vec2D::new(0, 0))]);
    println!("Filled {:?}", grid);

    let mut grid = Grid::new();
    grid.flood_fill(&[(0, Vec2D::new(0, 0)), (1, Vec2D::new(10, 10))]);
    println!("Filled {:?}", grid);

    let mut grid = Grid::new();
    grid.flood_fill(&[
        (0, Vec2D::new(0, 0)),
        (1, Vec2D::new(10, 10)),
        (2, Vec2D::new(5, 5)),
    ]);
    println!("Filled {:?}", grid);
}

#[test]
fn test_space_after_move() {
    let snakes = [CSnake::new(0, vec![Vec2D::new(0, 0)])];
    let grid = Grid::filled(&snakes);
    let space = grid.space_after_move(0, &snakes);
    println!("space after move {:?}", space);
}

#[test]
fn new_grid_is_free() {
    let grid = Grid::new();
    assert_eq!(grid.count(BOARD_FREE), 121);
    assert_eq!(grid.count(BOARD_OBSTACLE), 0);
    assert_eq!(grid.get(Vec2D::new(10, 10)), BOARD_FREE);
}

#[test]
fn has_tells_the_board_from_the_rest() {
    let grid = Grid::new();
    assert!(grid.has(Vec2D::new(0, 0)));
    assert!(grid.has(Vec2D::new(10, 10)));
    assert!(!grid.has(Vec2D::new(11, 0)));
    assert!(!grid.has(Vec2D::new(0, 11)));
    assert!(!grid.has(Vec2D::new(-1, 5)));
    assert!(!grid.has(Vec2D::new(5, -1)));
}

#[test]
fn set_changes_one_cell() {
    let mut grid = Grid::new();
    grid.set(Vec2D::new(3, 7), 5);
    assert_eq!(grid.get(Vec2D::new(3, 7)), 5);
    assert_eq!(grid.get(Vec2D::new(7, 3)), BOARD_FREE);
    assert_eq!(grid.count(5), 1);
    assert_eq!(grid.count(BOARD_FREE), 120);
}

#[test]
fn filled_marks_bodies() {
    let snakes = [
        CSnake::new(0, vec![Vec2D::new(0, 0), Vec2D::new(1, 0), Vec2D::new(1, 1)]),
        CSnake::new(1, vec![Vec2D::new(5, 5), Vec2D::new(5, 5)]),
    ];
    let grid = Grid::filled(&snakes);
    assert_eq!(grid.count(BOARD_OBSTACLE), 4);
    assert_eq!(grid.count(BOARD_FREE), 117);
    assert_eq!(grid.get(Vec2D::new(1, 1)), BOARD_OBSTACLE);
    assert_eq!(grid.get(Vec2D::new(0, 1)), BOARD_FREE);
    assert!(!grid.avaliable(Vec2D::new(5, 5)));
    assert!(grid.avaliable(Vec2D::new(5, 6)));
    assert!(!grid.avaliable(Vec2D::new(-1, 0)));
}

#[test]
fn populate_skips_cells_off_the_board() {
    let mut grid = Grid::new();
    grid.populate(&[Vec2D::new(7, 9), Vec2D::new(11, 0), Vec2D::new(1, 0), Vec2D::new(0, -4)]);
    assert_eq!(grid.count(BOARD_FOOD), 2);
    assert_eq!(grid.get(Vec2D::new(7, 9)), BOARD_FOOD);
    assert_eq!(grid.get(Vec2D::new(1, 0)), BOARD_FOOD);
    assert!(grid.avaliable(Vec2D::new(7, 9)));
}

#[test]
fn flood_fill_single_seed_takes_the_board() {
    let mut grid = Grid::new();
    grid.flood_fill(&[(0, Vec2D::new(0, 0))]);
    assert_eq!(grid.count(0), 121);
    assert_eq!(grid.count(BOARD_FREE), 0);
}

#[test]
fn flood_fill_ties_go_to_the_earlier_seed() {
    let mut grid = Grid::new();
    grid.flood_fill(&[(0, Vec2D::new(0, 0)), (1, Vec2D::new(10, 10))]);
    assert_eq!(grid.count(0), 66);
    assert_eq!(grid.count(1), 55);
    assert_eq!(grid.get(Vec2D::new(10, 0)), 0);
    assert_eq!(grid.get(Vec2D::new(0, 10)), 0);
    assert_eq!(grid.get(Vec2D::new(10, 1)), 1);

    let mut grid = Grid::new();
    grid.flood_fill(&[(1, Vec2D::new(10, 10)), (0, Vec2D::new(0, 0))]);
    assert_eq!(grid.count(0), 55);
    assert_eq!(grid.count(1), 66);
}

#[test]
fn flood_fill_stops_at_walls_and_food() {
    let mut grid = Grid::new();
    for y in 0..11 {
        grid.set(Vec2D::new(4, y), BOARD_OBSTACLE);
    }
    for y in 0..11 {
        grid.set(Vec2D::new(8, y), BOARD_FOOD);
    }
    grid.flood_fill(&[(3, Vec2D::new(0, 0)), (7, Vec2D::new(6, 6)), (9, Vec2D::new(4, 4))]);
    assert_eq!(grid.count(3), 44);
    assert_eq!(grid.count(7), 33);
    assert_eq!(grid.count(9), 0);
    assert_eq!(grid.count(BOARD_OBSTACLE), 11);
    assert_eq!(grid.count(BOARD_FOOD), 11);
    assert_eq!(grid.count(BOARD_FREE), 22);
}

#[test]
fn flood_fill_ignores_seeds_off_the_board() {
    let mut grid = Grid::new();
    grid.flood_fill(&[(0, Vec2D::new(-1, 0)), (1, Vec2D::new(11, 11))]);
    assert_eq!(grid.count(BOARD_FREE), 121);
}

#[test]
fn counts_partition_the_board() {
    let mut grid = Grid::new();
    grid.set(Vec2D::new(5, 5), BOARD_OBSTACLE);
    grid.set(Vec2D::new(5, 6), BOARD_OBSTACLE);
    grid.flood_fill(&[(0, Vec2D::new(0, 0)), (1, Vec2D::new(10, 10))]);
    let owned = grid.count(0) + grid.count(1);
    assert_eq!(owned + grid.count(BOARD_FREE), 121 - grid.count(BOARD_OBSTACLE));
    assert_eq!(grid.count(BOARD_OBSTACLE), 2);
}

#[test]
fn space_after_move_of_a_lone_snake_in_the_corner() {
    let snakes = [CSnake::new(0, vec![Vec2D::new(0, 0)])];
    let grid = Grid::filled(&snakes);
    let space = grid.space_after_move(0, &snakes);
    assert_eq!(space[Direction::Up.index()], 119);
    assert_eq!(space[Direction::Right.index()], 119);
    assert_eq!(space[Direction::Down.index()], 0);
    assert_eq!(space[Direction::Left.index()], 0);
}

#[test]
fn csnake_head_and_identity() {
    let a = CSnake::new(3, vec![Vec2D::new(2, 2), Vec2D::new(2, 3)]);
    let b = CSnake::new(3, vec![Vec2D::new(9, 9)]);
    let c = CSnake::new(4, vec![Vec2D::new(2, 2), Vec2D::new(2, 3)]);
    assert_eq!(a.head(), Vec2D::new(2, 2));
    assert!(a == b);
    assert!(a != c);
}

#[test]
fn grid_clone_is_equal() {
    let mut grid = Grid::new();
    grid.set(Vec2D::new(1, 2), 9);
    let copy = grid.clone();
    assert_eq!(copy.get(Vec2D::new(1, 2)), 9);
    assert_eq!(copy.count(BOARD_FREE), 120);
}

#[test]
fn flood_fill_three_seeds_share_the_board() {
    let mut grid = Grid::new();
    grid.flood_fill(&[
        (0, Vec2D::new(0, 0)),
        (1, Vec2D::new(10, 10)),
        (2, Vec2D::new(5, 5)),
    ]);
    assert_eq!(grid.count(0), 31);
    assert_eq!(grid.count(1), 29);
    assert_eq!(grid.count(2), 61);
    assert_eq!(grid.count(BOARD_FREE), 0);
}

fn body(list: &[(i16, i16)]) -> Vec<Vec2D> {
    list.iter().map(|&(x, y)| Vec2D::new(x, y)).collect()
}

#[test]
fn space_after_move_against_a_longer_snake() {
    let snakes = [
        CSnake::new(0, body(&[(0, 0)])),
        CSnake::new(1, body(&[(10, 10), (10, 9)])),
    ];
    let grid = Grid::filled(&snakes);
    assert_eq!(grid.space_after_move(0, &snakes), [52, 0, 0, 53]);
    assert_eq!(grid.space_after_move(1, &snakes), [0, 0, 63, 0]);
}

#[test]
fn space_after_move_among_three_snakes_with_food() {
    let snakes = [
        CSnake::new(0, body(&[(5, 5), (5, 4), (5, 3), (4, 3)])),
        CSnake::new(1, body(&[(7, 5), (7, 6), (7, 7), (6, 7), (5, 7)])),
        CSnake::new(2, body(&[(2, 8), (2, 9)])),
    ];
    let mut grid = Grid::filled(&snakes);
    grid.populate(&[Vec2D::new(5, 6), Vec2D::new(0, 0)]);
    assert_eq!(grid.space_after_move(0, &snakes), [16, 0, 32, 0]);
    assert_eq!(grid.space_after_move(1, &snakes), [0, 45, 38, 40]);
    assert_eq!(grid.space_after_move(2, &snakes), [0, 17, 14, 17]);
}

#[test]
fn space_after_move_with_a_longer_snake_beside_the_board() {
    // the longer snake has its head one cell off the board and can come in at (10,5)
    let snakes = [
        CSnake::new(0, body(&[(0, 0)])),
        CSnake::new(1, body(&[(11, 5), (10, 6)])),
    ];
    let grid = Grid::new();
    let space = grid.space_after_move(0, &snakes);
    assert_eq!(space[Direction::Down.index()], 0);
    assert_eq!(space[Direction::Left.index()], 0);
    assert!(space[Direction::Up.index()] > 0 && space[Direction::Up.index()] <= 121);
    assert!(space[Direction::Right.index()] > 0 && space[Direction::Right.index()] <= 121);
}

#[test]
fn space_after_move_without_an_open_move() {
    // shut in: the other snakes may then lie anywhere
    let snakes = [
        CSnake::new(0, body(&[(0, 0), (0, 0)])),
        CSnake::new(1, body(&[(40, 40), (41, 40)])),
        CSnake::new(2, body(&[(-7, 3)])),
    ];
    let mut grid = Grid::new();
    grid.set(Vec2D::new(0, 1), BOARD_OBSTACLE);
    grid.set(Vec2D::new(1, 0), BOARD_OBSTACLE);
    assert_eq!(grid.space_after_move(0, &snakes), [0, 0, 0, 0]);
}
