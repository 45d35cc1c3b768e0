use snork::agents::util::{Grid, BOARD_FOOD, BOARD_OBSTACLE};
use snork::env::{Direction, Vec2D};

fn is_step(a: Vec2D, b: Vec2D) -> bool {
    a.minus(b).manhattan() == 1
}

fn check_way(grid: &Grid, way: &[Vec2D], start: Vec2D, target: Vec2D) {
    assert_eq!(way[0], start);
    assert_eq!(way[way.len() - 1], target);
    for k in 1..way.len() {
        assert!(is_step(way[k - 1], way[k]));
        assert!(grid.avaliable(way[k]));
        assert!(!way[..k].contains(&way[k]));
    }
}

#[test]
fn test_a_star() {
    let grid = Grid::new();

    let path = grid
        .a_star(Vec2D::new(0, 0), Vec2D::new(1, 1), [10, 0, 0, 0])
        .unwrap();
    println!("{:?}", path);
    assert_eq!(path.len(), 3);
    assert_eq!(path[0], Vec2D::new(0, 0));
    assert_eq!(path[2], Vec2D::new(1, 1));
}

#[test]
fn first_move_cost_steers_the_first_step() {
    let grid = Grid::new();
    let start = Vec2D::new(5, 5);
    let target = Vec2D::new(6, 6);
    let mut cost = [0u32; 4];
    cost[Direction::Up.index()] = 10;
    let way = grid.a_star(start, target, cost).unwrap();
    assert_eq!(way, vec![start, Vec2D::new(6, 5), target]);

    let mut cost = [0u32; 4];
    cost[Direction::Right.index()] = 10;
    let way = grid.a_star(start, target, cost).unwrap();
    assert_eq!(way, vec![start, Vec2D::new(5, 6), target]);
}

#[test]
fn way_to_the_start_itself() {
    let grid = Grid::new();
    let p = Vec2D::new(3, 3);
    assert_eq!(grid.a_star(p, p, [0; 4]), Some(vec![p]));
}

#[test]
fn way_goes_round_a_wall() {
    let mut grid = Grid::new();
    for y in 0..10 {
        grid.set(Vec2D::new(5, y), BOARD_OBSTACLE);
    }
    grid.set(Vec2D::new(7, 3), BOARD_FOOD);
    let start = Vec2D::new(0, 0);
    let target = Vec2D::new(10, 0);
    let way = grid.a_star(start, target, [0; 4]).unwrap();
    check_way(&grid, &way, start, target);
    assert!(way.contains(&Vec2D::new(5, 10)));
    assert!(way.len() >= 31);
}

#[test]
fn no_way_through_a_closed_wall() {
    let mut grid = Grid::new();
    for y in 0..11 {
        grid.set(Vec2D::new(5, y), BOARD_OBSTACLE);
    }
    assert_eq!(grid.a_star(Vec2D::new(0, 0), Vec2D::new(10, 0), [0; 4]), None);
    assert_eq!(grid.a_star(Vec2D::new(0, 0), Vec2D::new(5, 5), [0; 4]), None);
    assert_eq!(grid.a_star(Vec2D::new(0, 0), Vec2D::new(20, 20), [0; 4]), None);
    let way = grid.a_star(Vec2D::new(0, 0), Vec2D::new(4, 10), [3, 3, 3, 3]).unwrap();
    check_way(&grid, &way, Vec2D::new(0, 0), Vec2D::new(4, 10));
    assert_eq!(way.len(), 15);
}

#[test]
fn way_may_begin_on_an_obstacle() {
    let mut grid = Grid::new();
    let start = Vec2D::new(2, 2);
    grid.set(start, BOARD_OBSTACLE);
    let target = Vec2D::new(2, 4);
    let way = grid.a_star(start, target, [0; 4]).unwrap();
    check_way(&grid, &way, start, target);
    assert_eq!(way.len(), 3);
}

#[test]
fn way_from_beside_the_board() {
    let grid = Grid::new();
    // below the board: the way holds the start
    let start = Vec2D::new(3, -1);
    let target = Vec2D::new(3, 1);
    let way = grid.a_star(start, target, [0; 4]).unwrap();
    assert_eq!(way, vec![start, Vec2D::new(3, 0), target]);
    // left of the board: the way begins behind the start
    let start = Vec2D::new(-1, 3);
    let target = Vec2D::new(1, 3);
    let way = grid.a_star(start, target, [0; 4]).unwrap();
    assert_eq!(way, vec![Vec2D::new(0, 3), target]);
    assert_eq!(grid.a_star(start, start, [0; 4]), Some(vec![]));
    // nowhere near the board
    assert_eq!(grid.a_star(Vec2D::new(-5, -5), target, [0; 4]), None);
}

#[test]
fn the_way_found_is_a_shortest_one() {
    let mut grid = Grid::new();
    for y in 1..11 {
        grid.set(Vec2D::new(3, y), BOARD_OBSTACLE);
    }
    for y in 0..10 {
        grid.set(Vec2D::new(6, y), BOARD_OBSTACLE);
    }
    let start = Vec2D::new(0, 5);
    let target = Vec2D::new(10, 5);
    let way = grid.a_star(start, target, [0; 4]).unwrap();
    check_way(&grid, &way, start, target);
    // down to the gap at (3,0), up to the gap at (6,10), down to the target
    assert_eq!(way.len() - 1, (3 + 5) + (3 + 10) + (4 + 5));
}

#[test]
fn a_dear_first_move_is_made_where_no_other_leads_on() {
    let mut grid = Grid::new();
    // above the start is a pocket of one cell
    grid.set(Vec2D::new(0, 2), BOARD_OBSTACLE);
    grid.set(Vec2D::new(1, 1), BOARD_OBSTACLE);
    let start = Vec2D::new(0, 0);
    let target = Vec2D::new(2, 0);
    let mut cost = [0u32; 4];
    cost[Direction::Right.index()] = 1000;
    let way = grid.a_star(start, target, cost).unwrap();
    assert_eq!(way, vec![start, Vec2D::new(1, 0), target]);
}

#[test]
fn a_dear_first_move_is_gone_round_where_that_is_cheaper() {
    let grid = Grid::new();
    let start = Vec2D::new(0, 0);
    let target = Vec2D::new(1, 0);
    let mut cost = [0u32; 4];
    cost[Direction::Right.index()] = 25;
    // right: 10 + 25; up, right, down: 30
    let way = grid.a_star(start, target, cost).unwrap();
    assert_eq!(way, vec![start, Vec2D::new(0, 1), Vec2D::new(1, 1), target]);
    cost[Direction::Right.index()] = 15;
    let way = grid.a_star(start, target, cost).unwrap();
    assert_eq!(way, vec![start, target]);
}
