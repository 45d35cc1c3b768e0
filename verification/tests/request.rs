use snork::env::{Board, Direction, GameData, GameRequest, MoveResponse, Ruleset, SnakeData, Vec2D};
use snork::game::request::ParseError;
use snork::game::simulator::{Game, DEFAULT_HAZARD_DAMAGE};

fn cells(list: &[(i16, i16)]) -> Vec<Vec2D> {
    list.iter().map(|&(x, y)| Vec2D::new(x, y)).collect()
}

fn snake(id: &str, health: u8, body: &[(i16, i16)]) -> SnakeData {
    SnakeData {
        id: id.to_string(),
        name: format!("snake {}", id),
        health,
        body: cells(body),
        shout: String::new(),
    }
}

fn request(you: &str, snakes: Vec<SnakeData>) -> GameRequest {
    GameRequest {
        game: GameData {
            id: "game".to_string(),
            ruleset: Ruleset { name: "standard".to_string() },
            timeout: 500,
        },
        turn: 69,
        board: Board {
            height: 11,
            width: 11,
            food: cells(&[(7, 9), (1, 0)]),
            hazards: cells(&[(0, 0)]),
            snakes,
        },
        you: snake(you, 89, &[(8, 7), (8, 8)]),
    }
}

fn three() -> Vec<SnakeData> {
    vec![
        snake("a", 85, &[(7, 10), (8, 10)]),
        snake("b", 80, &[(5, 8), (4, 8), (4, 9)]),
        snake("c", 89, &[(8, 7), (8, 8)]),
    ]
}

#[test]
fn you_become_snake_zero_and_the_others_keep_their_order() {
    let game = Game::from_request(&request("c", three())).unwrap();
    assert_eq!(game.snakes.len(), 3);
    assert_eq!(game.snakes[0].body, cells(&[(8, 7), (8, 8)]));
    assert_eq!(game.snakes[1].body, cells(&[(7, 10), (8, 10)]));
    assert_eq!(game.snakes[2].body, cells(&[(5, 8), (4, 8), (4, 9)]));
    for (i, s) in game.snakes.iter().enumerate() {
        assert_eq!(s.id as usize, i);
    }
    assert_eq!(game.snakes[0].health, 89);
    assert_eq!(game.snakes[1].health, 85);
    assert_eq!(game.snakes[2].health, 80);
    assert_eq!(game.turn, 69);
    assert_eq!(game.width, 11);
    assert_eq!(game.height, 11);
    assert_eq!(game.food, cells(&[(7, 9), (1, 0)]));
    assert_eq!(game.hazards, cells(&[(0, 0)]));
    assert_eq!(game.hazard_damage, DEFAULT_HAZARD_DAMAGE);

    let game = Game::from_request(&request("b", three())).unwrap();
    assert_eq!(game.snakes[0].health, 80);
    assert_eq!(game.snakes[1].health, 85);
    assert_eq!(game.snakes[2].health, 89);

    let game = Game::from_request(&request("a", three())).unwrap();
    assert_eq!(game.snakes[0].health, 85);
    assert_eq!(game.snakes[1].health, 80);
    assert_eq!(game.snakes[2].health, 89);
}

#[test]
fn missing_you_is_an_error() {
    assert_eq!(
        Game::from_request(&request("z", three())).err(),
        Some(ParseError::MissingYou)
    );
    assert_eq!(
        Game::from_request(&request("a", vec![])).err(),
        Some(ParseError::MissingYou)
    );
}

#[test]
fn duplicate_ids_are_an_error() {
    let mut snakes = three();
    snakes.push(snake("b", 50, &[(0, 0)]));
    assert_eq!(
        Game::from_request(&request("c", snakes)).err(),
        Some(ParseError::DuplicateSnake)
    );
}

#[test]
fn an_empty_body_is_an_error_before_all_others_of_the_snakes() {
    let mut snakes = three();
    snakes.push(snake("b", 50, &[]));
    assert_eq!(
        Game::from_request(&request("z", snakes)).err(),
        Some(ParseError::EmptyBody)
    );
}

#[test]
fn what_does_not_fit_is_out_of_range() {
    let mut snakes = three();
    snakes[1].health = 101;
    assert_eq!(
        Game::from_request(&request("c", snakes)).err(),
        Some(ParseError::OutOfRange)
    );
    let mut snakes = three();
    snakes[0].body[0] = Vec2D::new(11, 3);
    assert_eq!(
        Game::from_request(&request("c", snakes)).err(),
        Some(ParseError::OutOfRange)
    );
    // a dead snake may lie anywhere
    let mut snakes = three();
    snakes[0].body[0] = Vec2D::new(11, 3);
    snakes[0].health = 0;
    assert!(Game::from_request(&request("c", snakes)).is_ok());
    let mut big = request("c", three());
    big.board.width = 40000;
    assert_eq!(Game::from_request(&big).err(), Some(ParseError::OutOfRange));
    let mut many = three();
    for i in 0..253 {
        many.push(snake(&format!("s{}", i), 100, &[(1, 1)]));
    }
    assert_eq!(many.len(), 256);
    assert_eq!(
        Game::from_request(&request("c", many)).err(),
        Some(ParseError::OutOfRange)
    );
}

#[test]
fn move_response_has_nothing_to_shout() {
    let r = MoveResponse::new(Direction::Left);
    assert_eq!(r.direction, Direction::Left);
    assert_eq!(r.shout, "");
}
