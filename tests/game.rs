use hlt::board::{Board, CellReport, Position, Structure};
use hlt::engine::{parse_isize, parse_usize, Engine, EngineParseError, LineSource};
use hlt::game::{
    Command, Direction, DropoffId, Game, Player, PlayerId, Ship, ShipId, Shipyard, ShipyardId,
};
use hlt::turn::{DropoffReport, PlayerReport, ShipReport, TurnReport};

struct Lines {
    lines: Vec<Vec<u8>>,
    next: usize,
}

impl Lines {
    fn new(text: &str) -> Lines {
        Lines {
            lines: text.lines().map(|l| l.as_bytes().to_vec()).collect(),
            next: 0,
        }
    }
}

impl LineSource for Lines {
    fn read_line(&mut self) -> Option<Vec<u8>> {
        if self.next < self.lines.len() {
            self.next += 1;
            Some(self.lines[self.next - 1].clone())
        } else {
            None
        }
    }
}

const START_5X5: &str = "1 0\n0 0 0\n5 5\n0 0 0 0 0\n0 0 0 0 0\n0 0 0 0 0\n0 0 0 0 0\n0 0 0 0 0\n";

fn start(text: &str) -> Game {
    let mut engine = Engine::new();
    let mut src = Lines::new(text);
    Game::start(&mut engine, &mut src).unwrap()
}

fn update(game: &mut Game, text: &str) -> Result<(), EngineParseError> {
    let mut engine = Engine::new();
    let mut src = Lines::new(text);
    game.update(&mut engine, &mut src)
}

#[test]
fn end_to_end_first_ship_on_shipyard() {
    let mut game = start(START_5X5);
    assert_eq!(game.turn, 0);
    assert_eq!(game.board.width, 5);
    assert_eq!(game.board.height, 5);
    assert!(game.ships.is_empty());
    update(&mut game, "1\n0 1 0 0\n0 0 0 0\n0\n").unwrap();
    assert_eq!(game.turn, 1);
    let cell = game.board.index(Position::new(0, 0));
    assert_eq!(cell.ship, Some(ShipId(0)));
    assert_eq!(cell.structure, Some(Structure::Shipyard(ShipyardId(0))));
    assert_eq!(game.me().ship_ids, vec![ShipId(0)]);
}

#[test]
fn start_reads_players_and_board() {
    let game = start("2 1\n0 1 2\n1 3 4\n3 2\n1 2 3\n4 5 6\n");
    assert_eq!(game.my_id, PlayerId(1));
    assert_eq!(game.players.len(), 2);
    assert_eq!(game.players[1].shipyard.position, Position::new(3, 4));
    assert_eq!(game.players[1].shipyard.id, ShipyardId(1));
    assert_eq!(game.me().id, PlayerId(1));
    assert_eq!(game.board.index(Position::new(2, 1)).halite, 6);
    assert_eq!(game.board.index(Position::new(0, 1)).halite, 4);
    assert_eq!(game.board.index(Position::new(1, 0)).position, Position::new(1, 0));
}

#[test]
fn start_errors() {
    let mut engine = Engine::new();
    let mut src = Lines::new("1 0\n0 0\n");
    assert_eq!(
        Game::start(&mut engine, &mut src).err(),
        Some(EngineParseError::MissingToken)
    );
    let mut engine = Engine::new();
    let mut src = Lines::new("1 x\n");
    assert_eq!(
        Game::start(&mut engine, &mut src).err(),
        Some(EngineParseError::InvalidToken)
    );
    let mut engine = Engine::new();
    let mut src = Lines::new("2 0\n0 0 0\n0 1 1\n2 2\n0 0\n0 0\n");
    assert_eq!(
        Game::start(&mut engine, &mut src).err(),
        Some(EngineParseError::DuplicatePlayer)
    );
    let mut engine = Engine::new();
    let mut src = Lines::new("1 0\n0 0 0\n0 2\n");
    assert_eq!(
        Game::start(&mut engine, &mut src).err(),
        Some(EngineParseError::InvalidToken)
    );
    let mut engine = Engine::new();
    let mut src = Lines::new("1 0\n0 0 0\n1 1\n7 8\n");
    assert_eq!(
        Game::start(&mut engine, &mut src).err(),
        Some(EngineParseError::LeftoverToken)
    );
}

#[test]
fn absent_ship_is_dropped_everywhere() {
    let mut game = start(START_5X5);
    update(&mut game, "1\n0 2 0 0\n0 1 1 0\n1 2 2 0\n0\n").unwrap();
    assert_eq!(game.ships.len(), 2);
    assert_eq!(game.board.index(Position::new(1, 1)).ship, Some(ShipId(0)));
    update(&mut game, "2\n0 1 0 0\n1 2 3 0\n0\n").unwrap();
    assert!(game.get_ship(ShipId(0)).is_none());
    assert_eq!(game.players[0].ship_ids, vec![ShipId(1)]);
    for cell in game.board.cells.iter() {
        assert_ne!(cell.ship, Some(ShipId(0)));
    }
    assert_eq!(game.board.index(Position::new(2, 2)).ship, None);
    assert_eq!(game.board.index(Position::new(2, 3)).ship, Some(ShipId(1)));
}

#[test]
fn kept_ship_is_updated_in_place() {
    let mut game = start("2 0\n0 0 0\n1 4 4\n5 5\n0 0 0 0 0\n0 0 0 0 0\n0 0 0 0 0\n0 0 0 0 0\n0 0 0 0 0\n");
    update(&mut game, "1\n0 1 0 0\n3 1 1 10\n1 0 0 0\n0\n").unwrap();
    assert_eq!(game.get_ship(ShipId(3)).unwrap().player_id, PlayerId(0));
    // The same id reported under the other player keeps its first owner.
    update(&mut game, "2\n0 0 0 0\n1 1 0 5\n3 2 1 40\n0\n").unwrap();
    let ship = *game.get_ship(ShipId(3)).unwrap();
    assert_eq!(ship, Ship::new(ShipId(3), PlayerId(0), Position::new(2, 1), 40));
    assert_eq!(game.players[1].ship_ids, vec![ShipId(3)]);
    assert_eq!(game.players[1].halite, 5);
    assert!(game.players[0].ship_ids.is_empty());
}

#[test]
fn turn_updates_halite_and_dropoffs() {
    let mut game = start(START_5X5);
    update(&mut game, "1\n0 0 1 100\n4 3 3\n2\n1 1 50\n-1 -1 70\n").unwrap();
    assert_eq!(game.players[0].halite, 100);
    assert_eq!(game.players[0].dropoff_ids, vec![DropoffId(4)]);
    assert_eq!(game.get_dropoff(DropoffId(4)).unwrap().position, Position::new(3, 3));
    assert_eq!(
        game.board.index(Position::new(3, 3)).structure,
        Some(Structure::Dropoff(DropoffId(4)))
    );
    assert_eq!(game.board.index(Position::new(1, 1)).halite, 50);
    assert_eq!(game.board.index(Position::new(4, 4)).halite, 70);
    assert_eq!(game.board.index(Position::new(2, 2)).halite, 0);
}

#[test]
fn turn_with_unknown_player_is_refused() {
    let mut game = start(START_5X5);
    assert_eq!(
        update(&mut game, "1\n7 0 0 0\n0\n"),
        Err(EngineParseError::UnknownPlayer)
    );
    assert_eq!(game.turn, 0);
}

#[test]
fn turn_with_leftover_tokens_is_refused() {
    let mut game = start(START_5X5);
    assert_eq!(
        update(&mut game, "1\n0 0 0 0\n0 9\n"),
        Err(EngineParseError::LeftoverToken)
    );
}

#[test]
fn apply_turn_from_values() {
    let mut game = start(START_5X5);
    let report = TurnReport {
        turn: 3,
        players: vec![PlayerReport {
            id: PlayerId(0),
            halite: 9,
            ships: vec![ShipReport { id: ShipId(2), position: Position::new(6, -1), halite: 1 }],
            dropoffs: vec![DropoffReport { id: DropoffId(1), position: Position::new(2, 2) }],
        }],
        cells: vec![CellReport { position: Position::new(0, 0), halite: 8 }],
    };
    game.apply_turn(&report).unwrap();
    assert_eq!(game.board.index(Position::new(1, 4)).ship, Some(ShipId(2)));
    assert_eq!(game.board.index(Position::new(0, 0)).halite, 8);
    assert_eq!(game.turn, 3);
}

#[test]
fn encode_move_east() {
    let mut engine = Engine::new();
    engine.send(&Command::Move(ShipId(7), Direction::East));
    assert_eq!(engine.flush(), b"m 7 e \n ".to_vec());
}

#[test]
fn encode_each_command() {
    let mut game = start(START_5X5);
    game.commands.push(Command::Spawn);
    game.commands.push(Command::ConvertToDropoff(ShipId(12)));
    game.collect_halite(ShipId(305));
    game.commands.push(Command::Move(ShipId(0), Direction::North));
    game.commands.push(Command::Move(ShipId(1), Direction::South));
    game.commands.push(Command::Move(ShipId(2), Direction::West));
    let mut engine = Engine::new();
    assert_eq!(
        game.end_turn(&mut engine),
        b"g c 12 m 305 o m 0 n m 1 s m 2 w \n ".to_vec()
    );
    assert_eq!(game.ready(b"MyBot", &mut engine), b"MyBot \n ".to_vec());
}

#[test]
fn tokens_and_numbers() {
    assert_eq!(parse_usize(b"42"), Some(42));
    assert_eq!(parse_usize(b"+7"), Some(7));
    assert_eq!(parse_usize(b"-7"), None);
    assert_eq!(parse_usize(b""), None);
    assert_eq!(parse_usize(b"4x"), None);
    assert_eq!(parse_usize(b"18446744073709551616"), None);
    assert_eq!(parse_usize(b"18446744073709551615"), Some(usize::MAX));
    assert_eq!(parse_isize(b"-7"), Some(-7));
    assert_eq!(parse_isize(b"-9223372036854775808"), Some(isize::MIN));
    assert_eq!(parse_isize(b"9223372036854775808"), None);
    let mut engine = Engine::new();
    let mut src = Lines::new("  12\t-3 \r\n\n5");
    assert_eq!(engine.next_usize(&mut src), Ok(12));
    assert_eq!(engine.next_isize(&mut src), Ok(-3));
    assert!(engine.is_drained());
    // The blank line is passed over.
    assert_eq!(engine.next_usize(&mut src), Ok(5));
    assert_eq!(engine.next_usize(&mut src), Err(EngineParseError::MissingToken));
}

#[test]
fn spawn_and_move_update_board() {
    let mut game = start(START_5X5);
    update(&mut game, "1\n0 1 0 0\n4 2 2 0\n0\n").unwrap();
    game.spawn_ship();
    assert_eq!(game.commands, vec![Command::Spawn]);
    assert_eq!(game.get_ship(ShipId(5)).unwrap().position, Position::new(0, 0));
    assert_eq!(game.board.index(Position::new(0, 0)).ship, Some(ShipId(5)));
    game.move_ship(ShipId(5), Direction::North);
    assert_eq!(game.get_ship(ShipId(5)).unwrap().position, Position::new(0, -1));
    assert_eq!(game.board.index(Position::new(0, 0)).ship, None);
    assert_eq!(game.board.index(Position::new(0, 4)).ship, Some(ShipId(5)));
    assert_eq!(game.commands.last(), Some(&Command::Move(ShipId(5), Direction::North)));
}

#[test]
fn navigate_picks_richest_free_neighbour() {
    let mut game = start(START_5X5);
    update(&mut game, "1\n0 2 0 0\n0 2 2 0\n1 3 2 0\n3\n2 1 10\n2 3 30\n3 2 99\n").unwrap();
    // East holds the most halite but also a ship; South is next.
    assert_eq!(game.navigate_to_halite(ShipId(0)), Some(Direction::South));
    // Equal halite everywhere free: the first in North, East, South, West.
    let mut game2 = start(START_5X5);
    update(&mut game2, "1\n0 1 0 0\n0 2 2 0\n0\n").unwrap();
    assert_eq!(game2.navigate_to_halite(ShipId(0)), Some(Direction::North));
    // All four neighbours occupied.
    update(
        &mut game2,
        "2\n0 5 0 0\n0 2 2 0\n1 2 1 0\n2 3 2 0\n3 2 3 0\n4 1 2 0\n0\n",
    )
    .unwrap();
    assert_eq!(game2.navigate_to_halite(ShipId(0)), None);
}

#[test]
fn small_constructors() {
    let yard = Shipyard { id: ShipyardId(2), player_id: PlayerId(2), position: Position::new(1, 1) };
    let p = Player::new(PlayerId(2), yard);
    assert!(p.ship_ids.is_empty() && p.dropoff_ids.is_empty() && p.halite == 0);
    let s = Ship::new(ShipId(1), PlayerId(2), Position::new(0, 0), 1000);
    assert!(s.is_full(1000));
    assert!(!Ship::new(ShipId(1), PlayerId(2), Position::new(0, 0), 999).is_full(1000));
    let b = Board::new(2, 3);
    let g = Game::new(PlayerId(2), vec![p], b);
    assert_eq!(g.get_player(PlayerId(2)).unwrap().shipyard, yard);
    assert!(g.get_player(PlayerId(3)).is_none());
    assert!(g.get_dropoff(DropoffId(0)).is_none());
}

#[test]
fn lines_split_on_whitespace() {
    let mut engine = Engine::new();
    engine.push_line(b" 3\t\t4 5\r\n");
    engine.push_line(b"");
    engine.push_line(b"x");
    let mut src = Lines::new("");
    assert_eq!(engine.next_usize(&mut src), Ok(3));
    assert_eq!(engine.next_isize(&mut src), Ok(4));
    assert_eq!(engine.next_usize(&mut src), Ok(5));
    assert!(!engine.is_drained());
    assert_eq!(engine.next_usize(&mut src), Err(EngineParseError::InvalidToken));
    assert!(engine.is_drained());
}

#[test]
fn queued_dump_is_taken_without_reading() {
    let mut game = start(START_5X5);
    let mut engine = Engine::new();
    engine.push_line(b"1 0 1 0 0 7 3 4 12 0");
    let mut src = Lines::new("");
    game.update(&mut engine, &mut src).unwrap();
    let ship = *game.get_ship(ShipId(7)).unwrap();
    assert_eq!(ship.position, Position::new(3, 4));
    assert_eq!(ship.halite, 12);
    assert_eq!(game.board.index(Position::new(3, 4)).ship, Some(ShipId(7)));
}
