//! Identifiers, entities, commands and the game state.

use vstd::prelude::*;

use std::collections::HashMap;

use crate::board::{Board, Cell, Position};

verus! {

/// A direction a ship can take.
#[derive(Clone, Copy, Debug, PartialEq, Eq, Hash, Structural)]
pub enum Direction {
    North,
    East,
    South,
    West,
}

/// A Player identifier.
#[derive(Clone, Copy, Debug, PartialEq, Eq, Hash, PartialOrd, Ord, Structural)]
pub struct PlayerId(pub usize);

/// A Dropoff identifier.
#[derive(Clone, Copy, Debug, PartialEq, Eq, Hash, PartialOrd, Ord, Structural)]
pub struct DropoffId(pub usize);

/// A Shipyard identifier.
#[derive(Clone, Copy, Debug, PartialEq, Eq, Hash, PartialOrd, Ord, Structural)]
pub struct ShipyardId(pub usize);

/// A Ship identifier.
#[derive(Clone, Copy, Debug, PartialEq, Eq, Hash, PartialOrd, Ord, Structural)]
pub struct ShipId(pub usize);

} // verus!

verus! {

/// A Shipyard in the Game.
#[derive(Clone, Copy, Debug, PartialEq, Eq, Hash, Structural)]
pub struct Shipyard {
    /// This Shipyard's identifier.
    pub id: ShipyardId,
    /// Which player this Shipyard belongs to.
    pub player_id: PlayerId,
    /// The location of the Shipyard.
    pub position: Position,
}

/// A Player in the Game.
#[derive(Clone, Debug)]
pub struct Player {
    /// This Player's identifier.
    pub id: PlayerId,
    /// The corresponding Shipyard for this Player.
    pub shipyard: Shipyard,
    /// The Ships this Player owns, in the order the engine listed them.
    pub ship_ids: Vec<ShipId>,
    /// The Dropoffs this Player owns, in the order the engine listed them.
    pub dropoff_ids: Vec<DropoffId>,
    /// The amount of halite this Player currently has.
    pub halite: usize,
}

impl Player {
    /// Create a new Player from a PlayerId and a Shipyard.
    pub fn new(id: PlayerId, shipyard: Shipyard) -> (r: Player)
        ensures
            r.id == id,
            r.shipyard == shipyard,
            r.ship_ids@ == Seq::<ShipId>::empty(),
            r.dropoff_ids@ == Seq::<DropoffId>::empty(),
            r.halite == 0,
    {
        Player { id, shipyard, ship_ids: Vec::new(), dropoff_ids: Vec::new(), halite: 0 }
    }
}

/// A Dropoff in the Game.
#[derive(Clone, Copy, Debug, PartialEq, Eq, Hash, Structural)]
pub struct Dropoff {
    /// This Dropoff's identifier.
    pub id: DropoffId,
    /// Which player this Dropoff belongs to.
    pub player_id: PlayerId,
    /// The location of the Dropoff.
    pub position: Position,
}

impl Dropoff {
    /// Create a new Dropoff.
    pub fn new(id: DropoffId, player_id: PlayerId, position: Position) -> (r: Dropoff)
        ensures
            r == (Dropoff { id, player_id, position }),
    {
        Dropoff { id, player_id, position }
    }
}

/// A ship in the Game.
#[derive(Clone, Copy, Debug, PartialEq, Eq, Hash, Structural)]
pub struct Ship {
    /// This Ship's identifier.
    pub id: ShipId,
    /// Which player this Ship belongs to.
    pub player_id: PlayerId,
    /// The location of the Ship.
    pub position: Position,
    /// The amount of halite the Ship currently has.
    pub halite: usize,
}

impl Ship {
    /// Create a new Ship.
    pub fn new(id: ShipId, player_id: PlayerId, position: Position, halite: usize) -> (r: Ship)
        ensures
            r == (Ship { id, player_id, position, halite }),
    {
        Ship { id, player_id, position, halite }
    }

    /// Whether the Ship carries at least `max_halite`, the carrying capacity
    /// the game's configuration gives.
    pub fn is_full(&self, max_halite: usize) -> (r: bool)
        ensures
            r == (self.halite >= max_halite),
    {
        self.halite >= max_halite
    }
}

impl Direction {
    /// Return all the cardinals: North, East, South, West.
    pub fn all() -> (r: Vec<Direction>)
        ensures
            r@ == seq![Direction::North, Direction::East, Direction::South, Direction::West],
    {
        let r = vec![Direction::North, Direction::East, Direction::South, Direction::West];
        assert(r@ =~= seq![Direction::North, Direction::East, Direction::South, Direction::West]);
        r
    }
}

/// A command that can be given to the game engine.
#[derive(Clone, Copy, Debug, PartialEq, Eq, Hash, Structural)]
pub enum Command {
    /// Spawn a new Ship.
    Spawn,
    /// Convert the given Ship to a Dropoff.
    ConvertToDropoff(ShipId),
    /// Make the given Ship stay still and collect halite where it is.
    Collect(ShipId),
    /// Move the given Ship 1 unit in the given direction.
    Move(ShipId, Direction),
}

} // verus!

verus! {

/// The whole state of a game as this client sees it.
#[derive(Debug)]
pub struct Game {
    /// The current bot's identifier.
    pub my_id: PlayerId,
    /// The Board layout with locations of everything.
    pub board: Board,
    /// All the Players in this Game, in the order the engine lists them.
    pub players: Vec<Player>,
    /// All the Ships in this Game, keyed by the number of their ShipId.
    pub ships: HashMap<usize, Ship>,
    /// All the Dropoffs in this Game, keyed by the number of their DropoffId.
    pub dropoffs: HashMap<usize, Dropoff>,
    /// Commands that will be sent when the turn ends.
    pub commands: Vec<Command>,
    /// The current turn.
    pub turn: usize,
}

/// Whether no two players of `ps` share an identifier.
pub open spec fn distinct_players(ps: Seq<Player>) -> bool {
    forall|i: int, j: int| 0 <= i < j < ps.len() ==> ps[i].id != ps[j].id
}

impl Game {
    /// The game's invariant: a well-formed board, maps keyed by their
    /// entries' own identifiers, distinct players, and every ship that a
    /// cell holds known to the ship map.
    pub open spec fn wf(&self) -> bool {
        &&& self.board.wf()
        &&& forall|k: usize| #[trigger]
            self.ships@.contains_key(k) ==> self.ships@[k].id.0 == k
        &&& forall|k: usize| #[trigger]
            self.dropoffs@.contains_key(k) ==> self.dropoffs@[k].id.0 == k
        &&& distinct_players(self.players@)
        &&& forall|i: int|
            0 <= i < self.board.cells@.len() && (#[trigger] self.board.cells@[i]).ship is Some
                ==> self.ships@.contains_key((self.board.cells@[i].ship->0).0)
    }
}

} // verus!

verus! {

impl Game {
    /// Create a new Game from a PlayerId, the Players and a Board, with no
    /// ships, dropoffs or commands, at turn 0.
    pub fn new(my_id: PlayerId, players: Vec<Player>, board: Board) -> (r: Game)
        requires
            board.wf(),
            distinct_players(players@),
            forall|i: int| 0 <= i < board.cells@.len() ==> (#[trigger] board.cells@[i]).ship is None,
        ensures
            r.wf(),
            r.my_id == my_id,
            r.players == players,
            r.board == board,
            r.ships@ == Map::<usize, Ship>::empty(),
            r.dropoffs@ == Map::<usize, Dropoff>::empty(),
            r.commands@.len() == 0,
            r.turn == 0,
    {
        Game {
            my_id,
            board,
            players,
            ships: HashMap::new(),
            dropoffs: HashMap::new(),
            commands: Vec::new(),
            turn: 0,
        }
    }
}

} // verus!

verus! {

/// Whether the unoccupied cell `cs[i]` comes first when the cells `cs` are
/// ordered by descending halite, equal amounts keeping their order.
pub open spec fn richest_free(cs: Seq<Cell>, i: int) -> bool {
    &&& 0 <= i < cs.len()
    &&& cs[i].ship is None
    &&& forall|j: int| 0 <= j < cs.len() && cs[j].ship is None ==> cs[j].halite <= cs[i].halite
    &&& forall|j: int| 0 <= j < i && cs[j].ship is None ==> cs[j].halite < cs[i].halite
}

/// Position of direction `d` in the order North, East, South, West.
pub open spec fn direction_index(d: Direction) -> int {
    match d {
        Direction::North => 0,
        Direction::East => 1,
        Direction::South => 2,
        Direction::West => 3,
    }
}

impl Game {
    /// Whether some player has identifier `id`.
    pub open spec fn has_player(&self, id: PlayerId) -> bool {
        exists|i: int| 0 <= i < self.players@.len() && self.players@[i].id == id
    }

    /// The cells next to `p`, in the order North, East, South, West.
    pub open spec fn neighbour_cells(&self, p: Position) -> Seq<Cell> {
        seq![
            self.board.cell_at(p.step(Direction::North)),
            self.board.cell_at(p.step(Direction::East)),
            self.board.cell_at(p.step(Direction::South)),
            self.board.cell_at(p.step(Direction::West)),
        ]
    }

    /// Return the Player with the given identifier, if there is one.
    pub fn get_player(&self, player_id: PlayerId) -> (r: Option<&Player>)
        ensures
            match r {
                Some(p) => exists|i: int|
                    0 <= i < self.players@.len() && self.players@[i].id == player_id && *p
                        == self.players@[i],
                None => !self.has_player(player_id),
            },
    {
        let mut i: usize = 0;
        while i < self.players.len()
            invariant
                0 <= i <= self.players@.len(),
                forall|j: int| 0 <= j < i ==> self.players@[j].id != player_id,
            decreases self.players@.len() - i,
        {
            if self.players[i].id == player_id {
                return Some(&self.players[i]);
            }
            i = i + 1;
        }
        None
    }

    /// Return the Ship with the given identifier, if there is one.
    pub fn get_ship(&self, ship_id: ShipId) -> (r: Option<&Ship>)
        ensures
            match r {
                Some(s) => self.ships@.contains_key(ship_id.0) && *s == self.ships@[ship_id.0],
                None => !self.ships@.contains_key(ship_id.0),
            },
    {
        self.ships.get(&ship_id.0)
    }

    /// Return the Dropoff with the given identifier, if there is one.
    pub fn get_dropoff(&self, dropoff_id: DropoffId) -> (r: Option<&Dropoff>)
        ensures
            match r {
                Some(d) => self.dropoffs@.contains_key(dropoff_id.0) && *d
                    == self.dropoffs@[dropoff_id.0],
                None => !self.dropoffs@.contains_key(dropoff_id.0),
            },
    {
        self.dropoffs.get(&dropoff_id.0)
    }

    /// Return our Player.
    pub fn me(&self) -> (r: &Player)
        requires
            self.has_player(self.my_id),
        ensures
            exists|i: int|
                0 <= i < self.players@.len() && self.players@[i].id == self.my_id && *r
                    == self.players@[i],
    {
        let mut i: usize = 0;
        while i < self.players.len()
            invariant
                0 <= i <= self.players@.len(),
                self.has_player(self.my_id),
                forall|j: int| 0 <= j < i ==> self.players@[j].id != self.my_id,
            decreases self.players@.len() - i,
        {
            if self.players[i].id == self.my_id {
                return &self.players[i];
            }
            i = i + 1;
        }
        &self.players[0]
    }

    /// Make a Ship collect halite in its current location.
    pub fn collect_halite(&mut self, ship_id: ShipId)
        ensures
            final(self).commands@ == old(self).commands@.push(Command::Collect(ship_id)),
            final(self).my_id == old(self).my_id,
            final(self).board == old(self).board,
            final(self).players == old(self).players,
            final(self).ships == old(self).ships,
            final(self).dropoffs == old(self).dropoffs,
            final(self).turn == old(self).turn,
    {
        self.commands.push(Command::Collect(ship_id));
    }

    /// Return the direction of the neighbouring cell without a ship that
    /// holds the most halite (the first in the order North, East, South,
    /// West among equals), or `None` when all four hold a ship.
    pub fn navigate_to_halite(&self, ship_id: ShipId) -> (r: Option<Direction>)
        requires
            self.wf(),
            self.ships@.contains_key(ship_id.0),
            self.ships@[ship_id.0].position.inside_range(),
        ensures
            ({
                let cs = self.neighbour_cells(self.ships@[ship_id.0].position);
                match r {
                    Some(d) => richest_free(cs, direction_index(d)),
                    None => forall|j: int| 0 <= j < 4 ==> (#[trigger] cs[j]).ship is Some,
                }
            }),
    {
        let ship = *self.ships.get(&ship_id.0).unwrap();
        let ghost cs = self.neighbour_cells(ship.position);
        let dirs = Direction::all();
        let mut best: Option<Direction> = None;
        let mut best_halite: usize = 0;
        let mut i: usize = 0;
        while i < 4
            invariant
                0 <= i <= 4,
                self.wf(),
                dirs@ == seq![Direction::North, Direction::East, Direction::South, Direction::West],
                ship.position.inside_range(),
                cs == self.neighbour_cells(ship.position),
                match best {
                    Some(d) => {
                        &&& direction_index(d) < i
                        &&& cs[direction_index(d)].ship is None
                        &&& best_halite == cs[direction_index(d)].halite
                        &&& forall|j: int| 0 <= j < i && cs[j].ship is None ==> cs[j].halite <= best_halite
                        &&& forall|j: int|
                            0 <= j < direction_index(d) && cs[j].ship is None ==> cs[j].halite < best_halite
                    },
                    None => forall|j: int| 0 <= j < i ==> (#[trigger] cs[j]).ship is None == false,
                },
            decreases 4 - i,
        {
            let d = dirs[i];
            let cell = self.board.index(ship.position + d);
            assert(direction_index(d) == i);
            if !cell.is_occupied() {
                let better = match best {
                    Some(_) => cell.halite > best_halite,
                    None => true,
                };
                if better {
                    best = Some(d);
                    best_halite = cell.halite;
                }
            }
            i = i + 1;
        }
        best
    }
}

} // verus!

verus! {

/// One more than the largest key of `m`, or 0 when `m` is empty.
pub open spec fn is_next_id(m: Map<usize, Ship>, id: usize) -> bool {
    &&& forall|k: usize| #[trigger] m.contains_key(k) ==> k < id
    &&& m.dom().len() == 0 ==> id == 0
    &&& m.dom().len() > 0 ==> m.contains_key((id - 1) as usize)
}

impl Game {
    fn next_ship_id(&self) -> (r: usize)
        requires
            forall|k: usize| #[trigger] self.ships@.contains_key(k) ==> k < usize::MAX,
        ensures
            is_next_id(self.ships@, r),
    {
        let ghost ks = vstd::std_specs::iter::IteratorSpec::remaining(
            &vstd::std_specs::hash::spec_keys_iter(&self.ships),
        ).unref();
        let ghost mut seen: int = 0;
        let mut best: Option<usize> = None;
        for k in it: self.ships.keys()
            invariant
                forall|k: usize| #[trigger] self.ships@.contains_key(k) ==> k < usize::MAX,
                ks == it.seq().unref(),
                ks.to_set() == self.ships@.dom(),
                ks.len() == self.ships@.dom().len(),
                seen == it.index(),
                match best {
                    None => seen == 0,
                    Some(b) => {
                        &&& forall|i: int| 0 <= i < seen ==> #[trigger] ks[i] <= b
                        &&& self.ships@.contains_key(b)
                    },
                },
        {
            proof {
                assert(ks[seen] == *k);
                assert(ks.to_set().contains(*k));
                seen = seen + 1;
            }
            best = match best {
                None => Some(*k),
                Some(b) => if *k > b {
                    Some(*k)
                } else {
                    Some(b)
                },
            };
        }
        match best {
            None => {
                proof {
                    assert(ks.len() == 0);
                }
                0
            },
            Some(b) => {
                proof {
                    assert(seen == ks.len());
                    assert forall|k: usize| #[trigger] self.ships@.contains_key(k) implies k < b + 1 by {
                        assert(ks.to_set().contains(k));
                        let i = choose|i: int| 0 <= i < ks.len() && ks[i] == k;
                        assert(ks[i] <= b);
                    }
                    assert(self.ships@.dom().len() > 0) by {
                        vstd::set_lib::lemma_len_subset(set![b], self.ships@.dom());
                    }
                }
                b + 1
            },
        }
    }
}


impl Game {
    /// Spawn a Ship at our Shipyard: queue the command and, so that the
    /// board shows the ship before the engine confirms it, record a ship
    /// with the next free identifier there.
    pub fn spawn_ship(&mut self)
        requires
            old(self).wf(),
            old(self).has_player(old(self).my_id),
            forall|k: usize| #[trigger] old(self).ships@.contains_key(k) ==> k < usize::MAX,
        ensures
            final(self).wf(),
            final(self).commands@ == old(self).commands@.push(Command::Spawn),
            exists|id: usize, i: int|
                #![trigger is_next_id(old(self).ships@, id), old(self).players@[i]]
                {
                    let yard = old(self).players@[i].shipyard.position;
                    let cell = old(self).board.cell_at(yard);
                    &&& 0 <= i < old(self).players@.len()
                    &&& old(self).players@[i].id == old(self).my_id
                    &&& is_next_id(old(self).ships@, id)
                    &&& final(self).ships@ == old(self).ships@.insert(
                        id,
                        Ship { id: ShipId(id), player_id: old(self).my_id, position: yard, halite: 0 },
                    )
                    &&& final(self).board.cells@ == old(self).board.cells@.update(
                        old(self).board.slot(yard),
                        Cell { ship: Some(ShipId(id)), ..cell },
                    )
                },
            final(self).my_id == old(self).my_id,
            final(self).players == old(self).players,
            final(self).dropoffs == old(self).dropoffs,
            final(self).turn == old(self).turn,
            final(self).board.width == old(self).board.width,
            final(self).board.height == old(self).board.height,
    {
        let id = self.next_ship_id();
        let position = self.me().shipyard.position;
        let ship = Ship::new(ShipId(id), self.my_id, position, 0);
        let c = *self.board.index(position);
        self.board.set(position, Cell { ship: Some(ship.id), ..c });
        self.ships.insert(id, ship);
        self.commands.push(Command::Spawn);
    }

    /// Move a Ship one step in the given Direction: queue the command and
    /// record the move on the ship and the board.
    pub fn move_ship(&mut self, ship_id: ShipId, direction: Direction)
        requires
            old(self).wf(),
            old(self).ships@.contains_key(ship_id.0),
            old(self).ships@[ship_id.0].position.inside_range(),
        ensures
            final(self).wf(),
            final(self).commands@ == old(self).commands@.push(Command::Move(ship_id, direction)),
            ({
                let s = old(self).ships@[ship_id.0];
                let to = s.position.step(direction);
                let from_slot = old(self).board.slot(s.position);
                let emptied = old(self).board.cells@.update(
                    from_slot,
                    Cell { ship: None, ..old(self).board.cells@[from_slot] },
                );
                let to_slot = old(self).board.slot(to);
                &&& final(self).ships@ == old(self).ships@.insert(
                    ship_id.0,
                    Ship { position: to, ..s },
                )
                &&& final(self).board.cells@ == emptied.update(
                    to_slot,
                    Cell { ship: Some(ship_id), ..emptied[to_slot] },
                )
            }),
            final(self).my_id == old(self).my_id,
            final(self).players == old(self).players,
            final(self).dropoffs == old(self).dropoffs,
            final(self).turn == old(self).turn,
            final(self).board.width == old(self).board.width,
            final(self).board.height == old(self).board.height,
    {
        let ship = *self.ships.get(&ship_id.0).unwrap();
        let position = ship.position + direction;
        let c = *self.board.index(ship.position);
        self.board.set(ship.position, Cell { ship: None, ..c });
        let c2 = *self.board.index(position);
        self.board.set(position, Cell { ship: Some(ship_id), ..c2 });
        self.ships.insert(ship_id.0, Ship { position, ..ship });
        self.commands.push(Command::Move(ship_id, direction));
    }
}

} // verus!
