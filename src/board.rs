//! Toroidal coordinates and the board of cells.

use vstd::arithmetic::div_mod::lemma_fundamental_div_mod_converse;
use vstd::prelude::*;
use vstd::std_specs::ops::{AddSpec, SubSpec};

use crate::game::{Direction, DropoffId, ShipId, ShipyardId};

verus! {

/// The value in `(-d, d)` that is congruent to `v` modulo `d` and has the
/// opposite sign to `v`, or zero when `v` is a multiple of `d`.
pub open spec fn invert_spec(v: int, d: int) -> int {
    let m = v % d;
    if m == 0 {
        0
    } else if v > 0 {
        m - d
    } else {
        m
    }
}

/// For a negative `v`, the remainder `t` that integer `%` gives (the
/// negated remainder of `-v`) against the euclidean remainder `v % d`.
proof fn lemma_trunc_rem(v: int, d: int, t: int)
    requires
        d > 0,
        v < 0,
        t == -((-v) % d),
    ensures
        t <= 0,
        t == 0 ==> v % d == 0,
        t < 0 ==> v % d == t + d,
{
    let q = (-v) / d;
    let k = (-v) % d;
    assert(-v == q * d + k) by {
        vstd::arithmetic::div_mod::lemma_fundamental_div_mod(-v, d);
        assert(d * q == q * d) by (nonlinear_arith);
    }
    assert(0 <= k < d);
    if k == 0 {
        assert(v == (-q) * d + 0) by (nonlinear_arith)
            requires -v == q * d + k, k == 0;
        lemma_fundamental_div_mod_converse(v, d, -q, 0);
    } else {
        assert(v == (-q - 1) * d + (d - k)) by (nonlinear_arith)
            requires -v == q * d + k;
        lemma_fundamental_div_mod_converse(v, d, -q - 1, d - k);
    }
}

/// Normalize a value to the given dimension (the euclidean modulo operation).
pub fn normalize(value: isize, dimension: isize) -> (r: isize)
    requires
        dimension > 0,
    ensures
        r == value as int % dimension as int,
        0 <= r < dimension,
{
    let m = value % dimension;
    if value < 0 {
        proof {
            lemma_trunc_rem(value as int, dimension as int, m as int);
        }
    }
    if m < 0 {
        m + dimension
    } else {
        m
    }
}

/// Invert a value around the given dimension: the result is congruent to
/// `value` and of the opposite sign.
pub fn invert(value: isize, dimension: isize) -> (r: isize)
    requires
        dimension > 0,
    ensures
        r == invert_spec(value as int, dimension as int),
{
    let m = value % dimension;
    if value < 0 {
        proof {
            lemma_trunc_rem(value as int, dimension as int, m as int);
        }
    }
    if m > 0 {
        proof {
            if value == 0 {
                vstd::arithmetic::div_mod::lemma_small_mod(0, dimension as nat);
            }
        }
        m - dimension
    } else if m < 0 {
        m + dimension
    } else {
        0
    }
}

} // verus!

verus! {

/// Absolute value.
pub open spec fn abs(v: int) -> int {
    if v < 0 {
        -v
    } else {
        v
    }
}

/// Sign of a value: -1, 0 or 1.
pub open spec fn sgn(v: int) -> int {
    if v < 0 {
        -1
    } else if v > 0 {
        1
    } else {
        0
    }
}

fn sign(v: isize) -> (r: isize)
    ensures
        r == sgn(v as int),
{
    if v < 0 {
        -1
    } else if v > 0 {
        1
    } else {
        0
    }
}

/// A point on the Board.
#[derive(Clone, Copy, Debug, PartialEq, Eq, Hash, Structural)]
pub struct Position {
    pub x: isize,
    pub y: isize,
}

/// An offset between Positions.
#[derive(Clone, Copy, Debug, PartialEq, Eq, Hash, Structural)]
pub struct Offset {
    pub dx: isize,
    pub dy: isize,
}

impl Offset {
    /// Create a new Offset.
    pub fn new(dx: isize, dy: isize) -> (r: Offset)
        ensures
            r == (Offset { dx, dy }),
    {
        Offset { dx, dy }
    }

    /// Manhattan length.
    pub open spec fn len_spec(self) -> int {
        abs(self.dx as int) + abs(self.dy as int)
    }

    /// Both components have an absolute value that an `isize` can hold.
    pub open spec fn negatable(self) -> bool {
        self.dx > isize::MIN && self.dy > isize::MIN
    }

    pub open spec fn inverted_dx_spec(self, width: int) -> Offset {
        Offset { dx: invert_spec(self.dx as int, width) as isize, dy: self.dy }
    }

    pub open spec fn inverted_dy_spec(self, height: int) -> Offset {
        Offset { dx: self.dx, dy: invert_spec(self.dy as int, height) as isize }
    }

    pub open spec fn inverted_spec(self, width: int, height: int) -> Offset {
        Offset {
            dx: invert_spec(self.dx as int, width) as isize,
            dy: invert_spec(self.dy as int, height) as isize,
        }
    }

    /// The four offsets that lead to the same place on a `width` x `height`
    /// torus, in the order direct, x-wrapped, y-wrapped, both-wrapped.
    pub open spec fn candidates(self, width: int, height: int) -> Seq<Offset> {
        seq![
            self,
            self.inverted_dx_spec(width),
            self.inverted_dy_spec(height),
            self.inverted_spec(width, height),
        ]
    }

    /// The first candidate of minimum length.
    pub open spec fn reduce_spec(self, width: int, height: int) -> Offset {
        let c = self.candidates(width, height);
        let b1 = if c[1].len_spec() < c[0].len_spec() {
            c[1]
        } else {
            c[0]
        };
        let b2 = if c[2].len_spec() < b1.len_spec() {
            c[2]
        } else {
            b1
        };
        if c[3].len_spec() < b2.len_spec() {
            c[3]
        } else {
            b2
        }
    }

    /// Return the length of this Offset.
    pub fn len(&self) -> (r: usize)
        requires
            self.negatable(),
        ensures
            r == self.len_spec(),
    {
        let ax: usize = if self.dx < 0 {
            (-self.dx) as usize
        } else {
            self.dx as usize
        };
        let ay: usize = if self.dy < 0 {
            (-self.dy) as usize
        } else {
            self.dy as usize
        };
        ax + ay
    }

    /// Return the unit direction for this Offset.
    pub fn signum(self) -> (r: Offset)
        ensures
            r.dx == sgn(self.dx as int),
            r.dy == sgn(self.dy as int),
    {
        Offset { dx: sign(self.dx), dy: sign(self.dy) }
    }

    /// Return an Offset with only the X dimension of this Offset.
    pub fn dx(self) -> (r: Offset)
        ensures
            r == (Offset { dx: self.dx, dy: 0 }),
    {
        Offset { dx: self.dx, dy: 0 }
    }

    /// Return an Offset with only the Y dimension of this Offset.
    pub fn dy(self) -> (r: Offset)
        ensures
            r == (Offset { dx: 0, dy: self.dy }),
    {
        Offset { dx: 0, dy: self.dy }
    }

    /// Return an Offset with the X dimension mirrored.
    pub fn mirrored_dx(self) -> (r: Offset)
        requires
            self.dx > isize::MIN,
        ensures
            r.dx == -self.dx,
            r.dy == self.dy,
    {
        Offset { dx: -self.dx, dy: self.dy }
    }

    /// Return an Offset with the Y dimension mirrored.
    pub fn mirrored_dy(self) -> (r: Offset)
        requires
            self.dy > isize::MIN,
        ensures
            r.dx == self.dx,
            r.dy == -self.dy,
    {
        Offset { dx: self.dx, dy: -self.dy }
    }

    /// Return an Offset with the X inverted around the given dimension.
    pub fn inverted_dx(self, width: isize) -> (r: Offset)
        requires
            width > 0,
        ensures
            r == self.inverted_dx_spec(width as int),
    {
        Offset { dx: invert(self.dx, width), dy: self.dy }
    }

    /// Return an Offset with the Y inverted around the given dimension.
    pub fn inverted_dy(self, height: isize) -> (r: Offset)
        requires
            height > 0,
        ensures
            r == self.inverted_dy_spec(height as int),
    {
        Offset { dx: self.dx, dy: invert(self.dy, height) }
    }

    /// Return an Offset inverted on both axes around the given dimensions.
    pub fn inverted(self, width: isize, height: isize) -> (r: Offset)
        requires
            width > 0,
            height > 0,
        ensures
            r == self.inverted_spec(width as int, height as int),
    {
        Offset { dx: invert(self.dx, width), dy: invert(self.dy, height) }
    }

    /// Reduce an Offset to the shortest of the four that lead to the same
    /// place on the board; on equal lengths the earlier of direct, x-wrapped,
    /// y-wrapped, both-wrapped wins.
    pub fn reduce(self, width: isize, height: isize) -> (r: Offset)
        requires
            width > 0,
            height > 0,
            self.negatable(),
        ensures
            r == self.reduce_spec(width as int, height as int),
            forall|i: int|
                0 <= i < 4 ==> r.len_spec() <= #[trigger] self.candidates(
                    width as int,
                    height as int,
                )[i].len_spec(),
    {
        proof {
            lemma_invert_bounds(self.dx as int, width as int);
            lemma_invert_bounds(self.dy as int, height as int);
        }
        let c1 = self.inverted_dx(width);
        let c2 = self.inverted_dy(height);
        let c3 = self.inverted(width, height);
        let mut best = self;
        let mut best_len = self.len();
        let l1 = c1.len();
        if l1 < best_len {
            best = c1;
            best_len = l1;
        }
        let l2 = c2.len();
        if l2 < best_len {
            best = c2;
            best_len = l2;
        }
        let l3 = c3.len();
        if l3 < best_len {
            best = c3;
        }
        best
    }

    /// Return the Direction of this Offset, if its signs point along one
    /// axis only.
    pub fn into_direction(self) -> (r: Option<Direction>)
        ensures
            r == direction_of_unit(sgn(self.dx as int), sgn(self.dy as int)),
    {
        let o = self.signum();
        if o.dx == 0 && o.dy == -1 {
            Some(Direction::North)
        } else if o.dx == 1 && o.dy == 0 {
            Some(Direction::East)
        } else if o.dx == 0 && o.dy == 1 {
            Some(Direction::South)
        } else if o.dx == -1 && o.dy == 0 {
            Some(Direction::West)
        } else {
            None
        }
    }
}

/// The unit offset of a direction: North=(0,-1), East=(1,0), South=(0,1),
/// West=(-1,0).
pub open spec fn unit_dx(d: Direction) -> int {
    match d {
        Direction::East => 1,
        Direction::West => -1,
        _ => 0,
    }
}

pub open spec fn unit_dy(d: Direction) -> int {
    match d {
        Direction::North => -1,
        Direction::South => 1,
        _ => 0,
    }
}

/// The direction whose unit offset is `(dx, dy)`, if any.
pub open spec fn direction_of_unit(dx: int, dy: int) -> Option<Direction> {
    if dx == 0 && dy == -1 {
        Some(Direction::North)
    } else if dx == 1 && dy == 0 {
        Some(Direction::East)
    } else if dx == 0 && dy == 1 {
        Some(Direction::South)
    } else if dx == -1 && dy == 0 {
        Some(Direction::West)
    } else {
        None
    }
}

proof fn lemma_invert_bounds(v: int, d: int)
    requires
        d > 0,
    ensures
        -d < invert_spec(v, d) < d,
{
}

/// Inverting a value of `(-d, d)` twice gives it back, and stays in
/// `(-d, d)`.
pub proof fn lemma_invert_involution(v: int, d: int)
    requires
        d > 0,
        -d < v < d,
    ensures
        -d < invert_spec(v, d) < d,
        invert_spec(invert_spec(v, d), d) == v,
{
    if v > 0 {
        lemma_fundamental_div_mod_converse(v, d, 0, v);
        lemma_fundamental_div_mod_converse(v - d, d, -1, v);
    } else if v < 0 {
        lemma_fundamental_div_mod_converse(v, d, -1, v + d);
        lemma_fundamental_div_mod_converse(v + d, d, 0, v + d);
    } else {
        lemma_fundamental_div_mod_converse(0, d, 0, 0);
    }
}

} // verus!

verus! {

/// Reducing an offset whose components are shorter than the board's sides
/// (as every difference of two normalized positions is) a second time
/// changes nothing.
pub proof fn lemma_reduce_fixed_point(o: Offset, width: isize, height: isize)
    requires
        width > 0,
        height > 0,
        -width < o.dx < width,
        -height < o.dy < height,
    ensures
        o.reduce_spec(width as int, height as int).reduce_spec(width as int, height as int)
            == o.reduce_spec(width as int, height as int),
{
    lemma_invert_involution(o.dx as int, width as int);
    lemma_invert_involution(o.dy as int, height as int);
}

impl Position {
    /// Create a new Position.
    pub fn new(x: isize, y: isize) -> (r: Position)
        ensures
            r == (Position { x, y }),
    {
        Position { x, y }
    }

    /// This position with each coordinate brought into `[0, width)` and
    /// `[0, height)`.
    pub open spec fn normalized_spec(self, width: int, height: int) -> Position {
        Position { x: (self.x as int % width) as isize, y: (self.y as int % height) as isize }
    }

    /// Return a new Position normalized to the given dimensions.
    pub fn normalized(self, width: isize, height: isize) -> (r: Position)
        requires
            width > 0,
            height > 0,
        ensures
            r == self.normalized_spec(width as int, height as int),
            0 <= r.x < width,
            0 <= r.y < height,
    {
        Position { x: normalize(self.x, width), y: normalize(self.y, height) }
    }

    /// The position one step away in direction `d`, without wrapping.
    pub open spec fn step(self, d: Direction) -> Position {
        Position { x: (self.x + unit_dx(d)) as isize, y: (self.y + unit_dy(d)) as isize }
    }

    /// No coordinate is at the edge of the `isize` range, so one step in
    /// any direction can be taken without overflow.
    pub open spec fn inside_range(self) -> bool {
        isize::MIN < self.x < isize::MAX && isize::MIN < self.y < isize::MAX
    }

    /// Return the 4 adjacent Positions, in the order North, East, South, West.
    pub fn surrounding(&self) -> (r: Vec<Position>)
        requires
            self.inside_range(),
        ensures
            r@ == seq![
                self.step(Direction::North),
                self.step(Direction::East),
                self.step(Direction::South),
                self.step(Direction::West),
            ],
    {
        let r = vec![
            *self + Direction::North,
            *self + Direction::East,
            *self + Direction::South,
            *self + Direction::West,
        ];
        proof {
            assert(r@ =~= seq![
                self.step(Direction::North),
                self.step(Direction::East),
                self.step(Direction::South),
                self.step(Direction::West),
            ]);
        }
        r
    }
}

/// Normalizing a position gives a position inside the board, and
/// normalizing that again changes nothing.
pub proof fn lemma_normalized_idempotent(p: Position, width: isize, height: isize)
    requires
        width > 0,
        height > 0,
    ensures
        0 <= p.normalized_spec(width as int, height as int).x < width,
        0 <= p.normalized_spec(width as int, height as int).y < height,
        p.normalized_spec(width as int, height as int).normalized_spec(width as int, height as int)
            == p.normalized_spec(width as int, height as int),
{
    vstd::arithmetic::div_mod::lemma_mod_twice(p.x as int, width as int);
    vstd::arithmetic::div_mod::lemma_mod_twice(p.y as int, height as int);
}

/// A Direction converts to its unit Offset.
impl From<Direction> for Offset {
    fn from(direction: Direction) -> (r: Offset) {
        match direction {
            Direction::North => Offset { dx: 0, dy: -1 },
            Direction::East => Offset { dx: 1, dy: 0 },
            Direction::South => Offset { dx: 0, dy: 1 },
            Direction::West => Offset { dx: -1, dy: 0 },
        }
    }
}

impl vstd::std_specs::convert::FromSpecImpl<Direction> for Offset {
    open spec fn obeys_from_spec() -> bool {
        true
    }

    open spec fn from_spec(direction: Direction) -> Offset {
        Offset { dx: unit_dx(direction) as isize, dy: unit_dy(direction) as isize }
    }
}

/// Adding an Offset to a Position, without wrapping.
impl std::ops::Add<Offset> for Position {
    type Output = Position;

    fn add(self, offset: Offset) -> (r: Position) {
        Position { x: self.x + offset.dx, y: self.y + offset.dy }
    }
}

impl vstd::std_specs::ops::AddSpecImpl<Offset> for Position {
    open spec fn obeys_add_spec() -> bool {
        true
    }

    open spec fn add_req(self, offset: Offset) -> bool {
        isize::MIN <= self.x + offset.dx <= isize::MAX && isize::MIN <= self.y + offset.dy
            <= isize::MAX
    }

    open spec fn add_spec(self, offset: Offset) -> Position {
        Position { x: (self.x + offset.dx) as isize, y: (self.y + offset.dy) as isize }
    }
}

/// Adding a Direction to a Position: one step, without wrapping.
impl std::ops::Add<Direction> for Position {
    type Output = Position;

    fn add(self, direction: Direction) -> (r: Position) {
        let o = Offset::from(direction);
        Position { x: self.x + o.dx, y: self.y + o.dy }
    }
}

impl vstd::std_specs::ops::AddSpecImpl<Direction> for Position {
    open spec fn obeys_add_spec() -> bool {
        true
    }

    open spec fn add_req(self, direction: Direction) -> bool {
        isize::MIN <= self.x + unit_dx(direction) <= isize::MAX && isize::MIN <= self.y + unit_dy(
            direction,
        ) <= isize::MAX
    }

    open spec fn add_spec(self, direction: Direction) -> Position {
        self.step(direction)
    }
}

/// Subtracting Positions gives the Offset from the second to the first.
impl std::ops::Sub<Position> for Position {
    type Output = Offset;

    fn sub(self, other: Position) -> (r: Offset) {
        Offset { dx: self.x - other.x, dy: self.y - other.y }
    }
}

impl vstd::std_specs::ops::SubSpecImpl<Position> for Position {
    open spec fn obeys_sub_spec() -> bool {
        true
    }

    open spec fn sub_req(self, other: Position) -> bool {
        isize::MIN <= self.x - other.x <= isize::MAX && isize::MIN <= self.y - other.y
            <= isize::MAX
    }

    open spec fn sub_spec(self, other: Position) -> Offset {
        Offset { dx: (self.x - other.x) as isize, dy: (self.y - other.y) as isize }
    }
}

} // verus!

verus! {

/// Either a Shipyard or a Dropoff.
#[derive(Clone, Copy, Debug, PartialEq, Eq, Hash, Structural)]
pub enum Structure {
    Shipyard(ShipyardId),
    Dropoff(DropoffId),
}

/// One square of the board.
#[derive(Clone, Copy, Debug, PartialEq, Eq, Hash, Structural)]
pub struct Cell {
    /// The position of this Cell.
    pub position: Position,
    /// A structure that could be present in this Cell.
    pub structure: Option<Structure>,
    /// A ship that could be present in this Cell.
    pub ship: Option<ShipId>,
    /// The amount of halite in this Cell.
    pub halite: usize,
}

impl Cell {
    /// Create a new Cell with no ship and no structure.
    pub fn new(position: Position, halite: usize) -> (r: Cell)
        ensures
            r == (Cell { position, structure: None, ship: None, halite }),
    {
        Cell { position, structure: None, ship: None, halite }
    }

    /// Whether this Cell has a Ship.
    pub fn is_occupied(&self) -> (r: bool)
        ensures
            r == self.ship.is_some(),
    {
        self.ship.is_some()
    }

    /// Whether this Cell has a Shipyard or Dropoff.
    pub fn has_structure(&self) -> (r: bool)
        ensures
            r == self.structure.is_some(),
    {
        self.structure.is_some()
    }

    /// Whether this Cell has no Ship, Shipyard, or Dropoff.
    pub fn is_empty(&self) -> (r: bool)
        ensures
            r == (self.ship.is_none() && self.structure.is_none()),
    {
        !self.is_occupied() && !self.has_structure()
    }
}

/// A `width` x `height` torus of cells, stored row by row.
#[derive(Debug)]
pub struct Board {
    /// The width of the Board.
    pub width: isize,
    /// The height of the Board.
    pub height: isize,
    /// The cells, row-major: the cell at `(x, y)` is at `y * width + x`.
    pub cells: Vec<Cell>,
}

/// Index, row by row, of the cell that `p` aliases to on a `w` x `h` board.
pub open spec fn slot_in(w: isize, h: isize, p: Position) -> int {
    let n = p.normalized_spec(w as int, h as int);
    n.y * w + n.x
}

/// Position of the `i`-th cell of a row-major grid of the given width.
pub open spec fn grid_position(i: int, width: int) -> Position {
    Position { x: (i % width) as isize, y: (i / width) as isize }
}

proof fn lemma_grid_index(x: int, y: int, width: int)
    requires
        width > 0,
        0 <= x < width,
        0 <= y,
    ensures
        (y * width + x) % width == x,
        (y * width + x) / width == y,
        0 <= y * width + x,
{
    assert(y * width + x == y * width + x);
    lemma_fundamental_div_mod_converse(y * width + x, width, y, x);
    assert(0 <= y * width) by (nonlinear_arith)
        requires
            0 <= y,
            width > 0,
    ;
}

proof fn lemma_grid_bound(x: int, y: int, width: int, height: int)
    requires
        0 <= x < width,
        0 <= y < height,
    ensures
        0 <= y * width + x < width * height,
{
    assert(0 <= y * width + x < width * height) by (nonlinear_arith)
        requires
            0 <= x < width,
            0 <= y < height,
    ;
}

impl Board {
    /// Positive sides and one cell per position.
    pub open spec fn wf(&self) -> bool {
        &&& self.width > 0
        &&& self.height > 0
        &&& self.width * self.height <= usize::MAX
        &&& self.cells@.len() == self.width * self.height
    }

    /// Index in `cells` of the cell that `p` aliases to.
    pub open spec fn slot(&self, p: Position) -> int {
        slot_in(self.width, self.height, p)
    }

    /// The cell that `p` aliases to.
    pub open spec fn cell_at(&self, p: Position) -> Cell {
        self.cells@[self.slot(p)]
    }

    /// Create a new Board of cells with zero halite and no occupants.
    pub fn new(width: isize, height: isize) -> (r: Board)
        requires
            width > 0,
            height > 0,
            width * height <= usize::MAX,
        ensures
            r.wf(),
            r.width == width,
            r.height == height,
            forall|i: int|
                0 <= i < width * height ==> #[trigger] r.cells@[i] == Cell::new_spec(
                    grid_position(i, width as int),
                    0,
                ),
    {
        let mut cells: Vec<Cell> = Vec::new();
        let mut y: isize = 0;
        while y < height
            invariant
                0 <= y <= height,
                width > 0,
                cells@.len() == y * width,
                forall|i: int|
                    0 <= i < cells@.len() ==> #[trigger] cells@[i] == Cell::new_spec(
                        grid_position(i, width as int),
                        0,
                    ),
            decreases height - y,
        {
            let mut x: isize = 0;
            while x < width
                invariant
                    0 <= y < height,
                    0 <= x <= width,
                    cells@.len() == y * width + x,
                    forall|i: int|
                        0 <= i < cells@.len() ==> #[trigger] cells@[i] == Cell::new_spec(
                            grid_position(i, width as int),
                            0,
                        ),
                decreases width - x,
            {
                proof {
                    lemma_grid_index(x as int, y as int, width as int);
                }
                cells.push(Cell::new(Position::new(x, y), 0));
                x = x + 1;
            }
            assert(cells@.len() == (y + 1) * width) by (nonlinear_arith)
                requires
                    cells@.len() == y * width + width,
            ;
            y = y + 1;
        }
        assert(cells@.len() == width * height) by (nonlinear_arith)
            requires
                cells@.len() == height * width,
        ;
        Board { width, height, cells }
    }

    fn slot_of(&self, position: Position) -> (r: usize)
        requires
            self.wf(),
        ensures
            r == self.slot(position),
            r < self.cells@.len(),
    {
        let n = position.normalized(self.width, self.height);
        let x = n.x as usize;
        let y = n.y as usize;
        let w = self.width as usize;
        proof {
            lemma_grid_bound(n.x as int, n.y as int, self.width as int, self.height as int);
            assert((y as int) * (w as int) + (x as int) < self.cells@.len());
        }
        y * w + x
    }

    /// The cell that `position` aliases to; every position has one.
    pub fn index(&self, position: Position) -> (r: &Cell)
        requires
            self.wf(),
        ensures
            *r == self.cell_at(position),
            0 <= self.slot(position) < self.cells@.len(),
    {
        &self.cells[self.slot_of(position)]
    }

    /// Replace the cell that `position` aliases to.
    pub(crate) fn set(&mut self, position: Position, cell: Cell)
        requires
            old(self).wf(),
        ensures
            final(self).wf(),
            final(self).width == old(self).width,
            final(self).height == old(self).height,
            final(self).cells@ == old(self).cells@.update(old(self).slot(position), cell),
            0 <= old(self).slot(position) < old(self).cells@.len(),
    {
        let i = self.slot_of(position);
        self.cells.set(i, cell);
    }
}

impl Cell {
    pub open spec fn new_spec(position: Position, halite: usize) -> Cell {
        Cell { position, structure: None, ship: None, halite }
    }
}

/// Every position names a cell of a well-formed board.
pub proof fn lemma_slot_in_range(b: Board, p: Position)
    requires
        b.wf(),
    ensures
        0 <= b.slot(p) < b.cells@.len(),
{
    let n = p.normalized_spec(b.width as int, b.height as int);
    lemma_normalized_idempotent(p, b.width, b.height);
    lemma_grid_bound(n.x as int, n.y as int, b.width as int, b.height as int);
}

/// Positions that agree modulo the board's sides name the same cell.
pub proof fn lemma_index_aliasing(b: Board, p: Position, q: Position)
    requires
        b.wf(),
        (p.x - q.x) % (b.width as int) == 0,
        (p.y - q.y) % (b.height as int) == 0,
    ensures
        b.slot(p) == b.slot(q),
        b.cell_at(p) == b.cell_at(q),
{
    vstd::arithmetic::div_mod::lemma_mod_equivalence(p.x as int, q.x as int, b.width as int);
    vstd::arithmetic::div_mod::lemma_mod_equivalence(p.y as int, q.y as int, b.height as int);
}

} // verus!

verus! {

/// A cell whose halite changed since the last turn.
#[derive(Clone, Copy, Debug, PartialEq, Eq, Hash, Structural)]
pub struct CellReport {
    pub position: Position,
    pub halite: usize,
}

/// `c` without its ship.
pub open spec fn without_ship(c: Cell) -> Cell {
    Cell { ship: None, ..c }
}

impl Board {
    /// The cells after setting, in order, the halite of each reported cell:
    /// a later report for the same cell wins.
    pub open spec fn halite_updated(&self, updates: Seq<CellReport>) -> Seq<Cell>
        decreases updates.len(),
    {
        if updates.len() == 0 {
            self.cells@
        } else {
            let prev = self.halite_updated(updates.drop_last());
            let k = self.slot(updates.last().position);
            prev.update(k, Cell { halite: updates.last().halite, ..prev[k] })
        }
    }

    /// Remove every ship from the board.
    pub(crate) fn clear_ships(&mut self)
        requires
            old(self).wf(),
        ensures
            final(self).wf(),
            final(self).width == old(self).width,
            final(self).height == old(self).height,
            final(self).cells@ == old(self).cells@.map_values(|c: Cell| without_ship(c)),
    {
        let n = self.cells.len();
        let mut i: usize = 0;
        while i < n
            invariant
                self.wf(),
                self.width == old(self).width,
                self.height == old(self).height,
                n == self.cells@.len(),
                self.cells@.len() == old(self).cells@.len(),
                0 <= i <= n,
                forall|j: int| 0 <= j < i ==> #[trigger] self.cells@[j] == without_ship(old(self).cells@[j]),
                forall|j: int| i <= j < n ==> #[trigger] self.cells@[j] == old(self).cells@[j],
            decreases n - i,
        {
            let c = self.cells[i];
            self.cells.set(i, Cell { ship: None, ..c });
            i = i + 1;
        }
        assert(self.cells@ =~= old(self).cells@.map_values(|c: Cell| without_ship(c)));
    }

    /// Set the halite of each listed cell, in order.
    pub(crate) fn update_halite(&mut self, updates: &Vec<CellReport>)
        requires
            old(self).wf(),
        ensures
            final(self).wf(),
            final(self).width == old(self).width,
            final(self).height == old(self).height,
            final(self).cells@ == old(self).halite_updated(updates@),
    {
        let mut i: usize = 0;
        while i < updates.len()
            invariant
                self.wf(),
                self.width == old(self).width,
                self.height == old(self).height,
                0 <= i <= updates@.len(),
                self.cells@ == old(self).halite_updated(updates@.take(i as int)),
            decreases updates@.len() - i,
        {
            let p = updates[i].position;
            let h = updates[i].halite;
            let c = *self.index(p);
            proof {
                assert(updates@.take(i + 1).drop_last() =~= updates@.take(i as int));
                assert(old(self).slot(p) == self.slot(p));
            }
            self.set(p, Cell { halite: h, ..c });
            i = i + 1;
        }
        assert(updates@.take(updates@.len() as int) =~= updates@);
    }
}

} // verus!

verus! {

/// Adding an offset and subtracting positions undo each other: `(p + o) - p
/// == o` and `p + (q - p) == q`, whenever no coordinate overflows.
pub proof fn lemma_add_sub_inverse(p: Position, q: Position, o: Offset)
    requires
        p.add_req(o),
        q.sub_req(p),
    ensures
        p.add_spec(o).sub_req(p),
        p.add_spec(o).sub_spec(p) == o,
        p.add_req(q.sub_spec(p)),
        p.add_spec(q.sub_spec(p)) == q,
{
}

} // verus!
