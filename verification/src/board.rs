use vstd::prelude::*;
use crate::error::GamePlayError;

verus! {

/// A position on (or transiently off) the board; `(0, 0)` is the top left cell.
#[derive(Clone, Copy, PartialEq, Eq, Hash, Debug, Structural)]
pub struct Coordinate {
    pub x: isize,
    pub y: isize,
}

/// A compass direction, also used as the side of the board a player sits at.
#[derive(Clone, Copy, Debug, PartialEq, Eq, Structural)]
pub enum Direction {
    SOUTH,
    EAST,
    NORTH,
    WEST,
}

/// What a playable cell holds.
#[derive(Clone, Copy, Debug, PartialEq, Eq, Structural)]
pub enum Square {
    /// A playable cell without a tile.
    Empty,
    /// A tile: the player who owns it and its letter.
    Occupied(usize, char),
}

/// The cells of a board, row by row; `None` is a cell that does not exist.
pub type Grid = Seq<Seq<Option<Square>>>;

impl Direction {
    /// Horizontal component of one step in this direction.
    pub open spec fn dx(self) -> int {
        match self {
            Direction::EAST => 1,
            Direction::WEST => -1,
            _ => 0,
        }
    }

    /// Vertical component of one step in this direction; `y` grows downwards.
    pub open spec fn dy(self) -> int {
        match self {
            Direction::SOUTH => 1,
            Direction::NORTH => -1,
            _ => 0,
        }
    }

    /// Whether one step from `point` stays within the range of coordinates.
    pub open spec fn can_add(self, point: Coordinate) -> bool {
        &&& isize::MIN <= point.x + self.dx() <= isize::MAX
        &&& isize::MIN <= point.y + self.dy() <= isize::MAX
    }

    /// The coordinate one step from `point` in this direction.
    pub open spec fn add_spec(self, point: Coordinate) -> Coordinate {
        Coordinate { x: (point.x + self.dx()) as isize, y: (point.y + self.dy()) as isize }
    }

    /// The place `steps` steps from `(x, y)` in this direction.
    pub open spec fn along(self, x: int, y: int, steps: int) -> (int, int) {
        match self {
            Direction::SOUTH => (x, y + steps),
            Direction::EAST => (x + steps, y),
            Direction::NORTH => (x, y - steps),
            Direction::WEST => (x - steps, y),
        }
    }

    /// Whether a player seated on this side reads vertical words downwards.
    pub open spec fn reads_down(self) -> bool {
        self == Direction::SOUTH || self == Direction::WEST
    }

    /// Whether a player seated on this side reads horizontal words rightwards.
    pub open spec fn reads_right(self) -> bool {
        self == Direction::SOUTH || self == Direction::EAST
    }

    /// The coordinate one step from `point` in this direction.
    #[verifier::when_used_as_spec(add_spec)]
    pub fn add(self, point: Coordinate) -> (r: Coordinate)
        requires
            self.can_add(point),
        ensures
            r == self.add_spec(point),
            r.x == point.x + self.dx(),
            r.y == point.y + self.dy(),
    {
        match self {
            Direction::NORTH => Coordinate { x: point.x, y: point.y - 1 },
            Direction::SOUTH => Coordinate { x: point.x, y: point.y + 1 },
            Direction::EAST => Coordinate { x: point.x + 1, y: point.y },
            Direction::WEST => Coordinate { x: point.x - 1, y: point.y },
        }
    }

    /// The coordinate one step from `point`, or `None` where that step
    /// leaves the range of coordinates.
    pub fn checked_add(self, point: Coordinate) -> (r: Option<Coordinate>)
        ensures
            r == (if self.can_add(point) { Some(self.add_spec(point)) } else { None::<Coordinate> }),
    {
        let fits = match self {
            Direction::NORTH => point.y > isize::MIN,
            Direction::SOUTH => point.y < isize::MAX,
            Direction::EAST => point.x < isize::MAX,
            Direction::WEST => point.x > isize::MIN,
        };
        if fits {
            Some(self.add(point))
        } else {
            None
        }
    }

    /// Whether vertical words are read from top to bottom by a player
    /// seated on this side of the board.
    #[verifier::when_used_as_spec(reads_down)]
    pub fn read_top_to_bottom(self) -> (r: bool)
        ensures
            r == self.reads_down(),
    {
        matches!(self, Direction::SOUTH) || matches!(self, Direction::WEST)
    }

    /// Whether horizontal words are read from left to right by a player
    /// seated on this side of the board.
    #[verifier::when_used_as_spec(reads_right)]
    pub fn read_left_to_right(self) -> (r: bool)
        ensures
            r == self.reads_right(),
    {
        matches!(self, Direction::SOUTH) || matches!(self, Direction::EAST)
    }
}

impl Square {
    /// The character that stands for this square in a textual layout.
    pub open spec fn symbol_spec(self) -> char {
        match self {
            Square::Empty => '_',
            Square::Occupied(_, letter) => letter,
        }
    }

    /// The character that stands for this square in a textual layout:
    /// `'_'` for an empty square, the letter for a tile.
    #[verifier::when_used_as_spec(symbol_spec)]
    pub fn symbol(self) -> (c: char)
        ensures
            c == self.symbol_spec(),
    {
        match self {
            Square::Empty => '_',
            Square::Occupied(_, letter) => letter,
        }
    }
}

/// Whether `a` and `b` are next to each other along one axis.
pub open spec fn adjacent(a: Coordinate, b: Coordinate) -> bool {
    ||| a.x == b.x && (a.y - b.y == 1 || b.y - a.y == 1)
    ||| a.y == b.y && (a.x - b.x == 1 || b.x - a.x == 1)
}

/// A coordinate next to `a` lies one step from it in some direction.
pub proof fn lemma_adjacent_is_a_step(a: Coordinate, b: Coordinate) -> (direction: Direction)
    requires
        adjacent(a, b),
    ensures
        direction.can_add(a),
        direction.add_spec(a) == b,
{
    if a.x == b.x {
        if b.y - a.y == 1 {
            Direction::SOUTH
        } else {
            Direction::NORTH
        }
    } else {
        if b.x - a.x == 1 {
            Direction::EAST
        } else {
            Direction::WEST
        }
    }
}

/// Whether every row of `grid` is as long as its first row.
pub open spec fn rectangular(grid: Grid) -> bool {
    forall|y: int| 0 <= y < grid.len() ==> (#[trigger] grid[y]).len() == grid[0].len()
}

/// The cell that takes the place of `cell` when its tile is removed.
pub open spec fn cleared(cell: Option<Square>) -> Option<Square> {
    match cell {
        None => None,
        Some(_) => Some(Square::Empty),
    }
}

/// The sequence of the value in `item`, if there is one.
pub open spec fn optional<T>(item: Option<T>) -> Seq<T> {
    match item {
        Some(value) => seq![value],
        None => Seq::empty(),
    }
}

/// The mathematical content of a [`Board`].
pub struct BoardView {
    /// The cells, row by row from the top.
    pub squares: Grid,
    /// The root square of each player.
    pub roots: Seq<Coordinate>,
    /// The side of the board each player sits at.
    pub orientations: Seq<Direction>,
}

impl BoardView {
    /// Number of rows.
    pub open spec fn height(self) -> int {
        self.squares.len() as int
    }

    /// Number of cells in a row.
    pub open spec fn width(self) -> int {
        if self.squares.len() > 0 {
            self.squares[0].len() as int
        } else {
            0
        }
    }

    /// Number of players.
    pub open spec fn players(self) -> int {
        self.roots.len() as int
    }

    /// The validity of a board: the grid is rectangular, every cell has a
    /// coordinate, and each player has a root and an orientation.
    pub open spec fn wf(self) -> bool {
        &&& rectangular(self.squares)
        &&& self.height() <= isize::MAX
        &&& self.width() <= isize::MAX
        &&& self.roots.len() == self.orientations.len()
    }

    /// Whether `(x, y)` lies within the grid.
    pub open spec fn in_bounds(self, x: int, y: int) -> bool {
        0 <= x < self.width() && 0 <= y < self.height()
    }

    /// What the grid holds at `(x, y)`: `None` beyond the grid and for cells
    /// that do not exist.
    pub open spec fn cell(self, x: int, y: int) -> Option<Square> {
        if self.in_bounds(x, y) {
            self.squares[y][x]
        } else {
            None
        }
    }

    /// The result of reading `position`.
    pub open spec fn get(self, position: Coordinate) -> Result<Square, GamePlayError> {
        if !self.in_bounds(position.x as int, position.y as int) {
            Err(GamePlayError::OutOfBounds)
        } else {
            match self.squares[position.y as int][position.x as int] {
                None => Err(GamePlayError::DeadCell),
                Some(square) => Ok(square),
            }
        }
    }

    /// The player who owns the tile at `(x, y)`, if there is a tile.
    pub open spec fn owner_at(self, x: int, y: int) -> Option<usize> {
        match self.cell(x, y) {
            Some(Square::Occupied(player, _)) => Some(player),
            _ => None,
        }
    }

    /// The player who owns the tile at `position`, if there is a tile.
    pub open spec fn owner(self, position: Coordinate) -> Option<usize> {
        self.owner_at(position.x as int, position.y as int)
    }

    /// The board with the cell at `position` replaced by `cell`.
    pub open spec fn with_cell(self, position: Coordinate, cell: Option<Square>) -> BoardView {
        BoardView {
            squares: self.squares.update(
                position.y as int,
                self.squares[position.y as int].update(position.x as int, cell),
            ),
            ..self
        }
    }

    /// Why `player` cannot write to `position`, if so.
    pub open spec fn set_error(self, position: Coordinate, player: usize) -> Option<GamePlayError> {
        if position.y < 0 || position.x < 0 {
            Some(GamePlayError::OutOfBounds)
        } else if player >= self.players() {
            Some(GamePlayError::InvalidPlayer)
        } else {
            match self.get(position) {
                Err(e) => Some(e),
                Ok(_) => None,
            }
        }
    }

    /// The board after `player` has written `letter` to `position`; the
    /// board itself where that is refused.
    pub open spec fn set(self, position: Coordinate, player: usize, letter: char) -> BoardView {
        if self.set_error(position, player) is None {
            self.with_cell(position, Some(Square::Occupied(player, letter)))
        } else {
            self
        }
    }

    /// The board with any tile at `position` removed.
    pub open spec fn clear(self, position: Coordinate) -> BoardView {
        if self.get(position) is Ok {
            self.with_cell(position, Some(Square::Empty))
        } else {
            self
        }
    }

    /// The root of `player`.
    pub open spec fn get_root(self, player: usize) -> Result<Coordinate, GamePlayError> {
        if player >= self.players() {
            Err(GamePlayError::InvalidPlayer)
        } else {
            Ok(self.roots[player as int])
        }
    }

    /// The neighbour of `position` in `direction` with what it holds, where
    /// that neighbour can be read.
    pub open spec fn neighbour(self, position: Coordinate, direction: Direction) -> Option<
        (Coordinate, Square),
    > {
        if direction.can_add(position) {
            match self.get(direction.add_spec(position)) {
                Ok(square) => Some((direction.add_spec(position), square)),
                Err(_) => None,
            }
        } else {
            None
        }
    }

    /// The neighbours of `position` that can be read, each with what it
    /// holds: south, east, north, west, in this order.
    pub open spec fn neighbouring_squares(self, position: Coordinate) -> Seq<(Coordinate, Square)> {
        optional(self.neighbour(position, Direction::SOUTH)) + optional(
            self.neighbour(position, Direction::EAST),
        ) + optional(self.neighbour(position, Direction::NORTH)) + optional(
            self.neighbour(position, Direction::WEST),
        )
    }

    /// Why `player` cannot take `position` into a swap, if so.
    pub open spec fn swap_square_error(self, player: usize, position: Coordinate) -> Option<
        GamePlayError,
    > {
        match self.get(position) {
            Err(e) => Some(e),
            Ok(Square::Empty) => Some(GamePlayError::MustSwapOccupiedSquares),
            Ok(Square::Occupied(owner, _)) => if owner != player {
                Some(GamePlayError::NotOwnedBySwapper)
            } else {
                None
            },
        }
    }

    /// Why `player` cannot swap the tiles at `a` and `b`, if so.
    pub open spec fn swap_error(self, player: usize, a: Coordinate, b: Coordinate) -> Option<
        GamePlayError,
    > {
        if a == b {
            Some(GamePlayError::SameSquareSwap)
        } else if self.swap_square_error(player, a) is Some {
            self.swap_square_error(player, a)
        } else if self.swap_square_error(player, b) is Some {
            self.swap_square_error(player, b)
        } else if player >= self.players() {
            Some(GamePlayError::InvalidPlayer)
        } else {
            None
        }
    }

    /// The board after `player` has swapped the tiles at `a` and `b`; the
    /// board itself where the swap is refused.
    pub open spec fn swap(self, player: usize, a: Coordinate, b: Coordinate) -> BoardView {
        if self.swap_error(player, a, b) is None {
            self.with_cell(a, Some(Square::Occupied(player, self.get(b).unwrap().symbol_spec())))
                .with_cell(b, Some(Square::Occupied(player, self.get(a).unwrap().symbol_spec())))
        } else {
            self
        }
    }

    /// Reading beyond the grid is refused as out of bounds.
    pub proof fn lemma_get_beyond_the_grid(self, position: Coordinate)
        requires
            position.x < 0 || position.y < 0 || position.x >= self.width() || position.y
                >= self.height(),
        ensures
            self.get(position) == Err::<Square, GamePlayError>(GamePlayError::OutOfBounds),
    {
    }

    /// Writing beyond the grid is refused as out of bounds, and a refused
    /// write changes nothing. A player that does not exist is found out
    /// before a coordinate that is too large, so this speaks of the players
    /// of the board, and of negative coordinates for anyone.
    pub proof fn lemma_set_beyond_the_grid(self, position: Coordinate, player: usize, letter: char)
        requires
            position.x < 0 || position.y < 0 || position.x >= self.width() || position.y
                >= self.height(),
            player < self.players() || position.x < 0 || position.y < 0,
        ensures
            self.set_error(position, player) == Some(GamePlayError::OutOfBounds),
            self.set(position, player, letter) == self,
    {
    }

    /// A swap is allowed only between two different squares that both hold
    /// a tile of the player who swaps. It exchanges the two letters, leaves
    /// the owner of both tiles and every other square as they were, and a
    /// refused swap changes nothing.
    pub proof fn lemma_swap(self, player: usize, a: Coordinate, b: Coordinate)
        requires
            self.wf(),
        ensures
            self.swap_error(player, a, b) is None ==> {
                &&& a != b
                &&& self.get(a) matches Ok(Square::Occupied(owner_a, letter_a))
                &&& self.get(b) matches Ok(Square::Occupied(owner_b, letter_b))
                &&& owner_a == player
                &&& owner_b == player
                &&& self.swap(player, a, b).get(a) == Ok::<Square, GamePlayError>(
                    Square::Occupied(player, letter_b),
                )
                &&& self.swap(player, a, b).get(b) == Ok::<Square, GamePlayError>(
                    Square::Occupied(player, letter_a),
                )
                &&& forall|c: Coordinate|
                    c != a && c != b ==> #[trigger] self.swap(player, a, b).get(c) == self.get(c)
            },
            self.swap_error(player, a, b) is Some ==> self.swap(player, a, b) == self,
            a != b && self.owner(a) == Some(player) && self.owner(b) == Some(player) && player
                < self.players() ==> self.swap_error(player, a, b) is None,
    {
        if self.swap_error(player, a, b) is None {
            let after = self.swap(player, a, b);
            assert(self.squares[a.y as int].len() == self.squares[0].len());
            assert(self.squares[b.y as int].len() == self.squares[0].len());
            assert forall|c: Coordinate| c != a && c != b implies #[trigger] after.get(c)
                == self.get(c) by {
                if self.in_bounds(c.x as int, c.y as int) {
                    assert(self.squares[c.y as int].len() == self.squares[0].len());
                }
            }
        }
    }

    /// The neighbours listed for a position are the squares next to it
    /// that can be read, each with what it holds.
    pub proof fn lemma_neighbouring_squares(
        self,
        position: Coordinate,
        neighbour: Coordinate,
        square: Square,
    )
        ensures
            self.neighbouring_squares(position).contains((neighbour, square)) <==> adjacent(
                position,
                neighbour,
            ) && self.get(neighbour) == Ok::<Square, GamePlayError>(square),
    {
        let south = optional(self.neighbour(position, Direction::SOUTH));
        let east = optional(self.neighbour(position, Direction::EAST));
        let north = optional(self.neighbour(position, Direction::NORTH));
        let west = optional(self.neighbour(position, Direction::WEST));
        let all = self.neighbouring_squares(position);
        let item = (neighbour, square);
        assert(all == south + east + north + west);
        if all.contains(item) {
            let i = choose|i: int| 0 <= i < all.len() && all[i] == item;
            assert(item == south[0] || item == east[0] || item == north[0] || item == west[0]);
        }
        if adjacent(position, neighbour) && self.get(neighbour) == Ok::<Square, GamePlayError>(
            square,
        ) {
            let direction = lemma_adjacent_is_a_step(position, neighbour);
            assert(self.neighbour(position, direction) == Some(item));
            match direction {
                Direction::SOUTH => {
                    assert(all[0] == item);
                },
                Direction::EAST => {
                    assert(all[south.len() as int] == item);
                },
                Direction::NORTH => {
                    assert(all[(south.len() + east.len()) as int] == item);
                },
                Direction::WEST => {
                    assert(all[(south.len() + east.len() + north.len()) as int] == item);
                },
            }
        }
    }

    /// No square is listed twice among the neighbours of a position.
    pub proof fn lemma_neighbours_are_distinct(self, position: Coordinate, i: int, j: int)
        requires
            0 <= i < j < self.neighbouring_squares(position).len(),
        ensures
            self.neighbouring_squares(position)[i].0 != self.neighbouring_squares(position)[j].0,
    {
        let south = optional(self.neighbour(position, Direction::SOUTH));
        let east = optional(self.neighbour(position, Direction::EAST));
        let north = optional(self.neighbour(position, Direction::NORTH));
        let west = optional(self.neighbour(position, Direction::WEST));
        let all = self.neighbouring_squares(position);
        assert(all == south + east + north + west);
    }

    /// The cell at `(x, y)` of a freshly made board of `width` by `height`
    /// playable cells between two home rows.
    pub open spec fn initial_cell(width: int, height: int, x: int, y: int) -> Option<Square> {
        if y == 0 {
            if x == width / 2 + width % 2 - 1 {
                Some(Square::Empty)
            } else {
                None
            }
        } else if y == height + 1 {
            if x == width / 2 {
                Some(Square::Empty)
            } else {
                None
            }
        } else {
            Some(Square::Empty)
        }
    }

    /// The freshly made board for two players: `height` rows of `width`
    /// empty squares between two home rows, each of which holds nothing but
    /// the root of the player seated there.
    pub open spec fn initial(width: int, height: int) -> BoardView {
        BoardView {
            squares: Seq::new(
                (height + 2) as nat,
                |y: int| Seq::new(width as nat, |x: int| Self::initial_cell(width, height, x, y)),
            ),
            roots: seq![
                Coordinate { x: (width / 2 + width % 2 - 1) as isize, y: 0 },
                Coordinate { x: (width / 2) as isize, y: (height + 1) as isize },
            ],
            orientations: seq![Direction::NORTH, Direction::SOUTH],
        }
    }
}

/// The rows of `squares` as sequences.
pub open spec fn grid_of(squares: Vec<Vec<Option<Square>>>) -> Grid {
    Seq::new(squares@.len(), |y: int| squares@[y]@)
}

/// The board of the game: a rectangular grid of cells, and for each player
/// a root square and the side of the board they sit at.
#[derive(PartialEq, Debug)]
pub struct Board {
    squares: Vec<Vec<Option<Square>>>,
    roots: Vec<Coordinate>,
    orientations: Vec<Direction>,
}

/// Writes `cell` into row `y`, column `x` of a rectangular grid.
fn put_cell(squares: &mut Vec<Vec<Option<Square>>>, y: usize, x: usize, cell: Option<Square>)
    requires
        y < grid_of(*old(squares)).len(),
        x < grid_of(*old(squares))[y as int].len(),
        rectangular(grid_of(*old(squares))),
    ensures
        grid_of(*final(squares)) == grid_of(*old(squares)).update(
            y as int,
            grid_of(*old(squares))[y as int].update(x as int, cell),
        ),
        grid_of(*final(squares)).len() == grid_of(*old(squares)).len(),
        grid_of(*final(squares))[0].len() == grid_of(*old(squares))[0].len(),
        rectangular(grid_of(*final(squares))),
    no_unwind
{
    squares[y][x] = cell;
    assert(grid_of(*squares) =~= grid_of(*old(squares)).update(
        y as int,
        grid_of(*old(squares))[y as int].update(x as int, cell),
    ));
    assert forall|i: int| 0 <= i < grid_of(*squares).len() implies (#[trigger] grid_of(
        *squares,
    )[i]).len() == grid_of(*squares)[0].len() by {
        assert(grid_of(*old(squares))[i].len() == grid_of(*old(squares))[0].len());
    }
}

impl Board {
    /// The mathematical content of the board.
    pub closed spec fn view(&self) -> BoardView {
        BoardView {
            squares: grid_of(self.squares),
            roots: self.roots@,
            orientations: self.orientations@,
        }
    }

    /// Every board is valid.
    #[verifier::type_invariant]
    pub open spec fn inv(&self) -> bool {
        self@.wf()
    }

    /// Number of rows of the grid.
    pub fn height(&self) -> (h: usize)
        ensures
            h == self@.height(),
            self@.wf(),
    {
        proof {
            use_type_invariant(self);
        }
        self.squares.len()
    }

    /// Number of cells in each row of the grid.
    pub fn width(&self) -> (w: usize)
        ensures
            w == self@.width(),
            self@.wf(),
    {
        proof {
            use_type_invariant(self);
        }
        if self.squares.len() > 0 {
            self.squares[0].len()
        } else {
            0
        }
    }

    /// Number of players.
    pub fn players(&self) -> (n: usize)
        ensures
            n == self@.players(),
            self@.wf(),
    {
        proof {
            use_type_invariant(self);
        }
        self.roots.len()
    }

    /// Reads the square at `position`. Fails with `OutOfBounds` where a
    /// coordinate is negative or beyond the grid, and with `DeadCell` where
    /// the grid has no cell there.
    pub fn get(&self, position: Coordinate) -> (r: Result<Square, GamePlayError>)
        ensures
            r == self@.get(position),
            self@.wf(),
    {
        proof {
            use_type_invariant(self);
        }
        if position.y < 0 || position.x < 0 {
            return Err(GamePlayError::OutOfBounds);
        }
        let x = position.x as usize;
        let y = position.y as usize;
        if y >= self.squares.len() {
            Err(GamePlayError::OutOfBounds)
        } else if x >= self.squares[0].len() {
            Err(GamePlayError::OutOfBounds)
        } else {
            assert(self@.squares[y as int].len() == self@.squares[0].len());
            match self.squares[y][x] {
                None => Err(GamePlayError::DeadCell),
                Some(square) => Ok(square),
            }
        }
    }

    /// Writes a tile of `player` with `letter` to `position`, over whatever
    /// the square held. Fails, and leaves the board as it was, where a
    /// coordinate is negative (`OutOfBounds`), else where `player` is no
    /// player of this board (`InvalidPlayer`), else where `get` fails.
    pub fn set(&mut self, position: Coordinate, player: usize, value: char) -> (r: Result<
        (),
        GamePlayError,
    >)
        ensures
            r == (match old(self)@.set_error(position, player) {
                Some(e) => Err(e),
                None => Ok(()),
            }),
            final(self)@ == old(self)@.set(position, player, value),
    {
        proof {
            use_type_invariant(&*self);
        }
        if position.y < 0 || position.x < 0 {
            return Err(GamePlayError::OutOfBounds);
        }
        let x = position.x as usize;
        let y = position.y as usize;
        if player >= self.roots.len() {
            Err(GamePlayError::InvalidPlayer)
        } else if y >= self.squares.len() {
            Err(GamePlayError::OutOfBounds)
        } else if x >= self.squares[0].len() {
            Err(GamePlayError::OutOfBounds)
        } else {
            assert(self@.squares[y as int].len() == self@.squares[0].len());
            match self.squares[y][x] {
                Some(_) => {
                    put_cell(&mut self.squares, y, x, Some(Square::Occupied(player, value)));
                    Ok(())
                },
                None => Err(GamePlayError::DeadCell),
            }
        }
    }

    /// Removes the tile at `position`, if there is one: a square that can
    /// be read becomes empty, and nothing changes otherwise.
    pub fn clear(&mut self, position: Coordinate)
        ensures
            final(self)@ == old(self)@.clear(position),
    {
        proof {
            use_type_invariant(&*self);
        }
        if position.y < 0 || position.x < 0 {
            return ;
        }
        let x = position.x as usize;
        let y = position.y as usize;
        if y < self.squares.len() && x < self.squares[0].len() {
            assert(self@.squares[y as int].len() == self@.squares[0].len());
            if self.squares[y][x].is_some() {
                put_cell(&mut self.squares, y, x, Some(Square::Empty));
            }
        }
    }

    /// The root square of `player`, or `InvalidPlayer` where the board has
    /// no such player.
    pub fn get_root(&self, player: usize) -> (r: Result<Coordinate, GamePlayError>)
        ensures
            r == self@.get_root(player),
    {
        if player >= self.roots.len() {
            Err(GamePlayError::InvalidPlayer)
        } else {
            Ok(self.roots[player])
        }
    }

    /// The root square of every player, by player.
    pub fn roots(&self) -> (r: Vec<Coordinate>)
        ensures
            r@ == self@.roots,
    {
        let mut out: Vec<Coordinate> = Vec::new();
        let mut i: usize = 0;
        while i < self.roots.len()
            invariant
                i <= self.roots.len(),
                out@ == self.roots@.take(i as int),
            decreases self.roots.len() - i,
        {
            out.push(self.roots[i]);
            assert(self.roots@.take(i + 1) =~= self.roots@.take(i as int).push(self.roots@[i as int]));
            i += 1;
        }
        assert(self.roots@.take(i as int) =~= self.roots@);
        out
    }

    /// The side of the board every player sits at, by player.
    pub fn orientations(&self) -> (r: Vec<Direction>)
        ensures
            r@ == self@.orientations,
    {
        let mut out: Vec<Direction> = Vec::new();
        let mut i: usize = 0;
        while i < self.orientations.len()
            invariant
                i <= self.orientations.len(),
                out@ == self.orientations@.take(i as int),
            decreases self.orientations.len() - i,
        {
            out.push(self.orientations[i]);
            assert(self.orientations@.take(i + 1) =~= self.orientations@.take(i as int).push(
                self.orientations@[i as int],
            ));
            i += 1;
        }
        assert(self.orientations@.take(i as int) =~= self.orientations@);
        out
    }

    /// The side of the board that `player` sits at, if there is such a player.
    pub fn orientation(&self, player: usize) -> (r: Option<Direction>)
        ensures
            r == (if player < self@.orientations.len() {
                Some(self@.orientations[player as int])
            } else {
                None::<Direction>
            }),
    {
        if player < self.orientations.len() {
            Some(self.orientations[player])
        } else {
            None
        }
    }

    /// Makes the board for two players: `height` rows of `width` empty
    /// squares between two home rows. Each home row holds nothing but the
    /// root of the player seated there, in the middle of the row. Player 0
    /// sits north, player 1 south.
    pub fn new(width: usize, height: usize) -> (board: Board)
        requires
            1 <= width <= isize::MAX,
            height + 2 <= isize::MAX,
        ensures
            board@ == BoardView::initial(width as int, height as int),
    {
        let first_root: usize = width / 2 + width % 2 - 1;
        let second_root: usize = width / 2;
        let mut squares: Vec<Vec<Option<Square>>> = Vec::new();
        let mut y: usize = 0;
        while y < height + 2
            invariant
                y <= height + 2 <= isize::MAX,
                first_root == width as int / 2 + width as int % 2 - 1,
                second_root == width as int / 2,
                squares@.len() == y,
                forall|j: int|
                    0 <= j < y ==> (#[trigger] squares@[j])@ == Seq::new(
                        width as nat,
                        |x: int| BoardView::initial_cell(width as int, height as int, x, j),
                    ),
            decreases height + 2 - y,
        {
            let mut row: Vec<Option<Square>> = Vec::new();
            let mut x: usize = 0;
            while x < width
                invariant
                    x <= width,
                    y <= height + 1 < isize::MAX,
                    first_root == width as int / 2 + width as int % 2 - 1,
                    second_root == width as int / 2,
                    row@.len() == x,
                    forall|i: int|
                        0 <= i < x ==> #[trigger] row@[i] == BoardView::initial_cell(
                            width as int,
                            height as int,
                            i,
                            y as int,
                        ),
                decreases width - x,
            {
                let cell = if y == 0 {
                    if x == first_root {
                        Some(Square::Empty)
                    } else {
                        None
                    }
                } else if y == height + 1 {
                    if x == second_root {
                        Some(Square::Empty)
                    } else {
                        None
                    }
                } else {
                    Some(Square::Empty)
                };
                row.push(cell);
                x += 1;
            }
            assert(row@ =~= Seq::new(
                width as nat,
                |x: int| BoardView::initial_cell(width as int, height as int, x, y as int),
            ));
            squares.push(row);
            y += 1;
        }
        let mut roots: Vec<Coordinate> = Vec::new();
        roots.push(Coordinate { x: first_root as isize, y: 0 });
        roots.push(Coordinate { x: second_root as isize, y: (height + 1) as isize });
        let mut orientations: Vec<Direction> = Vec::new();
        orientations.push(Direction::NORTH);
        orientations.push(Direction::SOUTH);
        proof {
            let target = BoardView::initial(width as int, height as int);
            assert(grid_of(squares) =~= target.squares);
            assert(roots@ =~= target.roots);
            assert(orientations@ =~= target.orientations);
        }
        Board { squares, roots, orientations }
    }

    /// Makes a board of the given parts.
    pub(crate) fn from_parts(
        squares: Vec<Vec<Option<Square>>>,
        roots: Vec<Coordinate>,
        orientations: Vec<Direction>,
    ) -> (board: Board)
        requires
            (BoardView { squares: grid_of(squares), roots: roots@, orientations: orientations@ }).wf(),
        ensures
            board@ == (BoardView {
                squares: grid_of(squares),
                roots: roots@,
                orientations: orientations@,
            }),
    {
        Board { squares, roots, orientations }
    }

    /// The neighbour of `position` in `direction` with what it holds, where
    /// that neighbour can be read.
    pub fn neighbour(&self, position: Coordinate, direction: Direction) -> (r: Option<
        (Coordinate, Square),
    >)
        ensures
            r == self@.neighbour(position, direction),
    {
        match direction.checked_add(position) {
            None => None,
            Some(coordinate) => match self.get(coordinate) {
                Ok(square) => Some((coordinate, square)),
                Err(_) => None,
            },
        }
    }

    /// The squares next to `position` that can be read, each with its
    /// coordinate: south, east, north, west, in this order. Neighbours
    /// beyond the grid and cells that do not exist are left out.
    pub fn neighbouring_squares(&self, position: Coordinate) -> (neighbours: Vec<
        (Coordinate, Square),
    >)
        ensures
            neighbours@ == self@.neighbouring_squares(position),
    {
        let mut neighbours: Vec<(Coordinate, Square)> = Vec::new();
        if let Some(found) = self.neighbour(position, Direction::SOUTH) {
            neighbours.push(found);
        }
        assert(neighbours@ =~= optional(self@.neighbour(position, Direction::SOUTH)));
        if let Some(found) = self.neighbour(position, Direction::EAST) {
            neighbours.push(found);
        }
        assert(neighbours@ =~= optional(self@.neighbour(position, Direction::SOUTH)) + optional(
            self@.neighbour(position, Direction::EAST),
        ));
        if let Some(found) = self.neighbour(position, Direction::NORTH) {
            neighbours.push(found);
        }
        assert(neighbours@ =~= optional(self@.neighbour(position, Direction::SOUTH)) + optional(
            self@.neighbour(position, Direction::EAST),
        ) + optional(self@.neighbour(position, Direction::NORTH)));
        if let Some(found) = self.neighbour(position, Direction::WEST) {
            neighbours.push(found);
        }
        assert(neighbours@ =~= self@.neighbouring_squares(position));
        neighbours
    }

    /// Exchanges the letters of two tiles of `player`. Fails, and leaves
    /// the board as it was, where the two positions are the same
    /// (`SameSquareSwap`); else for the first of the two positions, in the
    /// order given, that cannot be read (the error of `get`), holds no tile
    /// (`MustSwapOccupiedSquares`) or holds a tile of another player
    /// (`NotOwnedBySwapper`); else where `player` is no player of this
    /// board (`InvalidPlayer`).
    pub fn swap(&mut self, player: usize, positions: [Coordinate; 2]) -> (r: Result<
        (),
        GamePlayError,
    >)
        ensures
            r == (match old(self)@.swap_error(player, positions[0], positions[1]) {
                Some(e) => Err(e),
                None => Ok(()),
            }),
            final(self)@ == old(self)@.swap(player, positions[0], positions[1]),
    {
        let first = positions[0];
        let second = positions[1];
        if first == second {
            return Err(GamePlayError::SameSquareSwap);
        }
        let first_tile = match self.get(first) {
            Err(e) => {
                return Err(e);
            },
            Ok(Square::Empty) => {
                return Err(GamePlayError::MustSwapOccupiedSquares);
            },
            Ok(Square::Occupied(owner, tile)) => {
                if owner != player {
                    return Err(GamePlayError::NotOwnedBySwapper);
                }
                tile
            },
        };
        let second_tile = match self.get(second) {
            Err(e) => {
                return Err(e);
            },
            Ok(Square::Empty) => {
                return Err(GamePlayError::MustSwapOccupiedSquares);
            },
            Ok(Square::Occupied(owner, tile)) => {
                if owner != player {
                    return Err(GamePlayError::NotOwnedBySwapper);
                }
                tile
            },
        };
        if player >= self.players() {
            return Err(GamePlayError::InvalidPlayer);
        }
        let placed = self.set(first, player, second_tile);
        let ghost between = self@;
        assert(between.get(second) == old(self)@.get(second));
        let placed = self.set(second, player, first_tile);
        Ok(())
    }
}

impl Clone for Board {
    /// A second board that holds what this one holds.
    fn clone(&self) -> (copy: Board)
        ensures
            copy@ == self@,
    {
        proof {
            use_type_invariant(self);
        }
        let mut squares: Vec<Vec<Option<Square>>> = Vec::new();
        let mut y: usize = 0;
        while y < self.squares.len()
            invariant
                y <= self.squares@.len(),
                squares@.len() == y,
                forall|j: int| 0 <= j < y ==> (#[trigger] squares@[j])@ == self.squares@[j]@,
            decreases self.squares@.len() - y,
        {
            let mut row: Vec<Option<Square>> = Vec::new();
            let mut x: usize = 0;
            while x < self.squares[y].len()
                invariant
                    y < self.squares@.len(),
                    x <= self.squares@[y as int]@.len(),
                    row@ == self.squares@[y as int]@.take(x as int),
                decreases self.squares@[y as int]@.len() - x,
            {
                row.push(self.squares[y][x]);
                assert(self.squares@[y as int]@.take(x + 1) =~= self.squares@[y as int]@.take(
                    x as int,
                ).push(self.squares@[y as int]@[x as int]));
                x += 1;
            }
            assert(self.squares@[y as int]@.take(x as int) =~= self.squares@[y as int]@);
            squares.push(row);
            y += 1;
        }
        let roots = self.roots();
        let orientations = self.orientations();
        assert(grid_of(squares) =~= grid_of(self.squares));
        Board { squares, roots, orientations }
    }
}

impl Default for Board {
    /// The board of nine by nine playable squares.
    fn default() -> (board: Board)
        ensures
            board@ == BoardView::initial(9, 9),
    {
        Board::new(9, 9)
    }
}

} // verus!
