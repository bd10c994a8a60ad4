use vstd::prelude::*;
use vstd::std_specs::iter::IteratorSpec;
use crate::board::{grid_of, rectangular, Board, BoardView, Coordinate, Direction, Grid, Square};
use crate::error::GamePlayError;
use crate::text::push_char;

verus! {

/// The character that stands for `cell` in a textual layout: `' '` for a
/// cell that does not exist, `'_'` for an empty square, else the letter.
pub open spec fn cell_symbol(cell: Option<Square>) -> char {
    match cell {
        None => ' ',
        Some(square) => square.symbol_spec(),
    }
}

/// The cell that `symbol` stands for in a textual layout. A letter stands
/// for a tile of player 0.
pub open spec fn symbol_cell(symbol: char) -> Option<Square> {
    if symbol == ' ' {
        None
    } else if symbol == '_' {
        Some(Square::Empty)
    } else {
        Some(Square::Occupied(0, symbol))
    }
}

/// The text of one row: the symbols of its cells with one space between
/// each two.
pub open spec fn row_text(row: Seq<Option<Square>>) -> Seq<char> {
    Seq::new(
        if row.len() == 0 {
            0nat
        } else {
            (2 * row.len() - 1) as nat
        },
        |i: int|
            if i % 2 == 0 {
                cell_symbol(row[i / 2])
            } else {
                ' '
            },
    )
}

/// The text of a grid: the texts of its rows with a line break between
/// each two.
pub open spec fn grid_text(grid: Grid) -> Seq<char>
    decreases grid.len(),
{
    if grid.len() == 0 {
        Seq::empty()
    } else if grid.len() == 1 {
        row_text(grid[0])
    } else {
        grid_text(grid.drop_last()) + seq!['\n'] + row_text(grid.last())
    }
}

/// The lines of `text`: what stands between its line breaks. A text
/// without a line break is one line.
pub open spec fn lines(text: Seq<char>) -> Seq<Seq<char>>
    decreases text.len(),
{
    if text.len() == 0 {
        seq![Seq::empty()]
    } else {
        let before = lines(text.drop_last());
        if text.last() == '\n' {
            before.push(Seq::empty())
        } else {
            before.update(before.len() - 1, before.last().push(text.last()))
        }
    }
}

/// Whether every second character of `line` is a space.
pub open spec fn well_spaced(line: Seq<char>) -> bool {
    forall|i: int| 0 <= i < line.len() && i % 2 == 1 ==> #[trigger] line[i] == ' '
}

/// Whether each of `lines` is well spaced.
pub open spec fn all_well_spaced(lines: Seq<Seq<char>>) -> bool {
    forall|j: int| 0 <= j < lines.len() ==> well_spaced(#[trigger] lines[j])
}

/// The cells that `line` spells: one for each character at an even place.
pub open spec fn row_cells(line: Seq<char>) -> Seq<Option<Square>> {
    Seq::new(((line.len() + 1) / 2) as nat, |k: int| symbol_cell(line[2 * k]))
}

/// The grid that `text` spells, line by line.
pub open spec fn text_grid(text: Seq<char>) -> Grid {
    Seq::new(lines(text).len(), |j: int| row_cells(lines(text)[j]))
}

/// A text has at least one line.
pub proof fn lemma_lines_not_empty(text: Seq<char>)
    ensures
        lines(text).len() >= 1,
    decreases text.len(),
{
    if text.len() > 0 {
        lemma_lines_not_empty(text.drop_last());
    }
}

/// The cell that holds what `cell` holds, a tile in it handed to `player`.
pub open spec fn handed_to(cell: Option<Square>, player: usize) -> Option<Square> {
    match cell {
        Some(Square::Occupied(_, letter)) => Some(Square::Occupied(player, letter)),
        other => other,
    }
}

impl BoardView {
    /// The textual layout of the board.
    pub open spec fn to_text(self) -> Seq<char> {
        grid_text(self.squares)
    }

    /// The board on which `player` owns every tile that a chain of tiles of
    /// one player joins to the root of `player`.
    pub open spec fn claimed(self, player: usize) -> BoardView {
        BoardView {
            squares: Seq::new(
                self.squares.len(),
                |y: int|
                    Seq::new(
                        self.squares[y].len(),
                        |x: int|
                            if self.connected(
                                self.roots[player as int],
                                Coordinate { x: x as isize, y: y as isize },
                            ) {
                                handed_to(self.squares[y][x], player)
                            } else {
                                self.squares[y][x]
                            },
                    ),
            ),
            ..self
        }
    }

    /// The board after each player from 1 up to, but not including,
    /// `players` has in turn claimed the tiles joined to their root.
    pub open spec fn claimed_by_first(self, players: nat) -> BoardView
        decreases players,
    {
        if players <= 1 {
            self
        } else {
            self.claimed_by_first((players - 1) as nat).claimed((players - 1) as usize)
        }
    }
}

/// Whether `text` spells a board for the players with the given roots and
/// orientations: each player has a root and an orientation, every second
/// character of each line is a space, all lines spell the same number of
/// cells, and every cell has a coordinate.
pub open spec fn readable(text: Seq<char>, roots: Seq<Coordinate>, orientations: Seq<Direction>) -> bool {
    &&& roots.len() == orientations.len()
    &&& all_well_spaced(lines(text))
    &&& (BoardView { squares: text_grid(text), roots, orientations }).wf()
}

/// What reading `text` gives: the grid that the text spells, with every
/// tile owned by player 0, on which each further player in turn has claimed
/// the tiles joined to their root.
pub open spec fn parse_board(
    text: Seq<char>,
    roots: Seq<Coordinate>,
    orientations: Seq<Direction>,
) -> Result<BoardView, GamePlayError> {
    if readable(text, roots, orientations) {
        Ok(
            (BoardView { squares: text_grid(text), roots, orientations }).claimed_by_first(
                roots.len(),
            ),
        )
    } else {
        Err(GamePlayError::MalformedBoardText)
    }
}

/// Whether `cell` can be told from its symbol: a letter must not be one of
/// the characters that stand for something else in a layout.
pub open spec fn writable(cell: Option<Square>) -> bool {
    cell matches Some(Square::Occupied(_, letter)) ==> letter != ' ' && letter != '_' && letter
        != '\n'
}

/// Whether every cell of `grid` can be told from its symbol.
pub open spec fn all_writable(grid: Grid) -> bool {
    forall|y: int, x: int|
        0 <= y < grid.len() && 0 <= x < grid[y].len() ==> writable(#[trigger] grid[y][x])
}

/// The grid that holds what `grid` holds, with every tile handed to
/// player 0.
pub open spec fn handed_to_first(grid: Grid) -> Grid {
    Seq::new(grid.len(), |y: int| Seq::new(grid[y].len(), |x: int| handed_to(grid[y][x], 0)))
}

/// Whether `text` holds no line break.
pub open spec fn unbroken(text: Seq<char>) -> bool {
    forall|i: int| 0 <= i < text.len() ==> #[trigger] text[i] != '\n'
}

/// The text of a row spells that row again, but for the owners.
pub proof fn lemma_row_text_reads_back(row: Seq<Option<Square>>)
    requires
        forall|x: int| 0 <= x < row.len() ==> writable(#[trigger] row[x]),
    ensures
        row_cells(row_text(row)) == Seq::new(row.len(), |x: int| handed_to(row[x], 0)),
        well_spaced(row_text(row)),
        unbroken(row_text(row)),
{
    let text = row_text(row);
    let cells = row_cells(text);
    assert(cells.len() == row.len());
    assert forall|k: int| 0 <= k < row.len() implies cells[k] == handed_to(row[k], 0) by {
        assert(text[2 * k] == cell_symbol(row[(2 * k) / 2]));
        assert(writable(row[k]));
    }
    assert(cells =~= Seq::new(row.len(), |x: int| handed_to(row[x], 0)));
    assert forall|i: int| 0 <= i < text.len() implies #[trigger] text[i] != '\n' by {
        if i % 2 == 0 {
            assert(writable(row[i / 2]));
        }
    }
}

/// A text without a line break is one line.
pub proof fn lemma_lines_of_unbroken(text: Seq<char>)
    requires
        unbroken(text),
    ensures
        lines(text) == seq![text],
    decreases text.len(),
{
    if text.len() == 0 {
        assert(text =~= Seq::<char>::empty());
    } else {
        let shorter = text.drop_last();
        assert forall|i: int| 0 <= i < shorter.len() implies #[trigger] shorter[i] != '\n' by {
            assert(shorter[i] == text[i]);
        }
        lemma_lines_of_unbroken(shorter);
        assert(text[text.len() - 1] != '\n');
        assert(shorter.push(text.last()) =~= text);
        assert(lines(text) =~= seq![text]);
    }
}

/// A line break and a text without one add one line.
pub proof fn lemma_lines_with_one_more(text: Seq<char>, line: Seq<char>)
    requires
        unbroken(line),
    ensures
        lines(text + seq!['\n'] + line) == lines(text).push(line),
    decreases line.len(),
{
    let whole = text + seq!['\n'] + line;
    if line.len() == 0 {
        assert(whole.drop_last() =~= text);
        assert(whole.last() == '\n');
        assert(line =~= Seq::<char>::empty());
    } else {
        let shorter = line.drop_last();
        assert forall|i: int| 0 <= i < shorter.len() implies #[trigger] shorter[i] != '\n' by {
            assert(shorter[i] == line[i]);
        }
        lemma_lines_with_one_more(text, shorter);
        assert(whole.drop_last() =~= text + seq!['\n'] + shorter);
        assert(whole.last() == line[line.len() - 1]);
        assert(shorter.push(line.last()) =~= line);
        assert(lines(whole) =~= lines(text).push(line));
    }
}

/// The lines of the text of a grid are the texts of its rows.
pub proof fn lemma_lines_of_grid_text(grid: Grid)
    requires
        grid.len() >= 1,
        all_writable(grid),
    ensures
        lines(grid_text(grid)) == Seq::new(grid.len(), |y: int| row_text(grid[y])),
    decreases grid.len(),
{
    let last = grid.last();
    assert forall|x: int| 0 <= x < last.len() implies writable(#[trigger] last[x]) by {
        assert(writable(grid[grid.len() - 1][x]));
    }
    lemma_row_text_reads_back(last);
    if grid.len() == 1 {
        lemma_lines_of_unbroken(row_text(grid[0]));
        assert(lines(grid_text(grid)) =~= Seq::new(grid.len(), |y: int| row_text(grid[y])));
    } else {
        let above = grid.drop_last();
        assert forall|y: int, x: int|
            0 <= y < above.len() && 0 <= x < above[y].len() implies writable(
            #[trigger] above[y][x],
        ) by {
            assert(writable(grid[y][x]));
        }
        lemma_lines_of_grid_text(above);
        lemma_lines_with_one_more(grid_text(above), row_text(last));
        assert(lines(grid_text(grid)) =~= Seq::new(grid.len(), |y: int| row_text(grid[y])));
    }
}

/// The text of a grid spells that grid again, but for the owners.
pub proof fn lemma_grid_text_reads_back(grid: Grid)
    requires
        grid.len() >= 1,
        all_writable(grid),
    ensures
        text_grid(grid_text(grid)) == handed_to_first(grid),
        all_well_spaced(lines(grid_text(grid))),
{
    lemma_lines_of_grid_text(grid);
    let read = lines(grid_text(grid));
    assert forall|y: int| 0 <= y < grid.len() implies row_cells(#[trigger] read[y])
        == handed_to_first(grid)[y] && well_spaced(read[y]) by {
        assert forall|x: int| 0 <= x < grid[y].len() implies writable(#[trigger] grid[y][x]) by {}
        lemma_row_text_reads_back(grid[y]);
    }
    assert(text_grid(grid_text(grid)) =~= handed_to_first(grid));
}

/// No line holds a line break.
pub proof fn lemma_lines_are_unbroken(text: Seq<char>, j: int)
    requires
        0 <= j < lines(text).len(),
    ensures
        unbroken(lines(text)[j]),
    decreases text.len(),
{
    if text.len() > 0 {
        let before = lines(text.drop_last());
        lemma_lines_not_empty(text.drop_last());
        if j < before.len() {
            lemma_lines_are_unbroken(text.drop_last(), j);
        }
    }
}

/// Every cell that a text spells can be told from its symbol, and every
/// tile it spells belongs to player 0.
pub proof fn lemma_text_grid_is_plain(text: Seq<char>)
    ensures
        all_writable(text_grid(text)),
        handed_to_first(text_grid(text)) == text_grid(text),
{
    let grid = text_grid(text);
    assert forall|y: int, x: int| 0 <= y < grid.len() && 0 <= x < grid[y].len() implies writable(
        #[trigger] grid[y][x],
    ) && handed_to(grid[y][x], 0) == grid[y][x] by {
        lemma_lines_are_unbroken(text, y);
        assert(lines(text)[y][2 * x] != '\n');
    }
    assert forall|y: int| 0 <= y < grid.len() implies #[trigger] handed_to_first(grid)[y]
        =~= grid[y] by {
        assert forall|x: int| 0 <= x < grid[y].len() implies handed_to_first(grid)[y][x]
            == grid[y][x] by {
            assert(writable(grid[y][x]));
        }
    }
    assert(handed_to_first(grid) =~= grid);
}

impl BoardView {
    /// Claiming tiles changes their owners and nothing else.
    pub proof fn lemma_claimed_keeps_letters(self, players: nat)
        requires
            all_writable(self.squares),
        ensures
            handed_to_first(self.claimed_by_first(players).squares) == handed_to_first(self.squares),
            all_writable(self.claimed_by_first(players).squares),
            self.claimed_by_first(players).squares.len() == self.squares.len(),
            self.claimed_by_first(players).roots == self.roots,
            self.claimed_by_first(players).orientations == self.orientations,
        decreases players,
    {
        if players > 1 {
            let earlier = self.claimed_by_first((players - 1) as nat);
            let later = earlier.claimed((players - 1) as usize);
            self.lemma_claimed_keeps_letters((players - 1) as nat);
            assert forall|y: int, x: int|
                0 <= y < later.squares.len() && 0 <= x < later.squares[y].len() implies writable(
                #[trigger] later.squares[y][x],
            ) && handed_to(later.squares[y][x], 0) == handed_to(earlier.squares[y][x], 0) by {
                assert(writable(earlier.squares[y][x]));
            }
            assert forall|y: int| 0 <= y < later.squares.len() implies #[trigger] handed_to_first(
                later.squares,
            )[y] =~= handed_to_first(earlier.squares)[y] by {
                assert forall|x: int| 0 <= x < later.squares[y].len() implies handed_to_first(
                    later.squares,
                )[y][x] == handed_to_first(earlier.squares)[y][x] by {
                    assert(writable(later.squares[y][x]));
                }
            }
            assert(handed_to_first(later.squares) =~= handed_to_first(earlier.squares));
        }
    }
}

impl BoardView {
    /// Whether every tile belongs to player 0.
    pub open spec fn all_of_first(self) -> bool {
        forall|position: Coordinate|
            (#[trigger] self.owner(position)) is Some ==> self.owner(position) == Some(0usize)
    }

    /// The last of the players from 1 up to, but not including, `players`
    /// whose root a chain of tiles joins to `position`; player 0 where
    /// there is none.
    pub open spec fn last_claimant(self, players: nat, position: Coordinate) -> usize
        decreases players,
    {
        if players <= 1 {
            0
        } else if self.connected(self.roots[players - 1], position) {
            (players - 1) as usize
        } else {
            self.last_claimant((players - 1) as nat, position)
        }
    }

    /// Claiming tiles leaves the shape of the board and its players as
    /// they were.
    pub proof fn lemma_claimed_keeps_shape(self, players: nat)
        ensures
            self.claimed_by_first(players).squares.len() == self.squares.len(),
            forall|y: int|
                0 <= y < self.squares.len() ==> (#[trigger] self.claimed_by_first(
                    players,
                ).squares[y]).len() == self.squares[y].len(),
            self.claimed_by_first(players).roots == self.roots,
            self.claimed_by_first(players).orientations == self.orientations,
        decreases players,
    {
        if players > 1 {
            self.lemma_claimed_keeps_shape((players - 1) as nat);
        }
    }

    /// Tiles that are joined to each other have the same last claimant.
    pub proof fn lemma_last_claimant_of_joined(self, players: nat, a: Coordinate, b: Coordinate)
        requires
            self.connected(a, b),
        ensures
            self.last_claimant(players, a) == self.last_claimant(players, b),
        decreases players,
    {
        if players > 1 {
            let root = self.roots[players - 1];
            if self.connected(root, a) {
                self.lemma_connected_transitive(root, a, b);
            }
            if self.connected(root, b) {
                self.lemma_connected_symmetric(a, b);
                self.lemma_connected_transitive(root, b, a);
            }
            self.lemma_last_claimant_of_joined((players - 1) as nat, a, b);
        }
    }

    /// On a board whose tiles all belonged to player 0, each tile belongs
    /// to its last claimant once the players have claimed their tiles.
    pub proof fn lemma_claimed_owner(self, players: nat, position: Coordinate)
        requires
            self.wf(),
            self.all_of_first(),
            players <= self.roots.len(),
            self.roots.len() <= usize::MAX,
        ensures
            self.claimed_by_first(players).owner(position) == (if self.owner(position) is Some {
                Some(self.last_claimant(players, position))
            } else {
                None
            }),
        decreases players, 0nat,
    {
        if players > 1 {
            let earlier = self.claimed_by_first((players - 1) as nat);
            let player = (players - 1) as usize;
            let later = earlier.claimed(player);
            let root = self.roots[players - 1];
            self.lemma_claimed_keeps_shape((players - 1) as nat);
            self.lemma_claimed_owner((players - 1) as nat, position);
            self.lemma_claimed_connected((players - 1) as nat, root, position);
            if self.connected(root, position) {
                self.lemma_connected_same_owner(root, position);
            }
            if self.in_bounds(position.x as int, position.y as int) {
                assert(self.squares[position.y as int].len() == self.squares[0].len());
                assert(earlier.squares[0].len() == self.squares[0].len());
                assert(earlier.squares[position.y as int].len()
                    == self.squares[position.y as int].len());
                assert(Coordinate { x: position.x as int as isize, y: position.y as int as isize }
                    == position);
            }
        }
    }

    /// On a board whose tiles all belonged to player 0, the tiles that a
    /// chain joins are the same before and after the players have claimed
    /// their tiles.
    pub proof fn lemma_claimed_connected(self, players: nat, from: Coordinate, to: Coordinate)
        requires
            self.wf(),
            self.all_of_first(),
            players <= self.roots.len(),
            self.roots.len() <= usize::MAX,
        ensures
            self.claimed_by_first(players).connected(from, to) == self.connected(from, to),
        decreases players, 1nat,
    {
        let later = self.claimed_by_first(players);
        if later.connected(from, to) {
            let path = choose|path: Seq<Coordinate>| later.links(path, from, to);
            self.lemma_claimed_owner(players, from);
            assert forall|i: int| 0 <= i < path.len() implies self.owner(#[trigger] path[i])
                == self.owner(from) by {
                self.lemma_claimed_owner(players, path[i]);
                assert(later.owner(path[i]) is Some);
            }
            assert(self.owner(path[0]) == self.owner(from));
            assert(self.links(path, from, to));
        }
        if self.connected(from, to) {
            let path = choose|path: Seq<Coordinate>| self.links(path, from, to);
            self.lemma_claimed_owner(players, from);
            assert forall|i: int| 0 <= i < path.len() implies later.owner(#[trigger] path[i])
                == later.owner(from) by {
                self.lemma_claimed_owner(players, path[i]);
                self.lemma_connected_along(path, from, to, i);
                self.lemma_last_claimant_of_joined(players, from, path[i]);
                assert(self.owner(path[i]) is Some);
            }
            assert(later.owner(path[0]) == later.owner(from));
            assert(later.links(path, from, to));
        }
    }
}

/// Who owns what on a board that was read from a text: a tile belongs to
/// the last of the players from 1 on whose root is joined to it by a chain
/// of letters, and to player 0 where no such root is.
pub proof fn lemma_read_board_owners(
    text: Seq<char>,
    roots: Seq<Coordinate>,
    orientations: Seq<Direction>,
    position: Coordinate,
)
    requires
        parse_board(text, roots, orientations) is Ok,
        roots.len() <= usize::MAX,
    ensures
        ({
            let spelled = BoardView { squares: text_grid(text), roots, orientations };
            let board = parse_board(text, roots, orientations).unwrap();
            &&& spelled.all_of_first()
            &&& board.owner(position) == (if spelled.owner(position) is Some {
                Some(spelled.last_claimant(roots.len(), position))
            } else {
                None
            })
        }),
{
    let spelled = BoardView { squares: text_grid(text), roots, orientations };
    assert forall|c: Coordinate| (#[trigger] spelled.owner(c)) is Some implies spelled.owner(c)
        == Some(0usize) by {}
    spelled.lemma_claimed_owner(roots.len(), position);
}

/// A board that was read from a text is read again from its own text:
/// writing a board and reading what was written gives the same board.
pub proof fn lemma_written_board_reads_back(
    text: Seq<char>,
    roots: Seq<Coordinate>,
    orientations: Seq<Direction>,
)
    requires
        parse_board(text, roots, orientations) is Ok,
    ensures
        parse_board(parse_board(text, roots, orientations).unwrap().to_text(), roots, orientations)
            == parse_board(text, roots, orientations),
{
    let base = BoardView { squares: text_grid(text), roots, orientations };
    let board = parse_board(text, roots, orientations).unwrap();
    lemma_text_grid_is_plain(text);
    lemma_lines_not_empty(text);
    base.lemma_claimed_keeps_letters(roots.len());
    lemma_grid_text_reads_back(board.squares);
    assert(text_grid(board.to_text()) == base.squares);
}

/// A freshly made board is read again from its own text.
pub proof fn lemma_written_new_board_reads_back(width: int, height: int)
    requires
        1 <= width <= isize::MAX,
        0 <= height,
        height + 2 <= isize::MAX,
    ensures
        parse_board(
            BoardView::initial(width, height).to_text(),
            BoardView::initial(width, height).roots,
            BoardView::initial(width, height).orientations,
        ) == Ok::<BoardView, GamePlayError>(BoardView::initial(width, height)),
{
    let board = BoardView::initial(width, height);
    assert(all_writable(board.squares));
    lemma_grid_text_reads_back(board.squares);
    assert forall|y: int| 0 <= y < board.squares.len() implies #[trigger] handed_to_first(
        board.squares,
    )[y] =~= board.squares[y] by {}
    assert(handed_to_first(board.squares) =~= board.squares);
    let base = BoardView {
        squares: text_grid(board.to_text()),
        roots: board.roots,
        orientations: board.orientations,
    };
    assert(base == board);
    assert(board.wf());
    let claimed = board.claimed(1);
    assert forall|y: int| 0 <= y < board.squares.len() implies #[trigger] claimed.squares[y]
        =~= board.squares[y] by {
        assert forall|x: int| 0 <= x < board.squares[y].len() implies claimed.squares[y][x]
            == board.squares[y][x] by {
            assert(handed_to(board.squares[y][x], 1) == board.squares[y][x]);
        }
    }
    assert(claimed.squares =~= board.squares);
    assert(board.claimed_by_first(2) == board.claimed_by_first(1).claimed(1));
    assert(board.claimed_by_first(1) == board);
}

/// Reads the cells that `text` spells, line by line, where every second
/// character of each line is a space.
fn read_grid(text: &str) -> (grid: Option<Vec<Vec<Option<Square>>>>)
    ensures
        grid is Some <==> all_well_spaced(lines(text@)),
        grid is Some ==> grid_of(grid.unwrap()) == text_grid(text@),
{
    let mut squares: Vec<Vec<Option<Square>>> = Vec::new();
    let mut row: Vec<Option<Square>> = Vec::new();
    let mut odd = false;
    let mut spaced = true;
    proof {
        assert(lines(text@.take(0)) =~= seq![Seq::<char>::empty()]);
        assert(row@ =~= row_cells(Seq::<char>::empty()));
    }
    for symbol in it: text.chars()
        invariant
            it.seq() == text@,
            lines(text@.take(it.index() as int)).len() >= 1,
            squares@.len() == lines(text@.take(it.index() as int)).len() - 1,
            forall|j: int|
                0 <= j < squares@.len() ==> (#[trigger] squares@[j])@ == row_cells(
                    lines(text@.take(it.index() as int))[j],
                ),
            row@ == row_cells(lines(text@.take(it.index() as int)).last()),
            odd == (lines(text@.take(it.index() as int)).last().len() % 2 == 1),
            spaced == all_well_spaced(lines(text@.take(it.index() as int))),
    {
        let ghost read = text@.take(it.index() as int);
        let ghost longer = text@.take(it.index() + 1);
        let ghost before = lines(read);
        let ghost line = before.last();
        proof {
            assert(longer.drop_last() =~= read);
            assert(longer.last() == symbol);
            lemma_lines_not_empty(longer);
        }
        if symbol == '\n' {
            squares.push(row);
            row = Vec::new();
            odd = false;
            proof {
                assert(lines(longer) == before.push(Seq::<char>::empty()));
                assert(row@ =~= row_cells(Seq::<char>::empty()));
                assert forall|j: int| 0 <= j < lines(longer).len() implies well_spaced(
                    #[trigger] lines(longer)[j],
                ) == (if j < before.len() {
                    well_spaced(before[j])
                } else {
                    true
                }) by {}
                assert(all_well_spaced(lines(longer)) == all_well_spaced(before)) by {
                    if all_well_spaced(before) {
                        assert forall|j: int| 0 <= j < lines(longer).len() implies well_spaced(
                            #[trigger] lines(longer)[j],
                        ) by {
                            if j < before.len() {
                                assert(well_spaced(before[j]));
                            }
                        }
                    }
                    if all_well_spaced(lines(longer)) {
                        assert forall|j: int| 0 <= j < before.len() implies well_spaced(
                            #[trigger] before[j],
                        ) by {
                            assert(well_spaced(lines(longer)[j]));
                        }
                    }
                }
            }
        } else {
            let ghost grown = line.push(symbol);
            proof {
                assert(lines(longer) == before.update(before.len() - 1, grown));
            }
            if odd {
                if symbol != ' ' {
                    spaced = false;
                }
                proof {
                    assert(row_cells(grown) =~= row_cells(line));
                }
            } else {
                let cell = if symbol == ' ' {
                    None
                } else if symbol == '_' {
                    Some(Square::Empty)
                } else {
                    Some(Square::Occupied(0, symbol))
                };
                row.push(cell);
                proof {
                    assert(row_cells(grown) =~= row_cells(line).push(symbol_cell(symbol)));
                }
            }
            odd = !odd;
            proof {
                let ok = if line.len() % 2 == 1 {
                    symbol == ' '
                } else {
                    true
                };
                assert(well_spaced(grown) == (well_spaced(line) && ok)) by {
                    if well_spaced(grown) {
                        assert forall|i: int| 0 <= i < line.len() && i % 2 == 1 implies #[trigger] line[i]
                            == ' ' by {
                            assert(grown[i] == line[i]);
                        }
                        if line.len() % 2 == 1 {
                            assert(grown[line.len() as int] == symbol);
                        }
                    }
                    if well_spaced(line) && ok {
                        assert forall|i: int| 0 <= i < grown.len() && i % 2 == 1 implies #[trigger] grown[i]
                            == ' ' by {
                            if i < line.len() {
                                assert(grown[i] == line[i]);
                            }
                        }
                    }
                }
                assert(all_well_spaced(lines(longer)) == (all_well_spaced(before) && ok)) by {
                    let after = lines(longer);
                    if all_well_spaced(after) {
                        assert(well_spaced(after[before.len() - 1]));
                        assert forall|j: int| 0 <= j < before.len() implies well_spaced(
                            #[trigger] before[j],
                        ) by {
                            assert(well_spaced(after[j]));
                            if j < before.len() - 1 {
                                assert(after[j] == before[j]);
                            }
                        }
                    }
                    if all_well_spaced(before) && ok {
                        assert(well_spaced(before[before.len() - 1]));
                        assert forall|j: int| 0 <= j < after.len() implies well_spaced(
                            #[trigger] after[j],
                        ) by {
                            if j < before.len() - 1 {
                                assert(after[j] == before[j]);
                                assert(well_spaced(before[j]));
                            }
                        }
                    }
                }
            }
        }
    }
    proof {
        assert(text@.take(text@.len() as int) =~= text@);
    }
    squares.push(row);
    if spaced {
        assert(grid_of(squares) =~= text_grid(text@));
        Some(squares)
    } else {
        None
    }
}

/// Whether all rows of `squares` are as long as the first.
fn is_rectangular(squares: &Vec<Vec<Option<Square>>>) -> (r: bool)
    ensures
        r == rectangular(grid_of(*squares)),
{
    let mut y: usize = 1;
    while y < squares.len()
        invariant
            1 <= y,
            forall|j: int|
                0 <= j < y && j < squares@.len() ==> (#[trigger] grid_of(*squares)[j]).len()
                    == grid_of(*squares)[0].len(),
        decreases squares.len() - y,
    {
        if squares[y].len() != squares[0].len() {
            assert(grid_of(*squares)[y as int].len() != grid_of(*squares)[0].len());
            return false;
        }
        y += 1;
    }
    true
}


impl Board {
    /// Writes the board as text: one line for each row, the cells of a row
    /// separated by one space. A cell that does not exist is written as
    /// `' '`, an empty square as `'_'`, a tile as its letter.
    pub fn to_text(&self) -> (text: String)
        ensures
            text@ == self@.to_text(),
    {
        let mut text = String::new();
        let height = self.height();
        let width = self.width();
        let mut y: usize = 0;
        while y < height
            invariant
                self@.wf(),
                height == self@.height(),
                width == self@.width(),
                y <= height,
                text@ == grid_text(self@.squares.take(y as int)),
            decreases height - y,
        {
            let ghost row = self@.squares[y as int];
            let ghost start = text@;
            if y > 0 {
                push_char(&mut text, '\n');
            }
            let ghost lead = text@;
            let mut x: usize = 0;
            while x < width
                invariant
                    self@.wf(),
                    height == self@.height(),
                    width == self@.width(),
                    y < height,
                    x <= width,
                    row == self@.squares[y as int],
                    row.len() == width,
                    text@ == lead + row_text(row.take(x as int)),
                decreases width - x,
            {
                let ghost so_far = text@;
                if x > 0 {
                    push_char(&mut text, ' ');
                }
                let symbol = match self.get(Coordinate { x: x as isize, y: y as isize }) {
                    Ok(square) => square.symbol(),
                    Err(_) => ' ',
                };
                push_char(&mut text, symbol);
                proof {
                    assert(symbol == cell_symbol(row[x as int]));
                    let shorter = row_text(row.take(x as int));
                    let longer = row_text(row.take(x + 1));
                    if x > 0 {
                        assert(longer =~= shorter.push(' ').push(symbol));
                    } else {
                        assert(longer =~= shorter.push(symbol));
                    }
                    assert(text@ =~= lead + longer);
                }
                x += 1;
            }
            proof {
                assert(row.take(x as int) =~= row);
                let rows = self@.squares.take(y + 1);
                assert(rows.drop_last() =~= self@.squares.take(y as int));
                assert(rows.last() == row);
                if y > 0 {
                    assert(lead == start.push('\n'));
                    assert(start.push('\n') =~= start + seq!['\n']);
                } else {
                    assert(start =~= Seq::<char>::empty());
                    assert(text@ =~= row_text(row));
                    assert(rows[0] == row);
                }
            }
            y += 1;
        }
        assert(self@.squares.take(y as int) =~= self@.squares);
        text
    }

    /// Hands to `player` every tile that a chain of tiles of one player
    /// joins to the root of `player`.
    fn claim(&mut self, player: usize)
        requires
            player < old(self)@.players(),
        ensures
            final(self)@ == old(self)@.claimed(player),
    {
        let ghost before = self@;
        let root = match self.get_root(player) {
            Ok(root) => root,
            Err(_) => {
                return ;
            },
        };
        let height = self.height();
        let width = self.width();
        let tiles = self.depth_first_search(root);
        let mut i: usize = 0;
        while i < tiles.len()
            invariant
                before.wf(),
                height == before.height(),
                width == before.width(),
                player < before.players(),
                root == before.roots[player as int],
                i <= tiles@.len(),
                tiles@.to_set() == before.component(root),
                self@.roots == before.roots,
                self@.orientations == before.orientations,
                self@.squares.len() == before.squares.len(),
                forall|y: int|
                    0 <= y < height ==> (#[trigger] self@.squares[y]).len() == before.squares[y].len(),
                forall|y: int, x: int|
                    0 <= y < height && 0 <= x < width ==> #[trigger] self@.squares[y][x] == (if tiles@.take(
                        i as int,
                    ).contains(Coordinate { x: x as isize, y: y as isize }) {
                        handed_to(before.squares[y][x], player)
                    } else {
                        before.squares[y][x]
                    }),
            decreases tiles@.len() - i,
        {
            let tile = tiles[i];
            let ghost current = self@;
            let ghost earlier = tiles@.take(i as int);
            proof {
                assert(tiles@.contains(tile));
                assert(tiles@.to_set().contains(tile));
                before.lemma_connected_same_owner(root, tile);
                assert(before.in_bounds(tile.x as int, tile.y as int));
                assert(before.squares[tile.y as int].len() == before.squares[0].len());
                assert(current.squares[tile.y as int].len() == before.squares[tile.y as int].len());
                assert(current.squares[0].len() == before.squares[0].len());
                assert(current.squares[tile.y as int][tile.x as int] == (if earlier.contains(tile) {
                    handed_to(before.squares[tile.y as int][tile.x as int], player)
                } else {
                    before.squares[tile.y as int][tile.x as int]
                }));
            }
            match self.get(tile) {
                Ok(Square::Occupied(_, letter)) => {
                    let _ = self.set(tile, player, letter);
                },
                _ => {},
            }
            i += 1;
            proof {
                assert(tiles@.take(i as int) =~= earlier.push(tile));
                assert forall|y: int| 0 <= y < height implies (#[trigger] self@.squares[y]).len()
                    == before.squares[y].len() by {
                    assert(current.squares[y].len() == before.squares[y].len());
                }
                assert forall|y: int, x: int| 0 <= y < height && 0 <= x < width implies #[trigger] self@.squares[y][x]
                    == (if tiles@.take(i as int).contains(Coordinate { x: x as isize, y: y as isize }) {
                    handed_to(before.squares[y][x], player)
                } else {
                    before.squares[y][x]
                }) by {
                    let here = Coordinate { x: x as isize, y: y as isize };
                    crate::connectivity::lemma_push_keeps(earlier, tile, here);
                    assert(current.squares[y].len() == before.squares[y].len());
                    assert(before.squares[y].len() == before.squares[0].len());
                    assert(current.squares[y][x] == (if earlier.contains(here) {
                        handed_to(before.squares[y][x], player)
                    } else {
                        before.squares[y][x]
                    }));
                    if here != tile {
                        assert(self@.squares[y][x] == current.squares[y][x]);
                    }
                }
            }
        }
        proof {
            assert(tiles@.take(i as int) =~= tiles@);
            let target = before.claimed(player);
            assert forall|y: int| 0 <= y < height implies #[trigger] self@.squares[y]
                =~= target.squares[y] by {
                assert(before.squares[y].len() == before.squares[0].len());
                assert forall|x: int| 0 <= x < width implies self@.squares[y][x]
                    == target.squares[y][x] by {
                    let here = Coordinate { x: x as isize, y: y as isize };
                    assert(tiles@.contains(here) == tiles@.to_set().contains(here));
                }
            }
            assert(self@.squares =~= target.squares);
        }
    }

    /// Reads a board from its textual layout. Each line of `s` is a row:
    /// its characters at even places are cells, `' '` for a cell that does
    /// not exist, `'_'` for an empty square and any other character for a
    /// tile with that letter; the characters between them must be spaces.
    /// Player `p` has root `roots[p]` and sits at `orientations[p]`. Every
    /// tile belongs to player 0 at first; then each further player in turn
    /// takes over the tiles joined to their root.
    ///
    /// Fails with `MalformedBoardText` where `roots` and `orientations`
    /// differ in length, where a character between two cells is no space,
    /// where the lines differ in their number of cells, or where the grid
    /// has more rows or columns than a coordinate can count.
    pub fn from_string(s: String, roots: Vec<Coordinate>, orientations: Vec<Direction>) -> (r: Result<
        Board,
        GamePlayError,
    >)
        ensures
            r is Ok <==> parse_board(s@, roots@, orientations@) is Ok,
            r matches Ok(board) ==> board@ == parse_board(s@, roots@, orientations@).unwrap(),
            r matches Err(e) ==> e == GamePlayError::MalformedBoardText,
    {
        if roots.len() != orientations.len() {
            return Err(GamePlayError::MalformedBoardText);
        }
        let squares = match read_grid(s.as_str()) {
            None => {
                return Err(GamePlayError::MalformedBoardText);
            },
            Some(squares) => squares,
        };
        proof {
            lemma_lines_not_empty(s@);
        }
        if !is_rectangular(&squares) {
            return Err(GamePlayError::MalformedBoardText);
        }
        if squares.len() > isize::MAX as usize || squares[0].len() > isize::MAX as usize {
            return Err(GamePlayError::MalformedBoardText);
        }
        let mut board = Board::from_parts(squares, roots, orientations);
        let ghost base = board@;
        let players = board.players();
        let mut player: usize = 1;
        while player < players
            invariant
                1 <= player,
                player <= players || player == 1,
                players == base.players(),
                board@ == base.claimed_by_first(player as nat),
                board@.players() == players,
            decreases players - player,
        {
            board.claim(player);
            player += 1;
        }
        proof {
            assert(base.claimed_by_first(players as nat) == base.claimed_by_first(player as nat));
        }
        Ok(board)
    }
}

} // verus!
