use vstd::prelude::*;
use crate::board::{Board, BoardView, Coordinate, Direction, Square};
use crate::text::push_char;

verus! {

/// The sequence that holds `word` where it has more than one letter, and
/// nothing otherwise: a lone letter is no word.
pub open spec fn counted(word: Seq<Coordinate>) -> Seq<Seq<Coordinate>> {
    if word.len() > 1 {
        seq![word]
    } else {
        Seq::empty()
    }
}

/// The words of `words` as sequences.
pub open spec fn words_view(words: Vec<Vec<Coordinate>>) -> Seq<Seq<Coordinate>> {
    Seq::new(words@.len(), |i: int| words@[i]@)
}

/// The strings of `strings` as sequences of characters.
pub open spec fn strings_view(strings: Vec<String>) -> Seq<Seq<char>> {
    Seq::new(strings@.len(), |i: int| strings@[i]@)
}

impl BoardView {
    /// How many cells lie from `(x, y)` to the edge of the grid in
    /// `direction`, the cell itself included; 0 beyond the grid.
    pub open spec fn room(self, x: int, y: int, direction: Direction) -> nat {
        if self.in_bounds(x, y) {
            match direction {
                Direction::SOUTH => (self.height() - y) as nat,
                Direction::EAST => (self.width() - x) as nat,
                Direction::NORTH => (y + 1) as nat,
                Direction::WEST => (x + 1) as nat,
            }
        } else {
            0
        }
    }

    /// How many tiles of `player` follow one another from `(x, y)` in
    /// `direction`, the tile at `(x, y)` included.
    pub open spec fn reach(self, x: int, y: int, direction: Direction, player: usize) -> nat
        decreases self.room(x, y, direction),
    {
        if self.owner_at(x, y) == Some(player) {
            1 + self.reach(x + direction.dx(), y + direction.dy(), direction, player)
        } else {
            0
        }
    }

    /// The unbroken line of tiles of `player` through `position` along one
    /// axis, from top to bottom or from left to right.
    pub open spec fn line(self, position: Coordinate, vertical: bool, player: usize) -> Seq<
        Coordinate,
    > {
        let x = position.x as int;
        let y = position.y as int;
        if vertical {
            let up = self.reach(x, y, Direction::NORTH, player);
            let down = self.reach(x, y, Direction::SOUTH, player);
            Seq::new(
                (up + down - 1) as nat,
                |i: int| Coordinate { x: position.x, y: (y - (up - 1) + i) as isize },
            )
        } else {
            let left = self.reach(x, y, Direction::WEST, player);
            let right = self.reach(x, y, Direction::EAST, player);
            Seq::new(
                (left + right - 1) as nat,
                |i: int| Coordinate { x: (x - (left - 1) + i) as isize, y: position.y },
            )
        }
    }

    /// Whether `player` reads words along the given axis from bottom to top
    /// or from right to left. A player without an orientation does not.
    pub open spec fn reads_backwards(self, player: usize, vertical: bool) -> bool {
        &&& player < self.orientations.len()
        &&& if vertical {
            !self.orientations[player as int].reads_down()
        } else {
            !self.orientations[player as int].reads_right()
        }
    }

    /// The line of tiles of `player` through `position` along one axis, in
    /// the order in which `player` reads it.
    pub open spec fn word(self, position: Coordinate, vertical: bool, player: usize) -> Seq<
        Coordinate,
    > {
        if self.reads_backwards(player, vertical) {
            self.line(position, vertical, player).reverse()
        } else {
            self.line(position, vertical, player)
        }
    }

    /// The words through `position`: the vertical one, then the horizontal
    /// one, each only where it has more than one letter. No words where
    /// `position` holds no tile.
    pub open spec fn get_words(self, position: Coordinate) -> Seq<Seq<Coordinate>> {
        match self.owner(position) {
            None => Seq::empty(),
            Some(player) => counted(self.word(position, true, player)) + counted(
                self.word(position, false, player),
            ),
        }
    }

    /// The character that stands for `position` in a textual layout: the
    /// letter of a tile, `'_'` for an empty square, `' '` where the
    /// position cannot be read.
    pub open spec fn symbol_at(self, position: Coordinate) -> char {
        match self.get(position) {
            Ok(square) => square.symbol_spec(),
            Err(_) => ' ',
        }
    }

    /// The letters along `word`.
    pub open spec fn word_string(self, word: Seq<Coordinate>) -> Seq<char> {
        Seq::new(word.len(), |i: int| self.symbol_at(word[i]))
    }

    /// The letters along each word of `words`.
    pub open spec fn word_strings(self, words: Seq<Seq<Coordinate>>) -> Seq<Seq<char>> {
        Seq::new(words.len(), |i: int| self.word_string(words[i]))
    }

    /// There are no words through a position that holds no tile, on or off
    /// the board.
    pub proof fn lemma_no_tile_no_words(self, position: Coordinate)
        requires
            self.owner(position) is None,
        ensures
            self.get_words(position) == Seq::<Seq<Coordinate>>::empty(),
    {
    }

    /// A freshly made board has no words, whatever the position.
    pub proof fn lemma_new_board_has_no_words(width: int, height: int, position: Coordinate)
        requires
            0 <= width,
            0 <= height,
        ensures
            BoardView::initial(width, height).get_words(position) == Seq::<Seq<Coordinate>>::empty(),
    {
        let board = BoardView::initial(width, height);
        assert(board.owner(position) is None);
    }

    /// Every tile within a run belongs to the player of the run.
    pub proof fn lemma_reach_is_owned(
        self,
        x: int,
        y: int,
        direction: Direction,
        player: usize,
        k: int,
    )
        requires
            0 <= k < self.reach(x, y, direction, player),
        ensures
            self.owner_at(direction.along(x, y, k).0, direction.along(x, y, k).1) == Some(player),
        decreases k,
    {
        if k > 0 {
            self.lemma_reach_is_owned(
                x + direction.dx(),
                y + direction.dy(),
                direction,
                player,
                k - 1,
            );
            assert(direction.along(x + direction.dx(), y + direction.dy(), k - 1)
                == direction.along(x, y, k));
        }
    }

    /// A word never crosses ownership: every square of every word through
    /// `position` holds a tile of the player who owns the tile at
    /// `position`.
    pub proof fn lemma_words_have_one_owner(self, position: Coordinate, i: int, j: int)
        requires
            self.wf(),
            0 <= i < self.get_words(position).len(),
            0 <= j < self.get_words(position)[i].len(),
        ensures
            self.owner(position) is Some,
            self.owner(self.get_words(position)[i][j]) == self.owner(position),
    {
        let player = self.owner(position).unwrap();
        let upright = self.word(position, true, player);
        let level = self.word(position, false, player);
        let vertical = if upright.len() > 1 {
            i == 0
        } else {
            false
        };
        let word = self.get_words(position)[i];
        assert(word == if vertical {
            upright
        } else {
            level
        });
        let line = self.line(position, vertical, player);
        let k = if self.reads_backwards(player, vertical) {
            line.len() - 1 - j
        } else {
            j
        };
        assert(word[j] == line[k]);
        let x = position.x as int;
        let y = position.y as int;
        let (before, after) = if vertical {
            (Direction::NORTH, Direction::SOUTH)
        } else {
            (Direction::WEST, Direction::EAST)
        };
        let back = self.reach(x, y, before, player) as int;
        self.lemma_reach_within_room(x, y, before, player);
        self.lemma_reach_within_room(x, y, after, player);
        if k < back {
            self.lemma_reach_is_owned(x, y, before, player, back - 1 - k);
            assert(before.along(x, y, back - 1 - k) == (line[k].x as int, line[k].y as int));
        } else {
            self.lemma_reach_is_owned(x, y, after, player, k - (back - 1));
            assert(after.along(x, y, k - (back - 1)) == (line[k].x as int, line[k].y as int));
        }
    }

    /// There are at most two words through a position, each of them has at
    /// least two letters, and each of them runs through the position.
    pub proof fn lemma_words_run_through(self, position: Coordinate, i: int)
        requires
            0 <= i < self.get_words(position).len(),
        ensures
            self.get_words(position).len() <= 2,
            self.get_words(position)[i].len() >= 2,
            self.get_words(position)[i].contains(position),
    {
        let player = self.owner(position).unwrap();
        let upright = self.word(position, true, player);
        let vertical = if upright.len() > 1 {
            i == 0
        } else {
            false
        };
        let word = self.get_words(position)[i];
        assert(word == self.word(position, vertical, player));
        let line = self.line(position, vertical, player);
        let x = position.x as int;
        let y = position.y as int;
        let before = if vertical {
            Direction::NORTH
        } else {
            Direction::WEST
        };
        let k = self.reach(x, y, before, player) - 1;
        assert(line[k] == position);
        if self.reads_backwards(player, vertical) {
            assert(word[line.len() - 1 - k] == position);
        } else {
            assert(word[k] == position);
        }
    }

    /// A run of tiles ends at the edge of the grid at the latest.
    pub proof fn lemma_reach_within_room(self, x: int, y: int, direction: Direction, player: usize)
        ensures
            self.reach(x, y, direction, player) <= self.room(x, y, direction),
        decreases self.room(x, y, direction),
    {
        if self.owner_at(x, y) == Some(player) {
            self.lemma_reach_within_room(
                x + direction.dx(),
                y + direction.dy(),
                direction,
                player,
            );
        }
    }
}

impl Board {
    /// Counts the tiles of `player` that follow one another from `position`
    /// in `direction`, the tile at `position` included.
    fn reach(&self, position: Coordinate, direction: Direction, player: usize) -> (n: usize)
        ensures
            n == self@.reach(position.x as int, position.y as int, direction, player),
            n <= self@.room(position.x as int, position.y as int, direction),
            self@.wf(),
    {
        let mut n: usize = 0;
        let mut location = position;
        let ghost total = self@.reach(position.x as int, position.y as int, direction, player);
        proof {
            self@.lemma_reach_within_room(position.x as int, position.y as int, direction, player);
        }
        let _ = self.height();
        loop
            invariant
                self@.wf(),
                n + self@.reach(location.x as int, location.y as int, direction, player) == total,
                total <= isize::MAX,
            ensures
                n == total,
            decreases self@.room(location.x as int, location.y as int, direction),
        {
            match self.get(location) {
                Ok(Square::Occupied(owner, _)) => {
                    if owner != player {
                        break ;
                    }
                    n = n + 1;
                    location = direction.add(location);
                },
                _ => {
                    break ;
                },
            }
        }
        n
    }

    /// Lists the unbroken line of tiles of `player` through `position`
    /// along one axis, in the order in which `player` reads it.
    fn word(&self, position: Coordinate, vertical: bool, player: usize) -> (word: Vec<Coordinate>)
        requires
            self@.owner(position) == Some(player),
        ensures
            word@ == self@.word(position, vertical, player),
    {
        let (before, after) = if vertical {
            (
                self.reach(position, Direction::NORTH, player),
                self.reach(position, Direction::SOUTH, player),
            )
        } else {
            (
                self.reach(position, Direction::WEST, player),
                self.reach(position, Direction::EAST, player),
            )
        };
        let length: usize = before + after - 1;
        let backwards = match self.orientation(player) {
            None => false,
            Some(side) => if vertical {
                !side.read_top_to_bottom()
            } else {
                !side.read_left_to_right()
            },
        };
        let ghost line = self@.line(position, vertical, player);
        let mut word: Vec<Coordinate> = Vec::new();
        let mut i: usize = 0;
        while i < length
            invariant
                i <= length,
                length == before + after - 1,
                1 <= before <= (if vertical { position.y } else { position.x }) + 1,
                1 <= after,
                (if vertical { position.y } else { position.x }) + after <= isize::MAX,
                line.len() == length,
                line == self@.line(position, vertical, player),
                forall|k: int|
                    0 <= k < length ==> #[trigger] line[k] == (if vertical {
                        Coordinate { x: position.x, y: (position.y - (before - 1) + k) as isize }
                    } else {
                        Coordinate { x: (position.x - (before - 1) + k) as isize, y: position.y }
                    }),
                word@.len() == i,
                forall|k: int|
                    0 <= k < i ==> #[trigger] word@[k] == (if backwards {
                        line[length - 1 - k]
                    } else {
                        line[k]
                    }),
            decreases length - i,
        {
            let offset: usize = if backwards {
                length - 1 - i
            } else {
                i
            };
            let coordinate = if vertical {
                Coordinate { x: position.x, y: position.y - (before - 1) as isize + offset as isize }
            } else {
                Coordinate { x: position.x - (before - 1) as isize + offset as isize, y: position.y }
            };
            word.push(coordinate);
            i += 1;
        }
        proof {
            if backwards {
                assert(word@ =~= line.reverse());
            } else {
                assert(word@ =~= line);
            }
        }
        word
    }

    /// Finds the words through `position`: the unbroken lines of tiles of
    /// one player through it, first along the vertical axis, then along the
    /// horizontal one. Each is listed in the order in which its owner reads
    /// it, and only where it has more than one letter. Where `position`
    /// holds no tile there are no words.
    pub fn get_words(&self, position: Coordinate) -> (words: Vec<Vec<Coordinate>>)
        ensures
            words_view(words) == self@.get_words(position),
    {
        let mut words: Vec<Vec<Coordinate>> = Vec::new();
        let player = match self.get(position) {
            Ok(Square::Occupied(player, _)) => player,
            _ => {
                assert(words_view(words) =~= self@.get_words(position));
                return words;
            },
        };
        let vertical = self.word(position, true, player);
        if vertical.len() > 1 {
            words.push(vertical);
        }
        assert(words_view(words) =~= counted(self@.word(position, true, player)));
        let horizontal = self.word(position, false, player);
        if horizontal.len() > 1 {
            words.push(horizontal);
        }
        assert(words_view(words) =~= self@.get_words(position));
        words
    }

    /// Spells `word`: the letter of the tile at each of its coordinates,
    /// `'_'` for an empty square, `' '` where there is no square.
    pub fn word_string(&self, word: &Vec<Coordinate>) -> (letters: String)
        ensures
            letters@ == self@.word_string(word@),
    {
        let mut letters = String::new();
        let mut i: usize = 0;
        while i < word.len()
            invariant
                i <= word.len(),
                letters@ == self@.word_string(word@).take(i as int),
            decreases word.len() - i,
        {
            let symbol = match self.get(word[i]) {
                Ok(square) => square.symbol(),
                Err(_) => ' ',
            };
            push_char(&mut letters, symbol);
            assert(self@.word_string(word@).take(i + 1) =~= self@.word_string(word@).take(
                i as int,
            ).push(symbol));
            i += 1;
        }
        assert(self@.word_string(word@).take(i as int) =~= self@.word_string(word@));
        letters
    }

    /// Spells each word of `words`, in their order.
    pub fn word_strings(&self, words: &Vec<Vec<Coordinate>>) -> (strings: Vec<String>)
        ensures
            strings_view(strings) == self@.word_strings(words_view(*words)),
    {
        let mut strings: Vec<String> = Vec::new();
        let mut i: usize = 0;
        while i < words.len()
            invariant
                i <= words.len(),
                strings@.len() == i,
                forall|k: int|
                    0 <= k < i ==> (#[trigger] strings@[k])@ == self@.word_string(words@[k]@),
            decreases words.len() - i,
        {
            let letters = self.word_string(&words[i]);
            strings.push(letters);
            i += 1;
        }
        assert(strings_view(strings) =~= self@.word_strings(words_view(*words)));
        strings
    }
}

} // verus!
