use vstd::prelude::*;
use crate::board::{cleared, optional, Board, BoardView, Coordinate, Direction, Square};
use crate::connectivity::lemma_push_keeps;
use crate::error::GamePlayError;
use crate::hand::Hands;
use crate::judge::{Judge, Outcome};
use crate::words::{strings_view, words_view};

verus! {

/// What a player asks of the board.
#[derive(Debug, PartialEq, Eq)]
pub enum Move {
    /// Put `tile` from the hand of `player` on the square at `position`.
    Place { player: usize, tile: char, position: Coordinate },
    /// Exchange the letters of the two tiles of `player` at `positions`.
    Swap { player: usize, positions: [Coordinate; 2] },
}

impl Move {
    /// The player who makes the move.
    pub open spec fn mover(self) -> usize {
        match self {
            Move::Place { player, .. } => player,
            Move::Swap { player, .. } => player,
        }
    }

    /// The player who makes the move.
    pub fn player(&self) -> (player: usize)
        ensures
            player == self.mover(),
    {
        match self {
            Move::Place { player, .. } => *player,
            Move::Swap { player, .. } => *player,
        }
    }
}

/// How many of `moves` were made by `player`.
pub open spec fn moves_of(moves: Seq<Move>, player: usize) -> nat
    decreases moves.len(),
{
    if moves.len() == 0 {
        0
    } else {
        moves_of(moves.drop_last(), player) + if moves.last().mover() == player {
            1nat
        } else {
            0nat
        }
    }
}

/// Counts the moves among `moves` that `player` made.
pub fn count_moves_of(moves: &Vec<Move>, player: usize) -> (count: usize)
    ensures
        count == moves_of(moves@, player),
{
    let mut count: usize = 0;
    let mut i: usize = 0;
    while i < moves.len()
        invariant
            i <= moves@.len(),
            count == moves_of(moves@.take(i as int), player),
            count <= i,
        decreases moves@.len() - i,
    {
        assert(moves@.take(i + 1).drop_last() =~= moves@.take(i as int));
        if moves[i].player() == player {
            count += 1;
        }
        i += 1;
    }
    assert(moves@.take(i as int) =~= moves@);
    count
}

/// The squares that the words of `words` cover.
pub open spec fn squares_of(words: Seq<Seq<Coordinate>>) -> Set<Coordinate> {
    Set::new(
        |square: Coordinate| exists|i: int| 0 <= i < words.len() && (#[trigger] words[i]).contains(square),
    )
}

/// The squares that those words of `words` cover whose place in `words` is
/// one of `indices`. An index beyond the end of `words` names no word.
pub open spec fn squares_of_chosen(words: Seq<Seq<Coordinate>>, indices: Seq<usize>) -> Set<
    Coordinate,
> {
    Set::new(
        |square: Coordinate|
            exists|k: int|
                0 <= k < indices.len() && (#[trigger] indices[k]) < words.len()
                    && words[indices[k] as int].contains(square),
    )
}

/// The squares that lose their tiles when a battle of `attackers` against
/// `defenders` ends in `outcome`.
pub open spec fn losses(
    outcome: Outcome,
    attackers: Seq<Seq<Coordinate>>,
    defenders: Seq<Seq<Coordinate>>,
) -> Set<Coordinate> {
    match outcome {
        Outcome::NoBattle => Set::empty(),
        Outcome::DefenderWins => squares_of(attackers),
        Outcome::AttackerWins(losers) => squares_of_chosen(defenders, losers@),
    }
}

impl BoardView {
    /// Whether the neighbour of `position` in `direction` holds a tile of
    /// `player`.
    pub open spec fn owns_neighbour(self, player: usize, position: Coordinate, direction: Direction) -> bool {
        direction.can_add(position) && self.owner(direction.add_spec(position)) == Some(player)
    }

    /// Whether a square next to `position` holds a tile of `player`.
    pub open spec fn touches(self, player: usize, position: Coordinate) -> bool {
        ||| self.owns_neighbour(player, position, Direction::SOUTH)
        ||| self.owns_neighbour(player, position, Direction::EAST)
        ||| self.owns_neighbour(player, position, Direction::NORTH)
        ||| self.owns_neighbour(player, position, Direction::WEST)
    }

    /// Why the board does not let `player` place a tile at `position`, if
    /// so: the square cannot be read (the error of `get`), it holds a tile
    /// (`AlreadyOccupied`), there is no such player (`InvalidPlayer`), or
    /// the square is neither the root of the player nor next to one of
    /// their tiles (`NotAdjacentToOwnTiles`).
    pub open spec fn placement_error(self, player: usize, position: Coordinate) -> Option<
        GamePlayError,
    > {
        match self.get(position) {
            Err(e) => Some(e),
            Ok(Square::Occupied(_, _)) => Some(GamePlayError::AlreadyOccupied),
            Ok(Square::Empty) => if player >= self.players() {
                Some(GamePlayError::InvalidPlayer)
            } else if position != self.roots[player as int] && !self.touches(player, position) {
                Some(GamePlayError::NotAdjacentToOwnTiles)
            } else {
                None
            },
        }
    }

    /// Why the board refuses `game_move`, if so: the error of the swap, or
    /// of the placement.
    pub open spec fn refusal(self, game_move: Move) -> Option<GamePlayError> {
        match game_move {
            Move::Place { player, tile, position } => self.placement_error(player, position),
            Move::Swap { player, positions } => self.swap_error(player, positions[0], positions[1]),
        }
    }

    /// The words of other players than `player` through the neighbour of
    /// `position` in `direction`.
    pub open spec fn defenders_towards(
        self,
        player: usize,
        position: Coordinate,
        direction: Direction,
    ) -> Seq<Seq<Coordinate>> {
        match self.neighbour(position, direction) {
            Some((square, Square::Occupied(owner, _))) => if owner != player {
                self.get_words(square)
            } else {
                Seq::empty()
            },
            _ => Seq::empty(),
        }
    }

    /// The words that a tile of `player` at `position` attacks: for each
    /// neighbour that holds a tile of another player the words through that
    /// neighbour; south, east, north, west, in this order. A word through
    /// two such neighbours is listed for each.
    pub open spec fn defenders(self, player: usize, position: Coordinate) -> Seq<Seq<Coordinate>> {
        self.defenders_towards(player, position, Direction::SOUTH) + self.defenders_towards(
            player,
            position,
            Direction::EAST,
        ) + self.defenders_towards(player, position, Direction::NORTH) + self.defenders_towards(
            player,
            position,
            Direction::WEST,
        )
    }

    /// The board on which each square of `gone` that held a tile is empty.
    pub open spec fn without(self, gone: Set<Coordinate>) -> BoardView {
        BoardView {
            squares: Seq::new(
                self.squares.len(),
                |y: int|
                    Seq::new(
                        self.squares[y].len(),
                        |x: int|
                            if gone.contains(Coordinate { x: x as isize, y: y as isize }) {
                                cleared(self.squares[y][x])
                            } else {
                                self.squares[y][x]
                            },
                    ),
            ),
            ..self
        }
    }

    /// The board after a battle of `attackers` against `defenders` has
    /// ended in `outcome`: the losing words are cleared, then every tile
    /// that is cut off from the roots.
    pub open spec fn resolved(
        self,
        outcome: Outcome,
        attackers: Seq<Seq<Coordinate>>,
        defenders: Seq<Seq<Coordinate>>,
    ) -> BoardView {
        self.without(losses(outcome, attackers, defenders)).truncated()
    }

    /// The board after `player` has placed `tile` at `position` and the
    /// battle that this started has ended in `outcome`.
    pub open spec fn placed(self, player: usize, tile: char, position: Coordinate, outcome: Outcome) -> BoardView {
        let board = self.set(position, player, tile);
        board.resolved(outcome, board.get_words(position), board.defenders(player, position))
    }

    /// What clearing leaves at a position: an empty square in place of a
    /// tile that is to go, and what was there anywhere else.
    pub proof fn lemma_without_get(self, gone: Set<Coordinate>, position: Coordinate)
        requires
            self.wf(),
        ensures
            self.without(gone).wf(),
            self.without(gone).get(position) == (if gone.contains(position) {
                match self.get(position) {
                    Ok(_) => Ok(Square::Empty),
                    Err(e) => Err(e),
                }
            } else {
                self.get(position)
            }),
    {
        let after = self.without(gone);
        assert forall|y: int| 0 <= y < after.squares.len() implies (#[trigger] after.squares[y]).len()
            == after.squares[0].len() by {
            assert(self.squares[y].len() == self.squares[0].len());
        }
        if self.in_bounds(position.x as int, position.y as int) {
            assert(self.squares[position.y as int].len() == self.squares[0].len());
        }
    }

    /// After a battle no square of a losing word holds a tile.
    pub proof fn lemma_losers_are_cleared(
        self,
        outcome: Outcome,
        attackers: Seq<Seq<Coordinate>>,
        defenders: Seq<Seq<Coordinate>>,
        position: Coordinate,
    )
        requires
            self.wf(),
            losses(outcome, attackers, defenders).contains(position),
        ensures
            self.resolved(outcome, attackers, defenders).owner(position) is None,
    {
        let gone = losses(outcome, attackers, defenders);
        self.lemma_without_get(gone, position);
        self.without(gone).lemma_truncated_get(position);
    }

    /// A tile that stands after a battle stood there before it, is part of
    /// no losing word, and is joined to a root.
    pub proof fn lemma_survivors_are_unchanged(
        self,
        outcome: Outcome,
        attackers: Seq<Seq<Coordinate>>,
        defenders: Seq<Seq<Coordinate>>,
        position: Coordinate,
    )
        requires
            self.wf(),
            self.resolved(outcome, attackers, defenders).owner(position) is Some,
        ensures
            self.resolved(outcome, attackers, defenders).get(position) == self.get(position),
            !losses(outcome, attackers, defenders).contains(position),
            self.resolved(outcome, attackers, defenders).attached(position),
    {
        let gone = losses(outcome, attackers, defenders);
        self.lemma_without_get(gone, position);
        self.without(gone).lemma_truncated_get(position);
        self.without(gone).lemma_truncated_is_attached(position);
    }

    /// Losses among the tiles of one player cost no other player a tile
    /// that is joined to a root. So a failed attack, which clears words of
    /// the attacker only, leaves such defenders as they were.
    pub proof fn lemma_losses_spare_other_players(
        self,
        player: usize,
        outcome: Outcome,
        attackers: Seq<Seq<Coordinate>>,
        defenders: Seq<Seq<Coordinate>>,
        position: Coordinate,
    )
        requires
            self.wf(),
            forall|square: Coordinate|
                #[trigger] losses(outcome, attackers, defenders).contains(square) ==> self.owner(
                    square,
                ) == Some(player),
            self.owner(position) is Some,
            self.owner(position) != Some(player),
            self.attached(position),
        ensures
            self.resolved(outcome, attackers, defenders).get(position) == self.get(position),
    {
        let gone = losses(outcome, attackers, defenders);
        let between = self.without(gone);
        let root_owner = choose|p: int|
            0 <= p < self.roots.len() && self.connected(#[trigger] self.roots[p], position);
        let root = self.roots[root_owner];
        let path = choose|path: Seq<Coordinate>| self.links(path, root, position);
        self.lemma_connected_same_owner(root, position);
        assert forall|i: int| 0 <= i < path.len() implies between.owner(#[trigger] path[i])
            == self.owner(path[i]) by {
            assert(self.owner(path[i]) == self.owner(root));
            assert(!gone.contains(path[i]));
            self.lemma_without_get(gone, path[i]);
        }
        self.lemma_links_carry_over(between, path, root, position);
        assert(between.connected(between.roots[root_owner], position));
        assert(between.attached(position));
        self.lemma_without_get(gone, position);
        between.lemma_truncated_get(position);
    }

    /// Clearing one more square.
    pub proof fn lemma_without_clear(self, gone: Set<Coordinate>, square: Coordinate)
        requires
            self.wf(),
        ensures
            self.without(gone).clear(square) == self.without(gone.insert(square)),
    {
        let one = self.without(gone).clear(square);
        let other = self.without(gone.insert(square));
        assert forall|y: int| 0 <= y < self.squares.len() implies #[trigger] one.squares[y]
            =~= other.squares[y] by {
            assert(self.squares[y].len() == self.squares[0].len());
        }
        assert(one.squares =~= other.squares);
    }

    /// Clearing two sets of squares one after the other.
    pub proof fn lemma_without_twice(self, first: Set<Coordinate>, second: Set<Coordinate>)
        ensures
            self.without(first).without(second) == self.without(first.union(second)),
    {
        let one = self.without(first).without(second);
        let other = self.without(first.union(second));
        assert forall|y: int| 0 <= y < self.squares.len() implies #[trigger] one.squares[y]
            =~= other.squares[y] by {}
        assert(one.squares =~= other.squares);
    }

    /// Clearing no square.
    pub proof fn lemma_without_nothing(self)
        ensures
            self.without(Set::empty()) == self,
    {
        let one = self.without(Set::empty());
        assert forall|y: int| 0 <= y < self.squares.len() implies #[trigger] one.squares[y]
            =~= self.squares[y] by {}
        assert(one.squares =~= self.squares);
    }
}

impl Board {
    /// Whether a square next to `position` holds a tile of `player`.
    pub fn touches(&self, player: usize, position: Coordinate) -> (r: bool)
        ensures
            r == self@.touches(player, position),
    {
        self.owns_neighbour(player, position, Direction::SOUTH) || self.owns_neighbour(
            player,
            position,
            Direction::EAST,
        ) || self.owns_neighbour(player, position, Direction::NORTH) || self.owns_neighbour(
            player,
            position,
            Direction::WEST,
        )
    }

    /// Whether the neighbour of `position` in `direction` holds a tile of
    /// `player`.
    fn owns_neighbour(&self, player: usize, position: Coordinate, direction: Direction) -> (r: bool)
        ensures
            r == self@.owns_neighbour(player, position, direction),
    {
        match self.neighbour(position, direction) {
            Some((_, Square::Occupied(owner, _))) => owner == player,
            _ => false,
        }
    }

    /// Says why the board does not let `player` place a tile at
    /// `position`, if so.
    pub fn check_placement(&self, player: usize, position: Coordinate) -> (r: Result<(), GamePlayError>)
        ensures
            r == (match self@.placement_error(player, position) {
                Some(e) => Err(e),
                None => Ok(()),
            }),
    {
        match self.get(position) {
            Err(e) => {
                return Err(e);
            },
            Ok(Square::Occupied(_, _)) => {
                return Err(GamePlayError::AlreadyOccupied);
            },
            Ok(Square::Empty) => {},
        }
        let root = match self.get_root(player) {
            Err(_) => {
                return Err(GamePlayError::InvalidPlayer);
            },
            Ok(root) => root,
        };
        if position != root && !self.touches(player, position) {
            return Err(GamePlayError::NotAdjacentToOwnTiles);
        }
        Ok(())
    }

    /// Lists the words of other players than `player` through the
    /// neighbour of `position` in `direction`.
    fn defenders_towards(&self, player: usize, position: Coordinate, direction: Direction) -> (words: Vec<
        Vec<Coordinate>,
    >)
        ensures
            words_view(words) == self@.defenders_towards(player, position, direction),
    {
        match self.neighbour(position, direction) {
            Some((square, Square::Occupied(owner, _))) => {
                if owner != player {
                    return self.get_words(square);
                }
            },
            _ => {},
        }
        let words: Vec<Vec<Coordinate>> = Vec::new();
        assert(words_view(words) =~= Seq::<Seq<Coordinate>>::empty());
        words
    }

    /// Finds the words that meet in a battle when `player` has placed a
    /// tile at `position`. The attackers are the words through `position`.
    /// The defenders are the words through each neighbour that holds a tile
    /// of another player, neighbour by neighbour: south, east, north, west.
    pub fn collect_combanants(&self, player: usize, position: Coordinate) -> (r: (
        Vec<Vec<Coordinate>>,
        Vec<Vec<Coordinate>>,
    ))
        ensures
            words_view(r.0) == self@.get_words(position),
            words_view(r.1) == self@.defenders(player, position),
    {
        let attackers = self.get_words(position);
        let mut defenders = self.defenders_towards(player, position, Direction::SOUTH);
        let mut east = self.defenders_towards(player, position, Direction::EAST);
        let mut north = self.defenders_towards(player, position, Direction::NORTH);
        let mut west = self.defenders_towards(player, position, Direction::WEST);
        let ghost south_words = words_view(defenders);
        let ghost east_words = words_view(east);
        let ghost north_words = words_view(north);
        let ghost west_words = words_view(west);
        defenders.append(&mut east);
        assert(words_view(defenders) =~= south_words + east_words);
        defenders.append(&mut north);
        assert(words_view(defenders) =~= south_words + east_words + north_words);
        defenders.append(&mut west);
        assert(words_view(defenders) =~= south_words + east_words + north_words + west_words);
        (attackers, defenders)
    }

    /// Clears every square of `word`.
    fn clear_word(&mut self, word: &Vec<Coordinate>)
        ensures
            final(self)@ == old(self)@.without(word@.to_set()),
    {
        let ghost before = self@;
        let _ = self.height();
        proof {
            before.lemma_without_nothing();
            assert(word@.take(0).to_set() =~= Set::<Coordinate>::empty());
        }
        let mut i: usize = 0;
        while i < word.len()
            invariant
                before.wf(),
                i <= word@.len(),
                self@ == before.without(word@.take(i as int).to_set()),
            decreases word@.len() - i,
        {
            let ghost gone = word@.take(i as int).to_set();
            self.clear(word[i]);
            proof {
                before.lemma_without_clear(gone, word@[i as int]);
                assert(word@.take(i + 1).to_set() =~= gone.insert(word@[i as int])) by {
                    assert(word@.take(i + 1) =~= word@.take(i as int).push(word@[i as int]));
                    assert forall|c: Coordinate|
                        word@.take(i + 1).to_set().contains(c) == gone.insert(word@[i as int]).contains(
                            c,
                        ) by {
                        lemma_push_keeps(word@.take(i as int), word@[i as int], c);
                    }
                }
            }
            i += 1;
        }
        assert(word@.take(i as int) =~= word@);
    }

    /// Clears every square of each word of `words`.
    fn clear_words(&mut self, words: &Vec<Vec<Coordinate>>)
        ensures
            final(self)@ == old(self)@.without(squares_of(words_view(*words))),
    {
        let ghost before = self@;
        let ghost all = words_view(*words);
        proof {
            before.lemma_without_nothing();
            assert(squares_of(all.take(0)) =~= Set::<Coordinate>::empty());
        }
        let mut i: usize = 0;
        while i < words.len()
            invariant
                i <= words@.len(),
                all == words_view(*words),
                self@ == before.without(squares_of(all.take(i as int))),
            decreases words@.len() - i,
        {
            let ghost gone = squares_of(all.take(i as int));
            self.clear_word(&words[i]);
            proof {
                let word = all[i as int];
                assert(word == words@[i as int]@);
                before.lemma_without_twice(gone, word.to_set());
                assert(squares_of(all.take(i + 1)) =~= gone.union(word.to_set())) by {
                    assert forall|c: Coordinate|
                        squares_of(all.take(i + 1)).contains(c) == gone.union(word.to_set()).contains(
                            c,
                        ) by {
                        if squares_of(all.take(i + 1)).contains(c) {
                            let k = choose|k: int|
                                0 <= k < all.take(i + 1).len() && (#[trigger] all.take(i + 1)[k]).contains(
                                    c,
                                );
                            if k < i {
                                assert(all.take(i as int)[k].contains(c));
                            }
                        }
                        if gone.contains(c) {
                            let k = choose|k: int|
                                0 <= k < all.take(i as int).len() && (#[trigger] all.take(
                                    i as int,
                                )[k]).contains(c);
                            assert(all.take(i + 1)[k].contains(c));
                        }
                        if word.to_set().contains(c) {
                            assert(all.take(i + 1)[i as int].contains(c));
                        }
                    }
                }
            }
            i += 1;
        }
        assert(all.take(i as int) =~= all);
    }

    /// Clears every square of each word of `words` whose place in `words`
    /// is one of `indices`.
    fn clear_chosen_words(&mut self, words: &Vec<Vec<Coordinate>>, indices: &Vec<usize>)
        ensures
            final(self)@ == old(self)@.without(squares_of_chosen(words_view(*words), indices@)),
    {
        let ghost before = self@;
        let ghost all = words_view(*words);
        proof {
            before.lemma_without_nothing();
            assert(squares_of_chosen(all, indices@.take(0)) =~= Set::<Coordinate>::empty());
        }
        let mut k: usize = 0;
        while k < indices.len()
            invariant
                k <= indices@.len(),
                all == words_view(*words),
                self@ == before.without(squares_of_chosen(all, indices@.take(k as int))),
            decreases indices@.len() - k,
        {
            let ghost gone = squares_of_chosen(all, indices@.take(k as int));
            let ghost shorter = indices@.take(k as int);
            let ghost longer = indices@.take(k + 1);
            let index = indices[k];
            if index < words.len() {
                self.clear_word(&words[index]);
                proof {
                    let word = all[index as int];
                    assert(word == words@[index as int]@);
                    before.lemma_without_twice(gone, word.to_set());
                    assert(squares_of_chosen(all, longer) =~= gone.union(word.to_set())) by {
                        assert forall|c: Coordinate|
                            squares_of_chosen(all, longer).contains(c) == gone.union(
                                word.to_set(),
                            ).contains(c) by {
                            if squares_of_chosen(all, longer).contains(c) {
                                let j = choose|j: int|
                                    0 <= j < longer.len() && (#[trigger] longer[j]) < all.len()
                                        && all[longer[j] as int].contains(c);
                                if j < k {
                                    assert(shorter[j] == longer[j]);
                                }
                            }
                            if gone.contains(c) {
                                let j = choose|j: int|
                                    0 <= j < shorter.len() && (#[trigger] shorter[j]) < all.len()
                                        && all[shorter[j] as int].contains(c);
                                assert(longer[j] == shorter[j]);
                            }
                            if word.to_set().contains(c) {
                                assert(longer[k as int] == index);
                            }
                        }
                    }
                }
            } else {
                proof {
                    assert(squares_of_chosen(all, longer) =~= gone) by {
                        assert forall|c: Coordinate|
                            squares_of_chosen(all, longer).contains(c) == gone.contains(c) by {
                            if squares_of_chosen(all, longer).contains(c) {
                                let j = choose|j: int|
                                    0 <= j < longer.len() && (#[trigger] longer[j]) < all.len()
                                        && all[longer[j] as int].contains(c);
                                if j < k {
                                    assert(shorter[j] == longer[j]);
                                }
                            }
                            if gone.contains(c) {
                                let j = choose|j: int|
                                    0 <= j < shorter.len() && (#[trigger] shorter[j]) < all.len()
                                        && all[shorter[j] as int].contains(c);
                                assert(longer[j] == shorter[j]);
                            }
                        }
                    }
                }
            }
            k += 1;
        }
        assert(indices@.take(k as int) =~= indices@);
    }

    /// Carries out the verdict of a battle of `attackers` against
    /// `defenders`. `NoBattle` clears nothing. `DefenderWins` clears every
    /// square of every attacking word. `AttackerWins` clears every square
    /// of the defending words it names by their place among `defenders`; a
    /// place beyond the end of `defenders` names no word. After that every
    /// tile that is cut off from the roots is removed.
    pub fn apply_outcome(
        &mut self,
        attackers: &Vec<Vec<Coordinate>>,
        defenders: &Vec<Vec<Coordinate>>,
        outcome: &Outcome,
    )
        ensures
            final(self)@ == old(self)@.resolved(
                *outcome,
                words_view(*attackers),
                words_view(*defenders),
            ),
    {
        match outcome {
            Outcome::NoBattle => {
                proof {
                    self@.lemma_without_nothing();
                }
            },
            Outcome::DefenderWins => {
                self.clear_words(attackers);
            },
            Outcome::AttackerWins(losers) => {
                self.clear_chosen_words(defenders, losers);
            },
        }
        self.truncate();
    }

    /// Lets the word or words through the tile that `player` has placed at
    /// `position` fight the words of other players that the tile touches:
    /// asks `judge` for the verdict on the words as spelled, carries it
    /// out, and returns it.
    pub fn resolve_attack<J: Judge>(&mut self, player: usize, position: Coordinate, judge: &J) -> (outcome: Outcome)
        ensures
            final(self)@ == old(self)@.resolved(
                outcome,
                old(self)@.get_words(position),
                old(self)@.defenders(player, position),
            ),
    {
        let (attackers, defenders) = self.collect_combanants(player, position);
        let attacking_words = self.word_strings(&attackers);
        let defending_words = self.word_strings(&defenders);
        let outcome = judge.battle(attacking_words, defending_words);
        self.apply_outcome(&attackers, &defenders, &outcome);
        outcome
    }

    /// Carries out a move.
    ///
    /// Where the board refuses the move (see `refusal`), the error says
    /// why, and the board and the hands are as they were; the same move is
    /// then refused again for the same reason.
    ///
    /// A swap that the board allows exchanges the two letters.
    ///
    /// For a placement that the board allows, the tile is asked of `hands`.
    /// Where they refuse, their error is returned and the board is as it
    /// was. Else the tile is put on the square, and the battle that this
    /// starts is decided by `judge` and carried out.
    pub fn make_move<H: Hands, J: Judge>(&mut self, game_move: Move, hands: &mut H, judge: &J) -> (r: Result<
        (),
        GamePlayError,
    >)
        ensures
            old(self)@.refusal(game_move) matches Some(e) ==> r == Err::<(), GamePlayError>(e)
                && *final(hands) == *old(hands),
            r is Err ==> final(self)@ == old(self)@,
            game_move matches Move::Swap { player, positions } ==> {
                &&& r is Ok <==> old(self)@.refusal(game_move) is None
                &&& final(self)@ == old(self)@.swap(player, positions[0], positions[1])
                &&& *final(hands) == *old(hands)
            },
            game_move matches Move::Place { player, tile, position } ==> (r is Ok ==> {
                &&& old(self)@.refusal(game_move) is None
                &&& exists|outcome: Outcome|
                    final(self)@ == #[trigger] old(self)@.placed(player, tile, position, outcome)
            }),
    {
        match game_move {
            Move::Place { player, tile, position } => {
                match self.check_placement(player, position) {
                    Err(e) => {
                        return Err(e);
                    },
                    Ok(()) => {},
                }
                match hands.use_tile(player, tile) {
                    Err(e) => {
                        return Err(e);
                    },
                    Ok(()) => {},
                }
                let _ = self.set(position, player, tile);
                let outcome = self.resolve_attack(player, position, judge);
                assert(self@ == old(self)@.placed(player, tile, position, outcome));
                Ok(())
            },
            Move::Swap { player, positions } => self.swap(player, positions),
        }
    }
}

} // verus!
