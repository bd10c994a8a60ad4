use vstd::prelude::*;
use crate::board::{
    adjacent, cleared, lemma_adjacent_is_a_step, Board, BoardView, Coordinate, Direction, Square,
};

verus! {

impl BoardView {
    /// Whether `path` runs over tiles of `player` only, each next to the
    /// one before it.
    pub open spec fn is_chain(self, path: Seq<Coordinate>, player: usize) -> bool {
        &&& forall|i: int| 0 <= i < path.len() ==> self.owner(#[trigger] path[i]) == Some(player)
        &&& forall|i: int| 0 <= i < path.len() - 1 ==> adjacent(#[trigger] path[i], path[i + 1])
    }

    /// Whether `path` leads from the tile at `from` to `to` over tiles of
    /// the owner of `from`.
    pub open spec fn links(self, path: Seq<Coordinate>, from: Coordinate, to: Coordinate) -> bool {
        &&& path.len() > 0
        &&& path.first() == from
        &&& path.last() == to
        &&& self.owner(from) is Some
        &&& self.is_chain(path, self.owner(from).unwrap())
    }

    /// Whether a chain of tiles of one player leads from `from` to `to`.
    pub open spec fn connected(self, from: Coordinate, to: Coordinate) -> bool {
        exists|path: Seq<Coordinate>| self.links(path, from, to)
    }

    /// The tiles that a chain of tiles of one player joins to `from`: the
    /// tile at `from` among them, and none where `from` holds no tile.
    pub open spec fn component(self, from: Coordinate) -> Set<Coordinate> {
        Set::new(|to: Coordinate| self.connected(from, to))
    }

    /// Whether a chain of tiles of one player joins `position` to the root
    /// square of one of the first `players` players.
    pub open spec fn attached_to(self, players: int, position: Coordinate) -> bool {
        exists|player: int|
            0 <= player < players && self.connected(#[trigger] self.roots[player], position)
    }

    /// Whether a chain of tiles of one player joins `position` to the root
    /// square of some player.
    pub open spec fn attached(self, position: Coordinate) -> bool {
        self.attached_to(self.roots.len() as int, position)
    }

    /// The board without the tiles that are joined to no root: each of them
    /// gives way to an empty square.
    pub open spec fn truncated(self) -> BoardView {
        BoardView {
            squares: Seq::new(
                self.squares.len(),
                |y: int|
                    Seq::new(
                        self.squares[y].len(),
                        |x: int|
                            if self.attached(Coordinate { x: x as isize, y: y as isize }) {
                                self.squares[y][x]
                            } else {
                                cleared(self.squares[y][x])
                            },
                    ),
            ),
            ..self
        }
    }

    /// A tile is joined to one of the first `players + 1` roots where it is
    /// joined to one of the first `players` or to the next one.
    pub proof fn lemma_attached_to_next(self, players: int, position: Coordinate)
        requires
            0 <= players < self.roots.len(),
        ensures
            self.attached_to(players + 1, position) <==> (self.attached_to(players, position)
                || self.connected(self.roots[players], position)),
    {
        if self.attached_to(players + 1, position) {
            let p = choose|p: int|
                0 <= p < players + 1 && self.connected(#[trigger] self.roots[p], position);
            if p < players {
                assert(self.attached_to(players, position));
            }
        }
        if self.attached_to(players, position) {
            let p = choose|p: int|
                0 <= p < players && self.connected(#[trigger] self.roots[p], position);
            assert(0 <= p < players + 1 && self.connected(self.roots[p], position));
        }
        if self.connected(self.roots[players], position) {
            assert(0 <= players < players + 1 && self.connected(self.roots[players], position));
        }
    }

    /// Every tile along a chain is joined to the tile the chain starts at.
    pub proof fn lemma_connected_along(self, path: Seq<Coordinate>, from: Coordinate, to: Coordinate, k: int)
        requires
            self.links(path, from, to),
            0 <= k < path.len(),
        ensures
            self.connected(from, path[k]),
    {
        let shorter = path.take(k + 1);
        assert forall|i: int| 0 <= i < shorter.len() - 1 implies adjacent(
            #[trigger] shorter[i],
            shorter[i + 1],
        ) by {
            assert(adjacent(path[i], path[i + 1]));
        }
        assert(self.links(shorter, from, path[k]));
    }

    /// Where one tile is joined to another, the other is joined to it.
    pub proof fn lemma_connected_symmetric(self, from: Coordinate, to: Coordinate)
        requires
            self.connected(from, to),
        ensures
            self.connected(to, from),
    {
        let path = choose|path: Seq<Coordinate>| self.links(path, from, to);
        let back = path.reverse();
        let player = self.owner(from).unwrap();
        assert(self.owner(path[path.len() - 1]) == Some(player));
        assert forall|i: int| 0 <= i < back.len() implies self.owner(#[trigger] back[i]) == Some(
            player,
        ) by {
            assert(back[i] == path[path.len() - 1 - i]);
        }
        assert forall|i: int| 0 <= i < back.len() - 1 implies adjacent(
            #[trigger] back[i],
            back[i + 1],
        ) by {
            assert(back[i] == path[path.len() - 1 - i]);
            assert(back[i + 1] == path[path.len() - 2 - i]);
            assert(adjacent(path[path.len() - 2 - i], path[path.len() - 2 - i + 1]));
        }
        assert(self.links(back, to, from));
    }

    /// Chains that meet make one chain.
    pub proof fn lemma_connected_transitive(self, from: Coordinate, via: Coordinate, to: Coordinate)
        requires
            self.connected(from, via),
            self.connected(via, to),
        ensures
            self.connected(from, to),
    {
        let first = choose|path: Seq<Coordinate>| self.links(path, from, via);
        let second = choose|path: Seq<Coordinate>| self.links(path, via, to);
        let player = self.owner(from).unwrap();
        assert(self.owner(first[first.len() - 1]) == Some(player));
        let whole = first + second.drop_first();
        assert forall|i: int| 0 <= i < whole.len() implies self.owner(#[trigger] whole[i]) == Some(
            player,
        ) by {
            if i < first.len() {
                assert(whole[i] == first[i]);
            } else {
                assert(whole[i] == second[i - first.len() + 1]);
            }
        }
        assert forall|i: int| 0 <= i < whole.len() - 1 implies adjacent(
            #[trigger] whole[i],
            whole[i + 1],
        ) by {
            if i < first.len() - 1 {
                assert(whole[i] == first[i]);
                assert(whole[i + 1] == first[i + 1]);
            } else if i == first.len() - 1 {
                assert(whole[i] == second[0]);
                assert(whole[i + 1] == second[1]);
                assert(adjacent(second[0], second[0int + 1]));
            } else {
                let k = i - first.len() + 1;
                assert(whole[i] == second[k]);
                assert(whole[i + 1] == second[k + 1]);
                assert(adjacent(second[k], second[k + 1]));
            }
        }
        if second.len() == 1 {
            assert(whole =~= first);
        }
        assert(self.links(whole, from, to));
    }

    /// A chain on this board is a chain on any board that holds the same
    /// tiles along it.
    pub proof fn lemma_links_carry_over(
        self,
        other: BoardView,
        path: Seq<Coordinate>,
        from: Coordinate,
        to: Coordinate,
    )
        requires
            self.links(path, from, to),
            forall|i: int| 0 <= i < path.len() ==> other.owner(#[trigger] path[i]) == self.owner(path[i]),
        ensures
            other.links(path, from, to),
            other.connected(from, to),
    {
        assert(other.owner(path[0]) == self.owner(path[0]));
        assert forall|i: int| 0 <= i < path.len() implies other.owner(#[trigger] path[i])
            == other.owner(from) by {
            assert(self.owner(path[i]) == self.owner(from));
        }
        assert(other.links(path, from, to));
    }

    /// What pruning leaves at a position: what was there where the
    /// position is joined to a root, an empty square in place of any other
    /// tile.
    pub proof fn lemma_truncated_get(self, position: Coordinate)
        requires
            self.wf(),
        ensures
            self.truncated().wf(),
            self.truncated().get(position) == (if self.attached(position) {
                self.get(position)
            } else {
                match self.get(position) {
                    Ok(_) => Ok(Square::Empty),
                    Err(e) => Err(e),
                }
            }),
    {
        let after = self.truncated();
        assert forall|y: int| 0 <= y < after.squares.len() implies (#[trigger] after.squares[y]).len()
            == after.squares[0].len() by {
            assert(self.squares[y].len() == self.squares[0].len());
        }
        if self.in_bounds(position.x as int, position.y as int) {
            assert(self.squares[position.y as int].len() == self.squares[0].len());
        }
    }

    /// After pruning every tile is joined to a root, and pruning again
    /// changes nothing.
    pub proof fn lemma_truncated_is_attached(self, position: Coordinate)
        requires
            self.wf(),
            self.truncated().owner(position) is Some,
        ensures
            self.attached(position),
            self.truncated().attached(position),
            self.truncated().get(position) == self.get(position),
    {
        let after = self.truncated();
        self.lemma_truncated_get(position);
        assert(self.attached(position));
        let player = choose|player: int|
            0 <= player < self.roots.len() && self.connected(#[trigger] self.roots[player], position);
        let root = self.roots[player];
        let path = choose|path: Seq<Coordinate>| self.links(path, root, position);
        assert forall|i: int| 0 <= i < path.len() implies after.owner(#[trigger] path[i])
            == self.owner(path[i]) by {
            self.lemma_connected_along(path, root, position, i);
            assert(self.attached(path[i]));
            self.lemma_truncated_get(path[i]);
        }
        self.lemma_links_carry_over(after, path, root, position);
        assert(after.connected(after.roots[player], position));
    }

    /// A tile is connected to itself.
    pub proof fn lemma_connected_to_itself(self, from: Coordinate)
        requires
            self.owner(from) is Some,
        ensures
            self.connected(from, from),
    {
        assert(self.links(seq![from], from, from));
    }

    /// A chain can be taken one tile further.
    pub proof fn lemma_connected_step(self, from: Coordinate, via: Coordinate, to: Coordinate)
        requires
            self.connected(from, via),
            adjacent(via, to),
            self.owner(to) == self.owner(from),
        ensures
            self.connected(from, to),
    {
        let path = choose|path: Seq<Coordinate>| self.links(path, from, via);
        let longer = path.push(to);
        let player = self.owner(from).unwrap();
        assert forall|i: int| 0 <= i < longer.len() implies self.owner(#[trigger] longer[i])
            == Some(player) by {
            if i < path.len() {
                assert(longer[i] == path[i]);
            }
        }
        assert forall|i: int| 0 <= i < longer.len() - 1 implies adjacent(
            #[trigger] longer[i],
            longer[i + 1],
        ) by {
            if i < path.len() - 1 {
                assert(longer[i] == path[i]);
                assert(longer[i + 1] == path[i + 1]);
            }
        }
        assert(self.links(longer, from, to));
    }

    /// Whatever is connected to a tile belongs to the owner of that tile.
    pub proof fn lemma_connected_same_owner(self, from: Coordinate, to: Coordinate)
        requires
            self.connected(from, to),
        ensures
            self.owner(from) is Some,
            self.owner(to) == self.owner(from),
    {
        let path = choose|path: Seq<Coordinate>| self.links(path, from, to);
        assert(self.owner(path[path.len() - 1]) == self.owner(from));
    }
}

/// The rows of `flags` as sequences.
spec fn flags_of(flags: Vec<Vec<bool>>) -> Seq<Seq<bool>> {
    Seq::new(flags@.len(), |y: int| flags@[y]@)
}

/// The flag of the cell at `position`.
spec fn flagged(flags: Seq<Seq<bool>>, position: Coordinate) -> bool {
    flags[position.y as int][position.x as int]
}

/// Whether `flags` holds one flag for each cell of a grid of the given size.
spec fn covers(flags: Seq<Seq<bool>>, width: int, height: int) -> bool {
    &&& flags.len() == height
    &&& forall|y: int| 0 <= y < height ==> (#[trigger] flags[y]).len() == width
}

/// How many flags of `row` are not set.
spec fn unset_in_row(row: Seq<bool>) -> nat
    decreases row.len(),
{
    if row.len() == 0 {
        0
    } else {
        unset_in_row(row.drop_last()) + if row.last() {
            0nat
        } else {
            1nat
        }
    }
}

/// How many flags of `flags` are not set.
spec fn unset(flags: Seq<Seq<bool>>) -> nat
    decreases flags.len(),
{
    if flags.len() == 0 {
        0
    } else {
        unset(flags.drop_last()) + unset_in_row(flags.last())
    }
}

proof fn lemma_set_in_row(row: Seq<bool>, x: int)
    requires
        0 <= x < row.len(),
        !row[x],
    ensures
        unset_in_row(row.update(x, true)) + 1 == unset_in_row(row),
    decreases row.len(),
{
    if x == row.len() - 1 {
        assert(row.update(x, true).drop_last() =~= row.drop_last());
    } else {
        lemma_set_in_row(row.drop_last(), x);
        assert(row.update(x, true).drop_last() =~= row.drop_last().update(x, true));
    }
}

proof fn lemma_set(flags: Seq<Seq<bool>>, y: int, x: int)
    requires
        0 <= y < flags.len(),
        0 <= x < flags[y].len(),
        !flags[y][x],
    ensures
        unset(flags.update(y, flags[y].update(x, true))) + 1 == unset(flags),
    decreases flags.len(),
{
    let after = flags.update(y, flags[y].update(x, true));
    if y == flags.len() - 1 {
        assert(after.drop_last() =~= flags.drop_last());
        lemma_set_in_row(flags[y], x);
    } else {
        lemma_set(flags.drop_last(), y, x);
        assert(after.drop_last() =~= flags.drop_last().update(y, flags[y].update(x, true)));
    }
}

/// Makes a grid of flags of the given size, none of them set.
fn no_flags(width: usize, height: usize) -> (flags: Vec<Vec<bool>>)
    ensures
        covers(flags_of(flags), width as int, height as int),
        forall|y: int, x: int|
            0 <= y < height && 0 <= x < width ==> !(#[trigger] flags_of(flags)[y][x]),
{
    let mut flags: Vec<Vec<bool>> = Vec::new();
    let mut y: usize = 0;
    while y < height
        invariant
            y <= height,
            flags@.len() == y,
            forall|j: int| 0 <= j < y ==> (#[trigger] flags@[j])@.len() == width,
            forall|j: int, i: int| 0 <= j < y && 0 <= i < width ==> !(#[trigger] flags@[j]@[i]),
        decreases height - y,
    {
        let mut row: Vec<bool> = Vec::new();
        let mut x: usize = 0;
        while x < width
            invariant
                x <= width,
                row@.len() == x,
                forall|i: int| 0 <= i < x ==> !(#[trigger] row@[i]),
            decreases width - x,
        {
            row.push(false);
            x += 1;
        }
        flags.push(row);
        y += 1;
    }
    flags
}

/// Sets the flag of the cell at `(x, y)`.
fn set_flag(flags: &mut Vec<Vec<bool>>, y: usize, x: usize)
    requires
        y < flags_of(*old(flags)).len(),
        x < flags_of(*old(flags))[y as int].len(),
    ensures
        flags_of(*final(flags)) == flags_of(*old(flags)).update(
            y as int,
            flags_of(*old(flags))[y as int].update(x as int, true),
        ),
{
    flags[y][x] = true;
    assert(flags_of(*flags) =~= flags_of(*old(flags)).update(
        y as int,
        flags_of(*old(flags))[y as int].update(x as int, true),
    ));
}

/// What a sequence holds once `pushed` stands at its end: what it held
/// before, and `pushed`.
pub proof fn lemma_push_keeps(items: Seq<Coordinate>, pushed: Coordinate, item: Coordinate)
    ensures
        items.contains(item) ==> items.push(pushed).contains(item),
        items.push(pushed).contains(pushed),
        items.push(pushed).contains(item) ==> items.contains(item) || item == pushed,
{
    if items.contains(item) {
        let i = choose|i: int| 0 <= i < items.len() && items[i] == item;
        assert(items.push(pushed)[i] == item);
    }
    assert(items.push(pushed)[items.len() as int] == pushed);
    if items.push(pushed).contains(item) {
        let i = choose|i: int| 0 <= i < items.push(pushed).len() && items.push(pushed)[i] == item;
        if i < items.len() {
            assert(items[i] == item);
        }
    }
}

/// What a sequence loses with its last item is that item at most.
proof fn lemma_drop_last_keeps(items: Seq<Coordinate>, item: Coordinate)
    requires
        items.len() > 0,
        items.contains(item),
    ensures
        items.drop_last().contains(item) || item == items.last(),
{
    let i = choose|i: int| 0 <= i < items.len() && items[i] == item;
    if i < items.len() - 1 {
        assert(items.drop_last()[i] == item);
    }
}

impl BoardView {
    /// Whether each tile of `player` next to a tile of `found` is itself in
    /// `found` or waits in `stack`.
    spec fn closed_under(
        self,
        found: Seq<Coordinate>,
        stack: Seq<Coordinate>,
        player: usize,
    ) -> bool {
        forall|i: int, c: Coordinate|
            #![trigger adjacent(found[i], c)]
            0 <= i < found.len() && adjacent(found[i], c) && self.owner(c) == Some(player)
                ==> found.contains(c) || stack.contains(c)
    }

    /// A set of tiles that holds each neighbour of its tiles holds every
    /// tile along a chain that starts in it.
    proof fn lemma_closed_holds_chain(
        self,
        found: Seq<Coordinate>,
        player: usize,
        path: Seq<Coordinate>,
        k: int,
    )
        requires
            self.closed_under(found, Seq::empty(), player),
            self.is_chain(path, player),
            0 <= k < path.len(),
            found.contains(path[0]),
        ensures
            found.contains(path[k]),
        decreases k,
    {
        if k > 0 {
            self.lemma_closed_holds_chain(found, player, path, k - 1);
            let i = choose|i: int| 0 <= i < found.len() && found[i] == path[k - 1];
            assert(adjacent(path[k - 1], path[k - 1 + 1]));
            assert(adjacent(found[i], path[k]));
            assert(self.owner(path[k]) == Some(player));
            assert(!Seq::<Coordinate>::empty().contains(path[k]));
        }
    }
}

impl Board {
    /// Puts the neighbour of `current` in `direction` on `stack` where it
    /// holds a tile of `player` that the search has not seen.
    fn visit(
        &self,
        position: Coordinate,
        current: Coordinate,
        direction: Direction,
        player: usize,
        seen: &Vec<Vec<bool>>,
        stack: &mut Vec<Coordinate>,
    )
        requires
            covers(flags_of(*seen), self@.width(), self@.height()),
            self@.owner(position) == Some(player),
            self@.connected(position, current),
            forall|i: int| 0 <= i < old(stack)@.len() ==> self@.connected(position, #[trigger] old(stack)@[i]),
        ensures
            forall|i: int| 0 <= i < final(stack)@.len() ==> self@.connected(position, #[trigger] final(stack)@[i]),
            forall|c: Coordinate| #[trigger] old(stack)@.contains(c) ==> final(stack)@.contains(c),
            final(stack)@.len() >= old(stack)@.len(),
            direction.can_add(current) && self@.owner(direction.add_spec(current)) == Some(player)
                ==> flags_of(*seen)[direction.add_spec(current).y as int][direction.add_spec(current).x as int]
                || final(stack)@.contains(direction.add_spec(current)),
    {
        match self.neighbour(current, direction) {
            Some((next, Square::Occupied(owner, _))) => {
                assert(self@.in_bounds(next.x as int, next.y as int));
                assert(flags_of(*seen).len() == seen@.len());
                assert(flags_of(*seen)[next.y as int].len() == seen@[next.y as int]@.len());
                if owner == player && !seen[next.y as usize][next.x as usize] {
                    proof {
                        self@.lemma_connected_step(position, current, next);
                        assert forall|c: Coordinate| #[trigger] stack@.contains(c) implies stack@.push(
                            next,
                        ).contains(c) by {
                            lemma_push_keeps(stack@, next, c);
                        }
                        lemma_push_keeps(stack@, next, next);
                    }
                    stack.push(next);
                }
            },
            _ => {},
        }
    }

    /// Finds the tiles joined to `position` by a chain of tiles of one
    /// player: the tile at `position` and every tile of its owner that can
    /// be reached from it step by step over tiles of that owner. Each is
    /// listed once. Where `position` holds no tile, nothing is found.
    pub fn depth_first_search(&self, position: Coordinate) -> (found: Vec<Coordinate>)
        ensures
            found@.to_set() == self@.component(position),
            found@.no_duplicates(),
    {
        let mut found: Vec<Coordinate> = Vec::new();
        let player = match self.get(position) {
            Ok(Square::Occupied(player, _)) => player,
            _ => {
                assert(found@.to_set() =~= self@.component(position));
                return found;
            },
        };
        let width = self.width();
        let height = self.height();
        let mut seen = no_flags(width, height);
        let mut stack: Vec<Coordinate> = Vec::new();
        stack.push(position);
        proof {
            self@.lemma_connected_to_itself(position);
            assert(stack@[0] == position);
        }
        loop
            invariant
                self@.wf(),
                width == self@.width(),
                height == self@.height(),
                self@.owner(position) == Some(player),
                covers(flags_of(seen), width as int, height as int),
                forall|i: int| 0 <= i < stack@.len() ==> self@.connected(position, #[trigger] stack@[i]),
                forall|i: int| 0 <= i < found@.len() ==> self@.connected(position, #[trigger] found@[i]),
                forall|c: Coordinate|
                    self@.in_bounds(c.x as int, c.y as int) ==> (flags_of(seen)[c.y as int][c.x as int]
                        <==> #[trigger] found@.contains(c)),
                found@.no_duplicates(),
                self@.closed_under(found@, stack@, player),
                found@.contains(position) || stack@.contains(position),
            ensures
                stack@.len() == 0,
            decreases unset(flags_of(seen)), stack@.len(),
        {
            let ghost waiting = stack@;
            let ghost known = found@;
            let ghost marks = flags_of(seen);
            let current = match stack.pop() {
                None => {
                    break ;
                },
                Some(current) => current,
            };
            proof {
                assert(current == waiting[waiting.len() - 1]);
                self@.lemma_connected_same_owner(position, current);
            }
            let x = current.x as usize;
            let y = current.y as usize;
            if seen[y][x] {
                proof {
                    assert(known.contains(current));
                    assert forall|i: int, c: Coordinate|
                        #![trigger adjacent(known[i], c)]
                        0 <= i < known.len() && adjacent(known[i], c) && self@.owner(c) == Some(
                            player,
                        ) implies known.contains(c) || stack@.contains(c) by {
                        if waiting.contains(c) {
                            lemma_drop_last_keeps(waiting, c);
                        }
                    }
                    if waiting.contains(position) {
                        lemma_drop_last_keeps(waiting, position);
                    }
                }
            } else {
                set_flag(&mut seen, y, x);
                found.push(current);
                let ghost rest = stack@;
                proof {
                    lemma_set(marks, y as int, x as int);
                    assert(!known.contains(current));
                    assert forall|c: Coordinate|
                        self@.in_bounds(c.x as int, c.y as int) implies (flags_of(seen)[c.y as int][c.x as int]
                        <==> #[trigger] found@.contains(c)) by {
                        lemma_push_keeps(known, current, c);
                        if c != current {
                            assert(flags_of(seen)[c.y as int][c.x as int] == marks[c.y as int][c.x as int]);
                            assert(marks[c.y as int][c.x as int] <==> known.contains(c));
                        }
                    }
                    assert forall|i: int| 0 <= i < found@.len() implies self@.connected(
                        position,
                        #[trigger] found@[i],
                    ) by {
                        if i < known.len() {
                            assert(found@[i] == known[i]);
                        }
                    }
                }
                self.visit(position, current, Direction::SOUTH, player, &seen, &mut stack);
                self.visit(position, current, Direction::EAST, player, &seen, &mut stack);
                self.visit(position, current, Direction::NORTH, player, &seen, &mut stack);
                self.visit(position, current, Direction::WEST, player, &seen, &mut stack);
                proof {
                    assert forall|i: int, c: Coordinate|
                        #![trigger adjacent(found@[i], c)]
                        0 <= i < found@.len() && adjacent(found@[i], c) && self@.owner(c) == Some(
                            player,
                        ) implies found@.contains(c) || stack@.contains(c) by {
                        if i < known.len() {
                            assert(found@[i] == known[i]);
                            assert(adjacent(known[i], c));
                            if known.contains(c) {
                                lemma_push_keeps(known, current, c);
                            } else {
                                assert(waiting.contains(c));
                                lemma_drop_last_keeps(waiting, c);
                                if c == current {
                                    lemma_push_keeps(known, current, c);
                                } else {
                                    assert(rest.contains(c));
                                }
                            }
                        } else {
                            assert(found@[i] == current);
                            let direction = lemma_adjacent_is_a_step(current, c);
                            assert(self@.in_bounds(c.x as int, c.y as int));
                            if flags_of(seen)[c.y as int][c.x as int] {
                                assert(found@.contains(c));
                            }
                        }
                    }
                    if known.contains(position) {
                        lemma_push_keeps(known, current, position);
                    } else {
                        lemma_drop_last_keeps(waiting, position);
                        if position == current {
                            lemma_push_keeps(known, current, position);
                        } else {
                            assert(rest.contains(position));
                        }
                    }
                    assert(found@.no_duplicates()) by {
                        assert forall|i: int, j: int|
                            0 <= i < found@.len() && 0 <= j < found@.len() && i != j implies found@[i]
                            != found@[j] by {
                            if i < known.len() && j < known.len() {
                                assert(known[i] != known[j]);
                            } else if i < known.len() {
                                assert(known.contains(known[i]));
                            } else {
                                assert(known.contains(known[j]));
                            }
                        }
                    }
                }
            }
        }
        proof {
            assert(stack@ =~= Seq::empty());
            assert(found@.contains(position));
            assert forall|c: Coordinate| self@.connected(position, c) implies found@.contains(c) by {
                let path = choose|path: Seq<Coordinate>| self@.links(path, position, c);
                self@.lemma_closed_holds_chain(found@, player, path, path.len() - 1);
            }
            assert forall|c: Coordinate| found@.contains(c) implies self@.connected(position, c) by {
                let i = choose|i: int| 0 <= i < found@.len() && found@[i] == c;
                assert(self@.connected(position, found@[i]));
            }
            assert(found@.to_set() =~= self@.component(position));
        }
        found
    }

    /// Removes every tile that is cut off from the roots. A tile stays
    /// where a chain of tiles of one player, each next to the one before,
    /// joins it to the root square of some player; every other tile gives
    /// way to an empty square.
    pub fn truncate(&mut self)
        ensures
            final(self)@ == old(self)@.truncated(),
    {
        let ghost before = self@;
        let width = self.width();
        let height = self.height();
        let mut keep = no_flags(width, height);
        let roots = self.roots();
        let mut player: usize = 0;
        while player < roots.len()
            invariant
                self@ == before,
                before.wf(),
                width == before.width(),
                height == before.height(),
                roots@ == before.roots,
                player <= roots@.len(),
                covers(flags_of(keep), width as int, height as int),
                forall|c: Coordinate|
                    before.in_bounds(c.x as int, c.y as int) ==> (#[trigger] flagged(flags_of(keep), c)
                        <==> before.attached_to(player as int, c)),
            decreases roots@.len() - player,
        {
            let tiles = self.depth_first_search(roots[player]);
            let mut i: usize = 0;
            while i < tiles.len()
                invariant
                    self@ == before,
                    before.wf(),
                    width == before.width(),
                    height == before.height(),
                    roots@ == before.roots,
                    player < roots@.len(),
                    i <= tiles@.len(),
                    tiles@.to_set() == before.component(roots@[player as int]),
                    covers(flags_of(keep), width as int, height as int),
                    forall|c: Coordinate|
                        before.in_bounds(c.x as int, c.y as int) ==> (#[trigger] flagged(flags_of(keep), c)
                            <==> (before.attached_to(player as int, c) || tiles@.take(
                            i as int,
                        ).contains(c))),
                decreases tiles@.len() - i,
            {
                let tile = tiles[i];
                let ghost marks = flags_of(keep);
                let ghost earlier = tiles@.take(i as int);
                proof {
                    assert(tiles@.contains(tile));
                    assert(tiles@.to_set().contains(tile));
                    assert(before.connected(roots@[player as int], tile));
                    before.lemma_connected_same_owner(roots@[player as int], tile);
                    assert(before.in_bounds(tile.x as int, tile.y as int));
                    assert(marks.len() == keep@.len());
                    assert(marks[tile.y as int].len() == keep@[tile.y as int]@.len());
                }
                set_flag(&mut keep, tile.y as usize, tile.x as usize);
                i += 1;
                proof {
                    assert(tiles@.take(i as int) =~= earlier.push(tile));
                    assert forall|c: Coordinate|
                        before.in_bounds(c.x as int, c.y as int) implies (#[trigger] flagged(flags_of(keep), c)
                        <==> (before.attached_to(player as int, c) || tiles@.take(
                        i as int,
                    ).contains(c))) by {
                        lemma_push_keeps(earlier, tile, c);
                        assert(marks[c.y as int].len() == width);
                        assert(flagged(marks, c) <==> (before.attached_to(
                            player as int,
                            c,
                        ) || earlier.contains(c)));
                        if c != tile {
                            assert(flagged(flags_of(keep), c) == flagged(marks, c));
                        } else {
                            assert(flagged(flags_of(keep), c));
                        }
                    }
                }
            }
            proof {
                let prefix = tiles@.take(i as int);
                assert forall|c: Coordinate|
                    before.in_bounds(c.x as int, c.y as int) implies (#[trigger] flagged(flags_of(keep), c)
                    <==> (before.attached_to(player as int, c) || prefix.contains(c))) by {
                }
                assert(prefix =~= tiles@);
                assert forall|c: Coordinate|
                    before.in_bounds(c.x as int, c.y as int) implies (#[trigger] flagged(flags_of(keep), c)
                    <==> before.attached_to(player + 1, c)) by {
                    before.lemma_attached_to_next(player as int, c);
                    assert(tiles@.contains(c) == tiles@.to_set().contains(c));
                    assert(flagged(flags_of(keep), c) <==> (before.attached_to(
                        player as int,
                        c,
                    ) || prefix.contains(c)));
                }
            }
            player += 1;
        }
        let mut y: usize = 0;
        while y < height
            invariant
                before.wf(),
                width == before.width(),
                height == before.height(),
                y <= height,
                player == before.roots.len(),
                covers(flags_of(keep), width as int, height as int),
                forall|c: Coordinate|
                    before.in_bounds(c.x as int, c.y as int) ==> (#[trigger] flagged(flags_of(keep), c)
                        <==> before.attached_to(player as int, c)),
                self@.roots == before.roots,
                self@.orientations == before.orientations,
                self@.squares.len() == before.squares.len(),
                forall|j: int|
                    0 <= j < height ==> (#[trigger] self@.squares[j]).len() == before.squares[j].len(),
                forall|j: int, i: int|
                    0 <= j < height && 0 <= i < width ==> #[trigger] self@.squares[j][i] == (if j < y {
                        before.truncated().squares[j][i]
                    } else {
                        before.squares[j][i]
                    }),
            decreases height - y,
        {
            let mut x: usize = 0;
            while x < width
                invariant
                    before.wf(),
                    width == before.width(),
                    height == before.height(),
                    y < height,
                    x <= width,
                    player == before.roots.len(),
                    covers(flags_of(keep), width as int, height as int),
                    forall|c: Coordinate|
                        before.in_bounds(c.x as int, c.y as int) ==> (#[trigger] flagged(flags_of(keep), c)
                            <==> before.attached_to(player as int, c)),
                    self@.roots == before.roots,
                    self@.orientations == before.orientations,
                    self@.squares.len() == before.squares.len(),
                    forall|j: int|
                        0 <= j < height ==> (#[trigger] self@.squares[j]).len()
                            == before.squares[j].len(),
                    forall|j: int, i: int|
                        0 <= j < height && 0 <= i < width ==> #[trigger] self@.squares[j][i] == (if j
                            < y || (j == y && i < x) {
                            before.truncated().squares[j][i]
                        } else {
                            before.squares[j][i]
                        }),
                decreases width - x,
            {
                let ghost current = self@;
                let here = Coordinate { x: x as isize, y: y as isize };
                proof {
                    assert(before.squares[y as int].len() == before.squares[0].len());
                    assert(current.squares[0].len() == before.squares[0].len());
                    assert(before.in_bounds(here.x as int, here.y as int));
                    assert(flags_of(keep).len() == keep@.len());
                    assert(flags_of(keep)[y as int].len() == keep@[y as int]@.len());
                    assert(flagged(flags_of(keep), here) <==> before.attached_to(player as int, here));
                    assert(current.squares[y as int][x as int] == before.squares[y as int][x as int]);
                }
                if !keep[y][x] {
                    self.clear(here);
                }
                proof {
                    assert forall|j: int| 0 <= j < height implies (#[trigger] self@.squares[j]).len()
                        == before.squares[j].len() by {
                        assert(current.squares[j].len() == before.squares[j].len());
                    }
                    assert forall|j: int, i: int| 0 <= j < height && 0 <= i < width implies #[trigger] self@.squares[j][i]
                        == (if j < y || (j == y && i < x + 1) {
                        before.truncated().squares[j][i]
                    } else {
                        before.squares[j][i]
                    }) by {
                        assert(current.squares[j].len() == before.squares[j].len());
                        assert(before.squares[j].len() == before.squares[0].len());
                        if j == y && i == x {
                        } else {
                            assert(self@.squares[j][i] == current.squares[j][i]);
                        }
                    }
                }
                x += 1;
            }
            y += 1;
        }
        proof {
            let target = before.truncated();
            assert forall|j: int| 0 <= j < height implies #[trigger] self@.squares[j]
                =~= target.squares[j] by {
                assert(before.squares[j].len() == before.squares[0].len());
            }
            assert(self@.squares =~= target.squares);
        }
    }
}

} // verus!
