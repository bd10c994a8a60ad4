use std::collections::{HashMap, HashSet};

use truncate_core::board::{Board, Coordinate, Direction, Square};
use truncate_core::error::GamePlayError;

#[test]
fn makes_default_boards() {
    assert_eq!(
        Board::new(3, 1).to_text(),
        ["  _  ", "_ _ _", "  _  "].join("\n")
    );

    assert_eq!(
        Board::new(3, 2).to_text(),
        ["  _  ", "_ _ _", "_ _ _", "  _  "].join("\n")
    );

    assert_eq!(
        Board::new(2, 1).to_text(),
        ["_  ", "_ _", "  _"].join("\n")
    );

    assert_eq!(
        Board::new(5, 1).to_text(),
        ["    _    ", "_ _ _ _ _", "    _    "].join("\n")
    );

    assert_eq!(
        Board::new(6, 1).to_text(),
        ["    _      ", "_ _ _ _ _ _", "      _    "].join("\n")
    );
}

#[test]
fn from_string() {
    // Default boards are the same after being written and read again
    let boards = [Board::default(), Board::new(34, 28)];
    for b in boards {
        assert_eq!(
            Board::from_string(b.to_text(), b.roots(), b.orientations()),
            Ok(b)
        );
    }

    // Various strings are the same when read and written again
    let strings = [
        ["_ _ _", "_   _", "_ _ _"].join("\n"),
        ["_ X _", "_   A", "V _ _"].join("\n"),
        ["_ X _ _", "_ B A _", "V _ _ _", "  _ J _"].join("\n"),
    ];
    for s in strings {
        let b = Board::from_string(
            s.clone(),
            vec![Coordinate { x: 0, y: 0 }],
            vec![Direction::NORTH],
        );
        match b {
            Ok(b) => assert_eq!(b.to_text(), s),
            Err(_) => panic!("Should build"),
        }
    }

    // Complex boards have the correct players assigned to their tiles
    // Donut board
    let top_left = Coordinate { x: 0, y: 0 };
    let top_right = Coordinate { x: 4, y: 0 };
    let bottom_left = Coordinate { x: 0, y: 4 };
    let bottom_right = Coordinate { x: 4, y: 4 };
    let dangling = Coordinate { x: 2, y: 3 };
    let hole = Coordinate { x: 2, y: 2 };
    let donut = if let Ok(t) = Board::from_string(
        [
            "A _ _ _ B",
            "_ _ _ _ _",
            "_ _   _ _",
            "_ _ D _ _",
            "C _ _ _ _",
        ]
        .join("\n"),
        vec![top_left, top_right, bottom_left, bottom_right],
        vec![Direction::NORTH; 4],
    ) {
        t
    } else {
        panic!("Should build");
    };
    assert_eq!(donut.get(top_left), Ok(Square::Occupied(0, 'A')));
    assert_eq!(donut.get(top_right), Ok(Square::Occupied(1, 'B')));
    assert_eq!(donut.get(bottom_left), Ok(Square::Occupied(2, 'C')));
    assert_eq!(
        donut.get(hole),
        Err(GamePlayError::DeadCell),
        "Invalid position"
    );
    assert_eq!(donut.get(dangling), Ok(Square::Occupied(0, 'D')));
    assert_eq!(donut.get(Coordinate { x: 1, y: 1 }), Ok(Square::Empty));

    // Complex trees
    let player_1 = [
        Coordinate { x: 2, y: 0 }, // First row
        Coordinate { x: 0, y: 1 }, // Second row
        Coordinate { x: 1, y: 1 },
        Coordinate { x: 2, y: 1 },
        Coordinate { x: 3, y: 1 },
        Coordinate { x: 4, y: 1 },
        Coordinate { x: 0, y: 2 }, // Third row
        Coordinate { x: 0, y: 3 }, // Fourth row
        Coordinate { x: 0, y: 4 }, // Fifth row
        Coordinate { x: 1, y: 4 },
        Coordinate { x: 0, y: 5 }, // Sixth row
    ];
    let player_2 = [
        Coordinate { x: 2, y: 6 }, // Seventh row
        Coordinate { x: 2, y: 5 }, // Sixth row
        Coordinate { x: 3, y: 5 },
        Coordinate { x: 3, y: 4 }, // Fifth row
        Coordinate { x: 2, y: 3 }, // Fourth row
        Coordinate { x: 3, y: 3 },
        Coordinate { x: 4, y: 3 },
    ];
    let complex_tree = if let Ok(t) = Board::from_string(
        [
            "    A    ",
            "A A A A A",
            "A _ _ _ _",
            "A _ B B B",
            "A A _ B _",
            "A _ B B _",
            "    B    ",
        ]
        .join("\n"),
        vec![player_1[0], player_2[0]],
        vec![Direction::NORTH; 2],
    ) {
        t
    } else {
        panic!("Should build");
    };

    for square in player_1 {
        assert_eq!(complex_tree.get(square), Ok(Square::Occupied(0, 'A')));
    }
    for square in player_2 {
        assert_eq!(complex_tree.get(square), Ok(Square::Occupied(1, 'B')));
    }
}

#[test]
fn getset_errors_out_of_bounds() {
    let mut b = Board::new(1, 1); // Note, height is 3 from home rows
    assert_eq!(
        b.get(Coordinate { x: 1, y: 0 }),
        Err(GamePlayError::OutOfBounds),
        "x-coordinate is too large for board width"
    );
    assert_eq!(
        b.get(Coordinate { x: 0, y: 3 }),
        Err(GamePlayError::OutOfBounds),
        "y-coordinate is too large for board height"
    );

    assert_eq!(
        b.set(Coordinate { x: 1, y: 0 }, 0, 'a'),
        Err(GamePlayError::OutOfBounds),
        "x-coordinate is too large for board width"
    );
    assert_eq!(
        b.set(Coordinate { x: 0, y: 3 }, 0, 'a'),
        Err(GamePlayError::OutOfBounds),
        "y-coordinate is too large for board height"
    );
}

#[test]
fn getset_errors_for_dead_squares() {
    let mut b = Board::new(2, 1); // Note, height is 3 from home rows
    assert_eq!(
        b.get(Coordinate { x: 1, y: 0 }),
        Err(GamePlayError::DeadCell),
        "Invalid position"
    );
    assert_eq!(
        b.get(Coordinate { x: 0, y: 2 }),
        Err(GamePlayError::DeadCell),
        "Invalid position"
    );

    assert_eq!(
        b.set(Coordinate { x: 1, y: 0 }, 0, 'a'),
        Err(GamePlayError::DeadCell),
        "Can't set the value of a non-existant square"
    );
    assert_eq!(
        b.set(Coordinate { x: 0, y: 2 }, 0, 'a'),
        Err(GamePlayError::DeadCell),
        "Can't set the value of a non-existant square"
    );
}

#[test]
fn getset_handles_empty_squares() {
    let mut b = Board::new(2, 1); // Note, height is 3 from home rows
    assert_eq!(b.get(Coordinate { x: 0, y: 0 }), Ok(Square::Empty));
    assert_eq!(b.get(Coordinate { x: 0, y: 1 }), Ok(Square::Empty));
    assert_eq!(b.get(Coordinate { x: 1, y: 1 }), Ok(Square::Empty));
    assert_eq!(b.get(Coordinate { x: 1, y: 2 }), Ok(Square::Empty));

    assert_eq!(b.set(Coordinate { x: 0, y: 0 }, 0, 'a'), Ok(()));
    assert_eq!(b.set(Coordinate { x: 0, y: 1 }, 0, 'a'), Ok(()));
    assert_eq!(b.set(Coordinate { x: 1, y: 1 }, 0, 'a'), Ok(()));
    assert_eq!(b.set(Coordinate { x: 1, y: 2 }, 0, 'a'), Ok(()));
}

#[test]
fn set_requires_valid_player() {
    let mut b = Board::new(2, 1);
    assert_eq!(b.set(Coordinate { x: 1, y: 2 }, 0, 'a'), Ok(()));
    assert_eq!(b.set(Coordinate { x: 1, y: 2 }, 1, 'a'), Ok(()));
    assert_eq!(
        b.set(Coordinate { x: 1, y: 2 }, 2, 'a'),
        Err(GamePlayError::InvalidPlayer),
        "player does not exist"
    );
    assert_eq!(
        b.set(Coordinate { x: 1, y: 2 }, 3, 'a'),
        Err(GamePlayError::InvalidPlayer),
        "player does not exist"
    );
    assert_eq!(
        b.set(Coordinate { x: 1, y: 2 }, 100, 'a'),
        Err(GamePlayError::InvalidPlayer),
        "player does not exist"
    );
}

#[test]
fn set_changes_get() {
    let mut b = Board::new(1, 1); // Note, height is 3 from home rows
    assert_eq!(b.get(Coordinate { x: 0, y: 0 }), Ok(Square::Empty));
    assert_eq!(b.set(Coordinate { x: 0, y: 0 }, 0, 'a'), Ok(()));
    assert_eq!(
        b.get(Coordinate { x: 0, y: 0 }),
        Ok(Square::Occupied(0, 'a'))
    );
}

fn found_from(b: &Board, position: Coordinate) -> HashSet<Coordinate> {
    let found = b.depth_first_search(position);
    let set: HashSet<Coordinate> = found.iter().copied().collect();
    assert_eq!(set.len(), found.len());
    set
}

#[test]
fn depth_first_search() {
    let mut b = Board::new(3, 1);

    // Create a connected tree
    let parts = [
        Coordinate { x: 2, y: 1 },
        Coordinate { x: 1, y: 1 },
        Coordinate { x: 1, y: 0 },
        Coordinate { x: 0, y: 1 },
    ];
    let parts_set = HashSet::from(parts);
    for part in parts {
        assert_eq!(b.set(part, 0, 'a'), Ok(()));
    }

    // The tree should be returned no matter where in the tree we start from
    for part in parts {
        assert!(found_from(&b, part).is_subset(&parts_set));
        assert!(found_from(&b, part).is_superset(&parts_set));
    }

    // Set the remaining unoccupied square on the board to be occupied by another player
    let other = Coordinate { x: 1, y: 2 };
    // When unoccupied it should give the empty set, when occupied, just itself
    assert!(b.depth_first_search(other).iter().eq([].iter()));
    assert_eq!(b.set(other, 1, 'a'), Ok(()));
    assert!(b.depth_first_search(other).iter().eq([other].iter()));

    // The result on the main tree should not have changed
    for part in parts {
        assert!(found_from(&b, part).is_subset(&parts_set));
        assert!(found_from(&b, part).is_superset(&parts_set));
    }
}

fn neighbours_of(b: &Board, position: Coordinate) -> HashMap<Coordinate, Square> {
    let neighbours = b.neighbouring_squares(position);
    let map: HashMap<Coordinate, Square> = neighbours.iter().copied().collect();
    assert_eq!(map.len(), neighbours.len());
    map
}

#[test]
fn get_neighbours() {
    // (0,0) (1,0) (2,0)
    // (0,1) (1,1) (2,1)
    // (0,2) (1,2) (2,2)
    // (0,3) (1,3) (2,3)
    // (0,4) (1,4) (2,4)
    let b = Board::new(3, 3);

    assert_eq!(
        neighbours_of(&b, Coordinate { x: 0, y: 0 }),
        HashMap::from([
            (Coordinate { x: 0, y: 1 }, Square::Empty),
            (Coordinate { x: 1, y: 0 }, Square::Empty),
        ])
    );

    assert_eq!(
        neighbours_of(&b, Coordinate { x: 1, y: 0 }),
        HashMap::from([(Coordinate { x: 1, y: 1 }, Square::Empty),])
    );

    assert_eq!(
        neighbours_of(&b, Coordinate { x: 1, y: 2 }),
        HashMap::from([
            (Coordinate { x: 1, y: 1 }, Square::Empty),
            (Coordinate { x: 0, y: 2 }, Square::Empty),
            (Coordinate { x: 2, y: 2 }, Square::Empty),
            (Coordinate { x: 1, y: 3 }, Square::Empty),
        ])
    );

    assert_eq!(
        neighbours_of(&b, Coordinate { x: 1, y: 4 }),
        HashMap::from([(Coordinate { x: 1, y: 3 }, Square::Empty),])
    );
}

#[test]
fn swap() {
    let mut b = Board::new(3, 1);
    let c0_1 = Coordinate { x: 0, y: 1 };
    let c1_1 = Coordinate { x: 1, y: 1 };
    let c2_1 = Coordinate { x: 2, y: 1 };
    assert_eq!(b.set(c0_1, 0, 'a'), Ok(()));
    assert_eq!(b.set(c1_1, 0, 'b'), Ok(()));
    assert_eq!(b.set(c2_1, 1, 'c'), Ok(()));

    assert_eq!(b.get(c0_1), Ok(Square::Occupied(0, 'a')));
    assert_eq!(b.get(c1_1), Ok(Square::Occupied(0, 'b')));
    assert_eq!(b.swap(0, [c0_1, c1_1]), Ok(()));
    assert_eq!(b.get(c0_1), Ok(Square::Occupied(0, 'b')));
    assert_eq!(b.get(c1_1), Ok(Square::Occupied(0, 'a')));
    assert_eq!(
        b.swap(0, [c0_1, c0_1]),
        Err(GamePlayError::SameSquareSwap),
        "Can't swap a square with itself"
    );
    assert_eq!(
        b.swap(0, [c0_1, c2_1]),
        Err(GamePlayError::NotOwnedBySwapper),
        "Player must own the squares they swap"
    );
    assert_eq!(
        b.swap(1, [c0_1, c1_1]),
        Err(GamePlayError::NotOwnedBySwapper),
        "Player must own the squares they swap"
    );
}

#[test]
fn get_words() {
    // Should return an empty list of words for all points on an empty board, and for positions off the board
    let empty: Vec<Vec<Coordinate>> = vec![];
    let b = Board::default();
    for x in -2..10 {
        for y in -2..10 {
            assert_eq!(b.get_words(Coordinate { x, y }), empty);
        }
    }

    // Gets two words in the middle of a cross
    let b = if let Ok(board) = Board::from_string(
        [
            "_ _ C _ _",
            "_ _ R _ _",
            "S W O R D",
            "_ _ S _ _",
            "_ _ S _ _",
        ]
        .join("\n"),
        vec![Coordinate { x: 0, y: 0 }],
        vec![Direction::SOUTH],
    ) {
        board
    } else {
        panic!("Should build")
    };
    let cross = ([0, 1, 2, 3, 4]).map(|y| Coordinate { x: 2, y });
    let sword = ([0, 1, 2, 3, 4]).map(|x| Coordinate { x, y: 2 });
    assert_eq!(
        b.get_words(Coordinate { x: 2, y: 2 }),
        vec![cross.to_vec(), sword.to_vec()]
    );

    let just_cross = ([0, 1, 3, 4]).map(|y| Coordinate { x: 2, y });
    for square in just_cross {
        assert_eq!(b.get_words(square), vec![cross.to_vec()]);
    }

    let just_sword = ([0, 1, 3, 4]).map(|x| Coordinate { x, y: 2 });
    for square in just_sword {
        assert_eq!(b.get_words(square), vec![sword.to_vec()]);
    }

    // Doesn't cross other players
    let mut b = if let Ok(board) = Board::from_string(
        [
            "_ _ C _ _",
            "_ _ R _ _",
            "_ _ O _ _",
            "_ _ S _ _",
            "_ _ S _ _",
        ]
        .join("\n"),
        vec![Coordinate { x: 0, y: 0 }, Coordinate { x: 4, y: 4 }],
        vec![Direction::SOUTH, Direction::NORTH],
    ) {
        board
    } else {
        panic!("Should build")
    };
    assert_eq!(
        b.get(Coordinate { x: 2, y: 4 }),
        Ok(Square::Occupied(0, 'S'))
    );
    assert_eq!(b.set(Coordinate { x: 3, y: 4 }, 1, 'O'), Ok(()));
    assert_eq!(b.get_words(Coordinate { x: 2, y: 4 }), vec![cross.to_vec()]);
}

#[test]
fn get_words_orientations() {
    let corners = vec![
        Coordinate { x: 0, y: 0 }, // Anti-clockwise from the top left
        Coordinate { x: 0, y: 6 },
        Coordinate { x: 6, y: 6 },
        Coordinate { x: 6, y: 0 },
    ];
    let cc = corners.clone();

    let b = if let Ok(board) = Board::from_string(
        [
            "N E Z _ G A N",
            "A _ _ _ _ _ E",
            "G _ _ _ _ _ Z",
            "_ _ _ _ _ _ _",
            "Z _ _ _ _ _ G",
            "E _ _ _ _ _ A",
            "N A G _ Z E N",
        ]
        .join("\n"),
        corners,
        vec![
            Direction::WEST,
            Direction::SOUTH,
            Direction::EAST,
            Direction::NORTH,
        ],
    ) {
        board
    } else {
        panic!("should work")
    };

    for corner in cc {
        let mut words = b
            .get_words(corner)
            .iter()
            .map(|word| {
                word.iter()
                    .map(|&square| match b.get(square) {
                        Ok(sq) => match sq {
                            Square::Empty => panic!("shouldn't be empty"),
                            Square::Occupied(_, letter) => letter,
                        },
                        Err(e) => panic!("{:?}", e),
                    })
                    .collect::<String>()
            })
            .collect::<Vec<String>>();
        words.sort();
        assert_eq!(words, vec!["NAG", "ZEN"]);
        assert_eq!(words, {
            let mut spelled = b.word_strings(&b.get_words(corner));
            spelled.sort();
            spelled
        });
    }
}
