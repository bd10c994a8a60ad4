use truncate_core::board::{Board, Coordinate, Direction};
use truncate_core::error::GamePlayError;
use truncate_core::hand::Hands;
use truncate_core::judge::{Judge, Outcome};
use truncate_core::moves::Move;

/// Hands that are refilled with one and the same tile.
struct RefilledHands {
    hands: Vec<Vec<char>>,
    refill: char,
}

impl RefilledHands {
    fn new(player_count: usize, capacity: usize, tiles: &[char]) -> Self {
        let hand: Vec<char> = (0..capacity).map(|i| tiles[i % tiles.len()]).collect();
        RefilledHands {
            hands: vec![hand; player_count],
            refill: tiles[0],
        }
    }

    fn trivial(player_count: usize) -> Self {
        Self::new(player_count, 7, &['A'])
    }
}

impl Hands for RefilledHands {
    fn use_tile(&mut self, player: usize, tile: char) -> Result<(), GamePlayError> {
        if player >= self.hands.len() {
            return Err(GamePlayError::InvalidPlayer);
        }
        match self.hands[player].iter().position(|t| *t == tile) {
            None => Err(GamePlayError::TileUnavailable),
            Some(index) => {
                self.hands[player][index] = self.refill;
                Ok(())
            }
        }
    }
}

/// A judge that knows a list of words. An attack fails where an attacking
/// word is unknown; else the defenders lose that are unknown or more than
/// one letter shorter than the longest attacker, and where none of them
/// does the attack fails.
struct WordList {
    words: Vec<String>,
}

impl WordList {
    fn short_dict() -> Self {
        WordList {
            words: ["BIG", "FAT", "JOLLY", "AND", "SILLY", "FOLK", "ARTS"]
                .iter()
                .map(|w| w.to_string())
                .collect(),
        }
    }

    fn valid(&self, word: &String) -> bool {
        self.words.contains(word)
    }
}

impl Judge for WordList {
    fn battle(&self, attackers: Vec<String>, defenders: Vec<String>) -> Outcome {
        if attackers.is_empty() || defenders.is_empty() {
            return Outcome::NoBattle;
        }
        if attackers.iter().any(|word| !self.valid(word)) {
            return Outcome::DefenderWins;
        }
        let longest = attackers.iter().map(|word| word.chars().count()).max().unwrap();
        let weak: Vec<usize> = defenders
            .iter()
            .enumerate()
            .filter(|(_, word)| word.chars().count() + 1 < longest || !self.valid(word))
            .map(|(index, _)| index)
            .collect();
        if weak.is_empty() {
            Outcome::DefenderWins
        } else {
            Outcome::AttackerWins(weak)
        }
    }
}

/// A judge that gives the verdict it was made with.
struct Fixed(Outcome);

impl Judge for Fixed {
    fn battle(&self, _attackers: Vec<String>, _defenders: Vec<String>) -> Outcome {
        match &self.0 {
            Outcome::NoBattle => Outcome::NoBattle,
            Outcome::DefenderWins => Outcome::DefenderWins,
            Outcome::AttackerWins(losers) => Outcome::AttackerWins(losers.clone()),
        }
    }
}

fn board_of(rows: &[&str], roots: Vec<Coordinate>) -> Board {
    Board::from_string(
        rows.join("\n"),
        roots,
        vec![Direction::NORTH, Direction::SOUTH],
    )
    .unwrap()
}

#[test]
fn invalid_placement_locations() {
    let mut b = Board::new(3, 1);
    let mut hands = RefilledHands::trivial(2);

    let out_of_bounds = Move::Place {
        player: 0,
        tile: 'A',
        position: Coordinate { x: 10, y: 10 },
    };
    assert_eq!(
        b.make_move(out_of_bounds, &mut hands, &WordList::short_dict()),
        Err(GamePlayError::OutOfBounds),
        "Couldn't get square"
    );

    let out_of_bounds = Move::Place {
        player: 0,
        tile: 'A',
        position: Coordinate { x: 10, y: 0 },
    };
    assert_eq!(
        b.make_move(out_of_bounds, &mut hands, &WordList::short_dict()),
        Err(GamePlayError::OutOfBounds),
        "Couldn't get square"
    );

    let dead = Move::Place {
        player: 0,
        tile: 'A',
        position: Coordinate { x: 0, y: 0 },
    };
    assert_eq!(
        b.make_move(dead, &mut hands, &WordList::short_dict()),
        Err(GamePlayError::DeadCell),
        "Couldn't get square"
    );
    assert_eq!(b, Board::new(3, 1));
}

#[test]
fn can_place_and_swap() {
    let mut b = Board::new(3, 1);
    let mut hands = RefilledHands::new(1, 7, &['A', 'B']);

    // Places on the root
    assert_eq!(
        b.make_move(
            Move::Place {
                player: 0,
                tile: 'A',
                position: Coordinate { x: 1, y: 0 }
            },
            &mut hands,
            &WordList::short_dict()
        ),
        Ok(())
    );
    // Can't place on the same place again
    assert_eq!(
        b.make_move(
            Move::Place {
                player: 0,
                tile: 'A',
                position: Coordinate { x: 1, y: 0 }
            },
            &mut hands,
            &WordList::short_dict()
        ),
        Err(GamePlayError::AlreadyOccupied),
        "Cannot place a tile in an occupied square"
    );
    // Can't place at a diagonal
    assert_eq!(
        b.make_move(
            Move::Place {
                player: 0,
                tile: 'A',
                position: Coordinate { x: 0, y: 1 }
            },
            &mut hands,
            &WordList::short_dict()
        ),
        Err(GamePlayError::NotAdjacentToOwnTiles),
        "Must place tile on square that neighbours one of your already placed tiles, or on your root"
    );
    // Can place directly above
    assert_eq!(
        b.make_move(
            Move::Place {
                player: 0,
                tile: 'A',
                position: Coordinate { x: 1, y: 1 }
            },
            &mut hands,
            &WordList::short_dict()
        ),
        Ok(())
    );
    // Can't place on the same place again
    assert_eq!(
        b.make_move(
            Move::Place {
                player: 0,
                tile: 'A',
                position: Coordinate { x: 1, y: 1 }
            },
            &mut hands,
            &WordList::short_dict()
        ),
        Err(GamePlayError::AlreadyOccupied),
        "Cannot place a tile in an occupied square"
    );

    assert_eq!(
        b.make_move(
            Move::Swap {
                player: 0,
                positions: [Coordinate { x: 1, y: 1 }, Coordinate { x: 1, y: 0 }]
            },
            &mut hands,
            &WordList::short_dict()
        ),
        Ok(())
    );
}

#[test]
fn invalid_player_or_tile() {
    let mut b = Board::new(3, 1);
    let mut hands = RefilledHands::trivial(2);

    assert_eq!(
        b.make_move(
            Move::Place {
                player: 2,
                tile: 'A',
                position: Coordinate { x: 1, y: 0 }
            },
            &mut hands,
            &WordList::short_dict()
        ),
        Err(GamePlayError::InvalidPlayer),
        "Invalid player"
    );

    assert_eq!(
        b.make_move(
            Move::Place {
                player: 0,
                tile: '&',
                position: Coordinate { x: 1, y: 0 }
            },
            &mut hands,
            &WordList::short_dict()
        ),
        Err(GamePlayError::TileUnavailable),
        "Player doesn't have that tile"
    );
    assert_eq!(b, Board::new(3, 1));
}

#[test]
fn collect_combanants() {
    let middle = Coordinate { x: 2, y: 2 };

    let left_defender: Vec<Coordinate> = (2..=4).map(|y| Coordinate { x: 1, y }).collect();
    let right_defender: Vec<Coordinate> = (2..=4).map(|y| Coordinate { x: 3, y }).collect();
    let middle_defender: Vec<Coordinate> = (3..=4).map(|y| Coordinate { x: 2, y }).collect();
    let middle_attacker: Vec<Coordinate> =
        (0..=2).rev().map(|y| Coordinate { x: 2, y }).collect();
    let left_attacker: Vec<Coordinate> =
        (0..=2).rev().map(|x| Coordinate { x, y: 2 }).collect();
    let cross_defender: Vec<Coordinate> = (1..=3).map(|x| Coordinate { x, y: 3 }).collect();
    let short_cross_defender: Vec<Coordinate> =
        (2..=3).map(|x| Coordinate { x, y: 3 }).collect();

    // There are at most 4 squares contributing combatants.
    // Either 1 attacker with 1, 2, or 3 defenders
    // 2 attackers with 1 or 2 defenders
    // Note, 3 attackers are impossible because the letter being placed will combine two of the words into one

    // 1v1
    let mut one_v_one = Board::from_string(
        [
            "_ _ M _ _",
            "_ _ D _ _",
            "_ _ _ _ _",
            "_ _ M _ _",
            "_ _ D _ _",
        ]
        .join("\n"),
        vec![Coordinate { x: 2, y: 0 }, Coordinate { x: 2, y: 4 }],
        vec![Direction::NORTH, Direction::SOUTH],
    )
    .unwrap();
    one_v_one.set(middle, 0, 'A').unwrap();

    assert_eq!(
        one_v_one.collect_combanants(0, middle),
        (vec![middle_attacker.clone()], vec![middle_defender.clone()])
    );

    // 1v2
    let mut one_v_two = Board::from_string(
        [
            "_ _ M _ _",
            "_ _ D _ _",
            "_ L _ R _",
            "_ F _ T _",
            "_ D R D _",
        ]
        .join("\n"),
        vec![Coordinate { x: 2, y: 0 }, Coordinate { x: 2, y: 4 }],
        vec![Direction::NORTH, Direction::SOUTH],
    )
    .unwrap();
    one_v_two.set(middle, 0, 'A').unwrap();

    assert_eq!(
        one_v_two.collect_combanants(0, middle),
        (
            vec![middle_attacker.clone()],
            vec![right_defender.clone(), left_defender.clone()],
        )
    );

    // 1v3
    let mut one_v_three = Board::from_string(
        [
            "_ _ M _ _",
            "_ _ D _ _",
            "_ L _ R _",
            "_ F M T _",
            "_ D D D _",
        ]
        .join("\n"),
        vec![Coordinate { x: 2, y: 0 }, Coordinate { x: 2, y: 4 }],
        vec![Direction::NORTH, Direction::SOUTH],
    )
    .unwrap();
    one_v_three.set(middle, 0, 'A').unwrap();

    assert_eq!(
        one_v_three.collect_combanants(0, middle),
        (
            vec![middle_attacker.clone()],
            vec![
                middle_defender.clone(),
                cross_defender.clone(),
                right_defender.clone(),
                left_defender.clone(),
            ]
        )
    );

    // 2v2
    let mut two_v_two = Board::from_string(
        [
            "X X M _ _",
            "X _ D _ _",
            "L F _ R _",
            "_ _ M T _",
            "_ _ D D _",
        ]
        .join("\n"),
        vec![Coordinate { x: 2, y: 0 }, Coordinate { x: 2, y: 4 }],
        vec![Direction::NORTH, Direction::SOUTH],
    )
    .unwrap();
    two_v_two.set(middle, 0, 'A').unwrap();
    assert_eq!(
        two_v_two.collect_combanants(0, middle),
        (
            vec![middle_attacker, left_attacker],
            vec![middle_defender, short_cross_defender, right_defender],
        )
    );
}

#[test]
fn resolve_successful_attack() {
    let mut b = Board::from_string(
        [
            "_ S X _ _",
            "_ T _ _ _",
            "_ R _ _ _",
            "_ _ I _ _",
            "_ _ T _ _",
        ]
        .join("\n"),
        vec![Coordinate { x: 2, y: 0 }, Coordinate { x: 2, y: 4 }],
        vec![Direction::NORTH, Direction::SOUTH],
    )
    .unwrap();
    let mut hands = RefilledHands::trivial(2);

    b.make_move(
        Move::Place {
            player: 0,
            tile: 'A',
            position: Coordinate { x: 1, y: 3 },
        },
        &mut hands,
        &WordList::short_dict(),
    )
    .unwrap();

    assert_eq!(
        b.to_text(),
        [
            "_ S X _ _",
            "_ T _ _ _",
            "_ R _ _ _",
            "_ A _ _ _",
            "_ _ _ _ _",
        ]
        .join("\n"),
    )
}

#[test]
fn resolve_failed_attack() {
    let mut b = Board::from_string(
        [
            "_ X X _ _",
            "_ T _ _ _",
            "_ R _ _ _",
            "_ _ I _ _",
            "_ _ T _ _",
        ]
        .join("\n"),
        vec![Coordinate { x: 2, y: 0 }, Coordinate { x: 2, y: 4 }],
        vec![Direction::NORTH, Direction::SOUTH],
    )
    .unwrap();
    let mut hands = RefilledHands::trivial(2);

    b.make_move(
        Move::Place {
            player: 0,
            tile: 'A',
            position: Coordinate { x: 1, y: 3 },
        },
        &mut hands,
        &WordList::short_dict(),
    )
    .unwrap();

    assert_eq!(
        b.to_text(),
        [
            "_ _ X _ _",
            "_ _ _ _ _",
            "_ _ _ _ _",
            "_ _ I _ _",
            "_ _ T _ _",
        ]
        .join("\n"),
    )
}

#[test]
fn resolve_truncation() {
    let mut b = Board::from_string(
        [
            "_ S X _ _",
            "_ T _ _ _",
            "_ R _ X _",
            "_ _ B X _",
            "_ _ I _ _",
            "_ _ G _ _",
        ]
        .join("\n"),
        vec![Coordinate { x: 2, y: 0 }, Coordinate { x: 2, y: 5 }],
        vec![Direction::NORTH, Direction::SOUTH],
    )
    .unwrap();
    let mut hands = RefilledHands::trivial(2);

    b.make_move(
        Move::Place {
            player: 0,
            tile: 'A',
            position: Coordinate { x: 1, y: 3 },
        },
        &mut hands,
        &WordList::short_dict(),
    )
    .unwrap();

    assert_eq!(
        b.to_text(),
        [
            "_ S X _ _",
            "_ T _ _ _",
            "_ R _ _ _",
            "_ A _ _ _",
            "_ _ I _ _",
            "_ _ G _ _",
        ]
        .join("\n"),
    )
}

#[test]
fn rejected_move_repeats_its_error() {
    let mut b = board_of(
        &["_ S X _ _", "_ T _ _ _", "_ _ _ _ _", "_ _ I _ _", "_ _ T _ _"],
        vec![Coordinate { x: 2, y: 0 }, Coordinate { x: 2, y: 4 }],
    );
    let text = b.to_text();
    let mut hands = RefilledHands::trivial(2);
    for _ in 0..3 {
        assert_eq!(
            b.make_move(
                Move::Place {
                    player: 0,
                    tile: 'A',
                    position: Coordinate { x: 1, y: 1 }
                },
                &mut hands,
                &WordList::short_dict()
            ),
            Err(GamePlayError::AlreadyOccupied)
        );
        assert_eq!(b.to_text(), text);
        assert_eq!(
            b.make_move(
                Move::Swap {
                    player: 0,
                    positions: [Coordinate { x: 1, y: 1 }, Coordinate { x: 2, y: 3 }]
                },
                &mut hands,
                &WordList::short_dict()
            ),
            Err(GamePlayError::NotOwnedBySwapper)
        );
        assert_eq!(b.to_text(), text);
    }
}

#[test]
fn swap_refusals() {
    let mut b = board_of(
        &["_ S X _ _", "_ T _ _ _", "    _ _ _", "_ _ I _ _", "_ _ T _ _"],
        vec![Coordinate { x: 2, y: 0 }, Coordinate { x: 2, y: 4 }],
    );
    let text = b.to_text();
    let s = Coordinate { x: 1, y: 0 };
    assert_eq!(
        b.swap(0, [s, Coordinate { x: 0, y: 0 }]),
        Err(GamePlayError::MustSwapOccupiedSquares)
    );
    assert_eq!(
        b.swap(0, [Coordinate { x: 0, y: 2 }, s]),
        Err(GamePlayError::DeadCell)
    );
    assert_eq!(
        b.swap(0, [s, Coordinate { x: 9, y: 0 }]),
        Err(GamePlayError::OutOfBounds)
    );
    assert_eq!(
        b.swap(0, [Coordinate { x: -1, y: 0 }, s]),
        Err(GamePlayError::OutOfBounds)
    );
    assert_eq!(b.to_text(), text);
    assert_eq!(b.swap(0, [s, Coordinate { x: 1, y: 1 }]), Ok(()));
    assert_eq!(
        b.to_text(),
        ["_ T X _ _", "_ S _ _ _", "    _ _ _", "_ _ I _ _", "_ _ T _ _"].join("\n")
    );
}

#[test]
fn verdicts_are_carried_out() {
    let rows = [
        "_ S X _ _",
        "_ T _ _ _",
        "_ R _ X _",
        "_ A B X _",
        "_ _ I _ _",
        "_ _ G _ _",
    ];
    let roots = vec![Coordinate { x: 2, y: 0 }, Coordinate { x: 2, y: 5 }];
    let placed = Coordinate { x: 1, y: 3 };
    let fresh = || {
        let mut b = board_of(
            &[
                "_ S X _ _",
                "_ T _ _ _",
                "_ R _ X _",
                "_ _ B X _",
                "_ _ I _ _",
                "_ _ G _ _",
            ],
            roots.clone(),
        );
        b.set(placed, 0, 'A').unwrap();
        b
    };

    let mut b = fresh();
    assert_eq!(b.to_text(), rows.join("\n"));
    let (attackers, defenders) = b.collect_combanants(0, placed);
    assert_eq!(b.word_strings(&attackers), vec!["ARTS"]);
    assert_eq!(b.word_strings(&defenders), vec!["BIG", "BX"]);

    // Nothing is lost without a battle
    assert_eq!(b.resolve_attack(0, placed, &Fixed(Outcome::NoBattle)), Outcome::NoBattle);
    assert_eq!(b.to_text(), rows.join("\n"));

    // A failed attack costs the attacking word, and nothing else
    let mut b = fresh();
    b.apply_outcome(&attackers, &defenders, &Outcome::DefenderWins);
    assert_eq!(
        b.to_text(),
        [
            "_ _ X _ _",
            "_ _ _ _ _",
            "_ _ _ X _",
            "_ _ B X _",
            "_ _ I _ _",
            "_ _ G _ _",
        ]
        .join("\n")
    );

    // Losing the first defender cuts the second one off
    let mut b = fresh();
    b.apply_outcome(&attackers, &defenders, &Outcome::AttackerWins(vec![0]));
    assert_eq!(
        b.to_text(),
        [
            "_ S X _ _",
            "_ T _ _ _",
            "_ R _ _ _",
            "_ A _ _ _",
            "_ _ _ _ _",
            "_ _ _ _ _",
        ]
        .join("\n")
    );

    // An index that names no defender clears nothing
    let mut b = fresh();
    b.apply_outcome(&attackers, &defenders, &Outcome::AttackerWins(vec![7]));
    assert_eq!(b.to_text(), rows.join("\n"));
}

#[test]
fn truncate_keeps_what_hangs_on_a_root() {
    let mut b = board_of(
        &["_ S X _ Q", "_ T _ _ _", "_ _ _ K _", "_ J I _ _", "_ _ T _ _"],
        vec![Coordinate { x: 2, y: 0 }, Coordinate { x: 2, y: 4 }],
    );
    b.truncate();
    assert_eq!(
        b.to_text(),
        ["_ S X _ _", "_ T _ _ _", "_ _ _ _ _", "_ J I _ _", "_ _ T _ _"].join("\n")
    );
}
