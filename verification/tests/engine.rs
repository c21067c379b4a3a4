use go_gym::{
    count_liberties, find_group, has_liberties, resolve, validate, Board, Game, MoveError, Stone,
};

fn idx(n: usize, row: usize, col: usize) -> usize {
    row * n + col
}

fn board_from(n: usize, stones: &[(usize, usize, Stone)]) -> Board {
    let mut b = Board::new(n);
    for &(r, c, s) in stones {
        b.put(idx(n, r, c), s);
    }
    b
}

fn sorted(mut v: Vec<usize>) -> Vec<usize> {
    v.sort();
    v
}

fn cells_of(b: &Board) -> Vec<Stone> {
    let n = b.size();
    let mut out = Vec::new();
    for i in 0..n * n {
        out.push(b.at(i));
    }
    out
}

#[test]
fn new_board_is_empty() {
    let b = Board::new(4);
    assert_eq!(b.size(), 4);
    for i in 0..16 {
        assert_eq!(b.at(i), Stone::Empty);
    }
}

#[test]
fn find_group_of_empty_cell_is_empty() {
    let b = Board::new(3);
    assert!(find_group(&b, 4).is_empty());
}

#[test]
fn find_group_single_stone() {
    let b = board_from(3, &[(1, 1, Stone::Black)]);
    assert_eq!(sorted(find_group(&b, 4)), vec![4]);
}

#[test]
fn find_group_multi_stone_same_from_every_seed() {
    // An L-shaped black group: (0,0) (1,0) (1,1); a separate black stone (2,2).
    let n = 3;
    let b = board_from(
        n,
        &[
            (0, 0, Stone::Black),
            (1, 0, Stone::Black),
            (1, 1, Stone::Black),
            (2, 2, Stone::Black),
        ],
    );
    let expect = vec![idx(n, 0, 0), idx(n, 1, 0), idx(n, 1, 1)];
    assert_eq!(sorted(find_group(&b, idx(n, 0, 0))), expect);
    assert_eq!(sorted(find_group(&b, idx(n, 1, 0))), expect);
    assert_eq!(sorted(find_group(&b, idx(n, 1, 1))), expect);
    assert_eq!(sorted(find_group(&b, idx(n, 2, 2))), vec![idx(n, 2, 2)]);
}

#[test]
fn groups_partition_nonempty_cells() {
    // Mixed colors; the groups found from every non-empty seed must cover
    // each non-empty cell exactly once per color component.
    let n = 4;
    let b = board_from(
        n,
        &[
            (0, 0, Stone::Black),
            (0, 1, Stone::Black),
            (1, 1, Stone::Black),
            (0, 3, Stone::White),
            (1, 3, Stone::White),
            (3, 0, Stone::White),
            (3, 3, Stone::Black),
        ],
    );
    let mut seen: Vec<Vec<usize>> = Vec::new();
    for i in 0..n * n {
        if b.at(i) != Stone::Empty {
            let grp = sorted(find_group(&b, i));
            // The seed lies in its own group.
            assert!(grp.contains(&i));
            // Two groups are identical or share nothing.
            for other in &seen {
                let overlap = grp.iter().any(|x| other.contains(x));
                assert!(!overlap || *other == grp);
            }
            seen.push(grp);
        }
    }
    // No omission: every non-empty cell appears in some group.
    for i in 0..n * n {
        if b.at(i) != Stone::Empty {
            assert!(seen.iter().any(|grp| grp.contains(&i)));
        }
    }
}

#[test]
fn liberty_count_exact_values() {
    let n = 5;
    let center = board_from(n, &[(2, 2, Stone::Black)]);
    assert_eq!(count_liberties(&center, &find_group(&center, idx(n, 2, 2))), 4);
    let corner = board_from(n, &[(0, 0, Stone::Black)]);
    assert_eq!(count_liberties(&corner, &find_group(&corner, 0)), 2);
    let edge = board_from(n, &[(0, 2, Stone::Black)]);
    assert_eq!(count_liberties(&edge, &find_group(&edge, 2)), 3);
}

#[test]
fn liberty_count_multi_stone_group_counts_distinct_points_once() {
    // Two adjacent stones in the middle of a 5 by 5 board: six distinct
    // liberties, identical from either traversal seed.
    let n = 5;
    let b = board_from(n, &[(2, 2, Stone::Black), (2, 3, Stone::Black)]);
    let from_left = find_group(&b, idx(n, 2, 2));
    let from_right = find_group(&b, idx(n, 2, 3));
    assert_eq!(count_liberties(&b, &from_left), 6);
    assert_eq!(count_liberties(&b, &from_right), 6);
    assert_eq!(sorted(from_left), sorted(from_right));
}

#[test]
fn liberty_count_interior_stone_counts_through_boundary() {
    // A full row of black on a 3 by 3 board: the middle stone has no empty
    // direct neighbor in its column pattern, yet the group holds liberties.
    let n = 3;
    let b = board_from(
        n,
        &[(1, 0, Stone::Black), (1, 1, Stone::Black), (1, 2, Stone::Black)],
    );
    let grp = find_group(&b, idx(n, 1, 1));
    assert_eq!(grp.len(), 3);
    assert_eq!(count_liberties(&b, &grp), 6);
    assert!(has_liberties(&b, &grp));
}

#[test]
fn has_liberties_false_for_smothered_group() {
    let n = 3;
    let b = board_from(
        n,
        &[
            (0, 1, Stone::Black),
            (1, 0, Stone::Black),
            (1, 2, Stone::Black),
            (2, 1, Stone::Black),
            (1, 1, Stone::White),
        ],
    );
    let grp = find_group(&b, idx(n, 1, 1));
    assert!(!has_liberties(&b, &grp));
    assert_eq!(count_liberties(&b, &grp), 0);
}

#[test]
fn atomic_multi_group_capture() {
    // Black plays the center of a 3 by 3 board and takes the last liberty of
    // two separate white groups at once; both fall in the same resolution.
    let n = 3;
    let mut b = board_from(
        n,
        &[
            (0, 0, Stone::Black),
            (2, 0, Stone::Black),
            (0, 2, Stone::Black),
            (2, 2, Stone::Black),
            (1, 0, Stone::White),
            (1, 2, Stone::White),
        ],
    );
    b.put(idx(n, 1, 1), Stone::Black);
    let removed = resolve(&mut b, idx(n, 1, 1), Stone::Black);
    assert_eq!(sorted(removed), vec![idx(n, 1, 0), idx(n, 1, 2)]);
    assert_eq!(b.at(idx(n, 1, 0)), Stone::Empty);
    assert_eq!(b.at(idx(n, 1, 2)), Stone::Empty);
    assert_eq!(b.at(idx(n, 1, 1)), Stone::Black);
    assert_eq!(b.at(idx(n, 0, 0)), Stone::Black);
    assert_eq!(b.at(idx(n, 2, 2)), Stone::Black);
}

#[test]
fn suicide_rejected_and_board_unchanged() {
    // White moves into a point fully surrounded by live black stones and
    // captures nothing: rejected as suicide, the board untouched.
    let n = 3;
    let b = board_from(
        n,
        &[
            (0, 1, Stone::Black),
            (1, 0, Stone::Black),
            (1, 2, Stone::Black),
            (2, 1, Stone::Black),
        ],
    );
    let before = cells_of(&b);
    assert_eq!(validate(&b, idx(n, 1, 1), Stone::White), Err(MoveError::Suicide));
    assert_eq!(cells_of(&b), before);
}

#[test]
fn suicide_rescued_by_capture_is_accepted() {
    // The same surrounded point, but the move captures the black stone above
    // and thereby gains a liberty: accepted.
    let n = 3;
    let b = board_from(
        n,
        &[
            (0, 0, Stone::White),
            (0, 2, Stone::White),
            (0, 1, Stone::Black),
            (1, 0, Stone::Black),
            (1, 2, Stone::Black),
            (2, 1, Stone::Black),
        ],
    );
    assert_eq!(validate(&b, idx(n, 1, 1), Stone::White), Ok(()));
    let mut sim = b;
    sim.put(idx(n, 1, 1), Stone::White);
    let removed = resolve(&mut sim, idx(n, 1, 1), Stone::White);
    assert_eq!(sorted(removed), vec![idx(n, 0, 1)]);
    assert_eq!(sim.at(idx(n, 0, 1)), Stone::Empty);
    assert_eq!(sim.at(idx(n, 1, 1)), Stone::White);
}

#[test]
fn rejected_moves_never_change_the_turn() {
    let n = 3;
    let mut game = Game::new(n);
    assert_eq!(game.current_player(), Stone::Black);
    // Out of bounds.
    assert_eq!(game.submit_move(n * n), Err(MoveError::OutOfBounds));
    assert_eq!(game.current_player(), Stone::Black);
    // Legal move alternates.
    assert!(game.submit_move(idx(n, 0, 0)).is_ok());
    assert_eq!(game.current_player(), Stone::White);
    // Occupied cell is rejected and the turn stays with White.
    assert_eq!(game.submit_move(idx(n, 0, 0)), Err(MoveError::Occupied));
    assert_eq!(game.current_player(), Stone::White);
}

#[test]
fn legal_moves_alternate_exactly_once_each() {
    let n = 5;
    let mut game = Game::new(n);
    let moves = [(0, 0), (4, 4), (0, 1), (4, 3), (1, 0), (3, 4)];
    let mut expected = Stone::Black;
    for &(r, c) in moves.iter() {
        assert_eq!(game.current_player(), expected);
        assert!(game.submit_move_at(r, c).is_ok());
        expected = if expected == Stone::Black { Stone::White } else { Stone::Black };
    }
    assert_eq!(game.current_player(), expected);
}

#[test]
fn out_of_bounds_rejected_for_every_size() {
    for n in 1..=3usize {
        let mut game = Game::new(n);
        assert_eq!(game.submit_move(n * n), Err(MoveError::OutOfBounds));
        assert_eq!(game.submit_move(n * n + 7), Err(MoveError::OutOfBounds));
        assert_eq!(game.submit_move_at(n, 0), Err(MoveError::OutOfBounds));
        assert_eq!(game.submit_move_at(0, n), Err(MoveError::OutOfBounds));
        assert_eq!(game.current_player(), Stone::Black);
        for r in 0..n {
            for c in 0..n {
                assert_eq!(game.cell_state(r, c), Stone::Empty);
            }
        }
    }
}

#[test]
fn occupied_rejected_without_board_mutation() {
    let n = 2;
    let mut game = Game::new(n);
    assert!(game.submit_move_at(0, 0).is_ok());
    assert_eq!(game.submit_move_at(0, 0), Err(MoveError::Occupied));
    assert_eq!(game.cell_state(0, 0), Stone::Black);
    assert_eq!(game.cell_state(0, 1), Stone::Empty);
    assert_eq!(game.cell_state(1, 0), Stone::Empty);
    assert_eq!(game.cell_state(1, 1), Stone::Empty);
}

#[test]
fn no_move_accepted_after_session_ends() {
    let mut game = Game::new(3);
    game.end_session();
    assert_eq!(game.submit_move(0), Err(MoveError::GameNotInProgress));
    assert_eq!(game.current_player(), Stone::Black);
}

#[test]
fn space_sizes_match_the_grid() {
    let game = Game::new(5);
    assert_eq!(game.board_size(), 5);
    assert_eq!(game.action_space_size(), 25);
    assert_eq!(game.observation_space_size(), 25);
}

#[test]
fn end_to_end_capture_on_five_by_five() {
    // Black opens at (2,2); White surrounds it over four moves, Black filling
    // elsewhere in between; the fourth surrounding stone captures it.
    let n = 5;
    let mut game = Game::new(n);
    // Black (2,2).
    assert!(game.submit_move_at(2, 2).is_ok());
    let mut black_stones = 0;
    for r in 0..n {
        for c in 0..n {
            if game.cell_state(r, c) == Stone::Black {
                black_stones += 1;
                assert_eq!((r, c), (2, 2));
            } else {
                assert_eq!(game.cell_state(r, c), Stone::Empty);
            }
        }
    }
    assert_eq!(black_stones, 1);
    assert_eq!(game.current_player(), Stone::White);
    // White (2,1); Black filler (0,0); White (1,2); Black (0,4);
    // White (3,2); Black (4,0); White (2,3) captures.
    assert_eq!(game.submit_move_at(2, 1), Ok(vec![]));
    assert_eq!(game.submit_move_at(0, 0), Ok(vec![]));
    assert_eq!(game.submit_move_at(1, 2), Ok(vec![]));
    assert_eq!(game.submit_move_at(0, 4), Ok(vec![]));
    assert_eq!(game.submit_move_at(3, 2), Ok(vec![]));
    assert_eq!(game.submit_move_at(4, 0), Ok(vec![]));
    let removed = game.submit_move_at(2, 3).expect("the capturing move is legal");
    assert_eq!(removed, vec![idx(n, 2, 2)]);
    assert_eq!(game.cell_state(2, 2), Stone::Empty);
    assert_eq!(game.cell_state(2, 1), Stone::White);
    assert_eq!(game.cell_state(1, 2), Stone::White);
    assert_eq!(game.cell_state(3, 2), Stone::White);
    assert_eq!(game.cell_state(2, 3), Stone::White);
    assert_eq!(game.cell_state(0, 0), Stone::Black);
    assert_eq!(game.cell_state(0, 4), Stone::Black);
    assert_eq!(game.cell_state(4, 0), Stone::Black);
    assert_eq!(game.current_player(), Stone::Black);
}

#[test]
fn one_by_one_board_rejects_the_only_move_as_suicide() {
    // On a 1 by 1 board the single point has no liberty and no capture can
    // rescue it.
    let mut game = Game::new(1);
    assert_eq!(game.submit_move(0), Err(MoveError::Suicide));
    assert_eq!(game.cell_state(0, 0), Stone::Empty);
    assert_eq!(game.current_player(), Stone::Black);
}

#[test]
fn capture_keeps_the_rest_of_the_board_intact() {
    // A capture on a crowded board touches exactly the doomed group.
    let n = 4;
    let mut b = board_from(
        n,
        &[
            (0, 0, Stone::White),
            (0, 1, Stone::White),
            (1, 0, Stone::Black),
            (1, 1, Stone::Black),
            (0, 3, Stone::Black),
            (3, 3, Stone::White),
        ],
    );
    b.put(idx(n, 0, 2), Stone::Black);
    let removed = resolve(&mut b, idx(n, 0, 2), Stone::Black);
    assert_eq!(sorted(removed), vec![idx(n, 0, 0), idx(n, 0, 1)]);
    assert_eq!(b.at(idx(n, 0, 0)), Stone::Empty);
    assert_eq!(b.at(idx(n, 0, 1)), Stone::Empty);
    assert_eq!(b.at(idx(n, 1, 0)), Stone::Black);
    assert_eq!(b.at(idx(n, 1, 1)), Stone::Black);
    assert_eq!(b.at(idx(n, 0, 3)), Stone::Black);
    assert_eq!(b.at(idx(n, 3, 3)), Stone::White);
}
