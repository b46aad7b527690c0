use minesweeper::placement::random_draws;
use minesweeper::{display_digits, Board, BoardError, CellState, GameOutcome, RevealResult};

fn state(b: &Board, r: usize, c: usize) -> CellState {
    b.cell(r, c).unwrap().state
}

fn mine_count(b: &Board) -> usize {
    let n = b.size();
    let mut k = 0;
    for r in 0..n {
        for c in 0..n {
            if b.cell(r, c).unwrap().is_mine {
                k += 1;
            }
        }
    }
    k
}

fn brute_count(b: &Board, r: usize, c: usize) -> u8 {
    let n = b.size() as i64;
    let mut k = 0;
    for dr in -1i64..=1 {
        for dc in -1i64..=1 {
            if dr == 0 && dc == 0 {
                continue;
            }
            let (rr, cc) = (r as i64 + dr, c as i64 + dc);
            if rr >= 0 && rr < n && cc >= 0 && cc < n && b.cell(rr as usize, cc as usize).unwrap().is_mine {
                k += 1;
            }
        }
    }
    k
}

fn assert_counts_exact(b: &Board) {
    for r in 0..b.size() {
        for c in 0..b.size() {
            assert_eq!(b.cell(r, c).unwrap().adjacent_mine_count, brute_count(b, r, c), "cell ({}, {})", r, c);
        }
    }
}

fn revealed_count(b: &Board) -> usize {
    let mut k = 0;
    for r in 0..b.size() {
        for c in 0..b.size() {
            if state(b, r, c) == CellState::Revealed {
                k += 1;
            }
        }
    }
    k
}

#[test]
fn corner_mine_flood_reveals_all_safe_cells() {
    let mut b = Board::with_mines(4, &vec![(0, 0)]).unwrap();
    assert_eq!(b.cell(3, 3).unwrap().adjacent_mine_count, 0);
    assert_eq!(b.cell(1, 1).unwrap().adjacent_mine_count, 1);
    match b.reveal_cell(3, 3) {
        RevealResult::Revealed(ch) => assert_eq!(ch.len(), 15),
        other => panic!("unexpected {:?}", other),
    }
    assert_eq!(state(&b, 0, 0), CellState::Hidden);
    for r in 0..4 {
        for c in 0..4 {
            if (r, c) != (0, 0) {
                assert_eq!(state(&b, r, c), CellState::Revealed);
            }
        }
    }
    assert_eq!(b.outcome(), GameOutcome::InProgress);
}

#[test]
fn flag_budget_allows_wrong_flags_up_to_mine_total() {
    let mut b = Board::with_mines(4, &vec![(0, 0), (3, 3)]).unwrap();
    assert!(b.toggle_flag(1, 2));
    assert!(b.toggle_flag(2, 1));
    assert_eq!(b.flags_placed(), 2);
    assert_eq!(b.remaining_flags(), 0);
    assert!(!b.toggle_flag(2, 2));
    assert_eq!(b.flags_placed(), 2);
    assert_eq!(state(&b, 2, 2), CellState::Hidden);
    assert!(b.toggle_flag(1, 2));
    assert_eq!(b.flags_placed(), 1);
    assert_eq!(state(&b, 1, 2), CellState::Hidden);
}

#[test]
fn win_by_flag_after_reveal() {
    let mut b = Board::with_mines(4, &vec![(0, 0)]).unwrap();
    b.reveal_cell(3, 3);
    assert_eq!(b.outcome(), GameOutcome::InProgress);
    assert!(b.toggle_flag(0, 0));
    assert_eq!(b.outcome(), GameOutcome::Won);
}

#[test]
fn win_by_reveal_after_flag() {
    let mut b = Board::with_mines(4, &vec![(0, 0)]).unwrap();
    assert!(b.toggle_flag(0, 0));
    assert_eq!(b.outcome(), GameOutcome::InProgress);
    assert_eq!(b.reveal_cell(3, 3), RevealResult::Won);
    assert_eq!(b.outcome(), GameOutcome::Won);
}

#[test]
fn flags_alone_do_not_win() {
    let mut b = Board::with_mines(3, &vec![(0, 0)]).unwrap();
    assert!(b.toggle_flag(0, 0));
    assert_eq!(b.outcome(), GameOutcome::InProgress);
}

#[test]
fn revealing_a_mine_loses_and_shows_every_mine() {
    let mines = vec![(0, 0), (2, 3), (4, 1)];
    let mut b = Board::with_mines(5, &mines).unwrap();
    assert!(b.toggle_flag(4, 1));
    assert_eq!(b.reveal_cell(2, 3), RevealResult::Lost);
    assert_eq!(b.outcome(), GameOutcome::Lost);
    for &(r, c) in &mines {
        assert_eq!(state(&b, r, c), CellState::Revealed);
    }
    assert_eq!(b.flags_placed(), 0);
    assert_eq!(state(&b, 1, 1), CellState::Hidden);
}

#[test]
fn finished_game_ignores_further_moves() {
    let mut b = Board::with_mines(4, &vec![(1, 1)]).unwrap();
    assert_eq!(b.reveal_cell(1, 1), RevealResult::Lost);
    let before: Vec<_> = (0..16).map(|i| b.cell(i / 4, i % 4).unwrap()).collect();
    assert_eq!(b.reveal_cell(3, 3), RevealResult::Revealed(vec![]));
    assert!(!b.toggle_flag(3, 3));
    let after: Vec<_> = (0..16).map(|i| b.cell(i / 4, i % 4).unwrap()).collect();
    assert_eq!(before, after);
    assert_eq!(b.outcome(), GameOutcome::Lost);
    assert_eq!(b.flags_placed(), 0);
}

#[test]
fn won_game_ignores_further_moves() {
    let mut b = Board::with_mines(2, &vec![(0, 0)]).unwrap();
    b.reveal_cell(0, 1);
    b.reveal_cell(1, 0);
    b.reveal_cell(1, 1);
    assert!(b.toggle_flag(0, 0));
    assert_eq!(b.outcome(), GameOutcome::Won);
    assert!(!b.toggle_flag(0, 0));
    assert_eq!(state(&b, 0, 0), CellState::Flagged);
    assert_eq!(b.flags_placed(), 1);
}

#[test]
fn flood_stops_at_the_border_of_the_zero_region() {
    // a wall of mines down column 2 splits the board
    let mut b = Board::with_mines(5, &vec![(0, 2), (1, 2), (2, 2), (3, 2), (4, 2)]).unwrap();
    match b.reveal_cell(2, 0) {
        RevealResult::Revealed(mut ch) => {
            ch.sort();
            let mut want = Vec::new();
            for r in 0..5 {
                want.push((r, 0));
                want.push((r, 1));
            }
            want.sort();
            assert_eq!(ch, want);
        }
        other => panic!("unexpected {:?}", other),
    }
    for r in 0..5 {
        assert_eq!(state(&b, r, 3), CellState::Hidden);
        assert_eq!(state(&b, r, 4), CellState::Hidden);
    }
}

#[test]
fn nonzero_cell_reveals_only_itself() {
    let mut b = Board::with_mines(4, &vec![(0, 0)]).unwrap();
    assert_eq!(b.reveal_cell(1, 1), RevealResult::Revealed(vec![(1, 1)]));
    assert_eq!(revealed_count(&b), 1);
}

#[test]
fn flood_does_not_pass_through_flags() {
    let mut b = Board::with_mines(3, &vec![(0, 0)]).unwrap();
    assert!(b.toggle_flag(2, 1));
    b.reveal_cell(2, 2);
    assert_eq!(state(&b, 2, 1), CellState::Flagged);
    assert_eq!(state(&b, 1, 1), CellState::Revealed);
    assert_eq!(state(&b, 2, 0), CellState::Hidden);
    assert_eq!(state(&b, 1, 0), CellState::Hidden);
    assert_eq!(state(&b, 0, 0), CellState::Hidden);
}

#[test]
fn revealing_twice_or_a_flag_is_a_no_op() {
    let mut b = Board::with_mines(4, &vec![(0, 0)]).unwrap();
    assert!(b.toggle_flag(2, 2));
    assert_eq!(b.reveal_cell(2, 2), RevealResult::Revealed(vec![]));
    assert_eq!(state(&b, 2, 2), CellState::Flagged);
    b.reveal_cell(1, 1);
    assert_eq!(b.reveal_cell(1, 1), RevealResult::Revealed(vec![]));
    assert!(!b.toggle_flag(1, 1));
}

#[test]
fn off_board_moves_are_no_ops() {
    let mut b = Board::with_mines(3, &vec![(0, 0)]).unwrap();
    assert_eq!(b.reveal_cell(3, 0), RevealResult::Revealed(vec![]));
    assert!(!b.toggle_flag(0, 3));
    assert!(b.cell(3, 3).is_none());
    assert_eq!(revealed_count(&b), 0);
}

#[test]
fn seeded_board_has_exact_mines_and_counts() {
    let draws = vec![17, 3, 99, 0, 42, 5, 8, 61, 23, 7];
    let b = Board::from_draws(10, 10, &draws).unwrap();
    assert_eq!(mine_count(&b), 10);
    assert_counts_exact(&b);
    assert_eq!(b.outcome(), GameOutcome::InProgress);
    assert_eq!(b.flags_placed(), 0);
}

#[test]
fn from_draws_places_the_shuffled_cells() {
    // first step swaps position 0 with position 0 + 2 % 4 = 2
    let b = Board::from_draws(2, 1, &vec![2]).unwrap();
    assert!(b.cell(1, 0).unwrap().is_mine);
    assert_eq!(mine_count(&b), 1);
    // draws are taken modulo the cells left
    let b = Board::from_draws(2, 2, &vec![5, 1]).unwrap();
    // step 0: j = 0 + 5 % 4 = 1 -> [1, 0, 2, 3]; step 1: j = 1 + 1 % 3 = 2 -> [1, 2, 0, 3]
    assert!(b.cell(0, 1).unwrap().is_mine);
    assert!(b.cell(1, 0).unwrap().is_mine);
    assert_eq!(mine_count(&b), 2);
}

#[test]
fn random_board_has_exact_mines_and_counts() {
    for _ in 0..20 {
        let b = Board::new(10, 10).unwrap();
        assert_eq!(mine_count(&b), 10);
        assert_eq!(b.mine_total(), 10);
        assert_eq!(b.size(), 10);
        assert_counts_exact(&b);
    }
    let b = Board::new(3, 8).unwrap();
    assert_eq!(mine_count(&b), 8);
}

#[test]
fn random_draws_stay_below_the_cells_left() {
    for _ in 0..20 {
        let d = random_draws(9, 8);
        assert_eq!(d.len(), 8);
        for (k, x) in d.iter().enumerate() {
            assert!(*x < 9 - k);
        }
    }
}

#[test]
fn counts_include_diagonals_and_not_self() {
    let b = Board::with_mines(3, &vec![(0, 0), (0, 2), (2, 0), (2, 2), (1, 1)]).unwrap();
    assert_eq!(b.cell(1, 1).unwrap().adjacent_mine_count, 4);
    assert_eq!(b.cell(0, 1).unwrap().adjacent_mine_count, 3);
    assert_eq!(b.cell(0, 0).unwrap().adjacent_mine_count, 1);
    assert_counts_exact(&b);
}

#[test]
fn construction_errors() {
    assert_eq!(Board::new(0, 0).err(), Some(BoardError::EmptyBoard));
    assert_eq!(Board::new(4, 16).err(), Some(BoardError::TooManyMines));
    assert_eq!(Board::new(usize::MAX, 1).err(), Some(BoardError::BoardTooLarge));
    assert_eq!(Board::with_mines(3, &vec![(0, 3)]).err(), Some(BoardError::MineOutOfBounds));
    assert_eq!(Board::with_mines(3, &vec![(1, 1), (2, 0), (1, 1)]).err(), Some(BoardError::DuplicateMine));
    assert_eq!(Board::from_draws(3, 2, &vec![1]).err(), Some(BoardError::MissingDraws));
    assert!(Board::new(4, 15).is_ok());
    assert!(Board::new(1, 0).is_ok());
}

#[test]
fn no_mines_one_reveal_wins() {
    let mut b = Board::new(5, 0).unwrap();
    assert_eq!(b.reveal_cell(2, 2), RevealResult::Won);
    assert_eq!(revealed_count(&b), 25);
}

#[test]
fn flags_never_exceed_mines_and_never_sit_on_revealed_cells() {
    let mut b = Board::from_draws(6, 4, &vec![3, 14, 15, 9]).unwrap();
    for step in 0..200usize {
        let r = (step * 7) % 6;
        let c = (step * 11 + step / 6) % 6;
        if step % 3 == 0 {
            b.reveal_cell(r, c);
        } else {
            b.toggle_flag(r, c);
        }
        assert!(b.flags_placed() <= b.mine_total());
        let mut flagged = 0;
        for rr in 0..6 {
            for cc in 0..6 {
                if state(&b, rr, cc) == CellState::Flagged {
                    flagged += 1;
                }
            }
        }
        assert_eq!(flagged, b.flags_placed());
    }
}

#[test]
fn segmented_display_digits() {
    assert_eq!(display_digits(123), (1, 2, 3));
    assert_eq!(display_digits(7), (0, 0, 7));
    assert_eq!(display_digits(90), (0, 9, 0));
    assert_eq!(display_digits(1234), (12, 3, 4));
}
