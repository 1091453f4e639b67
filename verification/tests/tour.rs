use knights_tour::board::Board;
use knights_tour::moves::allowed_moves;
use knights_tour::moves::knight_moves;
use knights_tour::search::solve;

#[test]
fn knight_has_8_moves() {
    let all_moves = knight_moves(&(10, 10));
    assert_eq!(8, all_moves.len());
}

#[test]
fn knight_in_top_left_corner_has_2_moves() {
    let top_left_corner_moves = allowed_moves(&Board::new(5), &(0, 0));
    assert_eq!(2, top_left_corner_moves.len());
}

#[test]
fn knight_ignores_moves_to_visited_squares() {
    let mut board = Board::new(4);
    board.visit(&(0, 0));
    board.visit(&(2, 1));
    board.visit(&(1, 2));
    let moves = allowed_moves(&board, &(0, 0));
    assert_eq!(0, moves.len());
}

#[test]
fn knight_cannot_tour_on_3x3_board() {
    for i in 0..3 {
        for j in 0..3 {
            let mut board = Board::new(3);
            let initial_position = (i as i32, j as i32);
            board.visit(&initial_position);
            if let Some(_) = solve(&board, &vec![initial_position]) {
                panic!("Should have failed");
            }
        }
    }
}

#[test]
fn knight_can_tour_on_6x6_board() {
    for i in 0..6 {
        for j in 0..6 {
            let mut board = Board::new(6);
            let initial_position = (i as i32, j as i32);
            board.visit(&initial_position);
            solve(&board, &vec![initial_position]).expect("Should have passed");
        }
    }
}

#[test]
fn knight_moves_enumerates_offsets_in_canonical_order() {
    let all_moves = knight_moves(&(4, 4));
    let expected: Vec<(i32, i32)> =
        vec![(5, 6), (6, 5), (6, 3), (5, 2), (3, 2), (2, 3), (2, 5), (3, 6)];
    assert_eq!(expected, all_moves);
}

#[test]
fn corner_moves_are_exactly_the_two_inward_offsets() {
    let moves = allowed_moves(&Board::new(8), &(0, 0));
    assert_eq!(vec![(1, 2), (2, 1)], moves);
}

#[test]
fn board_reports_visited_squares() {
    let mut board = Board::new(5);
    assert_eq!(5, board.size());
    assert!(!board.visited(&(3, 4)));
    board.visit(&(3, 4));
    assert!(board.visited(&(3, 4)));
    assert!(!board.visited(&(4, 3)));
}

#[test]
fn tour_is_a_permutation_linked_by_knight_moves() {
    let size: usize = 6;
    let mut board = Board::new(size);
    let start = (0, 0);
    board.visit(&start);
    let tour = solve(&board, &vec![start]).expect("a 6x6 tour exists");
    assert_eq!(size * size, tour.len());
    assert_eq!(start, tour[0]);
    // every square appears exactly once
    let mut seen = vec![false; size * size];
    for &(x, y) in tour.iter() {
        assert!(0 <= x && (x as usize) < size && 0 <= y && (y as usize) < size);
        let idx = (x as usize) * size + (y as usize);
        assert!(!seen[idx], "square visited twice");
        seen[idx] = true;
    }
    assert!(seen.iter().all(|&v| v));
    // consecutive squares are a knight step apart
    for w in tour.windows(2) {
        let dx = (w[0].0 - w[1].0).abs();
        let dy = (w[0].1 - w[1].1).abs();
        assert!((dx == 1 && dy == 2) || (dx == 2 && dy == 1));
    }
}

#[test]
fn search_is_idempotent_for_identical_inputs() {
    for &(i, j) in &[(0, 0), (2, 3), (5, 5)] {
        let mut first_board = Board::new(6);
        first_board.visit(&(i, j));
        let first = solve(&first_board, &vec![(i, j)]);
        let mut second_board = Board::new(6);
        second_board.visit(&(i, j));
        let second = solve(&second_board, &vec![(i, j)]);
        assert_eq!(first, second);
    }
}

#[test]
fn interleaved_searches_match_sequential_baselines() {
    // baselines: each start square searched on its own
    let mut board_a = Board::new(5);
    board_a.visit(&(0, 0));
    let baseline_a = solve(&board_a, &vec![(0, 0)]);
    let mut board_b = Board::new(5);
    board_b.visit(&(2, 2));
    let baseline_b = solve(&board_b, &vec![(2, 2)]);
    // interleaved: both boards alive at once, searched back to back
    let mut board_a2 = Board::new(5);
    board_a2.visit(&(0, 0));
    let mut board_b2 = Board::new(5);
    board_b2.visit(&(2, 2));
    let again_b = solve(&board_b2, &vec![(2, 2)]);
    let again_a = solve(&board_a2, &vec![(0, 0)]);
    assert_eq!(baseline_a, again_a);
    assert_eq!(baseline_b, again_b);
}

#[test]
fn no_tour_is_reported_as_none_not_a_panic() {
    let mut board = Board::new(3);
    board.visit(&(1, 1));
    assert_eq!(None, solve(&board, &vec![(1, 1)]));
}
