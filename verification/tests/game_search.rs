use std::collections::HashMap;

use hopcroft_karp::game::{minimax, BoardValues, GameState, Players};

const E: BoardValues = BoardValues::Empty;
const V: BoardValues = BoardValues::Vertical;
const H: BoardValues = BoardValues::Horizontal;
const X: BoardValues = BoardValues::Cross;

fn state(board: [[BoardValues; 3]; 3], turn: Players, last: (u8, u8)) -> GameState {
    GameState { board, current_turn: turn, last_played_pos: last }
}

#[test]
fn every_line_of_crosses_wins() {
    let lines: [[(usize, usize); 3]; 8] = [
        [(0, 0), (0, 1), (0, 2)],
        [(1, 0), (1, 1), (1, 2)],
        [(2, 0), (2, 1), (2, 2)],
        [(0, 0), (1, 0), (2, 0)],
        [(0, 1), (1, 1), (2, 1)],
        [(0, 2), (1, 2), (2, 2)],
        [(0, 0), (1, 1), (2, 2)],
        [(0, 2), (1, 1), (2, 0)],
    ];
    for line in lines {
        let mut board = [[E; 3]; 3];
        for (r, c) in line {
            board[r][c] = X;
        }
        assert!(state(board, Players::VertPlayer, (4, 4)).is_winning_pos());
        // One cross short of the line is no win.
        board[line[1].0][line[1].1] = V;
        assert!(!state(board, Players::VertPlayer, (4, 4)).is_winning_pos());
    }
}

#[test]
fn strokes_alone_do_not_win() {
    assert!(!state([[E; 3]; 3], Players::VertPlayer, (4, 4)).is_winning_pos());
    assert!(!state([[V; 3]; 3], Players::HorPlayer, (4, 4)).is_winning_pos());
    assert!(!state([[H; 3]; 3], Players::HorPlayer, (4, 4)).is_winning_pos());
    assert!(!state([[X, X, E], [X, E, X], [E, X, X]], Players::HorPlayer, (4, 4)).is_winning_pos());
}

#[test]
fn empty_board_has_nine_moves() {
    let next = state([[E; 3]; 3], Players::VertPlayer, (4, 4)).successor_states();
    assert_eq!(next.len(), 9);
    for (k, s) in next.iter().enumerate() {
        assert!(s.current_turn == Players::HorPlayer);
        assert_eq!(s.last_played_pos, ((k / 3) as u8, (k % 3) as u8));
        for r in 0..3 {
            for c in 0..3 {
                let expected = if 3 * r + c == k { V } else { E };
                assert!(s.board[r][c] == expected);
            }
        }
    }
}

#[test]
fn moves_skip_crosses_and_the_last_cell() {
    let s = state([[X, V, E], [H, X, E], [E, E, X]], Players::HorPlayer, (0, 1));
    let next = s.successor_states();
    let cells: Vec<(u8, u8)> = next.iter().map(|n| n.last_played_pos).collect();
    assert_eq!(cells, vec![(0, 2), (1, 0), (1, 2), (2, 0), (2, 1)]);
    assert!(next[0].board[0][2] == H);
    assert!(next[1].board[1][0] == X);
    assert!(next[2].board[1][2] == H);
    for n in &next {
        assert!(n.current_turn == Players::VertPlayer);
        assert!(n.board[0][0] == X);
        assert!(n.board[0][1] == V);
    }
}

#[test]
fn second_stroke_of_the_same_player_makes_a_cross() {
    let s = state([[V, X, X], [X, X, X], [X, X, X]], Players::VertPlayer, (4, 4));
    let next = s.successor_states();
    assert_eq!(next.len(), 1);
    assert!(next[0].board[0][0] == X);
}

#[test]
fn won_position_counts_against_the_player_to_move() {
    let board = [[X, X, X], [E, E, E], [E, E, E]];
    assert_eq!(minimax(&state(board, Players::VertPlayer, (0, 2)), i32::MIN, i32::MAX), -1);
    assert_eq!(minimax(&state(board, Players::HorPlayer, (0, 2)), i32::MIN, i32::MAX), 1);
    assert_eq!(minimax(&state(board, Players::VertPlayer, (0, 2)), 5, 7), -1);
}

#[test]
fn every_move_wins_at_once() {
    // Each of the three open cells completes its row.
    let board = [[X, X, V], [X, H, X], [V, X, X]];
    assert_eq!(minimax(&state(board, Players::VertPlayer, (4, 4)), i32::MIN, i32::MAX), 1);
    assert_eq!(minimax(&state(board, Players::HorPlayer, (4, 4)), i32::MIN, i32::MAX), -1);
}

#[test]
fn window_bounds_the_value() {
    let board = [[X, X, V], [X, H, X], [V, X, X]];
    assert_eq!(minimax(&state(board, Players::VertPlayer, (4, 4)), 5, i32::MAX), 5);
    assert_eq!(minimax(&state(board, Players::VertPlayer, (4, 4)), 0, i32::MAX), 1);
    assert_eq!(minimax(&state(board, Players::VertPlayer, (4, 4)), -3, 0), 1);
    assert_eq!(minimax(&state(board, Players::HorPlayer, (4, 4)), i32::MIN, -5), -5);
    assert_eq!(minimax(&state(board, Players::HorPlayer, (4, 4)), i32::MIN, 0), -1);
    assert_eq!(minimax(&state(board, Players::HorPlayer, (4, 4)), 0, 3), -1);
}

#[test]
fn position_that_is_not_won_has_a_move() {
    // Six crosses without a line leave three open cells; one may be barred.
    let board = [[X, X, V], [X, H, X], [E, X, X]];
    for last in [(0u8, 2u8), (1, 1), (2, 0), (4, 4)] {
        let s = state(board, Players::VertPlayer, last);
        assert!(!s.is_winning_pos());
        let expected = if last == (4, 4) { 3 } else { 2 };
        assert_eq!(s.successor_states().len(), expected);
    }
}

#[test]
fn winning_move_is_kept_when_later_moves_lose() {
    // The vertical player wins at once on (0, 2); every other move lets the
    // horizontal player win there.
    let board = [[X, X, V], [E, E, E], [E, E, E]];
    assert_eq!(minimax(&state(board, Players::VertPlayer, (4, 4)), i32::MIN, i32::MAX), 1);
}

#[test]
fn vertical_player_wins_at_once_on_six_crosses() {
    // Crossing (0, 2) completes the first row; the only other move, on
    // (2, 0), lets the horizontal player complete it.
    let board = [[X, X, H], [X, H, X], [E, X, X]];
    assert_eq!(minimax(&state(board, Players::VertPlayer, (1, 1)), i32::MIN, i32::MAX), 1);
}

#[test]
fn horizontal_player_keeps_the_smallest_value() {
    // The horizontal player wins at once on (0, 2).
    let board = [[X, X, H], [E, E, E], [E, E, E]];
    assert_eq!(minimax(&state(board, Players::HorPlayer, (4, 4)), i32::MIN, i32::MAX), -1);
    assert_eq!(minimax(&state(board, Players::HorPlayer, (4, 4)), -1, i32::MAX), -1);
}

#[test]
fn crossing_the_middle_wins_for_the_player_to_move() {
    // The middle cell holds a stroke; a move on it completes the middle row.
    let board = [[X, X, E], [X, V, X], [E, X, X]];
    assert_eq!(minimax(&state(board, Players::VertPlayer, (4, 4)), i32::MIN, i32::MAX), 1);
    assert_eq!(minimax(&state(board, Players::HorPlayer, (4, 4)), i32::MIN, i32::MAX), -1);
}

fn key(s: &GameState) -> (u32, bool, u8, u8) {
    let mut code: u32 = 0;
    for row in s.board.iter() {
        for cell in row.iter() {
            let digit = if *cell == E {
                0
            } else if *cell == V {
                1
            } else if *cell == H {
                2
            } else {
                3
            };
            code = code * 4 + digit;
        }
    }
    (code, s.current_turn == Players::VertPlayer, s.last_played_pos.0, s.last_played_pos.1)
}

/// The value by plain minimax, without any pruning.
fn plain_value(s: &GameState, seen: &mut HashMap<(u32, bool, u8, u8), i32>) -> i32 {
    if s.is_winning_pos() {
        return if s.current_turn == Players::VertPlayer { -1 } else { 1 };
    }
    if let Some(v) = seen.get(&key(s)) {
        return *v;
    }
    let vertical = s.current_turn == Players::VertPlayer;
    let mut best = if vertical { -1 } else { 1 };
    for next in s.successor_states() {
        let v = plain_value(&next, seen);
        best = if vertical { best.max(v) } else { best.min(v) };
    }
    seen.insert(key(s), best);
    best
}

#[test]
fn search_from_the_empty_board_gives_the_minimax_value() {
    let initial = state([[E; 3]; 3], Players::VertPlayer, (4, 4));
    let mut seen = HashMap::new();
    let expected = plain_value(&initial, &mut seen);
    assert!(expected == 1 || expected == -1);
    assert_eq!(minimax(&initial, i32::MIN, i32::MAX), expected);
    assert_eq!(minimax(&initial, -2, 2), expected);
}

#[test]
fn search_agrees_with_plain_minimax_along_random_games() {
    let mut seen = HashMap::new();
    let mut seed: u64 = 99;
    for _ in 0..30 {
        let mut s = state([[E; 3]; 3], Players::VertPlayer, (4, 4));
        let mut moves_made = 0;
        loop {
            // The search is compared from the fourth move on, where the
            // tree below the position is small.
            if moves_made >= 4 {
                let expected = plain_value(&s, &mut seen);
                assert_eq!(minimax(&s, i32::MIN, i32::MAX), expected);
            }
            if s.is_winning_pos() {
                break;
            }
            let mut next = s.successor_states();
            assert!(!next.is_empty());
            seed = seed.wrapping_mul(6364136223846793005).wrapping_add(1442695040888963407);
            let pick = ((seed >> 33) % next.len() as u64) as usize;
            s = next.swap_remove(pick);
            moves_made += 1;
        }
    }
}

#[test]
fn result_outside_the_window_bounds_the_value() {
    let mut seen = HashMap::new();
    let s = state([[X, X, V], [E, H, E], [E, V, E]], Players::HorPlayer, (2, 1));
    let exact = plain_value(&s, &mut seen);
    for (alfa, beta) in [(-1, 1), (-1, 0), (0, 1), (-5, -1), (1, 5), (-2, 2)] {
        let value = minimax(&s, alfa, beta);
        if alfa < value && value < beta {
            assert_eq!(value, exact);
        }
        if value <= alfa {
            assert!(exact <= value);
        }
        if value >= beta {
            assert!(exact >= value);
        }
    }
}
