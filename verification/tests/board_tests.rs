use std::collections::HashSet;

use throne_engine::board::BoardState;
use throne_engine::board2::Board2;
use throne_engine::cell::CellState;
use throne_engine::player::Player;

fn empty_board() -> [[CellState; 5]; 5] {
    [[CellState::Empty; 5]; 5]
}

fn king_cell(b: &BoardState) -> Option<(usize, usize)> {
    for r in 0..5 {
        for c in 0..5 {
            if b.state[r][c] == CellState::WhiteKing {
                return Some((r, c));
            }
        }
    }
    None
}

#[test]
pub fn test_random() {
    for _ in 0..200 {
        let (state, player) = BoardState::random();
        let moves = state.next_moves(player);
        let state2 = state.to_board2(player);
        let moves2 = state2.all_moves();
        assert_eq!(moves.len(), moves2.len());
        let moves2set = moves2.iter().copied().collect::<HashSet<_>>();
        let moves1set = moves
            .iter()
            .map(|s| s.to_board2(player.opponent()))
            .collect::<HashSet<_>>();
        assert_eq!(moves1set, moves2set);
    }
}

#[test]
fn lone_king_has_eight_maximal_slides() {
    let mut st = empty_board();
    st[1][2] = CellState::WhiteKing;
    let board = BoardState { state: st };
    let moves = board.next_moves(Player::White);
    assert_eq!(moves.len(), 8);
    let dests: HashSet<(usize, usize)> = moves.iter().map(|m| king_cell(m).unwrap()).collect();
    let expected: HashSet<(usize, usize)> = [
        (0, 2),
        (4, 2),
        (1, 0),
        (1, 4),
        (0, 1),
        (0, 3),
        (3, 0),
        (3, 4),
    ]
    .into_iter()
    .collect();
    assert_eq!(dests, expected);
}

#[test]
fn pawn_may_not_rest_on_center() {
    let mut st = empty_board();
    st[1][2] = CellState::WhitePawn;
    st[3][2] = CellState::BlackPawn;
    let board = BoardState { state: st };
    let moves = board.next_moves(Player::White);
    // the downward slide would stop on the center and is excluded; the
    // other seven directions stay available
    assert_eq!(moves.len(), 7);
    for m in &moves {
        assert_eq!(m.state[2][2], CellState::Empty);
    }
}

#[test]
fn winner_is_king_on_center() {
    let mut st = empty_board();
    st[2][2] = CellState::WhiteKing;
    let board = BoardState { state: st };
    assert_eq!(board.winner(), Some(Player::White));
    assert_eq!(board.score(), 100000);
    let mut st2 = empty_board();
    st2[2][2] = CellState::BlackKing;
    let board2 = BoardState { state: st2 };
    assert_eq!(board2.winner(), Some(Player::Black));
    assert_eq!(board2.score(), -100000);
    assert_eq!(BoardState::new().winner(), None);
}

#[test]
fn decided_board_generates_no_moves() {
    let mut st = empty_board();
    st[2][2] = CellState::WhiteKing;
    st[0][0] = CellState::BlackPawn;
    let board = BoardState { state: st };
    assert!(board.next_moves(Player::Black).is_empty());
}

#[test]
fn initial_board_score_is_balanced() {
    assert_eq!(BoardState::new().score(), 0);
    assert_eq!(BoardState::new_with_king_inversed().score(), 0);
    assert_eq!(Board2::new_original().score(), 0);
    assert_eq!(Board2::new_with_king_inversed().score(), 0);
}

#[test]
fn to_board2_matches_packed_initial_layout() {
    let b = BoardState::new().to_board2(Player::White);
    assert_eq!(b, Board2::new_original());
    let k = BoardState::new_with_king_inversed().to_board2(Player::White);
    assert_eq!(k, Board2::new_with_king_inversed());
}
