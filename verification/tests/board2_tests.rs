use throne_engine::board::BoardState;
use throne_engine::board2::Board2;
use throne_engine::cell::CellState;

fn positions_of(b: Board2) -> Vec<u8> {
    b.positions()
}

#[test]
fn pack_round_trip_initial() {
    let b = Board2::new_original();
    let p = positions_of(b);
    assert_eq!(p.len(), 11);
    let b2 = Board2::from_positions(&p).unwrap();
    assert_eq!(b2, b);
}

#[test]
fn pack_round_trip_random_states() {
    for _ in 0..50 {
        let (state, player) = BoardState::random();
        let b = state.to_board2(player);
        let p = positions_of(b);
        let b2 = Board2::from_positions(&p).unwrap();
        assert_eq!(b2, b);
    }
}

#[test]
fn decoding_sorts_each_pawn_group() {
    // pawn groups arrive unsorted; decoding canonicalizes them
    let p = vec![4, 1, 3, 0, 24, 21, 23, 20, 2, 22, 1];
    let b = Board2::from_positions(&p).unwrap();
    assert_eq!(b, Board2::new_original());
}

#[test]
fn decoder_rejects_bad_encodings() {
    // wrong length
    assert!(Board2::from_positions(&vec![0, 1, 2, 3]).is_none());
    // off-board cell
    assert!(Board2::from_positions(&vec![25, 1, 3, 4, 20, 21, 23, 24, 2, 22, 1]).is_none());
    // duplicated cell
    assert!(Board2::from_positions(&vec![0, 0, 3, 4, 20, 21, 23, 24, 2, 22, 1]).is_none());
}

#[test]
fn win_detection_on_packed_state() {
    let w = Board2::from_positions(&vec![0, 1, 3, 4, 20, 21, 23, 24, 12, 22, 1]).unwrap();
    assert!(w.ended());
    assert_eq!(w.score(), 100000);
    let b = Board2::from_positions(&vec![0, 1, 3, 4, 20, 21, 23, 24, 2, 12, 0]).unwrap();
    assert!(b.ended());
    assert_eq!(b.score(), -100000);
    assert!(!Board2::new_original().ended());
}

#[test]
fn score_sums_positional_weights() {
    // white pawn on a 25-cell (6), two edge pawns (3 each), one corner (0);
    // both kings on 10-cells; black pawns on the back rank
    let b = Board2::from_positions(&vec![6, 1, 3, 4, 20, 21, 23, 24, 0, 22, 1]).unwrap();
    assert_eq!(b.score(), 25 + 3 + 3 + 0 + 10 - (0 + 3 + 3 + 0) - 10);
}

#[test]
fn moves_keep_canonical_form() {
    // invariants I1 and I2 after every generated move
    let mut stack = vec![Board2::new_original()];
    for _ in 0..3 {
        let mut next = Vec::new();
        for b in &stack {
            for (m, s) in b.all_moves_with() {
                let p = s.positions();
                for i in 0..10 {
                    for j in (i + 1)..10 {
                        assert_ne!(p[i], p[j]);
                    }
                }
                assert!(p[0] <= p[1] && p[1] <= p[2] && p[2] <= p[3]);
                assert!(p[4] <= p[5] && p[5] <= p[6] && p[6] <= p[7]);
                assert_eq!(s, b.do_move(m));
                next.push(s);
            }
        }
        stack = next;
        stack.truncate(8);
    }
}

#[test]
fn maximizing_flag_alternates() {
    let b = Board2::new_original();
    assert!(b.maximizing());
    let moves = b.all_moves();
    assert!(!moves.is_empty());
    for s in moves {
        assert!(!s.maximizing());
    }
}

#[test]
fn flatten_names_every_occupant() {
    let b = Board2::new_original();
    let flat = b.flatten();
    assert_eq!(flat[0], CellState::WhitePawn);
    assert_eq!(flat[1], CellState::WhitePawn);
    assert_eq!(flat[2], CellState::WhiteKing);
    assert_eq!(flat[3], CellState::WhitePawn);
    assert_eq!(flat[4], CellState::WhitePawn);
    for c in 5..20 {
        assert_eq!(flat[c], CellState::Empty);
    }
    assert_eq!(flat[20], CellState::BlackPawn);
    assert_eq!(flat[21], CellState::BlackPawn);
    assert_eq!(flat[22], CellState::BlackKing);
    assert_eq!(flat[23], CellState::BlackPawn);
    assert_eq!(flat[24], CellState::BlackPawn);
    let occ = b.flatten_to_bitarray();
    for c in 0..25 {
        let bit = (occ >> c) & 1 == 1;
        assert_eq!(bit, flat[c as usize] != CellState::Empty);
    }
}
