use std::cell::{Cell, RefCell};

use throne_engine::board2::{Board2, Move};
use throne_engine::{find_best_move, PartialSearchResult};

/// Plain full-width minimax over the same evaluation, for comparison.
fn minimax(b: Board2, remaining: u32) -> i32 {
    if remaining == 0 || b.ended() {
        return b.score();
    }
    let moves = b.all_moves();
    if moves.is_empty() {
        return if b.maximizing() { -100000 } else { 100000 };
    }
    let scores = moves.into_iter().map(|m| minimax(m, remaining - 1));
    if b.maximizing() {
        scores.max().unwrap()
    } else {
        scores.min().unwrap()
    }
}

#[test]
fn immediate_cancellation_returns_no_move() {
    let evaluated = Cell::new(false);
    let r = find_best_move(
        Board2::new_original(),
        || true,
        |_p: PartialSearchResult| {
            evaluated.set(true);
        },
        false,
        vec![],
    );
    assert!(r.is_none());
    assert!(!evaluated.get());
}

#[test]
fn cancellation_after_first_depth_returns_depth_one_move() {
    let reports = Cell::new(0usize);
    let state = Board2::new_original();
    let r = find_best_move(
        state,
        || reports.get() >= 1,
        |_p: PartialSearchResult| {
            reports.set(reports.get() + 1);
        },
        false,
        vec![],
    );
    assert_eq!(reports.get(), 1);
    let m = r.expect("depth one completed, so a move is owed");
    // at depth one the engine takes the child with the best static score
    let pairs = state.all_moves_with();
    let best = pairs
        .iter()
        .map(|p| p.1.score())
        .max()
        .expect("the initial layout has moves");
    assert_eq!(state.do_move(m).score(), best);
}

#[test]
fn reported_scores_match_full_width_minimax() {
    for state in [Board2::new_original(), Board2::new_with_king_inversed()] {
        let scores = RefCell::new(Vec::new());
        let r = find_best_move(
            state,
            || scores.borrow().len() >= 3,
            |p: PartialSearchResult| {
                scores.borrow_mut().push((p.depth, p.result.score));
            },
            false,
            vec![],
        );
        assert!(r.is_some());
        let scores = scores.into_inner();
        assert_eq!(scores.len(), 3);
        for (depth, score) in scores {
            assert_eq!(score, minimax(state, depth as u32), "depth {}", depth);
        }
    }
}

#[test]
fn child_scores_are_reported_when_requested() {
    let state = Board2::new_original();
    let first: RefCell<Vec<(Move, i32)>> = RefCell::new(Vec::new());
    let done = Cell::new(false);
    find_best_move(
        state,
        || done.get(),
        |p: PartialSearchResult| {
            *first.borrow_mut() = p.result.first_move_scores.clone();
            done.set(true);
        },
        true,
        vec![],
    );
    let first = first.into_inner();
    assert_eq!(first.len(), state.all_moves().len());
    // with score collection enabled, every root child is scored under the
    // full window: at depth one each entry is the child's static score
    for (m, score) in first {
        assert_eq!(score, state.do_move(m).score());
    }
}

#[test]
fn search_to_fixed_depth_terminates_on_cyclic_position() {
    // a sparse position with no progress forced: both kings and a pawn
    // apiece shuffle between mutually-reversing placements
    let state =
        Board2::from_positions(&vec![0, 1, 3, 4, 20, 21, 23, 24, 14, 10, 1]).unwrap();
    let reports = Cell::new(0usize);
    let r = find_best_move(
        state,
        || reports.get() >= 4,
        |_p: PartialSearchResult| {
            reports.set(reports.get() + 1);
        },
        false,
        vec![],
    );
    assert!(reports.get() >= 1);
    let _ = r;
}

#[test]
fn history_positions_are_never_recreated() {
    let state = Board2::new_original();
    // forbid the position the depth-one search would otherwise pick
    let pairs = state.all_moves_with();
    let mut best = pairs[0];
    for p in &pairs {
        if p.1.score() > best.1.score() {
            best = *p;
        }
    }
    let reports = Cell::new(0usize);
    let r = find_best_move(
        state,
        || reports.get() >= 1,
        |_p: PartialSearchResult| {
            reports.set(reports.get() + 1);
        },
        false,
        vec![best.1],
    );
    let m = r.expect("other moves remain");
    assert_ne!(state.do_move(m), best.1);
}

#[test]
fn no_move_is_offered_for_a_decided_game() {
    let state = Board2::from_positions(&vec![0, 1, 3, 4, 20, 21, 23, 24, 12, 22, 0]).unwrap();
    assert!(state.ended());
    let r = find_best_move(state, || false, |_p: PartialSearchResult| {}, false, vec![]);
    assert!(r.is_none());
}
