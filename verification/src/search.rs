//! Iterative-deepening alpha-beta search over packed positions, with two
//! transposition-table generations, in-path cycle exclusion, cooperative
//! cancellation, and progressive per-depth reporting.

use vstd::prelude::*;

use std::collections::{HashMap, HashSet};

use crate::board2::{
    do_move_rel, lemma_do_move_rel_deterministic, lemma_packed_injective, Board2, Move,
};

verus! {

broadcast use vstd::std_specs::hash::group_hash_axioms;

/// The outcome of evaluating a position: its score, the line of moves to
/// the best leaf (accumulated child to root, so the root's own move is
/// last), and optionally the score of every immediate root move.
#[derive(Clone)]
pub struct SearchResult {
    pub score: i32,
    pub best_path: Vec<Move>,
    pub first_move_scores: Vec<(Move, i32)>,
}

/// What the engine reports after finishing one depth.
pub struct PartialSearchResult {
    pub depth: usize,
    pub nodes_searched: usize,
    pub transposition_table_size: usize,
    pub result: SearchResult,
}

/// The distinguished outcome of a cancelled search.
struct Interrupted;

/// The packed words of a sequence of positions, as a set.
pub open spec fn spec_history_set(s: Seq<Board2>) -> Set<u64> {
    Set::new(|k: u64| exists|i: int| 0 <= i < s.len() && #[trigger] s[i].packed() == k)
}

/// A legal line read back to front: the path's last move is a move of
/// `state`, and the rest of the path is a legal line of the position that
/// move yields.
pub open spec fn spec_line_ok(state: Board2, path: Seq<Move>) -> bool
    decreases path.len(),
{
    path.len() == 0 || {
        &&& state.spec_moves().contains(path.last())
        &&& exists|s2: Board2|
            #[trigger] do_move_rel(state, path.last(), s2) && spec_line_ok(s2, path.drop_last())
    }
}

/// The mutable state of one search invocation: the two transposition-table
/// generations, the in-progress set of positions on the active path, the
/// node counter, and the configuration.  It lives for one call of
/// `find_best_move` and is never shared.
pub(crate) struct SearchState {
    pub(crate) transposition_table: HashMap<u64, (i32, Move)>,
    pub(crate) next_transposition_table: HashMap<u64, (i32, Move)>,
    pub(crate) being_searched: HashSet<u64>,
    pub(crate) nodes_searched: usize,
    pub(crate) max_depth: usize,
    pub(crate) max_transposition_table_depth: usize,
    pub(crate) collect_first_move_scores: bool,
}

impl SearchState {
    /// A fresh search state: both table generations empty, a zero node
    /// counter and depth limit, the standard caching horizon, and the
    /// given game history seeding the exclusion set for the whole
    /// invocation.
    pub(crate) fn new(collect_first_move_scores: bool, history_states: Vec<Board2>) -> (r:
        SearchState)
        ensures
            r.being_searched@ == spec_history_set(history_states@),
            r.transposition_table@ == Map::<u64, (i32, Move)>::empty(),
            r.next_transposition_table@ == Map::<u64, (i32, Move)>::empty(),
            r.nodes_searched == 0,
            r.max_depth == 0,
            r.max_transposition_table_depth == 20,
            r.collect_first_move_scores == collect_first_move_scores,
    {
        let mut being_searched: HashSet<u64> = HashSet::new();
        let mut i: usize = 0;
        while i < history_states.len()
            invariant
                i <= history_states@.len(),
                forall|k: u64|
                    #[trigger] being_searched@.contains(k) <==> exists|q: int|
                        0 <= q < i && #[trigger] history_states@[q].packed() == k,
            decreases history_states@.len() - i,
        {
            let b = history_states[i];
            being_searched.insert(b.raw());
            proof {
                assert forall|k: u64| #[trigger] being_searched@.contains(k) implies exists|q: int|
                    0 <= q < i + 1 && #[trigger] history_states@[q].packed() == k by {
                    if k == b.packed() {
                        assert(history_states@[i as int].packed() == k);
                    } else {
                        let q = choose|q: int|
                            0 <= q < i && #[trigger] history_states@[q].packed() == k;
                        assert(history_states@[q].packed() == k);
                    }
                }
            }
            i = i + 1;
        }
        let r = SearchState {
            transposition_table: HashMap::new(),
            next_transposition_table: HashMap::new(),
            being_searched,
            nodes_searched: 0,
            max_depth: 0,
            max_transposition_table_depth: 20,
            collect_first_move_scores,
        };
        proof {
            assert(r.being_searched@ =~= spec_history_set(history_states@));
        }
        r
    }

    /// The depth limit of the current round.
    fn depth_limit(&self) -> (r: usize)
        ensures
            r == self.max_depth,
    {
        self.max_depth
    }

    /// Evaluate `state` at ply `depth` within the window `(alpha, beta)`.
    /// On a cancelled search the error propagates up through every active
    /// call without writing table entries for the unwound subtree; the
    /// caller discards the whole invocation state.
    fn alpha_beta<F: Fn() -> bool>(
        &mut self,
        state: Board2,
        depth: usize,
        alpha: i32,
        beta: i32,
        stop: &F,
    ) -> (r: Result<SearchResult, Interrupted>)
        requires
            state.wf(),
            call_requires(*stop, ()),
        ensures
            // the configuration and the read-generation table are never touched
            final(self).max_depth == old(self).max_depth,
            final(self).max_transposition_table_depth == old(self).max_transposition_table_depth,
            final(self).collect_first_move_scores == old(self).collect_first_move_scores,
            final(self).transposition_table@ == old(self).transposition_table@,
            // the written generation only gains entries
            old(self).next_transposition_table@.dom().subset_of(
                final(self).next_transposition_table@.dom(),
            ),
            final(self).nodes_searched >= old(self).nodes_searched,
            // the in-progress set is restored on the way out; at worst the
            // evaluated state itself is dropped when the caller had seeded it
            r is Ok ==> {
                ||| final(self).being_searched@ == old(self).being_searched@
                ||| final(self).being_searched@ == old(self).being_searched@.remove(state.packed())
            },
            (r is Ok && !old(self).being_searched@.contains(state.packed())) ==> {
                final(self).being_searched@ == old(self).being_searched@
            },
            // a predicate that can only cancel stops the search before any
            // mutation; one that can never cancel cannot interrupt it
            (forall|b: bool| call_ensures(*stop, (), b) ==> b) ==> {
                &&& r is Err
                &&& final(self).being_searched@ == old(self).being_searched@
                &&& final(self).nodes_searched == old(self).nodes_searched
                &&& final(self).next_transposition_table@ == old(self).next_transposition_table@
            },
            (forall|b: bool| call_ensures(*stop, (), b) ==> !b) ==> r is Ok,
            (match r {
                Result::Ok(res) => {
                    &&& -100000 <= res.score <= 100000
                    &&& spec_line_ok(state, res.best_path@)
                    &&& res.best_path@.len() + depth <= old(self).max_depth || res.best_path@.len()
                        == 0
                    &&& (depth >= old(self).max_depth || state.spec_ended()) ==> {
                        &&& res.score == state.spec_score()
                        &&& res.best_path@.len() == 0
                        &&& res.first_move_scores@.len() == 0
                        &&& final(self).next_transposition_table@ == old(
                            self,
                        ).next_transposition_table@
                        &&& final(self).being_searched@ == old(self).being_searched@
                        &&& final(self).nodes_searched == old(self).nodes_searched
                    }
                    &&& (depth < old(self).max_depth && !state.spec_ended() && (forall|
                        i: int,
                        s2: Board2,
                    |
                        0 <= i < state.spec_moves().len() && #[trigger] do_move_rel(
                            state,
                            state.spec_moves()[i],
                            s2,
                        ) ==> old(self).being_searched@.contains(s2.packed()))) ==> res.score == (
                    if state.turn() {
                        -100000int
                    } else {
                        100000int
                    }) && res.best_path@.len() == 0
                    &&& (depth < old(self).max_depth && !state.spec_ended() && (exists|
                        i: int,
                        s2: Board2,
                    |
                        0 <= i < state.spec_moves().len() && #[trigger] do_move_rel(
                            state,
                            state.spec_moves()[i],
                            s2,
                        ) && !old(self).being_searched@.contains(s2.packed())))
                        ==> res.best_path@.len() > 0
                    &&& res.best_path@.len() > 0 ==> {
                        &&& state.spec_moves().contains(res.best_path@.last())
                        &&& exists|s2: Board2|
                            do_move_rel(state, res.best_path@.last(), s2) && !old(
                                self,
                            ).being_searched@.contains(s2.packed())
                    }
                    &&& ({
                        &&& depth < old(self).max_depth
                        &&& !state.spec_ended()
                        &&& exists|i: int, s2: Board2|
                            0 <= i < state.spec_moves().len() && #[trigger] do_move_rel(
                                state,
                                state.spec_moves()[i],
                                s2,
                            ) && !old(self).being_searched@.contains(s2.packed())
                        &&& depth < old(self).max_transposition_table_depth
                        &&& final(self).next_transposition_table@.dom().len() < 30000000
                    }) ==> {
                        &&& final(self).next_transposition_table@.dom().contains(state.packed())
                        &&& final(self).next_transposition_table@[state.packed()] == (
                        res.score,
                        res.best_path@.last(),
                        )
                    }
                    &&& (depth > 0 || !old(self).collect_first_move_scores)
                        ==> res.first_move_scores@.len() == 0
                    &&& forall|x: int|
                        0 <= x < res.first_move_scores@.len() ==> state.spec_moves().contains(
                            (#[trigger] res.first_move_scores@[x]).0,
                        ) && -100000 <= res.first_move_scores@[x].1 <= 100000
                },
                Result::Err(_) => true,
            }),
        decreases self.max_depth - depth,
    {
        if (*stop)() {
            return Result::Err(Interrupted);
        }
        if depth >= self.max_depth || state.ended() {
            return Result::Ok(
                SearchResult {
                    score: state.score(),
                    best_path: Vec::new(),
                    first_move_scores: Vec::new(),
                },
            );
        }
        if self.nodes_searched < usize::MAX {
            self.nodes_searched = self.nodes_searched + 1;
        }
        let maximizing = state.maximizing();
        let moves = state.all_moves_with();
        let mut filtered: Vec<(Move, Board2)> = Vec::new();
        let mut i: usize = 0;
        while i < moves.len()
            invariant
                i <= moves@.len(),
                state.wf(),
                forall|q: int|
                    0 <= q < moves@.len() ==> state.move_ok(#[trigger] moves@[q].0) && do_move_rel(
                        state,
                        moves@[q].0,
                        moves@[q].1,
                    ),
                forall|q: int| 0 <= q < moves@.len() ==> #[trigger] moves@[q].0 == state.spec_moves()[q],
                moves@.len() == state.spec_moves().len(),
                filtered@.len() == 0 ==> forall|q: int|
                    0 <= q < i ==> self.being_searched@.contains(
                        (#[trigger] moves@[q]).1.packed(),
                    ),
                forall|x: int|
                    0 <= x < filtered@.len() ==> {
                        &&& state.spec_moves().contains(#[trigger] filtered@[x].0)
                        &&& state.move_ok(filtered@[x].0)
                        &&& do_move_rel(state, filtered@[x].0, filtered@[x].1)
                        &&& !self.being_searched@.contains(filtered@[x].1.packed())
                    },
            decreases moves@.len() - i,
        {
            let p = moves[i];
            if !self.being_searched.contains(&p.1.raw()) {
                filtered.push(p);
                proof {
                    assert(moves@[i as int].0 == state.spec_moves()[i as int]);
                    assert(state.spec_moves().contains(moves@[i as int].0));
                }
            }
            i = i + 1;
        }
        if filtered.len() == 0 {
            proof {
                // every successor is excluded: any related successor equals
                // the generated one, which the set contains
                assert forall|i2: int, s2: Board2|
                    0 <= i2 < state.spec_moves().len() && #[trigger] do_move_rel(
                        state,
                        state.spec_moves()[i2],
                        s2,
                    ) implies self.being_searched@.contains(s2.packed()) by {
                    assert(moves@[i2].0 == state.spec_moves()[i2]);
                    lemma_do_move_rel_deterministic(
                        state,
                        state.spec_moves()[i2],
                        s2,
                        moves@[i2].1,
                    );
                }
            }
            return Result::Ok(
                SearchResult {
                    score: if maximizing {
                        -100000
                    } else {
                        100000
                    },
                    best_path: Vec::new(),
                    first_move_scores: Vec::new(),
                },
            );
        }
        proof {
            // at least one successor is available, so the all-excluded
            // premise of the loss case cannot hold here
            let m0 = filtered@[0].0;
            let i0 = choose|i0: int|
                0 <= i0 < state.spec_moves().len() && state.spec_moves()[i0] == m0;
            assert(do_move_rel(state, state.spec_moves()[i0], filtered@[0].1));
            assert(!(forall|i2: int, s2: Board2|
                0 <= i2 < state.spec_moves().len() && #[trigger] do_move_rel(
                    state,
                    state.spec_moves()[i2],
                    s2,
                ) ==> self.being_searched@.contains(s2.packed())));
        }
        // move ordering: the previous generation's best move first, then by
        // immediate static score, best first for the side to move
        let prev_mv: Option<Move> = match self.transposition_table.get(&state.raw()) {
            Option::Some(t) => Option::Some(t.1),
            Option::None => Option::None,
        };
        let mut keyed: Vec<(i32, Move, Board2)> = Vec::new();
        let mut i: usize = 0;
        while i < filtered.len()
            invariant
                i <= filtered@.len(),
                state.wf(),
                forall|x: int|
                    0 <= x < filtered@.len() ==> {
                        &&& state.spec_moves().contains(#[trigger] filtered@[x].0)
                        &&& state.move_ok(filtered@[x].0)
                        &&& do_move_rel(state, filtered@[x].0, filtered@[x].1)
                        &&& !self.being_searched@.contains(filtered@[x].1.packed())
                    },
                forall|x: int|
                    0 <= x < keyed@.len() ==> {
                        &&& state.spec_moves().contains(#[trigger] keyed@[x].1)
                        &&& state.move_ok(keyed@[x].1)
                        &&& do_move_rel(state, keyed@[x].1, keyed@[x].2)
                        &&& !self.being_searched@.contains(keyed@[x].2.packed())
                    },
                keyed@.len() == i,
            decreases filtered@.len() - i,
        {
            let p = filtered[i];
            let sc = p.1.score();
            let base: i32 = if maximizing {
                -sc
            } else {
                sc
            };
            let key: i32 = match prev_mv {
                Option::Some(pm) => if p.0 == pm {
                    -10000000
                } else {
                    base
                },
                Option::None => base,
            };
            keyed.push((key, p.0, p.1));
            i = i + 1;
        }
        // insertion sort on the ordering key
        let mut si: usize = 1;
        while si < keyed.len()
            invariant
                state.wf(),
                keyed@.len() == filtered@.len(),
                forall|x: int|
                    0 <= x < keyed@.len() ==> {
                        &&& state.spec_moves().contains(#[trigger] keyed@[x].1)
                        &&& state.move_ok(keyed@[x].1)
                        &&& do_move_rel(state, keyed@[x].1, keyed@[x].2)
                        &&& !self.being_searched@.contains(keyed@[x].2.packed())
                    },
            decreases keyed@.len() - si,
        {
            let mut j: usize = si;
            while j > 0 && keyed[j - 1].0 > keyed[j].0
                invariant
                    j <= si < keyed@.len(),
                    keyed@.len() == filtered@.len(),
                    state.wf(),
                    forall|x: int|
                        0 <= x < keyed@.len() ==> {
                            &&& state.spec_moves().contains(#[trigger] keyed@[x].1)
                            &&& state.move_ok(keyed@[x].1)
                            &&& do_move_rel(state, keyed@[x].1, keyed@[x].2)
                            &&& !self.being_searched@.contains(keyed@[x].2.packed())
                        },
                decreases j,
            {
                let ghost kv = keyed@;
                let a = keyed[j - 1];
                let b = keyed[j];
                keyed.set(j - 1, b);
                keyed.set(j, a);
                proof {
                    assert forall|x: int| 0 <= x < keyed@.len() implies {
                        &&& state.spec_moves().contains(#[trigger] keyed@[x].1)
                        &&& state.move_ok(keyed@[x].1)
                        &&& do_move_rel(state, keyed@[x].1, keyed@[x].2)
                        &&& !self.being_searched@.contains(keyed@[x].2.packed())
                    } by {
                        if x == j - 1 {
                            assert(keyed@[x] == kv[j as int]);
                        } else if x == j {
                            assert(keyed@[x] == kv[j - 1]);
                        } else {
                            assert(keyed@[x] == kv[x]);
                        }
                    }
                }
                j = j - 1;
            }
            si = si + 1;
        }
        let ghost pre = *self;
        self.being_searched.insert(state.raw());
        let mut best_score: i32 = if maximizing {
            i32::MIN
        } else {
            i32::MAX
        };
        let mut best_path: Vec<Move> = Vec::new();
        let mut first_move_scores: Vec<(Move, i32)> = Vec::new();
        let mut al: i32 = alpha;
        let mut be: i32 = beta;
        let mut cutoff = false;
        let mut idx: usize = 0;
        while idx < keyed.len() && !cutoff
            invariant
                idx <= keyed@.len(),
                keyed@.len() > 0,
                state.wf(),
                call_requires(*stop, ()),
                !(forall|b: bool| call_ensures(*stop, (), b) ==> b),
                depth < pre.max_depth,
                pre.max_depth == old(self).max_depth,
                pre.max_transposition_table_depth == old(self).max_transposition_table_depth,
                pre.collect_first_move_scores == old(self).collect_first_move_scores,
                pre.being_searched@ == old(self).being_searched@,
                pre.transposition_table@ == old(self).transposition_table@,
                pre.next_transposition_table@ == old(self).next_transposition_table@,
                self.max_depth == pre.max_depth,
                self.max_transposition_table_depth == pre.max_transposition_table_depth,
                self.collect_first_move_scores == pre.collect_first_move_scores,
                self.being_searched@ == pre.being_searched@.insert(state.packed()),
                self.transposition_table@ == pre.transposition_table@,
                pre.next_transposition_table@.dom().subset_of(
                    self.next_transposition_table@.dom(),
                ),
                self.nodes_searched >= old(self).nodes_searched,
                forall|x: int|
                    0 <= x < keyed@.len() ==> {
                        &&& state.spec_moves().contains(#[trigger] keyed@[x].1)
                        &&& state.move_ok(keyed@[x].1)
                        &&& do_move_rel(state, keyed@[x].1, keyed@[x].2)
                        &&& !pre.being_searched@.contains(keyed@[x].2.packed())
                    },
                idx == 0 ==> best_score == (if maximizing {
                    i32::MIN
                } else {
                    i32::MAX
                }),
                maximizing == state.turn(),
                idx > 0 ==> best_path@.len() > 0,
                idx > 0 ==> -100000 <= best_score <= 100000,
                cutoff ==> idx > 0,
                spec_line_ok(state, best_path@),
                best_path@.len() + depth <= pre.max_depth,
                best_path@.len() > 0 ==> {
                    &&& state.spec_moves().contains(best_path@.last())
                    &&& exists|s2: Board2|
                        do_move_rel(state, best_path@.last(), s2)
                            && !pre.being_searched@.contains(s2.packed())
                },
                (depth > 0 || !pre.collect_first_move_scores) ==> first_move_scores@.len() == 0,
                forall|x: int|
                    0 <= x < first_move_scores@.len() ==> state.spec_moves().contains(
                        (#[trigger] first_move_scores@[x]).0,
                    ) && -100000 <= first_move_scores@[x].1 <= 100000,
            decreases keyed@.len() - idx,
        {
            let trip = keyed[idx];
            let one_move = trip.1;
            let next_state = trip.2;
            proof {
                assert(next_state.wf());
            }
            let sub = self.alpha_beta(next_state, depth + 1, al, be, stop);
            let res = match sub {
                Result::Err(e) => {
                    return Result::Err(e);
                },
                Result::Ok(res) => res,
            };
            proof {
                // the child left the in-progress set as it found it: its own
                // packed word was not in the set, so nothing was dropped
                assert(next_state.packed() != state.packed()) by {
                    assert(next_state.turn() != state.turn());
                    lemma_packed_injective(next_state, state);
                }
                assert(!(pre.being_searched@.insert(state.packed())).contains(
                    next_state.packed(),
                ));
                assert(self.being_searched@ =~= pre.being_searched@.insert(state.packed()));
            }
            if maximizing {
                if res.score > best_score {
                    best_score = res.score;
                    best_path = res.best_path;
                    let ghost sub_path = best_path@;
                    best_path.push(one_move);
                    proof {
                        let s2 = keyed@[idx as int].2;
                        assert(do_move_rel(state, best_path@.last(), s2) && !pre.being_searched@
                            .contains(s2.packed()));
                        assert(best_path@.drop_last() =~= sub_path);
                        assert(spec_line_ok(state, best_path@));
                    }
                }
                if res.score > al && (!self.collect_first_move_scores || depth > 0) {
                    al = res.score;
                }
            } else {
                if res.score < best_score {
                    best_score = res.score;
                    best_path = res.best_path;
                    let ghost sub_path = best_path@;
                    best_path.push(one_move);
                    proof {
                        let s2 = keyed@[idx as int].2;
                        assert(do_move_rel(state, best_path@.last(), s2) && !pre.being_searched@
                            .contains(s2.packed()));
                        assert(best_path@.drop_last() =~= sub_path);
                        assert(spec_line_ok(state, best_path@));
                    }
                }
                if res.score < be && (!self.collect_first_move_scores || depth > 0) {
                    be = res.score;
                }
            }
            if depth == 0 && self.collect_first_move_scores {
                first_move_scores.push((one_move, res.score));
            }
            if al >= be {
                cutoff = true;
            }
            idx = idx + 1;
        }
        // record this node in the next-generation table while within the
        // caching horizon and under the entry cap
        if depth < self.max_transposition_table_depth {
            if self.next_transposition_table.len() < 30000000 {
                let last_move = best_path[best_path.len() - 1];
                self.next_transposition_table.insert(state.raw(), (best_score, last_move));
            }
        }
        self.being_searched.remove(&state.raw());
        proof {
            assert(self.being_searched@ =~= old(self).being_searched@.remove(state.packed()));
            if !old(self).being_searched@.contains(state.packed()) {
                assert(self.being_searched@ =~= old(self).being_searched@);
            }
        }
        Result::Ok(SearchResult { score: best_score, best_path, first_move_scores })
    }

    /// Start the next iterative-deepening round: promote the freshly
    /// written table to the read generation, clear the other, raise the
    /// depth limit by one, and reset the node counter.
    fn next_depth(&mut self)
        requires
            old(self).max_depth < usize::MAX,
        ensures
            final(self).max_depth == old(self).max_depth + 1,
            final(self).max_transposition_table_depth == old(self).max_transposition_table_depth,
            final(self).collect_first_move_scores == old(self).collect_first_move_scores,
            final(self).being_searched@ == old(self).being_searched@,
            final(self).nodes_searched == 0,
            final(self).transposition_table@ == old(self).next_transposition_table@,
            final(self).next_transposition_table@ == Map::<u64, (i32, Move)>::empty(),
    {
        core::mem::swap(&mut self.transposition_table, &mut self.next_transposition_table);
        self.next_transposition_table.clear();
        self.max_depth = self.max_depth + 1;
        self.nodes_searched = 0;
    }

    fn nodes_count(&self) -> usize {
        self.nodes_searched
    }

    fn next_table_len(&self) -> usize {
        self.next_transposition_table.len()
    }
}

/// Search `state` by iterative deepening until a decisive score is found
/// or `stop` observes cancellation; report each completed depth through
/// `partial`.  The returned move, when there is one, is the root move of
/// the best line of the last fully completed depth: a legal move of
/// `state` whose resulting position does not recreate a seeded history
/// position.  A search cancelled from the start, a decided game, or a
/// position without moves returns no move; a search that cannot be
/// cancelled returns a move whenever an undecided position has a legal
/// move outside the seeded history.
pub fn find_best_move<F: Fn() -> bool, G: Fn(PartialSearchResult)>(
    state: Board2,
    stop: F,
    partial: G,
    collect_first_move_scores: bool,
    history_states: Vec<Board2>,
) -> (r: Option<Move>)
    requires
        state.wf(),
        call_requires(stop, ()),
        forall|p: PartialSearchResult| call_requires(partial, (p,)),
    ensures
        (forall|b: bool| call_ensures(stop, (), b) ==> b) ==> r is None,
        state.spec_ended() ==> r is None,
        state.spec_moves().len() == 0 ==> r is None,
        ((forall|b: bool| call_ensures(stop, (), b) ==> !b) && !state.spec_ended() && (exists|
            i: int,
            s2: Board2,
        |
            0 <= i < state.spec_moves().len() && #[trigger] do_move_rel(
                state,
                state.spec_moves()[i],
                s2,
            ) && !spec_history_set(history_states@).contains(s2.packed()))) ==> r is Some,
        (match r {
            Option::Some(m) => {
                &&& state.spec_moves().contains(m)
                &&& exists|s2: Board2|
                    do_move_rel(state, m, s2) && !spec_history_set(
                        history_states@,
                    ).contains(s2.packed())
            },
            Option::None => true,
        }),
{
    let ghost hist = history_states@;
    let mut search_state = SearchState::new(collect_first_move_scores, history_states);
    let mut result: Option<SearchResult> = None;
    let mut stopped = false;
    let mut done = false;
    while !stopped && !done && search_state.depth_limit() < usize::MAX
        invariant
            state.wf(),
            call_requires(stop, ()),
            forall|p: PartialSearchResult| call_requires(partial, (p,)),
            !stopped ==> forall|k: u64|
                k != state.packed() ==> (#[trigger] search_state.being_searched@.contains(k)
                    <==> spec_history_set(hist).contains(k)),
            (forall|b: bool| call_ensures(stop, (), b) ==> b) ==> result is None,
            (forall|b: bool| call_ensures(stop, (), b) ==> !b) ==> !stopped,
            done ==> result is Some,
            (!stopped && search_state.max_depth > 0) ==> result is Some,
            (match result {
                Option::Some(res) => {
                    &&& state.spec_ended() ==> res.best_path@.len() == 0
                    &&& state.spec_moves().len() == 0 ==> res.best_path@.len() == 0
                    &&& ((forall|b: bool| call_ensures(stop, (), b) ==> !b)
                        && !state.spec_ended() && (exists|i: int, s2: Board2|
                        0 <= i < state.spec_moves().len() && #[trigger] do_move_rel(
                            state,
                            state.spec_moves()[i],
                            s2,
                        ) && !spec_history_set(hist).contains(s2.packed())))
                        ==> res.best_path@.len() > 0
                    &&& res.best_path@.len() > 0 ==> {
                        &&& state.spec_moves().contains(res.best_path@.last())
                        &&& exists|s2: Board2|
                            do_move_rel(state, res.best_path@.last(), s2) && !spec_history_set(
                                hist,
                            ).contains(s2.packed())
                    }
                },
                Option::None => true,
            }),
        decreases usize::MAX - search_state.max_depth,
    {
        let ghost set_entry = search_state.being_searched@;
        search_state.next_depth();
        let depth = search_state.depth_limit();
        let ghost set_before = search_state.being_searched@;
        proof {
            assert(set_before == set_entry);
        }
        match search_state.alpha_beta(state, 0, i32::MIN, i32::MAX, &stop) {
            Result::Err(_) => {
                stopped = true;
            },
            Result::Ok(one_result) => {
                proof {
                    if one_result.best_path@.len() > 0 {
                        let m = one_result.best_path@.last();
                        assert(exists|s2: Board2|
                            do_move_rel(state, m, s2) && !set_before.contains(s2.packed()));
                        let s2 = choose|s2: Board2|
                            do_move_rel(state, m, s2) && !set_before.contains(s2.packed());
                        assert(s2.turn() != state.turn());
                        assert(s2.packed() != state.packed()) by {
                            lemma_packed_injective(s2, state);
                        }
                        assert(!spec_history_set(hist).contains(s2.packed())) by {
                            if spec_history_set(hist).contains(s2.packed()) {
                                assert(set_entry.contains(s2.packed()));
                            }
                        }
                    }
                    if (forall|b: bool| call_ensures(stop, (), b) ==> !b) && !state.spec_ended()
                        && (exists|i: int, s2: Board2|
                        0 <= i < state.spec_moves().len() && #[trigger] do_move_rel(
                            state,
                            state.spec_moves()[i],
                            s2,
                        ) && !spec_history_set(hist).contains(s2.packed())) {
                        // the witness move leads outside the engine's
                        // exclusion set as well, so a line was found
                        let (i, s2) = choose|i: int, s2: Board2|
                            0 <= i < state.spec_moves().len() && #[trigger] do_move_rel(
                                state,
                                state.spec_moves()[i],
                                s2,
                            ) && !spec_history_set(hist).contains(s2.packed());
                        assert(s2.turn() != state.turn());
                        assert(s2.packed() != state.packed()) by {
                            lemma_packed_injective(s2, state);
                        }
                        assert(!set_before.contains(s2.packed()));
                        assert(one_result.best_path@.len() > 0);
                    }
                    assert forall|k: u64| k != state.packed() implies (
                    search_state.being_searched@.contains(k) <==> spec_history_set(
                        hist,
                    ).contains(k)) by {
                        assert(set_entry.contains(k) <==> spec_history_set(hist).contains(k));
                    }
                }
                partial(
                    PartialSearchResult {
                        depth,
                        nodes_searched: search_state.nodes_count(),
                        transposition_table_size: search_state.next_table_len(),
                        result: one_result.clone(),
                    },
                );
                let win_found = one_result.score > 10000 || one_result.score < -10000;
                result = Some(one_result);
                if win_found {
                    done = true;
                }
            },
        }
    }
    match result {
        Option::Some(res) => {
            if res.best_path.len() > 0 {
                proof {
                    assert(res.best_path@[res.best_path@.len() - 1] == res.best_path@.last());
                }
                Option::Some(res.best_path[res.best_path.len() - 1])
            } else {
                Option::None
            }
        },
        Option::None => Option::None,
    }
}

} // verus!
