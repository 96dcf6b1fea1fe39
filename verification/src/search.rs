//! Depth-bounded minimax search with alpha-beta pruning. The specification
//! `spec_minimax` is the plain, un-pruned minimax over the same ordered move
//! list; the executable search is proved to return exactly that value, and
//! the root is proved to pick exactly the move the un-pruned search picks.
//! The first player maximizes, the second minimizes; a mover without a
//! legal move passes, and a double pass ends the game at that node.

use vstd::prelude::*;
use crate::board::Board;
use crate::board::Disc;
use crate::board::in_b;
use crate::board::is_player;
use crate::board::opponent_of;
use crate::board::get_opponent;
use crate::moves::cell_score;
use crate::moves::spec_legal_moves;
use crate::moves::lm_matches;
use crate::moves::get_legal_moves;
use crate::moves::lemma_slm_props;
use crate::apply::spec_apply_move;
use crate::apply::make_move;
use crate::heuristic::AgentPlayer;
use crate::heuristic::spec_heuristic;
use crate::heuristic::lemma_heuristic_ok;
use crate::rational::Rat;
use crate::rational::rat_ok;
use crate::rational::rat_lt;
use crate::rational::rat_le;
use crate::rational::Score;
use crate::rational::Bound;
use crate::rational::RatBound;
use crate::rational::bnd_lt;
use crate::rational::bnd_le;
use crate::rational::score_lt;
use crate::rational::bound_lt_score;
use crate::rational::score_lt_bound;
use crate::rational::lemma_rat_le_trans;
use crate::rational::lemma_rat_le_lt_trans;
use crate::rational::lemma_rat_lt_le_trans;
use crate::rational::lemma_bnd_lt_le_trans;
use crate::rational::lemma_bnd_le_lt_trans;
use crate::rational::lemma_bnd_le_trans;

verus! {

/// The un-pruned minimax value of the position, for the mover `p` with `d`
/// plies of search left: the heuristic at depth 0 and at double-pass nodes,
/// a pass consuming one ply when the mover cannot move, and otherwise the
/// extremum over the ordered legal moves of the children's values.
pub open spec fn spec_minimax(b: Seq<Disc>, p: Disc, d: nat, cfg: AgentPlayer) -> Rat
    decreases d, 2int, 0int,
{
    if d == 0 {
        spec_heuristic(b, cfg)
    } else {
        let lm = spec_legal_moves(b, p);
        if lm.len() == 0 {
            if spec_legal_moves(b, opponent_of(p)).len() == 0 {
                spec_heuristic(b, cfg)
            } else {
                spec_minimax(b, opponent_of(p), (d - 1) as nat, cfg)
            }
        } else {
            spec_fold_children(b, p, d, cfg, lm.len() as int)
        }
    }
}

/// The value of the `k`-th child: the minimax value, one ply shallower and
/// with the opponent to move, of the board after the `k`-th legal move.
pub open spec fn spec_child_val(b: Seq<Disc>, p: Disc, d: nat, cfg: AgentPlayer, k: int) -> Rat
    decreases d, 0int, 0int,
{
    if d >= 1 {
        let lm = spec_legal_moves(b, p);
        spec_minimax(
            spec_apply_move(b, p, lm[k].0, lm[k].1), opponent_of(p), (d - 1) as nat, cfg)
    } else {
        spec_heuristic(b, cfg)
    }
}

/// The running extremum of the first `i` children's values, `i >= 1`:
/// maximum for the first player, minimum for the second, the earlier child
/// kept on ties.
pub open spec fn spec_fold_children(b: Seq<Disc>, p: Disc, d: nat, cfg: AgentPlayer, i: int)
    -> Rat
    decreases d, 1int, i,
{
    if i <= 1 {
        spec_child_val(b, p, d, cfg, 0)
    } else {
        let prev = spec_fold_children(b, p, d, cfg, i - 1);
        let v = spec_child_val(b, p, d, cfg, i - 1);
        if p == Disc::First {
            if rat_lt(prev, v) { v } else { prev }
        } else {
            if rat_lt(v, prev) { v } else { prev }
        }
    }
}

/// Every minimax value is a well-formed rational.
pub proof fn lemma_minimax_ok(b: Seq<Disc>, p: Disc, d: nat, cfg: AgentPlayer)
    ensures
        rat_ok(spec_minimax(b, p, d, cfg)),
    decreases d, 2int, 0int,
{
    if d == 0 {
        lemma_heuristic_ok(b, cfg);
    } else {
        let lm = spec_legal_moves(b, p);
        if lm.len() == 0 {
            if spec_legal_moves(b, opponent_of(p)).len() == 0 {
                lemma_heuristic_ok(b, cfg);
            } else {
                lemma_minimax_ok(b, opponent_of(p), (d - 1) as nat, cfg);
            }
        } else {
            lemma_fold_ok(b, p, d, cfg, lm.len() as int);
        }
    }
}

pub proof fn lemma_child_ok(b: Seq<Disc>, p: Disc, d: nat, cfg: AgentPlayer, k: int)
    ensures
        rat_ok(spec_child_val(b, p, d, cfg, k)),
    decreases d, 0int, 0int,
{
    if d >= 1 {
        let lm = spec_legal_moves(b, p);
        lemma_minimax_ok(
            spec_apply_move(b, p, lm[k].0, lm[k].1), opponent_of(p), (d - 1) as nat, cfg);
    } else {
        lemma_heuristic_ok(b, cfg);
    }
}

pub proof fn lemma_fold_ok(b: Seq<Disc>, p: Disc, d: nat, cfg: AgentPlayer, i: int)
    ensures
        rat_ok(spec_fold_children(b, p, d, cfg, i)),
    decreases d, 1int, i,
{
    if i <= 1 {
        lemma_child_ok(b, p, d, cfg, 0);
    } else {
        lemma_fold_ok(b, p, d, cfg, i - 1);
        lemma_child_ok(b, p, d, cfg, i - 1);
    }
}

/// The running extremum equals one of the children's values.
pub proof fn lemma_fold_elem(b: Seq<Disc>, p: Disc, d: nat, cfg: AgentPlayer, i: int)
    requires
        i >= 1,
    ensures
        exists|k: int| 0 <= k < i
            && spec_fold_children(b, p, d, cfg, i) == #[trigger] spec_child_val(b, p, d, cfg, k),
    decreases i,
{
    if i == 1 {
        assert(spec_fold_children(b, p, d, cfg, i) == spec_child_val(b, p, d, cfg, 0));
    } else {
        lemma_fold_elem(b, p, d, cfg, i - 1);
        if spec_fold_children(b, p, d, cfg, i) == spec_child_val(b, p, d, cfg, i - 1) {
        } else {
            assert(spec_fold_children(b, p, d, cfg, i) == spec_fold_children(b, p, d, cfg, i - 1));
        }
    }
}

/// For the maximizing player the running extremum dominates every child
/// value seen so far; for the minimizing player it is dominated by each.
pub proof fn lemma_fold_extremal(b: Seq<Disc>, p: Disc, d: nat, cfg: AgentPlayer, k: int, i: int)
    requires
        0 <= k < i,
    ensures
        p == Disc::First ==> rat_le(
            spec_child_val(b, p, d, cfg, k), spec_fold_children(b, p, d, cfg, i)),
        p != Disc::First ==> rat_le(
            spec_fold_children(b, p, d, cfg, i), spec_child_val(b, p, d, cfg, k)),
    decreases i,
{
    lemma_child_ok(b, p, d, cfg, k);
    lemma_fold_ok(b, p, d, cfg, i);
    if i <= 1 {
    } else {
        lemma_fold_ok(b, p, d, cfg, i - 1);
        lemma_child_ok(b, p, d, cfg, i - 1);
        if k < i - 1 {
            lemma_fold_extremal(b, p, d, cfg, k, i - 1);
            if p == Disc::First {
                lemma_rat_le_trans(
                    spec_child_val(b, p, d, cfg, k),
                    spec_fold_children(b, p, d, cfg, i - 1),
                    spec_fold_children(b, p, d, cfg, i));
            } else {
                lemma_rat_le_trans(
                    spec_fold_children(b, p, d, cfg, i),
                    spec_fold_children(b, p, d, cfg, i - 1),
                    spec_child_val(b, p, d, cfg, k));
            }
        }
    }
}

impl AgentPlayer {
    /// Alpha-beta search from the mover's point of view. The result is
    /// exact whenever it falls strictly inside the (alpha, beta) window;
    /// a result at or below alpha bounds the true value from above, one at
    /// or above beta bounds it from below (fail-soft pruning).
    #[verifier::rlimit(100)]
    pub fn min_max_search(
        &self,
        player: Disc,
        chessboard: &Board,
        depth: u32,
        alpha: Bound,
        beta: Bound,
    ) -> (r: Score)
        requires
            chessboard.wf(),
            is_player(player),
            alpha.wf(),
            beta.wf(),
            bnd_lt(alpha@, beta@),
        ensures
            r.wf(),
            bnd_le(RatBound::Fin(r@), alpha@) ==> rat_le(
                spec_minimax(chessboard@, player, depth as nat, *self), r@),
            bnd_le(beta@, RatBound::Fin(r@)) ==> rat_le(
                r@, spec_minimax(chessboard@, player, depth as nat, *self)),
            bnd_lt(alpha@, RatBound::Fin(r@)) && bnd_lt(RatBound::Fin(r@), beta@)
                ==> r@ == spec_minimax(chessboard@, player, depth as nat, *self),
        decreases depth,
    {
        let ghost bb = chessboard@;
        let ghost d = depth as nat;
        let ghost cfg = *self;
        if depth == 0 {
            let h = self.get_heuristic(chessboard);
            return h;
        }
        let legal_moves = get_legal_moves(player, chessboard);
        let opponent = get_opponent(player);
        if legal_moves.len() == 0 {
            let next_legal_moves = get_legal_moves(opponent, chessboard);
            if next_legal_moves.len() == 0 {
                let h = self.get_heuristic(chessboard);
                return h;
            }
            let r = self.min_max_search(opponent, chessboard, depth - 1, alpha, beta);
            return r;
        }
        let ghost lm = spec_legal_moves(bb, player);
        let n = legal_moves.len();
        let mut best: Option<Score> = Option::None;
        let mut cut: bool = false;
        let mut i: usize = 0;
        if player == Disc::First {
            let mut alpha_c: Bound = alpha;
            while i < n && !cut
                invariant
                    chessboard.wf(),
                    bb == chessboard@,
                    cfg == *self,
                    d == depth as nat,
                    depth >= 1,
                    player == Disc::First,
                    opponent == Disc::Second,
                    alpha.wf(),
                    beta.wf(),
                    bnd_lt(alpha@, beta@),
                    lm == spec_legal_moves(bb, player),
                    lm_matches(legal_moves@, lm),
                    forall|k: int| 0 <= k < legal_moves@.len()
                        ==> (#[trigger] legal_moves@[k]).0.0 < 8 && legal_moves@[k].0.1 < 8
                            && legal_moves@[k].1 as int == cell_score(
                                bb, player,
                                legal_moves@[k].0.0 as int, legal_moves@[k].0.1 as int)
                            && legal_moves@[k].1 > 0,
                    n == legal_moves@.len(),
                    1 <= n,
                    i <= n,
                    alpha_c.wf(),
                    !cut ==> bnd_lt(alpha_c@, beta@),
                    bnd_le(alpha@, alpha_c@),
                    i == 0 ==> best is None && !cut && alpha_c == alpha,
                    i >= 1 ==> best is Some && (best->Some_0).wf(),
                    i >= 1 && !cut ==> {
                        let e = (best->Some_0)@;
                        (forall|k: int| 0 <= k < i
                            ==> rat_le(#[trigger] spec_child_val(bb, player, d, cfg, k), e))
                        && (bnd_lt(alpha@, RatBound::Fin(e))
                            ==> e == spec_fold_children(bb, player, d, cfg, i as int))
                        && bnd_lt(RatBound::Fin(e), beta@)
                        && bnd_le(RatBound::Fin(e), alpha_c@)
                        && (bnd_le(alpha_c@, alpha@) || bnd_le(alpha_c@, RatBound::Fin(e)))
                    },
                    cut ==> i >= 1 && {
                        let e = (best->Some_0)@;
                        bnd_le(beta@, RatBound::Fin(e))
                        && rat_le(e, spec_child_val(bb, player, d, cfg, i - 1))
                    },
                decreases n - i,
            {
                let player_move = legal_moves[i].0;
                let mut next_chessboard = chessboard.duplicate();
                make_move(player, player_move, &mut next_chessboard);
                let score = self.min_max_search(
                    opponent, &next_chessboard, depth - 1, alpha_c, beta);
                proof {
                    assert(next_chessboard@ == spec_apply_move(
                        bb, player, lm[i as int].0, lm[i as int].1));
                    assert(spec_child_val(bb, player, d, cfg, i as int)
                        == spec_minimax(next_chessboard@, opponent, (depth - 1) as nat, cfg));
                    lemma_child_ok(bb, player, d, cfg, i as int);
                }
                let ghost cvi = spec_child_val(bb, player, d, cfg, i as int);
                let ghost e_old = best;
                let ghost a_old = alpha_c;
                match best {
                    Option::None => { best = Option::Some(score); },
                    Option::Some(e0) => {
                        if score_lt(&e0, &score) {
                            best = Option::Some(score);
                        }
                    },
                }
                if bound_lt_score(&alpha_c, &score) {
                    alpha_c = Bound::Fin(score);
                }
                if !score_lt_bound(&score, &beta) {
                    cut = true;
                }
                proof {
                    let e_new = (best->Some_0)@;
                    let sc = score@;
                    if cut {
                        // score >= beta: the new best is this child's result
                        if i >= 1 && e_old is Some {
                            let e0 = (e_old->Some_0)@;
                            assert(bnd_lt(RatBound::Fin(e0), beta@));
                            lemma_bnd_lt_le_trans(
                                RatBound::Fin(e0), beta@, RatBound::Fin(sc));
                            assert(rat_lt(e0, sc));
                        }
                        assert(e_new == sc);
                        assert(rat_le(sc, cvi));
                    } else {
                        // score < beta
                        assert(bnd_lt(RatBound::Fin(sc), beta@));
                        if i == 0 {
                            assert(e_new == sc);
                            if bnd_le(RatBound::Fin(sc), a_old@) {
                                assert(rat_le(cvi, sc));
                            } else {
                                assert(bnd_lt(a_old@, RatBound::Fin(sc)));
                                assert(sc == cvi);
                            }
                            assert(spec_fold_children(bb, player, d, cfg, 1) == cvi);
                        } else {
                            let e0 = (e_old->Some_0)@;
                            assert(rat_ok(e0) && rat_ok(sc) && rat_ok(cvi));
                            // relate the child's result to its true value
                            if bnd_le(RatBound::Fin(sc), a_old@) {
                                // fail-low child: its true value is at most the result
                                assert(rat_le(cvi, sc));
                            } else {
                                assert(bnd_lt(a_old@, RatBound::Fin(sc)));
                                assert(sc == cvi);
                            }
                            if rat_lt(e0, sc) {
                                assert(e_new == sc);
                            } else {
                                assert(e_new == e0);
                                assert(rat_le(sc, e0));
                            }
                            // every child seen so far is dominated by the new best
                            assert forall|k: int| 0 <= k < i + 1
                                implies rat_le(
                                    #[trigger] spec_child_val(bb, player, d, cfg, k), e_new) by {
                                lemma_child_ok(bb, player, d, cfg, k);
                                if k < i {
                                    assert(rat_le(spec_child_val(bb, player, d, cfg, k), e0));
                                    if rat_lt(e0, sc) {
                                        lemma_rat_le_trans(
                                            spec_child_val(bb, player, d, cfg, k), e0, sc);
                                    }
                                } else {
                                    // k == i
                                    if bnd_le(RatBound::Fin(sc), a_old@) {
                                        if rat_lt(e0, sc) {
                                        } else {
                                            lemma_rat_le_trans(cvi, sc, e0);
                                        }
                                    } else {
                                        if rat_lt(e0, sc) {
                                        } else {
                                            lemma_rat_le_trans(cvi, sc, e0);
                                        }
                                    }
                                }
                            }
                            // the fold tracks the best exactly once it beats alpha
                            if bnd_lt(alpha@, RatBound::Fin(e_new)) {
                                lemma_fold_ok(bb, player, d, cfg, i as int);
                                let f_old = spec_fold_children(bb, player, d, cfg, i as int);
                                let f_new = spec_fold_children(bb, player, d, cfg, i + 1);
                                assert(f_new == if rat_lt(f_old, cvi) { cvi } else { f_old });
                                if rat_lt(e0, sc) {
                                    // the best was improved by this child
                                    assert(e_new == sc);
                                    if bnd_le(RatBound::Fin(sc), a_old@) {
                                        // impossible unless it stays under alpha
                                        if bnd_le(a_old@, RatBound::Fin(e0)) {
                                            lemma_bnd_le_trans(
                                                RatBound::Fin(sc), a_old@, RatBound::Fin(e0));
                                            assert(rat_le(sc, e0));
                                            assert(false);
                                        } else {
                                            assert(bnd_le(a_old@, alpha@));
                                            lemma_bnd_le_trans(
                                                RatBound::Fin(sc), a_old@, alpha@);
                                            assert(false);
                                        }
                                    }
                                    assert(sc == cvi);
                                    if bnd_lt(alpha@, RatBound::Fin(e0)) {
                                        assert(e0 == f_old);
                                        assert(rat_lt(f_old, cvi));
                                        assert(f_new == cvi);
                                    } else {
                                        // the old best never rose above alpha, so every
                                        // earlier child value sits at or below it
                                        assert(bnd_le(RatBound::Fin(e0), alpha@));
                                        lemma_fold_elem(bb, player, d, cfg, i as int);
                                        let k0 = choose|k: int| 0 <= k < i
                                            && f_old == #[trigger] spec_child_val(
                                                bb, player, d, cfg, k);
                                        assert(rat_le(f_old, e0));
                                        assert(rat_lt(e0, sc));
                                        lemma_rat_le_lt_trans(f_old, e0, sc);
                                        assert(f_new == cvi);
                                    }
                                } else {
                                    // best unchanged; this child cannot beat it
                                    assert(e_new == e0);
                                    assert(e0 == f_old);
                                    assert(rat_le(cvi, e0));
                                    assert(!rat_lt(f_old, cvi));
                                    assert(f_new == f_old);
                                }
                            }
                        }
                    }
                    // the raised alpha threshold keeps its place in the window
                    if alpha_c@ != a_old@ {
                        assert(alpha_c@ == RatBound::Fin(sc));
                        assert(bnd_lt(a_old@, RatBound::Fin(sc)));
                        lemma_bnd_le_lt_trans(alpha@, a_old@, RatBound::Fin(sc));
                    }
                    assert(bnd_le(alpha@, alpha_c@));
                    if !cut {
                        let e_new = (best->Some_0)@;
                        assert(bnd_lt(RatBound::Fin(sc), beta@));
                        if i == 0 {
                            assert(e_new == sc);
                            if bnd_lt(a_old@, RatBound::Fin(sc)) {
                                assert(alpha_c@ == RatBound::Fin(sc));
                            } else {
                                assert(alpha_c == a_old);
                                assert(bnd_le(RatBound::Fin(sc), a_old@));
                            }
                        } else {
                            let e0 = (e_old->Some_0)@;
                            assert(bnd_le(RatBound::Fin(e0), a_old@));
                            if bnd_lt(a_old@, RatBound::Fin(sc)) {
                                assert(alpha_c@ == RatBound::Fin(sc));
                                if rat_lt(e0, sc) {
                                    assert(e_new == sc);
                                } else {
                                    lemma_bnd_le_lt_trans(
                                        RatBound::Fin(e0), a_old@, RatBound::Fin(sc));
                                    assert(rat_lt(e0, sc));
                                    assert(false);
                                }
                                assert(bnd_le(RatBound::Fin(e_new), alpha_c@));
                                assert(bnd_le(alpha_c@, RatBound::Fin(e_new)));
                            } else {
                                assert(alpha_c == a_old);
                                assert(bnd_le(RatBound::Fin(sc), a_old@));
                                if rat_lt(e0, sc) {
                                    assert(e_new == sc);
                                } else {
                                    assert(e_new == e0);
                                }
                                assert(bnd_le(RatBound::Fin(e_new), alpha_c@));
                                if bnd_le(a_old@, alpha@) {
                                } else {
                                    assert(bnd_le(a_old@, RatBound::Fin(e0)));
                                    if rat_lt(e0, sc) {
                                        lemma_bnd_le_trans(
                                            a_old@, RatBound::Fin(e0), RatBound::Fin(sc));
                                    }
                                    assert(bnd_le(alpha_c@, RatBound::Fin(e_new)));
                                }
                            }
                        }
                        assert(bnd_lt(alpha_c@, beta@));
                    }
                }
                i += 1;
            }
            let r = match best {
                Option::Some(s) => s,
                Option::None => Score::zero(),
            };
            proof {
                let v = spec_minimax(bb, player, d, cfg);
                assert(v == spec_fold_children(bb, player, d, cfg, n as int));
                lemma_minimax_ok(bb, player, d, cfg);
                let e = r@;
                if cut {
                    lemma_child_ok(bb, player, d, cfg, i - 1);
                    lemma_fold_extremal(bb, player, d, cfg, i - 1, n as int);
                    lemma_rat_le_trans(
                        e, spec_child_val(bb, player, d, cfg, i - 1), v);
                    if bnd_le(RatBound::Fin(e), alpha@) {
                        lemma_bnd_le_trans(beta@, RatBound::Fin(e), alpha@);
                        assert(false);
                    }
                } else {
                    assert(i == n);
                    if bnd_lt(alpha@, RatBound::Fin(e)) {
                        assert(e == v);
                    } else {
                        assert(bnd_le(RatBound::Fin(e), alpha@));
                        lemma_fold_elem(bb, player, d, cfg, n as int);
                        let k0 = choose|k: int| 0 <= k < n
                            && v == #[trigger] spec_child_val(bb, player, d, cfg, k);
                        assert(rat_le(v, e));
                        if bnd_le(beta@, RatBound::Fin(e)) {
                            lemma_bnd_le_trans(beta@, RatBound::Fin(e), alpha@);
                            assert(false);
                        }
                    }
                }
            }
            r
        } else {
            let mut beta_c: Bound = beta;
            while i < n && !cut
                invariant
                    chessboard.wf(),
                    bb == chessboard@,
                    cfg == *self,
                    d == depth as nat,
                    depth >= 1,
                    player == Disc::Second,
                    opponent == Disc::First,
                    alpha.wf(),
                    beta.wf(),
                    bnd_lt(alpha@, beta@),
                    lm == spec_legal_moves(bb, player),
                    lm_matches(legal_moves@, lm),
                    forall|k: int| 0 <= k < legal_moves@.len()
                        ==> (#[trigger] legal_moves@[k]).0.0 < 8 && legal_moves@[k].0.1 < 8
                            && legal_moves@[k].1 as int == cell_score(
                                bb, player,
                                legal_moves@[k].0.0 as int, legal_moves@[k].0.1 as int)
                            && legal_moves@[k].1 > 0,
                    n == legal_moves@.len(),
                    1 <= n,
                    i <= n,
                    beta_c.wf(),
                    !cut ==> bnd_lt(alpha@, beta_c@),
                    bnd_le(beta_c@, beta@),
                    i == 0 ==> best is None && !cut && beta_c == beta,
                    i >= 1 ==> best is Some && (best->Some_0).wf(),
                    i >= 1 && !cut ==> {
                        let e = (best->Some_0)@;
                        (forall|k: int| 0 <= k < i
                            ==> rat_le(e, #[trigger] spec_child_val(bb, player, d, cfg, k)))
                        && (bnd_lt(RatBound::Fin(e), beta@)
                            ==> e == spec_fold_children(bb, player, d, cfg, i as int))
                        && bnd_lt(alpha@, RatBound::Fin(e))
                        && bnd_le(beta_c@, RatBound::Fin(e))
                        && (bnd_le(beta@, beta_c@) || bnd_le(RatBound::Fin(e), beta_c@))
                    },
                    cut ==> i >= 1 && {
                        let e = (best->Some_0)@;
                        bnd_le(RatBound::Fin(e), alpha@)
                        && rat_le(spec_child_val(bb, player, d, cfg, i - 1), e)
                    },
                decreases n - i,
            {
                let player_move = legal_moves[i].0;
                let mut next_chessboard = chessboard.duplicate();
                make_move(player, player_move, &mut next_chessboard);
                let score = self.min_max_search(
                    opponent, &next_chessboard, depth - 1, alpha, beta_c);
                proof {
                    assert(next_chessboard@ == spec_apply_move(
                        bb, player, lm[i as int].0, lm[i as int].1));
                    assert(spec_child_val(bb, player, d, cfg, i as int)
                        == spec_minimax(next_chessboard@, opponent, (depth - 1) as nat, cfg));
                    lemma_child_ok(bb, player, d, cfg, i as int);
                }
                let ghost cvi = spec_child_val(bb, player, d, cfg, i as int);
                let ghost e_old = best;
                let ghost b_old = beta_c;
                match best {
                    Option::None => { best = Option::Some(score); },
                    Option::Some(e0) => {
                        if score_lt(&score, &e0) {
                            best = Option::Some(score);
                        }
                    },
                }
                if score_lt_bound(&score, &beta_c) {
                    beta_c = Bound::Fin(score);
                }
                if !bound_lt_score(&alpha, &score) {
                    cut = true;
                }
                proof {
                    let e_new = (best->Some_0)@;
                    let sc = score@;
                    if cut {
                        // score <= alpha: the new best is this child's result
                        if i >= 1 && e_old is Some {
                            let e0 = (e_old->Some_0)@;
                            assert(bnd_lt(alpha@, RatBound::Fin(e0)));
                            lemma_bnd_le_lt_trans(
                                RatBound::Fin(sc), alpha@, RatBound::Fin(e0));
                            assert(rat_lt(sc, e0));
                        }
                        assert(e_new == sc);
                        assert(rat_le(cvi, sc));
                    } else {
                        // score > alpha
                        assert(bnd_lt(alpha@, RatBound::Fin(sc)));
                        if i == 0 {
                            assert(e_new == sc);
                            if bnd_le(b_old@, RatBound::Fin(sc)) {
                                assert(rat_le(sc, cvi));
                            } else {
                                assert(bnd_lt(RatBound::Fin(sc), b_old@));
                                assert(sc == cvi);
                            }
                            assert(spec_fold_children(bb, player, d, cfg, 1) == cvi);
                        } else {
                            let e0 = (e_old->Some_0)@;
                            assert(rat_ok(e0) && rat_ok(sc) && rat_ok(cvi));
                            if bnd_le(b_old@, RatBound::Fin(sc)) {
                                assert(rat_le(sc, cvi));
                            } else {
                                assert(bnd_lt(RatBound::Fin(sc), b_old@));
                                assert(sc == cvi);
                            }
                            if rat_lt(sc, e0) {
                                assert(e_new == sc);
                            } else {
                                assert(e_new == e0);
                                assert(rat_le(e0, sc));
                            }
                            assert forall|k: int| 0 <= k < i + 1
                                implies rat_le(
                                    e_new, #[trigger] spec_child_val(bb, player, d, cfg, k)) by {
                                lemma_child_ok(bb, player, d, cfg, k);
                                if k < i {
                                    assert(rat_le(e0, spec_child_val(bb, player, d, cfg, k)));
                                    if rat_lt(sc, e0) {
                                        lemma_rat_le_trans(
                                            sc, e0, spec_child_val(bb, player, d, cfg, k));
                                    }
                                } else {
                                    if rat_lt(sc, e0) {
                                    } else {
                                        lemma_rat_le_trans(e0, sc, cvi);
                                    }
                                }
                            }
                            if bnd_lt(RatBound::Fin(e_new), beta@) {
                                lemma_fold_ok(bb, player, d, cfg, i as int);
                                let f_old = spec_fold_children(bb, player, d, cfg, i as int);
                                let f_new = spec_fold_children(bb, player, d, cfg, i + 1);
                                assert(f_new == if rat_lt(cvi, f_old) { cvi } else { f_old });
                                if rat_lt(sc, e0) {
                                    assert(e_new == sc);
                                    if bnd_le(b_old@, RatBound::Fin(sc)) {
                                        if bnd_le(RatBound::Fin(e0), b_old@) {
                                            lemma_bnd_le_trans(
                                                RatBound::Fin(e0), b_old@, RatBound::Fin(sc));
                                            assert(rat_le(e0, sc));
                                            assert(false);
                                        } else {
                                            assert(bnd_le(beta@, b_old@));
                                            lemma_bnd_le_trans(
                                                beta@, b_old@, RatBound::Fin(sc));
                                            assert(false);
                                        }
                                    }
                                    assert(sc == cvi);
                                    if bnd_lt(RatBound::Fin(e0), beta@) {
                                        assert(e0 == f_old);
                                        assert(rat_lt(cvi, f_old));
                                        assert(f_new == cvi);
                                    } else {
                                        assert(bnd_le(beta@, RatBound::Fin(e0)));
                                        lemma_fold_elem(bb, player, d, cfg, i as int);
                                        let k0 = choose|k: int| 0 <= k < i
                                            && f_old == #[trigger] spec_child_val(
                                                bb, player, d, cfg, k);
                                        assert(rat_le(e0, f_old));
                                        assert(rat_lt(sc, e0));
                                        lemma_rat_lt_le_trans(sc, e0, f_old);
                                        assert(f_new == cvi);
                                    }
                                } else {
                                    assert(e_new == e0);
                                    assert(e0 == f_old);
                                    assert(rat_le(e0, cvi));
                                    assert(!rat_lt(cvi, f_old));
                                    assert(f_new == f_old);
                                }
                            }
                        }
                    }
                    // the lowered beta threshold keeps its place in the window
                    if beta_c@ != b_old@ {
                        assert(beta_c@ == RatBound::Fin(sc));
                        assert(bnd_lt(RatBound::Fin(sc), b_old@));
                        lemma_bnd_lt_le_trans(RatBound::Fin(sc), b_old@, beta@);
                    }
                    assert(bnd_le(beta_c@, beta@));
                    if !cut {
                        let e_new = (best->Some_0)@;
                        assert(bnd_lt(alpha@, RatBound::Fin(sc)));
                        if i == 0 {
                            assert(e_new == sc);
                            if bnd_lt(RatBound::Fin(sc), b_old@) {
                                assert(beta_c@ == RatBound::Fin(sc));
                            } else {
                                assert(beta_c == b_old);
                                assert(bnd_le(b_old@, RatBound::Fin(sc)));
                            }
                        } else {
                            let e0 = (e_old->Some_0)@;
                            assert(bnd_le(b_old@, RatBound::Fin(e0)));
                            if bnd_lt(RatBound::Fin(sc), b_old@) {
                                assert(beta_c@ == RatBound::Fin(sc));
                                if rat_lt(sc, e0) {
                                    assert(e_new == sc);
                                } else {
                                    lemma_bnd_lt_le_trans(
                                        RatBound::Fin(sc), b_old@, RatBound::Fin(e0));
                                    assert(rat_lt(sc, e0));
                                    assert(false);
                                }
                                assert(bnd_le(beta_c@, RatBound::Fin(e_new)));
                                assert(bnd_le(RatBound::Fin(e_new), beta_c@));
                            } else {
                                assert(beta_c == b_old);
                                assert(bnd_le(b_old@, RatBound::Fin(sc)));
                                if rat_lt(sc, e0) {
                                    assert(e_new == sc);
                                } else {
                                    assert(e_new == e0);
                                }
                                assert(bnd_le(beta_c@, RatBound::Fin(e_new)));
                                if bnd_le(beta@, b_old@) {
                                } else {
                                    assert(bnd_le(RatBound::Fin(e0), b_old@));
                                    if rat_lt(sc, e0) {
                                        lemma_bnd_le_trans(
                                            RatBound::Fin(sc), RatBound::Fin(e0), b_old@);
                                    }
                                    assert(bnd_le(RatBound::Fin(e_new), beta_c@));
                                }
                            }
                        }
                        assert(bnd_lt(alpha@, beta_c@));
                    }
                }
                i += 1;
            }
            let r = match best {
                Option::Some(s) => s,
                Option::None => Score::zero(),
            };
            proof {
                let v = spec_minimax(bb, player, d, cfg);
                assert(v == spec_fold_children(bb, player, d, cfg, n as int));
                lemma_minimax_ok(bb, player, d, cfg);
                let e = r@;
                if cut {
                    lemma_child_ok(bb, player, d, cfg, i - 1);
                    lemma_fold_extremal(bb, player, d, cfg, i - 1, n as int);
                    lemma_rat_le_trans(
                        v, spec_child_val(bb, player, d, cfg, i - 1), e);
                    if bnd_le(beta@, RatBound::Fin(e)) {
                        lemma_bnd_le_trans(beta@, RatBound::Fin(e), alpha@);
                        assert(false);
                    }
                } else {
                    assert(i == n);
                    if bnd_lt(RatBound::Fin(e), beta@) {
                        assert(e == v);
                    } else {
                        assert(bnd_le(beta@, RatBound::Fin(e)));
                        lemma_fold_elem(bb, player, d, cfg, n as int);
                        let k0 = choose|k: int| 0 <= k < n
                            && v == #[trigger] spec_child_val(bb, player, d, cfg, k);
                        assert(rat_le(e, v));
                        if bnd_le(RatBound::Fin(e), alpha@) {
                            lemma_bnd_le_trans(beta@, RatBound::Fin(e), alpha@);
                            assert(false);
                        }
                    }
                }
            }
            r
        }
    }
}

/// The ply budget the root assigns: a requested depth of 0 still evaluates
/// each immediate child directly, so it behaves as a one-ply search.
pub open spec fn root_depth(cfg: AgentPlayer) -> nat {
    if cfg.max_depth == 0 {
        1nat
    } else {
        cfg.max_depth as nat
    }
}

/// The index of the move the root picks among the first `i` legal moves:
/// the first move whose child value strictly beats every earlier child's.
pub open spec fn spec_best_idx(b: Seq<Disc>, p: Disc, d: nat, cfg: AgentPlayer, i: int) -> int
    decreases i,
{
    if i <= 1 {
        0
    } else {
        let bi = spec_best_idx(b, p, d, cfg, i - 1);
        let bv = spec_child_val(b, p, d, cfg, bi);
        let v = spec_child_val(b, p, d, cfg, i - 1);
        if p == Disc::First {
            if rat_lt(bv, v) { i - 1 } else { bi }
        } else {
            if rat_lt(v, bv) { i - 1 } else { bi }
        }
    }
}

/// The move the full search picks: the coordinates of the extremal child.
pub open spec fn spec_best_move(b: Seq<Disc>, p: Disc, cfg: AgentPlayer) -> (int, int) {
    let lm = spec_legal_moves(b, p);
    let k = spec_best_idx(b, p, root_depth(cfg), cfg, lm.len() as int);
    (lm[k].0, lm[k].1)
}

/// The chosen index is in range; its child value is the maximum (for the
/// first player) or minimum (for the second) over all children, and every
/// earlier child is strictly worse, so the first extremal move wins ties.
pub proof fn lemma_best_idx_props(b: Seq<Disc>, p: Disc, d: nat, cfg: AgentPlayer, i: int)
    requires
        is_player(p),
        i >= 1,
    ensures
        0 <= spec_best_idx(b, p, d, cfg, i) < i,
        forall|k: int| 0 <= k < i ==> (p == Disc::First ==> rat_le(
            #[trigger] spec_child_val(b, p, d, cfg, k),
            spec_child_val(b, p, d, cfg, spec_best_idx(b, p, d, cfg, i))))
            && (p == Disc::Second ==> rat_le(
                spec_child_val(b, p, d, cfg, spec_best_idx(b, p, d, cfg, i)),
                spec_child_val(b, p, d, cfg, k))),
        forall|k: int| 0 <= k < spec_best_idx(b, p, d, cfg, i)
            ==> (p == Disc::First ==> rat_lt(
                #[trigger] spec_child_val(b, p, d, cfg, k),
                spec_child_val(b, p, d, cfg, spec_best_idx(b, p, d, cfg, i))))
                && (p == Disc::Second ==> rat_lt(
                    spec_child_val(b, p, d, cfg, spec_best_idx(b, p, d, cfg, i)),
                    spec_child_val(b, p, d, cfg, k))),
    decreases i,
{
    if i == 1 {
    } else {
        lemma_best_idx_props(b, p, d, cfg, i - 1);
        let bi = spec_best_idx(b, p, d, cfg, i - 1);
        let bn = spec_best_idx(b, p, d, cfg, i);
        let bv = spec_child_val(b, p, d, cfg, bi);
        let v = spec_child_val(b, p, d, cfg, i - 1);
        lemma_child_ok(b, p, d, cfg, bi);
        lemma_child_ok(b, p, d, cfg, i - 1);
        assert forall|k: int| 0 <= k < i implies
            (p == Disc::First ==> rat_le(
                #[trigger] spec_child_val(b, p, d, cfg, k),
                spec_child_val(b, p, d, cfg, bn)))
            && (p == Disc::Second ==> rat_le(
                spec_child_val(b, p, d, cfg, bn),
                spec_child_val(b, p, d, cfg, k))) by {
            lemma_child_ok(b, p, d, cfg, k);
            if k < i - 1 {
                if p == Disc::First {
                    if rat_lt(bv, v) {
                        lemma_rat_le_lt_trans(spec_child_val(b, p, d, cfg, k), bv, v);
                    }
                } else {
                    if rat_lt(v, bv) {
                        lemma_rat_lt_le_trans(v, bv, spec_child_val(b, p, d, cfg, k));
                    }
                }
            }
        }
        assert forall|k: int| 0 <= k < bn implies
            (p == Disc::First ==> rat_lt(
                #[trigger] spec_child_val(b, p, d, cfg, k),
                spec_child_val(b, p, d, cfg, bn)))
            && (p == Disc::Second ==> rat_lt(
                spec_child_val(b, p, d, cfg, bn),
                spec_child_val(b, p, d, cfg, k))) by {
            lemma_child_ok(b, p, d, cfg, k);
            if p == Disc::First {
                if rat_lt(bv, v) {
                    // the last child took over: every earlier child is at most
                    // the old best, which it strictly beat
                    lemma_rat_le_lt_trans(spec_child_val(b, p, d, cfg, k), bv, v);
                }
            } else {
                if rat_lt(v, bv) {
                    lemma_rat_lt_le_trans(v, bv, spec_child_val(b, p, d, cfg, k));
                }
            }
        }
    }
}

/// Terminal handling: on a board where neither player has a cell with a
/// positive capture score, the search value is the heuristic itself, at
/// every remaining depth.
pub proof fn lemma_double_pass_terminal(b: Seq<Disc>, p: Disc, d: nat, cfg: AgentPlayer)
    requires
        is_player(p),
        forall|r: int, c: int| in_b(r, c) ==> #[trigger] cell_score(b, Disc::First, r, c) <= 0,
        forall|r: int, c: int| in_b(r, c) ==> #[trigger] cell_score(b, Disc::Second, r, c) <= 0,
    ensures
        spec_minimax(b, p, d, cfg) == spec_heuristic(b, cfg),
{
    lemma_slm_props(b, Disc::First, 64);
    lemma_slm_props(b, Disc::Second, 64);
    if spec_legal_moves(b, Disc::First).len() > 0 {
        let e = spec_legal_moves(b, Disc::First)[0];
        assert(in_b(e.0, e.1) && e.2 == cell_score(b, Disc::First, e.0, e.1) && e.2 > 0);
        assert(false);
    }
    if spec_legal_moves(b, Disc::Second).len() > 0 {
        let e = spec_legal_moves(b, Disc::Second)[0];
        assert(in_b(e.0, e.1) && e.2 == cell_score(b, Disc::Second, e.0, e.1) && e.2 > 0);
        assert(false);
    }
}

/// The heuristic value of the board after the `j`-th legal move.
pub open spec fn child_heuristic(b: Seq<Disc>, p: Disc, cfg: AgentPlayer, j: int) -> Rat {
    let lm = spec_legal_moves(b, p);
    spec_heuristic(spec_apply_move(b, p, lm[j].0, lm[j].1), cfg)
}

/// The index of the move the search picks at the configured depth.
pub open spec fn spec_chosen_idx(b: Seq<Disc>, p: Disc, cfg: AgentPlayer) -> int {
    spec_best_idx(b, p, root_depth(cfg), cfg, spec_legal_moves(b, p).len() as int)
}

/// At a requested depth of 0 the search degenerates to evaluating every
/// immediate child and picking the extremum: the chosen move's child
/// heuristic dominates (for the first player) or is dominated by (for the
/// second) every other child's heuristic.
pub proof fn lemma_depth_zero_search(b: Seq<Disc>, p: Disc, cfg: AgentPlayer)
    requires
        is_player(p),
        cfg.max_depth == 0,
        spec_legal_moves(b, p).len() >= 1,
    ensures
        0 <= spec_chosen_idx(b, p, cfg) < spec_legal_moves(b, p).len(),
        forall|j: int| 0 <= j < spec_legal_moves(b, p).len()
            ==> (p == Disc::First ==> rat_le(
                #[trigger] child_heuristic(b, p, cfg, j),
                child_heuristic(b, p, cfg, spec_chosen_idx(b, p, cfg))))
                && (p == Disc::Second ==> rat_le(
                    child_heuristic(b, p, cfg, spec_chosen_idx(b, p, cfg)),
                    child_heuristic(b, p, cfg, j))),
{
    let lm = spec_legal_moves(b, p);
    let d = root_depth(cfg);
    assert(d == 1nat);
    lemma_best_idx_props(b, p, d, cfg, lm.len() as int);
    assert forall|j: int| 0 <= j < lm.len()
        implies #[trigger] child_heuristic(b, p, cfg, j)
            == spec_child_val(b, p, d, cfg, j) by {
        assert(spec_child_val(b, p, d, cfg, j)
            == spec_minimax(spec_apply_move(b, p, lm[j].0, lm[j].1), opponent_of(p), 0nat, cfg));
    }
}

impl AgentPlayer {
    /// Choose the mover's best move by alpha-beta search: exactly the move
    /// the un-pruned minimax over the same ordered move list would pick,
    /// with the first extremal move winning ties.
    #[verifier::rlimit(100)]
    pub fn play(&self, player: Disc, chessboard: &Board) -> (mv: (usize, usize))
        requires
            chessboard.wf(),
            is_player(player),
            spec_legal_moves(chessboard@, player).len() >= 1,
        ensures
            mv.0 < 8,
            mv.1 < 8,
            mv.0 as int == spec_best_move(chessboard@, player, *self).0,
            mv.1 as int == spec_best_move(chessboard@, player, *self).1,
    {
        let ghost bb = chessboard@;
        let ghost cfg = *self;
        let ghost dd = root_depth(cfg);
        let legal_moves = get_legal_moves(player, chessboard);
        let opponent = get_opponent(player);
        let child_depth = if self.max_depth == 0 { 0 } else { self.max_depth - 1 };
        proof {
            assert(child_depth as nat == (dd - 1) as nat);
        }
        let n = legal_moves.len();
        let ghost lm = spec_legal_moves(bb, player);
        let mut best_mv: Option<(usize, usize)> = Option::None;
        let mut i: usize = 0;
        if player == Disc::First {
            let mut alpha_c: Bound = Bound::NegInf;
            while i < n
                invariant
                    chessboard.wf(),
                    bb == chessboard@,
                    cfg == *self,
                    dd == root_depth(cfg),
                    child_depth as nat == (dd - 1) as nat,
                    dd >= 1,
                    player == Disc::First,
                    opponent == Disc::Second,
                    lm == spec_legal_moves(bb, player),
                    lm_matches(legal_moves@, lm),
                    forall|k: int| 0 <= k < legal_moves@.len()
                        ==> (#[trigger] legal_moves@[k]).0.0 < 8 && legal_moves@[k].0.1 < 8
                            && legal_moves@[k].1 as int == cell_score(
                                bb, player,
                                legal_moves@[k].0.0 as int, legal_moves@[k].0.1 as int)
                            && legal_moves@[k].1 > 0,
                    n == legal_moves@.len(),
                    1 <= n,
                    i <= n,
                    alpha_c.wf(),
                    i == 0 ==> best_mv is None && alpha_c is NegInf,
                    i >= 1 ==> best_mv is Some && alpha_c is Fin && {
                        let bi = spec_best_idx(bb, player, dd, cfg, i as int);
                        (best_mv->Some_0).0 < 8 && (best_mv->Some_0).1 < 8
                        && (best_mv->Some_0).0 as int == lm[bi].0
                        && (best_mv->Some_0).1 as int == lm[bi].1
                        && (alpha_c->Fin_0).wf()
                        && (alpha_c->Fin_0)@ == spec_child_val(bb, player, dd, cfg, bi)
                    },
                decreases n - i,
            {
                let player_move = legal_moves[i].0;
                let mut next_chessboard = chessboard.duplicate();
                make_move(player, player_move, &mut next_chessboard);
                let score = self.min_max_search(
                    opponent, &next_chessboard, child_depth, alpha_c, Bound::PosInf);
                proof {
                    assert(next_chessboard@ == spec_apply_move(
                        bb, player, lm[i as int].0, lm[i as int].1));
                    assert(spec_child_val(bb, player, dd, cfg, i as int)
                        == spec_minimax(next_chessboard@, opponent, (dd - 1) as nat, cfg));
                    lemma_child_ok(bb, player, dd, cfg, i as int);
                }
                let ghost cvi = spec_child_val(bb, player, dd, cfg, i as int);
                let ghost a_old = alpha_c;
                if bound_lt_score(&alpha_c, &score) {
                    alpha_c = Bound::Fin(score);
                    best_mv = Option::Some(player_move);
                }
                proof {
                    let bi_new = spec_best_idx(bb, player, dd, cfg, i + 1);
                    if i == 0 {
                        assert(bnd_lt(a_old@, RatBound::Fin(score@)));
                        assert(score@ == cvi);
                        assert(bi_new == 0);
                    } else {
                        let bi_old = spec_best_idx(bb, player, dd, cfg, i as int);
                        let s_old = (a_old->Fin_0)@;
                        lemma_child_ok(bb, player, dd, cfg, bi_old);
                        assert(s_old == spec_child_val(bb, player, dd, cfg, bi_old));
                        if bnd_lt(a_old@, RatBound::Fin(score@)) {
                            assert(score@ == cvi);
                            assert(rat_lt(s_old, cvi));
                            assert(bi_new == i as int);
                        } else {
                            assert(bnd_le(RatBound::Fin(score@), a_old@));
                            assert(rat_le(cvi, score@));
                            assert(rat_le(score@, s_old));
                            lemma_rat_le_trans(cvi, score@, s_old);
                            assert(!rat_lt(s_old, cvi));
                            assert(bi_new == bi_old);
                        }
                    }
                }
                i += 1;
            }
            let mv = match best_mv {
                Option::Some(m) => m,
                Option::None => (0, 0),
            };
            proof {
                assert(i == n && n >= 1);
                assert(best_mv is Some);
            }
            mv
        } else {
            let mut beta_c: Bound = Bound::PosInf;
            while i < n
                invariant
                    chessboard.wf(),
                    bb == chessboard@,
                    cfg == *self,
                    dd == root_depth(cfg),
                    child_depth as nat == (dd - 1) as nat,
                    dd >= 1,
                    player == Disc::Second,
                    opponent == Disc::First,
                    lm == spec_legal_moves(bb, player),
                    lm_matches(legal_moves@, lm),
                    forall|k: int| 0 <= k < legal_moves@.len()
                        ==> (#[trigger] legal_moves@[k]).0.0 < 8 && legal_moves@[k].0.1 < 8
                            && legal_moves@[k].1 as int == cell_score(
                                bb, player,
                                legal_moves@[k].0.0 as int, legal_moves@[k].0.1 as int)
                            && legal_moves@[k].1 > 0,
                    n == legal_moves@.len(),
                    1 <= n,
                    i <= n,
                    beta_c.wf(),
                    i == 0 ==> best_mv is None && beta_c is PosInf,
                    i >= 1 ==> best_mv is Some && beta_c is Fin && {
                        let bi = spec_best_idx(bb, player, dd, cfg, i as int);
                        (best_mv->Some_0).0 < 8 && (best_mv->Some_0).1 < 8
                        && (best_mv->Some_0).0 as int == lm[bi].0
                        && (best_mv->Some_0).1 as int == lm[bi].1
                        && (beta_c->Fin_0).wf()
                        && (beta_c->Fin_0)@ == spec_child_val(bb, player, dd, cfg, bi)
                    },
                decreases n - i,
            {
                let player_move = legal_moves[i].0;
                let mut next_chessboard = chessboard.duplicate();
                make_move(player, player_move, &mut next_chessboard);
                let score = self.min_max_search(
                    opponent, &next_chessboard, child_depth, Bound::NegInf, beta_c);
                proof {
                    assert(next_chessboard@ == spec_apply_move(
                        bb, player, lm[i as int].0, lm[i as int].1));
                    assert(spec_child_val(bb, player, dd, cfg, i as int)
                        == spec_minimax(next_chessboard@, opponent, (dd - 1) as nat, cfg));
                    lemma_child_ok(bb, player, dd, cfg, i as int);
                }
                let ghost cvi = spec_child_val(bb, player, dd, cfg, i as int);
                let ghost b_old = beta_c;
                if score_lt_bound(&score, &beta_c) {
                    beta_c = Bound::Fin(score);
                    best_mv = Option::Some(player_move);
                }
                proof {
                    let bi_new = spec_best_idx(bb, player, dd, cfg, i + 1);
                    if i == 0 {
                        assert(bnd_lt(RatBound::Fin(score@), b_old@));
                        assert(score@ == cvi);
                        assert(bi_new == 0);
                    } else {
                        let bi_old = spec_best_idx(bb, player, dd, cfg, i as int);
                        let s_old = (b_old->Fin_0)@;
                        lemma_child_ok(bb, player, dd, cfg, bi_old);
                        assert(s_old == spec_child_val(bb, player, dd, cfg, bi_old));
                        if bnd_lt(RatBound::Fin(score@), b_old@) {
                            assert(score@ == cvi);
                            assert(rat_lt(cvi, s_old));
                            assert(bi_new == i as int);
                        } else {
                            assert(bnd_le(b_old@, RatBound::Fin(score@)));
                            assert(rat_le(score@, cvi));
                            assert(rat_le(s_old, score@));
                            lemma_rat_le_trans(s_old, score@, cvi);
                            assert(!rat_lt(cvi, s_old));
                            assert(bi_new == bi_old);
                        }
                    }
                }
                i += 1;
            }
            let mv = match best_mv {
                Option::Some(m) => m,
                Option::None => (0, 0),
            };
            proof {
                assert(i == n && n >= 1);
                assert(best_mv is Some);
            }
            mv
        }
    }


    /// The search value of a position over the whole window: alpha-beta
    /// pruning returns exactly the value of the un-pruned minimax over the
    /// same game tree.
    pub fn search_value(&self, player: Disc, chessboard: &Board, depth: u32) -> (r: Score)
        requires
            chessboard.wf(),
            is_player(player),
        ensures
            r.wf(),
            r@ == spec_minimax(chessboard@, player, depth as nat, *self),
    {
        let r = self.min_max_search(player, chessboard, depth, Bound::NegInf, Bound::PosInf);
        proof {
            assert(bnd_lt(RatBound::NegInf, RatBound::Fin(r@)));
            assert(bnd_lt(RatBound::Fin(r@), RatBound::PosInf));
        }
        r
    }

    /// Like `play`, but with the missing-move case made explicit: `None`
    /// exactly when the mover has no legal move, and otherwise the chosen
    /// move itself.
    pub fn choose_move(&self, player: Disc, chessboard: &Board) -> (r: Option<(usize, usize)>)
        requires
            chessboard.wf(),
            is_player(player),
        ensures
            r is Some <==> spec_legal_moves(chessboard@, player).len() >= 1,
            r is Some ==> (r->0).0 < 8 && (r->0).1 < 8
                && (r->0).0 as int == spec_best_move(chessboard@, player, *self).0
                && (r->0).1 as int == spec_best_move(chessboard@, player, *self).1,
    {
        let legal_moves = get_legal_moves(player, chessboard);
        if legal_moves.len() == 0 {
            Option::None
        } else {
            Option::Some(self.play(player, chessboard))
        }
    }
}

/// Decoding of one flat cell value: positive is the first player, negative
/// the second, zero an empty cell.
pub open spec fn spec_convert_disc(x: i8) -> Disc {
    if x > 0 {
        Disc::First
    } else if x < 0 {
        Disc::Second
    } else {
        Disc::Empty
    }
}

/// Decoding of a 64-element flat board, row-major.
pub open spec fn decode_board(s: Seq<i8>) -> Seq<Disc> {
    Seq::new(64, |i: int| spec_convert_disc(s[i]))
}

/// The square (row * 8 + column) of the move chosen for the decoded board.
pub open spec fn spec_play(flat: Seq<i8>, player: i8, cfg: AgentPlayer) -> int {
    let m = spec_best_move(decode_board(flat), spec_convert_disc(player), cfg);
    m.0 * 8 + m.1
}

fn convert_disc(disc: i8) -> (d: Disc)
    ensures
        d == spec_convert_disc(disc),
{
    if disc > 0 {
        Disc::First
    } else if disc < 0 {
        Disc::Second
    } else {
        Disc::Empty
    }
}

/// The single boundary operation: decode the flat board, run the search for
/// the mover, and return the chosen square as row * 8 + column. The board
/// must hold exactly 64 cells, the mover must be a player (non-zero), and
/// the mover must have at least one legal move.
pub fn play(
    player: i8,
    chessboard: &[i8],
    max_depth: u32,
    use_coin_parity: bool,
    use_actual_mobility: bool,
    use_potential_mobility: bool,
    use_corner_score: bool,
    use_stability_score: bool,
) -> (square: usize)
    requires
        chessboard@.len() == 64,
        player != 0,
        spec_legal_moves(decode_board(chessboard@), spec_convert_disc(player)).len() >= 1,
    ensures
        square < 64,
        square as int == spec_play(chessboard@, player, (AgentPlayer {
            max_depth,
            use_coin_parity,
            use_actual_mobility,
            use_potential_mobility,
            use_corner_score,
            use_stability_score,
        })),
{
    let mover = convert_disc(player);
    let mut cells: Vec<Disc> = Vec::new();
    let mut i: usize = 0;
    while i < 64
        invariant
            chessboard@.len() == 64,
            i <= 64,
            cells@.len() == i,
            forall|j: int| 0 <= j < i ==> cells@[j] == decode_board(chessboard@)[j],
        decreases 64 - i,
    {
        cells.push(convert_disc(chessboard[i]));
        i += 1;
    }
    let new_chessboard = Board { cells };
    proof {
        assert(new_chessboard@ =~= decode_board(chessboard@));
    }
    let agent = AgentPlayer {
        max_depth,
        use_coin_parity,
        use_actual_mobility,
        use_potential_mobility,
        use_corner_score,
        use_stability_score,
    };
    let (move_row, move_col) = agent.play(mover, &new_chessboard);
    move_row * 8 + move_col
}

} // verus!
