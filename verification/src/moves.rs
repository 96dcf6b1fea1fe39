//! Move generation. For a mover and a board, every cell gets a capture
//! score: the total number of opponent discs that would be flipped if the
//! mover played there, summed over the 8 directions. A cell is a legal move
//! exactly when its score is positive, and the legal-move list is ordered by
//! descending score with row-major order breaking ties.

use vstd::prelude::*;
use crate::board::Board;
use crate::board::Disc;
use crate::board::at;
use crate::board::in_b;
use crate::board::is_player;
use crate::board::opponent_of;
use crate::board::get_opponent;

verus! {

/// A unit step on the grid: each component in {-1, 0, 1}, not both zero.
pub open spec fn is_dir(dr: int, dc: int) -> bool {
    -1 <= dr <= 1 && -1 <= dc <= 1 && !(dr == 0 && dc == 0)
}

/// How many steps in direction (dr, dc) can start from (r, c) before the
/// walk leaves the grid; used only as a termination measure.
pub open spec fn steps_rem(r: int, c: int, dr: int, dc: int) -> int {
    let sr = if dr == 1 { 8 - r } else if dr == -1 { r + 1 } else { 9 };
    let sc = if dc == 1 { 8 - c } else if dc == -1 { c + 1 } else { 9 };
    if sr <= sc { sr } else { sc }
}

/// Multiplying by a step component is negation, identity or zero.
pub proof fn lemma_mul_step(k: int, d: int)
    ensures
        d == 1 ==> k * d == k,
        d == -1 ==> k * d == -k,
        d == 0 ==> k * d == 0,
{
    assert(d == 1 ==> k * d == k) by (nonlinear_arith);
    assert(d == -1 ==> k * d == -k) by (nonlinear_arith);
    assert(d == 0 ==> k * d == 0) by (nonlinear_arith);
}

/// Length of the contiguous run of the mover's opponent's discs that starts
/// at (r, c) and continues in direction (dr, dc).
pub open spec fn run_len(b: Seq<Disc>, p: Disc, r: int, c: int, dr: int, dc: int) -> int
    decreases steps_rem(r, c, dr, dc),
{
    if !is_dir(dr, dc) || !in_b(r, c) || at(b, r, c) != opponent_of(p) {
        0
    } else {
        1 + run_len(b, p, r + dr, c + dc, dr, dc)
    }
}

/// Cell `j` steps along the ray from (r, c) is on the grid and holds an
/// opponent disc.
pub open spec fn ray_opp(b: Seq<Disc>, p: Disc, r: int, c: int, dr: int, dc: int, j: int) -> bool {
    in_b(r + j * dr, c + j * dc) && at(b, r + j * dr, c + j * dc) == opponent_of(p)
}

/// The cell just past the opponent run from (r, c) is off the grid or not
/// an opponent disc.
pub open spec fn run_is_maximal(b: Seq<Disc>, p: Disc, r: int, c: int, dr: int, dc: int) -> bool {
    let n = run_len(b, p, r, c, dr, dc);
    !in_b(r + n * dr, c + n * dc) || at(b, r + n * dr, c + n * dc) != opponent_of(p)
}

/// The run cells are opponent discs on the grid, the run is as long as the
/// grid allows, and the cell just past the run is not an opponent disc.
pub proof fn lemma_run_props(b: Seq<Disc>, p: Disc, r: int, c: int, dr: int, dc: int)
    requires
        is_dir(dr, dc),
    ensures
        0 <= run_len(b, p, r, c, dr, dc) <= 8,
        forall|j: int| 0 <= j < run_len(b, p, r, c, dr, dc)
            ==> #[trigger] ray_opp(b, p, r, c, dr, dc, j),
        run_is_maximal(b, p, r, c, dr, dc),
    decreases steps_rem(r, c, dr, dc),
{
    let n = run_len(b, p, r, c, dr, dc);
    if !in_b(r, c) || at(b, r, c) != opponent_of(p) {
        lemma_mul_step(0, dr);
        lemma_mul_step(0, dc);
    } else {
        lemma_run_props(b, p, r + dr, c + dc, dr, dc);
        let m = run_len(b, p, r + dr, c + dc, dr, dc);
        assert(n == m + 1);
        assert(0 <= n <= 8) by {
            assert(m <= steps_cap(r + dr, c + dc, dr, dc)) by {
                lemma_run_le_steps(b, p, r + dr, c + dc, dr, dc);
            }
        }
        assert forall|j: int| 0 <= j < n implies #[trigger] ray_opp(b, p, r, c, dr, dc, j) by {
            if j == 0 {
                lemma_mul_step(0, dr);
                lemma_mul_step(0, dc);
            } else {
                assert(0 <= j - 1 < m);
                assert(ray_opp(b, p, r + dr, c + dc, dr, dc, j - 1));
                assert(r + dr + (j - 1) * dr == r + j * dr) by (nonlinear_arith);
                assert(c + dc + (j - 1) * dc == c + j * dc) by (nonlinear_arith);
            }
        }
        assert(r + dr + m * dr == r + n * dr) by (nonlinear_arith)
            requires n == m + 1,
        ;
        assert(c + dc + m * dc == c + n * dc) by (nonlinear_arith)
            requires n == m + 1,
        ;
    }
}

/// The termination measure, clamped below at zero.
pub open spec fn steps_cap(r: int, c: int, dr: int, dc: int) -> int {
    if steps_rem(r, c, dr, dc) >= 0 {
        steps_rem(r, c, dr, dc)
    } else {
        0
    }
}

/// A run never exceeds the number of steps left to the edge.
pub proof fn lemma_run_le_steps(b: Seq<Disc>, p: Disc, r: int, c: int, dr: int, dc: int)
    requires
        is_dir(dr, dc),
    ensures
        run_len(b, p, r, c, dr, dc) <= steps_cap(r, c, dr, dc),
    decreases steps_rem(r, c, dr, dc),
{
    if in_b(r, c) && at(b, r, c) == opponent_of(p) {
        lemma_run_le_steps(b, p, r + dr, c + dc, dr, dc);
    }
}

/// The number of opponent discs captured in one direction from (r, c): the
/// length of the contiguous opponent run starting one step away, provided
/// the run is non-empty and the cell immediately past it holds the mover's
/// own disc; otherwise 0.
pub open spec fn dir_capture(b: Seq<Disc>, p: Disc, r: int, c: int, dr: int, dc: int) -> int {
    let n = run_len(b, p, r + dr, c + dc, dr, dc);
    if n >= 1 && in_b(r + (n + 1) * dr, c + (n + 1) * dc)
        && at(b, r + (n + 1) * dr, c + (n + 1) * dc) == p {
        n
    } else {
        0
    }
}

/// The capture score of a cell: for an empty cell, the sum over all 8
/// directions of the captured run lengths; 0 for an occupied cell.
pub open spec fn cell_score(b: Seq<Disc>, p: Disc, r: int, c: int) -> int {
    if at(b, r, c) == Disc::Empty {
        dir_capture(b, p, r, c, -1, -1) + dir_capture(b, p, r, c, -1, 0)
            + dir_capture(b, p, r, c, -1, 1) + dir_capture(b, p, r, c, 0, -1)
            + dir_capture(b, p, r, c, 0, 1) + dir_capture(b, p, r, c, 1, -1)
            + dir_capture(b, p, r, c, 1, 0) + dir_capture(b, p, r, c, 1, 1)
    } else {
        0
    }
}

/// Walk outward from (r, c) in direction (dr, dc) and return the number of
/// opponent discs that the mover would capture along it.
pub fn capture_in_dir(board: &Board, player: Disc, r: usize, c: usize, dr: i32, dc: i32)
    -> (n: u32)
    requires
        board.wf(),
        is_player(player),
        r < 8,
        c < 8,
        is_dir(dr as int, dc as int),
    ensures
        n as int == dir_capture(board@, player, r as int, c as int, dr as int, dc as int),
        n <= 8,
{
    let o = get_opponent(player);
    let mut rr: i32 = r as i32 + dr;
    let mut cc: i32 = c as i32 + dc;
    let mut cnt: u32 = 0;
    proof {
        lemma_mul_step(1, dr as int);
        lemma_mul_step(1, dc as int);
    }
    while 0 <= rr && rr < 8 && 0 <= cc && cc < 8 && board.get(rr as usize, cc as usize) == o
        invariant
            board.wf(),
            is_player(player),
            o == opponent_of(player),
            r < 8,
            c < 8,
            is_dir(dr as int, dc as int),
            cnt <= 8,
            rr as int == r + (cnt + 1) * (dr as int),
            cc as int == c + (cnt + 1) * (dc as int),
            -9 <= rr <= 16,
            -9 <= cc <= 16,
            run_len(board@, player, r + (dr as int), c + (dc as int), dr as int, dc as int)
                == cnt + run_len(board@, player, rr as int, cc as int, dr as int, dc as int),
        decreases 9 - cnt,
    {
        proof {
            lemma_mul_step(cnt + 2, dr as int);
            lemma_mul_step(cnt + 2, dc as int);
            lemma_mul_step(cnt + 1, dr as int);
            lemma_mul_step(cnt + 1, dc as int);
            assert(run_len(board@, player, rr as int, cc as int, dr as int, dc as int)
                == 1 + run_len(board@, player, rr + dr, cc + dc, dr as int, dc as int));
            // the walk cannot have taken more than 8 in-grid steps
            assert(cnt + 1 <= 8);
        }
        cnt = cnt + 1;
        rr = rr + dr;
        cc = cc + dc;
    }
    proof {
        assert(run_len(board@, player, rr as int, cc as int, dr as int, dc as int) == 0);
    }
    if 0 <= rr && rr < 8 && 0 <= cc && cc < 8 && cnt >= 1 {
        if board.get(rr as usize, cc as usize) == player {
            return cnt;
        }
    }
    0
}

/// The capture score of one cell, by walking all 8 directions.
pub fn cell_score_at(board: &Board, player: Disc, r: usize, c: usize) -> (s: u32)
    requires
        board.wf(),
        is_player(player),
        r < 8,
        c < 8,
    ensures
        s as int == cell_score(board@, player, r as int, c as int),
        s <= 64,
{
    if board.get(r, c) != Disc::Empty {
        return 0;
    }
    let mut s = capture_in_dir(board, player, r, c, -1, -1);
    s = s + capture_in_dir(board, player, r, c, -1, 0);
    s = s + capture_in_dir(board, player, r, c, -1, 1);
    s = s + capture_in_dir(board, player, r, c, 0, -1);
    s = s + capture_in_dir(board, player, r, c, 0, 1);
    s = s + capture_in_dir(board, player, r, c, 1, -1);
    s = s + capture_in_dir(board, player, r, c, 1, 0);
    s = s + capture_in_dir(board, player, r, c, 1, 1);
    s
}

/// Add every cell's capture score for `player` into the 64-entry grid.
pub fn get_move_scores(player: Disc, chessboard: &Board, scores: &mut Vec<u32>)
    requires
        is_player(player),
        chessboard.wf(),
        old(scores)@.len() == 64,
        forall|i: int| 0 <= i < 64 ==> old(scores)@[i] <= 4000000000u32,
    ensures
        final(scores)@.len() == 64,
        forall|r: int, c: int| in_b(r, c)
            ==> final(scores)@[r * 8 + c] == old(scores)@[r * 8 + c]
                + #[trigger] cell_score(chessboard@, player, r, c),
{
    let mut i: usize = 0;
    while i < 64
        invariant
            is_player(player),
            chessboard.wf(),
            i <= 64,
            scores@.len() == 64,
            forall|j: int| 0 <= j < i ==> scores@[j] == old(scores)@[j]
                + #[trigger] cell_score(chessboard@, player, j / 8, j % 8),
            forall|j: int| i <= j < 64 ==> scores@[j] == old(scores)@[j],
            forall|j: int| 0 <= j < 64 ==> old(scores)@[j] <= 4000000000u32,
        decreases 64 - i,
    {
        let r = i / 8;
        let c = i % 8;
        let add = cell_score_at(chessboard, player, r, c);
        let v = scores[i];
        proof {
            assert(r * 8 + c == i);
        }
        scores.set(i, v + add);
        i += 1;
    }
    proof {
        assert forall|r: int, c: int| in_b(r, c)
            implies scores@[r * 8 + c] == old(scores)@[r * 8 + c]
                + #[trigger] cell_score(chessboard@, player, r, c) by {
            let j = r * 8 + c;
            assert(0 <= j < 64);
            assert(j / 8 == r && j % 8 == c);
        }
    }
}

/// Generating scores twice on an unchanged board yields identical grids:
/// any two grids meeting the move-score contract from all-zero entries agree.
pub proof fn lemma_move_scores_deterministic(
    g1: Seq<u32>,
    g2: Seq<u32>,
    b: Seq<Disc>,
    p: Disc,
)
    requires
        g1.len() == 64,
        g2.len() == 64,
        forall|r: int, c: int| in_b(r, c)
            ==> g1[r * 8 + c] == #[trigger] cell_score(b, p, r, c),
        forall|r: int, c: int| in_b(r, c)
            ==> g2[r * 8 + c] == #[trigger] cell_score(b, p, r, c),
    ensures
        g1 == g2,
{
    assert forall|j: int| 0 <= j < 64 implies g1[j] == g2[j] by {
        let r = j / 8;
        let c = j % 8;
        assert(in_b(r, c));
        assert(r * 8 + c == j);
        assert(g1[r * 8 + c] == cell_score(b, p, r, c));
        assert(g2[r * 8 + c] == cell_score(b, p, r, c));
    }
    assert(g1 =~= g2);
}

/// Where a new move with score `sc` is inserted in a descending list: just
/// before the first element whose score is strictly smaller, which keeps the
/// list descending and keeps equal scores in insertion order.
pub open spec fn ins_pos(s: Seq<(int, int, int)>, sc: int) -> int
    decreases s.len(),
{
    if s.len() <= 0 {
        0
    } else if s[0].2 < sc {
        0
    } else {
        1 + ins_pos(s.subrange(1, s.len() as int), sc)
    }
}

pub proof fn lemma_ins_pos(s: Seq<(int, int, int)>, sc: int)
    ensures
        0 <= ins_pos(s, sc) <= s.len(),
        forall|j: int| 0 <= j < ins_pos(s, sc) ==> s[j].2 >= sc,
        ins_pos(s, sc) < s.len() ==> s[ins_pos(s, sc)].2 < sc,
    decreases s.len(),
{
    if s.len() > 0 && !(s[0].2 < sc) {
        let t = s.subrange(1, s.len() as int);
        lemma_ins_pos(t, sc);
        assert forall|j: int| 0 <= j < ins_pos(s, sc) implies s[j].2 >= sc by {
            if j > 0 {
                assert(t[j - 1] == s[j]);
            }
        }
        if ins_pos(s, sc) < s.len() {
            assert(t[ins_pos(s, sc) - 1] == s[ins_pos(s, sc)]);
        }
    }
}

/// The legal moves among the first `n` cells in row-major order, each as
/// (row, col, score), ordered by descending score with ties in row-major
/// order.
pub open spec fn slm_upto(b: Seq<Disc>, p: Disc, n: int) -> Seq<(int, int, int)>
    decreases n,
{
    if n <= 0 {
        Seq::empty()
    } else {
        let s = slm_upto(b, p, n - 1);
        let r = (n - 1) / 8;
        let c = (n - 1) % 8;
        let sc = cell_score(b, p, r, c);
        if sc > 0 {
            s.insert(ins_pos(s, sc), (r, c, sc))
        } else {
            s
        }
    }
}

/// The full ordered legal-move list for a mover.
pub open spec fn spec_legal_moves(b: Seq<Disc>, p: Disc) -> Seq<(int, int, int)> {
    slm_upto(b, p, 64)
}

/// Every listed move is a distinct on-grid cell with its positive capture
/// score; every cell with a positive score is listed; and the list is
/// descending by score, with ties ordered row-major.
#[verifier::rlimit(100)]
pub proof fn lemma_slm_props(b: Seq<Disc>, p: Disc, n: int)
    requires
        n <= 64,
    ensures
        slm_upto(b, p, n).len() <= if n >= 0 { n } else { 0 },
        forall|k: int| 0 <= k < slm_upto(b, p, n).len()
            ==> {
                let e = #[trigger] slm_upto(b, p, n)[k];
                in_b(e.0, e.1) && e.0 * 8 + e.1 < n
                    && e.2 == cell_score(b, p, e.0, e.1) && e.2 > 0
            },
        forall|i: int, j: int| 0 <= i < j < slm_upto(b, p, n).len()
            ==> (#[trigger] slm_upto(b, p, n)[i]).2 > (#[trigger] slm_upto(b, p, n)[j]).2
                || (slm_upto(b, p, n)[i].2 == slm_upto(b, p, n)[j].2
                    && slm_upto(b, p, n)[i].0 * 8 + slm_upto(b, p, n)[i].1
                        < slm_upto(b, p, n)[j].0 * 8 + slm_upto(b, p, n)[j].1),
        forall|r: int, c: int| in_b(r, c) && r * 8 + c < n
            && #[trigger] cell_score(b, p, r, c) > 0
            ==> slm_upto(b, p, n).contains((r, c, cell_score(b, p, r, c))),
    decreases n,
{
    if n <= 0 {
    } else {
        lemma_slm_props(b, p, n - 1);
        let s = slm_upto(b, p, n - 1);
        let r0 = (n - 1) / 8;
        let c0 = (n - 1) % 8;
        let sc = cell_score(b, p, r0, c0);
        assert(r0 * 8 + c0 == n - 1);
        assert(in_b(r0, c0));
        if sc > 0 {
            let pos = ins_pos(s, sc);
            lemma_ins_pos(s, sc);
            let s2 = s.insert(pos, (r0, c0, sc));
            s.insert_ensures(pos, (r0, c0, sc));
            assert(slm_upto(b, p, n) == s2);
            // elements: each index of s2 maps to an old element or the new one
            assert forall|k: int| 0 <= k < s2.len() implies {
                let e = #[trigger] s2[k];
                in_b(e.0, e.1) && e.0 * 8 + e.1 < n
                    && e.2 == cell_score(b, p, e.0, e.1) && e.2 > 0
            } by {
                if k < pos {
                    assert(s2[k] == s[k]);
                } else if k == pos {
                    assert(s2[k] == (r0, c0, sc));
                } else {
                    assert(s2[k] == s[k - 1]);
                }
            }
            // order: descending by score, ties row-major
            assert forall|i: int, j: int| 0 <= i < j < s2.len() implies
                (#[trigger] s2[i]).2 > (#[trigger] s2[j]).2
                || (s2[i].2 == s2[j].2 && s2[i].0 * 8 + s2[i].1 < s2[j].0 * 8 + s2[j].1) by {
                // scores in s are non-increasing
                assert forall|u: int, v: int| 0 <= u < v < s.len() implies s[u].2 >= s[v].2 by {
                    assert(s[u].2 > s[v].2 || (s[u].2 == s[v].2
                        && s[u].0 * 8 + s[u].1 < s[v].0 * 8 + s[v].1));
                }
                if i < pos {
                    assert(s2[i] == s[i]);
                } else if i == pos {
                    assert(s2[i] == (r0, c0, sc));
                } else {
                    assert(s2[i] == s[i - 1]);
                }
                if j < pos {
                    assert(s2[j] == s[j]);
                } else if j == pos {
                    assert(s2[j] == (r0, c0, sc));
                } else {
                    assert(s2[j] == s[j - 1]);
                }
                if j == pos {
                    // s2[i] == s[i] with i < pos: score >= sc; ties go row-major
                    assert(s[i].2 >= sc);
                    assert(s[i].0 * 8 + s[i].1 < n - 1);
                } else if i == pos {
                    // s2[j] == s[j-1] with j-1 >= pos
                    if pos < s.len() {
                        assert(s[pos].2 < sc);
                        if j - 1 > pos {
                            assert(s[pos].2 >= s[j - 1].2);
                        }
                    }
                }
            }
            // membership of every positive cell among the first n
            assert forall|r: int, c: int| in_b(r, c) && r * 8 + c < n
                && #[trigger] cell_score(b, p, r, c) > 0
                implies s2.contains((r, c, cell_score(b, p, r, c))) by {
                if r * 8 + c < n - 1 {
                    let e = (r, c, cell_score(b, p, r, c));
                    assert(s.contains(e));
                    let k = choose|k: int| 0 <= k < s.len() && s[k] == e;
                    if k < pos {
                        assert(s2[k] == e);
                    } else {
                        assert(s2[k + 1] == e);
                    }
                } else {
                    assert(r == r0 && c == c0);
                    assert(s2[pos] == (r0, c0, sc));
                }
            }
        } else {
            assert(slm_upto(b, p, n) == s);
            assert forall|r: int, c: int| in_b(r, c) && r * 8 + c < n
                && #[trigger] cell_score(b, p, r, c) > 0
                implies s.contains((r, c, cell_score(b, p, r, c))) by {
                if r * 8 + c == n - 1 {
                    assert(r == r0 && c == c0);
                    assert(cell_score(b, p, r, c) == sc);
                }
            }
        }
    }
}

/// Pointwise match between the executable legal-move vector and its spec.
pub open spec fn lm_matches(v: Seq<((usize, usize), u32)>, s: Seq<(int, int, int)>) -> bool {
    v.len() == s.len()
    && forall|k: int| 0 <= k < v.len()
        ==> (#[trigger] v[k]).0.0 as int == s[k].0
            && v[k].0.1 as int == s[k].1
            && v[k].1 as int == s[k].2
}

/// All legal moves for a mover, ordered by descending capture score (ties
/// row-major); each entry carries its positive capture score.
#[verifier::rlimit(100)]
pub fn get_legal_moves(player: Disc, chessboard: &Board)
    -> (legal_moves: Vec<((usize, usize), u32)>)
    requires
        is_player(player),
        chessboard.wf(),
    ensures
        lm_matches(legal_moves@, spec_legal_moves(chessboard@, player)),
        forall|k: int| 0 <= k < legal_moves@.len()
            ==> (#[trigger] legal_moves@[k]).0.0 < 8 && legal_moves@[k].0.1 < 8
                && legal_moves@[k].1 > 0
                && legal_moves@[k].1 as int == cell_score(
                    chessboard@, player,
                    legal_moves@[k].0.0 as int, legal_moves@[k].0.1 as int),
        forall|i: int, j: int| 0 <= i < j < legal_moves@.len()
            ==> (#[trigger] legal_moves@[i]).1 >= (#[trigger] legal_moves@[j]).1,
{
    let ghost b = chessboard@;
    let mut scores: Vec<u32> = vec![0u32; 64];
    get_move_scores(player, chessboard, &mut scores);
    let mut legal_moves: Vec<((usize, usize), u32)> = Vec::new();
    let mut i: usize = 0;
    while i < 64
        invariant
            is_player(player),
            chessboard.wf(),
            b == chessboard@,
            i <= 64,
            scores@.len() == 64,
            forall|r: int, c: int| in_b(r, c)
                ==> scores@[r * 8 + c] == #[trigger] cell_score(b, player, r, c),
            lm_matches(legal_moves@, slm_upto(b, player, i as int)),
        decreases 64 - i,
    {
        let ghost s = slm_upto(b, player, i as int);
        proof {
            lemma_slm_props(b, player, i as int);
        }
        let r = i / 8;
        let c = i % 8;
        proof {
            assert(r * 8 + c == i);
        }
        let sc = scores[i];
        proof {
            assert(sc as int == cell_score(b, player, r as int, c as int));
        }
        if sc > 0 {
            let mut k: usize = 0;
            while k < legal_moves.len() && legal_moves[k].1 >= sc
                invariant
                    k <= legal_moves@.len(),
                    forall|j: int| 0 <= j < k ==> (#[trigger] legal_moves@[j]).1 >= sc,
                decreases legal_moves@.len() - k,
            {
                k += 1;
            }
            proof {
                lemma_ins_pos(s, sc as int);
                let pos = ins_pos(s, sc as int);
                // the scan found exactly the spec insertion position
                if (k as int) < pos {
                    assert(s[k as int].2 >= sc as int);
                    assert(legal_moves@[k as int].1 >= sc);
                    assert(false);
                }
                if pos < k as int {
                    assert(legal_moves@[pos].1 >= sc);
                    assert(s[pos].2 >= sc as int);
                    assert(false);
                }
                s.insert_ensures(pos, (r as int, c as int, sc as int));
            }
            legal_moves.insert(k, ((r, c), sc));
            proof {
                let pos = ins_pos(s, sc as int);
                let s2 = s.insert(pos, (r as int, c as int, sc as int));
                assert forall|j: int| 0 <= j < legal_moves@.len()
                    implies (#[trigger] legal_moves@[j]).0.0 as int == s2[j].0
                        && legal_moves@[j].0.1 as int == s2[j].1
                        && legal_moves@[j].1 as int == s2[j].2 by {
                    if j < pos {
                    } else if j == pos {
                    } else {
                        assert(s2[j] == s[j - 1]);
                    }
                }
                assert(lm_matches(legal_moves@, slm_upto(b, player, i + 1)));
            }
        }
        i += 1;
    }
    proof {
        lemma_slm_props(b, player, 64);
        let s = spec_legal_moves(b, player);
        assert forall|u: int, v: int| 0 <= u < v < legal_moves@.len()
            implies (#[trigger] legal_moves@[u]).1 >= (#[trigger] legal_moves@[v]).1 by {
            assert(s[u].2 > s[v].2 || (s[u].2 == s[v].2
                && s[u].0 * 8 + s[u].1 < s[v].0 * 8 + s[v].1));
        }
    }
    legal_moves
}

} // verus!
