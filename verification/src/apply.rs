//! Move execution: place the mover's disc and flip, in each of the 8
//! directions, the contiguous run of opponent discs that is terminated by
//! the mover's own disc. Includes the disc-count facts: the mover gains
//! exactly 1 + (the move's capture score) discs, the opponent loses exactly
//! the capture score, and occupied cells grow by exactly 1.

use vstd::prelude::*;
use crate::board::Board;
use crate::board::Disc;
use crate::board::at;
use crate::board::in_b;
use crate::board::is_player;
use crate::board::opponent_of;
use crate::board::board_ok;
use crate::board::count_disc;
use crate::board::lemma_count_update;
use crate::moves::is_dir;
use crate::moves::ray_opp;
use crate::moves::run_len;
use crate::moves::dir_capture;
use crate::moves::cell_score;
use crate::moves::lemma_run_props;
use crate::moves::lemma_mul_step;
use crate::moves::capture_in_dir;

verus! {

/// Row-major index of the cell `j` steps along the ray from (r, c).
pub open spec fn ray_idx(r: int, c: int, dr: int, dc: int, j: int) -> int {
    (r + j * dr) * 8 + (c + j * dc)
}

/// Some cell among the first `k` ray steps has index `i`.
pub open spec fn on_ray(r: int, c: int, dr: int, dc: int, k: int, i: int) -> bool {
    exists|j: int| 1 <= j <= k && i == #[trigger] ray_idx(r, c, dr, dc, j)
}

/// The board after flipping the first `k` ray cells to the mover's disc.
pub open spec fn flip_to(b: Seq<Disc>, p: Disc, r: int, c: int, dr: int, dc: int, k: int)
    -> Seq<Disc>
    decreases k,
{
    if k <= 0 {
        b
    } else {
        flip_to(b, p, r, c, dr, dc, k - 1).update(ray_idx(r, c, dr, dc, k), p)
    }
}

/// The board after a move at (r, c): the mover's disc is placed there, then
/// each direction's captured run (judged on the board before the move) is
/// flipped to the mover's disc.
pub open spec fn spec_apply_move(b: Seq<Disc>, p: Disc, r: int, c: int) -> Seq<Disc> {
    let b0 = b.update(r * 8 + c, p);
    let b1 = flip_to(b0, p, r, c, -1, -1, dir_capture(b, p, r, c, -1, -1));
    let b2 = flip_to(b1, p, r, c, -1, 0, dir_capture(b, p, r, c, -1, 0));
    let b3 = flip_to(b2, p, r, c, -1, 1, dir_capture(b, p, r, c, -1, 1));
    let b4 = flip_to(b3, p, r, c, 0, -1, dir_capture(b, p, r, c, 0, -1));
    let b5 = flip_to(b4, p, r, c, 0, 1, dir_capture(b, p, r, c, 0, 1));
    let b6 = flip_to(b5, p, r, c, 1, -1, dir_capture(b, p, r, c, 1, -1));
    let b7 = flip_to(b6, p, r, c, 1, 0, dir_capture(b, p, r, c, 1, 0));
    flip_to(b7, p, r, c, 1, 1, dir_capture(b, p, r, c, 1, 1))
}

/// The cells of a captured run are on the grid and hold opponent discs.
pub proof fn lemma_capture_cells(b: Seq<Disc>, p: Disc, r: int, c: int, dr: int, dc: int)
    requires
        is_dir(dr, dc),
        in_b(r, c),
    ensures
        0 <= dir_capture(b, p, r, c, dr, dc) <= 8,
        forall|j: int| 1 <= j <= dir_capture(b, p, r, c, dr, dc)
            ==> #[trigger] in_b(r + j * dr, c + j * dc),
        forall|j: int| 1 <= j <= dir_capture(b, p, r, c, dr, dc)
            ==> b[#[trigger] ray_idx(r, c, dr, dc, j)] == opponent_of(p),
{
    lemma_run_props(b, p, r + dr, c + dc, dr, dc);
    let n = dir_capture(b, p, r, c, dr, dc);
    assert forall|j: int| 1 <= j <= n implies #[trigger] in_b(r + j * dr, c + j * dc) by {
        assert(0 <= j - 1 < run_len(b, p, r + dr, c + dc, dr, dc));
        assert(ray_opp(b, p, r + dr, c + dc, dr, dc, j - 1));
        assert(r + dr + (j - 1) * dr == r + j * dr) by (nonlinear_arith);
        assert(c + dc + (j - 1) * dc == c + j * dc) by (nonlinear_arith);
    }
    assert forall|j: int| 1 <= j <= n
        implies b[#[trigger] ray_idx(r, c, dr, dc, j)] == opponent_of(p) by {
        assert(0 <= j - 1 < run_len(b, p, r + dr, c + dc, dr, dc));
        assert(ray_opp(b, p, r + dr, c + dc, dr, dc, j - 1));
        assert(r + dr + (j - 1) * dr == r + j * dr) by (nonlinear_arith);
        assert(c + dc + (j - 1) * dc == c + j * dc) by (nonlinear_arith);
    }
}

/// Distinct directions from the same origin reach distinct cells.
pub proof fn lemma_rays_disjoint(
    r: int, c: int,
    dr1: int, dc1: int, j: int,
    dr2: int, dc2: int, k: int,
)
    requires
        is_dir(dr1, dc1),
        is_dir(dr2, dc2),
        !(dr1 == dr2 && dc1 == dc2),
        j >= 1,
        k >= 1,
        in_b(r + j * dr1, c + j * dc1),
        in_b(r + k * dr2, c + k * dc2),
    ensures
        ray_idx(r, c, dr1, dc1, j) != ray_idx(r, c, dr2, dc2, k),
{
    if ray_idx(r, c, dr1, dc1, j) == ray_idx(r, c, dr2, dc2, k) {
        assert(r + j * dr1 == r + k * dr2 && c + j * dc1 == c + k * dc2) by (nonlinear_arith)
            requires
                in_b(r + j * dr1, c + j * dc1),
                in_b(r + k * dr2, c + k * dc2),
                (r + j * dr1) * 8 + (c + j * dc1) == (r + k * dr2) * 8 + (c + k * dc2),
        ;
        assert(false) by (nonlinear_arith)
            requires
                j >= 1,
                k >= 1,
                -1 <= dr1 <= 1,
                -1 <= dc1 <= 1,
                -1 <= dr2 <= 1,
                -1 <= dc2 <= 1,
                !(dr1 == dr2 && dc1 == dc2),
                !(dr1 == 0 && dc1 == 0),
                !(dr2 == 0 && dc2 == 0),
                j * dr1 == k * dr2,
                j * dc1 == k * dc2,
        ;
    }
}

/// No ray cell coincides with its own origin.
pub proof fn lemma_origin_off_ray(r: int, c: int, dr: int, dc: int, j: int)
    requires
        is_dir(dr, dc),
        j >= 1,
        in_b(r, c),
        in_b(r + j * dr, c + j * dc),
    ensures
        ray_idx(r, c, dr, dc, j) != r * 8 + c,
{
    if ray_idx(r, c, dr, dc, j) == r * 8 + c {
        assert(r + j * dr == r && c + j * dc == c) by (nonlinear_arith)
            requires
                in_b(r + j * dr, c + j * dc),
                in_b(r, c),
                (r + j * dr) * 8 + (c + j * dc) == r * 8 + c,
        ;
        assert(false) by (nonlinear_arith)
            requires
                j >= 1,
                !(dr == 0 && dc == 0),
                j * dr == 0,
                j * dc == 0,
        ;
    }
}

/// Flipping leaves the board size unchanged, touches only ray cells, and
/// makes every flipped ray cell hold the mover's disc.
pub proof fn lemma_flip_frame(b: Seq<Disc>, p: Disc, r: int, c: int, dr: int, dc: int, k: int)
    requires
        b.len() == 64,
        forall|j: int| 1 <= j <= k ==> #[trigger] in_b(r + j * dr, c + j * dc),
    ensures
        flip_to(b, p, r, c, dr, dc, k).len() == 64,
        forall|i: int| 0 <= i < 64 && !on_ray(r, c, dr, dc, k, i)
            ==> flip_to(b, p, r, c, dr, dc, k)[i] == b[i],
        forall|j: int| 1 <= j <= k
            ==> flip_to(b, p, r, c, dr, dc, k)[#[trigger] ray_idx(r, c, dr, dc, j)] == p,
    decreases k,
{
    if k > 0 {
        lemma_flip_frame(b, p, r, c, dr, dc, k - 1);
        let prev = flip_to(b, p, r, c, dr, dc, k - 1);
        let cur = flip_to(b, p, r, c, dr, dc, k);
        assert(in_b(r + k * dr, c + k * dc));
        assert(0 <= ray_idx(r, c, dr, dc, k) < 64);
        assert(cur == prev.update(ray_idx(r, c, dr, dc, k), p));
        assert forall|i: int| 0 <= i < 64 && !on_ray(r, c, dr, dc, k, i)
            implies cur[i] == b[i] by {
            assert(!on_ray(r, c, dr, dc, k - 1, i));
            assert(i != ray_idx(r, c, dr, dc, k));
        }
        assert forall|j: int| 1 <= j <= k
            implies cur[#[trigger] ray_idx(r, c, dr, dc, j)] == p by {
            assert(in_b(r + j * dr, c + j * dc));
            assert(0 <= ray_idx(r, c, dr, dc, j) < 64);
            if j < k {
                assert(prev[ray_idx(r, c, dr, dc, j)] == p);
                if ray_idx(r, c, dr, dc, j) != ray_idx(r, c, dr, dc, k) {
                    assert(cur[ray_idx(r, c, dr, dc, j)] == prev[ray_idx(r, c, dr, dc, j)]);
                }
            }
        }
    }
}

/// Flipping `k` opponent cells moves `k` discs from the opponent to the
/// mover and leaves empty cells empty.
pub proof fn lemma_flip_counts(b: Seq<Disc>, p: Disc, r: int, c: int, dr: int, dc: int, k: int)
    requires
        b.len() == 64,
        is_player(p),
        is_dir(dr, dc),
        k >= 0,
        forall|j: int| 1 <= j <= k ==> #[trigger] in_b(r + j * dr, c + j * dc),
        forall|j: int| 1 <= j <= k ==> b[#[trigger] ray_idx(r, c, dr, dc, j)] == opponent_of(p),
    ensures
        count_disc(flip_to(b, p, r, c, dr, dc, k), p) == count_disc(b, p) + k,
        count_disc(flip_to(b, p, r, c, dr, dc, k), opponent_of(p))
            == count_disc(b, opponent_of(p)) - k,
        count_disc(flip_to(b, p, r, c, dr, dc, k), Disc::Empty) == count_disc(b, Disc::Empty),
    decreases k,
{
    if k > 0 {
        lemma_flip_counts(b, p, r, c, dr, dc, k - 1);
        let prev = flip_to(b, p, r, c, dr, dc, k - 1);
        let i = ray_idx(r, c, dr, dc, k);
        assert(in_b(r + k * dr, c + k * dc));
        assert(0 <= i < 64);
        lemma_flip_frame(b, p, r, c, dr, dc, k - 1);
        // the cell being flipped is untouched so far, hence an opponent disc
        assert(prev[i] == b[i]) by {
            if on_ray(r, c, dr, dc, k - 1, i) {
                let j = choose|j: int| 1 <= j <= k - 1 && i == #[trigger] ray_idx(r, c, dr, dc, j);
                assert(r + j * dr == r + k * dr && c + j * dc == c + k * dc) by (nonlinear_arith)
                    requires
                        in_b(r + j * dr, c + j * dc),
                        in_b(r + k * dr, c + k * dc),
                        (r + j * dr) * 8 + (c + j * dc) == (r + k * dr) * 8 + (c + k * dc),
                ;
                assert(false) by (nonlinear_arith)
                    requires
                        1 <= j <= k - 1,
                        !(dr == 0 && dc == 0),
                        j * dr == k * dr,
                        j * dc == k * dc,
                ;
            }
        }
        assert(b[ray_idx(r, c, dr, dc, k)] == opponent_of(p));
        assert(prev[i] == opponent_of(p));
        lemma_count_update(prev, p, i, p, 64);
        lemma_count_update(prev, opponent_of(p), i, p, 64);
        lemma_count_update(prev, Disc::Empty, i, p, 64);
    }
}

/// Flipping one direction's run leaves every cell of every other direction's
/// ray unchanged.
pub proof fn lemma_flip_preserves_other_rays(
    bprev: Seq<Disc>, p: Disc, r: int, c: int, drd: int, dcd: int, nd: int,
)
    requires
        bprev.len() == 64,
        is_dir(drd, dcd),
        0 <= nd <= 8,
        forall|j: int| 1 <= j <= nd ==> #[trigger] in_b(r + j * drd, c + j * dcd),
    ensures
        forall|dr: int, dc: int, j: int|
            is_dir(dr, dc) && !(dr == drd && dc == dcd) && 1 <= j <= 8
                && in_b(r + j * dr, c + j * dc)
            ==> flip_to(bprev, p, r, c, drd, dcd, nd)[#[trigger] ray_idx(r, c, dr, dc, j)]
                == bprev[ray_idx(r, c, dr, dc, j)],
{
    lemma_flip_frame(bprev, p, r, c, drd, dcd, nd);
    assert forall|dr: int, dc: int, j: int|
        is_dir(dr, dc) && !(dr == drd && dc == dcd) && 1 <= j <= 8
            && in_b(r + j * dr, c + j * dc)
        implies flip_to(bprev, p, r, c, drd, dcd, nd)[#[trigger] ray_idx(r, c, dr, dc, j)]
            == bprev[ray_idx(r, c, dr, dc, j)] by {
        let i = ray_idx(r, c, dr, dc, j);
        assert(0 <= i < 64);
        if on_ray(r, c, drd, dcd, nd, i) {
            let jj = choose|jj: int| 1 <= jj <= nd && i == #[trigger] ray_idx(r, c, drd, dcd, jj);
            assert(in_b(r + jj * drd, c + jj * dcd));
            lemma_rays_disjoint(r, c, drd, dcd, jj, dr, dc, j);
            assert(false);
        }
    }
}

/// One step of the flip chain: if the direction's ray cells still hold what
/// the pre-move board held there, flipping that direction's captured run
/// moves exactly that many discs from the opponent to the mover and leaves
/// every other direction's ray untouched.
proof fn lemma_flip_chain_step(b: Seq<Disc>, cur: Seq<Disc>, p: Disc, r: int, c: int, dr: int, dc: int)
    requires
        board_ok(b),
        cur.len() == 64,
        is_player(p),
        in_b(r, c),
        is_dir(dr, dc),
        forall|j: int| 1 <= j <= 8 && in_b(r + j * dr, c + j * dc)
            ==> cur[#[trigger] ray_idx(r, c, dr, dc, j)] == b[ray_idx(r, c, dr, dc, j)],
    ensures
        flip_to(cur, p, r, c, dr, dc, dir_capture(b, p, r, c, dr, dc)).len() == 64,
        count_disc(flip_to(cur, p, r, c, dr, dc, dir_capture(b, p, r, c, dr, dc)), p)
            == count_disc(cur, p) + dir_capture(b, p, r, c, dr, dc),
        count_disc(flip_to(cur, p, r, c, dr, dc, dir_capture(b, p, r, c, dr, dc)), opponent_of(p))
            == count_disc(cur, opponent_of(p)) - dir_capture(b, p, r, c, dr, dc),
        count_disc(flip_to(cur, p, r, c, dr, dc, dir_capture(b, p, r, c, dr, dc)), Disc::Empty)
            == count_disc(cur, Disc::Empty),
        forall|dr2: int, dc2: int, j: int|
            is_dir(dr2, dc2) && !(dr2 == dr && dc2 == dc) && 1 <= j <= 8
                && in_b(r + j * dr2, c + j * dc2)
            ==> flip_to(cur, p, r, c, dr, dc, dir_capture(b, p, r, c, dr, dc))
                [#[trigger] ray_idx(r, c, dr2, dc2, j)] == cur[ray_idx(r, c, dr2, dc2, j)],
{
    let n = dir_capture(b, p, r, c, dr, dc);
    lemma_capture_cells(b, p, r, c, dr, dc);
    assert forall|j: int| 1 <= j <= n
        implies cur[#[trigger] ray_idx(r, c, dr, dc, j)] == opponent_of(p) by {
        assert(in_b(r + j * dr, c + j * dc));
        assert(0 <= ray_idx(r, c, dr, dc, j) < 64);
        assert(cur[ray_idx(r, c, dr, dc, j)] == b[ray_idx(r, c, dr, dc, j)]);
        assert(b[ray_idx(r, c, dr, dc, j)] == opponent_of(p));
    }
    lemma_flip_counts(cur, p, r, c, dr, dc, n);
    lemma_flip_frame(cur, p, r, c, dr, dc, n);
    lemma_flip_preserves_other_rays(cur, p, r, c, dr, dc, n);
}

/// Applying a legal move raises the mover's disc count by exactly one plus
/// the move's capture score, lowers the opponent's count by exactly the
/// capture score, and occupies exactly one previously empty cell. In
/// particular the mover's count never decreases and the number of occupied
/// cells grows by exactly one.
#[verifier::rlimit(100)]
pub proof fn lemma_make_move_counts(b: Seq<Disc>, p: Disc, r: int, c: int)
    requires
        board_ok(b),
        is_player(p),
        in_b(r, c),
        cell_score(b, p, r, c) > 0,
    ensures
        board_ok(spec_apply_move(b, p, r, c)),
        count_disc(spec_apply_move(b, p, r, c), p)
            == count_disc(b, p) + 1 + cell_score(b, p, r, c),
        count_disc(spec_apply_move(b, p, r, c), opponent_of(p))
            == count_disc(b, opponent_of(p)) - cell_score(b, p, r, c),
        count_disc(spec_apply_move(b, p, r, c), Disc::Empty)
            == count_disc(b, Disc::Empty) - 1,
{
    let o = opponent_of(p);
    let n1 = dir_capture(b, p, r, c, -1, -1);
    let n2 = dir_capture(b, p, r, c, -1, 0);
    let n3 = dir_capture(b, p, r, c, -1, 1);
    let n4 = dir_capture(b, p, r, c, 0, -1);
    let n5 = dir_capture(b, p, r, c, 0, 1);
    let n6 = dir_capture(b, p, r, c, 1, -1);
    let n7 = dir_capture(b, p, r, c, 1, 0);
    let n8 = dir_capture(b, p, r, c, 1, 1);
    lemma_capture_cells(b, p, r, c, -1, -1);
    lemma_capture_cells(b, p, r, c, -1, 0);
    lemma_capture_cells(b, p, r, c, -1, 1);
    lemma_capture_cells(b, p, r, c, 0, -1);
    lemma_capture_cells(b, p, r, c, 0, 1);
    lemma_capture_cells(b, p, r, c, 1, -1);
    lemma_capture_cells(b, p, r, c, 1, 0);
    lemma_capture_cells(b, p, r, c, 1, 1);
    assert(at(b, r, c) == Disc::Empty);
    let b0 = b.update(r * 8 + c, p);
    lemma_count_update(b, p, r * 8 + c, p, 64);
    lemma_count_update(b, o, r * 8 + c, p, 64);
    lemma_count_update(b, Disc::Empty, r * 8 + c, p, 64);
    // the placement does not touch any ray cell
    assert forall|dr: int, dc: int, j: int|
        is_dir(dr, dc) && 1 <= j <= 8 && in_b(r + j * dr, c + j * dc)
        implies b0[#[trigger] ray_idx(r, c, dr, dc, j)] == b[ray_idx(r, c, dr, dc, j)] by {
        lemma_origin_off_ray(r, c, dr, dc, j);
        assert(0 <= ray_idx(r, c, dr, dc, j) < 64);
    }
    let b1 = flip_to(b0, p, r, c, -1, -1, n1);
    lemma_flip_chain_step(b, b0, p, r, c, -1, -1);
    assert forall|dr: int, dc: int, j: int|
        is_dir(dr, dc) && !(dr == -1 && dc == -1) && 1 <= j <= 8
            && in_b(r + j * dr, c + j * dc)
        implies b1[#[trigger] ray_idx(r, c, dr, dc, j)] == b[ray_idx(r, c, dr, dc, j)] by {
        assert(b0[ray_idx(r, c, dr, dc, j)] == b[ray_idx(r, c, dr, dc, j)]);
    }
    let b2 = flip_to(b1, p, r, c, -1, 0, n2);
    lemma_flip_chain_step(b, b1, p, r, c, -1, 0);
    assert forall|dr: int, dc: int, j: int|
        is_dir(dr, dc) && !(dr == -1 && dc == -1) && !(dr == -1 && dc == 0) && 1 <= j <= 8
            && in_b(r + j * dr, c + j * dc)
        implies b2[#[trigger] ray_idx(r, c, dr, dc, j)] == b[ray_idx(r, c, dr, dc, j)] by {
        assert(b1[ray_idx(r, c, dr, dc, j)] == b[ray_idx(r, c, dr, dc, j)]);
    }
    let b3 = flip_to(b2, p, r, c, -1, 1, n3);
    lemma_flip_chain_step(b, b2, p, r, c, -1, 1);
    assert forall|dr: int, dc: int, j: int|
        is_dir(dr, dc) && !(dr == -1) && 1 <= j <= 8 && in_b(r + j * dr, c + j * dc)
        implies b3[#[trigger] ray_idx(r, c, dr, dc, j)] == b[ray_idx(r, c, dr, dc, j)] by {
        assert(b2[ray_idx(r, c, dr, dc, j)] == b[ray_idx(r, c, dr, dc, j)]);
    }
    let b4 = flip_to(b3, p, r, c, 0, -1, n4);
    lemma_flip_chain_step(b, b3, p, r, c, 0, -1);
    assert forall|dr: int, dc: int, j: int|
        is_dir(dr, dc) && !(dr == -1) && !(dr == 0 && dc == -1) && 1 <= j <= 8
            && in_b(r + j * dr, c + j * dc)
        implies b4[#[trigger] ray_idx(r, c, dr, dc, j)] == b[ray_idx(r, c, dr, dc, j)] by {
        assert(b3[ray_idx(r, c, dr, dc, j)] == b[ray_idx(r, c, dr, dc, j)]);
    }
    let b5 = flip_to(b4, p, r, c, 0, 1, n5);
    lemma_flip_chain_step(b, b4, p, r, c, 0, 1);
    assert forall|dr: int, dc: int, j: int|
        is_dir(dr, dc) && dr == 1 && 1 <= j <= 8 && in_b(r + j * dr, c + j * dc)
        implies b5[#[trigger] ray_idx(r, c, dr, dc, j)] == b[ray_idx(r, c, dr, dc, j)] by {
        assert(b4[ray_idx(r, c, dr, dc, j)] == b[ray_idx(r, c, dr, dc, j)]);
    }
    let b6 = flip_to(b5, p, r, c, 1, -1, n6);
    lemma_flip_chain_step(b, b5, p, r, c, 1, -1);
    assert forall|dr: int, dc: int, j: int|
        is_dir(dr, dc) && dr == 1 && dc >= 0 && 1 <= j <= 8 && in_b(r + j * dr, c + j * dc)
        implies b6[#[trigger] ray_idx(r, c, dr, dc, j)] == b[ray_idx(r, c, dr, dc, j)] by {
        assert(b5[ray_idx(r, c, dr, dc, j)] == b[ray_idx(r, c, dr, dc, j)]);
    }
    let b7 = flip_to(b6, p, r, c, 1, 0, n7);
    lemma_flip_chain_step(b, b6, p, r, c, 1, 0);
    assert forall|dr: int, dc: int, j: int|
        is_dir(dr, dc) && dr == 1 && dc == 1 && 1 <= j <= 8 && in_b(r + j * dr, c + j * dc)
        implies b7[#[trigger] ray_idx(r, c, dr, dc, j)] == b[ray_idx(r, c, dr, dc, j)] by {
        assert(b6[ray_idx(r, c, dr, dc, j)] == b[ray_idx(r, c, dr, dc, j)]);
    }
    let b8 = flip_to(b7, p, r, c, 1, 1, n8);
    lemma_flip_chain_step(b, b7, p, r, c, 1, 1);
    assert(b8 == spec_apply_move(b, p, r, c));
    assert(cell_score(b, p, r, c) == n1 + n2 + n3 + n4 + n5 + n6 + n7 + n8);
}

/// Flip the first `n` ray cells to the mover's disc.
fn flip_run(board: &mut Board, player: Disc, r: usize, c: usize, dr: i32, dc: i32, n: u32)
    requires
        old(board).wf(),
        is_player(player),
        r < 8,
        c < 8,
        is_dir(dr as int, dc as int),
        n <= 8,
        forall|j: int| 1 <= j <= n ==> #[trigger] in_b(r + j * (dr as int), c + j * (dc as int)),
    ensures
        final(board).wf(),
        final(board)@ == flip_to(
            old(board)@, player, r as int, c as int, dr as int, dc as int, n as int),
{
    let mut k: u32 = 1;
    while k <= n
        invariant
            board.wf(),
            is_player(player),
            r < 8,
            c < 8,
            is_dir(dr as int, dc as int),
            n <= 8,
            1 <= k <= n + 1,
            forall|j: int| 1 <= j <= n
                ==> #[trigger] in_b(r + j * (dr as int), c + j * (dc as int)),
            board@ == flip_to(
                old(board)@, player, r as int, c as int, dr as int, dc as int, k - 1),
        decreases n + 1 - k,
    {
        proof {
            lemma_mul_step(k as int, dr as int);
            lemma_mul_step(k as int, dc as int);
            assert(in_b(r + (k as int) * (dr as int), c + (k as int) * (dc as int)));
        }
        let rr = r as i32 + (k as i32) * dr;
        let cc = c as i32 + (k as i32) * dc;
        board.set(rr as usize, cc as usize, player);
        proof {
            assert((rr as int) * 8 + (cc as int)
                == ray_idx(r as int, c as int, dr as int, dc as int, k as int));
        }
        k += 1;
    }
}

/// Apply a legal move: place the mover's disc at the target cell and flip
/// every captured run. The capture judgement is made on the incoming board,
/// exactly as the capture scores were computed.
pub fn make_move(player: Disc, player_move: (usize, usize), chessboard: &mut Board)
    requires
        old(chessboard).wf(),
        is_player(player),
        player_move.0 < 8,
        player_move.1 < 8,
        cell_score(old(chessboard)@, player, player_move.0 as int, player_move.1 as int) > 0,
    ensures
        final(chessboard).wf(),
        final(chessboard)@ == spec_apply_move(
            old(chessboard)@, player, player_move.0 as int, player_move.1 as int),
{
    let (mr, mc) = player_move;
    let ghost b = chessboard@;
    let ghost ri = mr as int;
    let ghost ci = mc as int;
    let n1 = capture_in_dir(chessboard, player, mr, mc, -1, -1);
    let n2 = capture_in_dir(chessboard, player, mr, mc, -1, 0);
    let n3 = capture_in_dir(chessboard, player, mr, mc, -1, 1);
    let n4 = capture_in_dir(chessboard, player, mr, mc, 0, -1);
    let n5 = capture_in_dir(chessboard, player, mr, mc, 0, 1);
    let n6 = capture_in_dir(chessboard, player, mr, mc, 1, -1);
    let n7 = capture_in_dir(chessboard, player, mr, mc, 1, 0);
    let n8 = capture_in_dir(chessboard, player, mr, mc, 1, 1);
    proof {
        lemma_capture_cells(b, player, ri, ci, -1, -1);
        lemma_capture_cells(b, player, ri, ci, -1, 0);
        lemma_capture_cells(b, player, ri, ci, -1, 1);
        lemma_capture_cells(b, player, ri, ci, 0, -1);
        lemma_capture_cells(b, player, ri, ci, 0, 1);
        lemma_capture_cells(b, player, ri, ci, 1, -1);
        lemma_capture_cells(b, player, ri, ci, 1, 0);
        lemma_capture_cells(b, player, ri, ci, 1, 1);
    }
    chessboard.set(mr, mc, player);
    flip_run(chessboard, player, mr, mc, -1, -1, n1);
    flip_run(chessboard, player, mr, mc, -1, 0, n2);
    flip_run(chessboard, player, mr, mc, -1, 1, n3);
    flip_run(chessboard, player, mr, mc, 0, -1, n4);
    flip_run(chessboard, player, mr, mc, 0, 1, n5);
    flip_run(chessboard, player, mr, mc, 1, -1, n6);
    flip_run(chessboard, player, mr, mc, 1, 0, n7);
    flip_run(chessboard, player, mr, mc, 1, 1, n8);
}

} // verus!

