//! The weighted heuristic evaluator: five independently toggleable
//! positional features, each with a fixed weight, summed into one exact
//! rational score. Positive scores favour the first player.

use vstd::prelude::*;
use crate::board::Board;
use crate::board::Disc;
use crate::board::at;
use crate::board::in_b;
use crate::board::count_upto;
use crate::board::count_disc;
use crate::board::lemma_count_bounds;
use crate::moves::cell_score;
use crate::moves::get_move_scores;
use crate::rational::Rat;
use crate::rational::Score;
use crate::rational::rat_zero;
use crate::rational::rat_add;
use crate::rational::score_add;

verus! {

/// The search configuration: maximum depth and the five feature toggles.
/// Passed unchanged through the whole search.
#[derive(Clone, Copy, Debug)]
pub struct AgentPlayer {
    pub max_depth: u32,
    pub use_coin_parity: bool,
    pub use_actual_mobility: bool,
    pub use_potential_mobility: bool,
    pub use_corner_score: bool,
    pub use_stability_score: bool,
}

/// Number of cells among the first `n` whose capture score for `p` is
/// positive: the player's actual mobility.
pub open spec fn mob_upto(b: Seq<Disc>, p: Disc, n: int) -> int
    decreases n,
{
    if n <= 0 {
        0
    } else {
        mob_upto(b, p, n - 1)
            + if cell_score(b, p, (n - 1) / 8, (n - 1) % 8) > 0 { 1int } else { 0int }
    }
}

pub open spec fn mobility(b: Seq<Disc>, p: Disc) -> int {
    mob_upto(b, p, 64)
}

pub proof fn lemma_mob_bounds(b: Seq<Disc>, p: Disc, n: int)
    ensures
        0 <= mob_upto(b, p, n) <= if n <= 0 { 0int } else { n },
    decreases n,
{
    if n > 0 {
        lemma_mob_bounds(b, p, n - 1);
    }
}

/// Some neighbour of (r, c) on the grid holds disc `d`.
pub open spec fn has_nb(b: Seq<Disc>, r: int, c: int, d: Disc) -> bool {
    (in_b(r - 1, c - 1) && at(b, r - 1, c - 1) == d)
    || (in_b(r - 1, c) && at(b, r - 1, c) == d)
    || (in_b(r - 1, c + 1) && at(b, r - 1, c + 1) == d)
    || (in_b(r, c - 1) && at(b, r, c - 1) == d)
    || (in_b(r, c + 1) && at(b, r, c + 1) == d)
    || (in_b(r + 1, c - 1) && at(b, r + 1, c - 1) == d)
    || (in_b(r + 1, c) && at(b, r + 1, c) == d)
    || (in_b(r + 1, c + 1) && at(b, r + 1, c + 1) == d)
}

/// Number of empty cells among the first `n` that have a neighbour holding
/// disc `d`. An empty cell next to an opponent disc is a potential move of
/// the opponent's opponent, so a player's potential mobility counts the
/// empty cells adjacent to the other player's discs.
pub open spec fn pot_upto(b: Seq<Disc>, d: Disc, n: int) -> int
    decreases n,
{
    if n <= 0 {
        0
    } else {
        pot_upto(b, d, n - 1)
            + if at(b, (n - 1) / 8, (n - 1) % 8) == Disc::Empty
                && has_nb(b, (n - 1) / 8, (n - 1) % 8, d) { 1int } else { 0int }
    }
}

pub open spec fn pot_count(b: Seq<Disc>, d: Disc) -> int {
    pot_upto(b, d, 64)
}

pub proof fn lemma_pot_bounds(b: Seq<Disc>, d: Disc, n: int)
    ensures
        0 <= pot_upto(b, d, n) <= if n <= 0 { 0int } else { n },
    decreases n,
{
    if n > 0 {
        lemma_pot_bounds(b, d, n - 1);
    }
}

/// One corner's contribution to a player's corner total: 2 for an owned
/// corner, 1 for an empty corner the player could capture, else 0.
pub open spec fn corner_val(b: Seq<Disc>, p: Disc, r: int, c: int) -> int {
    if at(b, r, c) == p {
        2
    } else if at(b, r, c) == Disc::Empty && cell_score(b, p, r, c) > 0 {
        1
    } else {
        0
    }
}

pub open spec fn corner_total(b: Seq<Disc>, p: Disc) -> int {
    corner_val(b, p, 0, 0) + corner_val(b, p, 0, 7) + corner_val(b, p, 7, 0)
        + corner_val(b, p, 7, 7)
}

/// The stability weight pattern on the first quadrant; the full pattern is
/// symmetric in both axes.
pub open spec fn quad_w(r: int, c: int) -> int {
    if r == 0 {
        if c == 0 { 4 } else if c == 1 { -3 } else { 2 }
    } else if r == 1 {
        if c == 0 { -3 } else if c == 1 { -4 } else { -1 }
    } else if r == 2 {
        if c == 0 { 2 } else if c == 1 { -1 } else if c == 2 { 1 } else { 0 }
    } else {
        if c == 0 { 2 } else if c == 1 { -1 } else if c == 2 { 0 } else { 1 }
    }
}

/// The fixed 8x8 stability weight of a cell: corners high, corner-adjacent
/// cells negative, interior graded.
pub open spec fn stab_weight(r: int, c: int) -> int {
    quad_w(if r < 4 { r } else { 7 - r }, if c < 4 { c } else { 7 - c })
}

/// Weighted disc ownership over the first `n` cells: + weight for the first
/// player's discs, - weight for the second player's.
pub open spec fn stab_upto(b: Seq<Disc>, n: int) -> int
    decreases n,
{
    if n <= 0 {
        0
    } else {
        stab_upto(b, n - 1) + {
            let w = stab_weight((n - 1) / 8, (n - 1) % 8);
            if at(b, (n - 1) / 8, (n - 1) % 8) == Disc::First {
                w
            } else if at(b, (n - 1) / 8, (n - 1) % 8) == Disc::Second {
                -w
            } else {
                0
            }
        }
    }
}

pub open spec fn stab_diff(b: Seq<Disc>) -> int {
    stab_upto(b, 64)
}

pub proof fn lemma_stab_bounds(b: Seq<Disc>, n: int)
    ensures
        -4 * (if n <= 0 { 0int } else { n }) <= stab_upto(b, n)
            <= 4 * (if n <= 0 { 0int } else { n }),
    decreases n,
{
    if n > 0 {
        lemma_stab_bounds(b, n - 1);
        assert(-4 <= stab_weight((n - 1) / 8, (n - 1) % 8) <= 4);
    }
}

/// The coin-parity feature with its weight of 15.
pub open spec fn cp_term(b: Seq<Disc>) -> Rat {
    Rat { num: 15 * (count_disc(b, Disc::First) - count_disc(b, Disc::Second)), den: 1 }
}

/// The actual-mobility feature with its weight of 2: the normalized
/// difference of the players' legal-move counts, or 0 if neither can move.
pub open spec fn am_term(b: Seq<Disc>) -> Rat {
    let a = mobility(b, Disc::First);
    let m = mobility(b, Disc::Second);
    if a + m == 0 {
        rat_zero()
    } else {
        Rat { num: 2 * (a - m), den: a + m }
    }
}

/// The potential-mobility feature with its weight of 1: the normalized
/// difference of frontier-cell counts. A player's potential cells are the
/// empty cells adjacent to the other player's discs.
pub open spec fn pm_term(b: Seq<Disc>) -> Rat {
    let a = pot_count(b, Disc::Second);
    let m = pot_count(b, Disc::First);
    if a + m == 0 {
        rat_zero()
    } else {
        Rat { num: a - m, den: a + m }
    }
}

/// The corner feature with its weight of 18: the normalized difference of
/// the players' corner totals, or 0 if both totals are 0.
pub open spec fn cs_term(b: Seq<Disc>) -> Rat {
    let f = corner_total(b, Disc::First);
    let s = corner_total(b, Disc::Second);
    if f + s == 0 {
        rat_zero()
    } else {
        Rat { num: 18 * (f - s), den: f + s }
    }
}

/// The stability feature with its weight of 15: the weighted-ownership sum,
/// not normalized.
pub open spec fn st_term(b: Seq<Disc>) -> Rat {
    Rat { num: 15 * stab_diff(b), den: 1 }
}

/// The full evaluation: the sum of the enabled features' weighted values.
/// A disabled feature contributes exactly the rational zero.
pub open spec fn spec_heuristic(b: Seq<Disc>, cfg: AgentPlayer) -> Rat {
    let t1 = if cfg.use_coin_parity { cp_term(b) } else { rat_zero() };
    let t2 = if cfg.use_actual_mobility { am_term(b) } else { rat_zero() };
    let t3 = if cfg.use_potential_mobility { pm_term(b) } else { rat_zero() };
    let t4 = if cfg.use_corner_score { cs_term(b) } else { rat_zero() };
    let t5 = if cfg.use_stability_score { st_term(b) } else { rat_zero() };
    rat_add(rat_add(rat_add(rat_add(t1, t2), t3), t4), t5)
}

/// The evaluation is a well-formed rational: its denominator is positive.
pub proof fn lemma_heuristic_ok(b: Seq<Disc>, cfg: AgentPlayer)
    ensures
        spec_heuristic(b, cfg).den >= 1,
{
    lemma_mob_bounds(b, Disc::First, 64);
    lemma_mob_bounds(b, Disc::Second, 64);
    lemma_pot_bounds(b, Disc::First, 64);
    lemma_pot_bounds(b, Disc::Second, 64);
    let t1 = if cfg.use_coin_parity { cp_term(b) } else { rat_zero() };
    let t2 = if cfg.use_actual_mobility { am_term(b) } else { rat_zero() };
    let t3 = if cfg.use_potential_mobility { pm_term(b) } else { rat_zero() };
    let t4 = if cfg.use_corner_score { cs_term(b) } else { rat_zero() };
    let t5 = if cfg.use_stability_score { st_term(b) } else { rat_zero() };
    assert(t1.den >= 1);
    assert(t2.den >= 1);
    assert(t3.den >= 1);
    assert(t4.den >= 1);
    assert(t5.den >= 1);
    assert(spec_heuristic(b, cfg).den
        == t1.den * t2.den * t3.den * t4.den * t5.den);
    assert(t1.den * t2.den * t3.den * t4.den * t5.den >= 1) by (nonlinear_arith)
        requires
            t1.den >= 1,
            t2.den >= 1,
            t3.den >= 1,
            t4.den >= 1,
            t5.den >= 1,
    ;
}

/// Adding the rational zero changes nothing, not even the representation.
pub proof fn lemma_rat_add_zero(a: Rat)
    ensures
        rat_add(a, rat_zero()) == a,
        rat_add(rat_zero(), a) == a,
{
    assert(a.num * 1 == a.num);
    assert(a.den * 1 == a.den);
    assert(0 * a.den == 0) by (nonlinear_arith);
    assert(1 * a.den == a.den) by (nonlinear_arith);
    assert(rat_add(a, rat_zero()) == Rat { num: a.num, den: a.den });
    assert(rat_add(rat_zero(), a) == Rat { num: a.num, den: a.den });
    assert(Rat { num: a.num, den: a.den } == a);
}

/// With every toggle off, the evaluation is exactly zero.
pub proof fn lemma_heuristic_all_disabled(b: Seq<Disc>, cfg: AgentPlayer)
    requires
        !cfg.use_coin_parity,
        !cfg.use_actual_mobility,
        !cfg.use_potential_mobility,
        !cfg.use_corner_score,
        !cfg.use_stability_score,
    ensures
        spec_heuristic(b, cfg) == rat_zero(),
{
}

/// With only coin parity enabled, the evaluation is exactly that feature's
/// weighted value, whatever the board holds.
pub proof fn lemma_heuristic_only_coin_parity(b: Seq<Disc>, cfg: AgentPlayer)
    requires
        cfg.use_coin_parity,
        !cfg.use_actual_mobility,
        !cfg.use_potential_mobility,
        !cfg.use_corner_score,
        !cfg.use_stability_score,
    ensures
        spec_heuristic(b, cfg) == cp_term(b),
{
}

/// With only actual mobility enabled, the evaluation is exactly that
/// feature's weighted value.
pub proof fn lemma_heuristic_only_actual_mobility(b: Seq<Disc>, cfg: AgentPlayer)
    requires
        !cfg.use_coin_parity,
        cfg.use_actual_mobility,
        !cfg.use_potential_mobility,
        !cfg.use_corner_score,
        !cfg.use_stability_score,
    ensures
        spec_heuristic(b, cfg) == am_term(b),
{
    lemma_rat_add_zero(am_term(b));
    lemma_rat_add_zero(rat_zero());
}

/// With only potential mobility enabled, the evaluation is exactly that
/// feature's weighted value.
pub proof fn lemma_heuristic_only_potential_mobility(b: Seq<Disc>, cfg: AgentPlayer)
    requires
        !cfg.use_coin_parity,
        !cfg.use_actual_mobility,
        cfg.use_potential_mobility,
        !cfg.use_corner_score,
        !cfg.use_stability_score,
    ensures
        spec_heuristic(b, cfg) == pm_term(b),
{
    lemma_rat_add_zero(pm_term(b));
    lemma_rat_add_zero(rat_zero());
}

/// With only the corner feature enabled, the evaluation is exactly that
/// feature's weighted value.
pub proof fn lemma_heuristic_only_corner_score(b: Seq<Disc>, cfg: AgentPlayer)
    requires
        !cfg.use_coin_parity,
        !cfg.use_actual_mobility,
        !cfg.use_potential_mobility,
        cfg.use_corner_score,
        !cfg.use_stability_score,
    ensures
        spec_heuristic(b, cfg) == cs_term(b),
{
    lemma_rat_add_zero(cs_term(b));
    lemma_rat_add_zero(rat_zero());
}

/// With only the stability feature enabled, the evaluation is exactly that
/// feature's weighted value.
pub proof fn lemma_heuristic_only_stability(b: Seq<Disc>, cfg: AgentPlayer)
    requires
        !cfg.use_coin_parity,
        !cfg.use_actual_mobility,
        !cfg.use_potential_mobility,
        !cfg.use_corner_score,
        cfg.use_stability_score,
    ensures
        spec_heuristic(b, cfg) == st_term(b),
{
    lemma_rat_add_zero(st_term(b));
    lemma_rat_add_zero(rat_zero());
}

/// Count the cells of a 64-entry capture-score grid that hold a positive
/// score.
fn count_positive(scores: &Vec<u32>, Ghost(b): Ghost<Seq<Disc>>, Ghost(p): Ghost<Disc>)
    -> (cnt: i64)
    requires
        scores@.len() == 64,
        forall|r: int, c: int| in_b(r, c)
            ==> scores@[r * 8 + c] as int == #[trigger] cell_score(b, p, r, c),
    ensures
        cnt as int == mobility(b, p),
        0 <= cnt <= 64,
{
    let mut cnt: i64 = 0;
    let mut i: usize = 0;
    while i < 64
        invariant
            scores@.len() == 64,
            forall|r: int, c: int| in_b(r, c)
                ==> scores@[r * 8 + c] as int == #[trigger] cell_score(b, p, r, c),
            i <= 64,
            0 <= cnt <= i,
            cnt as int == mob_upto(b, p, i as int),
        decreases 64 - i,
    {
        proof {
            let r = i as int / 8;
            let c = i as int % 8;
            assert(in_b(r, c));
            assert(r * 8 + c == i as int);
            assert(scores@[i as int] as int == cell_score(b, p, r, c));
        }
        if scores[i] > 0 {
            cnt = cnt + 1;
        }
        i += 1;
    }
    cnt
}

/// Does some neighbour of (r, c) hold disc `d`?
fn has_neighbor(board: &Board, r: usize, c: usize, d: Disc) -> (found: bool)
    requires
        board.wf(),
        r < 8,
        c < 8,
    ensures
        found == has_nb(board@, r as int, c as int, d),
{
    let mut found = false;
    if r > 0 && c > 0 && board.get(r - 1, c - 1) == d {
        found = true;
    }
    if r > 0 && board.get(r - 1, c) == d {
        found = true;
    }
    if r > 0 && c < 7 && board.get(r - 1, c + 1) == d {
        found = true;
    }
    if c > 0 && board.get(r, c - 1) == d {
        found = true;
    }
    if c < 7 && board.get(r, c + 1) == d {
        found = true;
    }
    if r < 7 && c > 0 && board.get(r + 1, c - 1) == d {
        found = true;
    }
    if r < 7 && board.get(r + 1, c) == d {
        found = true;
    }
    if r < 7 && c < 7 && board.get(r + 1, c + 1) == d {
        found = true;
    }
    found
}

/// Count the empty cells that have a neighbour holding disc `d`.
fn count_potential(board: &Board, d: Disc) -> (cnt: i64)
    requires
        board.wf(),
    ensures
        cnt as int == pot_count(board@, d),
        0 <= cnt <= 64,
{
    let mut cnt: i64 = 0;
    let mut i: usize = 0;
    while i < 64
        invariant
            board.wf(),
            i <= 64,
            0 <= cnt <= i,
            cnt as int == pot_upto(board@, d, i as int),
        decreases 64 - i,
    {
        let r = i / 8;
        let c = i % 8;
        if board.get(r, c) == Disc::Empty {
            if has_neighbor(board, r, c, d) {
                cnt = cnt + 1;
            }
        }
        i += 1;
    }
    cnt
}

/// The executable stability weight of a cell.
fn stab_weight_at(r: usize, c: usize) -> (w: i64)
    requires
        r < 8,
        c < 8,
    ensures
        w as int == stab_weight(r as int, c as int),
        -4 <= w <= 4,
{
    let qr = if r < 4 { r } else { 7 - r };
    let qc = if c < 4 { c } else { 7 - c };
    if qr == 0 {
        if qc == 0 { 4 } else if qc == 1 { -3 } else { 2 }
    } else if qr == 1 {
        if qc == 0 { -3 } else if qc == 1 { -4 } else { -1 }
    } else if qr == 2 {
        if qc == 0 { 2 } else if qc == 1 { -1 } else if qc == 2 { 1 } else { 0 }
    } else {
        if qc == 0 { 2 } else if qc == 1 { -1 } else if qc == 2 { 0 } else { 1 }
    }
}

impl AgentPlayer {
    /// Evaluate a board: compute both players' capture-score grids, then
    /// sum the enabled features' weighted values as one exact rational.
    pub fn get_heuristic(&self, chessboard: &Board) -> (s: Score)
        requires
            chessboard.wf(),
        ensures
            s.wf(),
            s@ == spec_heuristic(chessboard@, *self),
    {
        let ghost b = chessboard@;
        let mut first_scores: Vec<u32> = vec![0u32; 64];
        let mut second_scores: Vec<u32> = vec![0u32; 64];
        get_move_scores(Disc::First, chessboard, &mut first_scores);
        get_move_scores(Disc::Second, chessboard, &mut second_scores);

        // coin parity
        let mut cf: i64 = 0;
        let mut cs: i64 = 0;
        let mut i: usize = 0;
        while i < 64
            invariant
                chessboard.wf(),
                b == chessboard@,
                i <= 64,
                0 <= cf <= i,
                0 <= cs <= i,
                cf as int == count_upto(b, Disc::First, i as int),
                cs as int == count_upto(b, Disc::Second, i as int),
            decreases 64 - i,
        {
            let r = i / 8;
            let c = i % 8;
            proof {
                assert((i as int) / 8 == r as int && (i as int) % 8 == c as int);
                assert(r as int * 8 + c as int == i as int);
            }
            let d = chessboard.get(r, c);
            proof {
                assert(d == b[i as int]);
            }
            if d == Disc::First {
                cf = cf + 1;
            } else if d == Disc::Second {
                cs = cs + 1;
            }
            i += 1;
        }

        // actual mobility
        let ma = count_positive(&first_scores, Ghost(b), Ghost(Disc::First));
        let mb = count_positive(&second_scores, Ghost(b), Ghost(Disc::Second));

        // potential mobility
        let pa = count_potential(chessboard, Disc::Second);
        let pb = count_potential(chessboard, Disc::First);

        // corners
        let mut corner_f: i64 = 0;
        let mut corner_s: i64 = 0;
        let corner_rs: [usize; 4] = [0, 0, 7, 7];
        let corner_cs: [usize; 4] = [0, 7, 0, 7];
        let mut k: usize = 0;
        while k < 4
            invariant
                chessboard.wf(),
                b == chessboard@,
                first_scores@.len() == 64,
                second_scores@.len() == 64,
                forall|r: int, c: int| in_b(r, c)
                    ==> first_scores@[r * 8 + c] as int
                        == #[trigger] cell_score(b, Disc::First, r, c),
                forall|r: int, c: int| in_b(r, c)
                    ==> second_scores@[r * 8 + c] as int
                        == #[trigger] cell_score(b, Disc::Second, r, c),
                corner_rs@ =~= seq![0usize, 0usize, 7usize, 7usize],
                corner_cs@ =~= seq![0usize, 7usize, 0usize, 7usize],
                k <= 4,
                corner_f as int == corner_acc(b, Disc::First, k as int),
                corner_s as int == corner_acc(b, Disc::Second, k as int),
                0 <= corner_f <= 2 * k,
                0 <= corner_s <= 2 * k,
            decreases 4 - k,
        {
            let r = corner_rs[k];
            let c = corner_cs[k];
            let d = chessboard.get(r, c);
            if d == Disc::First {
                corner_f = corner_f + 2;
            } else if d == Disc::Second {
                corner_s = corner_s + 2;
            } else {
                if first_scores[r * 8 + c] > 0 {
                    corner_f = corner_f + 1;
                }
                if second_scores[r * 8 + c] > 0 {
                    corner_s = corner_s + 1;
                }
            }
            k += 1;
        }
        proof {
            assert(corner_f as int == corner_total(b, Disc::First));
            assert(corner_s as int == corner_total(b, Disc::Second));
        }

        // stability
        let mut st: i64 = 0;
        let mut i2: usize = 0;
        while i2 < 64
            invariant
                chessboard.wf(),
                b == chessboard@,
                i2 <= 64,
                -4 * (i2 as int) <= st <= 4 * (i2 as int),
                st as int == stab_upto(b, i2 as int),
            decreases 64 - i2,
        {
            let r = i2 / 8;
            let c = i2 % 8;
            let d = chessboard.get(r, c);
            let w = stab_weight_at(r, c);
            if d == Disc::First {
                st = st + w;
            } else if d == Disc::Second {
                st = st - w;
            }
            i2 += 1;
        }

        // assemble the exact rational sum
        proof {
            lemma_count_bounds(b, Disc::First, 64);
            lemma_count_bounds(b, Disc::Second, 64);
        }
        let t1 = if self.use_coin_parity {
            Score { num: 15 * (cf - cs), den: 1 }
        } else {
            Score::zero()
        };
        let t2 = if self.use_actual_mobility {
            if ma + mb == 0 {
                Score::zero()
            } else {
                Score { num: 2 * (ma - mb), den: ma + mb }
            }
        } else {
            Score::zero()
        };
        let t3 = if self.use_potential_mobility {
            if pa + pb == 0 {
                Score::zero()
            } else {
                Score { num: pa - pb, den: pa + pb }
            }
        } else {
            Score::zero()
        };
        let t4 = if self.use_corner_score {
            if corner_f + corner_s == 0 {
                Score::zero()
            } else {
                Score { num: 18 * (corner_f - corner_s), den: corner_f + corner_s }
            }
        } else {
            Score::zero()
        };
        let t5 = if self.use_stability_score {
            Score { num: 15 * st, den: 1 }
        } else {
            Score::zero()
        };
        proof {
            assert(-960 <= t1.num <= 960 && t1.den == 1);
            assert(-128 <= t2.num <= 128 && 1 <= t2.den <= 128);
            assert(-64 <= t3.num <= 64 && 1 <= t3.den <= 128);
            assert(-288 <= t4.num <= 288 && 1 <= t4.den <= 16);
            assert(-3840 <= t5.num <= 3840 && t5.den == 1);
        }
        let s1 = t1;
        proof {
            assert(s1.num * t2.den + t2.num * s1.den <= 960 * 128 + 128 * 1) by (nonlinear_arith)
                requires -960 <= s1.num <= 960, s1.den == 1, -128 <= t2.num <= 128,
                    1 <= t2.den <= 128,
            ;
            assert(s1.num * t2.den + t2.num * s1.den >= -960 * 128 - 128 * 1) by (nonlinear_arith)
                requires -960 <= s1.num <= 960, s1.den == 1, -128 <= t2.num <= 128,
                    1 <= t2.den <= 128,
            ;
        }
        let s2 = score_add(&s1, &t2);
        proof {
            assert(s2.den <= 128);
            assert(-123008 <= s2.num <= 123008);
            assert(s2.den * t3.den <= 16384 && 1 <= s2.den * t3.den) by (nonlinear_arith)
                requires 1 <= s2.den <= 128, 1 <= t3.den <= 128,
            ;
            assert(-123008 * 128 - 64 * 128 <= s2.num * t3.den + t3.num * s2.den
                <= 123008 * 128 + 64 * 128) by (nonlinear_arith)
                requires -123008 <= s2.num <= 123008, 1 <= s2.den <= 128,
                    -64 <= t3.num <= 64, 1 <= t3.den <= 128,
            ;
        }
        let s3 = score_add(&s2, &t3);
        proof {
            assert(s3.den <= 16384);
            assert(-15753216 <= s3.num <= 15753216);
            assert(s3.den * t4.den <= 262144 && 1 <= s3.den * t4.den) by (nonlinear_arith)
                requires 1 <= s3.den <= 16384, 1 <= t4.den <= 16,
            ;
            assert(-15753216 * 16 - 288 * 16384 <= s3.num * t4.den + t4.num * s3.den
                <= 15753216 * 16 + 288 * 16384) by (nonlinear_arith)
                requires -15753216 <= s3.num <= 15753216, 1 <= s3.den <= 16384,
                    -288 <= t4.num <= 288, 1 <= t4.den <= 16,
            ;
        }
        let s4 = score_add(&s3, &t4);
        proof {
            assert(s4.den <= 262144);
            assert(-256770048 <= s4.num <= 256770048);
            assert(s4.den * t5.den <= 262144 && 1 <= s4.den * t5.den) by (nonlinear_arith)
                requires 1 <= s4.den <= 262144, t5.den == 1,
            ;
            assert(-256770048 * 1 - 3840 * 262144 <= s4.num * t5.den + t5.num * s4.den
                <= 256770048 * 1 + 3840 * 262144) by (nonlinear_arith)
                requires -256770048 <= s4.num <= 256770048, 1 <= s4.den <= 262144,
                    -3840 <= t5.num <= 3840, t5.den == 1,
            ;
        }
        let s5 = score_add(&s4, &t5);
        proof {
            assert(s5@ == spec_heuristic(b, *self));
        }
        s5
    }
}

/// The corner totals accumulated over the first `k` corners, in the fixed
/// order (0,0), (0,7), (7,0), (7,7).
pub open spec fn corner_acc(b: Seq<Disc>, p: Disc, k: int) -> int {
    if k <= 0 {
        0
    } else if k == 1 {
        corner_val(b, p, 0, 0)
    } else if k == 2 {
        corner_val(b, p, 0, 0) + corner_val(b, p, 0, 7)
    } else if k == 3 {
        corner_val(b, p, 0, 0) + corner_val(b, p, 0, 7) + corner_val(b, p, 7, 0)
    } else {
        corner_total(b, p)
    }
}

} // verus!
