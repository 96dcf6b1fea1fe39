//! Exact rational evaluation scores. The evaluator combines ratio-valued
//! features, so scores are kept as exact fractions: a numerator and a
//! positive denominator. All comparisons the search makes are exact rational
//! comparisons, stated over the mathematical `Rat` view.

use vstd::prelude::*;

verus! {

/// Bound on the denominator of any evaluation score (128 * 128 * 16).
pub const DEN_MAX: i64 = 262144;

/// Bound on the magnitude of the numerator of any evaluation score.
pub const NUM_MAX: i64 = 1400000000;

/// Mathematical view of a score: the rational num/den with den >= 1.
pub struct Rat {
    pub num: int,
    pub den: int,
}

/// A rational with a positive denominator.
pub open spec fn rat_ok(a: Rat) -> bool {
    a.den >= 1
}

/// Exact comparison num_a/den_a < num_b/den_b, by cross-multiplication.
pub open spec fn rat_lt(a: Rat, b: Rat) -> bool {
    a.num * b.den < b.num * a.den
}

/// Exact comparison num_a/den_a <= num_b/den_b.
pub open spec fn rat_le(a: Rat, b: Rat) -> bool {
    a.num * b.den <= b.num * a.den
}

/// The rational zero.
pub open spec fn rat_zero() -> Rat {
    Rat { num: 0, den: 1 }
}

/// Exact sum of two rationals over the product denominator.
pub open spec fn rat_add(a: Rat, b: Rat) -> Rat {
    Rat { num: a.num * b.den + b.num * a.den, den: a.den * b.den }
}

/// An integer multiple of a rational.
pub open spec fn rat_scale(k: int, a: Rat) -> Rat {
    Rat { num: k * a.num, den: a.den }
}

pub proof fn lemma_rat_le_trans(a: Rat, b: Rat, c: Rat)
    requires
        rat_ok(a),
        rat_ok(b),
        rat_ok(c),
        rat_le(a, b),
        rat_le(b, c),
    ensures
        rat_le(a, c),
{
    assert(a.num * c.den <= c.num * a.den) by (nonlinear_arith)
        requires
            a.den >= 1,
            b.den >= 1,
            c.den >= 1,
            a.num * b.den <= b.num * a.den,
            b.num * c.den <= c.num * b.den,
    ;
}

pub proof fn lemma_rat_le_lt_trans(a: Rat, b: Rat, c: Rat)
    requires
        rat_ok(a),
        rat_ok(b),
        rat_ok(c),
        rat_le(a, b),
        rat_lt(b, c),
    ensures
        rat_lt(a, c),
{
    assert(a.num * c.den < c.num * a.den) by (nonlinear_arith)
        requires
            a.den >= 1,
            b.den >= 1,
            c.den >= 1,
            a.num * b.den <= b.num * a.den,
            b.num * c.den < c.num * b.den,
    ;
}

pub proof fn lemma_rat_lt_le_trans(a: Rat, b: Rat, c: Rat)
    requires
        rat_ok(a),
        rat_ok(b),
        rat_ok(c),
        rat_lt(a, b),
        rat_le(b, c),
    ensures
        rat_lt(a, c),
{
    assert(a.num * c.den < c.num * a.den) by (nonlinear_arith)
        requires
            a.den >= 1,
            b.den >= 1,
            c.den >= 1,
            a.num * b.den < b.num * a.den,
            b.num * c.den <= c.num * b.den,
    ;
}

/// An executable evaluation score: the exact rational num/den.
#[derive(Clone, Copy, PartialEq, Eq, Structural, Debug)]
pub struct Score {
    pub num: i64,
    pub den: i64,
}

impl View for Score {
    type V = Rat;

    open spec fn view(&self) -> Rat {
        Rat { num: self.num as int, den: self.den as int }
    }
}

impl Score {
    /// Scores are bounded fractions with a positive denominator, so that
    /// cross-multiplied comparisons cannot overflow.
    pub open spec fn wf(&self) -> bool {
        1 <= self.den <= DEN_MAX && -NUM_MAX <= self.num <= NUM_MAX
    }

    pub fn zero() -> (s: Score)
        ensures
            s.wf(),
            s@ == rat_zero(),
    {
        Score { num: 0, den: 1 }
    }
}

/// Exact strict comparison of two scores.
pub fn score_lt(a: &Score, b: &Score) -> (r: bool)
    requires
        a.wf(),
        b.wf(),
    ensures
        r == rat_lt(a@, b@),
{
    proof {
        assert(-NUM_MAX * DEN_MAX <= a.num * b.den <= NUM_MAX * DEN_MAX) by (nonlinear_arith)
            requires
                -NUM_MAX <= a.num <= NUM_MAX,
                1 <= b.den <= DEN_MAX,
        ;
        assert(-NUM_MAX * DEN_MAX <= b.num * a.den <= NUM_MAX * DEN_MAX) by (nonlinear_arith)
            requires
                -NUM_MAX <= b.num <= NUM_MAX,
                1 <= a.den <= DEN_MAX,
        ;
    }
    a.num * b.den < b.num * a.den
}

/// Exact sum of two scores, with the bounds needed to rule out overflow
/// supplied by the caller.
pub fn score_add(a: &Score, b: &Score) -> (s: Score)
    requires
        a.wf(),
        b.wf(),
        a.den * b.den <= DEN_MAX,
        -NUM_MAX <= a.num * b.den + b.num * a.den <= NUM_MAX,
    ensures
        s.wf(),
        s@ == rat_add(a@, b@),
{
    proof {
        assert(-NUM_MAX * DEN_MAX <= a.num * b.den <= NUM_MAX * DEN_MAX) by (nonlinear_arith)
            requires
                -NUM_MAX <= a.num <= NUM_MAX,
                1 <= b.den <= DEN_MAX,
        ;
        assert(-NUM_MAX * DEN_MAX <= b.num * a.den <= NUM_MAX * DEN_MAX) by (nonlinear_arith)
            requires
                -NUM_MAX <= b.num <= NUM_MAX,
                1 <= a.den <= DEN_MAX,
        ;
        assert(1 <= a.den * b.den) by (nonlinear_arith)
            requires
                1 <= a.den,
                1 <= b.den,
        ;
    }
    Score { num: a.num * b.den + b.num * a.den, den: a.den * b.den }
}

/// Alpha or beta threshold of the search: a score, or one of the two
/// infinities the root starts from.
#[derive(Clone, Copy, Debug)]
pub enum Bound {
    NegInf,
    Fin(Score),
    PosInf,
}

/// Mathematical view of a threshold.
pub enum RatBound {
    NegInf,
    Fin(Rat),
    PosInf,
}

impl View for Bound {
    type V = RatBound;

    open spec fn view(&self) -> RatBound {
        match self {
            Bound::NegInf => RatBound::NegInf,
            Bound::Fin(s) => RatBound::Fin(s@),
            Bound::PosInf => RatBound::PosInf,
        }
    }
}

pub open spec fn bnd_ok(x: RatBound) -> bool {
    match x {
        RatBound::Fin(a) => rat_ok(a),
        _ => true,
    }
}

impl Bound {
    pub open spec fn wf(&self) -> bool {
        match self {
            Bound::Fin(s) => s.wf(),
            _ => true,
        }
    }
}

/// Strict order on thresholds: NegInf below every score, PosInf above.
pub open spec fn bnd_lt(x: RatBound, y: RatBound) -> bool {
    match x {
        RatBound::NegInf => !(y is NegInf),
        RatBound::Fin(a) => match y {
            RatBound::NegInf => false,
            RatBound::Fin(b) => rat_lt(a, b),
            RatBound::PosInf => true,
        },
        RatBound::PosInf => false,
    }
}

pub open spec fn bnd_le(x: RatBound, y: RatBound) -> bool {
    !bnd_lt(y, x)
}

pub proof fn lemma_bnd_lt_le_trans(x: RatBound, y: RatBound, z: RatBound)
    requires
        bnd_ok(x),
        bnd_ok(y),
        bnd_ok(z),
        bnd_lt(x, y),
        bnd_le(y, z),
    ensures
        bnd_lt(x, z),
{
    if let (RatBound::Fin(a), RatBound::Fin(b)) = (x, y) {
        if let RatBound::Fin(c) = z {
            lemma_rat_lt_le_trans(a, b, c);
        }
    }
}

pub proof fn lemma_bnd_le_lt_trans(x: RatBound, y: RatBound, z: RatBound)
    requires
        bnd_ok(x),
        bnd_ok(y),
        bnd_ok(z),
        bnd_le(x, y),
        bnd_lt(y, z),
    ensures
        bnd_lt(x, z),
{
    if let (RatBound::Fin(b), RatBound::Fin(c)) = (y, z) {
        if let RatBound::Fin(a) = x {
            lemma_rat_le_lt_trans(a, b, c);
        }
    }
}

pub proof fn lemma_bnd_le_trans(x: RatBound, y: RatBound, z: RatBound)
    requires
        bnd_ok(x),
        bnd_ok(y),
        bnd_ok(z),
        bnd_le(x, y),
        bnd_le(y, z),
    ensures
        bnd_le(x, z),
{
    if let (RatBound::Fin(a), RatBound::Fin(c)) = (x, z) {
        if let RatBound::Fin(b) = y {
            lemma_rat_le_trans(a, b, c);
        } else {
        }
    }
}

/// Is the threshold `x` strictly below the score `s`?
pub fn bound_lt_score(x: &Bound, s: &Score) -> (r: bool)
    requires
        x.wf(),
        s.wf(),
    ensures
        r == bnd_lt(x@, RatBound::Fin(s@)),
{
    match x {
        Bound::NegInf => true,
        Bound::Fin(a) => score_lt(a, s),
        Bound::PosInf => false,
    }
}

/// Is the score `s` strictly below the threshold `y`?
pub fn score_lt_bound(s: &Score, y: &Bound) -> (r: bool)
    requires
        s.wf(),
        y.wf(),
    ensures
        r == bnd_lt(RatBound::Fin(s@), y@),
{
    match y {
        Bound::NegInf => false,
        Bound::Fin(b) => score_lt(s, b),
        Bound::PosInf => true,
    }
}

} // verus!
