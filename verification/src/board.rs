//! The cell and board model: tri-state cells on a fixed 8x8 grid, stored
//! row-major, together with the spec-level counting functions that the
//! disc-count facts about move application are stated over.

use vstd::prelude::*;

verus! {

/// The three states a board cell can hold.
#[derive(Clone, Copy, PartialEq, Eq, Structural, Debug)]
pub enum Disc {
    Empty,
    First,
    Second,
}

/// The opponent of a player; `Empty` has no opponent and is mapped to itself.
pub open spec fn opponent_of(p: Disc) -> Disc {
    match p {
        Disc::First => Disc::Second,
        Disc::Second => Disc::First,
        Disc::Empty => Disc::Empty,
    }
}

/// True exactly for the two player states.
pub open spec fn is_player(p: Disc) -> bool {
    p == Disc::First || p == Disc::Second
}

/// Turn/opponent resolution. Asking for the opponent of the empty state is a
/// logic error, so that input is excluded by precondition.
pub fn get_opponent(player: Disc) -> (r: Disc)
    requires
        is_player(player),
    ensures
        r == opponent_of(player),
        is_player(r),
        r != player,
{
    match player {
        Disc::First => Disc::Second,
        Disc::Second => Disc::First,
        Disc::Empty => Disc::First,  // unreachable: excluded by the precondition
    }
}

/// An 8x8 board as 64 cells in row-major order; cell (r, c) is at index r*8+c.
pub struct Board {
    pub cells: Vec<Disc>,
}

impl View for Board {
    type V = Seq<Disc>;

    open spec fn view(&self) -> Seq<Disc> {
        self.cells@
    }
}

/// A well-formed board view holds exactly 64 cells.
pub open spec fn board_ok(b: Seq<Disc>) -> bool {
    b.len() == 64
}

/// Both coordinates on the 8x8 grid.
pub open spec fn in_b(r: int, c: int) -> bool {
    0 <= r < 8 && 0 <= c < 8
}

/// The cell of `b` at row `r`, column `c`.
pub open spec fn at(b: Seq<Disc>, r: int, c: int) -> Disc {
    b[r * 8 + c]
}

impl Board {
    pub open spec fn wf(&self) -> bool {
        board_ok(self@)
    }

    /// An all-empty board.
    pub fn new() -> (b: Board)
        ensures
            b.wf(),
            forall|r: int, c: int| in_b(r, c) ==> at(b@, r, c) == Disc::Empty,
    {
        let cells: Vec<Disc> = vec![Disc::Empty; 64];
        Board { cells }
    }

    /// Read one cell.
    pub fn get(&self, r: usize, c: usize) -> (d: Disc)
        requires
            self.wf(),
            r < 8,
            c < 8,
        ensures
            d == at(self@, r as int, c as int),
    {
        self.cells[r * 8 + c]
    }

    /// Overwrite one cell.
    pub fn set(&mut self, r: usize, c: usize, d: Disc)
        requires
            old(self).wf(),
            r < 8,
            c < 8,
        ensures
            final(self).wf(),
            final(self)@ == old(self)@.update(r * 8 + c, d),
    {
        self.cells.set(r * 8 + c, d);
    }

    /// An independent copy; the search forks one per candidate move.
    pub fn duplicate(&self) -> (b: Board)
        requires
            self.wf(),
        ensures
            b.wf(),
            b@ == self@,
    {
        let mut cells: Vec<Disc> = Vec::new();
        let mut i: usize = 0;
        while i < 64
            invariant
                self.wf(),
                i <= 64,
                cells@.len() == i,
                forall|j: int| 0 <= j < i ==> cells@[j] == self@[j],
            decreases 64 - i,
        {
            cells.push(self.cells[i]);
            i += 1;
        }
        proof {
            assert(cells@ =~= self@);
        }
        Board { cells }
    }
}

/// Number of cells among the first `n` that hold `d`.
pub open spec fn count_upto(b: Seq<Disc>, d: Disc, n: int) -> int
    decreases n,
{
    if n <= 0 {
        0
    } else {
        count_upto(b, d, n - 1) + if b[n - 1] == d { 1int } else { 0int }
    }
}

/// Number of cells of the whole board that hold `d`.
pub open spec fn count_disc(b: Seq<Disc>, d: Disc) -> int {
    count_upto(b, d, 64)
}

/// Counts lie between 0 and the number of cells examined.
pub proof fn lemma_count_bounds(b: Seq<Disc>, d: Disc, n: int)
    ensures
        0 <= count_upto(b, d, n) <= if n <= 0 { 0int } else { n },
    decreases n,
{
    if n > 0 {
        lemma_count_bounds(b, d, n - 1);
    }
}

/// Updating one cell changes each count by the obvious amount.
pub proof fn lemma_count_update(b: Seq<Disc>, d: Disc, i: int, v: Disc, n: int)
    requires
        0 <= i < b.len(),
        n <= b.len(),
    ensures
        i < n ==> count_upto(b.update(i, v), d, n) == count_upto(b, d, n)
            - (if b[i] == d { 1int } else { 0int }) + (if v == d { 1int } else { 0int }),
        i >= n ==> count_upto(b.update(i, v), d, n) == count_upto(b, d, n),
    decreases n,
{
    if n > 0 {
        lemma_count_update(b, d, i, v, n - 1);
    }
}

} // verus!
