use reversi_agent::board::Board;
use reversi_agent::board::Disc;
use reversi_agent::board::get_opponent;
use reversi_agent::moves::get_move_scores;
use reversi_agent::moves::get_legal_moves;
use reversi_agent::apply::make_move;
use reversi_agent::heuristic::AgentPlayer;
use reversi_agent::rational::Bound;
use reversi_agent::play;

fn empty_board() -> Board {
    Board { cells: vec![Disc::Empty; 64] }
}

fn board_with(discs: &[(usize, usize, Disc)]) -> Board {
    let mut b = empty_board();
    for &(r, c, d) in discs {
        b.cells[r * 8 + c] = d;
    }
    b
}

fn standard_opening() -> Board {
    board_with(&[
        (3, 3, Disc::First),
        (3, 4, Disc::Second),
        (4, 3, Disc::Second),
        (4, 4, Disc::First),
    ])
}

fn standard_opening_flat() -> Vec<i8> {
    let mut flat = vec![0i8; 64];
    flat[3 * 8 + 3] = 1;
    flat[3 * 8 + 4] = -1;
    flat[4 * 8 + 3] = -1;
    flat[4 * 8 + 4] = 1;
    flat
}

fn count(b: &Board, d: Disc) -> usize {
    b.cells.iter().filter(|&&x| x == d).count()
}

fn agent(depth: u32, cp: bool, am: bool, pm: bool, cs: bool, st: bool) -> AgentPlayer {
    AgentPlayer {
        max_depth: depth,
        use_coin_parity: cp,
        use_actual_mobility: am,
        use_potential_mobility: pm,
        use_corner_score: cs,
        use_stability_score: st,
    }
}

#[test]
fn opponent_resolution() {
    assert!(get_opponent(Disc::First) == Disc::Second);
    assert!(get_opponent(Disc::Second) == Disc::First);
}

#[test]
fn opening_has_four_unit_moves() {
    let b = standard_opening();
    let lm = get_legal_moves(Disc::First, &b);
    let moves: Vec<((usize, usize), u32)> = lm;
    assert_eq!(moves.len(), 4);
    assert_eq!(moves[0], ((2, 4), 1));
    assert_eq!(moves[1], ((3, 5), 1));
    assert_eq!(moves[2], ((4, 2), 1));
    assert_eq!(moves[3], ((5, 3), 1));
    let lm2 = get_legal_moves(Disc::Second, &b);
    assert_eq!(lm2.len(), 4);
    for &(_, s) in lm2.iter() {
        assert_eq!(s, 1);
    }
}

#[test]
fn scores_sum_over_directions() {
    // (0,0) captures 2 to the right and 1 downward: total 3
    let b = board_with(&[
        (0, 1, Disc::Second),
        (0, 2, Disc::Second),
        (0, 3, Disc::First),
        (1, 0, Disc::Second),
        (2, 0, Disc::First),
    ]);
    let mut grid = vec![0u32; 64];
    get_move_scores(Disc::First, &b, &mut grid);
    assert_eq!(grid[0], 3);
    // occupied cells never score
    assert_eq!(grid[1], 0);
    assert_eq!(grid[3], 0);
}

#[test]
fn scores_are_absent_for_blocked_lines() {
    // an empty cell before the run, so no capture anywhere
    let b = board_with(&[
        (0, 2, Disc::Second),
        (0, 4, Disc::First),
    ]);
    let mut grid = vec![0u32; 64];
    get_move_scores(Disc::First, &b, &mut grid);
    for i in 0..64 {
        assert_eq!(grid[i], 0);
    }
}

#[test]
fn move_scores_accumulate_into_grid() {
    let b = standard_opening();
    let mut grid = vec![5u32; 64];
    get_move_scores(Disc::First, &b, &mut grid);
    assert_eq!(grid[2 * 8 + 4], 6);
    assert_eq!(grid[0], 5);
}

#[test]
fn generating_scores_twice_is_identical() {
    let b = standard_opening();
    let mut g1 = vec![0u32; 64];
    let mut g2 = vec![0u32; 64];
    get_move_scores(Disc::Second, &b, &mut g1);
    get_move_scores(Disc::Second, &b, &mut g2);
    assert_eq!(g1, g2);
}

#[test]
fn applying_a_move_flips_and_counts() {
    let mut b = standard_opening();
    // First plays (2,4), which flips the Second disc at (3,4)
    make_move(Disc::First, (2, 4), &mut b);
    assert_eq!(count(&b, Disc::First), 4);
    assert_eq!(count(&b, Disc::Second), 1);
    assert_eq!(count(&b, Disc::Empty), 59);
    assert!(b.cells[2 * 8 + 4] == Disc::First);
    assert!(b.cells[3 * 8 + 4] == Disc::First);
}

#[test]
fn applying_a_long_capture() {
    let mut b = board_with(&[
        (0, 1, Disc::Second),
        (0, 2, Disc::Second),
        (0, 3, Disc::First),
        (1, 0, Disc::Second),
        (2, 0, Disc::First),
    ]);
    make_move(Disc::First, (0, 0), &mut b);
    // 1 placed + 3 flipped: mover grew by 1 + its capture score
    assert_eq!(count(&b, Disc::First), 6);
    assert_eq!(count(&b, Disc::Second), 0);
    assert_eq!(count(&b, Disc::Empty), 58);
}

#[test]
fn heuristic_all_disabled_is_zero() {
    let b = standard_opening();
    let a = agent(1, false, false, false, false, false);
    let s = a.get_heuristic(&b);
    assert_eq!(s.num, 0);
    assert_eq!(s.den, 1);
}

#[test]
fn heuristic_coin_parity_alone() {
    let mut b = standard_opening();
    make_move(Disc::First, (2, 4), &mut b);
    // 4 discs against 1: parity 3, weighted by 15
    let a = agent(1, true, false, false, false, false);
    let s = a.get_heuristic(&b);
    assert_eq!(s.num, 45);
    assert_eq!(s.den, 1);
}

#[test]
fn heuristic_actual_mobility_alone() {
    let b = standard_opening();
    // both players have 4 legal moves: (4 - 4) / (4 + 4), weighted by 2
    let a = agent(1, false, true, false, false, false);
    let s = a.get_heuristic(&b);
    assert_eq!(s.num, 0);
    assert_eq!(s.den, 8);
}

#[test]
fn heuristic_potential_mobility_alone() {
    let b = standard_opening();
    // each player has 10 frontier cells next to the other's discs
    let a = agent(1, false, false, true, false, false);
    let s = a.get_heuristic(&b);
    assert_eq!(s.num, 0);
    assert_eq!(s.den, 20);
}

#[test]
fn heuristic_corner_score_alone() {
    // First owns one corner; no other corner is occupied or capturable
    let b = board_with(&[(0, 0, Disc::First)]);
    let a = agent(1, false, false, false, true, false);
    let s = a.get_heuristic(&b);
    // totals 2 against 0: 18 * (2 - 0) / (2 + 0)
    assert_eq!(s.num, 36);
    assert_eq!(s.den, 2);
}

#[test]
fn heuristic_stability_alone() {
    // a corner weighs 4, its diagonal neighbour -4
    let b = board_with(&[(0, 0, Disc::First), (1, 1, Disc::Second)]);
    let a = agent(1, false, false, false, false, true);
    let s = a.get_heuristic(&b);
    // 15 * (4 - (-4))
    assert_eq!(s.num, 120);
    assert_eq!(s.den, 1);
}

#[test]
fn terminal_board_ignores_depth() {
    // no player has any legal move on a board with a single disc
    let b = board_with(&[(0, 0, Disc::First)]);
    let a = agent(7, true, true, true, true, true);
    let direct = a.get_heuristic(&b);
    let shallow = a.min_max_search(Disc::First, &b, 1, Bound::NegInf, Bound::PosInf);
    let deep = a.min_max_search(Disc::Second, &b, 6, Bound::NegInf, Bound::PosInf);
    assert_eq!(direct.num, shallow.num);
    assert_eq!(direct.den, shallow.den);
    assert_eq!(direct.num, deep.num);
    assert_eq!(direct.den, deep.den);
}

#[test]
fn depth_zero_picks_best_immediate_child() {
    // two legal moves for First: (0,0) flips two discs, (2,0) flips one;
    // with coin parity alone the bigger capture wins at depth 0
    let flat = {
        let mut f = vec![0i8; 64];
        f[0 * 8 + 1] = -1;
        f[0 * 8 + 2] = -1;
        f[0 * 8 + 3] = 1;
        f[2 * 8 + 1] = -1;
        f[2 * 8 + 2] = 1;
        f
    };
    let square = play(1, &flat, 0, true, false, false, false, false);
    assert_eq!(square, 0);
}

#[test]
fn depth_zero_ties_go_to_the_first_move() {
    // two moves flipping one disc each: the earlier cell in row-major
    // order is returned
    let flat = {
        let mut f = vec![0i8; 64];
        f[0 * 8 + 1] = -1;
        f[0 * 8 + 2] = 1;
        f[2 * 8 + 1] = -1;
        f[2 * 8 + 2] = 1;
        f
    };
    let square = play(1, &flat, 0, true, false, false, false, false);
    assert_eq!(square, 0);
}

#[test]
fn play_from_the_standard_opening() {
    // the four opening replies are symmetric, so the first one is chosen
    let flat = standard_opening_flat();
    let square = play(1, &flat, 3, true, true, true, true, true);
    assert_eq!(square, 2 * 8 + 4);
}

#[test]
fn play_for_the_second_player() {
    let flat = standard_opening_flat();
    let square = play(-1, &flat, 2, true, true, true, true, true);
    let legal: Vec<usize> = vec![2 * 8 + 3, 3 * 8 + 2, 4 * 8 + 5, 5 * 8 + 4];
    assert!(legal.contains(&square));
}

#[test]
fn deeper_search_still_returns_a_legal_move() {
    let flat = standard_opening_flat();
    let square = play(1, &flat, 5, true, false, true, false, true);
    let legal: Vec<usize> = vec![2 * 8 + 4, 3 * 8 + 5, 4 * 8 + 2, 5 * 8 + 3];
    assert!(legal.contains(&square));
}

#[test]
fn search_value_at_depth_one() {
    // every opening reply flips exactly one disc, so with coin parity
    // alone each child evaluates to 15 * 3 and so does the maximum
    let b = standard_opening();
    let a = agent(0, true, false, false, false, false);
    let v = a.search_value(Disc::First, &b, 1);
    assert_eq!(v.num, 45);
    assert_eq!(v.den, 1);
    let w = a.search_value(Disc::Second, &b, 1);
    assert_eq!(w.num, -45);
    assert_eq!(w.den, 1);
}

#[test]
fn choose_move_reports_missing_moves() {
    let a = agent(3, true, true, true, true, true);
    let blocked = board_with(&[(0, 0, Disc::First)]);
    assert!(a.choose_move(Disc::Second, &blocked).is_none());
    let open = standard_opening();
    assert_eq!(a.choose_move(Disc::First, &open), Some((2, 4)));
}

#[test]
fn legal_moves_are_sorted_by_descending_score() {
    // (0,0) captures 2, (2,0) captures 1: the bigger capture comes first
    let b = board_with(&[
        (0, 1, Disc::Second),
        (0, 2, Disc::Second),
        (0, 3, Disc::First),
        (2, 1, Disc::Second),
        (2, 2, Disc::First),
    ]);
    let lm = get_legal_moves(Disc::First, &b);
    assert_eq!(lm.len(), 2);
    assert_eq!(lm[0], ((0, 0), 2));
    assert_eq!(lm[1], ((2, 0), 1));
}
