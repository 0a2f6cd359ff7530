use n_queens_search::{
    conflict_checker, conflict_checker_extra, generate_children, generate_children_extra,
    heuristic1, heuristic2, heuristic3, initialize_board, initialize_board_extra, is_complete,
    solve, solver, solver_extra, Heuristic, Search, Step, Strategy, Traversal,
};

const ALL: [Strategy; 5] = [
    Strategy::BreadthFirst,
    Strategy::DepthFirst,
    Strategy::Greedy(Heuristic::ConflictCount),
    Strategy::Greedy(Heuristic::BoundaryBonus),
    Strategy::Greedy(Heuristic::WindowedManhattan),
];

fn is_valid(sol: &[usize], n: usize) -> bool {
    if sol.len() != n || sol.iter().any(|&c| c >= n) {
        return false;
    }
    for i in 0..n {
        for j in i + 1..n {
            let dc = if sol[i] > sol[j] { sol[i] - sol[j] } else { sol[j] - sol[i] };
            if sol[i] == sol[j] || dc == j - i {
                return false;
            }
        }
    }
    true
}

#[test]
fn breadth_first_four() {
    let (stats, sol) = solver_extra(4, Traversal::BreadthFirst);
    let sol = sol.expect("a solution of 4 queens");
    assert!(is_valid(&sol, 4));
    assert_eq!(sol, vec![1, 3, 0, 2]);
    assert_eq!(stats.solutions, 1);
    assert_eq!(stats.algo, Strategy::BreadthFirst);
    assert_eq!(stats.closed, 50);
    assert_eq!(stats.open_max, 24);
}

#[test]
fn depth_first_four() {
    let (stats, sol) = solver_extra(4, Traversal::DepthFirst);
    let sol = sol.expect("a solution of 4 queens");
    assert!(is_valid(&sol, 4));
    assert_eq!(sol, vec![2, 0, 3, 1]);
    assert_eq!(stats.solutions, 1);
    assert_eq!(stats.algo, Strategy::DepthFirst);
    assert_eq!(stats.closed, 29);
    assert_eq!(stats.open_max, 7);
}

#[test]
fn greedy_conflict_count_five() {
    let (stats, sol) = solver(5, Heuristic::ConflictCount);
    let sol = sol.expect("a solution of 5 queens");
    assert!(is_valid(&sol, 5));
    assert!(!conflict_checker(&sol));
    assert_eq!(sol, vec![0, 2, 4, 1, 3]);
    assert!(stats.open_max >= 1);
    assert!(stats.closed >= 1);
    assert_eq!(stats.closed, 43);
    assert_eq!(stats.open_max, 58);
    assert_eq!(stats.solutions, 1);
}

#[test]
fn every_strategy_solves_solvable_boards() {
    for n in [4usize, 5, 6] {
        for s in ALL {
            let (stats, sol) = solve(n, s);
            let sol = sol.expect("a solution");
            assert!(is_valid(&sol, n), "{:?} on {}: {:?}", s, n, sol);
            assert_eq!(stats.solutions, 1);
        }
    }
}

#[test]
fn three_queens_exhaust() {
    for s in ALL {
        let (stats, sol) = solve(3, s);
        assert!(sol.is_none());
        assert_eq!(stats.solutions, 0);
        // 3 starting placements, 6 of two rows, 6 full ones
        assert_eq!(stats.closed, 15, "{:?}", s);
    }
}

#[test]
fn two_queens_exhaust() {
    for s in ALL {
        let (stats, sol) = solve(2, s);
        assert!(sol.is_none(), "{:?}", s);
        assert_eq!(stats.solutions, 0);
        // [0], [1], [0, 1], [1, 0]
        assert_eq!(stats.closed, 4);
        assert_eq!(stats.open_max, 2);
    }
}


#[test]
fn one_queen_is_immediate() {
    for s in ALL {
        let (stats, sol) = solve(1, s);
        assert_eq!(sol, Some(vec![0]), "{:?}", s);
        assert_eq!(stats.closed, 0);
        assert_eq!(stats.open_max, 0);
        assert_eq!(stats.solutions, 1);
    }
}

#[test]
fn empty_board() {
    let (stats, sol) = solve(0, Strategy::BreadthFirst);
    assert_eq!(sol, None);
    assert_eq!(stats.closed, 0);
}

#[test]
fn conflict_checks() {
    assert!(!conflict_checker(&vec![1, 3, 0, 2]));
    assert!(conflict_checker(&vec![0, 1]));
    assert!(!conflict_checker(&vec![0, 2]));
    assert!(conflict_checker(&vec![0, 0]));
    assert!(conflict_checker(&vec![0, 3, 1, 2]));
    assert!(!conflict_checker(&vec![]));
    assert!(!conflict_checker_extra(&vec![2, 0, 3, 1]));
    assert!(conflict_checker_extra(&vec![2, 1]));
}

#[test]
fn completeness_check() {
    assert!(is_complete(&vec![1, 3, 0, 2], 4));
    assert!(!is_complete(&vec![1, 3], 4));
}

#[test]
fn conflict_count_values() {
    assert_eq!(heuristic1(&[0, 1, 2], 3), 3);
    assert_eq!(heuristic1(&[1, 3, 0, 2], 4), 0);
    assert_eq!(heuristic1(&[0, 0, 0], 3), 3);
    assert_eq!(heuristic1(&[0, 2], 4), 0);
    assert_eq!(heuristic1(&[0], 4), 0);
}

#[test]
fn conflict_count_zero_iff_no_conflict() {
    for s in [vec![0, 1], vec![0, 2], vec![1, 3, 0, 2], vec![0, 3, 1, 2], vec![2, 0, 3]] {
        assert_eq!(heuristic1(&s, 4) == 0, !conflict_checker(&s));
    }
}

#[test]
fn boundary_bonus_values() {
    // full, conflict-free, first column not a corner
    assert_eq!(heuristic2(&[1, 3, 0, 2], 4), 1);
    // partial, conflict-free, first column a corner
    assert_eq!(heuristic2(&[0, 2], 4), 0);
    // partial, one conflict, corner
    assert_eq!(heuristic2(&[0, 1], 4), 1);
    // partial, one conflict, not a corner
    assert_eq!(heuristic2(&[1, 0], 4), 2);
    // full, both ends in corners, with conflicts
    assert_eq!(heuristic2(&[0, 1, 2], 3), 1);
    assert_eq!(heuristic2(&[0, 2, 1], 3), 2);
    // the open-row marker is not a corner
    assert_eq!(heuristic2(&[4, 1], 4), 1);
}

#[test]
fn windowed_manhattan_values() {
    assert_eq!(heuristic3(&[0, 1, 2, 3], 4), 6);
    assert_eq!(heuristic3(&[1, 3, 0, 2], 4), 2);
    assert_eq!(heuristic3(&[0], 4), 3);
    assert_eq!(heuristic3(&[0, 2], 5), 3);
    assert_eq!(heuristic3(&[], 2), 2);
}

#[test]
fn evaluate_dispatches() {
    let s = [1usize, 3, 0, 2];
    assert_eq!(Heuristic::ConflictCount.evaluate(&s, 4), heuristic1(&s, 4));
    assert_eq!(Heuristic::BoundaryBonus.evaluate(&s, 4), heuristic2(&s, 4));
    assert_eq!(Heuristic::WindowedManhattan.evaluate(&s, 4), heuristic3(&s, 4));
}

#[test]
fn children_with_scores() {
    let ch = generate_children(4, &vec![0], Heuristic::ConflictCount);
    assert_eq!(ch, vec![(vec![0, 1], 1), (vec![0, 2], 0), (vec![0, 3], 0)]);
    let ch = generate_children(4, &vec![1, 3, 0], Heuristic::ConflictCount);
    assert_eq!(ch, vec![(vec![1, 3, 0, 2], 0)]);
}

#[test]
fn children_fill_deferred_row_last() {
    let ch = generate_children(4, &vec![4, 1, 3], Heuristic::BoundaryBonus);
    let states: Vec<Vec<usize>> = ch.iter().map(|p| p.0.clone()).collect();
    assert_eq!(states, vec![vec![0, 1, 3], vec![2, 1, 3]]);
    let ch = generate_children(4, &vec![4, 1], Heuristic::BoundaryBonus);
    let states: Vec<Vec<usize>> = ch.iter().map(|p| p.0.clone()).collect();
    assert_eq!(states, vec![vec![4, 1, 0], vec![4, 1, 2], vec![4, 1, 3]]);
    assert_eq!(ch[0].1, 2);
}

#[test]
fn children_without_scores() {
    assert_eq!(generate_children_extra(3, &[1]), vec![vec![1, 0], vec![1, 2]]);
    assert_eq!(generate_children_extra(3, &[1, 0, 2]), Vec::<Vec<usize>>::new());
}

#[test]
fn initial_boards() {
    let b = initialize_board(2, Heuristic::ConflictCount);
    assert_eq!(b, vec![(vec![0], 0), (vec![1], 0)]);
    let b = initialize_board(3, Heuristic::WindowedManhattan);
    assert_eq!(b, vec![(vec![0], 2), (vec![1], 2), (vec![2], 2)]);
    let b = initialize_board(2, Heuristic::BoundaryBonus);
    assert_eq!(
        b,
        vec![(vec![0], usize::MAX), (vec![0], usize::MAX), (vec![1], usize::MAX), (vec![1], usize::MAX)]
    );
    let b = initialize_board(3, Heuristic::BoundaryBonus);
    assert_eq!(b.len(), 9);
    assert_eq!(b[0], (vec![3, 0], usize::MAX));
    assert_eq!(b[2], (vec![3, 0], usize::MAX));
    assert_eq!(b[3], (vec![3, 1], usize::MAX));
    assert_eq!(b[8], (vec![3, 2], usize::MAX));
    assert_eq!(initialize_board_extra(3), vec![vec![0], vec![1], vec![2]]);
}

#[test]
fn stepping_breadth_first() {
    let mut s = Search::new(4, Strategy::BreadthFirst);
    assert_eq!(s.open_len(), 4);
    assert_eq!(s.closed_len(), 0);
    assert!(matches!(s.step(), Step::Continue));
    assert_eq!(s.open_len(), 6);
    assert_eq!(s.closed_len(), 1);
    let found = loop {
        match s.step() {
            Step::Continue => {}
            Step::Found(v) => break Some(v),
            Step::Exhausted => break None,
        }
    };
    assert!(is_valid(&found.unwrap(), 4));
}

#[test]
fn greedy_pops_lowest_score_first() {
    // Ordering by score closes far fewer placements than breadth-first
    // search before the first solution on 4 columns.
    let (g, gs) = solve(4, Strategy::Greedy(Heuristic::ConflictCount));
    assert_eq!(gs, Some(vec![1, 3, 0, 2]));
    assert_eq!(g.closed, 14);
    assert_eq!(g.open_max, 18);
    let (w, ws) = solve(4, Strategy::Greedy(Heuristic::WindowedManhattan));
    assert_eq!(ws, Some(vec![1, 3, 0, 2]));
    assert_eq!(w.closed, 8);
    let (b, bs) = solve(4, Strategy::Greedy(Heuristic::BoundaryBonus));
    assert_eq!(bs, Some(vec![2, 0, 3, 1]));
    assert_eq!(b.closed, 3);
}

#[test]
fn exhausted_search_stays_exhausted() {
    let mut s = Search::new(2, Strategy::DepthFirst);
    let mut steps = 0;
    while let Step::Continue = s.step() {
        steps += 1;
    }
    assert_eq!(steps, 4);
    assert!(matches!(s.step(), Step::Exhausted));
    assert_eq!(s.closed_len(), 4);
    assert_eq!(s.open_len(), 0);
}

