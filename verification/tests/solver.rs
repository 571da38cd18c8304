use sliding_blocks::model::{validate, Block, Board, ConfigError, Dir};
use sliding_blocks::moves::{inverse, symbol};
use sliding_blocks::replay::print_moves;
use sliding_blocks::search::SearchResult;

fn board(size: (i32, i32), blocks: Vec<(char, (i32, i32), (i32, i32))>) -> Board {
    Board {
        size,
        state: blocks
            .into_iter()
            .map(|(name, pos, bsize)| (name, Block { pos, size: bsize }))
            .collect(),
    }
}

fn three_by_three() -> Board {
    board((3, 3), vec![('A', (0, 0), (2, 1)), ('B', (2, 1), (1, 2)), ('C', (0, 2), (1, 1))])
}

#[test]
fn inverse_move_restores_state() {
    let b = three_by_three();
    for (mv, next) in b.get_moves() {
        let inv = inverse(mv.1);
        let back: Vec<((char, Dir), Board)> = next
            .get_moves()
            .into_iter()
            .filter(|(m2, _)| m2.0 == mv.0 && m2.1 == inv)
            .collect();
        assert_eq!(back.len(), 1, "inverse move must be generated");
        assert!(back[0].1 == b, "inverse move must restore the original state");
    }
}

#[test]
fn generator_bound_and_no_input_state() {
    let b = three_by_three();
    let moves = b.get_moves();
    assert!(moves.len() <= 4 * b.state.len());
    for (_, next) in &moves {
        assert!(*next != b, "the generator never returns the input state");
    }
}

#[test]
fn generated_states_stay_valid() {
    let b = three_by_three();
    for (_, next) in b.get_moves() {
        assert_eq!(validate(&next, &'A'), Ok(()));
    }
}

#[test]
fn generator_is_deterministic() {
    let b = three_by_three();
    let first = b.get_moves();
    let second = b.get_moves();
    assert_eq!(first.len(), second.len());
    for k in 0..first.len() {
        assert_eq!(first[k].0, second[k].0);
        assert!(first[k].1 == second[k].1);
    }
}

#[test]
fn search_is_deterministic() {
    let b = three_by_three();
    let goal = ('A', (0, 1));
    let p1 = match b.solve_bfs(&goal.0, &goal.1, u64::MAX).result {
        SearchResult::Solved { path, .. } => path,
        _ => panic!("expected a solution"),
    };
    let p2 = match b.solve_bfs(&goal.0, &goal.1, u64::MAX).result {
        SearchResult::Solved { path, .. } => path,
        _ => panic!("expected a solution"),
    };
    assert_eq!(p1, p2);
    let d1 = b.solve_dfs(&goal.0, &goal.1, None, u64::MAX);
    let d2 = b.solve_dfs(&goal.0, &goal.1, None, u64::MAX);
    assert_eq!(d1.best, d2.best);
    assert_eq!(d1.incumbents, d2.incumbents);
    assert_eq!(d1.explored, d2.explored);
    assert!(d1.records == d2.records);
}

#[test]
fn two_by_two_shortest_path_is_two() {
    let b = board((2, 2), vec![('A', (0, 0), (1, 1))]);
    match b.solve_bfs(&'A', &(1, 1), u64::MAX).result {
        SearchResult::Solved { path, .. } => assert_eq!(path.len(), 2),
        _ => panic!("expected a solution"),
    }
    let d = b.solve_dfs(&'A', &(1, 1), None, u64::MAX);
    assert!(d.exhausted);
    let best = d.best.expect("expected a solution");
    assert_eq!(best.len(), 2, "branch and bound agrees with breadth-first");
}

#[test]
fn block_already_at_goal() {
    let b = board((2, 2), vec![('A', (0, 0), (1, 1))]);
    let o = b.solve_bfs(&'A', &(0, 0), u64::MAX);
    match o.result {
        SearchResult::Solved { path, explored } => {
            assert_eq!(path, vec![]);
            assert_eq!(explored, 1);
            assert_eq!(o.visited.len(), 1);
        },
        _ => panic!("expected a solution"),
    }
    let d = b.solve_dfs(&'A', &(0, 0), None, u64::MAX);
    assert_eq!(d.best, Some(vec![]));
    assert_eq!(d.incumbents.len(), 1);
    assert_eq!(d.incumbents[0].0, 0);
    assert!(d.incumbents[0].1.is_empty());
}

#[test]
fn boxed_in_block_gets_no_moves() {
    let b = board(
        (3, 3),
        vec![
            ('A', (1, 1), (1, 1)),
            ('B', (1, 0), (1, 1)),
            ('C', (0, 1), (1, 1)),
            ('D', (2, 1), (1, 1)),
            ('E', (1, 2), (1, 1)),
        ],
    );
    for (mv, _) in b.get_moves() {
        assert_ne!(mv.0, 'A', "a boxed-in block must yield no moves");
    }
}

#[test]
fn unreachable_goal_exhausts_reachable_space() {
    // Two blocks fill a 2x1 board completely: the only reachable state is
    // the initial one.
    let b = board((2, 1), vec![('A', (0, 0), (1, 1)), ('B', (1, 0), (1, 1))]);
    let o = b.solve_bfs(&'A', &(1, 0), u64::MAX);
    match o.result {
        SearchResult::Exhausted { explored } => assert_eq!(explored, 1),
        _ => panic!("expected exhaustion"),
    }
    assert_eq!(o.visited.len(), 1);
    let d = b.solve_dfs(&'A', &(1, 0), None, u64::MAX);
    assert!(d.exhausted);
    assert_eq!(d.best, None);
    assert!(d.incumbents.is_empty());

    // One free block on a 2x2 board reaches all four cells; a goal beyond
    // the board is never satisfied. The expansion record is the whole
    // reachable space: four distinct states.
    let b2 = board((2, 2), vec![('A', (0, 0), (1, 1))]);
    let o2 = b2.solve_bfs(&'A', &(5, 5), u64::MAX);
    match o2.result {
        SearchResult::Exhausted { explored } => assert_eq!(explored, 4),
        _ => panic!("expected exhaustion"),
    }
    assert_eq!(o2.visited.len(), 4);
    for v1 in 0..o2.visited.len() {
        for v2 in v1 + 1..o2.visited.len() {
            assert!(o2.visited[v1] != o2.visited[v2]);
        }
    }
}

#[test]
fn budget_runs_out() {
    let b = board((2, 2), vec![('A', (0, 0), (1, 1))]);
    match b.solve_bfs(&'A', &(1, 1), 1).result {
        SearchResult::OutOfBudget { explored } => assert_eq!(explored, 1),
        _ => panic!("expected the budget to run out"),
    }
    let d = b.solve_dfs(&'A', &(1, 1), None, 1);
    assert!(!d.exhausted);
    assert_eq!(d.explored, 1);
}

#[test]
fn cap_prunes_solutions() {
    let b = board((2, 2), vec![('A', (0, 0), (1, 1))]);
    let too_tight = b.solve_dfs(&'A', &(1, 1), Some(1), u64::MAX);
    assert!(too_tight.exhausted);
    assert_eq!(too_tight.best, None);
    let loose = b.solve_dfs(&'A', &(1, 1), Some(2), u64::MAX);
    assert_eq!(loose.best.expect("expected a solution").len(), 2);
}

#[test]
fn incumbents_strictly_decrease() {
    let b = three_by_three();
    let d = b.solve_dfs(&'A', &(0, 1), None, u64::MAX);
    assert!(d.incumbents.len() >= 1);
    for w in d.incumbents.windows(2) {
        assert!(w[0].0 > w[1].0);
    }
    // Every incumbent carries a replayable path of exactly its length
    // that ends in a winning state.
    for (len, ipath) in &d.incumbents {
        assert_eq!(ipath.len(), *len);
        let snaps = print_moves(&b, ipath);
        let end = snaps.last().unwrap_or(&b);
        assert!(end.wins(&'A', &(0, 1)));
    }
    let bfs_len = match b.solve_bfs(&'A', &(0, 1), u64::MAX).result {
        SearchResult::Solved { path, .. } => path.len(),
        _ => panic!("expected a solution"),
    };
    assert_eq!(d.incumbents.last().unwrap().0, bfs_len);
    assert_eq!(d.best.unwrap().len(), bfs_len);
}

#[test]
fn wins_compares_anchor_only() {
    let b = board((3, 3), vec![('A', (0, 0), (2, 2))]);
    assert!(b.wins(&'A', &(0, 0)));
    assert!(!b.wins(&'A', &(1, 1)));
    assert!(!b.wins(&'Z', &(0, 0)));
}

#[test]
fn validate_reports_each_error() {
    let ok = board((2, 2), vec![('A', (0, 0), (1, 1))]);
    assert_eq!(validate(&ok, &'A'), Ok(()));
    let bad_dims = board((0, 2), vec![('A', (0, 0), (1, 1))]);
    assert_eq!(validate(&bad_dims, &'A'), Err(ConfigError::InvalidConfig));
    let dup = board((2, 2), vec![('A', (0, 0), (1, 1)), ('A', (1, 1), (1, 1))]);
    assert_eq!(validate(&dup, &'A'), Err(ConfigError::InvalidConfig));
    let absent = board((2, 2), vec![('A', (0, 0), (1, 1))]);
    assert_eq!(validate(&absent, &'B'), Err(ConfigError::InvalidConfig));
    let oob = board((2, 2), vec![('A', (1, 1), (2, 1))]);
    assert_eq!(validate(&oob, &'A'), Err(ConfigError::OutOfBounds));
    let flat = board((2, 2), vec![('A', (0, 0), (0, 1))]);
    assert_eq!(validate(&flat, &'A'), Err(ConfigError::OutOfBounds));
    let overlap = board((3, 3), vec![('A', (0, 0), (2, 2)), ('B', (1, 1), (1, 1))]);
    assert_eq!(validate(&overlap, &'A'), Err(ConfigError::Overlap));
}

#[test]
fn occupancy_grid_marks_footprints() {
    let b = board((3, 2), vec![('A', (0, 0), (2, 1)), ('B', (2, 1), (1, 1))]);
    let grid = b.get_grid();
    assert_eq!(grid.len(), 2);
    for row in &grid {
        assert_eq!(row.len(), 3);
    }
    assert_eq!(grid[0], vec![true, true, false]);
    assert_eq!(grid[1], vec![false, false, true]);
}

#[test]
fn render_shows_block_names() {
    let b = board((3, 2), vec![('A', (0, 0), (2, 1)), ('B', (2, 1), (1, 1))]);
    let grid = b.render();
    assert_eq!(grid[0], vec!['A', 'A', '.']);
    assert_eq!(grid[1], vec!['.', '.', 'B']);
}

#[test]
fn replay_matches_search_result() {
    let b = board((2, 2), vec![('A', (0, 0), (1, 1))]);
    let path = match b.solve_bfs(&'A', &(1, 1), u64::MAX).result {
        SearchResult::Solved { path, .. } => path,
        _ => panic!("expected a solution"),
    };
    let snaps = print_moves(&b, &path);
    assert_eq!(snaps.len(), path.len());
    let last = snaps.last().expect("path is nonempty");
    assert!(last.wins(&'A', &(1, 1)));
    // Replaying move by move and replaying all at once give identical
    // intermediate boards.
    for k in 0..path.len() {
        let prefix: Vec<(char, Dir)> = path[..k + 1].to_vec();
        let partial = print_moves(&b, &prefix);
        assert!(*partial.last().unwrap() == snaps[k]);
    }
}

#[test]
fn direction_tags_and_inverses() {
    assert_eq!(symbol(Dir::Down), 'v');
    assert_eq!(symbol(Dir::Up), '^');
    assert_eq!(symbol(Dir::Right), '>');
    assert_eq!(symbol(Dir::Left), '<');
    assert_eq!(inverse(Dir::Down), Dir::Up);
    assert_eq!(inverse(Dir::Up), Dir::Down);
    assert_eq!(inverse(Dir::Right), Dir::Left);
    assert_eq!(inverse(Dir::Left), Dir::Right);
}
