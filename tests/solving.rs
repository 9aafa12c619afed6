use connect3::codec::{board_to_number, make_new_board, number_to_board, Game, STATE_LIMIT};
use connect3::enumerate::generate_unique_from;
use connect3::rules::{get_all_next_numbers, get_all_next_states, is_terminal, winner};
use connect3::solve::{
    get_move_between_board, minimax_tree, resolve_state, stored_move_to_human_move, SolveError,
};
use std::collections::{HashMap, HashSet};

/// A position after `moves` moves where the game is not over, found by
/// depth-first search over the moves, columns tried from a rotating offset.
fn quiet_from(g: Game, moves: usize, step: usize) -> Option<Game> {
    if moves == 0 {
        return Some(g);
    }
    let kids = get_all_next_states(g.board, g.player);
    let next_player = if g.player == 1 { 2 } else { 1 };
    for k in 0..kids.len() {
        let cand = Game { board: kids[(k + step * 4) % kids.len()], player: next_player };
        if !is_terminal(&cand) {
            if let Some(found) = quiet_from(cand, moves - 1, step + 1) {
                return Some(found);
            }
        }
    }
    None
}

fn quiet_position(moves: usize) -> u64 {
    let g = quiet_from(Game { board: make_new_board(), player: 1 }, moves, 0).unwrap();
    board_to_number(&g.board)
}

fn reachable_by_dfs(start: u64) -> HashSet<u64> {
    let mut seen = HashSet::new();
    let mut stack = vec![start];
    seen.insert(start);
    while let Some(n) = stack.pop() {
        let g = number_to_board(n).unwrap();
        if is_terminal(&g) {
            continue;
        }
        for m in get_all_next_numbers(g).into_iter().rev() {
            if seen.insert(m) {
                stack.push(m);
            }
        }
    }
    seen
}

/// Value and move by plain recursion, for comparison.
fn naive(n: u64, memo: &mut HashMap<u64, (i8, i8)>) -> (i8, i8) {
    if let Some(&r) = memo.get(&n) {
        return r;
    }
    let g = number_to_board(n).unwrap();
    let r = if is_terminal(&g) {
        (-1, winner(&g))
    } else {
        let nexts = get_all_next_numbers(g);
        let vals: Vec<i8> = nexts.iter().map(|&m| naive(m, memo).1).collect();
        let p = g.player;
        let other = if p == 1 { 2 } else { 1 };
        let best = if vals.contains(&p) {
            p
        } else if vals.contains(&0) {
            0
        } else {
            other
        };
        let idx = vals.iter().rposition(|&v| v == best).unwrap();
        (get_move_between_board(n, nexts[idx]), best)
    };
    memo.insert(n, r);
    r
}

#[test]
fn enumeration_from_a_position_matches_depth_first_search() {
    let start = quiet_position(16);
    let found = generate_unique_from(start).unwrap();
    let as_set: HashSet<u64> = found.iter().copied().collect();
    assert_eq!(as_set.len(), found.len());
    assert_eq!(found[0], start);
    assert!(found.len() > 50, "{}", found.len());
    assert_eq!(as_set, reachable_by_dfs(start));
}

#[test]
fn enumeration_rejects_an_invalid_start() {
    assert!(generate_unique_from(STATE_LIMIT).is_err());
}

#[test]
fn enumeration_of_a_finished_game_is_that_game() {
    let mut b = make_new_board();
    for z in 0..3 {
        b.data[9 * z] = 1;
    }
    b.data[1] = 2;
    b.data[2] = 2;
    let n = board_to_number(&b);
    assert_eq!(generate_unique_from(n).unwrap(), vec![n]);
}

#[test]
fn move_between_boards_is_the_changed_cell() {
    assert_eq!(get_move_between_board(0, 3u64.pow(5)), 5);
    assert_eq!(get_move_between_board(7, 7 + 2 * 3u64.pow(13)), 13);
    assert_eq!(get_move_between_board(0, 2 * 3u64.pow(26)), 26);
    assert_eq!(get_move_between_board(42, 42), -1);
}

#[test]
fn stored_moves_become_columns() {
    assert_eq!(stored_move_to_human_move(-1), -1);
    assert_eq!(stored_move_to_human_move(0), 0);
    assert_eq!(stored_move_to_human_move(13), 4);
    assert_eq!(stored_move_to_human_move(5), 7);
    assert_eq!(stored_move_to_human_move(26), 8);
    assert_eq!(stored_move_to_human_move(9 + 1), 3);
}

#[test]
fn resolving_single_states() {
    let memo: HashMap<u64, i8> = HashMap::new();
    assert_eq!(resolve_state(0, &memo), Err(SolveError::MissingSuccessor(0)));
    assert_eq!(resolve_state(STATE_LIMIT, &memo), Err(SolveError::InvalidState(STATE_LIMIT)));
    let mut b = make_new_board();
    for z in 0..3 {
        b.data[9 * z] = 1;
    }
    b.data[1] = 2;
    b.data[2] = 2;
    assert_eq!(resolve_state(board_to_number(&b), &memo), Ok((-1, 1)));
}

#[test]
fn solver_agrees_with_plain_minimax() {
    let start = quiet_position(16);
    let states = generate_unique_from(start).unwrap();
    let mut shuffled = states.clone();
    shuffled.reverse();
    shuffled.push(states[0]);
    let recs = minimax_tree(&shuffled).unwrap();
    assert_eq!(recs.len(), states.len());
    let mut memo = HashMap::new();
    let mut keys = HashSet::new();
    for &(n, mv, v) in &recs {
        assert!(keys.insert(n));
        assert_eq!((mv, v), naive(n, &mut memo));
    }
    for n in &states {
        assert!(keys.contains(n));
    }
}

#[test]
fn solved_records_are_consistent_with_successors() {
    let start = quiet_position(16);
    let states = generate_unique_from(start).unwrap();
    let recs = minimax_tree(&states).unwrap();
    let table: HashMap<u64, (i8, i8)> = recs.iter().map(|&(n, m, v)| (n, (m, v))).collect();
    for &(n, mv, v) in &recs {
        let g = number_to_board(n).unwrap();
        if is_terminal(&g) {
            assert_eq!(mv, -1);
            assert_eq!(v, winner(&g));
            continue;
        }
        let nexts = get_all_next_numbers(g);
        let vals: Vec<i8> = nexts.iter().map(|m| table[m].1).collect();
        let p = g.player;
        let expected = if vals.contains(&p) {
            p
        } else if vals.contains(&0) {
            0
        } else {
            3 - p
        };
        assert_eq!(v, expected);
        assert!(nexts.iter().any(|&m| get_move_between_board(n, m) == mv && table[&m].1 == v));
    }
}

#[test]
fn solver_reports_missing_and_invalid_states() {
    assert_eq!(minimax_tree(&vec![0]), Err(SolveError::MissingSuccessor(0)));
    assert_eq!(minimax_tree(&vec![0, STATE_LIMIT]), Err(SolveError::InvalidState(STATE_LIMIT)));
    assert_eq!(minimax_tree(&vec![]), Ok(vec![]));
}
