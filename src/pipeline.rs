//! The whole computation, from the empty board to the sorted table, and the
//! answer to one query against that table.

use crate::codec::{
    board_to_number, cells_of, flat_index, number_to_board, player_for, CodecError, Game,
    STATE_LIMIT,
};
use crate::enumerate::{
    closed, expands, generate_unique, lemma_reachable_step, lemma_reachable_valid, reachable,
    reachable_set, successors,
};
use crate::rules::{place_new_piece, top};
use crate::solve::{
    all_states, best_move, game_value, has_record, minimax_tree, state_set,
    stored_move_to_human_move,
};
use crate::table::{build, get_best_move, keys_sorted, rec_lt, records_of};
use vstd::prelude::*;

verus! {

/// The reachable states are closed under moves.
pub proof fn lemma_reachable_closed()
    ensures
        closed(reachable_set()),
{
    let set = reachable_set();
    assert forall|n: int, j: int|
        #![trigger set.contains(n), successors(n)[j]]
        set.contains(n) && expands(n) && 0 <= j < successors(n).len() implies set.contains(
        successors(n)[j],
    ) by {
        lemma_reachable_step(0, n, j);
    }
}

/// Enumerates the reachable states, solves them and sorts the records: the
/// solved table, one record per reachable state in ascending order of state.
pub fn generate() -> (r: Vec<(u64, i8, i8)>)
    ensures
        forall|i: int, j: int| 0 <= i < j < r@.len() ==> (#[trigger] r@[i]).0 < (#[trigger] r@[j]).0,
        forall|i: int|
            0 <= i < r@.len() ==> {
                let (n, mv, v) = #[trigger] r@[i];
                &&& reachable(n as int)
                &&& mv == best_move(n as int)
                &&& v == game_value(n as int)
            },
        forall|m: u64| reachable(m as int) ==> #[trigger] has_record(r@, m),
{
    let states = generate_unique();
    proof {
        assert forall|i: int| 0 <= i < states@.len() implies #[trigger] states@[i] < STATE_LIMIT by {
            assert(states@.contains(states@[i]));
            lemma_reachable_valid(states@[i] as int);
        }
        assert forall|n: int| state_set(states@).contains(n) <==> #[trigger] reachable_set().contains(
            n,
        ) by {
            if reachable(n) {
                lemma_reachable_valid(n);
                assert(states@.contains(n as u64));
                let i = choose|i: int| 0 <= i < states@.len() && states@[i] == n as u64;
                assert(states@[i] as int == n);
            }
            if state_set(states@).contains(n) {
                let i = choose|i: int| 0 <= i < states@.len() && states@[i] as int == n;
                assert(states@.contains(states@[i]));
            }
        }
        assert(state_set(states@) =~= reachable_set());
        lemma_reachable_closed();
    }
    let recs = match minimax_tree(&states) {
        Ok(recs) => recs,
        Err(_) => {
            return Vec::new();
        },
    };
    let table = build(recs);
    proof {
        assert forall|i: int|
            0 <= i < table@.len() implies {
            let (n, mv, v) = #[trigger] table@[i];
            &&& reachable(n as int)
            &&& mv == best_move(n as int)
            &&& v == game_value(n as int)
        } by {
            assert(table@.contains(table@[i]));
            assert(recs@.contains(table@[i]));
            let k = choose|k: int| 0 <= k < recs@.len() && recs@[k] == table@[i];
            assert(states@.contains(recs@[k].0));
        }
        assert forall|i: int, j: int| 0 <= i < j < table@.len() implies (
        #[trigger] table@[i]).0 < (#[trigger] table@[j]).0 by {
            assert(rec_lt(table@[i], table@[j]));
            if table@[i].0 == table@[j].0 {
                assert(table@.contains(table@[i]));
                assert(table@.contains(table@[j]));
                let a = choose|a: int| 0 <= a < recs@.len() && recs@[a] == table@[i];
                let b = choose|b: int| 0 <= b < recs@.len() && recs@[b] == table@[j];
                if a < b {
                    assert(recs@[a].0 != recs@[b].0);
                } else if b < a {
                    assert(recs@[b].0 != recs@[a].0);
                }
            }
        }
        assert forall|m: u64| reachable(m as int) implies #[trigger] has_record(table@, m) by {
            assert(states@.contains(m));
            let i = choose|i: int| 0 <= i < states@.len() && states@[i] == m;
            assert(has_record(recs@, states@[i]));
            let j = choose|j: int| 0 <= j < recs@.len() && #[trigger] recs@[j].0 == m;
            assert(recs@.contains(recs@[j]));
            assert(table@.contains(recs@[j]));
            let k = choose|k: int| 0 <= k < table@.len() && table@[k] == recs@[j];
            assert(table@[k].0 == m);
        }
    }
    table
}

/// The answer to a query on a state: the recorded move (a cell index), the
/// column it stands for, numbered `3 * x + y` (`-1` when play is over), the
/// recorded value, and the position after that move.
#[derive(Clone, Copy, Debug, PartialEq, Eq)]
pub struct Answer {
    pub stored_move: i8,
    pub human_move: i8,
    pub winner: i8,
    pub next_state: u64,
    pub next_game: Game,
}

/// The position reached from state `n` by dropping a piece of the player to
/// move into column `c` (`-1`: no move).
pub open spec fn after_move(n: int, c: int) -> Seq<i8> {
    let s = cells_of(n);
    let x = c / 3;
    let y = c % 3;
    if c == -1 || top(s, x, y) >= 3 {
        s
    } else {
        s.update(flat_index(x, y, top(s, x, y)), player_for(s))
    }
}

/// Looks a state up in the bytes of a solved table and plays the recorded
/// move. `None` when the state has no record, or its record holds a move that
/// is no cell index.
pub fn answer_query(table: &Vec<u8>, state_num: u64) -> (r: Option<Answer>)
    ensures
        r matches Some(a) ==> state_num < STATE_LIMIT,
        r matches Some(a) ==> records_of(table@).contains((state_num, a.stored_move, a.winner)),
        r matches Some(a) ==> -1 <= a.stored_move < 27 && a.human_move == (if a.stored_move == -1 {
            -1
        } else {
            3 * (a.stored_move % 3) + (a.stored_move / 3) % 3
        }),
        r matches Some(a) ==> a.next_game.board.data@ == after_move(
            state_num as int,
            a.human_move as int,
        ),
        r matches Some(a) ==> a.next_game.player == player_for(cells_of(state_num as int)),
        r matches Some(a) ==> a.next_state == crate::codec::number_of(a.next_game.board.data@),
        r is None && keys_sorted(records_of(table@)) ==> {
            ||| state_num >= STATE_LIMIT
            ||| forall|i: int|
                0 <= i < records_of(table@).len() ==> (#[trigger] records_of(table@)[i]).0
                    != state_num
            ||| exists|i: int|
                0 <= i < records_of(table@).len() && (#[trigger] records_of(table@)[i]).0
                    == state_num && !(-1 <= records_of(table@)[i].1 < 27)
        },
{
    let (stored, winner) = match get_best_move(table, state_num) {
        None => return None,
        Some(found) => found,
    };
    if stored < -1 || stored >= 27 {
        proof {
            let i = choose|i: int|
                0 <= i < records_of(table@).len() && records_of(table@)[i] == (
                    state_num,
                    stored,
                    winner,
                );
            assert((records_of(table@)[i]).0 == state_num);
        }
        return None;
    }
    let human_move = stored_move_to_human_move(stored);
    let mut g = match number_to_board(state_num) {
        Err(_) => return None,
        Ok(g) => g,
    };
    let ghost s = g.board.data@;
    if human_move != -1 {
        let x = (human_move / 3) as usize;
        let y = (human_move % 3) as usize;
        let _ = place_new_piece(&mut g.board, x, y, g.player);
    }
    proof {
        assert(records_of(table@).contains((state_num, stored, winner)));
        assert(s == cells_of(state_num as int));
        assert(g.board.data@ == after_move(state_num as int, human_move as int));
        assert(g.player == player_for(cells_of(state_num as int)));
    }
    let next_state = board_to_number(&g.board);
    Some(Answer { stored_move: stored, human_move, winner, next_state, next_game: g })
}

} // verus!
