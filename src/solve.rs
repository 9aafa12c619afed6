//! Retrograde solving: the outcome under best play and a best move for every
//! state of a set closed under moves.

use crate::codec::{
    cells_of, count_pieces, digit, lemma_cells_of_number, lemma_pow3_positive, number_to_board,
    pieces, player_for, pow3, valid_cells, STATE_LIMIT,
};
use crate::enumerate::{closed, expands, successors};
use crate::rules::{
    children, column_x, column_y, drop_cells, drop_cells_upto, full, get_all_next_numbers,
    is_terminal, lemma_children_valid, lemma_drop_cells_upto, terminal, top, winner, winner_of,
};
use std::collections::HashMap;
use vstd::arithmetic::div_mod::lemma_div_denominator;
use vstd::prelude::*;

verus! {

/// The outcome the player to move `p` picks among the outcomes `vals` of
/// the moves open to them: a win, else a draw, else a loss.
pub open spec fn preferred(p: i8, vals: Seq<i8>) -> i8 {
    if vals.contains(p) {
        p
    } else if vals.contains(0) {
        0
    } else if p == 1 {
        2
    } else {
        1
    }
}

/// Outcome under best play of position `s` (`1` or `2` for a win of that
/// player, `0` for a draw), looking at most `fuel` moves ahead.
pub open spec fn outcome(s: Seq<i8>, fuel: nat) -> i8
    decreases fuel, 0nat,
{
    if fuel == 0 || terminal(s) {
        winner_of(s)
    } else {
        let p = player_for(s);
        preferred(p, outcomes(children(s, p), (fuel - 1) as nat))
    }
}

/// The outcomes of the positions `kids`, each looking `fuel` moves ahead.
pub open spec fn outcomes(kids: Seq<Seq<i8>>, fuel: nat) -> Seq<i8>
    decreases fuel, 1nat,
{
    Seq::new(kids.len(), |j: int| outcome(kids[j], fuel))
}

/// Number of empty cells, the most moves that play can still last.
pub open spec fn empties(s: Seq<i8>) -> nat {
    (27 - pieces(s)) as nat
}

/// Outcome under best play of state `n`.
pub open spec fn game_value(n: int) -> i8 {
    outcome(cells_of(n), empties(cells_of(n)))
}

/// Outcomes under best play of the successors of state `n`, in column order.
pub open spec fn child_values(n: int) -> Seq<i8> {
    successors(n).map_values(|m: int| game_value(m))
}

/// Index of the last entry of `vals` equal to `v`, or `-1`.
pub open spec fn last_index_of(vals: Seq<i8>, v: i8) -> int
    decreases vals.len(),
{
    if vals.len() == 0 {
        -1
    } else if vals.last() == v {
        vals.len() - 1
    } else {
        last_index_of(vals.drop_last(), v)
    }
}

/// The move recorded for state `n`: `-1` when play is over, else the flat
/// index of the cell filled by the last move, in column order, that reaches
/// the best outcome.
pub open spec fn best_move(n: int) -> i8 {
    if !expands(n) {
        -1i8
    } else {
        drop_cells(cells_of(n))[last_index_of(child_values(n), game_value(n))] as i8
    }
}

/// Index of the first of the 27 cells, from `i` on, where `a` and `b` differ,
/// or `-1`.
pub open spec fn first_diff_from(a: Seq<i8>, b: Seq<i8>, i: nat) -> int
    decreases 27 - i,
{
    if i >= 27 {
        -1
    } else if a[i as int] != b[i as int] {
        i as int
    } else {
        first_diff_from(a, b, i + 1)
    }
}

/// Changing one cell of a board changes its number of pieces accordingly.
pub proof fn lemma_pieces_update(s: Seq<i8>, i: int, v: i8)
    requires
        0 <= i < s.len(),
    ensures
        pieces(s.update(i, v)) + (if s[i] != 0 {
            1int
        } else {
            0int
        }) == pieces(s) + (if v != 0 {
            1int
        } else {
            0int
        }),
    decreases s.len(),
{
    let t = s.update(i, v);
    if i == s.len() - 1 {
        assert(t.drop_last() =~= s.drop_last());
    } else {
        assert(t.drop_last() =~= s.drop_last().update(i, v));
        lemma_pieces_update(s.drop_last(), i, v);
    }
}

/// A board with an empty cell has fewer pieces than cells.
pub proof fn lemma_pieces_bound(s: Seq<i8>)
    ensures
        pieces(s) <= s.len(),
        (exists|i: int| 0 <= i < s.len() && s[i] == 0) ==> pieces(s) < s.len(),
    decreases s.len(),
{
    if s.len() > 0 {
        lemma_pieces_bound(s.drop_last());
        if exists|i: int| 0 <= i < s.len() && s[i] == 0 {
            let i = choose|i: int| 0 <= i < s.len() && s[i] == 0;
            if i < s.len() - 1 {
                assert(s.drop_last()[i] == 0);
            }
        }
    }
}

/// A board that is not full has a column that is not full.
proof fn lemma_open_column(s: Seq<i8>)
    requires
        valid_cells(s),
        !full(s),
    ensures
        drop_cells(s).len() > 0,
{
    let i = choose|i: int| 0 <= i < 27 && s[i] == 0;
    let x = i % 3;
    let y = (i / 3) % 3;
    let z = i / 9;
    assert(i == x + 3 * y + 9 * z);
    let c = 3 * x + y;
    assert(column_x(c) == x && column_y(c) == y);
    assert(top(s, x, y) <= z);
    lemma_drop_cells_grow(s, (c + 1) as nat, 9);
}

proof fn lemma_drop_cells_grow(s: Seq<i8>, k: nat, m: nat)
    requires
        s.len() == 27,
        1 <= k <= m <= 9,
        top(s, column_x(k - 1), column_y(k - 1)) < 3,
    ensures
        drop_cells_upto(s, m).len() > 0,
    decreases m,
{
    if m > k {
        lemma_drop_cells_grow(s, k, (m - 1) as nat);
    }
}

/// The successor of a state reached by its `j`-th move has one more piece
/// and decodes back to that position; its value is the outcome of that
/// position one move further on.
proof fn lemma_successor_value(n: int, j: int)
    requires
        n >= 0,
        valid_cells(cells_of(n)),
        0 <= j < successors(n).len(),
    ensures
        ({
            let s = cells_of(n);
            let kid = children(s, player_for(s))[j];
            &&& empties(s) >= 1
            &&& cells_of(successors(n)[j]) == kid
            &&& game_value(successors(n)[j]) == outcome(kid, (empties(s) - 1) as nat)
            &&& pieces(kid) == pieces(s) + 1
        }),
{
    let s = cells_of(n);
    let p = player_for(s);
    lemma_children_valid(s, p);
    lemma_drop_cells_upto(s, 9);
    let kid = children(s, p)[j];
    let k = drop_cells(s)[j];
    assert(kid == s.update(k, p));
    lemma_pieces_update(s, k, p);
    lemma_cells_of_number(kid);
    lemma_pieces_bound(kid);
}

/// The value of a state where play goes on is the outcome its player
/// prefers among the values of its successors.
pub proof fn lemma_value_step(n: int)
    requires
        n >= 0,
        expands(n),
    ensures
        game_value(n) == preferred(player_for(cells_of(n)), child_values(n)),
        child_values(n).len() > 0,
{
    let s = cells_of(n);
    lemma_cells_valid(n);
    let p = player_for(s);
    let kids = children(s, p);
    assert(!full(s));
    let i0 = choose|i: int| 0 <= i < 27 && !(#[trigger] s[i] != 0);
    assert(s[i0] == 0);
    lemma_pieces_bound(s);
    assert(empties(s) >= 1);
    lemma_open_column(s);
    let f = empties(s);
    let vals = outcomes(kids, (f - 1) as nat);
    assert(outcome(s, f) == preferred(p, vals));
    assert forall|j: int| 0 <= j < kids.len() implies vals[j] == #[trigger] child_values(n)[j] by {
        lemma_successor_value(n, j);
    }
    assert(vals =~= child_values(n));
}

/// Every number decodes to valid cells.
pub proof fn lemma_cells_valid(n: int)
    requires
        n >= 0,
    ensures
        valid_cells(cells_of(n)),
{
}

/// The value of a state is `0`, `1` or `2`.
pub proof fn lemma_value_range(n: int)
    ensures
        0 <= game_value(n) <= 2,
{
    let s = cells_of(n);
    let f = empties(s);
    if f == 0 || terminal(s) {
    } else {
        let p = player_for(s);
        assert(p == 1 || p == 2);
    }
}

/// The cell filled by a move is the first cell where the two boards differ.
proof fn lemma_first_diff_update(a: Seq<i8>, k: int, v: i8, i: nat)
    requires
        a.len() == 27,
        0 <= i <= k < 27,
        a[k] != v,
    ensures
        first_diff_from(a, a.update(k, v), i) == k,
    decreases 27 - i,
{
    if i < k {
        lemma_first_diff_update(a, k, v, i + 1);
    }
}

/// Why a set of states cannot be solved.
#[derive(Clone, Copy, Debug, PartialEq, Eq)]
pub enum SolveError {
    /// The number is not a state number: it is at least `3^27`.
    InvalidState(u64),
    /// Play goes on from this state, but one of its successors is not among
    /// the states given, or not resolved yet.
    MissingSuccessor(u64),
}

/// Index of the first cell whose value differs between states `b1` and `b2`,
/// or `-1` when their cells agree.
pub fn get_move_between_board(b1: u64, b2: u64) -> (r: i8)
    ensures
        r == first_diff_from(cells_of(b1 as int), cells_of(b2 as int), 0),
{
    let ghost a = cells_of(b1 as int);
    let ghost b = cells_of(b2 as int);
    let mut x: u64 = b1;
    let mut y: u64 = b2;
    let mut i: u8 = 0;
    proof {
        assert(b1 as int / 1 == b1 as int);
        assert(b2 as int / 1 == b2 as int);
        assert(pow3(0) == 1);
    }
    while i < 27
        invariant
            i <= 27,
            a == cells_of(b1 as int),
            b == cells_of(b2 as int),
            x as int == b1 as int / (pow3(i as nat) as int),
            y as int == b2 as int / (pow3(i as nat) as int),
            first_diff_from(a, b, 0) == first_diff_from(a, b, i as nat),
        decreases 27 - i,
    {
        proof {
            lemma_pow3_positive(i as nat);
            assert(a[i as int] == digit(b1 as int, i as nat) as i8);
            assert(b[i as int] == digit(b2 as int, i as nat) as i8);
            lemma_div_denominator(b1 as int, pow3(i as nat) as int, 3);
            lemma_div_denominator(b2 as int, pow3(i as nat) as int, 3);
            assert(pow3((i + 1) as nat) == pow3(i as nat) * 3);
        }
        if x % 3 != y % 3 {
            return i as i8;
        }
        x = x / 3;
        y = y / 3;
        i = i + 1;
    }
    -1
}

/// The column, numbered `3 * x + y`, of the cell with the given flat index;
/// `-1` stays `-1`.
pub fn stored_move_to_human_move(stored_move: i8) -> (r: i8)
    requires
        -1 <= stored_move < 27,
    ensures
        r == if stored_move == -1 {
            -1
        } else {
            3 * (stored_move % 3) + (stored_move / 3) % 3
        },
{
    if stored_move == -1 {
        return -1;
    }
    3 * (stored_move % 3) + (stored_move / 3) % 3
}

/// The memo holds the value under best play of each state it has.
pub open spec fn memo_sound(memo: Map<u64, i8>) -> bool {
    forall|k: u64| #[trigger] memo.contains_key(k) ==> memo[k] == game_value(k as int)
}

/// All successors of state `n` have an entry in the memo.
pub open spec fn successors_known(n: int, memo: Map<u64, i8>) -> bool {
    forall|j: int|
        0 <= j < successors(n).len() ==> memo.contains_key(#[trigger] successors(n)[j] as u64)
}

/// Resolves one state from the values of its successors held in `memo`:
/// gives the move to record and the value under best play. A state where play
/// is over needs no successor and records move `-1`.
pub fn resolve_state(n: u64, memo: &HashMap<u64, i8>) -> (r: Result<(i8, i8), SolveError>)
    requires
        memo_sound(memo@),
    ensures
        n >= STATE_LIMIT ==> r == Err::<(i8, i8), SolveError>(SolveError::InvalidState(n)),
        n < STATE_LIMIT ==> {
            &&& r is Ok <==> (!expands(n as int) || successors_known(n as int, memo@))
            &&& r is Err ==> r == Err::<(i8, i8), SolveError>(SolveError::MissingSuccessor(n))
        },
        r matches Ok((mv, v)) ==> mv == best_move(n as int) && v == game_value(n as int),
{
    let g = match number_to_board(n) {
        Err(_) => return Err(SolveError::InvalidState(n)),
        Ok(g) => g,
    };
    let ghost s = cells_of(n as int);
    if is_terminal(&g) {
        let w = winner(&g);
        return Ok((-1, w));
    }
    proof {
        lemma_value_step(n as int);
    }
    let ghost vals = child_values(n as int);
    let nexts = get_all_next_numbers(g);
    let mut has_one = false;
    let mut has_two = false;
    let mut has_tie = false;
    let mut one_idx: usize = 0;
    let mut two_idx: usize = 0;
    let mut tie_idx: usize = 0;
    let mut j: usize = 0;
    while j < nexts.len()
        invariant
            memo_sound(memo@),
            n < STATE_LIMIT,
            expands(n as int),
            vals == child_values(n as int),
            j <= nexts@.len(),
            nexts@.len() == vals.len(),
            vals.len() == successors(n as int).len(),
            forall|i: int|
                0 <= i < nexts@.len() ==> #[trigger] nexts@[i] as int == successors(n as int)[i],
            forall|i: int| 0 <= i < j ==> memo@.contains_key(#[trigger] nexts@[i]),
            has_one == vals.take(j as int).contains(1),
            has_two == vals.take(j as int).contains(2),
            has_tie == vals.take(j as int).contains(0),
            has_one ==> one_idx == last_index_of(vals.take(j as int), 1),
            has_two ==> two_idx == last_index_of(vals.take(j as int), 2),
            has_tie ==> tie_idx == last_index_of(vals.take(j as int), 0),
            forall|i: int| 0 <= i < j ==> 0 <= #[trigger] vals[i] <= 2,
        decreases nexts@.len() - j,
    {
        let m = nexts[j];
        let v = match memo.get(&m) {
            None => {
                proof {
                    assert(!memo@.contains_key(successors(n as int)[j as int] as u64));
                }
                return Err(SolveError::MissingSuccessor(n));
            },
            Some(v) => *v,
        };
        proof {
            assert(vals[j as int] == game_value(successors(n as int)[j as int]));
            assert(v == vals[j as int]);
            lemma_value_range(successors(n as int)[j as int]);
            let t = vals.take(j as int);
            let t1 = vals.take(j + 1);
            assert(t1.drop_last() =~= t);
            assert(t1.last() == v);
            assert forall|w: i8| t1.contains(w) <==> (t.contains(w) || w == v) by {
                if t1.contains(w) {
                    let i = choose|i: int| 0 <= i < t1.len() && t1[i] == w;
                    if i < t.len() {
                        assert(t[i] == w);
                    }
                }
                if t.contains(w) {
                    let i = choose|i: int| 0 <= i < t.len() && t[i] == w;
                    assert(t1[i] == w);
                }
                if w == v {
                    assert(t1[j as int] == w);
                }
            }
        }
        if v == 1 {
            has_one = true;
            one_idx = j;
        } else if v == 2 {
            has_two = true;
            two_idx = j;
        } else {
            has_tie = true;
            tie_idx = j;
        }
        j = j + 1;
    }
    proof {
        assert(vals.take(vals.len() as int) =~= vals);
        assert(successors_known(n as int, memo@)) by {
            assert forall|i: int| 0 <= i < successors(n as int).len() implies memo@.contains_key(
                #[trigger] successors(n as int)[i] as u64,
            ) by {
                assert(memo@.contains_key(nexts@[i]));
            }
        }
        assert(vals.contains(vals[0]));
    }
    let result: i8;
    let chosen: usize;
    if g.player == 1 {
        if has_one {
            result = 1;
            chosen = one_idx;
        } else if has_tie {
            result = 0;
            chosen = tie_idx;
        } else {
            result = 2;
            chosen = two_idx;
        }
    } else {
        if has_two {
            result = 2;
            chosen = two_idx;
        } else if has_tie {
            result = 0;
            chosen = tie_idx;
        } else {
            result = 1;
            chosen = one_idx;
        }
    }
    proof {
        lemma_last_index_of(vals, result);
    }
    let mv = get_move_between_board(n, nexts[chosen]);
    proof {
        let p = player_for(s);
        lemma_cells_valid(n as int);
        lemma_drop_cells_upto(s, 9);
        lemma_successor_value(n as int, chosen as int);
        let k = drop_cells(s)[chosen as int];
        assert(children(s, p)[chosen as int] == s.update(k, p));
        lemma_first_diff_update(s, k, p, 0);
    }
    Ok((mv, result))
}

/// The states listed in `v`.
pub open spec fn state_set(v: Seq<u64>) -> Set<int> {
    Set::new(|n: int| exists|i: int| 0 <= i < v.len() && v[i] as int == n)
}

/// Every listed number is a state number.
pub open spec fn all_states(v: Seq<u64>) -> bool {
    forall|i: int| 0 <= i < v.len() ==> #[trigger] v[i] < STATE_LIMIT
}

/// Some record of `recs` is about state `k`.
pub open spec fn has_record(recs: Seq<(u64, i8, i8)>, k: u64) -> bool {
    exists|j: int| 0 <= j < recs.len() && #[trigger] recs[j].0 == k
}

/// `recs` holds one record `(state, move, value)` for each state of `states`
/// and no other: the value under best play and the best move.
pub open spec fn solved_table(states: Seq<u64>, recs: Seq<(u64, i8, i8)>) -> bool {
    &&& forall|i: int|
        0 <= i < recs.len() ==> {
            let (n, mv, v) = #[trigger] recs[i];
            &&& states.contains(n)
            &&& mv == best_move(n as int)
            &&& v == game_value(n as int)
        }
    &&& forall|i: int| 0 <= i < states.len() ==> has_record(recs, #[trigger] states[i])
    &&& forall|i: int, j: int| 0 <= i < j < recs.len() ==> #[trigger] recs[i].0 != #[trigger] recs[j].0
}

/// The number of pieces of each listed state.
fn piece_counts(states: &Vec<u64>) -> (r: Result<Vec<u8>, SolveError>)
    ensures
        r is Ok <==> all_states(states@),
        r matches Err(e) ==> e matches SolveError::InvalidState(n) && states@.contains(n) && n
            >= STATE_LIMIT,
        r matches Ok(c) ==> c@.len() == states@.len() && forall|i: int|
            0 <= i < c@.len() ==> #[trigger] c@[i] == pieces(cells_of(states@[i] as int)) && c@[i]
                <= 27,
{
    let mut counts: Vec<u8> = Vec::new();
    let mut i: usize = 0;
    while i < states.len()
        invariant
            i <= states@.len(),
            counts@.len() == i,
            forall|k: int| 0 <= k < i ==> #[trigger] states@[k] < STATE_LIMIT,
            forall|k: int|
                0 <= k < i ==> #[trigger] counts@[k] == pieces(cells_of(states@[k] as int))
                    && counts@[k] <= 27,
        decreases states@.len() - i,
    {
        match number_to_board(states[i]) {
            Err(_) => {
                proof {
                    assert(states@[i as int] >= STATE_LIMIT);
                }
                return Err(SolveError::InvalidState(states[i]));
            },
            Ok(g) => {
                let c = count_pieces(&g.board);
                counts.push(c);
            },
        }
        i = i + 1;
    }
    Ok(counts)
}

/// A state whose successor is missing from the memo, while every listed state
/// with more pieces is in it, has a successor that is not listed.
proof fn lemma_missing_successor(
    states: Seq<u64>,
    counts: Seq<u8>,
    memo: Map<u64, i8>,
    n: u64,
    level: int,
)
    requires
        n < STATE_LIMIT,
        expands(n as int),
        !successors_known(n as int, memo),
        pieces(cells_of(n as int)) == level,
        counts.len() == states.len(),
        forall|i: int| 0 <= i < counts.len() ==> #[trigger] counts[i] == pieces(cells_of(states[i] as int)),
        forall|i: int| 0 <= i < counts.len() && #[trigger] counts[i] > level ==> memo.contains_key(states[i]),
    ensures
        exists|j: int|
            0 <= j < successors(n as int).len() && !state_set(states).contains(
                #[trigger] successors(n as int)[j],
            ),
{
    let j = choose|j: int|
        0 <= j < successors(n as int).len() && !memo.contains_key(
            #[trigger] successors(n as int)[j] as u64,
        );
    lemma_cells_valid(n as int);
    lemma_successor_value(n as int, j);
    let m = successors(n as int)[j];
    lemma_cells_of_number(cells_of(m));
    if state_set(states).contains(m) {
        let i = choose|i: int| 0 <= i < states.len() && states[i] as int == m;
        assert(counts[i] == pieces(cells_of(m)));
        assert(memo.contains_key(states[i]));
        assert(states[i] == m as u64);
    }
}

/// What the solver keeps while it works: the memo holds true values of
/// listed states, with their successors known where play goes on, and `out`
/// holds exactly one correct record for each memo entry.
#[verifier::opaque]
pub open spec fn progress(states: Seq<u64>, memo: Map<u64, i8>, out: Seq<(u64, i8, i8)>) -> bool {
    &&& memo_sound(memo)
    &&& forall|k: u64| #[trigger] memo.contains_key(k) ==> states.contains(k)
    &&& forall|k: u64|
        #[trigger] memo.contains_key(k) && expands(k as int) ==> successors_known(k as int, memo)
    &&& forall|i: int|
        0 <= i < out.len() ==> {
            let (n, mv, v) = #[trigger] out[i];
            &&& memo.contains_key(n)
            &&& mv == best_move(n as int)
            &&& v == game_value(n as int)
        }
    &&& forall|k: u64| #[trigger] memo.contains_key(k) ==> has_record(out, k)
    &&& forall|i: int, j: int| 0 <= i < j < out.len() ==> #[trigger] out[i].0 != #[trigger] out[j].0
}

proof fn lemma_progress_start(states: Seq<u64>)
    ensures
        progress(states, Map::empty(), Seq::empty()),
{
    reveal(progress);
}

proof fn lemma_progress_facts(states: Seq<u64>, memo: Map<u64, i8>, out: Seq<(u64, i8, i8)>)
    requires
        progress(states, memo, out),
    ensures
        memo_sound(memo),
        forall|k: u64| #[trigger] memo.contains_key(k) ==> states.contains(k),
        forall|k: u64|
            #[trigger] memo.contains_key(k) && expands(k as int) ==> successors_known(k as int, memo),
{
    reveal(progress);
}

/// Recording a resolved state keeps the solver's invariant.
proof fn lemma_progress_insert(
    states: Seq<u64>,
    memo: Map<u64, i8>,
    out: Seq<(u64, i8, i8)>,
    n: u64,
    mv: i8,
    v: i8,
)
    requires
        progress(states, memo, out),
        !memo.contains_key(n),
        states.contains(n),
        mv == best_move(n as int),
        v == game_value(n as int),
        expands(n as int) ==> successors_known(n as int, memo),
    ensures
        progress(states, memo.insert(n, v), out.push((n, mv, v))),
{
    reveal(progress);
    let memo2 = memo.insert(n, v);
    let out2 = out.push((n, mv, v));
    assert(out2[out2.len() - 1] == (n, mv, v));
    assert forall|i: int| 0 <= i < out.len() implies #[trigger] out2[i] == out[i] by {
    }
    assert forall|k: u64| #[trigger] memo2.contains_key(k) implies has_record(out2, k) by {
        if k == n {
            assert(out2[out2.len() - 1].0 == k);
        } else {
            assert(memo.contains_key(k));
            assert(has_record(out, k));
            let j = choose|j: int| 0 <= j < out.len() && #[trigger] out[j].0 == k;
            assert(out2[j].0 == k);
        }
    }
    assert forall|a: int, b: int| 0 <= a < b < out2.len() implies #[trigger] out2[a].0
        != #[trigger] out2[b].0 by {
        if b == out2.len() - 1 {
            assert(memo.contains_key(out[a].0));
        } else {
            assert(out2[a] == out[a] && out2[b] == out[b]);
        }
    }
    assert forall|k: u64|
        #[trigger] memo2.contains_key(k) && expands(k as int) implies successors_known(
        k as int,
        memo2,
    ) by {
        if k != n {
            assert(successors_known(k as int, memo));
        }
        assert forall|jj: int|
            0 <= jj < successors(k as int).len() implies memo2.contains_key(
            #[trigger] successors(k as int)[jj] as u64,
        ) by {
            assert(memo.contains_key(successors(k as int)[jj] as u64));
        }
    }
    assert forall|i: int| 0 <= i < out2.len() implies {
        let (n2, mv2, v2) = #[trigger] out2[i];
        &&& memo2.contains_key(n2)
        &&& mv2 == best_move(n2 as int)
        &&& v2 == game_value(n2 as int)
    } by {
        if i < out.len() {
            assert(out2[i] == out[i]);
        }
    }
}

/// Once every listed state is in the memo, the records form the solved table
/// and the listed states are closed under moves.
proof fn lemma_progress_done(states: Seq<u64>, memo: Map<u64, i8>, out: Seq<(u64, i8, i8)>)
    requires
        progress(states, memo, out),
        forall|i: int| 0 <= i < states.len() ==> memo.contains_key(#[trigger] states[i]),
    ensures
        solved_table(states, out),
        closed(state_set(states)),
{
    reveal(progress);
    let set = state_set(states);
    assert forall|i: int| 0 <= i < states.len() implies has_record(out, #[trigger] states[i]) by {
        assert(memo.contains_key(states[i]));
    }
    assert forall|nn: int, jj: int|
        #![trigger set.contains(nn), successors(nn)[jj]]
        set.contains(nn) && expands(nn) && 0 <= jj < successors(nn).len() implies set.contains(
        successors(nn)[jj],
    ) by {
        let i = choose|i: int| 0 <= i < states.len() && states[i] as int == nn;
        let k = states[i];
        assert(memo.contains_key(k));
        assert(successors_known(k as int, memo));
        let m = successors(nn)[jj] as u64;
        assert(memo.contains_key(m));
        assert(states.contains(m));
        lemma_cells_valid(nn);
        lemma_successor_value(nn, jj);
        lemma_cells_of_number(cells_of(successors(nn)[jj]));
        let w = choose|w: int| 0 <= w < states.len() && states[w] == m;
        assert(states[w] as int == successors(nn)[jj]);
    }
    assert forall|i: int| 0 <= i < out.len() implies {
        let (n, mv, v) = #[trigger] out[i];
        &&& states.contains(n)
        &&& mv == best_move(n as int)
        &&& v == game_value(n as int)
    } by {
        assert(memo.contains_key(out[i].0));
    }
}

/// Solves every listed state, given as numbers in any order and possibly
/// repeated. The listed states must be closed under moves: every successor of
/// a listed state where play goes on is listed too. States are resolved from
/// the most pieces down, so that each state finds its successors resolved.
pub fn minimax_tree(states: &Vec<u64>) -> (r: Result<Vec<(u64, i8, i8)>, SolveError>)
    ensures
        r is Ok <==> all_states(states@) && closed(state_set(states@)),
        r matches Ok(recs) ==> solved_table(states@, recs@),
        r matches Err(e) ==> match e {
            SolveError::InvalidState(n) => states@.contains(n) && n >= STATE_LIMIT,
            SolveError::MissingSuccessor(n) => {
                &&& states@.contains(n)
                &&& expands(n as int)
                &&& exists|j: int|
                    0 <= j < successors(n as int).len() && !state_set(states@).contains(
                        #[trigger] successors(n as int)[j],
                    )
            },
        },
{
    let counts = match piece_counts(states) {
        Err(e) => {
            proof {
                let n = e->InvalidState_0;
                let i = choose|i: int| 0 <= i < states@.len() && states@[i] == n;
                assert(!(states@[i] < STATE_LIMIT));
            }
            return Err(e);
        },
        Ok(c) => c,
    };
    let ghost set = state_set(states@);
    let mut memo: HashMap<u64, i8> = HashMap::new();
    let mut out: Vec<(u64, i8, i8)> = Vec::new();
    proof {
        lemma_progress_start(states@);
        assert(memo@ == Map::<u64, i8>::empty());
        assert(out@ == Seq::<(u64, i8, i8)>::empty());
    }
    let mut level: u8 = 28;
    while level > 0
        invariant
            level <= 28,
            set == state_set(states@),
            all_states(states@),
            counts@.len() == states@.len(),
            forall|i: int|
                0 <= i < counts@.len() ==> #[trigger] counts@[i] == pieces(
                    cells_of(states@[i] as int),
                ) && counts@[i] <= 27,
            progress(states@, memo@, out@),
            forall|i: int|
                0 <= i < counts@.len() && #[trigger] counts@[i] >= level ==> memo@.contains_key(
                    states@[i],
                ),
        decreases level,
    {
        level = level - 1;
        let mut i: usize = 0;
        while i < states.len()
            invariant
                level < 28,
                i <= states@.len(),
                set == state_set(states@),
                all_states(states@),
                counts@.len() == states@.len(),
                forall|k: int|
                    0 <= k < counts@.len() ==> #[trigger] counts@[k] == pieces(
                        cells_of(states@[k] as int),
                    ) && counts@[k] <= 27,
                progress(states@, memo@, out@),
                forall|k: int|
                    0 <= k < counts@.len() && #[trigger] counts@[k] > level ==> memo@.contains_key(
                        states@[k],
                    ),
                forall|k: int|
                    0 <= k < i && #[trigger] counts@[k] == level ==> memo@.contains_key(
                        states@[k],
                    ),
            decreases states@.len() - i,
        {
            let n = states[i];
            proof {
                lemma_progress_facts(states@, memo@, out@);
                assert(states@[i as int] == n);
            }
            if counts[i] == level && !memo.contains_key(&n) {
                match resolve_state(n, &memo) {
                    Err(e) => {
                        proof {
                            assert(states@[i as int] < STATE_LIMIT);
                            lemma_missing_successor(states@, counts@, memo@, n, level as int);
                            let j = choose|j: int|
                                0 <= j < successors(n as int).len() && !state_set(
                                    states@,
                                ).contains(#[trigger] successors(n as int)[j]);
                            assert(states@[i as int] as int == n as int);
                            assert(set.contains(n as int));
                            assert(!closed(set));
                        }
                        return Err(e);
                    },
                    Ok((mv, v)) => {
                        proof {
                            lemma_progress_insert(states@, memo@, out@, n, mv, v);
                        }
                        memo.insert(n, v);
                        out.push((n, mv, v));
                    },
                }
            }
            i = i + 1;
        }
    }
    proof {
        assert forall|i: int| 0 <= i < states@.len() implies memo@.contains_key(
            #[trigger] states@[i],
        ) by {
            assert(counts@[i] >= 0);
        }
        lemma_progress_done(states@, memo@, out@);
    }
    Ok(out)
}

/// The player to move picks an outcome that one of the moves gives.
proof fn lemma_preferred_present(p: i8, vals: Seq<i8>)
    requires
        p == 1 || p == 2,
        vals.len() > 0,
        forall|j: int| 0 <= j < vals.len() ==> 0 <= #[trigger] vals[j] <= 2,
    ensures
        vals.contains(preferred(p, vals)),
{
    if !vals.contains(p) && !vals.contains(0) {
        let v = vals[0];
        assert(vals.contains(v));
        assert(v != p && v != 0);
    }
}

/// The value recorded in `recs` for state `m`.
pub open spec fn recorded_value(recs: Seq<(u64, i8, i8)>, m: int) -> i8 {
    recs[choose|j: int| 0 <= j < recs.len() && recs[j].0 as int == m].2
}

/// Totality of the solver: in a solved table of a set of states closed under
/// moves, every listed state has exactly one record, and when play goes on
/// from it, its move is the cell filled by one of its moves, leading to a
/// listed state.
pub proof fn lemma_solved_table_total(states: Seq<u64>, recs: Seq<(u64, i8, i8)>, i: int)
    requires
        solved_table(states, recs),
        closed(state_set(states)),
        0 <= i < states.len(),
    ensures
        has_record(recs, states[i]),
        forall|a: int, b: int|
            0 <= a < recs.len() && 0 <= b < recs.len() && #[trigger] recs[a].0 == states[i]
                && #[trigger] recs[b].0 == states[i] ==> a == b,
        expands(states[i] as int) ==> exists|c: int|
            0 <= c < successors(states[i] as int).len() && #[trigger] drop_cells(
                cells_of(states[i] as int),
            )[c] as i8 == best_move(states[i] as int) && state_set(states).contains(
                successors(states[i] as int)[c],
            ),
{
    assert(has_record(recs, states[i]));
    assert forall|a: int, b: int|
        0 <= a < recs.len() && 0 <= b < recs.len() && #[trigger] recs[a].0 == states[i]
            && #[trigger] recs[b].0 == states[i] implies a == b by {
        if a < b {
            assert(recs[a].0 != recs[b].0);
        } else if b < a {
            assert(recs[b].0 != recs[a].0);
        }
    }
    let n = states[i] as int;
    if expands(n) {
        lemma_value_step(n);
        let vals = child_values(n);
        let p = player_for(cells_of(n));
        assert forall|j: int| 0 <= j < vals.len() implies 0 <= #[trigger] vals[j] <= 2 by {
            lemma_value_range(successors(n)[j]);
        }
        lemma_preferred_present(p, vals);
        lemma_last_index_of(vals, game_value(n));
        let c = last_index_of(vals, game_value(n));
        assert(state_set(states).contains(n));
        assert(state_set(states).contains(successors(n)[c]));
    }
}

/// Consistency of the solver: in a solved table of a set of states closed
/// under moves, the value recorded for a state where play goes on is the
/// outcome its player prefers among the values recorded for its successors,
/// each of which has a record.
pub proof fn lemma_solved_table_consistent(states: Seq<u64>, recs: Seq<(u64, i8, i8)>, i: int)
    requires
        solved_table(states, recs),
        closed(state_set(states)),
        0 <= i < recs.len(),
        expands(recs[i].0 as int),
    ensures
        forall|c: int|
            0 <= c < successors(recs[i].0 as int).len() ==> has_record(
                recs,
                #[trigger] successors(recs[i].0 as int)[c] as u64,
            ),
        recs[i].2 == preferred(
            player_for(cells_of(recs[i].0 as int)),
            successors(recs[i].0 as int).map_values(|m: int| recorded_value(recs, m)),
        ),
{
    let n = recs[i].0 as int;
    let set = state_set(states);
    assert(states.contains(recs[i].0));
    let w = choose|w: int| 0 <= w < states.len() && states[w] == recs[i].0;
    assert(set.contains(n));
    lemma_value_step(n);
    let recorded = successors(n).map_values(|m: int| recorded_value(recs, m));
    assert forall|c: int| 0 <= c < successors(n).len() implies has_record(
        recs,
        #[trigger] successors(n)[c] as u64,
    ) && recorded[c] == child_values(n)[c] by {
        let m = successors(n)[c];
        assert(set.contains(m));
        let k = choose|k: int| 0 <= k < states.len() && states[k] as int == m;
        assert(has_record(recs, states[k]));
        let j = choose|j: int| 0 <= j < recs.len() && #[trigger] recs[j].0 == states[k];
        assert(recs[j].0 as int == m);
        let j2 = choose|j2: int| 0 <= j2 < recs.len() && recs[j2].0 as int == m;
        assert(recs[j2].2 == game_value(recs[j2].0 as int));
    }
    assert(recorded =~= child_values(n));
}

/// The last index of a value present in a sequence holds that value.
proof fn lemma_last_index_of(vals: Seq<i8>, v: i8)
    requires
        vals.contains(v),
    ensures
        0 <= last_index_of(vals, v) < vals.len(),
        vals[last_index_of(vals, v)] == v,
    decreases vals.len(),
{
    if vals.last() != v {
        let i = choose|i: int| 0 <= i < vals.len() && vals[i] == v;
        assert(vals.drop_last()[i] == v);
        lemma_last_index_of(vals.drop_last(), v);
    }
}

} // verus!
