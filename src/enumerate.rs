//! Discovery of every state reachable from the empty board.

use crate::codec::{
    cells_of, lemma_cells_of_number, number_of, number_to_board, player_for, valid_cells,
    CodecError, STATE_LIMIT,
};
use crate::rules::{children, get_all_next_numbers, is_terminal, lemma_children_valid, terminal};
use crate::work_queue::{new_queue, pop_front, push_back, queued};
use std::collections::HashSet;
use vstd::prelude::*;
use vstd::set_lib::{lemma_int_range, lemma_len_subset, lemma_map_size, set_int_range};

verus! {

broadcast use vstd::std_specs::hash::group_hash_axioms;

/// The state numbers one move away from state `n`, in column order.
pub open spec fn successors(n: int) -> Seq<int> {
    let s = cells_of(n);
    children(s, player_for(s)).map_values(|c: Seq<i8>| number_of(c))
}

/// Play goes on from state `n`.
pub open spec fn expands(n: int) -> bool {
    !terminal(cells_of(n))
}

/// `m` is one move away from a state of `prev` where play goes on.
pub open spec fn follows(prev: Set<int>, m: int) -> bool {
    exists|n: int, j: int|
        #![trigger prev.contains(n), successors(n)[j]]
        prev.contains(n) && expands(n) && 0 <= j < successors(n).len() && successors(n)[j] == m
}

/// States reached from state `start` in at most `k` moves.
pub open spec fn reach_within(start: int, k: nat) -> Set<int>
    decreases k,
{
    if k == 0 {
        set![start]
    } else {
        let prev = reach_within(start, (k - 1) as nat);
        prev.union(Set::new(|m: int| follows(prev, m)))
    }
}

/// `m` is reached from state `start` by legal play.
pub open spec fn reachable_from(start: int, m: int) -> bool {
    exists|k: nat| #[trigger] reach_within(start, k).contains(m)
}

/// The set of states reached from state `start` by legal play.
pub open spec fn reachable_set_from(start: int) -> Set<int> {
    Set::new(|m: int| reachable_from(start, m))
}

/// `m` is reached from the empty board by legal play.
pub open spec fn reachable(m: int) -> bool {
    reachable_from(0, m)
}

/// The set of states reached from the empty board by legal play.
pub open spec fn reachable_set() -> Set<int> {
    reachable_set_from(0)
}

/// Every successor of every member of `s` where play goes on is in `s`.
pub open spec fn closed(s: Set<int>) -> bool {
    forall|n: int, j: int|
        #![trigger s.contains(n), successors(n)[j]]
        s.contains(n) && expands(n) && 0 <= j < successors(n).len() ==> s.contains(
            successors(n)[j],
        )
}

/// The cells of a reachable state are valid and its number is in range.
pub proof fn lemma_reachable_valid(m: int)
    requires
        reachable(m),
    ensures
        valid_cells(cells_of(m)),
        number_of(cells_of(m)) == m,
        0 <= m < STATE_LIMIT,
{
    lemma_zero_state();
    lemma_reachable_from_valid(0, m);
}

/// A state reached from a state number is a state number whose cells are valid.
pub proof fn lemma_reachable_from_valid(start: int, m: int)
    requires
        0 <= start < STATE_LIMIT,
        reachable_from(start, m),
    ensures
        valid_cells(cells_of(m)),
        number_of(cells_of(m)) == m,
        0 <= m < STATE_LIMIT,
{
    let k = choose|k: nat| #[trigger] reach_within(start, k).contains(m);
    lemma_reach_within_valid(start, k, m);
}

/// The empty board is state number 0.
proof fn lemma_zero_state()
    ensures
        valid_cells(cells_of(0)),
        number_of(cells_of(0)) == 0,
{
    let s = cells_of(0);
    assert forall|i: int| 0 <= i < 27 implies s[i] == 0 by {
        assert(0int / (crate::codec::pow3(i as nat) as int) == 0) by {
            crate::codec::lemma_pow3_positive(i as nat);
        }
    }
    lemma_number_of_zero(s);
}

proof fn lemma_reach_within_valid(start: int, k: nat, m: int)
    requires
        0 <= start < STATE_LIMIT,
        reach_within(start, k).contains(m),
    ensures
        valid_cells(cells_of(m)),
        number_of(cells_of(m)) == m,
        0 <= m < STATE_LIMIT,
    decreases k,
{
    if k == 0 {
        assert(m == start);
        crate::codec::lemma_decode_encode(start);
    } else {
        let prev = reach_within(start, (k - 1) as nat);
        if prev.contains(m) {
            lemma_reach_within_valid(start, (k - 1) as nat, m);
        } else {
            assert(follows(prev, m));
            let (n, j) = choose|n: int, j: int|
                #![trigger prev.contains(n), successors(n)[j]]
                prev.contains(n) && expands(n) && 0 <= j < successors(n).len()
                    && successors(n)[j] == m;
            lemma_reach_within_valid(start, (k - 1) as nat, n);
            lemma_successor_valid(n, j);
        }
    }
}

proof fn lemma_number_of_zero(s: Seq<i8>)
    requires
        forall|i: int| 0 <= i < s.len() ==> s[i] == 0,
    ensures
        number_of(s) == 0,
    decreases s.len(),
{
    if s.len() > 0 {
        lemma_number_of_zero(s.drop_first());
    }
}

/// A successor of a valid state is a valid state whose cells decode back.
proof fn lemma_successor_valid(n: int, j: int)
    requires
        valid_cells(cells_of(n)),
        0 <= j < successors(n).len(),
    ensures
        valid_cells(cells_of(successors(n)[j])),
        number_of(cells_of(successors(n)[j])) == successors(n)[j],
        0 <= successors(n)[j] < STATE_LIMIT,
{
    let s = cells_of(n);
    lemma_children_valid(s, player_for(s));
    let c = children(s, player_for(s))[j];
    lemma_cells_of_number(c);
}

/// The start is reached, and so is every successor of a reached state where
/// play goes on.
pub proof fn lemma_reachable_step(start: int, n: int, j: int)
    requires
        reachable_from(start, n),
        expands(n),
        0 <= j < successors(n).len(),
    ensures
        reachable_from(start, successors(n)[j]),
        reachable_from(start, start),
{
    assert(reach_within(start, 0).contains(start));
    let k = choose|k: nat| #[trigger] reach_within(start, k).contains(n);
    let prev = reach_within(start, k);
    assert(follows(prev, successors(n)[j]));
    assert(reach_within(start, k + 1).contains(successors(n)[j]));
}

/// Order independence of the search: any set of states that holds the start,
/// holds only states reached from it and is closed under moves is exactly the
/// set reached from the start. However the work was split and in whatever
/// order the states were expanded, a search that stops with every discovered
/// state expanded has found the same set.
pub proof fn lemma_closed_search_is_complete(start: int, s: Set<int>)
    requires
        s.contains(start),
        forall|m: int| #[trigger] s.contains(m) ==> reachable_from(start, m),
        closed(s),
    ensures
        s == reachable_set_from(start),
{
    assert forall|m: int| reachable_from(start, m) implies #[trigger] s.contains(m) by {
        let k = choose|k: nat| #[trigger] reach_within(start, k).contains(m);
        lemma_reach_within_in_closed(start, s, k, m);
    }
    assert(s =~= reachable_set_from(start));
}

proof fn lemma_reach_within_in_closed(start: int, s: Set<int>, k: nat, m: int)
    requires
        s.contains(start),
        closed(s),
        reach_within(start, k).contains(m),
    ensures
        s.contains(m),
    decreases k,
{
    if k > 0 {
        let prev = reach_within(start, (k - 1) as nat);
        if prev.contains(m) {
            lemma_reach_within_in_closed(start, s, (k - 1) as nat, m);
        } else {
            let (n, j) = choose|n: int, j: int|
                #![trigger prev.contains(n), successors(n)[j]]
                prev.contains(n) && expands(n) && 0 <= j < successors(n).len()
                    && successors(n)[j] == m;
            lemma_reach_within_in_closed(start, s, (k - 1) as nat, n);
        }
    }
}

/// A set of state numbers below the limit has at most that many members.
proof fn lemma_state_set_size(s: Set<u64>)
    requires
        s.finite(),
        forall|x: u64| #[trigger] s.contains(x) ==> x < STATE_LIMIT,
    ensures
        s.len() <= STATE_LIMIT,
{
    let f = |x: u64| x as int;
    let t = s.map(f);
    lemma_map_size(s, t, f);
    lemma_int_range(0, STATE_LIMIT as int);
    assert(t.subset_of(set_int_range(0, STATE_LIMIT as int)));
    lemma_len_subset(t, set_int_range(0, STATE_LIMIT as int));
}

/// Every state reachable from state `start`, each once, in the order in
/// which the breadth-first search discovered them; an error when `start` is
/// no state number.
pub fn generate_unique_from(start: u64) -> (r: Result<Vec<u64>, CodecError>)
    ensures
        r is Err <==> start >= STATE_LIMIT,
        r matches Ok(v) ==> v@.no_duplicates(),
        r matches Ok(v) ==> forall|m: u64| #[trigger] v@.contains(m) <==> reachable_from(start as int, m as int),
{
    if start >= STATE_LIMIT {
        return Err(CodecError::OutOfRange);
    }
    let mut seen: HashSet<u64> = HashSet::new();
    let mut order: Vec<u64> = Vec::new();
    let mut queue = new_queue();
    seen.insert(start);
    order.push(start);
    push_back(&mut queue, start);
    proof {
        assert(reach_within(start as int, 0).contains(start as int));
        assert(order@ == seq![start]);
        assert forall|m: u64| seen@.contains(m) <==> order@.contains(m) by {
            if m == start {
                assert(order@[0] == start);
            }
        }
    }
    loop
        invariant
            seen@.finite(),
            seen@.contains(start),
            start < STATE_LIMIT,
            forall|m: u64| #[trigger] seen@.contains(m) <==> order@.contains(m),
            order@.no_duplicates(),
            forall|m: u64| #[trigger] seen@.contains(m) ==> reachable_from(start as int, m as int),
            forall|i: int|
                0 <= i < queued(queue).len() ==> seen@.contains(#[trigger] queued(queue)[i]),
            forall|n: u64, j: int|
                #![trigger seen@.contains(n), successors(n as int)[j]]
                seen@.contains(n) && !queued(queue).contains(n) && expands(n as int) && 0 <= j
                    < successors(n as int).len() ==> seen@.contains(successors(n as int)[j] as u64),
        ensures
            queued(queue).len() == 0,
        decreases 2 * (STATE_LIMIT - seen@.len()) + queued(queue).len(),
    {
        proof {
            lemma_seen_size(start as int, seen@);
        }
        let ghost q0 = queued(queue);
        let ghost seen0 = seen@;
        let popped = pop_front(&mut queue);
        let n = match popped {
            None => break,
            Some(n) => n,
        };
        let ghost q1 = queued(queue);
        proof {
            assert(q0[0] == n);
            assert(seen@.contains(n));
            lemma_reachable_from_valid(start as int, n as int);
        }
        if let Ok(game) = number_to_board(n) {
            if !is_terminal(&game) {
                let nexts = get_all_next_numbers(game);
                proof {
                    assert(nexts@.len() == successors(n as int).len());
                }
                let mut j: usize = 0;
                while j < nexts.len()
                    invariant
                        j <= nexts@.len(),
                        nexts@.len() == successors(n as int).len(),
                        forall|i: int|
                            0 <= i < nexts@.len() ==> #[trigger] nexts@[i] as int == successors(
                                n as int,
                            )[i],
                        reachable_from(start as int, n as int),
                        expands(n as int),
                        seen0.subset_of(seen@),
                        seen@.finite(),
                        seen@.contains(start),
            start < STATE_LIMIT,
                        seen@.contains(n),
                        forall|m: u64| #[trigger] seen@.contains(m) <==> order@.contains(m),
                        order@.no_duplicates(),
                        forall|m: u64| #[trigger] seen@.contains(m) ==> reachable_from(start as int, m as int),
                        forall|i: int|
                            0 <= i < queued(queue).len() ==> seen@.contains(
                                #[trigger] queued(queue)[i],
                            ),
                        q1.len() + seen@.len() == queued(queue).len() + seen0.len(),
                        queued(queue).len() >= q1.len(),
                        forall|i: int| 0 <= i < q1.len() ==> queued(queue)[i] == #[trigger] q1[i],
                        forall|i: int| 0 <= i < j ==> seen@.contains(#[trigger] nexts@[i]),
                        forall|x: u64|
                            #[trigger] seen@.contains(x) && !seen0.contains(x) ==> queued(
                                queue,
                            ).contains(x),
                    decreases nexts@.len() - j,
                {
                    let m = nexts[j];
                    if !seen.contains(&m) {
                        proof {
                            lemma_reachable_step(start as int, n as int, j as int);
                        }
                        let ghost qb = queued(queue);
                        let ghost ob = order@;
                        seen.insert(m);
                        order.push(m);
                        push_back(&mut queue, m);
                        proof {
                            assert forall|x: u64| #[trigger] seen@.contains(x) <==> order@.contains(
                                x,
                            ) by {
                                assert(order@ == ob.push(m));
                                if x == m {
                                    assert(order@[order@.len() - 1] == m);
                                } else if ob.contains(x) {
                                    let i = choose|i: int| 0 <= i < ob.len() && ob[i] == x;
                                    assert(order@[i] == x);
                                } else if order@.contains(x) {
                                    let i = choose|i: int| 0 <= i < order@.len() && order@[i] == x;
                                    assert(i < ob.len());
                                    assert(ob[i] == x);
                                }
                            }
                            assert forall|i: int|
                                0 <= i < queued(queue).len() implies seen@.contains(
                                #[trigger] queued(queue)[i],
                            ) by {
                                if i < qb.len() {
                                    assert(queued(queue)[i] == qb[i]);
                                }
                            }
                            assert forall|i: int| 0 <= i < q1.len() implies queued(queue)[i]
                                == #[trigger] q1[i] by {
                                assert(queued(queue)[i] == qb[i]);
                            }
                            assert(queued(queue)[queued(queue).len() - 1] == m);
                            assert forall|x: u64|
                                #[trigger] seen@.contains(x) && !seen0.contains(x) implies queued(
                                queue,
                            ).contains(x) by {
                                if x == m {
                                    assert(queued(queue)[queued(queue).len() - 1] == m);
                                } else {
                                    let i = choose|i: int| 0 <= i < qb.len() && qb[i] == x;
                                    assert(queued(queue)[i] == x);
                                }
                            }
                        }
                    }
                    j = j + 1;
                }
                proof {
                    assert forall|jj: int| 0 <= jj < successors(n as int).len() implies seen@.contains(
                        #[trigger] successors(n as int)[jj] as u64,
                    ) by {
                        assert(seen@.contains(nexts@[jj]));
                    }
                }
            }
        }
        proof {
            lemma_seen_size(start as int, seen@);
            assert forall|x: u64, jj: int|
                #![trigger seen@.contains(x), successors(x as int)[jj]]
                seen@.contains(x) && !queued(queue).contains(x) && expands(x as int) && 0 <= jj
                    < successors(x as int).len() implies seen@.contains(
                successors(x as int)[jj] as u64,
            ) by {
                if x != n {
                    assert(seen0.contains(x));
                    if q0.contains(x) {
                        let i = choose|i: int| 0 <= i < q0.len() && q0[i] == x;
                        assert(i != 0);
                        assert(q1[i - 1] == x);
                        assert(queued(queue)[i - 1] == x);
                    }
                    assert(seen0.contains(successors(x as int)[jj] as u64));
                }
            }
        }
    }
    proof {
        let s_int = seen@.map(|x: u64| x as int);
        assert(s_int.contains(start as int));
        assert forall|m: int| #[trigger] s_int.contains(m) implies reachable_from(start as int, m) by {
            let x = choose|x: u64| seen@.contains(x) && x as int == m;
        }
        assert forall|n: int, jj: int|
            #![trigger s_int.contains(n), successors(n)[jj]]
            s_int.contains(n) && expands(n) && 0 <= jj < successors(n).len() implies s_int.contains(
            successors(n)[jj],
        ) by {
            let x = choose|x: u64| seen@.contains(x) && x as int == n;
            assert(!queued(queue).contains(x));
            lemma_reachable_from_valid(start as int, n);
            lemma_successor_valid(n, jj);
            let y = successors(n)[jj] as u64;
            assert(seen@.contains(y));
            assert(y as int == successors(n)[jj]);
        }
        lemma_closed_search_is_complete(start as int, s_int);
        assert forall|m: u64| #[trigger] order@.contains(m) <==> reachable_from(start as int, m as int) by {
            assert(seen@.contains(m) <==> order@.contains(m));
            if reachable_from(start as int, m as int) {
                assert(reachable_set_from(start as int).contains(m as int));
                assert(s_int.contains(m as int));
                let x = choose|x: u64| seen@.contains(x) && x as int == m as int;
                assert(x == m);
            }
        }
    }
    Ok(order)
}

/// Every state reachable from the empty board, each once, in the order in
/// which the breadth-first search discovered them.
pub fn generate_unique() -> (r: Vec<u64>)
    ensures
        r@.no_duplicates(),
        forall|m: u64| #[trigger] r@.contains(m) <==> reachable(m as int),
{
    match generate_unique_from(0) {
        Ok(v) => v,
        Err(_) => Vec::new(),
    }
}

/// A set of discovered states is no larger than the number of states.
proof fn lemma_seen_size(start: int, s: Set<u64>)
    requires
        0 <= start < STATE_LIMIT,
        s.finite(),
        forall|m: u64| #[trigger] s.contains(m) ==> reachable_from(start, m as int),
    ensures
        s.len() <= STATE_LIMIT,
{
    assert forall|x: u64| #[trigger] s.contains(x) implies x < STATE_LIMIT by {
        lemma_reachable_from_valid(start, x as int);
    }
    lemma_state_set_size(s);
}

} // verus!
