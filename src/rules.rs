//! Rules of the game: dropping pieces, lines of three, terminal positions and
//! successor positions.

use crate::codec::{board_to_number, flat_index, number_of, pieces, valid_cells, Board, Game};
use vstd::prelude::*;

verus! {

/// Whether `(x, y, z)` is a cell of the grid.
pub open spec fn in_grid(x: int, y: int, z: int) -> bool {
    0 <= x < 3 && 0 <= y < 3 && 0 <= z < 3
}

/// The `left` cells from `(x, y, z)` along `(dx, dy, dz)` are in the grid and
/// all hold `target`.
pub open spec fn run(
    s: Seq<i8>,
    x: int,
    y: int,
    z: int,
    dx: int,
    dy: int,
    dz: int,
    left: nat,
    target: i8,
) -> bool
    decreases left,
{
    if left == 0 {
        true
    } else {
        &&& in_grid(x, y, z)
        &&& s[flat_index(x, y, z)] == target
        &&& run(s, x + dx, y + dy, z + dz, dx, dy, dz, (left - 1) as nat, target)
    }
}

/// A direction of a line: each step in `-1..=1`, not all zero.
pub open spec fn is_direction(dx: int, dy: int, dz: int) -> bool {
    &&& -1 <= dx <= 1
    &&& -1 <= dy <= 1
    &&& -1 <= dz <= 1
    &&& !(dx == 0 && dy == 0 && dz == 0)
}

/// The three cells from `(x, y, z)` along a direction form a line of the grid
/// filled with value `v`.
pub open spec fn won_from(
    s: Seq<i8>,
    x: int,
    y: int,
    z: int,
    dx: int,
    dy: int,
    dz: int,
    v: i8,
) -> bool {
    is_direction(dx, dy, dz) && run(s, x, y, z, dx, dy, dz, 3, v)
}

/// Some straight line of three cells of the grid is filled with value `v`.
pub open spec fn has_line(s: Seq<i8>, v: i8) -> bool {
    exists|x: int, y: int, z: int, dx: int, dy: int, dz: int| #[trigger]
        won_from(s, x, y, z, dx, dy, dz, v)
}

/// Some line of three is held by one player.
pub open spec fn line_won(s: Seq<i8>) -> bool {
    has_line(s, 1) || has_line(s, 2)
}

/// No cell is empty.
pub open spec fn full(s: Seq<i8>) -> bool {
    forall|i: int| 0 <= i < 27 ==> #[trigger] s[i] != 0
}

/// The game is over: a line of three, or a full board.
pub open spec fn terminal(s: Seq<i8>) -> bool {
    line_won(s) || full(s)
}

/// Outcome of a finished game: the holder of a line (first player's line
/// first), else a draw (`0`).
pub open spec fn winner_of(s: Seq<i8>) -> i8 {
    if has_line(s, 1) {
        1
    } else if has_line(s, 2) {
        2
    } else {
        0
    }
}

/// Height of the lowest empty cell of column `(x, y)`, or `3` when the column
/// is full.
pub open spec fn top(s: Seq<i8>, x: int, y: int) -> int {
    if s[flat_index(x, y, 0)] == 0 {
        0
    } else if s[flat_index(x, y, 1)] == 0 {
        1
    } else if s[flat_index(x, y, 2)] == 0 {
        2
    } else {
        3
    }
}

/// Column number `c` in `0..9` stands for column `(c / 3, c % 3)`.
pub open spec fn column_x(c: int) -> int {
    c / 3
}

pub open spec fn column_y(c: int) -> int {
    c % 3
}

/// Flat indices of the cells that a piece dropped into the first `k` columns
/// would take, skipping full columns, in column order.
pub open spec fn drop_cells_upto(s: Seq<i8>, k: nat) -> Seq<int>
    decreases k,
{
    if k == 0 {
        Seq::empty()
    } else {
        let prev = drop_cells_upto(s, (k - 1) as nat);
        let c = k - 1;
        let h = top(s, column_x(c), column_y(c));
        if h < 3 {
            prev.push(flat_index(column_x(c), column_y(c), h))
        } else {
            prev
        }
    }
}

/// Each listed cell is an empty cell of the grid, in a column below `k`.
pub proof fn lemma_drop_cells_upto(s: Seq<i8>, k: nat)
    requires
        s.len() == 27,
        k <= 9,
    ensures
        drop_cells_upto(s, k).len() <= k,
        forall|j: int|
            0 <= j < drop_cells_upto(s, k).len() ==> {
                let i = #[trigger] drop_cells_upto(s, k)[j];
                &&& 0 <= i < 27
                &&& s[i] == 0
            },
    decreases k,
{
    if k > 0 {
        lemma_drop_cells_upto(s, (k - 1) as nat);
    }
}

/// The cells a move can fill, one for each column that is not full.
pub open spec fn drop_cells(s: Seq<i8>) -> Seq<int> {
    drop_cells_upto(s, 9)
}

/// The positions after each legal move of player `p`, in column order.
pub open spec fn children(s: Seq<i8>, p: i8) -> Seq<Seq<i8>> {
    drop_cells(s).map_values(|i: int| s.update(i, p))
}

/// The other player.
pub fn switch_player(player: i8) -> (r: i8)
    ensures
        r == if player == 1 {
            2i8
        } else {
            1i8
        },
{
    if player == 1 {
        2
    } else {
        1
    }
}

/// Height of the lowest empty cell of column `(x, y)`, if the column is not full.
pub fn get_top(g: Board, x: usize, y: usize) -> (r: Option<usize>)
    requires
        x < 3,
        y < 3,
    ensures
        r == if top(g.data@, x as int, y as int) < 3 {
            Some(top(g.data@, x as int, y as int) as usize)
        } else {
            None
        },
{
    let mut i: usize = 0;
    while i < 3
        invariant
            x < 3,
            y < 3,
            i <= 3,
            forall|j: int| 0 <= j < i ==> g.data@[flat_index(x as int, y as int, j)] != 0,
        decreases 3 - i,
    {
        if g.data[x + 3 * y + 9 * i] == 0 {
            return Some(i);
        }
        i = i + 1;
    }
    None
}

/// Drops a piece of `player` into column `(x, y)`; returns the height it comes
/// to rest at, or `None` (board unchanged) when the column is full.
pub fn place_new_piece(g: &mut Board, x: usize, y: usize, player: i8) -> (r: Option<usize>)
    requires
        x < 3,
        y < 3,
    ensures
        r == if top(old(g).data@, x as int, y as int) < 3 {
            Some(top(old(g).data@, x as int, y as int) as usize)
        } else {
            None
        },
        r matches Some(z) ==> final(g).data@ == old(g).data@.update(
            flat_index(x as int, y as int, z as int),
            player,
        ),
        r is None ==> *final(g) == *old(g),
{
    let z: Option<usize> = get_top(*g, x, y);
    if let Some(h) = z {
        g.data[x + 3 * y + 9 * h] = player;
    }
    z
}

/// All positions reachable by one move of `player`, in column order.
pub fn get_all_next_states(g: Board, player: i8) -> (r: Vec<Board>)
    ensures
        r@.len() == drop_cells(g.data@).len(),
        forall|j: int|
            0 <= j < r@.len() ==> #[trigger] r@[j].data@ == children(g.data@, player)[j],
{
    let ghost s = g.data@;
    proof {
        assert(g.data@.len() == 27);
    }
    let mut output: Vec<Board> = Vec::new();
    let mut c: usize = 0;
    while c < 9
        invariant
            c <= 9,
            s == g.data@,
            s.len() == 27,
            output@.len() == drop_cells_upto(s, c as nat).len(),
            forall|j: int|
                0 <= j < output@.len() ==> #[trigger] output@[j].data@ == s.update(
                    drop_cells_upto(s, c as nat)[j],
                    player,
                ),
        decreases 9 - c,
    {
        let x = c / 3;
        let y = c % 3;
        let mut new_board = g;
        let worked = place_new_piece(&mut new_board, x, y, player);
        proof {
            lemma_drop_cells_upto(s, c as nat);
            lemma_drop_cells_upto(s, (c + 1) as nat);
            let prev = drop_cells_upto(s, c as nat);
            assert(drop_cells_upto(s, (c + 1) as nat) == {
                let h = top(s, column_x(c as int), column_y(c as int));
                if h < 3 {
                    prev.push(flat_index(column_x(c as int), column_y(c as int), h))
                } else {
                    prev
                }
            });
        }
        let ghost old_output = output@;
        if worked.is_some() {
            output.push(new_board);
            proof {
                let h = top(s, column_x(c as int), column_y(c as int));
                assert(x as int == column_x(c as int));
                assert(y as int == column_y(c as int));
                assert(h < 3);
                assert(new_board.data@ == s.update(flat_index(x as int, y as int, h), player));
                assert(drop_cells_upto(s, (c + 1) as nat) == drop_cells_upto(s, c as nat).push(
                    flat_index(x as int, y as int, h),
                ));
                assert forall|j: int| 0 <= j < output@.len() implies #[trigger] output@[j].data@
                    == s.update(drop_cells_upto(s, (c + 1) as nat)[j], player) by {
                    let prev = drop_cells_upto(s, c as nat);
                    if j < old_output.len() {
                        assert(output@[j] == old_output[j]);
                        assert(old_output[j].data@ == s.update(prev[j], player));
                        assert(drop_cells_upto(s, (c + 1) as nat)[j] == prev[j]);
                    } else {
                        assert(output@[j] == new_board);
                        assert(j == prev.len());
                    }
                }
            }
        }
        c = c + 1;
    }
    output
}

/// Walks `left` cells from `(x, y, z)` along `(dirx, diry, dirz)`: true when
/// they are all in the grid and occupied, and hold the value of the first cell
/// when `left` is 3, or `last` otherwise.
pub fn check_win_direction(
    g: &Game,
    x: i8,
    y: i8,
    z: i8,
    dirx: i8,
    diry: i8,
    dirz: i8,
    left: i8,
    last: i8,
) -> (r: bool)
    requires
        g.board.wf(),
        -1 <= dirx <= 1,
        -1 <= diry <= 1,
        -1 <= dirz <= 1,
        0 <= left <= 3,
    ensures
        r == {
            let s = g.board.data@;
            let first = s[flat_index(x as int, y as int, z as int)];
            &&& left > 0
            &&& in_grid(x as int, y as int, z as int)
            &&& first != 0
            &&& run(
                s,
                x as int,
                y as int,
                z as int,
                dirx as int,
                diry as int,
                dirz as int,
                left as nat,
                if left == 3 {
                    first
                } else {
                    last
                },
            )
        },
    decreases left,
{
    if left == 0 {
        return false;
    }
    if x > 2 || x < 0 || y > 2 || y < 0 || z > 2 || z < 0 {
        return false;
    }
    let value = g.board.data[(x + 3 * y + 9 * z) as usize];
    if value == 0 {
        return false;
    }
    if value == last || left == 3 {
        if left == 1 {
            proof {
                reveal_with_fuel(run, 2);
            }
            return true;
        }
        let target = if left == 3 {
            value
        } else {
            last
        };
        let rest = check_win_direction(
            g,
            x + dirx,
            y + diry,
            z + dirz,
            dirx,
            diry,
            dirz,
            left - 1,
            target,
        );
        proof {
            if left - 1 > 0 {
                reveal_with_fuel(run, 2);
            }
        }
        return rest;
    }
    false
}

/// Whether a line of three cells of value `v` starts at cell `(x, y, z)`.
fn line_from(g: &Game, x: i8, y: i8, z: i8, v: i8) -> (r: bool)
    requires
        g.board.wf(),
        in_grid(x as int, y as int, z as int),
        v != 0,
    ensures
        r == exists|dx: int, dy: int, dz: int| #[trigger]
            won_from(g.board.data@, x as int, y as int, z as int, dx, dy, dz, v),
{
    let ghost s = g.board.data@;
    let ghost (xi, yi, zi) = (x as int, y as int, z as int);
    if g.board.data[(x + 3 * y + 9 * z) as usize] != v {
        proof {
            assert forall|dx: int, dy: int, dz: int| !#[trigger] won_from(s, xi, yi, zi, dx, dy, dz, v) by {
            }
        }
        return false;
    }
    let mut dx: i8 = -1;
    while dx <= 1
        invariant
            g.board.wf(),
            s == g.board.data@,
            in_grid(xi, yi, zi),
            x == xi && y == yi && z == zi,
            s[flat_index(xi, yi, zi)] == v,
            v != 0,
            -1 <= dx <= 2,
            forall|a: int, b: int, c: int|
                a < dx ==> !#[trigger] won_from(s, xi, yi, zi, a, b, c, v),
        decreases 2 - dx,
    {
        let mut dy: i8 = -1;
        while dy <= 1
            invariant
                g.board.wf(),
                s == g.board.data@,
                in_grid(xi, yi, zi),
                x == xi && y == yi && z == zi,
                s[flat_index(xi, yi, zi)] == v,
                v != 0,
                -1 <= dx <= 1,
                -1 <= dy <= 2,
                forall|a: int, b: int, c: int|
                    a < dx ==> !#[trigger] won_from(s, xi, yi, zi, a, b, c, v),
                forall|b: int, c: int|
                    b < dy ==> !#[trigger] won_from(s, xi, yi, zi, dx as int, b, c, v),
            decreases 2 - dy,
        {
            let mut dz: i8 = -1;
            while dz <= 1
                invariant
                    g.board.wf(),
                    s == g.board.data@,
                    in_grid(xi, yi, zi),
                    x == xi && y == yi && z == zi,
                    s[flat_index(xi, yi, zi)] == v,
                    v != 0,
                    -1 <= dx <= 1,
                    -1 <= dy <= 1,
                    -1 <= dz <= 2,
                    forall|a: int, b: int, c: int|
                        a < dx ==> !#[trigger] won_from(s, xi, yi, zi, a, b, c, v),
                    forall|b: int, c: int|
                        b < dy ==> !#[trigger] won_from(s, xi, yi, zi, dx as int, b, c, v),
                    forall|c: int|
                        c < dz ==> !#[trigger] won_from(s, xi, yi, zi, dx as int, dy as int, c, v),
                decreases 2 - dz,
            {
                if !(dx == 0 && dy == 0 && dz == 0) && check_win_direction(
                    g,
                    x,
                    y,
                    z,
                    dx,
                    dy,
                    dz,
                    3,
                    v,
                ) {
                    proof {
                        assert(won_from(s, xi, yi, zi, dx as int, dy as int, dz as int, v));
                    }
                    return true;
                }
                dz = dz + 1;
            }
            proof {
                assert forall|c: int| !#[trigger] won_from(s, xi, yi, zi, dx as int, dy as int, c, v) by {
                }
            }
            dy = dy + 1;
        }
        proof {
            assert forall|b: int, c: int| !#[trigger] won_from(s, xi, yi, zi, dx as int, b, c, v) by {
                if b >= dy - 1 {
                    assert(!is_direction(dx as int, b, c) || b < dy);
                }
            }
        }
        dx = dx + 1;
    }
    proof {
        assert forall|a: int, b: int, c: int| !#[trigger] won_from(s, xi, yi, zi, a, b, c, v) by {
            if a >= dx - 1 {
                assert(!is_direction(a, b, c) || a < dx);
            }
        }
    }
    false
}

/// Whether some line of three cells holds value `v`.
pub fn has_line_of(g: &Game, v: i8) -> (r: bool)
    requires
        g.board.wf(),
        v != 0,
    ensures
        r == has_line(g.board.data@, v),
{
    let ghost s = g.board.data@;
    let mut x: i8 = 0;
    while x < 3
        invariant
            g.board.wf(),
            s == g.board.data@,
            v != 0,
            0 <= x <= 3,
            forall|a: int, b: int, c: int, dx: int, dy: int, dz: int|
                a < x ==> !#[trigger] won_from(s, a, b, c, dx, dy, dz, v),
        decreases 3 - x,
    {
        let mut y: i8 = 0;
        while y < 3
            invariant
                g.board.wf(),
                s == g.board.data@,
                v != 0,
                0 <= x < 3,
                0 <= y <= 3,
                forall|a: int, b: int, c: int, dx: int, dy: int, dz: int|
                    a < x ==> !#[trigger] won_from(s, a, b, c, dx, dy, dz, v),
                forall|b: int, c: int, dx: int, dy: int, dz: int|
                    b < y ==> !#[trigger] won_from(s, x as int, b, c, dx, dy, dz, v),
            decreases 3 - y,
        {
            let mut z: i8 = 0;
            while z < 3
                invariant
                    g.board.wf(),
                    s == g.board.data@,
                    v != 0,
                    0 <= x < 3,
                    0 <= y < 3,
                    0 <= z <= 3,
                    forall|a: int, b: int, c: int, dx: int, dy: int, dz: int|
                        a < x ==> !#[trigger] won_from(s, a, b, c, dx, dy, dz, v),
                    forall|b: int, c: int, dx: int, dy: int, dz: int|
                        b < y ==> !#[trigger] won_from(s, x as int, b, c, dx, dy, dz, v),
                    forall|c: int, dx: int, dy: int, dz: int|
                        c < z ==> !#[trigger] won_from(s, x as int, y as int, c, dx, dy, dz, v),
                decreases 3 - z,
            {
                if line_from(g, x, y, z, v) {
                    return true;
                }
                z = z + 1;
            }
            proof {
                assert forall|c: int, dx: int, dy: int, dz: int| !#[trigger] won_from(
                    s,
                    x as int,
                    y as int,
                    c,
                    dx,
                    dy,
                    dz,
                    v,
                ) by {
                    if c >= 3 {
                        assert(!in_grid(x as int, y as int, c));
                    }
                }
            }
            y = y + 1;
        }
        proof {
            assert forall|b: int, c: int, dx: int, dy: int, dz: int| !#[trigger] won_from(
                s,
                x as int,
                b,
                c,
                dx,
                dy,
                dz,
                v,
            ) by {
                if b >= 3 {
                    assert(!in_grid(x as int, b, c));
                }
            }
        }
        x = x + 1;
    }
    proof {
        assert forall|a: int, b: int, c: int, dx: int, dy: int, dz: int| !#[trigger] won_from(
            s,
            a,
            b,
            c,
            dx,
            dy,
            dz,
            v,
        ) by {
            if a >= 3 {
                assert(!in_grid(a, b, c));
            }
        }
    }
    false
}

/// Whether a player holds a line of three.
pub fn is_over(g: &Game) -> (r: bool)
    requires
        g.board.wf(),
    ensures
        r == line_won(g.board.data@),
{
    has_line_of(g, 1) || has_line_of(g, 2)
}

/// Whether the game has ended: a line of three, or no empty cell.
pub fn is_terminal(g: &Game) -> (r: bool)
    requires
        g.board.wf(),
    ensures
        r == terminal(g.board.data@),
{
    is_over(g) || is_full(g)
}

/// Outcome of a finished game: `1` or `2` for the player holding a line (the
/// first player is looked at first), `0` for a draw.
pub fn winner(g: &Game) -> (r: i8)
    requires
        g.board.wf(),
    ensures
        r == winner_of(g.board.data@),
{
    if has_line_of(g, 1) {
        1
    } else if has_line_of(g, 2) {
        2
    } else {
        0
    }
}

/// A move of a player keeps every cell value in range.
pub proof fn lemma_children_valid(s: Seq<i8>, p: i8)
    requires
        valid_cells(s),
        p == 1 || p == 2,
    ensures
        forall|j: int|
            0 <= j < children(s, p).len() ==> valid_cells(#[trigger] children(s, p)[j]),
{
    lemma_drop_cells_upto(s, 9);
    assert forall|j: int| 0 <= j < children(s, p).len() implies valid_cells(
        #[trigger] children(s, p)[j],
    ) by {
        let c = children(s, p)[j];
        assert(c == s.update(drop_cells(s)[j], p));
        assert forall|i: int| 0 <= i < c.len() implies 0 <= #[trigger] c[i] <= 2 by {
        }
    }
}

/// The state numbers of all positions reachable by one move, in column order.
pub fn get_all_next_numbers(g: Game) -> (r: Vec<u64>)
    requires
        g.wf(),
    ensures
        r@.len() == children(g.board.data@, g.player).len(),
        forall|j: int|
            0 <= j < r@.len() ==> #[trigger] r@[j] == number_of(
                children(g.board.data@, g.player)[j],
            ),
{
    let ghost kids = children(g.board.data@, g.player);
    proof {
        lemma_children_valid(g.board.data@, g.player);
    }
    let states = get_all_next_states(g.board, g.player);
    let mut output: Vec<u64> = Vec::new();
    let mut j: usize = 0;
    while j < states.len()
        invariant
            j <= states@.len(),
            states@.len() == kids.len(),
            forall|i: int| 0 <= i < states@.len() ==> #[trigger] states@[i].data@ == kids[i],
            forall|i: int| 0 <= i < kids.len() ==> valid_cells(#[trigger] kids[i]),
            output@.len() == j,
            forall|i: int| 0 <= i < j ==> #[trigger] output@[i] == number_of(kids[i]),
        decreases states@.len() - j,
    {
        assert(states@[j as int].data@ == kids[j as int]);
        let n = board_to_number(&states[j]);
        output.push(n);
        j = j + 1;
    }
    output
}

/// Number of empty cells.
pub fn _get_num_open_spaces(g: &Game) -> (r: i8)
    ensures
        r == 27 - pieces(g.board.data@),
{
    let n = crate::codec::count_pieces(&g.board);
    27 - n as i8
}

/// Whether no cell is empty.
pub fn is_full(g: &Game) -> (r: bool)
    ensures
        r == full(g.board.data@),
{
    let mut i: usize = 0;
    while i < 27
        invariant
            i <= 27,
            forall|j: int| 0 <= j < i ==> #[trigger] g.board.data@[j] != 0,
        decreases 27 - i,
    {
        if g.board.data[i] == 0 {
            return false;
        }
        i = i + 1;
    }
    true
}

} // verus!
