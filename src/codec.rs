//! Conversion between boards and state numbers.
//!
//! A board holds 27 cells, the cell at column `(x, y)` and height `z` standing
//! at flat index `x + 3 * y + 9 * z`. A cell is `0` (empty), `1` (first
//! player) or `2` (second player). The state number of a board is the sum of
//! `cell * 3^index` over all cells.

use vstd::arithmetic::div_mod::lemma_div_denominator;
use vstd::prelude::*;

verus! {

/// One more than the largest state number: `3^27`.
pub const STATE_LIMIT: u64 = 7625597484987;

/// The cells of a board, in flat-index order.
#[derive(Clone, Copy, Debug, PartialEq, Eq, Hash)]
pub struct Board {
    pub data: [i8; 27],
}

/// A board with the player to move (`1` or `2`).
#[derive(Clone, Copy, Debug, PartialEq, Eq, Hash)]
pub struct Game {
    pub board: Board,
    pub player: i8,
}

/// Why a number cannot be read as a state.
#[derive(Clone, Copy, Debug, PartialEq, Eq)]
pub enum CodecError {
    /// The number is at least `3^27`: it has a digit beyond the last cell.
    OutOfRange,
}

pub open spec fn pow3(i: nat) -> nat
    decreases i,
{
    if i == 0 {
        1
    } else {
        3 * pow3((i - 1) as nat)
    }
}

/// Flat index of the cell at column `(x, y)` and height `z`.
pub open spec fn flat_index(x: int, y: int, z: int) -> int {
    x + 3 * y + 9 * z
}

/// Every cell holds one of the three cell values.
pub open spec fn valid_cells(s: Seq<i8>) -> bool {
    &&& s.len() == 27
    &&& forall|i: int| 0 <= i < s.len() ==> 0 <= #[trigger] s[i] <= 2
}

/// The number whose base-3 digits, least significant first, are `s`.
pub open spec fn number_of(s: Seq<i8>) -> int
    decreases s.len(),
{
    if s.len() == 0 {
        0
    } else {
        s[0] + 3 * number_of(s.drop_first())
    }
}

/// Digit `i` of `n` in base 3.
pub open spec fn digit(n: int, i: nat) -> int {
    (n / (pow3(i) as int)) % 3
}

/// The 27 cells whose values are the low 27 base-3 digits of `n`.
pub open spec fn cells_of(n: int) -> Seq<i8> {
    Seq::new(27, |i: int| digit(n, i as nat) as i8)
}

/// Number of occupied cells.
pub open spec fn pieces(s: Seq<i8>) -> nat
    decreases s.len(),
{
    if s.len() == 0 {
        0
    } else {
        pieces(s.drop_last()) + if s.last() != 0 {
            1nat
        } else {
            0nat
        }
    }
}

/// The player to move: `1` after an even number of moves, `2` after an odd one.
pub open spec fn player_for(s: Seq<i8>) -> i8 {
    if pieces(s) % 2 == 0 {
        1
    } else {
        2
    }
}

impl Board {
    pub open spec fn wf(&self) -> bool {
        valid_cells(self.data@)
    }

    pub open spec fn cells(&self) -> Seq<i8> {
        self.data@
    }
}

impl Game {
    pub open spec fn wf(&self) -> bool {
        &&& self.board.wf()
        &&& self.player == 1 || self.player == 2
    }
}

/// `3^27` is the state-number limit.
pub proof fn lemma_pow3_27()
    ensures
        pow3(27) == STATE_LIMIT,
{
    reveal_with_fuel(pow3, 28);
}

pub proof fn lemma_pow3_positive(i: nat)
    ensures
        pow3(i) >= 1,
    decreases i,
{
    if i > 0 {
        lemma_pow3_positive((i - 1) as nat);
    }
}

/// A board value is below `3^len`.
pub proof fn lemma_number_bounds(s: Seq<i8>)
    requires
        forall|i: int| 0 <= i < s.len() ==> 0 <= #[trigger] s[i] <= 2,
    ensures
        0 <= number_of(s) < pow3(s.len()),
    decreases s.len(),
{
    if s.len() > 0 {
        let t = s.drop_first();
        assert forall|i: int| 0 <= i < t.len() implies 0 <= #[trigger] t[i] <= 2 by {
            assert(t[i] == s[i + 1]);
        }
        lemma_number_bounds(t);
    }
}

/// Digit `i` of a board's number is the value of cell `i`.
pub proof fn lemma_digit_of_number(s: Seq<i8>, i: nat)
    requires
        forall|j: int| 0 <= j < s.len() ==> 0 <= #[trigger] s[j] <= 2,
        i < s.len(),
    ensures
        digit(number_of(s), i) == s[i as int],
    decreases i,
{
    let t = s.drop_first();
    assert forall|j: int| 0 <= j < t.len() implies 0 <= #[trigger] t[j] <= 2 by {
        assert(t[j] == s[j + 1]);
    }
    lemma_number_bounds(t);
    let n = number_of(s);
    assert(n == s[0] + 3 * number_of(t));
    if i == 0 {
        assert(n / 1 == n);
        assert((s[0] + 3 * number_of(t)) % 3 == s[0]) by (nonlinear_arith)
            requires
                0 <= s[0] <= 2,
                number_of(t) >= 0,
        ;
    } else {
        lemma_digit_of_number(t, (i - 1) as nat);
        lemma_pow3_positive((i - 1) as nat);
        assert(n / 3 == number_of(t)) by (nonlinear_arith)
            requires
                n == s[0] + 3 * number_of(t),
                0 <= s[0] <= 2,
        ;
        lemma_div_denominator(n, 3, pow3((i - 1) as nat) as int);
        assert(t[i - 1] == s[i as int]);
    }
}

/// Decoding the number of a board gives back the board.
pub proof fn lemma_cells_of_number(s: Seq<i8>)
    requires
        valid_cells(s),
    ensures
        cells_of(number_of(s)) == s,
        0 <= number_of(s) < STATE_LIMIT,
{
    assert forall|i: int| 0 <= i < 27 implies #[trigger] cells_of(number_of(s))[i] == s[i] by {
        lemma_digit_of_number(s, i as nat);
    }
    assert(cells_of(number_of(s)) =~= s);
    lemma_number_bounds(s);
    lemma_pow3_27();
}

/// The empty board.
pub fn make_new_board() -> (r: Board)
    ensures
        r.wf(),
        forall|i: int| 0 <= i < 27 ==> r.data@[i] == 0,
{
    Board { data: [0i8; 27] }
}

/// The state number of a board.
pub fn board_to_number(g: &Board) -> (r: u64)
    requires
        g.wf(),
    ensures
        r == number_of(g.data@),
        r < STATE_LIMIT,
{
    let ghost s = g.data@;
    let mut output: u64 = 0;
    let mut i: usize = 27;
    proof {
        assert(s.subrange(27, 27) =~= Seq::<i8>::empty());
    }
    while i > 0
        invariant
            i <= 27,
            s == g.data@,
            valid_cells(s),
            output == number_of(s.subrange(i as int, 27)),
            output < pow3((27 - i) as nat),
        decreases i,
    {
        i = i - 1;
        let v = g.data[i];
        proof {
            let t = s.subrange(i as int, 27);
            assert(t.drop_first() =~= s.subrange(i + 1, 27));
            assert(t[0] == v);
            assert(pow3((27 - i) as nat) == 3 * pow3((27 - i - 1) as nat));
            lemma_pow3_27();
            lemma_pow3_monotone((27 - i) as nat, 27);
        }
        output = output * 3 + v as u64;
    }
    proof {
        assert(s.subrange(0, 27) =~= s);
        lemma_pow3_27();
    }
    output
}

pub proof fn lemma_pow3_monotone(a: nat, b: nat)
    requires
        a <= b,
    ensures
        pow3(a) <= pow3(b),
    decreases b,
{
    if a < b {
        lemma_pow3_monotone(a, (b - 1) as nat);
    }
}

/// The state number of a position; the player is not part of it.
pub fn game_to_number(g: Game) -> (r: u64)
    requires
        g.board.wf(),
    ensures
        r == number_of(g.board.data@),
{
    board_to_number(&g.board)
}

/// Number of occupied cells of a board.
pub fn count_pieces(b: &Board) -> (r: u8)
    ensures
        r == pieces(b.data@),
        r <= 27,
{
    let ghost s = b.data@;
    let mut count: u8 = 0;
    let mut i: usize = 0;
    while i < 27
        invariant
            i <= 27,
            s == b.data@,
            count == pieces(s.take(i as int)),
            count <= i,
        decreases 27 - i,
    {
        proof {
            assert(s.take(i + 1).drop_last() =~= s.take(i as int));
        }
        if b.data[i] != 0 {
            count = count + 1;
        }
        i = i + 1;
    }
    proof {
        assert(s.take(27) =~= s);
    }
    count
}

/// Reads a state number back into a position; the player to move follows from
/// the number of pieces.
pub fn number_to_board(num: u64) -> (r: Result<Game, CodecError>)
    ensures
        r is Err <==> num >= STATE_LIMIT,
        r matches Ok(g) ==> {
            &&& g.wf()
            &&& g.board.data@ == cells_of(num as int)
            &&& g.player == player_for(g.board.data@)
        },
{
    if num >= STATE_LIMIT {
        return Err(CodecError::OutOfRange);
    }
    let mut board = make_new_board();
    let mut rest: u64 = num;
    let mut power: usize = 0;
    proof {
        assert(pow3(0) == 1);
        assert(num as int / 1 == num as int);
    }
    while power < 27
        invariant
            power <= 27,
            rest as int == num as int / (pow3(power as nat) as int),
            forall|j: int| 0 <= j < power ==> board.data@[j] == digit(num as int, j as nat),
            forall|j: int| 0 <= j < 27 ==> 0 <= #[trigger] board.data@[j] <= 2,
        decreases 27 - power,
    {
        let value = (rest % 3) as i8;
        board.data[power] = value;
        proof {
            lemma_pow3_positive(power as nat);
            lemma_div_denominator(num as int, pow3(power as nat) as int, 3);
            assert(pow3((power + 1) as nat) == pow3(power as nat) * 3);
        }
        rest = rest / 3;
        power = power + 1;
    }
    proof {
        assert(board.data@ =~= cells_of(num as int));
    }
    let pieces_count = count_pieces(&board);
    let player: i8 = (pieces_count % 2) as i8 + 1;
    Ok(Game { board, player })
}

/// Decoding a state number and encoding the cells gives back the number.
pub proof fn lemma_decode_encode(n: int)
    requires
        0 <= n < STATE_LIMIT,
    ensures
        valid_cells(cells_of(n)),
        number_of(cells_of(n)) == n,
{
    lemma_number_of_digits(n, 27);
    lemma_pow3_27();
    vstd::arithmetic::div_mod::lemma_small_mod(n as nat, pow3(27));
    assert(cells_of(n) =~= digits(n, 27));
}

/// The first `k` base-3 digits of `n`.
pub open spec fn digits(n: int, k: nat) -> Seq<i8> {
    Seq::new(k, |i: int| digit(n, i as nat) as i8)
}

proof fn lemma_number_of_digits(n: int, k: nat)
    requires
        0 <= n,
    ensures
        number_of(digits(n, k)) == n % (pow3(k) as int),
    decreases k,
{
    if k > 0 {
        let d = digits(n, k);
        lemma_number_of_digits(n / 3, (k - 1) as nat);
        assert forall|i: int| 0 <= i < k - 1 implies #[trigger] d.drop_first()[i] == digits(
            n / 3,
            (k - 1) as nat,
        )[i] by {
            lemma_pow3_positive(i as nat);
            lemma_div_denominator(n, 3, pow3(i as nat) as int);
            assert(pow3((i + 1) as nat) == 3 * pow3(i as nat));
        }
        assert(d.drop_first() =~= digits(n / 3, (k - 1) as nat));
        assert(d[0] == n % 3) by {
            assert(n / 1 == n);
        }
        lemma_pow3_positive((k - 1) as nat);
        vstd::arithmetic::div_mod::lemma_breakdown(n, 3, pow3((k - 1) as nat) as int);
    }
}

/// Round trip: reading back the number of a board gives the same board, with
/// the player to move fixed by the parity of the number of pieces.
pub proof fn lemma_round_trip(b: Board)
    requires
        b.wf(),
    ensures
        number_of(b.data@) < STATE_LIMIT,
        cells_of(number_of(b.data@)) == b.data@,
        player_for(cells_of(number_of(b.data@))) == if pieces(b.data@) % 2 == 0 {
            1i8
        } else {
            2i8
        },
{
    lemma_cells_of_number(b.data@);
}

} // verus!
