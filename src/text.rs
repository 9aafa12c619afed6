//! Text rendering of a board, one layer after another from the bottom.

use crate::codec::{flat_index, Game};
use vstd::prelude::*;
use vstd::string::StringExecFns;

verus! {

/// The digit of a cell value.
pub open spec fn cell_text(v: i8) -> Seq<char> {
    if v == 0 {
        seq!['0']
    } else if v == 1 {
        seq!['1']
    } else {
        seq!['2']
    }
}

/// Row `x` of layer `z`: the three cells along `y`, separated by spaces.
pub open spec fn row_text(s: Seq<i8>, x: int, z: int) -> Seq<char> {
    cell_text(s[flat_index(x, 0, z)]) + seq![' '] + cell_text(s[flat_index(x, 1, z)]) + seq![' ']
        + cell_text(s[flat_index(x, 2, z)]) + seq!['\n']
}

/// Layer `z`: its three rows, then an empty line.
pub open spec fn layer_text(s: Seq<i8>, z: int) -> Seq<char> {
    row_text(s, 0, z) + row_text(s, 1, z) + row_text(s, 2, z) + seq!['\n']
}

/// The three layers, bottom first.
pub open spec fn board_text(s: Seq<i8>) -> Seq<char> {
    layer_text(s, 0) + layer_text(s, 1) + layer_text(s, 2)
}

fn push_cell(out: &mut String, v: i8)
    ensures
        final(out)@ == old(out)@ + cell_text(v),
{
    if v == 0 {
        proof {
            reveal_strlit("0");
        }
        out.append("0");
    } else if v == 1 {
        proof {
            reveal_strlit("1");
        }
        out.append("1");
    } else {
        proof {
            reveal_strlit("2");
        }
        out.append("2");
    }
}

fn push_row(out: &mut String, g: &Game, x: usize, z: usize)
    requires
        x < 3,
        z < 3,
    ensures
        final(out)@ == old(out)@ + row_text(g.board.data@, x as int, z as int),
{
    proof {
        reveal_strlit(" ");
        reveal_strlit("\n");
    }
    push_cell(out, g.board.data[x + 9 * z]);
    out.append(" ");
    push_cell(out, g.board.data[x + 3 + 9 * z]);
    out.append(" ");
    push_cell(out, g.board.data[x + 6 + 9 * z]);
    out.append("\n");
    proof {
        let s = g.board.data@;
        assert(out@ =~= old(out)@ + row_text(s, x as int, z as int));
    }
}

fn push_layer(out: &mut String, g: &Game, z: usize)
    requires
        z < 3,
    ensures
        final(out)@ == old(out)@ + layer_text(g.board.data@, z as int),
{
    proof {
        reveal_strlit("\n");
    }
    push_row(out, g, 0, z);
    push_row(out, g, 1, z);
    push_row(out, g, 2, z);
    out.append("\n");
    proof {
        assert(out@ =~= old(out)@ + layer_text(g.board.data@, z as int));
    }
}

/// The board as text: for each layer from the bottom, one line per `x` with
/// the cells along `y`, and an empty line after the layer.
pub fn game_to_str(g: Game) -> (r: String)
    ensures
        r@ == board_text(g.board.data@),
{
    proof {
        reveal_strlit("");
    }
    let mut output = String::from_str("");
    push_layer(&mut output, &g, 0);
    push_layer(&mut output, &g, 1);
    push_layer(&mut output, &g, 2);
    proof {
        assert(output@ =~= board_text(g.board.data@));
    }
    output
}

} // verus!
