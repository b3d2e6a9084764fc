//! Rendering a grid for output: one line per row, in the shape
//! `[ d, d, d, d, d, d, d, d, d ]`.

use vstd::prelude::*;

use crate::grid::{idx, Grid};

verus! {

/// The ASCII byte printed for a digit 0 through 9.
pub open spec fn digit_byte(v: u8) -> u8 {
    (48 + v) as u8
}

/// The cells of row `r` up to column `n`, rendered: a space then the digit
/// for the first column, a comma, a space and the digit for every further
/// one.
pub open spec fn row_cells(s: Seq<u8>, r: int, n: int) -> Seq<u8>
    decreases n,
{
    if n <= 0 {
        Seq::empty()
    } else {
        let prev = row_cells(s, r, n - 1);
        if n == 1 {
            prev + seq![32u8, digit_byte(s[idx(r, 0)])]
        } else {
            prev + seq![44u8, 32u8, digit_byte(s[idx(r, n - 1)])]
        }
    }
}

/// One rendered row: the bracketed cells and a newline.
pub open spec fn render_row(s: Seq<u8>, r: int) -> Seq<u8> {
    seq![91u8] + row_cells(s, r, 9) + seq![32u8, 93u8, 10u8]
}

/// The first `n` rendered rows, concatenated.
pub open spec fn render_rows(s: Seq<u8>, n: int) -> Seq<u8>
    decreases n,
{
    if n <= 0 {
        Seq::empty()
    } else {
        render_rows(s, n - 1) + render_row(s, n - 1)
    }
}

/// The full rendering of a grid: nine bracketed rows.
pub open spec fn render_spec(s: Seq<u8>) -> Seq<u8> {
    render_rows(s, 9)
}

/// Renders the grid as the nine output lines, ready for printing.
pub fn render_board(board: &Grid) -> (out: Vec<u8>)
    requires
        board.wf(),
    ensures
        out@ == render_spec(board@),
{
    let mut out: Vec<u8> = Vec::new();
    for r in 0..9usize
        invariant
            board.wf(),
            out@ == render_rows(board@, r as int),
    {
        out.push(91);
        proof {
            assert(out@ =~= render_rows(board@, r as int) + seq![91u8] + row_cells(
                board@,
                r as int,
                0,
            ));
        }
        for c in 0..9usize
            invariant
                board.wf(),
                r < 9,
                out@ == render_rows(board@, r as int) + seq![91u8] + row_cells(
                    board@,
                    r as int,
                    c as int,
                ),
        {
            if c != 0 {
                out.push(44);
            }
            out.push(32);
            out.push(48 + board.get(r, c));
            proof {
                assert(out@ =~= render_rows(board@, r as int) + seq![91u8] + row_cells(
                    board@,
                    r as int,
                    c as int + 1,
                ));
            }
        }
        out.push(32);
        out.push(93);
        out.push(10);
        proof {
            assert(out@ =~= render_rows(board@, r as int + 1));
        }
    }
    out
}

} // verus!
