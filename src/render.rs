use vstd::prelude::*;
use vstd::string::StringExecFns;

use crate::schulze::{grid, is_square};

verus! {

/// The decimal digit for `d`, which is below ten.
pub open spec fn digit_char(d: nat) -> char {
    seq!['0', '1', '2', '3', '4', '5', '6', '7', '8', '9'][d as int]
}

/// The decimal digits of `v`, with no leading zero.
pub open spec fn decimal_digits(v: nat) -> Seq<char>
    decreases v,
{
    if v < 10 {
        seq![digit_char(v)]
    } else {
        decimal_digits(v / 10) + seq![digit_char(v % 10)]
    }
}

/// `v` in decimal, with a minus sign when negative, zero-padded after the
/// sign to a width of two.
pub open spec fn padded_decimal(v: i32) -> Seq<char> {
    if v < 0 {
        seq!['-'] + decimal_digits((-v) as nat)
    } else if v < 10 {
        seq!['0'] + decimal_digits(v as nat)
    } else {
        decimal_digits(v as nat)
    }
}

/// Relies on std's `format!("{:01$}", v, 2)`: an `i32` in decimal,
/// zero-padded to a width of two, the padding placed after the sign.
#[verifier::external_body]
fn padded_cell(v: i32) -> (r: String)
    ensures
        r@ == padded_decimal(v),
{
    format!("{:01$}", v, 2)
}

/// The text of one cell: blank for a zero, else its padded digits.
pub open spec fn cell_text(v: i32) -> Seq<char> {
    if v == 0 {
        seq![' ', ' ']
    } else {
        padded_decimal(v)
    }
}

/// The opening bar and the first `c` cells of row `r`, each followed by a space.
pub open spec fn row_prefix(r: Seq<i32>, c: nat) -> Seq<char>
    decreases c,
{
    if c == 0 {
        seq!['|', ' ']
    } else {
        row_prefix(r, (c - 1) as nat) + cell_text(r[c - 1]) + seq![' ']
    }
}

/// The lines of the first `a` rows of `m`, each closed by a bar.
pub open spec fn rows_text(m: Seq<Seq<i32>>, a: nat) -> Seq<char>
    decreases a,
{
    if a == 0 {
        Seq::empty()
    } else {
        rows_text(m, (a - 1) as nat) + row_prefix(m[a - 1], m.len()) + seq!['|', '\n']
    }
}

/// The whole grid of `m`, followed by a blank line.
pub open spec fn rendered(m: Seq<Seq<i32>>) -> Seq<char> {
    rows_text(m, m.len()) + seq!['\n', '\n']
}

/// Renders a square matrix as a grid for reading: one line per row between
/// bars, cells two wide and zero cells left blank.
pub fn render_graph(graph: &Vec<Vec<i32>>) -> (r: String)
    requires
        is_square(grid(graph)),
    ensures
        r@ == rendered(grid(graph)),
{
    let n = graph.len();
    let ghost m = grid(graph);
    let mut out = String::new();
    let mut i: usize = 0;
    while i < n
        invariant
            n == m.len(),
            m == grid(graph),
            is_square(m),
            0 <= i <= n,
            out@ == rows_text(m, i as nat),
        decreases n - i,
    {
        proof {
            reveal_strlit("| ");
        }
        let mut line = String::new();
        line.append("| ");
        assert(m[i as int].len() == n);
        let mut j: usize = 0;
        while j < n
            invariant
                n == m.len(),
                m == grid(graph),
                0 <= i < n,
                0 <= j <= n,
                m[i as int].len() == n,
                line@ == row_prefix(m[i as int], j as nat),
            decreases n - j,
        {
            proof {
                reveal_strlit("  ");
                reveal_strlit(" ");
            }
            let v = graph[i][j];
            if v == 0 {
                line.append("  ");
            } else {
                let text = padded_cell(v);
                line.append(text.as_str());
            }
            line.append(" ");
            j += 1;
        }
        proof {
            reveal_strlit("|\n");
        }
        line.append("|\n");
        out.append(line.as_str());
        i += 1;
    }
    proof {
        reveal_strlit("\n\n");
    }
    out.append("\n\n");
    out
}

} // verus!
