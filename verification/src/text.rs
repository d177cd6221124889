//! Plain-text rendering of a grid's resolved values, one row per line.
//!
//! Each cell prints as `None ` or `Some(<id>) `, mirroring the debug form of
//! its optional value, with a newline after each row.

use vstd::prelude::*;

use crate::grid::Cell;
use crate::grid::Grid;

verus! {

/// The character a single decimal digit prints as.
pub open spec fn digit_char(d: int) -> char {
    if d == 0 {
        '0'
    } else if d == 1 {
        '1'
    } else if d == 2 {
        '2'
    } else if d == 3 {
        '3'
    } else if d == 4 {
        '4'
    } else if d == 5 {
        '5'
    } else if d == 6 {
        '6'
    } else if d == 7 {
        '7'
    } else if d == 8 {
        '8'
    } else {
        '9'
    }
}

/// The decimal digits of a non-negative number, most significant first.
pub open spec fn decimal_chars(n: int) -> Seq<char>
    decreases n,
{
    if n < 10 {
        seq![digit_char(n)]
    } else {
        decimal_chars(n / 10).push(digit_char(n % 10))
    }
}

/// How one cell prints: its optional resolved value in debug form, then a
/// space.
pub open spec fn cell_text(c: Cell) -> Seq<char> {
    match c.value {
        None => "None "@,
        Some(v) => "Some("@ + decimal_chars(v as int) + ") "@,
    }
}

/// The first `y` cells of row `x`, printed left to right.
pub open spec fn row_prefix(g: Grid, x: int, y: int) -> Seq<char>
    decreases y,
{
    if y <= 0 {
        Seq::empty()
    } else {
        row_prefix(g, x, y - 1) + cell_text(g.at(x, y - 1))
    }
}

/// The first `x` full rows, each closed by a newline.
pub open spec fn grid_prefix(g: Grid, x: int) -> Seq<char>
    decreases x,
{
    if x <= 0 {
        Seq::empty()
    } else {
        grid_prefix(g, x - 1) + row_prefix(g, x - 1, g.size as int) + seq!['\n']
    }
}

/// The whole grid's text: every row, each closed by a newline.
pub open spec fn grid_text(g: Grid) -> Seq<char> {
    grid_prefix(g, g.size as int)
}

fn digit_str(d: usize) -> (r: &'static str)
    requires
        d < 10,
    ensures
        r@ == seq![digit_char(d as int)],
{
    let r: &'static str = match d {
        0 => "0",
        1 => "1",
        2 => "2",
        3 => "3",
        4 => "4",
        5 => "5",
        6 => "6",
        7 => "7",
        8 => "8",
        _ => "9",
    };
    proof {
        reveal_strlit("0");
        reveal_strlit("1");
        reveal_strlit("2");
        reveal_strlit("3");
        reveal_strlit("4");
        reveal_strlit("5");
        reveal_strlit("6");
        reveal_strlit("7");
        reveal_strlit("8");
        reveal_strlit("9");
        assert(r@ =~= seq![digit_char(d as int)]);
    }
    r
}

/// Appends the decimal digits of `n`, most significant first.
fn push_decimal(out: &mut String, n: usize)
    ensures
        final(out)@ == old(out)@ + decimal_chars(n as int),
    decreases n,
{
    if n >= 10 {
        push_decimal(out, n / 10);
    }
    vstd::string::StringExecFns::append(out, digit_str(n % 10));
    proof {
        assert(out@ =~= old(out)@ + decimal_chars(n as int));
    }
}

impl Grid {
    /// The grid's resolved values as text: each cell's optional value in
    /// debug form, cells separated by spaces, one row per line.
    pub fn render_text(&self) -> (r: String)
        requires
            self.wf_dims(),
        ensures
            r@ == grid_text(*self),
    {
        let mut out = String::new();
        let size = self.size;
        let mut x: usize = 0;
        while x < size
            invariant
                self.wf_dims(),
                size == self.size,
                x <= size,
                out@ == grid_prefix(*self, x as int),
            decreases size - x,
        {
            let mut y: usize = 0;
            while y < size
                invariant
                    self.wf_dims(),
                    size == self.size,
                    x < size,
                    y <= size,
                    out@ == grid_prefix(*self, x as int) + row_prefix(*self, x as int, y as int),
                decreases size - y,
            {
                match self.cell_value(x, y) {
                    None => {
                        vstd::string::StringExecFns::append(&mut out, "None ");
                    },
                    Some(v) => {
                        vstd::string::StringExecFns::append(&mut out, "Some(");
                        push_decimal(&mut out, v);
                        vstd::string::StringExecFns::append(&mut out, ") ");
                    },
                }
                proof {
                    assert(out@ =~= grid_prefix(*self, x as int) + row_prefix(
                        *self,
                        x as int,
                        y + 1,
                    ));
                }
                y += 1;
            }
            vstd::string::StringExecFns::append(&mut out, "\n");
            proof {
                assert(seq!['\n'] =~= "\n"@) by {
                    reveal_strlit("\n");
                }
                assert(out@ =~= grid_prefix(*self, x + 1));
            }
            x += 1;
        }
        out
    }
}

} // verus!
