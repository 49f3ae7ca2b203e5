//! The text picture of a board: column labels, one line per row with its
//! label, and a tally of the pieces.

use vstd::prelude::*;
use crate::board::{cell, count_of, in_bounds, Board};
use crate::piece::Piece;

verus! {

/// The symbol drawn for a square.
pub open spec fn glyph(p: Piece) -> char {
    match p {
        Piece::Black => '*',
        Piece::White => 'o',
        Piece::Blank => '-',
    }
}

/// The decimal digit for `n` in `0..10`.
pub open spec fn digit(n: int) -> char {
    if n == 0 {
        '0'
    } else if n == 1 {
        '1'
    } else if n == 2 {
        '2'
    } else if n == 3 {
        '3'
    } else if n == 4 {
        '4'
    } else if n == 5 {
        '5'
    } else if n == 6 {
        '6'
    } else if n == 7 {
        '7'
    } else if n == 8 {
        '8'
    } else {
        '9'
    }
}

/// `n` written in decimal.
pub open spec fn decimal(n: nat) -> Seq<char>
    decreases n,
{
    if n < 10 {
        seq![digit(n as int)]
    } else {
        decimal(n / 10) + seq![digit((n % 10) as int)]
    }
}

/// The line of column labels.
pub open spec fn header_text() -> Seq<char> {
    seq![' ', ' ', '0', ' ', '1', ' ', '2', ' ', '3', ' ', '4', ' ', '5', ' ', '6', ' ', '7', '\n']
}

/// The first `j` squares of row `i`, each followed by a space.
pub open spec fn squares_text(s: Seq<Piece>, i: int, j: int) -> Seq<char>
    decreases j,
{
    if j <= 0 {
        seq![]
    } else {
        squares_text(s, i, j - 1) + seq![glyph(cell(s, i, j - 1)), ' ']
    }
}

/// The line of row `i`: its label, then its squares.
pub open spec fn row_text(s: Seq<Piece>, i: int) -> Seq<char> {
    seq![digit(i), ' '] + squares_text(s, i, 8) + seq!['\n']
}

/// The lines of the first `i` rows.
pub open spec fn rows_text(s: Seq<Piece>, i: int) -> Seq<char>
    decreases i,
{
    if i <= 0 {
        seq![]
    } else {
        rows_text(s, i - 1) + row_text(s, i - 1)
    }
}

/// The tally line, `Black: b, White: w`.
pub open spec fn tally_text(s: Seq<Piece>) -> Seq<char> {
    seq!['B', 'l', 'a', 'c', 'k', ':', ' '] + decimal(count_of(s, Piece::Black)) + seq![
        ',',
        ' ',
        'W',
        'h',
        'i',
        't',
        'e',
        ':',
        ' ',
    ] + decimal(count_of(s, Piece::White)) + seq!['\n']
}

/// The whole picture of a board.
pub open spec fn board_text(s: Seq<Piece>) -> Seq<char> {
    header_text() + rows_text(s, 8) + tally_text(s)
}

/// Relies on `String`'s `FromIterator<char>`: the string holds the given
/// characters in order.
#[verifier::external_body]
fn string_from_chars(v: &Vec<char>) -> (r: String)
    ensures
        r@ == v@,
{
    v.iter().collect()
}

fn digit_char(n: usize) -> (r: char)
    requires
        n < 10,
    ensures
        r == digit(n as int),
{
    match n {
        0 => '0',
        1 => '1',
        2 => '2',
        3 => '3',
        4 => '4',
        5 => '5',
        6 => '6',
        7 => '7',
        8 => '8',
        _ => '9',
    }
}

fn glyph_char(p: Piece) -> (r: char)
    ensures
        r == glyph(p),
{
    match p {
        Piece::Black => '*',
        Piece::White => 'o',
        Piece::Blank => '-',
    }
}

/// Appends `n` in decimal.
fn push_decimal(v: &mut Vec<char>, n: usize)
    requires
        n < 100,
    ensures
        final(v)@ == old(v)@ + decimal(n as nat),
{
    if n < 10 {
        v.push(digit_char(n));
    } else {
        v.push(digit_char(n / 10));
        v.push(digit_char(n % 10));
        assert(decimal((n / 10) as nat) == seq![digit((n / 10) as int)]);
    }
    assert(final(v)@ =~= old(v)@ + decimal(n as nat));
}

impl Board {
    /// The board as text: a line of column labels `0`..`7`, then each row
    /// with its label and one symbol per square (`*` black, `o` white, `-`
    /// empty), then the tally of black and white pieces.
    pub fn render(&self) -> (r: String)
        requires
            self.wf(),
        ensures
            r@ == board_text(self@),
    {
        let ghost s = self@;
        let mut v: Vec<char> = Vec::new();
        v.push(' ');
        v.push(' ');
        let mut d: usize = 0;
        while d < 8
            invariant
                d <= 8,
                v@.len() == 2 + 2 * d,
                forall|m: int| 0 <= m < v@.len() ==> #[trigger] v@[m] == header_text()[m],
            decreases 8 - d,
        {
            v.push(digit_char(d));
            if d < 7 {
                v.push(' ');
            } else {
                v.push('\n');
            }
            d = d + 1;
        }
        assert(v@ =~= header_text());
        let mut i: usize = 0;
        while i < 8
            invariant
                self.wf(),
                s == self@,
                i <= 8,
                v@ == header_text() + rows_text(s, i as int),
            decreases 8 - i,
        {
            let ghost line_start = v@;
            v.push(digit_char(i));
            v.push(' ');
            let mut j: usize = 0;
            while j < 8
                invariant
                    self.wf(),
                    s == self@,
                    i < 8,
                    j <= 8,
                    v@ == line_start + seq![digit(i as int), ' '] + squares_text(s, i as int, j as int),
                decreases 8 - j,
            {
                let q = match self.get(i as isize, j as isize) {
                    Some(q) => q,
                    None => Piece::Blank,
                };
                assert(in_bounds(i as int, j as int));
                v.push(glyph_char(q));
                v.push(' ');
                assert(v@ =~= line_start + seq![digit(i as int), ' '] + squares_text(s, i as int, j + 1));
                j = j + 1;
            }
            v.push('\n');
            assert(v@ =~= header_text() + rows_text(s, i + 1));
            i = i + 1;
        }
        let (n_black, n_white) = self.count();
        proof {
            crate::board::lemma_counts_fit(s);
        }
        let ghost rows_end = v@;
        v.push('B');
        v.push('l');
        v.push('a');
        v.push('c');
        v.push('k');
        v.push(':');
        v.push(' ');
        push_decimal(&mut v, n_black);
        v.push(',');
        v.push(' ');
        v.push('W');
        v.push('h');
        v.push('i');
        v.push('t');
        v.push('e');
        v.push(':');
        v.push(' ');
        push_decimal(&mut v, n_white);
        v.push('\n');
        assert(v@ =~= rows_end + tally_text(s));
        assert(v@ =~= board_text(s));
        string_from_chars(&v)
    }
}

} // verus!
