//! Positions in the text as row and column, both counted from 1.

use vstd::prelude::*;
use vstd::utf8::*;

verus! {

/// Position in text.
///
/// Position indicates a row/line and a column in the input text. Starting from 1:1.
#[allow(missing_docs)]
#[derive(Clone, Copy, PartialEq, Eq, Hash, Debug, Structural)]
pub struct TextPos {
    pub row: u32,
    pub col: u32,
}

impl TextPos {
    /// Constructs a new `TextPos`.
    pub fn new(row: u32, col: u32) -> (r: TextPos)
        ensures
            r.row == row,
            r.col == col,
    {
        TextPos { row, col }
    }
}

/// The number of line feeds among the first `end` bytes.
pub open spec fn newlines_before(b: Seq<u8>, end: int) -> int
    decreases end,
{
    if end <= 0 {
        0
    } else {
        newlines_before(b, end - 1) + if b[end - 1] == 0x0a {
            1int
        } else {
            0int
        }
    }
}

/// The number of characters between the last line feed before `end` (or the
/// start of the text) and `end`. A character is counted by its first byte.
pub open spec fn chars_since_newline(b: Seq<u8>, end: int) -> int
    decreases end,
{
    if end <= 0 || b[end - 1] == 0x0a {
        0
    } else {
        chars_since_newline(b, end - 1) + if is_continuation_byte(b[end - 1]) {
            0int
        } else {
            1int
        }
    }
}

/// `n` as a `u32`, or the largest `u32` where it does not fit.
pub open spec fn saturate(n: int) -> u32 {
    if n >= u32::MAX {
        u32::MAX
    } else if n <= 0 {
        0
    } else {
        n as u32
    }
}

/// `pos`, or the length of the text where `pos` lies behind it.
pub open spec fn clamp(b: Seq<u8>, pos: int) -> int {
    if pos > b.len() {
        b.len() as int
    } else {
        pos
    }
}

/// Row and column of the byte offset `pos`; an offset behind the text counts
/// as its end. Rows and columns that do not fit a `u32` saturate.
pub open spec fn text_pos(b: Seq<u8>, pos: int) -> TextPos {
    TextPos {
        row: saturate(1 + newlines_before(b, clamp(b, pos))),
        col: saturate(1 + chars_since_newline(b, clamp(b, pos))),
    }
}

fn calc_curr_row(b: &[u8], end: usize) -> (row: u32)
    requires
        end <= b@.len(),
    ensures
        row == saturate(1 + newlines_before(b@, end as int)),
{
    let mut row: u32 = 1;
    let mut i: usize = 0;
    while i < end
        invariant
            i <= end <= b@.len(),
            newlines_before(b@, i as int) >= 0,
            row == saturate(1 + newlines_before(b@, i as int)),
        decreases end - i,
    {
        if b[i] == 0x0a && row < u32::MAX {
            row += 1;
        }
        i += 1;
    }
    row
}

fn calc_curr_col(b: &[u8], end: usize) -> (col: u32)
    requires
        end <= b@.len(),
    ensures
        col == saturate(1 + chars_since_newline(b@, end as int)),
{
    let mut col: u32 = 1;
    let mut i: usize = end;
    let ghost mut n: int = 1;
    proof {
        lemma_chars_since_newline_nonneg(b@, end as int);
    }
    while i > 0 && b[i - 1] != 0x0a
        invariant
            i <= end <= b@.len(),
            n >= 1,
            chars_since_newline(b@, i as int) >= 0,
            col == saturate(n),
            n + chars_since_newline(b@, i as int) == 1 + chars_since_newline(b@, end as int),
        decreases i,
    {
        let c = b[i - 1];
        if !(0x80 <= c && c <= 0xbf) {
            if col < u32::MAX {
                col += 1;
            }
            proof {
                n = n + 1;
            }
        }
        proof {
            lemma_chars_since_newline_nonneg(b@, i - 1);
        }
        i -= 1;
    }
    col
}

proof fn lemma_chars_since_newline_nonneg(b: Seq<u8>, end: int)
    ensures
        chars_since_newline(b, end) >= 0,
    decreases end,
{
    if end > 0 && b[end - 1] != 0x0a {
        lemma_chars_since_newline_nonneg(b, end - 1);
    }
}

/// Row and column of a byte offset in `b`.
pub fn text_pos_at(b: &[u8], pos: usize) -> (r: TextPos)
    ensures
        r == text_pos(b@, pos as int),
{
    let end = if pos > b.len() {
        b.len()
    } else {
        pos
    };
    let row = calc_curr_row(b, end);
    let col = calc_curr_col(b, end);
    TextPos::new(row, col)
}

} // verus!
