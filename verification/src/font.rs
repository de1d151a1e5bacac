//! A bitmap font of capital letters, digits and the blank: each glyph is a
//! text of five rows of six cells under an empty first line, a cell being
//! blank or filled. A glyph can be made of any text: its rows are the lines
//! that are not empty.

use vstd::prelude::*;

verus! {

/// The width of a glyph, in cells.
pub const SYMBOL_WIDTH: usize = 6;

/// The height of a glyph, in rows.
pub const SYMBOL_HEIGHT: usize = 5;

/// The text of a glyph.
#[derive(Debug, Clone, Copy)]
pub struct CharSymbol(pub &'static str);

/// The number of line ends in `text`.
pub open spec fn line_ends(text: Seq<char>) -> nat
    decreases text.len(),
{
    if text.len() == 0 {
        0
    } else {
        line_ends(text.drop_last()) + if text.last() == '\n' {
            1nat
        } else {
            0nat
        }
    }
}

/// The number of lines of `text`: one for each line end, and one more for
/// what follows the last line end, unless nothing follows it.
pub open spec fn line_count(text: Seq<char>) -> nat {
    line_ends(text) + if text.len() > 0 && text.last() != '\n' {
        1nat
    } else {
        0nat
    }
}

/// A line of `text` begins at `start` and ends before `end`, where the text
/// ends or a line end stands.
pub open spec fn is_line(text: Seq<char>, start: int, end: int) -> bool {
    &&& 0 <= start <= end <= text.len()
    &&& start < text.len()
    &&& start == 0 || text[start - 1] == '\n'
    &&& end == text.len() || text[end] == '\n'
    &&& forall|k: int| start <= k < end ==> text[k] != '\n'
}

/// The number of characters of the line from `start` to `end`. A carriage
/// return just before the line end belongs to the line end.
pub open spec fn line_len(text: Seq<char>, start: int, end: int) -> int {
    if start < end < text.len() && text[end - 1] == '\r' {
        end - start - 1
    } else {
        end - start
    }
}

/// `text` has a line that is not empty, and all such lines have `width` characters.
pub open spec fn has_width(text: Seq<char>, width: int) -> bool {
    &&& exists|start: int, end: int|
        #![trigger is_line(text, start, end)]
        is_line(text, start, end) && line_len(text, start, end) == width
    &&& width > 0
    &&& forall|start: int, end: int|
        #![trigger is_line(text, start, end)]
        is_line(text, start, end) && line_len(text, start, end) > 0 ==> line_len(
            text,
            start,
            end,
        ) == width
}

/// Where the line of `text` that holds the position `from` ends: at the
/// first line end from there on, or with the text.
pub open spec fn line_end(text: Seq<char>, from: int) -> int
    decreases text.len() - from,
{
    if from < 0 || from >= text.len() {
        text.len() as int
    } else if text[from] == '\n' {
        from
    } else {
        line_end(text, from + 1)
    }
}

/// The cells of the line from `start` to `end`, one for each character:
/// filled but for a blank.
pub open spec fn row_cells(text: Seq<char>, start: int, end: int) -> Seq<bool> {
    Seq::new(line_len(text, start, end) as nat, |column: int| text[start + column] != ' ')
}

/// The rows of cells of the lines of `text` that begin at `from` or after
/// it, from the top down. A line that is empty makes no row.
pub open spec fn rows_from(text: Seq<char>, from: int) -> Seq<Seq<bool>>
    decreases text.len() - from,
    via rows_from_decreases
{
    if from < 0 || from >= text.len() {
        Seq::empty()
    } else {
        let end = line_end(text, from);
        let below = if end < text.len() {
            rows_from(text, end + 1)
        } else {
            Seq::empty()
        };
        if line_len(text, from, end) > 0 {
            seq![row_cells(text, from, end)] + below
        } else {
            below
        }
    }
}

#[via_fn]
proof fn rows_from_decreases(text: Seq<char>, from: int) {
    if 0 <= from < text.len() {
        lemma_line_end(text, from);
    }
}

/// The line that begins at `from` ends at `line_end`.
pub proof fn lemma_line_end(text: Seq<char>, from: int)
    requires
        0 <= from <= text.len(),
    ensures
        from <= line_end(text, from) <= text.len(),
        line_end(text, from) == text.len() || text[line_end(text, from)] == '\n',
        forall|k: int| from <= k < line_end(text, from) ==> text[k] != '\n',
    decreases text.len() - from,
{
    if from < text.len() && text[from] != '\n' {
        lemma_line_end(text, from + 1);
    }
}

/// The rows of cells as sequences.
pub open spec fn row_views(rows: Seq<Vec<bool>>) -> Seq<Seq<bool>> {
    Seq::new(rows.len(), |row: int| rows[row]@)
}

/// The text of the glyph of `character`: its own for a capital letter, a
/// digit and the blank, one text for all others.
pub open spec fn glyph(character: char) -> &'static str {
    match character {
        'A' => A,
        'B' => B,
        'C' => C,
        'D' => D,
        'E' => E,
        'F' => F,
        'G' => G,
        'H' => H,
        'I' => I,
        'J' => J,
        'K' => K,
        'L' => L,
        'M' => M,
        'N' => N,
        'O' => O,
        'P' => P,
        'Q' => Q,
        'R' => R,
        'S' => S,
        'T' => T,
        'U' => U,
        'V' => V,
        'W' => W,
        'X' => X,
        'Y' => Y,
        'Z' => Z,
        '0' => ZERO,
        '1' => ONE,
        '2' => TWO,
        '3' => THREE,
        '4' => FOUR,
        '5' => FIVE,
        '6' => SIX,
        '7' => SEVEN,
        '8' => EIGHT,
        '9' => NINE,
        ' ' => BACKSPACE,
        _ => UNKNOWN,
    }
}

impl CharSymbol {
    /// The glyph with the text `symbol`.
    pub fn new(symbol: &'static str) -> (glyph: Self)
        ensures
            glyph.0 == symbol,
    {
        Self(symbol)
    }

    /// The number of rows of the glyph: one less than the number of lines of its text.
    pub fn height(&self) -> (rows: usize)
        requires
            self.0@.len() > 0,
        ensures
            rows == line_count(self.0@) - 1,
    {
        let len = self.0.unicode_len();
        let mut ends: usize = 0;
        let mut i: usize = 0;
        while i < len
            invariant
                i <= len,
                len == self.0@.len(),
                ends <= i,
                ends == line_ends(self.0@.take(i as int)),
            decreases len - i,
        {
            let c = self.0.get_char(i);
            i += 1;
            assert(self.0@.take(i as int).drop_last() =~= self.0@.take(i - 1));
            if c == '\n' {
                ends += 1;
            }
        }
        assert(self.0@.take(len as int) =~= self.0@);
        if self.0.get_char(len - 1) != '\n' {
            ends
        } else {
            ends - 1
        }
    }

    /// The number of cells in a row of the glyph: the length of the lines of
    /// its text that are not empty, where there is such a line and all of them
    /// have the same length.
    pub fn try_width(&self) -> (cells: Option<usize>)
        ensures
            match cells {
                Some(width) => has_width(self.0@, width as int),
                None => forall|width: int| !has_width(self.0@, width),
            },
    {
        let len = self.0.unicode_len();
        let mut line_length: Option<usize> = None;
        let mut start: usize = 0;
        let mut i: usize = 0;
        let ghost text = self.0@;
        let ghost mut witness: (int, int) = (0, 0);
        while i < len
            invariant
                text == self.0@,
                len == text.len(),
                start <= i <= len,
                start == 0 || text[start - 1] == '\n',
                forall|k: int| start <= k < i ==> text[k] != '\n',
                lines_before(text, start as int, line_length),
                line_length matches Some(width) ==> is_line(text, witness.0, witness.1) && line_len(
                    text,
                    witness.0,
                    witness.1,
                ) == width && width > 0,
            decreases len - i,
        {
            let c = self.0.get_char(i);
            if c == '\n' {
                let mut length = i - start;
                if i > start && self.0.get_char(i - 1) == '\r' {
                    length = length - 1;
                }
                assert(is_line(text, start as int, i as int));
                assert(length == line_len(text, start as int, i as int));
                if length > 0 {
                    match line_length {
                        Some(width) => {
                            if width != length {
                                proof {
                                    lemma_two_widths(
                                        text,
                                        witness.0,
                                        witness.1,
                                        start as int,
                                        i as int,
                                    );
                                }
                                return None;
                            }
                        },
                        None => {
                            line_length = Some(length);
                            proof {
                                witness = (start as int, i as int);
                            }
                        },
                    }
                }
                proof {
                    lemma_lines_before_next(text, start as int, i as int, line_length);
                }
                start = i + 1;
            }
            i += 1;
        }
        if start < len {
            let length = len - start;
            assert(is_line(text, start as int, len as int));
            assert(length == line_len(text, start as int, len as int));
            match line_length {
                Some(width) => {
                    if width != length {
                        proof {
                            lemma_two_widths(text, witness.0, witness.1, start as int, len as int);
                        }
                        return None;
                    }
                },
                None => {
                    line_length = Some(length);
                    proof {
                        witness = (start as int, len as int);
                    }
                },
            }
            proof {
                lemma_lines_before_next(text, start as int, len as int, line_length);
            }
        }
        proof {
            assert forall|a: int, e: int| is_line(text, a, e) implies a < len + 1 by {}
            match line_length {
                Some(width) => {
                    assert(has_width(text, width as int));
                },
                None => {
                    assert forall|width: int| !has_width(text, width) by {
                        if has_width(text, width) {
                            let (a, e) = choose|a: int, e: int|
                                #![trigger is_line(text, a, e)]
                                is_line(text, a, e) && line_len(text, a, e) == width;
                            assert(is_line(text, a, e));
                        }
                    }
                },
            }
        }
        line_length
    }

    /// The number of cells in a row of the glyph.
    pub fn width(&self) -> (cells: usize)
        requires
            exists|width: int| has_width(self.0@, width),
        ensures
            has_width(self.0@, cells as int),
    {
        self.try_width().unwrap()
    }

    /// The rows of cells of the glyph, from the top down: one row for each
    /// line of its text that is not empty, one cell for each character of the
    /// line, filled but for a blank.
    pub fn rows(&self) -> (rows: Vec<Vec<bool>>)
        ensures
            row_views(rows@) == rows_from(self.0@, 0),
    {
        let len = self.0.unicode_len();
        let ghost text = self.0@;
        let mut rows: Vec<Vec<bool>> = Vec::new();
        let mut cells: Vec<bool> = Vec::new();
        let mut start: usize = 0;
        let mut i: usize = 0;
        assert(row_views(rows@) + rows_from(text, 0) =~= rows_from(text, 0));
        while i < len
            invariant
                text == self.0@,
                len == text.len(),
                start <= i <= len,
                forall|k: int| start <= k < i ==> text[k] != '\n',
                row_views(rows@) + rows_from(text, start as int) == rows_from(text, 0),
                cells@ == Seq::new((i - start) as nat, |column: int| text[start + column] != ' '),
            decreases len - i,
        {
            let c = self.0.get_char(i);
            if c == '\n' {
                proof {
                    lemma_line_end_is(text, start as int, i as int);
                }
                if i > start && self.0.get_char(i - 1) == '\r' {
                    cells.pop();
                }
                assert(cells@ =~= row_cells(text, start as int, i as int));
                let ghost above = row_views(rows@);
                if cells.len() > 0 {
                    rows.push(cells);
                    assert(row_views(rows@) =~= above + seq![row_cells(text, start as int, i as int)]);
                }
                assert(row_views(rows@) + rows_from(text, i + 1) =~= rows_from(text, 0));
                cells = Vec::new();
                start = i + 1;
            } else {
                cells.push(c != ' ');
            }
            i += 1;
            assert(cells@ =~= Seq::new(
                (i - start) as nat,
                |column: int| text[start + column] != ' ',
            ));
        }
        if start < len {
            proof {
                lemma_line_end_is(text, start as int, len as int);
            }
            assert(cells@ =~= row_cells(text, start as int, len as int));
            let ghost above = row_views(rows@);
            rows.push(cells);
            assert(row_views(rows@) =~= above + seq![row_cells(text, start as int, len as int)]);
            assert(rows_from(text, len + 1) =~= Seq::empty());
            assert(row_views(rows@) =~= rows_from(text, 0));
        } else {
            assert(rows_from(text, start as int) =~= Seq::empty());
            assert(row_views(rows@) =~= rows_from(text, 0));
        }
        rows
    }

    /// The glyph of `char`: its own for a capital letter, a digit and the
    /// blank, one glyph for all others.
    pub fn get(char: char) -> (symbol: Self)
        ensures
            symbol.0 == glyph(char),
    {
        match char {
            'A' => Self(A),
            'B' => Self(B),
            'C' => Self(C),
            'D' => Self(D),
            'E' => Self(E),
            'F' => Self(F),
            'G' => Self(G),
            'H' => Self(H),
            'I' => Self(I),
            'J' => Self(J),
            'K' => Self(K),
            'L' => Self(L),
            'M' => Self(M),
            'N' => Self(N),
            'O' => Self(O),
            'P' => Self(P),
            'Q' => Self(Q),
            'R' => Self(R),
            'S' => Self(S),
            'T' => Self(T),
            'U' => Self(U),
            'V' => Self(V),
            'W' => Self(W),
            'X' => Self(X),
            'Y' => Self(Y),
            'Z' => Self(Z),
            '0' => Self(ZERO),
            '1' => Self(ONE),
            '2' => Self(TWO),
            '3' => Self(THREE),
            '4' => Self(FOUR),
            '5' => Self(FIVE),
            '6' => Self(SIX),
            '7' => Self(SEVEN),
            '8' => Self(EIGHT),
            '9' => Self(NINE),
            ' ' => Self(BACKSPACE),
            _ => Self(UNKNOWN),
        }
    }
}

/// A line without a line end before `end`, which is a line end or the end
/// of the text, ends there.
proof fn lemma_line_end_is(text: Seq<char>, start: int, end: int)
    requires
        0 <= start <= end <= text.len(),
        forall|k: int| start <= k < end ==> text[k] != '\n',
        end == text.len() || text[end] == '\n',
    ensures
        line_end(text, start) == end,
    decreases end - start,
{
    if start < end {
        lemma_line_end_is(text, start + 1, end);
    }
}

/// Every line of `text` that begins before `start` is empty or as long as
/// `line_length` says.
pub open spec fn lines_before(text: Seq<char>, start: int, line_length: Option<usize>) -> bool {
    forall|a: int, e: int|
        #![trigger is_line(text, a, e)]
        is_line(text, a, e) && a < start && line_len(text, a, e) > 0 ==> line_length == Some(
            line_len(text, a, e) as usize,
        )
}

proof fn lemma_lines_before_next(text: Seq<char>, start: int, end: int, line_length: Option<usize>)
    requires
        is_line(text, start, end),
        lines_before(text, start, line_length),
        line_len(text, start, end) > 0 ==> line_length == Some(line_len(text, start, end) as usize),
    ensures
        lines_before(text, end + 1, line_length),
{
    assert forall|a: int, e: int|
        #![trigger is_line(text, a, e)]
        is_line(text, a, e) && a < end + 1 && line_len(text, a, e) > 0 implies line_length == Some(
        line_len(text, a, e) as usize,
    ) by {
        if a >= start {
            if a > start {
                assert(text[a - 1] != '\n');
            }
            assert(a == start);
            if e < end {
                assert(text[e] != '\n');
            }
            if e > end {
                assert(text[end] != '\n');
            }
        }
    }
}

proof fn lemma_two_widths(text: Seq<char>, a: int, b: int, c: int, d: int)
    requires
        is_line(text, a, b),
        is_line(text, c, d),
        line_len(text, a, b) > 0,
        line_len(text, c, d) > 0,
        line_len(text, a, b) != line_len(text, c, d),
    ensures
        forall|width: int| !has_width(text, width),
{
}

/// The glyph of a character that has none of its own: a full block, one column short.
pub const UNKNOWN: &'static str = "
■■■■■
■■■■■
■■■■■
■■■■■
■■■■■";

/// The glyph of `A`.
pub const A: &'static str = "
 ■■   
■  ■  
■■■■■ 
■    ■
■    ■";

/// The glyph of `B`.
pub const B: &'static str = "
■■■■  
■    ■
■■■■  
■    ■
■■■■  ";

/// The glyph of `C`.
pub const C: &'static str = "
 ■■■  
■    ■
■     
■    ■
 ■■■  ";

/// The glyph of `D`.
pub const D: &'static str = "
■■■■  
■    ■
■    ■
■    ■
■■■■  ";

/// The glyph of `E`.
pub const E: &'static str = "
■■■■■ 
■     
■■■■  
■     
■■■■■ ";

/// The glyph of `F`.
pub const F: &'static str = "
■■■■■ 
■     
■■■■  
■     
■     ";

/// The glyph of `G`.
pub const G: &'static str = "
 ■■■  
■     
■  ■■ 
■    ■
 ■■■  ";

/// The glyph of `H`.
pub const H: &'static str = "
■    ■
■    ■
■■■■■ 
■    ■
■    ■";

/// The glyph of `I`.
pub const I: &'static str = "
  ■■■ 
   ■  
   ■  
   ■  
  ■■■ ";

/// The glyph of `J`.
pub const J: &'static str = "
  ■■■ 
   ■  
   ■  
■  ■  
 ■■   ";

/// The glyph of `K`.
pub const K: &'static str = "
■    ■
■  ■  
■■■   
■  ■  
■    ■";

/// The glyph of `L`.
pub const L: &'static str = "
■     
■     
■     
■     
■■■■■ ";

/// The glyph of `M`.
pub const M: &'static str = "
■    ■
■■  ■■
■ ■■ ■
■    ■
■    ■";

/// The glyph of `N`.
pub const N: &'static str = "
■    ■
■■   ■
■ ■  ■
■  ■ ■
■   ■■";

/// The glyph of `O`.
pub const O: &'static str = "
 ■■■  
■   ■ 
■   ■ 
■   ■ 
 ■■■  ";

/// The glyph of `P`.
pub const P: &'static str = "
■■■■  
■   ■ 
■■■■  
■     
■     ";

/// The glyph of `Q`.
pub const Q: &'static str = "
 ■■■  
■    ■
■  ■ ■
■   ■ 
 ■■■■ ";

/// The glyph of `R`.
pub const R: &'static str = "
■■■■  
■   ■ 
■■■■  
■  ■  
■   ■ ";

/// The glyph of `S`.
pub const S: &'static str = "
 ■■■■ 
■     
 ■■■  
    ■ 
■■■■  ";

/// The glyph of `T`.
pub const T: &'static str = "
■■■■■ 
  ■   
  ■   
  ■   
  ■   ";

/// The glyph of `U`.
pub const U: &'static str = "
■    ■
■    ■
■    ■
■    ■
 ■■■■ ";

/// The glyph of `V`.
pub const V: &'static str = "
■    ■
■    ■
 ■  ■ 
 ■  ■ 
  ■■  ";

/// The glyph of `W`.
pub const W: &'static str = "
■    ■
■    ■
■ ■■ ■
■■  ■■
■    ■";

/// The glyph of `X`.
pub const X: &'static str = "
■    ■
 ■  ■ 
  ■■  
 ■  ■ 
■    ■";

/// The glyph of `Y`.
pub const Y: &'static str = "
■    ■
 ■  ■ 
  ■■  
  ■   
  ■   ";

/// The glyph of `Z`.
pub const Z: &'static str = "
■■■■■ 
   ■  
  ■   
 ■    
■■■■■ ";

/// The glyph of `0`.
pub const ZERO: &'static str = "
 ■■■  
■   ■ 
■   ■ 
■   ■ 
 ■■■  ";

/// The glyph of `1`.
pub const ONE: &'static str = "
  ■   
 ■■   
  ■   
  ■   
 ■■■  ";

/// The glyph of `2`.
pub const TWO: &'static str = "
 ■■■  
■   ■ 
  ■■  
 ■    
■■■■■ ";

/// The glyph of `3`.
pub const THREE: &'static str = "
 ■■■  
■   ■ 
  ■■  
■   ■ 
 ■■■  ";

/// The glyph of `4`.
pub const FOUR: &'static str = "
  ■■  
 ■ ■  
■  ■  
■■■■■ 
   ■  ";

/// The glyph of `5`.
pub const FIVE: &'static str = "
■■■■■ 
■     
■■■■  
    ■ 
■■■■  ";

/// The glyph of `6`.
pub const SIX: &'static str = "
 ■■■  
■     
■■■■  
■   ■ 
 ■■■  ";

/// The glyph of `7`.
pub const SEVEN: &'static str = "
■■■■■ 
   ■  
  ■   
 ■    
■     ";

/// The glyph of `8`.
pub const EIGHT: &'static str = "
 ■■■  
■   ■ 
 ■■■  
■   ■ 
 ■■■  ";

/// The glyph of `9`.
pub const NINE: &'static str = "
 ■■■  
■   ■ 
 ■■■■ 
    ■ 
 ■■■  ";

/// The glyph of the blank.
pub const BACKSPACE: &'static str = "
      
      
      
      
      ";

} // verus!
