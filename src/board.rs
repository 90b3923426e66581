use vstd::prelude::*;

verus! {

/// A grid of characters with at least one row and one column, all rows of
/// the same length.
pub open spec fn rectangular(g: Seq<Seq<char>>) -> bool {
    &&& g.len() >= 1
    &&& g[0].len() >= 1
    &&& forall|r: int| 0 <= r < g.len() ==> (#[trigger] g[r]).len() == g[0].len()
}

/// The characters of each row.
pub open spec fn rows_view(rows: Seq<String>) -> Seq<Seq<char>> {
    rows.map_values(|s: String| s@)
}

/// Why a board was refused.
#[derive(Debug, Clone, Copy, PartialEq, Eq, Structural)]
pub enum BoardError {
    /// The board has no row.
    NoRows,
    /// The first row is empty.
    EmptyRow,
    /// Some row's length differs from the first row's.
    UnequalRows,
}

/// The error that `rows` gives, if any.
pub open spec fn board_error(g: Seq<Seq<char>>) -> Option<BoardError> {
    if g.len() == 0 {
        Some(BoardError::NoRows)
    } else if g[0].len() == 0 {
        Some(BoardError::EmptyRow)
    } else if !rectangular(g) {
        Some(BoardError::UnequalRows)
    } else {
        None
    }
}

/// An immutable rectangular grid of characters, indexed by (row, column).
pub struct Board {
    cells: Vec<Vec<char>>,
    width: usize,
}

impl View for Board {
    type V = Seq<Seq<char>>;

    closed spec fn view(&self) -> Seq<Seq<char>> {
        self.cells@.map_values(|r: Vec<char>| r@)
    }
}

/// The characters of a string, one by one.
fn chars_of(s: &str) -> (r: Vec<char>)
    ensures
        r@ == s@,
{
    let len = s.unicode_len();
    let mut r: Vec<char> = Vec::new();
    let mut k: usize = 0;
    while k < len
        invariant
            len == s@.len(),
            0 <= k <= len,
            r@ == s@.subrange(0, k as int),
        decreases len - k,
    {
        r.push(s.get_char(k));
        k = k + 1;
        assert(r@ =~= s@.subrange(0, k as int));
    }
    assert(r@ =~= s@);
    r
}

impl Board {
    pub closed spec fn wf(&self) -> bool {
        &&& rectangular(self@)
        &&& self.width == self@[0].len()
    }

    /// A well-formed board is rectangular.
    pub proof fn lemma_rectangular(&self)
        requires
            self.wf(),
        ensures
            rectangular(self@),
    {
    }

    /// Builds a board from its rows, each string one row; refuses a board
    /// with no row, an empty first row or rows of unequal length.
    pub fn from_rows(rows: &Vec<String>) -> (r: Result<Board, BoardError>)
        ensures
            match r {
                Ok(b) => board_error(rows_view(rows@)) == None::<BoardError> && b.wf() && b@
                    == rows_view(rows@),
                Err(e) => board_error(rows_view(rows@)) == Some(e),
            },
    {
        let ghost g = rows_view(rows@);
        if rows.len() == 0 {
            return Err(BoardError::NoRows);
        }
        let first = chars_of(rows[0].as_str());
        let width = first.len();
        assert(first@ == g[0]);
        if width == 0 {
            return Err(BoardError::EmptyRow);
        }
        let mut cells: Vec<Vec<char>> = Vec::new();
        let mut r: usize = 0;
        while r < rows.len()
            invariant
                g == rows_view(rows@),
                g.len() == rows@.len(),
                width == g[0].len(),
                width >= 1,
                0 <= r <= rows@.len(),
                cells@.len() == r,
                forall|i: int| 0 <= i < r ==> (#[trigger] cells@[i])@ == g[i],
                forall|i: int| 0 <= i < r ==> (#[trigger] g[i]).len() == width,
            decreases rows@.len() - r,
        {
            let row = chars_of(rows[r].as_str());
            assert(row@ == g[r as int]);
            if row.len() != width {
                assert(g[r as int].len() != g[0].len());
                assert(!rectangular(g));
                return Err(BoardError::UnequalRows);
            }
            cells.push(row);
            r = r + 1;
        }
        let b = Board { cells, width };
        assert(b@ =~= g);
        Ok(b)
    }

    /// Number of rows.
    pub fn rows(&self) -> (r: usize)
        requires
            self.wf(),
        ensures
            r == self@.len(),
    {
        self.cells.len()
    }

    /// Number of columns.
    pub fn cols(&self) -> (r: usize)
        requires
            self.wf(),
        ensures
            r == self@[0].len(),
    {
        self.width
    }

    /// The character at (row, col).
    pub fn at(&self, row: usize, col: usize) -> (r: char)
        requires
            self.wf(),
            row < self@.len(),
            col < self@[0].len(),
        ensures
            r == self@[row as int][col as int],
    {
        assert(self.cells@[row as int]@ == self@[row as int]);
        self.cells[row][col]
    }
}

} // verus!
