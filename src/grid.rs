//! The height map: a rectangular grid of single-digit tree heights.
use vstd::prelude::*;

verus! {

/// A position in a grid, as `(row, col)`.
pub type Coord = (usize, usize);

/// True when `g` is a non-empty rectangular grid of heights `0..=9`.
pub open spec fn is_grid(g: Seq<Seq<u8>>) -> bool {
    &&& 1 <= g.len() <= usize::MAX
    &&& 1 <= g[0].len() <= usize::MAX
    &&& forall|r: int| 0 <= r < g.len() ==> #[trigger] g[r].len() == g[0].len()
    &&& forall|r: int, c: int|
        0 <= r < g.len() && 0 <= c < g[0].len() ==> #[trigger] g[r][c] <= 9
}

/// Number of rows of `g`.
pub open spec fn n_rows(g: Seq<Seq<u8>>) -> int {
    g.len() as int
}

/// Number of columns of `g` (the length of its first row).
pub open spec fn n_cols(g: Seq<Seq<u8>>) -> int {
    g[0].len() as int
}

/// True when `(r, c)` lies inside `g`.
pub open spec fn in_grid(g: Seq<Seq<u8>>, r: int, c: int) -> bool {
    0 <= r < n_rows(g) && 0 <= c < n_cols(g)
}

/// A grid of tree heights, stored row by row.
pub struct Grid {
    cells: Vec<Vec<u8>>,
}

impl View for Grid {
    type V = Seq<Seq<u8>>;

    closed spec fn view(&self) -> Seq<Seq<u8>> {
        self.cells@.map_values(|row: Vec<u8>| row@)
    }
}

impl Grid {
    /// The grid is rectangular, non-empty, and holds heights `0..=9`.
    pub open spec fn wf(&self) -> bool {
        is_grid(self@)
    }

    /// Number of rows.
    pub fn rows(&self) -> (r: usize)
        requires
            self.wf(),
        ensures
            r == n_rows(self@),
    {
        self.cells.len()
    }

    /// Number of columns.
    pub fn cols(&self) -> (c: usize)
        requires
            self.wf(),
        ensures
            c == n_cols(self@),
    {
        assert(self@[0] == self.cells@[0]@);
        self.cells[0].len()
    }

    /// Height of the tree at `(row, col)`.
    pub fn height(&self, row: usize, col: usize) -> (h: u8)
        requires
            self.wf(),
            in_grid(self@, row as int, col as int),
        ensures
            h == self@[row as int][col as int],
            h <= 9,
    {
        assert(self@[row as int] == self.cells@[row as int]@);
        assert(self@[row as int].len() == self@[0].len());
        self.cells[row][col]
    }
}

/// Why a list of lines is not a height map.
#[derive(Clone, Copy, Debug, PartialEq, Eq, Structural)]
pub enum ParseError {
    /// There are no lines, or the first line is empty.
    Empty,
    /// Some line differs in length from the first.
    Ragged,
    /// Some character is not a decimal digit.
    NotADigit,
}

/// True when `ch` is one of `'0'..='9'`.
pub open spec fn is_digit(ch: char) -> bool {
    ('0' as u32) <= (ch as u32) && (ch as u32) <= ('9' as u32)
}

/// The value of the decimal digit `ch`.
pub open spec fn digit_value(ch: char) -> u8 {
    ((ch as u32) - ('0' as u32)) as u8
}

/// No lines, or an empty first line.
pub open spec fn lines_empty(lines: Seq<Seq<char>>) -> bool {
    lines.len() == 0 || lines[0].len() == 0
}

/// Some line differs in length from the first.
pub open spec fn lines_ragged(lines: Seq<Seq<char>>) -> bool {
    exists|i: int| 0 <= i < lines.len() && #[trigger] lines[i].len() != lines[0].len()
}

/// Every character of every line is a decimal digit.
pub open spec fn lines_all_digits(lines: Seq<Seq<char>>) -> bool {
    forall|i: int, j: int|
        0 <= i < lines.len() && 0 <= j < lines[i].len() ==> is_digit(#[trigger] lines[i][j])
}

/// The digit values of one line.
pub open spec fn digits_of(line: Seq<char>) -> Seq<u8> {
    line.map_values(|ch: char| digit_value(ch))
}

/// The grid whose row `i` holds the digit values of line `i`.
pub open spec fn grid_of(lines: Seq<Seq<char>>) -> Seq<Seq<u8>> {
    lines.map_values(|line: Seq<char>| digits_of(line))
}

/// The characters of each line.
pub open spec fn chars_of(input: Seq<String>) -> Seq<Seq<char>> {
    input.map_values(|s: String| s@)
}

/// What reading `lines` gives: the first problem found, in the order empty
/// input, ragged lines, non-digit characters; otherwise the grid of digits.
pub open spec fn parse_outcome(lines: Seq<Seq<char>>) -> Result<Seq<Seq<u8>>, ParseError> {
    if lines_empty(lines) {
        Err(ParseError::Empty)
    } else if lines_ragged(lines) {
        Err(ParseError::Ragged)
    } else if !lines_all_digits(lines) {
        Err(ParseError::NotADigit)
    } else {
        Ok(grid_of(lines))
    }
}

/// Reads one row of digits; `None` when a character is not a digit.
fn parse_row(line: &String) -> (r: Option<Vec<u8>>)
    ensures
        r is Some <==> forall|j: int| 0 <= j < line@.len() ==> is_digit(#[trigger] line@[j]),
        r is Some ==> r->Some_0@ == digits_of(line@),
{
    let s = line.as_str();
    let n = s.unicode_len();
    let mut row: Vec<u8> = Vec::new();
    let mut j: usize = 0;
    while j < n
        invariant
            n == line@.len(),
            s@ == line@,
            j <= n,
            row@ == digits_of(line@.take(j as int)),
            forall|k: int| 0 <= k < j ==> is_digit(#[trigger] line@[k]),
        decreases n - j,
    {
        let ch = s.get_char(j);
        if !(('0' as u32) <= (ch as u32) && (ch as u32) <= ('9' as u32)) {
            return None;
        }
        row.push(((ch as u32) - ('0' as u32)) as u8);
        proof {
            assert(line@.take(j as int + 1) =~= line@.take(j as int).push(ch));
            assert(digits_of(line@.take(j as int + 1)) =~= digits_of(line@.take(j as int)).push(
                digit_value(ch),
            ));
        }
        j = j + 1;
    }
    assert(line@.take(n as int) =~= line@);
    Some(row)
}

/// Reads a height map from its lines, one row per line, one digit per tree.
pub fn parse_map(input: Vec<String>) -> (r: Result<Grid, ParseError>)
    ensures
        lines_empty(chars_of(input@)) <==> r == Err::<Grid, ParseError>(ParseError::Empty),
        r == Err::<Grid, ParseError>(ParseError::Ragged) <==> !lines_empty(chars_of(input@))
            && lines_ragged(chars_of(input@)),
        r == Err::<Grid, ParseError>(ParseError::NotADigit) <==> !lines_empty(chars_of(input@))
            && !lines_ragged(chars_of(input@)) && !lines_all_digits(chars_of(input@)),
        r is Ok <==> !lines_empty(chars_of(input@)) && !lines_ragged(chars_of(input@))
            && lines_all_digits(chars_of(input@)),
        r is Ok ==> r->Ok_0.wf() && r->Ok_0@ == grid_of(chars_of(input@)),
{
    let ghost lines = chars_of(input@);
    if input.len() == 0 {
        return Err(ParseError::Empty);
    }
    assert(lines[0] == input@[0]@);
    let cols = input[0].as_str().unicode_len();
    if cols == 0 {
        return Err(ParseError::Empty);
    }
    let mut i: usize = 0;
    while i < input.len()
        invariant
            lines == chars_of(input@),
            input@.len() >= 1,
            lines.len() == input@.len(),
            cols == lines[0].len(),
            cols >= 1,
            i <= input@.len(),
            forall|k: int| 0 <= k < i ==> #[trigger] lines[k].len() == cols,
        decreases input@.len() - i,
    {
        assert(lines[i as int] == input@[i as int]@);
        if input[i].as_str().unicode_len() != cols {
            assert(lines_ragged(lines));
            return Err(ParseError::Ragged);
        }
        i = i + 1;
    }
    let mut cells: Vec<Vec<u8>> = Vec::new();
    let mut i: usize = 0;
    while i < input.len()
        invariant
            lines == chars_of(input@),
            !lines_ragged(lines),
            input@.len() >= 1,
            cols == lines[0].len(),
            cols >= 1,
            i <= input@.len(),
            cells@.len() == i,
            forall|k: int| 0 <= k < i ==> (#[trigger] cells@[k])@ == digits_of(lines[k]),
            forall|k: int, j: int|
                0 <= k < i && 0 <= j < lines[k].len() ==> is_digit(#[trigger] lines[k][j]),
        decreases input@.len() - i,
    {
        assert(lines[i as int].len() == lines[0].len());
        match parse_row(&input[i]) {
            None => {
                proof {
                    assert(lines[i as int] == input@[i as int]@);
                    let j = choose|j: int| 0 <= j < lines[i as int].len() && !is_digit(lines[i as int][j]);
                    assert(!is_digit(lines[i as int][j]));
                }
                return Err(ParseError::NotADigit);
            },
            Some(row) => {
                assert(lines[i as int] == input@[i as int]@);
                cells.push(row);
            },
        }
        i = i + 1;
    }
    let g = Grid { cells };
    proof {
        assert(g@ =~= grid_of(lines));
        assert forall|r: int, c: int| 0 <= r < g@.len() && 0 <= c < g@[0].len() implies
            #[trigger] g@[r][c] <= 9 by {
            assert(lines[r].len() == lines[0].len());
            assert(is_digit(lines[r][c]));
        }
    }
    Ok(g)
}

/// Where `p` of a `rows × cols` grid lands once the grid is turned a quarter to
/// the left (counter-clockwise): the grid becomes `cols × rows`.
pub open spec fn left_turn(rows: usize, cols: usize, p: Coord) -> Coord {
    ((cols - 1 - p.1) as usize, p.0)
}

/// Where `p` of a `rows × cols` grid lands once the grid is turned a quarter to
/// the right (clockwise): the grid becomes `cols × rows`.
pub open spec fn right_turn(rows: usize, cols: usize, p: Coord) -> Coord {
    (p.1, (rows - 1 - p.0) as usize)
}

/// The grid turned a quarter to the right: its left column becomes its top row.
pub open spec fn turned_right(g: Seq<Seq<u8>>) -> Seq<Seq<u8>> {
    Seq::new(
        n_cols(g) as nat,
        |i: int| Seq::new(n_rows(g) as nat, |j: int| g[n_rows(g) - 1 - j][i]),
    )
}

/// The grid turned a quarter to the left: its right column becomes its top row.
pub open spec fn turned_left(g: Seq<Seq<u8>>) -> Seq<Seq<u8>> {
    Seq::new(
        n_cols(g) as nat,
        |i: int| Seq::new(n_rows(g) as nat, |j: int| g[j][n_cols(g) - 1 - i]),
    )
}

/// Coordinates of the same point after turning a `rows × cols` grid to the left.
pub fn rotate_left_coords(rows: usize, cols: usize, c: Coord) -> (r: Coord)
    requires
        c.1 < cols,
    ensures
        r == left_turn(rows, cols, c),
{
    let (row, col) = c;
    (cols - 1 - col, row)
}

/// Coordinates of the same point after turning a `rows × cols` grid to the right.
pub fn rotate_right_coords(rows: usize, cols: usize, c: Coord) -> (r: Coord)
    requires
        c.0 < rows,
    ensures
        r == right_turn(rows, cols, c),
{
    let (row, col) = c;
    (col, rows - 1 - row)
}

/// Turning a grid to the left and then to the right, or to the right and then
/// to the left, brings every point of it back to where it was.
pub proof fn lemma_turn_round_trip(rows: usize, cols: usize, p: Coord)
    requires
        p.0 < rows,
        p.1 < cols,
    ensures
        left_turn(rows, cols, p).0 < cols && left_turn(rows, cols, p).1 < rows,
        right_turn(cols, rows, left_turn(rows, cols, p)) == p,
        right_turn(rows, cols, p).0 < cols && right_turn(rows, cols, p).1 < rows,
        left_turn(cols, rows, right_turn(rows, cols, p)) == p,
{
}

/// The rows of `m` turned a quarter to the right when `right` holds, else a
/// quarter to the left; each height is read through the matching coordinate map.
fn turned_cells(m: &Grid, right: bool) -> (cells: Vec<Vec<u8>>)
    requires
        m.wf(),
    ensures
        cells@.map_values(|row: Vec<u8>| row@) == (if right {
            turned_right(m@)
        } else {
            turned_left(m@)
        }),
{
    let ghost t = if right {
        turned_right(m@)
    } else {
        turned_left(m@)
    };
    let rows = m.rows();
    let cols = m.cols();
    let mut cells: Vec<Vec<u8>> = Vec::new();
    let mut i: usize = 0;
    while i < cols
        invariant
            m.wf(),
            rows == n_rows(m@),
            cols == n_cols(m@),
            t == (if right {
                turned_right(m@)
            } else {
                turned_left(m@)
            }),
            i <= cols,
            cells@.len() == i,
            forall|k: int| 0 <= k < i ==> (#[trigger] cells@[k])@ == t[k],
        decreases cols - i,
    {
        let mut row: Vec<u8> = Vec::new();
        let mut j: usize = 0;
        while j < rows
            invariant
                m.wf(),
                rows == n_rows(m@),
                cols == n_cols(m@),
                t == (if right {
                    turned_right(m@)
                } else {
                    turned_left(m@)
                }),
                i < cols,
                j <= rows,
                row@ == t[i as int].take(j as int),
            decreases rows - j,
        {
            let (r, c) = if right {
                rotate_left_coords(cols, rows, (i, j))
            } else {
                rotate_right_coords(cols, rows, (i, j))
            };
            let h = m.height(r, c);
            row.push(h);
            assert(row@ =~= t[i as int].take(j as int + 1));
            j = j + 1;
        }
        assert(row@ =~= t[i as int]);
        cells.push(row);
        i = i + 1;
    }
    assert(cells@.map_values(|row: Vec<u8>| row@) =~= t);
    cells
}

/// The grid turned a quarter to the right: the left edge becomes the top edge.
pub fn rotated_right_mat(m: &Grid) -> (r: Grid)
    requires
        m.wf(),
    ensures
        r.wf(),
        r@ == turned_right(m@),
{
    let r = Grid { cells: turned_cells(m, true) };
    assert(r@[0].len() == n_rows(m@));
    r
}

/// The grid turned a quarter to the left: the right edge becomes the top edge.
pub fn rotated_left_mat(m: &Grid) -> (r: Grid)
    requires
        m.wf(),
    ensures
        r.wf(),
        r@ == turned_left(m@),
{
    let r = Grid { cells: turned_cells(m, false) };
    assert(r@[0].len() == n_rows(m@));
    r
}

} // verus!
