//! How far the view reaches from each tree, and the best scenic score.
use vstd::prelude::*;
use crate::grid::{Coord, Grid, in_grid, is_grid, n_cols, n_rows};

verus! {

/// How many trees a tree of height `h` sees along `line`, the heights met when
/// walking away from it: every tree up to and including the first one at least
/// as tall, or all of them when none is.
pub open spec fn sight(line: Seq<u8>, h: u8) -> nat
    decreases line.len(),
{
    if line.len() == 0 {
        0
    } else if line[0] >= h {
        1
    } else {
        1 + sight(line.drop_first(), h)
    }
}

/// Heights above `(r, c)`, nearest first.
pub open spec fn line_up(g: Seq<Seq<u8>>, r: int, c: int) -> Seq<u8> {
    Seq::new(r as nat, |i: int| g[r - 1 - i][c])
}

/// Heights below `(r, c)`, nearest first.
pub open spec fn line_down(g: Seq<Seq<u8>>, r: int, c: int) -> Seq<u8> {
    Seq::new((n_rows(g) - 1 - r) as nat, |i: int| g[r + 1 + i][c])
}

/// Heights left of `(r, c)`, nearest first.
pub open spec fn line_left(g: Seq<Seq<u8>>, r: int, c: int) -> Seq<u8> {
    Seq::new(c as nat, |i: int| g[r][c - 1 - i])
}

/// Heights right of `(r, c)`, nearest first.
pub open spec fn line_right(g: Seq<Seq<u8>>, r: int, c: int) -> Seq<u8> {
    Seq::new((n_cols(g) - 1 - c) as nat, |i: int| g[r][c + 1 + i])
}

/// Viewing distance upwards from `(r, c)`.
pub open spec fn distance_up(g: Seq<Seq<u8>>, r: int, c: int) -> nat {
    sight(line_up(g, r, c), g[r][c])
}

/// Viewing distance downwards from `(r, c)`.
pub open spec fn distance_down(g: Seq<Seq<u8>>, r: int, c: int) -> nat {
    sight(line_down(g, r, c), g[r][c])
}

/// Viewing distance to the left of `(r, c)`.
pub open spec fn distance_left(g: Seq<Seq<u8>>, r: int, c: int) -> nat {
    sight(line_left(g, r, c), g[r][c])
}

/// Viewing distance to the right of `(r, c)`.
pub open spec fn distance_right(g: Seq<Seq<u8>>, r: int, c: int) -> nat {
    sight(line_right(g, r, c), g[r][c])
}

/// The scenic score of `(r, c)`: the product of its four viewing distances.
pub open spec fn scenic_score(g: Seq<Seq<u8>>, r: int, c: int) -> nat {
    distance_up(g, r, c) * distance_left(g, r, c) * distance_right(g, r, c) * distance_down(
        g,
        r,
        c,
    )
}

/// One step of the view along `line`, taken after the first `d` trees.
proof fn lemma_sight_step(line: Seq<u8>, h: u8, d: int)
    requires
        0 <= d <= line.len(),
    ensures
        d == line.len() ==> sight(line.skip(d), h) == 0,
        d < line.len() && line[d] >= h ==> sight(line.skip(d), h) == 1,
        d < line.len() && line[d] < h ==> sight(line.skip(d), h) == 1 + sight(
            line.skip(d + 1),
            h,
        ),
{
    if d < line.len() {
        assert(line.skip(d)[0] == line[d]);
        assert(line.skip(d).drop_first() =~= line.skip(d + 1));
    }
}

/// Counts the trees seen looking up from `coordinates`.
pub fn viewing_distance_up(map: &Grid, coordinates: Coord) -> (d: usize)
    requires
        map.wf(),
        in_grid(map@, coordinates.0 as int, coordinates.1 as int),
    ensures
        d == distance_up(map@, coordinates.0 as int, coordinates.1 as int),
{
    let (row, col) = coordinates;
    let ghost line = line_up(map@, row as int, col as int);
    let treehouse_height = map.height(row, col);
    let mut distance: usize = 0;
    let mut k: usize = row;
    proof {
        assert(line.skip(0) =~= line);
    }
    while k > 0
        invariant_except_break
            distance == row - k,
            sight(line, treehouse_height) == distance + sight(
                line.skip(distance as int),
                treehouse_height,
            ),
        invariant
            map.wf(),
            in_grid(map@, row as int, col as int),
            line == line_up(map@, row as int, col as int),
            treehouse_height == map@[row as int][col as int],
            k <= row,
        ensures
            distance == sight(line, treehouse_height),
        decreases k,
    {
        k = k - 1;
        proof {
            lemma_sight_step(line, treehouse_height, distance as int);
        }
        if map.height(k, col) >= treehouse_height {
            distance = distance + 1;
            break;
        }
        distance = distance + 1;
    }
    distance
}

/// Counts the trees seen looking down from `coordinates`.
pub fn viewing_distance_down(map: &Grid, coordinates: Coord) -> (d: usize)
    requires
        map.wf(),
        in_grid(map@, coordinates.0 as int, coordinates.1 as int),
    ensures
        d == distance_down(map@, coordinates.0 as int, coordinates.1 as int),
{
    let (row, col) = coordinates;
    let ghost line = line_down(map@, row as int, col as int);
    let treehouse_height = map.height(row, col);
    let rows = map.rows();
    let mut distance: usize = 0;
    let mut k: usize = row + 1;
    proof {
        assert(line.skip(0) =~= line);
    }
    while k < rows
        invariant_except_break
            distance == k - row - 1,
            sight(line, treehouse_height) == distance + sight(
                line.skip(distance as int),
                treehouse_height,
            ),
        invariant
            map.wf(),
            in_grid(map@, row as int, col as int),
            rows == n_rows(map@),
            line == line_down(map@, row as int, col as int),
            treehouse_height == map@[row as int][col as int],
            row < k <= rows,
        ensures
            distance == sight(line, treehouse_height),
        decreases rows - k,
    {
        proof {
            lemma_sight_step(line, treehouse_height, distance as int);
        }
        if map.height(k, col) >= treehouse_height {
            distance = distance + 1;
            break;
        }
        distance = distance + 1;
        k = k + 1;
    }
    distance
}

/// Counts the trees seen looking left from `coordinates`.
pub fn viewing_distance_left(map: &Grid, coordinates: Coord) -> (d: usize)
    requires
        map.wf(),
        in_grid(map@, coordinates.0 as int, coordinates.1 as int),
    ensures
        d == distance_left(map@, coordinates.0 as int, coordinates.1 as int),
{
    let (row, col) = coordinates;
    let ghost line = line_left(map@, row as int, col as int);
    let treehouse_height = map.height(row, col);
    let mut distance: usize = 0;
    let mut k: usize = col;
    proof {
        assert(line.skip(0) =~= line);
    }
    while k > 0
        invariant_except_break
            distance == col - k,
            sight(line, treehouse_height) == distance + sight(
                line.skip(distance as int),
                treehouse_height,
            ),
        invariant
            map.wf(),
            in_grid(map@, row as int, col as int),
            line == line_left(map@, row as int, col as int),
            treehouse_height == map@[row as int][col as int],
            k <= col,
        ensures
            distance == sight(line, treehouse_height),
        decreases k,
    {
        k = k - 1;
        proof {
            lemma_sight_step(line, treehouse_height, distance as int);
        }
        if map.height(row, k) >= treehouse_height {
            distance = distance + 1;
            break;
        }
        distance = distance + 1;
    }
    distance
}

/// Counts the trees seen looking right from `coordinates`.
pub fn viewing_distance_right(map: &Grid, coordinates: Coord) -> (d: usize)
    requires
        map.wf(),
        in_grid(map@, coordinates.0 as int, coordinates.1 as int),
    ensures
        d == distance_right(map@, coordinates.0 as int, coordinates.1 as int),
{
    let (row, col) = coordinates;
    let ghost line = line_right(map@, row as int, col as int);
    let treehouse_height = map.height(row, col);
    let cols = map.cols();
    let mut distance: usize = 0;
    let mut k: usize = col + 1;
    proof {
        assert(line.skip(0) =~= line);
    }
    while k < cols
        invariant_except_break
            distance == k - col - 1,
            sight(line, treehouse_height) == distance + sight(
                line.skip(distance as int),
                treehouse_height,
            ),
        invariant
            map.wf(),
            in_grid(map@, row as int, col as int),
            cols == n_cols(map@),
            line == line_right(map@, row as int, col as int),
            treehouse_height == map@[row as int][col as int],
            col < k <= cols,
        ensures
            distance == sight(line, treehouse_height),
        decreases cols - k,
    {
        proof {
            lemma_sight_step(line, treehouse_height, distance as int);
        }
        if map.height(row, k) >= treehouse_height {
            distance = distance + 1;
            break;
        }
        distance = distance + 1;
        k = k + 1;
    }
    distance
}

/// Every tree on the edge of the grid has scenic score zero: at least one of
/// its four views ends at once.
pub proof fn lemma_edge_score_zero(g: Seq<Seq<u8>>, r: int, c: int)
    requires
        is_grid(g),
        in_grid(g, r, c),
        r == 0 || r == n_rows(g) - 1 || c == 0 || c == n_cols(g) - 1,
    ensures
        scenic_score(g, r, c) == 0,
{
    let u = distance_up(g, r, c);
    let l = distance_left(g, r, c);
    let rt = distance_right(g, r, c);
    let d = distance_down(g, r, c);
    assert(u == 0 || l == 0 || rt == 0 || d == 0);
    assert(u * l * rt * d == 0) by (nonlinear_arith)
        requires
            u == 0 || l == 0 || rt == 0 || d == 0,
    ;
}

/// Multiplying by a positive factor never makes a product smaller.
proof fn lemma_mul_grows(a: nat, b: nat)
    requires
        b >= 1,
    ensures
        a * b >= a,
{
    assert(a * b >= a) by (nonlinear_arith)
        requires
            b >= 1,
    ;
}

/// The scenic score of `coordinates`, or `None` when it does not fit in a `usize`.
pub fn visibility_score(map: &Grid, coordinates: Coord) -> (s: Option<usize>)
    requires
        map.wf(),
        in_grid(map@, coordinates.0 as int, coordinates.1 as int),
    ensures
        s is Some <==> scenic_score(map@, coordinates.0 as int, coordinates.1 as int)
            <= usize::MAX,
        s is Some ==> s->Some_0 == scenic_score(
            map@,
            coordinates.0 as int,
            coordinates.1 as int,
        ),
{
    let up = viewing_distance_up(map, coordinates);
    let left = viewing_distance_left(map, coordinates);
    let right = viewing_distance_right(map, coordinates);
    let down = viewing_distance_down(map, coordinates);
    let ghost score = scenic_score(map@, coordinates.0 as int, coordinates.1 as int);
    assert(score == up as nat * left as nat * right as nat * down as nat);
    if up == 0 || left == 0 || right == 0 || down == 0 {
        assert(score == 0) by (nonlinear_arith)
            requires
                score == up as nat * left as nat * right as nat * down as nat,
                up == 0 || left == 0 || right == 0 || down == 0,
        ;
        return Some(0);
    }
    match up.checked_mul(left) {
        None => {
            proof {
                lemma_mul_grows(up as nat * left as nat, right as nat);
                lemma_mul_grows(up as nat * left as nat * right as nat, down as nat);
            }
            None
        },
        Some(a) => match a.checked_mul(right) {
            None => {
                proof {
                    lemma_mul_grows(a as nat * right as nat, down as nat);
                }
                None
            },
            Some(b) => b.checked_mul(down),
        },
    }
}

/// `best` is the highest scenic score of the grid, or `None` when some score
/// does not fit in a `usize`.
pub open spec fn is_best_score(g: Seq<Seq<u8>>, best: Option<usize>) -> bool {
    match best {
        None => exists|r: int, c: int| in_grid(g, r, c) && scenic_score(g, r, c) > usize::MAX,
        Some(m) => {
            &&& forall|r: int, c: int| in_grid(g, r, c) ==> scenic_score(g, r, c) <= m
            &&& exists|r: int, c: int| in_grid(g, r, c) && scenic_score(g, r, c) == m
        },
    }
}

/// The highest scenic score over all trees of the grid.
pub fn max_scenic_score(map: &Grid) -> (best: Option<usize>)
    requires
        map.wf(),
    ensures
        is_best_score(map@, best),
{
    let ghost g = map@;
    let rows = map.rows();
    let cols = map.cols();
    let mut max_visibility_score: usize = 0;
    let mut row: usize = 0;
    while row < rows
        invariant
            map.wf(),
            g == map@,
            rows == n_rows(g),
            cols == n_cols(g),
            row <= rows,
            forall|r: int, c: int|
                0 <= r < row && 0 <= c < cols ==> scenic_score(g, r, c)
                    <= max_visibility_score,
            max_visibility_score == 0 || exists|r: int, c: int|
                0 <= r < row && 0 <= c < cols && scenic_score(g, r, c)
                    == max_visibility_score,
        decreases rows - row,
    {
        let mut col: usize = 0;
        while col < cols
            invariant
                map.wf(),
                g == map@,
                rows == n_rows(g),
                cols == n_cols(g),
                row < rows,
                col <= cols,
                forall|r: int, c: int|
                    (0 <= r < row && 0 <= c < cols) || (r == row && 0 <= c < col) ==> scenic_score(
                        g,
                        r,
                        c,
                    ) <= max_visibility_score,
                max_visibility_score == 0 || exists|r: int, c: int|
                    ((0 <= r < row && 0 <= c < cols) || (r == row && 0 <= c < col))
                        && scenic_score(g, r, c) == max_visibility_score,
            decreases cols - col,
        {
            match visibility_score(map, (row, col)) {
                None => {
                    assert(in_grid(g, row as int, col as int) && scenic_score(
                        g,
                        row as int,
                        col as int,
                    ) > usize::MAX);
                    return None;
                },
                Some(vs) => {
                    if vs > max_visibility_score {
                        max_visibility_score = vs;
                    }
                },
            }
            col = col + 1;
        }
        row = row + 1;
    }
    proof {
        if max_visibility_score == 0 {
            lemma_edge_score_zero(g, 0, 0);
        }
    }
    Some(max_visibility_score)
}

} // verus!
