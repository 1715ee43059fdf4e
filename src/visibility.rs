//! Which trees can be seen from outside the grid.
//!
//! One scan looks down each column from the top edge; the other three edges
//! are handled by turning the grid so that the edge comes on top, scanning,
//! and mapping the coordinates found back onto the unturned grid.
use vstd::prelude::*;
use crate::grid::{
    Coord, Grid, in_grid, is_grid, left_turn, lemma_turn_round_trip, n_cols, n_rows,
    right_turn, rotate_left_coords, rotate_right_coords, rotated_left_mat, rotated_right_mat,
    turned_left, turned_right,
};

verus! {

/// Every tree above `(r, c)` in its column is lower than it.
pub open spec fn visible_from_top_at(g: Seq<Seq<u8>>, r: int, c: int) -> bool {
    forall|k: int| 0 <= k < r ==> #[trigger] g[k][c] < g[r][c]
}

/// Every tree below `(r, c)` in its column is lower than it.
pub open spec fn visible_from_bottom_at(g: Seq<Seq<u8>>, r: int, c: int) -> bool {
    forall|k: int| r < k < n_rows(g) ==> #[trigger] g[k][c] < g[r][c]
}

/// Every tree left of `(r, c)` in its row is lower than it.
pub open spec fn visible_from_left_at(g: Seq<Seq<u8>>, r: int, c: int) -> bool {
    forall|k: int| 0 <= k < c ==> #[trigger] g[r][k] < g[r][c]
}

/// Every tree right of `(r, c)` in its row is lower than it.
pub open spec fn visible_from_right_at(g: Seq<Seq<u8>>, r: int, c: int) -> bool {
    forall|k: int| c < k < n_cols(g) ==> #[trigger] g[r][k] < g[r][c]
}

/// The tree at `(r, c)` can be seen from at least one edge.
pub open spec fn is_visible(g: Seq<Seq<u8>>, r: int, c: int) -> bool {
    visible_from_top_at(g, r, c) || visible_from_bottom_at(g, r, c) || visible_from_left_at(
        g,
        r,
        c,
    ) || visible_from_right_at(g, r, c)
}

/// All coordinates of trees that can be seen from outside the grid.
pub open spec fn visible_set(g: Seq<Seq<u8>>) -> Set<Coord> {
    Set::new(|p: Coord| in_grid(g, p.0 as int, p.1 as int) && is_visible(g, p.0 as int, p.1 as int))
}

/// `p` comes before `(row, col)` when columns are walked left to right and
/// each column top to bottom.
spec fn scanned_before(p: Coord, row: int, col: int) -> bool {
    p.1 < col || (p.1 == col && p.0 < row)
}

/// The trees that can be seen from the top edge, column by column.
pub fn visible_trees_from_top(map: &Grid) -> (r: Vec<Coord>)
    requires
        map.wf(),
    ensures
        r@.no_duplicates(),
        forall|p: Coord|
            r@.contains(p) <==> in_grid(map@, p.0 as int, p.1 as int) && visible_from_top_at(
                map@,
                p.0 as int,
                p.1 as int,
            ),
{
    let ghost g = map@;
    let rows = map.rows();
    let cols = map.cols();
    let mut coords: Vec<Coord> = Vec::new();
    let mut col: usize = 0;
    while col < cols
        invariant
            map.wf(),
            g == map@,
            rows == n_rows(g),
            cols == n_cols(g),
            col <= cols,
            coords@.no_duplicates(),
            forall|i: int|
                0 <= i < coords@.len() ==> in_grid(g, coords@[i].0 as int, coords@[i].1 as int)
                    && visible_from_top_at(g, coords@[i].0 as int, coords@[i].1 as int)
                    && scanned_before(#[trigger] coords@[i], 0, col as int),
            forall|p: Coord|
                in_grid(g, p.0 as int, p.1 as int) && visible_from_top_at(
                    g,
                    p.0 as int,
                    p.1 as int,
                ) && scanned_before(p, 0, col as int) ==> #[trigger] coords@.contains(p),
        decreases cols - col,
    {
        let mut current_max: i32 = -1;
        let mut row: usize = 0;
        while row < rows
            invariant
                map.wf(),
                g == map@,
                rows == n_rows(g),
                cols == n_cols(g),
                col < cols,
                row <= rows,
                coords@.no_duplicates(),
                -1 <= current_max <= 9,
                forall|k: int| 0 <= k < row ==> #[trigger] g[k][col as int] <= current_max,
                current_max == -1 || exists|k: int|
                    0 <= k < row && #[trigger] g[k][col as int] == current_max,
                forall|i: int|
                    0 <= i < coords@.len() ==> in_grid(
                        g,
                        coords@[i].0 as int,
                        coords@[i].1 as int,
                    ) && visible_from_top_at(g, coords@[i].0 as int, coords@[i].1 as int)
                        && scanned_before(#[trigger] coords@[i], row as int, col as int),
                forall|p: Coord|
                    in_grid(g, p.0 as int, p.1 as int) && visible_from_top_at(
                        g,
                        p.0 as int,
                        p.1 as int,
                    ) && scanned_before(p, row as int, col as int) ==> #[trigger] coords@.contains(
                        p,
                    ),
            decreases rows - row,
        {
            let h = map.height(row, col);
            let ghost old_coords = coords@;
            if (h as i32) > current_max {
                proof {
                    assert forall|k: int| 0 <= k < row implies #[trigger] g[k][col as int]
                        < g[row as int][col as int] by {
                        assert(g[k][col as int] <= current_max);
                    }
                }
                assert(!old_coords.contains((row, col))) by {
                    if old_coords.contains((row, col)) {
                        let i = choose|i: int|
                            0 <= i < old_coords.len() && old_coords[i] == (row, col);
                        assert(scanned_before(old_coords[i], row as int, col as int));
                    }
                }
                coords.push((row, col));
                current_max = h as i32;
                proof {
                    assert forall|p: Coord|
                        in_grid(g, p.0 as int, p.1 as int) && visible_from_top_at(
                            g,
                            p.0 as int,
                            p.1 as int,
                        ) && scanned_before(p, row + 1, col as int) implies #[trigger] coords@.contains(
                        p,
                    ) by {
                        if p == (row, col) {
                            assert(coords@[old_coords.len() as int] == p);
                        } else {
                            assert(old_coords.contains(p));
                            let i = choose|i: int| 0 <= i < old_coords.len() && old_coords[i] == p;
                            assert(coords@[i] == p);
                        }
                    }
                }
            } else {
                proof {
                    if current_max >= 0 {
                        let k = choose|k: int| 0 <= k < row && #[trigger] g[k][col as int] == current_max;
                        assert(!visible_from_top_at(g, row as int, col as int));
                    }
                }
            }
            row = row + 1;
        }
        col = col + 1;
    }
    coords
}

/// A tree seen from the top of the right-turned grid is the tree at the turned-back
/// place seen from the left of the grid.
proof fn lemma_left_edge_on_top(g: Seq<Seq<u8>>, q: Coord)
    requires
        is_grid(g),
        q.0 < n_cols(g),
        q.1 < n_rows(g),
    ensures
        in_grid(g, left_turn(n_cols(g) as usize, n_rows(g) as usize, q).0 as int,
            left_turn(n_cols(g) as usize, n_rows(g) as usize, q).1 as int),
        visible_from_top_at(turned_right(g), q.0 as int, q.1 as int) <==> visible_from_left_at(
            g,
            left_turn(n_cols(g) as usize, n_rows(g) as usize, q).0 as int,
            left_turn(n_cols(g) as usize, n_rows(g) as usize, q).1 as int,
        ),
{
    let t = turned_right(g);
    let r = n_rows(g) - 1 - q.1;
    assert(left_turn(n_cols(g) as usize, n_rows(g) as usize, q) == (r as usize, q.0));
    assert forall|k: int| 0 <= k < q.0 implies #[trigger] t[k][q.1 as int] == g[r][k] by {}
    assert(t[q.0 as int][q.1 as int] == g[r][q.0 as int]);
    if visible_from_top_at(t, q.0 as int, q.1 as int) {
        assert forall|k: int| 0 <= k < q.0 implies #[trigger] g[r][k] < g[r][q.0 as int] by {
            assert(t[k][q.1 as int] == g[r][k]);
        }
    }
    if visible_from_left_at(g, r, q.0 as int) {
        assert forall|k: int| 0 <= k < q.0 implies #[trigger] t[k][q.1 as int] < t[q.0 as int][q.1 as int] by {
            assert(g[r][k] < g[r][q.0 as int]);
        }
    }
}

/// A tree seen from the top of the left-turned grid is the tree at the turned-back
/// place seen from the right of the grid.
proof fn lemma_right_edge_on_top(g: Seq<Seq<u8>>, q: Coord)
    requires
        is_grid(g),
        q.0 < n_cols(g),
        q.1 < n_rows(g),
    ensures
        in_grid(g, right_turn(n_cols(g) as usize, n_rows(g) as usize, q).0 as int,
            right_turn(n_cols(g) as usize, n_rows(g) as usize, q).1 as int),
        visible_from_top_at(turned_left(g), q.0 as int, q.1 as int) <==> visible_from_right_at(
            g,
            right_turn(n_cols(g) as usize, n_rows(g) as usize, q).0 as int,
            right_turn(n_cols(g) as usize, n_rows(g) as usize, q).1 as int,
        ),
{
    let t = turned_left(g);
    let c = n_cols(g) - 1 - q.0;
    let r = q.1 as int;
    assert(right_turn(n_cols(g) as usize, n_rows(g) as usize, q) == (q.1, c as usize));
    assert(t[q.0 as int][q.1 as int] == g[r][c]);
    if visible_from_top_at(t, q.0 as int, q.1 as int) {
        assert forall|k: int| c < k < n_cols(g) implies #[trigger] g[r][k] < g[r][c] by {
            let i = n_cols(g) - 1 - k;
            assert(t[i][q.1 as int] == g[r][k]);
        }
    }
    if visible_from_right_at(g, r, c) {
        assert forall|k: int| 0 <= k < q.0 implies #[trigger] t[k][q.1 as int] < t[q.0 as int][q.1 as int] by {
            assert(t[k][q.1 as int] == g[r][n_cols(g) - 1 - k]);
        }
    }
}

/// The grid turned left twice is the grid turned upside down.
proof fn lemma_half_turn(g: Seq<Seq<u8>>, i: int, j: int)
    requires
        is_grid(g),
        0 <= i < n_rows(g),
        0 <= j < n_cols(g),
    ensures
        is_grid(turned_left(turned_left(g))),
        n_rows(turned_left(turned_left(g))) == n_rows(g),
        n_cols(turned_left(turned_left(g))) == n_cols(g),
        turned_left(turned_left(g))[i][j] == g[n_rows(g) - 1 - i][n_cols(g) - 1 - j],
{
    let t = turned_left(g);
    assert(n_rows(t) == n_cols(g));
    assert(n_cols(t) == n_rows(g));
    assert(is_grid(t));
}

/// The image of `q` under the two right turns that undo a half turn.
spec fn half_turn_back(rows: usize, cols: usize, q: Coord) -> Coord {
    right_turn(cols, rows, right_turn(rows, cols, q))
}

/// A tree seen from the top of the upside-down grid is the tree at the turned-back
/// place seen from the bottom of the grid.
proof fn lemma_bottom_edge_on_top(g: Seq<Seq<u8>>, q: Coord)
    requires
        is_grid(g),
        q.0 < n_rows(g),
        q.1 < n_cols(g),
    ensures
        half_turn_back(n_rows(g) as usize, n_cols(g) as usize, q) == (
        (n_rows(g) - 1 - q.0) as usize,
        (n_cols(g) - 1 - q.1) as usize,
        ),
        visible_from_top_at(turned_left(turned_left(g)), q.0 as int, q.1 as int)
            <==> visible_from_bottom_at(g, n_rows(g) - 1 - q.0, n_cols(g) - 1 - q.1),
{
    let t = turned_left(turned_left(g));
    let r = n_rows(g) - 1 - q.0;
    let c = n_cols(g) - 1 - q.1;
    lemma_half_turn(g, q.0 as int, q.1 as int);
    if visible_from_top_at(t, q.0 as int, q.1 as int) {
        assert forall|k: int| r < k < n_rows(g) implies #[trigger] g[k][c] < g[r][c] by {
            lemma_half_turn(g, n_rows(g) - 1 - k, q.1 as int);
            assert(t[n_rows(g) - 1 - k][q.1 as int] == g[k][c]);
        }
    }
    if visible_from_bottom_at(g, r, c) {
        assert forall|k: int| 0 <= k < q.0 implies #[trigger] t[k][q.1 as int] < t[q.0 as int][q.1 as int] by {
            lemma_half_turn(g, k, q.1 as int);
            assert(g[n_rows(g) - 1 - k][c] < g[r][c]);
        }
    }
}

/// The trees that can be seen from the left edge.
pub fn visible_from_left(map: &Grid) -> (r: Vec<Coord>)
    requires
        map.wf(),
    ensures
        r@.no_duplicates(),
        forall|p: Coord|
            r@.contains(p) <==> in_grid(map@, p.0 as int, p.1 as int) && visible_from_left_at(
                map@,
                p.0 as int,
                p.1 as int,
            ),
{
    let ghost g = map@;
    let rotated = rotated_right_mat(map);
    let r_rows = rotated.rows();
    let r_cols = rotated.cols();
    let top = visible_trees_from_top(&rotated);
    let mut out: Vec<Coord> = Vec::new();
    let mut i: usize = 0;
    while i < top.len()
        invariant
            rotated.wf(),
            rotated@ == turned_right(g),
            r_rows == n_rows(rotated@),
            r_cols == n_cols(rotated@),
            forall|p: Coord|
                top@.contains(p) <==> in_grid(rotated@, p.0 as int, p.1 as int)
                    && visible_from_top_at(rotated@, p.0 as int, p.1 as int),
            top@.no_duplicates(),
            out@.no_duplicates(),
            i <= top@.len(),
            out@.len() == i,
            forall|k: int| 0 <= k < i ==> #[trigger] out@[k] == left_turn(r_rows, r_cols, top@[k]),
        decreases top@.len() - i,
    {
        let (row, col) = top[i];
        assert(top@.contains(top@[i as int]));
        proof {
            assert forall|k: int| 0 <= k < i implies out@[k] != left_turn(r_rows, r_cols, top@[i as int]) by {
                assert(top@.contains(top@[k]));
                lemma_turn_round_trip(r_rows, r_cols, top@[k]);
                lemma_turn_round_trip(r_rows, r_cols, top@[i as int]);
                assert(top@[k] != top@[i as int]);
            }
        }
        out.push(rotate_left_coords(r_rows, r_cols, (row, col)));
        i = i + 1;
    }
    proof {
        assert(r_rows == n_cols(g) && r_cols == n_rows(g));
        assert forall|p: Coord|
            out@.contains(p) <==> in_grid(g, p.0 as int, p.1 as int) && visible_from_left_at(
                g,
                p.0 as int,
                p.1 as int,
            ) by {
            if out@.contains(p) {
                let k = choose|k: int| 0 <= k < out@.len() && out@[k] == p;
                assert(top@.contains(top@[k]));
                lemma_left_edge_on_top(g, top@[k]);
            }
            if in_grid(g, p.0 as int, p.1 as int) && visible_from_left_at(g, p.0 as int, p.1 as int) {
                let q = right_turn(n_rows(g) as usize, n_cols(g) as usize, p);
                lemma_turn_round_trip(n_rows(g) as usize, n_cols(g) as usize, p);
                lemma_left_edge_on_top(g, q);
                assert(top@.contains(q));
                let k = choose|k: int| 0 <= k < top@.len() && top@[k] == q;
                assert(out@[k] == p);
            }
        }
    }
    out
}

/// The trees that can be seen from the right edge.
pub fn visible_from_right(map: &Grid) -> (r: Vec<Coord>)
    requires
        map.wf(),
    ensures
        r@.no_duplicates(),
        forall|p: Coord|
            r@.contains(p) <==> in_grid(map@, p.0 as int, p.1 as int) && visible_from_right_at(
                map@,
                p.0 as int,
                p.1 as int,
            ),
{
    let ghost g = map@;
    let rotated = rotated_left_mat(map);
    let r_rows = rotated.rows();
    let r_cols = rotated.cols();
    let top = visible_trees_from_top(&rotated);
    let mut out: Vec<Coord> = Vec::new();
    let mut i: usize = 0;
    while i < top.len()
        invariant
            rotated.wf(),
            rotated@ == turned_left(g),
            r_rows == n_rows(rotated@),
            r_cols == n_cols(rotated@),
            forall|p: Coord|
                top@.contains(p) <==> in_grid(rotated@, p.0 as int, p.1 as int)
                    && visible_from_top_at(rotated@, p.0 as int, p.1 as int),
            top@.no_duplicates(),
            out@.no_duplicates(),
            i <= top@.len(),
            out@.len() == i,
            forall|k: int| 0 <= k < i ==> #[trigger] out@[k] == right_turn(r_rows, r_cols, top@[k]),
        decreases top@.len() - i,
    {
        let (row, col) = top[i];
        assert(top@.contains(top@[i as int]));
        proof {
            assert forall|k: int| 0 <= k < i implies out@[k] != right_turn(r_rows, r_cols, top@[i as int]) by {
                assert(top@.contains(top@[k]));
                lemma_turn_round_trip(r_rows, r_cols, top@[k]);
                lemma_turn_round_trip(r_rows, r_cols, top@[i as int]);
                assert(top@[k] != top@[i as int]);
            }
        }
        out.push(rotate_right_coords(r_rows, r_cols, (row, col)));
        i = i + 1;
    }
    proof {
        assert(r_rows == n_cols(g) && r_cols == n_rows(g));
        assert forall|p: Coord|
            out@.contains(p) <==> in_grid(g, p.0 as int, p.1 as int) && visible_from_right_at(
                g,
                p.0 as int,
                p.1 as int,
            ) by {
            if out@.contains(p) {
                let k = choose|k: int| 0 <= k < out@.len() && out@[k] == p;
                assert(top@.contains(top@[k]));
                lemma_right_edge_on_top(g, top@[k]);
            }
            if in_grid(g, p.0 as int, p.1 as int) && visible_from_right_at(g, p.0 as int, p.1 as int) {
                let q = left_turn(n_rows(g) as usize, n_cols(g) as usize, p);
                lemma_turn_round_trip(n_rows(g) as usize, n_cols(g) as usize, p);
                lemma_right_edge_on_top(g, q);
                assert(top@.contains(q));
                let k = choose|k: int| 0 <= k < top@.len() && top@[k] == q;
                assert(out@[k] == p);
            }
        }
    }
    out
}

/// The trees that can be seen from the bottom edge.
pub fn visible_from_bottom(map: &Grid) -> (r: Vec<Coord>)
    requires
        map.wf(),
    ensures
        r@.no_duplicates(),
        forall|p: Coord|
            r@.contains(p) <==> in_grid(map@, p.0 as int, p.1 as int) && visible_from_bottom_at(
                map@,
                p.0 as int,
                p.1 as int,
            ),
{
    let ghost g = map@;
    let once = rotated_left_mat(map);
    let rotated = rotated_left_mat(&once);
    let r_rows = rotated.rows();
    let r_cols = rotated.cols();
    let top = visible_trees_from_top(&rotated);
    proof {
        lemma_half_turn(g, 0, 0);
    }
    let mut out: Vec<Coord> = Vec::new();
    let mut i: usize = 0;
    while i < top.len()
        invariant
            rotated.wf(),
            rotated@ == turned_left(turned_left(g)),
            is_grid(g),
            g == map@,
            r_rows == n_rows(g),
            r_cols == n_cols(g),
            r_rows == n_rows(rotated@),
            r_cols == n_cols(rotated@),
            forall|p: Coord|
                top@.contains(p) <==> in_grid(rotated@, p.0 as int, p.1 as int)
                    && visible_from_top_at(rotated@, p.0 as int, p.1 as int),
            top@.no_duplicates(),
            out@.no_duplicates(),
            i <= top@.len(),
            out@.len() == i,
            forall|k: int| 0 <= k < i ==> #[trigger] out@[k] == half_turn_back(r_rows, r_cols, top@[k]),
        decreases top@.len() - i,
    {
        let (row, col) = top[i];
        assert(top@.contains(top@[i as int]));
        proof {
            assert forall|k: int| 0 <= k < i implies out@[k] != half_turn_back(r_rows, r_cols, top@[i as int]) by {
                assert(top@.contains(top@[k]));
                lemma_bottom_edge_on_top(map@, top@[k]);
                lemma_bottom_edge_on_top(map@, top@[i as int]);
                assert(top@[k] != top@[i as int]);
            }
        }
        out.push(
            rotate_right_coords(r_cols, r_rows, rotate_right_coords(r_rows, r_cols, (row, col))),
        );
        i = i + 1;
    }
    proof {
        assert(r_rows == n_rows(g) && r_cols == n_cols(g));
        assert forall|p: Coord|
            out@.contains(p) <==> in_grid(g, p.0 as int, p.1 as int) && visible_from_bottom_at(
                g,
                p.0 as int,
                p.1 as int,
            ) by {
            if out@.contains(p) {
                let k = choose|k: int| 0 <= k < out@.len() && out@[k] == p;
                assert(top@.contains(top@[k]));
                lemma_bottom_edge_on_top(g, top@[k]);
            }
            if in_grid(g, p.0 as int, p.1 as int) && visible_from_bottom_at(g, p.0 as int, p.1 as int) {
                let q: Coord = ((n_rows(g) - 1 - p.0) as usize, (n_cols(g) - 1 - p.1) as usize);
                lemma_bottom_edge_on_top(g, q);
                assert(top@.contains(q));
                let k = choose|k: int| 0 <= k < top@.len() && top@[k] == q;
                assert(out@[k] == p);
            }
        }
    }
    out
}

/// A `rows × cols` table of flags.
spec fn is_mask(mask: Seq<Vec<bool>>, rows: int, cols: int) -> bool {
    &&& mask.len() == rows
    &&& forall|r: int| 0 <= r < rows ==> (#[trigger] mask[r])@.len() == cols
}

/// Raises the flag of every coordinate in `coords`.
fn mark(mask: &mut Vec<Vec<bool>>, coords: &Vec<Coord>, rows: usize, cols: usize)
    requires
        is_mask(old(mask)@, rows as int, cols as int),
        forall|p: Coord| #[trigger] coords@.contains(p) ==> p.0 < rows && p.1 < cols,
    ensures
        is_mask(final(mask)@, rows as int, cols as int),
        forall|r: usize, c: usize|
            r < rows && c < cols ==> (#[trigger] final(mask)@[r as int]@[c as int] <==> (old(
                mask,
            )@[r as int]@[c as int] || coords@.contains((r, c)))),
{
    let ghost start = mask@;
    let mut i: usize = 0;
    while i < coords.len()
        invariant
            is_mask(start, rows as int, cols as int),
            is_mask(mask@, rows as int, cols as int),
            forall|p: Coord| #[trigger] coords@.contains(p) ==> p.0 < rows && p.1 < cols,
            i <= coords@.len(),
            forall|r: usize, c: usize|
                r < rows && c < cols ==> (#[trigger] mask@[r as int]@[c as int] <==> (
                start[r as int]@[c as int] || coords@.take(i as int).contains((r, c)))),
        decreases coords@.len() - i,
    {
        let (r, c) = coords[i];
        assert(coords@.contains(coords@[i as int]));
        let mut row = mask[r].clone();
        assert(row@ =~= mask@[r as int]@);
        row.set(c, true);
        mask.set(r, row);
        proof {
            let seen = coords@.take(i as int);
            let seen2 = coords@.take(i as int + 1);
            assert(seen2 =~= seen.push((r, c)));
            assert forall|a: usize, b: usize| a < rows && b < cols implies (
            #[trigger] mask@[a as int]@[b as int] <==> (start[a as int]@[b as int]
                || seen2.contains((a, b)))) by {
                if seen.contains((a, b)) {
                    let k = choose|k: int| 0 <= k < seen.len() && seen[k] == (a, b);
                    assert(seen2[k] == (a, b));
                }
                if seen2.contains((a, b)) && (a, b) != (r, c) {
                    let k = choose|k: int| 0 <= k < seen2.len() && seen2[k] == (a, b);
                    assert(seen[k] == (a, b));
                }
                if (a, b) == (r, c) {
                    assert(seen2[i as int] == (a, b));
                }
            }
        }
        i = i + 1;
    }
    assert(coords@.take(coords@.len() as int) =~= coords@);
}

/// `p` comes before `q` when rows are read top to bottom, each left to right.
spec fn row_major_before(p: Coord, q: Coord) -> bool {
    p.0 < q.0 || (p.0 == q.0 && p.1 < q.1)
}

/// Every tree that can be seen from at least one edge, each listed once.
pub fn visible_trees(map: &Grid) -> (r: Vec<Coord>)
    requires
        map.wf(),
    ensures
        r@.no_duplicates(),
        forall|p: Coord| r@.contains(p) <==> visible_set(map@).contains(p),
{
    let ghost g = map@;
    let rows = map.rows();
    let cols = map.cols();
    let mut mask: Vec<Vec<bool>> = Vec::new();
    let mut i: usize = 0;
    while i < rows
        invariant
            i <= rows,
            is_mask(mask@, i as int, cols as int),
            forall|r: int, c: int| 0 <= r < i && 0 <= c < cols ==> !#[trigger] mask@[r]@[c],
        decreases rows - i,
    {
        let mut row: Vec<bool> = Vec::new();
        let mut j: usize = 0;
        while j < cols
            invariant
                j <= cols,
                row@.len() == j,
                forall|c: int| 0 <= c < j ==> !#[trigger] row@[c],
            decreases cols - j,
        {
            row.push(false);
            j = j + 1;
        }
        mask.push(row);
        i = i + 1;
    }
    let top = visible_trees_from_top(map);
    let left = visible_from_left(map);
    let right = visible_from_right(map);
    let bottom = visible_from_bottom(map);
    mark(&mut mask, &top, rows, cols);
    mark(&mut mask, &left, rows, cols);
    mark(&mut mask, &right, rows, cols);
    mark(&mut mask, &bottom, rows, cols);
    assert forall|r: usize, c: usize| r < rows && c < cols implies (#[trigger] mask@[r as int]@[c as int]
        <==> visible_set(g).contains((r, c))) by {}
    let mut out: Vec<Coord> = Vec::new();
    let mut r: usize = 0;
    while r < rows
        invariant
            g == map@,
            rows == n_rows(g),
            cols == n_cols(g),
            r <= rows,
            is_mask(mask@, rows as int, cols as int),
            forall|a: usize, b: usize|
                a < rows && b < cols ==> (#[trigger] mask@[a as int]@[b as int]
                    <==> visible_set(g).contains((a, b))),
            forall|k: int|
                0 <= k < out@.len() ==> visible_set(g).contains(#[trigger] out@[k])
                    && out@[k].0 < r,
            forall|k1: int, k2: int|
                0 <= k1 < k2 < out@.len() ==> row_major_before(
                    #[trigger] out@[k1],
                    #[trigger] out@[k2],
                ),
            forall|p: Coord|
                visible_set(g).contains(p) && p.0 < r ==> #[trigger] out@.contains(p),
        decreases rows - r,
    {
        let mut c: usize = 0;
        while c < cols
            invariant
                g == map@,
                rows == n_rows(g),
                cols == n_cols(g),
                r < rows,
                c <= cols,
                is_mask(mask@, rows as int, cols as int),
                forall|a: usize, b: usize|
                    a < rows && b < cols ==> (#[trigger] mask@[a as int]@[b as int]
                        <==> visible_set(g).contains((a, b))),
                forall|k: int|
                    0 <= k < out@.len() ==> visible_set(g).contains(#[trigger] out@[k])
                        && row_major_before(out@[k], (r, c)),
                forall|k1: int, k2: int|
                    0 <= k1 < k2 < out@.len() ==> row_major_before(
                        #[trigger] out@[k1],
                        #[trigger] out@[k2],
                    ),
                forall|p: Coord|
                    visible_set(g).contains(p) && row_major_before(p, (r, c))
                        ==> #[trigger] out@.contains(p),
            decreases cols - c,
        {
            let ghost before = out@;
            if mask[r][c] {
                out.push((r, c));
                proof {
                    assert forall|p: Coord|
                        visible_set(g).contains(p) && row_major_before(
                            p,
                            (r, (c + 1) as usize),
                        ) implies #[trigger] out@.contains(p) by {
                        if p == (r, c) {
                            assert(out@[before.len() as int] == p);
                        } else {
                            assert(before.contains(p));
                            let k = choose|k: int| 0 <= k < before.len() && before[k] == p;
                            assert(out@[k] == p);
                        }
                    }
                }
            }
            c = c + 1;
        }
        r = r + 1;
    }
    proof {
        assert forall|k1: int, k2: int|
            0 <= k1 < out@.len() && 0 <= k2 < out@.len() && k1 != k2 implies out@[k1]
            != out@[k2] by {
            if k1 < k2 {
                assert(row_major_before(out@[k1], out@[k2]));
            } else {
                assert(row_major_before(out@[k2], out@[k1]));
            }
        }
    }
    out
}

/// How many trees can be seen from outside the grid.
pub fn visible_count(map: &Grid) -> (n: usize)
    requires
        map.wf(),
    ensures
        n == visible_set(map@).len(),
{
    let trees = visible_trees(map);
    proof {
        trees@.unique_seq_to_set();
        assert(trees@.to_set() =~= visible_set(map@));
    }
    trees.len()
}

/// Trees on an edge are always seen from that edge: the whole top row from the
/// top, the whole bottom row from the bottom, the whole left column from the
/// left and the whole right column from the right.
pub proof fn lemma_edges_visible(g: Seq<Seq<u8>>)
    requires
        is_grid(g),
    ensures
        forall|c: int| 0 <= c < n_cols(g) ==> #[trigger] visible_from_top_at(g, 0, c),
        forall|c: int|
            0 <= c < n_cols(g) ==> #[trigger] visible_from_bottom_at(g, n_rows(g) - 1, c),
        forall|r: int| 0 <= r < n_rows(g) ==> #[trigger] visible_from_left_at(g, r, 0),
        forall|r: int|
            0 <= r < n_rows(g) ==> #[trigger] visible_from_right_at(g, r, n_cols(g) - 1),
{
}

/// A tree taller than every other tree of the grid is seen from all four
/// edges, so it belongs to the visible set, and a listing of that set without
/// repeats (such as the one `visible_trees` returns) holds it exactly once.
pub proof fn lemma_unique_peak_visible(g: Seq<Seq<u8>>, p: Coord, listed: Seq<Coord>)
    requires
        is_grid(g),
        listed.no_duplicates(),
        forall|q: Coord| listed.contains(q) <==> visible_set(g).contains(q),
        in_grid(g, p.0 as int, p.1 as int),
        forall|r: int, c: int|
            in_grid(g, r, c) && (r, c) != (p.0 as int, p.1 as int) ==> #[trigger] g[r][c]
                < g[p.0 as int][p.1 as int],
    ensures
        visible_from_top_at(g, p.0 as int, p.1 as int),
        visible_from_bottom_at(g, p.0 as int, p.1 as int),
        visible_from_left_at(g, p.0 as int, p.1 as int),
        visible_from_right_at(g, p.0 as int, p.1 as int),
        visible_set(g).contains(p),
        exists|i: int| 0 <= i < listed.len() && listed[i] == p,
        forall|i: int, j: int|
            0 <= i < listed.len() && 0 <= j < listed.len() && #[trigger] listed[i] == p
                && #[trigger] listed[j] == p ==> i == j,
{
    let (r, c) = (p.0 as int, p.1 as int);
    assert forall|k: int| 0 <= k < r implies #[trigger] g[k][c] < g[r][c] by {
        assert(in_grid(g, k, c));
    }
    assert forall|k: int| r < k < n_rows(g) implies #[trigger] g[k][c] < g[r][c] by {
        assert(in_grid(g, k, c));
    }
    assert forall|k: int| 0 <= k < c implies #[trigger] g[r][k] < g[r][c] by {
        assert(in_grid(g, r, k));
    }
    assert forall|k: int| c < k < n_cols(g) implies #[trigger] g[r][k] < g[r][c] by {
        assert(in_grid(g, r, k));
    }
    assert(listed.contains(p));
}

} // verus!
