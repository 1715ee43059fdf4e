use treehouse::analyze;
use treehouse::grid::{
    parse_map, rotate_left_coords, rotate_right_coords, rotated_left_mat, rotated_right_mat, Grid,
    ParseError,
};
use treehouse::scenic::{
    max_scenic_score, viewing_distance_down, viewing_distance_left, viewing_distance_right,
    viewing_distance_up, visibility_score,
};
use treehouse::visibility::{
    visible_count, visible_from_bottom, visible_from_left, visible_from_right,
    visible_trees, visible_trees_from_top,
};

fn lines(rows: &[&str]) -> Vec<String> {
    rows.iter().map(|r| r.to_string()).collect()
}

fn example() -> Vec<String> {
    lines(&["30373", "25512", "65332", "33549", "35390"])
}

fn example_grid() -> Grid {
    parse_map(example()).unwrap()
}

fn heights(g: &Grid) -> Vec<Vec<u8>> {
    (0..g.rows())
        .map(|r| (0..g.cols()).map(|c| g.height(r, c)).collect())
        .collect()
}

#[test]
fn example_grid_end_to_end() {
    assert_eq!(analyze(example()), Ok((21, Some(8))));
}

#[test]
fn example_best_tree_scores_eight() {
    let g = example_grid();
    assert_eq!(visibility_score(&g, (3, 2)), Some(8));
    assert_eq!(max_scenic_score(&g), Some(8));
    assert_eq!(visible_count(&g), 21);
}

#[test]
fn single_tree_grid() {
    assert_eq!(analyze(lines(&["5"])), Ok((1, Some(0))));
    let g = parse_map(lines(&["5"])).unwrap();
    assert_eq!(visible_trees(&g), vec![(0, 0)]);
}

#[test]
fn parse_reads_digits() {
    let g = parse_map(lines(&["012", "789"])).unwrap();
    assert_eq!(g.rows(), 2);
    assert_eq!(g.cols(), 3);
    assert_eq!(heights(&g), vec![vec![0, 1, 2], vec![7, 8, 9]]);
}

#[test]
fn parse_rejects_empty_input() {
    assert_eq!(parse_map(vec![]).err(), Some(ParseError::Empty));
    assert_eq!(parse_map(lines(&[""])).err(), Some(ParseError::Empty));
    assert_eq!(analyze(vec![]), Err(ParseError::Empty));
}

#[test]
fn parse_rejects_ragged_lines() {
    assert_eq!(parse_map(lines(&["123", "12"])).err(), Some(ParseError::Ragged));
    assert_eq!(parse_map(lines(&["12", "1a3"])).err(), Some(ParseError::Ragged));
}

#[test]
fn parse_rejects_non_digits() {
    assert_eq!(parse_map(lines(&["123", "1x3"])).err(), Some(ParseError::NotADigit));
    assert_eq!(parse_map(lines(&["1-3"])).err(), Some(ParseError::NotADigit));
    assert_eq!(parse_map(lines(&["1é3"])).err(), Some(ParseError::NotADigit));
}

#[test]
fn rotation_round_trip() {
    let (rows, cols) = (3usize, 5usize);
    for r in 0..rows {
        for c in 0..cols {
            let left = rotate_left_coords(rows, cols, (r, c));
            assert!(left.0 < cols && left.1 < rows);
            assert_eq!(rotate_right_coords(cols, rows, left), (r, c));
            let right = rotate_right_coords(rows, cols, (r, c));
            assert!(right.0 < cols && right.1 < rows);
            assert_eq!(rotate_left_coords(cols, rows, right), (r, c));
        }
    }
    assert_eq!(rotate_left_coords(3, 5, (0, 0)), (4, 0));
    assert_eq!(rotate_right_coords(3, 5, (0, 0)), (0, 2));
}

#[test]
fn rotated_grids() {
    let g = parse_map(lines(&["123", "456"])).unwrap();
    let right = rotated_right_mat(&g);
    assert_eq!(heights(&right), vec![vec![4, 1], vec![5, 2], vec![6, 3]]);
    let left = rotated_left_mat(&g);
    assert_eq!(heights(&left), vec![vec![3, 6], vec![2, 5], vec![1, 4]]);
}

#[test]
fn edges_are_visible_from_their_side() {
    let g = example_grid();
    let (rows, cols) = (g.rows(), g.cols());
    let top = visible_trees_from_top(&g);
    let bottom = visible_from_bottom(&g);
    let left = visible_from_left(&g);
    let right = visible_from_right(&g);
    for c in 0..cols {
        assert!(top.contains(&(0, c)));
        assert!(bottom.contains(&(rows - 1, c)));
    }
    for r in 0..rows {
        assert!(left.contains(&(r, 0)));
        assert!(right.contains(&(r, cols - 1)));
    }
}

#[test]
fn directional_scans_on_example() {
    let g = example_grid();
    let mut top = visible_trees_from_top(&g);
    top.sort();
    assert_eq!(
        top,
        vec![(0, 0), (0, 1), (0, 2), (0, 3), (0, 4), (1, 1), (1, 2), (2, 0), (3, 4), (4, 3)]
    );
    let mut left = visible_from_left(&g);
    left.sort();
    assert_eq!(
        left,
        vec![(0, 0), (0, 3), (1, 0), (1, 1), (2, 0), (3, 0), (3, 2), (3, 4), (4, 0), (4, 1), (4, 3)]
    );
    let mut right = visible_from_right(&g);
    right.sort();
    assert_eq!(
        right,
        vec![(0, 3), (0, 4), (1, 2), (1, 4), (2, 0), (2, 1), (2, 3), (2, 4), (3, 4), (4, 3), (4, 4)]
    );
    let mut bottom = visible_from_bottom(&g);
    bottom.sort();
    assert_eq!(bottom, vec![(2, 0), (3, 2), (3, 4), (4, 0), (4, 1), (4, 2), (4, 3), (4, 4)]);
}

#[test]
fn single_peak_counted_once() {
    let g = parse_map(lines(&["1111", "1191", "1111", "1111"])).unwrap();
    assert!(visible_trees_from_top(&g).contains(&(1, 2)));
    assert!(visible_from_bottom(&g).contains(&(1, 2)));
    assert!(visible_from_left(&g).contains(&(1, 2)));
    assert!(visible_from_right(&g).contains(&(1, 2)));
    let all = visible_trees(&g);
    assert_eq!(all.iter().filter(|p| **p == (1, 2)).count(), 1);
    assert_eq!(visible_count(&g), 13);
}

#[test]
fn visible_set_has_no_repeats() {
    let g = example_grid();
    let all = visible_trees(&g);
    let mut sorted = all.clone();
    sorted.sort();
    sorted.dedup();
    assert_eq!(sorted.len(), all.len());
    assert_eq!(all.len(), 21);
}

#[test]
fn edge_trees_score_zero() {
    let g = example_grid();
    let (rows, cols) = (g.rows(), g.cols());
    for r in 0..rows {
        for c in 0..cols {
            if r == 0 || c == 0 || r == rows - 1 || c == cols - 1 {
                assert_eq!(visibility_score(&g, (r, c)), Some(0));
            }
        }
    }
}

#[test]
fn viewing_distances_on_example() {
    let g = example_grid();
    assert_eq!(viewing_distance_up(&g, (1, 2)), 1);
    assert_eq!(viewing_distance_left(&g, (1, 2)), 1);
    assert_eq!(viewing_distance_right(&g, (1, 2)), 2);
    assert_eq!(viewing_distance_down(&g, (1, 2)), 2);
    assert_eq!(visibility_score(&g, (1, 2)), Some(4));
    assert_eq!(viewing_distance_up(&g, (3, 2)), 2);
    assert_eq!(viewing_distance_left(&g, (3, 2)), 2);
    assert_eq!(viewing_distance_down(&g, (3, 2)), 1);
    assert_eq!(viewing_distance_right(&g, (3, 2)), 2);
    assert_eq!(viewing_distance_up(&g, (0, 0)), 0);
    assert_eq!(viewing_distance_right(&g, (4, 4)), 0);
}

#[test]
fn view_runs_to_the_edge_when_unblocked() {
    let g = parse_map(lines(&["11111", "11911", "11111"])).unwrap();
    assert_eq!(viewing_distance_left(&g, (1, 2)), 2);
    assert_eq!(viewing_distance_right(&g, (1, 2)), 2);
    assert_eq!(viewing_distance_up(&g, (1, 2)), 1);
    assert_eq!(viewing_distance_down(&g, (1, 2)), 1);
    assert_eq!(max_scenic_score(&g), Some(4));
}

#[test]
fn analysis_is_repeatable() {
    let first = analyze(example());
    let second = analyze(example());
    assert_eq!(first, second);
}
