//! Tree-grid analysis: which trees of a height map can be seen from outside
//! the grid, and how far the view reaches from each tree.

pub mod grid;
pub mod visibility;
pub mod scenic;

use vstd::prelude::*;
use crate::grid::{ParseError, chars_of, in_grid, parse_map, parse_outcome};
use crate::scenic::{is_best_score, max_scenic_score, scenic_score};
use crate::visibility::{visible_count, visible_set};

verus! {

/// `r` is what analysing `input` gives: the reading error, or the number of
/// visible trees together with the best scenic score.
pub open spec fn is_analysis_of(
    input: Seq<String>,
    r: Result<(usize, Option<usize>), ParseError>,
) -> bool {
    match parse_outcome(chars_of(input)) {
        Err(e) => r == Err::<(usize, Option<usize>), ParseError>(e),
        Ok(g) => {
            &&& r is Ok
            &&& r->Ok_0.0 == visible_set(g).len()
            &&& is_best_score(g, r->Ok_0.1)
        },
    }
}

/// Reads the height map from its lines and computes how many trees can be
/// seen from outside and the highest scenic score.
pub fn analyze(input: Vec<String>) -> (r: Result<(usize, Option<usize>), ParseError>)
    ensures
        is_analysis_of(input@, r),
{
    match parse_map(input) {
        Err(e) => Err(e),
        Ok(map) => {
            let visible = visible_count(&map);
            let best = max_scenic_score(&map);
            Ok((visible, best))
        },
    }
}

/// Analysing the same lines twice gives the same answer both times.
pub proof fn lemma_analysis_repeatable(
    input: Seq<String>,
    r1: Result<(usize, Option<usize>), ParseError>,
    r2: Result<(usize, Option<usize>), ParseError>,
)
    requires
        is_analysis_of(input, r1),
        is_analysis_of(input, r2),
    ensures
        r1 == r2,
{
    if let Ok(g) = parse_outcome(chars_of(input)) {
        let b1 = r1->Ok_0.1;
        let b2 = r2->Ok_0.1;
        match (b1, b2) {
            (Some(m1), Some(m2)) => {
                let (a1, c1) = choose|a: int, c: int|
                    in_grid(g, a, c) && scenic_score(g, a, c) == m1;
                let (a2, c2) = choose|a: int, c: int|
                    in_grid(g, a, c) && scenic_score(g, a, c) == m2;
                assert(m1 <= m2 && m2 <= m1);
            },
            (Some(m1), None) => {
                let (a, c) = choose|a: int, c: int|
                    in_grid(g, a, c) && scenic_score(g, a, c)
                        > usize::MAX;
                assert(scenic_score(g, a, c) <= m1);
            },
            (None, Some(m2)) => {
                let (a, c) = choose|a: int, c: int|
                    in_grid(g, a, c) && scenic_score(g, a, c)
                        > usize::MAX;
                assert(scenic_score(g, a, c) <= m2);
            },
            (None, None) => {},
        }
    }
}

} // verus!
